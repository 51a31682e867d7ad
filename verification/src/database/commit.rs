use vstd::prelude::*;
use crate::database::{contributor, message, CommitRow, Store};
use crate::graph::CommitNode;

verus! {

/// The id of the commit row for (repository `repo_id`, `hash`), if any.
#[verifier::loop_isolation(false)]
pub fn get_id(s: &Store, hash: &String, repo_id: u64) -> (r: Option<u64>)
    ensures
        match r {
            Some(i) => 0 <= i < s.ncommits() && s.commits@[i as int].repo == repo_id
                && s.commits@[i as int].hash@ == hash@,
            None => !s.has_commit(repo_id as int, hash@),
        },
{
    let mut i: usize = 0;
    while i < s.commits.len()
        invariant
            i <= s.commits@.len(),
            forall|j: int| 0 <= j < i
                ==> !((#[trigger] s.commits@[j]).repo == repo_id && s.commits@[j].hash@ == hash@),
        decreases s.commits@.len() - i,
    {
        if s.commits[i].repo == repo_id && s.commits[i].hash == *hash {
            return Some(i as u64);
        }
        i = i + 1;
    }
    None
}

/// The tree hash of commit row `id` of repository `repo_id`, if that row
/// exists.
pub fn get_tree_by_id(s: &Store, id: u64, repo_id: u64) -> (r: Option<String>)
    ensures
        match r {
            Some(t) => 0 <= id < s.ncommits() && s.commits@[id as int].repo == repo_id
                && t@ == s.commits@[id as int].tree@,
            None => !(0 <= id < s.ncommits() && s.commits@[id as int].repo == repo_id),
        },
{
    let n = s.commits.len();
    if id < n as u64 {
        let ix = id as usize;
        if s.commits[ix].repo == repo_id {
            return Some(s.commits[ix].tree.clone());
        }
    }
    None
}

/// The tree hash of the commit row for (repository `repo_id`, `hash`), if
/// that row exists.
pub fn get_tree_by_hash(s: &Store, hash: &String, repo_id: u64) -> (r: Option<String>)
    ensures
        match r {
            Some(t) => exists|i: int| 0 <= i < s.ncommits()
                && (#[trigger] s.commits@[i]).repo == repo_id && s.commits@[i].hash@ == hash@
                && s.commits@[i].tree@ == t@,
            None => !s.has_commit(repo_id as int, hash@),
        },
{
    let n = s.commits.len();
    match get_id(s, hash, repo_id) {
        Some(id) => {
            let ix = id as usize;
            let t = s.commits[ix].tree.clone();
            proof {
                assert(s.commits@[id as int].repo == repo_id
                    && s.commits@[id as int].hash@ == hash@
                    && s.commits@[id as int].tree@ == t@);
            }
            Some(t)
        },
        None => None,
    }
}

/// Insert one commit row for a commit not yet recorded: its hash, tree and
/// commit time, the committer's contributor row (created on demand) and a
/// fresh message row carrying the log text under the author's identity.
pub fn insert(s: &mut Store, obj: &CommitNode, repo_id: u64) -> (r: u64)
    requires
        old(s).wf(),
        repo_id < old(s).nrepos(),
        !old(s).has_commit(repo_id as int, obj.hash@),
    ensures
        final(s).wf(),
        final(s).repositories == old(s).repositories,
        final(s).relations == old(s).relations,
        final(s).editfiles == old(s).editfiles,
        forall|j: int| 0 <= j < old(s).ncontributors()
            ==> #[trigger] final(s).contributors@[j] == old(s).contributors@[j],
        old(s).ncontributors() <= final(s).ncontributors() <= old(s).ncontributors() + 2,
        final(s).nmessages() == old(s).nmessages() + 1,
        forall|j: int| 0 <= j < old(s).nmessages()
            ==> #[trigger] final(s).messages@[j] == old(s).messages@[j],
        r == old(s).ncommits(),
        final(s).ncommits() == old(s).ncommits() + 1,
        forall|j: int| 0 <= j < old(s).ncommits()
            ==> #[trigger] final(s).commits@[j] == old(s).commits@[j],
        ({
            let row = final(s).commits@[r as int];
            &&& row.repo == repo_id
            &&& row.hash@ == obj.hash@
            &&& row.tree@ == obj.tree@
            &&& row.date == obj.time
            &&& row.c7r < final(s).ncontributors()
            &&& final(s).contributors@[row.c7r as int].name@ == obj.committer_name@
            &&& final(s).contributors@[row.c7r as int].mail@ == obj.committer_mail@
            &&& row.msg == old(s).nmessages()
            &&& final(s).messages@[row.msg as int].repo == repo_id
            &&& final(s).messages@[row.msg as int].msg@ == obj.message@
            &&& final(s).messages@[row.msg as int].date == obj.author_time
        }),
        final(s).has_commit(repo_id as int, obj.hash@),
{
    let ghost s0 = *old(s);
    let committer = contributor::get_id(s, &obj.committer_name, &obj.committer_mail);
    let msg_id = message::insert(s, repo_id, &obj.message, &obj.author_name, &obj.author_mail, obj.author_time);
    let id = s.commits.len() as u64;
    s.commits.push(CommitRow {
        repo: repo_id,
        hash: obj.hash.clone(),
        tree: obj.tree.clone(),
        date: obj.time,
        c7r: committer,
        msg: msg_id,
    });
    proof {
        let t = s0.ncommits();
        assert(s.commits@[t].repo == repo_id && s.commits@[t].hash@ == obj.hash@);
        assert forall|a: int, b: int|
            0 <= a < s.ncommits() && 0 <= b < s.ncommits() && a != b
                && (#[trigger] s.commits@[a]).repo == (#[trigger] s.commits@[b]).repo
                implies s.commits@[a].hash@ != s.commits@[b].hash@ by {
            if a < t && b < t {
                assert(s.commits@[a] == s0.commits@[a]);
                assert(s.commits@[b] == s0.commits@[b]);
            } else if a == t {
                assert(s.commits@[b] == s0.commits@[b]);
                assert(!s0.has_commit(repo_id as int, obj.hash@));
                assert(s0.commits@[b].repo == repo_id ==> s0.commits@[b].hash@ != obj.hash@);
            } else {
                assert(s.commits@[a] == s0.commits@[a]);
                assert(s0.commits@[a].repo == repo_id ==> s0.commits@[a].hash@ != obj.hash@);
            }
        }
        assert forall|i: int| 0 <= i < s.nrelations() implies {
            &&& (#[trigger] s.relations@[i]).child < s.ncommits()
            &&& s.relations@[i].parent < s.ncommits()
            &&& s.commits@[s.relations@[i].child as int].repo == s.relations@[i].repo
            &&& s.commits@[s.relations@[i].parent as int].repo == s.relations@[i].repo
            &&& forall|c: int| 0 <= c < s.relations@[i].changes@.len()
                ==> (#[trigger] s.relations@[i].changes@[c]).file < s.nfiles()
        } by {
            assert(s.relations@[i] == s0.relations@[i]);
            assert(s.commits@[s0.relations@[i].child as int] == s0.commits@[s0.relations@[i].child as int]);
            assert(s.commits@[s0.relations@[i].parent as int] == s0.commits@[s0.relations@[i].parent as int]);
        }
    }
    id
}

} // verus!
