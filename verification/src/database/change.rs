use vstd::prelude::*;
use crate::database::{change_matches, ChangeRow, Store};
use crate::graph::{Delta, Status};

verus! {

/// The status code stored for each classification, in the fixed order the
/// schema documents.
pub open spec fn spec_mode(st: Status) -> int {
    match st {
        Status::Unmodified => 0,
        Status::Added => 1,
        Status::Deleted => 2,
        Status::Modified => 3,
        Status::Renamed => 4,
        Status::Copied => 5,
        Status::Ignored => 6,
        Status::Untracked => 7,
        Status::Typechange => 8,
        Status::Unreadable => 9,
        Status::Conflicted => 10,
    }
}

/// The status code a change row is persisted under.
pub fn get_mode(status: Status) -> (r: i64)
    ensures
        r == spec_mode(status),
{
    match status {
        Status::Unmodified => 0,
        Status::Added => 1,
        Status::Deleted => 2,
        Status::Modified => 3,
        Status::Renamed => 4,
        Status::Copied => 5,
        Status::Ignored => 6,
        Status::Untracked => 7,
        Status::Typechange => 8,
        Status::Unreadable => 9,
        Status::Conflicted => 10,
    }
}

/// Get-or-create the path-dictionary entry for `path`: an idempotent upsert
/// returning the stable id. Touches no other table; when the path is already
/// present, changes nothing at all.
#[verifier::loop_isolation(false)]
pub fn get_file(s: &mut Store, path: &String) -> (r: u64)
    requires
        old(s).wf(),
    ensures
        final(s).wf(),
        final(s).repositories == old(s).repositories,
        final(s).commits == old(s).commits,
        final(s).relations == old(s).relations,
        final(s).messages == old(s).messages,
        final(s).contributors == old(s).contributors,
        r < final(s).nfiles(),
        final(s).editfiles@[r as int]@ == path@,
        forall|j: int| 0 <= j < old(s).nfiles()
            ==> #[trigger] final(s).editfiles@[j] == old(s).editfiles@[j],
        old(s).nfiles() <= final(s).nfiles() <= old(s).nfiles() + 1,
        (exists|j: int| 0 <= j < old(s).nfiles()
            && (#[trigger] old(s).editfiles@[j])@ == path@)
            ==> final(s).editfiles == old(s).editfiles,
{
    let ghost s0 = *old(s);
    let mut i: usize = 0;
    while i < s.editfiles.len()
        invariant
            *s == s0,
            i <= s.editfiles@.len(),
            forall|j: int| 0 <= j < i ==> (#[trigger] s.editfiles@[j])@ != path@,
        decreases s.editfiles@.len() - i,
    {
        if s.editfiles[i] == *path {
            return i as u64;
        }
        i = i + 1;
    }
    let id = s.editfiles.len() as u64;
    s.editfiles.push(path.clone());
    proof {
        let t = s0.nfiles();
        assert forall|a: int, b: int|
            0 <= a < s.nfiles() && 0 <= b < s.nfiles() && a != b
                implies (#[trigger] s.editfiles@[a])@ != (#[trigger] s.editfiles@[b])@ by {
            if a < t && b < t {
                assert(s.editfiles@[a] == s0.editfiles@[a]);
                assert(s.editfiles@[b] == s0.editfiles@[b]);
            } else if a == t {
                assert(s.editfiles@[b] == s0.editfiles@[b]);
            } else {
                assert(s.editfiles@[a] == s0.editfiles@[a]);
            }
        }
    }
    id
}

/// Record one relation's diff: for each delta, get-or-create its path entry
/// and append one change row to the relation, in delta order. The relation's
/// identity and every other row stay as they were.
#[verifier::loop_isolation(false)]
pub fn insert(s: &mut Store, relation_id: u64, diff: &Vec<Delta>)
    requires
        old(s).wf(),
        relation_id < old(s).nrelations(),
    ensures
        final(s).wf(),
        final(s).repositories == old(s).repositories,
        final(s).commits == old(s).commits,
        final(s).messages == old(s).messages,
        final(s).contributors == old(s).contributors,
        final(s).nrelations() == old(s).nrelations(),
        forall|j: int| 0 <= j < old(s).nrelations() && j != relation_id
            ==> #[trigger] final(s).relations@[j] == old(s).relations@[j],
        forall|j: int| 0 <= j < old(s).nfiles()
            ==> #[trigger] final(s).editfiles@[j] == old(s).editfiles@[j],
        final(s).nfiles() >= old(s).nfiles(),
        ({
            let row = final(s).relations@[relation_id as int];
            let row0 = old(s).relations@[relation_id as int];
            &&& row.repo == row0.repo
            &&& row.child == row0.child
            &&& row.parent == row0.parent
            &&& row.changes@.len() == row0.changes@.len() + diff@.len()
            &&& forall|c: int| 0 <= c < row0.changes@.len()
                ==> #[trigger] row.changes@[c] == row0.changes@[c]
            &&& forall|c: int| 0 <= c < diff@.len()
                ==> change_matches(*final(s), #[trigger] row.changes@[row0.changes@.len() + c], diff@[c])
        }),
{
    let ghost s0 = *old(s);
    let nrel = s.relations.len();
    let rid = relation_id as usize;
    let ghost n0 = s0.relations@[relation_id as int].changes@.len() as int;
    proof {
        assert(relation_id < nrel as u64);
        assert(rid as int == relation_id as int);
    }
    let mut i: usize = 0;
    while i < diff.len()
        invariant
            old(s).wf(),
            s.wf(),
            i <= diff@.len(),
            rid == relation_id as int,
            rid < s.relations@.len(),
            s.repositories == s0.repositories,
            s.commits == s0.commits,
            s.messages == s0.messages,
            s.contributors == s0.contributors,
            s.nrelations() == s0.nrelations(),
            forall|j: int| 0 <= j < s0.nrelations() && j != relation_id
                ==> #[trigger] s.relations@[j] == s0.relations@[j],
            forall|j: int| 0 <= j < s0.nfiles()
                ==> #[trigger] s.editfiles@[j] == s0.editfiles@[j],
            s.nfiles() >= s0.nfiles(),
            s.relations@[rid as int].repo == s0.relations@[rid as int].repo,
            s.relations@[rid as int].child == s0.relations@[rid as int].child,
            s.relations@[rid as int].parent == s0.relations@[rid as int].parent,
            s.relations@[rid as int].changes@.len() == n0 + i,
            forall|c: int| 0 <= c < n0
                ==> #[trigger] s.relations@[rid as int].changes@[c]
                    == s0.relations@[rid as int].changes@[c],
            forall|c: int| 0 <= c < i
                ==> change_matches(*s, #[trigger] s.relations@[rid as int].changes@[n0 + c], diff@[c]),
        decreases diff@.len() - i,
    {
        let ghost s_pre = *s;
        let file_id = get_file(s, &diff[i].path);
        proof {
            assert forall|c: int| 0 <= c < i
                implies change_matches(*s, #[trigger] s.relations@[rid as int].changes@[n0 + c], diff@[c]) by {
                assert(change_matches(s_pre, s_pre.relations@[rid as int].changes@[n0 + c], diff@[c]));
                let f = s_pre.relations@[rid as int].changes@[n0 + c].file as int;
                assert(s.editfiles@[f] == s_pre.editfiles@[f]);
            }
        }
        let ghost s_mid = *s;
        s.relations[rid].changes.push(ChangeRow { file: file_id, mode: diff[i].status });
        proof {
            assert forall|j: int| 0 <= j < s.nrelations() implies {
                &&& (#[trigger] s.relations@[j]).child < s.ncommits()
                &&& s.relations@[j].parent < s.ncommits()
                &&& s.commits@[s.relations@[j].child as int].repo == s.relations@[j].repo
                &&& s.commits@[s.relations@[j].parent as int].repo == s.relations@[j].repo
                &&& forall|c: int| 0 <= c < s.relations@[j].changes@.len()
                    ==> (#[trigger] s.relations@[j].changes@[c]).file < s.nfiles()
            } by {
                if j != rid as int {
                    assert(s.relations@[j] == s_mid.relations@[j]);
                }
            }
        }
        i = i + 1;
    }
}

} // verus!
