use vstd::prelude::*;
use crate::database::{RelationRow, Store};

verus! {

/// The id of the relation row (repository `repo_id`, child `child_id`,
/// parent `parent_id`), if any.
#[verifier::loop_isolation(false)]
pub fn get_id(s: &Store, parent_id: u64, child_id: u64, repo_id: u64) -> (r: Option<u64>)
    ensures
        match r {
            Some(i) => 0 <= i < s.nrelations() && s.relations@[i as int].repo == repo_id
                && s.relations@[i as int].child == child_id
                && s.relations@[i as int].parent == parent_id,
            None => !s.has_relation(repo_id as int, child_id as int, parent_id as int),
        },
{
    let mut i: usize = 0;
    while i < s.relations.len()
        invariant
            i <= s.relations@.len(),
            forall|j: int| 0 <= j < i
                ==> !((#[trigger] s.relations@[j]).repo == repo_id
                    && s.relations@[j].child == child_id && s.relations@[j].parent == parent_id),
        decreases s.relations@.len() - i,
    {
        if s.relations[i].repo == repo_id && s.relations[i].child == child_id
            && s.relations[i].parent == parent_id {
            return Some(i as u64);
        }
        i = i + 1;
    }
    None
}

/// Insert the relation row for a parent→child edge not yet recorded. The row
/// starts with an empty diff; its change rows are added in the same engine
/// step. Nothing else changes.
pub fn insert(s: &mut Store, parent_id: u64, child_id: u64, repo_id: u64) -> (r: u64)
    requires
        old(s).wf(),
        child_id < old(s).ncommits(),
        parent_id < old(s).ncommits(),
        old(s).commits@[child_id as int].repo == repo_id,
        old(s).commits@[parent_id as int].repo == repo_id,
        !old(s).has_relation(repo_id as int, child_id as int, parent_id as int),
    ensures
        final(s).wf(),
        final(s).repositories == old(s).repositories,
        final(s).commits == old(s).commits,
        final(s).messages == old(s).messages,
        final(s).contributors == old(s).contributors,
        final(s).editfiles == old(s).editfiles,
        r == old(s).nrelations(),
        final(s).nrelations() == old(s).nrelations() + 1,
        forall|j: int| 0 <= j < old(s).nrelations()
            ==> #[trigger] final(s).relations@[j] == old(s).relations@[j],
        ({
            let row = final(s).relations@[r as int];
            &&& row.repo == repo_id
            &&& row.child == child_id
            &&& row.parent == parent_id
            &&& row.changes@.len() == 0
        }),
        final(s).has_relation(repo_id as int, child_id as int, parent_id as int),
{
    let ghost s0 = *old(s);
    let id = s.relations.len() as u64;
    s.relations.push(RelationRow { repo: repo_id, child: child_id, parent: parent_id, changes: Vec::new() });
    proof {
        let t = s0.nrelations();
        assert(s.relations@[t].repo == repo_id && s.relations@[t].child == child_id
            && s.relations@[t].parent == parent_id);
        assert forall|a: int, b: int|
            0 <= a < s.nrelations() && 0 <= b < s.nrelations() && a != b
                implies !((#[trigger] s.relations@[a]).repo == (#[trigger] s.relations@[b]).repo
                    && s.relations@[a].child == s.relations@[b].child
                    && s.relations@[a].parent == s.relations@[b].parent) by {
            if a < t && b < t {
                assert(s.relations@[a] == s0.relations@[a]);
                assert(s.relations@[b] == s0.relations@[b]);
            } else if a == t {
                assert(s.relations@[b] == s0.relations@[b]);
            } else {
                assert(s.relations@[a] == s0.relations@[a]);
            }
        }
        assert forall|i: int| 0 <= i < s.nrelations() implies {
            &&& (#[trigger] s.relations@[i]).child < s.ncommits()
            &&& s.relations@[i].parent < s.ncommits()
            &&& s.commits@[s.relations@[i].child as int].repo == s.relations@[i].repo
            &&& s.commits@[s.relations@[i].parent as int].repo == s.relations@[i].repo
            &&& forall|c: int| 0 <= c < s.relations@[i].changes@.len()
                ==> (#[trigger] s.relations@[i].changes@[c]).file < s.nfiles()
        } by {
            if i < t {
                assert(s.relations@[i] == s0.relations@[i]);
            }
        }
    }
    id
}

} // verus!
