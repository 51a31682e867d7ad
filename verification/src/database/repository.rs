use vstd::prelude::*;
use crate::database::{RepositoryRow, Store};

verus! {

/// Where an upsert of name `n` lands: the live row already named `n` if one
/// exists, else the fresh index at the end of the table.
pub open spec fn upsert_target(s: Store, n: Seq<char>) -> int {
    if s.live_named(n) {
        s.live_ix(n)
    } else {
        s.nrepos()
    }
}

/// The id of the live repository row named `name`, if any.
#[verifier::loop_isolation(false)]
pub fn get_id(s: &Store, name: &String) -> (r: Option<u64>)
    ensures
        match r {
            Some(i) => s.repo_live(i as int) && s.repositories@[i as int].name@ == name@,
            None => !s.live_named(name@),
        },
{
    let mut i: usize = 0;
    while i < s.repositories.len()
        invariant
            i <= s.repositories@.len(),
            forall|j: int| 0 <= j < i
                ==> !(s.repo_live(j) && #[trigger] s.repositories@[j].name@ == name@),
        decreases s.repositories@.len() - i,
    {
        if s.repositories[i].alive && s.repositories[i].name == *name {
            return Some(i as u64);
        }
        i = i + 1;
    }
    None
}

/// Upsert one repository: refresh the description and head of the live row
/// named `name` and clear its stale flag, or create such a row. Touches no
/// other table and no other repository row.
#[verifier::loop_isolation(false)]
pub fn insert(s: &mut Store, name: &String, show: &String, head: &String)
    requires
        old(s).wf(),
    ensures
        final(s).wf(),
        final(s).commits == old(s).commits,
        final(s).relations == old(s).relations,
        final(s).messages == old(s).messages,
        final(s).contributors == old(s).contributors,
        final(s).editfiles == old(s).editfiles,
        final(s).nrepos() == upsert_target(*old(s), name@) + 1
            || final(s).nrepos() == old(s).nrepos(),
        final(s).nrepos() == if old(s).live_named(name@) {
            old(s).nrepos()
        } else {
            old(s).nrepos() + 1
        },
        forall|j: int| 0 <= j < old(s).nrepos() && j != upsert_target(*old(s), name@)
            ==> #[trigger] final(s).repositories@[j] == old(s).repositories@[j],
        ({
            let t = upsert_target(*old(s), name@);
            &&& final(s).repositories@[t].name@ == name@
            &&& final(s).repositories@[t].show@ == show@
            &&& final(s).repositories@[t].head@ == head@
            &&& final(s).repositories@[t].stale == false
            &&& final(s).repositories@[t].alive == true
        }),
        old(s).live_named(name@) ==> final(s).repositories@[upsert_target(*old(s), name@)].name
            == old(s).repositories@[upsert_target(*old(s), name@)].name,
        old(s).live_named(name@) ==> ({
            let t = upsert_target(*old(s), name@);
            &&& (old(s).repositories@[t].show@ == show@
                ==> final(s).repositories@[t].show == old(s).repositories@[t].show)
            &&& (old(s).repositories@[t].head@ == head@
                ==> final(s).repositories@[t].head == old(s).repositories@[t].head)
        }),
        final(s).live_named(name@),
{
    let ghost s0 = *old(s);
    let mut i: usize = 0;
    while i < s.repositories.len()
        invariant
            *s == s0,
            i <= s.repositories@.len(),
            forall|j: int| 0 <= j < i
                ==> !(s.repo_live(j) && #[trigger] s.repositories@[j].name@ == name@),
        decreases s.repositories@.len() - i,
    {
        if s.repositories[i].alive && s.repositories[i].name == *name {
            proof {
                assert(s0.repo_live(i as int) && s0.repositories@[i as int].name@ == name@);
                assert(s0.live_named(name@));
                let t = s0.live_ix(name@);
                assert(s0.repo_live(t) && s0.repositories@[t].name@ == name@);
                assert(t == i as int);
            }
            if !(s.repositories[i].show == *show) {
                s.repositories[i].show = show.clone();
            }
            if !(s.repositories[i].head == *head) {
                s.repositories[i].head = head.clone();
            }
            s.repositories[i].stale = false;
            proof {
                assert(s.repo_live(i as int) && s.repositories@[i as int].name@ == name@);
                assert forall|a: int, b: int|
                    s.repo_live(a) && s.repo_live(b) && a != b
                        implies (#[trigger] s.repositories@[a]).name@
                            != (#[trigger] s.repositories@[b]).name@ by {
                    assert(s0.repo_live(a) && s0.repo_live(b));
                    assert(s.repositories@[a].name@ == s0.repositories@[a].name@);
                    assert(s.repositories@[b].name@ == s0.repositories@[b].name@);
                }
            }
            return ;
        }
        i = i + 1;
    }
    proof {
        assert(!s0.live_named(name@));
    }
    s.repositories.push(RepositoryRow {
        name: name.clone(),
        show: show.clone(),
        head: head.clone(),
        stale: false,
        alive: true,
    });
    proof {
        let t = s0.nrepos();
        assert(s.repo_live(t) && s.repositories@[t].name@ == name@);
        assert forall|a: int, b: int|
            s.repo_live(a) && s.repo_live(b) && a != b
                implies (#[trigger] s.repositories@[a]).name@
                    != (#[trigger] s.repositories@[b]).name@ by {
            if a < t && b < t {
                assert(s0.repo_live(a) && s0.repo_live(b));
            } else if a == t {
                assert(s0.repo_live(b) && s.repositories@[b] == s0.repositories@[b]);
            } else {
                assert(s0.repo_live(a) && s.repositories@[a] == s0.repositories@[a]);
            }
        }
    }
}

} // verus!
