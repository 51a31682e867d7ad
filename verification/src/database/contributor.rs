use vstd::prelude::*;
use crate::database::{ContributorRow, Store};

verus! {

/// Get-or-create the contributor row for the identity (name, mail): an
/// idempotent upsert returning the stable id. Touches no other table; when
/// the identity is already present, changes nothing at all.
#[verifier::loop_isolation(false)]
pub fn get_id(s: &mut Store, name: &String, mail: &String) -> (r: u64)
    requires
        old(s).wf(),
    ensures
        final(s).wf(),
        final(s).repositories == old(s).repositories,
        final(s).commits == old(s).commits,
        final(s).relations == old(s).relations,
        final(s).messages == old(s).messages,
        final(s).editfiles == old(s).editfiles,
        r < final(s).ncontributors(),
        final(s).contributors@[r as int].name@ == name@,
        final(s).contributors@[r as int].mail@ == mail@,
        forall|j: int| 0 <= j < old(s).ncontributors()
            ==> #[trigger] final(s).contributors@[j] == old(s).contributors@[j],
        old(s).ncontributors() <= final(s).ncontributors() <= old(s).ncontributors() + 1,
        (exists|j: int| 0 <= j < old(s).ncontributors()
            && (#[trigger] old(s).contributors@[j]).name@ == name@
            && old(s).contributors@[j].mail@ == mail@)
            ==> final(s).contributors == old(s).contributors,
        !(exists|j: int| 0 <= j < old(s).ncontributors()
            && (#[trigger] old(s).contributors@[j]).name@ == name@
            && old(s).contributors@[j].mail@ == mail@)
            ==> final(s).ncontributors() == old(s).ncontributors() + 1
                && r == old(s).ncontributors(),
{
    let ghost s0 = *old(s);
    let mut i: usize = 0;
    while i < s.contributors.len()
        invariant
            *s == s0,
            i <= s.contributors@.len(),
            forall|j: int| 0 <= j < i
                ==> !((#[trigger] s.contributors@[j]).name@ == name@
                    && s.contributors@[j].mail@ == mail@),
        decreases s.contributors@.len() - i,
    {
        if s.contributors[i].name == *name && s.contributors[i].mail == *mail {
            return i as u64;
        }
        i = i + 1;
    }
    let id = s.contributors.len() as u64;
    s.contributors.push(ContributorRow { name: name.clone(), mail: mail.clone() });
    proof {
        let t = s0.ncontributors();
        assert forall|a: int, b: int|
            0 <= a < s.ncontributors() && 0 <= b < s.ncontributors() && a != b
                implies !((#[trigger] s.contributors@[a]).name@
                    == (#[trigger] s.contributors@[b]).name@
                    && s.contributors@[a].mail@ == s.contributors@[b].mail@) by {
            if a < t && b < t {
                assert(s.contributors@[a] == s0.contributors@[a]);
                assert(s.contributors@[b] == s0.contributors@[b]);
            } else if a == t {
                assert(s.contributors@[b] == s0.contributors@[b]);
            } else {
                assert(s.contributors@[a] == s0.contributors@[a]);
            }
        }
    }
    id
}

} // verus!
