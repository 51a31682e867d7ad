use vstd::prelude::*;
use crate::database::{contributor, MessageRow, Store};
use crate::graph::Timestamp;

verus! {

/// Insert one message row: the log text with its author identity and the
/// authored timestamp. The author's contributor row is created on demand;
/// nothing else changes.
pub fn insert(
    s: &mut Store,
    repo_id: u64,
    msg: &String,
    author_name: &String,
    author_mail: &String,
    date: Timestamp,
) -> (r: u64)
    requires
        old(s).wf(),
        repo_id < old(s).nrepos(),
    ensures
        final(s).wf(),
        final(s).repositories == old(s).repositories,
        final(s).commits == old(s).commits,
        final(s).relations == old(s).relations,
        final(s).editfiles == old(s).editfiles,
        forall|j: int| 0 <= j < old(s).ncontributors()
            ==> #[trigger] final(s).contributors@[j] == old(s).contributors@[j],
        old(s).ncontributors() <= final(s).ncontributors() <= old(s).ncontributors() + 1,
        r == old(s).nmessages(),
        final(s).nmessages() == old(s).nmessages() + 1,
        forall|j: int| 0 <= j < old(s).nmessages()
            ==> #[trigger] final(s).messages@[j] == old(s).messages@[j],
        ({
            let row = final(s).messages@[r as int];
            &&& row.repo == repo_id
            &&& row.msg@ == msg@
            &&& row.date == date
            &&& row.author < final(s).ncontributors()
            &&& final(s).contributors@[row.author as int].name@ == author_name@
            &&& final(s).contributors@[row.author as int].mail@ == author_mail@
        }),
        (exists|j: int| 0 <= j < old(s).ncontributors()
            && (#[trigger] old(s).contributors@[j]).name@ == author_name@
            && old(s).contributors@[j].mail@ == author_mail@)
            ==> final(s).contributors == old(s).contributors,
{
    let author_id = contributor::get_id(s, author_name, author_mail);
    let id = s.messages.len() as u64;
    s.messages.push(MessageRow { repo: repo_id, author: author_id, msg: msg.clone(), date });
    id
}

} // verus!
