use vstd::prelude::*;
use crate::graph::{Delta, Status, Timestamp};

pub mod change;
pub mod commit;
pub mod contributor;
pub mod datetime;
pub mod message;
pub mod relation;
pub mod repository;

verus! {

/// One tracked repository: unique name, description text, head branch name,
/// and the liveness bookkeeping that drives mark-and-sweep. `stale` is set on
/// every live row when a pass starts and cleared on every row the pass
/// touches; `alive` is cleared by the sweep. A row whose `alive` flag is
/// cleared stands for a deleted row, together with every row that references
/// it (the cascade).
pub struct RepositoryRow {
    pub name: String,
    pub show: String,
    pub head: String,
    pub stale: bool,
    pub alive: bool,
}

/// A (name, mail) identity, unique over both fields, shared across
/// repositories and never deleted.
pub struct ContributorRow {
    pub name: String,
    pub mail: String,
}

/// One commit's log message with its authorship.
pub struct MessageRow {
    pub repo: u64,
    pub author: u64,
    pub msg: String,
    pub date: Timestamp,
}

/// One commit object: unique per (repository, hash), never mutated.
pub struct CommitRow {
    pub repo: u64,
    pub hash: String,
    pub tree: String,
    pub date: Timestamp,
    pub c7r: u64,
    pub msg: u64,
}

/// One file's status within one relation's diff. `file` names an entry of
/// the path dictionary.
pub struct ChangeRow {
    pub file: u64,
    pub mode: Status,
}

/// One recorded parent→child edge, unique per (repository, child, parent),
/// together with its diff. The change rows are created in the same step as
/// the relation: a relation is never observed without its diff.
pub struct RelationRow {
    pub repo: u64,
    pub child: u64,
    pub parent: u64,
    pub changes: Vec<ChangeRow>,
}

/// The relational store: the tables the synchronization engine writes.
/// Surrogate ids are row indices; rows are append-only and deleted only by
/// the repository cascade, which this model expresses through the owning
/// repository's `alive` flag.
pub struct Store {
    pub repositories: Vec<RepositoryRow>,
    pub contributors: Vec<ContributorRow>,
    pub messages: Vec<MessageRow>,
    pub commits: Vec<CommitRow>,
    pub relations: Vec<RelationRow>,
    pub editfiles: Vec<String>,
}

impl Store {
    pub open spec fn nrepos(self) -> int {
        self.repositories@.len() as int
    }

    pub open spec fn ncontributors(self) -> int {
        self.contributors@.len() as int
    }

    pub open spec fn nmessages(self) -> int {
        self.messages@.len() as int
    }

    pub open spec fn ncommits(self) -> int {
        self.commits@.len() as int
    }

    pub open spec fn nrelations(self) -> int {
        self.relations@.len() as int
    }

    pub open spec fn nfiles(self) -> int {
        self.editfiles@.len() as int
    }

    /// Repository `rid` exists and has not been swept.
    pub open spec fn repo_live(self, rid: int) -> bool {
        0 <= rid < self.nrepos() && self.repositories@[rid].alive
    }

    /// Some live repository carries name `n`.
    pub open spec fn live_named(self, n: Seq<char>) -> bool {
        exists|i: int| self.repo_live(i) && #[trigger] self.repositories@[i].name@ == n
    }

    /// The live repository row named `n` (meaningful when `live_named(n)`).
    pub open spec fn live_ix(self, n: Seq<char>) -> int {
        choose|i: int| self.repo_live(i) && #[trigger] self.repositories@[i].name@ == n
    }

    /// A commit row for (repository `rid`, hash `h`) exists.
    pub open spec fn has_commit(self, rid: int, h: Seq<char>) -> bool {
        exists|i: int| 0 <= i < self.ncommits() && (#[trigger] self.commits@[i]).repo == rid
            && self.commits@[i].hash@ == h
    }

    /// The commit row for (repository `rid`, hash `h`) (meaningful when
    /// `has_commit(rid, h)`; unique by `commits_unique`).
    pub open spec fn commit_ix(self, rid: int, h: Seq<char>) -> int {
        choose|i: int| 0 <= i < self.ncommits() && (#[trigger] self.commits@[i]).repo == rid
            && self.commits@[i].hash@ == h
    }

    /// A relation row (repository `rid`, child `child`, parent `parent`)
    /// exists; `child` and `parent` are commit row ids.
    pub open spec fn has_relation(self, rid: int, child: int, parent: int) -> bool {
        exists|i: int| 0 <= i < self.nrelations() && (#[trigger] self.relations@[i]).repo == rid
            && self.relations@[i].child == child && self.relations@[i].parent == parent
    }

    /// Every commit row points at existing repository, contributor and
    /// message rows.
    pub open spec fn commits_wf(self) -> bool {
        forall|i: int| 0 <= i < self.ncommits() ==> {
            &&& (#[trigger] self.commits@[i]).repo < self.nrepos()
            &&& self.commits@[i].c7r < self.ncontributors()
            &&& self.commits@[i].msg < self.nmessages()
        }
    }

    /// At most one commit row per (repository, hash).
    pub open spec fn commits_unique(self) -> bool {
        forall|i: int, j: int|
            0 <= i < self.ncommits() && 0 <= j < self.ncommits() && i != j
                && (#[trigger] self.commits@[i]).repo == (#[trigger] self.commits@[j]).repo
                ==> self.commits@[i].hash@ != self.commits@[j].hash@
    }

    /// Every relation row links two commit rows of its own repository, and
    /// its change rows point at existing path entries.
    pub open spec fn relations_wf(self) -> bool {
        forall|i: int| 0 <= i < self.nrelations() ==> {
            &&& (#[trigger] self.relations@[i]).child < self.ncommits()
            &&& self.relations@[i].parent < self.ncommits()
            &&& self.commits@[self.relations@[i].child as int].repo == self.relations@[i].repo
            &&& self.commits@[self.relations@[i].parent as int].repo == self.relations@[i].repo
            &&& forall|c: int| 0 <= c < self.relations@[i].changes@.len()
                ==> (#[trigger] self.relations@[i].changes@[c]).file < self.nfiles()
        }
    }

    /// At most one relation row per (repository, child, parent).
    pub open spec fn relations_unique(self) -> bool {
        forall|i: int, j: int|
            0 <= i < self.nrelations() && 0 <= j < self.nrelations() && i != j
                ==> !((#[trigger] self.relations@[i]).repo == (#[trigger] self.relations@[j]).repo
                    && self.relations@[i].child == self.relations@[j].child
                    && self.relations@[i].parent == self.relations@[j].parent)
    }

    /// Every message row points at existing repository and contributor rows.
    pub open spec fn messages_wf(self) -> bool {
        forall|i: int| 0 <= i < self.nmessages() ==> {
            &&& (#[trigger] self.messages@[i]).repo < self.nrepos()
            &&& self.messages@[i].author < self.ncontributors()
        }
    }

    /// At most one contributor row per (name, mail).
    pub open spec fn contributors_unique(self) -> bool {
        forall|i: int, j: int|
            0 <= i < self.ncontributors() && 0 <= j < self.ncontributors() && i != j
                ==> !((#[trigger] self.contributors@[i]).name@ == (#[trigger] self.contributors@[j]).name@
                    && self.contributors@[i].mail@ == self.contributors@[j].mail@)
    }

    /// The path dictionary holds each path once.
    pub open spec fn editfiles_unique(self) -> bool {
        forall|i: int, j: int|
            0 <= i < self.nfiles() && 0 <= j < self.nfiles() && i != j
                ==> (#[trigger] self.editfiles@[i])@ != (#[trigger] self.editfiles@[j])@
    }

    /// At most one live repository row per name.
    pub open spec fn repos_unique(self) -> bool {
        forall|i: int, j: int|
            self.repo_live(i) && self.repo_live(j) && i != j
                ==> (#[trigger] self.repositories@[i]).name@ != (#[trigger] self.repositories@[j]).name@
    }

    /// The schema's constraints, together: foreign keys resolve and the
    /// unique keys hold.
    pub open spec fn wf(self) -> bool {
        &&& self.commits_wf()
        &&& self.commits_unique()
        &&& self.relations_wf()
        &&& self.relations_unique()
        &&& self.messages_wf()
        &&& self.contributors_unique()
        &&& self.editfiles_unique()
        &&& self.repos_unique()
    }

    /// An empty store, as a freshly initialized schema holds.
    pub fn new() -> (s: Store)
        ensures
            s.wf(),
            s.nrepos() == 0,
            s.ncontributors() == 0,
            s.nmessages() == 0,
            s.ncommits() == 0,
            s.nrelations() == 0,
            s.nfiles() == 0,
    {
        Store {
            repositories: Vec::new(),
            contributors: Vec::new(),
            messages: Vec::new(),
            commits: Vec::new(),
            relations: Vec::new(),
            editfiles: Vec::new(),
        }
    }
}

/// A change row records delta `d` when it points at the path-dictionary
/// entry holding the delta's path and carries the delta's status.
pub open spec fn change_matches(s: Store, c: ChangeRow, d: Delta) -> bool {
    &&& c.file < s.nfiles()
    &&& s.editfiles@[c.file as int]@ == d.path@
    &&& c.mode == d.status
}

/// Mark every live repository row stale. A synchronization pass starts here;
/// rows still stale when [`cleanup`] runs are the ones the pass never
/// touched.
#[verifier::loop_isolation(false)]
pub fn mark_stale(s: &mut Store)
    requires
        old(s).wf(),
    ensures
        final(s).wf(),
        final(s).commits == old(s).commits,
        final(s).relations == old(s).relations,
        final(s).messages == old(s).messages,
        final(s).contributors == old(s).contributors,
        final(s).editfiles == old(s).editfiles,
        final(s).nrepos() == old(s).nrepos(),
        forall|i: int| 0 <= i < old(s).nrepos() ==> {
            &&& (#[trigger] final(s).repositories@[i]).name == old(s).repositories@[i].name
            &&& final(s).repositories@[i].show == old(s).repositories@[i].show
            &&& final(s).repositories@[i].head == old(s).repositories@[i].head
            &&& final(s).repositories@[i].alive == old(s).repositories@[i].alive
            &&& final(s).repositories@[i].stale == (old(s).repositories@[i].alive
                || old(s).repositories@[i].stale)
        },
{
    let mut i: usize = 0;
    while i < s.repositories.len()
        invariant
            i <= s.repositories@.len(),
            s.repositories@.len() == old(s).repositories@.len(),
            s.commits == old(s).commits,
            s.relations == old(s).relations,
            s.messages == old(s).messages,
            s.contributors == old(s).contributors,
            s.editfiles == old(s).editfiles,
            forall|j: int| i <= j < old(s).nrepos()
                ==> #[trigger] s.repositories@[j] == old(s).repositories@[j],
            forall|j: int| 0 <= j < i ==> {
                &&& (#[trigger] s.repositories@[j]).name == old(s).repositories@[j].name
                &&& s.repositories@[j].show == old(s).repositories@[j].show
                &&& s.repositories@[j].head == old(s).repositories@[j].head
                &&& s.repositories@[j].alive == old(s).repositories@[j].alive
                &&& s.repositories@[j].stale == (old(s).repositories@[j].alive
                    || old(s).repositories@[j].stale)
            },
        decreases s.repositories@.len() - i,
    {
        if s.repositories[i].alive {
            s.repositories[i].stale = true;
        }
        i = i + 1;
    }
}

/// Remove every repository row still stale, together (by cascade) with its
/// messages, commits, relations and changes: a repository the pass never
/// touched is no longer present at the source.
#[verifier::loop_isolation(false)]
pub fn cleanup(s: &mut Store)
    requires
        old(s).wf(),
    ensures
        final(s).wf(),
        final(s).commits == old(s).commits,
        final(s).relations == old(s).relations,
        final(s).messages == old(s).messages,
        final(s).contributors == old(s).contributors,
        final(s).editfiles == old(s).editfiles,
        final(s).nrepos() == old(s).nrepos(),
        forall|i: int| 0 <= i < old(s).nrepos() ==> {
            &&& (#[trigger] final(s).repositories@[i]).name == old(s).repositories@[i].name
            &&& final(s).repositories@[i].show == old(s).repositories@[i].show
            &&& final(s).repositories@[i].head == old(s).repositories@[i].head
            &&& final(s).repositories@[i].stale == old(s).repositories@[i].stale
            &&& final(s).repositories@[i].alive == (old(s).repositories@[i].alive
                && !old(s).repositories@[i].stale)
        },
{
    let mut i: usize = 0;
    while i < s.repositories.len()
        invariant
            i <= s.repositories@.len(),
            s.repositories@.len() == old(s).repositories@.len(),
            s.commits == old(s).commits,
            s.relations == old(s).relations,
            s.messages == old(s).messages,
            s.contributors == old(s).contributors,
            s.editfiles == old(s).editfiles,
            forall|j: int| i <= j < old(s).nrepos()
                ==> #[trigger] s.repositories@[j] == old(s).repositories@[j],
            forall|j: int| 0 <= j < i ==> {
                &&& (#[trigger] s.repositories@[j]).name == old(s).repositories@[j].name
                &&& s.repositories@[j].show == old(s).repositories@[j].show
                &&& s.repositories@[j].head == old(s).repositories@[j].head
                &&& s.repositories@[j].stale == old(s).repositories@[j].stale
                &&& s.repositories@[j].alive == (old(s).repositories@[j].alive
                    && !old(s).repositories@[j].stale)
            },
        decreases s.repositories@.len() - i,
    {
        if s.repositories[i].alive && s.repositories[i].stale {
            s.repositories[i].alive = false;
        }
        i = i + 1;
    }
    proof {
        assert forall|a: int, b: int|
            s.repo_live(a) && s.repo_live(b) && a != b
                implies (#[trigger] s.repositories@[a]).name@ != (#[trigger] s.repositories@[b]).name@ by {
            assert(old(s).repo_live(a));
            assert(old(s).repo_live(b));
        }
    }
}

} // verus!
