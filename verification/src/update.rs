use vstd::prelude::*;
use crate::database::{change, cleanup, commit, mark_stale, relation, repository, Store};
use crate::graph::RepoGraph;

verus! {

/// A failure that aborts a synchronization pass.
#[derive(Clone, Copy, PartialEq, Eq, Structural, Debug)]
pub enum SyncError {
    /// An object id could not be resolved to a commit.
    Read,
}

/// The recorded descendant that put a traversal frame on the stack: the
/// descendant's commit row, the graph node it records, and which of its
/// parent slots the frame came from.
pub struct FrameDesc {
    pub row: u64,
    pub node: u64,
    pub k: usize,
}

/// One traversal frame: a commit to visit, and the descendant waiting for an
/// edge into it (`None` for a reference tip).
pub struct Frame {
    pub oid: u64,
    pub desc: Option<FrameDesc>,
}

/// Node `n` meets the per-node shape conditions at its index: parents
/// earlier and distinct, one diff per parent.
pub open spec fn commit_node_wf_of(g: RepoGraph, n: int) -> bool {
    crate::graph::commit_node_wf(g.nodes@[n], n)
}

/// Commit row `i` records graph node `n`: they carry the same hash.
pub open spec fn row_is_node(s: Store, g: RepoGraph, i: int, n: int) -> bool {
    &&& 0 <= i < s.ncommits()
    &&& 0 <= n < g.n()
    &&& s.commits@[i].hash@ == g.hash_of(n)
}

/// The edge from the commit of node `p` into the commit of row `child_row`
/// is on record: node `p`'s commit row exists and a relation row links them.
pub open spec fn edge_recorded(s: Store, g: RepoGraph, rid: int, child_row: int, p: int) -> bool {
    exists|prow: int| 0 <= prow < s.ncommits() && (#[trigger] s.commits@[prow]).repo == rid
        && s.commits@[prow].hash@ == g.hash_of(p)
        && s.has_relation(rid, child_row, prow)
}

/// A frame of the stack stands for parent slot (`i`, `n`, `k`): row `i`
/// records node `n`, and the frame was pushed for `n`'s parent number `k`.
pub open spec fn edge_pending(st: Seq<Frame>, i: int, n: int, k: int) -> bool {
    exists|j: int| 0 <= j < st.len() && ((#[trigger] st[j]).desc matches Some(d)
        && d.row == i && d.node == n && d.k == k)
}

/// Every parent edge of every recorded commit of repository `rid` is either
/// on record or still owed to a frame of the stack. With an empty stack this
/// is [`closed`]: the store's central invariant, what a recorded commit
/// promises about everything behind it.
pub open spec fn pending_ok(s: Store, g: RepoGraph, rid: int, st: Seq<Frame>) -> bool {
    forall|i: int, n: int, k: int|
        0 <= i < s.ncommits() && s.commits@[i].repo == rid
            && #[trigger] row_is_node(s, g, i, n) && 0 <= k < g.nparents(n)
            ==> edge_recorded(s, g, rid, i, #[trigger] g.parent(n, k)) || edge_pending(st, i, n, k)
}

/// For every commit row of repository `rid` that records a node of `g`,
/// every parent of that node is recorded too, with its relation row: a
/// relation's presence means the whole history behind it is present.
pub open spec fn closed(s: Store, g: RepoGraph, rid: int) -> bool {
    pending_ok(s, g, rid, Seq::<Frame>::empty())
}

/// One relation's change rows record exactly the deltas `ds`, in order.
pub open spec fn changes_match_diff(s: Store, cs: Seq<crate::database::ChangeRow>, ds: Seq<crate::graph::Delta>) -> bool {
    &&& cs.len() == ds.len()
    &&& forall|c: int| 0 <= c < ds.len()
        ==> crate::database::change_matches(s, #[trigger] cs[c], ds[c])
}

/// Every relation row of repository `rid` that links two recorded nodes
/// carries exactly the diff the graph gives for that edge.
pub open spec fn rels_agree(s: Store, g: RepoGraph, rid: int) -> bool {
    forall|j: int, n: int, k: int|
        #![trigger s.relations@[j], g.parent(n, k)]
        0 <= j < s.nrelations() && s.relations@[j].repo == rid
            && 0 <= n < g.n() && 0 <= k < g.nparents(n)
            && row_is_node(s, g, s.relations@[j].child as int, n)
            && row_is_node(s, g, s.relations@[j].parent as int, g.parent(n, k))
            ==> changes_match_diff(s, s.relations@[j].changes@, g.nodes@[n].diffs@[k]@)
}

/// Frames only name nodes of the graph, and an edge frame's descendant data
/// is coherent: the row records the node, and the frame's commit is that
/// node's parent number `k`.
pub open spec fn frame_wf(s: Store, g: RepoGraph, rid: int, f: Frame) -> bool {
    &&& 0 <= f.oid < g.n()
    &&& f.desc matches Some(d) ==> {
        &&& 0 <= (d.row as int) < s.ncommits()
        &&& s.commits@[d.row as int].repo == rid
        &&& row_is_node(s, g, d.row as int, d.node as int)
        &&& 0 <= (d.k as int) < g.nparents(d.node as int)
        &&& g.parent(d.node as int, d.k as int) == f.oid
    }
}

pub open spec fn frames_wf(s: Store, g: RepoGraph, rid: int, st: Seq<Frame>) -> bool {
    forall|j: int| 0 <= j < st.len() ==> frame_wf(s, g, rid, #[trigger] st[j])
}

/// Everything reachable from `tip` is recorded or still covered by a frame.
pub open spec fn covered(s: Store, g: RepoGraph, rid: int, st: Seq<Frame>, tip: int) -> bool {
    forall|x: int| 0 <= x < g.n() && #[trigger] g.reaches(tip, x)
        ==> s.has_commit(rid, g.hash_of(x))
            || exists|j: int| 0 <= j < st.len() && g.reaches((#[trigger] st[j]).oid as int, x)
}

/// How many nodes among the first `n` have no commit row yet: the measure
/// the traversal shrinks whenever it inserts.
pub open spec fn unknown_count(s: Store, g: RepoGraph, rid: int, n: int) -> nat
    decreases n,
{
    if n <= 0 {
        0
    } else {
        unknown_count(s, g, rid, n - 1) + if s.has_commit(rid, g.hash_of(n - 1)) {
            0nat
        } else {
            1nat
        }
    }
}

/// Recording more commits never grows the number of unknown nodes.
pub proof fn lemma_unknown_count_le(s1: Store, s2: Store, g: RepoGraph, rid: int, n: int)
    requires
        forall|x: int| 0 <= x < n && s1.has_commit(rid, #[trigger] g.hash_of(x))
            ==> s2.has_commit(rid, g.hash_of(x)),
    ensures
        unknown_count(s2, g, rid, n) <= unknown_count(s1, g, rid, n),
    decreases n,
{
    if n > 0 {
        lemma_unknown_count_le(s1, s2, g, rid, n - 1);
    }
}

/// Recording a commit for a node that had none shrinks the number of
/// unknown nodes.
pub proof fn lemma_unknown_count_lt(s1: Store, s2: Store, g: RepoGraph, rid: int, n: int, w: int)
    requires
        forall|x: int| 0 <= x < n && s1.has_commit(rid, #[trigger] g.hash_of(x))
            ==> s2.has_commit(rid, g.hash_of(x)),
        0 <= w < n,
        !s1.has_commit(rid, g.hash_of(w)),
        s2.has_commit(rid, g.hash_of(w)),
    ensures
        unknown_count(s2, g, rid, n) < unknown_count(s1, g, rid, n),
    decreases n,
{
    if w == n - 1 {
        lemma_unknown_count_le(s1, s2, g, rid, n - 1);
    } else {
        lemma_unknown_count_lt(s1, s2, g, rid, n - 1, w);
    }
}

/// The second store holds every commit and relation row of the first, at the
/// same ids, and the same repositories; it may hold more.
pub open spec fn store_extends(s2: Store, s1: Store) -> bool {
    &&& s2.repositories == s1.repositories
    &&& s1.ncommits() <= s2.ncommits()
    &&& forall|j: int| 0 <= j < s1.ncommits() ==> #[trigger] s2.commits@[j] == s1.commits@[j]
    &&& s1.nrelations() <= s2.nrelations()
    &&& forall|j: int| 0 <= j < s1.nrelations() ==> #[trigger] s2.relations@[j] == s1.relations@[j]
    &&& s1.nmessages() <= s2.nmessages()
    &&& forall|j: int| 0 <= j < s1.nmessages() ==> #[trigger] s2.messages@[j] == s1.messages@[j]
    &&& s1.ncontributors() <= s2.ncontributors()
    &&& forall|j: int| 0 <= j < s1.ncontributors()
        ==> #[trigger] s2.contributors@[j] == s1.contributors@[j]
    &&& s1.nfiles() <= s2.nfiles()
    &&& forall|j: int| 0 <= j < s1.nfiles() ==> #[trigger] s2.editfiles@[j] == s1.editfiles@[j]
}

pub proof fn lemma_store_extends_trans(s3: Store, s2: Store, s1: Store)
    requires
        store_extends(s3, s2),
        store_extends(s2, s1),
    ensures
        store_extends(s3, s1),
{
}

/// A commit on record stays on record as the store grows.
pub proof fn lemma_has_commit_mono(s1: Store, s2: Store, rid: int, h: Seq<char>)
    requires
        store_extends(s2, s1),
        s1.has_commit(rid, h),
    ensures
        s2.has_commit(rid, h),
{
    let i = choose|i: int| 0 <= i < s1.ncommits() && (#[trigger] s1.commits@[i]).repo == rid
        && s1.commits@[i].hash@ == h;
    assert(s2.commits@[i] == s1.commits@[i]);
    assert(0 <= i < s2.ncommits() && s2.commits@[i].repo == rid && s2.commits@[i].hash@ == h);
}

/// A recorded edge stays recorded as the store grows.
pub proof fn lemma_edge_recorded_mono(s1: Store, s2: Store, g: RepoGraph, rid: int, child_row: int, p: int)
    requires
        store_extends(s2, s1),
        edge_recorded(s1, g, rid, child_row, p),
    ensures
        edge_recorded(s2, g, rid, child_row, p),
{
    let prow = choose|prow: int| 0 <= prow < s1.ncommits()
        && (#[trigger] s1.commits@[prow]).repo == rid
        && s1.commits@[prow].hash@ == g.hash_of(p)
        && s1.has_relation(rid, child_row, prow);
    assert(s2.commits@[prow] == s1.commits@[prow]);
    let j = choose|j: int| 0 <= j < s1.nrelations() && (#[trigger] s1.relations@[j]).repo == rid
        && s1.relations@[j].child == child_row && s1.relations@[j].parent == prow;
    assert(s2.relations@[j] == s1.relations@[j]);
    assert(0 <= j < s2.nrelations() && s2.relations@[j].repo == rid
        && s2.relations@[j].child == child_row && s2.relations@[j].parent == prow);
    assert(s2.has_relation(rid, child_row, prow));
    assert(0 <= prow < s2.ncommits() && s2.commits@[prow].repo == rid
        && s2.commits@[prow].hash@ == g.hash_of(p));
}

/// Everything reachable from a recorded commit is itself recorded or still
/// owed to a frame of the stack: the induction behind both the stop rule and
/// final completeness.
pub proof fn lemma_store_reach(s: Store, g: RepoGraph, rid: int, st: Seq<Frame>, n: int, x: int)
    requires
        s.wf(),
        g.wf(),
        pending_ok(s, g, rid, st),
        frames_wf(s, g, rid, st),
        0 <= n < g.n(),
        s.has_commit(rid, g.hash_of(n)),
        g.reaches(n, x),
    ensures
        (0 <= x < g.n() && s.has_commit(rid, g.hash_of(x)))
            || exists|j: int| 0 <= j < st.len() && g.reaches((#[trigger] st[j]).oid as int, x),
    decreases n,
{
    if x == n {
        assert(s.has_commit(rid, g.hash_of(x)));
    } else {
        reveal_with_fuel(RepoGraph::reaches, 2);
        let k = choose|k: int| 0 <= k < g.nparents(n) && #[trigger] g.parent(n, k) < n
            && g.reaches(g.parent(n, k), x);
        let p = g.parent(n, k);
        let i = choose|i: int| 0 <= i < s.ncommits() && (#[trigger] s.commits@[i]).repo == rid
            && s.commits@[i].hash@ == g.hash_of(n);
        assert(row_is_node(s, g, i, n));
        assert(edge_recorded(s, g, rid, i, g.parent(n, k)) || edge_pending(st, i, n, k));
        if edge_recorded(s, g, rid, i, p) {
            let prow = choose|prow: int| 0 <= prow < s.ncommits()
                && (#[trigger] s.commits@[prow]).repo == rid
                && s.commits@[prow].hash@ == g.hash_of(p)
                && s.has_relation(rid, i, prow);
            assert(s.has_commit(rid, g.hash_of(p)));
            lemma_store_reach(s, g, rid, st, p, x);
        } else {
            let j = choose|j: int| 0 <= j < st.len() && ((#[trigger] st[j]).desc matches Some(d)
                && d.row == i && d.node == n && d.k == k);
            assert(frame_wf(s, g, rid, st[j]));
            assert(st[j].oid as int == p);
            assert(g.reaches(st[j].oid as int, x));
        }
    }
}


/// One commit row records at most one node: hashes are unique in the graph.
pub proof fn lemma_node_unique(s: Store, g: RepoGraph, i: int, n1: int, n2: int)
    requires
        g.wf(),
        row_is_node(s, g, i, n1),
        row_is_node(s, g, i, n2),
    ensures
        n1 == n2,
{
    if n1 != n2 {
        assert(g.hash_of(n1) != g.hash_of(n2));
    }
}

/// Agreement between relation rows and the graph's diffs survives growing
/// the store, as long as every new relation row agrees too.
pub proof fn lemma_rels_agree_extend(s1: Store, s2: Store, g: RepoGraph, rid: int)
    requires
        store_extends(s2, s1),
        s1.wf(),
        rels_agree(s1, g, rid),
        forall|j: int, n: int, k: int|
            #![trigger s2.relations@[j], g.parent(n, k)]
            s1.nrelations() <= j < s2.nrelations() && s2.relations@[j].repo == rid
                && 0 <= n < g.n() && 0 <= k < g.nparents(n)
                && row_is_node(s2, g, s2.relations@[j].child as int, n)
                && row_is_node(s2, g, s2.relations@[j].parent as int, g.parent(n, k))
                ==> changes_match_diff(s2, s2.relations@[j].changes@, g.nodes@[n].diffs@[k]@),
    ensures
        rels_agree(s2, g, rid),
{
    assert forall|j: int, n: int, k: int|
        #![trigger s2.relations@[j], g.parent(n, k)]
        0 <= j < s2.nrelations() && s2.relations@[j].repo == rid
            && 0 <= n < g.n() && 0 <= k < g.nparents(n)
            && row_is_node(s2, g, s2.relations@[j].child as int, n)
            && row_is_node(s2, g, s2.relations@[j].parent as int, g.parent(n, k))
            implies changes_match_diff(s2, s2.relations@[j].changes@, g.nodes@[n].diffs@[k]@) by {
        if j < s1.nrelations() {
            assert(s2.relations@[j] == s1.relations@[j]);
            let ch = s1.relations@[j].child as int;
            let pa = s1.relations@[j].parent as int;
            assert(ch < s1.ncommits() && pa < s1.ncommits());
            assert(s2.commits@[ch] == s1.commits@[ch]);
            assert(s2.commits@[pa] == s1.commits@[pa]);
            assert(row_is_node(s1, g, ch, n));
            assert(row_is_node(s1, g, pa, g.parent(n, k)));
            assert(changes_match_diff(s1, s1.relations@[j].changes@, g.nodes@[n].diffs@[k]@));
            let ds = g.nodes@[n].diffs@[k]@;
            assert forall|c: int| 0 <= c < ds.len()
                implies crate::database::change_matches(s2, #[trigger] s1.relations@[j].changes@[c], ds[c]) by {
                assert(crate::database::change_matches(s1, s1.relations@[j].changes@[c], ds[c]));
                let f = s1.relations@[j].changes@[c].file as int;
                assert(s2.editfiles@[f] == s1.editfiles@[f]);
            }
        }
    }
}

/// Visit one traversal frame, as one atomic step of the walk.
///
/// A tip frame inserts the commit when it is new and otherwise stops. An
/// edge frame additionally owes its descendant a relation: when the commit is
/// new, it is inserted together with the relation and the edge's change rows;
/// when it exists but the relation is missing, only the relation and its
/// change rows are added; when both exist, everything behind them is already
/// recorded and nothing changes. Returns the new commit row's id exactly
/// when a commit was inserted — the caller then walks on to its parents.
#[verifier::rlimit(60)]
pub fn update_commit_one(
    s: &mut Store,
    g: &RepoGraph,
    repo_id: u64,
    oid: u64,
    desc: Option<FrameDesc>,
) -> (r: Option<u64>)
    requires
        old(s).wf(),
        g.wf(),
        repo_id < old(s).nrepos(),
        0 <= (oid as int) < g.n(),
        rels_agree(*old(s), *g, repo_id as int),
        desc matches Some(d) ==> {
            &&& 0 <= (d.row as int) < old(s).ncommits()
            &&& old(s).commits@[d.row as int].repo == repo_id
            &&& row_is_node(*old(s), *g, d.row as int, d.node as int)
            &&& 0 <= (d.k as int) < g.nparents(d.node as int)
            &&& g.parent(d.node as int, d.k as int) == oid
        },
    ensures
        final(s).wf(),
        store_extends(*final(s), *old(s)),
        rels_agree(*final(s), *g, repo_id as int),
        final(s).has_commit(repo_id as int, g.hash_of(oid as int)),
        (r is Some) <==> !old(s).has_commit(repo_id as int, g.hash_of(oid as int)),
        r matches Some(id) ==> {
            &&& id == old(s).ncommits()
            &&& final(s).ncommits() == old(s).ncommits() + 1
            &&& row_is_node(*final(s), *g, id as int, oid as int)
            &&& final(s).commits@[id as int].repo == repo_id
            &&& final(s).commits@[id as int].tree@ == g.nodes@[oid as int].tree@
        },
        r is None ==> final(s).commits == old(s).commits,
        desc is None ==> final(s).relations == old(s).relations
            && final(s).editfiles == old(s).editfiles,
        desc matches Some(d)
            ==> edge_recorded(*final(s), *g, repo_id as int, d.row as int, oid as int),
        desc is None && old(s).has_commit(repo_id as int, g.hash_of(oid as int))
            ==> *final(s) == *old(s),
        forall|j: int| old(s).ncommits() <= j < final(s).ncommits()
            ==> (#[trigger] final(s).commits@[j]).repo == repo_id,
        forall|j: int| old(s).nrelations() <= j < final(s).nrelations()
            ==> (#[trigger] final(s).relations@[j]).repo == repo_id,
{
    let ghost s0 = *old(s);
    let ghost rid = repo_id as int;
    let ghost h = g.hash_of(oid as int);
    let nn = g.nodes.len();
    proof {
        assert((oid as int) < nn as int);
    }
    let node = &g.nodes[oid as usize];
    proof {
        assert(node.hash@ == h);
    }
    match desc {
        Some(d) => {
            let exist_id = commit::get_id(s, &node.hash, repo_id);
            match exist_id {
                Some(id) => {
                    let diff_id = relation::get_id(s, id, d.row, repo_id);
                    match diff_id {
                        Some(_) => {
                            proof {
                                assert(s.has_relation(rid, d.row as int, id as int));
                                assert(edge_recorded(*s, *g, rid, d.row as int, oid as int));
                            }
                            None
                        },
                        None => {
                            let ghost s_pre = *s;
                            let new_rel = relation::insert(s, id, d.row, repo_id);
                            let ghost s_mid = *s;
                            proof {
                                assert((d.node as int) < nn as int);
                                assert((d.k as int) < g.nodes@[d.node as int].diffs@.len()) by {
                                    assert(commit_node_wf_of(*g, d.node as int));
                                }
                            }
                            change::insert(s, new_rel, &g.nodes[d.node as usize].diffs[d.k]);
                            proof {
                                assert forall|j: int| 0 <= j < s_pre.nrelations()
                                    implies #[trigger] s.relations@[j] == s_pre.relations@[j] by {
                                    assert(s.relations@[j] == s_mid.relations@[j]);
                                    assert(s_mid.relations@[j] == s_pre.relations@[j]);
                                }
                                assert(store_extends(*s, s_pre));
                                assert(s.has_relation(rid, d.row as int, id as int)) by {
                                    assert(s.relations@[new_rel as int].repo == repo_id
                                        && s.relations@[new_rel as int].child == d.row
                                        && s.relations@[new_rel as int].parent == id);
                                }
                                assert(s.commits@[id as int] == s_pre.commits@[id as int]);
                                assert(edge_recorded(*s, *g, rid, d.row as int, oid as int));
                                assert(s.has_commit(rid, h)) by {
                                    assert(s.commits@[id as int].repo == repo_id
                                        && s.commits@[id as int].hash@ == h);
                                }
                                // the one new relation row agrees with the graph's diff
                                assert forall|j: int, n: int, k: int|
                                    #![trigger s.relations@[j], g.parent(n, k)]
                                    s_pre.nrelations() <= j < s.nrelations() && s.relations@[j].repo == rid
                                        && 0 <= n < g.n() && 0 <= k < g.nparents(n)
                                        && row_is_node(*s, *g, s.relations@[j].child as int, n)
                                        && row_is_node(*s, *g, s.relations@[j].parent as int, g.parent(n, k))
                                        implies changes_match_diff(*s, s.relations@[j].changes@, g.nodes@[n].diffs@[k]@) by {
                                    assert(j == new_rel as int);
                                    assert(s.relations@[j].child == d.row);
                                    assert(s.relations@[j].parent == id);
                                    assert(s.commits@[d.row as int] == s0.commits@[d.row as int]);
                                    assert(row_is_node(*s, *g, d.row as int, d.node as int));
                                    lemma_node_unique(*s, *g, d.row as int, n, d.node as int);
                                    assert(n == d.node as int);
                                    assert(s.commits@[id as int].hash@ == h);
                                    assert(row_is_node(*s, *g, id as int, oid as int));
                                    lemma_node_unique(*s, *g, id as int, g.parent(n, k), oid as int);
                                    assert(g.parent(n, k) == oid as int);
                                    assert(g.parent(d.node as int, d.k as int) == oid as int);
                                    assert(commit_node_wf_of(*g, d.node as int));
                                    assert(k == d.k as int);
                                    let ds = g.nodes@[d.node as int].diffs@[d.k as int]@;
                                    let cs = s.relations@[new_rel as int].changes@;
                                    assert(s_mid.relations@[new_rel as int].changes@.len() == 0);
                                    assert(cs.len() == ds.len());
                                    assert forall|c: int| 0 <= c < ds.len()
                                        implies crate::database::change_matches(*s, #[trigger] cs[c], ds[c]) by {
                                        assert(crate::database::change_matches(*s,
                                            s.relations@[new_rel as int].changes@[0 + c], ds[c]));
                                    }
                                    assert(changes_match_diff(*s, cs, ds));
                                }
                                lemma_rels_agree_extend(s_pre, *s, *g, rid);
                            }
                            None
                        },
                    }
                },
                None => {
                    let ghost s_a = *s;
                    let id = commit::insert(s, node, repo_id);
                    let ghost s_b = *s;
                    proof {
                        assert(store_extends(s_b, s_a));
                        assert(!s_b.has_relation(rid, d.row as int, id as int)) by {
                            assert forall|j: int| 0 <= j < s_b.nrelations()
                                implies !((#[trigger] s_b.relations@[j]).repo == rid
                                    && s_b.relations@[j].child == d.row
                                    && s_b.relations@[j].parent == id) by {
                                assert(s_b.relations@[j] == s_a.relations@[j]);
                                assert(s_a.relations@[j].parent < s_a.ncommits());
                            }
                        }
                        assert(s_b.commits@[d.row as int] == s_a.commits@[d.row as int]);
                    }
                    let new_rel = relation::insert(s, id, d.row, repo_id);
                    let ghost s_c = *s;
                    proof {
                        assert((d.node as int) < nn as int);
                        assert((d.k as int) < g.nodes@[d.node as int].diffs@.len()) by {
                            assert(commit_node_wf_of(*g, d.node as int));
                        }
                    }
                    change::insert(s, new_rel, &g.nodes[d.node as usize].diffs[d.k]);
                    proof {
                        assert(store_extends(s_c, s_b));
                        assert forall|j: int| 0 <= j < s_b.nrelations()
                            implies #[trigger] s.relations@[j] == s_b.relations@[j] by {
                            assert(s.relations@[j] == s_c.relations@[j]);
                            assert(s_c.relations@[j] == s_b.relations@[j]);
                        }
                        assert(store_extends(*s, s_b));
                        lemma_store_extends_trans(*s, s_b, s_a);
                        assert(s.commits@[id as int] == s_b.commits@[id as int]);
                        assert(s.commits@[id as int].repo == repo_id && s.commits@[id as int].hash@ == h);
                        assert(s.has_commit(rid, h));
                        assert(row_is_node(*s, *g, id as int, oid as int));
                        assert(s.has_relation(rid, d.row as int, id as int)) by {
                            assert(s.relations@[new_rel as int].repo == repo_id
                                && s.relations@[new_rel as int].child == d.row
                                && s.relations@[new_rel as int].parent == id);
                        }
                        assert(edge_recorded(*s, *g, rid, d.row as int, oid as int));
                        assert forall|j: int, n: int, k: int|
                            #![trigger s.relations@[j], g.parent(n, k)]
                            s_a.nrelations() <= j < s.nrelations() && s.relations@[j].repo == rid
                                && 0 <= n < g.n() && 0 <= k < g.nparents(n)
                                && row_is_node(*s, *g, s.relations@[j].child as int, n)
                                && row_is_node(*s, *g, s.relations@[j].parent as int, g.parent(n, k))
                                implies changes_match_diff(*s, s.relations@[j].changes@, g.nodes@[n].diffs@[k]@) by {
                            assert(j == new_rel as int);
                            assert(s.relations@[j].child == d.row);
                            assert(s.relations@[j].parent == id);
                            assert(s.commits@[d.row as int] == s_a.commits@[d.row as int]);
                            assert(row_is_node(*s, *g, d.row as int, d.node as int));
                            lemma_node_unique(*s, *g, d.row as int, n, d.node as int);
                            assert(n == d.node as int);
                            lemma_node_unique(*s, *g, id as int, g.parent(n, k), oid as int);
                            assert(g.parent(n, k) == oid as int);
                            assert(commit_node_wf_of(*g, d.node as int));
                            assert(k == d.k as int);
                            let ds = g.nodes@[d.node as int].diffs@[d.k as int]@;
                            let cs = s.relations@[new_rel as int].changes@;
                            assert(s_c.relations@[new_rel as int].changes@.len() == 0);
                            assert(cs.len() == ds.len());
                            assert forall|c: int| 0 <= c < ds.len()
                                implies crate::database::change_matches(*s, #[trigger] cs[c], ds[c]) by {
                                assert(crate::database::change_matches(*s,
                                    s.relations@[new_rel as int].changes@[0 + c], ds[c]));
                            }
                            assert(changes_match_diff(*s, cs, ds));
                        }
                        lemma_rels_agree_extend(s_a, *s, *g, rid);
                    }
                    Some(id)
                },
            }
        },
        None => {
            let exist_id = commit::get_id(s, &node.hash, repo_id);
            match exist_id {
                Some(id) => {
                    proof {
                        assert(s.has_commit(rid, h)) by {
                            assert(s.commits@[id as int].repo == repo_id
                                && s.commits@[id as int].hash@ == h);
                        }
                    }
                    None
                },
                None => {
                    let ghost s_a = *s;
                    let id = commit::insert(s, node, repo_id);
                    proof {
                        assert(store_extends(*s, s_a));
                        assert(s.commits@[id as int].repo == repo_id && s.commits@[id as int].hash@ == h);
                        assert(s.has_commit(rid, h));
                        assert(row_is_node(*s, *g, id as int, oid as int));
                        assert forall|j: int, n: int, k: int|
                            #![trigger s.relations@[j], g.parent(n, k)]
                            s_a.nrelations() <= j < s.nrelations() && s.relations@[j].repo == rid
                                && 0 <= n < g.n() && 0 <= k < g.nparents(n)
                                && row_is_node(*s, *g, s.relations@[j].child as int, n)
                                && row_is_node(*s, *g, s.relations@[j].parent as int, g.parent(n, k))
                                implies changes_match_diff(*s, s.relations@[j].changes@, g.nodes@[n].diffs@[k]@) by {
                            assert(false);
                        }
                        lemma_rels_agree_extend(s_a, *s, *g, rid);
                    }
                    Some(id)
                },
            }
        },
    }
}


/// Walk the commit graph from the reference tip `hash` and record everything
/// not yet recorded: commits, parent→child relations, and each new
/// relation's change rows. The walk stops along any path whose next step is
/// already fully recorded. Returns how many commits were inserted; a tip
/// that does not resolve to a commit of the graph aborts the walk with a
/// read error and changes nothing.
///
/// Together its contract states the walk's laws: every commit reachable
/// from the tip ends up recorded (with [`Store::wf`]'s uniqueness, exactly
/// once); the store stays closed, so every reachable parent→child pair has
/// its relation row; every relation's change rows are exactly the edge's
/// diff; and a tip already recorded changes nothing at all.
#[verifier::loop_isolation(false)]
#[verifier::rlimit(100)]
pub fn update_commit_from(s: &mut Store, g: &RepoGraph, repo_id: u64, hash: u64) -> (r: Result<
    usize,
    SyncError,
>)
    requires
        old(s).wf(),
        g.wf(),
        repo_id < old(s).nrepos(),
        closed(*old(s), *g, repo_id as int),
        rels_agree(*old(s), *g, repo_id as int),
    ensures
        final(s).wf(),
        store_extends(*final(s), *old(s)),
        closed(*final(s), *g, repo_id as int),
        rels_agree(*final(s), *g, repo_id as int),
        forall|j: int| old(s).ncommits() <= j < final(s).ncommits()
            ==> (#[trigger] final(s).commits@[j]).repo == repo_id,
        forall|j: int| old(s).nrelations() <= j < final(s).nrelations()
            ==> (#[trigger] final(s).relations@[j]).repo == repo_id,
        (r is Ok) <==> (hash as int) < g.n(),
        r is Err ==> *final(s) == *old(s),
        r matches Ok(c) ==> {
            &&& c == final(s).ncommits() - old(s).ncommits()
            &&& final(s).has_commit(repo_id as int, g.hash_of(hash as int))
            &&& forall|x: int| 0 <= x < g.n() && #[trigger] g.reaches(hash as int, x)
                ==> final(s).has_commit(repo_id as int, g.hash_of(x))
            &&& (old(s).has_commit(repo_id as int, g.hash_of(hash as int))
                ==> *final(s) == *old(s) && c == 0)
        },
{
    let ghost s0 = *old(s);
    let ghost rid = repo_id as int;
    let nn = g.nodes.len();
    if hash >= nn as u64 {
        return Err(SyncError::Read);
    }
    let ghost tip = hash as int;
    let mut count: usize = 0;
    let mut obj_vec: Vec<Frame> = Vec::new();
    obj_vec.push(Frame { oid: hash, desc: None });
    proof {
        assert(frames_wf(*s, *g, rid, obj_vec@)) by {
            assert(frame_wf(*s, *g, rid, obj_vec@[0]));
        }
        assert(pending_ok(*s, *g, rid, obj_vec@)) by {
            assert forall|i: int, n: int, k: int|
                0 <= i < s.ncommits() && s.commits@[i].repo == rid
                    && #[trigger] row_is_node(*s, *g, i, n) && 0 <= k < g.nparents(n)
                    implies edge_recorded(*s, *g, rid, i, #[trigger] g.parent(n, k))
                        || edge_pending(obj_vec@, i, n, k) by {
                assert(edge_recorded(*s, *g, rid, i, g.parent(n, k))
                    || edge_pending(Seq::<Frame>::empty(), i, n, k));
            }
        }
        assert(covered(*s, *g, rid, obj_vec@, tip)) by {
            assert forall|x: int| 0 <= x < g.n() && #[trigger] g.reaches(tip, x)
                implies s.has_commit(rid, g.hash_of(x))
                    || exists|j: int| 0 <= j < obj_vec@.len()
                        && g.reaches((#[trigger] obj_vec@[j]).oid as int, x) by {
                assert(0 <= 0 < obj_vec@.len() && g.reaches(obj_vec@[0].oid as int, x));
            }
        }
    }
    while obj_vec.len() > 0
        invariant
            s.wf(),
            repo_id < s.nrepos(),
            store_extends(*s, s0),
            frames_wf(*s, *g, rid, obj_vec@),
            pending_ok(*s, *g, rid, obj_vec@),
            covered(*s, *g, rid, obj_vec@, tip),
            rels_agree(*s, *g, rid),
            count == s.ncommits() - s0.ncommits(),
            forall|j: int| s0.ncommits() <= j < s.ncommits()
                ==> (#[trigger] s.commits@[j]).repo == repo_id,
            forall|j: int| s0.nrelations() <= j < s.nrelations()
                ==> (#[trigger] s.relations@[j]).repo == repo_id,
            s0.has_commit(rid, g.hash_of(tip)) ==> (*s == s0 && count == 0 && (obj_vec@.len()
                == 0 || (obj_vec@.len() == 1 && obj_vec@[0].oid == hash
                && obj_vec@[0].desc is None))),
        decreases unknown_count(*s, *g, rid, g.n()), obj_vec@.len(),
    {
        let ghost s_it = *s;
        let ghost st_it = obj_vec@;
        let ghost u_it = unknown_count(s_it, *g, rid, g.n());
        let frame = obj_vec.pop().unwrap();
        let ghost st_rem = obj_vec@;
        let ghost fdesc = frame.desc;
        proof {
            assert(frame == st_it[st_it.len() - 1]);
            assert(frame_wf(s_it, *g, rid, frame));
            assert forall|j: int| 0 <= j < st_rem.len() implies #[trigger] st_rem[j] == st_it[j] by {}
        }
        let ghost h_oid = g.hash_of(frame.oid as int);
        let oid = frame.oid;
        let r1 = update_commit_one(s, g, repo_id, oid, frame.desc);
        proof {
            // frames of the remaining stack stay well formed as the store grows
            assert forall|j: int| 0 <= j < st_rem.len()
                implies frame_wf(*s, *g, rid, #[trigger] st_rem[j]) by {
                assert(frame_wf(s_it, *g, rid, st_it[j]));
                if st_rem[j].desc is Some {
                    let d = st_rem[j].desc->Some_0;
                    assert(s.commits@[d.row as int] == s_it.commits@[d.row as int]);
                }
            }
        }
        match r1 {
            None => {
                proof {
                    assert(s.commits == s_it.commits);
                    // every commit the store had keeps its hash-level facts
                    assert forall|i: int, n: int, k: int|
                        0 <= i < s.ncommits() && s.commits@[i].repo == rid
                            && #[trigger] row_is_node(*s, *g, i, n) && 0 <= k < g.nparents(n)
                            implies edge_recorded(*s, *g, rid, i, #[trigger] g.parent(n, k))
                                || edge_pending(st_rem, i, n, k) by {
                        assert(s_it.commits@[i] == s.commits@[i]);
                        assert(row_is_node(s_it, *g, i, n));
                        assert(edge_recorded(s_it, *g, rid, i, g.parent(n, k))
                            || edge_pending(st_it, i, n, k));
                        if edge_recorded(s_it, *g, rid, i, g.parent(n, k)) {
                            lemma_edge_recorded_mono(s_it, *s, *g, rid, i, g.parent(n, k));
                        } else {
                            let j = choose|j: int| 0 <= j < st_it.len()
                                && ((#[trigger] st_it[j]).desc matches Some(d)
                                && d.row == i && d.node == n && d.k == k);
                            if j < st_it.len() - 1 {
                                assert(st_rem[j] == st_it[j]);
                                assert(edge_pending(st_rem, i, n, k));
                            } else {
                                let d0 = frame.desc->Some_0;
                                assert(fdesc matches Some(d) && edge_recorded(*s, *g, rid,
                                    d.row as int, oid as int));
                                assert(g.parent(d0.node as int, d0.k as int) == oid as int);
                                assert(d0.row == i && d0.node == n && d0.k == k);
                                assert(edge_recorded(*s, *g, rid, i, g.parent(n, k)));
                            }
                        }
                    }
                    assert(pending_ok(*s, *g, rid, st_rem));
                    assert(frames_wf(*s, *g, rid, st_rem));
                    // coverage survives dropping the frame: everything behind a
                    // recorded commit is recorded or still owed to the stack
                    assert forall|x: int| 0 <= x < g.n() && #[trigger] g.reaches(tip, x)
                        implies s.has_commit(rid, g.hash_of(x))
                            || exists|j: int| 0 <= j < st_rem.len()
                                && g.reaches((#[trigger] st_rem[j]).oid as int, x) by {
                        if s_it.has_commit(rid, g.hash_of(x)) {
                            lemma_has_commit_mono(s_it, *s, rid, g.hash_of(x));
                        } else {
                            let j = choose|j: int| 0 <= j < st_it.len()
                                && g.reaches((#[trigger] st_it[j]).oid as int, x);
                            if j < st_it.len() - 1 {
                                assert(st_rem[j] == st_it[j]);
                                assert(g.reaches(st_rem[j].oid as int, x));
                            } else {
                                assert(g.reaches(oid as int, x));
                                lemma_store_reach(*s, *g, rid, st_rem, oid as int, x);
                            }
                        }
                    }
                    assert(covered(*s, *g, rid, st_rem, tip));
                    // the idempotent case: a recorded tip was dropped untouched
                    if s0.has_commit(rid, g.hash_of(tip)) {
                        assert(s_it == s0);
                        assert(st_it.len() == 1 && st_it[0].oid == hash && st_it[0].desc is None);
                        assert(s_it.has_commit(rid, h_oid));
                        assert(*s == s_it);
                    }
                    // the measure: the store is unchanged, the stack shrank
                    assert forall|x: int| 0 <= x < g.n()
                        && s_it.has_commit(rid, #[trigger] g.hash_of(x))
                        implies s.has_commit(rid, g.hash_of(x)) by {
                        lemma_has_commit_mono(s_it, *s, rid, g.hash_of(x));
                    }
                    lemma_unknown_count_le(s_it, *s, *g, rid, g.n());
                    assert forall|x: int| 0 <= x < g.n()
                        && s.has_commit(rid, #[trigger] g.hash_of(x))
                        implies s_it.has_commit(rid, g.hash_of(x)) by {
                        let i = choose|i: int| 0 <= i < s.ncommits()
                            && (#[trigger] s.commits@[i]).repo == rid
                            && s.commits@[i].hash@ == g.hash_of(x);
                        assert(s_it.commits@[i] == s.commits@[i]);
                    }
                    lemma_unknown_count_le(*s, s_it, *g, rid, g.n());
                    assert(unknown_count(*s, *g, rid, g.n()) == u_it);
                }
            },
            Some(id) => {
                let lc = s.commits.len();
                proof {
                    assert(count + 1 <= lc);
                }
                count = count + 1;
                let node = &g.nodes[oid as usize];
                let mut tmp: Vec<Frame> = Vec::new();
                let mut k: usize = 0;
                while k < node.parents.len()
                    invariant
                        k <= node.parents@.len(),
                        tmp@.len() == k,
                        forall|j: int| 0 <= j < k ==> (#[trigger] tmp@[j]).oid
                            == node.parents@[j] && (tmp@[j].desc matches Some(dd) && dd.row == id
                            && dd.node == oid && dd.k == j),
                    decreases node.parents@.len() - k,
                {
                    tmp.push(Frame {
                        oid: node.parents[k],
                        desc: Some(FrameDesc { row: id, node: oid, k }),
                    });
                    k = k + 1;
                }
                let ghost tmps = tmp@;
                obj_vec.append(&mut tmp);
                proof {
                    let st_new = obj_vec@;
                    assert(st_new == st_rem + tmps);
                    assert(commit_node_wf_of(*g, oid as int));
                    // all frames of the new stack are well formed
                    assert forall|j: int| 0 <= j < st_new.len()
                        implies frame_wf(*s, *g, rid, #[trigger] st_new[j]) by {
                        if j < st_rem.len() {
                            assert(st_new[j] == st_rem[j]);
                        } else {
                            assert(st_new[j] == tmps[j - st_rem.len()]);
                            let kk = j - st_rem.len();
                            assert(g.parent(oid as int, kk) == node.parents@[kk]);
                            assert(g.parent(oid as int, kk) < oid as int);
                            assert(row_is_node(*s, *g, id as int, oid as int));
                        }
                    }
                    assert(frames_wf(*s, *g, rid, st_new));
                    // every owed edge is owed to the new stack or recorded
                    assert forall|i: int, n: int, k2: int|
                        0 <= i < s.ncommits() && s.commits@[i].repo == rid
                            && #[trigger] row_is_node(*s, *g, i, n) && 0 <= k2 < g.nparents(n)
                            implies edge_recorded(*s, *g, rid, i, #[trigger] g.parent(n, k2))
                                || edge_pending(st_new, i, n, k2) by {
                        if i < s_it.ncommits() {
                            assert(s.commits@[i] == s_it.commits@[i]);
                            assert(row_is_node(s_it, *g, i, n));
                            assert(edge_recorded(s_it, *g, rid, i, g.parent(n, k2))
                                || edge_pending(st_it, i, n, k2));
                            if edge_recorded(s_it, *g, rid, i, g.parent(n, k2)) {
                                lemma_edge_recorded_mono(s_it, *s, *g, rid, i, g.parent(n, k2));
                            } else {
                                let j = choose|j: int| 0 <= j < st_it.len()
                                    && ((#[trigger] st_it[j]).desc matches Some(d)
                                    && d.row == i && d.node == n && d.k == k2);
                                if j < st_it.len() - 1 {
                                    assert(st_new[j] == st_it[j]);
                                    assert(edge_pending(st_new, i, n, k2));
                                } else {
                                    let d0 = frame.desc->Some_0;
                                    assert(fdesc matches Some(d) && edge_recorded(*s, *g, rid,
                                        d.row as int, oid as int));
                                    assert(g.parent(d0.node as int, d0.k as int) == oid as int);
                                    assert(d0.row == i && d0.node == n && d0.k == k2);
                                    assert(edge_recorded(*s, *g, rid, i, g.parent(n, k2)));
                                }
                            }
                        } else {
                            assert(i == id as int);
                            assert(row_is_node(*s, *g, id as int, oid as int));
                            lemma_node_unique(*s, *g, i, n, oid as int);
                            assert(n == oid as int);
                            let j = st_rem.len() + k2;
                            assert(st_new[j] == tmps[k2]);
                            assert((st_new[j].desc matches Some(d) && d.row == i && d.node == n
                                && d.k == k2));
                            assert(edge_pending(st_new, i, n, k2));
                        }
                    }
                    assert(pending_ok(*s, *g, rid, st_new));
                    // coverage: a dropped frame's territory is the new commit
                    // plus what the freshly pushed parent frames cover
                    assert forall|x: int| 0 <= x < g.n() && #[trigger] g.reaches(tip, x)
                        implies s.has_commit(rid, g.hash_of(x))
                            || exists|j: int| 0 <= j < st_new.len()
                                && g.reaches((#[trigger] st_new[j]).oid as int, x) by {
                        if s_it.has_commit(rid, g.hash_of(x)) {
                            lemma_has_commit_mono(s_it, *s, rid, g.hash_of(x));
                        } else {
                            let j = choose|j: int| 0 <= j < st_it.len()
                                && g.reaches((#[trigger] st_it[j]).oid as int, x);
                            if j < st_it.len() - 1 {
                                assert(st_new[j] == st_it[j]);
                                assert(g.reaches(st_new[j].oid as int, x));
                            } else {
                                assert(g.reaches(oid as int, x));
                                if x == oid as int {
                                    assert(s.has_commit(rid, g.hash_of(x)));
                                } else {
                                    let k2 = choose|k2: int| 0 <= k2 < g.nparents(oid as int)
                                        && #[trigger] g.parent(oid as int, k2) < oid as int
                                        && g.reaches(g.parent(oid as int, k2), x);
                                    let jn = st_rem.len() + k2;
                                    assert(st_new[jn] == tmps[k2]);
                                    assert(st_new[jn].oid == node.parents@[k2]);
                                    assert(g.reaches(st_new[jn].oid as int, x));
                                }
                            }
                        }
                    }
                    assert(covered(*s, *g, rid, st_new, tip));
                    // a recorded tip never reaches this branch
                    if s0.has_commit(rid, g.hash_of(tip)) {
                        assert(s_it == s0);
                        assert(st_it.len() == 1 && st_it[0].oid == hash);
                        assert(s_it.has_commit(rid, h_oid));
                        assert(false);
                    }
                    // the measure: one more node is recorded
                    assert forall|x: int| 0 <= x < g.n()
                        && s_it.has_commit(rid, #[trigger] g.hash_of(x))
                        implies s.has_commit(rid, g.hash_of(x)) by {
                        lemma_has_commit_mono(s_it, *s, rid, g.hash_of(x));
                    }
                    lemma_unknown_count_lt(s_it, *s, *g, rid, g.n(), oid as int);
                    assert(unknown_count(*s, *g, rid, g.n()) < u_it);
                }
            },
        }
    }
    proof {
        assert(obj_vec@.len() == 0);
        assert(closed(*s, *g, rid)) by {
            assert forall|i: int, n: int, k: int|
                0 <= i < s.ncommits() && s.commits@[i].repo == rid
                    && #[trigger] row_is_node(*s, *g, i, n) && 0 <= k < g.nparents(n)
                    implies edge_recorded(*s, *g, rid, i, #[trigger] g.parent(n, k))
                        || edge_pending(Seq::<Frame>::empty(), i, n, k) by {
                assert(edge_recorded(*s, *g, rid, i, g.parent(n, k))
                    || edge_pending(obj_vec@, i, n, k));
            }
        }
        assert forall|x: int| 0 <= x < g.n() && #[trigger] g.reaches(tip, x)
            implies s.has_commit(rid, g.hash_of(x)) by {
            assert(s.has_commit(rid, g.hash_of(x)) || exists|j: int| 0 <= j < obj_vec@.len()
                && g.reaches((#[trigger] obj_vec@[j]).oid as int, x));
        }
        assert(g.reaches(tip, tip));
        assert(s.has_commit(rid, g.hash_of(tip)));
    }
    Ok(count)
}



/// Upsert the repository row for `name`, refreshing its description and head
/// branch and clearing its stale flag, and return its id.
pub fn update_repository(s: &mut Store, name: &String, show: &String, head: &String) -> (r: u64)
    requires
        old(s).wf(),
    ensures
        final(s).wf(),
        final(s).commits == old(s).commits,
        final(s).relations == old(s).relations,
        final(s).messages == old(s).messages,
        final(s).contributors == old(s).contributors,
        final(s).editfiles == old(s).editfiles,
        r == repository::upsert_target(*old(s), name@),
        final(s).repo_live(r as int),
        final(s).repositories@[r as int].name@ == name@,
        final(s).repositories@[r as int].show@ == show@,
        final(s).repositories@[r as int].head@ == head@,
        final(s).repositories@[r as int].stale == false,
        final(s).nrepos() == if old(s).live_named(name@) {
            old(s).nrepos()
        } else {
            old(s).nrepos() + 1
        },
        forall|j: int| 0 <= j < old(s).nrepos() && j != r
            ==> #[trigger] final(s).repositories@[j] == old(s).repositories@[j],
        old(s).live_named(name@) ==> {
            &&& final(s).repositories@[r as int].name == old(s).repositories@[r as int].name
            &&& (old(s).repositories@[r as int].show@ == show@
                ==> final(s).repositories@[r as int].show == old(s).repositories@[r as int].show)
            &&& (old(s).repositories@[r as int].head@ == head@
                ==> final(s).repositories@[r as int].head == old(s).repositories@[r as int].head)
        },
{
    let ghost t = repository::upsert_target(*old(s), name@);
    repository::insert(s, name, show, head);
    match repository::get_id(s, name) {
        Some(i) => {
            proof {
                assert(s.repo_live(t) && s.repositories@[t].name@ == name@);
                if i as int != t {
                    assert(s.repositories@[i as int].name@ != s.repositories@[t].name@);
                    assert(false);
                }
            }
            i
        },
        None => {
            proof {
                assert(s.live_named(name@));
                assert(false);
            }
            0
        },
    }
}

/// Synchronize one repository: walk the graph from every reference tip in
/// turn, recording what is new, and return the total number of commits
/// inserted. Tips sharing ancestry are deduplicated by the store's existence
/// checks; a tip that does not resolve aborts the repository's pass, and
/// what earlier tips recorded stays.
#[verifier::loop_isolation(false)]
#[verifier::rlimit(100)]
pub fn update_commit_all(s: &mut Store, g: &RepoGraph, repo_id: u64, tips: &Vec<u64>) -> (r:
    Result<usize, SyncError>)
    requires
        old(s).wf(),
        g.wf(),
        repo_id < old(s).nrepos(),
        closed(*old(s), *g, repo_id as int),
        rels_agree(*old(s), *g, repo_id as int),
    ensures
        final(s).wf(),
        store_extends(*final(s), *old(s)),
        closed(*final(s), *g, repo_id as int),
        rels_agree(*final(s), *g, repo_id as int),
        forall|j: int| old(s).ncommits() <= j < final(s).ncommits()
            ==> (#[trigger] final(s).commits@[j]).repo == repo_id,
        forall|j: int| old(s).nrelations() <= j < final(s).nrelations()
            ==> (#[trigger] final(s).relations@[j]).repo == repo_id,
        (r is Ok) <==> (forall|ti: int| 0 <= ti < tips@.len()
            ==> ((#[trigger] tips@[ti]) as int) < g.n()),
        r matches Ok(c) ==> {
            &&& c == final(s).ncommits() - old(s).ncommits()
            &&& forall|ti: int, x: int|
                0 <= ti < tips@.len() && 0 <= x < g.n()
                    && #[trigger] g.reaches(tips@[ti] as int, x)
                    ==> final(s).has_commit(repo_id as int, g.hash_of(x))
        },
        ((forall|ti: int| 0 <= ti < tips@.len() ==> ((#[trigger] tips@[ti]) as int) < g.n())
            && (forall|ti: int| 0 <= ti < tips@.len()
                ==> old(s).has_commit(repo_id as int, g.hash_of((#[trigger] tips@[ti]) as int))))
            ==> (r is Ok && *final(s) == *old(s)),
{
    let ghost s0 = *old(s);
    let ghost rid = repo_id as int;
    let mut total: usize = 0;
    let mut ti: usize = 0;
    while ti < tips.len()
        invariant
            s.wf(),
            repo_id < s.nrepos(),
            store_extends(*s, s0),
            closed(*s, *g, rid),
            rels_agree(*s, *g, rid),
            ti <= tips@.len(),
            total == s.ncommits() - s0.ncommits(),
            forall|j: int| s0.ncommits() <= j < s.ncommits()
                ==> (#[trigger] s.commits@[j]).repo == repo_id,
            forall|j: int| s0.nrelations() <= j < s.nrelations()
                ==> (#[trigger] s.relations@[j]).repo == repo_id,
            forall|t2: int| 0 <= t2 < ti ==> ((#[trigger] tips@[t2]) as int) < g.n(),
            forall|t2: int, x: int|
                0 <= t2 < ti && 0 <= x < g.n() && #[trigger] g.reaches(tips@[t2] as int, x)
                    ==> s.has_commit(rid, g.hash_of(x)),
            ((forall|t2: int| 0 <= t2 < tips@.len() ==> ((#[trigger] tips@[t2]) as int) < g.n())
                && (forall|t2: int| 0 <= t2 < tips@.len()
                    ==> s0.has_commit(rid, g.hash_of((#[trigger] tips@[t2]) as int))))
                ==> *s == s0,
        decreases tips@.len() - ti,
    {
        let tip = tips[ti];
        let ghost s_pre = *s;
        match update_commit_from(s, g, repo_id, tip) {
            Ok(c) => {
                let lc = s.commits.len();
                proof {
                    assert(total + c <= lc);
                }
                total = total + c;
                proof {
                    lemma_store_extends_trans(*s, s_pre, s0);
                    assert forall|t2: int, x: int|
                        0 <= t2 < ti + 1 && 0 <= x < g.n()
                            && #[trigger] g.reaches(tips@[t2] as int, x)
                            implies s.has_commit(rid, g.hash_of(x)) by {
                        if t2 < ti {
                            lemma_has_commit_mono(s_pre, *s, rid, g.hash_of(x));
                        }
                    }
                    assert forall|j: int| s0.ncommits() <= j < s.ncommits()
                        implies (#[trigger] s.commits@[j]).repo == repo_id by {
                        if j < s_pre.ncommits() {
                            assert(s.commits@[j] == s_pre.commits@[j]);
                        }
                    }
                    assert forall|j: int| s0.nrelations() <= j < s.nrelations()
                        implies (#[trigger] s.relations@[j]).repo == repo_id by {
                        if j < s_pre.nrelations() {
                            assert(s.relations@[j] == s_pre.relations@[j]);
                        }
                    }
                    if (forall|t2: int| 0 <= t2 < tips@.len()
                        ==> ((#[trigger] tips@[t2]) as int) < g.n())
                        && (forall|t2: int| 0 <= t2 < tips@.len()
                            ==> s0.has_commit(rid, g.hash_of((#[trigger] tips@[t2]) as int))) {
                        assert(s_pre == s0);
                        assert(s0.has_commit(rid, g.hash_of(tips@[ti as int] as int)));
                        assert(*s == s_pre);
                    }
                }
                ti = ti + 1;
            },
            Err(e) => {
                proof {
                    assert(!((tip as int) < g.n()));
                    assert(tips@[ti as int] == tip);
                }
                return Err(e);
            },
        }
    }
    Ok(total)
}



/// One repository's input to a synchronization pass: its name, description
/// and head branch, its commit graph, and the commits its references point
/// at.
pub struct RepoInput {
    pub name: String,
    pub show: String,
    pub head: String,
    pub graph: RepoGraph,
    pub tips: Vec<u64>,
}

/// Repository row `rid` records input `inp`, fully synchronized: the row
/// carries the input's fields and was touched this pass, the store is closed
/// over the input's graph with agreeing diffs, and every commit reachable
/// from any tip is recorded.
pub open spec fn repo_synced(s: Store, inp: RepoInput, rid: int) -> bool {
    &&& s.repo_live(rid)
    &&& s.repositories@[rid].name@ == inp.name@
    &&& s.repositories@[rid].show@ == inp.show@
    &&& s.repositories@[rid].head@ == inp.head@
    &&& s.repositories@[rid].stale == false
    &&& closed(s, inp.graph, rid)
    &&& rels_agree(s, inp.graph, rid)
    &&& forall|ti: int| 0 <= ti < inp.tips@.len()
        ==> ((#[trigger] inp.tips@[ti]) as int) < inp.graph.n()
    &&& forall|ti: int, x: int|
        0 <= ti < inp.tips@.len() && 0 <= x < inp.graph.n()
            && #[trigger] inp.graph.reaches(inp.tips@[ti] as int, x)
            ==> s.has_commit(rid, inp.graph.hash_of(x))
}

/// Some repository row records input `inp`, fully synchronized.
pub open spec fn synced(s: Store, inp: RepoInput) -> bool {
    exists|rid: int| #[trigger] repo_synced(s, inp, rid)
}

/// A pass over `inputs` has fully happened: every input repository is
/// recorded and synchronized, and nothing else is live — a repository absent
/// from the input is gone, with (through the liveness cascade) its commits,
/// relations, changes and messages.
pub open spec fn pass_done(s: Store, inputs: Seq<RepoInput>) -> bool {
    &&& forall|j: int| 0 <= j < inputs.len() ==> synced(s, #[trigger] inputs[j])
    &&& forall|i: int| #[trigger] s.repo_live(i) ==> !s.repositories@[i].stale
        && exists|j: int| 0 <= j < inputs.len()
            && s.repositories@[i].name@ == (#[trigger] inputs[j]).name@
}

/// Closure of one repository's records does not depend on the repository
/// table: it carries over to any store with the same commits and relations.
pub proof fn lemma_closed_same_tables(s1: Store, s2: Store, g: RepoGraph, rid: int)
    requires
        s2.commits == s1.commits,
        s2.relations == s1.relations,
        closed(s1, g, rid),
    ensures
        closed(s2, g, rid),
{
    assert forall|i: int, n: int, k: int|
        0 <= i < s2.ncommits() && s2.commits@[i].repo == rid
            && #[trigger] row_is_node(s2, g, i, n) && 0 <= k < g.nparents(n)
            implies edge_recorded(s2, g, rid, i, #[trigger] g.parent(n, k))
                || edge_pending(Seq::<Frame>::empty(), i, n, k) by {
        assert(s2.commits@ == s1.commits@);
        assert(s2.relations@ == s1.relations@);
        assert(row_is_node(s1, g, i, n));
        assert(edge_recorded(s1, g, rid, i, g.parent(n, k))
            || edge_pending(Seq::<Frame>::empty(), i, n, k));
        if edge_recorded(s1, g, rid, i, g.parent(n, k)) {
            let p = g.parent(n, k);
            let prow = choose|prow: int| 0 <= prow < s1.ncommits()
                && (#[trigger] s1.commits@[prow]).repo == rid
                && s1.commits@[prow].hash@ == g.hash_of(p)
                && s1.has_relation(rid, i, prow);
            let jj = choose|jj: int| 0 <= jj < s1.nrelations()
                && (#[trigger] s1.relations@[jj]).repo == rid
                && s1.relations@[jj].child == i && s1.relations@[jj].parent == prow;
            assert(0 <= jj < s2.nrelations() && s2.relations@[jj].repo == rid
                && s2.relations@[jj].child == i && s2.relations@[jj].parent == prow);
            assert(s2.has_relation(rid, i, prow));
            assert(0 <= prow < s2.ncommits() && s2.commits@[prow].repo == rid
                && s2.commits@[prow].hash@ == g.hash_of(p));
        }
    }
}

/// Diff agreement does not depend on the repository table either.
pub proof fn lemma_rels_agree_same_tables(s1: Store, s2: Store, g: RepoGraph, rid: int)
    requires
        s2.commits == s1.commits,
        s2.relations == s1.relations,
        s2.editfiles == s1.editfiles,
        rels_agree(s1, g, rid),
    ensures
        rels_agree(s2, g, rid),
{
    assert forall|j: int, n: int, k: int|
        #![trigger s2.relations@[j], g.parent(n, k)]
        0 <= j < s2.nrelations() && s2.relations@[j].repo == rid
            && 0 <= n < g.n() && 0 <= k < g.nparents(n)
            && row_is_node(s2, g, s2.relations@[j].child as int, n)
            && row_is_node(s2, g, s2.relations@[j].parent as int, g.parent(n, k))
            implies changes_match_diff(s2, s2.relations@[j].changes@, g.nodes@[n].diffs@[k]@) by {
        assert(s2.commits@ == s1.commits@);
        assert(s2.relations@ == s1.relations@);
        assert(s2.editfiles@ == s1.editfiles@);
        assert(s1.relations@[j] == s2.relations@[j]);
        assert(row_is_node(s1, g, s1.relations@[j].child as int, n));
        assert(row_is_node(s1, g, s1.relations@[j].parent as int, g.parent(n, k)));
        assert(changes_match_diff(s1, s1.relations@[j].changes@, g.nodes@[n].diffs@[k]@));
        let ds = g.nodes@[n].diffs@[k]@;
        assert forall|c: int| 0 <= c < ds.len()
            implies crate::database::change_matches(s2, #[trigger] s2.relations@[j].changes@[c], ds[c]) by {
            assert(crate::database::change_matches(s1, s1.relations@[j].changes@[c], ds[c]));
        }
    }
}

/// A commit on record carries over to any store with the same commit table.
pub proof fn lemma_has_commit_same_tables(s1: Store, s2: Store, rid: int, h: Seq<char>)
    requires
        s2.commits == s1.commits,
        s1.has_commit(rid, h),
    ensures
        s2.has_commit(rid, h),
{
    assert(s2.commits@ == s1.commits@);
    let i = choose|i: int| 0 <= i < s1.ncommits() && (#[trigger] s1.commits@[i]).repo == rid
        && s1.commits@[i].hash@ == h;
    assert(0 <= i < s2.ncommits() && s2.commits@[i].repo == rid && s2.commits@[i].hash@ == h);
}

/// Closure survives growing the store with another repository's rows.
pub proof fn lemma_closed_extend_other(s1: Store, s2: Store, g: RepoGraph, rid: int, rid2: int)
    requires
        closed(s1, g, rid),
        store_extends(s2, s1),
        rid2 != rid,
        forall|j: int| s1.ncommits() <= j < s2.ncommits()
            ==> (#[trigger] s2.commits@[j]).repo == rid2,
    ensures
        closed(s2, g, rid),
{
    assert forall|i: int, n: int, k: int|
        0 <= i < s2.ncommits() && s2.commits@[i].repo == rid
            && #[trigger] row_is_node(s2, g, i, n) && 0 <= k < g.nparents(n)
            implies edge_recorded(s2, g, rid, i, #[trigger] g.parent(n, k))
                || edge_pending(Seq::<Frame>::empty(), i, n, k) by {
        assert(i < s1.ncommits());
        assert(s2.commits@[i] == s1.commits@[i]);
        assert(row_is_node(s1, g, i, n));
        assert(edge_recorded(s1, g, rid, i, g.parent(n, k))
            || edge_pending(Seq::<Frame>::empty(), i, n, k));
        lemma_edge_recorded_mono(s1, s2, g, rid, i, g.parent(n, k));
    }
}

/// Diff agreement survives growing the store with another repository's rows.
pub proof fn lemma_rels_agree_extend_other(s1: Store, s2: Store, g: RepoGraph, rid: int, rid2: int)
    requires
        s1.wf(),
        rels_agree(s1, g, rid),
        store_extends(s2, s1),
        rid2 != rid,
        forall|j: int| s1.nrelations() <= j < s2.nrelations()
            ==> (#[trigger] s2.relations@[j]).repo == rid2,
    ensures
        rels_agree(s2, g, rid),
{
    assert forall|j: int, n: int, k: int|
        #![trigger s2.relations@[j], g.parent(n, k)]
        s1.nrelations() <= j < s2.nrelations() && s2.relations@[j].repo == rid
            && 0 <= n < g.n() && 0 <= k < g.nparents(n)
            && row_is_node(s2, g, s2.relations@[j].child as int, n)
            && row_is_node(s2, g, s2.relations@[j].parent as int, g.parent(n, k))
            implies changes_match_diff(s2, s2.relations@[j].changes@, g.nodes@[n].diffs@[k]@) by {
        assert(s2.relations@[j].repo == rid2);
        assert(false);
    }
    lemma_rels_agree_extend(s1, s2, g, rid);
}

/// A synchronized repository stays synchronized while another repository's
/// rows are added and its own row is untouched.
pub proof fn lemma_repo_synced_sync_step(s1: Store, s2: Store, inp: RepoInput, rid: int, rid2: int)
    requires
        s1.wf(),
        repo_synced(s1, inp, rid),
        store_extends(s2, s1),
        rid2 != rid,
        forall|j: int| s1.ncommits() <= j < s2.ncommits()
            ==> (#[trigger] s2.commits@[j]).repo == rid2,
        forall|j: int| s1.nrelations() <= j < s2.nrelations()
            ==> (#[trigger] s2.relations@[j]).repo == rid2,
    ensures
        repo_synced(s2, inp, rid),
{
    lemma_closed_extend_other(s1, s2, inp.graph, rid, rid2);
    lemma_rels_agree_extend_other(s1, s2, inp.graph, rid, rid2);
    assert forall|ti: int, x: int|
        0 <= ti < inp.tips@.len() && 0 <= x < inp.graph.n()
            && #[trigger] inp.graph.reaches(inp.tips@[ti] as int, x)
            implies s2.has_commit(rid, inp.graph.hash_of(x)) by {
        lemma_has_commit_mono(s1, s2, rid, inp.graph.hash_of(x));
    }
}

/// A synchronized repository stays synchronized while only the repository
/// table changes elsewhere, as long as its own row keeps its value.
pub proof fn lemma_repo_synced_repo_step(s1: Store, s2: Store, inp: RepoInput, rid: int)
    requires
        repo_synced(s1, inp, rid),
        s2.commits == s1.commits,
        s2.relations == s1.relations,
        s2.messages == s1.messages,
        s2.editfiles == s1.editfiles,
        0 <= rid < s2.nrepos(),
        s2.repositories@[rid] == s1.repositories@[rid],
    ensures
        repo_synced(s2, inp, rid),
{
    lemma_closed_same_tables(s1, s2, inp.graph, rid);
    lemma_rels_agree_same_tables(s1, s2, inp.graph, rid);
    assert forall|ti: int, x: int|
        0 <= ti < inp.tips@.len() && 0 <= x < inp.graph.n()
            && #[trigger] inp.graph.reaches(inp.tips@[ti] as int, x)
            implies s2.has_commit(rid, inp.graph.hash_of(x)) by {
        lemma_has_commit_same_tables(s1, s2, rid, inp.graph.hash_of(x));
    }
}


/// Run one whole synchronization pass: mark every repository stale, upsert
/// and synchronize each input repository in order, then sweep — every
/// repository row the pass never touched is removed, and with it (through
/// the cascade) its commits, relations, changes and messages.
///
/// The contract carries the pass's laws: on success every input repository
/// is fully synchronized and nothing else is live; and a pass over inputs
/// the store already reflects returns successfully and changes nothing at
/// all — run twice, the second pass inserts zero rows.
#[verifier::loop_isolation(false)]
#[verifier::rlimit(100)]
pub fn run(s: &mut Store, repos: &Vec<RepoInput>) -> (r: Result<(), SyncError>)
    requires
        old(s).wf(),
        forall|j: int| 0 <= j < repos@.len() ==> (#[trigger] repos@[j]).graph.wf(),
        forall|j1: int, j2: int|
            0 <= j1 < repos@.len() && 0 <= j2 < repos@.len() && j1 != j2
                ==> (#[trigger] repos@[j1]).name@ != (#[trigger] repos@[j2]).name@,
        forall|j: int, rid: int|
            #![trigger repos@[j].graph, old(s).repositories@[rid]]
            0 <= j < repos@.len() && old(s).repo_live(rid)
                && old(s).repositories@[rid].name@ == repos@[j].name@
                ==> closed(*old(s), repos@[j].graph, rid)
                    && rels_agree(*old(s), repos@[j].graph, rid),
    ensures
        final(s).wf(),
        (r is Ok) <==> (forall|j: int, ti: int|
            0 <= j < repos@.len() && 0 <= ti < (#[trigger] repos@[j]).tips@.len()
                ==> ((#[trigger] repos@[j].tips@[ti]) as int) < repos@[j].graph.n()),
        r is Ok ==> pass_done(*final(s), repos@),
        pass_done(*old(s), repos@) ==> r is Ok && {
            &&& final(s).repositories@ == old(s).repositories@
            &&& final(s).commits == old(s).commits
            &&& final(s).relations == old(s).relations
            &&& final(s).messages == old(s).messages
            &&& final(s).contributors == old(s).contributors
            &&& final(s).editfiles == old(s).editfiles
        },
{
    let ghost s0 = *old(s);
    let ghost inputs = repos@;
    mark_stale(s);
    proof {
        assert forall|j2: int, rid: int|
            #![trigger inputs[j2].graph, s.repositories@[rid]]
            0 <= j2 < inputs.len() && s.repo_live(rid)
                && s.repositories@[rid].name@ == inputs[j2].name@
                implies closed(*s, inputs[j2].graph, rid)
                    && rels_agree(*s, inputs[j2].graph, rid) by {
            assert(s0.repo_live(rid));
            assert(s0.repositories@[rid].name@ == inputs[j2].name@);
            assert(closed(s0, inputs[j2].graph, rid));
            assert(rels_agree(s0, inputs[j2].graph, rid));
            lemma_closed_same_tables(s0, *s, inputs[j2].graph, rid);
            lemma_rels_agree_same_tables(s0, *s, inputs[j2].graph, rid);
        }
    }
    let mut j: usize = 0;
    while j < repos.len()
        invariant
            s.wf(),
            j <= inputs.len(),
            // repositories not yet visited still agree with their graphs
            forall|j2: int, rid: int|
                #![trigger inputs[j2].graph, s.repositories@[rid]]
                j <= j2 < inputs.len() && s.repo_live(rid)
                    && s.repositories@[rid].name@ == inputs[j2].name@
                    ==> closed(*s, inputs[j2].graph, rid)
                        && rels_agree(*s, inputs[j2].graph, rid),
            // repositories already visited are synchronized
            forall|j2: int| 0 <= j2 < j ==> synced(*s, #[trigger] inputs[j2]),
            // only visited repositories have been touched
            forall|i: int| #[trigger] s.repo_live(i) && !s.repositories@[i].stale
                ==> exists|j2: int| 0 <= j2 < j
                    && s.repositories@[i].name@ == (#[trigger] inputs[j2]).name@,
            // a pass the store already reflects changes nothing but flags
            pass_done(s0, inputs) ==> {
                &&& s.commits == s0.commits
                &&& s.relations == s0.relations
                &&& s.messages == s0.messages
                &&& s.contributors == s0.contributors
                &&& s.editfiles == s0.editfiles
                &&& s.nrepos() == s0.nrepos()
                &&& forall|i: int| 0 <= i < s0.nrepos() ==> {
                    &&& (#[trigger] s.repositories@[i]).name == s0.repositories@[i].name
                    &&& s.repositories@[i].show == s0.repositories@[i].show
                    &&& s.repositories@[i].head == s0.repositories@[i].head
                    &&& s.repositories@[i].alive == s0.repositories@[i].alive
                    &&& (s.repositories@[i].stale == s0.repositories@[i].stale
                        || (s.repositories@[i].stale && s0.repositories@[i].alive))
                    &&& ((s0.repositories@[i].alive && exists|j2: int| 0 <= j2 < j
                        && s0.repositories@[i].name@ == (#[trigger] inputs[j2]).name@)
                        ==> s.repositories@[i].stale == s0.repositories@[i].stale)
                }
            },
        decreases inputs.len() - j,
    {
        let inp = &repos[j];
        let ghost s_a = *s;
        let rid = update_repository(s, &inp.name, &inp.show, &inp.head);
        let ghost s_b = *s;
        proof {
            // the fresh or found row agrees with this input's graph
            if s_a.live_named(inp.name@) {
                let t = s_a.live_ix(inp.name@);
                assert(s_a.repo_live(t) && s_a.repositories@[t].name@ == inp.name@);
                assert(rid as int == t);
                assert(closed(s_a, inp.graph, rid as int));
                assert(rels_agree(s_a, inp.graph, rid as int));
                lemma_closed_same_tables(s_a, s_b, inp.graph, rid as int);
                lemma_rels_agree_same_tables(s_a, s_b, inp.graph, rid as int);
            } else {
                assert(rid as int == s_a.nrepos());
                assert forall|i2: int| 0 <= i2 < s_b.ncommits()
                    implies (#[trigger] s_b.commits@[i2]).repo != rid by {
                    assert(s_b.commits@[i2] == s_a.commits@[i2]);
                    assert(s_a.commits@[i2].repo < s_a.nrepos());
                }
                assert(closed(s_b, inp.graph, rid as int)) by {
                    assert forall|i2: int, n: int, k: int|
                        0 <= i2 < s_b.ncommits() && s_b.commits@[i2].repo == rid as int
                            && #[trigger] row_is_node(s_b, inp.graph, i2, n)
                            && 0 <= k < inp.graph.nparents(n)
                            implies edge_recorded(s_b, inp.graph, rid as int, i2,
                                #[trigger] inp.graph.parent(n, k))
                                || edge_pending(Seq::<Frame>::empty(), i2, n, k) by {
                        assert(false);
                    }
                }
                assert(rels_agree(s_b, inp.graph, rid as int)) by {
                    assert forall|j3: int, n: int, k: int|
                        #![trigger s_b.relations@[j3], inp.graph.parent(n, k)]
                        0 <= j3 < s_b.nrelations() && s_b.relations@[j3].repo == rid as int
                            && 0 <= n < inp.graph.n() && 0 <= k < inp.graph.nparents(n)
                            && row_is_node(s_b, inp.graph, s_b.relations@[j3].child as int, n)
                            && row_is_node(s_b, inp.graph, s_b.relations@[j3].parent as int,
                                inp.graph.parent(n, k))
                            implies changes_match_diff(s_b, s_b.relations@[j3].changes@,
                                inp.graph.nodes@[n].diffs@[k]@) by {
                        assert(s_b.commits@[s_b.relations@[j3].child as int].repo
                            == s_b.relations@[j3].repo);
                        assert(false);
                    }
                }
            }
        }
        let sync_result = update_commit_all(s, &inp.graph, rid, &inp.tips);
        let ghost s_c = *s;
        match sync_result {
            Ok(_) => {},
            Err(e) => {
                proof {
                    let ti = choose|ti: int| 0 <= ti < inp.tips@.len()
                        && !(((#[trigger] inp.tips@[ti]) as int) < inp.graph.n());
                    assert(inputs[j as int].tips@[ti] == inp.tips@[ti]);
                    if pass_done(s0, inputs) {
                        assert(synced(s0, inputs[j as int]));
                        let r0 = choose|r0: int| #[trigger] repo_synced(s0, inputs[j as int], r0);
                        assert(((inputs[j as int].tips@[ti]) as int) < inputs[j as int].graph.n());
                        assert(false);
                    }
                }
                return Err(e);
            },
        }
        proof {
            // this repository is now synchronized
            assert(s_c.repo_live(rid as int));
            assert(s_c.repositories@[rid as int] == s_b.repositories@[rid as int]);
            assert(repo_synced(s_c, inputs[j as int], rid as int));
            assert(synced(s_c, inputs[j as int]));
            // earlier repositories stay synchronized: their rows are other
            // rows, and the new rows belong to this repository
            assert forall|j2: int| 0 <= j2 < j + 1 implies synced(s_c, #[trigger] inputs[j2]) by {
                if j2 < j {
                    let r2 = choose|r2: int| #[trigger] repo_synced(s_a, inputs[j2], r2);
                    assert(inputs[j2].name@ != inputs[j as int].name@);
                    assert(s_a.repositories@[r2].name@ == inputs[j2].name@);
                    assert(r2 != rid as int);
                    assert(s_b.repositories@[r2] == s_a.repositories@[r2]);
                    lemma_repo_synced_repo_step(s_a, s_b, inputs[j2], r2);
                    lemma_repo_synced_sync_step(s_b, s_c, inputs[j2], r2, rid as int);
                    assert(synced(s_c, inputs[j2]));
                }
            }
            // repositories not yet visited still agree with their graphs
            assert forall|j2: int, rid2: int|
                #![trigger inputs[j2].graph, s_c.repositories@[rid2]]
                j + 1 <= j2 < inputs.len() && s_c.repo_live(rid2)
                    && s_c.repositories@[rid2].name@ == inputs[j2].name@
                    implies closed(s_c, inputs[j2].graph, rid2)
                        && rels_agree(s_c, inputs[j2].graph, rid2) by {
                assert(s_c.repositories@[rid2] == s_b.repositories@[rid2]);
                assert(inputs[j2].name@ != inputs[j as int].name@);
                assert(rid2 != rid as int);
                assert(s_b.repositories@[rid2] == s_a.repositories@[rid2]);
                assert(s_a.repo_live(rid2));
                assert(closed(s_a, inputs[j2].graph, rid2));
                assert(rels_agree(s_a, inputs[j2].graph, rid2));
                lemma_closed_same_tables(s_a, s_b, inputs[j2].graph, rid2);
                lemma_rels_agree_same_tables(s_a, s_b, inputs[j2].graph, rid2);
                lemma_closed_extend_other(s_b, s_c, inputs[j2].graph, rid2, rid as int);
                lemma_rels_agree_extend_other(s_b, s_c, inputs[j2].graph, rid2, rid as int);
            }
            // only visited repositories are unstale
            assert forall|i: int| #[trigger] s_c.repo_live(i) && !s_c.repositories@[i].stale
                implies exists|j2: int| 0 <= j2 < j + 1
                    && s_c.repositories@[i].name@ == (#[trigger] inputs[j2]).name@ by {
                if i == rid as int {
                    assert(s_c.repositories@[i].name@ == inputs[j as int].name@);
                } else {
                    assert(s_c.repositories@[i] == s_a.repositories@[i]);
                    assert(s_a.repo_live(i) && !s_a.repositories@[i].stale);
                    let j2 = choose|j2: int| 0 <= j2 < j
                        && s_a.repositories@[i].name@ == (#[trigger] inputs[j2]).name@;
                    assert(s_c.repositories@[i].name@ == inputs[j2].name@);
                }
            }
            // the idempotent pass: this repository was already synchronized,
            // so the walk finds everything and inserts nothing
            if pass_done(s0, inputs) {
                assert(synced(s0, inputs[j as int]));
                let r0 = choose|r0: int| #[trigger] repo_synced(s0, inputs[j as int], r0);
                assert(s0.repo_live(r0));
                assert(s_a.repositories@[r0].alive && s_a.repositories@[r0].name
                    == s0.repositories@[r0].name);
                assert(s_a.repo_live(r0) && s_a.repositories@[r0].name@ == inputs[j as int].name@);
                assert(s_a.live_named(inputs[j as int].name@));
                assert(rid as int == r0) by {
                    let t = s_a.live_ix(inputs[j as int].name@);
                    assert(s_a.repo_live(t) && s_a.repositories@[t].name@
                        == inputs[j as int].name@);
                    if t != r0 {
                        assert(s_a.repositories@[t].name@ != s_a.repositories@[r0].name@);
                        assert(false);
                    }
                }
                assert(s0.repositories@[r0].stale == false);
                assert(s_b.repositories@[r0].show == s0.repositories@[r0].show);
                assert(s_b.repositories@[r0].head == s0.repositories@[r0].head);
                assert(s_b.commits == s0.commits);
                assert forall|ti: int| 0 <= ti < inputs[j as int].tips@.len()
                    implies s_b.has_commit(rid as int,
                        inputs[j as int].graph.hash_of((#[trigger] inputs[j as int].tips@[ti]) as int)) by {
                    let t2 = inputs[j as int].tips@[ti] as int;
                    assert(inputs[j as int].graph.reaches(t2, t2));
                    assert(s0.has_commit(r0, inputs[j as int].graph.hash_of(t2)));
                    lemma_has_commit_same_tables(s0, s_b, r0, inputs[j as int].graph.hash_of(t2));
                }
                assert(*s == s_b);
                assert forall|i: int| 0 <= i < s0.nrepos() implies {
                    &&& (#[trigger] s.repositories@[i]).name == s0.repositories@[i].name
                    &&& s.repositories@[i].show == s0.repositories@[i].show
                    &&& s.repositories@[i].head == s0.repositories@[i].head
                    &&& s.repositories@[i].alive == s0.repositories@[i].alive
                    &&& (s.repositories@[i].stale == s0.repositories@[i].stale
                        || (s.repositories@[i].stale && s0.repositories@[i].alive))
                    &&& ((s0.repositories@[i].alive && exists|j2: int| 0 <= j2 < j + 1
                        && s0.repositories@[i].name@ == (#[trigger] inputs[j2]).name@)
                        ==> s.repositories@[i].stale == s0.repositories@[i].stale)
                } by {
                    if i != rid as int {
                        assert(s.repositories@[i] == s_a.repositories@[i]);
                        if s0.repositories@[i].alive && exists|j2: int| 0 <= j2 < j + 1
                            && s0.repositories@[i].name@ == (#[trigger] inputs[j2]).name@ {
                            let j2 = choose|j2: int| 0 <= j2 < j + 1
                                && s0.repositories@[i].name@ == (#[trigger] inputs[j2]).name@;
                            if j2 == j {
                                // this input's name belongs to row rid alone
                                assert(s_a.repo_live(i));
                                assert(s_a.repositories@[i].name@ == inputs[j as int].name@);
                                assert(i == rid as int);
                                assert(false);
                            } else {
                                assert(s0.repositories@[i].alive && exists|j3: int| 0 <= j3 < j
                                    && s0.repositories@[i].name@ == (#[trigger] inputs[j3]).name@);
                            }
                        }
                    } else {
                        assert(s.repositories@[i].stale == false);
                        assert(s0.repositories@[i].stale == false);
                    }
                }
            }
        }
        j = j + 1;
    }
    let ghost s_d = *s;
    cleanup(s);
    proof {
        assert forall|i: int| 0 <= i < s_d.nrepos()
            implies #[trigger] s.repositories@[i].name@ == s_d.repositories@[i].name@ by {}
        // every input repository stays synchronized through the sweep:
        // its row was touched, so it survives
        assert forall|j2: int| 0 <= j2 < inputs.len()
            implies synced(*s, #[trigger] inputs[j2]) by {
            let r2 = choose|r2: int| #[trigger] repo_synced(s_d, inputs[j2], r2);
            assert(s_d.repo_live(r2) && !s_d.repositories@[r2].stale);
            assert(s.repositories@[r2].alive);
            assert(s.repositories@[r2] == s_d.repositories@[r2]) by {
                assert(s.repositories@[r2].name == s_d.repositories@[r2].name);
                assert(s.repositories@[r2].show == s_d.repositories@[r2].show);
                assert(s.repositories@[r2].head == s_d.repositories@[r2].head);
                assert(s.repositories@[r2].stale == s_d.repositories@[r2].stale);
            }
            lemma_repo_synced_repo_step(s_d, *s, inputs[j2], r2);
        }
        // nothing else is live after the sweep
        assert forall|i: int| #[trigger] s.repo_live(i)
            implies !s.repositories@[i].stale && exists|j2: int| 0 <= j2 < inputs.len()
                && s.repositories@[i].name@ == (#[trigger] inputs[j2]).name@ by {
            assert(s_d.repo_live(i) && !s_d.repositories@[i].stale);
            let j2 = choose|j2: int| 0 <= j2 < inputs.len()
                && s_d.repositories@[i].name@ == (#[trigger] inputs[j2]).name@;
            assert(s.repositories@[i].name@ == inputs[j2].name@);
        }
        assert(pass_done(*s, inputs));
        // the idempotent pass sweeps nothing and restores every flag
        if pass_done(s0, inputs) {
            assert forall|i: int| 0 <= i < s0.nrepos()
                implies #[trigger] s.repositories@[i] == s0.repositories@[i] by {
                if s0.repositories@[i].alive {
                    assert(s0.repo_live(i));
                    assert(!s0.repositories@[i].stale);
                    let j2 = choose|j2: int| 0 <= j2 < inputs.len()
                        && s0.repositories@[i].name@ == (#[trigger] inputs[j2]).name@;
                    assert(s_d.repositories@[i].stale == s0.repositories@[i].stale);
                    assert(s.repositories@[i].alive == (s_d.repositories@[i].alive
                        && !s_d.repositories@[i].stale));
                } else {
                    assert(s_d.repositories@[i].stale == s0.repositories@[i].stale);
                }
            }
            assert(s.repositories@ =~= s0.repositories@);
        }
    }
    Ok(())
}


/// Exactly-one, the uniqueness half: two commit rows of one repository with
/// the same hash are the same row.
pub proof fn lemma_commit_row_unique(s: Store, rid: int, h: Seq<char>, i1: int, i2: int)
    requires
        s.wf(),
        0 <= i1 < s.ncommits(),
        0 <= i2 < s.ncommits(),
        s.commits@[i1].repo == rid,
        s.commits@[i2].repo == rid,
        s.commits@[i1].hash@ == h,
        s.commits@[i2].hash@ == h,
    ensures
        i1 == i2,
{
}

/// Edge completeness: once everything reachable from a tip is recorded in a
/// closed store, every direct parent→child pair reachable from that tip has
/// its relation row — the parent's commit row exists and a relation links it
/// to the child's row (exactly one, by [`Store::relations_unique`]).
pub proof fn lemma_edge_complete(s: Store, g: RepoGraph, rid: int, tip: int)
    requires
        s.wf(),
        g.wf(),
        closed(s, g, rid),
        forall|x: int| 0 <= x < g.n() && #[trigger] g.reaches(tip, x)
            ==> s.has_commit(rid, g.hash_of(x)),
    ensures
        forall|x: int, k: int|
            0 <= x < g.n() && #[trigger] g.reaches(tip, x) && 0 <= k < g.nparents(x)
                ==> edge_recorded(s, g, rid, s.commit_ix(rid, g.hash_of(x)),
                    #[trigger] g.parent(x, k)),
{
    assert forall|x: int, k: int|
        0 <= x < g.n() && #[trigger] g.reaches(tip, x) && 0 <= k < g.nparents(x)
            implies edge_recorded(s, g, rid, s.commit_ix(rid, g.hash_of(x)),
                #[trigger] g.parent(x, k)) by {
        assert(s.has_commit(rid, g.hash_of(x)));
        let i = s.commit_ix(rid, g.hash_of(x));
        assert(0 <= i < s.ncommits() && s.commits@[i].repo == rid
            && s.commits@[i].hash@ == g.hash_of(x));
        assert(row_is_node(s, g, i, x));
        assert(edge_recorded(s, g, rid, i, g.parent(x, k))
            || edge_pending(Seq::<Frame>::empty(), i, x, k));
    }
}

} // verus!
