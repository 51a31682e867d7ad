use vstd::prelude::*;

verus! {

/// The classification of one file inside one edge's diff.
#[derive(Clone, Copy, PartialEq, Eq, Structural, Debug)]
pub enum Status {
    Unmodified,
    Added,
    Deleted,
    Modified,
    Renamed,
    Copied,
    Ignored,
    Untracked,
    Typechange,
    Unreadable,
    Conflicted,
}

/// One file-level delta of a diff between two trees: the file's path and its
/// status classification.
pub struct Delta {
    pub path: String,
    pub status: Status,
}

impl View for Delta {
    type V = (Seq<char>, Status);

    open spec fn view(&self) -> (Seq<char>, Status) {
        (self.path@, self.status)
    }
}

/// A point in time as a commit records it: seconds since the Unix epoch and
/// the recorded zone offset in minutes.
#[derive(Clone, Copy, PartialEq, Eq, Structural, Debug)]
pub struct Timestamp {
    pub seconds: i64,
    pub offset_minutes: i32,
}

/// One commit as read from a repository. Parents are indices of earlier
/// nodes in the owning graph; `diffs[k]` is the file-level diff from the tree
/// of parent `parents[k]` to this commit's own tree.
pub struct CommitNode {
    pub hash: String,
    pub tree: String,
    pub parents: Vec<u64>,
    pub diffs: Vec<Vec<Delta>>,
    pub committer_name: String,
    pub committer_mail: String,
    pub author_name: String,
    pub author_mail: String,
    pub message: String,
    pub time: Timestamp,
    pub author_time: Timestamp,
}

/// A node standing at index `i` is well formed when its parents all point at
/// earlier nodes, no parent is listed twice, and it carries one diff per
/// parent.
pub open spec fn commit_node_wf(nd: CommitNode, i: int) -> bool {
    &&& nd.diffs@.len() == nd.parents@.len()
    &&& forall|k: int| 0 <= k < nd.parents@.len() ==> (#[trigger] nd.parents@[k] as int) < i
    &&& forall|k1: int, k2: int|
        0 <= k1 < nd.parents@.len() && 0 <= k2 < nd.parents@.len() && k1 != k2
            ==> nd.parents@[k1] != nd.parents@[k2]
}

/// Why a node was refused by [`RepoGraph::push_commit`].
#[derive(Clone, Copy, PartialEq, Eq, Structural, Debug)]
pub enum GraphError {
    /// A parent index does not name an earlier node.
    MissingParent,
    /// The same parent is listed twice.
    DuplicateParent,
    /// The number of diffs differs from the number of parents.
    DiffArity,
    /// Another node already carries this hash.
    DuplicateHash,
}

/// A snapshot of one repository's reachable commit graph, in an order where
/// every parent precedes its children. Nodes are identified by their index.
pub struct RepoGraph {
    pub nodes: Vec<CommitNode>,
}

impl RepoGraph {
    /// The number of nodes.
    pub open spec fn n(self) -> int {
        self.nodes@.len() as int
    }

    /// The hash of node `i`.
    pub open spec fn hash_of(self, i: int) -> Seq<char> {
        self.nodes@[i].hash@
    }

    /// The number of parents of node `i`.
    pub open spec fn nparents(self, i: int) -> int {
        self.nodes@[i].parents@.len() as int
    }

    /// Parent `k` of node `i`.
    pub open spec fn parent(self, i: int, k: int) -> int {
        self.nodes@[i].parents@[k] as int
    }

    /// The whole graph is well formed: every node is, and no two nodes share
    /// a hash.
    pub open spec fn wf(self) -> bool {
        &&& forall|i: int| 0 <= i < self.n() ==> commit_node_wf(#[trigger] self.nodes@[i], i)
        &&& forall|i: int, j: int|
            0 <= i < self.n() && 0 <= j < self.n() && i != j
                ==> #[trigger] self.hash_of(i) != #[trigger] self.hash_of(j)
    }

    /// Node `x` is reachable from node `a` by following parent edges
    /// (every node reaches itself).
    pub open spec fn reaches(self, a: int, x: int) -> bool
        decreases a,
    {
        ||| a == x
        ||| (0 <= a < self.n() && exists|k: int|
            0 <= k < self.nparents(a) && #[trigger] self.parent(a, k) < a
                && self.reaches(self.parent(a, k), x))
    }

    pub fn new() -> (g: RepoGraph)
        ensures
            g.wf(),
            g.n() == 0,
    {
        RepoGraph { nodes: Vec::new() }
    }

    pub fn node_count(&self) -> (r: usize)
        ensures
            r == self.n(),
    {
        self.nodes.len()
    }

    /// True when some node already carries hash `h`.
    #[verifier::loop_isolation(false)]
    pub fn has_hash(&self, h: &String) -> (r: bool)
        ensures
            r == exists|i: int| 0 <= i < self.n() && self.hash_of(i) == h@,
    {
        let mut i: usize = 0;
        while i < self.nodes.len()
            invariant
                i <= self.nodes@.len(),
                forall|j: int| 0 <= j < i ==> #[trigger] self.hash_of(j) != h@,
            decreases self.nodes@.len() - i,
        {
            if self.nodes[i].hash == *h {
                proof {
                    assert(self.hash_of(i as int) == h@);
                }
                return true;
            }
            i = i + 1;
        }
        false
    }

    /// Append one commit node. The node must name only earlier nodes as
    /// parents, name each at most once, carry one diff per parent, and carry
    /// a hash no other node has; a node that does not is refused, and the
    /// graph is left unchanged.
    #[verifier::loop_isolation(false)]
    pub fn push_commit(&mut self, node: CommitNode) -> (r: Result<u64, GraphError>)
        requires
            old(self).wf(),
            old(self).n() < u64::MAX,
        ensures
            final(self).wf(),
            match r {
                Ok(id) => {
                    &&& id == old(self).n()
                    &&& final(self).nodes@ == old(self).nodes@.push(node)
                },
                Err(e) => *final(self) == *old(self),
            },
            (r is Ok) <==> ({
                &&& commit_node_wf(node, old(self).n())
                &&& forall|i: int| 0 <= i < old(self).n()
                    ==> #[trigger] old(self).hash_of(i) != node.hash@
            }),
    {
        let n = self.nodes.len();
        let mut k: usize = 0;
        while k < node.parents.len()
            invariant
                k <= node.parents@.len(),
                forall|j: int| 0 <= j < k ==> (#[trigger] node.parents@[j] as int) < n,
            decreases node.parents@.len() - k,
        {
            if node.parents[k] >= n as u64 {
                return Err(GraphError::MissingParent);
            }
            k = k + 1;
        }
        let mut k1: usize = 0;
        while k1 < node.parents.len()
            invariant
                k1 <= node.parents@.len(),
                forall|a: int, b: int|
                    0 <= a < b < node.parents@.len() && a < k1 ==> node.parents@[a] != node.parents@[b],
            decreases node.parents@.len() - k1,
        {
            let mut k2: usize = k1 + 1;
            while k2 < node.parents.len()
                invariant
                    k1 < k2,
                    k2 <= node.parents@.len(),
                    forall|b: int| k1 < b < k2 ==> node.parents@[k1 as int] != node.parents@[b],
                decreases node.parents@.len() - k2,
            {
                if node.parents[k1] == node.parents[k2] {
                    return Err(GraphError::DuplicateParent);
                }
                k2 = k2 + 1;
            }
            k1 = k1 + 1;
        }
        proof {
            assert forall|a: int, b: int|
                0 <= a < node.parents@.len() && 0 <= b < node.parents@.len() && a != b
                    implies node.parents@[a] != node.parents@[b] by {
                if a < b {
                    assert(node.parents@[a] != node.parents@[b]);
                } else {
                    assert(node.parents@[b] != node.parents@[a]);
                }
            }
        }
        if node.diffs.len() != node.parents.len() {
            return Err(GraphError::DiffArity);
        }
        if self.has_hash(&node.hash) {
            return Err(GraphError::DuplicateHash);
        }
        let id = n as u64;
        self.nodes.push(node);
        proof {
            let m = old(self).n();
            assert(self.nodes@[m] == node);
            assert forall|i: int| 0 <= i < self.n() implies commit_node_wf(#[trigger] self.nodes@[i], i) by {
                if i < m {
                    assert(self.nodes@[i] == old(self).nodes@[i]);
                    assert(commit_node_wf(old(self).nodes@[i], i));
                }
            }
            assert forall|i: int, j: int|
                0 <= i < self.n() && 0 <= j < self.n() && i != j
                    implies #[trigger] self.hash_of(i) != #[trigger] self.hash_of(j) by {
                if i < m && j < m {
                    assert(old(self).hash_of(i) != old(self).hash_of(j));
                    assert(self.hash_of(i) == old(self).hash_of(i));
                    assert(self.hash_of(j) == old(self).hash_of(j));
                } else if i == m {
                    assert(self.hash_of(j) == old(self).hash_of(j));
                    assert(old(self).hash_of(j) != node.hash@);
                } else {
                    assert(self.hash_of(i) == old(self).hash_of(i));
                    assert(old(self).hash_of(i) != node.hash@);
                }
            }
        }
        Ok(id)
    }
}

} // verus!
