//! Provenance: which packets of its ancestors a packet of a domain stands for.
//!
//! Every replica numbers the packets that it sends. A provenance is a tree of such numbers: the
//! root is the replica itself with the label of its latest packet, and each edge leads to a
//! replica that sends to it, with the label of the latest packet received from there.

use vstd::prelude::*;
use crate::assoc::{
    assign, distinct, find, get, holds, lemma_find, lemma_find_same_keys, position, put,
};
use crate::ids::{same_addr, DomainGraph, ReplicaAddr};

verus! {

/// The tree of labels that a [`Provenance`] stands for.
#[verifier::ext_equal]
pub struct ProvTree {
    /// The replica that the tree belongs to.
    pub root: ReplicaAddr,
    /// The label of the latest packet of the root.
    pub label: usize,
    /// The provenance of each replica that sends to the root.
    pub edges: Seq<(ReplicaAddr, ProvTree)>,
}

impl ProvTree {
    /// A tree of one node.
    pub open spec fn leaf(root: ReplicaAddr, label: usize) -> ProvTree {
        ProvTree { root, label, edges: Seq::empty() }
    }

    /// The tree cut off below `depth` levels; the root always stays.
    pub open spec fn trimmed(self, depth: nat) -> ProvTree
        decreases depth,
    {
        ProvTree {
            edges: if depth <= 1 {
                Seq::empty()
            } else {
                self.edges.map_values(
                    |e: (ReplicaAddr, ProvTree)| (e.0, e.1.trimmed((depth - 1) as nat)),
                )
            },
            ..self
        }
    }

    /// The tree with every label set to zero.
    pub open spec fn zeroed(self) -> ProvTree
        decreases self,
    {
        ProvTree {
            root: self.root,
            label: 0,
            edges: Seq::new(
                self.edges.len(),
                |i: int|
                    if 0 <= i < self.edges.len() {
                        (self.edges[i].0, self.edges[i].1.zeroed())
                    } else {
                        self.edges[i]
                    },
            ),
        }
    }

    /// The tree after `update`. A label stands for all that came before it, so an update that
    /// is no newer than the tree changes nothing; a newer one brings its label to the root and
    /// is applied below each of its edges in turn.
    pub open spec fn applied(self, update: ProvTree) -> ProvTree
        decreases update, update.edges.len() + 1,
    {
        if self.label >= update.label {
            self
        } else {
            ProvTree {
                label: update.label,
                edges: Self::absorbed(self.edges, update, update.edges.len()),
                ..self
            }
        }
    }

    /// `edges` after the first `n` edges of `update`.
    pub open spec fn absorbed(
        edges: Seq<(ReplicaAddr, ProvTree)>,
        update: ProvTree,
        n: nat,
    ) -> Seq<(ReplicaAddr, ProvTree)>
        decreases update, n,
    {
        if n == 0 || n > update.edges.len() {
            edges
        } else {
            let before = Self::absorbed(edges, update, (n - 1) as nat);
            let (addr, p) = update.edges[n - 1];
            put(
                before,
                addr,
                if holds(before, addr) {
                    get(before, addr).applied(p)
                } else {
                    p
                },
            )
        }
    }

    /// The tree has no more than `depth` levels.
    pub open spec fn within(self, depth: nat) -> bool
        decreases depth,
    {
        depth > 0 && forall|i: int|
            0 <= i < self.edges.len() ==> (#[trigger] self.edges[i]).1.within((depth - 1) as nat)
    }

    /// Every label in the tree is zero.
    pub open spec fn all_zero(self) -> bool
        decreases self,
    {
        self.label == 0 && forall|i: int|
            0 <= i < self.edges.len() ==> (#[trigger] self.edges[i]).1.all_zero()
    }

    /// No node of the tree has two edges to the same replica, and every edge leads to the tree
    /// of the replica that it names.
    pub open spec fn wf(self) -> bool
        decreases self,
    {
        distinct(self.edges) && forall|i: int|
            0 <= i < self.edges.len() ==> (#[trigger] self.edges[i]).1.wf() && self.edges[i].1.root
                == self.edges[i].0
    }
}

/// The edges that the graph gives to the provenance of node `ni`, for a tree of `depth` levels.
pub open spec fn ancestry(
    nodes: Seq<ReplicaAddr>,
    edges: Seq<(usize, usize)>,
    ni: usize,
    depth: nat,
) -> Seq<(ReplicaAddr, ProvTree)>
    decreases depth, edges.len() + 1,
{
    if depth <= 1 {
        Seq::empty()
    } else {
        ancestry_upto(nodes, edges, ni, depth, edges.len())
    }
}

/// What the first `n` edges of the graph contribute to [`ancestry`]: each one that leads into
/// `ni` gives an edge to the sending replica, with all labels zero.
pub open spec fn ancestry_upto(
    nodes: Seq<ReplicaAddr>,
    edges: Seq<(usize, usize)>,
    ni: usize,
    depth: nat,
    n: nat,
) -> Seq<(ReplicaAddr, ProvTree)>
    decreases depth, n,
{
    if n == 0 || n > edges.len() || depth == 0 {
        Seq::empty()
    } else {
        let before = ancestry_upto(nodes, edges, ni, depth, (n - 1) as nat);
        let (from, to) = edges[n - 1];
        if to == ni {
            let addr = nodes[from as int];
            put(
                before,
                addr,
                ProvTree {
                    root: addr,
                    label: 0,
                    edges: ancestry(nodes, edges, from, (depth - 1) as nat),
                },
            )
        } else {
            before
        }
    }
}

/// The edges to the roots of `trees`; of two trees with one root the later counts.
pub open spec fn gathered(trees: Seq<ProvTree>) -> Seq<(ReplicaAddr, ProvTree)>
    decreases trees.len(),
{
    if trees.len() == 0 {
        Seq::empty()
    } else {
        put(gathered(trees.drop_last()), trees.last().root, trees.last())
    }
}

/// The edges of a provenance as edges of its tree.
pub open spec fn edge_trees(s: Seq<(ReplicaAddr, Provenance)>) -> Seq<(ReplicaAddr, ProvTree)> {
    s.map_values(|e: (ReplicaAddr, Provenance)| (e.0, e.1.tree()))
}

/// The labels that correspond to the production of a packet.
#[derive(Debug)]
pub struct Provenance {
    root: ReplicaAddr,
    label: usize,
    edges: Vec<(ReplicaAddr, Provenance)>,
}

/// What a packet says about its provenance: the part of the tree that the packet changed.
pub type ProvenanceUpdate = Provenance;

impl View for Provenance {
    type V = ProvTree;

    open spec fn view(&self) -> ProvTree {
        self.tree()
    }
}

impl Provenance {
    /// The tree of labels.
    pub closed spec fn tree(self) -> ProvTree
        decreases self,
    {
        ProvTree {
            root: self.root,
            label: self.label,
            edges: Seq::new(
                self.edges@.len(),
                |i: int|
                    if 0 <= i < self.edges@.len() {
                        (self.edges@[i].0, self.edges@[i].1.tree())
                    } else {
                        arbitrary()
                    },
            ),
        }
    }

    proof fn lemma_tree(self)
        ensures
            self@ == (ProvTree {
                root: self.root,
                label: self.label,
                edges: edge_trees(self.edges@),
            }),
    {
        assert(self.tree().edges =~= edge_trees(self.edges@));
    }
}

/// Setting an entry of a list of edges sets it in the tree.
pub proof fn lemma_edge_trees_put(
    s: Seq<(ReplicaAddr, Provenance)>,
    addr: ReplicaAddr,
    p: Provenance,
)
    ensures
        edge_trees(put(s, addr, p)) == put(edge_trees(s), addr, p@),
        holds(edge_trees(s), addr) == holds(s, addr),
        find(edge_trees(s), addr) == find(s, addr),
{
    lemma_find_same_keys(s, edge_trees(s), addr);
    lemma_find(s, addr);
    assert(edge_trees(put(s, addr, p)) =~= put(edge_trees(s), addr, p@));
}

impl Provenance {
    /// The provenance of a packet that stands for no other.
    pub fn new(root: ReplicaAddr, label: usize) -> (res: Self)
        ensures
            res@ == ProvTree::leaf(root, label),
    {
        let res = Provenance { root, label, edges: Vec::new() };
        proof {
            res.lemma_tree();
            assert(res@.edges =~= Seq::empty());
        }
        res
    }

    /// The replica that this provenance belongs to.
    pub fn root(&self) -> (res: ReplicaAddr)
        ensures
            res == self@.root,
    {
        self.root
    }

    /// The label of the latest packet of the root.
    pub fn label(&self) -> (res: usize)
        ensures
            res == self@.label,
    {
        self.label
    }

    /// The provenance of each replica that sends to the root.
    pub fn edges(&self) -> (res: &Vec<(ReplicaAddr, Provenance)>)
        ensures
            edge_trees(res@) == self@.edges,
    {
        proof {
            self.lemma_tree();
        }
        &self.edges
    }

    /// Sets the label of the root.
    pub fn set_label(&mut self, label: usize)
        ensures
            final(self)@ == (ProvTree { label, ..old(self)@ }),
    {
        proof {
            self.lemma_tree();
        }
        self.label = label;
        proof {
            self.lemma_tree();
        }
    }

    /// Sets the shard of the root.
    pub fn set_shard(&mut self, shard: usize)
        ensures
            final(self)@ == (ProvTree { root: (old(self)@.root.0, shard), ..old(self)@ }),
    {
        proof {
            self.lemma_tree();
        }
        self.root = (self.root.0, shard);
        proof {
            self.lemma_tree();
        }
    }

    /// Cuts the tree off below `depth` levels; the root always stays.
    pub fn trim(&mut self, depth: usize)
        ensures
            final(self)@ == old(self)@.trimmed(depth as nat),
        decreases depth,
    {
        proof {
            self.lemma_tree();
        }
        if depth <= 1 {
            self.edges = Vec::new();
            proof {
                self.lemma_tree();
                assert(self@.edges =~= Seq::empty());
            }
            return ;
        }
        let mut i: usize = 0;
        while i < self.edges.len()
            invariant
                i <= self.edges@.len(),
                depth > 1,
                self.root == old(self).root,
                self.label == old(self).label,
                self.edges@.len() == old(self).edges@.len(),
                forall|j: int|
                    i <= j < self.edges@.len() ==> #[trigger] self.edges@[j] == old(self).edges@[j],
                forall|j: int|
                    0 <= j < i ==> (#[trigger] self.edges@[j]).0 == old(self).edges@[j].0
                        && self.edges@[j].1@ == old(self).edges@[j].1@.trimmed((depth - 1) as nat),
            decreases self.edges@.len() - i,
        {
            self.edges[i].1.trim(depth - 1);
            i += 1;
        }
        proof {
            self.lemma_tree();
            assert(self@.edges =~= old(self)@.trimmed(depth as nat).edges);
        }
    }

    /// Sets every label in the tree to zero.
    pub fn zero(&mut self)
        ensures
            final(self)@ == old(self)@.zeroed(),
        decreases *old(self),
    {
        proof {
            self.lemma_tree();
        }
        self.label = 0;
        let mut i: usize = 0;
        while i < self.edges.len()
            invariant
                i <= self.edges@.len(),
                self.root == old(self).root,
                self.label == 0,
                self.edges@.len() == old(self).edges@.len(),
                forall|j: int|
                    i <= j < self.edges@.len() ==> #[trigger] self.edges@[j] == old(self).edges@[j],
                forall|j: int|
                    0 <= j < i ==> (#[trigger] self.edges@[j]).0 == old(self).edges@[j].0
                        && self.edges@[j].1@ == old(self).edges@[j].1@.zeroed(),
            decreases self.edges@.len() - i,
        {
            proof {
                assert(self.edges@[i as int] == old(self).edges@[i as int]);
                assert(decreases_to!(*old(self) => old(self).edges@[i as int].1));
            }
            self.edges[i].1.zero();
            i += 1;
        }
        proof {
            self.lemma_tree();
            assert(self@.edges =~= old(self)@.zeroed().edges);
        }
    }

    /// Applies `update`: an update with a newer label brings that label, and is applied below
    /// each of its edges in turn; any other changes nothing.
    pub fn apply_update(&mut self, update: &ProvenanceUpdate)
        ensures
            final(self)@ == old(self)@.applied(update@),
        decreases update,
    {
        proof {
            self.lemma_tree();
            update.lemma_tree();
        }
        if self.label >= update.label {
            return ;
        }
        self.label = update.label;
        let ghost before = edge_trees(self.edges@);
        let mut i: usize = 0;
        while i < update.edges.len()
            invariant
                i <= update.edges@.len(),
                self.root == old(self).root,
                self.label == update.label,
                update@.edges == edge_trees(update.edges@),
                edge_trees(self.edges@) == ProvTree::absorbed(before, update@, i as nat),
            decreases update.edges@.len() - i,
        {
            let addr = update.edges[i].0;
            let k: usize = position(&self.edges, addr);
            let ghost now = self.edges@;
            proof {
                lemma_edge_trees_put(now, addr, update.edges@[i as int].1);
                assert(decreases_to!(update => update.edges@[i as int].1));
            }
            if k < self.edges.len() {
                self.edges[k].1.apply_update(&update.edges[i].1);
                proof {
                    lemma_find(now, addr);
                    let p = self.edges@[k as int].1;
                    lemma_edge_trees_put(now, addr, p);
                    assert(self.edges@ =~= put(now, addr, p));
                }
            } else {
                let p = update.edges[i].1.clone();
                proof {
                    lemma_edge_trees_put(now, addr, p);
                }
                self.edges.push((addr, p));
            }
            i += 1;
        }
        proof {
            self.lemma_tree();
        }
    }

    /// The provenance of a packet that stands for the packets of `children`.
    pub fn new_with(root: ReplicaAddr, label: usize, children: &[Provenance]) -> (res: Self)
        ensures
            res@ == (ProvTree {
                root,
                label,
                edges: gathered(children@.map_values(|p: Provenance| p@)),
            }),
    {
        let mut edges: Vec<(ReplicaAddr, Provenance)> = Vec::new();
        let ghost trees = children@.map_values(|p: Provenance| p@);
        let mut i: usize = 0;
        proof {
            assert(trees.take(0) =~= Seq::empty());
            assert(edge_trees(edges@) =~= Seq::empty());
        }
        while i < children.len()
            invariant
                i <= children@.len(),
                trees == children@.map_values(|p: Provenance| p@),
                edge_trees(edges@) == gathered(trees.take(i as int)),
            decreases children@.len() - i,
        {
            let p = children[i].clone();
            let addr = p.root();
            proof {
                lemma_edge_trees_put(edges@, addr, p);
                assert(trees.take(i + 1).drop_last() =~= trees.take(i as int));
            }
            assign(&mut edges, addr, p);
            i += 1;
        }
        let res = Provenance { root, label, edges };
        proof {
            res.lemma_tree();
            assert(trees.take(i as int) =~= trees);
        }
        res
    }

    /// Takes the root and the edges from the graph, for a tree of `depth` levels. The label of
    /// the root stays; all others start at zero.
    pub fn init(&mut self, graph: &DomainGraph, root: ReplicaAddr, ni: usize, depth: usize)
        requires
            graph.wf(),
            ni < graph.nodes@.len(),
        ensures
            final(self)@ == (ProvTree {
                root,
                label: old(self)@.label,
                edges: ancestry(graph.nodes@, graph.edges@, ni, depth as nat),
            }),
        decreases depth,
    {
        proof {
            self.lemma_tree();
        }
        self.root = root;
        self.edges = Vec::new();
        proof {
            assert(edge_trees(self.edges@) =~= Seq::empty());
            self.lemma_tree();
        }
        if depth <= 1 {
            return ;
        }
        let mut i: usize = 0;
        while i < graph.edges.len()
            invariant
                i <= graph.edges@.len(),
                graph.wf(),
                depth > 1,
                self.root == root,
                self.label == old(self).label,
                edge_trees(self.edges@) == ancestry_upto(
                    graph.nodes@,
                    graph.edges@,
                    ni,
                    depth as nat,
                    i as nat,
                ),
            decreases graph.edges@.len() - i,
        {
            let (from, to) = graph.edges[i];
            if to == ni {
                assert(graph.edges@[i as int].0 < graph.nodes@.len());
                let addr = graph.nodes[from];
                let mut p = Provenance::new(addr, 0);
                p.init(graph, addr, from, depth - 1);
                proof {
                    lemma_edge_trees_put(self.edges@, addr, p);
                }
                assign(&mut self.edges, addr, p);
            }
            i += 1;
        }
        proof {
            self.lemma_tree();
        }
    }

    /// Whether the tree changes when `new_addr` takes the place of `old_addr` among the senders.
    pub fn new_incoming(&self, old_addr: ReplicaAddr, new_addr: ReplicaAddr) -> (res: bool)
        ensures
            res == (old_addr != new_addr && holds(self@.edges, old_addr)),
    {
        let k: usize = position(&self.edges, old_addr);
        proof {
            self.lemma_tree();
            lemma_edge_trees_put(self.edges@, old_addr, *self);
        }
        !same_addr(old_addr, new_addr) && k < self.edges.len()
    }
}

impl Clone for Provenance {
    fn clone(&self) -> (res: Self)
        ensures
            res@ == self@,
        decreases self,
    {
        let mut edges: Vec<(ReplicaAddr, Provenance)> = Vec::new();
        let mut i: usize = 0;
        while i < self.edges.len()
            invariant
                i <= self.edges@.len(),
                edges@.len() == i,
                forall|j: int|
                    0 <= j < i ==> (#[trigger] edges@[j]).0 == self.edges@[j].0 && edges@[j].1@
                        == self.edges@[j].1@,
            decreases self.edges@.len() - i,
        {
            proof {
                assert(decreases_to!(self => self.edges@[i as int].1));
            }
            edges.push((self.edges[i].0, self.edges[i].1.clone()));
            i += 1;
        }
        let res = Provenance { root: self.root, label: self.label, edges };
        proof {
            self.lemma_tree();
            res.lemma_tree();
            assert(res@.edges =~= self@.edges);
        }
        res
    }
}

impl Default for Provenance {
    /// The provenance of a replica that has sent nothing and of which nothing is known.
    fn default() -> (res: Self)
        ensures
            res@ == ProvTree::leaf((0, 0), 0),
    {
        Provenance::new((0, 0), 0)
    }
}

} // verus!
