//! Names for domains, replicas and nodes, and the graph that connects replicas.

use vstd::prelude::*;

verus! {

/// The index of a domain.
pub type DomainIndex = usize;

/// A replica of a domain: the domain's index and the shard.
pub type ReplicaAddr = (DomainIndex, usize);

/// The index of a node inside its domain.
pub type LocalNodeIndex = u32;

/// The identifier of a replay path.
pub type Tag = u32;

/// The two ends of the edge that a packet travels along.
#[derive(Clone, Copy, Debug, PartialEq, Eq, Structural)]
pub struct Link {
    pub src: LocalNodeIndex,
    pub dst: LocalNodeIndex,
}

/// The replicas of a deployment and the edges along which they send packets.
#[derive(Debug)]
pub struct DomainGraph {
    /// The replica that stands at each node.
    pub nodes: Vec<ReplicaAddr>,
    /// The edges, each from a sending node to a receiving one.
    pub edges: Vec<(usize, usize)>,
}

impl DomainGraph {
    /// Every edge joins two nodes of the graph.
    pub open spec fn wf(&self) -> bool {
        forall|i: int|
            0 <= i < self.edges@.len() ==> (#[trigger] self.edges@[i]).0 < self.nodes@.len()
                && self.edges@[i].1 < self.nodes@.len()
    }

    /// Some node stands for `addr`.
    pub open spec fn contains(&self, addr: ReplicaAddr) -> bool {
        self.nodes@.contains(addr)
    }

    /// The first node that stands for `addr`.
    pub open spec fn node_of(&self, addr: ReplicaAddr) -> usize
        recommends
            self.contains(addr),
    {
        choose|i: usize|
            i < self.nodes@.len() && self.nodes@[i as int] == addr && forall|j: int|
                0 <= j < i ==> self.nodes@[j] != addr
    }

    /// The first node that stands for `addr`.
    pub fn find(&self, addr: ReplicaAddr) -> (res: usize)
        requires
            self.contains(addr),
        ensures
            res == self.node_of(addr),
            res < self.nodes@.len(),
            self.nodes@[res as int] == addr,
            forall|j: int| 0 <= j < res ==> self.nodes@[j] != addr,
    {
        let n: usize = self.nodes.len();
        let mut i: usize = 0;
        while !same_addr(self.nodes[i], addr)
            invariant
                self.contains(addr),
                n == self.nodes@.len(),
                i < self.nodes@.len(),
                forall|j: int| 0 <= j < i ==> self.nodes@[j] != addr,
            decreases self.nodes@.len() - i,
        {
            proof {
                let k = choose|k: int| 0 <= k < self.nodes@.len() && self.nodes@[k] == addr;
                assert(k > i);
            }
            i += 1;
        }
        i
    }
}

/// Whether two replicas are the same.
pub fn same_addr(a: ReplicaAddr, b: ReplicaAddr) -> (res: bool)
    ensures
        res == (a == b),
{
    a.0 == b.0 && a.1 == b.1
}

} // verus!
