//! What each operation makes of the state and of the packet, said of their own fields.

use vstd::prelude::*;
use crate::ids::{DomainGraph, DomainIndex, LocalNodeIndex, ReplicaAddr};
use crate::laws::delivery::fits;
use crate::laws::sending::{least_label_is_least, relabelled_replica};
use crate::model::{
    first_loss, lemma_first_loss, least_label, relabelled, QueueModel, Routes, SharderModel,
};
use crate::packet::PacketModel;
use crate::provenance::ProvTree;

verus! {

/// A node without edges.
pub open spec fn bare(root: ReplicaAddr, label: usize) -> ProvTree {
    ProvTree { root, label, edges: Seq::empty() }
}

/// A tree of two levels: the root of `t`, and the replicas that its edges lead to.
pub open spec fn two_levels(t: ProvTree) -> ProvTree {
    ProvTree {
        root: t.root,
        label: t.label,
        edges: Seq::new(
            t.edges.len(),
            |i: int| (t.edges[i].0, bare(t.edges[i].1.root, t.edges[i].1.label)),
        ),
    }
}

/// The provenance that domain `from` gives to a packet that came with provenance `id`.
pub open spec fn below(from: DomainIndex, label: usize, id: Option<ProvTree>) -> ProvTree {
    ProvTree {
        root: (from, 0),
        label,
        edges: match id {
            Some(p) => seq![(p.root, p)],
            None => Seq::empty(),
        },
    }
}

proof fn lemma_two_levels(t: ProvTree)
    ensures
        t.trimmed(2) == two_levels(t),
{
    assert forall|i: int| 0 <= i < t.edges.len() implies (#[trigger] t.edges[i]).1.trimmed(1)
        == bare(t.edges[i].1.root, t.edges[i].1.label) by {
        assert(t.edges[i].1.trimmed(1).edges =~= Seq::empty());
    }
    assert(t.trimmed(2).edges =~= two_levels(t).edges);
}

/// A message is sent with the label behind the last one, counted from that of the base
/// provenance by the messages kept. It keeps its edge and its records. What is sent names the
/// parent that it came from, with its label there; what is kept as the update names the whole
/// provenance that it came with. The message is kept as it is sent. Nothing else changes but
/// the latest provenance, to which the update is applied.
pub proof fn message_is_prepared(s: SharderModel, m: PacketModel, from: DomainIndex)
    requires
        m is Message,
        s.min_provenance.label + s.payloads.len() + 1 <= usize::MAX,
    ensures
        m matches PacketModel::Message { id, link, data } ==> {
            let label = (s.min_provenance.label + s.payloads.len() + 1) as usize;
            let update = below(from, label, id);
            let out = PacketModel::Message {
                id: Some(
                    ProvTree {
                        root: (from, 0),
                        label,
                        edges: match id {
                            Some(p) => seq![(p.root, bare(p.root, p.label))],
                            None => Seq::empty(),
                        },
                    },
                ),
                link,
                data,
            };
            &&& s.stamped(m, from) == out
            &&& s.prepared(m, from) == (SharderModel {
                max_provenance: s.max_provenance.applied(update),
                updates: s.updates.push(update),
                payloads: s.payloads.push(out),
                ..s
            })
        },
{
    let update = s.update_for(m, from);
    lemma_two_levels(update);
    if let PacketModel::Message { id, link, data } = m {
        assert(update == below(
            from,
            (s.min_provenance.label + s.payloads.len() + 1) as usize,
            id,
        ));
        match id {
            Some(p) => {
                assert(two_levels(update).edges =~= seq![(p.root, bare(p.root, p.label))]);
            },
            None => {
                assert(two_levels(update).edges =~= Seq::empty());
            },
        }
    }
}

/// A packet that is no message gets the label of the last message. It keeps all but its
/// provenance, which becomes the latest one of the domain, down to the parents. It is not kept,
/// and neither is its update; that is applied to the latest provenance, and nothing else
/// changes.
pub proof fn replay_is_prepared(s: SharderModel, m: PacketModel, from: DomainIndex)
    requires
        !(m is Message),
        s.min_provenance.label + s.payloads.len() <= usize::MAX,
    ensures
        ({
            let label = (s.min_provenance.label + s.payloads.len()) as usize;
            let latest = |id: Option<ProvTree>| s.max_provenance.applied(below(from, label, id));
            match m {
                PacketModel::Message { id, link, data } => true,
                PacketModel::ReplayPiece { id, link, tag, data, context } => {
                    &&& s.stamped(m, from) == (PacketModel::ReplayPiece {
                        id: Some(two_levels(latest(id))),
                        link,
                        tag,
                        data,
                        context,
                    })
                    &&& s.prepared(m, from) == (SharderModel { max_provenance: latest(id), ..s })
                },
                PacketModel::EvictKeys { id, link, tag, keys } => {
                    &&& s.stamped(m, from) == (PacketModel::EvictKeys {
                        id: Some(two_levels(latest(id))),
                        link,
                        tag,
                        keys,
                    })
                    &&& s.prepared(m, from) == (SharderModel { max_provenance: latest(id), ..s })
                },
            }
        }),
{
    let update = s.update_for(m, from);
    let label = (s.min_provenance.label + s.payloads.len()) as usize;
    lemma_two_levels(s.max_provenance.applied(update));
    match m {
        PacketModel::Message { id, link, data } => {},
        PacketModel::ReplayPiece { id, link, tag, data, context } => {
            assert(update == below(from, label, id));
        },
        PacketModel::EvictKeys { id, link, tag, keys } => {
            assert(update == below(from, label, id));
        },
    }
}

/// The provenance of a packet.
pub open spec fn provenance_of(m: PacketModel) -> Option<ProvTree> {
    match m {
        PacketModel::Message { id, link, data } => id,
        PacketModel::ReplayPiece { id, link, tag, data, context } => id,
        PacketModel::EvictKeys { id, link, tag, keys } => id,
    }
}

/// When a packet can be prepared: its label is a machine word, and it has a provenance if there
/// are targets.
pub proof fn prepare_admits(s: SharderModel, m: PacketModel)
    ensures
        s.can_prepare(m) <==> {
            &&& s.min_provenance.label + s.payloads.len() + (if m is Message {
                1int
            } else {
                0
            }) <= usize::MAX
            &&& s.targets.len() == 0 || provenance_of(m) is Some
        },
{
}

/// Without targets, to send a packet is to prepare it and to process what comes out, with the
/// latest label. It is possible if the packet can be prepared and carries records that can be
/// sharded.
pub proof fn sent_as_it_comes(
    s: SharderModel,
    q: QueueModel,
    m: PacketModel,
    from: DomainIndex,
    index: LocalNodeIndex,
    is_sharded: bool,
)
    requires
        s.targets.len() == 0,
    ensures
        ({
            let t = s.prepared(m, from);
            let out = s.stamped(m, from);
            let n = s.routes.txs.len();
            &&& s.sent_packet(m, from) == (SharderModel {
                last_provenance: s.routes.noted(
                    out,
                    t.max_provenance.label,
                    s.last_provenance,
                    n,
                ),
                ..t
            })
            &&& s.sent_queues(q, m, from, index) == s.routes.routed(
                out,
                t.max_provenance.label,
                index,
                q,
                n,
            )
        }),
        s.can_send(m, from, is_sharded) <==> !is_sharded && match m {
            PacketModel::Message { id, link, data } => s.min_provenance.label + s.payloads.len() + 1
                <= usize::MAX && fits(s.routes, data),
            PacketModel::ReplayPiece { id, link, tag, data, context } => s.min_provenance.label
                + s.payloads.len() <= usize::MAX && fits(s.routes, data),
            PacketModel::EvictKeys { id, link, tag, keys } => false,
        },
{
    let data = m.data();
    assert(!(m is EvictKeys) ==> s.routes.shardable(m) == fits(s.routes, data));
}

/// New children are those that were named, in order, all at one node. Each is to be sent all
/// messages from the first one on, and has the provenance of one that was sent nothing: that of
/// the base, down to the parents, with all labels zero. What was there for other replicas stays,
/// and nothing else changes.
pub proof fn children_are_added(
    s: SharderModel,
    dst: LocalNodeIndex,
    txs: Seq<ReplicaAddr>,
    addr: ReplicaAddr,
)
    ensures
        ({
            let t = s.with_children(dst, txs);
            let zero = two_levels(s.min_provenance);
            let nothing = ProvTree {
                root: zero.root,
                label: 0,
                edges: Seq::new(
                    zero.edges.len(),
                    |i: int| (zero.edges[i].0, bare(zero.edges[i].1.root, 0)),
                ),
            };
            &&& t.routes.txs.len() == txs.len()
            &&& forall|i: int| 0 <= i < txs.len() ==> #[trigger] t.routes.txs[i] == (dst, txs[i])
            &&& if exists|i: int| 0 <= i < txs.len() && #[trigger] txs[i] == addr {
                &&& t.routes.min_label_to_send.contains_key(addr)
                &&& t.routes.min_label_to_send[addr] == 1
                &&& t.last_provenance.contains_key(addr)
                &&& t.last_provenance[addr] == nothing
            } else {
                &&& t.routes.min_label_to_send.contains_key(addr)
                    == s.routes.min_label_to_send.contains_key(addr)
                &&& s.routes.min_label_to_send.contains_key(addr)
                    ==> t.routes.min_label_to_send[addr] == s.routes.min_label_to_send[addr]
                &&& t.last_provenance.contains_key(addr) == s.last_provenance.contains_key(addr)
                &&& s.last_provenance.contains_key(addr) ==> t.last_provenance[addr]
                    == s.last_provenance[addr]
            }
            &&& t == (SharderModel {
                routes: Routes {
                    txs: t.routes.txs,
                    shard_by: s.routes.shard_by,
                    min_label_to_send: t.routes.min_label_to_send,
                },
                last_provenance: t.last_provenance,
                ..s
            })
        }),
{
    let t = s.with_children(dst, txs);
    let zero = two_levels(s.min_provenance);
    lemma_two_levels(s.min_provenance);
    let nothing = ProvTree {
        root: zero.root,
        label: 0,
        edges: Seq::new(
            zero.edges.len(),
            |i: int| (zero.edges[i].0, bare(zero.edges[i].1.root, 0)),
        ),
    };
    assert forall|i: int| 0 <= i < zero.edges.len() implies (#[trigger] zero.edges[i]).1.zeroed()
        == bare(zero.edges[i].1.root, 0) by {
        assert(zero.edges[i].1.zeroed().edges =~= Seq::empty());
    }
    assert(s.initial_provenance() == zero.zeroed());
    assert(zero.zeroed().edges =~= nothing.edges);
    if exists|i: int| 0 <= i < txs.len() && #[trigger] txs[i] == addr {
        let i = choose|i: int| 0 <= i < txs.len() && #[trigger] txs[i] == addr;
        assert(txs.contains(txs[i]));
    } else {
        assert(!txs.contains(addr));
    }
}

/// The label of the next message is the one behind those of the messages kept.
pub proof fn next_label_counts(s: SharderModel)
    ensures
        s.next_label() == s.min_provenance.label + s.payloads.len() + 1,
{
}

/// A label shows a loss if it is beyond the next one, or if it is the next one and that is the
/// first of all. The position found is that of the first such label, or the end of the list.
pub proof fn loss_is_found(labels: Seq<(ReplicaAddr, usize)>, next_label: int)
    ensures
        ({
            let k = first_loss(labels, next_label);
            &&& 0 <= k <= labels.len()
            &&& k < labels.len() ==> labels[k].1 > next_label || (labels[k].1 == next_label
                && next_label == 1)
            &&& forall|j: int|
                0 <= j < k ==> (#[trigger] labels[j]).1 <= next_label && !(labels[j].1 == next_label
                    && next_label == 1)
        }),
    decreases labels.len(),
{
    if labels.len() > 0 {
        let rest = labels.drop_first();
        loss_is_found(rest, next_label);
        let k = first_loss(labels, next_label);
        assert forall|j: int| 0 <= j < k implies (#[trigger] labels[j]).1 <= next_label && !(
        labels[j].1 == next_label && next_label == 1) by {
            if j > 0 {
                assert(rest[j - 1] == labels[j]);
            }
        }
        if k > 0 && k < labels.len() {
            assert(rest[k - 1] == labels[k]);
        }
    }
}

/// Label `k` is the first one that shows a loss: beyond the next label, or the next one and the
/// first of all.
pub open spec fn first_shows_loss(
    labels: Seq<(ReplicaAddr, usize)>,
    next_label: int,
    k: int,
) -> bool {
    &&& 0 <= k < labels.len()
    &&& labels[k].1 > next_label || (labels[k].1 == next_label && next_label == 1)
    &&& forall|j: int|
        0 <= j < k ==> (#[trigger] labels[j]).1 <= next_label && !(labels[j].1 == next_label
            && next_label == 1)
}

/// The targets to reach after sending was resumed are those that were passed in, whatever the
/// labels; what waits, what was sent and where packets go stay as they are.
pub proof fn resumed_with_targets(
    s: SharderModel,
    labels: Seq<(ReplicaAddr, usize)>,
    targets: Seq<ProvTree>,
)
    ensures
        ({
            let t = s.resumed(labels, targets);
            &&& t.targets == targets
            &&& t.parent_buffer == s.parent_buffer
            &&& t.updates == s.updates
            &&& t.payloads == s.payloads
            &&& t.last_provenance == s.last_provenance
            &&& t.routes.txs == s.routes.txs
            &&& t.routes.shard_by == s.routes.shard_by
        }),
{
}

/// After sending was resumed, each replica that was named is sent messages from its label on,
/// the last one if it was named twice, and for the others nothing changes.
pub proof fn resumed_at_labels(
    s: SharderModel,
    labels: Seq<(ReplicaAddr, usize)>,
    targets: Seq<ProvTree>,
)
    ensures
        ({
            let before = s.routes.min_label_to_send;
            let after = s.resumed(labels, targets).routes.min_label_to_send;
            &&& forall|k: int|
                0 <= k < labels.len() && (forall|j: int|
                    k < j < labels.len() ==> (#[trigger] labels[j]).0 != labels[k].0)
                    ==> after.contains_key((#[trigger] labels[k]).0) && after[labels[k].0]
                    == labels[k].1
            &&& forall|addr: ReplicaAddr|
                (forall|k: int| 0 <= k < labels.len() ==> (#[trigger] labels[k]).0 != addr) ==> (
                #[trigger] after.contains_key(addr) == before.contains_key(addr)) && (
                before.contains_key(addr) ==> after[addr] == before[addr])
        }),
{
    let before = s.routes.min_label_to_send;
    assert forall|k: int|
        0 <= k < labels.len() && (forall|j: int|
            k < j < labels.len() ==> (#[trigger] labels[j]).0
                != labels[k].0) implies relabelled(before, labels).contains_key(
        (#[trigger] labels[k]).0,
    ) && relabelled(before, labels)[labels[k].0] == labels[k].1 by {
        relabelled_replica(before, labels, k);
    }
    relabelled_others(before, labels);
}

proof fn relabelled_others(
    before: Map<ReplicaAddr, usize>,
    labels: Seq<(ReplicaAddr, usize)>,
)
    ensures
        forall|addr: ReplicaAddr|
            (forall|k: int| 0 <= k < labels.len() ==> (#[trigger] labels[k]).0 != addr) ==> (
            #[trigger] relabelled(before, labels).contains_key(addr) == before.contains_key(addr))
                && (before.contains_key(addr) ==> relabelled(before, labels)[addr]
                == before[addr]),
    decreases labels.len(),
{
    if labels.len() > 0 {
        let init = labels.drop_last();
        relabelled_others(before, init);
        assert forall|addr: ReplicaAddr|
            (forall|k: int| 0 <= k < labels.len() ==> (#[trigger] labels[k]).0
                != addr) implies (#[trigger] relabelled(before, labels).contains_key(addr)
            == before.contains_key(addr)) && (before.contains_key(addr) ==> relabelled(
            before,
            labels,
        )[addr] == before[addr]) by {
            assert(labels[labels.len() - 1].0 != addr);
            assert forall|k: int| 0 <= k < init.len() implies (#[trigger] init[k]).0 != addr by {
                assert(labels[k].0 != addr);
            }
            assert(relabelled(before, init).contains_key(addr) == before.contains_key(addr));
        }
    }
}

/// If the first label that shows a loss is beyond the next one, the sharder goes on with the
/// least label that was asked for; otherwise its provenance stays as it is.
pub proof fn resumed_provenance(
    s: SharderModel,
    labels: Seq<(ReplicaAddr, usize)>,
    targets: Seq<ProvTree>,
    k: int,
    least: int,
)
    requires
        first_shows_loss(labels, s.min_provenance.label + s.payloads.len() + 1, k),
        0 <= least < labels.len(),
        forall|j: int| 0 <= j < labels.len() ==> labels[least].1 <= (#[trigger] labels[j]).1,
        labels[least].1 > 0,
    ensures
        ({
            let t = s.resumed(labels, targets);
            if labels[k].1 > s.min_provenance.label + s.payloads.len() + 1 {
                let label = (labels[least].1 - 1) as usize;
                &&& t.min_provenance == (ProvTree { label, ..s.min_provenance })
                &&& t.max_provenance == (ProvTree { label, ..s.max_provenance })
            } else {
                &&& t.min_provenance == s.min_provenance
                &&& t.max_provenance == s.max_provenance
            }
        }),
{
    lemma_first_loss(labels, s.next_label(), k);
    least_label_is_least(labels);
    let j = choose|j: int| 0 <= j < labels.len() && least_label(labels) == (#[trigger] labels[j]).1;
    assert(labels[least].1 <= labels[j].1);
    assert(least_label(labels) <= labels[least].1);
}

/// When sending can be resumed: some label shows a loss; and if the first that does is beyond
/// the next one, nothing was kept and no label is zero.
pub proof fn resume_admits(s: SharderModel, labels: Seq<(ReplicaAddr, usize)>)
    ensures
        s.can_resume(labels) <==> {
            let next = s.min_provenance.label + s.payloads.len() + 1;
            &&& next <= usize::MAX
            &&& exists|k: int|
                {
                    &&& #[trigger] first_shows_loss(labels, next, k)
                    &&& labels[k].1 > next ==> s.payloads.len() == 0 && s.updates.len() == 0
                        && forall|j: int| 0 <= j < labels.len() ==> (#[trigger] labels[j]).1 > 0
                }
        },
{
    let next = s.min_provenance.label + s.payloads.len() + 1;
    loss_is_found(labels, next);
    least_label_is_least(labels);
    let f = first_loss(labels, next);
    assert forall|k: int| #[trigger] first_shows_loss(labels, next, k) implies k == f by {
        lemma_first_loss(labels, next, k);
    }
    if f < labels.len() {
        assert(first_shows_loss(labels, next, f));
        let j = choose|j: int|
            0 <= j < labels.len() && least_label(labels) == (#[trigger] labels[j]).1;
        assert(labels[j].1 == least_label(labels));
        assert((least_label(labels) > 0) == (forall|j: int|
            0 <= j < labels.len() ==> (#[trigger] labels[j]).1 > 0));
    }
}

/// A graph is in order if its edges join its nodes. The node of a replica is the first one that
/// stands for it.
pub proof fn graph_nodes(graph: DomainGraph, addr: ReplicaAddr)
    requires
        graph.nodes@.len() <= usize::MAX,
    ensures
        graph.wf() <==> forall|i: int|
            0 <= i < graph.edges@.len() ==> (#[trigger] graph.edges@[i]).0 < graph.nodes@.len()
                && graph.edges@[i].1 < graph.nodes@.len(),
        graph.contains(addr) <==> exists|i: int|
            0 <= i < graph.nodes@.len() && #[trigger] graph.nodes@[i] == addr,
        graph.contains(addr) ==> {
            let k = graph.node_of(addr) as int;
            &&& k < graph.nodes@.len()
            &&& graph.nodes@[k] == addr
            &&& forall|j: int| 0 <= j < k ==> #[trigger] graph.nodes@[j] != addr
        },
{
    if graph.contains(addr) {
        let i = choose|i: int| 0 <= i < graph.nodes@.len() && graph.nodes@[i] == addr;
        let k = first_node(graph.nodes@, addr, i);
        let found = k as usize;
        assert(found < graph.nodes@.len() && graph.nodes@[found as int] == addr && forall|j: int|
            0 <= j < found ==> graph.nodes@[j] != addr);
    }
}

proof fn first_node(nodes: Seq<ReplicaAddr>, addr: ReplicaAddr, i: int) -> (k: int)
    requires
        0 <= i < nodes.len(),
        nodes[i] == addr,
    ensures
        0 <= k <= i,
        nodes[k] == addr,
        forall|j: int| 0 <= j < k ==> nodes[j] != addr,
    decreases i,
{
    if exists|j: int| 0 <= j < i && nodes[j] == addr {
        let j = choose|j: int| 0 <= j < i && nodes[j] == addr;
        first_node(nodes, addr, j)
    } else {
        i
    }
}

} // verus!
