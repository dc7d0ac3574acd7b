//! What the values of the library stand for, field by field.

use vstd::prelude::*;
use crate::assoc::{as_map, lemma_find_is};
use crate::data::{key_values, rows, values, DataType, Record, Value};
use crate::ids::ReplicaAddr;
use crate::laws::provenance::entries_map;
use crate::model::{all_waiting, is_from, unlabelled, Waiting};
use crate::outside::{queued, Queues, MAX_SHARDS};
use crate::packet::{ContextModel, Packet, PacketModel, ReplayPieceContext};
use crate::provenance::{edge_trees, ProvTree, Provenance};
use crate::sharder::Sharder;

verus! {

/// A value stands for itself.
pub proof fn value_stands_for(dt: DataType)
    ensures
        match dt {
            DataType::Null => dt@ == Value::Null,
            DataType::Int(n) => dt@ == Value::Int(n),
            DataType::BigInt(n) => dt@ == Value::BigInt(n),
            DataType::Text(s) => dt@ == Value::Text(s@),
        },
{
}

/// A list of values stands for what each of them does, in order.
pub proof fn values_stand_for(row: Seq<DataType>)
    ensures
        values(row).len() == row.len(),
        forall|i: int| 0 <= i < row.len() ==> #[trigger] values(row)[i] == row[i]@,
{
}

/// A list of keys stands for what each of them does, in order.
pub proof fn keys_stand_for(keys: Seq<Vec<DataType>>)
    ensures
        key_values(keys).len() == keys.len(),
        forall|i: int| 0 <= i < keys.len() ==> #[trigger] key_values(keys)[i] == values(keys[i]@),
{
}

/// A record stands for its sign and its values.
pub proof fn record_stands_for(r: Record)
    ensures
        match r {
            Record::Positive(row) => r@.positive && r@.values == values(row@),
            Record::Negative(row) => !r@.positive && r@.values == values(row@),
        },
{
}

/// A list of records stands for what each of them does, in order.
pub proof fn records_stand_for(data: Seq<Record>)
    ensures
        rows(data).len() == data.len(),
        forall|i: int| 0 <= i < data.len() ==> #[trigger] rows(data)[i] == data[i]@,
{
}

/// The context of a piece of a replay stands for its keys, or for whether it is the last one.
pub proof fn context_stands_for(c: ReplayPieceContext)
    ensures
        match c {
            ReplayPieceContext::Partial { for_keys, ignore } => c@ == (ContextModel::Partial {
                for_keys: key_values(for_keys@),
                ignore,
            }),
            ReplayPieceContext::Regular { last } => c@ == (ContextModel::Regular { last }),
        },
{
}

/// What an optional provenance stands for.
pub open spec fn known(id: Option<Provenance>) -> Option<ProvTree> {
    match id {
        Some(p) => Some(p@),
        None => None,
    }
}

/// A packet stands for its provenance, its edge, and what it carries.
pub proof fn packet_stands_for(p: Packet)
    ensures
        match p {
            Packet::Message { id, link, data } => p@ == (PacketModel::Message {
                id: known(id),
                link,
                data: rows(data@),
            }),
            Packet::ReplayPiece { id, link, tag, data, context } => p@ == (
            PacketModel::ReplayPiece {
                id: known(id),
                link,
                tag,
                data: rows(data@),
                context: context@,
            }),
            Packet::EvictKeys { id, link, tag, keys } => p@ == (PacketModel::EvictKeys {
                id: known(id),
                link,
                tag,
                keys: key_values(keys@),
            }),
        },
{
}

/// The queues stand for the packets in them, in order.
pub proof fn queues_stand_for(output: Queues, addr: ReplicaAddr)
    ensures
        queued(output).contains_key(addr) == output@.contains_key(addr),
        output@.contains_key(addr) ==> queued(output)[addr].len() == output@[addr]@.len(),
        output@.contains_key(addr) ==> forall|i: int|
            0 <= i < output@[addr]@.len() ==> #[trigger] queued(output)[addr][i]
                == output@[addr]@[i]@,
{
}

/// A sharder stands for its fields. A list of replicas stands for a map.
pub proof fn sharder_stands_for(s: Sharder)
    ensures
        s@.routes.txs == s.txs@,
        s@.routes.shard_by == s.shard_by,
        s@.min_provenance == s.min_provenance@,
        s@.max_provenance == s.max_provenance@,
        s@.updates.len() == s.updates@.len(),
        forall|i: int| 0 <= i < s.updates@.len() ==> #[trigger] s@.updates[i] == s.updates@[i]@,
        s@.payloads.len() == s.payloads@.len(),
        forall|i: int| 0 <= i < s.payloads@.len() ==> #[trigger] s@.payloads[i] == s.payloads@[i]@,
        s@.targets.len() == s.targets@.len(),
        forall|i: int| 0 <= i < s.targets@.len() ==> #[trigger] s@.targets[i] == s.targets@[i]@,
        s@.parent_buffer.len() == s.parent_buffer@.len(),
        forall|k: int|
            0 <= k < s.parent_buffer@.len() ==> (#[trigger] s@.parent_buffer[k]).0
                == s.parent_buffer@[k].0 && s@.parent_buffer[k].1.len()
                == s.parent_buffer@[k].1@.len(),
        forall|k: int, i: int|
            0 <= k < s.parent_buffer@.len() && 0 <= i < s.parent_buffer@[k].1@.len()
                ==> #[trigger] s@.parent_buffer[k].1[i] == (
                s.parent_buffer@[k].1@[i].0,
                s.parent_buffer@[k].1@[i].1@,
            ),
{
}

/// The maps of a sharder hold what its lists do: a replica is mapped if some entry is for it, to
/// the value of the first one.
pub proof fn sharder_maps(s: Sharder, addr: ReplicaAddr)
    ensures
        s@.routes.min_label_to_send.contains_key(addr) <==> exists|i: int|
            0 <= i < s.min_label_to_send@.len() && (#[trigger] s.min_label_to_send@[i]).0 == addr,
        s@.last_provenance.contains_key(addr) <==> exists|i: int|
            0 <= i < s.last_provenance@.len() && (#[trigger] s.last_provenance@[i]).0 == addr,
        forall|i: int|
            0 <= i < s.min_label_to_send@.len() && (#[trigger] s.min_label_to_send@[i]).0 == addr
                && (forall|j: int|
                0 <= j < i ==> (#[trigger] s.min_label_to_send@[j]).0 != addr)
                ==> s@.routes.min_label_to_send[addr] == s.min_label_to_send@[i].1,
        forall|i: int|
            0 <= i < s.last_provenance@.len() && (#[trigger] s.last_provenance@[i]).0 == addr && (
            forall|j: int| 0 <= j < i ==> (#[trigger] s.last_provenance@[j]).0 != addr)
                ==> s@.last_provenance[addr] == s.last_provenance@[i].1@,
{
    let labels = s.min_label_to_send@;
    let entries = s.last_provenance@;
    let trees = edge_trees(entries);
    entries_map(labels);
    entries_map(trees);
    assert(as_map(labels).contains_key(addr) == s@.routes.min_label_to_send.contains_key(addr));
    assert forall|i: int| 0 <= i < entries.len() implies (#[trigger] trees[i]).0 == entries[i].0
        && trees[i].1 == entries[i].1@ by {}
    assert(as_map(trees).contains_key(addr) == s@.last_provenance.contains_key(addr));
    if as_map(trees).contains_key(addr) {
        let i = choose|i: int| 0 <= i < trees.len() && (#[trigger] trees[i]).0 == addr;
        assert(entries[i].0 == addr);
    }
    if exists|i: int| 0 <= i < entries.len() && (#[trigger] entries[i]).0 == addr {
        let i = choose|i: int| 0 <= i < entries.len() && (#[trigger] entries[i]).0 == addr;
        assert(trees[i].0 == addr);
    }
    assert forall|i: int|
        0 <= i < entries.len() && (#[trigger] entries[i]).0 == addr && (forall|j: int|
            0 <= j < i ==> (#[trigger] entries[j]).0 != addr) implies s@.last_provenance[addr]
        == entries[i].1@ by {
        assert forall|j: int| 0 <= j < i implies (#[trigger] trees[j]).0 != addr by {
            assert(entries[j].0 != addr);
        }
        lemma_find_is(trees, addr, i);
    }
    assert forall|i: int|
        0 <= i < labels.len() && (#[trigger] labels[i]).0 == addr && (forall|j: int|
            0 <= j < i ==> (#[trigger] labels[j]).0
                != addr) implies s@.routes.min_label_to_send[addr] == labels[i].1 by {
        lemma_find_is(labels, addr, i);
    }
}

/// A packet is from the replica at the root of its provenance.
pub proof fn packet_comes_from(m: PacketModel, addr: ReplicaAddr)
    ensures
        is_from(m, addr) <==> match m {
            PacketModel::Message { id, link, data } => id matches Some(p) && p.root == addr,
            PacketModel::ReplayPiece { id, link, tag, data, context } => id matches Some(p)
                && p.root == addr,
            PacketModel::EvictKeys { id, link, tag, keys } => id matches Some(p) && p.root == addr,
        },
{
}

/// The packets that wait are those in the places of the buffer, without their labels.
pub proof fn waiting_packets(w: Waiting, buffer: Seq<(ReplicaAddr, Waiting)>, k: int, i: int)
    ensures
        unlabelled(w).len() == w.len(),
        forall|j: int| 0 <= j < w.len() ==> #[trigger] unlabelled(w)[j] == w[j].1,
        0 <= k < buffer.len() && 0 <= i < buffer[k].1.len() ==> all_waiting(buffer).contains(
            buffer[k].1[i].1,
        ),
    decreases buffer.len(),
{
    if 0 <= k < buffer.len() && 0 <= i < buffer[k].1.len() {
        let init = buffer.drop_last();
        let last = unlabelled(buffer.last().1);
        let all = all_waiting(buffer);
        if k < init.len() {
            waiting_packets(w, init, k, i);
            assert(init[k] == buffer[k]);
            let j = choose|j: int|
                0 <= j < all_waiting(init).len() && all_waiting(init)[j] == buffer[k].1[i].1;
            assert(all[j] == buffer[k].1[i].1);
        } else {
            assert(last[i] == buffer[k].1[i].1);
            assert(all[all_waiting(init).len() + i] == last[i]);
        }
    }
}

/// A leaf has a root and a label, and no edges. The edges of a provenance stand for what each of
/// them does, in order.
pub proof fn trees_stand_for(
    root: ReplicaAddr,
    label: usize,
    edges: Seq<(ReplicaAddr, Provenance)>,
)
    ensures
        ProvTree::leaf(root, label).root == root,
        ProvTree::leaf(root, label).label == label,
        ProvTree::leaf(root, label).edges.len() == 0,
        edge_trees(edges).len() == edges.len(),
        forall|i: int|
            0 <= i < edges.len() ==> #[trigger] edge_trees(edges)[i] == (edges[i].0, edges[i].1@),
{
}

/// The number of shards is limited by the machine alone.
pub proof fn shards_are_limited_by_memory()
    ensures
        MAX_SHARDS == usize::MAX / 32,
{
}

} // verus!
