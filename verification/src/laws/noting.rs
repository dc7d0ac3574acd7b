//! What holds of the provenance that is noted for each replica.

use vstd::prelude::*;
use crate::data::Value;
use crate::ids::{DomainIndex, LocalNodeIndex, ReplicaAddr, Tag};
use crate::laws::routing::queue_for;
use crate::laws::sending::{settled_batch, settled_forwards_batch};
use crate::model::{QueueModel, Routes, SharderModel};
use crate::packet::PacketModel;
use crate::provenance::ProvTree;

verus! {

/// While the queues went from `q` to `r`, the notes went from `last` to `now` with them: a
/// replica that got something has the provenance of the last packet in its queue, and for one
/// that got nothing the note is what it was.
pub open spec fn note_follows(
    q: QueueModel,
    last: Map<ReplicaAddr, ProvTree>,
    r: QueueModel,
    now: Map<ReplicaAddr, ProvTree>,
    addr: ReplicaAddr,
) -> bool {
    let before = queue_for(q, addr);
    let after = queue_for(r, addr);
    if after.len() == before.len() {
        &&& after == before
        &&& now.contains_key(addr) == last.contains_key(addr)
        &&& last.contains_key(addr) ==> now[addr] == last[addr]
    } else {
        &&& after.len() > before.len()
        &&& now.contains_key(addr)
        &&& after.last().id() == Some(now[addr])
    }
}

/// Once a packet was processed, the note for each replica that it went to is the provenance of
/// the packet, and the other notes are what they were.
pub proof fn processed_is_noted(
    routes: Routes,
    m: PacketModel,
    label: usize,
    is_sharded: bool,
    index: LocalNodeIndex,
    q: QueueModel,
    last: Map<ReplicaAddr, ProvTree>,
    addr: ReplicaAddr,
)
    requires
        routes.can_process(m, label, is_sharded),
    ensures
        ({
            let n = routes.txs.len();
            note_follows(
                q,
                last,
                routes.routed(m, label, index, q, n),
                routes.noted(m, label, last, n),
                addr,
            )
        }),
        forall|i: int|
            0 <= i < routes.txs.len() && routes.sends_to(m, label, i) ==> {
                let now = routes.noted(m, label, last, routes.txs.len());
                &&& now.contains_key((#[trigger] routes.txs[i]).1)
                &&& now[routes.txs[i].1] == m.id()->0
            },
{
    processed_upto_is_noted(routes, m, label, index, q, last, addr, routes.txs.len());
}

proof fn processed_upto_is_noted(
    routes: Routes,
    m: PacketModel,
    label: usize,
    index: LocalNodeIndex,
    q: QueueModel,
    last: Map<ReplicaAddr, ProvTree>,
    addr: ReplicaAddr,
    n: nat,
)
    requires
        n <= routes.txs.len(),
        forall|i: int|
            0 <= i < routes.txs.len() && #[trigger] routes.sends_to(m, label, i) ==> m.id() is Some,
    ensures
        note_follows(
            q,
            last,
            routes.routed(m, label, index, q, n),
            routes.noted(m, label, last, n),
            addr,
        ),
        forall|i: int|
            0 <= i < n && routes.sends_to(m, label, i) ==> {
                let now = routes.noted(m, label, last, n);
                &&& now.contains_key((#[trigger] routes.txs[i]).1)
                &&& now[routes.txs[i].1] == m.id()->0
            },
    decreases n,
{
    if n > 0 {
        processed_upto_is_noted(routes, m, label, index, q, last, addr, (n - 1) as nat);
        let before = routes.noted(m, label, last, (n - 1) as nat);
        let now = routes.noted(m, label, last, n);
        if routes.sends_to(m, label, n - 1) {
            assert(m.id() is Some);
            assert(routes.part(m, index, n - 1).id() == m.id());
        }
        assert forall|i: int| 0 <= i < n && routes.sends_to(m, label, i) implies now.contains_key(
            (#[trigger] routes.txs[i]).1,
        ) && now[routes.txs[i].1] == m.id()->0 by {
            if i < n - 1 {
                assert(before.contains_key(routes.txs[i].1));
            }
        }
    }
}

proof fn passed_is_noted(
    s: SharderModel,
    q: QueueModel,
    ms: Seq<PacketModel>,
    from: DomainIndex,
    index: LocalNodeIndex,
    addr: ReplicaAddr,
)
    ensures
        note_follows(
            q,
            s.last_provenance,
            s.forwarded_all(q, ms, from, index),
            s.passed_all(ms, from).last_provenance,
            addr,
        ),
    decreases ms.len(),
{
    if ms.len() > 0 {
        let init = ms.drop_last();
        passed_is_noted(s, q, init, from, index, addr);
        let t = s.passed_all(init, from);
        let m = ms.last();
        processed_upto_is_noted(
            t.routes,
            t.stamped(m, from),
            t.prepared(m, from).max_provenance.label,
            index,
            s.forwarded_all(q, init, from, index),
            t.last_provenance,
            addr,
            t.routes.txs.len(),
        );
    }
}

/// Sending keeps the notes right: a replica that got something has the provenance of the last
/// packet in its queue, and for one that got nothing the note is what it was.
pub proof fn sent_is_noted(
    s: SharderModel,
    q: QueueModel,
    m: PacketModel,
    from: DomainIndex,
    index: LocalNodeIndex,
    addr: ReplicaAddr,
)
    ensures
        note_follows(
            q,
            s.last_provenance,
            s.sent_queues(q, m, from, index),
            s.sent_packet(m, from).last_provenance,
            addr,
        ),
{
    if s.targets.len() == 0 {
        let ms = seq![m];
        assert(ms.drop_last() =~= Seq::empty());
        reveal_with_fuel(SharderModel::passed_all, 2);
        reveal_with_fuel(SharderModel::forwarded_all, 2);
        passed_is_noted(s, q, ms, from, index, addr);
    } else {
        let t = s.buffered(m);
        settled_forwards_batch(t, q, from, index);
        passed_is_noted(t, q, settled_batch(t, from), from, index, addr);
    }
}

/// Once keys were evicted, the note for each replica that was told is the provenance of the
/// eviction, if it has one, and the other notes are what they were.
pub proof fn evicted_is_noted(
    routes: Routes,
    id: ProvTree,
    key_columns: Seq<usize>,
    tag: Tag,
    keys: Seq<Seq<Value>>,
    src: LocalNodeIndex,
    q: QueueModel,
    last: Map<ReplicaAddr, ProvTree>,
    addr: ReplicaAddr,
)
    ensures
        ({
            let n = routes.txs.len();
            note_follows(
                q,
                last,
                routes.evicted(Some(id), key_columns, tag, keys, src, q),
                routes.eviction_noted(Some(id), key_columns, keys, last, n),
                addr,
            )
        }),
        forall|i: int|
            0 <= i < routes.txs.len() && routes.evicts_from(key_columns, keys, i) ==> {
                let now = routes.eviction_noted(
                    Some(id),
                    key_columns,
                    keys,
                    last,
                    routes.txs.len(),
                );
                &&& now.contains_key((#[trigger] routes.txs[i]).1)
                &&& now[routes.txs[i].1] == id
            },
        routes.eviction_noted(None, key_columns, keys, last, routes.txs.len()) == last,
{
    let n = routes.txs.len();
    evicted_upto_is_noted(routes, id, key_columns, tag, keys, src, q, last, addr, n);
}

proof fn evicted_upto_is_noted(
    routes: Routes,
    id: ProvTree,
    key_columns: Seq<usize>,
    tag: Tag,
    keys: Seq<Seq<Value>>,
    src: LocalNodeIndex,
    q: QueueModel,
    last: Map<ReplicaAddr, ProvTree>,
    addr: ReplicaAddr,
    n: nat,
)
    requires
        n <= routes.txs.len(),
    ensures
        note_follows(
            q,
            last,
            if routes.evicts_by_shard(key_columns) {
                routes.evicted_by_shard(Some(id), tag, keys, src, q, n)
            } else {
                routes.evicted_everywhere(Some(id), tag, keys, src, q, n)
            },
            routes.eviction_noted(Some(id), key_columns, keys, last, n),
            addr,
        ),
        forall|i: int|
            0 <= i < n && routes.evicts_from(key_columns, keys, i) ==> {
                let now = routes.eviction_noted(Some(id), key_columns, keys, last, n);
                &&& now.contains_key((#[trigger] routes.txs[i]).1)
                &&& now[routes.txs[i].1] == id
            },
        routes.eviction_noted(None, key_columns, keys, last, n) == last,
    decreases n,
{
    if n > 0 {
        let k = (n - 1) as nat;
        evicted_upto_is_noted(routes, id, key_columns, tag, keys, src, q, last, addr, k);
        let before = routes.eviction_noted(Some(id), key_columns, keys, last, k);
        let now = routes.eviction_noted(Some(id), key_columns, keys, last, n);
        assert forall|i: int|
            0 <= i < n && routes.evicts_from(key_columns, keys, i) implies now.contains_key(
            (#[trigger] routes.txs[i]).1,
        ) && now[routes.txs[i].1] == id by {
            if i < n - 1 {
                assert(before.contains_key(routes.txs[i].1));
            }
        }
    }
}

} // verus!
