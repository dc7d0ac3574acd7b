//! What holds of the packets that a sharder puts into the queues of its children.

use vstd::multiset::Multiset;
use vstd::prelude::*;
use vstd::utf8::encode_utf8;
use crate::data::{shard_of, Row, Value};
use crate::filter::{lemma_filter_all, lemma_filter_none, lemma_filter_split};
use crate::hash::fnv1a;
use crate::ids::{Link, LocalNodeIndex, ReplicaAddr, Tag};
use crate::model::{for_all_shards, QueueModel, Routes, SharderModel};
use crate::outside::sent;
use crate::packet::PacketModel;
use crate::provenance::ProvTree;

verus! {

/// The shard of a value is one of the shards.
pub proof fn shard_in_range(value: Value, shards: nat)
    requires
        shards > 0,
    ensures
        0 <= shard_of(value, shards) < shards,
{
    let x: int = match value {
        Value::Null => 0,
        Value::Int(n) => (n as usize) as int,
        Value::BigInt(n) => (n as usize) as int,
        Value::Text(s) => (fnv1a(encode_utf8(s)) as usize) as int,
    };
    vstd::arithmetic::div_mod::lemma_mod_bound(x, shards as int);
}

/// What the first `n` shards get of `rows`, together.
pub open spec fn rows_spread(routes: Routes, rows: Seq<Row>, n: nat) -> Multiset<Row>
    decreases n,
{
    if n == 0 {
        Multiset::empty()
    } else {
        rows_spread(routes, rows, (n - 1) as nat).add(
            routes.rows_for(rows, n - 1).to_multiset(),
        )
    }
}

/// Sharding neither loses nor duplicates a record: what the shards get is what the packet
/// carried.
pub proof fn rows_are_partitioned(routes: Routes, m: PacketModel)
    requires
        routes.shardable(m),
    ensures
        rows_spread(routes, m.data(), routes.txs.len()) == m.data().to_multiset(),
{
    let rows = m.data();
    let n = routes.txs.len();
    rows_below(routes, rows, n);
    let p = |row: Row| 0 <= routes.shard_of_row(row) < n;
    assert forall|i: int| 0 <= i < rows.len() implies p(#[trigger] rows[i]) by {
        shard_in_range(rows[i].values[routes.shard_by as int], n);
    }
    lemma_filter_all(rows, p);
}

proof fn rows_below(routes: Routes, rows: Seq<Row>, n: nat)
    ensures
        rows_spread(routes, rows, n) == rows.filter(
            |row: Row| 0 <= routes.shard_of_row(row) < n,
        ).to_multiset(),
    decreases n,
{
    broadcast use vstd::seq_lib::group_to_multiset_ensures;

    let r = |row: Row| 0 <= routes.shard_of_row(row) < n;
    if n == 0 {
        lemma_filter_none(rows, r);
        assert(rows.filter(r) =~= Seq::empty());
        assert(rows_spread(routes, rows, n) =~= rows.filter(r).to_multiset());
    } else {
        rows_below(routes, rows, (n - 1) as nat);
        let p = |row: Row| 0 <= routes.shard_of_row(row) < (n - 1) as nat;
        let q = |row: Row| routes.shard_of_row(row) == n - 1;
        lemma_filter_split(rows, p, q, r);
    }
}

/// A record gets to the shard of its key, and to no other.
pub proof fn row_goes_to_its_shard(routes: Routes, rows: Seq<Row>, k: int, i: int)
    requires
        0 <= k < rows.len(),
    ensures
        routes.rows_for(rows, i).contains(rows[k]) <==> routes.shard_of_row(rows[k]) == i,
{
    broadcast use vstd::seq_lib::group_filter_ensures;

    let p = |row: Row| routes.shard_of_row(row) == i;
    let kept = rows.filter(p);
    if p(rows[k]) {
        assert(kept.contains(rows[k]));
    }
    if kept.contains(rows[k]) {
        let j = choose|j: int| 0 <= j < kept.len() && kept[j] == rows[k];
        assert(p(kept[j]));
    }
}

/// The last piece of a full replay, and the replay of keys, go to every shard.
pub proof fn some_replays_go_everywhere(routes: Routes, m: PacketModel, label: usize, i: int)
    requires
        for_all_shards(m),
    ensures
        routes.sends_to(m, label, i),
{
}

/// A message does not go to a replica that is to be sent later ones only.
pub proof fn old_messages_are_not_sent(routes: Routes, m: PacketModel, label: usize, i: int)
    requires
        m is Message,
        label < routes.min_label_to_send[routes.txs[i].1],
    ensures
        !routes.sends_to(m, label, i),
{
}

/// A replay goes where its records belong, whatever its label.
pub proof fn replays_have_no_least_label(
    routes: Routes,
    m: PacketModel,
    label: usize,
    other: usize,
    i: int,
)
    requires
        m is ReplayPiece,
    ensures
        routes.sends_to(m, label, i) == routes.sends_to(m, other, i),
{
}

/// No replica stands for two shards.
pub open spec fn one_shard_each(routes: Routes) -> bool {
    forall|i: int, j: int|
        0 <= i < j < routes.txs.len() ==> (#[trigger] routes.txs[i]).1 != (
        #[trigger] routes.txs[j]).1
}

/// The packets that wait for `addr`, if any.
pub open spec fn queue_for(q: QueueModel, addr: ReplicaAddr) -> Seq<PacketModel> {
    if q.contains_key(addr) {
        q[addr]
    } else {
        Seq::empty()
    }
}

/// Each replica gets its part of a packet if the packet goes there, behind what waits for it,
/// and nothing else; other replicas get nothing.
pub proof fn routed_packet(
    routes: Routes,
    m: PacketModel,
    label: usize,
    index: LocalNodeIndex,
    q: QueueModel,
)
    requires
        one_shard_each(routes),
    ensures
        forall|i: int|
            0 <= i < routes.txs.len() ==> queue_for(
                routes.routed(m, label, index, q, routes.txs.len()),
                (#[trigger] routes.txs[i]).1,
            ) == if routes.sends_to(m, label, i) {
                queue_for(q, routes.txs[i].1).push(routes.part(m, index, i))
            } else {
                queue_for(q, routes.txs[i].1)
            },
        forall|addr: ReplicaAddr|
            (forall|i: int| 0 <= i < routes.txs.len() ==> (#[trigger] routes.txs[i]).1 != addr)
                ==> #[trigger] queue_for(
                routes.routed(m, label, index, q, routes.txs.len()),
                addr,
            ) == queue_for(q, addr),
{
    routed_packet_upto(routes, m, label, index, q, routes.txs.len());
}

proof fn routed_packet_upto(
    routes: Routes,
    m: PacketModel,
    label: usize,
    index: LocalNodeIndex,
    q: QueueModel,
    n: nat,
)
    requires
        one_shard_each(routes),
        n <= routes.txs.len(),
    ensures
        forall|i: int|
            0 <= i < n ==> queue_for(
                routes.routed(m, label, index, q, n),
                (#[trigger] routes.txs[i]).1,
            ) == if routes.sends_to(m, label, i) {
                queue_for(q, routes.txs[i].1).push(routes.part(m, index, i))
            } else {
                queue_for(q, routes.txs[i].1)
            },
        forall|addr: ReplicaAddr|
            (forall|i: int| 0 <= i < n ==> (#[trigger] routes.txs[i]).1 != addr)
                ==> #[trigger] queue_for(routes.routed(m, label, index, q, n), addr) == queue_for(
                q,
                addr,
            ),
    decreases n,
{
    if n > 0 {
        routed_packet_upto(routes, m, label, index, q, (n - 1) as nat);
        let before = routes.routed(m, label, index, q, (n - 1) as nat);
        let after = routes.routed(m, label, index, q, n);
        let last = routes.txs[n - 1].1;
        assert(queue_for(before, last) == queue_for(q, last));
        assert forall|i: int| 0 <= i < n implies queue_for(after, (#[trigger] routes.txs[i]).1)
            == if routes.sends_to(m, label, i) {
            queue_for(q, routes.txs[i].1).push(routes.part(m, index, i))
        } else {
            queue_for(q, routes.txs[i].1)
        } by {
            if i < n - 1 {
                assert(routes.txs[i].1 != last);
                assert(queue_for(after, routes.txs[i].1) == queue_for(before, routes.txs[i].1));
            }
        }
        assert forall|addr: ReplicaAddr|
            (forall|i: int| 0 <= i < n ==> (#[trigger] routes.txs[i]).1 != addr) implies #[trigger] queue_for(
            after,
            addr,
        ) == queue_for(q, addr) by {
            assert(routes.txs[n - 1].1 != addr);
            assert(queue_for(before, addr) == queue_for(q, addr));
        }
    }
}

/// What the first `n` shards are told to evict, together.
pub open spec fn keys_spread(
    routes: Routes,
    keys: Seq<Seq<Value>>,
    n: nat,
) -> Multiset<Seq<Value>>
    decreases n,
{
    if n == 0 {
        Multiset::empty()
    } else {
        keys_spread(routes, keys, (n - 1) as nat).add(
            routes.keys_for(keys, n - 1).to_multiset(),
        )
    }
}

/// An eviction by the column by which records are sharded neither loses nor duplicates a key:
/// what the shards are told to evict is what was to be evicted.
pub proof fn keys_are_partitioned(
    routes: Routes,
    key_columns: Seq<usize>,
    keys: Seq<Seq<Value>>,
    is_sharded: bool,
)
    requires
        routes.can_evict(key_columns, keys, is_sharded),
        routes.evicts_by_shard(key_columns),
    ensures
        keys_spread(routes, keys, routes.txs.len()) == keys.to_multiset(),
{
    let n = routes.txs.len();
    keys_below(routes, keys, n);
    let p = |key: Seq<Value>| 0 <= shard_of(key[0], routes.txs.len()) < n;
    assert forall|i: int| 0 <= i < keys.len() implies p(#[trigger] keys[i]) by {
        shard_in_range(keys[i][0], n);
    }
    lemma_filter_all(keys, p);
}

proof fn keys_below(routes: Routes, keys: Seq<Seq<Value>>, n: nat)
    ensures
        keys_spread(routes, keys, n) == keys.filter(
            |key: Seq<Value>| 0 <= shard_of(key[0], routes.txs.len()) < n,
        ).to_multiset(),
    decreases n,
{
    broadcast use vstd::seq_lib::group_to_multiset_ensures;

    let r = |key: Seq<Value>| 0 <= shard_of(key[0], routes.txs.len()) < n;
    if n == 0 {
        lemma_filter_none(keys, r);
        assert(keys.filter(r) =~= Seq::empty());
        assert(keys_spread(routes, keys, n) =~= keys.filter(r).to_multiset());
    } else {
        keys_below(routes, keys, (n - 1) as nat);
        let p = |key: Seq<Value>| 0 <= shard_of(key[0], routes.txs.len()) < (n - 1) as nat;
        let q = |key: Seq<Value>| shard_of(key[0], routes.txs.len()) == n - 1;
        lemma_filter_split(keys, p, q, r);
    }
}

/// Each replica is told to evict its keys, if it has any, behind what waits for it; or, if the
/// eviction is by other columns, all of them. Other replicas are told nothing.
pub proof fn evicted_keys(
    routes: Routes,
    id: Option<ProvTree>,
    key_columns: Seq<usize>,
    tag: Tag,
    keys: Seq<Seq<Value>>,
    src: LocalNodeIndex,
    q: QueueModel,
)
    requires
        one_shard_each(routes),
    ensures
        forall|i: int|
            0 <= i < routes.txs.len() ==> queue_for(
                routes.evicted(id, key_columns, tag, keys, src, q),
                (#[trigger] routes.txs[i]).1,
            ) == told(routes, id, routes.evicts_by_shard(key_columns), tag, keys, src, q, i),
        forall|addr: ReplicaAddr|
            (forall|i: int| 0 <= i < routes.txs.len() ==> (#[trigger] routes.txs[i]).1 != addr)
                ==> #[trigger] queue_for(
                routes.evicted(id, key_columns, tag, keys, src, q),
                addr,
            ) == queue_for(q, addr),
{
    let by_shard = routes.evicts_by_shard(key_columns);
    let n = routes.txs.len();
    evicted_keys_upto(routes, id, by_shard, tag, keys, src, q, n);
    assert(routes.evicted(id, key_columns, tag, keys, src, q) == evicted_upto(
        routes,
        id,
        by_shard,
        tag,
        keys,
        src,
        q,
        n,
    ));
}

/// What waits for the replica of shard `i` after an eviction.
pub open spec fn told(
    routes: Routes,
    id: Option<ProvTree>,
    by_shard: bool,
    tag: Tag,
    keys: Seq<Seq<Value>>,
    src: LocalNodeIndex,
    q: QueueModel,
    i: int,
) -> Seq<PacketModel> {
    let waiting = queue_for(q, routes.txs[i].1);
    let link = Link { src, dst: routes.txs[i].0 };
    let mine = if by_shard {
        routes.keys_for(keys, i)
    } else {
        keys
    };
    if by_shard && mine.len() == 0 {
        waiting
    } else {
        waiting.push(PacketModel::EvictKeys { id, link, tag, keys: mine })
    }
}

spec fn evicted_upto(
    routes: Routes,
    id: Option<ProvTree>,
    by_shard: bool,
    tag: Tag,
    keys: Seq<Seq<Value>>,
    src: LocalNodeIndex,
    q: QueueModel,
    n: nat,
) -> QueueModel {
    if by_shard {
        routes.evicted_by_shard(id, tag, keys, src, q, n)
    } else {
        routes.evicted_everywhere(id, tag, keys, src, q, n)
    }
}

proof fn evicted_keys_upto(
    routes: Routes,
    id: Option<ProvTree>,
    by_shard: bool,
    tag: Tag,
    keys: Seq<Seq<Value>>,
    src: LocalNodeIndex,
    q: QueueModel,
    n: nat,
)
    requires
        one_shard_each(routes),
        n <= routes.txs.len(),
    ensures
        ({
            let after = evicted_upto(routes, id, by_shard, tag, keys, src, q, n);
            &&& forall|i: int|
                0 <= i < n ==> queue_for(after, (#[trigger] routes.txs[i]).1) == told(
                    routes,
                    id,
                    by_shard,
                    tag,
                    keys,
                    src,
                    q,
                    i,
                )
            &&& forall|addr: ReplicaAddr|
                (forall|i: int| 0 <= i < n ==> (#[trigger] routes.txs[i]).1 != addr)
                    ==> #[trigger] queue_for(after, addr) == queue_for(q, addr)
        }),
    decreases n,
{
    if n > 0 {
        evicted_keys_upto(routes, id, by_shard, tag, keys, src, q, (n - 1) as nat);
        let before = evicted_upto(routes, id, by_shard, tag, keys, src, q, (n - 1) as nat);
        let after = evicted_upto(routes, id, by_shard, tag, keys, src, q, n);
        let last = routes.txs[n - 1].1;
        assert(queue_for(before, last) == queue_for(q, last));
        assert forall|i: int| 0 <= i < n implies queue_for(after, (#[trigger] routes.txs[i]).1)
            == told(routes, id, by_shard, tag, keys, src, q, i) by {
            if i < n - 1 {
                assert(routes.txs[i].1 != last);
                assert(queue_for(after, routes.txs[i].1) == queue_for(before, routes.txs[i].1));
            }
        }
        assert forall|addr: ReplicaAddr|
            (forall|i: int| 0 <= i < n ==> (#[trigger] routes.txs[i]).1 != addr) implies #[trigger] queue_for(
            after,
            addr,
        ) == queue_for(q, addr) by {
            assert(routes.txs[n - 1].1 != addr);
            assert(queue_for(before, addr) == queue_for(q, addr));
        }
    }
}

/// Every queue of `q` is the beginning of that of `r`.
pub open spec fn extended_by(q: QueueModel, r: QueueModel) -> bool {
    forall|addr: ReplicaAddr| #[trigger] queue_for(q, addr).is_prefix_of(queue_for(r, addr))
}

/// Queues that are extended twice are extended.
pub proof fn lemma_extended_trans(q: QueueModel, r: QueueModel, s: QueueModel)
    requires
        extended_by(q, r),
        extended_by(r, s),
    ensures
        extended_by(q, s),
{
    assert forall|addr: ReplicaAddr| #[trigger] queue_for(q, addr).is_prefix_of(
        queue_for(s, addr),
    ) by {
        let (a, b, c) = (queue_for(q, addr), queue_for(r, addr), queue_for(s, addr));
        assert(a.is_prefix_of(b) && b.is_prefix_of(c));
        assert(a =~= c.subrange(0, a.len() as int)) by {
            assert forall|i: int| 0 <= i < a.len() implies a[i] == c[i] by {
                assert(a[i] == b.subrange(0, a.len() as int)[i]);
                assert(b[i] == c.subrange(0, b.len() as int)[i]);
            }
        }
    }
}

/// Queues that stay as they are count as extended.
pub proof fn lemma_extended_refl(q: QueueModel)
    ensures
        extended_by(q, q),
{
    assert forall|a: ReplicaAddr| #[trigger] queue_for(q, a).is_prefix_of(queue_for(q, a)) by {
        assert(queue_for(q, a).subrange(0, queue_for(q, a).len() as int) =~= queue_for(q, a));
    }
}

/// A packet more extends a queue.
pub proof fn lemma_extended_sent(q: QueueModel, addr: ReplicaAddr, p: PacketModel)
    ensures
        extended_by(q, sent(q, addr, p)),
{
    assert forall|a: ReplicaAddr| #[trigger] queue_for(q, a).is_prefix_of(
        queue_for(sent(q, addr, p), a),
    ) by {
        let x = queue_for(q, a);
        let y = queue_for(sent(q, addr, p), a);
        assert(y == if a == addr {
            x.push(p)
        } else {
            x
        });
        assert(y.subrange(0, x.len() as int) =~= x);
    }
}

/// A packet that is sent on changes nothing about what waits already.
pub proof fn routed_extends(
    routes: Routes,
    m: PacketModel,
    label: usize,
    index: LocalNodeIndex,
    q: QueueModel,
    n: nat,
)
    ensures
        extended_by(q, routes.routed(m, label, index, q, n)),
    decreases n,
{
    if n == 0 {
        lemma_extended_refl(q);
    } else {
        routed_extends(routes, m, label, index, q, (n - 1) as nat);
        let before = routes.routed(m, label, index, q, (n - 1) as nat);
        if routes.sends_to(m, label, n - 1) {
            lemma_extended_sent(before, routes.txs[n - 1].1, routes.part(m, index, n - 1));
            lemma_extended_trans(q, before, routes.routed(m, label, index, q, n));
        }
    }
}

/// An eviction changes nothing about what waits already in the queues.
pub proof fn evicted_extends(
    routes: Routes,
    id: Option<ProvTree>,
    key_columns: Seq<usize>,
    tag: Tag,
    keys: Seq<Seq<Value>>,
    src: LocalNodeIndex,
    q: QueueModel,
)
    ensures
        extended_by(q, routes.evicted(id, key_columns, tag, keys, src, q)),
{
    let by_shard = routes.evicts_by_shard(key_columns);
    evicted_upto_extends(routes, id, by_shard, tag, keys, src, q, routes.txs.len());
}

proof fn evicted_upto_extends(
    routes: Routes,
    id: Option<ProvTree>,
    by_shard: bool,
    tag: Tag,
    keys: Seq<Seq<Value>>,
    src: LocalNodeIndex,
    q: QueueModel,
    n: nat,
)
    ensures
        extended_by(q, evicted_upto(routes, id, by_shard, tag, keys, src, q, n)),
    decreases n,
{
    let link = Link { src, dst: routes.txs[n - 1].0 };
    let mine = if by_shard {
        routes.keys_for(keys, n - 1)
    } else {
        keys
    };
    let p = PacketModel::EvictKeys { id, link, tag, keys: mine };
    if n == 0 {
        lemma_extended_refl(q);
    } else {
        evicted_upto_extends(routes, id, by_shard, tag, keys, src, q, (n - 1) as nat);
        let before = evicted_upto(routes, id, by_shard, tag, keys, src, q, (n - 1) as nat);
        let after = evicted_upto(routes, id, by_shard, tag, keys, src, q, n);
        lemma_extended_refl(before);
        lemma_extended_sent(before, routes.txs[n - 1].1, p);
        assert(extended_by(before, after));
        lemma_extended_trans(q, before, after);
    }
}

/// A new child is sent every message that has records for it: there is no label below the one
/// from which it is sent messages.
pub proof fn new_children_get_all_messages(
    s: SharderModel,
    dst: LocalNodeIndex,
    txs: Seq<ReplicaAddr>,
    m: PacketModel,
    i: int,
)
    requires
        0 <= i < txs.len(),
        m is Message,
        s.can_prepare(m),
        s.with_children(dst, txs).routes.rows_for(m.data(), i).len() > 0,
    ensures
        s.with_children(dst, txs).routes.sends_to(m, s.label_for(m) as usize, i),
{
    let routes = s.with_children(dst, txs).routes;
    assert(routes.txs[i].1 == txs[i]);
    assert(txs.contains(txs[i]));
    assert(routes.min_label_to_send[txs[i]] == 1);
}

} // verus!
