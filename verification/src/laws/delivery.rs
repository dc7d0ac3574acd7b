//! What each replica is sent of a packet or of an eviction, said of the packet's own fields.

use vstd::multiset::Multiset;
use vstd::prelude::*;
use vstd::utf8::encode_utf8;
use crate::data::{shard_of, Row, Value};
use crate::filter::{lemma_filter_all, lemma_filter_none, lemma_filter_split, lemma_filter_take};
use crate::hash::fnv1a;
use crate::ids::{Link, LocalNodeIndex, ReplicaAddr, Tag};
use crate::laws::routing::{queue_for, shard_in_range};
use crate::model::{QueueModel, Routes};
use crate::packet::{ContextModel, PacketModel};
use crate::provenance::ProvTree;

verus! {

/// Where values belong. The absence of a value goes to the first shard; an integer goes by its
/// value, whatever its width, modulo the number of shards, with a negative one counted down from
/// the machine word; text goes by its hash.
pub proof fn shard_of_value(shards: nat)
    requires
        shards > 0,
    ensures
        shard_of(Value::Null, shards) == 0,
        forall|n: i32| n >= 0 ==> #[trigger] shard_of(Value::Int(n), shards) == n as int % shards as int,
        forall|n: i64|
            0 <= n <= usize::MAX ==> #[trigger] shard_of(Value::BigInt(n), shards) == n as int
                % shards as int,
        forall|n: i32| #[trigger]
            shard_of(Value::Int(n), shards) == shard_of(Value::BigInt(n as i64), shards),
        forall|n: i32|
            n < 0 ==> #[trigger] shard_of(Value::Int(n), shards) == (usize::MAX + 1 + n)
                % shards as int,
        forall|n: i64| #[trigger]
            shard_of(Value::BigInt(n), shards) == (n as usize) as int % shards as int,
        forall|s: Seq<char>| #[trigger]
            shard_of(Value::Text(s), shards) == (fnv1a(encode_utf8(s)) as usize) as int
                % shards as int,
{
    assert forall|n: i32| #[trigger]
        shard_of(Value::Int(n), shards) == shard_of(Value::BigInt(n as i64), shards) by {
        assert(n as usize == (n as i64) as usize) by (bit_vector);
    }
    assert forall|n: i32| n < 0 implies #[trigger] shard_of(Value::Int(n), shards) == (usize::MAX
        + 1 + n) % shards as int by {
        let most = usize::MAX;
        assert(most <= (-1i32) as usize) by (bit_vector);
        assert(n < 0 ==> n as usize == ((-1i32) as usize) + 1 + n) by (bit_vector);
    }
}

/// The places from zero on, of the first `n`, that are picked, in order.
pub open spec fn places(n: nat, pick: spec_fn(int) -> bool) -> Seq<int> {
    Seq::new(n, |i: int| i).filter(pick)
}

proof fn lemma_places(n: nat, pick: spec_fn(int) -> bool)
    ensures
        places(0, pick) == Seq::<int>::empty(),
        places(n + 1, pick) == if pick(n as int) {
            places(n, pick).push(n as int)
        } else {
            places(n, pick)
        },
        forall|i: int| #[trigger] places(n, pick).contains(i) <==> 0 <= i < n && pick(i),
{
    let all = Seq::new(n + 1, |i: int| i);
    lemma_filter_take(all, n as int, pick);
    assert(all.take((n + 1) as int) =~= all);
    assert(all.take(n as int) =~= Seq::new(n, |i: int| i));
    lemma_filter_none(Seq::new(0, |i: int| i), pick);
    assert(places(0, pick) =~= Seq::empty());
    let some = Seq::new(n, |i: int| i);
    broadcast use vstd::seq_lib::group_filter_ensures;

    assert forall|i: int| #[trigger] places(n, pick).contains(i) <==> 0 <= i < n && pick(i) by {
        if 0 <= i < n && pick(i) {
            assert(some[i] == i);
            some.lemma_filter_contains(pick, i);
        }
        if places(n, pick).contains(i) {
            some.lemma_filter_contains_rev(pick, i);
            let j = choose|j: int| 0 <= j < places(n, pick).len() && places(n, pick)[j] == i;
            assert(pick(some.filter(pick)[j]));
        }
    }
}

/// The records of `data` whose value in column `shard_by` belongs to shard `i`, in order.
pub open spec fn share(data: Seq<Row>, shard_by: usize, shards: nat, i: int) -> Seq<Row> {
    data.filter(|row: Row| shard_of(row.values[shard_by as int], shards) == i)
}

/// Some record of `data` belongs to shard `i`.
pub open spec fn has_share(data: Seq<Row>, shard_by: usize, shards: nat, i: int) -> bool {
    exists|k: int|
        0 <= k < data.len() && shard_of(
            (#[trigger] data[k]).values[shard_by as int],
            shards,
        ) == i
}

/// Packet `m` is sent to shard `i`. A message goes to the shards of its records, unless the
/// replica is to be sent later ones only. A piece of a replay goes to the shards of its records;
/// the last piece of a full replay, and the replay of keys, go to every shard.
pub open spec fn is_sent(routes: Routes, m: PacketModel, label: usize, i: int) -> bool {
    let n = routes.txs.len();
    match m {
        PacketModel::Message { id, link, data } => label >= routes.min_label_to_send[routes.txs[i].1]
            && has_share(data, routes.shard_by, n, i),
        PacketModel::ReplayPiece { id, link, tag, data, context } => match context {
            ContextModel::Partial { for_keys, ignore } => true,
            ContextModel::Regular { last } => last || has_share(data, routes.shard_by, n, i),
        },
        PacketModel::EvictKeys { id, link, tag, keys } => false,
    }
}

/// What shard `i` is sent of packet `m`: the same packet, from this node to that of the shard,
/// with those of the records that belong to the shard.
pub open spec fn piece(routes: Routes, m: PacketModel, src: LocalNodeIndex, i: int) -> PacketModel {
    let n = routes.txs.len();
    match m {
        PacketModel::Message { id, link, data } => PacketModel::Message {
            id,
            link: Link { src, dst: routes.txs[i].0 },
            data: share(data, routes.shard_by, n, i),
        },
        PacketModel::ReplayPiece { id, link, tag, data, context } => PacketModel::ReplayPiece {
            id,
            link: Link { src, dst: routes.txs[i].0 },
            tag,
            data: share(data, routes.shard_by, n, i),
            context,
        },
        PacketModel::EvictKeys { id, link, tag, keys } => m,
    }
}

proof fn lemma_share(routes: Routes, m: PacketModel, label: usize, src: LocalNodeIndex, i: int)
    requires
        !(m is EvictKeys),
    ensures
        routes.part(m, src, i) == piece(routes, m, src, i),
        routes.sends_to(m, label, i) == is_sent(routes, m, label, i),
        has_share(m.data(), routes.shard_by, routes.txs.len(), i) == (routes.rows_for(
            m.data(),
            i,
        ).len() > 0),
{
    let data = m.data();
    let n = routes.txs.len();
    let p = |row: Row| shard_of(row.values[routes.shard_by as int], n) == i;
    let r = |row: Row| routes.shard_of_row(row) == i;
    assert(p =~= r);
    assert(routes.rows_for(data, i) == share(data, routes.shard_by, n, i));
    lemma_some(data, p);
    assert(has_share(data, routes.shard_by, n, i) == (data.filter(p).len() > 0)) by {
        if has_share(data, routes.shard_by, n, i) {
            let k = choose|k: int|
                0 <= k < data.len() && shard_of(
                    (#[trigger] data[k]).values[routes.shard_by as int],
                    n,
                ) == i;
            assert(p(data[k]));
        }
        if data.filter(p).len() > 0 {
            let k = choose|k: int| 0 <= k < data.len() && p(#[trigger] data[k]);
            assert(shard_of(data[k].values[routes.shard_by as int], n) == i);
        }
    }
}

/// A filter keeps something exactly if something passes it.
proof fn lemma_some<A>(s: Seq<A>, p: spec_fn(A) -> bool)
    ensures
        s.filter(p).len() > 0 <==> exists|k: int| 0 <= k < s.len() && p(#[trigger] s[k]),
{
    broadcast use vstd::seq_lib::group_filter_ensures;

    if s.filter(p).len() > 0 {
        let x = s.filter(p)[0];
        assert(s.filter(p).contains(x));
        assert(p(x));
        s.lemma_filter_contains_rev(p, x);
        let k = choose|k: int| 0 <= k < s.len() && s[k] == x;
        assert(p(s[k]));
    }
    if exists|k: int| 0 <= k < s.len() && p(#[trigger] s[k]) {
        let k = choose|k: int| 0 <= k < s.len() && p(#[trigger] s[k]);
        assert(s.filter(p).contains(s[k]));
    }
}

/// Once a packet was processed, the queue of each replica is what it was, and behind it, in the
/// order of the shards, a piece of the packet for each shard of that replica that is sent one. A
/// replica that is sent nothing gets no queue.
pub proof fn process_delivers(
    routes: Routes,
    m: PacketModel,
    label: usize,
    index: LocalNodeIndex,
    q: QueueModel,
    addr: ReplicaAddr,
)
    requires
        !(m is EvictKeys),
    ensures
        ({
            let n = routes.txs.len();
            let after = routes.routed(m, label, index, q, n);
            let here = places(
                n,
                |i: int| routes.txs[i].1 == addr && is_sent(routes, m, label, i),
            );
            &&& queue_for(after, addr) == queue_for(q, addr) + here.map_values(
                |i: int| piece(routes, m, index, i),
            )
            &&& after.contains_key(addr) == (q.contains_key(addr) || here.len() > 0)
        }),
{
    process_delivers_upto(routes, m, label, index, q, addr, routes.txs.len());
}

proof fn process_delivers_upto(
    routes: Routes,
    m: PacketModel,
    label: usize,
    index: LocalNodeIndex,
    q: QueueModel,
    addr: ReplicaAddr,
    n: nat,
)
    requires
        !(m is EvictKeys),
    ensures
        ({
            let after = routes.routed(m, label, index, q, n);
            let here = places(
                n,
                |i: int| routes.txs[i].1 == addr && is_sent(routes, m, label, i),
            );
            &&& queue_for(after, addr) == queue_for(q, addr) + here.map_values(
                |i: int| piece(routes, m, index, i),
            )
            &&& after.contains_key(addr) == (q.contains_key(addr) || here.len() > 0)
        }),
    decreases n,
{
    let pick = |i: int| routes.txs[i].1 == addr && is_sent(routes, m, label, i);
    let make = |i: int| piece(routes, m, index, i);
    if n == 0 {
        lemma_places(0, pick);
        assert(queue_for(q, addr) + places(0, pick).map_values(make) =~= queue_for(q, addr));
    } else {
        let k = (n - 1) as nat;
        process_delivers_upto(routes, m, label, index, q, addr, k);
        lemma_places(k, pick);
        lemma_share(routes, m, label, index, k as int);
        let before = places(k, pick);
        assert(before.push(k as int).map_values(make) =~= before.map_values(make).push(
            make(k as int),
        ));
        let sofar = queue_for(q, addr) + before.map_values(make);
        assert(sofar.push(make(k as int)) =~= queue_for(q, addr) + before.map_values(make).push(
            make(k as int),
        ));
    }
}

/// Records that agree in the sharding column are never sent to different shards, whatever their
/// other columns hold: a shard whose piece holds one of them gets the other too.
pub proof fn equal_keys_stay_together(
    routes: Routes,
    m: PacketModel,
    data: Seq<Row>,
    index: LocalNodeIndex,
    i: int,
    j: int,
    k: int,
)
    requires
        m matches PacketModel::Message { data: d, .. } ==> d == data,
        m matches PacketModel::ReplayPiece { data: d, .. } ==> d == data,
        !(m is EvictKeys),
        0 <= j < data.len(),
        0 <= k < data.len(),
        data[j].values[routes.shard_by as int] == data[k].values[routes.shard_by as int],
    ensures
        routes.part(m, index, i).data().contains(data[j]) <==> routes.part(
            m,
            index,
            i,
        ).data().contains(data[k]),
        routes.part(m, index, i).data().contains(data[j]) <==> shard_of(
            data[j].values[routes.shard_by as int],
            routes.txs.len(),
        ) == i,
{
    broadcast use vstd::seq_lib::group_filter_ensures;

    lemma_share(routes, m, 0, index, i);
    let p = |row: Row| shard_of(row.values[routes.shard_by as int], routes.txs.len()) == i;
    assert(routes.part(m, index, i).data() == data.filter(p));
    lemma_kept(data, p, j);
    lemma_kept(data, p, k);
}

proof fn lemma_kept<A>(s: Seq<A>, p: spec_fn(A) -> bool, k: int)
    requires
        0 <= k < s.len(),
    ensures
        s.filter(p).contains(s[k]) <==> p(s[k]),
{
    broadcast use vstd::seq_lib::group_filter_ensures;

    if p(s[k]) {
        assert(s.contains(s[k]));
    }
}

/// The records that the first `n` shards are sent of packet `m`, together.
pub open spec fn records_sent(
    routes: Routes,
    m: PacketModel,
    label: usize,
    index: LocalNodeIndex,
    n: nat,
) -> Multiset<Row>
    decreases n,
{
    if n == 0 {
        Multiset::empty()
    } else {
        let before = records_sent(routes, m, label, index, (n - 1) as nat);
        if routes.sends_to(m, label, n - 1) {
            before.add(routes.part(m, index, n - 1).data().to_multiset())
        } else {
            before
        }
    }
}

/// No record is lost or duplicated on the way into the queues: over the shards that a packet is
/// sent to, the records are those of the packet. It is so for every piece of a replay, and for
/// a message that no replica is to be left out of.
pub proof fn no_record_is_lost(
    routes: Routes,
    m: PacketModel,
    data: Seq<Row>,
    label: usize,
    index: LocalNodeIndex,
)
    requires
        m matches PacketModel::Message { data: d, .. } ==> d == data,
        m matches PacketModel::ReplayPiece { data: d, .. } ==> d == data,
        !(m is EvictKeys),
        data.len() > 0 ==> routes.txs.len() > 0,
        m is Message ==> forall|i: int|
            0 <= i < routes.txs.len() ==> label >= routes.min_label_to_send[(
            #[trigger] routes.txs[i]).1],
    ensures
        records_sent(routes, m, label, index, routes.txs.len()) == data.to_multiset(),
{
    let n = routes.txs.len();
    records_below(routes, m, data, label, index, n);
    let p = |row: Row| 0 <= shard_of(row.values[routes.shard_by as int], n) < n;
    assert forall|i: int| 0 <= i < data.len() implies p(#[trigger] data[i]) by {
        shard_in_range(data[i].values[routes.shard_by as int], n);
    }
    lemma_filter_all(data, p);
}

proof fn records_below(
    routes: Routes,
    m: PacketModel,
    data: Seq<Row>,
    label: usize,
    index: LocalNodeIndex,
    n: nat,
)
    requires
        m matches PacketModel::Message { data: d, .. } ==> d == data,
        m matches PacketModel::ReplayPiece { data: d, .. } ==> d == data,
        !(m is EvictKeys),
        n <= routes.txs.len(),
        m is Message ==> forall|i: int|
            0 <= i < routes.txs.len() ==> label >= routes.min_label_to_send[(
            #[trigger] routes.txs[i]).1],
    ensures
        records_sent(routes, m, label, index, n) == data.filter(
            |row: Row|
                0 <= shard_of(row.values[routes.shard_by as int], routes.txs.len()) < n,
        ).to_multiset(),
    decreases n,
{
    broadcast use vstd::seq_lib::group_to_multiset_ensures;

    let shards = routes.txs.len();
    let r = |row: Row| 0 <= shard_of(row.values[routes.shard_by as int], shards) < n;
    if n == 0 {
        lemma_filter_none(data, r);
        assert(data.filter(r) =~= Seq::empty());
        assert(records_sent(routes, m, label, index, n) =~= data.filter(r).to_multiset());
    } else {
        let k = (n - 1) as nat;
        records_below(routes, m, data, label, index, k);
        let p = |row: Row| 0 <= shard_of(row.values[routes.shard_by as int], shards) < k;
        let q = |row: Row| shard_of(row.values[routes.shard_by as int], shards) == k as int;
        lemma_filter_split(data, p, q, r);
        lemma_share(routes, m, label, index, k as int);
        assert(share(data, routes.shard_by, shards, k as int) == data.filter(q));
        assert(routes.part(m, index, k as int).data() == data.filter(q));
        assert(routes.txs[k as int].1 == routes.txs[k as int].1);
        if !routes.sends_to(m, label, k as int) {
            assert(data.filter(q).len() == 0);
            assert(data.filter(q) =~= Seq::empty());
            assert(data.filter(p).to_multiset().add(data.filter(q).to_multiset())
                =~= data.filter(p).to_multiset());
        }
    }
}

/// Once a packet was processed, its provenance is noted for the replicas that it was sent to,
/// and the note of every other replica is what it was.
pub proof fn process_notes(
    routes: Routes,
    m: PacketModel,
    label: usize,
    last: Map<ReplicaAddr, ProvTree>,
    addr: ReplicaAddr,
)
    requires
        !(m is EvictKeys),
    ensures
        ({
            let now = routes.noted(m, label, last, routes.txs.len());
            if exists|i: int|
                0 <= i < routes.txs.len() && (#[trigger] routes.txs[i]).1 == addr && is_sent(
                    routes,
                    m,
                    label,
                    i,
                ) {
                &&& now.contains_key(addr)
                &&& m matches PacketModel::Message { id: Some(p), .. } ==> now[addr] == p
                &&& m matches PacketModel::ReplayPiece { id: Some(p), .. } ==> now[addr] == p
            } else {
                &&& now.contains_key(addr) == last.contains_key(addr)
                &&& last.contains_key(addr) ==> now[addr] == last[addr]
            }
        }),
{
    process_notes_upto(routes, m, label, last, addr, routes.txs.len());
}

proof fn process_notes_upto(
    routes: Routes,
    m: PacketModel,
    label: usize,
    last: Map<ReplicaAddr, ProvTree>,
    addr: ReplicaAddr,
    n: nat,
)
    requires
        !(m is EvictKeys),
    ensures
        ({
            let now = routes.noted(m, label, last, n);
            if exists|i: int|
                0 <= i < n && (#[trigger] routes.txs[i]).1 == addr && is_sent(routes, m, label, i) {
                &&& now.contains_key(addr)
                &&& now[addr] == m.id()->0
            } else {
                &&& now.contains_key(addr) == last.contains_key(addr)
                &&& last.contains_key(addr) ==> now[addr] == last[addr]
            }
        }),
    decreases n,
{
    if n > 0 {
        process_notes_upto(routes, m, label, last, addr, (n - 1) as nat);
        lemma_share(routes, m, label, 0, n - 1);
        assert(routes.txs[n - 1].1 == addr || routes.txs[n - 1].1 != addr);
    }
}

/// Every record of `data` has the sharding column, and there is a shard for it.
pub open spec fn fits(routes: Routes, data: Seq<Row>) -> bool {
    &&& data.len() > 0 ==> routes.txs.len() > 0
    &&& forall|k: int| 0 <= k < data.len() ==> routes.shard_by < (#[trigger] data[k]).values.len()
}

/// Packet `m` is sent to some shard.
pub open spec fn is_sent_anywhere(routes: Routes, m: PacketModel, label: usize) -> bool {
    exists|i: int| 0 <= i < routes.txs.len() && #[trigger] is_sent(routes, m, label, i)
}

/// When a packet can be processed: the sharder itself is not sharded; the packet carries records
/// and not keys; every record has the sharding column, and there is a shard for it; and if the
/// packet is sent anywhere it has a provenance.
pub proof fn process_admits(routes: Routes, m: PacketModel, label: usize, is_sharded: bool)
    ensures
        routes.can_process(m, label, is_sharded) <==> !is_sharded && match m {
            PacketModel::Message { id, link, data } => fits(routes, data) && (is_sent_anywhere(
                routes,
                m,
                label,
            ) ==> id is Some),
            PacketModel::ReplayPiece { id, link, tag, data, context } => fits(routes, data) && (
            is_sent_anywhere(routes, m, label) ==> id is Some),
            PacketModel::EvictKeys { id, link, tag, keys } => false,
        },
{
    if !(m is EvictKeys) {
        let n = routes.txs.len();
        assert forall|i: int| #[trigger]
            is_sent(routes, m, label, i) == routes.sends_to(m, label, i) by {
            lemma_share(routes, m, label, 0, i);
        }
        lemma_fits(routes, m);
        if is_sent_anywhere(routes, m, label) {
            let i = choose|i: int| 0 <= i < n && #[trigger] is_sent(routes, m, label, i);
            assert(routes.sends_to(m, label, i));
        }
        if exists|i: int| 0 <= i < n && #[trigger] routes.sends_to(m, label, i) {
            let i = choose|i: int| 0 <= i < n && #[trigger] routes.sends_to(m, label, i);
            assert(is_sent(routes, m, label, i));
        }
    }
}

proof fn lemma_fits(routes: Routes, m: PacketModel)
    requires
        !(m is EvictKeys),
    ensures
        m matches PacketModel::Message { data, .. } ==> routes.shardable(m) == fits(routes, data),
        m matches PacketModel::ReplayPiece { data, .. } ==> routes.shardable(m) == fits(
            routes,
            data,
        ),
{
    let data = m.data();
    assert(routes.shardable(m) == fits(routes, data));
}

/// The one column of the keys is the sharding column.
pub open spec fn by_sharding_column(routes: Routes, key_columns: Seq<usize>) -> bool {
    key_columns.len() == 1 && key_columns[0] == routes.shard_by
}

/// Some key of `keys` belongs to shard `i`.
pub open spec fn has_key(keys: Seq<Seq<Value>>, shards: nat, i: int) -> bool {
    exists|k: int| 0 <= k < keys.len() && shard_of((#[trigger] keys[k])[0], shards) == i
}

/// Shard `i` is told to evict. If the keys are of the sharding column, only a shard that some key
/// belongs to is told; otherwise every shard is.
pub open spec fn is_told(
    routes: Routes,
    key_columns: Seq<usize>,
    keys: Seq<Seq<Value>>,
    i: int,
) -> bool {
    by_sharding_column(routes, key_columns) ==> has_key(keys, routes.txs.len(), i)
}

/// What shard `i` is told: its own keys, if they are of the sharding column, and otherwise all.
pub open spec fn order_for(
    routes: Routes,
    id: Option<ProvTree>,
    key_columns: Seq<usize>,
    tag: Tag,
    keys: Seq<Seq<Value>>,
    src: LocalNodeIndex,
    i: int,
) -> PacketModel {
    PacketModel::EvictKeys {
        id,
        link: Link { src, dst: routes.txs[i].0 },
        tag,
        keys: if by_sharding_column(routes, key_columns) {
            keys.filter(|key: Seq<Value>| shard_of(key[0], routes.txs.len()) == i)
        } else {
            keys
        },
    }
}

proof fn lemma_keys(routes: Routes, key_columns: Seq<usize>, keys: Seq<Seq<Value>>, i: int)
    ensures
        routes.evicts_by_shard(key_columns) == by_sharding_column(routes, key_columns),
        routes.keys_for(keys, i) == keys.filter(
            |key: Seq<Value>| shard_of(key[0], routes.txs.len()) == i,
        ),
        has_key(keys, routes.txs.len(), i) == (routes.keys_for(keys, i).len() > 0),
        routes.evicts_from(key_columns, keys, i) == is_told(routes, key_columns, keys, i),
{
    let n = routes.txs.len();
    let p = |key: Seq<Value>| shard_of(key[0], n) == i;
    lemma_some(keys, p);
    if has_key(keys, n, i) {
        let k = choose|k: int| 0 <= k < keys.len() && shard_of((#[trigger] keys[k])[0], n) == i;
        assert(p(keys[k]));
    }
    if keys.filter(p).len() > 0 {
        let k = choose|k: int| 0 <= k < keys.len() && p(#[trigger] keys[k]);
        assert(shard_of(keys[k][0], n) == i);
    }
    assert(by_sharding_column(routes, key_columns) ==> key_columns =~= seq![routes.shard_by]);
}

/// Once keys were evicted, the queue of each replica is what it was, and behind it, in the order
/// of the shards, an order to evict for each shard of that replica that is told. A replica that
/// is told nothing gets no queue.
pub proof fn eviction_delivers(
    routes: Routes,
    id: Option<ProvTree>,
    key_columns: Seq<usize>,
    tag: Tag,
    keys: Seq<Seq<Value>>,
    src: LocalNodeIndex,
    q: QueueModel,
    addr: ReplicaAddr,
)
    ensures
        ({
            let after = routes.evicted(id, key_columns, tag, keys, src, q);
            let here = places(
                routes.txs.len(),
                |i: int| routes.txs[i].1 == addr && is_told(routes, key_columns, keys, i),
            );
            &&& queue_for(after, addr) == queue_for(q, addr) + here.map_values(
                |i: int| order_for(routes, id, key_columns, tag, keys, src, i),
            )
            &&& after.contains_key(addr) == (q.contains_key(addr) || here.len() > 0)
        }),
{
    eviction_delivers_upto(
        routes,
        id,
        key_columns,
        tag,
        keys,
        src,
        q,
        addr,
        routes.txs.len(),
    );
    lemma_keys(routes, key_columns, keys, 0);
}

proof fn eviction_delivers_upto(
    routes: Routes,
    id: Option<ProvTree>,
    key_columns: Seq<usize>,
    tag: Tag,
    keys: Seq<Seq<Value>>,
    src: LocalNodeIndex,
    q: QueueModel,
    addr: ReplicaAddr,
    n: nat,
)
    ensures
        ({
            let after = if by_sharding_column(routes, key_columns) {
                routes.evicted_by_shard(id, tag, keys, src, q, n)
            } else {
                routes.evicted_everywhere(id, tag, keys, src, q, n)
            };
            let here = places(
                n,
                |i: int| routes.txs[i].1 == addr && is_told(routes, key_columns, keys, i),
            );
            &&& queue_for(after, addr) == queue_for(q, addr) + here.map_values(
                |i: int| order_for(routes, id, key_columns, tag, keys, src, i),
            )
            &&& after.contains_key(addr) == (q.contains_key(addr) || here.len() > 0)
        }),
    decreases n,
{
    let pick = |i: int| routes.txs[i].1 == addr && is_told(routes, key_columns, keys, i);
    let make = |i: int| order_for(routes, id, key_columns, tag, keys, src, i);
    if n == 0 {
        lemma_places(0, pick);
        assert(queue_for(q, addr) + places(0, pick).map_values(make) =~= queue_for(q, addr));
    } else {
        let k = (n - 1) as nat;
        eviction_delivers_upto(routes, id, key_columns, tag, keys, src, q, addr, k);
        lemma_places(k, pick);
        lemma_keys(routes, key_columns, keys, k as int);
        let before = places(k, pick);
        assert(before.push(k as int).map_values(make) =~= before.map_values(make).push(
            make(k as int),
        ));
        let sofar = queue_for(q, addr) + before.map_values(make);
        assert(sofar.push(make(k as int)) =~= queue_for(q, addr) + before.map_values(make).push(
            make(k as int),
        ));
    }
}

/// An eviction by anything but the sharding column alone misses no shard, and gives each all
/// keys; one by the sharding column leaves a shard out only if none of the keys is its.
pub proof fn no_shard_keeps_a_key(
    routes: Routes,
    id: Option<ProvTree>,
    key_columns: Seq<usize>,
    tag: Tag,
    keys: Seq<Seq<Value>>,
    src: LocalNodeIndex,
    q: QueueModel,
    i: int,
    k: int,
)
    requires
        0 <= i < routes.txs.len(),
        0 <= k < keys.len(),
        key_columns == seq![routes.shard_by] ==> shard_of(keys[k][0], routes.txs.len()) == i,
    ensures
        ({
            let after = queue_for(
                routes.evicted(id, key_columns, tag, keys, src, q),
                routes.txs[i].1,
            );
            exists|x: int|
                queue_for(q, routes.txs[i].1).len() <= x < after.len() && (
                #[trigger] after[x] matches PacketModel::EvictKeys {
                    id: id2,
                    link,
                    tag: tag2,
                    keys: told,
                } && id2 == id && tag2 == tag && link == (Link { src, dst: routes.txs[i].0 })
                    && told.contains(keys[k]) && (key_columns != seq![routes.shard_by] ==> told
                    == keys))
        }),
{
    let addr = routes.txs[i].1;
    let pick = |j: int| routes.txs[j].1 == addr && is_told(routes, key_columns, keys, j);
    let make = |j: int| order_for(routes, id, key_columns, tag, keys, src, j);
    let here = places(routes.txs.len(), pick);
    eviction_delivers(routes, id, key_columns, tag, keys, src, q, addr);
    lemma_places(routes.txs.len(), pick);
    if by_sharding_column(routes, key_columns) {
        assert(key_columns =~= seq![routes.shard_by]);
        assert(has_key(keys, routes.txs.len(), i));
        lemma_kept(keys, |key: Seq<Value>| shard_of(key[0], routes.txs.len()) == i, k);
    } else {
        assert(key_columns != seq![routes.shard_by]);
        assert(keys.contains(keys[k]));
    }
    assert(pick(i));
    assert(here.contains(i));
    let y = choose|y: int| 0 <= y < here.len() && here[y] == i;
    let x = queue_for(q, addr).len() + y;
    let after = queue_for(routes.evicted(id, key_columns, tag, keys, src, q), addr);
    assert(after[x] == here.map_values(make)[y]);
    assert(after[x] == make(i));
}

/// Once keys were evicted, the provenance of the eviction, if it has one, is noted for the
/// replicas that were told, and every other note is what it was.
pub proof fn eviction_notes(
    routes: Routes,
    id: Option<ProvTree>,
    key_columns: Seq<usize>,
    keys: Seq<Seq<Value>>,
    last: Map<ReplicaAddr, ProvTree>,
    addr: ReplicaAddr,
)
    ensures
        ({
            let now = routes.eviction_noted(id, key_columns, keys, last, routes.txs.len());
            if id is Some && exists|i: int|
                0 <= i < routes.txs.len() && (#[trigger] routes.txs[i]).1 == addr && is_told(
                    routes,
                    key_columns,
                    keys,
                    i,
                ) {
                &&& now.contains_key(addr)
                &&& now[addr] == id->0
            } else {
                &&& now.contains_key(addr) == last.contains_key(addr)
                &&& last.contains_key(addr) ==> now[addr] == last[addr]
            }
        }),
{
    eviction_notes_upto(routes, id, key_columns, keys, last, addr, routes.txs.len());
}

proof fn eviction_notes_upto(
    routes: Routes,
    id: Option<ProvTree>,
    key_columns: Seq<usize>,
    keys: Seq<Seq<Value>>,
    last: Map<ReplicaAddr, ProvTree>,
    addr: ReplicaAddr,
    n: nat,
)
    ensures
        ({
            let now = routes.eviction_noted(id, key_columns, keys, last, n);
            if id is Some && exists|i: int|
                0 <= i < n && (#[trigger] routes.txs[i]).1 == addr && is_told(
                    routes,
                    key_columns,
                    keys,
                    i,
                ) {
                &&& now.contains_key(addr)
                &&& now[addr] == id->0
            } else {
                &&& now.contains_key(addr) == last.contains_key(addr)
                &&& last.contains_key(addr) ==> now[addr] == last[addr]
            }
        }),
    decreases n,
{
    if n > 0 {
        eviction_notes_upto(routes, id, key_columns, keys, last, addr, (n - 1) as nat);
        lemma_keys(routes, key_columns, keys, n - 1);
        assert(routes.txs[n - 1].1 == addr || routes.txs[n - 1].1 != addr);
    }
}

/// When keys can be evicted: the sharder itself is not sharded; and either the keys are of the
/// sharding column, none is empty, and there is a shard for each; or there are key columns, and
/// the sharding column is none of them.
pub proof fn eviction_admits(
    routes: Routes,
    key_columns: Seq<usize>,
    keys: Seq<Seq<Value>>,
    is_sharded: bool,
)
    ensures
        routes.can_evict(key_columns, keys, is_sharded) <==> {
            &&& !is_sharded
            &&& if key_columns.len() == 1 && key_columns[0] == routes.shard_by {
                &&& keys.len() > 0 ==> routes.txs.len() > 0
                &&& forall|k: int| 0 <= k < keys.len() ==> (#[trigger] keys[k]).len() > 0
            } else {
                &&& key_columns.len() > 0
                &&& forall|k: int|
                    0 <= k < key_columns.len() ==> #[trigger] key_columns[k] != routes.shard_by
            }
        },
{
    lemma_keys(routes, key_columns, keys, 0);
    if key_columns.contains(routes.shard_by) {
        let k = choose|k: int| 0 <= k < key_columns.len() && key_columns[k] == routes.shard_by;
        assert(key_columns[k] == routes.shard_by);
    }
}

} // verus!
