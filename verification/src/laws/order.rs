//! What holds of the order in which packets are forwarded, over any number of calls of
//! `send_packet`.

use vstd::prelude::*;
use crate::filter::{
    lemma_filter_all, lemma_filter_none, lemma_filter_rank, lemma_filter_rank_order, lemma_filter_unrank,
};
use crate::ids::{DomainIndex, LocalNodeIndex, ReplicaAddr};
use crate::laws::routing::{
    extended_by, lemma_extended_refl, lemma_extended_trans, queue_for, routed_extends,
};
use crate::laws::sending::{
    buffered_in_order, settled_batch, settled_forwards_batch, settled_in_order,
    settled_waits_for_target, waiting_from,
};
use crate::model::{
    all_waiting, is_from, sorted_by_parent, QueueModel, Routes, SharderModel, Waiting,
};
use crate::packet::PacketModel;
use crate::provenance::ProvTree;

verus! {

/// A packet, and the arguments of the call of `send_packet` that it is handed to, or that
/// forwards it.
pub struct Call {
    pub m: PacketModel,
    pub from: DomainIndex,
    pub index: LocalNodeIndex,
    pub is_sharded: bool,
}

/// The packets of some calls.
pub open spec fn packets_of(calls: Seq<Call>) -> Seq<PacketModel> {
    calls.map_values(|c: Call| c.m)
}

/// The state after the packets of `calls` were sent, one after the other.
pub open spec fn after_calls(s: SharderModel, calls: Seq<Call>) -> SharderModel
    decreases calls.len(),
{
    if calls.len() == 0 {
        s
    } else {
        after_calls(s, calls.drop_last()).sent_packet(calls.last().m, calls.last().from)
    }
}

/// The queues after the packets of `calls` were sent.
pub open spec fn queues_after_calls(s: SharderModel, q: QueueModel, calls: Seq<Call>) -> QueueModel
    decreases calls.len(),
{
    if calls.len() == 0 {
        q
    } else {
        after_calls(s, calls.drop_last()).sent_queues(
            queues_after_calls(s, q, calls.drop_last()),
            calls.last().m,
            calls.last().from,
            calls.last().index,
        )
    }
}

/// The packets of `calls` can be sent, one after the other.
pub open spec fn can_call(s: SharderModel, calls: Seq<Call>) -> bool
    decreases calls.len(),
{
    calls.len() > 0 ==> {
        let c = calls.last();
        &&& can_call(s, calls.drop_last())
        &&& after_calls(s, calls.drop_last()).can_send(c.m, c.from, c.is_sharded)
    }
}

/// The packets that one call forwards, in order.
pub open spec fn batch_of(s: SharderModel, c: Call) -> Seq<PacketModel> {
    if s.targets.len() == 0 {
        seq![c.m]
    } else {
        settled_batch(s.buffered(c.m), c.from)
    }
}

/// The packets of `ms`, forwarded by call `c`.
pub open spec fn by_call(ms: Seq<PacketModel>, c: Call) -> Seq<Call> {
    ms.map_values(|m: PacketModel| Call { m, ..c })
}

/// All packets that `calls` forward, in the order in which they are forwarded.
pub open spec fn forwardings(s: SharderModel, calls: Seq<Call>) -> Seq<Call>
    decreases calls.len(),
{
    if calls.len() == 0 {
        Seq::empty()
    } else {
        forwardings(s, calls.drop_last()) + by_call(
            batch_of(after_calls(s, calls.drop_last()), calls.last()),
            calls.last(),
        )
    }
}

/// The state once the packets of `h` were forwarded, one after the other.
pub open spec fn passed_on(s: SharderModel, h: Seq<Call>) -> SharderModel
    decreases h.len(),
{
    if h.len() == 0 {
        s
    } else {
        passed_on(s, h.drop_last()).passed(h.last().m, h.last().from)
    }
}

/// The queues once the packets of `h` were forwarded, one after the other.
pub open spec fn queues_on(s: SharderModel, q: QueueModel, h: Seq<Call>) -> QueueModel
    decreases h.len(),
{
    if h.len() == 0 {
        q
    } else {
        passed_on(s, h.drop_last()).forwarded(
            queues_on(s, q, h.drop_last()),
            h.last().m,
            h.last().from,
            h.last().index,
        )
    }
}

/// What is forwarded does not depend on the buffer or the targets, nor does it change them, the
/// routes or the base provenance.
pub proof fn lemma_passed_on_frame(
    s: SharderModel,
    q: QueueModel,
    h: Seq<Call>,
    parent_buffer: Seq<(ReplicaAddr, Waiting)>,
    targets: Seq<ProvTree>,
)
    ensures
        passed_on(SharderModel { parent_buffer, targets, ..s }, h) == (SharderModel {
            parent_buffer,
            targets,
            ..passed_on(s, h)
        }),
        queues_on(SharderModel { parent_buffer, targets, ..s }, q, h) == queues_on(s, q, h),
        passed_on(s, h).parent_buffer == s.parent_buffer,
        passed_on(s, h).targets == s.targets,
        passed_on(s, h).routes == s.routes,
        passed_on(s, h).min_provenance == s.min_provenance,
    decreases h.len(),
{
    if h.len() > 0 {
        lemma_passed_on_frame(s, q, h.drop_last(), parent_buffer, targets);
    }
}

proof fn lemma_passed_on_add(s: SharderModel, q: QueueModel, a: Seq<Call>, b: Seq<Call>)
    ensures
        passed_on(s, a + b) == passed_on(passed_on(s, a), b),
        queues_on(s, q, a + b) == queues_on(passed_on(s, a), queues_on(s, q, a), b),
    decreases b.len(),
{
    if b.len() == 0 {
        assert(a + b =~= a);
    } else {
        lemma_passed_on_add(s, q, a, b.drop_last());
        assert((a + b).drop_last() =~= a + b.drop_last());
        assert((a + b).last() == b.last());
    }
}

proof fn lemma_by_call(s: SharderModel, q: QueueModel, ms: Seq<PacketModel>, c: Call)
    ensures
        passed_on(s, by_call(ms, c)) == s.passed_all(ms, c.from),
        queues_on(s, q, by_call(ms, c)) == s.forwarded_all(q, ms, c.from, c.index),
    decreases ms.len(),
{
    if ms.len() > 0 {
        lemma_by_call(s, q, ms.drop_last(), c);
        assert(by_call(ms, c).drop_last() =~= by_call(ms.drop_last(), c));
    }
}

/// What one call does, apart from the targets and the buffer, is to forward its batch.
proof fn call_forwards_batch(s: SharderModel, q: QueueModel, c: Call)
    ensures
        s.sent_packet(c.m, c.from) == (SharderModel {
            targets: s.sent_packet(c.m, c.from).targets,
            parent_buffer: s.sent_packet(c.m, c.from).parent_buffer,
            ..passed_on(s, by_call(batch_of(s, c), c))
        }),
        s.sent_queues(q, c.m, c.from, c.index) == queues_on(s, q, by_call(batch_of(s, c), c)),
{
    let batch = batch_of(s, c);
    lemma_by_call(s, q, batch, c);
    if s.targets.len() == 0 {
        assert(batch.drop_last() =~= Seq::empty());
        reveal_with_fuel(SharderModel::passed_all, 2);
        reveal_with_fuel(SharderModel::forwarded_all, 2);
    } else {
        let t = s.buffered(c.m);
        settled_forwards_batch(t, q, c.from, c.index);
        s.lemma_passed_frame(q, batch, c.from, c.index, t.parent_buffer, t.targets);
        assert(t == (SharderModel { parent_buffer: t.parent_buffer, targets: t.targets, ..s }));
    }
}

/// Over any number of calls, what is forwarded makes up the state, apart from the targets and
/// the buffer, and the queues.
pub proof fn calls_forward(s: SharderModel, q: QueueModel, calls: Seq<Call>)
    ensures
        after_calls(s, calls) == (SharderModel {
            targets: after_calls(s, calls).targets,
            parent_buffer: after_calls(s, calls).parent_buffer,
            ..passed_on(s, forwardings(s, calls))
        }),
        queues_after_calls(s, q, calls) == queues_on(s, q, forwardings(s, calls)),
    decreases calls.len(),
{
    if calls.len() > 0 {
        let init = calls.drop_last();
        let c = calls.last();
        calls_forward(s, q, init);
        let t = after_calls(s, init);
        let h = forwardings(s, init);
        let b = by_call(batch_of(t, c), c);
        let q1 = queues_after_calls(s, q, init);
        call_forwards_batch(t, q1, c);
        lemma_passed_on_add(s, q, h, b);
        lemma_passed_on_frame(passed_on(s, h), q1, b, t.parent_buffer, t.targets);
        assert(t == (SharderModel {
            parent_buffer: t.parent_buffer,
            targets: t.targets,
            ..passed_on(s, h)
        }));
    }
}

/// Nothing waits unless there are targets. It is so at first, and whenever the last target was
/// reached.
pub open spec fn waits_for_targets(s: SharderModel) -> bool {
    s.targets.len() == 0 ==> s.parent_buffer.len() == 0
}

/// One call keeps the order of the packets of each parent.
proof fn call_in_order(s: SharderModel, c: Call, addr: ReplicaAddr)
    requires
        sorted_by_parent(s.parent_buffer),
        waits_for_targets(s),
        s.can_send(c.m, c.from, c.is_sharded),
    ensures
        sorted_by_parent(s.sent_packet(c.m, c.from).parent_buffer),
        waits_for_targets(s.sent_packet(c.m, c.from)),
        batch_of(s, c).filter(|m: PacketModel| is_from(m, addr)) + waiting_from(
            s.sent_packet(c.m, c.from).parent_buffer,
            addr,
        ) == waiting_from(s.parent_buffer, addr) + seq![c.m].filter(
            |m: PacketModel| is_from(m, addr),
        ),
{
    let pred = |m: PacketModel| is_from(m, addr);
    let one = seq![c.m];
    if s.targets.len() == 0 {
        assert(one.filter(pred) + Seq::empty() =~= Seq::empty() + one.filter(pred));
    } else {
        buffered_in_order(s, c.m, addr);
        settled_in_order(s.buffered(c.m), c.from, addr);
        settled_waits_for_target(s.buffered(c.m), c.from);
        let w = waiting_from(s.parent_buffer, addr);
        if is_from(c.m, addr) {
            lemma_filter_all(one, pred);
            assert(w.push(c.m) =~= w + one);
        } else {
            lemma_filter_none(one, pred);
            assert(w =~= w + one.filter(pred));
        }
    }
}

/// Over any number of calls, the packets of one parent are forwarded in the order in which they
/// came: what was forwarded, and behind it what waits, is what waited before, and behind it what
/// was handed in.
#[verifier::rlimit(40)]
pub proof fn calls_in_order(s: SharderModel, calls: Seq<Call>, addr: ReplicaAddr)
    requires
        sorted_by_parent(s.parent_buffer),
        waits_for_targets(s),
        can_call(s, calls),
    ensures
        sorted_by_parent(after_calls(s, calls).parent_buffer),
        waits_for_targets(after_calls(s, calls)),
        packets_of(forwardings(s, calls)).filter(|m: PacketModel| is_from(m, addr)) + waiting_from(
            after_calls(s, calls).parent_buffer,
            addr,
        ) == waiting_from(s.parent_buffer, addr) + packets_of(calls).filter(
            |m: PacketModel| is_from(m, addr),
        ),
    decreases calls.len(),
{
    let pred = |m: PacketModel| is_from(m, addr);
    let w = waiting_from(s.parent_buffer, addr);
    if calls.len() == 0 {
        lemma_filter_none(packets_of(calls), pred);
        lemma_filter_none(packets_of(forwardings(s, calls)), pred);
        assert(packets_of(forwardings(s, calls)).filter(pred) + w =~= w + packets_of(calls).filter(
            pred,
        ));
    } else {
        let init = calls.drop_last();
        let c = calls.last();
        calls_in_order(s, init, addr);
        let t = after_calls(s, init);
        let u = after_calls(s, calls);
        let h = packets_of(forwardings(s, init));
        let batch = batch_of(t, c);
        let given = packets_of(init);
        assert(packets_of(forwardings(s, calls)) =~= h + batch);
        assert(packets_of(calls) =~= given + seq![c.m]);
        Seq::filter_distributes_over_add(h, batch, pred);
        Seq::filter_distributes_over_add(given, seq![c.m], pred);
        let one = seq![c.m].filter(pred);
        call_in_order(t, c, addr);
        let after = waiting_from(u.parent_buffer, addr);
        let between = waiting_from(t.parent_buffer, addr);
        assert((h.filter(pred) + batch.filter(pred)) + after =~= h.filter(pred) + (batch.filter(
            pred,
        ) + after));
        assert(h.filter(pred) + (between + one) =~= (h.filter(pred) + between) + one);
        assert((w + given.filter(pred)) + one =~= w + (given.filter(pred) + one));
    }
}

/// How many of the first `p` packets came from parent `addr`.
pub open spec fn rank(calls: Seq<Call>, addr: ReplicaAddr, p: int) -> nat {
    packets_of(calls).take(p).filter(|m: PacketModel| is_from(m, addr)).len()
}

/// The packet of call `i` is the one that is forwarded at place `p`: it is from the same parent,
/// and as many from that parent were forwarded before as came before.
pub open spec fn forwarded_at(
    s: SharderModel,
    calls: Seq<Call>,
    addr: ReplicaAddr,
    i: int,
    p: int,
) -> bool {
    let h = forwardings(s, calls);
    &&& 0 <= i < calls.len() && is_from(calls[i].m, addr)
    &&& 0 <= p < h.len() && is_from(h[p].m, addr)
    &&& rank(h, addr, p) == waiting_from(s.parent_buffer, addr).len() + rank(calls, addr, i)
}

/// The packet that is forwarded for a call is the packet of the call. Each is forwarded at one
/// place, or still waits in the place that its parent has in the buffer.
pub proof fn call_is_forwarded_or_waits(
    s: SharderModel,
    calls: Seq<Call>,
    addr: ReplicaAddr,
    i: int,
)
    requires
        sorted_by_parent(s.parent_buffer),
        waits_for_targets(s),
        can_call(s, calls),
        0 <= i < calls.len(),
        is_from(calls[i].m, addr),
    ensures
        forall|p: int| #[trigger]
            forwarded_at(s, calls, addr, i, p) ==> forwardings(s, calls)[p].m == calls[i].m,
        forall|p: int, r: int|
            #![trigger forwarded_at(s, calls, addr, i, p), forwarded_at(s, calls, addr, i, r)]
            forwarded_at(s, calls, addr, i, p) && forwarded_at(s, calls, addr, i, r) ==> p == r,
        (exists|p: int| #[trigger] forwarded_at(s, calls, addr, i, p)) || waiting_from(
            after_calls(s, calls).parent_buffer,
            addr,
        ).contains(calls[i].m),
{
    let pred = |m: PacketModel| is_from(m, addr);
    let h = forwardings(s, calls);
    let given = packets_of(calls);
    let done = packets_of(h);
    let w = waiting_from(s.parent_buffer, addr);
    let left = waiting_from(after_calls(s, calls).parent_buffer, addr);
    let n = w.len() + rank(calls, addr, i);
    calls_in_order(s, calls, addr);
    lemma_filter_rank(given, i, pred);
    assert((w + given.filter(pred))[n as int] == calls[i].m);
    assert((done.filter(pred) + left)[n as int] == calls[i].m);
    assert forall|p: int| #[trigger] forwarded_at(s, calls, addr, i, p) implies h[p].m
        == calls[i].m by {
        lemma_filter_rank(done, p, pred);
    }
    assert forall|p: int, r: int|
        #![trigger forwarded_at(s, calls, addr, i, p), forwarded_at(s, calls, addr, i, r)]
        forwarded_at(s, calls, addr, i, p) && forwarded_at(s, calls, addr, i, r) implies p == r by {
        if p < r {
            lemma_filter_rank_order(done, p, r, pred);
        } else if r < p {
            lemma_filter_rank_order(done, r, p, pred);
        }
    }
    if n < done.filter(pred).len() {
        let p = lemma_filter_unrank(done, n, pred);
        assert(done[p] == h[p].m);
        assert(forwarded_at(s, calls, addr, i, p));
    } else {
        let k = n - done.filter(pred).len();
        assert(0 <= k < left.len());
        assert(left[k] == calls[i].m);
    }
}

/// Every packet of `h` gets a label that is a machine word.
pub open spec fn labels_fit(s: SharderModel, h: Seq<Call>) -> bool {
    forall|k: int|
        0 <= k < h.len() ==> passed_on(s, h.take(k)).label_for((#[trigger] h[k]).m) <= usize::MAX
}

proof fn settled_labels_fit(s: SharderModel, from: DomainIndex, is_sharded: bool, k: int)
    requires
        s.can_settle(from, is_sharded),
        0 <= k < settled_batch(s, from).len(),
    ensures
        s.passed_all(settled_batch(s, from).take(k), from).label_for(settled_batch(s, from)[k])
            <= usize::MAX,
    decreases s.targets.len(),
{
    let ms = settled_batch(s, from);
    let a = s.next_batch();
    if k < a.len() {
        assert(ms.take(k) =~= a.take(k));
        assert(s.passed_all(a.take(k), from).can_forward(a[k], is_sharded));
    } else {
        let t = s.next_target(from);
        let b = ms.skip(a.len() as int);
        let j = k - a.len();
        let mid = s.passed_all(a, from);
        s.lemma_passed_frame(Map::empty(), a, from, 0, s.parent_buffer, s.targets);
        assert(t == (SharderModel {
            parent_buffer: t.parent_buffer,
            targets: t.targets,
            ..mid
        }));
        mid.lemma_passed_frame(Map::empty(), b.take(j), from, 0, t.parent_buffer, t.targets);
        s.lemma_passed_add(Map::empty(), a, b.take(j), from, 0);
        assert(ms.take(k) =~= a + b.take(j));
        if s.targets.len() == 1 {
            let rest = all_waiting(s.advanced(from).parent_buffer);
            assert(b =~= rest);
            assert(t.passed_all(rest.take(j), from).can_forward(rest[j], is_sharded));
        } else {
            assert(b =~= settled_batch(t, from));
            settled_labels_fit(t, from, is_sharded, j);
        }
        assert(t.passed_all(b.take(j), from).label_for(b[j]) <= usize::MAX);
    }
}

proof fn call_labels_fit(s: SharderModel, c: Call)
    requires
        s.can_send(c.m, c.from, c.is_sharded),
    ensures
        labels_fit(s, by_call(batch_of(s, c), c)),
{
    let ms = batch_of(s, c);
    let h = by_call(ms, c);
    assert forall|k: int| 0 <= k < h.len() implies passed_on(s, h.take(k)).label_for(
        (#[trigger] h[k]).m,
    ) <= usize::MAX by {
        assert(h.take(k) =~= by_call(ms.take(k), c));
        lemma_by_call(s, Map::empty(), ms.take(k), c);
        if s.targets.len() > 0 {
            let t = s.buffered(c.m);
            settled_labels_fit(t, c.from, c.is_sharded, k);
            s.lemma_passed_frame(
                Map::empty(),
                ms.take(k),
                c.from,
                c.index,
                t.parent_buffer,
                t.targets,
            );
            assert(t == (SharderModel { parent_buffer: t.parent_buffer, targets: t.targets, ..s }));
        }
    }
}

/// Over any number of calls, every label that is given is a machine word.
pub proof fn calls_labels_fit(s: SharderModel, calls: Seq<Call>)
    requires
        can_call(s, calls),
    ensures
        labels_fit(s, forwardings(s, calls)),
    decreases calls.len(),
{
    if calls.len() > 0 {
        let init = calls.drop_last();
        let c = calls.last();
        calls_labels_fit(s, init);
        let t = after_calls(s, init);
        let a = forwardings(s, init);
        let b = by_call(batch_of(t, c), c);
        let h = a + b;
        call_labels_fit(t, c);
        calls_forward(s, Map::empty(), init);
        let mid = passed_on(s, a);
        assert forall|k: int| 0 <= k < h.len() implies passed_on(s, h.take(k)).label_for(
            (#[trigger] h[k]).m,
        ) <= usize::MAX by {
            if k < a.len() {
                assert(h.take(k) =~= a.take(k));
                assert(h[k] == a[k]);
            } else {
                let j = k - a.len();
                assert(h.take(k) =~= a + b.take(j));
                assert(h[k] == b[j]);
                lemma_passed_on_add(s, Map::empty(), a, b.take(j));
                lemma_passed_on_frame(
                    mid,
                    Map::empty(),
                    b.take(j),
                    t.parent_buffer,
                    t.targets,
                );
                assert(t == (SharderModel {
                    parent_buffer: t.parent_buffer,
                    targets: t.targets,
                    ..mid
                }));
                assert(passed_on(t, b.take(j)).label_for(b[j].m) <= usize::MAX);
            }
        }
    }
}

/// Messages that are kept stay.
pub proof fn lemma_payloads_grow(s: SharderModel, a: Seq<Call>, b: Seq<Call>)
    ensures
        passed_on(s, a).payloads.len() <= passed_on(s, a + b).payloads.len(),
    decreases b.len(),
{
    if b.len() == 0 {
        assert(a + b =~= a);
    } else {
        lemma_payloads_grow(s, a, b.drop_last());
        assert((a + b).drop_last() =~= a + b.drop_last());
    }
}

/// What waits in the queues stays, and what is forwarded comes behind it.
pub proof fn lemma_queues_grow(s: SharderModel, q: QueueModel, a: Seq<Call>, b: Seq<Call>)
    ensures
        extended_by(queues_on(s, q, a), queues_on(s, q, a + b)),
    decreases b.len(),
{
    if b.len() == 0 {
        assert(a + b =~= a);
        lemma_extended_refl(queues_on(s, q, a));
    } else {
        let init = a + b.drop_last();
        lemma_queues_grow(s, q, a, b.drop_last());
        assert((a + b).drop_last() =~= init);
        let t = passed_on(s, init);
        let m = (a + b).last().m;
        let from = (a + b).last().from;
        routed_extends(
            t.routes,
            t.stamped(m, from),
            t.prepared(m, from).max_provenance.label,
            (a + b).last().index,
            queues_on(s, q, init),
            t.routes.txs.len(),
        );
        lemma_extended_trans(
            queues_on(s, q, a),
            queues_on(s, q, init),
            queues_on(s, q, a + b),
        );
    }
}

/// What is sent in the place of the packet at `p`.
pub open spec fn stamped_at(s: SharderModel, h: Seq<Call>, p: int) -> PacketModel {
    passed_on(s, h.take(p)).stamped(h[p].m, h[p].from)
}

/// The packet at `p` goes to shard `i`.
pub open spec fn goes_to(s: SharderModel, h: Seq<Call>, p: int, i: int) -> bool {
    0 <= i < s.routes.txs.len() && s.routes.sends_to(
        stamped_at(s, h, p),
        passed_on(s, h.take(p + 1)).max_provenance.label,
        i,
    )
}

/// Where the part of the packet at `p` begins in the queue for `child`; it ends where that of
/// the packet at `p + 1` begins.
pub open spec fn start_of(
    s: SharderModel,
    q: QueueModel,
    h: Seq<Call>,
    child: ReplicaAddr,
    p: int,
) -> nat {
    queue_for(queues_on(s, q, h.take(p)), child).len()
}

/// Packet `p` is the part of `m` for one of the first `n` shards that `m` goes to, one of replica
/// `child`.
pub open spec fn is_part(
    routes: Routes,
    m: PacketModel,
    label: usize,
    index: LocalNodeIndex,
    n: nat,
    child: ReplicaAddr,
    p: PacketModel,
) -> bool {
    exists|i: int|
        0 <= i < n && #[trigger] routes.sends_to(m, label, i) && routes.txs[i].1 == child
            && routes.part(m, index, i) == p
}

/// Packet `p` stands in the queue, from place `start` on and before place `end`.
pub open spec fn stands_in(queue: Seq<PacketModel>, start: nat, end: nat, p: PacketModel) -> bool {
    exists|x: int| start <= x < end && #[trigger] queue[x] == p
}

/// Packet `a` stands in the queue, and packet `b` behind it.
pub open spec fn stands_before(queue: Seq<PacketModel>, a: PacketModel, b: PacketModel) -> bool {
    exists|x: int, y: int|
        0 <= x < y < queue.len() && #[trigger] queue[x] == a && #[trigger] queue[y] == b
}

/// What a packet adds to the queue of a replica are its parts for the shards of that replica
/// that it goes to, each of them.
pub proof fn routed_adds_parts(
    routes: Routes,
    m: PacketModel,
    label: usize,
    index: LocalNodeIndex,
    q: QueueModel,
    n: nat,
    child: ReplicaAddr,
)
    requires
        n <= routes.txs.len(),
    ensures
        ({
            let before = queue_for(q, child);
            let after = queue_for(routes.routed(m, label, index, q, n), child);
            &&& before.len() <= after.len()
            &&& forall|x: int|
                before.len() <= x < after.len() ==> is_part(
                    routes,
                    m,
                    label,
                    index,
                    n,
                    child,
                    #[trigger] after[x],
                )
            &&& forall|i: int|
                0 <= i < n && #[trigger] routes.sends_to(m, label, i) && routes.txs[i].1 == child
                    ==> stands_in(after, before.len(), after.len(), routes.part(m, index, i))
        }),
    decreases n,
{
    if n > 0 {
        routed_adds_parts(routes, m, label, index, q, (n - 1) as nat, child);
        let first = queue_for(q, child);
        let before = queue_for(routes.routed(m, label, index, q, (n - 1) as nat), child);
        let after = queue_for(routes.routed(m, label, index, q, n), child);
        let more = routes.sends_to(m, label, n - 1) && routes.txs[n - 1].1 == child;
        assert(after == if more {
            before.push(routes.part(m, index, n - 1))
        } else {
            before
        });
        assert forall|x: int| first.len() <= x < after.len() implies is_part(
            routes,
            m,
            label,
            index,
            n,
            child,
            #[trigger] after[x],
        ) by {
            if x < before.len() {
                assert(after[x] == before[x]);
                assert(is_part(routes, m, label, index, (n - 1) as nat, child, before[x]));
            }
        }
        assert forall|i: int|
            0 <= i < n && #[trigger] routes.sends_to(m, label, i) && routes.txs[i].1
                == child implies stands_in(
            after,
            first.len(),
            after.len(),
            routes.part(m, index, i),
        ) by {
            let part = routes.part(m, index, i);
            if i < n - 1 {
                assert(stands_in(before, first.len(), before.len(), part));
                let x = choose|x: int|
                    first.len() <= x < before.len() && #[trigger] before[x] == part;
                assert(after[x] == part);
            } else {
                assert(after[before.len() as int] == part);
            }
        }
    }
}

/// Of two messages, the one that was forwarded earlier gets the smaller label.
pub proof fn labels_in_order(s: SharderModel, h: Seq<Call>, p: int, r: int)
    requires
        0 <= p < r < h.len(),
        labels_fit(s, h),
        h[p].m is Message,
        h[r].m is Message,
    ensures
        stamped_at(s, h, p).id()->0.label < stamped_at(s, h, r).id()->0.label,
{
    let t = passed_on(s, h.take(p));
    let u = passed_on(s, h.take(r));
    assert(h.take(p + 1).drop_last() =~= h.take(p));
    assert(h.take(r) =~= h.take(p + 1) + h.subrange(p + 1, r));
    lemma_payloads_grow(s, h.take(p + 1), h.subrange(p + 1, r));
    assert(passed_on(s, h.take(p + 1)).payloads.len() == t.payloads.len() + 1);
    lemma_passed_on_frame(s, Map::empty(), h.take(p), s.parent_buffer, s.targets);
    lemma_passed_on_frame(s, Map::empty(), h.take(r), s.parent_buffer, s.targets);
    assert(t.label_for(h[p].m) <= usize::MAX);
    assert(u.label_for(h[r].m) <= usize::MAX);
    lemma_stamped_label(t, h[p].m, h[p].from);
    lemma_stamped_label(u, h[r].m, h[r].from);
}

proof fn lemma_stamped_label(s: SharderModel, m: PacketModel, from: DomainIndex)
    requires
        m is Message,
    ensures
        s.stamped(m, from).id()->0.label == s.label_for(m) as usize,
{
}

/// What is forwarded later begins no earlier in a queue.
pub proof fn lemma_starts_grow(
    s: SharderModel,
    q: QueueModel,
    h: Seq<Call>,
    child: ReplicaAddr,
    p: int,
    r: int,
)
    requires
        0 <= p <= r <= h.len(),
    ensures
        start_of(s, q, h, child, p) <= start_of(s, q, h, child, r),
{
    assert(h.take(r) =~= h.take(p) + h.subrange(p, r));
    lemma_queues_grow(s, q, h.take(p), h.subrange(p, r));
    assert(queue_for(queues_on(s, q, h.take(p)), child).is_prefix_of(
        queue_for(queues_on(s, q, h.take(r)), child),
    ));
}

/// Between where its part begins and where it ends, the queue of a replica holds the parts of a
/// packet for the shards of that replica that it goes to, each of them.
pub proof fn part_in_queue(
    s: SharderModel,
    q: QueueModel,
    h: Seq<Call>,
    p: int,
    child: ReplicaAddr,
)
    requires
        0 <= p < h.len(),
    ensures
        ({
            let queue = queue_for(queues_on(s, q, h), child);
            let start = start_of(s, q, h, child, p);
            let end = start_of(s, q, h, child, p + 1);
            let m = stamped_at(s, h, p);
            let label = passed_on(s, h.take(p + 1)).max_provenance.label;
            &&& start <= end <= queue.len()
            &&& forall|x: int|
                start <= x < end ==> is_part(
                    s.routes,
                    m,
                    label,
                    h[p].index,
                    s.routes.txs.len(),
                    child,
                    #[trigger] queue[x],
                )
            &&& forall|i: int| #[trigger]
                goes_to(s, h, p, i) && s.routes.txs[i].1 == child ==> stands_in(
                    queue,
                    start,
                    end,
                    s.routes.part(m, h[p].index, i),
                )
        }),
{
    let q0 = queues_on(s, q, h.take(p));
    let queue = queue_for(queues_on(s, q, h), child);
    let added = queue_for(queues_on(s, q, h.take(p + 1)), child);
    let m = stamped_at(s, h, p);
    let label = passed_on(s, h.take(p + 1)).max_provenance.label;
    let start = start_of(s, q, h, child, p);
    let end = start_of(s, q, h, child, p + 1);
    let n = s.routes.txs.len();
    assert(h.take(p + 1).drop_last() =~= h.take(p));
    assert(h =~= h.take(p + 1) + h.skip(p + 1));
    lemma_passed_on_frame(s, q, h.take(p), s.parent_buffer, s.targets);
    routed_adds_parts(s.routes, m, label, h[p].index, q0, n, child);
    assert(queues_on(s, q, h.take(p + 1)) == s.routes.routed(m, label, h[p].index, q0, n));
    lemma_queues_grow(s, q, h.take(p + 1), h.skip(p + 1));
    assert(queue_for(queues_on(s, q, h.take(p + 1)), child).is_prefix_of(queue));
    assert forall|x: int| 0 <= x < end implies added[x] == #[trigger] queue[x] by {
        assert(added[x] == queue.subrange(0, added.len() as int)[x]);
    }
    assert forall|x: int| start <= x < end implies is_part(
        s.routes,
        m,
        label,
        h[p].index,
        n,
        child,
        #[trigger] queue[x],
    ) by {
        assert(is_part(s.routes, m, label, h[p].index, n, child, added[x]));
    }
    assert forall|i: int| #[trigger]
        goes_to(s, h, p, i) && s.routes.txs[i].1 == child implies stands_in(
        queue,
        start,
        end,
        s.routes.part(m, h[p].index, i),
    ) by {
        let part = s.routes.part(m, h[p].index, i);
        assert(s.routes.sends_to(m, label, i));
        assert(stands_in(added, start, end, part));
        let x = choose|x: int| start <= x < end && #[trigger] added[x] == part;
        assert(queue[x] == part);
    }
}

/// What a queue got of the packet that was forwarded earlier stands before all that it got of
/// the later one.
pub proof fn parts_in_order(
    s: SharderModel,
    q: QueueModel,
    h: Seq<Call>,
    p: int,
    r: int,
    child: ReplicaAddr,
)
    requires
        0 <= p < r < h.len(),
    ensures
        start_of(s, q, h, child, p) <= start_of(s, q, h, child, p + 1) <= start_of(
            s,
            q,
            h,
            child,
            r,
        ) <= start_of(s, q, h, child, r + 1) <= queue_for(queues_on(s, q, h), child).len(),
        forall|k: int, l: int|
            #![trigger goes_to(s, h, p, k), goes_to(s, h, r, l)]
            goes_to(s, h, p, k) && goes_to(s, h, r, l) && s.routes.txs[k].1 == child
                && s.routes.txs[l].1 == child ==> stands_before(
                queue_for(queues_on(s, q, h), child),
                s.routes.part(stamped_at(s, h, p), h[p].index, k),
                s.routes.part(stamped_at(s, h, r), h[r].index, l),
            ),
{
    lemma_starts_grow(s, q, h, child, p, p + 1);
    lemma_starts_grow(s, q, h, child, p + 1, r);
    lemma_starts_grow(s, q, h, child, r, r + 1);
    part_in_queue(s, q, h, p, child);
    part_in_queue(s, q, h, r, child);
    let queue = queue_for(queues_on(s, q, h), child);
    assert forall|k: int, l: int|
        #![trigger goes_to(s, h, p, k), goes_to(s, h, r, l)]
        goes_to(s, h, p, k) && goes_to(s, h, r, l) && s.routes.txs[k].1 == child
            && s.routes.txs[l].1 == child implies stands_before(
        queue,
        s.routes.part(stamped_at(s, h, p), h[p].index, k),
        s.routes.part(stamped_at(s, h, r), h[r].index, l),
    ) by {
        let a = s.routes.part(stamped_at(s, h, p), h[p].index, k);
        let b = s.routes.part(stamped_at(s, h, r), h[r].index, l);
        let (a0, a1) = (start_of(s, q, h, child, p), start_of(s, q, h, child, p + 1));
        let (b0, b1) = (start_of(s, q, h, child, r), start_of(s, q, h, child, r + 1));
        assert(stands_in(queue, a0, a1, a));
        assert(stands_in(queue, b0, b1, b));
        let x = choose|x: int| a0 <= x < a1 && #[trigger] queue[x] == a;
        let y = choose|y: int| b0 <= y < b1 && #[trigger] queue[y] == b;
        assert(queue[x] == a && queue[y] == b);
    }
}

proof fn arrival_is_place(
    s: SharderModel,
    calls: Seq<Call>,
    addr: ReplicaAddr,
    i: int,
    j: int,
    p: int,
    r: int,
)
    requires
        i < j,
        forwarded_at(s, calls, addr, i, p),
        forwarded_at(s, calls, addr, j, r),
    ensures
        p < r,
{
    let pred = |m: PacketModel| is_from(m, addr);
    let h = forwardings(s, calls);
    lemma_filter_rank_order(packets_of(calls), i, j, pred);
    assert(rank(h, addr, p) < rank(h, addr, r));
    if r < p {
        lemma_filter_rank_order(packets_of(h), r, p, pred);
    }
}

/// Order of arrival is kept for each parent. Of two packets of one parent that were handed to
/// `send_packet`, the one after the other, and were both forwarded, the earlier was forwarded
/// earlier. If both are messages it got the smaller label, and in every queue that got something
/// of both, all that it got of the earlier stands before all that it got of the later.
pub proof fn arrival_order_is_kept(
    s: SharderModel,
    q: QueueModel,
    calls: Seq<Call>,
    addr: ReplicaAddr,
    i: int,
    j: int,
    p: int,
    r: int,
    child: ReplicaAddr,
)
    requires
        sorted_by_parent(s.parent_buffer),
        waits_for_targets(s),
        can_call(s, calls),
        i < j,
        forwarded_at(s, calls, addr, i, p),
        forwarded_at(s, calls, addr, j, r),
    ensures
        p < r,
        ({
            let h = forwardings(s, calls);
            let queue = queue_for(queues_after_calls(s, q, calls), child);
            &&& h[p].m == calls[i].m
            &&& h[r].m == calls[j].m
            &&& calls[i].m is Message && calls[j].m is Message ==> stamped_at(
                s,
                h,
                p,
            ).id()->0.label < stamped_at(s, h, r).id()->0.label
            &&& start_of(s, q, h, child, p) <= start_of(s, q, h, child, p + 1) <= start_of(
                s,
                q,
                h,
                child,
                r,
            ) <= start_of(s, q, h, child, r + 1) <= queue.len()
        }),
        forall|k: int, l: int|
            #![trigger goes_to(s, forwardings(s, calls), p, k), goes_to(
                s,
                forwardings(s, calls),
                r,
                l,
            )]
            goes_to(s, forwardings(s, calls), p, k) && goes_to(s, forwardings(s, calls), r, l)
                && s.routes.txs[k].1 == child && s.routes.txs[l].1 == child ==> {
                let h = forwardings(s, calls);
                stands_before(
                    queue_for(queues_after_calls(s, q, calls), child),
                    s.routes.part(stamped_at(s, h, p), h[p].index, k),
                    s.routes.part(stamped_at(s, h, r), h[r].index, l),
                )
            },
{
    let h = forwardings(s, calls);
    arrival_is_place(s, calls, addr, i, j, p, r);
    assert(h[p].m == calls[i].m) by {
        call_is_forwarded_or_waits(s, calls, addr, i);
    }
    assert(h[r].m == calls[j].m) by {
        call_is_forwarded_or_waits(s, calls, addr, j);
    }
    assert(queues_after_calls(s, q, calls) == queues_on(s, q, h)) by {
        calls_forward(s, q, calls);
    }
    if calls[i].m is Message && calls[j].m is Message {
        calls_labels_fit(s, calls);
        labels_in_order(s, h, p, r);
    }
    parts_in_order(s, q, h, p, r, child);
}

} // verus!
