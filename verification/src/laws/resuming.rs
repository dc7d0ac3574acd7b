//! What holds of the labels in the queues, over any number of calls of `send_packet`, and so
//! after sending was resumed.

use vstd::prelude::*;
use crate::ids::ReplicaAddr;
use crate::laws::labels::{
    consistent, latest_label, prepared_consistent, replay_changes_nothing, resumed_consistent,
};
use crate::laws::order::{
    calls_forward, calls_labels_fit, can_call, forwardings, is_part, labels_fit,
    lemma_passed_on_frame, lemma_payloads_grow, lemma_queues_grow, lemma_starts_grow,
    part_in_queue, passed_on, queues_after_calls, queues_on, stamped_at, start_of, Call,
};
use crate::laws::routing::{one_shard_each, queue_for, routed_packet};
use crate::laws::sending::relabelled_replica;
use crate::model::{QueueModel, SharderModel};
use crate::packet::PacketModel;
use crate::provenance::ProvTree;

verus! {

/// The label of a packet in a queue.
pub open spec fn label_of(m: PacketModel) -> usize {
    m.id()->0.label
}

/// A sharder stays consistent as packets are forwarded, and each is sent with the label that it
/// carries.
proof fn label_at(s: SharderModel, h: Seq<Call>, p: int)
    requires
        consistent(s),
        labels_fit(s, h),
        0 <= p < h.len(),
    ensures
        consistent(passed_on(s, h.take(p))),
        consistent(passed_on(s, h.take(p + 1))),
        stamped_at(s, h, p).id() is Some,
        label_of(stamped_at(s, h, p)) == passed_on(s, h.take(p + 1)).max_provenance.label,
        label_of(stamped_at(s, h, p)) == passed_on(s, h.take(p)).max_provenance.label
            + if h[p].m is Message {
            1int
        } else {
            0
        },
        (stamped_at(s, h, p) is Message) == (h[p].m is Message),
    decreases p,
{
    if p > 0 {
        label_at(s, h, p - 1);
    } else {
        assert(h.take(0) =~= Seq::empty());
    }
    let t = passed_on(s, h.take(p));
    let m = h[p].m;
    let from = h[p].from;
    assert(h.take(p + 1).drop_last() =~= h.take(p));
    assert(t.label_for(m) <= usize::MAX);
    let u = SharderModel { targets: Seq::empty(), ..t };
    assert(consistent(u));
    assert(u.stamped(m, from) == t.stamped(m, from));
    assert(u.prepared(m, from).max_provenance == t.passed(m, from).max_provenance);
    prepared_consistent(u, m, from);
    if !(m is Message) {
        replay_changes_nothing(u, m, from);
    }
    assert(consistent(t.passed(m, from)));
}

/// The place in `h` of the packet that stands at place `x` of a queue.
proof fn lemma_place(
    s: SharderModel,
    q: QueueModel,
    h: Seq<Call>,
    child: ReplicaAddr,
    x: int,
    n: int,
) -> (p: int)
    requires
        0 <= n <= h.len(),
        queue_for(q, child).len() <= x < start_of(s, q, h, child, n),
    ensures
        0 <= p < n,
        start_of(s, q, h, child, p) <= x < start_of(s, q, h, child, p + 1),
    decreases n,
{
    if n == 0 {
        assert(h.take(0) =~= Seq::empty());
        0
    } else if x < start_of(s, q, h, child, n - 1) {
        lemma_place(s, q, h, child, x, n - 1)
    } else {
        n - 1
    }
}

/// What stands at a place of a queue carries the label that it was sent with, which, for a
/// message, is not below the least one of the replica.
proof fn lemma_at_place(
    s: SharderModel,
    q: QueueModel,
    h: Seq<Call>,
    child: ReplicaAddr,
    x: int,
    p: int,
)
    requires
        consistent(s),
        labels_fit(s, h),
        0 <= p < h.len(),
        start_of(s, q, h, child, p) <= x < start_of(s, q, h, child, p + 1),
    ensures
        ({
            let m = queue_for(queues_on(s, q, h), child)[x];
            &&& m.id() == stamped_at(s, h, p).id()
            &&& m.id() is Some
            &&& (m is Message) == (h[p].m is Message)
            &&& m is Message ==> label_of(m) >= s.routes.min_label_to_send[child]
        }),
{
    let queue = queue_for(queues_on(s, q, h), child);
    let m = stamped_at(s, h, p);
    let label = passed_on(s, h.take(p + 1)).max_provenance.label;
    let index = h[p].index;
    let n = s.routes.txs.len();
    label_at(s, h, p);
    part_in_queue(s, q, h, p, child);
    assert(is_part(s.routes, m, label, index, n, child, queue[x]));
    let i = choose|i: int|
        0 <= i < n && #[trigger] s.routes.sends_to(m, label, i) && s.routes.txs[i].1 == child
            && s.routes.part(m, index, i) == queue[x];
    assert(s.routes.sends_to(m, label, i));
}

/// A queue gets at most one packet for each that is forwarded.
proof fn lemma_one_each(
    s: SharderModel,
    q: QueueModel,
    h: Seq<Call>,
    child: ReplicaAddr,
    p: int,
)
    requires
        one_shard_each(s.routes),
        0 <= p < h.len(),
    ensures
        start_of(s, q, h, child, p + 1) <= start_of(s, q, h, child, p) + 1,
{
    let q0 = queues_on(s, q, h.take(p));
    let q1 = queues_on(s, q, h.take(p + 1));
    let m = stamped_at(s, h, p);
    let label = passed_on(s, h.take(p + 1)).max_provenance.label;
    assert(h.take(p + 1).drop_last() =~= h.take(p));
    lemma_passed_on_frame(s, q, h.take(p), s.parent_buffer, s.targets);
    assert(q1 == s.routes.routed(m, label, h[p].index, q0, s.routes.txs.len()));
    routed_packet(s.routes, m, label, h[p].index, q0);
    if exists|i: int| 0 <= i < s.routes.txs.len() && (#[trigger] s.routes.txs[i]).1 == child {
        let i = choose|i: int|
            0 <= i < s.routes.txs.len() && (#[trigger] s.routes.txs[i]).1 == child;
        assert(queue_for(q1, s.routes.txs[i].1).len() <= queue_for(q0, child).len() + 1);
    } else {
        assert(queue_for(q1, child) == queue_for(q0, child));
    }
}

proof fn labels_at_places(s: SharderModel, h: Seq<Call>, p: int, r: int)
    requires
        consistent(s),
        labels_fit(s, h),
        0 <= p < r < h.len(),
    ensures
        label_of(stamped_at(s, h, p)) + (if h[r].m is Message {
            1int
        } else {
            0
        }) <= label_of(stamped_at(s, h, r)),
{
    label_at(s, h, p);
    label_at(s, h, r);
    let t = passed_on(s, h.take(p + 1));
    let u = passed_on(s, h.take(r));
    assert(h.take(r) =~= h.take(p + 1) + h.subrange(p + 1, r));
    lemma_payloads_grow(s, h.take(p + 1), h.subrange(p + 1, r));
    lemma_passed_on_frame(s, Map::empty(), h.take(p + 1), s.parent_buffer, s.targets);
    lemma_passed_on_frame(s, Map::empty(), h.take(r), s.parent_buffer, s.targets);
    latest_label(t);
    latest_label(u);
}

/// What is sent over any number of calls is put behind what waits already; every message that a
/// replica gets has at least the least label of the replica.
pub proof fn messages_have_least_label(
    s: SharderModel,
    q: QueueModel,
    calls: Seq<Call>,
    child: ReplicaAddr,
    x: int,
)
    requires
        consistent(s),
        can_call(s, calls),
        queue_for(q, child).len() <= x < queue_for(queues_after_calls(s, q, calls), child).len(),
    ensures
        ({
            let m = queue_for(queues_after_calls(s, q, calls), child)[x];
            &&& m.id() is Some
            &&& m is Message ==> label_of(m) >= s.routes.min_label_to_send[child]
        }),
        queue_for(q, child).is_prefix_of(queue_for(queues_after_calls(s, q, calls), child)),
{
    let h = forwardings(s, calls);
    calls_forward(s, q, calls);
    calls_labels_fit(s, calls);
    assert(h.take(h.len() as int) =~= h);
    let p = lemma_place(s, q, h, child, x, h.len() as int);
    lemma_at_place(s, q, h, child, x, p);
    assert(Seq::<Call>::empty() + h =~= h);
    lemma_queues_grow(s, q, Seq::empty(), h);
    assert(queue_for(queues_on(s, q, Seq::empty()), child).is_prefix_of(
        queue_for(queues_on(s, q, h), child),
    ));
}

/// Over any number of calls, the labels of what a replica gets never fall, and every message
/// has a greater label than all that the replica got before: no message comes twice.
pub proof fn queue_labels_rise(
    s: SharderModel,
    q: QueueModel,
    calls: Seq<Call>,
    child: ReplicaAddr,
    x: int,
    y: int,
)
    requires
        consistent(s),
        one_shard_each(s.routes),
        can_call(s, calls),
        queue_for(q, child).len() <= x < y < queue_for(
            queues_after_calls(s, q, calls),
            child,
        ).len(),
    ensures
        ({
            let queue = queue_for(queues_after_calls(s, q, calls), child);
            &&& label_of(queue[x]) <= label_of(queue[y])
            &&& queue[y] is Message ==> label_of(queue[x]) < label_of(queue[y])
        }),
{
    let h = forwardings(s, calls);
    calls_forward(s, q, calls);
    calls_labels_fit(s, calls);
    assert(h.take(h.len() as int) =~= h);
    let p = lemma_place(s, q, h, child, x, h.len() as int);
    let r = lemma_place(s, q, h, child, y, h.len() as int);
    lemma_at_place(s, q, h, child, x, p);
    lemma_at_place(s, q, h, child, y, r);
    if r < p {
        lemma_starts_grow(s, q, h, child, r + 1, p);
    } else if r == p {
        lemma_one_each(s, q, h, child, p);
    } else {
        labels_at_places(s, h, p, r);
    }
}

/// Once sending was resumed, no message is sent twice, over any number of calls: every message
/// that a replica gets has at least the label at which sending to it was resumed, and a greater
/// one than all that the replica got since.
pub proof fn resumed_sends_no_duplicates(
    s: SharderModel,
    labels: Seq<(ReplicaAddr, usize)>,
    targets: Seq<ProvTree>,
    k: int,
    q: QueueModel,
    calls: Seq<Call>,
    x: int,
    y: int,
)
    requires
        consistent(s),
        one_shard_each(s.routes),
        s.can_resume(labels),
        0 <= k < labels.len(),
        forall|j: int| k < j < labels.len() ==> (#[trigger] labels[j]).0 != labels[k].0,
        can_call(s.resumed(labels, targets), calls),
        queue_for(q, labels[k].0).len() <= x <= y < queue_for(
            queues_after_calls(s.resumed(labels, targets), q, calls),
            labels[k].0,
        ).len(),
    ensures
        ({
            let queue = queue_for(
                queues_after_calls(s.resumed(labels, targets), q, calls),
                labels[k].0,
            );
            &&& queue[y].id() is Some
            &&& queue[y] is Message ==> label_of(queue[y]) >= labels[k].1
            &&& label_of(queue[x]) <= label_of(queue[y])
            &&& x < y && queue[y] is Message ==> label_of(queue[x]) < label_of(queue[y])
        }),
{
    let t = s.resumed(labels, targets);
    resumed_consistent(s, labels, targets);
    relabelled_replica(s.routes.min_label_to_send, labels, k);
    messages_have_least_label(t, q, calls, labels[k].0, y);
    if x < y {
        queue_labels_rise(t, q, calls, labels[k].0, x, y);
    }
}

} // verus!
