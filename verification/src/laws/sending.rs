//! What holds when packets are buffered, forwarded towards targets, and sent again.

use vstd::prelude::*;
use crate::assoc::{
    as_map, find, get, holds, lemma_find, lemma_find_is, lemma_put_distinct,
    lemma_put_map, put,
};
use crate::filter::{lemma_filter_all, lemma_filter_none};
use crate::ids::{DomainIndex, LocalNodeIndex, ReplicaAddr};
use crate::laws::routing::{extended_by, lemma_extended_refl, lemma_extended_trans, routed_extends};
use crate::model::{
    all_from, all_waiting, called_for, is_from, labelled, least_label, lemma_ready, noted_labels,
    ready, relabelled, remaining, sorted_by_parent, unlabelled, QueueModel, SharderModel, Waiting,
};
use crate::packet::PacketModel;
use crate::provenance::ProvTree;

verus! {

proof fn forwarded_all_extends(
    s: SharderModel,
    q: QueueModel,
    ms: Seq<PacketModel>,
    from: DomainIndex,
    index: LocalNodeIndex,
)
    ensures
        extended_by(q, s.forwarded_all(q, ms, from, index)),
    decreases ms.len(),
{
    if ms.len() == 0 {
        lemma_extended_refl(q);
    } else {
        let init = ms.drop_last();
        forwarded_all_extends(s, q, init, from, index);
        let before = s.forwarded_all(q, init, from, index);
        let t = s.passed_all(init, from);
        routed_extends(
            t.routes,
            t.stamped(ms.last(), from),
            t.prepared(ms.last(), from).max_provenance.label,
            index,
            before,
            t.routes.txs.len(),
        );
        lemma_extended_trans(q, before, s.forwarded_all(q, ms, from, index));
    }
}

proof fn settled_extends(s: SharderModel, q: QueueModel, from: DomainIndex, index: LocalNodeIndex)
    ensures
        extended_by(q, s.settled_queues(q, from, index)),
    decreases s.targets.len(),
{
    lemma_extended_refl(q);
    if s.targets.len() > 0 {
        let q1 = s.forwarded_all(q, s.next_batch(), from, index);
        forwarded_all_extends(s, q, s.next_batch(), from, index);
        if s.reaches_target(from) {
            let t = s.next_target(from);
            if s.targets.len() == 1 {
                forwarded_all_extends(
                    t,
                    q1,
                    all_waiting(s.advanced(from).parent_buffer),
                    from,
                    index,
                );
            } else {
                settled_extends(t, q1, from, index);
            }
            lemma_extended_trans(q, q1, s.settled_queues(q, from, index));
        }
    }
}

/// Sending a packet changes nothing about what waits already in the queues.
pub proof fn sent_extends(
    s: SharderModel,
    q: QueueModel,
    m: PacketModel,
    from: DomainIndex,
    index: LocalNodeIndex,
)
    ensures
        extended_by(q, s.sent_queues(q, m, from, index)),
{
    if s.targets.len() == 0 {
        routed_extends(
            s.routes,
            s.stamped(m, from),
            s.prepared(m, from).max_provenance.label,
            index,
            q,
            s.routes.txs.len(),
        );
    } else {
        settled_extends(s.buffered(m), q, from, index);
    }
}

/// The label that stands last for a replica is the least one that it is sent after sending was
/// resumed.
pub proof fn relabelled_replica(
    min_label_to_send: Map<ReplicaAddr, usize>,
    labels: Seq<(ReplicaAddr, usize)>,
    k: int,
)
    requires
        0 <= k < labels.len(),
        forall|j: int| k < j < labels.len() ==> (#[trigger] labels[j]).0 != labels[k].0,
    ensures
        relabelled(min_label_to_send, labels).contains_key(labels[k].0),
        relabelled(min_label_to_send, labels)[labels[k].0] == labels[k].1,
    decreases labels.len(),
{
    if k < labels.len() - 1 {
        let init = labels.drop_last();
        assert forall|j: int| k < j < init.len() implies (#[trigger] init[j]).0 != init[k].0 by {
            assert(labels[j].0 != labels[k].0);
        }
        relabelled_replica(min_label_to_send, init, k);
        assert(labels[labels.len() - 1].0 != labels[k].0);
    }
}

/// After sending was resumed at a label, no message with a lower one goes to that replica: what
/// it got before is not sent again.
pub proof fn resumed_without_duplicates(
    s: SharderModel,
    labels: Seq<(ReplicaAddr, usize)>,
    targets: Seq<ProvTree>,
    k: int,
    m: PacketModel,
    label: usize,
    i: int,
)
    requires
        0 <= k < labels.len(),
        forall|j: int| k < j < labels.len() ==> (#[trigger] labels[j]).0 != labels[k].0,
        s.routes.txs[i].1 == labels[k].0,
        m is Message,
        label < labels[k].1,
    ensures
        !s.resumed(labels, targets).routes.sends_to(m, label, i),
{
    relabelled_replica(s.routes.min_label_to_send, labels, k);
}

/// The least label is that of some replica, and none is lower.
pub proof fn least_label_is_least(labels: Seq<(ReplicaAddr, usize)>)
    ensures
        forall|k: int| 0 <= k < labels.len() ==> least_label(labels) <= (#[trigger] labels[k]).1,
        labels.len() > 0 ==> exists|k: int|
            0 <= k < labels.len() && least_label(labels) == (#[trigger] labels[k]).1,
    decreases labels.len(),
{
    if labels.len() > 0 {
        let init = labels.drop_last();
        least_label_is_least(init);
        assert forall|k: int| 0 <= k < labels.len() implies least_label(labels) <= (
        #[trigger] labels[k]).1 by {
            if k < init.len() {
                assert(init[k] == labels[k]);
            }
        }
        if labels.last().1 < least_label(init) || init.len() == 0 {
            assert(labels[labels.len() - 1].1 == least_label(labels));
        } else {
            let k = choose|k: int| 0 <= k < init.len() && least_label(init) == (
            #[trigger] init[k]).1;
            assert(labels[k] == init[k]);
        }
    }
}

/// Once a packet was sent, either no target is left and nothing waits, or the first target that
/// is left is still ahead.
pub proof fn settled_waits_for_target(s: SharderModel, from: DomainIndex)
    requires
        s.targets.len() > 0,
    ensures
        s.settled(from).targets.len() == 0 ==> s.settled(from).parent_buffer.len() == 0,
        s.settled(from).targets.len() > 0 ==> s.settled(from).max_provenance.label < s.settled(
            from,
        ).targets[0].label,
    decreases s.targets.len(),
{
    s.lemma_passed_frame(Map::empty(), s.next_batch(), from, 0, s.parent_buffer, s.targets);
    if s.reaches_target(from) {
        let t = s.next_target(from);
        if s.targets.len() == 1 {
            t.lemma_passed_frame(
                Map::empty(),
                all_waiting(s.advanced(from).parent_buffer),
                from,
                0,
                t.parent_buffer,
                t.targets,
            );
        } else {
            settled_waits_for_target(t, from);
        }
    }
}

/// The packets that are forwarded when the buffer is worked off, in order.
pub open spec fn settled_batch(s: SharderModel, from: DomainIndex) -> Seq<PacketModel>
    decreases s.targets.len(),
{
    if s.targets.len() == 0 {
        Seq::empty()
    } else if !s.reaches_target(from) {
        s.next_batch()
    } else if s.targets.len() == 1 {
        s.next_batch() + all_waiting(s.advanced(from).parent_buffer)
    } else {
        s.next_batch() + settled_batch(s.next_target(from), from)
    }
}

/// To work off the buffer is to forward the packets of its batch, one after the other; beyond
/// that only the targets and the buffer change.
pub proof fn settled_forwards_batch(
    s: SharderModel,
    q: QueueModel,
    from: DomainIndex,
    index: LocalNodeIndex,
)
    ensures
        s.settled(from) == (SharderModel {
            targets: s.settled(from).targets,
            parent_buffer: s.settled(from).parent_buffer,
            ..s.passed_all(settled_batch(s, from), from)
        }),
        s.settled_queues(q, from, index) == s.forwarded_all(
            q,
            settled_batch(s, from),
            from,
            index,
        ),
    decreases s.targets.len(),
{
    if s.targets.len() > 0 && s.reaches_target(from) {
        let a = s.next_batch();
        let t = s.next_target(from);
        let mid = s.passed_all(a, from);
        let q1 = s.forwarded_all(q, a, from, index);
        s.lemma_passed_frame(q, a, from, index, s.parent_buffer, s.targets);
        let b = if s.targets.len() == 1 {
            all_waiting(s.advanced(from).parent_buffer)
        } else {
            settled_forwards_batch(t, q1, from, index);
            settled_batch(t, from)
        };
        s.lemma_passed_add(q, a, b, from, index);
        mid.lemma_passed_frame(q1, b, from, index, t.parent_buffer, t.targets);
        assert(t == (SharderModel {
            parent_buffer: t.parent_buffer,
            targets: t.targets,
            ..mid
        }));
    }
}

proof fn lemma_all_waiting_update(
    buffer: Seq<(ReplicaAddr, Waiting)>,
    k: int,
    addr: ReplicaAddr,
    waiting: Waiting,
)
    requires
        0 <= k < buffer.len(),
    ensures
        all_waiting(buffer).to_multiset().add(unlabelled(waiting).to_multiset()) == all_waiting(
            buffer.update(k, (addr, waiting)),
        ).to_multiset().add(unlabelled(buffer[k].1).to_multiset()),
    decreases buffer.len(),
{
    let after = buffer.update(k, (addr, waiting));
    let init = buffer.drop_last();
    vstd::seq_lib::lemma_multiset_commutative(all_waiting(init), unlabelled(buffer.last().1));
    vstd::seq_lib::lemma_multiset_commutative(
        all_waiting(after.drop_last()),
        unlabelled(after.last().1),
    );
    if k == buffer.len() - 1 {
        assert(after.drop_last() =~= init);
    } else {
        lemma_all_waiting_update(init, k, addr, waiting);
        assert(after.drop_last() =~= init.update(k, (addr, waiting)));
    }
    let w = unlabelled(waiting).to_multiset();
    let u = unlabelled(buffer[k].1).to_multiset();
    let a = all_waiting(buffer).to_multiset().add(w);
    let b = all_waiting(after).to_multiset().add(u);
    assert forall|x: PacketModel| #[trigger] a.count(x) == b.count(x) by {
        if k < buffer.len() - 1 {
            assert(all_waiting(init).to_multiset().add(w).count(x) == all_waiting(
                after.drop_last(),
            ).to_multiset().add(u).count(x));
        }
    }
    assert(a =~= b);
}

/// What some edges call for and what they leave in the buffer is what was there.
pub proof fn called_for_is_taken(
    buffer: Seq<(ReplicaAddr, Waiting)>,
    edges: Seq<(ReplicaAddr, ProvTree)>,
    n: nat,
)
    requires
        n <= edges.len(),
    ensures
        all_waiting(buffer).to_multiset() == called_for(buffer, edges, n).to_multiset().add(
            all_waiting(remaining(buffer, edges, n)).to_multiset(),
        ),
    decreases n,
{
    broadcast use vstd::seq_lib::group_to_multiset_ensures;

    if n > 0 {
        called_for_is_taken(buffer, edges, (n - 1) as nat);
        let before = remaining(buffer, edges, (n - 1) as nat);
        let first = called_for(buffer, edges, (n - 1) as nat);
        let (addr, p) = edges[n - 1];
        if holds(before, addr) {
            lemma_find(before, addr);
            let k = find(before, addr);
            let waiting = before[k].1;
            let r = ready(waiting, p.label) as int;
            lemma_ready(waiting, p.label);
            let taken = unlabelled(waiting.take(r));
            let left = unlabelled(waiting.skip(r));
            lemma_all_waiting_update(before, k, addr, waiting.skip(r));
            vstd::seq_lib::lemma_multiset_commutative(first, taken);
            vstd::seq_lib::lemma_multiset_commutative(taken, left);
            assert(taken + left =~= unlabelled(waiting));
            let a = all_waiting(before).to_multiset();
            let b = all_waiting(remaining(buffer, edges, n)).to_multiset();
            assert(a.add(left.to_multiset()) == b.add(unlabelled(waiting).to_multiset()));
            assert(a =~= b.add(taken.to_multiset())) by {
                assert forall|x: PacketModel| #[trigger] a.count(x) == b.add(
                    taken.to_multiset(),
                ).count(x) by {
                    assert(a.add(left.to_multiset()).count(x) == b.add(
                        unlabelled(waiting).to_multiset(),
                    ).count(x));
                }
            }
        }
    }
    assert(all_waiting(buffer).to_multiset() =~= called_for(buffer, edges, n).to_multiset().add(
        all_waiting(remaining(buffer, edges, n)).to_multiset(),
    ));
}

/// To work off the buffer neither loses nor duplicates a packet: each is forwarded, or waits.
pub proof fn settled_loses_nothing(s: SharderModel, from: DomainIndex)
    ensures
        all_waiting(s.parent_buffer).to_multiset() == settled_batch(s, from).to_multiset().add(
            all_waiting(s.settled(from).parent_buffer).to_multiset(),
        ),
    decreases s.targets.len(),
{
    broadcast use vstd::seq_lib::group_to_multiset_ensures;

    if s.targets.len() > 0 {
        let edges = s.targets[0].edges;
        called_for_is_taken(s.parent_buffer, edges, edges.len());
        s.lemma_passed_frame(Map::empty(), s.next_batch(), from, 0, s.parent_buffer, s.targets);
        if s.reaches_target(from) {
            let t = s.next_target(from);
            let left = all_waiting(s.advanced(from).parent_buffer);
            if s.targets.len() == 1 {
                t.lemma_passed_frame(Map::empty(), left, from, 0, t.parent_buffer, t.targets);
                vstd::seq_lib::lemma_multiset_commutative(s.next_batch(), left);
                assert(all_waiting(s.settled(from).parent_buffer) =~= Seq::empty());
            } else {
                settled_loses_nothing(t, from);
                vstd::seq_lib::lemma_multiset_commutative(
                    s.next_batch(),
                    settled_batch(t, from),
                );
            }
        }
    }
    assert(all_waiting(s.parent_buffer).to_multiset() =~= settled_batch(s, from).to_multiset().add(
        all_waiting(s.settled(from).parent_buffer).to_multiset(),
    ));
}

/// A packet that is buffered joins those that wait.
pub proof fn buffered_adds_packet(s: SharderModel, m: PacketModel)
    requires
        m.id() is Some,
    ensures
        all_waiting(s.buffered(m).parent_buffer).to_multiset() == all_waiting(
            s.parent_buffer,
        ).to_multiset().insert(m),
{
    broadcast use vstd::seq_lib::group_to_multiset_ensures;

    let p = m.id()->0;
    let buffer = s.parent_buffer;
    let after = s.buffered(m).parent_buffer;
    lemma_find(buffer, p.root);
    let k = find(buffer, p.root);
    if holds(buffer, p.root) {
        let waiting = buffer[k].1;
        let more = waiting.push((p.label, m));
        lemma_all_waiting_update(buffer, k, p.root, more);
        assert(unlabelled(more) =~= unlabelled(waiting).push(m));
        let a = all_waiting(buffer).to_multiset();
        let b = all_waiting(after).to_multiset();
        assert(b =~= a.insert(m)) by {
            assert forall|x: PacketModel| #[trigger] b.count(x) == a.insert(m).count(x) by {
                assert(a.add(unlabelled(more).to_multiset()).count(x) == b.add(
                    unlabelled(waiting).to_multiset(),
                ).count(x));
            }
        }
    } else {
        assert(after.drop_last() =~= buffer);
        assert(unlabelled(after.last().1) =~= seq![m]);
        assert(all_waiting(after) =~= all_waiting(buffer).push(m));
    }
}

/// Sending neither loses nor duplicates a packet: while there are targets, what waited and the
/// new packet are forwarded, or wait.
pub proof fn sent_loses_nothing(s: SharderModel, m: PacketModel, from: DomainIndex)
    requires
        s.targets.len() > 0,
        m.id() is Some,
    ensures
        all_waiting(s.parent_buffer).to_multiset().insert(m) == settled_batch(
            s.buffered(m),
            from,
        ).to_multiset().add(all_waiting(s.sent_packet(m, from).parent_buffer).to_multiset()),
{
    buffered_adds_packet(s, m);
    settled_loses_nothing(s.buffered(m), from);
}

/// The packets that wait from parent `addr`, in the order in which they came.
pub open spec fn waiting_from(
    buffer: Seq<(ReplicaAddr, Waiting)>,
    addr: ReplicaAddr,
) -> Seq<PacketModel> {
    if holds(buffer, addr) {
        unlabelled(get(buffer, addr))
    } else {
        Seq::empty()
    }
}

proof fn lemma_waiting_put(
    buffer: Seq<(ReplicaAddr, Waiting)>,
    addr: ReplicaAddr,
    waiting: Waiting,
    other: ReplicaAddr,
)
    requires
        sorted_by_parent(buffer),
        all_from(unlabelled(waiting), addr),
    ensures
        sorted_by_parent(put(buffer, addr, waiting)),
        waiting_from(put(buffer, addr, waiting), other) == if other == addr {
            unlabelled(waiting)
        } else {
            waiting_from(buffer, other)
        },
{
    let after = put(buffer, addr, waiting);
    lemma_put_distinct(buffer, addr, waiting);
    lemma_find(buffer, addr);
    assert forall|k: int| 0 <= k < after.len() implies all_from(
        unlabelled((#[trigger] after[k]).1),
        after[k].0,
    ) by {
        if k < buffer.len() && k != find(buffer, addr) {
            assert(after[k] == buffer[k]);
            assert(all_from(unlabelled(buffer[k].1), buffer[k].0));
        }
    }
    lemma_put_map(buffer, addr, waiting);
    let m = as_map(buffer).insert(addr, waiting);
    assert(as_map(after).contains_key(other) == m.contains_key(other));
    if holds(after, other) {
        assert(as_map(after)[other] == m[other]);
    }
}

/// A buffered packet comes last among those of its parent, and leaves the others alone.
pub proof fn buffered_in_order(s: SharderModel, m: PacketModel, addr: ReplicaAddr)
    requires
        sorted_by_parent(s.parent_buffer),
        m.id() is Some,
    ensures
        sorted_by_parent(s.buffered(m).parent_buffer),
        waiting_from(s.buffered(m).parent_buffer, addr) == if is_from(m, addr) {
            waiting_from(s.parent_buffer, addr).push(m)
        } else {
            waiting_from(s.parent_buffer, addr)
        },
{
    let p = m.id()->0;
    let waiting = if holds(s.parent_buffer, p.root) {
        get(s.parent_buffer, p.root)
    } else {
        Seq::empty()
    };
    let more = waiting.push((p.label, m));
    lemma_find(s.parent_buffer, p.root);
    assert(unlabelled(more) =~= unlabelled(waiting).push(m));
    assert(unlabelled(waiting) =~= waiting_from(s.parent_buffer, p.root));
    assert(all_from(unlabelled(waiting), p.root));
    lemma_waiting_put(s.parent_buffer, p.root, more, addr);
}

/// What edges call for from one parent is what waits longest from there.
pub proof fn called_for_in_order(
    buffer: Seq<(ReplicaAddr, Waiting)>,
    edges: Seq<(ReplicaAddr, ProvTree)>,
    n: nat,
    addr: ReplicaAddr,
)
    requires
        sorted_by_parent(buffer),
        n <= edges.len(),
    ensures
        sorted_by_parent(remaining(buffer, edges, n)),
        called_for(buffer, edges, n).filter(|m: PacketModel| is_from(m, addr)) + waiting_from(
            remaining(buffer, edges, n),
            addr,
        ) == waiting_from(buffer, addr),
    decreases n,
{
    let pred = |m: PacketModel| is_from(m, addr);
    if n == 0 {
        lemma_filter_none(called_for(buffer, edges, n), pred);
        assert(called_for(buffer, edges, n).filter(pred) + waiting_from(buffer, addr)
            =~= waiting_from(buffer, addr));
    } else {
        called_for_in_order(buffer, edges, (n - 1) as nat, addr);
        let before = remaining(buffer, edges, (n - 1) as nat);
        let first = called_for(buffer, edges, (n - 1) as nat);
        let (parent, p) = edges[n - 1];
        if holds(before, parent) {
            lemma_find(before, parent);
            let waiting = get(before, parent);
            let r = ready(waiting, p.label) as int;
            lemma_ready(waiting, p.label);
            let taken = unlabelled(waiting.take(r));
            let left = unlabelled(waiting.skip(r));
            let whole = unlabelled(waiting);
            assert(all_from(whole, parent));
            assert(taken + left =~= whole);
            assert forall|j: int| 0 <= j < taken.len() implies is_from(
                #[trigger] taken[j],
                parent,
            ) by {
                assert(taken[j] == whole[j]);
            }
            assert forall|j: int| 0 <= j < left.len() implies is_from(
                #[trigger] left[j],
                parent,
            ) by {
                assert(left[j] == whole[r + j]);
            }
            lemma_waiting_put(before, parent, waiting.skip(r), addr);
            Seq::filter_distributes_over_add(first, taken, pred);
            if parent == addr {
                lemma_filter_all(taken, pred);
                assert(first.filter(pred) + taken + left =~= first.filter(pred) + whole);
            } else {
                lemma_filter_none(taken, pred);
                assert(first.filter(pred) + taken.filter(pred) =~= first.filter(pred));
            }
        }
    }
}

/// Of all that waits, what came from one parent is what waits in its place.
proof fn all_waiting_in_order(buffer: Seq<(ReplicaAddr, Waiting)>, addr: ReplicaAddr)
    requires
        sorted_by_parent(buffer),
    ensures
        all_waiting(buffer).filter(|m: PacketModel| is_from(m, addr)) == waiting_from(
            buffer,
            addr,
        ),
    decreases buffer.len(),
{
    let pred = |m: PacketModel| is_from(m, addr);
    lemma_find(buffer, addr);
    if buffer.len() == 0 {
        lemma_filter_none(all_waiting(buffer), pred);
        assert(all_waiting(buffer).filter(pred) =~= Seq::empty());
    } else {
        let init = buffer.drop_last();
        let last = unlabelled(buffer.last().1);
        assert(sorted_by_parent(init)) by {
            assert forall|i: int, j: int| 0 <= i < j < init.len() implies (
            #[trigger] init[i]).0 != (#[trigger] init[j]).0 by {
                assert(buffer[i].0 != buffer[j].0);
            }
            assert forall|k: int| 0 <= k < init.len() implies all_from(
                unlabelled((#[trigger] init[k]).1),
                init[k].0,
            ) by {
                assert(all_from(unlabelled(buffer[k].1), buffer[k].0));
            }
        }
        all_waiting_in_order(init, addr);
        lemma_find(init, addr);
        let n = buffer.len() - 1;
        assert(all_from(unlabelled(buffer[n].1), buffer[n].0));
        Seq::filter_distributes_over_add(all_waiting(init), last, pred);
        if buffer.last().0 == addr {
            lemma_filter_all(last, pred);
            if holds(init, addr) {
                assert(buffer[find(init, addr)].0 != buffer[n].0);
            }
            assert forall|i: int| 0 <= i < n implies (#[trigger] buffer[i]).0 != addr by {
                assert(buffer[i].0 != buffer[n].0);
            }
            lemma_find_is(buffer, addr, n);
            assert(all_waiting(init).filter(pred) + last =~= last);
        } else {
            lemma_filter_none(last, pred);
            let k = if holds(init, addr) {
                find(init, addr)
            } else {
                buffer.len() as int
            };
            assert forall|i: int| 0 <= i < k implies (#[trigger] buffer[i]).0 != addr by {
                if i < n {
                    assert(init[i].0 != addr);
                }
            }
            lemma_find_is(buffer, addr, k);
            assert(all_waiting(init).filter(pred) + last.filter(pred) =~= all_waiting(
                init,
            ).filter(pred));
        }
    }
}

/// The packets of one parent are forwarded in the order in which they came.
pub proof fn settled_in_order(s: SharderModel, from: DomainIndex, addr: ReplicaAddr)
    requires
        sorted_by_parent(s.parent_buffer),
    ensures
        sorted_by_parent(s.settled(from).parent_buffer),
        settled_batch(s, from).filter(|m: PacketModel| is_from(m, addr)) + waiting_from(
            s.settled(from).parent_buffer,
            addr,
        ) == waiting_from(s.parent_buffer, addr),
    decreases s.targets.len(),
{
    let pred = |m: PacketModel| is_from(m, addr);
    let batch = s.next_batch();
    if s.targets.len() == 0 {
        lemma_filter_none(settled_batch(s, from), pred);
        assert(settled_batch(s, from).filter(pred) + waiting_from(s.parent_buffer, addr)
            =~= waiting_from(s.parent_buffer, addr));
    } else {
        let edges = s.targets[0].edges;
        called_for_in_order(s.parent_buffer, edges, edges.len(), addr);
        s.lemma_passed_frame(Map::empty(), batch, from, 0, s.parent_buffer, s.targets);
        if s.reaches_target(from) {
            let t = s.next_target(from);
            let buffer = s.advanced(from).parent_buffer;
            if s.targets.len() == 1 {
                let rest = all_waiting(buffer);
                t.lemma_passed_frame(Map::empty(), rest, from, 0, t.parent_buffer, t.targets);
                all_waiting_in_order(buffer, addr);
                Seq::filter_distributes_over_add(batch, rest, pred);
                assert(settled_batch(s, from).filter(pred) + waiting_from(
                    s.settled(from).parent_buffer,
                    addr,
                ) =~= batch.filter(pred) + waiting_from(buffer, addr));
            } else {
                settled_in_order(t, from, addr);
                let rest = settled_batch(t, from);
                Seq::filter_distributes_over_add(batch, rest, pred);
                assert(batch.filter(pred) + rest.filter(pred) + waiting_from(
                    s.settled(from).parent_buffer,
                    addr,
                ) =~= batch.filter(pred) + (rest.filter(pred) + waiting_from(
                    s.settled(from).parent_buffer,
                    addr,
                )));
            }
        }
    }
}

/// A packet is buffered with the label that it carries.
pub proof fn buffered_labelled(s: SharderModel, m: PacketModel)
    requires
        labelled(s.parent_buffer),
        m.id() is Some,
    ensures
        labelled(s.buffered(m).parent_buffer),
{
    let p = m.id()->0;
    lemma_find(s.parent_buffer, p.root);
    if holds(s.parent_buffer, p.root) {
        assert(noted_labels(s.parent_buffer[find(s.parent_buffer, p.root)].1));
    }
}

/// The labels stay right as packets leave the buffer.
pub proof fn remaining_labelled(
    buffer: Seq<(ReplicaAddr, Waiting)>,
    edges: Seq<(ReplicaAddr, ProvTree)>,
    n: nat,
)
    requires
        labelled(buffer),
        n <= edges.len(),
    ensures
        labelled(remaining(buffer, edges, n)),
    decreases n,
{
    if n > 0 {
        remaining_labelled(buffer, edges, (n - 1) as nat);
        let before = remaining(buffer, edges, (n - 1) as nat);
        let (addr, p) = edges[n - 1];
        lemma_find(before, addr);
        if holds(before, addr) {
            let waiting = get(before, addr);
            assert(noted_labels(before[find(before, addr)].1));
            lemma_ready(waiting, p.label);
        }
    }
}

/// The labels stay right when the buffer is worked off.
pub proof fn settled_labelled(s: SharderModel, from: DomainIndex)
    requires
        labelled(s.parent_buffer),
    ensures
        labelled(s.settled(from).parent_buffer),
    decreases s.targets.len(),
{
    if s.targets.len() > 0 {
        let edges = s.targets[0].edges;
        remaining_labelled(s.parent_buffer, edges, edges.len());
        s.lemma_passed_frame(Map::empty(), s.next_batch(), from, 0, s.parent_buffer, s.targets);
        if s.reaches_target(from) {
            let t = s.next_target(from);
            if s.targets.len() == 1 {
                let rest = all_waiting(s.advanced(from).parent_buffer);
                t.lemma_passed_frame(Map::empty(), rest, from, 0, t.parent_buffer, t.targets);
            } else {
                settled_labelled(t, from);
            }
        }
    }
}

/// Edge `e` of a target calls for packet `m`: `m` came from the parent that the edge names, with
/// at most the label that is noted there.
pub open spec fn calls_for(e: (ReplicaAddr, ProvTree), m: PacketModel) -> bool {
    is_from(m, e.0) && m.id()->0.label <= e.1.label
}

/// Towards a target only packets are forwarded that one of its edges calls for.
pub proof fn batch_is_called_for(s: SharderModel, i: int)
    requires
        s.targets.len() > 0,
        sorted_by_parent(s.parent_buffer),
        labelled(s.parent_buffer),
        0 <= i < s.next_batch().len(),
    ensures
        exists|k: int|
            0 <= k < s.targets[0].edges.len() && calls_for(
                #[trigger] s.targets[0].edges[k],
                s.next_batch()[i],
            ),
{
    let edges = s.targets[0].edges;
    called_for_is_called_for(s.parent_buffer, edges, edges.len(), i);
}

proof fn called_for_is_called_for(
    buffer: Seq<(ReplicaAddr, Waiting)>,
    edges: Seq<(ReplicaAddr, ProvTree)>,
    n: nat,
    i: int,
)
    requires
        sorted_by_parent(buffer),
        labelled(buffer),
        n <= edges.len(),
        0 <= i < called_for(buffer, edges, n).len(),
    ensures
        exists|k: int|
            0 <= k < n && calls_for(#[trigger] edges[k], called_for(buffer, edges, n)[i]),
    decreases n,
{
    let before = remaining(buffer, edges, (n - 1) as nat);
    let first = called_for(buffer, edges, (n - 1) as nat);
    let (addr, p) = edges[n - 1];
    if i < first.len() {
        called_for_is_called_for(buffer, edges, (n - 1) as nat, i);
        let k = choose|k: int| 0 <= k < n - 1 && calls_for(#[trigger] edges[k], first[i]);
        assert(calls_for(edges[k], called_for(buffer, edges, n)[i]));
    } else {
        called_for_in_order(buffer, edges, (n - 1) as nat, addr);
        remaining_labelled(buffer, edges, (n - 1) as nat);
        lemma_find(before, addr);
        let waiting = get(before, addr);
        lemma_ready(waiting, p.label);
        let j = i - first.len();
        let cell = before[find(before, addr)];
        assert(noted_labels(cell.1));
        assert(all_from(unlabelled(cell.1), cell.0));
        assert(unlabelled(waiting)[j] == waiting[j].1);
        assert(called_for(buffer, edges, n)[i] == waiting[j].1);
        assert(calls_for(edges[n - 1], waiting[j].1));
    }
}

/// Nothing waits at the front of the packets of parent `addr` with at most the label `label`.
pub open spec fn none_ready(
    buffer: Seq<(ReplicaAddr, Waiting)>,
    addr: ReplicaAddr,
    label: usize,
) -> bool {
    holds(buffer, addr) ==> get(buffer, addr).len() == 0 || get(buffer, addr)[0].0 > label
}

/// Once a packet was sent, none is left at the front of the buffer that the first target left
/// calls for.
pub proof fn settled_leaves_none_ready(s: SharderModel, from: DomainIndex, k: int)
    requires
        s.targets.len() > 0,
        s.settled(from).targets.len() > 0,
        0 <= k < s.settled(from).targets[0].edges.len(),
    ensures
        ({
            let e = s.settled(from).targets[0].edges[k];
            none_ready(s.settled(from).parent_buffer, e.0, e.1.label)
        }),
    decreases s.targets.len(),
{
    s.lemma_passed_frame(Map::empty(), s.next_batch(), from, 0, s.parent_buffer, s.targets);
    if !s.reaches_target(from) {
        let edges = s.targets[0].edges;
        remaining_none_ready(s.parent_buffer, edges, edges.len(), k);
    } else {
        let t = s.next_target(from);
        if s.targets.len() == 1 {
            let rest = all_waiting(s.advanced(from).parent_buffer);
            t.lemma_passed_frame(Map::empty(), rest, from, 0, t.parent_buffer, t.targets);
        } else {
            settled_leaves_none_ready(t, from, k);
        }
    }
}

/// Nothing is left at the front that one of the first `n` edges calls for.
pub proof fn remaining_none_ready(
    buffer: Seq<(ReplicaAddr, Waiting)>,
    edges: Seq<(ReplicaAddr, ProvTree)>,
    n: nat,
    k: int,
)
    requires
        0 <= k < n <= edges.len(),
    ensures
        none_ready(remaining(buffer, edges, n), edges[k].0, edges[k].1.label),
    decreases n,
{
    let before = remaining(buffer, edges, (n - 1) as nat);
    let after = remaining(buffer, edges, n);
    let (addr, p) = edges[n - 1];
    if k < n - 1 {
        remaining_none_ready(buffer, edges, (n - 1) as nat, k);
    }
    if holds(before, addr) {
        let waiting = get(before, addr);
        let left = waiting.skip(ready(waiting, p.label) as int);
        lemma_ready(waiting, p.label);
        lemma_put_map(before, addr, left);
        let m = as_map(before).insert(addr, left);
        let other = edges[k].0;
        assert(as_map(after).contains_key(other) == m.contains_key(other));
        if holds(after, other) {
            assert(as_map(after)[other] == m[other]);
        }
    }
}

} // verus!
