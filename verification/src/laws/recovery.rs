//! What holds when packets are sent while there are targets: the targets are met one after the
//! other, each exactly, and only what the next one calls for is forwarded towards it.

use vstd::prelude::*;
use crate::assoc::{distinct, find, get, holds, lemma_find, lemma_put_distinct, put};
use crate::filter::lemma_filter_none;
use crate::ids::{DomainIndex, LocalNodeIndex, ReplicaAddr};
use crate::laws::delivery::fits;
use crate::laws::provenance::applied_label;
use crate::laws::sending::{
    batch_is_called_for, buffered_adds_packet, buffered_in_order, buffered_labelled,
    called_for_in_order, called_for_is_taken, calls_for, none_ready, remaining_labelled,
    remaining_none_ready, settled_batch,
    settled_forwards_batch, settled_in_order, settled_leaves_none_ready,
    settled_waits_for_target, waiting_from,
};
use crate::laws::stamping::provenance_of;
use crate::model::{
    all_waiting, called_for, edges_reached, is_from, labelled, noted_labels, ready, remaining,
    sorted_by_parent, QueueModel, SharderModel, Waiting,
};
use crate::packet::PacketModel;
use crate::provenance::ProvTree;

verus! {

/// Packets that are forwarded, one after the other, with the states and the queues before,
/// between and behind them, and how many were forwarded when each target was met.
pub struct Run {
    pub ms: Seq<PacketModel>,
    pub states: Seq<SharderModel>,
    pub queues: Seq<QueueModel>,
    pub met: Seq<int>,
}

/// To forward a packet is to prepare it, to process what comes out with the latest label, and to
/// note it.
pub open spec fn forwards(
    s: SharderModel,
    q: QueueModel,
    m: PacketModel,
    from: DomainIndex,
    index: LocalNodeIndex,
    t: SharderModel,
    r: QueueModel,
) -> bool {
    let p = s.prepared(m, from);
    let out = s.stamped(m, from);
    let n = s.routes.txs.len();
    &&& t == (SharderModel {
        last_provenance: s.routes.noted(out, p.max_provenance.label, s.last_provenance, n),
        ..p
    })
    &&& r == s.routes.routed(out, p.max_provenance.label, index, q, n)
}

/// The packets of the run are forwarded one after the other, from the state `s` and the queues
/// `q` on.
pub open spec fn is_run(
    s: SharderModel,
    q: QueueModel,
    from: DomainIndex,
    index: LocalNodeIndex,
    run: Run,
) -> bool {
    &&& run.states.len() == run.ms.len() + 1
    &&& run.queues.len() == run.ms.len() + 1
    &&& run.states[0] == s
    &&& run.queues[0] == q
    &&& forall|j: int|
        0 <= j < run.ms.len() ==> forwards(
            run.states[j],
            run.queues[j],
            #[trigger] run.ms[j],
            from,
            index,
            run.states[j + 1],
            run.queues[j + 1],
        )
}

/// The latest provenance meets a target: it has its label, and for each of its edges an edge to
/// the same parent with the same label.
pub open spec fn meets(p: ProvTree, target: ProvTree) -> bool {
    &&& p.label == target.label
    &&& forall|k: int|
        0 <= k < target.edges.len() ==> notes(
            p,
            (#[trigger] target.edges[k]).0,
            target.edges[k].1.label,
        )
}

/// The provenance has an edge to `addr` with the label `label`.
pub open spec fn notes(p: ProvTree, addr: ReplicaAddr, label: usize) -> bool {
    exists|i: int|
        0 <= i < p.edges.len() && (#[trigger] p.edges[i]).0 == addr && p.edges[i].1.label == label
}

/// The target calls for the packet: it came from a parent that the target names, with at most
/// the label that is noted there.
pub open spec fn wants(target: ProvTree, m: PacketModel) -> bool {
    exists|k: int|
        0 <= k < target.edges.len() && (provenance_of(m) matches Some(p) && p.root == (
        #[trigger] target.edges[k]).0 && p.label <= target.edges[k].1.label)
}

/// Where in the run the work towards target `t` begins.
pub open spec fn begins(met: Seq<int>, t: int) -> int {
    if t == 0 {
        0
    } else {
        met[t - 1]
    }
}

/// Where in a run of `n` packets the work towards target `t` ends.
pub open spec fn ends(met: Seq<int>, n: nat, t: int) -> int {
    if t < met.len() {
        met[t]
    } else {
        n as int
    }
}

/// The run works towards the targets of `s`, in order. Each one that is left behind is met when
/// it is, and towards each one only packets are forwarded that it calls for. Behind the last one
/// any packet is.
pub open spec fn works_off(s: SharderModel, run: Run) -> bool {
    &&& run.met.len() <= s.targets.len()
    &&& forall|t: int|
        0 <= t < run.met.len() ==> #[trigger] begins(run.met, t) <= run.met[t] <= run.ms.len()
    &&& forall|t: int|
        0 <= t < run.met.len() ==> meets(
            run.states[#[trigger] run.met[t]].max_provenance,
            s.targets[t],
        )
    &&& forall|t: int, j: int|
        #![trigger s.targets[t], run.ms[j]]
        0 <= t < s.targets.len() && t <= run.met.len() && begins(run.met, t) <= j < ends(
            run.met,
            run.ms.len(),
            t,
        ) ==> wants(s.targets[t], run.ms[j])
}

/// Nothing waits at the front of the packets of a parent that the target calls for.
pub open spec fn nothing_wanted(buffer: Seq<(ReplicaAddr, Waiting)>, target: ProvTree) -> bool {
    forall|k: int, i: int|
        #![trigger target.edges[k], buffer[i]]
        0 <= k < target.edges.len() && 0 <= i < buffer.len() && buffer[i].0 == target.edges[k].0
            && buffer[i].1.len() > 0 ==> buffer[i].1[0].0 > target.edges[k].1.label
}

/// What came from parent `addr` and was not forwarded before `m` was sent, in order, with `m`
/// last if it is of that parent.
pub open spec fn arrivals(s: SharderModel, m: PacketModel, addr: ReplicaAddr) -> Seq<PacketModel> {
    if provenance_of(m)->0.root == addr {
        waiting_from(s.parent_buffer, addr).push(m)
    } else {
        waiting_from(s.parent_buffer, addr)
    }
}

/// Of what came from the parent of edge `e`, the first that is not among `ms` has a greater label
/// than the edge.
pub open spec fn next_is_beyond(
    came: Seq<PacketModel>,
    ms: Seq<PacketModel>,
    e: (ReplicaAddr, ProvTree),
) -> bool {
    let c = ms.filter(|x: PacketModel| is_from(x, e.0)).len() as int;
    c < came.len() ==> provenance_of(came[c])->0.label > e.1.label
}

/// How many packets of the batch were forwarded when each target was met.
spec fn met_at(s: SharderModel, from: DomainIndex) -> Seq<int>
    decreases s.targets.len(),
{
    if s.targets.len() == 0 || !s.reaches_target(from) {
        Seq::empty()
    } else if s.targets.len() == 1 {
        seq![s.next_batch().len() as int]
    } else {
        let a = s.next_batch().len() as int;
        seq![a] + met_at(s.next_target(from), from).map_values(|c: int| a + c)
    }
}

proof fn lemma_next(s: SharderModel, from: DomainIndex)
    requires
        s.targets.len() > 0,
    ensures
        s.next_target(from) == (SharderModel {
            parent_buffer: s.next_target(from).parent_buffer,
            targets: s.targets.drop_first(),
            ..s.passed_all(s.next_batch(), from)
        }),
        s.passed_all(s.next_batch(), from).targets == s.targets,
        s.advanced(from).max_provenance == s.passed_all(s.next_batch(), from).max_provenance,
{
    s.lemma_passed_frame(Map::empty(), s.next_batch(), from, 0, s.parent_buffer, s.targets);
}

/// The buffer behind a target is as well kept as before it.
proof fn lemma_next_buffer(s: SharderModel, from: DomainIndex)
    requires
        s.targets.len() > 0,
        sorted_by_parent(s.parent_buffer),
        labelled(s.parent_buffer),
    ensures
        sorted_by_parent(s.next_target(from).parent_buffer),
        labelled(s.next_target(from).parent_buffer),
{
    let edges = s.targets[0].edges;
    called_for_in_order(s.parent_buffer, edges, edges.len(), (0, 0));
    remaining_labelled(s.parent_buffer, edges, edges.len());
}

/// Behind the packets for the first target, what is forwarded is the same as from the next
/// state on.
proof fn lemma_behind(s: SharderModel, from: DomainIndex, c: int)
    requires
        s.targets.len() > 1,
        s.reaches_target(from),
        0 <= c <= settled_batch(s.next_target(from), from).len(),
    ensures
        ({
            let a = s.next_batch().len() as int;
            let b = settled_batch(s.next_target(from), from);
            let batch = settled_batch(s, from);
            &&& batch == s.next_batch() + b
            &&& s.passed_all(batch.take(a + c), from).max_provenance == s.next_target(
                from,
            ).passed_all(b.take(c), from).max_provenance
        }),
{
    let a = s.next_batch();
    let y = s.next_target(from);
    let b = settled_batch(y, from);
    let mid = s.passed_all(a, from);
    lemma_next(s, from);
    assert(settled_batch(s, from).take(a.len() + c) =~= a + b.take(c));
    s.lemma_passed_add(Map::empty(), a, b.take(c), from, 0);
    mid.lemma_passed_frame(Map::empty(), b.take(c), from, 0, y.parent_buffer, y.targets);
}

proof fn met_order(s: SharderModel, from: DomainIndex, t: int)
    requires
        0 <= t < met_at(s, from).len(),
    ensures
        begins(met_at(s, from), t) <= met_at(s, from)[t] <= settled_batch(s, from).len(),
        0 <= met_at(s, from)[t],
    decreases s.targets.len(),
{
    if s.targets.len() > 1 {
        let y = s.next_target(from);
        if t > 0 {
            met_order(y, from, t - 1);
        }
    }
}

proof fn met_targets(s: SharderModel, from: DomainIndex)
    ensures
        met_at(s, from).len() <= s.targets.len(),
        s.settled(from).targets == s.targets.skip(met_at(s, from).len() as int),
    decreases s.targets.len(),
{
    if s.targets.len() == 0 {
        assert(s.targets.skip(0) =~= s.targets);
    } else {
        lemma_next(s, from);
        let y = s.next_target(from);
        if !s.reaches_target(from) {
            assert(s.targets.skip(0) =~= s.targets);
        } else if s.targets.len() == 1 {
            let rest = all_waiting(s.advanced(from).parent_buffer);
            y.lemma_passed_frame(Map::empty(), rest, from, 0, y.parent_buffer, y.targets);
            assert(s.targets.skip(1) =~= s.targets.drop_first());
        } else {
            met_targets(y, from);
            let k = met_at(y, from).len() as int;
            assert(y.targets.skip(k) =~= s.targets.skip(k + 1));
        }
    }
}

proof fn met_exactly(s: SharderModel, from: DomainIndex, is_sharded: bool, t: int)
    requires
        s.can_settle(from, is_sharded),
        0 <= t < met_at(s, from).len(),
    ensures
        t < s.targets.len(),
        meets(
            s.passed_all(settled_batch(s, from).take(met_at(s, from)[t]), from).max_provenance,
            s.targets[t],
        ),
    decreases s.targets.len(),
{
    lemma_next(s, from);
    let a = s.next_batch();
    if t == 0 {
        assert(settled_batch(s, from).take(a.len() as int) =~= a);
        let p = s.advanced(from).max_provenance;
        let target = s.targets[0];
        assert forall|k: int| 0 <= k < target.edges.len() implies notes(
            p,
            (#[trigger] target.edges[k]).0,
            target.edges[k].1.label,
        ) by {
            let addr = target.edges[k].0;
            lemma_find(p.edges, addr);
            assert(p.edges[find(p.edges, addr)].0 == addr);
        }
    } else {
        let y = s.next_target(from);
        met_exactly(y, from, is_sharded, t - 1);
        met_order(y, from, t - 1);
        lemma_behind(s, from, met_at(y, from)[t - 1]);
        assert(met_at(s, from)[t] == a.len() + met_at(y, from)[t - 1]);
        assert(s.targets[t] == y.targets[t - 1]);
    }
}

proof fn met_eagerly(s: SharderModel, from: DomainIndex, t: int, k: int)
    requires
        sorted_by_parent(s.parent_buffer),
        labelled(s.parent_buffer),
        0 <= t < met_at(s, from).len(),
        t < s.targets.len(),
        0 <= k < s.targets[t].edges.len(),
    ensures
        ({
            let e = s.targets[t].edges[k];
            next_is_beyond(
                waiting_from(s.parent_buffer, e.0),
                settled_batch(s, from).take(met_at(s, from)[t]),
                e,
            )
        }),
    decreases s.targets.len(),
{
    let e = s.targets[t].edges[k];
    let pred = |x: PacketModel| is_from(x, e.0);
    let a = s.next_batch();
    let edges = s.targets[0].edges;
    let left = s.advanced(from).parent_buffer;
    called_for_in_order(s.parent_buffer, edges, edges.len(), e.0);
    remaining_labelled(s.parent_buffer, edges, edges.len());
    let came = waiting_from(s.parent_buffer, e.0);
    assert(a.filter(pred) + waiting_from(left, e.0) == came);
    if t == 0 {
        assert(settled_batch(s, from).take(a.len() as int) =~= a);
        remaining_none_ready(s.parent_buffer, edges, edges.len(), k);
        let c = a.filter(pred).len() as int;
        if c < came.len() {
            lemma_find(left, e.0);
            assert(came[c] == waiting_from(left, e.0)[0]);
            let cell = left[find(left, e.0)].1;
            assert(noted_labels(cell));
            assert(came[c] == cell[0].1);
            assert(cell[0].0 > e.1.label);
        }
    } else {
        let y = s.next_target(from);
        let b = settled_batch(y, from);
        let d = met_at(y, from)[t - 1];
        lemma_next(s, from);
        lemma_next_buffer(s, from);
        assert(s.targets[t] == y.targets[t - 1]);
        met_eagerly(y, from, t - 1, k);
        met_order(y, from, t - 1);
        assert(met_at(s, from)[t] == a.len() + d);
        assert(settled_batch(s, from).take(a.len() + d) =~= a + b.take(d));
        Seq::filter_distributes_over_add(a, b.take(d), pred);
        let c = b.take(d).filter(pred).len() as int;
        let rest = waiting_from(y.parent_buffer, e.0);
        assert(rest == waiting_from(left, e.0));
        if a.filter(pred).len() + c < came.len() {
            assert(came[a.filter(pred).len() + c] == rest[c]);
        }
    }
}

proof fn wanted(s: SharderModel, from: DomainIndex, t: int, j: int)
    requires
        sorted_by_parent(s.parent_buffer),
        labelled(s.parent_buffer),
        0 <= t < s.targets.len(),
        t <= met_at(s, from).len(),
        begins(met_at(s, from), t) <= j < ends(
            met_at(s, from),
            settled_batch(s, from).len(),
            t,
        ),
    ensures
        0 <= j < settled_batch(s, from).len(),
        wants(s.targets[t], settled_batch(s, from)[j]),
    decreases s.targets.len(),
{
    let a = s.next_batch();
    lemma_next(s, from);
    if t > 0 {
        met_order(s, from, t - 1);
    }
    if t < met_at(s, from).len() {
        met_order(s, from, t);
    }
    if t == 0 {
        assert(settled_batch(s, from)[j] == a[j]);
        batch_is_called_for(s, j);
        let edges = s.targets[0].edges;
        let k = choose|k: int|
            0 <= k < edges.len() && calls_for(#[trigger] edges[k], a[j]);
        assert(provenance_of(a[j]) == a[j].id());
        assert(edges[k].0 == edges[k].0);
    } else {
        let y = s.next_target(from);
        lemma_next_buffer(s, from);
        assert(s.targets[t] == y.targets[t - 1]);
        wanted(y, from, t - 1, j - a.len());
        assert(settled_batch(s, from)[j] == settled_batch(y, from)[j - a.len()]);
    }
}

proof fn lemma_label_grows(s: SharderModel, ms: Seq<PacketModel>, from: DomainIndex, i: int, j: int)
    requires
        0 <= i <= j <= ms.len(),
    ensures
        s.passed_all(ms.take(i), from).max_provenance.label <= s.passed_all(
            ms.take(j),
            from,
        ).max_provenance.label,
    decreases j - i,
{
    if i < j {
        lemma_label_grows(s, ms, from, i, j - 1);
        assert(ms.take(j).drop_last() =~= ms.take(j - 1));
        let t = s.passed_all(ms.take(j - 1), from);
        applied_label(t.max_provenance, t.update_for(ms[j - 1], from));
    }
}

/// The run that forwards `ms`.
spec fn run_of(
    s: SharderModel,
    q: QueueModel,
    ms: Seq<PacketModel>,
    from: DomainIndex,
    index: LocalNodeIndex,
    met: Seq<int>,
) -> Run {
    Run {
        ms,
        states: Seq::new(ms.len() + 1, |j: int| s.passed_all(ms.take(j), from)),
        queues: Seq::new(ms.len() + 1, |j: int| s.forwarded_all(q, ms.take(j), from, index)),
        met,
    }
}

proof fn lemma_run_of(
    s: SharderModel,
    q: QueueModel,
    ms: Seq<PacketModel>,
    from: DomainIndex,
    index: LocalNodeIndex,
    met: Seq<int>,
)
    ensures
        is_run(s, q, from, index, run_of(s, q, ms, from, index, met)),
        run_of(s, q, ms, from, index, met).states.last() == s.passed_all(ms, from),
        run_of(s, q, ms, from, index, met).queues.last() == s.forwarded_all(q, ms, from, index),
{
    let run = run_of(s, q, ms, from, index, met);
    assert(ms.take(0) =~= Seq::empty());
    assert(ms.take(ms.len() as int) =~= ms);
    assert forall|j: int| 0 <= j < run.ms.len() implies forwards(
        run.states[j],
        run.queues[j],
        #[trigger] run.ms[j],
        from,
        index,
        run.states[j + 1],
        run.queues[j + 1],
    ) by {
        assert(ms.take(j + 1).drop_last() =~= ms.take(j));
        assert(ms.take(j + 1).last() == ms[j]);
    }
}

/// Sending while there are targets. The packet joins those that wait from its parent. Then
/// packets are forwarded in a run that works off the targets in order: each target that is left
/// behind is met exactly at some point of the run, and until then only packets are forwarded
/// that it calls for. The targets left are those behind the ones that were met; the latest label
/// has come up to every one that was met, and not to the first one left, of which nothing that
/// waits is called for; when a target is met, too, nothing waits that it calls for. If no target
/// is left, nothing waits. Of each parent, what was forwarded and
/// behind it what waits is what waited and behind it the packet, if it is of that parent.
/// Nothing happens beyond the run.
pub proof fn targets_are_met_in_turn(
    s: SharderModel,
    q: QueueModel,
    m: PacketModel,
    from: DomainIndex,
    index: LocalNodeIndex,
    is_sharded: bool,
) -> (run: Run)
    requires
        s.targets.len() > 0,
        sorted_by_parent(s.parent_buffer),
        labelled(s.parent_buffer),
        s.can_send(m, from, is_sharded),
    ensures
        is_run(s, q, from, index, run),
        works_off(s, run),
        ({
            let after = s.sent_packet(m, from);
            let k = run.met.len() as int;
            &&& after.targets == s.targets.skip(k)
            &&& forall|t: int|
                0 <= t < k ==> (#[trigger] s.targets[t]).label <= after.max_provenance.label
            &&& k < s.targets.len() ==> after.max_provenance.label < s.targets[k].label
                && nothing_wanted(after.parent_buffer, s.targets[k])
            &&& k == s.targets.len() ==> after.parent_buffer.len() == 0
            &&& after == (SharderModel {
                targets: s.targets.skip(k),
                parent_buffer: after.parent_buffer,
                ..run.states.last()
            })
            &&& s.sent_queues(q, m, from, index) == run.queues.last()
            &&& forall|addr: ReplicaAddr|
                run.ms.filter(|x: PacketModel| is_from(x, addr)) + #[trigger] waiting_from(
                    after.parent_buffer,
                    addr,
                ) == arrivals(s, m, addr)
            &&& forall|t: int, i: int|
                #![trigger run.met[t], s.targets[t].edges[i]]
                0 <= t < k && 0 <= i < s.targets[t].edges.len() ==> next_is_beyond(
                    arrivals(s, m, s.targets[t].edges[i].0),
                    run.ms.take(run.met[t]),
                    s.targets[t].edges[i],
                )
        }),
{
    let b = s.buffered(m);
    let ms = settled_batch(b, from);
    let run = run_of(s, q, ms, from, index, met_at(b, from));
    lemma_run_of(s, q, ms, from, index, met_at(b, from));
    lemma_works_off(s, q, m, from, index, is_sharded);
    lemma_state_after(s, q, m, from, index, is_sharded);
    let after = s.sent_packet(m, from);
    assert forall|addr: ReplicaAddr|
        run.ms.filter(|x: PacketModel| is_from(x, addr)) + #[trigger] waiting_from(
            after.parent_buffer,
            addr,
        ) == arrivals(s, m, addr) by {
        buffered_in_order(s, m, addr);
        settled_in_order(b, from, addr);
    }
    assert forall|t: int, i: int|
        #![trigger run.met[t], s.targets[t].edges[i]]
        0 <= t < run.met.len() && 0 <= i < s.targets[t].edges.len() implies next_is_beyond(
        arrivals(s, m, s.targets[t].edges[i].0),
        run.ms.take(run.met[t]),
        s.targets[t].edges[i],
    ) by {
        buffered_in_order(s, m, s.targets[t].edges[i].0);
        buffered_labelled(s, m);
        met_eagerly(b, from, t, i);
    }
    run
}

proof fn lemma_works_off(
    s: SharderModel,
    q: QueueModel,
    m: PacketModel,
    from: DomainIndex,
    index: LocalNodeIndex,
    is_sharded: bool,
)
    requires
        s.targets.len() > 0,
        sorted_by_parent(s.parent_buffer),
        labelled(s.parent_buffer),
        s.can_send(m, from, is_sharded),
    ensures
        works_off(
            s,
            run_of(
                s,
                q,
                settled_batch(s.buffered(m), from),
                from,
                index,
                met_at(s.buffered(m), from),
            ),
        ),
{
    let b = s.buffered(m);
    let ms = settled_batch(b, from);
    let met = met_at(b, from);
    let run = run_of(s, q, ms, from, index, met);
    buffered_in_order(s, m, (0, 0));
    buffered_labelled(s, m);
    met_targets(b, from);
    assert forall|t: int| 0 <= t < met.len() implies #[trigger] begins(met, t) <= met[t]
        <= ms.len() by {
        met_order(b, from, t);
    }
    assert forall|t: int| 0 <= t < met.len() implies meets(
        run.states[#[trigger] met[t]].max_provenance,
        s.targets[t],
    ) by {
        met_order(b, from, t);
        met_exactly(b, from, is_sharded, t);
        lemma_same_label(s, m, ms.take(met[t]), from);
    }
    assert forall|t: int, j: int|
        #![trigger s.targets[t], run.ms[j]]
        0 <= t < s.targets.len() && t <= met.len() && begins(met, t) <= j < ends(
            met,
            ms.len(),
            t,
        ) implies wants(s.targets[t], run.ms[j]) by {
        wanted(b, from, t, j);
    }
}

proof fn lemma_same_label(
    s: SharderModel,
    m: PacketModel,
    ms: Seq<PacketModel>,
    from: DomainIndex,
)
    ensures
        s.passed_all(ms, from).max_provenance == s.buffered(m).passed_all(ms, from).max_provenance,
{
    let b = s.buffered(m);
    s.lemma_passed_frame(Map::empty(), ms, from, 0, b.parent_buffer, b.targets);
    assert(b == (SharderModel { parent_buffer: b.parent_buffer, targets: b.targets, ..s }));
}

proof fn lemma_state_after(
    s: SharderModel,
    q: QueueModel,
    m: PacketModel,
    from: DomainIndex,
    index: LocalNodeIndex,
    is_sharded: bool,
)
    requires
        s.targets.len() > 0,
        sorted_by_parent(s.parent_buffer),
        s.can_send(m, from, is_sharded),
    ensures
        ({
            let b = s.buffered(m);
            let ms = settled_batch(b, from);
            let after = s.sent_packet(m, from);
            let k = met_at(b, from).len() as int;
            &&& k <= s.targets.len()
            &&& after.targets == s.targets.skip(k)
            &&& forall|t: int|
                0 <= t < k ==> (#[trigger] s.targets[t]).label <= after.max_provenance.label
            &&& k < s.targets.len() ==> after.max_provenance.label < s.targets[k].label
                && nothing_wanted(after.parent_buffer, s.targets[k])
            &&& k == s.targets.len() ==> after.parent_buffer.len() == 0
            &&& after == (SharderModel {
                targets: s.targets.skip(k),
                parent_buffer: after.parent_buffer,
                ..s.passed_all(ms, from)
            })
            &&& s.sent_queues(q, m, from, index) == s.forwarded_all(q, ms, from, index)
        }),
{
    let b = s.buffered(m);
    let ms = settled_batch(b, from);
    let met = met_at(b, from);
    let after = s.sent_packet(m, from);
    let k = met.len() as int;
    buffered_in_order(s, m, (0, 0));
    met_targets(b, from);
    settled_forwards_batch(b, q, from, index);
    s.lemma_passed_frame(q, ms, from, index, b.parent_buffer, b.targets);
    assert(b == (SharderModel { parent_buffer: b.parent_buffer, targets: b.targets, ..s }));
    settled_waits_for_target(b, from);
    assert forall|t: int| 0 <= t < k implies (#[trigger] s.targets[t]).label
        <= after.max_provenance.label by {
        met_order(b, from, t);
        met_exactly(b, from, is_sharded, t);
        lemma_label_grows(b, ms, from, met[t], ms.len() as int);
        assert(ms.take(ms.len() as int) =~= ms);
    }
    if k < s.targets.len() {
        assert(after.targets[0] == s.targets[k]);
        lemma_none_wanted(b, from);
    }
}

proof fn lemma_none_wanted(s: SharderModel, from: DomainIndex)
    requires
        s.targets.len() > 0,
        s.settled(from).targets.len() > 0,
        sorted_by_parent(s.parent_buffer),
    ensures
        nothing_wanted(s.settled(from).parent_buffer, s.settled(from).targets[0]),
{
    let buffer = s.settled(from).parent_buffer;
    let target = s.settled(from).targets[0];
    settled_in_order(s, from, (0, 0));
    assert forall|k: int, i: int|
        #![trigger target.edges[k], buffer[i]]
        0 <= k < target.edges.len() && 0 <= i < buffer.len() && buffer[i].0 == target.edges[k].0
            && buffer[i].1.len() > 0 implies buffer[i].1[0].0 > target.edges[k].1.label by {
        settled_leaves_none_ready(s, from, k);
        lemma_find(buffer, target.edges[k].0);
        let f = find(buffer, target.edges[k].0);
        if f < i {
            assert(buffer[f].0 != buffer[i].0);
        }
        assert(f == i);
    }
}

/// The packet has a provenance, and records that can be sharded.
pub open spec fn can_carry(s: SharderModel, m: PacketModel) -> bool {
    &&& provenance_of(m) is Some
    &&& match m {
        PacketModel::Message { id, link, data } => fits(s.routes, data),
        PacketModel::ReplayPiece { id, link, tag, data, context } => fits(s.routes, data),
        PacketModel::EvictKeys { id, link, tag, keys } => false,
    }
}

/// Every packet that waits can be forwarded, and there are labels enough for all of them.
spec fn ready_to_go(s: SharderModel, ms: Seq<PacketModel>) -> bool {
    &&& s.min_provenance.label + s.payloads.len() + ms.len() <= usize::MAX
    &&& forall|j: int| 0 <= j < ms.len() ==> can_carry(s, #[trigger] ms[j])
}

proof fn lemma_passed_bounds(s: SharderModel, ms: Seq<PacketModel>, from: DomainIndex)
    ensures
        s.passed_all(ms, from).payloads.len() <= s.payloads.len() + ms.len(),
        s.passed_all(ms, from).min_provenance == s.min_provenance,
        s.passed_all(ms, from).routes == s.routes,
        s.passed_all(ms, from).targets == s.targets,
        distinct(s.max_provenance.edges) ==> distinct(
            s.passed_all(ms, from).max_provenance.edges,
        ),
    decreases ms.len(),
{
    if ms.len() > 0 {
        lemma_passed_bounds(s, ms.drop_last(), from);
        let t = s.passed_all(ms.drop_last(), from);
        let update = t.update_for(ms.last(), from);
        if distinct(t.max_provenance.edges) {
            lemma_absorbed_distinct(t.max_provenance.edges, update, update.edges.len());
        }
    }
}

proof fn lemma_absorbed_distinct(
    edges: Seq<(ReplicaAddr, ProvTree)>,
    update: ProvTree,
    n: nat,
)
    requires
        distinct(edges),
    ensures
        distinct(ProvTree::absorbed(edges, update, n)),
    decreases n,
{
    if n > 0 && n <= update.edges.len() {
        lemma_absorbed_distinct(edges, update, (n - 1) as nat);
        let before = ProvTree::absorbed(edges, update, (n - 1) as nat);
        let (addr, p) = update.edges[n - 1];
        lemma_put_distinct(
            before,
            addr,
            if holds(before, addr) {
                get(before, addr).applied(p)
            } else {
                p
            },
        );
    }
}

proof fn lemma_all_go(s: SharderModel, ms: Seq<PacketModel>, from: DomainIndex)
    requires
        ready_to_go(s, ms),
    ensures
        s.can_forward_all(ms, from, false),
{
    assert forall|k: int| 0 <= k < ms.len() implies s.passed_all(ms.take(k), from).can_forward(
        #[trigger] ms[k],
        false,
    ) by {
        lemma_passed_bounds(s, ms.take(k), from);
        let t = s.passed_all(ms.take(k), from);
        assert(can_carry(s, ms[k]));
        assert(t.routes.shardable(ms[k]) == fits(s.routes, ms[k].data()));
        assert(ms[k].id() == provenance_of(ms[k]));
    }
}

/// What goes towards the first target, and what is left, is ready to go if all that waits is.
proof fn lemma_ready_parts(s: SharderModel, from: DomainIndex)
    requires
        s.targets.len() > 0,
        ready_to_go(s, all_waiting(s.parent_buffer)),
    ensures
        ready_to_go(s, s.next_batch()),
        ready_to_go(s.next_target(from), all_waiting(s.advanced(from).parent_buffer)),
{
    broadcast use vstd::seq_lib::group_to_multiset_ensures;

    let edges = s.targets[0].edges;
    let a = s.next_batch();
    let all = all_waiting(s.parent_buffer);
    let left = all_waiting(s.advanced(from).parent_buffer);
    called_for_is_taken(s.parent_buffer, edges, edges.len());
    lemma_next(s, from);
    lemma_passed_bounds(s, a, from);
    assert(all.to_multiset() == a.to_multiset().add(left.to_multiset()));
    assert(all.len() == a.len() + left.len()) by {
        assert(all.to_multiset().len() == all.len());
        assert(a.to_multiset().len() == a.len());
        assert(left.to_multiset().len() == left.len());
    }
    assert forall|j: int| 0 <= j < a.len() implies can_carry(s, #[trigger] a[j]) by {
        assert(a.contains(a[j]));
        assert(a.to_multiset().count(a[j]) > 0);
        assert(all.to_multiset().count(a[j]) > 0);
        assert(all.contains(a[j]));
        let i = choose|i: int| 0 <= i < all.len() && all[i] == a[j];
        assert(can_carry(s, all[i]));
    }
    let y = s.next_target(from);
    assert forall|j: int| 0 <= j < left.len() implies can_carry(y, #[trigger] left[j]) by {
        assert(left.contains(left[j]));
        assert(left.to_multiset().count(left[j]) > 0);
        assert(all.to_multiset().count(left[j]) > 0);
        assert(all.contains(left[j]));
        let i = choose|i: int| 0 <= i < all.len() && all[i] == left[j];
        assert(can_carry(s, all[i]));
    }
}

/// The packets `ms`, with the targets met as `met` says, work off targets of `s`.
spec fn goes_along(s: SharderModel, from: DomainIndex, ms: Seq<PacketModel>, met: Seq<int>) -> bool {
    &&& met.len() <= s.targets.len()
    &&& forall|t: int|
        0 <= t < met.len() ==> 0 <= #[trigger] begins(met, t) <= met[t] <= ms.len()
    &&& forall|t: int|
        0 <= t < met.len() ==> meets(
            s.passed_all(ms.take(#[trigger] met[t]), from).max_provenance,
            s.targets[t],
        )
    &&& forall|t: int, j: int|
        #![trigger s.targets[t], ms[j]]
        0 <= t < s.targets.len() && t <= met.len() && begins(met, t) <= j < ends(
            met,
            ms.len(),
            t,
        ) ==> wants(s.targets[t], ms[j])
}

/// The first target that is not met is overshot, or reached with other labels of its edges.
spec fn misses(s: SharderModel, from: DomainIndex, ms: Seq<PacketModel>, met: Seq<int>) -> bool {
    let p = s.passed_all(ms, from).max_provenance;
    &&& met.len() < s.targets.len()
    &&& p.label >= s.targets[met.len() as int].label
    &&& !meets(p, s.targets[met.len() as int])
}

proof fn lemma_first_wanted(s: SharderModel, from: DomainIndex, j: int)
    requires
        s.targets.len() > 0,
        sorted_by_parent(s.parent_buffer),
        labelled(s.parent_buffer),
        0 <= j < s.next_batch().len(),
    ensures
        wants(s.targets[0], s.next_batch()[j]),
{
    let a = s.next_batch();
    batch_is_called_for(s, j);
    let edges = s.targets[0].edges;
    let k = choose|k: int| 0 <= k < edges.len() && calls_for(#[trigger] edges[k], a[j]);
    assert(provenance_of(a[j]) == a[j].id());
    assert(edges[k].0 == edges[k].0);
}

proof fn lemma_meets(p: ProvTree, target: ProvTree)
    requires
        distinct(p.edges),
    ensures
        meets(p, target) == (p.label == target.label && edges_reached(p, target)),
{
    assert forall|k: int| 0 <= k < target.edges.len() implies notes(
        p,
        (#[trigger] target.edges[k]).0,
        target.edges[k].1.label,
    ) == (holds(p.edges, target.edges[k].0) && get(p.edges, target.edges[k].0).label
        == target.edges[k].1.label) by {
        let addr = target.edges[k].0;
        let label = target.edges[k].1.label;
        lemma_find(p.edges, addr);
        if holds(p.edges, addr) && get(p.edges, addr).label == label {
            assert(p.edges[find(p.edges, addr)].0 == addr);
        }
        if notes(p, addr, label) {
            let i = choose|i: int|
                0 <= i < p.edges.len() && (#[trigger] p.edges[i]).0 == addr && p.edges[i].1.label
                    == label;
            lemma_find_is_distinct(p.edges, addr, i);
        }
    }
    if meets(p, target) {
        assert forall|k: int| 0 <= k < target.edges.len() implies holds(
            p.edges,
            (#[trigger] target.edges[k]).0,
        ) && get(p.edges, target.edges[k].0).label == target.edges[k].1.label by {
            assert(notes(p, target.edges[k].0, target.edges[k].1.label));
        }
    }
    if p.label == target.label && edges_reached(p, target) {
        assert forall|k: int| 0 <= k < target.edges.len() implies notes(
            p,
            (#[trigger] target.edges[k]).0,
            target.edges[k].1.label,
        ) by {
            assert(holds(p.edges, target.edges[k].0));
        }
    }
}

proof fn lemma_find_is_distinct(edges: Seq<(ReplicaAddr, ProvTree)>, addr: ReplicaAddr, i: int)
    requires
        distinct(edges),
        0 <= i < edges.len(),
        edges[i].0 == addr,
    ensures
        find(edges, addr) == i,
{
    lemma_find(edges, addr);
    let f = find(edges, addr);
    if f < i {
        assert(edges[f].0 != edges[i].0);
    }
}

proof fn lemma_missed(s: SharderModel, from: DomainIndex) -> (found: (Seq<PacketModel>, Seq<int>))
    requires
        !s.can_settle(from, false),
        sorted_by_parent(s.parent_buffer),
        labelled(s.parent_buffer),
        distinct(s.max_provenance.edges),
        ready_to_go(s, all_waiting(s.parent_buffer)),
    ensures
        goes_along(s, from, found.0, found.1),
        misses(s, from, found.0, found.1),
    decreases s.targets.len(),
{
    let a = s.next_batch();
    let y = s.next_target(from);
    lemma_next(s, from);
    lemma_ready_parts(s, from);
    lemma_all_go(s, a, from);
    lemma_passed_bounds(s, a, from);
    let p = s.advanced(from).max_provenance;
    lemma_meets(p, s.targets[0]);
    assert forall|j: int| 0 <= j < a.len() implies wants(s.targets[0], #[trigger] a[j]) by {
        lemma_first_wanted(s, from, j);
    }
    if !meets(p, s.targets[0]) {
        (a, Seq::empty())
    } else {
        if s.targets.len() == 1 {
            lemma_all_go(y, all_waiting(s.advanced(from).parent_buffer), from);
            assert(false);
        }
        lemma_next_buffer(s, from);
        let (b, c) = lemma_missed(y, from);
        let ms = a + b;
        let met = seq![a.len() as int] + c.map_values(|x: int| a.len() + x);
        lemma_join(s, from, b, c);
        (ms, met)
    }
}

/// A run behind the first target, put behind the packets that met it.
proof fn lemma_join(s: SharderModel, from: DomainIndex, b: Seq<PacketModel>, c: Seq<int>)
    requires
        s.targets.len() > 1,
        meets(s.advanced(from).max_provenance, s.targets[0]),
        goes_along(s.next_target(from), from, b, c),
        misses(s.next_target(from), from, b, c),
        forall|j: int|
            0 <= j < s.next_batch().len() ==> wants(s.targets[0], #[trigger] s.next_batch()[j]),
    ensures
        ({
            let a = s.next_batch();
            let met = seq![a.len() as int] + c.map_values(|x: int| a.len() + x);
            goes_along(s, from, a + b, met) && misses(s, from, a + b, met)
        }),
{
    let a = s.next_batch();
    let ms = a + b;
    let met = seq![a.len() as int] + c.map_values(|x: int| a.len() + x);
    let y = s.next_target(from);
    lemma_next(s, from);
    assert forall|t: int| 0 <= t < met.len() implies 0 <= #[trigger] begins(met, t) <= met[t]
        <= ms.len() by {
        if t > 0 {
            assert(0 <= begins(c, t - 1) <= c[t - 1] <= b.len());
        }
    }
    assert forall|t: int| 0 <= t < met.len() implies meets(
        s.passed_all(ms.take(#[trigger] met[t]), from).max_provenance,
        s.targets[t],
    ) by {
        lemma_join_meets(s, from, b, c, t);
    }
    assert forall|t: int, j: int|
        #![trigger s.targets[t], ms[j]]
        0 <= t < s.targets.len() && t <= met.len() && begins(met, t) <= j < ends(
            met,
            ms.len(),
            t,
        ) implies wants(s.targets[t], ms[j]) by {
        lemma_join_wants(s, from, b, c, t, j);
    }
    assert(misses(s, from, ms, met)) by {
        lemma_prefix(s, from, b, b.len() as int);
        assert(ms.take(ms.len() as int) =~= ms);
        assert(b.take(b.len() as int) =~= b);
        let k = c.len() as int;
        assert(y.targets[k] == s.targets[k + 1]);
    }
}

proof fn lemma_join_meets(
    s: SharderModel,
    from: DomainIndex,
    b: Seq<PacketModel>,
    c: Seq<int>,
    t: int,
)
    requires
        s.targets.len() > 1,
        meets(s.advanced(from).max_provenance, s.targets[0]),
        goes_along(s.next_target(from), from, b, c),
        0 <= t < c.len() + 1,
    ensures
        ({
            let a = s.next_batch();
            let met = seq![a.len() as int] + c.map_values(|x: int| a.len() + x);
            meets(s.passed_all((a + b).take(met[t]), from).max_provenance, s.targets[t])
        }),
{
    let a = s.next_batch();
    let y = s.next_target(from);
    lemma_next(s, from);
    if t == 0 {
        assert((a + b).take(a.len() as int) =~= a);
    } else {
        assert(0 <= begins(c, t - 1) <= c[t - 1] <= b.len());
        lemma_prefix(s, from, b, c[t - 1]);
        assert(y.targets[t - 1] == s.targets[t]);
        assert(meets(y.passed_all(b.take(c[t - 1]), from).max_provenance, y.targets[t - 1]));
    }
}

proof fn lemma_join_wants(
    s: SharderModel,
    from: DomainIndex,
    b: Seq<PacketModel>,
    c: Seq<int>,
    t: int,
    j: int,
)
    requires
        s.targets.len() > 1,
        goes_along(s.next_target(from), from, b, c),
        forall|i: int|
            0 <= i < s.next_batch().len() ==> wants(s.targets[0], #[trigger] s.next_batch()[i]),
        0 <= t < s.targets.len(),
        t <= c.len() + 1,
        ({
            let a = s.next_batch();
            let met = seq![a.len() as int] + c.map_values(|x: int| a.len() + x);
            begins(met, t) <= j < ends(met, (a + b).len(), t)
        }),
    ensures
        wants(s.targets[t], (s.next_batch() + b)[j]),
{
    let a = s.next_batch();
    let y = s.next_target(from);
    let met = seq![a.len() as int] + c.map_values(|x: int| a.len() + x);
    lemma_next(s, from);
    if t == 0 {
        assert((a + b)[j] == a[j]);
    } else {
        let k = t - 1;
        assert(y.targets[k] == s.targets[t]);
        if k > 0 {
            assert(met[k] == a.len() + c[k - 1]);
            assert(0 <= begins(c, k - 1) <= c[k - 1] <= b.len());
        }
        if k < c.len() {
            assert(met[t] == a.len() + c[k]);
            assert(0 <= begins(c, k) <= c[k] <= b.len());
        }
        assert((a + b)[j] == b[j - a.len()]);
        assert(wants(y.targets[k], b[j - a.len()]));
    }
}

proof fn lemma_prefix(s: SharderModel, from: DomainIndex, b: Seq<PacketModel>, c: int)
    requires
        s.targets.len() > 0,
        0 <= c <= b.len(),
    ensures
        s.passed_all((s.next_batch() + b).take(s.next_batch().len() + c), from).max_provenance
            == s.next_target(from).passed_all(b.take(c), from).max_provenance,
{
    let a = s.next_batch();
    let y = s.next_target(from);
    let mid = s.passed_all(a, from);
    lemma_next(s, from);
    assert((a + b).take(a.len() + c) =~= a + b.take(c));
    s.lemma_passed_add(Map::empty(), a, b.take(c), from, 0);
    mid.lemma_passed_frame(Map::empty(), b.take(c), from, 0, y.parent_buffer, y.targets);
}

/// A packet that can be forwarded, as can all that wait, is refused for one reason only: the run
/// that works off the targets comes to a point where the first target left is overshot, or
/// reached with other labels of its edges.
pub proof fn refused_where_a_target_is_missed(
    s: SharderModel,
    q: QueueModel,
    m: PacketModel,
    from: DomainIndex,
    index: LocalNodeIndex,
) -> (run: Run)
    requires
        s.targets.len() > 0,
        sorted_by_parent(s.parent_buffer),
        labelled(s.parent_buffer),
        distinct(s.max_provenance.edges),
        can_carry(s, m),
        forall|j: int|
            0 <= j < all_waiting(s.parent_buffer).len() ==> can_carry(
                s,
                #[trigger] all_waiting(s.parent_buffer)[j],
            ),
        s.min_provenance.label + s.payloads.len() + all_waiting(s.parent_buffer).len() + 1
            <= usize::MAX,
        !s.can_send(m, from, false),
    ensures
        is_run(s, q, from, index, run),
        works_off(s, run),
        run.met.len() < s.targets.len(),
        run.states.last().max_provenance.label >= s.targets[run.met.len() as int].label,
        !meets(run.states.last().max_provenance, s.targets[run.met.len() as int]),
{
    let b = s.buffered(m);
    assert(m.id() == provenance_of(m));
    buffered_in_order(s, m, (0, 0));
    buffered_labelled(s, m);
    lemma_all_ready(s, m);
    let (ms, met) = lemma_missed(b, from);
    let run = run_of(s, q, ms, from, index, met);
    lemma_run_of(s, q, ms, from, index, met);
    lemma_same_label(s, m, ms, from);
    assert(works_off(s, run)) by {
        lemma_along(s, q, m, from, index, ms, met);
    }
    run
}

proof fn lemma_all_ready(s: SharderModel, m: PacketModel)
    requires
        can_carry(s, m),
        ready_to_go(s, all_waiting(s.parent_buffer)),
        s.min_provenance.label + s.payloads.len() + all_waiting(s.parent_buffer).len() + 1
            <= usize::MAX,
    ensures
        ready_to_go(s.buffered(m), all_waiting(s.buffered(m).parent_buffer)),
{
    broadcast use vstd::seq_lib::group_to_multiset_ensures;

    let b = s.buffered(m);
    assert(m.id() == provenance_of(m));
    buffered_adds_packet(s, m);
    let before = all_waiting(s.parent_buffer);
    let all = all_waiting(b.parent_buffer);
    assert(all.to_multiset() == before.to_multiset().insert(m));
    assert(all.len() == before.len() + 1) by {
        assert(all.to_multiset().len() == all.len());
        assert(before.to_multiset().len() == before.len());
    }
    assert forall|j: int| 0 <= j < all.len() implies can_carry(b, #[trigger] all[j]) by {
        assert(all.contains(all[j]));
        assert(all.to_multiset().count(all[j]) > 0);
        if all[j] != m {
            assert(before.to_multiset().count(all[j]) > 0);
            assert(before.contains(all[j]));
            let i = choose|i: int| 0 <= i < before.len() && before[i] == all[j];
            assert(can_carry(s, before[i]));
        }
    }
}

proof fn lemma_along(
    s: SharderModel,
    q: QueueModel,
    m: PacketModel,
    from: DomainIndex,
    index: LocalNodeIndex,
    ms: Seq<PacketModel>,
    met: Seq<int>,
)
    requires
        goes_along(s.buffered(m), from, ms, met),
    ensures
        works_off(s, run_of(s, q, ms, from, index, met)),
{
    let run = run_of(s, q, ms, from, index, met);
    assert forall|t: int| 0 <= t < met.len() implies #[trigger] begins(met, t) <= met[t]
        <= ms.len() by {
        assert(0 <= begins(met, t) <= met[t] <= ms.len());
    }
    assert forall|t: int| 0 <= t < met.len() implies meets(
        run.states[#[trigger] met[t]].max_provenance,
        s.targets[t],
    ) by {
        assert(0 <= begins(met, t) <= met[t] <= ms.len());
        lemma_same_label(s, m, ms.take(met[t]), from);
    }
}

/// A packet that has a provenance can always be sent if neither it nor anything that waits is
/// called for by the first target, and that is still ahead. It waits then, and nothing else
/// happens. One without a provenance cannot be sent while there are targets.
pub proof fn a_packet_may_wait(
    s: SharderModel,
    q: QueueModel,
    m: PacketModel,
    from: DomainIndex,
    index: LocalNodeIndex,
    is_sharded: bool,
)
    requires
        s.targets.len() > 0,
        sorted_by_parent(s.parent_buffer),
        labelled(s.parent_buffer),
    ensures
        s.can_send(m, from, is_sharded) ==> provenance_of(m) is Some,
        provenance_of(m) is Some && s.max_provenance.label < s.targets[0].label && (forall|k: int|
            0 <= k < s.targets[0].edges.len() ==> next_is_beyond(
                arrivals(s, m, (#[trigger] s.targets[0].edges[k]).0),
                Seq::empty(),
                s.targets[0].edges[k],
            )) ==> {
            let after = s.sent_packet(m, from);
            &&& s.can_send(m, from, is_sharded)
            &&& after == (SharderModel { parent_buffer: after.parent_buffer, ..s })
            &&& s.sent_queues(q, m, from, index) == q
            &&& forall|addr: ReplicaAddr| #[trigger]
                waiting_from(after.parent_buffer, addr) == arrivals(s, m, addr)
        },
{
    if provenance_of(m) is Some && s.max_provenance.label < s.targets[0].label && (forall|k: int|
        0 <= k < s.targets[0].edges.len() ==> next_is_beyond(
            arrivals(s, m, (#[trigger] s.targets[0].edges[k]).0),
            Seq::empty(),
            s.targets[0].edges[k],
        )) {
        let b = s.buffered(m);
        let edges = s.targets[0].edges;
        buffered_in_order(s, m, (0, 0));
        buffered_labelled(s, m);
        assert forall|k: int| 0 <= k < edges.len() implies none_ready(
            b.parent_buffer,
            (#[trigger] edges[k]).0,
            edges[k].1.label,
        ) by {
            let addr = edges[k].0;
            let came = arrivals(s, m, addr);
            buffered_in_order(s, m, addr);
            assert(waiting_from(b.parent_buffer, addr) == came);
            lemma_filter_none(Seq::<PacketModel>::empty(), |x: PacketModel| is_from(x, addr));
            lemma_find(b.parent_buffer, addr);
            if holds(b.parent_buffer, addr) && get(b.parent_buffer, addr).len() > 0 {
                let cell = b.parent_buffer[find(b.parent_buffer, addr)].1;
                assert(noted_labels(cell));
                assert(came[0] == cell[0].1);
                assert(next_is_beyond(came, Seq::empty(), edges[k]));
            }
        }
        lemma_nothing_goes(b.parent_buffer, edges, edges.len());
        assert(b.next_batch() =~= Seq::empty());
        assert(b.advanced(from) == b);
        assert forall|addr: ReplicaAddr| #[trigger]
            waiting_from(s.sent_packet(m, from).parent_buffer, addr) == arrivals(s, m, addr) by {
            buffered_in_order(s, m, addr);
        }
    }
}

proof fn lemma_nothing_goes(
    buffer: Seq<(ReplicaAddr, Waiting)>,
    edges: Seq<(ReplicaAddr, ProvTree)>,
    n: nat,
)
    requires
        n <= edges.len(),
        forall|k: int|
            0 <= k < edges.len() ==> none_ready(
                buffer,
                (#[trigger] edges[k]).0,
                edges[k].1.label,
            ),
    ensures
        called_for(buffer, edges, n).len() == 0,
        remaining(buffer, edges, n) == buffer,
    decreases n,
{
    if n > 0 {
        lemma_nothing_goes(buffer, edges, (n - 1) as nat);
        let (addr, p) = edges[n - 1];
        assert(none_ready(buffer, edges[n - 1].0, edges[n - 1].1.label));
        if holds(buffer, addr) {
            lemma_find(buffer, addr);
            let waiting = get(buffer, addr);
            assert(ready(waiting, p.label) == 0);
            assert(waiting.skip(0) =~= waiting);
            assert(put(buffer, addr, waiting) =~= buffer);
        }
    }
}

} // verus!
