//! What holds of the labels and of the packets that a sharder keeps.

use vstd::prelude::*;
use crate::assoc::{as_map, get, holds, lemma_put_map, put};
use crate::ids::{DomainIndex, LocalNodeIndex, ReplicaAddr};
use crate::laws::provenance::{
    applied_is_wf, trimmed_is_wf, trimmed_is_within, zeroed_is_all_zero, zeroed_is_within,
};
use crate::model::{all_waiting, least_label, SharderModel, PROVENANCE_DEPTH};
use crate::packet::PacketModel;
use crate::provenance::ProvTree;

verus! {

/// `base` with all of `updates` applied, one after the other.
pub open spec fn applied_all(base: ProvTree, updates: Seq<ProvTree>) -> ProvTree
    decreases updates.len(),
{
    if updates.len() == 0 {
        base
    } else {
        applied_all(base, updates.drop_last()).applied(updates.last())
    }
}

/// What a sharder keeps fits together: there is one update for each message sent, in order, with
/// labels that count up from that of the base provenance; each message carries its update, to
/// the depth that is sent; and the latest provenance is the base with all updates applied.
pub open spec fn consistent(s: SharderModel) -> bool {
    &&& s.updates.len() == s.payloads.len()
    &&& s.min_provenance.label + s.payloads.len() <= usize::MAX
    &&& s.max_provenance == applied_all(s.min_provenance, s.updates)
    &&& forall|i: int|
        0 <= i < s.updates.len() ==> (#[trigger] s.updates[i]).label == s.min_provenance.label + i
            + 1
    &&& forall|i: int|
        0 <= i < s.payloads.len() ==> (#[trigger] s.payloads[i]) is Message && s.payloads[i].id()
            == Some(s.updates[i].trimmed((PROVENANCE_DEPTH - 1) as nat))
}

/// The latest label of a consistent sharder is that of the base provenance, plus one for each
/// message sent.
pub proof fn latest_label(s: SharderModel)
    requires
        consistent(s),
    ensures
        s.max_provenance.label == s.min_provenance.label + s.payloads.len(),
        s.max_provenance.root == s.min_provenance.root,
{
    applied_all_label(s.min_provenance, s.updates);
}

proof fn applied_all_label(base: ProvTree, updates: Seq<ProvTree>)
    requires
        forall|i: int|
            0 <= i < updates.len() ==> (#[trigger] updates[i]).label == base.label + i + 1,
    ensures
        applied_all(base, updates).label == base.label + updates.len(),
        applied_all(base, updates).root == base.root,
    decreases updates.len(),
{
    if updates.len() > 0 {
        let init = updates.drop_last();
        assert forall|i: int| 0 <= i < init.len() implies (#[trigger] init[i]).label == base.label
            + i + 1 by {
            assert(updates[i].label == base.label + i + 1);
        }
        applied_all_label(base, init);
    }
}

/// A sharder is consistent as long as nothing was sent and the latest provenance is the base:
/// so is a new one, and one whose provenance was just initialised.
pub proof fn initially_consistent(s: SharderModel)
    requires
        s.updates.len() == 0,
        s.payloads.len() == 0,
        s.max_provenance == s.min_provenance,
    ensures
        consistent(s),
{
}

/// A sharder stays consistent when a packet is prepared. A message gets the next label, and is
/// kept as it is sent.
pub proof fn prepared_consistent(s: SharderModel, m: PacketModel, from: DomainIndex)
    requires
        consistent(s),
        s.can_prepare(m),
    ensures
        consistent(s.prepared(m, from)),
        m is Message ==> s.prepared(m, from).max_provenance.label == s.max_provenance.label + 1,
        m is Message ==> s.prepared(m, from).payloads.last() == s.stamped(m, from),
        m is Message ==> s.stamped(m, from).id()->0.label == s.max_provenance.label + 1,
{
    latest_label(s);
    let t = s.prepared(m, from);
    if m is Message {
        assert(t.updates.drop_last() =~= s.updates);
    } else {
        replay_changes_nothing(s, m, from);
    }
}

/// A packet that is no message leaves a consistent sharder as it was: it is not kept, gets no
/// label of its own, and carries the latest provenance.
pub proof fn replay_changes_nothing(s: SharderModel, m: PacketModel, from: DomainIndex)
    requires
        consistent(s),
        !(m is Message),
    ensures
        s.prepared(m, from) == s,
        s.stamped(m, from).id() == Some(
            s.max_provenance.trimmed((PROVENANCE_DEPTH - 1) as nat),
        ),
        s.stamped(m, from).id()->0.label == s.max_provenance.label,
{
    latest_label(s);
}

/// What is sent has a provenance, one level shorter than what is kept; nothing else about a
/// packet changes when it is prepared.
pub proof fn stamped_packet(s: SharderModel, m: PacketModel, from: DomainIndex)
    ensures
        s.stamped(m, from).id() is Some,
        s.stamped(m, from).id()->0.within((PROVENANCE_DEPTH - 1) as nat),
        s.stamped(m, from).with_id(m.id()) == m,
        m is Message ==> s.stamped(m, from).id()->0.root == (from, 0usize),
{
    let update = s.update_for(m, from);
    trimmed_is_within(update, (PROVENANCE_DEPTH - 1) as nat);
    trimmed_is_within(s.max_provenance.applied(update), (PROVENANCE_DEPTH - 1) as nat);
}

/// How many of the packets are messages.
pub open spec fn messages(ms: Seq<PacketModel>) -> nat
    decreases ms.len(),
{
    if ms.len() == 0 {
        0
    } else {
        messages(ms.drop_last()) + if ms.last() is Message {
            1nat
        } else {
            0
        }
    }
}

/// A sharder stays consistent when packets are forwarded, and its label grows by the number of
/// messages among them.
pub proof fn passed_all_consistent(
    s: SharderModel,
    ms: Seq<PacketModel>,
    from: DomainIndex,
    is_sharded: bool,
)
    requires
        consistent(s),
        s.can_forward_all(ms, from, is_sharded),
    ensures
        consistent(s.passed_all(ms, from)),
        s.passed_all(ms, from).max_provenance.label == s.max_provenance.label + messages(ms),
    decreases ms.len(),
{
    if ms.len() > 0 {
        let init = ms.drop_last();
        assert(s.can_forward_all(init, from, is_sharded)) by {
            assert forall|k: int| 0 <= k < init.len() implies s.passed_all(
                init.take(k),
                from,
            ).can_forward(#[trigger] init[k], is_sharded) by {
                assert(ms[k] == init[k]);
                assert(ms.take(k) =~= init.take(k));
            }
        }
        passed_all_consistent(s, init, from, is_sharded);
        assert(ms.take(ms.len() - 1) =~= init);
        let k = ms.len() - 1;
        assert(s.passed_all(ms.take(k), from).can_forward(ms[k], is_sharded));
        prepared_consistent(s.passed_all(init, from), ms.last(), from);
        if !(ms.last() is Message) {
            replay_changes_nothing(s.passed_all(init, from), ms.last(), from);
        }
    }
}

/// A sharder stays consistent when the buffer is worked off.
pub proof fn settled_consistent(s: SharderModel, from: DomainIndex, is_sharded: bool)
    requires
        consistent(s),
        s.can_settle(from, is_sharded),
    ensures
        consistent(s.settled(from)),
    decreases s.targets.len(),
{
    if s.targets.len() > 0 {
        passed_all_consistent(s, s.next_batch(), from, is_sharded);
        let t = s.next_target(from);
        assert(consistent(s.advanced(from)));
        if s.reaches_target(from) {
            assert(consistent(t));
            if s.targets.len() == 1 {
                passed_all_consistent(
                    t,
                    all_waiting(s.advanced(from).parent_buffer),
                    from,
                    is_sharded,
                );
            } else {
                settled_consistent(t, from, is_sharded);
            }
        }
    }
}

/// A sharder stays consistent when a packet is sent.
pub proof fn sent_consistent(
    s: SharderModel,
    m: PacketModel,
    from: DomainIndex,
    is_sharded: bool,
)
    requires
        consistent(s),
        s.can_send(m, from, is_sharded),
    ensures
        consistent(s.sent_packet(m, from)),
{
    if s.targets.len() == 0 {
        prepared_consistent(s, m, from);
    } else {
        settled_consistent(s.buffered(m), from, is_sharded);
    }
}

/// A sharder stays consistent when children are added.
pub proof fn with_children_consistent(
    s: SharderModel,
    dst: LocalNodeIndex,
    txs: Seq<ReplicaAddr>,
)
    requires
        consistent(s),
    ensures
        consistent(s.with_children(dst, txs)),
{
}

/// A sharder stays consistent when sending is resumed. If packets are asked for that were never
/// sent here, the next message gets the least label that was asked for.
pub proof fn resumed_consistent(
    s: SharderModel,
    labels: Seq<(ReplicaAddr, usize)>,
    targets: Seq<ProvTree>,
)
    requires
        consistent(s),
        s.can_resume(labels),
    ensures
        consistent(s.resumed(labels, targets)),
        s.resumes_ahead(labels) ==> s.resumed(labels, targets).next_label() == least_label(labels),
        !s.resumes_ahead(labels) ==> s.resumed(labels, targets).next_label() == s.next_label(),
{
    assert(s.resumes_ahead(labels) ==> applied_all(s.min_provenance, s.updates) == s.min_provenance);
}

/// A new child was sent nothing: the provenance noted for it has only zero labels, and is one
/// level shorter than what the sharder keeps.
pub proof fn new_children_were_sent_nothing(
    s: SharderModel,
    dst: LocalNodeIndex,
    txs: Seq<ReplicaAddr>,
    i: int,
)
    requires
        0 <= i < txs.len(),
    ensures
        s.with_children(dst, txs).last_provenance.contains_key(txs[i]),
        s.with_children(dst, txs).last_provenance[txs[i]].all_zero(),
        s.with_children(dst, txs).last_provenance[txs[i]].within((PROVENANCE_DEPTH - 1) as nat),
{
    let t = s.min_provenance.trimmed((PROVENANCE_DEPTH - 1) as nat);
    assert(txs.contains(txs[i]));
    trimmed_is_within(s.min_provenance, (PROVENANCE_DEPTH - 1) as nat);
    zeroed_is_all_zero(t);
    zeroed_is_within(t, (PROVENANCE_DEPTH - 1) as nat);
}

/// Once a message was prepared, the latest provenance notes the parent that it came from, with
/// the label of the message there unless a later one was noted before.
pub proof fn prepared_notes_parent(s: SharderModel, m: PacketModel, from: DomainIndex)
    requires
        consistent(s),
        s.can_prepare(m),
        m is Message,
        m.id() is Some,
    ensures
        ({
            let p = m.id()->0;
            let before = s.max_provenance.edges;
            let after = s.prepared(m, from).max_provenance.edges;
            &&& holds(after, p.root)
            &&& get(after, p.root).label == if holds(before, p.root) && get(
                before,
                p.root,
            ).label >= p.label {
                get(before, p.root).label
            } else {
                p.label
            }
        }),
{
    latest_label(s);
    let p = m.id()->0;
    let update = s.update_for(m, from);
    let before = s.max_provenance.edges;
    let after = s.prepared(m, from).max_provenance.edges;
    assert(ProvTree::absorbed(before, update, 0) == before);
    assert(after == ProvTree::absorbed(before, update, 1));
    let v = if holds(before, p.root) {
        get(before, p.root).applied(p)
    } else {
        p
    };
    assert(after == put(before, p.root, v));
    lemma_put_map(before, p.root, v);
    assert(as_map(after).contains_key(p.root));
    assert(as_map(after)[p.root] == v);
}

/// What is kept and sent is well-formed, if what is received is.
pub proof fn prepared_is_wf(s: SharderModel, m: PacketModel, from: DomainIndex)
    requires
        s.max_provenance.wf(),
        m.id() is Some ==> m.id()->0.wf(),
    ensures
        s.prepared(m, from).max_provenance.wf(),
        s.update_for(m, from).wf(),
        s.stamped(m, from).id()->0.wf(),
{
    let update = s.update_for(m, from);
    applied_is_wf(s.max_provenance, update);
    trimmed_is_wf(update, (PROVENANCE_DEPTH - 1) as nat);
    trimmed_is_wf(s.max_provenance.applied(update), (PROVENANCE_DEPTH - 1) as nat);
}

} // verus!
