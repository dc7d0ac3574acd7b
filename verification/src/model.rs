//! What a sharder does, as functions on its state.

use vstd::prelude::*;
use crate::assoc::{distinct, get, holds, put};
use crate::data::{shard_of, Row, Value};
use crate::ids::{DomainIndex, Link, LocalNodeIndex, ReplicaAddr, Tag};
use crate::outside::sent;
use crate::packet::{ContextModel, PacketModel};
use crate::provenance::ProvTree;

verus! {

/// The depth of the provenance that a sharder keeps. What it sends is one level shorter.
pub const PROVENANCE_DEPTH: usize = 3;

/// The packets that wait for each replica.
pub type QueueModel = Map<ReplicaAddr, Seq<PacketModel>>;

/// The packets that came from one parent and wait to be forwarded, each with its label.
pub type Waiting = Seq<(usize, PacketModel)>;

/// What was last sent to each replica, once a packet with the provenance `id` was sent to `addr`.
/// A packet without a provenance leaves no note.
pub open spec fn with_note(
    last: Map<ReplicaAddr, ProvTree>,
    addr: ReplicaAddr,
    id: Option<ProvTree>,
) -> Map<ReplicaAddr, ProvTree> {
    match id {
        Some(p) => last.insert(addr, p),
        None => last,
    }
}

/// Where a sharder sends what.
#[verifier::ext_equal]
pub struct Routes {
    /// The node and the replica of each shard.
    pub txs: Seq<(LocalNodeIndex, ReplicaAddr)>,
    /// The column by which records are sharded.
    pub shard_by: usize,
    /// The least label of a message that is sent to each replica.
    pub min_label_to_send: Map<ReplicaAddr, usize>,
}

/// Every shard must see the packet, whatever it carries: the last piece of a full replay, which
/// tells the shards that the node is ready, and the replay of keys, of which the sharder does
/// not know which shard asked for them.
pub open spec fn for_all_shards(m: PacketModel) -> bool {
    m matches PacketModel::ReplayPiece { context, .. } && (context is Partial || context
        == ContextModel::Regular { last: true })
}

impl Routes {
    /// The shard that a record belongs to.
    pub open spec fn shard_of_row(self, row: Row) -> int {
        shard_of(row.values[self.shard_by as int], self.txs.len())
    }

    /// Those of `rows` that belong to shard `i`, in order.
    pub open spec fn rows_for(self, rows: Seq<Row>, i: int) -> Seq<Row> {
        rows.filter(|row: Row| self.shard_of_row(row) == i)
    }

    /// Packet `m`, sent with label `label`, goes to shard `i`: it carries records of that shard,
    /// or is for all of them; and it is part of a replay, or the label is not below the least
    /// one that the shard is to be sent.
    pub open spec fn sends_to(self, m: PacketModel, label: usize, i: int) -> bool {
        &&& for_all_shards(m) || self.rows_for(m.data(), i).len() > 0
        &&& m is ReplayPiece || label >= self.min_label_to_send[self.txs[i].1]
    }

    /// What shard `i` gets of packet `m`.
    pub open spec fn part(self, m: PacketModel, index: LocalNodeIndex, i: int) -> PacketModel {
        m.with_data(self.rows_for(m.data(), i)).with_link(
            Link { src: index, dst: self.txs[i].0 },
        )
    }

    /// The queues after packet `m` was sent to those of the first `n` shards that it goes to.
    pub open spec fn routed(
        self,
        m: PacketModel,
        label: usize,
        index: LocalNodeIndex,
        q: QueueModel,
        n: nat,
    ) -> QueueModel
        decreases n,
    {
        if n == 0 {
            q
        } else {
            let before = self.routed(m, label, index, q, (n - 1) as nat);
            if self.sends_to(m, label, n - 1) {
                sent(before, self.txs[n - 1].1, self.part(m, index, n - 1))
            } else {
                before
            }
        }
    }

    /// The provenance that was last sent to each replica, once packet `m` was sent to those of
    /// the first `n` shards that it goes to.
    pub open spec fn noted(
        self,
        m: PacketModel,
        label: usize,
        last: Map<ReplicaAddr, ProvTree>,
        n: nat,
    ) -> Map<ReplicaAddr, ProvTree>
        decreases n,
    {
        if n == 0 {
            last
        } else {
            let before = self.noted(m, label, last, (n - 1) as nat);
            if self.sends_to(m, label, n - 1) {
                before.insert(self.txs[n - 1].1, m.id()->0)
            } else {
                before
            }
        }
    }

    /// The records of `m` can be sharded: each has the column by which that is done, and there
    /// is a shard to send it to.
    pub open spec fn shardable(self, m: PacketModel) -> bool {
        &&& m.carries_data()
        &&& m.data().len() > 0 ==> self.txs.len() > 0
        &&& forall|k: int|
            0 <= k < m.data().len() ==> self.shard_by < (#[trigger] m.data()[k]).values.len()
    }

    /// Packet `m` can be processed: its records can be sharded, and it has a provenance unless
    /// it goes nowhere.
    pub open spec fn can_process(self, m: PacketModel, label: usize, is_sharded: bool) -> bool {
        &&& !is_sharded
        &&& self.shardable(m)
        &&& forall|i: int|
            0 <= i < self.txs.len() && #[trigger] self.sends_to(m, label, i) ==> m.id() is Some
    }

    /// Those of `keys` that belong to shard `i`, in order.
    pub open spec fn keys_for(self, keys: Seq<Seq<Value>>, i: int) -> Seq<Seq<Value>> {
        keys.filter(|key: Seq<Value>| shard_of(key[0], self.txs.len()) == i)
    }

    /// The eviction is by the column by which records are sharded.
    pub open spec fn evicts_by_shard(self, key_columns: Seq<usize>) -> bool {
        key_columns =~= seq![self.shard_by]
    }

    /// Keys can be evicted: by the column by which records are sharded, if there are shards and
    /// no key is empty, or by other columns alone.
    pub open spec fn can_evict(
        self,
        key_columns: Seq<usize>,
        keys: Seq<Seq<Value>>,
        is_sharded: bool,
    ) -> bool {
        &&& !is_sharded
        &&& if self.evicts_by_shard(key_columns) {
            &&& keys.len() > 0 ==> self.txs.len() > 0
            &&& forall|k: int| 0 <= k < keys.len() ==> (#[trigger] keys[k]).len() > 0
        } else {
            &&& key_columns.len() > 0
            &&& !key_columns.contains(self.shard_by)
        }
    }

    /// The queues after an eviction.
    pub open spec fn evicted(
        self,
        id: Option<ProvTree>,
        key_columns: Seq<usize>,
        tag: Tag,
        keys: Seq<Seq<Value>>,
        src: LocalNodeIndex,
        q: QueueModel,
    ) -> QueueModel {
        if self.evicts_by_shard(key_columns) {
            self.evicted_by_shard(id, tag, keys, src, q, self.txs.len())
        } else {
            self.evicted_everywhere(id, tag, keys, src, q, self.txs.len())
        }
    }

    /// Shard `i` is told to evict something.
    pub open spec fn evicts_from(
        self,
        key_columns: Seq<usize>,
        keys: Seq<Seq<Value>>,
        i: int,
    ) -> bool {
        self.evicts_by_shard(key_columns) ==> self.keys_for(keys, i).len() > 0
    }

    /// The provenance that was last sent to each replica, once those of the first `n` shards were
    /// told to evict that are told to.
    pub open spec fn eviction_noted(
        self,
        id: Option<ProvTree>,
        key_columns: Seq<usize>,
        keys: Seq<Seq<Value>>,
        last: Map<ReplicaAddr, ProvTree>,
        n: nat,
    ) -> Map<ReplicaAddr, ProvTree>
        decreases n,
    {
        if n == 0 {
            last
        } else {
            let before = self.eviction_noted(id, key_columns, keys, last, (n - 1) as nat);
            if self.evicts_from(key_columns, keys, n - 1) {
                with_note(before, self.txs[n - 1].1, id)
            } else {
                before
            }
        }
    }

    /// The queues after the first `n` shards were told to evict those of `keys` that they hold.
    pub open spec fn evicted_by_shard(
        self,
        id: Option<ProvTree>,
        tag: Tag,
        keys: Seq<Seq<Value>>,
        src: LocalNodeIndex,
        q: QueueModel,
        n: nat,
    ) -> QueueModel
        decreases n,
    {
        if n == 0 {
            q
        } else {
            let before = self.evicted_by_shard(id, tag, keys, src, q, (n - 1) as nat);
            let (dst, addr) = self.txs[n - 1];
            let mine = self.keys_for(keys, n - 1);
            if mine.len() > 0 {
                sent(
                    before,
                    addr,
                    PacketModel::EvictKeys { id, link: Link { src, dst }, tag, keys: mine },
                )
            } else {
                before
            }
        }
    }

    /// The queues after the first `n` shards were told to evict `keys`.
    pub open spec fn evicted_everywhere(
        self,
        id: Option<ProvTree>,
        tag: Tag,
        keys: Seq<Seq<Value>>,
        src: LocalNodeIndex,
        q: QueueModel,
        n: nat,
    ) -> QueueModel
        decreases n,
    {
        if n == 0 {
            q
        } else {
            let before = self.evicted_everywhere(id, tag, keys, src, q, (n - 1) as nat);
            let (dst, addr) = self.txs[n - 1];
            sent(before, addr, PacketModel::EvictKeys { id, link: Link { src, dst }, tag, keys })
        }
    }
}

/// The state of a sharder.
#[verifier::ext_equal]
pub struct SharderModel {
    /// Where packets are sent.
    pub routes: Routes,
    /// Base provenance, including the label it represents.
    pub min_provenance: ProvTree,
    /// Base provenance with all updates applied.
    pub max_provenance: ProvTree,
    /// Provenance updates of the messages sent.
    pub updates: Seq<ProvTree>,
    /// The messages sent.
    pub payloads: Seq<PacketModel>,
    /// The provenance of the last packet sent to each replica, of those that have one.
    pub last_provenance: Map<ReplicaAddr, ProvTree>,
    /// The provenances to reach, in order, before packets are forwarded as they come.
    pub targets: Seq<ProvTree>,
    /// The packets of each parent that wait until a target calls for them.
    pub parent_buffer: Seq<(ReplicaAddr, Waiting)>,
}

/// How many of the packets at the front of `waiting` have a label of at most `max_label`.
pub open spec fn ready(waiting: Waiting, max_label: usize) -> nat
    decreases waiting.len(),
{
    if waiting.len() == 0 || waiting[0].0 > max_label {
        0
    } else {
        1 + ready(waiting.drop_first(), max_label)
    }
}

/// The packets without their labels.
pub open spec fn unlabelled(waiting: Waiting) -> Seq<PacketModel> {
    waiting.map_values(|e: (usize, PacketModel)| e.1)
}

/// What is left in the buffer once the first `n` edges of a target have taken what they call
/// for: each takes the packets at the front of its parent's that have at most its label.
pub open spec fn remaining(
    buffer: Seq<(ReplicaAddr, Waiting)>,
    edges: Seq<(ReplicaAddr, ProvTree)>,
    n: nat,
) -> Seq<(ReplicaAddr, Waiting)>
    decreases n,
{
    if n == 0 || n > edges.len() {
        buffer
    } else {
        let before = remaining(buffer, edges, (n - 1) as nat);
        let (addr, p) = edges[n - 1];
        if holds(before, addr) {
            let waiting = get(before, addr);
            put(before, addr, waiting.skip(ready(waiting, p.label) as int))
        } else {
            before
        }
    }
}

/// The packets that the first `n` edges of a target call for, in the order in which they are
/// forwarded.
pub open spec fn called_for(
    buffer: Seq<(ReplicaAddr, Waiting)>,
    edges: Seq<(ReplicaAddr, ProvTree)>,
    n: nat,
) -> Seq<PacketModel>
    decreases n,
{
    if n == 0 || n > edges.len() {
        Seq::empty()
    } else {
        let before = remaining(buffer, edges, (n - 1) as nat);
        let (addr, p) = edges[n - 1];
        let first = called_for(buffer, edges, (n - 1) as nat);
        if holds(before, addr) {
            let waiting = get(before, addr);
            first + unlabelled(waiting.take(ready(waiting, p.label) as int))
        } else {
            first
        }
    }
}

/// A packet says that it came from parent `addr`.
pub open spec fn is_from(m: PacketModel, addr: ReplicaAddr) -> bool {
    m.id() is Some && m.id()->0.root == addr
}

/// All packets came from parent `addr`.
pub open spec fn all_from(ms: Seq<PacketModel>, addr: ReplicaAddr) -> bool {
    forall|j: int| 0 <= j < ms.len() ==> is_from(#[trigger] ms[j], addr)
}

/// Each parent has one place in the buffer, in which only its packets wait.
pub open spec fn sorted_by_parent(buffer: Seq<(ReplicaAddr, Waiting)>) -> bool {
    &&& distinct(buffer)
    &&& forall|k: int|
        0 <= k < buffer.len() ==> all_from(unlabelled((#[trigger] buffer[k]).1), buffer[k].0)
}

/// The label noted for each packet is the one that the packet carries.
pub open spec fn noted_labels(waiting: Waiting) -> bool {
    forall|j: int|
        0 <= j < waiting.len() ==> (#[trigger] waiting[j]).1.id() is Some
            && waiting[j].1.id()->0.label == waiting[j].0
}

/// The labels in the buffer are those that the packets carry.
pub open spec fn labelled(buffer: Seq<(ReplicaAddr, Waiting)>) -> bool {
    forall|k: int| 0 <= k < buffer.len() ==> noted_labels((#[trigger] buffer[k]).1)
}

/// All packets in the buffer, parent by parent.
pub open spec fn all_waiting(buffer: Seq<(ReplicaAddr, Waiting)>) -> Seq<PacketModel>
    decreases buffer.len(),
{
    if buffer.len() == 0 {
        Seq::empty()
    } else {
        all_waiting(buffer.drop_last()) + unlabelled(buffer.last().1)
    }
}

/// The labels below the root of `p` are those of the target's edges.
pub open spec fn edges_reached(p: ProvTree, target: ProvTree) -> bool {
    forall|k: int|
        0 <= k < target.edges.len() ==> holds(p.edges, (#[trigger] target.edges[k]).0) && get(
            p.edges,
            target.edges[k].0,
        ).label == target.edges[k].1.label
}

impl SharderModel {
    /// The label that `m` is sent with. A message gets the next one; a replay is a snapshot of
    /// what was sent, and gets the label of the last message.
    pub open spec fn label_for(self, m: PacketModel) -> int {
        self.min_provenance.label + self.payloads.len() + if m is Message {
            1int
        } else {
            0
        }
    }

    /// The provenance update that `m` brings: that of `m`, below the label that `m` is sent
    /// with.
    pub open spec fn update_for(self, m: PacketModel, from: DomainIndex) -> ProvTree {
        ProvTree {
            root: (from, 0),
            label: self.label_for(m) as usize,
            edges: match m.id() {
                Some(p) => seq![(p.root, p)],
                None => Seq::empty(),
            },
        }
    }

    /// What is sent in the place of `m`: a message says what it changed, anything else carries
    /// the whole provenance, each to the depth that is sent.
    pub open spec fn stamped(self, m: PacketModel, from: DomainIndex) -> PacketModel {
        let update = self.update_for(m, from);
        m.with_id(
            Some(
                (if m is Message {
                    update
                } else {
                    self.max_provenance.applied(update)
                }).trimmed((PROVENANCE_DEPTH - 1) as nat),
            ),
        )
    }

    /// The state once `m` was prepared to be sent. Messages are kept, with their updates.
    pub open spec fn prepared(self, m: PacketModel, from: DomainIndex) -> SharderModel {
        let update = self.update_for(m, from);
        SharderModel {
            max_provenance: self.max_provenance.applied(update),
            updates: if m is Message {
                self.updates.push(update)
            } else {
                self.updates
            },
            payloads: if m is Message {
                self.payloads.push(self.stamped(m, from))
            } else {
                self.payloads
            },
            ..self
        }
    }

    /// `m` can be prepared: its label is a machine word, and while there are targets it has a
    /// provenance.
    pub open spec fn can_prepare(self, m: PacketModel) -> bool {
        &&& self.label_for(m) <= usize::MAX
        &&& m.id() is None ==> self.targets.len() == 0
    }

    /// `m` can be forwarded.
    pub open spec fn can_forward(self, m: PacketModel, is_sharded: bool) -> bool {
        !is_sharded && self.can_prepare(m) && self.routes.shardable(m)
    }

    /// The state once `m` was forwarded: it was prepared, and its provenance is noted for the
    /// replicas that it went to.
    pub open spec fn passed(self, m: PacketModel, from: DomainIndex) -> SharderModel {
        let s = self.prepared(m, from);
        SharderModel {
            last_provenance: self.routes.noted(
                self.stamped(m, from),
                s.max_provenance.label,
                self.last_provenance,
                self.routes.txs.len(),
            ),
            ..s
        }
    }

    /// The queues once `m` was forwarded.
    pub open spec fn forwarded(
        self,
        q: QueueModel,
        m: PacketModel,
        from: DomainIndex,
        index: LocalNodeIndex,
    ) -> QueueModel {
        self.routes.routed(
            self.stamped(m, from),
            self.prepared(m, from).max_provenance.label,
            index,
            q,
            self.routes.txs.len(),
        )
    }

    /// The state once the packets of `ms` were forwarded, one after the other.
    pub open spec fn passed_all(self, ms: Seq<PacketModel>, from: DomainIndex) -> SharderModel
        decreases ms.len(),
    {
        if ms.len() == 0 {
            self
        } else {
            self.passed_all(ms.drop_last(), from).passed(ms.last(), from)
        }
    }

    /// The packets of `ms` can be forwarded, one after the other.
    pub open spec fn can_forward_all(
        self,
        ms: Seq<PacketModel>,
        from: DomainIndex,
        is_sharded: bool,
    ) -> bool {
        forall|k: int|
            0 <= k < ms.len() ==> self.passed_all(ms.take(k), from).can_forward(
                #[trigger] ms[k],
                is_sharded,
            )
    }

    /// The queues once the packets of `ms` were forwarded, one after the other.
    pub open spec fn forwarded_all(
        self,
        q: QueueModel,
        ms: Seq<PacketModel>,
        from: DomainIndex,
        index: LocalNodeIndex,
    ) -> QueueModel
        decreases ms.len(),
    {
        if ms.len() == 0 {
            q
        } else {
            self.passed_all(ms.drop_last(), from).forwarded(
                self.forwarded_all(q, ms.drop_last(), from, index),
                ms.last(),
                from,
                index,
            )
        }
    }

    /// The state with `m` at the end of the buffer for the parent that sent it.
    pub open spec fn buffered(self, m: PacketModel) -> SharderModel
        recommends
            m.id() is Some,
    {
        let p = m.id()->0;
        let waiting = if holds(self.parent_buffer, p.root) {
            get(self.parent_buffer, p.root)
        } else {
            Seq::empty()
        };
        SharderModel {
            parent_buffer: put(self.parent_buffer, p.root, waiting.push((p.label, m))),
            ..self
        }
    }

    /// The packets of parent `addr` that wait at the front with at most the label `max_label`.
    pub open spec fn front(self, addr: ReplicaAddr, max_label: usize) -> Seq<PacketModel> {
        if holds(self.parent_buffer, addr) {
            let waiting = get(self.parent_buffer, addr);
            unlabelled(waiting.take(ready(waiting, max_label) as int))
        } else {
            Seq::empty()
        }
    }

    /// The buffer without those packets.
    pub open spec fn behind(self, addr: ReplicaAddr, max_label: usize) -> Seq<
        (ReplicaAddr, Waiting),
    > {
        if holds(self.parent_buffer, addr) {
            let waiting = get(self.parent_buffer, addr);
            put(self.parent_buffer, addr, waiting.skip(ready(waiting, max_label) as int))
        } else {
            self.parent_buffer
        }
    }

    /// The packets that the first target calls for.
    pub open spec fn next_batch(self) -> Seq<PacketModel> {
        called_for(self.parent_buffer, self.targets[0].edges, self.targets[0].edges.len())
    }

    /// The state once the packets were forwarded that the first target calls for.
    pub open spec fn advanced(self, from: DomainIndex) -> SharderModel {
        SharderModel {
            parent_buffer: remaining(
                self.parent_buffer,
                self.targets[0].edges,
                self.targets[0].edges.len(),
            ),
            ..self.passed_all(self.next_batch(), from)
        }
    }

    /// The first target was reached: the state has its label.
    pub open spec fn reaches_target(self, from: DomainIndex) -> bool {
        self.advanced(from).max_provenance.label >= self.targets[0].label
    }

    /// The state once the first target was reached and left behind; behind the last one nothing
    /// stays in the buffer.
    pub open spec fn next_target(self, from: DomainIndex) -> SharderModel {
        let s = self.advanced(from);
        SharderModel {
            targets: self.targets.drop_first(),
            parent_buffer: if self.targets.len() == 1 {
                Seq::empty()
            } else {
                s.parent_buffer
            },
            ..s
        }
    }

    /// The state once as many targets were reached as the buffer allows. Behind the last target
    /// everything that waits is forwarded.
    pub open spec fn settled(self, from: DomainIndex) -> SharderModel
        decreases self.targets.len(),
    {
        if self.targets.len() == 0 {
            self
        } else if !self.reaches_target(from) {
            self.advanced(from)
        } else if self.targets.len() == 1 {
            self.next_target(from).passed_all(
                all_waiting(self.advanced(from).parent_buffer),
                from,
            )
        } else {
            self.next_target(from).settled(from)
        }
    }

    /// The queues once as many targets were reached as the buffer allows.
    pub open spec fn settled_queues(
        self,
        q: QueueModel,
        from: DomainIndex,
        index: LocalNodeIndex,
    ) -> QueueModel
        decreases self.targets.len(),
    {
        let q1 = self.forwarded_all(q, self.next_batch(), from, index);
        if self.targets.len() == 0 {
            q
        } else if !self.reaches_target(from) {
            q1
        } else if self.targets.len() == 1 {
            self.next_target(from).forwarded_all(
                q1,
                all_waiting(self.advanced(from).parent_buffer),
                from,
                index,
            )
        } else {
            self.next_target(from).settled_queues(q1, from, index)
        }
    }

    /// The buffer can be worked off: every packet called for can be forwarded, and a target that
    /// is reached is met exactly, in its own label and in those of its edges.
    pub open spec fn can_settle(self, from: DomainIndex, is_sharded: bool) -> bool
        decreases self.targets.len(),
    {
        let s = self.advanced(from);
        self.targets.len() > 0 ==> {
            &&& self.can_forward_all(self.next_batch(), from, is_sharded)
            &&& self.reaches_target(from) ==> {
                &&& s.max_provenance.label == self.targets[0].label
                &&& edges_reached(s.max_provenance, self.targets[0])
                &&& if self.targets.len() == 1 {
                    self.next_target(from).can_forward_all(
                        all_waiting(s.parent_buffer),
                        from,
                        is_sharded,
                    )
                } else {
                    self.next_target(from).can_settle(from, is_sharded)
                }
            }
        }
    }

    /// The state once `m` was sent. Without targets it is forwarded as it comes.
    pub open spec fn sent_packet(self, m: PacketModel, from: DomainIndex) -> SharderModel {
        if self.targets.len() == 0 {
            self.passed(m, from)
        } else {
            self.buffered(m).settled(from)
        }
    }

    /// The queues once `m` was sent.
    pub open spec fn sent_queues(
        self,
        q: QueueModel,
        m: PacketModel,
        from: DomainIndex,
        index: LocalNodeIndex,
    ) -> QueueModel {
        if self.targets.len() == 0 {
            self.forwarded(q, m, from, index)
        } else {
            self.buffered(m).settled_queues(q, from, index)
        }
    }

    /// `m` can be sent.
    pub open spec fn can_send(self, m: PacketModel, from: DomainIndex, is_sharded: bool) -> bool {
        if self.targets.len() == 0 {
            self.can_forward(m, is_sharded)
        } else {
            m.id() is Some && self.buffered(m).can_settle(from, is_sharded)
        }
    }
}

/// The least of some labels, or the greatest machine word if there are none.
pub open spec fn least_label(labels: Seq<(ReplicaAddr, usize)>) -> usize
    decreases labels.len(),
{
    if labels.len() == 0 {
        usize::MAX
    } else {
        let least = least_label(labels.drop_last());
        if labels.last().1 < least {
            labels.last().1
        } else {
            least
        }
    }
}

/// The least labels once each replica in `labels` was given the one that stands there; of two
/// for one replica the later counts.
pub open spec fn relabelled(
    min_label_to_send: Map<ReplicaAddr, usize>,
    labels: Seq<(ReplicaAddr, usize)>,
) -> Map<ReplicaAddr, usize>
    decreases labels.len(),
{
    if labels.len() == 0 {
        min_label_to_send
    } else {
        relabelled(min_label_to_send, labels.drop_last()).insert(labels.last().0, labels.last().1)
    }
}

/// A label that shows that a stateless domain was lost: it is beyond the next one to be sent,
/// or it is the next one and nothing was sent so far.
pub open spec fn shows_loss(label: usize, next_label: int) -> bool {
    label > next_label || (label == next_label && label == 1)
}

/// The position of the first label that shows that a stateless domain was lost, or the length
/// of the list if there is none.
pub open spec fn first_loss(labels: Seq<(ReplicaAddr, usize)>, next_label: int) -> int
    decreases labels.len(),
{
    if labels.len() == 0 || shows_loss(labels[0].1, next_label) {
        0
    } else {
        1 + first_loss(labels.drop_first(), next_label)
    }
}

impl SharderModel {
    /// The label of the next message.
    pub open spec fn next_label(self) -> int {
        self.min_provenance.label + self.payloads.len() + 1
    }

    /// Packets that were never sent here are asked for.
    pub open spec fn resumes_ahead(self, labels: Seq<(ReplicaAddr, usize)>) -> bool {
        let k = first_loss(labels, self.next_label());
        k < labels.len() && labels[k].1 > self.next_label()
    }

    /// Sending can be resumed at `labels`: a stateless domain was lost, and if packets are asked
    /// for that were never sent here, no message was kept and no label is zero.
    pub open spec fn can_resume(self, labels: Seq<(ReplicaAddr, usize)>) -> bool {
        &&& self.next_label() <= usize::MAX
        &&& first_loss(labels, self.next_label()) < labels.len()
        &&& self.resumes_ahead(labels) ==> self.payloads.len() == 0 && self.updates.len() == 0
            && least_label(labels) > 0
    }

    /// The state once sending was resumed at `labels`, with `targets` to reach.
    pub open spec fn resumed(
        self,
        labels: Seq<(ReplicaAddr, usize)>,
        targets: Seq<ProvTree>,
    ) -> SharderModel {
        let s = SharderModel {
            routes: Routes {
                min_label_to_send: relabelled(self.routes.min_label_to_send, labels),
                ..self.routes
            },
            targets,
            ..self
        };
        if self.resumes_ahead(labels) {
            let label = (least_label(labels) - 1) as usize;
            SharderModel {
                min_provenance: ProvTree { label, ..s.min_provenance },
                max_provenance: ProvTree { label, ..s.max_provenance },
                ..s
            }
        } else {
            s
        }
    }

    /// The provenance of a child that was sent nothing.
    pub open spec fn initial_provenance(self) -> ProvTree {
        self.min_provenance.trimmed((PROVENANCE_DEPTH - 1) as nat).zeroed()
    }

    /// The state with the children `txs`, at node `dst`, each of which is sent all messages.
    pub open spec fn with_children(
        self,
        dst: LocalNodeIndex,
        txs: Seq<ReplicaAddr>,
    ) -> SharderModel {
        SharderModel {
            routes: Routes {
                txs: txs.map_values(|addr: ReplicaAddr| (dst, addr)),
                min_label_to_send: self.routes.min_label_to_send.union_prefer_right(
                    Map::new(|addr: ReplicaAddr| txs.contains(addr), |addr: ReplicaAddr| 1usize),
                ),
                ..self.routes
            },
            last_provenance: self.last_provenance.union_prefer_right(
                Map::new(
                    |addr: ReplicaAddr| txs.contains(addr),
                    |addr: ReplicaAddr| self.initial_provenance(),
                ),
            ),
            ..self
        }
    }
}

/// A position with a label that shows a loss, and before which there is none, is what
/// `first_loss` returns.
pub proof fn lemma_first_loss(labels: Seq<(ReplicaAddr, usize)>, next_label: int, k: int)
    requires
        0 <= k <= labels.len(),
        k < labels.len() ==> shows_loss(labels[k].1, next_label),
        forall|j: int| 0 <= j < k ==> !shows_loss((#[trigger] labels[j]).1, next_label),
    ensures
        first_loss(labels, next_label) == k,
    decreases k,
{
    if k > 0 {
        assert(!shows_loss(labels[0].1, next_label));
        let rest = labels.drop_first();
        assert forall|j: int| 0 <= j < k - 1 implies !shows_loss(
            (#[trigger] rest[j]).1,
            next_label,
        ) by {
            assert(rest[j] == labels[j + 1]);
        }
        lemma_first_loss(rest, next_label, k - 1);
    }
}

/// What `ready` counts, without recursion.
pub proof fn lemma_ready(waiting: Waiting, max_label: usize)
    ensures
        ready(waiting, max_label) <= waiting.len(),
        forall|j: int|
            0 <= j < ready(waiting, max_label) ==> (#[trigger] waiting[j]).0 <= max_label,
        ready(waiting, max_label) < waiting.len() ==> waiting[ready(
            waiting,
            max_label,
        ) as int].0 > max_label,
    decreases waiting.len(),
{
    if waiting.len() != 0 && waiting[0].0 <= max_label {
        let rest = waiting.drop_first();
        lemma_ready(rest, max_label);
        assert forall|j: int| 0 <= j < ready(waiting, max_label) implies (
        #[trigger] waiting[j]).0 <= max_label by {
            if j > 0 {
                assert(rest[j - 1] == waiting[j]);
            }
        }
        if ready(waiting, max_label) < waiting.len() {
            assert(rest[ready(rest, max_label) as int] == waiting[ready(waiting, max_label) as int]);
        }
    }
}

/// What fewer edges call for comes first in what more edges call for.
pub proof fn lemma_called_for_prefix(
    buffer: Seq<(ReplicaAddr, Waiting)>,
    edges: Seq<(ReplicaAddr, ProvTree)>,
    n: nat,
    k: nat,
)
    requires
        n <= k <= edges.len(),
    ensures
        called_for(buffer, edges, n).len() <= called_for(buffer, edges, k).len(),
        called_for(buffer, edges, n) == called_for(buffer, edges, k).take(
            called_for(buffer, edges, n).len() as int,
        ),
    decreases k,
{
    let a = called_for(buffer, edges, n);
    let b = called_for(buffer, edges, k);
    if n == k {
        assert(b.take(b.len() as int) =~= b);
    } else {
        lemma_called_for_prefix(buffer, edges, n, (k - 1) as nat);
        let c = called_for(buffer, edges, (k - 1) as nat);
        assert(a =~= b.take(a.len() as int)) by {
            assert forall|i: int| 0 <= i < a.len() implies a[i] == b[i] by {
                assert(a[i] == c.take(a.len() as int)[i]);
            }
        }
    }
}

impl SharderModel {
    /// One packet more is forwarded behind the others.
    pub proof fn lemma_passed_push(
        self,
        q: QueueModel,
        ms: Seq<PacketModel>,
        m: PacketModel,
        from: DomainIndex,
        index: LocalNodeIndex,
    )
        ensures
            self.passed_all(ms.push(m), from) == self.passed_all(ms, from).passed(m, from),
            self.forwarded_all(q, ms.push(m), from, index) == self.passed_all(ms, from).forwarded(
                self.forwarded_all(q, ms, from, index),
                m,
                from,
                index,
            ),
    {
        assert(ms.push(m).drop_last() =~= ms);
    }

    /// What is forwarded does not depend on the buffer or the targets, nor does it change them.
    pub proof fn lemma_passed_frame(
        self,
        q: QueueModel,
        ms: Seq<PacketModel>,
        from: DomainIndex,
        index: LocalNodeIndex,
        parent_buffer: Seq<(ReplicaAddr, Waiting)>,
        targets: Seq<ProvTree>,
    )
        ensures
            (SharderModel { parent_buffer, targets, ..self }).passed_all(ms, from) == (
            SharderModel { parent_buffer, targets, ..self.passed_all(ms, from) }),
            (SharderModel { parent_buffer, targets, ..self }).forwarded_all(q, ms, from, index)
                == self.forwarded_all(q, ms, from, index),
            self.passed_all(ms, from).parent_buffer == self.parent_buffer,
            self.passed_all(ms, from).targets == self.targets,
            self.passed_all(ms, from).routes == self.routes,
        decreases ms.len(),
    {
        if ms.len() > 0 {
            self.lemma_passed_frame(q, ms.drop_last(), from, index, parent_buffer, targets);
        }
    }

    /// Packets may be forwarded in two goes.
    pub proof fn lemma_passed_add(
        self,
        q: QueueModel,
        a: Seq<PacketModel>,
        b: Seq<PacketModel>,
        from: DomainIndex,
        index: LocalNodeIndex,
    )
        ensures
            self.passed_all(a + b, from) == self.passed_all(a, from).passed_all(b, from),
            self.forwarded_all(q, a + b, from, index) == self.passed_all(a, from).forwarded_all(
                self.forwarded_all(q, a, from, index),
                b,
                from,
                index,
            ),
        decreases b.len(),
    {
        if b.len() == 0 {
            assert(a + b =~= a);
        } else {
            self.lemma_passed_add(q, a, b.drop_last(), from, index);
            assert((a + b).drop_last() =~= a + b.drop_last());
            assert((a + b).last() == b.last());
        }
    }

    /// Whether a packet can be forwarded does not depend on the buffer.
    proof fn lemma_can_forward_frame(
        self,
        parent_buffer: Seq<(ReplicaAddr, Waiting)>,
        m: PacketModel,
        is_sharded: bool,
    )
        ensures
            (SharderModel { parent_buffer, ..self }).can_forward(m, is_sharded)
                == self.can_forward(m, is_sharded),
    {
    }

    /// What can be forwarded behind other packets can be forwarded once they were.
    #[verifier::rlimit(40)]
    pub proof fn lemma_can_forward_part(
        self,
        ms: Seq<PacketModel>,
        a: Seq<PacketModel>,
        b: Seq<PacketModel>,
        from: DomainIndex,
        is_sharded: bool,
        parent_buffer: Seq<(ReplicaAddr, Waiting)>,
    )
        requires
            self.can_forward_all(ms, from, is_sharded),
            a.len() + b.len() <= ms.len(),
            a + b == ms.take((a.len() + b.len()) as int),
        ensures
            (SharderModel { parent_buffer, ..self.passed_all(a, from) }).can_forward_all(
                b,
                from,
                is_sharded,
            ),
    {
        let s = self.passed_all(a, from);
        let t = SharderModel { parent_buffer, ..s };
        assert forall|k: int| 0 <= k < b.len() implies t.passed_all(
            b.take(k),
            from,
        ).can_forward(#[trigger] b[k], is_sharded) by {
            let i = a.len() + k;
            assert(ms[i] == (a + b)[i]);
            assert(ms.take(i) =~= a + b.take(k)) by {
                assert(ms.take(i) =~= (a + b).take(i));
            }
            self.lemma_passed_add(Map::empty(), a, b.take(k), from, 0);
            s.lemma_passed_frame(Map::empty(), b.take(k), from, 0, parent_buffer, s.targets);
            let u = s.passed_all(b.take(k), from);
            assert(u == self.passed_all(ms.take(i), from));
            assert(u.can_forward(ms[i], is_sharded));
            assert(t.passed_all(b.take(k), from) == (SharderModel {
                parent_buffer,
                targets: s.targets,
                ..u
            }));
            u.lemma_can_forward_frame(parent_buffer, ms[i], is_sharded);
        }
    }
}

} // verus!
