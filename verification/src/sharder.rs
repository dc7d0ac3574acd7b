//! The sharder itself.

use std::collections::VecDeque;
use fnv::FnvHashMap;
use vec_map::VecMap;
use vstd::prelude::*;
use crate::assoc::{
    as_map, assign, distinct, get, holds, lemma_find, lemma_find_same_keys, lemma_put_distinct,
    lemma_put_map, position,
};
use crate::data::{
    clone_keys, clone_values, key_values, rows, shard_by, shard_of, values, DataType, Record, Row,
    Value,
};
use crate::filter::lemma_filter_take;
use crate::ids::{DomainGraph, DomainIndex, Link, LocalNodeIndex, ReplicaAddr, Tag};
use crate::laws::sending::{buffered_in_order, buffered_labelled};
use crate::model::{
    all_from, all_waiting, called_for, edges_reached, first_loss, for_all_shards, least_label,
    labelled, lemma_called_for_prefix, lemma_first_loss, lemma_ready, noted_labels, ready,
    relabelled, remaining, shows_loss, sorted_by_parent, unlabelled, with_note, Routes,
    SharderModel, Waiting, PROVENANCE_DEPTH,
};
use crate::outside::{enqueue, queued, slots, slots_entry, slots_new, slots_remove, MAX_SHARDS};
use crate::packet::{clone_id, opt_tree, Packet, PacketModel, ReplayPieceContext};
use crate::provenance::{
    ancestry, edge_trees, gathered, lemma_edge_trees_put, ProvTree, Provenance, ProvenanceUpdate,
};

verus! {

/// A node that splits the packets it gets over the shards of the domain below it.
pub struct Sharder {
    /// The node and the replica of each shard.
    pub txs: Vec<(LocalNodeIndex, ReplicaAddr)>,
    /// The packet under construction for each shard; nothing stays here between calls.
    pub sharded: VecMap<Box<Packet>>,
    /// The column by which records are sharded.
    pub shard_by: usize,
    /// Base provenance, including the label it represents.
    pub min_provenance: Provenance,
    /// Base provenance with all updates applied.
    pub max_provenance: Provenance,
    /// Provenance updates of the messages sent.
    pub updates: Vec<ProvenanceUpdate>,
    /// The messages sent.
    pub payloads: Vec<Box<Packet>>,
    /// The replicas to send to, and the least label (inclusive) of a message for each.
    pub min_label_to_send: Vec<(ReplicaAddr, usize)>,
    /// The provenance of the last packet sent to each replica, of those that have one; all its
    /// labels are zero as long as there was none.
    pub last_provenance: Vec<(ReplicaAddr, Provenance)>,
    /// Provenances to reach, in order, as new messages are generated.
    pub targets: Vec<Provenance>,
    /// Packets of each parent that wait until the next target calls for them.
    pub parent_buffer: Vec<(ReplicaAddr, Vec<(usize, Box<Packet>)>)>,
}

/// The trees of a list of provenances.
pub open spec fn trees(s: Seq<Provenance>) -> Seq<ProvTree> {
    s.map_values(|p: Provenance| p@)
}

/// What a list of packets stands for.
pub open spec fn models(s: Seq<Box<Packet>>) -> Seq<PacketModel> {
    s.map_values(|p: Box<Packet>| p@)
}

/// What the buffered packets of one parent stand for.
pub open spec fn waiting(s: Seq<(usize, Box<Packet>)>) -> Waiting {
    s.map_values(|e: (usize, Box<Packet>)| (e.0, e.1@))
}

/// What the buffer stands for.
pub open spec fn buffers(
    s: Seq<(ReplicaAddr, Vec<(usize, Box<Packet>)>)>,
) -> Seq<(ReplicaAddr, Waiting)> {
    s.map_values(|e: (ReplicaAddr, Vec<(usize, Box<Packet>)>)| (e.0, waiting(e.1@)))
}

impl View for Sharder {
    type V = SharderModel;

    open spec fn view(&self) -> SharderModel {
        SharderModel {
            routes: Routes {
                txs: self.txs@,
                shard_by: self.shard_by,
                min_label_to_send: as_map(self.min_label_to_send@),
            },
            min_provenance: self.min_provenance@,
            max_provenance: self.max_provenance@,
            updates: trees(self.updates@),
            payloads: models(self.payloads@),
            last_provenance: as_map(edge_trees(self.last_provenance@)),
            targets: trees(self.targets@),
            parent_buffer: buffers(self.parent_buffer@),
        }
    }
}

impl Sharder {
    /// No packet is under construction, every child has a least label, the children fit into
    /// memory, no replica is listed twice, and what is buffered stands where it belongs.
    pub open spec fn wf(&self) -> bool {
        &&& slots(self.sharded) == Map::<usize, Box<Packet>>::empty()
        &&& self.txs@.len() <= MAX_SHARDS
        &&& forall|i: int|
            0 <= i < self.txs@.len() ==> holds(
                self.min_label_to_send@,
                (#[trigger] self.txs@[i]).1,
            )
        &&& distinct(self.min_label_to_send@)
        &&& distinct(self.last_provenance@)
        &&& sorted_by_parent(self@.parent_buffer)
        &&& labelled(self@.parent_buffer)
    }

    /// A sharder by column `by`, without children.
    pub fn new(by: usize) -> (res: Self)
        ensures
            res.wf(),
            res@ == (SharderModel {
                routes: Routes {
                    txs: Seq::empty(),
                    shard_by: by,
                    min_label_to_send: Map::empty(),
                },
                min_provenance: ProvTree::leaf((0, 0), 0),
                max_provenance: ProvTree::leaf((0, 0), 0),
                updates: Seq::empty(),
                payloads: Seq::empty(),
                last_provenance: Map::empty(),
                targets: Seq::empty(),
                parent_buffer: Seq::empty(),
            }),
    {
        let res = Sharder {
            txs: Vec::new(),
            sharded: slots_new(),
            shard_by: by,
            min_provenance: Provenance::default(),
            max_provenance: Provenance::default(),
            updates: Vec::new(),
            payloads: Vec::new(),
            min_label_to_send: Vec::new(),
            last_provenance: Vec::new(),
            targets: Vec::new(),
            parent_buffer: Vec::new(),
        };
        proof {
            assert(res@.routes.min_label_to_send =~= Map::empty());
            assert(res@.last_provenance =~= Map::empty());
            assert(res@.updates =~= Seq::empty());
            assert(res@.payloads =~= Seq::empty());
            assert(res@.targets =~= Seq::empty());
            assert(res@.parent_buffer =~= Seq::empty());
        }
        res
    }

    /// A copy with the children `txs`.
    fn copy_with(&self, txs: Vec<(LocalNodeIndex, ReplicaAddr)>) -> (res: Self)
        requires
            self.wf(),
            forall|i: int|
                0 <= i < txs@.len() ==> holds(self.min_label_to_send@, (#[trigger] txs@[i]).1),
            txs@.len() <= MAX_SHARDS,
        ensures
            res.wf(),
            res@ == (SharderModel { routes: Routes { txs: txs@, ..self@.routes }, ..self@ }),
    {
        let min_label_to_send = clone_labels(&self.min_label_to_send);
        let last_provenance = clone_entries(&self.last_provenance);
        proof {
            assert forall|i: int, j: int| 0 <= i < j < last_provenance@.len() implies (
            #[trigger] last_provenance@[i]).0 != (#[trigger] last_provenance@[j]).0 by {
                let trees = edge_trees(self.last_provenance@);
                assert(trees == edge_trees(last_provenance@));
                assert(trees.len() == last_provenance@.len());
                assert(trees[i].0 == self.last_provenance@[i].0);
                assert(trees[j].0 == self.last_provenance@[j].0);
                assert(trees[i].0 == last_provenance@[i].0);
                assert(trees[j].0 == last_provenance@[j].0);
            }
        }
        Sharder {
            txs,
            sharded: slots_new(),
            shard_by: self.shard_by,
            min_provenance: self.min_provenance.clone(),
            max_provenance: self.max_provenance.clone(),
            updates: clone_provenances(&self.updates),
            payloads: clone_packets(&self.payloads),
            min_label_to_send,
            last_provenance,
            targets: clone_provenances(&self.targets),
            parent_buffer: clone_buffers(&self.parent_buffer),
        }
    }

    /// A copy of a sharder that has no children yet.
    pub fn clone(&self) -> (res: Self)
        requires
            self.wf(),
            self.txs@.len() == 0,
        ensures
            res.wf(),
            res@ == self@,
    {
        let res = self.copy_with(Vec::new());
        proof {
            assert(res@.routes.txs =~= self@.routes.txs);
        }
        res
    }

    /// Takes the children away, into a copy of the sharder.
    pub fn take(&mut self) -> (res: Self)
        requires
            old(self).wf(),
        ensures
            res.wf(),
            res@ == old(self)@,
            final(self).wf(),
            final(self)@ == (SharderModel {
                routes: Routes { txs: Seq::empty(), ..old(self)@.routes },
                ..old(self)@
            }),
    {
        let mut txs: Vec<(LocalNodeIndex, ReplicaAddr)> = Vec::new();
        std::mem::swap(&mut txs, &mut self.txs);
        self.copy_with(txs)
    }

    /// Adds the shards `txs` of the child at node `dst`. There must be no children yet.
    pub fn add_sharded_child(&mut self, dst: LocalNodeIndex, txs: Vec<ReplicaAddr>)
        requires
            old(self).wf(),
            old(self).txs@.len() == 0,
            txs@.len() <= MAX_SHARDS,
        ensures
            final(self).wf(),
            final(self)@ == old(self)@.with_children(dst, txs@),
    {
        let ghost start = self@;
        let mut i: usize = 0;
        proof {
            assert(txs@.take(0) =~= Seq::empty());
            assert(self@.routes.txs =~= start.with_children(dst, txs@.take(0)).routes.txs);
            assert(self@.routes.min_label_to_send =~= start.with_children(
                dst,
                txs@.take(0),
            ).routes.min_label_to_send);
            assert(self@.last_provenance =~= start.with_children(
                dst,
                txs@.take(0),
            ).last_provenance);
        }
        while i < txs.len()
            invariant
                i <= txs@.len(),
                txs@.len() <= MAX_SHARDS,
                self.wf(),
                self@ == start.with_children(dst, txs@.take(i as int)),
            decreases txs@.len() - i,
        {
            let tx = txs[i];
            let ghost labels = self.min_label_to_send@;
            assign(&mut self.min_label_to_send, tx, 1);
            proof {
                lemma_put_map(labels, tx, 1);
                lemma_put_distinct(labels, tx, 1);
            }
            self.insert_default_last_provenance(tx);
            self.txs.push((dst, tx));
            proof {
                let now = txs@.take(i + 1);
                let want = start.with_children(dst, now);
                assert(now =~= txs@.take(i as int).push(tx));
                assert(now.contains(tx)) by {
                    assert(now[i as int] == tx);
                }
                assert forall|a: ReplicaAddr| #[trigger]
                    now.contains(a) == (txs@.take(i as int).contains(a) || a == tx) by {
                    if txs@.take(i as int).contains(a) {
                        let j = choose|j: int|
                            0 <= j < i && txs@.take(i as int)[j] == a;
                        assert(now[j] == a);
                    }
                    if now.contains(a) && a != tx {
                        let j = choose|j: int| 0 <= j < i + 1 && now[j] == a;
                        assert(txs@.take(i as int)[j] == a);
                    }
                }
                assert(self@.routes.txs =~= want.routes.txs);
                assert(self@.routes.min_label_to_send =~= want.routes.min_label_to_send);
                assert(self@.last_provenance =~= want.last_provenance);
                assert forall|j: int| 0 <= j < self.txs@.len() implies holds(
                    self.min_label_to_send@,
                    (#[trigger] self.txs@[j]).1,
                ) by {
                    let a = self.txs@[j].1;
                    assert(as_map(self.min_label_to_send@) == as_map(labels).insert(tx, 1));
                    if a != tx {
                        assert(holds(labels, a));
                        assert(as_map(labels).contains_key(a));
                    }
                    assert(as_map(self.min_label_to_send@).contains_key(a));
                }
            }
            i += 1;
        }
        proof {
            assert(txs@.take(i as int) =~= txs@);
        }
    }

    /// The column by which records are sharded.
    pub fn sharded_by(&self) -> (res: usize)
        ensures
            res == self@.routes.shard_by,
    {
        self.shard_by
    }

    /// Notes that nothing was sent to `addr` so far. What is sent is one level shorter than what
    /// is kept.
    fn insert_default_last_provenance(&mut self, addr: ReplicaAddr)
        ensures
            final(self)@ == (SharderModel {
                last_provenance: old(self)@.last_provenance.insert(
                    addr,
                    old(self)@.initial_provenance(),
                ),
                ..old(self)@
            }),
            final(self).txs == old(self).txs,
            final(self).sharded == old(self).sharded,
            final(self).min_label_to_send == old(self).min_label_to_send,
            distinct(old(self).last_provenance@) ==> distinct(final(self).last_provenance@),
    {
        let ghost entries = self.last_provenance@;
        let mut p = self.min_provenance.clone();
        p.trim(PROVENANCE_DEPTH - 1);
        p.zero();
        proof {
            lemma_edge_trees_put(entries, addr, p);
            lemma_put_map(edge_trees(entries), addr, p@);
            if distinct(entries) {
                lemma_put_distinct(entries, addr, p);
            }
        }
        assign(&mut self.last_provenance, addr, p);
    }

    /// Notes that a packet with the provenance `id` is sent to `addr`.
    fn note_sent(&mut self, addr: ReplicaAddr, id: &Option<ProvenanceUpdate>)
        requires
            distinct(old(self).last_provenance@),
        ensures
            *final(self) == (Sharder {
                last_provenance: final(self).last_provenance,
                ..*old(self)
            }),
            distinct(final(self).last_provenance@),
            final(self)@.last_provenance == with_note(
                old(self)@.last_provenance,
                addr,
                opt_tree(*id),
            ),
    {
        if let Some(p) = id {
            let p = p.clone();
            let ghost entries = self.last_provenance@;
            proof {
                lemma_edge_trees_put(entries, addr, p);
                lemma_put_map(edge_trees(entries), addr, p@);
                lemma_put_distinct(entries, addr, p);
            }
            assign(&mut self.last_provenance, addr, p);
        }
    }

    /// Takes the base provenance from the graph, in which `root` is the replica of this node.
    pub fn init(&mut self, graph: &DomainGraph, root: ReplicaAddr)
        requires
            graph.wf(),
            graph.contains(root),
        ensures
            final(self)@ == (SharderModel {
                min_provenance: ProvTree {
                    root,
                    label: old(self)@.min_provenance.label,
                    edges: ancestry(
                        graph.nodes@,
                        graph.edges@,
                        graph.node_of(root),
                        PROVENANCE_DEPTH as nat,
                    ),
                },
                ..old(self)@
            }),
            old(self).wf() ==> final(self).wf(),
    {
        let ni: usize = graph.find(root);
        self.min_provenance.init(graph, root, ni, PROVENANCE_DEPTH);
    }

    /// Makes the base provenance that of shard `shard`, and starts from there.
    pub fn init_in_domain(&mut self, shard: usize)
        ensures
            ({
                let p = ProvTree {
                    root: (old(self)@.min_provenance.root.0, shard),
                    ..old(self)@.min_provenance
                };
                final(self)@ == SharderModel { min_provenance: p, max_provenance: p, ..old(self)@ }
            }),
            old(self).wf() ==> final(self).wf(),
    {
        self.min_provenance.set_shard(shard);
        self.max_provenance = self.min_provenance.clone();
    }

    /// Replaces a sender by another. A regenerated domain has the same index as before, and a
    /// replica that is none of the senders may be replaced by any other.
    pub fn new_incoming(&mut self, old_addr: ReplicaAddr, new_addr: ReplicaAddr)
        requires
            old_addr == new_addr || !holds(old(self)@.min_provenance.edges, old_addr),
        ensures
            *final(self) == *old(self),
    {
        let changed = self.min_provenance.new_incoming(old_addr, new_addr);
        assert(!changed);
    }

    /// The label of the next message.
    pub fn next_label(&self) -> (res: usize)
        requires
            self@.next_label() <= usize::MAX,
        ensures
            res == self@.next_label(),
    {
        self.min_provenance.label() + self.payloads.len() + 1
    }

    /// The position of the first of `addr_labels` that shows that a stateless domain was lost,
    /// or the length of the list if there is none. If the label is beyond the next one, the
    /// messages are not here that are asked for. If it is the next one and nothing was sent so
    /// far, the domain was just regenerated; otherwise it means no more than that no message was
    /// sent since the connection went down, and others may not be as up to date.
    pub fn loss_at(&self, addr_labels: &Vec<(ReplicaAddr, usize)>) -> (res: usize)
        requires
            self@.next_label() <= usize::MAX,
        ensures
            res == first_loss(addr_labels@, self@.next_label()),
            res <= addr_labels@.len(),
    {
        let next_label: usize = self.next_label();
        let mut k: usize = 0;
        while k < addr_labels.len()
            invariant
                k <= addr_labels@.len(),
                forall|j: int|
                    0 <= j < k ==> !shows_loss((#[trigger] addr_labels@[j]).1, next_label as int),
            ensures
                k <= addr_labels@.len(),
                k < addr_labels@.len() ==> shows_loss(addr_labels@[k as int].1, next_label as int),
                forall|j: int|
                    0 <= j < k ==> !shows_loss((#[trigger] addr_labels@[j]).1, next_label as int),
            decreases addr_labels@.len() - k,
        {
            let label = addr_labels[k].1;
            if label > next_label || (label == next_label && label == 1) {
                break;
            }
            k += 1;
        }
        proof {
            lemma_first_loss(addr_labels@, next_label as int, k as int);
        }
        k
    }

    /// Resumes sending to these children at the given labels.
    pub fn resume_at(
        &mut self,
        addr_labels: Vec<(ReplicaAddr, usize)>,
        targets: Vec<Provenance>,
        on_shard: Option<usize>,
        output: &mut FnvHashMap<ReplicaAddr, VecDeque<Box<Packet>>>,
    )
        requires
            old(self)@.can_resume(addr_labels@),
        ensures
            final(self)@ == old(self)@.resumed(addr_labels@, trees(targets@)),
            queued(*final(output)) == queued(*old(output)),
            old(self).wf() ==> final(self).wf(),
    {
        let ghost start = self@;
        let ghost labels = addr_labels@;
        let mut min_label: usize = usize::MAX;
        let mut i: usize = 0;
        proof {
            assert(labels.take(0) =~= Seq::empty());
        }
        while i < addr_labels.len()
            invariant
                i <= addr_labels@.len(),
                labels == addr_labels@,
                min_label == least_label(labels.take(i as int)),
                self@ == (SharderModel {
                    routes: Routes {
                        min_label_to_send: relabelled(
                            start.routes.min_label_to_send,
                            labels.take(i as int),
                        ),
                        ..start.routes
                    },
                    ..start
                }),
                old(self).wf() ==> self.wf(),
            decreases addr_labels@.len() - i,
        {
            let (addr, label) = addr_labels[i];
            // calculate the min label
            if label < min_label {
                min_label = label;
            }
            // don't duplicate sent messages
            let ghost before = self.min_label_to_send@;
            assign(&mut self.min_label_to_send, addr, label);
            proof {
                lemma_put_map(before, addr, label);
                if old(self).wf() {
                    lemma_put_distinct(before, addr, label);
                }
                assert(labels.take(i + 1).drop_last() =~= labels.take(i as int));
                assert forall|j: int|
                    0 <= j < self.txs@.len() && old(self).wf() implies holds(
                    self.min_label_to_send@,
                    (#[trigger] self.txs@[j]).1,
                ) by {
                    let a = self.txs@[j].1;
                    assert(holds(before, a));
                    assert(as_map(before).contains_key(a));
                    assert(as_map(self.min_label_to_send@).contains_key(a));
                }
            }
            i += 1;
        }
        proof {
            assert(labels.take(i as int) =~= labels);
        }
        self.targets = targets;
        let next_label: usize = self.next_label();
        let k: usize = self.loss_at(&addr_labels);
        // If packets are asked for that were never sent here, a stateless domain was lost, and
        // nothing is kept. If it was lost before it sent anything, there is nothing to do.
        if addr_labels[k].1 > next_label {
            self.min_provenance.set_label(min_label - 1);
            self.max_provenance.set_label(min_label - 1);
        }
    }

    /// The shard of a value.
    fn shard(&self, dt: &DataType) -> (res: usize)
        requires
            self.txs@.len() > 0,
        ensures
            res == shard_of(dt@, self.txs@.len()),
            res < self.txs@.len(),
    {
        shard_by(dt, self.txs.len())
    }

    /// The shard of a record.
    fn to_shard(&self, r: &Record) -> (res: usize)
        requires
            self.txs@.len() > 0,
            self.shard_by < r@.values.len(),
        ensures
            res == self@.routes.shard_of_row(r@),
            res < self.txs@.len(),
    {
        self.shard(r.column(self.shard_by))
    }

    /// Adds the records of `data` to the packets under construction: each to that of its
    /// shard, which starts as a copy of `m`.
    fn split(&mut self, m: &Box<Packet>, data: Vec<Record>)
        requires
            old(self).wf(),
            m@.carries_data(),
            m@.data().len() == 0,
            old(self)@.routes.shardable(m@.with_data(rows(data@))),
        ensures
            *final(self) == (Sharder { sharded: final(self).sharded, ..*old(self) }),
            forall|i: usize| #[trigger]
                slots(final(self).sharded).contains_key(i) <==> i < old(self).txs@.len()
                    && old(self)@.routes.rows_for(rows(data@), i as int).len() > 0,
            forall|i: usize| #[trigger]
                slots(final(self).sharded).contains_key(i) ==> slots(final(self).sharded)[i]@
                    == m@.with_data(old(self)@.routes.rows_for(rows(data@), i as int)),
    {
        let ghost all = rows(data@);
        let ghost routes = self@.routes;
        let ghost start = *self;
        proof {
            assert forall|i: int| #[trigger] routes.rows_for(all.take(0), i).len() == 0 by {
                reveal(Seq::filter);
                assert(all.take(0).len() == 0);
            }
        }
        for record in it: data
            invariant
                it.seq() == data@,
                all == rows(data@),
                routes == start@.routes,
                *self == (Sharder { sharded: self.sharded, ..start }),
                self.txs@.len() <= MAX_SHARDS,
                m@.carries_data(),
                m@.data().len() == 0,
                routes.shardable(m@.with_data(all)),
                forall|i: usize| #[trigger]
                    slots(self.sharded).contains_key(i) <==> i < self.txs@.len()
                        && routes.rows_for(all.take(it.index() as int), i as int).len() > 0,
                forall|i: usize| #[trigger]
                    slots(self.sharded).contains_key(i) ==> slots(self.sharded)[i]@ == m@.with_data(
                        routes.rows_for(all.take(it.index() as int), i as int),
                    ),
        {
            let ghost k = it.index() as int;
            let ghost before = slots(self.sharded);
            proof {
                assert(record == data@[k]);
                assert(all[k] == record@);
                assert(m@.with_data(all).data()[k] == record@);
            }
            let shard: usize = self.to_shard(&record);
            let fresh = || -> (res: Box<Packet>)
                ensures
                    res@ == m@,
            {
                Box::new(m.clone_data())
            };
            let p = slots_entry(&mut self.sharded, shard, fresh);
            p.push_record(record);
            proof {
                if !before.contains_key(shard) {
                    assert(routes.rows_for(all.take(k), shard as int) =~= m@.data());
                }
                assert forall|i: usize| true implies #[trigger] routes.rows_for(
                    all.take(k + 1),
                    i as int,
                ) == if i == shard {
                    routes.rows_for(all.take(k), i as int).push(all[k])
                } else {
                    routes.rows_for(all.take(k), i as int)
                } by {
                    lemma_filter_take(all, k, |row: Row| routes.shard_of_row(row) == i as int);
                }
            }
        }
        proof {
            assert(all.take(all.len() as int) =~= all);
        }
    }

    /// Sends the packet in `m` on: each shard gets a packet with its records, if there are any.
    /// Some replays go to every shard, with or without records. A message does not go to a
    /// replica for which its label is too low, which happens when old messages are replayed
    /// during recovery. The provenance of the packet is noted for the replicas that it goes to.
    pub fn process(
        &mut self,
        m: &mut Option<Box<Packet>>,
        label: usize,
        index: LocalNodeIndex,
        is_sharded: bool,
        output: &mut FnvHashMap<ReplicaAddr, VecDeque<Box<Packet>>>,
    )
        requires
            old(self).wf(),
            *old(m) is Some,
            old(self)@.routes.can_process((*old(m))->0@, label, is_sharded),
        ensures
            final(self).wf(),
            final(self)@ == (SharderModel {
                last_provenance: old(self)@.routes.noted(
                    (*old(m))->0@,
                    label,
                    old(self)@.last_provenance,
                    old(self)@.routes.txs.len(),
                ),
                ..old(self)@
            }),
            *final(m) is None,
            queued(*final(output)) == old(self)@.routes.routed(
                (*old(m))->0@,
                label,
                index,
                queued(*old(output)),
                old(self)@.routes.txs.len(),
            ),
    {
        let ghost start = *self;
        let ghost routes = self@.routes;
        let ghost q = queued(*output);
        let mut m = m.take().unwrap();
        let ghost whole = m@;
        let data = m.take_data();
        let ghost bare = m@;
        proof {
            assert(bare.with_data(whole.data()) == whole);
        }
        self.split(&m, data);

        // The last piece of a full replay must get to every shard, so that they know to ready
        // the node. For a partial replay it is unknown which shard asked for the keys.
        let is_replay = match &*m {
            Packet::ReplayPiece { .. } => true,
            _ => false,
        };
        let force_all = match &*m {
            Packet::ReplayPiece { context, .. } => match context {
                ReplayPieceContext::Regular { last } => *last,
                ReplayPieceContext::Partial { .. } => true,
            },
            _ => false,
        };
        let n: usize = self.txs.len();
        let mut shard: usize = 0;
        while force_all && shard < n
            invariant
                shard <= n,
                n == self.txs@.len(),
                n <= MAX_SHARDS,
                *self == (Sharder { sharded: self.sharded, ..start }),
                m@ == bare,
                bare.carries_data(),
                bare == whole.with_data(Seq::empty()),
                routes == start@.routes,
                forall|i: usize| #[trigger]
                    slots(self.sharded).contains_key(i) <==> i < n && (routes.rows_for(
                        whole.data(),
                        i as int,
                    ).len() > 0 || (force_all && i < shard)),
                forall|i: usize| #[trigger]
                    slots(self.sharded).contains_key(i) ==> slots(self.sharded)[i]@
                        == whole.with_data(routes.rows_for(whole.data(), i as int)),
            decreases n - shard,
        {
            let ghost before = slots(self.sharded);
            let fresh = || -> (res: Box<Packet>)
                ensures
                    res@ == bare,
            {
                Box::new(m.clone_data())
            };
            let _ = slots_entry(&mut self.sharded, shard, fresh);
            proof {
                if !before.contains_key(shard) {
                    assert(routes.rows_for(whole.data(), shard as int) =~= Seq::empty());
                }
            }
            shard += 1;
        }

        let mut i: usize = 0;
        while i < n
            invariant
                i <= n,
                n == self.txs@.len(),
                *self == (Sharder {
                    sharded: self.sharded,
                    last_provenance: self.last_provenance,
                    ..start
                }),
                start.wf(),
                routes == start@.routes,
                routes.can_process(whole, label, is_sharded),
                distinct(self.last_provenance@),
                self@.last_provenance == routes.noted(
                    whole,
                    label,
                    start@.last_provenance,
                    i as nat,
                ),
                is_replay == (whole is ReplayPiece),
                force_all == for_all_shards(whole),
                forall|j: usize| #[trigger]
                    slots(self.sharded).contains_key(j) <==> i <= j < n && (force_all
                        || routes.rows_for(whole.data(), j as int).len() > 0),
                forall|j: usize| #[trigger]
                    slots(self.sharded).contains_key(j) ==> slots(self.sharded)[j]@
                        == whole.with_data(routes.rows_for(whole.data(), j as int)),
                queued(*output) == routes.routed(whole, label, index, q, i as nat),
            decreases n - i,
        {
            let (dst, addr) = self.txs[i];
            let taken = slots_remove(&mut self.sharded, i);
            if let Some(shard) = taken {
                let mut shard = shard;
                let k: usize = position(&self.min_label_to_send, addr);
                assert(holds(start.min_label_to_send@, start.txs@[i as int].1));
                let min_label = self.min_label_to_send[k].1;
                if is_replay || label >= min_label {
                    shard.link_mut().src = index;
                    shard.link_mut().dst = dst;
                    assert(routes.sends_to(whole, label, i as int));
                    self.note_sent(addr, shard.id());
                    enqueue(output, addr, shard);
                }
            }
            i += 1;
        }
        proof {
            assert(slots(self.sharded) =~= Map::empty());
        }
    }

    /// Tells the shards to evict `keys` from the replay path `tag`. If the keys are of the
    /// column by which records are sharded, each shard is told of those that it holds, if there
    /// are any; otherwise every shard is told of all of them. The provenance is noted for the
    /// replicas that are told.
    pub fn process_eviction(
        &mut self,
        id: Option<ProvenanceUpdate>,
        key_columns: &[usize],
        tag: Tag,
        keys: &[Vec<DataType>],
        src: LocalNodeIndex,
        is_sharded: bool,
        output: &mut FnvHashMap<ReplicaAddr, VecDeque<Box<Packet>>>,
    )
        requires
            old(self).wf(),
            old(self)@.routes.can_evict(key_columns@, key_values(keys@), is_sharded),
        ensures
            final(self).wf(),
            final(self)@ == (SharderModel {
                last_provenance: old(self)@.routes.eviction_noted(
                    opt_tree(id),
                    key_columns@,
                    key_values(keys@),
                    old(self)@.last_provenance,
                    old(self)@.routes.txs.len(),
                ),
                ..old(self)@
            }),
            queued(*final(output)) == old(self)@.routes.evicted(
                opt_tree(id),
                key_columns@,
                tag,
                key_values(keys@),
                src,
                queued(*old(output)),
            ),
    {
        let ghost start = *self;
        let ghost routes = self@.routes;
        let ghost q = queued(*output);
        let ghost all = key_values(keys@);
        let n: usize = self.txs.len();
        if key_columns.len() == 1 && key_columns[0] == self.shard_by {
            // Send only to the shards that must evict something.
            self.split_keys(&id, tag, keys, src);
            let mut i: usize = 0;
            while i < n
                invariant
                    i <= n,
                    n == self.txs@.len(),
                    *self == (Sharder {
                        sharded: self.sharded,
                        last_provenance: self.last_provenance,
                        ..start
                    }),
                    start.wf(),
                    routes == start@.routes,
                    routes.evicts_by_shard(key_columns@),
                    distinct(self.last_provenance@),
                    self@.last_provenance == routes.eviction_noted(
                        opt_tree(id),
                        key_columns@,
                        all,
                        start@.last_provenance,
                        i as nat,
                    ),
                    forall|j: usize| #[trigger]
                        slots(self.sharded).contains_key(j) <==> i <= j < n && routes.keys_for(
                            all,
                            j as int,
                        ).len() > 0,
                    forall|j: usize| #[trigger]
                        slots(self.sharded).contains_key(j) ==> slots(self.sharded)[j]@ == (
                        PacketModel::EvictKeys {
                            id: opt_tree(id),
                            link: Link { src, dst: routes.txs[j as int].0 },
                            tag,
                            keys: routes.keys_for(all, j as int),
                        }),
                    queued(*output) == routes.evicted_by_shard(
                        opt_tree(id),
                        tag,
                        all,
                        src,
                        q,
                        i as nat,
                    ),
                decreases n - i,
            {
                let (_, addr) = self.txs[i];
                let taken = slots_remove(&mut self.sharded, i);
                if let Some(shard) = taken {
                    self.note_sent(addr, &id);
                    enqueue(output, addr, shard);
                }
                i += 1;
            }
            proof {
                assert(slots(self.sharded) =~= Map::empty());
            }
        } else {
            // Send to all shards.
            let mut i: usize = 0;
            while i < n
                invariant
                    i <= n,
                    n == self.txs@.len(),
                    *self == (Sharder { last_provenance: self.last_provenance, ..start }),
                    start.wf(),
                    routes == start@.routes,
                    !routes.evicts_by_shard(key_columns@),
                    distinct(self.last_provenance@),
                    self@.last_provenance == routes.eviction_noted(
                        opt_tree(id),
                        key_columns@,
                        all,
                        start@.last_provenance,
                        i as nat,
                    ),
                    all == key_values(keys@),
                    queued(*output) == routes.evicted_everywhere(
                        opt_tree(id),
                        tag,
                        all,
                        src,
                        q,
                        i as nat,
                    ),
                decreases n - i,
            {
                let (dst, addr) = self.txs[i];
                let p = Packet::EvictKeys {
                    id: clone_id(&id),
                    link: Link { src, dst },
                    tag,
                    keys: clone_keys(keys),
                };
                self.note_sent(addr, &id);
                enqueue(output, addr, Box::new(p));
                i += 1;
            }
        }
    }

    /// Adds each of `keys` to the packet under construction for its shard.
    fn split_keys(
        &mut self,
        id: &Option<ProvenanceUpdate>,
        tag: Tag,
        keys: &[Vec<DataType>],
        src: LocalNodeIndex,
    )
        requires
            old(self).wf(),
            keys@.len() > 0 ==> old(self).txs@.len() > 0,
            forall|k: int| 0 <= k < keys@.len() ==> (#[trigger] key_values(keys@)[k]).len() > 0,
        ensures
            *final(self) == (Sharder { sharded: final(self).sharded, ..*old(self) }),
            forall|i: usize| #[trigger]
                slots(final(self).sharded).contains_key(i) <==> i < old(self).txs@.len()
                    && old(self)@.routes.keys_for(key_values(keys@), i as int).len() > 0,
            forall|i: usize| #[trigger]
                slots(final(self).sharded).contains_key(i) ==> slots(final(self).sharded)[i]@ == (
                PacketModel::EvictKeys {
                    id: opt_tree(*id),
                    link: Link { src, dst: old(self).txs@[i as int].0 },
                    tag,
                    keys: old(self)@.routes.keys_for(key_values(keys@), i as int),
                }),
    {
        let ghost all = key_values(keys@);
        let ghost routes = self@.routes;
        let ghost start = *self;
        let mut k: usize = 0;
        proof {
            assert forall|i: int| #[trigger] routes.keys_for(all.take(0), i).len() == 0 by {
                reveal(Seq::filter);
                assert(all.take(0).len() == 0);
            }
        }
        while k < keys.len()
            invariant
                k <= keys@.len(),
                all == key_values(keys@),
                routes == start@.routes,
                *self == (Sharder { sharded: self.sharded, ..start }),
                self.txs@.len() <= MAX_SHARDS,
                keys@.len() > 0 ==> self.txs@.len() > 0,
                forall|j: int| 0 <= j < keys@.len() ==> (#[trigger] all[j]).len() > 0,
                forall|i: usize| #[trigger]
                    slots(self.sharded).contains_key(i) <==> i < self.txs@.len()
                        && routes.keys_for(all.take(k as int), i as int).len() > 0,
                forall|i: usize| #[trigger]
                    slots(self.sharded).contains_key(i) ==> slots(self.sharded)[i]@ == (
                    PacketModel::EvictKeys {
                        id: opt_tree(*id),
                        link: Link { src, dst: start.txs@[i as int].0 },
                        tag,
                        keys: routes.keys_for(all.take(k as int), i as int),
                    }),
            decreases keys@.len() - k,
        {
            let ghost before = slots(self.sharded);
            proof {
                assert(all[k as int] == values(keys@[k as int]@));
                assert(all[k as int].len() > 0);
            }
            let shard: usize = self.shard(&keys[k][0]);
            let dst = self.txs[shard].0;
            let fresh = || -> (res: Box<Packet>)
                ensures
                    res@ == (PacketModel::EvictKeys {
                        id: opt_tree(*id),
                        link: Link { src, dst },
                        tag,
                        keys: Seq::empty(),
                    }),
            {
                let none: Vec<Vec<DataType>> = Vec::new();
                proof {
                    assert(key_values(none@) =~= Seq::empty());
                }
                Box::new(
                    Packet::EvictKeys { id: clone_id(id), link: Link { src, dst }, tag, keys: none },
                )
            };
            let p = slots_entry(&mut self.sharded, shard, fresh);
            p.push_key(clone_values(&keys[k]));
            proof {
                if !before.contains_key(shard) {
                    assert(routes.keys_for(all.take(k as int), shard as int) =~= Seq::empty());
                }
                assert forall|i: usize| true implies #[trigger] routes.keys_for(
                    all.take(k + 1),
                    i as int,
                ) == if i == shard {
                    routes.keys_for(all.take(k as int), i as int).push(all[k as int])
                } else {
                    routes.keys_for(all.take(k as int), i as int)
                } by {
                    lemma_filter_take(
                        all,
                        k as int,
                        |key: Seq<Value>| shard_of(key[0], routes.txs.len()) == i as int,
                    );
                }
            }
            k += 1;
        }
        proof {
            assert(all.take(all.len() as int) =~= all);
        }
    }

    /// Prepares the packet in `m` to be sent: makes its provenance that of this domain, on the
    /// basis of the one it holds, with a label that depends on the kind of packet and on how many
    /// messages were sent. The provenance of the domain is brought up to date. Messages are
    /// kept, with their updates; replays are not, and get no label of their own.
    pub fn preprocess_packet(&mut self, m: &mut Option<Box<Packet>>, from: DomainIndex)
        requires
            *old(m) is Some,
            old(self)@.can_prepare((*old(m))->0@),
        ensures
            final(self)@ == old(self)@.prepared((*old(m))->0@, from),
            *final(m) is Some,
            (*final(m))->0@ == old(self)@.stamped((*old(m))->0@, from),
            old(self).wf() ==> final(self).wf(),
    {
        let ghost start = *self;
        let mut p = m.take().unwrap();
        let ghost given = p@;
        // sharders are unsharded
        let from_addr: ReplicaAddr = (from, 0);
        let is_message = match &*p {
            Packet::Message { .. } => true,
            _ => false,
        };
        let label: usize = if is_message {
            self.min_provenance.label() + self.payloads.len() + 1
        } else {
            self.min_provenance.label() + self.payloads.len()
        };
        let mut update = match p.id() {
            Some(diff) => {
                let children: [Provenance; 1] = [diff.clone()];
                proof {
                    let ts = children@.map_values(|p: Provenance| p@);
                    assert(ts =~= seq![given.id()->0]);
                    assert(ts.drop_last() =~= Seq::empty());
                    reveal_with_fuel(gathered, 2);
                    assert(gathered(ts) =~= seq![
                        (given.id()->0.root, given.id()->0),
                    ]);
                }
                ProvenanceUpdate::new_with(from_addr, label, children.as_slice())
            },
            None => ProvenanceUpdate::new(from_addr, label),
        };
        proof {
            assert(update@ == start@.update_for(given, from));
        }
        self.max_provenance.apply_update(&update);
        if is_message {
            let ghost updates = self.updates@;
            self.updates.push(update.clone());
            proof {
                assert(trees(self.updates@) =~= trees(updates).push(update@));
            }
            update.trim(PROVENANCE_DEPTH - 1);
            *p.id_mut() = Some(update);
            let ghost payloads = self.payloads@;
            self.payloads.push(Box::new(p.clone_data()));
            proof {
                assert(models(self.payloads@) =~= models(payloads).push(p@));
            }
        } else {
            update = self.max_provenance.clone();
            update.trim(PROVENANCE_DEPTH - 1);
            *p.id_mut() = Some(update);
        }
        *m = Some(p);
    }

    /// Prepares the packet in `m` and sends it on.
    fn send_packet_internal(
        &mut self,
        m: &mut Option<Box<Packet>>,
        from: DomainIndex,
        index: LocalNodeIndex,
        is_sharded: bool,
        output: &mut FnvHashMap<ReplicaAddr, VecDeque<Box<Packet>>>,
    )
        requires
            old(self).wf(),
            *old(m) is Some,
            old(self)@.can_forward((*old(m))->0@, is_sharded),
        ensures
            final(self).wf(),
            final(self)@ == old(self)@.passed((*old(m))->0@, from),
            *final(m) is None,
            queued(*final(output)) == old(self)@.forwarded(
                queued(*old(output)),
                (*old(m))->0@,
                from,
                index,
            ),
    {
        let ghost given = (*m)->0@;
        self.preprocess_packet(m, from);
        proof {
            let made = (*m)->0@;
            assert(made.data() == given.data());
            assert(self@.routes.shardable(made)) by {
                assert forall|k: int| 0 <= k < made.data().len() implies self@.routes.shard_by < (
                #[trigger] made.data()[k]).values.len() by {
                    assert(given.data()[k] == made.data()[k]);
                }
            }
        }
        let label: usize = self.max_provenance.label();
        self.process(m, label, index, is_sharded, output);
    }

    /// Forwards the packets of `ms`, one after the other.
    fn forward_all(
        &mut self,
        ms: Vec<Box<Packet>>,
        from: DomainIndex,
        index: LocalNodeIndex,
        is_sharded: bool,
        output: &mut FnvHashMap<ReplicaAddr, VecDeque<Box<Packet>>>,
    )
        requires
            old(self).wf(),
            old(self)@.can_forward_all(models(ms@), from, is_sharded),
        ensures
            final(self).wf(),
            final(self)@ == old(self)@.passed_all(models(ms@), from),
            queued(*final(output)) == old(self)@.forwarded_all(
                queued(*old(output)),
                models(ms@),
                from,
                index,
            ),
    {
        let ghost start = self@;
        let ghost q = queued(*output);
        let ghost all = models(ms@);
        proof {
            assert(all.take(0) =~= Seq::empty());
        }
        for m in it: ms
            invariant
                it.seq() == ms@,
                all == models(ms@),
                self.wf(),
                start.can_forward_all(all, from, is_sharded),
                self@ == start.passed_all(all.take(it.index() as int), from),
                queued(*output) == start.forwarded_all(
                    q,
                    all.take(it.index() as int),
                    from,
                    index,
                ),
        {
            let ghost k = it.index() as int;
            proof {
                assert(m == ms@[k]);
                assert(all[k] == m@);
                start.lemma_passed_push(q, all.take(k), m@, from, index);
                assert(all.take(k + 1) =~= all.take(k).push(m@));
            }
            self.send_packet_internal(&mut Some(m), from, index, is_sharded, output);
        }
        proof {
            assert(all.take(all.len() as int) =~= all);
        }
    }

    /// Forwards the packets that the first target calls for: those from a parent noted in the
    /// target, with at most the label that is noted there.
    fn advance(
        &mut self,
        from: DomainIndex,
        index: LocalNodeIndex,
        is_sharded: bool,
        output: &mut FnvHashMap<ReplicaAddr, VecDeque<Box<Packet>>>,
    )
        requires
            old(self).wf(),
            old(self)@.targets.len() > 0,
            old(self)@.can_forward_all(old(self)@.next_batch(), from, is_sharded),
        ensures
            final(self).wf(),
            final(self)@ == old(self)@.advanced(from),
            queued(*final(output)) == old(self)@.forwarded_all(
                queued(*old(output)),
                old(self)@.next_batch(),
                from,
                index,
            ),
    {
        let ghost start = self@;
        let ghost q = queued(*output);
        let target = self.targets[0].clone();
        let edges = target.edges();
        let ghost es = target@.edges;
        let ghost buffer = start.parent_buffer;
        let n: usize = edges.len();
        let mut e: usize = 0;
        while e < n
            invariant
                e <= n,
                n == edges@.len(),
                es == edge_trees(edges@),
                self.wf(),
                buffer == start.parent_buffer,
                start.can_forward_all(called_for(buffer, es, n as nat), from, is_sharded),
                self@ == (SharderModel {
                    parent_buffer: remaining(buffer, es, e as nat),
                    ..start.passed_all(called_for(buffer, es, e as nat), from)
                }),
                queued(*output) == start.forwarded_all(
                    q,
                    called_for(buffer, es, e as nat),
                    from,
                    index,
                ),
            decreases n - e,
        {
            let addr = edges[e].0;
            let max_label: usize = edges[e].1.label();
            proof {
                assert(es[e as int] == (addr, edges@[e as int].1@));
            }
            let ghost now = self@;
            let ghost called = called_for(buffer, es, e as nat);
            let ghost first = now.front(addr, max_label);
            proof {
                lemma_called_for_prefix(buffer, es, (e + 1) as nat, n as nat);
                if !holds(now.parent_buffer, addr) {
                    assert(called + first =~= called);
                }
                assert(called_for(buffer, es, (e + 1) as nat) =~= called + first);
                start.lemma_can_forward_part(
                    called_for(buffer, es, n as nat),
                    called,
                    first,
                    from,
                    is_sharded,
                    now.parent_buffer,
                );
                start.lemma_passed_add(q, called, first, from, index);
                let s = start.passed_all(called, from);
                s.lemma_passed_frame(
                    queued(*output),
                    first,
                    from,
                    index,
                    now.parent_buffer,
                    s.targets,
                );
            }
            self.forward_ready(addr, max_label, from, index, is_sharded, output);
            e += 1;
        }
    }

    /// Forwards the packets of parent `addr` that wait at the front with at most the label
    /// `max_label`.
    #[verifier::rlimit(40)]
    fn forward_ready(
        &mut self,
        addr: ReplicaAddr,
        max_label: usize,
        from: DomainIndex,
        index: LocalNodeIndex,
        is_sharded: bool,
        output: &mut FnvHashMap<ReplicaAddr, VecDeque<Box<Packet>>>,
    )
        requires
            old(self).wf(),
            old(self)@.can_forward_all(old(self)@.front(addr, max_label), from, is_sharded),
        ensures
            final(self).wf(),
            final(self)@ == (SharderModel {
                parent_buffer: old(self)@.behind(addr, max_label),
                ..old(self)@.passed_all(old(self)@.front(addr, max_label), from)
            }),
            queued(*final(output)) == old(self)@.forwarded_all(
                queued(*old(output)),
                old(self)@.front(addr, max_label),
                from,
                index,
            ),
    {
        let ghost start = self@;
        let ghost q = queued(*output);
        let ghost buffer = start.parent_buffer;
        let k: usize = position(&self.parent_buffer, addr);
        proof {
            lemma_find_same_keys(self.parent_buffer@, buffer, addr);
            lemma_find(buffer, addr);
        }
        if k >= self.parent_buffer.len() {
            return ;
        }
        let ghost w = get(buffer, addr);
        let ghost r = ready(w, max_label);
        let ghost ms = start.front(addr, max_label);
        let ghost mut j: int = 0;
        proof {
            lemma_ready(w, max_label);
            assert(ms.take(0) =~= Seq::empty());
            assert(w.skip(0) =~= w);
            assert(buffer.update(k as int, (addr, w.skip(0))) =~= buffer);
            assert(self@.parent_buffer[k as int] == buffers(self.parent_buffer@)[k as int]);
            if w.len() > 0 {
                assert(waiting(self.parent_buffer@[k as int].1@)[0] == w[0]);
            }
        }
        while self.parent_buffer[k].1.len() > 0 && self.parent_buffer[k].1[0].0 <= max_label
            invariant
                0 <= j <= r <= w.len(),
                r == ready(w, max_label),
                k < buffer.len(),
                w == buffer[k as int].1,
                ms == unlabelled(w.take(r as int)),
                self.wf(),
                k < self.parent_buffer@.len(),
                waiting(self.parent_buffer@[k as int].1@) == w.skip(j),
                self.parent_buffer@[k as int].1@.len() == w.len() - j,
                j < w.len() ==> self.parent_buffer@[k as int].1@[0].0 == w[j].0,
                forall|i: int| 0 <= i < r ==> (#[trigger] w[i]).0 <= max_label,
                r < w.len() ==> w[r as int].0 > max_label,
                start.can_forward_all(ms, from, is_sharded),
                self@ == (SharderModel {
                    parent_buffer: buffer.update(k as int, (addr, w.skip(j))),
                    ..start.passed_all(ms.take(j), from)
                }),
                queued(*output) == start.forwarded_all(q, ms.take(j), from, index),
            ensures
                j == r,
            decreases w.len() - j,
        {
            proof {
                assert(waiting(self.parent_buffer@[k as int].1@)[0] == w[j]);
                assert(ms[j] == w[j].1);
                assert(start.passed_all(ms.take(j), from).can_forward(ms[j], is_sharded));
                start.lemma_passed_push(q, ms.take(j), ms[j], from, index);
                assert(ms.take(j + 1) =~= ms.take(j).push(ms[j]));
                assert(w.skip(j).skip(1) =~= w.skip(j + 1));
                assert(buffer.update(k as int, (addr, w.skip(j))).update(
                    k as int,
                    (addr, w.skip(j + 1)),
                ) =~= buffer.update(k as int, (addr, w.skip(j + 1))));
            }
            let m = self.pop_waiting(k);
            self.send_packet_internal(&mut Some(m), from, index, is_sharded, output);
            proof {
                j = j + 1;
                assert(self@.parent_buffer[k as int] == buffers(self.parent_buffer@)[k as int]);
                if j < w.len() {
                    assert(waiting(self.parent_buffer@[k as int].1@)[0] == w[j]);
                }
            }
        }
        proof {
            assert(ms.take(j) =~= ms);
        }
    }

    /// Takes the first of the packets out of the buffer that wait at position `k`.
    fn pop_waiting(&mut self, k: usize) -> (res: Box<Packet>)
        requires
            old(self).wf(),
            k < old(self).parent_buffer@.len(),
            old(self).parent_buffer@[k as int].1@.len() > 0,
        ensures
            final(self).wf(),
            final(self)@ == (SharderModel {
                parent_buffer: old(self)@.parent_buffer.update(
                    k as int,
                    (
                        old(self)@.parent_buffer[k as int].0,
                        old(self)@.parent_buffer[k as int].1.skip(1),
                    ),
                ),
                ..old(self)@
            }),
            res@ == old(self)@.parent_buffer[k as int].1[0].1,
    {
        let ghost cells = self.parent_buffer@;
        let (_, m) = self.parent_buffer[k].1.remove(0);
        proof {
            assert(waiting(self.parent_buffer@[k as int].1@) =~= waiting(
                cells[k as int].1@,
            ).skip(1));
            assert(buffers(self.parent_buffer@) =~= buffers(cells).update(
                k as int,
                (cells[k as int].0, waiting(cells[k as int].1@).skip(1)),
            ));
            let before = buffers(cells);
            let after = self@.parent_buffer;
            assert(all_from(unlabelled(before[k as int].1), before[k as int].0));
            assert(noted_labels(before[k as int].1));
            assert forall|i: int| 0 <= i < after.len() implies all_from(
                unlabelled((#[trigger] after[i]).1),
                after[i].0,
            ) && noted_labels(after[i].1) by {
                if i == k {
                    assert(unlabelled(after[i].1) =~= unlabelled(before[i].1).skip(1));
                } else {
                    assert(after[i] == before[i]);
                }
            }
            assert(distinct(after)) by {
                assert forall|i: int, j: int| 0 <= i < j < after.len() implies (
                #[trigger] after[i]).0 != (#[trigger] after[j]).0 by {
                    assert(before[i].0 != before[j].0);
                }
            }
        }
        m
    }

    /// Puts a copy of a packet behind those that wait from the same parent.
    fn buffer_packet(&mut self, m: &Box<Packet>)
        requires
            old(self).wf(),
            m@.id() is Some,
        ensures
            final(self).wf(),
            final(self)@ == old(self)@.buffered(m@),
    {
        let ghost before = buffers(self.parent_buffer@);
        let (root, label) = match m.id() {
            Some(next) => (next.root(), next.label()),
            None => ((0, 0), 0),
        };
        let k: usize = position(&self.parent_buffer, root);
        let ghost cells = self.parent_buffer@;
        proof {
            lemma_find_same_keys(cells, before, root);
            lemma_find(before, root);
        }
        let copy = m.clone();
        if k < self.parent_buffer.len() {
            self.parent_buffer[k].1.push((label, copy));
            proof {
                assert(waiting(self.parent_buffer@[k as int].1@) =~= waiting(
                    cells[k as int].1@,
                ).push((label, m@)));
            }
        } else {
            let mut fresh: Vec<(usize, Box<Packet>)> = Vec::new();
            fresh.push((label, copy));
            proof {
                assert(waiting(fresh@) =~= Seq::<(usize, PacketModel)>::empty().push((label, m@)));
            }
            self.parent_buffer.push((root, fresh));
        }
        proof {
            assert(buffers(self.parent_buffer@) =~= self@.parent_buffer);
            assert(self@.parent_buffer =~= old(self)@.buffered(m@).parent_buffer);
            buffered_in_order(old(self)@, m@, root);
            buffered_labelled(old(self)@, m@);
        }
    }

    /// Sends the packet in `m`. Without targets it is forwarded as it comes. Otherwise it is
    /// buffered; then packets are forwarded as far as they help to reach the first target, and,
    /// if that was reached, the next one. Once no target is left, what is still in the buffer
    /// is forwarded.
    pub fn send_packet(
        &mut self,
        m: &mut Option<Box<Packet>>,
        from: DomainIndex,
        index: LocalNodeIndex,
        is_sharded: bool,
        output: &mut FnvHashMap<ReplicaAddr, VecDeque<Box<Packet>>>,
    )
        requires
            old(self).wf(),
            *old(m) is Some,
            old(self)@.can_send((*old(m))->0@, from, is_sharded),
        ensures
            final(self).wf(),
            final(self)@ == old(self)@.sent_packet((*old(m))->0@, from),
            old(self)@.targets.len() == 0 ==> *final(m) is None,
            old(self)@.targets.len() > 0 ==> *final(m) == *old(m),
            queued(*final(output)) == old(self)@.sent_queues(
                queued(*old(output)),
                (*old(m))->0@,
                from,
                index,
            ),
    {
        // With no targets, all packets are forwarded.
        if self.targets.is_empty() {
            self.send_packet_internal(m, from, index, is_sharded, output);
            return ;
        }
        match m {
            Some(p) => self.buffer_packet(p),
            None => {},
        }
        let ghost goal = self@.settled(from);
        let ghost goal_queues = self@.settled_queues(queued(*output), from, index);
        loop
            invariant_except_break
                self.wf(),
                self@.targets.len() > 0,
                self@.can_settle(from, is_sharded),
                self@.settled(from) == goal,
                self@.settled_queues(queued(*output), from, index) == goal_queues,
            ensures
                self.wf(),
                self@ == goal,
                queued(*output) == goal_queues,
            decreases self@.targets.len(),
        {
            let ghost now = self@;
            let target_label: usize = self.targets[0].label();
            self.advance(from, index, is_sharded, output);
            proof {
                now.lemma_passed_frame(
                    queued(*output),
                    now.next_batch(),
                    from,
                    index,
                    now.parent_buffer,
                    now.targets,
                );
            }

            // If the target was not just sent, wait for the next packet to arrive.
            if self.max_provenance.label() < target_label {
                break;
            }
            assert(self.max_provenance@.label == target_label);
            assert(edges_reached(self.max_provenance@, now.targets[0]));

            // The target was sent. Go on to the next one; behind the last one, forward all
            // remaining packets.
            let ghost targets = self.targets@;
            let _ = self.targets.remove(0);
            proof {
                assert(trees(self.targets@) =~= trees(targets).drop_first());
            }
            if self.targets.is_empty() {
                let mut rest: Vec<(ReplicaAddr, Vec<(usize, Box<Packet>)>)> = Vec::new();
                proof {
                    assert(buffers(rest@) =~= Seq::empty());
                }
                std::mem::swap(&mut rest, &mut self.parent_buffer);
                let ms = flatten(rest);
                proof {
                    assert(self@ == now.next_target(from));
                }
                self.forward_all(ms, from, index, is_sharded, output);
                break;
            }
            proof {
                assert(self@ == now.next_target(from));
            }
        }
    }
}

/// A copy of a list of labels.
fn clone_labels(labels: &Vec<(ReplicaAddr, usize)>) -> (res: Vec<(ReplicaAddr, usize)>)
    ensures
        res@ == labels@,
{
    let mut res: Vec<(ReplicaAddr, usize)> = Vec::new();
    let mut i: usize = 0;
    while i < labels.len()
        invariant
            i <= labels@.len(),
            res@ == labels@.take(i as int),
        decreases labels@.len() - i,
    {
        res.push(labels[i]);
        i += 1;
    }
    assert(labels@.take(i as int) =~= labels@);
    res
}

/// A copy of a list of provenances.
fn clone_provenances(ps: &Vec<Provenance>) -> (res: Vec<Provenance>)
    ensures
        trees(res@) == trees(ps@),
{
    let mut res: Vec<Provenance> = Vec::new();
    let mut i: usize = 0;
    while i < ps.len()
        invariant
            i <= ps@.len(),
            res@.len() == i,
            forall|j: int| 0 <= j < i ==> (#[trigger] res@[j])@ == ps@[j]@,
        decreases ps@.len() - i,
    {
        res.push(ps[i].clone());
        i += 1;
    }
    assert(trees(res@) =~= trees(ps@));
    res
}

/// A copy of a list of provenances, each of a replica.
fn clone_entries(ps: &Vec<(ReplicaAddr, Provenance)>) -> (res: Vec<(ReplicaAddr, Provenance)>)
    ensures
        edge_trees(res@) == edge_trees(ps@),
{
    let mut res: Vec<(ReplicaAddr, Provenance)> = Vec::new();
    let mut i: usize = 0;
    while i < ps.len()
        invariant
            i <= ps@.len(),
            res@.len() == i,
            forall|j: int|
                0 <= j < i ==> (#[trigger] res@[j]).0 == ps@[j].0 && res@[j].1@ == ps@[j].1@,
        decreases ps@.len() - i,
    {
        res.push((ps[i].0, ps[i].1.clone()));
        i += 1;
    }
    assert(edge_trees(res@) =~= edge_trees(ps@));
    res
}

/// A copy of a list of packets.
fn clone_packets(ps: &Vec<Box<Packet>>) -> (res: Vec<Box<Packet>>)
    ensures
        models(res@) == models(ps@),
{
    let mut res: Vec<Box<Packet>> = Vec::new();
    let mut i: usize = 0;
    while i < ps.len()
        invariant
            i <= ps@.len(),
            res@.len() == i,
            forall|j: int| 0 <= j < i ==> (#[trigger] res@[j])@ == ps@[j]@,
        decreases ps@.len() - i,
    {
        res.push(ps[i].clone());
        i += 1;
    }
    assert(models(res@) =~= models(ps@));
    res
}

/// A copy of the buffered packets of one parent.
fn clone_waiting(ps: &Vec<(usize, Box<Packet>)>) -> (res: Vec<(usize, Box<Packet>)>)
    ensures
        waiting(res@) == waiting(ps@),
{
    let mut res: Vec<(usize, Box<Packet>)> = Vec::new();
    let mut i: usize = 0;
    while i < ps.len()
        invariant
            i <= ps@.len(),
            res@.len() == i,
            forall|j: int|
                0 <= j < i ==> (#[trigger] res@[j]).0 == ps@[j].0 && res@[j].1@ == ps@[j].1@,
        decreases ps@.len() - i,
    {
        res.push((ps[i].0, ps[i].1.clone()));
        i += 1;
    }
    assert(waiting(res@) =~= waiting(ps@));
    res
}

/// A copy of the buffer.
fn clone_buffers(bs: &Vec<(ReplicaAddr, Vec<(usize, Box<Packet>)>)>) -> (res: Vec<
    (ReplicaAddr, Vec<(usize, Box<Packet>)>),
>)
    ensures
        buffers(res@) == buffers(bs@),
{
    let mut res: Vec<(ReplicaAddr, Vec<(usize, Box<Packet>)>)> = Vec::new();
    let mut i: usize = 0;
    while i < bs.len()
        invariant
            i <= bs@.len(),
            res@.len() == i,
            forall|j: int|
                0 <= j < i ==> (#[trigger] res@[j]).0 == bs@[j].0 && waiting(res@[j].1@) == waiting(
                    bs@[j].1@,
                ),
        decreases bs@.len() - i,
    {
        res.push((bs[i].0, clone_waiting(&bs[i].1)));
        i += 1;
    }
    assert(buffers(res@) =~= buffers(bs@));
    res
}

/// All packets in the buffer, parent by parent.
fn flatten(rest: Vec<(ReplicaAddr, Vec<(usize, Box<Packet>)>)>) -> (res: Vec<Box<Packet>>)
    ensures
        models(res@) == all_waiting(buffers(rest@)),
{
    let mut res: Vec<Box<Packet>> = Vec::new();
    let ghost all = buffers(rest@);
    proof {
        assert(all.take(0) =~= Seq::empty());
        assert(models(res@) =~= Seq::empty());
    }
    for entry in it: rest
        invariant
            it.seq() == rest@,
            all == buffers(rest@),
            models(res@) == all_waiting(all.take(it.index() as int)),
    {
        let ghost k = it.index() as int;
        let (_, buffer) = entry;
        let ghost before = models(res@);
        let ghost cell = waiting(buffer@);
        proof {
            assert(entry == rest@[k]);
            assert(all[k].1 == cell);
            assert(unlabelled(cell.take(0)) =~= Seq::empty());
            assert(models(res@) =~= before + unlabelled(cell.take(0)));
        }
        for labelled in jt: buffer
            invariant
                jt.seq() == buffer@,
                cell == waiting(buffer@),
                models(res@) == before + unlabelled(cell.take(jt.index() as int)),
        {
            let ghost j = jt.index() as int;
            let (_, m) = labelled;
            let ghost sofar = res@;
            res.push(m);
            proof {
                assert(labelled == buffer@[j]);
                assert(cell[j] == (labelled.0, m@));
                assert(models(res@) =~= models(sofar).push(m@));
                assert(unlabelled(cell.take(j + 1)) =~= unlabelled(cell.take(j)).push(m@));
                assert(models(res@) =~= before + unlabelled(cell.take(j + 1)));
            }
        }
        proof {
            assert(cell.take(cell.len() as int) =~= cell);
            assert(all.take(k + 1).drop_last() =~= all.take(k));
            assert(all.take(k + 1).last() == all[k]);
        }
    }
    proof {
        assert(all.take(all.len() as int) =~= all);
    }
    res
}

} // verus!
