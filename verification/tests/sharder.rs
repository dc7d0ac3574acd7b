use dataflow_sharder::data::{DataType, Record};
use dataflow_sharder::ids::{DomainGraph, Link, ReplicaAddr};
use dataflow_sharder::outside::Queues;
use dataflow_sharder::packet::{Packet, ReplayPieceContext};
use dataflow_sharder::provenance::Provenance;
use dataflow_sharder::sharder::Sharder;

const A: ReplicaAddr = (7, 0);
const B: ReplicaAddr = (7, 1);

fn sharder() -> Sharder {
    let mut s = Sharder::new(0);
    s.add_sharded_child(4, vec![A, B]);
    s
}

fn row(n: i32) -> Record {
    Record::Positive(vec![DataType::Int(n), DataType::Text("x".to_string())])
}

fn gone(n: i32) -> Record {
    Record::Negative(vec![DataType::Int(n), DataType::Null])
}

fn link(src: u32, dst: u32) -> Link {
    Link { src, dst }
}

fn id(domain: usize, label: usize) -> Option<Provenance> {
    Some(Provenance::new((domain, 0), label))
}

fn message(id: Option<Provenance>, data: Vec<Record>) -> Option<Box<Packet>> {
    Some(Box::new(Packet::Message { id, link: link(0, 1), data }))
}

fn replay(data: Vec<Record>, context: ReplayPieceContext) -> Option<Box<Packet>> {
    Some(Box::new(Packet::ReplayPiece { id: id(1, 1), link: link(0, 1), tag: 3, data, context }))
}

fn show(output: &Queues, addr: ReplicaAddr) -> Vec<String> {
    match output.get(&addr) {
        Some(q) => q.iter().map(|p| format!("{:?}", p)).collect(),
        None => vec![],
    }
}

fn text(p: Packet) -> String {
    format!("{:?}", p)
}

fn labels(output: &Queues, addr: ReplicaAddr) -> Vec<usize> {
    match output.get(&addr) {
        Some(q) => q.iter().map(|p| p.id().as_ref().unwrap().label()).collect(),
        None => vec![],
    }
}

fn parents(output: &Queues, addr: ReplicaAddr) -> Vec<(ReplicaAddr, usize)> {
    output[&addr]
        .iter()
        .map(|p| {
            let e = &p.id().as_ref().unwrap().edges()[0];
            (e.0, e.1.label())
        })
        .collect()
}

#[test]
fn new_sharder_is_empty() {
    let s = Sharder::new(3);
    assert_eq!(s.sharded_by(), 3);
    assert!(s.txs.is_empty());
    assert!(s.sharded.is_empty());
    assert!(s.updates.is_empty());
    assert!(s.payloads.is_empty());
    assert!(s.targets.is_empty());
    assert!(s.parent_buffer.is_empty());
    assert_eq!(s.min_provenance.label(), 0);
    assert_eq!(s.max_provenance.label(), 0);
}

#[test]
fn children_start_at_label_one_with_zero_provenance() {
    let mut s = Sharder::new(0);
    let far = Provenance::new_with((1, 0), 6, &[Provenance::new((0, 0), 5)]);
    s.min_provenance = Provenance::new_with((2, 0), 8, &[far]);
    s.add_sharded_child(4, vec![A, B, A]);
    assert_eq!(s.txs, vec![(4, A), (4, B), (4, A)]);
    assert_eq!(s.min_label_to_send, vec![(A, 1), (B, 1)]);
    assert_eq!(s.last_provenance.len(), 2);
    let p = &s.last_provenance[1].1;
    assert_eq!(s.last_provenance[1].0, B);
    assert_eq!(p.root(), (2, 0));
    assert_eq!(p.label(), 0);
    assert_eq!(p.edges()[0].1.label(), 0);
    assert!(p.edges()[0].1.edges().is_empty());
}

#[test]
fn take_moves_the_children() {
    let mut s = sharder();
    s.init_in_domain(2);
    let t = s.take();
    assert!(s.txs.is_empty());
    assert_eq!(t.txs, vec![(4, A), (4, B)]);
    assert_eq!(t.min_label_to_send, s.min_label_to_send);
    assert_eq!(t.min_provenance.root(), (0, 2));
    let c = s.clone();
    assert!(c.txs.is_empty());
    assert_eq!(c.sharded_by(), 0);
    assert_eq!(c.min_label_to_send, t.min_label_to_send);
}

#[test]
fn records_go_to_their_shards_in_order() {
    let mut s = sharder();
    let mut out = Queues::default();
    let mut m = message(id(1, 1), vec![row(1), row(2), gone(3), row(4)]);
    s.process(&mut m, 1, 9, false, &mut out);
    assert!(m.is_none());
    assert!(s.sharded.is_empty());
    let want = |data| text(Packet::Message { id: id(1, 1), link: link(9, 4), data });
    assert_eq!(show(&out, A), vec![want(vec![row(2), row(4)])]);
    assert_eq!(show(&out, B), vec![want(vec![row(1), gone(3)])]);
}

#[test]
fn shards_without_records_get_nothing() {
    let mut s = sharder();
    let mut out = Queues::default();
    s.process(&mut message(id(1, 1), vec![row(2)]), 1, 9, false, &mut out);
    assert_eq!(show(&out, A).len(), 1);
    assert!(!out.contains_key(&B));
    s.process(&mut message(id(1, 2), vec![]), 2, 9, false, &mut out);
    assert_eq!(show(&out, A).len(), 1);
    assert!(!out.contains_key(&B));
}

#[test]
fn queues_are_appended_to() {
    let mut s = sharder();
    let mut out = Queues::default();
    s.process(&mut message(id(1, 1), vec![row(2)]), 1, 9, false, &mut out);
    s.process(&mut message(id(1, 2), vec![row(4)]), 2, 9, false, &mut out);
    assert_eq!(labels(&out, A), vec![1, 2]);
}

#[test]
fn the_last_piece_of_a_replay_goes_to_every_shard() {
    let mut s = sharder();
    let mut out = Queues::default();
    s.process(
        &mut replay(vec![row(2)], ReplayPieceContext::Regular { last: true }),
        0,
        9,
        false,
        &mut out,
    );
    let want = |data| {
        text(Packet::ReplayPiece {
            id: id(1, 1),
            link: link(9, 4),
            tag: 3,
            data,
            context: ReplayPieceContext::Regular { last: true },
        })
    };
    assert_eq!(show(&out, A), vec![want(vec![row(2)])]);
    assert_eq!(show(&out, B), vec![want(vec![])]);
}

#[test]
fn other_pieces_of_a_replay_go_where_their_records_belong() {
    let mut s = sharder();
    let mut out = Queues::default();
    s.process(
        &mut replay(vec![row(3)], ReplayPieceContext::Regular { last: false }),
        0,
        9,
        false,
        &mut out,
    );
    assert!(!out.contains_key(&A));
    assert_eq!(show(&out, B).len(), 1);
}

#[test]
fn partial_replays_go_to_every_shard() {
    let mut s = sharder();
    let mut out = Queues::default();
    let context = ReplayPieceContext::Partial {
        for_keys: vec![vec![DataType::Int(3)]],
        ignore: false,
    };
    s.process(&mut replay(vec![row(3)], context), 0, 9, false, &mut out);
    assert_eq!(show(&out, A).len(), 1);
    assert_eq!(show(&out, B).len(), 1);
}

#[test]
fn old_messages_are_not_sent_but_old_replays_are() {
    let mut s = sharder();
    s.min_label_to_send = vec![(A, 5), (B, 2)];
    let mut out = Queues::default();
    s.process(&mut message(id(1, 1), vec![row(2), row(3)]), 4, 9, false, &mut out);
    assert!(!out.contains_key(&A));
    assert_eq!(show(&out, B).len(), 1);
    assert!(s.sharded.is_empty());
    s.process(&mut message(id(1, 1), vec![row(2)]), 5, 9, false, &mut out);
    assert_eq!(show(&out, A).len(), 1);
    s.process(
        &mut replay(vec![row(2)], ReplayPieceContext::Regular { last: false }),
        0,
        9,
        false,
        &mut out,
    );
    assert_eq!(show(&out, A).len(), 2);
}

#[test]
fn keys_of_the_sharding_column_are_evicted_where_they_are() {
    let mut s = sharder();
    let mut out = Queues::default();
    let key = |n| vec![DataType::Int(n)];
    s.process_eviction(id(1, 4), &[0], 6, &[key(1), key(5), key(3)], 9, false, &mut out);
    let want = text(Packet::EvictKeys {
        id: id(1, 4),
        link: link(9, 4),
        tag: 6,
        keys: vec![key(1), key(5), key(3)],
    });
    assert!(!out.contains_key(&A));
    assert_eq!(show(&out, B), vec![want]);
    assert!(s.sharded.is_empty());
    s.process_eviction(None, &[0], 6, &[key(2), key(7)], 9, false, &mut out);
    assert_eq!(show(&out, A).len(), 1);
    assert_eq!(show(&out, B).len(), 2);
}

#[test]
fn keys_of_other_columns_are_evicted_everywhere() {
    let mut s = sharder();
    let mut out = Queues::default();
    let key = vec![DataType::Text("x".to_string()), DataType::Int(1)];
    s.process_eviction(None, &[1, 2], 6, &[key.clone()], 9, false, &mut out);
    let want = text(Packet::EvictKeys { id: None, link: link(9, 4), tag: 6, keys: vec![key] });
    assert_eq!(show(&out, A), vec![want.clone()]);
    assert_eq!(show(&out, B), vec![want]);
}

#[test]
fn messages_get_consecutive_labels_and_are_kept() {
    let mut s = sharder();
    s.min_provenance.set_label(10);
    s.max_provenance.set_label(10);
    let mut m = message(id(1, 33), vec![row(2)]);
    s.preprocess_packet(&mut m, 2);
    let p = m.as_ref().unwrap().id().as_ref().unwrap();
    assert_eq!(p.root(), (2, 0));
    assert_eq!(p.label(), 11);
    assert_eq!(p.edges().len(), 1);
    assert_eq!(p.edges()[0].0, (1, 0));
    assert_eq!(p.edges()[0].1.label(), 33);
    assert_eq!(s.max_provenance.label(), 11);
    assert_eq!(s.updates.len(), 1);
    assert_eq!(format!("{:?}", s.payloads), format!("{:?}", vec![m.unwrap()]));
    let mut m = message(None, vec![row(2)]);
    s.preprocess_packet(&mut m, 2);
    assert_eq!(m.unwrap().id().as_ref().unwrap().label(), 12);
    assert_eq!(s.max_provenance.label(), 12);
    assert_eq!(s.payloads.len(), 2);
}

#[test]
fn sent_provenance_is_one_level_shorter() {
    let mut s = sharder();
    let far = Provenance::new_with((1, 0), 6, &[Provenance::new((0, 0), 5)]);
    let mut m = message(Some(far), vec![]);
    s.preprocess_packet(&mut m, 2);
    let m = m.unwrap();
    let p = m.id().as_ref().unwrap();
    assert_eq!(p.edges()[0].1.label(), 6);
    assert!(p.edges()[0].1.edges().is_empty());
    assert_eq!(s.updates[0].edges()[0].1.edges()[0].1.label(), 5);
    assert_eq!(s.max_provenance.edges()[0].1.edges()[0].1.label(), 5);
}

#[test]
fn replays_use_the_last_label_and_are_not_kept() {
    let mut s = sharder();
    s.preprocess_packet(&mut message(id(1, 5), vec![]), 2);
    let before = format!("{:?}", s.max_provenance);
    let mut m = replay(vec![], ReplayPieceContext::Regular { last: false });
    s.preprocess_packet(&mut m, 2);
    assert_eq!(format!("{:?}", s.max_provenance), before);
    assert_eq!(s.payloads.len(), 1);
    assert_eq!(s.updates.len(), 1);
    let m = m.unwrap();
    let p = m.id().as_ref().unwrap();
    assert_eq!(p.label(), 1);
    assert_eq!(p.edges()[0].1.label(), 5);
    let mut e = Some(Box::new(Packet::EvictKeys {
        id: None,
        link: link(0, 1),
        tag: 1,
        keys: vec![],
    }));
    s.preprocess_packet(&mut e, 2);
    assert_eq!(e.unwrap().id().as_ref().unwrap().label(), 1);
    assert_eq!(s.payloads.len(), 1);
}

#[test]
fn without_targets_packets_are_forwarded() {
    let mut s = sharder();
    let mut out = Queues::default();
    let mut m = message(id(1, 5), vec![row(2), row(3)]);
    s.send_packet(&mut m, 2, 9, false, &mut out);
    assert!(m.is_none());
    s.send_packet(&mut message(id(1, 6), vec![row(2)]), 2, 9, false, &mut out);
    assert_eq!(labels(&out, A), vec![1, 2]);
    assert_eq!(labels(&out, B), vec![1]);
    assert!(s.parent_buffer.is_empty());
}

fn target(label: usize, parents: &[(usize, usize)]) -> Provenance {
    let edges: Vec<Provenance> =
        parents.iter().map(|p| Provenance::new((p.0, 0), p.1)).collect();
    Provenance::new_with((2, 0), label, &edges)
}

#[test]
fn targets_fix_the_order_between_parents() {
    let mut s = sharder();
    s.targets = vec![target(2, &[(1, 2)]), target(3, &[(5, 1), (1, 2)])];
    let mut out = Queues::default();
    // from the other parent: the first target does not call for it
    let mut m = message(id(5, 1), vec![row(2)]);
    s.send_packet(&mut m, 2, 9, false, &mut out);
    assert!(m.is_some());
    assert!(out.is_empty());
    assert_eq!(s.parent_buffer.len(), 1);
    // called for, but the target is not reached yet
    s.send_packet(&mut message(id(1, 1), vec![row(2)]), 2, 9, false, &mut out);
    assert_eq!(parents(&out, A), vec![((1, 0), 1)]);
    assert_eq!(s.targets.len(), 2);
    // reaches the first target, and then the second one
    s.send_packet(&mut message(id(1, 2), vec![row(2)]), 2, 9, false, &mut out);
    assert_eq!(parents(&out, A), vec![((1, 0), 1), ((1, 0), 2), ((5, 0), 1)]);
    assert_eq!(labels(&out, A), vec![1, 2, 3]);
    assert!(s.targets.is_empty());
    assert!(s.parent_buffer.is_empty());
    // from now on packets are forwarded as they come
    s.send_packet(&mut message(id(1, 3), vec![row(2)]), 2, 9, false, &mut out);
    assert_eq!(labels(&out, A), vec![1, 2, 3, 4]);
}

#[test]
fn what_waits_is_forwarded_behind_the_last_target() {
    let mut s = sharder();
    s.targets = vec![target(1, &[(1, 1)])];
    let mut out = Queues::default();
    s.send_packet(&mut message(id(5, 1), vec![row(2)]), 2, 9, false, &mut out);
    s.send_packet(&mut message(id(5, 2), vec![row(2)]), 2, 9, false, &mut out);
    assert!(out.is_empty());
    s.send_packet(&mut message(id(1, 1), vec![row(2)]), 2, 9, false, &mut out);
    assert_eq!(parents(&out, A), vec![((1, 0), 1), ((5, 0), 1), ((5, 0), 2)]);
    assert_eq!(labels(&out, A), vec![1, 2, 3]);
    assert!(s.parent_buffer.is_empty());
}

#[test]
fn packets_beyond_the_target_wait() {
    let mut s = sharder();
    s.targets = vec![target(2, &[(1, 1), (5, 1)])];
    let mut out = Queues::default();
    s.send_packet(&mut message(id(1, 1), vec![row(2)]), 2, 9, false, &mut out);
    s.send_packet(&mut message(id(1, 2), vec![row(2)]), 2, 9, false, &mut out);
    assert_eq!(parents(&out, A), vec![((1, 0), 1)]);
    assert_eq!(s.parent_buffer[0].1.len(), 1);
    assert_eq!(s.parent_buffer[0].1[0].0, 2);
    s.send_packet(&mut message(id(5, 1), vec![row(2)]), 2, 9, false, &mut out);
    assert_eq!(parents(&out, A), vec![((1, 0), 1), ((5, 0), 1), ((1, 0), 2)]);
}

#[test]
fn init_takes_the_provenance_from_the_graph() {
    let graph = DomainGraph {
        nodes: vec![(1, 0), (2, 0), (3, 0), (4, 0)],
        edges: vec![(0, 1), (1, 2), (2, 3)],
    };
    let mut s = Sharder::new(0);
    s.init(&graph, (4, 0));
    s.init_in_domain(6);
    let p = &s.max_provenance;
    assert_eq!(p.root(), (4, 6));
    assert_eq!(p.label(), 0);
    assert_eq!(p.edges()[0].0, (3, 0));
    assert_eq!(p.edges()[0].1.edges()[0].0, (2, 0));
    assert!(p.edges()[0].1.edges()[0].1.edges().is_empty());
    assert_eq!(format!("{:?}", s.min_provenance), format!("{:?}", s.max_provenance));
}

#[test]
fn regenerated_domains_keep_their_index() {
    let mut s = Sharder::new(0);
    s.min_provenance = target(3, &[(1, 1)]);
    let before = format!("{:?}", s.min_provenance);
    s.new_incoming((1, 0), (1, 0));
    s.new_incoming((8, 0), (9, 0));
    assert_eq!(format!("{:?}", s.min_provenance), before);
}

#[test]
fn resuming_a_lost_domain_goes_to_the_least_label() {
    let mut s = sharder();
    let mut out = Queues::default();
    s.resume_at(vec![(A, 9), (B, 7)], vec![], None, &mut out);
    assert_eq!(s.min_label_to_send, vec![(A, 9), (B, 7)]);
    assert_eq!(s.min_provenance.label(), 6);
    assert_eq!(s.max_provenance.label(), 6);
    assert!(out.is_empty());
    // what a child got before is not sent again
    for n in 0..3 {
        s.send_packet(&mut message(id(1, n), vec![row(2), row(3)]), 2, 9, false, &mut out);
    }
    assert_eq!(labels(&out, A), vec![9]);
    assert_eq!(labels(&out, B), vec![7, 8, 9]);
}

#[test]
fn resuming_where_nothing_was_sent_changes_no_label() {
    let mut s = sharder();
    let mut out = Queues::default();
    s.resume_at(vec![(A, 1), (B, 1)], vec![target(4, &[])], Some(0), &mut out);
    assert_eq!(s.min_provenance.label(), 0);
    assert_eq!(s.max_provenance.label(), 0);
    assert_eq!(s.min_label_to_send, vec![(A, 1), (B, 1)]);
    assert_eq!(s.targets.len(), 1);
    assert_eq!(s.targets[0].label(), 4);
}

#[test]
fn the_later_of_two_labels_counts() {
    let mut s = sharder();
    let mut out = Queues::default();
    s.resume_at(vec![(A, 9), (A, 5)], vec![], None, &mut out);
    assert_eq!(s.min_label_to_send, vec![(A, 5), (B, 1)]);
    assert_eq!(s.min_provenance.label(), 4);
}

#[test]
fn updates_make_up_the_latest_provenance() {
    let mut s = sharder();
    let mut out = Queues::default();
    for n in 1..6 {
        s.send_packet(&mut message(id(n % 2, n), vec![row(2)]), 2, 9, false, &mut out);
    }
    let mut p = s.min_provenance.clone();
    for u in &s.updates {
        p.apply_update(u);
    }
    assert_eq!(format!("{:?}", p), format!("{:?}", s.max_provenance));
    assert_eq!(s.max_provenance.label(), 5);
    assert_eq!(s.max_provenance.edges()[0].1.label(), 5);
    assert_eq!(s.max_provenance.edges()[1].1.label(), 4);
}

#[test]
fn without_children_nothing_is_sent() {
    let mut s = Sharder::new(0);
    let mut out = Queues::default();
    s.process(&mut message(None, vec![]), 1, 9, false, &mut out);
    s.process_eviction(None, &[0], 6, &[], 9, false, &mut out);
    s.process_eviction(None, &[1], 6, &[vec![]], 9, false, &mut out);
    assert!(out.is_empty());
}

#[test]
fn text_goes_to_the_shard_of_its_hash() {
    let mut s = sharder();
    let mut out = Queues::default();
    let text = |t: &str| vec![DataType::Text(t.to_string())];
    // the hash of "a" is even, that of "b" is odd
    s.process_eviction(None, &[0], 6, &[text("a"), text("b")], 9, false, &mut out);
    let evict = |key| {
        format!("{:?}", Packet::EvictKeys { id: None, link: link(9, 4), tag: 6, keys: vec![key] })
    };
    assert_eq!(show(&out, A), vec![evict(text("a"))]);
    assert_eq!(show(&out, B), vec![evict(text("b"))]);
}

#[test]
fn the_first_label_that_shows_a_loss_counts() {
    let mut s = sharder();
    assert_eq!(s.next_label(), 1);
    assert_eq!(s.loss_at(&vec![(A, 0), (B, 1)]), 1);
    assert_eq!(s.loss_at(&vec![(A, 0), (B, 0)]), 2);
    assert_eq!(s.loss_at(&vec![]), 0);
    s.min_provenance.set_label(4);
    assert_eq!(s.next_label(), 5);
    assert_eq!(s.loss_at(&vec![(A, 5), (B, 6)]), 1);
    assert_eq!(s.loss_at(&vec![(A, 1), (B, 5)]), 2);
}

#[test]
fn parents_are_forwarded_in_order() {
    let mut s = sharder();
    s.targets = vec![target(3, &[(1, 2), (5, 1)])];
    let mut out = Queues::default();
    for n in 1..4 {
        s.send_packet(&mut message(id(1, n), vec![row(2)]), 2, 9, false, &mut out);
    }
    assert_eq!(s.parent_buffer[0].1.len(), 1);
    s.send_packet(&mut message(id(5, 1), vec![row(2)]), 2, 9, false, &mut out);
    assert_eq!(
        parents(&out, A),
        vec![((1, 0), 1), ((1, 0), 2), ((5, 0), 1), ((1, 0), 3)]
    );
}

fn noted(s: &Sharder, addr: ReplicaAddr) -> String {
    let entries: Vec<String> = s
        .last_provenance
        .iter()
        .filter(|e| e.0 == addr)
        .map(|e| format!("{:?}", e.1))
        .collect();
    assert_eq!(entries.len(), 1);
    entries[0].clone()
}

#[test]
fn processed_packets_are_noted_for_their_replicas() {
    let mut s = sharder();
    let mut out = Queues::default();
    let nothing = format!("{:?}", Provenance::default());
    assert_eq!(noted(&s, A), nothing);
    s.process(&mut message(id(1, 5), vec![row(2)]), 5, 9, false, &mut out);
    assert_eq!(noted(&s, A), format!("{:?}", id(1, 5).unwrap()));
    assert_eq!(noted(&s, B), nothing);
    // a replay is noted for every shard that it goes to
    s.process(
        &mut replay(vec![], ReplayPieceContext::Regular { last: true }),
        0,
        9,
        false,
        &mut out,
    );
    assert_eq!(noted(&s, A), format!("{:?}", id(1, 1).unwrap()));
    assert_eq!(noted(&s, B), format!("{:?}", id(1, 1).unwrap()));
}

#[test]
fn packets_that_are_not_sent_are_not_noted() {
    let mut s = sharder();
    s.min_label_to_send = vec![(A, 5), (B, 2)];
    let mut out = Queues::default();
    let nothing = noted(&s, A);
    s.process(&mut message(id(1, 4), vec![row(2), row(3)]), 4, 9, false, &mut out);
    assert_eq!(noted(&s, A), nothing);
    assert_eq!(noted(&s, B), format!("{:?}", id(1, 4).unwrap()));
}

#[test]
fn evictions_are_noted_for_the_replicas_that_are_told() {
    let mut s = sharder();
    let mut out = Queues::default();
    let nothing = noted(&s, A);
    // by the sharding column: only the shard that holds the key
    s.process_eviction(id(1, 8), &[0], 6, &[vec![DataType::Int(1)]], 9, false, &mut out);
    assert_eq!(noted(&s, A), nothing);
    assert_eq!(noted(&s, B), format!("{:?}", id(1, 8).unwrap()));
    // by another column: every shard
    s.process_eviction(id(1, 9), &[1], 6, &[vec![DataType::Int(1)]], 9, false, &mut out);
    assert_eq!(noted(&s, A), format!("{:?}", id(1, 9).unwrap()));
    assert_eq!(noted(&s, B), format!("{:?}", id(1, 9).unwrap()));
    // without a provenance there is nothing to note
    s.process_eviction(None, &[1], 6, &[vec![DataType::Int(1)]], 9, false, &mut out);
    assert_eq!(show(&out, A).len(), 2);
    assert_eq!(noted(&s, A), format!("{:?}", id(1, 9).unwrap()));
}

#[test]
fn what_was_sent_last_is_noted() {
    let mut s = sharder();
    s.targets = vec![target(2, &[(1, 2)])];
    let mut out = Queues::default();
    let nothing = noted(&s, B);
    for n in 1..4 {
        s.send_packet(&mut message(id(1, n), vec![row(2)]), 2, 9, false, &mut out);
        let last = out[&A].back().unwrap();
        assert_eq!(noted(&s, A), format!("{:?}", last.id().as_ref().unwrap()));
        assert_eq!(last.id().as_ref().unwrap().label(), n);
    }
    // a packet that waits is not noted
    s.targets = vec![target(9, &[(5, 1)])];
    s.send_packet(&mut message(id(1, 4), vec![row(2)]), 2, 9, false, &mut out);
    assert_eq!(labels(&out, A), vec![1, 2, 3]);
    let last = out[&A].back().unwrap();
    assert_eq!(noted(&s, A), format!("{:?}", last.id().as_ref().unwrap()));
    assert_eq!(noted(&s, B), nothing);
}

#[test]
fn order_of_arrival_is_kept_over_many_calls() {
    let mut s = sharder();
    s.targets = vec![target(3, &[(5, 2), (1, 1)]), target(5, &[(1, 3), (5, 2)])];
    let mut out = Queues::default();
    let given = [(1, 1), (1, 2), (5, 1), (1, 3), (1, 4), (5, 2), (5, 3)];
    for (domain, label) in given {
        s.send_packet(&mut message(id(domain, label), vec![row(2)]), 2, 9, false, &mut out);
    }
    let got = parents(&out, A);
    assert_eq!(got.len(), given.len());
    for domain in [1, 5] {
        let of_parent = |p: &(usize, usize)| p.0 == domain;
        let came: Vec<usize> = given.iter().copied().filter(of_parent).map(|p| p.1).collect();
        let went: Vec<usize> =
            got.iter().filter(|p| p.0 == (domain, 0)).map(|p| p.1).collect();
        assert_eq!(came, went);
    }
    assert_eq!(labels(&out, A), vec![1, 2, 3, 4, 5, 6, 7]);
}

#[test]
fn no_message_is_sent_twice_after_resuming() {
    let mut s = sharder();
    let mut out = Queues::default();
    s.resume_at(vec![(A, 4), (B, 2)], vec![target(3, &[(1, 1), (5, 1)])], None, &mut out);
    for (domain, label) in [(1, 1), (1, 2), (5, 1), (5, 2)] {
        let rows = vec![row(2), row(3)];
        s.send_packet(&mut message(id(domain, label), rows), 2, 9, false, &mut out);
    }
    s.send_packet(
        &mut replay(vec![row(2)], ReplayPieceContext::Regular { last: false }),
        2,
        9,
        false,
        &mut out,
    );
    assert_eq!(labels(&out, A), vec![4, 5, 5]);
    assert_eq!(labels(&out, B), vec![2, 3, 4, 5]);
}
