//! The collections of other crates that the sharder works with: `vec_map::VecMap`, which holds
//! the packet under construction for each shard, and `fnv::FnvHashMap`, which holds the queue of
//! packets for each replica.

use fnv::FnvHashMap;
use std::collections::VecDeque;
use vec_map::VecMap;
use vstd::prelude::*;
use crate::ids::ReplicaAddr;
use crate::packet::{Packet, PacketModel};

verus! {

/// The most shards that a sharder has. A `VecMap` keeps its values in a vector with a place for
/// each key, here the size of a pointer, and the vector panics if it would grow beyond
/// `isize::MAX` bytes. Up to this many places it stays below that even when it doubles.
pub const MAX_SHARDS: usize = usize::MAX / 32;

/// Declares `vec_map::VecMap`. Nothing is claimed of it but what [`slots`] and the functions
/// below say.
#[verifier::external_type_specification]
#[verifier::external_body]
#[verifier::reject_recursive_types(V)]
pub struct ExVecMap<V>(vec_map::VecMap<V>);

/// Declares `fnv::FnvHasher`, the hasher of an `FnvHashMap`. Nothing is claimed of it.
#[verifier::external_type_specification]
#[verifier::external_body]
pub struct ExFnvHasher(fnv::FnvHasher);

/// Declares `core::hash::BuildHasherDefault`, which makes the hashers of an `FnvHashMap`. Nothing
/// is claimed of it.
#[verifier::external_type_specification]
#[verifier::external_body]
#[verifier::reject_recursive_types(H)]
pub struct ExBuildHasherDefault<H>(core::hash::BuildHasherDefault<H>);

/// The entries of a `VecMap`.
pub uninterp spec fn slots(m: VecMap<Box<Packet>>) -> Map<usize, Box<Packet>>;

/// Calls `VecMap::new`. The new map has no entries.
#[verifier::external_body]
pub(crate) fn slots_new() -> (res: VecMap<Box<Packet>>)
    ensures
        (slots(res) == Map::<usize, Box<Packet>>::empty()),
{
    VecMap::new()
}

/// Calls `VecMap::entry` and `or_insert_with` on the entry. The result is the place of the value
/// for `key`: the value that was there, or else what `f` returned; no other entry changes.
#[verifier::external_body]
pub(crate) fn slots_entry<F: FnOnce() -> Box<Packet>>(
    m: &mut VecMap<Box<Packet>>,
    key: usize,
    f: F,
) -> (res: &mut Box<Packet>)
    requires
        key < MAX_SHARDS,
        f.requires(()),
    ensures
        slots(*old(m)).contains_key(key) ==> *res == slots(*old(m))[key],
        !slots(*old(m)).contains_key(key) ==> f.ensures((), *res),
        slots(*final(m)) == slots(*old(m)).insert(key, *final(res)),
{
    m.entry(key).or_insert_with(f)
}

/// Calls `VecMap::remove`. The entry for `key` leaves the map and is returned, if there is one.
#[verifier::external_body]
pub(crate) fn slots_remove(m: &mut VecMap<Box<Packet>>, key: usize) -> (res: Option<Box<Packet>>)
    ensures
        slots(*final(m)) == slots(*old(m)).remove(key),
        res == if slots(*old(m)).contains_key(key) {
            Some(slots(*old(m))[key])
        } else {
            None
        },
{
    m.remove(key)
}

/// The queue for each replica.
pub type Queues = FnvHashMap<ReplicaAddr, VecDeque<Box<Packet>>>;

/// Calls `entry` and `or_default` on the `FnvHashMap`. The result is the place of the queue for
/// `addr`: the queue that was there, or else an empty one; no other entry changes.
#[verifier::external_body]
pub(crate) fn queue(output: &mut Queues, addr: ReplicaAddr) -> (res: &mut VecDeque<Box<Packet>>)
    ensures
        old(output)@.contains_key(addr) ==> *res == old(output)@[addr],
        !old(output)@.contains_key(addr) ==> res@ == Seq::<Box<Packet>>::empty(),
        final(output)@ == old(output)@.insert(addr, *final(res)),
{
    output.entry(addr).or_default()
}

/// The packets that wait in a queue.
pub open spec fn packets(q: VecDeque<Box<Packet>>) -> Seq<PacketModel> {
    q@.map_values(|p: Box<Packet>| p@)
}

/// The packets that wait for each replica.
pub open spec fn queued(output: Queues) -> Map<ReplicaAddr, Seq<PacketModel>> {
    output@.map_values(|q: VecDeque<Box<Packet>>| packets(q))
}

/// The packets that wait for each replica, with one more for `addr`.
pub open spec fn sent(
    q: Map<ReplicaAddr, Seq<PacketModel>>,
    addr: ReplicaAddr,
    p: PacketModel,
) -> Map<ReplicaAddr, Seq<PacketModel>> {
    q.insert(
        addr,
        (if q.contains_key(addr) {
            q[addr]
        } else {
            Seq::empty()
        }).push(p),
    )
}

/// Puts a packet at the end of the queue for `addr`.
pub fn enqueue(output: &mut Queues, addr: ReplicaAddr, p: Box<Packet>)
    ensures
        queued(*final(output)) == sent(queued(*old(output)), addr, p@),
{
    let ghost before = queued(*output);
    let q = queue(output, addr);
    let ghost waiting = q@;
    q.push_back(p);
    proof {
        let held: Seq<PacketModel> = if before.contains_key(addr) {
            before[addr]
        } else {
            Seq::empty()
        };
        assert(waiting.map_values(|p: Box<Packet>| p@) =~= held);
        assert(waiting.push(p).map_values(|p: Box<Packet>| p@) =~= held.push(p@));
        assert(queued(*output) =~= sent(before, addr, p@));
    }
}

} // verus!
