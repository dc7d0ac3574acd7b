//! The packets that travel between the nodes of the data-flow graph.

use vstd::prelude::*;
use crate::data::{
    clone_keys, clone_records, key_values, rows, values, DataType, Record, Row, Value,
};
use crate::ids::{Link, Tag};
use crate::provenance::{ProvTree, ProvenanceUpdate};

verus! {

/// Why a piece of a replay was sent.
#[derive(Debug)]
pub enum ReplayPieceContext {
    /// The replay of some keys.
    Partial { for_keys: Vec<Vec<DataType>>, ignore: bool },
    /// The replay of a whole relation; `last` tells whether this piece ends it.
    Regular { last: bool },
}

/// What a [`ReplayPieceContext`] stands for.
pub enum ContextModel {
    Partial { for_keys: Seq<Seq<Value>>, ignore: bool },
    Regular { last: bool },
}

impl View for ReplayPieceContext {
    type V = ContextModel;

    open spec fn view(&self) -> ContextModel {
        match self {
            ReplayPieceContext::Partial { for_keys, ignore } => ContextModel::Partial {
                for_keys: key_values(for_keys@),
                ignore: *ignore,
            },
            ReplayPieceContext::Regular { last } => ContextModel::Regular { last: *last },
        }
    }
}

impl Clone for ReplayPieceContext {
    fn clone(&self) -> (res: Self)
        ensures
            res@ == self@,
    {
        match self {
            ReplayPieceContext::Partial { for_keys, ignore } => ReplayPieceContext::Partial {
                for_keys: clone_keys(for_keys.as_slice()),
                ignore: *ignore,
            },
            ReplayPieceContext::Regular { last } => ReplayPieceContext::Regular { last: *last },
        }
    }
}

/// A packet.
#[derive(Debug)]
pub enum Packet {
    /// A regular update.
    Message { id: Option<ProvenanceUpdate>, link: Link, data: Vec<Record> },
    /// An update that is part of a replay.
    ReplayPiece {
        id: Option<ProvenanceUpdate>,
        link: Link,
        tag: Tag,
        data: Vec<Record>,
        context: ReplayPieceContext,
    },
    /// The order to evict keys along a replay path.
    EvictKeys { id: Option<ProvenanceUpdate>, link: Link, tag: Tag, keys: Vec<Vec<DataType>> },
}

/// What a [`Packet`] stands for.
pub enum PacketModel {
    Message { id: Option<ProvTree>, link: Link, data: Seq<Row> },
    ReplayPiece {
        id: Option<ProvTree>,
        link: Link,
        tag: Tag,
        data: Seq<Row>,
        context: ContextModel,
    },
    EvictKeys { id: Option<ProvTree>, link: Link, tag: Tag, keys: Seq<Seq<Value>> },
}

/// The tree of an optional provenance.
pub open spec fn opt_tree(id: Option<ProvenanceUpdate>) -> Option<ProvTree> {
    match id {
        Some(p) => Some(p@),
        None => None,
    }
}

impl View for Packet {
    type V = PacketModel;

    open spec fn view(&self) -> PacketModel {
        match self {
            Packet::Message { id, link, data } => PacketModel::Message {
                id: opt_tree(*id),
                link: *link,
                data: rows(data@),
            },
            Packet::ReplayPiece { id, link, tag, data, context } => PacketModel::ReplayPiece {
                id: opt_tree(*id),
                link: *link,
                tag: *tag,
                data: rows(data@),
                context: context@,
            },
            Packet::EvictKeys { id, link, tag, keys } => PacketModel::EvictKeys {
                id: opt_tree(*id),
                link: *link,
                tag: *tag,
                keys: key_values(keys@),
            },
        }
    }
}

impl PacketModel {
    /// The provenance of the packet.
    pub open spec fn id(self) -> Option<ProvTree> {
        match self {
            PacketModel::Message { id, .. } => id,
            PacketModel::ReplayPiece { id, .. } => id,
            PacketModel::EvictKeys { id, .. } => id,
        }
    }

    /// The edge that the packet travels along.
    pub open spec fn link(self) -> Link {
        match self {
            PacketModel::Message { link, .. } => link,
            PacketModel::ReplayPiece { link, .. } => link,
            PacketModel::EvictKeys { link, .. } => link,
        }
    }

    /// The packet can carry records.
    pub open spec fn carries_data(self) -> bool {
        !(self is EvictKeys)
    }

    /// The records of the packet.
    pub open spec fn data(self) -> Seq<Row> {
        match self {
            PacketModel::Message { data, .. } => data,
            PacketModel::ReplayPiece { data, .. } => data,
            PacketModel::EvictKeys { .. } => Seq::empty(),
        }
    }

    /// The packet with another provenance.
    pub open spec fn with_id(self, id: Option<ProvTree>) -> PacketModel {
        match self {
            PacketModel::Message { id: _, link, data } => PacketModel::Message { id, link, data },
            PacketModel::ReplayPiece { id: _, link, tag, data, context } => {
                PacketModel::ReplayPiece { id, link, tag, data, context }
            },
            PacketModel::EvictKeys { id: _, link, tag, keys } => {
                PacketModel::EvictKeys { id, link, tag, keys }
            },
        }
    }

    /// The packet on another edge.
    pub open spec fn with_link(self, link: Link) -> PacketModel {
        match self {
            PacketModel::Message { id, link: _, data } => PacketModel::Message { id, link, data },
            PacketModel::ReplayPiece { id, link: _, tag, data, context } => {
                PacketModel::ReplayPiece { id, link, tag, data, context }
            },
            PacketModel::EvictKeys { id, link: _, tag, keys } => {
                PacketModel::EvictKeys { id, link, tag, keys }
            },
        }
    }

    /// The packet with other records, if it carries any.
    pub open spec fn with_data(self, data: Seq<Row>) -> PacketModel {
        match self {
            PacketModel::Message { id, link, data: _ } => PacketModel::Message { id, link, data },
            PacketModel::ReplayPiece { id, link, tag, data: _, context } => {
                PacketModel::ReplayPiece { id, link, tag, data, context }
            },
            PacketModel::EvictKeys { .. } => self,
        }
    }
}

/// A copy of an optional provenance.
pub fn clone_id(id: &Option<ProvenanceUpdate>) -> (res: Option<ProvenanceUpdate>)
    ensures
        opt_tree(res) == opt_tree(*id),
{
    match id {
        Some(p) => Some(p.clone()),
        None => None,
    }
}

impl Clone for Packet {
    fn clone(&self) -> (res: Self)
        ensures
            res@ == self@,
    {
        match self {
            Packet::Message { id, link, data } => Packet::Message {
                id: clone_id(id),
                link: *link,
                data: clone_records(data),
            },
            Packet::ReplayPiece { id, link, tag, data, context } => Packet::ReplayPiece {
                id: clone_id(id),
                link: *link,
                tag: *tag,
                data: clone_records(data),
                context: context.clone(),
            },
            Packet::EvictKeys { id, link, tag, keys } => Packet::EvictKeys {
                id: clone_id(id),
                link: *link,
                tag: *tag,
                keys: clone_keys(keys.as_slice()),
            },
        }
    }
}

impl Packet {
    /// The provenance of the packet.
    pub fn id(&self) -> (res: &Option<ProvenanceUpdate>)
        ensures
            opt_tree(*res) == self@.id(),
    {
        match self {
            Packet::Message { id, .. } => id,
            Packet::ReplayPiece { id, .. } => id,
            Packet::EvictKeys { id, .. } => id,
        }
    }

    /// The place of the packet's provenance.
    pub fn id_mut(&mut self) -> (res: &mut Option<ProvenanceUpdate>)
        ensures
            opt_tree(*res) == old(self)@.id(),
            final(self)@ == old(self)@.with_id(opt_tree(*final(res))),
    {
        match self {
            Packet::Message { id, .. } => id,
            Packet::ReplayPiece { id, .. } => id,
            Packet::EvictKeys { id, .. } => id,
        }
    }

    /// The place of the packet's edge.
    pub fn link_mut(&mut self) -> (res: &mut Link)
        ensures
            *res == old(self)@.link(),
            final(self)@ == old(self)@.with_link(*final(res)),
    {
        match self {
            Packet::Message { link, .. } => link,
            Packet::ReplayPiece { link, .. } => link,
            Packet::EvictKeys { link, .. } => link,
        }
    }

    /// Takes the records out of the packet.
    pub fn take_data(&mut self) -> (res: Vec<Record>)
        requires
            old(self)@.carries_data(),
        ensures
            rows(res@) == old(self)@.data(),
            final(self)@ == old(self)@.with_data(Seq::empty()),
    {
        let mut res: Vec<Record> = Vec::new();
        proof {
            assert(rows(res@) =~= Seq::empty());
        }
        match self {
            Packet::Message { data, .. } => {
                std::mem::swap(data, &mut res);
            },
            Packet::ReplayPiece { data, .. } => {
                std::mem::swap(data, &mut res);
            },
            Packet::EvictKeys { .. } => {},
        }
        res
    }

    /// Adds a record behind those that the packet carries.
    pub fn push_record(&mut self, record: Record)
        requires
            old(self)@.carries_data(),
        ensures
            final(self)@ == old(self)@.with_data(old(self)@.data().push(record@)),
    {
        match self {
            Packet::Message { data, .. } => {
                let ghost before = data@;
                data.push(record);
                assert(rows(data@) =~= rows(before).push(record@));
            },
            Packet::ReplayPiece { data, .. } => {
                let ghost before = data@;
                data.push(record);
                assert(rows(data@) =~= rows(before).push(record@));
            },
            Packet::EvictKeys { .. } => {},
        }
    }

    /// Adds a key behind those that the packet evicts.
    pub fn push_key(&mut self, key: Vec<DataType>)
        requires
            old(self)@ is EvictKeys,
        ensures
            final(self)@ == (PacketModel::EvictKeys {
                id: old(self)@.id(),
                link: old(self)@.link(),
                tag: old(self)@->EvictKeys_tag,
                keys: old(self)@->EvictKeys_keys.push(values(key@)),
            }),
    {
        match self {
            Packet::EvictKeys { keys, .. } => {
                let ghost before = keys@;
                keys.push(key);
                assert(key_values(keys@) =~= key_values(before).push(values(key@)));
            },
            _ => {},
        }
    }

    /// A copy of a packet that carries records.
    pub fn clone_data(&self) -> (res: Self)
        requires
            self@.carries_data(),
        ensures
            res@ == self@,
    {
        self.clone()
    }
}

} // verus!
