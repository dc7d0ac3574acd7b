//! The records that packets carry, and the shard that a value belongs to.

use vstd::prelude::*;
use vstd::utf8::encode_utf8;
use crate::hash::{fnv1a, fnv_hash};

verus! {

/// A value in a column of a record.
#[derive(Debug)]
pub enum DataType {
    /// The absence of a value.
    Null,
    /// A 32-bit integer.
    Int(i32),
    /// A 64-bit integer.
    BigInt(i64),
    /// A piece of text.
    Text(String),
}

/// What a [`DataType`] stands for.
pub enum Value {
    Null,
    Int(i32),
    BigInt(i64),
    Text(Seq<char>),
}

impl View for DataType {
    type V = Value;

    open spec fn view(&self) -> Value {
        match self {
            DataType::Null => Value::Null,
            DataType::Int(n) => Value::Int(*n),
            DataType::BigInt(n) => Value::BigInt(*n),
            DataType::Text(s) => Value::Text(s@),
        }
    }
}

impl Clone for DataType {
    fn clone(&self) -> (res: Self)
        ensures
            res@ == self@,
    {
        match self {
            DataType::Null => DataType::Null,
            DataType::Int(n) => DataType::Int(*n),
            DataType::BigInt(n) => DataType::BigInt(*n),
            DataType::Text(s) => DataType::Text(s.clone()),
        }
    }
}

/// The values of a list of data.
pub open spec fn values(row: Seq<DataType>) -> Seq<Value> {
    row.map_values(|dt: DataType| dt@)
}

/// The values of a list of keys.
pub open spec fn key_values(keys: Seq<Vec<DataType>>) -> Seq<Seq<Value>> {
    keys.map_values(|key: Vec<DataType>| values(key@))
}

/// A copy of a list of data.
pub fn clone_values(row: &Vec<DataType>) -> (res: Vec<DataType>)
    ensures
        values(res@) == values(row@),
{
    let mut res: Vec<DataType> = Vec::new();
    let mut i: usize = 0;
    while i < row.len()
        invariant
            i <= row@.len(),
            res@.len() == i,
            forall|j: int| 0 <= j < i ==> (#[trigger] res@[j])@ == row@[j]@,
        decreases row@.len() - i,
    {
        res.push(row[i].clone());
        i += 1;
    }
    assert(values(res@) =~= values(row@));
    res
}

/// A copy of a list of keys.
pub fn clone_keys(keys: &[Vec<DataType>]) -> (res: Vec<Vec<DataType>>)
    ensures
        key_values(res@) == key_values(keys@),
{
    let mut res: Vec<Vec<DataType>> = Vec::new();
    let mut i: usize = 0;
    while i < keys.len()
        invariant
            i <= keys@.len(),
            res@.len() == i,
            forall|j: int| 0 <= j < i ==> values((#[trigger] res@[j])@) == values(keys@[j]@),
        decreases keys@.len() - i,
    {
        res.push(clone_values(&keys[i]));
        i += 1;
    }
    assert(key_values(res@) =~= key_values(keys@));
    res
}

/// A row that is added to a relation, or taken out of it.
#[derive(Debug)]
pub enum Record {
    Positive(Vec<DataType>),
    Negative(Vec<DataType>),
}

/// What a [`Record`] stands for.
pub struct Row {
    pub positive: bool,
    pub values: Seq<Value>,
}

impl View for Record {
    type V = Row;

    open spec fn view(&self) -> Row {
        match self {
            Record::Positive(row) => Row { positive: true, values: values(row@) },
            Record::Negative(row) => Row { positive: false, values: values(row@) },
        }
    }
}

impl Clone for Record {
    fn clone(&self) -> (res: Self)
        ensures
            res@ == self@,
    {
        match self {
            Record::Positive(row) => Record::Positive(clone_values(row)),
            Record::Negative(row) => Record::Negative(clone_values(row)),
        }
    }
}

impl Record {
    /// The value in column `column`.
    pub fn column(&self, column: usize) -> (res: &DataType)
        requires
            column < self@.values.len(),
        ensures
            res@ == self@.values[column as int],
    {
        match self {
            Record::Positive(row) => &row[column],
            Record::Negative(row) => &row[column],
        }
    }
}

/// The rows of a list of records.
pub open spec fn rows(data: Seq<Record>) -> Seq<Row> {
    data.map_values(|r: Record| r@)
}

/// A copy of a list of records.
pub fn clone_records(data: &Vec<Record>) -> (res: Vec<Record>)
    ensures
        rows(res@) == rows(data@),
{
    let mut res: Vec<Record> = Vec::new();
    let mut i: usize = 0;
    while i < data.len()
        invariant
            i <= data@.len(),
            res@.len() == i,
            forall|j: int| 0 <= j < i ==> (#[trigger] res@[j])@ == data@[j]@,
        decreases data@.len() - i,
    {
        res.push(data[i].clone());
        i += 1;
    }
    assert(rows(res@) =~= rows(data@));
    res
}

/// The shard, out of `shards`, that holds what belongs to `value`: integers go by their value
/// as a machine word, text by its hash, and the absence of a value to the first shard.
pub open spec fn shard_of(value: Value, shards: nat) -> int {
    match value {
        Value::Null => 0,
        Value::Int(n) => (n as usize) as int % shards as int,
        Value::BigInt(n) => (n as usize) as int % shards as int,
        Value::Text(s) => (fnv1a(encode_utf8(s)) as usize) as int % shards as int,
    }
}

/// The shard, out of `shards`, that holds what belongs to `dt`.
pub fn shard_by(dt: &DataType, shards: usize) -> (res: usize)
    requires
        shards > 0,
    ensures
        res == shard_of(dt@, shards as nat),
        res < shards,
{
    match dt {
        DataType::Null => 0,
        DataType::Int(n) => (*n as usize) % shards,
        DataType::BigInt(n) => (*n as usize) % shards,
        DataType::Text(s) => (fnv_hash(s.as_str().as_bytes()) as usize) % shards,
    }
}

} // verus!
