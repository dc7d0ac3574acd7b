use dataflow_sharder::data::{shard_by, DataType};

fn text(s: &str) -> DataType {
    DataType::Text(s.to_string())
}

#[test]
fn integers_go_by_their_value() {
    assert_eq!(shard_by(&DataType::Int(7), 4), 3);
    assert_eq!(shard_by(&DataType::BigInt(7), 4), 3);
    assert_eq!(shard_by(&DataType::Int(0), 1), 0);
}

#[test]
fn negative_integers_go_by_their_machine_word() {
    assert_eq!(shard_by(&DataType::Int(-1), 10), usize::MAX % 10);
    assert_eq!(shard_by(&DataType::BigInt(-3), 7), (usize::MAX - 2) % 7);
}

#[test]
fn missing_values_go_to_the_first_shard() {
    assert_eq!(shard_by(&DataType::Null, 5), 0);
}

#[test]
fn text_goes_by_its_hash() {
    assert_eq!(shard_by(&text(""), 10), 0xcbf29ce484222325u64 as usize % 10);
    assert_eq!(shard_by(&text("a"), 10), 0xaf63dc4c8601ec8cu64 as usize % 10);
    assert_eq!(shard_by(&text("foobar"), 1000), 0x85944171f73967e8u64 as usize % 1000);
}

#[test]
fn every_shard_is_in_range() {
    for n in 1..20usize {
        for i in -50..50i32 {
            assert!(shard_by(&DataType::Int(i), n) < n);
            assert!(shard_by(&text(&format!("{}", i)), n) < n);
        }
    }
}
