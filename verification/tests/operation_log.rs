//! The log of operations.
use smg::crdt_kv::epoch_max_wins::{compact_operations, decode, encode, EpochCount};
use smg::crdt_kv::operation::{
    newest_op, sort_by_version, LogCodecError, Operation, OperationLog,
};
use smg::crdt_kv::replica::{LamportClock, ReplicaId, Version};
use std::collections::HashMap;

fn replica(bits: u128) -> ReplicaId {
    ReplicaId::from_bits(bits)
}

fn put(key: &str, value: &[u8], timestamp: u64, bits: u128) -> Operation {
    Operation::insert(key.to_string(), value.to_vec(), timestamp, replica(bits))
}

fn del(key: &str, timestamp: u64, bits: u128) -> Operation {
    Operation::remove(key.to_string(), timestamp, replica(bits))
}

fn log_of(ops: Vec<Operation>) -> OperationLog {
    OperationLog::from_operations(ops)
}

#[test]
fn an_operation_tells_its_parts() {
    let op = put("k", b"v", 3, 4);
    assert_eq!(op.key(), "k");
    assert_eq!(op.timestamp(), 3);
    assert_eq!(op.replica_id(), replica(4));
    assert_eq!(op.version(), Version::new(3, replica(4)));
    assert_eq!(op.clone(), op);
    assert_eq!(del("k", 3, 4).key(), "k");
}

#[test]
fn a_log_grows_and_is_cut() {
    let mut log = OperationLog::new();
    assert!(log.is_empty());
    log.append(put("a", b"1", 1, 1));
    log.append_all(&[put("b", b"2", 2, 1), del("a", 3, 1)]);
    assert_eq!(log.len(), 3);
    assert!(!log.is_empty());
    log.compact_up_to(1);
    assert_eq!(log.len(), 2);
    assert_eq!(log.operations()[0].key(), "b");
    log.retain_ops(|op: &Operation| op.key() != "b");
    assert_eq!(log.operations(), &[del("a", 3, 1)]);
}

#[test]
fn only_a_very_long_log_is_truncated() {
    let many = |n: u64| log_of((0..n).map(|i| put("k", b"v", i, 1)).collect());
    let mut short = many(10_000);
    assert_eq!(short.truncate_oldest_over_threshold(), 0);
    assert_eq!(short.len(), 10_000);
    let mut long = many(10_001);
    assert_eq!(long.truncate_oldest_over_threshold(), 2_501);
    assert_eq!(long.len(), 7_500);
    assert_eq!(long.operations()[0].timestamp(), 2_501);
}

#[test]
fn the_newest_of_each_key_stays() {
    let mut log = log_of(vec![
        put("b", b"1", 5, 1),
        put("a", b"2", 9, 1),
        put("b", b"3", 5, 2),
        put("a", b"4", 1, 9),
    ]);
    log.compact_by_key(|ops: &[Operation]| newest_op(ops));
    assert_eq!(
        log.operations(),
        &[put("b", b"3", 5, 2), put("a", b"2", 9, 1)]
    );
    let again = log.operations().to_vec();
    log.compact_by_key(|ops: &[Operation]| newest_op(ops));
    assert_eq!(log.operations(), &again[..]);
    assert_eq!(newest_op(&[]), None);
}

#[test]
fn a_group_that_folds_to_nothing_is_dropped() {
    let mut log = log_of(vec![put("a", b"1", 1, 1), put("b", b"2", 2, 1)]);
    log.compact_by_key(|ops: &[Operation]| {
        if ops[0].key() == "a" {
            None
        } else {
            newest_op(ops)
        }
    });
    assert_eq!(log.operations(), &[put("b", b"2", 2, 1)]);
}

#[test]
fn sorting_goes_by_version() {
    let sorted = sort_by_version(vec![
        put("a", b"", 2, 1),
        put("b", b"", 1, 2),
        put("c", b"", 1, 1),
    ]);
    let keys: Vec<&str> = sorted.iter().map(|op| op.key()).collect();
    assert_eq!(keys, vec!["c", "b", "a"]);
}

#[test]
fn a_log_survives_its_bytes() {
    let log = log_of(vec![
        put("key", &[1, 2, 3], 7, u128::MAX - 5),
        del("other", 8, 0x0102_0304),
    ]);
    let bytes = log.to_bytes().unwrap();
    let back = OperationLog::from_bytes(&bytes).unwrap();
    assert_eq!(back.operations(), log.operations());
    assert!(OperationLog::from_bytes(&OperationLog::new().to_bytes().unwrap())
        .unwrap()
        .is_empty());
}

#[test]
fn the_bytes_of_a_log_are_fixed() {
    let log = log_of(vec![del("k", 5, 0x0102)]);
    let mut expected: Vec<u8> = vec![1, 0, 0, 0, 0, 0, 0, 0]; // one operation
    expected.extend([1, 0, 0, 0]); // a removal
    expected.extend([1, 0, 0, 0, 0, 0, 0, 0, b'k']);
    expected.extend([5, 0, 0, 0, 0, 0, 0, 0]);
    expected.extend([16, 0, 0, 0, 0, 0, 0, 0]); // the replica
    expected.extend([0; 14]);
    expected.extend([1, 2]);
    assert_eq!(log.to_bytes().unwrap(), expected);
    let back = OperationLog::from_bytes(&expected).unwrap();
    assert_eq!(back.operations(), &[del("k", 5, 0x0102)]);

    // A replica has sixteen bytes.
    let at = expected.len() - 24;
    let mut short = expected.clone();
    short[at] = 15;
    short.pop();
    assert!(matches!(
        OperationLog::from_bytes(&short),
        Err(LogCodecError::Replica)
    ));
}

#[test]
fn bytes_that_are_no_log_are_refused() {
    for bytes in [&[1u8, 2, 3][..], &[1, 0, 0, 0, 0, 0, 0, 0, 9, 0, 0, 0][..]] {
        match OperationLog::from_bytes(bytes) {
            // The reason is the decoder's own.
            Err(LogCodecError::Decode(e)) => {
                let own = bincode::deserialize::<Vec<Result<u64, u64>>>(bytes).unwrap_err();
                assert_eq!(e.to_string(), own.to_string());
            }
            other => panic!("unexpected: {:?}", other.is_ok()),
        }
    }
}

#[test]
fn the_latest_counter_is_read() {
    let log = log_of(vec![
        put("a", &bincode::serialize(&5i64).unwrap(), 1, 1),
        put("a", &bincode::serialize(&-7i64).unwrap(), 2, 1),
        put("b", &bincode::serialize(&i64::MIN).unwrap(), 2, 2),
        put("c", b"short", 1, 1),
        put("d", &bincode::serialize(&1i64).unwrap(), 1, 1),
        del("d", 2, 1),
    ]);
    assert_eq!(log.latest_counter_value("a"), Some(-7));
    assert_eq!(log.latest_counter_value("b"), Some(i64::MIN));
    assert_eq!(log.latest_counter_value("c"), None);
    assert_eq!(log.latest_counter_value("d"), None);
    assert_eq!(log.latest_counter_value("e"), None);
    assert_eq!(log.latest_counter_value_any(), Some(i64::MIN));
    assert_eq!(OperationLog::new().latest_counter_value_any(), None);
}

#[test]
fn of_equal_versions_the_last_counts() {
    let log = log_of(vec![
        put("a", &bincode::serialize(&1i64).unwrap(), 1, 1),
        put("a", &bincode::serialize(&2i64).unwrap(), 1, 1),
    ]);
    assert_eq!(log.latest_counter_value("a"), Some(2));
    assert_eq!(log.latest_counter_value_any(), Some(2));
}

#[test]
fn a_map_of_counters_is_read_by_its_length() {
    // The length of the map stands where a plain counter would.
    let mut map: HashMap<String, i64> = HashMap::new();
    map.insert("value".to_string(), 42);
    map.insert("other".to_string(), 1);
    let bytes = bincode::serialize(&map).unwrap();
    let log = log_of(vec![put("a", &bytes, 1, 1)]);
    assert_eq!(log.latest_counter_value("a"), Some(2));
}

#[test]
fn a_clock_ticks_and_catches_up() {
    let mut clock = LamportClock::new();
    assert_eq!(clock.tick(), 1);
    assert_eq!(clock.tick(), 2);
    clock.update(10);
    assert_eq!(clock.tick(), 12);
    clock.update(3);
    assert_eq!(clock.tick(), 14);
}

#[test]
fn versions_are_ordered_by_time_then_replica() {
    let a = Version::new(1, replica(9));
    let b = Version::new(2, replica(1));
    let c = Version::new(2, replica(2));
    assert!(a.is_before(&b));
    assert!(b.is_before(&c));
    assert!(!c.is_before(&b));
    assert!(!b.is_before(&b));
}

#[test]
fn new_replicas_are_random_identifiers() {
    for _ in 0..32 {
        let bits = ReplicaId::new().bits;
        assert_eq!((bits >> 76) & 0xf, 4);
        assert_eq!((bits >> 62) & 0x3, 2);
    }
}

#[test]
fn new_replicas_differ() {
    assert_ne!(ReplicaId::new(), ReplicaId::new());
}

#[test]
fn counts_survive_their_bytes() {
    for (epoch, count) in [(0, 0), (1, -1), (u64::MAX, i64::MIN), (7, i64::MAX)] {
        let bytes = encode(epoch, count);
        assert_eq!(bytes.len(), 16);
        assert_eq!(decode(&bytes), Some(EpochCount { epoch, count }));
    }
    assert_eq!(&encode(1, 2)[..], &[1, 0, 0, 0, 0, 0, 0, 0, 2, 0, 0, 0, 0, 0, 0, 0][..]);
    assert_eq!(decode(&[0; 15]), None);
}

#[test]
fn folding_counts_keeps_the_higher_epoch_then_the_higher_count() {
    let winner = compact_operations(&[
        put("rl:a", &encode(2, 5), 9, 1),
        put("rl:a", &encode(3, 1), 1, 1),
        put("rl:a", &encode(3, 4), 2, 1),
    ])
    .unwrap();
    let Operation::Insert { value, .. } = winner else {
        panic!("a live key stays an insert");
    };
    assert_eq!(decode(&value), Some(EpochCount { epoch: 3, count: 4 }));
    assert!(compact_operations(&[]).is_none());
}
