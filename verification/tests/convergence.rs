//! What holds of replicas as a whole, on concrete values.
use smg::crdt_kv::crdt::CrdtOrMap;
use smg::crdt_kv::engine::any::MergeStrategy;
use smg::crdt_kv::epoch_max_wins::{decode, encode, EpochCount};
use smg::crdt_kv::operation::{Operation, OperationLog};
use smg::crdt_kv::replica::{ReplicaId, Version};
use smg::crdt_kv::watermark::{unacked, CrdtWatermark};
use smg::kv::MeshKV;
use smg::reasoning_parser::mistral::MistralParser;
use smg::tool_parser::json::NumberReader;
use smg::tool_parser::step3p5::Step3p5Parser;

fn replica(bits: u128) -> ReplicaId {
    ReplicaId::from_bits(bits)
}

fn put(key: &str, value: &[u8], timestamp: u64, bits: u128) -> Operation {
    Operation::insert(key.to_string(), value.to_vec(), timestamp, replica(bits))
}

fn del(key: &str, timestamp: u64, bits: u128) -> Operation {
    Operation::remove(key.to_string(), timestamp, replica(bits))
}

fn map() -> CrdtOrMap {
    let mut map = CrdtOrMap::new();
    map.register_merge_strategy("rl:".to_string(), MergeStrategy::EpochMaxWins);
    map
}

fn orders(ops: &[Operation]) -> Vec<Vec<Operation>> {
    if ops.is_empty() {
        return vec![Vec::new()];
    }
    let mut out = Vec::new();
    for i in 0..ops.len() {
        let mut rest = ops.to_vec();
        let first = rest.remove(i);
        for mut tail in orders(&rest) {
            tail.insert(0, first.clone());
            out.push(tail);
        }
    }
    out
}

#[test]
fn every_order_of_merging_gives_the_same_map() {
    let ops = [
        put("w:a", b"1", 1, 1),
        put("w:a", b"2", 3, 1),
        del("w:a", 2, 2),
        put("w:b", b"3", 2, 1),
        del("w:b", 4, 2),
    ];
    for order in orders(&ops) {
        let mut m = map();
        for op in order {
            m.merge(&OperationLog::from_operations(vec![op]));
        }
        assert_eq!(m.all(), vec![("w:a".to_string(), b"2".to_vec())]);
    }
}

#[test]
fn every_order_of_merging_counts_gives_the_same_map() {
    let ops = [
        put("rl:a", &encode(7, 9), 10, 1),
        del("rl:a", 20, 2),
        put("rl:a", &encode(3, 1), 30, 3),
        put("rl:a", &encode(3, 5), 25, 1),
        put("rl:b", &encode(1, 1), 5, 1),
    ];
    for order in orders(&ops) {
        let mut m = map();
        for op in order {
            m.merge(&OperationLog::from_operations(vec![op]));
        }
        assert_eq!(
            decode(&m.get("rl:a").unwrap()),
            Some(EpochCount { epoch: 3, count: 5 })
        );
        assert_eq!(
            decode(&m.get("rl:b").unwrap()),
            Some(EpochCount { epoch: 1, count: 1 })
        );
    }
}

#[test]
fn replicas_that_exchange_their_logs_agree() {
    let mut a = map();
    let mut b = map();
    a.insert("w:x".to_string(), b"a".to_vec());
    a.insert("rl:n".to_string(), encode(1, 4));
    b.insert("w:x".to_string(), b"b".to_vec());
    b.insert("w:y".to_string(), b"b".to_vec());
    b.remove("w:y");
    b.insert("rl:n".to_string(), encode(2, 0));
    let from_a = a.get_operation_log();
    a.merge_replica(&b);
    b.merge(&from_a);
    assert_eq!(a.all(), b.all());
    assert_eq!(a.len(), 2);
    assert!(!a.is_empty());
    assert!(a.merge(&b.get_operation_log()).is_empty());
}

#[test]
fn a_third_replica_learns_everything_from_one() {
    let mut a = map();
    let mut b = map();
    a.insert("w:x".to_string(), b"1".to_vec());
    a.insert("rl:n".to_string(), encode(5, 5));
    a.remove("rl:n");
    b.merge_replica(&a);
    let mut c = map();
    c.merge_replica(&b);
    assert_eq!(c.all(), a.all());
    // What was deleted stays deleted there.
    c.merge(&OperationLog::from_operations(vec![put(
        "rl:n",
        &encode(9, 9),
        1,
        9,
    )]));
    assert_eq!(c.get("rl:n"), None);
}

#[test]
fn a_write_is_read_back_and_leaves_others_alone() {
    let mut m = map();
    m.insert("w:a".to_string(), b"1".to_vec());
    m.insert("w:b".to_string(), b"2".to_vec());
    m.merge(&OperationLog::from_operations(vec![put(
        "w:a", b"far", 1_000, 1,
    )]));
    assert_eq!(
        m.insert("w:a".to_string(), b"3".to_vec()),
        Some(b"far".to_vec())
    );
    assert_eq!(m.get("w:a"), Some(b"3".to_vec()));
    assert_eq!(m.get("w:b"), Some(b"2".to_vec()));
    assert_eq!(m.remove("w:b"), Some(b"2".to_vec()));
    assert_eq!(m.get("w:a"), Some(b"3".to_vec()));
    assert_eq!(m.remove("w:c"), None);
}

#[test]
fn the_longest_prefix_has_the_say() {
    let mut m = CrdtOrMap::with_replica_id(replica(1));
    assert_eq!(m.replica_id(), replica(1));
    m.register_merge_strategy("r".to_string(), MergeStrategy::LastWriterWins);
    m.register_merge_strategy("rl:".to_string(), MergeStrategy::EpochMaxWins);
    assert!(m.is_registered("rl:"));
    assert!(!m.is_registered("rl"));
    // Not a count, so it is refused under the longer prefix only.
    m.insert("rl:a".to_string(), b"x".to_vec());
    m.insert("ra".to_string(), b"x".to_vec());
    assert_eq!(m.get("rl:a"), None);
    assert_eq!(m.get("ra"), Some(b"x".to_vec()));
}

#[test]
fn changes_are_counted() {
    let mut m = map();
    let start = m.generation();
    m.insert("w:a".to_string(), b"1".to_vec());
    let after_insert = m.generation();
    assert!(after_insert > start);
    m.get("w:a");
    assert_eq!(m.generation(), after_insert);
    m.remove("w:a");
    assert!(m.generation() > after_insert);
    let mut keys = m.keys();
    keys.sort();
    assert!(keys.is_empty());
}

#[test]
fn a_log_of_counts_stays_small() {
    let mut m = map();
    for i in 0..500 {
        m.insert("rl:hot".to_string(), encode(1, i));
    }
    assert!(m.get_operation_log().len() <= 65);
    assert_eq!(
        decode(&m.get("rl:hot").unwrap()),
        Some(EpochCount {
            epoch: 1,
            count: 499
        })
    );
}

#[test]
fn a_write_is_in_the_log_from_then_on() {
    let mut m = map();
    m.insert("w:a".to_string(), b"1".to_vec());
    let before = m.operation_log_snapshot();
    assert!(std::sync::Arc::ptr_eq(&before, &m.operation_log_snapshot()));
    m.insert("w:b".to_string(), b"2".to_vec());
    let after = m.operation_log_snapshot();
    assert!(!std::sync::Arc::ptr_eq(&before, &after));
    assert!(after.operations().iter().any(|op| op.key() == "w:b"));
    assert!(!before.operations().iter().any(|op| op.key() == "w:b"));
    m.insert("rl:x".to_string(), encode(1, 2).to_vec());
    let counted = m.operation_log_snapshot();
    assert!(counted.operations().iter().any(|op| op.key() == "rl:x"));
}

#[test]
fn merging_again_leaves_the_log_as_long() {
    let mut first = OperationLog::new();
    first.append(put("rl:a", &encode(7, 9), 10, 1));
    first.append(put("rl:a", &encode(3, 1), 30, 3));
    first.append(put("rl:b", b"not a count", 11, 1));
    first.append(put("w:a", b"old", 12, 1));
    first.append(put("w:a", b"new", 13, 2));
    let mut second = OperationLog::new();
    second.append(put("rl:a", &encode(8, 0), 40, 2));
    second.append(put("w:a", b"newer", 41, 2));
    second.append(put("w:b", b"b", 42, 2));

    let mut one = map();
    one.merge(&first);
    let len = one.get_operation_log().len();
    let seen = one.generation();
    assert!(one.merge(&first).is_empty());
    assert_eq!(one.get_operation_log().len(), len);
    assert_eq!(one.generation(), seen);

    one.merge(&second);
    let mut two = map();
    two.merge(&second);
    two.merge(&first);
    assert_eq!(
        one.get_operation_log().len(),
        two.get_operation_log().len()
    );
    assert!(one.merge(&first).is_empty());
    assert_eq!(
        one.get_operation_log().len(),
        two.get_operation_log().len()
    );
    for key in ["rl:a", "rl:b", "w:a", "w:b"] {
        assert_eq!(one.get(key), two.get(key), "{key}");
    }
}

#[test]
fn a_snapshot_is_never_stale() {
    let mut m = map();
    m.insert("w:a".to_string(), b"1".to_vec());
    assert_eq!(
        m.operation_log_snapshot().operations(),
        m.get_operation_log().operations()
    );
    m.remove("w:a");
    assert_eq!(
        m.operation_log_snapshot().operations(),
        m.get_operation_log().operations()
    );
    m.gc_tombstones_with_grace(0);
    assert_eq!(
        m.operation_log_snapshot().operations(),
        m.get_operation_log().operations()
    );
}

#[test]
fn tombstones_age_by_the_given_clock() {
    let mut m = map();
    m.insert_at("w:a", b"1".to_vec(), 10);
    m.remove_at("w:a", 100);
    assert_eq!(m.gc_tombstones_at(50, 149), 0);
    assert_eq!(m.gc_tombstones_at(50, 150), 1);
    assert_eq!(m.gc_tombstones_at(50, 150), 0);
    let changes = m.merge_at(
        &OperationLog::from_operations(vec![put("w:a", b"2", 1, 1)]),
        200,
    );
    assert_eq!(changes.len(), 1);
}

#[test]
fn acknowledgements_join_in_any_order() {
    let mut a = CrdtWatermark::new();
    a.acknowledge("x", Version::new(1, replica(1)));
    a.acknowledge("y", Version::new(5, replica(1)));
    let mut b = CrdtWatermark::new();
    b.acknowledge("x", Version::new(2, replica(1)));
    let mut ab = CrdtWatermark::from_entries(&a.entries());
    ab.merge_max(&b);
    let mut ba = CrdtWatermark::from_entries(&b.entries());
    ba.merge_max(&a);
    for key in ["x", "y", "z"] {
        assert_eq!(ab.get(key), ba.get(key));
    }
    assert_eq!(ab.get("x"), Some((2, replica(1))));
    assert_eq!(ab.get("y"), Some((5, replica(1))));
}

#[test]
fn only_what_is_acknowledged_is_settled() {
    let ops = vec![
        put("x", b"1", 1, 1),
        put("x", b"2", 2, 1),
        put("y", b"3", 1, 1),
    ];
    let mut acked = CrdtWatermark::new();
    acked.acknowledge("x", Version::new(1, replica(1)));
    assert!(!acked.allows(&ops[0]));
    assert!(acked.allows(&ops[1]));
    assert!(acked.allows(&ops[2]));
    assert_eq!(unacked(&ops, &acked), vec![ops[1].clone(), ops[2].clone()]);
    acked.merge_max(&CrdtWatermark::of_ops(&ops));
    assert!(unacked(&ops, &acked).is_empty());
}

#[test]
fn a_prefix_is_configured_once() {
    let mut mesh = MeshKV::new("node".to_string());
    assert_eq!(mesh.name(), "node");
    assert!(!mesh.is_configured("w:"));
    let ns = mesh.configure_crdt_prefix("w:", MergeStrategy::LastWriterWins);
    assert!(mesh.is_configured("w:"));
    ns.put(&mut mesh, "w:a", b"1".to_vec());
    let changes = mesh.merge(&OperationLog::from_operations(vec![put(
        "w:a", b"2", 9, 1,
    )]));
    assert_eq!(changes.len(), 1);
    assert_eq!(ns.get(&mesh, "w:a"), Some(b"2".to_vec()));
}

#[test]
fn text_without_markers_passes_however_it_is_cut() {
    let text = "a < b, <tool> and <tool_cal, [TH and [/THINK too";
    for size in 1..text.len() {
        let mut calls = Step3p5Parser::new();
        let mut reasoning = MistralParser::new();
        let mut passed = String::new();
        let mut answered = String::new();
        let numbers = NumberReader::new(|_: &str| None);
        for chunk in text.as_bytes().chunks(size) {
            let chunk = std::str::from_utf8(chunk).unwrap();
            let result = calls.parse_incremental(chunk, &[], &numbers).unwrap();
            assert!(result.calls.is_empty());
            passed.push_str(&result.normal_text);
            let split = reasoning
                .parse_reasoning_streaming_incremental(chunk)
                .unwrap();
            assert_eq!(split.reasoning_text, "");
            answered.push_str(&split.normal_text);
        }
        assert_eq!(passed, text);
        assert_eq!(answered, text);
    }
}
