//! Messages between nodes.
use bytes::Bytes;
use smg::crdt_kv::engine::any::MergeStrategy;
use smg::crdt_kv::operation::{Operation, OperationLog};
use smg::crdt_kv::replica::{ReplicaId, Version};
use smg::crdt_kv::watermark::CrdtWatermark;
use smg::kv::{MeshKV, RoundBatch};
use smg::transport::chunk_assembler::ChunkAssembler;
use smg::transport::chunking::{
    build_stream_batches, chunk_value, Generations, StreamBatch, StreamEntry,
    MAX_STREAM_CHUNK_BYTES,
};
use smg::transport::crdt_batch::{
    build_crdt_batches, crdt_ack_to_watermark, dispatch_crdt_batch, watermark_to_crdt_ack,
    CrdtBatch,
};
use smg::transport::sync_stream::{
    build_heartbeat, build_peer_stream_batches, dispatch_stream_batch, wrap_crdt_ack,
    wrap_crdt_batch, wrap_stream_batch, StreamMessageType, StreamPayload,
};
use std::sync::Arc;

fn round_batch_with(drain: Vec<(&str, &[u8])>, targeted: Vec<(&str, &str, &[u8])>) -> RoundBatch {
    RoundBatch {
        drain_entries: drain
            .into_iter()
            .map(|(k, v)| (k.to_string(), Bytes::copy_from_slice(v)))
            .collect(),
        targeted_entries: targeted
            .into_iter()
            .map(|(t, k, v)| (t.to_string(), k.to_string(), Bytes::copy_from_slice(v)))
            .collect(),
        crdt_ops: Arc::new(OperationLog::new()),
    }
}

#[test]
fn empty_round_batch_emits_nothing() {
    let rb = round_batch_with(vec![], vec![]);
    assert!(build_peer_stream_batches(&rb, "peer1", &mut Generations::new()).is_empty());
}

#[test]
fn drain_only_is_emitted_to_every_peer() {
    let rb = round_batch_with(vec![("td:abc", b"hello")], vec![]);
    let mut generations = Generations::new();
    let a = build_peer_stream_batches(&rb, "peer1", &mut generations);
    let b = build_peer_stream_batches(&rb, "peer2", &mut generations);
    assert_eq!(a.len(), 1);
    assert_eq!(b.len(), 1);
    assert_eq!(a[0].entries.len(), 1);
    assert_eq!(a[0].entries[0].key, "td:abc");
}

#[test]
fn targeted_entries_filter_by_peer() {
    let rb = round_batch_with(
        vec![],
        vec![
            ("peer1", "tree:req:a", b"req-a".as_slice()),
            ("peer2", "tree:req:b", b"req-b".as_slice()),
        ],
    );
    let a = build_peer_stream_batches(&rb, "peer1", &mut Generations::new());
    assert_eq!(a.len(), 1);
    assert_eq!(a[0].entries.len(), 1);
    assert_eq!(a[0].entries[0].key, "tree:req:a");

    let none = build_peer_stream_batches(&rb, "", &mut Generations::new());
    assert!(none.is_empty());
}

#[test]
fn drain_emitted_even_when_peer_unknown() {
    let rb = round_batch_with(
        vec![("td:abc", b"hello".as_slice())],
        vec![("peer1", "tree:req:a", b"req-a".as_slice())],
    );
    // Empty peer_id -> targeted entries excluded, drain still emitted.
    let batches = build_peer_stream_batches(&rb, "", &mut Generations::new());
    assert_eq!(batches.len(), 1);
    assert_eq!(batches[0].entries.len(), 1);
    assert_eq!(batches[0].entries[0].key, "td:abc");
}

#[test]
fn empty_peer_id_skips_target_with_empty_string() {
    // A targeted entry for the empty string is not for a peer that is unknown.
    let rb = round_batch_with(vec![], vec![("", "tree:req:bad", b"oops".as_slice())]);
    let batches = build_peer_stream_batches(&rb, "", &mut Generations::new());
    assert!(batches.is_empty(), "empty peer_id must skip all targeted");
}

#[test]
fn wrap_stream_batch_envelope_shape() {
    let batch = StreamBatch {
        entries: Vec::new(),
    };
    let msg = wrap_stream_batch(batch, 42, "node-1");
    assert_eq!(msg.message_type, StreamMessageType::StreamBatch);
    assert_eq!(msg.sequence, 42);
    assert_eq!(msg.peer_id, "node-1");
    assert!(matches!(msg.payload, Some(StreamPayload::StreamBatch(_))));
}

#[test]
fn build_heartbeat_envelope_shape() {
    let msg = build_heartbeat(7, "node-2");
    assert_eq!(msg.message_type, StreamMessageType::Heartbeat);
    assert_eq!(msg.sequence, 7);
    assert_eq!(msg.peer_id, "node-2");
    assert!(msg.payload.is_none());
}

#[test]
fn operations_and_acks_are_wrapped_alike() {
    let replica = ReplicaId::from_bits(7);
    let op = Operation::insert("k".to_string(), b"v".to_vec(), 3, replica);
    let msg = wrap_crdt_batch(CrdtBatch { ops: vec![op] }, 1, "n");
    assert_eq!(msg.message_type, StreamMessageType::CrdtBatch);
    assert!(matches!(msg.payload, Some(StreamPayload::CrdtBatch(_))));

    let mut acked = CrdtWatermark::new();
    acked.acknowledge("k", Version::new(3, replica));
    let msg = wrap_crdt_ack(&acked, 2, "n");
    assert_eq!(msg.message_type, StreamMessageType::CrdtAck);
    assert_eq!(msg.sequence, 2);
    let Some(StreamPayload::CrdtAck(ack)) = msg.payload else {
        panic!("expected an acknowledgement");
    };
    assert_eq!(crdt_ack_to_watermark(ack).get("k"), Some((3, replica)));
}

#[test]
fn acks_survive_the_wire() {
    let a = ReplicaId::from_bits(1);
    let b = ReplicaId::from_bits(2);
    let mut acked = CrdtWatermark::new();
    acked.acknowledge("x", Version::new(5, a));
    acked.acknowledge("x", Version::new(4, b));
    acked.acknowledge("y", Version::new(5, a));
    acked.acknowledge("y", Version::new(5, b));
    let back = crdt_ack_to_watermark(watermark_to_crdt_ack(&acked));
    assert_eq!(back.get("x"), Some((5, a)));
    assert_eq!(back.get("y"), Some((5, b)));
    assert_eq!(back.get("z"), None);
    assert!(!back.is_empty());
}

#[test]
fn a_large_value_travels_in_chunks_and_arrives_whole() {
    let value: Vec<u8> = (0..25u8).collect();
    let chunks = chunk_value("td:k".to_string(), 9, Bytes::from(value.clone()), 10);
    assert_eq!(chunks.len(), 3);
    assert_eq!(chunks[2].data.len(), 5);
    assert!(chunks.iter().all(|c| c.total_chunks == 3 && c.generation == 9));

    let mut mesh = MeshKV::new("n".to_string());
    let mut arrived = Vec::new();
    for chunk in chunks.into_iter().rev() {
        arrived.extend(dispatch_stream_batch(&mut mesh, "peer", vec![chunk]));
    }
    assert_eq!(arrived.len(), 1);
    assert_eq!(arrived[0].key, "td:k");
    let whole: Vec<u8> = arrived[0]
        .fragments
        .iter()
        .flat_map(|b| b.iter().copied())
        .collect();
    assert_eq!(whole, value);
}

#[test]
fn chunks_of_another_generation_do_not_mix() {
    let mut assembler = ChunkAssembler::new();
    let data = |s: &str| Bytes::copy_from_slice(s.as_bytes());
    assert!(assembler
        .receive_chunk("p", "k", 1, 0, 2, data("a"))
        .is_none());
    assert!(assembler
        .receive_chunk("p", "k", 2, 1, 2, data("d"))
        .is_none());
    let whole = assembler
        .receive_chunk("p", "k", 2, 0, 2, data("c"))
        .expect("the second generation is complete");
    assert_eq!(whole, vec![data("c"), data("d")]);
}

#[test]
fn chunks_of_other_peers_do_not_mix() {
    let mut assembler = ChunkAssembler::new();
    let data = Bytes::from_static(b"x");
    assert!(assembler
        .receive_chunk("p", "k", 1, 0, 2, data.clone())
        .is_none());
    assert!(assembler
        .receive_chunk("q", "k", 1, 1, 2, data.clone())
        .is_none());
    assembler.drop_pending("p", "k");
    assert!(assembler
        .receive_chunk("p", "k", 1, 1, 2, data.clone())
        .is_none());
    assert!(assembler.receive_chunk("q", "k", 1, 0, 2, data).is_some());
}

#[test]
fn batches_respect_both_limits() {
    let entry = |n: usize| StreamEntry {
        key: "k".to_string(),
        generation: 1,
        chunk_index: 0,
        total_chunks: 1,
        data: Bytes::from(vec![0u8; n]),
    };
    let by_count = build_stream_batches(vec![entry(1), entry(1), entry(1)], 2, 100);
    let sizes: Vec<usize> = by_count.iter().map(|b| b.entries.len()).collect();
    assert_eq!(sizes, vec![2, 1]);
    let by_bytes = build_stream_batches(vec![entry(60), entry(60), entry(30)], 10, 100);
    let sizes: Vec<usize> = by_bytes.iter().map(|b| b.entries.len()).collect();
    assert_eq!(sizes, vec![1, 2]);
}

#[test]
fn a_round_carries_what_was_published() {
    let mut mesh = MeshKV::new("n".to_string());
    mesh.publish("td:a".to_string(), Bytes::from_static(b"1"));
    mesh.publish_to(
        "peer".to_string(),
        "tree:b".to_string(),
        Bytes::from_static(b"2"),
    );
    let round = mesh.collect_round_batch();
    let batches = build_peer_stream_batches(&round, "peer", &mut Generations::new());
    let keys: Vec<&str> = batches
        .iter()
        .flat_map(|b| b.entries.iter().map(|e| e.key.as_str()))
        .collect();
    assert_eq!(keys, vec!["td:a", "tree:b"]);
    // What was handed out is not handed out again.
    let next = mesh.collect_round_batch();
    assert!(build_peer_stream_batches(&next, "peer", &mut Generations::new()).is_empty());
}

#[test]
fn operations_in_batches_converge() {
    let mut sender = MeshKV::new("s".to_string());
    let ns = sender.configure_crdt_prefix("w:", MergeStrategy::LastWriterWins);
    assert_eq!(ns.prefix(), "w:");
    ns.put(&mut sender, "w:a", b"1".to_vec());
    ns.put(&mut sender, "w:b", b"2".to_vec());
    let round = sender.collect_round_batch();
    let batches = build_crdt_batches(round.crdt_ops.operations(), MAX_STREAM_CHUNK_BYTES);
    assert_eq!(batches.len(), 1);

    let mut receiver = MeshKV::new("r".to_string());
    let there = receiver.configure_crdt_prefix("w:", MergeStrategy::LastWriterWins);
    for batch in batches {
        dispatch_crdt_batch(&mut receiver, batch);
    }
    assert_eq!(there.get(&receiver, "w:a"), Some(b"1".to_vec()));
    assert_eq!(there.get(&receiver, "w:b"), Some(b"2".to_vec()));
}
