//! Operations on their way from one node to another.
use smg::crdt_kv::engine::any::MergeStrategy;
use smg::crdt_kv::epoch_max_wins::{
    decode as decode_epoch_count, encode as encode_epoch_count, EpochCount,
};
use smg::crdt_kv::operation::{CrdtChange, Operation};
use smg::crdt_kv::watermark::{unacked, CrdtWatermark};
use smg::kv::MeshKV;
use smg::transport::chunking::MAX_STREAM_CHUNK_BYTES;
use smg::transport::crdt_batch::{build_crdt_batches, dispatch_crdt_batch};
use std::sync::Arc;

/// One round of delivery: the sender's log in batches, each taken in by the
/// receiver. Returns what changed there.
fn deliver_crdt(sender: &mut MeshKV, receiver: &mut MeshKV) -> Vec<CrdtChange> {
    let ops = sender.collect_round_batch().crdt_ops;
    let mut changes = Vec::new();
    for batch in build_crdt_batches(ops.operations(), MAX_STREAM_CHUNK_BYTES) {
        changes.extend(dispatch_crdt_batch(receiver, batch).changes);
    }
    changes
}

/// What the sender would send in this round.
fn pending_ops(sender: &mut MeshKV, acked: &CrdtWatermark) -> Vec<Operation> {
    unacked(sender.collect_round_batch().crdt_ops.operations(), acked)
}

/// One round in which only what is not acknowledged is sent, and what comes back
/// is taken in.
fn deliver_crdt_watermarked(
    sender: &mut MeshKV,
    receiver: &mut MeshKV,
    acked: &mut CrdtWatermark,
) {
    let ops = pending_ops(sender, acked);
    for batch in build_crdt_batches(&ops, MAX_STREAM_CHUNK_BYTES) {
        let receipt = dispatch_crdt_batch(receiver, batch);
        acked.merge_max(&receipt.ack);
    }
}

#[test]
fn remote_crdt_batch_converges_store() {
    let mut sender = MeshKV::new("sender".to_string());
    let s_ns = sender.configure_crdt_prefix("worker:", MergeStrategy::LastWriterWins);
    s_ns.put(&mut sender, "worker:a", b"v1".to_vec());

    let mut receiver = MeshKV::new("receiver".to_string());
    let r_ns = receiver.configure_crdt_prefix("worker:", MergeStrategy::LastWriterWins);
    assert_eq!(r_ns.get(&receiver, "worker:a"), None);

    deliver_crdt(&mut sender, &mut receiver);
    assert_eq!(
        r_ns.get(&receiver, "worker:a"),
        Some(b"v1".to_vec()),
        "CRDT op-log delivered over the wire converges the receiver's store"
    );
}

#[test]
fn remote_merge_fires_subscriber_with_value() {
    let mut sender = MeshKV::new("sender".to_string());
    let s_ns = sender.configure_crdt_prefix("worker:", MergeStrategy::LastWriterWins);
    s_ns.put(&mut sender, "worker:a", b"v1".to_vec());

    let mut receiver = MeshKV::new("receiver".to_string());
    receiver.configure_crdt_prefix("worker:", MergeStrategy::LastWriterWins);

    let changes = deliver_crdt(&mut sender, &mut receiver);

    assert_eq!(changes.len(), 1, "remote merge fires a subscriber event");
    assert_eq!(changes[0].key, "worker:a");
    assert_eq!(changes[0].value, Some(b"v1".to_vec()));
}

#[test]
fn redelivering_same_batch_fires_no_new_event() {
    let mut sender = MeshKV::new("sender".to_string());
    let s_ns = sender.configure_crdt_prefix("worker:", MergeStrategy::LastWriterWins);
    s_ns.put(&mut sender, "worker:a", b"v1".to_vec());

    let mut receiver = MeshKV::new("receiver".to_string());
    receiver.configure_crdt_prefix("worker:", MergeStrategy::LastWriterWins);

    let first = deliver_crdt(&mut sender, &mut receiver);
    assert_eq!(first.len(), 1, "first delivery fires");

    // Merge is idempotent by op-id: re-delivering the same batch changes no
    // live value, so no subscriber event fires.
    let again = deliver_crdt(&mut sender, &mut receiver);
    assert!(
        again.is_empty(),
        "idempotent re-delivery must not fire a subscriber event"
    );
}

#[test]
fn rl_remote_merge_subscriber_sees_canonical_shard() {
    // The sender writes the raw 16-byte (epoch, count) payload; the engine
    // normalises it into a shard. The remote-merge subscriber must see the
    // canonical shard shape (matching `get`), not the raw input.
    let mut sender = MeshKV::new("sender".to_string());
    let s_ns = sender.configure_crdt_prefix("rl:", MergeStrategy::EpochMaxWins);
    s_ns.put(&mut sender, "rl:global:node-a", encode_epoch_count(7, 42).to_vec());

    let mut receiver = MeshKV::new("receiver".to_string());
    let r_ns = receiver.configure_crdt_prefix("rl:", MergeStrategy::EpochMaxWins);

    let changes = deliver_crdt(&mut sender, &mut receiver);

    assert_eq!(changes.len(), 1, "rl remote merge fires a subscriber event");
    assert_eq!(changes[0].key, "rl:global:node-a");
    let bytes = changes[0].value.clone().expect("insert delivers a value");
    assert_ne!(
        bytes.len(),
        encode_epoch_count(7, 42).len(),
        "subscriber sees the encoded shard, not the raw 16-byte payload"
    );
    assert_eq!(
        decode_epoch_count(&bytes),
        Some(EpochCount {
            epoch: 7,
            count: 42
        })
    );
    assert_eq!(
        r_ns.get(&receiver, "rl:global:node-a"),
        Some(bytes),
        "remote-merge notification shape matches get()"
    );
}

#[test]
fn remote_tombstone_after_insert_notifies_none() {
    let mut sender = MeshKV::new("sender".to_string());
    let s_ns = sender.configure_crdt_prefix("worker:", MergeStrategy::LastWriterWins);
    s_ns.put(&mut sender, "worker:a", b"v1".to_vec());

    let mut receiver = MeshKV::new("receiver".to_string());
    let r_ns = receiver.configure_crdt_prefix("worker:", MergeStrategy::LastWriterWins);

    let inserted = deliver_crdt(&mut sender, &mut receiver);
    assert_eq!(inserted.len(), 1, "insert fires");
    assert!(inserted[0].value.is_some());

    // Delete on the sender; the tombstone propagates and the receiver fires a
    // `None` event as worker:a transitions live -> tombstoned.
    s_ns.delete(&mut sender, "worker:a");
    let removed = deliver_crdt(&mut sender, &mut receiver);

    assert_eq!(removed.len(), 1, "tombstone fires");
    assert_eq!(removed[0].key, "worker:a");
    assert!(removed[0].value.is_none(), "tombstone notifies None");
    assert_eq!(r_ns.get(&receiver, "worker:a"), None);
}

#[test]
fn round_batch_snapshot_is_shared_until_write() {
    // Idle rounds must not deep-clone the op log: the same Arc is served
    // until some engine's log mutates.
    let mut mesh = MeshKV::new("node-a".to_string());
    let ns = mesh.configure_crdt_prefix("worker:", MergeStrategy::LastWriterWins);
    ns.put(&mut mesh, "worker:a", b"v1".to_vec());

    let first = mesh.collect_round_batch().crdt_ops;
    let second = mesh.collect_round_batch().crdt_ops;
    assert!(
        Arc::ptr_eq(&first, &second),
        "no writes between rounds: the snapshot Arc is reused"
    );

    ns.put(&mut mesh, "worker:b", b"v2".to_vec());
    let third = mesh.collect_round_batch().crdt_ops;
    assert!(
        !Arc::ptr_eq(&second, &third),
        "a write invalidates the cached snapshot"
    );
    assert!(third.operations().iter().any(|op| op.key() == "worker:b"));
}

#[test]
fn relayed_rl_merge_invalidates_round_batch_snapshot() {
    // A relay node with no local writes must still re-gossip remotely merged
    // rl ops: the remote merge bumps op_generation, invalidating the cached
    // snapshot so the next round's batch carries the learned ops.
    let mut sender = MeshKV::new("sender".to_string());
    let s_ns = sender.configure_crdt_prefix("rl:", MergeStrategy::EpochMaxWins);

    let mut relay = MeshKV::new("relay".to_string());
    relay.configure_crdt_prefix("rl:", MergeStrategy::EpochMaxWins);

    let before = relay.collect_round_batch().crdt_ops;
    s_ns.put(&mut sender, "rl:global:node-a", encode_epoch_count(1, 5).to_vec());
    deliver_crdt(&mut sender, &mut relay);

    let after = relay.collect_round_batch().crdt_ops;
    assert!(
        !Arc::ptr_eq(&before, &after),
        "a remote rl merge invalidates the cached snapshot"
    );
    assert!(
        after
            .operations()
            .iter()
            .any(|op| op.key() == "rl:global:node-a"),
        "the relay's outgoing batch carries the merged rl op"
    );
}

#[test]
fn op_log_stays_bounded_by_live_keys() {
    // After 500 updates to one key the log holds few operations: it is folded
    // as it grows, so its size tracks live keys, not write count.
    let mut mesh = MeshKV::new("node-a".to_string());
    let ns = mesh.configure_crdt_prefix("worker:", MergeStrategy::LastWriterWins);
    for i in 0..500u32 {
        ns.put(&mut mesh, "worker:hot", i.to_be_bytes().to_vec());
    }
    let ops = mesh.collect_round_batch().crdt_ops;
    assert!(
        ops.operations().len() <= 65,
        "log must stay bounded by live keys, got {}",
        ops.operations().len()
    );
    assert_eq!(
        ns.get(&mesh, "worker:hot"),
        Some(499u32.to_be_bytes().to_vec()),
        "compaction keeps the latest value"
    );
}

#[test]
fn gc_tombstones_respects_grace_through_mesh_kv() {
    // The controller drives this periodically; a fresh tombstone must
    // survive the grace period (engine-level reclamation is covered by
    // the crdt_kv tests).
    let mut mesh = MeshKV::new("node-a".into());
    let ns = mesh.configure_crdt_prefix("worker:", MergeStrategy::LastWriterWins);
    ns.put(&mut mesh, "worker:a", b"v".to_vec());
    ns.delete(&mut mesh, "worker:a");
    assert_eq!(
        mesh.gc_tombstones(),
        0,
        "a fresh tombstone survives the grace period"
    );
}

#[test]
fn caught_up_peer_is_sent_nothing() {
    let mut sender = MeshKV::new("sender".to_string());
    let s_ns = sender.configure_crdt_prefix("worker:", MergeStrategy::LastWriterWins);
    s_ns.put(&mut sender, "worker:a", b"v1".to_vec());

    let mut receiver = MeshKV::new("receiver".to_string());
    receiver.configure_crdt_prefix("worker:", MergeStrategy::LastWriterWins);

    let mut acked = CrdtWatermark::new();
    deliver_crdt_watermarked(&mut sender, &mut receiver, &mut acked);

    assert!(
        pending_ops(&mut sender, &acked).is_empty(),
        "once acked, a caught-up peer is sent nothing"
    );
}

#[test]
fn ack_advances_watermark_to_delivered_version() {
    let mut sender = MeshKV::new("sender".to_string());
    let s_ns = sender.configure_crdt_prefix("worker:", MergeStrategy::LastWriterWins);
    s_ns.put(&mut sender, "worker:a", b"v1".to_vec());

    let mut receiver = MeshKV::new("receiver".to_string());
    receiver.configure_crdt_prefix("worker:", MergeStrategy::LastWriterWins);

    let sent_op_id = pending_ops(&mut sender, &CrdtWatermark::new())
        .iter()
        .find(|op| op.key() == "worker:a")
        .map(|op| (op.timestamp(), op.replica_id()))
        .expect("worker:a is pending before any ack");

    let mut acked = CrdtWatermark::new();
    assert_eq!(acked.get("worker:a"), None);
    deliver_crdt_watermarked(&mut sender, &mut receiver, &mut acked);
    assert_eq!(
        acked.get("worker:a"),
        Some(sent_op_id),
        "ack advances the watermark to the delivered op-id"
    );
}

#[test]
fn lost_ack_resends_key_until_acked() {
    let mut sender = MeshKV::new("sender".to_string());
    let s_ns = sender.configure_crdt_prefix("worker:", MergeStrategy::LastWriterWins);
    s_ns.put(&mut sender, "worker:a", b"v1".to_vec());

    let mut receiver = MeshKV::new("receiver".to_string());
    let r_ns = receiver.configure_crdt_prefix("worker:", MergeStrategy::LastWriterWins);

    // Round 1: the batch is delivered and merged, but the ack is lost — the
    // sender does NOT advance its watermark.
    let mut acked = CrdtWatermark::new();
    for batch in build_crdt_batches(&pending_ops(&mut sender, &acked), MAX_STREAM_CHUNK_BYTES) {
        let _lost_ack = dispatch_crdt_batch(&mut receiver, batch);
    }
    assert_eq!(
        r_ns.get(&receiver, "worker:a"),
        Some(b"v1".to_vec()),
        "the batch merged even though its ack was lost"
    );

    // Round 2: with no ack, the key is still pending and gets resent.
    assert!(
        !pending_ops(&mut sender, &acked).is_empty(),
        "a lost ack leaves the key pending, so it is resent"
    );

    // Once an ack lands, the watermark advances and the key is suppressed.
    deliver_crdt_watermarked(&mut sender, &mut receiver, &mut acked);
    assert!(
        pending_ops(&mut sender, &acked).is_empty(),
        "the key stops resending once acked"
    );
}

#[test]
fn dropping_one_keys_batch_does_not_strand_it() {
    // With a per-replica watermark, acking one key
    // could advance past a lower-versioned op of the same author on a DIFFERENT
    // key and strand it forever. Per-key tracking resends only the dropped key.
    let mut sender = MeshKV::new("sender".to_string());
    let s_ns = sender.configure_crdt_prefix("worker:", MergeStrategy::LastWriterWins);
    s_ns.put(&mut sender, "worker:a", vec![0u8; 200]);
    s_ns.put(&mut sender, "worker:b", vec![1u8; 200]);

    let mut receiver = MeshKV::new("receiver".to_string());
    let r_ns = receiver.configure_crdt_prefix("worker:", MergeStrategy::LastWriterWins);

    let mut acked = CrdtWatermark::new();
    // A budget that fits one ~200-byte op per frame forces two separate batches.
    let batches = build_crdt_batches(&pending_ops(&mut sender, &acked), 300);
    assert!(
        batches.len() >= 2,
        "two large keys must split into separate batches"
    );

    // Deliver + ack only the first batch; the rest are "dropped on backpressure".
    let first = batches.into_iter().next().unwrap();
    let receipt = dispatch_crdt_batch(&mut receiver, first);
    acked.merge_max(&receipt.ack);
    let delivered = [r_ns.get(&receiver, "worker:a"), r_ns.get(&receiver, "worker:b")]
        .iter()
        .filter(|v| v.is_some())
        .count();
    assert_eq!(
        delivered, 1,
        "exactly one key delivered; the other was dropped"
    );

    // The dropped key was never acked, so the next round resends it (and the
    // delivered key, now acked, is suppressed). Both converge.
    deliver_crdt_watermarked(&mut sender, &mut receiver, &mut acked);
    assert_eq!(r_ns.get(&receiver, "worker:a"), Some(vec![0u8; 200]));
    assert_eq!(r_ns.get(&receiver, "worker:b"), Some(vec![1u8; 200]));
}

#[test]
fn filter_is_per_key_selective() {
    let mut sender = MeshKV::new("sender".to_string());
    let s_ns = sender.configure_crdt_prefix("worker:", MergeStrategy::LastWriterWins);
    s_ns.put(&mut sender, "worker:a", b"a".to_vec());

    let mut receiver = MeshKV::new("receiver".to_string());
    let r_ns = receiver.configure_crdt_prefix("worker:", MergeStrategy::LastWriterWins);

    let mut acked = CrdtWatermark::new();
    deliver_crdt_watermarked(&mut sender, &mut receiver, &mut acked);

    // A new key is added after worker:a is acked; only the new key is sent.
    s_ns.put(&mut sender, "worker:b", b"b".to_vec());
    let pending = pending_ops(&mut sender, &acked);
    assert_eq!(pending.len(), 1, "only the unacked key is sent");
    assert_eq!(pending[0].key(), "worker:b");

    deliver_crdt_watermarked(&mut sender, &mut receiver, &mut acked);
    assert_eq!(r_ns.get(&receiver, "worker:a"), Some(b"a".to_vec()));
    assert_eq!(r_ns.get(&receiver, "worker:b"), Some(b"b".to_vec()));
}
