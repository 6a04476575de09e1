//! Membership and the stream between two nodes.
use bytes::Bytes;
use smg::crdt_kv::engine::any::MergeStrategy;
use smg::crdt_kv::operation::{Operation, OperationLog};
use smg::crdt_kv::replica::{ReplicaId, Version};
use smg::crdt_kv::watermark::CrdtWatermark;
use smg::gossip_service::{
    plan_sender_tick, plan_tick, ClusterState, GossipMessage, GossipPayload, GossipService,
    InboundAction, InboundStream, NodeState, OutboundSender, PingDecision, SenderTick,
};
use smg::kv::{MeshKV, RoundBatch};
use smg::transport::chunking::{Generations, StreamBatch};
use smg::transport::crdt_batch::{dispatch_crdt_batch, CrdtBatch};
use smg::transport::sync_stream::{
    build_heartbeat, wrap_crdt_ack, wrap_crdt_batch, wrap_stream_batch, StreamMessage,
    StreamMessageType, StreamPayload,
};
use std::sync::Arc;

fn round_batch_with(
    drain: Vec<(&str, &[u8])>,
    targeted: Vec<(&str, &str, &[u8])>,
) -> Arc<RoundBatch> {
    Arc::new(RoundBatch {
        drain_entries: drain
            .into_iter()
            .map(|(k, v)| (k.to_string(), Bytes::copy_from_slice(v)))
            .collect(),
        targeted_entries: targeted
            .into_iter()
            .map(|(t, k, v)| (t.to_string(), k.to_string(), Bytes::copy_from_slice(v)))
            .collect(),
        crdt_ops: Arc::new(OperationLog::new()),
    })
}

fn batch_keys(batches: &[StreamBatch]) -> Vec<String> {
    batches
        .iter()
        .flat_map(|b| b.entries.iter().map(|e| e.key.clone()))
        .collect()
}

#[test]
fn skips_when_peer_unknown_and_keeps_watermark_unchanged() {
    let rb = round_batch_with(
        vec![("td:foo", b"d")],
        vec![("peer_X", "tree:req:abc", b"r")],
    );
    let decision = plan_sender_tick(None, &rb, None, &mut Generations::new());
    assert!(matches!(decision, SenderTick::SkipPeerUnknown));
}

#[test]
fn skips_when_peer_is_empty_string() {
    // An empty name is not a name.
    let rb = round_batch_with(vec![], vec![("", "tree:req:weird", b"r")]);
    let decision = plan_sender_tick(None, &rb, Some(""), &mut Generations::new());
    assert!(matches!(decision, SenderTick::SkipPeerUnknown));
}

#[test]
fn emits_drain_and_targeted_once_peer_is_known() {
    let rb = round_batch_with(
        vec![("td:foo", b"d")],
        vec![("peer_X", "tree:req:abc", b"r")],
    );
    let pre = plan_sender_tick(None, &rb, None, &mut Generations::new());
    assert!(matches!(pre, SenderTick::SkipPeerUnknown));

    // The round counts as not sent, so the next tick sends it.
    let post = plan_sender_tick(None, &rb, Some("peer_X"), &mut Generations::new());
    let SenderTick::Emit(batches) = post else {
        panic!("expected Emit after peer learned, got {post:?}");
    };
    let keys = batch_keys(&batches);
    assert!(keys.contains(&"td:foo".to_string()), "drain entry emitted");
    assert!(
        keys.contains(&"tree:req:abc".to_string()),
        "targeted entry for peer_X emitted"
    );
}

#[test]
fn does_not_resend_same_arc_after_consume() {
    let rb = round_batch_with(vec![("td:foo", b"d")], vec![]);
    let decision = plan_sender_tick(Some(&rb), &rb, Some("peer_X"), &mut Generations::new());
    assert!(matches!(decision, SenderTick::SkipBatchUnchanged));
}

#[test]
fn emits_only_targeted_entries_for_learned_peer() {
    let rb = round_batch_with(
        vec![("td:bcast", b"b")],
        vec![
            ("peer_X", "tree:req:x", b"x"),
            ("peer_Y", "tree:req:y", b"y"),
        ],
    );
    let SenderTick::Emit(batches) =
        plan_sender_tick(None, &rb, Some("peer_X"), &mut Generations::new())
    else {
        panic!("expected Emit");
    };
    let keys = batch_keys(&batches);
    assert!(keys.contains(&"td:bcast".to_string()));
    assert!(keys.contains(&"tree:req:x".to_string()));
    assert!(
        !keys.contains(&"tree:req:y".to_string()),
        "must not include entries addressed to other peers"
    );
}

#[test]
fn drain_only_batch_still_emits_when_peer_learned() {
    let rb = round_batch_with(vec![("td:foo", b"d"), ("td:bar", b"d")], vec![]);
    let SenderTick::Emit(batches) =
        plan_sender_tick(None, &rb, Some("peer_X"), &mut Generations::new())
    else {
        panic!("expected Emit for drain-only batch");
    };
    let keys = batch_keys(&batches);
    assert!(keys.contains(&"td:foo".to_string()));
    assert!(keys.contains(&"td:bar".to_string()));
}

#[test]
fn an_equal_round_at_another_place_is_sent() {
    let a = round_batch_with(vec![("td:foo", b"d")], vec![]);
    let b = round_batch_with(vec![("td:foo", b"d")], vec![]);
    let mut generations = Generations::new();
    let decision = plan_sender_tick(Some(&a), &b, Some("peer_X"), &mut generations);
    assert!(matches!(decision, SenderTick::Emit(_)));
    assert!(matches!(
        plan_tick(false, &b, Some("peer_X"), &mut generations),
        SenderTick::SkipBatchUnchanged
    ));
}

// ---- Membership ----

const ALIVE: i32 = 1;
const SUSPECTED: i32 = 2;
const DOWN: i32 = 3;
const LEAVING: i32 = 4;

fn node(name: &str, version: u64, status: i32) -> NodeState {
    NodeState {
        name: name.to_string(),
        address: format!("{name}:1"),
        status,
        version,
    }
}

fn service() -> GossipService {
    GossipService::new(ClusterState::new(), "10.0.0.1:9".to_string(), "me", ALIVE)
}

#[test]
fn newer_states_replace_older_ones() {
    let mut s = service();
    assert!(s.merge_state(vec![
        node("a", 2, ALIVE),
        node("b", 1, ALIVE)
    ]));
    assert!(!s.merge_state(vec![
        node("a", 2, DOWN),
        node("b", 0, DOWN)
    ]));
    assert!(s.merge_state(vec![node("a", 3, SUSPECTED)]));
    assert!(!s.merge_state(vec![node("a", 3, SUSPECTED)]));
    assert!(!s.merge_state(Vec::new()));
}

#[test]
fn a_cluster_keeps_what_is_newest() {
    let mut c = ClusterState::new();
    assert_eq!(c.len(), 0);
    assert!(c.hear(node("a", 1, ALIVE)));
    assert!(!c.hear(node("a", 1, DOWN)));
    assert_eq!(c.status_of("a"), Some(ALIVE));
    assert!(c.hear(node("a", 5, LEAVING)));
    assert_eq!(c.status_of("a"), Some(LEAVING));
    // A status of which nothing is known is kept as it is.
    assert!(c.hear(node("a", 6, -17)));
    assert_eq!(c.status_of("a"), Some(-17));
    assert_eq!(c.status_of("b"), None);
    assert_eq!(c.len(), 1);
}

#[test]
fn a_ping_is_answered_with_the_own_state() {
    let mut s = service();
    let ping = |nodes| GossipMessage {
        payload: Some(GossipPayload::Ping { state_sync: nodes }),
    };
    let PingDecision::Reply(update) = s.ping_server(ping(None)) else {
        panic!("a ping is answered");
    };
    assert_eq!(update.name, "me");
    assert_eq!(update.address, "10.0.0.1:9");
    assert_eq!(update.status, ALIVE);

    // What came along is taken in before the answer.
    let synced = s.ping_server(ping(Some(vec![node("me", 7, LEAVING)])));
    let PingDecision::Reply(update) = synced else {
        panic!("a ping is answered");
    };
    assert_eq!(update.status, LEAVING);
}

#[test]
fn a_ping_request_is_forwarded_and_others_are_refused() {
    let mut s = service();
    let request = |node| GossipMessage {
        payload: Some(GossipPayload::PingReq { node }),
    };
    let forwarded = s.ping_server(request(Some(node("b", 1, ALIVE))));
    assert!(matches!(forwarded, PingDecision::Forward(n) if n.name == "b"));
    assert!(matches!(
        s.ping_server(request(None)),
        PingDecision::InvalidPayload
    ));
    assert!(matches!(
        s.ping_server(GossipMessage { payload: None }),
        PingDecision::InvalidPayload
    ));
}

// ---- Inbound ----

fn message(
    message_type: StreamMessageType,
    payload: Option<StreamPayload>,
    peer: &str,
) -> StreamMessage {
    StreamMessage {
        message_type,
        payload,
        sequence: 1,
        peer_id: peer.to_string(),
    }
}

#[test]
fn a_peer_is_bound_to_its_first_name() {
    let mut s = InboundStream::new();
    assert_eq!(s.learned_peer(), None);
    assert!(matches!(
        s.on_message(build_heartbeat(1, ""), "me"),
        InboundAction::Heartbeat(_)
    ));
    assert_eq!(s.learned_peer(), None);
    assert!(matches!(
        s.on_message(build_heartbeat(2, "p"), "me"),
        InboundAction::Heartbeat(_)
    ));
    assert_eq!(s.learned_peer(), Some("p"));
    assert!(matches!(
        s.on_message(build_heartbeat(9, "q"), "me"),
        InboundAction::Close
    ));
    assert!(matches!(
        s.on_message(build_heartbeat(9, ""), "me"),
        InboundAction::Close
    ));
    // A message that closes the stream has no other effect, and the stream stays
    // closed, also to the name it was bound to.
    assert!(s.is_closed());
    assert_eq!(s.learned_peer(), Some("p"));
    assert!(matches!(
        s.on_message(build_heartbeat(10, "p"), "me"),
        InboundAction::Close
    ));
}

#[test]
fn a_sign_of_life_is_answered() {
    let mut s = InboundStream::new();
    assert!(matches!(
        s.on_message(build_heartbeat(2, "p"), "me"),
        InboundAction::Heartbeat(_)
    ));
    assert!(!s.is_closed());
    // The answer carries the highest number so far.
    let InboundAction::Heartbeat(reply) = s.on_message(build_heartbeat(1, "p"), "me") else {
        panic!("a sign of life is answered");
    };
    assert_eq!(reply.sequence, 2);
    assert_eq!(reply.peer_id, "me");
    assert_eq!(reply.message_type, StreamMessageType::Heartbeat);
}

#[test]
fn messages_are_told_apart_by_their_type() {
    let mut s = InboundStream::new();
    assert!(matches!(
        s.on_message(
            message(
                StreamMessageType::Ack,
                Some(StreamPayload::Ack(false)),
                "p"
            ),
            "me"
        ),
        InboundAction::RecordAck(false)
    ));
    assert!(matches!(
        s.on_message(message(StreamMessageType::Ack, None, "p"), "me"),
        InboundAction::Nothing
    ));
    assert!(matches!(
        s.on_message(message(StreamMessageType::Nack, None, "p"), "me"),
        InboundAction::RecordNack
    ));
    let batch = StreamBatch {
        entries: Vec::new(),
    };
    assert!(matches!(
        s.on_message(wrap_stream_batch(batch, 3, "p"), "me"),
        InboundAction::Deliver(peer, _) if peer == "p"
    ));
    assert!(matches!(
        s.on_message(wrap_crdt_batch(CrdtBatch { ops: Vec::new() }, 4, "p"), "me"),
        InboundAction::Merge(_)
    ));
    assert!(matches!(
        s.on_message(message(StreamMessageType::StreamBatch, None, "p"), "me"),
        InboundAction::Nothing
    ));
    assert!(matches!(
        s.on_message(message(StreamMessageType::SnapshotRequest, None, "p"), "me"),
        InboundAction::Nothing
    ));
}

#[test]
fn acknowledgements_are_kept_and_sent() {
    let replica = ReplicaId::from_bits(3);
    let mut acked = CrdtWatermark::new();
    acked.acknowledge("w:a", Version::new(5, replica));
    let mut s = InboundStream::new();
    assert!(s.acked().is_empty());
    assert!(matches!(
        s.on_message(wrap_crdt_ack(&acked, 1, "p"), "me"),
        InboundAction::Nothing
    ));
    assert_eq!(s.acked().get("w:a"), Some((5, replica)));

    let mut mesh = MeshKV::new("me".to_string());
    mesh.configure_crdt_prefix("w:", MergeStrategy::LastWriterWins);
    let op = Operation::insert("w:b".to_string(), b"v".to_vec(), 8, replica);
    let receipt = dispatch_crdt_batch(&mut mesh, CrdtBatch { ops: vec![op] });
    let reply = s.ack_reply(&receipt, "me").expect("there is something to say");
    assert_eq!(reply.message_type, StreamMessageType::CrdtAck);
    assert_eq!(reply.sequence, 1);
    let none = dispatch_crdt_batch(&mut mesh, CrdtBatch { ops: Vec::new() });
    assert!(s.ack_reply(&none, "me").is_none());
}

// ---- Outbound ----

#[test]
fn a_round_is_sent_once_and_operations_until_they_are_acknowledged() {
    let mut mesh = MeshKV::new("me".to_string());
    let ns = mesh.configure_crdt_prefix("w:", MergeStrategy::LastWriterWins);
    ns.put(&mut mesh, "w:a", b"1".to_vec());
    mesh.publish("td:x".to_string(), Bytes::from_static(b"2"));
    let round = Arc::new(mesh.collect_round_batch());
    let mut generations = Generations::new();
    let mut sender = OutboundSender::new();
    let mut acked = CrdtWatermark::new();

    // The peer is not known: only operations go out.
    sender.begin_tick(&round, None, &acked, &mut generations);
    let first = sender.next_message("me").unwrap();
    assert_eq!(first.message_type, StreamMessageType::CrdtBatch);
    assert_eq!(first.sequence, 1);
    assert!(sender.next_message("me").is_none());

    // The peer is known: values first, then operations.
    sender.begin_tick(&round, Some("p"), &acked, &mut generations);
    let values = sender.next_message("me").unwrap();
    assert_eq!(values.message_type, StreamMessageType::StreamBatch);
    assert_eq!(values.sequence, 2);
    let ops = sender.next_message("me").unwrap();
    assert_eq!(ops.message_type, StreamMessageType::CrdtBatch);
    assert_eq!(ops.sequence, 3);
    assert_eq!(ops.peer_id, "me");
    assert!(sender.next_message("me").is_none());

    // The round has been sent, and the operations are acknowledged.
    let version = round.crdt_ops.operations()[0].version();
    acked.acknowledge("w:a", version);
    sender.begin_tick(&round, Some("p"), &acked, &mut generations);
    assert!(sender.next_message("me").is_none());
}

#[test]
fn a_full_channel_drops_the_rest_of_one_kind() {
    let mut mesh = MeshKV::new("me".to_string());
    let ns = mesh.configure_crdt_prefix("w:", MergeStrategy::LastWriterWins);
    ns.put(&mut mesh, "w:a", b"1".to_vec());
    for i in 0..65 {
        mesh.publish(format!("td:{i}"), Bytes::from_static(b"2"));
    }
    let round = Arc::new(mesh.collect_round_batch());
    let mut sender = OutboundSender::new();
    sender.begin_tick(
        &round,
        Some("p"),
        &CrdtWatermark::new(),
        &mut Generations::new(),
    );
    let first = sender.next_message("me").unwrap();
    assert_eq!(first.message_type, StreamMessageType::StreamBatch);
    sender.channel_full();
    let next = sender.next_message("me").unwrap();
    assert_eq!(next.message_type, StreamMessageType::CrdtBatch);
    assert_eq!(next.sequence, 2);
    sender.channel_full();
    assert!(sender.next_message("me").is_none());
}
