//! What a node does with what its peers send: pings, and both directions of the
//! stream between two nodes.
use crate::crdt_kv::crdt::share;
use crate::crdt_kv::kv_store::lookup;
use crate::crdt_kv::operation::OpView;
use crate::crdt_kv::replica::Version;
use crate::crdt_kv::watermark::{
    acks_listed, lists_acks, merged_acks, pending_ops, unacked, CrdtWatermark,
};
use crate::key_table::KeyTable;
use crate::kv::RoundBatch;
use crate::text::str_eq;
use crate::transport::chunking::{
    batches_view, entry_size, next_number, EntryView, Generations, StreamBatch,
    DEFAULT_MAX_CHUNKS_PER_BATCH, MAX_STREAM_CHUNK_BYTES,
};
use crate::transport::crdt_batch::{
    build_crdt_batches, crdt_ack_to_watermark, crdt_batches_view, op_size, CrdtBatch, CrdtReceipt,
};
use crate::transport::packing::packed;
use crate::transport::sync_stream::{
    build_heartbeat, build_peer_stream_batches, chunks_of, number_after, values_for, wrap_crdt_ack,
    wrap_crdt_batch, wrap_stream_batch, StreamMessage, StreamMessageType, StreamPayload,
};
use std::sync::Arc;
use vstd::prelude::*;

verus! {

// ---- Membership ----

/// What is known of a node. Its status is kept as the number that was heard,
/// whatever it stands for.
#[derive(Debug)]
pub struct NodeState {
    pub name: String,
    pub address: String,
    pub status: i32,
    pub version: u64,
}

/// What a node state says.
#[verifier::ext_equal]
pub struct NodeView {
    pub name: Seq<char>,
    pub address: Seq<char>,
    pub status: i32,
    pub version: u64,
}

impl View for NodeState {
    type V = NodeView;

    open spec fn view(&self) -> NodeView {
        NodeView {
            name: self.name@,
            address: self.address@,
            status: self.status,
            version: self.version,
        }
    }
}

/// What node states say.
pub open spec fn nodes_view(nodes: Seq<NodeState>) -> Seq<NodeView> {
    nodes.map_values(|n: NodeState| n@)
}

/// The cluster after a node was heard of. What is known is replaced by what is
/// newer.
pub open spec fn cluster_with(cluster: Map<Seq<char>, NodeView>, node: NodeView) -> Map<
    Seq<char>,
    NodeView,
> {
    match lookup(cluster, node.name) {
        Some(known) => if node.version > known.version {
            cluster.insert(node.name, node)
        } else {
            cluster
        },
        None => cluster.insert(node.name, node),
    }
}

/// The cluster after nodes were heard of one after another.
pub open spec fn cluster_with_all(
    cluster: Map<Seq<char>, NodeView>,
    nodes: Seq<NodeView>,
) -> Map<Seq<char>, NodeView>
    decreases nodes.len(),
{
    if nodes.len() == 0 {
        cluster
    } else {
        cluster_with(cluster_with_all(cluster, nodes.drop_last()), nodes.last())
    }
}

/// No node is known by an older version, and none is forgotten.
pub open spec fn no_older(a: Map<Seq<char>, NodeView>, b: Map<Seq<char>, NodeView>) -> bool {
    forall|k: Seq<char>| #[trigger]
        a.contains_key(k) ==> b.contains_key(k) && a[k].version <= b[k].version
}

/// Knowledge of nodes only moves forward: no version goes back, every node that
/// was heard of is known at least by that version, and where a version did not
/// move, nothing else did.
pub proof fn law_cluster_moves_forward(cluster: Map<Seq<char>, NodeView>, nodes: Seq<NodeView>)
    ensures
        no_older(cluster, cluster_with_all(cluster, nodes)),
        forall|i: int|
            0 <= i < nodes.len() ==> cluster_with_all(cluster, nodes).contains_key(
                (#[trigger] nodes[i]).name,
            ) && cluster_with_all(cluster, nodes)[nodes[i].name].version >= nodes[i].version,
        forall|k: Seq<char>| #[trigger]
            cluster.contains_key(k) && cluster_with_all(cluster, nodes)[k].version
                == cluster[k].version ==> cluster_with_all(cluster, nodes)[k] == cluster[k],
    decreases nodes.len(),
{
    if nodes.len() > 0 {
        let init = nodes.drop_last();
        law_cluster_moves_forward(cluster, init);
        let mid = cluster_with_all(cluster, init);
        let after = cluster_with_all(cluster, nodes);
        assert forall|i: int| 0 <= i < nodes.len() implies after.contains_key(
            (#[trigger] nodes[i]).name,
        ) && after[nodes[i].name].version >= nodes[i].version by {
            if i < init.len() {
                assert(init[i] == nodes[i]);
                assert(mid.contains_key(init[i].name));
            }
        }
        assert forall|k: Seq<char>| #[trigger]
            cluster.contains_key(k) && after[k].version == cluster[k].version implies after[k]
            == cluster[k] by {
            assert(mid.contains_key(k));
        }
    }
}

/// Hearing the same again changes nothing.
pub proof fn law_cluster_merge_idempotent(
    cluster: Map<Seq<char>, NodeView>,
    nodes: Seq<NodeView>,
)
    ensures
        cluster_with_all(cluster_with_all(cluster, nodes), nodes) == cluster_with_all(
            cluster,
            nodes,
        ),
{
    law_cluster_moves_forward(cluster, nodes);
    lemma_nothing_new(cluster_with_all(cluster, nodes), nodes);
}

proof fn lemma_nothing_new(cluster: Map<Seq<char>, NodeView>, nodes: Seq<NodeView>)
    requires
        forall|i: int|
            0 <= i < nodes.len() ==> cluster.contains_key((#[trigger] nodes[i]).name)
                && cluster[nodes[i].name].version >= nodes[i].version,
    ensures
        cluster_with_all(cluster, nodes) == cluster,
    decreases nodes.len(),
{
    if nodes.len() > 0 {
        let init = nodes.drop_last();
        assert forall|i: int| 0 <= i < init.len() implies cluster.contains_key(
            (#[trigger] init[i]).name,
        ) && cluster[init[i].name].version >= init[i].version by {
            assert(init[i] == nodes[i]);
        }
        lemma_nothing_new(cluster, init);
        assert(cluster.contains_key(nodes[nodes.len() - 1].name));
    }
}

/// What is known of the cluster.
pub struct ClusterState {
    nodes: KeyTable<NodeState>,
}

impl View for ClusterState {
    type V = Map<Seq<char>, NodeView>;

    closed spec fn view(&self) -> Map<Seq<char>, NodeView> {
        self.nodes@.map_values(|n: NodeState| n@)
    }
}

impl ClusterState {
    /// The underlying table is sound.
    pub closed spec fn wf(&self) -> bool {
        self.nodes.wf()
    }

    /// Nothing is known.
    pub fn new() -> (r: Self)
        ensures
            r.wf(),
            r@ == (Map::<Seq<char>, NodeView>::empty()),
    {
        let r = ClusterState { nodes: KeyTable::new() };
        assert(r@ =~= Map::<Seq<char>, NodeView>::empty());
        r
    }

    /// How many nodes are known.
    pub fn len(&self) -> (r: usize)
        requires
            self.wf(),
        ensures
            r == self@.dom().len(),
    {
        assert(self@.dom() =~= self.nodes@.dom());
        self.nodes.len()
    }

    /// How a node is doing, as far as is known.
    pub fn status_of(&self, name: &str) -> (r: Option<i32>)
        requires
            self.wf(),
        ensures
            r == (match lookup(self@, name@) {
                Some(n) => Some(n.status),
                None => None,
            }),
    {
        match self.nodes.get(name) {
            Some(n) => Some(n.status),
            None => None,
        }
    }

    /// A node was heard of. Returns whether that was news.
    pub fn hear(&mut self, node: NodeState) -> (r: bool)
        requires
            old(self).wf(),
        ensures
            final(self).wf(),
            final(self)@ == cluster_with(old(self)@, node@),
            r == (final(self)@ != old(self)@),
    {
        let ghost before = self@;
        let ghost view = node@;
        let newer = match self.nodes.get(node.name.as_str()) {
            Some(known) => node.version > known.version,
            None => true,
        };
        if newer {
            let name = node.name.clone();
            self.nodes.insert(name, node);
            proof {
                assert(self@ =~= before.insert(view.name, view));
                assert(self@[view.name] == view);
                assert(self@.contains_key(view.name));
            }
        } else {
            assert(self@ =~= before);
        }
        newer
    }
}

/// Whom to answer with.
#[derive(Debug)]
pub struct NodeUpdate {
    pub name: String,
    pub address: String,
    pub status: i32,
}

/// A ping, or a request to ping someone else.
#[derive(Debug)]
pub enum GossipPayload {
    /// A ping, with what the sender knows of the cluster.
    Ping { state_sync: Option<Vec<NodeState>> },
    /// A request to ping another node.
    PingReq { node: Option<NodeState> },
}

/// A message of the membership channel.
#[derive(Debug)]
pub struct GossipMessage {
    pub payload: Option<GossipPayload>,
}

/// What to do about a message of the membership channel.
#[derive(Debug)]
pub enum PingDecision {
    /// Answer with the state of this node.
    Reply(NodeUpdate),
    /// Ping that node, and answer with what it says.
    Forward(NodeState),
    /// Refuse: the message carries nothing that can be answered.
    InvalidPayload,
}

/// The membership side of a node.
pub struct GossipService {
    state: ClusterState,
    advertise_addr: String,
    self_name: String,
    alive_status: i32,
}

impl GossipService {
    /// What is known of the cluster.
    pub closed spec fn cluster(&self) -> Map<Seq<char>, NodeView> {
        self.state@
    }

    /// The node's name.
    pub closed spec fn name(&self) -> Seq<char> {
        self.self_name@
    }

    /// Where the node can be reached.
    pub closed spec fn address(&self) -> Seq<char> {
        self.advertise_addr@
    }

    /// The number of the status of a node that is alive.
    pub closed spec fn alive(&self) -> i32 {
        self.alive_status
    }

    /// The cluster state is sound.
    pub closed spec fn wf(&self) -> bool {
        self.state.wf()
    }

    /// The membership side of the node `self_name`. The messages say by which
    /// number a node is alive.
    pub fn new(
        state: ClusterState,
        advertise_addr: String,
        self_name: &str,
        alive_status: i32,
    ) -> (r: Self)
        requires
            state.wf(),
        ensures
            r.wf(),
            r.cluster() == state@,
            r.name() == self_name@,
            r.address() == advertise_addr@,
            r.alive() == alive_status,
    {
        GossipService { state, advertise_addr, self_name: self_name.to_owned(), alive_status }
    }

    /// Take in what a peer knows of the cluster. Returns whether anything was
    /// news.
    pub fn merge_state(&mut self, incoming_nodes: Vec<NodeState>) -> (r: bool)
        requires
            old(self).wf(),
        ensures
            final(self).wf(),
            final(self).cluster() == cluster_with_all(
                old(self).cluster(),
                nodes_view(incoming_nodes@),
            ),
            r == (final(self).cluster() != old(self).cluster()),
            final(self).name() == old(self).name(),
            final(self).address() == old(self).address(),
            final(self).alive() == old(self).alive(),
    {
        let ghost all = nodes_view(incoming_nodes@);
        let ghost first = self.cluster();
        let ghost before = *self;
        let mut updated = false;
        for node in it: incoming_nodes.into_iter()
            invariant
                it.seq() == incoming_nodes@,
                all == nodes_view(incoming_nodes@),
                self.wf(),
                self.name() == before.name(),
                self.address() == before.address(),
                self.alive() == before.alive(),
                self.cluster() == cluster_with_all(first, all.take(it.index() as int)),
                updated == (self.cluster() != first),
        {
            let ghost mid = self.cluster();
            let ghost view = node@;
            let ghost seen = all.take(it.index() as int);
            proof {
                assert(all.take(it.index() + 1).drop_last() =~= seen);
                assert(all.take(it.index() + 1).last() == view);
            }
            let news = self.state.hear(node);
            if news {
                updated = true;
                proof {
                    law_cluster_moves_forward(first, all.take(it.index() + 1));
                    law_cluster_moves_forward(first, seen);
                    let after = self.cluster();
                    assert(after[view.name] == view);
                    if after == first {
                        assert(first.contains_key(view.name));
                        assert(mid.contains_key(view.name));
                        assert(mid[view.name].version >= first[view.name].version);
                    }
                }
            }
        }
        assert(all.take(all.len() as int) =~= all);
        updated
    }

    /// Decide about a message of the membership channel. A ping is answered with
    /// the state of this node, after what came along with it was taken in. A
    /// node that is not in the cluster state itself counts as alive.
    pub fn ping_server(&mut self, message: GossipMessage) -> (r: PingDecision)
        requires
            old(self).wf(),
        ensures
            final(self).wf(),
            final(self).name() == old(self).name(),
            final(self).address() == old(self).address(),
            final(self).alive() == old(self).alive(),
            final(self).cluster() == (match message.payload {
                Some(GossipPayload::Ping { state_sync: Some(nodes) }) => cluster_with_all(
                    old(self).cluster(),
                    nodes_view(nodes@),
                ),
                _ => old(self).cluster(),
            }),
            match message.payload {
                Some(GossipPayload::Ping { .. }) => r matches PingDecision::Reply(update)
                    && update.name@ == old(self).name() && update.address@ == old(self).address()
                    && update.status == (match lookup(final(self).cluster(), old(self).name()) {
                    Some(n) => n.status,
                    None => old(self).alive(),
                }),
                Some(GossipPayload::PingReq { node: Some(node) }) => r == PingDecision::Forward(
                    node,
                ),
                _ => r == PingDecision::InvalidPayload,
            },
    {
        match message.payload {
            Some(GossipPayload::Ping { state_sync }) => {
                if let Some(nodes) = state_sync {
                    let _ = self.merge_state(nodes);
                }
                let status = match self.state.status_of(self.self_name.as_str()) {
                    Some(status) => status,
                    None => self.alive_status,
                };
                PingDecision::Reply(
                    NodeUpdate {
                        name: self.self_name.clone(),
                        address: self.advertise_addr.clone(),
                        status,
                    },
                )
            },
            Some(GossipPayload::PingReq { node }) => match node {
                Some(node) => PingDecision::Forward(node),
                None => PingDecision::InvalidPayload,
            },
            None => PingDecision::InvalidPayload,
        }
    }
}

// ---- The inbound side of a stream ----

/// What to do about a message of the stream.
#[derive(Debug)]
pub enum InboundAction {
    /// The peer is not the one that it was: close the stream.
    Close,
    /// Answer the sign of life.
    Heartbeat(StreamMessage),
    /// Count an acknowledgement, and whether it was one of success.
    RecordAck(bool),
    /// Count a refusal.
    RecordNack,
    /// Take in chunks that the named peer sent.
    Deliver(String, StreamBatch),
    /// Merge operations.
    Merge(CrdtBatch),
    /// Nothing more.
    Nothing,
}

/// Who the peer is after a message came: the first name that it gives is kept. A
/// message that does not carry that name is from someone else.
pub open spec fn peer_after(peer: Seq<char>, named: Seq<char>) -> Option<Seq<char>> {
    if peer.len() == 0 {
        Some(named)
    } else if named == peer {
        Some(peer)
    } else {
        None
    }
}

/// Whom a stream is open to after a message came. A stream that was closed stays
/// closed.
pub open spec fn open_after(open_to: Option<Seq<char>>, named: Seq<char>) -> Option<Seq<char>> {
    match open_to {
        Some(peer) => peer_after(peer, named),
        None => None,
    }
}

/// The inbound side of a stream.
pub struct InboundStream {
    peer_id: String,
    sequence: u64,
    acked: CrdtWatermark,
    closed: bool,
}

impl InboundStream {
    /// The peer's name, empty where it is not known yet.
    pub closed spec fn peer(&self) -> Seq<char> {
        self.peer_id@
    }

    /// The highest sequence number so far.
    pub closed spec fn seen(&self) -> u64 {
        self.sequence
    }

    /// What the peer has acknowledged.
    pub closed spec fn acks(&self) -> Map<Seq<char>, Version> {
        self.acked@
    }

    /// The peer that the stream is open to, empty where it is not known yet, or
    /// `None` where the stream was closed.
    pub closed spec fn open_to(&self) -> Option<Seq<char>> {
        if self.closed {
            None
        } else {
            Some(self.peer_id@)
        }
    }

    /// The watermark is sound.
    pub closed spec fn wf(&self) -> bool {
        self.acked.wf()
    }

    /// A stream whose peer is not known yet.
    pub fn new() -> (r: Self)
        ensures
            r.wf(),
            r.peer() == Seq::<char>::empty(),
            r.open_to() == Some(Seq::<char>::empty()),
            r.seen() == 0,
            r.acks() == (Map::<Seq<char>, Version>::empty()),
    {
        let r = InboundStream {
            peer_id: String::new(),
            sequence: 0,
            acked: CrdtWatermark::new(),
            closed: false,
        };
        assert(r.peer() =~= Seq::<char>::empty());
        r
    }

    /// Whether the stream was closed.
    pub fn is_closed(&self) -> (r: bool)
        ensures
            r == (self.open_to() is None),
    {
        self.closed
    }

    /// The peer's name, where it is known.
    pub fn learned_peer(&self) -> (r: Option<&str>)
        ensures
            match r {
                Some(p) => p@ == self.peer() && self.peer().len() > 0,
                None => self.peer().len() == 0,
            },
    {
        if self.peer_id.as_str().is_empty() {
            None
        } else {
            Some(self.peer_id.as_str())
        }
    }

    /// What the peer has acknowledged.
    pub fn acked(&self) -> (r: &CrdtWatermark)
        requires
            self.wf(),
        ensures
            r.wf(),
            r@ == self.acks(),
    {
        &self.acked
    }

    /// Decide about a message.
    ///
    /// The peer is bound to the first name that it gives. A later message under
    /// another name, or under none, closes the stream and has no other effect.
    /// Once the stream was closed, no message has any effect.
    pub fn on_message(&mut self, msg: StreamMessage, self_name: &str) -> (r: InboundAction)
        requires
            old(self).wf(),
        ensures
            final(self).wf(),
            final(self).open_to() == open_after(old(self).open_to(), msg.peer_id@),
            ({
                let top = if msg.sequence > old(self).seen() {
                    msg.sequence
                } else {
                    old(self).seen()
                };
                match final(self).open_to() {
                    None => {
                        &&& r is Close
                        &&& final(self).peer() == old(self).peer()
                        &&& final(self).seen() == old(self).seen()
                        &&& final(self).acks() == old(self).acks()
                    },
                    Some(peer) => {
                        &&& final(self).peer() == peer
                        &&& final(self).seen() == top
                        &&& final(self).acks() == (match (msg.message_type, msg.payload) {
                            (
                                StreamMessageType::CrdtAck,
                                Some(StreamPayload::CrdtAck(ack)),
                            ) => merged_acks(old(self).acks(), acks_listed(ack@)),
                            _ => old(self).acks(),
                        })
                        &&& match (msg.message_type, msg.payload) {
                            (StreamMessageType::Heartbeat, _) => r matches InboundAction::Heartbeat(
                                m,
                            ) && m.message_type == StreamMessageType::Heartbeat && m.payload is None
                                && m.sequence == top && m.peer_id@ == self_name@,
                            (StreamMessageType::Ack, Some(StreamPayload::Ack(success))) => r
                                == InboundAction::RecordAck(success),
                            (StreamMessageType::Nack, _) => r is RecordNack,
                            (
                                StreamMessageType::StreamBatch,
                                Some(StreamPayload::StreamBatch(batch)),
                            ) => r == InboundAction::Deliver(msg.peer_id, batch),
                            (
                                StreamMessageType::CrdtBatch,
                                Some(StreamPayload::CrdtBatch(batch)),
                            ) => r == InboundAction::Merge(batch),
                            _ => r is Nothing,
                        }
                    },
                }
            }),
    {
        if self.closed {
            return InboundAction::Close;
        }
        if self.peer_id.as_str().is_empty() {
            if !msg.peer_id.as_str().is_empty() {
                self.peer_id = msg.peer_id.clone();
            } else {
                assert(self.peer_id@ =~= msg.peer_id@);
            }
        } else if !str_eq(msg.peer_id.as_str(), self.peer_id.as_str()) {
            self.closed = true;
            return InboundAction::Close;
        }
        if msg.sequence > self.sequence {
            self.sequence = msg.sequence;
        }
        match msg.message_type {
            StreamMessageType::Heartbeat => InboundAction::Heartbeat(
                build_heartbeat(self.sequence, self_name),
            ),
            StreamMessageType::Ack => match msg.payload {
                Some(StreamPayload::Ack(success)) => InboundAction::RecordAck(success),
                _ => InboundAction::Nothing,
            },
            StreamMessageType::Nack => InboundAction::RecordNack,
            StreamMessageType::StreamBatch => match msg.payload {
                Some(StreamPayload::StreamBatch(batch)) => InboundAction::Deliver(
                    msg.peer_id,
                    batch,
                ),
                _ => InboundAction::Nothing,
            },
            StreamMessageType::CrdtBatch => match msg.payload {
                Some(StreamPayload::CrdtBatch(batch)) => InboundAction::Merge(batch),
                _ => InboundAction::Nothing,
            },
            StreamMessageType::CrdtAck => {
                if let Some(StreamPayload::CrdtAck(ack)) = msg.payload {
                    let acks = crdt_ack_to_watermark(ack);
                    self.acked.merge_max(&acks);
                }
                InboundAction::Nothing
            },
            StreamMessageType::IncrementalUpdate
            | StreamMessageType::SnapshotRequest
            | StreamMessageType::SnapshotChunk
            | StreamMessageType::SnapshotComplete => InboundAction::Nothing,
        }
    }

    /// The answer to operations that were merged: what is acknowledged, if
    /// anything is.
    pub fn ack_reply(&self, receipt: &CrdtReceipt, self_name: &str) -> (r: Option<StreamMessage>)
        requires
            receipt.ack.wf(),
        ensures
            match r {
                Some(m) => receipt.ack@ != Map::<Seq<char>, Version>::empty() && m.message_type
                    == StreamMessageType::CrdtAck && (m.payload matches Some(
                    StreamPayload::CrdtAck(ack),
                ) && lists_acks(ack@, receipt.ack@)) && m.sequence == self.seen() && m.peer_id@
                    == self_name@,
                None => receipt.ack@ == Map::<Seq<char>, Version>::empty(),
            },
    {
        if receipt.ack.is_empty() {
            None
        } else {
            Some(wrap_crdt_ack(&receipt.ack, self.sequence, self_name))
        }
    }
}

/// Whom a stream is open to after messages under a sequence of names, or `None`
/// where one of them was from someone else.
pub open spec fn peer_after_all(peer: Seq<char>, names: Seq<Seq<char>>) -> Option<Seq<char>>
    decreases names.len(),
{
    if names.len() == 0 {
        Some(peer)
    } else {
        open_after(peer_after_all(peer, names.drop_last()), names.last())
    }
}

/// A peer that has given its name keeps it: as long as the stream is open, every
/// message carried that name.
pub proof fn law_peer_name_is_bound(peer: Seq<char>, names: Seq<Seq<char>>)
    requires
        peer.len() > 0,
    ensures
        match peer_after_all(peer, names) {
            Some(p) => p == peer && forall|i: int| 0 <= i < names.len() ==> #[trigger] names[i]
                == peer,
            None => exists|i: int| 0 <= i < names.len() && #[trigger] names[i] != peer,
        },
    decreases names.len(),
{
    if names.len() > 0 {
        let init = names.drop_last();
        law_peer_name_is_bound(peer, init);
        match peer_after_all(peer, names) {
            Some(p) => {
                assert forall|i: int| 0 <= i < names.len() implies #[trigger] names[i] == peer by {
                    if i < init.len() {
                        assert(init[i] == peer);
                    }
                }
            },
            None => {
                if peer_after_all(peer, init) is None {
                    let i = choose|i: int| 0 <= i < init.len() && #[trigger] init[i] != peer;
                    assert(names[i] != peer);
                } else {
                    assert(names[names.len() - 1] != peer);
                }
            },
        }
    }
}

/// Over a whole stream: before a message gives a name, the peer is not known. From
/// the first name on, the stream is open to that name alone. The first message
/// under another name, or under none, closes it, and it stays closed whatever
/// comes after.
pub proof fn law_stream_has_one_peer(names: Seq<Seq<char>>, first: int, other: int)
    requires
        0 <= first < other < names.len(),
        forall|i: int| 0 <= i < first ==> (#[trigger] names[i]).len() == 0,
        names[first].len() > 0,
        forall|i: int| first < i < other ==> #[trigger] names[i] == names[first],
        names[other] != names[first],
    ensures
        forall|k: int|
            0 <= k <= names.len() ==> #[trigger] peer_after_all(Seq::empty(), names.take(k)) == (if k
                <= first {
                Some(Seq::<char>::empty())
            } else if k <= other {
                Some(names[first])
            } else {
                None
            }),
{
    assert forall|k: int| 0 <= k <= names.len() implies #[trigger] peer_after_all(
        Seq::empty(),
        names.take(k),
    ) == (if k <= first {
        Some(Seq::<char>::empty())
    } else if k <= other {
        Some(names[first])
    } else {
        None
    }) by {
        lemma_stream_has_one_peer(names, first, other, k);
    }
}

proof fn lemma_stream_has_one_peer(names: Seq<Seq<char>>, first: int, other: int, k: int)
    requires
        0 <= first < other < names.len(),
        forall|i: int| 0 <= i < first ==> (#[trigger] names[i]).len() == 0,
        names[first].len() > 0,
        forall|i: int| first < i < other ==> #[trigger] names[i] == names[first],
        names[other] != names[first],
        0 <= k <= names.len(),
    ensures
        peer_after_all(Seq::empty(), names.take(k)) == (if k <= first {
            Some(Seq::<char>::empty())
        } else if k <= other {
            Some(names[first])
        } else {
            None
        }),
    decreases k,
{
    if k > 0 {
        lemma_stream_has_one_peer(names, first, other, k - 1);
        assert(names.take(k).drop_last() =~= names.take(k - 1));
        assert(names.take(k).last() == names[k - 1]);
        if k <= first {
            assert(names[k - 1] =~= Seq::<char>::empty());
        }
    }
}

// ---- The outbound side of a stream ----

/// What one tick of the sender does about the values of a round.
#[derive(Debug)]
pub enum SenderTick {
    /// The peer is not known yet. The round stays to be sent.
    SkipPeerUnknown,
    /// The round has been sent.
    SkipBatchUnchanged,
    /// Send these batches. The round has then been sent.
    Emit(Vec<StreamBatch>),
}

/// The batches of a round for a peer.
pub open spec fn round_batches(
    round: crate::kv::RoundView,
    peer: Seq<char>,
    last: u64,
) -> Seq<Seq<EntryView>> {
    packed(
        chunks_of(values_for(round, peer), last),
        entry_size(),
        DEFAULT_MAX_CHUNKS_PER_BATCH as nat,
        MAX_STREAM_CHUNK_BYTES as nat,
    )
}

/// Decide what a tick does, given whether the round is another than the last one
/// that was sent.
pub fn plan_tick(
    fresh: bool,
    current: &RoundBatch,
    learned_peer: Option<&str>,
    generations: &mut Generations,
) -> (r: SenderTick)
    ensures
        match learned_peer {
            Some(peer) if peer@.len() > 0 => if fresh {
                &&& r matches SenderTick::Emit(batches) && batches_view(batches@) == round_batches(
                    current@,
                    peer@,
                    old(generations)@,
                )
                &&& final(generations)@ == number_after(
                    old(generations)@,
                    values_for(current@, peer@).len(),
                )
            } else {
                &&& r is SkipBatchUnchanged
                &&& final(generations)@ == old(generations)@
            },
            _ => {
                &&& r is SkipPeerUnknown
                &&& final(generations)@ == old(generations)@
            },
        },
{
    let peer_id = match learned_peer {
        Some(peer) => peer,
        None => return SenderTick::SkipPeerUnknown,
    };
    if peer_id.is_empty() {
        return SenderTick::SkipPeerUnknown;
    }
    if !fresh {
        return SenderTick::SkipBatchUnchanged;
    }
    SenderTick::Emit(build_peer_stream_batches(current, peer_id, generations))
}

/// `Arc::ptr_eq` of two rounds: pointers to the same place point to the same
/// round. Different places may hold equal rounds, so nothing is claimed of a
/// negative answer.
#[verifier::external_body]
fn same_round(a: &Arc<RoundBatch>, b: &Arc<RoundBatch>) -> (r: bool)
    ensures
        r ==> **a == **b,
{
    Arc::ptr_eq(a, b)
}

/// Decide what a tick does. A round counts as sent only where it is the very one
/// that was sent last.
pub fn plan_sender_tick(
    last_stream_batch: Option<&Arc<RoundBatch>>,
    current_stream_batch: &Arc<RoundBatch>,
    learned_peer: Option<&str>,
    generations: &mut Generations,
) -> (r: SenderTick)
    ensures
        match r {
            SenderTick::SkipPeerUnknown => (learned_peer matches Some(peer) ==> peer@.len() == 0)
                && final(generations)@ == old(generations)@,
            SenderTick::SkipBatchUnchanged => (learned_peer matches Some(peer) && peer@.len() > 0)
                && (last_stream_batch matches Some(last) && **last == **current_stream_batch)
                && final(generations)@ == old(generations)@,
            SenderTick::Emit(batches) => learned_peer matches Some(peer) && peer@.len() > 0
                && batches_view(batches@) == round_batches(
                (**current_stream_batch)@,
                peer@,
                old(generations)@,
            ) && final(generations)@ == number_after(
                old(generations)@,
                values_for((**current_stream_batch)@, peer@).len(),
            ),
        },
        last_stream_batch is None && (learned_peer matches Some(peer) && peer@.len() > 0)
            ==> r is Emit,
{
    let fresh = match last_stream_batch {
        Some(last) => !same_round(last, current_stream_batch),
        None => true,
    };
    plan_tick(fresh, current_stream_batch, learned_peer, generations)
}

/// The outbound side of a stream.
pub struct OutboundSender {
    sequence: u64,
    last: Option<Arc<RoundBatch>>,
    stream_queue: Vec<StreamBatch>,
    crdt_queue: Vec<CrdtBatch>,
    sending_ops: bool,
}

impl OutboundSender {
    /// The sequence number of the last message.
    pub closed spec fn sent(&self) -> u64 {
        self.sequence
    }

    /// The batches of chunks that this tick has still to send.
    pub closed spec fn chunk_batches(&self) -> Seq<Seq<EntryView>> {
        batches_view(self.stream_queue@)
    }

    /// The batches of operations that this tick has still to send.
    pub closed spec fn op_batches(&self) -> Seq<Seq<OpView>> {
        crdt_batches_view(self.crdt_queue@)
    }

    /// Whether the last message carried operations.
    pub closed spec fn at_ops(&self) -> bool {
        self.sending_ops
    }

    /// The last round whose values were sent.
    pub closed spec fn last_round(&self) -> Option<RoundBatch> {
        match self.last {
            Some(round) => Some(*round),
            None => None,
        }
    }

    /// A sender that has sent nothing.
    pub fn new() -> (r: Self)
        ensures
            r.sent() == 0,
            r.last_round() is None,
            r.chunk_batches().len() == 0,
            r.op_batches().len() == 0,
            !r.at_ops(),
    {
        OutboundSender {
            sequence: 0,
            last: None,
            stream_queue: Vec::new(),
            crdt_queue: Vec::new(),
            sending_ops: false,
        }
    }

    /// Begin a tick. The values of the round are sent once, when the peer is
    /// known. The operations that the peer has not acknowledged are sent every
    /// time.
    pub fn begin_tick(
        &mut self,
        current: &Arc<RoundBatch>,
        learned_peer: Option<&str>,
        acked: &CrdtWatermark,
        generations: &mut Generations,
    )
        requires
            acked.wf(),
        ensures
            final(self).sent() == old(self).sent(),
            !final(self).at_ops(),
            final(self).op_batches() == packed(
                pending_ops(acked@, (**current)@.ops),
                op_size(),
                usize::MAX as nat,
                MAX_STREAM_CHUNK_BYTES as nat,
            ),
            match learned_peer {
                Some(peer) if peer@.len() > 0 => {
                    &&& final(self).last_round() == Some(**current)
                    &&& {
                        ||| old(self).last_round() == Some(**current)
                            && final(self).chunk_batches().len() == 0 && final(generations)@ == old(
                            generations,
                        )@
                        ||| final(self).chunk_batches() == round_batches(
                            (**current)@,
                            peer@,
                            old(generations)@,
                        ) && final(generations)@ == number_after(
                            old(generations)@,
                            values_for((**current)@, peer@).len(),
                        )
                    }
                },
                _ => {
                    &&& final(self).last_round() == old(self).last_round()
                    &&& final(self).chunk_batches().len() == 0
                    &&& final(generations)@ == old(generations)@
                },
            },
    {
        self.sending_ops = false;
        let last = match &self.last {
            Some(round) => Some(round),
            None => None,
        };
        match plan_sender_tick(last, current, learned_peer, generations) {
            SenderTick::Emit(batches) => {
                self.last = Some(share(current));
                self.stream_queue = batches;
            },
            _ => {
                self.stream_queue = Vec::new();
            },
        }
        let ops = unacked(current.crdt_ops.operations(), acked);
        self.crdt_queue = build_crdt_batches(ops.as_slice(), MAX_STREAM_CHUNK_BYTES);
    }

    /// The next message of this tick: first the chunks, then the operations.
    pub fn next_message(&mut self, self_name: &str) -> (r: Option<StreamMessage>)
        ensures
            final(self).last_round() == old(self).last_round(),
            if old(self).chunk_batches().len() > 0 {
                &&& r matches Some(m) && m.message_type == StreamMessageType::StreamBatch && (
                m.payload matches Some(StreamPayload::StreamBatch(batch)) && batch@ == old(
                    self
                ).chunk_batches()[0]) && m.sequence == next_number(old(self).sent())
                    && m.peer_id@ == self_name@
                &&& final(self).chunk_batches() == old(self).chunk_batches().drop_first()
                &&& final(self).op_batches() == old(self).op_batches()
                &&& final(self).sent() == next_number(old(self).sent())
                &&& !final(self).at_ops()
            } else if old(self).op_batches().len() > 0 {
                &&& r matches Some(m) && m.message_type == StreamMessageType::CrdtBatch && (
                m.payload matches Some(StreamPayload::CrdtBatch(batch)) && batch@ == old(
                    self
                ).op_batches()[0]) && m.sequence == next_number(old(self).sent()) && m.peer_id@
                    == self_name@
                &&& final(self).op_batches() == old(self).op_batches().drop_first()
                &&& final(self).chunk_batches() == old(self).chunk_batches()
                &&& final(self).sent() == next_number(old(self).sent())
                &&& final(self).at_ops()
            } else {
                &&& r is None
                &&& final(self).sent() == old(self).sent()
                &&& final(self).op_batches() == old(self).op_batches()
                &&& final(self).chunk_batches() == old(self).chunk_batches()
            },
    {
        if self.stream_queue.len() > 0 {
            let ghost before = self.stream_queue@;
            let batch = self.stream_queue.remove(0);
            self.sequence = if self.sequence < u64::MAX {
                self.sequence + 1
            } else {
                0
            };
            self.sending_ops = false;
            proof {
                assert(batches_view(before)[0] == batch@);
                assert(self.chunk_batches() =~= batches_view(before).drop_first());
            }
            Some(wrap_stream_batch(batch, self.sequence, self_name))
        } else if self.crdt_queue.len() > 0 {
            let ghost before = self.crdt_queue@;
            let batch = self.crdt_queue.remove(0);
            self.sequence = if self.sequence < u64::MAX {
                self.sequence + 1
            } else {
                0
            };
            self.sending_ops = true;
            proof {
                assert(crdt_batches_view(before)[0] == batch@);
                assert(self.op_batches() =~= crdt_batches_view(before).drop_first());
            }
            Some(wrap_crdt_batch(batch, self.sequence, self_name))
        } else {
            None
        }
    }

    /// The last message found no room. What is left of its kind is not sent in
    /// this tick.
    pub fn channel_full(&mut self)
        ensures
            final(self).sent() == old(self).sent(),
            final(self).at_ops() == old(self).at_ops(),
            final(self).last_round() == old(self).last_round(),
            if old(self).at_ops() {
                &&& final(self).op_batches().len() == 0
                &&& final(self).chunk_batches() == old(self).chunk_batches()
            } else {
                &&& final(self).chunk_batches().len() == 0
                &&& final(self).op_batches() == old(self).op_batches()
            },
    {
        if self.sending_ops {
            self.crdt_queue = Vec::new();
        } else {
            self.stream_queue = Vec::new();
        }
    }
}

} // verus!
