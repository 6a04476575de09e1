//! The messages of the stream between two nodes.
use super::chunk_assembler::{datas, fragments, joined, parts_after, Arriving, PendingView};
use super::chunking::{
    batches_view, build_stream_batches, bytes_detach, bytes_share, chunk_count, chunk_data,
    chunk_value, chunks, contents, entries_view, entry_size, next_number, EntryView, Generations,
    StreamBatch, StreamEntry, DEFAULT_MAX_CHUNKS_PER_BATCH, MAX_STREAM_CHUNK_BYTES,
};
use super::crdt_batch::{watermark_to_crdt_ack, CrdtAck, CrdtBatch};
use super::packing::packed;
use crate::crdt_kv::watermark::{lists_acks, CrdtWatermark};
use crate::kv::{drain_view, targeted_view, MeshKV, RoundBatch, RoundView};
use crate::text::str_eq;
use bytes::Bytes;
use vstd::prelude::*;

verus! {

/// What a message is about.
#[derive(Debug, Clone, Copy, PartialEq, Eq, Structural)]
pub enum StreamMessageType {
    IncrementalUpdate,
    SnapshotRequest,
    SnapshotChunk,
    SnapshotComplete,
    Heartbeat,
    Ack,
    Nack,
    StreamBatch,
    CrdtBatch,
    CrdtAck,
}

/// What a message carries.
#[derive(Debug)]
pub enum StreamPayload {
    /// Whether what was sent has been taken in.
    Ack(bool),
    StreamBatch(StreamBatch),
    CrdtBatch(CrdtBatch),
    CrdtAck(CrdtAck),
}

/// A message.
#[derive(Debug)]
pub struct StreamMessage {
    pub message_type: StreamMessageType,
    pub payload: Option<StreamPayload>,
    pub sequence: u64,
    pub peer_id: String,
}

// ---- Outbound ----

/// The number after `n` more were taken.
pub open spec fn number_after(last: u64, n: nat) -> u64
    decreases n,
{
    if n == 0 {
        last
    } else {
        next_number(number_after(last, (n - 1) as nat))
    }
}

/// The values of a round for `peer`: those for every peer, and those for it. An
/// empty name is no peer's, so it gets none but those for every peer.
pub open spec fn values_for(round: RoundView, peer: Seq<char>) -> Seq<(Seq<char>, Seq<u8>)> {
    round.drain + (if peer.len() == 0 {
        Seq::empty()
    } else {
        addressed_to(round.targeted, peer)
    })
}

/// The values that are addressed to `peer`, in order.
pub open spec fn addressed_to(
    targeted: Seq<(Seq<char>, Seq<char>, Seq<u8>)>,
    peer: Seq<char>,
) -> Seq<(Seq<char>, Seq<u8>)>
    decreases targeted.len(),
{
    if targeted.len() == 0 {
        Seq::empty()
    } else {
        let rest = addressed_to(targeted.drop_last(), peer);
        let (to, key, value) = targeted.last();
        if to == peer {
            rest.push((key, value))
        } else {
            rest
        }
    }
}

/// The chunks of values, each value numbered anew.
pub open spec fn chunks_of(values: Seq<(Seq<char>, Seq<u8>)>, last: u64) -> Seq<EntryView>
    decreases values.len(),
{
    if values.len() == 0 {
        Seq::empty()
    } else {
        chunks_of(values.drop_last(), last) + chunks(
            values.last().0,
            number_after(last, values.len()),
            values.last().1,
            MAX_STREAM_CHUNK_BYTES as nat,
        )
    }
}

/// Add the chunks of one value.
fn push_value(
    entries: &mut Vec<StreamEntry>,
    key: &String,
    value: &Bytes,
    generations: &mut Generations,
    Ghost(values): Ghost<Seq<(Seq<char>, Seq<u8>)>>,
    Ghost(last): Ghost<u64>,
)
    requires
        entries_view(old(entries)@) == chunks_of(values, last),
        old(generations)@ == number_after(last, values.len()),
    ensures
        entries_view(final(entries)@) == chunks_of(values.push((key@, contents(*value))), last),
        final(generations)@ == number_after(last, values.len() + 1),
{
    let ghost before = entries@;
    let mut more = chunk_value(
        key.clone(),
        generations.next_generation(),
        bytes_share(value),
        MAX_STREAM_CHUNK_BYTES,
    );
    let ghost added = more@;
    entries.append(&mut more);
    proof {
        let next = values.push((key@, contents(*value)));
        assert(next.drop_last() =~= values);
        assert(entries_view(entries@) =~= entries_view(before) + entries_view(added));
    }
}

/// The batches that a round sends to `peer_id`, which is empty where the peer is
/// not known.
pub fn build_peer_stream_batches(
    round_batch: &RoundBatch,
    peer_id: &str,
    generations: &mut Generations,
) -> (r: Vec<StreamBatch>)
    ensures
        batches_view(r@) == packed(
            chunks_of(values_for(round_batch@, peer_id@), old(generations)@),
            entry_size(),
            DEFAULT_MAX_CHUNKS_PER_BATCH as nat,
            MAX_STREAM_CHUNK_BYTES as nat,
        ),
        final(generations)@ == number_after(
            old(generations)@,
            values_for(round_batch@, peer_id@).len(),
        ),
{
    let ghost last = generations@;
    let ghost drain = round_batch@.drain;
    let ghost targeted = round_batch@.targeted;
    let mut entries: Vec<StreamEntry> = Vec::new();
    let n = round_batch.drain_entries.len();
    proof {
        assert(entries_view(entries@) =~= chunks_of(drain.take(0), last));
    }
    for i in 0..n
        invariant
            drain == drain_view(round_batch.drain_entries@),
            n == drain.len(),
            entries_view(entries@) == chunks_of(drain.take(i as int), last),
            generations@ == number_after(last, i as nat),
    {
        let (key, value) = &round_batch.drain_entries[i];
        push_value(&mut entries, key, value, generations, Ghost(drain.take(i as int)), Ghost(last));
        assert(drain.take(i + 1) =~= drain.take(i as int).push(drain[i as int]));
    }
    assert(drain.take(n as int) =~= drain);
    if !peer_id.is_empty() {
        let m = round_batch.targeted_entries.len();
        proof {
            assert(drain + addressed_to(targeted.take(0), peer_id@) =~= drain);
        }
        for i in 0..m
            invariant
                targeted == targeted_view(round_batch.targeted_entries@),
                m == targeted.len(),
                entries_view(entries@) == chunks_of(
                    drain + addressed_to(targeted.take(i as int), peer_id@),
                    last,
                ),
                generations@ == number_after(
                    last,
                    (drain + addressed_to(targeted.take(i as int), peer_id@)).len(),
                ),
        {
            let (target, key, value) = &round_batch.targeted_entries[i];
            let ghost seen = addressed_to(targeted.take(i as int), peer_id@);
            proof {
                assert(targeted.take(i + 1).drop_last() =~= targeted.take(i as int));
                assert(targeted.take(i + 1).last() == targeted[i as int]);
            }
            if str_eq(target.as_str(), peer_id) {
                push_value(&mut entries, key, value, generations, Ghost(drain + seen), Ghost(last));
                proof {
                    assert((drain + seen).push((key@, contents(*value))) =~= drain + seen.push(
                        (key@, contents(*value)),
                    ));
                }
            }
        }
        assert(targeted.take(m as int) =~= targeted);
    } else {
        assert(values_for(round_batch@, peer_id@) =~= drain);
    }
    build_stream_batches(entries, DEFAULT_MAX_CHUNKS_PER_BATCH, MAX_STREAM_CHUNK_BYTES)
}

/// The message that carries a batch of chunks.
pub fn wrap_stream_batch(batch: StreamBatch, sequence: u64, self_name: &str) -> (r: StreamMessage)
    ensures
        r.message_type == StreamMessageType::StreamBatch,
        r.payload == Some(StreamPayload::StreamBatch(batch)),
        r.sequence == sequence,
        r.peer_id@ == self_name@,
{
    StreamMessage {
        message_type: StreamMessageType::StreamBatch,
        payload: Some(StreamPayload::StreamBatch(batch)),
        sequence,
        peer_id: self_name.to_owned(),
    }
}

/// The message that carries a batch of operations.
pub fn wrap_crdt_batch(batch: CrdtBatch, sequence: u64, self_name: &str) -> (r: StreamMessage)
    ensures
        r.message_type == StreamMessageType::CrdtBatch,
        r.payload == Some(StreamPayload::CrdtBatch(batch)),
        r.sequence == sequence,
        r.peer_id@ == self_name@,
{
    StreamMessage {
        message_type: StreamMessageType::CrdtBatch,
        payload: Some(StreamPayload::CrdtBatch(batch)),
        sequence,
        peer_id: self_name.to_owned(),
    }
}

/// The message that carries an acknowledgement of operations.
pub fn wrap_crdt_ack(acked: &CrdtWatermark, sequence: u64, self_name: &str) -> (r: StreamMessage)
    requires
        acked.wf(),
    ensures
        r.message_type == StreamMessageType::CrdtAck,
        r.payload matches Some(StreamPayload::CrdtAck(ack)) && lists_acks(ack@, acked@),
        r.sequence == sequence,
        r.peer_id@ == self_name@,
{
    StreamMessage {
        message_type: StreamMessageType::CrdtAck,
        payload: Some(StreamPayload::CrdtAck(watermark_to_crdt_ack(acked))),
        sequence,
        peer_id: self_name.to_owned(),
    }
}

/// A sign of life.
pub fn build_heartbeat(sequence: u64, self_name: &str) -> (r: StreamMessage)
    ensures
        r.message_type == StreamMessageType::Heartbeat,
        r.payload is None,
        r.sequence == sequence,
        r.peer_id@ == self_name@,
{
    StreamMessage {
        message_type: StreamMessageType::Heartbeat,
        payload: None,
        sequence,
        peer_id: self_name.to_owned(),
    }
}

// ---- Inbound ----

/// A value that has arrived for the subscribers of a key, in fragments.
#[derive(Debug)]
pub struct Notification {
    pub key: String,
    pub fragments: Vec<Bytes>,
}

/// What a notification says.
#[verifier::ext_equal]
pub struct NoteView {
    pub key: Seq<char>,
    pub fragments: Seq<Seq<u8>>,
}

impl View for Notification {
    type V = NoteView;

    open spec fn view(&self) -> NoteView {
        NoteView { key: self.key@, fragments: datas(self.fragments@) }
    }
}

/// What notifications say.
pub open spec fn notes_view(notes: Seq<Notification>) -> Seq<NoteView> {
    notes.map_values(|n: Notification| n@)
}

/// What is arriving after a chunk came. A value in one chunk supersedes what was
/// arriving under its key.
pub open spec fn arriving_after(arriving: Arriving, peer: Seq<char>, e: EntryView) -> Arriving {
    let at = (peer, e.key);
    if e.total_chunks == 1 {
        arriving.remove(at)
    } else if e.chunk_index >= e.total_chunks {
        arriving
    } else {
        let parts = chunk_parts(arriving, peer, e);
        if parts.len() == e.total_chunks {
            arriving.remove(at)
        } else {
            arriving.insert(
                at,
                PendingView { generation: e.generation, total: e.total_chunks, parts },
            )
        }
    }
}

/// The chunks of a value that have arrived, with the one that just came.
pub open spec fn chunk_parts(arriving: Arriving, peer: Seq<char>, e: EntryView) -> Seq<
    (u64, Seq<u8>),
> {
    let at = (peer, e.key);
    parts_after(
        if arriving.contains_key(at) {
            Some(arriving[at])
        } else {
            None
        },
        e.generation,
        e.chunk_index,
        e.total_chunks,
        e.data,
    )
}

/// The value that a chunk completes.
pub open spec fn completed_by(arriving: Arriving, peer: Seq<char>, e: EntryView) -> Option<NoteView> {
    if e.total_chunks == 1 {
        Some(NoteView { key: e.key, fragments: seq![e.data] })
    } else if e.chunk_index >= e.total_chunks {
        None
    } else {
        let parts = chunk_parts(arriving, peer, e);
        if parts.len() == e.total_chunks {
            Some(NoteView { key: e.key, fragments: fragments(parts) })
        } else {
            None
        }
    }
}

/// What is arriving after chunks came one after another.
pub open spec fn arriving_after_all(
    arriving: Arriving,
    peer: Seq<char>,
    entries: Seq<EntryView>,
) -> Arriving
    decreases entries.len(),
{
    if entries.len() == 0 {
        arriving
    } else {
        arriving_after(arriving_after_all(arriving, peer, entries.drop_last()), peer, entries.last())
    }
}

/// The values that chunks complete, one after another.
pub open spec fn completed_by_all(
    arriving: Arriving,
    peer: Seq<char>,
    entries: Seq<EntryView>,
) -> Seq<NoteView>
    decreases entries.len(),
{
    if entries.len() == 0 {
        Seq::empty()
    } else {
        let init = entries.drop_last();
        let done = completed_by_all(arriving, peer, init);
        match completed_by(arriving_after_all(arriving, peer, init), peer, entries.last()) {
            Some(note) => done.push(note),
            None => done,
        }
    }
}

/// Take in the chunks of a batch. Returns the values that subscribers are to be
/// given. A value in one chunk is handed on at once, the others when their last
/// chunk has come. The data of each chunk are copied, so that what is kept of a
/// batch does not keep all of it in memory.
pub fn dispatch_stream_batch(mesh: &mut MeshKV, peer_id: &str, entries: Vec<StreamEntry>) -> (r: Vec<
    Notification,
>)
    requires
        old(mesh).wf(),
    ensures
        final(mesh).wf(),
        final(mesh).arriving()@ == arriving_after_all(
            old(mesh).arriving()@,
            peer_id@,
            entries_view(entries@),
        ),
        notes_view(r@) == completed_by_all(
            old(mesh).arriving()@,
            peer_id@,
            entries_view(entries@),
        ),
        final(mesh).map() == old(mesh).map(),
        final(mesh).last_reading() == old(mesh).last_reading(),
        final(mesh).queued() == old(mesh).queued(),
        final(mesh).queued_for() == old(mesh).queued_for(),
        final(mesh).node() == old(mesh).node(),
{
    let ghost all = entries_view(entries@);
    let ghost first = mesh.arriving()@;
    let ghost before = *mesh;
    let mut notes: Vec<Notification> = Vec::new();
    proof {
        assert(notes_view(notes@) =~= completed_by_all(first, peer_id@, all.take(0)));
    }
    for entry in it: entries.into_iter()
        invariant
            it.seq() == entries@,
            all == entries_view(entries@),
            mesh.wf(),
            mesh.map() == before.map(),
            mesh.last_reading() == before.last_reading(),
            mesh.queued() == before.queued(),
            mesh.queued_for() == before.queued_for(),
            mesh.node() == before.node(),
            mesh.arriving()@ == arriving_after_all(first, peer_id@, all.take(it.index() as int)),
            notes_view(notes@) == completed_by_all(first, peer_id@, all.take(it.index() as int)),
    {
        let ghost view = entry@;
        let ghost old_notes = notes@;
        let ghost old_arriving = mesh.arriving();
        proof {
            assert(all.take(it.index() + 1).drop_last() =~= all.take(it.index() as int));
            assert(all.take(it.index() + 1).last() == view);
        }
        let data = bytes_detach(&entry.data);
        let assembler = mesh.chunk_assembler();
        if entry.total_chunks == 1 {
            assembler.drop_pending(peer_id, entry.key.as_str());
            let mut fragments: Vec<Bytes> = Vec::new();
            fragments.push(data);
            let note = Notification { key: entry.key, fragments };
            proof {
                assert(datas(note.fragments@) =~= seq![view.data]);
                assert(note@ =~= NoteView { key: view.key, fragments: seq![view.data] });
            }
            let ghost note_view = note@;
            notes.push(note);
            proof {
                assert(notes_view(notes@) =~= notes_view(old_notes).push(note_view));
                assert(mesh.arriving()@ =~= arriving_after(old_arriving@, peer_id@, view));
            }
        } else {
            let done = assembler.receive_chunk(
                peer_id,
                entry.key.as_str(),
                entry.generation,
                entry.chunk_index,
                entry.total_chunks,
                data,
            );
            proof {
                assert(mesh.arriving()@ =~= arriving_after(old_arriving@, peer_id@, view));
            }
            if let Some(fragments) = done {
                let note = Notification { key: entry.key, fragments };
                let ghost note_view = note@;
                notes.push(note);
                proof {
                    assert(notes_view(notes@) =~= notes_view(old_notes).push(note_view));
                }
            }
        }
    }
    assert(all.take(all.len() as int) =~= all);
    notes
}

// ---- From one node to the other ----

/// The first `n` chunks of a value.
pub open spec fn first_parts(value: Seq<u8>, max: nat, n: int) -> Seq<(u64, Seq<u8>)> {
    Seq::new(n as nat, |j: int| (j as u64, chunk_data(value, max, j)))
}

proof fn lemma_chunks_arrive(
    arriving: Arriving,
    peer: Seq<char>,
    key: Seq<char>,
    generation: u64,
    value: Seq<u8>,
    max: nat,
    n: int,
)
    requires
        max > 0,
        1 < chunk_count(value.len(), max) <= u64::MAX,
        !arriving.contains_key((peer, key)),
        0 < n < chunk_count(value.len(), max),
    ensures
        ({
            let sent = chunks(key, generation, value, max).take(n);
            &&& arriving_after_all(arriving, peer, sent) == arriving.insert(
                (peer, key),
                PendingView {
                    generation,
                    total: chunk_count(value.len(), max) as u64,
                    parts: first_parts(value, max, n),
                },
            )
            &&& completed_by_all(arriving, peer, sent).len() == 0
        }),
    decreases n,
{
    let all = chunks(key, generation, value, max);
    let total = chunk_count(value.len(), max) as u64;
    let sent = all.take(n);
    let e = all[n - 1];
    assert(sent.drop_last() =~= all.take(n - 1));
    assert(sent.last() == e);
    if n == 1 {
        assert(all.take(0).len() == 0);
        let parts = chunk_parts(arriving, peer, e);
        assert(parts =~= first_parts(value, max, 1));
        assert(arriving_after_all(arriving, peer, all.take(0)) == arriving);
        assert(completed_by_all(arriving, peer, all.take(0)).len() == 0);
        assert(sent.drop_last() == all.take(0));
        assert(completed_by(arriving, peer, e) is None);
        assert(arriving_after(arriving, peer, e) == arriving.insert(
            (peer, key),
            PendingView { generation, total, parts },
        ));
    } else {
        lemma_chunks_arrive(arriving, peer, key, generation, value, max, n - 1);
        let mid = arriving_after_all(arriving, peer, all.take(n - 1));
        let parts = chunk_parts(mid, peer, e);
        let before = first_parts(value, max, n - 1);
        assert(before.last().0 == (n - 2) as u64);
        assert(parts == before.push((e.chunk_index, e.data)));
        assert(parts =~= first_parts(value, max, n));
        assert(arriving_after(mid, peer, e) =~= arriving.insert(
            (peer, key),
            PendingView { generation, total, parts },
        ));
        assert(completed_by(mid, peer, e) is None);
    }
}

/// A value that was cut and whose chunks arrive in order reaches the subscribers
/// whole and once, however many chunks it took. Nothing of it stays behind.
pub proof fn law_value_arrives_whole(
    arriving: Arriving,
    peer: Seq<char>,
    key: Seq<char>,
    generation: u64,
    value: Seq<u8>,
    max: nat,
)
    requires
        max > 0,
        chunk_count(value.len(), max) <= u64::MAX,
        !arriving.contains_key((peer, key)),
    ensures
        ({
            let sent = chunks(key, generation, value, max);
            let notes = completed_by_all(arriving, peer, sent);
            &&& notes.len() == 1
            &&& notes[0].key == key
            &&& joined(notes[0].fragments) == value
            &&& arriving_after_all(arriving, peer, sent) == arriving
        }),
{
    let sent = chunks(key, generation, value, max);
    let n = chunk_count(value.len(), max) as int;
    let total = n as u64;
    super::chunking::lemma_chunk_count(value.len(), max);
    let init = sent.drop_last();
    let e = sent.last();
    let parts = first_parts(value, max, n);
    assert(e == sent[n - 1]);
    if n == 1 {
        assert(init.len() == 0);
        assert(completed_by_all(arriving, peer, init).len() == 0);
        assert(arriving_after_all(arriving, peer, init) == arriving);
        assert(seq![e.data] =~= fragments(parts));
        assert(arriving.remove((peer, key)) =~= arriving);
    } else {
        assert(init =~= sent.take(n - 1));
        lemma_chunks_arrive(arriving, peer, key, generation, value, max, n - 1);
        let mid = arriving_after_all(arriving, peer, init);
        let before = first_parts(value, max, n - 1);
        assert(before.last().0 == (n - 2) as u64);
        assert(chunk_parts(mid, peer, e) == before.push((e.chunk_index, e.data)));
        assert(chunk_parts(mid, peer, e) =~= parts);
        assert(arriving_after(mid, peer, e) =~= arriving);
    }
    super::chunk_assembler::law_assembled_value_is_the_one_sent(
        key,
        generation,
        value,
        max,
        parts,
        total,
    );
    let notes = completed_by_all(arriving, peer, sent);
    assert(notes =~= seq![NoteView { key, fragments: fragments(parts) }]);
}

} // verus!
