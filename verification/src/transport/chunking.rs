//! Values cut into chunks, and chunks packed into batches.
use super::packing::{groups_view, pack, packed};
use bytes::Bytes;
use vstd::prelude::*;

verus! {

/// `bytes::Bytes`, a cheaply shared run of bytes.
#[verifier::external_type_specification]
#[verifier::external_body]
pub struct ExBytes(bytes::Bytes);

/// The bytes that a `Bytes` holds.
pub uninterp spec fn contents(data: Bytes) -> Seq<u8>;

/// `Bytes::len` is the number of bytes.
#[verifier::external_body]
pub(crate) fn bytes_len(data: &Bytes) -> (r: usize)
    ensures
        r == contents(*data).len(),
{
    data.len()
}

/// `Bytes::slice` shares a part of the bytes. It panics where the bounds are out
/// of order or of range, which `requires` rules out.
#[verifier::external_body]
fn bytes_slice(data: &Bytes, from: usize, to: usize) -> (r: Bytes)
    requires
        from <= to <= contents(*data).len(),
    ensures
        contents(r) == contents(*data).subrange(from as int, to as int),
{
    data.slice(from..to)
}

/// `Bytes::clone` shares all of the bytes.
#[verifier::external_body]
pub(crate) fn bytes_share(data: &Bytes) -> (r: Bytes)
    ensures
        contents(r) == contents(*data),
{
    data.clone()
}

/// `Bytes::copy_from_slice` of the bytes: a copy that shares no memory with
/// them.
#[verifier::external_body]
pub(crate) fn bytes_detach(data: &Bytes) -> (r: Bytes)
    ensures
        contents(r) == contents(*data),
{
    Bytes::copy_from_slice(data)
}

/// The most bytes that one chunk, and the data of one batch, may have.
pub const MAX_STREAM_CHUNK_BYTES: usize = 10_485_760;

/// The most chunks that one batch may have.
pub const DEFAULT_MAX_CHUNKS_PER_BATCH: usize = 64;

/// A chunk of a value on its way to a peer.
#[derive(Debug)]
pub struct StreamEntry {
    pub key: String,
    /// Tells the chunks of one value from those of another under the same key.
    pub generation: u64,
    pub chunk_index: u64,
    pub total_chunks: u64,
    pub data: Bytes,
}

/// What a chunk says.
#[verifier::ext_equal]
pub struct EntryView {
    pub key: Seq<char>,
    pub generation: u64,
    pub chunk_index: u64,
    pub total_chunks: u64,
    pub data: Seq<u8>,
}

impl View for StreamEntry {
    type V = EntryView;

    open spec fn view(&self) -> EntryView {
        EntryView {
            key: self.key@,
            generation: self.generation,
            chunk_index: self.chunk_index,
            total_chunks: self.total_chunks,
            data: contents(self.data),
        }
    }
}

/// What chunks say.
pub open spec fn entries_view(entries: Seq<StreamEntry>) -> Seq<EntryView> {
    entries.map_values(|e: StreamEntry| e@)
}

/// Numbers that tell the chunks of one value from those of another.
#[derive(Debug)]
pub struct Generations {
    last: u64,
}

impl View for Generations {
    type V = u64;

    closed spec fn view(&self) -> u64 {
        self.last
    }
}

/// The number after `last`. Behind the largest comes zero.
pub open spec fn next_number(last: u64) -> u64 {
    if last < u64::MAX {
        (last + 1) as u64
    } else {
        0
    }
}

impl Generations {
    /// Numbers from one on.
    pub fn new() -> (r: Self)
        ensures
            r@ == 0,
    {
        Generations { last: 0 }
    }

    /// The next number.
    pub fn next_generation(&mut self) -> (r: u64)
        ensures
            r == next_number(old(self)@),
            final(self)@ == r,
    {
        self.last = if self.last < u64::MAX {
            self.last + 1
        } else {
            0
        };
        self.last
    }
}

/// How many chunks of at most `max` bytes a value of `len` bytes takes. An empty
/// value takes one.
pub open spec fn chunk_count(len: nat, max: nat) -> nat {
    if len <= max {
        1
    } else {
        ((len + max - 1) / (max as int)) as nat
    }
}

/// The `i`th chunk of a value.
pub open spec fn chunk_data(value: Seq<u8>, max: nat, i: int) -> Seq<u8> {
    value.subrange(
        i * max,
        if (i + 1) * max < value.len() {
            (i + 1) * max
        } else {
            value.len() as int
        },
    )
}

/// A value cut into chunks.
pub open spec fn chunks(
    key: Seq<char>,
    generation: u64,
    value: Seq<u8>,
    max: nat,
) -> Seq<EntryView> {
    Seq::new(
        chunk_count(value.len(), max),
        |i: int|
            EntryView {
                key,
                generation,
                chunk_index: i as u64,
                total_chunks: chunk_count(value.len(), max) as u64,
                data: chunk_data(value, max, i),
            },
    )
}

/// Where a chunk begins and ends.
pub proof fn lemma_chunk_bounds(len: nat, max: nat, i: int)
    requires
        max > 0,
        0 <= i < chunk_count(len, max),
    ensures
        0 <= i * max <= len,
        (i + 1) * max == i * max + max,
        i + 1 < chunk_count(len, max) ==> (i + 1) * max < len,
        i + 1 == chunk_count(len, max) ==> (i + 1) * max >= len,
        chunk_count(len, max) <= len || chunk_count(len, max) == 1,
        len > 0 ==> i * max < len,
{
    let n = chunk_count(len, max) as int;
    assert((i + 1) * max == i * max + max) by (nonlinear_arith);
    if len <= max {
        assert(i == 0);
        assert(i * max == 0) by (nonlinear_arith)
            requires
                i == 0,
        ;
    } else {
        let t = len + max - 1;
        let m = max as int;
        assert(n == t / m);
        assert(m * n <= t < m * n + m) by (nonlinear_arith)
            requires
                m > 0,
                n == t / m,
        ;
        assert((i + 1) * m <= n * m) by (nonlinear_arith)
            requires
                i + 1 <= n,
                m > 0,
        ;
        assert(n * m == m * n) by (nonlinear_arith);
        if i + 1 < n {
            assert((i + 2) * m <= n * m) by (nonlinear_arith)
                requires
                    i + 2 <= n,
                    m > 0,
            ;
            assert((i + 2) * m == (i + 1) * m + m) by (nonlinear_arith);
        }
        assert(0 <= i * m) by (nonlinear_arith)
            requires
                i >= 0,
                m > 0,
        ;
        assert(n <= m * n) by (nonlinear_arith)
            requires
                m >= 1,
                n >= 0,
        ;
        if max == 1 {
            assert(m * n == n) by (nonlinear_arith)
                requires
                    m == 1,
            ;
        } else {
            assert(2 * n <= m * n) by (nonlinear_arith)
                requires
                    m >= 2,
                    n >= 0,
            ;
        }
    }
}

/// Every value takes at least one chunk.
pub proof fn lemma_chunk_count(len: nat, max: nat)
    requires
        max > 0,
    ensures
        chunk_count(len, max) >= 1,
{
    if len > max {
        let t = len + max - 1;
        let m = max as int;
        assert(t / m >= 1) by (nonlinear_arith)
            requires
                t >= m,
                m > 0,
        ;
    }
}

/// Chunks joined in order.
pub open spec fn joined_data(entries: Seq<EntryView>) -> Seq<u8>
    decreases entries.len(),
{
    if entries.len() == 0 {
        Seq::empty()
    } else {
        joined_data(entries.drop_last()) + entries.last().data
    }
}

/// Cutting loses nothing: the chunks joined in order are the value. No chunk is
/// larger than the limit.
pub proof fn law_chunks_make_up_the_value(
    key: Seq<char>,
    generation: u64,
    value: Seq<u8>,
    max: nat,
)
    requires
        max > 0,
    ensures
        joined_data(chunks(key, generation, value, max)) == value,
        forall|i: int|
            0 <= i < chunks(key, generation, value, max).len() ==> (#[trigger] chunks(
                key,
                generation,
                value,
                max,
            )[i]).data.len() <= max,
{
    let all = chunks(key, generation, value, max);
    let n = all.len() as int;
    lemma_chunk_count(value.len(), max);
    lemma_joined_prefix(key, generation, value, max, n);
    assert(all.take(n) =~= all);
    lemma_chunk_bounds(value.len(), max, n - 1);
    assert(value.take(value.len() as int) =~= value);
    assert forall|i: int| 0 <= i < all.len() implies (#[trigger] all[i]).data.len() <= max by {
        lemma_chunk_bounds(value.len(), max, i);
    }
}

proof fn lemma_joined_prefix(
    key: Seq<char>,
    generation: u64,
    value: Seq<u8>,
    max: nat,
    n: int,
)
    requires
        max > 0,
        0 <= n <= chunk_count(value.len(), max),
    ensures
        joined_data(chunks(key, generation, value, max).take(n)) == value.take(
            if n * max < value.len() {
                n * max
            } else {
                value.len() as int
            },
        ),
    decreases n,
{
    let all = chunks(key, generation, value, max);
    if n == 0 {
        assert(0 * max == 0) by (nonlinear_arith);
        assert(all.take(0) =~= Seq::<EntryView>::empty());
        assert(value.take(0) =~= Seq::<u8>::empty());
    } else {
        lemma_joined_prefix(key, generation, value, max, n - 1);
        lemma_chunk_bounds(value.len(), max, n - 1);
        assert(all.take(n).drop_last() =~= all.take(n - 1));
        assert(all.take(n).last() == all[n - 1]);
        let from = (n - 1) * max;
        let to = if n * max < value.len() {
            n * max
        } else {
            value.len() as int
        };
        assert(chunk_data(value, max, n - 1) == value.subrange(from, to));
        assert(value.take(from) + value.subrange(from, to) =~= value.take(to));
        if from >= value.len() {
            assert(value.take(from) =~= value.take(value.len() as int));
        }
    }
}

/// Cut a value into chunks of at most `max` bytes.
pub fn chunk_value(key: String, generation: u64, value: Bytes, max: usize) -> (r: Vec<StreamEntry>)
    requires
        max > 0,
    ensures
        entries_view(r@) == chunks(key@, generation, contents(value), max as nat),
{
    let len = bytes_len(&value);
    let ghost data = contents(value);
    let ghost all = chunks(key@, generation, data, max as nat);
    let count: usize = if len <= max {
        1
    } else {
        (len - 1) / max + 1
    };
    proof {
        if len > max {
            let t = len + max - 1;
            let m = max as int;
            assert(t == (len - 1) + m);
            assert(t / m == (len - 1) / m + 1) by (nonlinear_arith)
                requires
                    t == (len - 1) + m,
                    m > 0,
            ;
        }
        assert(count == chunk_count(len as nat, max as nat));
    }
    let mut out: Vec<StreamEntry> = Vec::new();
    proof {
        assert(entries_view(out@) =~= all.take(0));
    }
    for i in 0..count
        invariant
            max > 0,
            data == contents(value),
            len == data.len(),
            count == chunk_count(len as nat, max as nat),
            all == chunks(key@, generation, data, max as nat),
            entries_view(out@) == all.take(i as int),
    {
        proof {
            lemma_chunk_bounds(len as nat, max as nat, i as int);
        }
        let from: usize = i * max;
        let to: usize = if len - from > max {
            from + max
        } else {
            len
        };
        let ghost before = out@;
        let entry = StreamEntry {
            key: key.clone(),
            generation,
            chunk_index: i as u64,
            total_chunks: count as u64,
            data: bytes_slice(&value, from, to),
        };
        out.push(entry);
        proof {
            assert(entry@ =~= all[i as int]);
            assert(entries_view(out@) =~= entries_view(before).push(entry@));
            assert(all.take(i + 1) =~= all.take(i as int).push(all[i as int]));
        }
    }
    assert(all.take(count as int) =~= all);
    out
}

// ---- Batches ----

/// Chunks that travel together.
#[derive(Debug)]
pub struct StreamBatch {
    pub entries: Vec<StreamEntry>,
}

impl View for StreamBatch {
    type V = Seq<EntryView>;

    open spec fn view(&self) -> Seq<EntryView> {
        entries_view(self.entries@)
    }
}

impl Default for StreamBatch {
    fn default() -> (r: Self)
        ensures
            r@ == Seq::<EntryView>::empty(),
    {
        let r = StreamBatch { entries: Vec::new() };
        assert(r@ =~= Seq::<EntryView>::empty());
        r
    }
}

/// What batches say.
pub open spec fn batches_view(batches: Seq<StreamBatch>) -> Seq<Seq<EntryView>> {
    batches.map_values(|b: StreamBatch| b@)
}

/// What a chunk says, as a function.
pub open spec fn entry_model() -> spec_fn(StreamEntry) -> EntryView {
    |e: StreamEntry| e@
}

/// The bytes of data in a chunk.
pub open spec fn entry_size() -> spec_fn(EntryView) -> nat {
    |e: EntryView| e.data.len()
}

/// Pack chunks into batches of at most `max_chunks` chunks and `max_bytes` bytes
/// of data.
pub fn build_stream_batches(
    entries: Vec<StreamEntry>,
    max_chunks: usize,
    max_bytes: usize,
) -> (r: Vec<StreamBatch>)
    ensures
        batches_view(r@) == packed(
            entries_view(entries@),
            entry_size(),
            max_chunks as nat,
            max_bytes as nat,
        ),
{
    let ghost all = entries_view(entries@);
    let size_of = |e: &StreamEntry| -> (r: u128)
        ensures
            r == contents(e.data).len(),
            r <= usize::MAX,
        { bytes_len(&e.data) as u128 };
    let groups = pack::<StreamEntry, EntryView, _>(
        entries,
        size_of,
        max_chunks,
        max_bytes,
        Ghost(entry_model()),
        Ghost(entry_size()),
    );
    let ghost views = groups_view(groups@, entry_model());
    let mut batches: Vec<StreamBatch> = Vec::new();
    proof {
        assert(batches_view(batches@) =~= views.take(0));
    }
    for entries in it: groups.into_iter()
        invariant
            it.seq() == groups@,
            views == groups_view(groups@, entry_model()),
            batches_view(batches@) == views.take(it.index() as int),
    {
        let ghost before = batches_view(batches@);
        let batch = StreamBatch { entries };
        let ghost view = batch@;
        batches.push(batch);
        proof {
            assert(views[it.index() as int] =~= view);
            assert(batches_view(batches@) =~= before.push(view));
            assert(views.take(it.index() + 1) =~= views.take(it.index() as int).push(view));
        }
    }
    proof {
        assert(views.take(views.len() as int) =~= views);
        assert(entries@.map_values(entry_model()) =~= all);
    }
    batches
}

} // verus!
