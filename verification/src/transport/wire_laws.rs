//! What is sent, how it is cut and packed, and how it is put together again, in plain
//! numbers.
use super::chunk_assembler::{
    fragments, joined, law_assembled_value_is_the_one_sent, parts_ascend, with_part, Arriving,
    PendingView,
};
use super::chunking::{
    chunk_count, chunk_data, chunks, entry_size, lemma_chunk_bounds, lemma_chunk_count, next_number,
    DEFAULT_MAX_CHUNKS_PER_BATCH, MAX_STREAM_CHUNK_BYTES, EntryView,
};
use super::crdt_batch::op_size;
use super::packing::{fits, law_groups_carry_the_items, packed, total_size, unpacked, within_limits};
use super::sync_stream::{
    addressed_to, arriving_after, arriving_after_all, chunks_of, completed_by, completed_by_all,
    number_after, values_for, NoteView,
};
use crate::crdt_kv::operation::OpView;
use crate::kv::RoundView;
use vstd::prelude::*;
use vstd::utf8::encode_utf8;

verus! {

// ---- Numbers ----

/// Numbers go up by one, and from the largest back to zero.
pub proof fn law_numbers_go_round(last: u64, n: nat)
    ensures
        next_number(last) as int == (last + 1) % 0x1_0000_0000_0000_0000,
        number_after(last, n) as int == (last + n) % 0x1_0000_0000_0000_0000,
    decreases n,
{
    if n > 0 {
        law_numbers_go_round(last, (n - 1) as nat);
        let before = number_after(last, (n - 1) as nat);
        assert(next_number(before) as int == (before + 1) % 0x1_0000_0000_0000_0000);
        assert(((last + n - 1) % 0x1_0000_0000_0000_0000 + 1) % 0x1_0000_0000_0000_0000 == (last
            + n) % 0x1_0000_0000_0000_0000) by (nonlinear_arith);
    }
}

// ---- Cutting ----

/// A value that fits is one chunk, also where it is empty. Of a larger one every
/// chunk but the last is full, and the last holds what is left. Each chunk says of
/// which key and value it is, the how many-th, and of how many.
pub proof fn law_how_a_value_is_cut(
    key: Seq<char>,
    generation: u64,
    value: Seq<u8>,
    max: nat,
)
    requires
        max > 0,
        value.len() <= u64::MAX,
    ensures
        ({
            let all = chunks(key, generation, value, max);
            let n = all.len() as int;
            &&& n >= 1
            &&& value.len() <= max <==> n == 1
            &&& (n - 1) * max < value.len() || n == 1
            &&& value.len() <= n * max
            &&& forall|i: int|
                0 <= i < n ==> {
                    &&& (#[trigger] all[i]).key == key
                    &&& all[i].generation == generation
                    &&& all[i].chunk_index == i
                    &&& all[i].total_chunks == n
                    &&& i + 1 < n ==> all[i].data.len() == max
                    &&& i + 1 == n ==> all[i].data.len() == value.len() - i * max
                    &&& forall|j: int|
                        0 <= j < all[i].data.len() ==> #[trigger] all[i].data[j] == value[i * max
                            + j]
                }
        }),
{
    let all = chunks(key, generation, value, max);
    let n = all.len() as int;
    lemma_chunk_count(value.len(), max);
    lemma_chunk_bounds(value.len(), max, n - 1);
    if n > 1 && value.len() <= max {
        lemma_chunk_bounds(value.len(), max, 0);
    }
    assert forall|i: int| 0 <= i < n implies {
        &&& (#[trigger] all[i]).key == key
        &&& all[i].generation == generation
        &&& all[i].chunk_index == i
        &&& all[i].total_chunks == n
        &&& i + 1 < n ==> all[i].data.len() == max
        &&& i + 1 == n ==> all[i].data.len() == value.len() - i * max
        &&& forall|j: int|
            0 <= j < all[i].data.len() ==> #[trigger] all[i].data[j] == value[i * max + j]
    } by {
        lemma_chunk_bounds(value.len(), max, i);
    }
}

// ---- Packing ----

/// The sizes of items together.
pub open spec fn sum_sizes<V>(items: Seq<V>, size: spec_fn(V) -> nat) -> nat
    decreases items.len(),
{
    if items.len() == 0 {
        0
    } else {
        size(items[0]) + sum_sizes(items.drop_first(), size)
    }
}

proof fn lemma_sum_more<V>(items: Seq<V>, last: V, size: spec_fn(V) -> nat)
    ensures
        sum_sizes(items.push(last), size) == sum_sizes(items, size) + size(last),
    decreases items.len(),
{
    let more = items.push(last);
    if items.len() == 0 {
        assert(more.drop_first() =~= items);
    } else {
        assert(more.drop_first() =~= items.drop_first().push(last));
        lemma_sum_more(items.drop_first(), last, size);
    }
}

proof fn lemma_sum<V>(items: Seq<V>, size: spec_fn(V) -> nat)
    ensures
        sum_sizes(items, size) == total_size(items, size),
    decreases items.len(),
{
    if items.len() > 0 {
        lemma_sum(items.drop_last(), size);
        assert(items =~= items.drop_last().push(items.last()));
        lemma_sum_more(items.drop_last(), items.last(), size);
    }
}

/// Items are packed in their order, each into the group before it where it still
/// fits: a group of more than one item keeps to both limits, and the first item of
/// the next group would have gone over one of them.
pub proof fn law_groups_are_filled<V>(
    items: Seq<V>,
    size: spec_fn(V) -> nat,
    max_items: nat,
    max_size: nat,
)
    ensures
        ({
            let groups = packed(items, size, max_items, max_size);
            &&& groups.flatten() == items
            &&& forall|g: int|
                0 <= g < groups.len() ==> (#[trigger] groups[g]).len() > 0 && (groups[g].len() > 1
                    ==> groups[g].len() <= max_items && sum_sizes(groups[g], size) <= max_size)
            &&& forall|g: int|
                #![trigger groups[g]]
                0 < g < groups.len() ==> groups[g - 1].len() >= max_items || sum_sizes(
                    groups[g - 1],
                    size,
                ) + size(groups[g][0]) > max_size
        }),
    decreases items.len(),
{
    let groups = packed(items, size, max_items, max_size);
    law_groups_carry_the_items(items, size, max_items, max_size);
    lemma_flat(groups);
    assert forall|g: int| 0 <= g < groups.len() implies (#[trigger] groups[g]).len() > 0 && (
    groups[g].len() > 1 ==> groups[g].len() <= max_items && sum_sizes(groups[g], size)
        <= max_size) by {
        lemma_sum(groups[g], size);
        assert(within_limits(groups[g], size, max_items, max_size));
    }
    lemma_filled(items, size, max_items, max_size);
}

proof fn lemma_flat<V>(groups: Seq<Seq<V>>)
    ensures
        groups.flatten() == unpacked(groups),
    decreases groups.len(),
{
    groups.lemma_flatten_and_flatten_alt_are_equivalent();
    if groups.len() > 0 {
        lemma_flat(groups.drop_last());
        groups.drop_last().lemma_flatten_and_flatten_alt_are_equivalent();
    } else {
        assert(groups.flatten() =~= unpacked(groups));
    }
}

proof fn lemma_filled<V>(
    items: Seq<V>,
    size: spec_fn(V) -> nat,
    max_items: nat,
    max_size: nat,
)
    ensures
        ({
            let groups = packed(items, size, max_items, max_size);
            forall|g: int|
                #![trigger groups[g]]
                0 < g < groups.len() ==> groups[g].len() > 0 && (groups[g - 1].len() >= max_items
                    || sum_sizes(groups[g - 1], size) + size(groups[g][0]) > max_size)
        }),
    decreases items.len(),
{
    if items.len() > 0 {
        let init = items.drop_last();
        let item = items.last();
        let before = packed(init, size, max_items, max_size);
        let groups = packed(items, size, max_items, max_size);
        lemma_filled(init, size, max_items, max_size);
        law_groups_carry_the_items(init, size, max_items, max_size);
        assert forall|g: int| #![trigger groups[g]] 0 < g < groups.len() implies groups[g].len() > 0
            && (groups[g - 1].len() >= max_items || sum_sizes(groups[g - 1], size) + size(
            groups[g][0],
        ) > max_size) by {
            lemma_sum(groups[g - 1], size);
            if g < before.len() {
                assert(before[g].len() > 0) by {
                    assert(within_limits(before[g], size, max_items, max_size));
                }
                assert(groups[g - 1] == before[g - 1]);
                assert(groups[g][0] == before[g][0]);
            } else {
                assert(groups[g] == seq![item]);
                assert(groups[g - 1] == before.last());
            }
        }
    }
}

/// The size of a chunk is that of its data, and the size of an operation that of its
/// key and its value and twenty-four bytes more.
pub proof fn law_sizes(e: EntryView, op: OpView)
    ensures
        entry_size()(e) == e.data.len(),
        op.value is None ==> op_size()(op) == encode_utf8(op.key).len() + 24,
        op.value is Some ==> op_size()(op) == encode_utf8(op.key).len() + op.value->0.len() + 24,
{
}

// ---- What a peer is sent ----

/// A peer is sent what is for every peer, and behind it what is for itself and for no
/// other, each in its order. A peer without a name is sent only what is for all.
pub proof fn law_what_is_sent_to_a_peer(round: RoundView, peer: Seq<char>)
    ensures
        peer.len() > 0 ==> values_for(round, peer) == round.drain + round.targeted.filter(
            |t: (Seq<char>, Seq<char>, Seq<u8>)| t.0 == peer,
        ).map_values(|t: (Seq<char>, Seq<char>, Seq<u8>)| (t.1, t.2)),
        peer.len() == 0 ==> values_for(round, peer) == round.drain,
{
    lemma_addressed(round.targeted, peer);
    assert(round.drain + Seq::<(Seq<char>, Seq<u8>)>::empty() =~= round.drain);
}

proof fn lemma_addressed(targeted: Seq<(Seq<char>, Seq<char>, Seq<u8>)>, peer: Seq<char>)
    ensures
        addressed_to(targeted, peer) == targeted.filter(
            |t: (Seq<char>, Seq<char>, Seq<u8>)| t.0 == peer,
        ).map_values(|t: (Seq<char>, Seq<char>, Seq<u8>)| (t.1, t.2)),
    decreases targeted.len(),
{
    reveal(Seq::filter);
    let p = |t: (Seq<char>, Seq<char>, Seq<u8>)| t.0 == peer;
    let f = |t: (Seq<char>, Seq<char>, Seq<u8>)| (t.1, t.2);
    if targeted.len() == 0 {
        assert(addressed_to(targeted, peer) =~= targeted.filter(p).map_values(f));
    } else {
        let init = targeted.drop_last();
        let last = targeted.last();
        lemma_addressed(init, peer);
        assert(targeted.filter(p) == (if p(last) {
            init.filter(p).push(last)
        } else {
            init.filter(p)
        }));
        assert(init.filter(p).push(last).map_values(f) =~= init.filter(p).map_values(f).push(
            f(last),
        ));
    }
}

/// Every value that is sent is cut by itself, into chunks of at most ten mebibytes,
/// under a number of its own.
pub proof fn law_values_are_cut_one_by_one(
    values: Seq<(Seq<char>, Seq<u8>)>,
    last: u64,
    key: Seq<char>,
    value: Seq<u8>,
)
    ensures
        chunks_of(Seq::empty(), last).len() == 0,
        exists|number: u64|
            number as int == (last + values.len() + 1) % 0x1_0000_0000_0000_0000 && chunks_of(
                values.push((key, value)),
                last,
            ) == chunks_of(values, last) + #[trigger] chunks(key, number, value, 10 * 1024 * 1024),
{
    let more = values.push((key, value));
    assert(more.drop_last() =~= values);
    law_numbers_go_round(last, more.len());
    let number = number_after(last, more.len());
    assert(chunks_of(more, last) == chunks_of(values, last) + chunks(
        key,
        number,
        value,
        10 * 1024 * 1024,
    ));
}

/// A batch of chunks holds at most sixty-four of them.
pub proof fn law_batch_limits()
    ensures
        DEFAULT_MAX_CHUNKS_PER_BATCH == 64,
        MAX_STREAM_CHUNK_BYTES == 10 * 1024 * 1024,
{
}

// ---- Putting together ----

/// One more chunk takes its place by its index, instead of one of the same index, and
/// the others stay.
pub proof fn law_chunk_takes_its_place(
    parts: Seq<(u64, Seq<u8>)>,
    index: u64,
    data: Seq<u8>,
    other: (u64, Seq<u8>),
)
    requires
        forall|i: int, j: int|
            0 <= i < j < parts.len() ==> (#[trigger] parts[i]).0 < (#[trigger] parts[j]).0,
    ensures
        ({
            let now = with_part(parts, index, data);
            &&& forall|i: int, j: int|
                0 <= i < j < now.len() ==> (#[trigger] now[i]).0 < (#[trigger] now[j]).0
            &&& now.contains(other) <==> other == (index, data) || (other.0 != index
                && parts.contains(other))
            &&& now.len() == parts.len() + 1 || (now.len() == parts.len() && exists|i: int|
                0 <= i < parts.len() && (#[trigger] parts[i]).0 == index)
            &&& (exists|i: int| 0 <= i < parts.len() && (#[trigger] parts[i]).0 == index)
                ==> now.len() == parts.len()
        }),
    decreases parts.len(),
{
    let now = with_part(parts, index, data);
    if parts.len() == 0 {
        assert(now =~= seq![(index, data)]);
        assert(now[0] == (index, data));
    } else {
        let init = parts.drop_last();
        let last = parts.last();
        assert(parts[parts.len() - 1] == last);
        assert(parts =~= init.push(last));
        assert(parts.contains(other) <==> init.contains(other) || other == last) by {
            if parts.contains(other) && other != last {
                let i = choose|i: int| 0 <= i < parts.len() && parts[i] == other;
                assert(init[i] == other);
            }
            if init.contains(other) {
                let i = choose|i: int| 0 <= i < init.len() && init[i] == other;
                assert(parts[i] == other);
            }
        }
        assert forall|i: int| 0 <= i < init.len() implies (#[trigger] init[i]).0 < last.0 by {
            assert(parts[i].0 < parts[parts.len() - 1].0);
        }
        if last.0 < index {
            assert(now[parts.len() as int] == (index, data));
            assert(now.contains(other) <==> other == (index, data) || parts.contains(other)) by {
                if parts.contains(other) {
                    let i = choose|i: int| 0 <= i < parts.len() && parts[i] == other;
                    assert(now[i] == other);
                }
                if now.contains(other) && other != (index, data) {
                    let i = choose|i: int| 0 <= i < now.len() && now[i] == other;
                    assert(parts[i] == other);
                }
            }
        } else if last.0 == index {
            assert(now[init.len() as int] == (index, data));
            assert(now.contains(other) <==> other == (index, data) || init.contains(other)) by {
                if init.contains(other) {
                    let i = choose|i: int| 0 <= i < init.len() && init[i] == other;
                    assert(now[i] == other);
                }
                if now.contains(other) && other != (index, data) {
                    let i = choose|i: int| 0 <= i < now.len() && now[i] == other;
                    assert(init[i] == other);
                }
            }
        } else {
            law_chunk_takes_its_place(init, index, data, other);
            let s = with_part(init, index, data);
            assert(now =~= s.push(last));
            assert(now[s.len() as int] == last);
            assert forall|i: int| 0 <= i < s.len() implies (#[trigger] s[i]).0 < last.0 by {
                law_chunk_takes_its_place(init, index, data, s[i]);
                assert(s.contains(s[i]));
                if s[i] != (index, data) {
                    let j = choose|j: int| 0 <= j < init.len() && init[j] == s[i];
                    assert(init[j].0 < last.0);
                }
            }
            assert(now.contains(other) <==> s.contains(other) || other == last) by {
                if s.contains(other) {
                    let i = choose|i: int| 0 <= i < s.len() && s[i] == other;
                    assert(now[i] == other);
                }
                if now.contains(other) && other != last {
                    let i = choose|i: int| 0 <= i < now.len() && now[i] == other;
                    assert(s[i] == other);
                }
            }
            if exists|i: int| 0 <= i < parts.len() && (#[trigger] parts[i]).0 == index {
                let i = choose|i: int| 0 <= i < parts.len() && (#[trigger] parts[i]).0 == index;
                assert(init[i].0 == index);
            }
            if exists|i: int| 0 <= i < init.len() && (#[trigger] init[i]).0 == index {
                let i = choose|i: int| 0 <= i < init.len() && (#[trigger] init[i]).0 == index;
                assert(parts[i].0 == index);
            }
        }
    }
}

/// What one chunk brings. One that is a whole value is handed on at once, and ends
/// what was arriving under its key. One whose index is out of range is passed over.
/// Chunks of one value are kept until all are there, and a chunk of another value
/// begins anew. What comes from another peer or for another key stays as it is.
pub proof fn law_one_chunk(arriving: Arriving, peer: Seq<char>, e: EntryView)
    ensures
        ({
            let at = (peer, e.key);
            let now = arriving_after(arriving, peer, e);
            let note = completed_by(arriving, peer, e);
            let same = arriving.contains_key(at) && arriving[at].generation == e.generation
                && arriving[at].total == e.total_chunks;
            let parts = if same {
                with_part(arriving[at].parts, e.chunk_index, e.data)
            } else {
                seq![(e.chunk_index, e.data)]
            };
            &&& forall|other: (Seq<char>, Seq<char>)|
                other != at ==> {
                    &&& #[trigger] now.contains_key(other) <==> arriving.contains_key(other)
                    &&& arriving.contains_key(other) ==> now[other] == arriving[other]
                }
            &&& e.total_chunks == 1 ==> !now.contains_key(at) && note == Some(
                NoteView { key: e.key, fragments: seq![e.data] },
            )
            &&& e.total_chunks != 1 && e.chunk_index >= e.total_chunks ==> now == arriving
                && note is None
            &&& e.total_chunks != 1 && e.chunk_index < e.total_chunks && parts.len()
                < e.total_chunks ==> note is None && now.contains_key(at) && now[at] == (
            PendingView { generation: e.generation, total: e.total_chunks, parts })
            &&& e.total_chunks != 1 && e.chunk_index < e.total_chunks && parts.len()
                == e.total_chunks ==> {
                &&& !now.contains_key(at)
                &&& note is Some && note->0.key == e.key
                &&& note->0.fragments.len() == parts.len()
                &&& forall|i: int|
                    0 <= i < parts.len() ==> #[trigger] note->0.fragments[i] == parts[i].1
            }
        }),
{
}

/// The chunk of a value that comes as the `k`th where they come in this order.
pub open spec fn in_order(sent: Seq<EntryView>, order: Seq<int>) -> Seq<EntryView> {
    Seq::new(order.len(), |k: int| sent[order[k]])
}

/// All numbers below `n`, each once.
pub open spec fn is_order(order: Seq<int>, n: int) -> bool {
    &&& order.len() == n
    &&& forall|k: int| 0 <= k < n ==> 0 <= #[trigger] order[k] < n
    &&& forall|i: int, k: int| 0 <= i < k < n ==> #[trigger] order[i] != #[trigger] order[k]
}

proof fn lemma_some_arrived(
    arriving: Arriving,
    peer: Seq<char>,
    key: Seq<char>,
    generation: u64,
    value: Seq<u8>,
    max: nat,
    order: Seq<int>,
    k: int,
)
    requires
        max > 0,
        value.len() <= u64::MAX,
        chunk_count(value.len(), max) > 1,
        !arriving.contains_key((peer, key)),
        is_order(order, chunk_count(value.len(), max) as int),
        0 < k < order.len(),
    ensures
        ({
            let come = in_order(chunks(key, generation, value, max), order).take(k);
            let now = arriving_after_all(arriving, peer, come);
            let at = (peer, key);
            &&& completed_by_all(arriving, peer, come).len() == 0
            &&& now.contains_key(at)
            &&& now == arriving.insert(at, now[at])
            &&& now[at].generation == generation
            &&& now[at].total == chunk_count(value.len(), max)
            &&& now[at].parts.len() == k
            &&& parts_ascend(now[at].parts)
            &&& forall|p: (u64, Seq<u8>)| #[trigger]
                now[at].parts.contains(p) ==> p.1 == chunk_data(value, max, p.0 as int)
                    && exists|j: int| 0 <= j < k && #[trigger] order[j] == p.0
        }),
    decreases k,
{
    let sent = chunks(key, generation, value, max);
    let all = in_order(sent, order);
    let n = chunk_count(value.len(), max) as int;
    let come = all.take(k);
    let at = (peer, key);
    let init = all.take(k - 1);
    law_how_a_value_is_cut(key, generation, value, max);
    assert(0 <= order[k - 1] < n);
    let e = sent[order[k - 1]];
    assert(come.drop_last() =~= init);
    assert(come.last() == e);
    let mid = arriving_after_all(arriving, peer, init);
    let now = arriving_after_all(arriving, peer, come);
    if k == 1 {
        assert(init.len() == 0);
        assert(mid == arriving);
        assert(completed_by_all(arriving, peer, init).len() == 0);
        law_one_chunk(mid, peer, e);
        let parts = seq![(e.chunk_index, e.data)];
        assert(now[at].parts == parts);
        assert(now =~= arriving.insert(at, now[at]));
        assert forall|p: (u64, Seq<u8>)| #[trigger] now[at].parts.contains(p) implies p.1
            == chunk_data(value, max, p.0 as int) && exists|j: int|
            0 <= j < k && #[trigger] order[j] == p.0 by {
            assert(p == parts[0]);
            assert(order[0] == p.0);
        }
    } else {
        lemma_some_arrived(arriving, peer, key, generation, value, max, order, k - 1);
        law_one_chunk(mid, peer, e);
        let old_parts = mid[at].parts;
        let parts = with_part(old_parts, e.chunk_index, e.data);
        law_chunk_takes_its_place(old_parts, e.chunk_index, e.data, (e.chunk_index, e.data));
        if exists|i: int| 0 <= i < old_parts.len() && (#[trigger] old_parts[i]).0 == e.chunk_index {
            let i = choose|i: int|
                0 <= i < old_parts.len() && (#[trigger] old_parts[i]).0 == e.chunk_index;
            assert(old_parts.contains(old_parts[i]));
            let j = choose|j: int| 0 <= j < k - 1 && #[trigger] order[j] == old_parts[i].0;
            assert(order[j] != order[k - 1]);
        }
        assert(parts.len() == k);
        assert(now[at].parts == parts);
        assert(now =~= arriving.insert(at, now[at]));
        assert forall|p: (u64, Seq<u8>)| #[trigger] now[at].parts.contains(p) implies p.1
            == chunk_data(value, max, p.0 as int) && exists|j: int|
            0 <= j < k && #[trigger] order[j] == p.0 by {
            law_chunk_takes_its_place(old_parts, e.chunk_index, e.data, p);
            if p == (e.chunk_index, e.data) {
                assert(order[k - 1] == p.0);
            } else {
                let j = choose|j: int| 0 <= j < k - 1 && #[trigger] order[j] == p.0;
                assert(order[j] == p.0);
            }
        }
    }
}

/// A value that was cut reaches the subscribers whole and once, in whatever order its
/// chunks come. Nothing of it stays behind.
pub proof fn law_value_arrives_in_any_order(
    arriving: Arriving,
    peer: Seq<char>,
    key: Seq<char>,
    generation: u64,
    value: Seq<u8>,
    max: nat,
    order: Seq<int>,
)
    requires
        max > 0,
        value.len() <= u64::MAX,
        !arriving.contains_key((peer, key)),
        is_order(order, chunks(key, generation, value, max).len() as int),
    ensures
        ({
            let come = in_order(chunks(key, generation, value, max), order);
            let notes = completed_by_all(arriving, peer, come);
            &&& notes.len() == 1
            &&& notes[0].key == key
            &&& notes[0].fragments.flatten() == value
            &&& arriving_after_all(arriving, peer, come) == arriving
        }),
{
    let sent = chunks(key, generation, value, max);
    let come = in_order(sent, order);
    let n = sent.len() as int;
    let at = (peer, key);
    law_how_a_value_is_cut(key, generation, value, max);
    let init = come.drop_last();
    let mid = arriving_after_all(arriving, peer, init);
    assert(0 <= order[n - 1] < n);
    let e = sent[order[n - 1]];
    assert(come.last() == e);
    law_one_chunk(mid, peer, e);
    let notes = completed_by_all(arriving, peer, come);
    if n == 1 {
        assert(init.len() == 0);
        assert(completed_by_all(arriving, peer, init).len() == 0);
        assert(mid == arriving);
        assert(arriving_after_all(arriving, peer, come) =~= arriving);
        let f = seq![e.data];
        assert(notes =~= seq![NoteView { key, fragments: f }]);
        assert forall|j: int| 0 <= j < value.len() implies e.data[j] == #[trigger] value[j] by {
            assert(e.data[j] == value[0 * max + j]);
        }
        assert(e.data =~= value);
        f.lemma_flatten_one_element();
    } else {
        assert(init =~= come.take(n - 1));
        lemma_some_arrived(arriving, peer, key, generation, value, max, order, n - 1);
        let old_parts = mid[at].parts;
        let parts = with_part(old_parts, e.chunk_index, e.data);
        law_chunk_takes_its_place(old_parts, e.chunk_index, e.data, (e.chunk_index, e.data));
        if exists|i: int| 0 <= i < old_parts.len() && (#[trigger] old_parts[i]).0 == e.chunk_index {
            let i = choose|i: int|
                0 <= i < old_parts.len() && (#[trigger] old_parts[i]).0 == e.chunk_index;
            assert(old_parts.contains(old_parts[i]));
            let j = choose|j: int| 0 <= j < n - 1 && #[trigger] order[j] == old_parts[i].0;
            assert(order[j] != order[n - 1]);
        }
        assert(parts.len() == n);
        assert(parts_ascend(parts));
        assert forall|i: int| 0 <= i < parts.len() implies (#[trigger] parts[i]).0 < n
            && parts[i].1 == chunk_data(value, max, parts[i].0 as int) by {
            let p = parts[i];
            law_chunk_takes_its_place(old_parts, e.chunk_index, e.data, p);
            assert(parts.contains(p));
            if p != (e.chunk_index, e.data) {
                let j = choose|j: int| 0 <= j < n - 1 && #[trigger] order[j] == p.0;
                assert(0 <= order[j] < n);
            }
        }
        law_assembled_value_is_the_one_sent(key, generation, value, max, parts, n as u64);
        assert(arriving_after_all(arriving, peer, come) =~= arriving);
        assert(notes =~= seq![NoteView { key, fragments: fragments(parts) }]);
        lemma_joined_flat(fragments(parts));
    }
}

proof fn lemma_joined_flat(f: Seq<Seq<u8>>)
    ensures
        f.flatten() == joined(f),
    decreases f.len(),
{
    f.lemma_flatten_and_flatten_alt_are_equivalent();
    if f.len() > 0 {
        lemma_joined_flat(f.drop_last());
        f.drop_last().lemma_flatten_and_flatten_alt_are_equivalent();
    } else {
        assert(f.flatten() =~= joined(f));
    }
}

// ---- From one node to the other ----

proof fn lemma_arrivals_join(
    arriving: Arriving,
    peer: Seq<char>,
    a: Seq<EntryView>,
    b: Seq<EntryView>,
)
    ensures
        arriving_after_all(arriving, peer, a + b) == arriving_after_all(
            arriving_after_all(arriving, peer, a),
            peer,
            b,
        ),
        completed_by_all(arriving, peer, a + b) == completed_by_all(arriving, peer, a)
            + completed_by_all(arriving_after_all(arriving, peer, a), peer, b),
    decreases b.len(),
{
    if b.len() == 0 {
        assert(a + b =~= a);
        assert(completed_by_all(arriving, peer, a) + Seq::<NoteView>::empty() =~= completed_by_all(
            arriving,
            peer,
            a,
        ));
    } else {
        lemma_arrivals_join(arriving, peer, a, b.drop_last());
        assert((a + b).drop_last() =~= a + b.drop_last());
        assert((a + b).last() == b.last());
        assert(completed_by_all(arriving, peer, a + b) =~= completed_by_all(arriving, peer, a)
            + completed_by_all(arriving_after_all(arriving, peer, a), peer, b));
    }
}

/// Every value that is sent arrives, whole, once and in the order of sending, and
/// nothing stays behind.
pub proof fn law_every_value_sent_arrives(
    arriving: Arriving,
    peer: Seq<char>,
    values: Seq<(Seq<char>, Seq<u8>)>,
    last: u64,
)
    requires
        forall|i: int| 0 <= i < values.len() ==> (#[trigger] values[i]).1.len() <= u64::MAX,
        forall|i: int|
            0 <= i < values.len() ==> !arriving.contains_key((peer, (#[trigger] values[i]).0)),
    ensures
        ({
            let notes = completed_by_all(arriving, peer, chunks_of(values, last));
            &&& notes.len() == values.len()
            &&& forall|i: int|
                0 <= i < values.len() ==> notes[i].key == (#[trigger] values[i]).0
                    && notes[i].fragments.flatten() == values[i].1
            &&& arriving_after_all(arriving, peer, chunks_of(values, last)) == arriving
        }),
    decreases values.len(),
{
    if values.len() > 0 {
        let init = values.drop_last();
        let n = values.len() - 1;
        let (key, value) = values.last();
        assert(values[n] == values.last());
        assert forall|i: int| 0 <= i < init.len() implies (#[trigger] init[i]).1.len() <= u64::MAX
            && !arriving.contains_key((peer, init[i].0)) by {
            assert(values[i] == init[i]);
        }
        law_every_value_sent_arrives(arriving, peer, init, last);
        let number = number_after(last, values.len());
        let max = MAX_STREAM_CHUNK_BYTES as nat;
        let sent = chunks(key, number, value, max);
        law_how_a_value_is_cut(key, number, value, max);
        let order = Seq::new(sent.len(), |i: int| i);
        assert(in_order(sent, order) =~= sent);
        law_value_arrives_in_any_order(arriving, peer, key, number, value, max, order);
        lemma_arrivals_join(arriving, peer, chunks_of(init, last), sent);
        let notes = completed_by_all(arriving, peer, chunks_of(values, last));
        assert forall|i: int| 0 <= i < values.len() implies notes[i].key == (#[trigger] values[i]).0
            && notes[i].fragments.flatten() == values[i].1 by {
            if i < n {
                assert(init[i] == values[i]);
            }
        }
    }
}

} // verus!
