//! How reasoning and answer are told apart, in complete texts and in streams.
use super::base::{
    fresh, is_partial, progress, progress_all, split_at_end, told_apart, without, without_from,
    ConfigView, Progress, ReasoningView, Split,
};
use crate::text::{contains_text, find_spec, joined};
use crate::text_laws::{law_first_place_is_found, law_occurrence_is_every_character, stands_at};
use vstd::prelude::*;

verus! {

/// The marker stands nowhere in the text.
pub open spec fn holds_none(text: Seq<char>, marker: Seq<char>) -> bool {
    forall|i: int| !#[trigger] stands_at(text, marker, i)
}

/// The first place where the marker stands in `a + marker + b` is behind `a`.
pub open spec fn first_behind(a: Seq<char>, marker: Seq<char>, b: Seq<char>) -> bool {
    forall|i: int| 0 <= i < a.len() ==> !#[trigger] stands_at(a + marker + b, marker, i)
}

/// A text begins a marker, but is not all of it.
pub open spec fn begins(text: Seq<char>, marker: Seq<char>) -> bool {
    &&& text.len() < marker.len()
    &&& forall|j: int| 0 <= j < text.len() ==> #[trigger] text[j] == marker[j]
}

proof fn lemma_partial(text: Seq<char>, marker: Seq<char>)
    ensures
        is_partial(text, marker) <==> begins(text, marker),
{
    law_occurrence_is_every_character(marker, text, 0);
    if is_partial(text, marker) {
        if text.len() == marker.len() {
            assert(text =~= marker);
        }
        assert forall|j: int| 0 <= j < text.len() implies #[trigger] text[j] == marker[j] by {
            assert(text[j] == marker[0 + j]);
        }
    }
    if begins(text, marker) {
        assert forall|j: int| 0 <= j < text.len() implies #[trigger] text[j] == marker[0 + j] by {}
    }
}

proof fn lemma_contains(text: Seq<char>, marker: Seq<char>)
    ensures
        contains_text(text, marker) <==> !holds_none(text, marker),
{
    law_first_place_is_found(text, marker, 0);
}

proof fn lemma_split_behind(a: Seq<char>, marker: Seq<char>, b: Seq<char>)
    requires
        first_behind(a, marker, b),
    ensures
        split_at_end(a + marker + b, marker) == (Split { normal: b, reasoning: a }),
        contains_text(a + marker + b, marker),
{
    let text = a + marker + b;
    assert(stands_at(text, marker, a.len() as int));
    law_first_place_is_found(text, marker, 0);
    let at = find_spec(text, marker, 0)->0;
    assert(at == a.len());
    assert(text.take(at) =~= a);
    assert(text.skip(at + marker.len()) =~= b);
}

proof fn lemma_start_dropped(start: Seq<char>, rest: Seq<char>)
    requires
        start.len() > 0,
        holds_none(rest, start),
    ensures
        without(start + rest, start) == rest,
        contains_text(start + rest, start),
{
    let text = start + rest;
    let n = start.len() as int;
    assert(stands_at(text, start, 0));
    law_first_place_is_found(text, start, 0);
    law_first_place_is_found(text, start, n);
    assert(find_spec(text, start, 0) == Some(0int));
    if let Some(at) = find_spec(text, start, n) {
        assert(stands_at(rest, start, at - n)) by {
            assert forall|j: int| 0 <= j < start.len() implies #[trigger] start[j] == rest[at - n
                + j] by {
                assert(start[j] == text[at + j]);
            }
        }
    }
    assert(without_from(text, start, n) =~= rest);
    assert(text.subrange(0, 0) + rest =~= rest);
}

// ---- Complete texts ----

/// Of a complete text, what stands between the start marker and the first end
/// marker is the reasoning, and what stands behind the end marker is the answer.
/// Where reasoning has begun before, no start marker is needed.
pub proof fn law_reasoning_stands_between_the_markers(
    config: ConfigView,
    reasoning: Seq<char>,
    answer: Seq<char>,
    begun: bool,
)
    requires
        config.start.len() > 0,
        first_behind(reasoning, config.end, answer),
        holds_none(reasoning + config.end + answer, config.start),
    ensures
        told_apart(config, begun, config.start + (reasoning + config.end + answer)) == (Split {
            normal: answer,
            reasoning,
        }),
        told_apart(config, true, reasoning + config.end + answer) == (Split {
            normal: answer,
            reasoning,
        }),
{
    let rest = reasoning + config.end + answer;
    lemma_start_dropped(config.start, rest);
    lemma_split_behind(reasoning, config.end, answer);
    lemma_contains(rest, config.start);
    super::base::lemma_without_nothing(rest, config.start);
}

/// Reasoning that has begun and has no end marker is all of a complete text.
pub proof fn law_unfinished_reasoning_is_all_reasoning(
    config: ConfigView,
    reasoning: Seq<char>,
    begun: bool,
)
    requires
        config.start.len() > 0,
        holds_none(reasoning, config.start),
        holds_none(reasoning, config.end),
    ensures
        told_apart(config, begun, config.start + reasoning) == (Split {
            normal: Seq::empty(),
            reasoning,
        }),
        told_apart(config, true, reasoning) == (Split { normal: Seq::empty(), reasoning }),
        told_apart(config, false, reasoning) == (Split {
            normal: reasoning,
            reasoning: Seq::empty(),
        }),
{
    lemma_start_dropped(config.start, reasoning);
    lemma_contains(reasoning, config.start);
    lemma_contains(reasoning, config.end);
    super::base::lemma_without_nothing(reasoning, config.start);
}

/// A start marker is dropped wherever it stands, and nothing else is.
pub proof fn law_start_markers_are_dropped(start: Seq<char>, a: Seq<char>, b: Seq<char>)
    requires
        start.len() > 0,
        first_behind(a, start, b),
    ensures
        without(a + start + b, start) == a + without(b, start),
        holds_none(b, start) ==> without(a + start + b, start) == a + b,
        holds_none(b, start) ==> without(b, start) == b,
{
    let text = a + start + b;
    let n = (a.len() + start.len()) as int;
    assert(stands_at(text, start, a.len() as int));
    law_first_place_is_found(text, start, 0);
    assert(find_spec(text, start, 0) == Some(a.len() as int));
    assert(text.subrange(0, a.len() as int) =~= a);
    lemma_without_shift(start, a + start, b, 0);
    lemma_contains(b, start);
    if holds_none(b, start) {
        super::base::lemma_without_nothing(b, start);
    }
}

proof fn lemma_without_shift(start: Seq<char>, a: Seq<char>, b: Seq<char>, from: int)
    requires
        start.len() > 0,
        0 <= from <= b.len(),
    ensures
        without_from(a + b, start, a.len() + from) == without_from(b, start, from),
    decreases b.len() - from,
{
    let text = a + b;
    let n = a.len() as int;
    law_first_place_is_found(text, start, n + from);
    law_first_place_is_found(b, start, from);
    assert(text.skip(n + from) =~= b.skip(from));
    if let Some(at) = find_spec(b, start, from) {
        assert(stands_at(text, start, n + at)) by {
            assert forall|j: int| 0 <= j < start.len() implies #[trigger] start[j] == text[n + at
                + j] by {
                assert(start[j] == b[at + j]);
            }
        }
    }
    if let Some(at) = find_spec(text, start, n + from) {
        assert(stands_at(b, start, at - n)) by {
            assert forall|j: int| 0 <= j < start.len() implies #[trigger] start[j] == b[at - n
                + j] by {
                assert(start[j] == text[at + j]);
            }
        }
        assert(find_spec(b, start, from) == Some(at - n));
        assert(text.subrange(n + from, at) =~= b.subrange(from, at - n));
        lemma_without_shift(start, a, b, at - n + start.len());
    }
}

/// A start marker anywhere in a complete text makes it reasoning from the text's
/// beginning up to the first end marker.
pub proof fn law_start_marker_anywhere(
    config: ConfigView,
    a: Seq<char>,
    b: Seq<char>,
    reasoning: Seq<char>,
    answer: Seq<char>,
    begun: bool,
)
    requires
        config.start.len() > 0,
        first_behind(a, config.start, b),
        holds_none(b, config.start),
    ensures
        a + b == reasoning + config.end + answer && first_behind(reasoning, config.end, answer)
            ==> told_apart(config, begun, a + config.start + b) == (Split {
            normal: answer,
            reasoning,
        }),
        holds_none(a + b, config.end) ==> told_apart(config, begun, a + config.start + b) == (
        Split { normal: Seq::empty(), reasoning: a + b }),
{
    let text = a + config.start + b;
    law_start_markers_are_dropped(config.start, a, b);
    assert(stands_at(text, config.start, a.len() as int));
    lemma_contains(text, config.start);
    lemma_contains(a + b, config.end);
    if a + b == reasoning + config.end + answer && first_behind(reasoning, config.end, answer) {
        lemma_split_behind(reasoning, config.end, answer);
    }
}

// ---- One chunk ----

/// What is at hand with a chunk is held back exactly where it begins a marker
/// without being all of it. It is then all that changes.
pub proof fn law_beginnings_of_markers_are_held_back(
    config: ConfigView,
    s: ReasoningView,
    at_hand: Seq<char>,
)
    requires
        begins(at_hand, config.start) || begins(at_hand, config.end),
    ensures
        ({
            let p = progress(config, s, at_hand);
            &&& p.state.buffer == at_hand
            &&& p.state.in_reasoning == s.in_reasoning
            &&& p.state.stripped == s.stripped
            &&& p.split.normal.len() == 0
            &&& p.split.reasoning.len() == 0
        }),
{
    lemma_partial(at_hand, config.start);
    lemma_partial(at_hand, config.end);
}

/// In reasoning, the first end marker ends it: what stands before it is reasoning,
/// what stands behind it is the answer, and the stream is not in reasoning any more.
pub proof fn law_end_marker_ends_reasoning(
    config: ConfigView,
    s: ReasoningView,
    reasoning: Seq<char>,
    answer: Seq<char>,
)
    requires
        s.in_reasoning,
        first_behind(reasoning, config.end, answer),
        !begins(reasoning + config.end + answer, config.start),
        s.stripped || holds_none(reasoning + config.end + answer, config.start),
    ensures
        ({
            let p = progress(config, s, reasoning + config.end + answer);
            &&& p.split.reasoning == reasoning
            &&& p.split.normal == answer
            &&& !p.state.in_reasoning
            &&& p.state.buffer.len() == 0
            &&& p.state.stripped == s.stripped
        }),
{
    let text = reasoning + config.end + answer;
    lemma_partial(text, config.start);
    lemma_partial(text, config.end);
    lemma_contains(text, config.start);
    lemma_split_behind(reasoning, config.end, answer);
}

/// In reasoning, what has no end marker is passed on as reasoning, or held where
/// reasoning is not passed on as it comes, and reasoning goes on.
pub proof fn law_reasoning_goes_on_without_an_end_marker(
    config: ConfigView,
    s: ReasoningView,
    at_hand: Seq<char>,
)
    requires
        s.in_reasoning,
        holds_none(at_hand, config.end),
        !begins(at_hand, config.start),
        !begins(at_hand, config.end),
        s.stripped || holds_none(at_hand, config.start),
    ensures
        ({
            let p = progress(config, s, at_hand);
            &&& p.state.in_reasoning
            &&& p.state.stripped == s.stripped
            &&& p.split.normal.len() == 0
            &&& config.stream_reasoning ==> p.split.reasoning == at_hand && p.state.buffer.len() == 0
            &&& !config.stream_reasoning ==> p.split.reasoning.len() == 0 && p.state.buffer == at_hand
        }),
{
    lemma_partial(at_hand, config.start);
    lemma_partial(at_hand, config.end);
    lemma_contains(at_hand, config.start);
    lemma_contains(at_hand, config.end);
}

/// A start marker begins reasoning, once: it is dropped, and what follows it is told
/// apart at the end marker.
pub proof fn law_start_marker_begins_reasoning(
    config: ConfigView,
    s: ReasoningView,
    rest: Seq<char>,
)
    requires
        !s.stripped,
        config.start.len() > 0,
        holds_none(rest, config.start),
        !begins(config.start + rest, config.end),
    ensures
        ({
            let p = progress(config, s, config.start + rest);
            &&& p.state.stripped
            &&& p.split.normal.len() > 0 ==> !holds_none(rest, config.end)
            &&& p.state.in_reasoning == holds_none(rest, config.end)
            &&& holds_none(rest, config.end) && config.stream_reasoning ==> p.split.reasoning == rest
                && p.state.buffer.len() == 0
        }),
        forall|reasoning: Seq<char>, answer: Seq<char>|
            #![trigger first_behind(reasoning, config.end, answer)]
            rest == reasoning + config.end + answer && first_behind(reasoning, config.end, answer)
                ==> progress(config, s, config.start + rest).split == (Split {
                normal: answer,
                reasoning,
            }),
{
    let text = config.start + rest;
    lemma_partial(text, config.start);
    lemma_partial(text, config.end);
    lemma_start_dropped(config.start, rest);
    lemma_contains(rest, config.end);
    assert forall|reasoning: Seq<char>, answer: Seq<char>|
        #![trigger first_behind(reasoning, config.end, answer)]
        rest == reasoning + config.end + answer && first_behind(
            reasoning,
            config.end,
            answer,
        ) implies progress(config, s, config.start + rest).split == (Split {
        normal: answer,
        reasoning,
    }) by {
        lemma_split_behind(reasoning, config.end, answer);
    }
}

/// Wherever a start marker first stands in what is at hand, reasoning has begun: what
/// is at hand without its start markers is told apart at the end marker, from its
/// beginning on.
pub proof fn law_start_marker_anywhere_begins_reasoning(
    config: ConfigView,
    s: ReasoningView,
    a: Seq<char>,
    b: Seq<char>,
    reasoning: Seq<char>,
    answer: Seq<char>,
)
    requires
        !s.stripped,
        config.start.len() > 0,
        first_behind(a, config.start, b),
        !begins(a + config.start + b, config.end),
    ensures
        ({
            let p = progress(config, s, a + config.start + b);
            let text = a + without(b, config.start);
            &&& p.state.stripped
            &&& p.state.in_reasoning == holds_none(text, config.end)
            &&& holds_none(text, config.end) ==> p.split.normal.len() == 0
            &&& holds_none(text, config.end) && config.stream_reasoning ==> p.split.reasoning == text
                && p.state.buffer.len() == 0
            &&& holds_none(text, config.end) && !config.stream_reasoning ==> p.state.buffer == text
                && p.split.reasoning.len() == 0
            &&& text == reasoning + config.end + answer && first_behind(
                reasoning,
                config.end,
                answer,
            ) ==> p.split == (Split { normal: answer, reasoning }) && p.state.buffer.len() == 0
        }),
{
    let at_hand = a + config.start + b;
    let text = a + without(b, config.start);
    assert(stands_at(at_hand, config.start, a.len() as int));
    lemma_contains(at_hand, config.start);
    lemma_partial(at_hand, config.start);
    lemma_partial(at_hand, config.end);
    law_start_markers_are_dropped(config.start, a, b);
    lemma_contains(text, config.end);
    if text == reasoning + config.end + answer && first_behind(reasoning, config.end, answer) {
        lemma_split_behind(reasoning, config.end, answer);
    }
}

/// Outside reasoning everything is the answer, unless a start marker comes that may
/// still begin reasoning.
pub proof fn law_outside_reasoning_all_is_answer(
    config: ConfigView,
    s: ReasoningView,
    at_hand: Seq<char>,
)
    requires
        !s.in_reasoning,
        s.stripped || holds_none(at_hand, config.start),
        !begins(at_hand, config.start),
        !begins(at_hand, config.end),
    ensures
        ({
            let p = progress(config, s, at_hand);
            &&& p.split.normal == at_hand
            &&& p.split.reasoning.len() == 0
            &&& !p.state.in_reasoning
            &&& p.state.stripped == s.stripped
            &&& p.state.buffer.len() == 0
        }),
{
    lemma_partial(at_hand, config.start);
    lemma_partial(at_hand, config.end);
    lemma_contains(at_hand, config.start);
}

// ---- Many chunks ----

/// In reasoning, chunks that have no end marker together come out as reasoning, in
/// their order, and reasoning goes on.
pub proof fn law_chunks_of_reasoning_are_reasoning(
    config: ConfigView,
    s: ReasoningView,
    chunks: Seq<Seq<char>>,
)
    requires
        s.in_reasoning,
        config.stream_reasoning,
        holds_none(s.buffer + joined(chunks), config.end),
        s.stripped || holds_none(s.buffer + joined(chunks), config.start),
    ensures
        ({
            let all = progress_all(config, s, chunks);
            &&& all.split.reasoning + all.state.buffer == s.buffer + joined(chunks)
            &&& all.split.normal.len() == 0
            &&& all.state.in_reasoning
            &&& all.state.stripped == s.stripped
        }),
    decreases chunks.len(),
{
    let none = Seq::<char>::empty();
    if chunks.len() == 0 {
        assert(none + s.buffer =~= s.buffer + none);
    } else {
        let init = chunks.drop_last();
        let chunk = chunks.last();
        let whole = s.buffer + joined(chunks);
        let part = s.buffer + joined(init);
        assert(whole =~= none + part + chunk);
        lemma_part_holds_none(whole, none, part, chunk, config.end);
        if !s.stripped {
            lemma_part_holds_none(whole, none, part, chunk, config.start);
        }
        law_chunks_of_reasoning_are_reasoning(config, s, init);
        let before = progress_all(config, s, init);
        let at_hand = before.state.buffer + chunk;
        assert(whole =~= before.split.reasoning + at_hand + none);
        lemma_part_holds_none(whole, before.split.reasoning, at_hand, none, config.end);
        if !s.stripped {
            lemma_part_holds_none(whole, before.split.reasoning, at_hand, none, config.start);
        }
        let last = progress(config, before.state, at_hand);
        if begins(at_hand, config.start) || begins(at_hand, config.end) {
            law_beginnings_of_markers_are_held_back(config, before.state, at_hand);
        } else {
            law_reasoning_goes_on_without_an_end_marker(config, before.state, at_hand);
        }
        assert(last.split.reasoning + last.state.buffer =~= at_hand);
        assert(before.split.reasoning + last.split.reasoning + last.state.buffer
            =~= before.split.reasoning + at_hand);
        assert(before.split.normal + last.split.normal =~= none);
    }
}

proof fn lemma_part_holds_none(
    text: Seq<char>,
    before: Seq<char>,
    part: Seq<char>,
    after: Seq<char>,
    marker: Seq<char>,
)
    requires
        text == before + part + after,
        holds_none(text, marker),
    ensures
        holds_none(part, marker),
{
    assert forall|i: int| !#[trigger] stands_at(part, marker, i) by {
        if stands_at(part, marker, i) {
            let at = before.len() + i;
            assert forall|j: int| 0 <= j < marker.len() implies #[trigger] marker[j] == text[at
                + j] by {
                assert(marker[j] == part[i + j]);
            }
            assert(stands_at(text, marker, at));
        }
    }
}

/// Once reasoning is over and its start marker was dropped, whatever comes is passed
/// on as the answer or held back, in its order, and reasoning does not begin again.
pub proof fn law_after_reasoning_all_is_answer(
    config: ConfigView,
    s: ReasoningView,
    chunks: Seq<Seq<char>>,
)
    requires
        !s.in_reasoning,
        s.stripped || holds_none(s.buffer + joined(chunks), config.start),
    ensures
        ({
            let all = progress_all(config, s, chunks);
            &&& all.split.normal + all.state.buffer == s.buffer + joined(chunks)
            &&& all.split.reasoning.len() == 0
            &&& !all.state.in_reasoning
            &&& all.state.stripped == s.stripped
        }),
    decreases chunks.len(),
{
    let none = Seq::<char>::empty();
    if chunks.len() == 0 {
        assert(none + s.buffer =~= s.buffer + none);
    } else {
        let init = chunks.drop_last();
        let chunk = chunks.last();
        let whole = s.buffer + joined(chunks);
        let part = s.buffer + joined(init);
        assert(whole =~= none + part + chunk);
        if !s.stripped {
            lemma_part_holds_none(whole, none, part, chunk, config.start);
        }
        law_after_reasoning_all_is_answer(config, s, init);
        let before = progress_all(config, s, init);
        let at_hand = before.state.buffer + chunk;
        assert(whole =~= before.split.normal + at_hand + none);
        if !s.stripped {
            lemma_part_holds_none(whole, before.split.normal, at_hand, none, config.start);
        }
        let last = progress(config, before.state, at_hand);
        if begins(at_hand, config.start) || begins(at_hand, config.end) {
            law_beginnings_of_markers_are_held_back(config, before.state, at_hand);
        } else {
            law_outside_reasoning_all_is_answer(config, before.state, at_hand);
        }
        assert(last.split.normal + last.state.buffer =~= at_hand);
        assert(before.split.normal + last.split.normal + last.state.buffer
            =~= before.split.normal + at_hand);
        assert(before.split.reasoning + last.split.reasoning =~= none);
    }
}

proof fn lemma_progress_join(
    config: ConfigView,
    s: ReasoningView,
    a: Seq<Seq<char>>,
    b: Seq<Seq<char>>,
)
    ensures
        ({
            let first = progress_all(config, s, a);
            let second = progress_all(config, first.state, b);
            progress_all(config, s, a + b) == (Progress {
                state: second.state,
                split: Split {
                    normal: first.split.normal + second.split.normal,
                    reasoning: first.split.reasoning + second.split.reasoning,
                },
            })
        }),
    decreases b.len(),
{
    let first = progress_all(config, s, a);
    if b.len() == 0 {
        assert(a + b =~= a);
        assert(first.split.normal + Seq::<char>::empty() =~= first.split.normal);
        assert(first.split.reasoning + Seq::<char>::empty() =~= first.split.reasoning);
    } else {
        lemma_progress_join(config, s, a, b.drop_last());
        assert((a + b).drop_last() =~= a + b.drop_last());
        assert((a + b).last() == b.last());
        let mid = progress_all(config, first.state, b.drop_last());
        let last = progress(config, mid.state, mid.state.buffer + b.last());
        assert(first.split.normal + mid.split.normal + last.split.normal
            =~= first.split.normal + (mid.split.normal + last.split.normal));
        assert(first.split.reasoning + mid.split.reasoning + last.split.reasoning
            =~= first.split.reasoning + (mid.split.reasoning + last.split.reasoning));
    }
}

/// A stream tells apart what a complete text does: in reasoning, what comes before
/// the first end marker comes out as reasoning, and what comes behind it as the
/// answer, but for an end of it that may begin a marker and is held back. The end
/// marker may stand anywhere in its chunk.
pub proof fn law_stream_tells_reasoning_from_answer(
    config: ConfigView,
    s: ReasoningView,
    thoughts: Seq<Seq<char>>,
    a: Seq<char>,
    b: Seq<char>,
    answers: Seq<Seq<char>>,
)
    requires
        s.in_reasoning,
        config.stream_reasoning,
        config.end.len() > 0,
        holds_none(config.start, config.end),
        first_behind(s.buffer + joined(thoughts) + a, config.end, b),
        s.stripped || holds_none(
            s.buffer + joined(thoughts) + a + config.end + b + joined(answers),
            config.start,
        ),
    ensures
        ({
            let all = progress_all(config, s, thoughts + seq![a + config.end + b] + answers);
            &&& all.split.reasoning == s.buffer + joined(thoughts) + a
            &&& all.split.normal + all.state.buffer == b + joined(answers)
            &&& !all.state.in_reasoning
        }),
{
    let none = Seq::<char>::empty();
    let r = s.buffer + joined(thoughts) + a;
    let text = r + config.end + b;
    let whole = text + joined(answers);
    assert forall|i: int| !#[trigger] stands_at(s.buffer + joined(thoughts), config.end, i) by {
        if stands_at(s.buffer + joined(thoughts), config.end, i) {
            assert forall|j: int| 0 <= j < config.end.len() implies #[trigger] config.end[j]
                == text[i + j] by {
                assert(config.end[j] == (s.buffer + joined(thoughts))[i + j]);
            }
            assert(stands_at(text, config.end, i));
        }
    }
    if !s.stripped {
        assert(whole =~= none + (s.buffer + joined(thoughts)) + (a + config.end + b + joined(
            answers,
        )));
        lemma_part_holds_none(
            whole,
            none,
            s.buffer + joined(thoughts),
            a + config.end + b + joined(answers),
            config.start,
        );
    }
    law_chunks_of_reasoning_are_reasoning(config, s, thoughts);
    let one = progress_all(config, s, thoughts);
    let held = one.state.buffer;
    let ra = held + a;
    let at_hand = ra + config.end + b;
    let out = one.split.reasoning;
    assert(r =~= out + ra);
    assert(text =~= out + at_hand);
    assert forall|i: int| 0 <= i < ra.len() implies !#[trigger] stands_at(
        at_hand,
        config.end,
        i,
    ) by {
        if stands_at(at_hand, config.end, i) {
            let at = out.len() + i;
            assert forall|j: int| 0 <= j < config.end.len() implies #[trigger] config.end[j]
                == text[at + j] by {
                assert(config.end[j] == at_hand[i + j]);
            }
            assert(stands_at(text, config.end, at));
        }
    }
    assert(first_behind(ra, config.end, b));
    if begins(at_hand, config.start) {
        assert forall|j: int| 0 <= j < config.end.len() implies #[trigger] config.end[j]
            == config.start[ra.len() + j] by {
            assert(at_hand[ra.len() + j] == config.end[j]);
        }
        assert(stands_at(config.start, config.end, ra.len() as int));
    }
    if !s.stripped {
        assert(whole =~= out + at_hand + joined(answers));
        lemma_part_holds_none(whole, out, at_hand, joined(answers), config.start);
    }
    law_end_marker_ends_reasoning(config, one.state, ra, b);
    let mark = seq![a + config.end + b];
    let two = progress_all(config, one.state, mark);
    reveal_with_fuel(progress_all, 2);
    assert(mark.drop_last() =~= Seq::<Seq<char>>::empty());
    assert(held + mark.last() =~= at_hand);
    assert(two.split.reasoning =~= ra);
    assert(two.split.normal =~= b);
    assert(two.state.buffer + joined(answers) =~= joined(answers));
    if !s.stripped {
        assert(whole =~= text + joined(answers) + none);
        lemma_part_holds_none(whole, text, joined(answers), none, config.start);
    }
    law_after_reasoning_all_is_answer(config, two.state, answers);
    let three = progress_all(config, two.state, answers);
    lemma_progress_join(config, s, thoughts, mark);
    lemma_progress_join(config, s, thoughts + mark, answers);
    let all = progress_all(config, s, thoughts + mark + answers);
    assert(all.split.reasoning =~= r);
    assert(all.split.normal =~= b + three.split.normal);
    assert(all.split.normal + all.state.buffer =~= b + (three.split.normal + three.state.buffer));
}

/// A stream that begins with the start marker tells apart what a complete text does.
pub proof fn law_stream_from_the_start_marker(
    config: ConfigView,
    first: Seq<char>,
    thoughts: Seq<Seq<char>>,
    a: Seq<char>,
    b: Seq<char>,
    answers: Seq<Seq<char>>,
)
    requires
        config.stream_reasoning,
        config.start.len() > 0,
        config.end.len() > 0,
        holds_none(config.start, config.end),
        !begins(config.start + first, config.end),
        holds_none(first, config.start),
        first_behind(first + joined(thoughts) + a, config.end, b),
    ensures
        ({
            let all = progress_all(
                config,
                fresh(config),
                seq![config.start + first] + (thoughts + seq![a + config.end + b] + answers),
            );
            &&& all.split.reasoning == first + joined(thoughts) + a
            &&& all.split.normal + all.state.buffer == b + joined(answers)
            &&& !all.state.in_reasoning
        }),
{
    let s = fresh(config);
    let none = Seq::<char>::empty();
    let text = first + joined(thoughts) + a + config.end + b;
    assert forall|i: int| !#[trigger] stands_at(first, config.end, i) by {
        if stands_at(first, config.end, i) {
            assert forall|j: int| 0 <= j < config.end.len() implies #[trigger] config.end[j]
                == text[i + j] by {
                assert(config.end[j] == first[i + j]);
            }
            assert(stands_at(text, config.end, i));
        }
    }
    law_start_marker_begins_reasoning(config, s, first);
    let mark = seq![config.start + first];
    reveal_with_fuel(progress_all, 2);
    assert(mark.drop_last() =~= Seq::<Seq<char>>::empty());
    assert(s.buffer + mark.last() =~= config.start + first);
    let one = progress_all(config, s, mark);
    assert(one.split.reasoning =~= first);
    assert(one.split.normal =~= none);
    let out = one.state.buffer + joined(thoughts) + a;
    assert forall|i: int| 0 <= i < out.len() implies !#[trigger] stands_at(
        out + config.end + b,
        config.end,
        i,
    ) by {
        if stands_at(out + config.end + b, config.end, i) {
            let at = first.len() + i;
            assert forall|j: int| 0 <= j < config.end.len() implies #[trigger] config.end[j]
                == text[at + j] by {
                assert(config.end[j] == (out + config.end + b)[i + j]);
            }
            assert(stands_at(text, config.end, at));
        }
    }
    law_stream_tells_reasoning_from_answer(config, one.state, thoughts, a, b, answers);
    let rest = thoughts + seq![a + config.end + b] + answers;
    lemma_progress_join(config, s, mark, rest);
    let all = progress_all(config, s, mark + rest);
    let two = progress_all(config, one.state, rest);
    assert(all.split.reasoning =~= first + joined(thoughts) + a);
    assert(all.split.normal =~= two.split.normal);
}

/// A stream of which nothing has come is in reasoning exactly where the model begins
/// with it, and a start marker may still come.
pub proof fn law_fresh_stream(config: ConfigView)
    ensures
        fresh(config).in_reasoning == config.always_in_reasoning,
        !fresh(config).stripped,
        fresh(config).buffer.len() == 0,
{
}

} // verus!
