//! The parser for reasoning between two markers.
use crate::text::{
    chars_of, concat, contains_text, find_spec, find_token, has_prefix, joined, lemma_find_spec,
    lemma_part_holds_no_more, str_contains, str_eq, str_has_prefix, string_of,
};
use vstd::prelude::*;
use vstd::utf8::encode_utf8;

verus! {

/// How many bytes a parser holds at most.
pub const DEFAULT_MAX_BUFFER_SIZE: usize = 65_536;

/// How a model marks its reasoning.
#[derive(Debug)]
pub struct ParserConfig {
    pub think_start_token: String,
    pub think_end_token: String,
    /// Whether reasoning is passed on as it comes.
    pub stream_reasoning: bool,
    /// How many bytes are held at most.
    pub max_buffer_size: usize,
    /// Whether the output begins with reasoning without a marker.
    pub always_in_reasoning: bool,
}

/// What a configuration says.
#[verifier::ext_equal]
pub struct ConfigView {
    pub start: Seq<char>,
    pub end: Seq<char>,
    pub stream_reasoning: bool,
    pub max_buffer_size: nat,
    pub always_in_reasoning: bool,
}

impl View for ParserConfig {
    type V = ConfigView;

    open spec fn view(&self) -> ConfigView {
        ConfigView {
            start: self.think_start_token@,
            end: self.think_end_token@,
            stream_reasoning: self.stream_reasoning,
            max_buffer_size: self.max_buffer_size as nat,
            always_in_reasoning: self.always_in_reasoning,
        }
    }
}

/// What is told apart.
#[derive(Debug)]
pub struct ParserResult {
    pub normal_text: String,
    pub reasoning_text: String,
}

/// What is told apart.
#[verifier::ext_equal]
pub struct Split {
    pub normal: Seq<char>,
    pub reasoning: Seq<char>,
}

impl View for ParserResult {
    type V = Split;

    open spec fn view(&self) -> Split {
        Split { normal: self.normal_text@, reasoning: self.reasoning_text@ }
    }
}

/// Why a text is not parsed.
#[derive(Debug, Clone, Copy, PartialEq, Eq, Structural)]
pub enum ParseError {
    /// There would be that many bytes to hold, which is too many.
    BufferOverflow(usize),
}

/// How many bytes a text has.
pub open spec fn byte_len(text: Seq<char>) -> nat {
    encode_utf8(text).len()
}

/// What stands at or after a position, without the occurrences of a token.
pub open spec fn without_from(text: Seq<char>, token: Seq<char>, from: int) -> Seq<char>
    decreases text.len() - from,
{
    match find_spec(text, token, from) {
        Some(at) => if 0 <= from <= at && token.len() > 0 && at + token.len() <= text.len() {
            text.subrange(from, at) + without_from(text, token, at + token.len())
        } else {
            text.skip(from)
        },
        None => text.skip(from),
    }
}

/// A text without the occurrences of a token.
pub open spec fn without(text: Seq<char>, token: Seq<char>) -> Seq<char> {
    without_from(text, token, 0)
}

/// A copy of a text without the occurrences of a token.
pub fn remove_token(text: &str, token: &str) -> (r: String)
    requires
        token@.len() > 0,
    ensures
        r@ == without(text@, token@),
{
    let chars = chars_of(text);
    let mark = chars_of(token);
    let n = chars.len();
    let mut out = String::new();
    let mut from: usize = 0;
    assert(out@ + without_from(text@, token@, 0) =~= without_from(text@, token@, 0));
    loop
        invariant
            chars@ == text@,
            mark@ == token@,
            mark@.len() > 0,
            from <= n == chars@.len(),
            without(text@, token@) == out@ + without_from(text@, token@, from as int),
        decreases n - from,
    {
        match find_token(&chars, &mark, from) {
            Some(at) => {
                let piece = string_of(&chars, from, at);
                let ghost before = out@;
                let ghost rest = without_from(text@, token@, at + token@.len());
                out.append(piece.as_str());
                assert(before + (piece@ + rest) =~= out@ + rest);
                from = at + mark.len();
            },
            None => {
                let piece = string_of(&chars, from, n);
                assert(text@.subrange(from as int, n as int) =~= text@.skip(from as int));
                out.append(piece.as_str());
                return out;
            },
        }
    }
}

/// A text without the token stays as it is.
pub proof fn lemma_without_nothing(text: Seq<char>, token: Seq<char>)
    requires
        !contains_text(text, token),
    ensures
        without(text, token) == text,
{
    assert(text.skip(0) =~= text);
}

/// A text in which reasoning stands up to the first end marker.
pub open spec fn split_at_end(text: Seq<char>, end: Seq<char>) -> Split {
    match find_spec(text, end, 0) {
        Some(at) => Split { normal: text.skip(at + end.len()), reasoning: text.take(at) },
        None => Split { normal: Seq::empty(), reasoning: text },
    }
}

/// What a complete text is told apart into. Without a start marker, and not in
/// reasoning, all of it is the answer. Else it is reasoning up to the first end
/// marker. Start markers are dropped, and nothing else is changed.
pub open spec fn told_apart(config: ConfigView, in_reasoning: bool, text: Seq<char>) -> Split {
    if in_reasoning || contains_text(text, config.start) {
        split_at_end(without(text, config.start), config.end)
    } else {
        Split { normal: text, reasoning: Seq::empty() }
    }
}

/// The state of a stream.
#[verifier::ext_equal]
pub struct ReasoningView {
    /// What is not dealt with yet.
    pub buffer: Seq<char>,
    /// Whether reasoning has begun and not ended.
    pub in_reasoning: bool,
    /// Whether the start marker has been dropped.
    pub stripped: bool,
}

/// A stream of which nothing has come.
pub open spec fn fresh(config: ConfigView) -> ReasoningView {
    ReasoningView {
        buffer: Seq::empty(),
        in_reasoning: config.always_in_reasoning,
        stripped: false,
    }
}

/// A text is a beginning of a marker, but not all of it.
pub open spec fn is_partial(text: Seq<char>, token: Seq<char>) -> bool {
    has_prefix(token, text) && token != text
}

/// What a chunk brings.
#[verifier::ext_equal]
pub struct Progress {
    pub state: ReasoningView,
    pub split: Split,
}

/// What a chunk brings, given what is at hand with it. What may be a beginning of
/// a marker is held back. The first start marker begins reasoning, and the end
/// marker ends it.
pub open spec fn progress(config: ConfigView, s: ReasoningView, at_hand: Seq<char>) -> Progress {
    let nothing = Split { normal: Seq::empty(), reasoning: Seq::empty() };
    if is_partial(at_hand, config.start) || is_partial(at_hand, config.end) {
        Progress { state: ReasoningView { buffer: at_hand, ..s }, split: nothing }
    } else {
        let starts = !s.stripped && contains_text(at_hand, config.start);
        let text = if starts {
            without(at_hand, config.start)
        } else {
            at_hand
        };
        let mid = ReasoningView {
            buffer: Seq::empty(),
            in_reasoning: s.in_reasoning || starts,
            stripped: s.stripped || starts,
        };
        if !mid.in_reasoning {
            Progress { state: mid, split: Split { normal: text, reasoning: Seq::empty() } }
        } else if contains_text(text, config.end) {
            Progress {
                state: ReasoningView { in_reasoning: false, ..mid },
                split: split_at_end(text, config.end),
            }
        } else if config.stream_reasoning {
            Progress { state: mid, split: Split { normal: Seq::empty(), reasoning: text } }
        } else {
            Progress { state: ReasoningView { buffer: text, ..mid }, split: nothing }
        }
    }
}

/// Where no start marker occurs and reasoning has not begun, all of a text is the
/// answer.
pub proof fn law_no_marker_no_reasoning(config: ConfigView, text: Seq<char>)
    requires
        !contains_text(text, config.start),
    ensures
        told_apart(config, false, text) == (Split { normal: text, reasoning: Seq::empty() }),
{
}

/// Nothing is lost: what is told apart, with the end marker between where there
/// is one, is the text without its start markers.
pub proof fn law_nothing_is_lost(config: ConfigView, in_reasoning: bool, text: Seq<char>)
    ensures
        ({
            let split = told_apart(config, in_reasoning, text);
            let rest = without(text, config.start);
            ||| !in_reasoning && !contains_text(text, config.start) && split.normal == text
                && split.reasoning.len() == 0
            ||| split.reasoning == rest && split.normal.len() == 0 && !contains_text(
                rest,
                config.end,
            )
            ||| split.reasoning + config.end + split.normal == rest
        }),
{
    let rest = without(text, config.start);
    lemma_find_spec(rest, config.end, 0);
    if let Some(at) = find_spec(rest, config.end, 0) {
        assert(rest.take(at) + config.end + rest.skip(at + config.end.len()) =~= rest) by {
            assert(rest.subrange(at, at + config.end.len()) =~= config.end);
            assert forall|i: int| at <= i < at + config.end.len() implies rest[i] == config.end[i
                - at] by {
                assert(rest.subrange(at, at + config.end.len())[i - at] == rest[i]);
            }
        }
    }
}

/// The reasoning that is told apart holds no end marker.
pub proof fn law_reasoning_ends_at_the_first_marker(config: ConfigView, text: Seq<char>)
    requires
        config.end.len() > 0,
    ensures
        !contains_text(split_at_end(text, config.end).reasoning, config.end),
{
    let split = split_at_end(text, config.end);
    lemma_find_spec(text, config.end, 0);
    if contains_text(split.reasoning, config.end) {
        let i = choose|i: int| 0 <= i && crate::text::occurs_at(split.reasoning, config.end, i);
        if let Some(at) = find_spec(text, config.end, 0) {
            assert(text.take(at).subrange(i, i + config.end.len()) =~= text.subrange(
                i,
                i + config.end.len(),
            ));
            assert(crate::text::occurs_at(text, config.end, i));
        }
    }
}

/// Of a stream nothing is lost either: what is passed on and what is held back is
/// what is at hand, but for markers.
pub proof fn law_stream_loses_nothing(config: ConfigView, s: ReasoningView, at_hand: Seq<char>)
    requires
        s.stripped || !contains_text(at_hand, config.start),
    ensures
        ({
            let p = progress(config, s, at_hand);
            ||| p.split.reasoning + p.split.normal + p.state.buffer == at_hand
            ||| p.split.reasoning + config.end + p.split.normal == at_hand && p.state.buffer.len()
                == 0
        }),
{
    let p = progress(config, s, at_hand);
    let none = Seq::<char>::empty();
    assert(none + none + at_hand =~= at_hand);
    assert(none + at_hand + none =~= at_hand);
    assert(at_hand + none + none =~= at_hand);
    lemma_find_spec(at_hand, config.end, 0);
    if let Some(at) = find_spec(at_hand, config.end, 0) {
        assert(at_hand.take(at) + config.end + at_hand.skip(at + config.end.len()) =~= at_hand)
            by {
            assert forall|i: int| at <= i < at + config.end.len() implies at_hand[i]
                == config.end[i - at] by {
                assert(at_hand.subrange(at, at + config.end.len())[i - at] == at_hand[i]);
            }
        }
    }
}

/// What chunks bring one after another.
pub open spec fn progress_all(
    config: ConfigView,
    s: ReasoningView,
    chunks: Seq<Seq<char>>,
) -> Progress
    decreases chunks.len(),
{
    if chunks.len() == 0 {
        Progress { state: s, split: Split { normal: Seq::empty(), reasoning: Seq::empty() } }
    } else {
        let before = progress_all(config, s, chunks.drop_last());
        let last = progress(config, before.state, before.state.buffer + chunks.last());
        Progress {
            state: last.state,
            split: Split {
                normal: before.split.normal + last.split.normal,
                reasoning: before.split.reasoning + last.split.reasoning,
            },
        }
    }
}

/// However a text without the start marker is cut into chunks, outside reasoning
/// all of it is passed on as the answer or held back, in its order.
pub proof fn law_chunks_without_marker_are_answer(
    config: ConfigView,
    s: ReasoningView,
    chunks: Seq<Seq<char>>,
)
    requires
        !s.in_reasoning,
        !contains_text(s.buffer + joined(chunks), config.start),
    ensures
        ({
            let all = progress_all(config, s, chunks);
            &&& all.split.normal + all.state.buffer == s.buffer + joined(chunks)
            &&& all.split.reasoning.len() == 0
            &&& !all.state.in_reasoning
        }),
    decreases chunks.len(),
{
    let none = Seq::<char>::empty();
    if chunks.len() == 0 {
        assert(none + s.buffer =~= s.buffer + none);
    } else {
        let init = chunks.drop_last();
        let chunk = chunks.last();
        let whole = s.buffer + joined(chunks);
        assert(whole =~= none + (s.buffer + joined(init)) + chunk);
        lemma_part_holds_no_more(whole, none, s.buffer + joined(init), chunk, config.start);
        law_chunks_without_marker_are_answer(config, s, init);
        let before = progress_all(config, s, init);
        let at_hand = before.state.buffer + chunk;
        assert(whole =~= before.split.normal + at_hand + none);
        lemma_part_holds_no_more(whole, before.split.normal, at_hand, none, config.start);
        let last = progress(config, before.state, at_hand);
        assert(last.split.normal + last.state.buffer =~= at_hand);
        assert(before.split.normal + last.split.normal + last.state.buffer
            =~= before.split.normal + (last.split.normal + last.state.buffer));
    }
}

/// The parser for reasoning between two markers.
pub struct BaseReasoningParser {
    config: ParserConfig,
    buffer: String,
    in_reasoning: bool,
    stripped_think_start: bool,
    model_type: String,
}

impl View for BaseReasoningParser {
    type V = ReasoningView;

    closed spec fn view(&self) -> ReasoningView {
        ReasoningView {
            buffer: self.buffer@,
            in_reasoning: self.in_reasoning,
            stripped: self.stripped_think_start,
        }
    }
}

impl BaseReasoningParser {
    /// How the model marks its reasoning.
    pub closed spec fn config(&self) -> ConfigView {
        self.config@
    }

    /// The name of the model.
    pub closed spec fn model(&self) -> Seq<char> {
        self.model_type@
    }

    /// The start marker is not empty.
    pub closed spec fn wf(&self) -> bool {
        self.config@.start.len() > 0
    }

    /// A parser to which nothing has been given.
    pub fn new(config: ParserConfig) -> (r: Self)
        requires
            config@.start.len() > 0,
        ensures
            r.wf(),
            r.config() == config@,
            r@ == fresh(config@),
            r.model() == "base"@,
    {
        let in_reasoning = config.always_in_reasoning;
        let r = BaseReasoningParser {
            config,
            buffer: String::new(),
            in_reasoning,
            stripped_think_start: false,
            model_type: "base".to_owned(),
        };
        assert(r@ =~= fresh(r.config()));
        r
    }

    /// The same parser for a model with a name.
    pub fn with_model_type(self, model: String) -> (r: Self)
        requires
            self.wf(),
        ensures
            r.wf(),
            r.config() == self.config(),
            r@ == self@,
            r.model() == model@,
    {
        BaseReasoningParser {
            config: self.config,
            buffer: self.buffer,
            in_reasoning: self.in_reasoning,
            stripped_think_start: self.stripped_think_start,
            model_type: model,
        }
    }

    /// Tell a complete text apart. See [`told_apart`].
    pub fn detect_and_parse_reasoning(&mut self, text: &str) -> (r: Result<
        ParserResult,
        ParseError,
    >)
        requires
            old(self).wf(),
        ensures
            final(self).wf(),
            final(self)@ == old(self)@,
            final(self).config() == old(self).config(),
            final(self).model() == old(self).model(),
            if byte_len(text@) > old(self).config().max_buffer_size {
                r == Err::<ParserResult, ParseError>(
                    ParseError::BufferOverflow(byte_len(text@) as usize),
                )
            } else {
                r matches Ok(split) && split@ == told_apart(
                    old(self).config(),
                    old(self)@.in_reasoning,
                    text@,
                )
            },
    {
        let len = text.as_bytes().len();
        if len > self.config.max_buffer_size {
            return Err(ParseError::BufferOverflow(len));
        }
        let start = self.config.think_start_token.as_str();
        if !self.in_reasoning && !str_contains(text, start) {
            let r = ParserResult { normal_text: text.to_owned(), reasoning_text: String::new() };
            assert(r@ =~= told_apart(self.config(), false, text@));
            return Ok(r);
        }
        let rest = remove_token(text, start);
        Ok(split_text(rest.as_str(), self.config.think_end_token.as_str()))
    }

    /// Take in a chunk. See [`progress`].
    pub fn parse_reasoning_streaming_incremental(&mut self, text: &str) -> (r: Result<
        ParserResult,
        ParseError,
    >)
        requires
            old(self).wf(),
        ensures
            final(self).wf(),
            final(self).config() == old(self).config(),
            final(self).model() == old(self).model(),
            ({
                let held = byte_len(old(self)@.buffer) + byte_len(text@);
                if held > old(self).config().max_buffer_size {
                    &&& r matches Err(ParseError::BufferOverflow(n)) && (held <= usize::MAX ==> n
                        == held)
                    &&& final(self)@ == old(self)@
                } else {
                    let p = progress(
                        old(self).config(),
                        old(self)@,
                        old(self)@.buffer + text@,
                    );
                    &&& r matches Ok(split) && split@ == p.split
                    &&& final(self)@ == p.state
                }
            }),
    {
        let ghost before = self@;
        let ghost config = self.config@;
        let held = self.buffer.as_str().as_bytes().len();
        let more = text.as_bytes().len();
        let total: usize = if more > usize::MAX - held {
            usize::MAX
        } else {
            held + more
        };
        if more > usize::MAX - held || total > self.config.max_buffer_size {
            return Err(ParseError::BufferOverflow(total));
        }
        let at_hand = concat(self.buffer.as_str(), text);
        let start = self.config.think_start_token.as_str();
        let end = self.config.think_end_token.as_str();
        let ghost p = progress(config, before, at_hand@);
        if is_partial_token(at_hand.as_str(), start) || is_partial_token(at_hand.as_str(), end) {
            self.buffer = at_hand;
            assert(self@ =~= p.state);
            let r = ParserResult { normal_text: String::new(), reasoning_text: String::new() };
            assert(r@ =~= p.split);
            return Ok(r);
        }
        let starts = !self.stripped_think_start && str_contains(at_hand.as_str(), start);
        let current = if starts {
            remove_token(at_hand.as_str(), start)
        } else {
            at_hand
        };
        if starts {
            self.stripped_think_start = true;
            self.in_reasoning = true;
        }
        self.buffer = String::new();
        if !self.in_reasoning {
            assert(self@ =~= p.state);
            let r = ParserResult { normal_text: current, reasoning_text: String::new() };
            assert(r@ =~= p.split);
            return Ok(r);
        }
        if str_contains(current.as_str(), self.config.think_end_token.as_str()) {
            let r = split_text(current.as_str(), self.config.think_end_token.as_str());
            self.in_reasoning = false;
            assert(self@ =~= p.state);
            return Ok(r);
        }
        if self.config.stream_reasoning {
            assert(self@ =~= p.state);
            let r = ParserResult { normal_text: String::new(), reasoning_text: current };
            assert(r@ =~= p.split);
            Ok(r)
        } else {
            self.buffer = current;
            assert(self@ =~= p.state);
            let r = ParserResult { normal_text: String::new(), reasoning_text: String::new() };
            assert(r@ =~= p.split);
            Ok(r)
        }
    }

    /// Forget everything.
    pub fn reset(&mut self)
        requires
            old(self).wf(),
        ensures
            final(self).wf(),
            final(self)@ == fresh(old(self).config()),
            final(self).config() == old(self).config(),
            final(self).model() == old(self).model(),
    {
        self.in_reasoning = self.config.always_in_reasoning;
        self.buffer = String::new();
        self.stripped_think_start = false;
        assert(self@ =~= fresh(self.config()));
    }

    /// The name of the model.
    pub fn model_type(&self) -> (r: &str)
        ensures
            r@ == self.model(),
    {
        self.model_type.as_str()
    }

    /// Whether reasoning has begun and not ended.
    pub fn is_in_reasoning(&self) -> (r: bool)
        ensures
            r == self@.in_reasoning,
    {
        self.in_reasoning
    }

    /// Reasoning has begun.
    pub fn mark_reasoning_started(&mut self)
        requires
            old(self).wf(),
        ensures
            final(self).wf(),
            final(self)@ == (ReasoningView { in_reasoning: true, ..old(self)@ }),
            final(self).config() == old(self).config(),
            final(self).model() == old(self).model(),
    {
        self.in_reasoning = true;
    }

    /// The start marker has been dropped.
    pub fn mark_think_start_stripped(&mut self)
        requires
            old(self).wf(),
        ensures
            final(self).wf(),
            final(self)@ == (ReasoningView { stripped: true, ..old(self)@ }),
            final(self).config() == old(self).config(),
            final(self).model() == old(self).model(),
    {
        self.stripped_think_start = true;
    }
}

/// Whether a text is a beginning of a marker, but not all of it.
pub fn is_partial_token(text: &str, token: &str) -> (r: bool)
    ensures
        r == is_partial(text@, token@),
{
    str_has_prefix(token, text) && !str_eq(token, text)
}

/// Split a text at the first end marker. See [`split_at_end`].
pub fn split_text(text: &str, end: &str) -> (r: ParserResult)
    ensures
        r@ == split_at_end(text@, end@),
{
    let chars = chars_of(text);
    let mark = chars_of(end);
    let n = chars.len();
    match find_token(&chars, &mark, 0) {
        Some(at) => {
            assert(at + mark@.len() <= n);
            let from: usize = at + mark.len();
            let reasoning_text = string_of(&chars, 0, at);
            let normal_text = string_of(&chars, from, n);
            let r = ParserResult { normal_text, reasoning_text };
            assert(r@ =~= split_at_end(text@, end@));
            r
        },
        None => {
            let r = ParserResult { normal_text: String::new(), reasoning_text: text.to_owned() };
            assert(r@ =~= split_at_end(text@, end@));
            r
        },
    }
}

} // verus!
