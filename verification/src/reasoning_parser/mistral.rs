//! The reasoning parser for Mistral models.
use super::base::{
    byte_len, fresh, progress, told_apart, BaseReasoningParser, ConfigView, ParseError,
    ParserConfig, ParserResult, ReasoningView, DEFAULT_MAX_BUFFER_SIZE,
};
use vstd::prelude::*;

verus! {

/// Reasoning stands between `[THINK]` and `[/THINK]`, and the output does not begin
/// with it.
pub open spec fn mistral_config() -> ConfigView {
    ConfigView {
        start: "[THINK]"@,
        end: "[/THINK]"@,
        stream_reasoning: true,
        max_buffer_size: DEFAULT_MAX_BUFFER_SIZE as nat,
        always_in_reasoning: false,
    }
}

/// The reasoning parser for Mistral models.
pub struct MistralParser {
    base: BaseReasoningParser,
}

impl View for MistralParser {
    type V = ReasoningView;

    closed spec fn view(&self) -> ReasoningView {
        self.base@
    }
}

impl MistralParser {
    /// The parser uses the markers of the model.
    pub closed spec fn wf(&self) -> bool {
        &&& self.base.wf()
        &&& self.base.config() == mistral_config()
        &&& self.base.model() == "mistral"@
    }

    /// A parser to which nothing has been given.
    pub fn new() -> (r: Self)
        ensures
            r.wf(),
            r@ == fresh(mistral_config()),
    {
        proof {
            reveal_strlit("[THINK]");
        }
        let config = ParserConfig {
            think_start_token: "[THINK]".to_owned(),
            think_end_token: "[/THINK]".to_owned(),
            stream_reasoning: true,
            max_buffer_size: DEFAULT_MAX_BUFFER_SIZE,
            always_in_reasoning: false,
        };
        assert(config@ =~= mistral_config());
        MistralParser { base: BaseReasoningParser::new(config).with_model_type("mistral".to_owned()) }
    }

    /// Tell a complete text apart.
    pub fn detect_and_parse_reasoning(&mut self, text: &str) -> (r: Result<
        ParserResult,
        ParseError,
    >)
        requires
            old(self).wf(),
        ensures
            final(self).wf(),
            final(self)@ == old(self)@,
            if byte_len(text@) > DEFAULT_MAX_BUFFER_SIZE {
                r == Err::<ParserResult, ParseError>(
                    ParseError::BufferOverflow(byte_len(text@) as usize),
                )
            } else {
                r matches Ok(split) && split@ == told_apart(
                    mistral_config(),
                    old(self)@.in_reasoning,
                    text@,
                )
            },
    {
        self.base.detect_and_parse_reasoning(text)
    }

    /// Take in a chunk of a stream.
    pub fn parse_reasoning_streaming_incremental(&mut self, text: &str) -> (r: Result<
        ParserResult,
        ParseError,
    >)
        requires
            old(self).wf(),
        ensures
            final(self).wf(),
            ({
                let held = byte_len(old(self)@.buffer) + byte_len(text@);
                if held > DEFAULT_MAX_BUFFER_SIZE {
                    &&& r matches Err(ParseError::BufferOverflow(n)) && (held <= usize::MAX ==> n
                        == held)
                    &&& final(self)@ == old(self)@
                } else {
                    let p = progress(mistral_config(), old(self)@, old(self)@.buffer + text@);
                    &&& r matches Ok(split) && split@ == p.split
                    &&& final(self)@ == p.state
                }
            }),
    {
        self.base.parse_reasoning_streaming_incremental(text)
    }

    /// Forget everything.
    pub fn reset(&mut self)
        requires
            old(self).wf(),
        ensures
            final(self).wf(),
            final(self)@ == fresh(mistral_config()),
    {
        self.base.reset();
    }

    /// The name of the model.
    pub fn model_type(&self) -> (r: &str)
        requires
            self.wf(),
        ensures
            r@ == "mistral"@,
    {
        self.base.model_type()
    }

    /// Whether reasoning has begun and not ended.
    pub fn is_in_reasoning(&self) -> (r: bool)
        ensures
            r == self@.in_reasoning,
    {
        self.base.is_in_reasoning()
    }

    /// Reasoning has begun.
    pub fn mark_reasoning_started(&mut self)
        requires
            old(self).wf(),
        ensures
            final(self).wf(),
            final(self)@ == (ReasoningView { in_reasoning: true, ..old(self)@ }),
    {
        self.base.mark_reasoning_started();
    }

    /// The start marker has been dropped.
    pub fn mark_think_start_stripped(&mut self)
        requires
            old(self).wf(),
        ensures
            final(self).wf(),
            final(self)@ == (ReasoningView { stripped: true, ..old(self)@ }),
    {
        self.base.mark_think_start_stripped();
    }
}

/// A fresh parser is not in reasoning, so a text without the start marker is the
/// answer as it stands.
pub proof fn law_without_marker_all_is_answer(text: Seq<char>)
    requires
        !crate::text::contains_text(text, "[THINK]"@),
    ensures
        told_apart(mistral_config(), fresh(mistral_config()).in_reasoning, text).normal == text,
        told_apart(mistral_config(), fresh(mistral_config()).in_reasoning, text).reasoning.len()
            == 0,
{
}

impl Default for MistralParser {
    fn default() -> (r: Self)
        ensures
            r.wf(),
            r@ == fresh(mistral_config()),
    {
        Self::new()
    }
}

} // verus!
