//! The reasoning parser for Step-3.5 models.
use super::base::{
    byte_len, fresh, progress, told_apart, BaseReasoningParser, ConfigView, ParseError,
    ParserConfig, ParserResult, ReasoningView, DEFAULT_MAX_BUFFER_SIZE,
};
use vstd::prelude::*;

verus! {

/// Reasoning stands between `<think>` and `</think>`, and the output begins with it
/// even where the first marker is missing.
pub open spec fn step3p5_config() -> ConfigView {
    ConfigView {
        start: "<think>"@,
        end: "</think>"@,
        stream_reasoning: true,
        max_buffer_size: DEFAULT_MAX_BUFFER_SIZE as nat,
        always_in_reasoning: true,
    }
}

/// The reasoning parser for Step-3.5 models.
pub struct Step3p5Parser {
    base: BaseReasoningParser,
}

impl View for Step3p5Parser {
    type V = ReasoningView;

    closed spec fn view(&self) -> ReasoningView {
        self.base@
    }
}

impl Step3p5Parser {
    /// The parser uses the markers of the model.
    pub closed spec fn wf(&self) -> bool {
        &&& self.base.wf()
        &&& self.base.config() == step3p5_config()
        &&& self.base.model() == "step3p5"@
    }

    /// A parser to which nothing has been given.
    pub fn new() -> (r: Self)
        ensures
            r.wf(),
            r@ == fresh(step3p5_config()),
    {
        proof {
            reveal_strlit("<think>");
        }
        let config = ParserConfig {
            think_start_token: "<think>".to_owned(),
            think_end_token: "</think>".to_owned(),
            stream_reasoning: true,
            max_buffer_size: DEFAULT_MAX_BUFFER_SIZE,
            always_in_reasoning: true,
        };
        assert(config@ =~= step3p5_config());
        Step3p5Parser { base: BaseReasoningParser::new(config).with_model_type("step3p5".to_owned()) }
    }

    /// Tell a complete text apart.
    pub fn detect_and_parse_reasoning(&mut self, text: &str) -> (r: Result<
        ParserResult,
        ParseError,
    >)
        requires
            old(self).wf(),
        ensures
            final(self).wf(),
            final(self)@ == old(self)@,
            if byte_len(text@) > DEFAULT_MAX_BUFFER_SIZE {
                r == Err::<ParserResult, ParseError>(
                    ParseError::BufferOverflow(byte_len(text@) as usize),
                )
            } else {
                r matches Ok(split) && split@ == told_apart(
                    step3p5_config(),
                    old(self)@.in_reasoning,
                    text@,
                )
            },
    {
        self.base.detect_and_parse_reasoning(text)
    }

    /// Take in a chunk of a stream.
    pub fn parse_reasoning_streaming_incremental(&mut self, text: &str) -> (r: Result<
        ParserResult,
        ParseError,
    >)
        requires
            old(self).wf(),
        ensures
            final(self).wf(),
            ({
                let held = byte_len(old(self)@.buffer) + byte_len(text@);
                if held > DEFAULT_MAX_BUFFER_SIZE {
                    &&& r matches Err(ParseError::BufferOverflow(n)) && (held <= usize::MAX ==> n
                        == held)
                    &&& final(self)@ == old(self)@
                } else {
                    let p = progress(step3p5_config(), old(self)@, old(self)@.buffer + text@);
                    &&& r matches Ok(split) && split@ == p.split
                    &&& final(self)@ == p.state
                }
            }),
    {
        self.base.parse_reasoning_streaming_incremental(text)
    }

    /// Forget everything.
    pub fn reset(&mut self)
        requires
            old(self).wf(),
        ensures
            final(self).wf(),
            final(self)@ == fresh(step3p5_config()),
    {
        self.base.reset();
    }

    /// The name of the model.
    pub fn model_type(&self) -> (r: &str)
        requires
            self.wf(),
        ensures
            r@ == "step3p5"@,
    {
        self.base.model_type()
    }

    /// Whether reasoning has begun and not ended.
    pub fn is_in_reasoning(&self) -> (r: bool)
        ensures
            r == self@.in_reasoning,
    {
        self.base.is_in_reasoning()
    }

    /// Reasoning has begun.
    pub fn mark_reasoning_started(&mut self)
        requires
            old(self).wf(),
        ensures
            final(self).wf(),
            final(self)@ == (ReasoningView { in_reasoning: true, ..old(self)@ }),
    {
        self.base.mark_reasoning_started();
    }

    /// The start marker has been dropped.
    pub fn mark_think_start_stripped(&mut self)
        requires
            old(self).wf(),
        ensures
            final(self).wf(),
            final(self)@ == (ReasoningView { stripped: true, ..old(self)@ }),
    {
        self.base.mark_think_start_stripped();
    }
}

/// A fresh parser is in reasoning, so a text without markers is reasoning as it
/// stands.
pub proof fn law_without_markers_all_is_reasoning(text: Seq<char>)
    requires
        !crate::text::contains_text(text, "<think>"@),
        !crate::text::contains_text(text, "</think>"@),
    ensures
        told_apart(step3p5_config(), fresh(step3p5_config()).in_reasoning, text).reasoning == text,
        told_apart(step3p5_config(), fresh(step3p5_config()).in_reasoning, text).normal.len() == 0,
{
    super::base::lemma_without_nothing(text, "<think>"@);
}

impl Default for Step3p5Parser {
    fn default() -> (r: Self)
        ensures
            r.wf(),
            r@ == fresh(step3p5_config()),
    {
        Self::new()
    }
}

} // verus!
