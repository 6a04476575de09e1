//! Telling reasoning apart in the Step-3.5 format.
use smg::reasoning_parser::base::{BaseReasoningParser, ParserConfig};
use smg::reasoning_parser::step3p5::Step3p5Parser;

#[test]
fn step3p5_test_model_type() {
    let parser = Step3p5Parser::new();
    assert_eq!(parser.model_type(), "step3p5");
}

#[test]
fn test_initial_state_is_in_reasoning() {
    let parser = Step3p5Parser::new();
    // always_in_reasoning=true seeds in_reasoning on a fresh parser.
    assert!(parser.is_in_reasoning());
}

#[test]
fn test_reasoning_without_start_token() {
    let mut parser = Step3p5Parser::new();

    // Output begins inside reasoning even without a leading <think>.
    let result = parser
        .detect_and_parse_reasoning("reasoning content</think>answer")
        .unwrap();
    assert_eq!(result.reasoning_text, "reasoning content");
    assert_eq!(result.normal_text, "answer");
}

#[test]
fn test_reasoning_with_both_tokens() {
    let mut parser = Step3p5Parser::new();

    let result = parser
        .detect_and_parse_reasoning("<think>thinking here</think>normal text")
        .unwrap();
    assert_eq!(result.reasoning_text, "thinking here");
    assert_eq!(result.normal_text, "normal text");
}

#[test]
fn test_no_think_passthrough() {
    let mut parser = Step3p5Parser::new();

    // No end token: everything is reasoning (always_in_reasoning=true).
    let result = parser
        .detect_and_parse_reasoning("just reasoning, no end token")
        .unwrap();
    assert_eq!(result.reasoning_text, "just reasoning, no end token");
    assert_eq!(result.normal_text, "");
}

#[test]
fn step3p5_test_streaming_incremental() {
    let mut parser = Step3p5Parser::new();

    // First chunk - treated as reasoning.
    let result1 = parser
        .parse_reasoning_streaming_incremental("reasoning text ")
        .unwrap();
    assert_eq!(result1.normal_text, "");
    assert_eq!(result1.reasoning_text, "reasoning text ");

    // Second chunk - continues reasoning until end token, then content.
    let result2 = parser
        .parse_reasoning_streaming_incremental("more</think>answer")
        .unwrap();
    assert_eq!(result2.normal_text, "answer");
    assert_eq!(result2.reasoning_text, "more");
}

#[test]
fn test_reset() {
    let mut parser = Step3p5Parser::new();

    parser
        .parse_reasoning_streaming_incremental("partial reasoning")
        .unwrap();
    parser.reset();

    // After reset, in_reasoning is restored to the always_in_reasoning flag.
    assert!(parser.is_in_reasoning());

    let result = parser
        .detect_and_parse_reasoning("fresh</think>content")
        .unwrap();
    assert_eq!(result.reasoning_text, "fresh");
    assert_eq!(result.normal_text, "content");
}

#[test]
fn a_default_step_parser_is_in_reasoning() {
    assert!(Step3p5Parser::default().is_in_reasoning());
}

#[test]
fn reasoning_that_is_not_streamed_is_held_back() {
    let config = ParserConfig {
        think_start_token: "<think>".to_string(),
        think_end_token: "</think>".to_string(),
        stream_reasoning: false,
        max_buffer_size: 100,
        always_in_reasoning: true,
    };
    let mut parser = BaseReasoningParser::new(config);
    assert_eq!(parser.model_type(), "base");
    let first = parser.parse_reasoning_streaming_incremental("one ").unwrap();
    assert_eq!(first.reasoning_text, "");
    assert_eq!(first.normal_text, "");
    let second = parser
        .parse_reasoning_streaming_incremental("two</think>three")
        .unwrap();
    assert_eq!(second.reasoning_text, "one two");
    assert_eq!(second.normal_text, "three");
    assert!(!parser.is_in_reasoning());
}
