//! Telling reasoning apart in the Mistral format.
use smg::reasoning_parser::base::ParseError;
use smg::reasoning_parser::mistral::MistralParser;

#[test]
fn mistral_test_model_type() {
    let parser = MistralParser::new();
    assert_eq!(parser.model_type(), "mistral");
}

#[test]
fn test_fresh_parser_not_in_reasoning() {
    // always_in_reasoning=false: a fresh parser starts outside reasoning.
    let parser = MistralParser::new();
    assert!(!parser.is_in_reasoning());
}

#[test]
fn test_complete_extraction() {
    let mut parser = MistralParser::new();
    let result = parser
        .detect_and_parse_reasoning("[THINK]reasoning here[/THINK]normal text")
        .unwrap();
    assert_eq!(result.reasoning_text, "reasoning here");
    assert_eq!(result.normal_text, "normal text");
}

#[test]
fn test_complete_extraction_preserves_whitespace() {
    let mut parser = MistralParser::new();
    let result = parser
        .detect_and_parse_reasoning("[THINK]foo[/THINK] hello world")
        .unwrap();
    assert_eq!(result.reasoning_text, "foo");
    assert_eq!(result.normal_text, " hello world");
}

#[test]
fn test_no_reasoning_passthrough() {
    // No [THINK] token at all => everything is normal content.
    let mut parser = MistralParser::new();
    let result = parser
        .detect_and_parse_reasoning("just a plain answer with no reasoning")
        .unwrap();
    assert_eq!(result.reasoning_text, "");
    assert_eq!(result.normal_text, "just a plain answer with no reasoning");
}

#[test]
fn test_truncated_reasoning_no_end_token() {
    let mut parser = MistralParser::new();
    let result = parser
        .detect_and_parse_reasoning("[THINK]reasoning was cut off")
        .unwrap();
    assert_eq!(result.reasoning_text, "reasoning was cut off");
    assert_eq!(result.normal_text, "");
}

#[test]
fn mistral_test_streaming_incremental() {
    let mut parser = MistralParser::new();

    // Start token + reasoning content in one chunk.
    let result1 = parser
        .parse_reasoning_streaming_incremental("[THINK]thinking about")
        .unwrap();
    assert_eq!(result1.reasoning_text, "thinking about");
    assert_eq!(result1.normal_text, "");

    // More reasoning content.
    let result2 = parser
        .parse_reasoning_streaming_incremental(" the problem")
        .unwrap();
    assert_eq!(result2.reasoning_text, " the problem");
    assert_eq!(result2.normal_text, "");

    // End token followed by normal text.
    let result3 = parser
        .parse_reasoning_streaming_incremental("[/THINK]the answer")
        .unwrap();
    assert_eq!(result3.reasoning_text, "");
    assert_eq!(result3.normal_text, "the answer");
}

#[test]
fn test_streaming_split_inside_start_marker() {
    let mut parser = MistralParser::new();

    // "[THINK]" arrives split across chunk boundaries: "[TH" then "INK]".
    let r1 = parser.parse_reasoning_streaming_incremental("[TH").unwrap();
    // Partial start token must be buffered, emitting nothing yet.
    assert_eq!(r1.reasoning_text, "");
    assert_eq!(r1.normal_text, "");

    let r2 = parser
        .parse_reasoning_streaming_incremental("INK]reasoning")
        .unwrap();
    assert_eq!(r2.reasoning_text, "reasoning");
    assert_eq!(r2.normal_text, "");
}

#[test]
fn test_streaming_split_inside_end_marker() {
    let mut parser = MistralParser::new();

    // Enter reasoning.
    let r1 = parser
        .parse_reasoning_streaming_incremental("[THINK]deep thought")
        .unwrap();
    assert_eq!(r1.reasoning_text, "deep thought");
    assert_eq!(r1.normal_text, "");

    // End marker "[/THINK]" split across boundaries: "[/TH" then "INK]done".
    let r2 = parser
        .parse_reasoning_streaming_incremental("[/TH")
        .unwrap();
    // Partial end token must be buffered, emitting nothing yet.
    assert_eq!(r2.reasoning_text, "");
    assert_eq!(r2.normal_text, "");

    let r3 = parser
        .parse_reasoning_streaming_incremental("INK]done")
        .unwrap();
    assert_eq!(r3.reasoning_text, "");
    assert_eq!(r3.normal_text, "done");
}

#[test]
fn test_streaming_no_reasoning_passthrough() {
    let mut parser = MistralParser::new();
    let result = parser
        .parse_reasoning_streaming_incremental("plain content")
        .unwrap();
    assert_eq!(result.reasoning_text, "");
    assert_eq!(result.normal_text, "plain content");
}

#[test]
fn test_reset_behavior() {
    let mut parser = MistralParser::new();

    // Drive the parser into reasoning state.
    parser
        .parse_reasoning_streaming_incremental("[THINK]partial reasoning")
        .unwrap();
    assert!(parser.is_in_reasoning());

    // Reset restores the always_in_reasoning=false starting state.
    parser.reset();
    assert!(!parser.is_in_reasoning());

    // After reset, parsing starts cleanly again.
    let result = parser
        .detect_and_parse_reasoning("[THINK]again[/THINK]answer")
        .unwrap();
    assert_eq!(result.reasoning_text, "again");
    assert_eq!(result.normal_text, "answer");
}

#[test]
fn too_long_a_text_is_refused() {
    let mut parser = MistralParser::new();
    let text = "x".repeat(65_537);
    assert_eq!(
        parser.detect_and_parse_reasoning(&text).unwrap_err(),
        ParseError::BufferOverflow(65_537)
    );
    assert_eq!(
        parser
            .parse_reasoning_streaming_incremental(&text)
            .unwrap_err(),
        ParseError::BufferOverflow(65_537)
    );
    // The limit counts bytes, not characters.
    let wide = "\u{e9}".repeat(32_769);
    assert_eq!(
        parser.detect_and_parse_reasoning(&wide).unwrap_err(),
        ParseError::BufferOverflow(65_538)
    );
    assert!(parser.detect_and_parse_reasoning(&text[1..]).is_ok());
}

#[test]
fn every_start_marker_is_dropped_and_the_first_end_marker_counts() {
    let mut parser = MistralParser::new();
    let result = parser
        .detect_and_parse_reasoning("a[THINK]b[THINK]c[/THINK]d[/THINK]e")
        .unwrap();
    assert_eq!(result.reasoning_text, "abc");
    assert_eq!(result.normal_text, "d[/THINK]e");
}

#[test]
fn a_second_start_marker_in_a_stream_stays() {
    let mut parser = MistralParser::new();
    let first = parser
        .parse_reasoning_streaming_incremental("[THINK]a[/THINK]b")
        .unwrap();
    assert_eq!(first.reasoning_text, "a");
    assert_eq!(first.normal_text, "b");
    let second = parser
        .parse_reasoning_streaming_incremental("[THINK]c")
        .unwrap();
    assert_eq!(second.reasoning_text, "");
    assert_eq!(second.normal_text, "[THINK]c");
}

#[test]
fn marks_are_heeded() {
    let mut parser = MistralParser::new();
    parser.mark_reasoning_started();
    assert!(parser.is_in_reasoning());
    parser.mark_think_start_stripped();
    let result = parser
        .parse_reasoning_streaming_incremental("[THINK]kept")
        .unwrap();
    assert_eq!(result.reasoning_text, "[THINK]kept");
}

#[test]
fn a_default_parser_is_fresh() {
    assert!(!MistralParser::default().is_in_reasoning());
}
