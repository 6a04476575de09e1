//! Calls in the Step-3.5 format.
use smg::tool_parser::json::{
    coerce_value, declared_kind, infer_from, infer_value, is_same_value, read_integer, NumberReader, ValueKind,
};
use smg::tool_parser::step3p5::Step3p5Parser;
use smg::tool_parser::types::{ParamType, ParserError, Tool, ToolCallItem};

/// The JSON text of the number that a text spells. Whole numbers are integers.
fn read_float(text: &str) -> Option<String> {
    let f = text.parse::<f64>().ok()?;
    if f.fract() == 0.0 && f.is_finite() && f.abs() < (i64::MAX as f64) {
        return Some((f as i64).to_string());
    }
    serde_json::Number::from_f64(f).map(|n| n.to_string())
}

fn numbers() -> NumberReader<impl Fn(&str) -> Option<String>> {
    NumberReader::new(read_float)
}

fn json(text: &str) -> serde_json::Value {
    serde_json::from_str(text).unwrap()
}

fn tool(name: &str, params: &[(&str, &str)]) -> Tool {
    Tool {
        name: name.to_string(),
        params: params
            .iter()
            .map(|(key, declared)| ParamType {
                key: key.to_string(),
                declared: declared.to_string(),
            })
            .collect(),
    }
}

fn create_test_tools() -> Vec<Tool> {
    vec![
        tool("search", &[("query", "string")]),
        tool("get_weather", &[("city", "string"), ("units", "string")]),
        tool("get_time", &[]),
        tool(
            "process",
            &[
                ("count", "number"),
                ("rate", "number"),
                ("enabled", "boolean"),
                ("data", "object"),
                ("text", "string"),
            ],
        ),
    ]
}

fn create_realistic_chunks(input: &str) -> Vec<String> {
    let chars: Vec<char> = input.chars().collect();
    let mut chunks = Vec::new();
    let mut at = 0;
    while at < chars.len() {
        let size = if chunks.len() % 2 == 0 { 2 } else { 3 };
        let end = (at + size).min(chars.len());
        chunks.push(chars[at..end].iter().collect());
        at = end;
    }
    chunks
}

#[test]
fn test_step3p5_single_tool() {
    let parser = Step3p5Parser::new();
    let input = r"<tool_call>
<function=get_weather>
<parameter=city>Beijing</parameter>
<parameter=units>celsius</parameter>
</function>
</tool_call>";

    let (_normal, tools) = parser.parse_complete(input, &numbers()).unwrap();
    assert_eq!(tools.len(), 1);
    assert_eq!(tools[0].function.name, "get_weather");

    let args: serde_json::Value = serde_json::from_str(&tools[0].function.arguments).unwrap();
    assert_eq!(args["city"], "Beijing");
    assert_eq!(args["units"], "celsius");
}

#[test]
fn test_step3p5_normal_text_before_call() {
    let parser = Step3p5Parser::new();
    let input = r"Let me check that for you.
<tool_call>
<function=search>
<parameter=query>rust async</parameter>
</function>
</tool_call>";

    let (normal, tools) = parser.parse_complete(input, &numbers()).unwrap();
    assert_eq!(tools.len(), 1);
    assert_eq!(tools[0].function.name, "search");
    assert_eq!(normal, "Let me check that for you.\n");
}

#[test]
fn test_step3p5_parallel_tools() {
    let parser = Step3p5Parser::new();
    let input = r"<tool_call>
<function=get_weather>
<parameter=city>Tokyo</parameter>
</function>
</tool_call>
<tool_call>
<function=search>
<parameter=query>weather forecast</parameter>
</function>
</tool_call>";

    let (_normal, tools) = parser.parse_complete(input, &numbers()).unwrap();
    assert_eq!(tools.len(), 2);
    assert_eq!(tools[0].function.name, "get_weather");
    assert_eq!(tools[1].function.name, "search");
}

#[test]
fn test_step3p5_empty_parameters() {
    let parser = Step3p5Parser::new();
    let input = r"<tool_call>
<function=get_time>
</function>
</tool_call>";

    let (_normal, tools) = parser.parse_complete(input, &numbers()).unwrap();
    assert_eq!(tools.len(), 1);
    assert_eq!(tools[0].function.name, "get_time");

    let args: serde_json::Value = serde_json::from_str(&tools[0].function.arguments).unwrap();
    assert_eq!(args, json("{}"));
}

#[test]
fn test_step3p5_empty_parameter_value() {
    let parser = Step3p5Parser::new();
    let input = r"<tool_call>
<function=process>
<parameter=text></parameter>
<parameter=count>5</parameter>
</function>
</tool_call>";

    let (_normal, tools) = parser.parse_complete_with_tools(input, &create_test_tools(), &numbers()).unwrap();
    assert_eq!(tools.len(), 1);

    let args: serde_json::Value = serde_json::from_str(&tools[0].function.arguments).unwrap();
    assert_eq!(args["text"], "");
    // count is declared "number" in the test schema.
    assert_eq!(args["count"], 5);
}

#[test]
fn test_step3p5_no_markers_passthrough() {
    let parser = Step3p5Parser::new();
    let input = "This is a plain response with no tool calls at all. \
Even if it mentions get_weather or search, they are not calls.";

    let (normal, tools) = parser.parse_complete(input, &numbers()).unwrap();
    assert_eq!(tools.len(), 0);
    assert_eq!(normal, input);
}

#[test]
fn test_step3p5_format_detection() {
    let parser = Step3p5Parser::new();
    assert!(parser.has_tool_markers("<tool_call>"));
    assert!(parser.has_tool_markers("hello <tool_call>"));
    assert!(!parser.has_tool_markers("plain text"));
    assert!(!parser.has_tool_markers("<function=test>"));
}

#[test]
fn test_step3p5_type_coercion_with_schema() {
    let parser = Step3p5Parser::new();
    let tools = create_test_tools();

    // `process` declares: count(number), rate(number), enabled(boolean),
    // data(object), text(string).
    let input = r#"<tool_call>
<function=process>
<parameter=count>42</parameter>
<parameter=rate>1.5</parameter>
<parameter=enabled>true</parameter>
<parameter=data>{"k": [1, 2]}</parameter>
<parameter=text>123</parameter>
</function>
</tool_call>"#;

    let (_normal, calls) = parser.parse_complete_with_tools(input, &tools, &numbers()).unwrap();
    assert_eq!(calls.len(), 1);

    let args: serde_json::Value = serde_json::from_str(&calls[0].function.arguments).unwrap();
    assert_eq!(args["count"], 42);
    assert_eq!(args["rate"], 1.5);
    assert_eq!(args["enabled"], true);
    assert_eq!(args["data"], json(r#"{"k": [1, 2]}"#));
    // Declared as string, so a numeric-looking value stays a string.
    assert_eq!(args["text"], "123");
}

#[test]
fn test_step3p5_inference_without_schema() {
    let parser = Step3p5Parser::new();

    // No tools supplied: values are inferred JSON-first.
    let input = r"<tool_call>
<function=process>
<parameter=count>42</parameter>
<parameter=text>hello</parameter>
</function>
</tool_call>";

    let (_normal, calls) = parser.parse_complete(input, &numbers()).unwrap();
    assert_eq!(calls.len(), 1);

    let args: serde_json::Value = serde_json::from_str(&calls[0].function.arguments).unwrap();
    // Inferred: numeric text parses as a number.
    assert_eq!(args["count"], 42);
    assert_eq!(args["text"], "hello");
}

#[test]
fn test_step3p5_streaming_basic() {
    let mut parser = Step3p5Parser::new();
    let tools = create_test_tools();

    let chunks = vec![
        "<tool_call>",
        "<function=get_weather>",
        "<parameter=city>Shanghai</parameter>",
        "<parameter=units>celsius</parameter>",
        "</function>",
        "</tool_call>",
    ];

    let mut found_name = false;
    let mut found_params = false;

    for chunk in chunks {
        let result = parser.parse_incremental(chunk, &tools, &numbers()).unwrap();
        for call in result.calls {
            if let Some(name) = call.name {
                assert_eq!(name, "get_weather");
                found_name = true;
            }
            if !call.parameters.is_empty() {
                found_params = true;
            }
        }
    }

    assert!(found_name, "Should have found tool name during streaming");
    assert!(found_params, "Should have streamed parameters");
}

#[test]
fn test_step3p5_streaming_across_chunk_boundaries() {
    let mut parser = Step3p5Parser::new();
    let tools = create_test_tools();

    // Tags split mid-token across chunk boundaries.
    let chunks = vec![
        "<tool_c",
        "all><function=",
        "get_weather><param",
        "eter=city>Bei",
        "jing</parameter></func",
        "tion></tool_call>",
    ];

    let mut found_name = false;
    let mut streamed_args = String::new();

    for chunk in chunks {
        let result = parser.parse_incremental(chunk, &tools, &numbers()).unwrap();
        for call in result.calls {
            if let Some(name) = call.name {
                assert_eq!(name, "get_weather");
                found_name = true;
            }
            streamed_args.push_str(&call.parameters);
        }
    }

    assert!(found_name, "Should parse function name from partial chunks");
    assert!(
        streamed_args.contains("city"),
        "Should stream the city parameter, got: {streamed_args}"
    );
}

#[test]
fn test_step3p5_streaming_realistic_char_chunks() {
    let mut parser = Step3p5Parser::new();
    let tools = create_test_tools();

    let input = r"<tool_call>
<function=get_weather>
<parameter=city>Tokyo</parameter>
<parameter=units>celsius</parameter>
</function>
</tool_call>";

    let mut got_tool_name = false;
    for chunk in create_realistic_chunks(input) {
        let result = parser.parse_incremental(&chunk, &tools, &numbers()).unwrap();
        for call in result.calls {
            if let Some(name) = call.name {
                assert_eq!(name, "get_weather");
                got_tool_name = true;
            }
        }
    }

    assert!(
        got_tool_name,
        "Should parse tool name from char-level chunks"
    );
}

#[test]
fn test_step3p5_streaming_no_markers_returns_text() {
    let mut parser = Step3p5Parser::new();
    let tools = create_test_tools();

    let result = parser.parse_incremental("just some normal text", &tools, &numbers()).unwrap();
    assert_eq!(result.normal_text, "just some normal text");
    assert!(result.calls.is_empty());
}

#[test]
fn test_step3p5_streaming_parallel() {
    let mut parser = Step3p5Parser::new();
    let tools = create_test_tools();

    let chunks = vec![
        "<tool_call><function=get_weather><parameter=city>Tokyo</parameter></function></tool_call>",
        "<tool_call><function=search><parameter=query>forecast</parameter></function></tool_call>",
    ];

    let mut tool_names = Vec::new();
    for chunk in chunks {
        let result = parser.parse_incremental(chunk, &tools, &numbers()).unwrap();
        for call in result.calls {
            if let Some(name) = call.name {
                tool_names.push(name);
            }
        }
    }

    assert_eq!(tool_names, vec!["get_weather", "search"]);
}

#[test]
fn test_step3p5_reset_between_requests() {
    let mut parser = Step3p5Parser::new();
    let tools = create_test_tools();

    // First request.
    for chunk in [
        "<tool_call><function=get_weather>",
        "<parameter=city>London</parameter>",
        "</function></tool_call>",
    ] {
        parser.parse_incremental(chunk, &tools, &numbers()).unwrap();
    }

    parser.reset();

    // Second request after reset.
    let mut second_tool_name = None;
    for chunk in [
        "<tool_call><function=search>",
        "<parameter=query>rust</parameter>",
        "</function></tool_call>",
    ] {
        let result = parser.parse_incremental(chunk, &tools, &numbers()).unwrap();
        for call in result.calls {
            if let Some(name) = call.name {
                second_tool_name = Some(name);
            }
        }
    }

    assert_eq!(second_tool_name, Some("search".to_string()));
}

#[test]
fn test_step3p5_invalid_function_name_skipped() {
    let mut parser = Step3p5Parser::new();
    let tools = create_test_tools();

    let chunks = vec![
        "<tool_call>",
        "<function=not_a_real_tool>",
        "<parameter=x>1</parameter>",
        "</function></tool_call>",
    ];

    let mut found_invalid = false;
    for chunk in chunks {
        let result = parser.parse_incremental(chunk, &tools, &numbers()).unwrap();
        for call in result.calls {
            if call.name.as_deref() == Some("not_a_real_tool") {
                found_invalid = true;
            }
        }
    }

    assert!(!found_invalid, "Invalid function should not be emitted");
}

#[test]
fn test_step3p5_text_before_and_after_call() {
    let parser = Step3p5Parser::new();
    let input = r"I'll analyze the weather for you now.
<tool_call>
<function=get_weather>
<parameter=city>Boston</parameter>
<parameter=units>celsius</parameter>
</function>
</tool_call>
Based on the analysis, here's what I found.";

    let (normal_text, tools) = parser.parse_complete(input, &numbers()).unwrap();
    assert_eq!(tools.len(), 1);
    assert_eq!(tools[0].function.name, "get_weather");

    // Normal text is only what precedes the first `<tool_call>`:
    // what follows a block is not part of it.
    assert!(normal_text.contains("I'll analyze the weather for you now."));
    assert!(!normal_text.contains("Based on the analysis"));

    let args: serde_json::Value = serde_json::from_str(&tools[0].function.arguments).unwrap();
    assert_eq!(args["city"], "Boston");
    assert_eq!(args["units"], "celsius");
}

#[test]
fn test_step3p5_incomplete_tool_call_returns_text() {
    let parser = Step3p5Parser::new();

    // A block that is not closed is no call, so the input is returned verbatim.
    let input = r"<tool_call>
<function=get_weather>
<parameter=city>Chicago</parameter>";

    let (normal_text, tools) = parser.parse_complete(input, &numbers()).unwrap();
    assert_eq!(
        tools.len(),
        0,
        "must not emit a bogus call for a truncated block"
    );
    assert_eq!(normal_text, input);
}

#[test]
fn test_step3p5_malformed_function_tag_unclosed() {
    let parser = Step3p5Parser::new();

    // `<function=get_weather` is never closed with its own `>`, so the name goes on
    // to the first `>` there is: the one that closes `<parameter=city>`. The name
    // is not empty, so there is a call.
    let input = r"<tool_call>
<function=get_weather
<parameter=city>Miami</parameter>
</function>
</tool_call>";

    let (_normal, tools) = parser.parse_complete(input, &numbers()).unwrap();
    assert_eq!(tools.len(), 1);
    assert_ne!(
        tools[0].function.name, "get_weather",
        "the unclosed tag over-captures, so the name is not the clean value"
    );
    assert!(
        tools[0].function.name.contains("get_weather"),
        "over-captured name still contains the intended prefix, got: {}",
        tools[0].function.name
    );
}

#[test]
fn test_step3p5_missing_function_name() {
    let parser = Step3p5Parser::new();

    // `<function=>` has an empty name, so there is no call.
    let input = r"<tool_call>
<function=>
<parameter=city>Miami</parameter>
</function>
</tool_call>";

    let (normal_text, tools) = parser.parse_complete(input, &numbers()).unwrap();
    assert_eq!(tools.len(), 0);
    assert_eq!(normal_text, input);
}

#[test]
fn test_step3p5_special_characters_in_values() {
    let parser = Step3p5Parser::new();

    // Note: `<`/`>`-like text inside a value works as long as it does not form a
    // literal `</parameter>`: a value ends at the first closing tag.
    let input = r#"<tool_call>
<function=process>
<parameter=text>Special chars: @#$%^&*()</parameter>
<parameter=emoji>🦀 Rust 🚀 你好</parameter>
<parameter=quotes>"double" and 'single' quotes</parameter>
<parameter=angles>a < b and c > d</parameter>
</function>
</tool_call>"#;

    let (_normal, tools) = parser.parse_complete_with_tools(input, &create_test_tools(), &numbers()).unwrap();
    assert_eq!(tools.len(), 1);

    let args: serde_json::Value = serde_json::from_str(&tools[0].function.arguments).unwrap();
    // `text` is declared `string`, so it is kept verbatim.
    assert_eq!(args["text"], "Special chars: @#$%^&*()");
    assert_eq!(args["emoji"], "🦀 Rust 🚀 你好");
    assert_eq!(args["quotes"], "\"double\" and 'single' quotes");
    assert_eq!(args["angles"], "a < b and c > d");
}

#[test]
fn test_step3p5_whitespace_handling() {
    let parser = Step3p5Parser::new();
    let tools = create_test_tools();

    // Indented tags and padded values. `text` is a declared `string` so it is
    // preserved verbatim (no trim); inferred values are trimmed before parsing.
    let input = r"<tool_call>
    <function=process>
        <parameter=text>  spaces around  </parameter>
        <parameter=count>  7  </parameter>
    </function>
</tool_call>";

    let (_normal, tools) = parser.parse_complete_with_tools(input, &tools, &numbers()).unwrap();
    assert_eq!(tools.len(), 1);

    let args: serde_json::Value = serde_json::from_str(&tools[0].function.arguments).unwrap();
    // string schema keeps surrounding whitespace verbatim.
    assert_eq!(args["text"], "  spaces around  ");
    // number schema trims before parsing.
    assert_eq!(args["count"], 7);
}

#[test]
fn test_step3p5_many_parameters() {
    let parser = Step3p5Parser::new();

    let mut params_xml = String::new();
    for i in 1..=10 {
        params_xml.push_str(&format!("<parameter=param{i}>value{i}</parameter>\n"));
    }
    let input =
        format!("<tool_call>\n<function=complex_func>\n{params_xml}</function>\n</tool_call>");

    let (_normal, tools) = parser.parse_complete(&input, &numbers()).unwrap();
    assert_eq!(tools.len(), 1);
    assert_eq!(tools[0].function.name, "complex_func");

    let args: serde_json::Value = serde_json::from_str(&tools[0].function.arguments).unwrap();
    for i in 1..=10 {
        assert_eq!(args[format!("param{i}")], format!("value{i}"));
    }
}

#[test]
fn test_step3p5_unknown_function_complete_is_forwarded() {
    let parser = Step3p5Parser::new();
    let tools = create_test_tools();

    // In a complete text only an empty name is refused, so a call of an unknown
    // function is passed on. In a stream it is not: see
    // `test_step3p5_invalid_function_name_skipped`.
    let input = r"<tool_call>
<function=not_a_real_tool>
<parameter=x>1</parameter>
</function>
</tool_call>";

    let (_normal, calls) = parser.parse_complete_with_tools(input, &tools, &numbers()).unwrap();
    assert_eq!(calls.len(), 1);
    assert_eq!(calls[0].function.name, "not_a_real_tool");
}

#[test]
fn test_step3p5_empty_tools_slice_infers_json_first() {
    let parser = Step3p5Parser::new();

    // No schema: values are inferred JSON-first with a string fallback
    // (`infer_value`): numbers/bools/null/objects/arrays parse, everything else
    // stays a string.
    let input = r#"<tool_call>
<function=process>
<parameter=int_val>42</parameter>
<parameter=float_val>2.5</parameter>
<parameter=bool_val>true</parameter>
<parameter=null_val>null</parameter>
<parameter=obj_val>{"a": 1}</parameter>
<parameter=arr_val>[1, 2, 3]</parameter>
<parameter=str_val>hello world</parameter>
</function>
</tool_call>"#;

    let (_normal, calls) = parser.parse_complete_with_tools(input, &[], &numbers()).unwrap();
    assert_eq!(calls.len(), 1);

    let args: serde_json::Value = serde_json::from_str(&calls[0].function.arguments).unwrap();
    assert_eq!(args["int_val"], 42);
    assert_eq!(args["float_val"], 2.5);
    assert_eq!(args["bool_val"], true);
    assert_eq!(args["null_val"], serde_json::Value::Null);
    assert_eq!(args["obj_val"], json(r#"{"a": 1}"#));
    assert_eq!(args["arr_val"], json("[1, 2, 3]"));
    assert_eq!(args["str_val"], "hello world");
}

#[test]
fn test_step3p5_invalid_value_with_object_schema_falls_back_to_string() {
    let parser = Step3p5Parser::new();
    let tools = create_test_tools();

    // `data` is declared `object` in the `process` schema. An unparseable value
    // must degrade gracefully to the raw string (see `coerce_value`), not error out the whole call.
    let input = r"<tool_call>
<function=process>
<parameter=data>{not valid json at all</parameter>
<parameter=text>ok</parameter>
</function>
</tool_call>";

    let (_normal, calls) = parser.parse_complete_with_tools(input, &tools, &numbers()).unwrap();
    assert_eq!(calls.len(), 1);

    let args: serde_json::Value = serde_json::from_str(&calls[0].function.arguments).unwrap();
    assert_eq!(args["data"], "{not valid json at all");
    assert_eq!(args["text"], "ok");
}

#[test]
fn test_step3p5_multiline_parameter_values() {
    let parser = Step3p5Parser::new();
    let tools = create_test_tools();

    let input = r"<tool_call>
<function=process>
<parameter=text>Line 1
Line 2
Line 3</parameter>
</function>
</tool_call>";

    let (_normal, tools) = parser.parse_complete_with_tools(input, &tools, &numbers()).unwrap();
    assert_eq!(tools.len(), 1);

    let args: serde_json::Value = serde_json::from_str(&tools[0].function.arguments).unwrap();
    // string schema preserves the embedded newlines verbatim.
    assert_eq!(args["text"], "Line 1\nLine 2\nLine 3");
}

#[test]
fn test_step3p5_multiple_functions_in_one_block() {
    let parser = Step3p5Parser::new();

    // A block holds one function. Where there are two declarations, the first
    // names the call, and the parameters of both belong to it.
    let input = r"<tool_call>
<function=get_weather>
<parameter=city>Tokyo</parameter>
</function>
<function=search>
<parameter=query>forecast</parameter>
</function>
</tool_call>";

    let (_normal, calls) = parser.parse_complete(input, &numbers()).unwrap();
    assert_eq!(calls.len(), 1, "one tool_call block yields one call");
    assert_eq!(calls[0].function.name, "get_weather");

    let args: serde_json::Value = serde_json::from_str(&calls[0].function.arguments).unwrap();
    // Both blocks' params are merged into the single emitted call.
    assert_eq!(args["city"], "Tokyo");
    assert_eq!(args["query"], "forecast");
}

#[test]
fn test_step3p5_back_to_back_blocks_streaming() {
    let mut parser = Step3p5Parser::new();
    let tools = create_test_tools();

    // Two complete blocks concatenated with no separator, fed in one chunk.
    let chunk = "<tool_call><function=get_weather><parameter=city>Tokyo</parameter></function></tool_call><tool_call><function=search><parameter=query>rust</parameter></function></tool_call>";

    let mut names = Vec::new();
    let result = parser.parse_incremental(chunk, &tools, &numbers()).unwrap();
    for call in result.calls {
        if let Some(name) = call.name {
            names.push(name);
        }
    }
    assert_eq!(names, vec!["get_weather", "search"]);
}

#[test]
fn test_step3p5_streaming_split_inside_function_tag() {
    let mut parser = Step3p5Parser::new();
    let tools = create_test_tools();

    // The split lands in the middle of `<function=get_weather>`.
    let chunks = vec![
        "<tool_call><function=get_w",
        "eather><parameter=city>Berlin</parameter></function></tool_call>",
    ];

    let mut found_name = false;
    for chunk in chunks {
        let result = parser.parse_incremental(chunk, &tools, &numbers()).unwrap();
        for call in result.calls {
            if let Some(name) = call.name {
                assert_eq!(name, "get_weather");
                found_name = true;
            }
        }
    }
    assert!(
        found_name,
        "name must resolve once the function tag completes"
    );
}

#[test]
fn test_step3p5_streaming_split_inside_parameter_tag() {
    let mut parser = Step3p5Parser::new();
    let tools = create_test_tools();

    // The split lands in the middle of `<parameter=city>`.
    let chunks = vec![
        "<tool_call><function=get_weather><param",
        "eter=city>Berlin</parameter></function></tool_call>",
    ];

    let mut streamed_args = String::new();
    for chunk in chunks {
        let result = parser.parse_incremental(chunk, &tools, &numbers()).unwrap();
        for call in result.calls {
            streamed_args.push_str(&call.parameters);
        }
    }
    assert!(
        streamed_args.contains("city"),
        "city parameter must stream once the tag completes, got: {streamed_args}"
    );
}

#[test]
fn test_step3p5_streaming_char_by_char_with_surrounding_text() {
    let mut parser = Step3p5Parser::new();
    let tools = create_test_tools();

    let complete = "Let me help. <tool_call><function=get_weather><parameter=city>Seattle</parameter></function></tool_call> Done.";

    let mut content = String::new();
    let mut tool_name_found = false;
    // Feed one byte at a time (ASCII-only input, so byte == char here).
    for i in 0..complete.len() {
        let delta = &complete[i..i + 1];
        let result = parser.parse_incremental(delta, &tools, &numbers()).unwrap();
        content.push_str(&result.normal_text);
        for call in result.calls {
            if let Some(name) = call.name {
                assert_eq!(name, "get_weather");
                tool_name_found = true;
            }
        }
    }

    assert!(
        tool_name_found,
        "name must be found under char-by-char streaming"
    );
    assert!(content.contains("Let me help."));
}

#[test]
fn test_step3p5_streaming_tiny_multibyte_bursts() {
    let mut parser = Step3p5Parser::new();
    let tools = create_test_tools();

    // Multi-byte value streamed via realistic 2-3 char chunks (the helper splits
    // on char boundaries, so multi-byte chars are never torn).
    let input = r"<tool_call>
<function=get_weather>
<parameter=city>北京市</parameter>
</function>
</tool_call>";

    let mut found_name = false;
    let mut streamed_args = String::new();
    for chunk in create_realistic_chunks(input) {
        let result = parser.parse_incremental(&chunk, &tools, &numbers()).unwrap();
        for call in result.calls {
            if let Some(name) = call.name {
                assert_eq!(name, "get_weather");
                found_name = true;
            }
            streamed_args.push_str(&call.parameters);
        }
    }
    assert!(found_name);
    assert!(
        streamed_args.contains("北京市"),
        "multi-byte value must stream intact, got: {streamed_args}"
    );
}

#[test]
fn test_step3p5_streaming_coercion_branches_with_schema() {
    let mut parser = Step3p5Parser::new();
    let tools = create_test_tools();

    // Drive every coercion branch end-to-end through streaming using the
    // `process` schema (count/rate: number, enabled: boolean, text: string) plus
    // a literal `null`. The float-with-whole-value branch (rate=2.0 -> 2) and the
    // string-kept-verbatim branch (text="123") are both exercised here.
    let chunks = vec![
        "<tool_call><function=process>",
        "<parameter=count>42</parameter>",
        "<parameter=rate>2.0</parameter>",
        "<parameter=enabled>true</parameter>",
        "<parameter=text>123</parameter>",
        "<parameter=data>null</parameter>",
        "</function></tool_call>",
    ];

    let mut args_json = String::new();
    for chunk in chunks {
        let result = parser.parse_incremental(chunk, &tools, &numbers()).unwrap();
        for call in result.calls {
            if call.name.is_none() {
                args_json.push_str(&call.parameters);
            }
        }
    }

    let args: serde_json::Value = serde_json::from_str(&args_json).unwrap();
    assert_eq!(args["count"], 42, "int branch");
    assert_eq!(args["rate"], 2, "float->int when whole");
    assert_eq!(args["enabled"], true, "bool branch");
    assert_eq!(args["text"], "123", "string kept verbatim");
    assert_eq!(args["data"], serde_json::Value::Null, "null literal branch");
}

#[test]
fn test_step3p5_streaming_float_kept_as_float() {
    let mut parser = Step3p5Parser::new();
    let tools = create_test_tools();

    // Non-whole float must stay a float through streaming.
    let chunks = vec![
        "<tool_call><function=process>",
        "<parameter=rate>1.5</parameter>",
        "</function></tool_call>",
    ];

    let mut args_json = String::new();
    for chunk in chunks {
        let result = parser.parse_incremental(chunk, &tools, &numbers()).unwrap();
        for call in result.calls {
            if call.name.is_none() {
                args_json.push_str(&call.parameters);
            }
        }
    }

    let args: serde_json::Value = serde_json::from_str(&args_json).unwrap();
    assert_eq!(args["rate"], 1.5);
}

#[test]
fn test_coerce_value_string_keeps_numeric_text() {
    assert_eq!(
        coerce_value("42", Some("string"), &numbers()),
        Some("\"42\"".to_string())
    );
}

#[test]
fn test_coerce_value_integer() {
    assert_eq!(
        coerce_value("42", Some("integer"), &numbers()),
        Some("42".to_string())
    );
    assert_eq!(
        coerce_value(" 7 ", Some("int"), &numbers()),
        Some("7".to_string())
    );
}

#[test]
fn test_coerce_value_number() {
    assert_eq!(
        coerce_value("1.5", Some("number"), &numbers()),
        Some("1.5".to_string())
    );
    // Whole floats degrade to integers.
    assert_eq!(
        coerce_value("3.0", Some("number"), &numbers()),
        Some("3".to_string())
    );
}

#[test]
fn test_coerce_value_boolean() {
    assert_eq!(
        coerce_value("true", Some("boolean"), &numbers()),
        Some("true".to_string())
    );
    assert_eq!(
        coerce_value("False", Some("bool"), &numbers()),
        Some("false".to_string())
    );
}

#[test]
fn test_coerce_value_null() {
    assert_eq!(
        coerce_value("null", Some("string"), &numbers()),
        Some("null".to_string())
    );
    assert_eq!(
        coerce_value("NULL", None, &numbers()),
        Some("null".to_string())
    );
}

#[test]
fn test_coerce_value_object() {
    assert_eq!(
        coerce_value(r#"{"a": 1}"#, Some("object"), &numbers()),
        Some(r#"{"a":1}"#.to_string())
    );
}

#[test]
fn test_infer_value_fallbacks() {
    assert_eq!(infer_value("42"), "42");
    assert_eq!(infer_value("true"), "true");
    assert_eq!(infer_value("None"), "null");
    assert_eq!(infer_value("hello"), "\"hello\"");
}

#[test]
fn text_is_quoted_as_json_text() {
    let raw = "a\"b\\c\nd\u{1}e\u{7f}\u{1f980}";
    let quoted = coerce_value(raw, Some("str"), &numbers()).unwrap();
    assert_eq!(
        quoted,
        "\"a\\\"b\\\\c\\nd\\u0001e\u{7f}\u{1f980}\""
    );
    assert_eq!(json(&quoted), serde_json::Value::from(raw));
    for c in (0u8..=0x7f).map(char::from) {
        let text = format!("x{c}y");
        let quoted = coerce_value(&text, Some("text"), &numbers()).unwrap();
        assert_eq!(quoted, serde_json::to_string(&text).unwrap());
    }
}

#[test]
fn integers_are_read_up_to_their_limits() {
    assert_eq!(
        read_integer("9223372036854775807"),
        Some("9223372036854775807".to_string())
    );
    assert_eq!(read_integer("9223372036854775808"), None);
    assert_eq!(
        read_integer("-9223372036854775808"),
        Some("-9223372036854775808".to_string())
    );
    assert_eq!(read_integer("-9223372036854775809"), None);
    assert_eq!(read_integer("+007"), Some("7".to_string()));
    assert_eq!(read_integer("-0"), Some("0".to_string()));
    for bad in ["", "-", "+", "1.5", "1 2", "--1", "x"] {
        assert_eq!(read_integer(bad), None);
    }
}

#[test]
fn what_cannot_be_read_stays_text() {
    assert_eq!(
        coerce_value(" x ", Some("int64"), &numbers()),
        Some("\" x \"".to_string())
    );
    assert_eq!(
        coerce_value("nan", Some("float"), &numbers()),
        Some("\"nan\"".to_string())
    );
    assert_eq!(
        coerce_value("[1", Some("list[int]"), &numbers()),
        Some("\"[1\"".to_string())
    );
    assert_eq!(
        coerce_value("y", Some("whatever"), &numbers()),
        Some("\"y\"".to_string())
    );
    assert_eq!(coerce_value("y", None, &numbers()), None);
}

#[test]
fn declared_types_have_kinds() {
    for (declared, kind) in [
        (" String ", ValueKind::Text),
        ("VARCHAR", ValueKind::Text),
        ("uint8", ValueKind::Integer),
        ("unsigned int", ValueKind::Integer),
        ("Number", ValueKind::Number),
        ("float32", ValueKind::Number),
        ("binary", ValueKind::Boolean),
        ("dict[str, int]", ValueKind::Compound),
        ("sequence", ValueKind::Compound),
        ("other", ValueKind::Text),
    ] {
        assert_eq!(declared_kind(declared), kind, "{declared}");
    }
}

#[test]
fn what_is_not_json_may_be_python() {
    assert_eq!(infer_from("True", None), "true");
    assert_eq!(infer_from("False", None), "false");
    assert_eq!(infer_from("None", None), "null");
    assert_eq!(infer_from("true", Some("true".to_string())), "true");
    assert_eq!(infer_value("  a b  "), "\"a b\"");
    assert_eq!(infer_value(r#" {"b": 1, "a": [ ]} "#), r#"{"a":[],"b":1}"#);
}

#[test]
fn arguments_are_written_in_the_order_of_their_keys() {
    let parser = Step3p5Parser::default();
    let input = "<tool_call><function= f ><parameter= b >1</parameter>\
<parameter=a>x</parameter><parameter=b>2</parameter></function></tool_call>";
    let (normal, calls) = parser.parse_complete(input, &numbers()).unwrap();
    assert_eq!(normal, "");
    assert_eq!(calls[0].function.name, "f");
    assert_eq!(calls[0].function.arguments, r#"{"a":"x","b":2}"#);
}

#[test]
fn a_block_without_a_function_is_no_call() {
    let parser = Step3p5Parser::new();
    let block: Vec<char> = "nothing here".chars().collect();
    let ParserError::ParsingFailed(why) = parser
        .parse_xml_format(&block, &[], &numbers())
        .unwrap_err();
    assert_eq!(why, "No function name found");
    let blank: Vec<char> = "<function= >".chars().collect();
    assert!(parser
        .parse_xml_format(&blank, &[], &numbers())
        .unwrap()
        .is_none());
}

#[test]
fn streamed_arguments_are_one_object() {
    let mut parser = Step3p5Parser::new();
    let tools = create_test_tools();
    let mut sent = String::new();
    for chunk in [
        "before <tool_call><function=search><parameter=query>a</parameter>",
        "<parameter=z>[1]</parameter>",
        "</function></tool_call> after",
    ] {
        let result = parser.parse_incremental(chunk, &tools, &numbers()).unwrap();
        for call in result.calls {
            assert_eq!(call.tool_index, 0);
            sent.push_str(&call.parameters);
        }
    }
    assert_eq!(sent, r#"{"query": "a", "z": [1]}"#);
}

#[test]
fn a_beginning_of_a_marker_is_held_back() {
    let mut parser = Step3p5Parser::new();
    let tools = create_test_tools();
    let first = parser.parse_incremental("a <tool", &tools, &numbers()).unwrap();
    assert_eq!(first.normal_text, "");
    let second = parser.parse_incremental("box>", &tools, &numbers()).unwrap();
    assert_eq!(second.normal_text, "a <toolbox>");
}

#[test]
fn what_is_left_of_the_arguments_can_be_asked_for() {
    let mut parser = Step3p5Parser::new();
    let tools = create_test_tools();
    assert!(parser.get_unstreamed_tool_args().is_none());
    parser.parse_incremental("<tool_call><function=get_time>", &tools, &numbers()).unwrap();
    let rest = parser.get_unstreamed_tool_args().unwrap();
    assert_eq!(rest.len(), 1);
    assert_eq!(rest[0].tool_index, 0);
    assert_eq!(rest[0].parameters, "{}");
    parser.parse_incremental("<parameter=x>1</parameter>", &tools, &numbers()).unwrap();
    assert!(parser.get_unstreamed_tool_args().is_none());
    parser.reset();
    assert!(parser.get_unstreamed_tool_args().is_none());
}

#[test]
fn an_unknown_function_in_a_stream_becomes_text() {
    let mut parser = Step3p5Parser::new();
    let tools = create_test_tools();
    let result = parser.parse_incremental(
        "x<tool_call><function=nope><parameter=a>1</parameter>",
        &tools,
        &numbers(),
    ).unwrap();
    assert!(result.calls.is_empty());
    assert_eq!(
        result.normal_text,
        "x<function=nope><parameter=a>1</parameter>"
    );
}

#[test]
fn calls_do_not_depend_on_the_cut() {
    let text = "a<tool <tool_call>x<function= get_time ></function></tool_call> <\
        <tool_call><function=search><parameter=query>q</parameter></function></tool_call>\
        <tool_call><function=get_weather>";
    let chars: Vec<char> = text.chars().collect();
    let tools = create_test_tools();
    let names = |chunks: Vec<String>| {
        let mut parser = Step3p5Parser::new();
        let mut out = Vec::new();
        for chunk in chunks {
            let result = parser.parse_incremental(&chunk, &tools, &numbers()).unwrap();
            for item in result.calls {
                if let Some(name) = item.name {
                    out.push((item.tool_index, name));
                }
            }
        }
        out
    };
    let whole = names(vec![text.to_string()]);
    assert_eq!(
        whole,
        vec![
            (0, "get_time".to_string()),
            (1, "search".to_string()),
            (2, "get_weather".to_string()),
        ]
    );
    for size in 1..12 {
        let chunks = chars.chunks(size).map(|c| c.iter().collect()).collect();
        assert_eq!(names(chunks), whole, "cut into chunks of {size}");
    }
    for at in 0..chars.len() {
        let chunks = vec![chars[..at].iter().collect(), chars[at..].iter().collect()];
        assert_eq!(names(chunks), whole, "cut at {at}");
    }
}

#[test]
fn each_parameter_is_sent_once() {
    let tools = create_test_tools();
    let mut parser = Step3p5Parser::new();
    let mut send = |chunk: &str| {
        let result = parser.parse_incremental(chunk, &tools, &numbers()).unwrap();
        let parts: Vec<(usize, bool, String)> = result
            .calls
            .into_iter()
            .map(|item| (item.tool_index, item.name.is_some(), item.parameters))
            .collect();
        parts
    };
    assert_eq!(
        send("<tool_call><function=process>"),
        vec![(0, true, String::new())]
    );
    // A pair that is not complete is not sent.
    assert_eq!(send("<parameter=count>1"), vec![]);
    assert_eq!(
        send("</parameter>"),
        vec![(0, false, "{\"count\": 1".to_string())]
    );
    assert_eq!(send(" "), vec![]);
    assert_eq!(
        send("<parameter=text>t</parameter><parameter=enabled>true</parameter>"),
        vec![(
            0,
            false,
            ", \"enabled\": true, \"text\": \"t\"".to_string()
        )]
    );
    // A key that was sent is not sent again.
    assert_eq!(send("<parameter=count>2</parameter>"), vec![]);
    assert_eq!(
        send("</function></tool_call>"),
        vec![(0, false, "}".to_string())]
    );
}

#[test]
fn values_are_equal_but_for_the_sign_of_a_zero() {
    for (a, b) in [
        ("0.0", "-0.0"),
        ("[-0.0,1]", "[0.0,1]"),
        ("{\"a\":[0.0],\"b\":-0.0}", "{\"a\":[-0.0],\"b\":0.0}"),
        ("\"x\"", "\"x\""),
    ] {
        assert!(is_same_value(a, b), "{a} {b}");
        assert_eq!(json(a), json(b));
    }
    for (a, b) in [
        ("0.0", "0"),
        ("-0.05", "0.05"),
        ("\"-0.0\"", "\"0.0\""),
        ("[\"\\\"\",\"-0.0\"]", "[\"\\\"\",\"0.0\"]"),
        ("{\"-0.0\":1}", "{\"0.0\":1}"),
        ("1", "2"),
    ] {
        assert!(!is_same_value(a, b), "{a} {b}");
        assert_ne!(json(a), json(b));
    }
}

#[test]
fn a_zero_that_changes_its_sign_changes_nothing() {
    // The value that was read first is kept, and none is sent again.
    let tools = create_test_tools();
    let mut parser = Step3p5Parser::new();
    parser
        .parse_incremental(
            "<tool_call><function=get_time><parameter=at>0.0</parameter>",
            &tools,
            &numbers(),
        )
        .unwrap();
    let before = parser.get_unstreamed_tool_args();
    let again = parser
        .parse_incremental("<parameter=at>-0.0</parameter>", &tools, &numbers())
        .unwrap();
    assert!(again.calls.is_empty());
    let texts = |items: Option<Vec<ToolCallItem>>| -> Vec<String> {
        items
            .unwrap_or_default()
            .into_iter()
            .map(|item| item.parameters)
            .collect()
    };
    assert_eq!(texts(parser.get_unstreamed_tool_args()), texts(before));
}
