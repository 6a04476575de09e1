//! The parser for calls in the Step-3.5 format.
use super::json::NumberReader;
use super::markup::{
    after_function, blocks_in, chars_view, find_blocks, find_function, find_params,
    function_name, is_written, law_complete_params_stay, law_no_tag_no_block, params_in, slice_of,
};
use super::params::{
    copy_params, find_unknown, has_key, members, object, params_read, params_view, read_params,
    same_params, same_values, unknown_params, write_members, write_object, Param, ParamView,
};
use super::types::{
    find_tool, items_view, tool_calls_view, tool_named, tools_view, CallView, FunctionCall,
    ItemView, ParserError, StreamingParseResult, Tool, ToolCall, ToolCallItem, ToolView,
};
use crate::text::{
    chars_of, concat, contains_text, find_spec, find_token, has_prefix, joined,
    lemma_part_holds_no_more, str_contains, str_has_prefix, string_of, texts, token_at,
};
use vstd::prelude::*;

verus! {

// ---- Complete texts ----

/// The call that a block holds. A block that declares no function is not a call.
/// One whose function has only white space for a name is passed over.
pub open spec fn call_in(
    block: Seq<char>,
    tools: Seq<ToolView>,
    numbers: spec_fn(Seq<char>) -> Option<Seq<char>>,
) -> Result<Option<CallView>, Seq<char>> {
    match function_name(block) {
        None => Err("No function name found"@),
        Some(name) => if name.len() == 0 {
            Ok(None)
        } else {
            Ok(
                Some(
                    CallView {
                        name,
                        arguments: object(params_read(params_in(block), tools, name, numbers)),
                    },
                ),
            )
        },
    }
}

/// The calls that blocks hold, in order.
pub open spec fn calls_in(
    blocks: Seq<Seq<char>>,
    tools: Seq<ToolView>,
    numbers: spec_fn(Seq<char>) -> Option<Seq<char>>,
) -> Seq<CallView>
    decreases blocks.len(),
{
    if blocks.len() == 0 {
        Seq::empty()
    } else {
        let rest = calls_in(blocks.drop_last(), tools, numbers);
        match call_in(blocks.last(), tools, numbers) {
            Ok(Some(call)) => rest.push(call),
            _ => rest,
        }
    }
}

/// What a complete text is read as: the text before the first block, and the
/// calls. A text without calls stays whole.
pub open spec fn extracted(
    text: Seq<char>,
    tools: Seq<ToolView>,
    numbers: spec_fn(Seq<char>) -> Option<Seq<char>>,
) -> (Seq<char>, Seq<CallView>) {
    let calls = calls_in(blocks_in(text), tools, numbers);
    match find_spec(text, "<tool_call>"@, 0) {
        Some(at) => if calls.len() > 0 {
            (text.take(at), calls)
        } else {
            (text, Seq::empty())
        },
        None => (text, Seq::empty()),
    }
}

/// A text without markers passes through whole.
pub proof fn law_text_without_markers_passes(
    text: Seq<char>,
    tools: Seq<ToolView>,
    numbers: spec_fn(Seq<char>) -> Option<Seq<char>>,
)
    requires
        !contains_text(text, "<tool_call>"@),
    ensures
        extracted(text, tools, numbers) == (text, Seq::<CallView>::empty()),
{
    law_no_tag_no_block(text);
}

/// A text of which no call is read passes through whole, and of one with calls
/// the text before the first marker is kept.
pub proof fn law_text_is_kept_to_the_first_marker(
    text: Seq<char>,
    tools: Seq<ToolView>,
    numbers: spec_fn(Seq<char>) -> Option<Seq<char>>,
)
    ensures
        extracted(text, tools, numbers).1.len() == 0 ==> extracted(text, tools, numbers).0 == text,
        extracted(text, tools, numbers).1.len() > 0 ==> find_spec(text, "<tool_call>"@, 0) == Some(
            extracted(text, tools, numbers).0.len() as int,
        ) && extracted(text, tools, numbers).0.is_prefix_of(text),
{
    crate::text::lemma_find_spec(text, "<tool_call>"@, 0);
}

// ---- Streams ----

/// A call that has been begun.
#[derive(Debug)]
pub struct BegunCall {
    pub name: String,
    pub arguments: Vec<Param>,
}

/// What is known of a call that has been begun.
#[verifier::ext_equal]
pub struct BegunView {
    pub name: Seq<char>,
    pub arguments: Seq<ParamView>,
}

impl View for BegunCall {
    type V = BegunView;

    open spec fn view(&self) -> BegunView {
        BegunView { name: self.name@, arguments: params_view(self.arguments@) }
    }
}

/// What is known of calls that have been begun.
pub open spec fn begun_view(calls: Seq<BegunCall>) -> Seq<BegunView> {
    calls.map_values(|c: BegunCall| c@)
}

/// The state of a stream.
#[verifier::ext_equal]
pub struct StreamView {
    /// What is not dealt with yet.
    pub buffer: Seq<char>,
    /// Whether a block has been opened.
    pub in_call: bool,
    /// Whether the name of the call has been sent.
    pub name_sent: bool,
    /// The name of the call.
    pub function: Seq<char>,
    /// The parameters that have been read of the call.
    pub params: Seq<ParamView>,
    /// The index of the call.
    pub tool: nat,
    /// The calls that have been begun.
    pub begun: Seq<BegunView>,
    /// What has been sent of the arguments of each.
    pub streamed: Seq<Seq<char>>,
}

/// A stream of which nothing has come.
pub open spec fn fresh() -> StreamView {
    StreamView {
        buffer: Seq::empty(),
        in_call: false,
        name_sent: false,
        function: Seq::empty(),
        params: Seq::empty(),
        tool: 0,
        begun: Seq::empty(),
        streamed: Seq::empty(),
    }
}

/// The state holds together: a call is begun when its name is sent, while nothing
/// is read of its arguments, nothing has been sent of them, and what was read of
/// them is still in the buffer.
pub open spec fn sound(s: StreamView) -> bool {
    let count = if s.name_sent {
        s.tool + 1
    } else {
        s.tool
    };
    &&& s.name_sent ==> s.in_call
    &&& !s.name_sent ==> s.params.len() == 0
    &&& s.begun.len() == count
    &&& s.streamed.len() == count
    &&& s.name_sent && s.params.len() == 0 ==> s.streamed[s.tool as int].len() == 0
    &&& s.name_sent ==> forall|i: int|
        0 <= i < s.params.len() ==> is_written(
            params_in(s.buffer),
            (#[trigger] s.params[i]).key,
        )
}

/// What a step brings: the state after it, text, pieces of calls, and whether
/// there may be more.
#[verifier::ext_equal]
pub struct Outcome {
    pub state: StreamView,
    pub normal: Seq<char>,
    pub calls: Seq<ItemView>,
    pub again: bool,
}

/// A text ends with a beginning of a token, but not with all of it.
pub open spec fn ends_partially(text: Seq<char>, token: Seq<char>) -> bool {
    exists|i: int|
        1 <= i < token.len() && i <= text.len() && #[trigger] token.take(i) == text.skip(
            text.len() - i,
        )
}

/// Outside a block: the text before the next block is passed on. An end that may
/// be the beginning of a marker is held back.
pub open spec fn seek_step(s: StreamView) -> Outcome {
    match find_spec(s.buffer, "<tool_call>"@, 0) {
        Some(at) => Outcome {
            state: StreamView {
                buffer: s.buffer.skip(at + "<tool_call>"@.len()),
                in_call: true,
                name_sent: false,
                function: Seq::empty(),
                params: Seq::empty(),
                ..s
            },
            normal: s.buffer.take(at),
            calls: Seq::empty(),
            again: true,
        },
        None => if ends_partially(s.buffer, "<tool_call>"@) {
            Outcome { state: s, normal: Seq::empty(), calls: Seq::empty(), again: false }
        } else {
            Outcome {
                state: StreamView { buffer: Seq::empty(), ..s },
                normal: s.buffer,
                calls: Seq::empty(),
                again: false,
            }
        },
    }
}

/// In a block without a name: the name of a known tool begins a call. With the
/// name of an unknown one, what is left is passed on as text.
pub open spec fn name_step(s: StreamView, tools: Seq<ToolView>) -> Outcome {
    match function_name(s.buffer) {
        None => Outcome { state: s, normal: Seq::empty(), calls: Seq::empty(), again: false },
        Some(name) => if tool_named(tools, name) is Some {
            Outcome {
                state: StreamView {
                    buffer: after_function(s.buffer),
                    name_sent: true,
                    function: name,
                    begun: s.begun.push(BegunView { name, arguments: Seq::empty() }),
                    streamed: s.streamed.push(Seq::empty()),
                    ..s
                },
                normal: Seq::empty(),
                calls: seq![
                    ItemView { tool_index: s.tool, name: Some(name), parameters: Seq::empty() },
                ],
                again: true,
            }
        } else {
            Outcome {
                state: StreamView {
                    buffer: Seq::empty(),
                    in_call: false,
                    name_sent: false,
                    function: Seq::empty(),
                    params: Seq::empty(),
                    ..s
                },
                normal: s.buffer,
                calls: Seq::empty(),
                again: false,
            }
        },
    }
}

/// What is to be sent when the parameters that are read have changed: the first
/// ones open the object, later ones continue it.
pub open spec fn fragment(before: Seq<ParamView>, after: Seq<ParamView>) -> Seq<char> {
    if same_values(before, after) {
        Seq::empty()
    } else if before.len() == 0 {
        "{"@ + members(after, ": "@, ", "@)
    } else if unknown_params(after, before).len() > 0 {
        ", "@ + members(unknown_params(after, before), ": "@, ", "@)
    } else {
        Seq::empty()
    }
}

/// The piece of a call that carries a part of its arguments, unless there is
/// nothing to carry.
pub open spec fn piece(tool: nat, parameters: Seq<char>) -> Seq<ItemView> {
    if parameters.len() == 0 {
        Seq::empty()
    } else {
        seq![ItemView { tool_index: tool, name: None, parameters }]
    }
}

/// The state after the parameters were read that are complete.
pub open spec fn with_params_read(s: StreamView, after: Seq<ParamView>) -> StreamView {
    if same_values(s.params, after) {
        s
    } else {
        StreamView {
            params: after,
            begun: s.begun.update(
                s.tool as int,
                BegunView { name: s.begun[s.tool as int].name, arguments: after },
            ),
            streamed: s.streamed.update(
                s.tool as int,
                s.streamed[s.tool as int] + fragment(s.params, after),
            ),
            ..s
        }
    }
}

/// How often a character occurs.
pub open spec fn count_of(text: Seq<char>, c: char) -> nat
    decreases text.len(),
{
    if text.len() == 0 {
        0
    } else {
        count_of(text.drop_last(), c) + (if text.last() == c {
            1nat
        } else {
            0nat
        })
    }
}

/// What closes arguments of which more braces were opened than closed.
pub open spec fn closing(args: Seq<char>) -> Seq<char> {
    if count_of(args, '{') > count_of(args, '}') {
        "}"@
    } else {
        Seq::empty()
    }
}

/// In a call: the parameters that are complete are sent, and the end of the block
/// ends the call.
pub open spec fn params_step(
    s: StreamView,
    tools: Seq<ToolView>,
    numbers: spec_fn(Seq<char>) -> Option<Seq<char>>,
) -> Outcome {
    let after = params_read(params_in(s.buffer), tools, s.function, numbers);
    let mid = with_params_read(s, after);
    let sent = piece(s.tool, fragment(s.params, after));
    match find_spec(s.buffer, "</tool_call>"@, 0) {
        Some(at) => {
            let end = closing(mid.streamed[s.tool as int]);
            Outcome {
                state: StreamView {
                    buffer: s.buffer.skip(at + "</tool_call>"@.len()),
                    in_call: false,
                    name_sent: false,
                    function: Seq::empty(),
                    params: Seq::empty(),
                    tool: s.tool + 1,
                    streamed: mid.streamed.update(
                        s.tool as int,
                        mid.streamed[s.tool as int] + end,
                    ),
                    ..mid
                },
                normal: Seq::empty(),
                calls: sent + piece(s.tool, end),
                again: true,
            }
        },
        None => Outcome { state: mid, normal: Seq::empty(), calls: sent, again: false },
    }
}

/// One step of a stream.
pub open spec fn step(
    s: StreamView,
    tools: Seq<ToolView>,
    numbers: spec_fn(Seq<char>) -> Option<Seq<char>>,
) -> Outcome {
    if !s.in_call {
        seek_step(s)
    } else if !s.name_sent {
        name_step(s, tools)
    } else {
        params_step(s, tools, numbers)
    }
}

/// As many steps as there are. Every step but the last takes something from the
/// buffer.
pub open spec fn run(
    s: StreamView,
    tools: Seq<ToolView>,
    numbers: spec_fn(Seq<char>) -> Option<Seq<char>>,
) -> Outcome
    decreases s.buffer.len(),
{
    let o = step(s, tools, numbers);
    if o.again && o.state.buffer.len() < s.buffer.len() {
        let rest = run(o.state, tools, numbers);
        Outcome {
            state: rest.state,
            normal: o.normal + rest.normal,
            calls: o.calls + rest.calls,
            again: false,
        }
    } else {
        o
    }
}

/// What a chunk brings.
pub open spec fn streamed(
    s: StreamView,
    chunk: Seq<char>,
    tools: Seq<ToolView>,
    numbers: spec_fn(Seq<char>) -> Option<Seq<char>>,
) -> Outcome {
    run(StreamView { buffer: s.buffer + chunk, ..s }, tools, numbers)
}

proof fn lemma_step(
    s: StreamView,
    tools: Seq<ToolView>,
    numbers: spec_fn(Seq<char>) -> Option<Seq<char>>,
)
    requires
        sound(s),
    ensures
        sound(step(s, tools, numbers).state),
        step(s, tools, numbers).again ==> step(s, tools, numbers).state.buffer.len()
            < s.buffer.len(),
{
    reveal_strlit("<tool_call>");
    reveal_strlit("</tool_call>");
    reveal_strlit("{");
    crate::text::lemma_find_spec(s.buffer, "<tool_call>"@, 0);
    crate::text::lemma_find_spec(s.buffer, "</tool_call>"@, 0);
    super::markup::lemma_next_tag(s.buffer, "<function="@, 0);
    let after = params_read(params_in(s.buffer), tools, s.function, numbers);
    super::params::law_params_by_key(params_in(s.buffer), tools, s.function, numbers);
    if s.name_sent && s.params.len() > 0 {
        let k = s.params[0].key;
        assert(is_written(params_in(s.buffer), k));
        assert(has_key(after, k));
    }
    assert forall|i: int| 0 <= i < after.len() implies is_written(
        params_in(s.buffer),
        (#[trigger] after[i]).key,
    ) by {
        assert(has_key(after, after[i].key));
    }
}

/// What pieces carry of the arguments of a call, one after another.
pub open spec fn sent_for(calls: Seq<ItemView>, tool: nat) -> Seq<char>
    decreases calls.len(),
{
    if calls.len() == 0 {
        Seq::empty()
    } else if calls.last().tool_index == tool {
        sent_for(calls.drop_last(), tool) + calls.last().parameters
    } else {
        sent_for(calls.drop_last(), tool)
    }
}

/// What had been sent for a call, if it had been begun.
pub open spec fn sent_before(s: StreamView, tool: int) -> Seq<char> {
    if tool < s.streamed.len() {
        s.streamed[tool]
    } else {
        Seq::empty()
    }
}

/// What is remembered of each call is what had been sent, followed by what is sent
/// now.
pub open spec fn remembers(s: StreamView, o: Outcome) -> bool {
    &&& s.streamed.len() <= o.state.streamed.len()
    &&& forall|k: int|
        0 <= k < o.state.streamed.len() ==> #[trigger] o.state.streamed[k] == sent_before(s, k)
            + sent_for(o.calls, k as nat)
    &&& forall|i: int|
        0 <= i < o.calls.len() ==> (#[trigger] o.calls[i]).tool_index < o.state.streamed.len()
}

proof fn lemma_sent_for_add(a: Seq<ItemView>, b: Seq<ItemView>, tool: nat)
    ensures
        sent_for(a + b, tool) == sent_for(a, tool) + sent_for(b, tool),
    decreases b.len(),
{
    if b.len() == 0 {
        assert(a + b =~= a);
        assert(sent_for(a, tool) + sent_for(b, tool) =~= sent_for(a, tool));
    } else {
        lemma_sent_for_add(a, b.drop_last(), tool);
        assert((a + b).drop_last() =~= a + b.drop_last());
        assert((a + b).last() == b.last());
        assert(sent_for(a, tool) + (sent_for(b.drop_last(), tool) + b.last().parameters)
            =~= sent_for(a, tool) + sent_for(b.drop_last(), tool) + b.last().parameters);
    }
}

proof fn lemma_sent_for_piece(tool: nat, text: Seq<char>, k: nat)
    ensures
        sent_for(piece(tool, text), k) == (if k == tool {
            text
        } else {
            Seq::empty()
        }),
{
    let p = piece(tool, text);
    if text.len() > 0 {
        assert(p.drop_last() =~= Seq::<ItemView>::empty());
        assert(sent_for(p.drop_last(), k) =~= Seq::<char>::empty());
        assert(Seq::<char>::empty() + text =~= text);
    } else {
        assert(text =~= Seq::<char>::empty());
    }
}

proof fn lemma_step_remembers(
    s: StreamView,
    tools: Seq<ToolView>,
    numbers: spec_fn(Seq<char>) -> Option<Seq<char>>,
)
    requires
        sound(s),
    ensures
        remembers(s, step(s, tools, numbers)),
{
    let o = step(s, tools, numbers);
    let after = params_read(params_in(s.buffer), tools, s.function, numbers);
    let first = piece(s.tool, fragment(s.params, after));
    assert forall|k: int| 0 <= k < o.state.streamed.len() implies #[trigger] o.state.streamed[k]
        == sent_before(s, k) + sent_for(o.calls, k as nat) by {
        if !s.in_call || !s.name_sent {
            if o.calls.len() == 1 {
                assert(o.calls.drop_last() =~= Seq::<ItemView>::empty());
                assert(sent_for(o.calls.drop_last(), k as nat) =~= Seq::<char>::empty());
                assert(sent_for(o.calls, k as nat) =~= Seq::<char>::empty());
            }
            assert(o.state.streamed[k] =~= sent_before(s, k) + sent_for(o.calls, k as nat));
        } else {
            let mid = with_params_read(s, after);
            let end = closing(mid.streamed[s.tool as int]);
            lemma_sent_for_piece(s.tool, fragment(s.params, after), k as nat);
            lemma_sent_for_piece(s.tool, end, k as nat);
            lemma_sent_for_add(first, piece(s.tool, end), k as nat);
            assert(mid.streamed[k] =~= s.streamed[k] + sent_for(first, k as nat));
            if find_spec(s.buffer, "</tool_call>"@, 0) is Some {
                assert(o.state.streamed[k] =~= s.streamed[k] + (sent_for(first, k as nat)
                    + sent_for(piece(s.tool, end), k as nat)));
            }
        }
    }
}

/// What a client has been sent of the arguments of each call is what the parser
/// remembers as sent, and every piece belongs to a call that has been begun.
pub proof fn law_client_holds_what_was_sent(
    s: StreamView,
    tools: Seq<ToolView>,
    numbers: spec_fn(Seq<char>) -> Option<Seq<char>>,
)
    requires
        sound(s),
    ensures
        sound(run(s, tools, numbers).state),
        remembers(s, run(s, tools, numbers)),
    decreases s.buffer.len(),
{
    lemma_step(s, tools, numbers);
    lemma_step_remembers(s, tools, numbers);
    let o = step(s, tools, numbers);
    if o.again {
        law_client_holds_what_was_sent(o.state, tools, numbers);
        let rest = run(o.state, tools, numbers);
        let all = run(s, tools, numbers);
        assert forall|k: int|
            0 <= k < all.state.streamed.len() implies #[trigger] all.state.streamed[k]
            == sent_before(s, k) + sent_for(all.calls, k as nat) by {
            lemma_sent_for_add(o.calls, rest.calls, k as nat);
            if k >= o.state.streamed.len() {
                lemma_sent_for_none(o.calls, k as nat);
            }
            assert(all.state.streamed[k] =~= sent_before(s, k) + sent_for(all.calls, k as nat));
        }
        assert forall|i: int| 0 <= i < all.calls.len() implies (#[trigger] all.calls[i]).tool_index
            < all.state.streamed.len() by {
            if i < o.calls.len() {
                assert(all.calls[i] == o.calls[i]);
            } else {
                assert(all.calls[i] == rest.calls[i - o.calls.len()]);
            }
        }
    }
}

proof fn lemma_sent_for_none(calls: Seq<ItemView>, tool: nat)
    requires
        forall|i: int| 0 <= i < calls.len() ==> (#[trigger] calls[i]).tool_index != tool,
    ensures
        sent_for(calls, tool) == (Seq::<char>::empty()),
    decreases calls.len(),
{
    if calls.len() > 0 {
        let init = calls.drop_last();
        assert forall|i: int| 0 <= i < init.len() implies (#[trigger] init[i]).tool_index
            != tool by {
            assert(init[i] == calls[i]);
        }
        lemma_sent_for_none(init, tool);
        assert(calls[calls.len() - 1].tool_index != tool);
    }
}

/// A chunk keeps the state sound.
pub proof fn law_stream_stays_sound(
    s: StreamView,
    chunk: Seq<char>,
    tools: Seq<ToolView>,
    numbers: spec_fn(Seq<char>) -> Option<Seq<char>>,
)
    requires
        sound(s),
    ensures
        sound(streamed(s, chunk, tools, numbers).state),
{
    lemma_chunk_sound(s, chunk);
    law_client_holds_what_was_sent(
        StreamView { buffer: s.buffer + chunk, ..s },
        tools,
        numbers,
    );
}

proof fn lemma_chunk_sound(s: StreamView, chunk: Seq<char>)
    requires
        sound(s),
    ensures
        sound(StreamView { buffer: s.buffer + chunk, ..s }),
{
    law_complete_params_stay(s.buffer, chunk);
    let before = params_in(s.buffer);
    let after = params_in(s.buffer + chunk);
    if s.name_sent {
        assert forall|i: int| 0 <= i < s.params.len() implies is_written(
            after,
            (#[trigger] s.params[i]).key,
        ) by {
            assert(is_written(before, s.params[i].key));
            let j = choose|j: int| 0 <= j < before.len() && (#[trigger] before[j]).key
                == s.params[i].key;
            assert(after[j].key == s.params[i].key);
        }
    }
}

/// Outside a block, text without a marker is passed on or held back, and none of
/// it is lost or doubled.
pub proof fn law_stream_without_markers_passes(
    s: StreamView,
    chunk: Seq<char>,
    tools: Seq<ToolView>,
    numbers: spec_fn(Seq<char>) -> Option<Seq<char>>,
)
    requires
        !s.in_call,
        !contains_text(s.buffer + chunk, "<tool_call>"@),
    ensures
        streamed(s, chunk, tools, numbers).normal + streamed(s, chunk, tools, numbers).state.buffer
            == s.buffer + chunk,
        streamed(s, chunk, tools, numbers).calls.len() == 0,
        streamed(s, chunk, tools, numbers).state.buffer.len() > 0 ==> ends_partially(
            s.buffer + chunk,
            "<tool_call>"@,
        ),
        !streamed(s, chunk, tools, numbers).state.in_call,
{
    let all = s.buffer + chunk;
    assert(Seq::<char>::empty() + all =~= all);
    assert(all + Seq::<char>::empty() =~= all);
}

/// What chunks bring one after another.
pub open spec fn streamed_all(
    s: StreamView,
    chunks: Seq<Seq<char>>,
    tools: Seq<ToolView>,
    numbers: spec_fn(Seq<char>) -> Option<Seq<char>>,
) -> Outcome
    decreases chunks.len(),
{
    if chunks.len() == 0 {
        Outcome { state: s, normal: Seq::empty(), calls: Seq::empty(), again: false }
    } else {
        let before = streamed_all(s, chunks.drop_last(), tools, numbers);
        let last = streamed(before.state, chunks.last(), tools, numbers);
        Outcome {
            state: last.state,
            normal: before.normal + last.normal,
            calls: before.calls + last.calls,
            again: false,
        }
    }
}

/// However a text without a marker is cut into chunks, all of it is passed on or
/// held back, in its order, and there are no calls.
pub proof fn law_chunks_without_markers_pass(
    s: StreamView,
    chunks: Seq<Seq<char>>,
    tools: Seq<ToolView>,
    numbers: spec_fn(Seq<char>) -> Option<Seq<char>>,
)
    requires
        !s.in_call,
        !contains_text(s.buffer + joined(chunks), "<tool_call>"@),
    ensures
        ({
            let all = streamed_all(s, chunks, tools, numbers);
            &&& all.normal + all.state.buffer == s.buffer + joined(chunks)
            &&& all.calls.len() == 0
            &&& !all.state.in_call
        }),
    decreases chunks.len(),
{
    let none = Seq::<char>::empty();
    if chunks.len() == 0 {
        assert(none + s.buffer =~= s.buffer + none);
    } else {
        let init = chunks.drop_last();
        let chunk = chunks.last();
        let whole = s.buffer + joined(chunks);
        assert(whole =~= none + (s.buffer + joined(init)) + chunk);
        lemma_part_holds_no_more(whole, none, s.buffer + joined(init), chunk, "<tool_call>"@);
        law_chunks_without_markers_pass(s, init, tools, numbers);
        let before = streamed_all(s, init, tools, numbers);
        assert(whole =~= before.normal + (before.state.buffer + chunk) + none);
        lemma_part_holds_no_more(
            whole,
            before.normal,
            before.state.buffer + chunk,
            none,
            "<tool_call>"@,
        );
        law_stream_without_markers_passes(before.state, chunk, tools, numbers);
        let last = streamed(before.state, chunk, tools, numbers);
        assert(before.normal + last.normal + last.state.buffer =~= before.normal + (last.normal
            + last.state.buffer));
    }
}

/// Whether a text ends with a beginning of a token, but not with all of it.
pub fn ends_with_partial_token(text: &Vec<char>, token: &Vec<char>) -> (r: bool)
    ensures
        r == ends_partially(text@, token@),
{
    let n = text.len();
    let m = token.len();
    let mut i: usize = 1;
    while i < m && i <= n
        invariant
            n == text@.len(),
            m == token@.len(),
            1 <= i,
            forall|j: int| 1 <= j < i && j <= n ==> #[trigger] token@.take(j) != text@.skip(n - j),
        decreases m - i,
    {
        let head = slice_of(token, 0, i);
        proof {
            assert(token@.subrange(0, i as int) =~= token@.take(i as int));
            assert(text@.subrange(n - i, n as int) =~= text@.skip(n - i));
        }
        if token_at(text, &head, n - i) {
            return true;
        }
        i = i + 1;
    }
    false
}

/// How often a character occurs.
pub fn count_char(text: &str, c: char) -> (r: usize)
    ensures
        r == count_of(text@, c),
{
    let chars = chars_of(text);
    let n = chars.len();
    let mut count: usize = 0;
    for i in 0..n
        invariant
            n == chars@.len(),
            chars@ == text@,
            count <= i,
            count == count_of(text@.take(i as int), c),
    {
        assert(text@.take(i + 1).drop_last() =~= text@.take(i as int));
        if chars[i] == c {
            count = count + 1;
        }
    }
    assert(text@.take(n as int) =~= text@);
    count
}

/// The parser for calls in the Step-3.5 format.
pub struct Step3p5Parser {
    buffer: Vec<char>,
    in_tool_call: bool,
    current_tool_name_sent: bool,
    current_function_name: String,
    current_parameters: Vec<Param>,
    current_tool_id: usize,
    begun_calls: Vec<BegunCall>,
    streamed_args_for_tool: Vec<String>,
}

impl View for Step3p5Parser {
    type V = StreamView;

    closed spec fn view(&self) -> StreamView {
        StreamView {
            buffer: self.buffer@,
            in_call: self.in_tool_call,
            name_sent: self.current_tool_name_sent,
            function: self.current_function_name@,
            params: params_view(self.current_parameters@),
            tool: self.current_tool_id as nat,
            begun: begun_view(self.begun_calls@),
            streamed: texts(self.streamed_args_for_tool@),
        }
    }
}

impl Step3p5Parser {
    /// A parser to which nothing has been given.
    pub fn new() -> (r: Self)
        ensures
            r@ == fresh(),
            sound(r@),
    {
        let r = Step3p5Parser {
            buffer: Vec::new(),
            in_tool_call: false,
            current_tool_name_sent: false,
            current_function_name: String::new(),
            current_parameters: Vec::new(),
            current_tool_id: 0,
            begun_calls: Vec::new(),
            streamed_args_for_tool: Vec::new(),
        };
        assert(r@ =~= fresh());
        r
    }

    /// Read the call that a block holds. See [`call_in`].
    pub fn parse_xml_format<F: Fn(&str) -> Option<String>>(
        &self,
        block: &Vec<char>,
        tools: &[Tool],
        numbers: &NumberReader<F>,
    ) -> (r: Result<Option<ToolCall>, ParserError>)
        requires
            numbers.wf(),
        ensures
            match call_in(block@, tools_view(tools@), numbers.reading()) {
                Ok(Some(view)) => r matches Ok(Some(call)) && call@ == view,
                Ok(None) => r matches Ok(None),
                Err(m) => r matches Err(ParserError::ParsingFailed(e)) && e@ == m,
            },
    {
        let name = match find_function(block) {
            Some((name, _)) => name,
            None => {
                return Err(ParserError::ParsingFailed("No function name found".to_owned()));
            },
        };
        if name.as_str().is_empty() {
            return Ok(None);
        }
        let raw = find_params(block);
        let params = read_params(&raw, tools, name.as_str(), numbers);
        let arguments = write_object(&params);
        Ok(Some(ToolCall { function: FunctionCall { name, arguments } }))
    }

    fn extract_all<F: Fn(&str) -> Option<String>>(
        &self,
        text: &str,
        tools: &[Tool],
        numbers: &NumberReader<F>,
    ) -> (r: (String, Vec<ToolCall>))
        requires
            numbers.wf(),
        ensures
            (r.0@, tool_calls_view(r.1@)) == extracted(
                text@,
                tools_view(tools@),
                numbers.reading(),
            ),
    {
        let chars = chars_of(text);
        let start = chars_of("<tool_call>");
        let at = match find_token(&chars, &start, 0) {
            Some(at) => at,
            None => {
                let none: Vec<ToolCall> = Vec::new();
                assert(tool_calls_view(none@) =~= Seq::<CallView>::empty());
                return (text.to_owned(), none);
            },
        };
        let blocks = find_blocks(&chars);
        let ghost all = chars_view(blocks@);
        let ghost offered = tools_view(tools@);
        let ghost model = numbers.reading();
        let mut calls: Vec<ToolCall> = Vec::new();
        let n = blocks.len();
        assert(tool_calls_view(calls@) =~= Seq::<CallView>::empty());
        for i in 0..n
            invariant
                n == blocks@.len(),
                all == chars_view(blocks@),
                offered == tools_view(tools@),
                numbers.wf(),
                model == numbers.reading(),
                tool_calls_view(calls@) == calls_in(all.take(i as int), offered, model),
        {
            proof {
                assert(all.take(i + 1).drop_last() =~= all.take(i as int));
                assert(all.take(i + 1).last() == blocks@[i as int]@);
            }
            if let Ok(Some(call)) = self.parse_xml_format(&blocks[i], tools, numbers) {
                assert(tool_calls_view(calls@.push(call)) =~= tool_calls_view(calls@).push(call@));
                calls.push(call);
            }
        }
        assert(all.take(n as int) =~= all);
        if calls.len() == 0 {
            assert(tool_calls_view(calls@) =~= Seq::<CallView>::empty());
            return (text.to_owned(), calls);
        }
        assert(text@.subrange(0, at as int) =~= text@.take(at as int));
        (string_of(&chars, 0, at), calls)
    }

    /// Read a complete text where nothing is known of the tools.
    pub fn parse_complete<F: Fn(&str) -> Option<String>>(
        &self,
        text: &str,
        numbers: &NumberReader<F>,
    ) -> (r: Result<(String, Vec<ToolCall>), ParserError>)
        requires
            numbers.wf(),
        ensures
            r matches Ok(read) && (read.0@, tool_calls_view(read.1@)) == extracted(
                text@,
                Seq::empty(),
                numbers.reading(),
            ),
    {
        let none: Vec<Tool> = Vec::new();
        assert(tools_view(none@) =~= Seq::<ToolView>::empty());
        Ok(self.extract_all(text, none.as_slice(), numbers))
    }

    /// Read a complete text.
    pub fn parse_complete_with_tools<F: Fn(&str) -> Option<String>>(
        &self,
        text: &str,
        tools: &[Tool],
        numbers: &NumberReader<F>,
    ) -> (r: Result<(String, Vec<ToolCall>), ParserError>)
        requires
            numbers.wf(),
        ensures
            r matches Ok(read) && (read.0@, tool_calls_view(read.1@)) == extracted(
                text@,
                tools_view(tools@),
                numbers.reading(),
            ),
    {
        Ok(self.extract_all(text, tools, numbers))
    }

    /// Whether a text holds a marker of a call.
    pub fn has_tool_markers(&self, text: &str) -> (r: bool)
        ensures
            r == contains_text(text@, "<tool_call>"@),
    {
        str_contains(text, "<tool_call>")
    }

    fn reset_streaming_state(&mut self)
        ensures
            final(self)@ == (StreamView {
                in_call: false,
                name_sent: false,
                function: Seq::empty(),
                params: Seq::empty(),
                ..old(self)@
            }),
    {
        self.in_tool_call = false;
        self.current_tool_name_sent = false;
        self.current_function_name = String::new();
        self.current_parameters = Vec::new();
        assert(params_view(self.current_parameters@) =~= Seq::<ParamView>::empty());
        assert(self.current_function_name@ =~= Seq::<char>::empty());
    }

    /// Forget everything.
    pub fn reset(&mut self)
        ensures
            final(self)@ == fresh(),
            sound(final(self)@),
    {
        self.buffer = Vec::new();
        self.begun_calls = Vec::new();
        self.current_tool_id = 0;
        self.streamed_args_for_tool = Vec::new();
        self.reset_streaming_state();
        assert(self@ =~= fresh());
    }

    fn seek_call(&mut self, normal: &mut String) -> (again: bool)
        requires
            sound(old(self)@),
        ensures
            final(self)@ == seek_step(old(self)@).state,
            final(normal)@ == old(normal)@ + seek_step(old(self)@).normal,
            again == seek_step(old(self)@).again,
    {
        let ghost before = self@;
        let start = chars_of("<tool_call>");
        let n = self.buffer.len();
        match find_token(&self.buffer, &start, 0) {
            Some(at) => {
                let text = string_of(&self.buffer, 0, at);
                normal.append(text.as_str());
                let from: usize = at + start.len();
                let rest = slice_of(&self.buffer, from, n);
                proof {
                    assert(before.buffer.subrange(0, at as int) =~= before.buffer.take(at as int));
                    assert(before.buffer.subrange(from as int, n as int) =~= before.buffer.skip(
                        from as int,
                    ));
                }
                self.buffer = rest;
                self.reset_streaming_state();
                self.in_tool_call = true;
                assert(self@ =~= seek_step(before).state);
                true
            },
            None => {
                if !ends_with_partial_token(&self.buffer, &start) {
                    let text = string_of(&self.buffer, 0, n);
                    normal.append(text.as_str());
                    assert(before.buffer.subrange(0, n as int) =~= before.buffer);
                    self.buffer = Vec::new();
                    assert(self.buffer@ =~= Seq::<char>::empty());
                    assert(self@ =~= seek_step(before).state);
                } else {
                    assert(normal@ =~= normal@ + Seq::<char>::empty());
                }
                false
            },
        }
    }

    fn read_name(
        &mut self,
        tools: &[Tool],
        normal: &mut String,
        calls: &mut Vec<ToolCallItem>,
    ) -> (again: bool)
        requires
            sound(old(self)@),
            old(self)@.in_call,
            !old(self)@.name_sent,
        ensures
            final(self)@ == name_step(old(self)@, tools_view(tools@)).state,
            final(normal)@ == old(normal)@ + name_step(old(self)@, tools_view(tools@)).normal,
            items_view(final(calls)@) == items_view(old(calls)@) + name_step(
                old(self)@,
                tools_view(tools@),
            ).calls,
            again == name_step(old(self)@, tools_view(tools@)).again,
    {
        let ghost before = self@;
        let ghost said = normal@;
        let ghost items = items_view(calls@);
        let ghost offered = tools_view(tools@);
        let n = self.buffer.len();
        assert(said + Seq::<char>::empty() =~= said);
        assert(items + Seq::<ItemView>::empty() =~= items);
        let (name, end) = match find_function(&self.buffer) {
            Some(found) => found,
            None => return false,
        };
        if find_tool(tools, name.as_str()).is_some() {
            let rest = slice_of(&self.buffer, end, n);
            assert(before.buffer.subrange(end as int, n as int) =~= before.buffer.skip(end as int));
            self.buffer = rest;
            self.current_function_name = name.clone();
            self.current_tool_name_sent = true;
            let begun = BegunCall { name: name.clone(), arguments: Vec::new() };
            let empty = String::new();
            let item = ToolCallItem {
                tool_index: self.current_tool_id,
                name: Some(name),
                parameters: String::new(),
            };
            proof {
                assert(begun@ =~= BegunView { name: name@, arguments: Seq::empty() });
                assert(begun_view(self.begun_calls@.push(begun)) =~= before.begun.push(begun@));
                assert(texts(self.streamed_args_for_tool@.push(empty)) =~= before.streamed.push(
                    Seq::empty(),
                ));
                assert(items_view(calls@.push(item)) =~= items + seq![item@]);
                assert(item@.parameters =~= Seq::<char>::empty());
            }
            self.begun_calls.push(begun);
            self.streamed_args_for_tool.push(empty);
            calls.push(item);
            assert(self@ =~= name_step(before, offered).state);
            return true;
        }
        let text = string_of(&self.buffer, 0, n);
        normal.append(text.as_str());
        assert(before.buffer.subrange(0, n as int) =~= before.buffer);
        self.buffer = Vec::new();
        self.reset_streaming_state();
        assert(self.buffer@ =~= Seq::<char>::empty());
        assert(self@ =~= name_step(before, offered).state);
        false
    }

    fn parse_and_stream_parameters<F: Fn(&str) -> Option<String>>(
        &mut self,
        tools: &[Tool],
        numbers: &NumberReader<F>,
        calls: &mut Vec<ToolCallItem>,
    )
        requires
            sound(old(self)@),
            old(self)@.name_sent,
            numbers.wf(),
        ensures
            ({
                let after = params_read(
                    params_in(old(self)@.buffer),
                    tools_view(tools@),
                    old(self)@.function,
                    numbers.reading(),
                );
                &&& final(self)@ == with_params_read(old(self)@, after)
                &&& items_view(final(calls)@) == items_view(old(calls)@) + piece(
                    old(self)@.tool,
                    fragment(old(self)@.params, after),
                )
            }),
    {
        let ghost before = self@;
        let ghost items = items_view(calls@);
        let raw = find_params(&self.buffer);
        let fresh_params = read_params(
            &raw,
            tools,
            self.current_function_name.as_str(),
            numbers,
        );
        let ghost after = params_view(fresh_params@);
        if same_params(&self.current_parameters, &fresh_params) {
            assert(items + Seq::<ItemView>::empty() =~= items);
            return;
        }
        let text = if self.current_parameters.len() == 0 {
            assert(before.params =~= Seq::<ParamView>::empty());
            let body = write_members(&fresh_params, ": ", ", ");
            concat("{", body.as_str())
        } else {
            let added = find_unknown(&fresh_params, &self.current_parameters);
            if added.len() == 0 {
                assert(params_view(added@).len() == 0);
                String::new()
            } else {
                assert(params_view(added@).len() > 0);
                let body = write_members(&added, ": ", ", ");
                concat(", ", body.as_str())
            }
        };
        assert(text@ =~= fragment(before.params, after));
        let id = self.current_tool_id;
        if !text.as_str().is_empty() {
            let item = ToolCallItem { tool_index: id, name: None, parameters: text.clone() };
            assert(items_view(calls@.push(item)) =~= items + seq![item@]);
            calls.push(item);
        } else {
            assert(items + Seq::<ItemView>::empty() =~= items);
        }
        let grown = concat(self.streamed_args_for_tool[id].as_str(), text.as_str());
        let arguments = copy_params(&fresh_params);
        let begun = BegunCall { name: self.begun_calls[id].name.clone(), arguments };
        proof {
            assert(texts(self.streamed_args_for_tool@.update(id as int, grown))
                =~= before.streamed.update(id as int, grown@));
            assert(begun_view(self.begun_calls@.update(id as int, begun)) =~= before.begun.update(
                id as int,
                begun@,
            ));
        }
        self.streamed_args_for_tool.set(id, grown);
        self.begun_calls.set(id, begun);
        self.current_parameters = fresh_params;
        assert(self@ =~= with_params_read(before, after));
    }

    fn read_call<F: Fn(&str) -> Option<String>>(
        &mut self,
        tools: &[Tool],
        numbers: &NumberReader<F>,
        calls: &mut Vec<ToolCallItem>,
    ) -> (again: bool)
        requires
            sound(old(self)@),
            old(self)@.name_sent,
            numbers.wf(),
        ensures
            final(self)@ == params_step(
                old(self)@,
                tools_view(tools@),
                numbers.reading(),
            ).state,
            items_view(final(calls)@) == items_view(old(calls)@) + params_step(
                old(self)@,
                tools_view(tools@),
                numbers.reading(),
            ).calls,
            again == params_step(old(self)@, tools_view(tools@), numbers.reading()).again,
    {
        let ghost before = self@;
        let ghost items = items_view(calls@);
        let ghost after = params_read(
            params_in(before.buffer),
            tools_view(tools@),
            before.function,
            numbers.reading(),
        );
        let ghost sent = piece(before.tool, fragment(before.params, after));
        let ghost goal = params_step(before, tools_view(tools@), numbers.reading());
        self.parse_and_stream_parameters(tools, numbers, calls);
        let ghost mid = self@;
        proof {
            assert(mid.streamed.len() == before.streamed.len());
            assert(mid.streamed.len() == self.streamed_args_for_tool@.len());
            assert(mid.tool == before.tool);
        }
        let end = chars_of("</tool_call>");
        let n = self.buffer.len();
        let at = match find_token(&self.buffer, &end, 0) {
            Some(at) => at,
            None => return false,
        };
        let id = self.current_tool_id;
        let open = count_char(self.streamed_args_for_tool[id].as_str(), '{');
        let close = count_char(self.streamed_args_for_tool[id].as_str(), '}');
        let ghost held = mid.streamed[id as int];
        assert(held == self.streamed_args_for_tool@[id as int]@);
        let ghost tail = closing(held);
        proof {
            reveal_strlit("}");
        }
        if open > close {
            let item = ToolCallItem { tool_index: id, name: None, parameters: "}".to_owned() };
            assert(items_view(calls@) == items + sent);
            assert(items_view(calls@.push(item)) =~= items_view(calls@).push(item@));
            assert((items + sent).push(item@) =~= items + (sent + seq![item@]));
            calls.push(item);
            let closed = concat(self.streamed_args_for_tool[id].as_str(), "}");
            assert(texts(self.streamed_args_for_tool@.update(id as int, closed))
                =~= mid.streamed.update(id as int, held + "}"@));
            self.streamed_args_for_tool.set(id, closed);
        } else {
            assert(items + sent =~= items + (sent + Seq::<ItemView>::empty()));
            assert(held + Seq::<char>::empty() =~= held);
            assert(mid.streamed.update(id as int, held) =~= mid.streamed);
        }
        let from: usize = at + end.len();
        let rest = slice_of(&self.buffer, from, n);
        assert(mid.buffer.subrange(from as int, n as int) =~= mid.buffer.skip(from as int));
        self.buffer = rest;
        self.reset_streaming_state();
        let begun = self.streamed_args_for_tool.len();
        assert(begun == id + 1);
        self.current_tool_id = id + 1;
        assert(self@ =~= goal.state);
        true
    }

    /// Take in a chunk. See [`streamed`].
    pub fn parse_incremental<F: Fn(&str) -> Option<String>>(
        &mut self,
        chunk: &str,
        tools: &[Tool],
        numbers: &NumberReader<F>,
    ) -> (r: Result<StreamingParseResult, ParserError>)
        requires
            sound(old(self)@),
            numbers.wf(),
        ensures
            sound(final(self)@),
            ({
                let o = streamed(old(self)@, chunk@, tools_view(tools@), numbers.reading());
                &&& final(self)@ == o.state
                &&& r matches Ok(read) && read.normal_text@ == o.normal && items_view(read.calls@)
                    == o.calls
            }),
    {
        let ghost offered = tools_view(tools@);
        let ghost model = numbers.reading();
        let ghost before = self@;
        let mut more = chars_of(chunk);
        self.buffer.append(&mut more);
        let ghost first = self@;
        proof {
            assert(first =~= StreamView { buffer: before.buffer + chunk@, ..before });
            lemma_chunk_sound(before, chunk@);
        }
        let mut normal_text = String::new();
        let mut calls: Vec<ToolCallItem> = Vec::new();
        let mut again = true;
        let ghost goal = run(first, offered, model);
        proof {
            assert(items_view(calls@) + goal.calls =~= goal.calls);
            assert(normal_text@ + goal.normal =~= goal.normal);
        }
        while again
            invariant
                offered == tools_view(tools@),
                model == numbers.reading(),
                numbers.wf(),
                sound(self@),
                goal == run(first, offered, model),
                again ==> goal.state == run(self@, offered, model).state,
                again ==> goal.normal == normal_text@ + run(self@, offered, model).normal,
                again ==> goal.calls == items_view(calls@) + run(self@, offered, model).calls,
                !again ==> goal.state == self@ && goal.normal == normal_text@ && goal.calls
                    == items_view(calls@),
            decreases again as int, self@.buffer.len(),
        {
            let ghost now = self@;
            let ghost said = normal_text@;
            let ghost items = items_view(calls@);
            let ghost o = step(now, offered, model);
            proof {
                lemma_step(now, offered, model);
                assert(said + Seq::<char>::empty() =~= said);
                assert(items + Seq::<ItemView>::empty() =~= items);
            }
            if !self.in_tool_call {
                again = self.seek_call(&mut normal_text);
            } else if !self.current_tool_name_sent {
                again = self.read_name(tools, &mut normal_text, &mut calls);
            } else {
                again = self.read_call(tools, numbers, &mut calls);
            }
            proof {
                if o.again {
                    let rest = run(o.state, offered, model);
                    assert(said + (o.normal + rest.normal) =~= said + o.normal + rest.normal);
                    assert(items + (o.calls + rest.calls) =~= items + o.calls + rest.calls);
                }
            }
        }
        Ok(StreamingParseResult { normal_text, calls })
    }

    /// What is still to be sent of the arguments of the last call that was begun:
    /// where what was sent is a beginning of the whole object, the rest of it.
    pub fn get_unstreamed_tool_args(&self) -> (r: Option<Vec<ToolCallItem>>)
        requires
            sound(self@),
        ensures
            match r {
                Some(items) => items_view(items@) == unstreamed(self@) && unstreamed(self@).len()
                    > 0,
                None => unstreamed(self@).len() == 0,
            },
    {
        let n = self.begun_calls.len();
        if n == 0 {
            return None;
        }
        let whole = write_object(&self.begun_calls[n - 1].arguments);
        let ghost held = self@.streamed[n - 1];
        assert(held == self.streamed_args_for_tool@[n - 1]@);
        assert(self@.begun[n - 1] == self.begun_calls@[n - 1]@);
        if !str_has_prefix(whole.as_str(), self.streamed_args_for_tool[n - 1].as_str()) {
            return None;
        }
        let chars = chars_of(whole.as_str());
        let sent = chars_of(self.streamed_args_for_tool[n - 1].as_str());
        if sent.len() == chars.len() {
            return None;
        }
        let rest = string_of(&chars, sent.len(), chars.len());
        assert(rest@ =~= whole@.skip(sent@.len() as int));
        let item = ToolCallItem { tool_index: n - 1, name: None, parameters: rest };
        let mut items: Vec<ToolCallItem> = Vec::new();
        items.push(item);
        assert(items_view(items@) =~= unstreamed(self@));
        Some(items)
    }
}

/// What is still to be sent of the arguments of the last call that was begun.
pub open spec fn unstreamed(s: StreamView) -> Seq<ItemView> {
    let n = s.begun.len();
    if n == 0 {
        Seq::empty()
    } else {
        let whole = object(s.begun[n - 1].arguments);
        let sent = s.streamed[n - 1];
        if has_prefix(whole, sent) {
            piece((n - 1) as nat, whole.skip(sent.len() as int))
        } else {
            Seq::empty()
        }
    }
}

impl Default for Step3p5Parser {
    fn default() -> (r: Self)
        ensures
            r@ == fresh(),
            sound(r@),
    {
        Self::new()
    }
}

} // verus!
