//! What written calls are read as, in complete texts and in streams.
use super::json::{quoted, same_value, value_read};
use super::markup::{after_function, blocks_in, function_name, params_in, RawParamView};
use super::markup_laws::{
    law_block_stands_between_its_tags, law_function_is_declared, law_no_block_without_tags,
    law_no_parameter_without_tags, law_parameter_stands_between_its_tags,
};
use super::params::{
    has_key, law_params_by_key, lemma_with_param, members, object, params_read, same_values,
    unknown_params, ParamView,
};
use super::step3p5::{
    call_in, calls_in, closing, count_of, ends_partially, extracted, fragment, fresh, name_step,
    params_step, run, seek_step, step, streamed, unstreamed, with_params_read, BegunView, Outcome,
    StreamView,
};
use super::types::{declared_type, tool_named, type_of, CallView, ItemView, ParamTypeView, ToolView};
use crate::text::{find_spec, str_before, trim_spec};
use crate::text_laws::{law_first_place_is_found, law_occurrence_is_every_character, stands_at};
use vstd::prelude::*;

verus! {

// ---- Declared types ----

/// The type of a parameter is the first one declared of it by the first tool of the
/// name.
pub proof fn law_first_declaration_counts(
    tools: Seq<ToolView>,
    function: Seq<char>,
    key: Seq<char>,
)
    ensures
        match tool_named(tools, function) {
            Some(tool) => exists|t: int|
                0 <= t < tools.len() && #[trigger] tools[t] == tool && tool.name == function
                    && forall|i: int| 0 <= i < t ==> (#[trigger] tools[i]).name != function,
            None => forall|i: int| 0 <= i < tools.len() ==> (#[trigger] tools[i]).name != function,
        },
        forall|t: int, p: int|
            #![trigger tools[t].params[p]]
            0 <= t < tools.len() && 0 <= p < tools[t].params.len() && tools[t].name == function && (
            forall|i: int| 0 <= i < t ==> (#[trigger] tools[i]).name != function)
                && tools[t].params[p].key == key && (forall|i: int|
                0 <= i < p ==> (#[trigger] tools[t].params[i]).key != key) ==> declared_type(
                tools,
                function,
                key,
            ) == Some(tools[t].params[p].declared),
        forall|t: int|
            #![trigger tools[t]]
            0 <= t < tools.len() && tools[t].name == function && (forall|i: int|
                0 <= i < t ==> (#[trigger] tools[i]).name != function) && (forall|i: int|
                0 <= i < tools[t].params.len() ==> (#[trigger] tools[t].params[i]).key != key)
                ==> declared_type(tools, function, key) is None,
        (forall|i: int| 0 <= i < tools.len() ==> (#[trigger] tools[i]).name != function)
            ==> declared_type(tools, function, key) is None,
{
    lemma_tool_named(tools, function);
    assert forall|t: int, p: int|
        #![trigger tools[t].params[p]]
        0 <= t < tools.len() && 0 <= p < tools[t].params.len() && tools[t].name == function && (
        forall|i: int| 0 <= i < t ==> (#[trigger] tools[i]).name != function)
            && tools[t].params[p].key == key && (forall|i: int|
            0 <= i < p ==> (#[trigger] tools[t].params[i]).key != key) implies declared_type(
        tools,
        function,
        key,
    ) == Some(tools[t].params[p].declared) by {
        let u = lemma_tool_named(tools, function);
        if u < t {
            assert(tools[u].name != function);
        }
        if t < u {
            assert(tools[t].name != function);
        }
        let params = tools[t].params;
        let q = lemma_type_of(params, key);
        if q < p {
            assert(params[q].key != key);
        }
        if p < q {
            assert(params[p].key != key);
        }
    }
    assert forall|t: int|
        #![trigger tools[t]]
        0 <= t < tools.len() && tools[t].name == function && (forall|i: int|
            0 <= i < t ==> (#[trigger] tools[i]).name != function) && (forall|i: int|
            0 <= i < tools[t].params.len() ==> (#[trigger] tools[t].params[i]).key
                != key) implies declared_type(tools, function, key) is None by {
        let u = lemma_tool_named(tools, function);
        if u < t {
            assert(tools[u].name != function);
        }
        if t < u {
            assert(tools[t].name != function);
        }
        let params = tools[t].params;
        let q = lemma_type_of(params, key);
        if 0 <= q < params.len() {
            assert(params[q].key != key);
        }
    }
    if forall|i: int| 0 <= i < tools.len() ==> (#[trigger] tools[i]).name != function {
        let u = lemma_tool_named(tools, function);
        if u < tools.len() {
            assert(tools[u].name != function);
        }
    }
}

proof fn lemma_tool_named(tools: Seq<ToolView>, name: Seq<char>) -> (t: int)
    ensures
        0 <= t <= tools.len(),
        forall|i: int| 0 <= i < t ==> (#[trigger] tools[i]).name != name,
        t < tools.len() ==> tools[t].name == name && tool_named(tools, name) == Some(tools[t]),
        t == tools.len() ==> tool_named(tools, name) is None,
    decreases tools.len(),
{
    if tools.len() == 0 || tools[0].name == name {
        0
    } else {
        let rest = tools.drop_first();
        let t = lemma_tool_named(rest, name);
        assert forall|i: int| 0 <= i < t + 1 implies (#[trigger] tools[i]).name != name by {
            if i > 0 {
                assert(rest[i - 1] == tools[i]);
            }
        }
        t + 1
    }
}

proof fn lemma_type_of(params: Seq<ParamTypeView>, key: Seq<char>) -> (p: int)
    ensures
        0 <= p <= params.len(),
        forall|i: int| 0 <= i < p ==> (#[trigger] params[i]).key != key,
        p < params.len() ==> params[p].key == key && type_of(params, key) == Some(
            params[p].declared,
        ),
        p == params.len() ==> type_of(params, key) is None,
    decreases params.len(),
{
    if params.len() == 0 || params[0].key == key {
        0
    } else {
        let rest = params.drop_first();
        let p = lemma_type_of(rest, key);
        assert forall|i: int| 0 <= i < p + 1 implies (#[trigger] params[i]).key != key by {
            if i > 0 {
                assert(rest[i - 1] == params[i]);
            }
        }
        p + 1
    }
}

// ---- Parameters ----

/// Every parameter that is written is read, by its declared type, and no other. Of two
/// with one key the later counts.
pub proof fn law_written_parameters_are_read(
    raw: Seq<RawParamView>,
    tools: Seq<ToolView>,
    function: Seq<char>,
    numbers: spec_fn(Seq<char>) -> Option<Seq<char>>,
    p: ParamView,
)
    ensures
        params_read(raw, tools, function, numbers).contains(p) <==> exists|i: int|
            #![trigger raw[i]]
            0 <= i < raw.len() && raw[i].key == p.key && (forall|j: int|
                i < j < raw.len() ==> (#[trigger] raw[j]).key != p.key) && p.json == value_read(
                raw[i].value,
                declared_type(tools, function, p.key),
                numbers,
            ),
        forall|i: int, j: int|
            0 <= i < j < params_read(raw, tools, function, numbers).len() ==> str_before(
                (#[trigger] params_read(raw, tools, function, numbers)[i]).key,
                (#[trigger] params_read(raw, tools, function, numbers)[j]).key,
            ),
    decreases raw.len(),
{
    law_params_by_key(raw, tools, function, numbers);
    if raw.len() > 0 {
        let init = raw.drop_last();
        let last = raw.last();
        let n = raw.len() - 1;
        assert(raw[n] == last);
        law_written_parameters_are_read(init, tools, function, numbers, p);
        law_params_by_key(init, tools, function, numbers);
        let before = params_read(init, tools, function, numbers);
        let q = ParamView {
            key: last.key,
            json: value_read(last.value, declared_type(tools, function, last.key), numbers),
        };
        lemma_with_param(before, q);
        let now = params_read(raw, tools, function, numbers);
        if now.contains(p) {
            if p == q {
                assert(raw[n].key == p.key);
            } else {
                let i = choose|i: int|
                    #![trigger init[i]]
                    0 <= i < init.len() && init[i].key == p.key && (forall|j: int|
                        i < j < init.len() ==> (#[trigger] init[j]).key != p.key) && p.json
                        == value_read(
                        init[i].value,
                        declared_type(tools, function, p.key),
                        numbers,
                    );
                assert(raw[i] == init[i]);
                assert forall|j: int| i < j < raw.len() implies (#[trigger] raw[j]).key
                    != p.key by {
                    if j < n {
                        assert(init[j] == raw[j]);
                    }
                }
            }
        }
        if exists|i: int|
            #![trigger raw[i]]
            0 <= i < raw.len() && raw[i].key == p.key && (forall|j: int|
                i < j < raw.len() ==> (#[trigger] raw[j]).key != p.key) && p.json == value_read(
                raw[i].value,
                declared_type(tools, function, p.key),
                numbers,
            ) {
            let i = choose|i: int|
                #![trigger raw[i]]
                0 <= i < raw.len() && raw[i].key == p.key && (forall|j: int|
                    i < j < raw.len() ==> (#[trigger] raw[j]).key != p.key) && p.json == value_read(
                    raw[i].value,
                    declared_type(tools, function, p.key),
                    numbers,
                );
            if i < n {
                assert(raw[n].key != p.key);
                assert(init[i] == raw[i]);
                assert forall|j: int| i < j < init.len() implies (#[trigger] init[j]).key
                    != p.key by {
                    assert(raw[j] == init[j]);
                }
                assert(before.contains(p));
            }
        }
    }
}

/// An object is its members between braces. A member is its key as a string, a colon
/// and its value, and between two stands a comma.
pub proof fn law_object_is_its_members(
    a: Seq<ParamView>,
    b: Seq<ParamView>,
    p: ParamView,
    colon: Seq<char>,
    comma: Seq<char>,
)
    ensures
        object(a) == seq!['{'] + members(a, seq![':'], seq![',']) + seq!['}'],
        members(Seq::empty(), colon, comma) == Seq::<char>::empty(),
        members(seq![p], colon, comma) == quoted(p.key) + colon + p.json,
        a.len() > 0 && b.len() > 0 ==> members(a + b, colon, comma) == members(a, colon, comma)
            + comma + members(b, colon, comma),
    decreases b.len(),
{
    reveal_strlit("{");
    reveal_strlit("}");
    reveal_strlit(":");
    reveal_strlit(",");
    assert("{"@ =~= seq!['{']);
    assert("}"@ =~= seq!['}']);
    assert(":"@ =~= seq![':']);
    assert(","@ =~= seq![',']);
    if a.len() > 0 && b.len() > 0 {
        let init = b.drop_last();
        assert((a + b).drop_last() =~= a + init);
        assert((a + b).last() == b.last());
        let member = quoted(b.last().key) + colon + b.last().json;
        if init.len() > 0 {
            law_object_is_its_members(a, init, p, colon, comma);
            assert(members(a, colon, comma) + comma + members(init, colon, comma) + comma + member
                =~= members(a, colon, comma) + comma + (members(init, colon, comma) + comma
                + member));
        } else {
            assert(a + init =~= a);
        }
    }
}

// ---- Complete texts ----

/// Calls are read block by block.
pub proof fn law_calls_block_by_block(
    a: Seq<Seq<char>>,
    b: Seq<Seq<char>>,
    block: Seq<char>,
    tools: Seq<ToolView>,
    numbers: spec_fn(Seq<char>) -> Option<Seq<char>>,
)
    ensures
        calls_in(a + b, tools, numbers) == calls_in(a, tools, numbers) + calls_in(b, tools, numbers),
        calls_in(Seq::empty(), tools, numbers).len() == 0,
        function_name(block) is None ==> call_in(block, tools, numbers) is Err && calls_in(
            seq![block],
            tools,
            numbers,
        ).len() == 0,
        function_name(block) matches Some(name) ==> name.len() == 0 ==> calls_in(
            seq![block],
            tools,
            numbers,
        ).len() == 0,
        function_name(block) matches Some(name) ==> name.len() > 0 ==> calls_in(
            seq![block],
            tools,
            numbers,
        ) == seq![
            CallView {
                name,
                arguments: seq!['{'] + members(
                    params_read(params_in(block), tools, name, numbers),
                    seq![':'],
                    seq![','],
                ) + seq!['}'],
            },
        ],
    decreases b.len(),
{
    if b.len() > 0 {
        law_calls_block_by_block(a, b.drop_last(), block, tools, numbers);
        assert((a + b).drop_last() =~= a + b.drop_last());
        assert((a + b).last() == b.last());
        assert(calls_in(a + b, tools, numbers) =~= calls_in(a, tools, numbers) + calls_in(
            b,
            tools,
            numbers,
        ));
    } else {
        assert(a + b =~= a);
        assert(calls_in(a, tools, numbers) + calls_in(b, tools, numbers) =~= calls_in(
            a,
            tools,
            numbers,
        ));
    }
    reveal_with_fuel(calls_in, 2);
    assert(seq![block].drop_last() =~= Seq::<Seq<char>>::empty());
    if let Some(name) = function_name(block) {
        let params = params_read(params_in(block), tools, name, numbers);
        law_object_is_its_members(
            params,
            params,
            ParamView { key: name, json: name },
            seq![':'],
            seq![','],
        );
        if name.len() > 0 {
            assert(calls_in(seq![block], tools, numbers) =~= seq![
                CallView { name, arguments: object(params) },
            ]);
        }
    }
}

/// A text is split at the first block where there is a call: what stands before it is
/// the answer. A text without calls is the answer as it stands.
pub proof fn law_answer_stands_before_the_calls(
    text: Seq<char>,
    tools: Seq<ToolView>,
    numbers: spec_fn(Seq<char>) -> Option<Seq<char>>,
)
    ensures
        extracted(text, tools, numbers).1 == calls_in(blocks_in(text), tools, numbers),
        extracted(text, tools, numbers).1.len() == 0 ==> extracted(text, tools, numbers).0 == text,
        extracted(text, tools, numbers).1.len() > 0 ==> exists|at: int| #[trigger]
            stands_at(text, "<tool_call>"@, at) && extracted(text, tools, numbers).0
                == text.subrange(0, at) && forall|i: int|
                0 <= i < at ==> !#[trigger] stands_at(text, "<tool_call>"@, i),
{
    law_first_place_is_found(text, "<tool_call>"@, 0);
    law_no_block_without_tags(text);
    let calls = calls_in(blocks_in(text), tools, numbers);
    if find_spec(text, "<tool_call>"@, 0) is None {
        assert(blocks_in(text) =~= Seq::empty());
        assert(calls =~= Seq::empty());
    } else {
        let at = find_spec(text, "<tool_call>"@, 0)->0;
        if calls.len() > 0 {
            assert(stands_at(text, "<tool_call>"@, at));
            assert(text.take(at) =~= text.subrange(0, at));
        } else {
            assert(calls =~= Seq::empty());
        }
    }
}

/// No `<` stands in a text.
pub open spec fn unmarked(text: Seq<char>) -> bool {
    forall|i: int| 0 <= i < text.len() ==> #[trigger] text[i] != '<'
}

/// A name that stands in a tag as it is: not empty, without marks, and without white
/// space around it.
pub open spec fn plain_name(name: Seq<char>) -> bool {
    &&& name.len() > 0
    &&& unmarked(name)
    &&& forall|i: int| 0 <= i < name.len() ==> #[trigger] name[i] != '>'
    &&& trim_spec(name) == name
}

/// How a call with one parameter is written.
pub open spec fn written_call(name: Seq<char>, key: Seq<char>, value: Seq<char>) -> Seq<char> {
    "<function="@ + name + ">"@ + ("<parameter="@ + key + ">"@ + (value + "</parameter>"@
        + "</function>"@))
}

/// What a written call declares and holds.
#[verifier::rlimit(40)]
proof fn lemma_written_call(name: Seq<char>, key: Seq<char>, value: Seq<char>)
    requires
        plain_name(name),
        plain_name(key),
        unmarked(value),
    ensures
        function_name(written_call(name, key, value)) == Some(name),
        params_in(written_call(name, key, value)) == seq![RawParamView { key, value }],
        forall|i: int|
            !#[trigger] stands_at(written_call(name, key, value), "</tool_call>"@, i),
        trim_spec(written_call(name, key, value)) == written_call(name, key, value),
{
    let text = written_call(name, key, value);
    reveal_strlit("<function=");
    reveal_strlit("<parameter=");
    reveal_strlit("</parameter>");
    reveal_strlit("</function>");
    reveal_strlit("</tool_call>");
    reveal_strlit(">");
    let none = Seq::<char>::empty();
    let rest = "<parameter="@ + key + ">"@ + (value + "</parameter>"@ + "</function>"@);
    assert(none + "<function="@ + name + ">"@ + rest =~= text);
    law_function_is_declared(none, name, rest);
    let head = "<function="@ + name + ">"@;
    let tail = value + "</parameter>"@ + "</function>"@;
    assert(text =~= head + "<parameter="@ + key + ">"@ + tail);
    let p = head.len() as int;
    assert forall|i: int| 0 <= i < head.len() implies !#[trigger] stands_at(
        head + "<parameter="@ + key + ">"@ + tail,
        "<parameter="@,
        i,
    ) by {
        let t = "<parameter="@;
        if stands_at(text, t, i) {
            assert(t[0] == text[i + 0]);
            assert(t[1] == text[i + 1]);
            if 10 <= i < 10 + name.len() {
                assert(text[i] == name[i - 10]);
            }
        }
    }
    assert forall|i: int| 0 <= i < value.len() implies !#[trigger] stands_at(
        value + "</parameter>"@ + "</function>"@,
        "</parameter>"@,
        i,
    ) by {
        let t = "</parameter>"@;
        if stands_at(tail, t, i) {
            assert(t[0] == tail[i + 0]);
            assert(tail[i] == value[i]);
        }
    }
    law_parameter_stands_between_its_tags(head, key, value, "</function>"@);
    let last = "</function>"@;
    law_no_parameter_without_tags(last);
    assert forall|i: int| !#[trigger] stands_at(last, "</parameter>"@, i) by {}
    assert(params_in(last) =~= Seq::empty());
    assert(seq![RawParamView { key, value }] + params_in(last) =~= seq![
        RawParamView { key, value },
    ]);
    assert forall|i: int| !#[trigger] stands_at(text, "</tool_call>"@, i) by {
        let t = "</tool_call>"@;
        if stands_at(text, t, i) {
            assert(t[0] == text[i + 0]);
            assert(t[1] == text[i + 1]);
            assert(t[2] == text[i + 2]);
            let k = p + 11;
            let v = k + key.len() + 1;
            let c = v + value.len();
            if 10 <= i < 10 + name.len() {
                assert(text[i] == name[i - 10]);
            } else if k <= i < k + key.len() {
                assert(text[i] == key[i - k]);
            } else if v <= i < c {
                assert(text[i] == value[i - v]);
            }
        }
    }
    crate::text_laws::law_trimming_takes_white_space_only(text);
    let (a, b) = choose|a: int, b: int|
        0 <= a <= b <= text.len() && trim_spec(text) == #[trigger] text.subrange(a, b) && (forall|
            i: int,
        |
            (0 <= i < a || b <= i < text.len()) ==> crate::text_laws::is_white(
                (#[trigger] text[i]) as int,
            )) && (a < b ==> !crate::text_laws::is_white(text[a] as int)
            && !crate::text_laws::is_white(text[b - 1] as int));
    let n = text.len() as int;
    assert(text[0] == '<');
    assert(text[n - 1] == '>');
    if a > 0 {
        assert(crate::text_laws::is_white(text[0] as int));
    }
    if b < n {
        assert(crate::text_laws::is_white(text[n - 1] as int));
    }
    assert(text.subrange(0, n) =~= text);
}

/// A call that is written is read: its name, and its argument by the declared type.
/// What stands before it is the answer, and the calls behind it follow.
#[verifier::rlimit(40)]
pub proof fn law_written_call_is_read(
    before: Seq<char>,
    name: Seq<char>,
    key: Seq<char>,
    value: Seq<char>,
    rest: Seq<char>,
    tools: Seq<ToolView>,
    numbers: spec_fn(Seq<char>) -> Option<Seq<char>>,
)
    requires
        unmarked(before),
        plain_name(name),
        plain_name(key),
        unmarked(value),
    ensures
        ({
            let text = before + "<tool_call>"@ + (written_call(name, key, value) + "</tool_call>"@
                + rest);
            let read = extracted(text, tools, numbers);
            &&& read.0 == before
            &&& read.1 == seq![
                CallView {
                    name,
                    arguments: seq!['{'] + (quoted(key) + seq![':'] + value_read(
                        value,
                        declared_type(tools, name, key),
                        numbers,
                    )) + seq!['}'],
                },
            ] + calls_in(blocks_in(rest), tools, numbers)
        }),
{
    let body = written_call(name, key, value);
    let text = before + "<tool_call>"@ + (body + "</tool_call>"@ + rest);
    reveal_strlit("<tool_call>");
    reveal_strlit("</tool_call>");
    lemma_written_call(name, key, value);
    assert forall|i: int| 0 <= i < before.len() implies !#[trigger] stands_at(
        text,
        "<tool_call>"@,
        i,
    ) by {
        let t = "<tool_call>"@;
        if stands_at(text, t, i) {
            assert(t[0] == text[i + 0]);
            assert(text[i] == before[i]);
        }
    }
    assert forall|i: int| 0 <= i < body.len() implies !#[trigger] stands_at(
        body + "</tool_call>"@ + rest,
        "</tool_call>"@,
        i,
    ) by {
        lemma_body_is_closed_once(name, key, value, rest, i);
    }
    law_block_stands_between_its_tags(before, body, rest);
    let raw = seq![RawParamView { key, value }];
    reveal_with_fuel(params_read, 2);
    assert(raw.drop_last() =~= Seq::<RawParamView>::empty());
    let p = ParamView { key, json: value_read(value, declared_type(tools, name, key), numbers) };
    let params = params_read(raw, tools, name, numbers);
    assert(params =~= seq![p]);
    law_object_is_its_members(params, params, p, seq![':'], seq![',']);
    law_calls_block_by_block(seq![body], blocks_in(rest), body, tools, numbers);
    law_first_place_is_found(text, "<tool_call>"@, 0);
    assert(text.take(before.len() as int) =~= before);
}

#[verifier::rlimit(40)]
proof fn lemma_body_is_closed_once(
    name: Seq<char>,
    key: Seq<char>,
    value: Seq<char>,
    rest: Seq<char>,
    i: int,
)
    requires
        plain_name(name),
        plain_name(key),
        unmarked(value),
        0 <= i < written_call(name, key, value).len(),
    ensures
        !stands_at(
            written_call(name, key, value) + "</tool_call>"@ + rest,
            "</tool_call>"@,
            i,
        ),
{
    let body = written_call(name, key, value);
    let t = "</tool_call>"@;
    let text = body + t + rest;
    reveal_strlit("<function=");
    reveal_strlit("<parameter=");
    reveal_strlit("</parameter>");
    reveal_strlit("</function>");
    reveal_strlit("</tool_call>");
    reveal_strlit(">");
    if stands_at(text, t, i) {
        assert(t[0] == text[i + 0]);
        assert(t[1] == text[i + 1]);
        assert(t[2] == text[i + 2]);
        let k = 10 + name.len() + 1 + 11;
        let v = k + key.len() + 1;
        let c = v + value.len();
        if 10 <= i < 10 + name.len() {
            assert(text[i] == name[i - 10]);
        } else if k <= i < k + key.len() {
            assert(text[i] == key[i - k]);
        } else if v <= i < c {
            assert(text[i] == value[i - v]);
        }
    }
}

// ---- Streams ----

/// Outside a call, the first tag that opens a block begins one: what stands before the
/// tag is passed on, and what stands behind it is looked at next.
pub proof fn law_block_begins(s: StreamView, a: Seq<char>, b: Seq<char>)
    requires
        s.buffer == a + "<tool_call>"@ + b,
        forall|i: int| 0 <= i < a.len() ==> !#[trigger] stands_at(s.buffer, "<tool_call>"@, i),
    ensures
        ({
            let o = seek_step(s);
            &&& o.normal == a
            &&& o.calls.len() == 0
            &&& o.again
            &&& o.state.buffer == b
            &&& o.state.in_call
            &&& !o.state.name_sent
            &&& o.state.params.len() == 0
            &&& o.state.tool == s.tool
            &&& o.state.begun == s.begun
            &&& o.state.streamed == s.streamed
        }),
{
    let t = "<tool_call>"@;
    reveal_strlit("<tool_call>");
    assert(stands_at(s.buffer, t, a.len() as int)) by {
        assert forall|j: int| 0 <= j < t.len() implies #[trigger] t[j] == s.buffer[a.len() + j] by {}
    }
    law_first_place_is_found(s.buffer, t, 0);
    assert(find_spec(s.buffer, t, 0) == Some(a.len() as int));
    assert(s.buffer.take(a.len() as int) =~= a);
    assert(s.buffer.skip((a.len() + t.len()) as int) =~= b);
}

/// Outside a call, text without a tag that opens a block is passed on, unless its end
/// may be the beginning of that tag: then all of it waits.
pub proof fn law_text_outside_calls(s: StreamView)
    requires
        forall|i: int| !#[trigger] stands_at(s.buffer, "<tool_call>"@, i),
    ensures
        ({
            let o = seek_step(s);
            let waits = exists|n: int|
                1 <= n < 11 && n <= s.buffer.len() && #[trigger] stands_at(
                    s.buffer,
                    "<tool_call>"@.subrange(0, n),
                    s.buffer.len() - n,
                );
            &&& o.calls.len() == 0
            &&& !o.again
            &&& !waits ==> o.normal == s.buffer && o.state == (StreamView {
                buffer: Seq::empty(),
                ..s
            })
            &&& waits ==> o.normal.len() == 0 && o.state == s
        }),
{
    let t = "<tool_call>"@;
    reveal_strlit("<tool_call>");
    law_first_place_is_found(s.buffer, t, 0);
    let len = s.buffer.len() as int;
    if ends_partially(s.buffer, t) {
        let n = choose|n: int|
            1 <= n < t.len() && n <= s.buffer.len() && #[trigger] t.take(n) == s.buffer.skip(
                len - n,
            );
        let part = t.subrange(0, n);
        assert(part =~= t.take(n));
        assert forall|j: int| 0 <= j < part.len() implies #[trigger] part[j] == s.buffer[len - n
            + j] by {
            assert(t.take(n)[j] == s.buffer.skip(len - n)[j]);
        }
        assert(stands_at(s.buffer, part, len - n));
    }
    if exists|n: int|
        1 <= n < 11 && n <= s.buffer.len() && #[trigger] stands_at(
            s.buffer,
            t.subrange(0, n),
            len - n,
        ) {
        let n = choose|n: int|
            1 <= n < 11 && n <= s.buffer.len() && #[trigger] stands_at(
                s.buffer,
                t.subrange(0, n),
                len - n,
            );
        let part = t.subrange(0, n);
        assert(t.take(n) =~= s.buffer.skip(len - n)) by {
            assert forall|j: int| 0 <= j < n implies t.take(n)[j] == s.buffer.skip(len - n)[j] by {
                assert(part[j] == s.buffer[len - n + j]);
            }
        }
        assert(ends_partially(s.buffer, t));
    }
}

/// In a block, the declaration of a function that is one of the tools begins a call:
/// its name is sent under the next index. With a function that is none of the tools,
/// what is left is passed on as text and the block is left. Without a declaration the
/// stream waits.
pub proof fn law_call_begins_with_its_name(s: StreamView, tools: Seq<ToolView>)
    ensures
        ({
            let o = name_step(s, tools);
            &&& function_name(s.buffer) is None ==> o.state == s && o.normal.len() == 0
                && o.calls.len() == 0 && !o.again
            &&& function_name(s.buffer) matches Some(name) ==> (exists|t: int|
                0 <= t < tools.len() && (#[trigger] tools[t]).name == name) ==> {
                &&& o.calls == seq![
                    ItemView { tool_index: s.tool, name: Some(name), parameters: Seq::empty() },
                ]
                &&& o.normal.len() == 0
                &&& o.again
                &&& o.state.name_sent
                &&& o.state.in_call == s.in_call
                &&& o.state.tool == s.tool
                &&& o.state.function == name
                &&& o.state.params == s.params
                &&& o.state.buffer == after_function(s.buffer)
                &&& o.state.begun == s.begun.push(BegunView { name, arguments: Seq::empty() })
                &&& o.state.streamed == s.streamed.push(Seq::empty())
            }
            &&& function_name(s.buffer) matches Some(name) ==> (forall|t: int|
                0 <= t < tools.len() ==> (#[trigger] tools[t]).name != name) ==> {
                &&& o.calls.len() == 0
                &&& o.normal == s.buffer
                &&& !o.again
                &&& !o.state.in_call
                &&& !o.state.name_sent
                &&& o.state.buffer.len() == 0
                &&& o.state.tool == s.tool
                &&& o.state.begun == s.begun
                &&& o.state.streamed == s.streamed
            }
        }),
{
    if let Some(name) = function_name(s.buffer) {
        let u = lemma_tool_named(tools, name);
        if u < tools.len() {
            assert(tools[u].name == name);
        } else if exists|t: int| 0 <= t < tools.len() && (#[trigger] tools[t]).name == name {
            let t = choose|t: int| 0 <= t < tools.len() && (#[trigger] tools[t]).name == name;
            assert(tools[t].name != name);
        }
    }
}

/// How often a character stands in a text.
pub open spec fn occurrences(text: Seq<char>, c: char) -> nat {
    text.filter(|x: char| x == c).len()
}

proof fn lemma_count(text: Seq<char>, c: char)
    ensures
        count_of(text, c) == occurrences(text, c),
    decreases text.len(),
{
    reveal(Seq::filter);
    if text.len() > 0 {
        lemma_count(text.drop_last(), c);
    }
}

/// Arguments are closed by one brace where more braces were opened in them than
/// closed, and else by nothing.
pub proof fn law_arguments_are_closed(args: Seq<char>)
    ensures
        occurrences(args, '{') > occurrences(args, '}') ==> closing(args) == seq!['}'],
        occurrences(args, '{') <= occurrences(args, '}') ==> closing(args).len() == 0,
{
    lemma_count(args, '{');
    lemma_count(args, '}');
    reveal_strlit("}");
    assert("}"@ =~= seq!['}']);
}

/// In a call of which nothing was sent yet, the parameters that are complete are sent
/// as the members of an object that is opened with them. The tag that closes the block
/// closes the object and ends the call, and the next one gets the next index.
#[verifier::rlimit(40)]
pub proof fn law_call_ends_with_its_block(
    s: StreamView,
    a: Seq<char>,
    b: Seq<char>,
    tools: Seq<ToolView>,
    numbers: spec_fn(Seq<char>) -> Option<Seq<char>>,
)
    requires
        s.buffer == a + "</tool_call>"@ + b,
        forall|i: int| 0 <= i < a.len() ==> !#[trigger] stands_at(s.buffer, "</tool_call>"@, i),
        s.params.len() == 0,
        s.streamed.len() == s.tool + 1,
        s.streamed[s.tool as int].len() == 0,
        s.begun.len() == s.tool + 1,
    ensures
        ({
            let o = params_step(s, tools, numbers);
            let params = params_read(params_in(s.buffer), tools, s.function, numbers);
            let open = seq!['{'] + members(params, seq![':', ' '], seq![',', ' ']);
            let sent = if params.len() == 0 {
                Seq::empty()
            } else {
                open + closing(open)
            };
            &&& o.normal.len() == 0
            &&& o.again
            &&& o.state.buffer == b
            &&& !o.state.in_call
            &&& !o.state.name_sent
            &&& o.state.params.len() == 0
            &&& o.state.tool == s.tool + 1
            &&& o.state.streamed.len() == s.streamed.len()
            &&& o.state.streamed[s.tool as int] == sent
            &&& o.state.begun.len() == s.begun.len()
            &&& params.len() == 0 ==> o.calls.len() == 0
            &&& params.len() > 0 ==> o.calls.len() >= 1 && o.calls[0] == (ItemView {
                tool_index: s.tool,
                name: None,
                parameters: open,
            })
            &&& params.len() > 0 && closing(open).len() == 0 ==> o.calls.len() == 1
            &&& params.len() > 0 && closing(open).len() > 0 ==> o.calls.len() == 2 && o.calls[1]
                == (ItemView { tool_index: s.tool, name: None, parameters: closing(open) })
            &&& params.len() > 0 ==> o.state.begun[s.tool as int].arguments == params
        }),
{
    let t = "</tool_call>"@;
    reveal_strlit("</tool_call>");
    reveal_strlit("{");
    reveal_strlit(": ");
    reveal_strlit(", ");
    assert("{"@ =~= seq!['{']);
    assert(": "@ =~= seq![':', ' ']);
    assert(", "@ =~= seq![',', ' ']);
    assert(stands_at(s.buffer, t, a.len() as int)) by {
        assert forall|j: int| 0 <= j < t.len() implies #[trigger] t[j] == s.buffer[a.len() + j] by {}
    }
    law_first_place_is_found(s.buffer, t, 0);
    assert(find_spec(s.buffer, t, 0) == Some(a.len() as int));
    assert(s.buffer.skip((a.len() + t.len()) as int) =~= b);
    let params = params_read(params_in(s.buffer), tools, s.function, numbers);
    let open = seq!['{'] + members(params, seq![':', ' '], seq![',', ' ']);
    let none = Seq::<char>::empty();
    assert(s.streamed[s.tool as int] =~= none);
    assert(none + open =~= open);
    law_arguments_are_closed(none);
    reveal(Seq::filter);
    assert(occurrences(none, '{') == 0);
    assert(none + closing(none) =~= none);
    let o = params_step(s, tools, numbers);
    if params.len() == 0 {
        assert(s.params =~= params);
        assert(same_values(s.params, params));
        assert(o.calls =~= Seq::empty());
    } else {
        assert(!same_values(s.params, params));
        assert(fragment(s.params, params) == open);
        let mid = with_params_read(s, params);
        assert(mid.streamed[s.tool as int] == open);
    }
}

/// Parameters whose key is not known are those whose key none of the known ones has, in
/// their order.
pub proof fn law_unknown_parameters(params: Seq<ParamView>, known: Seq<ParamView>)
    ensures
        unknown_params(params, known) == params.filter(
            |p: ParamView| forall|i: int| 0 <= i < known.len() ==> (#[trigger] known[i]).key != p.key,
        ),
    decreases params.len(),
{
    reveal(Seq::filter);
    let f = |p: ParamView| forall|i: int| 0 <= i < known.len() ==> (#[trigger] known[i]).key != p.key;
    if params.len() > 0 {
        law_unknown_parameters(params.drop_last(), known);
        let last = params.last();
        if has_key(known, last.key) {
            let i = choose|i: int| 0 <= i < known.len() && (#[trigger] known[i]).key == last.key;
            assert(known[i].key == last.key);
            assert(!f(last));
        } else {
            assert(f(last));
        }
    } else {
        assert(unknown_params(params, known) =~= params.filter(f));
    }
}

/// In a call of which parameters were sent, those that are complete now and were not
/// before are sent behind a comma, and where there are none nothing is sent. What was
/// read is remembered, and so is what was sent.
#[verifier::rlimit(40)]
pub proof fn law_further_parameters_are_sent(
    s: StreamView,
    tools: Seq<ToolView>,
    numbers: spec_fn(Seq<char>) -> Option<Seq<char>>,
)
    requires
        forall|i: int| !#[trigger] stands_at(s.buffer, "</tool_call>"@, i),
        s.params.len() > 0,
        s.streamed.len() == s.tool + 1,
        s.begun.len() == s.tool + 1,
    ensures
        ({
            let o = params_step(s, tools, numbers);
            let params = params_read(params_in(s.buffer), tools, s.function, numbers);
            let more = params.filter(
                |p: ParamView|
                    forall|i: int|
                        0 <= i < s.params.len() ==> (#[trigger] s.params[i]).key != p.key,
            );
            let text = seq![',', ' '] + members(more, seq![':', ' '], seq![',', ' ']);
            &&& more.len() > 0 ==> {
                &&& o.calls == seq![ItemView { tool_index: s.tool, name: None, parameters: text }]
                &&& o.state.params == params
                &&& o.state.begun[s.tool as int].arguments == params
                &&& o.state.streamed[s.tool as int] == s.streamed[s.tool as int] + text
            }
            &&& more.len() == 0 ==> o.calls.len() == 0 && o.state.streamed[s.tool as int]
                == s.streamed[s.tool as int]
            &&& s.params.len() != params.len() || (exists|i: int|
                0 <= i < params.len() && ((#[trigger] params[i]).key != s.params[i].key
                    || !same_value(s.params[i].json, params[i].json))) ==> o.state.params == params
                && o.state.begun[s.tool as int].arguments == params
        }),
{
    reveal_strlit(": ");
    reveal_strlit(", ");
    assert(": "@ =~= seq![':', ' ']);
    assert(", "@ =~= seq![',', ' ']);
    law_first_place_is_found(s.buffer, "</tool_call>"@, 0);
    let params = params_read(params_in(s.buffer), tools, s.function, numbers);
    law_unknown_parameters(params, s.params);
    let more = unknown_params(params, s.params);
    let o = params_step(s, tools, numbers);
    let none = Seq::<char>::empty();
    assert(s.streamed[s.tool as int] + none =~= s.streamed[s.tool as int]);
    if same_values(s.params, params) {
        assert forall|i: int| 0 <= i < params.len() implies s.params[i].key == (
        #[trigger] params[i]).key && same_value(s.params[i].json, params[i].json) by {
            assert(s.params[i].key == params[i].key);
        }
        lemma_none_unknown(params, s.params);
        assert(more.len() == 0);
        assert(o.calls =~= Seq::empty());
    } else if more.len() == 0 {
        assert(fragment(s.params, params) =~= none);
        assert(o.calls =~= Seq::empty());
    }
}

proof fn lemma_none_unknown(params: Seq<ParamView>, known: Seq<ParamView>)
    requires
        params.len() <= known.len(),
        forall|i: int| 0 <= i < params.len() ==> known[i].key == (#[trigger] params[i]).key,
    ensures
        unknown_params(params, known).len() == 0,
    decreases params.len(),
{
    if params.len() > 0 {
        let init = params.drop_last();
        assert forall|i: int| 0 <= i < init.len() implies known[i].key == (
        #[trigger] init[i]).key by {
            assert(params[i] == init[i]);
        }
        lemma_none_unknown(init, known);
        let n = params.len() - 1;
        assert(known[n].key == params[n].key);
        assert(has_key(known, params.last().key));
    }
}

/// In a call, while the tag that closes the block has not come, nothing but parameters
/// is sent, the buffer stays and the call goes on.
pub proof fn law_call_goes_on(
    s: StreamView,
    tools: Seq<ToolView>,
    numbers: spec_fn(Seq<char>) -> Option<Seq<char>>,
)
    requires
        forall|i: int| !#[trigger] stands_at(s.buffer, "</tool_call>"@, i),
    ensures
        ({
            let o = params_step(s, tools, numbers);
            &&& o.normal.len() == 0
            &&& !o.again
            &&& o.state.buffer == s.buffer
            &&& o.state.in_call == s.in_call
            &&& o.state.name_sent == s.name_sent
            &&& o.state.tool == s.tool
            &&& o.state.function == s.function
            &&& o.calls.len() <= 1
        }),
{
    law_first_place_is_found(s.buffer, "</tool_call>"@, 0);
}

/// A stream brings a written call of one of the tools as its name, the member that its
/// parameter makes and the brace that closes the object. What stands before the call
/// is passed on. The value is read as in a complete text.
#[verifier::rlimit(40)]
pub proof fn law_written_call_is_streamed(
    before: Seq<char>,
    name: Seq<char>,
    key: Seq<char>,
    value: Seq<char>,
    tools: Seq<ToolView>,
    numbers: spec_fn(Seq<char>) -> Option<Seq<char>>,
    t: int,
)
    requires
        unmarked(before),
        plain_name(name),
        plain_name(key),
        unmarked(value),
        0 <= t < tools.len(),
        tools[t].name == name,
    ensures
        ({
            let text = before + "<tool_call>"@ + (written_call(name, key, value)
                + "</tool_call>"@);
            let o = streamed(fresh(), text, tools, numbers);
            let open = seq!['{'] + (quoted(key) + seq![':', ' '] + value_read(
                value,
                declared_type(tools, name, key),
                numbers,
            ));
            &&& o.normal == before
            &&& o.state.tool == 1
            &&& !o.state.in_call
            &&& o.state.buffer.len() == 0
            &&& o.calls.len() >= 2
            &&& o.calls[0] == (ItemView {
                tool_index: 0,
                name: Some(name),
                parameters: Seq::empty(),
            })
            &&& o.calls[1] == (ItemView { tool_index: 0, name: None, parameters: open })
            &&& occurrences(open, '{') > occurrences(open, '}') ==> o.calls.len() == 3
                && o.calls[2] == (ItemView { tool_index: 0, name: None, parameters: seq!['}'] })
            &&& occurrences(open, '{') <= occurrences(open, '}') ==> o.calls.len() == 2
        }),
{
    let body = written_call(name, key, value);
    let text = before + "<tool_call>"@ + (body + "</tool_call>"@);
    let none = Seq::<char>::empty();
    assert(none + text =~= text);
    let s0 = StreamView { buffer: none + text, ..fresh() };
    lemma_streamed_block(s0, before, body);
    let s1 = seek_step(s0).state;
    let inner = "<parameter="@ + key + ">"@ + (value + "</parameter>"@ + "</function>"@);
    assert(s1.buffer =~= "<function="@ + name + ">"@ + (inner + "</tool_call>"@));
    assert(tools[t].name == name);
    lemma_streamed_name(s1, name, inner + "</tool_call>"@, tools, numbers);
    let s2 = name_step(s1, tools).state;
    lemma_streamed_params(s2, key, value, tools, numbers);
    let o1 = name_step(s1, tools);
    let r0 = run(s0, tools, numbers);
    let r2 = run(s2, tools, numbers);
    assert(r0.normal =~= before);
    assert(r0.calls =~= o1.calls + r2.calls);
}

proof fn lemma_run_on(
    s: StreamView,
    tools: Seq<ToolView>,
    numbers: spec_fn(Seq<char>) -> Option<Seq<char>>,
)
    ensures
        ({
            let o = step(s, tools, numbers);
            let rest = run(o.state, tools, numbers);
            &&& o.again && o.state.buffer.len() < s.buffer.len() ==> run(s, tools, numbers) == (
            Outcome {
                state: rest.state,
                normal: o.normal + rest.normal,
                calls: o.calls + rest.calls,
                again: false,
            })
            &&& !o.again ==> run(s, tools, numbers) == o
        }),
{
}

proof fn lemma_streamed_block(s: StreamView, before: Seq<char>, body: Seq<char>)
    requires
        unmarked(before),
        !s.in_call,
        s.buffer == before + "<tool_call>"@ + (body + "</tool_call>"@),
    ensures
        seek_step(s).normal == before,
        seek_step(s).calls.len() == 0,
        seek_step(s).again,
        seek_step(s).state == (StreamView {
            buffer: body + "</tool_call>"@,
            in_call: true,
            name_sent: false,
            function: Seq::empty(),
            params: Seq::empty(),
            ..s
        }),
        forall|tools: Seq<ToolView>, numbers: spec_fn(Seq<char>) -> Option<Seq<char>>|
            #![trigger run(s, tools, numbers)]
            {
                let r = run(s, tools, numbers);
                let rest = run(seek_step(s).state, tools, numbers);
                &&& r.state == rest.state
                &&& r.normal == before + rest.normal
                &&& r.calls == rest.calls
            },
{
    reveal_strlit("<tool_call>");
    assert forall|i: int| 0 <= i < before.len() implies !#[trigger] stands_at(
        s.buffer,
        "<tool_call>"@,
        i,
    ) by {
        let k = "<tool_call>"@;
        if stands_at(s.buffer, k, i) {
            assert(k[0] == s.buffer[i + 0]);
            assert(s.buffer[i] == before[i]);
        }
    }
    law_block_begins(s, before, body + "</tool_call>"@);
    assert forall|tools: Seq<ToolView>, numbers: spec_fn(Seq<char>) -> Option<Seq<char>>|
        #![trigger run(s, tools, numbers)]
        {
            let r = run(s, tools, numbers);
            let rest = run(seek_step(s).state, tools, numbers);
            &&& r.state == rest.state
            &&& r.normal == before + rest.normal
            &&& r.calls == rest.calls
        } by {
        lemma_run_on(s, tools, numbers);
        let rest = run(seek_step(s).state, tools, numbers);
        assert(seek_step(s).calls + rest.calls =~= rest.calls);
    }
}

proof fn lemma_streamed_name(
    s: StreamView,
    name: Seq<char>,
    rest: Seq<char>,
    tools: Seq<ToolView>,
    numbers: spec_fn(Seq<char>) -> Option<Seq<char>>,
)
    requires
        plain_name(name),
        s.in_call,
        !s.name_sent,
        s.buffer == "<function="@ + name + ">"@ + rest,
        exists|t: int| 0 <= t < tools.len() && (#[trigger] tools[t]).name == name,
    ensures
        ({
            let o = name_step(s, tools);
            let r = run(s, tools, numbers);
            let further = run(o.state, tools, numbers);
            &&& o.calls == seq![
                ItemView { tool_index: s.tool, name: Some(name), parameters: Seq::empty() },
            ]
            &&& o.state == (StreamView {
                buffer: rest,
                name_sent: true,
                function: name,
                begun: s.begun.push(BegunView { name, arguments: Seq::empty() }),
                streamed: s.streamed.push(Seq::empty()),
                ..s
            })
            &&& r.state == further.state
            &&& r.normal == further.normal
            &&& r.calls == o.calls + further.calls
        }),
{
    reveal_strlit("<function=");
    let none = Seq::<char>::empty();
    assert(s.buffer =~= none + "<function="@ + name + ">"@ + rest);
    law_function_is_declared(none, name, rest);
    law_call_begins_with_its_name(s, tools);
    lemma_run_on(s, tools, numbers);
    let o = name_step(s, tools);
    let further = run(o.state, tools, numbers);
    assert(o.normal + further.normal =~= further.normal);
}

#[verifier::rlimit(40)]
proof fn lemma_inner_is_closed_once(key: Seq<char>, value: Seq<char>, i: int)
    requires
        plain_name(key),
        unmarked(value),
        0 <= i < ("<parameter="@ + key + ">"@ + (value + "</parameter>"@ + "</function>"@)).len(),
    ensures
        !stands_at(
            "<parameter="@ + key + ">"@ + (value + "</parameter>"@ + "</function>"@)
                + "</tool_call>"@,
            "</tool_call>"@,
            i,
        ),
{
    reveal_strlit("</tool_call>");
    reveal_strlit("<parameter=");
    reveal_strlit("</parameter>");
    reveal_strlit("</function>");
    reveal_strlit(">");
    let rest = "<parameter="@ + key + ">"@ + (value + "</parameter>"@ + "</function>"@)
        + "</tool_call>"@;
    let k = "</tool_call>"@;
    if stands_at(rest, k, i) {
        assert(k[0] == rest[i + 0]);
        assert(k[1] == rest[i + 1]);
        assert(k[2] == rest[i + 2]);
        let v = 11 + key.len() + 1;
        let c = v + value.len();
        if 11 <= i < 11 + key.len() {
            assert(rest[i] == key[i - 11]);
        } else if v <= i < c {
            assert(rest[i] == value[i - v]);
        }
    }
}

/// What one parameter brings where its block is closed behind it.
spec fn brings_one(
    s: StreamView,
    o: Outcome,
    key: Seq<char>,
    value: Seq<char>,
    tools: Seq<ToolView>,
    numbers: spec_fn(Seq<char>) -> Option<Seq<char>>,
) -> bool {
    let open = seq!['{'] + (quoted(key) + seq![':', ' '] + value_read(
        value,
        declared_type(tools, s.function, key),
        numbers,
    ));
    &&& o.normal.len() == 0
    &&& o.state.tool == s.tool + 1
    &&& !o.state.in_call
    &&& o.state.buffer.len() == 0
    &&& o.calls.len() >= 1
    &&& o.calls[0] == (ItemView { tool_index: s.tool, name: None, parameters: open })
    &&& occurrences(open, '{') > occurrences(open, '}') ==> o.calls.len() == 2 && o.calls[1] == (
    ItemView { tool_index: s.tool, name: None, parameters: seq!['}'] })
    &&& occurrences(open, '{') <= occurrences(open, '}') ==> o.calls.len() == 1
}

#[verifier::rlimit(40)]
proof fn lemma_one_param_step(
    s: StreamView,
    a: Seq<char>,
    key: Seq<char>,
    value: Seq<char>,
    tools: Seq<ToolView>,
    numbers: spec_fn(Seq<char>) -> Option<Seq<char>>,
)
    requires
        s.buffer == a + "</tool_call>"@ + Seq::<char>::empty(),
        forall|i: int| 0 <= i < a.len() ==> !#[trigger] stands_at(s.buffer, "</tool_call>"@, i),
        params_read(params_in(s.buffer), tools, s.function, numbers).len() == 1,
        members(
            params_read(params_in(s.buffer), tools, s.function, numbers),
            seq![':', ' '],
            seq![',', ' '],
        ) == quoted(key) + seq![':', ' '] + value_read(
            value,
            declared_type(tools, s.function, key),
            numbers,
        ),
        s.params.len() == 0,
        s.streamed.len() == s.tool + 1,
        s.streamed[s.tool as int].len() == 0,
        s.begun.len() == s.tool + 1,
    ensures
        brings_one(s, params_step(s, tools, numbers), key, value, tools, numbers),
        params_step(s, tools, numbers).again,
{
    let none = Seq::<char>::empty();
    law_call_ends_with_its_block(s, a, none, tools, numbers);
    let o = params_step(s, tools, numbers);
    let params = params_read(params_in(s.buffer), tools, s.function, numbers);
    let open = seq!['{'] + members(params, seq![':', ' '], seq![',', ' ']);
    let end = closing(open);
    assert((occurrences(open, '{') > occurrences(open, '}') ==> end == seq!['}']) && (occurrences(
        open,
        '{',
    ) <= occurrences(open, '}') ==> end.len() == 0)) by {
        law_arguments_are_closed(open);
    }
    lemma_brings_one(s, o, key, value, open, end, tools, numbers);
}

proof fn lemma_brings_one(
    s: StreamView,
    o: Outcome,
    key: Seq<char>,
    value: Seq<char>,
    open: Seq<char>,
    end: Seq<char>,
    tools: Seq<ToolView>,
    numbers: spec_fn(Seq<char>) -> Option<Seq<char>>,
)
    requires
        open == seq!['{'] + (quoted(key) + seq![':', ' '] + value_read(
            value,
            declared_type(tools, s.function, key),
            numbers,
        )),
        occurrences(open, '{') > occurrences(open, '}') ==> end == seq!['}'],
        occurrences(open, '{') <= occurrences(open, '}') ==> end.len() == 0,
        o.normal.len() == 0,
        o.state.tool == s.tool + 1,
        !o.state.in_call,
        o.state.buffer.len() == 0,
        o.calls.len() >= 1,
        o.calls[0] == (ItemView { tool_index: s.tool, name: None, parameters: open }),
        end.len() == 0 ==> o.calls.len() == 1,
        end.len() > 0 ==> o.calls.len() == 2 && o.calls[1] == (ItemView {
            tool_index: s.tool,
            name: None,
            parameters: end,
        }),
    ensures
        brings_one(s, o, key, value, tools, numbers),
{
}

#[verifier::rlimit(40)]
proof fn lemma_streamed_params(
    s: StreamView,
    key: Seq<char>,
    value: Seq<char>,
    tools: Seq<ToolView>,
    numbers: spec_fn(Seq<char>) -> Option<Seq<char>>,
)
    requires
        plain_name(key),
        unmarked(value),
        s.in_call,
        s.name_sent,
        s.params.len() == 0,
        s.streamed.len() == s.tool + 1,
        s.streamed[s.tool as int].len() == 0,
        s.begun.len() == s.tool + 1,
        s.buffer == "<parameter="@ + key + ">"@ + (value + "</parameter>"@ + "</function>"@)
            + "</tool_call>"@,
    ensures
        brings_one(s, run(s, tools, numbers), key, value, tools, numbers),
{
    let inner = "<parameter="@ + key + ">"@ + (value + "</parameter>"@ + "</function>"@);
    lemma_inner(key, value);
    assert forall|i: int| 0 <= i < inner.len() implies !#[trigger] stands_at(
        s.buffer,
        "</tool_call>"@,
        i,
    ) by {
        lemma_inner_is_closed_once(key, value, i);
    }
    assert(inner + "</tool_call>"@ + Seq::<char>::empty() =~= inner + "</tool_call>"@);
    lemma_one_param(key, value, s.function, tools, numbers);
    lemma_one_param_step(s, inner, key, value, tools, numbers);
    assert(s.buffer.len() > 0) by {
        reveal_strlit("</tool_call>");
    }
    assert(step(s, tools, numbers) == params_step(s, tools, numbers));
    lemma_last_step(s, tools, numbers);
}

proof fn lemma_last_step(
    s: StreamView,
    tools: Seq<ToolView>,
    numbers: spec_fn(Seq<char>) -> Option<Seq<char>>,
)
    requires
        s.buffer.len() > 0,
        step(s, tools, numbers).again,
        step(s, tools, numbers).state.buffer.len() == 0,
        !step(s, tools, numbers).state.in_call,
    ensures
        ({
            let o = step(s, tools, numbers);
            let r = run(s, tools, numbers);
            &&& r.normal == o.normal
            &&& r.calls == o.calls
            &&& r.state.tool == o.state.tool
            &&& !r.state.in_call
            &&& r.state.buffer.len() == 0
        }),
{
    let o = step(s, tools, numbers);
    lemma_run_on(s, tools, numbers);
    lemma_nothing_left(o.state, tools, numbers);
    let rest = run(o.state, tools, numbers);
    assert(o.calls + rest.calls =~= o.calls);
    assert(o.normal + rest.normal =~= o.normal);
}

proof fn lemma_one_param(
    key: Seq<char>,
    value: Seq<char>,
    function: Seq<char>,
    tools: Seq<ToolView>,
    numbers: spec_fn(Seq<char>) -> Option<Seq<char>>,
)
    ensures
        ({
            let params = params_read(seq![RawParamView { key, value }], tools, function, numbers);
            &&& params.len() == 1
            &&& members(params, seq![':', ' '], seq![',', ' ']) == quoted(key) + seq![':', ' ']
                + value_read(value, declared_type(tools, function, key), numbers)
        }),
{
    let raw = seq![RawParamView { key, value }];
    reveal_with_fuel(params_read, 2);
    assert(raw.drop_last() =~= Seq::<RawParamView>::empty());
    let p = ParamView { key, json: value_read(value, declared_type(tools, function, key), numbers) };
    let params = params_read(raw, tools, function, numbers);
    assert(params =~= seq![p]);
    law_object_is_its_members(params, params, p, seq![':', ' '], seq![',', ' ']);
}

proof fn lemma_nothing_left(
    s: StreamView,
    tools: Seq<ToolView>,
    numbers: spec_fn(Seq<char>) -> Option<Seq<char>>,
)
    requires
        !s.in_call,
        s.buffer.len() == 0,
    ensures
        ({
            let r = run(s, tools, numbers);
            &&& r.normal.len() == 0
            &&& r.calls.len() == 0
            &&& r.state.buffer.len() == 0
            &&& !r.state.in_call
            &&& r.state.tool == s.tool
        }),
{
    reveal_strlit("<tool_call>");
    assert forall|i: int| !#[trigger] stands_at(s.buffer, "<tool_call>"@, i) by {}
    law_text_outside_calls(s);
    lemma_run_on(s, tools, numbers);
}

proof fn lemma_inner(key: Seq<char>, value: Seq<char>)
    requires
        plain_name(key),
        unmarked(value),
    ensures
        params_in(
            "<parameter="@ + key + ">"@ + (value + "</parameter>"@ + "</function>"@)
                + "</tool_call>"@,
        ) == seq![RawParamView { key, value }],
{
    reveal_strlit("<parameter=");
    reveal_strlit("</parameter>");
    reveal_strlit("</function>");
    reveal_strlit("</tool_call>");
    let none = Seq::<char>::empty();
    let last = "</function>"@ + "</tool_call>"@;
    let tail = value + "</parameter>"@ + last;
    assert("<parameter="@ + key + ">"@ + (value + "</parameter>"@ + "</function>"@)
        + "</tool_call>"@ =~= none + "<parameter="@ + key + ">"@ + tail);
    assert forall|i: int| 0 <= i < value.len() implies !#[trigger] stands_at(
        tail,
        "</parameter>"@,
        i,
    ) by {
        let t = "</parameter>"@;
        if stands_at(tail, t, i) {
            assert(t[0] == tail[i + 0]);
            assert(tail[i] == value[i]);
        }
    }
    law_parameter_stands_between_its_tags(none, key, value, last);
    law_no_parameter_without_tags(last);
    assert forall|i: int| !#[trigger] stands_at(last, "</parameter>"@, i) by {
        let t = "</parameter>"@;
        if stands_at(last, t, i) {
            assert(t[0] == last[i + 0]);
            assert(t[2] == last[i + 2]);
        }
    }
    assert(params_in(last) =~= Seq::empty());
    assert(seq![RawParamView { key, value }] + params_in(last) =~= seq![
        RawParamView { key, value },
    ]);
}

/// What is still to be sent of the last call that was begun is what its arguments have
/// beyond what was sent, where they begin with it, and else nothing.
pub proof fn law_rest_of_the_arguments(s: StreamView, rest: Seq<char>)
    requires
        s.begun.len() > 0,
        s.streamed.len() == s.begun.len(),
    ensures
        ({
            let n = s.begun.len() - 1;
            let whole = object(s.begun[n].arguments);
            &&& whole == s.streamed[n] + rest && rest.len() > 0 ==> unstreamed(s) == seq![
                ItemView { tool_index: n as nat, name: None, parameters: rest },
            ]
            &&& whole == s.streamed[n] ==> unstreamed(s).len() == 0
            &&& !stands_at(whole, s.streamed[n], 0) ==> unstreamed(s).len() == 0
        }),
{
    let n = s.begun.len() - 1;
    let whole = object(s.begun[n].arguments);
    let sent = s.streamed[n];
    law_occurrence_is_every_character(whole, sent, 0);
    if whole == sent + rest {
        assert forall|j: int| 0 <= j < sent.len() implies #[trigger] sent[j] == whole[0 + j] by {}
        assert(whole.skip(sent.len() as int) =~= rest);
    }
    if whole == sent {
        assert forall|j: int| 0 <= j < sent.len() implies #[trigger] sent[j] == whole[0 + j] by {}
        assert(whole.skip(sent.len() as int) =~= Seq::empty());
    }
}

} // verus!
