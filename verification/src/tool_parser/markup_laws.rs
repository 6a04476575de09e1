//! What the tags of written calls mean, character by character.
use super::markup::{
    after_function, blocks_from, blocks_in, function_name, lemma_next_tag, name_end, next_char,
    next_tag, params_from, params_in, RawParamView,
};
use crate::text::{find_spec, trim_spec};
use crate::text_laws::{law_first_place_is_found, law_occurrence_is_every_character, stands_at};
use vstd::prelude::*;

verus! {

/// A tag that opens with `open` at `at`: a name of at least one character follows, up
/// to the first `>`, which stands at `end`.
pub open spec fn is_tag(text: Seq<char>, open: Seq<char>, at: int, end: int) -> bool {
    &&& stands_at(text, open, at)
    &&& at + open.len() < end < text.len()
    &&& text[end] == '>'
    &&& forall|i: int| at + open.len() <= i < end ==> #[trigger] text[i] != '>'
}

/// A character is found at the first place where it stands.
pub proof fn law_first_character_is_found(text: Seq<char>, c: char, from: int)
    requires
        0 <= from,
    ensures
        match next_char(text, c, from) {
            Some(at) => from <= at < text.len() && text[at] == c && forall|i: int|
                from <= i < at ==> #[trigger] text[i] != c,
            None => forall|i: int| from <= i < text.len() ==> #[trigger] text[i] != c,
        },
    decreases text.len() - from,
{
    if from < text.len() && text[from] != c {
        law_first_character_is_found(text, c, from + 1);
    }
}

proof fn lemma_name_end(text: Seq<char>, open: Seq<char>, at: int)
    requires
        0 <= at,
    ensures
        match name_end(text, open, at) {
            Some(end) => is_tag(text, open, at, end),
            None => forall|end: int| !#[trigger] is_tag(text, open, at, end),
        },
{
    law_occurrence_is_every_character(text, open, at);
    law_first_character_is_found(text, '>', at + open.len());
    if let Some(end) = next_char(text, '>', at + open.len()) {
        assert forall|e: int| #[trigger] is_tag(text, open, at, e) implies e == end by {
            if e < end {
                assert(text[e] != '>');
            } else if e > end {
                assert(text[end] != '>');
            }
        }
    }
}

/// A tag is found at the first place where one stands.
pub proof fn law_first_tag_is_found(text: Seq<char>, open: Seq<char>, from: int)
    requires
        0 <= from,
    ensures
        match next_tag(text, open, from) {
            Some((at, end)) => from <= at && is_tag(text, open, at, end) && forall|i: int, e: int|
                from <= i < at ==> !#[trigger] is_tag(text, open, i, e),
            None => forall|i: int, e: int| from <= i ==> !#[trigger] is_tag(text, open, i, e),
        },
    decreases text.len() - from,
{
    if from < text.len() {
        lemma_name_end(text, open, from);
        if name_end(text, open, from) is None {
            law_first_tag_is_found(text, open, from + 1);
        }
    }
}

proof fn lemma_one_tag(text: Seq<char>, open: Seq<char>, from: int, at: int, end: int)
    requires
        0 <= from <= at,
        is_tag(text, open, at, end),
        forall|i: int| from <= i < at ==> !#[trigger] stands_at(text, open, i),
    ensures
        next_tag(text, open, from) == Some((at, end)),
{
    law_first_tag_is_found(text, open, from);
    let found = next_tag(text, open, from);
    assert(found is Some) by {
        if found is None {
            assert(!is_tag(text, open, at, end));
        }
    }
    let (i, e) = found->0;
    if i < at {
        assert(!stands_at(text, open, i));
    }
    if i > at {
        assert(!is_tag(text, open, at, end));
    }
    if e < end {
        assert(text[e] != '>');
    }
    if e > end {
        assert(text[end] != '>');
    }
}

// ---- Functions ----

/// A function is declared by the first complete tag: its name is what stands in the
/// tag, without the white space around it, and the rest follows the tag.
pub proof fn law_function_is_declared(
    a: Seq<char>,
    name: Seq<char>,
    b: Seq<char>,
)
    requires
        name.len() > 0,
        forall|i: int| 0 <= i < name.len() ==> #[trigger] name[i] != '>',
        forall|i: int|
            0 <= i < a.len() ==> !#[trigger] stands_at(
                a + "<function="@ + name + ">"@ + b,
                "<function="@,
                i,
            ),
    ensures
        function_name(a + "<function="@ + name + ">"@ + b) == Some(trim_spec(name)),
        after_function(a + "<function="@ + name + ">"@ + b) == b,
{
    let open = "<function="@;
    let text = a + open + name + ">"@ + b;
    reveal_strlit("<function=");
    reveal_strlit(">");
    let at = a.len() as int;
    let end = at + open.len() + name.len();
    assert(stands_at(text, open, at)) by {
        assert forall|j: int| 0 <= j < open.len() implies #[trigger] open[j] == text[at + j] by {}
    }
    assert(is_tag(text, open, at, end)) by {
        assert forall|i: int| at + open.len() <= i < end implies #[trigger] text[i] != '>' by {
            assert(text[i] == name[i - at - open.len()]);
        }
    }
    lemma_one_tag(text, open, 0, at, end);
    assert(text.subrange(at + open.len(), end) =~= name);
    assert(text.skip(end + 1) =~= b);
}

/// Without a complete tag no function is declared.
pub proof fn law_no_function_without_a_tag(text: Seq<char>)
    requires
        forall|i: int, e: int| 0 <= i ==> !#[trigger] is_tag(text, "<function="@, i, e),
    ensures
        function_name(text) is None,
        after_function(text) == text,
{
    law_first_tag_is_found(text, "<function="@, 0);
    if let Some((at, end)) = next_tag(text, "<function="@, 0) {
        assert(!is_tag(text, "<function="@, at, end));
    }
}

// ---- Parameters ----

proof fn lemma_stands_shift(a: Seq<char>, b: Seq<char>, token: Seq<char>, i: int)
    requires
        0 <= i,
    ensures
        stands_at(a + b, token, a.len() + i) <==> stands_at(b, token, i),
{
    let text = a + b;
    let n = a.len() as int;
    if stands_at(b, token, i) {
        assert forall|j: int| 0 <= j < token.len() implies #[trigger] token[j] == text[n + i + j] by {
            assert(token[j] == b[i + j]);
        }
    }
    if stands_at(text, token, n + i) {
        assert forall|j: int| 0 <= j < token.len() implies #[trigger] token[j] == b[i + j] by {
            assert(token[j] == text[n + i + j]);
        }
    }
}

proof fn lemma_find_shift(a: Seq<char>, b: Seq<char>, token: Seq<char>, from: int)
    requires
        0 <= from,
    ensures
        match find_spec(b, token, from) {
            Some(at) => find_spec(a + b, token, a.len() + from) == Some(a.len() + at),
            None => find_spec(a + b, token, a.len() + from) is None,
        },
{
    let text = a + b;
    let n = a.len() as int;
    law_first_place_is_found(b, token, from);
    law_first_place_is_found(text, token, n + from);
    if let Some(at) = find_spec(b, token, from) {
        lemma_stands_shift(a, b, token, at);
    }
    if let Some(at) = find_spec(text, token, n + from) {
        lemma_stands_shift(a, b, token, at - n);
    }
}

proof fn lemma_tag_shift(a: Seq<char>, b: Seq<char>, open: Seq<char>, from: int)
    requires
        0 <= from,
    ensures
        match next_tag(b, open, from) {
            Some((at, end)) => next_tag(a + b, open, a.len() + from) == Some(
                (a.len() + at, a.len() + end),
            ),
            None => next_tag(a + b, open, a.len() + from) is None,
        },
{
    let text = a + b;
    let n = a.len() as int;
    law_first_tag_is_found(b, open, from);
    law_first_tag_is_found(text, open, n + from);
    if let Some((at, end)) = next_tag(b, open, from) {
        lemma_is_tag_shift(a, b, open, at, end);
        assert(is_tag(text, open, n + at, n + end));
    }
    if let Some((at, end)) = next_tag(text, open, n + from) {
        lemma_is_tag_shift(a, b, open, at - n, end - n);
        assert(is_tag(b, open, at - n, end - n));
        let (x, y) = next_tag(b, open, from)->0;
        assert(x == at - n);
        if y < end - n {
            assert(b[y] != '>');
        }
        if y > end - n {
            assert(b[end - n] != '>');
        }
    }
}

proof fn lemma_is_tag_shift(a: Seq<char>, b: Seq<char>, open: Seq<char>, at: int, end: int)
    requires
        0 <= at,
    ensures
        is_tag(a + b, open, a.len() + at, a.len() + end) <==> is_tag(b, open, at, end),
{
    let text = a + b;
    let n = a.len() as int;
    lemma_stands_shift(a, b, open, at);
    if is_tag(b, open, at, end) {
        assert(text[n + end] == b[end]);
        assert forall|i: int| n + at + open.len() <= i < n + end implies #[trigger] text[i]
            != '>' by {
            assert(text[i] == b[i - n]);
        }
    }
    if is_tag(text, open, n + at, n + end) {
        assert(text[n + end] == b[end]);
        assert forall|i: int| at + open.len() <= i < end implies #[trigger] b[i] != '>' by {
            assert(text[n + i] == b[i]);
        }
    }
}

proof fn lemma_params_shift(a: Seq<char>, b: Seq<char>, from: int)
    requires
        0 <= from,
    ensures
        params_from(a + b, a.len() + from) == params_from(b, from),
    decreases b.len() - from,
{
    let text = a + b;
    let n = a.len() as int;
    reveal_strlit("</parameter>");
    reveal_strlit("<parameter=");
    lemma_tag_shift(a, b, "<parameter="@, from);
    lemma_next_tag(b, "<parameter="@, from);
    if let Some((at, end)) = next_tag(b, "<parameter="@, from) {
        lemma_find_shift(a, b, "</parameter>"@, end + 1);
        law_first_place_is_found(b, "</parameter>"@, end + 1);
        if let Some(close) = find_spec(b, "</parameter>"@, end + 1) {
            lemma_params_shift(a, b, close + 12);
            assert(text.subrange(n + at + 11, n + end) =~= b.subrange(at + 11, end));
            assert(text.subrange(n + end + 1, n + close) =~= b.subrange(end + 1, close));
        }
    }
}

/// A parameter is what stands between its tags: the key in the tag that opens it,
/// without the white space around it, and the value between that tag and the next one
/// that closes a parameter, with all its white space. More may follow.
pub proof fn law_parameter_stands_between_its_tags(
    a: Seq<char>,
    key: Seq<char>,
    value: Seq<char>,
    b: Seq<char>,
)
    requires
        key.len() > 0,
        forall|i: int| 0 <= i < key.len() ==> #[trigger] key[i] != '>',
        forall|i: int|
            0 <= i < a.len() ==> !#[trigger] stands_at(
                a + "<parameter="@ + key + ">"@ + (value + "</parameter>"@ + b),
                "<parameter="@,
                i,
            ),
        forall|i: int|
            0 <= i < value.len() ==> !#[trigger] stands_at(
                value + "</parameter>"@ + b,
                "</parameter>"@,
                i,
            ),
    ensures
        params_in(a + "<parameter="@ + key + ">"@ + (value + "</parameter>"@ + b)) == seq![
            RawParamView { key: trim_spec(key), value },
        ] + params_in(b),
{
    let open = "<parameter="@;
    let close_tag = "</parameter>"@;
    reveal_strlit("<parameter=");
    reveal_strlit("</parameter>");
    reveal_strlit(">");
    let head = a + open + key + ">"@;
    let tail = value + close_tag + b;
    let text = head + tail;
    let at = a.len() as int;
    let end = at + open.len() + key.len();
    assert(stands_at(text, open, at)) by {
        assert forall|j: int| 0 <= j < open.len() implies #[trigger] open[j] == text[at + j] by {}
    }
    assert(is_tag(text, open, at, end)) by {
        assert forall|i: int| at + open.len() <= i < end implies #[trigger] text[i] != '>' by {
            assert(text[i] == key[i - at - open.len()]);
        }
    }
    lemma_one_tag(text, open, 0, at, end);
    assert(head.len() == end + 1);
    lemma_find_shift(head, tail, close_tag, 0);
    law_first_place_is_found(tail, close_tag, 0);
    assert(stands_at(tail, close_tag, value.len() as int)) by {
        assert forall|j: int| 0 <= j < close_tag.len() implies #[trigger] close_tag[j]
            == tail[value.len() + j] by {}
    }
    let close = head.len() + value.len() as int;
    assert(find_spec(text, close_tag, end + 1) == Some(close));
    assert(text.subrange(at + open.len(), end) =~= key);
    assert(text.subrange(end + 1, close) =~= value);
    let before = head + value + close_tag;
    assert(text =~= before + b);
    lemma_params_shift(before, b, 0);
}

/// Without a complete tag that opens one there is no parameter, and neither is there
/// one that is not closed.
pub proof fn law_no_parameter_without_tags(text: Seq<char>)
    ensures
        (forall|i: int, e: int| 0 <= i ==> !#[trigger] is_tag(text, "<parameter="@, i, e))
            ==> params_in(text).len() == 0,
        (forall|i: int| !#[trigger] stands_at(text, "</parameter>"@, i)) ==> params_in(text).len()
            == 0,
{
    law_first_tag_is_found(text, "<parameter="@, 0);
    if let Some((at, end)) = next_tag(text, "<parameter="@, 0) {
        law_first_place_is_found(text, "</parameter>"@, end + 1);
        if forall|i: int, e: int| 0 <= i ==> !#[trigger] is_tag(text, "<parameter="@, i, e) {
            assert(!is_tag(text, "<parameter="@, at, end));
        }
    }
}

// ---- Blocks ----

proof fn lemma_blocks_shift(a: Seq<char>, b: Seq<char>, from: int)
    requires
        0 <= from,
    ensures
        blocks_from(a + b, a.len() + from) == blocks_from(b, from),
    decreases b.len() - from,
{
    let text = a + b;
    let n = a.len() as int;
    reveal_strlit("<tool_call>");
    reveal_strlit("</tool_call>");
    lemma_find_shift(a, b, "<tool_call>"@, from);
    law_first_place_is_found(b, "<tool_call>"@, from);
    if let Some(at) = find_spec(b, "<tool_call>"@, from) {
        lemma_find_shift(a, b, "</tool_call>"@, at + 11);
        law_first_place_is_found(b, "</tool_call>"@, at + 11);
        if let Some(close) = find_spec(b, "</tool_call>"@, at + 11) {
            lemma_blocks_shift(a, b, close + 12);
            assert(text.subrange(n + at + 11, n + close) =~= b.subrange(at + 11, close));
        }
    }
}

/// A block is what stands between its tags, without the white space around it. More
/// may follow.
pub proof fn law_block_stands_between_its_tags(a: Seq<char>, body: Seq<char>, b: Seq<char>)
    requires
        forall|i: int|
            0 <= i < a.len() ==> !#[trigger] stands_at(
                a + "<tool_call>"@ + (body + "</tool_call>"@ + b),
                "<tool_call>"@,
                i,
            ),
        forall|i: int|
            0 <= i < body.len() ==> !#[trigger] stands_at(
                body + "</tool_call>"@ + b,
                "</tool_call>"@,
                i,
            ),
    ensures
        blocks_in(a + "<tool_call>"@ + (body + "</tool_call>"@ + b)) == seq![trim_spec(body)]
            + blocks_in(b),
        find_spec(a + "<tool_call>"@ + (body + "</tool_call>"@ + b), "<tool_call>"@, 0) == Some(
            a.len() as int,
        ),
{
    let open = "<tool_call>"@;
    let close_tag = "</tool_call>"@;
    reveal_strlit("<tool_call>");
    reveal_strlit("</tool_call>");
    let head = a + open;
    let tail = body + close_tag + b;
    let text = head + tail;
    let at = a.len() as int;
    assert(stands_at(text, open, at)) by {
        assert forall|j: int| 0 <= j < open.len() implies #[trigger] open[j] == text[at + j] by {}
    }
    law_first_place_is_found(text, open, 0);
    assert(find_spec(text, open, 0) == Some(at));
    lemma_find_shift(head, tail, close_tag, 0);
    law_first_place_is_found(tail, close_tag, 0);
    assert(stands_at(tail, close_tag, body.len() as int)) by {
        assert forall|j: int| 0 <= j < close_tag.len() implies #[trigger] close_tag[j]
            == tail[body.len() + j] by {}
    }
    let close = head.len() + body.len() as int;
    assert(find_spec(text, close_tag, at + 11) == Some(close));
    assert(text.subrange(at + 11, close) =~= body);
    let before = head + body + close_tag;
    assert(text =~= before + b);
    lemma_blocks_shift(before, b, 0);
}

/// Without both tags there is no block.
pub proof fn law_no_block_without_tags(text: Seq<char>)
    ensures
        (forall|i: int| !#[trigger] stands_at(text, "<tool_call>"@, i)) ==> blocks_in(text).len()
            == 0,
        (forall|i: int| !#[trigger] stands_at(text, "</tool_call>"@, i)) ==> blocks_in(text).len()
            == 0,
{
    reveal_strlit("<tool_call>");
    law_first_place_is_found(text, "<tool_call>"@, 0);
    if let Some(at) = find_spec(text, "<tool_call>"@, 0) {
        law_first_place_is_found(text, "</tool_call>"@, at + 11);
    }
}

} // verus!
