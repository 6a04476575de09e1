//! The tags in which calls are written.
//!
//! A call stands in a block from `<tool_call>` to the first `</tool_call>` after
//! it. A function is declared as `<function=name>` and a parameter is given as
//! `<parameter=key>value</parameter>`. A name or key is not empty and ends at the
//! first `>`. A value ends at the first closing tag.
use crate::text::{
    chars_of, contains_text, find_spec, find_token, first_occurrence, lemma_find_spec, occurs_at,
    string_of, token_at, trim_bounds, trim_spec,
};
use vstd::prelude::*;

verus! {

/// Where a character next stands at or after a position.
pub open spec fn next_char(text: Seq<char>, c: char, from: int) -> Option<int>
    decreases text.len() - from,
{
    if from < 0 || from >= text.len() {
        None
    } else if text[from] == c {
        Some(from)
    } else {
        next_char(text, c, from + 1)
    }
}

/// Where the name ends in a tag that opens at `at`, if one does.
pub open spec fn name_end(text: Seq<char>, open: Seq<char>, at: int) -> Option<int> {
    if occurs_at(text, open, at) {
        match next_char(text, '>', at + open.len()) {
            Some(end) => if end > at + open.len() {
                Some(end)
            } else {
                None
            },
            None => None,
        }
    } else {
        None
    }
}

/// The next tag at or after a position: where it opens, and where its name ends.
pub open spec fn next_tag(text: Seq<char>, open: Seq<char>, from: int) -> Option<(int, int)>
    decreases text.len() - from,
{
    if from < 0 || from >= text.len() {
        None
    } else {
        match name_end(text, open, from) {
            Some(end) => Some((from, end)),
            None => next_tag(text, open, from + 1),
        }
    }
}

/// What was found stands where it was found.
pub proof fn lemma_next_char(text: Seq<char>, c: char, from: int)
    ensures
        match next_char(text, c, from) {
            Some(at) => from <= at < text.len() && text[at] == c,
            None => true,
        },
    decreases text.len() - from,
{
    if 0 <= from < text.len() && text[from] != c {
        lemma_next_char(text, c, from + 1);
    }
}

/// A tag lies inside the text, and its name is not empty.
pub proof fn lemma_next_tag(text: Seq<char>, open: Seq<char>, from: int)
    ensures
        match next_tag(text, open, from) {
            Some((at, end)) => from <= at && 0 <= at && at + open.len() < end < text.len()
                && name_end(text, open, at) == Some(end),
            None => true,
        },
    decreases text.len() - from,
{
    if 0 <= from < text.len() {
        match name_end(text, open, from) {
            Some(end) => {
                lemma_next_char(text, '>', from + open.len());
            },
            None => {
                lemma_next_tag(text, open, from + 1);
            },
        }
    }
}

/// Where a character next stands at or after a position.
pub fn find_char(text: &Vec<char>, c: char, from: usize) -> (r: Option<usize>)
    ensures
        match r {
            Some(at) => next_char(text@, c, from as int) == Some(at as int),
            None => next_char(text@, c, from as int) is None,
        },
{
    let n = text.len();
    let mut i: usize = from;
    while i < n
        invariant
            n == text@.len(),
            from <= i,
            next_char(text@, c, from as int) == next_char(text@, c, i as int),
        decreases n - i,
    {
        if text[i] == c {
            return Some(i);
        }
        i = i + 1;
    }
    None
}

/// The next tag at or after a position: where it opens, and where its name ends.
pub fn find_tag(text: &Vec<char>, open: &Vec<char>, from: usize) -> (r: Option<(usize, usize)>)
    ensures
        match r {
            Some((at, end)) => next_tag(text@, open@, from as int) == Some((at as int, end as int))
                && from <= at && at + open@.len() < end < text@.len(),
            None => next_tag(text@, open@, from as int) is None,
        },
{
    let n = text.len();
    let mut i: usize = from;
    while i < n
        invariant
            n == text@.len(),
            from <= i,
            next_tag(text@, open@, from as int) == next_tag(text@, open@, i as int),
        decreases n - i,
    {
        proof {
            lemma_next_tag(text@, open@, i as int);
        }
        if token_at(text, open, i) {
            let start: usize = i + open.len();
            if let Some(end) = find_char(text, '>', start) {
                if end > start {
                    return Some((i, end));
                }
            }
        }
        i = i + 1;
    }
    None
}

/// The name in the first declaration of a function.
pub open spec fn function_name(text: Seq<char>) -> Option<Seq<char>> {
    match next_tag(text, "<function="@, 0) {
        Some((at, end)) => Some(trim_spec(text.subrange(at + "<function="@.len(), end))),
        None => None,
    }
}

/// What follows the first declaration of a function.
pub open spec fn after_function(text: Seq<char>) -> Seq<char> {
    match next_tag(text, "<function="@, 0) {
        Some((_, end)) => text.skip(end + 1),
        None => text,
    }
}

/// The name in the first declaration of a function, and where the declaration
/// ends.
pub fn find_function(text: &Vec<char>) -> (r: Option<(String, usize)>)
    ensures
        match r {
            Some((name, end)) => function_name(text@) == Some(name@) && end <= text@.len()
                && after_function(text@) == text@.skip(end as int) && end > 0,
            None => function_name(text@) is None,
        },
{
    let open = chars_of("<function=");
    let len = text.len();
    match find_tag(text, &open, 0) {
        Some((at, end)) => {
            assert(end < len);
            let start: usize = at + open.len();
            let (a, b) = trim_bounds(text, start, end);
            Some((string_of(text, a, b), end + 1))
        },
        None => None,
    }
}

/// A parameter as it is written.
#[derive(Debug)]
pub struct RawParam {
    pub key: String,
    pub value: String,
}

/// What a written parameter says.
#[verifier::ext_equal]
pub struct RawParamView {
    pub key: Seq<char>,
    pub value: Seq<char>,
}

impl View for RawParam {
    type V = RawParamView;

    open spec fn view(&self) -> RawParamView {
        RawParamView { key: self.key@, value: self.value@ }
    }
}

/// What written parameters say.
pub open spec fn raw_params_view(params: Seq<RawParam>) -> Seq<RawParamView> {
    params.map_values(|p: RawParam| p@)
}

/// Some written parameter has the key.
pub open spec fn is_written(params: Seq<RawParamView>, key: Seq<char>) -> bool {
    exists|i: int| 0 <= i < params.len() && (#[trigger] params[i]).key == key
}

/// The next parameter that is complete: where its tag opens, where its key ends,
/// and where its closing tag stands.
pub open spec fn next_param(text: Seq<char>, from: int) -> Option<(int, int, int)> {
    match next_tag(text, "<parameter="@, from) {
        Some((at, end)) => match find_spec(text, "</parameter>"@, end + 1) {
            Some(close) => Some((at, end, close)),
            None => None,
        },
        None => None,
    }
}

/// The complete parameters at or after a position, in the order in which they
/// stand.
pub open spec fn params_from(text: Seq<char>, from: int) -> Seq<RawParamView>
    decreases text.len() - from,
{
    match next_param(text, from) {
        Some((at, end, close)) => if from <= at < end < close && close + "</parameter>"@.len()
            <= text.len() {
            seq![
                RawParamView {
                    key: trim_spec(text.subrange(at + "<parameter="@.len(), end)),
                    value: text.subrange(end + 1, close),
                },
            ] + params_from(text, close + "</parameter>"@.len())
        } else {
            Seq::empty()
        },
        None => Seq::empty(),
    }
}

/// The complete parameters of a text.
pub open spec fn params_in(text: Seq<char>) -> Seq<RawParamView> {
    params_from(text, 0)
}

/// The complete parameters of a text.
pub fn find_params(text: &Vec<char>) -> (r: Vec<RawParam>)
    ensures
        raw_params_view(r@) == params_in(text@),
{
    let open = chars_of("<parameter=");
    let close_tag = chars_of("</parameter>");
    let mut out: Vec<RawParam> = Vec::new();
    let mut from: usize = 0;
    let len = text.len();
    proof {
        assert(raw_params_view(out@) =~= Seq::<RawParamView>::empty());
        assert(raw_params_view(out@) + params_from(text@, 0) =~= params_from(text@, 0));
    }
    loop
        invariant
            open@ == "<parameter="@,
            close_tag@ == "</parameter>"@,
            params_in(text@) == raw_params_view(out@) + params_from(text@, from as int),
            from <= len == text@.len(),
        decreases len - from,
    {
        let tag = find_tag(text, &open, from);
        let (at, end) = match tag {
            Some(found) => found,
            None => {
                assert(params_from(text@, from as int) =~= Seq::<RawParamView>::empty());
                assert(raw_params_view(out@) + params_from(text@, from as int) =~= raw_params_view(
                    out@,
                ));
                return out;
            },
        };
        assert(end < len);
        let close = match find_token(text, &close_tag, end + 1) {
            Some(close) => close,
            None => {
                assert(params_from(text@, from as int) =~= Seq::<RawParamView>::empty());
                assert(raw_params_view(out@) + params_from(text@, from as int) =~= raw_params_view(
                    out@,
                ));
                return out;
            },
        };
        let start: usize = at + open.len();
        let (a, b) = trim_bounds(text, start, end);
        let param = RawParam {
            key: string_of(text, a, b),
            value: string_of(text, end + 1, close),
        };
        let ghost before = raw_params_view(out@);
        let ghost rest = params_from(text@, close + close_tag@.len());
        proof {
            assert(params_from(text@, from as int) =~= seq![param@] + rest);
            assert(raw_params_view(out@.push(param)) =~= before.push(param@));
            assert(before + (seq![param@] + rest) =~= before.push(param@) + rest);
        }
        out.push(param);
        assert(close + close_tag@.len() <= len);
        from = close + close_tag.len();
    }
}

/// The next complete block at or after a position: where it opens, and where its
/// closing tag stands.
pub open spec fn next_block(text: Seq<char>, from: int) -> Option<(int, int)> {
    match find_spec(text, "<tool_call>"@, from) {
        Some(at) => match find_spec(text, "</tool_call>"@, at + "<tool_call>"@.len()) {
            Some(close) => Some((at, close)),
            None => None,
        },
        None => None,
    }
}

/// What the complete blocks at or after a position hold, without the white space
/// around it.
pub open spec fn blocks_from(text: Seq<char>, from: int) -> Seq<Seq<char>>
    decreases text.len() - from,
{
    match next_block(text, from) {
        Some((at, close)) => if from <= at <= close && from < close
            + "</tool_call>"@.len() <= text.len() {
            seq![trim_spec(text.subrange(at + "<tool_call>"@.len(), close))] + blocks_from(
                text,
                close + "</tool_call>"@.len(),
            )
        } else {
            Seq::empty()
        },
        None => Seq::empty(),
    }
}

/// What the complete blocks of a text hold.
pub open spec fn blocks_in(text: Seq<char>) -> Seq<Seq<char>> {
    blocks_from(text, 0)
}

/// The characters of what the complete blocks of a text hold.
pub open spec fn chars_view(blocks: Seq<Vec<char>>) -> Seq<Seq<char>> {
    blocks.map_values(|b: Vec<char>| b@)
}

/// A copy of `chars[from..to]`.
pub fn slice_of(chars: &Vec<char>, from: usize, to: usize) -> (r: Vec<char>)
    requires
        from <= to <= chars@.len(),
    ensures
        r@ == chars@.subrange(from as int, to as int),
{
    let mut out: Vec<char> = Vec::new();
    let mut i: usize = from;
    while i < to
        invariant
            from <= i <= to <= chars@.len(),
            out@ == chars@.subrange(from as int, i as int),
        decreases to - i,
    {
        out.push(chars[i]);
        assert(chars@.subrange(from as int, i + 1) =~= chars@.subrange(from as int, i as int).push(
            chars@[i as int],
        ));
        i = i + 1;
    }
    out
}

/// What the complete blocks of a text hold.
pub fn find_blocks(text: &Vec<char>) -> (r: Vec<Vec<char>>)
    ensures
        chars_view(r@) == blocks_in(text@),
{
    let open = chars_of("<tool_call>");
    let close_tag = chars_of("</tool_call>");
    let mut out: Vec<Vec<char>> = Vec::new();
    let mut from: usize = 0;
    let len = text.len();
    proof {
        reveal_strlit("</tool_call>");
        assert(chars_view(out@) =~= Seq::<Seq<char>>::empty());
        assert(chars_view(out@) + blocks_from(text@, 0) =~= blocks_from(text@, 0));
    }
    loop
        invariant
            open@ == "<tool_call>"@,
            close_tag@ == "</tool_call>"@,
            close_tag@.len() == 12,
            blocks_in(text@) == chars_view(out@) + blocks_from(text@, from as int),
            from <= len == text@.len(),
        decreases len - from,
    {
        let at = match find_token(text, &open, from) {
            Some(at) => at,
            None => {
                assert(blocks_from(text@, from as int) =~= Seq::<Seq<char>>::empty());
                assert(chars_view(out@) + blocks_from(text@, from as int) =~= chars_view(out@));
                return out;
            },
        };
        assert(at + open@.len() <= len);
        let start: usize = at + open.len();
        let close = match find_token(text, &close_tag, start) {
            Some(close) => close,
            None => {
                assert(blocks_from(text@, from as int) =~= Seq::<Seq<char>>::empty());
                assert(chars_view(out@) + blocks_from(text@, from as int) =~= chars_view(out@));
                return out;
            },
        };
        let (a, b) = trim_bounds(text, start, close);
        let block = slice_of(text, a, b);
        let ghost before = chars_view(out@);
        let ghost rest = blocks_from(text@, close + close_tag@.len());
        proof {
            assert(blocks_from(text@, from as int) =~= seq![block@] + rest);
            assert(chars_view(out@.push(block)) =~= before.push(block@));
            assert(before + (seq![block@] + rest) =~= before.push(block@) + rest);
        }
        out.push(block);
        assert(close + close_tag@.len() <= len);
        from = close + close_tag.len();
    }
}

/// What follows a text does not move the character that was found in it.
pub proof fn lemma_next_char_stable(text: Seq<char>, more: Seq<char>, c: char, from: int)
    requires
        next_char(text, c, from) is Some,
    ensures
        next_char(text + more, c, from) == next_char(text, c, from),
    decreases text.len() - from,
{
    assert((text + more)[from] == text[from]);
    if text[from] != c {
        lemma_next_char_stable(text, more, c, from + 1);
    }
}

proof fn lemma_next_char_reaches(text: Seq<char>, c: char, from: int, at: int)
    requires
        0 <= from <= at < text.len(),
        text[at] == c,
    ensures
        next_char(text, c, from) is Some,
    decreases at - from,
{
    if text[from] != c {
        lemma_next_char_reaches(text, c, from + 1, at);
    }
}

/// What follows a text does not change what it holds.
pub proof fn lemma_occurs_stable(text: Seq<char>, more: Seq<char>, token: Seq<char>, at: int)
    requires
        at + token.len() <= text.len(),
    ensures
        occurs_at(text + more, token, at) == occurs_at(text, token, at),
{
    if 0 <= at {
        assert((text + more).subrange(at, at + token.len()) =~= text.subrange(
            at,
            at + token.len(),
        ));
    }
}

/// What follows a text does not move the tag that was found in it.
pub proof fn lemma_next_tag_stable(text: Seq<char>, more: Seq<char>, open: Seq<char>, from: int)
    requires
        next_tag(text, open, from) is Some,
    ensures
        next_tag(text + more, open, from) == next_tag(text, open, from),
    decreases text.len() - from,
{
    lemma_next_tag(text, open, from);
    let (at, end) = next_tag(text, open, from)->0;
    lemma_occurs_stable(text, more, open, from);
    lemma_next_char(text, '>', at + open.len());
    lemma_next_char_reaches(text, '>', from + open.len(), end);
    lemma_next_char_stable(text, more, '>', from + open.len());
    if name_end(text, open, from) is None {
        lemma_next_tag_stable(text, more, open, from + 1);
    }
}

/// What follows a text does not move the token that was found in it.
pub proof fn lemma_find_stable(text: Seq<char>, more: Seq<char>, token: Seq<char>, from: int)
    requires
        find_spec(text, token, from) is Some,
    ensures
        find_spec(text + more, token, from) == find_spec(text, token, from),
{
    lemma_find_spec(text, token, from);
    lemma_find_spec(text + more, token, from);
    let at = find_spec(text, token, from)->0;
    assert forall|i: int| from <= i <= at implies #[trigger] occurs_at(text + more, token, i)
        == occurs_at(text, token, i) by {
        lemma_occurs_stable(text, more, token, i);
    }
    assert(first_occurrence(text + more, token, from, at));
}

proof fn lemma_params_stable(text: Seq<char>, more: Seq<char>, from: int)
    ensures
        params_from(text, from).is_prefix_of(params_from(text + more, from)),
    decreases text.len() - from,
{
    let long = text + more;
    if next_param(text, from) is Some {
        let (at, end, close) = next_param(text, from)->0;
        lemma_next_tag_stable(text, more, "<parameter="@, from);
        lemma_find_stable(text, more, "</parameter>"@, end + 1);
        if from <= at < end < close && close + "</parameter>"@.len() <= text.len() {
            let next = close + "</parameter>"@.len();
            lemma_params_stable(text, more, next);
            lemma_next_tag(text, "<parameter="@, from);
            assert(long.subrange(at + "<parameter="@.len(), end) =~= text.subrange(
                at + "<parameter="@.len(),
                end,
            ));
            assert(long.subrange(end + 1, close) =~= text.subrange(end + 1, close));
            let head = RawParamView {
                key: trim_spec(text.subrange(at + "<parameter="@.len(), end)),
                value: text.subrange(end + 1, close),
            };
            assert(params_from(text, from) == seq![head] + params_from(text, next));
            assert(params_from(long, from) == seq![head] + params_from(long, next));
        }
    }
}

/// A complete parameter stays what it is, whatever is written after it.
pub proof fn law_complete_params_stay(text: Seq<char>, more: Seq<char>)
    ensures
        params_in(text).is_prefix_of(params_in(text + more)),
{
    lemma_params_stable(text, more, 0);
}

/// A text without an opening tag holds no block.
pub proof fn law_no_tag_no_block(text: Seq<char>)
    requires
        !contains_text(text, "<tool_call>"@),
    ensures
        blocks_in(text) == (Seq::<Seq<char>>::empty()),
{
}

} // verus!
