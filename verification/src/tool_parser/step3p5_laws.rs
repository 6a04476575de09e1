//! What a stream of calls guarantees as a whole.
use super::markup::{
    after_function, function_name, is_written, lemma_find_stable, lemma_next_char,
    lemma_next_char_stable, lemma_next_tag, lemma_next_tag_stable, lemma_occurs_stable, name_end,
    next_char, next_tag, params_in,
};
use super::params::{
    has_key, law_params_by_key, members, params_read, same_values, unknown_params, ParamView,
};
use super::step3p5::{
    ends_partially, fragment, fresh, piece, run, sound, step, streamed, streamed_all, Outcome,
    StreamView,
};
use super::types::{tool_named, ItemView, ToolView};
use crate::text::{find_spec, first_occurrence, joined, lemma_find_spec, occurs_at, trim_spec};
use vstd::prelude::*;

verus! {

// ---- Arguments ----

proof fn lemma_all_unknown(params: Seq<ParamView>)
    ensures
        unknown_params(params, Seq::empty()) == params,
    decreases params.len(),
{
    if params.len() > 0 {
        lemma_all_unknown(params.drop_last());
        assert(!has_key(Seq::<ParamView>::empty(), params.last().key));
        assert(params =~= params.drop_last().push(params.last()));
    } else {
        assert(params =~= Seq::<ParamView>::empty());
    }
}

proof fn lemma_unknown_keys(params: Seq<ParamView>, known: Seq<ParamView>)
    ensures
        forall|i: int|
            0 <= i < unknown_params(params, known).len() ==> params.contains(
                #[trigger] unknown_params(params, known)[i],
            ) && !has_key(known, unknown_params(params, known)[i].key),
        forall|p: ParamView| #[trigger]
            params.contains(p) && !has_key(known, p.key) ==> unknown_params(
                params,
                known,
            ).contains(p),
    decreases params.len(),
{
    let all = unknown_params(params, known);
    if params.len() > 0 {
        let init = params.drop_last();
        let rest = unknown_params(init, known);
        lemma_unknown_keys(init, known);
        assert(params[params.len() - 1] == params.last());
        assert forall|i: int| 0 <= i < all.len() implies params.contains(#[trigger] all[i])
            && !has_key(known, all[i].key) by {
            if i < rest.len() {
                assert(rest[i] == all[i]);
                let j = choose|j: int| 0 <= j < init.len() && init[j] == rest[i];
                assert(params[j] == all[i]);
            }
        }
        assert forall|p: ParamView| #[trigger]
            params.contains(p) && !has_key(known, p.key) implies all.contains(p) by {
            let j = choose|j: int| 0 <= j < params.len() && params[j] == p;
            if j < init.len() {
                assert(init[j] == p);
                assert(init.contains(p));
                let i = choose|i: int| 0 <= i < rest.len() && rest[i] == p;
                assert(all[i] == p);
            } else {
                assert(all[all.len() - 1] == p);
            }
        }
    }
}

/// Each parameter of a call is sent once, when it is complete. What a step sends of
/// the arguments is one piece of the current call with the parameters whose key was
/// not sent before, or nothing where there are none. The first piece opens the
/// object and a later one continues it. Keys that were sent stay known for as long
/// as the call lasts.
pub proof fn law_params_are_sent_once(
    s: StreamView,
    tools: Seq<ToolView>,
    numbers: spec_fn(Seq<char>) -> Option<Seq<char>>,
)
    requires
        sound(s),
        s.name_sent,
    ensures
        ({
            let after = params_read(params_in(s.buffer), tools, s.function, numbers);
            let added = unknown_params(after, s.params);
            let sent = piece(s.tool, fragment(s.params, after));
            &&& added.len() == 0 ==> sent == Seq::<ItemView>::empty()
            &&& added.len() > 0 ==> sent == seq![
                ItemView {
                    tool_index: s.tool,
                    name: None,
                    parameters: (if s.params.len() == 0 {
                        "{"@
                    } else {
                        ", "@
                    }) + members(added, ": "@, ", "@),
                },
            ]
            &&& forall|k: Seq<char>| #[trigger]
                has_key(added, k) <==> is_written(params_in(s.buffer), k) && !has_key(s.params, k)
            &&& forall|k: Seq<char>| #[trigger] has_key(s.params, k) ==> has_key(after, k)
            &&& step(s, tools, numbers).calls.len() >= sent.len()
            &&& step(s, tools, numbers).calls.take(sent.len() as int) == sent
            &&& step(s, tools, numbers).state.name_sent ==> step(s, tools, numbers).calls == sent
                && (step(s, tools, numbers).state.params == (if same_values(s.params, after) {
                s.params
            } else {
                after
            }))
        }),
{
    reveal_strlit("{");
    reveal_strlit(", ");
    let after = params_read(params_in(s.buffer), tools, s.function, numbers);
    let added = unknown_params(after, s.params);
    let sent = piece(s.tool, fragment(s.params, after));
    law_params_by_key(params_in(s.buffer), tools, s.function, numbers);
    lemma_unknown_keys(after, s.params);
    if s.params.len() == 0 {
        assert(s.params =~= Seq::<ParamView>::empty());
        lemma_all_unknown(after);
    }
    if same_values(s.params, after) && added.len() > 0 {
        let p = added[0];
        assert(after.contains(p));
        let i = choose|i: int| 0 <= i < after.len() && after[i] == p;
        assert(s.params[i].key == p.key);
        assert(has_key(s.params, p.key));
    }
    assert forall|k: Seq<char>| #[trigger] has_key(s.params, k) implies has_key(after, k) by {
        let i = choose|i: int| 0 <= i < s.params.len() && (#[trigger] s.params[i]).key == k;
        assert(is_written(params_in(s.buffer), s.params[i].key));
    }
    assert forall|k: Seq<char>| #[trigger]
        has_key(added, k) <==> is_written(params_in(s.buffer), k) && !has_key(s.params, k) by {
        assert(has_key(after, k) <==> is_written(params_in(s.buffer), k));
        if has_key(added, k) {
            let i = choose|i: int| 0 <= i < added.len() && (#[trigger] added[i]).key == k;
            let j = choose|j: int| 0 <= j < after.len() && after[j] == added[i];
            assert(after[j].key == k);
        }
        if has_key(after, k) && !has_key(s.params, k) {
            let j = choose|j: int| 0 <= j < after.len() && (#[trigger] after[j]).key == k;
            assert(after.contains(after[j]));
            let i = choose|i: int| 0 <= i < added.len() && added[i] == after[j];
            assert(added[i].key == k);
        }
    }
    let calls = step(s, tools, numbers).calls;
    assert(calls.take(sent.len() as int) =~= sent);
}

// ---- Names and how a text is cut ----

/// The calls that pieces begin: their indices and names, in order.
pub open spec fn named(calls: Seq<ItemView>) -> Seq<(nat, Seq<char>)>
    decreases calls.len(),
{
    if calls.len() == 0 {
        Seq::empty()
    } else {
        let before = named(calls.drop_last());
        match calls.last().name {
            Some(name) => before.push((calls.last().tool_index, name)),
            None => before,
        }
    }
}

/// Every function that a text declares is one of the tools.
pub open spec fn all_declared(text: Seq<char>, tools: Seq<ToolView>) -> bool {
    forall|at: int|
        #[trigger] name_end(text, "<function="@, at) matches Some(end) ==> tool_named(
            tools,
            trim_spec(text.subrange(at + "<function="@.len(), end)),
        ) is Some
}

/// Where a stream stands: all of its state but what is known of arguments.
#[verifier::ext_equal]
pub struct Place {
    pub buffer: Seq<char>,
    pub in_call: bool,
    pub name_sent: bool,
    pub tool: nat,
}

/// Where a stream stands.
pub open spec fn place_of(s: StreamView) -> Place {
    Place { buffer: s.buffer, in_call: s.in_call, name_sent: s.name_sent, tool: s.tool }
}

/// What steps bring as far as names go.
#[verifier::ext_equal]
pub struct Walk {
    pub place: Place,
    pub names: Seq<(nat, Seq<char>)>,
    pub again: bool,
}

/// What an outcome brings as far as names go.
pub open spec fn walk_of(o: Outcome) -> Walk {
    Walk { place: place_of(o.state), names: named(o.calls), again: o.again }
}

/// One step from a place.
pub open spec fn place_step(p: Place, tools: Seq<ToolView>) -> Walk {
    let none = Seq::<(nat, Seq<char>)>::empty();
    let stay = Walk { place: p, names: none, again: false };
    if !p.in_call {
        match find_spec(p.buffer, "<tool_call>"@, 0) {
            Some(at) => Walk {
                place: Place {
                    buffer: p.buffer.skip(at + "<tool_call>"@.len()),
                    in_call: true,
                    name_sent: false,
                    ..p
                },
                names: none,
                again: true,
            },
            None => if ends_partially(p.buffer, "<tool_call>"@) {
                stay
            } else {
                Walk { place: Place { buffer: Seq::empty(), ..p }, names: none, again: false }
            },
        }
    } else if !p.name_sent {
        match function_name(p.buffer) {
            Some(name) => if tool_named(tools, name) is Some {
                Walk {
                    place: Place { buffer: after_function(p.buffer), name_sent: true, ..p },
                    names: seq![(p.tool, name)],
                    again: true,
                }
            } else {
                Walk {
                    place: Place {
                        buffer: Seq::empty(),
                        in_call: false,
                        name_sent: false,
                        ..p
                    },
                    names: none,
                    again: false,
                }
            },
            None => stay,
        }
    } else {
        match find_spec(p.buffer, "</tool_call>"@, 0) {
            Some(at) => Walk {
                place: Place {
                    buffer: p.buffer.skip(at + "</tool_call>"@.len()),
                    in_call: false,
                    name_sent: false,
                    tool: p.tool + 1,
                },
                names: none,
                again: true,
            },
            None => stay,
        }
    }
}

/// As many steps from a place as there are.
pub open spec fn place_run(p: Place, tools: Seq<ToolView>) -> Walk
    decreases p.buffer.len(),
{
    let w = place_step(p, tools);
    if w.again && w.place.buffer.len() < p.buffer.len() {
        let rest = place_run(w.place, tools);
        Walk { place: rest.place, names: w.names + rest.names, again: false }
    } else {
        w
    }
}

/// A place after a chunk came.
pub open spec fn with_more(p: Place, more: Seq<char>) -> Place {
    Place { buffer: p.buffer + more, ..p }
}

proof fn lemma_named_add(a: Seq<ItemView>, b: Seq<ItemView>)
    ensures
        named(a + b) == named(a) + named(b),
    decreases b.len(),
{
    if b.len() == 0 {
        assert(a + b =~= a);
        assert(named(a) + named(b) =~= named(a));
    } else {
        lemma_named_add(a, b.drop_last());
        assert((a + b).drop_last() =~= a + b.drop_last());
        assert((a + b).last() == b.last());
        assert(named(a + b) =~= named(a) + named(b));
    }
}

proof fn lemma_piece_unnamed(tool: nat, text: Seq<char>)
    ensures
        named(piece(tool, text)) == Seq::<(nat, Seq<char>)>::empty(),
{
    let p = piece(tool, text);
    if p.len() > 0 {
        assert(p.drop_last() =~= Seq::<ItemView>::empty());
        assert(named(p.drop_last()) =~= Seq::<(nat, Seq<char>)>::empty());
    }
}

proof fn lemma_step_walks(
    s: StreamView,
    tools: Seq<ToolView>,
    numbers: spec_fn(Seq<char>) -> Option<Seq<char>>,
)
    ensures
        walk_of(step(s, tools, numbers)) == place_step(place_of(s), tools),
{
    let none = Seq::<(nat, Seq<char>)>::empty();
    let o = step(s, tools, numbers);
    let w = place_step(place_of(s), tools);
    assert(named(Seq::<ItemView>::empty()) =~= none);
    if s.in_call && !s.name_sent {
        if o.calls.len() == 1 {
            assert(o.calls.drop_last() =~= Seq::<ItemView>::empty());
            assert(named(o.calls) =~= none.push((s.tool, o.calls.last().name->0)));
            assert(named(o.calls) =~= w.names);
        }
    } else if s.in_call {
        let after = params_read(params_in(s.buffer), tools, s.function, numbers);
        let sent = fragment(s.params, after);
        lemma_piece_unnamed(s.tool, sent);
        if o.again {
            let mid = super::step3p5::with_params_read(s, after);
            let end = super::step3p5::closing(mid.streamed[s.tool as int]);
            lemma_piece_unnamed(s.tool, end);
            lemma_named_add(piece(s.tool, sent), piece(s.tool, end));
            assert(none + none =~= none);
        }
    }
    assert(walk_of(o) =~= w);
}

proof fn lemma_run_walks(
    s: StreamView,
    tools: Seq<ToolView>,
    numbers: spec_fn(Seq<char>) -> Option<Seq<char>>,
)
    ensures
        walk_of(run(s, tools, numbers)).place == place_run(place_of(s), tools).place,
        walk_of(run(s, tools, numbers)).names == place_run(place_of(s), tools).names,
    decreases s.buffer.len(),
{
    lemma_step_walks(s, tools, numbers);
    let o = step(s, tools, numbers);
    if o.again && o.state.buffer.len() < s.buffer.len() {
        lemma_run_walks(o.state, tools, numbers);
        lemma_named_add(o.calls, run(o.state, tools, numbers).calls);
    }
}

proof fn lemma_place_progress(p: Place, tools: Seq<ToolView>)
    ensures
        place_step(p, tools).again ==> place_step(p, tools).place.buffer.len() < p.buffer.len(),
{
    reveal_strlit("<tool_call>");
    reveal_strlit("</tool_call>");
    lemma_find_spec(p.buffer, "<tool_call>"@, 0);
    lemma_find_spec(p.buffer, "</tool_call>"@, 0);
    lemma_next_tag(p.buffer, "<function="@, 0);
}

// ---- Declarations in parts of a text ----

proof fn lemma_next_char_shift(text: Seq<char>, c: char, k: int, from: int)
    requires
        0 <= k <= text.len(),
        0 <= from,
        next_char(text.skip(k), c, from) is Some,
    ensures
        next_char(text, c, from + k) == Some(next_char(text.skip(k), c, from)->0 + k),
    decreases text.len() - k - from,
{
    assert(text.skip(k)[from] == text[from + k]);
    if text[from + k] != c {
        lemma_next_char_shift(text, c, k, from + 1);
    }
}

/// What a part of a text declares, the text declares.
proof fn lemma_declared_in_part(text: Seq<char>, more: Seq<char>, k: int, tools: Seq<ToolView>)
    requires
        all_declared(text + more, tools),
        0 <= k <= text.len(),
    ensures
        all_declared(text, tools),
        all_declared((text + more).skip(k), tools),
{
    let open = "<function="@;
    let long = text + more;
    assert forall|at: int|
        #[trigger] name_end(text, open, at) matches Some(end) implies tool_named(
        tools,
        trim_spec(text.subrange(at + open.len(), name_end(text, open, at)->0)),
    ) is Some by {
        let end = name_end(text, open, at)->0;
        lemma_occurs_stable(text, more, open, at);
        lemma_next_char(text, '>', at + open.len());
        lemma_next_char_stable(text, more, '>', at + open.len());
        assert(name_end(long, open, at) == Some(end));
        assert(long.subrange(at + open.len(), end) =~= text.subrange(at + open.len(), end));
    }
    let tail = long.skip(k);
    assert forall|at: int|
        #[trigger] name_end(tail, open, at) matches Some(end) implies tool_named(
        tools,
        trim_spec(tail.subrange(at + open.len(), name_end(tail, open, at)->0)),
    ) is Some by {
        let end = name_end(tail, open, at)->0;
        lemma_next_char(tail, '>', at + open.len());
        lemma_next_char_shift(long, '>', k, at + open.len());
        assert(long.subrange(at + k, at + k + open.len()) =~= tail.subrange(at, at + open.len()));
        assert(occurs_at(long, open, at + k));
        assert(name_end(long, open, at + k) == Some(end + k));
        assert(long.subrange(at + k + open.len(), end + k) =~= tail.subrange(
            at + open.len(),
            end,
        ));
    }
}

// ---- Places that come to the same ----

/// A token may begin at a position, as far as the text goes.
pub open spec fn may_begin(text: Seq<char>, token: Seq<char>, at: int) -> bool {
    forall|j: int|
        0 <= j < token.len() && at + j < text.len() ==> #[trigger] token[j] == text[at + j]
}

/// Two places come to the same: outside a block, one of them may have kept text
/// before that of the other, in which no block can begin any more.
pub open spec fn same_course(p: Place, q: Place) -> bool {
    let n = q.buffer.len() - p.buffer.len();
    &&& p.in_call == q.in_call
    &&& p.name_sent == q.name_sent
    &&& p.tool == q.tool
    &&& p.in_call ==> p.buffer == q.buffer
    &&& 0 <= n
    &&& q.buffer.skip(n) == p.buffer
    &&& forall|i: int| 0 <= i < n ==> !#[trigger] may_begin(q.buffer, "<tool_call>"@, i)
}

proof fn lemma_same_place(p: Place)
    ensures
        same_course(p, p),
{
    assert(p.buffer.skip(0) =~= p.buffer);
}

proof fn lemma_same_course_transitive(p: Place, q: Place, r: Place)
    requires
        same_course(p, q),
        same_course(q, r),
    ensures
        same_course(p, r),
{
    let token = "<tool_call>"@;
    let m = q.buffer.len() - p.buffer.len();
    let n = r.buffer.len() - q.buffer.len();
    assert(r.buffer.skip(m + n) =~= r.buffer.skip(n).skip(m));
    assert forall|i: int| 0 <= i < m + n implies !#[trigger] may_begin(r.buffer, token, i) by {
        if i >= n && may_begin(r.buffer, token, i) {
            assert(!may_begin(q.buffer, token, i - n));
            assert forall|j: int|
                0 <= j < token.len() && i - n + j < q.buffer.len() implies #[trigger] token[j]
                == q.buffer[i - n + j] by {
                assert(q.buffer[i - n + j] == r.buffer.skip(n)[i - n + j]);
                assert(token[j] == r.buffer[i + j]);
            }
        }
    }
}

proof fn lemma_same_course_with_more(p: Place, q: Place, more: Seq<char>)
    requires
        same_course(p, q),
    ensures
        same_course(with_more(p, more), with_more(q, more)),
{
    let token = "<tool_call>"@;
    let n = q.buffer.len() - p.buffer.len();
    let long = q.buffer + more;
    assert(long.skip(n) =~= q.buffer.skip(n) + more);
    assert forall|i: int| 0 <= i < n implies !#[trigger] may_begin(long, token, i) by {
        if may_begin(long, token, i) {
            assert(!may_begin(q.buffer, token, i));
            assert forall|j: int|
                0 <= j < token.len() && i + j < q.buffer.len() implies #[trigger] token[j]
                == q.buffer[i + j] by {
                assert(token[j] == long[i + j]);
            }
        }
    }
}

/// What can be found in the shorter buffer is what can be found in the longer one.
proof fn lemma_same_finds(p: Place, q: Place)
    requires
        same_course(p, q),
    ensures
        ({
            let token = "<tool_call>"@;
            let n = q.buffer.len() - p.buffer.len();
            &&& match find_spec(p.buffer, token, 0) {
                Some(at) => find_spec(q.buffer, token, 0) == Some(at + n),
                None => find_spec(q.buffer, token, 0) is None,
            }
            &&& ends_partially(p.buffer, token) == ends_partially(q.buffer, token)
        }),
{
    let token = "<tool_call>"@;
    let a = p.buffer;
    let b = q.buffer;
    let n = b.len() - a.len();
    lemma_find_spec(a, token, 0);
    lemma_find_spec(b, token, 0);
    assert forall|i: int| 0 <= i < n implies !#[trigger] occurs_at(b, token, i) by {
        assert(!may_begin(b, token, i));
        if occurs_at(b, token, i) {
            assert forall|j: int| 0 <= j < token.len() && i + j < b.len() implies #[trigger] token[j]
                == b[i + j] by {
                assert(b.subrange(i, i + token.len())[j] == b[i + j]);
            }
        }
    }
    assert forall|i: int| 0 <= i implies #[trigger] occurs_at(a, token, i) == occurs_at(
        b,
        token,
        i + n,
    ) by {
        if i + token.len() <= a.len() {
            assert(b.subrange(i + n, i + n + token.len()) =~= b.skip(n).subrange(
                i,
                i + token.len(),
            ));
        }
    }
    match find_spec(a, token, 0) {
        Some(at) => {
            assert forall|i: int| 0 <= i < at + n implies !occurs_at(b, token, i) by {
                if i >= n {
                    assert(!occurs_at(a, token, i - n));
                }
            }
            assert(occurs_at(a, token, at));
            assert(first_occurrence(b, token, 0, at + n));
        },
        None => {
            if let Some(at) = find_spec(b, token, 0) {
                assert(occurs_at(b, token, at));
                assert(at >= n);
                assert(occurs_at(a, token, at - n));
            }
        },
    }
    if ends_partially(a, token) {
        let i = choose|i: int|
            1 <= i < token.len() && i <= a.len() && #[trigger] token.take(i) == a.skip(a.len() - i);
        assert(b.skip(b.len() - i) =~= b.skip(n).skip(a.len() - i));
        assert(token.take(i) == b.skip(b.len() - i));
    }
    if ends_partially(b, token) {
        let i = choose|i: int|
            1 <= i < token.len() && i <= b.len() && #[trigger] token.take(i) == b.skip(b.len() - i);
        let at = b.len() - i;
        assert forall|j: int| 0 <= j < token.len() && at + j < b.len() implies #[trigger] token[j]
            == b[at + j] by {
            assert(token.take(i)[j] == token[j]);
            assert(b.skip(at)[j] == b[at + j]);
        }
        assert(may_begin(b, token, at));
        assert(at >= n);
        assert(a.skip(a.len() - i) =~= b.skip(b.len() - i));
        assert(token.take(i) == a.skip(a.len() - i));
    }
}

/// Places that come to the same give the same names and come to the same again.
proof fn lemma_same_run(p: Place, q: Place, tools: Seq<ToolView>)
    requires
        same_course(p, q),
    ensures
        place_run(p, tools).names == place_run(q, tools).names,
        same_course(place_run(p, tools).place, place_run(q, tools).place),
{
    if p.in_call {
        assert(p =~= q);
        lemma_same_place(place_run(p, tools).place);
    } else {
        lemma_same_finds(p, q);
        lemma_place_progress(p, tools);
        lemma_place_progress(q, tools);
        let token = "<tool_call>"@;
        let n = q.buffer.len() - p.buffer.len();
        let v = place_step(p, tools);
        let w = place_step(q, tools);
        if let Some(at) = find_spec(p.buffer, token, 0) {
            lemma_find_spec(p.buffer, token, 0);
            assert(q.buffer.skip(at + n + token.len()) =~= q.buffer.skip(n).skip(
                at + token.len(),
            ));
            assert(v.place =~= w.place);
            lemma_same_place(place_run(v.place, tools).place);
        } else if !ends_partially(p.buffer, token) {
            assert(v.place =~= w.place);
            lemma_same_place(v.place);
        }
    }
}

/// To run, and then to run again when more came, comes to the same as to run when
/// all has come.
proof fn lemma_cut(p: Place, more: Seq<char>, tools: Seq<ToolView>)
    requires
        all_declared(p.buffer + more, tools),
    ensures
        ({
            let first = place_run(p, tools);
            let later = place_run(with_more(first.place, more), tools);
            let whole = place_run(with_more(p, more), tools);
            &&& first.names + later.names == whole.names
            &&& same_course(later.place, whole.place)
        }),
    decreases p.buffer.len(),
{
    let b = p.buffer;
    let long = b + more;
    let q = with_more(p, more);
    let v = place_step(p, tools);
    let w = place_step(q, tools);
    let first = place_run(p, tools);
    let second = place_run(with_more(first.place, more), tools);
    let whole = place_run(q, tools);
    lemma_place_progress(p, tools);
    lemma_place_progress(q, tools);
    lemma_same_place(whole.place);
    assert(Seq::<(nat, Seq<char>)>::empty() + second.names =~= second.names);
    if v.again {
        lemma_step_stays(p, more, tools);
        let k = b.len() - v.place.buffer.len();
        assert(v.place.buffer + more =~= long.skip(k)) by {
            assert(v.place.buffer =~= b.skip(k));
        }
        lemma_declared_in_part(b, more, k, tools);
        lemma_cut(v.place, more, tools);
        let rest = place_run(v.place, tools);
        assert(v.names + rest.names + second.names =~= v.names + (rest.names + second.names));
    } else if !p.in_call {
        if !ends_partially(b, "<tool_call>"@) {
            let emptied = with_more(first.place, more);
            assert(emptied.buffer =~= more);
            lemma_flushed(b, more);
            assert(long.skip(b.len() as int) =~= more);
            assert(same_course(emptied, q));
            lemma_same_run(emptied, q, tools);
        }
    } else if !p.name_sent {
        if let Some(name) = function_name(b) {
            lemma_declared_in_part(b, more, 0, tools);
            lemma_next_tag(b, "<function="@, 0);
            let (at, end) = next_tag(b, "<function="@, 0)->0;
            assert(name_end(b, "<function="@, at) == Some(end));
        }
    }
}

/// Where no token stands in a text and none begins at its end, none begins in it,
/// whatever follows.
proof fn lemma_flushed(text: Seq<char>, more: Seq<char>)
    requires
        find_spec(text, "<tool_call>"@, 0) is None,
        !ends_partially(text, "<tool_call>"@),
    ensures
        forall|i: int|
            0 <= i < text.len() ==> !#[trigger] may_begin(text + more, "<tool_call>"@, i),
{
    let token = "<tool_call>"@;
    let long = text + more;
    lemma_find_spec(text, token, 0);
    assert forall|i: int| 0 <= i < text.len() implies !#[trigger] may_begin(long, token, i) by {
        if may_begin(long, token, i) {
            if i + token.len() <= text.len() {
                assert forall|j: int| 0 <= j < token.len() implies text.subrange(
                    i,
                    i + token.len(),
                )[j] == token[j] by {
                    assert(token[j] == long[i + j]);
                }
                assert(text.subrange(i, i + token.len()) =~= token);
                assert(occurs_at(text, token, i));
            } else {
                let len = text.len() - i;
                assert forall|j: int| 0 <= j < len implies token.take(len)[j] == text.skip(i)[j] by {
                    assert(token[j] == long[i + j]);
                }
                assert(token.take(len) =~= text.skip(text.len() - len));
            }
        }
    }
}

/// A step that takes something from the buffer is the same step when more came.
proof fn lemma_step_stays(p: Place, more: Seq<char>, tools: Seq<ToolView>)
    requires
        place_step(p, tools).again,
    ensures
        place_step(with_more(p, more), tools) == (Walk {
            place: with_more(place_step(p, tools).place, more),
            ..place_step(p, tools)
        }),
        place_step(p, tools).place.buffer == p.buffer.skip(
            p.buffer.len() - place_step(p, tools).place.buffer.len(),
        ),
{
    let b = p.buffer;
    let long = b + more;
    let v = place_step(p, tools);
    let w = place_step(with_more(p, more), tools);
    if !p.in_call {
        let token = "<tool_call>"@;
        lemma_find_stable(b, more, token, 0);
        lemma_find_spec(b, token, 0);
        let at = find_spec(b, token, 0)->0;
        assert(long.skip(at + token.len()) =~= b.skip(at + token.len()) + more);
    } else if !p.name_sent {
        let open = "<function="@;
        lemma_next_tag_stable(b, more, open, 0);
        lemma_next_tag(b, open, 0);
        let (at, end) = next_tag(b, open, 0)->0;
        assert(long.subrange(at + open.len(), end) =~= b.subrange(at + open.len(), end));
        assert(long.skip(end + 1) =~= b.skip(end + 1) + more);
    } else {
        let token = "</tool_call>"@;
        lemma_find_stable(b, more, token, 0);
        lemma_find_spec(b, token, 0);
        let at = find_spec(b, token, 0)->0;
        assert(long.skip(at + token.len()) =~= b.skip(at + token.len()) + more);
    }
    assert(w =~= Walk { place: with_more(v.place, more), ..v });
}

proof fn lemma_chunks_walk(
    chunks: Seq<Seq<char>>,
    tools: Seq<ToolView>,
    numbers: spec_fn(Seq<char>) -> Option<Seq<char>>,
)
    requires
        all_declared(joined(chunks), tools),
    ensures
        ({
            let all = streamed_all(fresh(), chunks, tools, numbers);
            let whole = place_run(with_more(place_of(fresh()), joined(chunks)), tools);
            &&& named(all.calls) == whole.names
            &&& same_course(place_of(all.state), whole.place)
        }),
    decreases chunks.len(),
{
    let start = place_of(fresh());
    let all = streamed_all(fresh(), chunks, tools, numbers);
    let whole = place_run(with_more(start, joined(chunks)), tools);
    if chunks.len() == 0 {
        reveal_strlit("<tool_call>");
        assert(with_more(start, joined(chunks)) =~= start);
        lemma_find_spec(start.buffer, "<tool_call>"@, 0);
        assert(find_spec(start.buffer, "<tool_call>"@, 0) is None);
        assert(!ends_partially(start.buffer, "<tool_call>"@));
        assert(whole.place =~= start);
        lemma_same_place(start);
        assert(named(all.calls) =~= whole.names);
    } else {
        let init = chunks.drop_last();
        let chunk = chunks.last();
        lemma_declared_in_part(joined(init), chunk, 0, tools);
        lemma_chunks_walk(init, tools, numbers);
        let before = streamed_all(fresh(), init, tools, numbers);
        let p = place_of(before.state);
        let before_whole = place_run(with_more(start, joined(init)), tools);
        let q = before_whole.place;
        lemma_same_course_with_more(p, q, chunk);
        lemma_same_run(with_more(p, chunk), with_more(q, chunk), tools);
        assert(with_more(start, joined(init)).buffer =~= joined(init));
        lemma_cut(with_more(start, joined(init)), chunk, tools);
        assert(with_more(with_more(start, joined(init)), chunk) =~= with_more(
            start,
            joined(chunks),
        ));
        let s = StreamView { buffer: before.state.buffer + chunk, ..before.state };
        lemma_run_walks(s, tools, numbers);
        assert(place_of(s) == with_more(p, chunk));
        lemma_named_add(before.calls, run(s, tools, numbers).calls);
        lemma_same_course_transitive(
            place_run(with_more(p, chunk), tools).place,
            place_run(with_more(q, chunk), tools).place,
            whole.place,
        );
    }
}

/// The index of the next call to begin.
spec fn next_index(p: Place) -> nat {
    if p.in_call && p.name_sent {
        p.tool + 1
    } else {
        p.tool
    }
}

proof fn lemma_indices(p: Place, tools: Seq<ToolView>)
    ensures
        next_index(place_run(p, tools).place) == next_index(p) + place_run(p, tools).names.len(),
        forall|i: int|
            0 <= i < place_run(p, tools).names.len() ==> (#[trigger] place_run(p, tools).names[i]).0
                == next_index(p) + i,
    decreases p.buffer.len(),
{
    let w = place_step(p, tools);
    if w.again && w.place.buffer.len() < p.buffer.len() {
        lemma_indices(w.place, tools);
        let rest = place_run(w.place, tools);
        let names = place_run(p, tools).names;
        assert forall|i: int| 0 <= i < names.len() implies (#[trigger] names[i]).0 == next_index(p)
            + i by {
            if i >= w.names.len() {
                assert(names[i] == rest.names[i - w.names.len()]);
            }
        }
    }
}

/// However a text is cut into chunks, the same calls begin: their names and indices
/// are those of the text in one piece, and the indices count from zero. Every
/// function that the text declares has to be one of the tools.
pub proof fn law_calls_do_not_depend_on_the_cut(
    chunks: Seq<Seq<char>>,
    tools: Seq<ToolView>,
    numbers: spec_fn(Seq<char>) -> Option<Seq<char>>,
)
    requires
        all_declared(joined(chunks), tools),
    ensures
        named(streamed_all(fresh(), chunks, tools, numbers).calls) == named(
            streamed(fresh(), joined(chunks), tools, numbers).calls,
        ),
        forall|i: int|
            0 <= i < named(streamed_all(fresh(), chunks, tools, numbers).calls).len() ==> (
            #[trigger] named(streamed_all(fresh(), chunks, tools, numbers).calls)[i]).0 == i,
{
    let start = place_of(fresh());
    let s = StreamView { buffer: fresh().buffer + joined(chunks), ..fresh() };
    lemma_chunks_walk(chunks, tools, numbers);
    lemma_run_walks(s, tools, numbers);
    assert(place_of(s) == with_more(start, joined(chunks)));
    lemma_indices(with_more(start, joined(chunks)), tools);
}

} // verus!
