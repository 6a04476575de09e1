//! The parameters of a call, by key.
use super::json::{
    coerce_value, infer_value, is_same_value, quote, quoted, same_value, value_read, NumberReader,
};
use super::markup::{raw_params_view, RawParam, RawParamView};
use super::types::{declared_type, find_type, tools_view, Tool, ToolView};
use crate::text::{lemma_str_before_total_order, str_before, str_eq, str_less};
use vstd::prelude::*;

verus! {

/// A parameter and its value, as JSON text.
#[derive(Debug)]
pub struct Param {
    pub key: String,
    pub json: String,
}

/// What a parameter says.
#[verifier::ext_equal]
pub struct ParamView {
    pub key: Seq<char>,
    pub json: Seq<char>,
}

impl View for Param {
    type V = ParamView;

    open spec fn view(&self) -> ParamView {
        ParamView { key: self.key@, json: self.json@ }
    }
}

/// What parameters say.
pub open spec fn params_view(params: Seq<Param>) -> Seq<ParamView> {
    params.map_values(|p: Param| p@)
}

/// The parameters stand in the order of their keys, each once.
pub open spec fn in_order(params: Seq<ParamView>) -> bool {
    forall|i: int, j: int|
        0 <= i < j < params.len() ==> str_before(
            (#[trigger] params[i]).key,
            (#[trigger] params[j]).key,
        )
}

/// The parameters with one set. Where the key is there, its value is replaced.
pub open spec fn with_param(params: Seq<ParamView>, p: ParamView) -> Seq<ParamView>
    decreases params.len(),
{
    if params.len() == 0 {
        seq![p]
    } else if params.last().key == p.key {
        params.drop_last().push(p)
    } else if str_before(params.last().key, p.key) {
        params.push(p)
    } else {
        with_param(params.drop_last(), p).push(params.last())
    }
}

/// Some parameter has the key.
pub open spec fn has_key(params: Seq<ParamView>, key: Seq<char>) -> bool {
    exists|i: int| 0 <= i < params.len() && (#[trigger] params[i]).key == key
}

/// Setting a parameter keeps the order, and adds no key but its own.
pub proof fn lemma_with_param(params: Seq<ParamView>, p: ParamView)
    requires
        in_order(params),
    ensures
        in_order(with_param(params, p)),
        with_param(params, p).contains(p),
        forall|k: Seq<char>| #[trigger]
            has_key(with_param(params, p), k) <==> (has_key(params, k) || k == p.key),
        forall|q: ParamView| #[trigger]
            with_param(params, p).contains(q) <==> q == p || (params.contains(q) && q.key
                != p.key),
    decreases params.len(),
{
    let r = with_param(params, p);
    if params.len() == 0 {
        assert(r[0] == p);
        assert forall|k: Seq<char>| has_key(r, k) <==> (has_key(params, k) || k == p.key) by {
            if k == p.key {
                assert(r[0].key == k);
            }
        }
    } else {
        let init = params.drop_last();
        let last = params.last();
        lemma_str_before_total_order(last.key, p.key, p.key);
        if last.key == p.key {
            assert(r.last() == p);
            lemma_pushed(init, p);
            lemma_pushed(init, last);
            assert(init.push(last) =~= params);
            assert forall|q: ParamView| init.contains(q) implies q.key != p.key by {
                let i = choose|i: int| 0 <= i < init.len() && init[i] == q;
                assert(str_before(params[i].key, params[params.len() - 1].key));
                lemma_str_before_total_order(params[i].key, p.key, p.key);
            }
        } else if str_before(last.key, p.key) {
            assert(r.last() == p);
            lemma_pushed(params, p);
            assert forall|i: int| 0 <= i < params.len() implies str_before(
                (#[trigger] params[i]).key,
                p.key,
            ) by {
                if i < params.len() - 1 {
                    assert(str_before(params[i].key, params[params.len() - 1].key));
                    lemma_str_before_total_order(params[i].key, last.key, p.key);
                }
            }
            assert forall|q: ParamView| params.contains(q) implies q.key != p.key by {
                let i = choose|i: int| 0 <= i < params.len() && params[i] == q;
                lemma_str_before_total_order(params[i].key, p.key, p.key);
            }
        } else {
            lemma_with_param(init, p);
            let mid = with_param(init, p);
            lemma_pushed(mid, last);
            lemma_pushed(init, last);
            assert(init.push(last) =~= params);
            assert forall|i: int| 0 <= i < mid.len() implies str_before(
                (#[trigger] mid[i]).key,
                last.key,
            ) by {
                assert(mid.contains(mid[i]));
                if mid[i] != p {
                    let j = choose|j: int| 0 <= j < init.len() && init[j] == mid[i];
                    assert(str_before(params[j].key, params[params.len() - 1].key));
                }
            }
        }
    }
}

proof fn lemma_pushed(params: Seq<ParamView>, p: ParamView)
    ensures
        forall|q: ParamView| #[trigger]
            params.push(p).contains(q) <==> params.contains(q) || q == p,
        forall|k: Seq<char>| #[trigger]
            has_key(params.push(p), k) <==> has_key(params, k) || k == p.key,
{
    let r = params.push(p);
    assert(r[params.len() as int] == p);
    assert forall|q: ParamView| r.contains(q) <==> params.contains(q) || q == p by {
        if params.contains(q) {
            let i = choose|i: int| 0 <= i < params.len() && params[i] == q;
            assert(r[i] == q);
        }
        if r.contains(q) && q != p {
            let i = choose|i: int| 0 <= i < r.len() && r[i] == q;
            assert(params[i] == q);
        }
    }
    assert forall|k: Seq<char>| has_key(r, k) <==> has_key(params, k) || k == p.key by {
        if has_key(params, k) {
            let i = choose|i: int| 0 <= i < params.len() && (#[trigger] params[i]).key == k;
            assert(r[i].key == k);
        }
        if k == p.key {
            assert(r[params.len() as int].key == k);
        }
        if has_key(r, k) && k != p.key {
            let i = choose|i: int| 0 <= i < r.len() && (#[trigger] r[i]).key == k;
            assert(params[i].key == k);
        }
    }
}

/// A copy of a parameter.
pub fn copy_param(p: &Param) -> (r: Param)
    ensures
        r@ == p@,
{
    Param { key: p.key.clone(), json: p.json.clone() }
}

/// A copy of parameters.
pub fn copy_params(params: &Vec<Param>) -> (r: Vec<Param>)
    ensures
        params_view(r@) == params_view(params@),
{
    let mut out: Vec<Param> = Vec::new();
    let n = params.len();
    for i in 0..n
        invariant
            n == params@.len(),
            params_view(out@) == params_view(params@).take(i as int),
    {
        let p = copy_param(&params[i]);
        assert(params_view(out@.push(p)) =~= params_view(out@).push(p@));
        assert(params_view(params@).take(i + 1) =~= params_view(params@).take(i as int).push(p@));
        out.push(p);
    }
    assert(params_view(params@).take(n as int) =~= params_view(params@));
    out
}

/// Set a parameter. See [`with_param`].
pub fn set_param(params: &mut Vec<Param>, p: Param)
    ensures
        params_view(final(params)@) == with_param(params_view(old(params)@), p@),
{
    let ghost before = params_view(params@);
    let mut at: usize = params.len();
    assert(before.take(at as int) =~= before);
    assert(before.skip(at as int) =~= Seq::<ParamView>::empty());
    assert(with_param(before, p@) =~= with_param(before.take(at as int), p@) + before.skip(
        at as int,
    ));
    while at > 0
        invariant
            at <= params@.len(),
            before == params_view(params@),
            params@ == old(params)@,
            with_param(before, p@) == with_param(before.take(at as int), p@) + before.skip(
                at as int,
            ),
        ensures
            at == 0 || (params@[at - 1].key@ != p.key@ && str_before(
                params@[at - 1].key@,
                p.key@,
            )),
        decreases at,
    {
        let ghost head = before.take(at as int);
        proof {
            assert(head.last() == params@[at - 1]@);
            assert(head.drop_last() =~= before.take(at - 1));
        }
        if str_eq(params[at - 1].key.as_str(), p.key.as_str()) {
            let ghost view = p@;
            params.set(at - 1, p);
            proof {
                assert(params_view(params@) =~= before.update(at - 1, view));
                assert(before.update(at - 1, view) =~= before.take(at - 1).push(view) + before.skip(
                    at as int,
                ));
            }
            return;
        }
        if str_less(params[at - 1].key.as_str(), p.key.as_str()) {
            break;
        }
        proof {
            assert(with_param(head, p@) =~= with_param(before.take(at - 1), p@).push(head.last()));
            assert(with_param(before.take(at - 1), p@).push(head.last()) + before.skip(at as int)
                =~= with_param(before.take(at - 1), p@) + before.skip(at - 1));
        }
        at = at - 1;
    }
    proof {
        let head = before.take(at as int);
        assert(with_param(head, p@) =~= head.push(p@)) by {
            if at > 0 {
                assert(head.last() == params@[at - 1]@);
            }
        }
    }
    let ghost view = p@;
    params.insert(at, p);
    proof {
        assert(params_view(params@) =~= before.insert(at as int, view));
        assert(before.insert(at as int, view) =~= before.take(at as int).push(view) + before.skip(
            at as int,
        ));
    }
}

/// Whether some parameter has the key.
pub fn contains_key(params: &Vec<Param>, key: &str) -> (r: bool)
    ensures
        r == has_key(params_view(params@), key@),
{
    let n = params.len();
    for i in 0..n
        invariant
            n == params@.len(),
            forall|j: int| 0 <= j < i ==> (#[trigger] params_view(params@)[j]).key != key@,
    {
        assert(params_view(params@)[i as int] == params@[i as int]@);
        if str_eq(params[i].key.as_str(), key) {
            return true;
        }
    }
    false
}

/// Two sets of parameters are equal: they have the same keys with the same values.
pub open spec fn same_values(a: Seq<ParamView>, b: Seq<ParamView>) -> bool {
    &&& a.len() == b.len()
    &&& forall|i: int|
        0 <= i < a.len() ==> (#[trigger] a[i]).key == b[i].key && same_value(a[i].json, b[i].json)
}

/// Whether two sets of parameters are equal. See [`same_values`].
pub fn same_params(a: &Vec<Param>, b: &Vec<Param>) -> (r: bool)
    ensures
        r == same_values(params_view(a@), params_view(b@)),
{
    let ghost x = params_view(a@);
    let ghost y = params_view(b@);
    if a.len() != b.len() {
        assert(x.len() != y.len());
        return false;
    }
    let n = a.len();
    for i in 0..n
        invariant
            n == a@.len(),
            n == b@.len(),
            x == params_view(a@),
            y == params_view(b@),
            forall|j: int|
                0 <= j < i ==> (#[trigger] x[j]).key == y[j].key && same_value(x[j].json, y[j].json),
    {
        assert(x[i as int] == a@[i as int]@);
        assert(y[i as int] == b@[i as int]@);
        if !str_eq(a[i].key.as_str(), b[i].key.as_str()) || !is_same_value(
            a[i].json.as_str(),
            b[i].json.as_str(),
        ) {
            return false;
        }
    }
    true
}

/// The parameters of a call of `function`, from what is written: each is read by
/// its declared type, and of two with one key the later stays.
pub open spec fn params_read(
    raw: Seq<RawParamView>,
    tools: Seq<ToolView>,
    function: Seq<char>,
    numbers: spec_fn(Seq<char>) -> Option<Seq<char>>,
) -> Seq<ParamView>
    decreases raw.len(),
{
    if raw.len() == 0 {
        Seq::empty()
    } else {
        let p = raw.last();
        with_param(
            params_read(raw.drop_last(), tools, function, numbers),
            ParamView {
                key: p.key,
                json: value_read(p.value, declared_type(tools, function, p.key), numbers),
            },
        )
    }
}

/// The parameters of a call stand in the order of their keys, each once, and
/// their keys are those that are written.
pub proof fn law_params_by_key(
    raw: Seq<RawParamView>,
    tools: Seq<ToolView>,
    function: Seq<char>,
    numbers: spec_fn(Seq<char>) -> Option<Seq<char>>,
)
    ensures
        in_order(params_read(raw, tools, function, numbers)),
        forall|k: Seq<char>|
            has_key(params_read(raw, tools, function, numbers), k) <==> exists|i: int|
                0 <= i < raw.len() && (#[trigger] raw[i]).key == k,
    decreases raw.len(),
{
    if raw.len() > 0 {
        let init = raw.drop_last();
        law_params_by_key(init, tools, function, numbers);
        let before = params_read(init, tools, function, numbers);
        let p = ParamView {
            key: raw.last().key,
            json: value_read(
                raw.last().value,
                declared_type(tools, function, raw.last().key),
                numbers,
            ),
        };
        lemma_with_param(before, p);
        assert forall|k: Seq<char>|
            has_key(params_read(raw, tools, function, numbers), k) <==> exists|i: int|
                0 <= i < raw.len() && (#[trigger] raw[i]).key == k by {
            if has_key(before, k) {
                let i = choose|i: int| 0 <= i < init.len() && (#[trigger] init[i]).key == k;
                assert(raw[i].key == k);
            }
            if k == raw.last().key {
                assert(raw[raw.len() - 1].key == k);
            }
            if exists|i: int| 0 <= i < raw.len() && (#[trigger] raw[i]).key == k {
                let i = choose|i: int| 0 <= i < raw.len() && (#[trigger] raw[i]).key == k;
                if i < init.len() {
                    assert(init[i].key == k);
                }
            }
        }
    }
}

/// Read the parameters of a call. See [`params_read`].
pub fn read_params<F: Fn(&str) -> Option<String>>(
    raw: &Vec<RawParam>,
    tools: &[Tool],
    function: &str,
    numbers: &NumberReader<F>,
) -> (r: Vec<Param>)
    requires
        numbers.wf(),
    ensures
        params_view(r@) == params_read(
            raw_params_view(raw@),
            tools_view(tools@),
            function@,
            numbers.reading(),
        ),
{
    let ghost all = raw_params_view(raw@);
    let ghost model = numbers.reading();
    let mut out: Vec<Param> = Vec::new();
    let n = raw.len();
    assert(params_view(out@) =~= Seq::<ParamView>::empty());
    for i in 0..n
        invariant
            n == raw@.len(),
            all == raw_params_view(raw@),
            numbers.wf(),
            model == numbers.reading(),
            params_view(out@) == params_read(
                all.take(i as int),
                tools_view(tools@),
                function@,
                model,
            ),
    {
        proof {
            assert(all.take(i + 1).drop_last() =~= all.take(i as int));
            assert(all.take(i + 1).last() == raw@[i as int]@);
        }
        let p = &raw[i];
        let declared = find_type(tools, function, p.key.as_str());
        let json = match coerce_value(p.value.as_str(), declared, numbers) {
            Some(json) => json,
            None => infer_value(p.value.as_str()),
        };
        set_param(&mut out, Param { key: p.key.clone(), json });
    }
    assert(all.take(n as int) =~= all);
    out
}

/// Parameters as members of a JSON object, with `colon` after each key and
/// `comma` between them.
pub open spec fn members(params: Seq<ParamView>, colon: Seq<char>, comma: Seq<char>) -> Seq<char>
    decreases params.len(),
{
    if params.len() == 0 {
        Seq::empty()
    } else {
        let member = quoted(params.last().key) + colon + params.last().json;
        if params.len() == 1 {
            member
        } else {
            members(params.drop_last(), colon, comma) + comma + member
        }
    }
}

/// Parameters as members of a JSON object.
pub fn write_members(params: &Vec<Param>, colon: &str, comma: &str) -> (r: String)
    ensures
        r@ == members(params_view(params@), colon@, comma@),
{
    let ghost all = params_view(params@);
    let mut out = String::new();
    let n = params.len();
    for i in 0..n
        invariant
            n == params@.len(),
            all == params_view(params@),
            out@ == members(all.take(i as int), colon@, comma@),
    {
        proof {
            assert(all.take(i + 1).drop_last() =~= all.take(i as int));
            assert(all.take(i + 1).last() == params@[i as int]@);
        }
        let ghost before = out@;
        if i > 0 {
            out.append(comma);
        }
        let key = quote(params[i].key.as_str());
        out.append(key.as_str());
        out.append(colon);
        out.append(params[i].json.as_str());
        proof {
            let member = key@ + colon@ + params@[i as int].json@;
            if i > 0 {
                assert(out@ =~= before + comma@ + member);
            } else {
                assert(out@ =~= member);
            }
        }
    }
    assert(all.take(n as int) =~= all);
    out
}

/// Parameters as a JSON object.
pub open spec fn object(params: Seq<ParamView>) -> Seq<char> {
    "{"@ + members(params, ":"@, ","@) + "}"@
}

/// Parameters as a JSON object.
pub fn write_object(params: &Vec<Param>) -> (r: String)
    ensures
        r@ == object(params_view(params@)),
{
    let mut out = "{".to_owned();
    let body = write_members(params, ":", ",");
    out.append(body.as_str());
    out.append("}");
    out
}

/// The parameters whose key is not among those of `known`.
pub open spec fn unknown_params(params: Seq<ParamView>, known: Seq<ParamView>) -> Seq<ParamView>
    decreases params.len(),
{
    if params.len() == 0 {
        Seq::empty()
    } else {
        let rest = unknown_params(params.drop_last(), known);
        if has_key(known, params.last().key) {
            rest
        } else {
            rest.push(params.last())
        }
    }
}

/// The parameters whose key is not among those of `known`.
pub fn find_unknown(params: &Vec<Param>, known: &Vec<Param>) -> (r: Vec<Param>)
    ensures
        params_view(r@) == unknown_params(params_view(params@), params_view(known@)),
{
    let ghost all = params_view(params@);
    let mut out: Vec<Param> = Vec::new();
    let n = params.len();
    assert(params_view(out@) =~= Seq::<ParamView>::empty());
    for i in 0..n
        invariant
            n == params@.len(),
            all == params_view(params@),
            params_view(out@) == unknown_params(all.take(i as int), params_view(known@)),
    {
        proof {
            assert(all.take(i + 1).drop_last() =~= all.take(i as int));
            assert(all.take(i + 1).last() == params@[i as int]@);
        }
        if !contains_key(known, params[i].key.as_str()) {
            let p = copy_param(&params[i]);
            assert(params_view(out@.push(p)) =~= params_view(out@).push(p@));
            out.push(p);
        }
    }
    assert(all.take(n as int) =~= all);
    out
}

} // verus!
