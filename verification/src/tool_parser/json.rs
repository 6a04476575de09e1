//! Values of parameters, as JSON text.
//!
//! A value is held as the compact JSON text that stands for it.
use crate::text::{
    chars_of, concat, decimal, decimal_spec, eq_ignoring_case, has_prefix, lower_string, lower_text,
    occurs_at, opt_text, same_ignoring_case, str_eq, str_has_prefix, token_at, trim_spec,
    trim_string,
};
use vstd::prelude::*;

verus! {

/// The hexadecimal digit for a value below sixteen.
pub open spec fn hex_char(d: int) -> char {
    if d < 10 {
        ((48 + d) as u8) as char
    } else {
        ((87 + d) as u8) as char
    }
}

/// How a character is spelled inside a JSON string.
pub open spec fn escaped(c: char) -> Seq<char> {
    let v = c as u32 as int;
    if c == '"' || c == '\\' {
        seq!['\\', c]
    } else if v >= 0x20 {
        seq![c]
    } else if v == 0x08 {
        seq!['\\', 'b']
    } else if v == 0x09 {
        seq!['\\', 't']
    } else if v == 0x0A {
        seq!['\\', 'n']
    } else if v == 0x0C {
        seq!['\\', 'f']
    } else if v == 0x0D {
        seq!['\\', 'r']
    } else {
        seq!['\\', 'u', '0', '0', hex_char(v / 16), hex_char(v % 16)]
    }
}

/// How characters are spelled inside a JSON string.
pub open spec fn escaped_text(text: Seq<char>) -> Seq<char>
    decreases text.len(),
{
    if text.len() == 0 {
        Seq::empty()
    } else {
        escaped_text(text.drop_last()) + escaped(text.last())
    }
}

/// The JSON string that holds a text.
pub open spec fn quoted(text: Seq<char>) -> Seq<char> {
    seq!['"'] + escaped_text(text) + seq!['"']
}

/// What `serde_json` reads a JSON text as, in the compact form in which it writes
/// it: `None` where the text is not JSON.
pub uninterp spec fn json_reading(text: Seq<char>) -> Option<Seq<char>>;

/// `serde_json::from_str` into a `Value`, and the compact form in which the value
/// is displayed. Both depend on the text alone.
#[verifier::external_body]
fn read_json(text: &str) -> (r: Option<String>)
    ensures
        opt_text(r) == json_reading(text@),
{
    match serde_json::from_str::<serde_json::Value>(text) {
        Ok(value) => Some(value.to_string()),
        Err(_) => None,
    }
}

/// A `serde_json::Value::String` is displayed as a JSON string: between quotes,
/// with quotes, backslashes and control characters escaped.
#[verifier::external_body]
pub(crate) fn quote(text: &str) -> (r: String)
    ensures
        r@ == quoted(text@),
{
    serde_json::Value::String(text.to_owned()).to_string()
}

/// The JSON string that holds a text starts and ends with a quote, so it is never
/// taken for another kind of value.
pub proof fn law_quoted_is_a_string(text: Seq<char>)
    ensures
        quoted(text).len() >= 2,
        quoted(text).first() == '"',
        quoted(text).last() == '"',
{
}

/// The value of a sequence of decimal digits.
pub open spec fn digits_value(text: Seq<char>) -> Option<nat>
    decreases text.len(),
{
    if text.len() == 0 {
        Some(0)
    } else if '0' <= text.last() <= '9' {
        match digits_value(text.drop_last()) {
            Some(v) => Some(v * 10 + (text.last() as u32 - 48) as nat),
            None => None,
        }
    } else {
        None
    }
}

/// The integer that a text spells: an optional sign and at least one digit.
pub open spec fn integer_value(text: Seq<char>) -> Option<int> {
    let signed = text.len() > 0 && (text[0] == '-' || text[0] == '+');
    let digits = if signed {
        text.drop_first()
    } else {
        text
    };
    if digits.len() == 0 {
        None
    } else {
        match digits_value(digits) {
            Some(v) => Some(
                if text[0] == '-' {
                    -(v as int)
                } else {
                    v as int
                },
            ),
            None => None,
        }
    }
}

/// The integer that a text spells, where it fits in 64 bits.
pub open spec fn integer_read(text: Seq<char>) -> Option<int> {
    match integer_value(text) {
        Some(v) => if i64::MIN <= v <= i64::MAX {
            Some(v)
        } else {
            None
        },
        None => None,
    }
}

/// The decimal spelling of an integer.
pub open spec fn integer_text(v: int) -> Seq<char> {
    if v < 0 {
        seq!['-'] + decimal_spec((-v) as nat)
    } else {
        decimal_spec(v as nat)
    }
}

proof fn lemma_digits_grow(text: Seq<char>, m: int)
    requires
        0 <= m <= text.len(),
    ensures
        digits_value(text) is Some ==> digits_value(text.take(m)) is Some && digits_value(
            text.take(m),
        )->0 <= digits_value(text)->0,
    decreases text.len() - m,
{
    if m < text.len() {
        lemma_digits_grow(text, m + 1);
        assert(text.take(m + 1).drop_last() =~= text.take(m));
    } else {
        assert(text.take(m) =~= text);
    }
}

/// The JSON text of the integer that `text` spells, where it fits in 64 bits.
pub fn read_integer(text: &str) -> (r: Option<String>)
    ensures
        opt_text(r) == (match integer_read(text@) {
            Some(v) => Some(integer_text(v)),
            None => None,
        }),
{
    let chars = chars_of(text);
    let n = chars.len();
    let negative = n > 0 && chars[0] == '-';
    let signed = negative || (n > 0 && chars[0] == '+');
    let from: usize = if signed {
        1
    } else {
        0
    };
    if from == n {
        return None;
    }
    let ghost digits = text@.skip(from as int);
    let limit: u64 = if negative {
        9_223_372_036_854_775_808
    } else {
        9_223_372_036_854_775_807
    };
    assert(digits == if signed {
        text@.drop_first()
    } else {
        text@
    });
    let mut value: u64 = 0;
    let mut i: usize = from;
    assert(digits.take(0) =~= Seq::<char>::empty());
    while i < n
        invariant
            from <= i <= n == chars@.len(),
            chars@ == text@,
            digits == text@.skip(from as int),
            digits_value(digits.take(i - from)) == Some(value as nat),
            value <= limit <= 9_223_372_036_854_775_808,
            limit == (if negative {
                9_223_372_036_854_775_808u64
            } else {
                9_223_372_036_854_775_807u64
            }),
            negative == (n > 0 && chars@[0] == '-'),
            from < n,
            from == (if negative || chars@[0] == '+' {
                1usize
            } else {
                0usize
            }),
            digits == (if from == 1 {
                text@.drop_first()
            } else {
                text@
            }),
        decreases n - i,
    {
        let c = chars[i];
        proof {
            assert(digits.take(i - from + 1).drop_last() =~= digits.take(i - from));
            assert(digits.take(i - from + 1).last() == c);
            lemma_digits_grow(digits, i - from + 1);
        }
        if c < '0' || c > '9' {
            return None;
        }
        let d: u64 = (c as u32 - 48) as u64;
        let next: u128 = value as u128 * 10 + d as u128;
        if next > limit as u128 {
            return None;
        }
        value = next as u64;
        i = i + 1;
    }
    assert(digits.take(n - from) =~= digits);
    let spelled = decimal(value);
    if negative && value > 0 {
        let r = concat("-", spelled.as_str());
        proof {
            reveal_strlit("-");
            assert(r@ =~= seq!['-'] + spelled@);
        }
        Some(r)
    } else {
        Some(spelled)
    }
}

/// A reading of numbers with a fraction or an exponent: the JSON text of the
/// number that a text spells, or `None` where it spells none.
pub open spec fn reads_as<F: Fn(&str) -> Option<String>>(
    read: F,
    reading: spec_fn(Seq<char>) -> Option<Seq<char>>,
) -> bool {
    &&& forall|text: &str| call_requires(read, (text,))
    &&& forall|text: &str, r: Option<String>| #[trigger]
        call_ensures(read, (text,), r) ==> opt_text(r) == reading(text@)
}

/// Someone who reads numbers with a fraction or an exponent.
pub struct NumberReader<F: Fn(&str) -> Option<String>> {
    read: F,
    reading: Ghost<spec_fn(Seq<char>) -> Option<Seq<char>>>,
}

impl<F: Fn(&str) -> Option<String>> NumberReader<F> {
    /// The JSON text of the number that a text spells, or `None` where it spells
    /// none.
    pub closed spec fn reading(&self) -> spec_fn(Seq<char>) -> Option<Seq<char>> {
        self.reading@
    }

    /// The function behind the reader.
    pub closed spec fn source(&self) -> F {
        self.read
    }

    /// The function behind the reader does what it says.
    pub closed spec fn wf(&self) -> bool {
        reads_as(self.read, self.reading@)
    }

    /// A reader over a function whose result depends on the text alone.
    pub fn new(read: F) -> (r: Self)
        requires
            exists|reading: spec_fn(Seq<char>) -> Option<Seq<char>>| reads_as(read, reading),
        ensures
            r.wf(),
            r.source() == read,
            reads_as(read, r.reading()),
    {
        let ghost reading = choose|reading: spec_fn(Seq<char>) -> Option<Seq<char>>|
            reads_as(read, reading);
        NumberReader { read, reading: Ghost(reading) }
    }

    /// Read a number.
    pub fn read_number(&self, text: &str) -> (r: Option<String>)
        requires
            self.wf(),
        ensures
            opt_text(r) == self.reading()(text@),
    {
        (self.read)(text)
    }
}

/// The kinds of value that declared types ask for.
#[derive(Debug, Clone, Copy, PartialEq, Eq, Structural)]
pub enum ValueKind {
    Text,
    Integer,
    Number,
    Boolean,
    Compound,
}

/// The kind that a declared type asks for. Letters outside ASCII that have a
/// small form in ASCII occur in none of the names.
pub open spec fn kind_of(declared: Seq<char>) -> ValueKind {
    let ty = lower_text(trim_spec(declared));
    if ty == "string"@ || ty == "str"@ || ty == "text"@ || ty == "varchar"@ || ty == "char"@ || ty
        == "enum"@ {
        ValueKind::Text
    } else if has_prefix(ty, "int"@) || has_prefix(ty, "uint"@) || has_prefix(ty, "long"@)
        || has_prefix(ty, "short"@) || has_prefix(ty, "unsigned"@) {
        ValueKind::Integer
    } else if has_prefix(ty, "num"@) || has_prefix(ty, "float"@) {
        ValueKind::Number
    } else if ty == "boolean"@ || ty == "bool"@ || ty == "binary"@ {
        ValueKind::Boolean
    } else if ty == "object"@ || ty == "array"@ || ty == "arr"@ || ty == "sequence"@ || has_prefix(
        ty,
        "dict"@,
    ) || has_prefix(ty, "list"@) {
        ValueKind::Compound
    } else {
        ValueKind::Text
    }
}

/// The kind that a declared type asks for.
pub fn declared_kind(declared: &str) -> (r: ValueKind)
    ensures
        r == kind_of(declared@),
{
    let trimmed = trim_string(declared);
    let lowered = lower_string(trimmed.as_str());
    let ty = lowered.as_str();
    if str_eq(ty, "string") || str_eq(ty, "str") || str_eq(ty, "text") || str_eq(ty, "varchar")
        || str_eq(ty, "char") || str_eq(ty, "enum") {
        ValueKind::Text
    } else if str_has_prefix(ty, "int") || str_has_prefix(ty, "uint") || str_has_prefix(ty, "long")
        || str_has_prefix(ty, "short") || str_has_prefix(ty, "unsigned") {
        ValueKind::Integer
    } else if str_has_prefix(ty, "num") || str_has_prefix(ty, "float") {
        ValueKind::Number
    } else if str_eq(ty, "boolean") || str_eq(ty, "bool") || str_eq(ty, "binary") {
        ValueKind::Boolean
    } else if str_eq(ty, "object") || str_eq(ty, "array") || str_eq(ty, "arr") || str_eq(
        ty,
        "sequence",
    ) || str_has_prefix(ty, "dict") || str_has_prefix(ty, "list") {
        ValueKind::Compound
    } else {
        ValueKind::Text
    }
}

/// The first of two optional texts that is there, or the JSON string of `raw`.
pub open spec fn or_quoted(value: Option<Seq<char>>, raw: Seq<char>) -> Seq<char> {
    match value {
        Some(v) => v,
        None => quoted(raw),
    }
}

/// What a raw value is read as where its kind is known. What cannot be read as
/// the kind stays text.
pub open spec fn read_as_kind(
    raw: Seq<char>,
    kind: ValueKind,
    numbers: spec_fn(Seq<char>) -> Option<Seq<char>>,
) -> Seq<char> {
    let trimmed = trim_spec(raw);
    match kind {
        ValueKind::Text => quoted(raw),
        ValueKind::Integer => or_quoted(
            match integer_read(trimmed) {
                Some(v) => Some(integer_text(v)),
                None => None,
            },
            raw,
        ),
        ValueKind::Number => or_quoted(numbers(trimmed), raw),
        ValueKind::Boolean => if same_ignoring_case(trimmed, "true"@) {
            "true"@
        } else {
            "false"@
        },
        ValueKind::Compound => or_quoted(json_reading(trimmed), raw),
    }
}

/// What a raw value is read as by its declared type. `null` is null whatever is
/// declared. Where nothing is declared, nothing else is read.
pub open spec fn coerced(
    raw: Seq<char>,
    declared: Option<Seq<char>>,
    numbers: spec_fn(Seq<char>) -> Option<Seq<char>>,
) -> Option<Seq<char>> {
    if same_ignoring_case(trim_spec(raw), "null"@) {
        Some("null"@)
    } else {
        match declared {
            Some(ty) => Some(read_as_kind(raw, kind_of(ty), numbers)),
            None => None,
        }
    }
}

/// Read a raw value by its declared type. See [`coerced`].
pub fn coerce_value<F: Fn(&str) -> Option<String>>(
    raw: &str,
    declared_type: Option<&str>,
    numbers: &NumberReader<F>,
) -> (r: Option<String>)
    requires
        numbers.wf(),
    ensures
        opt_text(r) == coerced(
            raw@,
            match declared_type {
                Some(ty) => Some(ty@),
                None => None,
            },
            numbers.reading(),
        ),
{
    let trimmed_text = trim_string(raw);
    let trimmed = trimmed_text.as_str();
    if eq_ignoring_case(trimmed, "null") {
        return Some("null".to_owned());
    }
    let declared = match declared_type {
        Some(ty) => ty,
        None => return None,
    };
    let read = match declared_kind(declared) {
        ValueKind::Text => None,
        ValueKind::Integer => read_integer(trimmed),
        ValueKind::Number => numbers.read_number(trimmed),
        ValueKind::Boolean => Some(
            if eq_ignoring_case(trimmed, "true") {
                "true".to_owned()
            } else {
                "false".to_owned()
            },
        ),
        ValueKind::Compound => read_json(trimmed),
    };
    match read {
        Some(value) => Some(value),
        None => Some(quote(raw)),
    }
}

/// What a raw value is read as where no type is declared: as JSON, as a literal
/// of Python, or as text without the white space around it.
pub open spec fn inferred(raw: Seq<char>) -> Seq<char> {
    inferred_from(trim_spec(raw), json_reading(trim_spec(raw)))
}

/// The same, given what the text is as JSON.
pub open spec fn inferred_from(trimmed: Seq<char>, json: Option<Seq<char>>) -> Seq<char> {
    match json {
        Some(value) => value,
        None => if trimmed == "True"@ {
            "true"@
        } else if trimmed == "False"@ {
            "false"@
        } else if trimmed == "None"@ || trimmed == "null"@ {
            "null"@
        } else {
            quoted(trimmed)
        },
    }
}

/// Read a raw value, given what it is as JSON.
pub fn infer_from(trimmed: &str, json: Option<String>) -> (r: String)
    ensures
        r@ == inferred_from(trimmed@, opt_text(json)),
{
    if let Some(value) = json {
        return value;
    }
    if str_eq(trimmed, "True") {
        "true".to_owned()
    } else if str_eq(trimmed, "False") {
        "false".to_owned()
    } else if str_eq(trimmed, "None") || str_eq(trimmed, "null") {
        "null".to_owned()
    } else {
        quote(trimmed)
    }
}

/// Read a raw value where no type is declared. See [`inferred`].
pub fn infer_value(raw: &str) -> (r: String)
    ensures
        r@ == inferred(raw@),
{
    let trimmed = trim_string(raw);
    let json = read_json(trimmed.as_str());
    infer_from(trimmed.as_str(), json)
}

/// What a raw value is read as: by the declared type if there is one, else as
/// what it looks like.
pub open spec fn value_read(
    raw: Seq<char>,
    declared: Option<Seq<char>>,
    numbers: spec_fn(Seq<char>) -> Option<Seq<char>>,
) -> Seq<char> {
    match coerced(raw, declared, numbers) {
        Some(value) => value,
        None => inferred(raw),
    }
}

/// Text that is declared to be text is kept as it stands, unless it spells
/// `null`.
pub proof fn law_text_is_kept(
    raw: Seq<char>,
    declared: Seq<char>,
    numbers: spec_fn(Seq<char>) -> Option<Seq<char>>,
)
    requires
        kind_of(declared) == ValueKind::Text,
        !same_ignoring_case(trim_spec(raw), "null"@),
    ensures
        value_read(raw, Some(declared), numbers) == quoted(raw),
{
}

/// `null` in any case is null, whatever is declared.
pub proof fn law_null_is_null(
    raw: Seq<char>,
    declared: Option<Seq<char>>,
    numbers: spec_fn(Seq<char>) -> Option<Seq<char>>,
)
    requires
        same_ignoring_case(trim_spec(raw), "null"@),
    ensures
        value_read(raw, declared, numbers) == "null"@,
{
}

// ---- When values are equal ----

/// A zero with a sign stands at a position, as a number of its own.
pub open spec fn signed_zero_at(json: Seq<char>, at: int) -> bool {
    &&& occurs_at(json, "-0.0"@, at)
    &&& at + 4 == json.len() || json[at + 4] == ',' || json[at + 4] == ']' || json[at + 4] == '}'
}

/// The text of a value from a position on, with zeros that have lost their sign.
/// Inside strings nothing changes.
pub open spec fn unsigned_zeros(json: Seq<char>, from: int, in_text: bool) -> Seq<char>
    decreases json.len() - from,
{
    if from < 0 || from >= json.len() {
        Seq::empty()
    } else if in_text && json[from] == '\\' && from + 1 < json.len() {
        seq![json[from], json[from + 1]] + unsigned_zeros(json, from + 2, true)
    } else if json[from] == '"' {
        seq![json[from]] + unsigned_zeros(json, from + 1, !in_text)
    } else if !in_text && signed_zero_at(json, from) {
        unsigned_zeros(json, from + 1, false)
    } else {
        seq![json[from]] + unsigned_zeros(json, from + 1, in_text)
    }
}

/// Two texts say the same value. A number is written in one way, but for zero,
/// which equals itself with either sign.
pub open spec fn same_value(a: Seq<char>, b: Seq<char>) -> bool {
    unsigned_zeros(a, 0, false) == unsigned_zeros(b, 0, false)
}

fn drop_zero_signs(json: &Vec<char>) -> (r: Vec<char>)
    ensures
        r@ == unsigned_zeros(json@, 0, false),
{
    let zero = chars_of("-0.0");
    let n = json.len();
    let mut out: Vec<char> = Vec::new();
    let mut from: usize = 0;
    let mut in_text = false;
    let ghost goal = unsigned_zeros(json@, 0, false);
    proof {
        reveal_strlit("-0.0");
        assert(out@ + goal =~= goal);
    }
    while from < n
        invariant
            n == json@.len(),
            from <= n,
            zero@ == "-0.0"@,
            zero@.len() == 4,
            goal == out@ + unsigned_zeros(json@, from as int, in_text),
        decreases n - from,
    {
        let c = json[from];
        let ghost done = out@;
        if in_text && c == '\\' && n - from > 1 {
            let d = json[from + 1];
            let ghost rest = unsigned_zeros(json@, from + 2, true);
            out.push(c);
            out.push(d);
            assert(done + (seq![c, d] + rest) =~= out@ + rest);
            from = from + 2;
        } else if c == '"' {
            let ghost rest = unsigned_zeros(json@, from + 1, !in_text);
            out.push(c);
            assert(done + (seq![c] + rest) =~= out@ + rest);
            in_text = !in_text;
            from = from + 1;
        } else {
            let signed = !in_text && token_at(json, &zero, from) && (n - from == 4 || json[from + 4]
                == ',' || json[from + 4] == ']' || json[from + 4] == '}');
            assert(signed == (!in_text && signed_zero_at(json@, from as int)));
            if !signed {
                let ghost rest = unsigned_zeros(json@, from + 1, in_text);
                out.push(c);
                assert(done + (seq![c] + rest) =~= out@ + rest);
            }
            from = from + 1;
        }
    }
    assert(out@ + Seq::<char>::empty() =~= out@);
    out
}

/// Whether two texts say the same value. See [`same_value`].
pub fn is_same_value(a: &str, b: &str) -> (r: bool)
    ensures
        r == same_value(a@, b@),
{
    let x = drop_zero_signs(&chars_of(a));
    let y = drop_zero_signs(&chars_of(b));
    if x.len() != y.len() {
        return false;
    }
    let n = x.len();
    for i in 0..n
        invariant
            n == x@.len(),
            n == y@.len(),
            x@ == unsigned_zeros(a@, 0, false),
            y@ == unsigned_zeros(b@, 0, false),
            forall|j: int| 0 <= j < i ==> x@[j] == y@[j],
    {
        if x[i] != y[i] {
            return false;
        }
    }
    assert(x@ =~= y@);
    true
}

} // verus!
