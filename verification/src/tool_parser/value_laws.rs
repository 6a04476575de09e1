//! What raw values are read as, kind by kind.
use super::json::{
    digits_value, escaped, escaped_text, integer_value, json_reading, kind_of, quoted, same_value,
    unsigned_zeros, value_read, ValueKind,
};
use crate::bundle_laws::hex_value;
use crate::text::{decimal_spec, has_prefix, lower, lower_text, same_ignoring_case, trim_spec};
use crate::text_laws::{
    all_digits, law_case_is_all_that_is_ignored, law_decimal_spells_the_number,
    law_occurrence_is_every_character, lemma_one_more_digit, place_value, same_letter, stands_at,
};
use vstd::prelude::*;

verus! {

/// A text is a word, whatever the case of its letters.
pub open spec fn is_word(text: Seq<char>, word: Seq<char>) -> bool {
    &&& text.len() == word.len()
    &&& forall|i: int| 0 <= i < word.len() ==> same_letter(text[i], #[trigger] word[i])
}

/// A text begins with a word, whatever the case of its letters.
pub open spec fn begins_with_word(text: Seq<char>, word: Seq<char>) -> bool {
    &&& text.len() >= word.len()
    &&& forall|i: int| 0 <= i < word.len() ==> same_letter(text[i], #[trigger] word[i])
}

/// A word of small letters.
spec fn small(word: Seq<char>) -> bool {
    forall|i: int| 0 <= i < word.len() ==> 97 <= (#[trigger] word[i]) as int <= 122
}

proof fn lemma_lowered(text: Seq<char>, word: Seq<char>)
    requires
        small(word),
    ensures
        lower_text(text) == word <==> is_word(text, word),
        has_prefix(lower_text(text), word) <==> begins_with_word(text, word),
{
    let low = lower_text(text);
    assert(low.len() == text.len());
    assert forall|i: int| 0 <= i < word.len() && i < text.len() implies (low[i] == word[i]
        <==> same_letter(text[i], #[trigger] word[i])) by {
        assert(low[i] == lower(text[i]));
        crate::text_laws::law_small_letters(text[i]);
        assert(97 <= word[i] as int <= 122);
    }
    if is_word(text, word) {
        assert(low =~= word);
    }
    if lower_text(text) == word {
        assert forall|i: int| 0 <= i < word.len() implies same_letter(text[i], #[trigger] word[i]) by {
            assert(low[i] == word[i]);
        }
    }
    law_occurrence_is_every_character(low, word, 0);
    if stands_at(low, word, 0) {
        assert forall|i: int| 0 <= i < word.len() implies same_letter(text[i], #[trigger] word[i]) by {
            assert(word[i] == low[0 + i]);
        }
    }
    if begins_with_word(text, word) {
        assert forall|i: int| 0 <= i < word.len() implies #[trigger] word[i] == low[0 + i] by {
            assert(same_letter(text[i], word[i]));
        }
    }
}

proof fn lemma_null(text: Seq<char>)
    ensures
        same_ignoring_case(text, "null"@) <==> is_word(text, "null"@),
        same_ignoring_case(text, "true"@) <==> is_word(text, "true"@),
{
    law_case_is_all_that_is_ignored(text, "null"@);
    law_case_is_all_that_is_ignored(text, "true"@);
    assert forall|w: Seq<char>| text.len() == w.len() implies ((forall|i: int|
        0 <= i < text.len() ==> same_letter(#[trigger] text[i], w[i])) <==> #[trigger] is_word(
        text,
        w,
    )) by {
        if is_word(text, w) {
            assert forall|i: int| 0 <= i < text.len() implies same_letter(
                #[trigger] text[i],
                w[i],
            ) by {
                assert(same_letter(text[i], w[i]));
            }
        }
    }
}

/// The value is not null: without the white space around it, it does not spell
/// `null`.
pub open spec fn is_no_null(raw: Seq<char>) -> bool {
    !is_word(trim_spec(raw), "null"@)
}

// ---- Kinds ----

/// Types are told by their names, in whatever case and with whatever white space
/// around them.
pub proof fn law_type_names(declared: Seq<char>)
    ensures
        ({
            let ty = trim_spec(declared);
            let compound = is_word(ty, "object"@) || is_word(ty, "array"@) || is_word(ty, "arr"@)
                || is_word(ty, "sequence"@) || begins_with_word(ty, "dict"@) || begins_with_word(
                ty,
                "list"@,
            );
            let boolean = is_word(ty, "boolean"@) || is_word(ty, "bool"@) || is_word(
                ty,
                "binary"@,
            );
            let number = begins_with_word(ty, "num"@) || begins_with_word(ty, "float"@);
            let integer = begins_with_word(ty, "int"@) || begins_with_word(ty, "uint"@)
                || begins_with_word(ty, "long"@) || begins_with_word(ty, "short"@)
                || begins_with_word(ty, "unsigned"@);
            &&& compound <==> kind_of(declared) == ValueKind::Compound
            &&& boolean <==> kind_of(declared) == ValueKind::Boolean
            &&& number <==> kind_of(declared) == ValueKind::Number
            &&& integer <==> kind_of(declared) == ValueKind::Integer
        }),
{
    reveal_strlit("string");
    reveal_strlit("str");
    reveal_strlit("text");
    reveal_strlit("varchar");
    reveal_strlit("char");
    reveal_strlit("enum");
    reveal_strlit("int");
    reveal_strlit("uint");
    reveal_strlit("long");
    reveal_strlit("short");
    reveal_strlit("unsigned");
    reveal_strlit("num");
    reveal_strlit("float");
    reveal_strlit("boolean");
    reveal_strlit("bool");
    reveal_strlit("binary");
    reveal_strlit("object");
    reveal_strlit("array");
    reveal_strlit("arr");
    reveal_strlit("sequence");
    reveal_strlit("dict");
    reveal_strlit("list");
    let ty = trim_spec(declared);
    lemma_lowered(ty, "string"@);
    lemma_lowered(ty, "str"@);
    lemma_lowered(ty, "text"@);
    lemma_lowered(ty, "varchar"@);
    lemma_lowered(ty, "char"@);
    lemma_lowered(ty, "enum"@);
    lemma_lowered(ty, "int"@);
    lemma_lowered(ty, "uint"@);
    lemma_lowered(ty, "long"@);
    lemma_lowered(ty, "short"@);
    lemma_lowered(ty, "unsigned"@);
    lemma_lowered(ty, "num"@);
    lemma_lowered(ty, "float"@);
    lemma_lowered(ty, "boolean"@);
    lemma_lowered(ty, "bool"@);
    lemma_lowered(ty, "binary"@);
    lemma_lowered(ty, "object"@);
    lemma_lowered(ty, "array"@);
    lemma_lowered(ty, "arr"@);
    lemma_lowered(ty, "sequence"@);
    lemma_lowered(ty, "dict"@);
    lemma_lowered(ty, "list"@);
    let low = lower_text(ty);
    assert forall|w: Seq<char>| #[trigger] has_prefix(low, w) && w.len() > 1 implies low.len()
        >= w.len() && low[0] == w[0] && low[1] == w[1] by {
        law_occurrence_is_every_character(low, w, 0);
        assert(w[0] == low[0int + 0]);
        assert(w[1] == low[0int + 1]);
    }
}

// ---- Values ----

/// What is declared to be compound is what the text says as JSON, whatever it begins
/// with. Only a text that is no JSON stays text.
pub proof fn law_compound_is_read_as_json(
    raw: Seq<char>,
    declared: Seq<char>,
    numbers: spec_fn(Seq<char>) -> Option<Seq<char>>,
)
    requires
        kind_of(declared) == ValueKind::Compound,
        is_no_null(raw),
    ensures
        json_reading(trim_spec(raw)) is Some ==> value_read(raw, Some(declared), numbers)
            == json_reading(trim_spec(raw))->0,
        json_reading(trim_spec(raw)) is None ==> value_read(raw, Some(declared), numbers) == quoted(
            raw,
        ),
{
    lemma_null(trim_spec(raw));
}

/// What is declared to be a number is what the reader of numbers makes of it. Only a
/// text that it does not read stays text.
pub proof fn law_number_is_read(
    raw: Seq<char>,
    declared: Seq<char>,
    numbers: spec_fn(Seq<char>) -> Option<Seq<char>>,
)
    requires
        kind_of(declared) == ValueKind::Number,
        is_no_null(raw),
    ensures
        numbers(trim_spec(raw)) is Some ==> value_read(raw, Some(declared), numbers) == numbers(
            trim_spec(raw),
        )->0,
        numbers(trim_spec(raw)) is None ==> value_read(raw, Some(declared), numbers) == quoted(raw),
{
    lemma_null(trim_spec(raw));
}

/// What is declared to be a truth value is true where the text is `true` in any case,
/// and else false.
pub proof fn law_boolean_is_true_or_false(
    raw: Seq<char>,
    declared: Seq<char>,
    numbers: spec_fn(Seq<char>) -> Option<Seq<char>>,
)
    requires
        kind_of(declared) == ValueKind::Boolean,
        is_no_null(raw),
    ensures
        is_word(trim_spec(raw), "true"@) ==> value_read(raw, Some(declared), numbers) == "true"@,
        !is_word(trim_spec(raw), "true"@) ==> value_read(raw, Some(declared), numbers) == "false"@,
{
    lemma_null(trim_spec(raw));
}

/// Text that is declared to be text stays as it stands, white space and all.
pub proof fn law_declared_text_stays(
    raw: Seq<char>,
    declared: Seq<char>,
    numbers: spec_fn(Seq<char>) -> Option<Seq<char>>,
)
    requires
        kind_of(declared) == ValueKind::Text,
        is_no_null(raw),
    ensures
        value_read(raw, Some(declared), numbers) == quoted(raw),
{
    lemma_null(trim_spec(raw));
}

/// `null`, in any case and with white space around it, is null, whatever is declared.
pub proof fn law_null_whatever_is_declared(
    raw: Seq<char>,
    declared: Option<Seq<char>>,
    numbers: spec_fn(Seq<char>) -> Option<Seq<char>>,
)
    requires
        is_word(trim_spec(raw), "null"@),
    ensures
        value_read(raw, declared, numbers) == "null"@,
{
    lemma_null(trim_spec(raw));
}

/// Where nothing is declared, a value is what it says as JSON, else a literal of
/// Python is what it stands for, and any other text stays text, without the white
/// space around it.
pub proof fn law_undeclared_value(
    raw: Seq<char>,
    numbers: spec_fn(Seq<char>) -> Option<Seq<char>>,
)
    requires
        is_no_null(raw),
    ensures
        ({
            let text = trim_spec(raw);
            let read = value_read(raw, None, numbers);
            &&& json_reading(text) is Some ==> read == json_reading(text)->0
            &&& json_reading(text) is None && text == seq!['T', 'r', 'u', 'e'] ==> read == seq![
                't',
                'r',
                'u',
                'e',
            ]
            &&& json_reading(text) is None && text == seq!['F', 'a', 'l', 's', 'e'] ==> read
                == seq!['f', 'a', 'l', 's', 'e']
            &&& json_reading(text) is None && text == seq!['N', 'o', 'n', 'e'] ==> read == seq![
                'n',
                'u',
                'l',
                'l',
            ]
            &&& json_reading(text) is None && text != seq!['T', 'r', 'u', 'e'] && text != seq![
                'F',
                'a',
                'l',
                's',
                'e',
            ] && text != seq!['N', 'o', 'n', 'e'] ==> read == quoted(text)
        }),
{
    let text = trim_spec(raw);
    lemma_null(text);
    reveal_strlit("True");
    reveal_strlit("False");
    reveal_strlit("None");
    reveal_strlit("null");
    reveal_strlit("true");
    reveal_strlit("false");
    assert("True"@ =~= seq!['T', 'r', 'u', 'e']);
    assert("False"@ =~= seq!['F', 'a', 'l', 's', 'e']);
    assert("None"@ =~= seq!['N', 'o', 'n', 'e']);
    assert("true"@ =~= seq!['t', 'r', 'u', 'e']);
    assert("false"@ =~= seq!['f', 'a', 'l', 's', 'e']);
    assert("null"@ =~= seq!['n', 'u', 'l', 'l']);
    if text == "null"@ {
        assert(is_word(text, "null"@));
    }
}

// ---- Integers ----

proof fn lemma_digits(text: Seq<char>)
    ensures
        digits_value(text) is Some <==> all_digits(text),
        digits_value(text) is Some ==> digits_value(text)->0 == place_value(text),
    decreases text.len(),
{
    if text.len() > 0 {
        let init = text.drop_last();
        lemma_digits(init);
        assert(text =~= init.push(text.last()));
        lemma_one_more_digit(init, text.last());
        if all_digits(text) {
            assert forall|i: int| 0 <= i < init.len() implies 48 <= (#[trigger] init[i]) as int
                <= 57 by {
                assert(text[i] == init[i]);
            }
            assert(48 <= text[text.len() - 1] as int <= 57);
        }
        if digits_value(text) is Some {
            assert forall|i: int| 0 <= i < text.len() implies 48 <= (#[trigger] text[i]) as int
                <= 57 by {
                if i < init.len() {
                    assert(text[i] == init[i]);
                }
            }
        }
    }
}

/// A text that spells an integer: a sign or none, and digits.
pub open spec fn spells_integer(text: Seq<char>, v: int) -> bool {
    ||| text.len() > 0 && all_digits(text) && v == place_value(text)
    ||| text.len() > 1 && text[0] == '+' && all_digits(text.drop_first()) && v == place_value(
        text.drop_first(),
    )
    ||| text.len() > 1 && text[0] == '-' && all_digits(text.drop_first()) && v == -place_value(
        text.drop_first(),
    )
}

/// The shortest spelling of an integer: digits without zeros in front, and a minus
/// sign where it is less than zero.
pub open spec fn spells_shortest(text: Seq<char>, v: int) -> bool {
    if v >= 0 {
        text.len() > 0 && all_digits(text) && place_value(text) == v && (v > 0 ==> text[0] != '0')
    } else {
        text.len() > 1 && text[0] == '-' && all_digits(text.drop_first()) && place_value(
            text.drop_first(),
        ) == -v && text[1] != '0'
    }
}

proof fn lemma_integer_value(text: Seq<char>)
    ensures
        integer_value(text) matches Some(v) ==> spells_integer(text, v),
        forall|v: int| #[trigger] spells_integer(text, v) ==> integer_value(text) == Some(v),
{
    lemma_digits(text);
    if text.len() > 0 {
        lemma_digits(text.drop_first());
        if all_digits(text) {
            assert(48 <= text[0] as int <= 57);
        }
    }
}

/// What is declared to be an integer, and spells one of 64 bits with a sign or
/// without, is that integer in its shortest spelling. Any other text stays text.
pub proof fn law_integer_is_read(
    raw: Seq<char>,
    declared: Seq<char>,
    numbers: spec_fn(Seq<char>) -> Option<Seq<char>>,
    v: int,
)
    requires
        kind_of(declared) == ValueKind::Integer,
        is_no_null(raw),
    ensures
        spells_integer(trim_spec(raw), v) && -0x8000_0000_0000_0000 <= v
            <= 0x7fff_ffff_ffff_ffff ==> spells_shortest(
            value_read(raw, Some(declared), numbers),
            v,
        ),
        spells_integer(trim_spec(raw), v) && !(-0x8000_0000_0000_0000 <= v
            <= 0x7fff_ffff_ffff_ffff) ==> value_read(raw, Some(declared), numbers) == quoted(raw),
        (forall|w: int| !#[trigger] spells_integer(trim_spec(raw), w)) ==> value_read(
            raw,
            Some(declared),
            numbers,
        ) == quoted(raw),
{
    lemma_null(trim_spec(raw));
    lemma_integer_value(trim_spec(raw));
    law_decimal_spells_the_number(v as nat);
    law_decimal_spells_the_number((-v) as nat);
    if v < 0 {
        let digits = decimal_spec((-v) as nat);
        assert((seq!['-'] + digits).drop_first() =~= digits);
        assert((seq!['-'] + digits)[1] == digits[0]);
    }
}

// ---- Text ----

/// Text without quotes, backslashes and control characters stands between quotes as
/// it is.
pub proof fn law_plain_text_is_only_quoted(text: Seq<char>)
    requires
        forall|i: int|
            0 <= i < text.len() ==> (#[trigger] text[i]) as int >= 32 && text[i] != '"' && text[i]
                != '\\',
    ensures
        quoted(text) == seq!['"'] + text + seq!['"'],
{
    lemma_plain(text);
}

proof fn lemma_plain_character(c: char)
    requires
        c as int >= 32,
        c != '"',
        c != '\\',
    ensures
        escaped(c) == seq![c],
{
}

proof fn lemma_plain(text: Seq<char>)
    requires
        forall|i: int|
            0 <= i < text.len() ==> (#[trigger] text[i]) as int >= 32 && text[i] != '"' && text[i]
                != '\\',
    ensures
        escaped_text(text) == text,
    decreases text.len(),
{
    if text.len() > 0 {
        let init = text.drop_last();
        assert forall|i: int| 0 <= i < init.len() implies (#[trigger] init[i]) as int >= 32
            && init[i] != '"' && init[i] != '\\' by {
            assert(text[i] == init[i]);
        }
        lemma_plain(init);
        assert(text[text.len() - 1] == text.last());
        lemma_plain_character(text.last());
        assert(init + seq![text.last()] =~= text);
    } else {
        assert(escaped_text(text) =~= text);
    }
}

/// Quotes and backslashes have a backslash in front, and line breaks and tabs are
/// named. What stands around a character does not change how it is spelled.
pub proof fn law_special_characters_are_escaped(a: Seq<char>, b: Seq<char>)
    ensures
        escaped_text(a + b) == escaped_text(a) + escaped_text(b),
        escaped_text(seq!['"']) == seq!['\\', '"'],
        escaped_text(seq!['\\']) == seq!['\\', '\\'],
        escaped_text(seq!['\n']) == seq!['\\', 'n'],
        escaped_text(seq!['\r']) == seq!['\\', 'r'],
        escaped_text(seq!['\t']) == seq!['\\', 't'],
    decreases b.len(),
{
    lemma_escaped_one('"');
    lemma_escaped_one('\\');
    lemma_escaped_one('\n');
    lemma_escaped_one('\r');
    lemma_escaped_one('\t');
    if b.len() > 0 {
        law_special_characters_are_escaped(a, b.drop_last());
        assert((a + b).drop_last() =~= a + b.drop_last());
        assert(escaped_text(a) + escaped_text(b.drop_last()) + escaped(b.last()) =~= escaped_text(a)
            + (escaped_text(b.drop_last()) + escaped(b.last())));
    } else {
        assert(a + b =~= a);
        assert(escaped_text(a) + Seq::<char>::empty() =~= escaped_text(a));
    }
}

/// Other control characters are spelled by their number in four hexadecimal digits.
pub proof fn law_control_characters_are_numbered(c: char)
    requires
        (c as int) < 32,
        c != '\n',
        c != '\r',
        c != '\t',
    ensures
        c as int == 8 ==> escaped_text(seq![c]) == seq!['\\', 'b'],
        c as int == 12 ==> escaped_text(seq![c]) == seq!['\\', 'f'],
        c as int != 8 && c as int != 12 ==> {
            let e = escaped_text(seq![c]);
            &&& e.len() == 6
            &&& e[0] == '\\' && e[1] == 'u' && e[2] == '0' && e[3] == '0'
            &&& hex_value(e[4]) * 16 + hex_value(e[5]) == c as int
            &&& 0 <= hex_value(e[4]) < 16 && 0 <= hex_value(e[5]) < 16
        },
{
    lemma_escaped_one(c);
}

proof fn lemma_escaped_one(c: char)
    ensures
        escaped_text(seq![c]) == escaped(c),
{
    reveal_with_fuel(escaped_text, 2);
    assert(seq![c].drop_last() =~= Seq::<char>::empty());
    assert(Seq::<char>::empty() + escaped(c) =~= escaped(c));
}

// ---- When values are equal ----

proof fn lemma_no_zero(json: Seq<char>, from: int, in_text: bool)
    requires
        0 <= from <= json.len(),
        forall|i: int| !#[trigger] stands_at(json, "-0.0"@, i),
    ensures
        unsigned_zeros(json, from, in_text) == json.skip(from),
    decreases json.len() - from,
{
    if from < json.len() {
        reveal_strlit("-0.0");
        assert("-0.0"@ =~= seq!['-', '0', '.', '0']);
        law_occurrence_is_every_character(json, "-0.0"@, from);
        lemma_no_zero(json, from + 1, in_text);
        lemma_no_zero(json, from + 1, !in_text);
        assert(seq![json[from]] + json.skip(from + 1) =~= json.skip(from));
        if from + 1 < json.len() {
            lemma_no_zero(json, from + 2, true);
            assert(seq![json[from], json[from + 1]] + json.skip(from + 2) =~= json.skip(from));
        }
    } else {
        assert(json.skip(from) =~= Seq::empty());
    }
}

/// Values in which no zero has a sign are equal where their texts are the same, and
/// only there.
pub proof fn law_values_are_equal_by_text(a: Seq<char>, b: Seq<char>)
    requires
        forall|i: int| !#[trigger] stands_at(a, "-0.0"@, i),
        forall|i: int| !#[trigger] stands_at(b, "-0.0"@, i),
    ensures
        same_value(a, b) <==> a == b,
{
    lemma_no_zero(a, 0, false);
    lemma_no_zero(b, 0, false);
    assert(a.skip(0) =~= a);
    assert(b.skip(0) =~= b);
}

/// Equal values are equal both ways, and to what either is equal to.
pub proof fn law_equal_values(a: Seq<char>, b: Seq<char>, c: Seq<char>)
    ensures
        same_value(a, a),
        same_value(a, b) ==> same_value(b, a),
        same_value(a, b) && same_value(b, c) ==> same_value(a, c),
{
}

/// Zero equals zero with a sign.
pub proof fn law_zero_has_no_sign()
    ensures
        same_value(seq!['-', '0', '.', '0'], seq!['0', '.', '0']),
{
    let a = seq!['-', '0', '.', '0'];
    let b = seq!['0', '.', '0'];
    reveal_strlit("-0.0");
    assert("-0.0"@ =~= a);
    assert forall|j: int| 0 <= j < 4 implies #[trigger] a[j] == a[0 + j] by {}
    assert(stands_at(a, a, 0));
    law_occurrence_is_every_character(a, a, 0);
    law_occurrence_is_every_character(a, a, 1);
    law_occurrence_is_every_character(a, a, 2);
    law_occurrence_is_every_character(a, a, 3);
    law_occurrence_is_every_character(b, a, 0);
    law_occurrence_is_every_character(b, a, 1);
    law_occurrence_is_every_character(b, a, 2);
    reveal_with_fuel(unsigned_zeros, 6);
    assert(unsigned_zeros(a, 0, false) =~= b);
    assert(unsigned_zeros(b, 0, false) =~= b);
}

} // verus!
