//! What the functions on texts promise, character by character.
use super::text::{
    contains_text, decimal_spec, diverges_below, find_spec, has_prefix, is_space, joined,
    lemma_find_spec, lower, lower_text, occurs_at, same_ignoring_case, str_before, trim_end_spec,
    trim_spec, trim_start_spec,
};
use vstd::arithmetic::power::pow;
use vstd::prelude::*;
use vstd::utf8::encode_utf8;

verus! {

/// Every character of `token` stands in `text`, from `at` on.
pub open spec fn stands_at(text: Seq<char>, token: Seq<char>, at: int) -> bool {
    &&& 0 <= at
    &&& at + token.len() <= text.len()
    &&& forall|j: int| 0 <= j < token.len() ==> #[trigger] token[j] == text[at + j]
}

/// A token occurs where all its characters stand, one after another.
pub proof fn law_occurrence_is_every_character(text: Seq<char>, token: Seq<char>, at: int)
    ensures
        occurs_at(text, token, at) <==> stands_at(text, token, at),
        has_prefix(text, token) <==> stands_at(text, token, 0),
{
    assert forall|i: int| occurs_at(text, token, i) <==> stands_at(text, token, i) by {
        if occurs_at(text, token, i) {
            assert forall|j: int| 0 <= j < token.len() implies #[trigger] token[j] == text[i + j] by {
                assert(text.subrange(i, i + token.len())[j] == text[i + j]);
            }
        }
        if stands_at(text, token, i) {
            assert(text.subrange(i, i + token.len()) =~= token);
        }
    }
}

/// What is found is the first place at or after `from` where the token stands, and
/// it is found wherever there is one.
pub proof fn law_first_place_is_found(text: Seq<char>, token: Seq<char>, from: int)
    requires
        0 <= from,
    ensures
        match find_spec(text, token, from) {
            Some(at) => from <= at && stands_at(text, token, at) && forall|i: int|
                from <= i < at ==> !#[trigger] stands_at(text, token, i),
            None => forall|i: int| from <= i ==> !#[trigger] stands_at(text, token, i),
        },
        contains_text(text, token) <==> exists|i: int| #[trigger] stands_at(text, token, i),
{
    lemma_find_spec(text, token, from);
    assert forall|i: int| occurs_at(text, token, i) <==> #[trigger] stands_at(text, token, i) by {
        law_occurrence_is_every_character(text, token, i);
    }
    if contains_text(text, token) {
        let i = choose|i: int| 0 <= i && occurs_at(text, token, i);
        assert(stands_at(text, token, i));
    }
    if exists|i: int| #[trigger] stands_at(text, token, i) {
        let i = choose|i: int| #[trigger] stands_at(text, token, i);
        assert(occurs_at(text, token, i));
    }
}

/// The white space of Unicode.
pub open spec fn is_white(v: int) -> bool {
    ||| 9 <= v <= 13
    ||| v == 32
    ||| v == 133
    ||| v == 160
    ||| v == 5760
    ||| 8192 <= v <= 8202
    ||| v == 8232
    ||| v == 8233
    ||| v == 8239
    ||| v == 8287
    ||| v == 12288
}

proof fn lemma_white(c: char)
    ensures
        is_space(c) <==> is_white(c as int),
{
}

proof fn lemma_trim_start(text: Seq<char>) -> (a: int)
    ensures
        0 <= a <= text.len(),
        trim_start_spec(text) == text.skip(a),
        forall|i: int| 0 <= i < a ==> is_white((#[trigger] text[i]) as int),
        a < text.len() ==> !is_white(text[a] as int),
    decreases text.len(),
{
    if text.len() > 0 && is_space(text[0]) {
        let rest = text.drop_first();
        let b = lemma_trim_start(rest);
        assert(rest.skip(b) =~= text.skip(b + 1));
        assert forall|i: int| 0 <= i < b + 1 implies is_white((#[trigger] text[i]) as int) by {
            if i > 0 {
                assert(rest[i - 1] == text[i]);
                assert(is_white(rest[i - 1] as int));
            } else {
                lemma_white(text[i]);
            }
        }
        if b < rest.len() {
            assert(rest[b] == text[b + 1]);
        }
        b + 1
    } else {
        assert(text.skip(0) =~= text);
        0
    }
}

proof fn lemma_trim_end(text: Seq<char>) -> (b: int)
    ensures
        0 <= b <= text.len(),
        trim_end_spec(text) == text.take(b),
        forall|i: int| b <= i < text.len() ==> is_white((#[trigger] text[i]) as int),
        b > 0 ==> !is_white(text[b - 1] as int),
    decreases text.len(),
{
    if text.len() > 0 && is_space(text.last()) {
        let rest = text.drop_last();
        let b = lemma_trim_end(rest);
        assert(rest.take(b) =~= text.take(b));
        assert forall|i: int| b <= i < text.len() implies is_white((#[trigger] text[i]) as int) by {
            if i < rest.len() {
                assert(rest[i] == text[i]);
                assert(is_white(rest[i] as int));
            } else {
                lemma_white(text[i]);
            }
        }
        b
    } else {
        assert(text.take(text.len() as int) =~= text);
        text.len() as int
    }
}

/// A trimmed text is what is left when the white space on both sides is gone, and
/// nothing else: it begins and ends with something else than white space.
pub proof fn law_trimming_takes_white_space_only(text: Seq<char>)
    ensures
        exists|a: int, b: int|
            0 <= a <= b <= text.len() && trim_spec(text) == #[trigger] text.subrange(a, b) && (
            forall|i: int|
                (0 <= i < a || b <= i < text.len()) ==> is_white((#[trigger] text[i]) as int)) && (a
                < b ==> !is_white(text[a] as int) && !is_white(text[b - 1] as int)),
{
    let a = lemma_trim_start(text);
    let rest = text.skip(a);
    let n = lemma_trim_end(rest);
    let b = a + n;
    assert(rest.take(n) =~= text.subrange(a, b));
    assert forall|i: int| (0 <= i < a || b <= i < text.len()) implies is_white(
        (#[trigger] text[i]) as int,
    ) by {
        if i >= b {
            assert(rest[i - a] == text[i]);
        }
    }
    if n > 0 {
        assert(rest[0] == text[a]);
        assert(rest[n - 1] == text[b - 1]);
    }
}

/// Two characters are one letter but for its case, or the same character.
pub open spec fn same_letter(a: char, b: char) -> bool {
    let (x, y) = (a as int, b as int);
    ||| x == y
    ||| 65 <= x <= 90 && y == x + 32
    ||| 65 <= y <= 90 && x == y + 32
}

/// Only the capital letters of ASCII become small, each its own.
pub proof fn law_small_letters(c: char)
    ensures
        65 <= c as int <= 90 ==> lower(c) as int == c as int + 32,
        !(65 <= c as int <= 90) ==> lower(c) == c,
{
}

/// Texts that are the same but for the case of ASCII letters are of one length and
/// agree at every place.
pub proof fn law_case_is_all_that_is_ignored(a: Seq<char>, b: Seq<char>)
    ensures
        same_ignoring_case(a, b) <==> a.len() == b.len() && forall|i: int|
            0 <= i < a.len() ==> same_letter(#[trigger] a[i], b[i]),
{
    let x = lower_text(a);
    let y = lower_text(b);
    if same_ignoring_case(a, b) {
        assert(x.len() == y.len());
        assert forall|i: int| 0 <= i < a.len() implies same_letter(#[trigger] a[i], b[i]) by {
            assert(x[i] == y[i]);
            law_small_letters(a[i]);
            law_small_letters(b[i]);
        }
    }
    if a.len() == b.len() && forall|i: int| 0 <= i < a.len() ==> same_letter(#[trigger] a[i], b[i]) {
        assert forall|i: int| 0 <= i < x.len() implies x[i] == y[i] by {
            assert(same_letter(a[i], b[i]));
            law_small_letters(a[i]);
            law_small_letters(b[i]);
        }
        assert(x =~= y);
    }
}

/// The number that digits spell, by the place of each.
pub open spec fn place_value(digits: Seq<char>) -> int
    decreases digits.len(),
{
    if digits.len() == 0 {
        0
    } else {
        (digits[0] as int - 48) * pow(10, (digits.len() - 1) as nat) + place_value(
            digits.drop_first(),
        )
    }
}

/// Every character is a decimal digit.
pub open spec fn all_digits(text: Seq<char>) -> bool {
    forall|i: int| 0 <= i < text.len() ==> 48 <= (#[trigger] text[i]) as int <= 57
}

/// One more digit behind others: they move up by one place.
pub proof fn lemma_one_more_digit(digits: Seq<char>, d: char)
    ensures
        place_value(digits.push(d)) == place_value(digits) * 10 + (d as int - 48),
    decreases digits.len(),
{
    let all = digits.push(d);
    vstd::arithmetic::power::lemma_pow0(10);
    if digits.len() == 0 {
        assert(all.drop_first() =~= Seq::<char>::empty());
        assert(place_value(all.drop_first()) == 0);
    } else {
        let rest = digits.drop_first();
        lemma_one_more_digit(rest, d);
        assert(all.drop_first() =~= rest.push(d));
        let p = pow(10, (digits.len() - 1) as nat);
        assert(pow(10, digits.len()) == 10 * p) by {
            reveal(pow);
        }
        let h = digits[0] as int - 48;
        assert(h * (10 * p) == (h * p) * 10) by (nonlinear_arith);
    }
}

/// A number is spelled in digits that have its value, without zeros in front.
pub proof fn law_decimal_spells_the_number(n: nat)
    ensures
        all_digits(decimal_spec(n)),
        place_value(decimal_spec(n)) == n,
        decimal_spec(n).len() > 0,
        n > 0 ==> decimal_spec(n)[0] as int != 48,
    decreases n,
{
    if n < 10 {
        let d = decimal_spec(n)[0];
        assert(decimal_spec(n) =~= Seq::<char>::empty().push(d));
        lemma_one_more_digit(Seq::empty(), d);
    } else {
        let init = decimal_spec(n / 10);
        law_decimal_spells_the_number(n / 10);
        lemma_one_more_digit(init, decimal_spec(n).last());
        assert(decimal_spec(n) =~= init.push(decimal_spec(n).last()));
    }
}

/// Byte strings are ordered by the first byte in which they differ, and one that ends
/// there is the smaller.
pub open spec fn is_below(a: Seq<u8>, b: Seq<u8>, at: int) -> bool {
    &&& 0 <= at <= a.len()
    &&& at < b.len()
    &&& forall|i: int| 0 <= i < at ==> #[trigger] a[i] == b[i]
    &&& at == a.len() || a[at] < b[at]
}

/// Texts are ordered by their bytes in UTF-8.
pub proof fn law_texts_are_ordered_by_bytes(a: Seq<char>, b: Seq<char>)
    ensures
        str_before(a, b) <==> exists|at: int| #[trigger]
            is_below(encode_utf8(a), encode_utf8(b), at),
{
    let x = encode_utf8(a);
    let y = encode_utf8(b);
    if str_before(a, b) {
        let at = choose|at: int| diverges_below(x, y, at);
        assert forall|i: int| 0 <= i < at implies #[trigger] x[i] == y[i] by {
            assert(x.take(at)[i] == y.take(at)[i]);
        }
        assert(is_below(x, y, at));
    }
    if exists|at: int| #[trigger] is_below(x, y, at) {
        let at = choose|at: int| #[trigger] is_below(x, y, at);
        assert(x.take(at) =~= y.take(at));
        assert(diverges_below(x, y, at));
    }
}

/// Parts are joined in their order, with nothing between them.
pub proof fn law_parts_are_joined_in_order(parts: Seq<Seq<char>>)
    ensures
        joined(parts) == parts.flatten(),
    decreases parts.len(),
{
    parts.lemma_flatten_and_flatten_alt_are_equivalent();
    if parts.len() > 0 {
        law_parts_are_joined_in_order(parts.drop_last());
        parts.drop_last().lemma_flatten_and_flatten_alt_are_equivalent();
    } else {
        assert(joined(parts) =~= parts.flatten());
    }
}

} // verus!
