//! Text helpers: comparison, searching and conversion between strings and
//! character vectors.
use vstd::prelude::*;
use vstd::utf8::*;

verus! {

/// `String::push` appends one character to the end of the string.
pub assume_specification[ String::push ](s: &mut String, c: char)
    ensures
        final(s)@ == old(s)@.push(c),
;

/// The byte at which `a` and `b` first differ is `i`, and there `a` is smaller
/// or already at its end.
pub open spec fn diverges_below(a: Seq<u8>, b: Seq<u8>, i: int) -> bool {
    &&& 0 <= i <= a.len()
    &&& i < b.len()
    &&& a.take(i) == b.take(i)
    &&& (i == a.len() || a[i] < b[i])
}

/// Strict lexicographic order on byte strings.
pub open spec fn bytes_before(a: Seq<u8>, b: Seq<u8>) -> bool {
    exists|i: int| diverges_below(a, b, i)
}

/// The order in which `str` values compare: lexicographic by UTF-8 bytes.
pub open spec fn str_before(a: Seq<char>, b: Seq<char>) -> bool {
    bytes_before(encode_utf8(a), encode_utf8(b))
}

/// Two strings with the same UTF-8 bytes are the same string.
pub proof fn lemma_utf8_injective(a: Seq<char>, b: Seq<char>)
    requires
        encode_utf8(a) == encode_utf8(b),
    ensures
        a == b,
{
    encode_utf8_decode_utf8(a);
    encode_utf8_decode_utf8(b);
}

proof fn lemma_bytes_before_trichotomy(a: Seq<u8>, b: Seq<u8>)
    ensures
        a == b || bytes_before(a, b) || bytes_before(b, a),
    decreases a.len(),
{
    if a.len() == 0 {
        if b.len() == 0 {
            assert(a =~= b);
        } else {
            assert(a.take(0) =~= b.take(0));
            assert(diverges_below(a, b, 0));
        }
    } else if b.len() == 0 {
        assert(a.take(0) =~= b.take(0));
        assert(diverges_below(b, a, 0));
    } else if a[0] != b[0] {
        assert(a.take(0) =~= b.take(0));
        assert(diverges_below(a, b, 0) || diverges_below(b, a, 0));
    } else {
        let x = a.drop_first();
        let y = b.drop_first();
        lemma_bytes_before_trichotomy(x, y);
        if x == y {
            assert(a =~= seq![a[0]] + x);
            assert(b =~= seq![b[0]] + y);
        } else if bytes_before(x, y) {
            let i = choose|i: int| diverges_below(x, y, i);
            assert(a.take(i + 1) =~= seq![a[0]] + x.take(i));
            assert(b.take(i + 1) =~= seq![b[0]] + y.take(i));
            assert(diverges_below(a, b, i + 1));
        } else {
            let i = choose|i: int| diverges_below(y, x, i);
            assert(a.take(i + 1) =~= seq![a[0]] + x.take(i));
            assert(b.take(i + 1) =~= seq![b[0]] + y.take(i));
            assert(diverges_below(b, a, i + 1));
        }
    }
}

proof fn lemma_bytes_before_asymmetric(a: Seq<u8>, b: Seq<u8>)
    requires
        bytes_before(a, b),
    ensures
        !bytes_before(b, a),
{
    let i = choose|i: int| diverges_below(a, b, i);
    if bytes_before(b, a) {
        let j = choose|j: int| diverges_below(b, a, j);
        if i < j {
            assert(b.take(j)[i] == a.take(j)[i]);
        } else if j < i {
            assert(a.take(i)[j] == b.take(i)[j]);
        }
    }
}

proof fn lemma_bytes_before_transitive(a: Seq<u8>, b: Seq<u8>, c: Seq<u8>)
    requires
        bytes_before(a, b),
        bytes_before(b, c),
    ensures
        bytes_before(a, c),
{
    let i = choose|i: int| diverges_below(a, b, i);
    let j = choose|j: int| diverges_below(b, c, j);
    let k = if i < j { i } else { j };
    assert forall|m: int| 0 <= m < k implies a[m] == c[m] by {
        assert(a.take(i)[m] == b.take(i)[m]);
        assert(b.take(j)[m] == c.take(j)[m]);
    }
    assert(a.take(k) =~= c.take(k));
    if i < j {
        assert(b.take(j)[i] == c.take(j)[i]);
    } else if j < i {
        assert(a.take(i)[j] == b.take(i)[j]);
    }
    assert(diverges_below(a, c, k));
}

/// String comparison is a strict total order.
pub proof fn lemma_str_before_total_order(a: Seq<char>, b: Seq<char>, c: Seq<char>)
    ensures
        !str_before(a, a),
        a == b || str_before(a, b) || str_before(b, a),
        str_before(a, b) ==> !str_before(b, a) && a != b,
        str_before(a, b) && str_before(b, c) ==> str_before(a, c),
{
    let x = encode_utf8(a);
    let y = encode_utf8(b);
    let z = encode_utf8(c);
    lemma_bytes_before_trichotomy(x, y);
    if x == y {
        lemma_utf8_injective(a, b);
    }
    if str_before(a, a) {
        lemma_bytes_before_asymmetric(x, x);
    }
    if str_before(a, b) {
        lemma_bytes_before_asymmetric(x, y);
    }
    if str_before(a, b) && str_before(b, c) {
        lemma_bytes_before_transitive(x, y, z);
    }
}

/// Whether two strings are equal.
pub fn str_eq(a: &str, b: &str) -> (r: bool)
    ensures
        r == (a@ == b@),
{
    let x = a.as_bytes();
    let y = b.as_bytes();
    if x.len() != y.len() {
        return false;
    }
    let n = x.len();
    for i in 0..n
        invariant
            n == x@.len(),
            n == y@.len(),
            x@ == encode_utf8(a@),
            y@ == encode_utf8(b@),
            forall|j: int| 0 <= j < i ==> x@[j] == y@[j],
    {
        if x[i] != y[i] {
            return false;
        }
    }
    proof {
        assert(x@ =~= y@);
        lemma_utf8_injective(a@, b@);
    }
    true
}

/// Whether `a` sorts strictly before `b`.
pub fn str_less(a: &str, b: &str) -> (r: bool)
    ensures
        r == str_before(a@, b@),
{
    let x = a.as_bytes();
    let y = b.as_bytes();
    let n = if x.len() < y.len() { x.len() } else { y.len() };
    for i in 0..n
        invariant
            n <= x@.len(),
            n <= y@.len(),
            x@ == encode_utf8(a@),
            y@ == encode_utf8(b@),
            forall|j: int| 0 <= j < i ==> x@[j] == y@[j],
    {
        if x[i] != y[i] {
            proof {
                assert(x@.take(i as int) =~= y@.take(i as int));
                if x@[i as int] < y@[i as int] {
                    assert(diverges_below(x@, y@, i as int));
                } else {
                    assert(diverges_below(y@, x@, i as int));
                    lemma_bytes_before_asymmetric(y@, x@);
                }
            }
            return x[i] < y[i];
        }
    }
    proof {
        assert(x@.take(n as int) =~= y@.take(n as int));
        if x@.len() < y@.len() {
            assert(diverges_below(x@, y@, n as int));
        } else if y@.len() < x@.len() {
            assert(diverges_below(y@, x@, n as int));
            lemma_bytes_before_asymmetric(y@, x@);
        } else {
            assert(x@ =~= y@);
            if bytes_before(x@, x@) {
                lemma_bytes_before_asymmetric(x@, x@);
            }
        }
    }
    x.len() < y.len()
}

/// Whether two byte vectors hold the same bytes.
pub fn bytes_eq(a: &Vec<u8>, b: &Vec<u8>) -> (r: bool)
    ensures
        r == (a@ == b@),
{
    let r = a == b;
    proof {
        if r {
            assert(a@ =~= b@);
        }
    }
    r
}

/// The view of an optional byte vector.
pub open spec fn opt_bytes(v: Option<Vec<u8>>) -> Option<Seq<u8>> {
    match v {
        Some(b) => Some(b@),
        None => None,
    }
}

/// The view of an optional string.
pub open spec fn opt_text(v: Option<String>) -> Option<Seq<char>> {
    match v {
        Some(s) => Some(s@),
        None => None,
    }
}

/// The texts that strings hold.
pub open spec fn texts(strings: Seq<String>) -> Seq<Seq<char>> {
    strings.map_values(|s: String| s@)
}

/// Whether two optional byte vectors are equal.
pub fn opt_bytes_eq(a: &Option<Vec<u8>>, b: &Option<Vec<u8>>) -> (r: bool)
    ensures
        r == (opt_bytes(*a) == opt_bytes(*b)),
{
    match (a, b) {
        (Some(x), Some(y)) => bytes_eq(x, y),
        (None, None) => true,
        _ => false,
    }
}

/// A copy of a byte vector.
pub fn copy_bytes(v: &Vec<u8>) -> (r: Vec<u8>)
    ensures
        r@ == v@,
{
    let r = v.clone();
    assert(r@ =~= v@);
    r
}

/// The characters of a string.
pub fn chars_of(s: &str) -> (r: Vec<char>)
    ensures
        r@ == s@,
{
    let mut out: Vec<char> = Vec::new();
    for c in it: s.chars()
        invariant
            out@ == it.seq().take(it.index()),
            it.seq() == s@,
    {
        out.push(c);
    }
    out
}

/// The string spelled by `chars[from..to]`.
pub fn string_of(chars: &Vec<char>, from: usize, to: usize) -> (r: String)
    requires
        from <= to <= chars@.len(),
    ensures
        r@ == chars@.subrange(from as int, to as int),
{
    let mut out = String::new();
    let mut i: usize = from;
    while i < to
        invariant
            from <= i <= to <= chars@.len(),
            out@ == chars@.subrange(from as int, i as int),
        decreases to - i,
    {
        out.push(chars[i]);
        assert(chars@.subrange(from as int, i + 1) =~= chars@.subrange(from as int, i as int).push(
            chars@[i as int],
        ));
        i = i + 1;
    }
    out
}

/// `text` holds `token` at position `at`.
pub open spec fn occurs_at(text: Seq<char>, token: Seq<char>, at: int) -> bool {
    &&& 0 <= at
    &&& at + token.len() <= text.len()
    &&& text.subrange(at, at + token.len()) == token
}

/// `text` starts with `prefix`.
pub open spec fn has_prefix(text: Seq<char>, prefix: Seq<char>) -> bool {
    occurs_at(text, prefix, 0)
}

/// `at` is the first position at or after `from` where `text` holds `token`.
pub open spec fn first_occurrence(text: Seq<char>, token: Seq<char>, from: int, at: int) -> bool {
    &&& from <= at
    &&& occurs_at(text, token, at)
    &&& forall|i: int| from <= i < at ==> !occurs_at(text, token, i)
}

/// `text` holds `token` somewhere at or after `from`.
pub open spec fn occurs_from(text: Seq<char>, token: Seq<char>, from: int) -> bool {
    exists|at: int| from <= at && occurs_at(text, token, at)
}

/// `text` holds `token`.
pub open spec fn contains_text(text: Seq<char>, token: Seq<char>) -> bool {
    occurs_from(text, token, 0)
}

/// Texts one after another.
pub open spec fn joined(parts: Seq<Seq<char>>) -> Seq<char>
    decreases parts.len(),
{
    if parts.len() == 0 {
        Seq::empty()
    } else {
        joined(parts.drop_last()) + parts.last()
    }
}

/// A part of a text holds no token that the text does not hold.
pub proof fn lemma_part_holds_no_more(
    text: Seq<char>,
    before: Seq<char>,
    part: Seq<char>,
    after: Seq<char>,
    token: Seq<char>,
)
    requires
        text == before + part + after,
        !contains_text(text, token),
    ensures
        !contains_text(part, token),
{
    if contains_text(part, token) {
        let at = choose|at: int| 0 <= at && occurs_at(part, token, at);
        assert(text.subrange(before.len() + at, before.len() + at + token.len())
            =~= part.subrange(at, at + token.len()));
        assert(occurs_at(text, token, before.len() + at));
    }
}

/// Where `text` first holds `token` at or after `from`, as a function.
pub open spec fn find_spec(text: Seq<char>, token: Seq<char>, from: int) -> Option<int> {
    if occurs_from(text, token, from) {
        Some(choose|at: int| first_occurrence(text, token, from, at))
    } else {
        None
    }
}

proof fn lemma_first_occurrence_exists(text: Seq<char>, token: Seq<char>, from: int, at: int)
    requires
        from <= at,
        occurs_at(text, token, at),
    ensures
        exists|m: int| first_occurrence(text, token, from, m),
    decreases at - from,
{
    if exists|i: int| from <= i < at && occurs_at(text, token, i) {
        let i = choose|i: int| from <= i < at && occurs_at(text, token, i);
        lemma_first_occurrence_exists(text, token, from, i);
    } else {
        assert(first_occurrence(text, token, from, at));
    }
}

/// What `find_spec` returns is the first occurrence, and there is only one.
pub proof fn lemma_find_spec(text: Seq<char>, token: Seq<char>, from: int)
    ensures
        match find_spec(text, token, from) {
            Some(at) => first_occurrence(text, token, from, at),
            None => forall|i: int| from <= i ==> !occurs_at(text, token, i),
        },
        forall|at: int|
            first_occurrence(text, token, from, at) ==> find_spec(text, token, from) == Some(at),
{
    if occurs_from(text, token, from) {
        let at = choose|at: int| from <= at && occurs_at(text, token, at);
        lemma_first_occurrence_exists(text, token, from, at);
    }
    assert forall|at: int| first_occurrence(text, token, from, at) implies find_spec(
        text,
        token,
        from,
    ) == Some(at) by {
        assert(occurs_from(text, token, from));
        let m = choose|m: int| first_occurrence(text, token, from, m);
        assert(first_occurrence(text, token, from, m));
        if m < at {
            assert(!occurs_at(text, token, m));
        } else if at < m {
            assert(!occurs_at(text, token, at));
        }
    }
}

/// Whether `text` holds `token` at `at`.
pub fn token_at(text: &Vec<char>, token: &Vec<char>, at: usize) -> (r: bool)
    ensures
        r == occurs_at(text@, token@, at as int),
{
    if at > text.len() || text.len() - at < token.len() {
        return false;
    }
    let n = token.len();
    let m = text.len();
    for i in 0..n
        invariant
            n == token@.len(),
            m == text@.len(),
            at + n <= m,
            forall|j: int| 0 <= j < i ==> text@[at + j] == token@[j],
    {
        if text[at + i] != token[i] {
            proof {
                assert(text@.subrange(at as int, at + n)[i as int] == text@[at + i]);
            }
            return false;
        }
    }
    assert(text@.subrange(at as int, at + n) =~= token@);
    true
}

/// Where `text` first holds `token` at or after `from`.
pub fn find_token(text: &Vec<char>, token: &Vec<char>, from: usize) -> (r: Option<usize>)
    ensures
        match r {
            Some(at) => find_spec(text@, token@, from as int) == Some(at as int)
                && first_occurrence(text@, token@, from as int, at as int),
            None => find_spec(text@, token@, from as int) is None,
        },
{
    let n = text.len();
    let mut i: usize = from;
    proof {
        lemma_find_spec(text@, token@, from as int);
    }
    while i < n
        invariant
            n == text@.len(),
            from <= i,
            from <= n ==> i <= n,
            forall|j: int| from <= j < i ==> !occurs_at(text@, token@, j),
            forall|at: int|
                first_occurrence(text@, token@, from as int, at) ==> find_spec(
                    text@,
                    token@,
                    from as int,
                ) == Some(at),
        decreases n - i,
    {
        if token_at(text, token, i) {
            assert(first_occurrence(text@, token@, from as int, i as int));
            return Some(i);
        }
        i = i + 1;
    }
    if token_at(text, token, i) {
        assert(first_occurrence(text@, token@, from as int, i as int));
        return Some(i);
    }
    None
}

/// Whether `text` starts with `prefix`.
pub fn str_has_prefix(text: &str, prefix: &str) -> (r: bool)
    ensures
        r == has_prefix(text@, prefix@),
{
    let t = chars_of(text);
    let p = chars_of(prefix);
    token_at(&t, &p, 0)
}

/// Whether `text` holds `token`.
pub fn str_contains(text: &str, token: &str) -> (r: bool)
    ensures
        r == contains_text(text@, token@),
{
    let t = chars_of(text);
    let k = chars_of(token);
    let r = find_token(&t, &k, 0);
    proof {
        lemma_find_spec(t@, k@, 0);
    }
    r.is_some()
}

/// The characters with Unicode's `White_Space` property.
pub open spec fn is_space(c: char) -> bool {
    let v = c as u32;
    ||| 0x09 <= v <= 0x0D
    ||| v == 0x20
    ||| v == 0x85
    ||| v == 0xA0
    ||| v == 0x1680
    ||| 0x2000 <= v <= 0x200A
    ||| v == 0x2028
    ||| v == 0x2029
    ||| v == 0x202F
    ||| v == 0x205F
    ||| v == 0x3000
}

/// Whether `c` is white space.
pub fn char_is_space(c: char) -> (r: bool)
    ensures
        r == is_space(c),
{
    let v: u32 = c as u32;
    (0x09 <= v && v <= 0x0D) || v == 0x20 || v == 0x85 || v == 0xA0 || v == 0x1680 || (0x2000 <= v
        && v <= 0x200A) || v == 0x2028 || v == 0x2029 || v == 0x202F || v == 0x205F || v == 0x3000
}

/// `text` without leading white space.
pub open spec fn trim_start_spec(text: Seq<char>) -> Seq<char>
    decreases text.len(),
{
    if text.len() > 0 && is_space(text[0]) {
        trim_start_spec(text.drop_first())
    } else {
        text
    }
}

/// `text` without trailing white space.
pub open spec fn trim_end_spec(text: Seq<char>) -> Seq<char>
    decreases text.len(),
{
    if text.len() > 0 && is_space(text.last()) {
        trim_end_spec(text.drop_last())
    } else {
        text
    }
}

/// `text` without leading and trailing white space.
pub open spec fn trim_spec(text: Seq<char>) -> Seq<char> {
    trim_end_spec(trim_start_spec(text))
}

/// The bounds of `chars[from..to]` without leading and trailing white space.
pub fn trim_bounds(chars: &Vec<char>, from: usize, to: usize) -> (r: (usize, usize))
    requires
        from <= to <= chars@.len(),
    ensures
        from <= r.0 <= r.1 <= to,
        chars@.subrange(r.0 as int, r.1 as int) == trim_spec(
            chars@.subrange(from as int, to as int),
        ),
{
    let ghost text = chars@.subrange(from as int, to as int);
    let mut a: usize = from;
    while a < to && char_is_space(chars[a])
        invariant
            from <= a <= to <= chars@.len(),
            trim_start_spec(chars@.subrange(a as int, to as int)) == trim_start_spec(text),
        decreases to - a,
    {
        assert(chars@.subrange(a as int, to as int).drop_first() =~= chars@.subrange(
            a + 1,
            to as int,
        ));
        a = a + 1;
    }
    assert(trim_start_spec(text) == chars@.subrange(a as int, to as int));
    let mut b: usize = to;
    while a < b && char_is_space(chars[b - 1])
        invariant
            from <= a <= b <= to <= chars@.len(),
            trim_end_spec(chars@.subrange(a as int, b as int)) == trim_end_spec(
                chars@.subrange(a as int, to as int),
            ),
        decreases b - a,
    {
        assert(chars@.subrange(a as int, b as int).drop_last() =~= chars@.subrange(
            a as int,
            b - 1,
        ));
        b = b - 1;
    }
    assert(trim_end_spec(chars@.subrange(a as int, b as int)) == chars@.subrange(
        a as int,
        b as int,
    ));
    (a, b)
}

/// A copy of `text` without leading and trailing white space.
pub fn trim_string(text: &str) -> (r: String)
    ensures
        r@ == trim_spec(text@),
{
    let chars = chars_of(text);
    let n = chars.len();
    let (a, b) = trim_bounds(&chars, 0, n);
    assert(chars@.subrange(0, n as int) =~= text@);
    string_of(&chars, a, b)
}

/// `c` with an ASCII capital letter made small.
pub open spec fn lower(c: char) -> char {
    if 'A' <= c <= 'Z' {
        ((c as u32 + 32) as u32) as char
    } else {
        c
    }
}

/// `text` with its ASCII capital letters made small.
pub open spec fn lower_text(text: Seq<char>) -> Seq<char> {
    text.map_values(|c: char| lower(c))
}

/// `c` with an ASCII capital letter made small.
pub fn char_lower(c: char) -> (r: char)
    ensures
        r == lower(c),
{
    if 'A' <= c && c <= 'Z' {
        let v: u8 = c as u8;
        (v + 32) as char
    } else {
        c
    }
}

/// A copy of `text` with its ASCII capital letters made small.
pub fn lower_string(text: &str) -> (r: String)
    ensures
        r@ == lower_text(text@),
{
    let mut out = String::new();
    for c in it: text.chars()
        invariant
            it.seq() == text@,
            out@ == lower_text(it.seq().take(it.index())),
    {
        out.push(char_lower(c));
        assert(lower_text(it.seq().take(it.index() + 1)) =~= lower_text(
            it.seq().take(it.index()),
        ).push(lower(c)));
    }
    assert(text@.take(text@.len() as int) =~= text@);
    out
}

/// Equality of two texts when ASCII capitals count as small letters.
pub open spec fn same_ignoring_case(a: Seq<char>, b: Seq<char>) -> bool {
    lower_text(a) == lower_text(b)
}

/// Whether two texts are equal when ASCII capitals count as small letters.
pub fn eq_ignoring_case(a: &str, b: &str) -> (r: bool)
    ensures
        r == same_ignoring_case(a@, b@),
{
    let x = lower_string(a);
    let y = lower_string(b);
    str_eq(x.as_str(), y.as_str())
}

/// The decimal digit for a value below ten.
pub open spec fn digit_char(d: int) -> char {
    ((48 + d) as u8) as char
}

/// The decimal spelling of a natural number.
pub open spec fn decimal_spec(n: nat) -> Seq<char>
    decreases n,
{
    if n < 10 {
        seq![digit_char(n as int)]
    } else {
        decimal_spec(n / 10).push(digit_char((n % 10) as int))
    }
}

/// The decimal spelling of `n`.
pub fn decimal(n: u64) -> (r: String)
    ensures
        r@ == decimal_spec(n as nat),
    decreases n,
{
    let d: u8 = 48 + (n % 10) as u8;
    if n < 10 {
        let mut s = String::new();
        s.push(d as char);
        assert(s@ =~= decimal_spec(n as nat));
        s
    } else {
        let mut s = decimal(n / 10);
        s.push(d as char);
        s
    }
}

/// `head` followed by `tail`.
pub fn concat(head: &str, tail: &str) -> (r: String)
    ensures
        r@ == head@ + tail@,
{
    let mut r = head.to_owned();
    r.append(tail);
    r
}

} // verus!
