//! What is accepted of a tokenizer bundle, and what is not.
use super::text::{decimal_spec, same_ignoring_case};
use super::text_laws::{law_case_is_all_that_is_ignored, same_letter};
use super::tokenizer_bundle::{
    archive_entries, archive_in, archive_verdict, collected, fingerprint_verdict, hex_text,
    is_component, is_validated, leads_out, parts_paths, size_of_entries, with_chunks, BundleView,
    PathRules,
};
use super::tool_parser::json::hex_char;
use std::io::Cursor;
use vstd::prelude::*;
use zip::ZipArchive;

verus! {

// ---- Fingerprints ----

/// The value of a hexadecimal digit, in either case.
pub open spec fn hex_value(c: char) -> int {
    let v = c as int;
    if 48 <= v <= 57 {
        v - 48
    } else if 97 <= v <= 102 {
        v - 87
    } else if 65 <= v <= 70 {
        v - 55
    } else {
        -1
    }
}

/// Two digits for each byte, the higher half first.
pub open spec fn spells_bytes(text: Seq<char>, bytes: Seq<u8>) -> bool {
    &&& text.len() == 2 * bytes.len()
    &&& forall|i: int|
        0 <= i < bytes.len() ==> hex_value(text[2 * i]) * 16 + hex_value(text[2 * i + 1])
            == #[trigger] bytes[i] && hex_value(text[2 * i]) >= 0 && hex_value(text[2 * i + 1]) >= 0
}

proof fn lemma_hex_digit(d: int, c: char)
    requires
        0 <= d < 16,
    ensures
        same_letter(hex_char(d), c) <==> hex_value(c) == d,
{
}

proof fn lemma_hex_text(bytes: Seq<u8>)
    ensures
        hex_text(bytes).len() == 2 * bytes.len(),
        forall|i: int|
            0 <= i < bytes.len() ==> hex_text(bytes)[2 * i] == hex_char(
                (#[trigger] bytes[i]) as int / 16,
            ) && hex_text(bytes)[2 * i + 1] == hex_char(bytes[i] as int % 16),
    decreases bytes.len(),
{
    if bytes.len() > 0 {
        let init = bytes.drop_last();
        lemma_hex_text(init);
        assert forall|i: int| 0 <= i < bytes.len() implies hex_text(bytes)[2 * i] == hex_char(
            (#[trigger] bytes[i]) as int / 16,
        ) && hex_text(bytes)[2 * i + 1] == hex_char(bytes[i] as int % 16) by {
            if i < init.len() {
                assert(init[i] == bytes[i]);
                assert(hex_text(init)[2 * i] == hex_text(bytes)[2 * i]);
                assert(hex_text(init)[2 * i + 1] == hex_text(bytes)[2 * i + 1]);
            }
        }
    }
}

/// A fingerprint is accepted where it is empty, or where it spells the digest, two
/// digits for each byte. Any other is refused.
pub proof fn law_fingerprint_is_the_digest(sha256: Seq<char>, digest: Seq<u8>)
    ensures
        fingerprint_verdict(sha256, digest) is Ok <==> sha256.len() == 0 || spells_bytes(
            sha256,
            digest,
        ),
{
    let hex = hex_text(digest);
    lemma_hex_text(digest);
    law_case_is_all_that_is_ignored(hex, sha256);
    if same_ignoring_case(hex, sha256) {
        assert forall|i: int| 0 <= i < digest.len() implies hex_value(sha256[2 * i]) * 16
            + hex_value(sha256[2 * i + 1]) == #[trigger] digest[i] && hex_value(sha256[2 * i]) >= 0
            && hex_value(sha256[2 * i + 1]) >= 0 by {
            let b = digest[i] as int;
            assert(same_letter(hex[2 * i], sha256[2 * i]));
            assert(same_letter(hex[2 * i + 1], sha256[2 * i + 1]));
            lemma_hex_digit(b / 16, sha256[2 * i]);
            lemma_hex_digit(b % 16, sha256[2 * i + 1]);
        }
    }
    if spells_bytes(sha256, digest) {
        assert forall|j: int| 0 <= j < hex.len() implies same_letter(#[trigger] hex[j], sha256[j]) by {
            let i = j / 2;
            let b = digest[i] as int;
            let hi = hex_value(sha256[2 * i]);
            let lo = hex_value(sha256[2 * i + 1]);
            assert(hi * 16 + lo == b);
            assert(hi == b / 16 && lo == b % 16);
            lemma_hex_digit(b / 16, sha256[2 * i]);
            lemma_hex_digit(b % 16, sha256[2 * i + 1]);
            assert(j == 2 * i || j == 2 * i + 1);
        }
    }
}

/// A fingerprint that is not empty is accepted for one digest at most: the bytes of
/// another bundle under it are noticed, unless both have the same digest.
pub proof fn law_fingerprint_has_one_digest(sha256: Seq<char>, a: Seq<u8>, b: Seq<u8>)
    requires
        sha256.len() > 0,
        fingerprint_verdict(sha256, a) is Ok,
        fingerprint_verdict(sha256, b) is Ok,
    ensures
        a == b,
{
    law_fingerprint_is_the_digest(sha256, a);
    law_fingerprint_is_the_digest(sha256, b);
    assert forall|i: int| 0 <= i < a.len() implies a[i] == b[i] by {
        assert(hex_value(sha256[2 * i]) * 16 + hex_value(sha256[2 * i + 1]) == a[i]);
        assert(hex_value(sha256[2 * i]) * 16 + hex_value(sha256[2 * i + 1]) == b[i]);
    }
    assert(a =~= b);
}

/// The fingerprint of one digest is refused for another.
pub proof fn law_foreign_fingerprint_is_refused(a: Seq<u8>, b: Seq<u8>)
    requires
        a.len() > 0,
        a != b,
    ensures
        fingerprint_verdict(hex_text(a), a) is Ok,
        fingerprint_verdict(hex_text(a), b) is Err,
{
    lemma_hex_text(a);
    assert(same_ignoring_case(hex_text(a), hex_text(a)));
    if fingerprint_verdict(hex_text(a), b) is Ok {
        law_fingerprint_has_one_digest(hex_text(a), a, b);
    }
}

// ---- Collecting ----

/// The bytes that chunks bring, one after another.
pub open spec fn bytes_brought(chunks: Seq<Result<BundleView, Seq<char>>>) -> Seq<u8>
    decreases chunks.len(),
{
    if chunks.len() == 0 {
        Seq::empty()
    } else {
        let rest = bytes_brought(chunks.drop_first());
        match chunks[0] {
            Ok(chunk) => chunk.data + rest,
            Err(_) => rest,
        }
    }
}

proof fn lemma_bytes_brought_push(
    chunks: Seq<Result<BundleView, Seq<char>>>,
    last: Result<BundleView, Seq<char>>,
)
    ensures
        bytes_brought(chunks.push(last)) == bytes_brought(chunks) + (match last {
            Ok(chunk) => chunk.data,
            Err(_) => Seq::empty(),
        }),
    decreases chunks.len(),
{
    let all = chunks.push(last);
    if chunks.len() == 0 {
        assert(all.drop_first() =~= chunks);
        assert(bytes_brought(all.drop_first()) =~= Seq::<u8>::empty());
    } else {
        lemma_bytes_brought_push(chunks.drop_first(), last);
        assert(all.drop_first() =~= chunks.drop_first().push(last));
    }
    assert(bytes_brought(all) =~= bytes_brought(chunks) + (match last {
        Ok(chunk) => chunk.data,
        Err(_) => Seq::empty(),
    }));
}

proof fn lemma_collected(chunks: Seq<Result<BundleView, Seq<char>>>)
    ensures
        with_chunks(chunks) is Ok <==> (forall|i: int|
            0 <= i < chunks.len() ==> (#[trigger] chunks[i]) is Ok) && bytes_brought(chunks).len()
            <= 200 * 1024 * 1024,
        with_chunks(chunks) matches Ok(s) ==> s.data == bytes_brought(chunks) && s.saw_chunk == (
        chunks.len() > 0) && (chunks.len() > 0 ==> s.last_had_sha == (chunks.last()->Ok_0.sha256.len()
            > 0) && (s.last_had_sha ==> s.sha256 == chunks.last()->Ok_0.sha256)),
    decreases chunks.len(),
{
    if chunks.len() > 0 {
        let init = chunks.drop_last();
        let last = chunks.last();
        lemma_collected(init);
        lemma_bytes_brought_push(init, last);
        assert(init.push(last) =~= chunks);
        if forall|i: int| 0 <= i < chunks.len() ==> (#[trigger] chunks[i]) is Ok {
            assert forall|i: int| 0 <= i < init.len() implies (#[trigger] init[i]) is Ok by {
                assert(chunks[i] is Ok);
            }
            assert(chunks[chunks.len() - 1] is Ok);
        }
        if with_chunks(chunks) is Ok {
            assert forall|i: int| 0 <= i < chunks.len() implies (#[trigger] chunks[i]) is Ok by {
                if i < init.len() {
                    assert(init[i] is Ok);
                }
            }
        }
    }
}

/// A bundle comes of a stream exactly where every chunk arrived, there is at least
/// one byte and not too many, and the last chunk has a fingerprint. It then holds
/// the bytes of all chunks in their order, and that fingerprint.
pub proof fn law_bundle_is_all_that_came(chunks: Seq<Result<BundleView, Seq<char>>>)
    ensures
        collected(chunks) is Ok <==> chunks.len() > 0 && (forall|i: int|
            0 <= i < chunks.len() ==> (#[trigger] chunks[i]) is Ok)
            && chunks.last()->Ok_0.sha256.len() > 0 && 0 < bytes_brought(chunks).len() <= 200 * 1024
            * 1024,
        collected(chunks) matches Ok(bundle) ==> bundle.data == bytes_brought(chunks)
            && bundle.sha256 == chunks.last()->Ok_0.sha256,
{
    lemma_collected(chunks);
    if chunks.len() > 0 {
        assert(chunks[chunks.len() - 1] == chunks.last());
    }
}

// ---- Archives ----

/// A character parts the components of a path: a slash, and by the rules of Windows
/// a backslash.
pub open spec fn parts(rules: PathRules, c: char) -> bool {
    c as int == 47 || (rules == PathRules::Windows && c as int == 92)
}

/// Two dots stand between separators or ends.
pub open spec fn goes_up_at(path: Seq<char>, rules: PathRules, at: int) -> bool {
    &&& 0 <= at
    &&& at + 2 <= path.len()
    &&& path[at] as int == 46
    &&& path[at + 1] as int == 46
    &&& at > 0 ==> parts(rules, path[at - 1])
    &&& at + 2 < path.len() ==> parts(rules, path[at + 2])
}

/// A path is refused exactly where it begins with a separator, by the rules of
/// Windows with a letter and a colon, or where somewhere between separators it goes
/// up to the parent.
pub proof fn law_paths_that_leave_are_refused(path: Seq<char>, rules: PathRules)
    ensures
        leads_out(path, rules) <==> {
            ||| path.len() > 0 && parts(rules, path[0])
            ||| rules == PathRules::Windows && path.len() >= 2 && path[1] as int == 58 && (65
                <= path[0] as int <= 90 || 97 <= path[0] as int <= 122)
            ||| exists|at: int| #[trigger] goes_up_at(path, rules, at)
        },
{
    assert forall|c: char| #[trigger] parts(rules, c) == parts_paths(rules, c) by {}
    assert forall|at: int|
        goes_up_at(path, rules, at) <==> is_component(path, rules, at, at + 2) && path[at] == '.'
            && path[at + 1] == '.' by {}
    if exists|at: int| #[trigger] goes_up_at(path, rules, at) {
        let at = choose|at: int| #[trigger] goes_up_at(path, rules, at);
        assert(is_component(path, rules, at, at + 2));
    }
    if exists|from: int|
        #[trigger] is_component(path, rules, from, from + 2) && path[from] == '.' && path[from + 1]
            == '.' {
        let at = choose|from: int|
            #[trigger] is_component(path, rules, from, from + 2) && path[from] == '.' && path[from
                + 1] == '.';
        assert(goes_up_at(path, rules, at));
    }
}

/// The sizes of entries together.
pub open spec fn sum_of_sizes(entries: Seq<Result<(Seq<char>, u64), Seq<char>>>) -> nat
    decreases entries.len(),
{
    if entries.len() == 0 {
        0
    } else {
        sum_of_sizes(entries.drop_last()) + (match entries.last() {
            Ok((_, size)) => size as nat,
            Err(_) => 0,
        })
    }
}

/// An entry can be read, and its path stays inside.
pub open spec fn stays_inside(
    entry: Result<(Seq<char>, u64), Seq<char>>,
    rules: PathRules,
) -> bool {
    match entry {
        Ok((path, _)) => {
            &&& path.len() > 0 ==> !parts(rules, path[0])
            &&& !(rules == PathRules::Windows && path.len() >= 2 && path[1] as int == 58 && (65
                <= path[0] as int <= 90 || 97 <= path[0] as int <= 122))
            &&& forall|at: int| !#[trigger] goes_up_at(path, rules, at)
        },
        Err(_) => false,
    }
}

proof fn lemma_sizes(entries: Seq<Result<(Seq<char>, u64), Seq<char>>>, rules: PathRules)
    ensures
        size_of_entries(entries, rules) is Ok <==> (forall|i: int|
            0 <= i < entries.len() ==> stays_inside(#[trigger] entries[i], rules)) && sum_of_sizes(
            entries,
        ) <= u64::MAX,
        size_of_entries(entries, rules) matches Ok(total) ==> total == sum_of_sizes(entries),
    decreases entries.len(),
{
    if entries.len() > 0 {
        let init = entries.drop_last();
        let last = entries.last();
        lemma_sizes(init, rules);
        if let Ok((path, _)) = last {
            law_paths_that_leave_are_refused(path, rules);
        }
        if forall|i: int| 0 <= i < entries.len() ==> stays_inside(#[trigger] entries[i], rules) {
            assert forall|i: int| 0 <= i < init.len() implies stays_inside(
                #[trigger] init[i],
                rules,
            ) by {
                assert(stays_inside(entries[i], rules));
            }
            assert(stays_inside(entries[entries.len() - 1], rules));
        }
        if size_of_entries(entries, rules) is Ok {
            assert forall|i: int| 0 <= i < entries.len() implies stays_inside(
                #[trigger] entries[i],
                rules,
            ) by {
                if i < init.len() {
                    assert(stays_inside(init[i], rules));
                }
            }
        }
    }
}

/// An archive is accepted exactly where it has few entries, all of them can be read
/// and stay inside, and together they are not too large.
pub proof fn law_archive_is_accepted_where_harmless(
    entries: Seq<Result<(Seq<char>, u64), Seq<char>>>,
    rules: PathRules,
)
    ensures
        archive_verdict(entries, rules) is Ok <==> entries.len() <= 50 && (forall|i: int|
            0 <= i < entries.len() ==> stays_inside(#[trigger] entries[i], rules)) && sum_of_sizes(
            entries,
        ) <= 500 * 1024 * 1024,
{
    lemma_sizes(entries, rules);
}

/// An archive that is refused is refused for the first of these that holds: it has too
/// many entries, an entry cannot be read, a path leads out, or the entries are too
/// large together.
pub proof fn law_refused_archive_says_why(
    entries: Seq<Result<(Seq<char>, u64), Seq<char>>>,
    rules: PathRules,
    i: int,
)
    ensures
        entries.len() > 50 ==> archive_verdict(entries, rules) == Err::<(), Seq<char>>(
            "Zip archive has too many entries ("@ + decimal_spec(entries.len()) + " > "@
                + decimal_spec(50) + ")"@,
        ),
        entries.len() <= 50 && 0 <= i < entries.len() && (forall|j: int|
            0 <= j < i ==> stays_inside(#[trigger] entries[j], rules)) && sum_of_sizes(
            entries.take(i),
        ) <= u64::MAX ==> {
            &&& entries[i] matches Err(e) ==> archive_verdict(entries, rules) == Err::<
                (),
                Seq<char>,
            >("Failed to read zip entry "@ + decimal_spec(i as nat) + ": "@ + e)
            &&& entries[i] matches Ok((path, _)) ==> !stays_inside(entries[i], rules)
                ==> archive_verdict(entries, rules) == Err::<(), Seq<char>>(
                "Zip archive contains unsafe path: "@ + path,
            )
            &&& entries[i] matches Ok((path, size)) ==> stays_inside(entries[i], rules)
                && sum_of_sizes(entries.take(i)) + size > u64::MAX ==> archive_verdict(
                entries,
                rules,
            ) == Err::<(), Seq<char>>("Zip archive total uncompressed size overflowed u64"@)
        },
        entries.len() <= 50 && (forall|j: int|
            0 <= j < entries.len() ==> stays_inside(#[trigger] entries[j], rules)) && 500 * 1024
            * 1024 < sum_of_sizes(entries) <= u64::MAX ==> archive_verdict(entries, rules) == Err::<
            (),
            Seq<char>,
        >(
            "Zip archive uncompressed size too large ("@ + decimal_spec(sum_of_sizes(entries))
                + " bytes > "@ + decimal_spec(500 * 1024 * 1024) + " bytes)"@,
        ),
{
    lemma_sizes(entries, rules);
    if entries.len() <= 50 && 0 <= i < entries.len() && (forall|j: int|
        0 <= j < i ==> stays_inside(#[trigger] entries[j], rules)) && sum_of_sizes(entries.take(i))
        <= u64::MAX {
        let before = entries.take(i);
        let upto = entries.take(i + 1);
        lemma_sizes(before, rules);
        assert forall|j: int| 0 <= j < before.len() implies stays_inside(
            #[trigger] before[j],
            rules,
        ) by {
            assert(entries[j] == before[j]);
        }
        assert(upto.drop_last() =~= before);
        assert(upto.last() == entries[i]);
        if let Ok((path, _)) = entries[i] {
            law_paths_that_leave_are_refused(path, rules);
        }
        lemma_first_fault_stays(entries, rules, i + 1);
    }
}

proof fn lemma_first_fault_stays(
    entries: Seq<Result<(Seq<char>, u64), Seq<char>>>,
    rules: PathRules,
    n: int,
)
    requires
        0 <= n <= entries.len(),
    ensures
        size_of_entries(entries.take(n), rules) is Err ==> size_of_entries(entries, rules)
            == size_of_entries(entries.take(n), rules),
    decreases entries.len(),
{
    if n == entries.len() {
        assert(entries.take(n) =~= entries);
    } else {
        lemma_first_fault_stays(entries.drop_last(), rules, n);
        assert(entries.drop_last().take(n) =~= entries.take(n));
    }
}

/// A stream that is refused is refused for the first chunk that did not arrive or makes
/// the bundle too large, or at its end because nothing came, the last chunk has no
/// fingerprint, or there are no bytes.
pub proof fn law_refused_bundle_says_why(chunks: Seq<Result<BundleView, Seq<char>>>, i: int)
    ensures
        0 <= i < chunks.len() && (forall|j: int| 0 <= j < i ==> (#[trigger] chunks[j]) is Ok)
            && bytes_brought(chunks.take(i)).len() <= 200 * 1024 * 1024 ==> {
            &&& chunks[i] matches Err(e) ==> collected(chunks) == Err::<BundleView, Seq<char>>(
                "Stream error: "@ + e,
            )
            &&& chunks[i] is Ok && 200 * 1024 * 1024 < bytes_brought(chunks.take(i + 1)).len()
                <= usize::MAX ==> collected(chunks) == Err::<BundleView, Seq<char>>(
                "Stream bundle exceeds maximum size limit ("@ + decimal_spec(
                    bytes_brought(chunks.take(i + 1)).len(),
                ) + " bytes > "@ + decimal_spec(200 * 1024 * 1024) + " bytes)"@,
            )
        },
        chunks.len() == 0 ==> collected(chunks) == Err::<BundleView, Seq<char>>(
            "Empty stream: no chunks received"@,
        ),
        chunks.len() > 0 && (forall|j: int| 0 <= j < chunks.len() ==> (#[trigger] chunks[j]) is Ok)
            && bytes_brought(chunks).len() <= 200 * 1024 * 1024
            && chunks.last()->Ok_0.sha256.len() == 0 ==> collected(chunks) == Err::<
            BundleView,
            Seq<char>,
        >("Stream ended without terminal sha256 fingerprint"@),
        chunks.len() > 0 && (forall|j: int| 0 <= j < chunks.len() ==> (#[trigger] chunks[j]) is Ok)
            && bytes_brought(chunks).len() == 0 && chunks.last()->Ok_0.sha256.len() > 0
            ==> collected(chunks) == Err::<BundleView, Seq<char>>("Received empty stream bundle"@),
{
    lemma_collected(chunks);
    if 0 <= i < chunks.len() && (forall|j: int| 0 <= j < i ==> (#[trigger] chunks[j]) is Ok)
        && bytes_brought(chunks.take(i)).len() <= 200 * 1024 * 1024 {
        let before = chunks.take(i);
        let upto = chunks.take(i + 1);
        lemma_collected(before);
        assert forall|j: int| 0 <= j < before.len() implies (#[trigger] before[j]) is Ok by {
            assert(chunks[j] == before[j]);
        }
        assert(upto.drop_last() =~= before);
        assert(upto.last() == chunks[i]);
        assert(upto =~= before.push(chunks[i]));
        lemma_bytes_brought_push(before, chunks[i]);
        lemma_first_refusal_stays(chunks, i + 1);
    }
}

proof fn lemma_first_refusal_stays(chunks: Seq<Result<BundleView, Seq<char>>>, n: int)
    requires
        0 <= n <= chunks.len(),
    ensures
        with_chunks(chunks.take(n)) is Err ==> with_chunks(chunks) == with_chunks(chunks.take(n)),
    decreases chunks.len(),
{
    if n == chunks.len() {
        assert(chunks.take(n) =~= chunks);
    } else {
        lemma_first_refusal_stays(chunks.drop_last(), n);
        assert(chunks.drop_last().take(n) =~= chunks.take(n));
    }
}

/// A fingerprint that is refused is named, and so is the digest, in small digits.
pub proof fn law_refused_fingerprint_is_named(sha256: Seq<char>, digest: Seq<u8>)
    requires
        fingerprint_verdict(sha256, digest) is Err,
    ensures
        fingerprint_verdict(sha256, digest)->Err_0 == "Bundle fingerprint mismatch: expected "@
            + sha256 + ", got "@ + hex_text(digest),
        spells_bytes(hex_text(digest), digest),
        forall|i: int|
            0 <= i < hex_text(digest).len() ==> !(65 <= (#[trigger] hex_text(digest)[i]) as int
                <= 90),
{
    lemma_hex_text(digest);
    let hex = hex_text(digest);
    assert forall|i: int| 0 <= i < hex.len() implies !(65 <= (#[trigger] hex[i]) as int <= 90) by {
        let k = i / 2;
        assert(hex[2 * k] == hex_char(digest[k] as int / 16));
        assert(hex[2 * k + 1] == hex_char(digest[k] as int % 16));
    }
    law_fingerprint_is_the_digest(hex, digest);
}

/// Bytes come through as an archive exactly where they are one that is accepted, and it
/// is then the archive that they make up.
pub proof fn law_accepted_bytes_are_their_archive(
    data: Seq<u8>,
    rules: PathRules,
    r: Result<ZipArchive<Cursor<Vec<u8>>>, String>,
)
    requires
        is_validated(data, rules, r),
    ensures
        r is Ok <==> (archive_in(data) matches Ok(entries) && archive_verdict(entries, rules) is Ok),
        r matches Ok(archive) ==> archive_in(data) matches Ok(entries) && entries == archive_entries(
            archive,
        ),
        archive_in(data) matches Err(e) ==> r matches Err(m) && m@ == "Failed to open zip archive: "@
            + e,
        archive_in(data) matches Ok(entries) ==> archive_verdict(entries, rules) matches Err(e) ==> r
            matches Err(m) && m@ == e,
{
}

} // verus!
