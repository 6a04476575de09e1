//! Tokenizer bundles: collecting them from a stream, and checking what came.
use crate::text::{
    chars_of, decimal, decimal_spec, eq_ignoring_case, same_ignoring_case,
};
use crate::tool_parser::json::hex_char;
use sha2::Digest;
use std::io::Cursor;
use vstd::prelude::*;
use zip::ZipArchive;

verus! {

/// How many entries an archive may have.
pub const MAX_ZIP_ENTRIES: usize = 50;

/// How many bytes the entries of an archive may have together.
pub const MAX_UNCOMPRESSED_SIZE: u64 = 524_288_000;

/// How many bytes a bundle may have.
pub const MAX_STREAM_BUNDLE_SIZE: usize = 209_715_200;

// ---- Collecting ----

/// A bundle, with its fingerprint.
#[derive(Debug)]
pub struct StreamBundle {
    pub sha256: String,
    pub compressed_data: Vec<u8>,
}

/// What a bundle holds.
#[verifier::ext_equal]
pub struct BundleView {
    pub sha256: Seq<char>,
    pub data: Seq<u8>,
}

impl View for StreamBundle {
    type V = BundleView;

    open spec fn view(&self) -> BundleView {
        BundleView { sha256: self.sha256@, data: self.compressed_data@ }
    }
}

/// A chunk of a bundle. The fingerprint comes with the last one.
#[derive(Debug)]
pub struct BundleChunk {
    pub data: Vec<u8>,
    pub sha256: String,
}

impl View for BundleChunk {
    type V = BundleView;

    open spec fn view(&self) -> BundleView {
        BundleView { sha256: self.sha256@, data: self.data@ }
    }
}

/// What has come of a bundle.
#[verifier::ext_equal]
pub struct CollectorView {
    pub sha256: Seq<char>,
    pub data: Seq<u8>,
    pub saw_chunk: bool,
    pub last_had_sha: bool,
}

/// Nothing has come.
pub open spec fn nothing_collected() -> CollectorView {
    CollectorView {
        sha256: Seq::empty(),
        data: Seq::empty(),
        saw_chunk: false,
        last_had_sha: false,
    }
}

/// What is said of a bundle that is too large.
pub open spec fn too_large_message(total: nat) -> Seq<char> {
    "Stream bundle exceeds maximum size limit ("@ + decimal_spec(total) + " bytes > "@
        + decimal_spec(MAX_STREAM_BUNDLE_SIZE as nat) + " bytes)"@
}

/// What has come after a further chunk. It is refused where it makes the bundle
/// too large.
pub open spec fn with_chunk(s: CollectorView, chunk: BundleView) -> Result<
    CollectorView,
    Seq<char>,
> {
    let total = s.data.len() + chunk.data.len();
    if total > usize::MAX {
        Err("Stream bundle size overflow"@)
    } else if total > MAX_STREAM_BUNDLE_SIZE {
        Err(too_large_message(total))
    } else {
        Ok(
            CollectorView {
                sha256: if chunk.sha256.len() > 0 {
                    chunk.sha256
                } else {
                    s.sha256
                },
                data: s.data + chunk.data,
                saw_chunk: true,
                last_had_sha: chunk.sha256.len() > 0,
            },
        )
    }
}

/// The bundle that has come. It is refused where no chunk came, where the last
/// one had no fingerprint, and where there are no bytes.
pub open spec fn finished(s: CollectorView) -> Result<BundleView, Seq<char>> {
    if !s.saw_chunk {
        Err("Empty stream: no chunks received"@)
    } else if !s.last_had_sha {
        Err("Stream ended without terminal sha256 fingerprint"@)
    } else if s.data.len() == 0 {
        Err("Received empty stream bundle"@)
    } else {
        Ok(BundleView { sha256: s.sha256, data: s.data })
    }
}

/// What has come after a sequence of chunks, or the first refusal. A chunk that
/// did not arrive ends the stream.
pub open spec fn with_chunks(chunks: Seq<Result<BundleView, Seq<char>>>) -> Result<
    CollectorView,
    Seq<char>,
>
    decreases chunks.len(),
{
    if chunks.len() == 0 {
        Ok(nothing_collected())
    } else {
        match with_chunks(chunks.drop_last()) {
            Err(e) => Err(e),
            Ok(s) => match chunks.last() {
                Err(e) => Err("Stream error: "@ + e),
                Ok(chunk) => with_chunk(s, chunk),
            },
        }
    }
}

/// The bundle that a sequence of chunks makes up, or the first refusal.
pub open spec fn collected(chunks: Seq<Result<BundleView, Seq<char>>>) -> Result<
    BundleView,
    Seq<char>,
> {
    match with_chunks(chunks) {
        Err(e) => Err(e),
        Ok(s) => finished(s),
    }
}

/// The bytes of chunks one after another.
pub open spec fn all_bytes(chunks: Seq<Result<BundleView, Seq<char>>>) -> Seq<u8>
    decreases chunks.len(),
{
    if chunks.len() == 0 {
        Seq::empty()
    } else {
        all_bytes(chunks.drop_last()) + (match chunks.last() {
            Ok(chunk) => chunk.data,
            Err(_) => Seq::empty(),
        })
    }
}

proof fn lemma_with_chunks(chunks: Seq<Result<BundleView, Seq<char>>>)
    ensures
        with_chunks(chunks) matches Ok(s) ==> {
            &&& s.data == all_bytes(chunks)
            &&& s.data.len() <= MAX_STREAM_BUNDLE_SIZE
            &&& s.saw_chunk == (chunks.len() > 0)
            &&& forall|i: int| 0 <= i < chunks.len() ==> (#[trigger] chunks[i]) is Ok
            &&& s.last_had_sha ==> chunks.len() > 0 && (chunks.last() matches Ok(chunk)
                && chunk.sha256.len() > 0 && s.sha256 == chunk.sha256)
        },
    decreases chunks.len(),
{
    if chunks.len() > 0 {
        lemma_with_chunks(chunks.drop_last());
        if with_chunks(chunks) is Ok {
            let init = chunks.drop_last();
            assert forall|i: int| 0 <= i < chunks.len() implies (#[trigger] chunks[i]) is Ok by {
                if i < init.len() {
                    assert(init[i] is Ok);
                }
            }
        }
    }
}

/// A bundle that is accepted is whole: every chunk arrived, its bytes are those
/// of the chunks one after another, its fingerprint is the one that came with the
/// last chunk, and it is neither empty nor too large.
pub proof fn law_accepted_bundle_is_whole(chunks: Seq<Result<BundleView, Seq<char>>>)
    ensures
        collected(chunks) matches Ok(bundle) ==> {
            &&& bundle.data == all_bytes(chunks)
            &&& 0 < bundle.data.len() <= MAX_STREAM_BUNDLE_SIZE
            &&& forall|i: int| 0 <= i < chunks.len() ==> (#[trigger] chunks[i]) is Ok
            &&& chunks.len() > 0
            &&& chunks.last() matches Ok(chunk) && bundle.sha256 == chunk.sha256
                && chunk.sha256.len() > 0
        },
{
    lemma_with_chunks(chunks);
}

/// What has come of a bundle.
pub struct BundleCollector {
    sha256: String,
    data: Vec<u8>,
    saw_chunk: bool,
    last_chunk_had_sha: bool,
}

impl View for BundleCollector {
    type V = CollectorView;

    closed spec fn view(&self) -> CollectorView {
        CollectorView {
            sha256: self.sha256@,
            data: self.data@,
            saw_chunk: self.saw_chunk,
            last_had_sha: self.last_chunk_had_sha,
        }
    }
}

impl BundleCollector {
    /// Nothing has come.
    pub fn new() -> (r: Self)
        ensures
            r@ == nothing_collected(),
    {
        let r = BundleCollector {
            sha256: String::new(),
            data: Vec::new(),
            saw_chunk: false,
            last_chunk_had_sha: false,
        };
        assert(r@ =~= nothing_collected());
        r
    }

    /// Take in a chunk. See [`with_chunk`].
    pub fn add_chunk(&mut self, chunk: BundleChunk) -> (r: Result<(), String>)
        ensures
            match with_chunk(old(self)@, chunk@) {
                Ok(s) => r is Ok && final(self)@ == s,
                Err(e) => (r matches Err(m) && m@ == e) && final(self)@ == old(self)@,
            },
    {
        let held = self.data.len();
        let more = chunk.data.len();
        if more > usize::MAX - held {
            return Err("Stream bundle size overflow".to_owned());
        }
        let total = held + more;
        if total > MAX_STREAM_BUNDLE_SIZE {
            let mut m = "Stream bundle exceeds maximum size limit (".to_owned();
            m.append(decimal(total as u64).as_str());
            m.append(" bytes > ");
            m.append(decimal(MAX_STREAM_BUNDLE_SIZE as u64).as_str());
            m.append(" bytes)");
            return Err(m);
        }
        let ghost before = self@;
        let ghost view = chunk@;
        self.saw_chunk = true;
        self.last_chunk_had_sha = !chunk.sha256.as_str().is_empty();
        if self.last_chunk_had_sha {
            self.sha256 = chunk.sha256;
        }
        let mut data = chunk.data;
        self.data.append(&mut data);
        assert(self@ =~= with_chunk(before, view)->Ok_0);
        Ok(())
    }

    /// The bundle that has come. See [`finished`].
    pub fn finish(self) -> (r: Result<StreamBundle, String>)
        ensures
            match finished(self@) {
                Ok(bundle) => r matches Ok(b) && b@ == bundle,
                Err(e) => r matches Err(m) && m@ == e,
            },
    {
        if !self.saw_chunk {
            return Err("Empty stream: no chunks received".to_owned());
        }
        if !self.last_chunk_had_sha {
            return Err("Stream ended without terminal sha256 fingerprint".to_owned());
        }
        if self.data.len() == 0 {
            return Err("Received empty stream bundle".to_owned());
        }
        Ok(StreamBundle { sha256: self.sha256, compressed_data: self.data })
    }
}

/// What a sequence of chunks says.
pub open spec fn chunks_view(chunks: Seq<Result<BundleChunk, String>>) -> Seq<
    Result<BundleView, Seq<char>>,
> {
    chunks.map_values(
        |c: Result<BundleChunk, String>|
            match c {
                Ok(chunk) => Ok::<BundleView, Seq<char>>(chunk@),
                Err(e) => Err::<BundleView, Seq<char>>(e@),
            },
    )
}

proof fn lemma_refused_stays_refused(chunks: Seq<Result<BundleView, Seq<char>>>, n: int)
    requires
        0 <= n <= chunks.len(),
        with_chunks(chunks.take(n)) is Err,
    ensures
        with_chunks(chunks) == with_chunks(chunks.take(n)),
    decreases chunks.len() - n,
{
    if n < chunks.len() {
        assert(chunks.take(n + 1).drop_last() =~= chunks.take(n));
        lemma_refused_stays_refused(chunks, n + 1);
    } else {
        assert(chunks.take(n) =~= chunks);
    }
}

/// Collect a bundle from the chunks of a stream, in the order in which they come.
/// See [`collected`].
pub fn collect_stream_bundle(chunks: Vec<Result<BundleChunk, String>>) -> (r: Result<
    StreamBundle,
    String,
>)
    ensures
        match collected(chunks_view(chunks@)) {
            Ok(bundle) => r matches Ok(b) && b@ == bundle,
            Err(e) => r matches Err(m) && m@ == e,
        },
{
    let ghost all = chunks_view(chunks@);
    let mut collector = BundleCollector::new();
    assert(all.take(0) =~= Seq::<Result<BundleView, Seq<char>>>::empty());
    for chunk in it: chunks.into_iter()
        invariant
            it.seq() == chunks@,
            all == chunks_view(chunks@),
            with_chunks(all.take(it.index() as int)) == Ok::<CollectorView, Seq<char>>(collector@),
    {
        let ghost i = it.index() as int;
        proof {
            assert(all.take(i + 1).drop_last() =~= all.take(i));
            assert(all.take(i + 1).last() == all[i]);
        }
        match chunk {
            Ok(chunk) => {
                match collector.add_chunk(chunk) {
                    Ok(_) => {},
                    Err(e) => {
                        proof {
                            lemma_refused_stays_refused(all, i + 1);
                        }
                        return Err(e);
                    },
                }
            },
            Err(e) => {
                proof {
                    lemma_refused_stays_refused(all, i + 1);
                }
                let mut m = "Stream error: ".to_owned();
                m.append(e.as_str());
                return Err(m);
            },
        }
    }
    assert(all.take(all.len() as int) =~= all);
    collector.finish()
}

// ---- Fingerprints ----

/// The bytes of a fingerprint in hexadecimal, in small letters.
pub open spec fn hex_text(bytes: Seq<u8>) -> Seq<char>
    decreases bytes.len(),
{
    if bytes.len() == 0 {
        Seq::empty()
    } else {
        hex_text(bytes.drop_last()).push(hex_char(bytes.last() as int / 16)).push(
            hex_char(bytes.last() as int % 16),
        )
    }
}

fn hex_digit(d: u8) -> (r: char)
    requires
        d < 16,
    ensures
        r == hex_char(d as int),
{
    if d < 10 {
        (48 + d) as char
    } else {
        (87 + d) as char
    }
}

/// Bytes in hexadecimal, in small letters.
pub fn hex_lower(bytes: &[u8]) -> (r: String)
    ensures
        r@ == hex_text(bytes@),
{
    let mut out = String::new();
    let n = bytes.len();
    for i in 0..n
        invariant
            n == bytes@.len(),
            out@ == hex_text(bytes@.take(i as int)),
    {
        assert(bytes@.take(i + 1).drop_last() =~= bytes@.take(i as int));
        let b: u8 = bytes[i];
        out.push(hex_digit(b / 16));
        out.push(hex_digit(b % 16));
    }
    assert(bytes@.take(n as int) =~= bytes@);
    out
}

/// The SHA-256 digest of bytes.
pub uninterp spec fn sha256_of(data: Seq<u8>) -> Seq<u8>;

/// `Sha256::digest` depends on the bytes alone, and has 32 bytes.
#[verifier::external_body]
fn sha256_digest(data: &Vec<u8>) -> (r: Vec<u8>)
    ensures
        r@ == sha256_of(data@),
        r@.len() == 32,
{
    sha2::Sha256::digest(data).to_vec()
}

/// What is said of bytes under a fingerprint, given their digest. An empty
/// fingerprint asks nothing, and capital letters count as small ones.
pub open spec fn fingerprint_verdict(sha256: Seq<char>, digest: Seq<u8>) -> Result<
    (),
    Seq<char>,
> {
    if sha256.len() == 0 || same_ignoring_case(hex_text(digest), sha256) {
        Ok(())
    } else {
        Err("Bundle fingerprint mismatch: expected "@ + sha256 + ", got "@ + hex_text(digest))
    }
}

/// Compare a fingerprint with a digest. See [`fingerprint_verdict`].
pub fn check_fingerprint(sha256: &str, digest: &[u8]) -> (r: Result<(), String>)
    ensures
        match fingerprint_verdict(sha256@, digest@) {
            Ok(_) => r is Ok,
            Err(e) => r matches Err(m) && m@ == e,
        },
{
    if sha256.is_empty() {
        return Ok(());
    }
    let computed = hex_lower(digest);
    if !eq_ignoring_case(computed.as_str(), sha256) {
        let mut m = "Bundle fingerprint mismatch: expected ".to_owned();
        m.append(sha256);
        m.append(", got ");
        m.append(computed.as_str());
        return Err(m);
    }
    Ok(())
}

/// Whether the bytes of a bundle are those of its fingerprint. A bundle without
/// one is not checked.
pub fn validate_bundle_sha256(bundle: &StreamBundle) -> (r: Result<(), String>)
    ensures
        match fingerprint_verdict(bundle@.sha256, sha256_of(bundle@.data)) {
            Ok(_) => r is Ok,
            Err(e) => r matches Err(m) && m@ == e,
        },
{
    if bundle.sha256.as_str().is_empty() {
        return Ok(());
    }
    let digest = sha256_digest(&bundle.compressed_data);
    check_fingerprint(bundle.sha256.as_str(), digest.as_slice())
}

/// A fingerprint is accepted whether its letters are small or capital: two that
/// differ in nothing else get one answer.
pub proof fn law_fingerprint_ignores_case(a: Seq<char>, b: Seq<char>, digest: Seq<u8>)
    requires
        same_ignoring_case(a, b),
    ensures
        (fingerprint_verdict(a, digest) is Ok) == (fingerprint_verdict(b, digest) is Ok),
{
    assert(crate::text::lower_text(a).len() == crate::text::lower_text(b).len());
}

/// A bundle under its own fingerprint is accepted.
pub proof fn law_own_fingerprint_is_accepted(digest: Seq<u8>)
    ensures
        fingerprint_verdict(hex_text(digest), digest) is Ok,
{
}

// ---- Archives ----

/// `std::io::Cursor`: a reader over bytes.
#[verifier::external_type_specification]
#[verifier::external_body]
#[verifier::reject_recursive_types(T)]
pub struct ExCursor<T>(Cursor<T>);

/// `zip::ZipArchive`: an archive that has been opened.
#[verifier::external_type_specification]
#[verifier::external_body]
#[verifier::reject_recursive_types(R)]
pub struct ExZipArchive<R>(ZipArchive<R>);

/// What an archive holds: for each entry its name and its size when it is not
/// compressed, or why it cannot be read.
pub uninterp spec fn archive_entries(archive: ZipArchive<Cursor<Vec<u8>>>) -> Seq<
    Result<(Seq<char>, u64), Seq<char>>,
>;

/// What the archive that bytes make up holds, or why they are no archive.
pub uninterp spec fn archive_in(data: Seq<u8>) -> Result<
    Seq<Result<(Seq<char>, u64), Seq<char>>>,
    Seq<char>,
>;

/// `ZipArchive::new` reads the directory of an archive. Whether that succeeds,
/// what it finds, and what it says where it fails, depends on the bytes alone.
#[verifier::external_body]
fn open_archive(data: Vec<u8>) -> (r: Result<ZipArchive<Cursor<Vec<u8>>>, String>)
    ensures
        match r {
            Ok(archive) => archive_in(data@) == (Ok::<
                Seq<Result<(Seq<char>, u64), Seq<char>>>,
                Seq<char>,
            >(archive_entries(archive))),
            Err(e) => archive_in(data@) == (Err::<
                Seq<Result<(Seq<char>, u64), Seq<char>>>,
                Seq<char>,
            >(e@)),
        },
{
    ZipArchive::new(Cursor::new(data)).map_err(|e| e.to_string())
}

/// `ZipArchive::len`: how many entries there are.
#[verifier::external_body]
fn archive_len(archive: &ZipArchive<Cursor<Vec<u8>>>) -> (r: usize)
    ensures
        r == archive_entries(*archive).len(),
{
    archive.len()
}

/// An entry of an archive.
#[derive(Debug)]
pub struct ZipEntry {
    pub name: String,
    pub size: u64,
}

/// What is known of an entry.
pub open spec fn entry_view(entry: Result<ZipEntry, String>) -> Result<
    (Seq<char>, u64),
    Seq<char>,
> {
    match entry {
        Ok(e) => Ok((e.name@, e.size)),
        Err(m) => Err(m@),
    }
}

/// What is known of entries.
pub open spec fn entries_view(entries: Seq<Result<ZipEntry, String>>) -> Seq<
    Result<(Seq<char>, u64), Seq<char>>,
> {
    entries.map_values(|e: Result<ZipEntry, String>| entry_view(e))
}

/// `ZipArchive::by_index` finds an entry by its place. Of the entry, `name` and
/// `size` are taken. What the archive holds stays.
#[verifier::external_body]
fn archive_entry(archive: &mut ZipArchive<Cursor<Vec<u8>>>, i: usize) -> (r: Result<
    ZipEntry,
    String,
>)
    requires
        i < archive_entries(*old(archive)).len(),
    ensures
        archive_entries(*final(archive)) == archive_entries(*old(archive)),
        entry_view(r) == archive_entries(*old(archive))[i as int],
{
    match archive.by_index(i) {
        Ok(entry) => Ok(ZipEntry { name: entry.name().to_owned(), size: entry.size() }),
        Err(e) => Err(e.to_string()),
    }
}

/// How paths are written.
#[derive(Debug, Clone, Copy, PartialEq, Eq, Structural)]
pub enum PathRules {
    /// Slashes part the components.
    Unix,
    /// Slashes and backslashes part the components, and a path may begin with a
    /// drive.
    Windows,
}

/// A character parts the components of paths.
pub open spec fn parts_paths(rules: PathRules, c: char) -> bool {
    c == '/' || (rules == PathRules::Windows && c == '\\')
}

/// `path[from..to]` is a component of a path: it stands between separators.
pub open spec fn is_component(path: Seq<char>, rules: PathRules, from: int, to: int) -> bool {
    &&& 0 <= from <= to <= path.len()
    &&& from == 0 || parts_paths(rules, path[from - 1])
    &&& to == path.len() || parts_paths(rules, path[to])
}

/// A path begins with a drive: a letter and a colon.
pub open spec fn begins_with_drive(path: Seq<char>) -> bool {
    &&& path.len() >= 2
    &&& 'a' <= path[0] <= 'z' || 'A' <= path[0] <= 'Z'
    &&& path[1] == ':'
}

/// A path may lead out of the directory in which it is taken: it starts at the
/// root or at a drive, or one of its components is the parent directory.
pub open spec fn leads_out(path: Seq<char>, rules: PathRules) -> bool {
    ||| path.len() > 0 && parts_paths(rules, path[0])
    ||| rules == PathRules::Windows && begins_with_drive(path)
    ||| exists|from: int|
        #[trigger] is_component(path, rules, from, from + 2) && path[from] == '.' && path[from + 1]
            == '.'
}

/// A path that leads out by the rules of Unix leads out by those of Windows. One
/// without a backslash or a colon leads out by both or by neither.
pub proof fn law_windows_refuses_no_less(path: Seq<char>)
    ensures
        leads_out(path, PathRules::Unix) ==> leads_out(path, PathRules::Windows),
        !path.contains('\\') && !path.contains(':') ==> leads_out(path, PathRules::Unix)
            == leads_out(path, PathRules::Windows),
{
    let unix = PathRules::Unix;
    let windows = PathRules::Windows;
    assert forall|from: int| #[trigger] is_component(path, unix, from, from + 2) implies is_component(
        path,
        windows,
        from,
        from + 2,
    ) by {}
    if !path.contains('\\') && !path.contains(':') {
        assert forall|i: int| 0 <= i < path.len() implies #[trigger] path[i] != '\\' && path[i]
            != ':' by {
            assert(path.contains(path[i]));
        }
        assert forall|from: int| #[trigger]
            is_component(path, windows, from, from + 2) implies is_component(
            path,
            unix,
            from,
            from + 2,
        ) by {}
    }
}

/// `std::path::is_separator`: whether a character parts the components of paths on
/// the machine on which the program runs. Which machine that is, nothing says.
#[verifier::external_body]
fn machine_separates_at(c: char) -> (r: bool) {
    std::path::is_separator(c)
}

/// The rules of the machine on which the program runs: those of Windows where a
/// backslash parts paths.
fn machine_rules() -> (r: PathRules) {
    if machine_separates_at('\\') {
        PathRules::Windows
    } else {
        PathRules::Unix
    }
}

fn is_separator(rules: PathRules, c: char) -> (r: bool)
    ensures
        r == parts_paths(rules, c),
{
    c == '/' || (rules == PathRules::Windows && c == '\\')
}

/// Whether a path may lead out of the directory in which it is taken.
pub fn has_traversal(path: &str, rules: PathRules) -> (r: bool)
    ensures
        r == leads_out(path@, rules),
{
    let chars = chars_of(path);
    let n = chars.len();
    if n > 0 && is_separator(rules, chars[0]) {
        return true;
    }
    if rules == PathRules::Windows && n >= 2 && chars[1] == ':' {
        let c = chars[0];
        if ('a' <= c && c <= 'z') || ('A' <= c && c <= 'Z') {
            return true;
        }
    }
    let mut i: usize = 0;
    while i < n && n - i >= 2
        invariant
            n == chars@.len(),
            i <= n,
            chars@ == path@,
            !(n > 0 && parts_paths(rules, chars@[0])),
            !(rules == PathRules::Windows && begins_with_drive(path@)),
            forall|from: int|
                0 <= from < i && #[trigger] is_component(path@, rules, from, from + 2) ==> !(
                path@[from] == '.' && path@[from + 1] == '.'),
        decreases n - i,
    {
        let starts = i == 0 || is_separator(rules, chars[i - 1]);
        let ends = n - i == 2 || is_separator(rules, chars[i + 2]);
        assert((starts && ends) == is_component(path@, rules, i as int, i + 2));
        if starts && ends && chars[i] == '.' && chars[i + 1] == '.' {
            return true;
        }
        i = i + 1;
    }
    false
}

/// The sum of two sizes, unless it is too large to be one.
pub fn checked_add_uncompressed_size(total: u64, entry_size: u64) -> (r: Result<u64, String>)
    ensures
        if total + entry_size <= u64::MAX {
            r matches Ok(sum) && sum == total + entry_size
        } else {
            r matches Err(m) && m@ == "Zip archive total uncompressed size overflowed u64"@
        },
{
    if entry_size > u64::MAX - total {
        Err("Zip archive total uncompressed size overflowed u64".to_owned())
    } else {
        Ok(total + entry_size)
    }
}

/// What is said of an archive with too many entries.
pub open spec fn too_many_message(count: nat) -> Seq<char> {
    "Zip archive has too many entries ("@ + decimal_spec(count) + " > "@ + decimal_spec(
        MAX_ZIP_ENTRIES as nat,
    ) + ")"@
}

/// How large the first entries are together, or what is wrong with the first of
/// them that cannot be read, leads out, or is too large.
pub open spec fn size_of_entries(
    entries: Seq<Result<(Seq<char>, u64), Seq<char>>>,
    rules: PathRules,
) -> Result<
    u64,
    Seq<char>,
>
    decreases entries.len(),
{
    if entries.len() == 0 {
        Ok(0)
    } else {
        match size_of_entries(entries.drop_last(), rules) {
            Err(e) => Err(e),
            Ok(total) => match entries.last() {
                Err(e) => Err(
                    "Failed to read zip entry "@ + decimal_spec((entries.len() - 1) as nat) + ": "@
                        + e,
                ),
                Ok((name, size)) => if leads_out(name, rules) {
                    Err("Zip archive contains unsafe path: "@ + name)
                } else if total + size > u64::MAX {
                    Err("Zip archive total uncompressed size overflowed u64"@)
                } else {
                    Ok((total + size) as u64)
                },
            },
        }
    }
}

/// What is said of an archive, given its entries.
pub open spec fn archive_verdict(
    entries: Seq<Result<(Seq<char>, u64), Seq<char>>>,
    rules: PathRules,
) -> Result<
    (),
    Seq<char>,
> {
    if entries.len() > MAX_ZIP_ENTRIES {
        Err(too_many_message(entries.len()))
    } else {
        match size_of_entries(entries, rules) {
            Err(e) => Err(e),
            Ok(total) => if total > MAX_UNCOMPRESSED_SIZE {
                Err(
                    "Zip archive uncompressed size too large ("@ + decimal_spec(total as nat)
                        + " bytes > "@ + decimal_spec(MAX_UNCOMPRESSED_SIZE as nat) + " bytes)"@,
                )
            } else {
                Ok(())
            },
        }
    }
}

/// An entry can be read and does not lead out.
pub open spec fn harmless(
    entry: Result<(Seq<char>, u64), Seq<char>>,
    rules: PathRules,
) -> bool {
    match entry {
        Ok((name, _)) => !leads_out(name, rules),
        Err(_) => false,
    }
}

/// The bytes that entries have together, where all can be read.
pub open spec fn total_size(entries: Seq<Result<(Seq<char>, u64), Seq<char>>>) -> nat
    decreases entries.len(),
{
    if entries.len() == 0 {
        0
    } else {
        total_size(entries.drop_last()) + (match entries.last() {
            Ok((_, size)) => size as nat,
            Err(_) => 0,
        })
    }
}

proof fn lemma_size_of_entries(
    entries: Seq<Result<(Seq<char>, u64), Seq<char>>>,
    rules: PathRules,
)
    ensures
        size_of_entries(entries, rules) matches Ok(total) ==> total == total_size(entries) && forall|
            i: int,
        |
            0 <= i < entries.len() ==> harmless(#[trigger] entries[i], rules),
    decreases entries.len(),
{
    if entries.len() > 0 && size_of_entries(entries, rules) is Ok {
        let init = entries.drop_last();
        lemma_size_of_entries(init, rules);
        assert forall|i: int| 0 <= i < entries.len() implies harmless(#[trigger] entries[i], rules) by {
            if i < init.len() {
                assert(init[i] == entries[i]);
            }
        }
    }
}

/// An archive that is accepted is harmless: it has few entries, all of them can
/// be read, none of them leads out, and together they are not too large.
pub proof fn law_accepted_archive_is_harmless(
    entries: Seq<Result<(Seq<char>, u64), Seq<char>>>,
    rules: PathRules,
)
    requires
        archive_verdict(entries, rules) is Ok,
    ensures
        entries.len() <= MAX_ZIP_ENTRIES,
        total_size(entries) <= MAX_UNCOMPRESSED_SIZE,
        forall|i: int|
            0 <= i < entries.len() ==> harmless(#[trigger] entries[i], rules),
{
    lemma_size_of_entries(entries, rules);
}

proof fn lemma_bad_entry_stays_bad(
    entries: Seq<Result<(Seq<char>, u64), Seq<char>>>,
    rules: PathRules,
    n: int,
)
    requires
        0 <= n <= entries.len(),
        size_of_entries(entries.take(n), rules) is Err,
    ensures
        size_of_entries(entries, rules) == size_of_entries(entries.take(n), rules),
    decreases entries.len() - n,
{
    if n < entries.len() {
        assert(entries.take(n + 1).drop_last() =~= entries.take(n));
        lemma_bad_entry_stays_bad(entries, rules, n + 1);
    } else {
        assert(entries.take(n) =~= entries);
    }
}

fn too_many_entries(count: usize) -> (r: String)
    ensures
        r@ == too_many_message(count as nat),
{
    let mut m = "Zip archive has too many entries (".to_owned();
    m.append(decimal(count as u64).as_str());
    m.append(" > ");
    m.append(decimal(MAX_ZIP_ENTRIES as u64).as_str());
    m.append(")");
    m
}

/// Check an archive, given its entries. See [`archive_verdict`].
pub fn check_zip_entries(entries: &Vec<Result<ZipEntry, String>>, rules: PathRules) -> (r: Result<
    (),
    String,
>)
    ensures
        match archive_verdict(entries_view(entries@), rules) {
            Ok(_) => r is Ok,
            Err(e) => r matches Err(m) && m@ == e,
        },
{
    let ghost all = entries_view(entries@);
    let n = entries.len();
    if n > MAX_ZIP_ENTRIES {
        return Err(too_many_entries(n));
    }
    let mut total: u64 = 0;
    assert(all.take(0) =~= Seq::<Result<(Seq<char>, u64), Seq<char>>>::empty());
    for i in 0..n
        invariant
            n == entries@.len(),
            n <= MAX_ZIP_ENTRIES,
            all == entries_view(entries@),
            size_of_entries(all.take(i as int), rules) == Ok::<u64, Seq<char>>(total),
    {
        proof {
            assert(all.take(i + 1).drop_last() =~= all.take(i as int));
            assert(all.take(i + 1).last() == entry_view(entries@[i as int]));
            if size_of_entries(all.take(i + 1), rules) is Err {
                lemma_bad_entry_stays_bad(all, rules, i + 1);
            }
        }
        match &entries[i] {
            Err(e) => {
                let mut m = "Failed to read zip entry ".to_owned();
                m.append(decimal(i as u64).as_str());
                m.append(": ");
                m.append(e.as_str());
                return Err(m);
            },
            Ok(entry) => {
                if has_traversal(entry.name.as_str(), rules) {
                    let mut m = "Zip archive contains unsafe path: ".to_owned();
                    m.append(entry.name.as_str());
                    return Err(m);
                }
                match checked_add_uncompressed_size(total, entry.size) {
                    Ok(sum) => {
                        total = sum;
                    },
                    Err(e) => return Err(e),
                }
            },
        }
    }
    assert(all.take(n as int) =~= all);
    if total > MAX_UNCOMPRESSED_SIZE {
        let mut m = "Zip archive uncompressed size too large (".to_owned();
        m.append(decimal(total).as_str());
        m.append(" bytes > ");
        m.append(decimal(MAX_UNCOMPRESSED_SIZE).as_str());
        m.append(" bytes)");
        return Err(m);
    }
    Ok(())
}

/// What is said of bytes that may be an archive.
pub open spec fn bytes_verdict(data: Seq<u8>, rules: PathRules) -> Result<(), Seq<char>> {
    match archive_in(data) {
        Err(e) => Err("Failed to open zip archive: "@ + e),
        Ok(entries) => archive_verdict(entries, rules),
    }
}

/// What came of bytes is what is said of them, and an archive is the one that they
/// make up.
pub open spec fn is_validated(
    data: Seq<u8>,
    rules: PathRules,
    r: Result<ZipArchive<Cursor<Vec<u8>>>, String>,
) -> bool {
    match bytes_verdict(data, rules) {
        Ok(_) => r matches Ok(archive) && archive_in(data) == Ok::<
            Seq<Result<(Seq<char>, u64), Seq<char>>>,
            Seq<char>,
        >(archive_entries(archive)),
        Err(e) => r matches Err(m) && m@ == e,
    }
}

/// Open an archive and check it, by the rules of the machine on which the program
/// runs, before anything of it is unpacked.
pub fn validate_zip_archive(data: Vec<u8>) -> (r: Result<ZipArchive<Cursor<Vec<u8>>>, String>)
    ensures
        exists|rules: PathRules| #[trigger] is_validated(data@, rules, r),
        r is Ok ==> bytes_verdict(data@, PathRules::Unix) is Ok,
{
    let rules = machine_rules();
    let r = validate_zip_archive_by(data, rules);
    proof {
        assert(is_validated(data@, rules, r));
        if archive_in(data@) is Ok && bytes_verdict(data@, rules) is Ok {
            lemma_harmless_on_unix(archive_in(data@)->Ok_0, rules);
        }
    }
    r
}

proof fn lemma_harmless_on_unix(
    entries: Seq<Result<(Seq<char>, u64), Seq<char>>>,
    rules: PathRules,
)
    ensures
        size_of_entries(entries, rules) is Ok ==> size_of_entries(entries, PathRules::Unix)
            == size_of_entries(entries, rules),
    decreases entries.len(),
{
    if entries.len() > 0 {
        lemma_harmless_on_unix(entries.drop_last(), rules);
        if let Ok((name, _)) = entries.last() {
            law_windows_refuses_no_less(name);
        }
    }
}

/// Open an archive and check it by given rules.
pub fn validate_zip_archive_by(data: Vec<u8>, rules: PathRules) -> (r: Result<
    ZipArchive<Cursor<Vec<u8>>>,
    String,
>)
    ensures
        is_validated(data@, rules, r),
{
    let mut archive = match open_archive(data) {
        Ok(archive) => archive,
        Err(e) => {
            let mut m = "Failed to open zip archive: ".to_owned();
            m.append(e.as_str());
            return Err(m);
        },
    };
    let ghost held = archive_entries(archive);
    let n = archive_len(&archive);
    if n > MAX_ZIP_ENTRIES {
        return Err(too_many_entries(n));
    }
    let mut entries: Vec<Result<ZipEntry, String>> = Vec::new();
    for i in 0..n
        invariant
            n == held.len(),
            archive_entries(archive) == held,
            entries_view(entries@) == held.take(i as int),
    {
        let entry = archive_entry(&mut archive, i);
        assert(entries_view(entries@.push(entry)) =~= held.take(i as int).push(held[i as int]));
        assert(held.take(i + 1) =~= held.take(i as int).push(held[i as int]));
        entries.push(entry);
    }
    assert(held.take(n as int) =~= held);
    match check_zip_entries(&entries, rules) {
        Ok(_) => Ok(archive),
        Err(e) => Err(e),
    }
}

} // verus!
