//! Building the ZIP archive from cleaned entries, and naming it.

use std::io::{Cursor, Write};
use vstd::prelude::*;
use zip::result::ZipError;
use zip::write::SimpleFileOptions;
use zip::ZipWriter;
use crate::text::{chars_of, is_space, lemma_trim_fixed, lemma_trim_shape, push_char, string_of, trim_bounds, trim_spec};

verus! {

/// A ZIP writer over an in-memory buffer. Verus sees nothing inside it; what it
/// holds is named by `zip_entries`, `zip_unrolled` and `zip_open`.
#[verifier::external_body]
pub struct ArchiveWriter {
    inner: ZipWriter<Cursor<Vec<u8>>>,
}

/// `zip::result::ZipError`, carried through opaquely.
#[verifier::external_type_specification]
#[verifier::external_body]
pub struct ExZipError(ZipError);

/// `std::io::Error`, carried through opaquely.
#[verifier::external_type_specification]
#[verifier::external_body]
pub struct ExIoError(std::io::Error);

/// The files that an in-memory ZIP writer holds, in the order they were started:
/// each file's name and the uncompressed bytes written to it.
pub uninterp spec fn zip_entries(w: ArchiveWriter) -> Seq<(Seq<char>, Seq<u8>)>;

/// Whether an in-memory ZIP writer has never rolled back a file that it had begun.
pub uninterp spec fn zip_unrolled(w: ArchiveWriter) -> bool;

/// Whether an in-memory ZIP writer has a file open for writing (its last one).
pub uninterp spec fn zip_open(w: ArchiveWriter) -> bool;

/// The bytes of a finished ZIP archive that holds exactly `entries`, in order, each
/// stored deflated with the writer's default options (this build of `zip` has no
/// clock feature, so every file carries the fixed 1980-01-01 timestamp).
pub uninterp spec fn zip_archive_bytes(entries: Seq<(Seq<char>, Seq<u8>)>) -> Seq<u8>;

/// The number of bytes of the UTF-8 encoding of `s`.
pub open spec fn utf8_len(s: Seq<char>) -> nat {
    vstd::utf8::encode_utf8(s).len()
}

/// The longest file name, in UTF-8 bytes, that a ZIP header can record.
pub const MAX_NAME_BYTES: usize = 65535;

/// The most files an archive holds without the ZIP64 entry count.
pub const MAX_ARCHIVE_FILES: usize = 65535;

/// The most name and content bytes, together, that an archive is built from
/// without any offset or size reaching the 4 GiB limit of plain ZIP headers.
pub const MAX_ARCHIVE_LOAD: u64 = 0x2000_0000;

/// The names of `entries`.
pub open spec fn entry_names(entries: Seq<(Seq<char>, Seq<u8>)>) -> Seq<Seq<char>> {
    entries.map_values(|e: (Seq<char>, Seq<u8>)| e.0)
}

/// The UTF-8 bytes of all names plus all contents of `entries`.
pub open spec fn archive_load(entries: Seq<(Seq<char>, Seq<u8>)>) -> nat
    decreases entries.len(),
{
    if entries.len() == 0 {
        0
    } else {
        archive_load(entries.drop_last()) + utf8_len(entries.last().0) + entries.last().1.len()
    }
}

/// Whether `entries` stay within the file count and byte load above.
pub open spec fn within_limits(entries: Seq<(Seq<char>, Seq<u8>)>) -> bool {
    entries.len() <= MAX_ARCHIVE_FILES && archive_load(entries) <= MAX_ARCHIVE_LOAD
}

/// `ZipWriter::new` over an empty in-memory buffer. The new writer holds no files
/// and has rolled nothing back.
#[verifier::external_body]
fn new_archive_writer() -> (w: ArchiveWriter)
    ensures
        zip_entries(w) == Seq::<(Seq<char>, Seq<u8>)>::empty(),
        zip_unrolled(w),
{
    ArchiveWriter { inner: ZipWriter::new(Cursor::new(Vec::new())) }
}

/// `ZipWriter::start_file` with the default options and deflate compression. The
/// name must fit the 16-bit name length of a ZIP header, else the call panics.
/// On success the writer holds one more file, named `name`, still empty and open,
/// and a writer that had rolled nothing back still has not. A name the writer
/// already holds is refused. A new name is accepted when the writer has rolled
/// nothing back, holds fewer than `MAX_ARCHIVE_FILES` files, and its load plus the
/// name stays within `MAX_ARCHIVE_LOAD`: over an in-memory buffer nothing else
/// fails. What an error leaves behind is not stated.
#[verifier::external_body]
fn start_deflated_file(w: &mut ArchiveWriter, name: &str) -> (r: Result<(), ZipError>)
    requires
        utf8_len(name@) <= MAX_NAME_BYTES,
    ensures
        r is Ok ==> zip_entries(*final(w)) == zip_entries(*old(w)).push((name@, Seq::<u8>::empty())),
        r is Ok ==> zip_open(*final(w)),
        r is Ok && zip_unrolled(*old(w)) ==> zip_unrolled(*final(w)),
        entry_names(zip_entries(*old(w))).contains(name@) ==> r is Err,
        zip_unrolled(*old(w)) && !entry_names(zip_entries(*old(w))).contains(name@) && zip_entries(
            *old(w),
        ).len() < MAX_ARCHIVE_FILES && archive_load(zip_entries(*old(w))) + utf8_len(name@)
            <= MAX_ARCHIVE_LOAD ==> r is Ok,
{
    w.inner.start_file(name, SimpleFileOptions::default().compression_method(zip::CompressionMethod::Deflated))
}

/// `Write::write_all` on the ZIP writer. On success with empty `data` nothing
/// changes; with non-empty `data` a file was open, still is, and `data` now ends
/// the last file's contents. A writer that had rolled nothing back still has not.
/// With a file open, a writer that rolled nothing back and a load that stays within
/// `MAX_ARCHIVE_LOAD`, the write succeeds. What an error leaves behind is not stated.
#[verifier::external_body]
fn write_file_data(w: &mut ArchiveWriter, data: &[u8]) -> (r: Result<(), std::io::Error>)
    ensures
        r is Ok && data@.len() == 0 ==> *final(w) == *old(w),
        r is Ok && data@.len() > 0 ==> zip_open(*old(w)) && zip_open(*final(w)) && zip_entries(*old(w)).len() > 0
            && zip_entries(*final(w)) == zip_entries(*old(w)).update(
            zip_entries(*old(w)).len() - 1,
            (zip_entries(*old(w)).last().0, zip_entries(*old(w)).last().1 + data@),
        ),
        r is Ok && zip_unrolled(*old(w)) ==> zip_unrolled(*final(w)),
        zip_unrolled(*old(w)) && zip_open(*old(w)) && zip_entries(*old(w)).len() <= MAX_ARCHIVE_FILES
            && archive_load(zip_entries(*old(w))) + data@.len() <= MAX_ARCHIVE_LOAD ==> r is Ok,
{
    w.inner.write_all(data)
}

/// `ZipWriter::finish`, handing back the in-memory buffer. When the writer never
/// rolled a file back, the bytes are the archive of the files it holds, and within
/// the file count and byte load above the call succeeds.
#[verifier::external_body]
fn finish_archive(w: ArchiveWriter) -> (r: Result<Vec<u8>, ZipError>)
    ensures
        zip_unrolled(w) ==> (r matches Ok(bytes) ==> bytes@ == zip_archive_bytes(zip_entries(w))),
        zip_unrolled(w) && within_limits(zip_entries(w)) ==> r is Ok,
{
    match w.inner.finish() {
        Ok(cursor) => Ok(cursor.into_inner()),
        Err(e) => Err(e),
    }
}

/// The `Display` text of a ZIP error. Nothing is stated of the text.
#[verifier::external_body]
fn describe_zip_error(e: &ZipError) -> String {
    format!("{e}")
}

/// The `Display` text of an I/O error. Nothing is stated of the text.
#[verifier::external_body]
fn describe_io_error(e: &std::io::Error) -> String {
    format!("{e}")
}

/// One file to put into the archive: its name inside the archive and its bytes.
pub struct ArchiveEntry {
    pub path: String,
    pub data: Vec<u8>,
}

/// The name and bytes of each entry.
pub open spec fn entry_views(entries: Seq<ArchiveEntry>) -> Seq<(Seq<char>, Seq<u8>)> {
    entries.map_values(|e: ArchiveEntry| (e.path@, e.data@))
}

/// Why an archive could not be built.
pub enum ArchiveError {
    /// The entry at `index` could not be added.
    AddFile { index: usize, detail: String },
    /// The bytes of the entry at `index` could not be written.
    WriteData { index: usize, detail: String },
    /// The archive could not be finalized.
    Finish { detail: String },
}

impl ArchiveError {
    /// The text shown to the user for this error.
    pub open spec fn message_spec(&self) -> Seq<char> {
        match self {
            ArchiveError::AddFile { detail, .. } => "Could not add file to ZIP: "@ + detail@,
            ArchiveError::WriteData { detail, .. } => "Could not write ZIP content: "@ + detail@,
            ArchiveError::Finish { detail } => "Could not finalize ZIP: "@ + detail@,
        }
    }

    /// The text shown to the user for this error.
    pub fn message(&self) -> (r: String)
        ensures
            r@ == self.message_spec(),
    {
        match self {
            ArchiveError::AddFile { detail, .. } => {
                let mut s = String::from_str("Could not add file to ZIP: ");
                s.append(detail.as_str());
                s
            },
            ArchiveError::WriteData { detail, .. } => {
                let mut s = String::from_str("Could not write ZIP content: ");
                s.append(detail.as_str());
                s
            },
            ArchiveError::Finish { detail } => {
                let mut s = String::from_str("Could not finalize ZIP: ");
                s.append(detail.as_str());
                s
            },
        }
    }
}

/// Whether no two entries share a path.
pub open spec fn paths_distinct(entries: Seq<ArchiveEntry>) -> bool {
    forall|j: int, k: int| 0 <= j < k < entries.len() ==> (#[trigger] entries[j]).path@ != (#[trigger] entries[k]).path@
}

proof fn lemma_load_prefix(e: Seq<(Seq<char>, Seq<u8>)>, i: int)
    requires
        0 <= i <= e.len(),
    ensures
        archive_load(e.subrange(0, i)) <= archive_load(e),
    decreases e.len(),
{
    if i < e.len() {
        assert(e.drop_last() =~= e.subrange(0, e.len() - 1));
        lemma_load_prefix(e.drop_last(), i);
        assert(e.drop_last().subrange(0, i) =~= e.subrange(0, i));
    } else {
        assert(e.subrange(0, i) =~= e);
    }
}

/// Builds a deflated ZIP archive holding `entries` in order, each under its path.
/// It succeeds exactly when no two paths are equal, as long as the entries stay
/// within the file count and byte load of `within_limits`; a refused entry is the
/// first one that repeats an earlier path.
pub fn build_zip_archive(entries: &Vec<ArchiveEntry>) -> (r: Result<Vec<u8>, ArchiveError>)
    requires
        forall|i: int| 0 <= i < entries@.len() ==> utf8_len(#[trigger] entries@[i].path@) <= MAX_NAME_BYTES,
    ensures
        r matches Ok(bytes) ==> bytes@ == zip_archive_bytes(entry_views(entries@)) && paths_distinct(entries@),
        paths_distinct(entries@) && within_limits(entry_views(entries@)) ==> r is Ok,
        r matches Err(ArchiveError::AddFile { index, .. }) ==> index < entries@.len() && paths_distinct(
            entries@.subrange(0, index as int),
        ) && (within_limits(entry_views(entries@)) ==> exists|j: int|
            0 <= j < index && #[trigger] entries@[j].path@ == entries@[index as int].path@),
        r matches Err(ArchiveError::WriteData { index, .. }) ==> index < entries@.len() && !within_limits(
            entry_views(entries@),
        ),
        r matches Err(ArchiveError::Finish { .. }) ==> !within_limits(entry_views(entries@)),
{
    let ghost all = entry_views(entries@);
    let mut w = new_archive_writer();
    let mut i: usize = 0;
    while i < entries.len()
        invariant
            i <= entries@.len(),
            all == entry_views(entries@),
            forall|k: int| 0 <= k < entries@.len() ==> utf8_len(#[trigger] entries@[k].path@) <= MAX_NAME_BYTES,
            zip_unrolled(w),
            zip_entries(w) == all.subrange(0, i as int),
            paths_distinct(entries@.subrange(0, i as int)),
        decreases entries@.len() - i,
    {
        let entry = &entries[i];
        let ghost before = zip_entries(w);
        proof {
            assert(all.subrange(0, i + 1).drop_last() =~= before);
            assert(all.subrange(0, i + 1).last() == (entry.path@, entry.data@));
            lemma_load_prefix(all, i + 1);
        }
        match start_deflated_file(&mut w, entry.path.as_str()) {
            Ok(()) => {},
            Err(e) => {
                proof {
                    if within_limits(all) {
                        assert(entry_names(before).contains(entry.path@));
                        let j = choose|j: int| 0 <= j < entry_names(before).len() && entry_names(before)[j] == entry.path@;
                        assert(entries@[j].path@ == entry_names(before)[j]);
                    }
                }
                return Err(ArchiveError::AddFile { index: i, detail: describe_zip_error(&e) });
            },
        }
        proof {
            assert(!entry_names(before).contains(entry.path@));
            let sub = entries@.subrange(0, i + 1);
            assert forall|j: int, k: int| 0 <= j < k < i + 1 implies (#[trigger] sub[j]).path@
                != (#[trigger] sub[k]).path@ by {
                if k == i {
                    assert(entry_names(before)[j] == entries@[j].path@);
                } else {
                    assert(entries@.subrange(0, i as int)[j] == entries@[j]);
                    assert(entries@.subrange(0, i as int)[k] == entries@[k]);
                }
            }
            assert(archive_load(zip_entries(w)) == archive_load(before) + utf8_len(entry.path@)) by {
                assert(zip_entries(w).drop_last() =~= before);
            }
        }
        match write_file_data(&mut w, entry.data.as_slice()) {
            Ok(()) => {},
            Err(e) => {
                return Err(ArchiveError::WriteData { index: i, detail: describe_io_error(&e) });
            },
        }
        assert(Seq::<u8>::empty() + entry.data@ =~= entry.data@);
        assert(zip_entries(w) =~= all.subrange(0, i + 1));
        i = i + 1;
    }
    assert(all.subrange(0, all.len() as int) =~= all);
    assert(entries@.subrange(0, entries@.len() as int) =~= entries@);
    match finish_archive(w) {
        Ok(bytes) => Ok(bytes),
        Err(e) => Err(ArchiveError::Finish { detail: describe_zip_error(&e) }),
    }
}

/// `/` becomes `_`; every other character stays.
pub open spec fn slash_to_underscore(c: char) -> char {
    if c == '/' {
        '_'
    } else {
        c
    }
}

/// Whether `s` ends with `.zip`.
pub open spec fn has_zip_suffix(s: Seq<char>) -> bool {
    s.len() >= 4 && s.subrange(s.len() - 4, s.len() as int) == seq!['.', 'z', 'i', 'p']
}

/// The archive file name made from what the user typed: trimmed, with `/` turned
/// into `_`, `archive.zip` when nothing is left, and `.zip` added when missing.
pub open spec fn sanitize_spec(value: Seq<char>) -> Seq<char> {
    let cleaned = trim_spec(value).map_values(|c: char| slash_to_underscore(c));
    if cleaned.len() == 0 {
        "archive.zip"@
    } else if has_zip_suffix(cleaned) {
        cleaned
    } else {
        cleaned + seq!['.', 'z', 'i', 'p']
    }
}

/// The archive file name to offer for download, made from what the user typed.
pub fn sanitize_zip_name(value: &str) -> (r: String)
    ensures
        r@ == sanitize_spec(value@),
{
    let v = chars_of(value);
    let (a, b) = trim_bounds(&v);
    let ghost trimmed = v@.subrange(a as int, b as int);
    let ghost mapped = trimmed.map_values(|c: char| slash_to_underscore(c));
    let mut cleaned: Vec<char> = Vec::new();
    let mut i: usize = a;
    while i < b
        invariant
            a <= i <= b <= v@.len(),
            trimmed == v@.subrange(a as int, b as int),
            mapped == trimmed.map_values(|c: char| slash_to_underscore(c)),
            cleaned@ == mapped.subrange(0, i - a),
        decreases b - i,
    {
        let c = v[i];
        let d = if c == '/' {
            '_'
        } else {
            c
        };
        cleaned.push(d);
        i = i + 1;
        assert(cleaned@ =~= mapped.subrange(0, i - a));
    }
    assert(cleaned@ =~= mapped);
    let n = cleaned.len();
    if n == 0 {
        return String::from_str("archive.zip");
    }
    let suffixed = n >= 4 && cleaned[n - 4] == '.' && cleaned[n - 3] == 'z' && cleaned[n - 2] == 'i'
        && cleaned[n - 1] == 'p';
    assert(suffixed == has_zip_suffix(cleaned@)) by {
        if n >= 4 {
            let tail = cleaned@.subrange(n - 4, n as int);
            assert(tail[0] == cleaned@[n - 4] && tail[1] == cleaned@[n - 3] && tail[2] == cleaned@[n
                - 2] && tail[3] == cleaned@[n - 1]);
            if suffixed {
                assert(tail =~= seq!['.', 'z', 'i', 'p']);
            }
        }
    }
    let mut r = string_of(&cleaned);
    if !suffixed {
        push_char(&mut r, '.');
        push_char(&mut r, 'z');
        push_char(&mut r, 'i');
        push_char(&mut r, 'p');
        assert(r@ =~= cleaned@ + seq!['.', 'z', 'i', 'p']);
    }
    r
}

/// The status line shown once the archive `zip_name` is ready.
pub fn zip_ready_message(zip_name: &str) -> (r: String)
    ensures
        r@ == "ZIP ready: "@ + zip_name@,
{
    let mut r = String::from_str("ZIP ready: ");
    r.append(zip_name);
    r
}

proof fn lemma_cleaned_shape(value: Seq<char>)
    ensures
        ({
            let cleaned = trim_spec(value).map_values(|c: char| slash_to_underscore(c));
            &&& cleaned.len() == 0 || (!is_space(cleaned[0]) && !is_space(cleaned.last()))
            &&& forall|t: int| 0 <= t < cleaned.len() ==> #[trigger] cleaned[t] != '/'
        }),
{
    lemma_trim_shape(value);
    let t = trim_spec(value);
    let cleaned = t.map_values(|c: char| slash_to_underscore(c));
    if cleaned.len() > 0 {
        assert(cleaned[0] == slash_to_underscore(t[0]));
        assert(cleaned.last() == slash_to_underscore(t.last()));
    }
}

/// An archive name offered for download is never empty, ends with `.zip`, holds
/// no `/`, and neither starts nor ends with white space.
pub proof fn law_sanitized_name_shape(value: Seq<char>)
    ensures
        sanitize_spec(value).len() > 0,
        has_zip_suffix(sanitize_spec(value)),
        forall|t: int| 0 <= t < sanitize_spec(value).len() ==> #[trigger] sanitize_spec(value)[t] != '/',
        !is_space(sanitize_spec(value)[0]),
        !is_space(sanitize_spec(value).last()),
{
    reveal_strlit("archive.zip");
    lemma_cleaned_shape(value);
    let cleaned = trim_spec(value).map_values(|c: char| slash_to_underscore(c));
    let r = sanitize_spec(value);
    if cleaned.len() == 0 {
        assert(r.subrange(r.len() - 4, r.len() as int) =~= seq!['.', 'z', 'i', 'p']);
    } else if !has_zip_suffix(cleaned) {
        let z = seq!['.', 'z', 'i', 'p'];
        assert(r.subrange(r.len() - 4, r.len() as int) =~= z);
        assert forall|t: int| 0 <= t < r.len() implies #[trigger] r[t] != '/' by {
            if t >= cleaned.len() {
                assert(r[t] == z[t - cleaned.len()]);
            }
        }
        assert(r[0] == cleaned[0]);
    }
}

/// Sanitizing an already sanitized archive name changes nothing.
pub proof fn law_sanitize_idempotent(value: Seq<char>)
    ensures
        sanitize_spec(sanitize_spec(value)) == sanitize_spec(value),
{
    let r = sanitize_spec(value);
    law_sanitized_name_shape(value);
    lemma_trim_fixed(r);
    assert(r.map_values(|c: char| slash_to_underscore(c)) =~= r);
}

/// Sanitizing keeps what was typed: with the white space around it removed, every
/// character stays in place except `/`, which becomes `_`; at most `.zip` is added
/// after it; and a blank entry gives `archive.zip`.
pub proof fn law_sanitize_keeps_typed_name(value: Seq<char>)
    ensures
        ({
            let t = trim_spec(value);
            let r = sanitize_spec(value);
            if t.len() == 0 {
                r == seq!['a', 'r', 'c', 'h', 'i', 'v', 'e', '.', 'z', 'i', 'p']
            } else {
                &&& r.len() == t.len() || (r.len() == t.len() + 4 && r.subrange(t.len() as int, r.len() as int) == seq!['.', 'z', 'i', 'p'])
                &&& (r.len() == t.len()) == (t.len() >= 4 && t.subrange(t.len() - 4, t.len() as int) == seq!['.', 'z', 'i', 'p'])
                &&& forall|i: int| 0 <= i < t.len() ==> #[trigger] r[i] == if t[i] == '/' {
                    '_'
                } else {
                    t[i]
                }
            }
        }),
{
    reveal_strlit("archive.zip");
    let t = trim_spec(value);
    let r = sanitize_spec(value);
    let cleaned = t.map_values(|c: char| slash_to_underscore(c));
    if t.len() == 0 {
        assert(r =~= seq!['a', 'r', 'c', 'h', 'i', 'v', 'e', '.', 'z', 'i', 'p']);
    } else {
        assert forall|i: int| 0 <= i < t.len() implies #[trigger] r[i] == if t[i] == '/' {
            '_'
        } else {
            t[i]
        } by {
            assert(r[i] == cleaned[i]);
        }
        if !has_zip_suffix(cleaned) {
            assert(r.subrange(t.len() as int, r.len() as int) =~= seq!['.', 'z', 'i', 'p']);
        }
        if t.len() >= 4 {
            let n = t.len() as int;
            let z = seq!['.', 'z', 'i', 'p'];
            let ct = cleaned.subrange(n - 4, n);
            let tt = t.subrange(n - 4, n);
            assert forall|i: int| 0 <= i < 4 implies (#[trigger] ct[i] == z[i]) == (tt[i] == z[i]) by {
                assert(ct[i] == slash_to_underscore(t[n - 4 + i]));
                assert(tt[i] == t[n - 4 + i]);
            }
            if tt =~= z {
                assert(ct =~= z);
            }
            if ct =~= z {
                assert(tt =~= z);
            }
        }
    }
}

} // verus!
