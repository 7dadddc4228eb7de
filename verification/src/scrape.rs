//! Scrape orchestration.
//!
//! Three phases, each bounded by its own concurrency setting and all sharing
//! the one global rate limiter:
//!   1. fetch every selected thread's posts and write them
//!   2. download the audio those posts referenced
//!   3. download the attachments, if wanted
//!
//! Splitting them means media work is driven from the database rather than from
//! memory, so an interrupted run picks up exactly where it stopped - including
//! audio belonging to threads scraped on an earlier run. This module holds the
//! decisions; requests, files and the database are the caller's.

use std::collections::HashMap;
use std::path::Path;
use vstd::prelude::*;
use vstd::utf8::encode_utf8;

use crate::api::{failure_text, param, params_view, Failure};
use crate::digest::{hex_text, sha256, sha256_hex};
use crate::json::{field, json_views, Json, JsonV};
use crate::model::{
    all_complete, are_complete, expand_incremental, expanded,
    expanded_rows_have_the_id_of_their_stub, gives_number, gives_text, int_field, int_of, is_held,
    lemma_given,
    merge_leaves_no_stub, merges_replace_stubs_by_held_rows, rows_field, rows_of, stands_for,
    str_field, str_of, stub_id, truth, truthy, Post, Structure, ThreadMeta,
};
use crate::order::{
    is_order, kept_at, lemma_filter_picks, lists, order_by, order_exists,
    order_lists_every_item_once, picks, precedes, the_order, Direction,
};
use crate::select::{count_threads, id_set, threads_in};
use crate::store::{
    attachment_info_row, attachment_row, catalog_refresh_keeps_watermarks, lists_table, marks_after,
    scraped, scraped_marks, AttachmentInfo, AttachmentRecord, AudioJob, DbOp, Watermark,
};
use crate::text::{
    alnum, decimal, decimal_int, decimals_differ, first_chars, has_prefix, int_text, is_alnum,
    nat_text, same, slice_text, take_chars, to_chars,
};

verus! {

broadcast use vstd::std_specs::hash::group_hash_axioms;

// ---------------------------------------------------------------------------
// Names of media files
// ---------------------------------------------------------------------------

/// Whether a character is kept in file names.
pub open spec fn is_safe(c: char) -> bool {
    is_alnum(c) || c == '-' || c == '_'
}

pub open spec fn safe_char(c: char) -> char {
    if is_safe(c) {
        c
    } else {
        '_'
    }
}

pub open spec fn safe_text(key: Seq<char>) -> Seq<char> {
    key.map_values(|c: char| safe_char(c))
}

/// What tells long keys apart: the first digits of the digest of the whole key.
pub open spec fn key_mark(key: Seq<char>) -> Seq<char> {
    hex_text(sha256(encode_utf8(key))).take(12)
}

/// The stem of the file that belongs to a key.
pub open spec fn stem(key: Seq<char>) -> Seq<char> {
    if key.len() <= 40 {
        safe_text(key)
    } else {
        safe_text(key).take(24) + seq!['-'] + key_mark(key)
    }
}

/// Turn an opaque media key into a filesystem-safe, length-bounded stem.
///
/// Attachment ids run to 130+ characters, which pushes full paths past
/// Windows' 260-character limit and breaks anything that touches the files
/// outside this tool. The full id lives in the database, so the file only needs
/// a short stable name: a readable prefix plus a digest of the whole key to
/// keep it unique.
pub fn short_key(key: &str) -> (r: String)
    ensures
        r@ == stem(key@),
        r@.len() <= 40,
        forall|i: int| 0 <= i < r@.len() ==> is_safe(#[trigger] r@[i]),
{
    let chars: Vec<char> = to_chars(key);
    let mut safe: Vec<char> = Vec::new();
    let mut i: usize = 0;
    while i < chars.len()
        invariant
            i <= chars@.len(),
            chars@ == key@,
            safe@ =~= safe_text(key@).take(i as int),
        decreases chars@.len() - i,
    {
        let c: char = chars[i];
        safe.push(
            if alnum(c) || c == '-' || c == '_' {
                c
            } else {
                '_'
            },
        );
        i += 1;
    }
    assert(safe@ =~= safe_text(key@));
    if safe.len() <= 40 {
        let out = slice_text(&safe, 0, safe.len());
        assert(out@ =~= safe_text(key@));
        return out;
    }
    let digest = to_chars(sha256_hex(key.as_bytes()).as_str());
    let mark = slice_text(&digest, 0, 12);
    proof {
        reveal_strlit("-");
        assert("-"@ =~= seq!['-']);
        assert(mark@ =~= key_mark(key@));
        lemma_hex_is_safe(sha256(encode_utf8(key@)));
    }
    let out = slice_text(&safe, 0, 24).concat("-").concat(mark.as_str());
    assert(out@ =~= stem(key@));
    assert forall|i: int| 0 <= i < out@.len() implies is_safe(#[trigger] out@[i]) by {
        if i >= 25 {
            assert(out@[i] == digest@[i - 25]);
        }
    }
    out
}

proof fn lemma_hex_is_safe(data: Seq<u8>)
    ensures
        forall|i: int| 0 <= i < hex_text(data).len() ==> is_safe(#[trigger] hex_text(data)[i]),
{
    assert forall|i: int| 0 <= i < hex_text(data).len() implies is_safe(
        #[trigger] hex_text(data)[i],
    ) by {
        let b = data[i / 2] as int;
        assert(0 <= b / 16 < 16 && 0 <= b % 16 < 16);
    }
}

/// A short key made of safe characters names its own file.
pub proof fn short_safe_keys_are_kept(key: Seq<char>)
    requires
        key.len() <= 40,
        forall|i: int| 0 <= i < key.len() ==> is_safe(#[trigger] key[i]),
    ensures
        stem(key) == key,
{
    assert(safe_text(key) =~= key);
}

/// Long keys share a file only if the first digits of their digests agree,
/// whatever beginning the keys share.
pub proof fn long_keys_are_told_apart_by_digest(a: Seq<char>, b: Seq<char>)
    requires
        a.len() > 40,
        b.len() > 40,
        stem(a) == stem(b),
    ensures
        key_mark(a) == key_mark(b),
{
    assert(stem(a).skip(25) =~= key_mark(a));
    assert(stem(b).skip(25) =~= key_mark(b));
}

/// A file below a media directory.
#[derive(Debug, Clone)]
pub struct MediaFile {
    /// The subdirectory, so that no single directory holds tens of thousands of
    /// files.
    pub shard: String,
    pub name: String,
}

/// The subdirectory for a stem.
pub open spec fn shard_of(stem: Seq<char>) -> Seq<char> {
    if stem.len() == 0 {
        "_"@
    } else {
        first_chars(stem, 2)
    }
}

fn shard(stem: &str) -> (r: String)
    ensures
        r@ == shard_of(stem@),
{
    if stem.is_empty() {
        String::from_str("_")
    } else {
        take_chars(stem, 2)
    }
}

/// The key that names a recording: its own, or one made of the post's id.
pub open spec fn recording_key(job: AudioJob) -> Seq<char> {
    if job.key@.len() == 0 {
        "post-"@ + decimal_int(job.post_id as int)
    } else {
        job.key@
    }
}

/// The extension for a kind of audio.
pub open spec fn audio_extension(content_type: Seq<char>) -> Seq<char> {
    if content_type == "audio/mpeg"@ || content_type == "audio/mp3"@ {
        "mp3"@
    } else if content_type == "audio/wav"@ || content_type == "audio/x-wav"@ {
        "wav"@
    } else if content_type == "audio/opus"@ {
        "opus"@
    } else {
        "ogg"@
    }
}

/// Whether a file is where a recording is stored.
pub open spec fn stores_recording(job: AudioJob, file: MediaFile) -> bool {
    &&& file.shard@ == shard_of(stem(recording_key(job)))
    &&& file.name@ == stem(recording_key(job)) + "."@ + audio_extension(job.content_type@)
}

/// Where a recording is stored.
pub fn audio_file(job: &AudioJob) -> (r: MediaFile)
    ensures
        r.shard@ == shard_of(stem(recording_key(*job))),
        r.name@ == stem(recording_key(*job)) + "."@ + audio_extension(job.content_type@),
        stores_recording(*job, r),
{
    let stem = if job.key.as_str().is_empty() {
        short_key(String::from_str("post-").concat(int_text(job.post_id).as_str()).as_str())
    } else {
        short_key(job.key.as_str())
    };
    let kind = job.content_type.as_str();
    let extension = if same(kind, "audio/mpeg") || same(kind, "audio/mp3") {
        "mp3"
    } else if same(kind, "audio/wav") || same(kind, "audio/x-wav") {
        "wav"
    } else if same(kind, "audio/opus") {
        "opus"
    } else {
        "ogg"
    };
    MediaFile { shard: shard(stem.as_str()), name: stem.concat(".").concat(extension) }
}

// ---------------------------------------------------------------------------
// Attachments
// ---------------------------------------------------------------------------

/// The position of the last `c`, -1 if there is none.
pub open spec fn last_of(s: Seq<char>, c: char) -> int
    decreases s.len(),
{
    if s.len() == 0 {
        -1
    } else if s.last() == c {
        s.len() - 1
    } else {
        last_of(s.drop_last(), c)
    }
}

/// What follows the last dot of a name that does not only start with it.
pub open spec fn name_extension(s: Seq<char>) -> Option<Seq<char>> {
    if last_of(s, '.') <= 0 || s == seq!['.', '.'] {
        None
    } else {
        Some(s.skip(last_of(s, '.') + 1))
    }
}

/// What follows the last colon of a name.
pub open spec fn behind_colons(s: Seq<char>) -> Seq<char> {
    s.skip(last_of(s, ':') + 1)
}

/// Whether every system finds the same extension in a name. Slashes separate
/// directories, backslashes do so on some systems, and a colon may end the name
/// of a drive. Wherever the file's own name begins then, it has what is behind
/// the colons.
pub open spec fn has_one_reading(s: Seq<char>) -> bool {
    &&& !s.contains('/')
    &&& !s.contains('\\')
    &&& s.contains(':') && s.contains('.') ==> name_extension(behind_colons(s)) is Some
}

/// Calls `std::path::Path::extension`. Claimed: for a name without directories
/// it is what follows the last dot, if something comes before that dot, and
/// nothing for `..`; it never contains a dot. Whether `\` separates directories,
/// and whether what a colon ends is a drive, depends on the system. So nothing
/// more is said of names with a backslash, nor of those with a colon where the
/// dot that counts does not stand behind it or may be the first character.
#[verifier::external_body]
fn path_extension(name: &str) -> (r: Option<String>)
    ensures
        has_one_reading(name@) ==> match r {
            Some(e) => name_extension(name@) == Some(e@),
            None => name_extension(name@) is None,
        },
        r matches Some(e) ==> !e@.contains('.'),
{
    Path::new(name).extension().and_then(|e| e.to_str()).map(|e| e.to_string())
}

/// A path without what does not count at its end: slashes, and `.` after a
/// slash.
pub open spec fn tidy_path(s: Seq<char>) -> Seq<char>
    decreases s.len(),
{
    if s.len() > 0 && s.last() == '/' {
        tidy_path(s.drop_last())
    } else if s.len() > 1 && s.last() == '.' && s[s.len() - 2] == '/' {
        tidy_path(s.drop_last())
    } else {
        s
    }
}

/// The last component of a path.
pub open spec fn file_part(s: Seq<char>) -> Seq<char> {
    tidy_path(s).skip(last_of(tidy_path(s), '/') + 1)
}

proof fn lemma_last_of(s: Seq<char>, c: char, k: int)
    requires
        -1 <= k < s.len(),
        forall|j: int| k < j < s.len() ==> #[trigger] s[j] != c,
        k >= 0 ==> s[k] == c,
    ensures
        last_of(s, c) == k,
    decreases s.len(),
{
    if s.len() > 0 && k < s.len() - 1 {
        assert(s[s.len() - 1] != c);
        assert forall|j: int| k < j < s.drop_last().len() implies #[trigger] s.drop_last()[j]
            != c by {
            assert(s.drop_last()[j] == s[j]);
        }
        lemma_last_of(s.drop_last(), c, k);
    }
}

/// The file that a path leads to, as text.
fn file_name(path: &str) -> (r: String)
    ensures
        r@ == file_part(path@),
        !r@.contains('/'),
{
    let chars: Vec<char> = to_chars(path);
    let mut end: usize = chars.len();
    assert(chars@.take(end as int) =~= chars@);
    while end > 0 && (chars[end - 1] == '/' || (end > 1 && chars[end - 1] == '.' && chars[end - 2]
        == '/'))
        invariant
            end <= chars@.len(),
            tidy_path(chars@) == tidy_path(chars@.take(end as int)),
        decreases end,
    {
        assert(chars@.take(end as int).drop_last() =~= chars@.take(end - 1));
        end -= 1;
    }
    let ghost tidy = chars@.take(end as int);
    assert(tidy_path(tidy) == tidy);
    let mut start: usize = end;
    while start > 0 && chars[start - 1] != '/'
        invariant
            start <= end <= chars@.len(),
            forall|j: int| start <= j < end ==> #[trigger] chars@[j] != '/',
        decreases start,
    {
        start -= 1;
    }
    proof {
        assert forall|j: int| start - 1 < j < tidy.len() implies #[trigger] tidy[j] != '/' by {
            assert(tidy[j] == chars@[j]);
        }
        lemma_last_of(tidy, '/', start - 1);
    }
    let out = slice_text(&chars, start, end);
    assert(out@ =~= tidy.skip(start as int));
    assert forall|j: int| 0 <= j < out@.len() implies out@[j] != '/' by {
        assert(out@[j] == chars@[start + j]);
    }
    out
}

/// The letters and digits of a text.
pub open spec fn letters(s: Seq<char>) -> Seq<char> {
    s.filter(|c: char| is_alnum(c))
}

/// An extension as it is used: at most eight letters and digits.
pub open spec fn clean_extension(e: Option<Seq<char>>) -> Option<Seq<char>> {
    match e {
        Some(e) => if letters(e).len() == 0 {
            None
        } else {
            Some(first_chars(letters(e), 8))
        },
        None => None,
    }
}

pub open spec fn opt_chars(s: Option<String>) -> Option<Seq<char>> {
    match s {
        Some(s) => Some(s@),
        None => None,
    }
}

fn keep_letters(s: &str) -> (r: String)
    ensures
        r@ == letters(s@),
{
    let chars: Vec<char> = to_chars(s);
    let ghost keep = |c: char| is_alnum(c);
    let mut out = String::new();
    let mut i: usize = 0;
    assert(chars@.take(0).filter(keep) =~= Seq::empty()) by {
        reveal(Seq::filter);
    }
    assert(out@ =~= Seq::empty());
    while i < chars.len()
        invariant
            i <= chars@.len(),
            keep == (|c: char| is_alnum(c)),
            out@ == chars@.take(i as int).filter(keep),
        decreases chars@.len() - i,
    {
        let c: char = chars[i];
        proof {
            reveal(Seq::filter);
            assert(chars@.take(i + 1).drop_last() =~= chars@.take(i as int));
            assert(chars@.take(i + 1).last() == c);
        }
        if alnum(c) {
            out.push(c);
        }
        i += 1;
    }
    assert(chars@.take(i as int) =~= chars@);
    out
}

pub open spec fn attachment_name(id: Seq<char>, extension: Option<Seq<char>>) -> Seq<char> {
    match clean_extension(extension) {
        Some(e) => stem(id) + "."@ + e,
        None => stem(id),
    }
}

/// Whether a file is where an attachment is stored.
pub open spec fn stores_attachment(
    id: Seq<char>,
    extension: Option<Seq<char>>,
    file: MediaFile,
) -> bool {
    file.shard@ == shard_of(stem(id)) && file.name@ == attachment_name(id, extension)
}

/// Where an attachment is stored, given the extension of its original name.
pub fn attachment_file(id: &str, extension: Option<String>) -> (r: MediaFile)
    ensures
        r.shard@ == shard_of(stem(id@)),
        r.name@ == attachment_name(id@, opt_chars(extension)),
        stores_attachment(id@, opt_chars(extension), r),
{
    let stem = short_key(id);
    let shard = shard(stem.as_str());
    let name = match extension {
        Some(e) => {
            let kept = keep_letters(e.as_str());
            if kept.as_str().is_empty() {
                stem
            } else {
                stem.concat(".").concat(take_chars(kept.as_str(), 8).as_str())
            }
        },
        None => stem,
    };
    MediaFile { shard, name }
}

/// Where the server tells of an attachment.
pub fn attachment_path(id: &str) -> (r: String)
    ensures
        r@ == "/api/v1/attachments/"@ + id@,
{
    String::from_str("/api/v1/attachments/").concat(id)
}

/// What is known of an attachment before its file is there.
#[derive(Debug, Clone)]
pub struct AttachmentPlan {
    pub id: String,
    pub name: String,
    pub size: i64,
    pub uploader: String,
    pub uploadtime: i64,
    /// Where the file comes from.
    pub url: String,
    /// Where the file goes.
    pub file: MediaFile,
}

/// Where an attachment is downloaded from.
pub open spec fn attachment_url(id: Seq<char>, info: JsonV) -> Seq<char> {
    if str_field(info, "url"@).len() == 0 {
        "/api/v1/attachments/"@ + id + "/download"@
    } else {
        str_field(info, "url"@)
    }
}

/// Whether a plan says of an attachment what the server tells of it.
pub open spec fn plans_attachment(id: Seq<char>, info: JsonV, plan: AttachmentPlan) -> bool {
    &&& plan.id@ == id
    &&& plan.name@ == str_field(info, "name"@)
    &&& plan.size == int_field(info, "size"@)
    &&& plan.uploader@ == str_field(info, "uploader"@)
    &&& plan.uploadtime == int_field(info, "uploadtime"@)
    &&& plan.url@ == attachment_url(id, info)
    &&& plan.file.shard@ == shard_of(stem(id))
    &&& has_one_reading(file_part(str_field(info, "name"@))) ==> stores_attachment(
        id,
        name_extension(file_part(str_field(info, "name"@))),
        plan.file,
    )
}

/// What to do about an attachment, given what the server tells of it.
///
/// The info call gives the original filename, which is worth keeping: the id
/// alone says nothing about what the file is.
pub fn plan_attachment(id: &str, info: &Json) -> (r: AttachmentPlan)
    ensures
        r.id@ == id@,
        r.name@ == str_field(info@, "name"@),
        r.size == int_field(info@, "size"@),
        r.uploader@ == str_field(info@, "uploader"@),
        r.uploadtime == int_field(info@, "uploadtime"@),
        r.url@ == attachment_url(id@, info@),
        r.url@.len() > 0,
        r.file.shard@ == shard_of(stem(id@)),
        has_one_reading(file_part(str_field(info@, "name"@))) ==> r.file.name@ == attachment_name(
            id@,
            name_extension(file_part(str_field(info@, "name"@))),
        ),
        exists|e: Option<Seq<char>>| r.file.name@ == #[trigger] attachment_name(id@, e),
        plans_attachment(id@, info@, r),
{
    let name = str_of(info, "name");
    let given = str_of(info, "url");
    let url = if given.as_str().is_empty() {
        attachment_path(id).concat("/download")
    } else {
        given
    };
    proof {
        reveal_strlit("/download");
        assert("/download"@.len() == 9);
    }
    let extension = path_extension(file_name(name.as_str()).as_str());
    let ghost found = opt_chars(extension);
    let file = attachment_file(id, extension);
    assert(file.name@ == attachment_name(id@, found));
    AttachmentPlan {
        id: String::from_str(id),
        name,
        size: int_of(info, "size"),
        uploader: str_of(info, "uploader"),
        uploadtime: int_of(info, "uploadtime"),
        url,
        file,
    }
}

/// Whether a record is that of a planned attachment and its file.
pub open spec fn records(
    plan: AttachmentPlan,
    path: Seq<char>,
    bytes: u64,
    sha: Seq<char>,
    r: AttachmentRecord,
) -> bool {
    &&& r.id@ == plan.id@
    &&& r.name@ == plan.name@
    &&& r.size == plan.size
    &&& r.uploader@ == plan.uploader@
    &&& r.uploadtime == plan.uploadtime
    &&& r.url@ == plan.url@
    &&& r.path@ == path
    &&& r.bytes == bytes as i64
    &&& r.sha@ == sha
}

/// Whether `r` is what is told of a planned attachment.
pub open spec fn describes(plan: AttachmentPlan, r: AttachmentInfo) -> bool {
    &&& r.id@ == plan.id@
    &&& r.name@ == plan.name@
    &&& r.size == plan.size
    &&& r.uploader@ == plan.uploader@
    &&& r.uploadtime == plan.uploadtime
    &&& r.url@ == plan.url@
}

/// The record of an attachment whose file is at `path`.
pub fn attachment_record(plan: AttachmentPlan, path: String, bytes: u64, sha: String) -> (r:
    AttachmentRecord)
    ensures
        r.id@ == plan.id@,
        r.name@ == plan.name@,
        r.size == plan.size,
        r.uploader@ == plan.uploader@,
        r.uploadtime == plan.uploadtime,
        r.url@ == plan.url@,
        r.path@ == path@,
        r.bytes == bytes as i64,
        r.sha@ == sha@,
        records(plan, path@, bytes, sha@, r),
{
    AttachmentRecord {
        id: plan.id,
        name: plan.name,
        size: plan.size,
        uploader: plan.uploader,
        uploadtime: plan.uploadtime,
        url: plan.url,
        path,
        bytes: bytes as i64,
        sha,
    }
}

/// What the server tells of an attachment, to be recorded before its file is
/// there.
pub fn attachment_info(plan: AttachmentPlan) -> (r: AttachmentInfo)
    ensures
        r.id@ == plan.id@,
        r.name@ == plan.name@,
        r.size == plan.size,
        r.uploader@ == plan.uploader@,
        r.uploadtime == plan.uploadtime,
        r.url@ == plan.url@,
        describes(plan, r),
{
    AttachmentInfo {
        id: plan.id,
        name: plan.name,
        size: plan.size,
        uploader: plan.uploader,
        uploadtime: plan.uploadtime,
        url: plan.url,
    }
}

/// The size of the file that is adopted, if one is.
pub open spec fn adoption(skip_existing: bool, on_disk: Option<u64>) -> Option<u64> {
    if skip_existing && (on_disk matches Some(n) && n > 0) {
        on_disk
    } else {
        None
    }
}

/// The size of a file from an interrupted run that is adopted rather than
/// fetched again. `on_disk` is the size of the file if there is one.
pub fn adopted(skip_existing: bool, on_disk: Option<u64>) -> (r: Option<u64>)
    ensures
        r == (if skip_existing && (on_disk matches Some(n) && n > 0) {
            on_disk
        } else {
            None
        }),
        r == adoption(skip_existing, on_disk),
{
    match on_disk {
        Some(n) => if skip_existing && n > 0 {
            Some(n)
        } else {
            None
        },
        None => None,
    }
}

pub open spec fn cap_of(megabytes: u64) -> int {
    if megabytes * 1_048_576 > u64::MAX {
        u64::MAX as int
    } else {
        megabytes * 1_048_576
    }
}

/// The most bytes to download for a limit in megabytes.
pub fn size_cap(megabytes: u64) -> (r: u64)
    ensures
        r == (if megabytes * 1_048_576 > u64::MAX {
            u64::MAX as int
        } else {
            megabytes * 1_048_576
        }),
        r == cap_of(megabytes),
{
    match megabytes.checked_mul(1_048_576) {
        Some(bytes) => bytes,
        None => u64::MAX,
    }
}

// ---------------------------------------------------------------------------
// The catalog
// ---------------------------------------------------------------------------

/// How a catalog was come by.
#[derive(Debug, Clone, Copy, PartialEq, Eq, Structural)]
pub enum CatalogSource {
    Full,
    Unchanged,
    Incremental,
    /// Complete, after an incremental answer referred to rows not held.
    FullAfterMiss,
}

pub open spec fn source_text(s: CatalogSource) -> Seq<char> {
    match s {
        CatalogSource::Full => "full"@,
        CatalogSource::Unchanged => "unchanged"@,
        CatalogSource::Incremental => "incremental"@,
        CatalogSource::FullAfterMiss => "full (cache miss)"@,
    }
}

impl CatalogSource {
    pub fn text(&self) -> (r: &'static str)
        ensures
            r@ == source_text(*self),
    {
        match self {
            CatalogSource::Full => "full",
            CatalogSource::Unchanged => "unchanged",
            CatalogSource::Incremental => "incremental",
            CatalogSource::FullAfterMiss => "full (cache miss)",
        }
    }
}

/// The parameters that ask for the catalog: for a delta if a fingerprint of an
/// earlier one is held, for all of it otherwise.
pub open spec fn catalog_params(cached_ident: Seq<char>) -> Seq<(Seq<char>, Seq<char>)> {
    if cached_ident.len() == 0 {
        Seq::empty()
    } else {
        seq![("ident"@, cached_ident), ("increment"@, "1"@)]
    }
}

pub fn catalog_request(cached_ident: &str) -> (r: Vec<(String, String)>)
    ensures
        params_view(r@) == catalog_params(cached_ident@),
{
    let mut out: Vec<(String, String)> = Vec::new();
    if !cached_ident.is_empty() {
        out.push(param("ident", cached_ident));
        out.push(param("increment", "1"));
    }
    assert(params_view(out@) =~= catalog_params(cached_ident@));
    out
}

/// What an answer to a request for the catalog leads to.
#[derive(Debug)]
pub enum CatalogStep {
    Done(Structure, CatalogSource),
    /// The answer cannot be used: ask for the complete catalog.
    Refetch,
}

/// The fingerprint after an answer: the one it gives, else the one held.
pub open spec fn ident_after(data: JsonV, cached_ident: Seq<char>) -> Seq<char> {
    if str_field(data, "ident"@).len() == 0 {
        cached_ident
    } else {
        str_field(data, "ident"@)
    }
}

/// Whether an answer says that the catalog has not changed.
pub open spec fn says_unchanged(data: JsonV) -> bool {
    truth(field(data, "unchanged"@))
}

/// Whether an answer is a delta.
pub open spec fn says_incremental(data: JsonV) -> bool {
    truth(field(data, "incremental"@))
}

/// The rows of the catalog that a delta makes of the rows held; nothing if it
/// refers to a row that is not held.
pub open spec fn merged(
    data: JsonV,
    groups: Seq<JsonV>,
    forums: Seq<JsonV>,
    threads: Seq<JsonV>,
) -> Option<(Seq<JsonV>, Seq<JsonV>, Seq<JsonV>)> {
    match (
        expanded(rows_field(data, "groups"@), groups, "id"@),
        expanded(rows_field(data, "forums"@), forums, "forumid"@),
        expanded(rows_field(data, "threads"@), threads, "id"@),
    ) {
        (Some(g), Some(f), Some(t)) => Some((g, f, t)),
        _ => None,
    }
}

/// Whether no row of an answer is a stub.
pub open spec fn is_complete(data: JsonV) -> bool {
    &&& all_complete(rows_field(data, "groups"@))
    &&& all_complete(rows_field(data, "forums"@))
    &&& all_complete(rows_field(data, "threads"@))
}

/// Whether an answer, given the fingerprint and rows held, leads to a step.
pub open spec fn catalog_step(
    cached_ident: Seq<char>,
    data: JsonV,
    groups: Seq<JsonV>,
    forums: Seq<JsonV>,
    threads: Seq<JsonV>,
    step: CatalogStep,
) -> bool {
    let usable = cached_ident.len() > 0 && forums.len() > 0 && threads.len() > 0;
    if usable && says_unchanged(data) {
        step matches CatalogStep::Done(s, CatalogSource::Unchanged) && s.reads(
            groups,
            forums,
            threads,
            ident_after(data, cached_ident),
        )
    } else if usable && says_incremental(data) {
        match merged(data, groups, forums, threads) {
            Some((g, f, t)) => step matches CatalogStep::Done(s, CatalogSource::Incremental)
                && s.reads(g, f, t, ident_after(data, cached_ident)),
            None => step is Refetch,
        }
    } else if cached_ident.len() > 0 && (says_unchanged(data) || (says_incremental(data)
        && !is_complete(data))) {
        step is Refetch
    } else {
        step matches CatalogStep::Done(s, CatalogSource::Full) && s.reads_data(data)
    }
}

/// Whether no row of a catalog is a stub.
pub open spec fn has_no_holes(s: Structure) -> bool {
    &&& forall|i: int| 0 <= i < s.groups@.len() ==> stub_id((#[trigger] s.groups@[i]).raw@) is None
    &&& forall|i: int| 0 <= i < s.forums@.len() ==> stub_id((#[trigger] s.forums@[i]).raw@) is None
    &&& forall|i: int|
        0 <= i < s.threads@.len() ==> stub_id((#[trigger] s.threads@[i]).raw@) is None
}

fn returned_ident(data: &Json, cached_ident: &str) -> (r: String)
    ensures
        r@ == ident_after(data@, cached_ident@),
{
    let returned = str_of(data, "ident");
    if returned.as_str().is_empty() {
        String::from_str(cached_ident)
    } else {
        returned
    }
}

fn complete(data: &Json) -> (r: bool)
    ensures
        r == is_complete(data@),
{
    are_complete(&rows_of(data, "groups")) && are_complete(&rows_of(data, "forums"))
        && are_complete(&rows_of(data, "threads"))
}

fn merge(data: &Json, groups: &Vec<Json>, forums: &Vec<Json>, threads: &Vec<Json>) -> (r: Option<
    (Vec<Json>, Vec<Json>, Vec<Json>),
>)
    ensures
        match r {
            Some((g, f, t)) => merged(
                data@,
                json_views(groups@),
                json_views(forums@),
                json_views(threads@),
            ) == Some((json_views(g@), json_views(f@), json_views(t@))),
            None => merged(data@, json_views(groups@), json_views(forums@), json_views(threads@))
                is None,
        },
{
    let g = expand_incremental(&rows_of(data, "groups"), groups, "id");
    let f = expand_incremental(&rows_of(data, "forums"), forums, "forumid");
    let t = expand_incremental(&rows_of(data, "threads"), threads, "id");
    match (g, f, t) {
        (Some(g), Some(f), Some(t)) => Some((g, f, t)),
        _ => None,
    }
}

/// What to make of the answer to a request for the catalog.
///
/// The full catalog is ~5 MB and every run needs it. Sending the previous
/// `ident` lets the server answer one of three ways:
///   * `unchanged` - nothing moved; rebuild from what we already stored
///   * `incremental` - unchanged rows are sent as `{"ref": id}` stubs to expand
///   * neither - a full catalog, which we take as-is
///
/// Any inconsistency (a stub referring to something we don't hold) falls back
/// to a full fetch rather than risking a catalog with holes in it. A delta that
/// holds no stub is a full catalog if there is nothing to merge it with.
pub fn read_catalog(
    cached_ident: &str,
    data: &Json,
    groups: &Vec<Json>,
    forums: &Vec<Json>,
    threads: &Vec<Json>,
) -> (r: CatalogStep)
    ensures
        catalog_step(
            cached_ident@,
            data@,
            json_views(groups@),
            json_views(forums@),
            json_views(threads@),
            r,
        ),
        r matches CatalogStep::Done(s, CatalogSource::Incremental) ==> has_no_holes(s),
{
    let usable = !cached_ident.is_empty() && forums.len() > 0 && threads.len() > 0;
    let unchanged = truthy(data.get("unchanged"));
    let incremental = truthy(data.get("incremental"));
    assert(json_views(forums@).len() == forums@.len());
    assert(json_views(threads@).len() == threads@.len());
    if usable && unchanged {
        let ident = returned_ident(data, cached_ident);
        return CatalogStep::Done(
            Structure::from_rows(groups, forums, threads, ident),
            CatalogSource::Unchanged,
        );
    }
    if usable && incremental {
        return match merge(data, groups, forums, threads) {
            Some((g, f, t)) => {
                let ident = returned_ident(data, cached_ident);
                let s = Structure::from_rows(&g, &f, &t, ident);
                proof {
                    lemma_merge_has_no_holes(
                        data@,
                        json_views(groups@),
                        json_views(forums@),
                        json_views(threads@),
                        ident@,
                        s,
                    );
                }
                CatalogStep::Done(s, CatalogSource::Incremental)
            },
            None => CatalogStep::Refetch,
        };
    }
    if !cached_ident.is_empty() && (unchanged || (incremental && !complete(data))) {
        // Relative to rows that are not held.
        return CatalogStep::Refetch;
    }
    CatalogStep::Done(Structure::from_data(data), CatalogSource::Full)
}

proof fn lemma_complete_rows_have_no_holes(
    groups: Seq<JsonV>,
    forums: Seq<JsonV>,
    threads: Seq<JsonV>,
    ident: Seq<char>,
    s: Structure,
)
    requires
        s.reads(groups, forums, threads, ident),
        all_complete(groups),
        all_complete(forums),
        all_complete(threads),
    ensures
        has_no_holes(s),
{
    assert forall|i: int| 0 <= i < s.groups@.len() implies stub_id((#[trigger] s.groups@[i]).raw@)
        is None by {
        assert(s.groups@[i].reads(groups[i]));
    }
    assert forall|i: int| 0 <= i < s.forums@.len() implies stub_id((#[trigger] s.forums@[i]).raw@)
        is None by {
        assert(s.forums@[i].reads(forums[i]));
    }
    assert forall|i: int| 0 <= i < s.threads@.len() implies stub_id((#[trigger] s.threads@[i]).raw@)
        is None by {
        assert(s.threads@[i].reads(threads[i]));
    }
}

proof fn lemma_merge_has_no_holes(
    data: JsonV,
    groups: Seq<JsonV>,
    forums: Seq<JsonV>,
    threads: Seq<JsonV>,
    ident: Seq<char>,
    s: Structure,
)
    requires
        merged(data, groups, forums, threads) matches Some((g, f, t)) && s.reads(g, f, t, ident),
    ensures
        has_no_holes(s),
{
    reveal_strlit("id");
    reveal_strlit("forumid");
    reveal_strlit("ref");
    assert("id"@.len() == 2 && "forumid"@.len() == 7 && "ref"@.len() == 3);
    merge_leaves_no_stub(rows_field(data, "groups"@), groups, "id"@);
    merge_leaves_no_stub(rows_field(data, "forums"@), forums, "forumid"@);
    merge_leaves_no_stub(rows_field(data, "threads"@), threads, "id"@);
    let (g, f, t) = merged(data, groups, forums, threads)->Some_0;
    lemma_complete_rows_have_no_holes(g, f, t, ident, s);
}

/// A delta never produces a catalog with holes in it, whatever is held: either
/// every row of the result is complete, or the complete catalog is asked for.
pub proof fn deltas_leave_no_holes(
    cached_ident: Seq<char>,
    data: JsonV,
    groups: Seq<JsonV>,
    forums: Seq<JsonV>,
    threads: Seq<JsonV>,
    step: CatalogStep,
)
    requires
        cached_ident.len() > 0,
        !says_unchanged(data),
        says_incremental(data),
        catalog_step(cached_ident, data, groups, forums, threads, step),
    ensures
        step is Refetch || (step matches CatalogStep::Done(s, _) && has_no_holes(s)),
{
    if let CatalogStep::Done(s, source) = step {
        if source is Incremental {
            lemma_merge_has_no_holes(
                data,
                groups,
                forums,
                threads,
                ident_after(data, cached_ident),
                s,
            );
        } else {
            lemma_complete_rows_have_no_holes(
                rows_field(data, "groups"@),
                rows_field(data, "forums"@),
                rows_field(data, "threads"@),
                str_field(data, "ident"@),
                s,
            );
        }
    }
}

/// An answer that says nothing has changed is used only if there is a catalog to
/// rebuild, and the catalog is then the one held: without holes if that has none.
pub proof fn unchanged_catalogs_are_the_ones_held(
    cached_ident: Seq<char>,
    data: JsonV,
    groups: Seq<JsonV>,
    forums: Seq<JsonV>,
    threads: Seq<JsonV>,
    step: CatalogStep,
)
    requires
        cached_ident.len() > 0,
        says_unchanged(data),
        catalog_step(cached_ident, data, groups, forums, threads, step),
    ensures
        forums.len() == 0 || threads.len() == 0 ==> step is Refetch,
        forums.len() > 0 && threads.len() > 0 ==> (step matches CatalogStep::Done(s, _) && s.reads(
            groups,
            forums,
            threads,
            ident_after(data, cached_ident),
        )),
        all_complete(groups) && all_complete(forums) && all_complete(threads) ==> (
        step matches CatalogStep::Done(s, _) ==> has_no_holes(s)),
{
    if let CatalogStep::Done(s, _) = step {
        if all_complete(groups) && all_complete(forums) && all_complete(threads) {
            lemma_complete_rows_have_no_holes(
                groups,
                forums,
                threads,
                ident_after(data, cached_ident),
                s,
            );
        }
    }
}

/// The catalog that was asked for in full after an unusable answer.
pub fn read_full_catalog(data: &Json) -> (r: (Structure, CatalogSource))
    ensures
        r.0.reads_data(data@),
        r.1 == CatalogSource::FullAfterMiss,
{
    (Structure::from_data(data), CatalogSource::FullAfterMiss)
}

// ---------------------------------------------------------------------------
// Threads
// ---------------------------------------------------------------------------

/// Where a thread is read.
pub fn thread_path(thread_id: i64) -> (r: String)
    ensures
        r@ == "/api/v1/forum/"@ + decimal_int(thread_id as int),
{
    String::from_str("/api/v1/forum/").concat(int_text(thread_id).as_str())
}

/// Whether `posts` are those of an answer, read for a thread.
pub open spec fn reads_posts(data: JsonV, thread_id: int, posts: Seq<Post>) -> bool {
    &&& posts.len() == rows_field(data, "posts"@).len()
    &&& forall|i: int|
        0 <= i < posts.len() ==> (#[trigger] posts[i]).reads(
            rows_field(data, "posts"@)[i],
            thread_id,
        )
}

/// The posts of a thread.
pub fn thread_posts(data: &Json, thread_id: i64) -> (r: Vec<Post>)
    ensures
        r@.len() == rows_field(data@, "posts"@).len(),
        forall|i: int|
            0 <= i < r@.len() ==> (#[trigger] r@[i]).reads(
                rows_field(data@, "posts"@)[i],
                thread_id as int,
            ),
        reads_posts(data@, thread_id as int, r@),
{
    let rows = rows_of(data, "posts");
    let ghost given = rows_field(data@, "posts"@);
    assert(json_views(rows@).len() == rows@.len());
    let mut out: Vec<Post> = Vec::new();
    let mut i: usize = 0;
    while i < rows.len()
        invariant
            i <= rows@.len(),
            given == json_views(rows@),
            out@.len() == i,
            forall|j: int| 0 <= j < i ==> (#[trigger] out@[j]).reads(given[j], thread_id as int),
        decreases rows@.len() - i,
    {
        assert(given[i as int] == rows@[i as int]@);
        out.push(Post::from_row(&rows[i], thread_id));
        i += 1;
    }
    out
}

/// The `last_update` that a thread had when it was last scraped.
pub open spec fn seen(marks: Seq<(i64, i64)>, id: i64) -> Option<i64>
    decreases marks.len(),
{
    if marks.len() == 0 {
        None
    } else if marks.last().0 == id {
        Some(marks.last().1)
    } else {
        seen(marks.drop_last(), id)
    }
}

/// Whether a thread has moved since it was last scraped.
pub open spec fn has_moved(t: ThreadMeta, marks: Seq<(i64, i64)>) -> bool {
    match seen(marks, t.id) {
        Some(last) => last < t.last_update,
        None => true,
    }
}

/// Whether a run fetches a thread: it is selected, and has moved or `all` are
/// wanted.
pub open spec fn is_due(
    t: ThreadMeta,
    forum_ids: Set<i64>,
    marks: Seq<(i64, i64)>,
    all: bool,
) -> bool {
    forum_ids.contains(t.forum_id) && (all || has_moved(t, marks))
}

/// The threads that need fetching, in catalog order, each with its
/// `last_update`.
pub open spec fn due_threads(
    threads: Seq<ThreadMeta>,
    forum_ids: Set<i64>,
    marks: Seq<(i64, i64)>,
    all: bool,
) -> Seq<(i64, i64)> {
    threads.filter(|t: ThreadMeta| is_due(t, forum_ids, marks, all)).map_values(
        |t: ThreadMeta| (t.id, t.last_update),
    )
}

pub open spec fn update_keys(due: Seq<(i64, i64)>) -> Seq<i64> {
    due.map_values(|t: (i64, i64)| t.1)
}

/// The same threads, the most recently updated first.
pub open spec fn newest_first(due: Seq<(i64, i64)>) -> Seq<(i64, i64)> {
    the_order(update_keys(due), Direction::Descending).map_values(|i: usize| due[i as int])
}

pub open spec fn capped(due: Seq<(i64, i64)>, limit: Option<usize>) -> Seq<(i64, i64)> {
    match limit {
        Some(n) => if n < due.len() {
            due.take(n as int)
        } else {
            due
        },
        None => due,
    }
}

/// What a run has to do.
#[derive(Debug)]
pub struct ThreadPlan {
    /// The threads to fetch, in order, each with its `last_update`.
    pub targets: Vec<(i64, i64)>,
    /// How many threads need fetching, before the limit.
    pub outstanding: usize,
    /// How many forums the selection covers.
    pub forums: usize,
    /// How many threads the selection covers.
    pub threads: usize,
}

fn index_seen(marks: &Vec<(i64, i64)>) -> (r: HashMap<i64, i64>)
    ensures
        forall|id: i64| #[trigger]
            r@.contains_key(id) <==> seen(marks@, id) is Some,
        forall|id: i64| #[trigger] r@.contains_key(id) ==> seen(marks@, id) == Some(r@[id]),
{
    let mut m: HashMap<i64, i64> = HashMap::new();
    let mut i: usize = 0;
    while i < marks.len()
        invariant
            i <= marks@.len(),
            forall|id: i64| #[trigger]
                m@.contains_key(id) <==> seen(marks@.take(i as int), id) is Some,
            forall|id: i64| #[trigger]
                m@.contains_key(id) ==> seen(marks@.take(i as int), id) == Some(m@[id]),
        decreases marks@.len() - i,
    {
        assert(marks@.take(i + 1).drop_last() =~= marks@.take(i as int));
        let (id, last) = marks[i];
        assert(marks@.take(i + 1).last() == (id, last));
        m.insert(id, last);
        i += 1;
    }
    assert(marks@.take(i as int) =~= marks@);
    m
}

/// Whether a plan is the one for a catalog, a selection, the watermarks and the way
/// the run is asked for.
pub open spec fn plans(
    threads: Seq<ThreadMeta>,
    forum_ids: Seq<i64>,
    marks: Seq<(i64, i64)>,
    full: bool,
    skip_unchanged: bool,
    limit: Option<usize>,
    plan: ThreadPlan,
) -> bool {
    let due = due_threads(threads, forum_ids.to_set(), marks, full || !skip_unchanged);
    &&& plan.targets@ == capped(newest_first(due), limit)
    &&& plan.outstanding == due.len()
    &&& plan.forums == forum_ids.to_set().len()
    &&& plan.threads == threads_in(threads, forum_ids.to_set())
}

/// Work out which threads actually need fetching. `marks` is what
/// [`crate::store::thread_watermarks`] says; it is ignored by a `full` run and
/// when unchanged threads are not skipped.
pub fn plan_threads(
    threads: &Vec<ThreadMeta>,
    forum_ids: &Vec<i64>,
    marks: &Vec<(i64, i64)>,
    full: bool,
    skip_unchanged: bool,
    limit: Option<usize>,
) -> (r: ThreadPlan)
    ensures
        ({
            let due = due_threads(
                threads@,
                forum_ids@.to_set(),
                marks@,
                full || !skip_unchanged,
            );
            &&& r.targets@ == capped(newest_first(due), limit)
            &&& r.outstanding == due.len()
        }),
        r.forums == forum_ids@.to_set().len(),
        r.threads == threads_in(threads@, forum_ids@.to_set()),
        plans(threads@, forum_ids@, marks@, full, skip_unchanged, limit, r),
{
    let ids = id_set(forum_ids);
    let last_seen = index_seen(marks);
    let all = full || !skip_unchanged;
    let ghost keep = |t: ThreadMeta| is_due(t, forum_ids@.to_set(), marks@, all);
    let ghost pair = |t: ThreadMeta| (t.id, t.last_update);
    let mut due: Vec<(i64, i64)> = Vec::new();
    let mut keys: Vec<i64> = Vec::new();
    let mut i: usize = 0;
    assert(threads@.take(0).filter(keep) =~= Seq::empty()) by {
        reveal(Seq::filter);
    }
    assert(due@ =~= threads@.take(0).filter(keep).map_values(pair));
    assert(keys@ =~= update_keys(due@));
    while i < threads.len()
        invariant
            i <= threads@.len(),
            ids@ == forum_ids@.to_set(),
            forall|id: i64| #[trigger]
                last_seen@.contains_key(id) <==> seen(marks@, id) is Some,
            forall|id: i64| #[trigger]
                last_seen@.contains_key(id) ==> seen(marks@, id) == Some(last_seen@[id]),
            keep == (|t: ThreadMeta| is_due(t, forum_ids@.to_set(), marks@, all)),
            pair == (|t: ThreadMeta| (t.id, t.last_update)),
            due@ == threads@.take(i as int).filter(keep).map_values(pair),
            keys@ == update_keys(due@),
        decreases threads@.len() - i,
    {
        let t = &threads[i];
        let ghost now = threads@.take(i + 1);
        let wanted = ids.contains(&t.forum_id) && (all || match last_seen.get(&t.id) {
            // Already scraped and nothing new has been posted since.
            Some(last) => *last < t.last_update,
            None => true,
        });
        proof {
            reveal(Seq::filter);
            assert(now.drop_last() =~= threads@.take(i as int));
            assert(now.last() == *t);
            assert(last_seen@.contains_key(t.id) <==> seen(marks@, t.id) is Some);
            assert(wanted == keep(*t));
        }
        if wanted {
            due.push((t.id, t.last_update));
            keys.push(t.last_update);
        }
        assert(due@ =~= now.filter(keep).map_values(pair));
        assert(keys@ =~= update_keys(due@));
        i += 1;
    }
    assert(threads@.take(i as int) =~= threads@);
    let order = order_by(&keys, Direction::Descending);
    // Count before truncating, so the report distinguishes "nothing left to do"
    // from "capped by --limit".
    let outstanding: usize = due.len();
    let count: usize = match limit {
        Some(n) => if n < outstanding {
            n
        } else {
            outstanding
        },
        None => outstanding,
    };
    let ghost sorted = newest_first(due@);
    let mut targets: Vec<(i64, i64)> = Vec::new();
    let mut k: usize = 0;
    while k < count
        invariant
            k <= count <= due@.len(),
            order@ == the_order(update_keys(due@), Direction::Descending),
            is_order(update_keys(due@), Direction::Descending, order@),
            sorted == newest_first(due@),
            targets@ =~= sorted.take(k as int),
        decreases count - k,
    {
        assert(order@[k as int] < update_keys(due@).len());
        targets.push(due[order[k]]);
        k += 1;
    }
    assert(targets@ =~= capped(sorted, limit));
    ThreadPlan {
        targets,
        outstanding,
        forums: ids.len(),
        threads: count_threads(threads, &ids),
    }
}

/// A run that takes everything fetches every selected thread.
pub proof fn full_runs_cover_the_selection(
    t: ThreadMeta,
    forum_ids: Set<i64>,
    marks: Seq<(i64, i64)>,
)
    ensures
        is_due(t, forum_ids, marks, true) == forum_ids.contains(t.forum_id),
{
}

/// Once scraped, a thread is fetched again only when its `last_update` has
/// grown past the one it was scraped at, and then it is.
pub proof fn scraped_threads_wait_until_they_move(
    t: ThreadMeta,
    forum_ids: Set<i64>,
    table: Seq<(i64, Watermark)>,
    at: int,
    ts: i64,
    last_update: i64,
)
    requires
        forall|i: int, j: int| 0 <= i < j < table.len() ==> (#[trigger] table[i]).0 != (
        #[trigger] table[j]).0,
        0 <= at < table.len(),
        table[at] == (t.id, scraped(ts, last_update)),
        forum_ids.contains(t.forum_id),
    ensures
        is_due(t, forum_ids, scraped_marks(table), false) <==> t.last_update > last_update,
{
    lemma_seen(table, at, ts, last_update);
}

proof fn lemma_seen(table: Seq<(i64, Watermark)>, at: int, ts: i64, last_update: i64)
    requires
        forall|i: int, j: int| 0 <= i < j < table.len() ==> (#[trigger] table[i]).0 != (
        #[trigger] table[j]).0,
        0 <= at < table.len(),
        table[at].1 == scraped(ts, last_update),
    ensures
        seen(scraped_marks(table), table[at].0) == Some(last_update),
    decreases table.len(),
{
    let earlier = scraped_marks(table.drop_last());
    if at < table.len() - 1 {
        assert(table[at].0 != table[table.len() - 1].0);
        lemma_seen(table.drop_last(), at, ts, last_update);
    }
    let (id, mark) = table.last();
    if mark.scraped_at is Some {
        assert(scraped_marks(table).drop_last() =~= earlier);
    }
}

/// An interrupted run continues where it stopped, across the catalog refresh
/// that starts the next one. `table` is the bookkeeping that the interrupted run
/// left, `before` lists it, and `after` lists it once the refresh has written the
/// threads `ids`: a thread whose posts were written is fetched again only if it
/// has moved since, and one whose posts were not is still fetched.
pub proof fn interrupted_runs_continue_where_they_stopped(
    t: ThreadMeta,
    forum_ids: Set<i64>,
    table: Map<i64, Watermark>,
    before: Seq<(i64, Watermark)>,
    ids: Seq<i64>,
    after: Seq<(i64, Watermark)>,
)
    requires
        lists_table(before, table),
        lists_table(after, marks_after(table, before, ids)),
        forum_ids.contains(t.forum_id),
    ensures
        forall|ts: i64, last_update: i64|
            table.contains_key(t.id) && table[t.id] == #[trigger] scraped(ts, last_update) ==> (
            is_due(t, forum_ids, scraped_marks(after), false) <==> t.last_update > last_update),
        !table.contains_key(t.id) || table[t.id].scraped_at is None ==> is_due(
            t,
            forum_ids,
            scraped_marks(after),
            false,
        ),
{
    catalog_refresh_keeps_watermarks(table, before, ids);
    let now = marks_after(table, before, ids);
    if now.contains_key(t.id) {
        let at = choose|i: int| 0 <= i < after.len() && (#[trigger] after[i]).0 == t.id;
        assert forall|ts: i64, last_update: i64|
            table.contains_key(t.id) && table[t.id] == #[trigger] scraped(
                ts,
                last_update,
            ) implies (is_due(t, forum_ids, scraped_marks(after), false) <==> t.last_update
            > last_update) by {
            lemma_seen(after, at, ts, last_update);
        }
        if !table.contains_key(t.id) || table[t.id].scraped_at is None {
            assert(after[at].1.scraped_at is None);
            assert forall|i: int|
                0 <= i < after.len() && (#[trigger] after[i]).0 == t.id implies after[i].1.scraped_at
                is None by {
                if i < at {
                    assert(after[i].0 != after[at].0);
                } else if at < i {
                    assert(after[at].0 != after[i].0);
                }
            }
            lemma_unscraped_unseen(after, t.id);
        }
    } else {
        assert forall|i: int| 0 <= i < after.len() implies (#[trigger] after[i]).0 != t.id by {
            assert(now.contains_key(after[i].0));
        }
        lemma_unscraped_unseen(after, t.id);
    }
}

proof fn lemma_unscraped_unseen(table: Seq<(i64, Watermark)>, id: i64)
    requires
        forall|i: int|
            0 <= i < table.len() && (#[trigger] table[i]).0 == id ==> table[i].1.scraped_at
                is None,
    ensures
        seen(scraped_marks(table), id) is None,
    decreases table.len(),
{
    if table.len() > 0 {
        let rest = table.drop_last();
        assert(table[table.len() - 1] == table.last());
        assert forall|i: int| 0 <= i < rest.len() && (#[trigger] rest[i]).0 == id implies rest[i].1.scraped_at
            is None by {
            assert(rest[i] == table[i]);
        }
        lemma_unscraped_unseen(rest, id);
        if table.last().1.scraped_at is Some {
            assert(scraped_marks(table).drop_last() =~= scraped_marks(rest));
        }
    }
}

/// A catalog refresh changes no watermark that is read: of every thread, the
/// `last_update` it was scraped at is the same before and after.
pub proof fn catalog_refresh_reads_the_same_watermarks(
    table: Map<i64, Watermark>,
    before: Seq<(i64, Watermark)>,
    ids: Seq<i64>,
    after: Seq<(i64, Watermark)>,
    id: i64,
)
    requires
        lists_table(before, table),
        lists_table(after, marks_after(table, before, ids)),
    ensures
        seen(scraped_marks(after), id) == seen(scraped_marks(before), id),
{
    catalog_refresh_keeps_watermarks(table, before, ids);
    let now = marks_after(table, before, ids);
    lemma_seen_in_table(table, before, id);
    lemma_seen_in_table(now, after, id);
    if table.contains_key(id) {
        assert(now.contains_key(id));
    }
}

/// The watermark that is read of a thread in a table.
spec fn table_mark(table: Map<i64, Watermark>, id: i64) -> Option<i64> {
    if !table.contains_key(id) || table[id].scraped_at is None {
        None
    } else {
        match table[id].scraped_last_update {
            Some(n) => Some(n),
            None => Some(-1i64),
        }
    }
}

proof fn lemma_seen_in_table(table: Map<i64, Watermark>, marks: Seq<(i64, Watermark)>, id: i64)
    requires
        lists_table(marks, table),
    ensures
        seen(scraped_marks(marks), id) == table_mark(table, id),
{
    if table.contains_key(id) && table[id].scraped_at is Some {
        let at = choose|i: int| 0 <= i < marks.len() && (#[trigger] marks[i]).0 == id;
        lemma_seen_at(marks, at);
    } else {
        assert forall|i: int| 0 <= i < marks.len() && (#[trigger] marks[i]).0 == id implies marks[i].1.scraped_at
            is None by {
            assert(table.contains_key(marks[i].0));
        }
        lemma_unscraped_unseen(marks, id);
    }
}

proof fn lemma_seen_at(marks: Seq<(i64, Watermark)>, at: int)
    requires
        forall|i: int, j: int| 0 <= i < j < marks.len() ==> (#[trigger] marks[i]).0 != (
        #[trigger] marks[j]).0,
        0 <= at < marks.len(),
        marks[at].1.scraped_at is Some,
    ensures
        seen(scraped_marks(marks), marks[at].0) == Some(
            match marks[at].1.scraped_last_update {
                Some(n) => n,
                None => -1i64,
            },
        ),
    decreases marks.len(),
{
    let earlier = scraped_marks(marks.drop_last());
    if at < marks.len() - 1 {
        assert(marks[at].0 != marks[marks.len() - 1].0);
        lemma_seen_at(marks.drop_last(), at);
    }
    if marks.last().1.scraped_at is Some {
        assert(scraped_marks(marks).drop_last() =~= earlier);
    }
}

/// A thread that was never scraped is fetched if it is selected.
pub proof fn new_threads_are_fetched(
    t: ThreadMeta,
    forum_ids: Set<i64>,
    marks: Seq<(i64, i64)>,
    all: bool,
)
    requires
        forall|i: int| 0 <= i < marks.len() ==> (#[trigger] marks[i]).0 != t.id,
        forum_ids.contains(t.forum_id),
    ensures
        is_due(t, forum_ids, marks, all),
{
    lemma_unseen(marks, t.id);
}

proof fn lemma_unseen(marks: Seq<(i64, i64)>, id: i64)
    requires
        forall|i: int| 0 <= i < marks.len() ==> (#[trigger] marks[i]).0 != id,
    ensures
        seen(marks, id) is None,
    decreases marks.len(),
{
    if marks.len() > 0 {
        assert(marks[marks.len() - 1] == marks.last());
        assert forall|i: int| 0 <= i < marks.drop_last().len() implies (
        #[trigger] marks.drop_last()[i]).0 != id by {
            assert(marks.drop_last()[i] == marks[i]);
        }
        lemma_unseen(marks.drop_last(), id);
    }
}

/// The targets of a run are threads that need fetching, no more than the limit,
/// all of them if the limit allows, and the most recently updated ones first.
pub proof fn targets_are_the_newest_due_threads(due: Seq<(i64, i64)>, limit: Option<usize>)
    requires
        due.len() <= usize::MAX,
    ensures
        capped(newest_first(due), limit).len() == (match limit {
            Some(n) => if n < due.len() {
                n as nat
            } else {
                due.len()
            },
            None => due.len(),
        }),
        forall|i: int|
            0 <= i < capped(newest_first(due), limit).len() ==> due.contains(
                #[trigger] capped(newest_first(due), limit)[i],
            ),
        forall|i: int, j: int|
            0 <= i < j < newest_first(due).len() ==> (#[trigger] newest_first(due)[i]).1 >= (
            #[trigger] newest_first(due)[j]).1,
{
    let keys = update_keys(due);
    let order = the_order(keys, Direction::Descending);
    order_exists(keys, Direction::Descending);
    assert forall|i: int| 0 <= i < order.len() implies #[trigger] newest_first(due)[i]
        == due[order[i] as int] && due.contains(newest_first(due)[i]) by {
        assert(order[i] < keys.len());
    }
    assert forall|i: int, j: int| 0 <= i < j < newest_first(due).len() implies (
    #[trigger] newest_first(due)[i]).1 >= (#[trigger] newest_first(due)[j]).1 by {
        assert(precedes(keys, Direction::Descending, order[i] as int, order[j] as int));
        assert(keys[order[i] as int] == due[order[i] as int].1);
        assert(keys[order[j] as int] == due[order[j] as int].1);
    }
}

pub open spec fn coverage_line(plan: ThreadPlan, full: bool) -> Seq<char> {
    "Selection covers "@ + decimal(plan.forums as nat) + " forums and "@ + decimal(
        plan.threads as nat,
    ) + " threads; "@ + decimal(plan.outstanding as nat) + " need fetching"@ + (if full {
        " (full re-scrape)"@
    } else {
        ""@
    }) + (if plan.targets@.len() < plan.outstanding {
        ", capped at "@ + decimal(plan.targets@.len()) + " by --limit"@
    } else {
        ""@
    }) + "."@
}

/// What a run has to do, in words.
pub fn coverage_text(plan: &ThreadPlan, full: bool) -> (r: String)
    ensures
        r@ == coverage_line(*plan, full),
{
    let note = if full {
        " (full re-scrape)"
    } else {
        ""
    };
    let cap = if plan.targets.len() < plan.outstanding {
        String::from_str(", capped at ").concat(
            nat_text(plan.targets.len() as u128).as_str(),
        ).concat(" by --limit")
    } else {
        String::from_str("")
    };
    String::from_str("Selection covers ").concat(nat_text(plan.forums as u128).as_str()).concat(
        " forums and ",
    ).concat(nat_text(plan.threads as u128).as_str()).concat(" threads; ").concat(
        nat_text(plan.outstanding as u128).as_str(),
    ).concat(" need fetching").concat(note).concat(cap.as_str()).concat(".")
}

// ---------------------------------------------------------------------------
// Results
// ---------------------------------------------------------------------------

/// What became of one item of a phase.
#[derive(Debug, Clone, Copy, PartialEq, Eq, Structural)]
pub enum Outcome {
    /// Done; how many posts or bytes it brought.
    Done(u64),
    Failed,
}

/// What to write for a failure.
pub open spec fn reports(op: DbOp, scope: Seq<char>, ref_id: Seq<char>, cause: Failure) -> bool {
    op matches DbOp::Error { scope: s, ref_id: id, message } && s@ == scope && id@ == ref_id
        && message@ == failure_text(cause)
}

fn failure_op(scope: &str, ref_id: String, cause: &Failure) -> (r: DbOp)
    ensures
        reports(r, scope@, ref_id@, *cause),
{
    DbOp::Error { scope: String::from_str(scope), ref_id, message: cause.text() }
}

/// Whether `r` is what comes of a thread's request.
pub open spec fn settles_thread(
    thread_id: i64,
    last_update: i64,
    result: Result<Vec<Post>, Failure>,
    stop_on_error: bool,
    r: (DbOp, Outcome, bool),
) -> bool {
    match result {
        Ok(posts) => {
            &&& r.0 == (DbOp::Posts { thread_id, last_update, posts })
            &&& r.1 == Outcome::Done(posts@.len() as u64)
            &&& !r.2
        },
        Err(cause) => {
            &&& reports(r.0, "thread"@, decimal_int(thread_id as int), cause)
            &&& r.1 == Outcome::Failed
            &&& r.2 == stop_on_error
        },
    }
}

/// Whether `r` is what comes of a recording's download.
pub open spec fn settles_recording(
    post_id: i64,
    path: Seq<char>,
    result: Result<(u64, String), Failure>,
    r: (DbOp, Outcome),
) -> bool {
    match result {
        Ok((bytes, sha)) => {
            &&& r.0 matches DbOp::Audio { post_id: id, path: p, bytes: b, sha: s } && id == post_id
                && p@ == path && b == bytes as i64 && s@ == sha@
            &&& r.1 == Outcome::Done(bytes)
        },
        Err(cause) => {
            &&& reports(r.0, "audio"@, decimal_int(post_id as int), cause)
            &&& r.1 == Outcome::Failed
        },
    }
}

/// Whether `r` is what comes of adopting a recording.
pub open spec fn settles_adoption(
    post_id: i64,
    path: Seq<char>,
    bytes: u64,
    r: (DbOp, Outcome),
) -> bool {
    &&& r.0 matches DbOp::Audio { post_id: id, path: p, bytes: b, sha } && id == post_id && p@
        == path && b == bytes as i64 && sha@ == Seq::<char>::empty()
    &&& r.1 == Outcome::Done(0)
}

/// Whether `r` is what comes of asking about an attachment.
pub open spec fn settles_description(
    id: Seq<char>,
    result: Result<AttachmentInfo, Failure>,
    r: (DbOp, Outcome),
) -> bool {
    match result {
        Ok(info) => {
            &&& r.0 == DbOp::AttachmentInfo(Box::new(info))
            &&& r.1 == Outcome::Done(0)
        },
        Err(cause) => {
            &&& reports(r.0, "attachment"@, id, cause)
            &&& r.1 == Outcome::Failed
        },
    }
}

/// Whether `r` is what comes of fetching an attachment.
pub open spec fn settles_attachment(
    id: Seq<char>,
    result: Result<AttachmentRecord, Failure>,
    r: (DbOp, Outcome),
) -> bool {
    match result {
        Ok(record) => {
            &&& r.0 == DbOp::Attachment(Box::new(record))
            &&& r.1 == Outcome::Done(record.bytes as u64)
        },
        Err(cause) => {
            &&& reports(r.0, "attachment"@, id, cause)
            &&& r.1 == Outcome::Failed
        },
    }
}

/// What to write when a thread's request is over, what it counts as, and
/// whether the run stops: it goes on after a failure unless told otherwise.
pub fn thread_result(
    thread_id: i64,
    last_update: i64,
    result: Result<Vec<Post>, Failure>,
    stop_on_error: bool,
) -> (r: (DbOp, Outcome, bool))
    ensures
        match result {
            Ok(posts) => {
                &&& r.0 == (DbOp::Posts { thread_id, last_update, posts })
                &&& r.1 == Outcome::Done(posts@.len() as u64)
                &&& !r.2
            },
            Err(cause) => {
                &&& reports(r.0, "thread"@, decimal_int(thread_id as int), cause)
                &&& r.1 == Outcome::Failed
                &&& r.2 == stop_on_error
            },
        },
        settles_thread(thread_id, last_update, result, stop_on_error, r),
{
    match result {
        Ok(posts) => {
            let count: u64 = posts.len() as u64;
            (DbOp::Posts { thread_id, last_update, posts }, Outcome::Done(count), false)
        },
        Err(cause) => (
            failure_op("thread", int_text(thread_id), &cause),
            Outcome::Failed,
            stop_on_error,
        ),
    }
}

/// What to write when a recording from an earlier run is adopted. It brings no
/// bytes, and its digest is not computed again.
pub fn audio_adoption(post_id: i64, path: String, bytes: u64) -> (r: (DbOp, Outcome))
    ensures
        r.0 matches DbOp::Audio { post_id: id, path: p, bytes: b, sha } && id == post_id && p@
            == path@ && b == bytes as i64 && sha@ == Seq::<char>::empty(),
        r.1 == Outcome::Done(0),
        settles_adoption(post_id, path@, bytes, r),
{
    (
        DbOp::Audio { post_id, path, bytes: bytes as i64, sha: String::new() },
        Outcome::Done(0),
    )
}

/// What to write when a recording's download is over: its size and digest, or
/// what went wrong.
pub fn audio_result(post_id: i64, path: String, result: Result<(u64, String), Failure>) -> (r: (
    DbOp,
    Outcome,
))
    ensures
        match result {
            Ok((bytes, sha)) => {
                &&& r.0 matches DbOp::Audio { post_id: id, path: p, bytes: b, sha: s } && id
                    == post_id && p@ == path@ && b == bytes as i64 && s@ == sha@
                &&& r.1 == Outcome::Done(bytes)
            },
            Err(cause) => {
                &&& reports(r.0, "audio"@, decimal_int(post_id as int), cause)
                &&& r.1 == Outcome::Failed
            },
        },
        settles_recording(post_id, path@, result, r),
{
    match result {
        Ok((bytes, sha)) => (
            DbOp::Audio { post_id, path, bytes: bytes as i64, sha },
            Outcome::Done(bytes),
        ),
        Err(cause) => (failure_op("audio", int_text(post_id), &cause), Outcome::Failed),
    }
}

/// What to write when an attachment is there, or when it could not be had.
pub fn attachment_result(id: &str, result: Result<AttachmentRecord, Failure>) -> (r: (
    DbOp,
    Outcome,
))
    ensures
        match result {
            Ok(record) => {
                &&& r.0 == DbOp::Attachment(Box::new(record))
                &&& r.1 == Outcome::Done(record.bytes as u64)
            },
            Err(cause) => {
                &&& reports(r.0, "attachment"@, id@, cause)
                &&& r.1 == Outcome::Failed
            },
        },
        settles_attachment(id@, result, r),
{
    match result {
        Ok(record) => {
            let bytes: u64 = record.bytes as u64;
            (DbOp::Attachment(Box::new(record)), Outcome::Done(bytes))
        },
        Err(cause) => (failure_op("attachment", String::from_str(id), &cause), Outcome::Failed),
    }
}

/// What to write when the server has told of an attachment, or would not.
pub fn description_result(id: &str, result: Result<AttachmentInfo, Failure>) -> (r: (
    DbOp,
    Outcome,
))
    ensures
        match result {
            Ok(info) => {
                &&& r.0 == DbOp::AttachmentInfo(Box::new(info))
                &&& r.1 == Outcome::Done(0)
            },
            Err(cause) => {
                &&& reports(r.0, "attachment"@, id@, cause)
                &&& r.1 == Outcome::Failed
            },
        },
        settles_description(id@, result, r),
{
    match result {
        Ok(info) => (DbOp::AttachmentInfo(Box::new(info)), Outcome::Done(0)),
        Err(cause) => (failure_op("attachment", String::from_str(id), &cause), Outcome::Failed),
    }
}

/// What a phase came to.
#[derive(Debug, Clone, Copy)]
pub struct Tally {
    pub done: u64,
    pub failed: u64,
    /// How many posts or bytes were brought.
    pub amount: u128,
}

pub open spec fn done_count(outcomes: Seq<Option<Outcome>>) -> nat {
    outcomes.filter(|o: Option<Outcome>| o matches Some(Outcome::Done(_))).len()
}

pub open spec fn failed_count(outcomes: Seq<Option<Outcome>>) -> nat {
    outcomes.filter(|o: Option<Outcome>| o == Some(Outcome::Failed)).len()
}

pub open spec fn amount_of(outcomes: Seq<Option<Outcome>>) -> int
    decreases outcomes.len(),
{
    if outcomes.len() == 0 {
        0
    } else {
        amount_of(outcomes.drop_last()) + match outcomes.last() {
            Some(Outcome::Done(n)) => n as int,
            _ => 0,
        }
    }
}

/// Count what a phase came to. Items that were not started because the run was
/// stopped have no outcome and count as neither.
pub fn tally(outcomes: &Vec<Option<Outcome>>) -> (r: Tally)
    ensures
        r.done == done_count(outcomes@),
        r.failed == failed_count(outcomes@),
        r.amount == amount_of(outcomes@),
{
    let ghost is_done = |o: Option<Outcome>| o matches Some(Outcome::Done(_));
    let ghost is_failed = |o: Option<Outcome>| o == Some(Outcome::Failed);
    let mut t = Tally { done: 0, failed: 0, amount: 0 };
    let mut i: usize = 0;
    proof {
        reveal(Seq::filter);
        assert(outcomes@.take(0).filter(is_done).len() == 0);
        assert(outcomes@.take(0).filter(is_failed).len() == 0);
    }
    while i < outcomes.len()
        invariant
            i <= outcomes@.len(),
            is_done == (|o: Option<Outcome>| o matches Some(Outcome::Done(_))),
            is_failed == (|o: Option<Outcome>| o == Some(Outcome::Failed)),
            t.done + t.failed <= i,
            t.done == outcomes@.take(i as int).filter(is_done).len(),
            t.failed == outcomes@.take(i as int).filter(is_failed).len(),
            t.amount == amount_of(outcomes@.take(i as int)),
            t.amount <= i * u64::MAX,
        decreases outcomes@.len() - i,
    {
        let ghost now = outcomes@.take(i + 1);
        proof {
            reveal(Seq::filter);
            assert(now.drop_last() =~= outcomes@.take(i as int));
            assert(now.last() == outcomes@[i as int]);
            assert((i + 1) * u64::MAX == i * u64::MAX + u64::MAX) by (nonlinear_arith);
            assert(i * u64::MAX <= 0xffff_ffff_ffff_fffe * 0xffff_ffff_ffff_ffff) by (nonlinear_arith)
                requires
                    i <= 0xffff_ffff_ffff_fffe,
            ;
        }
        match outcomes[i] {
            Some(Outcome::Done(n)) => {
                t.done += 1;
                t.amount += n as u128;
            },
            Some(Outcome::Failed) => {
                t.failed += 1;
            },
            None => {},
        }
        i += 1;
    }
    assert(outcomes@.take(i as int) =~= outcomes@);
    t
}

// ---------------------------------------------------------------------------
// Phases
// ---------------------------------------------------------------------------

/// What to do about recordings.
#[derive(Debug, Clone, Copy, PartialEq, Eq, Structural)]
pub enum AudioPhase {
    Run,
    /// Downloads are off; say so.
    Off,
    /// The run was stopped.
    Skip,
}

pub open spec fn audio_phase_for(
    download_audio: bool,
    no_audio: bool,
    stopped: bool,
) -> AudioPhase {
    if no_audio || !download_audio {
        AudioPhase::Off
    } else if stopped {
        AudioPhase::Skip
    } else {
        AudioPhase::Run
    }
}

pub fn audio_phase(download_audio: bool, no_audio: bool, stopped: bool) -> (r: AudioPhase)
    ensures
        r == (if no_audio || !download_audio {
            AudioPhase::Off
        } else if stopped {
            AudioPhase::Skip
        } else {
            AudioPhase::Run
        }),
        r == audio_phase_for(download_audio, no_audio, stopped),
{
    if download_audio && !no_audio && !stopped {
        AudioPhase::Run
    } else if no_audio || !download_audio {
        AudioPhase::Off
    } else {
        AudioPhase::Skip
    }
}

/// What to do about attachments.
#[derive(Debug, Clone, Copy, PartialEq, Eq, Structural)]
pub enum AttachmentPhase {
    /// Fetch the files, and what is told of them.
    Download,
    /// Only ask what is told of them.
    Describe,
    /// The run was stopped.
    Skip,
}

pub open spec fn attachment_phase_for(download_attachments: bool, stopped: bool) -> AttachmentPhase {
    if stopped {
        AttachmentPhase::Skip
    } else if download_attachments {
        AttachmentPhase::Download
    } else {
        AttachmentPhase::Describe
    }
}

/// Files are off by default - the ids and metadata are recorded regardless, so
/// switching them on later backfills them.
pub fn attachment_phase(download_attachments: bool, stopped: bool) -> (r: AttachmentPhase)
    ensures
        r == (if stopped {
            AttachmentPhase::Skip
        } else if download_attachments {
            AttachmentPhase::Download
        } else {
            AttachmentPhase::Describe
        }),
        r == attachment_phase_for(download_attachments, stopped),
{
    if stopped {
        AttachmentPhase::Skip
    } else if download_attachments {
        AttachmentPhase::Download
    } else {
        AttachmentPhase::Describe
    }
}

/// The metadata recorded of an attachment is the same whether or not its file is
/// fetched: what is written without the file is what would be written with it,
/// up to the columns of the file.
pub proof fn metadata_is_recorded_either_way(
    plan: AttachmentPlan,
    info: AttachmentInfo,
    record: AttachmentRecord,
    ts: i64,
)
    requires
        info.name@ == plan.name@,
        info.size == plan.size,
        info.uploader@ == plan.uploader@,
        info.uploadtime == plan.uploadtime,
        info.url@ == plan.url@,
        record.name@ == plan.name@,
        record.size == plan.size,
        record.uploader@ == plan.uploader@,
        record.uploadtime == plan.uploadtime,
        record.url@ == plan.url@,
    ensures
        attachment_info_row(info) == attachment_row(record, ts).take(5),
{
    assert(attachment_info_row(info) =~= attachment_row(record, ts).take(5));
}

pub open spec fn notes_text(stopped: bool, source: CatalogSource, attachments: u64) -> Seq<char> {
    (if stopped {
        "interrupted"@
    } else {
        "completed"@
    }) + "; catalog="@ + source_text(source) + "; attachments="@ + decimal(attachments as nat)
}

/// What is noted of a run.
pub fn run_notes(stopped: bool, source: CatalogSource, attachments: u64) -> (r: String)
    ensures
        r@ == (if stopped {
            "interrupted"@
        } else {
            "completed"@
        }) + "; catalog="@ + source_text(source) + "; attachments="@ + decimal(attachments as nat),
        r@ == notes_text(stopped, source, attachments),
{
    let state = if stopped {
        "interrupted"
    } else {
        "completed"
    };
    String::from_str(state).concat("; catalog=").concat(source.text()).concat(
        "; attachments=",
    ).concat(nat_text(attachments as u128).as_str())
}

// ---------------------------------------------------------------------------
// What holds of a run
// ---------------------------------------------------------------------------

/// What is kept in file names: the letters and digits of ASCII, `-` and `_`.
pub proof fn safe_characters_are_few(c: char)
    ensures
        is_safe(c) <==> 48 <= c as int <= 57 || 65 <= c as int <= 90 || 97 <= c as int <= 122 || c
            == '-' || c == '_',
        is_safe(c) ==> safe_char(c) == c,
        !is_safe(c) ==> safe_char(c) == '_',
{
}

/// The stem of a key keeps the key's own characters, up to the point where the key
/// is cut, and stands `_` for each that is not safe; a key that is cut goes on with
/// a dash and twelve digits of its digest.
pub proof fn stems_begin_like_their_key(key: Seq<char>, i: int)
    ensures
        key.len() <= 40 ==> stem(key).len() == key.len(),
        key.len() > 40 ==> stem(key)[24] == '-',
        key.len() > 40 && sha256(encode_utf8(key)).len() == 32 ==> stem(key).len() == 37,
        0 <= i < key.len() && (key.len() <= 40 || i < 24) ==> stem(key)[i] == (if is_safe(key[i]) {
            key[i]
        } else {
            '_'
        }),
        key.len() > 40 && 0 <= i < 12 && sha256(encode_utf8(key)).len() == 32 ==> stem(key)[25 + i]
            == hex_text(sha256(encode_utf8(key)))[i],
{
    if key.len() > 40 {
        assert(safe_text(key).take(24).len() == 24);
    }
}

/// The subdirectory of a file is the beginning of its name, and never empty.
pub proof fn shards_are_beginnings(s: Seq<char>)
    ensures
        shard_of(s).len() > 0,
        s.len() >= 2 ==> shard_of(s) == s.take(2),
        s.len() == 1 ==> shard_of(s) == s,
        s.len() == 0 ==> shard_of(s) == seq!['_'],
{
    reveal_strlit("_");
    assert("_"@ =~= seq!['_']);
}

/// A recording with a key is named by it, one without by its post, so that two
/// posts without a key never share a file.
pub proof fn recordings_are_named_by_key_or_post(a: AudioJob, b: AudioJob)
    ensures
        a.key@.len() > 0 ==> recording_key(a) == a.key@,
        a.key@.len() == 0 ==> recording_key(a) == "post-"@ + decimal_int(a.post_id as int),
        a.key@.len() == 0 && b.key@.len() == 0 && a.post_id != b.post_id ==> recording_key(a)
            != recording_key(b),
{
    if a.key@.len() == 0 && b.key@.len() == 0 && recording_key(a) == recording_key(b) {
        let n = "post-"@.len() as int;
        assert(recording_key(a).skip(n) =~= decimal_int(a.post_id as int));
        assert(recording_key(b).skip(n) =~= decimal_int(b.post_id as int));
        decimals_differ(a.post_id as int, b.post_id as int);
    }
}

/// A recording's extension goes by its content type; what is not known to be
/// something else is Ogg.
pub proof fn extensions_go_by_content_type(kind: Seq<char>)
    ensures
        audio_extension("audio/mpeg"@) == "mp3"@ && audio_extension("audio/mp3"@) == "mp3"@,
        audio_extension("audio/wav"@) == "wav"@ && audio_extension("audio/x-wav"@) == "wav"@,
        audio_extension("audio/opus"@) == "opus"@,
        kind != "audio/mpeg"@ && kind != "audio/mp3"@ && kind != "audio/wav"@ && kind
            != "audio/x-wav"@ && kind != "audio/opus"@ ==> audio_extension(kind) == "ogg"@,
{
    reveal_strlit("audio/mpeg");
    reveal_strlit("audio/mp3");
    reveal_strlit("audio/wav");
    reveal_strlit("audio/x-wav");
    reveal_strlit("audio/opus");
    assert("audio/mpeg"@.len() == 10 && "audio/mp3"@.len() == 9 && "audio/wav"@.len() == 9
        && "audio/x-wav"@.len() == 11 && "audio/opus"@.len() == 10);
    assert("audio/mpeg"@[6] == 'm' && "audio/mp3"@[6] == 'm' && "audio/wav"@[6] == 'w'
        && "audio/x-wav"@[6] == 'x' && "audio/opus"@[6] == 'o');
}

/// The extension of a name is what follows its last dot, if something stands before
/// that dot; a name without a dot has none.
pub proof fn extensions_follow_the_last_dot(base: Seq<char>, e: Seq<char>)
    requires
        !e.contains('.'),
    ensures
        base.len() > 0 && base + seq!['.'] + e != seq!['.', '.'] ==> name_extension(
            base + seq!['.'] + e,
        ) == Some(e),
        name_extension(seq!['.'] + e) is None,
        name_extension(e) is None,
        name_extension(seq!['.', '.']) is None,
{
    assert forall|j: int| 0 <= j < e.len() implies #[trigger] e[j] != '.' by {
        assert(e.contains(e[j]));
    }
    let s = base + seq!['.'] + e;
    assert forall|j: int| base.len() < j < s.len() implies #[trigger] s[j] != '.' by {
        assert(s[j] == e[j - base.len() - 1]);
    }
    lemma_last_of(s, '.', base.len() as int);
    assert(s.skip(base.len() as int + 1) =~= e);
    let t = seq!['.'] + e;
    assert forall|j: int| 0 < j < t.len() implies #[trigger] t[j] != '.' by {
        assert(t[j] == e[j - 1]);
    }
    lemma_last_of(t, '.', 0);
    lemma_last_of(e, '.', -1);
}

proof fn lemma_ends_do_not_count(dir: Seq<char>)
    ensures
        tidy_path(dir + seq!['/']) == tidy_path(dir),
        tidy_path(dir + seq!['/', '.']) == tidy_path(dir),
{
    let slash = dir + seq!['/'];
    assert(slash.last() == '/' && slash.drop_last() =~= dir);
    assert(tidy_path(slash) == tidy_path(dir));
    let dot = dir + seq!['/', '.'];
    assert(dot.last() == '.' && dot[dot.len() - 2] == '/' && dot.drop_last() =~= slash);
    assert(tidy_path(dot) == tidy_path(slash));
}

/// The file that a path leads to is what follows its last slash, whatever
/// directories come before and however many slashes come after.
pub proof fn files_follow_the_last_slash(dir: Seq<char>, name: Seq<char>)
    requires
        name.len() > 0,
        !name.contains('/'),
        name != seq!['.'],
    ensures
        file_part(name) == name,
        file_part(dir + seq!['/'] + name) == name,
        file_part(dir + seq!['/']) == file_part(dir),
        file_part(dir + seq!['/', '.']) == file_part(dir),
{
    lemma_ends_do_not_count(dir);
    assert forall|j: int| 0 <= j < name.len() implies #[trigger] name[j] != '/' by {
        assert(name.contains(name[j]));
    }
    assert(name[name.len() - 1] != '/');
    assert(tidy_path(name) == name) by {
        if name.len() > 1 {
            assert(name[name.len() - 2] != '/');
        }
    }
    lemma_last_of(name, '/', -1);
    assert(name.skip(0) =~= name);
    let s = dir + seq!['/'] + name;
    assert(s.last() == name.last());
    assert(tidy_path(s) == s) by {
        if name.len() > 1 {
            assert(s[s.len() - 2] == name[name.len() - 2]);
        } else {
            assert(name =~= seq![name[0]]);
            assert(name[0] != '.');
        }
    }
    assert forall|j: int| dir.len() < j < s.len() implies #[trigger] s[j] != '/' by {
        assert(s[j] == name[j - dir.len() - 1]);
    }
    lemma_last_of(s, '/', dir.len() as int);
    assert(s.skip(dir.len() as int + 1) =~= name);
}

/// The extension of a stored attachment is made of the letters and digits of the
/// original one, in order, eight at most; without any there is none.
pub proof fn attachment_extensions_are_cleaned(id: Seq<char>, e: Seq<char>)
    ensures
        attachment_name(id, None) == stem(id),
        (forall|i: int| 0 <= i < e.len() ==> !is_alnum(#[trigger] e[i])) ==> attachment_name(
            id,
            Some(e),
        ) == stem(id),
        0 < e.len() <= 8 && (forall|i: int| 0 <= i < e.len() ==> is_alnum(#[trigger] e[i]))
            ==> attachment_name(id, Some(e)) == stem(id) + seq!['.'] + e,
        e.len() > 8 && (forall|i: int| 0 <= i < e.len() ==> is_alnum(#[trigger] e[i]))
            ==> attachment_name(id, Some(e)) == stem(id) + seq!['.'] + e.take(8),
{
    reveal_strlit(".");
    assert("."@ =~= seq!['.']);
    let keep = |c: char| is_alnum(c);
    lemma_filter_picks(e, keep);
    if forall|i: int| 0 <= i < e.len() ==> !is_alnum(#[trigger] e[i]) {
        let at = kept_at(e, keep);
        if at.len() > 0 {
            assert(0 <= at[0] < e.len() && keep(e[at[0]]));
        }
    }
    if forall|i: int| 0 <= i < e.len() ==> is_alnum(#[trigger] e[i]) {
        lemma_all_kept(e, keep);
    }
}

proof fn lemma_all_kept<A>(s: Seq<A>, keep: spec_fn(A) -> bool)
    requires
        forall|i: int| 0 <= i < s.len() ==> keep(#[trigger] s[i]),
    ensures
        s.filter(keep) == s,
    decreases s.len(),
{
    reveal(Seq::filter);
    if s.len() > 0 {
        assert forall|i: int| 0 <= i < s.drop_last().len() implies keep(
            #[trigger] s.drop_last()[i],
        ) by {
            assert(s.drop_last()[i] == s[i]);
        }
        lemma_all_kept(s.drop_last(), keep);
        assert(keep(s[s.len() - 1]));
        assert(s.drop_last().push(s.last()) =~= s);
    } else {
        assert(s.filter(keep) =~= s);
    }
}

/// An attachment is downloaded from where the server says, or else from its own
/// path.
pub proof fn attachments_come_from_where_the_server_says(
    id: Seq<char>,
    info: JsonV,
    given: Seq<char>,
)
    requires
        gives_text(info, "url"@, given),
    ensures
        given.len() > 0 ==> attachment_url(id, info) == given,
        given.len() == 0 ==> attachment_url(id, info) == "/api/v1/attachments/"@ + id
            + "/download"@,
{
}

/// How a catalog was come by is told apart in the notes of a run.
pub proof fn sources_are_told_apart(a: CatalogSource, b: CatalogSource)
    ensures
        source_text(CatalogSource::Full) == "full"@,
        source_text(CatalogSource::Unchanged) == "unchanged"@,
        source_text(CatalogSource::Incremental) == "incremental"@,
        source_text(CatalogSource::FullAfterMiss) == "full (cache miss)"@,
        source_text(a) == source_text(b) ==> a == b,
{
    reveal_strlit("full");
    reveal_strlit("unchanged");
    reveal_strlit("incremental");
    reveal_strlit("full (cache miss)");
    assert("full"@.len() == 4 && "unchanged"@.len() == 9 && "incremental"@.len() == 11
        && "full (cache miss)"@.len() == 17);
}

/// A delta is asked for exactly if a fingerprint is held, and against that one.
pub proof fn deltas_are_asked_for_by_fingerprint(ident: Seq<char>)
    ensures
        ident.len() == 0 ==> catalog_params(ident).len() == 0,
        ident.len() > 0 ==> catalog_params(ident).len() == 2 && catalog_params(ident)[0] == (
        "ident"@, ident) && catalog_params(ident)[1] == ("increment"@, "1"@),
{
}

/// The fingerprint of a catalog is the one that the answer gives, or else the one
/// that was held.
pub proof fn fingerprints_follow_the_answer(data: JsonV, held: Seq<char>, given: Seq<char>)
    requires
        gives_text(data, "ident"@, given),
    ensures
        ident_after(data, held) == (if given.len() > 0 {
            given
        } else {
            held
        }),
{
}

/// What an answer leads to. Without a fingerprint, or if it says neither that
/// nothing changed nor that it is a delta, it is the whole catalog. If nothing
/// changed, the catalog is the one held. A delta is merged with the rows held.
pub proof fn answers_are_taken_as_they_say(
    cached_ident: Seq<char>,
    data: JsonV,
    groups: Seq<JsonV>,
    forums: Seq<JsonV>,
    threads: Seq<JsonV>,
    step: CatalogStep,
)
    requires
        catalog_step(cached_ident, data, groups, forums, threads, step),
    ensures
        cached_ident.len() == 0 || (!truth(field(data, "unchanged"@)) && !truth(
            field(data, "incremental"@),
        )) ==> (step matches CatalogStep::Done(s, source) && source is Full && s.reads(
            rows_field(data, "groups"@),
            rows_field(data, "forums"@),
            rows_field(data, "threads"@),
            str_field(data, "ident"@),
        )),
        cached_ident.len() > 0 && truth(field(data, "unchanged"@)) && forums.len() > 0
            && threads.len() > 0 ==> (step matches CatalogStep::Done(s, source)
            && source is Unchanged && s.reads(
            groups,
            forums,
            threads,
            ident_after(data, cached_ident),
        )),
        cached_ident.len() > 0 && truth(field(data, "unchanged"@)) && (forums.len() == 0
            || threads.len() == 0) ==> step is Refetch,
        cached_ident.len() > 0 && !truth(field(data, "unchanged"@)) && truth(
            field(data, "incremental"@),
        ) && forums.len() > 0 && threads.len() > 0 ==> step is Refetch || (
        step matches CatalogStep::Done(s, source) && source is Incremental && s.ident@
            == ident_after(data, cached_ident)),
        cached_ident.len() > 0 && !truth(field(data, "unchanged"@)) && truth(
            field(data, "incremental"@),
        ) && (forums.len() == 0 || threads.len() == 0) ==> {
            let (g, f, t) = (
                rows_field(data, "groups"@),
                rows_field(data, "forums"@),
                rows_field(data, "threads"@),
            );
            if (forall|i: int| 0 <= i < g.len() ==> stub_id(#[trigger] g[i]) is None) && (forall|
                i: int,
            |
                0 <= i < f.len() ==> stub_id(#[trigger] f[i]) is None) && (forall|i: int|
                0 <= i < t.len() ==> stub_id(#[trigger] t[i]) is None) {
                step matches CatalogStep::Done(s, source) && source is Full && s.reads(
                    g,
                    f,
                    t,
                    str_field(data, "ident"@),
                )
            } else {
                step is Refetch
            }
        },
{
}

/// In a merged catalog every thread that stands for a stub is the held thread with
/// the stub's id, likewise every group, and every forum by its `forumid`; rows that
/// are no stubs are taken as they are, and everything stays in the order in which
/// it was sent. A delta is merged exactly if the row of every stub is held.
pub proof fn stubs_stand_for_the_rows_with_their_ids(
    cached_ident: Seq<char>,
    data: JsonV,
    groups: Seq<JsonV>,
    forums: Seq<JsonV>,
    threads: Seq<JsonV>,
    step: CatalogStep,
)
    requires
        cached_ident.len() > 0,
        forums.len() > 0,
        threads.len() > 0,
        !truth(field(data, "unchanged"@)),
        truth(field(data, "incremental"@)),
        catalog_step(cached_ident, data, groups, forums, threads, step),
    ensures
        step matches CatalogStep::Done(s, _) ==> {
            let (g, f, t) = (
                rows_field(data, "groups"@),
                rows_field(data, "forums"@),
                rows_field(data, "threads"@),
            );
            &&& s.groups@.len() == g.len() && s.forums@.len() == f.len() && s.threads@.len()
                == t.len()
            &&& forall|i: int|
                0 <= i < g.len() ==> stands_for((#[trigger] s.groups@[i]).raw@, g[i], groups, "id"@)
                    && s.groups@[i].id == int_field(s.groups@[i].raw@, "id"@)
            &&& forall|i: int|
                0 <= i < f.len() ==> stands_for(
                    (#[trigger] s.forums@[i]).raw@,
                    f[i],
                    forums,
                    "forumid"@,
                ) && s.forums@[i].id == int_field(s.forums@[i].raw@, "forumid"@)
            &&& forall|i: int|
                0 <= i < t.len() ==> stands_for(
                    (#[trigger] s.threads@[i]).raw@,
                    t[i],
                    threads,
                    "id"@,
                ) && s.threads@[i].id == int_field(s.threads@[i].raw@, "id"@)
        },
        (step matches CatalogStep::Done(_, CatalogSource::Incremental)) <==> {
            let (g, f, t) = (
                rows_field(data, "groups"@),
                rows_field(data, "forums"@),
                rows_field(data, "threads"@),
            );
            &&& forall|i: int|
                0 <= i < g.len() && stub_id(#[trigger] g[i]) is Some ==> is_held(
                    g[i],
                    groups,
                    "id"@,
                )
            &&& forall|i: int|
                0 <= i < f.len() && stub_id(#[trigger] f[i]) is Some ==> is_held(
                    f[i],
                    forums,
                    "forumid"@,
                )
            &&& forall|i: int|
                0 <= i < t.len() && stub_id(#[trigger] t[i]) is Some ==> is_held(
                    t[i],
                    threads,
                    "id"@,
                )
        },
        step is Refetch <==> !(step matches CatalogStep::Done(_, CatalogSource::Incremental)),
{
    let (g, f, t) = (
        rows_field(data, "groups"@),
        rows_field(data, "forums"@),
        rows_field(data, "threads"@),
    );
    merges_replace_stubs_by_held_rows(g, groups, "id"@);
    merges_replace_stubs_by_held_rows(f, forums, "forumid"@);
    merges_replace_stubs_by_held_rows(t, threads, "id"@);
    if let CatalogStep::Done(s, _) = step {
        let (x, y, z) = merged(data, groups, forums, threads)->Some_0;
        assert forall|i: int| 0 <= i < g.len() implies stands_for(
            (#[trigger] s.groups@[i]).raw@,
            g[i],
            groups,
            "id"@,
        ) && s.groups@[i].id == int_field(s.groups@[i].raw@, "id"@) by {
            assert(s.groups@[i].reads(x[i]));
            assert(stands_for(x[i], g[i], groups, "id"@));
        }
        assert forall|i: int| 0 <= i < f.len() implies stands_for(
            (#[trigger] s.forums@[i]).raw@,
            f[i],
            forums,
            "forumid"@,
        ) && s.forums@[i].id == int_field(s.forums@[i].raw@, "forumid"@) by {
            assert(s.forums@[i].reads(y[i]));
            assert(stands_for(y[i], f[i], forums, "forumid"@));
        }
        assert forall|i: int| 0 <= i < t.len() implies stands_for(
            (#[trigger] s.threads@[i]).raw@,
            t[i],
            threads,
            "id"@,
        ) && s.threads@[i].id == int_field(s.threads@[i].raw@, "id"@) by {
            assert(s.threads@[i].reads(z[i]));
            assert(stands_for(z[i], t[i], threads, "id"@));
        }
    }
}

/// The group, forum or thread that a merge puts in the place of the stub
/// `{"ref": n}` is number `n`, so long as its own id is a number or spells one.
pub proof fn merged_items_have_the_number_of_their_stub(
    cached_ident: Seq<char>,
    data: JsonV,
    groups: Seq<JsonV>,
    forums: Seq<JsonV>,
    threads: Seq<JsonV>,
    s: Structure,
    i: int,
    n: int,
)
    requires
        cached_ident.len() > 0,
        forums.len() > 0,
        threads.len() > 0,
        !truth(field(data, "unchanged"@)),
        truth(field(data, "incremental"@)),
        catalog_step(
            cached_ident,
            data,
            groups,
            forums,
            threads,
            CatalogStep::Done(s, CatalogSource::Incremental),
        ),
        i64::MIN <= n <= i64::MAX,
    ensures
        0 <= i < s.groups@.len() && stub_id(rows_field(data, "groups"@)[i]) == Some(decimal_int(n))
            && (field(s.groups@[i].raw@, "id"@) matches Some(JsonV::Int(_)) || field(
            s.groups@[i].raw@,
            "id"@,
        ) matches Some(JsonV::Str(_))) ==> s.groups@[i].id == n,
        0 <= i < s.forums@.len() && stub_id(rows_field(data, "forums"@)[i]) == Some(decimal_int(n))
            && (field(s.forums@[i].raw@, "forumid"@) matches Some(JsonV::Int(_)) || field(
            s.forums@[i].raw@,
            "forumid"@,
        ) matches Some(JsonV::Str(_))) ==> s.forums@[i].id == n,
        0 <= i < s.threads@.len() && stub_id(rows_field(data, "threads"@)[i]) == Some(
            decimal_int(n),
        ) && (field(s.threads@[i].raw@, "id"@) matches Some(JsonV::Int(_)) || field(
            s.threads@[i].raw@,
            "id"@,
        ) matches Some(JsonV::Str(_))) ==> s.threads@[i].id == n,
{
    stubs_stand_for_the_rows_with_their_ids(
        cached_ident,
        data,
        groups,
        forums,
        threads,
        CatalogStep::Done(s, CatalogSource::Incremental),
    );
    if 0 <= i < s.groups@.len() && stub_id(rows_field(data, "groups"@)[i]) == Some(decimal_int(n))
        && (field(s.groups@[i].raw@, "id"@) matches Some(JsonV::Int(_)) || field(
        s.groups@[i].raw@,
        "id"@,
    ) matches Some(JsonV::Str(_))) {
        expanded_rows_have_the_id_of_their_stub(
            s.groups@[i].raw@,
            rows_field(data, "groups"@)[i],
            groups,
            "id"@,
            n,
        );
    }
    if 0 <= i < s.forums@.len() && stub_id(rows_field(data, "forums"@)[i]) == Some(decimal_int(n))
        && (field(s.forums@[i].raw@, "forumid"@) matches Some(JsonV::Int(_)) || field(
        s.forums@[i].raw@,
        "forumid"@,
    ) matches Some(JsonV::Str(_))) {
        expanded_rows_have_the_id_of_their_stub(
            s.forums@[i].raw@,
            rows_field(data, "forums"@)[i],
            forums,
            "forumid"@,
            n,
        );
    }
    if 0 <= i < s.threads@.len() && stub_id(rows_field(data, "threads"@)[i]) == Some(decimal_int(n))
        && (field(s.threads@[i].raw@, "id"@) matches Some(JsonV::Int(_)) || field(
        s.threads@[i].raw@,
        "id"@,
    ) matches Some(JsonV::Str(_))) {
        expanded_rows_have_the_id_of_their_stub(
            s.threads@[i].raw@,
            rows_field(data, "threads"@)[i],
            threads,
            "id"@,
            n,
        );
    }
}

proof fn lemma_last_mark(marks: Seq<(i64, i64)>, id: i64)
    ensures
        match seen(marks, id) {
            Some(last) => exists|m: int|
                0 <= m < marks.len() && #[trigger] marks[m] == (id, last) && forall|k: int|
                    m < k < marks.len() ==> (#[trigger] marks[k]).0 != id,
            None => forall|m: int| 0 <= m < marks.len() ==> (#[trigger] marks[m]).0 != id,
        },
    decreases marks.len(),
{
    if marks.len() > 0 {
        let fewer = marks.drop_last();
        lemma_last_mark(fewer, id);
        assert(marks[marks.len() - 1] == marks.last());
        if marks.last().0 != id {
            match seen(fewer, id) {
                Some(last) => {
                    let m = choose|m: int|
                        0 <= m < fewer.len() && #[trigger] fewer[m] == (id, last) && forall|k: int|
                            m < k < fewer.len() ==> (#[trigger] fewer[k]).0 != id;
                    assert(marks[m] == (id, last));
                    assert forall|k: int| m < k < marks.len() implies (#[trigger] marks[k]).0
                        != id by {
                        if k < fewer.len() {
                            assert(fewer[k] == marks[k]);
                        }
                    }
                },
                None => {
                    assert forall|m: int| 0 <= m < marks.len() implies (#[trigger] marks[m]).0
                        != id by {
                        if m < fewer.len() {
                            assert(fewer[m] == marks[m]);
                        }
                    }
                },
            }
        } else {
            assert(marks[marks.len() - 1] == (id, marks.last().1));
        }
    }
}

/// Whether a thread is still at the `last_update` of its watermark, or below it.
/// Of several watermarks of a thread the last one counts.
pub open spec fn stands_still(marks: Seq<(i64, i64)>, t: ThreadMeta) -> bool {
    exists|m: int|
        0 <= m < marks.len() && (#[trigger] marks[m]).0 == t.id && marks[m].1 >= t.last_update
            && forall|k: int| m < k < marks.len() ==> (#[trigger] marks[k]).0 != t.id
}

/// A plan holds every thread that it should, once, and nothing else: a thread of
/// the catalog is a target, if the limit allows, exactly if its forum is selected
/// and it does not stand still, or everything is to be fetched. Nothing else about
/// the thread matters. The most recently updated come first, those updated at the
/// same time in the order of the catalog, and the limit cuts the end off. `order`
/// lists the positions of the threads that need fetching.
pub proof fn plans_hold_every_thread_that_needs_fetching(
    threads: Seq<ThreadMeta>,
    forum_ids: Seq<i64>,
    marks: Seq<(i64, i64)>,
    full: bool,
    skip_unchanged: bool,
    limit: Option<usize>,
    plan: ThreadPlan,
) -> (order: Seq<int>)
    requires
        threads.len() <= usize::MAX,
        plans(threads, forum_ids, marks, full, skip_unchanged, limit, plan),
    ensures
        order.no_duplicates(),
        forall|k: int|
            0 <= k < threads.len() ==> (#[trigger] order.contains(k) <==> forum_ids.contains(
                threads[k].forum_id,
            ) && (full || !skip_unchanged || !stands_still(marks, threads[k]))),
        forall|i: int| 0 <= i < order.len() ==> 0 <= #[trigger] order[i] < threads.len(),
        plan.outstanding == order.len(),
        plan.targets@.len() == (match limit {
            Some(n) => if n < order.len() {
                n as nat
            } else {
                order.len()
            },
            None => order.len(),
        }),
        forall|i: int|
            0 <= i < plan.targets@.len() ==> #[trigger] plan.targets@[i] == (
            threads[order[i]].id, threads[order[i]].last_update),
        forall|i: int, j: int|
            0 <= i < j < order.len() ==> threads[#[trigger] order[i]].last_update
                > threads[#[trigger] order[j]].last_update || (threads[order[i]].last_update
                == threads[order[j]].last_update && order[i] < order[j]),
{
    let all = full || !skip_unchanged;
    let ids = forum_ids.to_set();
    let keep = |t: ThreadMeta| is_due(t, ids, marks, all);
    let at = kept_at(threads, keep);
    lemma_filter_picks(threads, keep);
    lemma_kept_at_len(threads, keep);
    let due = due_threads(threads, ids, marks, all);
    assert(due.len() == at.len());
    assert forall|i: int| 0 <= i < at.len() implies #[trigger] due[i] == (
    threads[at[i]].id, threads[at[i]].last_update) by {
        assert(threads.filter(keep)[i] == threads[at[i]]);
    }
    let keys = update_keys(due);
    let sorted = the_order(keys, Direction::Descending);
    order_exists(keys, Direction::Descending);
    order_lists_every_item_once(keys, Direction::Descending, sorted);
    let order = sorted.map_values(|i: usize| at[i as int]);
    assert forall|i: int| 0 <= i < order.len() implies 0 <= #[trigger] order[i] < threads.len()
        && order[i] == at[sorted[i] as int] by {
        assert(sorted[i] < keys.len());
        assert(0 <= at[sorted[i] as int] < threads.len());
    }
    assert forall|i: int, j: int|
        0 <= i < order.len() && 0 <= j < order.len() && i != j implies order[i] != order[j] by {
        assert(sorted[i] != sorted[j]);
        assert(sorted[i] < keys.len() && sorted[j] < keys.len());
        if sorted[i] < sorted[j] {
            assert(at[sorted[i] as int] < at[sorted[j] as int]);
        } else {
            assert(at[sorted[j] as int] < at[sorted[i] as int]);
        }
    }
    assert forall|k: int| 0 <= k < threads.len() implies (#[trigger] order.contains(k)
        <==> forum_ids.contains(threads[k].forum_id) && (full || !skip_unchanged || !stands_still(
        marks,
        threads[k],
    ))) by {
        lemma_last_mark(marks, threads[k].id);
        assert(ids.contains(threads[k].forum_id) <==> forum_ids.contains(threads[k].forum_id));
        assert(keep(threads[k]) <==> forum_ids.contains(threads[k].forum_id) && (full
            || !skip_unchanged || !stands_still(marks, threads[k])));
        if keep(threads[k]) {
            assert(at.contains(k));
            let a = choose|a: int| 0 <= a < at.len() && at[a] == k;
            assert(lists(sorted, a));
            let i = choose|i: int| 0 <= i < sorted.len() && sorted[i] == a;
            assert(order[i] == k);
        }
        if order.contains(k) {
            let i = choose|i: int| 0 <= i < order.len() && order[i] == k;
            assert(sorted[i] < keys.len());
            assert(keep(threads[at[sorted[i] as int]]));
        }
    }
    assert forall|i: int, j: int| 0 <= i < j < order.len() implies threads[#[trigger] order[i]].last_update
        > threads[#[trigger] order[j]].last_update || (threads[order[i]].last_update
        == threads[order[j]].last_update && order[i] < order[j]) by {
        let (a, b) = (sorted[i] as int, sorted[j] as int);
        assert(precedes(keys, Direction::Descending, a, b));
        assert(a < keys.len() && b < keys.len());
        assert(keys[a] == threads[at[a]].last_update && keys[b] == threads[at[b]].last_update);
        if a < b {
            assert(at[a] < at[b]);
        }
    }
    assert forall|i: int| 0 <= i < plan.targets@.len() implies #[trigger] plan.targets@[i] == (
    threads[order[i]].id, threads[order[i]].last_update) by {
        assert(newest_first(due)[i] == due[sorted[i] as int]);
        assert(sorted[i] < keys.len());
    }
    order
}

/// A plan tells the size of the selection: the threads of the catalog whose forum is
/// selected, and the forums that are selected, each counted once however often it is
/// named. `distinct` names the selected forums, each once, and the result lists the
/// positions of the threads.
pub proof fn plans_tell_the_size_of_the_selection(
    threads: Seq<ThreadMeta>,
    forum_ids: Seq<i64>,
    distinct: Seq<i64>,
    marks: Seq<(i64, i64)>,
    full: bool,
    skip_unchanged: bool,
    limit: Option<usize>,
    plan: ThreadPlan,
) -> (at: Seq<int>)
    requires
        plans(threads, forum_ids, marks, full, skip_unchanged, limit, plan),
        distinct.no_duplicates(),
        forall|id: i64| distinct.contains(id) <==> forum_ids.contains(id),
    ensures
        plan.forums == distinct.len(),
        plan.threads == at.len(),
        picks(threads, at, |t: ThreadMeta| forum_ids.contains(t.forum_id)),
{
    let ids = forum_ids.to_set();
    distinct.unique_seq_to_set();
    assert(distinct.to_set() =~= ids) by {
        assert forall|id: i64| distinct.to_set().contains(id) <==> ids.contains(id) by {
            assert(distinct.contains(id) <==> forum_ids.contains(id));
        }
    }
    let wanted = |t: ThreadMeta| forum_ids.contains(t.forum_id);
    lemma_filter_picks(threads, wanted);
    lemma_threads_are_counted(threads, forum_ids);
    kept_at(threads, wanted)
}

proof fn lemma_threads_are_counted(threads: Seq<ThreadMeta>, forum_ids: Seq<i64>)
    ensures
        threads_in(threads, forum_ids.to_set()) == kept_at(
            threads,
            |t: ThreadMeta| forum_ids.contains(t.forum_id),
        ).len(),
    decreases threads.len(),
{
    if threads.len() > 0 {
        lemma_threads_are_counted(threads.drop_last(), forum_ids);
    }
}

proof fn lemma_kept_at_len<A>(items: Seq<A>, wanted: spec_fn(A) -> bool)
    ensures
        kept_at(items, wanted).len() <= items.len(),
    decreases items.len(),
{
    if items.len() > 0 {
        lemma_kept_at_len(items.drop_last(), wanted);
    }
}

/// The line that announces a run tells how many forums and threads the selection
/// covers and how many threads need fetching, in this order; it speaks of a full
/// re-scrape only in a full run, and of a limit only if there is less to fetch than
/// needs fetching.
pub proof fn announcements_tell_the_numbers(plan: ThreadPlan, full: bool)
    ensures
        ({
            let head = "Selection covers "@ + decimal(plan.forums as nat) + " forums and "@
                + decimal(plan.threads as nat) + " threads; "@ + decimal(plan.outstanding as nat)
                + " need fetching"@;
            let line = coverage_line(plan, full);
            &&& has_prefix(line, head)
            &&& line.last() == '.'
            &&& !full && plan.targets@.len() >= plan.outstanding ==> line == head + "."@
            &&& full && plan.targets@.len() >= plan.outstanding ==> line == head
                + " (full re-scrape)."@
            &&& !full && plan.targets@.len() < plan.outstanding ==> line == head + ", capped at "@
                + decimal(plan.targets@.len()) + " by --limit."@
            &&& full && plan.targets@.len() < plan.outstanding ==> line == head
                + " (full re-scrape)"@ + ", capped at "@ + decimal(plan.targets@.len())
                + " by --limit."@
        }),
{
    reveal_strlit(".");
    reveal_strlit("");
    reveal_strlit(" (full re-scrape)");
    reveal_strlit(" (full re-scrape).");
    reveal_strlit(" by --limit");
    reveal_strlit(" by --limit.");
    assert("."@ =~= seq!['.']);
    assert(""@ =~= Seq::<char>::empty());
    assert(" (full re-scrape)."@ =~= " (full re-scrape)"@ + "."@);
    assert(" by --limit."@ =~= " by --limit"@ + "."@);
    let head = "Selection covers "@ + decimal(plan.forums as nat) + " forums and "@ + decimal(
        plan.threads as nat,
    ) + " threads; "@ + decimal(plan.outstanding as nat) + " need fetching"@;
    let line = coverage_line(plan, full);
    assert(line.take(head.len() as int) =~= head);
    if !full && plan.targets@.len() >= plan.outstanding {
        assert(line =~= head + "."@);
    } else if full && plan.targets@.len() >= plan.outstanding {
        assert(line =~= head + " (full re-scrape)."@);
    } else if !full {
        assert(line =~= head + ", capped at "@ + decimal(plan.targets@.len())
            + " by --limit."@);
    } else {
        assert(line =~= head + " (full re-scrape)"@ + ", capped at "@ + decimal(
            plan.targets@.len(),
        ) + " by --limit."@);
    }
}

/// A failure is recorded with what it concerns and in the words in which it is
/// shown.
pub proof fn failures_are_recorded_in_full(
    op: DbOp,
    scope: Seq<char>,
    ref_id: Seq<char>,
    cause: Failure,
)
    requires
        reports(op, scope, ref_id, cause),
    ensures
        op matches DbOp::Error { scope: s, ref_id: id, message } && s@ == scope && id@ == ref_id
            && message@ == failure_text(cause),
{
}

/// What a phase came to is the sum over its items: one done and its amount for each
/// that was done, one failed for each that failed, and nothing for each that was
/// not started.
pub proof fn tallies_add_up(a: Seq<Option<Outcome>>, b: Seq<Option<Outcome>>, n: u64)
    ensures
        done_count(a + b) == done_count(a) + done_count(b),
        failed_count(a + b) == failed_count(a) + failed_count(b),
        amount_of(a + b) == amount_of(a) + amount_of(b),
        done_count(seq![Some(Outcome::Done(n))]) == 1,
        failed_count(seq![Some(Outcome::Done(n))]) == 0,
        amount_of(seq![Some(Outcome::Done(n))]) == n,
        done_count(seq![Some(Outcome::Failed)]) == 0,
        failed_count(seq![Some(Outcome::Failed)]) == 1,
        amount_of(seq![Some(Outcome::Failed)]) == 0,
        done_count(seq![None]) == 0,
        failed_count(seq![None]) == 0,
        amount_of(seq![None]) == 0,
{
    let is_done = |o: Option<Outcome>| o matches Some(Outcome::Done(_));
    let is_failed = |o: Option<Outcome>| o == Some(Outcome::Failed);
    Seq::filter_distributes_over_add(a, b, is_done);
    Seq::filter_distributes_over_add(a, b, is_failed);
    lemma_amounts_add_up(a, b);
    lemma_one_outcome(Some(Outcome::Done(n)));
    lemma_one_outcome(Some(Outcome::Failed));
    lemma_one_outcome(None);
}

proof fn lemma_one_outcome(o: Option<Outcome>)
    ensures
        done_count(seq![o]) == (if o matches Some(Outcome::Done(_)) {
            1nat
        } else {
            0
        }),
        failed_count(seq![o]) == (if o == Some(Outcome::Failed) {
            1nat
        } else {
            0
        }),
        amount_of(seq![o]) == (match o {
            Some(Outcome::Done(n)) => n as int,
            _ => 0,
        }),
{
    reveal(Seq::filter);
    let one = seq![o];
    assert(one.drop_last() =~= Seq::<Option<Outcome>>::empty());
    assert(one.last() == o);
    reveal_with_fuel(amount_of, 2);
    reveal_with_fuel(Seq::filter, 2);
}

proof fn lemma_amounts_add_up(a: Seq<Option<Outcome>>, b: Seq<Option<Outcome>>)
    ensures
        amount_of(a + b) == amount_of(a) + amount_of(b),
    decreases b.len(),
{
    if b.len() == 0 {
        assert(a + b =~= a);
    } else {
        assert((a + b).drop_last() =~= a + b.drop_last());
        lemma_amounts_add_up(a, b.drop_last());
    }
}

/// A recording is stored under its key, or else under its post, with the extension of
/// its content type, in the directory that its name begins with: two recordings with
/// keys of their own share a file only if the stems of the keys agree.
pub proof fn recordings_are_stored_under_their_key(
    a: AudioJob,
    b: AudioJob,
    file: MediaFile,
    other: MediaFile,
)
    requires
        stores_recording(a, file),
        stores_recording(b, other),
    ensures
        a.key@.len() > 0 ==> file.name@ == stem(a.key@) + seq!['.'] + audio_extension(
            a.content_type@,
        ),
        a.key@.len() == 0 ==> file.name@ == stem("post-"@ + decimal_int(a.post_id as int)) + seq![
            '.',
        ] + audio_extension(a.content_type@),
        file.shard@.len() > 0,
        a.key@.len() >= 2 ==> has_prefix(file.name@, file.shard@),
        a.key@.len() > 0 && b.key@.len() > 0 && a.content_type@ == b.content_type@ && file.name@
            == other.name@ ==> stem(a.key@) == stem(b.key@),
{
    reveal_strlit(".");
    assert("."@ =~= seq!['.']);
    shards_are_beginnings(stem(recording_key(a)));
    if a.key@.len() >= 2 {
        let s = stem(a.key@);
        assert(s.len() >= 2);
        assert(file.name@.take(2) =~= s.take(2));
    }
    if a.key@.len() > 0 && b.key@.len() > 0 && a.content_type@ == b.content_type@ && file.name@
        == other.name@ {
        let n = file.name@.len() - 1 - audio_extension(a.content_type@).len();
        assert(file.name@.take(n) =~= stem(a.key@));
        assert(other.name@.take(n) =~= stem(b.key@));
    }
}

/// An attachment is stored under its id, in the directory that the name begins with,
/// whatever its original name; only the extension comes from there.
pub proof fn attachments_are_stored_under_their_id(
    id: Seq<char>,
    extension: Option<Seq<char>>,
    file: MediaFile,
)
    requires
        stores_attachment(id, extension, file),
    ensures
        file.shard@ == shard_of(stem(id)),
        has_prefix(file.name@, stem(id)),
        extension is None ==> file.name@ == stem(id),
{
    attachment_extensions_are_cleaned(id, Seq::empty());
    assert(file.name@.take(stem(id).len() as int) =~= stem(id));
}

/// A plan for an attachment says what the server tells, member by member.
pub proof fn attachments_are_planned_by_member(
    id: Seq<char>,
    info: JsonV,
    plan: AttachmentPlan,
    s: Seq<char>,
    n: int,
    dir: Seq<char>,
    base: Seq<char>,
    e: Seq<char>,
)
    requires
        plans_attachment(id, info, plan),
    ensures
        plan.id@ == id,
        gives_text(info, "name"@, s) ==> plan.name@ == s,
        gives_number(info, "size"@, n) ==> plan.size == n,
        gives_text(info, "uploader"@, s) ==> plan.uploader@ == s,
        gives_number(info, "uploadtime"@, n) ==> plan.uploadtime == n,
        gives_text(info, "url"@, s) && s.len() > 0 ==> plan.url@ == s,
        gives_text(info, "url"@, s) && s.len() == 0 ==> plan.url@ == "/api/v1/attachments/"@ + id
            + "/download"@,
        plan.file.shard@ == shard_of(stem(id)),
        gives_text(info, "name"@, dir + seq!['/'] + base + seq!['.'] + e) && 0 < base.len() && 0
            < e.len() <= 8 && !base.contains('/') && !base.contains('\\') && !base.contains(':') && (
        forall|i: int| 0 <= i < e.len() ==> is_alnum(#[trigger] e[i])) ==> plan.file.name@ == stem(
            id,
        ) + seq!['.'] + e,
        gives_text(info, "name"@, s) && s.len() > 0 && s != seq!['.'] && !s.contains('/')
            && !s.contains('\\') && !s.contains('.') ==> plan.file.name@ == stem(id),
{
    lemma_given(info, "name"@);
    lemma_given(info, "size"@);
    lemma_given(info, "uploader"@);
    lemma_given(info, "uploadtime"@);
    lemma_given(info, "url"@);
    let name = base + seq!['.'] + e;
    let path = dir + seq!['/'] + base + seq!['.'] + e;
    if gives_text(info, "name"@, path) && 0 < base.len() && 0 < e.len() <= 8 && !base.contains('/')
        && !base.contains('\\') && !base.contains(':') && (forall|i: int|
        0 <= i < e.len() ==> is_alnum(#[trigger] e[i])) {
        assert forall|i: int| 0 <= i < name.len() implies #[trigger] name[i] != '/' && name[i]
            != '\\' && name[i] != ':' by {
            if i < base.len() {
                assert(base.contains(base[i]));
            } else if i > base.len() {
                assert(is_alnum(e[i - base.len() - 1]));
            }
        }
        assert(!e.contains('.')) by {
            assert forall|i: int| 0 <= i < e.len() implies #[trigger] e[i] != '.' by {
                assert(is_alnum(e[i]));
            }
        }
        assert(is_alnum(e[e.len() - 1]));
        assert(name.last() == e[e.len() - 1]);
        extensions_follow_the_last_dot(base, e);
        files_follow_the_last_slash(dir, name);
        assert(path =~= dir + seq!['/'] + name);
        attachment_extensions_are_cleaned(id, e);
    }
    if gives_text(info, "name"@, s) && s.len() > 0 && s != seq!['.'] && !s.contains('/')
        && !s.contains('\\') && !s.contains('.') {
        files_follow_the_last_slash(dir, s);
        extensions_follow_the_last_dot(dir, s);
        attachment_extensions_are_cleaned(id, s);
    }
}

/// A thread that was fetched is written with its posts and the `last_update` it was
/// fetched at, and the run goes on. One that was not is recorded as a failure, no
/// watermark of it is written, and the run stops only if it was told to.
pub proof fn only_fetched_threads_are_written(
    thread_id: i64,
    last_update: i64,
    result: Result<Vec<Post>, Failure>,
    stop_on_error: bool,
    r: (DbOp, Outcome, bool),
)
    requires
        settles_thread(thread_id, last_update, result, stop_on_error, r),
    ensures
        r.0 is Posts <==> result is Ok,
        r.0 matches DbOp::Posts { thread_id: t, last_update: u, posts } ==> t == thread_id && u
            == last_update && posts == result->Ok_0 && r.1 == Outcome::Done(posts@.len() as u64)
            && !r.2,
        result matches Err(cause) ==> (r.0 matches DbOp::Error { scope, ref_id, message } && scope@
            == "thread"@ && ref_id@ == decimal_int(thread_id as int) && message@ == failure_text(
            cause,
        )) && r.1 is Failed && r.2 == stop_on_error,
{
}

/// A recording that was downloaded is written with its post, its path, its size and
/// its digest, and one that was not is recorded as a failure; so is an attachment.
pub proof fn only_downloaded_files_are_written(
    post_id: i64,
    path: Seq<char>,
    result: Result<(u64, String), Failure>,
    r: (DbOp, Outcome),
    id: Seq<char>,
    fetched: Result<AttachmentRecord, Failure>,
    s: (DbOp, Outcome),
)
    requires
        settles_recording(post_id, path, result, r),
        settles_attachment(id, fetched, s),
    ensures
        r.0 is Audio <==> result is Ok,
        r.0 matches DbOp::Audio { post_id: i, path: p, bytes, sha } ==> i == post_id && p@ == path
            && bytes == result->Ok_0.0 as i64 && sha@ == result->Ok_0.1@ && r.1 == Outcome::Done(
            result->Ok_0.0,
        ),
        result matches Err(cause) ==> (r.0 matches DbOp::Error { scope, ref_id, message } && scope@
            == "audio"@ && ref_id@ == decimal_int(post_id as int) && message@ == failure_text(
            cause,
        )) && r.1 is Failed,
        s.0 is Attachment <==> fetched is Ok,
        s.0 matches DbOp::Attachment(a) ==> *a == fetched->Ok_0 && s.1 == Outcome::Done(
            a.bytes as u64,
        ),
        fetched matches Err(cause) ==> (s.0 matches DbOp::Error { scope, ref_id, message } && scope@
            == "attachment"@ && ref_id@ == id && message@ == failure_text(cause)) && s.1 is Failed,
{
}

/// A file is adopted exactly if files on disk are to be used, it is there, and it is
/// not empty.
pub proof fn files_on_disk_are_adopted(skip_existing: bool, n: u64)
    ensures
        adoption(skip_existing, None) is None,
        adoption(false, Some(n)) is None,
        adoption(true, Some(n)) == (if n == 0 {
            None
        } else {
            Some(n)
        }),
{
}

/// Recordings are fetched exactly if they are wanted, not left out of this run, and
/// the run was not stopped; attachments likewise, but what is told of them is asked
/// for even if their files are not wanted.
pub proof fn phases_follow_the_settings(wanted: bool, left_out: bool, stopped: bool)
    ensures
        audio_phase_for(wanted, left_out, stopped) is Run <==> wanted && !left_out && !stopped,
        audio_phase_for(wanted, left_out, stopped) is Off <==> !wanted || left_out,
        attachment_phase_for(wanted, stopped) is Skip <==> stopped,
        attachment_phase_for(wanted, stopped) is Download <==> wanted && !stopped,
        attachment_phase_for(wanted, stopped) is Describe <==> !wanted && !stopped,
{
}

/// The letters and digits of a text are kept one by one, in order, and what else
/// there is is left out; an extension is what is kept, eight characters at most.
pub proof fn letters_are_kept_one_by_one(a: Seq<char>, b: Seq<char>, c: char)
    ensures
        letters(a + b) == letters(a) + letters(b),
        is_alnum(c) ==> letters(seq![c]) == seq![c],
        !is_alnum(c) ==> letters(seq![c]).len() == 0,
        clean_extension(None) is None,
        letters(a).len() == 0 ==> clean_extension(Some(a)) is None,
        0 < letters(a).len() <= 8 ==> clean_extension(Some(a)) == Some(letters(a)),
        letters(a).len() > 8 ==> clean_extension(Some(a)) == Some(letters(a).take(8)),
{
    let keep = |c: char| is_alnum(c);
    Seq::filter_distributes_over_add(a, b, keep);
    assert(seq![c].drop_last() =~= Seq::empty());
    assert(seq![c].last() == c);
    reveal_with_fuel(Seq::filter, 2);
    if is_alnum(c) {
        assert(letters(seq![c]) =~= seq![c]);
    }
}

/// A limit in megabytes allows that many times 1024 times 1024 bytes, as far as can be
/// counted.
pub proof fn limits_are_in_megabytes(megabytes: u64)
    ensures
        megabytes * 1024 * 1024 <= u64::MAX ==> cap_of(megabytes) == megabytes * 1024 * 1024,
        megabytes * 1024 * 1024 > u64::MAX ==> cap_of(megabytes) == u64::MAX,
        cap_of(0) == 0,
{
}

/// The posts of a thread are those of the answer, all of them, in order, and of the
/// thread that was asked for.
pub proof fn threads_are_read_post_by_post(
    data: JsonV,
    thread_id: int,
    posts: Seq<Post>,
    rows: Seq<JsonV>,
    i: int,
)
    requires
        reads_posts(data, thread_id, posts),
    ensures
        field(data, "posts"@) == Some(JsonV::Array(rows)) ==> posts.len() == rows.len(),
        field(data, "posts"@) == Some(JsonV::Array(rows)) && 0 <= i < rows.len() ==> posts[i].raw@
            == rows[i] && posts[i].thread_id == thread_id && posts[i].reads(rows[i], thread_id),
        field(data, "posts"@) is None ==> posts.len() == 0,
{
    if field(data, "posts"@) == Some(JsonV::Array(rows)) && 0 <= i < rows.len() {
        assert(posts[i].reads(rows[i], thread_id));
    }
}

/// The record of an attachment has what was planned for it, and where its file is, how
/// large it is and its digest; what is told of it without its file is the same.
pub proof fn attachment_records_keep_the_plan(
    plan: AttachmentPlan,
    path: Seq<char>,
    bytes: u64,
    sha: Seq<char>,
    record: AttachmentRecord,
    info: AttachmentInfo,
    ts: i64,
)
    requires
        records(plan, path, bytes, sha, record),
        describes(plan, info),
    ensures
        record.id@ == plan.id@ && info.id@ == plan.id@,
        record.name@ == plan.name@ && record.size == plan.size && record.uploader@ == plan.uploader@
            && record.uploadtime == plan.uploadtime && record.url@ == plan.url@,
        record.path@ == path && record.bytes == bytes as i64 && record.sha@ == sha,
        attachment_info_row(info) == attachment_row(record, ts).take(5),
{
    assert(attachment_info_row(info) =~= attachment_row(record, ts).take(5));
}

/// A recording from an earlier run is written with its post, its path and its size,
/// without a digest, and counts as done without having brought anything; so does an
/// attachment that was only asked about.
pub proof fn adopted_files_bring_nothing(
    post_id: i64,
    path: Seq<char>,
    bytes: u64,
    r: (DbOp, Outcome),
    id: Seq<char>,
    asked: Result<AttachmentInfo, Failure>,
    s: (DbOp, Outcome),
)
    requires
        settles_adoption(post_id, path, bytes, r),
        settles_description(id, asked, s),
    ensures
        r.0 matches DbOp::Audio { post_id: i, path: p, bytes: b, sha } && i == post_id && p@ == path
            && b == bytes as i64 && sha@.len() == 0,
        r.1 == Outcome::Done(0),
        asked matches Ok(info) ==> s.0 == DbOp::AttachmentInfo(Box::new(info)) && s.1
            == Outcome::Done(0),
        asked matches Err(cause) ==> (s.0 matches DbOp::Error { scope, ref_id, message } && scope@
            == "attachment"@ && ref_id@ == id && message@ == failure_text(cause)) && s.1 is Failed,
{
}

/// The notes of a run tell whether it was completed, how the catalog was come by and
/// how many attachments were stored.
pub proof fn notes_tell_how_a_run_went(source: CatalogSource, attachments: u64)
    ensures
        notes_text(false, source, attachments) == "completed; catalog="@ + source_text(source)
            + "; attachments="@ + decimal(attachments as nat),
        notes_text(true, source, attachments) == "interrupted; catalog="@ + source_text(source)
            + "; attachments="@ + decimal(attachments as nat),
{
    reveal_strlit("completed");
    reveal_strlit("interrupted");
    reveal_strlit("; catalog=");
    reveal_strlit("completed; catalog=");
    reveal_strlit("interrupted; catalog=");
    assert("completed; catalog="@ =~= "completed"@ + "; catalog="@);
    assert("interrupted; catalog="@ =~= "interrupted"@ + "; catalog="@);
}

/// A thread that was scraped is noted with when that was and the `last_update` it had.
pub proof fn scraped_threads_are_noted(ts: i64, last_update: i64)
    ensures
        scraped(ts, last_update).scraped_at == Some(ts),
        scraped(ts, last_update).scraped_last_update == Some(last_update),
{
}

} // verus!
