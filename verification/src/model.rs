//! Domain types plus lenient accessors for the API's JSON.
//!
//! The API is loose about scalar types (booleans arrive as `true`, `1` or
//! `"1"`; numbers sometimes as strings), so fields are read defensively and the
//! untouched row is kept alongside for archival.

use vstd::hash_map::StringHashMap;
use vstd::prelude::*;

use crate::json::{field, json_views, text_of, whole_part, written, Json, JsonV};
use crate::text::{
    comparison_ignores_case, decimal_int, decimals_differ, is_digit, lemma_trimmed_whole,
    only_numbers_read, parse_i64, read_signed, same, same_ascii, same_ignoring_case, trim, trimmed,
    written_numbers_read_back,
};

verus! {

// ---------------------------------------------------------------------------
// Lenient accessors
// ---------------------------------------------------------------------------

/// A member as text: empty if it is missing or null.
pub open spec fn str_field(v: JsonV, key: Seq<char>) -> Seq<char> {
    match field(v, key) {
        Some(JsonV::Str(s)) => s,
        Some(JsonV::Null) => Seq::empty(),
        Some(other) => text_of(other),
        None => Seq::empty(),
    }
}

pub fn str_of(v: &Json, key: &str) -> (r: String)
    ensures
        r@ == str_field(v@, key@),
{
    match v.get(key) {
        Some(Json::Str(s)) => s.clone(),
        Some(Json::Null) => String::new(),
        None => String::new(),
        Some(other) => other.encode(),
    }
}

/// A member as a number: 0 if it does not read as one.
pub open spec fn int_field(v: JsonV, key: Seq<char>) -> int {
    match field(v, key) {
        Some(JsonV::Int(n)) => if n > i64::MAX {
            i64::MAX as int
        } else {
            n
        },
        Some(JsonV::Float(n)) => whole_part(n),
        Some(JsonV::Str(s)) => match read_signed(trimmed(s)) {
            Some(n) => n,
            None => 0,
        },
        Some(JsonV::Bool(b)) => if b {
            1
        } else {
            0
        },
        _ => 0,
    }
}

pub fn int_of(v: &Json, key: &str) -> (r: i64)
    ensures
        r == int_field(v@, key@),
{
    match v.get(key) {
        Some(Json::Int(n)) => *n,
        Some(Json::UInt(n)) => if *n > i64::MAX as u64 {
            i64::MAX
        } else {
            *n as i64
        },
        Some(Json::Float(n)) => n.whole(),
        Some(Json::Str(s)) => {
            let s = trim(s.as_str());
            match parse_i64(s.as_str()) {
                Some(n) => n,
                None => 0,
            }
        },
        Some(Json::Bool(b)) => if *b {
            1
        } else {
            0
        },
        _ => 0,
    }
}

/// Whether a text spells "yes".
pub open spec fn spells_true(s: Seq<char>) -> bool {
    s == "1"@ || same_ascii(s, "true"@)
}

/// Whether a number counts as "yes": a non-zero `i64`.
pub open spec fn counts_true(n: int) -> bool {
    n != 0 && n <= i64::MAX
}

/// A member as a flag: false if it does not read as one.
pub open spec fn bool_field(v: JsonV, key: Seq<char>) -> bool {
    match field(v, key) {
        Some(JsonV::Bool(b)) => b,
        Some(JsonV::Int(n)) => counts_true(n),
        Some(JsonV::Str(s)) => spells_true(trimmed(s)),
        _ => false,
    }
}

pub fn bool_of(v: &Json, key: &str) -> (r: bool)
    ensures
        r == bool_field(v@, key@),
{
    match v.get(key) {
        Some(Json::Bool(b)) => *b,
        Some(Json::Int(n)) => *n != 0,
        Some(Json::UInt(n)) => *n != 0 && *n <= i64::MAX as u64,
        Some(Json::Str(s)) => {
            let s = trim(s.as_str());
            same(s.as_str(), "1") || same_ignoring_case(s.as_str(), "true")
        },
        _ => false,
    }
}

/// What the server means by a flag, such as `success`.
pub open spec fn truth(v: Option<JsonV>) -> bool {
    match v {
        Some(JsonV::Bool(b)) => b,
        Some(JsonV::Int(n)) => counts_true(n),
        Some(JsonV::Str(s)) => spells_true(s),
        _ => false,
    }
}

pub open spec fn opt_view(v: Option<&Json>) -> Option<JsonV> {
    match v {
        Some(v) => Some(v@),
        None => None,
    }
}

/// `success` may be `true`, `1` or `"1"`.
pub fn truthy(v: Option<&Json>) -> (r: bool)
    ensures
        r == truth(opt_view(v)),
{
    match v {
        Some(Json::Bool(b)) => *b,
        Some(Json::Int(n)) => *n != 0,
        Some(Json::UInt(n)) => *n != 0 && *n <= i64::MAX as u64,
        Some(Json::Str(s)) => same(s.as_str(), "1") || same_ignoring_case(s.as_str(), "true"),
        _ => false,
    }
}

/// The rows of a list member: none if it is not a list.
pub open spec fn rows_field(v: JsonV, key: Seq<char>) -> Seq<JsonV> {
    match field(v, key) {
        Some(JsonV::Array(a)) => a,
        _ => Seq::empty(),
    }
}

/// Copies of all rows.
pub fn copy_rows(rows: &Vec<Json>) -> (r: Vec<Json>)
    ensures
        json_views(r@) == json_views(rows@),
{
    let mut out: Vec<Json> = Vec::new();
    let mut i: usize = 0;
    while i < rows.len()
        invariant
            i <= rows@.len(),
            json_views(out@) == json_views(rows@).take(i as int),
        decreases rows@.len() - i,
    {
        let ghost before = out@;
        let row = rows[i].copy();
        out.push(row);
        assert(json_views(out@) =~= json_views(before).push(row@));
        assert(json_views(out@) =~= json_views(rows@).take(i + 1));
        i += 1;
    }
    assert(json_views(rows@).take(i as int) =~= json_views(rows@));
    out
}

pub fn rows_of(v: &Json, key: &str) -> (r: Vec<Json>)
    ensures
        json_views(r@) == rows_field(v@, key@),
{
    broadcast use Json::lemma_array_view;

    match v.get(key) {
        Some(Json::Array(a)) => {
            assert(Json::Array(*a)@ == JsonV::Array(json_views(a@)));
            copy_rows(a)
        },
        _ => {
            let out: Vec<Json> = Vec::new();
            assert(json_views(out@) =~= Seq::empty());
            out
        },
    }
}

// ---------------------------------------------------------------------------
// Catalog rows
// ---------------------------------------------------------------------------

#[derive(Debug, Clone)]
pub struct Group {
    pub id: i64,
    pub name: String,
    pub founder: String,
    pub description: String,
    pub lang: String,
    pub public: bool,
    pub open: bool,
    pub hidden: bool,
    pub recommended: bool,
    pub parent: i64,
    pub created: i64,
    pub forums: i64,
    pub threads: i64,
    pub posts: i64,
    pub members: i64,
    pub audio_limit: i64,
    pub raw: Json,
}

impl Group {
    /// The group that a catalog row describes.
    pub open spec fn reads(&self, v: JsonV) -> bool {
        &&& self.id == int_field(v, "id"@)
        &&& self.name@ == str_field(v, "name"@)
        &&& self.founder@ == str_field(v, "founder"@)
        &&& self.description@ == str_field(v, "description"@)
        &&& self.lang@ == str_field(v, "lang"@)
        &&& self.public == bool_field(v, "public"@)
        &&& self.open == bool_field(v, "open"@)
        &&& self.hidden == bool_field(v, "hidden"@)
        &&& self.recommended == bool_field(v, "recommended"@)
        &&& self.parent == int_field(v, "parent"@)
        &&& self.created == int_field(v, "created"@)
        &&& self.forums == int_field(v, "forums"@)
        &&& self.threads == int_field(v, "threads"@)
        &&& self.posts == int_field(v, "posts"@)
        &&& self.members == int_field(v, "acmembers"@)
        &&& self.audio_limit == int_field(v, "audiolimit"@)
        &&& self.raw@ == v
    }

    pub fn from_row(v: &Json) -> (r: Self)
        ensures
            r.reads(v@),
    {
        Self {
            id: int_of(v, "id"),
            name: str_of(v, "name"),
            founder: str_of(v, "founder"),
            description: str_of(v, "description"),
            lang: str_of(v, "lang"),
            public: bool_of(v, "public"),
            open: bool_of(v, "open"),
            hidden: bool_of(v, "hidden"),
            recommended: bool_of(v, "recommended"),
            parent: int_of(v, "parent"),
            created: int_of(v, "created"),
            forums: int_of(v, "forums"),
            threads: int_of(v, "threads"),
            posts: int_of(v, "posts"),
            members: int_of(v, "acmembers"),
            audio_limit: int_of(v, "audiolimit"),
            raw: v.copy(),
        }
    }
}

#[derive(Debug, Clone)]
pub struct Forum {
    /// Numeric id used by the API (`forumid`).
    pub id: i64,
    /// Opaque string identifier, e.g. "PL_ELTEN".
    pub ident: String,
    pub name: String,
    pub kind: i64,
    pub group_id: i64,
    pub description: String,
    pub closed: bool,
    pub threads: i64,
    pub posts: i64,
    pub position: i64,
    pub raw: Json,
}

impl Forum {
    /// The forum that a catalog row describes.
    pub open spec fn reads(&self, v: JsonV) -> bool {
        &&& self.id == int_field(v, "forumid"@)
        &&& self.ident@ == str_field(v, "id"@)
        &&& self.name@ == str_field(v, "name"@)
        &&& self.kind == int_field(v, "type"@)
        &&& self.group_id == int_field(v, "group_id"@)
        &&& self.description@ == str_field(v, "description"@)
        &&& self.closed == bool_field(v, "closed"@)
        &&& self.threads == int_field(v, "threads"@)
        &&& self.posts == int_field(v, "posts"@)
        &&& self.position == int_field(v, "position"@)
        &&& self.raw@ == v
    }

    pub fn from_row(v: &Json) -> (r: Self)
        ensures
            r.reads(v@),
    {
        Self {
            id: int_of(v, "forumid"),
            ident: str_of(v, "id"),
            name: str_of(v, "name"),
            kind: int_of(v, "type"),
            group_id: int_of(v, "group_id"),
            description: str_of(v, "description"),
            closed: bool_of(v, "closed"),
            threads: int_of(v, "threads"),
            posts: int_of(v, "posts"),
            position: int_of(v, "position"),
            raw: v.copy(),
        }
    }
}

#[derive(Debug, Clone)]
pub struct ThreadMeta {
    pub id: i64,
    pub name: String,
    pub author: String,
    pub forum_id: i64,
    pub pinned: bool,
    pub closed: bool,
    pub last_update: i64,
    pub posts: i64,
    pub raw: Json,
}

impl ThreadMeta {
    /// The thread that a catalog row describes.
    pub open spec fn reads(&self, v: JsonV) -> bool {
        &&& self.id == int_field(v, "id"@)
        &&& self.name@ == str_field(v, "name"@)
        &&& self.author@ == str_field(v, "author"@)
        &&& self.forum_id == int_field(v, "forumid"@)
        &&& self.pinned == bool_field(v, "pinned"@)
        &&& self.closed == bool_field(v, "closed"@)
        &&& self.last_update == int_field(v, "last_update"@)
        &&& self.posts == int_field(v, "posts"@)
        &&& self.raw@ == v
    }

    pub fn from_row(v: &Json) -> (r: Self)
        ensures
            r.reads(v@),
    {
        Self {
            id: int_of(v, "id"),
            name: str_of(v, "name"),
            author: str_of(v, "author"),
            forum_id: int_of(v, "forumid"),
            pinned: bool_of(v, "pinned"),
            closed: bool_of(v, "closed"),
            last_update: int_of(v, "last_update"),
            posts: int_of(v, "posts"),
            raw: v.copy(),
        }
    }
}

// ---------------------------------------------------------------------------
// Posts
// ---------------------------------------------------------------------------

#[derive(Debug, Clone)]
pub struct AudioRef {
    pub key: String,
    pub url: String,
    pub content_type: String,
}

/// The recording that an `audio` member describes; none without a URL.
pub open spec fn audio_field(v: JsonV) -> Option<(Seq<char>, Seq<char>, Seq<char>)> {
    match field(v, "audio"@) {
        Some(a) => if str_field(a, "url"@).len() == 0 {
            None
        } else {
            Some((str_field(a, "id"@), str_field(a, "url"@), str_field(a, "content_type"@)))
        },
        None => None,
    }
}

impl AudioRef {
    pub open spec fn view(&self) -> (Seq<char>, Seq<char>, Seq<char>) {
        (self.key@, self.url@, self.content_type@)
    }
}

pub open spec fn audio_view(a: Option<AudioRef>) -> Option<(Seq<char>, Seq<char>, Seq<char>)> {
    match a {
        Some(a) => Some(a@),
        None => None,
    }
}

pub fn audio_of(v: &Json) -> (r: Option<AudioRef>)
    ensures
        audio_view(r) == audio_field(v@),
{
    match v.get("audio") {
        Some(a) => {
            let url = str_of(a, "url");
            if url.as_str().is_empty() {
                None
            } else {
                Some(
                    AudioRef { key: str_of(a, "id"), url, content_type: str_of(a, "content_type") },
                )
            }
        },
        None => None,
    }
}

#[derive(Debug, Clone)]
pub struct Post {
    pub id: i64,
    pub thread_id: i64,
    pub author: String,
    pub text: String,
    pub signature: String,
    pub date: i64,
    pub format: i64,
    pub likes: i64,
    pub edited: bool,
    pub locked: bool,
    pub transcription: String,
    pub polls: String,
    pub attachments: String,
    pub audio: Option<AudioRef>,
    pub raw: Json,
}

impl Post {
    /// The post that a row of a thread describes.
    pub open spec fn reads(&self, v: JsonV, thread_id: int) -> bool {
        &&& self.id == int_field(v, "id"@)
        &&& self.thread_id == thread_id
        &&& self.author@ == str_field(v, "author"@)
        &&& self.text@ == str_field(v, "text"@)
        &&& self.signature@ == str_field(v, "signature"@)
        &&& self.date == int_field(v, "date"@)
        &&& self.format == int_field(v, "format"@)
        &&& self.likes == int_field(v, "likes"@)
        &&& self.edited == bool_field(v, "edited"@)
        &&& self.locked == bool_field(v, "locked"@)
        &&& self.transcription@ == str_field(v, "transcription"@)
        &&& self.polls@ == str_field(v, "polls"@)
        &&& self.attachments@ == str_field(v, "attachments"@)
        &&& audio_view(self.audio) == audio_field(v)
        &&& self.raw@ == v
    }

    pub fn from_row(v: &Json, thread_id: i64) -> (r: Self)
        ensures
            r.reads(v@, thread_id as int),
    {
        Self {
            id: int_of(v, "id"),
            thread_id,
            author: str_of(v, "author"),
            text: str_of(v, "text"),
            signature: str_of(v, "signature"),
            date: int_of(v, "date"),
            format: int_of(v, "format"),
            likes: int_of(v, "likes"),
            edited: bool_of(v, "edited"),
            locked: bool_of(v, "locked"),
            transcription: str_of(v, "transcription"),
            polls: str_of(v, "polls"),
            attachments: str_of(v, "attachments"),
            audio: audio_of(v),
            raw: v.copy(),
        }
    }
}

// ---------------------------------------------------------------------------
// Incremental catalogs
// ---------------------------------------------------------------------------

/// Ids arrive as either numbers or strings; both read as the same key.
pub open spec fn key_text(v: JsonV) -> Seq<char> {
    match v {
        JsonV::Str(s) => s,
        _ => text_of(v),
    }
}

fn scalar_key(v: &Json) -> (r: String)
    ensures
        r@ == key_text(v@),
{
    match v {
        Json::Str(s) => s.clone(),
        other => other.encode(),
    }
}

/// The id that a stub refers to. In an incremental catalog response, a row
/// consisting of nothing but `ref` means "unchanged since the copy you already
/// hold".
pub open spec fn stub_id(v: JsonV) -> Option<Seq<char>> {
    match v {
        JsonV::Object(m) => if m.dom() == set!["ref"@] {
            Some(key_text(m["ref"@]))
        } else {
            None
        },
        _ => None,
    }
}

fn reference_id(v: &Json) -> (r: Option<String>)
    ensures
        match r {
            Some(id) => stub_id(v@) == Some(id@),
            None => stub_id(v@) is None,
        },
{
    match v {
        Json::Object(o) => if o.is_only("ref") {
            match o.get("ref") {
                Some(id) => Some(scalar_key(id)),
                None => {
                    assert(o@.dom().contains("ref"@));
                    None
                },
            }
        } else {
            None
        },
        _ => None,
    }
}

/// Whether no row is a stub.
pub open spec fn all_complete(rows: Seq<JsonV>) -> bool {
    forall|i: int| 0 <= i < rows.len() ==> stub_id(#[trigger] rows[i]) is None
}

/// Whether rows are complete as they are.
pub fn are_complete(rows: &Vec<Json>) -> (r: bool)
    ensures
        r == all_complete(json_views(rows@)),
{
    let mut i: usize = 0;
    while i < rows.len()
        invariant
            i <= rows@.len(),
            forall|j: int| 0 <= j < i ==> stub_id(#[trigger] json_views(rows@)[j]) is None,
        decreases rows@.len() - i,
    {
        assert(json_views(rows@)[i as int] == rows@[i as int]@);
        if reference_id(&rows[i]).is_some() {
            return false;
        }
        i += 1;
    }
    true
}

/// The id of a complete row.
pub open spec fn row_id(v: JsonV, id_key: Seq<char>) -> Option<Seq<char>> {
    match field(v, id_key) {
        Some(id) => Some(key_text(id)),
        None => None,
    }
}

/// The row with the given id; the last one if several have it.
pub open spec fn cached_row(cached: Seq<JsonV>, id_key: Seq<char>, id: Seq<char>) -> Option<JsonV>
    decreases cached.len(),
{
    if cached.len() == 0 {
        None
    } else if row_id(cached.last(), id_key) == Some(id) {
        Some(cached.last())
    } else {
        cached_row(cached.drop_last(), id_key, id)
    }
}

/// The row that a received row stands for: a stub for the cached row, any other
/// row for itself.
pub open spec fn full_row(row: JsonV, cached: Seq<JsonV>, id_key: Seq<char>) -> Option<JsonV> {
    match stub_id(row) {
        Some(id) => cached_row(cached, id_key, id),
        None => Some(row),
    }
}

/// Every received row replaced by the row it stands for; nothing if one of them
/// stands for a row that is not held.
pub open spec fn expanded(
    rows: Seq<JsonV>,
    cached: Seq<JsonV>,
    id_key: Seq<char>,
) -> Option<Seq<JsonV>> {
    if forall|i: int| 0 <= i < rows.len() ==> full_row(#[trigger] rows[i], cached, id_key) is Some {
        Some(rows.map_values(|row: JsonV| full_row(row, cached, id_key)->0))
    } else {
        None
    }
}

/// Whether the index finds the cached row with the given id.
spec fn indexed(
    m: Map<Seq<char>, usize>,
    cached: Seq<JsonV>,
    id_key: Seq<char>,
    id: Seq<char>,
) -> bool {
    match cached_row(cached, id_key, id) {
        Some(row) => m.contains_key(id) && m[id] < cached.len() && cached[m[id] as int] == row,
        None => !m.contains_key(id),
    }
}

/// Whether the index finds every cached row.
spec fn indexes(m: Map<Seq<char>, usize>, cached: Seq<JsonV>, id_key: Seq<char>) -> bool {
    forall|id: Seq<char>| #[trigger] indexed(m, cached, id_key, id)
}

proof fn lemma_index_step(
    before: Map<Seq<char>, usize>,
    after: Map<Seq<char>, usize>,
    cached: Seq<JsonV>,
    row: JsonV,
    id_key: Seq<char>,
    at: usize,
)
    requires
        indexes(before, cached, id_key),
        at == cached.len(),
        after == match row_id(row, id_key) {
            Some(id) => before.insert(id, at),
            None => before,
        },
    ensures
        indexes(after, cached.push(row), id_key),
{
    let now = cached.push(row);
    assert(now.drop_last() =~= cached);
    assert forall|id: Seq<char>| #[trigger] indexed(after, now, id_key, id) by {
        assert(indexed(before, cached, id_key, id));
    }
}

/// Rebuild a full row list from an incremental response by substituting cached
/// rows for `ref` stubs.
///
/// Returns `None` if any referenced row is missing locally - the caller must
/// then fall back to a full fetch, because a partial merge would silently drop
/// forums or threads.
pub fn expand_incremental(rows: &[Json], cached: &[Json], id_key: &str) -> (r: Option<Vec<Json>>)
    ensures
        match r {
            Some(out) => expanded(json_views(rows@), json_views(cached@), id_key@) == Some(
                json_views(out@),
            ),
            None => expanded(json_views(rows@), json_views(cached@), id_key@) is None,
        },
{
    let ghost have = json_views(cached@);
    let mut by_id: StringHashMap<usize> = StringHashMap::new();
    let mut i: usize = 0;
    while i < cached.len()
        invariant
            i <= cached@.len(),
            have == json_views(cached@),
            indexes(by_id@, have.take(i as int), id_key@),
        decreases cached@.len() - i,
    {
        let ghost before = by_id@;
        let ghost now = have.take(i + 1);
        assert(now.last() == cached@[i as int]@);
        if let Some(id) = cached[i].get(id_key) {
            by_id.insert(scalar_key(id), i);
        }
        proof {
            lemma_index_step(before, by_id@, have.take(i as int), now.last(), id_key@, i);
            assert(have.take(i as int).push(now.last()) =~= now);
        }
        i += 1;
    }
    assert(have.take(i as int) == have);
    let ghost given = json_views(rows@);
    let mut out: Vec<Json> = Vec::new();
    let mut k: usize = 0;
    while k < rows.len()
        invariant
            k <= rows@.len(),
            have == json_views(cached@),
            given == json_views(rows@),
            indexes(by_id@, have, id_key@),
            out@.len() == k,
            forall|j: int|
                0 <= j < k ==> full_row(#[trigger] given[j], have, id_key@) == Some(out@[j]@),
        decreases rows@.len() - k,
    {
        assert(given[k as int] == rows@[k as int]@);
        match reference_id(&rows[k]) {
            Some(id) => {
                assert(indexed(by_id@, have, id_key@, id@));
                match by_id.get(id.as_str()) {
                    Some(at) => {
                        out.push(cached[*at].copy());
                    },
                    None => {
                        assert(full_row(given[k as int], have, id_key@) is None);
                        return None;
                    },
                }
            },
            None => out.push(rows[k].copy()),
        }
        k += 1;
    }
    assert(json_views(out@) =~= given.map_values(|row: JsonV| full_row(row, have, id_key@)->0));
    Some(out)
}

/// A merged catalog has no holes: no stub is left in it, so long as rows are not
/// identified by their `ref` member.
pub proof fn merge_leaves_no_stub(rows: Seq<JsonV>, cached: Seq<JsonV>, id_key: Seq<char>)
    requires
        id_key != "ref"@,
        expanded(rows, cached, id_key) is Some,
    ensures
        expanded(rows, cached, id_key)->0.len() == rows.len(),
        forall|i: int|
            0 <= i < rows.len() ==> stub_id(#[trigger] expanded(rows, cached, id_key)->0[i])
                is None,
{
    let out = expanded(rows, cached, id_key)->0;
    assert forall|i: int| 0 <= i < rows.len() implies stub_id(#[trigger] out[i]) is None by {
        assert(full_row(rows[i], cached, id_key) is Some);
        if let Some(id) = stub_id(rows[i]) {
            lemma_cached_row(cached, id_key, id);
            assert(field(out[i], id_key) is Some);
            if stub_id(out[i]) is Some {
                assert(out[i]->Object_0.dom().contains(id_key));
            }
        }
    }
}

proof fn lemma_cached_row(cached: Seq<JsonV>, id_key: Seq<char>, id: Seq<char>)
    ensures
        cached_row(cached, id_key, id) matches Some(row) ==> row_id(row, id_key) == Some(id)
            && cached.contains(row),
        cached_row(cached, id_key, id) is None ==> forall|i: int|
            0 <= i < cached.len() ==> row_id(#[trigger] cached[i], id_key) != Some(id),
    decreases cached.len(),
{
    if cached.len() > 0 {
        lemma_cached_row(cached.drop_last(), id_key, id);
        assert(cached.drop_last() =~= cached.take(cached.len() - 1));
        if row_id(cached.last(), id_key) == Some(id) {
            assert(cached[cached.len() - 1] == cached.last());
        } else if let Some(row) = cached_row(cached, id_key, id) {
            let j = choose|j: int| 0 <= j < cached.drop_last().len() && cached.drop_last()[j] == row;
            assert(cached[j] == row);
        } else {
            assert forall|i: int| 0 <= i < cached.len() implies row_id(
                #[trigger] cached[i],
                id_key,
            ) != Some(id) by {
                if i < cached.len() - 1 {
                    assert(cached.drop_last()[i] == cached[i]);
                }
            }
        }
    }
}

/// The merge fails exactly when some stub refers to a row that is not held.
pub proof fn merge_fails_only_on_missing_rows(
    rows: Seq<JsonV>,
    cached: Seq<JsonV>,
    id_key: Seq<char>,
)
    ensures
        expanded(rows, cached, id_key) is None <==> exists|i: int|
            0 <= i < rows.len() && stub_id(#[trigger] rows[i]) is Some && forall|j: int|
                0 <= j < cached.len() ==> row_id(#[trigger] cached[j], id_key) != stub_id(rows[i]),
{
    assert forall|i: int| 0 <= i < rows.len() && stub_id(#[trigger] rows[i]) is Some implies (
    full_row(rows[i], cached, id_key) is None <==> forall|j: int|
        0 <= j < cached.len() ==> row_id(#[trigger] cached[j], id_key) != stub_id(rows[i])) by {
        let id = stub_id(rows[i])->0;
        lemma_cached_row(cached, id_key, id);
        if let Some(row) = cached_row(cached, id_key, id) {
            let j = choose|j: int| 0 <= j < cached.len() && cached[j] == row;
            assert(row_id(cached[j], id_key) == Some(id));
        }
    }
    if expanded(rows, cached, id_key) is None {
        let i = choose|i: int|
            0 <= i < rows.len() && full_row(#[trigger] rows[i], cached, id_key) is None;
        assert(stub_id(rows[i]) is Some);
    }
}

/// A response without stubs is taken as it is, whatever is cached.
pub proof fn complete_rows_merge_to_themselves(
    rows: Seq<JsonV>,
    cached: Seq<JsonV>,
    id_key: Seq<char>,
)
    requires
        all_complete(rows),
    ensures
        expanded(rows, cached, id_key) == Some(rows),
{
    assert(expanded(rows, cached, id_key)->0 =~= rows);
}

/// A response that refers to every cached row in turn rebuilds the cache.
pub proof fn stubs_for_everything_rebuild_the_cache(
    rows: Seq<JsonV>,
    cached: Seq<JsonV>,
    id_key: Seq<char>,
)
    requires
        rows.len() == cached.len(),
        forall|i: int|
            0 <= i < cached.len() ==> stub_id(#[trigger] rows[i]) is Some && stub_id(rows[i])
                == row_id(cached[i], id_key),
        forall|i: int, j: int|
            0 <= i < j < cached.len() ==> row_id(#[trigger] cached[i], id_key) != row_id(
                #[trigger] cached[j],
                id_key,
            ),
    ensures
        expanded(rows, cached, id_key) == Some(cached),
{
    assert forall|i: int| 0 <= i < rows.len() implies full_row(#[trigger] rows[i], cached, id_key)
        == Some(cached[i]) by {
        let id = stub_id(rows[i])->0;
        lemma_cached_row(cached, id_key, id);
        assert(row_id(cached[i], id_key) == Some(id));
        let row = cached_row(cached, id_key, id)->0;
        let j = choose|j: int| 0 <= j < cached.len() && cached[j] == row;
        assert(row_id(cached[j], id_key) == Some(id));
    }
    assert(expanded(rows, cached, id_key)->0 =~= cached);
}

/// A number and its decimal text identify the same row.
pub proof fn numeric_and_text_ids_match(n: int, text: Seq<char>)
    requires
        text == crate::text::decimal_int(n),
    ensures
        key_text(JsonV::Int(n)) == key_text(JsonV::Str(text)),
{
}

// ---------------------------------------------------------------------------
// The catalog
// ---------------------------------------------------------------------------

/// The whole public catalog, returned by a single `GET /api/v1/forum`.
#[derive(Debug, Clone)]
pub struct Structure {
    pub groups: Vec<Group>,
    pub forums: Vec<Forum>,
    pub threads: Vec<ThreadMeta>,
    /// Server-side fingerprint of the catalog, usable for cheap re-sync.
    pub ident: String,
}

impl Structure {
    /// The catalog that the given rows describe.
    pub open spec fn reads(
        &self,
        groups: Seq<JsonV>,
        forums: Seq<JsonV>,
        threads: Seq<JsonV>,
        ident: Seq<char>,
    ) -> bool {
        &&& self.groups@.len() == groups.len()
        &&& forall|i: int| 0 <= i < groups.len() ==> (#[trigger] self.groups@[i]).reads(groups[i])
        &&& self.forums@.len() == forums.len()
        &&& forall|i: int| 0 <= i < forums.len() ==> (#[trigger] self.forums@[i]).reads(forums[i])
        &&& self.threads@.len() == threads.len()
        &&& forall|i: int|
            0 <= i < threads.len() ==> (#[trigger] self.threads@[i]).reads(threads[i])
        &&& self.ident@ == ident
    }

    /// The catalog that a complete response describes.
    pub open spec fn reads_data(&self, data: JsonV) -> bool {
        self.reads(
            rows_field(data, "groups"@),
            rows_field(data, "forums"@),
            rows_field(data, "threads"@),
            str_field(data, "ident"@),
        )
    }

    pub fn from_data(data: &Json) -> (r: Self)
        ensures
            r.reads_data(data@),
    {
        let groups = rows_of(data, "groups");
        let forums = rows_of(data, "forums");
        let threads = rows_of(data, "threads");
        let ident = str_of(data, "ident");
        Self::from_rows(&groups, &forums, &threads, ident)
    }

    pub fn from_rows(groups: &[Json], forums: &[Json], threads: &[Json], ident: String) -> (r: Self)
        ensures
            r.reads(json_views(groups@), json_views(forums@), json_views(threads@), ident@),
    {
        let mut gs: Vec<Group> = Vec::new();
        let mut i: usize = 0;
        while i < groups.len()
            invariant
                i <= groups@.len(),
                gs@.len() == i,
                forall|j: int| 0 <= j < i ==> (#[trigger] gs@[j]).reads(groups@[j]@),
            decreases groups@.len() - i,
        {
            gs.push(Group::from_row(&groups[i]));
            i += 1;
        }
        let mut fs: Vec<Forum> = Vec::new();
        let mut i: usize = 0;
        while i < forums.len()
            invariant
                i <= forums@.len(),
                fs@.len() == i,
                forall|j: int| 0 <= j < i ==> (#[trigger] fs@[j]).reads(forums@[j]@),
            decreases forums@.len() - i,
        {
            fs.push(Forum::from_row(&forums[i]));
            i += 1;
        }
        let mut ts: Vec<ThreadMeta> = Vec::new();
        let mut i: usize = 0;
        while i < threads.len()
            invariant
                i <= threads@.len(),
                ts@.len() == i,
                forall|j: int| 0 <= j < i ==> (#[trigger] ts@[j]).reads(threads@[j]@),
            decreases threads@.len() - i,
        {
            ts.push(ThreadMeta::from_row(&threads[i]));
            i += 1;
        }
        Self { groups: gs, forums: fs, threads: ts, ident }
    }
}

// ---------------------------------------------------------------------------
// What holds of what is read
// ---------------------------------------------------------------------------

/// A member that is text reads as that text, a number or a flag as it is spelled,
/// and what is missing or null as nothing.
pub proof fn texts_are_read_as_sent(v: JsonV, key: Seq<char>, s: Seq<char>, n: int, b: bool)
    ensures
        field(v, key) == Some(JsonV::Str(s)) ==> str_field(v, key) == s,
        field(v, key) == Some(JsonV::Int(n)) ==> str_field(v, key) == decimal_int(n),
        field(v, key) == Some(JsonV::Bool(b)) ==> str_field(v, key) == (if b {
            "true"@
        } else {
            "false"@
        }),
        field(v, key) is None || field(v, key) == Some(JsonV::Null) ==> str_field(v, key).len()
            == 0,
        field(v, key) matches Some(x) ==> x is Array || x is Object || x is Float ==> str_field(
            v,
            key,
        ) == written(x),
{
}

/// A member that is a number reads as that number, and so does one that spells it,
/// white space around it or not; a number that is too large reads as the largest;
/// a flag reads as 1 or 0, and everything else as 0.
pub proof fn numbers_are_read_as_sent(v: JsonV, key: Seq<char>, s: Seq<char>, n: int, b: bool)
    ensures
        field(v, key) == Some(JsonV::Int(n)) && n <= i64::MAX ==> int_field(v, key) == n,
        field(v, key) == Some(JsonV::Int(n)) && n > i64::MAX ==> int_field(v, key) == i64::MAX,
        field(v, key) == Some(JsonV::Str(s)) && trimmed(s) == decimal_int(n) && i64::MIN <= n
            <= i64::MAX ==> int_field(v, key) == n,
        field(v, key) == Some(JsonV::Str(s)) && (exists|i: int|
            0 < i < trimmed(s).len() && !is_digit(#[trigger] trimmed(s)[i])) ==> int_field(v, key)
            == 0,
        field(v, key) == Some(JsonV::Str(s)) && (trimmed(s).len() == 0 || !(is_digit(trimmed(s)[0])
            || trimmed(s)[0] == '+' || trimmed(s)[0] == '-')) ==> int_field(v, key) == 0,
        field(v, key) == Some(JsonV::Str(s)) && read_signed(trimmed(s)) is Some ==> Some(
            int_field(v, key),
        ) == read_signed(trimmed(s)),
        field(v, key) matches Some(JsonV::Float(x)) ==> int_field(v, key) == whole_part(x),
        field(v, key) == Some(JsonV::Bool(b)) ==> int_field(v, key) == (if b {
            1int
        } else {
            0
        }),
        field(v, key) is None || field(v, key)->0 is Null || field(v, key)->0 is Array || field(
            v,
            key,
        )->0 is Object ==> int_field(v, key) == 0,
{
    written_numbers_read_back(n, i64::MAX as int);
    only_numbers_read(trimmed(s), i64::MAX as int);
}

/// A flag may arrive as `true`, as a number that is not zero, as `"1"` or as
/// `"true"` in any case; everything else is no. White space does not count in a
/// member of a row, but it does in what the server says of its answer.
pub proof fn flags_are_read_as_sent(v: JsonV, key: Seq<char>, s: Seq<char>, n: int, b: bool)
    ensures
        field(v, key) == Some(JsonV::Bool(b)) ==> bool_field(v, key) == b && truth(field(v, key))
            == b,
        field(v, key) == Some(JsonV::Int(n)) && n <= i64::MAX ==> bool_field(v, key) == (n != 0)
            && truth(field(v, key)) == (n != 0),
        field(v, key) == Some(JsonV::Int(n)) && n > i64::MAX ==> !bool_field(v, key) && !truth(
            field(v, key),
        ),
        field(v, key) == Some(JsonV::Str(s)) ==> {
            &&& bool_field(v, key) <==> trimmed(s) == "1"@ || same_ascii(trimmed(s), "true"@)
            &&& truth(field(v, key)) <==> s == "1"@ || same_ascii(s, "true"@)
        },
        field(v, key) is None || field(v, key)->0 is Null || field(v, key)->0 is Array || field(
            v,
            key,
        )->0 is Object || field(v, key)->0 is Float ==> !bool_field(v, key) && !truth(
            field(v, key),
        ),
{
}

/// A list member gives its rows, anything else none.
pub proof fn rows_are_read_as_sent(v: JsonV, key: Seq<char>, rows: Seq<JsonV>)
    ensures
        field(v, key) == Some(JsonV::Array(rows)) ==> rows_field(v, key) == rows,
        field(v, key) is None || !(field(v, key)->0 is Array) ==> rows_field(v, key).len() == 0,
{
}

/// Whether a row gives a text under a key, or gives none and it is empty.
pub open spec fn gives_text(v: JsonV, key: Seq<char>, s: Seq<char>) -> bool {
    field(v, key) == Some(JsonV::Str(s)) || (field(v, key) is None && s.len() == 0)
}

/// Whether a row gives a number under a key, as a number or spelled out, or gives
/// none and it is 0.
pub open spec fn gives_number(v: JsonV, key: Seq<char>, n: int) -> bool {
    ||| field(v, key) == Some(JsonV::Int(n)) && i64::MIN <= n <= i64::MAX
    ||| (field(v, key) matches Some(JsonV::Str(s)) && trimmed(s) == decimal_int(n)) && i64::MIN <= n
        <= i64::MAX
    ||| field(v, key) is None && n == 0
}

/// Whether a row gives a flag under a key, in one of the ways that flags arrive,
/// or gives none and it is no.
pub open spec fn gives_flag(v: JsonV, key: Seq<char>, b: bool) -> bool {
    ||| field(v, key) == Some(JsonV::Bool(b))
    ||| field(v, key) == Some(
        JsonV::Int(
            if b {
                1
            } else {
                0
            },
        ),
    )
    ||| field(v, key) == Some(
        JsonV::Str(
            if b {
                "1"@
            } else {
                "0"@
            },
        ),
    )
    ||| field(v, key) is None && !b
}

/// What a row gives under a key is what is read of it.
pub proof fn lemma_given(v: JsonV, key: Seq<char>)
    ensures
        forall|s: Seq<char>| #[trigger] gives_text(v, key, s) ==> str_field(v, key) == s,
        forall|n: int| #[trigger] gives_number(v, key, n) ==> int_field(v, key) == n,
        forall|b: bool| #[trigger] gives_flag(v, key, b) ==> bool_field(v, key) == b,
{
    assert forall|s: Seq<char>| #[trigger] gives_text(v, key, s) implies str_field(v, key) == s by {
        assert(str_field(v, key) =~= s);
    }
    assert forall|n: int| #[trigger] gives_number(v, key, n) implies int_field(v, key) == n by {
        written_numbers_read_back(n, i64::MAX as int);
    }
    assert forall|b: bool| #[trigger] gives_flag(v, key, b) implies bool_field(v, key) == b by {
        reveal_strlit("1");
        reveal_strlit("0");
        reveal_strlit("true");
        assert("1"@.len() == 1 && "0"@.len() == 1 && "true"@.len() == 4);
        lemma_trimmed_whole("1"@);
        lemma_trimmed_whole("0"@);
        assert("0"@[0] != "1"@[0]);
        comparison_ignores_case("0"@, "true"@);
    }
}

/// A group is read member by member: each member of the row ends up in the field
/// that it is for, and the row itself is kept.
pub proof fn groups_are_read_by_member(g: Group, v: JsonV, s: Seq<char>, n: int, b: bool)
    requires
        g.reads(v),
    ensures
        g.raw@ == v,
        gives_number(v, "id"@, n) ==> g.id == n,
        gives_text(v, "name"@, s) ==> g.name@ == s,
        gives_text(v, "founder"@, s) ==> g.founder@ == s,
        gives_text(v, "description"@, s) ==> g.description@ == s,
        gives_text(v, "lang"@, s) ==> g.lang@ == s,
        gives_flag(v, "public"@, b) ==> g.public == b,
        gives_flag(v, "open"@, b) ==> g.open == b,
        gives_flag(v, "hidden"@, b) ==> g.hidden == b,
        gives_flag(v, "recommended"@, b) ==> g.recommended == b,
        gives_number(v, "parent"@, n) ==> g.parent == n,
        gives_number(v, "created"@, n) ==> g.created == n,
        gives_number(v, "forums"@, n) ==> g.forums == n,
        gives_number(v, "threads"@, n) ==> g.threads == n,
        gives_number(v, "posts"@, n) ==> g.posts == n,
        gives_number(v, "acmembers"@, n) ==> g.members == n,
        gives_number(v, "audiolimit"@, n) ==> g.audio_limit == n,
{
    lemma_given(v, "id"@);
    lemma_given(v, "name"@);
    lemma_given(v, "founder"@);
    lemma_given(v, "description"@);
    lemma_given(v, "lang"@);
    lemma_given(v, "public"@);
    lemma_given(v, "open"@);
    lemma_given(v, "hidden"@);
    lemma_given(v, "recommended"@);
    lemma_given(v, "parent"@);
    lemma_given(v, "created"@);
    lemma_given(v, "forums"@);
    lemma_given(v, "threads"@);
    lemma_given(v, "posts"@);
    lemma_given(v, "acmembers"@);
    lemma_given(v, "audiolimit"@);
}

/// A forum is read member by member. Its number is `forumid`; `id` is the opaque
/// identifier.
pub proof fn forums_are_read_by_member(f: Forum, v: JsonV, s: Seq<char>, n: int, b: bool)
    requires
        f.reads(v),
    ensures
        f.raw@ == v,
        gives_number(v, "forumid"@, n) ==> f.id == n,
        gives_text(v, "id"@, s) ==> f.ident@ == s,
        gives_text(v, "name"@, s) ==> f.name@ == s,
        gives_number(v, "type"@, n) ==> f.kind == n,
        gives_number(v, "group_id"@, n) ==> f.group_id == n,
        gives_text(v, "description"@, s) ==> f.description@ == s,
        gives_flag(v, "closed"@, b) ==> f.closed == b,
        gives_number(v, "threads"@, n) ==> f.threads == n,
        gives_number(v, "posts"@, n) ==> f.posts == n,
        gives_number(v, "position"@, n) ==> f.position == n,
{
    lemma_given(v, "forumid"@);
    lemma_given(v, "id"@);
    lemma_given(v, "name"@);
    lemma_given(v, "type"@);
    lemma_given(v, "group_id"@);
    lemma_given(v, "description"@);
    lemma_given(v, "closed"@);
    lemma_given(v, "threads"@);
    lemma_given(v, "posts"@);
    lemma_given(v, "position"@);
}

/// A thread is read member by member.
pub proof fn threads_are_read_by_member(t: ThreadMeta, v: JsonV, s: Seq<char>, n: int, b: bool)
    requires
        t.reads(v),
    ensures
        t.raw@ == v,
        gives_number(v, "id"@, n) ==> t.id == n,
        gives_text(v, "name"@, s) ==> t.name@ == s,
        gives_text(v, "author"@, s) ==> t.author@ == s,
        gives_number(v, "forumid"@, n) ==> t.forum_id == n,
        gives_flag(v, "pinned"@, b) ==> t.pinned == b,
        gives_flag(v, "closed"@, b) ==> t.closed == b,
        gives_number(v, "last_update"@, n) ==> t.last_update == n,
        gives_number(v, "posts"@, n) ==> t.posts == n,
{
    lemma_given(v, "id"@);
    lemma_given(v, "name"@);
    lemma_given(v, "author"@);
    lemma_given(v, "forumid"@);
    lemma_given(v, "pinned"@);
    lemma_given(v, "closed"@);
    lemma_given(v, "last_update"@);
    lemma_given(v, "posts"@);
}

/// A post is read member by member, and belongs to the thread that was asked for.
pub proof fn posts_are_read_by_member(
    p: Post,
    v: JsonV,
    thread_id: int,
    s: Seq<char>,
    n: int,
    b: bool,
)
    requires
        p.reads(v, thread_id),
    ensures
        p.raw@ == v,
        p.thread_id == thread_id,
        gives_number(v, "id"@, n) ==> p.id == n,
        gives_text(v, "author"@, s) ==> p.author@ == s,
        gives_text(v, "text"@, s) ==> p.text@ == s,
        gives_text(v, "signature"@, s) ==> p.signature@ == s,
        gives_number(v, "date"@, n) ==> p.date == n,
        gives_number(v, "format"@, n) ==> p.format == n,
        gives_number(v, "likes"@, n) ==> p.likes == n,
        gives_flag(v, "edited"@, b) ==> p.edited == b,
        gives_flag(v, "locked"@, b) ==> p.locked == b,
        gives_text(v, "transcription"@, s) ==> p.transcription@ == s,
        gives_text(v, "polls"@, s) ==> p.polls@ == s,
        gives_text(v, "attachments"@, s) ==> p.attachments@ == s,
{
    lemma_given(v, "id"@);
    lemma_given(v, "author"@);
    lemma_given(v, "text"@);
    lemma_given(v, "signature"@);
    lemma_given(v, "date"@);
    lemma_given(v, "format"@);
    lemma_given(v, "likes"@);
    lemma_given(v, "edited"@);
    lemma_given(v, "locked"@);
    lemma_given(v, "transcription"@);
    lemma_given(v, "polls"@);
    lemma_given(v, "attachments"@);
}

/// A post has a recording exactly if its `audio` member gives a URL, and the
/// recording is the one that is given.
pub proof fn recordings_are_read_by_member(
    p: Post,
    v: JsonV,
    thread_id: int,
    audio: JsonV,
    key: Seq<char>,
    url: Seq<char>,
    content_type: Seq<char>,
)
    requires
        p.reads(v, thread_id),
    ensures
        field(v, "audio"@) is None ==> p.audio is None,
        field(v, "audio"@) == Some(audio) && gives_text(audio, "url"@, url) ==> (p.audio is Some
            <==> url.len() > 0),
        field(v, "audio"@) == Some(audio) && gives_text(audio, "url"@, url) && gives_text(
            audio,
            "id"@,
            key,
        ) && gives_text(audio, "content_type"@, content_type) && url.len() > 0 ==> (
        p.audio matches Some(a) && a.key@ == key && a.url@ == url && a.content_type@
            == content_type),
{
    lemma_given(audio, "url"@);
    lemma_given(audio, "id"@);
    lemma_given(audio, "content_type"@);
}

/// Ids read as the same key whether they arrive as text or as a number, and
/// different numbers as different keys.
pub proof fn ids_are_told_apart(a: int, b: int, s: Seq<char>)
    ensures
        key_text(JsonV::Str(s)) == s,
        key_text(JsonV::Int(a)) == decimal_int(a),
        key_text(JsonV::Int(a)) == key_text(JsonV::Int(b)) ==> a == b,
{
    if key_text(JsonV::Int(a)) == key_text(JsonV::Int(b)) {
        decimals_differ(a, b);
    }
}

/// A row is a stub exactly if it is an object with no member but `ref`.
pub proof fn stubs_have_no_other_member(v: JsonV)
    ensures
        stub_id(v) is Some <==> (v matches JsonV::Object(m) && forall|k: Seq<char>| #[trigger]
            m.contains_key(k) <==> k == "ref"@),
        stub_id(v) matches Some(id) ==> field(v, "ref"@) is Some && id == key_text(
            field(v, "ref"@)->0,
        ),
{
    if let JsonV::Object(m) = v {
        if forall|k: Seq<char>| #[trigger] m.contains_key(k) <==> k == "ref"@ {
            assert(m.dom() =~= set!["ref"@]);
        }
        if m.dom() == set!["ref"@] {
            assert forall|k: Seq<char>| #[trigger] m.contains_key(k) <==> k == "ref"@ by {
                assert(m.dom().contains(k) <==> set!["ref"@].contains(k));
            }
        }
    }
}

/// Whether `row` is what a row that was sent stands for: itself, or for a stub the
/// last held row whose own member `id_key` is the id that the stub refers to.
pub open spec fn stands_for(
    row: JsonV,
    sent: JsonV,
    held: Seq<JsonV>,
    id_key: Seq<char>,
) -> bool {
    match stub_id(sent) {
        None => row == sent,
        Some(x) => exists|j: int|
            #![trigger held[j]]
            0 <= j < held.len() && held[j] == row && (field(row, id_key) matches Some(id)
                && key_text(id) == x) && forall|k: int|
                j < k < held.len() ==> !(field(#[trigger] held[k], id_key) matches Some(id)
                    && key_text(id) == x),
    }
}

/// Whether some held row has the id that a stub refers to.
pub open spec fn is_held(stub: JsonV, held: Seq<JsonV>, id_key: Seq<char>) -> bool {
    exists|j: int|
        #![trigger held[j]]
        0 <= j < held.len() && (field(held[j], id_key) matches Some(id) && Some(key_text(id))
            == stub_id(stub))
}

/// A merge replaces every stub by the held row with its id and keeps every other
/// row, in the order in which they were sent; it succeeds exactly if the row of
/// every stub is held.
pub proof fn merges_replace_stubs_by_held_rows(
    rows: Seq<JsonV>,
    held: Seq<JsonV>,
    id_key: Seq<char>,
)
    ensures
        expanded(rows, held, id_key) is Some <==> forall|i: int|
            0 <= i < rows.len() && stub_id(#[trigger] rows[i]) is Some ==> is_held(
                rows[i],
                held,
                id_key,
            ),
        expanded(rows, held, id_key) matches Some(out) ==> out.len() == rows.len() && forall|i: int|
            0 <= i < rows.len() ==> stands_for(#[trigger] out[i], rows[i], held, id_key),
{
    assert forall|i: int| 0 <= i < rows.len() && stub_id(#[trigger] rows[i]) is Some implies (
    full_row(rows[i], held, id_key) is Some <==> is_held(rows[i], held, id_key)) by {
        lemma_last_cached_row(held, id_key, stub_id(rows[i])->0);
    }
    if let Some(out) = expanded(rows, held, id_key) {
        assert forall|i: int| 0 <= i < rows.len() implies stands_for(
            #[trigger] out[i],
            rows[i],
            held,
            id_key,
        ) by {
            assert(full_row(rows[i], held, id_key) == Some(out[i]));
            if let Some(x) = stub_id(rows[i]) {
                lemma_last_cached_row(held, id_key, x);
            }
        }
    }
    if forall|i: int|
        0 <= i < rows.len() && stub_id(#[trigger] rows[i]) is Some ==> is_held(
            rows[i],
            held,
            id_key,
        ) {
        assert forall|i: int| 0 <= i < rows.len() implies full_row(
            #[trigger] rows[i],
            held,
            id_key,
        ) is Some by {}
    }
}

proof fn lemma_last_cached_row(held: Seq<JsonV>, id_key: Seq<char>, x: Seq<char>)
    ensures
        match cached_row(held, id_key, x) {
            Some(row) => exists|j: int|
                #![trigger held[j]]
                0 <= j < held.len() && held[j] == row && (field(row, id_key) matches Some(id)
                    && key_text(id) == x) && forall|k: int|
                    j < k < held.len() ==> !(field(#[trigger] held[k], id_key) matches Some(id)
                        && key_text(id) == x),
            None => forall|k: int|
                0 <= k < held.len() ==> !(field(#[trigger] held[k], id_key) matches Some(id)
                    && key_text(id) == x),
        },
    decreases held.len(),
{
    if held.len() > 0 {
        let fewer = held.drop_last();
        lemma_last_cached_row(fewer, id_key, x);
        assert(held[held.len() - 1] == held.last());
        if row_id(held.last(), id_key) != Some(x) {
            match cached_row(fewer, id_key, x) {
                Some(row) => {
                    let j = choose|j: int|
                        #![trigger fewer[j]]
                        0 <= j < fewer.len() && fewer[j] == row && (field(
                            row,
                            id_key,
                        ) matches Some(id) && key_text(id) == x) && forall|k: int|
                            j < k < fewer.len() ==> !(field(
                                #[trigger] fewer[k],
                                id_key,
                            ) matches Some(id) && key_text(id) == x);
                    assert(held[j] == row);
                    assert forall|k: int| j < k < held.len() implies !(field(
                        #[trigger] held[k],
                        id_key,
                    ) matches Some(id) && key_text(id) == x) by {
                        if k < fewer.len() {
                            assert(fewer[k] == held[k]);
                        }
                    }
                },
                None => {
                    assert forall|k: int| 0 <= k < held.len() implies !(field(
                        #[trigger] held[k],
                        id_key,
                    ) matches Some(id) && key_text(id) == x) by {
                        if k < fewer.len() {
                            assert(fewer[k] == held[k]);
                        }
                    }
                },
            }
        }
    }
}

/// A row that stands for a stub has the number of the stub as its own id, if its
/// id is a number or spells one.
pub proof fn expanded_rows_have_the_id_of_their_stub(
    row: JsonV,
    sent: JsonV,
    held: Seq<JsonV>,
    id_key: Seq<char>,
    n: int,
)
    requires
        stands_for(row, sent, held, id_key),
        stub_id(sent) == Some(decimal_int(n)),
        i64::MIN <= n <= i64::MAX,
        field(row, id_key) matches Some(JsonV::Int(_)) || field(row, id_key) matches Some(
            JsonV::Str(_),
        ),
    ensures
        int_field(row, id_key) == n,
{
    written_numbers_read_back(n, i64::MAX as int);
    if let Some(JsonV::Int(m)) = field(row, id_key) {
        decimals_differ(m, n);
    }
}

} // verus!
