//! What is written to the database, and what is read out of it.
//!
//! One database for the whole network rather than one per forum: the catalog is
//! fetched globally with a single resume point, threads move between forums, and
//! cross-forum queries are the interesting ones. Audio stays on disk and is
//! referenced by path.
//!
//! The functions here turn what was scraped into rows and rows into what the
//! rest of the library works with. Running the statements is left to the caller.

use std::collections::HashMap;
use vstd::prelude::*;
use vstd::hash_map::StringHashMap;

use crate::json::{field, json_parsed, json_views, storable, written, Json, JsonObject, JsonV};
use crate::model::{
    audio_view, gives_number, gives_text, int_field, posts_are_read_by_member,
    recordings_are_read_by_member, str_field, texts_are_read_as_sent, Forum, Group, Post, Structure,
    ThreadMeta,
};
use crate::order::{
    is_order, kept_at, lemma_filter_picks, lists, order_by, order_exists,
    order_lists_every_item_once, picks, precedes, the_order, Direction,
};
use crate::text::{pieces, split, splitting_undoes_joining, trim, trimmed, views};

verus! {

broadcast use vstd::std_specs::hash::group_hash_axioms;

// ---------------------------------------------------------------------------
// Cells
// ---------------------------------------------------------------------------

/// One value of a row.
#[derive(Debug)]
pub enum Cell {
    Int(i64),
    Text(String),
    Missing,
}

pub enum CellV {
    Int(int),
    Text(Seq<char>),
    Missing,
}

impl Cell {
    pub open spec fn view(&self) -> CellV {
        match self {
            Cell::Int(n) => CellV::Int(*n as int),
            Cell::Text(s) => CellV::Text(s@),
            Cell::Missing => CellV::Missing,
        }
    }
}

/// The values of a row.
pub open spec fn row_view(row: Seq<Cell>) -> Seq<CellV> {
    row.map_values(|c: Cell| c@)
}

pub open spec fn flag_cell(b: bool) -> CellV {
    CellV::Int(
        if b {
            1
        } else {
            0
        },
    )
}

pub open spec fn int_cell(n: Option<i64>) -> CellV {
    match n {
        Some(n) => CellV::Int(n as int),
        None => CellV::Missing,
    }
}

pub open spec fn text_cell(s: Option<Seq<char>>) -> CellV {
    match s {
        Some(s) => CellV::Text(s),
        None => CellV::Missing,
    }
}

/// The contents of an optional text.
pub open spec fn opt_text(s: Option<String>) -> Option<Seq<char>> {
    match s {
        Some(s) => Some(s@),
        None => None,
    }
}

fn flag(b: bool) -> (r: Cell)
    ensures
        r@ == flag_cell(b),
{
    Cell::Int(
        if b {
            1
        } else {
            0
        },
    )
}

fn text(s: &String) -> (r: Cell)
    ensures
        r@ == CellV::Text(s@),
{
    Cell::Text(s.clone())
}

fn maybe_int(n: Option<i64>) -> (r: Cell)
    ensures
        r@ == int_cell(n),
{
    match n {
        Some(n) => Cell::Int(n),
        None => Cell::Missing,
    }
}

fn copy_opt(s: &Option<String>) -> (r: Option<String>)
    ensures
        opt_text(r) == opt_text(*s),
{
    match s {
        Some(s) => Some(s.clone()),
        None => None,
    }
}

fn maybe_text(s: &Option<String>) -> (r: Cell)
    ensures
        r@ == text_cell(opt_text(*s)),
{
    match s {
        Some(s) => Cell::Text(s.clone()),
        None => Cell::Missing,
    }
}

/// The untouched API row as text. A row without floats that is not nested
/// absurdly deep reads back from it unchanged.
fn raw_text(v: &Json) -> (r: String)
    ensures
        r@ == written(v@),
        storable(v@) ==> json_parsed(r@) == Some(v@),
{
    v.encode()
}

// ---------------------------------------------------------------------------
// The catalog
// ---------------------------------------------------------------------------

/// Our own bookkeeping of a thread: when it was scraped, and which
/// `last_update` it had then.
#[derive(Debug, Clone, Copy, PartialEq, Eq, Structural)]
pub struct Watermark {
    pub scraped_at: Option<i64>,
    pub scraped_last_update: Option<i64>,
}

/// The bookkeeping of a thread that was never scraped.
pub open spec fn unscraped() -> Watermark {
    Watermark { scraped_at: None, scraped_last_update: None }
}

/// The bookkeeping of thread `id`, out of what is stored.
pub open spec fn mark_of(marks: Seq<(i64, Watermark)>, id: i64) -> Watermark
    decreases marks.len(),
{
    if marks.len() == 0 {
        unscraped()
    } else if marks.last().0 == id {
        marks.last().1
    } else {
        mark_of(marks.drop_last(), id)
    }
}

/// Columns: id, name, founder, description, lang, public, open, hidden,
/// recommended, parent, created, forums_count, threads_count, posts_count,
/// members, audio_limit, raw, updated_at.
pub open spec fn group_row(g: Group, ts: i64) -> Seq<CellV> {
    seq![
        CellV::Int(g.id as int),
        CellV::Text(g.name@),
        CellV::Text(g.founder@),
        CellV::Text(g.description@),
        CellV::Text(g.lang@),
        flag_cell(g.public),
        flag_cell(g.open),
        flag_cell(g.hidden),
        flag_cell(g.recommended),
        CellV::Int(g.parent as int),
        CellV::Int(g.created as int),
        CellV::Int(g.forums as int),
        CellV::Int(g.threads as int),
        CellV::Int(g.posts as int),
        CellV::Int(g.members as int),
        CellV::Int(g.audio_limit as int),
        CellV::Text(written(g.raw@)),
        CellV::Int(ts as int),
    ]
}

/// Columns: id, ident, name, kind, group_id, description, closed,
/// threads_count, posts_count, position, raw, updated_at.
pub open spec fn forum_row(f: Forum, ts: i64) -> Seq<CellV> {
    seq![
        CellV::Int(f.id as int),
        CellV::Text(f.ident@),
        CellV::Text(f.name@),
        CellV::Int(f.kind as int),
        CellV::Int(f.group_id as int),
        CellV::Text(f.description@),
        flag_cell(f.closed),
        CellV::Int(f.threads as int),
        CellV::Int(f.posts as int),
        CellV::Int(f.position as int),
        CellV::Text(written(f.raw@)),
        CellV::Int(ts as int),
    ]
}

/// Columns: id, name, author, forum_id, pinned, closed, last_update,
/// posts_count, raw, updated_at, scraped_at, scraped_last_update.
pub open spec fn thread_row(t: ThreadMeta, mark: Watermark, ts: i64) -> Seq<CellV> {
    seq![
        CellV::Int(t.id as int),
        CellV::Text(t.name@),
        CellV::Text(t.author@),
        CellV::Int(t.forum_id as int),
        flag_cell(t.pinned),
        flag_cell(t.closed),
        CellV::Int(t.last_update as int),
        CellV::Int(t.posts as int),
        CellV::Text(written(t.raw@)),
        CellV::Int(ts as int),
        int_cell(mark.scraped_at),
        int_cell(mark.scraped_last_update),
    ]
}

fn group_cells(g: &Group, ts: i64) -> (r: Vec<Cell>)
    ensures
        row_view(r@) == group_row(*g, ts),
        storable(g.raw@) ==> json_parsed(row_view(r@)[16]->Text_0) == Some(g.raw@),
{
    let raw = raw_text(&g.raw);
    let r: Vec<Cell> =
        vec![
        Cell::Int(g.id),
        text(&g.name),
        text(&g.founder),
        text(&g.description),
        text(&g.lang),
        flag(g.public),
        flag(g.open),
        flag(g.hidden),
        flag(g.recommended),
        Cell::Int(g.parent),
        Cell::Int(g.created),
        Cell::Int(g.forums),
        Cell::Int(g.threads),
        Cell::Int(g.posts),
        Cell::Int(g.members),
        Cell::Int(g.audio_limit),
        Cell::Text(raw),
        Cell::Int(ts),
    ];
    assert(row_view(r@) =~= group_row(*g, ts));
    r
}

fn forum_cells(f: &Forum, ts: i64) -> (r: Vec<Cell>)
    ensures
        row_view(r@) == forum_row(*f, ts),
        storable(f.raw@) ==> json_parsed(row_view(r@)[10]->Text_0) == Some(f.raw@),
{
    let raw = raw_text(&f.raw);
    let r: Vec<Cell> =
        vec![
        Cell::Int(f.id),
        text(&f.ident),
        text(&f.name),
        Cell::Int(f.kind),
        Cell::Int(f.group_id),
        text(&f.description),
        flag(f.closed),
        Cell::Int(f.threads),
        Cell::Int(f.posts),
        Cell::Int(f.position),
        Cell::Text(raw),
        Cell::Int(ts),
    ];
    assert(row_view(r@) =~= forum_row(*f, ts));
    r
}

fn thread_cells(t: &ThreadMeta, mark: Watermark, ts: i64) -> (r: Vec<Cell>)
    ensures
        row_view(r@) == thread_row(*t, mark, ts),
        storable(t.raw@) ==> json_parsed(row_view(r@)[8]->Text_0) == Some(t.raw@),
{
    let raw = raw_text(&t.raw);
    let r: Vec<Cell> =
        vec![
        Cell::Int(t.id),
        text(&t.name),
        text(&t.author),
        Cell::Int(t.forum_id),
        flag(t.pinned),
        flag(t.closed),
        Cell::Int(t.last_update),
        Cell::Int(t.posts),
        Cell::Text(raw),
        Cell::Int(ts),
        maybe_int(mark.scraped_at),
        maybe_int(mark.scraped_last_update),
    ];
    assert(row_view(r@) =~= thread_row(*t, mark, ts));
    r
}

/// Whether a map finds the bookkeeping of every thread.
spec fn finds_marks(m: Map<i64, Watermark>, marks: Seq<(i64, Watermark)>) -> bool {
    forall|id: i64|
        #[trigger] mark_of(marks, id) == if m.contains_key(id) {
            m[id]
        } else {
            unscraped()
        }
}

fn index_marks(marks: &Vec<(i64, Watermark)>) -> (r: HashMap<i64, Watermark>)
    ensures
        finds_marks(r@, marks@),
{
    let mut m: HashMap<i64, Watermark> = HashMap::new();
    let mut i: usize = 0;
    while i < marks.len()
        invariant
            i <= marks@.len(),
            finds_marks(m@, marks@.take(i as int)),
        decreases marks@.len() - i,
    {
        let (id, mark) = marks[i];
        let ghost before = m@;
        m.insert(id, mark);
        proof {
            let now = marks@.take(i + 1);
            assert(now.drop_last() =~= marks@.take(i as int));
            assert forall|q: i64| #[trigger] mark_of(now, q) == if m@.contains_key(q) {
                m@[q]
            } else {
                unscraped()
            } by {
                let earlier = mark_of(marks@.take(i as int), q);
                assert(now.last() == marks@[i as int]);
            }
        }
        i += 1;
    }
    assert(marks@.take(i as int) =~= marks@);
    m
}

/// The rows of a catalog, in the order of its groups, forums and threads.
#[derive(Debug)]
pub struct CatalogRows {
    pub groups: Vec<Vec<Cell>>,
    pub forums: Vec<Vec<Cell>>,
    pub threads: Vec<Vec<Cell>>,
}

impl CatalogRows {
    /// The rows that a catalog is stored as. Everything but our own scrape
    /// bookkeeping comes from the catalog.
    pub open spec fn stores(
        &self,
        structure: Structure,
        marks: Seq<(i64, Watermark)>,
        ts: i64,
    ) -> bool {
        &&& self.groups@.len() == structure.groups@.len()
        &&& forall|i: int|
            0 <= i < structure.groups@.len() ==> row_view(#[trigger] self.groups@[i]@) == group_row(
                structure.groups@[i],
                ts,
            )
        &&& self.forums@.len() == structure.forums@.len()
        &&& forall|i: int|
            0 <= i < structure.forums@.len() ==> row_view(#[trigger] self.forums@[i]@) == forum_row(
                structure.forums@[i],
                ts,
            )
        &&& self.threads@.len() == structure.threads@.len()
        &&& forall|i: int|
            0 <= i < structure.threads@.len() ==> row_view(#[trigger] self.threads@[i]@)
                == thread_row(
                structure.threads@[i],
                mark_of(marks, structure.threads@[i].id),
                ts,
            )
    }

    /// Every untouched row that reads back from text at all reads back from
    /// its column.
    pub open spec fn reloads(&self, structure: Structure) -> bool {
        &&& forall|i: int|
            0 <= i < structure.groups@.len() && storable(structure.groups@[i].raw@)
                ==> json_parsed(row_view(#[trigger] self.groups@[i]@)[16]->Text_0) == Some(
                structure.groups@[i].raw@,
            )
        &&& forall|i: int|
            0 <= i < structure.forums@.len() && storable(structure.forums@[i].raw@)
                ==> json_parsed(row_view(#[trigger] self.forums@[i]@)[10]->Text_0) == Some(
                structure.forums@[i].raw@,
            )
        &&& forall|i: int|
            0 <= i < structure.threads@.len() && storable(structure.threads@[i].raw@)
                ==> json_parsed(row_view(#[trigger] self.threads@[i]@)[8]->Text_0) == Some(
                structure.threads@[i].raw@,
            )
    }
}

/// The rows to write for a catalog fetched at `ts`. `marks` is the bookkeeping
/// of the threads already stored: those are our watermarks, not the server's,
/// and survive a catalog refresh.
pub fn catalog_rows(
    structure: &Structure,
    marks: &Vec<(i64, Watermark)>,
    ts: i64,
) -> (r: CatalogRows)
    ensures
        r.stores(*structure, marks@, ts),
        r.reloads(*structure),
{
    let found = index_marks(marks);
    let mut groups: Vec<Vec<Cell>> = Vec::new();
    let mut i: usize = 0;
    while i < structure.groups.len()
        invariant
            i <= structure.groups@.len(),
            groups@.len() == i,
            forall|j: int|
                0 <= j < i ==> row_view(#[trigger] groups@[j]@) == group_row(
                    structure.groups@[j],
                    ts,
                ) && (storable(structure.groups@[j].raw@) ==> json_parsed(
                    row_view(groups@[j]@)[16]->Text_0,
                ) == Some(structure.groups@[j].raw@)),
        decreases structure.groups@.len() - i,
    {
        groups.push(group_cells(&structure.groups[i], ts));
        i += 1;
    }
    let mut forums: Vec<Vec<Cell>> = Vec::new();
    let mut i: usize = 0;
    while i < structure.forums.len()
        invariant
            i <= structure.forums@.len(),
            forums@.len() == i,
            forall|j: int|
                0 <= j < i ==> row_view(#[trigger] forums@[j]@) == forum_row(
                    structure.forums@[j],
                    ts,
                ) && (storable(structure.forums@[j].raw@) ==> json_parsed(
                    row_view(forums@[j]@)[10]->Text_0,
                ) == Some(structure.forums@[j].raw@)),
        decreases structure.forums@.len() - i,
    {
        forums.push(forum_cells(&structure.forums[i], ts));
        i += 1;
    }
    let mut threads: Vec<Vec<Cell>> = Vec::new();
    let mut i: usize = 0;
    while i < structure.threads.len()
        invariant
            i <= structure.threads@.len(),
            finds_marks(found@, marks@),
            threads@.len() == i,
            forall|j: int|
                0 <= j < i ==> row_view(#[trigger] threads@[j]@) == thread_row(
                    structure.threads@[j],
                    mark_of(marks@, structure.threads@[j].id),
                    ts,
                ) && (storable(structure.threads@[j].raw@) ==> json_parsed(
                    row_view(threads@[j]@)[8]->Text_0,
                ) == Some(structure.threads@[j].raw@)),
        decreases structure.threads@.len() - i,
    {
        let t = &structure.threads[i];
        let mark = match found.get(&t.id) {
            Some(mark) => *mark,
            None => Watermark { scraped_at: None, scraped_last_update: None },
        };
        assert(mark == mark_of(marks@, t.id));
        threads.push(thread_cells(t, mark, ts));
        i += 1;
    }
    CatalogRows { groups, forums, threads }
}

/// Whether `marks` is the bookkeeping of a table of threads: each thread once.
pub open spec fn lists_table(marks: Seq<(i64, Watermark)>, table: Map<i64, Watermark>) -> bool {
    &&& forall|i: int, j: int|
        0 <= i < j < marks.len() ==> (#[trigger] marks[i]).0 != (#[trigger] marks[j]).0
    &&& forall|i: int|
        0 <= i < marks.len() ==> table.contains_key((#[trigger] marks[i]).0) && table[marks[i].0]
            == marks[i].1
    &&& forall|id: i64| #[trigger]
        table.contains_key(id) ==> exists|i: int| 0 <= i < marks.len() && (#[trigger] marks[i]).0
            == id
}

/// The bookkeeping that stands in a table of threads after rows for `ids` have
/// been written to it, each with the bookkeeping that [`catalog_rows`] gives it.
pub open spec fn marks_after(
    table: Map<i64, Watermark>,
    marks: Seq<(i64, Watermark)>,
    ids: Seq<i64>,
) -> Map<i64, Watermark>
    decreases ids.len(),
{
    if ids.len() == 0 {
        table
    } else {
        marks_after(table, marks, ids.drop_last()).insert(ids.last(), mark_of(marks, ids.last()))
    }
}

/// A catalog refresh neither loses a thread nor changes a watermark, and what it
/// adds counts as never scraped.
pub proof fn catalog_refresh_keeps_watermarks(
    table: Map<i64, Watermark>,
    marks: Seq<(i64, Watermark)>,
    ids: Seq<i64>,
)
    requires
        lists_table(marks, table),
    ensures
        forall|id: i64|
            table.contains_key(id) ==> #[trigger] marks_after(table, marks, ids).contains_key(id)
                && marks_after(table, marks, ids)[id] == table[id],
        forall|id: i64|
            #[trigger] marks_after(table, marks, ids).contains_key(id) && !table.contains_key(id)
                ==> ids.contains(id) && marks_after(table, marks, ids)[id] == unscraped(),
        forall|i: int|
            0 <= i < ids.len() ==> marks_after(table, marks, ids).contains_key(#[trigger] ids[i]),
    decreases ids.len(),
{
    if ids.len() > 0 {
        let before = marks_after(table, marks, ids.drop_last());
        let after = marks_after(table, marks, ids);
        catalog_refresh_keeps_watermarks(table, marks, ids.drop_last());
        lemma_mark_of_table(table, marks, ids.last());
        assert forall|i: int| 0 <= i < ids.len() implies after.contains_key(#[trigger] ids[i]) by {
            if i < ids.len() - 1 {
                assert(ids.drop_last()[i] == ids[i]);
            }
        }
        assert forall|id: i64| table.contains_key(id) implies #[trigger] after.contains_key(id)
            && after[id] == table[id] by {
            assert(before.contains_key(id));
        }
        assert forall|id: i64| #[trigger]
            after.contains_key(id) && !table.contains_key(id) implies ids.contains(id) && after[id]
            == unscraped() by {
            if id == ids.last() {
                assert(ids[ids.len() - 1] == id);
            } else {
                assert(before.contains_key(id));
                let k = choose|k: int|
                    0 <= k < ids.drop_last().len() && ids.drop_last()[k] == id;
                assert(ids[k] == id);
            }
        }
    }
}

proof fn lemma_mark_of_table(table: Map<i64, Watermark>, marks: Seq<(i64, Watermark)>, id: i64)
    requires
        lists_table(marks, table),
    ensures
        mark_of(marks, id) == (if table.contains_key(id) {
            table[id]
        } else {
            unscraped()
        }),
{
    if table.contains_key(id) {
        let i = choose|i: int| 0 <= i < marks.len() && (#[trigger] marks[i]).0 == id;
        lemma_mark_found(marks, i);
    } else {
        assert forall|i: int| 0 <= i < marks.len() implies (#[trigger] marks[i]).0 != id by {
            assert(table.contains_key(marks[i].0));
        }
        lemma_mark_missing(marks, id);
    }
}

proof fn lemma_mark_found(marks: Seq<(i64, Watermark)>, at: int)
    requires
        0 <= at < marks.len(),
        forall|i: int, j: int|
            0 <= i < j < marks.len() ==> (#[trigger] marks[i]).0 != (#[trigger] marks[j]).0,
    ensures
        mark_of(marks, marks[at].0) == marks[at].1,
    decreases marks.len(),
{
    if at < marks.len() - 1 {
        assert(marks[at].0 != marks[marks.len() - 1].0);
        lemma_mark_found(marks.drop_last(), at);
    }
}

proof fn lemma_mark_missing(marks: Seq<(i64, Watermark)>, id: i64)
    requires
        forall|i: int| 0 <= i < marks.len() ==> (#[trigger] marks[i]).0 != id,
    ensures
        mark_of(marks, id) == unscraped(),
    decreases marks.len(),
{
    if marks.len() > 0 {
        assert(marks[marks.len() - 1] == marks.last());
        assert forall|i: int| 0 <= i < marks.drop_last().len() implies (
        #[trigger] marks.drop_last()[i]).0 != id by {
            assert(marks.drop_last()[i] == marks[i]);
        }
        lemma_mark_missing(marks.drop_last(), id);
    }
}

/// The id that a row is stored under: its first column.
pub open spec fn row_key(row: Seq<CellV>) -> int {
    match row[0] {
        CellV::Int(id) => id,
        _ => 0,
    }
}

/// A table, by id, after rows have been written to it, each over the row with
/// the same id.
pub open spec fn table_after(
    table: Map<int, Seq<CellV>>,
    rows: Seq<Seq<CellV>>,
) -> Map<int, Seq<CellV>>
    decreases rows.len(),
{
    if rows.len() == 0 {
        table
    } else {
        table_after(table, rows.drop_last()).insert(row_key(rows.last()), rows.last())
    }
}

pub open spec fn rows_view(rows: Seq<Vec<Cell>>) -> Seq<Seq<CellV>> {
    rows.map_values(|row: Vec<Cell>| row_view(row@))
}

/// Writing rows removes none: every id that was stored still is, rows whose id
/// is not written stay as they were, and every row of a written id is one of the
/// rows written.
pub proof fn writing_rows_removes_none(table: Map<int, Seq<CellV>>, rows: Seq<Seq<CellV>>)
    ensures
        forall|id: int| table.contains_key(id) ==> #[trigger] table_after(table, rows).contains_key(id),
        forall|id: int|
            (forall|i: int| 0 <= i < rows.len() ==> row_key(#[trigger] rows[i]) != id) ==> (
            #[trigger] table_after(table, rows).contains_key(id) <==> table.contains_key(id))
                && table_after(table, rows)[id] == table[id],
        forall|i: int|
            0 <= i < rows.len() ==> {
                let id = row_key(#[trigger] rows[i]);
                table_after(table, rows).contains_key(id) && rows.contains(
                    table_after(table, rows)[id],
                ) && row_key(table_after(table, rows)[id]) == id
            },
    decreases rows.len(),
{
    if rows.len() > 0 {
        let fewer = rows.drop_last();
        let before = table_after(table, fewer);
        let after = table_after(table, rows);
        let last = rows.last();
        writing_rows_removes_none(table, fewer);
        assert(rows[rows.len() - 1] == last);
        assert forall|id: int| table.contains_key(id) implies #[trigger] after.contains_key(id) by {
            assert(before.contains_key(id));
        }
        assert forall|id: int|
            (forall|i: int| 0 <= i < rows.len() ==> row_key(#[trigger] rows[i]) != id) implies (
        #[trigger] after.contains_key(id) <==> table.contains_key(id)) && after[id] == table[id] by {
            assert(row_key(rows[rows.len() - 1]) != id);
            assert forall|i: int| 0 <= i < fewer.len() implies row_key(#[trigger] fewer[i]) != id by {
                assert(fewer[i] == rows[i]);
            }
            assert(before.contains_key(id) <==> table.contains_key(id));
        }
        assert forall|i: int| 0 <= i < rows.len() implies {
            let id = row_key(#[trigger] rows[i]);
            after.contains_key(id) && rows.contains(after[id]) && row_key(after[id]) == id
        } by {
            let id = row_key(rows[i]);
            if id == row_key(last) {
                assert(after[id] == last);
                assert(rows.contains(last));
            } else {
                assert(fewer[i] == rows[i]);
                assert(fewer.contains(before[id]));
                let k = choose|k: int| 0 <= k < fewer.len() && fewer[k] == before[id];
                assert(rows[k] == before[id]);
            }
        }
    }
}

/// A catalog refresh removes no stored thread, leaves threads outside the catalog
/// alone, and keeps the watermark columns of every stored thread. `table` holds
/// the rows of the threads before the refresh, and `marks` their watermarks.
pub proof fn catalog_refresh_keeps_threads(
    table: Map<int, Seq<CellV>>,
    marks: Seq<(i64, Watermark)>,
    structure: Structure,
    rows: CatalogRows,
    ts: i64,
)
    requires
        rows.stores(structure, marks, ts),
        forall|id: i64| #[trigger]
            table.contains_key(id as int) ==> table[id as int][10] == int_cell(
                mark_of(marks, id).scraped_at,
            ) && table[id as int][11] == int_cell(mark_of(marks, id).scraped_last_update),
    ensures
        forall|id: int|
            table.contains_key(id) ==> #[trigger] table_after(
                table,
                rows_view(rows.threads@),
            ).contains_key(id),
        forall|id: i64|
            table.contains_key(id as int) ==> {
                let row = #[trigger] table_after(table, rows_view(rows.threads@))[id as int];
                row[10] == table[id as int][10] && row[11] == table[id as int][11]
            },
        forall|id: int|
            (forall|i: int|
                0 <= i < structure.threads@.len() ==> (#[trigger] structure.threads@[i]).id != id)
                ==> (#[trigger] table_after(table, rows_view(rows.threads@)).contains_key(id)
                <==> table.contains_key(id)) && table_after(table, rows_view(rows.threads@))[id]
                == table[id],
{
    let written = rows_view(rows.threads@);
    let after = table_after(table, written);
    writing_rows_removes_none(table, written);
    assert forall|i: int| 0 <= i < written.len() implies #[trigger] written[i] == thread_row(
        structure.threads@[i],
        mark_of(marks, structure.threads@[i].id),
        ts,
    ) && row_key(written[i]) == structure.threads@[i].id by {
        assert(row_view(rows.threads@[i]@) == written[i]);
    }
    assert forall|id: int|
        (forall|i: int|
            0 <= i < structure.threads@.len() ==> (#[trigger] structure.threads@[i]).id != id) implies (
    #[trigger] after.contains_key(id) <==> table.contains_key(id)) && after[id] == table[id] by {
        assert forall|i: int| 0 <= i < written.len() implies row_key(#[trigger] written[i]) != id by {
            assert(structure.threads@[i].id != id);
        }
    }
    assert forall|id: i64| table.contains_key(id as int) implies {
        let row = #[trigger] after[id as int];
        row[10] == table[id as int][10] && row[11] == table[id as int][11]
    } by {
        if exists|i: int| 0 <= i < written.len() && row_key(#[trigger] written[i]) == id {
            let i = choose|i: int| 0 <= i < written.len() && row_key(#[trigger] written[i]) == id;
            assert(row_key(written[i]) == id);
            let row = after[id as int];
            assert(written.contains(row));
            let k = choose|k: int| 0 <= k < written.len() && written[k] == row;
            assert(row_key(written[k]) == id);
            assert(structure.threads@[k].id == id);
        } else {
            assert(after.contains_key(id as int) <==> table.contains_key(id as int));
        }
    }
}

/// The stored catalog rows that read as JSON, in order; others are passed over.
pub open spec fn readable(raws: Seq<Option<Seq<char>>>) -> Seq<JsonV>
    decreases raws.len(),
{
    if raws.len() == 0 {
        Seq::empty()
    } else {
        let earlier = readable(raws.drop_last());
        match raws.last() {
            Some(text) => match json_parsed(text) {
                Some(v) => earlier.push(v),
                None => earlier,
            },
            None => earlier,
        }
    }
}

pub open spec fn opt_texts(v: Seq<Option<String>>) -> Seq<Option<Seq<char>>> {
    v.map_values(|s: Option<String>| opt_text(s))
}

/// The raw catalog rows we already hold, used to expand an incremental
/// response.
pub fn cached_rows(raws: &Vec<Option<String>>) -> (r: Vec<Json>)
    ensures
        json_views(r@) == readable(opt_texts(raws@)),
{
    let ghost all = opt_texts(raws@);
    let mut out: Vec<Json> = Vec::new();
    let mut i: usize = 0;
    assert(json_views(out@) =~= Seq::empty());
    while i < raws.len()
        invariant
            i <= raws@.len(),
            all == opt_texts(raws@),
            json_views(out@) == readable(all.take(i as int)),
        decreases raws@.len() - i,
    {
        let ghost before = out@;
        assert(all.take(i + 1).drop_last() =~= all.take(i as int));
        assert(all.take(i + 1).last() == opt_text(raws@[i as int]));
        if let Some(raw) = &raws[i] {
            if let Ok(v) = Json::parse(raw.as_str()) {
                out.push(v);
                assert(json_views(out@) =~= json_views(before).push(v@));
            }
        }
        i += 1;
    }
    assert(all.take(i as int) =~= all);
    out
}

/// What was saved is what is read back: if every row's text reads as the row,
/// the rows read back are the rows saved.
pub proof fn saved_rows_read_back(raws: Seq<Option<Seq<char>>>, rows: Seq<JsonV>)
    requires
        raws.len() == rows.len(),
        forall|i: int|
            0 <= i < rows.len() ==> (#[trigger] raws[i] matches Some(text) && json_parsed(text)
                == Some(rows[i])),
    ensures
        readable(raws) == rows,
    decreases raws.len(),
{
    if raws.len() > 0 {
        assert forall|i: int| 0 <= i < rows.drop_last().len() implies (
        #[trigger] raws.drop_last()[i] matches Some(text) && json_parsed(text) == Some(
            rows.drop_last()[i],
        )) by {
            assert(raws.drop_last()[i] == raws[i]);
        }
        saved_rows_read_back(raws.drop_last(), rows.drop_last());
        assert(raws[raws.len() - 1] == raws.last());
        assert(rows.drop_last().push(rows.last()) =~= rows);
    } else {
        assert(rows =~= Seq::empty());
    }
}

/// A column of text.
pub open spec fn text_column(rows: Seq<Vec<Cell>>, at: int) -> Seq<Option<Seq<char>>> {
    rows.map_values(
        |row: Vec<Cell>|
            match row_view(row@)[at] {
                CellV::Text(s) => Some(s),
                _ => None,
            },
    )
}

/// What a delta is expanded against is the catalog as it was received: the rows
/// read back from the `raw` columns are the untouched rows, so long as each of
/// them reads back from text at all.
pub proof fn stored_catalog_reads_back(
    rows: CatalogRows,
    structure: Structure,
    marks: Seq<(i64, Watermark)>,
    ts: i64,
)
    requires
        rows.stores(structure, marks, ts),
        rows.reloads(structure),
        forall|i: int|
            0 <= i < structure.groups@.len() ==> storable((#[trigger] structure.groups@[i]).raw@),
        forall|i: int|
            0 <= i < structure.forums@.len() ==> storable((#[trigger] structure.forums@[i]).raw@),
        forall|i: int|
            0 <= i < structure.threads@.len() ==> storable((#[trigger] structure.threads@[i]).raw@),
    ensures
        readable(text_column(rows.groups@, 16)) == structure.groups@.map_values(|g: Group| g.raw@),
        readable(text_column(rows.forums@, 10)) == structure.forums@.map_values(|f: Forum| f.raw@),
        readable(text_column(rows.threads@, 8)) == structure.threads@.map_values(
            |t: ThreadMeta| t.raw@,
        ),
{
    let groups = structure.groups@.map_values(|g: Group| g.raw@);
    let column = text_column(rows.groups@, 16);
    assert forall|i: int| 0 <= i < groups.len() implies (#[trigger] column[i] matches Some(text)
        && json_parsed(text) == Some(groups[i])) by {
        assert(row_view(rows.groups@[i]@) == group_row(structure.groups@[i], ts));
        assert(storable(structure.groups@[i].raw@));
    }
    saved_rows_read_back(column, groups);
    let forums = structure.forums@.map_values(|f: Forum| f.raw@);
    let column = text_column(rows.forums@, 10);
    assert forall|i: int| 0 <= i < forums.len() implies (#[trigger] column[i] matches Some(text)
        && json_parsed(text) == Some(forums[i])) by {
        assert(row_view(rows.forums@[i]@) == forum_row(structure.forums@[i], ts));
        assert(storable(structure.forums@[i].raw@));
    }
    saved_rows_read_back(column, forums);
    let threads = structure.threads@.map_values(|t: ThreadMeta| t.raw@);
    let column = text_column(rows.threads@, 8);
    assert forall|i: int| 0 <= i < threads.len() implies (#[trigger] column[i] matches Some(text)
        && json_parsed(text) == Some(threads[i])) by {
        assert(row_view(rows.threads@[i]@) == thread_row(
            structure.threads@[i],
            mark_of(marks, structure.threads@[i].id),
            ts,
        ));
        assert(storable(structure.threads@[i].raw@));
    }
    saved_rows_read_back(column, threads);
}

/// The threads that have been scraped, each with the `last_update` it had then.
pub open spec fn scraped_marks(marks: Seq<(i64, Watermark)>) -> Seq<(i64, i64)>
    decreases marks.len(),
{
    if marks.len() == 0 {
        Seq::empty()
    } else {
        let earlier = scraped_marks(marks.drop_last());
        let (id, mark) = marks.last();
        if mark.scraped_at is Some {
            earlier.push(
                (
                    id,
                    match mark.scraped_last_update {
                        Some(n) => n,
                        None => -1i64,
                    },
                ),
            )
        } else {
            earlier
        }
    }
}

/// thread id -> the `last_update` value we had already scraped.
pub fn thread_watermarks(marks: &Vec<(i64, Watermark)>) -> (r: Vec<(i64, i64)>)
    ensures
        r@ == scraped_marks(marks@),
{
    let mut out: Vec<(i64, i64)> = Vec::new();
    let mut i: usize = 0;
    while i < marks.len()
        invariant
            i <= marks@.len(),
            out@ == scraped_marks(marks@.take(i as int)),
        decreases marks@.len() - i,
    {
        assert(marks@.take(i + 1).drop_last() =~= marks@.take(i as int));
        let (id, mark) = marks[i];
        assert(marks@.take(i + 1).last() == (id, mark));
        if mark.scraped_at.is_some() {
            out.push(
                (
                    id,
                    match mark.scraped_last_update {
                        Some(n) => n,
                        None => -1,
                    },
                ),
            );
        }
        i += 1;
    }
    assert(marks@.take(i as int) =~= marks@);
    out
}

// ---------------------------------------------------------------------------
// Posts
// ---------------------------------------------------------------------------

/// Where a downloaded recording is, how large it is and its digest.
#[derive(Debug)]
pub struct StoredFile {
    pub path: Option<String>,
    pub bytes: Option<i64>,
    pub sha: Option<String>,
}

impl StoredFile {
    pub open spec fn view(&self) -> (Option<Seq<char>>, Option<i64>, Option<Seq<char>>) {
        (opt_text(self.path), self.bytes, opt_text(self.sha))
    }

    /// The columns of a recording that has been downloaded.
    pub fn downloaded(path: &str, bytes: i64, sha: &str) -> (r: StoredFile)
        ensures
            r@ == (Some(path@), Some(bytes), Some(sha@)),
    {
        StoredFile {
            path: Some(String::from_str(path)),
            bytes: Some(bytes),
            sha: Some(String::from_str(sha)),
        }
    }
}

/// The recording of a post that was never downloaded.
pub open spec fn no_file() -> (Option<Seq<char>>, Option<i64>, Option<Seq<char>>) {
    (None, None, None)
}

/// The recording of post `id`, out of what is stored.
pub open spec fn file_of(files: Seq<(i64, StoredFile)>, id: i64) -> (
    Option<Seq<char>>,
    Option<i64>,
    Option<Seq<char>>,
)
    decreases files.len(),
{
    if files.len() == 0 {
        no_file()
    } else if files.last().0 == id {
        files.last().1@
    } else {
        file_of(files.drop_last(), id)
    }
}

/// Columns: id, thread_id, author, text, signature, date, format, likes,
/// edited, locked, transcription, polls, attachments, audio_key, audio_url,
/// audio_content_type, audio_path, audio_bytes, audio_sha256, raw, scraped_at.
pub open spec fn post_row(
    p: Post,
    file: (Option<Seq<char>>, Option<i64>, Option<Seq<char>>),
    ts: i64,
) -> Seq<CellV> {
    let (key, url, content_type) = match audio_view(p.audio) {
        Some(a) => a,
        None => (Seq::empty(), Seq::empty(), Seq::empty()),
    };
    seq![
        CellV::Int(p.id as int),
        CellV::Int(p.thread_id as int),
        CellV::Text(p.author@),
        CellV::Text(p.text@),
        CellV::Text(p.signature@),
        CellV::Int(p.date as int),
        CellV::Int(p.format as int),
        CellV::Int(p.likes as int),
        flag_cell(p.edited),
        flag_cell(p.locked),
        CellV::Text(p.transcription@),
        CellV::Text(p.polls@),
        CellV::Text(p.attachments@),
        CellV::Text(key),
        CellV::Text(url),
        CellV::Text(content_type),
        text_cell(file.0),
        int_cell(file.1),
        text_cell(file.2),
        CellV::Text(written(p.raw@)),
        CellV::Int(ts as int),
    ]
}

fn post_cells(p: &Post, file: &StoredFile, ts: i64) -> (r: Vec<Cell>)
    ensures
        row_view(r@) == post_row(*p, file@, ts),
        storable(p.raw@) ==> json_parsed(row_view(r@)[19]->Text_0) == Some(p.raw@),
{
    let (key, url, content_type) = match &p.audio {
        Some(a) => (a.key.clone(), a.url.clone(), a.content_type.clone()),
        None => (String::new(), String::new(), String::new()),
    };
    let raw = raw_text(&p.raw);
    let r: Vec<Cell> =
        vec![
        Cell::Int(p.id),
        Cell::Int(p.thread_id),
        text(&p.author),
        text(&p.text),
        text(&p.signature),
        Cell::Int(p.date),
        Cell::Int(p.format),
        Cell::Int(p.likes),
        flag(p.edited),
        flag(p.locked),
        text(&p.transcription),
        text(&p.polls),
        text(&p.attachments),
        Cell::Text(key),
        Cell::Text(url),
        Cell::Text(content_type),
        maybe_text(&file.path),
        maybe_int(file.bytes),
        maybe_text(&file.sha),
        Cell::Text(raw),
        Cell::Int(ts),
    ];
    assert(row_view(r@) =~= post_row(*p, file@, ts));
    r
}

/// The ids in a comma-separated list, without surrounding whitespace and
/// without empty entries.
pub open spec fn listed_ids(list: Seq<char>) -> Seq<Seq<char>> {
    pieces(list, ',', ',').map_values(|s: Seq<char>| trimmed(s)).filter(
        |s: Seq<char>| s.len() > 0,
    )
}

pub fn attachment_ids(list: &str) -> (r: Vec<String>)
    ensures
        views(r@) == listed_ids(list@),
{
    let parts = split(list, ',', ',');
    let ghost all = pieces(list@, ',', ',').map_values(|s: Seq<char>| trimmed(s));
    let ghost keep = |s: Seq<char>| s.len() > 0;
    let mut out: Vec<String> = Vec::new();
    let mut i: usize = 0;
    assert(views(out@) =~= all.take(0).filter(keep)) by {
        reveal(Seq::filter);
    }
    while i < parts.len()
        invariant
            i <= parts@.len(),
            views(parts@) == pieces(list@, ',', ','),
            all == pieces(list@, ',', ',').map_values(|s: Seq<char>| trimmed(s)),
            keep == (|s: Seq<char>| s.len() > 0),
            views(out@) == all.take(i as int).filter(keep),
        decreases parts@.len() - i,
    {
        let id = trim(parts[i].as_str());
        let ghost before = out@;
        proof {
            assert(views(parts@)[i as int] == parts@[i as int]@);
            assert(all.take(i + 1) =~= all.take(i as int).push(id@));
            all.take(i as int).lemma_filter_push(id@, keep);
        }
        if !id.as_str().is_empty() {
            out.push(id);
            assert(views(out@) =~= views(before).push(id@));
        }
        i += 1;
    }
    assert(all.take(i as int) =~= all);
    out
}

/// Every attachment that the posts refer to, with the post that does.
pub open spec fn references(posts: Seq<Post>) -> Seq<(Seq<char>, i64)>
    decreases posts.len(),
{
    if posts.len() == 0 {
        Seq::empty()
    } else {
        references(posts.drop_last()) + listed_ids(posts.last().attachments@).map_values(
            |id: Seq<char>| (id, posts.last().id),
        )
    }
}

/// The references that are new: of an attachment that is not known yet, at its
/// first mention.
pub open spec fn new_references(
    known: Set<Seq<char>>,
    refs: Seq<(Seq<char>, i64)>,
) -> Seq<(Seq<char>, i64)>
    decreases refs.len(),
{
    if refs.len() == 0 {
        Seq::empty()
    } else {
        let earlier = new_references(known, refs.drop_last());
        let id = refs.last().0;
        if known.contains(id) || mentions(earlier, id) {
            earlier
        } else {
            earlier.push(refs.last())
        }
    }
}

pub open spec fn mentions(refs: Seq<(Seq<char>, i64)>, id: Seq<char>) -> bool {
    exists|i: int| 0 <= i < refs.len() && (#[trigger] refs[i]).0 == id
}

pub open spec fn refs_view(refs: Seq<(String, i64)>) -> Seq<(Seq<char>, i64)> {
    refs.map_values(|r: (String, i64)| (r.0@, r.1))
}

fn all_references(posts: &Vec<Post>) -> (r: Vec<(String, i64)>)
    ensures
        refs_view(r@) == references(posts@),
{
    let mut out: Vec<(String, i64)> = Vec::new();
    let mut i: usize = 0;
    assert(refs_view(out@) =~= references(posts@.take(0)));
    while i < posts.len()
        invariant
            i <= posts@.len(),
            refs_view(out@) == references(posts@.take(i as int)),
        decreases posts@.len() - i,
    {
        let p = &posts[i];
        let ids = attachment_ids(p.attachments.as_str());
        let ghost start = refs_view(out@);
        let ghost here = listed_ids(p.attachments@).map_values(|id: Seq<char>| (id, p.id));
        let mut k: usize = 0;
        while k < ids.len()
            invariant
                k <= ids@.len(),
                views(ids@) == listed_ids(p.attachments@),
                here == listed_ids(p.attachments@).map_values(|id: Seq<char>| (id, p.id)),
                refs_view(out@) == start + here.take(k as int),
            decreases ids@.len() - k,
        {
            let ghost before = out@;
            let id = ids[k].clone();
            out.push((id, p.id));
            assert(views(ids@)[k as int] == ids@[k as int]@);
            assert(refs_view(out@) =~= refs_view(before).push((id@, p.id)));
            assert(refs_view(out@) =~= start + here.take(k + 1));
            k += 1;
        }
        proof {
            assert(here.take(k as int) =~= here);
            assert(posts@.take(i + 1).drop_last() =~= posts@.take(i as int));
            assert(posts@.take(i + 1).last() == *p);
        }
        i += 1;
    }
    assert(posts@.take(i as int) =~= posts@);
    out
}

fn keep_new(known: &Vec<String>, refs: Vec<(String, i64)>) -> (r: Vec<(String, i64)>)
    ensures
        refs_view(r@) == new_references(views(known@).to_set(), refs_view(refs@)),
{
    let ghost had = views(known@).to_set();
    let mut seen: StringHashMap<bool> = StringHashMap::new();
    let mut i: usize = 0;
    while i < known.len()
        invariant
            i <= known@.len(),
            forall|id: Seq<char>|
                #[trigger] seen@.contains_key(id) <==> views(known@).take(i as int).contains(id),
        decreases known@.len() - i,
    {
        let ghost before = seen@;
        seen.insert(known[i].clone(), true);
        proof {
            let now = views(known@).take(i + 1);
            let was = views(known@).take(i as int);
            assert(now =~= was.push(known@[i as int]@));
            assert forall|id: Seq<char>| #[trigger] seen@.contains_key(id) <==> now.contains(id) by {
                if was.contains(id) {
                    let j = choose|j: int| 0 <= j < was.len() && was[j] == id;
                    assert(now[j] == id);
                }
                if now.contains(id) {
                    let j = choose|j: int| 0 <= j < now.len() && now[j] == id;
                    if j < i {
                        assert(was[j] == id);
                    }
                }
                if id == known@[i as int]@ {
                    assert(now[i as int] == id);
                }
                assert(before.contains_key(id) <==> was.contains(id));
            }
        }
        i += 1;
    }
    assert(views(known@).take(i as int) =~= views(known@));
    let ghost all = refs_view(refs@);
    let mut out: Vec<(String, i64)> = Vec::new();
    let mut k: usize = 0;
    assert(refs_view(out@) =~= new_references(had, all.take(0)));
    while k < refs.len()
        invariant
            k <= refs@.len(),
            all == refs_view(refs@),
            refs_view(out@) == new_references(had, all.take(k as int)),
            forall|id: Seq<char>|
                #[trigger] seen@.contains_key(id) <==> (had.contains(id) || mentions(
                    refs_view(out@),
                    id,
                )),
        decreases refs@.len() - k,
    {
        let ghost before = refs_view(out@);
        let ghost was = seen@;
        let id = refs[k].0.clone();
        proof {
            assert(all.take(k + 1).drop_last() =~= all.take(k as int));
            assert(all.take(k + 1).last() == (id@, refs@[k as int].1));
        }
        if !seen.contains_key(id.as_str()) {
            seen.insert(id.clone(), true);
            out.push((id, refs[k].1));
            proof {
                let now = refs_view(out@);
                assert(now =~= before.push((id@, refs@[k as int].1)));
                assert forall|q: Seq<char>| #[trigger] seen@.contains_key(q) <==> (had.contains(q)
                    || mentions(now, q)) by {
                    assert(was.contains_key(q) <==> (had.contains(q) || mentions(before, q)));
                    if mentions(before, q) {
                        let j = choose|j: int| 0 <= j < before.len() && (#[trigger] before[j]).0 == q;
                        assert(now[j].0 == q);
                    }
                    if mentions(now, q) {
                        let j = choose|j: int| 0 <= j < now.len() && (#[trigger] now[j]).0 == q;
                        if j < before.len() {
                            assert(before[j].0 == q);
                        }
                    }
                    assert(now[before.len() as int].0 == id@);
                }
            }
        }
        k += 1;
    }
    assert(all.take(k as int) =~= all);
    out
}

/// What is written for a thread that was fetched.
#[derive(Debug)]
pub struct PostWrite {
    pub rows: Vec<Vec<Cell>>,
    /// Attachments to record, each with the post that refers to it.
    pub attachments: Vec<(String, i64)>,
    /// The new bookkeeping of the thread.
    pub mark: Watermark,
}

/// The bookkeeping of a thread scraped at `ts`.
pub open spec fn scraped(ts: i64, last_update: i64) -> Watermark {
    Watermark { scraped_at: Some(ts), scraped_last_update: Some(last_update) }
}

/// The rows to write for the posts of a thread fetched at `ts`. `files` are the
/// recordings already downloaded, `known` the attachments already recorded: a
/// re-scrape must not forget a file we already pulled down, nor touch a row
/// that was already fetched. Every untouched row that reads back from text at all
/// reads back from its column.
pub fn post_rows(
    posts: &Vec<Post>,
    files: &Vec<(i64, StoredFile)>,
    known: &Vec<String>,
    last_update: i64,
    ts: i64,
) -> (r: PostWrite)
    ensures
        r.rows@.len() == posts@.len(),
        forall|i: int|
            0 <= i < posts@.len() ==> row_view(#[trigger] r.rows@[i]@) == post_row(
                posts@[i],
                file_of(files@, posts@[i].id),
                ts,
            ),
        forall|i: int|
            0 <= i < posts@.len() ==> {
                let row = row_view(#[trigger] r.rows@[i]@);
                &&& row.len() == 21
                &&& row[0] == CellV::Int(posts@[i].id as int)
                &&& row[1] == CellV::Int(posts@[i].thread_id as int)
                &&& row[2] == CellV::Text(posts@[i].author@)
                &&& row[3] == CellV::Text(posts@[i].text@)
                &&& row[4] == CellV::Text(posts@[i].signature@)
                &&& row[5] == CellV::Int(posts@[i].date as int)
                &&& row[6] == CellV::Int(posts@[i].format as int)
                &&& row[7] == CellV::Int(posts@[i].likes as int)
                &&& row[8] == CellV::Int(if posts@[i].edited { 1 } else { 0 })
                &&& row[9] == CellV::Int(if posts@[i].locked { 1 } else { 0 })
                &&& row[10] == CellV::Text(posts@[i].transcription@)
                &&& row[11] == CellV::Text(posts@[i].polls@)
                &&& row[12] == CellV::Text(posts@[i].attachments@)
                &&& posts@[i].audio matches Some(a) ==> row[13] == CellV::Text(a.key@) && row[14]
                    == CellV::Text(a.url@) && row[15] == CellV::Text(a.content_type@)
                &&& row[20] == CellV::Int(ts as int)
            },
        forall|i: int|
            0 <= i < posts@.len() && storable(posts@[i].raw@) ==> json_parsed(
                row_view(#[trigger] r.rows@[i]@)[19]->Text_0,
            ) == Some(posts@[i].raw@),
        refs_view(r.attachments@) == new_references(
            views(known@).to_set(),
            references(posts@),
        ),
        r.mark == scraped(ts, last_update),
{
    let mut rows: Vec<Vec<Cell>> = Vec::new();
    let mut i: usize = 0;
    while i < posts.len()
        invariant
            i <= posts@.len(),
            rows@.len() == i,
            forall|j: int|
                0 <= j < i ==> row_view(#[trigger] rows@[j]@) == post_row(
                    posts@[j],
                    file_of(files@, posts@[j].id),
                    ts,
                ) && (storable(posts@[j].raw@) ==> json_parsed(row_view(rows@[j]@)[19]->Text_0)
                    == Some(posts@[j].raw@)),
        decreases posts@.len() - i,
    {
        let file = find_file(files, posts[i].id);
        rows.push(post_cells(&posts[i], &file, ts));
        i += 1;
    }
    let attachments = keep_new(known, all_references(posts));
    PostWrite {
        rows,
        attachments,
        mark: Watermark { scraped_at: Some(ts), scraped_last_update: Some(last_update) },
    }
}

fn find_file(files: &Vec<(i64, StoredFile)>, id: i64) -> (r: StoredFile)
    ensures
        r@ == file_of(files@, id),
{
    let mut i: usize = files.len();
    assert(files@.take(i as int) =~= files@);
    while i > 0
        invariant
            i <= files@.len(),
            file_of(files@, id) == file_of(files@.take(i as int), id),
        decreases i,
    {
        assert(files@.take(i as int).drop_last() =~= files@.take(i - 1));
        assert(files@.take(i as int).last() == files@[i - 1]);
        if files[i - 1].0 == id {
            let f = &files[i - 1].1;
            return StoredFile {
                path: copy_opt(&f.path),
                bytes: f.bytes,
                sha: copy_opt(&f.sha),
            };
        }
        i -= 1;
    }
    StoredFile { path: None, bytes: None, sha: None }
}

/// The recordings that stand in a table of posts after the rows of `posts` have
/// been written to it, each with the recording that [`post_rows`] gives it.
pub open spec fn files_after(
    table: Map<i64, (Option<Seq<char>>, Option<i64>, Option<Seq<char>>)>,
    files: Seq<(i64, StoredFile)>,
    posts: Seq<Post>,
) -> Map<i64, (Option<Seq<char>>, Option<i64>, Option<Seq<char>>)>
    decreases posts.len(),
{
    if posts.len() == 0 {
        table
    } else {
        files_after(table, files, posts.drop_last()).insert(
            posts.last().id,
            file_of(files, posts.last().id),
        )
    }
}

/// A re-scrape loses no post and forgets no recording, whatever the server now
/// says: every post that was stored still is, with the path, size and digest of
/// its recording. `files` has what the table holds for the posts written.
pub proof fn rescrape_keeps_recordings(
    table: Map<i64, (Option<Seq<char>>, Option<i64>, Option<Seq<char>>)>,
    files: Seq<(i64, StoredFile)>,
    posts: Seq<Post>,
)
    requires
        forall|i: int|
            0 <= i < posts.len() && table.contains_key((#[trigger] posts[i]).id) ==> file_of(
                files,
                posts[i].id,
            ) == table[posts[i].id],
    ensures
        forall|id: i64|
            table.contains_key(id) ==> #[trigger] files_after(table, files, posts).contains_key(id)
                && files_after(table, files, posts)[id] == table[id],
        forall|i: int|
            0 <= i < posts.len() ==> files_after(table, files, posts).contains_key(
                (#[trigger] posts[i]).id,
            ),
    decreases posts.len(),
{
    if posts.len() > 0 {
        let before = files_after(table, files, posts.drop_last());
        let after = files_after(table, files, posts);
        assert(posts[posts.len() - 1] == posts.last());
        assert forall|i: int|
            0 <= i < posts.drop_last().len() && table.contains_key(
                (#[trigger] posts.drop_last()[i]).id,
            ) implies file_of(files, posts.drop_last()[i].id) == table[posts.drop_last()[i].id] by {
            assert(posts.drop_last()[i] == posts[i]);
        }
        rescrape_keeps_recordings(table, files, posts.drop_last());
        assert forall|id: i64| table.contains_key(id) implies #[trigger] after.contains_key(id)
            && after[id] == table[id] by {
            assert(before.contains_key(id));
        }
        assert forall|i: int| 0 <= i < posts.len() implies after.contains_key(
            (#[trigger] posts[i]).id,
        ) by {
            if i < posts.len() - 1 {
                assert(posts.drop_last()[i] == posts[i]);
            }
        }
    }
}

/// Recording references again adds nothing: what is new to a database that
/// already has all of them is nothing.
pub proof fn known_attachments_stay_untouched(
    known: Set<Seq<char>>,
    refs: Seq<(Seq<char>, i64)>,
)
    ensures
        forall|i: int|
            0 <= i < new_references(known, refs).len() ==> !known.contains(
                (#[trigger] new_references(known, refs)[i]).0,
            ),
        (forall|i: int| 0 <= i < refs.len() ==> known.contains((#[trigger] refs[i]).0))
            ==> new_references(known, refs) == Seq::<(Seq<char>, i64)>::empty(),
        forall|i: int|
            0 <= i < refs.len() ==> known.contains((#[trigger] refs[i]).0) || mentions(
                new_references(known, refs),
                refs[i].0,
            ),
    decreases refs.len(),
{
    if refs.len() > 0 {
        let rest = refs.drop_last();
        known_attachments_stay_untouched(known, rest);
        let earlier = new_references(known, rest);
        let now = new_references(known, refs);
        assert(refs[refs.len() - 1] == refs.last());
        if forall|i: int| 0 <= i < refs.len() ==> known.contains((#[trigger] refs[i]).0) {
            assert forall|i: int| 0 <= i < rest.len() implies known.contains(
                (#[trigger] rest[i]).0,
            ) by {
                assert(rest[i] == refs[i]);
            }
        }
        assert forall|i: int| 0 <= i < refs.len() implies known.contains((#[trigger] refs[i]).0)
            || mentions(now, refs[i].0) by {
            if i < rest.len() {
                assert(rest[i] == refs[i]);
                if mentions(earlier, refs[i].0) {
                    let j = choose|j: int|
                        0 <= j < earlier.len() && (#[trigger] earlier[j]).0 == refs[i].0;
                    assert(now[j].0 == refs[i].0);
                }
            } else if !known.contains(refs.last().0) && !mentions(earlier, refs.last().0) {
                assert(now[earlier.len() as int].0 == refs.last().0);
            }
        }
        assert forall|i: int| 0 <= i < now.len() implies !known.contains((#[trigger] now[i]).0) by {
            if i < earlier.len() {
                assert(now[i] == earlier[i]);
            }
        }
    }
}

/// An audio file still to be fetched.
#[derive(Debug, Clone)]
pub struct AudioJob {
    pub post_id: i64,
    pub key: String,
    pub url: String,
    pub content_type: String,
}

/// What the database knows of a post's recording.
#[derive(Debug)]
pub struct AudioColumns {
    pub post_id: i64,
    pub key: Option<String>,
    pub url: Option<String>,
    pub content_type: Option<String>,
    pub path: Option<String>,
    pub bytes: Option<i64>,
}

/// Whether a column holds a text that is not empty.
pub open spec fn is_filled(s: Option<String>) -> bool {
    s matches Some(s) && s@.len() > 0
}

fn filled(s: &Option<String>) -> (r: bool)
    ensures
        r == is_filled(*s),
{
    match s {
        Some(s) => !s.as_str().is_empty(),
        None => false,
    }
}

/// The text of a column, empty if it is missing.
pub open spec fn column_text(s: Option<String>) -> Seq<char> {
    match s {
        Some(s) => s@,
        None => Seq::empty(),
    }
}

fn column(s: &Option<String>) -> (r: String)
    ensures
        r@ == column_text(*s),
{
    match s {
        Some(s) => s.clone(),
        None => String::new(),
    }
}

/// Whether a recording is known and not stored yet.
pub open spec fn audio_wanted(c: AudioColumns) -> bool {
    is_filled(c.url) && !is_filled(c.path)
}

impl AudioJob {
    /// The job of fetching a recording.
    pub open spec fn fetches(&self, c: AudioColumns) -> bool {
        &&& self.post_id == c.post_id
        &&& self.key@ == column_text(c.key)
        &&& self.url@ == column_text(c.url)
        &&& self.content_type@ == column_text(c.content_type)
    }
}

/// Whether `jobs` fetch the recordings of posts that are known and not stored yet.
pub open spec fn fetch_recordings(posts: Seq<AudioColumns>, jobs: Seq<AudioJob>) -> bool {
    let wanted = posts.filter(|c: AudioColumns| audio_wanted(c));
    jobs.len() == wanted.len() && forall|i: int|
        0 <= i < jobs.len() ==> (#[trigger] jobs[i]).fetches(wanted[i])
}

/// Audio referenced by scraped posts that we have not stored yet.
pub fn pending_audio(posts: &Vec<AudioColumns>) -> (r: Vec<AudioJob>)
    ensures
        r@.len() == posts@.filter(|c: AudioColumns| audio_wanted(c)).len(),
        forall|i: int|
            0 <= i < r@.len() ==> (#[trigger] r@[i]).fetches(
                posts@.filter(|c: AudioColumns| audio_wanted(c))[i],
            ),
        fetch_recordings(posts@, r@),
{
    let ghost wanted = |c: AudioColumns| audio_wanted(c);
    let mut jobs: Vec<AudioJob> = Vec::new();
    let mut i: usize = 0;
    assert(posts@.take(0).filter(wanted).len() == 0) by {
        reveal(Seq::filter);
    }
    while i < posts.len()
        invariant
            i <= posts@.len(),
            wanted == (|c: AudioColumns| audio_wanted(c)),
            jobs@.len() == posts@.take(i as int).filter(wanted).len(),
            forall|j: int|
                0 <= j < jobs@.len() ==> (#[trigger] jobs@[j]).fetches(
                    posts@.take(i as int).filter(wanted)[j],
                ),
        decreases posts@.len() - i,
    {
        let c = &posts[i];
        proof {
            assert(posts@.take(i + 1) =~= posts@.take(i as int).push(*c));
            posts@.take(i as int).lemma_filter_push(*c, wanted);
        }
        if filled(&c.url) && !filled(&c.path) {
            jobs.push(
                AudioJob {
                    post_id: c.post_id,
                    key: column(&c.key),
                    url: column(&c.url),
                    content_type: column(&c.content_type),
                },
            );
        }
        i += 1;
    }
    assert(posts@.take(i as int) =~= posts@);
    jobs
}

/// A recording that was stored under a path is not fetched again, and one that
/// was not is fetched by whichever run comes next.
pub proof fn recordings_are_fetched_until_stored(c: AudioColumns, stored: AudioColumns)
    requires
        is_filled(stored.path),
    ensures
        !audio_wanted(stored),
        is_filled(c.url) && c.path is None ==> audio_wanted(c),
{
}

// ---------------------------------------------------------------------------
// Attachments
// ---------------------------------------------------------------------------

#[derive(Debug, Clone, Default)]
pub struct AttachmentRecord {
    pub id: String,
    pub name: String,
    pub size: i64,
    pub uploader: String,
    pub uploadtime: i64,
    pub url: String,
    pub path: String,
    pub bytes: i64,
    pub sha: String,
}

/// What the database knows of an attachment.
#[derive(Debug)]
pub struct AttachmentColumns {
    pub id: String,
    pub post_id: Option<i64>,
    pub url: Option<String>,
    pub path: Option<String>,
}

/// What the server tells of an attachment.
#[derive(Debug, Clone)]
pub struct AttachmentInfo {
    pub id: String,
    pub name: String,
    pub size: i64,
    pub uploader: String,
    pub uploadtime: i64,
    pub url: String,
}

/// Whether nothing is recorded of an attachment but that it is referred to. What
/// the server tells always comes with a URL.
pub open spec fn is_undescribed(c: AttachmentColumns) -> bool {
    !is_filled(c.url)
}

/// Whether an attachment is not stored yet.
pub open spec fn attachment_wanted(c: AttachmentColumns) -> bool {
    !is_filled(c.path)
}

/// An attachment and the post that refers to it, 0 if that is unknown.
pub open spec fn attachment_job(c: AttachmentColumns) -> (Seq<char>, i64) {
    (
        c.id@,
        match c.post_id {
            Some(id) => id,
            None => 0i64,
        },
    )
}

/// The attachments that are not stored yet.
pub open spec fn missing_attachments(rows: Seq<AttachmentColumns>) -> Seq<(Seq<char>, i64)> {
    rows.filter(|c: AttachmentColumns| attachment_wanted(c)).map_values(
        |c: AttachmentColumns| attachment_job(c),
    )
}

/// The ids of the attachments that nothing is recorded of but that they are referred
/// to.
pub open spec fn unknown_attachments(rows: Seq<AttachmentColumns>) -> Seq<Seq<char>> {
    rows.filter(|c: AttachmentColumns| is_undescribed(c)).map_values(
        |c: AttachmentColumns| c.id@,
    )
}

/// Attachments referenced by scraped posts that we have not stored yet.
pub fn pending_attachments(rows: &Vec<AttachmentColumns>) -> (r: Vec<(String, i64)>)
    ensures
        refs_view(r@) == rows@.filter(|c: AttachmentColumns| attachment_wanted(c)).map_values(
            |c: AttachmentColumns| attachment_job(c),
        ),
        refs_view(r@) == missing_attachments(rows@),
{
    let ghost wanted = |c: AttachmentColumns| attachment_wanted(c);
    let ghost job = |c: AttachmentColumns| attachment_job(c);
    let mut out: Vec<(String, i64)> = Vec::new();
    let mut i: usize = 0;
    assert(refs_view(out@) =~= rows@.take(0).filter(wanted).map_values(job)) by {
        reveal(Seq::filter);
    }
    while i < rows.len()
        invariant
            i <= rows@.len(),
            wanted == (|c: AttachmentColumns| attachment_wanted(c)),
            job == (|c: AttachmentColumns| attachment_job(c)),
            refs_view(out@) == rows@.take(i as int).filter(wanted).map_values(job),
        decreases rows@.len() - i,
    {
        let c = &rows[i];
        let ghost before = out@;
        proof {
            assert(rows@.take(i + 1) =~= rows@.take(i as int).push(*c));
            rows@.take(i as int).lemma_filter_push(*c, wanted);
        }
        if !filled(&c.path) {
            let id = c.id.clone();
            let post: i64 = match c.post_id {
                Some(id) => id,
                None => 0,
            };
            out.push((id, post));
            assert(refs_view(out@) =~= refs_view(before).push((id@, post)));
            assert(rows@.take(i + 1).filter(wanted).map_values(job) =~= rows@.take(i as int).filter(
                wanted,
            ).map_values(job).push(attachment_job(*c)));
        }
        i += 1;
    }
    assert(rows@.take(i as int) =~= rows@);
    out
}

/// The ids of the attachments referenced by scraped posts that the server has not
/// been asked about yet.
pub fn undescribed_attachments(rows: &Vec<AttachmentColumns>) -> (r: Vec<String>)
    ensures
        views(r@) == rows@.filter(|c: AttachmentColumns| is_undescribed(c)).map_values(
            |c: AttachmentColumns| c.id@,
        ),
        views(r@) == unknown_attachments(rows@),
{
    let ghost wanted = |c: AttachmentColumns| is_undescribed(c);
    let ghost id_of = |c: AttachmentColumns| c.id@;
    let mut out: Vec<String> = Vec::new();
    let mut i: usize = 0;
    assert(views(out@) =~= rows@.take(0).filter(wanted).map_values(id_of)) by {
        reveal(Seq::filter);
    }
    while i < rows.len()
        invariant
            i <= rows@.len(),
            wanted == (|c: AttachmentColumns| is_undescribed(c)),
            id_of == (|c: AttachmentColumns| c.id@),
            views(out@) == rows@.take(i as int).filter(wanted).map_values(id_of),
        decreases rows@.len() - i,
    {
        let c = &rows[i];
        let ghost before = out@;
        proof {
            assert(rows@.take(i + 1) =~= rows@.take(i as int).push(*c));
            rows@.take(i as int).lemma_filter_push(*c, wanted);
        }
        if !filled(&c.url) {
            let id = c.id.clone();
            out.push(id);
            assert(views(out@) =~= views(before).push(id@));
            assert(rows@.take(i + 1).filter(wanted).map_values(id_of) =~= rows@.take(
                i as int,
            ).filter(wanted).map_values(id_of).push(c.id@));
        }
        i += 1;
    }
    assert(rows@.take(i as int) =~= rows@);
    out
}

/// Columns: name, size, uploader, uploadtime, url.
pub open spec fn attachment_info_row(a: AttachmentInfo) -> Seq<CellV> {
    seq![
        CellV::Text(a.name@),
        CellV::Int(a.size as int),
        CellV::Text(a.uploader@),
        CellV::Int(a.uploadtime as int),
        CellV::Text(a.url@),
    ]
}

/// The columns that describe an attachment. Those of its file are left alone.
pub fn attachment_info_cells(a: &AttachmentInfo) -> (r: Vec<Cell>)
    ensures
        row_view(r@) == attachment_info_row(*a),
{
    let r: Vec<Cell> =
        vec![
        text(&a.name),
        Cell::Int(a.size),
        text(&a.uploader),
        Cell::Int(a.uploadtime),
        text(&a.url),
    ];
    assert(row_view(r@) =~= attachment_info_row(*a));
    r
}

/// Switching downloads on later backfills: an attachment that was only referred
/// to is described and still to be fetched, and one that was described without
/// its file is not asked about again but still to be fetched.
pub proof fn described_attachments_are_fetched_later(
    referred: AttachmentColumns,
    described: AttachmentColumns,
)
    requires
        referred.url is None,
        referred.path is None,
        is_filled(described.url),
        described.path is None,
    ensures
        is_undescribed(referred) && attachment_wanted(referred),
        !is_undescribed(described) && attachment_wanted(described),
{
}

/// Columns: name, size, uploader, uploadtime, url, path, bytes, sha256,
/// fetched_at.
pub open spec fn attachment_row(a: AttachmentRecord, ts: i64) -> Seq<CellV> {
    seq![
        CellV::Text(a.name@),
        CellV::Int(a.size as int),
        CellV::Text(a.uploader@),
        CellV::Int(a.uploadtime as int),
        CellV::Text(a.url@),
        CellV::Text(a.path@),
        CellV::Int(a.bytes as int),
        CellV::Text(a.sha@),
        CellV::Int(ts as int),
    ]
}

/// The columns of an attachment fetched at `ts`.
pub fn attachment_cells(a: &AttachmentRecord, ts: i64) -> (r: Vec<Cell>)
    ensures
        row_view(r@) == attachment_row(*a, ts),
{
    let r: Vec<Cell> =
        vec![
        text(&a.name),
        Cell::Int(a.size),
        text(&a.uploader),
        Cell::Int(a.uploadtime),
        text(&a.url),
        text(&a.path),
        Cell::Int(a.bytes),
        text(&a.sha),
        Cell::Int(ts),
    ];
    assert(row_view(r@) =~= attachment_row(*a, ts));
    r
}

// ---------------------------------------------------------------------------
// Messages to the writer
// ---------------------------------------------------------------------------

/// Messages sent to the writer thread.
#[derive(Debug)]
pub enum DbOp {
    Posts { thread_id: i64, last_update: i64, posts: Vec<Post> },
    Audio { post_id: i64, path: String, bytes: i64, sha: String },
    Attachment(Box<AttachmentRecord>),
    AttachmentInfo(Box<AttachmentInfo>),
    Error { scope: String, ref_id: String, message: String },
}

// ---------------------------------------------------------------------------
// Time
// ---------------------------------------------------------------------------

/// The time stamp of rows written when the clock stands `since_epoch` seconds
/// after the epoch; 0 if it stands before.
pub fn now(since_epoch: Option<u64>) -> (r: i64)
    ensures
        r == match since_epoch {
            Some(secs) => secs as i64,
            None => 0i64,
        },
{
    match since_epoch {
        Some(secs) => secs as i64,
        None => 0,
    }
}

// ---------------------------------------------------------------------------
// Statistics
// ---------------------------------------------------------------------------

#[derive(Debug, Default, Clone)]
pub struct Stats {
    pub groups: i64,
    pub forums: i64,
    pub threads: i64,
    pub threads_scraped: i64,
    pub posts: i64,
    pub audio_posts: i64,
    pub audio_downloaded: i64,
    pub audio_bytes: i64,
    pub attachments: i64,
    pub attachments_downloaded: i64,
    pub errors: i64,
}

/// The sum of the recorded sizes; nothing if a running sum leaves the range of
/// `i64`.
pub open spec fn bytes_total(posts: Seq<AudioColumns>) -> Option<int>
    decreases posts.len(),
{
    if posts.len() == 0 {
        Some(0)
    } else {
        match (bytes_total(posts.drop_last()), posts.last().bytes) {
            (Some(sum), Some(n)) => if i64::MIN <= sum + n <= i64::MAX {
                Some(sum + n)
            } else {
                None
            },
            (sum, None) => sum,
            (None, _) => None,
        }
    }
}

/// Whether `s` counts the rows of a database.
pub open spec fn counts(
    marks: Seq<(i64, Watermark)>,
    posts: Seq<AudioColumns>,
    attachments: Seq<AttachmentColumns>,
    s: Stats,
) -> bool {
    &&& s.threads == marks.len()
    &&& s.threads_scraped == marks.filter(|m: (i64, Watermark)| m.1.scraped_at is Some).len()
    &&& s.posts == posts.len()
    &&& s.audio_posts == posts.filter(|c: AudioColumns| is_filled(c.url)).len()
    &&& s.audio_downloaded == posts.filter(|c: AudioColumns| is_filled(c.path)).len()
    &&& Some(s.audio_bytes as int) == bytes_total(posts)
    &&& s.attachments == attachments.len()
    &&& s.attachments_downloaded == attachments.filter(
        |c: AttachmentColumns| is_filled(c.path),
    ).len()
}

/// What the database holds, counted from its rows; nothing if the total size
/// cannot be represented.
pub fn stats(
    groups: i64,
    forums: i64,
    marks: &Vec<(i64, Watermark)>,
    posts: &Vec<AudioColumns>,
    attachments: &Vec<AttachmentColumns>,
    errors: i64,
) -> (r: Option<Stats>)
    requires
        marks@.len() <= i64::MAX,
        posts@.len() <= i64::MAX,
        attachments@.len() <= i64::MAX,
    ensures
        r is Some <==> bytes_total(posts@) is Some,
        r matches Some(s) ==> {
            &&& s.groups == groups
            &&& s.forums == forums
            &&& s.threads == marks@.len()
            &&& s.threads_scraped == marks@.filter(
                |m: (i64, Watermark)| m.1.scraped_at is Some,
            ).len()
            &&& s.posts == posts@.len()
            &&& s.audio_posts == posts@.filter(|c: AudioColumns| is_filled(c.url)).len()
            &&& s.audio_downloaded == posts@.filter(|c: AudioColumns| is_filled(c.path)).len()
            &&& Some(s.audio_bytes as int) == bytes_total(posts@)
            &&& s.attachments == attachments@.len()
            &&& s.attachments_downloaded == attachments@.filter(
                |c: AttachmentColumns| is_filled(c.path),
            ).len()
            &&& s.errors == errors
        },
        r matches Some(s) ==> counts(marks@, posts@, attachments@, s),
{
    let ghost is_scraped = |m: (i64, Watermark)| m.1.scraped_at is Some;
    let ghost has_url = |c: AudioColumns| is_filled(c.url);
    let ghost has_path = |c: AudioColumns| is_filled(c.path);
    let ghost is_stored = |c: AttachmentColumns| is_filled(c.path);
    proof {
        reveal(Seq::filter);
    }
    let mut threads_scraped: i64 = 0;
    let mut i: usize = 0;
    while i < marks.len()
        invariant
            i <= marks@.len() <= i64::MAX,
            is_scraped == (|m: (i64, Watermark)| m.1.scraped_at is Some),
            threads_scraped == marks@.take(i as int).filter(is_scraped).len(),
            0 <= threads_scraped <= i,
        decreases marks@.len() - i,
    {
        proof {
            assert(marks@.take(i + 1) =~= marks@.take(i as int).push(marks@[i as int]));
            marks@.take(i as int).lemma_filter_push(marks@[i as int], is_scraped);
        }
        let m = marks[i];
        if m.1.scraped_at.is_some() {
            threads_scraped += 1;
        }
        i += 1;
    }
    assert(marks@.take(i as int) =~= marks@);
    let mut audio_posts: i64 = 0;
    let mut audio_downloaded: i64 = 0;
    let mut audio_bytes: i64 = 0;
    let mut overflowed = false;
    let mut i: usize = 0;
    while i < posts.len()
        invariant
            i <= posts@.len() <= i64::MAX,
            has_url == (|c: AudioColumns| is_filled(c.url)),
            has_path == (|c: AudioColumns| is_filled(c.path)),
            audio_posts == posts@.take(i as int).filter(has_url).len(),
            0 <= audio_posts <= i,
            audio_downloaded == posts@.take(i as int).filter(has_path).len(),
            0 <= audio_downloaded <= i,
            bytes_total(posts@.take(i as int)) == if overflowed {
                None
            } else {
                Some(audio_bytes as int)
            },
        decreases posts@.len() - i,
    {
        let c = &posts[i];
        proof {
            assert(posts@.take(i + 1) =~= posts@.take(i as int).push(*c));
            assert(posts@.take(i + 1).drop_last() =~= posts@.take(i as int));
            posts@.take(i as int).lemma_filter_push(*c, has_url);
            posts@.take(i as int).lemma_filter_push(*c, has_path);
        }
        if filled(&c.url) {
            audio_posts += 1;
        }
        if filled(&c.path) {
            audio_downloaded += 1;
        }
        if let Some(n) = c.bytes {
            match audio_bytes.checked_add(n) {
                Some(sum) => {
                    audio_bytes = sum;
                },
                None => {
                    overflowed = true;
                },
            }
        }
        i += 1;
    }
    assert(posts@.take(i as int) =~= posts@);
    let mut attachments_downloaded: i64 = 0;
    let mut i: usize = 0;
    while i < attachments.len()
        invariant
            i <= attachments@.len() <= i64::MAX,
            is_stored == (|c: AttachmentColumns| is_filled(c.path)),
            attachments_downloaded == attachments@.take(i as int).filter(is_stored).len(),
            0 <= attachments_downloaded <= i,
        decreases attachments@.len() - i,
    {
        let c = &attachments[i];
        proof {
            assert(attachments@.take(i + 1) =~= attachments@.take(i as int).push(*c));
            attachments@.take(i as int).lemma_filter_push(*c, is_stored);
        }
        if filled(&c.path) {
            attachments_downloaded += 1;
        }
        i += 1;
    }
    assert(attachments@.take(i as int) =~= attachments@);
    if overflowed {
        return None;
    }
    Some(
        Stats {
            groups,
            forums,
            threads: marks.len() as i64,
            threads_scraped,
            posts: posts.len() as i64,
            audio_posts,
            audio_downloaded,
            audio_bytes,
            attachments: attachments.len() as i64,
            attachments_downloaded,
            errors,
        },
    )
}

// ---------------------------------------------------------------------------
// Export
// ---------------------------------------------------------------------------

/// A post as it is exported.
#[derive(Debug)]
pub struct PostExport {
    pub id: i64,
    pub author: String,
    pub text: String,
    pub transcription: String,
    pub date: i64,
    pub likes: i64,
    pub audio_url: Option<String>,
    pub audio_path: Option<String>,
}

/// A thread as it is exported, with its posts.
#[derive(Debug)]
pub struct ThreadExport {
    pub id: i64,
    pub name: String,
    pub author: String,
    pub last_update: i64,
    pub posts: Vec<PostExport>,
}

pub open spec fn optional_text_json(s: Option<String>) -> JsonV {
    match s {
        Some(s) => JsonV::Str(s@),
        None => JsonV::Null,
    }
}

pub open spec fn exported_post(p: PostExport) -> JsonV {
    JsonV::Object(
        map![
            "id"@ => JsonV::Int(p.id as int),
            "author"@ => JsonV::Str(p.author@),
            "text"@ => JsonV::Str(p.text@),
            "transcription"@ => JsonV::Str(p.transcription@),
            "date"@ => JsonV::Int(p.date as int),
            "likes"@ => JsonV::Int(p.likes as int),
            "audio_url"@ => optional_text_json(p.audio_url),
            "audio_path"@ => optional_text_json(p.audio_path),
        ],
    )
}

pub open spec fn post_ids(posts: Seq<PostExport>) -> Seq<i64> {
    posts.map_values(|p: PostExport| p.id)
}

/// The posts of a thread, by id.
pub open spec fn exported_posts(posts: Seq<PostExport>) -> Seq<JsonV> {
    the_order(post_ids(posts), Direction::Ascending).map_values(
        |i: usize| exported_post(posts[i as int]),
    )
}

pub open spec fn exported_thread(t: ThreadExport) -> JsonV {
    JsonV::Object(
        map![
            "id"@ => JsonV::Int(t.id as int),
            "name"@ => JsonV::Str(t.name@),
            "author"@ => JsonV::Str(t.author@),
            "last_update"@ => JsonV::Int(t.last_update as int),
            "posts"@ => JsonV::Array(exported_posts(t.posts@)),
        ],
    )
}

/// One forum with its threads and posts. `raw` is the untouched row of the
/// forum; a forum that is not stored, or whose row is not JSON, is null.
pub open spec fn exported_forum(
    forum_id: i64,
    raw: Option<Seq<char>>,
    threads: Seq<ThreadExport>,
) -> JsonV {
    JsonV::Object(
        map![
            "forum_id"@ => JsonV::Int(forum_id as int),
            "forum"@ => match raw {
                Some(text) => match json_parsed(text) {
                    Some(v) => v,
                    None => JsonV::Null,
                },
                None => JsonV::Null,
            },
            "threads"@ => JsonV::Array(threads.map_values(|t: ThreadExport| exported_thread(t))),
        ],
    )
}

fn member(o: &mut JsonObject, key: &str, value: Json)
    ensures
        final(o)@ == old(o)@.insert(key@, value@),
{
    o.insert(String::from_str(key), value);
}

fn optional_json(s: &Option<String>) -> (r: Json)
    ensures
        r@ == optional_text_json(*s),
{
    match s {
        Some(s) => Json::Str(s.clone()),
        None => Json::Null,
    }
}

fn post_json(p: &PostExport) -> (r: Json)
    ensures
        r@ == exported_post(*p),
{
    let mut o = JsonObject::new();
    member(&mut o, "id", Json::Int(p.id));
    member(&mut o, "author", Json::Str(p.author.clone()));
    member(&mut o, "text", Json::Str(p.text.clone()));
    member(&mut o, "transcription", Json::Str(p.transcription.clone()));
    member(&mut o, "date", Json::Int(p.date));
    member(&mut o, "likes", Json::Int(p.likes));
    member(&mut o, "audio_url", optional_json(&p.audio_url));
    member(&mut o, "audio_path", optional_json(&p.audio_path));
    Json::Object(o)
}

fn thread_json(t: &ThreadExport) -> (r: Json)
    ensures
        r@ == exported_thread(*t),
{
    broadcast use Json::lemma_array_view;

    let mut ids: Vec<i64> = Vec::new();
    let mut i: usize = 0;
    while i < t.posts.len()
        invariant
            i <= t.posts@.len(),
            ids@ == post_ids(t.posts@).take(i as int),
        decreases t.posts@.len() - i,
    {
        ids.push(t.posts[i].id);
        i += 1;
        assert(ids@ =~= post_ids(t.posts@).take(i as int));
    }
    assert(ids@ =~= post_ids(t.posts@));
    let order = order_by(&ids, Direction::Ascending);
    let mut posts: Vec<Json> = Vec::new();
    let mut i: usize = 0;
    while i < order.len()
        invariant
            i <= order@.len(),
            is_order(post_ids(t.posts@), Direction::Ascending, order@),
            order@ == the_order(post_ids(t.posts@), Direction::Ascending),
            posts@.len() == i,
            forall|j: int|
                0 <= j < i ==> (#[trigger] posts@[j])@ == exported_post(
                    t.posts@[order@[j] as int],
                ),
        decreases order@.len() - i,
    {
        posts.push(post_json(&t.posts[order[i]]));
        i += 1;
    }
    assert(json_views(posts@) =~= exported_posts(t.posts@));
    let mut o = JsonObject::new();
    member(&mut o, "id", Json::Int(t.id));
    member(&mut o, "name", Json::Str(t.name.clone()));
    member(&mut o, "author", Json::Str(t.author.clone()));
    member(&mut o, "last_update", Json::Int(t.last_update));
    member(&mut o, "posts", Json::Array(posts));
    Json::Object(o)
}

/// Dump one forum (with its threads and posts) as JSON.
pub fn export_forum(
    forum_id: i64,
    raw: &Option<String>,
    threads: &Vec<ThreadExport>,
) -> (r: Json)
    ensures
        r@ == exported_forum(forum_id, opt_text(*raw), threads@),
{
    broadcast use Json::lemma_array_view;

    let forum = match raw {
        Some(raw) => match Json::parse(raw.as_str()) {
            Ok(v) => v,
            Err(_) => Json::Null,
        },
        None => Json::Null,
    };
    let mut list: Vec<Json> = Vec::new();
    let mut i: usize = 0;
    while i < threads.len()
        invariant
            i <= threads@.len(),
            list@.len() == i,
            forall|j: int| 0 <= j < i ==> (#[trigger] list@[j])@ == exported_thread(threads@[j]),
        decreases threads@.len() - i,
    {
        list.push(thread_json(&threads[i]));
        i += 1;
    }
    assert(json_views(list@) =~= threads@.map_values(|t: ThreadExport| exported_thread(t)));
    let mut o = JsonObject::new();
    member(&mut o, "forum_id", Json::Int(forum_id));
    member(&mut o, "forum", forum);
    member(&mut o, "threads", Json::Array(list));
    Json::Object(o)
}

/// An export loses no post of a thread, and lists them by id.
pub proof fn export_lists_every_post_by_id(posts: Seq<PostExport>)
    requires
        posts.len() <= usize::MAX,
    ensures
        exported_posts(posts).len() == posts.len(),
        forall|k: int|
            0 <= k < posts.len() ==> exported_posts(posts).contains(
                exported_post(#[trigger] posts[k]),
            ),
        forall|i: int, j: int|
            0 <= i < j < posts.len() ==> int_field(#[trigger] exported_posts(posts)[i], "id"@)
                <= int_field(#[trigger] exported_posts(posts)[j], "id"@),
{
    let keys = post_ids(posts);
    let order = the_order(keys, Direction::Ascending);
    order_exists(keys, Direction::Ascending);
    order_lists_every_item_once(keys, Direction::Ascending, order);
    let out = exported_posts(posts);
    assert forall|k: int| 0 <= k < posts.len() implies out.contains(
        exported_post(#[trigger] posts[k]),
    ) by {
        assert(lists(order, k));
        let i = choose|i: int| 0 <= i < order.len() && order[i] == k;
        assert(out[i] == exported_post(posts[k]));
    }
    assert forall|i: int, j: int| 0 <= i < j < posts.len() implies int_field(
        #[trigger] out[i],
        "id"@,
    ) <= int_field(#[trigger] out[j], "id"@) by {
        assert(precedes(keys, Direction::Ascending, order[i] as int, order[j] as int));
        assert(keys[order[i] as int] == posts[order[i] as int].id);
        assert(keys[order[j] as int] == posts[order[j] as int].id);
        lemma_exported_id(posts[order[i] as int]);
        lemma_exported_id(posts[order[j] as int]);
    }
}

proof fn lemma_exported_id(p: PostExport)
    ensures
        int_field(exported_post(p), "id"@) == p.id,
{
    reveal_strlit("id");
    reveal_strlit("author");
    reveal_strlit("text");
    reveal_strlit("transcription");
    reveal_strlit("date");
    reveal_strlit("likes");
    reveal_strlit("audio_url");
    reveal_strlit("audio_path");
    assert("id"@.len() == 2 && "author"@.len() == 6 && "text"@.len() == 4 && "transcription"@.len()
        == 13 && "date"@.len() == 4 && "likes"@.len() == 5 && "audio_url"@.len() == 9
        && "audio_path"@.len() == 10);
}

// ---------------------------------------------------------------------------
// What holds of the database
// ---------------------------------------------------------------------------

/// Each column of a stored group holds the field of the group that it is named
/// after.
pub proof fn group_columns_hold_their_fields(
    rows: CatalogRows,
    structure: Structure,
    marks: Seq<(i64, Watermark)>,
    ts: i64,
    i: int,
)
    requires
        rows.stores(structure, marks, ts),
        0 <= i < structure.groups@.len(),
    ensures
        rows.groups@.len() == structure.groups@.len(),
        row_view(rows.groups@[i]@).len() == 18,
        row_view(rows.groups@[i]@)[0] == CellV::Int(structure.groups@[i].id as int),
        row_view(rows.groups@[i]@)[1] == CellV::Text(structure.groups@[i].name@),
        row_view(rows.groups@[i]@)[2] == CellV::Text(structure.groups@[i].founder@),
        row_view(rows.groups@[i]@)[3] == CellV::Text(structure.groups@[i].description@),
        row_view(rows.groups@[i]@)[4] == CellV::Text(structure.groups@[i].lang@),
        row_view(rows.groups@[i]@)[5] == CellV::Int(if structure.groups@[i].public { 1 } else { 0 }),
        row_view(rows.groups@[i]@)[6] == CellV::Int(if structure.groups@[i].open { 1 } else { 0 }),
        row_view(rows.groups@[i]@)[7] == CellV::Int(if structure.groups@[i].hidden { 1 } else { 0 }),
        row_view(rows.groups@[i]@)[8] == CellV::Int(if structure.groups@[i].recommended { 1 } else { 0 }),
        row_view(rows.groups@[i]@)[9] == CellV::Int(structure.groups@[i].parent as int),
        row_view(rows.groups@[i]@)[10] == CellV::Int(structure.groups@[i].created as int),
        row_view(rows.groups@[i]@)[11] == CellV::Int(structure.groups@[i].forums as int),
        row_view(rows.groups@[i]@)[12] == CellV::Int(structure.groups@[i].threads as int),
        row_view(rows.groups@[i]@)[13] == CellV::Int(structure.groups@[i].posts as int),
        row_view(rows.groups@[i]@)[14] == CellV::Int(structure.groups@[i].members as int),
        row_view(rows.groups@[i]@)[15] == CellV::Int(structure.groups@[i].audio_limit as int),
        row_view(rows.groups@[i]@)[17] == CellV::Int(ts as int),
{
    assert(row_view(rows.groups@[i]@) == group_row(structure.groups@[i], ts));
}

/// Each column of a stored forum holds the field of the forum that it is named
/// after.
pub proof fn forum_columns_hold_their_fields(
    rows: CatalogRows,
    structure: Structure,
    marks: Seq<(i64, Watermark)>,
    ts: i64,
    i: int,
)
    requires
        rows.stores(structure, marks, ts),
        0 <= i < structure.forums@.len(),
    ensures
        rows.forums@.len() == structure.forums@.len(),
        row_view(rows.forums@[i]@).len() == 12,
        row_view(rows.forums@[i]@)[0] == CellV::Int(structure.forums@[i].id as int),
        row_view(rows.forums@[i]@)[1] == CellV::Text(structure.forums@[i].ident@),
        row_view(rows.forums@[i]@)[2] == CellV::Text(structure.forums@[i].name@),
        row_view(rows.forums@[i]@)[3] == CellV::Int(structure.forums@[i].kind as int),
        row_view(rows.forums@[i]@)[4] == CellV::Int(structure.forums@[i].group_id as int),
        row_view(rows.forums@[i]@)[5] == CellV::Text(structure.forums@[i].description@),
        row_view(rows.forums@[i]@)[6] == CellV::Int(if structure.forums@[i].closed { 1 } else { 0 }),
        row_view(rows.forums@[i]@)[7] == CellV::Int(structure.forums@[i].threads as int),
        row_view(rows.forums@[i]@)[8] == CellV::Int(structure.forums@[i].posts as int),
        row_view(rows.forums@[i]@)[9] == CellV::Int(structure.forums@[i].position as int),
        row_view(rows.forums@[i]@)[11] == CellV::Int(ts as int),
{
    assert(row_view(rows.forums@[i]@) == forum_row(structure.forums@[i], ts));
}

/// Each column of a stored thread holds the field of the thread that it is named
/// after, and the last two the bookkeeping that was stored of the thread, or none if
/// there was none.
pub proof fn thread_columns_hold_their_fields(
    rows: CatalogRows,
    structure: Structure,
    marks: Seq<(i64, Watermark)>,
    ts: i64,
    i: int,
    m: int,
)
    requires
        rows.stores(structure, marks, ts),
        0 <= i < structure.threads@.len(),
    ensures
        rows.threads@.len() == structure.threads@.len(),
        row_view(rows.threads@[i]@).len() == 12,
        row_view(rows.threads@[i]@)[0] == CellV::Int(structure.threads@[i].id as int),
        row_view(rows.threads@[i]@)[1] == CellV::Text(structure.threads@[i].name@),
        row_view(rows.threads@[i]@)[2] == CellV::Text(structure.threads@[i].author@),
        row_view(rows.threads@[i]@)[3] == CellV::Int(structure.threads@[i].forum_id as int),
        row_view(rows.threads@[i]@)[4] == CellV::Int(if structure.threads@[i].pinned { 1 } else { 0 }),
        row_view(rows.threads@[i]@)[5] == CellV::Int(if structure.threads@[i].closed { 1 } else { 0 }),
        row_view(rows.threads@[i]@)[6] == CellV::Int(structure.threads@[i].last_update as int),
        row_view(rows.threads@[i]@)[7] == CellV::Int(structure.threads@[i].posts as int),
        row_view(rows.threads@[i]@)[9] == CellV::Int(ts as int),
        0 <= m < marks.len() && marks[m].0 == structure.threads@[i].id && (forall|k: int|
            m < k < marks.len() ==> (#[trigger] marks[k]).0 != structure.threads@[i].id) ==> {
            &&& row_view(rows.threads@[i]@)[10] == (match marks[m].1.scraped_at {
                Some(n) => CellV::Int(n as int),
                None => CellV::Missing,
            })
            &&& row_view(rows.threads@[i]@)[11] == (match marks[m].1.scraped_last_update {
                Some(n) => CellV::Int(n as int),
                None => CellV::Missing,
            })
        },
        (forall|k: int|
            0 <= k < marks.len() ==> (#[trigger] marks[k]).0 != structure.threads@[i].id)
            ==> row_view(rows.threads@[i]@)[10] == CellV::Missing && row_view(
            rows.threads@[i]@,
        )[11] == CellV::Missing,
{
    let id = structure.threads@[i].id;
    assert(row_view(rows.threads@[i]@) == thread_row(
        structure.threads@[i],
        mark_of(marks, id),
        ts,
    ));
    if 0 <= m < marks.len() && marks[m].0 == id && forall|k: int|
        m < k < marks.len() ==> (#[trigger] marks[k]).0 != id {
        lemma_last_mark_of(marks, id, m);
    }
    if forall|k: int| 0 <= k < marks.len() ==> (#[trigger] marks[k]).0 != id {
        lemma_mark_missing(marks, id);
    }
}

proof fn lemma_last_mark_of(marks: Seq<(i64, Watermark)>, id: i64, m: int)
    requires
        0 <= m < marks.len(),
        marks[m].0 == id,
        forall|k: int| m < k < marks.len() ==> (#[trigger] marks[k]).0 != id,
    ensures
        mark_of(marks, id) == marks[m].1,
    decreases marks.len(),
{
    if m < marks.len() - 1 {
        assert(marks[marks.len() - 1].0 != id);
        assert forall|k: int| m < k < marks.drop_last().len() implies (
        #[trigger] marks.drop_last()[k]).0 != id by {
            assert(marks.drop_last()[k] == marks[k]);
        }
        lemma_last_mark_of(marks.drop_last(), id, m);
    }
}

/// Each column of a stored post holds the field of the post that it is named after;
/// those of the recording are empty without one, and those of its file hold what is
/// stored of the file.
pub proof fn post_columns_hold_their_fields(
    p: Post,
    file: (Option<Seq<char>>, Option<i64>, Option<Seq<char>>),
    ts: i64,
)
    ensures
        post_row(p, file, ts).len() == 21,
        post_row(p, file, ts)[0] == CellV::Int(p.id as int),
        post_row(p, file, ts)[1] == CellV::Int(p.thread_id as int),
        post_row(p, file, ts)[2] == CellV::Text(p.author@),
        post_row(p, file, ts)[3] == CellV::Text(p.text@),
        post_row(p, file, ts)[4] == CellV::Text(p.signature@),
        post_row(p, file, ts)[5] == CellV::Int(p.date as int),
        post_row(p, file, ts)[6] == CellV::Int(p.format as int),
        post_row(p, file, ts)[7] == CellV::Int(p.likes as int),
        post_row(p, file, ts)[8] == CellV::Int(if p.edited { 1 } else { 0 }),
        post_row(p, file, ts)[9] == CellV::Int(if p.locked { 1 } else { 0 }),
        post_row(p, file, ts)[10] == CellV::Text(p.transcription@),
        post_row(p, file, ts)[11] == CellV::Text(p.polls@),
        post_row(p, file, ts)[12] == CellV::Text(p.attachments@),
        p.audio matches Some(a) ==> post_row(p, file, ts)[13] == CellV::Text(a.key@) && post_row(
            p,
            file,
            ts,
        )[14] == CellV::Text(a.url@) && post_row(p, file, ts)[15] == CellV::Text(a.content_type@),
        p.audio is None ==> forall|k: int|
            13 <= k < 16 ==> (#[trigger] post_row(p, file, ts)[k] matches CellV::Text(s) && s.len()
                == 0),
        post_row(p, file, ts)[16] == (match file.0 {
            Some(path) => CellV::Text(path),
            None => CellV::Missing,
        }),
        post_row(p, file, ts)[17] == (match file.1 {
            Some(bytes) => CellV::Int(bytes as int),
            None => CellV::Missing,
        }),
        post_row(p, file, ts)[18] == (match file.2 {
            Some(sha) => CellV::Text(sha),
            None => CellV::Missing,
        }),
        post_row(p, file, ts)[20] == CellV::Int(ts as int),
{
}

/// The file of a post is the one that is stored under its id, and none if there is
/// none; of several the last one counts.
pub proof fn files_belong_to_their_post(files: Seq<(i64, StoredFile)>, id: i64, m: int)
    ensures
        0 <= m < files.len() && files[m].0 == id && (forall|k: int|
            m < k < files.len() ==> (#[trigger] files[k]).0 != id) ==> file_of(files, id) == (
        opt_text(files[m].1.path), files[m].1.bytes, opt_text(files[m].1.sha)),
        (forall|k: int| 0 <= k < files.len() ==> (#[trigger] files[k]).0 != id) ==> file_of(
            files,
            id,
        ) == (None::<Seq<char>>, None::<i64>, None::<Seq<char>>),
    decreases files.len(),
{
    if files.len() > 0 {
        let fewer = files.drop_last();
        files_belong_to_their_post(fewer, id, m);
        assert(files[files.len() - 1] == files.last());
        assert forall|k: int| 0 <= k < fewer.len() implies #[trigger] fewer[k] == files[k] by {}
        if 0 <= m < files.len() - 1 && files[m].0 == id && forall|k: int|
            m < k < files.len() ==> (#[trigger] files[k]).0 != id {
            assert(files[files.len() - 1].0 != id);
            assert(fewer[m] == files[m]);
            assert forall|k: int| m < k < fewer.len() implies (#[trigger] fewer[k]).0 != id by {
                assert(fewer[k] == files[k]);
            }
        }
        if forall|k: int| 0 <= k < files.len() ==> (#[trigger] files[k]).0 != id {
            assert(files[files.len() - 1].0 != id);
            assert forall|k: int| 0 <= k < fewer.len() implies (#[trigger] fewer[k]).0 != id by {
                assert(fewer[k] == files[k]);
            }
        }
    }
}

/// Each column of a stored attachment holds the field that it is named after,
/// whether its file was fetched or not.
pub proof fn attachment_columns_hold_their_fields(a: AttachmentRecord, b: AttachmentInfo, ts: i64)
    ensures
        attachment_row(a, ts).len() == 9,
        attachment_row(a, ts)[0] == CellV::Text(a.name@),
        attachment_row(a, ts)[1] == CellV::Int(a.size as int),
        attachment_row(a, ts)[2] == CellV::Text(a.uploader@),
        attachment_row(a, ts)[3] == CellV::Int(a.uploadtime as int),
        attachment_row(a, ts)[4] == CellV::Text(a.url@),
        attachment_row(a, ts)[5] == CellV::Text(a.path@),
        attachment_row(a, ts)[6] == CellV::Int(a.bytes as int),
        attachment_row(a, ts)[7] == CellV::Text(a.sha@),
        attachment_row(a, ts)[8] == CellV::Int(ts as int),
        attachment_info_row(b).len() == 5,
        attachment_info_row(b)[0] == CellV::Text(b.name@),
        attachment_info_row(b)[1] == CellV::Int(b.size as int),
        attachment_info_row(b)[2] == CellV::Text(b.uploader@),
        attachment_info_row(b)[3] == CellV::Int(b.uploadtime as int),
        attachment_info_row(b)[4] == CellV::Text(b.url@),
{
}

/// Stored rows are read back one by one, in order: each that is JSON as what it
/// says, and each that is missing or not JSON not at all.
pub proof fn rows_are_read_back_one_by_one(
    a: Seq<Option<Seq<char>>>,
    b: Seq<Option<Seq<char>>>,
    text: Seq<char>,
    v: JsonV,
)
    ensures
        readable(a + b) == readable(a) + readable(b),
        json_parsed(text) == Some(v) ==> readable(seq![Some(text)]) == seq![v],
        json_parsed(text) is None ==> readable(seq![Some(text)]).len() == 0,
        readable(seq![None]).len() == 0,
{
    lemma_readable_adds_up(a, b);
    reveal_with_fuel(readable, 2);
    assert(seq![Some(text)].drop_last() =~= Seq::empty());
    assert(seq![None::<Seq<char>>].drop_last() =~= Seq::empty());
    if json_parsed(text) == Some(v) {
        assert(readable(seq![Some(text)]) =~= seq![v]);
    }
}

proof fn lemma_readable_adds_up(a: Seq<Option<Seq<char>>>, b: Seq<Option<Seq<char>>>)
    ensures
        readable(a + b) == readable(a) + readable(b),
    decreases b.len(),
{
    if b.len() == 0 {
        assert(a + b =~= a);
        assert(readable(a) + readable(b) =~= readable(a));
    } else {
        assert((a + b).drop_last() =~= a + b.drop_last());
        lemma_readable_adds_up(a, b.drop_last());
        assert(readable(a + b) =~= readable(a) + readable(b));
    }
}

/// Watermarks are those of the threads that were scraped, in order: each with the
/// `last_update` it had then, or -1 if that is not known.
pub proof fn watermarks_are_those_of_scraped_threads(
    a: Seq<(i64, Watermark)>,
    b: Seq<(i64, Watermark)>,
    id: i64,
    at: i64,
    last_update: i64,
)
    ensures
        scraped_marks(a + b) == scraped_marks(a) + scraped_marks(b),
        scraped_marks(
            seq![
                (
                    id,
                    Watermark { scraped_at: Some(at), scraped_last_update: Some(last_update) },
                ),
            ],
        ) == seq![(id, last_update)],
        scraped_marks(
            seq![(id, Watermark { scraped_at: Some(at), scraped_last_update: None })],
        ) == seq![(id, -1i64)],
        scraped_marks(
            seq![(id, Watermark { scraped_at: None, scraped_last_update: Some(last_update) })],
        ).len() == 0,
        scraped_marks(
            seq![(id, Watermark { scraped_at: None, scraped_last_update: None })],
        ).len() == 0,
{
    lemma_marks_add_up(a, b);
    lemma_one_mark(id, Watermark { scraped_at: Some(at), scraped_last_update: Some(last_update) });
    lemma_one_mark(id, Watermark { scraped_at: Some(at), scraped_last_update: None });
    lemma_one_mark(id, Watermark { scraped_at: None, scraped_last_update: Some(last_update) });
    lemma_one_mark(id, Watermark { scraped_at: None, scraped_last_update: None });
}

proof fn lemma_one_mark(id: i64, mark: Watermark)
    ensures
        scraped_marks(seq![(id, mark)]) == (if mark.scraped_at is Some {
            seq![
                (
                    id,
                    match mark.scraped_last_update {
                        Some(n) => n,
                        None => -1i64,
                    },
                ),
            ]
        } else {
            Seq::empty()
        }),
{
    let one = seq![(id, mark)];
    assert(one.drop_last() =~= Seq::empty());
    assert(one.last() == (id, mark));
    reveal_with_fuel(scraped_marks, 2);
    assert(scraped_marks(one) =~= (if mark.scraped_at is Some {
        seq![
            (
                id,
                match mark.scraped_last_update {
                    Some(n) => n,
                    None => -1i64,
                },
            ),
        ]
    } else {
        Seq::empty()
    }));
}

proof fn lemma_marks_add_up(a: Seq<(i64, Watermark)>, b: Seq<(i64, Watermark)>)
    ensures
        scraped_marks(a + b) == scraped_marks(a) + scraped_marks(b),
    decreases b.len(),
{
    if b.len() == 0 {
        assert(a + b =~= a);
        assert(scraped_marks(a) + scraped_marks(b) =~= scraped_marks(a));
    } else {
        assert((a + b).drop_last() =~= a + b.drop_last());
        lemma_marks_add_up(a, b.drop_last());
        assert(scraped_marks(a + b) =~= scraped_marks(a) + scraped_marks(b));
    }
}

/// A list of attachments is what stands between its commas, without white space
/// around it and without what is then empty.
pub proof fn attachment_lists_are_split_at_commas(a: Seq<char>, b: Seq<char>)
    ensures
        listed_ids(a + seq![','] + b) == listed_ids(a) + listed_ids(b),
        !a.contains(',') && trimmed(a).len() > 0 ==> listed_ids(a) == seq![trimmed(a)],
        !a.contains(',') && trimmed(a).len() == 0 ==> listed_ids(a).len() == 0,
{
    let trim_each = |s: Seq<char>| trimmed(s);
    let keep = |s: Seq<char>| s.len() > 0;
    splitting_undoes_joining(a, b, ',', ',', ',');
    let (p, q) = (pieces(a, ',', ','), pieces(b, ',', ','));
    assert((p + q).map_values(trim_each) =~= p.map_values(trim_each) + q.map_values(trim_each));
    Seq::filter_distributes_over_add(p.map_values(trim_each), q.map_values(trim_each), keep);
    if !a.contains(',') {
        let one = p.map_values(trim_each);
        assert(one =~= seq![trimmed(a)]);
        assert(one.drop_last() =~= Seq::empty());
        reveal_with_fuel(Seq::filter, 2);
        if trimmed(a).len() > 0 {
            assert(one.filter(keep) =~= seq![trimmed(a)]);
        }
    }
}

/// The references of posts are those of each post, in order, and a post refers to
/// every attachment in its list.
pub proof fn references_are_those_of_each_post(a: Seq<Post>, b: Seq<Post>, p: Post, k: int)
    ensures
        references(a + b) == references(a) + references(b),
        references(seq![p]).len() == listed_ids(p.attachments@).len(),
        0 <= k < listed_ids(p.attachments@).len() ==> references(seq![p])[k] == (
        listed_ids(p.attachments@)[k], p.id),
{
    lemma_references_add_up(a, b);
    reveal_with_fuel(references, 2);
    assert(seq![p].drop_last() =~= Seq::empty());
    assert(seq![p].last() == p);
    assert(references(seq![p]) =~= listed_ids(p.attachments@).map_values(
        |id: Seq<char>| (id, p.id),
    ));
}

proof fn lemma_references_add_up(a: Seq<Post>, b: Seq<Post>)
    ensures
        references(a + b) == references(a) + references(b),
    decreases b.len(),
{
    if b.len() == 0 {
        assert(a + b =~= a);
        assert(references(a) + references(b) =~= references(a));
    } else {
        assert((a + b).drop_last() =~= a + b.drop_last());
        lemma_references_add_up(a, b.drop_last());
        assert(references(a + b) =~= references(a) + references(b));
    }
}

/// What is recorded of new attachments is each one that is not known yet, once, with
/// the first post that refers to it.
pub proof fn new_attachments_are_recorded_once(known: Set<Seq<char>>, refs: Seq<(Seq<char>, i64)>)
    ensures
        forall|i: int, j: int|
            0 <= i < j < new_references(known, refs).len() ==> (#[trigger] new_references(
                known,
                refs,
            )[i]).0 != (#[trigger] new_references(known, refs)[j]).0,
        forall|i: int|
            0 <= i < new_references(known, refs).len() ==> {
                let new = #[trigger] new_references(known, refs)[i];
                !known.contains(new.0) && exists|k: int|
                    0 <= k < refs.len() && #[trigger] refs[k] == new && forall|j: int|
                        0 <= j < k ==> (#[trigger] refs[j]).0 != new.0
            },
        forall|k: int|
            0 <= k < refs.len() && !known.contains((#[trigger] refs[k]).0) ==> mentions(
                new_references(known, refs),
                refs[k].0,
            ),
    decreases refs.len(),
{
    known_attachments_stay_untouched(known, refs);
    if refs.len() > 0 {
        let rest = refs.drop_last();
        new_attachments_are_recorded_once(known, rest);
        known_attachments_stay_untouched(known, rest);
        let (earlier, now) = (new_references(known, rest), new_references(known, refs));
        assert(refs[refs.len() - 1] == refs.last());
        assert forall|i: int| 0 <= i < now.len() implies {
            let new = #[trigger] now[i];
            !known.contains(new.0) && exists|k: int|
                0 <= k < refs.len() && #[trigger] refs[k] == new && forall|j: int|
                    0 <= j < k ==> (#[trigger] refs[j]).0 != new.0
        } by {
            let new = now[i];
            if i < earlier.len() {
                assert(now[i] == earlier[i]);
                let k = choose|k: int|
                    0 <= k < rest.len() && #[trigger] rest[k] == new && forall|j: int|
                        0 <= j < k ==> (#[trigger] rest[j]).0 != new.0;
                assert(refs[k] == new);
                assert forall|j: int| 0 <= j < k implies (#[trigger] refs[j]).0 != new.0 by {
                    assert(rest[j] == refs[j]);
                }
            } else {
                assert(new == refs.last());
                assert forall|j: int| 0 <= j < refs.len() - 1 implies (#[trigger] refs[j]).0
                    != new.0 by {
                    assert(rest[j] == refs[j]);
                    assert(known.contains(rest[j].0) || mentions(earlier, rest[j].0));
                }
                assert(refs[refs.len() - 1] == new);
            }
        }
        assert forall|i: int, j: int| 0 <= i < j < now.len() implies (#[trigger] now[i]).0 != (
        #[trigger] now[j]).0 by {
            assert(now[i] == earlier[i]);
            if j < earlier.len() {
                assert(now[j] == earlier[j]);
            } else {
                assert(!mentions(earlier, refs.last().0));
            }
        }
    }
}

/// A column is filled exactly if it holds a text, and not an empty one; the text of
/// a column that is missing is empty.
pub proof fn filled_columns_hold_text(s: Option<String>)
    ensures
        is_filled(s) <==> s is Some && s->0@.len() > 0,
        s matches Some(text) ==> column_text(s) == text@,
        s is None ==> column_text(s).len() == 0,
{
}

/// The recordings to fetch are those of exactly the posts that have a URL and no
/// file, in the order of the posts, each with what is stored of it. `at` lists the
/// positions of these posts.
pub proof fn every_missing_recording_is_fetched(
    posts: Seq<AudioColumns>,
    jobs: Seq<AudioJob>,
) -> (at: Seq<int>)
    requires
        fetch_recordings(posts, jobs),
    ensures
        picks(
            posts,
            at,
            |c: AudioColumns|
                (c.url matches Some(u) && u@.len() > 0) && !(c.path matches Some(p) && p@.len()
                    > 0),
        ),
        jobs.len() == at.len(),
        forall|i: int|
            0 <= i < jobs.len() ==> {
                let c = posts[at[i]];
                &&& (#[trigger] jobs[i]).post_id == c.post_id
                &&& c.url matches Some(u) && jobs[i].url@ == u@
                &&& c.key matches Some(k) ==> jobs[i].key@ == k@
                &&& c.key is None ==> jobs[i].key@.len() == 0
                &&& c.content_type matches Some(t) ==> jobs[i].content_type@ == t@
                &&& c.content_type is None ==> jobs[i].content_type@.len() == 0
            },
{
    let wanted = |c: AudioColumns| audio_wanted(c);
    lemma_filter_picks(posts, wanted);
    let at = kept_at(posts, wanted);
    assert forall|i: int| 0 <= i < at.len() implies posts.filter(wanted)[i]
        == posts[#[trigger] at[i]] && audio_wanted(posts[at[i]]) by {
        assert(wanted(posts[at[i]]));
    }
    assert forall|k: int| 0 <= k < posts.len() && audio_wanted(#[trigger] posts[k]) implies at.contains(
        k,
    ) by {
        assert(wanted(posts[k]));
    }
    at
}

/// The attachments to fetch are exactly those without a file, in order, each with
/// the post that refers to it. `at` lists their positions.
pub proof fn every_missing_attachment_is_fetched(rows: Seq<AttachmentColumns>) -> (at: Seq<int>)
    ensures
        ({
            let jobs = missing_attachments(rows);
            &&& picks(
                rows,
                at,
                |c: AttachmentColumns| !(c.path matches Some(p) && p@.len() > 0),
            )
            &&& jobs.len() == at.len()
            &&& forall|i: int|
                0 <= i < jobs.len() ==> (#[trigger] jobs[i]).0 == rows[at[i]].id@ && jobs[i].1 == (
                match rows[at[i]].post_id {
                    Some(id) => id,
                    None => 0i64,
                })
        }),
{
    let wanted = |c: AttachmentColumns| attachment_wanted(c);
    lemma_filter_picks(rows, wanted);
    let at = kept_at(rows, wanted);
    assert forall|i: int| 0 <= i < at.len() implies rows.filter(wanted)[i]
        == rows[#[trigger] at[i]] && attachment_wanted(rows[at[i]]) by {
        assert(wanted(rows[at[i]]));
    }
    assert forall|k: int| 0 <= k < rows.len() && attachment_wanted(
        #[trigger] rows[k],
    ) implies at.contains(k) by {
        assert(wanted(rows[k]));
    }
    at
}

/// The attachments to ask about are exactly those whose URL is not recorded, in
/// order. `at` lists their positions.
pub proof fn every_unknown_attachment_is_asked_about(
    rows: Seq<AttachmentColumns>,
) -> (at: Seq<int>)
    ensures
        ({
            let ids = unknown_attachments(rows);
            &&& picks(
                rows,
                at,
                |c: AttachmentColumns| !(c.url matches Some(u) && u@.len() > 0),
            )
            &&& ids.len() == at.len()
            &&& forall|i: int| 0 <= i < ids.len() ==> #[trigger] ids[i] == rows[at[i]].id@
        }),
{
    let wanted = |c: AttachmentColumns| is_undescribed(c);
    lemma_filter_picks(rows, wanted);
    let at = kept_at(rows, wanted);
    assert forall|i: int| 0 <= i < at.len() implies rows.filter(wanted)[i]
        == rows[#[trigger] at[i]] && is_undescribed(rows[at[i]]) by {
        assert(wanted(rows[at[i]]));
    }
    assert forall|k: int| 0 <= k < rows.len() && is_undescribed(
        #[trigger] rows[k],
    ) implies at.contains(k) by {
        assert(wanted(rows[k]));
    }
    at
}

/// The stored bytes are those of all posts together: each post adds what is recorded
/// of it, and one of which nothing is recorded adds nothing.
pub proof fn stored_bytes_add_up(posts: Seq<AudioColumns>, c: AudioColumns, sum: int, n: i64)
    ensures
        bytes_total(Seq::empty()) == Some(0int),
        c.bytes is None ==> bytes_total(posts.push(c)) == bytes_total(posts),
        bytes_total(posts) == Some(sum) && c.bytes == Some(n) && i64::MIN <= sum + n <= i64::MAX
            ==> bytes_total(posts.push(c)) == Some(sum + n),
        bytes_total(posts) == Some(sum) && c.bytes == Some(n) && !(i64::MIN <= sum + n <= i64::MAX)
            ==> bytes_total(posts.push(c)) is None,
        bytes_total(posts) is None ==> bytes_total(posts.push(c)) is None,
{
    assert(posts.push(c).drop_last() =~= posts);
}

/// An exported post gives back every stored column under its name: texts as text,
/// numbers as numbers, and a column that is missing as null. It has no other
/// members.
pub proof fn exported_posts_give_back_their_columns(p: PostExport)
    ensures
        field(exported_post(p), "id"@) == Some(JsonV::Int(p.id as int)),
        field(exported_post(p), "author"@) == Some(JsonV::Str(p.author@)),
        field(exported_post(p), "text"@) == Some(JsonV::Str(p.text@)),
        field(exported_post(p), "transcription"@) == Some(JsonV::Str(p.transcription@)),
        field(exported_post(p), "date"@) == Some(JsonV::Int(p.date as int)),
        field(exported_post(p), "likes"@) == Some(JsonV::Int(p.likes as int)),
        field(exported_post(p), "audio_url"@) == Some(
            match p.audio_url {
                Some(url) => JsonV::Str(url@),
                None => JsonV::Null,
            },
        ),
        field(exported_post(p), "audio_path"@) == Some(
            match p.audio_path {
                Some(path) => JsonV::Str(path@),
                None => JsonV::Null,
            },
        ),
        forall|k: Seq<char>|
            #[trigger] field(exported_post(p), k) is Some ==> k == "id"@ || k == "author"@ || k
                == "text"@ || k == "transcription"@ || k == "date"@ || k == "likes"@ || k
                == "audio_url"@ || k == "audio_path"@,
{
    reveal_strlit("id");
    reveal_strlit("author");
    reveal_strlit("text");
    reveal_strlit("transcription");
    reveal_strlit("date");
    reveal_strlit("likes");
    reveal_strlit("audio_url");
    reveal_strlit("audio_path");
    assert("id"@.len() == 2 && "author"@.len() == 6 && "text"@.len() == 4 && "transcription"@.len()
        == 13 && "date"@.len() == 4 && "likes"@.len() == 5 && "audio_url"@.len() == 9
        && "audio_path"@.len() == 10);
    assert("text"@[0] == 't' && "date"@[0] == 'd');
}

/// An exported thread gives back what is stored of it, and its posts: all of them,
/// each once, by id, and posts with the same id in the order in which they are
/// stored. `order` lists the positions of the posts.
pub proof fn exported_threads_give_back_their_posts(t: ThreadExport) -> (order: Seq<int>)
    requires
        t.posts@.len() <= usize::MAX,
    ensures
        field(exported_thread(t), "id"@) == Some(JsonV::Int(t.id as int)),
        field(exported_thread(t), "name"@) == Some(JsonV::Str(t.name@)),
        field(exported_thread(t), "author"@) == Some(JsonV::Str(t.author@)),
        field(exported_thread(t), "last_update"@) == Some(JsonV::Int(t.last_update as int)),
        order.len() == t.posts@.len(),
        order.no_duplicates(),
        forall|i: int| 0 <= i < order.len() ==> 0 <= #[trigger] order[i] < t.posts@.len(),
        forall|i: int, j: int|
            0 <= i < j < order.len() ==> t.posts@[#[trigger] order[i]].id
                < t.posts@[#[trigger] order[j]].id || (t.posts@[order[i]].id
                == t.posts@[order[j]].id && order[i] < order[j]),
        field(exported_thread(t), "posts"@) matches Some(JsonV::Array(posts)) && posts.len()
            == t.posts@.len() && forall|i: int|
            0 <= i < posts.len() ==> #[trigger] posts[i] == exported_post(t.posts@[order[i]]),
{
    reveal_strlit("id");
    reveal_strlit("name");
    reveal_strlit("author");
    reveal_strlit("last_update");
    reveal_strlit("posts");
    assert("id"@.len() == 2 && "name"@.len() == 4 && "author"@.len() == 6 && "last_update"@.len()
        == 11 && "posts"@.len() == 5);
    let keys = post_ids(t.posts@);
    let sorted = the_order(keys, Direction::Ascending);
    order_exists(keys, Direction::Ascending);
    order_lists_every_item_once(keys, Direction::Ascending, sorted);
    let order = sorted.map_values(|i: usize| i as int);
    assert forall|i: int, j: int| 0 <= i < j < order.len() implies t.posts@[#[trigger] order[i]].id
        < t.posts@[#[trigger] order[j]].id || (t.posts@[order[i]].id == t.posts@[order[j]].id
        && order[i] < order[j]) by {
        assert(precedes(keys, Direction::Ascending, sorted[i] as int, sorted[j] as int));
        assert(sorted[i] < keys.len() && sorted[j] < keys.len());
    }
    assert forall|i: int| 0 <= i < order.len() implies 0 <= #[trigger] order[i]
        < t.posts@.len() by {
        assert(sorted[i] < keys.len());
    }
    order
}

/// An exported forum has its number, the untouched row as it was received, and all
/// of its threads, in order.
pub proof fn exported_forums_give_back_their_threads(
    forum_id: i64,
    raw: Option<Seq<char>>,
    threads: Seq<ThreadExport>,
    row: JsonV,
)
    ensures
        field(exported_forum(forum_id, raw, threads), "forum_id"@) == Some(
            JsonV::Int(forum_id as int),
        ),
        raw is Some && json_parsed(raw->0) == Some(row) ==> field(
            exported_forum(forum_id, raw, threads),
            "forum"@,
        ) == Some(row),
        raw is None || json_parsed(raw->0) is None ==> field(
            exported_forum(forum_id, raw, threads),
            "forum"@,
        ) == Some(JsonV::Null),
        field(exported_forum(forum_id, raw, threads), "threads"@) matches Some(JsonV::Array(list))
            && list.len() == threads.len() && forall|i: int|
            0 <= i < list.len() ==> #[trigger] list[i] == exported_thread(threads[i]),
{
    reveal_strlit("forum_id");
    reveal_strlit("forum");
    reveal_strlit("threads");
    assert("forum_id"@.len() == 8 && "forum"@.len() == 5 && "threads"@.len() == 7);
}

/// A post comes through the archive as it was received: what is exported of the
/// columns that were written for it is what its row said, under the same names, and
/// its recording is given by the URL that it came with and the file it was stored in.
pub proof fn posts_come_through_the_archive(
    v: JsonV,
    thread_id: int,
    p: Post,
    file: (Option<Seq<char>>, Option<i64>, Option<Seq<char>>),
    ts: i64,
    e: PostExport,
    s: Seq<char>,
    n: int,
)
    requires
        p.reads(v, thread_id),
        CellV::Int(e.id as int) == post_row(p, file, ts)[0],
        CellV::Text(e.author@) == post_row(p, file, ts)[2],
        CellV::Text(e.text@) == post_row(p, file, ts)[3],
        CellV::Int(e.date as int) == post_row(p, file, ts)[5],
        CellV::Int(e.likes as int) == post_row(p, file, ts)[7],
        CellV::Text(e.transcription@) == post_row(p, file, ts)[10],
        text_cell(opt_text(e.audio_url)) == post_row(p, file, ts)[14],
        text_cell(opt_text(e.audio_path)) == post_row(p, file, ts)[16],
    ensures
        gives_number(v, "id"@, n) ==> field(exported_post(e), "id"@) == Some(JsonV::Int(n)),
        gives_text(v, "author"@, s) ==> field(exported_post(e), "author"@) == Some(JsonV::Str(s)),
        gives_text(v, "text"@, s) ==> field(exported_post(e), "text"@) == Some(JsonV::Str(s)),
        gives_text(v, "transcription"@, s) ==> field(exported_post(e), "transcription"@) == Some(
            JsonV::Str(s),
        ),
        gives_number(v, "date"@, n) ==> field(exported_post(e), "date"@) == Some(JsonV::Int(n)),
        gives_number(v, "likes"@, n) ==> field(exported_post(e), "likes"@) == Some(JsonV::Int(n)),
        field(v, "audio"@) is Some && gives_text(field(v, "audio"@)->0, "url"@, s) && s.len() > 0
            ==> field(exported_post(e), "audio_url"@) == Some(JsonV::Str(s)),
        field(exported_post(e), "audio_path"@) == Some(
            match file.0 {
                Some(path) => JsonV::Str(path),
                None => JsonV::Null,
            },
        ),
{
    exported_posts_give_back_their_columns(e);
    posts_are_read_by_member(p, v, thread_id, s, n, true);
    if let Some(audio) = field(v, "audio"@) {
        let (key, kind) = (str_field(audio, "id"@), str_field(audio, "content_type"@));
        recordings_are_read_by_member(p, v, thread_id, audio, key, s, kind);
        texts_are_read_as_sent(audio, "url"@, s, 0, false);
    }
}

/// The statistics count what the database holds: all threads and those that were
/// scraped, all posts, those with a recording and those whose recording was
/// downloaded, and all attachments and those that were. The results list the
/// positions of the scraped threads, of the posts with a recording, of those with a
/// file, and of the attachments with a file.
pub proof fn statistics_count_every_row(
    marks: Seq<(i64, Watermark)>,
    posts: Seq<AudioColumns>,
    attachments: Seq<AttachmentColumns>,
    s: Stats,
) -> (at: (Seq<int>, Seq<int>, Seq<int>, Seq<int>))
    requires
        counts(marks, posts, attachments, s),
    ensures
        s.threads == marks.len() && s.posts == posts.len() && s.attachments == attachments.len(),
        picks(marks, at.0, |m: (i64, Watermark)| m.1.scraped_at is Some),
        s.threads_scraped == at.0.len(),
        picks(posts, at.1, |c: AudioColumns| c.url matches Some(u) && u@.len() > 0),
        s.audio_posts == at.1.len(),
        picks(posts, at.2, |c: AudioColumns| c.path matches Some(p) && p@.len() > 0),
        s.audio_downloaded == at.2.len(),
        picks(attachments, at.3, |c: AttachmentColumns| c.path matches Some(p) && p@.len() > 0),
        s.attachments_downloaded == at.3.len(),
        bytes_total(posts) == Some(s.audio_bytes as int),
{
    let is_scraped = |m: (i64, Watermark)| m.1.scraped_at is Some;
    let has_url = |c: AudioColumns| is_filled(c.url);
    let has_path = |c: AudioColumns| is_filled(c.path);
    let is_stored = |c: AttachmentColumns| is_filled(c.path);
    lemma_filter_picks(marks, is_scraped);
    lemma_filter_picks(posts, has_url);
    lemma_filter_picks(posts, has_path);
    lemma_filter_picks(attachments, is_stored);
    lemma_picks_same(
        posts,
        kept_at(posts, has_url),
        has_url,
        |c: AudioColumns| c.url matches Some(u) && u@.len() > 0,
    );
    lemma_picks_same(
        posts,
        kept_at(posts, has_path),
        has_path,
        |c: AudioColumns| c.path matches Some(p) && p@.len() > 0,
    );
    lemma_picks_same(
        attachments,
        kept_at(attachments, is_stored),
        is_stored,
        |c: AttachmentColumns| c.path matches Some(p) && p@.len() > 0,
    );
    (
        kept_at(marks, is_scraped),
        kept_at(posts, has_url),
        kept_at(posts, has_path),
        kept_at(attachments, is_stored),
    )
}

proof fn lemma_picks_same<A>(
    items: Seq<A>,
    at: Seq<int>,
    p: spec_fn(A) -> bool,
    q: spec_fn(A) -> bool,
)
    requires
        picks(items, at, p),
        forall|a: A| #[trigger] p(a) == q(a),
    ensures
        picks(items, at, q),
{
    assert forall|i: int| 0 <= i < at.len() implies 0 <= #[trigger] at[i] < items.len() && q(
        items[at[i]],
    ) by {
        assert(p(items[at[i]]));
    }
    assert forall|k: int| 0 <= k < items.len() && q(#[trigger] items[k]) implies at.contains(k) by {
        assert(p(items[k]));
    }
}

} // verus!
