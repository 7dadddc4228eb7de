//! Choosing what to scrape.
//!
//! Deliberately numbered lists with typed answers rather than arrow-key
//! multi-select widgets: Elten's users are blind, so a linear, readable
//! transcript works far better with a screen reader than a redrawing TUI, and
//! it also survives being piped or run over a plain terminal.

use std::collections::HashSet;
use vstd::prelude::*;

use crate::config::{is_known_mode, Config, Selection};
use crate::model::{Forum, Group, Structure, ThreadMeta};
use crate::order::{
    is_order, kept_at, lemma_filter_picks, lists, order_by, order_exists,
    order_lists_every_item_once, picks, precedes, the_order, Direction,
};
use crate::text::{
    ascii_lowered, comparison_ignores_case, contains, decimal, decimal_int, first_of,
    found_texts_are_parts, halves, halves_are_cut_at_the_first, has_within, int_text, is_digit,
    is_space, lemma_final_space, lemma_first_of, lemma_first_of_bounds, lemma_trimmed_around,
    lemma_trimmed_whole, lowercased, nat_text, only_numbers_read, parse_usize, pieces, quote, quoted,
    read_unsigned, same, same_ascii, same_ignoring_case, split, split_once,
    splitting_undoes_joining, to_lower, trim, trimmed, trimmed_end, trimmed_start,
    trimming_takes_only_outer_space, views, written_numbers_read_back,
};

verus! {

broadcast use vstd::std_specs::hash::group_hash_axioms;

// ---------------------------------------------------------------------------
// Typed answers
// ---------------------------------------------------------------------------

/// A number typed by the user.
pub open spec fn typed_number(s: Seq<char>) -> Option<int> {
    read_unsigned(s, usize::MAX as int)
}

/// The option of a menu of `count` that an answer chooses, counted from 0.
pub open spec fn chosen(answer: Seq<char>, count: int) -> Option<int> {
    match typed_number(trimmed(answer)) {
        Some(n) => if 1 <= n <= count {
            Some(n - 1)
        } else {
            None
        },
        None => None,
    }
}

/// Read the answer to a numbered menu of `count` options as a 0-based index.
pub fn parse_choice(answer: &str, count: usize) -> (r: Option<usize>)
    ensures
        match r {
            Some(i) => i < count && typed_number(trimmed(answer@)) == Some(i + 1),
            None => match typed_number(trimmed(answer@)) {
                Some(n) => n < 1 || n > count,
                None => true,
            },
        },
        match r {
            Some(i) => chosen(answer@, count as int) == Some(i as int),
            None => chosen(answer@, count as int) is None,
        },
{
    let answer = trim(answer);
    match parse_usize(answer.as_str()) {
        Some(n) => if n >= 1 && n <= count {
            Some(n - 1)
        } else {
            None
        },
        None => None,
    }
}

/// Why a list of numbers could not be read.
#[derive(Debug, Clone)]
pub enum IndexError {
    /// Neither a number nor a range.
    Unreadable(String),
    /// A number or range that reaches outside `1..=max`.
    OutOfRange { shown: String, max: usize },
}

pub enum IndexErrorV {
    Unreadable(Seq<char>),
    OutOfRange(Seq<char>, int),
}

/// How a faulty list of numbers is reported.
pub open spec fn index_error_text(e: IndexErrorV) -> Seq<char> {
    match e {
        IndexErrorV::Unreadable(part) => "could not read "@ + quoted(part)
            + " as a number or range"@,
        IndexErrorV::OutOfRange(shown, max) => shown + " is out of the range 1-"@ + decimal(
            max as nat,
        ),
    }
}

impl IndexError {
    pub open spec fn view(&self) -> IndexErrorV {
        match self {
            IndexError::Unreadable(part) => IndexErrorV::Unreadable(part@),
            IndexError::OutOfRange { shown, max } => IndexErrorV::OutOfRange(shown@, *max as int),
        }
    }

    pub fn text(&self) -> (r: String)
        ensures
            r@ == index_error_text(self@),
    {
        match self {
            IndexError::Unreadable(part) => String::from_str("could not read ").concat(
                quote(part.as_str()).as_str(),
            ).concat(" as a number or range"),
            IndexError::OutOfRange { shown, max } => shown.clone().concat(
                " is out of the range 1-",
            ).concat(nat_text(*max as u128).as_str()),
        }
    }
}

/// What one entry of a list selects: a range of numbers counted from 1, nothing
/// if the entry is empty.
pub open spec fn entry_range(part: Seq<char>, max: int) -> Result<
    Option<(int, int)>,
    IndexErrorV,
> {
    let p = trimmed(part);
    if p.len() == 0 {
        Ok(None)
    } else {
        match halves(p, '-') {
            Some((a, b)) => match (typed_number(trimmed(a)), typed_number(trimmed(b))) {
                (Some(from), Some(to)) => if from == 0 || to == 0 || from > to || to > max {
                    Err(IndexErrorV::OutOfRange(p, max))
                } else {
                    Ok(Some((from, to)))
                },
                _ => Err(IndexErrorV::Unreadable(p)),
            },
            None => match typed_number(p) {
                Some(n) => if n == 0 || n > max {
                    Err(IndexErrorV::OutOfRange(decimal(n as nat), max))
                } else {
                    Ok(Some((n, n)))
                },
                None => Err(IndexErrorV::Unreadable(p)),
            },
        }
    }
}

/// The numbers of `from..to`.
pub open spec fn span(from: int, to: int) -> Set<int> {
    Set::new(|i: int| from <= i < to)
}

/// The 0-based indices that a list of entries selects; the first faulty entry
/// is reported.
pub open spec fn entries_select(parts: Seq<Seq<char>>, max: int) -> Result<Set<int>, IndexErrorV>
    decreases parts.len(),
{
    if parts.len() == 0 {
        Ok(Set::empty())
    } else {
        match entries_select(parts.drop_last(), max) {
            Err(e) => Err(e),
            Ok(earlier) => match entry_range(parts.last(), max) {
                Err(e) => Err(e),
                Ok(None) => Ok(earlier),
                Ok(Some((from, to))) => Ok(earlier.union(span(from - 1, to))),
            },
        }
    }
}

/// The 0-based indices that an answer such as "1,4,7-10" or "all" selects.
pub open spec fn answer_selects(input: Seq<char>, max: int) -> Result<Set<int>, IndexErrorV> {
    let t = trimmed(input);
    if t.len() == 0 {
        Ok(Set::empty())
    } else if same_ascii(t, "all"@) {
        Ok(span(0, max))
    } else {
        entries_select(pieces(t, ',', ','), max)
    }
}

/// Whether `v` lists exactly the members of `set`, in increasing order.
pub open spec fn lists_increasing(v: Seq<usize>, set: Set<int>) -> bool {
    &&& forall|i: int, j: int| 0 <= i < j < v.len() ==> #[trigger] v[i] < #[trigger] v[j]
    &&& forall|i: int| 0 <= i < v.len() ==> set.contains(#[trigger] v[i] as int)
    &&& forall|x: int| #[trigger]
        set.contains(x) ==> exists|i: int| 0 <= i < v.len() && #[trigger] v[i] == x
}

fn add_index(v: &mut Vec<usize>, x: usize, Ghost(set): Ghost<Set<int>>)
    requires
        lists_increasing(old(v)@, set),
    ensures
        lists_increasing(final(v)@, set.insert(x as int)),
{
    let ghost before = v@;
    let mut at: usize = v.len();
    while at > 0 && v[at - 1] > x
        invariant
            at <= v@.len(),
            v@ == before,
            lists_increasing(before, set),
            forall|j: int| at <= j < v@.len() ==> v@[j] > x,
        decreases at,
    {
        at -= 1;
    }
    if at > 0 && v[at - 1] == x {
        assert(set.insert(x as int) =~= set) by {
            assert(set.contains(before[at - 1] as int));
        }
        return;
    }
    v.insert(at, x);
    proof {
        let now = v@;
        let all = set.insert(x as int);
        assert forall|i: int, j: int| 0 <= i < j < now.len() implies #[trigger] now[i]
            < #[trigger] now[j] by {
            let bi = if i < at {
                i
            } else {
                i - 1
            };
            let bj = if j < at {
                j
            } else {
                j - 1
            };
            if i != at && j != at {
                assert(now[i] == before[bi] && now[j] == before[bj]);
            } else if i == at {
                assert(now[j] == before[bj]);
            } else {
                assert(now[i] == before[i]);
                if i < at - 1 {
                    assert(before[i] < before[at - 1]);
                }
            }
        }
        assert forall|i: int| 0 <= i < now.len() implies all.contains(#[trigger] now[i] as int) by {
            if i < at {
                assert(now[i] == before[i]);
            } else if i > at {
                assert(now[i] == before[i - 1]);
            }
        }
        assert forall|y: int| #[trigger] all.contains(y) implies exists|i: int|
            0 <= i < now.len() && #[trigger] now[i] == y by {
            if y == x {
                assert(now[at as int] == y);
            } else {
                assert(set.contains(y));
                let j = choose|j: int| 0 <= j < before.len() && #[trigger] before[j] == y;
                if j < at {
                    assert(now[j] == y);
                } else {
                    assert(now[j + 1] == y);
                }
            }
        }
    }
}

/// Parse "1,4,7-10" or "all" into 0-based indices.
pub fn parse_indices(input: &str, max: usize) -> (r: Result<Vec<usize>, IndexError>)
    ensures
        match r {
            Ok(v) => {
                &&& answer_selects(input@, max as int) matches Ok(set) && lists_increasing(v@, set)
                &&& forall|i: int| 0 <= i < v@.len() ==> #[trigger] v@[i] < max
            },
            Err(e) => answer_selects(input@, max as int) == Err::<Set<int>, IndexErrorV>(e@),
        },
{
    let typed = trim(input);
    let typed = typed.as_str();
    if typed.is_empty() {
        return Ok(Vec::new());
    }
    if same_ignoring_case(typed, "all") {
        let mut all: Vec<usize> = Vec::new();
        let mut i: usize = 0;
        while i < max
            invariant
                i <= max,
                all@.len() == i,
                forall|j: int| 0 <= j < i ==> all@[j] == j,
            decreases max - i,
        {
            all.push(i);
            i += 1;
        }
        assert forall|x: int| #[trigger]
            span(0, max as int).contains(x) implies exists|i: int|
            0 <= i < all@.len() && #[trigger] all@[i] == x by {
            assert(all@[x] == x);
        }
        return Ok(all);
    }
    let parts = split(typed, ',', ',');
    let ghost all = pieces(typed@, ',', ',');
    let mut chosen: Vec<usize> = Vec::new();
    let ghost mut set = Set::<int>::empty();
    let mut k: usize = 0;
    while k < parts.len()
        invariant
            k <= parts@.len(),
            views(parts@) == all,
            lists_increasing(chosen@, set),
            entries_select(all.take(k as int), max as int) == Ok::<Set<int>, IndexErrorV>(set),
            answer_selects(input@, max as int) == entries_select(all, max as int),
        decreases parts@.len() - k,
    {
        let ghost part = all[k as int];
        proof {
            assert(views(parts@)[k as int] == parts@[k as int]@);
            assert(all.take(k + 1).drop_last() =~= all.take(k as int));
            assert(all.take(k + 1).last() == part);
        }
        match read_entry(parts[k].as_str(), max) {
            Err(e) => {
                proof {
                    lemma_first_fault(all, k + 1, max as int);
                }
                return Err(e);
            },
            Ok(None) => {},
            Ok(Some((from, to))) => {
                let ghost start = set;
                let mut n: usize = from;
                let mut more = true;
                while more
                    invariant
                        1 <= from <= n <= to <= max,
                        more ==> lists_increasing(
                            chosen@,
                            start.union(span(from - 1, n - 1)),
                        ),
                        !more ==> lists_increasing(
                            chosen@,
                            start.union(span(from - 1, to as int)),
                        ),
                    decreases to - n + (if more { 1int } else { 0int }),
                {
                    let ghost so_far = start.union(span(from - 1, n - 1));
                    add_index(&mut chosen, n - 1, Ghost(so_far));
                    proof {
                        assert(so_far.insert(n - 1) =~= start.union(
                            span(from - 1, n as int),
                        ));
                    }
                    if n == to {
                        more = false;
                    } else {
                        n += 1;
                    }
                }
                proof {
                    set = start.union(span(from - 1, to as int));
                }
            },
        }
        k += 1;
    }
    assert(all.take(k as int) =~= all);
    assert forall|i: int| 0 <= i < chosen@.len() implies #[trigger] chosen@[i] < max by {
        assert(set.contains(chosen@[i] as int));
        selection_stays_in_the_list(input@, max as int, chosen@[i] as int);
    }
    Ok(chosen)
}

fn read_entry(part: &str, max: usize) -> (r: Result<Option<(usize, usize)>, IndexError>)
    ensures
        match r {
            Ok(None) => entry_range(part@, max as int) == Ok::<Option<(int, int)>, IndexErrorV>(
                None,
            ),
            Ok(Some((from, to))) => entry_range(part@, max as int) == Ok::<
                Option<(int, int)>,
                IndexErrorV,
            >(Some((from as int, to as int))) && 1 <= from <= to <= max,
            Err(e) => entry_range(part@, max as int) == Err::<Option<(int, int)>, IndexErrorV>(e@),
        },
{
    let part = trim(part);
    if part.as_str().is_empty() {
        return Ok(None);
    }
    match split_once(part.as_str(), '-') {
        Some((a, b)) => {
            let a = trim(a.as_str());
            let b = trim(b.as_str());
            match (parse_usize(a.as_str()), parse_usize(b.as_str())) {
                (Some(from), Some(to)) => if from == 0 || to == 0 || from > to || to > max {
                    Err(IndexError::OutOfRange { shown: part, max })
                } else {
                    Ok(Some((from, to)))
                },
                _ => Err(IndexError::Unreadable(part)),
            }
        },
        None => match parse_usize(part.as_str()) {
            Some(n) => if n == 0 || n > max {
                Err(IndexError::OutOfRange { shown: nat_text(n as u128), max })
            } else {
                Ok(Some((n, n)))
            },
            None => Err(IndexError::Unreadable(part)),
        },
    }
}

proof fn lemma_first_fault(parts: Seq<Seq<char>>, k: int, max: int)
    requires
        0 <= k <= parts.len(),
        entries_select(parts.take(k), max) is Err,
    ensures
        entries_select(parts, max) == entries_select(parts.take(k), max),
    decreases parts.len(),
{
    if k < parts.len() {
        assert(parts.drop_last().take(k) =~= parts.take(k));
        lemma_first_fault(parts.drop_last(), k, max);
    } else {
        assert(parts.take(k) =~= parts);
    }
}

/// Whatever is typed, only items of the list can be selected.
pub proof fn selection_stays_in_the_list(input: Seq<char>, max: int, x: int)
    requires
        answer_selects(input, max) matches Ok(set) && set.contains(x),
    ensures
        0 <= x < max,
{
    let t = trimmed(input);
    if t.len() != 0 && !same_ascii(t, "all"@) {
        lemma_entries_in_range(pieces(t, ',', ','), max, x);
    }
}

proof fn lemma_entries_in_range(parts: Seq<Seq<char>>, max: int, x: int)
    requires
        entries_select(parts, max) matches Ok(set) && set.contains(x),
    ensures
        0 <= x < max,
    decreases parts.len(),
{
    if parts.len() > 0 {
        let earlier = entries_select(parts.drop_last(), max)->Ok_0;
        if earlier.contains(x) {
            lemma_entries_in_range(parts.drop_last(), max, x);
        } else {
            let (a, b) = halves(trimmed(parts.last()), '-')->Some_0;
            lemma_typed_number(trimmed(a));
            lemma_typed_number(trimmed(parts.last()));
        }
    }
}

proof fn lemma_typed_number(s: Seq<char>)
    ensures
        typed_number(s) matches Some(n) ==> n >= 0,
{
}

/// Two lists joined by a comma select what either selects, and are faulty if
/// either is; so their order does not matter.
pub proof fn joined_lists_select_the_union(a: Seq<char>, b: Seq<char>, max: int)
    requires
        !same_ascii(trimmed(a), "all"@),
        !same_ascii(trimmed(b), "all"@),
    ensures
        match (answer_selects(a, max), answer_selects(b, max)) {
            (Ok(s), Ok(t)) => {
                &&& answer_selects(a + seq![','] + b, max) == Ok::<Set<int>, IndexErrorV>(
                    s.union(t),
                )
                &&& answer_selects(b + seq![','] + a, max) == Ok::<Set<int>, IndexErrorV>(
                    s.union(t),
                )
            },
            _ => {
                &&& answer_selects(a + seq![','] + b, max) is Err
                &&& answer_selects(b + seq![','] + a, max) is Err
            },
        },
{
    lemma_joined(a, b, max);
    lemma_joined(b, a, max);
    if let (Ok(s), Ok(t)) = (answer_selects(a, max), answer_selects(b, max)) {
        assert(s.union(t) =~= t.union(s));
    }
}

proof fn lemma_joined(a: Seq<char>, b: Seq<char>, max: int)
    requires
        !same_ascii(trimmed(a), "all"@),
        !same_ascii(trimmed(b), "all"@),
    ensures
        match (answer_selects(a, max), answer_selects(b, max)) {
            (Ok(s), Ok(t)) => answer_selects(a + seq![','] + b, max) == Ok::<
                Set<int>,
                IndexErrorV,
            >(s.union(t)),
            _ => answer_selects(a + seq![','] + b, max) is Err,
        },
{
    let joined = a + seq![','] + b;
    lemma_answer_is_its_entries(a, max);
    lemma_answer_is_its_entries(b, max);
    lemma_joined_is_not_all(a, b);
    lemma_answer_is_its_entries(joined, max);
    lemma_pieces_joined(a, b);
    lemma_entries_joined(pieces(a, ',', ','), pieces(b, ',', ','), max);
}

/// A list with a comma in it is not "all".
proof fn lemma_joined_is_not_all(a: Seq<char>, b: Seq<char>)
    ensures
        !same_ascii(trimmed(a + seq![','] + b), "all"@),
{
    let joined = a + seq![','] + b;
    assert(joined[a.len() as int] == ',');
    lemma_trimmed_keeps(joined, a.len() as int);
    let at = choose|i: int| 0 <= i < trimmed(joined).len() && trimmed(joined)[i] == ',';
    reveal_strlit("all");
    let all = ascii_lowered("all"@);
    assert(all.len() == 3 && all[0] == 'a' && all[1] == 'l' && all[2] == 'l');
    assert(ascii_lowered(trimmed(joined))[at] == ',');
}

/// A character that is not space is still there after trimming.
proof fn lemma_trimmed_keeps(s: Seq<char>, k: int)
    requires
        0 <= k < s.len(),
        !is_space(s[k]),
    ensures
        trimmed(s).contains(s[k]),
    decreases s.len(),
{
    if is_space(s[0]) {
        assert(s.skip(1)[k - 1] == s[k]);
        lemma_trimmed_keeps(s.skip(1), k - 1);
    } else {
        lemma_trimmed_end_keeps(s, k);
    }
}

proof fn lemma_trimmed_end_keeps(s: Seq<char>, k: int)
    requires
        0 <= k < s.len(),
        !is_space(s[k]),
    ensures
        trimmed_end(s).contains(s[k]),
    decreases s.len(),
{
    if is_space(s.last()) {
        assert(s.drop_last()[k] == s[k]);
        lemma_trimmed_end_keeps(s.drop_last(), k);
    } else {
        assert(trimmed_end(s)[k] == s[k]);
    }
}

/// Whether two lists have the same entries, apart from the space around them.
spec fn same_entries(p: Seq<Seq<char>>, q: Seq<Seq<char>>) -> bool {
    &&& p.len() == q.len()
    &&& forall|i: int| 0 <= i < p.len() ==> trimmed(#[trigger] p[i]) == trimmed(q[i])
}

proof fn lemma_same_entries(p: Seq<Seq<char>>, q: Seq<Seq<char>>, max: int)
    requires
        same_entries(p, q),
    ensures
        entries_select(p, max) == entries_select(q, max),
    decreases p.len(),
{
    if p.len() > 0 {
        let (x, y) = (p.drop_last(), q.drop_last());
        assert forall|i: int| 0 <= i < x.len() implies trimmed(#[trigger] x[i]) == trimmed(y[i]) by {
            assert(x[i] == p[i] && y[i] == q[i]);
        }
        lemma_same_entries(x, y, max);
        assert(p[p.len() - 1] == p.last());
        assert(trimmed(p.last()) == trimmed(q.last()));
    }
}

/// What an answer that is not "all" selects is what its entries select, whether
/// or not the space around it is taken away first.
proof fn lemma_answer_is_its_entries(s: Seq<char>, max: int)
    requires
        !same_ascii(trimmed(s), "all"@),
    ensures
        answer_selects(s, max) == entries_select(pieces(s, ',', ','), max),
{
    let t = trimmed(s);
    lemma_start_does_not_count(s);
    lemma_end_does_not_count(trimmed_start(s));
    let (p, q, r) = (
        pieces(s, ',', ','),
        pieces(trimmed_start(s), ',', ','),
        pieces(t, ',', ','),
    );
    assert(same_entries(p, r)) by {
        assert forall|i: int| 0 <= i < p.len() implies trimmed(#[trigger] p[i]) == trimmed(r[i]) by {
            assert(trimmed(q[i]) == trimmed(r[i]));
        }
    }
    lemma_same_entries(p, r, max);
    if t.len() == 0 {
        assert(r =~= seq![t]);
        assert(trimmed(t) =~= t);
        assert(entries_select(r.drop_last(), max) == Ok::<Set<int>, IndexErrorV>(Set::empty()));
        assert(r.last() == t);
        assert(entry_range(t, max) == Ok::<Option<(int, int)>, IndexErrorV>(None));
        assert(entries_select(r, max) == Ok::<Set<int>, IndexErrorV>(Set::empty()));
    }
}

proof fn lemma_start_does_not_count(s: Seq<char>)
    ensures
        same_entries(pieces(s, ',', ','), pieces(trimmed_start(s), ',', ',')),
    decreases s.len(),
{
    if s.len() > 0 && is_space(s[0]) {
        let rest = s.skip(1);
        lemma_start_does_not_count(rest);
        let (p, q) = (pieces(s, ',', ','), pieces(rest, ',', ','));
        lemma_first_of_bounds(rest, ',', ',');
        let n = first_of(rest, ',', ',');
        assert(first_of(s, ',', ',') == n + 1);
        if n < rest.len() {
            assert(p[0] == s.take(n + 1) && q[0] == rest.take(n));
            assert(p[0].skip(1) =~= q[0]);
            assert(s.skip(n + 2) =~= rest.skip(n + 1));
            assert(p =~= seq![p[0]] + q.skip(1));
        } else {
            assert(p[0] == s && q[0] == rest);
        }
        assert(trimmed_start(p[0]) == trimmed_start(q[0]));
        let t = pieces(trimmed_start(rest), ',', ',');
        assert forall|i: int| 0 <= i < p.len() implies trimmed(#[trigger] p[i]) == trimmed(t[i]) by {
            assert(trimmed(q[i]) == trimmed(t[i]));
            if i > 0 {
                assert(p[i] == q[i]);
            }
        }
    }
}

proof fn lemma_end_does_not_count(s: Seq<char>)
    ensures
        same_entries(pieces(s, ',', ','), pieces(trimmed_end(s), ',', ',')),
    decreases s.len(),
{
    if s.len() > 0 && is_space(s.last()) {
        let rest = s.drop_last();
        lemma_end_does_not_count(rest);
        lemma_last_space(s);
        let (p, q, t) = (
            pieces(s, ',', ','),
            pieces(rest, ',', ','),
            pieces(trimmed_end(rest), ',', ','),
        );
        assert forall|i: int| 0 <= i < p.len() implies trimmed(#[trigger] p[i]) == trimmed(t[i]) by {
            assert(trimmed(p[i]) == trimmed(q[i]));
            assert(trimmed(q[i]) == trimmed(t[i]));
        }
    }
}

/// Space at the end belongs to the last entry.
proof fn lemma_last_space(s: Seq<char>)
    requires
        s.len() > 0,
        is_space(s.last()),
    ensures
        same_entries(pieces(s, ',', ','), pieces(s.drop_last(), ',', ',')),
    decreases s.len(),
{
    let rest = s.drop_last();
    lemma_first_of_bounds(rest, ',', ',');
    let n = first_of(rest, ',', ',');
    let (p, q) = (pieces(s, ',', ','), pieces(rest, ',', ','));
    if n < rest.len() {
        assert forall|j: int| 0 <= j < n implies #[trigger] s[j] != ',' by {
            assert(rest[j] == s[j]);
        }
        assert(s[n] == rest[n]);
        lemma_first_of(s, ',', ',', n);
        let (x, y) = (s.skip(n + 1), rest.skip(n + 1));
        assert(x.drop_last() =~= y);
        assert(x.last() == s.last());
        lemma_last_space(x);
        assert(s.take(n) =~= rest.take(n));
        assert forall|i: int| 0 <= i < p.len() implies trimmed(#[trigger] p[i]) == trimmed(q[i]) by {
            if i > 0 {
                assert(p[i] == pieces(x, ',', ',')[i - 1]);
                assert(q[i] == pieces(y, ',', ',')[i - 1]);
            }
        }
    } else {
        assert forall|j: int| 0 <= j < s.len() implies #[trigger] s[j] != ',' by {
            if j < rest.len() {
                assert(rest[j] == s[j]);
            }
        }
        lemma_first_of(s, ',', ',', s.len() as int);
        assert(p =~= seq![s] && q =~= seq![rest]);
        lemma_trim_ends(s);
    }
}

/// A space at the end makes no difference to a trimmed text.
proof fn lemma_trim_ends(s: Seq<char>)
    requires
        s.len() > 0,
        is_space(s.last()),
    ensures
        trimmed(s) == trimmed(s.drop_last()),
{
    lemma_final_space(s);
}

proof fn lemma_pieces_joined(a: Seq<char>, b: Seq<char>)
    ensures
        pieces(a + seq![','] + b, ',', ',') == pieces(a, ',', ',') + pieces(b, ',', ','),
{
    splitting_undoes_joining(a, b, ',', ',', ',');
}

proof fn lemma_entries_joined(p: Seq<Seq<char>>, q: Seq<Seq<char>>, max: int)
    ensures
        match (entries_select(p, max), entries_select(q, max)) {
            (Ok(s), Ok(t)) => entries_select(p + q, max) == Ok::<Set<int>, IndexErrorV>(
                s.union(t),
            ),
            _ => entries_select(p + q, max) is Err,
        },
    decreases q.len(),
{
    if q.len() == 0 {
        assert(p + q =~= p);
        if let Ok(s) = entries_select(p, max) {
            assert(s.union(Set::<int>::empty()) =~= s);
        }
    } else {
        assert((p + q).drop_last() =~= p + q.drop_last());
        assert((p + q).last() == q.last());
        lemma_entries_joined(p, q.drop_last(), max);
        if let (Ok(s), Ok(t)) = (entries_select(p, max), entries_select(q.drop_last(), max)) {
            if let Ok(Some((from, to))) = entry_range(q.last(), max) {
                assert(s.union(t).union(span(from - 1, to)) =~= s.union(t.union(span(from - 1, to))));
            }
        }
    }
}

/// An answer selects one list of indices only.
pub proof fn selected_indices_are_unique(a: Seq<usize>, b: Seq<usize>, set: Set<int>)
    requires
        lists_increasing(a, set),
        lists_increasing(b, set),
    ensures
        a == b,
    decreases a.len(),
{
    if a.len() == 0 {
        if b.len() > 0 {
            assert(set.contains(b[0] as int));
        }
        assert(a =~= b);
    } else {
        let last = a.last();
        assert(a[a.len() - 1] == last);
        assert(set.contains(last as int));
        let i = choose|i: int| 0 <= i < b.len() && #[trigger] b[i] == last as int;
        let other = b[b.len() - 1];
        assert(set.contains(other as int));
        let j = choose|j: int| 0 <= j < a.len() && #[trigger] a[j] == other as int;
        if i < b.len() - 1 {
            assert(b[i] < b[b.len() - 1]);
            if j < a.len() - 1 {
                assert(a[j] < a[a.len() - 1]);
            }
        }
        assert(other == last);
        let rest = set.remove(last as int);
        lemma_without_last(a, set);
        lemma_without_last(b, set);
        selected_indices_are_unique(a.drop_last(), b.drop_last(), rest);
        assert(a =~= a.drop_last().push(last));
        assert(b =~= b.drop_last().push(last));
    }
}

proof fn lemma_without_last(v: Seq<usize>, set: Set<int>)
    requires
        v.len() > 0,
        lists_increasing(v, set),
    ensures
        lists_increasing(v.drop_last(), set.remove(v.last() as int)),
{
    let (w, rest) = (v.drop_last(), set.remove(v.last() as int));
    assert forall|i: int| 0 <= i < w.len() implies rest.contains(#[trigger] w[i] as int) by {
        assert(v[i] < v[v.len() - 1]);
        assert(set.contains(v[i] as int));
    }
    assert forall|x: int| #[trigger] rest.contains(x) implies exists|i: int|
        0 <= i < w.len() && #[trigger] w[i] == x by {
        assert(set.contains(x));
        let i = choose|i: int| 0 <= i < v.len() && #[trigger] v[i] == x;
        assert(i < v.len() - 1);
        assert(w[i] == x);
    }
}

/// What an answer to a list prompt comes to.
#[derive(Debug, Clone)]
pub enum Answer {
    /// The 0-based indices that were picked.
    Picked(Vec<usize>),
    /// Ask again, after saying why.
    Retry(String),
}

/// What to make of an answer to a prompt for a selection from `max` items.
pub fn read_answer(answer: &str, max: usize) -> (r: Answer)
    ensures
        match r {
            Answer::Picked(v) => {
                &&& answer_selects(answer@, max as int) matches Ok(set) && lists_increasing(v@, set)
                &&& v@.len() > 0
                &&& forall|i: int| 0 <= i < v@.len() ==> #[trigger] v@[i] < max
            },
            Answer::Retry(text) => match answer_selects(answer@, max as int) {
                Ok(set) => set == Set::<int>::empty() && text@
                    == "Nothing selected - enter numbers such as 1,3,5-8 or 'all'."@,
                Err(e) => text@ == index_error_text(e),
            },
        },
{
    match parse_indices(answer, max) {
        Ok(indices) => if indices.len() == 0 {
            assert(answer_selects(answer@, max as int)->Ok_0 =~= Set::<int>::empty());
            Answer::Retry(
                String::from_str("Nothing selected - enter numbers such as 1,3,5-8 or 'all'."),
            )
        } else {
            Answer::Picked(indices)
        },
        Err(e) => Answer::Retry(e.text()),
    }
}

/// A filter as it is compared: without surrounding space, in lower case.
pub fn normalise_filter(answer: &str) -> (r: String)
    ensures
        r@ == lowercased(trimmed(answer@)),
{
    to_lower(trim(answer).as_str())
}

// ---------------------------------------------------------------------------
// Listing groups and forums
// ---------------------------------------------------------------------------

pub open spec fn group_matches(g: Group, filter: Seq<char>) -> bool {
    filter.len() == 0 || has_within(lowercased(g.name@), filter) || lowercased(g.lang@) == filter
}

/// The name of the group with the given id; that of the last one if several
/// have it.
pub open spec fn group_name(groups: Seq<Group>, id: int) -> Option<Seq<char>>
    decreases groups.len(),
{
    if groups.len() == 0 {
        None
    } else if groups.last().id == id {
        Some(groups.last().name@)
    } else {
        group_name(groups.drop_last(), id)
    }
}

pub open spec fn name_or(name: Option<Seq<char>>, default: Seq<char>) -> Seq<char> {
    match name {
        Some(name) => name,
        None => default,
    }
}

pub open spec fn forum_matches(f: Forum, groups: Seq<Group>, filter: Seq<char>) -> bool {
    ||| filter.len() == 0
    ||| has_within(lowercased(f.name@), filter)
    ||| has_within(
        lowercased(name_or(group_name(groups, f.group_id as int), Seq::empty())),
        filter,
    )
}

/// The positions below `n` that are kept, in increasing order.
pub open spec fn kept(keep: spec_fn(int) -> bool, n: nat) -> Seq<int>
    decreases n,
{
    if n == 0 {
        Seq::empty()
    } else if keep(n - 1) {
        kept(keep, (n - 1) as nat).push(n - 1)
    } else {
        kept(keep, (n - 1) as nat)
    }
}

/// The kept positions, those with the largest key first.
pub open spec fn most_first(positions: Seq<int>, keys: Seq<i64>) -> Seq<int> {
    the_order(keys, Direction::Descending).map_values(|i: usize| positions[i as int])
}

pub open spec fn group_keys(groups: Seq<Group>, positions: Seq<int>) -> Seq<i64> {
    positions.map_values(|i: int| groups[i].posts)
}

pub open spec fn forum_keys(forums: Seq<Forum>, positions: Seq<int>) -> Seq<i64> {
    positions.map_values(|i: int| forums[i].posts)
}

/// The groups that a filter leaves, most active first.
pub open spec fn groups_listed(groups: Seq<Group>, filter: Seq<char>) -> Seq<int> {
    let positions = kept(|i: int| group_matches(groups[i], filter), groups.len());
    most_first(positions, group_keys(groups, positions))
}

/// The forums that a filter leaves, most active first.
pub open spec fn forums_listed(
    forums: Seq<Forum>,
    groups: Seq<Group>,
    filter: Seq<char>,
) -> Seq<int> {
    let positions = kept(|i: int| forum_matches(forums[i], groups, filter), forums.len());
    most_first(positions, forum_keys(forums, positions))
}

pub open spec fn ints(v: Seq<usize>) -> Seq<int> {
    v.map_values(|i: usize| i as int)
}

proof fn lemma_kept_bounds(keep: spec_fn(int) -> bool, n: nat)
    ensures
        forall|i: int|
            0 <= i < kept(keep, n).len() ==> 0 <= #[trigger] kept(keep, n)[i] < n && keep(
                kept(keep, n)[i],
            ),
    decreases n,
{
    if n > 0 {
        let before = kept(keep, (n - 1) as nat);
        lemma_kept_bounds(keep, (n - 1) as nat);
        assert forall|i: int| 0 <= i < kept(keep, n).len() implies 0 <= #[trigger] kept(keep, n)[i]
            < n && keep(kept(keep, n)[i]) by {
            if i < before.len() {
                assert(kept(keep, n)[i] == before[i]);
            }
        }
    }
}

fn put_first(positions: &Vec<usize>, keys: &Vec<i64>) -> (r: Vec<usize>)
    requires
        positions@.len() == keys@.len(),
    ensures
        ints(r@) == most_first(ints(positions@), keys@),
        forall|i: int| 0 <= i < r@.len() ==> positions@.contains(#[trigger] r@[i]),
{
    let order = order_by(keys, Direction::Descending);
    let mut out: Vec<usize> = Vec::new();
    let mut i: usize = 0;
    while i < order.len()
        invariant
            i <= order@.len(),
            order@ == the_order(keys@, Direction::Descending),
            is_order(keys@, Direction::Descending, order@),
            positions@.len() == keys@.len(),
            out@.len() == i,
            forall|j: int| 0 <= j < i ==> #[trigger] out@[j] == positions@[order@[j] as int],
        decreases order@.len() - i,
    {
        out.push(positions[order[i]]);
        i += 1;
    }
    assert(ints(out@) =~= most_first(ints(positions@), keys@));
    assert forall|i: int| 0 <= i < out@.len() implies positions@.contains(#[trigger] out@[i]) by {
        assert(order@[i] < keys@.len());
        assert(positions@[order@[i] as int] == out@[i]);
    }
    out
}

fn matches_group(g: &Group, filter: &str) -> (r: bool)
    ensures
        r == group_matches(*g, filter@),
{
    filter.is_empty() || contains(to_lower(g.name.as_str()).as_str(), filter) || same(
        to_lower(g.lang.as_str()).as_str(),
        filter,
    )
}

/// The positions of the groups to list for a filter.
pub fn matching_groups(groups: &Vec<Group>, filter: &str) -> (r: Vec<usize>)
    ensures
        ints(r@) == groups_listed(groups@, filter@),
        forall|i: int| 0 <= i < r@.len() ==> #[trigger] r@[i] < groups@.len(),
{
    let ghost keep = |i: int| group_matches(groups@[i], filter@);
    let mut positions: Vec<usize> = Vec::new();
    let mut keys: Vec<i64> = Vec::new();
    let mut i: usize = 0;
    while i < groups.len()
        invariant
            i <= groups@.len(),
            keep == (|i: int| group_matches(groups@[i], filter@)),
            ints(positions@) == kept(keep, i as nat),
            keys@ == group_keys(groups@, ints(positions@)),
            forall|j: int| 0 <= j < positions@.len() ==> #[trigger] positions@[j] < groups@.len(),
        decreases groups@.len() - i,
    {
        if matches_group(&groups[i], filter) {
            let ghost before = positions@;
            positions.push(i);
            keys.push(groups[i].posts);
            assert(ints(positions@) =~= ints(before).push(i as int));
            assert(keys@ =~= group_keys(groups@, ints(positions@)));
        }
        i += 1;
    }
    let out = put_first(&positions, &keys);
    assert forall|i: int| 0 <= i < out@.len() implies #[trigger] out@[i] < groups@.len() by {
        assert(positions@.contains(out@[i]));
    }
    out
}

fn group_named(groups: &Vec<Group>, id: i64) -> (r: Option<&String>)
    ensures
        match r {
            Some(name) => group_name(groups@, id as int) == Some(name@),
            None => group_name(groups@, id as int) is None,
        },
{
    let mut n: usize = groups.len();
    assert(groups@.take(n as int) =~= groups@);
    while n > 0
        invariant
            n <= groups@.len(),
            group_name(groups@, id as int) == group_name(groups@.take(n as int), id as int),
        decreases n,
    {
        assert(groups@.take(n as int).drop_last() =~= groups@.take(n - 1));
        n -= 1;
        if groups[n].id == id {
            return Some(&groups[n].name);
        }
    }
    None
}

fn matches_forum(f: &Forum, groups: &Vec<Group>, filter: &str) -> (r: bool)
    ensures
        r == forum_matches(*f, groups@, filter@),
{
    if filter.is_empty() || contains(to_lower(f.name.as_str()).as_str(), filter) {
        return true;
    }
    match group_named(groups, f.group_id) {
        Some(name) => contains(to_lower(name.as_str()).as_str(), filter),
        None => {
            let nothing = String::new();
            assert(nothing@ =~= Seq::<char>::empty());
            contains(to_lower(nothing.as_str()).as_str(), filter)
        },
    }
}

/// The positions of the forums to list for a filter.
pub fn matching_forums(forums: &Vec<Forum>, groups: &Vec<Group>, filter: &str) -> (r: Vec<usize>)
    ensures
        ints(r@) == forums_listed(forums@, groups@, filter@),
        forall|i: int| 0 <= i < r@.len() ==> #[trigger] r@[i] < forums@.len(),
{
    let ghost keep = |i: int| forum_matches(forums@[i], groups@, filter@);
    let mut positions: Vec<usize> = Vec::new();
    let mut keys: Vec<i64> = Vec::new();
    let mut i: usize = 0;
    while i < forums.len()
        invariant
            i <= forums@.len(),
            keep == (|i: int| forum_matches(forums@[i], groups@, filter@)),
            ints(positions@) == kept(keep, i as nat),
            keys@ == forum_keys(forums@, ints(positions@)),
            forall|j: int| 0 <= j < positions@.len() ==> #[trigger] positions@[j] < forums@.len(),
        decreases forums@.len() - i,
    {
        if matches_forum(&forums[i], groups, filter) {
            let ghost before = positions@;
            positions.push(i);
            keys.push(forums[i].posts);
            assert(ints(positions@) =~= ints(before).push(i as int));
            assert(keys@ =~= forum_keys(forums@, ints(positions@)));
        }
        i += 1;
    }
    let out = put_first(&positions, &keys);
    assert forall|i: int| 0 <= i < out@.len() implies #[trigger] out@[i] < forums@.len() by {
        assert(positions@.contains(out@[i]));
    }
    out
}

/// A listing holds exactly the groups that match, each once, and no group after
/// a less active one.
pub proof fn listed_groups_match_most_active_first(groups: Seq<Group>, filter: Seq<char>)
    requires
        groups.len() <= usize::MAX,
    ensures
        forall|i: int|
            0 <= i < groups_listed(groups, filter).len() ==> {
                let at = #[trigger] groups_listed(groups, filter)[i];
                0 <= at < groups.len() && group_matches(groups[at], filter)
            },
        forall|at: int|
            0 <= at < groups.len() && group_matches(#[trigger] groups[at], filter)
                ==> groups_listed(groups, filter).contains(at),
        groups_listed(groups, filter).no_duplicates(),
        forall|i: int, j: int|
            0 <= i < j < groups_listed(groups, filter).len() ==> groups[#[trigger] groups_listed(
                groups,
                filter,
            )[i]].posts >= groups[#[trigger] groups_listed(groups, filter)[j]].posts,
        forall|i: int, j: int|
            0 <= i < j < groups_listed(groups, filter).len() && groups[#[trigger] groups_listed(
                groups,
                filter,
            )[i]].posts == groups[#[trigger] groups_listed(groups, filter)[j]].posts
                ==> groups_listed(groups, filter)[i] < groups_listed(groups, filter)[j],
{
    let keep = |i: int| group_matches(groups[i], filter);
    let positions = kept(keep, groups.len());
    let keys = group_keys(groups, positions);
    lemma_listing(keep, groups.len(), keys);
    let listed = groups_listed(groups, filter);
    assert forall|at: int|
        0 <= at < groups.len() && group_matches(#[trigger] groups[at], filter) implies listed.contains(
        at,
    ) by {
        assert(keep(at));
    }
    assert forall|i: int, j: int| 0 <= i < j < listed.len() implies groups[#[trigger] listed[i]].posts
        >= groups[#[trigger] listed[j]].posts by {
        let order = the_order(keys, Direction::Descending);
        assert(precedes(keys, Direction::Descending, order[i] as int, order[j] as int));
        assert(keys[order[i] as int] == groups[listed[i]].posts);
        assert(keys[order[j] as int] == groups[listed[j]].posts);
    }
    lemma_kept_increasing(keep, groups.len());
    assert forall|i: int, j: int|
        0 <= i < j < listed.len() && groups[#[trigger] listed[i]].posts
            == groups[#[trigger] listed[j]].posts implies listed[i] < listed[j] by {
        let order = the_order(keys, Direction::Descending);
        assert(precedes(keys, Direction::Descending, order[i] as int, order[j] as int));
        assert(keys[order[i] as int] == groups[listed[i]].posts);
        assert(keys[order[j] as int] == groups[listed[j]].posts);
        assert(positions[order[i] as int] < positions[order[j] as int]);
    }
}

/// A listing holds exactly the forums that match, each once, and no forum after
/// a less active one.
pub proof fn listed_forums_match_most_active_first(
    forums: Seq<Forum>,
    groups: Seq<Group>,
    filter: Seq<char>,
)
    requires
        forums.len() <= usize::MAX,
    ensures
        forall|i: int|
            0 <= i < forums_listed(forums, groups, filter).len() ==> {
                let at = #[trigger] forums_listed(forums, groups, filter)[i];
                0 <= at < forums.len() && forum_matches(forums[at], groups, filter)
            },
        forall|at: int|
            0 <= at < forums.len() && forum_matches(#[trigger] forums[at], groups, filter)
                ==> forums_listed(forums, groups, filter).contains(at),
        forums_listed(forums, groups, filter).no_duplicates(),
        forall|i: int, j: int|
            0 <= i < j < forums_listed(forums, groups, filter).len()
                ==> forums[#[trigger] forums_listed(forums, groups, filter)[i]].posts
                >= forums[#[trigger] forums_listed(forums, groups, filter)[j]].posts,
        forall|i: int, j: int|
            0 <= i < j < forums_listed(forums, groups, filter).len()
                && forums[#[trigger] forums_listed(forums, groups, filter)[i]].posts
                == forums[#[trigger] forums_listed(forums, groups, filter)[j]].posts
                ==> forums_listed(forums, groups, filter)[i] < forums_listed(
                forums,
                groups,
                filter,
            )[j],
{
    let keep = |i: int| forum_matches(forums[i], groups, filter);
    let positions = kept(keep, forums.len());
    let keys = forum_keys(forums, positions);
    lemma_listing(keep, forums.len(), keys);
    let listed = forums_listed(forums, groups, filter);
    assert forall|at: int|
        0 <= at < forums.len() && forum_matches(#[trigger] forums[at], groups, filter) implies listed.contains(
        at,
    ) by {
        assert(keep(at));
    }
    assert forall|i: int, j: int| 0 <= i < j < listed.len() implies forums[#[trigger] listed[i]].posts
        >= forums[#[trigger] listed[j]].posts by {
        let order = the_order(keys, Direction::Descending);
        assert(precedes(keys, Direction::Descending, order[i] as int, order[j] as int));
        assert(keys[order[i] as int] == forums[listed[i]].posts);
        assert(keys[order[j] as int] == forums[listed[j]].posts);
    }
    lemma_kept_increasing(keep, forums.len());
    assert forall|i: int, j: int|
        0 <= i < j < listed.len() && forums[#[trigger] listed[i]].posts
            == forums[#[trigger] listed[j]].posts implies listed[i] < listed[j] by {
        let order = the_order(keys, Direction::Descending);
        assert(precedes(keys, Direction::Descending, order[i] as int, order[j] as int));
        assert(keys[order[i] as int] == forums[listed[i]].posts);
        assert(keys[order[j] as int] == forums[listed[j]].posts);
        assert(positions[order[i] as int] < positions[order[j] as int]);
    }
}

proof fn lemma_kept_all(keep: spec_fn(int) -> bool, n: nat, x: int)
    requires
        0 <= x < n,
        keep(x),
    ensures
        kept(keep, n).contains(x),
    decreases n,
{
    let before = kept(keep, (n - 1) as nat);
    if x == n - 1 {
        assert(kept(keep, n)[before.len() as int] == x);
    } else {
        lemma_kept_all(keep, (n - 1) as nat, x);
        let i = choose|i: int| 0 <= i < before.len() && before[i] == x;
        assert(kept(keep, n)[i] == x);
    }
}

proof fn lemma_kept_increasing(keep: spec_fn(int) -> bool, n: nat)
    ensures
        forall|i: int, j: int|
            0 <= i < j < kept(keep, n).len() ==> #[trigger] kept(keep, n)[i] < #[trigger] kept(
                keep,
                n,
            )[j],
    decreases n,
{
    if n > 0 {
        let before = kept(keep, (n - 1) as nat);
        lemma_kept_increasing(keep, (n - 1) as nat);
        lemma_kept_bounds(keep, (n - 1) as nat);
        assert forall|i: int, j: int| 0 <= i < j < kept(keep, n).len() implies #[trigger] kept(
            keep,
            n,
        )[i] < #[trigger] kept(keep, n)[j] by {
            assert(kept(keep, n)[i] == before[i]);
            if j < before.len() {
                assert(kept(keep, n)[j] == before[j]);
            }
        }
    }
}

proof fn lemma_kept_len(keep: spec_fn(int) -> bool, n: nat)
    ensures
        kept(keep, n).len() <= n,
    decreases n,
{
    if n > 0 {
        lemma_kept_len(keep, (n - 1) as nat);
    }
}

proof fn lemma_listing(keep: spec_fn(int) -> bool, n: nat, keys: Seq<i64>)
    requires
        n <= usize::MAX,
        keys.len() == kept(keep, n).len(),
    ensures
        is_order(keys, Direction::Descending, the_order(keys, Direction::Descending)),
        forall|i: int|
            0 <= i < most_first(kept(keep, n), keys).len() ==> 0 <= #[trigger] most_first(
                kept(keep, n),
                keys,
            )[i] < n && keep(most_first(kept(keep, n), keys)[i]),
        forall|x: int|
            0 <= x < n && #[trigger] keep(x) ==> most_first(kept(keep, n), keys).contains(x),
        most_first(kept(keep, n), keys).no_duplicates(),
{
    let positions = kept(keep, n);
    let listed = most_first(positions, keys);
    let order = the_order(keys, Direction::Descending);
    lemma_kept_len(keep, n);
    order_exists(keys, Direction::Descending);
    order_lists_every_item_once(keys, Direction::Descending, order);
    lemma_kept_bounds(keep, n);
    lemma_kept_increasing(keep, n);
    assert forall|i: int| 0 <= i < listed.len() implies 0 <= #[trigger] listed[i] < n && keep(
        listed[i],
    ) by {
        assert(listed[i] == positions[order[i] as int]);
    }
    assert forall|x: int| 0 <= x < n && #[trigger] keep(x) implies listed.contains(x) by {
        lemma_kept_all(keep, n, x);
        let k = choose|k: int| 0 <= k < positions.len() && positions[k] == x;
        assert(lists(order, k));
        let i = choose|i: int| 0 <= i < order.len() && order[i] == k;
        assert(listed[i] == x);
    }
    assert forall|i: int, j: int|
        0 <= i < listed.len() && 0 <= j < listed.len() && i != j implies listed[i] != listed[j] by {
        let a = order[i] as int;
        let b = order[j] as int;
        assert(a != b);
        assert(listed[i] == positions[a] && listed[j] == positions[b]);
        if a < b {
            assert(positions[a] < positions[b]);
        } else {
            assert(positions[b] < positions[a]);
        }
    }
}

// ---------------------------------------------------------------------------
// Lines of a listing
// ---------------------------------------------------------------------------

/// One line of a numbered menu.
pub fn menu_line(at: usize, option: &str) -> (r: String)
    ensures
        r@ == "  "@ + decimal((at + 1) as nat) + ". "@ + option@,
{
    String::from_str("  ").concat(nat_text(at as u128 + 1).as_str()).concat(". ").concat(option)
}

pub open spec fn group_line_text(at: int, g: Group) -> Seq<char> {
    "  "@ + decimal((at + 1) as nat) + ". "@ + g.name@ + " ["@ + (if g.lang@.len() == 0 {
        "??"@
    } else {
        g.lang@
    }) + "] - "@ + decimal_int(g.forums as int) + " forums, "@ + decimal_int(g.posts as int)
        + " posts"@ + (if g.public {
        ""@
    } else {
        " (private)"@
    })
}

/// The line that lists the group at position `at` of a listing.
pub fn group_line(at: usize, g: &Group) -> (r: String)
    ensures
        r@ == group_line_text(at as int, *g),
{
    let lang = if g.lang.as_str().is_empty() {
        "??"
    } else {
        g.lang.as_str()
    };
    let note = if g.public {
        ""
    } else {
        " (private)"
    };
    menu_line(at, g.name.as_str()).concat(" [").concat(lang).concat("] - ").concat(
        int_text(g.forums).as_str(),
    ).concat(" forums, ").concat(int_text(g.posts).as_str()).concat(" posts").concat(note)
}

pub open spec fn forum_line_text(at: int, f: Forum, groups: Seq<Group>) -> Seq<char> {
    "  "@ + decimal((at + 1) as nat) + ". "@ + f.name@ + " - "@ + decimal_int(f.threads as int)
        + " threads, "@ + decimal_int(f.posts as int) + " posts (group: "@ + name_or(
        group_name(groups, f.group_id as int),
        "unknown"@,
    ) + ")"@
}

/// The line that lists the forum at position `at` of a listing.
pub fn forum_line(at: usize, f: &Forum, groups: &Vec<Group>) -> (r: String)
    ensures
        r@ == forum_line_text(at as int, *f, groups@),
{
    let group = match group_named(groups, f.group_id) {
        Some(name) => name.as_str(),
        None => "unknown",
    };
    menu_line(at, f.name.as_str()).concat(" - ").concat(int_text(f.threads).as_str()).concat(
        " threads, ",
    ).concat(int_text(f.posts).as_str()).concat(" posts (group: ").concat(group).concat(")")
}

/// What is said when a filter leaves nothing of `what`.
pub fn no_match(what: &str, filter: &str) -> (r: String)
    ensures
        r@ == "no "@ + what@ + " matched "@ + quoted(filter@),
{
    String::from_str("no ").concat(what).concat(" matched ").concat(quote(filter).as_str())
}

/// The ids of the picked groups of a listing.
pub fn picked_groups(groups: &Vec<Group>, listing: &Vec<usize>, picked: &Vec<usize>) -> (r: Vec<
    i64,
>)
    requires
        forall|i: int| 0 <= i < listing@.len() ==> #[trigger] listing@[i] < groups@.len(),
        forall|i: int| 0 <= i < picked@.len() ==> #[trigger] picked@[i] < listing@.len(),
    ensures
        r@ == picked@.map_values(|p: usize| groups@[listing@[p as int] as int].id),
{
    let mut out: Vec<i64> = Vec::new();
    let mut i: usize = 0;
    while i < picked.len()
        invariant
            i <= picked@.len(),
            forall|i: int| 0 <= i < listing@.len() ==> #[trigger] listing@[i] < groups@.len(),
            forall|i: int| 0 <= i < picked@.len() ==> #[trigger] picked@[i] < listing@.len(),
            out@.len() == i,
            forall|j: int|
                0 <= j < i ==> #[trigger] out@[j] == groups@[listing@[picked@[j] as int] as int].id,
        decreases picked@.len() - i,
    {
        out.push(groups[listing[picked[i]]].id);
        i += 1;
    }
    out
}

/// The ids of the picked forums of a listing.
pub fn picked_forums(forums: &Vec<Forum>, listing: &Vec<usize>, picked: &Vec<usize>) -> (r: Vec<
    i64,
>)
    requires
        forall|i: int| 0 <= i < listing@.len() ==> #[trigger] listing@[i] < forums@.len(),
        forall|i: int| 0 <= i < picked@.len() ==> #[trigger] picked@[i] < listing@.len(),
    ensures
        r@ == picked@.map_values(|p: usize| forums@[listing@[p as int] as int].id),
{
    let mut out: Vec<i64> = Vec::new();
    let mut i: usize = 0;
    while i < picked.len()
        invariant
            i <= picked@.len(),
            forall|i: int| 0 <= i < listing@.len() ==> #[trigger] listing@[i] < forums@.len(),
            forall|i: int| 0 <= i < picked@.len() ==> #[trigger] picked@[i] < listing@.len(),
            out@.len() == i,
            forall|j: int|
                0 <= j < i ==> #[trigger] out@[j] == forums@[listing@[picked@[j] as int] as int].id,
        decreases picked@.len() - i,
    {
        out.push(forums[listing[picked[i]]].id);
        i += 1;
    }
    out
}

// ---------------------------------------------------------------------------
// The selection
// ---------------------------------------------------------------------------

/// What the user can choose to scrape.
#[derive(Debug, Clone, Copy, PartialEq, Eq, Structural)]
pub enum Mode {
    All,
    Groups,
    Forums,
    Exclude,
}

pub open spec fn mode_at(at: int) -> Mode {
    if at == 0 {
        Mode::All
    } else if at == 1 {
        Mode::Groups
    } else if at == 2 {
        Mode::Forums
    } else {
        Mode::Exclude
    }
}

/// Whether `r` is the selection that a mode makes with what was picked for it.
pub open spec fn selects(mode: Mode, picked: Seq<i64>, r: Selection) -> bool {
    &&& r.mode@ == match mode {
        Mode::All => "all"@,
        Mode::Groups => "groups"@,
        Mode::Forums => "forums"@,
        Mode::Exclude => "exclude"@,
    }
    &&& r.groups@ == (if mode is Groups {
        picked
    } else {
        Seq::empty()
    })
    &&& r.forums@ == (if mode is Forums || mode is Exclude {
        picked
    } else {
        Seq::empty()
    })
}

/// The mode that stands at a position of the menu.
pub fn menu_mode(at: usize) -> (r: Mode)
    ensures
        r == (if at == 0 {
            Mode::All
        } else if at == 1 {
            Mode::Groups
        } else if at == 2 {
            Mode::Forums
        } else {
            Mode::Exclude
        }),
        r == mode_at(at as int),
{
    match at {
        0 => Mode::All,
        1 => Mode::Groups,
        2 => Mode::Forums,
        _ => Mode::Exclude,
    }
}

/// The selection that a mode makes with the ids picked for it. Whatever an
/// earlier selection held is gone.
pub fn select(mode: Mode, picked: Vec<i64>) -> (r: Selection)
    ensures
        r.mode@ == match mode {
            Mode::All => "all"@,
            Mode::Groups => "groups"@,
            Mode::Forums => "forums"@,
            Mode::Exclude => "exclude"@,
        },
        r.groups@ == (if mode is Groups {
            picked@
        } else {
            Seq::empty()
        }),
        r.forums@ == (if mode is Forums || mode is Exclude {
            picked@
        } else {
            Seq::empty()
        }),
        selects(mode, picked@, r),
{
    match mode {
        Mode::All => Selection {
            mode: String::from_str("all"),
            groups: Vec::new(),
            forums: Vec::new(),
        },
        Mode::Groups => Selection {
            mode: String::from_str("groups"),
            groups: picked,
            forums: Vec::new(),
        },
        Mode::Forums => Selection {
            mode: String::from_str("forums"),
            groups: Vec::new(),
            forums: picked,
        },
        Mode::Exclude => Selection {
            mode: String::from_str("exclude"),
            groups: Vec::new(),
            forums: picked,
        },
    }
}

/// Whether a selection covers a forum.
pub open spec fn covers(selection: Selection, f: Forum) -> bool {
    if selection.mode@ == "groups"@ {
        selection.groups@.contains(f.group_id)
    } else if selection.mode@ == "forums"@ {
        selection.forums@.contains(f.id)
    } else if selection.mode@ == "exclude"@ {
        !selection.forums@.contains(f.id)
    } else {
        true
    }
}

/// The ids of the forums that a selection covers, in catalog order.
pub open spec fn selected_ids(selection: Selection, forums: Seq<Forum>) -> Seq<i64> {
    forums.filter(|f: Forum| covers(selection, f)).map_values(|f: Forum| f.id)
}

pub fn id_set(ids: &Vec<i64>) -> (r: HashSet<i64>)
    ensures
        r@ == ids@.to_set(),
{
    let mut out: HashSet<i64> = HashSet::new();
    let mut i: usize = 0;
    while i < ids.len()
        invariant
            i <= ids@.len(),
            forall|x: i64| #[trigger]
                out@.contains(x) <==> exists|j: int| 0 <= j < i && ids@[j] == x,
        decreases ids@.len() - i,
    {
        out.insert(ids[i]);
        i += 1;
    }
    assert(out@ =~= ids@.to_set()) by {
        assert forall|x: i64| ids@.to_set().contains(x) implies out@.contains(x) by {
            let j = choose|j: int| 0 <= j < ids@.len() && ids@[j] == x;
            assert(ids@[j] == x);
        }
    }
    out
}

/// Which forum ids the current selection resolves to.
pub fn resolve_forums(cfg: &Config, structure: &Structure) -> (r: Vec<i64>)
    ensures
        r@ == selected_ids(cfg.selection, structure.forums@),
{
    let selection = &cfg.selection;
    let mode = selection.mode.as_str();
    let by_group = same(mode, "groups");
    let by_forum = same(mode, "forums");
    let by_exclusion = same(mode, "exclude");
    let ghost keep = |f: Forum| covers(cfg.selection, f);
    let wanted = if by_group {
        id_set(&selection.groups)
    } else {
        id_set(&selection.forums)
    };
    let mut out: Vec<i64> = Vec::new();
    let mut i: usize = 0;
    assert(structure.forums@.take(0).filter(keep) =~= Seq::empty()) by {
        reveal(Seq::filter);
    }
    assert(out@ =~= structure.forums@.take(0).filter(keep).map_values(|f: Forum| f.id));
    while i < structure.forums.len()
        invariant
            i <= structure.forums@.len(),
            by_group == (cfg.selection.mode@ == "groups"@),
            by_forum == (cfg.selection.mode@ == "forums"@),
            by_exclusion == (cfg.selection.mode@ == "exclude"@),
            wanted@ == (if by_group {
                cfg.selection.groups@.to_set()
            } else {
                cfg.selection.forums@.to_set()
            }),
            keep == (|f: Forum| covers(cfg.selection, f)),
            out@ == structure.forums@.take(i as int).filter(keep).map_values(|f: Forum| f.id),
        decreases structure.forums@.len() - i,
    {
        let f = &structure.forums[i];
        let covered = if by_group {
            wanted.contains(&f.group_id)
        } else if by_forum {
            wanted.contains(&f.id)
        } else if by_exclusion {
            !wanted.contains(&f.id)
        } else {
            true
        };
        let ghost now = structure.forums@.take(i + 1);
        proof {
            reveal(Seq::filter);
            assert(now.drop_last() =~= structure.forums@.take(i as int));
            assert(now.last() == *f);
            assert(covered == keep(*f));
        }
        if covered {
            out.push(f.id);
        }
        assert(out@ =~= now.filter(keep).map_values(|f: Forum| f.id));
        i += 1;
    }
    assert(structure.forums@.take(i as int) =~= structure.forums@);
    out
}

/// A forum is either covered by a selection of forums or by the selection that
/// excludes the same forums.
pub proof fn exclusion_complements_selection(a: Selection, b: Selection, f: Forum)
    requires
        a.mode@ == "forums"@,
        b.mode@ == "exclude"@,
        a.forums@ == b.forums@,
    ensures
        covers(a, f) != covers(b, f),
{
    reveal_strlit("groups");
    reveal_strlit("forums");
    reveal_strlit("exclude");
    assert("groups"@[0] != "exclude"@[0]);
    assert("forums"@[0] != "exclude"@[0]);
    assert("forums"@[0] != "groups"@[0]);
}

/// The default selection covers the whole catalog.
pub proof fn default_selection_covers_everything(selection: Selection, forums: Seq<Forum>)
    requires
        selection.is_default(),
    ensures
        selected_ids(selection, forums) == forums.map_values(|f: Forum| f.id),
{
    reveal_strlit("all");
    reveal_strlit("groups");
    reveal_strlit("forums");
    reveal_strlit("exclude");
    assert("all"@.len() == 3 && "groups"@.len() == 6 && "forums"@.len() == 6 && "exclude"@.len()
        == 7);
    lemma_keep_all(forums, |f: Forum| covers(selection, f));
}

proof fn lemma_keep_all(forums: Seq<Forum>, keep: spec_fn(Forum) -> bool)
    requires
        forall|f: Forum| #[trigger] keep(f),
    ensures
        forums.filter(keep) == forums,
    decreases forums.len(),
{
    reveal(Seq::filter);
    if forums.len() > 0 {
        lemma_keep_all(forums.drop_last(), keep);
        assert(keep(forums.last()));
        assert(forums.drop_last().push(forums.last()) =~= forums);
    } else {
        assert(forums.filter(keep) =~= forums);
    }
}

/// The number of posts in the forums with the given ids.
pub open spec fn posts_in(forums: Seq<Forum>, ids: Set<i64>) -> int
    decreases forums.len(),
{
    if forums.len() == 0 {
        0
    } else {
        posts_in(forums.drop_last(), ids) + (if ids.contains(forums.last().id) {
            forums.last().posts as int
        } else {
            0
        })
    }
}

/// The number of posts in all forums.
pub open spec fn all_posts(forums: Seq<Forum>) -> int
    decreases forums.len(),
{
    if forums.len() == 0 {
        0
    } else {
        all_posts(forums.drop_last()) + forums.last().posts
    }
}

/// The number of threads in the forums with the given ids.
pub open spec fn threads_in(threads: Seq<ThreadMeta>, ids: Set<i64>) -> nat
    decreases threads.len(),
{
    if threads.len() == 0 {
        0
    } else {
        threads_in(threads.drop_last(), ids) + (if ids.contains(threads.last().forum_id) {
            1nat
        } else {
            0
        })
    }
}

/// How many posts a catalog announces.
pub fn total_posts(structure: &Structure) -> (r: i128)
    ensures
        r == all_posts(structure.forums@),
{
    let forums = &structure.forums;
    let mut total: i128 = 0;
    let mut i: usize = 0;
    while i < forums.len()
        invariant
            i <= forums@.len(),
            total == all_posts(forums@.take(i as int)),
            -0x8000_0000_0000_0000 * i <= total <= 0x8000_0000_0000_0000 * i,
        decreases forums@.len() - i,
    {
        assert(forums@.take(i + 1).drop_last() =~= forums@.take(i as int));
        total += forums[i].posts as i128;
        i += 1;
    }
    assert(forums@.take(i as int) =~= forums@);
    total
}

pub fn count_threads(threads: &Vec<ThreadMeta>, ids: &HashSet<i64>) -> (r: usize)
    ensures
        r == threads_in(threads@, ids@),
{
    let mut n: usize = 0;
    let mut i: usize = 0;
    while i < threads.len()
        invariant
            i <= threads@.len(),
            n <= i,
            n == threads_in(threads@.take(i as int), ids@),
        decreases threads@.len() - i,
    {
        assert(threads@.take(i + 1).drop_last() =~= threads@.take(i as int));
        if ids.contains(&threads[i].forum_id) {
            n += 1;
        }
        i += 1;
    }
    assert(threads@.take(i as int) =~= threads@);
    n
}

/// What a selection amounts to.
#[derive(Debug, Clone, Copy)]
pub struct Totals {
    pub forums: usize,
    pub threads: usize,
    pub posts: i128,
}

/// Whether `r` is what a selection amounts to.
pub open spec fn sums_up(selection: Selection, structure: Structure, r: Totals) -> bool {
    let ids = selected_ids(selection, structure.forums@);
    &&& r.forums == ids.len()
    &&& r.threads == threads_in(structure.threads@, ids.to_set())
    &&& r.posts == posts_in(structure.forums@, ids.to_set())
}

pub fn summarise(cfg: &Config, structure: &Structure) -> (r: Totals)
    ensures
        r.forums == selected_ids(cfg.selection, structure.forums@).len(),
        r.threads == threads_in(
            structure.threads@,
            selected_ids(cfg.selection, structure.forums@).to_set(),
        ),
        r.posts == posts_in(
            structure.forums@,
            selected_ids(cfg.selection, structure.forums@).to_set(),
        ),
        sums_up(cfg.selection, *structure, r),
{
    let forums = resolve_forums(cfg, structure);
    let ids = id_set(&forums);
    let all = &structure.forums;
    let mut posts: i128 = 0;
    let mut i: usize = 0;
    while i < all.len()
        invariant
            i <= all@.len(),
            posts == posts_in(all@.take(i as int), ids@),
            -0x8000_0000_0000_0000 * i <= posts <= 0x8000_0000_0000_0000 * i,
        decreases all@.len() - i,
    {
        assert(all@.take(i + 1).drop_last() =~= all@.take(i as int));
        if ids.contains(&all[i].id) {
            posts += all[i].posts as i128;
        }
        i += 1;
    }
    assert(all@.take(i as int) =~= all@);
    Totals { forums: forums.len(), threads: count_threads(&structure.threads, &ids), posts }
}

// ---------------------------------------------------------------------------
// What holds of selections
// ---------------------------------------------------------------------------

/// Indices that list a run of numbers are that run, in order.
proof fn lemma_lists_span(v: Seq<usize>, from: int, to: int)
    requires
        0 <= from <= to <= usize::MAX,
        lists_increasing(v, span(from, to)),
    ensures
        v.len() == to - from,
        forall|i: int| 0 <= i < v.len() ==> #[trigger] v[i] == from + i,
{
    let w = Seq::new((to - from) as nat, |i: int| (from + i) as usize);
    assert(lists_increasing(w, span(from, to))) by {
        assert forall|x: int| #[trigger] span(from, to).contains(x) implies exists|i: int|
            0 <= i < w.len() && #[trigger] w[i] == x by {
            assert(w[x - from] == x);
        }
    }
    selected_indices_are_unique(v, w, span(from, to));
}

proof fn lemma_decimal_is_plain(n: nat)
    ensures
        decimal(n).len() > 0,
        forall|i: int| 0 <= i < decimal(n).len() ==> is_digit(#[trigger] decimal(n)[i]),
        !decimal(n).contains(','),
        !decimal(n).contains('-'),
        trimmed(decimal(n)) == decimal(n),
{
    written_numbers_read_back(n as int, n as int);
    lemma_digits_of(n);
}

proof fn lemma_digits_of(n: nat)
    ensures
        decimal(n).len() > 0,
        forall|i: int| 0 <= i < decimal(n).len() ==> is_digit(#[trigger] decimal(n)[i]),
    decreases n,
{
    if n >= 10 {
        lemma_digits_of(n / 10);
        assert forall|i: int| 0 <= i < decimal(n).len() implies is_digit(
            #[trigger] decimal(n)[i],
        ) by {
            if i < decimal(n / 10).len() {
                assert(decimal(n)[i] == decimal(n / 10)[i]);
            }
        }
    }
}

proof fn lemma_one_entry(s: Seq<char>, max: int)
    requires
        s.len() > 0,
        !s.contains(','),
        trimmed(s) == s,
        !same_ascii(s, "all"@),
    ensures
        answer_selects(s, max) == (match entry_range(s, max) {
            Err(e) => Err::<Set<int>, IndexErrorV>(e),
            Ok(None) => Ok::<Set<int>, IndexErrorV>(Set::empty()),
            Ok(Some((from, to))) => Ok::<Set<int>, IndexErrorV>(span(from - 1, to)),
        }),
{
    splitting_undoes_joining(s, s, ',', ',', ',');
    lemma_entries_of_one(s, max);
}

/// A number typed for a list picks the item that it numbers, counted from 1, and
/// nothing else; a number that is not in the list is reported as such. `v` is what
/// was picked.
pub proof fn a_number_picks_its_item(n: nat, max: usize, v: Seq<usize>)
    requires
        n <= usize::MAX,
    ensures
        1 <= n <= max ==> answer_selects(decimal(n), max as int) is Ok,
        1 <= n <= max && lists_increasing(v, answer_selects(decimal(n), max as int)->Ok_0)
            ==> v.len() == 1 && v[0] == n - 1,
        n == 0 || n > max ==> answer_selects(decimal(n), max as int) == Err::<
            Set<int>,
            IndexErrorV,
        >(IndexErrorV::OutOfRange(decimal(n), max as int)),
{
    let s = decimal(n);
    lemma_decimal_is_plain(n);
    written_numbers_read_back(n as int, usize::MAX as int);
    assert(!same_ascii(s, "all"@)) by {
        reveal_strlit("all");
        comparison_ignores_case(s, "all"@);
        if s.len() == 3 {
            assert(is_digit(s[0]));
            assert("all"@[0] == 'a');
        }
    }
    halves_are_cut_at_the_first(s, s, '-');
    lemma_one_entry(s, max as int);
    if 1 <= n <= max && lists_increasing(v, answer_selects(s, max as int)->Ok_0) {
        lemma_lists_span(v, n - 1, n as int);
    }
}

/// A range typed for a list picks the items from its first number to its last, both
/// included, and nothing else, with or without white space around the numbers; one
/// that reaches outside the list, or runs backwards, is reported as it was typed. `a`
/// and `b` are what was typed for the two numbers, and `v` is what was picked.
pub proof fn a_range_picks_its_items(
    a: Seq<char>,
    b: Seq<char>,
    from: nat,
    to: nat,
    max: usize,
    v: Seq<usize>,
)
    requires
        from <= usize::MAX,
        to <= usize::MAX,
        trimmed(a) == decimal(from),
        trimmed(b) == decimal(to),
        !a.contains('-'),
        !a.contains(','),
        !b.contains(','),
    ensures
        ({
            let typed = a + seq!['-'] + b;
            &&& 1 <= from <= to <= max ==> answer_selects(typed, max as int) is Ok
            &&& 1 <= from <= to <= max && lists_increasing(
                v,
                answer_selects(typed, max as int)->Ok_0,
            ) ==> v.len() == to - from + 1 && forall|i: int|
                0 <= i < v.len() ==> #[trigger] v[i] == from - 1 + i
            &&& !(1 <= from <= to <= max) ==> answer_selects(typed, max as int) == Err::<
                Set<int>,
                IndexErrorV,
            >(IndexErrorV::OutOfRange(trimmed(typed), max as int))
        }),
{
    let typed = a + seq!['-'] + b;
    let (x, y) = (trimmed_start(a), trimmed_end(b));
    let s = x + seq!['-'] + y;
    lemma_trimmed_around(a, '-', b);
    written_numbers_read_back(from as int, usize::MAX as int);
    written_numbers_read_back(to as int, usize::MAX as int);
    lemma_range_is_plain(a, b);
    assert(!same_ascii(s, "all"@)) by {
        reveal_strlit("all");
        comparison_ignores_case(s, "all"@);
        if s.len() == 3 {
            assert(s[x.len() as int] == '-');
            let i = x.len() as int;
            assert("all"@[i] == 'a' || "all"@[i] == 'l');
        }
    }
    halves_are_cut_at_the_first(x, y, '-');
    splitting_undoes_joining(s, s, ',', ',', ',');
    lemma_entries_of_one(s, max as int);
    lemma_trimmed_again(typed);
    if 1 <= from <= to <= max && lists_increasing(v, answer_selects(typed, max as int)->Ok_0) {
        lemma_lists_span(v, from - 1, to as int);
    }
}

/// Trimming twice is trimming once.
proof fn lemma_trimmed_again(s: Seq<char>)
    ensures
        trimmed(trimmed(s)) == trimmed(s),
{
    trimming_takes_only_outer_space(s);
    lemma_trimmed_whole(trimmed(s));
}

proof fn lemma_range_is_plain(a: Seq<char>, b: Seq<char>)
    requires
        !a.contains('-'),
        !a.contains(','),
        !b.contains(','),
    ensures
        !trimmed_start(a).contains('-'),
        !(trimmed_start(a) + seq!['-'] + trimmed_end(b)).contains(','),
{
    let (x, y) = (trimmed_start(a), trimmed_end(b));
    lemma_start_is_part(a);
    lemma_end_is_part(b);
    let s = x + seq!['-'] + y;
    assert forall|i: int| 0 <= i < s.len() implies #[trigger] s[i] != ',' by {
        if i < x.len() {
            assert(x.contains(x[i]));
        } else if i > x.len() {
            assert(y.contains(y[i - x.len() - 1]));
        }
    }
}

proof fn lemma_start_is_part(s: Seq<char>)
    ensures
        forall|c: char| #[trigger] trimmed_start(s).contains(c) ==> s.contains(c),
    decreases s.len(),
{
    if s.len() > 0 && is_space(s[0]) {
        lemma_start_is_part(s.skip(1));
        assert forall|c: char| #[trigger] trimmed_start(s).contains(c) implies s.contains(c) by {
            assert(trimmed_start(s.skip(1)).contains(c));
            let i = choose|i: int| 0 <= i < s.skip(1).len() && s.skip(1)[i] == c;
            assert(s[i + 1] == c);
        }
    }
}

proof fn lemma_end_is_part(s: Seq<char>)
    ensures
        forall|c: char| #[trigger] trimmed_end(s).contains(c) ==> s.contains(c),
    decreases s.len(),
{
    if s.len() > 0 && is_space(s.last()) {
        lemma_end_is_part(s.drop_last());
        assert forall|c: char| #[trigger] trimmed_end(s).contains(c) implies s.contains(c) by {
            assert(trimmed_end(s.drop_last()).contains(c));
            let i = choose|i: int| 0 <= i < s.drop_last().len() && s.drop_last()[i] == c;
            assert(s[i] == c);
        }
    }
}

proof fn lemma_entries_of_one(s: Seq<char>, max: int)
    ensures
        entries_select(seq![s], max) == (match entry_range(s, max) {
            Err(e) => Err::<Set<int>, IndexErrorV>(e),
            Ok(None) => Ok::<Set<int>, IndexErrorV>(Set::empty()),
            Ok(Some((from, to))) => Ok::<Set<int>, IndexErrorV>(span(from - 1, to)),
        }),
{
    let one = seq![s];
    assert(one.drop_last() =~= Seq::empty());
    assert(one.last() == s);
    reveal_with_fuel(entries_select, 2);
    if let Ok(Some((from, to))) = entry_range(s, max) {
        assert(Set::<int>::empty().union(span(from - 1, to)) =~= span(from - 1, to));
    }
}

/// A range of which one end does not read as a number is reported as it was typed.
pub proof fn unreadable_ranges_are_reported(a: Seq<char>, b: Seq<char>, max: int)
    requires
        !a.contains('-'),
        !a.contains(','),
        !b.contains(','),
        typed_number(trimmed(a)) is None || typed_number(trimmed(b)) is None,
    ensures
        answer_selects(a + seq!['-'] + b, max) == Err::<Set<int>, IndexErrorV>(
            IndexErrorV::Unreadable(trimmed(a + seq!['-'] + b)),
        ),
{
    let typed = a + seq!['-'] + b;
    let (x, y) = (trimmed_start(a), trimmed_end(b));
    let s = x + seq!['-'] + y;
    lemma_trimmed_around(a, '-', b);
    lemma_range_is_plain(a, b);
    assert(!same_ascii(s, "all"@)) by {
        reveal_strlit("all");
        comparison_ignores_case(s, "all"@);
        if s.len() == 3 {
            assert(s[x.len() as int] == '-');
            let i = x.len() as int;
            assert("all"@[i] == 'a' || "all"@[i] == 'l');
        }
    }
    halves_are_cut_at_the_first(x, y, '-');
    splitting_undoes_joining(s, s, ',', ',', ',');
    lemma_entries_of_one(s, max);
    lemma_trimmed_again(typed);
}

/// Of several faults in a list the first is reported.
pub proof fn the_first_fault_is_reported(a: Seq<char>, b: Seq<char>, max: int)
    requires
        !same_ascii(trimmed(a), "all"@),
        !same_ascii(trimmed(b), "all"@),
    ensures
        answer_selects(a, max) is Err ==> answer_selects(a + seq![','] + b, max) == answer_selects(
            a,
            max,
        ),
        answer_selects(a, max) is Ok && answer_selects(b, max) is Err ==> answer_selects(
            a + seq![','] + b,
            max,
        ) == answer_selects(b, max),
{
    let joined = a + seq![','] + b;
    lemma_answer_is_its_entries(a, max);
    lemma_answer_is_its_entries(b, max);
    lemma_joined_is_not_all(a, b);
    lemma_answer_is_its_entries(joined, max);
    lemma_pieces_joined(a, b);
    lemma_first_error(pieces(a, ',', ','), pieces(b, ',', ','), max);
}

proof fn lemma_first_error(p: Seq<Seq<char>>, q: Seq<Seq<char>>, max: int)
    ensures
        entries_select(p, max) is Err ==> entries_select(p + q, max) == entries_select(p, max),
        entries_select(p, max) is Ok && entries_select(q, max) is Err ==> entries_select(p + q, max)
            == entries_select(q, max),
    decreases q.len(),
{
    if q.len() == 0 {
        assert(p + q =~= p);
    } else {
        assert((p + q).drop_last() =~= p + q.drop_last());
        assert((p + q).last() == q.last());
        lemma_first_error(p, q.drop_last(), max);
        lemma_entries_joined(p, q.drop_last(), max);
    }
}

/// "all", in any case and with white space around it, picks every item of the list,
/// and an empty answer picks none. `v` is what was picked.
pub proof fn all_picks_everything(s: Seq<char>, max: usize, v: Seq<usize>)
    ensures
        same_ascii(trimmed(s), "all"@) ==> answer_selects(s, max as int) is Ok,
        same_ascii(trimmed(s), "all"@) && lists_increasing(
            v,
            answer_selects(s, max as int)->Ok_0,
        ) ==> v.len() == max && forall|i: int| 0 <= i < v.len() ==> #[trigger] v[i] == i,
        trimmed(s).len() == 0 ==> answer_selects(s, max as int) is Ok,
        trimmed(s).len() == 0 && lists_increasing(v, answer_selects(s, max as int)->Ok_0)
            ==> v.len() == 0,
{
    reveal_strlit("all");
    comparison_ignores_case(trimmed(s), "all"@);
    if same_ascii(trimmed(s), "all"@) && lists_increasing(
        v,
        answer_selects(s, max as int)->Ok_0,
    ) {
        lemma_lists_span(v, 0, max as int);
    }
    if trimmed(s).len() == 0 && lists_increasing(v, answer_selects(s, max as int)->Ok_0) {
        if v.len() > 0 {
            assert(answer_selects(s, max as int)->Ok_0.contains(v[0] as int));
        }
    }
}

/// An entry that is neither a number nor a range is reported as it was typed.
pub proof fn unreadable_entries_are_reported(s: Seq<char>, max: int)
    requires
        s.len() > 0,
        !s.contains(','),
        !s.contains('-'),
        trimmed(s) == s,
        !same_ascii(s, "all"@),
        exists|i: int| 0 < i < s.len() && !is_digit(#[trigger] s[i]),
    ensures
        answer_selects(s, max) == Err::<Set<int>, IndexErrorV>(IndexErrorV::Unreadable(s)),
{
    halves_are_cut_at_the_first(s, s, '-');
    only_numbers_read(s, usize::MAX as int);
    lemma_one_entry(s, max);
}

/// Picked indices are exactly those selected, in increasing order.
pub proof fn picked_indices_are_those_selected(v: Seq<usize>, set: Set<int>, x: usize)
    requires
        lists_increasing(v, set),
    ensures
        v.contains(x) <==> set.contains(x as int),
        forall|i: int, j: int| 0 <= i < j < v.len() ==> #[trigger] v[i] < #[trigger] v[j],
{
    if set.contains(x as int) {
        let i = choose|i: int| 0 <= i < v.len() && #[trigger] v[i] == x as int;
        assert(v[i] == x);
    }
}

/// A number typed for a menu is read with or without white space around it, and
/// what does not read as a number is not taken for one.
pub proof fn typed_numbers_are_read(n: nat, s: Seq<char>)
    ensures
        n <= usize::MAX ==> typed_number(decimal(n)) == Some(n as int),
        typed_number(s) matches Some(m) ==> 0 <= m <= usize::MAX && s.len() > 0,
{
    written_numbers_read_back(n as int, usize::MAX as int);
    only_numbers_read(s, usize::MAX as int);
}

/// A faulty list is explained: what could not be read is quoted, and what is out of
/// range is shown with the range.
pub proof fn faulty_lists_are_explained(shown: Seq<char>, max: nat)
    ensures
        index_error_text(IndexErrorV::Unreadable(shown)) == "could not read "@ + quoted(shown)
            + " as a number or range"@,
        index_error_text(IndexErrorV::OutOfRange(shown, max as int)) == shown
            + " is out of the range 1-"@ + decimal(max),
{
}

/// A group matches a filter exactly if the filter is empty, is part of the group's
/// name in lower case, or is its language in lower case.
pub proof fn groups_match_by_name_or_language(g: Group, filter: Seq<char>)
    ensures
        group_matches(g, filter) <==> filter.len() == 0 || lowercased(g.lang@) == filter || exists|
            a: Seq<char>,
            b: Seq<char>,
        |
            lowercased(g.name@) == #[trigger] (a + filter + b),
{
    found_texts_are_parts(lowercased(g.name@), filter);
}

/// A forum matches a filter exactly if the filter is empty, is part of the forum's
/// name in lower case, or is part of the name of its group. The group is the one
/// with the forum's group id, the last one if several have it.
pub proof fn forums_match_by_name_or_group(f: Forum, groups: Seq<Group>, filter: Seq<char>, m: int)
    requires
        0 <= m < groups.len(),
        groups[m].id == f.group_id,
        forall|k: int| m < k < groups.len() ==> (#[trigger] groups[k]).id != f.group_id,
    ensures
        forum_matches(f, groups, filter) <==> filter.len() == 0 || (exists|
            a: Seq<char>,
            b: Seq<char>,
        |
            lowercased(f.name@) == #[trigger] (a + filter + b)) || (exists|
            a: Seq<char>,
            b: Seq<char>,
        |
            lowercased(groups[m].name@) == #[trigger] (a + filter + b)),
        group_name(groups, f.group_id as int) == Some(groups[m].name@),
{
    found_texts_are_parts(lowercased(f.name@), filter);
    found_texts_are_parts(lowercased(groups[m].name@), filter);
    lemma_last_group_named(groups, f.group_id as int, m);
}

proof fn lemma_last_group_named(groups: Seq<Group>, id: int, m: int)
    requires
        0 <= m < groups.len(),
        groups[m].id == id,
        forall|k: int| m < k < groups.len() ==> (#[trigger] groups[k]).id != id,
    ensures
        group_name(groups, id) == Some(groups[m].name@),
    decreases groups.len(),
{
    if m < groups.len() - 1 {
        assert(groups[groups.len() - 1].id != id);
        assert forall|k: int| m < k < groups.drop_last().len() implies (
        #[trigger] groups.drop_last()[k]).id != id by {
            assert(groups.drop_last()[k] == groups[k]);
        }
        lemma_last_group_named(groups.drop_last(), id, m);
    }
}

/// A group that is not there has no name.
pub proof fn unknown_groups_have_no_name(groups: Seq<Group>, id: int, default: Seq<char>)
    requires
        forall|k: int| 0 <= k < groups.len() ==> (#[trigger] groups[k]).id != id,
    ensures
        group_name(groups, id) is None,
        name_or(group_name(groups, id), default) == default,
    decreases groups.len(),
{
    if groups.len() > 0 {
        assert(groups[groups.len() - 1].id != id);
        assert forall|k: int| 0 <= k < groups.drop_last().len() implies (
        #[trigger] groups.drop_last()[k]).id != id by {
            assert(groups.drop_last()[k] == groups[k]);
        }
        unknown_groups_have_no_name(groups.drop_last(), id, default);
    }
}

/// The line of a group gives its number in the listing, its name, its language and
/// how many forums and posts it has, and marks it if it is private.
pub proof fn group_lines_tell_of_the_group(at: nat, g: Group, private: Group)
    requires
        g.public,
        !private.public,
        private.name@ == g.name@,
        private.lang@ == g.lang@,
        private.forums == g.forums,
        private.posts == g.posts,
    ensures
        group_line_text(at as int, g) == "  "@ + decimal(at + 1) + ". "@ + g.name@ + " ["@ + (if g.lang@.len()
            == 0 {
            "??"@
        } else {
            g.lang@
        }) + "] - "@ + decimal_int(g.forums as int) + " forums, "@ + decimal_int(g.posts as int)
            + " posts"@,
        group_line_text(at as int, private) == group_line_text(at as int, g) + " (private)"@,
{
    reveal_strlit("");
    assert(""@ =~= Seq::<char>::empty());
    assert(group_line_text(at as int, g) =~= "  "@ + decimal(at + 1) + ". "@ + g.name@ + " ["@ + (
    if g.lang@.len() == 0 {
        "??"@
    } else {
        g.lang@
    }) + "] - "@ + decimal_int(g.forums as int) + " forums, "@ + decimal_int(g.posts as int)
        + " posts"@);
}

/// The line of a forum gives its number in the listing, its name, how many threads
/// and posts it has and the name of its group.
pub proof fn forum_lines_tell_of_the_forum(at: nat, f: Forum, groups: Seq<Group>, m: int)
    requires
        0 <= m < groups.len(),
        groups[m].id == f.group_id,
        forall|k: int| m < k < groups.len() ==> (#[trigger] groups[k]).id != f.group_id,
    ensures
        forum_line_text(at as int, f, groups) == "  "@ + decimal(at + 1) + ". "@ + f.name@ + " - "@
            + decimal_int(f.threads as int) + " threads, "@ + decimal_int(f.posts as int)
            + " posts (group: "@ + groups[m].name@ + ")"@,
{
    lemma_last_group_named(groups, f.group_id as int, m);
}

proof fn lemma_modes_differ()
    ensures
        "groups"@ != "forums"@,
        "groups"@ != "exclude"@,
        "forums"@ != "exclude"@,
        "all"@ != "groups"@,
        "all"@ != "forums"@,
        "all"@ != "exclude"@,
{
    reveal_strlit("all");
    reveal_strlit("groups");
    reveal_strlit("forums");
    reveal_strlit("exclude");
    assert("all"@.len() == 3 && "groups"@.len() == 6 && "forums"@.len() == 6 && "exclude"@.len()
        == 7);
    assert("groups"@[0] == 'g' && "forums"@[0] == 'f');
}

/// A selection resolves to exactly the forums that it names, each once, in the order
/// of the catalog: by groups, those whose group is picked; by forums, those picked;
/// by exclusion, those not picked; else all of them. Nothing else about a forum
/// matters. `at` lists their positions.
pub proof fn selections_resolve_to_what_they_name(
    selection: Selection,
    forums: Seq<Forum>,
) -> (at: Seq<int>)
    ensures
        selected_ids(selection, forums).len() == at.len(),
        forall|i: int|
            0 <= i < at.len() ==> #[trigger] selected_ids(selection, forums)[i]
                == forums[at[i]].id,
        selection.mode@ == "groups"@ ==> picks(
            forums,
            at,
            |f: Forum| selection.groups@.contains(f.group_id),
        ),
        selection.mode@ == "forums"@ ==> picks(
            forums,
            at,
            |f: Forum| selection.forums@.contains(f.id),
        ),
        selection.mode@ == "exclude"@ ==> picks(
            forums,
            at,
            |f: Forum| !selection.forums@.contains(f.id),
        ),
        selection.mode@ != "groups"@ && selection.mode@ != "forums"@ && selection.mode@
            != "exclude"@ ==> picks(forums, at, |f: Forum| true),
{
    lemma_modes_differ();
    let keep = |f: Forum| covers(selection, f);
    lemma_filter_picks(forums, keep);
    let at = kept_at(forums, keep);
    assert forall|i: int| 0 <= i < at.len() implies covers(selection, forums[#[trigger] at[i]])
        && 0 <= at[i] < forums.len() && selected_ids(selection, forums)[i] == forums[at[i]].id by {
        assert(keep(forums[at[i]]));
        assert(forums.filter(keep)[i] == forums[at[i]]);
    }
    assert forall|k: int| 0 <= k < forums.len() && covers(
        selection,
        #[trigger] forums[k],
    ) implies at.contains(k) by {
        assert(keep(forums[k]));
    }
    at
}

/// Which ids a selection resolves to: by groups, those of the forums of the picked
/// groups; by forums, those picked that are in the catalog.
pub proof fn resolved_ids_are_those_of_the_selection(
    selection: Selection,
    forums: Seq<Forum>,
    id: i64,
)
    ensures
        selection.mode@ == "groups"@ ==> (selected_ids(selection, forums).contains(id) <==> exists|
            k: int,
        |
            0 <= k < forums.len() && (#[trigger] forums[k]).id == id && selection.groups@.contains(
                forums[k].group_id,
            )),
        selection.mode@ == "forums"@ ==> (selected_ids(selection, forums).contains(id)
            <==> selection.forums@.contains(id) && exists|k: int|
            0 <= k < forums.len() && (#[trigger] forums[k]).id == id),
        selection.mode@ == "exclude"@ ==> (selected_ids(selection, forums).contains(id)
            <==> !selection.forums@.contains(id) && exists|k: int|
            0 <= k < forums.len() && (#[trigger] forums[k]).id == id),
{
    lemma_modes_differ();
    let ids = selected_ids(selection, forums);
    let keep = |f: Forum| covers(selection, f);
    lemma_filter_picks(forums, keep);
    let at = kept_at(forums, keep);
    if ids.contains(id) {
        let i = choose|i: int| 0 <= i < ids.len() && ids[i] == id;
        assert(keep(forums[at[i]]));
        assert(forums[at[i]].id == id);
    }
    assert forall|k: int|
        0 <= k < forums.len() && (#[trigger] forums[k]).id == id && covers(
            selection,
            forums[k],
        ) implies ids.contains(id) by {
        assert(keep(forums[k]));
        assert(at.contains(k));
        let i = choose|i: int| 0 <= i < at.len() && at[i] == k;
        assert(ids[i] == id);
    }
}

/// A selection made in the menu covers what was picked: the forums of the picked
/// groups, the picked forums, or all but the picked forums.
pub proof fn menu_selections_cover_what_was_picked(
    mode: Mode,
    picked: Seq<i64>,
    r: Selection,
    f: Forum,
)
    requires
        selects(mode, picked, r),
    ensures
        mode_at(0) is All && mode_at(1) is Groups && mode_at(2) is Forums && mode_at(3) is Exclude,
        is_known_mode(r.mode@),
        mode is All ==> covers(r, f),
        mode is Groups ==> (covers(r, f) <==> picked.contains(f.group_id)),
        mode is Forums ==> (covers(r, f) <==> picked.contains(f.id)),
        mode is Exclude ==> (covers(r, f) <==> !picked.contains(f.id)),
{
    lemma_modes_differ();
}

/// Totals add up forum by forum and thread by thread: each that is selected counts,
/// with its posts, and no other does.
pub proof fn totals_add_up(
    a: Seq<Forum>,
    b: Seq<Forum>,
    f: Forum,
    s: Seq<ThreadMeta>,
    u: Seq<ThreadMeta>,
    t: ThreadMeta,
    ids: Set<i64>,
)
    ensures
        posts_in(a + b, ids) == posts_in(a, ids) + posts_in(b, ids),
        posts_in(seq![f], ids) == (if ids.contains(f.id) {
            f.posts as int
        } else {
            0
        }),
        all_posts(a + b) == all_posts(a) + all_posts(b),
        all_posts(seq![f]) == f.posts,
        threads_in(s + u, ids) == threads_in(s, ids) + threads_in(u, ids),
        threads_in(seq![t], ids) == (if ids.contains(t.forum_id) {
            1nat
        } else {
            0
        }),
{
    lemma_posts_add_up(a, b, ids);
    lemma_threads_add_up(s, u, ids);
    assert(seq![f].drop_last() =~= Seq::empty());
    assert(seq![t].drop_last() =~= Seq::empty());
    reveal_with_fuel(posts_in, 2);
    reveal_with_fuel(all_posts, 2);
    reveal_with_fuel(threads_in, 2);
}

proof fn lemma_posts_add_up(a: Seq<Forum>, b: Seq<Forum>, ids: Set<i64>)
    ensures
        posts_in(a + b, ids) == posts_in(a, ids) + posts_in(b, ids),
        all_posts(a + b) == all_posts(a) + all_posts(b),
    decreases b.len(),
{
    if b.len() == 0 {
        assert(a + b =~= a);
    } else {
        assert((a + b).drop_last() =~= a + b.drop_last());
        lemma_posts_add_up(a, b.drop_last(), ids);
    }
}

proof fn lemma_threads_add_up(a: Seq<ThreadMeta>, b: Seq<ThreadMeta>, ids: Set<i64>)
    ensures
        threads_in(a + b, ids) == threads_in(a, ids) + threads_in(b, ids),
    decreases b.len(),
{
    if b.len() == 0 {
        assert(a + b =~= a);
    } else {
        assert((a + b).drop_last() =~= a + b.drop_last());
        lemma_threads_add_up(a, b.drop_last(), ids);
    }
}

/// The options of a menu are chosen by their numbers, counted from 1, with or without
/// white space; nothing else chooses one.
pub proof fn options_are_chosen_by_number(answer: Seq<char>, n: nat, count: int)
    requires
        count <= usize::MAX,
    ensures
        trimmed(answer) == decimal(n) && 1 <= n <= count ==> chosen(answer, count) == Some(n - 1),
        trimmed(answer) == decimal(n) && (n == 0 || n > count) ==> chosen(answer, count) is None,
        chosen(answer, count) matches Some(i) ==> 0 <= i < count,
        trimmed(answer).len() == 0 ==> chosen(answer, count) is None,
{
    written_numbers_read_back(n as int, usize::MAX as int);
    only_numbers_read(trimmed(answer), usize::MAX as int);
}

/// A selection of everything amounts to everything: all forums and all their posts,
/// and all threads whose forum is in the catalog.
pub proof fn everything_amounts_to_everything(
    selection: Selection,
    structure: Structure,
    r: Totals,
)
    requires
        selection.mode@ == "all"@,
        sums_up(selection, structure, r),
    ensures
        r.forums == structure.forums@.len(),
        r.posts == all_posts(structure.forums@),
        (forall|i: int|
            0 <= i < structure.threads@.len() ==> exists|k: int|
                0 <= k < structure.forums@.len() && (#[trigger] structure.forums@[k]).id == (
                #[trigger] structure.threads@[i]).forum_id) ==> r.threads
            == structure.threads@.len(),
{
    lemma_modes_differ();
    let forums = structure.forums@;
    let keep = |f: Forum| covers(selection, f);
    lemma_keep_all(forums, keep);
    let ids = selected_ids(selection, forums);
    assert(ids =~= forums.map_values(|f: Forum| f.id));
    assert forall|k: int| 0 <= k < forums.len() implies ids.to_set().contains(
        (#[trigger] forums[k]).id,
    ) by {
        assert(ids[k] == forums[k].id);
    }
    lemma_all_posts_counted(forums, ids.to_set());
    if forall|i: int|
        0 <= i < structure.threads@.len() ==> exists|k: int|
            0 <= k < structure.forums@.len() && (#[trigger] structure.forums@[k]).id == (
            #[trigger] structure.threads@[i]).forum_id {
        assert forall|i: int| 0 <= i < structure.threads@.len() implies ids.to_set().contains(
            (#[trigger] structure.threads@[i]).forum_id,
        ) by {
            let k = choose|k: int|
                0 <= k < forums.len() && (#[trigger] forums[k]).id
                    == structure.threads@[i].forum_id;
            assert(ids.to_set().contains(forums[k].id));
        }
        lemma_all_threads_counted(structure.threads@, ids.to_set());
    }
}

proof fn lemma_all_posts_counted(forums: Seq<Forum>, ids: Set<i64>)
    requires
        forall|k: int| 0 <= k < forums.len() ==> ids.contains((#[trigger] forums[k]).id),
    ensures
        posts_in(forums, ids) == all_posts(forums),
    decreases forums.len(),
{
    if forums.len() > 0 {
        assert(ids.contains(forums[forums.len() - 1].id));
        assert forall|k: int| 0 <= k < forums.drop_last().len() implies ids.contains(
            (#[trigger] forums.drop_last()[k]).id,
        ) by {
            assert(forums.drop_last()[k] == forums[k]);
        }
        lemma_all_posts_counted(forums.drop_last(), ids);
    }
}

proof fn lemma_all_threads_counted(threads: Seq<ThreadMeta>, ids: Set<i64>)
    requires
        forall|k: int| 0 <= k < threads.len() ==> ids.contains((#[trigger] threads[k]).forum_id),
    ensures
        threads_in(threads, ids) == threads.len(),
    decreases threads.len(),
{
    if threads.len() > 0 {
        assert(ids.contains(threads[threads.len() - 1].forum_id));
        assert forall|k: int| 0 <= k < threads.drop_last().len() implies ids.contains(
            (#[trigger] threads.drop_last()[k]).forum_id,
        ) by {
            assert(threads.drop_last()[k] == threads[k]);
        }
        lemma_all_threads_counted(threads.drop_last(), ids);
    }
}

} // verus!
