//! Read-side latency benchmark: how long text posts and audio posts actually
//! take to arrive after the request goes out.
//!
//! The sweep over concurrency levels shows where extra parallelism stops buying
//! throughput, which is what `scrape.thread_concurrency` and
//! `scrape.audio_concurrency` should be set from. This module picks what is
//! measured and reads the results; measuring, and the arithmetic on what was
//! measured, is the caller's.

use rand::seq::SliceRandom;
use vstd::arithmetic::div_mod::{
    lemma_fundamental_div_mod, lemma_fundamental_div_mod_converse, lemma_mod_bound, lemma_small_mod,
};
use vstd::arithmetic::mul::lemma_mul_inequality;
use vstd::prelude::*;

use crate::api::Failure;
use crate::config::{Bench, Scrape};
use crate::json::{field, json_views, Json, JsonV};
use crate::model::{gives_text, rows_field, rows_of, str_field, str_of, Structure};
use crate::scrape::thread_path;
use crate::text::{decimal_int, decimals_differ, to_chars, views};

verus! {

// ---------------------------------------------------------------------------
// What to measure
// ---------------------------------------------------------------------------

/// How many text and audio fetches are wanted per level.
pub open spec fn samples(wanted: Option<usize>, bench: Bench) -> (int, int) {
    match wanted {
        Some(n) => (n as int, n as int),
        None => (bench.text_samples as int, bench.audio_samples as int),
    }
}

/// How many text and audio fetches to measure per level. Fails if there is
/// nothing to measure.
pub fn sample_counts(wanted: Option<usize>, bench: &Bench) -> (r: Result<(usize, usize), Failure>)
    ensures
        ({
            let text = match wanted {
                Some(n) => n,
                None => bench.text_samples,
            };
            let audio = match wanted {
                Some(n) => n,
                None => bench.audio_samples,
            };
            match r {
                Ok(counts) => counts == (text, audio) && (text > 0 || audio > 0),
                Err(Failure::Other(why)) => text == 0 && audio == 0 && why@
                    == "nothing to measure - both sample counts are zero"@,
                Err(_) => false,
            }
        }),
        r matches Ok(counts) ==> (counts.0 as int, counts.1 as int) == samples(wanted, *bench),
        r is Err <==> samples(wanted, *bench) == (0int, 0int),
{
    let text: usize = match wanted {
        Some(n) => n,
        None => bench.text_samples,
    };
    let audio: usize = match wanted {
        Some(n) => n,
        None => bench.audio_samples,
    };
    if text == 0 && audio == 0 {
        return Err(
            Failure::Other(String::from_str("nothing to measure - both sample counts are zero")),
        );
    }
    Ok((text, audio))
}

/// The concurrency levels to sweep; at least one.
pub open spec fn swept_levels(bench: Bench) -> Seq<usize> {
    if bench.concurrency_levels@.len() == 0 {
        seq![1usize]
    } else {
        bench.concurrency_levels@
    }
}

pub fn levels(bench: &Bench) -> (r: Vec<usize>)
    ensures
        r@ == swept_levels(*bench),
        r@.len() > 0,
{
    let mut out: Vec<usize> = Vec::new();
    let mut i: usize = 0;
    while i < bench.concurrency_levels.len()
        invariant
            i <= bench.concurrency_levels@.len(),
            out@ =~= bench.concurrency_levels@.take(i as int),
        decreases bench.concurrency_levels@.len() - i,
    {
        out.push(bench.concurrency_levels[i]);
        i += 1;
    }
    if out.len() == 0 {
        out.push(1);
    }
    assert(out@ =~= swept_levels(*bench));
    out
}

pub open spec fn rate_of(bench: Bench, scrape: Scrape) -> u64 {
    if bench.ignore_rate_limit {
        0
    } else {
        scrape.requests_per_second
    }
}

/// The rate limit to measure under, as the bits of a double: none, unless the
/// configured one is to be kept. Benchmarking through our own throttle would
/// just measure the throttle.
pub fn rate(bench: &Bench, scrape: &Scrape) -> (r: u64)
    ensures
        r == (if bench.ignore_rate_limit {
            0
        } else {
            scrape.requests_per_second
        }),
        r == rate_of(*bench, *scrape),
{
    if bench.ignore_rate_limit {
        0
    } else {
        scrape.requests_per_second
    }
}

/// How many URLs the sweep takes if every level gets its own.
pub fn pool_size(n: usize, levels: usize) -> (r: usize)
    requires
        n * levels <= usize::MAX,
    ensures
        r == n * levels,
{
    n * levels
}

/// Calls `shuffle` of `rand::seq::SliceRandom` with `rand::thread_rng`.
/// Claimed: the items are the same, each as often as before; their order is
/// left to chance.
#[verifier::external_body]
fn shuffle(ids: &mut Vec<i64>)
    ensures
        final(ids)@.to_multiset() == old(ids)@.to_multiset(),
        final(ids)@.len() == old(ids)@.len(),
{
    ids.shuffle(&mut rand::thread_rng())
}

pub open spec fn thread_ids(structure: Structure) -> Seq<i64> {
    structure.threads@.map_values(|t: crate::model::ThreadMeta| t.id)
}

/// The ids of all threads, in an order left to chance.
pub fn shuffled_threads(structure: &Structure) -> (r: Vec<i64>)
    ensures
        r@.to_multiset() == thread_ids(*structure).to_multiset(),
        r@.len() == structure.threads@.len(),
{
    let mut ids: Vec<i64> = Vec::new();
    let mut i: usize = 0;
    while i < structure.threads.len()
        invariant
            i <= structure.threads@.len(),
            ids@ =~= thread_ids(*structure).take(i as int),
        decreases structure.threads@.len() - i,
    {
        ids.push(structure.threads[i].id);
        i += 1;
    }
    assert(ids@ =~= thread_ids(*structure));
    shuffle(&mut ids);
    ids
}

/// Where a thread is read.
pub open spec fn thread_url(id: i64) -> Seq<char> {
    "/api/v1/forum/"@ + decimal_int(id as int)
}

pub open spec fn thread_urls(ids: Seq<i64>) -> Seq<Seq<char>> {
    ids.map_values(|id: i64| thread_url(id))
}

pub open spec fn at_most<T>(s: Seq<T>, n: int) -> Seq<T> {
    if s.len() <= n {
        s
    } else {
        s.take(n)
    }
}

/// What follows the first `n` items.
pub open spec fn beyond<T>(s: Seq<T>, n: int) -> Seq<T> {
    if s.len() <= n {
        Seq::empty()
    } else {
        s.skip(n)
    }
}

/// The URLs for text: three held back purely for warming the connection, then
/// those that are measured. Fetching a measured URL first would leave it warm
/// in the server's cache.
pub fn text_urls(ids: &Vec<i64>, needed: usize) -> (r: (Vec<String>, Vec<String>))
    ensures
        views(r.0@) == thread_urls(at_most(ids@, 3)),
        views(r.1@) == thread_urls(at_most(beyond(ids@, 3), needed as int)),
{
    let mut warm: Vec<String> = Vec::new();
    let mut pool: Vec<String> = Vec::new();
    let mut i: usize = 0;
    let count: usize = ids.len();
    let first: usize = if count < 3 {
        count
    } else {
        3
    };
    while i < first
        invariant
            i <= first <= ids@.len(),
            views(warm@) == thread_urls(ids@.take(i as int)),
        decreases first - i,
    {
        let ghost before = warm@;
        let url = thread_path(ids[i]);
        warm.push(url);
        i += 1;
        assert(views(warm@) =~= views(before).push(url@));
        assert(views(warm@) =~= thread_urls(ids@.take(i as int)));
    }
    assert(ids@.take(i as int) =~= at_most(ids@, 3));
    let ghost rest = beyond(ids@, 3);
    assert(rest.len() == count - first);
    let most: usize = if needed < count - first {
        needed
    } else {
        count - first
    };
    let mut k: usize = 0;
    assert(views(pool@) =~= thread_urls(rest.take(0)));
    while k < most
        invariant
            k <= most,
            count == ids@.len(),
            first == (if ids@.len() < 3 {
                ids@.len()
            } else {
                3
            }),
            first + most <= ids@.len(),
            rest == beyond(ids@, 3),
            most <= rest.len(),
            views(pool@) == thread_urls(rest.take(k as int)),
        decreases most - k,
    {
        let ghost before = pool@;
        let url = thread_path(ids[first + k]);
        pool.push(url);
        assert(rest[k as int] == ids@[first + k]);
        k += 1;
        assert(views(pool@) =~= views(before).push(url@));
        assert(views(pool@) =~= thread_urls(rest.take(k as int)));
    }
    assert(rest.take(k as int) =~= at_most(rest, needed as int));
    (warm, pool)
}

/// None of the URLs that warm the connection is measured, if no thread is
/// listed twice.
pub proof fn warming_urls_are_not_measured(ids: Seq<i64>, needed: int, i: int, j: int)
    requires
        ids.no_duplicates(),
        needed >= 0,
        0 <= i < at_most(ids, 3).len(),
        0 <= j < at_most(beyond(ids, 3), needed).len(),
    ensures
        thread_urls(at_most(ids, 3))[i] != thread_urls(at_most(beyond(ids, 3), needed))[j],
{
    let a = ids[i];
    let b = ids[j + 3];
    assert(at_most(ids, 3)[i] == a);
    assert(at_most(beyond(ids, 3), needed)[j] == b);
    if thread_url(a) == thread_url(b) {
        let prefix = "/api/v1/forum/"@;
        assert(thread_url(a).skip(prefix.len() as int) =~= decimal_int(a as int));
        assert(thread_url(b).skip(prefix.len() as int) =~= decimal_int(b as int));
        decimals_differ(a as int, b as int);
    }
}

/// The URLs for one concurrency level: `n` of the pool, starting after those of
/// the earlier levels, and from the beginning again where the pool ends.
pub open spec fn level_urls(pool: Seq<Seq<char>>, level: int, n: int) -> Seq<Seq<char>> {
    if pool.len() == 0 {
        Seq::empty()
    } else {
        Seq::new(n as nat, |i: int| pool[(level * n + i) % pool.len() as int])
    }
}

/// Hand each concurrency level its own untouched slice of URLs.
///
/// Re-using one URL set across levels measures the server's cache rather than
/// the server: the first level pays for a cold fetch and every later level gets
/// a warm one, which is both an unfair comparison and unlike a real scrape,
/// where every thread is fetched exactly once. Wraps around only if the pool is
/// too small, which the second part of the result says.
pub fn slice_for(pool: &Vec<String>, level_index: usize, n: usize) -> (r: (Vec<String>, bool))
    requires
        pool@.len() > 0 && n > 0 ==> level_index * n + n <= usize::MAX,
    ensures
        views(r.0@) == level_urls(views(pool@), level_index as int, n as int),
        r.1 == (pool@.len() > 0 && n > 0 && level_index * n + n > pool@.len()),
{
    let mut out: Vec<String> = Vec::new();
    let ghost all = views(pool@);
    if pool.len() == 0 || n == 0 {
        assert(views(out@) =~= level_urls(all, level_index as int, n as int));
        return (out, false);
    }
    let start: usize = level_index * n;
    let wrapped = start + n > pool.len();
    let mut i: usize = 0;
    while i < n
        invariant
            i <= n,
            all == views(pool@),
            pool@.len() > 0,
            start == level_index * n,
            start + n <= usize::MAX,
            views(out@) =~= level_urls(all, level_index as int, n as int).take(i as int),
        decreases n - i,
    {
        let ghost before = out@;
        proof {
            lemma_mod_bound(start + i, pool@.len() as int);
        }
        let at: usize = (start + i) % pool.len();
        let url = pool[at].clone();
        out.push(url);
        assert(all[at as int] == url@);
        assert(views(out@) =~= views(before).push(url@));
        i += 1;
    }
    assert(views(out@) =~= level_urls(all, level_index as int, n as int));
    (out, wrapped)
}

/// Every level gets URLs of its own, as long as the pool does not wrap around:
/// no URL of an earlier level comes up in a later one.
pub proof fn levels_do_not_share_urls(
    pool: Seq<Seq<char>>,
    a: int,
    b: int,
    n: int,
    i: int,
    j: int,
)
    requires
        pool.no_duplicates(),
        0 <= a < b,
        b * n + n <= pool.len(),
        0 <= i < n,
        0 <= j < n,
    ensures
        level_urls(pool, a, n)[i] != level_urls(pool, b, n)[j],
{
    let len = pool.len() as int;
    lemma_mul_inequality(a + 1, b, n);
    assert((a + 1) * n == a * n + n) by (nonlinear_arith);
    assert(a * n >= 0) by (nonlinear_arith)
        requires
            a >= 0,
            n > 0,
    ;
    lemma_small_mod((a * n + i) as nat, len as nat);
    lemma_small_mod((b * n + j) as nat, len as nat);
}

/// What is fetched at one level.
#[derive(Debug)]
pub struct Batch {
    pub kind: Kind,
    pub concurrency: usize,
    pub urls: Vec<String>,
}

/// A batch by the contents of its URLs.
pub struct BatchV {
    pub kind: Kind,
    pub concurrency: usize,
    pub urls: Seq<Seq<char>>,
}

impl Batch {
    pub open spec fn view(&self) -> BatchV {
        BatchV { kind: self.kind, concurrency: self.concurrency, urls: views(self.urls@) }
    }
}

pub open spec fn batch_views(v: Seq<Batch>) -> Seq<BatchV> {
    v.map_values(|b: Batch| b@)
}

/// The batch of one kind at one level; none if there is nothing to fetch.
pub open spec fn level_batch(
    kind: Kind,
    pool: Seq<Seq<char>>,
    n: int,
    levels: Seq<usize>,
    at: int,
) -> Seq<BatchV> {
    let urls = level_urls(pool, at, n);
    if urls.len() == 0 {
        Seq::empty()
    } else {
        seq![BatchV { kind, concurrency: levels[at], urls }]
    }
}

/// The batches of the first `k` levels: text before audio at each.
pub open spec fn batches(
    text: Seq<Seq<char>>,
    text_n: int,
    audio: Seq<Seq<char>>,
    audio_n: int,
    levels: Seq<usize>,
    k: int,
) -> Seq<BatchV>
    decreases k,
{
    if k <= 0 {
        Seq::empty()
    } else {
        batches(text, text_n, audio, audio_n, levels, k - 1) + level_batch(
            Kind::Text,
            text,
            text_n,
            levels,
            k - 1,
        ) + level_batch(Kind::Audio, audio, audio_n, levels, k - 1)
    }
}

/// Whether a pool is too small for `k` levels to have URLs of their own.
pub open spec fn runs_short(pool: Seq<Seq<char>>, n: int, k: int) -> bool {
    pool.len() > 0 && n > 0 && k > 0 && k * n > pool.len()
}

/// What the sweep fetches, in order, and whether some URLs come up more than
/// once.
pub fn sweep(
    text: &Vec<String>,
    text_n: usize,
    audio: &Vec<String>,
    audio_n: usize,
    levels: &Vec<usize>,
) -> (r: (Vec<Batch>, bool))
    requires
        text_n * levels@.len() <= usize::MAX,
        audio_n * levels@.len() <= usize::MAX,
    ensures
        batch_views(r.0@) == batches(
            views(text@),
            text_n as int,
            views(audio@),
            audio_n as int,
            levels@,
            levels@.len() as int,
        ),
        r.1 == (runs_short(views(text@), text_n as int, levels@.len() as int) || runs_short(
            views(audio@),
            audio_n as int,
            levels@.len() as int,
        )),
{
    let ghost (t, a) = (views(text@), views(audio@));
    let mut out: Vec<Batch> = Vec::new();
    let mut reused = false;
    let mut k: usize = 0;
    assert(batch_views(out@) =~= Seq::empty());
    while k < levels.len()
        invariant
            k <= levels@.len(),
            t == views(text@),
            a == views(audio@),
            text_n * levels@.len() <= usize::MAX,
            audio_n * levels@.len() <= usize::MAX,
            batch_views(out@) == batches(
                t,
                text_n as int,
                a,
                audio_n as int,
                levels@,
                k as int,
            ),
            reused == (runs_short(t, text_n as int, k as int) || runs_short(
                a,
                audio_n as int,
                k as int,
            )),
        decreases levels@.len() - k,
    {
        proof {
            lemma_level_fits(k as int, text_n as int, levels@.len() as int);
            lemma_level_fits(k as int, audio_n as int, levels@.len() as int);
        }
        let level: usize = levels[k];
        let ghost start = out@;
        let (urls, wrapped) = slice_for(text, k, text_n);
        reused = reused || wrapped;
        assert(views(urls@).len() == urls@.len());
        if urls.len() > 0 {
            out.push(Batch { kind: Kind::Text, concurrency: level, urls });
        }
        let ghost middle = out@;
        assert(batch_views(middle) =~= batch_views(start) + level_batch(
            Kind::Text,
            t,
            text_n as int,
            levels@,
            k as int,
        ));
        let (urls, wrapped) = slice_for(audio, k, audio_n);
        reused = reused || wrapped;
        assert(views(urls@).len() == urls@.len());
        if urls.len() > 0 {
            out.push(Batch { kind: Kind::Audio, concurrency: level, urls });
        }
        assert(batch_views(out@) =~= batch_views(middle) + level_batch(
            Kind::Audio,
            a,
            audio_n as int,
            levels@,
            k as int,
        ));
        k += 1;
    }
    (out, reused)
}

proof fn lemma_level_fits(k: int, n: int, levels: int)
    requires
        0 <= k < levels,
        0 <= n,
        n * levels <= usize::MAX,
    ensures
        k * n + n <= usize::MAX,
        (k + 1) * n == k * n + n,
        k * n <= k * n + n,
        k > 0 || k * n == 0,
{
    lemma_mul_inequality(k + 1, levels, n);
    assert((k + 1) * n == k * n + n) by (nonlinear_arith);
    assert(levels * n == n * levels) by (nonlinear_arith);
}

// ---------------------------------------------------------------------------
// Looking for audio
// ---------------------------------------------------------------------------

/// The URLs of the recordings that a thread's posts carry.
pub open spec fn recording_urls(posts: Seq<JsonV>) -> Seq<Seq<char>>
    decreases posts.len(),
{
    if posts.len() == 0 {
        Seq::empty()
    } else {
        let earlier = recording_urls(posts.drop_last());
        match field(posts.last(), "audio"@) {
            Some(audio) => if str_field(audio, "url"@).len() == 0 {
                earlier
            } else {
                earlier.push(str_field(audio, "url"@))
            },
            None => earlier,
        }
    }
}

/// A search for recordings among sampled threads.
#[derive(Debug)]
pub struct Discovery {
    /// The threads to look at.
    candidates: Vec<i64>,
    /// How many of them were looked at.
    tried: usize,
    found: Vec<String>,
    needed: usize,
}

/// How many threads are looked at at most.
pub const MOST_CANDIDATES: usize = 120;

impl Discovery {
    pub closed spec fn candidates(&self) -> Seq<i64> {
        self.candidates@
    }

    pub closed spec fn tried(&self) -> int {
        self.tried as int
    }

    pub closed spec fn found(&self) -> Seq<Seq<char>> {
        views(self.found@)
    }

    pub closed spec fn needed(&self) -> int {
        self.needed as int
    }

    #[verifier::type_invariant]
    spec fn is_sound(&self) -> bool {
        self.tried <= self.candidates@.len() && self.found@.len() <= self.needed
    }

    /// Look for `needed` recordings in the first of the given threads.
    pub fn new(ids: Vec<i64>, needed: usize) -> (r: Self)
        ensures
            r.candidates() == at_most(ids@, MOST_CANDIDATES as int),
            r.tried() == 0,
            r.found() == Seq::<Seq<char>>::empty(),
            r.needed() == needed,
    {
        let mut candidates = ids;
        if candidates.len() > MOST_CANDIDATES {
            candidates.truncate(MOST_CANDIDATES);
        }
        assert(candidates@ =~= at_most(ids@, MOST_CANDIDATES as int));
        let found: Vec<String> = Vec::new();
        assert(views(found@) =~= Seq::<Seq<char>>::empty());
        Self { candidates, tried: 0, found, needed }
    }

    /// The path of the next thread to look at; none when enough was found or
    /// no thread is left.
    pub fn next(&mut self) -> (r: Option<String>)
        ensures
            final(self).candidates() == old(self).candidates(),
            final(self).found() == old(self).found(),
            final(self).needed() == old(self).needed(),
            match r {
                Some(path) => {
                    &&& old(self).found().len() < old(self).needed()
                    &&& old(self).tried() < old(self).candidates().len()
                    &&& path@ == thread_url(old(self).candidates()[old(self).tried()])
                    &&& final(self).tried() == old(self).tried() + 1
                },
                None => {
                    &&& old(self).found().len() >= old(self).needed() || old(self).tried()
                        >= old(self).candidates().len()
                    &&& final(self).tried() == old(self).tried()
                },
            },
    {
        if self.found.len() >= self.needed || self.tried >= self.candidates.len() {
            return None;
        }
        let path = thread_path(self.candidates[self.tried]);
        self.tried = self.tried + 1;
        Some(path)
    }

    /// Take in a thread that arrived; one that did not is passed over. No more
    /// is kept than needed.
    pub fn take_in(&mut self, data: &Json)
        ensures
            final(self).candidates() == old(self).candidates(),
            final(self).tried() == old(self).tried(),
            final(self).needed() == old(self).needed(),
            final(self).found() == at_most(
                old(self).found() + recording_urls(rows_field(data@, "posts"@)),
                old(self).needed(),
            ),
    {
        proof {
            use_type_invariant(&*self);
        }
        let posts = rows_of(data, "posts");
        let ghost rows = rows_field(data@, "posts"@);
        let ghost start = views(self.found@);
        let needed: usize = self.needed;
        let mut found: Vec<String> = Vec::new();
        std::mem::swap(&mut found, &mut self.found);
        let mut i: usize = 0;
        assert(json_views(posts@).len() == posts@.len());
        assert(at_most(start + recording_urls(rows.take(0)), needed as int) =~= start);
        while i < posts.len()
            invariant
                i <= posts@.len(),
                rows == json_views(posts@),
                found@.len() <= needed,
                views(found@) == at_most(start + recording_urls(rows.take(i as int)), needed as int),
            decreases posts@.len() - i,
        {
            let ghost before = recording_urls(rows.take(i as int));
            assert(rows.take(i + 1).drop_last() =~= rows.take(i as int));
            assert(rows.take(i + 1).last() == posts@[i as int]@);
            if let Some(audio) = posts[i].get("audio") {
                let url = str_of(audio, "url");
                if !url.as_str().is_empty() {
                    let ghost whole = start + before;
                    assert(start + before.push(url@) =~= whole.push(url@));
                    if found.len() < needed {
                        let ghost kept = found@;
                        assert(views(kept).len() == kept.len());
                        found.push(url);
                        assert(views(found@) =~= views(kept).push(url@));
                    } else {
                        assert(views(found@).len() == found@.len());
                        assert(at_most(whole.push(url@), needed as int) =~= at_most(
                            whole,
                            needed as int,
                        ));
                    }
                }
            }
            i += 1;
        }
        assert(rows.take(i as int) =~= rows);
        self.found = found;
    }

    /// What was found.
    pub fn finish(self) -> (r: Vec<String>)
        ensures
            views(r@) == self.found(),
            r@.len() <= self.needed(),
    {
        proof {
            use_type_invariant(&self);
        }
        self.found
    }
}

/// Whether `a` stands before `b` in the order of their characters.
pub open spec fn text_before(a: Seq<char>, b: Seq<char>) -> bool
    decreases a.len(),
{
    if b.len() == 0 {
        false
    } else if a.len() == 0 {
        true
    } else if a[0] != b[0] {
        a[0] < b[0]
    } else {
        text_before(a.drop_first(), b.drop_first())
    }
}

proof fn lemma_never_before_itself(a: Seq<char>)
    ensures
        !text_before(a, a),
    decreases a.len(),
{
    if a.len() > 0 {
        lemma_never_before_itself(a.drop_first());
    }
}

proof fn lemma_before_is_transitive(a: Seq<char>, b: Seq<char>, c: Seq<char>)
    requires
        text_before(a, b),
        text_before(b, c),
    ensures
        text_before(a, c),
    decreases a.len(),
{
    if a.len() > 0 && b.len() > 0 && c.len() > 0 && a[0] == b[0] && b[0] == c[0] {
        lemma_before_is_transitive(a.drop_first(), b.drop_first(), c.drop_first());
    }
}

proof fn lemma_common_beginning(a: Seq<char>, b: Seq<char>, k: int)
    requires
        0 <= k <= a.len(),
        k <= b.len(),
        forall|i: int| 0 <= i < k ==> a[i] == b[i],
    ensures
        text_before(a, b) == text_before(a.skip(k), b.skip(k)),
        text_before(b, a) == text_before(b.skip(k), a.skip(k)),
    decreases k,
{
    if k > 0 {
        let (x, y) = (a.drop_first(), b.drop_first());
        assert forall|i: int| 0 <= i < k - 1 implies x[i] == y[i] by {
            assert(a[i + 1] == b[i + 1]);
        }
        lemma_common_beginning(x, y, k - 1);
        assert(x.skip(k - 1) =~= a.skip(k));
        assert(y.skip(k - 1) =~= b.skip(k));
    } else {
        assert(a.skip(0) =~= a);
        assert(b.skip(0) =~= b);
    }
}

/// How a text stands to another.
#[derive(Debug, Clone, Copy, PartialEq, Eq, Structural)]
enum Place {
    Before,
    Same,
    After,
}

fn place(a: &String, b: &String) -> (r: Place)
    ensures
        match r {
            Place::Before => text_before(a@, b@),
            Place::Same => a@ == b@,
            Place::After => text_before(b@, a@),
        },
{
    let x: Vec<char> = to_chars(a.as_str());
    let y: Vec<char> = to_chars(b.as_str());
    let mut k: usize = 0;
    while k < x.len() && k < y.len() && x[k] == y[k]
        invariant
            k <= x@.len(),
            k <= y@.len(),
            forall|i: int| 0 <= i < k ==> x@[i] == y@[i],
        decreases x@.len() - k,
    {
        k += 1;
    }
    proof {
        lemma_common_beginning(x@, y@, k as int);
    }
    if k == x.len() && k == y.len() {
        assert(x@ =~= y@);
        Place::Same
    } else if k == x.len() {
        Place::Before
    } else if k == y.len() {
        Place::After
    } else if x[k] < y[k] {
        Place::Before
    } else {
        Place::After
    }
}

/// Whether texts stand in order, none of them twice.
pub open spec fn in_text_order(v: Seq<Seq<char>>) -> bool {
    forall|i: int, j: int| 0 <= i < j < v.len() ==> text_before(#[trigger] v[i], #[trigger] v[j])
}

fn add_url(pool: &mut Vec<String>, url: String)
    requires
        in_text_order(views(old(pool)@)),
    ensures
        in_text_order(views(final(pool)@)),
        forall|u: Seq<char>| #[trigger]
            views(final(pool)@).contains(u) <==> u == url@ || views(old(pool)@).contains(u),
{
    let ghost before = views(pool@);
    let mut at: usize = 0;
    let mut passing = true;
    while at < pool.len() && passing
        invariant
            at <= pool@.len(),
            views(pool@) == before,
            in_text_order(before),
            forall|j: int| 0 <= j < at ==> text_before(#[trigger] before[j], url@),
            !passing ==> at < pool@.len() && text_before(url@, before[at as int]),
        decreases pool@.len() - at + (if passing { 1int } else { 0int }),
    {
        assert(before[at as int] == pool@[at as int]@);
        match place(&pool[at], &url) {
            Place::Before => {
                at += 1;
            },
            Place::Same => {
                assert(before[at as int] == url@);
                assert(before.contains(url@));
                return ;
            },
            Place::After => {
                passing = false;
            },
        }
    }
    let ghost now = before.insert(at as int, url@);
    pool.insert(at, url);
    proof {
        assert(views(pool@) =~= now);
        assert forall|i: int, j: int| 0 <= i < j < now.len() implies text_before(
            #[trigger] now[i],
            #[trigger] now[j],
        ) by {
            let bi = if i < at { i } else { i - 1 };
            let bj = if j < at { j } else { j - 1 };
            if i != at && j != at {
                assert(now[i] == before[bi] && now[j] == before[bj]);
            } else if i == at {
                assert(now[j] == before[bj]);
                if bj > at {
                    lemma_before_is_transitive(url@, before[at as int], before[bj]);
                }
            } else {
                assert(now[i] == before[i]);
            }
        }
        assert forall|u: Seq<char>| #[trigger] now.contains(u) <==> u == url@ || before.contains(u) by {
            if now.contains(u) {
                let i = choose|i: int| 0 <= i < now.len() && now[i] == u;
                if i < at {
                    assert(before[i] == u);
                } else if i > at {
                    assert(before[i - 1] == u);
                }
            }
            if u == url@ {
                assert(now[at as int] == u);
            } else if before.contains(u) {
                let i = choose|i: int| 0 <= i < before.len() && before[i] == u;
                if i < at {
                    assert(now[i] == u);
                } else {
                    assert(now[i + 1] == u);
                }
            }
        }
    }
}

fn add_urls(pool: &mut Vec<String>, urls: &Vec<String>)
    requires
        in_text_order(views(old(pool)@)),
    ensures
        in_text_order(views(final(pool)@)),
        forall|u: Seq<char>| #[trigger]
            views(final(pool)@).contains(u) <==> views(urls@).contains(u) || views(
                old(pool)@,
            ).contains(u),
{
    let ghost start = views(pool@);
    let ghost all = views(urls@);
    let mut i: usize = 0;
    assert(all.take(0) =~= Seq::empty());
    while i < urls.len()
        invariant
            i <= urls@.len(),
            all == views(urls@),
            in_text_order(views(pool@)),
            forall|u: Seq<char>| #[trigger]
                views(pool@).contains(u) <==> all.take(i as int).contains(u) || start.contains(u),
        decreases urls@.len() - i,
    {
        let ghost before = views(pool@);
        let ghost earlier = all.take(i as int);
        let ghost now = all.take(i + 1);
        assert(now =~= earlier.push(urls@[i as int]@));
        add_url(pool, urls[i].clone());
        assert forall|u: Seq<char>| #[trigger] views(pool@).contains(u) <==> now.contains(u)
            || start.contains(u) by {
            assert(before.contains(u) <==> earlier.contains(u) || start.contains(u));
            if now.contains(u) {
                let k = choose|k: int| 0 <= k < now.len() && now[k] == u;
                if k < earlier.len() {
                    assert(earlier[k] == u);
                }
            }
            if earlier.contains(u) {
                let k = choose|k: int| 0 <= k < earlier.len() && earlier[k] == u;
                assert(now[k] == u);
            }
            if u == urls@[i as int]@ {
                assert(now[i as int] == u);
            }
        }
        i += 1;
    }
    assert(all.take(i as int) =~= all);
}

/// The recordings to measure: those known and those found, each once, in the
/// order of their URLs.
pub fn merge_pool(known: &Vec<String>, found: &Vec<String>) -> (r: Vec<String>)
    ensures
        in_text_order(views(r@)),
        forall|u: Seq<char>| #[trigger]
            views(r@).contains(u) <==> views(known@).contains(u) || views(found@).contains(u),
{
    let mut pool: Vec<String> = Vec::new();
    add_urls(&mut pool, known);
    add_urls(&mut pool, found);
    pool
}

/// A pool in order holds nothing twice.
pub proof fn ordered_pools_have_no_duplicates(pool: Seq<Seq<char>>)
    requires
        in_text_order(pool),
    ensures
        pool.no_duplicates(),
{
    assert forall|i: int, j: int|
        0 <= i < pool.len() && 0 <= j < pool.len() && i != j implies pool[i] != pool[j] by {
        lemma_never_before_itself(pool[i]);
        if i < j {
            assert(text_before(pool[i], pool[j]));
        } else {
            assert(text_before(pool[j], pool[i]));
        }
    }
}

/// There is only one way to put the same URLs in order.
pub proof fn ordered_pools_are_unique(a: Seq<Seq<char>>, b: Seq<Seq<char>>)
    requires
        in_text_order(a),
        in_text_order(b),
        forall|u: Seq<char>| #[trigger] a.contains(u) <==> b.contains(u),
    ensures
        a == b,
    decreases a.len(),
{
    if a.len() == 0 {
        if b.len() > 0 {
            assert(b.contains(b[0]));
            assert(a.contains(b[0]));
        }
        assert(a =~= b);
    } else {
        assert(a.contains(a.last()));
        assert(b.contains(a.last()));
        let i = choose|i: int| 0 <= i < b.len() && b[i] == a.last();
        assert(b.contains(b.last()));
        assert(a.contains(b.last()));
        let j = choose|j: int| 0 <= j < a.len() && a[j] == b.last();
        if a.last() != b.last() {
            assert(text_before(b[i], b[b.len() - 1]));
            assert(text_before(a[j], a[a.len() - 1]));
            lemma_before_is_transitive(a.last(), b.last(), a.last());
            lemma_never_before_itself(a.last());
        }
        ordered_pools_have_no_duplicates(a);
        ordered_pools_have_no_duplicates(b);
        let x = a.drop_last();
        let y = b.drop_last();
        assert forall|u: Seq<char>| #[trigger] x.contains(u) <==> y.contains(u) by {
            if x.contains(u) {
                let k = choose|k: int| 0 <= k < x.len() && x[k] == u;
                assert(a[k] == u);
                assert(a.contains(u));
                assert(b.contains(u));
                let m = choose|m: int| 0 <= m < b.len() && b[m] == u;
                assert(y[m] == u);
            }
            if y.contains(u) {
                let k = choose|k: int| 0 <= k < y.len() && y[k] == u;
                assert(b[k] == u);
                assert(a.contains(u));
                let m = choose|m: int| 0 <= m < a.len() && a[m] == u;
                assert(x[m] == u);
            }
        }
        ordered_pools_are_unique(x, y);
        assert(a =~= x.push(a.last()));
        assert(b =~= y.push(b.last()));
    }
}

// ---------------------------------------------------------------------------
// What was measured
// ---------------------------------------------------------------------------

pub open spec fn sum(sizes: Seq<u64>) -> int
    decreases sizes.len(),
{
    if sizes.len() == 0 {
        0
    } else {
        sum(sizes.drop_last()) + sizes.last()
    }
}

/// How many bytes the samples carried.
pub fn total_bytes(sizes: &Vec<u64>) -> (r: u128)
    ensures
        r == sum(sizes@),
        r <= sizes@.len() * u64::MAX,
{
    let mut total: u128 = 0;
    let mut i: usize = 0;
    while i < sizes.len()
        invariant
            i <= sizes@.len(),
            total == sum(sizes@.take(i as int)),
            total <= i * u64::MAX,
        decreases sizes@.len() - i,
    {
        assert(sizes@.take(i + 1).drop_last() =~= sizes@.take(i as int));
        proof {
            assert((i + 1) * u64::MAX == i * u64::MAX + u64::MAX) by (nonlinear_arith);
            assert(i * u64::MAX <= 0xffff_ffff_ffff_fffe * 0xffff_ffff_ffff_ffff) by (nonlinear_arith)
                requires
                    i <= 0xffff_ffff_ffff_fffe,
            ;
        }
        total += sizes[i] as u128;
        i += 1;
    }
    assert(sizes@.take(i as int) =~= sizes@);
    total
}

pub open spec fn mean(sizes: Seq<u64>) -> int {
    if sizes.len() == 0 {
        0
    } else {
        sum(sizes) / sizes.len() as int
    }
}

/// The mean size of the samples, rounded down; 0 without samples.
pub fn mean_bytes(sizes: &Vec<u64>) -> (r: u64)
    ensures
        r == (if sizes@.len() == 0 {
            0
        } else {
            sum(sizes@) / sizes@.len() as int
        }),
        r == mean(sizes@),
{
    if sizes.len() == 0 {
        return 0;
    }
    let total: u128 = total_bytes(sizes);
    let n: u128 = sizes.len() as u128;
    proof {
        assert(total / n <= u64::MAX) by (nonlinear_arith)
            requires
                n > 0,
                total <= n * u64::MAX,
        ;
    }
    (total / n) as u64
}

/// The unit in which a size is shown.
#[derive(Debug, Clone, Copy, PartialEq, Eq, Structural)]
pub enum Unit {
    Bytes,
    Kilobytes,
    Megabytes,
}

pub open spec fn unit_of(bytes: u64) -> Unit {
    if bytes >= 1_048_576 {
        Unit::Megabytes
    } else if bytes >= 1024 {
        Unit::Kilobytes
    } else {
        Unit::Bytes
    }
}

pub fn unit(bytes: u64) -> (r: Unit)
    ensures
        r == (if bytes >= 1_048_576 {
            Unit::Megabytes
        } else if bytes >= 1024 {
            Unit::Kilobytes
        } else {
            Unit::Bytes
        }),
        r == unit_of(bytes),
{
    if bytes >= 1_048_576 {
        Unit::Megabytes
    } else if bytes >= 1024 {
        Unit::Kilobytes
    } else {
        Unit::Bytes
    }
}

#[derive(Debug, Clone, Copy, PartialEq, Eq, Structural)]
pub enum Kind {
    Text,
    Audio,
}

/// What was measured of one kind at one level. Timings and rates are the bits
/// of doubles that are not negative, whose order is that of the doubles.
#[derive(Debug, Clone, Copy)]
pub struct Measure {
    pub kind: Kind,
    pub concurrency: usize,
    pub complete_p50: u64,
    pub requests_per_sec: u64,
}

/// The lowest level measured; 1 if none was.
pub open spec fn is_lowest(measures: Seq<Measure>, level: int) -> bool {
    if measures.len() == 0 {
        level == 1
    } else {
        &&& exists|i: int| 0 <= i < measures.len() && (#[trigger] measures[i]).concurrency == level
        &&& forall|i: int|
            0 <= i < measures.len() ==> level <= (#[trigger] measures[i]).concurrency
    }
}

pub fn lowest(measures: &Vec<Measure>) -> (r: usize)
    ensures
        is_lowest(measures@, r as int),
{
    if measures.len() == 0 {
        return 1;
    }
    let mut level: usize = measures[0].concurrency;
    let mut i: usize = 1;
    assert(measures@[0].concurrency == level);
    while i < measures.len()
        invariant
            1 <= i <= measures@.len(),
            exists|j: int|
                0 <= j < measures@.len() && (#[trigger] measures@[j]).concurrency == level,
            forall|j: int| 0 <= j < i ==> level <= (#[trigger] measures@[j]).concurrency,
        decreases measures@.len() - i,
    {
        if measures[i].concurrency < level {
            level = measures[i].concurrency;
            assert(measures@[i as int].concurrency == level);
        }
        i += 1;
    }
    level
}

pub open spec fn is_at(m: Measure, kind: Kind, level: int) -> bool {
    m.kind == kind && m.concurrency == level
}

/// The first measure of a kind at a level.
pub fn measured_at(measures: &Vec<Measure>, kind: Kind, level: usize) -> (r: Option<usize>)
    ensures
        match r {
            Some(i) => {
                &&& i < measures@.len() && is_at(measures@[i as int], kind, level as int)
                &&& forall|j: int|
                    0 <= j < i ==> !is_at(#[trigger] measures@[j], kind, level as int)
            },
            None => forall|j: int|
                0 <= j < measures@.len() ==> !is_at(#[trigger] measures@[j], kind, level as int),
        },
{
    let mut i: usize = 0;
    while i < measures.len()
        invariant
            i <= measures@.len(),
            forall|j: int| 0 <= j < i ==> !is_at(#[trigger] measures@[j], kind, level as int),
        decreases measures@.len() - i,
    {
        if measures[i].kind == kind && measures[i].concurrency == level {
            return Some(i);
        }
        i += 1;
    }
    None
}

/// Whether the measure at `i` is at least as good a peak as the one at `j`:
/// the higher rate wins, then the higher level, then the later measure.
pub open spec fn outdoes(measures: Seq<Measure>, i: int, j: int) -> bool {
    let a = measures[i];
    let b = measures[j];
    ||| a.requests_per_sec > b.requests_per_sec
    ||| a.requests_per_sec == b.requests_per_sec && a.concurrency > b.concurrency
    ||| a.requests_per_sec == b.requests_per_sec && a.concurrency == b.concurrency && i >= j
}

pub open spec fn of_kind(measures: Seq<Measure>, kind: Kind) -> nat {
    measures.filter(|m: Measure| m.kind == kind).len()
}

/// Whether throughput peaks at a measure; nowhere unless at least two of the kind
/// were made.
pub open spec fn peaks_at(measures: Seq<Measure>, kind: Kind, at: Option<usize>) -> bool {
    match at {
        Some(i) => {
            &&& of_kind(measures, kind) >= 2
            &&& i < measures.len() && measures[i as int].kind == kind
            &&& forall|j: int|
                0 <= j < measures.len() && (#[trigger] measures[j]).kind == kind ==> outdoes(
                    measures,
                    i as int,
                    j,
                )
        },
        None => of_kind(measures, kind) < 2,
    }
}

/// Where throughput peaks, if at least two measures of the kind were made.
pub fn peak(measures: &Vec<Measure>, kind: Kind) -> (r: Option<usize>)
    ensures
        match r {
            Some(i) => {
                &&& of_kind(measures@, kind) >= 2
                &&& i < measures@.len() && measures@[i as int].kind == kind
                &&& forall|j: int|
                    0 <= j < measures@.len() && (#[trigger] measures@[j]).kind == kind ==> outdoes(
                        measures@,
                        i as int,
                        j,
                    )
            },
            None => of_kind(measures@, kind) < 2,
        },
        peaks_at(measures@, kind, r),
{
    let ghost keep = |m: Measure| m.kind == kind;
    let mut best: Option<usize> = None;
    let mut count: usize = 0;
    let mut i: usize = 0;
    assert(measures@.take(0).filter(keep).len() == 0) by {
        reveal(Seq::filter);
    }
    while i < measures.len()
        invariant
            i <= measures@.len(),
            count <= i,
            keep == (|m: Measure| m.kind == kind),
            count == measures@.take(i as int).filter(keep).len(),
            count > 0 <==> best is Some,
            best matches Some(b) ==> {
                &&& b < i && measures@[b as int].kind == kind
                &&& forall|j: int|
                    0 <= j < i && (#[trigger] measures@[j]).kind == kind ==> outdoes(
                        measures@,
                        b as int,
                        j,
                    )
            },
            best is None ==> forall|j: int| 0 <= j < i ==> (#[trigger] measures@[j]).kind != kind,
        decreases measures@.len() - i,
    {
        let ghost now = measures@.take(i + 1);
        proof {
            reveal(Seq::filter);
            assert(now.drop_last() =~= measures@.take(i as int));
            assert(now.last() == measures@[i as int]);
        }
        if measures[i].kind == kind {
            count += 1;
            let better = match best {
                Some(b) => {
                    let a = measures[i];
                    let b = measures[b];
                    a.requests_per_sec > b.requests_per_sec || (a.requests_per_sec
                        == b.requests_per_sec && a.concurrency >= b.concurrency)
                },
                None => true,
            };
            if better {
                best = Some(i);
            }
        }
        i += 1;
    }
    assert(measures@.take(i as int) =~= measures@);
    if count < 2 {
        None
    } else {
        best
    }
}

/// Whether audio takes at least as long as text end to end.
pub fn audio_is_slower(text: &Measure, audio: &Measure) -> (r: bool)
    ensures
        r == (audio.complete_p50 >= text.complete_p50),
{
    audio.complete_p50 >= text.complete_p50
}

// ---------------------------------------------------------------------------
// What holds of a benchmark
// ---------------------------------------------------------------------------

/// The configured levels are swept, in order, or level 1 if none is configured.
pub proof fn configured_levels_are_swept(bench: Bench)
    ensures
        bench.concurrency_levels@.len() > 0 ==> swept_levels(bench) == bench.concurrency_levels@,
        bench.concurrency_levels@.len() == 0 ==> swept_levels(bench).len() == 1 && swept_levels(
            bench,
        )[0] == 1,
{
}

/// Every thread of the catalog is a candidate.
pub proof fn every_thread_is_a_candidate(structure: Structure, i: int)
    ensures
        thread_ids(structure).len() == structure.threads@.len(),
        0 <= i < structure.threads@.len() ==> thread_ids(structure)[i]
            == structure.threads@[i].id,
{
}

/// Threads are read by number, each from a place of its own.
pub proof fn threads_have_places_of_their_own(a: i64, b: i64)
    ensures
        thread_url(a) == "/api/v1/forum/"@ + decimal_int(a as int),
        thread_url(a) == thread_url(b) ==> a == b,
{
    if thread_url(a) == thread_url(b) {
        let n = "/api/v1/forum/"@.len() as int;
        assert(thread_url(a).skip(n) =~= decimal_int(a as int));
        assert(thread_url(b).skip(n) =~= decimal_int(b as int));
        decimals_differ(a as int, b as int);
    }
}

/// The first three threads warm the connection, and those after them are measured,
/// as many as are needed if there are as many.
pub proof fn threads_after_the_third_are_measured(ids: Seq<i64>, needed: int, i: int)
    requires
        0 <= needed,
    ensures
        thread_urls(at_most(ids, 3)).len() == (if ids.len() < 3 {
            ids.len() as int
        } else {
            3
        }),
        0 <= i < thread_urls(at_most(ids, 3)).len() ==> thread_urls(at_most(ids, 3))[i]
            == thread_url(ids[i]),
        thread_urls(at_most(beyond(ids, 3), needed)).len() == (if ids.len() <= 3 {
            0
        } else if ids.len() - 3 < needed {
            ids.len() - 3
        } else {
            needed
        }),
        0 <= i < thread_urls(at_most(beyond(ids, 3), needed)).len() ==> thread_urls(
            at_most(beyond(ids, 3), needed),
        )[i] == thread_url(ids[i + 3]),
{
}

/// As long as the pool lasts, the levels take its URLs one after the other: level `k`
/// starts where level `k - 1` stopped. Where the pool ends it starts again.
pub proof fn levels_take_the_pool_in_turn(
    pool: Seq<Seq<char>>,
    level: int,
    n: int,
    i: int,
    rounds: int,
    rest: int,
)
    requires
        0 <= level,
        0 <= i < n,
    ensures
        pool.len() > 0 ==> level_urls(pool, level, n).len() == n,
        pool.len() == 0 ==> level_urls(pool, level, n).len() == 0,
        level * n + i < pool.len() ==> level_urls(pool, level, n)[i] == pool[level * n + i],
        pool.len() > 0 && 0 <= rest < pool.len() && level * n + i == rounds * pool.len() + rest
            ==> level_urls(pool, level, n)[i] == pool[rest],
{
    let at = level * n + i;
    assert(at >= 0) by (nonlinear_arith)
        requires
            level >= 0,
            n > 0,
            i >= 0,
            at == level * n + i,
    ;
    if at < pool.len() {
        lemma_small_mod(at as nat, pool.len());
    }
    if pool.len() > 0 && 0 <= rest < pool.len() && at == rounds * pool.len() + rest {
        lemma_fundamental_div_mod_converse(at, pool.len() as int, rounds, rest);
    }
}

/// At each level the text comes first and then the audio, each with the URLs of the
/// level and as many at a time as the level says; what there is no URL of is left
/// out.
pub proof fn levels_are_swept_in_order(
    text: Seq<Seq<char>>,
    text_n: int,
    audio: Seq<Seq<char>>,
    audio_n: int,
    levels: Seq<usize>,
    k: int,
    j: int,
)
    requires
        0 <= j < k <= levels.len(),
        text_n > 0,
        audio_n > 0,
    ensures
        text.len() > 0 && audio.len() > 0 ==> {
            let all = batches(text, text_n, audio, audio_n, levels, k);
            &&& all.len() == 2 * k
            &&& all[2 * j].kind is Text && all[2 * j].concurrency == levels[j] && all[2 * j].urls
                == level_urls(text, j, text_n)
            &&& all[2 * j + 1].kind is Audio && all[2 * j + 1].concurrency == levels[j] && all[2 * j
                + 1].urls == level_urls(audio, j, audio_n)
        },
        text.len() > 0 && audio.len() == 0 ==> {
            let all = batches(text, text_n, audio, audio_n, levels, k);
            &&& all.len() == k
            &&& all[j].kind is Text && all[j].concurrency == levels[j] && all[j].urls == level_urls(
                text,
                j,
                text_n,
            )
        },
        text.len() == 0 && audio.len() > 0 ==> {
            let all = batches(text, text_n, audio, audio_n, levels, k);
            &&& all.len() == k
            &&& all[j].kind is Audio && all[j].concurrency == levels[j] && all[j].urls
                == level_urls(audio, j, audio_n)
        },
        text.len() == 0 && audio.len() == 0 ==> batches(
            text,
            text_n,
            audio,
            audio_n,
            levels,
            k,
        ).len() == 0,
    decreases k,
{
    let before = batches(text, text_n, audio, audio_n, levels, k - 1);
    if k > 1 {
        levels_are_swept_in_order(
            text,
            text_n,
            audio,
            audio_n,
            levels,
            k - 1,
            if j < k - 1 {
                j
            } else {
                0
            },
        );
    } else {
        assert(before =~= Seq::<BatchV>::empty());
    }
    assert(text.len() > 0 ==> level_urls(text, k - 1, text_n).len() > 0);
    assert(audio.len() > 0 ==> level_urls(audio, k - 1, audio_n).len() > 0);
}

/// A pool runs short exactly if the levels together take more URLs than it has.
pub proof fn pools_run_short_when_levels_take_more(pool: Seq<Seq<char>>, n: int, k: int)
    requires
        n > 0,
        k > 0,
    ensures
        runs_short(pool, n, k) <==> 0 < pool.len() < k * n,
{
}

/// The recordings of a thread are those of its posts, in order: each that gives a
/// URL, and no other.
pub proof fn recordings_are_those_of_each_post(
    a: Seq<JsonV>,
    b: Seq<JsonV>,
    post: JsonV,
    audio: JsonV,
    url: Seq<char>,
)
    ensures
        recording_urls(a + b) == recording_urls(a) + recording_urls(b),
        field(post, "audio"@) is None ==> recording_urls(seq![post]).len() == 0,
        field(post, "audio"@) == Some(audio) && gives_text(audio, "url"@, url) && url.len() > 0
            ==> recording_urls(seq![post]) == seq![url],
        field(post, "audio"@) == Some(audio) && gives_text(audio, "url"@, url) && url.len() == 0
            ==> recording_urls(seq![post]).len() == 0,
{
    lemma_recordings_add_up(a, b);
    assert(seq![post].drop_last() =~= Seq::empty());
    assert(seq![post].last() == post);
    reveal_with_fuel(recording_urls, 2);
    if field(post, "audio"@) == Some(audio) && gives_text(audio, "url"@, url) && url.len() > 0 {
        assert(recording_urls(seq![post]) =~= seq![url]);
    }
}

proof fn lemma_recordings_add_up(a: Seq<JsonV>, b: Seq<JsonV>)
    ensures
        recording_urls(a + b) == recording_urls(a) + recording_urls(b),
    decreases b.len(),
{
    if b.len() == 0 {
        assert(a + b =~= a);
        assert(recording_urls(a) + recording_urls(b) =~= recording_urls(a));
    } else {
        assert((a + b).drop_last() =~= a + b.drop_last());
        lemma_recordings_add_up(a, b.drop_last());
        assert(recording_urls(a + b) =~= recording_urls(a) + recording_urls(b));
    }
}

/// A text stands before another if it is a beginning of it, or if it has the smaller
/// character where the two first differ. `k` is how far they agree.
pub proof fn texts_are_ordered_by_their_characters(a: Seq<char>, b: Seq<char>, k: int)
    requires
        0 <= k <= a.len(),
        k <= b.len(),
        forall|i: int| 0 <= i < k ==> a[i] == b[i],
        k < a.len() && k < b.len() ==> a[k] != b[k],
    ensures
        k == a.len() ==> (text_before(a, b) <==> k < b.len()),
        k < a.len() && k == b.len() ==> !text_before(a, b),
        k < a.len() && k < b.len() ==> (text_before(a, b) <==> a[k] < b[k]),
{
    lemma_common_beginning(a, b, k);
    if k < a.len() && k < b.len() {
        assert(a.skip(k)[0] == a[k] && b.skip(k)[0] == b[k]);
    }
}

/// Sums add up, and the number of measures of a kind does.
pub proof fn measures_add_up(
    a: Seq<u64>,
    b: Seq<u64>,
    n: u64,
    s: Seq<Measure>,
    t: Seq<Measure>,
    m: Measure,
    kind: Kind,
)
    ensures
        sum(a + b) == sum(a) + sum(b),
        sum(seq![n]) == n,
        of_kind(s + t, kind) == of_kind(s, kind) + of_kind(t, kind),
        of_kind(seq![m], kind) == (if m.kind == kind {
            1nat
        } else {
            0
        }),
{
    lemma_sums_add_up(a, b);
    assert(seq![n].drop_last() =~= Seq::empty());
    reveal_with_fuel(sum, 2);
    let keep = |m: Measure| m.kind == kind;
    Seq::filter_distributes_over_add(s, t, keep);
    assert(seq![m].drop_last() =~= Seq::empty());
    assert(seq![m].last() == m);
    reveal_with_fuel(Seq::filter, 2);
}

proof fn lemma_sums_add_up(a: Seq<u64>, b: Seq<u64>)
    ensures
        sum(a + b) == sum(a) + sum(b),
    decreases b.len(),
{
    if b.len() == 0 {
        assert(a + b =~= a);
    } else {
        assert((a + b).drop_last() =~= a + b.drop_last());
        lemma_sums_add_up(a, b.drop_last());
    }
}

/// The lowest level is one that was measured, with none below it; it is 1 if nothing
/// was measured.
pub proof fn the_lowest_level_was_measured(measures: Seq<Measure>, level: int, i: int)
    requires
        is_lowest(measures, level),
    ensures
        measures.len() == 0 ==> level == 1,
        0 <= i < measures.len() ==> level <= measures[i].concurrency,
        measures.len() > 0 ==> exists|j: int|
            0 <= j < measures.len() && (#[trigger] measures[j]).concurrency == level,
{
}

/// A peak has the highest rate of its kind; among equal rates the highest level, and
/// among equal levels it is the last measure.
pub proof fn peaks_have_the_highest_rate(measures: Seq<Measure>, i: int, j: int)
    requires
        outdoes(measures, i, j),
    ensures
        measures[i].requests_per_sec >= measures[j].requests_per_sec,
        measures[i].requests_per_sec == measures[j].requests_per_sec ==> measures[i].concurrency
            >= measures[j].concurrency,
        measures[i].requests_per_sec == measures[j].requests_per_sec && measures[i].concurrency
            == measures[j].concurrency ==> i >= j,
{
}

/// A measure is at a level of a kind exactly if both are its own.
pub proof fn measures_are_found_by_kind_and_level(m: Measure, kind: Kind, level: int)
    ensures
        is_at(m, kind, level) <==> m.kind == kind && m.concurrency == level,
{
}

/// A number of samples that is asked for counts for both kinds; else the configured
/// ones count, each for its kind.
pub proof fn samples_are_as_asked_for(n: usize, bench: Bench)
    ensures
        samples(Some(n), bench) == (n as int, n as int),
        samples(None, bench).0 == bench.text_samples,
        samples(None, bench).1 == bench.audio_samples,
{
}

/// The configured rate limit is kept unless it is to be ignored.
pub proof fn rates_are_kept_unless_ignored(bench: Bench, scrape: Scrape)
    ensures
        bench.ignore_rate_limit ==> rate_of(bench, scrape) == 0,
        !bench.ignore_rate_limit ==> rate_of(bench, scrape) == scrape.requests_per_second,
{
}

/// The mean is the largest size that all samples could have had without exceeding
/// their sum.
pub proof fn means_are_rounded_down(sizes: Seq<u64>)
    ensures
        sizes.len() == 0 ==> mean(sizes) == 0,
        sizes.len() > 0 ==> mean(sizes) * sizes.len() <= sum(sizes) < (mean(sizes) + 1)
            * sizes.len(),
{
    if sizes.len() > 0 {
        let (x, n, m) = (sum(sizes), sizes.len() as int, mean(sizes));
        lemma_fundamental_div_mod(x, n);
        assert(m * n <= x < (m + 1) * n) by (nonlinear_arith)
            requires
                n > 0,
                x == n * m + x % n,
                0 <= x % n < n,
        ;
    }
}

/// Sizes are shown in the largest unit that they fill once.
pub proof fn sizes_are_shown_in_the_largest_unit(bytes: u64)
    ensures
        unit_of(bytes) is Megabytes <==> bytes / 1_048_576 >= 1,
        unit_of(bytes) is Kilobytes <==> bytes / 1024 >= 1 && bytes / 1_048_576 == 0,
        unit_of(bytes) is Bytes <==> bytes < 1024,
{
}

/// A peak is found exactly if two measures of the kind were made, it is one of them,
/// and none of them has a higher rate, nor the same rate at a higher level.
pub proof fn peaks_are_the_best_of_their_kind(
    measures: Seq<Measure>,
    kind: Kind,
    at: Option<usize>,
    j: int,
)
    requires
        peaks_at(measures, kind, at),
    ensures
        at is Some <==> of_kind(measures, kind) >= 2,
        at matches Some(i) ==> i < measures.len() && measures[i as int].kind == kind,
        at matches Some(i) ==> 0 <= j < measures.len() && measures[j].kind == kind ==> {
            let (a, b) = (measures[i as int], measures[j]);
            a.requests_per_sec > b.requests_per_sec || (a.requests_per_sec == b.requests_per_sec
                && (a.concurrency > b.concurrency || (a.concurrency == b.concurrency && i >= j)))
        },
{
}

/// The first items of a list, or all of them, and what comes after them, make up the
/// list; no more than 120 threads are looked at for recordings.
pub proof fn lists_are_cut_in_two<T>(s: Seq<T>, n: int)
    requires
        0 <= n,
    ensures
        at_most(s, n) + beyond(s, n) == s,
        at_most(s, n).len() <= n,
        s.len() >= n ==> at_most(s, n).len() == n,
        MOST_CANDIDATES == 120,
{
    assert(at_most(s, n) + beyond(s, n) =~= s);
}

} // verus!
