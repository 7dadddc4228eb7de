//! The Elten API: response envelope, shared pacing of requests, retries, and
//! metered media downloads.
//!
//! Wire format:
//!   * base `https://api.elten.link`, REST under `/api/v1`
//!   * every response is `{"success": <truthy>, "data": {...}}`, or
//!     `{"success": false, "error": {"code": ..., "message": ...}}`
//!   * an authenticated session travels as `name` + `token` query parameters
//!
//! The functions here decide; sending, sleeping and reading the clock is left
//! to the caller, who hands in what came back and does what is asked.

use vstd::prelude::*;

use crate::digest::{absorbed, hex, hex_text, sha256, Hasher};
use crate::json::{field, json_complaint, json_parsed, written, Json, JsonObject, JsonV};
use crate::model::{gives_text, opt_view, str_field, str_of, truth, truthy};
use crate::text::{
    ascii_lower, ascii_lowered, decimal, ends_with, first_chars, first_of, halves,
    halves_are_cut_at_the_first, has_prefix, is_space, lemma_first_of, lemma_first_of_bounds,
    lower_char, nat_text, pieces, slice_text, space, split, split_once, splitting_undoes_joining,
    starts_with, strip_end, stripped_end, take_chars, to_chars, views,
};

verus! {

// ---------------------------------------------------------------------------
// Redaction
// ---------------------------------------------------------------------------

/// Whether a piece of a query string carries a credential.
pub open spec fn is_secret(part: Seq<char>) -> bool {
    let lowered = ascii_lowered(part);
    ||| has_prefix(lowered, "token="@)
    ||| has_prefix(lowered, "password="@)
    ||| has_prefix(lowered, "autotoken="@)
    ||| has_prefix(lowered, "name="@)
}

/// What stands before the first `=`.
pub open spec fn param_name(part: Seq<char>) -> Seq<char> {
    pieces(part, '=', '=')[0]
}

/// A piece of a query string without its credential.
pub open spec fn redacted_part(part: Seq<char>) -> Seq<char> {
    if is_secret(part) {
        param_name(part) + "=[REDACTED]"@
    } else {
        part
    }
}

/// What separates piece `i` of a URL from the one before it.
pub open spec fn part_separator(i: int) -> Seq<char> {
    if i <= 0 {
        Seq::empty()
    } else if i == 1 {
        seq!['?']
    } else {
        seq!['&']
    }
}

/// The pieces of a URL put together again, without credentials.
pub open spec fn joined_redacted(parts: Seq<Seq<char>>) -> Seq<char>
    decreases parts.len(),
{
    if parts.len() == 0 {
        Seq::empty()
    } else {
        joined_redacted(parts.drop_last()) + part_separator(parts.len() - 1) + redacted_part(
            parts.last(),
        )
    }
}

/// A URL without credentials.
pub open spec fn redacted(url: Seq<char>) -> Seq<char> {
    joined_redacted(pieces(url, '?', '&'))
}

fn secret(part: &str) -> (r: bool)
    ensures
        r == is_secret(part@),
{
    let lowered = ascii_lower(part);
    let lowered = lowered.as_str();
    starts_with(lowered, "token=") || starts_with(lowered, "password=") || starts_with(
        lowered,
        "autotoken=",
    ) || starts_with(lowered, "name=")
}

/// Keep credentials out of logs and error messages.
pub fn redact(url: &str) -> (r: String)
    ensures
        r@ == redacted(url@),
{
    let parts = split(url, '?', '&');
    let ghost all = pieces(url@, '?', '&');
    let mut out = String::new();
    let mut i: usize = 0;
    while i < parts.len()
        invariant
            i <= parts@.len(),
            views(parts@) == all,
            out@ == joined_redacted(all.take(i as int)),
        decreases parts@.len() - i,
    {
        let part = parts[i].as_str();
        assert(all[i as int] == part@);
        assert(all.take(i + 1).drop_last() == all.take(i as int));
        assert(all.take(i + 1).last() == part@);
        if i > 0 {
            out.push(
                if i == 1 {
                    '?'
                } else {
                    '&'
                },
            );
        }
        assert(out@ =~= joined_redacted(all.take(i as int)) + part_separator(i as int));
        if secret(part) {
            let names = split(part, '=', '=');
            assert(views(names@).len() == names@.len());
            assert(names@.len() > 0);
            assert(views(names@)[0] == names@[0]@);
            out.append(names[0].as_str());
            out.append("=[REDACTED]");
        } else {
            out.append(part);
        }
        assert(out@ =~= joined_redacted(all.take(i + 1)));
        i += 1;
    }
    assert(all.take(i as int) == all);
    out
}

/// A redacted URL says nothing about the credentials: two URLs that differ only
/// in what follows the `=` of a credential redact to the same text.
pub proof fn redaction_hides_credentials(a: Seq<char>, b: Seq<char>)
    requires
        pieces(a, '?', '&').len() == pieces(b, '?', '&').len(),
        forall|i: int|
            0 <= i < pieces(a, '?', '&').len() ==> {
                let p = #[trigger] pieces(a, '?', '&')[i];
                let q = pieces(b, '?', '&')[i];
                p == q || (is_secret(p) && is_secret(q) && param_name(p) == param_name(q))
            },
    ensures
        redacted(a) == redacted(b),
{
    lemma_joined_redacted(pieces(a, '?', '&'), pieces(b, '?', '&'));
}

proof fn lemma_joined_redacted(p: Seq<Seq<char>>, q: Seq<Seq<char>>)
    requires
        p.len() == q.len(),
        forall|i: int|
            0 <= i < p.len() ==> redacted_part(#[trigger] p[i]) == redacted_part(q[i]),
    ensures
        joined_redacted(p) == joined_redacted(q),
    decreases p.len(),
{
    if p.len() > 0 {
        assert forall|i: int| 0 <= i < p.drop_last().len() implies redacted_part(
            #[trigger] p.drop_last()[i],
        ) == redacted_part(q.drop_last()[i]) by {
            assert(p.drop_last()[i] == p[i]);
        }
        lemma_joined_redacted(p.drop_last(), q.drop_last());
        assert(p[p.len() - 1] == p.last());
    }
}

/// Whether a character ends a word of a message. A URL in a message is cut where
/// its parameters are.
pub open spec fn is_break(c: char) -> bool {
    is_space(c) || c == '?' || c == '&' || c == '#'
}

/// How long the first word of a message is.
pub open spec fn word_len(s: Seq<char>) -> nat
    decreases s.len(),
{
    if s.len() == 0 || is_break(s[0]) {
        0
    } else {
        1 + word_len(s.skip(1))
    }
}

/// The words of a message, between its breaks.
pub open spec fn words(s: Seq<char>) -> Seq<Seq<char>>
    decreases s.len(),
{
    let n = word_len(s) as int;
    if n < s.len() {
        seq![s.take(n)] + words(s.skip(n + 1))
    } else {
        seq![s]
    }
}

/// Whether a name, with whatever stands before it, is that of a credential.
pub open spec fn names_credential(name: Seq<char>) -> bool {
    let lowered = ascii_lowered(name);
    ||| "token"@.is_suffix_of(lowered)
    ||| "password"@.is_suffix_of(lowered)
    ||| "name"@.is_suffix_of(lowered)
}

/// Whether a word carries a credential: `name=value`.
pub open spec fn carries_credential(word: Seq<char>) -> bool {
    halves(word, '=') matches Some((name, _)) && names_credential(name)
}

/// A word without its credential.
pub open spec fn hidden(word: Seq<char>) -> Seq<char> {
    if carries_credential(word) {
        halves(word, '=')->Some_0.0 + "=[REDACTED]"@
    } else {
        word
    }
}

/// A message without credentials: breaks stay, words lose theirs.
pub open spec fn scrubbed(s: Seq<char>) -> Seq<char>
    decreases s.len(),
{
    let n = word_len(s) as int;
    if n < s.len() {
        hidden(s.take(n)) + seq![s[n]] + scrubbed(s.skip(n + 1))
    } else {
        hidden(s)
    }
}

/// Whether no word of a message shows a credential.
pub open spec fn holds_no_credential(s: Seq<char>) -> bool {
    forall|i: int|
        0 <= i < words(s).len() && carries_credential(#[trigger] words(s)[i]) ==> words(s)[i]
            == halves(words(s)[i], '=')->Some_0.0 + "=[REDACTED]"@
}

proof fn lemma_word_len(s: Seq<char>, n: int)
    requires
        0 <= n <= s.len(),
        forall|i: int| 0 <= i < n ==> !is_break(#[trigger] s[i]),
        n < s.len() ==> is_break(s[n]),
    ensures
        word_len(s) == n,
    decreases s.len(),
{
    if n > 0 {
        assert forall|i: int| 0 <= i < n - 1 implies !is_break(#[trigger] s.skip(1)[i]) by {
            assert(s.skip(1)[i] == s[i + 1]);
        }
        lemma_word_len(s.skip(1), n - 1);
    }
}

proof fn lemma_word_is_unbroken(s: Seq<char>)
    ensures
        word_len(s) <= s.len(),
        forall|i: int| 0 <= i < word_len(s) ==> !is_break(#[trigger] s[i]),
        word_len(s) < s.len() ==> is_break(s[word_len(s) as int]),
    decreases s.len(),
{
    if s.len() > 0 && !is_break(s[0]) {
        lemma_word_is_unbroken(s.skip(1));
        assert forall|i: int| 0 <= i < word_len(s) implies !is_break(#[trigger] s[i]) by {
            if i > 0 {
                assert(s.skip(1)[i - 1] == s[i]);
            }
        }
    }
}

/// Hiding a credential makes no new words, and what it leaves needs no hiding.
proof fn lemma_hidden(word: Seq<char>)
    requires
        forall|i: int| 0 <= i < word.len() ==> !is_break(#[trigger] word[i]),
    ensures
        forall|i: int| 0 <= i < hidden(word).len() ==> !is_break(#[trigger] hidden(word)[i]),
        carries_credential(hidden(word)) ==> hidden(word) == halves(hidden(word), '=')->Some_0.0
            + "=[REDACTED]"@,
{
    if carries_credential(word) {
        let (name, value) = halves(word, '=')->Some_0;
        let out = hidden(word);
        let n = name.len() as int;
        lemma_first_of_bounds(word, '=', '=');
        reveal_strlit("=[REDACTED]");
        let mark = "=[REDACTED]"@;
        assert(mark.len() == 11);
        assert forall|i: int| 0 <= i < out.len() implies !is_break(#[trigger] out[i]) by {
            if i < n {
                assert(out[i] == word[i]);
            } else {
                assert(out[i] == mark[i - n]);
            }
        }
        assert forall|j: int| 0 <= j < n implies #[trigger] out[j] != '=' by {
            assert(out[j] == word[j]);
        }
        assert(out[n] == mark[0]);
        lemma_first_of(out, '=', '=', n);
        assert(out.take(n) =~= name);
    }
}

proof fn lemma_words_of_scrubbed(s: Seq<char>)
    ensures
        words(scrubbed(s)) == words(s).map_values(|w: Seq<char>| hidden(w)),
    decreases s.len(),
{
    let n = word_len(s) as int;
    let cover = |w: Seq<char>| hidden(w);
    lemma_word_is_unbroken(s);
    if n < s.len() {
        let word = s.take(n);
        let rest = s.skip(n + 1);
        let out = scrubbed(s);
        let m = hidden(word).len() as int;
        assert forall|i: int| 0 <= i < word.len() implies !is_break(#[trigger] word[i]) by {
            assert(word[i] == s[i]);
        }
        lemma_hidden(word);
        lemma_words_of_scrubbed(rest);
        assert forall|i: int| 0 <= i < m implies !is_break(#[trigger] out[i]) by {
            assert(out[i] == hidden(word)[i]);
        }
        assert(out[m] == s[n]);
        lemma_word_len(out, m);
        assert(out.take(m) =~= hidden(word));
        assert(out.skip(m + 1) =~= scrubbed(rest));
        assert(words(out) =~= words(s).map_values(cover));
    } else {
        lemma_hidden(s);
        lemma_word_len(hidden(s), hidden(s).len() as int);
        assert(words(scrubbed(s)) =~= words(s).map_values(cover));
    }
}

proof fn lemma_words_are_unbroken(s: Seq<char>)
    ensures
        forall|k: int, i: int|
            0 <= k < words(s).len() && 0 <= i < words(s)[k].len() ==> !is_break(
                #[trigger] words(s)[k][i],
            ),
    decreases s.len(),
{
    let n = word_len(s) as int;
    lemma_word_is_unbroken(s);
    if n < s.len() {
        let rest = s.skip(n + 1);
        lemma_words_are_unbroken(rest);
        assert forall|k: int, i: int|
            0 <= k < words(s).len() && 0 <= i < words(s)[k].len() implies !is_break(
            #[trigger] words(s)[k][i],
        ) by {
            if k == 0 {
                assert(words(s)[0][i] == s[i]);
            } else {
                assert(words(s)[k] == words(rest)[k - 1]);
                assert(!is_break(words(rest)[k - 1][i]));
            }
        }
    }
}

/// A scrubbed message shows no credential.
pub proof fn scrubbed_messages_hold_no_credential(s: Seq<char>)
    ensures
        holds_no_credential(scrubbed(s)),
{
    lemma_words_of_scrubbed(s);
    lemma_words_are_unbroken(s);
    let out = scrubbed(s);
    assert forall|i: int|
        0 <= i < words(out).len() && carries_credential(#[trigger] words(out)[i]) implies words(
        out,
    )[i] == halves(words(out)[i], '=')->Some_0.0 + "=[REDACTED]"@ by {
        let word = words(s)[i];
        assert forall|k: int| 0 <= k < word.len() implies !is_break(#[trigger] word[k]) by {
            assert(!is_break(words(s)[i][k]));
        }
        lemma_hidden(word);
    }
}

/// Two words that are the same, or carry the same credential with different
/// values.
pub open spec fn same_but_value(p: Seq<char>, q: Seq<char>) -> bool {
    p == q || (carries_credential(p) && carries_credential(q) && halves(p, '=')->Some_0.0
        == halves(q, '=')->Some_0.0)
}

/// A scrubbed message says nothing about the credentials: two messages with the
/// same breaks whose words differ only in the values of credentials are scrubbed
/// to the same text.
pub proof fn scrubbing_hides_credentials(a: Seq<char>, b: Seq<char>)
    requires
        words(a).len() == words(b).len(),
        forall|i: int|
            0 <= i < words(a).len() ==> same_but_value(#[trigger] words(a)[i], words(b)[i]),
        breaks(a) == breaks(b),
    ensures
        scrubbed(a) == scrubbed(b),
    decreases a.len(),
{
    let n = word_len(a) as int;
    let m = word_len(b) as int;
    lemma_word_is_unbroken(a);
    lemma_word_is_unbroken(b);
    assert(words(a)[0] == a.take(n));
    assert(words(b)[0] == b.take(m));
    assert(same_but_value(words(a)[0], words(b)[0]));
    lemma_has_words(a.skip(n + 1));
    lemma_has_words(b.skip(m + 1));
    if n < a.len() {
        assert(m < b.len());
        let (x, y) = (a.skip(n + 1), b.skip(m + 1));
        assert(breaks(a)[0] == a[n] && breaks(b)[0] == b[m]);
        assert(breaks(a).skip(1) =~= breaks(x));
        assert(breaks(b).skip(1) =~= breaks(y));
        assert forall|i: int| 0 <= i < words(x).len() implies same_but_value(
            #[trigger] words(x)[i],
            words(y)[i],
        ) by {
            assert(words(a)[i + 1] == words(x)[i]);
            assert(words(b)[i + 1] == words(y)[i]);
        }
        scrubbing_hides_credentials(x, y);
    } else {
        assert(a.take(n) =~= a);
        if m < b.len() {
            assert(words(b).len() >= 2);
        }
        assert(b.take(m) =~= b);
    }
}

/// The breaks of a message, in order.
pub open spec fn breaks(s: Seq<char>) -> Seq<char>
    decreases s.len(),
{
    let n = word_len(s) as int;
    if n < s.len() {
        seq![s[n]] + breaks(s.skip(n + 1))
    } else {
        Seq::empty()
    }
}

proof fn lemma_has_words(s: Seq<char>)
    ensures
        words(s).len() >= 1,
{
}

fn names_secret(name: &str) -> (r: bool)
    ensures
        r == names_credential(name@),
{
    let lowered = ascii_lower(name);
    let lowered = lowered.as_str();
    ends_with(lowered, "token") || ends_with(lowered, "password") || ends_with(lowered, "name")
}

fn without_credential(word: String) -> (r: String)
    ensures
        r@ == hidden(word@),
{
    match split_once(word.as_str(), '=') {
        Some((name, _)) => if names_secret(name.as_str()) {
            name.concat("=[REDACTED]")
        } else {
            word
        },
        None => word,
    }
}

/// Keep credentials out of a message that someone else wrote, such as one that
/// quotes the URL of a request.
pub fn scrub(message: &str) -> (r: String)
    ensures
        r@ == scrubbed(message@),
        holds_no_credential(r@),
{
    let chars: Vec<char> = to_chars(message);
    let mut out = String::new();
    let mut from: usize = 0;
    let mut i: usize = 0;
    assert(chars@.skip(0) =~= chars@);
    assert(out@ + scrubbed(chars@) =~= scrubbed(chars@));
    while i < chars.len()
        invariant
            from <= i <= chars@.len(),
            out@ + scrubbed(chars@.skip(from as int)) == scrubbed(chars@),
            forall|j: int| from <= j < i ==> !is_break(#[trigger] chars@[j]),
        decreases chars@.len() - i,
    {
        let c: char = chars[i];
        if space(c) || c == '?' || c == '&' || c == '#' {
            let ghost rest = chars@.skip(from as int);
            let ghost before = out@;
            let word = slice_text(&chars, from, i);
            proof {
                assert forall|j: int| 0 <= j < i - from implies !is_break(#[trigger] rest[j]) by {
                    assert(rest[j] == chars@[from + j]);
                }
                lemma_word_len(rest, i - from);
                assert(rest.take(i - from) =~= word@);
                assert(rest.skip(i - from + 1) =~= chars@.skip(i + 1));
            }
            let shown = without_credential(word);
            out.append(shown.as_str());
            out.push(c);
            from = i + 1;
            assert(out@ + scrubbed(chars@.skip(from as int)) =~= before + scrubbed(rest));
        }
        i += 1;
    }
    let ghost rest = chars@.skip(from as int);
    let ghost before = out@;
    let word = slice_text(&chars, from, i);
    proof {
        assert forall|j: int| 0 <= j < rest.len() implies !is_break(#[trigger] rest[j]) by {
            assert(rest[j] == chars@[from + j]);
        }
        lemma_word_len(rest, rest.len() as int);
        assert(rest =~= word@);
        scrubbed_messages_hold_no_credential(message@);
    }
    let shown = without_credential(word);
    out.append(shown.as_str());
    assert(out@ =~= before + scrubbed(rest));
    out
}

// ---------------------------------------------------------------------------
// Requests
// ---------------------------------------------------------------------------

#[derive(Debug, Clone)]
pub struct Session {
    pub name: String,
    pub token: String,
}

/// Names and values, as they travel in a query string or a form.
pub open spec fn params_view(v: Seq<(String, String)>) -> Seq<(Seq<char>, Seq<char>)> {
    v.map_values(|p: (String, String)| (p.0@, p.1@))
}

/// One name and value.
pub fn param(name: &str, value: &str) -> (r: (String, String))
    ensures
        (r.0@, r.1@) == (name@, value@),
{
    (String::from_str(name), String::from_str(value))
}

/// The API root without trailing slashes.
pub fn base_url(configured: &str) -> (r: String)
    ensures
        r@ == stripped_end(configured@, '/'),
{
    strip_end(configured, '/')
}

/// Where a path leads: absolute URLs stand for themselves, everything else is
/// under the base.
pub open spec fn full_url(base: Seq<char>, path: Seq<char>) -> Seq<char> {
    if has_prefix(path, "http://"@) || has_prefix(path, "https://"@) {
        path
    } else if has_prefix(path, seq!['/']) {
        base + path
    } else {
        base + seq!['/'] + path
    }
}

pub fn url(base: &str, path: &str) -> (r: String)
    ensures
        r@ == full_url(base@, path@),
{
    proof {
        reveal_strlit("/");
        assert("/"@ =~= seq!['/']);
    }
    if starts_with(path, "http://") || starts_with(path, "https://") {
        String::from_str(path)
    } else if starts_with(path, "/") {
        String::from_str(base).concat(path)
    } else {
        String::from_str(base).concat("/").concat(path)
    }
}

/// The query parameters that carry a session.
pub open spec fn session_params(session: Option<Session>) -> Seq<(Seq<char>, Seq<char>)> {
    match session {
        Some(s) => seq![("name"@, s.name@), ("token"@, s.token@)],
        None => Seq::empty(),
    }
}

pub fn auth_params(session: &Option<Session>) -> (r: Vec<(String, String)>)
    ensures
        params_view(r@) == session_params(*session),
{
    let mut out: Vec<(String, String)> = Vec::new();
    if let Some(s) = session {
        out.push(param("name", s.name.as_str()));
        out.push(param("token", s.token.as_str()));
    }
    assert(params_view(out@) =~= session_params(*session));
    out
}

/// The query of a request that carries a session.
pub open spec fn full_query(
    session: Option<Session>,
    params: Seq<(Seq<char>, Seq<char>)>,
) -> Seq<(Seq<char>, Seq<char>)> {
    session_params(session) + params
}

/// The query of a request: the session first, then the request's own
/// parameters.
pub fn query(session: &Option<Session>, params: &Vec<(String, String)>) -> (r: Vec<
    (String, String),
>)
    ensures
        params_view(r@) == session_params(*session) + params_view(params@),
        params_view(r@) == full_query(*session, params_view(params@)),
{
    let mut out = auth_params(session);
    let ghost start = params_view(out@);
    let mut i: usize = 0;
    while i < params.len()
        invariant
            i <= params@.len(),
            params_view(out@) == start + params_view(params@).take(i as int),
        decreases params@.len() - i,
    {
        let ghost before = out@;
        let p = param(params[i].0.as_str(), params[i].1.as_str());
        out.push(p);
        assert(params_view(out@) =~= params_view(before).push((p.0@, p.1@)));
        assert(params_view(out@) =~= start + params_view(params@).take(i + 1));
        i += 1;
    }
    assert(params_view(params@).take(i as int) =~= params_view(params@));
    out
}

// ---------------------------------------------------------------------------
// Failures
// ---------------------------------------------------------------------------

/// An error the server reported in the envelope, as opposed to a transport
/// failure. `code` is what distinguishes e.g. a 2FA challenge.
#[derive(Debug, Clone)]
pub struct ApiError {
    pub code: String,
    pub message: String,
}

impl ApiError {
    pub open spec fn view(&self) -> (Seq<char>, Seq<char>) {
        (self.code@, self.message@)
    }

    /// The error as it is shown.
    pub fn text(&self) -> (r: String)
        ensures
            r@ == self.message@ + " ("@ + self.code@ + ")"@,
    {
        self.message.clone().concat(" (").concat(self.code.as_str()).concat(")")
    }
}

/// Why a request came to nothing.
#[derive(Debug, Clone)]
pub enum Failure {
    /// The server said no.
    Api(ApiError),
    /// The server answered with an HTTP error.
    Http { status: u16, url: String, excerpt: String },
    /// The server's answer is not JSON.
    InvalidJson { url: String, detail: String },
    /// No answer arrived.
    Transport { url: String, cause: String },
    /// A file could not be downloaded.
    Download { url: String, cause: String },
    /// Anything else.
    Other(String),
}

/// How a failure is shown.
pub open spec fn failure_text(f: Failure) -> Seq<char> {
    match f {
        Failure::Api(e) => e.message@ + " ("@ + e.code@ + ")"@,
        Failure::Http { status, url, excerpt } => "HTTP "@ + decimal(status as nat) + " from "@
            + url@ + " - "@ + excerpt@,
        Failure::InvalidJson { url, detail } => "invalid JSON from "@ + url@ + ": "@ + detail@,
        Failure::Transport { url, cause } => "requesting "@ + url@ + ": "@ + cause@,
        Failure::Download { url, cause } => "downloading "@ + url@ + ": "@ + cause@,
        Failure::Other(text) => text@,
    }
}

impl Failure {
    pub fn text(&self) -> (r: String)
        ensures
            r@ == failure_text(*self),
    {
        match self {
            Failure::Api(e) => e.text(),
            Failure::Http { status, url, excerpt } => String::from_str("HTTP ").concat(
                nat_text(*status as u128).as_str(),
            ).concat(" from ").concat(url.as_str()).concat(" - ").concat(excerpt.as_str()),
            Failure::InvalidJson { url, detail } => String::from_str("invalid JSON from ").concat(
                url.as_str(),
            ).concat(": ").concat(detail.as_str()),
            Failure::Transport { url, cause } => String::from_str("requesting ").concat(
                url.as_str(),
            ).concat(": ").concat(cause.as_str()),
            Failure::Download { url, cause } => String::from_str("downloading ").concat(
                url.as_str(),
            ).concat(": ").concat(cause.as_str()),
            Failure::Other(text) => text.clone(),
        }
    }

    /// The server's error code, if this failure came from the envelope.
    pub fn api_code(&self) -> (r: Option<String>)
        ensures
            match r {
                Some(code) => self matches Failure::Api(e) && code@ == e.code@,
                None => !(self is Api),
            },
    {
        match self {
            Failure::Api(e) => Some(e.code.clone()),
            _ => None,
        }
    }
}

// ---------------------------------------------------------------------------
// The envelope
// ---------------------------------------------------------------------------

/// The code and message of a response that reports a failure, before defaults.
pub open spec fn reported_error(v: JsonV) -> (Seq<char>, Seq<char>) {
    match field(v, "error"@) {
        Some(e) => match e {
            JsonV::Object(_) => (str_field(e, "code"@), str_field(e, "message"@)),
            _ => (Seq::empty(), written(e)),
        },
        None => (Seq::empty(), "request failed"@),
    }
}

/// What a response delivers: its `data` on success, the reported error
/// otherwise.
pub open spec fn envelope(v: JsonV, path: Seq<char>) -> Result<JsonV, (Seq<char>, Seq<char>)> {
    if truth(field(v, "success"@)) {
        Ok(
            match field(v, "data"@) {
                Some(data) => data,
                None => JsonV::Object(Map::empty()),
            },
        )
    } else {
        let (code, message) = reported_error(v);
        Err(
            (
                if code.len() == 0 {
                    "api_error"@
                } else {
                    code
                },
                if message.len() == 0 {
                    "request to "@ + redacted(path) + " failed"@
                } else {
                    message
                },
            ),
        )
    }
}

/// Pull `data` out of the envelope, turning a reported failure into [`ApiError`].
pub fn unwrap_envelope(value: &Json, path: &str) -> (r: Result<Json, ApiError>)
    ensures
        match r {
            Ok(data) => envelope(value@, path@) == Ok::<JsonV, (Seq<char>, Seq<char>)>(data@),
            Err(e) => envelope(value@, path@) == Err::<JsonV, (Seq<char>, Seq<char>)>(e@),
        },
{
    let success = value.get("success");
    assert(opt_view(success) == field(value@, "success"@));
    if truthy(success) {
        return Ok(
            match value.get("data") {
                Some(data) => data.copy(),
                None => Json::Object(JsonObject::new()),
            },
        );
    }
    let (code, message) = match value.get("error") {
        Some(e) => match e {
            Json::Object(_) => (str_of(e, "code"), str_of(e, "message")),
            _ => (String::new(), e.encode()),
        },
        None => (String::new(), String::from_str("request failed")),
    };
    let code = if code.as_str().is_empty() {
        String::from_str("api_error")
    } else {
        code
    };
    let message = if message.as_str().is_empty() {
        String::from_str("request to ").concat(redact(path).as_str()).concat(" failed")
    } else {
        message
    };
    Err(ApiError { code, message })
}

// ---------------------------------------------------------------------------
// Retries
// ---------------------------------------------------------------------------

/// What came of sending a request.
#[derive(Debug)]
pub enum Reply {
    Answered { status: u16, body: String },
    Broken { cause: String },
}

/// What to do next with a request.
#[derive(Debug)]
pub enum Step {
    Deliver(Json),
    Fail(Failure),
    /// Wait and send it again.
    Again,
}

pub open spec fn is_success(status: u16) -> bool {
    200 <= status < 300
}

/// 429/5xx are worth another go; 4xx are not.
pub open spec fn is_retryable(status: u16) -> bool {
    status == 429 || 500 <= status < 600
}

fn retryable(status: u16) -> (r: bool)
    ensures
        r == is_retryable(status),
{
    status == 429 || (500 <= status && status < 600)
}

/// Whether `step` is what a reply means for a request that was sent to `url` and has
/// been repeated as often as `before` says, and `after` is the count then.
pub open spec fn answers(
    before: Retry,
    url: Seq<char>,
    reply: Reply,
    after: Retry,
    step: Step,
) -> bool {
    let left = before.attempt < before.max_retries;
    &&& after.max_retries == before.max_retries
    &&& after.attempt == before.attempt + (if step is Again {
        1int
    } else {
        0
    })
    &&& match reply {
        Reply::Answered { status, body } => if is_success(status) {
            match json_parsed(body@) {
                Some(v) => step matches Step::Deliver(data) && data@ == v,
                None => step matches Step::Fail(Failure::InvalidJson { url: u, detail }) && u@
                    == redacted(url) && detail@ == json_complaint(body@),
            }
        } else if is_retryable(status) && left {
            step is Again
        } else {
            step matches Step::Fail(Failure::Http { status: s, url: u, excerpt }) && s == status
                && u@ == redacted(url) && excerpt@ == first_chars(body@, 200)
        },
        Reply::Broken { cause } => if left {
            step is Again
        } else {
            step matches Step::Fail(Failure::Transport { url: u, cause: c }) && u@ == redacted(url)
                && c@ == scrubbed(cause@)
        },
    }
}

/// Whether `r` is what a setback means for a download from `url`; nothing is to try
/// again.
pub open spec fn weighs(
    before: Retry,
    url: Seq<char>,
    setback: Setback,
    after: Retry,
    r: Option<Failure>,
) -> bool {
    &&& after.max_retries == before.max_retries
    &&& r is None <==> is_passing(setback) && before.attempt < before.max_retries
    &&& after.attempt == before.attempt + (if r is None {
        1int
    } else {
        0
    })
    &&& r matches Some(f) ==> (f matches Failure::Download { url: u, cause: c } && u@ == redacted(
        url,
    ) && c@ == scrubbed(setback_text(setback)))
}

/// How often a request has been repeated.
#[derive(Debug, Clone, Copy)]
pub struct Retry {
    pub attempt: u32,
    pub max_retries: u32,
}

impl Retry {
    pub fn new(max_retries: u32) -> (r: Retry)
        ensures
            r == (Retry { attempt: 0, max_retries }),
    {
        Retry { attempt: 0, max_retries }
    }

    /// Count one more repetition, if there are any left.
    pub fn again(&mut self) -> (r: bool)
        ensures
            r == (old(self).attempt < old(self).max_retries),
            final(self).max_retries == old(self).max_retries,
            final(self).attempt == if r {
                old(self).attempt + 1
            } else {
                old(self).attempt as int
            },
    {
        if self.attempt >= self.max_retries {
            return false;
        }
        self.attempt = self.attempt + 1;
        true
    }

    /// Decide what a reply means for the request that was sent to `url`. Only
    /// repeating the request changes the count.
    pub fn on_reply(&mut self, url: &str, reply: &Reply) -> (r: Step)
        ensures
            r is Again ==> old(self).attempt < old(self).max_retries && *final(self) == (Retry {
                attempt: (old(self).attempt + 1) as u32,
                max_retries: old(self).max_retries,
            }),
            !(r is Again) ==> *final(self) == *old(self),
            match *reply {
                Reply::Answered { status, body } => if is_success(status) {
                    match json_parsed(body@) {
                        Some(v) => r matches Step::Deliver(data) && data@ == v,
                        None => r matches Step::Fail(Failure::InvalidJson { url: u, detail })
                            && u@ == redacted(url@) && detail@ == json_complaint(body@),
                    }
                } else if is_retryable(status) && old(self).attempt < old(self).max_retries {
                    r is Again
                } else {
                    r matches Step::Fail(Failure::Http { status: s, url: u, excerpt }) && s == status
                        && u@ == redacted(url@) && excerpt@ == first_chars(body@, 200)
                },
                Reply::Broken { cause } => if old(self).attempt < old(self).max_retries {
                    r is Again
                } else {
                    r matches Step::Fail(Failure::Transport { url: u, cause: c }) && u@ == redacted(
                        url@,
                    ) && c@ == scrubbed(cause@) && holds_no_credential(c@)
                },
            },
            answers(*old(self), url@, *reply, *final(self), r),
    {
        match reply {
            Reply::Answered { status, body } => {
                let status: u16 = *status;
                if 200 <= status && status < 300 {
                    match Json::parse(body.as_str()) {
                        Ok(data) => Step::Deliver(data),
                        Err(e) => Step::Fail(
                            Failure::InvalidJson { url: redact(url), detail: e.detail },
                        ),
                    }
                } else if retryable(status) && self.again() {
                    Step::Again
                } else {
                    Step::Fail(
                        Failure::Http {
                            status,
                            url: redact(url),
                            excerpt: take_chars(body.as_str(), 200),
                        },
                    )
                }
            },
            Reply::Broken { cause } => if self.again() {
                Step::Again
            } else {
                Step::Fail(Failure::Transport { url: redact(url), cause: scrub(cause.as_str()) })
            },
        }
    }

    /// Decide what a failed download means; `None` is to wait and try again.
    /// What the server or the limit refuses stays refused.
    pub fn on_download_error(&mut self, url: &str, setback: &Setback) -> (r: Option<Failure>)
        ensures
            final(self).max_retries == old(self).max_retries,
            r is None <==> is_passing(*setback) && old(self).attempt < old(self).max_retries,
            match r {
                None => final(self).attempt == old(self).attempt + 1,
                Some(f) => final(self).attempt == old(self).attempt && (
                f matches Failure::Download { url: u, cause: c } && u@ == redacted(url@) && c@
                    == scrubbed(setback_text(*setback)) && holds_no_credential(c@)),
            },
            weighs(*old(self), url@, *setback, *final(self), r),
    {
        let passing = match setback {
            Setback::Refused(DownloadError::Http { status }) => retryable(*status),
            Setback::Refused(_) => false,
            Setback::Network(_) => true,
            Setback::Local(_) => false,
        };
        if passing && self.again() {
            None
        } else {
            Some(Failure::Download { url: redact(url), cause: scrub(setback.text().as_str()) })
        }
    }
}

/// What kept a download from completing.
#[derive(Debug, Clone)]
pub enum Setback {
    /// The response was not taken.
    Refused(DownloadError),
    /// The connection failed.
    Network(String),
    /// The file could not be written.
    Local(String),
}

/// How a setback is described.
pub open spec fn setback_text(s: Setback) -> Seq<char> {
    match s {
        Setback::Refused(e) => download_error_text(e),
        Setback::Network(cause) => cause@,
        Setback::Local(cause) => cause@,
    }
}

/// Whether a setback may pass: 429s, 5xx and network errors.
pub open spec fn is_passing(s: Setback) -> bool {
    match s {
        Setback::Refused(DownloadError::Http { status }) => is_retryable(status),
        Setback::Refused(_) => false,
        Setback::Network(_) => true,
        Setback::Local(_) => false,
    }
}

impl Setback {
    pub fn text(&self) -> (r: String)
        ensures
            r@ == setback_text(*self),
    {
        match self {
            Setback::Refused(e) => e.text(),
            Setback::Network(cause) => cause.clone(),
            Setback::Local(cause) => cause.clone(),
        }
    }
}

/// `n` doubled `times` times.
pub open spec fn doubled(n: int, times: int) -> int
    decreases times,
{
    if times <= 0 {
        n
    } else {
        2 * doubled(n, times - 1)
    }
}

/// How often the base delay is doubled before the given attempt.
pub open spec fn backoff_doublings(attempt: u32) -> int {
    if attempt == 0 {
        0
    } else if attempt >= 16 {
        15
    } else {
        attempt - 1
    }
}

/// The delay before a repetition, in milliseconds: doubled from attempt to
/// attempt, capped, and never nothing.
pub open spec fn backoff(base: u64, max: u64, attempt: u32) -> int {
    let grown = doubled(base as int, backoff_doublings(attempt));
    let capped = if grown < max {
        grown
    } else {
        max as int
    };
    if capped < 1 {
        1
    } else {
        capped
    }
}

/// Exponential backoff, before jitter.
pub fn backoff_ms(base: u64, max: u64, attempt: u32) -> (r: u64)
    ensures
        r == backoff(base, max, attempt),
{
    let times: u32 = if attempt == 0 {
        0
    } else if attempt >= 16 {
        15
    } else {
        attempt - 1
    };
    let mut grown: u128 = base as u128;
    let mut i: u32 = 0;
    proof {
        reveal_with_fuel(doubled, 16);
        assert(doubled(base as int, 15) == 32768 * base);
    }
    while i < times
        invariant
            i <= times <= 15,
            grown == doubled(base as int, i as int),
            doubled(base as int, 15) == 32768 * base,
        decreases times - i,
    {
        proof {
            lemma_doubled_grows(base as int, i + 1, 15);
        }
        grown = grown * 2;
        i += 1;
    }
    let capped: u64 = if grown < max as u128 {
        grown as u64
    } else {
        max
    };
    if capped < 1 {
        1
    } else {
        capped
    }
}

proof fn lemma_doubled_grows(n: int, a: int, b: int)
    requires
        0 <= n,
        0 <= a <= b,
    ensures
        n <= doubled(n, a) <= doubled(n, b),
    decreases b,
{
    if b > 0 {
        if a < b {
            lemma_doubled_grows(n, a, b - 1);
        } else {
            lemma_doubled_grows(n, a - 1, b - 1);
        }
    }
}

/// Delays grow from attempt to attempt, up to the ceiling.
pub proof fn delays_grow_up_to_the_ceiling(base: u64, max: u64, a: u32, b: u32)
    requires
        a <= b,
    ensures
        1 <= backoff(base, max, a) <= backoff(base, max, b),
        max >= 1 ==> backoff(base, max, b) <= max,
{
    lemma_doubled_grows(base as int, backoff_doublings(a), backoff_doublings(b));
}

/// The longest delay, in milliseconds: as configured, but never nothing.
pub open spec fn ceiling(max: u64) -> int {
    if max < 1 {
        1
    } else {
        max as int
    }
}

/// What is waited, given the delay after jitter: never more than the ceiling,
/// whatever the jitter came to.
pub fn delay_ms(jittered: u64, max: u64) -> (r: u64)
    ensures
        r == (if jittered < ceiling(max) {
            jittered as int
        } else {
            ceiling(max)
        }),
        max >= 1 ==> r <= max,
{
    let ceiling: u64 = if max < 1 {
        1
    } else {
        max
    };
    if jittered < ceiling {
        jittered
    } else {
        ceiling
    }
}

// ---------------------------------------------------------------------------
// Pacing
// ---------------------------------------------------------------------------

/// A shared token bucket that paces every request the process makes, no matter
/// which worker issues it. Times are nanoseconds since a common origin.
#[derive(Debug, Clone, Copy)]
pub struct RateLimiter {
    /// Time between two requests; `None` is no limit.
    pub interval: Option<u64>,
    /// The earliest time the next request may start.
    pub next_slot: u64,
}

/// When a request that is ready at `now` may start.
pub open spec fn start_time(next_slot: int, now: int) -> int {
    if next_slot > now {
        next_slot
    } else {
        now
    }
}

/// Whether a request that is ready at `now` waits for its slot and leaves the next
/// one to the next request.
pub open spec fn reserves(before: RateLimiter, now: u64, wait: u64, after: RateLimiter) -> bool {
    &&& after.interval == before.interval
    &&& match before.interval {
        None => wait == 0 && after.next_slot == before.next_slot,
        Some(interval) => wait == start_time(before.next_slot as int, now as int) - now
            && after.next_slot == start_time(before.next_slot as int, now as int) + interval,
    }
}

impl RateLimiter {
    pub fn new(interval: Option<u64>, now: u64) -> (r: RateLimiter)
        ensures
            r == (RateLimiter { interval, next_slot: now }),
    {
        RateLimiter { interval, next_slot: now }
    }

    /// Reserve the next slot for a request that is ready at `now`; returns how
    /// long it has to wait.
    pub fn acquire(&mut self, now: u64) -> (wait: u64)
        requires
            old(self).interval matches Some(interval) ==> start_time(
                old(self).next_slot as int,
                now as int,
            ) + interval <= u64::MAX,
        ensures
            final(self).interval == old(self).interval,
            match old(self).interval {
                None => wait == 0 && final(self).next_slot == old(self).next_slot,
                Some(interval) => {
                    let start = start_time(old(self).next_slot as int, now as int);
                    wait == start - now && final(self).next_slot == start + interval
                },
            },
            reserves(*old(self), now, wait, *final(self)),
    {
        match self.interval {
            None => 0,
            Some(interval) => {
                let start: u64 = if self.next_slot > now {
                    self.next_slot
                } else {
                    now
                };
                self.next_slot = start + interval;
                start - now
            },
        }
    }
}

/// When each of the requests that become ready at the given times may start.
pub open spec fn start_times(next_slot: int, interval: int, ready: Seq<int>) -> Seq<int>
    decreases ready.len(),
{
    if ready.len() == 0 {
        Seq::empty()
    } else {
        let start = start_time(next_slot, ready[0]);
        seq![start] + start_times(start + interval, interval, ready.skip(1))
    }
}

/// However many workers ask, and whenever they ask, requests start at least an
/// interval apart: between the first and the last of `n` requests there are at
/// least `n - 1` intervals.
pub proof fn requests_never_exceed_the_rate(
    next_slot: int,
    interval: int,
    ready: Seq<int>,
    i: int,
    j: int,
)
    requires
        0 <= interval,
        0 <= i <= j < ready.len(),
    ensures
        start_times(next_slot, interval, ready).len() == ready.len(),
        start_times(next_slot, interval, ready)[j] >= start_times(next_slot, interval, ready)[i] + (
        j - i) * interval,
        start_times(next_slot, interval, ready)[j] >= ready[j],
{
    lemma_start_times(next_slot, interval, ready);
    lemma_paced(next_slot, interval, ready, i, j);
}

proof fn lemma_start_times(next_slot: int, interval: int, ready: Seq<int>)
    ensures
        start_times(next_slot, interval, ready).len() == ready.len(),
        forall|k: int|
            0 <= k < ready.len() ==> #[trigger] start_times(next_slot, interval, ready)[k]
                >= ready[k],
    decreases ready.len(),
{
    if ready.len() > 0 {
        let start = start_time(next_slot, ready[0]);
        let rest = start_times(start + interval, interval, ready.skip(1));
        lemma_start_times(start + interval, interval, ready.skip(1));
        assert forall|k: int| 0 <= k < ready.len() implies #[trigger] start_times(
            next_slot,
            interval,
            ready,
        )[k] >= ready[k] by {
            if k > 0 {
                assert(rest[k - 1] >= ready.skip(1)[k - 1]);
            }
        }
    }
}

proof fn lemma_paced(next_slot: int, interval: int, ready: Seq<int>, i: int, j: int)
    requires
        0 <= interval,
        0 <= i <= j < ready.len(),
    ensures
        start_times(next_slot, interval, ready)[j] >= start_times(next_slot, interval, ready)[i] + (
        j - i) * interval,
        start_times(next_slot, interval, ready)[j] >= next_slot + j * interval,
    decreases ready.len(),
{
    let start = start_time(next_slot, ready[0]);
    let rest = start_times(start + interval, interval, ready.skip(1));
    lemma_start_times(next_slot, interval, ready);
    lemma_start_times(start + interval, interval, ready.skip(1));
    if j > 0 {
        if i > 0 {
            lemma_paced(start + interval, interval, ready.skip(1), i - 1, j - 1);
        } else {
            lemma_paced(start + interval, interval, ready.skip(1), j - 1, j - 1);
        }
        assert(rest[j - 1] >= start + interval + (j - 1) * interval);
        assert(interval + (j - 1) * interval == j * interval) by (nonlinear_arith);
    } else {
        assert(0 * interval == 0);
    }
}

// ---------------------------------------------------------------------------
// Downloads
// ---------------------------------------------------------------------------

/// Why a download was given up.
#[derive(Debug, Clone, Copy, PartialEq, Eq, Structural)]
pub enum DownloadError {
    Http { status: u16 },
    /// The announced length is over the limit.
    Announced { bytes: u64 },
    /// The limit was passed on the way.
    Exceeded,
}

/// How a failed download is shown.
pub open spec fn download_error_text(e: DownloadError) -> Seq<char> {
    match e {
        DownloadError::Http { status } => "HTTP "@ + decimal(status as nat),
        DownloadError::Announced { bytes } => "file is "@ + decimal(bytes as nat)
            + " bytes, over the configured size limit"@,
        DownloadError::Exceeded => "exceeded the configured size limit mid-download"@,
    }
}

impl DownloadError {
    pub fn text(&self) -> (r: String)
        ensures
            r@ == download_error_text(*self),
    {
        match self {
            DownloadError::Http { status } => String::from_str("HTTP ").concat(
                nat_text(*status as u128).as_str(),
            ),
            DownloadError::Announced { bytes } => String::from_str("file is ").concat(
                nat_text(*bytes as u128).as_str(),
            ).concat(" bytes, over the configured size limit"),
            DownloadError::Exceeded => String::from_str(
                "exceeded the configured size limit mid-download",
            ),
        }
    }
}

/// A file on its way: how much has arrived, and its digest so far. `limit` is
/// enforced *while* streaming (0 disables it), so an unexpectedly huge file
/// cannot fill the disk.
pub struct Download {
    limit: u64,
    total: u64,
    hasher: Hasher,
}

/// Whether `bytes` is more than `limit` allows.
pub open spec fn over_limit(limit: u64, bytes: int) -> bool {
    limit > 0 && bytes > limit
}

/// Whether a response may be downloaded.
pub open spec fn may_begin(status: u16, announced: Option<u64>, limit: u64) -> bool {
    is_success(status) && !(announced matches Some(n) && over_limit(limit, n as int))
}

/// Whether a chunk that arrives after `before` is taken in or refused, and what has
/// arrived then.
pub open spec fn takes_in(
    limit: u64,
    before: Seq<u8>,
    data: Seq<u8>,
    taken: bool,
    after: Seq<u8>,
) -> bool {
    &&& taken <==> !over_limit(limit, (before.len() + data.len()) as int)
    &&& after == (if taken {
        before + data
    } else {
        before
    })
}

/// What is reported of a file that has arrived.
pub open spec fn reports_file(received: Seq<u8>, r: (u64, Seq<char>)) -> bool {
    r.0 == received.len() && r.1 == hex_text(sha256(received))
}

impl Download {
    /// The bytes that have arrived.
    pub closed spec fn received(&self) -> Seq<u8> {
        absorbed(self.hasher)
    }

    pub closed spec fn limit(&self) -> u64 {
        self.limit
    }

    /// Nothing over the limit has been let through.
    pub open spec fn within_limit(&self) -> bool {
        !over_limit(self.limit(), self.received().len() as int)
    }

    /// The count is that of the bytes that have arrived.
    pub closed spec fn wf(&self) -> bool {
        self.total == absorbed(self.hasher).len()
    }

    /// Look at the head of a response and decide whether to download it.
    pub fn begin(status: u16, announced: Option<u64>, limit: u64) -> (r: Result<
        Download,
        DownloadError,
    >)
        ensures
            match r {
                Ok(d) => is_success(status) && !(announced matches Some(n) && over_limit(
                    limit,
                    n as int,
                )) && d.wf() && d.limit() == limit && d.received() == Seq::<u8>::empty()
                    && d.within_limit(),
                Err(DownloadError::Http { status: s }) => !is_success(status) && s == status,
                Err(DownloadError::Announced { bytes }) => is_success(status) && announced == Some(
                    bytes,
                ) && over_limit(limit, bytes as int),
                Err(DownloadError::Exceeded) => false,
            },
            r is Ok <==> may_begin(status, announced, limit),
    {
        if !(200 <= status && status < 300) {
            return Err(DownloadError::Http { status });
        }
        if let Some(bytes) = announced {
            if limit > 0 && bytes > limit {
                return Err(DownloadError::Announced { bytes });
            }
        }
        Ok(Download { limit, total: 0, hasher: Hasher::new() })
    }

    /// Take in a chunk, unless that would exceed the limit.
    pub fn chunk(&mut self, data: &[u8]) -> (r: Result<(), DownloadError>)
        requires
            old(self).wf(),
            old(self).received().len() + data@.len() <= u64::MAX,
        ensures
            final(self).limit() == old(self).limit(),
            match r {
                Ok(()) => !over_limit(
                    old(self).limit(),
                    (old(self).received().len() + data@.len()) as int,
                ) && final(self).wf() && final(self).within_limit() && final(self).received() == old(
                    self,
                ).received() + data@,
                Err(e) => over_limit(
                    old(self).limit(),
                    (old(self).received().len() + data@.len()) as int,
                ) && e == DownloadError::Exceeded && final(self).received() == old(
                    self,
                ).received(),
            },
            takes_in(
                old(self).limit(),
                old(self).received(),
                data@,
                r is Ok,
                final(self).received(),
            ),
    {
        self.total = self.total + data.len() as u64;
        if self.limit > 0 && self.total > self.limit {
            return Err(DownloadError::Exceeded);
        }
        self.hasher.update(data);
        Ok(())
    }

    /// The size and the digest of the file.
    pub fn finish(self) -> (r: (u64, String))
        requires
            self.wf(),
        ensures
            r.0 == self.received().len(),
            r.1@ == hex_text(sha256(self.received())),
            reports_file(self.received(), (r.0, r.1@)),
    {
        let digest = self.hasher.finish();
        (self.total, hex(&digest))
    }
}

// ---------------------------------------------------------------------------
// What holds of requests
// ---------------------------------------------------------------------------

proof fn lemma_lowered_name(name: Seq<char>, value: Seq<char>, key: Seq<char>)
    requires
        !name.contains('='),
        !key.contains('='),
    ensures
        has_prefix(ascii_lowered(name + seq!['='] + value), key + seq!['=']) <==> ascii_lowered(
            name,
        ) == key,
{
    let (x, y) = (ascii_lowered(name), ascii_lowered(value));
    let s = ascii_lowered(name + seq!['='] + value);
    assert(s =~= x + seq!['='] + y);
    let p = key + seq!['='];
    let (n, k) = (x.len() as int, key.len() as int);
    assert forall|i: int| 0 <= i < n implies #[trigger] x[i] != '=' by {
        assert(name.contains(name[i]));
        assert(x[i] == lower_char(name[i]));
    }
    assert forall|i: int| 0 <= i < k implies #[trigger] key[i] != '=' by {
        assert(key.contains(key[i]));
    }
    assert(s[n] == '=');
    if has_prefix(s, p) {
        let head = s.take(p.len() as int);
        assert(head[k] == '=');
        assert(s[k] == '=');
        if k < n {
            assert(s[k] == x[k]);
        }
        if n < k {
            assert(head[n] == p[n]);
            assert(p[n] == key[n]);
        }
        assert forall|i: int| 0 <= i < n implies #[trigger] x[i] == key[i] by {
            assert(head[i] == p[i]);
        }
        assert(x =~= key);
    }
    if x == key {
        assert(s.take(p.len() as int) =~= p);
    }
}

proof fn lemma_secret_names()
    ensures
        "token="@ == "token"@ + seq!['='],
        "password="@ == "password"@ + seq!['='],
        "autotoken="@ == "autotoken"@ + seq!['='],
        "name="@ == "name"@ + seq!['='],
        !"token"@.contains('='),
        !"password"@.contains('='),
        !"autotoken"@.contains('='),
        !"name"@.contains('='),
{
    reveal_strlit("token=");
    reveal_strlit("password=");
    reveal_strlit("autotoken=");
    reveal_strlit("name=");
    reveal_strlit("token");
    reveal_strlit("password");
    reveal_strlit("autotoken");
    reveal_strlit("name");
    assert("token="@ =~= "token"@ + seq!['=']);
    assert("password="@ =~= "password"@ + seq!['=']);
    assert("autotoken="@ =~= "autotoken"@ + seq!['=']);
    assert("name="@ =~= "name"@ + seq!['=']);
}

/// A parameter is redacted exactly if it is called `token`, `password`, `autotoken`
/// or `name`, in any case; its name stays and its value goes. Everything else stays
/// as it is.
pub proof fn credentials_are_redacted_by_name(name: Seq<char>, value: Seq<char>)
    requires
        !name.contains('='),
    ensures
        ({
            let part = name + seq!['='] + value;
            let lowered = ascii_lowered(name);
            redacted_part(part) == (if lowered == "token"@ || lowered == "password"@ || lowered
                == "autotoken"@ || lowered == "name"@ {
                name + "=[REDACTED]"@
            } else {
                part
            })
        }),
        redacted_part(name) == name,
{
    lemma_secret_names();
    lemma_lowered_name(name, value, "token"@);
    lemma_lowered_name(name, value, "password"@);
    lemma_lowered_name(name, value, "autotoken"@);
    lemma_lowered_name(name, value, "name"@);
    splitting_undoes_joining(name, value, '=', '=', '=');
    let part = name + seq!['='] + value;
    assert(pieces(part, '=', '=')[0] == name);
    assert(!is_secret(name)) by {
        let lowered = ascii_lowered(name);
        assert forall|i: int| 0 <= i < lowered.len() implies #[trigger] lowered[i] != '=' by {
            assert(name.contains(name[i]));
        }
        lemma_no_prefix(lowered, "token"@);
        lemma_no_prefix(lowered, "password"@);
        lemma_no_prefix(lowered, "autotoken"@);
        lemma_no_prefix(lowered, "name"@);
    }
}

proof fn lemma_no_prefix(s: Seq<char>, key: Seq<char>)
    requires
        forall|i: int| 0 <= i < s.len() ==> #[trigger] s[i] != '=',
    ensures
        !has_prefix(s, key + seq!['=']),
{
    let p = key + seq!['='];
    if has_prefix(s, p) {
        assert(s.take(p.len() as int)[key.len() as int] == '=');
        assert(s[key.len() as int] == '=');
    }
}

/// A URL is redacted parameter by parameter: what stands before the first separator,
/// then each parameter after its separator, a `?` for the first and a `&` for the
/// others.
pub proof fn urls_are_redacted_by_parameter(url: Seq<char>, part: Seq<char>, sep: char)
    requires
        sep == '?' || sep == '&',
        !part.contains('?'),
        !part.contains('&'),
    ensures
        redacted(part) == redacted_part(part),
        !url.contains('?') && !url.contains('&') ==> redacted(url + seq![sep] + part) == redacted(
            url,
        ) + seq!['?'] + redacted_part(part),
        url.contains('?') || url.contains('&') ==> redacted(url + seq![sep] + part) == redacted(url)
            + seq!['&'] + redacted_part(part),
{
    splitting_undoes_joining(part, part, '?', '&', sep);
    splitting_undoes_joining(url, part, '?', '&', sep);
    let p = pieces(url, '?', '&');
    let all = pieces(url + seq![sep] + part, '?', '&');
    assert(all =~= p.push(part));
    assert(all.drop_last() =~= p);
    assert(all.last() == part);
    assert(seq![part].drop_last() =~= Seq::empty());
    reveal_with_fuel(joined_redacted, 2);
    assert(joined_redacted(seq![part]) =~= redacted_part(part));
    lemma_first_of_bounds(url, '?', '&');
    if url.contains('?') || url.contains('&') {
        let k = choose|k: int| 0 <= k < url.len() && (url[k] == '?' || url[k] == '&');
        assert(first_of(url, '?', '&') < url.len()) by {
            if first_of(url, '?', '&') >= url.len() {
                assert(url[k] != '?' && url[k] != '&');
            }
        }
        let rest = url.skip(first_of(url, '?', '&') + 1);
        lemma_some_piece(rest);
        assert(p.len() >= 2);
    } else {
        assert(p =~= seq![url]);
    }
}

proof fn lemma_some_piece(s: Seq<char>)
    ensures
        pieces(s, '?', '&').len() >= 1,
{
}

/// A word of a message keeps its name and loses its value exactly if its name ends
/// in `token`, `password` or `name`, in any case; a word without `=` stays.
pub proof fn credentials_are_hidden_by_name(name: Seq<char>, value: Seq<char>)
    requires
        !name.contains('='),
    ensures
        hidden(name) == name,
        hidden(name + seq!['='] + value) == (if "token"@.is_suffix_of(ascii_lowered(name))
            || "password"@.is_suffix_of(ascii_lowered(name)) || "name"@.is_suffix_of(
            ascii_lowered(name),
        ) {
            name + "=[REDACTED]"@
        } else {
            name + seq!['='] + value
        }),
{
    halves_are_cut_at_the_first(name, value, '=');
}

/// A message is scrubbed word by word, and what stands between the words stays: white
/// space, `?`, `&` and `#`.
pub proof fn messages_are_scrubbed_by_word(a: Seq<char>, c: char, b: Seq<char>)
    requires
        is_space(c) || c == '?' || c == '&' || c == '#',
    ensures
        scrubbed(a + seq![c] + b) == scrubbed(a) + seq![c] + scrubbed(b),
        (forall|i: int|
            0 <= i < a.len() ==> !is_space(#[trigger] a[i]) && a[i] != '?' && a[i] != '&' && a[i]
                != '#') ==> scrubbed(a) == hidden(a),
    decreases a.len(),
{
    let s = a + seq![c] + b;
    lemma_word_is_unbroken(a);
    let n = word_len(a) as int;
    assert forall|i: int| 0 <= i < n implies !is_break(#[trigger] s[i]) by {
        assert(s[i] == a[i]);
    }
    if n < a.len() {
        assert(s[n] == a[n]);
        lemma_word_len(s, n);
        let rest = a.skip(n + 1);
        messages_are_scrubbed_by_word(rest, c, b);
        assert(s.skip(n + 1) =~= rest + seq![c] + b);
        assert(s.take(n) =~= a.take(n));
        assert(scrubbed(s) =~= scrubbed(a) + seq![c] + scrubbed(b));
    } else {
        assert(s[n] == c);
        lemma_word_len(s, n);
        assert(s.skip(n + 1) =~= b);
        assert(s.take(n) =~= a);
        assert(scrubbed(s) =~= scrubbed(a) + seq![c] + scrubbed(b));
    }
}

/// Messages without an equals sign are not changed.
pub proof fn other_messages_are_kept(s: Seq<char>)
    requires
        !s.contains('='),
    ensures
        scrubbed(s) == s,
    decreases s.len(),
{
    lemma_word_is_unbroken(s);
    let n = word_len(s) as int;
    let word = if n < s.len() {
        s.take(n)
    } else {
        s
    };
    assert(!word.contains('=')) by {
        assert forall|i: int| 0 <= i < word.len() implies #[trigger] word[i] != '=' by {
            assert(s.contains(s[i]));
        }
    }
    halves_are_cut_at_the_first(word, word, '=');
    if n < s.len() {
        let rest = s.skip(n + 1);
        assert(!rest.contains('=')) by {
            assert forall|i: int| 0 <= i < rest.len() implies #[trigger] rest[i] != '=' by {
                assert(s.contains(s[n + 1 + i]));
            }
        }
        other_messages_are_kept(rest);
        assert(scrubbed(s) =~= s);
    }
}

/// Absolute URLs lead where they say; a path leads below the base, and it does not
/// matter whether it starts with a slash.
pub proof fn paths_lead_below_the_base(base: Seq<char>, path: Seq<char>)
    ensures
        has_prefix(path, "http://"@) || has_prefix(path, "https://"@) ==> full_url(base, path)
            == path,
        full_url(base, seq!['/'] + path) == base + seq!['/'] + path,
        !has_prefix(path, "http://"@) && !has_prefix(path, "https://"@) && !(path.len() > 0
            && path[0] == '/') ==> full_url(base, path) == base + seq!['/'] + path,
{
    reveal_strlit("http://");
    reveal_strlit("https://");
    let s = seq!['/'] + path;
    assert(s.take(1) =~= seq!['/']);
    assert("http://"@[0] == 'h' && "https://"@[0] == 'h');
    if has_prefix(s, "http://"@) {
        assert(s.take("http://"@.len() as int)[0] == 'h');
    }
    if has_prefix(s, "https://"@) {
        assert(s.take("https://"@.len() as int)[0] == 'h');
    }
    assert(base + s =~= base + seq!['/'] + path);
    if has_prefix(path, seq!['/']) {
        assert(path.take(1)[0] == '/');
    }
}

/// A request carries the name and the token of the session, each under its name,
/// before its own parameters, and nothing of the kind without a session.
pub proof fn requests_carry_the_session(session: Option<Session>)
    ensures
        session is None ==> session_params(session).len() == 0,
        session matches Some(s) ==> session_params(session).len() == 2 && session_params(
            session,
        )[0] == ("name"@, s.name@) && session_params(session)[1] == ("token"@, s.token@),
{
}

/// A failure is shown with what went wrong and where.
pub proof fn failures_are_shown_in_full(
    e: ApiError,
    status: u16,
    url: String,
    detail: String,
    text: String,
)
    ensures
        failure_text(Failure::Api(e)) == e.message@ + " ("@ + e.code@ + ")"@,
        failure_text(Failure::Http { status, url, excerpt: detail }) == "HTTP "@ + decimal(
            status as nat,
        ) + " from "@ + url@ + " - "@ + detail@,
        failure_text(Failure::InvalidJson { url, detail }) == "invalid JSON from "@ + url@ + ": "@
            + detail@,
        failure_text(Failure::Transport { url, cause: detail }) == "requesting "@ + url@ + ": "@
            + detail@,
        failure_text(Failure::Download { url, cause: detail }) == "downloading "@ + url@ + ": "@
            + detail@,
        failure_text(Failure::Other(text)) == text@,
        setback_text(Setback::Network(text)) == text@,
        setback_text(Setback::Local(text)) == text@,
        setback_text(Setback::Refused(DownloadError::Http { status })) == "HTTP "@ + decimal(
            status as nat,
        ),
{
}

/// A response that reports success delivers its `data`, an empty object if it has
/// none; every other one delivers the error it reports.
pub proof fn envelopes_deliver_data_or_error(
    v: JsonV,
    path: Seq<char>,
    data: JsonV,
    error: JsonV,
    code: Seq<char>,
    message: Seq<char>,
)
    ensures
        truth(field(v, "success"@)) && field(v, "data"@) == Some(data) ==> envelope(v, path)
            == Ok::<JsonV, (Seq<char>, Seq<char>)>(data),
        truth(field(v, "success"@)) && field(v, "data"@) is None ==> (
        envelope(v, path) matches Ok(JsonV::Object(m)) && m == Map::<Seq<char>, JsonV>::empty()),
        !truth(field(v, "success"@)) ==> envelope(v, path) is Err,
        !truth(field(v, "success"@)) && field(v, "error"@) == Some(error) && error is Object
            && gives_text(error, "code"@, code) && gives_text(error, "message"@, message) ==> (
        envelope(v, path) matches Err((c, m)) && (code.len() > 0 ==> c == code) && (code.len() == 0
            ==> c == "api_error"@) && (message.len() > 0 ==> m == message) && (message.len() == 0
            ==> m == "request to "@ + redacted(path) + " failed"@)),
        !truth(field(v, "success"@)) && field(v, "error"@) is None ==> envelope(v, path) == Err::<
            JsonV,
            (Seq<char>, Seq<char>),
        >(("api_error"@, "request failed"@)),
        !truth(field(v, "success"@)) && field(v, "error"@) == Some(error) && !(error is Object)
            && written(error).len() > 0 ==> envelope(v, path) == Err::<
            JsonV,
            (Seq<char>, Seq<char>),
        >(("api_error"@, written(error))),
{
    reveal_strlit("request failed");
    assert("request failed"@.len() == 14);
}

/// 2xx is success; 429 and 5xx are worth another go, and nothing else is. A download
/// is tried again after these and after a broken connection only.
pub proof fn only_passing_trouble_is_retried(status: u16, text: String, bytes: u64)
    ensures
        is_success(status) <==> status / 100 == 2,
        is_retryable(status) <==> status == 429 || status / 100 == 5,
        is_passing(Setback::Network(text)),
        !is_passing(Setback::Local(text)),
        is_passing(Setback::Refused(DownloadError::Http { status })) <==> status == 429 || status
            / 100 == 5,
        !is_passing(Setback::Refused(DownloadError::Announced { bytes })),
        !is_passing(Setback::Refused(DownloadError::Exceeded)),
{
}

/// The first delay is the base, within the ceiling; each further one is twice the
/// one before, within the ceiling, until the sixteenth, after which they stay the
/// same. None is ever nothing.
pub proof fn delays_double_up_to_the_ceiling(base: u64, max: u64, attempt: u32)
    requires
        max >= 1,
    ensures
        attempt <= 1 ==> backoff(base, max, attempt) == (if base < 1 {
            1
        } else if base < max {
            base as int
        } else {
            max as int
        }),
        base >= 1 && 1 <= attempt < 16 ==> backoff(base, max, (attempt + 1) as u32) == (if 2
            * backoff(base, max, attempt) < max {
            2 * backoff(base, max, attempt)
        } else {
            max as int
        }),
        attempt >= 16 ==> backoff(base, max, attempt) == backoff(base, max, 16),
{
    if base >= 1 && 1 <= attempt < 16 {
        lemma_doubled_grows(base as int, 0, backoff_doublings(attempt));
        assert(doubled(base as int, attempt as int) == 2 * doubled(base as int, attempt - 1));
    }
}

/// The ceiling is the configured one, but never nothing; a delay below it is kept.
pub proof fn the_ceiling_is_the_configured_one(max: u64)
    ensures
        max >= 1 ==> ceiling(max) == max,
        ceiling(0) == 1,
{
}

/// A request never starts before it is ready nor before its slot, and it does not
/// wait without need.
pub proof fn requests_wait_only_for_their_slot(next_slot: int, now: int)
    ensures
        start_time(next_slot, now) >= now,
        start_time(next_slot, now) >= next_slot,
        start_time(next_slot, now) == now || start_time(next_slot, now) == next_slot,
{
}

/// A limit allows as many bytes as it says; 0 is no limit.
pub proof fn limits_allow_what_they_say(limit: u64, bytes: int)
    ensures
        limit == 0 ==> !over_limit(limit, bytes),
        limit > 0 ==> (over_limit(limit, bytes) <==> bytes >= limit + 1),
{
}

/// A failed download is explained: the status, the size that was announced, or that
/// the limit was passed on the way.
pub proof fn failed_downloads_are_explained(status: u16, bytes: u64)
    ensures
        download_error_text(DownloadError::Http { status }) == "HTTP "@ + decimal(status as nat),
        download_error_text(DownloadError::Announced { bytes }) == "file is "@ + decimal(
            bytes as nat,
        ) + " bytes, over the configured size limit"@,
        download_error_text(DownloadError::Exceeded)
            == "exceeded the configured size limit mid-download"@,
{
}

/// The query of a request is the session and then the request's own parameters, all
/// of them, in order.
pub proof fn queries_keep_their_parameters(
    session: Option<Session>,
    params: Seq<(Seq<char>, Seq<char>)>,
    i: int,
)
    ensures
        session is None ==> full_query(session, params) == params,
        session matches Some(s) ==> full_query(session, params).len() == params.len() + 2
            && full_query(session, params)[0] == ("name"@, s.name@) && full_query(session, params)[1]
            == ("token"@, s.token@),
        session is Some && 0 <= i < params.len() ==> full_query(session, params)[i + 2]
            == params[i],
{
    if session is None {
        assert(full_query(session, params) =~= params);
    }
}

/// A request is delivered exactly if it was answered with success and JSON, and then
/// as what the JSON says. It is sent again exactly if it was not answered, or with 429
/// or 5xx, and a repetition is left; each repetition is counted and nothing else is. It
/// fails in every other case.
pub proof fn replies_deliver_repeat_or_fail(
    before: Retry,
    url: Seq<char>,
    reply: Reply,
    after: Retry,
    step: Step,
)
    requires
        answers(before, url, reply, after, step),
    ensures
        step is Deliver <==> (reply matches Reply::Answered { status, body } && 200 <= status < 300
            && json_parsed(body@) is Some),
        step matches Step::Deliver(data) ==> (reply matches Reply::Answered { body, .. }
            && json_parsed(body@) == Some(data@)),
        step is Again <==> before.attempt < before.max_retries && (reply is Broken || (
        reply matches Reply::Answered { status, .. } && (status == 429 || 500 <= status < 600))),
        step is Again ==> after.attempt == before.attempt + 1 && after.attempt <= after.max_retries,
        !(step is Again) ==> after.attempt == before.attempt,
        after.max_retries == before.max_retries,
        step matches Step::Fail(f) ==> match f {
            Failure::Http { status, url: u, excerpt } => u@ == redacted(url) && (
            reply matches Reply::Answered { status: s, body } && s == status && !(200 <= s < 300)
                && excerpt@.len() <= 200 && excerpt@ == first_chars(body@, 200)),
            Failure::InvalidJson { url: u, detail } => u@ == redacted(url) && (
            reply matches Reply::Answered { status, body } && 200 <= status < 300 && detail@
                == json_complaint(body@)),
            Failure::Transport { url: u, cause } => u@ == redacted(url) && (
            reply matches Reply::Broken { cause: c } && cause@ == scrubbed(c@)),
            _ => false,
        },
{
}

/// However often it fails, a request is sent at most once more than repetitions are
/// allowed: after as many repetitions nothing is repeated.
pub proof fn repetitions_come_to_an_end(
    before: Retry,
    url: Seq<char>,
    reply: Reply,
    after: Retry,
    step: Step,
    setback: Setback,
    r: Option<Failure>,
)
    requires
        before.attempt >= before.max_retries,
        answers(before, url, reply, after, step),
        weighs(before, url, setback, after, r),
    ensures
        !(step is Again),
        r is Some,
{
}

/// A download is tried again exactly if the connection broke or the server answered
/// 429 or 5xx, and a repetition is left; it fails with what went wrong otherwise.
pub proof fn setbacks_repeat_or_fail(
    before: Retry,
    url: Seq<char>,
    setback: Setback,
    after: Retry,
    r: Option<Failure>,
)
    requires
        weighs(before, url, setback, after, r),
    ensures
        r is None <==> before.attempt < before.max_retries && (setback is Network || (
        setback matches Setback::Refused(DownloadError::Http { status }) && (status == 429 || 500
            <= status < 600))),
        r is None ==> after.attempt == before.attempt + 1,
        after.max_retries == before.max_retries,
        r matches Some(f) ==> after.attempt == before.attempt && (f matches Failure::Download {
            url: u,
            cause,
        } && u@ == redacted(url) && cause@ == scrubbed(setback_text(setback))),
{
}

/// Of two requests, one after the other, the second starts at least an interval after
/// the first, neither before it is ready, and the second no later than it has to.
pub proof fn requests_start_an_interval_apart(
    a: RateLimiter,
    b: RateLimiter,
    c: RateLimiter,
    interval: u64,
    first: u64,
    second: u64,
    x: u64,
    y: u64,
)
    requires
        a.interval == Some(interval),
        reserves(a, first, x, b),
        reserves(b, second, y, c),
    ensures
        first + x >= a.next_slot,
        second + y >= first + x + interval,
        second >= first + x + interval ==> y == 0,
        second < first + x + interval ==> second + y == first + x + interval,
{
}

/// Without an interval nothing waits, and nothing is reserved.
pub proof fn unpaced_requests_do_not_wait(
    a: RateLimiter,
    b: RateLimiter,
    now: u64,
    wait: u64,
)
    requires
        a.interval is None,
        reserves(a, now, wait, b),
    ensures
        wait == 0,
        b == a,
{
}

/// A file is downloaded if the server answers with success and does not announce more
/// than the limit. Its chunks are taken in one after the other, none of them partly,
/// as long as they stay within the limit together, and what is reported is the size
/// and the digest of all of them.
pub proof fn downloads_stay_within_the_limit(
    status: u16,
    announced: Option<u64>,
    limit: u64,
    before: Seq<u8>,
    data: Seq<u8>,
    taken: bool,
    after: Seq<u8>,
    r: (u64, Seq<char>),
)
    requires
        takes_in(limit, before, data, taken, after),
        reports_file(after, r),
    ensures
        may_begin(status, announced, limit) <==> 200 <= status < 300 && (limit == 0
            || announced is None || announced->0 <= limit),
        taken <==> limit == 0 || before.len() + data.len() <= limit,
        taken ==> after == before + data && r.0 == before.len() + data.len() && r.1 == hex_text(
            sha256(before + data),
        ),
        !taken ==> after == before,
{
}

} // verus!
