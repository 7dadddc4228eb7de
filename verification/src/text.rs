//! Text primitives: trimming, splitting, matching, and reading and writing
//! numbers. Every function states its result over the characters of the text.

use vstd::prelude::*;

verus! {

// ---------------------------------------------------------------------------
// What std provides
// ---------------------------------------------------------------------------

/// `String::push` appends one character to the end.
pub assume_specification[ String::push ](s: &mut String, c: char)
    ensures
        final(s)@ == old(s)@.push(c),
;

/// The text that Unicode lowercasing gives.
pub uninterp spec fn lowercased(s: Seq<char>) -> Seq<char>;

/// Calls `str::to_lowercase`. Claimed: the result depends on the text alone,
/// and ASCII text is lowercased letter by letter.
#[verifier::external_body]
pub(crate) fn to_lower(s: &str) -> (r: String)
    ensures
        r@ == lowercased(s@),
        is_ascii_text(s@) ==> r@ == ascii_lowered(s@),
{
    s.to_lowercase()
}

/// The text that Unicode uppercasing gives.
pub uninterp spec fn uppercased(s: Seq<char>) -> Seq<char>;

/// Calls `str::to_uppercase`. Claimed: the result depends on the text alone,
/// and ASCII text is uppercased letter by letter.
#[verifier::external_body]
pub(crate) fn to_upper(s: &str) -> (r: String)
    ensures
        r@ == uppercased(s@),
        is_ascii_text(s@) ==> r@ == ascii_uppered(s@),
{
    s.to_uppercase()
}

/// The quoted form of a text that `Debug` prints.
pub uninterp spec fn quoted(s: Seq<char>) -> Seq<char>;

/// Formats a text with `{:?}`. Claimed: the result depends on the text alone,
/// and a text of ASCII letters and digits is only put between quotation marks.
#[verifier::external_body]
pub(crate) fn quote(s: &str) -> (r: String)
    ensures
        r@ == quoted(s@),
        (forall|i: int| 0 <= i < s@.len() ==> is_alnum(#[trigger] s@[i])) ==> r@ == seq!['"'] + s@
            + seq!['"'],
{
    format!("{s:?}")
}

// ---------------------------------------------------------------------------
// Characters
// ---------------------------------------------------------------------------

pub open spec fn is_ascii_text(s: Seq<char>) -> bool {
    forall|i: int| 0 <= i < s.len() ==> (#[trigger] s[i] as int) < 128
}

/// The Unicode `White_Space` property.
pub open spec fn is_space(c: char) -> bool {
    let n = c as int;
    ||| 0x9 <= n <= 0xd
    ||| n == 0x20
    ||| n == 0x85
    ||| n == 0xa0
    ||| n == 0x1680
    ||| 0x2000 <= n <= 0x200a
    ||| n == 0x2028
    ||| n == 0x2029
    ||| n == 0x202f
    ||| n == 0x205f
    ||| n == 0x3000
}

pub fn space(c: char) -> (r: bool)
    ensures
        r == is_space(c),
{
    let n: u32 = c as u32;
    (0x9 <= n && n <= 0xd) || n == 0x20 || n == 0x85 || n == 0xa0 || n == 0x1680 || (0x2000 <= n
        && n <= 0x200a) || n == 0x2028 || n == 0x2029 || n == 0x202f || n == 0x205f || n == 0x3000
}

pub open spec fn is_digit(c: char) -> bool {
    '0' <= c <= '9'
}

/// ASCII letters and digits.
pub open spec fn is_alnum(c: char) -> bool {
    is_digit(c) || 'a' <= c <= 'z' || 'A' <= c <= 'Z'
}

pub fn alnum(c: char) -> (r: bool)
    ensures
        r == is_alnum(c),
{
    ('0' <= c && c <= '9') || ('a' <= c && c <= 'z') || ('A' <= c && c <= 'Z')
}

pub open spec fn lower_char(c: char) -> char {
    if 'A' <= c <= 'Z' {
        (c as int + 32) as char
    } else {
        c
    }
}

pub open spec fn upper_char(c: char) -> char {
    if 'a' <= c <= 'z' {
        (c as int - 32) as char
    } else {
        c
    }
}

pub open spec fn ascii_lowered(s: Seq<char>) -> Seq<char> {
    s.map_values(|c: char| lower_char(c))
}

pub open spec fn ascii_uppered(s: Seq<char>) -> Seq<char> {
    s.map_values(|c: char| upper_char(c))
}

// ---------------------------------------------------------------------------
// Whole texts
// ---------------------------------------------------------------------------

/// The contents of a list of texts.
pub open spec fn views(v: Seq<String>) -> Seq<Seq<char>> {
    v.map_values(|s: String| s@)
}

/// The characters of `s`, in order.
pub fn to_chars(s: &str) -> (r: Vec<char>)
    ensures
        r@ == s@,
{
    let mut out: Vec<char> = Vec::new();
    for c in it: s.chars()
        invariant
            it.seq() == s@,
            out@ == s@.take(it.index() as int),
    {
        out.push(c);
    }
    assert(s@.take(s@.len() as int) == s@);
    out
}

/// The text made of `chars[from..to]`.
pub fn slice_text(chars: &Vec<char>, from: usize, to: usize) -> (r: String)
    requires
        from <= to <= chars@.len(),
    ensures
        r@ == chars@.subrange(from as int, to as int),
{
    let mut out = String::new();
    let mut i: usize = from;
    while i < to
        invariant
            from <= i <= to <= chars@.len(),
            out@ == chars@.subrange(from as int, i as int),
        decreases to - i,
    {
        out.push(chars[i]);
        i += 1;
        assert(chars@.subrange(from as int, i as int) == chars@.subrange(from as int, i - 1).push(
            chars@[i - 1],
        ));
    }
    out
}

/// Whether two texts are the same.
#[verifier::loop_isolation(false)]
pub fn same(a: &str, b: &str) -> (r: bool)
    ensures
        r == (a@ == b@),
{
    let a: Vec<char> = to_chars(a);
    let b: Vec<char> = to_chars(b);
    if a.len() != b.len() {
        return false;
    }
    let mut i: usize = 0;
    while i < a.len()
        invariant
            i <= a@.len() == b@.len(),
            forall|j: int| 0 <= j < i ==> a@[j] == b@[j],
        decreases a@.len() - i,
    {
        if a[i] != b[i] {
            return false;
        }
        i += 1;
    }
    assert(a@ =~= b@);
    true
}

/// The first `n` characters, or all of them if there are fewer.
pub open spec fn first_chars(s: Seq<char>, n: int) -> Seq<char> {
    if s.len() <= n {
        s
    } else {
        s.take(n)
    }
}

pub fn take_chars(s: &str, n: usize) -> (r: String)
    ensures
        r@ == first_chars(s@, n as int),
{
    let chars: Vec<char> = to_chars(s);
    let end: usize = if chars.len() <= n {
        chars.len()
    } else {
        n
    };
    assert(chars@.subrange(0, chars@.len() as int) == chars@);
    slice_text(&chars, 0, end)
}

// ---------------------------------------------------------------------------
// Trimming
// ---------------------------------------------------------------------------

/// `s` without the whitespace it starts with.
pub open spec fn trimmed_start(s: Seq<char>) -> Seq<char>
    decreases s.len(),
{
    if s.len() > 0 && is_space(s[0]) {
        trimmed_start(s.skip(1))
    } else {
        s
    }
}

/// `s` without the whitespace it ends with.
pub open spec fn trimmed_end(s: Seq<char>) -> Seq<char>
    decreases s.len(),
{
    if s.len() > 0 && is_space(s.last()) {
        trimmed_end(s.drop_last())
    } else {
        s
    }
}

/// `s` without the whitespace at either end.
pub open spec fn trimmed(s: Seq<char>) -> Seq<char> {
    trimmed_end(trimmed_start(s))
}

pub fn trim(s: &str) -> (r: String)
    ensures
        r@ == trimmed(s@),
{
    let chars: Vec<char> = to_chars(s);
    let mut from: usize = 0;
    assert(chars@.skip(0) == chars@);
    while from < chars.len() && space(chars[from])
        invariant
            from <= chars@.len(),
            trimmed_start(chars@) == trimmed_start(chars@.skip(from as int)),
        decreases chars@.len() - from,
    {
        assert(chars@.skip(from as int).skip(1) == chars@.skip(from + 1));
        from += 1;
    }
    let mut to: usize = chars.len();
    assert(chars@.skip(from as int) == chars@.subrange(from as int, to as int));
    while to > from && space(chars[to - 1])
        invariant
            from <= to <= chars@.len(),
            trimmed(chars@) == trimmed_end(chars@.subrange(from as int, to as int)),
        decreases to,
    {
        assert(chars@.subrange(from as int, to as int).drop_last() == chars@.subrange(
            from as int,
            to - 1,
        ));
        to -= 1;
    }
    slice_text(&chars, from, to)
}

/// `s` without the run of `c` it ends with.
pub open spec fn stripped_end(s: Seq<char>, c: char) -> Seq<char>
    decreases s.len(),
{
    if s.len() > 0 && s.last() == c {
        stripped_end(s.drop_last(), c)
    } else {
        s
    }
}

pub fn strip_end(s: &str, c: char) -> (r: String)
    ensures
        r@ == stripped_end(s@, c),
{
    let chars: Vec<char> = to_chars(s);
    let mut to: usize = chars.len();
    assert(chars@.take(to as int) == chars@);
    while to > 0 && chars[to - 1] == c
        invariant
            to <= chars@.len(),
            stripped_end(chars@, c) == stripped_end(chars@.take(to as int), c),
        decreases to,
    {
        assert(chars@.take(to as int).drop_last() == chars@.take(to - 1));
        to -= 1;
    }
    slice_text(&chars, 0, to)
}

// ---------------------------------------------------------------------------
// Matching
// ---------------------------------------------------------------------------

pub fn ascii_lower(s: &str) -> (r: String)
    ensures
        r@ == ascii_lowered(s@),
{
    let chars: Vec<char> = to_chars(s);
    let mut out = String::new();
    let mut i: usize = 0;
    while i < chars.len()
        invariant
            i <= chars@.len(),
            out@ == ascii_lowered(chars@.take(i as int)),
        decreases chars@.len() - i,
    {
        let c: char = chars[i];
        let n: u32 = c as u32;
        if 'A' <= c && c <= 'Z' {
            let b: u8 = n as u8;
            out.push((b + 32) as char);
        } else {
            out.push(c);
        }
        i += 1;
        assert(ascii_lowered(chars@.take(i as int)) == ascii_lowered(chars@.take(i - 1)).push(
            lower_char(c),
        ));
    }
    assert(chars@.take(i as int) == chars@);
    out
}

/// Equality that does not tell `A` to `Z` from `a` to `z`.
pub open spec fn same_ascii(a: Seq<char>, b: Seq<char>) -> bool {
    ascii_lowered(a) == ascii_lowered(b)
}

pub fn same_ignoring_case(a: &str, b: &str) -> (r: bool)
    ensures
        r == same_ascii(a@, b@),
{
    let a = ascii_lower(a);
    let b = ascii_lower(b);
    same(a.as_str(), b.as_str())
}

pub open spec fn has_prefix(s: Seq<char>, p: Seq<char>) -> bool {
    p.len() <= s.len() && s.take(p.len() as int) == p
}

/// Whether `p` stands in `s` at position `at`.
fn matches_at(s: &Vec<char>, p: &Vec<char>, at: usize) -> (r: bool)
    requires
        at + p@.len() <= s@.len(),
    ensures
        r == (s@.subrange(at as int, at + p@.len()) == p@),
{
    let end: usize = s.len();
    let mut i: usize = 0;
    while i < p.len()
        invariant
            i <= p@.len(),
            at + p@.len() <= s@.len() == end,
            forall|j: int| 0 <= j < i ==> s@[at + j] == p@[j],
        decreases p@.len() - i,
    {
        if s[at + i] != p[i] {
            assert(s@.subrange(at as int, at + p@.len())[i as int] != p@[i as int]);
            return false;
        }
        i += 1;
    }
    assert(s@.subrange(at as int, at + p@.len()) =~= p@);
    true
}

pub fn starts_with(s: &str, p: &str) -> (r: bool)
    ensures
        r == has_prefix(s@, p@),
{
    let s: Vec<char> = to_chars(s);
    let p: Vec<char> = to_chars(p);
    p.len() <= s.len() && matches_at(&s, &p, 0)
}

pub fn ends_with(s: &str, p: &str) -> (r: bool)
    ensures
        r == p@.is_suffix_of(s@),
{
    let s: Vec<char> = to_chars(s);
    let p: Vec<char> = to_chars(p);
    if p.len() > s.len() {
        return false;
    }
    let r = matches_at(&s, &p, s.len() - p.len());
    r
}

/// Whether `p` stands somewhere in `s`.
pub open spec fn has_within(s: Seq<char>, p: Seq<char>) -> bool {
    exists|i: int|
        0 <= i && i + p.len() <= s.len() && #[trigger] s.subrange(i, i + p.len()) == p
}

#[verifier::loop_isolation(false)]
pub fn contains(s: &str, p: &str) -> (r: bool)
    ensures
        r == has_within(s@, p@),
{
    let s: Vec<char> = to_chars(s);
    let p: Vec<char> = to_chars(p);
    if p.len() > s.len() {
        return false;
    }
    let mut i: usize = 0;
    while i <= s.len() - p.len()
        invariant
            p@.len() <= s@.len(),
            i <= s@.len() - p@.len() + 1,
            forall|j: int| 0 <= j < i ==> #[trigger] s@.subrange(j, j + p@.len()) != p@,
        decreases s@.len() + 1 - i,
    {
        if matches_at(&s, &p, i) {
            return true;
        }
        if i == s.len() - p.len() {
            return false;
        }
        i += 1;
    }
    false
}

// ---------------------------------------------------------------------------
// Splitting
// ---------------------------------------------------------------------------

/// Position of the first `a` or `b`; the length if there is none.
pub open spec fn first_of(s: Seq<char>, a: char, b: char) -> int
    decreases s.len(),
{
    if s.len() == 0 || s[0] == a || s[0] == b {
        0
    } else {
        1 + first_of(s.skip(1), a, b)
    }
}

/// The pieces of `s` between occurrences of `a` and `b`.
pub open spec fn pieces(s: Seq<char>, a: char, b: char) -> Seq<Seq<char>>
    decreases s.len(),
{
    let i = first_of(s, a, b);
    if 0 <= i < s.len() {
        seq![s.take(i)] + pieces(s.skip(i + 1), a, b)
    } else {
        seq![s]
    }
}

/// `first_of` is the one position up to which neither separator occurs.
pub proof fn lemma_first_of(s: Seq<char>, a: char, b: char, k: int)
    requires
        0 <= k <= s.len(),
        forall|j: int| 0 <= j < k ==> #[trigger] s[j] != a && s[j] != b,
        k < s.len() ==> s[k] == a || s[k] == b,
    ensures
        first_of(s, a, b) == k,
    decreases s.len(),
{
    if k > 0 {
        assert forall|j: int| 0 <= j < k - 1 implies #[trigger] s.skip(1)[j] != a && s.skip(1)[j]
            != b by {
            assert(s.skip(1)[j] == s[j + 1]);
        }
        lemma_first_of(s.skip(1), a, b, k - 1);
    }
}

/// Neither separator stands before `first_of`.
pub proof fn lemma_first_of_bounds(s: Seq<char>, a: char, b: char)
    ensures
        0 <= first_of(s, a, b) <= s.len(),
        forall|j: int| 0 <= j < first_of(s, a, b) ==> #[trigger] s[j] != a && s[j] != b,
        first_of(s, a, b) < s.len() ==> s[first_of(s, a, b)] == a || s[first_of(s, a, b)] == b,
    decreases s.len(),
{
    if s.len() > 0 && s[0] != a && s[0] != b {
        lemma_first_of_bounds(s.skip(1), a, b);
        assert forall|j: int| 0 <= j < first_of(s, a, b) implies #[trigger] s[j] != a && s[j]
            != b by {
            if j > 0 {
                assert(s.skip(1)[j - 1] == s[j]);
            }
        }
    }
}

pub fn split(s: &str, a: char, b: char) -> (r: Vec<String>)
    ensures
        views(r@) == pieces(s@, a, b),
{
    let chars: Vec<char> = to_chars(s);
    let mut out: Vec<String> = Vec::new();
    let mut from: usize = 0;
    let mut i: usize = 0;
    assert(chars@.skip(0) == chars@);
    assert(views(out@) + pieces(chars@, a, b) == pieces(chars@, a, b));
    while i < chars.len()
        invariant
            from <= i <= chars@.len(),
            views(out@) + pieces(chars@.skip(from as int), a, b) == pieces(chars@, a, b),
            forall|j: int| from <= j < i ==> chars@[j] != a && chars@[j] != b,
        decreases chars@.len() - i,
    {
        if chars[i] == a || chars[i] == b {
            let ghost rest = chars@.skip(from as int);
            let ghost before = views(out@);
            let piece = slice_text(&chars, from, i);
            proof {
                assert forall|j: int| 0 <= j < i - from implies #[trigger] rest[j] != a && rest[j]
                    != b by {
                    assert(rest[j] == chars@[from + j]);
                }
                lemma_first_of(rest, a, b, i - from);
                assert(rest.take(i - from) == piece@);
                assert(rest.skip(i - from + 1) == chars@.skip(i + 1));
            }
            out.push(piece);
            from = i + 1;
            proof {
                assert(views(out@) =~= before.push(piece@));
                assert(views(out@) + pieces(chars@.skip(from as int), a, b) =~= before + pieces(
                    rest,
                    a,
                    b,
                ));
            }
        }
        i += 1;
    }
    let ghost rest = chars@.skip(from as int);
    let ghost before = views(out@);
    let piece = slice_text(&chars, from, i);
    proof {
        assert forall|j: int| 0 <= j < rest.len() implies #[trigger] rest[j] != a && rest[j]
            != b by {
            assert(rest[j] == chars@[from + j]);
        }
        lemma_first_of(rest, a, b, rest.len() as int);
        assert(rest == piece@);
    }
    out.push(piece);
    assert(views(out@) =~= before + pieces(rest, a, b));
    out
}

/// What stands before and after the first `c`, if there is one.
pub open spec fn halves(s: Seq<char>, c: char) -> Option<(Seq<char>, Seq<char>)> {
    let i = first_of(s, c, c);
    if i >= s.len() {
        None
    } else {
        Some((s.take(i), s.skip(i + 1)))
    }
}

pub fn split_once(s: &str, c: char) -> (r: Option<(String, String)>)
    ensures
        match r {
            Some(p) => halves(s@, c) == Some((p.0@, p.1@)),
            None => halves(s@, c) is None,
        },
{
    let chars: Vec<char> = to_chars(s);
    let mut i: usize = 0;
    while i < chars.len()
        invariant
            chars@ == s@,
            i <= chars@.len(),
            forall|j: int| 0 <= j < i ==> chars@[j] != c,
        decreases chars@.len() - i,
    {
        if chars[i] == c {
            proof {
                lemma_first_of(chars@, c, c, i as int);
            }
            let head = slice_text(&chars, 0, i);
            let tail = slice_text(&chars, i + 1, chars.len());
            assert(head@ == s@.take(i as int));
            assert(tail@ == s@.skip(i + 1));
            return Some((head, tail));
        }
        i += 1;
    }
    proof {
        lemma_first_of(chars@, c, c, i as int);
    }
    None
}

// ---------------------------------------------------------------------------
// Numbers
// ---------------------------------------------------------------------------

pub open spec fn digit_char(d: int) -> char {
    (48 + d) as char
}

/// `n` in decimal digits, without leading zeros.
pub open spec fn decimal(n: nat) -> Seq<char>
    decreases n,
{
    if n < 10 {
        seq![digit_char(n as int)]
    } else {
        decimal(n / 10).push(digit_char((n % 10) as int))
    }
}

/// `n` in decimal digits, with a minus sign if it is negative.
pub open spec fn decimal_int(n: int) -> Seq<char> {
    if n < 0 {
        seq!['-'] + decimal((-n) as nat)
    } else {
        decimal(n as nat)
    }
}

/// Different numbers read differently.
pub proof fn decimals_differ(a: int, b: int)
    requires
        decimal_int(a) == decimal_int(b),
    ensures
        a == b,
{
    lemma_decimal_starts_with_digit((if a < 0 { -a } else { a }) as nat);
    lemma_decimal_starts_with_digit((if b < 0 { -b } else { b }) as nat);
    let (x, y) = (decimal_int(a), decimal_int(b));
    if a < 0 && b < 0 {
        assert(x.skip(1) =~= decimal((-a) as nat));
        assert(y.skip(1) =~= decimal((-b) as nat));
        lemma_decimals_differ((-a) as nat, (-b) as nat);
    } else if a < 0 {
        assert(x[0] == '-' && is_digit(y[0]));
    } else if b < 0 {
        assert(y[0] == '-' && is_digit(x[0]));
    } else {
        lemma_decimals_differ(a as nat, b as nat);
    }
}

proof fn lemma_decimal_starts_with_digit(n: nat)
    ensures
        decimal(n).len() > 0,
        is_digit(decimal(n)[0]),
    decreases n,
{
    if n >= 10 {
        lemma_decimal_starts_with_digit(n / 10);
    }
}

proof fn lemma_decimals_differ(a: nat, b: nat)
    requires
        decimal(a) == decimal(b),
    ensures
        a == b,
    decreases a,
{
    lemma_decimal_starts_with_digit(a / 10);
    lemma_decimal_starts_with_digit(b / 10);
    let (x, y) = (decimal(a), decimal(b));
    assert(x.last() == digit_char((a % 10) as int));
    assert(y.last() == digit_char((b % 10) as int));
    if a >= 10 && b >= 10 {
        assert(x.drop_last() =~= decimal(a / 10));
        assert(y.drop_last() =~= decimal(b / 10));
        lemma_decimals_differ(a / 10, b / 10);
    } else if a >= 10 {
        assert(x.len() > 1 && y.len() == 1);
    } else if b >= 10 {
        assert(y.len() > 1 && x.len() == 1);
    }
}

pub fn nat_text(n: u128) -> (r: String)
    ensures
        r@ == decimal(n as nat),
    decreases n,
{
    let d: u8 = (n % 10) as u8;
    let mut out = if n < 10 {
        String::new()
    } else {
        nat_text(n / 10)
    };
    out.push((48 + d) as char);
    assert(out@ =~= decimal(n as nat));
    out
}

pub fn int_text(n: i64) -> (r: String)
    ensures
        r@ == decimal_int(n as int),
{
    if n < 0 {
        let mut out = String::new();
        out.push('-');
        let m: i128 = -(n as i128);
        let tail = nat_text(m as u128);
        out.append(tail.as_str());
        assert(out@ =~= decimal_int(n as int));
        out
    } else {
        nat_text(n as u128)
    }
}

pub open spec fn all_digits(s: Seq<char>) -> bool {
    forall|i: int| 0 <= i < s.len() ==> is_digit(#[trigger] s[i])
}

/// The number that a run of digits denotes.
pub open spec fn digits_value(s: Seq<char>) -> nat
    decreases s.len(),
{
    if s.len() == 0 {
        0
    } else {
        digits_value(s.drop_last()) * 10 + (s.last() as int - 48) as nat
    }
}

/// A non-empty run of digits, read as a number no greater than `max`.
pub open spec fn read_digits(s: Seq<char>, max: int) -> Option<int> {
    if s.len() > 0 && all_digits(s) && digits_value(s) <= max {
        Some(digits_value(s) as int)
    } else {
        None
    }
}

/// `s` without a leading plus sign.
pub open spec fn unplussed(s: Seq<char>) -> Seq<char> {
    if s.len() > 0 && s[0] == '+' {
        s.skip(1)
    } else {
        s
    }
}

/// An unsigned number as Rust reads one: digits, after an optional plus sign.
pub open spec fn read_unsigned(s: Seq<char>, max: int) -> Option<int> {
    read_digits(unplussed(s), max)
}

/// A signed 64-bit number as Rust reads one: digits, after an optional sign.
pub open spec fn read_signed(s: Seq<char>) -> Option<int> {
    if s.len() > 0 && s[0] == '-' {
        match read_digits(s.skip(1), -(i64::MIN as int)) {
            Some(n) => Some(-n),
            None => None,
        }
    } else {
        read_digits(unplussed(s), i64::MAX as int)
    }
}

proof fn lemma_digits_prefix(s: Seq<char>, k: int)
    requires
        0 <= k <= s.len(),
    ensures
        digits_value(s.take(k)) <= digits_value(s),
    decreases s.len(),
{
    if k == s.len() {
        assert(s.take(k) == s);
    } else {
        lemma_digits_prefix(s.drop_last(), k);
        assert(s.drop_last().take(k) == s.take(k));
    }
}

fn read_digits_from(chars: &Vec<char>, from: usize, max: u64) -> (r: Option<u64>)
    requires
        from <= chars@.len(),
    ensures
        match r {
            Some(n) => read_digits(chars@.skip(from as int), max as int) == Some(n as int),
            None => read_digits(chars@.skip(from as int), max as int) is None,
        },
{
    let ghost s = chars@.skip(from as int);
    if from == chars.len() {
        return None;
    }
    let mut n: u64 = 0;
    let mut i: usize = from;
    while i < chars.len()
        invariant
            from <= i <= chars@.len(),
            s == chars@.skip(from as int),
            n == digits_value(s.take(i - from)),
            n <= max,
            all_digits(s.take(i - from)),
        decreases chars@.len() - i,
    {
        let c: char = chars[i];
        assert(s[i - from] == c);
        if c < '0' || c > '9' {
            assert(!is_digit(s[i - from]));
            return None;
        }
        let d: u32 = c as u32 - 48;
        let next: u128 = n as u128 * 10 + d as u128;
        proof {
            let t = s.take(i - from + 1);
            assert(t.drop_last() == s.take(i - from));
            assert(t.last() == c);
            assert(digits_value(t) == next);
            assert(all_digits(t)) by {
                assert forall|k: int| 0 <= k < t.len() implies is_digit(#[trigger] t[k]) by {
                    if k < i - from {
                        assert(t[k] == s.take(i - from)[k]);
                    }
                }
            }
            lemma_digits_prefix(s, i - from + 1);
        }
        if next > max as u128 {
            return None;
        }
        n = next as u64;
        i += 1;
    }
    assert(s.take(i - from) == s);
    Some(n)
}

pub fn parse_usize(s: &str) -> (r: Option<usize>)
    ensures
        match r {
            Some(n) => read_unsigned(s@, usize::MAX as int) == Some(n as int),
            None => read_unsigned(s@, usize::MAX as int) is None,
        },
{
    let chars: Vec<char> = to_chars(s);
    let from: usize = if chars.len() > 0 && chars[0] == '+' {
        1
    } else {
        0
    };
    assert(chars@.skip(from as int) == unplussed(s@));
    match read_digits_from(&chars, from, usize::MAX as u64) {
        Some(n) => Some(n as usize),
        None => None,
    }
}

pub fn parse_i64(s: &str) -> (r: Option<i64>)
    ensures
        match r {
            Some(n) => read_signed(s@) == Some(n as int),
            None => read_signed(s@) is None,
        },
{
    let chars: Vec<char> = to_chars(s);
    if chars.len() > 0 && chars[0] == '-' {
        match read_digits_from(&chars, 1, 0x8000_0000_0000_0000) {
            Some(n) => Some((-(n as i128)) as i64),
            None => None,
        }
    } else {
        let from: usize = if chars.len() > 0 && chars[0] == '+' {
            1
        } else {
            0
        };
        assert(chars@.skip(from as int) == unplussed(s@));
        match read_digits_from(&chars, from, i64::MAX as u64) {
            Some(n) => Some(n as i64),
            None => None,
        }
    }
}

// ---------------------------------------------------------------------------
// What holds of texts
// ---------------------------------------------------------------------------

/// The white space of ASCII is the blank and the control characters from tab to
/// carriage return; the no-break space and the ideographic space count too.
pub proof fn ascii_white_space(c: char)
    ensures
        (c as int) < 128 ==> (is_space(c) <==> c == ' ' || 9 <= c as int <= 13),
        c as int == 0xa0 || c as int == 0x3000 || 0x2000 <= c as int <= 0x200a ==> is_space(c),
{
}

/// Letters and digits are those of ASCII.
pub proof fn letters_and_digits_are_ascii(c: char)
    ensures
        is_alnum(c) <==> 48 <= c as int <= 57 || 65 <= c as int <= 90 || 97 <= c as int <= 122,
        is_digit(c) <==> 48 <= c as int <= 57,
{
}

/// Lowercasing turns each of the 26 capital letters into its small letter and
/// leaves every other character alone; uppercasing is the reverse.
pub proof fn case_is_that_of_the_alphabet(i: int, c: char)
    requires
        0 <= i < 26,
    ensures
        lower_char("ABCDEFGHIJKLMNOPQRSTUVWXYZ"@[i]) == "abcdefghijklmnopqrstuvwxyz"@[i],
        upper_char("abcdefghijklmnopqrstuvwxyz"@[i]) == "ABCDEFGHIJKLMNOPQRSTUVWXYZ"@[i],
        !(65 <= c as int <= 90) ==> lower_char(c) == c,
        !(97 <= c as int <= 122) ==> upper_char(c) == c,
{
    reveal_strlit("ABCDEFGHIJKLMNOPQRSTUVWXYZ");
    reveal_strlit("abcdefghijklmnopqrstuvwxyz");
}

/// Texts are compared without regard to case exactly if they are equal letter by
/// letter once both are in lower case.
pub proof fn comparison_ignores_case(a: Seq<char>, b: Seq<char>)
    ensures
        same_ascii(a, b) <==> a.len() == b.len() && forall|i: int|
            0 <= i < a.len() ==> lower_char(#[trigger] a[i]) == lower_char(b[i]),
{
    if same_ascii(a, b) {
        assert(ascii_lowered(a).len() == a.len() && ascii_lowered(b).len() == b.len());
        assert forall|i: int| 0 <= i < a.len() implies lower_char(#[trigger] a[i]) == lower_char(
            b[i],
        ) by {
            assert(ascii_lowered(a)[i] == ascii_lowered(b)[i]);
        }
    } else if a.len() == b.len() && forall|i: int|
        0 <= i < a.len() ==> lower_char(#[trigger] a[i]) == lower_char(b[i]) {
        assert(ascii_lowered(a) =~= ascii_lowered(b));
    }
}

/// The first characters of a text are a beginning of it, as long as asked for if
/// the text is.
pub proof fn first_characters_begin_a_text(s: Seq<char>, n: int)
    requires
        n >= 0,
    ensures
        first_chars(s, n).len() == (if s.len() < n {
            s.len() as int
        } else {
            n
        }),
        forall|i: int| 0 <= i < first_chars(s, n).len() ==> #[trigger] first_chars(s, n)[i] == s[i],
{
}

/// Trimming takes white space from both ends, all of it, and nothing else.
pub proof fn trimming_takes_only_outer_space(s: Seq<char>)
    ensures
        exists|i: int, j: int|
            0 <= i <= j <= s.len() && trimmed(s) == #[trigger] s.subrange(i, j) && (forall|k: int|
                0 <= k < i || j <= k < s.len() ==> is_space(#[trigger] s[k])),
        trimmed(s).len() > 0 ==> !is_space(trimmed(s)[0]) && !is_space(trimmed(s).last()),
{
    let i = lemma_trimmed_start(s);
    let t = trimmed_start(s);
    let n = lemma_trimmed_end(t);
    let j = i + n;
    assert(t =~= s.skip(i));
    assert(trimmed(s) =~= s.subrange(i, j));
    assert forall|k: int| 0 <= k < i || j <= k < s.len() implies is_space(#[trigger] s[k]) by {
        if k >= j {
            assert(t[k - i] == s[k]);
        }
    }
    if n > 0 {
        assert(trimmed(s)[0] == t[0]);
        assert(!is_space(t[0]));
    }
}

proof fn lemma_trimmed_start(s: Seq<char>) -> (i: int)
    ensures
        0 <= i <= s.len(),
        trimmed_start(s) == s.skip(i),
        forall|k: int| 0 <= k < i ==> is_space(#[trigger] s[k]),
        i < s.len() ==> !is_space(s[i]),
    decreases s.len(),
{
    if s.len() > 0 && is_space(s[0]) {
        let n = lemma_trimmed_start(s.skip(1));
        assert(s.skip(1).skip(n) =~= s.skip(n + 1));
        assert forall|k: int| 0 <= k < n + 1 implies is_space(#[trigger] s[k]) by {
            if k > 0 {
                assert(s.skip(1)[k - 1] == s[k]);
            }
        }
        if n + 1 < s.len() {
            assert(s.skip(1)[n] == s[n + 1]);
        }
        n + 1
    } else {
        assert(s.skip(0) =~= s);
        0
    }
}

proof fn lemma_trimmed_end(s: Seq<char>) -> (n: int)
    ensures
        0 <= n <= s.len(),
        trimmed_end(s) == s.take(n),
        forall|k: int| n <= k < s.len() ==> is_space(#[trigger] s[k]),
        n > 0 ==> !is_space(s[n - 1]),
    decreases s.len(),
{
    if s.len() > 0 && is_space(s.last()) {
        let n = lemma_trimmed_end(s.drop_last());
        assert(s.drop_last().take(n) =~= s.take(n));
        assert forall|k: int| n <= k < s.len() implies is_space(#[trigger] s[k]) by {
            if k < s.len() - 1 {
                assert(s.drop_last()[k] == s[k]);
            }
        }
        if n > 0 {
            assert(s.drop_last()[n - 1] == s[n - 1]);
        }
        n
    } else {
        assert(s.take(s.len() as int) =~= s);
        s.len() as int
    }
}

/// Text that neither starts nor ends with white space is not trimmed.
pub proof fn lemma_trimmed_whole(s: Seq<char>)
    requires
        s.len() == 0 || (!is_space(s[0]) && !is_space(s.last())),
    ensures
        trimmed(s) == s,
{
}

/// Stripping takes the run of a character that ends a text, all of it, and
/// nothing else.
pub proof fn stripping_takes_only_the_final_run(s: Seq<char>, c: char)
    ensures
        stripped_end(s, c).len() <= s.len(),
        stripped_end(s, c) == s.take(stripped_end(s, c).len() as int),
        forall|k: int| stripped_end(s, c).len() <= k < s.len() ==> #[trigger] s[k] == c,
        stripped_end(s, c).len() > 0 ==> stripped_end(s, c).last() != c,
    decreases s.len(),
{
    if s.len() > 0 && s.last() == c {
        let t = s.drop_last();
        stripping_takes_only_the_final_run(t, c);
        let n = stripped_end(s, c).len() as int;
        assert(t.take(n) =~= s.take(n));
        assert forall|k: int| n <= k < s.len() implies #[trigger] s[k] == c by {
            if k < t.len() {
                assert(t[k] == s[k]);
            }
        }
    } else {
        assert(s.take(s.len() as int) =~= s);
    }
}

/// A text starts with what it was put together from, and a text that starts with
/// another is that one and a rest.
pub proof fn prefixes_are_beginnings(p: Seq<char>, rest: Seq<char>, s: Seq<char>)
    ensures
        has_prefix(p + rest, p),
        has_prefix(s, p) ==> s == p + s.skip(p.len() as int),
{
    assert((p + rest).take(p.len() as int) =~= p);
    if has_prefix(s, p) {
        assert(s =~= s.take(p.len() as int) + s.skip(p.len() as int));
    }
}

/// A text is found within another exactly if that one is something, the text, and
/// something.
pub proof fn found_texts_are_parts(s: Seq<char>, p: Seq<char>)
    ensures
        has_within(s, p) <==> exists|a: Seq<char>, b: Seq<char>| s == #[trigger] (a + p + b),
{
    if has_within(s, p) {
        let i = choose|i: int|
            0 <= i && i + p.len() <= s.len() && #[trigger] s.subrange(i, i + p.len()) == p;
        let (a, b) = (s.take(i), s.skip(i + p.len()));
        assert(s =~= a + s.subrange(i, i + p.len()) + b);
        assert(s == a + p + b);
    }
    if exists|a: Seq<char>, b: Seq<char>| s == #[trigger] (a + p + b) {
        let (a, b) = choose|a: Seq<char>, b: Seq<char>| s == #[trigger] (a + p + b);
        let i = a.len() as int;
        assert(s.subrange(i, i + p.len()) =~= p);
    }
}

/// A text without the separators is one piece, and texts joined by a separator
/// fall into the pieces of each.
pub proof fn splitting_undoes_joining(s: Seq<char>, t: Seq<char>, a: char, b: char, sep: char)
    requires
        sep == a || sep == b,
    ensures
        !s.contains(a) && !s.contains(b) ==> pieces(s, a, b) == seq![s],
        pieces(s + seq![sep] + t, a, b) == pieces(s, a, b) + pieces(t, a, b),
{
    if !s.contains(a) && !s.contains(b) {
        assert forall|j: int| 0 <= j < s.len() implies #[trigger] s[j] != a && s[j] != b by {
            assert(s.contains(s[j]));
        }
        lemma_first_of(s, a, b, s.len() as int);
    }
    lemma_joined_pieces(s, t, a, b, sep);
}

proof fn lemma_joined_pieces(s: Seq<char>, t: Seq<char>, a: char, b: char, sep: char)
    requires
        sep == a || sep == b,
    ensures
        pieces(s + seq![sep] + t, a, b) == pieces(s, a, b) + pieces(t, a, b),
    decreases s.len(),
{
    let joined = s + seq![sep] + t;
    lemma_first_of_bounds(s, a, b);
    let n = first_of(s, a, b);
    assert forall|j: int| 0 <= j < n implies #[trigger] joined[j] != a && joined[j] != b by {
        assert(joined[j] == s[j]);
    }
    if n < s.len() {
        assert(joined[n] == s[n]);
        lemma_first_of(joined, a, b, n);
        let rest = s.skip(n + 1);
        assert(joined.skip(n + 1) =~= rest + seq![sep] + t);
        assert(joined.take(n) =~= s.take(n));
        lemma_joined_pieces(rest, t, a, b, sep);
    } else {
        assert(joined[n] == sep);
        lemma_first_of(joined, a, b, n);
        assert(joined.skip(n + 1) =~= t);
        assert(joined.take(n) =~= s);
    }
    assert(pieces(joined, a, b) =~= pieces(s, a, b) + pieces(t, a, b));
}

/// A text is cut at the first occurrence of a character, and only if it occurs.
pub proof fn halves_are_cut_at_the_first(s: Seq<char>, t: Seq<char>, c: char)
    ensures
        !s.contains(c) ==> halves(s, c) is None && halves(s + seq![c] + t, c) == Some((s, t)),
{
    if !s.contains(c) {
        let joined = s + seq![c] + t;
        assert forall|j: int| 0 <= j < s.len() implies #[trigger] s[j] != c by {
            assert(s.contains(s[j]));
        }
        lemma_first_of(s, c, c, s.len() as int);
        assert forall|j: int| 0 <= j < s.len() implies #[trigger] joined[j] != c by {
            assert(joined[j] == s[j]);
        }
        lemma_first_of(joined, c, c, s.len() as int);
        assert(joined.take(s.len() as int) =~= s);
        assert(joined.skip(s.len() as int + 1) =~= t);
    }
}

/// Numbers are written in decimal: one digit for less than ten, else the digits of
/// the tens and then that of the units; a minus sign goes before a negative one.
pub proof fn numbers_are_written_in_decimal(n: nat, d: int)
    requires
        0 <= d < 10,
    ensures
        decimal(d as nat) == seq!["0123456789"@[d]],
        n > 0 ==> decimal((10 * n + d) as nat) == decimal(n).push("0123456789"@[d]),
        decimal_int(n as int) == decimal(n),
        n > 0 ==> decimal_int(-n) == seq!['-'] + decimal(n),
{
    reveal_strlit("0123456789");
    assert(((10 * n + d) / 10) as nat == n && (10 * n + d) % 10 == d);
}

proof fn lemma_decimal_reads_back(n: nat)
    ensures
        all_digits(decimal(n)),
        decimal(n).len() > 0,
        digits_value(decimal(n)) == n,
    decreases n,
{
    if n >= 10 {
        lemma_decimal_reads_back(n / 10);
        assert(decimal(n).drop_last() =~= decimal(n / 10));
        assert(all_digits(decimal(n))) by {
            assert forall|i: int| 0 <= i < decimal(n).len() implies is_digit(
                #[trigger] decimal(n)[i],
            ) by {
                if i < decimal(n / 10).len() {
                    assert(decimal(n)[i] == decimal(n / 10)[i]);
                }
            }
        }
    } else {
        assert(decimal(n).drop_last() =~= Seq::<char>::empty());
        assert(digits_value(Seq::<char>::empty()) == 0);
    }
}

/// What was written as a number reads back as that number, with or without a plus
/// sign, if it is within the range.
pub proof fn written_numbers_read_back(n: int, max: int)
    ensures
        0 <= n <= max ==> read_unsigned(decimal_int(n), max) == Some(n),
        0 <= n <= max ==> read_unsigned(seq!['+'] + decimal_int(n), max) == Some(n),
        n > max && n >= 0 ==> read_unsigned(decimal_int(n), max) is None,
        i64::MIN <= n <= i64::MAX ==> read_signed(decimal_int(n)) == Some(n),
        n < i64::MIN || n > i64::MAX ==> read_signed(decimal_int(n)) is None,
        trimmed(decimal_int(n)) == decimal_int(n),
{
    let m = (if n < 0 {
        -n
    } else {
        n
    }) as nat;
    lemma_decimal_reads_back(m);
    let s = decimal_int(n);
    assert(is_digit(decimal(m)[0]));
    assert(is_digit(decimal(m).last())) by {
        assert(decimal(m)[decimal(m).len() - 1] == decimal(m).last());
    }
    if n < 0 {
        assert(s.skip(1) =~= decimal(m));
        assert(s.last() == decimal(m).last());
    }
    assert((seq!['+'] + s).skip(1) =~= s);
    lemma_trimmed_whole(s);
}

/// Only digits, after a sign if there is one, read as a number, and never as one
/// out of range.
pub proof fn only_numbers_read(s: Seq<char>, max: int)
    ensures
        read_unsigned(s, max) matches Some(n) ==> 0 <= n <= max && s.len() > 0 && (s[0] == '+'
            || is_digit(s[0])) && forall|i: int| 0 < i < s.len() ==> is_digit(#[trigger] s[i]),
        read_signed(s) matches Some(n) ==> i64::MIN <= n <= i64::MAX && s.len() > 0 && (s[0] == '+'
            || s[0] == '-' || is_digit(s[0])) && forall|i: int|
            0 < i < s.len() ==> is_digit(#[trigger] s[i]),
{
    let t = if s.len() > 0 && (s[0] == '+' || s[0] == '-') {
        s.skip(1)
    } else {
        s
    };
    assert forall|i: int| 0 < i < s.len() && all_digits(t) implies is_digit(#[trigger] s[i]) by {
        if t.len() < s.len() {
            assert(t[i - 1] == s[i]);
        } else {
            assert(t[i] == s[i]);
        }
    }
}

proof fn lemma_leading_zero(s: Seq<char>)
    ensures
        digits_value(seq!['0'] + s) == digits_value(s),
    decreases s.len(),
{
    let t = seq!['0'] + s;
    if s.len() == 0 {
        assert(t.drop_last() =~= Seq::<char>::empty());
        reveal_with_fuel(digits_value, 2);
    } else {
        assert(t.drop_last() =~= seq!['0'] + s.drop_last());
        lemma_leading_zero(s.drop_last());
    }
}

/// Zeros before a number do not count.
pub proof fn leading_zeros_do_not_count(s: Seq<char>, max: int)
    requires
        s.len() > 0,
        all_digits(s),
    ensures
        read_unsigned(seq!['0'] + s, max) == read_unsigned(s, max),
        read_signed(seq!['0'] + s) == read_signed(s),
{
    let t = seq!['0'] + s;
    lemma_leading_zero(s);
    assert(is_digit(s[0]));
    assert(all_digits(t)) by {
        assert forall|i: int| 0 <= i < t.len() implies is_digit(#[trigger] t[i]) by {
            if i > 0 {
                assert(t[i] == s[i - 1]);
            }
        }
    }
}

/// White space before and after what is around a character that is not white space is
/// all that trimming takes.
pub proof fn lemma_trimmed_around(a: Seq<char>, c: char, b: Seq<char>)
    requires
        !is_space(c),
    ensures
        trimmed(a + seq![c] + b) == trimmed_start(a) + seq![c] + trimmed_end(b),
        trimmed(trimmed_start(a)) == trimmed(a),
        trimmed(trimmed_end(b)) == trimmed(b),
{
    lemma_start_around(a, c, b);
    lemma_end_around(trimmed_start(a), c, b);
    lemma_trim_keeps_trimmed_end(b);
}

proof fn lemma_start_around(a: Seq<char>, c: char, b: Seq<char>)
    requires
        !is_space(c),
    ensures
        trimmed_start(a + seq![c] + b) == trimmed_start(a) + seq![c] + b,
        trimmed_start(trimmed_start(a)) == trimmed_start(a),
    decreases a.len(),
{
    let s = a + seq![c] + b;
    if a.len() > 0 && is_space(a[0]) {
        assert(s[0] == a[0]);
        assert(s.skip(1) =~= a.skip(1) + seq![c] + b);
        lemma_start_around(a.skip(1), c, b);
    } else if a.len() > 0 {
        assert(s[0] == a[0]);
    } else {
        assert(s[0] == c);
    }
}

proof fn lemma_end_around(a: Seq<char>, c: char, b: Seq<char>)
    requires
        !is_space(c),
    ensures
        trimmed_end(a + seq![c] + b) == a + seq![c] + trimmed_end(b),
    decreases b.len(),
{
    let s = a + seq![c] + b;
    if b.len() > 0 && is_space(b.last()) {
        assert(s.last() == b.last());
        assert(s.drop_last() =~= a + seq![c] + b.drop_last());
        lemma_end_around(a, c, b.drop_last());
    } else if b.len() > 0 {
        assert(s.last() == b.last());
    } else {
        assert(s.last() == c);
        assert(s =~= a + seq![c] + trimmed_end(b));
    }
}

proof fn lemma_trim_keeps_trimmed_end(s: Seq<char>)
    ensures
        trimmed(trimmed_end(s)) == trimmed(s),
    decreases s.len(),
{
    if s.len() > 0 && is_space(s.last()) {
        lemma_trim_keeps_trimmed_end(s.drop_last());
        lemma_final_space(s);
    }
}

/// A space at the end makes no difference to a trimmed text.
pub proof fn lemma_final_space(s: Seq<char>)
    requires
        s.len() > 0,
        is_space(s.last()),
    ensures
        trimmed(s) == trimmed(s.drop_last()),
    decreases s.len(),
{
    let rest = s.drop_last();
    if rest.len() == 0 {
        assert(s.skip(1) =~= Seq::<char>::empty());
        assert(rest =~= Seq::<char>::empty());
    } else if is_space(s[0]) {
        assert(rest[0] == s[0]);
        assert(s.skip(1).drop_last() =~= rest.skip(1));
        assert(s.skip(1).last() == s.last());
        lemma_final_space(s.skip(1));
    } else {
        assert(rest[0] == s[0]);
    }
}

} // verus!
