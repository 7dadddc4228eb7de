//! Progress reporting, written for screen readers first.
//!
//! Elten is a network for blind people, so nearly everyone running this tool is
//! listening to the terminal rather than looking at it. A drawn bar is the wrong
//! shape for that: the glyphs are announced one by one as noise, and because the
//! bar is redrawn in place several times a second the line is re-announced
//! constantly while never saying anything new.
//!
//! So progress is plain numbers on their own lines - `threads: 120/400 (30%),
//! about 4m left` - given only when there is something worth hearing: every
//! `step_percent` of the work, or after `interval` has passed with no report (so
//! a slow phase still says it is alive), whichever comes first. Each report is a
//! complete line, so it stays in the scrollback and can be reviewed with the
//! screen reader's review cursor - which an in-place redraw cannot offer.
//!
//! Times are nanoseconds since a moment that the caller fixes.

use vstd::arithmetic::div_mod::{
    lemma_div_is_ordered, lemma_div_multiples_vanish, lemma_fundamental_div_mod,
};
use vstd::arithmetic::mul::lemma_mul_inequality;
use vstd::prelude::*;

use crate::config::Ui;
use crate::text::{decimal, nat_text};

verus! {

/// Nanoseconds in a second.
pub const SECOND: u128 = 1_000_000_000;

/// A counter over a known amount of work.
#[derive(Debug)]
pub struct Progress {
    label: String,
    total: u64,
    started: u64,
    /// 0 disables percentage-triggered reports.
    step_percent: u64,
    /// Zero disables time-triggered reports.
    interval: u128,
    silent: bool,
    done: u64,
    last_percent: u64,
    last_report: u64,
    reported: bool,
}

/// What a counter holds.
pub struct ProgressV {
    pub label: Seq<char>,
    pub total: int,
    pub started: int,
    pub step_percent: int,
    pub interval: int,
    pub silent: bool,
    pub done: int,
    pub last_percent: int,
    pub last_report: int,
    pub reported: bool,
}

/// Whole percentages of the total; nothing to do counts as done.
pub open spec fn percent_of(done: int, total: int) -> int {
    if total == 0 {
        100
    } else if done * 100 > u64::MAX {
        u64::MAX as int / total
    } else {
        done * 100 / total
    }
}

/// The time between two moments, none if they are the wrong way round.
pub open spec fn since(earlier: int, later: int) -> int {
    if later > earlier {
        later - earlier
    } else {
        0
    }
}

/// Linear estimate of the time left, to the nearest nanosecond. Nothing until
/// enough has finished for the rate so far to mean anything - an estimate off
/// by an order of magnitude is worse than no estimate.
pub open spec fn time_left(v: ProgressV, done: int, now: int) -> Option<int> {
    if done < 5 || done >= v.total || since(v.started, now) < SECOND {
        None
    } else {
        Some(((v.total - done) * since(v.started, now) + done / 2) / done)
    }
}

/// Two units at most, largest first: "1h 4m", "3m 12s", "45s". Whole minutes of
/// less than an hour stand alone: "4m".
pub open spec fn duration_text(secs: int) -> Seq<char> {
    if secs < 60 {
        decimal(secs as nat) + "s"@
    } else if secs < 3600 {
        if secs % 60 == 0 {
            decimal((secs / 60) as nat) + "m"@
        } else {
            decimal((secs / 60) as nat) + "m "@ + decimal((secs % 60) as nat) + "s"@
        }
    } else {
        decimal((secs / 3600) as nat) + "h "@ + decimal((secs % 3600 / 60) as nat) + "m"@
    }
}

/// How far the work is.
pub open spec fn position_text(v: ProgressV, done: int) -> Seq<char> {
    "  "@ + v.label + ": "@ + decimal(done as nat) + "/"@ + decimal(v.total as nat) + " ("@ + decimal(
        percent_of(done, v.total) as nat,
    ) + "%)"@
}

/// A report on the way.
pub open spec fn report_text(v: ProgressV, done: int, now: int) -> Seq<char> {
    position_text(v, done) + match time_left(v, done, now) {
        Some(left) => ", about "@ + duration_text(left / SECOND as int) + " left"@,
        None => ""@,
    }
}

/// A counter that nothing has been counted with.
pub open spec fn fresh(total: u64, label: Seq<char>, ui: Ui, now: u64) -> ProgressV {
    ProgressV {
        label,
        total: total as int,
        started: now as int,
        step_percent: ui.progress_step_percent as int,
        interval: ui.progress_interval_secs * SECOND,
        silent: ui.progress@ == "none"@ || total == 0,
        done: 0,
        last_percent: 0,
        last_report: now as int,
        reported: false,
    }
}

/// The last line of a phase, if there is one.
pub open spec fn final_text(v: ProgressV, now: int) -> Option<Seq<char>> {
    if v.silent || (v.done == 0 && !v.reported) {
        None
    } else {
        Some(
            position_text(v, v.done) + " in "@ + duration_text(
                since(v.started, now) / SECOND as int,
            ),
        )
    }
}

impl ProgressV {
    /// The count after `n` more, which never runs past the total.
    pub open spec fn count_after(self, n: int) -> int {
        if self.done + n < self.total {
            self.done + n
        } else {
            self.total
        }
    }

    /// Whether a count is worth a report: it is a step further, or a report is
    /// overdue. The finishing line is left to `finish`, which has the total
    /// runtime.
    pub open spec fn is_worth_a_report(self, done: int, now: int) -> bool {
        let percent = percent_of(done, self.total);
        let stepped = self.step_percent > 0 && percent >= self.last_percent + self.step_percent;
        let overdue = self.interval > 0 && since(self.last_report, now) >= self.interval;
        (stepped || overdue) && done < self.total
    }

    /// The counter after `n` more items are done.
    pub open spec fn after(self, n: int, now: int) -> ProgressV {
        let done = self.count_after(n);
        if self.silent {
            self
        } else if self.is_worth_a_report(done, now) {
            ProgressV {
                done,
                last_percent: percent_of(done, self.total),
                last_report: now,
                reported: true,
                ..self
            }
        } else {
            ProgressV { done, ..self }
        }
    }
}

proof fn lemma_percent(done: int, total: int)
    requires
        0 <= done <= total <= u64::MAX,
    ensures
        0 <= percent_of(done, total) <= 100,
{
    if total > 0 {
        let scaled = if done * 100 > u64::MAX {
            u64::MAX as int
        } else {
            done * 100
        };
        lemma_div_is_ordered(0, scaled, total);
        lemma_div_is_ordered(scaled, total * 100, total);
        lemma_div_multiples_vanish(100, total);
        assert(total * 100 == 100 * total);
        assert(0int / total == 0) by (nonlinear_arith)
            requires
                total > 0,
        ;
    }
}

impl Progress {
    pub closed spec fn view(&self) -> ProgressV {
        ProgressV {
            label: self.label@,
            total: self.total as int,
            started: self.started as int,
            step_percent: self.step_percent as int,
            interval: self.interval as int,
            silent: self.silent,
            done: self.done as int,
            last_percent: self.last_percent as int,
            last_report: self.last_report as int,
            reported: self.reported,
        }
    }

    #[verifier::type_invariant]
    spec fn is_sound(&self) -> bool {
        &&& self.done <= self.total
        &&& self.last_percent <= 100
        &&& self.step_percent <= 255
        &&& self.interval <= u64::MAX * SECOND
    }

    pub fn new(total: u64, label: &str, ui: &Ui, now: u64) -> (r: Self)
        ensures
            r@ == (ProgressV {
                label: label@,
                total: total as int,
                started: now as int,
                step_percent: ui.progress_step_percent as int,
                interval: ui.progress_interval_secs * SECOND,
                silent: ui.progress@ == "none"@ || total == 0,
                done: 0,
                last_percent: 0,
                last_report: now as int,
                reported: false,
            }),
            r@ == fresh(total, label@, *ui, now),
    {
        Self {
            label: String::from_str(label),
            total,
            started: now,
            step_percent: ui.progress_step_percent as u64,
            interval: ui.progress_interval_secs as u128 * SECOND,
            silent: !ui.progress_enabled() || total == 0,
            done: 0,
            last_percent: 0,
            last_report: now,
            reported: false,
        }
    }

    /// Count `n` more items. Gives the line to report, if it is time for one.
    pub fn inc(&mut self, n: u64, now: u64) -> (r: Option<String>)
        ensures
            final(self)@ == old(self)@.after(n as int, now as int),
            old(self)@.done <= final(self)@.done <= final(self)@.total,
            match r {
                Some(text) => {
                    &&& !old(self)@.silent
                    &&& old(self)@.is_worth_a_report(
                        old(self)@.count_after(n as int),
                        now as int,
                    )
                    &&& text@ == report_text(
                        old(self)@,
                        old(self)@.count_after(n as int),
                        now as int,
                    )
                },
                None => old(self)@.silent || !old(self)@.is_worth_a_report(
                    old(self)@.count_after(n as int),
                    now as int,
                ),
            },
    {
        proof {
            use_type_invariant(&*self);
        }
        if self.silent {
            return None;
        }
        let done: u64 = if n < self.total - self.done {
            self.done + n
        } else {
            self.total
        };
        self.done = done;
        let percent: u64 = self.percent(done);
        proof {
            lemma_percent(done as int, self.total as int);
        }
        let quiet: u128 = if now > self.last_report {
            (now - self.last_report) as u128
        } else {
            0
        };
        let stepped = self.step_percent > 0 && percent >= self.last_percent + self.step_percent;
        let overdue = self.interval > 0 && quiet >= self.interval;
        if (stepped || overdue) && done < self.total {
            self.last_percent = percent;
            self.last_report = now;
            self.reported = true;
            Some(self.report(done, now))
        } else {
            None
        }
    }

    /// Final line for the phase: what was completed, and how long it took.
    /// Reports a partial count honestly when a run was interrupted, and nothing
    /// if nothing happened.
    pub fn finish(&self, now: u64) -> (r: Option<String>)
        ensures
            match r {
                Some(text) => {
                    &&& !self@.silent && (self@.done > 0 || self@.reported)
                    &&& text@ == position_text(self@, self@.done) + " in "@ + duration_text(
                        since(self@.started, now as int) / SECOND as int,
                    )
                },
                None => self@.silent || (self@.done == 0 && !self@.reported),
            },
            final_text(self@, now as int) == (match r {
                Some(text) => Some(text@),
                None => None,
            }),
    {
        if self.silent || (self.done == 0 && !self.reported) {
            return None;
        }
        let elapsed: u128 = self.elapsed(now);
        Some(self.position(self.done).concat(" in ").concat(duration(elapsed / SECOND).as_str()))
    }

    /// How many items are done.
    pub fn done(&self) -> (r: u64)
        ensures
            r == self@.done,
            r <= self@.total,
    {
        proof {
            use_type_invariant(self);
        }
        self.done
    }

    /// Whether nothing is ever reported.
    pub fn silent(&self) -> (r: bool)
        ensures
            r == self@.silent,
    {
        self.silent
    }

    pub fn percent(&self, done: u64) -> (r: u64)
        ensures
            r == percent_of(done as int, self@.total),
    {
        if self.total == 0 {
            return 100;
        }
        let scaled: u64 = match done.checked_mul(100) {
            Some(n) => n,
            None => u64::MAX,
        };
        scaled / self.total
    }

    fn elapsed(&self, now: u64) -> (r: u128)
        ensures
            r == since(self@.started, now as int),
            r <= u64::MAX,
    {
        if now > self.started {
            (now - self.started) as u128
        } else {
            0
        }
    }

    fn position(&self, done: u64) -> (r: String)
        ensures
            r@ == position_text(self@, done as int),
    {
        String::from_str("  ").concat(self.label.as_str()).concat(": ").concat(
            nat_text(done as u128).as_str(),
        ).concat("/").concat(nat_text(self.total as u128).as_str()).concat(" (").concat(
            nat_text(self.percent(done) as u128).as_str(),
        ).concat("%)")
    }

    fn report(&self, done: u64, now: u64) -> (r: String)
        ensures
            r@ == report_text(self@, done as int, now as int),
    {
        let text = self.position(done);
        match self.remaining(done, now) {
            Some(left) => text.concat(", about ").concat(duration(left / SECOND).as_str()).concat(
                " left",
            ),
            None => text.concat(""),
        }
    }

    /// The time left, in nanoseconds, if `done` items are done by now.
    pub fn remaining(&self, done: u64, now: u64) -> (r: Option<u128>)
        ensures
            match r {
                Some(left) => time_left(self@, done as int, now as int) == Some(left as int),
                None => time_left(self@, done as int, now as int) is None,
            },
    {
        if done < 5 || done >= self.total {
            return None;
        }
        let elapsed: u128 = self.elapsed(now);
        if elapsed < SECOND {
            return None;
        }
        let left: u128 = (self.total - done) as u128;
        proof {
            let most = u64::MAX as int;
            lemma_mul_inequality(left as int, most, elapsed as int);
            lemma_mul_inequality(elapsed as int, most, most);
            assert(left * elapsed <= most * most) by (nonlinear_arith)
                requires
                    left * elapsed <= most * elapsed,
                    elapsed * most <= most * most,
            ;
        }
        Some((left * elapsed + done as u128 / 2) / done as u128)
    }
}

pub fn duration(secs: u128) -> (r: String)
    ensures
        r@ == duration_text(secs as int),
{
    if secs < 60 {
        nat_text(secs).concat("s")
    } else if secs < 3600 {
        if secs % 60 == 0 {
            nat_text(secs / 60).concat("m")
        } else {
            nat_text(secs / 60).concat("m ").concat(nat_text(secs % 60).as_str()).concat("s")
        }
    } else {
        nat_text(secs / 3600).concat("h ").concat(nat_text(secs % 3600 / 60).as_str()).concat("m")
    }
}

/// A slow phase still says it is alive: once the interval has passed without a
/// report, the next count gives one, even if the percentage has not risen.
pub proof fn slow_phases_say_they_are_alive(v: ProgressV, n: int, now: int)
    requires
        !v.silent,
        v.interval > 0,
        since(v.last_report, now) >= v.interval,
        v.done + n < v.total,
    ensures
        v.is_worth_a_report(v.count_after(n), now),
        v.after(n, now).last_report == now,
{
}

/// A counter made with progress switched off, or over nothing, never reports
/// and never counts.
pub proof fn silent_counters_stay_silent(v: ProgressV, n: int, now: int)
    requires
        v.silent,
    ensures
        v.after(n, now) == v,
{
}

/// Counting in two steps or in one comes to the same count.
pub proof fn counting_in_parts_comes_to_the_same(v: ProgressV, a: int, b: int, t: int, u: int)
    requires
        0 <= v.done <= v.total,
        a >= 0,
        b >= 0,
    ensures
        v.after(a, t).after(b, u).done == v.after(a + b, u).done,
{
}

/// A percentage is the whole part of the share that is done: that many hundredths of
/// the total are done, and not one more. Nothing to do counts as done.
pub proof fn percentages_are_whole_shares(done: int, total: int)
    requires
        0 <= done,
        0 <= total,
    ensures
        total == 0 ==> percent_of(done, total) == 100,
        total > 0 && done * 100 <= u64::MAX ==> percent_of(done, total) * total <= done * 100 < (
        percent_of(done, total) + 1) * total,
        total > 0 && done * 100 > u64::MAX ==> percent_of(done, total) == u64::MAX as int / total,
{
    if total > 0 && done * 100 <= u64::MAX {
        let (x, p) = (done * 100, done * 100 / total);
        lemma_fundamental_div_mod(x, total);
        assert(p * total <= x < (p + 1) * total) by (nonlinear_arith)
            requires
                total > 0,
                x == total * p + x % total,
                0 <= x % total < total,
        ;
    }
}

/// The time between two moments is never negative.
pub proof fn time_does_not_run_backwards(earlier: int, later: int)
    ensures
        earlier <= later ==> since(earlier, later) == later - earlier,
        later < earlier ==> since(earlier, later) == 0,
{
}

/// The time left is estimated once five items and a second are done, and while there
/// is something left: as long per item as so far, to the nearest nanosecond.
pub proof fn estimates_are_linear(v: ProgressV, done: int, now: int)
    requires
        v.started <= now,
    ensures
        time_left(v, done, now) is Some <==> 5 <= done < v.total && now - v.started
            >= 1_000_000_000,
        time_left(v, done, now) matches Some(left) ==> left * done <= (v.total - done) * (now
            - v.started) + done / 2 < (left + 1) * done,
{
    if let Some(left) = time_left(v, done, now) {
        let x = (v.total - done) * (now - v.started) + done / 2;
        lemma_fundamental_div_mod(x, done);
        assert(left * done <= x < (left + 1) * done) by (nonlinear_arith)
            requires
                done > 0,
                x == done * left + x % done,
                0 <= x % done < done,
        ;
    }
}

/// A duration reads as hours and minutes, as minutes and seconds without the seconds
/// if there are none, or as seconds.
pub proof fn durations_read_in_units(h: nat, m: nat, s: nat)
    requires
        m < 60,
        s < 60,
    ensures
        h > 0 ==> duration_text((3600 * h + 60 * m + s) as int) == decimal(h) + "h "@ + decimal(m)
            + "m"@,
        m > 0 && s > 0 ==> duration_text((60 * m + s) as int) == decimal(m) + "m "@ + decimal(s)
            + "s"@,
        m > 0 ==> duration_text((60 * m) as int) == decimal(m) + "m"@,
        duration_text(s as int) == decimal(s) + "s"@,
{
    let secs = 3600 * h + 60 * m + s;
    assert(secs / 3600 == h && secs % 3600 / 60 == m);
    assert((60 * m + s) / 60 == m && (60 * m + s) % 60 == s);
    assert((60 * m) / 60 == m && (60 * m) % 60 == 0);
}

/// A report gives the label, the count, the total and the percentage, and the time
/// left if there is an estimate.
pub proof fn reports_tell_the_position(v: ProgressV, done: nat, now: int)
    requires
        v.total >= 0,
    ensures
        position_text(v, done as int) == "  "@ + v.label + ": "@ + decimal(done) + "/"@ + decimal(
            v.total as nat,
        ) + " ("@ + decimal(percent_of(done as int, v.total) as nat) + "%)"@,
        time_left(v, done as int, now) is None ==> report_text(v, done as int, now)
            == position_text(v, done as int),
        time_left(v, done as int, now) matches Some(left) ==> report_text(v, done as int, now)
            == position_text(v, done as int) + ", about "@ + duration_text(left / 1_000_000_000)
            + " left"@,
{
    reveal_strlit("");
    assert(""@ =~= Seq::<char>::empty());
    if time_left(v, done as int, now) is None {
        assert(report_text(v, done as int, now) =~= position_text(v, done as int));
    } else {
        let left = time_left(v, done as int, now)->0;
        assert(report_text(v, done as int, now) =~= position_text(v, done as int) + ", about "@
            + duration_text(left / 1_000_000_000) + " left"@);
    }
}

/// A report is due exactly if there is something left to do, and either the
/// percentage is a step above the last one reported or the interval has passed since.
/// A step or an interval of 0 never makes one due.
pub proof fn reports_come_by_step_or_interval(v: ProgressV, done: int, now: int)
    requires
        v.last_report <= now,
    ensures
        v.is_worth_a_report(done, now) <==> done < v.total && ((v.step_percent > 0 && percent_of(
            done,
            v.total,
        ) - v.last_percent >= v.step_percent) || (v.interval > 0 && now - v.last_report
            >= v.interval)),
{
}

/// Counting counts, never past the total. A report takes note of when it was made and
/// of the percentage; no report changes nothing but the count.
pub proof fn counting_counts(v: ProgressV, n: int, now: int)
    requires
        !v.silent,
        0 <= n,
        0 <= v.done <= v.total,
    ensures
        v.count_after(n) == (if v.done + n <= v.total {
            v.done + n
        } else {
            v.total
        }),
        v.after(n, now).done == v.count_after(n),
        v.after(n, now).total == v.total && v.after(n, now).label == v.label && v.after(
            n,
            now,
        ).started == v.started && v.after(n, now).step_percent == v.step_percent && v.after(
            n,
            now,
        ).interval == v.interval && !v.after(n, now).silent,
        v.is_worth_a_report(v.count_after(n), now) ==> v.after(n, now).reported && v.after(
            n,
            now,
        ).last_report == now && v.after(n, now).last_percent == percent_of(
            v.count_after(n),
            v.total,
        ),
        !v.is_worth_a_report(v.count_after(n), now) ==> v.after(n, now).reported == v.reported
            && v.after(n, now).last_report == v.last_report && v.after(n, now).last_percent
            == v.last_percent,
{
}

/// A new counter has counted nothing and reported nothing; it reports as it is set
/// up, and not at all if that is switched off or there is nothing to count.
pub proof fn new_counters_start_from_nothing(total: u64, label: Seq<char>, ui: Ui, now: u64)
    ensures
        ({
            let v = fresh(total, label, ui, now);
            &&& v.label == label && v.total == total && v.done == 0 && v.last_percent == 0
            &&& v.started == now && v.last_report == now && !v.reported
            &&& v.step_percent == ui.progress_step_percent
            &&& v.interval == ui.progress_interval_secs * 1_000_000_000
            &&& v.silent <==> ui.progress@ == "none"@ || total == 0
        }),
{
}

/// The last line tells how far the work came and how long it took; there is none if
/// nothing was done and nothing was said.
pub proof fn phases_end_with_a_line(v: ProgressV, now: int)
    ensures
        v.silent ==> final_text(v, now) is None,
        !v.silent && v.done == 0 && !v.reported ==> final_text(v, now) is None,
        !v.silent && (v.done != 0 || v.reported) && v.started <= now ==> final_text(v, now) == Some(
            position_text(v, v.done) + " in "@ + duration_text((now - v.started) / 1_000_000_000),
        ),
{
}

} // verus!
