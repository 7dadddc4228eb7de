use elten_scraper::config::Ui;
use elten_scraper::progress::{duration, Progress};

const SECOND: u64 = 1_000_000_000;

fn ui(step: u8, interval: u64) -> Ui {
    Ui {
        progress: "plain".to_string(),
        progress_step_percent: step,
        progress_interval_secs: interval,
    }
}

#[test]
fn durations_read_as_words_not_clock_faces() {
    assert_eq!(duration(45), "45s");
    assert_eq!(duration(192), "3m 12s");
    assert_eq!(duration(3840), "1h 4m");
}

#[test]
fn durations_at_the_borders_of_units() {
    assert_eq!(duration(0), "0s");
    assert_eq!(duration(59), "59s");
    assert_eq!(duration(60), "1m");
    assert_eq!(duration(61), "1m 1s");
    assert_eq!(duration(3599), "59m 59s");
    assert_eq!(duration(3540), "59m");
    assert_eq!(duration(3600), "1h 0m");
    assert_eq!(duration(3659), "1h 0m");
    assert_eq!(duration(3660), "1h 1m");
    assert_eq!(duration(86_400), "24h 0m");
    assert_eq!(duration(90_061), "25h 1m");
}

#[test]
fn percentages_are_whole_numbers_of_the_total() {
    let pb = Progress::new(400, "threads", &ui(5, 30), 0);
    assert_eq!(pb.percent(0), 0);
    assert_eq!(pb.percent(120), 30);
    assert_eq!(pb.percent(400), 100);
}

#[test]
fn nothing_to_do_counts_as_done() {
    let pb = Progress::new(0, "threads", &ui(5, 30), 0);
    assert_eq!(pb.percent(0), 100);
    assert!(pb.silent());
}

#[test]
fn counting_never_runs_past_the_total() {
    let mut pb = Progress::new(3, "threads", &ui(5, 30), 0);
    for _ in 0..10 {
        pb.inc(1, 0);
    }
    assert_eq!(pb.done(), 3);
    pb.inc(u64::MAX, 0);
    assert_eq!(pb.done(), 3);
}

#[test]
fn a_disabled_progress_reports_nothing() {
    let mut ui = ui(5, 30);
    ui.progress = "none".to_string();
    let mut pb = Progress::new(10, "threads", &ui, 0);
    assert!(pb.inc(1, 0).is_none());
    assert!(pb.silent());
    assert_eq!(pb.done(), 0);
    assert!(pb.finish(SECOND).is_none());
}

#[test]
fn no_estimate_until_the_rate_means_something() {
    let now = 7 * SECOND;
    let pb = Progress::new(400, "threads", &ui(5, 30), now);
    // Too few samples, and no elapsed time to divide by.
    assert!(pb.remaining(2, now).is_none());
    assert!(pb.remaining(200, now).is_none());
    // Nothing left to wait for.
    assert!(pb.remaining(400, now + 10 * SECOND).is_none());
    // Half done after 10s: roughly another 10s.
    let left = pb.remaining(200, now + 10 * SECOND).unwrap();
    let secs = left as f64 / 1e9;
    assert!((secs - 10.0).abs() < 0.5, "got {left:?}");
    assert_eq!(left, 10_000_000_000);
}

#[test]
fn estimates_are_rounded_to_the_nearest_nanosecond() {
    let pb = Progress::new(13, "threads", &ui(5, 30), 0);
    // 7 left at 6 done in 1 s: 7/6 s.
    assert_eq!(pb.remaining(6, SECOND), Some(1_166_666_667));
    assert!(pb.remaining(6, SECOND - 1).is_none());
    assert!(pb.remaining(4, 10 * SECOND).is_none());
}

#[test]
fn a_report_comes_with_every_step() {
    let mut pb = Progress::new(400, "threads", &ui(5, 0), 0);
    assert!(pb.inc(19, SECOND).is_none());
    assert_eq!(
        pb.inc(1, 10 * SECOND).unwrap(),
        "  threads: 20/400 (5%), about 3m 10s left"
    );
    // Nothing new until the next step.
    assert!(pb.inc(19, 20 * SECOND).is_none());
    assert_eq!(
        pb.inc(1, 20 * SECOND).unwrap(),
        "  threads: 40/400 (10%), about 3m left"
    );
}

#[test]
fn a_slow_phase_says_it_is_alive() {
    let mut pb = Progress::new(400, "audio", &ui(50, 30), 0);
    assert!(pb.inc(4, 29 * SECOND).is_none());
    assert_eq!(pb.inc(0, 30 * SECOND).unwrap(), "  audio: 4/400 (1%)");
    // Overdue again, though the percentage has not risen.
    assert_eq!(pb.inc(1, 90 * SECOND).unwrap(), "  audio: 5/400 (1%), about 1h 58m left");
    assert!(pb.inc(1, 91 * SECOND).is_none());

    let mut pb = Progress::new(1000, "audio", &ui(5, 30), 0);
    assert_eq!(pb.inc(1, 31 * SECOND).unwrap(), "  audio: 1/1000 (0%)");
}

#[test]
fn a_report_reads_as_one_line() {
    let mut pb = Progress::new(400, "threads", &ui(30, 0), 0);
    // 120 of 400 done at this rate leaves 240 s.
    let now = 240 * SECOND * 120 / 280 + 1;
    assert_eq!(pb.inc(120, now).unwrap(), "  threads: 120/400 (30%), about 4m left");
}

#[test]
fn without_step_and_interval_only_the_end_is_reported() {
    let mut pb = Progress::new(10, "audio", &ui(0, 0), SECOND);
    assert!(pb.finish(2 * SECOND).is_none());
    assert!(pb.inc(9, 1000 * SECOND).is_none());
    assert!(pb.inc(1, 1000 * SECOND).is_none());
    assert_eq!(pb.finish(66 * SECOND).unwrap(), "  audio: 10/10 (100%) in 1m 5s");
}

#[test]
fn an_interrupted_phase_reports_what_it_did() {
    let mut pb = Progress::new(10, "audio", &ui(0, 0), 0);
    pb.inc(3, SECOND);
    assert_eq!(pb.finish(4 * SECOND).unwrap(), "  audio: 3/10 (30%) in 4s");
}

#[test]
fn counting_in_parts_comes_to_the_same() {
    let mut once = Progress::new(100, "threads", &ui(5, 30), 0);
    let mut parts = Progress::new(100, "threads", &ui(5, 30), 0);
    once.inc(30, SECOND);
    parts.inc(10, SECOND);
    parts.inc(20, SECOND);
    assert_eq!(once.done(), parts.done());
}
