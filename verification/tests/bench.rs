use elten_scraper::bench::{
    audio_is_slower, levels, lowest, mean_bytes, measured_at, merge_pool, peak, pool_size, rate,
    sample_counts, shuffled_threads, slice_for, sweep, text_urls, total_bytes, unit, Discovery, Kind,
    Measure, Unit,
};
use elten_scraper::config::Config;
use elten_scraper::json::Json;
use elten_scraper::model::Structure;

fn json(text: &str) -> Json {
    Json::parse(text).unwrap()
}

fn texts(list: &[&str]) -> Vec<String> {
    list.iter().map(|s| s.to_string()).collect()
}

fn measure(kind: Kind, concurrency: usize, p50: f64, rate: f64) -> Measure {
    Measure {
        kind,
        concurrency,
        complete_p50: p50.to_bits(),
        requests_per_sec: rate.to_bits(),
    }
}

#[test]
fn sample_counts_can_be_overridden() {
    let mut cfg = Config::default();
    assert_eq!(sample_counts(None, &cfg.bench).unwrap(), (25, 15));
    assert_eq!(sample_counts(Some(3), &cfg.bench).unwrap(), (3, 3));
    cfg.bench.text_samples = 0;
    assert_eq!(sample_counts(None, &cfg.bench).unwrap(), (0, 15));
    let e = sample_counts(Some(0), &cfg.bench).unwrap_err();
    assert_eq!(e.text(), "nothing to measure - both sample counts are zero");
}

#[test]
fn at_least_one_level_is_swept() {
    let mut cfg = Config::default();
    assert_eq!(levels(&cfg.bench), vec![1, 2, 4, 8]);
    cfg.bench.concurrency_levels.clear();
    assert_eq!(levels(&cfg.bench), vec![1]);
    assert_eq!(pool_size(25, 4), 100);
}

#[test]
fn the_throttle_is_off_unless_kept() {
    let mut cfg = Config::default();
    assert_eq!(f64::from_bits(rate(&cfg.bench, &cfg.scrape)), 0.0);
    cfg.bench.ignore_rate_limit = false;
    assert_eq!(f64::from_bits(rate(&cfg.bench, &cfg.scrape)), 5.0);
}

#[test]
fn shuffling_keeps_every_thread() {
    let rows: Vec<String> = (0..200).map(|i| format!("{{\"id\": {i}}}")).collect();
    let s = Structure::from_data(&json(&format!("{{\"threads\": [{}]}}", rows.join(","))));
    let mut ids = shuffled_threads(&s);
    let unshuffled: Vec<i64> = (0..200).collect();
    assert_ne!(ids, unshuffled);
    ids.sort();
    assert_eq!(ids, unshuffled);
}

#[test]
fn warming_urls_are_not_measured() {
    let (warm, pool) = text_urls(&vec![1, 2, 3, 4, 5, 6], 2);
    assert_eq!(warm, texts(&["/api/v1/forum/1", "/api/v1/forum/2", "/api/v1/forum/3"]));
    assert_eq!(pool, texts(&["/api/v1/forum/4", "/api/v1/forum/5"]));
    let (warm, pool) = text_urls(&vec![1, 2], 9);
    assert_eq!((warm.len(), pool.len()), (2, 0));
    let (_, pool) = text_urls(&vec![1, 2, 3, 4], 9);
    assert_eq!(pool, texts(&["/api/v1/forum/4"]));
}

#[test]
fn every_level_gets_its_own_urls() {
    let pool = texts(&["a", "b", "c", "d", "e"]);
    assert_eq!(slice_for(&pool, 0, 2), (texts(&["a", "b"]), false));
    assert_eq!(slice_for(&pool, 1, 2), (texts(&["c", "d"]), false));
    // Too small a pool wraps around, and says so.
    assert_eq!(slice_for(&pool, 2, 2), (texts(&["e", "a"]), true));
    assert_eq!(slice_for(&pool, 0, 5).1, false);
    assert_eq!(slice_for(&pool, 1, 5), (pool.clone(), true));
    assert_eq!(slice_for(&texts(&["a"]), 0, 3), (texts(&["a", "a", "a"]), true));
    assert_eq!(slice_for(&Vec::new(), 7, usize::MAX), (Vec::new(), false));
    assert_eq!(slice_for(&pool, usize::MAX, 0), (Vec::new(), false));
}

#[test]
fn the_sweep_takes_text_before_audio_at_every_level() {
    let text = texts(&["t1", "t2", "t3", "t4"]);
    let audio = texts(&["a1"]);
    let (batches, reused) = sweep(&text, 2, &audio, 1, &vec![1, 8]);
    let seen: Vec<(Kind, usize, Vec<String>)> =
        batches.into_iter().map(|b| (b.kind, b.concurrency, b.urls)).collect();
    assert_eq!(
        seen,
        vec![
            (Kind::Text, 1, texts(&["t1", "t2"])),
            (Kind::Audio, 1, texts(&["a1"])),
            (Kind::Text, 8, texts(&["t3", "t4"])),
            (Kind::Audio, 8, texts(&["a1"])),
        ]
    );
    assert!(reused);
    let (batches, reused) = sweep(&text, 2, &Vec::new(), 1, &vec![1, 8]);
    assert_eq!((batches.len(), reused), (2, false));
    let (batches, reused) = sweep(&text, 0, &Vec::new(), 1, &vec![1]);
    assert_eq!((batches.len(), reused), (0, false));
}

#[test]
fn recordings_are_discovered_until_enough_are_found() {
    let mut d = Discovery::new((1..=200).collect(), 3);
    assert_eq!(d.next().unwrap(), "/api/v1/forum/1");
    d.take_in(&json(
        r#"{"posts": [{"audio": {"url": "u1"}}, {"audio": {"url": ""}}, {"audio": null}, {}]}"#,
    ));
    assert_eq!(d.next().unwrap(), "/api/v1/forum/2");
    d.take_in(&json(r#"{"posts": 5}"#));
    assert_eq!(d.next().unwrap(), "/api/v1/forum/3");
    d.take_in(&json(
        r#"{"posts": [{"audio": {"url": "u2"}}, {"audio": {"url": "u3"}}, {"audio": {"url": "u4"}}]}"#,
    ));
    assert!(d.next().is_none());
    assert_eq!(d.finish(), texts(&["u1", "u2", "u3"]));
}

#[test]
fn discovery_gives_up_after_a_while() {
    let mut d = Discovery::new((1..=200).collect(), 3);
    let mut tried = 0;
    while d.next().is_some() {
        tried += 1;
    }
    assert_eq!(tried, 120);
    assert!(d.finish().is_empty());
    assert!(Discovery::new(vec![1], 0).next().is_none());
}

#[test]
fn pools_are_sorted_and_hold_nothing_twice() {
    let merged = merge_pool(&texts(&["b", "é", "a"]), &texts(&["ab", "b", "Z", "", "a"]));
    assert_eq!(merged, texts(&["", "Z", "a", "ab", "b", "é"]));
    let mut expected = texts(&["zz", "z", "ż", "zA"]);
    let merged = merge_pool(&expected, &Vec::new());
    expected.sort();
    expected.dedup();
    assert_eq!(merged, expected);
}

#[test]
fn sizes_are_averaged_and_scaled() {
    assert_eq!(mean_bytes(&vec![1, 2, 4]), 2);
    assert_eq!(mean_bytes(&Vec::new()), 0);
    assert_eq!(mean_bytes(&vec![u64::MAX, u64::MAX]), u64::MAX);
    assert_eq!(total_bytes(&vec![u64::MAX, 1]), u64::MAX as u128 + 1);
    assert_eq!(unit(1023), Unit::Bytes);
    assert_eq!(unit(1024), Unit::Kilobytes);
    assert_eq!(unit(1_048_575), Unit::Kilobytes);
    assert_eq!(unit(1_048_576), Unit::Megabytes);
}

#[test]
fn results_are_read_at_the_lowest_level() {
    let all = vec![
        measure(Kind::Text, 2, 30.0, 10.0),
        measure(Kind::Audio, 1, 50.0, 5.0),
        measure(Kind::Text, 1, 40.0, 9.0),
        measure(Kind::Text, 1, 99.0, 1.0),
    ];
    assert_eq!(lowest(&all), 1);
    assert_eq!(measured_at(&all, Kind::Text, 1), Some(2));
    assert_eq!(measured_at(&all, Kind::Audio, 1), Some(1));
    assert_eq!(measured_at(&all, Kind::Audio, 2), None);
    assert!(audio_is_slower(&all[2], &all[1]));
    assert!(!audio_is_slower(&all[3], &all[1]));
    assert_eq!(lowest(&Vec::new()), 1);
}

#[test]
fn throughput_peaks_where_the_rate_is_highest() {
    let all = vec![
        measure(Kind::Text, 4, 0.0, 10.5),
        measure(Kind::Text, 1, 0.0, 3.25),
        measure(Kind::Text, 2, 0.0, 10.5),
        measure(Kind::Audio, 1, 0.0, 99.0),
    ];
    // Of equal rates, the higher level.
    assert_eq!(peak(&all, Kind::Text), Some(0));
    // One measure is no sweep.
    assert_eq!(peak(&all, Kind::Audio), None);
    let again = vec![measure(Kind::Audio, 1, 0.0, 2.0), measure(Kind::Audio, 1, 0.0, 2.0)];
    assert_eq!(peak(&again, Kind::Audio), Some(1));
}
