use elten_scraper::config::{Config, ConfigError, Ui};

#[test]
fn defaults_can_be_run_with() {
    let cfg = Config::default();
    assert!(cfg.validate().is_ok());
    assert_eq!(cfg.network.base_url, "https://api.elten.link");
    assert_eq!(cfg.network.user_agent, "EltenScraper/0.1.0");
    assert_eq!(f64::from_bits(cfg.scrape.requests_per_second), 5.0);
    assert!(cfg.scrape.is_paced());
    assert_eq!(cfg.bench.concurrency_levels, vec![1, 2, 4, 8]);
    assert_eq!(cfg.media.max_audio_mb, 64);
    assert_eq!(cfg.media.max_attachment_mb, 256);
    assert_eq!(cfg.storage.database, "data/elten.db");
    assert_eq!(cfg.selection.mode, "all");
}

#[test]
fn faulty_settings_are_refused() {
    let mut cfg = Config::default();
    cfg.scrape.thread_concurrency = 0;
    cfg.scrape.audio_concurrency = 0;
    let e = cfg.validate().unwrap_err();
    assert!(matches!(e, ConfigError::ThreadConcurrency));
    assert_eq!(e.text(), "scrape.thread_concurrency must be at least 1");

    cfg.scrape.thread_concurrency = 1;
    let e = cfg.validate().unwrap_err();
    assert!(matches!(e, ConfigError::AudioConcurrency));
    assert_eq!(e.text(), "scrape.audio_concurrency must be at least 1");

    cfg.scrape.audio_concurrency = 1;
    cfg.scrape.requests_per_second = (-0.5f64).to_bits();
    let e = cfg.validate().unwrap_err();
    assert!(matches!(e, ConfigError::NegativeRate));
    assert_eq!(e.text(), "scrape.requests_per_second cannot be negative");

    cfg.scrape.requests_per_second = 0.0f64.to_bits();
    cfg.selection.mode = "some".to_string();
    let e = cfg.validate().unwrap_err();
    assert_eq!(
        e.text(),
        "selection.mode must be one of: all, groups, forums, exclude (got \"some\")"
    );
}

#[test]
fn rates_are_judged_as_doubles() {
    for rate in [0.0, -0.0, 5.0, 1e-300, f64::MAX, f64::INFINITY, f64::NAN, -f64::NAN] {
        let mut cfg = Config::default();
        cfg.scrape.requests_per_second = rate.to_bits();
        assert!(cfg.validate().is_ok(), "{rate}");
        assert_eq!(cfg.scrape.is_paced(), rate > 0.0, "{rate}");
    }
    for rate in [-1e-300, -5.0, f64::MIN, f64::NEG_INFINITY] {
        let mut cfg = Config::default();
        cfg.scrape.requests_per_second = rate.to_bits();
        assert!(cfg.validate().is_err(), "{rate}");
        assert!(!cfg.scrape.is_paced(), "{rate}");
    }
}

#[test]
fn every_mode_is_accepted() {
    for mode in ["all", "groups", "forums", "exclude"] {
        let mut cfg = Config::default();
        cfg.selection.mode = mode.to_string();
        assert!(cfg.validate().is_ok());
    }
}

#[test]
fn progress_can_be_switched_off() {
    let mut ui = Ui {
        progress: "plain".to_string(),
        progress_step_percent: 5,
        progress_interval_secs: 30,
    };
    assert!(ui.progress_enabled());
    ui.progress = "none".to_string();
    assert!(!ui.progress_enabled());
}
