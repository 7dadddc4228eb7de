use elten_scraper::api::{
    auth_params, backoff_ms, base_url, delay_ms, query, redact, scrub, unwrap_envelope, url,
    ApiError, Download, DownloadError, Failure, RateLimiter, Reply, Retry, Session, Setback, Step,
};
use elten_scraper::json::Json;

fn json(text: &str) -> Json {
    Json::parse(text).unwrap()
}

fn session() -> Option<Session> {
    Some(Session { name: "n".to_string(), token: "t".to_string() })
}

fn pair(name: &str, value: &str) -> (String, String) {
    (name.to_string(), value.to_string())
}

#[test]
fn credentials_are_redacted() {
    assert_eq!(
        redact("https://x/y?name=bob&token=abc&page=2"),
        "https://x/y?name=[REDACTED]&token=[REDACTED]&page=2"
    );
    assert_eq!(redact("/p?TOKEN=a=b&autotoken=x&Password=y"), "/p?TOKEN=[REDACTED]&autotoken=[REDACTED]&Password=[REDACTED]");
    assert_eq!(redact("/p?q=token=1"), "/p?q=token=1");
    assert_eq!(redact(""), "");
    // The second and later separators are written as ampersands.
    assert_eq!(redact("/a?b?c"), "/a?b&c");
    assert_eq!(redact("/a&b"), "/a?b");
}

#[test]
fn redacted_urls_do_not_depend_on_the_credentials() {
    let a = redact("/p?name=alice&token=abc&x=1");
    let b = redact("/p?name=bob&token=other&x=1");
    assert_eq!(a, b);
}

#[test]
fn paths_lead_below_the_base() {
    let base = base_url("https://api.elten.link//");
    assert_eq!(base, "https://api.elten.link");
    assert_eq!(url(&base, "/api/v1/forum"), "https://api.elten.link/api/v1/forum");
    assert_eq!(url(&base, "api"), "https://api.elten.link/api");
    assert_eq!(url(&base, "http://other/x"), "http://other/x");
    assert_eq!(url(&base, "https://other/x"), "https://other/x");
    assert_eq!(url(&base, "ftp://x"), "https://api.elten.link/ftp://x");
}

#[test]
fn a_session_travels_before_the_parameters() {
    assert!(auth_params(&None).is_empty());
    assert_eq!(auth_params(&session()), vec![pair("name", "n"), pair("token", "t")]);
    assert_eq!(
        query(&session(), &vec![pair("ident", "i")]),
        vec![pair("name", "n"), pair("token", "t"), pair("ident", "i")]
    );
    assert_eq!(query(&None, &vec![pair("ident", "i")]), vec![pair("ident", "i")]);
}

#[test]
fn the_envelope_delivers_its_data() {
    let data = unwrap_envelope(&json(r#"{"success": "1", "data": {"a": 1}}"#), "/p").unwrap();
    assert_eq!(data.encode(), r#"{"a":1}"#);
    let data = unwrap_envelope(&json(r#"{"success": true}"#), "/p").unwrap();
    assert_eq!(data.encode(), "{}");
}

#[test]
fn the_envelope_reports_errors() {
    let error = |text: &str| unwrap_envelope(&json(text), "/p?token=x").unwrap_err();
    let e = error(r#"{"success": 0, "error": {"code": "c", "message": "m"}}"#);
    assert_eq!((e.code.as_str(), e.message.as_str()), ("c", "m"));
    assert_eq!(e.text(), "m (c)");
    let e = error(r#"{"error": {}}"#);
    assert_eq!(e.text(), "request to /p?token=[REDACTED] failed (api_error)");
    let e = error(r#"{"error": [1]}"#);
    assert_eq!(e.text(), "[1] (api_error)");
    let e = error(r#"{"error": "no"}"#);
    assert_eq!(e.text(), "\"no\" (api_error)");
    let e = error("{}");
    assert_eq!(e.text(), "request failed (api_error)");
}

#[test]
fn failures_read_as_sentences() {
    let s = |x: &str| x.to_string();
    let api = Failure::Api(ApiError { code: s("c"), message: s("m") });
    assert_eq!(api.text(), "m (c)");
    assert_eq!(api.api_code(), Some(s("c")));
    let http = Failure::Http { status: 404, url: s("/u"), excerpt: s("gone") };
    assert_eq!(http.text(), "HTTP 404 from /u - gone");
    assert_eq!(http.api_code(), None);
    let invalid = Failure::InvalidJson { url: s("/u"), detail: s("d") };
    assert_eq!(invalid.text(), "invalid JSON from /u: d");
    let broken = Failure::Transport { url: s("/u"), cause: s("d") };
    assert_eq!(broken.text(), "requesting /u: d");
    let download = Failure::Download { url: s("/u"), cause: s("d") };
    assert_eq!(download.text(), "downloading /u: d");
    assert_eq!(Failure::Other(s("x")).text(), "x");
}

fn answered(status: u16, body: &str) -> Reply {
    Reply::Answered { status, body: body.to_string() }
}

#[test]
fn successful_answers_are_delivered() {
    let mut retry = Retry::new(4);
    match retry.on_reply("/u", &answered(200, "[1]")) {
        Step::Deliver(v) => assert_eq!(v.encode(), "[1]"),
        other => panic!("{other:?}"),
    }
    match retry.on_reply("/u?token=x", &answered(204, "")) {
        Step::Fail(f) => assert_eq!(
            f.text(),
            "invalid JSON from /u?token=[REDACTED]: EOF while parsing a value at line 1 column 0"
        ),
        other => panic!("{other:?}"),
    }
    assert_eq!(retry.attempt, 0);
}

#[test]
fn busy_servers_are_asked_again() {
    for status in [429, 500, 503, 599] {
        let mut retry = Retry::new(2);
        assert!(matches!(retry.on_reply("/u", &answered(status, "")), Step::Again));
        assert!(matches!(retry.on_reply("/u", &answered(status, "")), Step::Again));
        assert_eq!(retry.attempt, 2);
        match retry.on_reply("/u", &answered(status, "down")) {
            Step::Fail(f) => assert_eq!(f.text(), format!("HTTP {status} from /u - down")),
            other => panic!("{other:?}"),
        }
    }
}

#[test]
fn refusals_are_final() {
    for status in [301, 400, 404, 428, 600] {
        let mut retry = Retry::new(9);
        let body = "é".repeat(300);
        match retry.on_reply("/u", &answered(status, &body)) {
            Step::Fail(Failure::Http { excerpt, .. }) => assert_eq!(excerpt, "é".repeat(200)),
            other => panic!("{other:?}"),
        }
        assert_eq!(retry.attempt, 0);
    }
}

#[test]
fn broken_connections_are_tried_again() {
    let mut retry = Retry::new(1);
    let broken = Reply::Broken { cause: "reset".to_string() };
    assert!(matches!(retry.on_reply("/u", &broken), Step::Again));
    match retry.on_reply("/u?name=x", &broken) {
        Step::Fail(f) => assert_eq!(f.text(), "requesting /u?name=[REDACTED]: reset"),
        other => panic!("{other:?}"),
    }
}

#[test]
fn messages_lose_their_credentials() {
    assert_eq!(
        scrub("error sending request for url (https://x/y?name=bob&token=T0k-1.*%2F&p=2): reset"),
        "error sending request for url (https://x/y?name=[REDACTED]&token=[REDACTED]&p=2): reset"
    );
    assert_eq!(scrub("(https://x?p=1&token=abc): reset"), "(https://x?p=1&token=[REDACTED] reset");
    assert_eq!(
        scrub("\"Token=abc\" (password=x) AutoToken=y"),
        "\"Token=[REDACTED] (password=[REDACTED] AutoToken=[REDACTED]"
    );
    assert_eq!(scrub("plain message, no secret: a=b"), "plain message, no secret: a=b");
    assert_eq!(scrub("#token=a=b"), "#token=[REDACTED]");
    assert_eq!(scrub(""), "");
    // Nothing depends on the value, and scrubbing again changes nothing.
    let a = scrub("GET (https://x?name=alice&token=one) failed");
    let b = scrub("GET (https://x?name=bob&token=two) failed");
    assert_eq!(a, b);
    assert_eq!(scrub(&a), a);
}

#[test]
fn the_session_stays_out_of_failures() {
    let cause = "error sending request for url (https://x/y?name=n&token=S3ss10n): dns error";
    let mut retry = Retry::new(0);
    match retry.on_reply("https://x/y", &Reply::Broken { cause: cause.to_string() }) {
        Step::Fail(f) => {
            assert!(!f.text().contains("S3ss10n"));
            assert!(f.text().starts_with("requesting https://x/y: error sending request"));
        }
        other => panic!("{other:?}"),
    }
    let f = retry.on_download_error("https://x/y", &Setback::Network(cause.to_string())).unwrap();
    assert!(!f.text().contains("S3ss10n"));
}

#[test]
fn passing_setbacks_of_downloads_are_tried_again() {
    for setback in [
        Setback::Refused(DownloadError::Http { status: 429 }),
        Setback::Refused(DownloadError::Http { status: 503 }),
        Setback::Network("reset".to_string()),
    ] {
        let mut retry = Retry::new(1);
        assert!(retry.on_download_error("/u", &setback).is_none());
        assert_eq!(retry.attempt, 1);
        let f = retry.on_download_error("/u?token=x", &setback).unwrap();
        assert_eq!(f.text(), format!("downloading /u?token=[REDACTED]: {}", setback.text()));
        assert_eq!(retry.attempt, 1);
    }
}

#[test]
fn refused_downloads_are_not_tried_again() {
    for (setback, text) in [
        (Setback::Refused(DownloadError::Http { status: 404 }), "HTTP 404"),
        (
            Setback::Refused(DownloadError::Announced { bytes: 11 }),
            "file is 11 bytes, over the configured size limit",
        ),
        (
            Setback::Refused(DownloadError::Exceeded),
            "exceeded the configured size limit mid-download",
        ),
        (Setback::Local("creating a.part: denied".to_string()), "creating a.part: denied"),
    ] {
        let mut retry = Retry::new(4);
        let f = retry.on_download_error("/u", &setback).unwrap();
        assert_eq!(f.text(), format!("downloading /u: {text}"));
        assert_eq!(retry.attempt, 0);
    }
}

#[test]
fn no_jitter_passes_the_ceiling() {
    assert_eq!(delay_ms(575, 30_000), 575);
    assert_eq!(delay_ms(34_500, 30_000), 30_000);
    assert_eq!(delay_ms(30_000, 30_000), 30_000);
    assert_eq!(delay_ms(1, 0), 1);
    assert_eq!(delay_ms(0, 0), 0);
}

#[test]
fn delays_double_up_to_the_ceiling() {
    let delays: Vec<u64> = (0..9).map(|n| backoff_ms(500, 30_000, n)).collect();
    assert_eq!(delays, vec![500, 500, 1000, 2000, 4000, 8000, 16000, 30000, 30000]);
    assert_eq!(backoff_ms(0, 30_000, 3), 1);
    assert_eq!(backoff_ms(500, 0, 3), 1);
    assert_eq!(backoff_ms(1, u64::MAX, 40), 32768);
    assert_eq!(backoff_ms(u64::MAX, u64::MAX, 40), u64::MAX);
}

#[test]
fn requests_are_spaced_by_the_interval() {
    let mut limiter = RateLimiter::new(Some(200), 1000);
    assert_eq!(limiter.acquire(1000), 0);
    assert_eq!(limiter.acquire(1000), 200);
    assert_eq!(limiter.acquire(1100), 300);
    // A pause is not saved up.
    assert_eq!(limiter.acquire(5000), 0);
    assert_eq!(limiter.acquire(5001), 199);
    let mut free = RateLimiter::new(None, 0);
    assert_eq!(free.acquire(u64::MAX), 0);
}

#[test]
fn downloads_are_counted_and_digested() {
    let mut d = Download::begin(200, Some(3), 3).unwrap_or_else(|e| panic!("{e:?}"));
    assert!(d.chunk(b"a").is_ok());
    assert!(d.chunk(b"bc").is_ok());
    let (bytes, sha) = d.finish();
    assert_eq!(bytes, 3);
    assert_eq!(sha, "ba7816bf8f01cfea414140de5dae2223b00361a396177a9cb410ff61f20015ad");
}

#[test]
fn large_downloads_are_given_up() {
    assert_eq!(Download::begin(404, None, 0).err(), Some(DownloadError::Http { status: 404 }));
    assert_eq!(
        Download::begin(200, Some(11), 10).err(),
        Some(DownloadError::Announced { bytes: 11 })
    );
    let mut d = Download::begin(206, None, 2).unwrap_or_else(|e| panic!("{e:?}"));
    assert!(d.chunk(b"ab").is_ok());
    assert_eq!(d.chunk(b"c"), Err(DownloadError::Exceeded));
    // No limit.
    assert!(Download::begin(200, Some(u64::MAX), 0).is_ok());
    assert_eq!(DownloadError::Http { status: 404 }.text(), "HTTP 404");
    assert_eq!(
        DownloadError::Announced { bytes: 11 }.text(),
        "file is 11 bytes, over the configured size limit"
    );
    assert_eq!(
        DownloadError::Exceeded.text(),
        "exceeded the configured size limit mid-download"
    );
}
