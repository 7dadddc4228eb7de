use elten_scraper::api::{ApiError, Failure, Session};
use elten_scraper::auth::{
    base_params, configured_name, device_id, establish, keep, read_session, refusal_text, Action,
    CachedSession, Credentials, Event, Login, Stage, Standing,
};
use elten_scraper::config::{Auth, Network};
use elten_scraper::json::Json;

fn json(text: &str) -> Json {
    Json::parse(text).unwrap()
}

fn credentials() -> Credentials {
    Credentials {
        network: Network::default(),
        appid: "app".to_string(),
        username: "bob".to_string(),
        password: "pw".to_string(),
    }
}

fn challenge() -> Event {
    Event::Answered(Err(Failure::Api(ApiError {
        code: "auth.two_factor_required".to_string(),
        message: "m".to_string(),
    })))
}

fn refusal() -> Event {
    Event::Answered(Err(Failure::Api(ApiError {
        code: "auth.invalid".to_string(),
        message: "m".to_string(),
    })))
}

fn granted() -> Event {
    Event::Answered(Ok(json(r#"{"token": "tok", "name": "Bob"}"#)))
}

fn started() -> Login {
    Login::start(credentials()).0
}

fn value<'a>(params: &'a [(String, String)], name: &str) -> Option<&'a str> {
    params.iter().find(|p| p.0 == name).map(|p| p.1.as_str())
}

#[test]
fn a_stored_device_id_is_kept() {
    let d = device_id(&Some("  abc\n".to_string()));
    assert_eq!((d.id.as_str(), d.fresh), ("abc", false));
}

#[test]
fn a_missing_device_id_is_made_up() {
    for stored in [None, Some(String::new()), Some(" \n".to_string())] {
        let d = device_id(&stored);
        assert!(d.fresh);
        assert_eq!(d.id.len(), 32);
        assert!(d.id.chars().all(|c| c.is_ascii_alphanumeric()));
    }
    assert_ne!(device_id(&None).id, device_id(&None).id);
}

#[test]
fn cached_sessions_need_name_and_token() {
    let session = Session { name: "n".to_string(), token: "t".to_string() };
    let cached = CachedSession::of(&session, 5, "app");
    assert_eq!((cached.issued_at, cached.appid.as_str()), (5, "app"));
    let back = cached.clone().session().unwrap();
    assert_eq!((back.name.as_str(), back.token.as_str()), ("n", "t"));
    let mut nameless = cached.clone();
    nameless.name = String::new();
    assert!(nameless.session().is_none());
    let mut tokenless = cached;
    tokenless.token = String::new();
    assert!(tokenless.session().is_none());
}

#[test]
fn a_required_session_must_be_there() {
    let session = Session { name: "n".to_string(), token: "t".to_string() };
    assert!(matches!(establish(Some(session), true), Ok(Standing::Authenticated(s)) if s.name == "n"));
    assert!(matches!(establish(None, false), Ok(Standing::Anonymous)));
    let e = establish(None, true).unwrap_err();
    assert_eq!(
        e.text(),
        "auth.require_auth is set but no session is cached - run `elten-scraper login` first"
    );
}

#[test]
fn the_user_name_is_asked_for_once() {
    let mut auth = Auth::default();
    assert!(configured_name(&auth).is_none());
    auth.username = "  ".to_string();
    assert!(configured_name(&auth).is_none());
    auth.username = " bob".to_string();
    assert_eq!(configured_name(&auth).unwrap(), " bob");
}

#[test]
fn a_login_tells_what_logs_in() {
    let mut network = Network::default();
    network.version_string = "elten ß".to_string();
    let params = base_params(&network, "app", "bob", "list");
    let names: Vec<&str> = params.iter().map(|p| p.0.as_str()).collect();
    assert_eq!(
        names,
        vec![
            "name",
            "version_string",
            "version_isdevelopment",
            "version_islauncher",
            "appid",
            "lang",
            "language",
            "os",
            "authmethod"
        ]
    );
    assert_eq!(value(&params, "version_string"), Some("ELTEN SS"));
    assert_eq!(value(&params, "os"), Some("windows"));
    assert_eq!(value(&params, "authmethod"), Some("list"));
}

#[test]
fn answers_without_token_are_no_session() {
    let s = read_session(&json(r#"{"token": "t"}"#), "bob").unwrap();
    assert_eq!((s.name.as_str(), s.token.as_str()), ("bob", "t"));
    let s = read_session(&json(r#"{"token": "t", "name": "Bob"}"#), "bob").unwrap();
    assert_eq!(s.name, "Bob");
    let e = read_session(&json("{}"), "bob").unwrap_err();
    assert_eq!(e.text(), "the server accepted the login but returned no session token");
}

#[test]
fn a_plain_login_takes_one_form() {
    let (mut login, form) = Login::start(credentials());
    assert_eq!(form.path, "/api/v1/session");
    assert_eq!(value(&form.params, "authmethod"), Some("list"));
    assert_eq!(value(&form.params, "password"), Some("pw"));
    match login.next(granted()) {
        Action::Succeed(s) => assert_eq!((s.name.as_str(), s.token.as_str()), ("Bob", "tok")),
        other => panic!("{other:?}"),
    }
    assert_eq!(login.stage, Stage::Over);
    assert!(matches!(login.next(granted()), Action::Ignore));
}

#[test]
fn what_is_kept_does_not_depend_on_the_password() {
    let kept = |password: &str| {
        let mut c = credentials();
        c.password = password.to_string();
        let (mut login, _) = Login::start(c);
        match login.next(granted()) {
            Action::Succeed(s) => keep(&s, "bob", &Auth::default(), "app", 5),
            other => panic!("{other:?}"),
        }
    };
    let (a, b) = (kept("one"), kept("two"));
    assert_eq!(format!("{a:?}"), format!("{b:?}"));
    assert_eq!((a.cached.name.as_str(), a.cached.token.as_str()), ("Bob", "tok"));
    assert_eq!(a.username.unwrap(), "bob");

    let mut auth = Auth::default();
    auth.username = "bob".to_string();
    let session = Session { name: "Bob".to_string(), token: "tok".to_string() };
    assert!(keep(&session, "bob", &auth, "app", 5).username.is_none());
}

#[test]
fn a_refused_login_fails() {
    let mut login = started();
    assert!(matches!(login.next(refusal()), Action::Fail(f) if f.text() == "m (auth.invalid)"));
    let mut login = started();
    assert!(matches!(
        login.next(Event::Answered(Ok(json("{}")))),
        Action::Fail(Failure::Other(_))
    ));
}

#[test]
fn a_text_message_completes_the_login() {
    let mut login = started();
    assert!(matches!(login.next(challenge()), Action::Choose));
    match login.next(Event::ChoseSms) {
        Action::Post(form) => {
            assert_eq!(form.path, "/api/v1/session");
            assert_eq!(value(&form.params, "authmethod"), Some("phone"));
        }
        other => panic!("{other:?}"),
    }
    assert!(matches!(login.next(challenge()), Action::Ask { sms: true }));
    match login.next(Event::Typed(" 123 ".to_string())) {
        Action::Post(form) => {
            assert_eq!(form.path, "/api/v1/authentication/authorizations");
            assert_eq!(
                form.params,
                vec![
                    ("appid".to_string(), "app".to_string()),
                    ("name".to_string(), "bob".to_string()),
                    ("code".to_string(), "123".to_string())
                ]
            );
        }
        other => panic!("{other:?}"),
    }
    match login.next(Event::Answered(Ok(json("{}")))) {
        Action::Post(form) => assert_eq!(value(&form.params, "authmethod"), Some("list")),
        other => panic!("{other:?}"),
    }
    assert!(matches!(login.next(granted()), Action::Succeed(_)));
}

#[test]
fn asking_for_a_text_message_may_already_log_in() {
    let mut login = started();
    login.next(challenge());
    login.next(Event::ChoseSms);
    assert!(matches!(login.next(granted()), Action::Succeed(_)));
    let mut login = started();
    login.next(challenge());
    login.next(Event::ChoseSms);
    assert!(matches!(login.next(refusal()), Action::Fail(_)));
}

#[test]
fn three_wrong_codes_are_enough() {
    let mut login = started();
    login.next(challenge());
    assert!(matches!(login.next(Event::ChoseBackupCode), Action::Ask { sms: false }));
    let mut posted = 0;
    for remaining in [3u8, 2] {
        assert!(matches!(login.next(Event::Typed("x".to_string())), Action::Post(_)));
        posted += 1;
        match login.next(refusal()) {
            Action::AskAgain { sms: false, remaining: n } => assert_eq!(n, remaining),
            other => panic!("{other:?}"),
        }
    }
    assert!(matches!(login.next(Event::Typed("x".to_string())), Action::Post(_)));
    posted += 1;
    assert!(matches!(login.next(refusal()), Action::GiveUp(f) if f.text() == "m (auth.invalid)"));
    assert!(matches!(login.next(Event::Typed("x".to_string())), Action::Ignore));
    assert_eq!(posted, 3);
    assert_eq!(refusal_text(3), "  That code was not accepted (3 attempts left).");
}

#[test]
fn a_second_challenge_after_a_code_fails() {
    let mut login = started();
    login.next(challenge());
    login.next(Event::ChoseBackupCode);
    login.next(Event::Typed("x".to_string()));
    login.next(Event::Answered(Ok(json("{}"))));
    assert_eq!(login.stage, Stage::Last);
    assert!(matches!(login.next(challenge()), Action::Fail(_)));
}
