//! Optional authentication.
//!
//! The public forum reads fine anonymously, so this is only needed to reach
//! private or hidden groups your account belongs to - or when
//! `auth.require_auth` is set, in which case the scrape refuses to start
//! without a session.
//!
//! Login mirrors the desktop client's flow: POST the credentials, and if the
//! server answers `auth.two_factor_required`, satisfy the challenge (SMS or a
//! backup code) against the device id and retry. [`Login`] decides each step;
//! the caller sends the requests and asks the user.

use rand::Rng;
use vstd::prelude::*;

use crate::api::{param, params_view, ApiError, Failure, Session};
use crate::config::{Auth, Network};
use crate::json::{Json, JsonV};
use crate::model::{gives_text, str_field, str_of};
use crate::text::{
    decimal, is_alnum, lemma_trimmed_whole, nat_text, same, to_upper, trim, trimmed,
    trimming_takes_only_outer_space, uppercased,
};

verus! {

// ---------------------------------------------------------------------------
// The device id
// ---------------------------------------------------------------------------

/// How many characters a device id has.
pub const APPID_LEN: usize = 32;

/// Collects samples of `rand::distributions::Alphanumeric` from
/// `rand::thread_rng`. Claimed: there are as many as asked for, each an ASCII
/// letter or digit; which ones is left to chance.
#[verifier::external_body]
fn random_text(len: usize) -> (r: String)
    ensures
        r@.len() == len,
        forall|i: int| 0 <= i < r@.len() ==> is_alnum(#[trigger] r@[i]),
{
    rand::thread_rng().sample_iter(&rand::distributions::Alphanumeric).take(len).map(
        char::from,
    ).collect()
}

/// A device id.
#[derive(Debug, Clone)]
pub struct DeviceId {
    pub id: String,
    /// Whether it was made just now and has to be stored.
    pub fresh: bool,
}

/// Whether `r` is the device id for what is stored: that one, or else a fresh one.
pub open spec fn identifies(stored: Option<Seq<char>>, r: DeviceId) -> bool {
    if stored is Some && trimmed(stored->0).len() > 0 {
        r.id@ == trimmed(stored->0) && !r.fresh
    } else {
        &&& r.fresh
        &&& r.id@.len() == APPID_LEN
        &&& forall|i: int| 0 <= i < r.id@.len() ==> is_alnum(#[trigger] r.id@[i])
    }
}

/// A stable per-installation device id. The server ties device authorisations
/// to it, so regenerating it would trigger a fresh 2FA challenge every run.
/// `stored` is what the file of the device id holds, if it can be read.
pub fn device_id(stored: &Option<String>) -> (r: DeviceId)
    ensures
        match stored {
            Some(text) => trimmed(text@).len() > 0 ==> r.id@ == trimmed(text@) && !r.fresh,
            None => true,
        },
        (stored is None || trimmed(stored->0@).len() == 0) ==> {
            &&& r.fresh
            &&& r.id@.len() == APPID_LEN
            &&& forall|i: int| 0 <= i < r.id@.len() ==> is_alnum(#[trigger] r.id@[i])
        },
        identifies(
            match stored {
                Some(text) => Some(text@),
                None => None,
            },
            r,
        ),
{
    if let Some(text) = stored {
        let id = trim(text.as_str());
        if !id.as_str().is_empty() {
            return DeviceId { id, fresh: false };
        }
    }
    DeviceId { id: random_text(APPID_LEN), fresh: true }
}

// ---------------------------------------------------------------------------
// The cached session
// ---------------------------------------------------------------------------

/// What is cached of a session. Never contains a password.
#[derive(Debug, Clone)]
pub struct CachedSession {
    pub name: String,
    pub token: String,
    pub issued_at: i64,
    pub appid: String,
}

/// What is cached of a session, by its contents.
pub struct CachedSessionV {
    pub name: Seq<char>,
    pub token: Seq<char>,
    pub issued_at: int,
    pub appid: Seq<char>,
}

/// The name and token of the session that was cached, if both are there.
pub open spec fn restored(c: CachedSessionV) -> Option<(Seq<char>, Seq<char>)> {
    if c.name.len() == 0 || c.token.len() == 0 {
        None
    } else {
        Some((c.name, c.token))
    }
}

/// What is cached of a session.
pub open spec fn cached_of(session: Session, issued_at: int, appid: Seq<char>) -> CachedSessionV {
    CachedSessionV { name: session.name@, token: session.token@, issued_at, appid }
}

impl CachedSession {
    pub open spec fn view(&self) -> CachedSessionV {
        CachedSessionV {
            name: self.name@,
            token: self.token@,
            issued_at: self.issued_at as int,
            appid: self.appid@,
        }
    }

    /// What to cache of a session.
    pub fn of(session: &Session, issued_at: i64, appid: &str) -> (r: Self)
        ensures
            r@ == (CachedSessionV {
                name: session.name@,
                token: session.token@,
                issued_at: issued_at as int,
                appid: appid@,
            }),
            r@ == cached_of(*session, issued_at as int, appid@),
    {
        Self {
            name: session.name.clone(),
            token: session.token.clone(),
            issued_at,
            appid: String::from_str(appid),
        }
    }

    /// The session that was cached, if name and token are there.
    pub fn session(self) -> (r: Option<Session>)
        ensures
            match r {
                Some(s) => self.name@.len() > 0 && self.token@.len() > 0 && s.name@ == self.name@
                    && s.token@ == self.token@,
                None => self.name@.len() == 0 || self.token@.len() == 0,
            },
            restored(self@) == (match r {
                Some(s) => Some((s.name@, s.token@)),
                None => None,
            }),
    {
        if self.name.as_str().is_empty() || self.token.as_str().is_empty() {
            return None;
        }
        Some(Session { name: self.name, token: self.token })
    }
}

/// How a scrape runs.
#[derive(Debug)]
pub enum Standing {
    Authenticated(Session),
    /// Public forums only.
    Anonymous,
}

/// Whether `r` is how a scrape runs with the session that is cached, if there is one.
pub open spec fn runs_as(
    cached: Option<Session>,
    require_auth: bool,
    r: Result<Standing, Failure>,
) -> bool {
    match cached {
        Some(session) => r == Ok::<Standing, Failure>(Standing::Authenticated(session)),
        None => if require_auth {
            r is Err
        } else {
            r == Ok::<Standing, Failure>(Standing::Anonymous)
        },
    }
}

/// The user name to log in with, if one is configured.
pub open spec fn name_to_use(configured: Seq<char>) -> Option<Seq<char>> {
    if trimmed(configured).len() == 0 {
        None
    } else {
        Some(configured)
    }
}

/// Whether the scrape runs authenticated, given the cached session if there is
/// one. Fails when a session is required and none is there.
pub fn establish(cached: Option<Session>, require_auth: bool) -> (r: Result<Standing, Failure>)
    ensures
        match cached {
            Some(session) => r == Ok::<Standing, Failure>(Standing::Authenticated(session)),
            None => if require_auth {
                r matches Err(Failure::Other(text)) && text@
                    == "auth.require_auth is set but no session is cached - run `elten-scraper login` first"@
            } else {
                r == Ok::<Standing, Failure>(Standing::Anonymous)
            },
        },
        runs_as(cached, require_auth, r),
{
    match cached {
        Some(session) => Ok(Standing::Authenticated(session)),
        None => if require_auth {
            Err(
                Failure::Other(
                    String::from_str(
                        "auth.require_auth is set but no session is cached - run `elten-scraper login` first",
                    ),
                ),
            )
        } else {
            Ok(Standing::Anonymous)
        },
    }
}

/// The configured user name, if there is one; it has to be asked for otherwise.
pub fn configured_name(auth: &Auth) -> (r: Option<String>)
    ensures
        match r {
            Some(name) => trimmed(auth.username@).len() > 0 && name@ == auth.username@,
            None => trimmed(auth.username@).len() == 0,
        },
        name_to_use(auth.username@) == (match r {
            Some(name) => Some(name@),
            None => None,
        }),
{
    if trim(auth.username.as_str()).as_str().is_empty() {
        None
    } else {
        Some(auth.username.clone())
    }
}

// ---------------------------------------------------------------------------
// Requests
// ---------------------------------------------------------------------------

/// A form to post.
#[derive(Debug)]
pub struct Form {
    pub path: String,
    pub params: Vec<(String, String)>,
}

impl Form {
    pub open spec fn view(&self) -> (Seq<char>, Seq<(Seq<char>, Seq<char>)>) {
        (self.path@, params_view(self.params@))
    }
}

/// What a client tells of itself and of the user when logging in.
pub open spec fn client_params(
    network: Network,
    appid: Seq<char>,
    username: Seq<char>,
    authmethod: Seq<char>,
) -> Seq<(Seq<char>, Seq<char>)> {
    seq![
        ("name"@, username),
        ("version_string"@, uppercased(network.version_string@)),
        ("version_isdevelopment"@, "0"@),
        ("version_islauncher"@, "0"@),
        ("appid"@, appid),
        ("lang"@, network.language@),
        ("language"@, network.language@),
        ("os"@, network.os@),
        ("authmethod"@, authmethod),
    ]
}

pub fn base_params(network: &Network, appid: &str, username: &str, authmethod: &str) -> (r: Vec<
    (String, String),
>)
    ensures
        params_view(r@) == client_params(*network, appid@, username@, authmethod@),
{
    let version = to_upper(network.version_string.as_str());
    let language = network.language.as_str();
    let out: Vec<(String, String)> = vec![
        param("name", username),
        param("version_string", version.as_str()),
        param("version_isdevelopment", "0"),
        param("version_islauncher", "0"),
        param("appid", appid),
        param("lang", language),
        param("language", language),
        param("os", network.os.as_str()),
        param("authmethod", authmethod),
    ];
    assert(params_view(out@) =~= client_params(*network, appid@, username@, authmethod@));
    out
}

/// Who logs in, and from where.
#[derive(Debug)]
pub struct Credentials {
    pub network: Network,
    pub appid: String,
    pub username: String,
    pub password: String,
}

/// The form that asks for a session.
pub open spec fn session_form(c: Credentials, authmethod: Seq<char>) -> (
    Seq<char>,
    Seq<(Seq<char>, Seq<char>)>,
) {
    (
        "/api/v1/session"@,
        client_params(c.network, c.appid@, c.username@, authmethod).push(
            ("password"@, c.password@),
        ),
    )
}

/// The form that presents a code. It does not carry the password.
pub open spec fn code_form(c: Credentials, code: Seq<char>) -> (
    Seq<char>,
    Seq<(Seq<char>, Seq<char>)>,
) {
    (
        "/api/v1/authentication/authorizations"@,
        seq![("appid"@, c.appid@), ("name"@, c.username@), ("code"@, trimmed(code))],
    )
}

impl Credentials {
    pub fn session_form(&self, authmethod: &str) -> (r: Form)
        ensures
            r@ == session_form(*self, authmethod@),
    {
        let mut params = base_params(
            &self.network,
            self.appid.as_str(),
            self.username.as_str(),
            authmethod,
        );
        let ghost before = params@;
        params.push(param("password", self.password.as_str()));
        assert(params_view(params@) =~= params_view(before).push(("password"@, self.password@)));
        Form { path: String::from_str("/api/v1/session"), params }
    }

    pub fn code_form(&self, code: &str) -> (r: Form)
        ensures
            r@ == code_form(*self, code@),
    {
        let code = trim(code);
        let params: Vec<(String, String)> = vec![
            param("appid", self.appid.as_str()),
            param("name", self.username.as_str()),
            param("code", code.as_str()),
        ];
        assert(params_view(params@) =~= seq![
            ("appid"@, self.appid@),
            ("name"@, self.username@),
            ("code"@, code@),
        ]);
        Form { path: String::from_str("/api/v1/authentication/authorizations"), params }
    }
}

/// The session that a login answer grants: nothing without a token. The server
/// may correct the name.
pub open spec fn granted(data: JsonV, username: Seq<char>) -> Option<(Seq<char>, Seq<char>)> {
    if str_field(data, "token"@).len() == 0 {
        None
    } else if str_field(data, "name"@).len() == 0 {
        Some((username, str_field(data, "token"@)))
    } else {
        Some((str_field(data, "name"@), str_field(data, "token"@)))
    }
}

/// Read the answer to a login.
pub fn read_session(data: &Json, username: &str) -> (r: Result<Session, Failure>)
    ensures
        match r {
            Ok(s) => granted(data@, username@) == Some((s.name@, s.token@)),
            Err(Failure::Other(text)) => granted(data@, username@) is None && text@
                == "the server accepted the login but returned no session token"@,
            Err(_) => false,
        },
{
    let token = str_of(data, "token");
    if token.as_str().is_empty() {
        return Err(
            Failure::Other(
                String::from_str("the server accepted the login but returned no session token"),
            ),
        );
    }
    let returned = str_of(data, "name");
    let name = if returned.as_str().is_empty() {
        String::from_str(username)
    } else {
        returned
    };
    Ok(Session { name, token })
}

/// What a login leaves on disk, beside the device id that it was made from.
#[derive(Debug, Clone)]
pub struct Kept {
    pub cached: CachedSession,
    /// The user name, if it is not the configured one already.
    pub username: Option<String>,
}

/// What a login leaves on disk, by its contents.
pub struct KeptV {
    pub cached: CachedSessionV,
    pub username: Option<Seq<char>>,
}

impl Kept {
    pub open spec fn view(&self) -> KeptV {
        KeptV {
            cached: self.cached@,
            username: match self.username {
                Some(name) => Some(name@),
                None => None,
            },
        }
    }
}

/// What is kept of a login by `username` that was granted the given name and
/// token.
pub open spec fn kept_of(
    granted: (Seq<char>, Seq<char>),
    username: Seq<char>,
    configured: Seq<char>,
    appid: Seq<char>,
    issued_at: int,
) -> KeptV {
    KeptV {
        cached: CachedSessionV { name: granted.0, token: granted.1, issued_at, appid },
        username: if username == configured {
            None
        } else {
            Some(username)
        },
    }
}

/// What to keep of a login.
pub fn keep(
    session: &Session,
    username: &str,
    auth: &Auth,
    appid: &str,
    issued_at: i64,
) -> (r: Kept)
    ensures
        r@ == kept_of(
            (session.name@, session.token@),
            username@,
            auth.username@,
            appid@,
            issued_at as int,
        ),
{
    let username = if same(username, auth.username.as_str()) {
        None
    } else {
        Some(String::from_str(username))
    };
    Kept { cached: CachedSession::of(session, issued_at, appid), username }
}

// ---------------------------------------------------------------------------
// Logging in
// ---------------------------------------------------------------------------

/// How far a login has come.
#[derive(Debug, Clone, Copy, PartialEq, Eq, Structural)]
pub enum Stage {
    /// The credentials were sent.
    First,
    /// The user chooses how to authenticate.
    Choosing,
    /// A text message was asked for.
    Sending,
    /// The user types a code.
    Asking { sms: bool, remaining: u8 },
    /// The code was sent.
    Authorizing { sms: bool, remaining: u8 },
    /// The credentials were sent again.
    Last,
    Over,
}

/// What happened since the last step.
#[derive(Debug)]
pub enum Event {
    /// The server answered a form, or the request failed.
    Answered(Result<Json, Failure>),
    /// The user chose text messages.
    ChoseSms,
    /// The user chose a backup code.
    ChoseBackupCode,
    /// The user typed a code.
    Typed(String),
}

/// What to do next.
#[derive(Debug)]
pub enum Action {
    Post(Form),
    /// Ask how to authenticate.
    Choose,
    /// Ask for a code: from a text message just sent, or a backup code.
    Ask { sms: bool },
    /// Say that the last code was not accepted, and ask again.
    AskAgain { sms: bool, remaining: u8 },
    Succeed(Session),
    Fail(Failure),
    /// Fail because the last code was not accepted either.
    GiveUp(Failure),
    /// The event does not belong here.
    Ignore,
}

/// Whether a failure is the server's demand for a second factor.
pub open spec fn is_challenge(f: Failure) -> bool {
    f matches Failure::Api(e) && e.code@ == "auth.two_factor_required"@
}

fn challenged(f: &Failure) -> (r: bool)
    ensures
        r == is_challenge(*f),
{
    match f.api_code() {
        Some(code) => same(code.as_str(), "auth.two_factor_required"),
        None => false,
    }
}

/// The stage that follows an event.
pub open spec fn next_stage(stage: Stage, event: Event) -> Stage {
    match (stage, event) {
        (Stage::First, Event::Answered(Err(f))) => if is_challenge(f) {
            Stage::Choosing
        } else {
            Stage::Over
        },
        (Stage::Sending, Event::Answered(Err(f))) => if is_challenge(f) {
            Stage::Asking { sms: true, remaining: 3 }
        } else {
            Stage::Over
        },
        (Stage::Choosing, Event::ChoseSms) => Stage::Sending,
        (Stage::Choosing, Event::ChoseBackupCode) => Stage::Asking { sms: false, remaining: 3 },
        (Stage::Asking { sms, remaining }, Event::Typed(_)) => Stage::Authorizing {
            sms,
            remaining,
        },
        (Stage::Authorizing { sms, remaining }, Event::Answered(answer)) => if answer is Ok {
            Stage::Last
        } else if remaining <= 1 {
            Stage::Over
        } else {
            Stage::Asking { sms, remaining: (remaining - 1) as u8 }
        },
        (Stage::First, Event::Answered(Ok(_))) => Stage::Over,
        (Stage::Sending, Event::Answered(Ok(_))) => Stage::Over,
        (Stage::Last, Event::Answered(_)) => Stage::Over,
        _ => stage,
    }
}

/// Whether the answer to a login ends it in the given way.
pub open spec fn ends(c: Credentials, answer: Result<Json, Failure>, action: Action) -> bool {
    match answer {
        Ok(data) => match granted(data@, c.username@) {
            Some((name, token)) => action matches Action::Succeed(s) && s.name@ == name && s.token@
                == token,
            None => action matches Action::Fail(Failure::Other(text)) && text@
                == "the server accepted the login but returned no session token"@,
        },
        Err(f) => action == Action::Fail(f),
    }
}

/// Whether an action is the one that an event calls for.
pub open spec fn called_for(c: Credentials, stage: Stage, event: Event, action: Action) -> bool {
    match (stage, event) {
        (Stage::First, Event::Answered(answer)) => if answer matches Err(f) && is_challenge(f) {
            action is Choose
        } else {
            ends(c, answer, action)
        },
        // Asking for a text message is answered with the same challenge.
        (Stage::Sending, Event::Answered(answer)) => if answer matches Err(f) && is_challenge(f) {
            action == (Action::Ask { sms: true })
        } else {
            ends(c, answer, action)
        },
        (Stage::Choosing, Event::ChoseSms) => action matches Action::Post(form) && form@
            == session_form(c, "phone"@),
        (Stage::Choosing, Event::ChoseBackupCode) => action == (Action::Ask { sms: false }),
        (Stage::Asking { .. }, Event::Typed(code)) => action matches Action::Post(form) && form@
            == code_form(c, code@),
        (Stage::Authorizing { sms, remaining }, Event::Answered(answer)) => match answer {
            Ok(_) => action matches Action::Post(form) && form@ == session_form(c, "list"@),
            Err(f) => if remaining <= 1 {
                action == Action::GiveUp(f)
            } else {
                action == (Action::AskAgain { sms, remaining })
            },
        },
        (Stage::Last, Event::Answered(answer)) => ends(c, answer, action),
        _ => action is Ignore,
    }
}

/// A login under way.
#[derive(Debug)]
pub struct Login {
    pub credentials: Credentials,
    pub stage: Stage,
}

impl Login {
    /// Start by sending the credentials.
    pub fn start(credentials: Credentials) -> (r: (Login, Form))
        ensures
            r.0.credentials == credentials,
            r.0.stage == Stage::First,
            r.1@ == session_form(credentials, "list"@),
    {
        let form = credentials.session_form("list");
        (Login { credentials, stage: Stage::First }, form)
    }

    fn end(&self, answer: Result<Json, Failure>) -> (r: Action)
        ensures
            ends(self.credentials, answer, r),
    {
        match answer {
            Ok(data) => match read_session(&data, self.credentials.username.as_str()) {
                Ok(session) => Action::Succeed(session),
                Err(f) => Action::Fail(f),
            },
            Err(f) => Action::Fail(f),
        }
    }

    /// Take the next step.
    pub fn next(&mut self, event: Event) -> (r: Action)
        ensures
            final(self).credentials == old(self).credentials,
            final(self).stage == next_stage(old(self).stage, event),
            called_for(old(self).credentials, old(self).stage, event, r),
    {
        match (self.stage, event) {
            (Stage::First, Event::Answered(answer)) => {
                if let Err(f) = &answer {
                    if challenged(f) {
                        self.stage = Stage::Choosing;
                        return Action::Choose;
                    }
                }
                self.stage = Stage::Over;
                self.end(answer)
            },
            (Stage::Sending, Event::Answered(answer)) => {
                if let Err(f) = &answer {
                    if challenged(f) {
                        self.stage = Stage::Asking { sms: true, remaining: 3 };
                        return Action::Ask { sms: true };
                    }
                }
                self.stage = Stage::Over;
                self.end(answer)
            },
            (Stage::Choosing, Event::ChoseSms) => {
                self.stage = Stage::Sending;
                Action::Post(self.credentials.session_form("phone"))
            },
            (Stage::Choosing, Event::ChoseBackupCode) => {
                self.stage = Stage::Asking { sms: false, remaining: 3 };
                Action::Ask { sms: false }
            },
            (Stage::Asking { sms, remaining }, Event::Typed(code)) => {
                self.stage = Stage::Authorizing { sms, remaining };
                Action::Post(self.credentials.code_form(code.as_str()))
            },
            (Stage::Authorizing { sms, remaining }, Event::Answered(answer)) => match answer {
                Ok(_) => {
                    self.stage = Stage::Last;
                    Action::Post(self.credentials.session_form("list"))
                },
                Err(f) => if remaining <= 1 {
                    self.stage = Stage::Over;
                    Action::GiveUp(f)
                } else {
                    self.stage = Stage::Asking { sms, remaining: remaining - 1 };
                    Action::AskAgain { sms, remaining }
                },
            },
            (Stage::Last, Event::Answered(answer)) => {
                self.stage = Stage::Over;
                self.end(answer)
            },
            _ => Action::Ignore,
        }
    }
}

/// What is said when a code was not accepted.
pub fn refusal_text(remaining: u8) -> (r: String)
    ensures
        r@ == "  That code was not accepted ("@ + decimal(remaining as nat) + " attempts left)."@,
{
    String::from_str("  That code was not accepted (").concat(
        nat_text(remaining as u128).as_str(),
    ).concat(" attempts left).")
}

/// The stage after a number of events.
pub open spec fn stage_after(stage: Stage, events: Seq<Event>) -> Stage
    decreases events.len(),
{
    if events.len() == 0 {
        stage
    } else {
        next_stage(stage_after(stage, events.drop_last()), events.last())
    }
}

/// How many codes are presented to the server in the course of some events.
pub open spec fn codes_presented(stage: Stage, events: Seq<Event>) -> nat
    decreases events.len(),
{
    if events.len() == 0 {
        0
    } else {
        let before = stage_after(stage, events.drop_last());
        codes_presented(stage, events.drop_last()) + (if before is Asking && events.last() is Typed {
            1nat
        } else {
            0
        })
    }
}

/// How many codes may still be presented.
spec fn codes_left(stage: Stage) -> int {
    match stage {
        Stage::First => 3,
        Stage::Choosing => 3,
        Stage::Sending => 3,
        Stage::Asking { remaining, .. } => remaining as int,
        Stage::Authorizing { remaining, .. } => remaining - 1,
        Stage::Last => 0,
        Stage::Over => 0,
    }
}

/// However a login goes, at most three codes are presented.
pub proof fn at_most_three_codes_are_presented(events: Seq<Event>)
    ensures
        codes_presented(Stage::First, events) <= 3,
{
    lemma_codes(events);
}

proof fn lemma_codes(events: Seq<Event>)
    ensures
        ({
            let stage = stage_after(Stage::First, events);
            &&& codes_presented(Stage::First, events) + codes_left(stage) <= 3
            &&& codes_left(stage) >= 0
            &&& stage matches Stage::Asking { remaining, .. } ==> remaining >= 1
        }),
    decreases events.len(),
{
    if events.len() > 0 {
        lemma_codes(events.drop_last());
    }
}

/// Two users who are the same but for the password.
pub open spec fn same_but_password(a: Credentials, b: Credentials) -> bool {
    &&& a.network == b.network
    &&& a.appid@ == b.appid@
    &&& a.username@ == b.username@
}

/// The password is never written to disk: two logins that differ only in the
/// password and meet with the same events are at the same stage throughout,
/// succeed at the same event, and leave the same on disk. `x` and `y` are what
/// the two do about the event that follows `events`.
pub proof fn passwords_are_not_kept(
    a: Credentials,
    b: Credentials,
    events: Seq<Event>,
    event: Event,
    x: Action,
    y: Action,
    configured: Seq<char>,
    issued_at: int,
)
    requires
        same_but_password(a, b),
        called_for(a, stage_after(Stage::First, events), event, x),
        called_for(b, stage_after(Stage::First, events), event, y),
    ensures
        x is Succeed <==> y is Succeed,
        x is Succeed ==> kept_of(
            (x->Succeed_0.name@, x->Succeed_0.token@),
            a.username@,
            configured,
            a.appid@,
            issued_at,
        ) == kept_of(
            (y->Succeed_0.name@, y->Succeed_0.token@),
            b.username@,
            configured,
            b.appid@,
            issued_at,
        ),
        stage_after(Stage::First, events) is Asking && event is Typed ==> (
        x matches Action::Post(f) && y matches Action::Post(g) && f@ == g@),
{
}

/// A login that is over stays over.
pub proof fn finished_logins_stay_finished(event: Event)
    ensures
        next_stage(Stage::Over, event) == Stage::Over,
{
}

/// A session is only ever one that the server granted, with a token.
pub proof fn sessions_are_granted_by_the_server(
    c: Credentials,
    stage: Stage,
    event: Event,
    action: Action,
)
    requires
        called_for(c, stage, event, action),
        action is Succeed,
    ensures
        event matches Event::Answered(Ok(data)) && action->Succeed_0.token@.len() > 0
            && action->Succeed_0.token@ == str_field(data@, "token"@),
{
}

/// What a client tells of itself when logging in: nine parameters, each with what
/// it is named after, the version in upper case.
pub proof fn clients_tell_who_they_are(
    network: Network,
    appid: Seq<char>,
    username: Seq<char>,
    authmethod: Seq<char>,
)
    ensures
        ({
            let params = client_params(network, appid, username, authmethod);
            &&& params.len() == 9
            &&& params.contains(("name"@, username))
            &&& params.contains(("version_string"@, uppercased(network.version_string@)))
            &&& params.contains(("version_isdevelopment"@, "0"@))
            &&& params.contains(("version_islauncher"@, "0"@))
            &&& params.contains(("appid"@, appid))
            &&& params.contains(("lang"@, network.language@))
            &&& params.contains(("language"@, network.language@))
            &&& params.contains(("os"@, network.os@))
            &&& params.contains(("authmethod"@, authmethod))
        }),
{
    let params = client_params(network, appid, username, authmethod);
    assert(params[0] == ("name"@, username));
    assert(params[1] == ("version_string"@, uppercased(network.version_string@)));
    assert(params[2] == ("version_isdevelopment"@, "0"@));
    assert(params[3] == ("version_islauncher"@, "0"@));
    assert(params[4] == ("appid"@, appid));
    assert(params[5] == ("lang"@, network.language@));
    assert(params[6] == ("language"@, network.language@));
    assert(params[7] == ("os"@, network.os@));
    assert(params[8] == ("authmethod"@, authmethod));
}

/// The form that asks for a session carries the password, the one that presents a
/// code carries the code, without white space around it, and not the password.
pub proof fn only_the_session_form_carries_the_password(
    c: Credentials,
    authmethod: Seq<char>,
    code: Seq<char>,
)
    ensures
        session_form(c, authmethod).0 == "/api/v1/session"@,
        session_form(c, authmethod).1 == client_params(
            c.network,
            c.appid@,
            c.username@,
            authmethod,
        ) + seq![("password"@, c.password@)],
        code_form(c, code).0 == "/api/v1/authentication/authorizations"@,
        code_form(c, code).1.len() == 3,
        code_form(c, code).1.contains(("appid"@, c.appid@)),
        code_form(c, code).1.contains(("name"@, c.username@)),
        code_form(c, code).1.contains(("code"@, trimmed(code))),
        forall|i: int|
            0 <= i < code_form(c, code).1.len() ==> (#[trigger] code_form(c, code).1[i]).0
                != "password"@,
{
    reveal_strlit("password");
    reveal_strlit("appid");
    reveal_strlit("name");
    reveal_strlit("code");
    assert("password"@.len() == 8 && "appid"@.len() == 5 && "name"@.len() == 4 && "code"@.len()
        == 4);
    let params = code_form(c, code).1;
    assert(params[0] == ("appid"@, c.appid@));
    assert(params[1] == ("name"@, c.username@));
    assert(params[2] == ("code"@, trimmed(code)));
    assert(session_form(c, authmethod).1 =~= client_params(
        c.network,
        c.appid@,
        c.username@,
        authmethod,
    ) + seq![("password"@, c.password@)]);
}

/// A login is granted exactly if the answer gives a token; the name is the one that
/// the answer gives, or else the one that was typed.
pub proof fn tokens_grant_sessions(
    data: JsonV,
    username: Seq<char>,
    token: Seq<char>,
    name: Seq<char>,
)
    requires
        gives_text(data, "token"@, token),
        gives_text(data, "name"@, name),
    ensures
        token.len() == 0 ==> granted(data, username) is None,
        token.len() > 0 && name.len() > 0 ==> granted(data, username) == Some((name, token)),
        token.len() > 0 && name.len() == 0 ==> granted(data, username) == Some((username, token)),
{
}

/// A second factor is asked for by its error code and by nothing else.
pub proof fn challenges_are_known_by_code(e: ApiError, status: u16, text: String)
    ensures
        is_challenge(Failure::Api(e)) <==> e.code@ == "auth.two_factor_required"@,
        !is_challenge(Failure::Other(text)),
        !is_challenge(Failure::Http { status, url: text, excerpt: text }),
        !is_challenge(Failure::Transport { url: text, cause: text }),
{
}

/// What a login leaves on disk: the granted name and token, when, for which device,
/// and the user name if it is not the configured one.
pub proof fn logins_leave_the_session(
    granted: (Seq<char>, Seq<char>),
    username: Seq<char>,
    configured: Seq<char>,
    appid: Seq<char>,
    issued_at: int,
)
    ensures
        ({
            let kept = kept_of(granted, username, configured, appid, issued_at);
            &&& kept.cached.name == granted.0
            &&& kept.cached.token == granted.1
            &&& kept.cached.issued_at == issued_at
            &&& kept.cached.appid == appid
            &&& username != configured ==> kept.username == Some(username)
            &&& username == configured ==> kept.username is None
        }),
{
}

/// The first answer decides: a session or a failure ends the login, and the demand
/// for a second factor lets the user choose between a text message, which is asked
/// for with the credentials, and a backup code, which is asked for at once.
pub proof fn a_second_factor_is_chosen(
    c: Credentials,
    answer: Result<Json, Failure>,
    action: Action,
    chosen: Action,
)
    requires
        called_for(c, Stage::First, Event::Answered(answer), action),
    ensures
        answer matches Err(f) && is_challenge(f) ==> action is Choose && next_stage(
            Stage::First,
            Event::Answered(answer),
        ) is Choosing,
        !(answer matches Err(f) && is_challenge(f)) ==> next_stage(
            Stage::First,
            Event::Answered(answer),
        ) is Over,
        answer matches Err(f) ==> !is_challenge(f) ==> action == Action::Fail(f),
        answer is Ok ==> action is Succeed || action is Fail,
        next_stage(Stage::Choosing, Event::ChoseSms) is Sending,
        called_for(c, Stage::Choosing, Event::ChoseSms, chosen) ==> (
        chosen matches Action::Post(form) && form@ == session_form(c, "phone"@)),
        next_stage(Stage::Choosing, Event::ChoseBackupCode) == (Stage::Asking {
            sms: false,
            remaining: 3,
        }),
        called_for(c, Stage::Choosing, Event::ChoseBackupCode, chosen) ==> chosen == (Action::Ask {
            sms: false,
        }),
{
}

/// A text message that was asked for is announced by the same demand again; anything
/// else ends the login.
pub proof fn a_sent_message_is_announced(
    c: Credentials,
    answer: Result<Json, Failure>,
    action: Action,
)
    requires
        called_for(c, Stage::Sending, Event::Answered(answer), action),
    ensures
        answer matches Err(f) && is_challenge(f) ==> action == (Action::Ask { sms: true })
            && next_stage(Stage::Sending, Event::Answered(answer)) == (Stage::Asking {
            sms: true,
            remaining: 3,
        }),
        answer matches Err(f) ==> !is_challenge(f) ==> action == Action::Fail(f) && next_stage(
            Stage::Sending,
            Event::Answered(answer),
        ) is Over,
        answer is Ok ==> (action is Succeed || action is Fail) && next_stage(
            Stage::Sending,
            Event::Answered(answer),
        ) is Over,
{
}

/// A typed code is presented. If it is accepted, the credentials are sent again, and
/// the answer to that ends the login; if it is not, another may be typed as long as
/// one is left, and the login is given up after the last.
pub proof fn codes_are_presented_until_accepted(
    c: Credentials,
    sms: bool,
    remaining: u8,
    code: String,
    data: Json,
    f: Failure,
    x: Action,
    y: Action,
    z: Action,
)
    requires
        1 <= remaining,
        called_for(c, Stage::Asking { sms, remaining }, Event::Typed(code), x),
        called_for(c, Stage::Authorizing { sms, remaining }, Event::Answered(Ok(data)), y),
        called_for(c, Stage::Authorizing { sms, remaining }, Event::Answered(Err(f)), z),
    ensures
        next_stage(Stage::Asking { sms, remaining }, Event::Typed(code)) == (Stage::Authorizing {
            sms,
            remaining,
        }),
        x matches Action::Post(form) && form@ == code_form(c, code@),
        next_stage(Stage::Authorizing { sms, remaining }, Event::Answered(Ok(data))) is Last,
        y matches Action::Post(form) && form@ == session_form(c, "list"@),
        remaining > 1 ==> next_stage(
            Stage::Authorizing { sms, remaining },
            Event::Answered(Err(f)),
        ) == (Stage::Asking { sms, remaining: (remaining - 1) as u8 }) && z == (Action::AskAgain {
            sms,
            remaining,
        }),
        remaining == 1 ==> next_stage(
            Stage::Authorizing { sms, remaining },
            Event::Answered(Err(f)),
        ) is Over && z == Action::GiveUp(f),
{
}

/// The last answer ends the login with the session that it grants, or with why it
/// grants none.
pub proof fn the_last_answer_ends_the_login(
    c: Credentials,
    stage: Stage,
    data: Json,
    f: Failure,
    token: Seq<char>,
    name: Seq<char>,
    x: Action,
    y: Action,
)
    requires
        stage is Last || stage is First,
        called_for(c, stage, Event::Answered(Ok(data)), x),
        called_for(c, stage, Event::Answered(Err(f)), y),
        gives_text(data@, "token"@, token),
        gives_text(data@, "name"@, name),
    ensures
        next_stage(stage, Event::Answered(Ok(data))) is Over,
        stage is Last ==> next_stage(stage, Event::Answered(Err(f))) is Over && y == Action::Fail(
            f,
        ),
        token.len() > 0 ==> (x matches Action::Succeed(s) && s.token@ == token && s.name@ == (
        if name.len() > 0 {
            name
        } else {
            c.username@
        })),
        token.len() == 0 ==> (x matches Action::Fail(Failure::Other(text)) && text@
            == "the server accepted the login but returned no session token"@),
{
    tokens_grant_sessions(data@, c.username@, token, name);
}

/// What happens out of turn changes nothing.
pub proof fn events_out_of_turn_are_ignored(
    c: Credentials,
    stage: Stage,
    code: String,
    answer: Result<Json, Failure>,
    x: Action,
)
    ensures
        !(stage is Asking) ==> next_stage(stage, Event::Typed(code)) == stage,
        !(stage is Asking) && called_for(c, stage, Event::Typed(code), x) ==> x is Ignore,
        !(stage is Choosing) ==> next_stage(stage, Event::ChoseSms) == stage && next_stage(
            stage,
            Event::ChoseBackupCode,
        ) == stage,
        !(stage is Choosing) && (called_for(c, stage, Event::ChoseSms, x) || called_for(
            c,
            stage,
            Event::ChoseBackupCode,
            x,
        )) ==> x is Ignore,
        stage is Asking || stage is Choosing || stage is Over ==> next_stage(
            stage,
            Event::Answered(answer),
        ) == stage && (called_for(c, stage, Event::Answered(answer), x) ==> x is Ignore),
{
}

/// A device keeps its id: what was stored is used again, without white space around
/// it, and a fresh one is made only if there is none.
pub proof fn devices_keep_their_id(stored: Option<Seq<char>>, r: DeviceId)
    requires
        identifies(stored, r),
    ensures
        r.fresh <==> stored is None || trimmed(stored->0).len() == 0,
        !r.fresh ==> r.id@ == trimmed(stored->0),
        r.fresh ==> r.id@.len() == 32 && forall|i: int|
            0 <= i < r.id@.len() ==> is_alnum(#[trigger] r.id@[i]),
        identifies(Some(r.id@), r) || r.fresh,
{
    if !r.fresh {
        trimming_takes_only_outer_space(stored->0);
        lemma_trimmed_whole(r.id@);
    }
}

/// What is cached of a session is enough to restore it, and a session without a name
/// or a token is not restored.
pub proof fn cached_sessions_are_restored(session: Session, issued_at: int, appid: Seq<char>)
    ensures
        session.name@.len() > 0 && session.token@.len() > 0 ==> restored(
            cached_of(session, issued_at, appid),
        ) == Some((session.name@, session.token@)),
        session.name@.len() == 0 || session.token@.len() == 0 ==> restored(
            cached_of(session, issued_at, appid),
        ) is None,
{
}

/// A scrape runs with the cached session if there is one, and without only if none is
/// required.
pub proof fn scrapes_run_with_the_cached_session(
    cached: Option<Session>,
    require_auth: bool,
    r: Result<Standing, Failure>,
)
    requires
        runs_as(cached, require_auth, r),
    ensures
        cached matches Some(session) ==> r == Ok::<Standing, Failure>(
            Standing::Authenticated(session),
        ),
        cached is None && !require_auth ==> r is Ok && r->Ok_0 is Anonymous,
        cached is None && require_auth ==> r is Err,
{
}

/// A configured user name is used as it is, unless there is nothing in it.
pub proof fn configured_names_are_used(configured: Seq<char>)
    ensures
        trimmed(configured).len() > 0 ==> name_to_use(configured) == Some(configured),
        trimmed(configured).len() == 0 ==> name_to_use(configured) is None,
{
}

} // verus!
