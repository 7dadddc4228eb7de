//! Configuration. Everything that tunes *how* the scrape runs (speed,
//! parallelism, retries, media) lives here; *what* gets scraped is chosen
//! interactively by the `select` command and stored in [`Selection`].

use vstd::prelude::*;

use crate::text::{quote, quoted, same};

verus! {

#[derive(Debug, Clone)]
pub struct Config {
    pub network: Network,
    pub auth: Auth,
    pub scrape: Scrape,
    pub media: Media,
    pub storage: Storage,
    pub selection: Selection,
    pub bench: Bench,
}

#[derive(Debug, Clone)]
pub struct Network {
    pub base_url: String,
    /// Sent as the HTTP User-Agent. Identifies this tool rather than
    /// impersonating the official client.
    pub user_agent: String,
    /// Sent as `version_string` during login. The official client sends its own
    /// version here; the server accepts the generic fallback below.
    pub version_string: String,
    pub os: String,
    pub language: String,
    pub request_timeout_secs: u64,
    pub connect_timeout_secs: u64,
}

impl Network {
    pub open spec fn is_default(&self) -> bool {
        &&& self.base_url@ == "https://api.elten.link"@
        &&& self.user_agent@ == "EltenScraper/0.1.0"@
        &&& self.version_string@ == "ELTEN"@
        &&& self.os@ == "windows"@
        &&& self.language@ == "en"@
        &&& self.request_timeout_secs == 60
        &&& self.connect_timeout_secs == 15
    }
}

impl Default for Network {
    fn default() -> (r: Self)
        ensures
            r.is_default(),
    {
        Self {
            base_url: String::from_str("https://api.elten.link"),
            user_agent: String::from_str("EltenScraper/0.1.0"),
            version_string: String::from_str("ELTEN"),
            os: String::from_str("windows"),
            language: String::from_str("en"),
            request_timeout_secs: 60,
            connect_timeout_secs: 15,
        }
    }
}

#[derive(Debug, Clone)]
pub struct Auth {
    /// The public parts of the forum are readable anonymously. Set this to true
    /// to refuse to scrape unless a session is established (needed to reach
    /// private/hidden groups your account belongs to).
    pub require_auth: bool,
    pub username: String,
    /// Cached session token, written by `login`. Never contains your password.
    pub session_file: String,
    /// Stable random device id, generated once. The server ties device
    /// authorisations to it, so keeping it stable avoids repeat 2FA prompts.
    pub appid_file: String,
}

impl Auth {
    pub open spec fn is_default(&self) -> bool {
        &&& !self.require_auth
        &&& self.username@ == Seq::<char>::empty()
        &&& self.session_file@ == "data/session.json"@
        &&& self.appid_file@ == "data/appid.txt"@
    }
}

impl Default for Auth {
    fn default() -> (r: Self)
        ensures
            r.is_default(),
    {
        Self {
            require_auth: false,
            username: String::new(),
            session_file: String::from_str("data/session.json"),
            appid_file: String::from_str("data/appid.txt"),
        }
    }
}

#[derive(Debug, Clone)]
pub struct Scrape {
    /// How many threads are fetched concurrently.
    pub thread_concurrency: usize,
    /// How many audio files are downloaded concurrently.
    pub audio_concurrency: usize,
    /// Global ceiling across all workers, as the bits of a double. This is the
    /// main politeness dial: it is a shared token bucket, so raising
    /// concurrency alone will not exceed it. Zero disables rate limiting
    /// entirely.
    pub requests_per_second: u64,
    pub max_retries: u32,
    pub retry_base_ms: u64,
    pub retry_max_ms: u64,
    /// Skip re-fetching threads whose `last_update` has not advanced since the
    /// last run. Turn off (or pass `--full`) to force a complete re-scrape.
    pub skip_unchanged_threads: bool,
    /// Abort the whole run on the first thread that fails, instead of logging
    /// it and carrying on.
    pub stop_on_error: bool,
}

/// Whether the double with these bits is below zero: the sign bit is set, and
/// it is neither minus zero nor not a number.
pub open spec fn is_negative_double(bits: u64) -> bool {
    0x8000_0000_0000_0000 < bits <= 0xfff0_0000_0000_0000
}

/// Whether the double with these bits is above zero: the sign bit is clear, and
/// it is neither zero nor not a number.
pub open spec fn is_positive_double(bits: u64) -> bool {
    0 < bits <= 0x7ff0_0000_0000_0000
}

impl Scrape {
    pub open spec fn is_default(&self) -> bool {
        &&& self.thread_concurrency == 4
        &&& self.audio_concurrency == 3
        &&& self.requests_per_second == 0x4014_0000_0000_0000
        &&& self.max_retries == 4
        &&& self.retry_base_ms == 500
        &&& self.retry_max_ms == 30_000
        &&& self.skip_unchanged_threads
        &&& !self.stop_on_error
    }

    /// Whether requests are paced at all: only a rate above zero limits them.
    pub fn is_paced(&self) -> (r: bool)
        ensures
            r == is_positive_double(self.requests_per_second),
    {
        0 < self.requests_per_second && self.requests_per_second <= 0x7ff0_0000_0000_0000
    }
}

impl Default for Scrape {
    fn default() -> (r: Self)
        ensures
            r.is_default(),
    {
        Self {
            thread_concurrency: 4,
            audio_concurrency: 3,
            // 5.0
            requests_per_second: 0x4014_0000_0000_0000,
            max_retries: 4,
            retry_base_ms: 500,
            retry_max_ms: 30_000,
            skip_unchanged_threads: true,
            stop_on_error: false,
        }
    }
}

#[derive(Debug, Clone)]
pub struct Media {
    pub download_audio: bool,
    /// Off by default: attachments are arbitrary user files and can be large.
    /// Their ids and metadata are recorded either way.
    pub download_attachments: bool,
    pub audio_dir: String,
    pub attachment_dir: String,
    /// Refuse to download any single file larger than this.
    pub max_audio_mb: u64,
    pub max_attachment_mb: u64,
    /// Don't re-download media already present on disk.
    pub skip_existing: bool,
}

impl Media {
    pub open spec fn is_default(&self) -> bool {
        &&& self.download_audio
        &&& !self.download_attachments
        &&& self.audio_dir@ == "data/audio"@
        &&& self.attachment_dir@ == "data/attachments"@
        &&& self.max_audio_mb == 64
        &&& self.max_attachment_mb == 256
        &&& self.skip_existing
    }
}

impl Default for Media {
    fn default() -> (r: Self)
        ensures
            r.is_default(),
    {
        Self {
            download_audio: true,
            download_attachments: false,
            audio_dir: String::from_str("data/audio"),
            attachment_dir: String::from_str("data/attachments"),
            max_audio_mb: 64,
            max_attachment_mb: 256,
            skip_existing: true,
        }
    }
}

#[derive(Debug, Clone)]
pub struct Storage {
    /// One database for the whole network. Threads move between forums, and the
    /// catalog is fetched globally with a single resume point, so splitting per
    /// forum would fragment both. Audio stays on disk, referenced by path.
    pub database: String,
}

impl Storage {
    pub open spec fn is_default(&self) -> bool {
        self.database@ == "data/elten.db"@
    }
}

impl Default for Storage {
    fn default() -> (r: Self)
        ensures
            r.is_default(),
    {
        Self { database: String::from_str("data/elten.db") }
    }
}

/// What to scrape. Managed by the `select` command.
#[derive(Debug, Clone)]
pub struct Selection {
    /// "all" | "groups" | "forums" | "exclude"
    pub mode: String,
    pub groups: Vec<i64>,
    pub forums: Vec<i64>,
}

impl Selection {
    pub open spec fn is_default(&self) -> bool {
        &&& self.mode@ == "all"@
        &&& self.groups@ == Seq::<i64>::empty()
        &&& self.forums@ == Seq::<i64>::empty()
    }
}

impl Default for Selection {
    fn default() -> (r: Self)
        ensures
            r.is_default(),
    {
        Self { mode: String::from_str("all"), groups: Vec::new(), forums: Vec::new() }
    }
}

#[derive(Debug, Clone)]
pub struct Bench {
    /// Threads sampled when measuring text-post latency.
    pub text_samples: usize,
    /// Audio posts sampled when measuring audio latency.
    pub audio_samples: usize,
    /// Concurrency levels to sweep, to find where the server stops scaling.
    pub concurrency_levels: Vec<usize>,
    /// Ignore the configured rate limit while benchmarking, so the numbers
    /// reflect the server rather than our own throttle.
    pub ignore_rate_limit: bool,
    pub report_file: String,
}

impl Bench {
    pub open spec fn is_default(&self) -> bool {
        &&& self.text_samples == 25
        &&& self.audio_samples == 15
        &&& self.concurrency_levels@ == seq![1usize, 2, 4, 8]
        &&& self.ignore_rate_limit
        &&& self.report_file@ == "data/bench-report.json"@
    }
}

impl Default for Bench {
    fn default() -> (r: Self)
        ensures
            r.is_default(),
    {
        let levels: Vec<usize> = vec![1, 2, 4, 8];
        assert(levels@ =~= seq![1usize, 2, 4, 8]);
        Self {
            text_samples: 25,
            audio_samples: 15,
            concurrency_levels: levels,
            ignore_rate_limit: true,
            report_file: String::from_str("data/bench-report.json"),
        }
    }
}

/// How progress is reported.
#[derive(Debug, Clone)]
pub struct Ui {
    /// "plain" | "none"
    pub progress: String,
    /// Report after this share of the work; 0 disables such reports.
    pub progress_step_percent: u8,
    /// Report after this long without a report; 0 disables such reports.
    pub progress_interval_secs: u64,
}

impl Ui {
    /// Whether progress is reported at all.
    pub fn progress_enabled(&self) -> (r: bool)
        ensures
            r == (self.progress@ != "none"@),
    {
        !same(self.progress.as_str(), "none")
    }
}

/// What is wrong with a configuration.
#[derive(Debug, Clone)]
pub enum ConfigError {
    ThreadConcurrency,
    AudioConcurrency,
    NegativeRate,
    /// The selection mode is none of the known ones.
    Mode(String),
}

/// How a faulty configuration is reported.
pub open spec fn config_error_text(e: ConfigError) -> Seq<char> {
    match e {
        ConfigError::ThreadConcurrency => "scrape.thread_concurrency must be at least 1"@,
        ConfigError::AudioConcurrency => "scrape.audio_concurrency must be at least 1"@,
        ConfigError::NegativeRate => "scrape.requests_per_second cannot be negative"@,
        ConfigError::Mode(mode) =>
        "selection.mode must be one of: all, groups, forums, exclude (got "@ + quoted(mode@)
            + ")"@,
    }
}

impl ConfigError {
    pub fn text(&self) -> (r: String)
        ensures
            r@ == config_error_text(*self),
    {
        match self {
            ConfigError::ThreadConcurrency => String::from_str(
                "scrape.thread_concurrency must be at least 1",
            ),
            ConfigError::AudioConcurrency => String::from_str(
                "scrape.audio_concurrency must be at least 1",
            ),
            ConfigError::NegativeRate => String::from_str(
                "scrape.requests_per_second cannot be negative",
            ),
            ConfigError::Mode(mode) => String::from_str(
                "selection.mode must be one of: all, groups, forums, exclude (got ",
            ).concat(quote(mode.as_str()).as_str()).concat(")"),
        }
    }
}

pub open spec fn is_known_mode(mode: Seq<char>) -> bool {
    mode == "all"@ || mode == "groups"@ || mode == "forums"@ || mode == "exclude"@
}

impl Config {
    pub open spec fn is_default(&self) -> bool {
        &&& self.network.is_default()
        &&& self.auth.is_default()
        &&& self.scrape.is_default()
        &&& self.media.is_default()
        &&& self.storage.is_default()
        &&& self.selection.is_default()
        &&& self.bench.is_default()
    }

    /// A configuration that can be run with.
    pub open spec fn is_valid(&self) -> bool {
        &&& self.scrape.thread_concurrency > 0
        &&& self.scrape.audio_concurrency > 0
        &&& !is_negative_double(self.scrape.requests_per_second)
        &&& is_known_mode(self.selection.mode@)
    }

    /// Check a configuration; of several faults the first is reported.
    pub fn validate(&self) -> (r: Result<(), ConfigError>)
        ensures
            r is Ok <==> self.is_valid(),
            match r {
                Ok(()) => true,
                Err(ConfigError::ThreadConcurrency) => self.scrape.thread_concurrency == 0,
                Err(ConfigError::AudioConcurrency) => self.scrape.thread_concurrency > 0
                    && self.scrape.audio_concurrency == 0,
                Err(ConfigError::NegativeRate) => self.scrape.thread_concurrency > 0
                    && self.scrape.audio_concurrency > 0 && is_negative_double(
                    self.scrape.requests_per_second,
                ),
                Err(ConfigError::Mode(mode)) => self.scrape.thread_concurrency > 0
                    && self.scrape.audio_concurrency > 0 && !is_negative_double(
                    self.scrape.requests_per_second,
                ) && !is_known_mode(self.selection.mode@) && mode@ == self.selection.mode@,
            },
    {
        if self.scrape.thread_concurrency == 0 {
            return Err(ConfigError::ThreadConcurrency);
        }
        if self.scrape.audio_concurrency == 0 {
            return Err(ConfigError::AudioConcurrency);
        }
        if 0x8000_0000_0000_0000 < self.scrape.requests_per_second
            && self.scrape.requests_per_second <= 0xfff0_0000_0000_0000 {
            return Err(ConfigError::NegativeRate);
        }
        let mode = self.selection.mode.as_str();
        if !(same(mode, "all") || same(mode, "groups") || same(mode, "forums") || same(
            mode,
            "exclude",
        )) {
            return Err(ConfigError::Mode(self.selection.mode.clone()));
        }
        Ok(())
    }
}

impl Default for Config {
    fn default() -> (r: Self)
        ensures
            r.is_default(),
    {
        Self {
            network: Network::default(),
            auth: Auth::default(),
            scrape: Scrape::default(),
            media: Media::default(),
            storage: Storage::default(),
            selection: Selection::default(),
            bench: Bench::default(),
        }
    }
}

/// The defaults are a configuration that can be run with.
pub proof fn defaults_are_valid(c: Config)
    requires
        c.is_default(),
    ensures
        c.is_valid(),
{
}

/// The defaults are those of the documentation: how fast and how persistent a scrape
/// is, what it downloads and where everything goes.
pub proof fn defaults_are_the_documented_ones(c: Config)
    requires
        c.is_default(),
    ensures
        c.network.base_url@ == "https://api.elten.link"@,
        c.network.user_agent@ == "EltenScraper/0.1.0"@,
        c.network.version_string@ == "ELTEN"@,
        c.network.os@ == "windows"@,
        c.network.language@ == "en"@,
        c.network.request_timeout_secs == 60,
        c.network.connect_timeout_secs == 15,
        !c.auth.require_auth && c.auth.username@.len() == 0,
        c.auth.session_file@ == "data/session.json"@,
        c.auth.appid_file@ == "data/appid.txt"@,
        c.scrape.thread_concurrency == 4,
        c.scrape.audio_concurrency == 3,
        c.scrape.requests_per_second == 0x4014_0000_0000_0000,
        c.scrape.max_retries == 4,
        c.scrape.retry_base_ms == 500,
        c.scrape.retry_max_ms == 30_000,
        c.scrape.skip_unchanged_threads && !c.scrape.stop_on_error,
        c.media.download_audio && !c.media.download_attachments && c.media.skip_existing,
        c.media.audio_dir@ == "data/audio"@,
        c.media.attachment_dir@ == "data/attachments"@,
        c.media.max_audio_mb == 64,
        c.media.max_attachment_mb == 256,
        c.storage.database@ == "data/elten.db"@,
        c.selection.mode@ == "all"@,
        c.selection.groups@.len() == 0 && c.selection.forums@.len() == 0,
        c.bench.text_samples == 25,
        c.bench.audio_samples == 15,
        c.bench.concurrency_levels@ == seq![1usize, 2, 4, 8],
        c.bench.ignore_rate_limit,
        c.bench.report_file@ == "data/bench-report.json"@,
{
}

/// A configuration can be run with exactly if at least one thread and one recording
/// may be fetched at a time, the rate is not below zero, and the selection mode is
/// one of the four.
pub proof fn configurations_that_can_be_run_with(c: Config)
    ensures
        c.is_valid() <==> c.scrape.thread_concurrency >= 1 && c.scrape.audio_concurrency >= 1
            && !is_negative_double(c.scrape.requests_per_second) && (c.selection.mode@ == "all"@
            || c.selection.mode@ == "groups"@ || c.selection.mode@ == "forums"@ || c.selection.mode@
            == "exclude"@),
{
}

/// No double is both below and above zero; zeros and what is not a number are
/// neither; and flipping the sign bit turns the one into the other.
pub proof fn doubles_have_one_sign(bits: u64)
    ensures
        !(is_negative_double(bits) && is_positive_double(bits)),
        !is_negative_double(0) && !is_positive_double(0),
        !is_negative_double(0x8000_0000_0000_0000) && !is_positive_double(0x8000_0000_0000_0000),
        bits < 0x8000_0000_0000_0000 ==> (is_positive_double(bits) <==> is_negative_double(
            (bits + 0x8000_0000_0000_0000) as u64,
        )),
        is_positive_double(1) && is_positive_double(0x7ff0_0000_0000_0000),
        0x7ff0_0000_0000_0000 < bits < 0x8000_0000_0000_0000 ==> !is_positive_double(bits),
        is_positive_double(bits) <==> 1 <= bits <= 0x7ff0_0000_0000_0000,
        bits <= 0x8000_0000_0000_0000 || bits > 0xfff0_0000_0000_0000 ==> !is_negative_double(bits),
{
}

/// A faulty configuration is explained, and a mode that is not known is quoted.
pub proof fn faulty_configurations_are_explained(mode: String)
    ensures
        config_error_text(ConfigError::ThreadConcurrency)
            == "scrape.thread_concurrency must be at least 1"@,
        config_error_text(ConfigError::AudioConcurrency)
            == "scrape.audio_concurrency must be at least 1"@,
        config_error_text(ConfigError::NegativeRate)
            == "scrape.requests_per_second cannot be negative"@,
        config_error_text(ConfigError::Mode(mode))
            == "selection.mode must be one of: all, groups, forums, exclude (got "@ + quoted(mode@)
            + ")"@,
{
}

} // verus!
