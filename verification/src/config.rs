//! Configuration: of the server, of sources and of sinks.

use crate::text::to_chars;
use vstd::prelude::*;
use vstd::string::StringExecFns;

verus! {

/// The port that the server listens on where none is configured.
pub const DEFAULT_PORT: u16 = 8081;

/// The configuration of the server.
#[derive(Clone, Debug)]
pub struct Config {
    pub port: u16,
    pub sentry_dsn: Option<String>,
    pub environment: String,
}

/// Where content comes from.
#[derive(Clone, Debug)]
pub enum SourceConfig {
    Rss { url: String, limit: usize, keywords: Vec<String> },
    WebScrape { url: String, keywords: Vec<String> },
    GithubMergedPrs { repos: Vec<String>, since_days: u64 },
    WebScraper {
        url: String,
        base_url: Option<String>,
        items_selector: String,
        title_selector: Option<String>,
        url_selector: Option<String>,
        summary_selector: Option<String>,
        date_selector: Option<String>,
        date_format: Option<String>,
        limit: usize,
    },
}

/// Where results go.
#[derive(Clone, Debug)]
pub enum SinkConfig {
    Slack { webhook_url_env: Option<String>, bot_token_env: Option<String>, channel: Option<String> },
    Notion { token_env: String, database_id: String },
}

/// The number of items that a source takes where no limit is configured.
pub fn default_rss_limit() -> (limit: usize)
    ensures
        limit == 10,
{
    10
}

/// The number of days that a source looks back where none is configured.
pub fn default_since_days() -> (days: u64)
    ensures
        days == 7,
{
    7
}

/// Whether `c` is one of the digits `0` to `9`.
pub open spec fn is_digit(c: char) -> bool {
    '0' <= c && c <= '9'
}

/// The number that the digits `s` write in decimal.
pub open spec fn digits_value(s: Seq<char>) -> nat
    decreases s.len(),
{
    if s.len() == 0 {
        0
    } else {
        digits_value(s.drop_last()) * 10 + ((s.last() as u32 - '0' as u32) as nat)
    }
}

/// Every character of `s` is a digit.
pub open spec fn all_digits(s: Seq<char>) -> bool {
    forall|i: int| 0 <= i < s.len() ==> is_digit(#[trigger] s[i])
}

/// `s` without a plus sign at its start.
pub open spec fn unsigned_part(s: Seq<char>) -> Seq<char> {
    if s.len() > 0 && s[0] == '+' {
        s.skip(1)
    } else {
        s
    }
}

/// The port that `s` writes: one or more decimal digits, a plus sign
/// before them or none, nothing else, and a value of at most 65535.
pub open spec fn spec_parse_port(s: Seq<char>) -> Option<u16> {
    let body = unsigned_part(s);
    if body.len() > 0 && all_digits(body) && digits_value(body) <= u16::MAX {
        Some(digits_value(body) as u16)
    } else {
        None
    }
}

/// The smaller of `v` and 65536.
pub open spec fn capped(v: nat) -> nat {
    if v > u16::MAX {
        (u16::MAX + 1) as nat
    } else {
        v
    }
}

/// Reads a port number.
pub fn parse_port(s: &str) -> (r: Option<u16>)
    ensures
        r == spec_parse_port(s@),
{
    let chars = to_chars(s);
    let start: usize = if chars.len() > 0 && chars[0] == '+' {
        1
    } else {
        0
    };
    let ghost body = unsigned_part(chars@);
    assert(body == chars@.skip(start as int));
    if start >= chars.len() {
        return None;
    }
    let mut acc: u32 = 0;
    let mut i: usize = start;
    assert(body.take(0) =~= Seq::<char>::empty());
    while i < chars.len()
        invariant
            start <= i <= chars@.len(),
            body == chars@.skip(start as int),
            body == unsigned_part(s@),
            all_digits(body.take(i - start)),
            acc == capped(digits_value(body.take(i - start))),
        decreases chars@.len() - i,
    {
        let c = chars[i];
        assert(body[i - start] == c);
        if !('0' <= c && c <= '9') {
            assert(!all_digits(body));
            return None;
        }
        proof {
            let wide = body.take(i - start + 1);
            assert(wide.drop_last() == body.take(i - start));
            assert(wide.last() == c);
            assert forall|j: int| 0 <= j < wide.len() implies is_digit(#[trigger] wide[j]) by {
                if j < i - start {
                    assert(body.take(i - start)[j] == wide[j]);
                }
            }
        }
        let d: u32 = c as u32 - '0' as u32;
        let next: u32 = acc * 10 + d;
        acc = if next > 65535 {
            65536
        } else {
            next
        };
        i = i + 1;
    }
    assert(body.take(chars@.len() - start) == body);
    if acc > 65535 {
        None
    } else {
        Some(acc as u16)
    }
}

/// The configuration that the given settings describe.
pub open spec fn spec_config_port(port: Option<Seq<char>>) -> u16 {
    match port {
        Some(p) => match spec_parse_port(p) {
            Some(n) => n,
            None => DEFAULT_PORT,
        },
        None => DEFAULT_PORT,
    }
}

impl Config {
    /// The configuration that the given settings describe, each as it was
    /// found or not found. A port that is missing or no port number gives
    /// the default port; an empty Sentry address counts as none; without
    /// an environment name the environment is `local`.
    pub fn from_values(
        port: Option<&str>,
        sentry_dsn: Option<String>,
        environment: Option<String>,
    ) -> (config: Config)
        ensures
            config.port == spec_config_port(
                match port {
                    Some(p) => Some(p@),
                    None => None,
                },
            ),
            match sentry_dsn {
                Some(d) => if d@.len() == 0 {
                    config.sentry_dsn is None
                } else {
                    config.sentry_dsn == Some(d)
                },
                None => config.sentry_dsn is None,
            },
            match environment {
                Some(e) => config.environment == e,
                None => config.environment@ == "local"@,
            },
    {
        let port = match port {
            Some(p) => match parse_port(p) {
                Some(n) => n,
                None => DEFAULT_PORT,
            },
            None => DEFAULT_PORT,
        };
        let sentry_dsn = match sentry_dsn {
            Some(d) => if d.as_str().is_empty() {
                None
            } else {
                Some(d)
            },
            None => None,
        };
        let environment = match environment {
            Some(e) => e,
            None => String::from_str("local"),
        };
        Config { port, sentry_dsn, environment }
    }
}

/// How a text reaches Slack.
#[derive(Clone, Debug)]
pub enum Route {
    /// As Block Kit blocks through the Web API, with the bot token that
    /// the named environment variable holds.
    Bot { token_env: String },
    /// As one text to the webhook whose address the named environment
    /// variable holds.
    Webhook { url_env: String },
}

/// Why a sink cannot deliver.
#[derive(Clone, Copy, Debug, PartialEq, Eq, Structural)]
pub enum SinkError {
    /// A Slack sink names neither a webhook nor a bot token.
    NoSlackTarget,
    /// A Slack sink with a bot token names no channel.
    MissingChannel,
    /// The sink is of a kind that cannot deliver text.
    Unsupported,
}

impl SinkError {
    /// The error as a sentence.
    pub fn message(&self) -> (s: String)
        ensures
            s@ == match *self {
                SinkError::NoSlackTarget =>
                    "slack sink requires either webhook_url_env or bot_token_env"@,
                SinkError::MissingChannel => "slack bot_token_env requires a channel"@,
                SinkError::Unsupported => "sink cannot deliver text"@,
            },
    {
        match self {
            SinkError::NoSlackTarget => String::from_str(
                "slack sink requires either webhook_url_env or bot_token_env",
            ),
            SinkError::MissingChannel => String::from_str("slack bot_token_env requires a channel"),
            SinkError::Unsupported => String::from_str("sink cannot deliver text"),
        }
    }
}

/// The way a sink delivers: a Slack sink with a bot token goes through the
/// Web API, one with only a webhook through the webhook, one with neither
/// nowhere.
pub fn slack_route(sink: &SinkConfig) -> (r: Result<Route, SinkError>)
    ensures
        match *sink {
            SinkConfig::Slack { webhook_url_env, bot_token_env, channel } => match (
                bot_token_env,
                webhook_url_env,
            ) {
                (Some(t), _) => r matches Ok(Route::Bot { token_env }) && token_env@ == t@,
                (None, Some(w)) => r matches Ok(Route::Webhook { url_env }) && url_env@ == w@,
                (None, None) => r == Err::<Route, SinkError>(SinkError::NoSlackTarget),
            },
            SinkConfig::Notion { .. } => r == Err::<Route, SinkError>(SinkError::Unsupported),
        },
{
    match sink {
        SinkConfig::Slack { webhook_url_env, bot_token_env, channel } => {
            match bot_token_env {
                Some(t) => Ok(Route::Bot { token_env: t.clone() }),
                None => match webhook_url_env {
                    Some(w) => Ok(Route::Webhook { url_env: w.clone() }),
                    None => Err(SinkError::NoSlackTarget),
                },
            }
        },
        SinkConfig::Notion { .. } => Err(SinkError::Unsupported),
    }
}

/// The channel of a Slack sink that delivers with a bot token.
pub fn require_channel(sink: &SinkConfig) -> (r: Result<String, SinkError>)
    ensures
        match *sink {
            SinkConfig::Slack { webhook_url_env, bot_token_env, channel } => match channel {
                Some(c) => r matches Ok(name) && name@ == c@,
                None => r == Err::<String, SinkError>(SinkError::MissingChannel),
            },
            SinkConfig::Notion { .. } => r == Err::<String, SinkError>(SinkError::Unsupported),
        },
{
    match sink {
        SinkConfig::Slack { webhook_url_env, bot_token_env, channel } => match channel {
            Some(c) => Ok(c.clone()),
            None => Err(SinkError::MissingChannel),
        },
        SinkConfig::Notion { .. } => Err(SinkError::Unsupported),
    }
}

} // verus!
