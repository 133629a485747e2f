//! Logging settings.

use vstd::prelude::*;
use super::{ConfigError, Problem, reports};
use crate::text::{
    char_is_space, chars_of, debug_quoted, is_space, lemma_lower_idempotent, lower,
    push_debug_quoted, push_str, str_equals, to_ascii_lowercase,
};

verus! {

/// Log verbosity.
#[derive(Debug, Clone, Copy, PartialEq, Eq)]
pub enum Level {
    Trace,
    Debug,
    Info,
    Warn,
    Error,
}

/// The level a name stands for, ignoring ASCII case; "warning" is taken for
/// warn and "fatal", which has no level of its own, for error.
pub open spec fn level_named(s: Seq<char>) -> Option<Level> {
    let l = lower(s);
    if l == "trace"@ {
        Some(Level::Trace)
    } else if l == "debug"@ {
        Some(Level::Debug)
    } else if l == "info"@ {
        Some(Level::Info)
    } else if l == "warn"@ || l == "warning"@ {
        Some(Level::Warn)
    } else if l == "error"@ || l == "fatal"@ {
        Some(Level::Error)
    } else {
        None
    }
}

/// The level named by `s`; for an unknown name, the name lowercased.
pub fn parse_level(s: &str) -> (r: Result<Level, String>)
    ensures
        match r {
            Ok(level) => level_named(s@) == Some(level),
            Err(got) => level_named(s@) is None && got@ == lower(s@),
        },
{
    let l = to_ascii_lowercase(s);
    let t = l.as_str();
    if str_equals(t, "trace") {
        Ok(Level::Trace)
    } else if str_equals(t, "debug") {
        Ok(Level::Debug)
    } else if str_equals(t, "info") {
        Ok(Level::Info)
    } else if str_equals(t, "warn") || str_equals(t, "warning") {
        Ok(Level::Warn)
    } else if str_equals(t, "error") || str_equals(t, "fatal") {
        Ok(Level::Error)
    } else {
        Err(l)
    }
}

/// The log formats the keeper can write.
pub open spec fn known_format(f: Seq<char>) -> bool {
    f == "text"@ || f == "json"@ || f == "logfmt"@
}

#[derive(Debug, Clone)]
pub struct Log {
    pub level: String,
    pub format: String,
    pub disable_timestamps: bool,
}

impl Default for Log {
    fn default() -> (r: Self)
        ensures
            r.level@ == "info"@,
            r.format@ == "text"@,
            !r.disable_timestamps,
            r.problem() is None,
    {
        let r = Log { level: "info".to_owned(), format: "text".to_owned(), disable_timestamps: false };
        proof {
            reveal_strlit("info");
            assert(lower("info"@) =~= "info"@);
        }
        r
    }
}

/// How log records are written.
#[derive(Debug, Clone, Copy, PartialEq, Eq)]
pub enum LogFormat {
    /// Human-readable lines.
    Text,
    /// One JSON object per record.
    Json,
    /// One line of `key=value` pairs per record.
    Logfmt,
}

/// The format a name stands for; anything unknown is written as text.
pub open spec fn format_named(f: Seq<char>) -> LogFormat {
    if f == "json"@ {
        LogFormat::Json
    } else if f == "logfmt"@ {
        LogFormat::Logfmt
    } else {
        LogFormat::Text
    }
}

/// How the logger is to be set up.
#[derive(Debug, Clone, Copy, PartialEq, Eq)]
pub struct LogSettings {
    pub level: Level,
    pub format: LogFormat,
    pub timestamps: bool,
}

impl Log {
    /// The first problem with this section, if any.
    pub open spec fn problem(self) -> Option<Problem> {
        if level_named(self.level@) is None {
            Some(Problem::InvalidLogLevel(lower(self.level@)))
        } else if !known_format(self.format@) {
            Some(Problem::InvalidLogFormat(self.format@))
        } else {
            None
        }
    }

    /// The level must be known and the format one of text, json, logfmt.
    pub fn validate(&self) -> (r: Result<(), ConfigError>)
        ensures
            reports(r, self.problem()),
    {
        if let Err(got) = parse_level(self.level.as_str()) {
            return Err(ConfigError::InvalidLogLevel(got));
        }
        let f = self.format.as_str();
        if str_equals(f, "text") || str_equals(f, "json") || str_equals(f, "logfmt") {
            Ok(())
        } else {
            Err(ConfigError::InvalidLogFormat(self.format.clone()))
        }
    }

    /// The logger setup: a non-empty level override wins over the configured
    /// level, an unknown level falls back to info, either flag disables
    /// timestamps, and the format is text, json or logfmt as named (an unknown
    /// name, which validation refuses, is written as text).
    pub fn install_settings(&self, level_override: Option<&str>, disable_timestamps_override: bool) -> (r: LogSettings)
        ensures
            ({
                let chosen = match level_override {
                    Some(o) => if o@.len() > 0 { o@ } else { self.level@ },
                    None => self.level@,
                };
                r.level == match level_named(chosen) {
                    Some(l) => l,
                    None => Level::Info,
                }
            }),
            r.format == format_named(self.format@),
            r.timestamps == !(self.disable_timestamps || disable_timestamps_override),
    {
        let chosen: &str = match level_override {
            Some(o) => if !o.is_empty() { o } else { self.level.as_str() },
            None => self.level.as_str(),
        };
        let level = match parse_level(chosen) {
            Ok(l) => l,
            Err(_) => Level::Info,
        };
        LogSettings {
            level,
            format: if str_equals(self.format.as_str(), "json") {
                LogFormat::Json
            } else if str_equals(self.format.as_str(), "logfmt") {
                LogFormat::Logfmt
            } else {
                LogFormat::Text
            },
            timestamps: !(self.disable_timestamps || disable_timestamps_override),
        }
    }
}

/// A control character (general category Cc).
pub open spec fn is_control(c: char) -> bool {
    (c as u32) < 0x20 || (0x7f <= (c as u32) && (c as u32) < 0xa0)
}

/// A logfmt value that can stand bare: not empty, and without white space,
/// control characters, quotes or '='.
pub open spec fn bare_value(v: Seq<char>) -> bool {
    &&& v.len() > 0
    &&& forall|i: int|
        0 <= i < v.len() ==> !is_space(#[trigger] v[i]) && !is_control(v[i]) && v[i] != '"'
            && v[i] != '='
}

/// A value as a logfmt record writes it: bare where it can stand bare,
/// otherwise quoted as `{:?}` quotes a string.
pub open spec fn logfmt_value_text(v: Seq<char>) -> Seq<char> {
    if bare_value(v) {
        v
    } else {
        debug_quoted(v)
    }
}

/// `v` as a logfmt record writes it.
pub fn logfmt_value(v: &str) -> (r: String)
    ensures
        r@ == logfmt_value_text(v@),
{
    let cs = chars_of(v);
    let mut bare = cs.len() > 0;
    let mut i: usize = 0;
    while i < cs.len()
        invariant
            cs@ == v@,
            i <= cs@.len(),
            bare == (cs@.len() > 0 && forall|k: int|
                0 <= k < i ==> !is_space(#[trigger] cs@[k]) && !is_control(cs@[k]) && cs@[k]
                    != '"' && cs@[k] != '='),
        decreases cs.len() - i,
    {
        let c = cs[i];
        let u = c as u32;
        if char_is_space(c) || u < 0x20 || (0x7f <= u && u < 0xa0) || c == '"' || c == '=' {
            bare = false;
        }
        i += 1;
    }
    let mut r = String::new();
    if bare {
        push_str(&mut r, v);
    } else {
        push_debug_quoted(&mut r, v);
    }
    assert(r@ =~= logfmt_value_text(v@));
    r
}

/// The level names the configuration accepts, in any ASCII case: trace,
/// debug, info, warn (or warning) and error, with fatal taken for error.
pub proof fn lemma_level_names(s: Seq<char>)
    ensures
        lower(s) == "trace"@ ==> level_named(s) == Some(Level::Trace),
        lower(s) == "debug"@ ==> level_named(s) == Some(Level::Debug),
        lower(s) == "info"@ ==> level_named(s) == Some(Level::Info),
        lower(s) == "warn"@ || lower(s) == "warning"@ ==> level_named(s) == Some(Level::Warn),
        lower(s) == "error"@ || lower(s) == "fatal"@ ==> level_named(s) == Some(Level::Error),
{
    reveal_strlit("trace");
    reveal_strlit("debug");
    reveal_strlit("info");
    reveal_strlit("warn");
    reveal_strlit("warning");
    reveal_strlit("error");
    reveal_strlit("fatal");
    assert("debug"@ != "trace"@) by {
        assert("debug"@[0] != "trace"@[0]);
    }
    assert("info"@ != "trace"@ && "info"@ != "debug"@) by {
        assert("info"@.len() != "trace"@.len());
        assert("info"@.len() != "debug"@.len());
    }
    assert("warn"@ != "trace"@) by {
        assert("warn"@[0] != "trace"@[0]);
    }
    assert("warn"@ != "debug"@) by {
        assert("warn"@[0] != "debug"@[0]);
    }
    assert("warn"@ != "info"@) by {
        assert("warn"@[0] != "info"@[0]);
    }
    assert("warning"@ != "trace"@) by {
        assert("warning"@[0] != "trace"@[0]);
    }
    assert("warning"@ != "debug"@) by {
        assert("warning"@[0] != "debug"@[0]);
    }
    assert("warning"@ != "info"@) by {
        assert("warning"@[0] != "info"@[0]);
    }
    assert("error"@ != "trace"@) by {
        assert("error"@[0] != "trace"@[0]);
    }
    assert("error"@ != "debug"@) by {
        assert("error"@[0] != "debug"@[0]);
    }
    assert("error"@ != "info"@) by {
        assert("error"@[0] != "info"@[0]);
    }
    assert("error"@ != "warn"@) by {
        assert("error"@[0] != "warn"@[0]);
    }
    assert("error"@ != "warning"@) by {
        assert("error"@[0] != "warning"@[0]);
    }
    assert("fatal"@ != "trace"@) by {
        assert("fatal"@[0] != "trace"@[0]);
    }
    assert("fatal"@ != "debug"@) by {
        assert("fatal"@[0] != "debug"@[0]);
    }
    assert("fatal"@ != "info"@) by {
        assert("fatal"@[0] != "info"@[0]);
    }
    assert("fatal"@ != "warn"@) by {
        assert("fatal"@[0] != "warn"@[0]);
    }
    assert("fatal"@ != "warning"@) by {
        assert("fatal"@[0] != "warning"@[0]);
    }
}

/// Validation accepts what the logger can be set up with: a log section is
/// refused for its level exactly when the name reads as no level (so fatal
/// and warning pass), and with a level that reads it is accepted exactly when
/// the logger writes its format as named, text, json or logfmt.
pub proof fn lemma_log_accepts_what_it_installs(log: Log)
    ensures
        (log.problem() matches Some(Problem::InvalidLogLevel(_))) <==> level_named(log.level@) is None,
        level_named(log.level@) is Some ==> (log.problem() is None <==> (format_named(log.format@)
            != LogFormat::Text || log.format@ == "text"@)),
        level_named(log.level@) is Some && (log.format@ == "text"@ || log.format@ == "json"@
            || log.format@ == "logfmt"@) ==> log.problem() is None,
        format_named("json"@) == LogFormat::Json,
        format_named("logfmt"@) == LogFormat::Logfmt,
{
    reveal_strlit("json");
    reveal_strlit("logfmt");
    reveal_strlit("text");
    assert("logfmt"@ != "json"@) by {
        assert("logfmt"@.len() != "json"@.len());
    }
}

/// Level names ignore ASCII case: a name and its lowercase name the same level.
pub proof fn lemma_level_ignores_ascii_case(s: Seq<char>)
    ensures
        level_named(s) == level_named(lower(s)),
{
    lemma_lower_idempotent(s);
}

} // verus!
