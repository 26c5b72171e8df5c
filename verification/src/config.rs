//! The runtime configuration record, and the log-level words its file
//! format uses.

use vstd::prelude::*;
use crate::search::str_eq;

verus! {

/// How much the surrounding runtime should log.
#[derive(Clone, Copy, PartialEq, Eq, Structural)]
pub enum LogLevel {
    Off,
    Error,
    Warn,
    Info,
    Debug,
    Trace,
}

impl LogLevel {
    /// The word the configuration file writes for each level.
    pub fn as_str(&self) -> (r: &'static str)
        ensures
            r@ == self.spec_str(),
    {
        match self {
            LogLevel::Off => "off",
            LogLevel::Error => "error",
            LogLevel::Warn => "warn",
            LogLevel::Info => "info",
            LogLevel::Debug => "debug",
            LogLevel::Trace => "trace",
        }
    }

    /// What `as_str` returns for each level.
    pub open spec fn spec_str(self) -> Seq<char> {
        match self {
            LogLevel::Off => "off"@,
            LogLevel::Error => "error"@,
            LogLevel::Warn => "warn"@,
            LogLevel::Info => "info"@,
            LogLevel::Debug => "debug"@,
            LogLevel::Trace => "trace"@,
        }
    }

    /// Read a level back from its word.
    pub fn from_str(s: &str) -> (r: Option<LogLevel>)
        ensures
            r matches Some(v) ==> s@ == v.spec_str(),
            r is None ==> forall|v: LogLevel| s@ != v.spec_str(),
    {
        if str_eq(s, "off") {
            Some(LogLevel::Off)
        } else if str_eq(s, "error") {
            Some(LogLevel::Error)
        } else if str_eq(s, "warn") {
            Some(LogLevel::Warn)
        } else if str_eq(s, "info") {
            Some(LogLevel::Info)
        } else if str_eq(s, "debug") {
            Some(LogLevel::Debug)
        } else if str_eq(s, "trace") {
            Some(LogLevel::Trace)
        } else {
            proof {
                assert forall|v: LogLevel| s@ != v.spec_str() by {
                    match v {
                        LogLevel::Off => {},
                        LogLevel::Error => {},
                        LogLevel::Warn => {},
                        LogLevel::Info => {},
                        LogLevel::Debug => {},
                        LogLevel::Trace => {},
                    }
                }
            }
            None
        }
    }
}

/// The runtime configuration: the account's credentials, where the
/// routing layer binds, and the optional metadata-lookup token and
/// pinned mirror domain.
pub struct Config {
    pub username: String,
    pub password: String,
    pub bind_ip: String,
    pub bind_port: u16,
    pub log_level: LogLevel,
    pub tmdb_token: Option<String>,
    pub ygg_domain: Option<String>,
}

impl Config {
    /// The placeholder credentials a fresh configuration file carries.
    pub fn placeholder() -> (r: Config)
        ensures
            r.username@ == "your_ygg_username"@,
            r.password@ == "your_ygg_password"@,
            r.bind_ip@ == "0.0.0.0"@,
            r.bind_port == 8715,
            r.log_level == LogLevel::Debug,
            r.tmdb_token is None,
            r.ygg_domain is None,
    {
        Config {
            username: String::from_str("your_ygg_username"),
            password: String::from_str("your_ygg_password"),
            bind_ip: String::from_str("0.0.0.0"),
            bind_port: 8715,
            log_level: LogLevel::Debug,
            tmdb_token: None,
            ygg_domain: None,
        }
    }

    /// A configuration is usable only once both placeholder credentials
    /// have been replaced.
    pub fn credentials_set(&self) -> (r: bool)
        ensures
            r == (self.username@ != "your_ygg_username"@ && self.password@
                != "your_ygg_password"@),
    {
        !str_eq(self.username.as_str(), "your_ygg_username") && !str_eq(
            self.password.as_str(),
            "your_ygg_password",
        )
    }
}

} // verus!
