//! The configuration of the plugin.

use vstd::prelude::*;

verus! {

/// How much the plugin logs about itself.
#[derive(Debug, Clone, Copy, PartialEq, Eq, Structural)]
pub enum LogLevel {
    Trace,
    Debug,
    Info,
    Warn,
    Error,
}

impl LogLevel {
    /// The name of the level, as a filter directive takes it.
    pub open spec fn spec_name(self) -> Seq<char> {
        match self {
            LogLevel::Trace => "trace"@,
            LogLevel::Debug => "debug"@,
            LogLevel::Info => "info"@,
            LogLevel::Warn => "warn"@,
            LogLevel::Error => "error"@,
        }
    }

    /// The name of the level, as a filter directive takes it.
    pub fn name(self) -> (res: &'static str)
        ensures
            res@ == self.spec_name(),
    {
        match self {
            LogLevel::Trace => "trace",
            LogLevel::Debug => "debug",
            LogLevel::Info => "info",
            LogLevel::Warn => "warn",
            LogLevel::Error => "error",
        }
    }
}

/// What the plugin is started with. It is never changed afterwards, and
/// every processor gets a copy of its own.
#[derive(Debug)]
pub struct Config {
    /// Base address of the ingest endpoint.
    pub log_ingest_api: String,
    /// How much the plugin logs about itself.
    pub log_level: LogLevel,
}

/// The mathematical content of a [`Config`].
pub struct ConfigView {
    pub log_ingest_api: Seq<char>,
    pub log_level: LogLevel,
}

impl View for Config {
    type V = ConfigView;

    open spec fn view(&self) -> ConfigView {
        ConfigView { log_ingest_api: self.log_ingest_api@, log_level: self.log_level }
    }
}

/// The ingest address that is used where none is configured.
pub open spec fn default_ingest_api() -> Seq<char> {
    "http://localhost:8080"@
}

impl Config {
    /// The configuration that holds where nothing is set: the ingest
    /// endpoint on the local host, and the level `info`.
    pub fn with_defaults() -> (res: Self)
        ensures
            res@.log_ingest_api == default_ingest_api(),
            res@.log_level == LogLevel::Info,
    {
        Config { log_ingest_api: "http://localhost:8080".to_owned(), log_level: LogLevel::Info }
    }
}

impl Clone for Config {
    fn clone(&self) -> (res: Self)
        ensures
            res@ == self@,
    {
        Config { log_ingest_api: self.log_ingest_api.clone(), log_level: self.log_level }
    }
}

} // verus!
