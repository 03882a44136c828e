//! The program's settings and their validation.

use vstd::prelude::*;

verus! {

/// Log levels, from the most to the least verbose.
#[derive(Debug, Clone, Copy, PartialEq, Eq, Structural)]
pub enum LogLevel {
    Trace,
    Debug,
    Info,
    Warn,
    Error,
}

/// The name of a log level, as the logger takes it.
pub open spec fn spec_level_name(level: LogLevel) -> Seq<char> {
    match level {
        LogLevel::Trace => "trace"@,
        LogLevel::Debug => "debug"@,
        LogLevel::Info => "info"@,
        LogLevel::Warn => "warn"@,
        LogLevel::Error => "error"@,
    }
}

impl LogLevel {
    /// The name of this log level, as the logger takes it.
    pub fn as_str(&self) -> (r: &'static str)
        ensures
            r@ == spec_level_name(*self),
    {
        match self {
            LogLevel::Trace => "trace",
            LogLevel::Debug => "debug",
            LogLevel::Info => "info",
            LogLevel::Warn => "warn",
            LogLevel::Error => "error",
        }
    }
}

/// The program's settings, as given on its command line.
#[derive(Debug, Clone)]
pub struct Config {
    /// Starting Wikipedia URL.
    pub start_url: String,
    /// Target Wikipedia URL.
    pub target_url: String,
    /// Maximum number of URLs to crawl.
    pub max_urls: usize,
    /// Maximum depth to crawl.
    pub max_depth: usize,
    /// Number of workers crawling concurrently.
    pub thread_count: usize,
    /// Delay between requests, in milliseconds.
    pub request_delay: u64,
    /// File to write the link graph to.
    pub output_file: Option<String>,
    /// Whether to log verbosely.
    pub verbose: bool,
    /// Logging level.
    pub log_level: LogLevel,
}

/// Why a configuration is refused.
#[derive(Debug, Clone, Copy, PartialEq, Eq, Structural)]
pub enum ConfigError {
    MaxUrlsZero,
    MaxDepthZero,
    ThreadCountZero,
}

/// The message that goes with a refusal.
pub open spec fn spec_error_message(e: ConfigError) -> Seq<char> {
    match e {
        ConfigError::MaxUrlsZero => "max_urls must be greater than 0"@,
        ConfigError::MaxDepthZero => "max_depth must be greater than 0"@,
        ConfigError::ThreadCountZero => "thread_count must be greater than 0"@,
    }
}

impl ConfigError {
    /// The message that goes with this refusal.
    pub fn message(&self) -> (r: &'static str)
        ensures
            r@ == spec_error_message(*self),
    {
        match self {
            ConfigError::MaxUrlsZero => "max_urls must be greater than 0",
            ConfigError::MaxDepthZero => "max_depth must be greater than 0",
            ConfigError::ThreadCountZero => "thread_count must be greater than 0",
        }
    }
}

impl Config {
    /// Checks that every limit is positive; the first limit that is zero,
    /// in the order `max_urls`, `max_depth`, `thread_count`, is the error.
    pub fn validate(&self) -> (r: Result<(), ConfigError>)
        ensures
            self.max_urls == 0 ==> r == Err::<(), ConfigError>(ConfigError::MaxUrlsZero),
            self.max_urls > 0 && self.max_depth == 0 ==> r == Err::<(), ConfigError>(ConfigError::MaxDepthZero),
            self.max_urls > 0 && self.max_depth > 0 && self.thread_count == 0 ==> r == Err::<(), ConfigError>(ConfigError::ThreadCountZero),
            r is Ok <==> (self.max_urls > 0 && self.max_depth > 0 && self.thread_count > 0),
    {
        if self.max_urls == 0 {
            return Err(ConfigError::MaxUrlsZero);
        }
        if self.max_depth == 0 {
            return Err(ConfigError::MaxDepthZero);
        }
        if self.thread_count == 0 {
            return Err(ConfigError::ThreadCountZero);
        }
        Ok(())
    }
}

} // verus!
