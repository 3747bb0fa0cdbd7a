//! Log level selection.
//!
//! The process reads its file and console log levels from configuration
//! strings; an unknown name is a startup configuration error. The levels are
//! carried as the library's own tag; the host maps them onto its logging
//! backend.

use vstd::prelude::*;

verus! {

use crate::error::Error;
use crate::model::str_eq;

/// A log verbosity level.
#[derive(Clone, Copy, Debug, PartialEq, Eq, Structural)]
pub enum LogLevel {
    Off,
    Trace,
    Debug,
    Info,
    Warn,
    Error,
}

/// The level a configuration string names, if any.
pub open spec fn log_level_spec(s: Seq<char>) -> Option<LogLevel> {
    if s == "off"@ {
        Some(LogLevel::Off)
    } else if s == "trace"@ {
        Some(LogLevel::Trace)
    } else if s == "debug"@ {
        Some(LogLevel::Debug)
    } else if s == "info"@ {
        Some(LogLevel::Info)
    } else if s == "warn"@ {
        Some(LogLevel::Warn)
    } else if s == "error"@ {
        Some(LogLevel::Error)
    } else {
        None
    }
}

/// Maps a configuration string to its level; any other string is rejected
/// with the offending value.
pub fn log_level(level_str: &str) -> (r: Result<LogLevel, Error>)
    ensures
        log_level_spec(level_str@) matches Some(l) ==> r == Ok::<LogLevel, Error>(l),
        log_level_spec(level_str@) is None ==> (r matches Err(Error::StringParsingError(m)) && m@
            == level_str@),
{
    if str_eq(level_str, "off") {
        Ok(LogLevel::Off)
    } else if str_eq(level_str, "trace") {
        Ok(LogLevel::Trace)
    } else if str_eq(level_str, "debug") {
        Ok(LogLevel::Debug)
    } else if str_eq(level_str, "info") {
        Ok(LogLevel::Info)
    } else if str_eq(level_str, "warn") {
        Ok(LogLevel::Warn)
    } else if str_eq(level_str, "error") {
        Ok(LogLevel::Error)
    } else {
        Err(Error::from_parse_failure(level_str))
    }
}

/// The file log level: the configured string, or `Off` when none is set.
pub fn file_log_level(configured: Option<&str>) -> (r: Result<LogLevel, Error>)
    ensures
        configured matches Some(s) ==> ((log_level_spec(s@) matches Some(l) ==> r == Ok::<
            LogLevel,
            Error,
        >(l)) && (log_level_spec(s@) is None ==> (r matches Err(Error::StringParsingError(m))
            && m@ == s@))),
        configured is None ==> r == Ok::<LogLevel, Error>(LogLevel::Off),
{
    match configured {
        Some(s) => log_level(s),
        None => Ok(LogLevel::Off),
    }
}

/// The console log level: the configured string, or `Off` when none is set.
pub fn console_log_level(configured: Option<&str>) -> (r: Result<LogLevel, Error>)
    ensures
        configured matches Some(s) ==> ((log_level_spec(s@) matches Some(l) ==> r == Ok::<
            LogLevel,
            Error,
        >(l)) && (log_level_spec(s@) is None ==> (r matches Err(Error::StringParsingError(m))
            && m@ == s@))),
        configured is None ==> r == Ok::<LogLevel, Error>(LogLevel::Off),
{
    match configured {
        Some(s) => log_level(s),
        None => Ok(LogLevel::Off),
    }
}

} // verus!
