//! Log levels and the verbosity filter: which messages are written, and the
//! line each one becomes. Writing the line is left to the caller.
use vstd::prelude::*;
use vstd::string::StringExecFns;

verus! {

/// The level of a log message, from the most talkative to the most severe.
#[derive(Clone, Copy, Debug, PartialEq, Eq, Structural)]
pub enum LogLevel {
    Verbose,
    Info,
    Debug,
    Warn,
    Error,
}

/// The rank of a level: 1 for `Verbose` up to 5 for `Error`.
pub open spec fn rank(level: LogLevel) -> nat {
    match level {
        LogLevel::Verbose => 1,
        LogLevel::Info => 2,
        LogLevel::Debug => 3,
        LogLevel::Warn => 4,
        LogLevel::Error => 5,
    }
}

/// The name a level is written with.
pub open spec fn level_name(level: LogLevel) -> Seq<char> {
    match level {
        LogLevel::Verbose => "VERBOSE"@,
        LogLevel::Info => "INFO"@,
        LogLevel::Debug => "DEBUG"@,
        LogLevel::Warn => "WARN"@,
        LogLevel::Error => "ERROR"@,
    }
}

/// The line a message of `level` is written as: `[LEVEL]: data`.
pub open spec fn log_line(level: LogLevel, data: Seq<char>) -> Seq<char> {
    "["@ + level_name(level) + "]: "@ + data
}

impl LogLevel {
    /// The name of this level, such as `INFO`.
    pub fn to_string(&self) -> (r: &'static str)
        ensures
            r@ == level_name(*self),
    {
        match self {
            LogLevel::Verbose => "VERBOSE",
            LogLevel::Info => "INFO",
            LogLevel::Debug => "DEBUG",
            LogLevel::Warn => "WARN",
            LogLevel::Error => "ERROR",
        }
    }

    fn rank(&self) -> (r: u8)
        ensures
            r == rank(*self),
    {
        match self {
            LogLevel::Verbose => 1,
            LogLevel::Info => 2,
            LogLevel::Debug => 3,
            LogLevel::Warn => 4,
            LogLevel::Error => 5,
        }
    }
}

/// The verbosity below which messages are dropped.
pub struct LogFilter {
    verbosity: LogLevel,
}

impl View for LogFilter {
    type V = LogLevel;

    closed spec fn view(&self) -> LogLevel {
        self.verbosity
    }
}

impl LogFilter {
    /// A filter that lets through messages of `verbosity` and above.
    pub fn new(verbosity: LogLevel) -> (r: LogFilter)
        ensures
            r@ == verbosity,
    {
        LogFilter { verbosity }
    }
}

/// The line for a message of `level`, when the filter lets it through.
pub fn write(filter: &LogFilter, level: LogLevel, data: &str) -> (r: Option<String>)
    ensures
        r is Some == (rank(filter@) <= rank(level)),
        r matches Some(line) ==> line@ == log_line(level, data@),
{
    if filter.verbosity.rank() <= level.rank() {
        let line = String::from_str("[").concat(level.to_string()).concat("]: ").concat(data);
        Some(line)
    } else {
        None
    }
}

/// A `VERBOSE` message, when the filter lets it through.
pub fn verbose(filter: &LogFilter, data: &str) -> (r: Option<String>)
    ensures
        r is Some == (rank(filter@) <= 1),
        r matches Some(line) ==> line@ == log_line(LogLevel::Verbose, data@),
{
    write(filter, LogLevel::Verbose, data)
}

/// An `INFO` message, when the filter lets it through.
pub fn info(filter: &LogFilter, data: &str) -> (r: Option<String>)
    ensures
        r is Some == (rank(filter@) <= 2),
        r matches Some(line) ==> line@ == log_line(LogLevel::Info, data@),
{
    write(filter, LogLevel::Info, data)
}

/// A `DEBUG` message, when the filter lets it through.
pub fn debug(filter: &LogFilter, data: &str) -> (r: Option<String>)
    ensures
        r is Some == (rank(filter@) <= 3),
        r matches Some(line) ==> line@ == log_line(LogLevel::Debug, data@),
{
    write(filter, LogLevel::Debug, data)
}

/// A `WARN` message, when the filter lets it through.
pub fn warn(filter: &LogFilter, data: &str) -> (r: Option<String>)
    ensures
        r is Some == (rank(filter@) <= 4),
        r matches Some(line) ==> line@ == log_line(LogLevel::Warn, data@),
{
    write(filter, LogLevel::Warn, data)
}

/// An `ERROR` message; every filter lets it through.
pub fn error(filter: &LogFilter, data: &str) -> (r: Option<String>)
    ensures
        r is Some,
        r matches Some(line) ==> line@ == log_line(LogLevel::Error, data@),
{
    write(filter, LogLevel::Error, data)
}

/// Sets the verbosity of `filter` to `log_level`.
pub fn set_verbosity(filter: &mut LogFilter, log_level: LogLevel)
    ensures
        final(filter)@ == log_level,
{
    filter.verbosity = log_level;
}

} // verus!
