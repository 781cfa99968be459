//! Leveled logging: the levels, the interface of a logger, and the line
//! that a console logger writes for a record.

use vstd::prelude::*;
use vstd::string::to_string_from_display_ensures;
use vstd::string::StringExecFns;

verus! {

/// How much a record matters, from the least to the most.
pub enum LogLevel {
    Trace,
    Debug,
    Info,
    Warn,
    Error,
}

impl LogLevel {
    /// The terminal escape sequence that sets the level's colour.
    pub open spec fn color(self) -> Seq<char> {
        match self {
            LogLevel::Trace => "\x1b[94m"@,
            LogLevel::Debug => "\x1b[36m"@,
            LogLevel::Info => "\x1b[32m"@,
            LogLevel::Warn => "\x1b[33m"@,
            LogLevel::Error => "\x1b[31m"@,
        }
    }

    /// The level's name, padded to five characters.
    pub open spec fn name(self) -> Seq<char> {
        match self {
            LogLevel::Trace => "TRACE"@,
            LogLevel::Debug => "DEBUG"@,
            LogLevel::Info => "INFO "@,
            LogLevel::Warn => "WARN "@,
            LogLevel::Error => "ERROR"@,
        }
    }

    /// The terminal escape sequence that sets the level's colour.
    pub fn color_code(&self) -> (code: &'static str)
        ensures
            code@ == self.color(),
    {
        match self {
            LogLevel::Trace => "\x1b[94m",
            LogLevel::Debug => "\x1b[36m",
            LogLevel::Info => "\x1b[32m",
            LogLevel::Warn => "\x1b[33m",
            LogLevel::Error => "\x1b[31m",
        }
    }

    /// The level's name, padded to five characters.
    pub fn level_str(&self) -> (name: &'static str)
        ensures
            name@ == self.name(),
    {
        match self {
            LogLevel::Trace => "TRACE",
            LogLevel::Debug => "DEBUG",
            LogLevel::Info => "INFO ",
            LogLevel::Warn => "WARN ",
            LogLevel::Error => "ERROR",
        }
    }
}

/// Something that takes records. `log` is all an implementation has to
/// give; the other methods log at their level.
pub trait Logger {
    /// Takes one record.
    fn log(&self, level: LogLevel, message: &str);

    /// Logs `message` at `LogLevel::Trace`.
    fn trace(&self, message: &str)
        default_ensures
            call_ensures(Self::log, (self, LogLevel::Trace, message), ()),
    {
        self.log(LogLevel::Trace, message);
    }

    /// Logs `message` at `LogLevel::Debug`.
    fn debug(&self, message: &str)
        default_ensures
            call_ensures(Self::log, (self, LogLevel::Debug, message), ()),
    {
        self.log(LogLevel::Debug, message);
    }

    /// Logs `message` at `LogLevel::Info`.
    fn info(&self, message: &str)
        default_ensures
            call_ensures(Self::log, (self, LogLevel::Info, message), ()),
    {
        self.log(LogLevel::Info, message);
    }

    /// Logs `message` at `LogLevel::Warn`.
    fn warn(&self, message: &str)
        default_ensures
            call_ensures(Self::log, (self, LogLevel::Warn, message), ()),
    {
        self.log(LogLevel::Warn, message);
    }

    /// Logs `message` at `LogLevel::Error`.
    fn error(&self, message: &str)
        default_ensures
            call_ensures(Self::log, (self, LogLevel::Error, message), ()),
    {
        self.log(LogLevel::Error, message);
    }
}

/// `line` is the console line of a record: the level's colour and name, the
/// time in seconds since the epoch in square brackets, the message, and the
/// escape sequence that resets the colour.
pub open spec fn is_record(level: LogLevel, seconds: u64, message: Seq<char>, line: Seq<char>) -> bool {
    exists|stamp: String| #[trigger]
        to_string_from_display_ensures::<u64>(&seconds, stamp) && line == level.color()
            + level.name() + " ["@ + stamp@ + "] "@ + message + "\x1b[0m"@
}

/// The console line for a record taken `seconds` after the epoch.
pub fn format_record(level: LogLevel, seconds: u64, message: &str) -> (line: String)
    ensures
        is_record(level, seconds, message@, line@),
{
    let stamp = seconds.to_string();
    let mut line = String::from_str(level.color_code());
    line.append(level.level_str());
    line.append(" [");
    line.append(stamp.as_str());
    line.append("] ");
    line.append(message);
    line.append("\x1b[0m");
    assert(to_string_from_display_ensures::<u64>(&seconds, stamp));
    line
}

} // verus!
