//! How much is logged.
use vstd::prelude::*;

use crate::text_lines::ascii_lower;

verus! {

/// How important a log message is.
#[derive(Debug, Clone, Copy, PartialEq, Eq, PartialOrd, Ord, Structural)]
pub enum LogLevel {
    Error,
    Warn,
    Info,
    Debug,
    Trace,
}

impl LogLevel {
    /// The name of the level.
    pub open spec fn name(self) -> Seq<char> {
        match self {
            LogLevel::Error => "ERROR"@,
            LogLevel::Warn => "WARN"@,
            LogLevel::Info => "INFO"@,
            LogLevel::Debug => "DEBUG"@,
            LogLevel::Trace => "TRACE"@,
        }
    }

    /// The name of the level.
    pub fn as_str(self) -> (name: &'static str)
        ensures
            name@ == self.name(),
    {
        match self {
            LogLevel::Error => "ERROR",
            LogLevel::Warn => "WARN",
            LogLevel::Info => "INFO",
            LogLevel::Debug => "DEBUG",
            LogLevel::Trace => "TRACE",
        }
    }
}

/// The level for a number from zero, which is no logging at all, to five.
pub open spec fn level_of(verbose: u32) -> Option<LogLevel> {
    if verbose == 0 {
        None
    } else if verbose == 1 {
        Some(LogLevel::Error)
    } else if verbose == 2 {
        Some(LogLevel::Warn)
    } else if verbose == 3 {
        Some(LogLevel::Info)
    } else if verbose == 4 {
        Some(LogLevel::Debug)
    } else {
        Some(LogLevel::Trace)
    }
}

/// The level for a number from zero, which is no logging at all, to five.
pub fn verbosity_level(verbose: u32) -> (level: Option<LogLevel>)
    ensures
        level == level_of(verbose),
{
    match verbose {
        0 => None,
        1 => Some(LogLevel::Error),
        2 => Some(LogLevel::Warn),
        3 => Some(LogLevel::Info),
        4 => Some(LogLevel::Debug),
        _ => Some(LogLevel::Trace),
    }
}

/// The filter for log messages that is used if no other one is configured. Chatty
/// libraries log less than the program itself.
pub open spec fn filter_of(level: Option<LogLevel>) -> Seq<char> {
    match level {
        Some(LogLevel::Trace) =>
            "trace,dav_server=debug,xml=debug,file_system_backup::mount::web_dav_mount=debug"@,
        Some(LogLevel::Debug) => "debug,dav_server=info,xml=info,mft::mft=info"@,
        Some(LogLevel::Info) => "info"@,
        Some(LogLevel::Warn) => "warn"@,
        Some(LogLevel::Error) => "error"@,
        None => "off"@,
    }
}

/// The filter for log messages that is used if no other one is configured.
pub fn default_filter(level: Option<LogLevel>) -> (filter: &'static str)
    ensures
        filter@ == filter_of(level),
{
    match level {
        Some(LogLevel::Trace) =>
            "trace,dav_server=debug,xml=debug,file_system_backup::mount::web_dav_mount=debug",
        Some(LogLevel::Debug) => "debug,dav_server=info,xml=info,mft::mft=info",
        Some(LogLevel::Info) => "info",
        Some(LogLevel::Warn) => "warn",
        Some(LogLevel::Error) => "error",
        None => "off",
    }
}

/// Something about the requested verbosity.
#[derive(Debug, Clone, Copy, PartialEq, Eq, Structural)]
pub enum VerbosityWarning {
    /// The number is below zero.
    TooLow,
    /// The number is above five.
    TooHigh,
}

/// How to log.
#[derive(Debug, Clone, Copy, PartialEq, Eq, Structural)]
pub struct LoggingPlan {
    pub level: Option<LogLevel>,
    /// The requested verbosity.
    pub number: i32,
    /// The verbosity to report, at most five.
    pub reported: i32,
    pub warning: Option<VerbosityWarning>,
}

/// Options that all commands have.
#[derive(Debug, Clone, Copy, PartialEq, Eq, Structural)]
pub struct CommonOpt {
    /// How often more verbose logging was asked for.
    pub verbose: u8,
    /// How often less logging was asked for.
    pub quiet: u8,
}

impl CommonOpt {
    /// The requested verbosity, by default three.
    pub open spec fn number(self) -> int {
        3 - self.quiet + self.verbose
    }

    /// Decides how to log based on the verbosity arguments.
    pub fn configure_logging(&self) -> (plan: LoggingPlan)
        ensures
            plan.number == self.number(),
            plan.level == level_of(
                if self.number() < 0 {
                    0
                } else {
                    self.number() as u32
                },
            ),
            plan.reported == if self.number() > 5 {
                5
            } else {
                self.number()
            },
            plan.warning == if self.number() < 0 {
                Some(VerbosityWarning::TooLow)
            } else if self.number() > 5 {
                Some(VerbosityWarning::TooHigh)
            } else {
                None
            },
    {
        let number: i32 = 3 - (self.quiet as i32) + (self.verbose as i32);
        let level = verbosity_level(
            if number < 0 {
                0
            } else {
                number as u32
            },
        );
        let warning = if number < 0 {
            Some(VerbosityWarning::TooLow)
        } else if number > 5 {
            Some(VerbosityWarning::TooHigh)
        } else {
            None
        };
        LoggingPlan {
            level,
            number,
            reported: if number > 5 {
                5
            } else {
                number
            },
            warning,
        }
    }
}

/// The space that makes the level names in log messages equally long.
pub fn level_padding(level: LogLevel) -> (padding: &'static str)
    ensures
        padding@ == match level {
            LogLevel::Info | LogLevel::Warn => " "@,
            _ => ""@,
        },
{
    match level {
        LogLevel::Info | LogLevel::Warn => " ",
        _ => "",
    }
}

/// A higher verbosity never logs less.
pub proof fn law_verbosity_is_monotonic(a: u32, b: u32)
    requires
        a <= b,
    ensures
        level_of(a) matches Some(x) ==> level_of(b) matches Some(y) && rank(x) <= rank(y),
{
}

/// How much is logged at a level.
pub open spec fn rank(level: LogLevel) -> int {
    match level {
        LogLevel::Error => 1,
        LogLevel::Warn => 2,
        LogLevel::Info => 3,
        LogLevel::Debug => 4,
        LogLevel::Trace => 5,
    }
}

/// Each number up to five stands for a level that logs one more kind of messages than the
/// number before. Zero stands for none, and larger numbers for the same as five.
pub proof fn law_each_number_logs_one_level_more(verbose: u32)
    ensures
        level_of(verbose) is None <==> verbose == 0,
        level_of(verbose) matches Some(level) ==> rank(level) == if verbose > 5 {
            5
        } else {
            verbose as int
        },
{
}

/// The filter for a level starts with its name in lower case, and filters of different
/// levels differ.
pub proof fn law_filters_start_with_the_level(level: LogLevel, other: LogLevel)
    ensures
        level.name().len() <= filter_of(Some(level)).len(),
        filter_of(Some(level)).take(level.name().len() as int) == level.name().map_values(
            |c: char| ascii_lower(c),
        ),
        filter_of(Some(level)) == filter_of(Some(other)) ==> level == other,
        filter_of(Some(level)) != filter_of(None),
{
    reveal_strlit("ERROR");
    reveal_strlit("WARN");
    reveal_strlit("INFO");
    reveal_strlit("DEBUG");
    reveal_strlit("TRACE");
    reveal_strlit("error");
    reveal_strlit("warn");
    reveal_strlit("info");
    reveal_strlit("debug,dav_server=info,xml=info,mft::mft=info");
    reveal_strlit(
        "trace,dav_server=debug,xml=debug,file_system_backup::mount::web_dav_mount=debug",
    );
    reveal_strlit("off");
    let lower = level.name().map_values(|c: char| ascii_lower(c));
    let start = filter_of(Some(level)).take(level.name().len() as int);
    assert forall|i: int| 0 <= i < lower.len() implies #[trigger] lower[i] == start[i] by {
        assert(lower[i] == ascii_lower(level.name()[i]));
    }
    assert(start == lower);
    assert(filter_of(Some(level))[0] == lower[0]);
    assert(filter_of(Some(other))[0] == ascii_lower(other.name()[0]));
    assert(filter_of(None)[0] == 'o');
}

/// Asking for more and for less the same number of times changes nothing, and each time
/// that more is asked for raises the number by one.
pub proof fn law_quiet_undoes_verbose(options: CommonOpt, times: u8)
    requires
        options.verbose + times <= u8::MAX,
        options.quiet + times <= u8::MAX,
    ensures
        (CommonOpt { verbose: (options.verbose + times) as u8, ..options }).number()
            == options.number() + times,
        (CommonOpt {
            verbose: (options.verbose + times) as u8,
            quiet: (options.quiet + times) as u8,
        }).number() == options.number(),
        (CommonOpt { verbose: 0, quiet: 0 }).number() == 3,
{
}

} // verus!
