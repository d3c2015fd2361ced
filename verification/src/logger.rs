//! Log levels, their colours, and which messages a level lets through.
use vstd::prelude::*;

verus! {

/// Terminal colours of log lines.
#[derive(Copy, Clone, Debug, PartialEq, Eq, Structural)]
pub enum Color {
    Red,
    Yellow,
    Purple,
    Green,
    Blue,
}

/// The ANSI colour code of each colour.
pub open spec fn color_code_spec(c: Color) -> i32 {
    match c {
        Color::Red => 31,
        Color::Yellow => 93,
        Color::Purple => 35,
        Color::Green => 32,
        Color::Blue => 94,
    }
}

impl Color {
    /// The ANSI colour code.
    pub fn code(&self) -> (r: i32)
        ensures
            r == color_code_spec(*self),
    {
        match self {
            Color::Red => 31,
            Color::Yellow => 93,
            Color::Purple => 35,
            Color::Green => 32,
            Color::Blue => 94,
        }
    }
}

/// Severity of a log message, most severe first.
#[derive(Copy, Clone, Debug, PartialEq, Eq, Structural)]
pub enum LogLevel {
    ERROR,
    WARN,
    INFO,
    DEBUG,
    TRACE,
}

/// The weight of each level: 50 for ERROR down to 10 for TRACE.
pub open spec fn level_value(l: LogLevel) -> u8 {
    match l {
        LogLevel::ERROR => 50,
        LogLevel::WARN => 40,
        LogLevel::INFO => 30,
        LogLevel::DEBUG => 20,
        LogLevel::TRACE => 10,
    }
}

impl LogLevel {
    /// The weight of the level.
    pub fn value(&self) -> (r: u8)
        ensures
            r == level_value(*self),
    {
        match self {
            LogLevel::ERROR => 50,
            LogLevel::WARN => 40,
            LogLevel::INFO => 30,
            LogLevel::DEBUG => 20,
            LogLevel::TRACE => 10,
        }
    }

    /// The colour in which messages of this level are written.
    pub fn color(&self) -> (r: Color)
        ensures
            *self == LogLevel::ERROR ==> r == Color::Red,
            *self == LogLevel::WARN ==> r == Color::Yellow,
            *self == LogLevel::INFO ==> r == Color::Purple,
            *self == LogLevel::DEBUG ==> r == Color::Green,
            *self == LogLevel::TRACE ==> r == Color::Blue,
    {
        match self {
            LogLevel::ERROR => Color::Red,
            LogLevel::WARN => Color::Yellow,
            LogLevel::INFO => Color::Purple,
            LogLevel::DEBUG => Color::Green,
            LogLevel::TRACE => Color::Blue,
        }
    }
}

/// The level the kernel is built with.
pub fn log_level() -> (r: LogLevel)
    ensures
        r == LogLevel::DEBUG,
{
    LogLevel::DEBUG
}

/// A message of level `level` is written when it is at least as severe as
/// `threshold`.
pub fn enabled(level: LogLevel, threshold: LogLevel) -> (r: bool)
    ensures
        r == (level_value(level) >= level_value(threshold)),
{
    level.value() >= threshold.value()
}

/// Lowering the threshold lets more through: what one level lets through,
/// every less severe threshold lets through too.
pub proof fn lemma_enabled_monotone(level: LogLevel, t1: LogLevel, t2: LogLevel)
    requires
        level_value(t2) <= level_value(t1),
        level_value(level) >= level_value(t1),
    ensures
        level_value(level) >= level_value(t2),
{
}

} // verus!
