//! What the shell answers by itself.

use vstd::prelude::*;

verus! {

/// Answers a ping: `pong: <msg>`.
pub fn ping(msg: String) -> (r: String)
    ensures
        r@ == "pong: "@ + msg@,
{
    "pong: ".to_owned().concat(msg.as_str())
}

/// How severe a log line is.
#[derive(Debug, Clone, Copy, PartialEq, Eq, Structural)]
pub enum LogLevel {
    /// An error.
    Error,
    /// A warning.
    Warn,
    /// Plain information.
    Info,
    /// For debugging.
    Debug,
    /// Finest detail.
    Trace,
}

/// The level that a name stands for. A name that stands for none means information.
pub open spec fn named_level(level: Seq<char>) -> LogLevel {
    if level == "error"@ {
        LogLevel::Error
    } else if level == "warn"@ {
        LogLevel::Warn
    } else if level == "debug"@ {
        LogLevel::Debug
    } else if level == "trace"@ {
        LogLevel::Trace
    } else {
        LogLevel::Info
    }
}

/// The level of a log line from the interface.
pub fn frontend_level(level: &String) -> (r: LogLevel)
    ensures
        r == named_level(level@),
{
    if *level == "error".to_owned() {
        LogLevel::Error
    } else if *level == "warn".to_owned() {
        LogLevel::Warn
    } else if *level == "debug".to_owned() {
        LogLevel::Debug
    } else if *level == "trace".to_owned() {
        LogLevel::Trace
    } else {
        LogLevel::Info
    }
}

/// Each of four levels has its own name, and every other name means information.
pub proof fn law_each_level_has_its_name(level: Seq<char>)
    ensures
        named_level("error"@) == LogLevel::Error,
        named_level("warn"@) == LogLevel::Warn,
        named_level("debug"@) == LogLevel::Debug,
        named_level("trace"@) == LogLevel::Trace,
        level != "error"@ && level != "warn"@ && level != "debug"@ && level != "trace"@ ==> named_level(level)
            == LogLevel::Info,
{
    reveal_strlit("error");
    reveal_strlit("warn");
    reveal_strlit("debug");
    reveal_strlit("trace");
    assert("warn"@.len() == 4);
    assert("debug"@[0] == 'd' && "error"@[0] == 'e' && "trace"@[0] == 't');
}

/// The text of a log line from the interface.
pub fn frontend_line(message: &str) -> (r: String)
    ensures
        r@ == "[ui] "@ + message@,
{
    "[ui] ".to_owned().concat(message)
}

} // verus!
