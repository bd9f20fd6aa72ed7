//! The text of the log lines.

use crate::format::{decimal, push_decimal};
use vstd::prelude::*;
use vstd::string::StringExecFns;

verus! {

/// A time, given in seconds since the Unix epoch, as the log shows it.
pub open spec fn timestamp_text(secs: u64) -> Seq<char> {
    "timestamp:"@ + decimal(secs as nat)
}

/// One line of the log, without the line break: the time in brackets, the
/// level, a dash and the message.
pub open spec fn line_text(secs: u64, level: Seq<char>, message: Seq<char>) -> Seq<char> {
    "["@ + timestamp_text(secs) + "] "@ + level + " - "@ + message
}

/// Formats a time, given in seconds since the Unix epoch, for the log.
pub fn format_timestamp(secs: u64) -> (text: String)
    ensures
        text@ == timestamp_text(secs),
{
    let mut text = String::new();
    text.append("timestamp:");
    push_decimal(&mut text, secs as u128);
    assert(text@ =~= timestamp_text(secs));
    text
}

/// Formats one line of the log, without the line break.
pub fn format_line(secs: u64, level: &str, message: &str) -> (text: String)
    ensures
        text@ == line_text(secs, level@, message@),
{
    let mut text = String::new();
    text.append("[");
    text.append(format_timestamp(secs).as_str());
    text.append("] ");
    text.append(level);
    text.append(" - ");
    text.append(message);
    assert(text@ =~= line_text(secs, level@, message@));
    text
}

} // verus!
