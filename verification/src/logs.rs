//! Log entries: a level, a message and the time the entry was made.

use vstd::prelude::*;
use chrono::TimeZone;
use crate::text::{decimal, push_char, push_decimal};

verus! {

/// The severity of a log entry.
#[derive(Clone, Copy, PartialEq, Eq, Structural, Debug)]
pub enum LogLevel {
    Trace,
    Debug,
    Info,
    Warn,
    Error,
}

/// The name a level is shown with.
pub open spec fn level_name(l: LogLevel) -> Seq<char> {
    match l {
        LogLevel::Trace => seq!['T', 'r', 'a', 'c', 'e'],
        LogLevel::Debug => seq!['D', 'e', 'b', 'u', 'g'],
        LogLevel::Info => seq!['I', 'n', 'f', 'o'],
        LogLevel::Warn => seq!['W', 'a', 'r', 'n'],
        LogLevel::Error => seq!['E', 'r', 'r', 'o', 'r'],
    }
}

impl LogLevel {
    /// The name the level is shown with.
    pub fn name(&self) -> (r: &'static str)
        ensures
            r@ == level_name(*self),
    {
        match self {
            LogLevel::Trace => {
                proof {
                    reveal_strlit("Trace");
                }
                "Trace"
            },
            LogLevel::Debug => {
                proof {
                    reveal_strlit("Debug");
                }
                "Debug"
            },
            LogLevel::Info => {
                proof {
                    reveal_strlit("Info");
                }
                "Info"
            },
            LogLevel::Warn => {
                proof {
                    reveal_strlit("Warn");
                }
                "Warn"
            },
            LogLevel::Error => {
                proof {
                    reveal_strlit("Error");
                }
                "Error"
            },
        }
    }
}

/// One log entry.
pub struct LogEntry {
    id: u64,
    level: LogLevel,
    message: String,
    timestamp_ms: u64,
}

/// A log entry as mathematical values.
pub struct LogEntryView {
    pub id: u64,
    pub level: LogLevel,
    pub message: Seq<char>,
    pub timestamp_ms: u64,
}

impl View for LogEntry {
    type V = LogEntryView;

    closed spec fn view(&self) -> LogEntryView {
        LogEntryView {
            id: self.id,
            level: self.level,
            message: self.message@,
            timestamp_ms: self.timestamp_ms,
        }
    }
}

/// The earliest instant, in milliseconds from the Unix epoch, that chrono's
/// UTC date-times can hold (the first millisecond of the first of January of
/// year -262143).
pub open spec fn earliest_utc_millis() -> int {
    -8334601228800000
}

/// The latest instant, in milliseconds from the Unix epoch, that chrono's
/// UTC date-times can hold (the last millisecond of year 262142).
pub open spec fn latest_utc_millis() -> int {
    8210266876799999
}

/// The strftime pattern of a log timestamp: `%Y-%m-%d %H:%M:%S`.
pub open spec fn timestamp_pattern() -> Seq<char> {
    seq!['%', 'Y', '-', '%', 'm', '-', '%', 'd', ' ', '%', 'H', ':', '%', 'M', ':', '%', 'S']
}

/// The text that chrono makes of the UTC date-time `millis` milliseconds
/// from the Unix epoch under the strftime `pattern`.
pub uninterp spec fn utc_millis_text(millis: int, pattern: Seq<char>) -> Seq<char>;

/// chrono's `Utc.timestamp_millis_opt(millis)`, unwrapped, formatted with
/// `pattern` and turned into a `String`.  Trusted: the result is chrono's
/// text for that instant and pattern.  The instant must lie in chrono's
/// range (else the unwrap fails) and the pattern is the timestamp pattern,
/// which chrono accepts.
#[verifier::external_body]
fn format_utc_millis(millis: i64, pattern: &str) -> (r: String)
    requires
        earliest_utc_millis() <= millis <= latest_utc_millis(),
        pattern@ == timestamp_pattern(),
    ensures
        r@ == utc_millis_text(millis as int, pattern@),
{
    chrono::Utc.timestamp_millis_opt(millis).unwrap().format(pattern).to_string()
}

/// A `u64` read as the `i64` with the same bits.
pub open spec fn as_signed(x: u64) -> int {
    if x <= 0x7fff_ffff_ffff_ffff {
        x as int
    } else {
        x as int - 0x1_0000_0000_0000_0000
    }
}

/// The timestamp can be shown: read as a signed number of milliseconds it
/// lies in chrono's range.
pub open spec fn timestamp_in_range(ms: u64) -> bool {
    earliest_utc_millis() <= as_signed(ms) <= latest_utc_millis()
}

/// The timestamp of an entry as text, `YYYY-MM-DD HH:MM:SS` in UTC.
pub open spec fn timestamp_text(ms: u64) -> Seq<char> {
    utc_millis_text(as_signed(ms), timestamp_pattern())
}

/// The id right-aligned in two columns.
pub open spec fn padded_id(id: u64) -> Seq<char> {
    if id < 10 {
        seq![' '] + decimal(id as nat)
    } else {
        decimal(id as nat)
    }
}

/// How an entry is shown with the timestamp written as `stamp`:
/// `(id) [Level] stamp: message`, the id right-aligned in two columns.
pub open spec fn entry_text_with(e: LogEntryView, stamp: Seq<char>) -> Seq<char> {
    seq!['('] + padded_id(e.id) + seq![')', ' ', '['] + level_name(e.level) + seq![']', ' '] + stamp
        + seq![':', ' '] + e.message
}

/// How an entry is shown: `(id) [Level] timestamp: message`, the id
/// right-aligned in two columns.
pub open spec fn entry_text(e: LogEntryView) -> Seq<char> {
    entry_text_with(e, timestamp_text(e.timestamp_ms))
}

fn signed_millis(ms: u64) -> (r: i64)
    requires
        timestamp_in_range(ms),
    ensures
        r as int == as_signed(ms),
{
    if ms <= 0x7fff_ffff_ffff_ffff {
        ms as i64
    } else {
        let back = 0xffff_ffff_ffff_ffff - ms;
        -(back as i64) - 1
    }
}

impl LogEntry {
    /// An entry made at `timestamp_ms` milliseconds after the Unix epoch.
    pub fn new(id: u64, level: LogLevel, message: String, timestamp_ms: u64) -> (e: LogEntry)
        ensures
            e@ == (LogEntryView { id, level, message: message@, timestamp_ms }),
    {
        LogEntry { id, level, message, timestamp_ms }
    }

    pub fn id(&self) -> (r: u64)
        ensures
            r == self@.id,
    {
        self.id
    }

    pub fn level(&self) -> (r: LogLevel)
        ensures
            r == self@.level,
    {
        self.level
    }

    pub fn timestamp_ms(&self) -> (r: u64)
        ensures
            r == self@.timestamp_ms,
    {
        self.timestamp_ms
    }

    /// Replaces the message.
    pub fn set_message(&mut self, message: String)
        ensures
            final(self)@ == (LogEntryView { message: message@, ..old(self)@ }),
    {
        self.message = message;
    }

    pub fn message(&self) -> (r: &str)
        ensures
            r@ == self@.message,
    {
        self.message.as_str()
    }

    /// Whether the timestamp lies in the range that can be shown.
    pub fn timestamp_displayable(&self) -> (r: bool)
        ensures
            r == timestamp_in_range(self@.timestamp_ms),
    {
        let signed: i128 = if self.timestamp_ms <= 0x7fff_ffff_ffff_ffff {
            self.timestamp_ms as i128
        } else {
            self.timestamp_ms as i128 - 0x1_0000_0000_0000_0000
        };
        -8334601228800000 <= signed && signed <= 8210266876799999
    }

    /// The timestamp as `YYYY-MM-DD HH:MM:SS` in UTC.
    pub fn timestamp_to_str(&self) -> (r: String)
        requires
            timestamp_in_range(self@.timestamp_ms),
        ensures
            r@ == timestamp_text(self@.timestamp_ms),
    {
        let pattern = "%Y-%m-%d %H:%M:%S";
        proof {
            reveal_strlit("%Y-%m-%d %H:%M:%S");
            assert(pattern@ =~= timestamp_pattern());
        }
        format_utc_millis(signed_millis(self.timestamp_ms), pattern)
    }

    /// The entry as shown in a report: `(id) [Level] timestamp: message`.
    pub fn to_display_string(&self) -> (r: String)
        requires
            timestamp_in_range(self@.timestamp_ms),
        ensures
            r@ == entry_text(self@),
    {
        let stamp = self.timestamp_to_str();
        self.display_with_timestamp(stamp.as_str())
    }

    /// The entry as shown in a report, with the timestamp written as
    /// `stamp`: `(id) [Level] stamp: message`.
    pub fn display_with_timestamp(&self, stamp: &str) -> (r: String)
        ensures
            r@ == entry_text_with(self@, stamp@),
    {
        let mut out = String::new();
        push_char(&mut out, '(');
        if self.id < 10 {
            push_char(&mut out, ' ');
        }
        push_decimal(&mut out, self.id);
        push_char(&mut out, ')');
        push_char(&mut out, ' ');
        push_char(&mut out, '[');
        out.append(self.level.name());
        push_char(&mut out, ']');
        push_char(&mut out, ' ');
        out.append(stamp);
        push_char(&mut out, ':');
        push_char(&mut out, ' ');
        out.append(self.message.as_str());
        proof {
            assert(out@ =~= entry_text_with(self@, stamp@));
        }
        out
    }
}

} // verus!
