//! Moments in time, as plain numbers.

use chrono::{DateTime, Utc};
use vstd::prelude::*;

verus! {

/// A moment in UTC: whole seconds since the start of 1970 and nanoseconds on top.
#[derive(Debug, Clone, Copy, PartialEq, Eq, Structural)]
pub struct Timestamp {
    pub secs: i64,
    pub nanos: u32,
}

/// What `chrono` writes for a moment when asked to follow `pattern`; `None` where the
/// numbers name no moment of its calendar.
pub uninterp spec fn utc_text(secs: i64, nanos: u32, pattern: Seq<char>) -> Option<Seq<char>>;

/// The pattern that moments are shown by.
pub open spec fn shown_pattern() -> Seq<char> {
    "%Y-%m-%d %H:%M:%S UTC"@
}

/// `chrono::Utc::now`, read as seconds and nanoseconds. Nothing is claimed of when it
/// is; what is claimed is that the moment is one of chrono's own, so that
/// `DateTime::from_timestamp` finds it again.
#[verifier::external_body]
fn utc_now() -> (r: (i64, u32))
    ensures
        utc_text(r.0, r.1, shown_pattern()) is Some,
{
    let now = Utc::now();
    (now.timestamp(), now.timestamp_subsec_nanos())
}

/// `chrono::DateTime::from_timestamp`, and `DateTime::format` on the moment it finds.
/// The result is what `utc_text` names. Only the one pattern is let through: `format`
/// cannot write a pattern that it does not understand.
#[verifier::external_body]
fn format_utc(secs: i64, nanos: u32, pattern: &str) -> (r: Option<String>)
    requires
        pattern@ == shown_pattern(),
    ensures
        match r {
            Some(t) => utc_text(secs, nanos, pattern@) == Some(t@),
            None => utc_text(secs, nanos, pattern@) is None,
        },
{
    DateTime::from_timestamp(secs, nanos).map(|t| t.format(pattern).to_string())
}

impl Timestamp {
    /// How the moment is shown, where the calendar has it.
    pub open spec fn shown(self) -> Option<Seq<char>> {
        utc_text(self.secs, self.nanos, shown_pattern())
    }

    /// The present moment.
    pub fn now() -> (t: Timestamp)
        ensures
            t.shown() is Some,
    {
        let (secs, nanos) = utc_now();
        Timestamp { secs, nanos }
    }

    /// The moment as year, month, day, hours, minutes and seconds.
    pub fn show(&self) -> (r: Option<String>)
        ensures
            match r {
                Some(t) => self.shown() == Some(t@),
                None => self.shown() is None,
            },
    {
        format_utc(self.secs, self.nanos, "%Y-%m-%d %H:%M:%S UTC")
    }
}

} // verus!
