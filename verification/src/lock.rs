//! When a lock file that is in the way may be removed.
//!
//! A lock file holds the moment at which it was made, in seconds. Files are made and
//! removed elsewhere.

use crate::numeral::{
    decimal, is_digit, lemma_decimal_digits, lemma_value_of_decimal, parse_number, parsed,
};
use crate::text::{chars_of, is_space, trim, trimmed};
use vstd::prelude::*;

verus! {

/// The age in seconds beyond which a lock counts as left behind.
pub const STALE_SECS: u64 = 30;

/// What came of trying to make the lock file.
#[derive(Debug, Clone, Copy, PartialEq, Eq, Structural)]
pub enum Attempt {
    /// It was made.
    Created,
    /// There is one already.
    Taken,
    /// Something else went wrong.
    Failed,
}

/// What to do after trying.
#[derive(Debug, Clone, Copy, PartialEq, Eq, Structural)]
pub enum Next {
    /// Hold the lock.
    Hold,
    /// Remove the lock that was left behind, and try again at once.
    Reclaim,
    /// Wait a little, and try again.
    Wait,
    /// Give up.
    GiveUp,
}

/// How old a lock is: by the moment that it holds, or, where it holds none, by the file's
/// own age. A lock that cannot be read counts as new.
pub open spec fn lock_age(contents: Option<Seq<char>>, now: u64, file_age: u64) -> int {
    match contents {
        None => 0,
        Some(s) => match parsed(trimmed(s), u64::MAX as nat) {
            Some(t) => if now > t {
                now - t
            } else {
                0
            },
            None => file_age as int,
        },
    }
}

/// The text of a file that may be unreadable.
pub open spec fn contents_text(contents: Option<&str>) -> Option<Seq<char>> {
    match contents {
        Some(s) => Some(s@),
        None => None,
    }
}

/// Whether a lock was left behind.
pub fn is_stale(contents: Option<&str>, now: u64, file_age: u64) -> (r: bool)
    ensures
        r == (lock_age(contents_text(contents), now, file_age) > STALE_SECS),
{
    let age: u64 = match contents {
        None => 0,
        Some(s) => match parse_number(&trim(&chars_of(s)), u64::MAX) {
            Some(t) => if now > t {
                now - t
            } else {
                0
            },
            None => file_age,
        },
    };
    age > STALE_SECS
}

/// What to do after trying to make the lock file, given what the one that is in the way
/// holds and how old it is.
pub fn after_attempt(attempt: Attempt, contents: Option<&str>, now: u64, file_age: u64) -> (r: Next)
    ensures
        r == (match attempt {
            Attempt::Created => Next::Hold,
            Attempt::Failed => Next::GiveUp,
            Attempt::Taken => if lock_age(contents_text(contents), now, file_age) > STALE_SECS {
                Next::Reclaim
            } else {
                Next::Wait
            },
        }),
{
    match attempt {
        Attempt::Created => Next::Hold,
        Attempt::Failed => Next::GiveUp,
        Attempt::Taken => if is_stale(contents, now, file_age) {
            Next::Reclaim
        } else {
            Next::Wait
        },
    }
}

/// A lock made at the moment `made` is respected for [`STALE_SECS`] seconds and not
/// longer.
pub proof fn law_lock_is_respected_while_fresh(made: u64, now: u64, file_age: u64)
    ensures
        lock_age(Some(decimal(made as nat)), now, file_age) > STALE_SECS <==> now > made + STALE_SECS,
{
    let s = decimal(made as nat);
    lemma_decimal_digits(made as nat);
    lemma_value_of_decimal(made as nat);
    assert(is_digit(s[0]) && is_digit(s[s.len() - 1]));
    assert(!is_space(s[0]) && !is_space(s.last()));
    assert(trimmed(s) == s);
}

} // verus!
