//! What a step takes from outside the run: a fresh token and the clock.

use vstd::prelude::*;
use std::time::Duration;

verus! {

/// Whether `c` is a digit of lower-case hexadecimal.
pub open spec fn lower_hex(c: char) -> bool {
    ('0' <= c && c <= '9') || ('a' <= c && c <= 'f')
}

/// Whether `token` has the shape of a record token: thirty-two digits of
/// lower-case hexadecimal.
pub open spec fn token_shaped(token: Seq<char>) -> bool {
    token.len() == 32 && forall|i: int| 0 <= i < 32 ==> lower_hex(#[trigger] token[i])
}

/// A random record token: `Uuid::new_v4` of the uuid crate, written by
/// `Simple::encode_lower`, which writes the sixteen bytes of the identifier
/// as thirty-two digits of lower-case hexadecimal without hyphens. Which
/// digits come is up to the system's random source; nothing else is claimed.
/// The call fails the process where the system has no random bytes to give.
#[verifier::external_body]
pub(crate) fn fresh_token() -> (token: String)
    ensures
        token_shaped(token@),
{
    uuid::Uuid::new_v4().to_simple().encode_lower(&mut uuid::Uuid::encode_buffer()).to_string()
}

/// The time since the Unix epoch: `SystemTime::elapsed` of std on
/// `UNIX_EPOCH`, `None` where the clock stands before the epoch. Nothing is
/// claimed of the time that comes back.
#[verifier::external_body]
pub(crate) fn since_epoch() -> (elapsed: Option<Duration>) {
    std::time::UNIX_EPOCH.elapsed().ok()
}

/// `Duration::as_nanos` of std gives the whole duration in nanoseconds.
/// Nothing is claimed of the number.
pub assume_specification[ Duration::as_nanos ](duration: &Duration) -> (nanos: u128);

/// What one step takes from outside: a token for a record that it may add,
/// and the time since the Unix epoch in milliseconds and in nanoseconds.
#[derive(Debug, PartialEq)]
pub struct Stamp {
    pub token: String,
    pub millis: i64,
    pub nanos: i64,
}

pub struct StampView {
    pub token: Seq<char>,
    pub millis: i64,
    pub nanos: i64,
}

impl View for Stamp {
    type V = StampView;

    open spec fn view(&self) -> StampView {
        StampView { token: self.token@, millis: self.millis, nanos: self.nanos }
    }
}

/// `n`, or the largest `i64` where `n` lies above it.
pub open spec fn clamped(n: int) -> i64 {
    if n > i64::MAX {
        i64::MAX
    } else {
        n as i64
    }
}

/// The time of `nanos` nanoseconds as a stamp holds it.
pub fn stamp_of(token: String, nanos: u128) -> (stamp: Stamp)
    ensures
        stamp.token == token,
        stamp.nanos == clamped(nanos as int),
        stamp.millis == clamped(nanos as int / 1_000_000),
{
    let millis: u128 = nanos / 1_000_000;
    Stamp {
        token,
        millis: if millis > i64::MAX as u128 {
            i64::MAX
        } else {
            millis as i64
        },
        nanos: if nanos > i64::MAX as u128 {
            i64::MAX
        } else {
            nanos as i64
        },
    }
}

impl Stamp {
    /// A stamp with a fresh token and the time of the call; a clock that
    /// stands before the epoch counts as the epoch.
    pub fn now() -> (stamp: Stamp)
        ensures
            token_shaped(stamp.token@),
            0 <= stamp.millis <= stamp.nanos,
    {
        let nanos: u128 = match since_epoch() {
            Some(elapsed) => elapsed.as_nanos(),
            None => 0,
        };
        stamp_of(fresh_token(), nanos)
    }
}

} // verus!
