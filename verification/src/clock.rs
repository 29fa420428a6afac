//! Moments in time.

use vstd::prelude::*;

use crate::domain::placement;

verus! {

/// A moment, in seconds since the epoch and nanoseconds beyond them.
#[derive(Clone, Copy, Debug, PartialEq, Eq, Structural)]
pub struct Moment {
    pub seconds: i64,
    pub nanos: u32,
}

/// The moment that a text in the format of RFC 3339 tells.
pub uninterp spec fn rfc3339_read(text: Seq<char>) -> Option<(i64, u32)>;

/// `time::OffsetDateTime::parse` with the format description `Rfc3339`: the moment that a text
/// tells, as the seconds and nanoseconds that `unix_timestamp` and `nanosecond` give, or nothing
/// where the text is not of that format. Which texts are, is left to the name `rfc3339_read`.
#[verifier::external_body]
pub(crate) fn parse_rfc3339(text: &str) -> (r: Option<(i64, u32)>)
    ensures
        r == rfc3339_read(text@),
{
    match time::OffsetDateTime::parse(text, &time::format_description::well_known::Rfc3339) {
        Ok(t) => Some((t.unix_timestamp(), t.nanosecond())),
        Err(_) => None,
    }
}

pub open spec fn total_nanos(seconds: i64, nanos: u32) -> int {
    seconds * 1_000_000_000 + nanos
}

/// A moment as a number of nanoseconds.
pub open spec fn moment_view(m: Option<Moment>) -> Option<int> {
    match m {
        Some(m) => Some(total_nanos(m.seconds, m.nanos)),
        None => None,
    }
}

pub open spec fn moments_view(s: Seq<Option<Moment>>) -> Seq<Option<int>> {
    Seq::new(s.len(), |i: int| moment_view(s[i]))
}

/// The moment that a text tells, as a number of nanoseconds.
pub open spec fn told_at(text: Seq<char>) -> Option<int> {
    match rfc3339_read(text) {
        Some((seconds, nanos)) => Some(total_nanos(seconds, nanos)),
        None => None,
    }
}

/// `a` is before `b`; a moment that is not known is before any that is.
pub open spec fn earlier(a: Option<int>, b: Option<int>) -> bool {
    match (a, b) {
        (Some(x), Some(y)) => x < y,
        (None, Some(_)) => true,
        _ => false,
    }
}

pub fn is_earlier(a: Option<Moment>, b: Option<Moment>) -> (r: bool)
    ensures
        r == earlier(moment_view(a), moment_view(b)),
{
    match b {
        Some(y) => match a {
            Some(x) => {
                let p: i128 = x.seconds as i128 * 1_000_000_000 + x.nanos as i128;
                let q: i128 = y.seconds as i128 * 1_000_000_000 + y.nanos as i128;
                p < q
            },
            None => true,
        },
        None => false,
    }
}

/// The moment that a text tells, if it tells one.
pub fn read_moment(text: &str) -> (r: Option<Moment>)
    ensures
        moment_view(r) == told_at(text@),
{
    match parse_rfc3339(text) {
        Some((seconds, nanos)) => Some(Moment { seconds, nanos }),
        None => None,
    }
}

/// The whole minutes from one moment to another, counted towards zero.
pub open spec fn minutes_between(from: int, to: int) -> int {
    placement::quotient(placement::quotient(to - from, 1_000_000_000), 60)
}

/// The whole minutes from one moment to another, counted towards zero.
pub fn whole_minutes(from: Moment, to: Moment) -> (r: i64)
    ensures
        r == minutes_between(
            total_nanos(from.seconds, from.nanos),
            total_nanos(to.seconds, to.nanos),
        ),
{
    let a: i128 = from.seconds as i128 * 1_000_000_000 + from.nanos as i128;
    let b: i128 = to.seconds as i128 * 1_000_000_000 + to.nanos as i128;
    let seconds: i128 = (b - a) / 1_000_000_000;
    let minutes: i128 = seconds / 60;
    assert(-0x4000_0000_0000_0000 <= minutes <= 0x4000_0000_0000_0000);
    minutes as i64
}

/// The whole minutes that have passed at `now` since the moment that a text tells.
pub open spec fn minutes_since(text: Seq<char>, now: Moment) -> Option<int> {
    match rfc3339_read(text) {
        Some((seconds, nanos)) => Some(
            minutes_between(total_nanos(seconds, nanos), total_nanos(now.seconds, now.nanos)),
        ),
        None => None,
    }
}

/// The whole minutes that have passed at `now` since the moment that a text tells, or nothing
/// where it tells none.
pub fn elapsed_minutes(text: &str, now: Moment) -> (r: Option<i64>)
    ensures
        match r {
            Some(m) => minutes_since(text@, now) == Some(m as int),
            None => minutes_since(text@, now) is None,
        },
{
    match parse_rfc3339(text) {
        Some((seconds, nanos)) => Some(whole_minutes(Moment { seconds, nanos }, now)),
        None => None,
    }
}

/// Only minutes that have passed whole are counted, of sixty seconds each, and as many forwards as
/// backwards.
pub proof fn law_only_whole_minutes_are_counted(from: int, to: int)
    requires
        from <= to,
    ensures
        minutes_between(from, to) * 60 * 1_000_000_000 <= to - from,
        to - from < (minutes_between(from, to) + 1) * 60 * 1_000_000_000,
        minutes_between(to, from) == -minutes_between(from, to),
{
}

} // verus!
