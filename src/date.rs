//! Instants in UTC with millisecond precision, and their RFC 3339 text.
use vstd::prelude::*;

verus! {

/// The first millisecond of year 0000, UTC.
pub const MIN_MILLIS: i64 = -62167219200000;

/// The last millisecond of year 9999, UTC.
pub const MAX_MILLIS: i64 = 253402300799999;

/// An instant in UTC, as milliseconds since 1970-01-01T00:00:00Z, within the
/// years 0000 to 9999 that RFC 3339 text can write.
#[derive(Debug, Clone, Copy, PartialEq, Eq)]
pub struct Date {
    ms: i64,
}

/// The RFC 3339 text that chrono writes for an instant, with milliseconds and `Z`.
pub uninterp spec fn utc_millis_text(ms: int) -> Seq<char>;

/// The instant, in milliseconds, that chrono reads from RFC 3339 text, if any.
pub uninterp spec fn rfc3339_millis(s: Seq<char>) -> Option<int>;

/// Relies on chrono's `DateTime::to_rfc3339_opts` with `SecondsFormat::Millis`
/// and `Z`: for years 0000 to 9999 it writes four-digit years, which
/// `DateTime::parse_from_rfc3339` reads back to the same millisecond.
#[verifier::external_body]
fn format_rfc3339_millis(ms: i64) -> (r: String)
    requires
        MIN_MILLIS <= ms <= MAX_MILLIS,
    ensures
        r@ == utc_millis_text(ms as int),
        rfc3339_millis(r@) == Some(ms as int),
{
    chrono::DateTime::from_timestamp_millis(ms)
        .unwrap()
        .to_rfc3339_opts(chrono::SecondsFormat::Millis, true)
}

/// Relies on chrono's `DateTime::parse_from_rfc3339` and `timestamp_millis`.
#[verifier::external_body]
fn parse_rfc3339_millis(s: &str) -> (r: Option<i64>)
    ensures
        r is None <==> rfc3339_millis(s@) is None,
        r matches Some(m) ==> rfc3339_millis(s@) == Some(m as int),
{
    chrono::DateTime::parse_from_rfc3339(s).ok().map(|d| d.timestamp_millis())
}

impl Date {
    #[verifier::type_invariant]
    spec fn inv(&self) -> bool {
        MIN_MILLIS <= self.ms <= MAX_MILLIS
    }

    /// Milliseconds since the Unix epoch.
    pub closed spec fn millis(&self) -> int {
        self.ms as int
    }

    /// The instant `ms` milliseconds after the epoch, if it lies in years 0000 to 9999.
    pub fn from_timestamp_millis(ms: i64) -> (r: Option<Date>)
        ensures
            r is Some <==> MIN_MILLIS <= ms <= MAX_MILLIS,
            r matches Some(d) ==> d.millis() == ms,
    {
        if MIN_MILLIS <= ms && ms <= MAX_MILLIS {
            Some(Date { ms })
        } else {
            None
        }
    }

    pub fn timestamp_millis(&self) -> (r: i64)
        ensures
            r == self.millis(),
    {
        self.ms
    }

    /// The RFC 3339 text of the instant, e.g. `1970-01-01T00:00:00.000Z`.
    pub fn to_rfc3339(&self) -> (r: String)
        ensures
            r@ == utc_millis_text(self.millis()),
            rfc3339_millis(r@) == Some(self.millis()),
            MIN_MILLIS <= self.millis() <= MAX_MILLIS,
    {
        proof { use_type_invariant(self); }
        format_rfc3339_millis(self.ms)
    }

    /// Reads RFC 3339 text; `None` where it is not RFC 3339 or names an
    /// instant outside years 0000 to 9999 in UTC.
    pub fn parse_rfc3339(s: &str) -> (r: Option<Date>)
        ensures
            r matches Some(d) ==> rfc3339_millis(s@) == Some(d.millis()),
            r is None <==> (rfc3339_millis(s@) matches Some(m) ==> !(MIN_MILLIS <= m <= MAX_MILLIS)),
    {
        match parse_rfc3339_millis(s) {
            Some(ms) => Date::from_timestamp_millis(ms),
            None => None,
        }
    }
}

} // verus!
