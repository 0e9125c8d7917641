//! Timestamp formatting and parsing, delegated to the `chrono` crate.
//!
//! Timestamps are carried through the library as plain epoch seconds
//! (`i64`); only the conversions from and to calendar text live here, each
//! behind a trusted wrapper whose result is named by an uninterpreted
//! spec function of the arguments alone.

use vstd::prelude::*;

verus! {

/// Whether chrono can represent this second count as a calendar date.
pub uninterp spec fn ts_representable(t: int) -> bool;

/// The display rendering (`%H:%M %b %d, %Y`) of a timestamp shifted by a
/// UTC offset, or `None` where the shifted value is out of chrono's range.
pub uninterp spec fn dtl_display_of(t: int, off: int) -> Option<Seq<char>>;

/// The `datetime-local` form rendering (`%Y-%m-%dT%H:%M`) of a timestamp
/// shifted by a UTC offset, or `None` where out of chrono's range.
pub uninterp spec fn dtl_input_of(t: int, off: int) -> Option<Seq<char>>;

/// The epoch-second reading of a `datetime-local` form string interpreted
/// at a UTC offset, or `None` where the text or the offset is malformed.
pub uninterp spec fn dtl_input_parse(s: Seq<char>, off: int) -> Option<i64>;

/// Relies on chrono's `DateTime::<Utc>::from_timestamp`, which returns
/// `Some` exactly when the second count is within chrono's range; the
/// outcome depends on the argument alone.
#[verifier::external_body]
pub(crate) fn ts_in_range(t: i64) -> (r: bool)
    ensures
        r == ts_representable(t as int),
{
    chrono::DateTime::<chrono::Utc>::from_timestamp(t, 0).is_some()
}

/// Relies on chrono's `DateTime::<Utc>::from_timestamp`,
/// `NaiveDateTime::checked_add_signed` and strftime-style `format`: the
/// rendering depends on the timestamp and the offset alone.
#[verifier::external_body]
pub(crate) fn format_dtl_display(t: i64, off_secs: i32) -> (r: Option<String>)
    ensures
        r matches Some(v) ==> dtl_display_of(t as int, off_secs as int) == Some(v@),
        r is None ==> dtl_display_of(t as int, off_secs as int) is None,
{
    let utc = chrono::DateTime::<chrono::Utc>::from_timestamp(t, 0)?;
    let shifted = utc.naive_utc().checked_add_signed(chrono::TimeDelta::seconds(off_secs as i64))?;
    Some(shifted.format("%H:%M %b %d, %Y").to_string())
}

/// Relies on the same chrono calls as `format_dtl_display`, with the
/// `datetime-local` form layout.
#[verifier::external_body]
pub(crate) fn format_dtl_input(t: i64, off_secs: i32) -> (r: Option<String>)
    ensures
        r matches Some(v) ==> dtl_input_of(t as int, off_secs as int) == Some(v@),
        r is None ==> dtl_input_of(t as int, off_secs as int) is None,
{
    let utc = chrono::DateTime::<chrono::Utc>::from_timestamp(t, 0)?;
    let shifted = utc.naive_utc().checked_add_signed(chrono::TimeDelta::seconds(off_secs as i64))?;
    Some(shifted.format("%Y-%m-%dT%H:%M").to_string())
}

/// Relies on chrono's `NaiveDateTime::parse_from_str`,
/// `FixedOffset::east_opt` and `and_local_timezone`: the reading depends on
/// the text and the offset alone, and a fixed offset never makes a local
/// time ambiguous.
#[verifier::external_body]
pub(crate) fn parse_dtl_input(s: &str, off_secs: i32) -> (r: Option<i64>)
    ensures
        r == dtl_input_parse(s@, off_secs as int),
{
    let offset = chrono::FixedOffset::east_opt(off_secs)?;
    let naive = chrono::NaiveDateTime::parse_from_str(s, "%Y-%m-%dT%H:%M").ok()?;
    let dt = naive.and_local_timezone(offset).single()?;
    Some(dt.timestamp())
}

} // verus!
