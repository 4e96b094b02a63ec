//! Instants, as seconds and nanoseconds since the start of 1970.

use vstd::prelude::*;

verus! {

/// An instant. The nanoseconds reach past one second only within a leap second.
#[derive(Clone, Copy, PartialEq, Eq, Debug, Hash, Structural)]
pub struct Timestamp {
    pub secs: i64,
    pub nanos: u32,
}

/// Whether one instant lies before another.
pub open spec fn before(a: Timestamp, b: Timestamp) -> bool {
    a.secs < b.secs || (a.secs == b.secs && a.nanos < b.nanos)
}

/// Whether the clock can show an instant: one that lies neither before 1970 nor within a leap
/// second.
pub open spec fn on_clock(t: Timestamp) -> bool {
    t.secs >= 0 && t.nanos < 1_000_000_000
}

/// The nanoseconds since the start of 1970.
pub open spec fn instant(t: Timestamp) -> int {
    t.secs * 1_000_000_000 + t.nanos
}

/// The instant some milliseconds after another, if it can be represented.
pub uninterp spec fn instant_after(secs: i64, nanos: u32, millis: i64) -> Option<(i64, u32)>;

/// Reads the clock with `chrono::Utc::now`. Of the instant that comes back it is claimed only that
/// it does not lie before 1970 nor within a leap second.
#[verifier::external_body]
pub(crate) fn now() -> (r: Timestamp)
    ensures
        r.secs >= 0,
        r.nanos < 1_000_000_000,
{
    let t = chrono::Utc::now();
    Timestamp { secs: t.timestamp(), nanos: t.timestamp_subsec_nanos() }
}

/// Adds milliseconds with `chrono::DateTime::checked_add_signed`. The result is named; outside of
/// leap seconds it lies exactly so many milliseconds later, and it exists as long as both
/// instants stay within eight million million seconds of 1970.
#[verifier::external_body]
pub(crate) fn plus_millis(t: Timestamp, millis: i64) -> (r: Option<Timestamp>)
    ensures
        r == match instant_after(t.secs, t.nanos, millis) {
            Some((secs, nanos)) => Some(Timestamp { secs, nanos }),
            None => None,
        },
        t.nanos < 1_000_000_000 && millis >= 0 && r is Some ==> instant(r->0) == instant(t)
            + millis * 1_000_000 && r->0.nanos < 1_000_000_000,
        t.nanos < 1_000_000_000 && millis >= 0 && -8_000_000_000_000 <= t.secs && t.secs + millis
            / 1000 < 8_000_000_000_000 ==> r is Some,
{
    let start = chrono::DateTime::<chrono::Utc>::from_timestamp(t.secs, t.nanos)?;
    let end = start.checked_add_signed(chrono::TimeDelta::try_milliseconds(millis)?)?;
    Some(Timestamp { secs: end.timestamp(), nanos: end.timestamp_subsec_nanos() })
}

/// Outside of leap seconds one instant lies before another exactly when fewer nanoseconds have passed
/// until it. Of any two instants that differ one lies before the other, and not the other way.
pub proof fn law_instants_are_ordered(a: Timestamp, b: Timestamp)
    ensures
        a.nanos < 1_000_000_000 && b.nanos < 1_000_000_000 ==> (before(a, b) <==> a.secs
            * 1_000_000_000 + a.nanos < b.secs * 1_000_000_000 + b.nanos),
        a != b ==> before(a, b) != before(b, a),
        !before(a, a),
{
}

impl Timestamp {
    /// Whether this instant lies before another.
    pub fn is_before(&self, other: &Timestamp) -> (r: bool)
        ensures
            r == before(*self, *other),
    {
        self.secs < other.secs || (self.secs == other.secs && self.nanos < other.nanos)
    }
}

/// The whole minutes from the start of 2000 to an instant, counted towards zero.
pub open spec fn minutes_since_2000(t: Timestamp) -> int {
    let secs = t.secs - 946_684_800;
    if secs >= 0 {
        secs / 60
    } else if t.nanos > 0 {
        -((-secs - 1) / 60)
    } else {
        -(-secs / 60)
    }
}

/// The serial number of a zone written at an instant: the minutes since 2000, in 32 bits.
pub open spec fn serial_at(t: Timestamp) -> u32 {
    (minutes_since_2000(t) % 4_294_967_296) as u32
}

/// The serial number of a zone written at an instant.
pub fn zone_serial(t: Timestamp) -> (r: u32)
    ensures
        r == serial_at(t),
{
    let secs: i128 = t.secs as i128 - 946_684_800;
    if secs >= 0 {
        ((secs as u128 / 60) % 4_294_967_296) as u32
    } else {
        let shift: i128 = if t.nanos > 0 { 1 } else { 0 };
        let back: u128 = ((-secs - shift) as u128) / 60;
        if back == 0 {
            0
        } else {
            let low: u128 = (back - 1) % 4_294_967_296;
            assert((-back) % 4_294_967_296int == 4_294_967_295 - low) by {
                let q = (back - 1) / 4_294_967_296;
                assert(-back == (-q - 1) * 4_294_967_296 + (4_294_967_295 - low));
            }
            (4_294_967_295 - low) as u32
        }
    }
}

/// From the start of 2000 on, as long as 32 bits hold them, the serial number is the number of whole
/// minutes that have passed.
pub proof fn law_serials_count_minutes(t: Timestamp)
    requires
        0 <= t.secs - 946_684_800 < 60 * 4_294_967_296,
    ensures
        60 * serial_at(t) <= t.secs - 946_684_800 < 60 * (serial_at(t) + 1),
{
}

} // verus!
