//! The clock: the parts of the standard library that time a pass.

use std::time::{Duration, Instant};
use vstd::prelude::*;

verus! {

/// A point in time.
#[verifier::external_type_specification]
#[verifier::external_body]
pub struct ExInstant(Instant);

/// `Instant::now` reads the clock; nothing is known of what it shows.
pub assume_specification[ Instant::now ]() -> (r: Instant)
;

/// `Instant::elapsed` is the time since `start`; nothing is known of how much
/// that is.
pub assume_specification[ Instant::elapsed ](start: &Instant) -> (r: Duration)
;

/// `Duration::as_nanos` is the span in nanoseconds; nothing is known of how many
/// those are.
pub assume_specification[ Duration::as_nanos ](span: &Duration) -> (r: u128)
;

/// `std::hint::black_box` hands its argument back and keeps the optimiser from
/// removing what made it.
pub assume_specification<T>[ std::hint::black_box::<T> ](x: T) -> (r: T)
    ensures
        r == x,
;

/// Nanoseconds as the measurements keep them: capped where they leave 64 bits,
/// which is past five hundred years.
pub open spec fn cap(nanos: u128) -> u64 {
    if nanos <= u64::MAX {
        nanos as u64
    } else {
        u64::MAX
    }
}

/// `cap`, computed.
pub fn capped(nanos: u128) -> (r: u64)
    ensures
        r == cap(nanos),
{
    if nanos <= 0xffff_ffff_ffff_ffff {
        nanos as u64
    } else {
        0xffff_ffff_ffff_ffff
    }
}

/// Nanoseconds since `start`: what the clock answers for `start`, in
/// nanoseconds, capped.
pub fn nanos_since(start: &Instant) -> (r: u64)
    ensures
        exists|span: Duration, nanos: u128| #[trigger]
            call_ensures(Instant::elapsed, (start,), span) && #[trigger] call_ensures(
                Duration::as_nanos,
                (&span,),
                nanos,
            ) && r == cap(nanos),
{
    let span = start.elapsed();
    capped(span.as_nanos())
}

/// Whether a time was read off the clock: the nanoseconds since a point in time
/// that the clock had shown.
pub open spec fn is_reading(nanos: u64) -> bool {
    exists|start: Instant| #[trigger]
        call_ensures(Instant::now, (), start) && call_ensures(nanos_since, (&start,), nanos)
}

/// Whether all of these times were read off the clock.
pub open spec fn are_readings(nanos: Seq<u64>) -> bool {
    forall|k: int| 0 <= k < nanos.len() ==> is_reading(#[trigger] nanos[k])
}

/// Nanoseconds are kept as they are while they fit, and never wrap where they do not.
pub proof fn law_nanoseconds_never_wrap(a: u128, b: u128, r: u64, s: u64)
    requires
        call_ensures(capped, (a,), r),
        call_ensures(capped, (b,), s),
    ensures
        r <= a,
        a <= u64::MAX ==> r == a,
        a <= b ==> r <= s,
        a > u64::MAX ==> r == u64::MAX,
{
}

}
