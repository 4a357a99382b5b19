//! The small capability surface the library takes on trust: the system
//! clock, the process-local random source, and one `String` primitive that
//! vstd does not specify.

use vstd::prelude::*;
use rand::distributions::Distribution;

verus! {

/// Relies on `std::time::SystemTime::now`: the current time as milliseconds
/// since the Unix epoch. Nothing can be promised of the clock's reading.
#[verifier::external_body]
pub fn system_time_msec() -> u64 {
    std::time::SystemTime::now()
        .duration_since(std::time::UNIX_EPOCH)
        .map(|d| d.as_millis() as u64)
        .unwrap_or(0)
}

/// Relies on `rand::random`: a value drawn from the standard distribution.
/// Nothing holds of the draw beyond its type.
pub assume_specification<T>[ rand::random::<T> ]() -> (r: T)
    where
        rand::distributions::Standard: Distribution<T>,
;

/// Relies on `rand::thread_rng` and `rand::Rng::gen_range`: a draw from the
/// half-open range `lo..hi`, which `gen_range` documents to lie within it.
#[verifier::external_body]
pub(crate) fn rand_range_u64(lo: u64, hi: u64) -> (r: u64)
    requires
        lo < hi,
    ensures
        lo <= r < hi,
{
    rand::Rng::gen_range(&mut rand::thread_rng(), lo..hi)
}

/// Relies on `String::push`: appends exactly the given character.
pub assume_specification[ String::push ](s: &mut String, c: char)
    ensures
        final(s)@ == old(s)@.push(c),
;

} // verus!
