//! The wall clock, read as time since the Unix epoch.

use vstd::prelude::*;

verus! {

/// `SystemTime::now().duration_since(UNIX_EPOCH)`, as the whole seconds of
/// the duration and the milliseconds past them (`Duration::as_secs`,
/// `Duration::subsec_millis`); `None` when the clock reads before the epoch
/// (the `Err` of `duration_since`).
///
/// Trusted: the value depends on the clock, so only what std documents of
/// every reading is claimed: the millisecond part is under 1000.
#[verifier::external_body]
fn since_epoch() -> (r: Option<(u64, u32)>)
    ensures
        r matches Some((_, ms)) ==> ms < 1000,
{
    match std::time::SystemTime::now().duration_since(std::time::UNIX_EPOCH) {
        Ok(d) => Some((d.as_secs(), d.subsec_millis())),
        Err(_) => None,
    }
}

/// The largest count of seconds whose milliseconds fit in 64 bits.
pub const MAX_MILLIS_SECS: u64 = 18_446_744_073_709_550;

/// Whole seconds since the Unix epoch, 0 for a clock set before it.
pub(crate) fn unix_now_secs() -> (t: u64) {
    let r = since_epoch();
    match r {
        Some((s, _)) => s,
        None => 0,
    }
}

/// Whole milliseconds since the Unix epoch: 0 for a clock set before it,
/// and the largest 64-bit count for a reading past what 64 bits hold.
pub(crate) fn unix_now_millis() -> (t: u64) {
    let r = since_epoch();
    match r {
        Some((s, ms)) => if s <= MAX_MILLIS_SECS {
            assert(s * 1000 + ms <= u64::MAX) by (nonlinear_arith)
                requires
                    s <= MAX_MILLIS_SECS,
                    ms < 1000,
            ;
            s * 1000 + ms as u64
        } else {
            u64::MAX
        },
        None => 0,
    }
}

} // verus!
