//! The physical clock behind `Hlc::next`.
use std::time::{Duration, SystemTime, UNIX_EPOCH};
use vstd::prelude::*;

use crate::hlc::{lemma_aligned, L_MASK};

verus! {

#[verifier::external_type_specification]
#[verifier::external_body]
pub struct ExSystemTime(std::time::SystemTime);

/// Relies on std's `SystemTime::now`: the current system time, of which
/// nothing can be promised.
#[verifier::external_body]
fn system_now() -> (r: SystemTime) {
    SystemTime::now()
}

/// Relies on std's `SystemTime::duration_since`, taken from the Unix epoch:
/// `None` when the clock reads earlier than the epoch.
#[verifier::external_body]
fn since_epoch(t: &SystemTime) -> (r: Option<Duration>) {
    t.duration_since(UNIX_EPOCH).ok()
}

/// Relies on std's `Duration::as_secs`: the whole seconds of a duration.
pub assume_specification[ Duration::as_secs ](d: &Duration) -> (r: u64);

/// Relies on std's `Duration::subsec_micros`: the fractional part of a
/// duration, in whole microseconds, which std documents as less than one
/// million.
pub assume_specification[ Duration::subsec_micros ](d: &Duration) -> (r: u32)
    ensures
        r < 1_000_000,
;

/// The physical time of `secs` seconds and `micros` microseconds, in
/// microseconds (wrapping at 2^64), with the low 16 bits masked off.
pub open spec fn pt_spec(secs: u64, micros: u32) -> u64 {
    (((secs as int * 1_000_000 + micros as int) % 0x1_0000_0000_0000_0000) as u64) & L_MASK
}

/// Computes `pt_spec`.
pub fn pt_of(secs: u64, micros: u32) -> (r: u64)
    ensures
        r == pt_spec(secs, micros),
        r & 0xFFFF == 0,
{
    let m = secs.wrapping_mul(1_000_000);
    let t = m.wrapping_add(micros as u64);
    proof {
        lemma_aligned(t);
        assert(m == (secs as int * 1_000_000) % 0x1_0000_0000_0000_0000);
        assert(t == (m as int + micros as int) % 0x1_0000_0000_0000_0000);
        vstd::arithmetic::div_mod::lemma_add_mod_noop(secs as int * 1_000_000, micros as int, 0x1_0000_0000_0000_0000);
        vstd::arithmetic::div_mod::lemma_mod_twice(micros as int, 0x1_0000_0000_0000_0000);
        assert((micros as int) % 0x1_0000_0000_0000_0000 == micros as int) by {
            vstd::arithmetic::div_mod::lemma_small_mod(micros as nat, 0x1_0000_0000_0000_0000);
        }
    }
    t & L_MASK
}

/// Samples physical time in microseconds since the Unix epoch, aligned so
/// that its low 16 bits are zero and free for an HLC's counter. A clock that
/// reads before the epoch gives 0.
pub fn makept() -> (r: u64)
    ensures
        r & 0xFFFF == 0,
        exists|secs: u64, micros: u32| micros < 1_000_000 && r == pt_spec(secs, micros),
{
    assert(0u64 & 0xFFFF == 0) by (bit_vector);
    let now = system_now();
    match since_epoch(&now) {
        Some(d) => {
            let secs = d.as_secs();
            let micros = d.subsec_micros();
            let r = pt_of(secs, micros);
            assert(micros < 1_000_000 && r == pt_spec(secs, micros));
            r
        },
        None => {
            assert(0u64 & 0xFFFF_FFFF_FFFF_0000 == 0) by (bit_vector);
            assert(pt_spec(0, 0) == 0);
            0
        },
    }
}

} // verus!
