//! The integer arithmetic behind the protocol's timing.
//!
//! Durations are nanoseconds in `u64`, the response rate φ is millihertz in
//! `u32`.  Every formula is stated exactly over unbounded integers and the
//! executable code saturates at `u64::MAX` instead of overflowing.

use vstd::prelude::*;

verus! {

/// The nominal suppression window: the base delay before a response.
pub const RESPONSE_DELAY_NS: u64 = 100_000_000;

/// Nanoseconds per second times milliunits: the divisor that turns
/// `tau_ns · phi_mhz` into the dimensionless product τ·φ.
pub const TAU_PHI_UNIT: u64 = 1_000_000_000_000;

/// Saturates an exact value at `u64::MAX`.
pub open spec fn sat64(x: int) -> int {
    if x > u64::MAX as int {
        u64::MAX as int
    } else {
        x
    }
}

/// The response cutoff `ceil(τ·φ)`: how many observed responses silence
/// this node's own response in a cycle.
pub open spec fn spec_cutoff(tau_ns: u64, phi_mhz: u32) -> int {
    (tau_ns * phi_mhz + (TAU_PHI_UNIT - 1)) / (TAU_PHI_UNIT as int)
}

/// Computes the response cutoff `ceil(τ·φ)`.
pub fn cutoff(tau_ns: u64, phi_mhz: u32) -> (r: u64)
    requires
        tau_ns >= 1,
        phi_mhz >= 1,
    ensures
        r == spec_cutoff(tau_ns, phi_mhz),
        r >= 1,
{
    proof {
        assert(tau_ns as int * phi_mhz as int <= u64::MAX as int * u32::MAX as int)
            by (nonlinear_arith)
            requires
                0 <= tau_ns <= u64::MAX,
                0 <= phi_mhz <= u32::MAX,
        ;
        assert(tau_ns as int * phi_mhz as int >= 1) by (nonlinear_arith)
            requires
                tau_ns >= 1,
                phi_mhz >= 1,
        ;
    }
    let p: u128 = tau_ns as u128 * phi_mhz as u128;
    let r: u128 = (p + (TAU_PHI_UNIT - 1) as u128) / TAU_PHI_UNIT as u128;
    proof {
        assert(r as int <= u64::MAX as int && r as int >= 1) by (nonlinear_arith)
            requires
                r as int == (p as int + (TAU_PHI_UNIT - 1) as int) / (TAU_PHI_UNIT as int),
                1 <= p as int <= u64::MAX as int * u32::MAX as int,
        ;
    }
    r as u64
}

/// The delay before this node's own next query: the cadence τ plus a
/// uniformly drawn share of an interval that widens with the swarm size,
/// to keep simultaneous queries rare.
pub open spec fn spec_phase1_delay(tau_ns: u64, swarm_size: u64, millionth: u32) -> int {
    sat64(tau_ns + (tau_ns * swarm_size / 10) / 1_000_000 * millionth)
}

/// Computes the phase-1 delay from the drawn jitter share.
pub fn phase1_delay_ns(tau_ns: u64, swarm_size: u64, millionth: u32) -> (r: u64)
    requires
        millionth < 1_000_000,
    ensures
        r == spec_phase1_delay(tau_ns, swarm_size, millionth),
{
    proof {
        assert(tau_ns as int * swarm_size as int <= u64::MAX as int * u64::MAX as int)
            by (nonlinear_arith)
            requires
                0 <= tau_ns <= u64::MAX,
                0 <= swarm_size <= u64::MAX,
        ;
    }
    let interval: u128 = tau_ns as u128 * swarm_size as u128 / 10;
    proof {
        assert(interval as int / 1_000_000 * (millionth as int) <= interval as int)
            by (nonlinear_arith)
            requires
                interval as int >= 0,
                0 <= millionth < 1_000_000,
        ;
    }
    let jitter: u128 = interval / 1_000_000 * millionth as u128;
    let d: u128 = tau_ns as u128 + jitter;
    if d > u64::MAX as u128 {
        u64::MAX
    } else {
        d as u64
    }
}

/// The delay before this node's own response: a drawn share of the
/// suppression window divided among the expected responders, plus the
/// accumulated fairness delay.
pub open spec fn spec_phase2_delay(
    swarm_size: u64,
    cutoff: u64,
    extra_ns: u64,
    millionth: u32,
) -> int {
    sat64(
        (RESPONSE_DELAY_NS * swarm_size / (cutoff as int)) / 1_000_000 * millionth + extra_ns,
    )
}

/// Computes the phase-2 delay from the drawn jitter share.
pub fn phase2_delay_ns(swarm_size: u64, cutoff: u64, extra_ns: u64, millionth: u32) -> (r: u64)
    requires
        cutoff >= 1,
        millionth < 1_000_000,
    ensures
        r == spec_phase2_delay(swarm_size, cutoff, extra_ns, millionth),
{
    proof {
        assert(RESPONSE_DELAY_NS as int * swarm_size as int <= RESPONSE_DELAY_NS as int
            * u64::MAX as int) by (nonlinear_arith)
            requires
                0 <= swarm_size <= u64::MAX,
        ;
    }
    let interval: u128 = RESPONSE_DELAY_NS as u128 * swarm_size as u128 / cutoff as u128;
    proof {
        assert(interval as int / 1_000_000 * (millionth as int) <= interval as int)
            by (nonlinear_arith)
            requires
                interval as int >= 0,
                0 <= millionth < 1_000_000,
        ;
    }
    let jitter: u128 = interval / 1_000_000 * millionth as u128;
    let d: u128 = jitter + extra_ns as u128;
    if d > u64::MAX as u128 {
        u64::MAX
    } else {
        d as u64
    }
}

/// The fairness delay for the next cycle: a node that responded backs off
/// by up to ten windows, one that stayed silent decays its backlog by one
/// window.
pub open spec fn spec_next_extra_delay(has_responded: bool, swarm_size: u64, cutoff: u64, extra_ns: u64) -> int {
    if has_responded {
        RESPONSE_DELAY_NS * (if swarm_size / cutoff < 10 {
            swarm_size / cutoff
        } else {
            10
        })
    } else if extra_ns >= RESPONSE_DELAY_NS {
        extra_ns - RESPONSE_DELAY_NS
    } else {
        0
    }
}

/// Computes the fairness delay for the next cycle.
pub fn next_extra_delay_ns(has_responded: bool, swarm_size: u64, cutoff: u64, extra_ns: u64) -> (r:
    u64)
    requires
        cutoff >= 1,
    ensures
        r == spec_next_extra_delay(has_responded, swarm_size, cutoff, extra_ns),
{
    if has_responded {
        let scale = swarm_size / cutoff;
        let capped = if scale < 10 {
            scale
        } else {
            10
        };
        RESPONSE_DELAY_NS * capped as u64
    } else if extra_ns >= RESPONSE_DELAY_NS {
        extra_ns - RESPONSE_DELAY_NS
    } else {
        0
    }
}

/// The pause between garbage-collection passes: `τ · 12345/9999`, a
/// non-harmonic multiple of the cadence so the two clocks do not lock.
pub open spec fn spec_gc_interval(tau_ns: u64) -> int {
    sat64(tau_ns * 12345 / 9999)
}

/// Computes the garbage-collection pause.
pub fn gc_interval_ns(tau_ns: u64) -> (r: u64)
    ensures
        r == spec_gc_interval(tau_ns),
{
    let d: u128 = tau_ns as u128 * 12345 / 9999;
    if d > u64::MAX as u128 {
        u64::MAX
    } else {
        d as u64
    }
}

/// How long a peer among `book_size` peers may stay silent before it is
/// dropped: three expected reappearance intervals.  The swarm answers
/// `min(cutoff, book_size)` responses per cadence, spread over the whole
/// book, so one peer's expected interval is `book_size · τ` divided by
/// that, and the grace window triples it as a jitter cushion.
pub open spec fn spec_gc_grace(tau_ns: u64, cutoff: u64, book_size: u64) -> int {
    sat64(
        3 * (book_size * tau_ns / (if cutoff < book_size {
            cutoff as int
        } else {
            book_size as int
        })),
    )
}

/// Computes the per-peer grace window.
pub fn gc_grace_ns(tau_ns: u64, cutoff: u64, book_size: u64) -> (r: u64)
    requires
        cutoff >= 1,
        book_size >= 1,
    ensures
        r == spec_gc_grace(tau_ns, cutoff, book_size),
{
    let m: u64 = if cutoff < book_size {
        cutoff
    } else {
        book_size
    };
    proof {
        assert(book_size as int * tau_ns as int <= u64::MAX as int * u64::MAX as int)
            by (nonlinear_arith)
            requires
                0 <= book_size <= u64::MAX,
                0 <= tau_ns <= u64::MAX,
        ;
    }
    let t: u128 = book_size as u128 * tau_ns as u128;
    let d: u128 = t / m as u128;
    let clamped: u128 = if d > u64::MAX as u128 {
        u64::MAX as u128
    } else {
        d
    };
    let g: u128 = 3 * clamped;
    if g > u64::MAX as u128 {
        u64::MAX
    } else {
        g as u64
    }
}

} // verus!
