//! Usage figures as fixed-point percentages.
//!
//! A reported figure counts hundredths of a percent: `2500` stands for 25.00 %.
//! A raw CPU reading counts millionths of a percent of one logical CPU, which
//! keeps what the operating system measured down to the sixth decimal.

use vstd::prelude::*;

verus! {

/// How many units of a raw CPU reading make one percent of one logical CPU.
pub const RAW_CPU_UNITS_PER_PERCENT: u64 = 1_000_000;

/// How many units of a raw CPU reading make one unit of a reported figure.
pub const RAW_CPU_UNITS_PER_HUNDREDTH: u64 = 10_000;

/// How many units of a reported figure make the whole: 100.00 %.
pub const HUNDREDTHS_IN_WHOLE: u64 = 10_000;

/// `n / d` rounded to the nearest natural number, a half rounded up.
pub open spec fn rounded_quotient(n: nat, d: nat) -> nat
    recommends
        d > 0,
{
    (2 * n + d) / (2 * d)
}

/// `n` where it fits in 64 bits, the largest 64-bit number where it does not.
pub open spec fn saturated(n: nat) -> u64 {
    if n <= u64::MAX {
        n as u64
    } else {
        u64::MAX
    }
}

/// The share of `total_memory_bytes` that `memory_bytes` is, in hundredths of
/// a percent, rounded to the nearest and kept within 64 bits. A machine that
/// reports no memory at all gives every process 0.
pub open spec fn memory_share(memory_bytes: u64, total_memory_bytes: u64) -> u64 {
    if total_memory_bytes == 0 {
        0
    } else {
        saturated(
            rounded_quotient(
                memory_bytes as nat * HUNDREDTHS_IN_WHOLE as nat,
                total_memory_bytes as nat,
            ),
        )
    }
}

/// A raw CPU reading as a share of the whole machine, in hundredths of a
/// percent: the reading divided by the number of logical CPUs and rounded to
/// the nearest. A reading that is not a number stays undefined; a machine
/// that reports no CPU gives 0.
pub open spec fn cpu_share(raw: Option<u64>, logical_cpu_count: u32) -> Option<u64> {
    match raw {
        None => None,
        Some(units) => if logical_cpu_count == 0 {
            Some(0)
        } else {
            Some(
                rounded_quotient(
                    units as nat,
                    logical_cpu_count as nat * RAW_CPU_UNITS_PER_HUNDREDTH as nat,
                ) as u64,
            )
        },
    }
}

/// For a positive divisor the rounded quotient is the one natural number
/// within half a unit of the exact quotient, the upper one on a tie.
pub proof fn lemma_rounded_quotient_is_nearest(n: nat, d: nat)
    requires
        d > 0,
    ensures
        2 * d * rounded_quotient(n, d) <= 2 * n + d,
        2 * n + d < 2 * d * (rounded_quotient(n, d) + 1),
        rounded_quotient(n, d) <= n,
{
    let q = rounded_quotient(n, d);
    let m: int = (2 * n + d) as int;
    let e: int = (2 * d) as int;
    vstd::arithmetic::div_mod::lemma_fundamental_div_mod(m, e);
    vstd::arithmetic::div_mod::lemma_mod_bound(m, e);
    assert(e * q == 2 * d * q) by (nonlinear_arith)
        requires
            e == 2 * d,
    ;
    assert(2 * d * (q + 1) == 2 * d * q + 2 * d) by (nonlinear_arith);
    if q > n {
        assert(2 * d * q >= 2 * d * (n + 1)) by (nonlinear_arith)
            requires
                q >= n + 1,
                d > 0,
        ;
        assert(2 * d * (n + 1) >= 2 * n + 2 * d) by (nonlinear_arith)
            requires
                d >= 1,
        ;
    }
}

/// Computes [`memory_share`].
pub fn memory_usage(memory_bytes: u64, total_memory_bytes: u64) -> (usage: u64)
    ensures
        usage == memory_share(memory_bytes, total_memory_bytes),
{
    if total_memory_bytes == 0 {
        return 0;
    }
    let whole: u128 = HUNDREDTHS_IN_WHOLE as u128;
    assert(memory_bytes as u128 * whole <= 0xFFFF_FFFF_FFFF_FFFF * 10_000) by (nonlinear_arith)
        requires
            whole == 10_000,
            memory_bytes <= 0xFFFF_FFFF_FFFF_FFFF,
    ;
    let scaled: u128 = memory_bytes as u128 * whole;
    let divisor: u128 = 2u128 * total_memory_bytes as u128;
    let quotient: u128 = (2u128 * scaled + total_memory_bytes as u128) / divisor;
    if quotient > u64::MAX as u128 {
        u64::MAX
    } else {
        quotient as u64
    }
}

/// Computes [`cpu_share`].
pub fn cpu_usage(raw: Option<u64>, logical_cpu_count: u32) -> (usage: Option<u64>)
    ensures
        usage == cpu_share(raw, logical_cpu_count),
{
    match raw {
        None => None,
        Some(units) => {
            if logical_cpu_count == 0 {
                return Some(0);
            }
            let scale: u128 = RAW_CPU_UNITS_PER_HUNDREDTH as u128;
            assert(0 < logical_cpu_count as u128 * scale <= 0xFFFF_FFFF * 10_000) by (nonlinear_arith)
                requires
                    scale == 10_000,
                    0 < logical_cpu_count <= 0xFFFF_FFFF,
            ;
            let per_hundredth: u128 = logical_cpu_count as u128 * scale;
            let quotient: u128 = (2u128 * units as u128 + per_hundredth) / (2u128 * per_hundredth);
            proof {
                lemma_rounded_quotient_is_nearest(units as nat, per_hundredth as nat);
            }
            Some(quotient as u64)
        },
    }
}

} // verus!
