//! Integer distance arithmetic shared by the similarity backends.

use vstd::prelude::*;

verus! {

/// `scale * num / den`, rounded half away from zero (all operands are non-negative).
pub open spec fn rounded_ratio(num: nat, den: nat, scale: nat) -> nat
    recommends
        den > 0,
{
    ((2 * scale * num + den) / (2 * den)) as nat
}

/// `v` clamped to `[lo, hi]`.
pub open spec fn clamp(v: int, lo: int, hi: int) -> int {
    if v < lo {
        lo
    } else if v > hi {
        hi
    } else {
        v
    }
}

pub open spec fn abs_diff(a: nat, b: nat) -> nat {
    if a >= b {
        (a - b) as nat
    } else {
        (b - a) as nat
    }
}

pub open spec fn max_nat(a: nat, b: nat) -> nat {
    if a >= b {
        a
    } else {
        b
    }
}

/// The length penalty: `|la - lb| / max(la, lb)` scaled to ten and rounded.
pub open spec fn length_penalty(la: nat, lb: nat) -> nat {
    if max_nat(la, lb) == 0 {
        0
    } else {
        rounded_ratio(abs_diff(la, lb), max_nat(la, lb), 10)
    }
}

/// A base distance with the optional length penalty applied and re-clamped to `[0, 100]`.
pub open spec fn penalized(d: int, la: nat, lb: nat, include_length: bool) -> int {
    if include_length && max_nat(la, lb) > 0 {
        clamp(d + length_penalty(la, lb), 0, 100)
    } else {
        d
    }
}

pub proof fn lemma_rounded_ratio_bound(num: nat, den: nat, scale: nat)
    requires
        den > 0,
        num <= den,
    ensures
        rounded_ratio(num, den, scale) <= scale,
{
    assert(2 * scale * num <= 2 * scale * den) by (nonlinear_arith)
        requires
            num <= den,
    ;
    assert((2 * scale * num + den) / (2 * den) <= scale) by (nonlinear_arith)
        requires
            2 * scale * num <= 2 * scale * den,
            den > 0,
    ;
}

/// `round(scale * num / den)` computed exactly on integers.
pub fn round_ratio(num: u128, den: u128, scale: u128) -> (r: u128)
    requires
        den > 0,
        den <= 0x1_0000_0000_0000_0000_0000,
        num <= den,
        scale <= 100,
    ensures
        r as nat == rounded_ratio(num as nat, den as nat, scale as nat),
        r <= scale,
{
    proof {
        lemma_rounded_ratio_bound(num as nat, den as nat, scale as nat);
    }
    assert(2 * scale * num <= 200 * 0x1_0000_0000_0000_0000_0000u128) by (nonlinear_arith)
        requires
            scale <= 100,
            num <= 0x1_0000_0000_0000_0000_0000u128,
    ;
    (2 * scale * num + den) / (2 * den)
}

/// Adds the optional length penalty to a distance in `[0, 100]`.
pub fn apply_length_penalty(distance: i32, left_len: usize, right_len: usize, include_length: bool) -> (r: i32)
    requires
        0 <= distance <= 100,
    ensures
        r == penalized(distance as int, left_len as nat, right_len as nat, include_length),
        0 <= r <= 100,
        r >= distance,
{
    let max_len = if left_len >= right_len { left_len } else { right_len };
    if include_length && max_len > 0 {
        let delta = if left_len >= right_len { left_len - right_len } else { right_len - left_len };
        let penalty = round_ratio(delta as u128, max_len as u128, 10);
        let sum = distance + penalty as i32;
        if sum > 100 {
            100
        } else {
            sum
        }
    } else {
        distance
    }
}

} // verus!
