//! Fixed-point arithmetic base of the engine.
//!
//! Every quantity the engine handles (cash flows, rates, ratios, noise
//! samples) is an `i128` holding millionths of a unit: the value `1_500_000`
//! stands for `1.5`.  All rounding is truncation toward zero, mirrored
//! exactly by the spec functions below, so every contract states the result
//! of a computation to the last tick.

use vstd::prelude::*;

verus! {

/// Number of ticks in one unit: all values are in millionths.
pub const SCALE: i128 = 1_000_000;

/// Largest length of a cash-flow series the engine accepts.
pub const LEN_LIMIT: usize = 10_000;

/// Largest magnitude of a caller-supplied cash flow (one trillion units).
pub const FLOW_LIMIT: i128 = 1_000_000_000_000_000_000;

/// Largest magnitude of a discount rate or sweep factor the valuation
/// primitive accepts (four thousand units, far past any economic rate).
pub const RATE_LIMIT: i128 = 4_000_000_000;

/// Largest magnitude of a sweep range bound (one thousand units).
pub const RANGE_LIMIT: i128 = 1_000_000_000;

/// Largest magnitude of a transformed cash flow inside a sweep.
pub const NPV_FLOW_LIMIT: i128 = 5_000_000_000_000_000_000_000_000_000;

/// Largest step count of a sensitivity sweep.
pub const STEPS_LIMIT: usize = 10_000;

/// Magnitude at which a discount factor is clamped and held; dividing any
/// admissible flow by it already truncates to zero or near it.
pub const DF_FREEZE: i128 = 10_000_000_000_000_000_000_000_000;

/// Failure taxonomy of the engine.  Each public operation says in its
/// contract exactly which inputs produce which variant.
#[derive(Clone, Copy, Debug, PartialEq, Eq, Structural)]
pub enum EngineError {
    /// Empty buffer, zero iteration or step count, or a malformed parameter.
    InvalidInput,
    /// The rate solver did not reach tolerance within its iteration cap.
    NonConvergence,
    /// The rate solver met a flat objective: a derivative of exactly zero.
    ZeroDerivative,
    /// Gaussian elimination found no usable pivot.
    Singular,
    /// An intermediate value left the fixed-point range the engine supports.
    RangeExceeded,
}

/// Magnitude of an integer.
pub open spec fn mag(a: int) -> int {
    if a < 0 {
        -a
    } else {
        a
    }
}

/// Division truncating toward zero, the rounding of every quotient in the
/// engine; division by zero is defined as zero.
pub open spec fn tdiv(a: int, b: int) -> int {
    if b == 0 {
        0
    } else if (a < 0) == (b < 0) {
        mag(a) / mag(b)
    } else {
        -(mag(a) / mag(b))
    }
}

/// Fixed-point product: `(a * b) / SCALE`, truncated toward zero.
pub open spec fn fmul(a: int, b: int) -> int {
    tdiv(a * b, SCALE as int)
}

/// Fixed-point quotient: `(a * SCALE) / b`, truncated toward zero.
pub open spec fn fdiv(a: int, b: int) -> int {
    tdiv(a * SCALE, b)
}

/// The view of an `i128` vector as a sequence of mathematical integers.
pub open spec fn ints_of(v: Seq<i128>) -> Seq<int> {
    v.map_values(|x: i128| x as int)
}

/// Truncating division shrinks magnitude: `|a / b| <= |a|` once `|b| >= 1`.
pub proof fn lemma_tdiv_shrinks(a: int, b: int)
    requires
        b != 0,
    ensures
        mag(tdiv(a, b)) <= mag(a),
        mag(tdiv(a, b)) == mag(a) / mag(b),
{
    assert(mag(a) / mag(b) <= mag(a) && 0 <= mag(a) / mag(b)) by (nonlinear_arith)
        requires
            mag(a) >= 0,
            mag(b) >= 1,
    ;
}

/// The quotient magnitude is bounded by any bound on `|a| / |b|`.
pub proof fn lemma_tdiv_bound(a: int, b: int, c: int)
    requires
        b != 0,
        mag(a) <= c * mag(b),
        0 <= c,
    ensures
        mag(tdiv(a, b)) <= c,
{
    assert(mag(a) / mag(b) <= c) by (nonlinear_arith)
        requires
            mag(a) >= 0,
            mag(b) >= 1,
            0 <= c,
            mag(a) <= c * mag(b),
    ;
}

/// Magnitude of a product is the product of magnitudes.
pub proof fn lemma_mul_mag(a: int, b: int)
    ensures
        mag(a * b) == mag(a) * mag(b),
{
    assert(mag(a * b) == mag(a) * mag(b)) by (nonlinear_arith);
}

/// Multiplying two bounded values keeps the product bounded.
pub proof fn lemma_mul_bound(a: int, b: int, ca: int, cb: int)
    requires
        mag(a) <= ca,
        mag(b) <= cb,
    ensures
        mag(a * b) <= ca * cb,
{
    assert(mag(a * b) <= ca * cb) by (nonlinear_arith)
        requires
            mag(a) <= ca,
            mag(b) <= cb,
            0 <= mag(a),
            0 <= mag(b),
    ;
}

/// The product of two bounded magnitudes is bounded by the product of the
/// bounds.
pub proof fn lemma_mag_mul_le(a: int, b: int, ca: int, cb: int)
    requires
        mag(a) <= ca,
        mag(b) <= cb,
    ensures
        mag(a) * mag(b) <= ca * cb,
        mag(a * b) <= ca * cb,
{
    lemma_mul_mag(a, b);
    lemma_mul_bound(a, b, ca, cb);
    assert(mag(a) * mag(b) <= ca * cb) by (nonlinear_arith)
        requires
            0 <= mag(a) <= ca,
            0 <= mag(b) <= cb,
    ;
}

/// A fixed-point product of bounded factors stays under `q` whenever the
/// plain product of the bounds stays under `q * SCALE`.
pub proof fn lemma_fmul_cap(a: int, b: int, ca: int, cb: int, q: int)
    requires
        mag(a) <= ca,
        mag(b) <= cb,
        0 <= q,
        ca * cb <= q * SCALE as int,
    ensures
        mag(fmul(a, b)) <= q,
{
    lemma_mul_bound(a, b, ca, cb);
    lemma_tdiv_shrinks(a * b, SCALE as int);
    assert(mag(a * b) / (SCALE as int) <= q) by (nonlinear_arith)
        requires
            0 <= mag(a * b),
            mag(a * b) <= q * (SCALE as int),
            0 <= q,
    ;
}

/// Updating one slot commutes with taking the integer view.
pub proof fn lemma_ints_of_update(v: Seq<i128>, i: int, x: i128)
    requires
        0 <= i < v.len(),
    ensures
        ints_of(v.update(i, x)) == ints_of(v).update(i, x as int),
{
    assert(ints_of(v.update(i, x)) =~= ints_of(v).update(i, x as int));
}

/// Truncating division of `i128` values, rounding toward zero.
pub fn div_t(a: i128, b: i128) -> (r: i128)
    requires
        b != 0,
        a > i128::MIN,
        b > i128::MIN,
    ensures
        r as int == tdiv(a as int, b as int),
        mag(r as int) <= mag(a as int),
{
    proof {
        lemma_tdiv_shrinks(a as int, b as int);
    }
    let an: u128 = if a < 0 {
        (-a) as u128
    } else {
        a as u128
    };
    let bn: u128 = if b < 0 {
        (-b) as u128
    } else {
        b as u128
    };
    let q: u128 = an / bn;
    proof {
        assert(an as int == mag(a as int));
        assert(bn as int == mag(b as int));
        assert(q as int <= an as int) by (nonlinear_arith)
            requires
                bn >= 1,
                q == an as int / bn as int,
                an >= 0,
        ;
    }
    if (a < 0) != (b < 0) {
        -(q as i128)
    } else {
        q as i128
    }
}

/// Fixed-point product of `i128` values.
pub fn fmul_e(a: i128, b: i128) -> (r: i128)
    requires
        mag(a as int) * mag(b as int) <= i128::MAX,
    ensures
        r as int == fmul(a as int, b as int),
        mag(r as int) <= mag(a as int) * mag(b as int),
{
    proof {
        lemma_mul_mag(a as int, b as int);
    }
    let p: i128 = a * b;
    div_t(p, SCALE)
}

/// Fixed-point quotient of `i128` values; the divisor must be nonzero.
pub fn fdiv_e(a: i128, b: i128) -> (r: i128)
    requires
        b != 0,
        b > i128::MIN,
        mag(a as int) * (SCALE as int) <= i128::MAX,
    ensures
        r as int == fdiv(a as int, b as int),
        mag(r as int) <= mag(a as int) * (SCALE as int),
{
    proof {
        lemma_mul_mag(a as int, SCALE as int);
    }
    let p: i128 = a * SCALE;
    div_t(p, b)
}

/// Floor of the square root: `r * r <= x < (r + 1) * (r + 1)`.
pub fn isqrt(x: i128) -> (r: i128)
    requires
        0 <= x,
    ensures
        0 <= r,
        r * r <= x,
        x < (r + 1) * (r + 1),
{
    let mut lo: i128 = 0;
    let mut hi: i128 = 0x80000000000000000;
    proof {
        assert((0x80000000000000000 as int) * (0x80000000000000000 as int)
            > i128::MAX as int) by (nonlinear_arith);
    }
    while lo + 1 < hi
        invariant
            0 <= lo < hi <= 0x80000000000000000,
            lo * lo <= x,
            x < hi * hi,
        decreases hi - lo,
    {
        let mid: i128 = lo + (hi - lo) / 2;
        assert(lo < mid < hi);
        if mid <= x / mid {
            proof {
                assert(mid * mid <= x) by (nonlinear_arith)
                    requires
                        mid >= 1,
                        mid <= x / mid,
                        x >= 0,
                ;
            }
            lo = mid;
        } else {
            proof {
                assert(x < mid * mid) by (nonlinear_arith)
                    requires
                        mid >= 1,
                        mid > x / mid,
                        x >= 0,
                ;
            }
            hi = mid;
        }
    }
    lo
}

} // verus!
