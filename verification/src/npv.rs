//! Valuation primitive: net present value of a cash-flow series.
//!
//! `npv_of` is the engine-wide model of discounted-cash-flow valuation: a
//! sum of per-period terms `flow * SCALE / df(t)`, where the discount factor
//! `df(t) = (1 + rate)^t` is built by repeated fixed-point multiplication.
//! A factor that reaches zero makes its term zero, and a rate of exactly
//! minus one unit makes the whole value zero: degenerate discounting yields
//! a defined zero contribution, never an arithmetic fault.

use vstd::prelude::*;

use crate::fixed::{
    mag, tdiv, fmul, ints_of, lemma_tdiv_shrinks, lemma_mul_mag, div_t, fmul_e, SCALE,
    LEN_LIMIT, RATE_LIMIT, NPV_FLOW_LIMIT, DF_FREEZE,
};

verus! {

/// A discount factor clamped into the representable band.
pub open spec fn df_clamp(x: int) -> int {
    if x > DF_FREEZE as int {
        DF_FREEZE as int
    } else if x < -DF_FREEZE as int {
        -DF_FREEZE as int
    } else {
        x
    }
}

/// Discount factor for period `t`: fixed-point `(1 + rate)^t`, clamped at
/// `DF_FREEZE` and held there; dividing any admissible flow by the clamped
/// band truncates to zero or near it.
pub open spec fn df_at(rate: int, t: nat) -> int
    decreases t,
{
    if t == 0 {
        SCALE as int
    } else {
        let p = df_at(rate, (t - 1) as nat);
        if mag(p) >= DF_FREEZE as int {
            p
        } else {
            df_clamp(fmul(p, SCALE as int + rate))
        }
    }
}

/// One discounted term; a vanished factor contributes zero.
pub open spec fn term_of(flow: int, df: int) -> int {
    if df == 0 {
        0
    } else {
        tdiv(flow * SCALE, df)
    }
}

/// Sum of the first `n` discounted terms.
pub open spec fn npv_prefix(flows: Seq<int>, rate: int, n: nat) -> int
    decreases n,
{
    if n == 0 {
        0
    } else {
        npv_prefix(flows, rate, (n - 1) as nat) + term_of(
            flows[n - 1],
            df_at(rate, (n - 1) as nat),
        )
    }
}

/// Net present value of the whole series; zero when `1 + rate` is zero.
pub open spec fn npv_of(flows: Seq<int>, rate: int) -> int {
    if SCALE as int + rate == 0 {
        0
    } else {
        npv_prefix(flows, rate, flows.len())
    }
}

/// Admissible discount rate for the valuation primitive.
pub open spec fn valid_rate(rate: int) -> bool {
    mag(rate) <= RATE_LIMIT as int
}

/// Admissible flow sequence: bounded length and bounded entries.
pub open spec fn valid_flows(flows: Seq<int>, limit: int) -> bool {
    flows.len() <= LEN_LIMIT as int && forall|i: int|
        0 <= i < flows.len() ==> mag(#[trigger] flows[i]) <= limit
}

/// Every discount factor stays within the clamped band.
pub proof fn lemma_df_bound(rate: int, t: nat)
    ensures
        mag(df_at(rate, t)) <= DF_FREEZE as int,
    decreases t,
{
    if t == 0 {
    } else {
        lemma_df_bound(rate, (t - 1) as nat);
    }
}

/// Every discounted term is bounded by `limit * SCALE`.
pub proof fn lemma_term_bound(flow: int, df: int, limit: int)
    requires
        mag(flow) <= limit,
        0 <= limit,
    ensures
        mag(term_of(flow, df)) <= limit * SCALE as int,
{
    if df == 0 {
        assert(0 <= limit * SCALE as int) by (nonlinear_arith)
            requires
                0 <= limit,
        ;
    } else {
        lemma_tdiv_shrinks(flow * SCALE, df);
        lemma_mul_mag(flow, SCALE as int);
        assert(mag(flow) * (SCALE as int) <= limit * SCALE as int) by (nonlinear_arith)
            requires
                mag(flow) <= limit,
        ;
    }
}

/// A prefix of the valuation sum is bounded by `n * limit * SCALE`.
pub proof fn lemma_npv_prefix_bound(flows: Seq<int>, rate: int, n: nat, limit: int)
    requires
        0 <= limit,
        n <= flows.len(),
        forall|i: int| 0 <= i < flows.len() ==> mag(#[trigger] flows[i]) <= limit,
    ensures
        mag(npv_prefix(flows, rate, n)) <= n * (limit * SCALE as int),
    decreases n,
{
    if n == 0 {
    } else {
        lemma_npv_prefix_bound(flows, rate, (n - 1) as nat, limit);
        lemma_term_bound(flows[n - 1], df_at(rate, (n - 1) as nat), limit);
        assert((n - 1) * (limit * SCALE as int) + limit * SCALE as int == n * (limit * SCALE as int))
            by (nonlinear_arith);
    }
}

/// The valuation of an admissible series is bounded by
/// `len * limit * SCALE`.
pub proof fn lemma_npv_bound(flows: Seq<int>, rate: int, limit: int)
    requires
        0 <= limit,
        forall|i: int| 0 <= i < flows.len() ==> mag(#[trigger] flows[i]) <= limit,
    ensures
        mag(npv_of(flows, rate)) <= flows.len() * (limit * SCALE as int),
{
    if SCALE as int + rate == 0 {
        assert(0 <= flows.len() * (limit * SCALE as int)) by (nonlinear_arith)
            requires
                0 <= limit,
                0 <= flows.len(),
        ;
    } else {
        lemma_npv_prefix_bound(flows, rate, flows.len(), limit);
    }
}

/// The valuation of an empty series is zero at every rate.
pub proof fn lemma_npv_empty(rate: int)
    ensures
        npv_of(Seq::<int>::empty(), rate) == 0,
{
}

/// A single-flow series is worth exactly that flow at every valid rate:
/// the period-zero discount factor is one unit, and dividing by it is exact.
pub proof fn lemma_npv_single(x: int, rate: int)
    requires
        SCALE as int + rate != 0,
    ensures
        npv_of(seq![x], rate) == x,
{
    let flows = seq![x];
    assert(df_at(rate, 0nat) == SCALE as int);
    assert(npv_prefix(flows, rate, 0nat) == 0);
    assert(flows[0] == x);
    assert(npv_prefix(flows, rate, 1nat) == term_of(x, SCALE as int));
    assert(tdiv(x * SCALE, SCALE as int) == x) by (nonlinear_arith)
        requires
            SCALE == 1_000_000i128,
    ;
}

/// A fixed-point product of nonnegative factors is monotone in both.
proof fn lemma_fmul_mono(a1: int, b1: int, a2: int, b2: int)
    requires
        0 <= a1 <= a2,
        0 <= b1 <= b2,
    ensures
        0 <= fmul(a1, b1) <= fmul(a2, b2),
{
    assert(0 <= a1 * b1 <= a2 * b2) by (nonlinear_arith)
        requires
            0 <= a1 <= a2,
            0 <= b1 <= b2,
    ;
    assert((a1 * b1) / (SCALE as int) <= (a2 * b2) / (SCALE as int) && 0 <= (a1 * b1) / (
    SCALE as int)) by (nonlinear_arith)
        requires
            0 <= a1 * b1 <= a2 * b2,
    ;
}

/// Multiplying by one unit is exact.
proof fn lemma_fmul_identity(p: int)
    requires
        0 <= p,
    ensures
        fmul(p, SCALE as int) == p,
{
    assert((p * SCALE as int) / (SCALE as int) == p) by (nonlinear_arith)
        requires
            0 <= p,
            SCALE == 1_000_000i128,
    ;
}

/// At nonnegative rates the discount factor is positive, bounded, and
/// monotone in the rate.
proof fn lemma_df_mono(r1: int, r2: int, t: nat)
    requires
        0 <= r1 <= r2,
    ensures
        SCALE as int <= df_at(r1, t),
        df_at(r1, t) <= df_at(r2, t),
        df_at(r2, t) <= DF_FREEZE as int,
    decreases t,
{
    if t == 0 {
    } else {
        lemma_df_mono(r1, r2, (t - 1) as nat);
        let p1 = df_at(r1, (t - 1) as nat);
        let p2 = df_at(r2, (t - 1) as nat);
        if p1 < DF_FREEZE as int {
            lemma_fmul_mono(p1, SCALE as int, p1, SCALE as int + r1);
            lemma_fmul_identity(p1);
            if p2 < DF_FREEZE as int {
                lemma_fmul_mono(p1, SCALE as int + r1, p2, SCALE as int + r2);
            }
        }
    }
}

/// A nonnegative flow's discounted term is nonnegative and antitone in
/// the discount factor.
proof fn lemma_term_antitone(flow: int, df1: int, df2: int)
    requires
        0 <= flow,
        SCALE as int <= df1 <= df2,
    ensures
        0 <= term_of(flow, df2) <= term_of(flow, df1),
{
    assert(0 <= flow * SCALE) by (nonlinear_arith)
        requires
            0 <= flow,
    ;
    assert((flow * SCALE as int) / df2 <= (flow * SCALE as int) / df1 && 0 <= (flow
        * SCALE as int) / df2) by (nonlinear_arith)
        requires
            0 <= flow * SCALE as int,
            1 <= df1 <= df2,
    ;
}

/// Prefixes of the valuation sum are antitone in the rate once every
/// later-period flow is nonnegative.
proof fn lemma_npv_prefix_antitone(flows: Seq<int>, r1: int, r2: int, n: nat)
    requires
        0 <= r1 <= r2,
        n <= flows.len(),
        forall|i: int| 1 <= i < flows.len() ==> 0 <= #[trigger] flows[i],
    ensures
        npv_prefix(flows, r2, n) <= npv_prefix(flows, r1, n),
    decreases n,
{
    if n == 0 {
    } else {
        lemma_npv_prefix_antitone(flows, r1, r2, (n - 1) as nat);
        let t = (n - 1) as nat;
        if t == 0 {
            assert(df_at(r1, 0nat) == SCALE as int && df_at(r2, 0nat) == SCALE as int);
        } else {
            lemma_df_mono(r1, r2, t);
            lemma_term_antitone(flows[n - 1], df_at(r1, t), df_at(r2, t));
        }
    }
}

/// Raising the discount rate never raises the valuation, for series whose
/// later-period flows are all nonnegative and nonnegative rates.  This is
/// the monotonicity that justifies root finding on the valuation; in the
/// truncating fixed-point model it holds in its non-strict form.
pub proof fn lemma_npv_antitone_in_rate(flows: Seq<int>, r1: int, r2: int)
    requires
        0 <= r1 <= r2,
        forall|i: int| 1 <= i < flows.len() ==> 0 <= #[trigger] flows[i],
    ensures
        npv_of(flows, r2) <= npv_of(flows, r1),
{
    lemma_npv_prefix_antitone(flows, r1, r2, flows.len());
}

/// Net present value of a cash-flow series at a fixed discount rate.
///
/// Mirrors `npv_of` exactly: an empty series is worth zero, and a rate of
/// exactly minus one unit yields zero by the degenerate-discounting policy.
pub fn calculate_npv(flows: &Vec<i128>, rate: i128) -> (r: i128)
    requires
        valid_rate(rate as int),
        valid_flows(ints_of(flows@), NPV_FLOW_LIMIT as int),
    ensures
        r as int == npv_of(ints_of(flows@), rate as int),
{
    let ghost gflows = ints_of(flows@);
    let base: i128 = SCALE + rate;
    if base == 0 {
        return 0;
    }
    let mut acc: i128 = 0;
    let mut df: i128 = SCALE;
    let mut t: usize = 0;
    let n = flows.len();
    while t < n
        invariant
            n == flows@.len(),
            gflows == ints_of(flows@),
            gflows.len() == n,
            0 <= t <= n,
            valid_rate(rate as int),
            valid_flows(gflows, NPV_FLOW_LIMIT as int),
            base == SCALE as int + rate,
            base != 0,
            df as int == df_at(rate as int, t as nat),
            acc as int == npv_prefix(gflows, rate as int, t as nat),
            mag(acc as int) <= t * (NPV_FLOW_LIMIT as int * SCALE as int),
        decreases n - t,
    {
        proof {
            lemma_df_bound(rate as int, t as nat);
            assert(gflows[t as int] == flows@[t as int] as int);
            lemma_mul_mag(flows@[t as int] as int, SCALE as int);
            lemma_term_bound(gflows[t as int], df as int, NPV_FLOW_LIMIT as int);
            assert(mag(gflows[t as int]) * (SCALE as int)
                <= NPV_FLOW_LIMIT as int * SCALE as int) by (nonlinear_arith)
                requires
                    mag(gflows[t as int]) <= NPV_FLOW_LIMIT as int,
            ;
            assert((t + 1) * (NPV_FLOW_LIMIT as int * SCALE as int)
                == t * (NPV_FLOW_LIMIT as int * SCALE as int) + NPV_FLOW_LIMIT as int * SCALE as int)
                by (nonlinear_arith);
            assert(t as int * (NPV_FLOW_LIMIT as int * SCALE as int)
                <= LEN_LIMIT as int * (NPV_FLOW_LIMIT as int * SCALE as int)) by (nonlinear_arith)
                requires
                    0 <= t as int <= LEN_LIMIT as int,
            ;
        }
        let flow = flows[t];
        let term: i128 = if df == 0 {
            0
        } else {
            div_t(flow * SCALE, df)
        };
        acc = acc + term;
        let dfm: i128 = if df < 0 {
            -df
        } else {
            df
        };
        if dfm < DF_FREEZE {
            proof {
                assert(mag(df as int) * mag(base as int)
                    <= DF_FREEZE as int * (SCALE as int + RATE_LIMIT as int)) by (nonlinear_arith)
                    requires
                        0 <= mag(df as int) <= DF_FREEZE as int,
                        0 <= mag(base as int) <= SCALE as int + RATE_LIMIT as int,
                ;
            }
            let f = fmul_e(df, base);
            df = if f > DF_FREEZE {
                DF_FREEZE
            } else if f < -DF_FREEZE {
                -DF_FREEZE
            } else {
                f
            };
        }
        t = t + 1;
    }
    acc
}

} // verus!
