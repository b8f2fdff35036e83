//! Particle and protein peer utilities: recovery, separation efficiency,
//! and weighted particle-size distribution statistics.

use vstd::prelude::*;

use crate::fixed::{
    mag, tdiv, fmul, fdiv, ints_of, lemma_mag_mul_le, lemma_fmul_cap, lemma_tdiv_bound, div_t,
    fmul_e, fdiv_e, isqrt, EngineError, SCALE, LEN_LIMIT,
};
use crate::stats::sum_prefix;

verus! {

/// Largest magnitude of a yield, content or efficiency ratio (one thousand
/// units).
pub const RATIO_LIMIT: i128 = 1_000_000_000;

/// Largest magnitude of a mass, concentration or particle size.
pub const MASS_LIMIT: i128 = 1_000_000_000_000_000;

/// Protein recovery: yield times content times separation efficiency,
/// over one hundred.
pub open spec fn recovery_of(protein_yield: int, protein_content: int, efficiency: int) -> int {
    tdiv(fmul(fmul(protein_yield, protein_content), efficiency), 100)
}

/// Separation efficiency: output protein mass over input protein mass,
/// clamped into the unit interval; zero when the input side is not
/// positive.
pub open spec fn separation_of(
    input_mass: int,
    output_mass: int,
    input_concentration: int,
    output_concentration: int,
) -> int {
    if input_mass <= 0 || input_concentration <= 0 {
        0
    } else {
        let raw = fdiv(fmul(output_mass, output_concentration), fmul(input_mass,
            input_concentration));
        if raw < 0 {
            0
        } else if raw > SCALE as int {
            SCALE as int
        } else {
            raw
        }
    }
}

/// Protein recovery from yield, content and separation efficiency.
pub fn calculate_protein_recovery(
    protein_yield: i128,
    protein_content: i128,
    separation_efficiency: i128,
) -> (r: i128)
    requires
        mag(protein_yield as int) <= RATIO_LIMIT as int,
        mag(protein_content as int) <= RATIO_LIMIT as int,
        mag(separation_efficiency as int) <= RATIO_LIMIT as int,
    ensures
        r as int == recovery_of(protein_yield as int, protein_content as int,
            separation_efficiency as int),
{
    proof {
        lemma_mag_mul_le(protein_yield as int, protein_content as int, RATIO_LIMIT as int,
            RATIO_LIMIT as int);
        lemma_fmul_cap(protein_yield as int, protein_content as int, RATIO_LIMIT as int,
            RATIO_LIMIT as int, 1_000_000_000_000int);
    }
    let product = fmul_e(protein_yield, protein_content);
    proof {
        lemma_mag_mul_le(product as int, separation_efficiency as int, 1_000_000_000_000int,
            RATIO_LIMIT as int);
    }
    let scaled = fmul_e(product, separation_efficiency);
    div_t(scaled, 100)
}

/// Separation efficiency of a mass/concentration balance, clamped into
/// the unit interval.
pub fn calculate_separation_efficiency(
    input_mass: i128,
    output_mass: i128,
    input_concentration: i128,
    output_concentration: i128,
) -> (r: i128)
    requires
        mag(input_mass as int) <= MASS_LIMIT as int,
        mag(output_mass as int) <= MASS_LIMIT as int,
        mag(input_concentration as int) <= MASS_LIMIT as int,
        mag(output_concentration as int) <= MASS_LIMIT as int,
    ensures
        r as int == separation_of(input_mass as int, output_mass as int,
            input_concentration as int, output_concentration as int),
        0 <= r <= SCALE,
{
    if input_mass <= 0 || input_concentration <= 0 {
        return 0;
    }
    proof {
        lemma_mag_mul_le(output_mass as int, output_concentration as int, MASS_LIMIT as int,
            MASS_LIMIT as int);
        lemma_fmul_cap(output_mass as int, output_concentration as int, MASS_LIMIT as int,
            MASS_LIMIT as int, 1_000_000_000_000_000_000_000_000int);
        lemma_mag_mul_le(input_mass as int, input_concentration as int, MASS_LIMIT as int,
            MASS_LIMIT as int);
        lemma_fmul_cap(input_mass as int, input_concentration as int, MASS_LIMIT as int,
            MASS_LIMIT as int, 1_000_000_000_000_000_000_000_000int);
    }
    let numerator = fmul_e(output_mass, output_concentration);
    let denominator = fmul_e(input_mass, input_concentration);
    let raw: i128 = if denominator == 0 {
        proof {
            assert(fdiv(numerator as int, 0) == 0);
        }
        0
    } else {
        proof {
            lemma_mag_mul_le(numerator as int, SCALE as int,
                1_000_000_000_000_000_000_000_000int, SCALE as int);
        }
        fdiv_e(numerator, denominator)
    };
    if raw < 0 {
        0
    } else if raw > SCALE {
        SCALE
    } else {
        raw
    }
}

/// Variance cap of the distribution statistics; a larger variance is a
/// defined range failure.
pub const VAR_LIMIT: i128 = 100_000_000_000_000_000_000_000_000_000_000;

/// Weighted summary of a particle-size distribution.
#[derive(Clone, Copy, Debug, PartialEq, Eq, Structural)]
pub struct ParticleStats {
    pub d10: i128,
    pub d50: i128,
    pub d90: i128,
    pub mean: i128,
    pub std_dev: i128,
}

/// Pair the sizes with their weights, in input order.
pub open spec fn zip_pairs(sizes: Seq<int>, weights: Seq<int>) -> Seq<(int, int)> {
    Seq::new(sizes.len(), |i: int| (sizes[i], weights[i]))
}

/// The view of a pair vector as mathematical pairs.
pub open spec fn pairs_of(v: Seq<(i128, i128)>) -> Seq<(int, int)> {
    v.map_values(|p: (i128, i128)| (p.0 as int, p.1 as int))
}

/// Insert a pair into a size-sorted sequence, before every strictly
/// larger size and after equal ones.
pub open spec fn insert_sorted(s: Seq<(int, int)>, p: (int, int)) -> Seq<(int, int)>
    decreases s.len(),
{
    if s.len() == 0 {
        seq![p]
    } else if p.0 < s.last().0 {
        insert_sorted(s.drop_last(), p).push(s.last())
    } else {
        s.push(p)
    }
}

/// Stable insertion sort of the pairs by size.
pub open spec fn sort_pairs(s: Seq<(int, int)>) -> Seq<(int, int)>
    decreases s.len(),
{
    if s.len() == 0 {
        s
    } else {
        insert_sorted(sort_pairs(s.drop_last()), s.last())
    }
}

/// Nondecreasing sizes, adjacent pair by adjacent pair.
pub open spec fn sorted_by_size(s: Seq<(int, int)>) -> bool {
    forall|i: int| 0 < i < s.len() ==> (#[trigger] s[i]).0 >= s[i - 1].0
}

/// In a sorted sequence the last size is the largest.
proof fn lemma_sorted_last_max(s: Seq<(int, int)>)
    requires
        sorted_by_size(s),
        s.len() > 0,
    ensures
        forall|i: int| 0 <= i < s.len() ==> (#[trigger] s[i]).0 <= s.last().0,
    decreases s.len(),
{
    if s.len() > 1 {
        assert(sorted_by_size(s.drop_last()));
        lemma_sorted_last_max(s.drop_last());
        assert forall|i: int| 0 <= i < s.len() implies (#[trigger] s[i]).0 <= s.last().0 by {
            if i < s.len() - 1 {
                assert(s.drop_last()[i] == s[i]);
                assert(s.drop_last().last() == s[s.len() - 2]);
            }
        }
    }
}

/// The largest size after an insertion: the larger of the old last size
/// and the inserted one.
spec fn size_cap(s: Seq<(int, int)>, p: (int, int)) -> int {
    if s.len() == 0 {
        p.0
    } else if s.last().0 > p.0 {
        s.last().0
    } else {
        p.0
    }
}

/// Inserting into a sorted sequence keeps it sorted, adds exactly the new
/// pair to the population, and caps every size by `size_cap`.
proof fn lemma_insert_sorted_props(s: Seq<(int, int)>, p: (int, int))
    requires
        sorted_by_size(s),
    ensures
        insert_sorted(s, p).len() == s.len() + 1,
        sorted_by_size(insert_sorted(s, p)),
        insert_sorted(s, p).to_multiset() == s.to_multiset().insert(p),
        forall|i: int|
            0 <= i < insert_sorted(s, p).len() ==> (#[trigger] insert_sorted(s, p)[i]).0
                <= size_cap(s, p),
    decreases s.len(),
{
    broadcast use vstd::seq_lib::group_to_multiset_ensures;

    let t = insert_sorted(s, p);
    if s.len() == 0 {
        assert(t =~= Seq::<(int, int)>::empty().push(p));
        assert(s =~= Seq::<(int, int)>::empty());
        assert(t.to_multiset() =~= s.to_multiset().insert(p));
    } else if p.0 < s.last().0 {
        assert(sorted_by_size(s.drop_last()));
        lemma_insert_sorted_props(s.drop_last(), p);
        let t0 = insert_sorted(s.drop_last(), p);
        assert(t == t0.push(s.last()));
        assert(size_cap(s.drop_last(), p) <= s.last().0) by {
            if s.len() > 1 {
                assert(s.drop_last().last() == s[s.len() - 2]);
            }
        }
        assert forall|i: int| 0 < i < t.len() implies (#[trigger] t[i]).0 >= t[i - 1].0 by {
            if i < t0.len() {
                assert(t[i] == t0[i] && t[i - 1] == t0[i - 1]);
            } else {
                assert(t[i] == s.last() && t[i - 1] == t0[t0.len() - 1]);
            }
        }
        assert(s =~= s.drop_last().push(s.last()));
        assert(s.to_multiset() =~= s.drop_last().to_multiset().insert(s.last()));
        assert(t.to_multiset() =~= t0.to_multiset().insert(s.last()));
        assert(s.drop_last().to_multiset().insert(p).insert(s.last())
            =~= s.drop_last().to_multiset().insert(s.last()).insert(p));
        assert(t.to_multiset() =~= s.to_multiset().insert(p));
    } else {
        assert(t == s.push(p));
        lemma_sorted_last_max(s);
        assert forall|i: int| 0 < i < t.len() implies (#[trigger] t[i]).0 >= t[i - 1].0 by {
            if i < s.len() {
                assert(t[i] == s[i] && t[i - 1] == s[i - 1]);
            } else {
                assert(t[i] == p && t[i - 1] == s.last());
            }
        }
        assert(t.to_multiset() =~= s.to_multiset().insert(p));
    }
}

/// The sorting model is sound: it keeps the length, keeps the population
/// of pairs, and orders the sizes; the percentiles therefore read from a
/// sorted permutation of the input pairing.
pub proof fn lemma_sort_pairs_is_sorted_permutation(s: Seq<(int, int)>)
    ensures
        sort_pairs(s).len() == s.len(),
        sorted_by_size(sort_pairs(s)),
        sort_pairs(s).to_multiset() == s.to_multiset(),
    decreases s.len(),
{
    broadcast use vstd::seq_lib::group_to_multiset_ensures;

    if s.len() > 0 {
        lemma_sort_pairs_is_sorted_permutation(s.drop_last());
        lemma_insert_sorted_props(sort_pairs(s.drop_last()), s.last());
        assert(s =~= s.drop_last().push(s.last()));
        assert(s.to_multiset() =~= s.drop_last().to_multiset().insert(s.last()));
        assert(sort_pairs(s).to_multiset() =~= s.to_multiset());
    }
}

/// Cumulative normalized weight of the first `k` sorted pairs.
pub open spec fn cum_prefix(s: Seq<(int, int)>, total: int, k: nat) -> int
    decreases k,
{
    if k == 0 {
        0
    } else {
        cum_prefix(s, total, (k - 1) as nat) + fdiv(s[k - 1].1, total)
    }
}

/// First index whose cumulative weight reaches `p`, searching from `k`;
/// the length when none does.
pub open spec fn first_ge(s: Seq<(int, int)>, total: int, p: int, k: nat) -> int
    decreases s.len() - k,
{
    if k >= s.len() {
        s.len() as int
    } else if cum_prefix(s, total, (k + 1) as nat) >= p {
        k as int
    } else {
        first_ge(s, total, p, (k + 1) as nat)
    }
}

/// Weighted percentile of the sorted pairs: the size at the first
/// cumulative weight that reaches `p`, linearly interpolated between the
/// two straddling sizes when `p` falls strictly between cumulative
/// weights, and the nearest end size at the boundaries.
pub open spec fn percentile_of(s: Seq<(int, int)>, total: int, p: int) -> int {
    let idx = first_ge(s, total, p, 0);
    if idx >= s.len() {
        s[s.len() - 1].0
    } else if cum_prefix(s, total, (idx + 1) as nat) == p {
        s[idx].0
    } else if idx == 0 {
        s[0].0
    } else {
        let x0 = s[idx - 1].0;
        let x1 = s[idx].0;
        let y0 = cum_prefix(s, total, idx as nat);
        let y1 = cum_prefix(s, total, (idx + 1) as nat);
        x0 + fdiv(fmul(x1 - x0, p - y0), y1 - y0)
    }
}

/// Weighted mean of the first `k` pairs, in input order.
pub open spec fn wmean_prefix(s: Seq<(int, int)>, total: int, k: nat) -> int
    decreases k,
{
    if k == 0 {
        0
    } else {
        wmean_prefix(s, total, (k - 1) as nat) + fmul(s[k - 1].0, fdiv(s[k - 1].1, total))
    }
}

/// Weighted variance of the first `k` pairs around `m`, in input order.
pub open spec fn wvar_prefix(s: Seq<(int, int)>, total: int, m: int, k: nat) -> int
    decreases k,
{
    if k == 0 {
        0
    } else {
        wvar_prefix(s, total, m, (k - 1) as nat) + fmul(fmul(s[k - 1].0 - m, s[k - 1].0 - m),
            fdiv(s[k - 1].1, total))
    }
}

/// Weighted mean of the whole distribution.
pub open spec fn wmean_of(s: Seq<(int, int)>, total: int) -> int {
    wmean_prefix(s, total, s.len())
}

/// Weighted variance of the whole distribution.
pub open spec fn wvar_of(s: Seq<(int, int)>, total: int) -> int {
    wvar_prefix(s, total, wmean_of(s, total), s.len())
}

/// Inserting at the boundary between the small and the strictly larger
/// sizes is what `insert_sorted` does.
proof fn lemma_insert_sorted_split(s: Seq<(int, int)>, p: (int, int), idx: int)
    requires
        0 <= idx <= s.len(),
        forall|j: int| idx <= j < s.len() ==> p.0 < (#[trigger] s[j]).0,
        idx > 0 ==> !(p.0 < s[idx - 1].0),
    ensures
        insert_sorted(s, p) == s.insert(idx, p),
    decreases s.len(),
{
    if s.len() == 0 {
        assert(insert_sorted(s, p) =~= s.insert(0, p));
    } else if idx == s.len() {
        assert(!(p.0 < s.last().0));
        assert(insert_sorted(s, p) =~= s.insert(idx, p));
    } else {
        assert(p.0 < s.last().0);
        lemma_insert_sorted_split(s.drop_last(), p, idx);
        assert(insert_sorted(s.drop_last(), p).push(s.last()) =~= s.insert(idx, p));
    }
}

/// Every element of a nonnegative population is at most the total.
proof fn lemma_element_le_sum(s: Seq<int>, i: int, n: nat)
    requires
        forall|j: int| 0 <= j < s.len() ==> 0 <= #[trigger] s[j],
        0 <= i < n,
        n <= s.len(),
    ensures
        s[i] <= sum_prefix(s, n),
        0 <= sum_prefix(s, n),
    decreases n,
{
    if n == 0 {
    } else if i == n - 1 {
        if n > 1 {
            lemma_element_le_sum(s, 0, (n - 1) as nat);
        }
    } else {
        lemma_element_le_sum(s, i, (n - 1) as nat);
    }
}

/// The search from `k` lands on `i` when every cumulative weight before
/// `i` misses `p` and the one at `i` reaches it.
proof fn lemma_first_ge_lands(s: Seq<(int, int)>, total: int, p: int, k: nat, i: int)
    requires
        k <= i <= s.len(),
        forall|j: int| k <= j < i ==> #[trigger] cum_prefix(s, total, (j + 1) as nat) < p,
        i < s.len() ==> cum_prefix(s, total, (i + 1) as nat) >= p,
    ensures
        first_ge(s, total, p, k) == i,
    decreases i - k,
{
    if k < i {
        assert(cum_prefix(s, total, (k + 1) as nat) < p);
        lemma_first_ge_lands(s, total, p, (k + 1) as nat, i);
    }
}

/// Admissible pair: bounded size, weight within the total.
pub open spec fn pair_ok(p: (int, int), total: int) -> bool {
    &&& mag(p.0) <= MASS_LIMIT as int
    &&& 0 <= p.1 <= total
}

/// Weighted statistics of a particle-size distribution.
///
/// An empty buffer or a non-positive weight total is `InvalidInput`; a
/// variance past `VAR_LIMIT` is `RangeExceeded`.  On success the mean and
/// variance are the weighted moments in input order, and each percentile
/// is read from the stable size-sorted pairing with linear interpolation,
/// exactly as `percentile_of` states.
pub fn analyze_particle_distribution(sizes: &Vec<i128>, weights: &Vec<i128>) -> (r: Result<
    ParticleStats,
    EngineError,
>)
    requires
        sizes@.len() == weights@.len(),
        sizes@.len() <= LEN_LIMIT,
        forall|i: int| 0 <= i < sizes@.len() ==> mag(#[trigger] sizes@[i] as int) <= MASS_LIMIT as int,
        forall|i: int| 0 <= i < weights@.len() ==> 0 <= #[trigger] weights@[i] as int <= MASS_LIMIT as int,
    ensures
        r == Err::<ParticleStats, EngineError>(EngineError::InvalidInput) <==> (sizes@.len() == 0
            || sum_prefix(ints_of(weights@), weights@.len()) <= 0),
        r == Err::<ParticleStats, EngineError>(EngineError::RangeExceeded) <==> (sizes@.len() >= 1
            && sum_prefix(ints_of(weights@), weights@.len()) > 0 && wvar_of(
            zip_pairs(ints_of(sizes@), ints_of(weights@)),
            sum_prefix(ints_of(weights@), weights@.len()),
        ) > VAR_LIMIT as int),
        r is Err ==> (r == Err::<ParticleStats, EngineError>(EngineError::InvalidInput) || r
            == Err::<ParticleStats, EngineError>(EngineError::RangeExceeded)),
        r matches Ok(ps) ==> {
            let gz = zip_pairs(ints_of(sizes@), ints_of(weights@));
            let total = sum_prefix(ints_of(weights@), weights@.len());
            let sorted = sort_pairs(gz);
            &&& ps.mean as int == wmean_of(gz, total)
            &&& ps.d10 as int == percentile_of(sorted, total, 100_000)
            &&& ps.d50 as int == percentile_of(sorted, total, 500_000)
            &&& ps.d90 as int == percentile_of(sorted, total, 900_000)
            &&& 0 <= ps.std_dev
            &&& (ps.std_dev as int) * (ps.std_dev as int) <= wvar_of(gz, total) * SCALE as int
            &&& (ps.std_dev as int + 1) * (ps.std_dev as int + 1) > wvar_of(gz, total)
                * SCALE as int
        },
{
    let ghost gsizes = ints_of(sizes@);
    let ghost gweights = ints_of(weights@);
    let ghost gz = zip_pairs(gsizes, gweights);
    let n = sizes.len();
    if n == 0 {
        return Err(EngineError::InvalidInput);
    }
    let mut total: i128 = 0;
    let mut i: usize = 0;
    while i < n
        invariant
            n == weights@.len(),
            gweights == ints_of(weights@),
            n <= LEN_LIMIT,
            forall|k: int| 0 <= k < weights@.len() ==> 0 <= #[trigger] weights@[k] as int
                <= MASS_LIMIT as int,
            0 <= i <= n,
            total as int == sum_prefix(gweights, i as nat),
            0 <= total as int <= i * MASS_LIMIT as int,
        decreases n - i,
    {
        proof {
            assert(gweights[i as int] == weights@[i as int] as int);
            assert((i + 1) * MASS_LIMIT as int == i * MASS_LIMIT as int + MASS_LIMIT as int)
                by (nonlinear_arith);
            assert(i as int * MASS_LIMIT as int <= LEN_LIMIT as int * MASS_LIMIT as int)
                by (nonlinear_arith)
                requires
                    0 <= i as int <= LEN_LIMIT as int,
            ;
        }
        total = total + weights[i];
        i = i + 1;
    }
    if total <= 0 {
        return Err(EngineError::InvalidInput);
    }
    proof {
        assert forall|k: int| 0 <= k < gweights.len() implies 0 <= #[trigger] gweights[k]
            && gweights[k] <= total as int by {
            lemma_element_le_sum(gweights, k, n as nat);
        }
    }
    // Weighted mean over the input order.
    let mut mean: i128 = 0;
    i = 0;
    while i < n
        invariant
            n == sizes@.len(),
            n == weights@.len(),
            gsizes == ints_of(sizes@),
            gweights == ints_of(weights@),
            gz == zip_pairs(gsizes, gweights),
            n <= LEN_LIMIT,
            0 < total,
            forall|k: int| 0 <= k < sizes@.len() ==> mag(#[trigger] sizes@[k] as int)
                <= MASS_LIMIT as int,
            forall|k: int| 0 <= k < gweights.len() ==> 0 <= #[trigger] gweights[k]
                <= total as int,
            mag(total as int) * (SCALE as int) <= i128::MAX,
            0 <= i <= n,
            mean as int == wmean_prefix(gz, total as int, i as nat),
            mag(mean as int) <= i * MASS_LIMIT as int,
        decreases n - i,
    {
        proof {
            assert(gsizes[i as int] == sizes@[i as int] as int);
            assert(gweights[i as int] == weights@[i as int] as int);
            lemma_mag_mul_le(gweights[i as int], SCALE as int, total as int, SCALE as int);
            assert(mag(gweights[i as int] * SCALE as int) <= SCALE as int * mag(total as int))
                by (nonlinear_arith)
                requires
                    0 <= gweights[i as int] <= total as int,
                    mag(gweights[i as int] * SCALE as int) == mag(gweights[i as int]) * (
                    SCALE as int),
            ;
            lemma_tdiv_bound(gweights[i as int] * SCALE as int, total as int, SCALE as int);
        }
        let share = fdiv_e(weights[i], total);
        proof {
            assert(0 <= share as int);
            lemma_mag_mul_le(gsizes[i as int], share as int, MASS_LIMIT as int, SCALE as int);
            lemma_fmul_cap(gsizes[i as int], share as int, MASS_LIMIT as int, SCALE as int,
                MASS_LIMIT as int);
            assert((i + 1) * MASS_LIMIT as int == i * MASS_LIMIT as int + MASS_LIMIT as int)
                by (nonlinear_arith);
            assert(i as int * MASS_LIMIT as int <= LEN_LIMIT as int * MASS_LIMIT as int)
                by (nonlinear_arith)
                requires
                    0 <= i as int <= LEN_LIMIT as int,
            ;
        }
        let term = fmul_e(sizes[i], share);
        mean = mean + term;
        i = i + 1;
    }
    // Weighted variance over the input order.
    let mut variance: i128 = 0;
    i = 0;
    while i < n
        invariant
            n == sizes@.len(),
            n == weights@.len(),
            gsizes == ints_of(sizes@),
            gweights == ints_of(weights@),
            gz == zip_pairs(gsizes, gweights),
            n <= LEN_LIMIT,
            0 < total,
            forall|k: int| 0 <= k < sizes@.len() ==> mag(#[trigger] sizes@[k] as int)
                <= MASS_LIMIT as int,
            forall|k: int| 0 <= k < gweights.len() ==> 0 <= #[trigger] gweights[k]
                <= total as int,
            mag(total as int) * (SCALE as int) <= i128::MAX,
            mag(mean as int) <= 10_000_000_000_000_000_000int,
            mean as int == wmean_of(gz, total as int),
            0 <= i <= n,
            variance as int == wvar_prefix(gz, total as int, mean as int, i as nat),
            0 <= variance as int <= i * 101_000_000_000_000_000_000_000_000_000_000int,
        decreases n - i,
    {
        proof {
            assert(gsizes[i as int] == sizes@[i as int] as int);
            assert(gweights[i as int] == weights@[i as int] as int);
            lemma_mag_mul_le(gweights[i as int], SCALE as int, total as int, SCALE as int);
            assert(mag(gweights[i as int] * SCALE as int) <= SCALE as int * mag(total as int))
                by (nonlinear_arith)
                requires
                    0 <= gweights[i as int] <= total as int,
                    mag(gweights[i as int] * SCALE as int) == mag(gweights[i as int]) * (
                    SCALE as int),
            ;
            lemma_tdiv_bound(gweights[i as int] * SCALE as int, total as int, SCALE as int);
        }
        let share = fdiv_e(weights[i], total);
        let diff = sizes[i] - mean;
        proof {
            assert(mag(diff as int) <= 10_001_000_000_000_000_000int);
            lemma_mag_mul_le(diff as int, diff as int, 10_001_000_000_000_000_000int,
                10_001_000_000_000_000_000int);
            lemma_fmul_cap(diff as int, diff as int, 10_001_000_000_000_000_000int,
                10_001_000_000_000_000_000int, 101_000_000_000_000_000_000_000_000_000_000int);
            assert(0 <= diff as int * diff as int) by (nonlinear_arith);
            assert(0 <= fmul(diff as int, diff as int)) by (nonlinear_arith)
                requires
                    0 <= diff as int * diff as int,
                    fmul(diff as int, diff as int) == tdiv(diff as int * diff as int,
                        SCALE as int),
                    SCALE == 1_000_000i128,
            ;
        }
        let sq = fmul_e(diff, diff);
        proof {
            assert(0 <= share as int);
            lemma_mag_mul_le(sq as int, share as int,
                101_000_000_000_000_000_000_000_000_000_000int, SCALE as int);
            lemma_fmul_cap(sq as int, share as int,
                101_000_000_000_000_000_000_000_000_000_000int, SCALE as int,
                101_000_000_000_000_000_000_000_000_000_000int);
            assert(0 <= sq as int * share as int) by (nonlinear_arith)
                requires
                    0 <= sq as int,
                    0 <= share as int,
            ;
            assert(0 <= fmul(sq as int, share as int)) by (nonlinear_arith)
                requires
                    0 <= sq as int * share as int,
                    fmul(sq as int, share as int) == tdiv(sq as int * share as int, SCALE as int),
                    SCALE == 1_000_000i128,
            ;
            assert((i + 1) * 101_000_000_000_000_000_000_000_000_000_000int == i
                * 101_000_000_000_000_000_000_000_000_000_000int
                + 101_000_000_000_000_000_000_000_000_000_000int) by (nonlinear_arith);
            assert(i as int * 101_000_000_000_000_000_000_000_000_000_000int <= LEN_LIMIT as int
                * 101_000_000_000_000_000_000_000_000_000_000int) by (nonlinear_arith)
                requires
                    0 <= i as int <= LEN_LIMIT as int,
            ;
        }
        let term = fmul_e(sq, share);
        variance = variance + term;
        i = i + 1;
    }
    if variance > VAR_LIMIT {
        return Err(EngineError::RangeExceeded);
    }
    let std_dev = isqrt(variance * SCALE);
    // Stable insertion sort of the pairs by size.
    let mut sorted: Vec<(i128, i128)> = Vec::new();
    let mut k: usize = 0;
    while k < n
        invariant
            n == sizes@.len(),
            n == weights@.len(),
            gsizes == ints_of(sizes@),
            gweights == ints_of(weights@),
            gz == zip_pairs(gsizes, gweights),
            0 < total,
            forall|j: int| 0 <= j < sizes@.len() ==> mag(#[trigger] sizes@[j] as int)
                <= MASS_LIMIT as int,
            forall|j: int| 0 <= j < gweights.len() ==> 0 <= #[trigger] gweights[j]
                <= total as int,
            0 <= k <= n,
            pairs_of(sorted@) == sort_pairs(gz.take(k as int)),
            sorted@.len() == k,
            forall|j: int| 0 <= j < sorted@.len() ==> pair_ok((#[trigger] sorted@[j].0 as int,
                sorted@[j].1 as int), total as int),
        decreases n - k,
    {
        let pr = (sizes[k], weights[k]);
        let mut idx: usize = sorted.len();
        while idx > 0 && sorted[idx - 1].0 > pr.0
            invariant
                0 <= idx <= sorted@.len(),
                forall|j: int| idx <= j < sorted@.len() ==> (pr.0 as int)
                    < (#[trigger] sorted@[j].0 as int),
            decreases idx,
        {
            idx = idx - 1;
        }
        proof {
            let gs = pairs_of(sorted@);
            let gp = (pr.0 as int, pr.1 as int);
            assert(forall|j: int| 0 <= j < gs.len() ==> #[trigger] gs[j]
                == (sorted@[j].0 as int, sorted@[j].1 as int));
            lemma_insert_sorted_split(gs, gp, idx as int);
        }
        sorted.insert(idx, pr);
        proof {
            assert(pairs_of(sorted@) =~= sort_pairs(gz.take(k as int)).insert(idx as int,
                (pr.0 as int, pr.1 as int)));
            assert(gz.take(k as int + 1).drop_last() =~= gz.take(k as int));
            assert(gz.take(k as int + 1).last() == (pr.0 as int, pr.1 as int));
            assert(pairs_of(sorted@) == sort_pairs(gz.take(k as int + 1)));
        }
        k = k + 1;
    }
    proof {
        assert(gz.take(n as int) =~= gz);
        assert(pairs_of(sorted@) == sort_pairs(gz));
    }
    let ghost gsorted = pairs_of(sorted@);
    // Cumulative normalized weights of the sorted pairs.
    let mut cum: Vec<i128> = Vec::new();
    let mut c: usize = 0;
    while c < n
        invariant
            sorted@.len() == n,
            gsorted == pairs_of(sorted@),
            0 < total,
            n <= LEN_LIMIT,
            mag(total as int) * (SCALE as int) <= i128::MAX,
            forall|j: int| 0 <= j < sorted@.len() ==> pair_ok((#[trigger] sorted@[j].0 as int,
                sorted@[j].1 as int), total as int),
            0 <= c <= n,
            cum@.len() == c,
            forall|j: int| 0 <= j < c ==> #[trigger] cum@[j] as int == cum_prefix(gsorted,
                total as int, (j + 1) as nat),
            forall|j: int| 0 <= j < c ==> 0 <= #[trigger] cum@[j] as int
                <= (j + 1) * SCALE as int,
        decreases n - c,
    {
        proof {
            assert(pair_ok((sorted@[c as int].0 as int, sorted@[c as int].1 as int),
                total as int));
            assert(gsorted[c as int] == (sorted@[c as int].0 as int, sorted@[c as int].1 as int));
            lemma_mag_mul_le(sorted@[c as int].1 as int, SCALE as int, total as int, SCALE as int);
            assert(mag(sorted@[c as int].1 as int * SCALE as int) <= SCALE as int * mag(
                total as int)) by (nonlinear_arith)
                requires
                    0 <= sorted@[c as int].1 as int <= total as int,
                    mag(sorted@[c as int].1 as int * SCALE as int) == mag(
                        sorted@[c as int].1 as int) * (SCALE as int),
            ;
            lemma_tdiv_bound(sorted@[c as int].1 as int * SCALE as int, total as int,
                SCALE as int);
            assert(c as int * SCALE as int <= LEN_LIMIT as int * SCALE as int)
                by (nonlinear_arith)
                requires
                    0 <= c as int <= LEN_LIMIT as int,
            ;
        }
        let w = sorted[c].1;
        let share = fdiv_e(w, total);
        proof {
            assert(0 <= share as int <= SCALE as int);
        }
        let prev: i128 = if c == 0 {
            0
        } else {
            cum[c - 1]
        };
        cum.push(prev + share);
        proof {
            assert(prev as int == cum_prefix(gsorted, total as int, c as nat));
            assert(cum_prefix(gsorted, total as int, (c + 1) as nat) == cum_prefix(gsorted,
                total as int, c as nat) + fdiv(gsorted[c as int].1, total as int));
            assert(cum@[c as int] as int == cum_prefix(gsorted, total as int, (c + 1) as nat));
        }
        c = c + 1;
    }
    let d10 = percentile_from(&sorted, &cum, total, 100_000);
    let d50 = percentile_from(&sorted, &cum, total, 500_000);
    let d90 = percentile_from(&sorted, &cum, total, 900_000);
    Ok(ParticleStats { d10, d50, d90, mean, std_dev })
}

/// Read one weighted percentile from the sorted pairs and their
/// cumulative weights.
fn percentile_from(sorted: &Vec<(i128, i128)>, cum: &Vec<i128>, total: i128, p: i128) -> (r: i128)
    requires
        1 <= sorted@.len() <= LEN_LIMIT,
        cum@.len() == sorted@.len(),
        0 < total,
        0 < p <= SCALE,
        forall|j: int| 0 <= j < sorted@.len() ==> pair_ok((#[trigger] sorted@[j].0 as int,
            sorted@[j].1 as int), total as int),
        forall|j: int| 0 <= j < cum@.len() ==> #[trigger] cum@[j] as int == cum_prefix(
            pairs_of(sorted@), total as int, (j + 1) as nat),
        forall|j: int| 0 <= j < cum@.len() ==> 0 <= #[trigger] cum@[j] as int
            <= (j + 1) * SCALE as int,
    ensures
        r as int == percentile_of(pairs_of(sorted@), total as int, p as int),
{
    let ghost gsorted = pairs_of(sorted@);
    let n = sorted.len();
    let mut idx: usize = 0;
    while idx < n && cum[idx] < p
        invariant
            n == sorted@.len(),
            cum@.len() == n,
            gsorted == pairs_of(sorted@),
            0 <= idx <= n,
            forall|j: int| 0 <= j < idx ==> (#[trigger] cum@[j] as int) < p as int,
            forall|j: int| 0 <= j < cum@.len() ==> #[trigger] cum@[j] as int == cum_prefix(
                gsorted, total as int, (j + 1) as nat),
        decreases n - idx,
    {
        idx = idx + 1;
    }
    proof {
        assert forall|j: int| 0 <= j < idx as int implies #[trigger] cum_prefix(gsorted,
            total as int, (j + 1) as nat) < p as int by {
            assert((cum@[j] as int) < p as int);
        }
        lemma_first_ge_lands(gsorted, total as int, p as int, 0nat, idx as int);
        assert(forall|j: int| 0 <= j < sorted@.len() ==> #[trigger] gsorted[j]
            == (sorted@[j].0 as int, sorted@[j].1 as int));
    }
    if idx >= n {
        sorted[n - 1].0
    } else if cum[idx] == p {
        sorted[idx].0
    } else if idx == 0 {
        sorted[0].0
    } else {
        let x0 = sorted[idx - 1].0;
        let x1 = sorted[idx].0;
        let y0 = cum[idx - 1];
        let y1 = cum[idx];
        proof {
            assert(pair_ok((sorted@[idx as int].0 as int, sorted@[idx as int].1 as int),
                total as int));
            assert(pair_ok((sorted@[idx - 1].0 as int, sorted@[idx - 1].1 as int), total as int));
            assert((y0 as int) < p as int);
            assert(y1 as int > p as int);
            lemma_mag_mul_le(x1 as int - x0 as int, p as int - y0 as int,
                2_000_000_000_000_000int, SCALE as int);
            lemma_fmul_cap(x1 as int - x0 as int, p as int - y0 as int,
                2_000_000_000_000_000int, SCALE as int, 2_000_000_000_000_000int);
            lemma_mag_mul_le(fmul(x1 as int - x0 as int, p as int - y0 as int), SCALE as int,
                2_000_000_000_000_000int, SCALE as int);
        }
        let num = fmul_e(x1 - x0, p - y0);
        let frac = fdiv_e(num, y1 - y0);
        x0 + frac
    }
}

} // verus!
