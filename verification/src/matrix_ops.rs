//! Matrix peer utilities: dense fixed-point multiplication and
//! Gauss-Jordan inversion with partial pivoting.

use vstd::prelude::*;

use rayon::iter::{IntoParallelIterator, ParallelIterator};

use crate::fixed::{
    mag, fmul, fdiv, ints_of, lemma_mag_mul_le, lemma_fmul_cap, lemma_ints_of_update, fmul_e,
    fdiv_e, EngineError, SCALE, FLOW_LIMIT,
};

verus! {

/// Largest row or column count of a matrix.
pub const DIM_LIMIT: usize = 1_000;

/// Magnitude cap on an operand of one elimination step; a value past it
/// surfaces as a range failure instead of overflowing.
pub const ELIM_LIMIT: i128 = 1_000_000_000_000_000_000;

/// Entry `(i, j)` of the product, as the sum of the first `k` terms.
pub open spec fn cell_prefix(a: Seq<int>, b: Seq<int>, n: int, p: int, i: int, j: int, k: nat)
    -> int
    decreases k,
{
    if k == 0 {
        0
    } else {
        cell_prefix(a, b, n, p, i, j, (k - 1) as nat) + fmul(a[i * n + (k - 1)], b[(k - 1) * p
            + j])
    }
}

/// Entry `(i, j)` of the fixed-point matrix product.
pub open spec fn cell_of(a: Seq<int>, b: Seq<int>, n: int, p: int, i: int, j: int) -> int {
    cell_prefix(a, b, n, p, i, j, n as nat)
}

/// A bounded matrix buffer in row-major order.
pub open spec fn valid_matrix(m: Seq<int>, limit: int) -> bool {
    forall|i: int| 0 <= i < m.len() ==> mag(#[trigger] m[i]) <= limit
}

/// Compute one row of the product: the fixed-point inner products of row
/// `i` of `a` with every column of `b`.
pub fn multiply_row(a: &Vec<i128>, b: &Vec<i128>, m: usize, n: usize, p: usize, i: usize) -> (row:
    Vec<i128>)
    requires
        a@.len() == m * n,
        b@.len() == n * p,
        0 < m <= DIM_LIMIT,
        0 < n <= DIM_LIMIT,
        0 < p <= DIM_LIMIT,
        i < m,
        valid_matrix(ints_of(a@), FLOW_LIMIT as int),
        valid_matrix(ints_of(b@), FLOW_LIMIT as int),
    ensures
        row@.len() == p,
        forall|j: int|
            0 <= j < p ==> #[trigger] row@[j] as int == cell_of(ints_of(a@), ints_of(b@),
                n as int, p as int, i as int, j),
{
    let ghost ga = ints_of(a@);
    let ghost gb = ints_of(b@);
    let mut row: Vec<i128> = Vec::new();
    let mut j: usize = 0;
    while j < p
        invariant
            a@.len() == m * n,
            b@.len() == n * p,
            ga == ints_of(a@),
            gb == ints_of(b@),
            0 < m <= DIM_LIMIT,
            0 < n <= DIM_LIMIT,
            0 < p <= DIM_LIMIT,
            valid_matrix(ga, FLOW_LIMIT as int),
            valid_matrix(gb, FLOW_LIMIT as int),
            0 <= i < m,
            0 <= j <= p,
            row@.len() == j,
            forall|j2: int|
                0 <= j2 < j ==> #[trigger] row@[j2] as int == cell_of(ga, gb, n as int, p as int,
                    i as int, j2),
        decreases p - j,
    {
        let mut acc: i128 = 0;
        let mut k: usize = 0;
        while k < n
            invariant
                a@.len() == m * n,
                b@.len() == n * p,
                ga == ints_of(a@),
                gb == ints_of(b@),
                0 < m <= DIM_LIMIT,
                0 < n <= DIM_LIMIT,
                0 < p <= DIM_LIMIT,
                valid_matrix(ga, FLOW_LIMIT as int),
                valid_matrix(gb, FLOW_LIMIT as int),
                0 <= i < m,
                0 <= j < p,
                0 <= k <= n,
                acc as int == cell_prefix(ga, gb, n as int, p as int, i as int, j as int,
                    k as nat),
                mag(acc as int) <= k * 1_000_000_000_000_000_000_000_000_000_000int,
            decreases n - k,
        {
            proof {
                assert(0 <= i * n + k < a@.len() && 0 <= k * p + j < b@.len())
                    by (nonlinear_arith)
                    requires
                        0 <= i < m,
                        0 <= j < p,
                        0 <= k < n,
                        a@.len() == m * n,
                        b@.len() == n * p,
                ;
                assert(i * n + k <= DIM_LIMIT * DIM_LIMIT && k * p + j <= DIM_LIMIT
                    * DIM_LIMIT) by (nonlinear_arith)
                    requires
                        0 <= i < m <= DIM_LIMIT,
                        0 <= j < p <= DIM_LIMIT,
                        0 <= k < n <= DIM_LIMIT,
                ;
                assert(ga[i * n + k] == a@[i * n + k] as int);
                assert(gb[k * p + j] == b@[k * p + j] as int);
                lemma_mag_mul_le(ga[i * n + k], gb[k * p + j], FLOW_LIMIT as int,
                    FLOW_LIMIT as int);
                lemma_fmul_cap(ga[i * n + k], gb[k * p + j], FLOW_LIMIT as int,
                    FLOW_LIMIT as int, 1_000_000_000_000_000_000_000_000_000_000int);
                assert((k + 1) * 1_000_000_000_000_000_000_000_000_000_000int
                    == k * 1_000_000_000_000_000_000_000_000_000_000int
                    + 1_000_000_000_000_000_000_000_000_000_000int) by (nonlinear_arith);
                assert(k as int * 1_000_000_000_000_000_000_000_000_000_000int <= DIM_LIMIT
                    as int * 1_000_000_000_000_000_000_000_000_000_000int)
                    by (nonlinear_arith)
                    requires
                        0 <= k as int <= DIM_LIMIT as int,
                ;
            }
            let term = fmul_e(a[i * n + k], b[k * p + j]);
            acc = acc + term;
            k = k + 1;
        }
        row.push(acc);
        j = j + 1;
    }
    row
}

/// Relies on rayon's `into_par_iter`, `map` and `collect` into a `Vec`: an
/// indexed parallel map keeps item order, so slot `i` holds row `i` of the
/// product, each computed by the verified `multiply_row`.
#[verifier::external_body]
fn par_map_rows(a: &Vec<i128>, b: &Vec<i128>, m: usize, n: usize, p: usize) -> (r: Vec<Vec<i128>>)
    requires
        a@.len() == m * n,
        b@.len() == n * p,
        0 < m <= DIM_LIMIT,
        0 < n <= DIM_LIMIT,
        0 < p <= DIM_LIMIT,
        valid_matrix(ints_of(a@), FLOW_LIMIT as int),
        valid_matrix(ints_of(b@), FLOW_LIMIT as int),
    ensures
        r@.len() == m,
        forall|i: int|
            0 <= i < m ==> (#[trigger] r@[i])@.len() == p,
        forall|i: int, j: int|
            0 <= i < m && 0 <= j < p ==> #[trigger] r@[i]@[j] as int == cell_of(ints_of(a@),
                ints_of(b@), n as int, p as int, i, j),
{
    (0..m).into_par_iter().map(|i: usize| multiply_row(a, b, m, n, p, i)).collect()
}

/// Multiply an `m x n` matrix by an `n x p` matrix, row-major buffers.
///
/// Slot `i * p + j` of the result is exactly the fixed-point inner product
/// of row `i` and column `j`; the rows are computed in parallel and
/// reassembled by row index.
pub fn matrix_multiply(a: &Vec<i128>, b: &Vec<i128>, m: usize, n: usize, p: usize) -> (r: Vec<
    i128,
>)
    requires
        a@.len() == m * n,
        b@.len() == n * p,
        0 < m <= DIM_LIMIT,
        0 < n <= DIM_LIMIT,
        0 < p <= DIM_LIMIT,
        valid_matrix(ints_of(a@), FLOW_LIMIT as int),
        valid_matrix(ints_of(b@), FLOW_LIMIT as int),
    ensures
        r@.len() == m * p,
        forall|i: int, j: int|
            0 <= i < m && 0 <= j < p ==> #[trigger] r@[i * p + j] as int == cell_of(
                ints_of(a@),
                ints_of(b@),
                n as int,
                p as int,
                i,
                j,
            ),
{
    let ghost ga = ints_of(a@);
    let ghost gb = ints_of(b@);
    let rows = par_map_rows(a, b, m, n, p);
    let mut result: Vec<i128> = Vec::new();
    let mut i: usize = 0;
    while i < m
        invariant
            rows@.len() == m,
            ga == ints_of(a@),
            gb == ints_of(b@),
            0 < m <= DIM_LIMIT,
            0 < p <= DIM_LIMIT,
            forall|i2: int| 0 <= i2 < m ==> (#[trigger] rows@[i2])@.len() == p,
            forall|i2: int, j2: int|
                0 <= i2 < m && 0 <= j2 < p ==> #[trigger] rows@[i2]@[j2] as int == cell_of(ga,
                    gb, n as int, p as int, i2, j2),
            0 <= i <= m,
            result@.len() == i * p,
            forall|i2: int, j2: int|
                0 <= i2 < i && 0 <= j2 < p ==> #[trigger] result@[i2 * p + j2] as int == cell_of(
                    ga,
                    gb,
                    n as int,
                    p as int,
                    i2,
                    j2,
                ),
        decreases m - i,
    {
        let mut j: usize = 0;
        while j < p
            invariant
                rows@.len() == m,
                ga == ints_of(a@),
                gb == ints_of(b@),
                0 < m <= DIM_LIMIT,
                0 < p <= DIM_LIMIT,
                forall|i2: int| 0 <= i2 < m ==> (#[trigger] rows@[i2])@.len() == p,
                forall|i2: int, j2: int|
                    0 <= i2 < m && 0 <= j2 < p ==> #[trigger] rows@[i2]@[j2] as int == cell_of(
                        ga, gb, n as int, p as int, i2, j2),
                0 <= i < m,
                0 <= j <= p,
                result@.len() == i * p + j,
                forall|i2: int, j2: int|
                    0 <= i2 < i && 0 <= j2 < p ==> #[trigger] result@[i2 * p + j2] as int
                        == cell_of(ga, gb, n as int, p as int, i2, j2),
                forall|j2: int|
                    0 <= j2 < j ==> #[trigger] result@[i * p + j2] as int == cell_of(ga, gb,
                        n as int, p as int, i as int, j2),
            decreases p - j,
        {
            let row = &rows[i];
            result.push(row[j]);
            proof {
                assert(result@.len() == i * p + j + 1);
                assert forall|j2: int|
                    0 <= j2 < j + 1 implies #[trigger] result@[i * p + j2] as int == cell_of(ga,
                        gb, n as int, p as int, i as int, j2) by {
                    assert(0 <= i * p + j2 < result@.len()) by (nonlinear_arith)
                        requires
                            0 <= i,
                            0 <= j2 <= j < p,
                            result@.len() == i * p + j + 1,
                    ;
                }
                assert forall|i2: int, j2: int|
                    0 <= i2 < i && 0 <= j2 < p implies #[trigger] result@[i2 * p + j2] as int
                        == cell_of(ga, gb, n as int, p as int, i2, j2) by {
                    assert(0 <= i2 * p + j2 && i2 * p + j2 < i * p + j) by (nonlinear_arith)
                        requires
                            0 <= i2 < i,
                            0 <= j2 < p,
                            0 <= j,
                    ;
                }
            }
            j = j + 1;
        }
        proof {
            assert(i * p + p == (i + 1) * p) by (nonlinear_arith);
        }
        i = i + 1;
    }
    result
}

/// Magnitude cap on any augmented-matrix entry during elimination.
pub const AUG_LIMIT: i128 = 1_000_000_000_000_000_000_000_000_000_000;

/// Every entry of the augmented matrix stays within the elimination band.
spec fn aug_ok(a: Seq<i128>) -> bool {
    forall|k: int| 0 <= k < a.len() ==> mag(#[trigger] a[k] as int) <= AUG_LIMIT as int
}

/// The initial augmented matrix `[A | I]`, row-major with row width `2n`.
pub open spec fn aug_init(m: Seq<int>, n: int) -> Seq<int> {
    Seq::new((n * 2 * n) as nat, |idx: int|
        {
            let i = idx / (2 * n);
            let j = idx % (2 * n);
            if j < n {
                m[i * n + j]
            } else if j == n + i {
                SCALE as int
            } else {
                0
            }
        },
    )
}

/// Partial pivoting: the largest column magnitude from row `j` down, with
/// its row, starting from the running best.
pub open spec fn pivot_scan(a: Seq<int>, n: int, col: int, j: int, best_val: int, best_row: int)
    -> (int, int)
    decreases n - j,
{
    if j >= n {
        (best_val, best_row)
    } else {
        let e = mag(a[j * (2 * n) + col]);
        if e > best_val {
            pivot_scan(a, n, col, j + 1, e, j)
        } else {
            pivot_scan(a, n, col, j + 1, best_val, best_row)
        }
    }
}

/// Swap the pivot row into place, slot by slot from `jj` on.
pub open spec fn swap_step(a: Seq<int>, n: int, r1: int, r2: int, jj: int) -> Seq<int>
    decreases 2 * n - jj,
{
    if jj >= 2 * n {
        a
    } else {
        swap_step(
            a.update(r1 * (2 * n) + jj, a[r2 * (2 * n) + jj]).update(r2 * (2 * n) + jj,
                a[r1 * (2 * n) + jj]),
            n,
            r1,
            r2,
            jj + 1,
        )
    }
}

/// Divide the pivot row by the pivot, slot by slot from `jj` on; a quotient
/// past the band is a range failure.
pub open spec fn scale_row(a: Seq<int>, n: int, col: int, pivot: int, jj: int) -> Result<
    Seq<int>,
    EngineError,
>
    decreases 2 * n - jj,
{
    if jj >= 2 * n {
        Ok(a)
    } else {
        let scaled = fdiv(a[col * (2 * n) + jj], pivot);
        if mag(scaled) > AUG_LIMIT as int {
            Err(EngineError::RangeExceeded)
        } else {
            scale_row(a.update(col * (2 * n) + jj, scaled), n, col, pivot, jj + 1)
        }
    }
}

/// Subtract `factor` times the pivot row from row `row`, slot by slot from
/// `kk` on; an operand or result past its band is a range failure.
pub open spec fn eliminate_entries(
    a: Seq<int>,
    n: int,
    col: int,
    row: int,
    factor: int,
    kk: int,
) -> Result<Seq<int>, EngineError>
    decreases 2 * n - kk,
{
    if kk >= 2 * n {
        Ok(a)
    } else {
        let pivot_entry = a[col * (2 * n) + kk];
        if mag(pivot_entry) > ELIM_LIMIT as int {
            Err(EngineError::RangeExceeded)
        } else {
            let updated = a[row * (2 * n) + kk] - fmul(factor, pivot_entry);
            if mag(updated) > AUG_LIMIT as int {
                Err(EngineError::RangeExceeded)
            } else {
                eliminate_entries(a.update(row * (2 * n) + kk, updated), n, col, row, factor,
                    kk + 1)
            }
        }
    }
}

/// Clear the pivot column of every other row, from row `row` down.
pub open spec fn eliminate_rows(a: Seq<int>, n: int, col: int, row: int) -> Result<
    Seq<int>,
    EngineError,
>
    decreases n - row,
{
    if row >= n {
        Ok(a)
    } else if row == col {
        eliminate_rows(a, n, col, row + 1)
    } else {
        let factor = a[row * (2 * n) + col];
        if mag(factor) > ELIM_LIMIT as int {
            Err(EngineError::RangeExceeded)
        } else {
            match eliminate_entries(a, n, col, row, factor, 0) {
                Ok(a2) => eliminate_rows(a2, n, col, row + 1),
                Err(e) => Err(e),
            }
        }
    }
}

/// One whole column of the elimination: pivot search, singularity test,
/// row swap, scaling, and clearing the column.
pub open spec fn gauss_step(a: Seq<int>, n: int, col: int) -> Result<Seq<int>, EngineError> {
    let scan = pivot_scan(a, n, col, col + 1, mag(a[col * (2 * n) + col]), col);
    if scan.0 == 0 {
        Err(EngineError::Singular)
    } else {
        let swapped = if scan.1 == col {
            a
        } else {
            swap_step(a, n, col, scan.1, 0)
        };
        let pivot = swapped[col * (2 * n) + col];
        if pivot == 0 {
            Err(EngineError::Singular)
        } else {
            match scale_row(swapped, n, col, pivot, 0) {
                Ok(a2) => eliminate_rows(a2, n, col, 0),
                Err(e) => Err(e),
            }
        }
    }
}

/// The whole elimination from column `col` on.
pub open spec fn gauss_elim(a: Seq<int>, n: int, col: int) -> Result<Seq<int>, EngineError>
    decreases n - col,
{
    if col >= n {
        Ok(a)
    } else {
        match gauss_step(a, n, col) {
            Ok(a2) => gauss_elim(a2, n, col + 1),
            Err(e) => Err(e),
        }
    }
}

/// The right half of the reduced augmented matrix: the inverse entries.
pub open spec fn inverse_entries(a: Seq<int>, n: int) -> Seq<int> {
    Seq::new((n * n) as nat, |idx: int| a[(idx / n) * (2 * n) + n + (idx % n)])
}

/// The modeled inversion: eliminate `[A | I]` and read off the right half.
pub open spec fn gauss_invert(m: Seq<int>, n: int) -> Result<Seq<int>, EngineError> {
    match gauss_elim(aug_init(m, n), n, 0) {
        Ok(a) => Ok(inverse_entries(a, n)),
        Err(e) => Err(e),
    }
}

/// The view of an executable inversion result as a mathematical one.
pub open spec fn matrix_result_of(r: Result<Vec<i128>, EngineError>) -> Result<
    Seq<int>,
    EngineError,
> {
    match r {
        Ok(v) => Ok(ints_of(v@)),
        Err(e) => Err(e),
    }
}

/// Row-width index arithmetic stays in range for a bounded matrix.
proof fn lemma_aug_idx(n: int, w: int, r: int, c: int)
    requires
        0 < n <= DIM_LIMIT as int,
        w == 2 * n,
        0 <= r < n,
        0 <= c < w,
    ensures
        0 <= r * w + c < n * w,
        n * w <= 2_000_000,
{
    assert(0 <= r * w + c < n * w && n * w <= 2_000_000) by (nonlinear_arith)
        requires
            0 < n <= 1000,
            w == 2 * n,
            0 <= r < n,
            0 <= c < w,
    ;
}

/// Invert an `n x n` matrix by Gauss-Jordan elimination with partial
/// pivoting.
///
/// The result is exactly the modeled inversion `gauss_invert`: `Singular`
/// precisely when the modeled pivoting meets a vanished pivot column,
/// `RangeExceeded` precisely when a modeled intermediate magnitude leaves
/// its band, and on success the entries of the modeled inverse, row-major.
#[verifier::loop_isolation(false)]
pub fn matrix_inverse(matrix: &Vec<i128>, n: usize) -> (r: Result<Vec<i128>, EngineError>)
    requires
        matrix@.len() == n * n,
        0 < n <= DIM_LIMIT,
        valid_matrix(ints_of(matrix@), FLOW_LIMIT as int),
    ensures
        matrix_result_of(r) == gauss_invert(ints_of(matrix@), n as int),
        r matches Ok(inv) ==> inv@.len() == n * n,
{
    let ghost gm = ints_of(matrix@);
    let ghost ni = n as int;
    let ghost a0 = aug_init(gm, ni);
    let w: usize = 2 * n;
    proof {
        assert(ni * 2 * ni == ni * (2 * ni) && 0 <= ni * 2 * ni) by (nonlinear_arith)
            requires
                0 < ni,
        ;
        assert(a0.len() == n * w);
    }
    let mut aug: Vec<i128> = Vec::new();
    let mut i: usize = 0;
    while i < n
        invariant
            matrix@.len() == n * n,
            0 < n <= DIM_LIMIT,
            w == 2 * n,
            ni == n as int,
            gm == ints_of(matrix@),
            a0 == aug_init(gm, ni),
            valid_matrix(gm, FLOW_LIMIT as int),
            0 <= i <= n,
            aug@.len() == i * w,
            a0.len() == n * w,
            forall|idx: int| 0 <= idx < aug@.len() ==> #[trigger] aug@[idx] as int == a0[idx],
            aug_ok(aug@),
        decreases n - i,
    {
        let mut j: usize = 0;
        while j < w
            invariant
                matrix@.len() == n * n,
                0 < n <= DIM_LIMIT,
                w == 2 * n,
                ni == n as int,
                gm == ints_of(matrix@),
                a0 == aug_init(gm, ni),
                valid_matrix(gm, FLOW_LIMIT as int),
                0 <= i < n,
                0 <= j <= w,
                aug@.len() == i * w + j,
                a0.len() == n * w,
                forall|idx: int| 0 <= idx < aug@.len() ==> #[trigger] aug@[idx] as int == a0[idx],
                aug_ok(aug@),
            decreases w - j,
        {
            proof {
                lemma_aug_idx(ni, w as int, i as int, j as int);
                vstd::arithmetic::div_mod::lemma_fundamental_div_mod_converse(
                    i as int * (2 * ni) + j as int, 2 * ni, i as int, j as int);
            }
            let value: i128 = if j < n {
                proof {
                    assert(0 <= i * n + j < n * n && n * n <= 1_000_000) by (nonlinear_arith)
                        requires
                            0 <= i < n,
                            0 <= j < n,
                            n <= 1000,
                    ;
                    assert(gm[i * n + j] == matrix@[i * n + j] as int);
                    assert(mag(gm[i * n + j]) <= FLOW_LIMIT as int);
                }
                matrix[i * n + j]
            } else if j == n + i {
                SCALE
            } else {
                0
            };
            proof {
                assert(a0[i as int * w + j as int] == value as int);
            }
            aug.push(value);
            j = j + 1;
        }
        proof {
            assert(i * w + w == (i + 1) * w) by (nonlinear_arith);
        }
        i = i + 1;
    }
    proof {
        assert(ints_of(aug@) =~= a0);
    }
    let mut col: usize = 0;
    while col < n
        invariant
            0 < n <= DIM_LIMIT,
            w == 2 * n,
            ni == n as int,
            gm == ints_of(matrix@),
            a0 == aug_init(gm, ni),
            0 <= col <= n,
            aug@.len() == n * w,
            aug_ok(aug@),
            gauss_elim(a0, ni, 0) == gauss_elim(ints_of(aug@), ni, col as int),
        decreases n - col,
    {
        let ghost astart = ints_of(aug@);
        proof {
            lemma_aug_idx(ni, w as int, col as int, col as int);
            assert(astart[col as int * (2 * ni) + col as int] == aug@[col * w + col] as int);
        }
        let head = aug[col * w + col];
        let mut max_val: i128 = if head < 0 {
            -head
        } else {
            head
        };
        let mut max_row: usize = col;
        let mut j: usize = col + 1;
        while j < n
            invariant
                0 < n <= DIM_LIMIT,
                w == 2 * n,
                ni == n as int,
                0 <= col < n,
                col <= max_row < n,
                col < j <= n,
                aug@.len() == n * w,
                aug_ok(aug@),
                astart == ints_of(aug@),
                0 <= max_val <= AUG_LIMIT,
                pivot_scan(astart, ni, col as int, col as int + 1,
                    mag(astart[col as int * (2 * ni) + col as int]), col as int) == pivot_scan(
                    astart, ni, col as int, j as int, max_val as int, max_row as int),
            decreases n - j,
        {
            proof {
                lemma_aug_idx(ni, w as int, j as int, col as int);
                assert(astart[j as int * (2 * ni) + col as int] == aug@[j * w + col] as int);
            }
            let entry = aug[j * w + col];
            let entry_mag: i128 = if entry < 0 {
                -entry
            } else {
                entry
            };
            proof {
                assert(entry_mag as int == mag(astart[j as int * (2 * ni) + col as int]));
                assert(mag(aug@[j * w + col] as int) <= AUG_LIMIT as int);
            }
            if entry_mag > max_val {
                max_val = entry_mag;
                max_row = j;
            }
            j = j + 1;
        }
        let ghost scan = pivot_scan(astart, ni, col as int, col as int + 1,
            mag(astart[col as int * (2 * ni) + col as int]), col as int);
        proof {
            assert(scan == (max_val as int, max_row as int));
        }
        if max_val == 0 {
            proof {
                assert(gauss_step(astart, ni, col as int) == Err::<Seq<int>, EngineError>(
                    EngineError::Singular));
                assert(gauss_elim(astart, ni, col as int) == Err::<Seq<int>, EngineError>(
                    EngineError::Singular));
                assert(gauss_invert(gm, ni) == Err::<Seq<int>, EngineError>(
                    EngineError::Singular));
            }
            return Err(EngineError::Singular);
        }
        if max_row != col {
            let mut jj: usize = 0;
            while jj < w
                invariant
                    0 < n <= DIM_LIMIT,
                    w == 2 * n,
                    ni == n as int,
                    0 <= col < n,
                    col < max_row < n,
                    0 <= jj <= w,
                    aug@.len() == n * w,
                    aug_ok(aug@),
                    swap_step(astart, ni, col as int, max_row as int, 0) == swap_step(
                        ints_of(aug@), ni, col as int, max_row as int, jj as int),
                decreases w - jj,
            {
                let ghost pre_vec = aug@;
                let ghost pre = ints_of(aug@);
                proof {
                    lemma_aug_idx(ni, w as int, col as int, jj as int);
                    lemma_aug_idx(ni, w as int, max_row as int, jj as int);
                    assert(col * w + jj != max_row * w + jj) by (nonlinear_arith)
                        requires
                            0 <= col < max_row,
                            w >= 2,
                    ;
                    assert(pre[col as int * (2 * ni) + jj as int] == aug@[col * w + jj] as int);
                    assert(pre[max_row as int * (2 * ni) + jj as int] == aug@[max_row * w
                        + jj] as int);
                }
                let a = aug[col * w + jj];
                let b = aug[max_row * w + jj];
                aug[col * w + jj] = b;
                aug[max_row * w + jj] = a;
                proof {
                    lemma_ints_of_update(pre_vec, col as int * w + jj as int, b);
                    lemma_ints_of_update(pre_vec.update(col as int * w + jj as int, b),
                        max_row as int * w + jj as int, a);
                    assert(ints_of(aug@) == pre.update(col as int * (2 * ni) + jj as int,
                        pre[max_row as int * (2 * ni) + jj as int]).update(
                        max_row as int * (2 * ni) + jj as int,
                        pre[col as int * (2 * ni) + jj as int],
                    ));
                    assert(swap_step(pre, ni, col as int, max_row as int, jj as int)
                        == swap_step(ints_of(aug@), ni, col as int, max_row as int,
                        jj as int + 1));
                }
                jj = jj + 1;
            }
        }
        let ghost swapped = ints_of(aug@);
        proof {
            if max_row == col {
                assert(swapped == astart);
            } else {
                assert(swap_step(swapped, ni, col as int, max_row as int, w as int) == swapped);
                assert(swapped == swap_step(astart, ni, col as int, max_row as int, 0));
            }
            lemma_aug_idx(ni, w as int, col as int, col as int);
            assert(swapped[col as int * (2 * ni) + col as int] == aug@[col * w + col] as int);
        }
        let pivot = aug[col * w + col];
        if pivot == 0 {
            proof {
                assert(gauss_step(astart, ni, col as int) == Err::<Seq<int>, EngineError>(
                    EngineError::Singular));
                assert(gauss_elim(astart, ni, col as int) == Err::<Seq<int>, EngineError>(
                    EngineError::Singular));
                assert(gauss_invert(gm, ni) == Err::<Seq<int>, EngineError>(
                    EngineError::Singular));
            }
            return Err(EngineError::Singular);
        }
        let mut jj: usize = 0;
        while jj < w
            invariant
                0 < n <= DIM_LIMIT,
                w == 2 * n,
                ni == n as int,
                0 <= col < n,
                0 <= jj <= w,
                aug@.len() == n * w,
                aug_ok(aug@),
                pivot != 0,
                pivot > i128::MIN,
                scale_row(swapped, ni, col as int, pivot as int, 0) == scale_row(ints_of(aug@),
                    ni, col as int, pivot as int, jj as int),
            decreases w - jj,
        {
            let ghost pre_vec = aug@;
            let ghost pre = ints_of(aug@);
            proof {
                lemma_aug_idx(ni, w as int, col as int, jj as int);
                assert(pre[col as int * (2 * ni) + jj as int] == aug@[col * w + jj] as int);
                assert(mag(aug@[col * w + jj] as int) <= AUG_LIMIT as int);
                lemma_mag_mul_le(aug@[col * w + jj] as int, SCALE as int, AUG_LIMIT as int,
                    SCALE as int);
            }
            let scaled = fdiv_e(aug[col * w + jj], pivot);
            let scaled_mag: i128 = if scaled < 0 {
                -scaled
            } else {
                scaled
            };
            if scaled_mag > AUG_LIMIT {
                proof {
                    assert(scale_row(pre, ni, col as int, pivot as int, jj as int) == Err::<
                        Seq<int>,
                        EngineError,
                    >(EngineError::RangeExceeded));
                    assert(gauss_step(astart, ni, col as int) == Err::<Seq<int>, EngineError>(
                        EngineError::RangeExceeded));
                    assert(gauss_elim(astart, ni, col as int) == Err::<Seq<int>, EngineError>(
                        EngineError::RangeExceeded));
                    assert(gauss_invert(gm, ni) == Err::<Seq<int>, EngineError>(
                        EngineError::RangeExceeded));
                }
                return Err(EngineError::RangeExceeded);
            }
            aug[col * w + jj] = scaled;
            proof {
                lemma_ints_of_update(pre_vec, col as int * w + jj as int, scaled);
                assert(ints_of(aug@) == pre.update(col as int * (2 * ni) + jj as int,
                    scaled as int));
                assert(scale_row(pre, ni, col as int, pivot as int, jj as int) == scale_row(
                    ints_of(aug@), ni, col as int, pivot as int, jj as int + 1));
            }
            jj = jj + 1;
        }
        let ghost scaled_state = ints_of(aug@);
        proof {
            assert(scale_row(scaled_state, ni, col as int, pivot as int, w as int)
                == Ok::<Seq<int>, EngineError>(scaled_state));
            assert(scale_row(swapped, ni, col as int, pivot as int, 0) == Ok::<
                Seq<int>,
                EngineError,
            >(scaled_state));
        }
        let mut row: usize = 0;
        while row < n
            invariant
                0 < n <= DIM_LIMIT,
                w == 2 * n,
                ni == n as int,
                0 <= col < n,
                0 <= row <= n,
                aug@.len() == n * w,
                aug_ok(aug@),
                eliminate_rows(scaled_state, ni, col as int, 0) == eliminate_rows(
                    ints_of(aug@), ni, col as int, row as int),
            decreases n - row,
        {
            if row != col {
                let ghost rstart = ints_of(aug@);
                proof {
                    lemma_aug_idx(ni, w as int, row as int, col as int);
                    assert(rstart[row as int * (2 * ni) + col as int] == aug@[row * w
                        + col] as int);
                }
                let factor = aug[row * w + col];
                let factor_mag: i128 = if factor < 0 {
                    -factor
                } else {
                    factor
                };
                if factor_mag > ELIM_LIMIT {
                    proof {
                        assert(eliminate_rows(rstart, ni, col as int, row as int) == Err::<
                            Seq<int>,
                            EngineError,
                        >(EngineError::RangeExceeded));
                        assert(gauss_step(astart, ni, col as int) == Err::<Seq<int>,
                            EngineError>(EngineError::RangeExceeded));
                        assert(gauss_elim(astart, ni, col as int) == Err::<Seq<int>,
                            EngineError>(EngineError::RangeExceeded));
                        assert(gauss_invert(gm, ni) == Err::<Seq<int>, EngineError>(
                            EngineError::RangeExceeded));
                    }
                    return Err(EngineError::RangeExceeded);
                }
                let mut kk: usize = 0;
                while kk < w
                    invariant
                        0 < n <= DIM_LIMIT,
                        w == 2 * n,
                        ni == n as int,
                        0 <= col < n,
                        0 <= row < n,
                        row != col,
                        0 <= kk <= w,
                        aug@.len() == n * w,
                        aug_ok(aug@),
                        mag(factor as int) <= ELIM_LIMIT as int,
                        eliminate_entries(rstart, ni, col as int, row as int, factor as int, 0)
                            == eliminate_entries(ints_of(aug@), ni, col as int, row as int,
                            factor as int, kk as int),
                    decreases w - kk,
                {
                    let ghost pre_vec = aug@;
                    let ghost pre = ints_of(aug@);
                    proof {
                        lemma_aug_idx(ni, w as int, row as int, kk as int);
                        lemma_aug_idx(ni, w as int, col as int, kk as int);
                        assert(pre[col as int * (2 * ni) + kk as int] == aug@[col * w
                            + kk] as int);
                        assert(pre[row as int * (2 * ni) + kk as int] == aug@[row * w
                            + kk] as int);
                        assert(mag(aug@[row * w + kk] as int) <= AUG_LIMIT as int);
                    }
                    let pivot_entry = aug[col * w + kk];
                    let pe_mag: i128 = if pivot_entry < 0 {
                        -pivot_entry
                    } else {
                        pivot_entry
                    };
                    if pe_mag > ELIM_LIMIT {
                        proof {
                            assert(eliminate_entries(pre, ni, col as int, row as int,
                                factor as int, kk as int) == Err::<Seq<int>, EngineError>(
                                EngineError::RangeExceeded));
                            assert(eliminate_rows(rstart, ni, col as int, row as int) == Err::<
                                Seq<int>,
                                EngineError,
                            >(EngineError::RangeExceeded));
                            assert(gauss_step(astart, ni, col as int) == Err::<Seq<int>,
                                EngineError>(EngineError::RangeExceeded));
                            assert(gauss_elim(astart, ni, col as int) == Err::<Seq<int>,
                                EngineError>(EngineError::RangeExceeded));
                            assert(gauss_invert(gm, ni) == Err::<Seq<int>, EngineError>(
                                EngineError::RangeExceeded));
                        }
                        return Err(EngineError::RangeExceeded);
                    }
                    proof {
                        lemma_mag_mul_le(factor as int, pivot_entry as int, ELIM_LIMIT as int,
                            ELIM_LIMIT as int);
                        lemma_fmul_cap(factor as int, pivot_entry as int, ELIM_LIMIT as int,
                            ELIM_LIMIT as int, 1_000_000_000_000_000_000_000_000_000_000int);
                    }
                    let product = fmul_e(factor, pivot_entry);
                    let updated = aug[row * w + kk] - product;
                    let updated_mag: i128 = if updated < 0 {
                        -updated
                    } else {
                        updated
                    };
                    if updated_mag > AUG_LIMIT {
                        proof {
                            assert(eliminate_entries(pre, ni, col as int, row as int,
                                factor as int, kk as int) == Err::<Seq<int>, EngineError>(
                                EngineError::RangeExceeded));
                            assert(eliminate_rows(rstart, ni, col as int, row as int) == Err::<
                                Seq<int>,
                                EngineError,
                            >(EngineError::RangeExceeded));
                            assert(gauss_step(astart, ni, col as int) == Err::<Seq<int>,
                                EngineError>(EngineError::RangeExceeded));
                            assert(gauss_elim(astart, ni, col as int) == Err::<Seq<int>,
                                EngineError>(EngineError::RangeExceeded));
                            assert(gauss_invert(gm, ni) == Err::<Seq<int>, EngineError>(
                                EngineError::RangeExceeded));
                        }
                        return Err(EngineError::RangeExceeded);
                    }
                    aug[row * w + kk] = updated;
                    proof {
                        lemma_ints_of_update(pre_vec, row as int * w + kk as int, updated);
                        assert(ints_of(aug@) == pre.update(row as int * (2 * ni) + kk as int,
                            updated as int));
                        assert(eliminate_entries(pre, ni, col as int, row as int,
                            factor as int, kk as int) == eliminate_entries(ints_of(aug@), ni,
                            col as int, row as int, factor as int, kk as int + 1));
                    }
                    kk = kk + 1;
                }
                proof {
                    assert(eliminate_entries(ints_of(aug@), ni, col as int, row as int,
                        factor as int, w as int) == Ok::<Seq<int>, EngineError>(ints_of(aug@)));
                    assert(eliminate_rows(rstart, ni, col as int, row as int)
                        == eliminate_rows(ints_of(aug@), ni, col as int, row as int + 1));
                }
            } else {
                proof {
                    assert(eliminate_rows(ints_of(aug@), ni, col as int, row as int)
                        == eliminate_rows(ints_of(aug@), ni, col as int, row as int + 1));
                }
            }
            row = row + 1;
        }
        proof {
            assert(eliminate_rows(ints_of(aug@), ni, col as int, ni) == Ok::<
                Seq<int>,
                EngineError,
            >(ints_of(aug@)));
            assert(eliminate_rows(scaled_state, ni, col as int, 0) == Ok::<Seq<int>,
                EngineError>(ints_of(aug@)));
            assert(gauss_step(astart, ni, col as int) == Ok::<Seq<int>, EngineError>(
                ints_of(aug@)));
            assert(gauss_elim(astart, ni, col as int) == gauss_elim(ints_of(aug@), ni,
                col as int + 1));
        }
        col = col + 1;
    }
    let ghost gfinal = ints_of(aug@);
    proof {
        assert(gauss_elim(gfinal, ni, ni) == Ok::<Seq<int>, EngineError>(gfinal));
        assert(gauss_elim(a0, ni, 0) == Ok::<Seq<int>, EngineError>(gfinal));
        assert(inverse_entries(gfinal, ni).len() == (ni * ni) as nat);
    }
    let mut inverse: Vec<i128> = Vec::new();
    i = 0;
    while i < n
        invariant
            0 < n <= DIM_LIMIT,
            w == 2 * n,
            ni == n as int,
            gfinal == ints_of(aug@),
            0 <= i <= n,
            aug@.len() == n * w,
            inverse@.len() == i * n,
            forall|idx: int|
                0 <= idx < inverse@.len() ==> #[trigger] inverse@[idx] as int
                    == inverse_entries(gfinal, ni)[idx],
        decreases n - i,
    {
        let mut j: usize = 0;
        while j < n
            invariant
                0 < n <= DIM_LIMIT,
                w == 2 * n,
                ni == n as int,
                gfinal == ints_of(aug@),
                0 <= i < n,
                0 <= j <= n,
                aug@.len() == n * w,
                inverse@.len() == i * n + j,
                forall|idx: int|
                    0 <= idx < inverse@.len() ==> #[trigger] inverse@[idx] as int
                        == inverse_entries(gfinal, ni)[idx],
            decreases n - j,
        {
            proof {
                lemma_aug_idx(ni, w as int, i as int, n as int + j as int);
                assert(0 <= i * n + j < n * n && n * n <= 1_000_000) by (nonlinear_arith)
                    requires
                        0 <= i < n,
                        0 <= j < n,
                        n <= 1000,
                ;
                vstd::arithmetic::div_mod::lemma_fundamental_div_mod_converse(
                    i as int * ni + j as int, ni, i as int, j as int);
                assert(gfinal[i as int * (2 * ni) + ni + j as int] == aug@[i * w + n
                    + j] as int);
                assert(inverse_entries(gfinal, ni)[i as int * ni + j as int] == gfinal[
                    i as int * (2 * ni) + ni + j as int]);
            }
            inverse.push(aug[i * w + n + j]);
            j = j + 1;
        }
        proof {
            assert(i * n + n == (i + 1) * n) by (nonlinear_arith);
        }
        i = i + 1;
    }
    proof {
        assert(ints_of(inverse@) =~= inverse_entries(gfinal, ni));
        assert(gauss_invert(gm, ni) == Ok::<Seq<int>, EngineError>(inverse_entries(gfinal,
            ni)));
    }
    Ok(inverse)
}

} // verus!
