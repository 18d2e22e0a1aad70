//! The statistical-significance stages: correlation to p-value, multiple
//! testing correction, and edge filtering.

use vstd::prelude::*;

use rayon::iter::IntoParallelRefIterator;
use rayon::iter::ParallelIterator;

verus! {

use crate::SCALE;
use crate::NetworkError;
use crate::matrix::AdjustedPValueMatrix;
use crate::matrix::CorrCell;
use crate::matrix::CorrMatrix;
use crate::matrix::FilteredMatrix;
use crate::matrix::PValueMatrix;

/// The squared t-statistic of a correlation r with df degrees of freedom is
/// t^2 = r^2 * df / (1 - r^2). With r carried as the fixed-point integer
/// `r` (scaled by SCALE) this is the exact rational
/// (r^2 * df) / (SCALE^2 - r^2); it is handed to the distribution scaled by
/// 10^9 and rounded down.
pub open spec fn t2_scaled_of(r: int, df: int) -> int {
    (r * r * df * 1_000_000_000) / (1_000_000_000_000 - r * r)
}

/// Upper tail of the F distribution with 1 and `df` degrees of freedom at
/// the squared t-statistic `t2_scaled` (scaled by 10^9), as a probability
/// scaled by SCALE. For T distributed as Student's t with df degrees of
/// freedom, T^2 follows F(1, df), so this tail is the two-tailed p-value
/// P(|T| >= |t|). Its exact value is what the statrs call in
/// [`f_upper_tail`] returns.
pub uninterp spec fn f_tail_of(t2_scaled: int, df: int) -> int;

/// Relies on statrs: `FisherSnedecor::new(1, df)` constructs the F
/// distribution (it accepts every positive finite degree of freedom) and
/// `ContinuousCDF::sf` evaluates its survival function, a probability in
/// [0, 1] that depends on the arguments alone. The fixed-point arguments
/// are converted to the call's floating-point domain through decimal
/// strings, and the tail is scaled back to fixed point and clamped to
/// [0, SCALE].
#[verifier::external_body]
fn f_upper_tail(t2_scaled: u128, df: u64) -> (p: i64)
    requires
        df >= 1,
    ensures
        p == f_tail_of(t2_scaled as int, df as int),
        0 <= p <= SCALE,
{
    let one = "1".parse().unwrap();
    let dff = format!("{}", df).parse().unwrap();
    let dist = statrs::distribution::FisherSnedecor::new(one, dff).unwrap();
    let x = format!("{}e-9", t2_scaled).parse().unwrap();
    let tail = statrs::distribution::ContinuousCDF::sf(&dist, x);
    let scale = format!("{}", SCALE).parse().unwrap_or(one);
    let p = (tail * scale).round() as i64;
    if p < 0 {
        0
    } else if p > SCALE {
        SCALE
    } else {
        p
    }
}

/// The two-tailed p-value of one correlation cell, given `n_samples`
/// observations. A cell that is not a number or lies outside [-1, 1] is
/// absorbed to p = 1; r = 0 gives p = 1 exactly; r = +-1 drives the
/// t-statistic to infinity and is clamped to p = 0; every other cell goes
/// through the t-distribution tail.
pub open spec fn p_cell(c: CorrCell, n_samples: int) -> int {
    match c {
        CorrCell::NotANumber => SCALE as int,
        CorrCell::Finite(v) => if v > SCALE || v < -SCALE {
            SCALE as int
        } else if v == 0 {
            SCALE as int
        } else if v == SCALE || v == -SCALE {
            0
        } else {
            f_tail_of(t2_scaled_of(v as int, n_samples - 2), n_samples - 2)
        },
    }
}

/// Law: a correlation that is not a number, or lies outside [-1, 1], has
/// p-value 1 exactly, whatever the sample count.
pub proof fn lemma_degenerate_p_is_one(c: CorrCell, n_samples: int)
    requires
        match c {
            CorrCell::NotANumber => true,
            CorrCell::Finite(v) => v > SCALE || v < -SCALE,
        },
    ensures
        p_cell(c, n_samples) == SCALE as int,
{
}

/// Law: a correlation of exactly 0 has p-value 1 exactly (t = 0, and a
/// two-tailed tail at 0 covers the whole distribution), whatever the
/// sample count.
pub proof fn lemma_zero_correlation_p_is_one(n_samples: int)
    ensures
        p_cell(CorrCell::Finite(0), n_samples) == SCALE as int,
{
}

/// One row of p-values matches one row of correlations cell by cell.
pub open spec fn row_pvalues_ok(inrow: Seq<CorrCell>, outrow: Seq<i64>, n_samples: int) -> bool {
    &&& outrow.len() == inrow.len()
    &&& forall|j: int|
        0 <= j < inrow.len() ==> (#[trigger] outrow[j]) == p_cell(inrow[j], n_samples) && 0 <= outrow[j] <= SCALE
}

/// The p-value of one correlation cell with `n_samples` observations.
fn p_value_cell(c: CorrCell, n_samples: usize) -> (p: i64)
    requires
        2 < n_samples <= 0xffff_ffff,
    ensures
        p == p_cell(c, n_samples as int),
        0 <= p <= SCALE,
{
    match c {
        CorrCell::NotANumber => SCALE,
        CorrCell::Finite(v) => {
            if v > SCALE || v < -SCALE {
                SCALE
            } else if v == 0 {
                SCALE
            } else if v == SCALE || v == -SCALE {
                0
            } else {
                let df: u64 = (n_samples - 2) as u64;
                proof {
                    assert(0 < v * v < 1_000_000_000_000) by (nonlinear_arith)
                        requires
                            -1_000_000 < v < 1_000_000 && v != 0,
                    ;
                }
                let rr: u128 = ((v as i128) * (v as i128)) as u128;
                proof {
                    assert(rr * (df as u128) < 0x1_0000_0000_0000_0000_0000_0000
                        && rr * (df as u128) * 1_000_000_000
                            < 0x1_0000_0000_0000_0000_0000_0000_0000_0000) by (nonlinear_arith)
                        requires
                            0 <= rr < 1_000_000_000_000 && 0 <= (df as u128) < 0x1_0000_0000,
                    ;
                }
                let num: u128 = rr * (df as u128) * 1_000_000_000u128;
                let den: u128 = 1_000_000_000_000u128 - rr;
                let t2s: u128 = num / den;
                let p = f_upper_tail(t2s, df);
                proof {
                    assert(num == (v as int) * (v as int) * (df as int) * 1_000_000_000);
                    assert(t2s == t2_scaled_of(v as int, df as int));
                }
                p
            }
        },
    }
}

/// One unit of parallel work: the p-values of one correlation row. No
/// row's result depends on another's, so rows can be mapped concurrently
/// into disjoint output rows.
pub fn p_value_row(row: &Vec<CorrCell>, n_samples: usize) -> (out: Vec<i64>)
    requires
        2 < n_samples <= 0xffff_ffff,
    ensures
        row_pvalues_ok(row@, out@, n_samples as int),
{
    let mut out: Vec<i64> = Vec::new();
    let mut j: usize = 0;
    while j < row.len()
        invariant
            2 < n_samples <= 0xffff_ffff,
            j <= row@.len(),
            out@.len() == j,
            forall|t: int|
                0 <= t < j ==> (#[trigger] out@[t]) == p_cell(row@[t], n_samples as int) && 0 <= out@[t] <= SCALE,
        decreases row@.len() - j,
    {
        let p = p_value_cell(row[j], n_samples);
        out.push(p);
        j = j + 1;
    }
    out
}

/// Relies on rayon: `par_iter().map(f).collect()` over a `Vec` applies `f`
/// to every element exactly once and collects the results in input order
/// (rayon's indexed parallel iterators preserve order when collected into
/// a `Vec`). Each row is mapped to its p-value row by the verified
/// [`p_value_row`], in parallel, with no shared mutable state.
#[verifier::external_body]
fn par_map_rows(cells: &Vec<Vec<CorrCell>>, n_samples: usize) -> (out: Vec<Vec<i64>>)
    requires
        2 < n_samples <= 0xffff_ffff,
    ensures
        out@.len() == cells@.len(),
        forall|i: int|
            0 <= i < cells@.len() ==> row_pvalues_ok((#[trigger] cells@[i])@, out@[i]@, n_samples as int),
{
    cells.par_iter().map(|row| p_value_row(row, n_samples)).collect()
}

/// Converts a correlation matrix into a two-tailed p-value matrix, using
/// `n` samples per gene, in parallel over independent rows. A sample count
/// of 2 or less leaves the t-distribution without positive degrees of
/// freedom and is rejected before any work runs.
pub fn pearson_to_pvalue(correlations: &CorrMatrix, n: usize) -> (r: Result<PValueMatrix, NetworkError>)
    requires
        correlations.wf(),
        n <= 0xffff_ffff,
    ensures
        match r {
            Ok(p) => n > 2 && p.wf() && p.n() == correlations.n() && forall|i: int, j: int|
                0 <= i < correlations.n() && 0 <= j < correlations.n() ==> #[trigger] p.at(i, j)
                    == p_cell(correlations.at(i, j), n as int),
            Err(e) => e == NetworkError::InvalidConfiguration && n <= 2,
        },
{
    if n <= 2 {
        return Err(NetworkError::InvalidConfiguration);
    }
    let cells = par_map_rows(&correlations.cells, n);
    let out = PValueMatrix { cells };
    proof {
        assert forall|i: int, j: int|
            0 <= i < correlations.n() && 0 <= j < correlations.n() implies #[trigger] out.at(i, j)
            == p_cell(correlations.at(i, j), n as int) by {
            assert(row_pvalues_ok(correlations.cells@[i]@, out.cells@[i]@, n as int));
        }
        assert forall|i: int| 0 <= i < out.cells@.len() implies (#[trigger] out.cells@[i])@.len()
            == out.cells@.len() by {
            assert(row_pvalues_ok(correlations.cells@[i]@, out.cells@[i]@, n as int));
        }
        assert forall|i: int, j: int|
            0 <= i < out.cells@.len() && 0 <= j < out.cells@.len() implies 0
            <= #[trigger] out.cells@[i]@[j] <= SCALE by {
            assert(row_pvalues_ok(correlations.cells@[i]@, out.cells@[i]@, n as int));
        }
    }
    Ok(out)
}

/// Law: the p-value of a cell depends only on the cell and the sample
/// count, so a symmetric correlation matrix yields a symmetric p-value
/// matrix.
pub proof fn lemma_pvalue_symmetry(c: CorrMatrix, p: PValueMatrix, n_samples: int)
    requires
        c.wf(),
        c.symmetric(),
        p.n() == c.n(),
        forall|i: int, j: int|
            0 <= i < c.n() && 0 <= j < c.n() ==> #[trigger] p.at(i, j) == p_cell(c.at(i, j), n_samples),
    ensures
        forall|i: int, j: int|
            0 <= i < p.n() && 0 <= j < p.n() ==> #[trigger] p.at(i, j) == p.at(j, i),
{
    assert forall|i: int, j: int|
        0 <= i < p.n() && 0 <= j < p.n() implies #[trigger] p.at(i, j) == p.at(j, i) by {
        assert(c.at(i, j) == c.at(j, i));
        assert(p.at(i, j) == p_cell(c.at(i, j), n_samples));
        assert(p.at(j, i) == p_cell(c.at(j, i), n_samples));
    }
}

/// The corrected value of one p-value entry: rescaled by the test count
/// when that stays under the significance threshold, else the sentinel
/// SCALE ("not significant").
pub open spec fn adj_cell(p: int, test_count: int, sig_threshold: int) -> int {
    if p * test_count <= sig_threshold {
        p * test_count
    } else {
        SCALE as int
    }
}

/// Rescales every p-value by the test count and gates it against the
/// significance threshold (scaled by SCALE): an entry becomes its rescaled
/// value when that is at most the threshold, else the sentinel SCALE.
pub fn adjust_pvalues(p_values: &PValueMatrix, test_count: u64, sig_threshold: i64) -> (out: AdjustedPValueMatrix)
    requires
        p_values.wf(),
        0 <= sig_threshold <= SCALE,
    ensures
        out.wf(),
        out.n() == p_values.n(),
        forall|i: int, j: int|
            0 <= i < p_values.n() && 0 <= j < p_values.n() ==> #[trigger] out.at(i, j)
                == adj_cell(p_values.at(i, j) as int, test_count as int, sig_threshold as int),
{
    let n = p_values.cells.len();
    let mut cells: Vec<Vec<i64>> = Vec::new();
    let mut i: usize = 0;
    while i < n
        invariant
            p_values.wf(),
            0 <= sig_threshold <= SCALE,
            n == p_values.n(),
            i <= n,
            cells@.len() == i,
            forall|a: int|
                0 <= a < i ==> (#[trigger] cells@[a])@.len() == n,
            forall|a: int, b: int|
                0 <= a < i && 0 <= b < n ==> (#[trigger] cells@[a]@[b])
                    == adj_cell(p_values.at(a, b) as int, test_count as int, sig_threshold as int)
                    && 0 <= cells@[a]@[b] <= SCALE,
        decreases n - i,
    {
        let mut row: Vec<i64> = Vec::new();
        let mut j: usize = 0;
        while j < n
            invariant
                p_values.wf(),
                0 <= sig_threshold <= SCALE,
                n == p_values.n(),
                i < n,
                j <= n,
                row@.len() == j,
                forall|b: int|
                    0 <= b < j ==> (#[trigger] row@[b])
                        == adj_cell(p_values.at(i as int, b) as int, test_count as int, sig_threshold as int)
                        && 0 <= row@[b] <= SCALE,
            decreases n - j,
        {
            let p = p_values.cells[i][j];
            proof {
                assert((p as u128) * (test_count as u128)
                    < 0x1_0000_0000_0000_0000_0000_0000_0000_0000) by (nonlinear_arith)
                    requires
                        0 <= (p as u128) <= 1_000_000 && 0 <= (test_count as u128)
                            < 0x1_0000_0000_0000_0000,
                ;
            }
            let prod: u128 = (p as u128) * (test_count as u128);
            if prod <= sig_threshold as u128 {
                row.push(prod as i64);
            } else {
                row.push(SCALE);
            }
            j = j + 1;
        }
        cells.push(row);
        i = i + 1;
    }
    AdjustedPValueMatrix { cells }
}

/// Law: filtering depends only on the cell pair and the thresholds, so
/// symmetric correlation and corrected p-value matrices yield a symmetric
/// filtered matrix.
pub proof fn lemma_filter_symmetry(
    c: CorrMatrix,
    q: AdjustedPValueMatrix,
    out: FilteredMatrix,
    magnitude: int,
    sig_threshold: int,
)
    requires
        c.wf(),
        c.symmetric(),
        q.n() == c.n(),
        forall|i: int, j: int|
            0 <= i < q.n() && 0 <= j < q.n() ==> #[trigger] q.at(i, j) == q.at(j, i),
        out.n() == c.n(),
        forall|i: int, j: int|
            0 <= i < out.n() && 0 <= j < out.n() ==> #[trigger] out.at(i, j) == filt_cell(
                c.at(i, j),
                q.at(i, j) as int,
                i == j,
                magnitude,
                sig_threshold,
            ),
    ensures
        forall|i: int, j: int|
            0 <= i < out.n() && 0 <= j < out.n() ==> #[trigger] out.at(i, j) == out.at(j, i),
{
    assert forall|i: int, j: int|
        0 <= i < out.n() && 0 <= j < out.n() implies #[trigger] out.at(i, j) == out.at(j, i) by {
        assert(c.at(i, j) == c.at(j, i));
        assert(q.at(i, j) == q.at(j, i));
        assert(out.at(i, j) == filt_cell(c.at(i, j), q.at(i, j) as int, i == j, magnitude, sig_threshold));
        assert(out.at(j, i) == filt_cell(c.at(j, i), q.at(j, i) as int, j == i, magnitude, sig_threshold));
    }
}

/// The filtered value of one correlation cell: the diagonal is always 0;
/// off the diagonal the correlation is kept unchanged exactly when its
/// corrected p-value is under the significance threshold and its magnitude
/// is over the magnitude threshold, and is 0 otherwise. A cell that is not
/// a number never passes.
pub open spec fn filt_cell(c: CorrCell, adj_p: int, diag: bool, magnitude: int, sig_threshold: int) -> int {
    if diag {
        0
    } else {
        match c {
            CorrCell::NotANumber => 0,
            CorrCell::Finite(v) => if adj_p < sig_threshold && (v < -magnitude || v > magnitude) {
                v as int
            } else {
                0
            },
        }
    }
}

/// Zeroes every correlation entry that fails the significance or magnitude
/// threshold, and zeroes the diagonal unconditionally (a gene's
/// self-correlation would otherwise always pass the magnitude test and
/// produce a self-loop).
pub fn filter_corr(
    correlation: &CorrMatrix,
    p_values: &AdjustedPValueMatrix,
    magnitude_threshold: i64,
    sig_threshold: i64,
) -> (out: FilteredMatrix)
    requires
        correlation.wf(),
        p_values.wf(),
        p_values.n() == correlation.n(),
        0 <= magnitude_threshold,
    ensures
        out.wf(),
        out.n() == correlation.n(),
        forall|i: int, j: int|
            0 <= i < out.n() && 0 <= j < out.n() ==> #[trigger] out.at(i, j) == filt_cell(
                correlation.at(i, j),
                p_values.at(i, j) as int,
                i == j,
                magnitude_threshold as int,
                sig_threshold as int,
            ),
        forall|i: int| 0 <= i < out.n() ==> #[trigger] out.at(i, i) == 0,
{
    let n = correlation.cells.len();
    let mut cells: Vec<Vec<i64>> = Vec::new();
    let mut i: usize = 0;
    while i < n
        invariant
            correlation.wf(),
            p_values.wf(),
            p_values.n() == correlation.n(),
            0 <= magnitude_threshold,
            n == correlation.n(),
            i <= n,
            cells@.len() == i,
            forall|a: int|
                0 <= a < i ==> (#[trigger] cells@[a])@.len() == n,
            forall|a: int, b: int|
                0 <= a < i && 0 <= b < n ==> (#[trigger] cells@[a]@[b]) == filt_cell(
                    correlation.at(a, b),
                    p_values.at(a, b) as int,
                    a == b,
                    magnitude_threshold as int,
                    sig_threshold as int,
                ),
        decreases n - i,
    {
        let mut row: Vec<i64> = Vec::new();
        let mut j: usize = 0;
        while j < n
            invariant
                correlation.wf(),
                p_values.wf(),
                p_values.n() == correlation.n(),
                0 <= magnitude_threshold,
                n == correlation.n(),
                i < n,
                j <= n,
                row@.len() == j,
                forall|b: int|
                    0 <= b < j ==> (#[trigger] row@[b]) == filt_cell(
                        correlation.at(i as int, b),
                        p_values.at(i as int, b) as int,
                        i == b,
                        magnitude_threshold as int,
                        sig_threshold as int,
                    ),
            decreases n - j,
        {
            let kept: i64 = if i == j {
                0
            } else {
                match correlation.cells[i][j] {
                    CorrCell::NotANumber => 0,
                    CorrCell::Finite(v) => {
                        let q = p_values.cells[i][j];
                        if q < sig_threshold && (v < -magnitude_threshold || v > magnitude_threshold) {
                            v
                        } else {
                            0
                        }
                    },
                }
            };
            row.push(kept);
            j = j + 1;
        }
        cells.push(row);
        i = i + 1;
    }
    let out = FilteredMatrix { cells };
    out
}

} // verus!

