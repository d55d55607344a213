use vstd::arithmetic::div_mod::{lemma_div_is_ordered, lemma_div_multiples_vanish};
use vstd::arithmetic::mul::lemma_mul_inequality;
use vstd::prelude::*;

verus! {

/// First row of band `i` when `height` rows are split into `jobs` bands.
pub open spec fn band_start(height: int, jobs: int, i: int) -> int {
    height * i / jobs
}

/// Row `row` falls in band `i`.
pub open spec fn in_band(height: int, jobs: int, i: int, row: int) -> bool {
    band_start(height, jobs, i) <= row < band_start(height, jobs, i + 1)
}

/// Some band among the `jobs` bands holds row `row`.
pub open spec fn some_band_holds(height: int, jobs: int, row: int) -> bool {
    exists|i: int| 0 <= i < jobs && #[trigger] in_band(height, jobs, i, row)
}

/// Rows `[begin, end)` of band `i` among `jobs` contiguous bands over `height`
/// rows: band `i` starts at `height * i / jobs`.
pub fn band_rows(height: usize, jobs: usize, i: usize) -> (r: (usize, usize))
    requires
        0 < jobs,
        i < jobs,
        height * jobs <= usize::MAX,
    ensures
        r.0 == band_start(height as int, jobs as int, i as int),
        r.1 == band_start(height as int, jobs as int, i as int + 1),
        r.0 <= r.1 <= height,
{
    proof {
        lemma_band_start_ordered(height as int, jobs as int, i as int, i as int + 1);
        lemma_band_start_ordered(height as int, jobs as int, i as int + 1, jobs as int);
        lemma_mul_inequality(i as int + 1, jobs as int, height as int);
        lemma_mul_inequality(i as int, i as int + 1, height as int);
        assert((i as int + 1) * height == height * (i as int + 1) && (i as int) * height == height * (i as int) && jobs * height == height * jobs) by (nonlinear_arith);
        lemma_div_multiples_vanish(height as int, jobs as int);
        assert(height * jobs == jobs * height) by (nonlinear_arith);
    }
    let begin = height * i / jobs;
    let end = height * (i + 1) / jobs;
    (begin, end)
}

/// Band starts grow with the band number.
proof fn lemma_band_start_ordered(height: int, jobs: int, a: int, b: int)
    requires
        0 <= height,
        0 < jobs,
        0 <= a <= b,
    ensures
        band_start(height, jobs, a) <= band_start(height, jobs, b),
{
    lemma_mul_inequality(a, b, height);
    assert(height * a == a * height && height * b == b * height) by (nonlinear_arith);
    lemma_div_is_ordered(height * a, height * b, jobs);
}

/// A row below the start of band `m` lies in some band before `m`.
proof fn lemma_row_in_some_band(height: int, jobs: int, m: int, row: int)
    requires
        0 <= height,
        0 < jobs,
        0 <= m,
        0 <= row < band_start(height, jobs, m),
    ensures
        exists|i: int| 0 <= i < m && #[trigger] in_band(height, jobs, i, row),
    decreases m,
{
    assert(band_start(height, jobs, 0) == 0) by (nonlinear_arith)
        requires
            0 < jobs,
    ;
    if row >= band_start(height, jobs, m - 1) {
        assert(in_band(height, jobs, m - 1, row));
    } else {
        lemma_row_in_some_band(height, jobs, m - 1, row);
    }
}

/// Splitting `height` rows into `jobs` bands, band `i` being rows
/// `[height * i / jobs, height * (i + 1) / jobs)`, is exact: the bands start at
/// row 0, end at row `height`, follow each other without gap or overlap, and
/// every row lies in exactly one band. When there are no more bands than rows,
/// no band is empty.
pub proof fn lemma_band_partition(height: int, jobs: int)
    requires
        0 <= height,
        0 < jobs,
    ensures
        band_start(height, jobs, 0) == 0,
        band_start(height, jobs, jobs) == height,
        forall|i: int|
            0 <= i < jobs ==> #[trigger] band_start(height, jobs, i) <= band_start(height, jobs, i + 1),
        forall|row: int| 0 <= row < height ==> #[trigger] some_band_holds(height, jobs, row),
        forall|row: int, i1: int, i2: int|
            0 <= i1 < jobs && 0 <= i2 < jobs && #[trigger] in_band(height, jobs, i1, row)
                && #[trigger] in_band(height, jobs, i2, row) ==> i1 == i2,
        jobs <= height ==> forall|i: int|
            0 <= i < jobs ==> #[trigger] band_start(height, jobs, i) < band_start(height, jobs, i + 1),
{
    assert(band_start(height, jobs, 0) == 0) by (nonlinear_arith)
        requires
            0 < jobs,
    ;
    lemma_div_multiples_vanish(height, jobs);
    assert(height * jobs == jobs * height) by (nonlinear_arith);
    assert forall|i: int| 0 <= i < jobs implies #[trigger] band_start(height, jobs, i) <= band_start(
        height,
        jobs,
        i + 1,
    ) by {
        lemma_band_start_ordered(height, jobs, i, i + 1);
    }
    assert forall|row: int| 0 <= row < height implies #[trigger] some_band_holds(height, jobs, row) by {
        lemma_row_in_some_band(height, jobs, jobs, row);
    }
    assert forall|row: int, i1: int, i2: int|
        0 <= i1 < jobs && 0 <= i2 < jobs && #[trigger] in_band(height, jobs, i1, row)
            && #[trigger] in_band(height, jobs, i2, row) implies i1 == i2 by {
        if i1 < i2 {
            lemma_band_start_ordered(height, jobs, i1 + 1, i2);
        } else if i2 < i1 {
            lemma_band_start_ordered(height, jobs, i2 + 1, i1);
        }
    }
    if jobs <= height {
        assert forall|i: int| 0 <= i < jobs implies #[trigger] band_start(height, jobs, i)
            < band_start(height, jobs, i + 1) by {
            let q = height * i / jobs;
            assert(height * i >= 0) by (nonlinear_arith)
                requires
                    0 <= height,
                    0 <= i,
            ;
            assert(q * jobs <= height * i) by (nonlinear_arith)
                requires
                    q == height * i / jobs,
                    0 < jobs,
                    height * i >= 0,
            ;
            assert((q + 1) * jobs <= height * (i + 1)) by (nonlinear_arith)
                requires
                    q * jobs <= height * i,
                    jobs <= height,
            ;
            lemma_div_is_ordered((q + 1) * jobs, height * (i + 1), jobs);
            lemma_div_multiples_vanish(q + 1, jobs);
            assert((q + 1) * jobs == jobs * (q + 1)) by (nonlinear_arith);
        }
    }
}

} // verus!
