use vstd::prelude::*;

use crate::error::Error;
use crate::matrix::Matrix;

verus! {

// ---------------------------------------------------------------------------
// The counts a training set determines
// ---------------------------------------------------------------------------
/// The sum of a row's cells.
pub open spec fn seq_sum(r: Seq<u64>) -> int
    decreases r.len(),
{
    if r.len() == 0 {
        0
    } else {
        seq_sum(r.drop_last()) + r.last()
    }
}

/// The mass record `(xrow, yrow)` contributes over the first `j` classes: its
/// feature total once for every class marked 1.
pub open spec fn row_mass(xrow: Seq<u64>, yrow: Seq<u64>, j: int) -> int
    decreases j,
{
    if j <= 0 {
        0
    } else {
        row_mass(xrow, yrow, j - 1) + if yrow[j - 1] == 1 {
            seq_sum(xrow)
        } else {
            0
        }
    }
}

/// The total observed mass of the first `n` records: every record's feature
/// total, counted once per class its label row marks.  A record marked for
/// several classes contributes to each.
pub open spec fn total_mass_upto(x: Seq<Seq<u64>>, y: Seq<Seq<u64>>, n: int) -> int
    decreases n,
{
    if n <= 0 {
        0
    } else {
        total_mass_upto(x, y, n - 1) + row_mass(x[n - 1], y[n - 1], y[n - 1].len() as int)
    }
}

/// The total observed mass of the whole training set.
pub open spec fn total_mass(x: Seq<Seq<u64>>, y: Seq<Seq<u64>>) -> int {
    total_mass_upto(x, y, x.len() as int)
}

/// Class `j`'s observed mass over the first `n` records.
pub open spec fn class_mass(x: Seq<Seq<u64>>, y: Seq<Seq<u64>>, j: int, n: int) -> int
    decreases n,
{
    if n <= 0 {
        0
    } else {
        class_mass(x, y, j, n - 1) + if y[n - 1][j] == 1 {
            seq_sum(x[n - 1])
        } else {
            0
        }
    }
}

/// Feature `k`'s observed count under class `j` over the first `n` records.
pub open spec fn feature_mass(x: Seq<Seq<u64>>, y: Seq<Seq<u64>>, j: int, k: int, n: int) -> int
    decreases n,
{
    if n <= 0 {
        0
    } else {
        feature_mass(x, y, j, k, n - 1) + if y[n - 1][j] == 1 {
            x[n - 1][k] as int
        } else {
            0
        }
    }
}

/// Every cell of the label matrix is 0 or 1.
pub open spec fn binary_labels(y: Seq<Seq<u64>>) -> bool {
    forall|i: int, j: int|
        0 <= i < y.len() && 0 <= j < y[i].len() ==> #[trigger] y[i][j] == 0 || y[i][j] == 1
}

// ---------------------------------------------------------------------------
// Bounds on the counts
// ---------------------------------------------------------------------------
proof fn lemma_seq_sum_nonneg(r: Seq<u64>)
    ensures
        seq_sum(r) >= 0,
    decreases r.len(),
{
    if r.len() > 0 {
        lemma_seq_sum_nonneg(r.drop_last());
    }
}

/// One more cell extends a prefix sum by that cell.
proof fn lemma_seq_sum_step(r: Seq<u64>, k: int)
    requires
        0 <= k < r.len(),
    ensures
        seq_sum(r.take(k + 1)) == seq_sum(r.take(k)) + r[k],
{
    assert(r.take(k + 1).drop_last() =~= r.take(k));
    assert(r.take(k + 1).last() == r[k]);
}

/// A prefix sum never exceeds the whole sum.
proof fn lemma_seq_sum_prefix(r: Seq<u64>, k: int)
    requires
        0 <= k <= r.len(),
    ensures
        seq_sum(r.take(k)) <= seq_sum(r),
    decreases r.len(),
{
    if k == r.len() {
        assert(r.take(k) =~= r);
    } else {
        assert(r.drop_last().take(k) =~= r.take(k));
        lemma_seq_sum_prefix(r.drop_last(), k);
    }
}

proof fn lemma_row_mass_nonneg(xrow: Seq<u64>, yrow: Seq<u64>, j: int)
    ensures
        row_mass(xrow, yrow, j) >= 0,
    decreases j,
{
    if j > 0 {
        lemma_row_mass_nonneg(xrow, yrow, j - 1);
        lemma_seq_sum_nonneg(xrow);
    }
}

proof fn lemma_row_mass_mono(xrow: Seq<u64>, yrow: Seq<u64>, j1: int, j2: int)
    requires
        j1 <= j2,
    ensures
        row_mass(xrow, yrow, j1) <= row_mass(xrow, yrow, j2),
    decreases j2 - j1,
{
    if j1 < j2 {
        lemma_row_mass_mono(xrow, yrow, j1, j2 - 1);
        lemma_seq_sum_nonneg(xrow);
    }
}

proof fn lemma_total_mass_mono(x: Seq<Seq<u64>>, y: Seq<Seq<u64>>, n1: int, n2: int)
    requires
        n1 <= n2,
    ensures
        total_mass_upto(x, y, n1) <= total_mass_upto(x, y, n2),
    decreases n2 - n1,
{
    if n1 < n2 {
        lemma_total_mass_mono(x, y, n1, n2 - 1);
        lemma_row_mass_nonneg(x[n2 - 1], y[n2 - 1], y[n2 - 1].len() as int);
    }
}

/// What one record adds for one class is at most its whole row mass.
proof fn lemma_row_term_bound(xrow: Seq<u64>, yrow: Seq<u64>, j: int)
    requires
        0 <= j < yrow.len(),
    ensures
        (if yrow[j] == 1 {
            seq_sum(xrow)
        } else {
            0
        }) <= row_mass(xrow, yrow, yrow.len() as int),
{
    lemma_row_mass_nonneg(xrow, yrow, j);
    lemma_row_mass_mono(xrow, yrow, j + 1, yrow.len() as int);
}

/// A class's mass is at most the total mass of the records scanned.
proof fn lemma_class_mass_bound(x: Seq<Seq<u64>>, y: Seq<Seq<u64>>, j: int, n: int)
    requires
        0 <= j,
        forall|i: int| 0 <= i < n ==> j < (#[trigger] y[i]).len(),
    ensures
        class_mass(x, y, j, n) <= total_mass_upto(x, y, n),
        class_mass(x, y, j, n) >= 0,
    decreases n,
{
    if n > 0 {
        lemma_class_mass_bound(x, y, j, n - 1);
        lemma_row_term_bound(x[n - 1], y[n - 1], j);
        lemma_seq_sum_nonneg(x[n - 1]);
    }
}

/// One cell never exceeds its row's sum.
proof fn lemma_seq_sum_elem(r: Seq<u64>, k: int)
    requires
        0 <= k < r.len(),
    ensures
        r[k] <= seq_sum(r),
{
    lemma_seq_sum_step(r, k);
    lemma_seq_sum_prefix(r, k + 1);
    lemma_seq_sum_nonneg(r.take(k));
}

/// A feature's count under a class is at most that class's mass.
proof fn lemma_feature_mass_bound(x: Seq<Seq<u64>>, y: Seq<Seq<u64>>, j: int, k: int, n: int)
    requires
        0 <= k,
        forall|i: int| 0 <= i < n ==> k < (#[trigger] x[i]).len(),
    ensures
        feature_mass(x, y, j, k, n) <= class_mass(x, y, j, n),
        feature_mass(x, y, j, k, n) >= 0,
    decreases n,
{
    if n > 0 {
        lemma_feature_mass_bound(x, y, j, k, n - 1);
        lemma_seq_sum_elem(x[n - 1], k);
    }
}

// ---------------------------------------------------------------------------
// Checking that the counts fit the machine
// ---------------------------------------------------------------------------
fn zeros(n: usize) -> (r: Vec<u64>)
    ensures
        r@.len() == n,
        forall|i: int| 0 <= i < n ==> #[trigger] r@[i] == 0u64,
{
    let mut r: Vec<u64> = Vec::new();
    let mut k: usize = 0;
    while k < n
        invariant
            k <= n,
            r@.len() == k,
            forall|i: int| 0 <= i < k ==> #[trigger] r@[i] == 0u64,
        decreases n - k,
    {
        r.push(0u64);
        k = k + 1;
    }
    r
}

/// Decides whether a classes-by-features count table of the given shape is
/// addressable, as `fit` requires it to be.
pub fn counts_table_fits(n_classes: usize, n_feats: usize) -> (r: bool)
    ensures
        r <==> n_classes * n_feats <= usize::MAX,
{
    if n_feats == 0 {
        proof {
            vstd::arithmetic::mul::lemma_mul_basics(n_classes as int);
        }
        true
    } else {
        let q = usize::MAX / n_feats;
        proof {
            let mx = usize::MAX as int;
            let f = n_feats as int;
            let c = n_classes as int;
            let qi = q as int;
            let rem = mx % f;
            vstd::arithmetic::div_mod::lemma_fundamental_div_mod(mx, f);
            assert((c <= qi ==> c * f <= mx) && (c > qi ==> c * f > mx)) by (nonlinear_arith)
                requires
                    mx == f * qi + rem,
                    0 <= rem,
                    rem < f,
                    f >= 1,
                    c >= 0,
            {}
        }
        n_classes <= q
    }
}

/// Computes the training set's total observed mass, or reports that it does
/// not fit in a 64-bit counter, as `fit` requires it to.
pub fn checked_total_mass(x: &Matrix, y: &Matrix) -> (r: Option<u64>)
    requires
        x.wf(),
        y.wf(),
        x.spec_rows() == y.spec_rows(),
    ensures
        match r {
            Some(t) => t == total_mass(x@, y@) && total_mass(x@, y@) <= u64::MAX,
            None => total_mass(x@, y@) > u64::MAX,
        },
{
    proof {
        x.lemma_shape();
        y.lemma_shape();
    }
    let n_records = x.rows();
    let n_feats = x.cols();
    let n_classes = y.cols();
    let mut acc: u64 = 0;
    let mut i: usize = 0;
    while i < n_records
        invariant
            i <= n_records,
            x.wf(),
            y.wf(),
            n_records == x.spec_rows(),
            n_records == y.spec_rows(),
            n_feats == x.spec_cols(),
            n_classes == y.spec_cols(),
            x@.len() == n_records,
            y@.len() == n_records,
            forall|a: int| 0 <= a < n_records ==> (#[trigger] x@[a]).len() == n_feats,
            forall|a: int| 0 <= a < n_records ==> (#[trigger] y@[a]).len() == n_classes,
            acc == total_mass_upto(x@, y@, i as int),
        decreases n_records - i,
    {
        let ghost xr = x@[i as int];
        let ghost yr = y@[i as int];
        let mut j: usize = 0;
        while j < n_classes
            invariant
                j <= n_classes,
                i < n_records,
                x.wf(),
                y.wf(),
                n_records == x.spec_rows(),
                n_records == y.spec_rows(),
                n_feats == x.spec_cols(),
                n_classes == y.spec_cols(),
                x@.len() == n_records,
                y@.len() == n_records,
                forall|a: int| 0 <= a < n_records ==> (#[trigger] x@[a]).len() == n_feats,
                forall|a: int| 0 <= a < n_records ==> (#[trigger] y@[a]).len() == n_classes,
                xr == x@[i as int],
                yr == y@[i as int],
                acc == total_mass_upto(x@, y@, i as int) + row_mass(xr, yr, j as int),
            decreases n_classes - j,
        {
            if y.get(i, j) == 1 {
                let mut k: usize = 0;
                proof {
                    assert(xr.take(0) =~= Seq::<u64>::empty());
                }
                while k < n_feats
                    invariant
                        k <= n_feats,
                        j < n_classes,
                        i < n_records,
                        x.wf(),
                        y.wf(),
                        n_records == x.spec_rows(),
                        n_records == y.spec_rows(),
                        n_feats == x.spec_cols(),
                        n_classes == y.spec_cols(),
                        x@.len() == n_records,
                        y@.len() == n_records,
                        forall|a: int| 0 <= a < n_records ==> (#[trigger] x@[a]).len() == n_feats,
                        forall|a: int| 0 <= a < n_records ==> (#[trigger] y@[a]).len() == n_classes,
                        xr == x@[i as int],
                        yr == y@[i as int],
                        yr[j as int] == 1,
                        acc == total_mass_upto(x@, y@, i as int) + row_mass(xr, yr, j as int)
                            + seq_sum(xr.take(k as int)),
                    decreases n_feats - k,
                {
                    let nv = x.get(i, k);
                    proof {
                        lemma_seq_sum_step(xr, k as int);
                        lemma_seq_sum_prefix(xr, k + 1);
                        lemma_row_mass_mono(xr, yr, j + 1, n_classes as int);
                        lemma_total_mass_mono(x@, y@, i + 1, n_records as int);
                        assert(total_mass_upto(x@, y@, i + 1) == total_mass_upto(x@, y@, i as int)
                            + row_mass(xr, yr, n_classes as int));
                        assert(row_mass(xr, yr, j + 1) == row_mass(xr, yr, j as int) + seq_sum(xr));
                    }
                    if nv > u64::MAX - acc {
                        return None;
                    }
                    acc = acc + nv;
                    k = k + 1;
                }
                proof {
                    assert(xr.take(n_feats as int) =~= xr);
                    assert(row_mass(xr, yr, j + 1) == row_mass(xr, yr, j as int) + seq_sum(xr));
                }
            } else {
                proof {
                    assert(row_mass(xr, yr, j + 1) == row_mass(xr, yr, j as int));
                }
            }
            j = j + 1;
        }
        proof {
            assert(total_mass_upto(x@, y@, i + 1) == total_mass_upto(x@, y@, i as int) + row_mass(
                xr,
                yr,
                n_classes as int,
            ));
        }
        i = i + 1;
    }
    Some(acc)
}

// ---------------------------------------------------------------------------
// The fitted model
// ---------------------------------------------------------------------------
/// The fitted state of a multinomial naive Bayes classifier: per-class and
/// per-(class, feature) observed counts and the total observed mass, from
/// which a caller derives log-priors and conditional log-probabilities.
/// Created once by `fit` and read-only afterward.
pub struct MultinomialNB {
    class_count: Vec<u64>,
    feature_count: Matrix,
    n_observations: u64,
}

impl MultinomialNB {
    pub closed spec fn spec_n_classes(&self) -> int {
        self.class_count@.len() as int
    }

    pub closed spec fn spec_n_features(&self) -> int {
        self.feature_count.spec_cols()
    }

    pub closed spec fn spec_class_count(&self, j: int) -> u64 {
        self.class_count@[j]
    }

    pub closed spec fn spec_feature_count(&self, j: int, k: int) -> u64 {
        self.feature_count@[j][k]
    }

    pub closed spec fn spec_n_observations(&self) -> u64 {
        self.n_observations
    }

    pub closed spec fn wf(&self) -> bool {
        &&& self.feature_count.wf()
        &&& self.feature_count.spec_rows() == self.spec_n_classes()
    }

    pub fn n_classes(&self) -> (r: usize)
        ensures
            r == self.spec_n_classes(),
    {
        self.class_count.len()
    }

    pub fn n_features(&self) -> (r: usize)
        ensures
            r == self.spec_n_features(),
    {
        self.feature_count.cols()
    }

    pub fn class_count(&self, j: usize) -> (r: u64)
        requires
            j < self.spec_n_classes(),
        ensures
            r == self.spec_class_count(j as int),
    {
        self.class_count[j]
    }

    pub fn feature_count(&self, j: usize, k: usize) -> (r: u64)
        requires
            self.wf(),
            j < self.spec_n_classes(),
            k < self.spec_n_features(),
        ensures
            r == self.spec_feature_count(j as int, k as int),
    {
        self.feature_count.get(j, k)
    }

    pub fn n_observations(&self) -> (r: u64)
        ensures
            r == self.spec_n_observations(),
    {
        self.n_observations
    }

    /// Fits the classifier: for every record and every class its label row
    /// marks with 1, the record's feature counts are added to that class's
    /// feature counts, to its class count, and to the total observed mass.
    /// Fails on differing record counts, then on any label outside {0, 1};
    /// no partial model is returned on failure.
    ///
    /// The two machine-limit preconditions say that the accumulated mass
    /// fits a 64-bit counter — `checked_total_mass` decides it — and that
    /// the classes-by-features count table is addressable.
    pub fn fit(x: &Matrix, y: &Matrix) -> (r: Result<MultinomialNB, Error>)
        requires
            x.wf(),
            y.wf(),
            x.spec_rows() == y.spec_rows() ==> total_mass(x@, y@) <= u64::MAX,
            x.spec_rows() == y.spec_rows() ==> y.spec_cols() * x.spec_cols() <= usize::MAX,
        ensures
            match r {
                Ok(m) => {
                    &&& x.spec_rows() == y.spec_rows()
                    &&& binary_labels(y@)
                    &&& m.wf()
                    &&& m.fitted_from(*x, *y)
                },
                Err(Error::MismatchedRecordCount) => x.spec_rows() != y.spec_rows(),
                Err(Error::NonBinaryLabel) => x.spec_rows() == y.spec_rows() && !binary_labels(
                    y@,
                ),
                Err(_) => false,
            },
    {
        let n_records = x.rows();
        let n_feats = x.cols();
        let n_classes = y.cols();
        if y.rows() != n_records {
            return Err(Error::MismatchedRecordCount);
        }
        proof {
            x.lemma_shape();
            y.lemma_shape();
        }
        let mut class_count = zeros(n_classes);
        let mut feature_count = Matrix::new_zeros(n_classes, n_feats);
        let mut n_observations: u64 = 0;
        let mut i: usize = 0;
        while i < n_records
            invariant
                i <= n_records,
                x.wf(),
                y.wf(),
                n_records == x.spec_rows(),
                n_records == y.spec_rows(),
                n_feats == x.spec_cols(),
                n_classes == y.spec_cols(),
                x@.len() == n_records,
                y@.len() == n_records,
                forall|a: int| 0 <= a < n_records ==> (#[trigger] x@[a]).len() == n_feats,
                forall|a: int| 0 <= a < n_records ==> (#[trigger] y@[a]).len() == n_classes,
                total_mass(x@, y@) <= u64::MAX,
                class_count@.len() == n_classes,
                forall|a: int|
                    0 <= a < n_classes ==> #[trigger] class_count@[a] == class_mass(
                        x@,
                        y@,
                        a,
                        i as int,
                    ),
                feature_count.wf(),
                feature_count.spec_rows() == n_classes,
                feature_count.spec_cols() == n_feats,
                forall|a: int, b: int|
                    0 <= a < n_classes && 0 <= b < n_feats ==> #[trigger] feature_count@[a][b]
                        == feature_mass(x@, y@, a, b, i as int),
                n_observations == total_mass_upto(x@, y@, i as int),
                forall|a: int, b: int|
                    0 <= a < i && 0 <= b < n_classes ==> ((#[trigger] y@[a][b]) == 0 || y@[a][b]
                        == 1),
            decreases n_records - i,
        {
            let ghost xr = x@[i as int];
            let ghost yr = y@[i as int];
            let mut j: usize = 0;
            while j < n_classes
                invariant
                    j <= n_classes,
                    i < n_records,
                    x.wf(),
                    y.wf(),
                    n_records == x.spec_rows(),
                    n_records == y.spec_rows(),
                    n_feats == x.spec_cols(),
                    n_classes == y.spec_cols(),
                    x@.len() == n_records,
                    y@.len() == n_records,
                    forall|a: int| 0 <= a < n_records ==> (#[trigger] x@[a]).len() == n_feats,
                    forall|a: int| 0 <= a < n_records ==> (#[trigger] y@[a]).len() == n_classes,
                    total_mass(x@, y@) <= u64::MAX,
                    xr == x@[i as int],
                    yr == y@[i as int],
                    class_count@.len() == n_classes,
                    forall|a: int|
                        0 <= a < n_classes ==> #[trigger] class_count@[a] == class_mass(
                            x@,
                            y@,
                            a,
                            if a < j {
                                i + 1
                            } else {
                                i as int
                            },
                        ),
                    feature_count.wf(),
                    feature_count.spec_rows() == n_classes,
                    feature_count.spec_cols() == n_feats,
                    forall|a: int, b: int|
                        0 <= a < n_classes && 0 <= b < n_feats ==> #[trigger] feature_count@[a][b]
                            == feature_mass(
                            x@,
                            y@,
                            a,
                            b,
                            if a < j {
                                i + 1
                            } else {
                                i as int
                            },
                        ),
                    n_observations == total_mass_upto(x@, y@, i as int) + row_mass(
                        xr,
                        yr,
                        j as int,
                    ),
                    forall|a: int, b: int|
                        0 <= a < i && 0 <= b < n_classes ==> ((#[trigger] y@[a][b]) == 0
                            || y@[a][b] == 1),
                    forall|b: int| 0 <= b < j ==> ((#[trigger] yr[b]) == 0 || yr[b] == 1),
                decreases n_classes - j,
            {
                let yij = y.get(i, j);
                if yij == 1 {
                    let mut k: usize = 0;
                    proof {
                        assert(xr.take(0) =~= Seq::<u64>::empty());
                    }
                    while k < n_feats
                        invariant
                            k <= n_feats,
                            j < n_classes,
                            i < n_records,
                            x.wf(),
                            y.wf(),
                            n_records == x.spec_rows(),
                            n_records == y.spec_rows(),
                            n_feats == x.spec_cols(),
                            n_classes == y.spec_cols(),
                            x@.len() == n_records,
                            y@.len() == n_records,
                            forall|a: int|
                                0 <= a < n_records ==> (#[trigger] x@[a]).len() == n_feats,
                            forall|a: int|
                                0 <= a < n_records ==> (#[trigger] y@[a]).len() == n_classes,
                            total_mass(x@, y@) <= u64::MAX,
                            xr == x@[i as int],
                            yr == y@[i as int],
                            yr[j as int] == 1,
                            class_count@.len() == n_classes,
                            forall|a: int|
                                0 <= a < n_classes && a != j ==> #[trigger] class_count@[a]
                                    == class_mass(
                                    x@,
                                    y@,
                                    a,
                                    if a < j {
                                        i + 1
                                    } else {
                                        i as int
                                    },
                                ),
                            class_count@[j as int] == class_mass(x@, y@, j as int, i as int)
                                + seq_sum(xr.take(k as int)),
                            feature_count.wf(),
                            feature_count.spec_rows() == n_classes,
                            feature_count.spec_cols() == n_feats,
                            forall|a: int, b: int|
                                0 <= a < n_classes && 0 <= b < n_feats && a != j
                                    ==> #[trigger] feature_count@[a][b] == feature_mass(
                                    x@,
                                    y@,
                                    a,
                                    b,
                                    if a < j {
                                        i + 1
                                    } else {
                                        i as int
                                    },
                                ),
                            forall|b: int|
                                0 <= b < k ==> #[trigger] feature_count@[j as int][b]
                                    == feature_mass(x@, y@, j as int, b, i as int) + xr[b],
                            forall|b: int|
                                k <= b < n_feats ==> #[trigger] feature_count@[j as int][b]
                                    == feature_mass(x@, y@, j as int, b, i as int),
                            n_observations == total_mass_upto(x@, y@, i as int) + row_mass(
                                xr,
                                yr,
                                j as int,
                            ) + seq_sum(xr.take(k as int)),
                            forall|a: int, b: int|
                                0 <= a < i && 0 <= b < n_classes ==> ((#[trigger] y@[a][b]) == 0
                                    || y@[a][b] == 1),
                            forall|b: int| 0 <= b < j ==> ((#[trigger] yr[b]) == 0 || yr[b] == 1),
                        decreases n_feats - k,
                    {
                        let nv = x.get(i, k);
                        proof {
                            lemma_seq_sum_step(xr, k as int);
                            lemma_seq_sum_prefix(xr, k + 1);
                            lemma_row_mass_nonneg(xr, yr, j as int);
                            lemma_row_mass_mono(xr, yr, j + 1, n_classes as int);
                            lemma_total_mass_mono(x@, y@, i + 1, n_records as int);
                            assert(total_mass_upto(x@, y@, i + 1) == total_mass_upto(
                                x@,
                                y@,
                                i as int,
                            ) + row_mass(xr, yr, n_classes as int));
                            assert(row_mass(xr, yr, j + 1) == row_mass(xr, yr, j as int) + seq_sum(
                                xr,
                            ));
                            assert(class_mass(x@, y@, j as int, i + 1) == class_mass(
                                x@,
                                y@,
                                j as int,
                                i as int,
                            ) + seq_sum(xr));
                            lemma_class_mass_bound(x@, y@, j as int, i + 1);
                            assert(feature_mass(x@, y@, j as int, k as int, i + 1) == feature_mass(
                                x@,
                                y@,
                                j as int,
                                k as int,
                                i as int,
                            ) + xr[k as int]);
                            lemma_feature_mass_bound(x@, y@, j as int, k as int, i + 1);
                            lemma_seq_sum_nonneg(xr.take(k as int));
                        }
                        n_observations = n_observations + nv;
                        let cc = class_count[j];
                        class_count[j] = cc + nv;
                        let fc = feature_count.get(j, k);
                        let ghost old_fc = feature_count@;
                        proof {
                            feature_count.lemma_shape();
                        }
                        feature_count.set(j, k, fc + nv);
                        proof {
                            assert(old_fc.len() == n_classes);
                            assert forall|a: int, b: int|
                                0 <= a < n_classes && 0 <= b < n_feats && a != j implies
                                #[trigger] feature_count@[a][b] == old_fc[a][b] by {
                                assert(feature_count@[a] == old_fc[a]);
                            }
                            assert forall|b: int|
                                0 <= b < n_feats && b != k implies #[trigger] feature_count@[
                                j as int][b] == old_fc[j as int][b] by {
                                assert(feature_count@[j as int] == old_fc[j as int].update(
                                    k as int, (fc + nv) as u64));
                            }
                            assert(feature_count@[j as int][k as int] == fc + nv);
                        }
                        k = k + 1;
                    }
                    proof {
                        assert(xr.take(n_feats as int) =~= xr);
                        assert(row_mass(xr, yr, j + 1) == row_mass(xr, yr, j as int) + seq_sum(
                            xr,
                        ));
                        assert(class_mass(x@, y@, j as int, i + 1) == class_mass(
                            x@,
                            y@,
                            j as int,
                            i as int,
                        ) + seq_sum(xr));
                        assert forall|b: int| 0 <= b < n_feats implies #[trigger] feature_count@[j as int][b] == feature_mass(x@, y@, j as int, b, i + 1) by {
                            assert(feature_mass(x@, y@, j as int, b, i + 1) == feature_mass(
                                x@,
                                y@,
                                j as int,
                                b,
                                i as int,
                            ) + xr[b]);
                        }
                    }
                } else if yij != 0 {
                    proof {
                        assert(y@[i as int][j as int] != 0 && y@[i as int][j as int] != 1);
                        assert(!binary_labels(y@));
                    }
                    return Err(Error::NonBinaryLabel);
                } else {
                    proof {
                        assert(row_mass(xr, yr, j + 1) == row_mass(xr, yr, j as int));
                        assert(class_mass(x@, y@, j as int, i + 1) == class_mass(
                            x@,
                            y@,
                            j as int,
                            i as int,
                        ));
                        assert forall|b: int| 0 <= b < n_feats implies #[trigger] feature_count@[j as int][b] == feature_mass(x@, y@, j as int, b, i + 1) by {
                            assert(feature_mass(x@, y@, j as int, b, i + 1) == feature_mass(
                                x@,
                                y@,
                                j as int,
                                b,
                                i as int,
                            ));
                        }
                    }
                }
                j = j + 1;
            }
            proof {
                assert(total_mass_upto(x@, y@, i + 1) == total_mass_upto(x@, y@, i as int)
                    + row_mass(xr, yr, n_classes as int));
            }
            i = i + 1;
        }
        proof {
            assert forall|a: int, b: int|
                0 <= a < y@.len() && 0 <= b < y@[a].len() implies ((#[trigger] y@[a][b]) == 0
                || y@[a][b] == 1) by {
                assert(y@[a].len() == n_classes);
            }
        }
        Ok(MultinomialNB { class_count, feature_count, n_observations })
    }

    /// Whether this model holds exactly the counts that `fit` owes for the
    /// training set `(x, y)` — the shape of `fit`'s promise on success.
    pub open spec fn fitted_from(&self, x: Matrix, y: Matrix) -> bool {
        &&& self.spec_n_classes() == y.spec_cols()
        &&& self.spec_n_features() == x.spec_cols()
        &&& forall|j: int|
            0 <= j < y.spec_cols() ==> #[trigger] self.spec_class_count(j) == class_mass(
                x@,
                y@,
                j,
                x@.len() as int,
            )
        &&& forall|j: int, k: int|
            0 <= j < y.spec_cols() && 0 <= k < x.spec_cols()
                ==> #[trigger] self.spec_feature_count(j, k) == feature_mass(
                x@,
                y@,
                j,
                k,
                x@.len() as int,
            )
        &&& self.spec_n_observations() == total_mass(x@, y@)
    }

    /// Fitting is deterministic: any two models that `fit` can return for
    /// the same training set agree on every observable count, so repeated
    /// runs on fixed inputs read back identically.
    pub proof fn lemma_fit_deterministic(m1: MultinomialNB, m2: MultinomialNB, x: Matrix, y: Matrix)
        requires
            m1.fitted_from(x, y),
            m2.fitted_from(x, y),
        ensures
            m1.spec_n_classes() == m2.spec_n_classes(),
            m1.spec_n_features() == m2.spec_n_features(),
            m1.spec_n_observations() == m2.spec_n_observations(),
            forall|j: int|
                0 <= j < m1.spec_n_classes() ==> #[trigger] m1.spec_class_count(j)
                    == m2.spec_class_count(j),
            forall|j: int, k: int|
                0 <= j < m1.spec_n_classes() && 0 <= k < m1.spec_n_features()
                    ==> #[trigger] m1.spec_feature_count(j, k) == m2.spec_feature_count(j, k),
    {
    }

    /// Accepts a query matrix if and only if its column count equals the
    /// fitted feature count, as `predict` requires.
    pub fn check_query(&self, z: &Matrix) -> (r: Result<(), Error>)
        ensures
            match r {
                Ok(()) => z.spec_cols() == self.spec_n_features(),
                Err(Error::MismatchedFeatureCount) => z.spec_cols() != self.spec_n_features(),
                Err(_) => false,
            },
    {
        if z.cols() != self.feature_count.cols() {
            Err(Error::MismatchedFeatureCount)
        } else {
            Ok(())
        }
    }
}

} // verus!
