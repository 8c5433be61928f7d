use vstd::prelude::*;

use crate::{count_ones, expanded, positions_below, Fingerprint, GRID_SIZE};

verus! {

/// The entries of a byte vector as integers.
pub open spec fn ints(v: Seq<u8>) -> Seq<int> {
    Seq::new(v.len(), |i: int| v[i] as int)
}

/// Every entry is zero or one.
pub open spec fn is_binary(v: Seq<u8>) -> bool {
    forall|i: int| 0 <= i < v.len() ==> v[i] <= 1
}

/// The sum of the entries.
pub open spec fn sum(v: Seq<int>) -> int
    decreases v.len(),
{
    if v.len() == 0 {
        0
    } else {
        sum(v.drop_last()) + v.last()
    }
}

/// The entrywise products `l_i * r_i`.
pub open spec fn products(l: Seq<int>, r: Seq<int>) -> Seq<int> {
    Seq::new(l.len(), |i: int| l[i] * r[i])
}

/// The dot product `sum l_i * r_i`.
pub open spec fn dot(l: Seq<int>, r: Seq<int>) -> int {
    sum(products(l, r))
}

/// The entrywise differences `l_i - r_i`.
pub open spec fn difference(l: Seq<int>, r: Seq<int>) -> Seq<int> {
    Seq::new(l.len(), |i: int| l[i] - r[i])
}

/// The entrywise absolute differences `|l_i - r_i|`.
pub open spec fn absolute_differences(l: Seq<int>, r: Seq<int>) -> Seq<int> {
    Seq::new(l.len(), |i: int| if l[i] >= r[i] { l[i] - r[i] } else { r[i] - l[i] })
}

/// One for each index where both entries are one, zero elsewhere.
pub open spec fn both_ones(l: Seq<int>, r: Seq<int>) -> Seq<int> {
    Seq::new(l.len(), |i: int| if l[i] == 1 && r[i] == 1 { 1int } else { 0int })
}

/// The deviations from the mean, scaled by the length to stay integral:
/// `n * v_i - sum v`, which is `n * (v_i - mean v)`.
pub open spec fn deviations(v: Seq<int>) -> Seq<int> {
    Seq::new(v.len(), |i: int| v.len() * v[i] - sum(v))
}

/// The squared Euclidean distance `sum (l_i - r_i)^2`.
pub open spec fn squared_distance(l: Seq<int>, r: Seq<int>) -> int {
    dot(difference(l, r), difference(l, r))
}

/// The sum of absolute differences `sum |l_i - r_i|`.
pub open spec fn absolute_distance(l: Seq<int>, r: Seq<int>) -> int {
    sum(absolute_differences(l, r))
}

/// The number of indices where both vectors hold a one.
pub open spec fn overlap(l: Seq<int>, r: Seq<int>) -> int {
    sum(both_ones(l, r))
}

/// Numerator of the normalized Euclidean distance, scaled by the squared length:
/// `sum ((l_i - mean l) - (r_i - mean r))^2`, times `n^2`.
pub open spec fn normalized_numerator(l: Seq<int>, r: Seq<int>) -> int {
    dot(deviations(difference(l, r)), deviations(difference(l, r)))
}

/// Denominator of the normalized Euclidean distance, scaled by the squared length:
/// `sum (l_i - mean l)^2 + sum (r_i - mean r)^2`, times `n^2`.
pub open spec fn normalized_denominator(l: Seq<int>, r: Seq<int>) -> int {
    dot(deviations(l), deviations(l)) + dot(deviations(r), deviations(r))
}

/// Numerator of the Pearson coefficient, scaled by the squared length:
/// `sum (l_i - mean l) * (r_i - mean r)`, times `n^2`.
pub open spec fn covariance_numerator(l: Seq<int>, r: Seq<int>) -> int {
    dot(deviations(l), deviations(r))
}

/// The number under the square root in the Pearson coefficient, scaled by `n^4`:
/// `sum (l_i - mean l)^2 * sum (r_i - mean r)^2`, times `n^4`.
pub open spec fn variance_product(l: Seq<int>, r: Seq<int>) -> int {
    dot(deviations(l), deviations(l)) * dot(deviations(r), deviations(r))
}

/// The sum of a prefix grows by the next entry.
pub proof fn lemma_sum_step(v: Seq<int>, i: int)
    requires
        0 <= i < v.len(),
    ensures
        sum(v.take(i + 1)) == sum(v.take(i)) + v[i],
{
    assert(v.take(i + 1).drop_last() =~= v.take(i));
}

/// A sum of non-negative entries is non-negative.
pub proof fn lemma_sum_nonneg(v: Seq<int>)
    requires
        forall|i: int| 0 <= i < v.len() ==> v[i] >= 0,
    ensures
        sum(v) >= 0,
    decreases v.len(),
{
    if v.len() > 0 {
        lemma_sum_nonneg(v.drop_last());
    }
}

/// A sum of squares is non-negative.
pub proof fn lemma_dot_self_nonneg(v: Seq<int>)
    ensures
        dot(v, v) >= 0,
{
    assert forall|i: int| 0 <= i < v.len() implies products(v, v)[i] >= 0 by {
        assert(v[i] * v[i] >= 0) by (nonlinear_arith);
    }
    lemma_sum_nonneg(products(v, v));
}

/// The sum of the differences is the difference of the sums.
pub proof fn lemma_sum_difference(l: Seq<int>, r: Seq<int>)
    requires
        l.len() == r.len(),
    ensures
        sum(difference(l, r)) == sum(l) - sum(r),
    decreases l.len(),
{
    if l.len() > 0 {
        assert(difference(l, r).drop_last() =~= difference(l.drop_last(), r.drop_last()));
        lemma_sum_difference(l.drop_last(), r.drop_last());
    }
}

/// Sum over a prefix of `(m x_i - p)(m y_i - q)`, expanded.
proof fn lemma_centered_prefix(x: Seq<int>, y: Seq<int>, m: int, p: int, q: int, k: int)
    requires
        x.len() == y.len(),
        0 <= k <= x.len(),
    ensures
        sum(Seq::new(k as nat, |i: int| (m * x[i] - p) * (m * y[i] - q))) == m * m * sum(
            products(x, y).take(k),
        ) - m * q * sum(x.take(k)) - m * p * sum(y.take(k)) + k * p * q,
    decreases k,
{
    let s = Seq::new(k as nat, |i: int| (m * x[i] - p) * (m * y[i] - q));
    if k == 0 {
        assert(products(x, y).take(0) =~= Seq::<int>::empty());
        assert(x.take(0) =~= Seq::<int>::empty());
        assert(y.take(0) =~= Seq::<int>::empty());
    } else {
        lemma_centered_prefix(x, y, m, p, q, k - 1);
        assert(s.drop_last() =~= Seq::new(
            (k - 1) as nat,
            |i: int| (m * x[i] - p) * (m * y[i] - q),
        ));
        lemma_sum_step(products(x, y), k - 1);
        lemma_sum_step(x, k - 1);
        lemma_sum_step(y, k - 1);
        let a = x[k - 1];
        let b = y[k - 1];
        let u = m * a;
        let v = m * b;
        let mm = m * m;
        let mq = m * q;
        let mp = m * p;
        let pq = p * q;
        assert((u - p) * (v - q) == u * v - u * q - p * v + pq) by (nonlinear_arith)
            requires
                pq == p * q,
        ;
        assert(u * v == mm * (a * b)) by (nonlinear_arith)
            requires
                u == m * a,
                v == m * b,
                mm == m * m,
        ;
        assert(u * q == mq * a) by (nonlinear_arith)
            requires
                u == m * a,
                mq == m * q,
        ;
        assert(p * v == mp * b) by (nonlinear_arith)
            requires
                v == m * b,
                mp == m * p,
        ;
        let sp = sum(products(x, y).take(k - 1));
        let sx = sum(x.take(k - 1));
        let sy = sum(y.take(k - 1));
        assert(mm * (sp + a * b) == mm * sp + mm * (a * b)) by (nonlinear_arith);
        assert(mq * (sx + a) == mq * sx + mq * a) by (nonlinear_arith);
        assert(mp * (sy + b) == mp * sy + mp * b) by (nonlinear_arith);
        assert(k * p * q == (k - 1) * p * q + pq) by (nonlinear_arith)
            requires
                pq == p * q,
        ;
    }
}

/// The scaled deviations of two vectors multiply out to
/// `n * (n * dot(x, y) - sum x * sum y)`.
pub proof fn lemma_centered_dot(x: Seq<int>, y: Seq<int>)
    requires
        x.len() == y.len(),
    ensures
        dot(deviations(x), deviations(y)) == x.len() * (x.len() * dot(x, y) - sum(x) * sum(y)),
{
    let n = x.len() as int;
    lemma_centered_prefix(x, y, n, sum(x), sum(y), n);
    assert(products(deviations(x), deviations(y)) =~= Seq::new(
        n as nat,
        |i: int| (n * x[i] - sum(x)) * (n * y[i] - sum(y)),
    ));
    assert(products(x, y).take(n) =~= products(x, y));
    assert(x.take(n) =~= x);
    assert(y.take(n) =~= y);
    let d = dot(x, y);
    let p = sum(x);
    let q = sum(y);
    assert(n * n * d - n * q * p - n * p * q + n * p * q == n * (n * d - p * q))
        by (nonlinear_arith);
}

/// On 0/1 vectors the squares, products and differences reduce to counts.
pub proof fn lemma_binary_terms(l: Seq<int>, r: Seq<int>)
    requires
        l.len() == r.len(),
        forall|i: int| 0 <= i < l.len() ==> 0 <= #[trigger] l[i] <= 1,
        forall|i: int| 0 <= i < r.len() ==> 0 <= #[trigger] r[i] <= 1,
    ensures
        dot(l, l) == sum(l),
        dot(l, r) == overlap(l, r),
        absolute_distance(l, r) == squared_distance(l, r),
        squared_distance(l, r) == sum(l) + sum(r) - 2 * dot(l, r),
{
    assert forall|i: int| 0 <= i < l.len() implies l[i] * l[i] == l[i] by {
        assert(0 <= l[i] <= 1 ==> l[i] * l[i] == l[i]) by (nonlinear_arith);
    }
    assert(products(l, l) =~= l);
    assert forall|i: int| 0 <= i < l.len() implies l[i] * r[i] == both_ones(l, r)[i] by {
        assert(0 <= l[i] <= 1 && 0 <= r[i] <= 1 ==> l[i] * r[i] == if l[i] == 1 && r[i] == 1 {
            1int
        } else {
            0int
        }) by (nonlinear_arith);
    }
    assert(products(l, r) =~= both_ones(l, r));
    let d = difference(l, r);
    assert forall|i: int| 0 <= i < l.len() implies products(d, d)[i] == absolute_differences(
        l,
        r,
    )[i] && products(d, d)[i] == l[i] + r[i] - 2 * (l[i] * r[i]) by {
        let a = l[i];
        let b = r[i];
        assert(0 <= a <= 1 && 0 <= b <= 1 ==> (a - b) * (a - b) == if a >= b {
            a - b
        } else {
            b - a
        } && (a - b) * (a - b) == a + b - 2 * (a * b)) by (nonlinear_arith);
    }
    assert(products(d, d) =~= absolute_differences(l, r));
    assert(products(d, d) =~= Seq::new(l.len(), |i: int| l[i] + r[i] - 2 * (l[i] * r[i])));
    lemma_sum_linear(l, r);
}

/// `sum (l_i + r_i - 2 l_i r_i) == sum l + sum r - 2 dot(l, r)`.
proof fn lemma_sum_linear(l: Seq<int>, r: Seq<int>)
    requires
        l.len() == r.len(),
    ensures
        sum(Seq::new(l.len(), |i: int| l[i] + r[i] - 2 * (l[i] * r[i]))) == sum(l) + sum(r) - 2
            * dot(l, r),
    decreases l.len(),
{
    if l.len() > 0 {
        let lt = l.drop_last();
        let rt = r.drop_last();
        lemma_sum_linear(lt, rt);
        assert(Seq::new(l.len(), |i: int| l[i] + r[i] - 2 * (l[i] * r[i])).drop_last()
            =~= Seq::new(lt.len(), |i: int| lt[i] + rt[i] - 2 * (lt[i] * rt[i])));
        assert(products(l, r).drop_last() =~= products(lt, rt));
    }
}

/// A sum grows with its entries.
pub proof fn lemma_sum_le(v: Seq<int>, w: Seq<int>)
    requires
        v.len() == w.len(),
        forall|i: int| 0 <= i < v.len() ==> v[i] <= w[i],
    ensures
        sum(v) <= sum(w),
    decreases v.len(),
{
    if v.len() > 0 {
        lemma_sum_le(v.drop_last(), w.drop_last());
    }
}

/// The sum of a 0/1 vector counts its ones.
pub proof fn lemma_sum_counts_ones(v: Seq<u8>)
    requires
        is_binary(v),
    ensures
        sum(ints(v)) == count_ones(v),
    decreases v.len(),
{
    if v.len() > 0 {
        assert(ints(v).drop_last() =~= ints(v.drop_last()));
        lemma_sum_counts_ones(v.drop_last());
    }
}

/// A fingerprint compared with itself: Euclidean and absolute distance are zero, the
/// overlap is its number of active cells, the cosine is one (its dot product with
/// itself is its number of active cells, so the product of the squared norms is the
/// square of the dot product), and the normalized Euclidean distance is zero, so the
/// normalized Euclidean similarity is one.
pub proof fn lemma_self_similarity(v: Seq<u8>)
    requires
        is_binary(v),
    ensures
        squared_distance(ints(v), ints(v)) == 0,
        absolute_distance(ints(v), ints(v)) == 0,
        overlap(ints(v), ints(v)) == count_ones(v),
        dot(ints(v), ints(v)) == count_ones(v),
        dot(ints(v), ints(v)) * dot(ints(v), ints(v)) == count_ones(v) * count_ones(v),
        normalized_numerator(ints(v), ints(v)) == 0,
{
    let x = ints(v);
    let d = difference(x, x);
    lemma_binary_terms(x, x);
    lemma_sum_counts_ones(v);
    lemma_centered_dot(d, d);
    lemma_sum_difference(x, x);
    let n = d.len() as int;
    assert(n * (n * 0 - 0 * 0) == 0) by (nonlinear_arith);
}

/// Every score is symmetric: comparing `r` with `l` gives what comparing `l` with `r`
/// gives.
pub proof fn lemma_symmetric(l: Seq<int>, r: Seq<int>)
    requires
        l.len() == r.len(),
    ensures
        squared_distance(l, r) == squared_distance(r, l),
        absolute_distance(l, r) == absolute_distance(r, l),
        dot(l, r) == dot(r, l),
        overlap(l, r) == overlap(r, l),
        normalized_numerator(l, r) == normalized_numerator(r, l),
        normalized_denominator(l, r) == normalized_denominator(r, l),
        covariance_numerator(l, r) == covariance_numerator(r, l),
        variance_product(l, r) == variance_product(r, l),
{
    let dl = difference(l, r);
    let dr = difference(r, l);
    assert forall|i: int| 0 <= i < l.len() implies products(dl, dl)[i] == products(dr, dr)[i] by {
        let a = l[i];
        let b = r[i];
        assert((a - b) * (a - b) == (b - a) * (b - a)) by (nonlinear_arith);
    }
    assert(products(dl, dl) =~= products(dr, dr));
    assert(absolute_differences(l, r) =~= absolute_differences(r, l));
    assert(products(l, r) =~= products(r, l));
    assert(both_ones(l, r) =~= both_ones(r, l));
    lemma_sum_difference(l, r);
    lemma_sum_difference(r, l);
    let vl = deviations(dl);
    let vr = deviations(dr);
    assert forall|i: int| 0 <= i < l.len() implies products(vl, vl)[i] == products(vr, vr)[i] by {
        let n = l.len() as int;
        let u = dl[i];
        let w = dr[i];
        assert(u == -w);
        assert(n * u - sum(dl) == -(n * w - sum(dr))) by (nonlinear_arith)
            requires
                u == -w,
                sum(dl) == -sum(dr),
        ;
        assert(vl[i] == -vr[i]);
        let e = vl[i];
        assert(e * e == (-e) * (-e)) by (nonlinear_arith);
    }
    assert(products(vl, vl) =~= products(vr, vr));
    assert(products(deviations(l), deviations(r)) =~= products(deviations(r), deviations(l)));
    let pl = dot(deviations(l), deviations(l));
    let pr = dot(deviations(r), deviations(r));
    assert(pl * pr == pr * pl) by (nonlinear_arith);
}

/// The factors of the weighted score stay in range on fingerprints: the dot product is
/// non-negative and its square at most the product of the squared norms, so the raw
/// cosine lies in [0, 1] and its rescaled form in [1/2, 1]; the normalized Euclidean
/// distance has a non-negative numerator and denominator, so the normalized Euclidean
/// similarity is at most one.
pub proof fn lemma_weighted_factors(l: Seq<u8>, r: Seq<u8>)
    requires
        l.len() == r.len(),
        is_binary(l),
        is_binary(r),
    ensures
        0 <= dot(ints(l), ints(r)),
        dot(ints(l), ints(r)) * dot(ints(l), ints(r)) <= dot(ints(l), ints(l)) * dot(
            ints(r),
            ints(r),
        ),
        0 <= normalized_numerator(ints(l), ints(r)),
        0 <= normalized_denominator(ints(l), ints(r)),
{
    let x = ints(l);
    let y = ints(r);
    assert forall|i: int| 0 <= i < x.len() implies 0 <= #[trigger] x[i] <= 1 by {}
    assert forall|i: int| 0 <= i < y.len() implies 0 <= #[trigger] y[i] <= 1 by {}
    lemma_binary_terms(x, y);
    lemma_binary_terms(y, x);
    lemma_sum_le(both_ones(x, y), x);
    lemma_sum_le(both_ones(x, y), y);
    lemma_sum_nonneg(both_ones(x, y));
    let c = dot(x, y);
    let a = dot(x, x);
    let b = dot(y, y);
    assert(c * c <= a * b) by (nonlinear_arith)
        requires
            0 <= c <= a,
            c <= b,
    ;
    lemma_dot_self_nonneg(deviations(difference(x, y)));
    lemma_dot_self_nonneg(deviations(x));
    lemma_dot_self_nonneg(deviations(y));
}

/// Two fingerprints expanded to dense 0/1 vectors over the retina, ready to compare.
#[derive(Clone, Debug, Default, PartialEq)]
pub struct FingerprintSimilarity {
    pub exp_vec_left: Vec<u8>,
    pub exp_vec_right: Vec<u8>,
}

/// The running sums that every score is derived from.
struct Moments {
    left_sum: u64,
    right_sum: u64,
    dot: u64,
    squared: u64,
    absolute: u64,
    overlap: u64,
}

impl FingerprintSimilarity {
    /// Both vectors cover the retina and hold only zeros and ones.
    pub open spec fn wf(&self) -> bool {
        &&& self.exp_vec_left@.len() == GRID_SIZE
        &&& self.exp_vec_right@.len() == GRID_SIZE
        &&& is_binary(self.exp_vec_left@)
        &&& is_binary(self.exp_vec_right@)
    }

    /// The left vector as integers.
    pub open spec fn left(&self) -> Seq<int> {
        ints(self.exp_vec_left@)
    }

    /// The right vector as integers.
    pub open spec fn right(&self) -> Seq<int> {
        ints(self.exp_vec_right@)
    }

    /// Expands both fingerprints over the retina.
    pub fn new(left: &Fingerprint, right: &Fingerprint) -> (r: Self)
        requires
            positions_below(left.positions@, GRID_SIZE as nat),
            positions_below(right.positions@, GRID_SIZE as nat),
        ensures
            r.wf(),
            r.exp_vec_left@ == expanded(left.positions@, GRID_SIZE as nat),
            r.exp_vec_right@ == expanded(right.positions@, GRID_SIZE as nat),
    {
        let exp_vec_left = left.expand(GRID_SIZE);
        let exp_vec_right = right.expand(GRID_SIZE);
        FingerprintSimilarity { exp_vec_left, exp_vec_right }
    }

    /// Sums of the entries, of their products and of their differences, in one pass.
    fn moments(&self) -> (m: Moments)
        requires
            self.wf(),
        ensures
            m.left_sum == sum(self.left()),
            m.right_sum == sum(self.right()),
            m.dot == dot(self.left(), self.right()),
            m.squared == squared_distance(self.left(), self.right()),
            m.absolute == absolute_distance(self.left(), self.right()),
            m.overlap == overlap(self.left(), self.right()),
            m.left_sum <= GRID_SIZE && m.right_sum <= GRID_SIZE,
            m.dot <= GRID_SIZE && m.squared <= GRID_SIZE,
    {
        let ghost l = self.left();
        let ghost r = self.right();
        let ghost d = difference(l, r);
        let mut m = Moments { left_sum: 0, right_sum: 0, dot: 0, squared: 0, absolute: 0, overlap: 0 };
        let mut i: usize = 0;
        while i < GRID_SIZE
            invariant
                self.wf(),
                l == self.left(),
                r == self.right(),
                d == difference(l, r),
                i <= GRID_SIZE,
                m.left_sum == sum(l.take(i as int)),
                m.right_sum == sum(r.take(i as int)),
                m.dot == sum(products(l, r).take(i as int)),
                m.squared == sum(products(d, d).take(i as int)),
                m.absolute == sum(absolute_differences(l, r).take(i as int)),
                m.overlap == sum(both_ones(l, r).take(i as int)),
                m.left_sum <= i && m.right_sum <= i && m.dot <= i,
                m.squared <= i && m.absolute <= i && m.overlap <= i,
            decreases GRID_SIZE - i,
        {
            let a = self.exp_vec_left[i];
            let b = self.exp_vec_right[i];
            proof {
                lemma_sum_step(l, i as int);
                lemma_sum_step(r, i as int);
                lemma_sum_step(products(l, r), i as int);
                lemma_sum_step(products(d, d), i as int);
                lemma_sum_step(absolute_differences(l, r), i as int);
                lemma_sum_step(both_ones(l, r), i as int);
                assert(l[i as int] == a as int && r[i as int] == b as int);
                assert(a <= 1 && b <= 1);
                let x = l[i as int];
                let y = r[i as int];
                assert(products(l, r)[i as int] == x * y);
                assert(products(d, d)[i as int] == (x - y) * (x - y));
                assert(x * y == if x == 1 && y == 1 { 1int } else { 0int }) by (nonlinear_arith)
                    requires
                        0 <= x <= 1,
                        0 <= y <= 1,
                ;
                assert((x - y) * (x - y) == if x != y { 1int } else { 0int }) by (nonlinear_arith)
                    requires
                        0 <= x <= 1,
                        0 <= y <= 1,
                ;
            }
            m.left_sum = m.left_sum + a as u64;
            m.right_sum = m.right_sum + b as u64;
            if a == 1 && b == 1 {
                m.dot = m.dot + 1;
                m.overlap = m.overlap + 1;
            }
            if a != b {
                m.squared = m.squared + 1;
                m.absolute = m.absolute + 1;
            }
            i = i + 1;
        }
        proof {
            assert(l.take(GRID_SIZE as int) =~= l);
            assert(r.take(GRID_SIZE as int) =~= r);
            assert(products(l, r).take(GRID_SIZE as int) =~= products(l, r));
            assert(products(d, d).take(GRID_SIZE as int) =~= products(d, d));
            assert(absolute_differences(l, r).take(GRID_SIZE as int) =~= absolute_differences(l, r));
            assert(both_ones(l, r).take(GRID_SIZE as int) =~= both_ones(l, r));
        }
        m
    }

    /// The number of cells active in both fingerprints.
    pub fn overlapping_all(&self) -> (r: u64)
        requires
            self.wf(),
        ensures
            r == overlap(self.left(), self.right()),
    {
        self.moments().overlap
    }

    /// The squared Euclidean distance `sum (l_i - r_i)^2`; the Euclidean distance is its
    /// square root.
    pub fn squared_euclidean_distance(&self) -> (r: u64)
        requires
            self.wf(),
        ensures
            r == squared_distance(self.left(), self.right()),
    {
        self.moments().squared
    }

    /// The sum of absolute differences `sum |l_i - r_i|`; the count-based Jaccard
    /// dissimilarity is half of it.
    pub fn absolute_difference_sum(&self) -> (r: u64)
        requires
            self.wf(),
        ensures
            r == absolute_distance(self.left(), self.right()),
    {
        self.moments().absolute
    }

    /// The dot product and the product of the squared norms: the raw cosine is
    /// `dot / sqrt(norms)`. `None` when a vector has no active cell, where the cosine
    /// is undefined.
    pub fn cosine_terms(&self) -> (r: Option<(u64, u64)>)
        requires
            self.wf(),
        ensures
            r is None <==> dot(self.left(), self.left()) * dot(self.right(), self.right()) == 0,
            r matches Some((d, norms)) ==> d == dot(self.left(), self.right()) && norms == dot(
                self.left(),
                self.left(),
            ) * dot(self.right(), self.right()),
    {
        let m = self.moments();
        proof {
            self.lemma_binary();
            lemma_binary_terms(self.left(), self.right());
            lemma_binary_terms(self.right(), self.left());
        }
        assert(m.left_sum * m.right_sum == 0 <==> (m.left_sum == 0 || m.right_sum == 0))
            by (nonlinear_arith);
        if m.left_sum == 0 || m.right_sum == 0 {
            None
        } else {
            assert(m.left_sum * m.right_sum <= GRID_SIZE * GRID_SIZE) by (nonlinear_arith)
                requires
                    m.left_sum <= GRID_SIZE,
                    m.right_sum <= GRID_SIZE,
            ;
            assert(m.left_sum * m.right_sum != 0) by (nonlinear_arith)
                requires
                    m.left_sum > 0,
                    m.right_sum > 0,
            ;
            Some((m.dot, m.left_sum * m.right_sum))
        }
    }

    /// Numerator and denominator of the normalized Euclidean distance
    /// `sum ((l_i - mean l) - (r_i - mean r))^2 / (sum (l_i - mean l)^2 + sum (r_i - mean r)^2)`,
    /// both scaled by the length of the vectors. `None` when neither vector varies,
    /// where the distance is undefined.
    pub fn normalized_euclidean_terms(&self) -> (r: Option<(u64, u64)>)
        requires
            self.wf(),
        ensures
            r is None <==> normalized_denominator(self.left(), self.right()) == 0,
            r matches Some((num, den)) ==> GRID_SIZE * num == normalized_numerator(
                self.left(),
                self.right(),
            ) && GRID_SIZE * den == normalized_denominator(self.left(), self.right()),
    {
        let m = self.moments();
        let ghost l = self.left();
        let ghost r = self.right();
        let n: u64 = GRID_SIZE as u64;
        let a = m.left_sum;
        let b = m.right_sum;
        proof {
            self.lemma_binary();
            self.lemma_closed_forms();
            lemma_dot_self_nonneg(deviations(difference(l, r)));
        }
        let diff: i64 = a as i64 - b as i64;
        assert(-16384 <= diff <= 16384);
        assert(0 <= diff * diff <= 16384 * 16384) by (nonlinear_arith)
            requires
                -16384 <= diff <= 16384,
        ;
        assert(0 <= n * m.squared <= 16384 * 16384) by (nonlinear_arith)
            requires
                n == 16384,
                m.squared <= 16384,
        ;
        assert(a * a <= n * a && b * b <= n * b) by (nonlinear_arith)
            requires
                a <= n,
                b <= n,
        ;
        let num_signed: i64 = n as i64 * m.squared as i64 - diff * diff;
        assert(num_signed >= 0) by (nonlinear_arith)
            requires
                n * num_signed == normalized_numerator(l, r),
                normalized_numerator(l, r) >= 0,
                n > 0,
        ;
        let var_l: u64 = n * a - a * a;
        let var_r: u64 = n * b - b * b;
        let den = var_l + var_r;
        if den == 0 {
            None
        } else {
            Some((num_signed as u64, den))
        }
    }

    /// Numerator and the number under the square root of the Pearson coefficient
    /// `sum (l_i - mean l)(r_i - mean r) / sqrt(sum (l_i - mean l)^2 * sum (r_i - mean r)^2)`,
    /// the numerator scaled by the length and the other by its square. `None` when a
    /// vector does not vary, where the coefficient is undefined.
    pub fn pearson_terms(&self) -> (r: Option<(i64, u64)>)
        requires
            self.wf(),
        ensures
            r is None <==> variance_product(self.left(), self.right()) == 0,
            r matches Some((cov, var)) ==> GRID_SIZE * cov == covariance_numerator(
                self.left(),
                self.right(),
            ) && GRID_SIZE * GRID_SIZE * var == variance_product(self.left(), self.right()),
    {
        let m = self.moments();
        let ghost l = self.left();
        let ghost r = self.right();
        let n: u64 = GRID_SIZE as u64;
        let a = m.left_sum;
        let b = m.right_sum;
        proof {
            self.lemma_binary();
            self.lemma_closed_forms();
        }
        assert(a * a <= n * a && b * b <= n * b && a * b <= n * n) by (nonlinear_arith)
            requires
                a <= n,
                b <= n,
        ;
        let var_l: u64 = n * a - a * a;
        let var_r: u64 = n * b - b * b;
        assert(var_l * var_r <= n * n * n * n) by (nonlinear_arith)
            requires
                var_l <= n * a,
                var_r <= n * b,
                a <= n,
                b <= n,
        ;
        let cov: i64 = n as i64 * m.dot as i64 - a as i64 * b as i64;
        let var = var_l * var_r;
        assert(n * n * var == (n * var_l) * (n * var_r)) by (nonlinear_arith)
            requires
                var == var_l * var_r,
        ;
        assert(var == 0 <==> (n * var_l) * (n * var_r) == 0) by (nonlinear_arith)
            requires
                var == var_l * var_r,
                n > 0,
        ;
        if var == 0 {
            None
        } else {
            Some((cov, var))
        }
    }

    /// The integer views of the vectors cover the retina and hold only zeros and ones.
    proof fn lemma_binary(&self)
        requires
            self.wf(),
        ensures
            forall|i: int| 0 <= i < self.left().len() ==> 0 <= #[trigger] self.left()[i] <= 1,
            forall|i: int| 0 <= i < self.right().len() ==> 0 <= #[trigger] self.right()[i] <= 1,
            self.left().len() == GRID_SIZE,
            self.right().len() == GRID_SIZE,
    {
    }

    /// The scaled sums of squared deviations and of products of deviations in closed form.
    proof fn lemma_closed_forms(&self)
        requires
            self.wf(),
        ensures
            normalized_numerator(self.left(), self.right()) == GRID_SIZE * (GRID_SIZE
                * squared_distance(self.left(), self.right()) - (sum(self.left()) - sum(
                self.right(),
            )) * (sum(self.left()) - sum(self.right()))),
            dot(deviations(self.left()), deviations(self.left())) == GRID_SIZE * (GRID_SIZE
                * sum(self.left()) - sum(self.left()) * sum(self.left())),
            dot(deviations(self.right()), deviations(self.right())) == GRID_SIZE * (GRID_SIZE
                * sum(self.right()) - sum(self.right()) * sum(self.right())),
            covariance_numerator(self.left(), self.right()) == GRID_SIZE * (GRID_SIZE * dot(
                self.left(),
                self.right(),
            ) - sum(self.left()) * sum(self.right())),
    {
        let l = self.left();
        let r = self.right();
        let d = difference(l, r);
        self.lemma_binary();
        lemma_binary_terms(l, r);
        lemma_binary_terms(r, l);
        lemma_centered_dot(d, d);
        lemma_centered_dot(l, l);
        lemma_centered_dot(r, r);
        lemma_centered_dot(l, r);
        lemma_sum_difference(l, r);
    }
}

impl Fingerprint {
    /// Prepares the comparison of this fingerprint with `other`.
    pub fn compare(&self, other: &Fingerprint) -> (r: FingerprintSimilarity)
        requires
            positions_below(self.positions@, GRID_SIZE as nat),
            positions_below(other.positions@, GRID_SIZE as nat),
        ensures
            r.wf(),
            r.exp_vec_left@ == expanded(self.positions@, GRID_SIZE as nat),
            r.exp_vec_right@ == expanded(other.positions@, GRID_SIZE as nat),
    {
        FingerprintSimilarity::new(self, other)
    }
}

} // verus!
