//! Exact sums, means and Bessel-corrected variances over integer samples.
use vstd::prelude::*;

verus! {

/// A non-negative rational number `num / den`, kept unreduced.
#[derive(Clone, Copy, Debug, PartialEq, Eq, Structural)]
pub struct Ratio {
    pub num: u128,
    pub den: u128,
}

/// Why a statistic could not be computed.
#[derive(Clone, Copy, Debug, PartialEq, Eq, Structural)]
pub enum StatError {
    /// The quotient has a zero denominator: no samples, or no elapsed time.
    DivisionUndefined,
    /// A variance needs at least two samples.
    InsufficientSamples,
    /// An exact intermediate value does not fit in 128 bits.
    Overflow,
}

/// Sum of the first `i` values of `s`.
pub open spec fn prefix_sum(s: Seq<u64>, i: int) -> int
    decreases i,
{
    if i <= 0 {
        0
    } else {
        prefix_sum(s, i - 1) + s[i - 1]
    }
}

/// Sum of all values of `s`.
pub open spec fn total(s: Seq<u64>) -> int {
    prefix_sum(s, s.len() as int)
}

/// A prefix sum does not decrease as it takes in more values.
pub proof fn lemma_prefix_sum_monotonic(s: Seq<u64>, i: int, j: int)
    requires
        0 <= i <= j <= s.len(),
    ensures
        prefix_sum(s, i) <= prefix_sum(s, j),
    decreases j - i,
{
    if i < j {
        lemma_prefix_sum_monotonic(s, i, j - 1);
    }
}

/// A prefix sum of `i` values is at most `i` times the largest `u64`.
pub proof fn lemma_prefix_sum_bound(s: Seq<u64>, i: int)
    requires
        0 <= i <= s.len(),
    ensures
        0 <= prefix_sum(s, i) <= i * 0xffff_ffff_ffff_ffff,
    decreases i,
{
    if i > 0 {
        lemma_prefix_sum_bound(s, i - 1);
    }
}

/// Sum of the squares of the first `i` values of `s`.
pub open spec fn square_sum(s: Seq<u64>, i: int) -> int
    decreases i,
{
    if i <= 0 {
        0
    } else {
        square_sum(s, i - 1) + s[i - 1] * s[i - 1]
    }
}

/// A sum of squares does not decrease as it takes in more terms.
pub proof fn lemma_square_sum_monotonic(s: Seq<u64>, i: int, j: int)
    requires
        0 <= i <= j,
    ensures
        0 <= square_sum(s, i) <= square_sum(s, j),
    decreases j,
{
    if j > 0 {
        let x = s[j - 1];
        assert(x * x >= 0) by (nonlinear_arith);
        if i < j {
            lemma_square_sum_monotonic(s, i, j - 1);
        } else {
            lemma_square_sum_monotonic(s, i - 1, j - 1);
        }
    }
}

/// Exact sum of the values of `v`.
pub fn sum(v: &Vec<u64>) -> (r: u128)
    ensures
        r == total(v@),
{
    let mut acc: u128 = 0;
    let mut i: usize = 0;
    while i < v.len()
        invariant
            i <= v.len(),
            acc == prefix_sum(v@, i as int),
        decreases v.len() - i,
    {
        proof {
            lemma_prefix_sum_bound(v@, i + 1);
        }
        acc = acc + v[i] as u128;
        i = i + 1;
    }
    acc
}

/// Mean of the samples, as their sum over their count.
pub fn sample_mean(samples: &Vec<u64>) -> (r: Result<Ratio, StatError>)
    ensures
        samples.len() == 0 ==> r == Err::<Ratio, StatError>(StatError::DivisionUndefined),
        samples.len() > 0 ==> r == Ok::<Ratio, StatError>(
            Ratio { num: total(samples@) as u128, den: samples.len() as u128 },
        ),
{
    if samples.len() == 0 {
        Err(StatError::DivisionUndefined)
    } else {
        Ok(Ratio { num: sum(samples), den: samples.len() as u128 })
    }
}

/// Distance of sample `j` from the mean of `x`, multiplied by the number of
/// samples so that it stays an integer: `len * x[j] - total(x)`.
pub open spec fn scaled_deviation(x: Seq<u64>, j: int) -> int {
    x.len() * x[j] - total(x)
}

/// Sum of the squares of the first `i` scaled deviations of `x`.
pub open spec fn deviation_square_sum(x: Seq<u64>, i: int) -> int
    decreases i,
{
    if i <= 0 {
        0
    } else {
        deviation_square_sum(x, i - 1) + scaled_deviation(x, i - 1) * scaled_deviation(x, i - 1)
    }
}

/// Numerator of the Bessel-corrected variance of `x`: since every deviation
/// is scaled by `m = x.len()`, this is `m * m` times the sum of the squared
/// distances from the mean.
pub open spec fn corrected_variance_num(x: Seq<u64>) -> int {
    deviation_square_sum(x, x.len() as int)
}

/// Denominator of the Bessel-corrected variance of `m` samples:
/// `m * m * (m - 1)`, so that the quotient is the sum of squared distances
/// from the mean divided by `m - 1`.
pub open spec fn corrected_variance_den(m: int) -> int {
    m * m * (m - 1)
}

/// A sum of squares does not decrease as it takes in more terms.
pub proof fn lemma_deviation_square_sum_monotonic(x: Seq<u64>, i: int, j: int)
    requires
        0 <= i <= j,
    ensures
        0 <= deviation_square_sum(x, i) <= deviation_square_sum(x, j),
    decreases j,
{
    if j > 0 {
        let d = scaled_deviation(x, j - 1);
        assert(d * d >= 0) by (nonlinear_arith);
        if i < j {
            lemma_deviation_square_sum_monotonic(x, i, j - 1);
        } else {
            lemma_deviation_square_sum_monotonic(x, i - 1, j - 1);
        }
    }
}

/// Bessel-corrected sample variance of the samples, as an exact ratio whose
/// numerator is `corrected_variance_num` and denominator
/// `corrected_variance_den`. The corrected standard deviation is its square
/// root.
pub fn corrected_variance(samples: &Vec<u64>) -> (r: Result<Ratio, StatError>)
    ensures
        samples.len() < 2 ==> r == Err::<Ratio, StatError>(StatError::InsufficientSamples),
        samples.len() >= 2 ==> (r == Err::<Ratio, StatError>(StatError::Overflow) <==> (
        corrected_variance_num(samples@) > u128::MAX || corrected_variance_den(
            samples.len() as int,
        ) > u128::MAX)),
        samples.len() >= 2 && corrected_variance_num(samples@) <= u128::MAX
            && corrected_variance_den(samples.len() as int) <= u128::MAX ==> r == Ok::<
            Ratio,
            StatError,
        >(
            Ratio {
                num: corrected_variance_num(samples@) as u128,
                den: corrected_variance_den(samples.len() as int) as u128,
            },
        ),
{
    let m = samples.len();
    if m < 2 {
        return Err(StatError::InsufficientSamples);
    }
    let ghost x = samples@;
    let s = sum(samples);
    let count = m as u128;
    let mut acc: u128 = 0;
    let mut i: usize = 0;
    while i < m
        invariant
            x == samples@,
            m == x.len(),
            m >= 2,
            count == m,
            s == total(x),
            i <= m,
            acc == deviation_square_sum(x, i as int),
        decreases m - i,
    {
        let v = samples[i] as u128;
        assert(count * v <= 0xffff_ffff_ffff_ffffu128 * 0xffff_ffff_ffff_ffffu128) by (nonlinear_arith)
            requires
                count <= 0xffff_ffff_ffff_ffffu128,
                v <= 0xffff_ffff_ffff_ffffu128,
        ;
        let scaled = count * v;
        let d: u128 = if scaled >= s {
            scaled - s
        } else {
            s - scaled
        };
        proof {
            let e = scaled_deviation(x, i as int);
            assert(d * d == e * e) by (nonlinear_arith)
                requires
                    d == e || d == -e,
            ;
            lemma_deviation_square_sum_monotonic(x, i + 1, m as int);
            lemma_deviation_square_sum_monotonic(x, i as int, i as int);
        }
        match d.checked_mul(d) {
            None => {
                return Err(StatError::Overflow);
            },
            Some(square) => match acc.checked_add(square) {
                None => {
                    return Err(StatError::Overflow);
                },
                Some(next) => {
                    acc = next;
                },
            },
        }
        i = i + 1;
    }
    let den = match count.checked_mul(count) {
        None => {
            assert(count * count * (count - 1) >= count * count) by (nonlinear_arith)
                requires
                    count >= 2,
            ;
            return Err(StatError::Overflow);
        },
        Some(square) => match square.checked_mul(count - 1) {
            None => {
                return Err(StatError::Overflow);
            },
            Some(den) => den,
        },
    };
    Ok(Ratio { num: acc, den })
}

/// Adding `c` to every sample adds `i * c` to each prefix sum.
proof fn lemma_prefix_sum_shift(x: Seq<u64>, y: Seq<u64>, c: int, i: int)
    requires
        y.len() == x.len(),
        0 <= i <= x.len(),
        forall|j: int| 0 <= j < x.len() ==> #[trigger] y[j] == x[j] + c,
    ensures
        prefix_sum(y, i) == prefix_sum(x, i) + i * c,
    decreases i,
{
    if i > 0 {
        lemma_prefix_sum_shift(x, y, c, i - 1);
        assert(y[i - 1] == x[i - 1] + c);
        assert((i - 1) * c + c == i * c) by (nonlinear_arith);
    } else {
        assert(i * c == 0) by (nonlinear_arith)
            requires
                i == 0,
        ;
    }
}

/// Multiplying every sample by `c` multiplies each prefix sum by `c`.
proof fn lemma_prefix_sum_scale(x: Seq<u64>, y: Seq<u64>, c: int, i: int)
    requires
        y.len() == x.len(),
        0 <= i <= x.len(),
        forall|j: int| 0 <= j < x.len() ==> #[trigger] y[j] == c * x[j],
    ensures
        prefix_sum(y, i) == c * prefix_sum(x, i),
    decreases i,
{
    if i > 0 {
        lemma_prefix_sum_scale(x, y, c, i - 1);
        assert(y[i - 1] == c * x[i - 1]);
        let p = prefix_sum(x, i - 1);
        let e = x[i - 1] as int;
        assert(c * p + c * e == c * (p + e)) by (nonlinear_arith);
    }
}

/// The Bessel-corrected variance does not change when the same constant is
/// added to every sample; neither does the corrected standard deviation.
pub proof fn lemma_corrected_variance_shift(x: Seq<u64>, y: Seq<u64>, c: int)
    requires
        y.len() == x.len(),
        forall|j: int| 0 <= j < x.len() ==> #[trigger] y[j] == x[j] + c,
    ensures
        corrected_variance_num(y) == corrected_variance_num(x),
        corrected_variance_den(y.len() as int) == corrected_variance_den(x.len() as int),
{
    let m = x.len() as int;
    lemma_prefix_sum_shift(x, y, c, m);
    assert forall|j: int| 0 <= j < m implies #[trigger] scaled_deviation(y, j) == scaled_deviation(
        x,
        j,
    ) by {
        assert(y[j] == x[j] + c);
        assert(m * (x[j] + c) == m * x[j] + m * c) by (nonlinear_arith);
    }
    lemma_deviation_square_sum_equal(x, y, m);
}

/// Two sample sequences with the same scaled deviations have the same sums
/// of squared deviations.
proof fn lemma_deviation_square_sum_equal(x: Seq<u64>, y: Seq<u64>, i: int)
    requires
        0 <= i <= x.len(),
        forall|j: int| 0 <= j < x.len() ==> #[trigger] scaled_deviation(y, j) == scaled_deviation(x, j),
    ensures
        deviation_square_sum(y, i) == deviation_square_sum(x, i),
    decreases i,
{
    if i > 0 {
        lemma_deviation_square_sum_equal(x, y, i - 1);
        assert(scaled_deviation(y, i - 1) == scaled_deviation(x, i - 1));
    }
}

/// Multiplying every sample by a positive constant `c` multiplies the
/// Bessel-corrected variance by `c * c`, and so the corrected standard
/// deviation by `c`.
pub proof fn lemma_corrected_variance_scale(x: Seq<u64>, y: Seq<u64>, c: int)
    requires
        y.len() == x.len(),
        c > 0,
        forall|j: int| 0 <= j < x.len() ==> #[trigger] y[j] == c * x[j],
    ensures
        corrected_variance_num(y) == c * c * corrected_variance_num(x),
        corrected_variance_den(y.len() as int) == corrected_variance_den(x.len() as int),
{
    let m = x.len() as int;
    lemma_prefix_sum_scale(x, y, c, m);
    assert forall|j: int| 0 <= j < m implies #[trigger] scaled_deviation(y, j) == c * scaled_deviation(
        x,
        j,
    ) by {
        assert(y[j] == c * x[j]);
        let t = total(x);
        let e = x[j] as int;
        assert(m * (c * e) - c * t == c * (m * e - t)) by (nonlinear_arith);
    }
    lemma_deviation_square_sum_scale(x, y, c, m);
}

/// Sums of squared deviations scale by `c * c` when the deviations scale by
/// `c`.
proof fn lemma_deviation_square_sum_scale(x: Seq<u64>, y: Seq<u64>, c: int, i: int)
    requires
        0 <= i <= x.len(),
        forall|j: int| 0 <= j < x.len() ==> #[trigger] scaled_deviation(y, j) == c * scaled_deviation(
            x,
            j,
        ),
    ensures
        deviation_square_sum(y, i) == c * c * deviation_square_sum(x, i),
    decreases i,
{
    if i > 0 {
        lemma_deviation_square_sum_scale(x, y, c, i - 1);
        let d = scaled_deviation(x, i - 1);
        let p = deviation_square_sum(x, i - 1);
        assert(scaled_deviation(y, i - 1) == c * d);
        assert(c * c * p + (c * d) * (c * d) == c * c * (p + d * d)) by (nonlinear_arith);
    }
}

/// Sum of the squares of all values of `s`.
pub open spec fn square_total(s: Seq<u64>) -> int {
    square_sum(s, s.len() as int)
}

/// Sums over a concatenation split into sums over its two parts.
pub proof fn lemma_sums_of_concatenation(x: Seq<u64>, y: Seq<u64>)
    ensures
        total(x + y) == total(x) + total(y),
        square_total(x + y) == square_total(x) + square_total(y),
{
    lemma_prefix_sums_of_concatenation(x, y, y.len() as int);
}

proof fn lemma_prefix_sums_of_concatenation(x: Seq<u64>, y: Seq<u64>, j: int)
    requires
        0 <= j <= y.len(),
    ensures
        prefix_sum(x + y, x.len() + j) == total(x) + prefix_sum(y, j),
        square_sum(x + y, x.len() + j) == square_total(x) + square_sum(y, j),
    decreases j,
{
    if j > 0 {
        lemma_prefix_sums_of_concatenation(x, y, j - 1);
        assert((x + y)[x.len() + j - 1] == y[j - 1]);
    } else {
        lemma_prefix_sums_of_prefix(x, y, x.len() as int);
    }
}

proof fn lemma_prefix_sums_of_prefix(x: Seq<u64>, y: Seq<u64>, i: int)
    requires
        0 <= i <= x.len(),
    ensures
        prefix_sum(x + y, i) == prefix_sum(x, i),
        square_sum(x + y, i) == square_sum(x, i),
    decreases i,
{
    if i > 0 {
        lemma_prefix_sums_of_prefix(x, y, i - 1);
        assert((x + y)[i - 1] == x[i - 1]);
    }
}

/// Expansion of a partial sum of squared scaled deviations over the plain
/// sums of the samples and of their squares.
proof fn lemma_deviation_square_sum_expanded(x: Seq<u64>, i: int)
    requires
        0 <= i <= x.len(),
    ensures
        deviation_square_sum(x, i) == x.len() * x.len() * square_sum(x, i) - 2 * x.len() * total(x)
            * prefix_sum(x, i) + i * total(x) * total(x),
    decreases i,
{
    if i > 0 {
        lemma_deviation_square_sum_expanded(x, i - 1);
        let m = x.len() as int;
        let t = total(x);
        let e = x[i - 1] as int;
        let q = square_sum(x, i - 1);
        let p = prefix_sum(x, i - 1);
        assert((m * m * q - 2 * m * t * p + (i - 1) * t * t) + (m * e - t) * (m * e - t) == m * m * (
        q + e * e) - 2 * m * t * (p + e) + i * t * t) by (nonlinear_arith);
    } else {
        let m = x.len() as int;
        let t = total(x);
        assert(m * m * 0 - 2 * m * t * 0 + 0 * t * t == 0) by (nonlinear_arith);
    }
}

/// The Bessel-corrected variance that running sums give, with numerator
/// `m * (sum of squares) - sum * sum` and denominator `m * (m - 1)`, is the
/// variance of the samples: both fractions differ by a factor `m` above and
/// below.
pub proof fn lemma_corrected_variance_from_sums(x: Seq<u64>)
    ensures
        corrected_variance_num(x) == x.len() * (x.len() * square_total(x) - total(x) * total(x)),
        corrected_variance_den(x.len() as int) == x.len() * (x.len() * (x.len() - 1)),
        x.len() > 0 ==> total(x) * total(x) <= x.len() * square_total(x),
{
    let m = x.len() as int;
    let t = total(x);
    let q = square_total(x);
    lemma_deviation_square_sum_expanded(x, m);
    assert(m * m * q - 2 * m * t * t + m * t * t == m * (m * q - t * t)) by (nonlinear_arith);
    assert(m * m * (m - 1) == m * (m * (m - 1))) by (nonlinear_arith);
    lemma_deviation_square_sum_monotonic(x, 0, m);
    if m > 0 {
        assert(t * t <= m * q) by (nonlinear_arith)
            requires
                m > 0,
                m * (m * q - t * t) >= 0,
        ;
    }
}

/// Merging two batches in either order gives the same count, sum, sum of
/// squares and corrected variance: the reduction of parallel replications
/// does not depend on the order in which their batches are combined.
pub proof fn lemma_merge_order_independent(x: Seq<u64>, y: Seq<u64>)
    ensures
        (x + y).len() == (y + x).len(),
        total(x + y) == total(y + x),
        square_total(x + y) == square_total(y + x),
        corrected_variance_num(x + y) == corrected_variance_num(y + x),
{
    lemma_sums_of_concatenation(x, y);
    lemma_sums_of_concatenation(y, x);
    lemma_corrected_variance_from_sums(x + y);
    lemma_corrected_variance_from_sums(y + x);
}

/// Running count, sum and sum of squares of a batch of samples. Two batches
/// merge into the batch of all their samples, so partial results of parallel
/// replications can be combined in any grouping.
pub struct BatchSums {
    count: u64,
    sum: u128,
    sum_squares: u128,
    samples: Ghost<Seq<u64>>,
}

impl View for BatchSums {
    type V = Seq<u64>;

    closed spec fn view(&self) -> Seq<u64> {
        self.samples@
    }
}

impl BatchSums {
    #[verifier::type_invariant]
    spec fn well_formed(self) -> bool {
        &&& self.count == self.samples@.len()
        &&& self.sum == total(self.samples@)
        &&& self.sum_squares == square_total(self.samples@)
    }

    /// The batch without samples.
    pub fn new() -> (r: Self)
        ensures
            r@ == Seq::<u64>::empty(),
    {
        BatchSums { count: 0, sum: 0, sum_squares: 0, samples: Ghost(Seq::empty()) }
    }

    /// The batch of one sample.
    pub fn of_sample(x: u64) -> (r: Self)
        ensures
            r@ == seq![x],
    {
        let v = x as u128;
        assert(v * v <= 0xffff_ffff_ffff_ffffu128 * 0xffff_ffff_ffff_ffffu128) by (nonlinear_arith)
            requires
                v <= 0xffff_ffff_ffff_ffffu128,
        ;
        let ghost s = seq![x];
        assert(total(s) == x) by {
            reveal_with_fuel(prefix_sum, 2);
        }
        assert(square_total(s) == x * x) by {
            reveal_with_fuel(square_sum, 2);
        }
        BatchSums { count: 1, sum: v, sum_squares: v * v, samples: Ghost(s) }
    }

    /// The batch of the samples of `self` followed by those of `other`, or
    /// `Overflow` when one of its running sums does not fit.
    pub fn merge(&self, other: &Self) -> (r: Result<Self, StatError>)
        ensures
            r is Err <==> (self@.len() + other@.len() > u64::MAX || total(self@) + total(other@)
                > u128::MAX || square_total(self@) + square_total(other@) > u128::MAX),
            r is Err ==> r == Err::<Self, StatError>(StatError::Overflow),
            r matches Ok(b) ==> b@ == self@ + other@,
    {
        proof {
            use_type_invariant(self);
            use_type_invariant(other);
            lemma_sums_of_concatenation(self@, other@);
        }
        let count = match self.count.checked_add(other.count) {
            None => return Err(StatError::Overflow),
            Some(c) => c,
        };
        let sum = match self.sum.checked_add(other.sum) {
            None => return Err(StatError::Overflow),
            Some(s) => s,
        };
        let sum_squares = match self.sum_squares.checked_add(other.sum_squares) {
            None => return Err(StatError::Overflow),
            Some(q) => q,
        };
        Ok(BatchSums { count, sum, sum_squares, samples: Ghost(self@ + other@) })
    }

    /// Number of samples.
    pub fn count(&self) -> (r: u64)
        ensures
            r == self@.len(),
    {
        proof {
            use_type_invariant(self);
        }
        self.count
    }

    /// Mean of the samples, as their sum over their count.
    pub fn mean(&self) -> (r: Result<Ratio, StatError>)
        ensures
            self@.len() == 0 ==> r == Err::<Ratio, StatError>(StatError::DivisionUndefined),
            self@.len() > 0 ==> r == Ok::<Ratio, StatError>(
                Ratio { num: total(self@) as u128, den: self@.len() as u128 },
            ),
    {
        proof {
            use_type_invariant(self);
        }
        if self.count == 0 {
            Err(StatError::DivisionUndefined)
        } else {
            Ok(Ratio { num: self.sum, den: self.count as u128 })
        }
    }

    /// Bessel-corrected variance of the samples from the running sums:
    /// `(m * (sum of squares) - sum * sum) / (m * (m - 1))` for `m` samples.
    pub fn corrected_variance(&self) -> (r: Result<Ratio, StatError>)
        ensures
            self@.len() < 2 ==> r == Err::<Ratio, StatError>(StatError::InsufficientSamples),
            self@.len() >= 2 ==> (r == Err::<Ratio, StatError>(StatError::Overflow) <==> self@.len()
                * square_total(self@) > u128::MAX),
            self@.len() >= 2 && self@.len() * square_total(self@) <= u128::MAX ==> r == Ok::<
                Ratio,
                StatError,
            >(
                Ratio {
                    num: (self@.len() * square_total(self@) - total(self@) * total(self@)) as u128,
                    den: (self@.len() * (self@.len() - 1)) as u128,
                },
            ),
    {
        proof {
            use_type_invariant(self);
            lemma_corrected_variance_from_sums(self@);
        }
        if self.count < 2 {
            return Err(StatError::InsufficientSamples);
        }
        let m = self.count as u128;
        let scaled = match m.checked_mul(self.sum_squares) {
            None => return Err(StatError::Overflow),
            Some(v) => v,
        };
        let square = self.sum * self.sum;
        assert(m * (m - 1) <= 0xffff_ffff_ffff_ffffu128 * 0xffff_ffff_ffff_ffffu128) by (nonlinear_arith)
            requires
                2 <= m <= 0xffff_ffff_ffff_ffffu128,
        ;
        Ok(Ratio { num: scaled - square, den: m * (m - 1) })
    }
}

} // verus!
