use queue::measures::{corrected_variance, sample_mean, sum, BatchSums, Ratio, StatError};

fn ratio(num: u128, den: u128) -> Ratio {
    Ratio { num, den }
}

fn value(r: Ratio) -> f64 {
    r.num as f64 / r.den as f64
}

#[test]
fn sum_adds_all_values() {
    assert_eq!(sum(&vec![]), 0);
    assert_eq!(sum(&vec![3, 4, 5]), 12);
    assert_eq!(sum(&vec![u64::MAX, u64::MAX]), 2 * (u64::MAX as u128));
}

#[test]
fn sample_mean_is_sum_over_count() {
    assert_eq!(sample_mean(&vec![2, 4, 9]), Ok(ratio(15, 3)));
    assert_eq!(sample_mean(&vec![]), Err(StatError::DivisionUndefined));
}

#[test]
fn corrected_deviation_of_two_samples() {
    let (x1, x2) = (3u64, 10u64);
    let v = corrected_variance(&vec![x1, x2]).unwrap();
    assert_eq!(v, ratio(98, 4));
    let deviation = value(v).sqrt();
    let expected = (x2 - x1) as f64 / 2f64.sqrt();
    assert!((deviation - expected).abs() < 1e-12);
}

#[test]
fn corrected_variance_of_three_samples() {
    // mean 14/3; squared distances sum to 98/3; divided by m - 1 = 2.
    let v = corrected_variance(&vec![1, 4, 9]).unwrap();
    assert_eq!(v.den, 18);
    assert!((value(v) - 49.0 / 3.0).abs() < 1e-12);
}

#[test]
fn corrected_variance_needs_two_samples() {
    assert_eq!(corrected_variance(&vec![]), Err(StatError::InsufficientSamples));
    assert_eq!(corrected_variance(&vec![7]), Err(StatError::InsufficientSamples));
}

#[test]
fn corrected_variance_reports_overflow() {
    assert_eq!(corrected_variance(&vec![0, u64::MAX]), Err(StatError::Overflow));
}

#[test]
fn corrected_variance_ignores_a_shift() {
    let x = corrected_variance(&vec![1, 4, 9]).unwrap();
    let y = corrected_variance(&vec![101, 104, 109]).unwrap();
    assert_eq!(x, y);
}

#[test]
fn corrected_deviation_scales_linearly() {
    let x = corrected_variance(&vec![1, 4, 9]).unwrap();
    let y = corrected_variance(&vec![3, 12, 27]).unwrap();
    assert_eq!(y.num, 9 * x.num);
    assert_eq!(y.den, x.den);
    assert!((value(y).sqrt() - 3.0 * value(x).sqrt()).abs() < 1e-9);
}

fn batch_of(values: &[u64]) -> BatchSums {
    let mut b = BatchSums::new();
    for &v in values {
        b = b.merge(&BatchSums::of_sample(v)).unwrap();
    }
    b
}

#[test]
fn batch_sums_give_the_corrected_variance() {
    let b = batch_of(&[1, 4, 9]);
    assert_eq!(b.count(), 3);
    assert_eq!(b.mean(), Ok(ratio(14, 3)));
    // 3 * 98 - 14 * 14 over 3 * 2
    assert_eq!(b.corrected_variance(), Ok(ratio(98, 6)));
    let direct = corrected_variance(&vec![1, 4, 9]).unwrap();
    assert_eq!(b.corrected_variance().unwrap().num * direct.den, direct.num * 6);
}

#[test]
fn batch_sums_of_two_samples() {
    let b = batch_of(&[3, 10]);
    let v = b.corrected_variance().unwrap();
    assert_eq!(v, ratio(49, 2));
    assert!((value(v).sqrt() - 7.0 / 2f64.sqrt()).abs() < 1e-12);
}

#[test]
fn batch_sums_merge_in_any_order() {
    let left = batch_of(&[2, 7, 1]);
    let right = batch_of(&[8, 8, 3, 5]);
    let a = left.merge(&right).unwrap();
    let b = right.merge(&left).unwrap();
    assert_eq!(a.count(), 7);
    assert_eq!(a.mean(), b.mean());
    assert_eq!(a.corrected_variance(), b.corrected_variance());
    assert_eq!(a.corrected_variance(), batch_of(&[2, 7, 1, 8, 8, 3, 5]).corrected_variance());
}

#[test]
fn batch_sums_errors() {
    assert_eq!(BatchSums::new().mean(), Err(StatError::DivisionUndefined));
    assert_eq!(BatchSums::new().corrected_variance(), Err(StatError::InsufficientSamples));
    assert_eq!(batch_of(&[4]).corrected_variance(), Err(StatError::InsufficientSamples));
    let half = 1u64 << 63;
    let big = batch_of(&[half, half]);
    assert_eq!(big.count(), 2);
    assert_eq!(big.corrected_variance(), Err(StatError::Overflow));
    let huge = BatchSums::of_sample(u64::MAX);
    assert_eq!(huge.merge(&huge).err(), Some(StatError::Overflow));
}
