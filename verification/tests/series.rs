use graphs::formal_series::FormalSeries;
use graphs::formal_series::FormalSeriesAdd;
use graphs::formal_series::FormalSeriesAlways;
use graphs::formal_series::FormalSeriesDiv;
use graphs::formal_series::FormalSeriesMul;
use graphs::formal_series::FormalSeriesNegation;
use graphs::formal_series::FormalSeriesPolynomial;
use graphs::formal_series::FormalSeriesRing;
use graphs::polynomial::Polynomial;
use graphs::ring::PrimeResidue;

fn poly(coefficients: &[u64]) -> FormalSeriesPolynomial<PrimeResidue> {
    FormalSeriesPolynomial::new(Polynomial::new(coefficients.to_vec()))
}

fn first<S: FormalSeries<PrimeResidue>>(series: &mut S, ring: &PrimeResidue, count: usize) -> Vec<u64> {
    (0..count).map(|n| series.at(n, ring) % ring.modulo()).collect()
}

#[test]
fn constant_series_repeats_its_value() {
    let ring = PrimeResidue::new(7);
    let mut threes: FormalSeriesAlways<PrimeResidue> = FormalSeriesAlways::new(3);
    assert_eq!(threes.at(5, &ring), 3);
    assert_eq!(threes.computed_prefix.coefficients, vec![3, 3, 3, 3, 3, 3]);
    assert_eq!(threes.at(0, &ring), 3);
    assert_eq!(threes.computed_prefix.coefficients.len(), 6);
}

#[test]
fn series_of_a_polynomial_goes_on_with_zeros() {
    let ring = PrimeResidue::new(7);
    let mut p = poly(&[4, 0, 5]);
    assert_eq!(first(&mut p, &ring, 5), vec![4, 0, 5, 0, 0]);
}

#[test]
fn sum_and_negative_work_place_by_place() {
    let ring = PrimeResidue::new(7);
    let mut sum = FormalSeriesAdd::new(poly(&[4, 5, 6]), FormalSeriesAlways::new(3), &ring);
    assert_eq!(first(&mut sum, &ring, 4), vec![0, 1, 2, 3]);
    let mut negative = FormalSeriesNegation::new(poly(&[1, 0, 6]), &ring);
    assert_eq!(first(&mut negative, &ring, 4), vec![6, 0, 1, 0]);
}

#[test]
fn product_is_the_convolution() {
    let ring = PrimeResidue::new(7);
    let mut square = FormalSeriesMul::new(poly(&[1, 1]), poly(&[1, 1]), &ring);
    assert_eq!(first(&mut square, &ring, 5), vec![1, 2, 1, 0, 0]);
    let mut shifted = FormalSeriesMul::new(poly(&[0, 1]), FormalSeriesAlways::new(2), &ring);
    assert_eq!(first(&mut shifted, &ring, 4), vec![0, 2, 2, 2]);
    let mut wide = FormalSeriesMul::new(poly(&[3, 4]), poly(&[5, 6, 2]), &ring);
    assert_eq!(first(&mut wide, &ring, 5), vec![1, 3, 2, 1, 0]);
}

#[test]
fn quotient_undoes_the_product() {
    let ring = PrimeResidue::new(7);
    // 1 / (1 + x) = 1 - x + x^2 - ...
    let mut alternating = FormalSeriesDiv::new(poly(&[1]), poly(&[1, 1]), &ring);
    assert_eq!(first(&mut alternating, &ring, 6), vec![1, 6, 1, 6, 1, 6]);
    // (1 + 2x + x^2) / (1 + x) = 1 + x
    let mut back = FormalSeriesDiv::new(poly(&[1, 2, 1]), poly(&[1, 1]), &ring);
    assert_eq!(first(&mut back, &ring, 5), vec![1, 1, 0, 0, 0]);
    // 1 / (1 - x) = 1 + x + x^2 + ...
    let mut ones = FormalSeriesDiv::new(poly(&[1]), poly(&[1, 6]), &ring);
    assert_eq!(first(&mut ones, &ring, 5), vec![1, 1, 1, 1, 1]);
    // with a leading coefficient other than one: 3 / (2 + x)
    let mut scaled = FormalSeriesDiv::new(poly(&[3]), poly(&[2, 1]), &ring);
    let q = first(&mut scaled, &ring, 4);
    let mut check = FormalSeriesMul::new(poly(&q.clone()), poly(&[2, 1]), &ring);
    assert_eq!(first(&mut check, &ring, 4), vec![3, 0, 0, 0]);
}

#[test]
fn ring_of_series_builds_the_series() {
    let series = FormalSeriesRing::new(PrimeResidue::new(7));
    let mut zero = series.zero();
    assert_eq!(first(&mut zero, &series.ring, 3), vec![0, 0, 0]);
    let mut one = series.one();
    assert_eq!(first(&mut one, &series.ring, 3), vec![1, 1, 1]);
    let mut sum = series.add(series.one(), poly(&[1, 2]));
    assert_eq!(first(&mut sum, &series.ring, 3), vec![2, 3, 1]);
    let mut product = series.multiply(series.one(), series.one());
    assert_eq!(first(&mut product, &series.ring, 4), vec![1, 2, 3, 4]);
    let mut negative = series.negate(series.one());
    assert_eq!(first(&mut negative, &series.ring, 2), vec![6, 6]);
    // the series of ones divided by itself
    let mut unit = series.inverse(series.one());
    assert_eq!(first(&mut unit, &series.ring, 4), vec![1, 0, 0, 0]);
}
