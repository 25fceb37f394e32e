//! Confidence lattice tests (confidences in millionths).

use qalam::conf::Conf;

fn c(m: u32) -> Conf {
    Conf::from_millionths(m).unwrap()
}

#[test]
fn construct_in_range() {
    assert_eq!(c(500_000).millionths(), 500_000);
    assert!(Conf::from_millionths(1_100_000).is_none());
    assert!(Conf::from_millionths(1_000_000).is_some());
    assert!(Conf::from_millionths(0).is_some());
}

#[test]
fn clamp_handles_out_of_range_and_nan() {
    assert_eq!(Conf::clamp_millionths(2_000_000), Conf::one());
    assert_eq!(Conf::clamp_millionths(u32::MAX), Conf::one());
    assert_eq!(Conf::clamp_millionths(0), Conf::zero());
}

#[test]
fn and_combination() {
    assert_eq!(c(500_000).and(c(400_000)).millionths(), 200_000);
}

#[test]
fn or_combination() {
    assert_eq!(c(500_000).or(c(500_000)).millionths(), 750_000);
}

#[test]
fn and_is_commutative() {
    let a = c(300_000);
    let b = c(700_000);
    assert_eq!(a.and(b), b.and(a));
}

#[test]
fn or_is_commutative() {
    let a = c(300_000);
    let b = c(700_000);
    assert_eq!(a.or(b), b.or(a));
}

#[test]
fn and_with_one_is_identity() {
    let a = c(420_000);
    assert_eq!(a.and(Conf::one()), a);
}

#[test]
fn or_with_zero_is_identity() {
    let a = c(420_000);
    assert_eq!(a.or(Conf::zero()), a);
}

#[test]
fn total_ordering() {
    let mut xs = vec![c(500_000), c(100_000), c(900_000)];
    xs.sort();
    assert_eq!(xs, vec![c(100_000), c(500_000), c(900_000)]);
}

// --- Further cases ---------------------------------------------------------

#[test]
fn and_rounds_down_to_a_millionth() {
    // 0.333333 * 0.333333 = 0.111110888889 -> 0.111110
    assert_eq!(c(333_333).and(c(333_333)).millionths(), 111_110);
}

#[test]
fn or_rounds_the_complement_product_down() {
    // 1 - (0.666667 * 0.666667) = 1 - 0.444444...; product floors to 0.444444
    assert_eq!(c(333_333).or(c(333_333)).millionths(), 555_556);
}

#[test]
fn combinations_stay_within_bounds() {
    for &(a, b) in &[(0, 0), (1, 999_999), (250_000, 1_000_000), (999_999, 999_999)] {
        let x = c(a);
        let y = c(b);
        assert!(x.and(y).millionths() <= a.min(b));
        let o = x.or(y).millionths();
        assert!(o >= a.max(b) && o <= 1_000_000);
    }
}

#[test]
fn zero_and_one_are_the_ends() {
    assert_eq!(Conf::zero().millionths(), 0);
    assert_eq!(Conf::one().millionths(), 1_000_000);
    assert_eq!(c(700_000).and(Conf::zero()), Conf::zero());
    assert_eq!(c(700_000).or(Conf::one()), Conf::one());
}
