use photondb::fraction::Fraction;
use photondb::wide::{Rank, Wide};

fn trimmed(w: &Wide) -> Vec<u64> {
    let mut v = w.limbs().clone();
    while v.last() == Some(&0) {
        v.pop();
    }
    v
}

#[test]
fn wide_from_integers() {
    assert_eq!(trimmed(&Wide::zero()), Vec::<u64>::new());
    assert_eq!(trimmed(&Wide::from_u64(7)), vec![7]);
    assert_eq!(trimmed(&Wide::from_u128((3u128 << 64) + 5)), vec![5, 3]);
    assert_eq!(trimmed(&Wide::from_limbs(vec![1, 2, 0, 0])), vec![1, 2]);
}

#[test]
fn wide_plus_carries() {
    let a = Wide::from_u64(u64::MAX);
    let b = Wide::from_u64(1);
    assert_eq!(trimmed(&a.plus(&b)), vec![0, 1]);
    let c = Wide::from_u128(u128::MAX);
    assert_eq!(trimmed(&c.plus(&c)), vec![u64::MAX - 1, u64::MAX, 1]);
}

#[test]
fn wide_times_word() {
    let a = Wide::from_u64(u64::MAX);
    assert_eq!(trimmed(&a.times_word(u64::MAX)), vec![1, u64::MAX - 1]);
    assert_eq!(trimmed(&a.times_word(0)), Vec::<u64>::new());
    assert_eq!(trimmed(&Wide::from_u64(6).times_word(7)), vec![42]);
}

#[test]
fn wide_times() {
    let a = Wide::from_u128(u128::MAX);
    // (2^128 - 1)^2 = 2^256 - 2^129 + 1
    assert_eq!(trimmed(&a.times(&a)), vec![1, 0, u64::MAX - 1, u64::MAX]);
    let b = Wide::from_u128(1u128 << 64);
    assert_eq!(trimmed(&b.times(&Wide::from_u64(3))), vec![0, 3]);
    assert_eq!(trimmed(&b.times(&Wide::zero())), Vec::<u64>::new());
}

#[test]
fn wide_abs_diff_borrows() {
    let a = Wide::from_u128(1u128 << 64);
    let b = Wide::from_u64(1);
    assert_eq!(trimmed(&a.abs_diff(&b)), vec![u64::MAX]);
    assert_eq!(trimmed(&b.abs_diff(&a)), vec![u64::MAX]);
    assert_eq!(trimmed(&a.abs_diff(&a)), Vec::<u64>::new());
}

#[test]
fn wide_rank_ignores_leading_zeros() {
    let a = Wide::from_limbs(vec![5, 0, 0]);
    let b = Wide::from_limbs(vec![5]);
    let c = Wide::from_limbs(vec![4, 1]);
    assert_eq!(a.rank(&b), Rank::Equal);
    assert_eq!(a.rank(&c), Rank::Less);
    assert_eq!(c.rank(&a), Rank::Greater);
    assert!(Wide::from_limbs(vec![0, 0]).is_zero());
    assert!(!c.is_zero());
}

fn frac(negative: bool, num: u128, den: u128) -> Fraction {
    Fraction::from_u128(negative, num, den)
}

#[test]
fn fraction_rank_cross_multiplies() {
    assert_eq!(frac(false, 1, 2).rank(&frac(false, 2, 4)), Rank::Equal);
    assert_eq!(frac(false, 1, 3).rank(&frac(false, 1, 2)), Rank::Less);
    assert_eq!(frac(true, 1, 3).rank(&frac(true, 1, 2)), Rank::Greater);
    assert_eq!(frac(true, 1, 3).rank(&frac(false, 1, 1000)), Rank::Less);
    assert_eq!(frac(false, 0, 3).rank(&frac(true, 0, 7)), Rank::Equal);
    assert_eq!(frac(false, 0, 3).rank(&frac(true, 1, 7)), Rank::Greater);
}

#[test]
fn fraction_rank_does_not_round() {
    // Two ratios that agree in their first 38 digits.
    let a = frac(false, u128::MAX - 1, u128::MAX);
    let b = frac(false, u128::MAX - 2, u128::MAX - 1);
    assert_eq!(a.rank(&b), Rank::Greater);
    assert_eq!(b.rank(&a), Rank::Less);
}

#[test]
fn fraction_arithmetic() {
    let half = frac(false, 1, 2);
    let third = frac(false, 1, 3);
    assert_eq!(half.plus(&third).rank(&frac(false, 5, 6)), Rank::Equal);
    assert_eq!(half.minus(&third).rank(&frac(false, 1, 6)), Rank::Equal);
    assert_eq!(third.minus(&half).rank(&frac(true, 1, 6)), Rank::Equal);
    assert_eq!(half.times(&third).rank(&frac(false, 1, 6)), Rank::Equal);
    assert_eq!(half.negated().rank(&frac(true, 2, 4)), Rank::Equal);
    assert_eq!(third.inverse().rank(&Fraction::from_u64(3)), Rank::Equal);
    assert_eq!(frac(true, 2, 5).inverse().rank(&frac(true, 5, 2)), Rank::Equal);
    assert!(half.minus(&half).is_zero());
    assert!(!half.is_zero());
    assert!(frac(true, 1, 2).is_negative());
}
