use corrset::bignum::{bn_add, bn_cmp, bn_from_u128, bn_is_zero, bn_mul, bn_sub, BigNat};
use corrset::bitset::{us_and, us_contains, us_insert, us_members, us_new};
use corrset::combos::all_combinations;
use corrset::corr::{corr_cmp, corr_is_finite, correlation};
use corrset::utils::batched_all;

fn bn_value(b: &BigNat) -> u128 {
    let mut v: u128 = 0;
    for (i, limb) in b.limbs.iter().enumerate() {
        if i >= 2 {
            assert_eq!(*limb, 0, "value does not fit u128");
        } else {
            v |= (*limb as u128) << (64 * i);
        }
    }
    v
}

#[test]
fn test_batched() {
    assert_eq!(
        batched_all(vec![0, 1, 2, 3, 4], 2),
        vec![vec![0, 1], vec![2, 3], vec![4]]
    );
}

#[test]
fn batched_exact_division() {
    assert_eq!(batched_all(vec![7, 8, 9, 10], 2), vec![vec![7, 8], vec![9, 10]]);
    let empty: Vec<Vec<u32>> = Vec::new();
    assert_eq!(batched_all(Vec::<u32>::new(), 3), empty);
}

#[test]
fn bignum_arithmetic_is_exact() {
    let a = bn_from_u128(u128::from(u64::MAX) + 17);
    let b = bn_from_u128(25);
    assert_eq!(bn_value(&bn_add(&a, &b)), u128::from(u64::MAX) + 42);
    assert_eq!(bn_value(&bn_sub(&a, &b)), u128::from(u64::MAX) - 8);
    let c = bn_from_u128(1 << 80);
    let d = bn_from_u128(1 << 20);
    assert_eq!(bn_value(&bn_mul(&c, &d)), 1u128 << 100);
    assert_eq!(bn_cmp(&a, &b), 1);
    assert_eq!(bn_cmp(&b, &a), -1);
    assert_eq!(bn_cmp(&a, &a), 0);
    assert!(bn_is_zero(&bn_from_u128(0)));
    assert!(!bn_is_zero(&a));
}

#[test]
fn correlation_of_identical_sequences_is_positive_unity() {
    // xs == ys == [1, 2, 3]: num = 3*14 - 36 = 6, dx = dy = 6.
    let xs: Vec<u64> = vec![1, 2, 3];
    let ys: Vec<u64> = vec![1, 2, 3];
    let c = correlation(&xs, &ys);
    assert!(!c.neg);
    assert_eq!(bn_value(&c.num), 6);
    assert_eq!(bn_value(&c.dx), 6);
    assert_eq!(bn_value(&c.dy), 6);
    assert!(corr_is_finite(&c));
}

#[test]
fn correlation_symmetry_swaps_variances() {
    let xs: Vec<u64> = vec![3, 1, 4];
    let ys: Vec<u64> = vec![2, 7, 1];
    let a = correlation(&xs, &ys);
    let b = correlation(&ys, &xs);
    assert_eq!(a.neg, b.neg);
    assert_eq!(bn_value(&a.num), bn_value(&b.num));
    assert_eq!(bn_value(&a.dx), bn_value(&b.dy));
    assert_eq!(bn_value(&a.dy), bn_value(&b.dx));
    // The two compare equal.
    assert_eq!(corr_cmp(&a, &b), 0);
}

#[test]
fn correlation_degenerate_on_constant_input() {
    // All ys equal: zero variance, not finite.
    let xs: Vec<u64> = vec![1, 2, 3];
    let ys: Vec<u64> = vec![5, 5, 5];
    let c = correlation(&xs, &ys);
    assert!(!corr_is_finite(&c));
    // A single point is degenerate too.
    let one = correlation(&vec![7], &vec![9]);
    assert!(!corr_is_finite(&one));
    // And so is the empty intersection.
    let none = correlation(&Vec::<u64>::new(), &Vec::<u64>::new());
    assert!(!corr_is_finite(&none));
}

#[test]
fn correlation_orders_by_exact_value() {
    // Perfect positive correlation beats a weaker one, which beats a
    // perfect negative one.
    let up = correlation(&vec![1, 2, 3], &vec![10, 20, 30]);
    let mixed = correlation(&vec![1, 3, 2], &vec![10, 20, 30]);
    let down = correlation(&vec![3, 2, 1], &vec![10, 20, 30]);
    assert_eq!(corr_cmp(&up, &mixed), 1);
    assert_eq!(corr_cmp(&mixed, &down), 1);
    assert_eq!(corr_cmp(&down, &up), -1);
    assert!(down.neg);
}

#[test]
fn coverage_sets_intersect_exactly() {
    let mut a = us_new(130);
    let mut b = us_new(130);
    us_insert(&mut a, 0);
    us_insert(&mut a, 64);
    us_insert(&mut a, 129);
    us_insert(&mut b, 64);
    us_insert(&mut b, 129);
    us_insert(&mut b, 7);
    assert!(us_contains(&a, 64));
    assert!(!us_contains(&a, 7));
    let c = us_and(&a, &b);
    assert_eq!(us_members(&c), vec![64, 129]);
    assert_eq!(us_members(&a), vec![0, 64, 129]);
}

#[test]
fn combinations_are_lexicographic_and_complete() {
    let r = all_combinations(4, 2);
    let expected: Vec<Vec<usize>> = vec![
        vec![0, 1],
        vec![0, 2],
        vec![0, 3],
        vec![1, 2],
        vec![1, 3],
        vec![2, 3],
    ];
    assert_eq!(r, expected);
    assert_eq!(all_combinations(3, 5).len(), 0);
}

#[test]
fn strategy_names_are_published() {
    assert_eq!(corrset::inner_names().len(), 3);
    assert_eq!(corrset::outer_names().len(), 3);
}
