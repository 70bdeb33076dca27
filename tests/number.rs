use rational_roots::number::{gcd, Number};

#[test]
fn test_simplify() {
    assert_eq!(Number::new(9, 3, true), Number::new(3, 1, true));
    assert_eq!(Number::new(8, 16, true), Number::new(1, 2, true));
    assert_eq!(Number::new(153, 3, true), Number::new(51, 1, true));
}

#[test]
fn test_division() {}

#[test]
fn test_multiplication() {
    assert_eq!(Number::new(4, 1, true).mul_int(4), Number::new(16, 1, true));
    assert_eq!(
        Number::new(4, 1, true).mul(Number::new(4, 1, true)),
        Number::new(16, 1, true)
    );
    assert_eq!(
        Number::new(4, 1, false).mul(Number::new(4, 1, true)),
        Number::new(16, 1, false)
    );
    assert_eq!(
        Number::new(4, 1, true).mul(Number::new(4, 1, false)),
        Number::new(16, 1, false)
    );
    assert_eq!(
        Number::new(4, 2, true).mul(Number::new(3, 2, false)),
        Number::new(3, 1, false)
    );
    assert_eq!(
        Number::new(2, 1, true).mul(Number::new(225, 1, true)),
        Number::new(450, 1, true)
    );
}

#[test]
fn test_pow() {
    assert_eq!(Number::new(4, 1, true).pow(2), Number::new(16, 1, true));
    assert_eq!(Number::new(1, 1, true).pow(2), Number::new(1, 1, true));
    assert_eq!(Number::new(4, 3, false).pow(3), Number::new(64, 27, false));
}

#[test]
fn new_reduces_fields() {
    let n = Number::new(8, 16, false);
    assert_eq!((n.numerator, n.denominator, n.positive), (1, 2, false));
    let z = Number::new(0, 7, true);
    assert_eq!((z.numerator, z.denominator), (0, 1));
}

#[test]
fn new_is_idempotent() {
    for &(n, d, s) in &[(12u32, 18u32, true), (7, 5, false), (0, 9, true), (100, 4, false)] {
        let r = Number::new(n, d, s);
        let again = Number::new(r.numerator, r.denominator, s);
        assert_eq!(
            (again.numerator, again.denominator, again.positive),
            (r.numerator, r.denominator, r.positive)
        );
    }
}

#[test]
fn try_new_rejects_zero_denominator() {
    assert!(Number::try_new(3, 0, true).is_none());
    let r = Number::try_new(6, 4, true).unwrap();
    assert_eq!((r.numerator, r.denominator), (3, 2));
}

#[test]
fn simplify_in_place() {
    let mut n = Number { numerator: 30, denominator: 42, positive: false };
    n.simplify();
    assert_eq!((n.numerator, n.denominator, n.positive), (5, 7, false));
}

#[test]
fn gcd_values() {
    assert_eq!(gcd(12, 18), 6);
    assert_eq!(gcd(7, 0), 7);
    assert_eq!(gcd(0, 5), 5);
    assert_eq!(gcd(17, 5), 1);
}

#[test]
fn add_with_signs() {
    let r = Number::new(1, 2, true).add(Number::new(1, 3, true));
    assert_eq!((r.numerator, r.denominator, r.positive), (5, 6, true));
    let r = Number::new(1, 2, true).add(Number::new(3, 4, false));
    assert_eq!((r.numerator, r.denominator, r.positive), (1, 4, false));
    let r = Number::new(2, 3, false).add(Number::new(2, 3, true));
    assert_eq!((r.numerator, r.denominator, r.positive), (0, 1, true));
}

#[test]
fn results_are_in_lowest_terms() {
    let a = Number::new(5, 6, true);
    let b = Number::new(7, 10, false);
    for r in [a.add(b), a.mul(b), a.div(b)] {
        assert_eq!(gcd(r.numerator, r.denominator), 1);
    }
    let s = a.add(b);
    assert_eq!((s.numerator, s.denominator, s.positive), (2, 15, true));
    let p = a.mul(b);
    assert_eq!((p.numerator, p.denominator, p.positive), (7, 12, false));
    let q = a.div(b);
    assert_eq!((q.numerator, q.denominator, q.positive), (25, 21, false));
}

#[test]
fn division_sign_and_zero() {
    let q = Number::new(3, 4, false).div(Number::new(9, 2, false));
    assert_eq!((q.numerator, q.denominator, q.positive), (1, 6, true));
    assert!(Number::new(1, 2, true).checked_div(Number::new(0, 1, true)).is_none());
}

#[test]
fn overflow_is_reported() {
    let big = Number::new(u32::MAX, 1, true);
    assert!(big.checked_add(big).is_none());
    assert!(big.checked_mul(Number::new(2, 1, true)).is_none());
    assert!(Number::new(2, 1, true).checked_pow(32).is_none());
    assert_eq!(Number::new(2, 1, true).checked_pow(31), Some(Number::new(1 << 31, 1, true)));
    let half = Number::new(u32::MAX, 2, true);
    let whole = half.add(half);
    assert_eq!((whole.numerator, whole.denominator), (u32::MAX, 1));
}

#[test]
fn pow_edges() {
    let r = Number::new(3, 2, false).pow(0);
    assert_eq!((r.numerator, r.denominator, r.positive), (1, 1, true));
    let r = Number::new(3, 2, false).pow(-3);
    assert_eq!((r.numerator, r.denominator, r.positive), (1, 1, true));
    let r = Number::new(3, 2, false).pow(2);
    assert_eq!((r.numerator, r.denominator, r.positive), (9, 4, true));
}

#[test]
fn factors_lists_signed_divisors() {
    assert_eq!(Number::new(12, 1, true).factors(), vec![1, -1, 2, -2, 3, -3, 4, -4, 6, -6, 12, -12]);
    assert_eq!(Number::new(1, 1, true).factors(), vec![1, -1]);
    assert_eq!(Number::new(0, 1, true).factors(), vec![0, 0]);
    assert_eq!(Number::new(7, 3, true).factors(), vec![1, -1, 7, -7]);
}

#[test]
fn predicates() {
    assert!(Number::new(4, 2, true).is_integer());
    assert!(!Number::new(3, 2, true).is_integer());
    assert!(Number::new(3, 2, true).not_zero());
    assert!(!Number::new(0, 2, false).not_zero());
}

#[test]
fn integer_scaling() {
    let r = Number::new(3, 4, true).mul_int(2);
    assert_eq!((r.numerator, r.denominator), (3, 2));
    let r = Number::new(3, 4, false).div_int(3);
    assert_eq!((r.numerator, r.denominator, r.positive), (1, 4, false));
}

#[test]
fn equality_and_order_use_the_sign() {
    assert_ne!(Number::new(1, 2, true), Number::new(1, 2, false));
    assert_eq!(Number::new(0, 1, true), Number::new(0, 3, false));
    assert!(Number::new(1, 2, false) < Number::new(1, 3, true));
    assert!(Number::new(1, 2, false) < Number::new(1, 3, false));
    assert!(Number::new(3, 2, true) > Number::new(4, 3, true));
    assert_eq!(Number::from(5u32), Number::new(10, 2, true));
}

#[test]
fn add_assign_in_place() {
    let mut n = Number::new(1, 6, true);
    n.add_assign(Number::new(1, 3, false));
    assert_eq!((n.numerator, n.denominator, n.positive), (1, 6, false));
}
