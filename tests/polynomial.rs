use rational_roots::number::Number;
use rational_roots::polynomial::{PolynomialFunction, Term};

fn sorted(mut v: Vec<Number>) -> Vec<Number> {
    v.sort_by(|a, b| a.partial_cmp(b).unwrap());
    v
}

#[test]
fn types_poly_new() {
    assert_eq!(PolynomialFunction::new(Vec::new()).terms.len(), 0);
}

#[test]
fn types_simplify() {
    let terms = vec![
        Term::new(Number::new(5, 1, true), 0),
        Term::new(Number::new(10, 1, true), 0),
        Term::new(Number::new(4, 2, true), 1),
        Term::new(Number::new(4, 1, true), 1),
        Term::new(Number::new(4, 2, true), 2),
        Term::new(Number::new(4, 2, true), 3),
        Term::new(Number::new(4, 2, false), 3),
    ];

    let mut func = PolynomialFunction::new(terms);
    func.simplify();

    assert_eq!(
        func.terms,
        vec![
            Term::new(Number::new(2, 1, true), 2),
            Term::new(Number::new(6, 1, true), 1),
            Term::new(Number::new(15, 1, true), 0),
        ]
    );
}

#[test]
fn types_evaluate() {
    let terms = vec![
        Term::new(Number::new(15, 1, true), 0),
        Term::new(Number::new(6, 1, true), 1),
        Term::new(Number::new(2, 1, true), 2),
    ];

    let func = PolynomialFunction::new(terms);

    assert_eq!(func.evaluate(Number::from(15u32)), Some(Number::from(555u32)));
}

#[test]
fn mod_poly_new() {
    assert_eq!(PolynomialFunction::new(Vec::new()).terms.len(), 0);
}

#[test]
fn mod_simplify() {
    let terms = vec![
        Term::new(Number::new(5, 1, true), 0),
        Term::new(Number::new(10, 1, true), 0),
        Term::new(Number::new(4, 2, true), 1),
        Term::new(Number::new(4, 1, true), 1),
        Term::new(Number::new(4, 2, true), 2),
        Term::new(Number::new(4, 2, true), 3),
        Term::new(Number::new(4, 2, false), 3),
    ];

    let func = PolynomialFunction::new(terms);

    assert_eq!(
        func.terms,
        vec![
            Term::new(Number::new(2, 1, true), 2),
            Term::new(Number::new(6, 1, true), 1),
            Term::new(Number::new(15, 1, true), 0),
        ]
    );
}

#[test]
fn mod_evaluate() {
    let terms = vec![
        Term::new(Number::new(15, 1, true), 0),
        Term::new(Number::new(6, 1, true), 1),
        Term::new(Number::new(2, 1, true), 2),
    ];

    let func = PolynomialFunction::new(terms);

    assert_eq!(func.evaluate(Number::from(15u32)), Some(Number::from(555u32)));
}

#[test]
fn find_roots() {
    let terms = vec![
        Term::new(Number::new(1, 1, true), 2),
        Term::new(Number::new(5, 1, false), 1),
        Term::new(Number::new(6, 1, true), 0),
    ];

    let func = PolynomialFunction::new(terms);
    let roots = sorted(func.roots());

    assert_eq!(roots, vec![Number::new(2, 1, true), Number::new(3, 1, true)])
}

#[test]
fn find_roots_fractional() {
    let terms = vec![
        Term::new(Number::new(1, 1, true), 3),
        Term::new(Number::new(9, 2, false), 2),
        Term::new(Number::new(7, 2, true), 1),
        Term::new(Number::new(3, 1, true), 0),
    ];

    let func = PolynomialFunction::new(terms);
    let roots = sorted(func.roots());
    assert_eq!(
        roots,
        vec![
            Number::new(1, 2, false),
            Number::new(2, 1, true),
            Number::new(3, 1, true)
        ]
    )
}

#[test]
fn canonical_form_orders_and_merges() {
    let terms = vec![
        Term::new(Number::new(1, 3, true), 1),
        Term::new(Number::new(2, 1, false), 4),
        Term::new(Number::new(1, 6, true), 1),
        Term::new(Number::new(7, 1, true), -1),
        Term::new(Number::new(3, 1, true), 0),
    ];
    let func = PolynomialFunction::new(terms);
    assert_eq!(
        func.terms,
        vec![
            Term::new(Number::new(2, 1, false), 4),
            Term::new(Number::new(1, 2, true), 1),
            Term::new(Number::new(3, 1, true), 0),
            Term::new(Number::new(7, 1, true), -1),
        ]
    );
    let degrees: Vec<i32> = func.terms.iter().map(|t| t.degree).collect();
    assert_eq!(degrees, vec![4, 1, 0, -1]);
}

#[test]
fn all_terms_cancel() {
    let terms = vec![
        Term::new(Number::new(3, 1, true), 2),
        Term::new(Number::new(3, 1, false), 2),
    ];
    assert!(PolynomialFunction::new(terms).terms.is_empty());
}

#[test]
fn evaluate_exact_fraction() {
    // x^2 - 1/2 at x = 1/2 gives -1/4.
    let terms = vec![
        Term::new(Number::new(1, 1, true), 2),
        Term::new(Number::new(1, 2, false), 0),
    ];
    let func = PolynomialFunction::new(terms);
    let v = func.evaluate(Number::new(1, 2, true)).unwrap();
    assert_eq!((v.numerator, v.denominator, v.positive), (1, 4, false));
    assert_eq!(PolynomialFunction::new(Vec::new()).evaluate(Number::from(9u32)), Some(Number::from(0u32)));
}

#[test]
fn evaluate_reports_overflow() {
    let terms = vec![Term::new(Number::new(1, 1, true), 40)];
    let func = PolynomialFunction::new(terms);
    assert_eq!(func.evaluate(Number::from(2u32)), None);
}

#[test]
fn term_evaluate_value() {
    let t = Term::new(Number::new(3, 2, false), 3);
    let v = t.evaluate(Number::new(2, 1, true)).unwrap();
    assert_eq!((v.numerator, v.denominator, v.positive), (12, 1, false));
}

#[test]
fn no_roots_for_empty_polynomial() {
    assert!(PolynomialFunction::new(Vec::new()).roots().is_empty());
}

#[test]
fn roots_of_constant_polynomial() {
    let func = PolynomialFunction::new(vec![Term::new(Number::new(4, 1, true), 0)]);
    assert!(func.roots().is_empty());
}

#[test]
fn roots_with_negative_and_repeated() {
    // (x - 1)^2 (x + 2) = x^3 - 3x + 2
    let terms = vec![
        Term::new(Number::new(1, 1, true), 3),
        Term::new(Number::new(3, 1, false), 1),
        Term::new(Number::new(2, 1, true), 0),
    ];
    let roots = sorted(PolynomialFunction::new(terms).roots());
    assert_eq!(roots, vec![Number::new(2, 1, false), Number::new(1, 1, true)]);
}

#[test]
fn roots_with_non_unit_leading_coefficient() {
    // 2x^2 - 3x + 1 = (2x - 1)(x - 1)
    let terms = vec![
        Term::new(Number::new(2, 1, true), 2),
        Term::new(Number::new(3, 1, false), 1),
        Term::new(Number::new(1, 1, true), 0),
    ];
    let roots = sorted(PolynomialFunction::new(terms).roots());
    assert_eq!(roots, vec![Number::new(1, 2, true), Number::new(1, 1, true)]);
}

#[test]
fn try_new_checks_denominators_and_overflow() {
    let bad = vec![Term::new(Number { numerator: 1, denominator: 0, positive: true }, 1)];
    assert!(PolynomialFunction::try_new(bad).is_none());
    let big = Number::new(u32::MAX, 1, true);
    let overflowing = vec![Term::new(big, 2), Term::new(big, 2)];
    assert!(PolynomialFunction::try_new(overflowing).is_none());
    let fine = vec![
        Term::new(Number::new(1, 2, true), 0),
        Term::new(Number::new(1, 2, true), 0),
        Term::new(Number::new(5, 1, true), 3),
    ];
    let p = PolynomialFunction::try_new(fine).unwrap();
    assert_eq!(
        p.terms,
        vec![Term::new(Number::new(5, 1, true), 3), Term::new(Number::new(1, 1, true), 0)]
    );
}
