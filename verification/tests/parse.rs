use curvepng::expr::{check_float_lit, Expr, Monomial, ParseError};

fn eval(e: &Expr, x: f32) -> f32 {
    match e {
        Expr::Literal(m) => {
            let co: f32 = m.co.parse().unwrap();
            let pow: f32 = m.pow.parse().unwrap();
            co * x.powf(pow)
        }
        Expr::Sum(l, r) => eval(l, x) + eval(r, x),
        Expr::Product(l, r) => eval(l, x) * eval(r, x),
    }
}

#[test]
fn decimal_string_is_a_constant_literal() {
    match Expr::from_str("3.25").unwrap() {
        Expr::Literal(m) => {
            assert_eq!(m.co, "3.25");
            assert_eq!(m.pow, "0");
        }
        other => panic!("expected a literal, got {:?}", other),
    }
    match Expr::from_str("-2e-3").unwrap() {
        Expr::Literal(m) => {
            assert_eq!(m.co, "-2e-3");
            assert_eq!(m.pow, "0");
        }
        other => panic!("expected a literal, got {:?}", other),
    }
}

#[test]
fn monomial_defaults() {
    let m = Monomial::from_str("x").unwrap();
    assert_eq!((m.co.as_str(), m.pow.as_str()), ("1", "1"));
    let m = Monomial::from_str("x^3").unwrap();
    assert_eq!((m.co.as_str(), m.pow.as_str()), ("1", "3"));
    let m = Monomial::from_str("2x^3").unwrap();
    assert_eq!((m.co.as_str(), m.pow.as_str()), ("2", "3"));
    let m = Monomial::from_str("2x").unwrap();
    assert_eq!((m.co.as_str(), m.pow.as_str()), ("2", "1"));
}

#[test]
fn plus_splits_before_star() {
    let e = Expr::from_str("1+2*3").unwrap();
    match &e {
        Expr::Sum(l, r) => {
            match l.as_ref() {
                Expr::Literal(m) => {
                    assert_eq!((m.co.as_str(), m.pow.as_str()), ("1", "0"));
                }
                other => panic!("expected a literal, got {:?}", other),
            }
            match r.as_ref() {
                Expr::Product(a, b) => {
                    match a.as_ref() {
                        Expr::Literal(m) => {
                            assert_eq!((m.co.as_str(), m.pow.as_str()), ("2", "0"));
                        }
                        other => panic!("expected a literal, got {:?}", other),
                    }
                    match b.as_ref() {
                        Expr::Literal(m) => {
                            assert_eq!((m.co.as_str(), m.pow.as_str()), ("3", "0"));
                        }
                        other => panic!("expected a literal, got {:?}", other),
                    }
                }
                other => panic!("expected a product, got {:?}", other),
            }
        }
        other => panic!("expected a sum, got {:?}", other),
    }
    assert_eq!(eval(&e, 0.0), 7.0);
    assert_eq!(eval(&e, 17.5), 7.0);
}

#[test]
fn malformed_numbers_are_rejected() {
    assert_eq!(
        Expr::from_str("2q"),
        Err(ParseError::MalformedNumber("2q".to_string()))
    );
    assert_eq!(
        Expr::from_str("ax^b"),
        Err(ParseError::MalformedNumber("a".to_string()))
    );
    assert_eq!(
        Expr::from_str("2x^b"),
        Err(ParseError::MalformedNumber("b".to_string()))
    );
    assert_eq!(
        Expr::from_str("1++2"),
        Err(ParseError::MalformedNumber("".to_string()))
    );
    assert_eq!(
        Expr::from_str("1+2*"),
        Err(ParseError::MalformedNumber("".to_string()))
    );
}

#[test]
fn float_literal_grammar() {
    for good in ["0", "1", "42", "3.25", ".5", "5.", "-2", "+2", "1e5", "1E5", "1e-5", "1.5e+3",
        "inf", "INF", "-inf", "infinity", "nan", "NaN"] {
        assert!(check_float_lit(good), "{} should be accepted", good);
        assert!(good.parse::<f32>().is_ok(), "{} should parse", good);
    }
    for bad in ["", ".", "+", "-", "1.2.3", "1e", "1e+", "--1", "1x", "one", "infi", "0x10"] {
        assert!(!check_float_lit(bad), "{} should be rejected", bad);
        assert!(bad.parse::<f32>().is_err(), "{} should not parse", bad);
    }
}

#[test]
fn expression_eval_matches_hand_computation() {
    let e = Expr::from_str("2x^2+3*x").unwrap();
    // 2*x^2 + 3*x at x = 2 is 8 + 6 = 14.
    assert_eq!(eval(&e, 2.0), 14.0);
}
