use abacas::context::Symbol;
use abacas::error::Error;
use abacas::number::{Comparison, Number};
use rug::integer::Order;
use rug::{Integer, Rational};

fn value(n: &Number) -> Rational {
    let (neg, numer, denom) = n.parts();
    let q = Rational::from((
        Integer::from_digits(&numer, Order::Lsf),
        Integer::from_digits(&denom, Order::Lsf),
    ));
    if neg {
        -q
    } else {
        q
    }
}

fn n(v: i64) -> Number {
    Number::from_i64(v)
}

fn q(s: &str) -> Number {
    Number::parse(s).unwrap()
}

fn is(a: &Number, b: &Number) -> bool {
    a.compare(b) == Comparison::Equal
}

#[test]
fn constants() {
    assert!(Number::zero().is_zero());
    assert!(Number::one().is_one());
    assert!(Number::neg_one().is_neg_one());
    assert!(Number::neg_one().is_negative());
    assert!(Number::one().is_positive());
    assert!(!Number::zero().is_positive() && !Number::zero().is_negative());
    assert!(n(7).is_integer());
    assert!(!q("1/2").is_integer());
}

#[test]
fn parse_decimals_and_fractions() {
    assert_eq!(value(&q("12.34")), Rational::from((1234, 100)));
    assert_eq!(value(&q("-3/6")), Rational::from((-1, 2)));
    assert_eq!(value(&q("0.5")), Rational::from((1, 2)));
    assert_eq!(value(&q("42")), Rational::from(42));
    match Number::parse("1.2.3") {
        Err(Error::InvalidString(s)) => assert_eq!(s, "12.3/1000"),
        other => panic!("unexpected {:?}", other),
    }
    match Number::parse("abc") {
        Err(Error::InvalidString(s)) => assert_eq!(s, "abc"),
        other => panic!("unexpected {:?}", other),
    }
    let r: Result<Number, Error> = "2.5".parse();
    assert!(is(&r.unwrap(), &q("5/2")));
}

#[test]
fn arithmetic_is_exact() {
    assert!(is(&q("1/3").add(&q("1/6")), &q("1/2")));
    assert!(is(&q("1/3").sub(&q("1/2")), &q("-1/6")));
    assert!(is(&q("2/3").mul(&q("3/4")), &q("1/2")));
    assert!(is(&q("2/3").div(&q("4/9")), &q("3/2")));
    assert!(is(&q("2/3").neg(), &q("-2/3")));
    assert!(is(&q("-2/3").abs(), &q("2/3")));
    assert!(is(&q("-2/3").recip(), &q("-3/2")));
    assert!(is(&q("-2/3").signum(), &n(-1)));
    assert!(is(&q("-2/3").square(), &q("4/9")));
}

#[test]
fn rounding() {
    assert!(is(&q("-2.5").floor(), &n(-3)));
    assert!(is(&q("-2.5").ceil(), &n(-2)));
    assert!(is(&q("-2.5").trunc(), &n(-2)));
    assert!(is(&q("-2.5").round(), &n(-3)));
    assert!(is(&q("2.5").round(), &n(3)));
}

#[test]
fn rounding_division_and_remainders() {
    let a = n(7);
    let b = n(-2);
    assert!(is(&a.clone().div_ceil(&b), &n(-3)));
    assert!(is(&a.clone().div_floor(&b), &n(-4)));
    assert!(is(&a.clone().div_trunc(&b), &n(-3)));
    assert!(is(&a.clone().div_euc(&b), &n(-3)));
    assert!(is(&a.clone().rem_ceil(&b), &n(1)));
    assert!(is(&a.clone().rem_floor(&b), &n(-1)));
    assert!(is(&a.clone().rem_trunc(&b), &n(1)));
    assert!(is(&a.clone().rem_euc(&b), &n(1)));
    assert!(is(&a.clone().rem(&b), &n(1)));
    assert!(is(&n(-7).div_euc(&n(2)), &n(-4)));
    assert!(is(&n(-7).rem_euc(&n(2)), &n(1)));
    let mut c = n(7);
    c.div_euc_assign(&n(2));
    assert!(is(&c, &n(3)));
    let mut c = n(7);
    c.div_ceil_assign(&n(2));
    assert!(is(&c, &n(4)));
    let mut c = n(7);
    c.div_floor_assign(&n(2));
    assert!(is(&c, &n(3)));
    let mut c = n(-7);
    c.div_trunc_assign(&n(2));
    assert!(is(&c, &n(-3)));
}

#[test]
fn parts_of_fractions() {
    assert!(is(&q("-6/4").numer(), &n(-3)));
    assert!(is(&q("-6/4").denom(), &n(2)));
    let (a, b) = q("10/4").ratio();
    assert!(is(&a, &n(5)) && is(&b, &n(2)));
}

#[test]
fn gcd_and_lcm() {
    assert!(is(&n(12).gcd(&n(18)), &n(6)));
    assert!(is(&n(4).lcm(&n(6)), &n(12)));
    assert!(is(&q("1/2").gcd(&q("1/3")), &q("1/6")));
    assert!(is(&q("1/2").lcm(&q("1/3")), &n(1)));
    let mut g = n(8);
    g.gcd_mut(&n(12));
    assert!(is(&g, &n(4)));
    let mut l = n(8);
    l.lcm_mut(&n(12));
    assert!(is(&l, &n(24)));
}

#[test]
fn powers() {
    assert!(is(&q("2/3").pow(&n(3)), &q("8/27")));
    assert!(is(&q("2/3").pow(&n(-2)), &q("9/4")));
    assert!(is(&n(5).pow(&n(0)), &n(1)));
}

#[test]
fn ordering() {
    assert_eq!(q("1/3").compare(&q("1/2")), Comparison::Less);
    assert_eq!(q("1/2").compare(&q("2/4")), Comparison::Equal);
    assert_eq!(n(-1).compare(&n(-2)), Comparison::Greater);
}

#[test]
fn symbol_names() {
    assert!(Symbol::new("".to_string()).is_none());
    assert!(Symbol::new("a b".to_string()).is_none());
    let s = Symbol::new("alpha".to_string()).unwrap();
    assert_eq!(s.name(), "alpha");
    assert_eq!(Symbol::pi().name(), "pi");
    assert_eq!(Symbol::e().name(), "e");
    assert_eq!(Symbol::abs().name(), "abs");
}

#[test]
fn symbol_whitespace_matches_std() {
    for code in 0u32..0x3100 {
        if let Some(c) = char::from_u32(code) {
            let name = format!("a{}b", c);
            assert_eq!(Symbol::new(name).is_some(), !c.is_whitespace(), "character {:x}", code);
        }
    }
}

#[test]
fn parse_follows_the_rational_text_grammar() {
    assert_eq!(value(&q("1_000")), Rational::from(1000));
    assert_eq!(value(&q(" - 6 / 4 ")), Rational::from((-3, 2)));
    assert_eq!(value(&q("+0/7")), Rational::from(0));
    assert_eq!(value(&q("0012/0_08")), Rational::from((3, 2)));
    for bad in ["_1", "12/", "3/0", "1/2/3", "1a", "--1", "1-", "/2", "", " ", "1/_2", "+", "1\u{a0}2"] {
        match Number::parse(bad) {
            Err(Error::InvalidString(s)) => assert_eq!(s, bad),
            other => panic!("{:?} gave {:?}", bad, other),
        }
    }
}
