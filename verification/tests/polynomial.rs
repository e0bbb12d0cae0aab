use abacas::error::Error;
use abacas::monomial::Monomial;
use abacas::number::Number;
use abacas::polynomial::Polynomial;
use abacas::render::Piece;
use rug::integer::Order;
use rug::{Integer, Rational};

fn number_text(n: &Number, abs: bool) -> String {
    let (neg, numer, denom) = n.parts();
    let mut q = Rational::from((
        Integer::from_digits(&numer, Order::Lsf),
        Integer::from_digits(&denom, Order::Lsf),
    ));
    if neg && !abs {
        q = -q;
    }
    format!("{}", q.to_f64())
}

fn text(pieces: &[Piece]) -> String {
    let mut out = String::new();
    for piece in pieces {
        match piece {
            Piece::Text(s) => out.push_str(s),
            Piece::Num(n, abs) => out.push_str(&number_text(n, *abs)),
        }
    }
    out
}

fn show(p: &Polynomial) -> String {
    text(&p.pieces())
}

fn poly(s: &str) -> Polynomial {
    Polynomial::parse(s).unwrap()
}

fn n(v: i64) -> Number {
    Number::from_i64(v)
}

fn mono(c: i64, d: i64) -> Monomial {
    Monomial::new(n(c), n(d))
}

fn same(a: &Polynomial, b: &Polynomial) -> bool {
    show(a) == show(b)
}

#[test]
fn new_sorts_monomials() {
    let p = Polynomial::new(vec![mono(4, 2), mono(5, 3)]);
    assert_eq!(show(&p), "5x^3 + 4x^2");
    let p = poly("4x^2 + 5x^3");
    assert_eq!(show(&p), "5x^3 + 4x^2");
    let p = Polynomial::new(vec![mono(4, 2), mono(9, 9)]);
    assert_eq!(show(&p), "9x^9 + 4x^2");
}

#[test]
fn arithmetic_examples() {
    let a = poly("4x^4 + 3x^3 + 1");
    let b = poly("2x^2 - 5");

    let mut add = a.clone();
    add.add_assign_poly(b.clone());
    assert_eq!(show(&add), "4x^4 + 3x^3 + 2x^2 - 4");

    let mut b2 = b.clone();
    b2.mul_assign_num(&n(2));
    let mut sub = a.clone();
    sub.sub_assign_poly(b2);
    assert_eq!(show(&sub), "4x^4 + 3x^3 - 4x^2 + 11");

    let mut mul = a.clone();
    mul.mul_assign_poly(&b);
    assert_eq!(show(&mul), "8x^6 + 6x^5 - 20x^4 - 15x^3 + 2x^2 - 5");
}

#[test]
fn degree_and_leading() {
    let p = poly("4x^999 + 2x^3 + 1");
    assert_eq!(p.degree().unwrap().compare(&n(999)), abacas::number::Comparison::Equal);
    assert!(p.leading().unwrap().compare(&n(4)) == abacas::number::Comparison::Equal);
    assert!(Polynomial::zero().degree().is_none());
    assert!(Polynomial::zero().leading().is_none());
}

#[test]
fn div_rem_example() {
    let dividend = poly("6x^5 + 5x^2 - 7");
    let divisor = poly("2x^2 - 1");
    let (quotient, remainder) = dividend.clone().div_rem(&divisor).unwrap();
    assert_eq!(show(&quotient), "3x^3 + 1.5x + 2.5");
    assert_eq!(show(&remainder), "1.5x - 4.5");
    let mut back = quotient.clone();
    back.mul_assign_poly(&divisor);
    back.add_assign_poly(remainder.clone());
    assert!(same(&back, &dividend));

    let mut d = poly("6x^5 + 5x^2 - 7");
    let r = d.div_rem_mut(&divisor).unwrap();
    assert_eq!(show(&d), "3x^3 + 1.5x + 2.5");
    assert_eq!(show(&r), "1.5x - 4.5");
}

#[test]
fn div_rem_by_zero_is_none() {
    let p = poly("x + 1");
    assert!(p.div_rem(&Polynomial::zero()).is_none());
    let mut q = poly("x + 1");
    assert!(q.div_rem_mut(&Polynomial::zero()).is_none());
    assert_eq!(show(&q), "x + 1");
}

#[test]
fn div_and_rem_assign() {
    let mut q = poly("x^2 - 1");
    q.div_assign_poly(&poly("x - 1"));
    assert_eq!(show(&q), "x + 1");
    let mut r = poly("x^2 + 1");
    r.rem_assign_poly(&poly("x - 1"));
    assert_eq!(show(&r), "2");
}

#[test]
fn factor_example() {
    let p = poly("16x^2 + 8x + 4");
    let (factor, rest) = p.factor().unwrap();
    assert!(factor.compare(&n(4)) == abacas::number::Comparison::Equal);
    assert_eq!(show(&rest), "4x^2 + 2x + 1");

    let mut p = poly("16x^2 + 8x + 4");
    let factor = p.factor_mut().unwrap();
    assert!(factor.compare(&n(4)) == abacas::number::Comparison::Equal);
    assert_eq!(show(&p), "4x^2 + 2x + 1");

    assert!(poly("3x + 2").factor().is_none());
    assert!(Polynomial::zero().factor().is_none());
}

#[test]
fn gcd_example() {
    let coeff = poly("x - 1");
    let mut a = coeff.clone();
    a.mul_assign_poly(&poly("x - 21"));
    let mut b = coeff.clone();
    b.mul_assign_poly(&poly("4x - 9"));
    let g = a.clone().gcd(b.clone());
    assert!(same(&g, &coeff));
}

#[test]
fn gcd_ext_example() {
    let coeff = poly("x - 1");
    let mut a = coeff.clone();
    a.mul_assign_poly(&poly("x - 21"));
    let mut b = coeff.clone();
    b.mul_assign_poly(&poly("4x - 9"));
    let (s, t, gcd) = a.clone().gcd_ext(b.clone());
    let mut sa = s.clone();
    sa.mul_assign_poly(&a);
    let mut tb = t.clone();
    tb.mul_assign_poly(&b);
    sa.add_assign_poly(tb);
    assert!(same(&sa, &gcd));
    assert!(same(&coeff, &gcd));
}

#[test]
fn get_example() {
    let p = poly("4x^9 + 2x^3 + x^2 + 100");
    let m = p.get(&n(9)).unwrap();
    assert!(m.coeff.compare(&n(4)) == abacas::number::Comparison::Equal);
    assert!(m.degree.compare(&n(9)) == abacas::number::Comparison::Equal);
    assert!(p.get(&n(5)).is_none());
}

#[test]
fn guards() {
    assert!(Polynomial::zero().is_constant());
    assert!(Polynomial::from_number(n(5)).is_constant());
    assert!(!Polynomial::from_monomial(Monomial::linear(n(3))).is_constant());
    let lin_plus = Monomial::linear(n(3)).add(Monomial::constant(n(5)));
    assert!(!lin_plus.is_constant());
    assert!(Polynomial::from_number(n(-1)).is_neg_one());
    assert!(!Polynomial::from_number(n(1)).is_neg_one());
    assert!(Polynomial::from_number(n(1)).is_one());
    assert!(!Polynomial::from_number(n(-1)).is_one());
    assert!(Polynomial::zero().is_zero());
    assert!(!Polynomial::from_number(n(1)).is_zero());
    assert!(Polynomial::from_number(n(0)).is_zero());
}

#[test]
fn monic_example() {
    let p = poly("16x^9 + 4x^3 + 32");
    let (factor, monic) = p.monic().unwrap();
    assert!(factor.compare(&n(16)) == abacas::number::Comparison::Equal);
    assert_eq!(show(&monic), "x^9 + 0.25x^3 + 2");

    let mut p = poly("16x^9 + 4x^3 + 32");
    let factor = p.monic_mut().unwrap();
    assert!(factor.compare(&n(16)) == abacas::number::Comparison::Equal);
    assert_eq!(show(&p), "x^9 + 0.25x^3 + 2");

    assert!(poly("x^2 + 3").monic().is_none());
    assert!(Polynomial::zero().monic().is_none());
}

#[test]
fn monomials_example() {
    let p = poly("3x^2 - 2x + x^-1");
    assert_eq!(p.monomials().len(), 3);
    assert_eq!(show(&p), "3x^2 - 2x + x^-1");
}

#[test]
fn split_constant_example() {
    let p = poly("16x^2 + 8x + 4");
    let (constant, rest) = p.split_constant();
    assert!(constant.compare(&n(4)) == abacas::number::Comparison::Equal);
    assert_eq!(show(&rest), "16x^2 + 8x");

    let mut p = poly("16x^2 + 8x + 4");
    let constant = p.split_constant_mut();
    assert!(constant.compare(&n(4)) == abacas::number::Comparison::Equal);
    assert_eq!(show(&p), "16x^2 + 8x");

    let mut q = poly("x");
    assert!(q.split_constant_mut().is_zero());
    assert_eq!(show(&q), "x");
}

#[test]
fn parse_skips_zero_monomials_and_subtracts() {
    assert_eq!(show(&poly("x^2 - 0 + 3x - x^2")), "3x");
    assert_eq!(show(&poly("0")), "0");
    assert_eq!(show(&poly("x - 2 - 3")), "x - 5");
    assert_eq!(show(&poly("-x + 2.5x^0.5")), "-x + 2.5x^0.5");
}

#[test]
fn parse_errors() {
    match Polynomial::parse("x + abc") {
        Err(Error::InvalidString(s)) => assert_eq!(s, "abc"),
        other => panic!("unexpected {:?}", other),
    }
    match Polynomial::parse("2x^1.a") {
        Err(Error::InvalidString(s)) => assert_eq!(s, "1a/10"),
        other => panic!("unexpected {:?}", other),
    }
}

#[test]
fn negation_and_scaling() {
    let mut p = poly("x^2 - 3x + 1");
    p.neg_assign();
    assert_eq!(show(&p), "-x^2 + 3x - 1");
    let mut q = poly("4x^2 + 2");
    q.div_assign_num(&n(2));
    assert_eq!(show(&q), "2x^2 + 1");
    let mut r = poly("x + 1");
    r.mul_assign_mono(&mono(2, 3));
    assert_eq!(show(&r), "2x^4 + 2x^3");
    r.div_assign_mono(&mono(2, 3));
    assert_eq!(show(&r), "x + 1");
}

#[test]
fn add_and_sub_numbers_and_monomials() {
    let mut p = poly("x");
    p.add_assign_num(n(3));
    assert_eq!(show(&p), "x + 3");
    p.sub_assign_num(n(3));
    assert_eq!(show(&p), "x");
    p.add_assign_mono(mono(2, 2));
    assert_eq!(show(&p), "2x^2 + x");
    p.sub_assign_mono(mono(1, 1));
    assert_eq!(show(&p), "2x^2");
}

#[test]
fn monomial_examples() {
    let m = Monomial::new(n(4), n(10));
    assert_eq!(text(&m.pieces()), "4x^10");
    let m = Monomial::parse("4x^10").unwrap();
    assert_eq!(text(&m.pieces()), "4x^10");
    let add = Monomial::new(n(4), n(10)).add(Monomial::new(n(1), n(20)));
    assert_eq!(show(&add), "x^20 + 4x^10");
    let mul = Monomial::new(n(4), n(10)).mul_mono(&Monomial::linear(n(2)));
    assert_eq!(text(&mul.pieces()), "8x^11");
    assert_eq!(text(&Monomial::constant(n(4)).pieces()), "4");
    assert_eq!(text(&Monomial::linear(n(2)).pieces()), "2x");
    assert_eq!(text(&Monomial::new(n(4), n(22)).pieces()), "4x^22");
    let sub = Monomial::new(n(4), n(10)).sub(Monomial::new(n(4), n(10)));
    assert!(sub.is_zero());
}

#[test]
fn monomial_parse_forms() {
    assert_eq!(text(&Monomial::parse("-x").unwrap().pieces()), "-x");
    assert_eq!(text(&Monomial::parse("+x^2").unwrap().pieces()), "x^2");
    assert_eq!(text(&Monomial::parse("x").unwrap().pieces()), "x");
    assert_eq!(text(&Monomial::parse("7").unwrap().pieces()), "7");
    match Monomial::parse("0x") {
        Err(Error::InvalidNumber(z)) => assert!(z.is_zero()),
        other => panic!("unexpected {:?}", other),
    }
    assert!(matches!(Monomial::parse("-"), Err(Error::InvalidString(_))));
}

#[test]
fn div_rem_with_fractional_degrees_follows_integer_steps() {
    let dividend = poly("x^2.5 + x^2");
    let divisor = poly("x - 1");
    let (quotient, remainder) = dividend.div_rem(&divisor).unwrap();
    assert_eq!(show(&quotient), "x^1.5 + x + x^0.5");
    assert_eq!(show(&remainder), "x^0.5");
}

#[test]
fn div_rem_law_on_integer_degrees() {
    let dividend = poly("x^4 - 3x^2 + 2x - 7");
    let divisor = poly("3x^2 + x - 2");
    let (quotient, remainder) = dividend.clone().div_rem(&divisor).unwrap();
    let mut back = quotient.clone();
    back.mul_assign_poly(&divisor);
    back.add_assign_poly(remainder.clone());
    assert!(same(&back, &dividend));
    assert!(remainder.degree().unwrap().compare(&n(2)) == abacas::number::Comparison::Less);
}

#[test]
fn division_of_lower_degree_keeps_dividend_as_remainder() {
    let (quotient, remainder) = poly("x + 1").div_rem(&poly("x^2")).unwrap();
    assert!(quotient.is_zero());
    assert_eq!(show(&remainder), "x + 1");
}

#[test]
fn gcd_divides_both_and_is_monic() {
    let a = poly("2x^3 - 2x");
    let b = poly("4x^2 + 8x + 4");
    let g = a.clone().gcd(b.clone());
    assert_eq!(show(&g), "x + 1");
    let (_, ra) = a.div_rem(&g).unwrap();
    let (_, rb) = b.div_rem(&g).unwrap();
    assert!(ra.is_zero());
    assert!(rb.is_zero());
}

#[test]
fn gcd_of_coprime_polynomials_is_one() {
    let g = poly("x^2 + 1").gcd(poly("x + 3"));
    assert_eq!(show(&g), "1");
}

#[test]
fn gcd_with_zero_is_the_other_made_monic() {
    let g = poly("3x - 6").gcd(Polynomial::zero());
    assert_eq!(show(&g), "x - 2");
}

#[test]
fn bezout_identity_holds_for_coprime_inputs() {
    let a = poly("x^3 + 2x + 5");
    let b = poly("2x^2 - 3");
    let (s, t, gcd) = a.clone().gcd_ext(b.clone());
    assert_eq!(show(&gcd), "1");
    let mut sa = s.clone();
    sa.mul_assign_poly(&a);
    let mut tb = t.clone();
    tb.mul_assign_poly(&b);
    sa.add_assign_poly(tb);
    assert!(same(&sa, &gcd));
}

#[test]
fn bezout_identity_with_zero_second_polynomial() {
    let a = poly("4x + 2");
    let (s, t, gcd) = a.clone().gcd_ext(Polynomial::zero());
    assert!(t.is_zero());
    assert_eq!(show(&gcd), "x + 0.5");
    let mut sa = s.clone();
    sa.mul_assign_poly(&a);
    assert!(same(&sa, &gcd));
}

#[test]
fn product_is_commutative_and_associative() {
    let a = poly("x^2 - 3x + 2");
    let b = poly("2x^3 + x");
    let c = poly("x - 5");
    let mut ab = a.clone();
    ab.mul_assign_poly(&b);
    let mut ba = b.clone();
    ba.mul_assign_poly(&a);
    assert!(same(&ab, &ba));
    let mut ab_c = ab.clone();
    ab_c.mul_assign_poly(&c);
    let mut bc = b.clone();
    bc.mul_assign_poly(&c);
    let mut a_bc = a.clone();
    a_bc.mul_assign_poly(&bc);
    assert!(same(&ab_c, &a_bc));
}

#[test]
fn subtraction_identities() {
    let a = poly("4x^4 + 3x^3 + 1");
    let b = poly("2x^2 - 5x + 1");

    let mut back = a.clone();
    back.add_assign_poly(b.clone());
    back.sub_assign_poly(b.clone());
    assert!(same(&back, &a));

    let mut zero = a.clone();
    zero.sub_assign_poly(a.clone());
    assert!(zero.is_zero());

    let mut diff = a.clone();
    diff.sub_assign_poly(b.clone());
    let mut neg = b.clone();
    neg.neg_assign();
    let mut sum = a.clone();
    sum.add_assign_poly(neg);
    assert!(same(&diff, &sum));
    assert_eq!(show(&diff), "4x^4 + 3x^3 - 2x^2 + 5x");
}

#[test]
fn div_rem_law_on_degrees_an_integer_apart() {
    let dividend = poly("x^3.5 + 3x^1.5 + 5x^0.5");
    let divisor = poly("x^1.5 + 2x^0.5");
    let (quotient, remainder) = dividend.clone().div_rem(&divisor).unwrap();
    assert_eq!(show(&quotient), "x^2 - 2x + 7");
    assert_eq!(show(&remainder), "-9x^0.5");
    let mut back = quotient.clone();
    back.mul_assign_poly(&divisor);
    back.add_assign_poly(remainder.clone());
    assert!(same(&back, &dividend));
}

#[test]
fn gcd_leaves_no_remainder() {
    let common = poly("x - 1");
    let mut a = common.clone();
    a.mul_assign_poly(&poly("x + 2"));
    let mut b = common.clone();
    b.mul_assign_poly(&poly("x - 3"));
    let g = a.clone().gcd(b.clone());
    assert!(same(&g, &common));
    let mut ra = a.clone();
    ra.rem_assign_poly(&g);
    assert!(ra.is_zero());
    let mut rb = b.clone();
    rb.rem_assign_poly(&g);
    assert!(rb.is_zero());
}
