use abacas::context::{Context, Function, Symbol};
use abacas::error::Error;
use abacas::expr::Expr;
use abacas::number::{Comparison, Number};
use abacas::polynomial::Polynomial;
use abacas::render::Piece;
use rug::integer::Order;
use rug::{Integer, Rational};

fn number_text(n: &Number, abs: bool) -> String {
    let (neg, numer, denom) = n.parts();
    let mut q = Rational::from((
        Integer::from_digits(&numer, Order::Lsf),
        Integer::from_digits(&denom, Order::Lsf),
    ));
    if neg && !abs {
        q = -q;
    }
    format!("{}", q.to_f64())
}

fn text(pieces: &[Piece]) -> String {
    let mut out = String::new();
    for piece in pieces {
        match piece {
            Piece::Text(s) => out.push_str(s),
            Piece::Num(n, abs) => out.push_str(&number_text(n, *abs)),
        }
    }
    out
}

fn show(expr: &Expr) -> String {
    text(&expr.pieces())
}

fn sym(name: &str) -> Symbol {
    Symbol::new(name.to_string()).unwrap()
}

fn add_of(exprs: Vec<Expr>, ctx: &Context) -> Expr {
    Expr::Add(exprs).simplify(ctx).unwrap()
}

fn mul_of(exprs: Vec<Expr>, ctx: &Context) -> Expr {
    Expr::Mul(exprs).simplify(ctx).unwrap()
}

fn cos(arg: Expr) -> Expr {
    Expr::Fun(sym("cos"), vec![arg])
}

fn num(n: i64) -> Expr {
    Expr::Num(Number::from_i64(n))
}

fn x(poly: &str) -> Expr {
    Expr::Poly(sym("x"), Polynomial::parse(poly).unwrap())
}

fn y(poly: &str) -> Expr {
    Expr::Poly(sym("y"), Polynomial::parse(poly).unwrap())
}

#[test]
fn add() {
    let ctx = &Context::new();

    let expr = add_of(vec![], ctx);
    assert_eq!(show(&expr), "0");

    let expr = add_of(vec![num(2), x("x"), x("x + 2"), y("x"), y("-x + 2")], ctx);
    assert_eq!(show(&expr), "2x + 6");

    let expr = add_of(vec![num(2), x("x"), x("x + 2"), y("x"), y("-2x + 1")], ctx);
    assert_eq!(show(&expr), "5 + 2x - y");

    let expr = add_of(vec![num(2), cos(num(0)), num(-3), cos(num(0))], ctx);
    assert_eq!(show(&expr), "cos(0) * 2 - 1");
}

#[test]
fn mul() {
    let ctx = &Context::new();

    let expr = mul_of(vec![], ctx);
    assert_eq!(show(&expr), "1");

    let expr = mul_of(vec![num(2), x("x"), x("x + 2"), y("x"), y("2x^-1")], ctx);
    assert_eq!(show(&expr), "4x^2 + 8x");

    let expr = mul_of(vec![num(2), x("x"), x("x + 2"), y("x"), y("x^-1 + 2")], ctx);
    assert_eq!(show(&expr), "4 * (x^2 + 2x) * (y + 0.5)");

    let expr = mul_of(vec![num(2), cos(num(0)), num(-3), cos(num(0))], ctx);
    assert_eq!(show(&expr), "-6 * cos(0)^2");
}

#[test]
fn mul_by_zero_is_zero() {
    let ctx = &Context::new();
    let expr = mul_of(vec![num(0), x("x + 1"), cos(num(1))], ctx);
    assert_eq!(show(&expr), "0");
}

#[test]
fn sum_of_numbers_only() {
    let ctx = &Context::new();
    let expr = add_of(vec![num(2), num(-5), num(3)], ctx);
    assert_eq!(show(&expr), "0");
    let expr = add_of(vec![num(2), num(5)], ctx);
    assert_eq!(show(&expr), "7");
}

#[test]
fn nested_sums_are_flattened() {
    let ctx = &Context::new();
    let inner = Expr::Add(vec![num(1), x("x")]);
    let expr = add_of(vec![inner, num(2), x("x")], ctx);
    assert_eq!(show(&expr), "2x + 3");
}

#[test]
fn simplifiers_apply_to_numbers() {
    let ctx = &Context::new();
    let abs = Expr::Fun(sym("abs"), vec![num(-4)]).simplify(ctx).unwrap();
    assert_eq!(show(&abs), "4");
    let max = Expr::Fun(sym("max"), vec![num(1), num(7), num(3)]).simplify(ctx).unwrap();
    assert_eq!(show(&max), "7");
    let floor = Expr::Fun(sym("floor"), vec![Expr::Num(Number::parse("2.5").unwrap())])
        .simplify(ctx)
        .unwrap();
    assert_eq!(show(&floor), "2");
}

#[test]
fn simplifier_argument_count_error() {
    let ctx = &Context::new();
    let r = Expr::Fun(sym("abs"), vec![num(1), num(2)]).simplify(ctx);
    match r {
        Err(Error::ArgumentCount(s)) => assert_eq!(s.name(), "abs"),
        other => panic!("unexpected {:?}", other),
    }
}

#[test]
fn zero_to_negative_power_is_division_by_zero() {
    let ctx = &Context::new();
    let r = num(0).pow(num(-1)).simplify(ctx);
    assert!(matches!(r, Err(Error::DivisionByZero)));
}

#[test]
fn power_rules() {
    let ctx = &Context::new();
    assert_eq!(show(&num(1).pow(cos(num(2))).simplify(ctx).unwrap()), "1");
    assert_eq!(show(&cos(num(2)).pow(num(0)).simplify(ctx).unwrap()), "1");
    assert_eq!(show(&cos(num(2)).pow(num(1)).simplify(ctx).unwrap()), "cos(2)");
    assert_eq!(show(&num(0).pow(cos(num(2))).simplify(ctx).unwrap()), "0");
    assert_eq!(show(&cos(num(2)).pow(num(3)).simplify(ctx).unwrap()), "cos(2)^3");
}

#[test]
fn constant_polynomial_becomes_number() {
    let ctx = &Context::new();
    let r = x("5").simplify(ctx).unwrap();
    assert_eq!(show(&r), "5");
    assert!(r.is_num());
}

#[test]
fn variables_are_substituted() {
    let mut ctx = Context::new();
    ctx.variables.insert(sym("x"), num(3));
    let r = x("x^2 + 1").simplify(&ctx).unwrap();
    assert_eq!(show(&r), "1 + 3^2");
}

#[test]
fn user_functions_are_applied() {
    let mut ctx = Context::new();
    let body = Expr::Poly(sym("a"), Polynomial::parse("2x").unwrap());
    ctx.functions.insert(sym("double"), Function::new(body, sym("double"), vec![sym("a")]));
    let r = Expr::Fun(sym("double"), vec![num(21)]).simplify(&ctx).unwrap();
    assert_eq!(show(&r), "42");
    let e = Expr::Fun(sym("double"), vec![num(1), num(2)]).simplify(&ctx);
    match e {
        Err(Error::ArgumentCount(s)) => assert_eq!(s.name(), "double"),
        other => panic!("unexpected {:?}", other),
    }
}

#[test]
fn unknown_function_stays() {
    let ctx = &Context::new();
    let r = Expr::Fun(sym("sin"), vec![x("x"), num(2)]).simplify(ctx).unwrap();
    assert_eq!(show(&r), "sin(x, 2)");
}

#[test]
fn constructors_build_trees() {
    let e = num(1).sub(num(2));
    assert_eq!(show(&e), "1 + 2 * -1");
    let e = num(6).div(num(3));
    assert_eq!(show(&e), "6 * 3^-1");
    let e = num(4).neg();
    assert_eq!(show(&e), "4 * -1");
    assert!(Expr::zero().is_num());
    assert!(x("x").is_poly());
    assert!(!x("x").is_num());
}

#[test]
fn division_simplifies() {
    let ctx = &Context::new();
    let e = cos(num(1)).div(cos(num(1))).simplify(ctx).unwrap();
    assert_eq!(show(&e), "cos(1) * cos(1)^-1");
}

#[test]
fn into_num_and_into_poly() {
    assert!(num(3).into_num().unwrap().is_positive());
    assert!(x("x").into_num().is_none());
    let (s, p) = x("x + 1").into_poly().unwrap();
    assert_eq!(s.name(), "x");
    assert_eq!(p.monomials().len(), 2);
    assert!(num(1).into_poly().is_none());
}

#[test]
fn compare_orders_by_kind_then_contents() {
    assert_eq!(num(1).compare(&num(2)), Comparison::Less);
    assert_eq!(num(2).compare(&num(2)), Comparison::Equal);
    assert_eq!(x("x").compare(&num(2)), Comparison::Greater);
    assert_eq!(x("x").compare(&y("x")), Comparison::Less);
    assert_eq!(cos(num(1)).compare(&num(0)), Comparison::Less);
}

#[test]
fn polynomial_into_expr_inserts_the_variable() {
    let p = Polynomial::parse("3x^2 + 1").unwrap();
    let e = p.into_expr(&cos(num(0)));
    assert_eq!(show(&e), "3 * cos(0)^2 + 1 * cos(0)^0");
}

#[test]
fn compare_is_antisymmetric() {
    let values = vec![num(1), num(-2), x("x + 1"), y("x"), cos(num(0)), num(2).pow(x("x")), Expr::Add(vec![num(1), num(2)])];
    for a in &values {
        for b in &values {
            let ab = a.compare(b);
            let ba = b.compare(a);
            assert_eq!(ab == Comparison::Less, ba == Comparison::Greater);
            assert_eq!(ab == Comparison::Equal, ba == Comparison::Equal);
        }
    }
}

#[test]
fn compare_is_transitive() {
    let values = vec![num(1), num(-2), x("x + 1"), x("x"), y("x"), cos(num(0)), cos(num(1)), num(2).pow(x("x")), Expr::Add(vec![num(1), num(2)])];
    for a in &values {
        for b in &values {
            for c in &values {
                if a.compare(b) == Comparison::Less && b.compare(c) == Comparison::Less {
                    assert_eq!(a.compare(c), Comparison::Less);
                }
            }
        }
    }
}

#[test]
fn simplified_terms_come_in_order() {
    let ctx = &Context::new();
    let expr = add_of(vec![cos(num(1)), num(3), y("x"), cos(num(0)), x("x")], ctx);
    match &expr {
        Expr::Add(terms) => {
            assert!(terms.len() >= 2);
            for pair in terms.windows(2) {
                assert!(pair[0].compare(&pair[1]) != Comparison::Greater);
            }
        }
        _ => panic!("expected a sum"),
    }
    let expr = mul_of(vec![cos(num(1)), num(3), cos(num(0))], ctx);
    match &expr {
        Expr::Mul(terms) => {
            assert_eq!(terms.len(), 3);
            for pair in terms.windows(2) {
                assert!(pair[0].compare(&pair[1]) != Comparison::Greater);
            }
        }
        _ => panic!("expected a product"),
    }
    let single = add_of(vec![Expr::Add(vec![cos(num(1))])], ctx);
    assert_eq!(show(&single), "cos(1)");
}

#[test]
fn zero_factor_absorbs_any_product() {
    let ctx = &Context::new();
    let inner = Expr::Mul(vec![num(0), cos(num(2))]);
    let expr = mul_of(vec![y("x + 2"), inner, cos(num(1))], ctx);
    assert_eq!(show(&expr), "0");
}
