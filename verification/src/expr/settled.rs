//! Laws of simplification. A part of an expression is simplified with the
//! same steps as the expression itself, so what holds of the parts carries
//! over; and more steps change nothing once simplifying an expression ends
//! within some number of them.
use crate::context::ContextV;
use crate::error::ErrorV;
use crate::expr::size::{expr_size, exprs_size, lemma_exprs_size};
use crate::expr::simplify::{
    simplified_jump, simplify_fuel, bind_params, counts, flatten, group_polys, group_total, num_total, repeated, rest_of, simplified,
    simplified_assoc, simplified_each, simplified_flat, simplified_fun, simplified_poly, simplified_pow,
    simplified_terms,
};
use crate::expr::{expr_wf, exprs_view, lemma_exprs, Expr, ExprV};
use crate::expr::simplify::{add_to_group, count_index, group_index, has_factor, parts};
use crate::polynomial::{canonical_pairs, lemma_poly_mul_exists, poly_into_expr, sorted_degrees};
use crate::rational::{lemma_ops_canonical, lemma_reduce, lemma_small_canonical, rat_zero, Rat};
use vstd::prelude::*;

verus! {

/// Simplifying `e` with `fuel` steps ends before the steps run out.
pub open spec fn ends(e: ExprV, ctx: ContextV, fuel: nat) -> bool
    decreases fuel, expr_size(e), 0nat,
{
    match e {
        ExprV::Add(s) => assoc_ends(s, ctx, fuel, true),
        ExprV::Fun(n, a) => fun_ends(n, a, ctx, fuel),
        ExprV::Mul(s) => assoc_ends(s, ctx, fuel, false),
        ExprV::Num(_) => true,
        ExprV::Poly(sym, p) => poly_ends(sym, p, ctx, fuel),
        ExprV::Pow(b, x) => pow_ends(*b, *x, ctx, fuel),
    }
}

/// Simplifying `e` one step deeper ends: a step is left, and simplifying
/// with the rest ends.
pub open spec fn jump_ends(e: ExprV, ctx: ContextV, fuel: nat) -> bool
    decreases fuel, 0nat, 0nat,
{
    fuel > 0 && ends(e, ctx, (fuel - 1) as nat)
}

/// Simplifying each expression of `s` in order ends, up to the first error.
pub open spec fn each_ends(s: Seq<ExprV>, ctx: ContextV, fuel: nat) -> bool
    decreases fuel, exprs_size(s), 1nat,
{
    if s.len() == 0 {
        true
    } else {
        proof {
            lemma_exprs_size(s);
        }
        each_ends(s.drop_last(), ctx, fuel) && match simplified_each(s.drop_last(), ctx, fuel) {
            Err(_) => true,
            Ok(_) => ends(s.last(), ctx, fuel),
        }
    }
}

/// Simplifying each repeated term in order ends, up to the first error.
pub open spec fn terms_ends(c: Seq<(ExprV, nat)>, ctx: ContextV, fuel: nat, sum: bool) -> bool
    decreases fuel, 0nat, c.len() + 1,
{
    if c.len() == 0 {
        true
    } else {
        terms_ends(c.drop_last(), ctx, fuel, sum) && match simplified_terms(c.drop_last(), ctx, fuel, sum) {
            Err(_) => true,
            Ok(_) => jump_ends(repeated(c.last().0, c.last().1, sum), ctx, fuel),
        }
    }
}

/// Simplifying a sum (`sum`) or product of `s` ends.
pub open spec fn assoc_ends(s: Seq<ExprV>, ctx: ContextV, fuel: nat, sum: bool) -> bool
    decreases fuel, exprs_size(s) + 2, 0nat,
{
    each_ends(s, ctx, fuel) && match simplified_each(s, ctx, fuel) {
        Err(_) => true,
        Ok(t) => flat_ends(flatten(t, sum), ctx, fuel, sum),
    }
}

/// The steps after the terms were simplified and flattened end.
pub open spec fn flat_ends(s: Seq<ExprV>, ctx: ContextV, fuel: nat, sum: bool) -> bool
    decreases fuel, 1nat, 0nat,
{
    let total = group_total(group_polys(s, sum), num_total(s, sum), sum);
    if !sum && total.num == 0 {
        true
    } else {
        terms_ends(counts(rest_of(s)), ctx, fuel, sum)
    }
}

/// Simplifying the call of `n` on `a` ends.
pub open spec fn fun_ends(n: Seq<char>, a: Seq<ExprV>, ctx: ContextV, fuel: nat) -> bool
    decreases fuel, exprs_size(a) + 2, 0nat,
{
    each_ends(a, ctx, fuel) && match simplified_each(a, ctx, fuel) {
        Err(_) => true,
        Ok(args) => if ctx.functions.contains_key(n) && ctx.functions[n].params.len() == args.len() {
            let fun = ctx.functions[n];
            let inner = ContextV {
                functions: ctx.functions,
                simplifiers: ctx.simplifiers,
                variables: bind_params(ctx.variables, fun.params, args),
            };
            jump_ends(fun.body, inner, fuel)
        } else {
            true
        },
    }
}

/// Simplifying the polynomial `p` of `sym` ends.
pub open spec fn poly_ends(sym: Seq<char>, p: Seq<(crate::rational::Rat, crate::rational::Rat)>, ctx: ContextV, fuel: nat) -> bool
    decreases fuel, 1nat, 0nat,
{
    if p.len() == 0 || (p.len() == 1 && p[0].1.num == 0) {
        true
    } else if ctx.variables.contains_key(sym) {
        jump_ends(poly_into_expr(p, ctx.variables[sym]), ctx, fuel)
    } else {
        true
    }
}

/// Simplifying the power of `b` to `x` ends.
pub open spec fn pow_ends(b: ExprV, x: ExprV, ctx: ContextV, fuel: nat) -> bool
    decreases fuel, expr_size(b) + expr_size(x) + 1, 0nat,
{
    ends(b, ctx, fuel) && match simplified(b, ctx, fuel) {
        Err(_) => true,
        Ok(_) => ends(x, ctx, fuel),
    }
}

/// Once simplifying `e` ends with `f` steps, it ends with the same result
/// with any `g >= f` steps.
pub proof fn lemma_settled(e: ExprV, ctx: ContextV, f: nat, g: nat)
    requires
        ends(e, ctx, f),
        f <= g,
    ensures
        ends(e, ctx, g),
        simplified(e, ctx, f) == simplified(e, ctx, g),
    decreases f, expr_size(e), 0nat,
{
    match e {
        ExprV::Add(s) => lemma_assoc_settled(s, ctx, f, g, true),
        ExprV::Fun(n, a) => lemma_fun_settled(n, a, ctx, f, g),
        ExprV::Mul(s) => lemma_assoc_settled(s, ctx, f, g, false),
        ExprV::Num(_) => {},
        ExprV::Poly(sym, p) => lemma_poly_settled(sym, p, ctx, f, g),
        ExprV::Pow(b, x) => lemma_pow_settled(*b, *x, ctx, f, g),
    }
}

/// `lemma_settled` one step deeper.
pub proof fn lemma_jump_settled(e: ExprV, ctx: ContextV, f: nat, g: nat)
    requires
        jump_ends(e, ctx, f),
        f <= g,
    ensures
        jump_ends(e, ctx, g),
        simplified_jump(e, ctx, f) == simplified_jump(e, ctx, g),
    decreases f, 0nat, 0nat,
{
    lemma_settled(e, ctx, (f - 1) as nat, (g - 1) as nat);
}

/// `lemma_settled` for simplifying each expression of `s`.
pub proof fn lemma_each_settled(s: Seq<ExprV>, ctx: ContextV, f: nat, g: nat)
    requires
        each_ends(s, ctx, f),
        f <= g,
    ensures
        each_ends(s, ctx, g),
        simplified_each(s, ctx, f) == simplified_each(s, ctx, g),
    decreases f, exprs_size(s), 1nat,
{
    if s.len() > 0 {
        lemma_exprs_size(s);
        lemma_each_settled(s.drop_last(), ctx, f, g);
        if simplified_each(s.drop_last(), ctx, f) is Ok {
            lemma_settled(s.last(), ctx, f, g);
        }
    }
}

/// `lemma_settled` for simplifying each repeated term.
pub proof fn lemma_terms_settled(c: Seq<(ExprV, nat)>, ctx: ContextV, f: nat, g: nat, sum: bool)
    requires
        terms_ends(c, ctx, f, sum),
        f <= g,
    ensures
        terms_ends(c, ctx, g, sum),
        simplified_terms(c, ctx, f, sum) == simplified_terms(c, ctx, g, sum),
    decreases f, 0nat, c.len() + 1,
{
    if c.len() > 0 {
        lemma_terms_settled(c.drop_last(), ctx, f, g, sum);
        if simplified_terms(c.drop_last(), ctx, f, sum) is Ok {
            lemma_jump_settled(repeated(c.last().0, c.last().1, sum), ctx, f, g);
        }
    }
}

/// `lemma_settled` for a sum or product.
pub proof fn lemma_assoc_settled(s: Seq<ExprV>, ctx: ContextV, f: nat, g: nat, sum: bool)
    requires
        assoc_ends(s, ctx, f, sum),
        f <= g,
    ensures
        assoc_ends(s, ctx, g, sum),
        simplified_assoc(s, ctx, f, sum) == simplified_assoc(s, ctx, g, sum),
    decreases f, exprs_size(s) + 2, 0nat,
{
    lemma_each_settled(s, ctx, f, g);
    match simplified_each(s, ctx, f) {
        Err(_) => {},
        Ok(t) => lemma_flat_settled(flatten(t, sum), ctx, f, g, sum),
    }
}

/// `lemma_settled` for the steps after flattening.
pub proof fn lemma_flat_settled(s: Seq<ExprV>, ctx: ContextV, f: nat, g: nat, sum: bool)
    requires
        flat_ends(s, ctx, f, sum),
        f <= g,
    ensures
        flat_ends(s, ctx, g, sum),
        simplified_flat(s, ctx, f, sum) == simplified_flat(s, ctx, g, sum),
    decreases f, 1nat, 0nat,
{
    let total = group_total(group_polys(s, sum), num_total(s, sum), sum);
    if !(!sum && total.num == 0) {
        lemma_terms_settled(counts(rest_of(s)), ctx, f, g, sum);
    }
}

/// `lemma_settled` for a function call.
pub proof fn lemma_fun_settled(n: Seq<char>, a: Seq<ExprV>, ctx: ContextV, f: nat, g: nat)
    requires
        fun_ends(n, a, ctx, f),
        f <= g,
    ensures
        fun_ends(n, a, ctx, g),
        simplified_fun(n, a, ctx, f) == simplified_fun(n, a, ctx, g),
    decreases f, exprs_size(a) + 2, 0nat,
{
    lemma_each_settled(a, ctx, f, g);
    match simplified_each(a, ctx, f) {
        Err(_) => {},
        Ok(args) => {
            if ctx.functions.contains_key(n) && ctx.functions[n].params.len() == args.len() {
                let fun = ctx.functions[n];
                let inner = ContextV {
                    functions: ctx.functions,
                    simplifiers: ctx.simplifiers,
                    variables: bind_params(ctx.variables, fun.params, args),
                };
                lemma_jump_settled(fun.body, inner, f, g);
            }
        },
    }
}

/// `lemma_settled` for a polynomial.
pub proof fn lemma_poly_settled(sym: Seq<char>, p: Seq<(crate::rational::Rat, crate::rational::Rat)>, ctx: ContextV, f: nat, g: nat)
    requires
        poly_ends(sym, p, ctx, f),
        f <= g,
    ensures
        poly_ends(sym, p, ctx, g),
        simplified_poly(sym, p, ctx, f) == simplified_poly(sym, p, ctx, g),
    decreases f, 1nat, 0nat,
{
    if !(p.len() == 0 || (p.len() == 1 && p[0].1.num == 0)) && ctx.variables.contains_key(sym) {
        lemma_jump_settled(poly_into_expr(p, ctx.variables[sym]), ctx, f, g);
    }
}

/// `lemma_settled` for a power.
pub proof fn lemma_pow_settled(b: ExprV, x: ExprV, ctx: ContextV, f: nat, g: nat)
    requires
        pow_ends(b, x, ctx, f),
        f <= g,
    ensures
        pow_ends(b, x, ctx, g),
        simplified_pow(b, x, ctx, f) == simplified_pow(b, x, ctx, g),
    decreases f, expr_size(b) + expr_size(x) + 1, 0nat,
{
    lemma_settled(b, ctx, f, g);
    if simplified(b, ctx, f) is Ok {
        lemma_settled(x, ctx, f, g);
    }
}

/// Each expression simplifying to the matching one of `t` is simplifying
/// them all to `t`.
pub proof fn lemma_each_ok(s: Seq<ExprV>, ctx: ContextV, f: nat, t: Seq<ExprV>)
    requires
        t.len() == s.len(),
        forall|i: int| 0 <= i < s.len() ==> #[trigger] simplified(s[i], ctx, f) == Ok::<ExprV, ErrorV>(t[i]),
    ensures
        simplified_each(s, ctx, f) == Ok::<Seq<ExprV>, ErrorV>(t),
    decreases s.len(),
{
    if s.len() > 0 {
        let n = s.len() - 1;
        assert forall|i: int| 0 <= i < n implies #[trigger] simplified(s.drop_last()[i], ctx, f) == Ok::<
            ExprV,
            ErrorV,
        >(t.drop_last()[i]) by {
            assert(s.drop_last()[i] == s[i]);
        }
        lemma_each_ok(s.drop_last(), ctx, f, t.drop_last());
        assert(s.last() == s[n]);
        assert(simplified(s.last(), ctx, f) == Ok::<ExprV, ErrorV>(t[n]));
        assert(t.drop_last().push(t[n]) =~= t);
    } else {
        assert(t =~= Seq::<ExprV>::empty());
    }
}

/// Simplifying a power is `simplified_pow` of its base and exponent, each
/// simplified on its own with the same steps.
pub proof fn lemma_simplify_pow(b: ExprV, x: ExprV, ctx: ContextV)
    ensures
        simplified(ExprV::Pow(Box::new(b), Box::new(x)), ctx, simplify_fuel()) == simplified_pow(
            b,
            x,
            ctx,
            simplify_fuel(),
        ),
{
}

/// Simplifying a call is `simplified_fun` of its arguments, each
/// simplified on its own with the same steps.
pub proof fn lemma_simplify_call(n: Seq<char>, a: Seq<ExprV>, ctx: ContextV)
    ensures
        simplified(ExprV::Fun(n, a), ctx, simplify_fuel()) == simplified_fun(n, a, ctx, simplify_fuel()),
{
}

/// A declared function called with the wrong number of arguments is an
/// argument count error naming the function, once the arguments simplify.
pub proof fn lemma_simplify_call_count(n: Seq<char>, a: Seq<ExprV>, ctx: ContextV)
    requires
        ctx.functions.contains_key(n),
        ctx.functions[n].params.len() != a.len(),
        forall|i: int| 0 <= i < a.len() ==> (#[trigger] simplified(a[i], ctx, simplify_fuel())) is Ok,
    ensures
        simplified(ExprV::Fun(n, a), ctx, simplify_fuel()) == Err::<ExprV, ErrorV>(
            ErrorV::ArgumentCount(ctx.functions[n].name),
        ),
{
    let t = Seq::new(a.len(), |i: int| simplified(a[i], ctx, simplify_fuel())->Ok_0);
    lemma_each_ok(a, ctx, simplify_fuel(), t);
}

/// A call of a name that is neither declared nor a simplifier stays a call
/// of its simplified arguments, in order.
pub proof fn lemma_simplify_call_unknown(n: Seq<char>, a: Seq<ExprV>, ctx: ContextV, t: Seq<ExprV>)
    requires
        !ctx.functions.contains_key(n),
        !ctx.simplifiers.contains_key(n),
        t.len() == a.len(),
        forall|i: int| 0 <= i < a.len() ==> #[trigger] simplified(a[i], ctx, simplify_fuel()) == Ok::<
            ExprV,
            ErrorV,
        >(t[i]),
    ensures
        simplified(ExprV::Fun(n, a), ctx, simplify_fuel()) == Ok::<ExprV, ErrorV>(ExprV::Fun(n, t)),
{
    lemma_each_ok(a, ctx, simplify_fuel(), t);
}

/// A number in lowest terms, or a polynomial with sorted canonical pairs;
/// other expressions need nothing here.
pub open spec fn shallow_ok(e: ExprV) -> bool {
    match e {
        ExprV::Num(n) => n.canonical(),
        ExprV::Poly(_, p) => sorted_degrees(p) && canonical_pairs(p),
        _ => true,
    }
}

/// `shallow_ok`, and so is every factor of a product. The values of
/// well-formed expressions are such.
pub open spec fn factor_ok(e: ExprV) -> bool {
    &&& shallow_ok(e)
    &&& e matches ExprV::Mul(v) ==> forall|i: int| 0 <= i < v.len() ==> shallow_ok(#[trigger] v[i])
}

/// The values of well-formed expressions are `factor_ok`.
pub proof fn lemma_wf_factor_ok(e: Expr)
    requires
        e.wf(),
    ensures
        factor_ok(e@),
{
    match e {
        Expr::Poly(_, p) => p.lemma_canonical(),
        Expr::Mul(v) => {
            lemma_exprs(v@);
            assert forall|i: int| 0 <= i < v@.len() implies shallow_ok(#[trigger] exprs_view(v@)[i]) by {
                assert(expr_wf(v@[i]));
                match v@[i] {
                    Expr::Poly(_, p) => p.lemma_canonical(),
                    _ => {},
                }
            }
        },
        _ => {},
    }
}

/// Flattening products keeps every term `shallow_ok`, and keeps each number.
proof fn lemma_flatten_ok(t: Seq<ExprV>)
    requires
        forall|j: int| 0 <= j < t.len() ==> factor_ok(#[trigger] t[j]),
    ensures
        forall|k: int| 0 <= k < flatten(t, false).len() ==> shallow_ok(#[trigger] flatten(t, false)[k]),
        forall|j: int| 0 <= j < t.len() && (#[trigger] t[j]) is Num ==> exists|k: int|
            0 <= k < flatten(t, false).len() && flatten(t, false)[k] == t[j],
    decreases t.len(),
{
    if t.len() > 0 {
        let u = t.drop_last();
        assert forall|j: int| 0 <= j < u.len() implies factor_ok(#[trigger] u[j]) by {
            assert(u[j] == t[j]);
        }
        lemma_flatten_ok(u);
        let fu = flatten(u, false);
        let pl = parts(t.last(), false);
        let ft = flatten(t, false);
        assert(ft == fu + pl);
        assert(t.last() == t[t.len() - 1]);
        assert forall|k: int| 0 <= k < ft.len() implies shallow_ok(#[trigger] ft[k]) by {
            if k >= fu.len() {
                assert(ft[k] == pl[k - fu.len()]);
            } else {
                assert(ft[k] == fu[k]);
            }
        }
        assert forall|j: int| 0 <= j < t.len() && (#[trigger] t[j]) is Num implies exists|k: int|
            0 <= k < ft.len() && ft[k] == t[j] by {
            if j == t.len() - 1 {
                assert(ft[fu.len() as int] == pl[0]);
            } else {
                assert(u[j] == t[j]);
                let k = choose|k: int| 0 <= k < fu.len() && fu[k] == u[j];
                assert(ft[k] == fu[k]);
            }
        }
    }
}

/// The product of the numbers among `shallow_ok` terms is canonical, and
/// zero once one of them is zero.
proof fn lemma_num_total_zero(s: Seq<ExprV>, k: int)
    requires
        forall|j: int| 0 <= j < s.len() ==> shallow_ok(#[trigger] s[j]),
        0 <= k < s.len() ==> (s[k] matches ExprV::Num(z) && z.num == 0),
    ensures
        num_total(s, false).canonical(),
        0 <= k < s.len() ==> num_total(s, false).num == 0,
    decreases s.len(),
{
    lemma_small_canonical(1);
    if s.len() > 0 {
        let u = s.drop_last();
        assert forall|j: int| 0 <= j < u.len() implies shallow_ok(#[trigger] u[j]) by {
            assert(u[j] == s[j]);
        }
        assert(0 <= k < u.len() ==> u[k] == s[k]);
        lemma_num_total_zero(u, k);
        let acc = num_total(u, false);
        assert(s.last() == s[s.len() - 1]);
        match s.last() {
            ExprV::Num(x) => {
                lemma_ops_canonical(acc, x);
                assert(acc.den * x.den > 0) by (nonlinear_arith)
                    requires
                        acc.den > 0,
                        x.den > 0,
                ;
                lemma_reduce(acc.num * x.num, acc.den * x.den);
                if 0 <= k < s.len() {
                    assert(acc.num == 0 || x.num == 0);
                    assert(acc.num * x.num == 0) by (nonlinear_arith)
                        requires
                            acc.num == 0 || x.num == 0,
                    ;
                }
            },
            _ => {},
        }
    }
}

/// The position `group_index` finds is -1 or a position of the groups.
proof fn lemma_group_index(g: Seq<(Seq<char>, Seq<(Rat, Rat)>)>, sym: Seq<char>)
    ensures
        -1 <= group_index(g, sym) < g.len(),
    decreases g.len(),
{
    if g.len() > 0 {
        lemma_group_index(g.drop_last(), sym);
    }
}

/// The polynomials of the groups of `shallow_ok` terms have sorted canonical
/// pairs.
proof fn lemma_groups_ok(s: Seq<ExprV>)
    requires
        forall|j: int| 0 <= j < s.len() ==> shallow_ok(#[trigger] s[j]),
    ensures
        forall|i: int| 0 <= i < group_polys(s, false).len() ==> sorted_degrees(
            #[trigger] group_polys(s, false)[i].1,
        ) && canonical_pairs(group_polys(s, false)[i].1),
    decreases s.len(),
{
    if s.len() > 0 {
        let u = s.drop_last();
        assert forall|j: int| 0 <= j < u.len() implies shallow_ok(#[trigger] u[j]) by {
            assert(u[j] == s[j]);
        }
        lemma_groups_ok(u);
        let g = group_polys(u, false);
        assert(s.last() == s[s.len() - 1]);
        match s.last() {
            ExprV::Poly(sym, p) => {
                lemma_group_index(g, sym);
                let gi = group_index(g, sym);
                if gi >= 0 {
                    lemma_poly_mul_exists(g[gi].1, p);
                }
                let g2 = add_to_group(g, sym, p, false);
                assert forall|i: int| 0 <= i < g2.len() implies sorted_degrees(#[trigger] g2[i].1) && canonical_pairs(
                    g2[i].1,
                ) by {
                    if gi < 0 {
                        if i < g.len() {
                            assert(g2[i] == g[i]);
                        }
                    } else if i != gi {
                        assert(g2[i] == g[i]);
                    }
                }
            },
            _ => {},
        }
    }
}

/// Taking in the number parts of groups keeps a zero product zero.
proof fn lemma_group_total_zero(g: Seq<(Seq<char>, Seq<(Rat, Rat)>)>, acc: Rat)
    requires
        acc.canonical(),
        acc.num == 0,
        forall|i: int| 0 <= i < g.len() ==> canonical_pairs(#[trigger] g[i].1),
    ensures
        group_total(g, acc, false).canonical(),
        group_total(g, acc, false).num == 0,
    decreases g.len(),
{
    if g.len() > 0 {
        let u = g.drop_last();
        assert forall|i: int| 0 <= i < u.len() implies canonical_pairs(#[trigger] u[i].1) by {
            assert(u[i] == g[i]);
        }
        lemma_group_total_zero(u, acc);
        let a = group_total(u, acc, false);
        let p = g.last().1;
        assert(g.last() == g[g.len() - 1]);
        if has_factor(p) {
            let c = p[0].0;
            lemma_ops_canonical(a, c);
            assert(a.den * c.den > 0) by (nonlinear_arith)
                requires
                    a.den > 0,
                    c.den > 0,
            ;
            lemma_reduce(a.num * c.num, a.den * c.den);
            assert(a.num * c.num == 0) by (nonlinear_arith)
                requires
                    a.num == 0,
            ;
        }
    }
}

/// A zero factor makes the product zero: when the factors simplify to
/// values of well-formed expressions and one of them is zero, simplifying
/// the product gives zero, whatever the other factors are.
pub proof fn lemma_simplify_zero_factor(s: Seq<ExprV>, ctx: ContextV, t: Seq<ExprV>, i: int)
    requires
        t.len() == s.len(),
        forall|j: int| 0 <= j < s.len() ==> #[trigger] simplified(s[j], ctx, simplify_fuel()) == Ok::<
            ExprV,
            ErrorV,
        >(t[j]),
        forall|j: int| 0 <= j < t.len() ==> factor_ok(#[trigger] t[j]),
        0 <= i < t.len(),
        t[i] matches ExprV::Num(z) && z.num == 0,
    ensures
        simplified(ExprV::Mul(s), ctx, simplify_fuel()) == Ok::<ExprV, ErrorV>(ExprV::Num(rat_zero())),
{
    lemma_each_ok(s, ctx, simplify_fuel(), t);
    assert(simplified(ExprV::Mul(s), ctx, simplify_fuel()) == simplified_assoc(s, ctx, simplify_fuel(), false));
    assert(simplified_assoc(s, ctx, simplify_fuel(), false) == simplified_flat(
        flatten(t, false),
        ctx,
        simplify_fuel(),
        false,
    ));
    lemma_flatten_ok(t);
    let ft = flatten(t, false);
    let k = choose|k: int| 0 <= k < ft.len() && ft[k] == t[i];
    lemma_num_total_zero(ft, k);
    lemma_groups_ok(ft);
    lemma_group_total_zero(group_polys(ft, false), num_total(ft, false));
}

/// The position that `count_index` finds holds the term, and where it finds
/// none no entry holds it.
proof fn lemma_count_index(c: Seq<(ExprV, nat)>, e: ExprV)
    ensures
        count_index(c, e) < c.len(),
        count_index(c, e) >= 0 ==> c[count_index(c, e)].0 == e,
        count_index(c, e) < 0 ==> forall|k: int| 0 <= k < c.len() ==> (#[trigger] c[k]).0 != e,
    decreases c.len(),
{
    if c.len() > 0 && c.last().0 != e {
        lemma_count_index(c.drop_last(), e);
        assert forall|k: int| 0 <= k < c.len() - 1 implies #[trigger] c[k] == c.drop_last()[k] by {}
    }
}

/// Counting the terms lists each distinct term once, with the number of
/// times it occurs, and lists every term that occurs.
pub proof fn lemma_counts(s: Seq<ExprV>)
    ensures
        forall|k: int|
            0 <= k < counts(s).len() ==> (#[trigger] counts(s)[k]).1 == s.to_multiset().count(counts(s)[k].0),
        forall|k: int, j: int|
            0 <= k < j < counts(s).len() ==> (#[trigger] counts(s)[k]).0 != (#[trigger] counts(s)[j]).0,
        forall|e: ExprV| #[trigger] s.contains(e) ==> exists|k: int| 0 <= k < counts(s).len() && counts(s)[k].0 == e,
        forall|k: int| 0 <= k < counts(s).len() ==> s.contains(#[trigger] counts(s)[k].0),
    decreases s.len(),
{
    broadcast use vstd::seq_lib::group_to_multiset_ensures;

    if s.len() == 0 {
        assert forall|e: ExprV| #[trigger] s.contains(e) implies exists|k: int|
            0 <= k < counts(s).len() && counts(s)[k].0 == e by {}
    } else {
        let p = s.drop_last();
        let x = s.last();
        assert(p.push(x) =~= s);
        lemma_counts(p);
        let c = counts(p);
        let i = count_index(c, x);
        lemma_count_index(c, x);
        let r = counts(s);
        if i < 0 {
            assert(!p.contains(x));
            assert(p.to_multiset().count(x) == 0);
            assert(r == c.push((x, 1nat)));
            assert forall|k: int| 0 <= k < r.len() implies (#[trigger] r[k]).1 == s.to_multiset().count(r[k].0) by {
                if k < c.len() {
                    assert(r[k] == c[k]);
                }
            }
            assert forall|k: int, j: int| 0 <= k < j < r.len() implies (#[trigger] r[k]).0 != (#[trigger] r[j]).0 by {
                if j < c.len() {
                    assert(r[k] == c[k] && r[j] == c[j]);
                } else {
                    assert(r[k] == c[k]);
                }
            }
            assert forall|k: int| 0 <= k < r.len() implies s.contains(#[trigger] r[k].0) by {
                if k < c.len() {
                    assert(r[k] == c[k]);
                    let m = choose|m: int| 0 <= m < p.len() && p[m] == c[k].0;
                    assert(s[m] == p[m]);
                } else {
                    assert(s[s.len() - 1] == x);
                }
            }
            assert forall|e: ExprV| #[trigger] s.contains(e) implies exists|k: int|
                0 <= k < r.len() && r[k].0 == e by {
                if e == x {
                    assert(r[c.len() as int].0 == e);
                } else {
                    let m = choose|m: int| 0 <= m < s.len() && s[m] == e;
                    assert(p[m] == e);
                    assert(p.contains(e));
                    let k = choose|k: int| 0 <= k < c.len() && c[k].0 == e;
                    assert(r[k] == c[k]);
                }
            }
        } else {
            assert(r == c.update(i, (x, c[i].1 + 1)));
            assert forall|k: int| 0 <= k < r.len() implies (#[trigger] r[k]).1 == s.to_multiset().count(r[k].0) by {
                if k != i {
                    assert(r[k] == c[k]);
                    assert(c[k].0 != c[i].0);
                }
            }
            assert forall|k: int, j: int| 0 <= k < j < r.len() implies (#[trigger] r[k]).0 != (#[trigger] r[j]).0 by {
                assert(r[k].0 == c[k].0);
                assert(r[j].0 == c[j].0);
            }
            assert forall|k: int| 0 <= k < r.len() implies s.contains(#[trigger] r[k].0) by {
                if k != i {
                    assert(r[k] == c[k]);
                    let m = choose|m: int| 0 <= m < p.len() && p[m] == c[k].0;
                    assert(s[m] == p[m]);
                } else {
                    assert(s[s.len() - 1] == x);
                }
            }
            assert forall|e: ExprV| #[trigger] s.contains(e) implies exists|k: int|
                0 <= k < r.len() && r[k].0 == e by {
                if e == x {
                    assert(r[i].0 == e);
                } else {
                    let m = choose|m: int| 0 <= m < s.len() && s[m] == e;
                    assert(p[m] == e);
                    assert(p.contains(e));
                    let k = choose|k: int| 0 <= k < c.len() && c[k].0 == e;
                    assert(r[k].0 == c[k].0);
                }
            }
        }
    }
}

/// Calling a declared function binds each parameter to its argument: the
/// value of a parameter is the argument at its last position, and any other
/// name keeps its value.
#[verifier::rlimit(50)]
pub proof fn lemma_bind_params(vars: Map<Seq<char>, ExprV>, params: Seq<Seq<char>>, args: Seq<ExprV>)
    requires
        params.len() == args.len(),
    ensures
        forall|i: int|
            0 <= i < params.len() && (forall|j: int| i < j < params.len() ==> params[j] != params[i]) ==> {
                &&& bind_params(vars, params, args).contains_key(#[trigger] params[i])
                &&& bind_params(vars, params, args)[params[i]] == args[i]
            },
        forall|k: Seq<char>|
            !params.contains(k) ==> (#[trigger] bind_params(vars, params, args).contains_key(k) == vars.contains_key(
                k,
            ) && (vars.contains_key(k) ==> bind_params(vars, params, args)[k] == vars[k])),
    decreases params.len(),
{
    if params.len() > 0 {
        let p = params.drop_last();
        let a = args.drop_last();
        lemma_bind_params(vars, p, a);
        let b = bind_params(vars, params, args);
        assert(b == bind_params(vars, p, a).insert(params.last(), args.last()));
        assert forall|i: int|
            0 <= i < params.len() && (forall|j: int| i < j < params.len() ==> params[j] != params[i]) implies {
                &&& b.contains_key(#[trigger] params[i])
                &&& b[params[i]] == args[i]
            } by {
            if i < params.len() - 1 {
                assert(params[params.len() - 1] != params[i]);
                assert(p[i] == params[i]);
                assert(a[i] == args[i]);
                assert forall|j: int| i < j < p.len() implies p[j] != p[i] by {
                    assert(p[j] == params[j]);
                }
            }
        }
        assert forall|k: Seq<char>| !params.contains(k) implies (#[trigger] b.contains_key(k) == vars.contains_key(k)
            && (vars.contains_key(k) ==> b[k] == vars[k])) by {
            assert(k != params[params.len() - 1]);
            if p.contains(k) {
                let m = choose|m: int| 0 <= m < p.len() && p[m] == k;
                assert(params[m] == k);
            }
        }
    }
}

/// Calling a declared function with as many arguments as it has distinct
/// parameters simplifies its body one step deeper, in a context that binds
/// each parameter to its simplified argument and keeps every other name
/// and all functions and simplifiers.
pub proof fn lemma_simplify_call_declared(n: Seq<char>, a: Seq<ExprV>, ctx: ContextV, t: Seq<ExprV>)
    requires
        ctx.functions.contains_key(n),
        ctx.functions[n].params.len() == a.len(),
        forall|i: int, j: int|
            0 <= i < j < a.len() ==> ctx.functions[n].params[i] != ctx.functions[n].params[j],
        t.len() == a.len(),
        forall|i: int| 0 <= i < a.len() ==> #[trigger] simplified(a[i], ctx, simplify_fuel()) == Ok::<
            ExprV,
            ErrorV,
        >(t[i]),
    ensures
        exists|inner: ContextV|
            {
                &&& inner.functions == ctx.functions
                &&& inner.simplifiers == ctx.simplifiers
                &&& forall|i: int|
                    0 <= i < a.len() ==> inner.variables.contains_key(#[trigger] ctx.functions[n].params[i])
                        && inner.variables[ctx.functions[n].params[i]] == t[i]
                &&& forall|k: Seq<char>|
                    !ctx.functions[n].params.contains(k) ==> (#[trigger] inner.variables.contains_key(k)
                        == ctx.variables.contains_key(k) && (ctx.variables.contains_key(k)
                        ==> inner.variables[k] == ctx.variables[k]))
                &&& simplified(ExprV::Fun(n, a), ctx, simplify_fuel()) == simplified_jump(
                    ctx.functions[n].body,
                    inner,
                    simplify_fuel(),
                )
            },
{
    let fun = ctx.functions[n];
    lemma_each_ok(a, ctx, simplify_fuel(), t);
    lemma_bind_params(ctx.variables, fun.params, t);
    let inner = ContextV {
        functions: ctx.functions,
        simplifiers: ctx.simplifiers,
        variables: bind_params(ctx.variables, fun.params, t),
    };
    assert forall|i: int| 0 <= i < a.len() implies inner.variables.contains_key(
        #[trigger] ctx.functions[n].params[i],
    ) && inner.variables[ctx.functions[n].params[i]] == t[i] by {
        assert forall|j: int| i < j < fun.params.len() implies fun.params[j] != fun.params[i] by {}
    }
    assert forall|k: Seq<char>| !ctx.functions[n].params.contains(k) implies (#[trigger] inner.variables.contains_key(
        k,
    ) == ctx.variables.contains_key(k) && (ctx.variables.contains_key(k) ==> inner.variables[k]
        == ctx.variables[k])) by {
        assert(bind_params(ctx.variables, fun.params, t).contains_key(k) == ctx.variables.contains_key(k));
    }
    assert(simplified(ExprV::Fun(n, a), ctx, simplify_fuel()) == simplified_fun(n, a, ctx, simplify_fuel()));
    assert(simplified_fun(n, a, ctx, simplify_fuel()) == simplified_jump(fun.body, inner, simplify_fuel()));
}

} // verus!
