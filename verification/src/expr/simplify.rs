//! Simplification of expressions: what it computes, and how.
use crate::context::simplifiers::apply_simplifier;
use crate::context::{symbols_view, Context, ContextV, Symbol};
use crate::error::{result_view, Error, ErrorV};
use crate::expr::size::{expr_size, exprs_size, lemma_exprs_size};
use crate::expr::{exprs_view, exprs_wf, lemma_expr_order_eq, lemma_exprs, Expr, ExprV};
use crate::number::{Comparison, Number};
use crate::polynomial::{
    coeff_of, has_degree, lemma_poly_add, lemma_poly_add_const, lemma_poly_mul, lemma_remove_constant,
    lemma_scale_nonzero, nonzero_coeffs, poly_add, poly_add_const, poly_into_expr, poly_mul,
    remove_constant, scale, scale_div, Polynomial,
};
use crate::rational::{rat_add, rat_int, rat_mul, rat_one, rat_zero, Rat};
use vstd::prelude::*;

verus! {

/// The greatest number of nested steps that `Expr::simplify` takes into an
/// expression that is not a part of the one before: the body of a declared
/// function, a variable's value, a repeated term.
pub open spec fn simplify_fuel() -> nat {
    u64::MAX as nat
}

/// The result of simplifying `e` in the context `ctx` with at most `fuel`
/// nested steps into expressions that are not its parts.
pub open spec fn simplified(e: ExprV, ctx: ContextV, fuel: nat) -> Result<ExprV, ErrorV>
    decreases fuel, expr_size(e), 0nat,
{
    match e {
        ExprV::Add(s) => simplified_assoc(s, ctx, fuel, true),
        ExprV::Fun(n, a) => simplified_fun(n, a, ctx, fuel),
        ExprV::Mul(s) => simplified_assoc(s, ctx, fuel, false),
        ExprV::Num(_) => Ok(e),
        ExprV::Poly(sym, p) => simplified_poly(sym, p, ctx, fuel),
        ExprV::Pow(b, x) => simplified_pow(*b, *x, ctx, fuel),
    }
}

/// Simplifying `e`, which is not a part of the expression at hand, one
/// step deeper; with no step left it stays as it is.
pub open spec fn simplified_jump(e: ExprV, ctx: ContextV, fuel: nat) -> Result<ExprV, ErrorV>
    decreases fuel, 0nat, 0nat,
{
    if fuel == 0 {
        Ok(e)
    } else {
        simplified(e, ctx, (fuel - 1) as nat)
    }
}

/// Simplifying each expression in order; the first error stops.
pub open spec fn simplified_each(s: Seq<ExprV>, ctx: ContextV, fuel: nat) -> Result<
    Seq<ExprV>,
    ErrorV,
>
    decreases fuel, exprs_size(s), 1nat,
{
    if s.len() == 0 {
        Ok(Seq::empty())
    } else {
        proof {
            lemma_exprs_size(s);
        }
        match simplified_each(s.drop_last(), ctx, fuel) {
            Err(err) => Err(err),
            Ok(r) => match simplified(s.last(), ctx, fuel) {
                Err(err) => Err(err),
                Ok(x) => Ok(r.push(x)),
            },
        }
    }
}

/// A sum (`sum`) or product of simplified terms: the terms themselves.
pub open spec fn parts(e: ExprV, sum: bool) -> Seq<ExprV> {
    match e {
        ExprV::Add(v) => if sum {
            v
        } else {
            seq![e]
        },
        ExprV::Mul(v) => if !sum {
            v
        } else {
            seq![e]
        },
        _ => seq![e],
    }
}

/// The terms with inner sums (`sum`) or products flattened one level.
pub open spec fn flatten(s: Seq<ExprV>, sum: bool) -> Seq<ExprV>
    decreases s.len(),
{
    if s.len() == 0 {
        Seq::empty()
    } else {
        flatten(s.drop_last(), sum) + parts(s.last(), sum)
    }
}

/// Addition (`sum`) or multiplication.
pub open spec fn combine_rat(a: Rat, b: Rat, sum: bool) -> Rat {
    if sum {
        rat_add(a, b)
    } else {
        rat_mul(a, b)
    }
}

/// The sum (`sum`) or product of the numbers among the terms, folded in
/// order from zero or one.
pub open spec fn num_total(s: Seq<ExprV>, sum: bool) -> Rat
    decreases s.len(),
{
    if s.len() == 0 {
        if sum {
            rat_zero()
        } else {
            rat_one()
        }
    } else {
        match s.last() {
            ExprV::Num(x) => combine_rat(num_total(s.drop_last(), sum), x, sum),
            _ => num_total(s.drop_last(), sum),
        }
    }
}

/// The last position of the group of `sym`, or -1.
pub open spec fn group_index(g: Seq<(Seq<char>, Seq<(Rat, Rat)>)>, sym: Seq<char>) -> int
    decreases g.len(),
{
    if g.len() == 0 {
        -1
    } else if g.last().0 == sym {
        g.len() - 1
    } else {
        group_index(g.drop_last(), sym)
    }
}

/// The groups with the polynomial `p` of `sym` added (`sum`) or multiplied
/// into the group of `sym`, or appended as a new group.
pub open spec fn add_to_group(
    g: Seq<(Seq<char>, Seq<(Rat, Rat)>)>,
    sym: Seq<char>,
    p: Seq<(Rat, Rat)>,
    sum: bool,
) -> Seq<(Seq<char>, Seq<(Rat, Rat)>)> {
    let i = group_index(g, sym);
    if i < 0 {
        g.push((sym, p))
    } else if sum {
        g.update(i, (sym, poly_add(g[i].1, p)))
    } else {
        g.update(i, (sym, poly_mul(g[i].1, p)))
    }
}

/// The polynomials among the terms, summed (`sum`) or multiplied per
/// symbol, in the order in which the symbols first occur.
pub open spec fn group_polys(s: Seq<ExprV>, sum: bool) -> Seq<(Seq<char>, Seq<(Rat, Rat)>)>
    decreases s.len(),
{
    if s.len() == 0 {
        Seq::empty()
    } else {
        let g = group_polys(s.drop_last(), sum);
        match s.last() {
            ExprV::Poly(sym, p) => add_to_group(g, sym, p, sum),
            _ => g,
        }
    }
}

/// Whether a polynomial has a leading coefficient other than one, which
/// making it monic takes out.
pub open spec fn has_factor(p: Seq<(Rat, Rat)>) -> bool {
    p.len() > 0 && p[0].0 != rat_one()
}

/// `acc` with the number part of each group taken in: its constant term
/// added (`sum`), or its leading coefficient multiplied in.
pub open spec fn group_total(g: Seq<(Seq<char>, Seq<(Rat, Rat)>)>, acc: Rat, sum: bool) -> Rat
    decreases g.len(),
{
    if g.len() == 0 {
        acc
    } else {
        let a = group_total(g.drop_last(), acc, sum);
        let p = g.last().1;
        if sum {
            rat_add(a, coeff_of(p, rat_zero()))
        } else if has_factor(p) {
            rat_mul(a, p[0].0)
        } else {
            a
        }
    }
}

/// A group polynomial without its number part: without its constant term
/// (`sum`), or made monic.
pub open spec fn adjust(p: Seq<(Rat, Rat)>, sum: bool) -> Seq<(Rat, Rat)> {
    if sum {
        remove_constant(p)
    } else if has_factor(p) {
        scale_div(p, p[0].0)
    } else {
        p
    }
}

/// The groups with their number parts taken out.
pub open spec fn adjust_polys(g: Seq<(Seq<char>, Seq<(Rat, Rat)>)>, sum: bool) -> Seq<
    (Seq<char>, Seq<(Rat, Rat)>),
> {
    g.map_values(|x: (Seq<char>, Seq<(Rat, Rat)>)| (x.0, adjust(x.1, sum)))
}

/// Whether a polynomial is the number one.
pub open spec fn is_one_poly(p: Seq<(Rat, Rat)>) -> bool {
    p.len() == 1 && p[0].0 == rat_one() && p[0].1.num == 0
}

/// Whether a group stays: it is not zero (`sum`), or not one.
pub open spec fn keeps(p: Seq<(Rat, Rat)>, sum: bool) -> bool {
    if sum {
        p.len() > 0
    } else {
        !is_one_poly(p)
    }
}

/// The groups that stay, in order.
pub open spec fn keep_polys(g: Seq<(Seq<char>, Seq<(Rat, Rat)>)>, sum: bool) -> Seq<
    (Seq<char>, Seq<(Rat, Rat)>),
>
    decreases g.len(),
{
    if g.len() == 0 {
        Seq::empty()
    } else {
        let r = keep_polys(g.drop_last(), sum);
        if keeps(g.last().1, sum) {
            r.push(g.last())
        } else {
            r
        }
    }
}

/// The number term: the total unless it is zero (`sum`) or one.
pub open spec fn num_term(total: Rat, sum: bool) -> Option<Rat> {
    if (sum && total.num != 0) || (!sum && total != rat_one()) {
        Some(total)
    } else {
        None
    }
}

/// Where exactly one group is left, the number term goes into it.
pub open spec fn merge(
    num: Option<Rat>,
    g: Seq<(Seq<char>, Seq<(Rat, Rat)>)>,
    sum: bool,
) -> (Option<Rat>, Seq<(Seq<char>, Seq<(Rat, Rat)>)>) {
    match num {
        Some(c) => if g.len() == 1 {
            let p = if sum {
                poly_add_const(g[0].1, c)
            } else {
                scale(g[0].1, c)
            };
            (None, seq![(g[0].0, p)])
        } else {
            (num, g)
        },
        None => (num, g),
    }
}

/// The terms that are neither numbers nor polynomials, in order.
pub open spec fn rest_of(s: Seq<ExprV>) -> Seq<ExprV>
    decreases s.len(),
{
    if s.len() == 0 {
        Seq::empty()
    } else {
        let r = rest_of(s.drop_last());
        match s.last() {
            ExprV::Num(_) => r,
            ExprV::Poly(_, _) => r,
            e => r.push(e),
        }
    }
}

/// The last position of `e` among the counted terms, or -1.
pub open spec fn count_index(c: Seq<(ExprV, nat)>, e: ExprV) -> int
    decreases c.len(),
{
    if c.len() == 0 {
        -1
    } else if c.last().0 == e {
        c.len() - 1
    } else {
        count_index(c.drop_last(), e)
    }
}

/// Each distinct term with the number of its occurrences, in the order of
/// first occurrence.
pub open spec fn counts(s: Seq<ExprV>) -> Seq<(ExprV, nat)>
    decreases s.len(),
{
    if s.len() == 0 {
        Seq::empty()
    } else {
        let c = counts(s.drop_last());
        let i = count_index(c, s.last());
        if i < 0 {
            c.push((s.last(), 1))
        } else {
            c.update(i, (s.last(), c[i].1 + 1))
        }
    }
}

/// A term repeated `n` times: times `n` in a sum, to the power of `n` in a
/// product.
pub open spec fn repeated(e: ExprV, n: nat, sum: bool) -> ExprV {
    if sum {
        ExprV::Mul(seq![e, ExprV::Num(rat_int(n as int))])
    } else {
        ExprV::Pow(Box::new(e), Box::new(ExprV::Num(rat_int(n as int))))
    }
}

/// Simplifying each repeated term in order; the first error stops.
pub open spec fn simplified_terms(
    c: Seq<(ExprV, nat)>,
    ctx: ContextV,
    fuel: nat,
    sum: bool,
) -> Result<Seq<ExprV>, ErrorV>
    decreases fuel, 0nat, c.len() + 1,
{
    if c.len() == 0 {
        Ok(Seq::empty())
    } else {
        match simplified_terms(c.drop_last(), ctx, fuel, sum) {
            Err(err) => Err(err),
            Ok(r) => match simplified_jump(repeated(c.last().0, c.last().1, sum), ctx, fuel) {
                Err(err) => Err(err),
                Ok(x) => Ok(r.push(x)),
            },
        }
    }
}

/// `x` inserted into the sorted `s` after every term that is not greater.
pub open spec fn insert_sorted(s: Seq<ExprV>, x: ExprV) -> Seq<ExprV>
    decreases s.len(),
{
    if s.len() == 0 {
        seq![x]
    } else if crate::expr::expr_order(s.last(), x) == crate::number::Comparison::Greater {
        insert_sorted(s.drop_last(), x).push(s.last())
    } else {
        s.push(x)
    }
}

/// The terms in the consistent order of expressions (a stable sort).
pub open spec fn sort_exprs(s: Seq<ExprV>) -> Seq<ExprV>
    decreases s.len(),
{
    if s.len() == 0 {
        Seq::empty()
    } else {
        insert_sorted(sort_exprs(s.drop_last()), s.last())
    }
}

/// The polynomial groups as expressions.
pub open spec fn poly_terms(g: Seq<(Seq<char>, Seq<(Rat, Rat)>)>) -> Seq<ExprV> {
    g.map_values(|x: (Seq<char>, Seq<(Rat, Rat)>)| ExprV::Poly(x.0, x.1))
}

/// The optional number as a sequence of at most one term.
pub open spec fn num_terms(num: Option<Rat>) -> Seq<ExprV> {
    match num {
        Some(c) => seq![ExprV::Num(c)],
        None => Seq::empty(),
    }
}

/// The result from its terms: zero or one when there are none, the term
/// when there is one, else the sum (`sum`) or product of the sorted terms.
pub open spec fn assemble(s: Seq<ExprV>, sum: bool) -> ExprV {
    if s.len() == 0 {
        ExprV::Num(
            if sum {
                rat_zero()
            } else {
                rat_one()
            },
        )
    } else if s.len() == 1 {
        s[0]
    } else if sum {
        ExprV::Add(sort_exprs(s))
    } else {
        ExprV::Mul(sort_exprs(s))
    }
}

/// Simplifying a sum (`sum`) or product of the terms `s`: the terms are
/// simplified and flattened; the polynomials are combined per symbol; the
/// numbers, with the number parts of the polynomials, are combined into one
/// (a zero product is zero); repeated terms are counted; and the result is
/// assembled in order.
pub open spec fn simplified_assoc(s: Seq<ExprV>, ctx: ContextV, fuel: nat, sum: bool) -> Result<
    ExprV,
    ErrorV,
>
    decreases fuel, exprs_size(s) + 2, 0nat,
{
    match simplified_each(s, ctx, fuel) {
        Err(err) => Err(err),
        Ok(t) => simplified_flat(flatten(t, sum), ctx, fuel, sum),
    }
}

/// The steps of `simplified_assoc` after the terms were simplified and
/// flattened.
pub open spec fn simplified_flat(s: Seq<ExprV>, ctx: ContextV, fuel: nat, sum: bool) -> Result<
    ExprV,
    ErrorV,
>
    decreases fuel, 1nat, 0nat,
{
    let groups = group_polys(s, sum);
    let total = group_total(groups, num_total(s, sum), sum);
    if !sum && total.num == 0 {
        Ok(ExprV::Num(rat_zero()))
    } else {
        let merged = merge(num_term(total, sum), keep_polys(adjust_polys(groups, sum), sum), sum);
        match simplified_terms(counts(rest_of(s)), ctx, fuel, sum) {
            Err(err) => Err(err),
            Ok(terms) => Ok(
                assemble(terms + num_terms(merged.0) + poly_terms(merged.1), sum),
            ),
        }
    }
}

/// The variables of `vars` with each parameter bound to its argument, in
/// order.
pub open spec fn bind_params(
    vars: Map<Seq<char>, ExprV>,
    params: Seq<Seq<char>>,
    args: Seq<ExprV>,
) -> Map<Seq<char>, ExprV>
    decreases params.len(),
{
    if params.len() == 0 || args.len() == 0 {
        vars
    } else {
        bind_params(vars, params.drop_last(), args.drop_last()).insert(params.last(), args.last())
    }
}

/// Simplifying a function call: the arguments are simplified; a declared
/// function is applied to them, a simplifier is run on them, and any other
/// call stays a call.
pub open spec fn simplified_fun(n: Seq<char>, a: Seq<ExprV>, ctx: ContextV, fuel: nat) -> Result<
    ExprV,
    ErrorV,
>
    decreases fuel, exprs_size(a) + 2, 0nat,
{
    match simplified_each(a, ctx, fuel) {
        Err(err) => Err(err),
        Ok(args) => if ctx.functions.contains_key(n) {
            let fun = ctx.functions[n];
            if fun.params.len() != args.len() {
                Err(ErrorV::ArgumentCount(fun.name))
            } else {
                let inner = ContextV {
                    functions: ctx.functions,
                    simplifiers: ctx.simplifiers,
                    variables: bind_params(ctx.variables, fun.params, args),
                };
                simplified_jump(fun.body, inner, fuel)
            }
        } else if ctx.simplifiers.contains_key(n) {
            apply_simplifier(ctx.simplifiers[n], args)
        } else {
            Ok(ExprV::Fun(n, args))
        },
    }
}

/// Simplifying a polynomial: a constant becomes a number, a declared
/// variable is inserted and the result simplified, else it stays.
pub open spec fn simplified_poly(
    sym: Seq<char>,
    p: Seq<(Rat, Rat)>,
    ctx: ContextV,
    fuel: nat,
) -> Result<ExprV, ErrorV>
    decreases fuel, 1nat, 0nat,
{
    if p.len() == 0 || (p.len() == 1 && p[0].1.num == 0) {
        Ok(ExprV::Num(coeff_of(p, rat_zero())))
    } else if ctx.variables.contains_key(sym) {
        simplified_jump(poly_into_expr(p, ctx.variables[sym]), ctx, fuel)
    } else {
        Ok(ExprV::Poly(sym, p))
    }
}

/// Simplifying a power: base and exponent are simplified; zero to a
/// negative power is an error; one to any power and anything to the power
/// zero is one; zero to any power and anything to the power one is the
/// base; else it stays a power.
pub open spec fn simplified_pow(b: ExprV, x: ExprV, ctx: ContextV, fuel: nat) -> Result<
    ExprV,
    ErrorV,
>
    decreases fuel, expr_size(b) + expr_size(x) + 1, 0nat,
{
    match simplified(b, ctx, fuel) {
        Err(err) => Err(err),
        Ok(b2) => match simplified(x, ctx, fuel) {
            Err(err) => Err(err),
            Ok(x2) => {
                let b_zero = b2 matches ExprV::Num(v) && v.num == 0;
                let b_one = b2 matches ExprV::Num(v) && v == rat_one();
                let x_neg = x2 matches ExprV::Num(v) && v.num < 0;
                let x_zero = x2 matches ExprV::Num(v) && v.num == 0;
                let x_one = x2 matches ExprV::Num(v) && v == rat_one();
                if b_zero && x_neg {
                    Err(ErrorV::DivisionByZero)
                } else if b_one || x_zero {
                    Ok(ExprV::Num(rat_one()))
                } else if b_zero || x_one {
                    Ok(b2)
                } else {
                    Ok(ExprV::Pow(Box::new(b2), Box::new(x2)))
                }
            },
        },
    }
}


/// The values of a result holding a vector of expressions.
pub open spec fn results_view(r: Result<Vec<Expr>, Error>) -> Result<Seq<ExprV>, ErrorV> {
    match r {
        Ok(v) => Ok(exprs_view(v@)),
        Err(e) => Err(e@),
    }
}

/// The values of polynomial groups.
spec fn groups_view(g: Seq<(Symbol, Polynomial)>) -> Seq<(Seq<char>, Seq<(Rat, Rat)>)> {
    g.map_values(|x: (Symbol, Polynomial)| (x.0@, x.1@))
}

/// Every group polynomial is well formed without zero coefficients.
spec fn groups_ok(g: Seq<(Symbol, Polynomial)>) -> bool {
    forall|i: int| 0 <= i < g.len() ==> (#[trigger] g[i]).1.wf() && nonzero_coeffs(g[i].1@)
}

/// The values of counted terms.
spec fn counts_view(c: Seq<(Expr, usize)>) -> Seq<(ExprV, nat)> {
    c.map_values(|x: (Expr, usize)| (x.0@, x.1 as nat))
}

/// The value of an optional number.
spec fn opt_view(n: Option<Number>) -> Option<Rat> {
    match n {
        Some(c) => Some(c@),
        None => None,
    }
}

proof fn lemma_push(s: Seq<Expr>, x: Expr)
    ensures
        exprs_view(s.push(x)) == exprs_view(s).push(x@),
        exprs_wf(s.push(x)) == (exprs_wf(s) && x.wf()),
{
    assert(s.push(x).subrange(0, s.len() as int) =~= s);
}

proof fn lemma_each_prefix(s: Seq<ExprV>, k: int, ctx: ContextV, fuel: nat)
    requires
        0 <= k <= s.len(),
        simplified_each(s.take(k), ctx, fuel) is Err,
    ensures
        simplified_each(s, ctx, fuel) == simplified_each(s.take(k), ctx, fuel),
    decreases s.len(),
{
    if k == s.len() {
        assert(s.take(k) =~= s);
    } else {
        assert(s.drop_last().take(k) =~= s.take(k));
        lemma_each_prefix(s.drop_last(), k, ctx, fuel);
    }
}

proof fn lemma_terms_prefix(c: Seq<(ExprV, nat)>, k: int, ctx: ContextV, fuel: nat, sum: bool)
    requires
        0 <= k <= c.len(),
        simplified_terms(c.take(k), ctx, fuel, sum) is Err,
    ensures
        simplified_terms(c, ctx, fuel, sum) == simplified_terms(c.take(k), ctx, fuel, sum),
    decreases c.len(),
{
    if k == c.len() {
        assert(c.take(k) =~= c);
    } else {
        assert(c.drop_last().take(k) =~= c.take(k));
        lemma_terms_prefix(c.drop_last(), k, ctx, fuel, sum);
    }
}

impl Expr {
    /// Simplifies this expression on a best-effort basis.
    pub fn simplify(self, ctx: &Context) -> (r: Result<Expr, Error>)
        requires
            self.wf(),
            ctx.wf(),
        ensures
            result_view(r) == simplified(self@, ctx@, simplify_fuel()),
            r matches Ok(e) ==> e.wf(),
    {
        self.simplify_with(ctx, u64::MAX)
    }

    /// Simplifies with at most `fuel` nested steps into expressions that are
    /// not parts of this one.
    fn simplify_with(&self, ctx: &Context, fuel: u64) -> (r: Result<Expr, Error>)
        requires
            self.wf(),
            ctx.wf(),
        ensures
            result_view(r) == simplified(self@, ctx@, fuel as nat),
            r matches Ok(e) ==> e.wf(),
        decreases fuel, expr_size(self@), 0nat,
    {
        match self {
            Expr::Add(v) => simplify_assoc(v, ctx, fuel, true),
            Expr::Fun(n, a) => simplify_fun(n, a, ctx, fuel),
            Expr::Mul(v) => simplify_assoc(v, ctx, fuel, false),
            Expr::Num(_) => Ok(self.copy()),
            Expr::Poly(s, p) => simplify_poly(s, p, ctx, fuel),
            Expr::Pow(b, x) => simplify_pow(b, x, ctx, fuel),
        }
    }
}

/// Simplifies `e`, which is not a part of the expression at hand, one step
/// deeper; with no step left it stays as it is.
fn simplify_jump(e: &Expr, ctx: &Context, f: u64) -> (r: Result<Expr, Error>)
    requires
        e.wf(),
        ctx.wf(),
    ensures
        result_view(r) == simplified_jump(e@, ctx@, f as nat),
        r matches Ok(x) ==> x.wf(),
    decreases f, 0nat, 0nat,
{
    if f == 0 {
        Ok(e.copy())
    } else {
        e.simplify_with(ctx, f - 1)
    }
}

/// Simplifies each expression in order, stopping at the first error.
fn simplify_each(v: &Vec<Expr>, ctx: &Context, f: u64) -> (r: Result<Vec<Expr>, Error>)
    requires
        exprs_wf(v@),
        ctx.wf(),
    ensures
        results_view(r) == simplified_each(exprs_view(v@), ctx@, f as nat),
        r matches Ok(w) ==> exprs_wf(w@),
    decreases f, exprs_size(exprs_view(v@)), 1nat,
{
    proof {
        lemma_exprs(v@);
        lemma_exprs_size(exprs_view(v@));
    }
    let ghost s = exprs_view(v@);
    let mut out: Vec<Expr> = Vec::new();
    let n = v.len();
    for i in 0..n
        invariant
            n == v@.len(),
            s == exprs_view(v@),
            s.len() == n,
            forall|j: int| 0 <= j < n ==> #[trigger] s[j] == v@[j]@ && v@[j].wf(),
            forall|j: int| 0 <= j < n ==> expr_size(#[trigger] s[j]) <= exprs_size(s),
            ctx.wf(),
            simplified_each(s.take(i as int), ctx@, f as nat) == Ok::<Seq<ExprV>, ErrorV>(
                exprs_view(out@),
            ),
            exprs_wf(out@),
    {
        let ghost before = out@;
        proof {
            assert(s.take(i + 1).drop_last() =~= s.take(i as int));
            assert(s.take(i + 1).last() == s[i as int]);
        }
        match v[i].simplify_with(ctx, f) {
            Err(e) => {
                proof {
                    lemma_each_prefix(s, i + 1, ctx@, f as nat);
                }
                return Err(e);
            },
            Ok(x) => {
                let ghost xv = x;
                out.push(x);
                proof {
                    lemma_push(before, xv);
                }
            },
        }
    }
    proof {
        assert(s.take(n as int) =~= s);
    }
    Ok(out)
}

/// Simplifies a power.
fn simplify_pow(b: &Box<Expr>, x: &Box<Expr>, ctx: &Context, f: u64) -> (r: Result<Expr, Error>)
    requires
        (**b).wf(),
        (**x).wf(),
        ctx.wf(),
    ensures
        result_view(r) == simplified_pow((**b)@, (**x)@, ctx@, f as nat),
        r matches Ok(e) ==> e.wf(),
    decreases f, expr_size((**b)@) + expr_size((**x)@) + 1, 0nat,
{
    let b2 = match (**b).simplify_with(ctx, f) {
        Err(e) => return Err(e),
        Ok(y) => y,
    };
    let x2 = match (**x).simplify_with(ctx, f) {
        Err(e) => return Err(e),
        Ok(y) => y,
    };
    let b_zero = match &b2 {
        Expr::Num(n) => n.is_zero(),
        _ => false,
    };
    let b_one = match &b2 {
        Expr::Num(n) => n.is_one(),
        _ => false,
    };
    let x_neg = match &x2 {
        Expr::Num(n) => n.is_negative(),
        _ => false,
    };
    let x_zero = match &x2 {
        Expr::Num(n) => n.is_zero(),
        _ => false,
    };
    let x_one = match &x2 {
        Expr::Num(n) => n.is_one(),
        _ => false,
    };
    if b_zero && x_neg {
        Err(Error::DivisionByZero)
    } else if b_one || x_zero {
        Ok(Expr::one())
    } else if b_zero || x_one {
        Ok(b2)
    } else {
        Ok(Expr::Pow(Box::new(b2), Box::new(x2)))
    }
}

/// Simplifies a polynomial.
fn simplify_poly(sym: &Symbol, p: &Polynomial, ctx: &Context, f: u64) -> (r: Result<Expr, Error>)
    requires
        p.wf(),
        nonzero_coeffs(p@),
        ctx.wf(),
    ensures
        result_view(r) == simplified_poly(sym@, p@, ctx@, f as nat),
        r matches Ok(e) ==> e.wf(),
    decreases f, 1nat, 0nat,
{
    if p.is_constant() {
        let (c, _) = p.clone().split_constant();
        return Ok(Expr::Num(c));
    }
    match ctx.variables.get(sym) {
        Some(v) => {
            let e = p.clone().into_expr(v);
            simplify_jump(&e, ctx, f)
        },
        None => Ok(Expr::Poly(sym.clone(), p.clone())),
    }
}

/// Simplifies a function call.
fn simplify_fun(n: &Symbol, a: &Vec<Expr>, ctx: &Context, f: u64) -> (r: Result<Expr, Error>)
    requires
        exprs_wf(a@),
        ctx.wf(),
    ensures
        result_view(r) == simplified_fun(n@, exprs_view(a@), ctx@, f as nat),
        r matches Ok(e) ==> e.wf(),
    decreases f, exprs_size(exprs_view(a@)) + 2, 0nat,
{
    let args = match simplify_each(a, ctx, f) {
        Err(e) => return Err(e),
        Ok(w) => w,
    };
    proof {
        lemma_exprs(args@);
    }
    let ghost av = exprs_view(args@);
    match ctx.functions.get(n) {
        Some(fun) => {
            if fun.params.len() != args.len() {
                return Err(Error::ArgumentCount(fun.name.clone()));
            }
            let ghost ps = symbols_view(fun.params@);
            let mut temp = ctx.duplicate();
            let m = fun.params.len();
            for i in 0..m
                invariant
                    m == fun.params@.len(),
                    m == args@.len(),
                    ps == symbols_view(fun.params@),
                    av == exprs_view(args@),
                    av.len() == m,
                    forall|j: int| 0 <= j < m ==> #[trigger] av[j] == args@[j]@ && args@[j].wf(),
                    temp.wf(),
                    temp@.functions == ctx@.functions,
                    temp@.simplifiers == ctx@.simplifiers,
                    temp@.variables == bind_params(
                        ctx@.variables,
                        ps.take(i as int),
                        av.take(i as int),
                    ),
            {
                proof {
                    assert(ps.take(i + 1).drop_last() =~= ps.take(i as int));
                    assert(av.take(i + 1).drop_last() =~= av.take(i as int));
                    assert(ps.take(i + 1).last() == fun.params@[i as int]@);
                    assert(av.take(i + 1).last() == av[i as int]);
                }
                temp.variables.insert(fun.params[i].clone(), args[i].copy());
            }
            proof {
                assert(ps.take(m as int) =~= ps);
                assert(av.take(m as int) =~= av);
            }
            simplify_jump(&fun.body, &temp, f)
        },
        None => match ctx.simplifiers.get(n) {
            Some(s) => s.apply(args),
            None => Ok(Expr::Fun(n.clone(), args)),
        },
    }
}

/// Simplifies a sum (`sum`) or product.
fn simplify_assoc(v: &Vec<Expr>, ctx: &Context, f: u64, sum: bool) -> (r: Result<Expr, Error>)
    requires
        exprs_wf(v@),
        ctx.wf(),
    ensures
        result_view(r) == simplified_assoc(exprs_view(v@), ctx@, f as nat, sum),
        r matches Ok(e) ==> e.wf(),
    decreases f, exprs_size(exprs_view(v@)) + 2, 0nat,
{
    let t = match simplify_each(v, ctx, f) {
        Err(e) => return Err(e),
        Ok(t) => t,
    };
    let s = flatten_exprs(&t, sum);
    simplify_flat(&s, ctx, f, sum)
}

/// Appends copies of the expressions of `w` to `out`.
fn append_copies(out: &mut Vec<Expr>, w: &Vec<Expr>)
    requires
        exprs_wf(old(out)@),
        exprs_wf(w@),
    ensures
        exprs_view(final(out)@) == exprs_view(old(out)@) + exprs_view(w@),
        exprs_wf(final(out)@),
{
    proof {
        lemma_exprs(w@);
    }
    let ghost start = exprs_view(out@);
    let ghost wv = exprs_view(w@);
    let n = w.len();
    for j in 0..n
        invariant
            n == w@.len(),
            wv == exprs_view(w@),
            wv.len() == n,
            forall|k: int| 0 <= k < n ==> #[trigger] wv[k] == w@[k]@ && w@[k].wf(),
            exprs_view(out@) == start + wv.take(j as int),
            exprs_wf(out@),
    {
        let ghost before = out@;
        let x = w[j].copy();
        let ghost xv = x;
        out.push(x);
        proof {
            lemma_push(before, xv);
            assert(start + wv.take(j + 1) =~= (start + wv.take(j as int)).push(wv[j as int]));
        }
    }
    proof {
        assert(wv.take(n as int) =~= wv);
    }
}

/// The terms with inner sums (`sum`) or products flattened one level.
fn flatten_exprs(v: &Vec<Expr>, sum: bool) -> (r: Vec<Expr>)
    requires
        exprs_wf(v@),
    ensures
        exprs_view(r@) == flatten(exprs_view(v@), sum),
        exprs_wf(r@),
{
    proof {
        lemma_exprs(v@);
    }
    let ghost s = exprs_view(v@);
    let mut out: Vec<Expr> = Vec::new();
    let n = v.len();
    for i in 0..n
        invariant
            n == v@.len(),
            s == exprs_view(v@),
            s.len() == n,
            forall|j: int| 0 <= j < n ==> #[trigger] s[j] == v@[j]@ && v@[j].wf(),
            exprs_view(out@) == flatten(s.take(i as int), sum),
            exprs_wf(out@),
    {
        proof {
            assert(s.take(i + 1).drop_last() =~= s.take(i as int));
            assert(s.take(i + 1).last() == s[i as int]);
        }
        let ghost before = out@;
        match &v[i] {
            Expr::Add(w) if sum => {
                append_copies(&mut out, w);
            },
            Expr::Mul(w) if !sum => {
                append_copies(&mut out, w);
            },
            _ => {
                let x = v[i].copy();
                let ghost xv = x;
                out.push(x);
                proof {
                    lemma_push(before, xv);
                    assert(exprs_view(before).push(xv@) =~= exprs_view(before) + seq![xv@]);
                }
            },
        }
    }
    proof {
        assert(s.take(n as int) =~= s);
    }
    out
}


/// The steps of a sum (`sum`) or product after its terms were simplified and
/// flattened.
fn simplify_flat(s: &Vec<Expr>, ctx: &Context, f: u64, sum: bool) -> (r: Result<Expr, Error>)
    requires
        exprs_wf(s@),
        ctx.wf(),
    ensures
        result_view(r) == simplified_flat(exprs_view(s@), ctx@, f as nat, sum),
        r matches Ok(e) ==> e.wf(),
    decreases f, 1nat, 0nat,
{
    let (total0, groups0, rest) = classify(s, sum);
    let (total, groups1) = take_number_parts(total0, groups0, sum);
    if !sum && total.is_zero() {
        return Ok(Expr::zero());
    }
    let groups2 = keep_groups(groups1, sum);
    let keep_num = if sum {
        !total.is_zero()
    } else {
        !total.is_one()
    };
    let num = if keep_num {
        Some(total)
    } else {
        None
    };
    let (num, groups) = merge_groups(num, groups2, sum);
    let counted = count_terms(&rest);
    let terms = match simplify_terms(&counted, ctx, f, sum) {
        Err(e) => return Err(e),
        Ok(t) => t,
    };
    Ok(assemble_terms(terms, num, groups, sum))
}

/// Splits the terms into the combined number, the polynomials combined per
/// symbol, and the other terms.
fn classify(s: &Vec<Expr>, sum: bool) -> (r: (Number, Vec<(Symbol, Polynomial)>, Vec<Expr>))
    requires
        exprs_wf(s@),
    ensures
        r.0.wf(),
        r.0@ == num_total(exprs_view(s@), sum),
        groups_view(r.1@) == group_polys(exprs_view(s@), sum),
        groups_ok(r.1@),
        exprs_view(r.2@) == rest_of(exprs_view(s@)),
        exprs_wf(r.2@),
{
    proof {
        lemma_exprs(s@);
    }
    let ghost sv = exprs_view(s@);
    let mut total = if sum {
        Number::zero()
    } else {
        Number::one()
    };
    let mut groups: Vec<(Symbol, Polynomial)> = Vec::new();
    let mut rest: Vec<Expr> = Vec::new();
    proof {
        assert(groups_view(groups@) =~= Seq::<(Seq<char>, Seq<(Rat, Rat)>)>::empty());
    }
    let n = s.len();
    for i in 0..n
        invariant
            n == s@.len(),
            sv == exprs_view(s@),
            sv.len() == n,
            forall|j: int| 0 <= j < n ==> #[trigger] sv[j] == s@[j]@ && s@[j].wf(),
            total.wf(),
            total@ == num_total(sv.take(i as int), sum),
            groups_view(groups@) == group_polys(sv.take(i as int), sum),
            groups_ok(groups@),
            exprs_view(rest@) == rest_of(sv.take(i as int)),
            exprs_wf(rest@),
    {
        proof {
            assert(sv.take(i + 1).drop_last() =~= sv.take(i as int));
            assert(sv.take(i + 1).last() == sv[i as int]);
        }
        match &s[i] {
            Expr::Num(x) => {
                total = if sum {
                    total.add(x)
                } else {
                    total.mul(x)
                };
            },
            Expr::Poly(sym, p) => {
                add_group(&mut groups, sym, p, sum);
            },
            _ => {
                let ghost before = rest@;
                let x = s[i].copy();
                let ghost xv = x;
                rest.push(x);
                proof {
                    lemma_push(before, xv);
                }
            },
        }
    }
    proof {
        assert(sv.take(n as int) =~= sv);
    }
    (total, groups, rest)
}

/// The position of the group of `sym`, searched from the back.
fn find_group(groups: &Vec<(Symbol, Polynomial)>, sym: &Symbol) -> (r: Option<usize>)
    ensures
        match r {
            Some(i) => i < groups@.len() && i as int == group_index(groups_view(groups@), sym@),
            None => group_index(groups_view(groups@), sym@) == -1,
        },
{
    let ghost g = groups_view(groups@);
    let mut j = groups.len();
    proof {
        assert(g.take(j as int) =~= g);
    }
    while j > 0
        invariant
            j <= groups@.len(),
            g == groups_view(groups@),
            group_index(g, sym@) == group_index(g.take(j as int), sym@),
        decreases j,
    {
        proof {
            assert(g.take(j as int).last() == g[j - 1]);
            assert(g.take(j as int).drop_last() =~= g.take(j - 1));
        }
        if groups[j - 1].0.same(sym) {
            return Some(j - 1);
        }
        j = j - 1;
    }
    None
}

/// Adds (`sum`) or multiplies the polynomial into the group of its symbol,
/// or appends a new group.
fn add_group(groups: &mut Vec<(Symbol, Polynomial)>, sym: &Symbol, p: &Polynomial, sum: bool)
    requires
        groups_ok(old(groups)@),
        p.wf(),
        nonzero_coeffs(p@),
    ensures
        groups_ok(final(groups)@),
        groups_view(final(groups)@) == add_to_group(groups_view(old(groups)@), sym@, p@, sum),
{
    let ghost g = groups_view(groups@);
    let ghost old_groups = groups@;
    match find_group(groups, sym) {
        None => {
            groups.push((sym.clone(), p.clone()));
            proof {
                assert(groups_view(groups@) =~= g.push((sym@, p@)));
                assert forall|i: int| 0 <= i < groups@.len() implies (#[trigger] groups@[i]).1.wf()
                    && nonzero_coeffs(groups@[i].1@) by {
                    if i < old_groups.len() {
                        assert(groups@[i] == old_groups[i]);
                    }
                }
            }
        },
        Some(i) => {
            let mut q = groups[i].1.clone();
            let ghost q0 = q@;
            assert(q0 == g[i as int].1);
            if sum {
                q.add_assign_poly(p.clone());
                proof {
                    q.lemma_value();
                    lemma_poly_add(q@, q0, p@);
                }
            } else {
                q.mul_assign_poly(p);
                proof {
                    q.lemma_value();
                    lemma_poly_mul(q@, q0, p@);
                }
            }
            let ghost qv = q@;
            groups.set(i, (sym.clone(), q));
            proof {
                assert(groups_view(groups@) =~= g.update(i as int, (sym@, qv)));
                assert forall|j: int| 0 <= j < groups@.len() implies (#[trigger] groups@[j]).1.wf()
                    && nonzero_coeffs(groups@[j].1@) by {
                    if j != i {
                        assert(groups@[j] == old_groups[j]);
                    }
                }
            }
        },
    }
}

/// Takes the number part out of each group: its constant term (`sum`), or
/// its leading coefficient by making it monic; returns the total with them.
fn take_number_parts(total: Number, groups: Vec<(Symbol, Polynomial)>, sum: bool) -> (r: (
    Number,
    Vec<(Symbol, Polynomial)>,
))
    requires
        total.wf(),
        groups_ok(groups@),
    ensures
        r.0.wf(),
        r.0@ == group_total(groups_view(groups@), total@, sum),
        groups_view(r.1@) == adjust_polys(groups_view(groups@), sum),
        groups_ok(r.1@),
{
    let ghost g = groups_view(groups@);
    let ghost t0 = total@;
    let mut total = total;
    let mut out: Vec<(Symbol, Polynomial)> = Vec::new();
    proof {
        assert(groups_view(out@) =~= adjust_polys(g.take(0), sum));
    }
    let n = groups.len();
    for i in 0..n
        invariant
            n == groups@.len(),
            g == groups_view(groups@),
            groups_ok(groups@),
            total.wf(),
            total@ == group_total(g.take(i as int), t0, sum),
            groups_view(out@) == adjust_polys(g.take(i as int), sum),
            groups_ok(out@),
    {
        proof {
            assert(g.take(i + 1).drop_last() =~= g.take(i as int));
            assert(g.take(i + 1).last() == g[i as int]);
        }
        let mut q = groups[i].1.clone();
        let ghost q0 = q@;
        assert(q0 == g[i as int].1);
        assert(q.wf() && nonzero_coeffs(q0));
        if sum {
            let c = q.split_constant_mut();
            total = total.add(&c);
            proof {
                if has_degree(q0, rat_zero()) {
                    let k = choose|k: int|
                        0 <= k < q0.len() && #[trigger] q0[k].1 == rat_zero() && q@ == q0.remove(k);
                    lemma_remove_constant(q0, k);
                    assert forall|j: int| 0 <= j < q@.len() implies (#[trigger] q@[j]).0.num != 0 by {
                        if j < k {
                            assert(q@[j] == q0[j]);
                        } else {
                            assert(q@[j] == q0[j + 1]);
                        }
                    }
                }
                assert(q@ == adjust(q0, sum));
            }
        } else {
            proof {
                q.lemma_canonical();
            }
            let c = q.monic_mut();
            match c {
                Some(c) => {
                    total = total.mul(&c);
                    proof {
                        lemma_scale_nonzero(q0, c@);
                    }
                },
                None => {},
            }
            proof {
                assert(q@ == adjust(q0, sum));
            }
        }
        let ghost before = out@;
        let ghost qv = q@;
        out.push((groups[i].0.clone(), q));
        proof {
            assert(groups_view(out@) =~= groups_view(before).push((g[i as int].0, qv)));
            assert(adjust_polys(g.take(i + 1), sum) =~= adjust_polys(g.take(i as int), sum).push(
                (g[i as int].0, adjust(g[i as int].1, sum)),
            ));
            assert forall|j: int| 0 <= j < out@.len() implies (#[trigger] out@[j]).1.wf()
                && nonzero_coeffs(out@[j].1@) by {
                if j < before.len() {
                    assert(out@[j] == before[j]);
                }
            }
        }
    }
    proof {
        assert(g.take(n as int) =~= g);
    }
    (total, out)
}

/// The groups that stay: not zero (`sum`), or not one.
fn keep_groups(groups: Vec<(Symbol, Polynomial)>, sum: bool) -> (r: Vec<(Symbol, Polynomial)>)
    requires
        groups_ok(groups@),
    ensures
        groups_view(r@) == keep_polys(groups_view(groups@), sum),
        groups_ok(r@),
{
    let ghost g = groups_view(groups@);
    let mut out: Vec<(Symbol, Polynomial)> = Vec::new();
    proof {
        assert(groups_view(out@) =~= keep_polys(g.take(0), sum));
    }
    let n = groups.len();
    for i in 0..n
        invariant
            n == groups@.len(),
            g == groups_view(groups@),
            groups_ok(groups@),
            groups_view(out@) == keep_polys(g.take(i as int), sum),
            groups_ok(out@),
    {
        proof {
            assert(g.take(i + 1).drop_last() =~= g.take(i as int));
            assert(g.take(i + 1).last() == g[i as int]);
        }
        let keep = if sum {
            !groups[i].1.is_zero()
        } else {
            !groups[i].1.is_one()
        };
        if keep {
            let ghost before = out@;
            out.push((groups[i].0.clone(), groups[i].1.clone()));
            proof {
                assert(groups_view(out@) =~= groups_view(before).push(g[i as int]));
                assert forall|j: int| 0 <= j < out@.len() implies (#[trigger] out@[j]).1.wf()
                    && nonzero_coeffs(out@[j].1@) by {
                    if j < before.len() {
                        assert(out@[j] == before[j]);
                    }
                }
            }
        }
    }
    proof {
        assert(g.take(n as int) =~= g);
    }
    out
}

/// Puts the number into the group where exactly one is left.
fn merge_groups(num: Option<Number>, groups: Vec<(Symbol, Polynomial)>, sum: bool) -> (r: (
    Option<Number>,
    Vec<(Symbol, Polynomial)>,
))
    requires
        num matches Some(c) ==> c.wf() && c@.num != 0,
        groups_ok(groups@),
    ensures
        (opt_view(r.0), groups_view(r.1@)) == merge(opt_view(num), groups_view(groups@), sum),
        r.0 matches Some(c) ==> c.wf(),
        groups_ok(r.1@),
{
    let ghost g = groups_view(groups@);
    if groups.len() == 1 && num.is_some() {
        let c = num.unwrap();
        let mut q = groups[0].1.clone();
        let ghost q0 = q@;
        assert(q0 == g[0].1);
        if sum {
            q.add_assign_num(c);
            proof {
                q.lemma_value();
                lemma_poly_add_const(q@, q0, opt_view(num)->Some_0);
            }
        } else {
            q.mul_assign_num(&c);
            proof {
                groups[0].1.lemma_canonical();
                lemma_scale_nonzero(q0, c@);
            }
        }
        let ghost qv = q@;
        let out = vec![(groups[0].0.clone(), q)];
        proof {
            assert(groups_view(out@) =~= seq![(g[0].0, qv)]);
        }
        (None, out)
    } else {
        (num, groups)
    }
}

/// The position of `e` among the counted terms, searched from the back.
fn find_count(c: &Vec<(Expr, usize)>, e: &Expr) -> (r: Option<usize>)
    requires
        e.wf(),
        forall|k: int| 0 <= k < c@.len() ==> (#[trigger] c@[k]).0.wf(),
    ensures
        match r {
            Some(i) => i < c@.len() && i as int == count_index(counts_view(c@), e@),
            None => count_index(counts_view(c@), e@) == -1,
        },
{
    let ghost g = counts_view(c@);
    let mut j = c.len();
    proof {
        assert(g.take(j as int) =~= g);
    }
    while j > 0
        invariant
            j <= c@.len(),
            g == counts_view(c@),
            e.wf(),
            forall|k: int| 0 <= k < c@.len() ==> (#[trigger] c@[k]).0.wf(),
            count_index(g, e@) == count_index(g.take(j as int), e@),
        decreases j,
    {
        proof {
            assert(g.take(j as int).last() == g[j - 1]);
            assert(g.take(j as int).drop_last() =~= g.take(j - 1));
        }
        let o = c[j - 1].0.compare(e);
        proof {
            lemma_expr_order_eq(c@[j - 1].0@, e@);
        }
        if o == Comparison::Equal {
            return Some(j - 1);
        }
        j = j - 1;
    }
    None
}

/// Counts the occurrences of each distinct term, in the order of first
/// occurrence.
fn count_terms(rest: &Vec<Expr>) -> (r: Vec<(Expr, usize)>)
    requires
        exprs_wf(rest@),
    ensures
        counts_view(r@) == counts(exprs_view(rest@)),
        forall|k: int| 0 <= k < r@.len() ==> (#[trigger] r@[k]).0.wf(),
{
    proof {
        lemma_exprs(rest@);
    }
    let ghost sv = exprs_view(rest@);
    let mut c: Vec<(Expr, usize)> = Vec::new();
    proof {
        assert(counts_view(c@) =~= counts(sv.take(0)));
    }
    let n = rest.len();
    for i in 0..n
        invariant
            n == rest@.len(),
            sv == exprs_view(rest@),
            sv.len() == n,
            forall|j: int| 0 <= j < n ==> #[trigger] sv[j] == rest@[j]@ && rest@[j].wf(),
            counts_view(c@) == counts(sv.take(i as int)),
            forall|k: int| 0 <= k < c@.len() ==> (#[trigger] c@[k]).0.wf() && c@[k].1 <= i,
    {
        proof {
            assert(sv.take(i + 1).drop_last() =~= sv.take(i as int));
            assert(sv.take(i + 1).last() == sv[i as int]);
        }
        let ghost before = c@;
        match find_count(&c, &rest[i]) {
            None => {
                c.push((rest[i].copy(), 1));
                proof {
                    assert(counts_view(c@) =~= counts_view(before).push((sv[i as int], 1nat)));
                }
            },
            Some(j) => {
                let k = c[j].1 + 1;
                c.set(j, (rest[i].copy(), k));
                proof {
                    assert(counts_view(c@) =~= counts_view(before).update(
                        j as int,
                        (sv[i as int], counts_view(before)[j as int].1 + 1),
                    ));
                }
            },
        }
        proof {
            assert forall|k: int| 0 <= k < c@.len() implies (#[trigger] c@[k]).0.wf() && c@[k].1 <= i
                + 1 by {
                if k < before.len() && c@[k] == before[k] {
                }
            }
        }
    }
    proof {
        assert(sv.take(n as int) =~= sv);
    }
    c
}

/// Simplifies each repeated term in order, stopping at the first error.
fn simplify_terms(c: &Vec<(Expr, usize)>, ctx: &Context, f: u64, sum: bool) -> (r: Result<
    Vec<Expr>,
    Error,
>)
    requires
        forall|k: int| 0 <= k < c@.len() ==> (#[trigger] c@[k]).0.wf(),
        ctx.wf(),
    ensures
        results_view(r) == simplified_terms(counts_view(c@), ctx@, f as nat, sum),
        r matches Ok(w) ==> exprs_wf(w@),
    decreases f, 0nat, 1nat,
{
    let ghost cv = counts_view(c@);
    let mut out: Vec<Expr> = Vec::new();
    let n = c.len();
    for i in 0..n
        invariant
            n == c@.len(),
            cv == counts_view(c@),
            forall|k: int| 0 <= k < c@.len() ==> (#[trigger] c@[k]).0.wf(),
            ctx.wf(),
            simplified_terms(cv.take(i as int), ctx@, f as nat, sum) == Ok::<Seq<ExprV>, ErrorV>(
                exprs_view(out@),
            ),
            exprs_wf(out@),
    {
        proof {
            assert(cv.take(i + 1).drop_last() =~= cv.take(i as int));
            assert(cv.take(i + 1).last() == cv[i as int]);
        }
        let ghost before = out@;
        let count = Expr::Num(Number::from_u64(c[i].1 as u64));
        let term = if sum {
            c[i].0.copy().mul(count)
        } else {
            c[i].0.copy().pow(count)
        };
        assert(term@ == repeated(cv[i as int].0, cv[i as int].1, sum));
        match simplify_jump(&term, ctx, f) {
            Err(e) => {
                proof {
                    lemma_terms_prefix(cv, i + 1, ctx@, f as nat, sum);
                }
                return Err(e);
            },
            Ok(x) => {
                let ghost xv = x;
                out.push(x);
                proof {
                    lemma_push(before, xv);
                }
            },
        }
    }
    proof {
        assert(cv.take(n as int) =~= cv);
    }
    Ok(out)
}

/// Inserts `x` into the sorted `out` after every term that is not greater.
fn insert_sorted_into(out: &mut Vec<Expr>, x: Expr)
    requires
        exprs_wf(old(out)@),
        x.wf(),
    ensures
        exprs_view(final(out)@) == insert_sorted(exprs_view(old(out)@), x@),
        exprs_wf(final(out)@),
{
    proof {
        lemma_exprs(out@);
    }
    let ghost s = exprs_view(out@);
    let ghost v0 = out@;
    let mut j = out.len();
    proof {
        assert(s.take(j as int) =~= s);
        assert(s.skip(j as int) =~= Seq::<ExprV>::empty());
        assert(insert_sorted(s, x@) =~= insert_sorted(s.take(j as int), x@) + s.skip(j as int));
    }
    while j > 0 && out[j - 1].compare(&x) == Comparison::Greater
        invariant
            out@ == v0,
            s == exprs_view(v0),
            s.len() == v0.len(),
            forall|k: int| 0 <= k < v0.len() ==> #[trigger] s[k] == v0[k]@ && v0[k].wf(),
            x.wf(),
            j <= v0.len(),
            insert_sorted(s, x@) == insert_sorted(s.take(j as int), x@) + s.skip(j as int),
        decreases j,
    {
        proof {
            let t = s.take(j as int);
            assert(t.last() == s[j - 1]);
            assert(t.drop_last() =~= s.take(j - 1));
            assert(insert_sorted(t, x@) == insert_sorted(s.take(j - 1), x@).push(s[j - 1]));
            assert(insert_sorted(s.take(j - 1), x@).push(s[j - 1]) + s.skip(j as int)
                =~= insert_sorted(s.take(j - 1), x@) + s.skip(j - 1));
        }
        j = j - 1;
    }
    proof {
        let t = s.take(j as int);
        if j > 0 {
            assert(t.last() == s[j - 1]);
        }
        assert(insert_sorted(t, x@) == t.push(x@));
    }
    let ghost xv = x;
    out.insert(j, x);
    proof {
        lemma_exprs(out@);
        assert(exprs_view(out@) =~= s.take(j as int).push(xv@) + s.skip(j as int));
    }
}

/// The terms in the consistent order of expressions.
fn sort_terms(v: Vec<Expr>) -> (r: Vec<Expr>)
    requires
        exprs_wf(v@),
    ensures
        exprs_view(r@) == sort_exprs(exprs_view(v@)),
        exprs_wf(r@),
{
    proof {
        lemma_exprs(v@);
    }
    let ghost s = exprs_view(v@);
    let mut out: Vec<Expr> = Vec::new();
    let n = v.len();
    for i in 0..n
        invariant
            n == v@.len(),
            s == exprs_view(v@),
            s.len() == n,
            forall|j: int| 0 <= j < n ==> #[trigger] s[j] == v@[j]@ && v@[j].wf(),
            exprs_view(out@) == sort_exprs(s.take(i as int)),
            exprs_wf(out@),
    {
        proof {
            assert(s.take(i + 1).drop_last() =~= s.take(i as int));
            assert(s.take(i + 1).last() == s[i as int]);
        }
        insert_sorted_into(&mut out, v[i].copy());
    }
    proof {
        assert(s.take(n as int) =~= s);
    }
    out
}

/// The result from the repeated terms, the number and the polynomials.
fn assemble_terms(
    terms: Vec<Expr>,
    num: Option<Number>,
    groups: Vec<(Symbol, Polynomial)>,
    sum: bool,
) -> (r: Expr)
    requires
        exprs_wf(terms@),
        num matches Some(c) ==> c.wf(),
        groups_ok(groups@),
    ensures
        r@ == assemble(
            exprs_view(terms@) + num_terms(opt_view(num)) + poly_terms(groups_view(groups@)),
            sum,
        ),
        r.wf(),
{
    let ghost all = exprs_view(terms@) + num_terms(opt_view(num)) + poly_terms(groups_view(groups@));
    let ghost g = groups_view(groups@);
    let mut list = terms;
    let ghost t0 = exprs_view(list@);
    match num {
        Some(c) => {
            let ghost before = list@;
            let e = Expr::Num(c);
            let ghost ev = e;
            list.push(e);
            proof {
                lemma_push(before, ev);
            }
        },
        None => {},
    }
    let ghost t1 = exprs_view(list@);
    assert(t1 =~= t0 + num_terms(opt_view(num)));
    let n = groups.len();
    for i in 0..n
        invariant
            n == groups@.len(),
            g == groups_view(groups@),
            groups_ok(groups@),
            exprs_view(list@) == t1 + poly_terms(g.take(i as int)),
            exprs_wf(list@),
    {
        let ghost before = list@;
        let e = Expr::Poly(groups[i].0.clone(), groups[i].1.clone());
        let ghost ev = e;
        list.push(e);
        proof {
            lemma_push(before, ev);
            assert(poly_terms(g.take(i + 1)) =~= poly_terms(g.take(i as int)).push(
                ExprV::Poly(g[i as int].0, g[i as int].1),
            ));
            assert(t1 + poly_terms(g.take(i + 1)) =~= (t1 + poly_terms(g.take(i as int))).push(
                ev@,
            ));
        }
    }
    proof {
        assert(g.take(n as int) =~= g);
        assert(exprs_view(list@) == all);
        lemma_exprs(list@);
    }
    if list.len() == 0 {
        if sum {
            Expr::zero()
        } else {
            Expr::one()
        }
    } else if list.len() == 1 {
        let e = list.pop().unwrap();
        e
    } else {
        let sorted = sort_terms(list);
        if sum {
            Expr::Add(sorted)
        } else {
            Expr::Mul(sorted)
        }
    }
}

} // verus!
