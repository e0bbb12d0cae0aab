//! The shape of simplified values: a simplified sum or product holds at
//! least two terms, and its terms stand in the order of expressions.
use crate::context::simplifiers::{nums_of, others_of};
use crate::context::{ContextV, Simplifier};
use crate::error::ErrorV;
use crate::expr::settled::{assoc_ends, each_ends, ends, fun_ends, jump_ends, terms_ends};
use crate::expr::size::{expr_size, exprs_size, lemma_exprs_size};
use crate::expr::simplify::{
    adjust_polys, bind_params, counts, flatten, group_polys, group_total, insert_sorted, keep_polys, merge,
    num_term, num_terms, num_total, poly_terms, repeated, rest_of, simplified, simplified_assoc,
    simplified_each, simplified_flat, simplified_fun, simplified_jump, simplified_terms,
    sort_exprs,
};
use crate::expr::{canonical_value, canonical_values, expr_order, lemma_order_opposite, ExprV};
use crate::number::Comparison;
use crate::polynomial::poly_into_expr;
use vstd::prelude::*;

verus! {

/// Each term is not greater than the next.
pub open spec fn in_order(v: Seq<ExprV>) -> bool {
    forall|i: int, j: int|
        0 <= i && j == i + 1 && j < v.len() ==> expr_order(#[trigger] v[i], #[trigger] v[j]) != Comparison::Greater
}

/// A sum or product holds at least two terms, in order; any other
/// expression is tidy as it is.
pub open spec fn tidy(e: ExprV) -> bool {
    match e {
        ExprV::Add(v) => v.len() >= 2 && in_order(v),
        ExprV::Mul(v) => v.len() >= 2 && in_order(v),
        _ => true,
    }
}

/// `canonical_values` term by term.
proof fn lemma_canonical_all(v: Seq<ExprV>)
    ensures
        canonical_values(v) <==> forall|i: int| 0 <= i < v.len() ==> canonical_value(#[trigger] v[i]),
    decreases v.len(),
{
    if v.len() > 0 {
        let w = v.subrange(1, v.len() as int);
        lemma_canonical_all(w);
        assert(canonical_values(v) == (canonical_value(v[0]) && canonical_values(w)));
        if canonical_values(v) {
            assert forall|i: int| 0 <= i < v.len() implies canonical_value(#[trigger] v[i]) by {
                if i > 0 {
                    assert(v[i] == w[i - 1]);
                }
            }
        }
        if forall|i: int| 0 <= i < v.len() ==> canonical_value(#[trigger] v[i]) {
            assert forall|i: int| 0 <= i < w.len() implies canonical_value(#[trigger] w[i]) by {
                assert(w[i] == v[i + 1]);
            }
            assert(canonical_value(v[0]));
        }
    }
}

/// Inserting adds one term.
proof fn lemma_insert_len(s: Seq<ExprV>, x: ExprV)
    ensures
        insert_sorted(s, x).len() == s.len() + 1,
    decreases s.len(),
{
    if s.len() > 0 && expr_order(s.last(), x) == Comparison::Greater {
        lemma_insert_len(s.drop_last(), x);
    }
}

/// Inserting adds the one term.
proof fn lemma_insert_perm(s: Seq<ExprV>, x: ExprV)
    ensures
        insert_sorted(s, x).to_multiset() =~= s.to_multiset().insert(x),
        insert_sorted(s, x).len() == s.len() + 1,
    decreases s.len(),
{
    broadcast use vstd::seq_lib::group_to_multiset_ensures;

    if s.len() == 0 {
        assert(seq![x] =~= Seq::<ExprV>::empty().push(x));
    } else {
        let p = s.drop_last();
        assert(p.push(s.last()) =~= s);
        if expr_order(s.last(), x) == Comparison::Greater {
            lemma_insert_perm(p, x);
        }
    }
}

/// Sorting keeps the terms.
proof fn lemma_sort_perm(s: Seq<ExprV>)
    ensures
        sort_exprs(s).to_multiset() =~= s.to_multiset(),
        sort_exprs(s).len() == s.len(),
    decreases s.len(),
{
    broadcast use vstd::seq_lib::group_to_multiset_ensures;

    if s.len() > 0 {
        let p = s.drop_last();
        assert(p.push(s.last()) =~= s);
        lemma_sort_perm(p);
        lemma_insert_perm(sort_exprs(p), s.last());
    }
}

/// Inserting into terms in order keeps them in order.
proof fn lemma_insert_order(s: Seq<ExprV>, x: ExprV)
    requires
        in_order(s),
        canonical_value(x),
        forall|i: int| 0 <= i < s.len() ==> canonical_value(#[trigger] s[i]),
    ensures
        in_order(insert_sorted(s, x)),
        insert_sorted(s, x).last() == x || (s.len() > 0 && insert_sorted(s, x).last() == s.last()),
    decreases s.len(),
{
    lemma_insert_len(s, x);
    if s.len() > 0 {
        let p = s.drop_last();
        let n = s.len() - 1;
        if expr_order(s.last(), x) == Comparison::Greater {
            assert forall|i: int, j: int| 0 <= i && j == i + 1 && j < p.len() implies expr_order(
                #[trigger] p[i],
                #[trigger] p[j],
            ) != Comparison::Greater by {
                assert(p[i] == s[i] && p[j] == s[j]);
            }
            assert forall|i: int| 0 <= i < p.len() implies canonical_value(#[trigger] p[i]) by {
                assert(p[i] == s[i]);
            }
            lemma_insert_order(p, x);
            lemma_insert_len(p, x);
            lemma_order_opposite(s.last(), x);
            let r = insert_sorted(p, x);
            let q = r.push(s.last());
            assert(insert_sorted(s, x) == q);
            assert forall|i: int, j: int| 0 <= i && j == i + 1 && j < q.len() implies expr_order(
                #[trigger] q[i],
                #[trigger] q[j],
            ) != Comparison::Greater by {
                if j < r.len() {
                    assert(q[i] == r[i] && q[j] == r[j]);
                } else {
                    assert(q[i] == r.last());
                    assert(q[j] == s.last());
                    if r.last() != x {
                        assert(r.last() == s[n - 1]);
                        assert(expr_order(s[n - 1], s[n]) != Comparison::Greater);
                    }
                }
            }
        } else {
            let q = s.push(x);
            assert forall|i: int, j: int| 0 <= i && j == i + 1 && j < q.len() implies expr_order(
                #[trigger] q[i],
                #[trigger] q[j],
            ) != Comparison::Greater by {
                if j < s.len() {
                    assert(q[i] == s[i] && q[j] == s[j]);
                }
            }
        }
    }
}

/// Sorting canonical terms gives canonical terms.
proof fn lemma_sorted_canonical(s: Seq<ExprV>)
    requires
        forall|i: int| 0 <= i < s.len() ==> canonical_value(#[trigger] s[i]),
    ensures
        forall|i: int| 0 <= i < sort_exprs(s).len() ==> canonical_value(#[trigger] sort_exprs(s)[i]),
{
    broadcast use vstd::seq_lib::group_to_multiset_ensures;

    let q = sort_exprs(s);
    lemma_sort_perm(s);
    assert forall|i: int| 0 <= i < q.len() implies canonical_value(#[trigger] q[i]) by {
        assert(q.contains(q[i]));
        assert(q.to_multiset().count(q[i]) > 0);
        assert(s.to_multiset().count(q[i]) > 0);
        assert(s.contains(q[i]));
        let k = choose|k: int| 0 <= k < s.len() && s[k] == q[i];
        assert(canonical_value(s[k]));
    }
}

/// Canonical terms are sorted into order.
proof fn lemma_sort_order(s: Seq<ExprV>)
    requires
        forall|i: int| 0 <= i < s.len() ==> canonical_value(#[trigger] s[i]),
    ensures
        in_order(sort_exprs(s)),
    decreases s.len(),
{
    if s.len() > 0 {
        let p = s.drop_last();
        let q = sort_exprs(p);
        assert forall|i: int| 0 <= i < p.len() implies canonical_value(#[trigger] p[i]) by {
            assert(p[i] == s[i]);
        }
        lemma_sort_order(p);
        lemma_sorted_canonical(p);
        assert(canonical_value(s[s.len() - 1]));
        lemma_insert_order(q, s.last());
    }
}

/// When the sorted terms are all canonical, so are the terms before
/// sorting.
proof fn lemma_sort_canonical(s: Seq<ExprV>)
    requires
        canonical_values(sort_exprs(s)),
    ensures
        forall|i: int| 0 <= i < s.len() ==> canonical_value(#[trigger] s[i]),
{
    broadcast use vstd::seq_lib::group_to_multiset_ensures;

    let q = sort_exprs(s);
    lemma_sort_perm(s);
    lemma_canonical_all(q);
    assert forall|i: int| 0 <= i < s.len() implies canonical_value(#[trigger] s[i]) by {
        assert(s.contains(s[i]));
        assert(s.to_multiset().count(s[i]) > 0);
        assert(q.to_multiset().count(s[i]) > 0);
        assert(q.contains(s[i]));
        let k = choose|k: int| 0 <= k < q.len() && q[k] == s[i];
        assert(canonical_value(q[k]));
    }
}

/// The terms that simplify each expression, one by one.
proof fn lemma_each_parts(s: Seq<ExprV>, ctx: ContextV, f: nat)
    requires
        each_ends(s, ctx, f),
        simplified_each(s, ctx, f) is Ok,
    ensures
        simplified_each(s, ctx, f)->Ok_0.len() == s.len(),
        forall|j: int| 0 <= j < s.len() ==> ends(s[j], ctx, f) && #[trigger] simplified(s[j], ctx, f) == Ok::<
            ExprV,
            ErrorV,
        >(simplified_each(s, ctx, f)->Ok_0[j]),
    decreases s.len(),
{
    if s.len() > 0 {
        let p = s.drop_last();
        lemma_each_parts(p, ctx, f);
        let t = simplified_each(s, ctx, f)->Ok_0;
        let r = simplified_each(p, ctx, f)->Ok_0;
        assert(t == r.push(simplified(s.last(), ctx, f)->Ok_0));
        assert forall|j: int| 0 <= j < s.len() implies ends(s[j], ctx, f) && #[trigger] simplified(s[j], ctx, f)
            == Ok::<ExprV, ErrorV>(t[j]) by {
            if j < s.len() - 1 {
                assert(s[j] == p[j]);
                assert(t[j] == r[j]);
            } else {
                assert(s[j] == s.last());
            }
        }
    }
}

/// The terms that simplify each repeated term, one by one.
proof fn lemma_terms_parts(c: Seq<(ExprV, nat)>, ctx: ContextV, f: nat, sum: bool)
    requires
        terms_ends(c, ctx, f, sum),
        simplified_terms(c, ctx, f, sum) is Ok,
    ensures
        simplified_terms(c, ctx, f, sum)->Ok_0.len() == c.len(),
        forall|j: int| 0 <= j < c.len() ==> jump_ends(repeated(c[j].0, c[j].1, sum), ctx, f) && #[trigger] simplified_jump(
            repeated(c[j].0, c[j].1, sum),
            ctx,
            f,
        ) == Ok::<ExprV, ErrorV>(simplified_terms(c, ctx, f, sum)->Ok_0[j]),
    decreases c.len(),
{
    if c.len() > 0 {
        let p = c.drop_last();
        lemma_terms_parts(p, ctx, f, sum);
        let t = simplified_terms(c, ctx, f, sum)->Ok_0;
        let r = simplified_terms(p, ctx, f, sum)->Ok_0;
        assert(t == r.push(simplified_jump(repeated(c.last().0, c.last().1, sum), ctx, f)->Ok_0));
        assert forall|j: int| 0 <= j < c.len() implies jump_ends(repeated(c[j].0, c[j].1, sum), ctx, f)
            && #[trigger] simplified_jump(repeated(c[j].0, c[j].1, sum), ctx, f) == Ok::<ExprV, ErrorV>(t[j]) by {
            if j < c.len() - 1 {
                assert(c[j] == p[j]);
                assert(t[j] == r[j]);
            } else {
                assert(c[j] == c.last());
            }
        }
    }
}

/// Every expression that is not a number stays among the others.
proof fn lemma_others_in(s: Seq<ExprV>)
    ensures
        forall|i: int| 0 <= i < others_of(s).len() ==> s.contains(#[trigger] others_of(s)[i]),
    decreases s.len(),
{
    if s.len() > 0 {
        let p = s.drop_last();
        lemma_others_in(p);
        assert forall|i: int| 0 <= i < others_of(s).len() implies s.contains(#[trigger] others_of(s)[i]) by {
            if i < others_of(p).len() {
                let j = choose|j: int| 0 <= j < p.len() && p[j] == others_of(p)[i];
                assert(s[j] == p[j]);
            } else {
                assert(s[s.len() - 1] == s.last());
            }
        }
    }
}

/// Once simplifying `e` with `fuel` steps ends in a canonical value, a sum
/// or product in that value holds at least two terms, in order.
pub proof fn lemma_simplified_tidy(e: ExprV, ctx: ContextV, fuel: nat)
    requires
        ends(e, ctx, fuel),
        simplified(e, ctx, fuel) is Ok,
        canonical_value(simplified(e, ctx, fuel)->Ok_0),
    ensures
        tidy(simplified(e, ctx, fuel)->Ok_0),
    decreases fuel, expr_size(e), 0nat,
{
    match e {
        ExprV::Add(s) => lemma_assoc_tidy(s, ctx, fuel, true),
        ExprV::Fun(n, a) => lemma_fun_tidy(n, a, ctx, fuel),
        ExprV::Mul(s) => lemma_assoc_tidy(s, ctx, fuel, false),
        ExprV::Num(_) => {},
        ExprV::Poly(sym, p) => {
            if !(p.len() == 0 || (p.len() == 1 && p[0].1.num == 0)) && ctx.variables.contains_key(sym) {
                lemma_jump_tidy(poly_into_expr(p, ctx.variables[sym]), ctx, fuel);
            }
        },
        ExprV::Pow(b, x) => {
            if simplified(*b, ctx, fuel) is Ok && simplified(e, ctx, fuel)->Ok_0 == simplified(*b, ctx, fuel)->Ok_0 {
                lemma_simplified_tidy(*b, ctx, fuel);
            }
        },
    }
}

/// `lemma_simplified_tidy` one step deeper.
proof fn lemma_jump_tidy(e: ExprV, ctx: ContextV, fuel: nat)
    requires
        jump_ends(e, ctx, fuel),
        simplified_jump(e, ctx, fuel) is Ok,
        canonical_value(simplified_jump(e, ctx, fuel)->Ok_0),
    ensures
        tidy(simplified_jump(e, ctx, fuel)->Ok_0),
    decreases fuel, 0nat, 0nat,
{
    lemma_simplified_tidy(e, ctx, (fuel - 1) as nat);
}

/// `lemma_simplified_tidy` for a sum (`sum`) or product.
proof fn lemma_assoc_tidy(s: Seq<ExprV>, ctx: ContextV, f: nat, sum: bool)
    requires
        assoc_ends(s, ctx, f, sum),
        simplified_assoc(s, ctx, f, sum) is Ok,
        canonical_value(simplified_assoc(s, ctx, f, sum)->Ok_0),
    ensures
        tidy(simplified_assoc(s, ctx, f, sum)->Ok_0),
    decreases f, exprs_size(s) + 2, 0nat,
{
    let t = simplified_each(s, ctx, f)->Ok_0;
    let fs = flatten(t, sum);
    let groups = group_polys(fs, sum);
    let total = group_total(groups, num_total(fs, sum), sum);
    if !(!sum && total.num == 0) {
        let c = counts(rest_of(fs));
        lemma_terms_parts(c, ctx, f, sum);
        let terms = simplified_terms(c, ctx, f, sum)->Ok_0;
        let merged = merge(num_term(total, sum), keep_polys(adjust_polys(groups, sum), sum), sum);
        let all = terms + num_terms(merged.0) + poly_terms(merged.1);
        assert(simplified_flat(fs, ctx, f, sum) == simplified_assoc(s, ctx, f, sum));
        if all.len() == 1 {
            if terms.len() == 1 {
                assert(all[0] == terms[0]);
                lemma_jump_tidy(repeated(c[0].0, c[0].1, sum), ctx, f);
            } else if num_terms(merged.0).len() == 1 {
                assert(all[0] == num_terms(merged.0)[0]);
            } else {
                assert(all[0] == poly_terms(merged.1)[0]);
            }
        } else if all.len() >= 2 {
            lemma_sort_perm(all);
            lemma_sort_canonical(all);
            lemma_sort_order(all);
        }
    }
}

/// `lemma_simplified_tidy` for a call.
proof fn lemma_fun_tidy(n: Seq<char>, a: Seq<ExprV>, ctx: ContextV, f: nat)
    requires
        fun_ends(n, a, ctx, f),
        simplified_fun(n, a, ctx, f) is Ok,
        canonical_value(simplified_fun(n, a, ctx, f)->Ok_0),
    ensures
        tidy(simplified_fun(n, a, ctx, f)->Ok_0),
    decreases f, exprs_size(a) + 2, 0nat,
{
    let args = simplified_each(a, ctx, f)->Ok_0;
    lemma_each_parts(a, ctx, f);
    if ctx.functions.contains_key(n) {
        let fun = ctx.functions[n];
        let inner = ContextV {
            functions: ctx.functions,
            simplifiers: ctx.simplifiers,
            variables: bind_params(ctx.variables, fun.params, args),
        };
        lemma_jump_tidy(fun.body, inner, f);
    } else if ctx.simplifiers.contains_key(n) {
        let sm = ctx.simplifiers[n];
        if sm == Simplifier::Max || sm == Simplifier::Min {
            let rest = others_of(args);
            if nums_of(args).len() == 0 && rest.len() == 1 {
                lemma_others_in(args);
                let j = choose|j: int| 0 <= j < args.len() && args[j] == rest[0];
                lemma_exprs_size(a);
                lemma_simplified_tidy(a[j], ctx, f);
            }
        }
    }
}

} // verus!
