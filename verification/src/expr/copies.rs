//! Repeated terms: a sum of copies of a term is the term times their
//! number, and a product of copies is the term to the power of it.
use crate::context::ContextV;
use crate::error::ErrorV;
use crate::expr::settled::{lemma_counts, lemma_each_ok};
use crate::expr::simplify::{
    adjust_polys, assemble, counts, flatten, group_polys, group_total, keep_polys, merge, num_term, num_terms,
    num_total, parts, poly_terms, repeated, rest_of, simplified, simplified_assoc, simplified_each, simplified_flat,
    simplified_jump, simplified_pow, simplified_terms,
    simplify_fuel, insert_sorted, sort_exprs,
};
use crate::expr::expr_order;
use crate::number::Comparison;
use crate::expr::ExprV;
use crate::rational::{lemma_mul_laws, lemma_small_canonical, lemma_sub_div_laws, rat_int, rat_mul, rat_one, rat_zero, Rat};
use vstd::prelude::*;

verus! {

/// A call of a name that is neither declared nor a simplifier, on numbers:
/// simplifying it leaves it as it is.
pub open spec fn settled_call(t: ExprV, ctx: ContextV) -> bool {
    &&& t is Fun
    &&& !ctx.functions.contains_key(t->Fun_0)
    &&& !ctx.simplifiers.contains_key(t->Fun_0)
    &&& forall|i: int| 0 <= i < t->Fun_1.len() ==> (#[trigger] t->Fun_1[i]) is Num
}

/// `n` copies of `t`.
pub open spec fn copies(t: ExprV, n: nat) -> Seq<ExprV> {
    Seq::new(n, |i: int| t)
}

/// A settled call simplifies to itself with any number of steps.
proof fn lemma_settled_call(t: ExprV, ctx: ContextV, f: nat)
    requires
        settled_call(t, ctx),
    ensures
        simplified(t, ctx, f) == Ok::<ExprV, ErrorV>(t),
{
    let a = t->Fun_1;
    assert forall|i: int| 0 <= i < a.len() implies #[trigger] simplified(a[i], ctx, f) == Ok::<ExprV, ErrorV>(a[i]) by {
        assert(a[i] is Num);
    }
    lemma_each_ok(a, ctx, f, a);
}

/// The steps of a sum or product on copies of a call: flattening keeps
/// them, no polynomial or number is among them, and they all count as one
/// term.
proof fn lemma_copies(t: ExprV, n: nat, sum: bool)
    requires
        t is Fun,
    ensures
        flatten(copies(t, n), sum) == copies(t, n),
        group_polys(copies(t, n), sum) == Seq::<(Seq<char>, Seq<(Rat, Rat)>)>::empty(),
        num_total(copies(t, n), sum) == (if sum {
            rat_zero()
        } else {
            rat_one()
        }),
        rest_of(copies(t, n)) == copies(t, n),
    decreases n,
{
    let s = copies(t, n);
    if n > 0 {
        lemma_copies(t, (n - 1) as nat, sum);
        assert(s.drop_last() =~= copies(t, (n - 1) as nat));
        assert(s.last() == t);
        assert(copies(t, (n - 1) as nat).push(t) =~= s);
        assert(copies(t, (n - 1) as nat) + seq![t] =~= s);
    } else {
        assert(s =~= Seq::<ExprV>::empty());
    }
}

/// Copies of one term count as that term, `n` times.
proof fn lemma_count_copies(t: ExprV, n: nat)
    requires
        n > 0,
    ensures
        counts(copies(t, n)) == seq![(t, n)],
{
    broadcast use vstd::seq_lib::group_to_multiset_ensures;

    let s = copies(t, n);
    lemma_counts(s);
    let c = counts(s);
    assert(s[0] == t);
    assert(s.contains(t));
    let k = choose|k: int| 0 <= k < c.len() && c[k].0 == t;
    assert forall|j: int| 0 <= j < c.len() implies #[trigger] c[j].0 == t by {
        assert(s.contains(c[j].0));
        let m = choose|m: int| 0 <= m < s.len() && s[m] == c[j].0;
        assert(s[m] == t);
    }
    assert(c.len() == 1) by {
        if c.len() > 1 {
            assert(c[0].0 == t && c[1].0 == t);
        }
    }
    assert(k == 0);
    assert(s.to_multiset().count(t) == n) by {
        lemma_multiset_copies(t, n);
    }
    assert(c =~= seq![(t, n)]);
}

/// `n` copies of `t` hold `t` exactly `n` times.
proof fn lemma_multiset_copies(t: ExprV, n: nat)
    ensures
        copies(t, n).to_multiset().count(t) == n,
    decreases n,
{
    broadcast use vstd::seq_lib::group_to_multiset_ensures;

    if n > 0 {
        lemma_multiset_copies(t, (n - 1) as nat);
        assert(copies(t, (n - 1) as nat).push(t) =~= copies(t, n));
    } else {
        assert(copies(t, n) =~= Seq::<ExprV>::empty());
    }
}

/// A sum of `n >= 2` copies of a settled call is the call times `n`.
pub proof fn lemma_sum_of_copies(t: ExprV, n: nat, ctx: ContextV)
    requires
        settled_call(t, ctx),
        n >= 2,
    ensures
        simplified(ExprV::Add(copies(t, n)), ctx, simplify_fuel()) == Ok::<ExprV, ErrorV>(
            ExprV::Mul(seq![t, ExprV::Num(rat_int(n as int))]),
        ),
{
    let f = simplify_fuel();
    let s = copies(t, n);
    assert forall|i: int| 0 <= i < s.len() implies #[trigger] simplified(s[i], ctx, f) == Ok::<ExprV, ErrorV>(s[i]) by {
        lemma_settled_call(t, ctx, f);
    }
    lemma_each_ok(s, ctx, f, s);
    lemma_copies(t, n, true);
    lemma_count_copies(t, n);
    let e = group_polys(s, true);
    assert(adjust_polys(e, true) =~= e);
    assert(keep_polys(e, true) == e);
    assert(group_total(e, rat_zero(), true) == rat_zero());
    assert(num_term(rat_zero(), true) is None);
    let num = ExprV::Num(rat_int(n as int));
    let m = ExprV::Mul(seq![t, num]);
    lemma_product_with_count(t, n, ctx, (f - 1) as nat);
    assert(repeated(t, n, true) == m);
    assert(simplified_jump(m, ctx, f) == Ok::<ExprV, ErrorV>(m));
    assert(simplified_terms(seq![(t, n)], ctx, f, true) == Ok::<Seq<ExprV>, ErrorV>(seq![m])) by {
        assert(seq![(t, n)].last() == (t, n));
        assert(simplified_terms(Seq::<(ExprV, nat)>::empty(), ctx, f, true) == Ok::<Seq<ExprV>, ErrorV>(
            Seq::<ExprV>::empty(),
        ));
        assert(seq![(t, n)].drop_last() =~= Seq::<(ExprV, nat)>::empty());
        assert(seq![m] =~= Seq::<ExprV>::empty().push(m));
    }
    assert(seq![m] + num_terms(None) + poly_terms(e) =~= seq![m]);
    assert(simplified(ExprV::Add(s), ctx, f) == simplified_assoc(s, ctx, f, true));
    assert(simplified_assoc(s, ctx, f, true) == simplified_flat(s, ctx, f, true));
    assert(merge(num_term(rat_zero(), true), keep_polys(adjust_polys(e, true), true), true) == (
    None::<Rat>,
    e,
    ));
    assert(assemble(seq![m], true) == m);
}

/// A product of `n >= 2` copies of a settled call is the call to the power
/// of `n`.
pub proof fn lemma_product_of_copies(t: ExprV, n: nat, ctx: ContextV)
    requires
        settled_call(t, ctx),
        n >= 2,
    ensures
        simplified(ExprV::Mul(copies(t, n)), ctx, simplify_fuel()) == Ok::<ExprV, ErrorV>(
            ExprV::Pow(Box::new(t), Box::new(ExprV::Num(rat_int(n as int)))),
        ),
{
    let f = simplify_fuel();
    let s = copies(t, n);
    assert forall|i: int| 0 <= i < s.len() implies #[trigger] simplified(s[i], ctx, f) == Ok::<ExprV, ErrorV>(s[i]) by {
        lemma_settled_call(t, ctx, f);
    }
    lemma_each_ok(s, ctx, f, s);
    lemma_copies(t, n, false);
    lemma_count_copies(t, n);
    let e = group_polys(s, false);
    assert(adjust_polys(e, false) =~= e);
    assert(keep_polys(e, false) == e);
    assert(group_total(e, rat_one(), false) == rat_one());
    assert(num_term(rat_one(), false) is None);
    let num = ExprV::Num(rat_int(n as int));
    let pw = ExprV::Pow(Box::new(t), Box::new(num));
    lemma_settled_call(t, ctx, (f - 1) as nat);
    assert(simplified(num, ctx, (f - 1) as nat) == Ok::<ExprV, ErrorV>(num));
    assert(simplified(pw, ctx, (f - 1) as nat) == simplified_pow(t, num, ctx, (f - 1) as nat));
    assert(rat_int(n as int) != rat_one());
    assert(simplified_pow(t, num, ctx, (f - 1) as nat) == Ok::<ExprV, ErrorV>(pw));
    assert(repeated(t, n, false) == pw);
    assert(simplified_jump(pw, ctx, f) == Ok::<ExprV, ErrorV>(pw));
    assert(simplified_terms(seq![(t, n)], ctx, f, false) == Ok::<Seq<ExprV>, ErrorV>(seq![pw])) by {
        assert(seq![(t, n)].last() == (t, n));
        assert(simplified_terms(Seq::<(ExprV, nat)>::empty(), ctx, f, false) == Ok::<Seq<ExprV>, ErrorV>(
            Seq::<ExprV>::empty(),
        ));
        assert(seq![(t, n)].drop_last() =~= Seq::<(ExprV, nat)>::empty());
        assert(seq![pw] =~= Seq::<ExprV>::empty().push(pw));
    }
    assert(seq![pw] + num_terms(None) + poly_terms(e) =~= seq![pw]);
    assert(simplified(ExprV::Mul(s), ctx, f) == simplified_assoc(s, ctx, f, false));
    assert(simplified_assoc(s, ctx, f, false) == simplified_flat(s, ctx, f, false));
    assert(merge(num_term(rat_one(), false), keep_polys(adjust_polys(e, false), false), false) == (
    None::<Rat>,
    e,
    ));
    assert(assemble(seq![pw], false) == pw);
}

/// The call `t` times the number `n >= 2`, simplified, stays as it is.
proof fn lemma_product_with_count(t: ExprV, n: nat, ctx: ContextV, f: nat)
    requires
        settled_call(t, ctx),
        n >= 2,
        f > 0,
    ensures
        simplified(ExprV::Mul(seq![t, ExprV::Num(rat_int(n as int))]), ctx, f) == Ok::<ExprV, ErrorV>(
            ExprV::Mul(seq![t, ExprV::Num(rat_int(n as int))]),
        ),
{
    let num = ExprV::Num(rat_int(n as int));
    let v = seq![t, num];
    lemma_settled_call(t, ctx, f);
    assert forall|i: int| 0 <= i < v.len() implies #[trigger] simplified(v[i], ctx, f) == Ok::<ExprV, ErrorV>(v[i]) by {}
    lemma_each_ok(v, ctx, f, v);
    assert(v.drop_last() =~= seq![t]);
    assert(seq![t].drop_last() =~= Seq::<ExprV>::empty());
    assert(flatten(v, false) =~= v) by {
        assert(flatten(seq![t], false) =~= seq![t]) by {
            assert(seq![t].drop_last() =~= Seq::<ExprV>::empty());
            assert(flatten(Seq::<ExprV>::empty(), false) == Seq::<ExprV>::empty());
            assert(seq![t].last() == t);
            assert(parts(t, false) == seq![t]);
            assert(Seq::<ExprV>::empty() + seq![t] =~= seq![t]);
        }
        assert(v.last() == num);
        assert(parts(num, false) == seq![num]);
        assert(seq![t] + seq![num] =~= v);
    }
    lemma_small_canonical(1);
    lemma_small_canonical(n as int);
    lemma_mul_laws(rat_int(n as int), rat_one(), rat_one());
    lemma_sub_div_laws(rat_one(), rat_int(n as int));
    assert(v.last() == num);
    assert(num_total(seq![t], false) == rat_one()) by {
        assert(seq![t].drop_last() =~= Seq::<ExprV>::empty());
        assert(num_total(Seq::<ExprV>::empty(), false) == rat_one());
        assert(seq![t].last() == t);
    }
    assert(num_total(v, false) == rat_mul(rat_one(), rat_int(n as int)));
    assert(num_total(v, false) == rat_int(n as int));
    let e = group_polys(v, false);
    assert(group_polys(Seq::<ExprV>::empty(), false) == Seq::<(Seq<char>, Seq<(Rat, Rat)>)>::empty());
    assert(group_polys(seq![t], false) == Seq::<(Seq<char>, Seq<(Rat, Rat)>)>::empty());
    assert(e =~= Seq::<(Seq<char>, Seq<(Rat, Rat)>)>::empty());
    assert(adjust_polys(e, false) =~= e);
    assert(keep_polys(e, false) == e);
    assert(rest_of(v) =~= seq![t]) by {
        assert(rest_of(seq![t]) =~= seq![t]) by {
            assert(seq![t].drop_last() =~= Seq::<ExprV>::empty());
            assert(rest_of(Seq::<ExprV>::empty()) == Seq::<ExprV>::empty());
            assert(seq![t].last() == t);
            assert(Seq::<ExprV>::empty().push(t) =~= seq![t]);
        }
    }
    lemma_count_copies(t, 1);
    assert(copies(t, 1) =~= seq![t]);
    let one = ExprV::Num(rat_int(1));
    let pw = ExprV::Pow(Box::new(t), Box::new(one));
    {
        lemma_settled_call(t, ctx, (f - 1) as nat);
        assert(simplified(one, ctx, (f - 1) as nat) == Ok::<ExprV, ErrorV>(one));
        assert(simplified(pw, ctx, (f - 1) as nat) == simplified_pow(t, one, ctx, (f - 1) as nat));
        assert(simplified_pow(t, one, ctx, (f - 1) as nat) == Ok::<ExprV, ErrorV>(t));
        assert(repeated(t, 1, false) == pw);
        assert(simplified_jump(pw, ctx, f) == Ok::<ExprV, ErrorV>(t));
    }
    assert(simplified_terms(seq![(t, 1nat)], ctx, f, false) == Ok::<Seq<ExprV>, ErrorV>(seq![t])) by {
        assert(seq![(t, 1nat)].last() == (t, 1nat));
        assert(simplified_terms(Seq::<(ExprV, nat)>::empty(), ctx, f, false) == Ok::<Seq<ExprV>, ErrorV>(
            Seq::<ExprV>::empty(),
        ));
        assert(seq![(t, 1nat)].drop_last() =~= Seq::<(ExprV, nat)>::empty());
        assert(seq![t] =~= Seq::<ExprV>::empty().push(t));
    }
    assert(merge(num_term(rat_int(n as int), false), e, false) == (Some(rat_int(n as int)), e));
    let all = seq![t] + num_terms(Some(rat_int(n as int))) + poly_terms(e);
    assert(all =~= v);
    assert(sort_exprs(v) =~= v) by {
        assert(v.drop_last() =~= seq![t]);
        assert(sort_exprs(Seq::<ExprV>::empty()) == Seq::<ExprV>::empty());
        assert(insert_sorted(Seq::<ExprV>::empty(), t) == seq![t]);
        assert(sort_exprs(seq![t]) =~= seq![t]) by {
            assert(seq![t].drop_last() =~= Seq::<ExprV>::empty());
            assert(seq![t].last() == t);
        }
        assert(expr_order(t, num) == Comparison::Less);
        assert(seq![t].last() == t);
        assert(insert_sorted(seq![t], num) =~= seq![t].push(num));
        assert(seq![t].push(num) =~= v);
    }
    assert(simplified(ExprV::Mul(v), ctx, f) == simplified_assoc(v, ctx, f, false));
    assert(simplified_assoc(v, ctx, f, false) == simplified_flat(v, ctx, f, false));
    assert(assemble(v, false) == ExprV::Mul(v));
}

} // verus!
