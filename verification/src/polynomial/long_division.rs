//! What long division computes for any rational degrees: the coefficients
//! after each step, and how they split into quotient and remainder.
use crate::polynomial::division::lemma_coeff_subrange;
use crate::polynomial::{
    canonical_pairs, coeff_of, has_degree, is_poly_value, lemma_coeff_of_absent, lemma_coeff_of_at,
    lemma_poly_with, lower_degrees, poly_with, sorted_degrees,
};
use crate::rational::{
    lemma_add_laws, lemma_ops_canonical, lemma_regroup, lemma_steps_decrease, lemma_sub_div_laws,
    rat_add, rat_div, rat_lt, rat_mul, rat_one, rat_steps, rat_sub, rat_zero, Rat,
};
use vstd::prelude::*;

verus! {

/// The coefficients of `p` as a function of the degree.
pub open spec fn coeff_fn(p: Seq<(Rat, Rat)>) -> spec_fn(Rat) -> Rat {
    |x: Rat| coeff_of(p, x)
}

/// The step of long division by `dv` at degree `dk`, once `t` monomials of
/// `dv` are handled: the coefficient `c` of `dk` becomes `c` divided by the
/// leading coefficient, and each further monomial of `dv`, times that
/// quotient, is subtracted at its degree plus `dk` minus the leading degree.
pub open spec fn div_step(f: spec_fn(Rat) -> Rat, dv: Seq<(Rat, Rat)>, dk: Rat, t: nat) -> spec_fn(Rat) -> Rat
    decreases t,
{
    let c = rat_div(f(dk), dv[0].0);
    if t <= 1 {
        |y: Rat|
            if y == dk {
                c
            } else {
                f(y)
            }
    } else {
        let g = div_step(f, dv, dk, (t - 1) as nat);
        let e = rat_sub(rat_add(dk, dv[t - 1].1), dv[0].1);
        |y: Rat|
            if y == e {
                rat_sub(g(y), rat_mul(c, dv[t - 1].0))
            } else {
                g(y)
            }
    }
}

/// The coefficients after long division by `dv` from degree `dk` down, in
/// steps of one while at or above the leading degree of `dv`.
pub open spec fn long_div(f: spec_fn(Rat) -> Rat, dv: Seq<(Rat, Rat)>, dk: Rat) -> spec_fn(Rat) -> Rat
    decreases rat_steps(dk, dv[0].1),
{
    if dv.len() == 0 || dk.den <= 0 || dv[0].1.den <= 0 || rat_lt(dk, dv[0].1) {
        f
    } else {
        proof {
            lemma_steps_decrease(dk, dv[0].1);
        }
        long_div(div_step(f, dv, dk, dv.len()), dv, rat_sub(dk, rat_one()))
    }
}

/// The coefficients after long division of `p` by `dv`, from the degree of
/// `p`.
pub open spec fn long_division(p: Seq<(Rat, Rat)>, dv: Seq<(Rat, Rat)>) -> spec_fn(Rat) -> Rat {
    if p.len() == 0 {
        coeff_fn(p)
    } else {
        long_div(coeff_fn(p), dv, p[0].1)
    }
}

/// `q` is the quotient of the long division of `p` by `d`: the
/// coefficients at or above the leading degree of `d`, lowered by it.
pub open spec fn long_quotient(p: Seq<(Rat, Rat)>, d: Seq<(Rat, Rat)>, q: Seq<(Rat, Rat)>) -> bool {
    forall|y: Rat| y.canonical() ==> #[trigger] coeff_of(q, rat_sub(y, d[0].1)) == if rat_lt(y, d[0].1) {
        rat_zero()
    } else {
        long_division(p, d)(y)
    }
}

/// `r` is the remainder of the long division of `p` by `d`: the
/// coefficients below the leading degree of `d`.
pub open spec fn long_remainder(p: Seq<(Rat, Rat)>, d: Seq<(Rat, Rat)>, r: Seq<(Rat, Rat)>) -> bool {
    forall|y: Rat| y.canonical() ==> #[trigger] coeff_of(r, y) == if rat_lt(y, d[0].1) {
        long_division(p, d)(y)
    } else {
        rat_zero()
    }
}

/// The coefficients of the remainder of the long division of `p` by `d`.
pub open spec fn rem_fn(p: Seq<(Rat, Rat)>, d: Seq<(Rat, Rat)>) -> spec_fn(Rat) -> Rat {
    |y: Rat|
        if y.canonical() && rat_lt(y, d[0].1) {
            long_division(p, d)(y)
        } else {
            rat_zero()
        }
}

/// The coefficients of the quotient of the long division of `p` by `d`.
pub open spec fn quot_fn(p: Seq<(Rat, Rat)>, d: Seq<(Rat, Rat)>) -> spec_fn(Rat) -> Rat {
    |x: Rat|
        if x.canonical() && !rat_lt(rat_add(x, d[0].1), d[0].1) {
            long_division(p, d)(rat_add(x, d[0].1))
        } else {
            rat_zero()
        }
}

/// The remainder of the long division of `p` by `d`, as a cleaned
/// polynomial.
pub open spec fn long_rem(p: Seq<(Rat, Rat)>, d: Seq<(Rat, Rat)>) -> Seq<(Rat, Rat)> {
    poly_with(rem_fn(p, d))
}

/// The quotient of the long division of `p` by `d`, as a cleaned
/// polynomial.
pub open spec fn long_quot(p: Seq<(Rat, Rat)>, d: Seq<(Rat, Rat)>) -> Seq<(Rat, Rat)> {
    poly_with(quot_fn(p, d))
}

/// A cleaned remainder of long division is `long_rem`.
pub proof fn lemma_long_rem(p: Seq<(Rat, Rat)>, d: Seq<(Rat, Rat)>, r: Seq<(Rat, Rat)>)
    requires
        is_poly_value(r),
        long_remainder(p, d, r),
    ensures
        r == long_rem(p, d),
{
    assert forall|y: Rat| #[trigger] coeff_of(r, y) == rem_fn(p, d)(y) by {
        if !y.canonical() {
            assert forall|i: int| 0 <= i < r.len() implies (#[trigger] r[i]).1 != y by {}
            lemma_coeff_of_absent(r, y);
        }
    }
    lemma_poly_with(r, rem_fn(p, d));
}

/// A cleaned quotient of long division is `long_quot`.
pub proof fn lemma_long_quot(p: Seq<(Rat, Rat)>, d: Seq<(Rat, Rat)>, q: Seq<(Rat, Rat)>)
    requires
        is_poly_value(q),
        d.len() > 0,
        d[0].1.canonical(),
        long_quotient(p, d, q),
    ensures
        q == long_quot(p, d),
{
    let nd = d[0].1;
    assert forall|x: Rat| #[trigger] coeff_of(q, x) == quot_fn(p, d)(x) by {
        if !x.canonical() {
            assert forall|i: int| 0 <= i < q.len() implies (#[trigger] q[i]).1 != x by {}
            lemma_coeff_of_absent(q, x);
        } else {
            let y = rat_add(x, nd);
            lemma_ops_canonical(x, nd);
            lemma_add_laws(x, nd, nd);
            lemma_regroup(nd, x, nd, nd);
            assert(rat_sub(y, nd) == x);
            assert(coeff_of(q, rat_sub(y, nd)) == if rat_lt(y, nd) {
                rat_zero()
            } else {
                long_division(p, d)(y)
            });
        }
    }
    lemma_poly_with(q, quot_fn(p, d));
}

/// Lowering the degrees by `nd` moves the coefficient of `y` to `y - nd`.
pub proof fn lemma_lowered_coeff(q: Seq<(Rat, Rat)>, nd: Rat, y: Rat)
    requires
        sorted_degrees(q),
        sorted_degrees(lower_degrees(q, nd)),
        canonical_pairs(q),
        nd.canonical(),
        y.canonical(),
    ensures
        coeff_of(lower_degrees(q, nd), rat_sub(y, nd)) == coeff_of(q, y),
{
    let t = lower_degrees(q, nd);
    lemma_sub_div_laws(y, nd);
    if has_degree(q, y) {
        let i = choose|i: int| 0 <= i < q.len() && (#[trigger] q[i]).1 == y;
        assert(t[i].1 == rat_sub(y, nd));
        lemma_coeff_of_at(t, i);
        lemma_coeff_of_at(q, i);
    } else {
        assert forall|i: int| 0 <= i < t.len() implies (#[trigger] t[i]).1 != rat_sub(y, nd) by {
            lemma_sub_div_laws(q[i].1, nd);
        }
        lemma_coeff_of_absent(t, rat_sub(y, nd));
    }
}

/// Splitting a sorted sequence where its degrees fall below `nd` splits
/// its coefficients there.
pub proof fn lemma_split_coeff(s: Seq<(Rat, Rat)>, index: int, nd: Rat, y: Rat)
    requires
        sorted_degrees(s),
        0 <= index <= s.len(),
        forall|j: int| 0 <= j < index ==> !rat_lt(#[trigger] s[j].1, nd),
        forall|j: int| index <= j < s.len() ==> rat_lt(#[trigger] s[j].1, nd),
    ensures
        coeff_of(s.subrange(index, s.len() as int), y) == if rat_lt(y, nd) {
            coeff_of(s, y)
        } else {
            rat_zero()
        },
        coeff_of(s.subrange(0, index), y) == if rat_lt(y, nd) {
            rat_zero()
        } else {
            coeff_of(s, y)
        },
{
    lemma_coeff_subrange(s, index, s.len() as int, y);
    lemma_coeff_subrange(s, 0, index, y);
    if has_degree(s, y) {
        let i0 = choose|i: int| 0 <= i < s.len() && (#[trigger] s[i]).1 == y;
        if i0 < index {
            assert(!rat_lt(s[i0].1, nd));
        } else {
            assert(rat_lt(s[i0].1, nd));
        }
        assert forall|i: int| 0 <= i < s.len() && (#[trigger] s[i]).1 == y implies i == i0 by {
            if i < i0 {
                assert(rat_lt(s[i0].1, s[i].1));
            } else if i > i0 {
                assert(rat_lt(s[i].1, s[i0].1));
            }
        }
    }
}

} // verus!
