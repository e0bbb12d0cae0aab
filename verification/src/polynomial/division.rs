//! What polynomial division computes: for integer degrees, the quotient
//! times the divisor plus the remainder is the dividend.
use crate::polynomial::{
    canonical_pairs, coeff_of, has_degree, is_poly_value, lemma_coeff_of_absent, lemma_coeff_of_at,
    lemma_coeff_of_canonical, lemma_poly_unique, lower_degrees, nonzero_coeffs, poly_mul, poly_sub,
    product_coeff, scale_div, shift_scale, sorted_degrees,
};
use crate::rational::{
    lemma_add_laws, lemma_int_ops, lemma_ops_canonical, lemma_small_canonical, lemma_sub_div_laws,
    rat_add, rat_int, rat_lt, rat_mul, rat_one, rat_sub, rat_zero, reduce, Rat,
};
use vstd::prelude::*;

verus! {

/// Every degree of the sequence is an integer.
pub open spec fn integer_degrees(s: Seq<(Rat, Rat)>) -> bool {
    forall|i: int| 0 <= i < s.len() ==> (#[trigger] s[i]).1.den == 1
}

/// The coefficient of the integer degree `k`.
pub open spec fn int_coeff(s: Seq<(Rat, Rat)>, k: int) -> Rat {
    coeff_of(s, rat_int(k))
}

/// The coefficients of `s` above the integer degree `top`, and zero below.
pub open spec fn upper(s: Seq<(Rat, Rat)>, top: int) -> spec_fn(int) -> Rat {
    |y: int|
        if y > top {
            int_coeff(s, y)
        } else {
            rat_zero()
        }
}

/// The coefficients of `s` at or below the integer degree `top`, and zero
/// above.
pub open spec fn lower(s: Seq<(Rat, Rat)>, top: int, k: int) -> Rat {
    if k > top {
        rat_zero()
    } else {
        int_coeff(s, k)
    }
}

/// The coefficient of degree `k` in the product of the divisor `dv` with
/// the quotient whose coefficient of degree `y - nd` is `f(y)`: the sum,
/// over the monomials of `dv` in order, of `f(k - degree + nd)` times the
/// monomial's coefficient.
pub open spec fn conv(f: spec_fn(int) -> Rat, dv: Seq<(Rat, Rat)>, nd: int, k: int) -> Rat
    decreases dv.len(),
{
    if dv.len() == 0 {
        rat_zero()
    } else {
        rat_add(
            conv(f, dv.drop_last(), nd, k),
            rat_mul(f(k - dv.last().1.num + nd), dv.last().0),
        )
    }
}

/// The last position of the integer degree `e` in `dv`, or -1.
pub open spec fn find_degree(dv: Seq<(Rat, Rat)>, e: int) -> int
    decreases dv.len(),
{
    if dv.len() == 0 {
        -1
    } else if dv.last().1.num == e {
        dv.len() - 1
    } else {
        find_degree(dv.drop_last(), e)
    }
}

/// The pairs of a sorted sequence with integer degrees have distinct
/// degree numerators; `find_degree` finds the one with a given numerator.
pub proof fn lemma_find_degree(dv: Seq<(Rat, Rat)>, e: int)
    requires
        sorted_degrees(dv),
        integer_degrees(dv),
    ensures
        -1 <= find_degree(dv, e) < dv.len(),
        find_degree(dv, e) >= 0 ==> dv[find_degree(dv, e)].1.num == e,
        forall|i: int| 0 <= i < dv.len() && i != find_degree(dv, e) ==> (#[trigger] dv[i]).1.num != e,
    decreases dv.len(),
{
    if dv.len() > 0 {
        let t = dv.drop_last();
        assert(sorted_degrees(t)) by {
            assert forall|i: int, j: int| #![trigger t[i], t[j]] 0 <= i < j < t.len() implies rat_lt(
                t[j].1,
                t[i].1,
            ) by {
                assert(t[i] == dv[i] && t[j] == dv[j]);
            }
        }
        assert(integer_degrees(t)) by {
            assert forall|i: int| 0 <= i < t.len() implies (#[trigger] t[i]).1.den == 1 by {
                assert(t[i] == dv[i]);
            }
        }
        lemma_find_degree(t, e);
        let n = dv.len() - 1;
        assert forall|i: int| 0 <= i < dv.len() && i != find_degree(dv, e) implies (#[trigger] dv[i]).1.num
            != e by {
            if dv.last().1.num == e && i < n {
                assert(rat_lt(dv[n].1, dv[i].1));
            } else if i < n {
                assert(dv[i] == t[i]);
            }
        }
    }
}

/// The change of the product coefficient when `f` changes from zero to `c`
/// at one degree `y0`.
pub open spec fn conv_delta(dv: Seq<(Rat, Rat)>, nd: int, k: int, y0: int, c: Rat) -> Rat {
    let j = find_degree(dv, k + nd - y0);
    if j >= 0 {
        rat_mul(c, dv[j].0)
    } else {
        rat_zero()
    }
}

/// Zero times anything is zero.
pub proof fn lemma_mul_zero(a: Rat)
    requires
        a.den > 0,
    ensures
        rat_mul(rat_zero(), a) == rat_zero(),
{
    lemma_small_canonical(0);
    crate::rational::lemma_ops_value(rat_zero(), a);
    lemma_ops_canonical(rat_zero(), a);
    let m = rat_mul(rat_zero(), a);
    assert(0 * a.num == 0);
    assert(m.num * (1 * a.den) == 0);
    assert(m.num == 0) by (nonlinear_arith)
        requires
            m.num * (1 * a.den) == 0,
            a.den > 0,
    ;
    crate::rational::lemma_canonical_zero(m);
}

/// The product coefficients are canonical.
pub proof fn lemma_conv_canonical(f: spec_fn(int) -> Rat, dv: Seq<(Rat, Rat)>, nd: int, k: int)
    requires
        forall|y: int| (#[trigger] f(y)).canonical(),
        canonical_pairs(dv),
    ensures
        conv(f, dv, nd, k).canonical(),
    decreases dv.len(),
{
    lemma_small_canonical(0);
    if dv.len() > 0 {
        let t = dv.drop_last();
        assert(canonical_pairs(t)) by {
            assert forall|i: int| 0 <= i < t.len() implies (#[trigger] t[i]).0.canonical() && t[i].1.canonical() by {
                assert(t[i] == dv[i]);
            }
        }
        lemma_conv_canonical(f, t, nd, k);
        let m = dv.last();
        assert(m == dv[dv.len() - 1]);
        lemma_ops_canonical(f(k - m.1.num + nd), m.0);
        lemma_ops_canonical(conv(f, t, nd, k), rat_mul(f(k - m.1.num + nd), m.0));
    }
}

/// The product coefficient of the zero function is zero.
pub proof fn lemma_conv_zero(f: spec_fn(int) -> Rat, dv: Seq<(Rat, Rat)>, nd: int, k: int)
    requires
        forall|y: int| #[trigger] f(y) == rat_zero(),
        canonical_pairs(dv),
    ensures
        conv(f, dv, nd, k) == rat_zero(),
    decreases dv.len(),
{
    lemma_small_canonical(0);
    if dv.len() > 0 {
        let t = dv.drop_last();
        assert(canonical_pairs(t)) by {
            assert forall|i: int| 0 <= i < t.len() implies (#[trigger] t[i]).0.canonical() && t[i].1.canonical() by {
                assert(t[i] == dv[i]);
            }
        }
        lemma_conv_zero(f, t, nd, k);
        let m = dv.last();
        assert(m == dv[dv.len() - 1]);
        assert(f(k - m.1.num + nd) == rat_zero());
        lemma_mul_zero(m.0);
        lemma_add_laws(rat_zero(), rat_zero(), rat_zero());
    }
}

/// Changing `f` from zero to `c` at one degree `y0` adds `conv_delta` to
/// each product coefficient.
pub proof fn lemma_conv_point(
    f: spec_fn(int) -> Rat,
    g: spec_fn(int) -> Rat,
    dv: Seq<(Rat, Rat)>,
    nd: int,
    k: int,
    y0: int,
    c: Rat,
)
    requires
        forall|y: int| #[trigger] g(y) == if y == y0 {
            c
        } else {
            f(y)
        },
        f(y0) == rat_zero(),
        forall|y: int| (#[trigger] f(y)).canonical(),
        c.canonical(),
        canonical_pairs(dv),
        sorted_degrees(dv),
        integer_degrees(dv),
    ensures
        conv(g, dv, nd, k) == rat_add(conv(f, dv, nd, k), conv_delta(dv, nd, k, y0, c)),
    decreases dv.len(),
{
    lemma_small_canonical(0);
    if dv.len() == 0 {
        lemma_add_laws(rat_zero(), rat_zero(), rat_zero());
    } else {
        let t = dv.drop_last();
        let n = dv.len() - 1;
        let m = dv.last();
        assert(m == dv[n]);
        assert(canonical_pairs(t)) by {
            assert forall|i: int| 0 <= i < t.len() implies (#[trigger] t[i]).0.canonical() && t[i].1.canonical() by {
                assert(t[i] == dv[i]);
            }
        }
        assert(sorted_degrees(t)) by {
            assert forall|i: int, j: int| #![trigger t[i], t[j]] 0 <= i < j < t.len() implies rat_lt(
                t[j].1,
                t[i].1,
            ) by {
                assert(t[i] == dv[i] && t[j] == dv[j]);
            }
        }
        assert(integer_degrees(t)) by {
            assert forall|i: int| 0 <= i < t.len() implies (#[trigger] t[i]).1.den == 1 by {
                assert(t[i] == dv[i]);
            }
        }
        lemma_conv_point(f, g, t, nd, k, y0, c);
        lemma_conv_canonical(f, t, nd, k);
        lemma_find_degree(dv, k + nd - y0);
        lemma_find_degree(t, k + nd - y0);
        let y = k - m.1.num + nd;
        let cf = conv(f, t, nd, k);
        let tf = rat_mul(f(y), m.0);
        lemma_ops_canonical(f(y), m.0);
        let dt = conv_delta(t, nd, k, y0, c);
        assert(dt.canonical()) by {
            let j = find_degree(t, k + nd - y0);
            if j >= 0 {
                assert(t[j] == dv[j]);
                lemma_ops_canonical(c, t[j].0);
            }
        }
        if m.1.num == k + nd - y0 {
            // the last monomial meets `y0`: the prefix is unchanged
            assert(y == y0);
            assert(find_degree(t, k + nd - y0) == -1) by {
                let j = find_degree(t, k + nd - y0);
                if j >= 0 {
                    assert(t[j] == dv[j]);
                    assert(j != find_degree(dv, k + nd - y0));
                }
            }
            lemma_mul_zero(m.0);
            lemma_add_laws(cf, rat_zero(), rat_zero());
        } else {
            assert(g(y) == f(y));
            assert(find_degree(dv, k + nd - y0) == find_degree(t, k + nd - y0));
            lemma_add_laws(cf, dt, tf);
            lemma_add_laws(dt, tf, rat_zero());
            lemma_add_laws(cf, tf, dt);
        }
    }
}

/// A canonical rational with denominator one is an integer.
pub proof fn lemma_int_canonical(r: Rat)
    requires
        r.den == 1,
    ensures
        r == rat_int(r.num),
{
}

/// Products with a monomial shift integer degrees by its degree.
pub proof fn lemma_shift_scale_coeff(q: Seq<(Rat, Rat)>, m: (Rat, Rat), k: int)
    requires
        sorted_degrees(q),
        integer_degrees(q),
        canonical_pairs(q),
        m.0.canonical(),
        m.1.den == 1,
    ensures
        coeff_of(shift_scale(q, m), rat_int(k)) == rat_mul(int_coeff(q, k - m.1.num), m.0),
{
    let s = shift_scale(q, m);
    lemma_int_canonical(m.1);
    assert forall|i: int| 0 <= i < q.len() implies (#[trigger] s[i]).1 == rat_int(q[i].1.num + m.1.num) by {
        lemma_int_canonical(q[i].1);
        lemma_int_ops(q[i].1.num, m.1.num);
    }
    assert(sorted_degrees(s)) by {
        assert forall|a: int, b: int| #![trigger s[a], s[b]] 0 <= a < b < s.len() implies rat_lt(
            s[b].1,
            s[a].1,
        ) by {
            assert(rat_lt(q[b].1, q[a].1));
            lemma_int_canonical(q[a].1);
            lemma_int_canonical(q[b].1);
            lemma_int_ops(q[b].1.num, q[a].1.num);
            lemma_int_ops(q[b].1.num + m.1.num, q[a].1.num + m.1.num);
        }
    }
    let e = k - m.1.num;
    if has_degree(q, rat_int(e)) {
        let i = choose|i: int| 0 <= i < q.len() && (#[trigger] q[i]).1 == rat_int(e);
        lemma_coeff_of_at(q, i);
        lemma_coeff_of_at(s, i);
    } else {
        lemma_coeff_of_absent(q, rat_int(e));
        assert forall|i: int| 0 <= i < s.len() implies (#[trigger] s[i]).1 != rat_int(k) by {
            lemma_int_canonical(q[i].1);
            if s[i].1 == rat_int(k) {
                assert(q[i].1.num + m.1.num == k);
                assert(q[i].1 == rat_int(e));
            }
        }
        lemma_coeff_of_absent(s, rat_int(k));
        lemma_mul_zero(m.0);
    }
}

/// The product coefficients of a quotient `q` and a divisor, at an integer
/// degree, are `conv` of the quotient's coefficients raised by `nd`.
pub proof fn lemma_product_conv(
    q: Seq<(Rat, Rat)>,
    dv: Seq<(Rat, Rat)>,
    f: spec_fn(int) -> Rat,
    nd: int,
    k: int,
)
    requires
        sorted_degrees(q),
        integer_degrees(q),
        canonical_pairs(q),
        canonical_pairs(dv),
        integer_degrees(dv),
        forall|y: int| #[trigger] f(y) == int_coeff(q, y - nd),
    ensures
        product_coeff(q, dv, rat_int(k)) == conv(f, dv, nd, k),
    decreases dv.len(),
{
    if dv.len() > 0 {
        let t = dv.drop_last();
        assert(canonical_pairs(t)) by {
            assert forall|i: int| 0 <= i < t.len() implies (#[trigger] t[i]).0.canonical() && t[i].1.canonical() by {
                assert(t[i] == dv[i]);
            }
        }
        assert(integer_degrees(t)) by {
            assert forall|i: int| 0 <= i < t.len() implies (#[trigger] t[i]).1.den == 1 by {
                assert(t[i] == dv[i]);
            }
        }
        lemma_product_conv(q, t, f, nd, k);
        let m = dv.last();
        assert(m == dv[dv.len() - 1]);
        lemma_shift_scale_coeff(q, m, k);
        assert(f(k - m.1.num + nd) == int_coeff(q, k - m.1.num));
    }
}

/// At a degree that is not an integer, every product coefficient of
/// polynomials with integer degrees is zero.
pub proof fn lemma_product_non_integer(q: Seq<(Rat, Rat)>, dv: Seq<(Rat, Rat)>, x: Rat)
    requires
        integer_degrees(q),
        integer_degrees(dv),
        canonical_pairs(dv),
        x.den != 1,
    ensures
        product_coeff(q, dv, x) == rat_zero(),
    decreases dv.len(),
{
    lemma_small_canonical(0);
    if dv.len() > 0 {
        let t = dv.drop_last();
        assert(canonical_pairs(t)) by {
            assert forall|i: int| 0 <= i < t.len() implies (#[trigger] t[i]).0.canonical() && t[i].1.canonical() by {
                assert(t[i] == dv[i]);
            }
        }
        assert(integer_degrees(t)) by {
            assert forall|i: int| 0 <= i < t.len() implies (#[trigger] t[i]).1.den == 1 by {
                assert(t[i] == dv[i]);
            }
        }
        lemma_product_non_integer(q, t, x);
        let m = dv.last();
        assert(m == dv[dv.len() - 1]);
        let s = shift_scale(q, m);
        assert forall|i: int| 0 <= i < s.len() implies (#[trigger] s[i]).1 != x by {
            lemma_int_canonical(q[i].1);
            lemma_int_canonical(m.1);
            lemma_int_ops(q[i].1.num, m.1.num);
        }
        lemma_coeff_of_absent(s, x);
        lemma_add_laws(rat_zero(), rat_zero(), rat_zero());
    }
}

/// At a degree that is not an integer, a sequence with integer degrees has
/// no coefficient.
pub proof fn lemma_coeff_non_integer(s: Seq<(Rat, Rat)>, x: Rat)
    requires
        integer_degrees(s),
        x.den != 1,
    ensures
        coeff_of(s, x) == rat_zero(),
{
    assert forall|i: int| 0 <= i < s.len() implies (#[trigger] s[i]).1 != x by {}
    lemma_coeff_of_absent(s, x);
}


/// The coefficient at an integer degree after the division step at degree
/// `dk` with quotient coefficient `c`, once the first `t` monomials of the
/// divisor have been handled: `c` at `dk`, and the product with the
/// handled monomials subtracted below.
pub open spec fn stepped(
    s0: Seq<(Rat, Rat)>,
    dv: Seq<(Rat, Rat)>,
    dk: int,
    nd: int,
    c: Rat,
    t: int,
    y: int,
) -> Rat {
    if y == dk {
        c
    } else {
        let j = find_degree(dv.take(t), y + nd - dk);
        if j >= 0 {
            rat_sub(int_coeff(s0, y), rat_mul(c, dv[j].0))
        } else {
            int_coeff(s0, y)
        }
    }
}

/// The coefficients of a range of a sorted sequence.
pub proof fn lemma_coeff_subrange(s: Seq<(Rat, Rat)>, a: int, b: int, d: Rat)
    requires
        sorted_degrees(s),
        0 <= a <= b <= s.len(),
    ensures
        coeff_of(s.subrange(a, b), d) == if exists|i: int| a <= i < b && (#[trigger] s[i]).1 == d {
            coeff_of(s, d)
        } else {
            rat_zero()
        },
{
    let t = s.subrange(a, b);
    assert(sorted_degrees(t)) by {
        assert forall|i: int, j: int| #![trigger t[i], t[j]] 0 <= i < j < t.len() implies rat_lt(
            t[j].1,
            t[i].1,
        ) by {
            assert(t[i] == s[a + i] && t[j] == s[a + j]);
        }
    }
    if exists|i: int| a <= i < b && (#[trigger] s[i]).1 == d {
        let i = choose|i: int| a <= i < b && (#[trigger] s[i]).1 == d;
        assert(t[i - a] == s[i]);
        lemma_coeff_of_at(t, i - a);
        lemma_coeff_of_at(s, i);
    } else {
        assert forall|i: int| 0 <= i < t.len() implies (#[trigger] t[i]).1 != d by {
            assert(t[i] == s[a + i]);
        }
        lemma_coeff_of_absent(t, d);
    }
}

/// Lowering integer degrees by `nd` moves the coefficients down by `nd`.
pub proof fn lemma_lower_degrees_coeff(s: Seq<(Rat, Rat)>, nd: Rat, y: int)
    requires
        sorted_degrees(s),
        integer_degrees(s),
        nd.den == 1,
    ensures
        coeff_of(lower_degrees(s, nd), rat_int(y)) == int_coeff(s, y + nd.num),
        integer_degrees(lower_degrees(s, nd)),
        sorted_degrees(lower_degrees(s, nd)),
{
    let t = lower_degrees(s, nd);
    lemma_int_canonical(nd);
    assert forall|i: int| 0 <= i < s.len() implies (#[trigger] t[i]).1 == rat_int(s[i].1.num - nd.num) by {
        lemma_int_canonical(s[i].1);
        lemma_int_ops(s[i].1.num, nd.num);
    }
    assert(integer_degrees(t)) by {
        assert forall|i: int| 0 <= i < t.len() implies (#[trigger] t[i]).1.den == 1 by {
            assert(t[i].1 == rat_int(s[i].1.num - nd.num));
        }
    }
    assert(sorted_degrees(t)) by {
        assert forall|a: int, b: int| #![trigger t[a], t[b]] 0 <= a < b < t.len() implies rat_lt(
            t[b].1,
            t[a].1,
        ) by {
            assert(rat_lt(s[b].1, s[a].1));
            lemma_int_canonical(s[a].1);
            lemma_int_canonical(s[b].1);
            lemma_int_ops(s[b].1.num, s[a].1.num);
            lemma_int_ops(s[b].1.num - nd.num, s[a].1.num - nd.num);
        }
    }
    let e = y + nd.num;
    if has_degree(s, rat_int(e)) {
        let i = choose|i: int| 0 <= i < s.len() && (#[trigger] s[i]).1 == rat_int(e);
        lemma_coeff_of_at(s, i);
        lemma_coeff_of_at(t, i);
    } else {
        lemma_coeff_of_absent(s, rat_int(e));
        assert forall|i: int| 0 <= i < t.len() implies (#[trigger] t[i]).1 != rat_int(y) by {
            lemma_int_canonical(s[i].1);
            if t[i].1 == rat_int(y) {
                assert(s[i].1 == rat_int(e));
            }
        }
        lemma_coeff_of_absent(t, rat_int(y));
    }
}


/// The division invariant: every integer coefficient of the dividend `o` is
/// the part of `s` at or below `top` plus the product of the divisor with
/// the part above.
pub open spec fn div_invariant(o: Seq<(Rat, Rat)>, s: Seq<(Rat, Rat)>, top: int, dv: Seq<(Rat, Rat)>, nd: int) -> bool {
    forall|k: int| #[trigger] int_coeff(o, k) == rat_add(lower(s, top, k), conv(upper(s, top), dv, nd, k))
}

/// A divisor as the division uses it: sorted, canonical, with integer
/// degrees and a non-zero leading coefficient of degree `nd`.
pub open spec fn divisor_ok(dv: Seq<(Rat, Rat)>, nd: int) -> bool {
    &&& dv.len() > 0
    &&& sorted_degrees(dv)
    &&& canonical_pairs(dv)
    &&& integer_degrees(dv)
    &&& dv[0].1.num == nd
    &&& dv[0].0.num != 0
}

/// The degrees of a divisor are at most its leading one, and below it
/// after the first.
pub proof fn lemma_divisor_degrees(dv: Seq<(Rat, Rat)>, nd: int)
    requires
        divisor_ok(dv, nd),
    ensures
        forall|j: int| 0 < j < dv.len() ==> #[trigger] dv[j].1.num < nd,
{
    assert forall|j: int| 0 < j < dv.len() implies #[trigger] dv[j].1.num < nd by {
        assert(rat_lt(dv[j].1, dv[0].1));
    }
}

/// Right after the quotient coefficient `c` is stored at `dk`, no monomial
/// of the divisor has been handled.
pub proof fn lemma_step_start(s0: Seq<(Rat, Rat)>, s1: Seq<(Rat, Rat)>, dv: Seq<(Rat, Rat)>, dk: int, nd: int, c: Rat)
    requires
        divisor_ok(dv, nd),
        forall|y: int| #[trigger] int_coeff(s1, y) == if y == dk {
            c
        } else {
            int_coeff(s0, y)
        },
    ensures
        forall|y: int| #[trigger] int_coeff(s1, y) == stepped(s0, dv, dk, nd, c, 1, y),
{
    assert forall|y: int| #[trigger] int_coeff(s1, y) == stepped(s0, dv, dk, nd, c, 1, y) by {
        if y != dk {
            let t = dv.take(1);
            assert(t.last() == dv[0]);
            assert(t.drop_last() =~= Seq::<(Rat, Rat)>::empty());
            assert(find_degree(Seq::<(Rat, Rat)>::empty(), y + nd - dk) == -1);
            assert(find_degree(t, y + nd - dk) == -1);
        }
    }
}

/// Handling the divisor monomial `t`: its product with `c` is subtracted at
/// degree `dk + degree - nd`.
pub proof fn lemma_step_term(
    s0: Seq<(Rat, Rat)>,
    sb: Seq<(Rat, Rat)>,
    sa: Seq<(Rat, Rat)>,
    dv: Seq<(Rat, Rat)>,
    dk: int,
    nd: int,
    c: Rat,
    t: int,
)
    requires
        divisor_ok(dv, nd),
        1 <= t < dv.len(),
        forall|y: int| #[trigger] int_coeff(sb, y) == stepped(s0, dv, dk, nd, c, t, y),
        forall|y: int| #[trigger] int_coeff(sa, y) == if y == dk + dv[t].1.num - nd {
            rat_sub(int_coeff(sb, y), rat_mul(c, dv[t].0))
        } else {
            int_coeff(sb, y)
        },
    ensures
        int_coeff(sb, dk + dv[t].1.num - nd) == int_coeff(s0, dk + dv[t].1.num - nd),
        forall|y: int| #[trigger] int_coeff(sa, y) == stepped(s0, dv, dk, nd, c, t + 1, y),
{
    lemma_divisor_degrees(dv, nd);
    let yt = dk + dv[t].1.num - nd;
    let pre = dv.take(t);
    let post = dv.take(t + 1);
    assert(post.drop_last() =~= pre);
    assert(post.last() == dv[t]);
    assert(sorted_degrees(pre) && integer_degrees(pre)) by {
        assert forall|i: int, j: int| #![trigger pre[i], pre[j]] 0 <= i < j < pre.len() implies rat_lt(
            pre[j].1,
            pre[i].1,
        ) by {
            assert(pre[i] == dv[i] && pre[j] == dv[j]);
        }
        assert forall|i: int| 0 <= i < pre.len() implies (#[trigger] pre[i]).1.den == 1 by {
            assert(pre[i] == dv[i]);
        }
    }
    lemma_find_degree(pre, dv[t].1.num);
    assert(find_degree(pre, dv[t].1.num) == -1) by {
        let j = find_degree(pre, dv[t].1.num);
        if j >= 0 {
            assert(pre[j] == dv[j]);
            assert(rat_lt(dv[t].1, dv[j].1));
        }
    }
    assert(yt != dk);
    assert(yt + nd - dk == dv[t].1.num);
    assert forall|y: int| #[trigger] int_coeff(sa, y) == stepped(s0, dv, dk, nd, c, t + 1, y) by {
        if y != dk && y != yt {
            assert(find_degree(post, y + nd - dk) == find_degree(pre, y + nd - dk));
        }
    }
}

/// After the division step at `dk`, the invariant holds one degree lower.
pub proof fn lemma_step_done(
    o: Seq<(Rat, Rat)>,
    s0: Seq<(Rat, Rat)>,
    s1: Seq<(Rat, Rat)>,
    dv: Seq<(Rat, Rat)>,
    dk: int,
    nd: int,
    c: Rat,
)
    requires
        divisor_ok(dv, nd),
        canonical_pairs(s0),
        canonical_pairs(s1),
        c == crate::rational::rat_div(int_coeff(s0, dk), dv[0].0),
        div_invariant(o, s0, dk, dv, nd),
        forall|y: int| #[trigger] int_coeff(s1, y) == stepped(s0, dv, dk, nd, c, dv.len() as int, y),
    ensures
        div_invariant(o, s1, dk - 1, dv, nd),
        forall|y: int| y > dk ==> #[trigger] int_coeff(s1, y) == int_coeff(s0, y),
{
    lemma_divisor_degrees(dv, nd);
    assert(dv.take(dv.len() as int) =~= dv);
    let f = upper(s0, dk);
    let g = upper(s1, dk - 1);
    lemma_small_canonical(0);
    assert forall|y: int| (#[trigger] f(y)).canonical() by {
        lemma_coeff_of_canonical(s0, rat_int(y));
    }
    let lead = dv[0].0;
    let fd = int_coeff(s0, dk);
    lemma_coeff_of_canonical(s0, rat_int(dk));
    assert(lead.canonical());
    lemma_ops_canonical(fd, lead);
    assert forall|y: int| y > dk implies #[trigger] int_coeff(s1, y) == int_coeff(s0, y) by {
        lemma_find_degree(dv, y + nd - dk);
        let j = find_degree(dv, y + nd - dk);
        if j >= 0 {
            if j > 0 {
                assert(dv[j].1.num < nd);
            }
        }
    }
    assert forall|y: int| #[trigger] g(y) == if y == dk {
        c
    } else {
        f(y)
    } by {
        if y > dk {
            assert(int_coeff(s1, y) == int_coeff(s0, y));
        }
    }
    assert forall|k: int| #[trigger] int_coeff(o, k) == rat_add(lower(s1, dk - 1, k), conv(g, dv, nd, k)) by {
        lemma_conv_point(f, g, dv, nd, k, dk, c);
        lemma_conv_canonical(f, dv, nd, k);
        let cf = conv(f, dv, nd, k);
        lemma_find_degree(dv, k + nd - dk);
        let j = find_degree(dv, k + nd - dk);
        let delta = conv_delta(dv, nd, k, dk, c);
        assert(int_coeff(o, k) == rat_add(lower(s0, dk, k), cf));
        assert(conv(g, dv, nd, k) == rat_add(cf, delta));
        if k > dk {
            assert(j == -1) by {
                if j >= 0 {
                    if j > 0 {
                        assert(dv[j].1.num < nd);
                    }
                }
            }
            assert(delta == rat_zero());
            lemma_add_laws(cf, rat_zero(), rat_zero());
            assert(lower(s1, dk - 1, k) == rat_zero());
            assert(lower(s0, dk, k) == rat_zero());
        } else if k == dk {
            assert(j == 0) by {
                if j != 0 {
                    assert(dv[0].1.num == nd);
                }
            }
            assert(delta == rat_mul(c, lead));
            lemma_sub_div_laws(fd, lead);
            assert(delta == fd);
            lemma_add_laws(fd, cf, rat_zero());
            lemma_add_laws(cf, fd, rat_zero());
            assert(lower(s1, dk - 1, k) == rat_zero());
            assert(lower(s0, dk, k) == fd);
        } else {
            let fk = int_coeff(s0, k);
            lemma_coeff_of_canonical(s0, rat_int(k));
            if j >= 0 {
                let e = rat_mul(c, dv[j].0);
                lemma_ops_canonical(c, dv[j].0);
                lemma_ops_canonical(fk, e);
                let a = rat_sub(fk, e);
                lemma_sub_div_laws(fk, e);
                lemma_add_laws(a, cf, e);
                lemma_add_laws(a, cf, rat_zero());
                lemma_add_laws(cf, a, e);
                lemma_add_laws(a, e, cf);
                lemma_add_laws(fk, cf, rat_zero());
            } else {
                lemma_add_laws(cf, rat_zero(), rat_zero());
            }
        }
    }
}


/// When the steps are over, the monomials of degree at least `nd` form the
/// quotient, lowered by `nd`, and the others the remainder: the quotient
/// times the divisor plus the remainder is the dividend.
pub proof fn lemma_div_final(
    o: Seq<(Rat, Rat)>,
    s: Seq<(Rat, Rat)>,
    big: Seq<(Rat, Rat)>,
    dv: Seq<(Rat, Rat)>,
    top: int,
    d0: int,
    nd: int,
    index: int,
)
    requires
        divisor_ok(dv, nd),
        integer_degrees(o),
        div_invariant(o, s, top, dv, nd),
        top < nd,
        top == d0 || top >= nd - 1,
        forall|y: int| y > d0 ==> #[trigger] int_coeff(s, y) == rat_zero(),
        forall|d: Rat| #[trigger] coeff_of(big, d) == coeff_of(s, d),
        sorted_degrees(big),
        canonical_pairs(big),
        integer_degrees(big),
        0 <= index <= big.len(),
        forall|j: int| 0 <= j < index ==> (#[trigger] big[j]).1.num >= nd,
        forall|j: int| index <= j < big.len() ==> (#[trigger] big[j]).1.num < nd,
    ensures
        forall|x: Rat| #[trigger] coeff_of(o, x) == rat_add(
            product_coeff(lower_degrees(big.subrange(0, index), dv[0].1), dv, x),
            coeff_of(big.subrange(index, big.len() as int), x),
        ),
        integer_degrees(lower_degrees(big.subrange(0, index), dv[0].1)),
        integer_degrees(big.subrange(index, big.len() as int)),
        forall|i: int| 0 <= i < index ==> (#[trigger] lower_degrees(big.subrange(0, index), dv[0].1)[i]).1.num >= 0,
{
    let hi = big.subrange(0, index);
    let lo = big.subrange(index, big.len() as int);
    let nr = dv[0].1;
    lemma_int_canonical(nr);
    assert(sorted_degrees(hi) && integer_degrees(hi) && canonical_pairs(hi)) by {
        assert forall|i: int, j: int| #![trigger hi[i], hi[j]] 0 <= i < j < hi.len() implies rat_lt(
            hi[j].1,
            hi[i].1,
        ) by {
            assert(hi[i] == big[i] && hi[j] == big[j]);
        }
        assert forall|i: int| 0 <= i < hi.len() implies (#[trigger] hi[i]).1.den == 1 && hi[i].0.canonical() && hi[i].1.canonical() by {
            assert(hi[i] == big[i]);
        }
    }
    assert(integer_degrees(lo)) by {
        assert forall|i: int| 0 <= i < lo.len() implies (#[trigger] lo[i]).1.den == 1 by {
            assert(lo[i] == big[index + i]);
        }
    }
    let q = lower_degrees(hi, nr);
    lemma_lower_degrees_coeff(hi, nr, 0);
    assert forall|i: int| 0 <= i < index implies (#[trigger] q[i]).1.num >= 0 by {
        lemma_int_canonical(hi[i].1);
        lemma_int_ops(hi[i].1.num, nd);
        assert(hi[i] == big[i]);
    }
    assert(canonical_pairs(q)) by {
        assert forall|i: int| 0 <= i < q.len() implies (#[trigger] q[i]).0.canonical() && q[i].1.canonical() by {
            lemma_int_canonical(hi[i].1);
            lemma_int_ops(hi[i].1.num, nd);
            lemma_small_canonical(hi[i].1.num - nd);
        }
    }
    lemma_small_canonical(0);
    let f = |y: int| int_coeff(q, y - nd);
    let u = upper(s, top);
    assert forall|y: int| #[trigger] f(y) == u(y) by {
        lemma_lower_degrees_coeff(hi, nr, y - nd);
        lemma_coeff_subrange(big, 0, index, rat_int(y));
        if has_degree(big, rat_int(y)) {
            let i = choose|i: int| 0 <= i < big.len() && (#[trigger] big[i]).1 == rat_int(y);
            if y >= nd {
                assert(i < index);
            } else {
                assert forall|i2: int| 0 <= i2 < index implies (#[trigger] big[i2]).1 != rat_int(y) by {}
            }
        } else {
            lemma_coeff_of_absent(big, rat_int(y));
            assert(coeff_of(s, rat_int(y)) == rat_zero());
        }
        if top != nd - 1 && y > top {
            assert(int_coeff(s, y) == rat_zero());
        }
    }
    assert(f =~= u);
    assert forall|x: Rat| #[trigger] coeff_of(o, x) == rat_add(product_coeff(q, dv, x), coeff_of(lo, x)) by {
        if x.den != 1 {
            lemma_coeff_non_integer(o, x);
            lemma_coeff_non_integer(lo, x);
            lemma_product_non_integer(q, dv, x);
            lemma_add_laws(rat_zero(), rat_zero(), rat_zero());
        } else {
            let k = x.num;
            lemma_int_canonical(x);
            lemma_product_conv(q, dv, f, nd, k);
            lemma_coeff_subrange(big, index, big.len() as int, x);
            assert(coeff_of(lo, x) == lower(s, top, k)) by {
                if has_degree(big, x) {
                    let i = choose|i: int| 0 <= i < big.len() && (#[trigger] big[i]).1 == x;
                    if k < nd {
                        assert(i >= index);
                    } else {
                        assert forall|i2: int| index <= i2 < big.len() implies (#[trigger] big[i2]).1 != x by {}
                        if k <= top {
                            assert(top == d0);
                        }
                    }
                } else {
                    lemma_coeff_of_absent(big, x);
                    assert(coeff_of(s, x) == rat_zero());
                }
                if k > top && k < nd {
                    assert(top == d0);
                    assert(int_coeff(s, k) == rat_zero());
                }
            }
            assert(int_coeff(o, k) == rat_add(lower(s, top, k), conv(u, dv, nd, k)));
            assert forall|y: int| (#[trigger] u(y)).canonical() by {
                lemma_coeff_of_canonical(big, rat_int(y));
                assert(coeff_of(big, rat_int(y)) == coeff_of(s, rat_int(y)));
            }
            lemma_conv_canonical(u, dv, nd, k);
            lemma_coeff_of_canonical(big, x);
            lemma_add_laws(lower(s, top, k), conv(u, dv, nd, k), rat_zero());
        }
    }
}


/// Dividing zero: zero times the divisor plus zero is zero.
pub proof fn lemma_division_of_zero(o: Seq<(Rat, Rat)>, dv: Seq<(Rat, Rat)>, nd: int)
    requires
        o.len() == 0,
        canonical_pairs(dv),
        integer_degrees(dv),
    ensures
        integer_degrees(o),
        forall|x: Rat| #[trigger] coeff_of(o, x) == rat_add(product_coeff(o, dv, x), coeff_of(o, x)),
{
    lemma_small_canonical(0);
    lemma_add_laws(rat_zero(), rat_zero(), rat_zero());
    assert forall|x: Rat| #[trigger] coeff_of(o, x) == rat_add(product_coeff(o, dv, x), coeff_of(o, x)) by {
        lemma_coeff_of_absent(o, x);
        if x.den != 1 {
            lemma_product_non_integer(o, dv, x);
        } else {
            lemma_int_canonical(x);
            let f = |y: int| int_coeff(o, y - nd);
            assert forall|y: int| #[trigger] f(y) == rat_zero() by {
                lemma_coeff_of_absent(o, rat_int(y - nd));
            }
            lemma_product_conv(o, dv, f, nd, x.num);
            lemma_conv_zero(f, dv, nd, x.num);
        }
    }
}

/// Before the first step, the invariant holds at the dividend's degree, and
/// nothing lies above it.
pub proof fn lemma_division_start(o: Seq<(Rat, Rat)>, dv: Seq<(Rat, Rat)>, nd: int)
    requires
        o.len() > 0,
        sorted_degrees(o),
        canonical_pairs(o),
        integer_degrees(o),
        divisor_ok(dv, nd),
    ensures
        o[0].1.den == 1,
        forall|y: int| y > o[0].1.num ==> #[trigger] int_coeff(o, y) == rat_zero(),
        div_invariant(o, o, o[0].1.num, dv, nd),
{
    let d0 = o[0].1.num;
    lemma_small_canonical(0);
    assert forall|y: int| y > d0 implies #[trigger] int_coeff(o, y) == rat_zero() by {
        assert forall|i: int| 0 <= i < o.len() implies (#[trigger] o[i]).1 != rat_int(y) by {
            lemma_int_canonical(o[i].1);
            lemma_int_canonical(o[0].1);
            if i > 0 {
                assert(rat_lt(o[i].1, o[0].1));
                lemma_int_ops(o[i].1.num, d0);
            }
        }
        lemma_coeff_of_absent(o, rat_int(y));
    }
    let f = upper(o, d0);
    assert forall|y: int| #[trigger] f(y) == rat_zero() by {}
    assert forall|k: int| #[trigger] int_coeff(o, k) == rat_add(lower(o, d0, k), conv(f, dv, nd, k)) by {
        lemma_conv_zero(f, dv, nd, k);
        lemma_coeff_of_canonical(o, rat_int(k));
        lemma_add_laws(int_coeff(o, k), rat_zero(), rat_zero());
    }
}


/// `q` and `r` are a quotient and a remainder of `p` by `d`: every
/// coefficient of `p` is that of `q * d` plus that of `r`, and the degrees
/// of `r` are below the leading degree of `d`.
pub open spec fn is_division(
    p: Seq<(Rat, Rat)>,
    d: Seq<(Rat, Rat)>,
    q: Seq<(Rat, Rat)>,
    r: Seq<(Rat, Rat)>,
) -> bool {
    &&& forall|x: Rat| #[trigger] coeff_of(p, x) == rat_add(product_coeff(q, d, x), coeff_of(r, x))
    &&& forall|i: int| 0 <= i < r.len() ==> rat_lt(#[trigger] r[i].1, d[0].1)
}


/// `q` and `r` are the quotient and the remainder of `p` by `d`: cleaned
/// polynomials with integer degrees, those of `q` not negative, for which
/// the division law holds.
pub open spec fn is_euclid_division(
    p: Seq<(Rat, Rat)>,
    d: Seq<(Rat, Rat)>,
    q: Seq<(Rat, Rat)>,
    r: Seq<(Rat, Rat)>,
) -> bool {
    &&& is_division(p, d, q, r)
    &&& is_poly_value(q)
    &&& is_poly_value(r)
    &&& integer_degrees(q)
    &&& integer_degrees(r)
    &&& forall|i: int| 0 <= i < q.len() ==> (#[trigger] q[i]).1.num >= 0
}

/// The product coefficient depends only on the values of `f` that it uses.
pub proof fn lemma_conv_local(f1: spec_fn(int) -> Rat, f2: spec_fn(int) -> Rat, dv: Seq<(Rat, Rat)>, nd: int, k: int)
    requires
        forall|j: int| 0 <= j < dv.len() ==> f1(k - (#[trigger] dv[j]).1.num + nd) == f2(k - dv[j].1.num + nd),
    ensures
        conv(f1, dv, nd, k) == conv(f2, dv, nd, k),
    decreases dv.len(),
{
    if dv.len() > 0 {
        let t = dv.drop_last();
        assert forall|j: int| 0 <= j < t.len() implies f1(k - (#[trigger] t[j]).1.num + nd) == f2(k - t[j].1.num + nd) by {
            assert(t[j] == dv[j]);
        }
        lemma_conv_local(f1, f2, t, nd, k);
        assert(dv.last() == dv[dv.len() - 1]);
    }
}

/// Above the leading degree of a sorted sequence with integer degrees there
/// is no coefficient.
pub proof fn lemma_above_top(q: Seq<(Rat, Rat)>, z: int)
    requires
        sorted_degrees(q),
        integer_degrees(q),
        q.len() > 0,
        z > q[0].1.num,
    ensures
        int_coeff(q, z) == rat_zero(),
{
    assert forall|i: int| 0 <= i < q.len() implies (#[trigger] q[i]).1 != rat_int(z) by {
        if i > 0 {
            assert(rat_lt(q[i].1, q[0].1));
            lemma_int_canonical(q[i].1);
            lemma_int_canonical(q[0].1);
            lemma_int_ops(q[i].1.num, q[0].1.num);
        }
    }
    lemma_coeff_of_absent(q, rat_int(z));
}

/// A degree at which two sequences differ leads to the greatest such
/// degree, given a bound above which both vanish.
pub proof fn lemma_max_diff(q1: Seq<(Rat, Rat)>, q2: Seq<(Rat, Rat)>, y: int, top: int) -> (m: int)
    requires
        int_coeff(q1, y) != int_coeff(q2, y),
        forall|z: int| z > top ==> #[trigger] int_coeff(q1, z) == rat_zero() && int_coeff(q2, z) == rat_zero(),
    ensures
        m >= y,
        int_coeff(q1, m) != int_coeff(q2, m),
        forall|z: int| z > m ==> #[trigger] int_coeff(q1, z) == int_coeff(q2, z),
    decreases top - y,
{
    if y > top {
        assert(int_coeff(q1, y) == rat_zero());
    }
    if forall|z: int| z > y ==> #[trigger] int_coeff(q1, z) == int_coeff(q2, z) {
        y
    } else {
        let z = choose|z: int| z > y && #[trigger] int_coeff(q1, z) != int_coeff(q2, z);
        if z > top {
            assert(int_coeff(q1, z) == rat_zero());
        }
        lemma_max_diff(q1, q2, z, top)
    }
}

/// Polynomial division has one result: two quotients and remainders of the
/// same division are the same.
pub proof fn lemma_division_unique(
    p: Seq<(Rat, Rat)>,
    d: Seq<(Rat, Rat)>,
    nd: int,
    q1: Seq<(Rat, Rat)>,
    r1: Seq<(Rat, Rat)>,
    q2: Seq<(Rat, Rat)>,
    r2: Seq<(Rat, Rat)>,
)
    requires
        divisor_ok(d, nd),
        is_euclid_division(p, d, q1, r1),
        is_euclid_division(p, d, q2, r2),
    ensures
        q1 == q2,
        r1 == r2,
{
    lemma_small_canonical(0);
    lemma_int_canonical(d[0].1);
    let top: int = if q1.len() == 0 && q2.len() == 0 {
        0
    } else if q1.len() == 0 {
        q2[0].1.num
    } else if q2.len() == 0 {
        q1[0].1.num
    } else if q1[0].1.num > q2[0].1.num {
        q1[0].1.num
    } else {
        q2[0].1.num
    };
    assert forall|z: int| z > top implies #[trigger] int_coeff(q1, z) == rat_zero() && int_coeff(q2, z) == rat_zero() by {
        if q1.len() > 0 {
            lemma_above_top(q1, z);
        } else {
            lemma_coeff_of_absent(q1, rat_int(z));
        }
        if q2.len() > 0 {
            lemma_above_top(q2, z);
        } else {
            lemma_coeff_of_absent(q2, rat_int(z));
        }
    }
    assert forall|y: int| #[trigger] int_coeff(q1, y) == int_coeff(q2, y) by {
        if int_coeff(q1, y) != int_coeff(q2, y) {
            let m = lemma_max_diff(q1, q2, y, top);
            // the differing degree is a degree of one of them, so not negative
            assert(m >= 0) by {
                if !has_degree(q1, rat_int(m)) && !has_degree(q2, rat_int(m)) {
                    lemma_coeff_of_absent(q1, rat_int(m));
                    lemma_coeff_of_absent(q2, rat_int(m));
                } else if has_degree(q1, rat_int(m)) {
                    let i = choose|i: int| 0 <= i < q1.len() && (#[trigger] q1[i]).1 == rat_int(m);
                    assert(q1[i].1.num >= 0);
                } else {
                    let i = choose|i: int| 0 <= i < q2.len() && (#[trigger] q2[i]).1 == rat_int(m);
                    assert(q2[i].1.num >= 0);
                }
            }
            let k = m + nd;
            let x = rat_int(k);
            // no remainder reaches degree k
            assert forall|i: int| 0 <= i < r1.len() implies (#[trigger] r1[i]).1 != x by {
                assert(rat_lt(r1[i].1, d[0].1));
                lemma_int_canonical(r1[i].1);
                lemma_int_ops(r1[i].1.num, nd);
            }
            assert forall|i: int| 0 <= i < r2.len() implies (#[trigger] r2[i]).1 != x by {
                assert(rat_lt(r2[i].1, d[0].1));
                lemma_int_canonical(r2[i].1);
                lemma_int_ops(r2[i].1.num, nd);
            }
            lemma_coeff_of_absent(r1, x);
            lemma_coeff_of_absent(r2, x);
            let f1 = |w: int| int_coeff(q1, w - nd);
            let f2 = |w: int| int_coeff(q2, w - nd);
            lemma_product_conv(q1, d, f1, nd, k);
            lemma_product_conv(q2, d, f2, nd, k);
            assert forall|w: int| (#[trigger] f1(w)).canonical() && f2(w).canonical() by {
                lemma_coeff_of_canonical(q1, rat_int(w - nd));
                lemma_coeff_of_canonical(q2, rat_int(w - nd));
            }
            lemma_conv_canonical(f1, d, nd, k);
            lemma_conv_canonical(f2, d, nd, k);
            lemma_add_laws(conv(f1, d, nd, k), rat_zero(), rat_zero());
            lemma_add_laws(conv(f2, d, nd, k), rat_zero(), rat_zero());
            assert(conv(f1, d, nd, k) == conv(f2, d, nd, k)) by {
                assert(coeff_of(p, x) == rat_add(product_coeff(q1, d, x), coeff_of(r1, x)));
                assert(coeff_of(p, x) == rat_add(product_coeff(q2, d, x), coeff_of(r2, x)));
            }
            let y0 = k;
            let g = |w: int|
                if w == y0 {
                    f1(y0)
                } else {
                    f2(w)
                };
            let h = |w: int|
                if w == y0 {
                    rat_zero()
                } else {
                    f2(w)
                };
            lemma_divisor_degrees(d, nd);
            assert forall|j: int| 0 <= j < d.len() implies g(k - (#[trigger] d[j]).1.num + nd) == f1(k - d[j].1.num + nd) by {
                let w = k - d[j].1.num + nd;
                if w != y0 {
                    assert(j > 0);
                    assert(int_coeff(q1, w - nd) == int_coeff(q2, w - nd));
                }
            }
            lemma_conv_local(g, f1, d, nd, k);
            assert forall|w: int| (#[trigger] h(w)).canonical() by {}
            lemma_conv_point(h, g, d, nd, k, y0, f1(y0));
            lemma_conv_point(h, f2, d, nd, k, y0, f2(y0));
            lemma_find_degree(d, nd);
            assert(find_degree(d, k + nd - y0) == 0) by {
                assert(d[0].1.num == nd);
            }
            lemma_conv_canonical(h, d, nd, k);
            lemma_ops_canonical(f1(y0), d[0].0);
            lemma_ops_canonical(f2(y0), d[0].0);
            crate::rational::lemma_add_cancel(conv(h, d, nd, k), rat_mul(f1(y0), d[0].0), rat_mul(f2(y0), d[0].0));
            crate::rational::lemma_mul_cancel(f1(y0), f2(y0), d[0].0);
            assert(f1(y0) == int_coeff(q1, m));
        }
    }
    assert forall|x: Rat| #[trigger] coeff_of(q1, x) == coeff_of(q2, x) by {
        if x.den != 1 {
            lemma_coeff_non_integer(q1, x);
            lemma_coeff_non_integer(q2, x);
        } else {
            lemma_int_canonical(x);
            assert(int_coeff(q1, x.num) == int_coeff(q2, x.num));
        }
    }
    lemma_poly_unique(q1, q2);
    assert forall|x: Rat| #[trigger] coeff_of(r1, x) == coeff_of(r2, x) by {
        let pr = product_coeff(q1, d, x);
        assert(coeff_of(p, x) == rat_add(pr, coeff_of(r1, x)));
        assert(coeff_of(p, x) == rat_add(pr, coeff_of(r2, x)));
        if x.den != 1 {
            lemma_product_non_integer(q1, d, x);
        } else {
            lemma_int_canonical(x);
            let f1 = |w: int| int_coeff(q1, w - nd);
            lemma_product_conv(q1, d, f1, nd, x.num);
            assert forall|w: int| (#[trigger] f1(w)).canonical() by {
                lemma_coeff_of_canonical(q1, rat_int(w - nd));
            }
            lemma_conv_canonical(f1, d, nd, x.num);
        }
        lemma_coeff_of_canonical(r1, x);
        lemma_coeff_of_canonical(r2, x);
        crate::rational::lemma_add_cancel(pr, coeff_of(r1, x), coeff_of(r2, x));
    }
    lemma_poly_unique(r1, r2);
}


/// The quotient and the remainder of `p` by `d`.
pub open spec fn division_of(p: Seq<(Rat, Rat)>, d: Seq<(Rat, Rat)>) -> (Seq<(Rat, Rat)>, Seq<(Rat, Rat)>) {
    choose|qr: (Seq<(Rat, Rat)>, Seq<(Rat, Rat)>)| is_euclid_division(p, d, qr.0, qr.1)
}

/// A quotient and remainder are the ones `division_of` names.
pub proof fn lemma_division_of(p: Seq<(Rat, Rat)>, d: Seq<(Rat, Rat)>, nd: int, q: Seq<(Rat, Rat)>, r: Seq<(Rat, Rat)>)
    requires
        divisor_ok(d, nd),
        is_euclid_division(p, d, q, r),
    ensures
        division_of(p, d) == (q, r),
{
    let w = (q, r);
    assert(is_euclid_division(p, d, w.0, w.1));
    let qr = division_of(p, d);
    assert(is_euclid_division(p, d, qr.0, qr.1));
    lemma_division_unique(p, d, nd, q, r, qr.0, qr.1);
}


/// A sequence without zero coefficients whose coefficients vanish at every
/// degree that is not an integer has integer degrees.
pub proof fn lemma_integer_degrees(s: Seq<(Rat, Rat)>)
    requires
        sorted_degrees(s),
        nonzero_coeffs(s),
        forall|x: Rat| x.den != 1 ==> #[trigger] coeff_of(s, x) == rat_zero(),
    ensures
        integer_degrees(s),
{
    assert forall|i: int| 0 <= i < s.len() implies (#[trigger] s[i]).1.den == 1 by {
        lemma_coeff_of_at(s, i);
    }
}

} // verus!
