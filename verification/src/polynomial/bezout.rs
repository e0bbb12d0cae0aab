//! What the extended Euclidean algorithm keeps: each remainder is its
//! coefficient times the first polynomial plus a multiple of the second.
use crate::polynomial::division::{
    conv, divisor_ok, int_coeff, integer_degrees, is_euclid_division, lemma_conv_canonical,
    lemma_conv_local, lemma_conv_zero, lemma_division_unique, lemma_int_canonical,
    lemma_product_conv, lemma_product_non_integer,
};
use crate::polynomial::product::{
    canonical_fn, int_poly, lemma_coeffs_canonical, lemma_conv_add, lemma_conv_div, lemma_conv_swap,
    lemma_conv_unit, lemma_product_comm, unit,
};
use crate::polynomial::{
    canonical_pairs, coeff_of, has_degree, is_poly_value, lemma_cleaned, lemma_coeff_of_absent,
    lemma_coeff_of_at, lemma_coeff_of_canonical, poly_add, poly_mul, product_coeff, scale_div,
    sorted_degrees,
};
use crate::rational::{
    lemma_add_laws, lemma_add_zero, lemma_div_laws, lemma_int_ops, lemma_ops_canonical,
    lemma_regroup, lemma_small_canonical, rat_add, rat_div, rat_int, rat_lt, rat_one, rat_sub,
    rat_zero, Rat,
};
use vstd::prelude::*;

verus! {

/// The integer coefficients of `v` are those of `s * a` plus those of the
/// product of `b` with the coefficients `k`.
pub open spec fn bezout_rel(
    v: Seq<(Rat, Rat)>,
    s: Seq<(Rat, Rat)>,
    k: spec_fn(int) -> Rat,
    a: Seq<(Rat, Rat)>,
    b: Seq<(Rat, Rat)>,
) -> bool {
    forall|y: int| #[trigger] int_coeff(v, y) == rat_add(conv(|z: int| int_coeff(s, z), a, 0, y), conv(k, b, 0, y))
}

/// `k` is zero outside the degrees `0 ..= top`.
pub open spec fn bounded(k: spec_fn(int) -> Rat, top: int) -> bool {
    forall|y: int| (y < 0 || y > top) ==> #[trigger] k(y) == rat_zero()
}

/// The coefficients of the quotient of the next step.
pub open spec fn next_coeffs(ko: spec_fn(int) -> Rat, kr: spec_fn(int) -> Rat, q: Seq<(Rat, Rat)>) -> spec_fn(int) -> Rat {
    |y: int| rat_sub(ko(y), conv(kr, q, 0, y))
}

/// The integer coefficients of a product, as the product of coefficient
/// functions.
pub proof fn lemma_product_at(p: Seq<(Rat, Rat)>, q: Seq<(Rat, Rat)>, y: int)
    requires
        int_poly(p),
        int_poly(q),
    ensures
        product_coeff(p, q, rat_int(y)) == conv(|z: int| int_coeff(p, z), q, 0, y),
        conv(|z: int| int_coeff(p, z), q, 0, y).canonical(),
{
    let cp = |z: int| int_coeff(p, z);
    assert forall|z: int| #[trigger] cp(z) == int_coeff(p, z - 0) by {}
    lemma_product_conv(p, q, cp, 0, y);
    lemma_coeffs_canonical(p);
    assert forall|z: int| (#[trigger] cp(z)).canonical() by {
        assert(cp(z) == int_coeff(p, z));
    }
    lemma_conv_canonical(cp, q, 0, y);
}

/// At the start, the first polynomial is one times itself and the second
/// is one times itself.
pub proof fn lemma_bezout_start(a: Seq<(Rat, Rat)>, b: Seq<(Rat, Rat)>)
    requires
        int_poly(a),
        int_poly(b),
    ensures
        bezout_rel(a, seq![(rat_one(), rat_zero())], |y: int| rat_zero(), a, b),
        bezout_rel(b, Seq::empty(), unit(), a, b),
{
    let one = seq![(rat_one(), rat_zero())];
    let e = Seq::<(Rat, Rat)>::empty();
    let zf = |y: int| rat_zero();
    lemma_small_canonical(0);
    lemma_small_canonical(1);
    assert forall|y: int| #[trigger] int_coeff(a, y) == rat_add(conv(|z: int| int_coeff(one, z), a, 0, y), conv(zf, b, 0, y)) by {
        assert forall|z: int| #[trigger] zf(z) == rat_zero() by {}
        lemma_conv_zero(zf, b, 0, y);
        let c1 = |z: int| int_coeff(one, z);
        assert forall|z: int| #[trigger] c1(z) == unit()(z) by {
            lemma_int_ops(z, 0);
            if z == 0 {
                assert(one[0].1 == rat_int(z));
                lemma_coeff_of_at(one, 0);
            } else {
                assert(one[0].1 != rat_int(z)) by {
                    if rat_int(z) == rat_int(0) {
                        assert(rat_int(z).num == z);
                    }
                }
                lemma_coeff_of_absent(one, rat_int(z));
            }
        }
        lemma_conv_local(c1, unit(), a, 0, y);
        lemma_conv_unit(a, y);
        lemma_coeff_of_canonical(a, rat_int(y));
        lemma_add_zero(int_coeff(a, y));
    }
    assert forall|y: int| #[trigger] int_coeff(b, y) == rat_add(conv(|z: int| int_coeff(e, z), a, 0, y), conv(unit(), b, 0, y)) by {
        let c0 = |z: int| int_coeff(e, z);
        assert forall|z: int| #[trigger] c0(z) == rat_zero() by {
            lemma_coeff_of_absent(e, rat_int(z));
        }
        lemma_conv_zero(c0, a, 0, y);
        lemma_conv_unit(b, y);
        lemma_coeff_of_canonical(b, rat_int(y));
        lemma_add_zero(int_coeff(b, y));
    }
}

/// One division step keeps the relation: if `a0` and `b0` are related with
/// `(s0, ko)` and `(s1, kr)`, and `a0 = q b0 + rem`, then `rem` is related
/// with `s0 - q s1` and `ko - q kr`.
pub proof fn lemma_bezout_step(
    a: Seq<(Rat, Rat)>,
    b: Seq<(Rat, Rat)>,
    a0: Seq<(Rat, Rat)>,
    b0: Seq<(Rat, Rat)>,
    q: Seq<(Rat, Rat)>,
    rem: Seq<(Rat, Rat)>,
    s0: Seq<(Rat, Rat)>,
    s1: Seq<(Rat, Rat)>,
    qs: Seq<(Rat, Rat)>,
    ns: Seq<(Rat, Rat)>,
    ko: spec_fn(int) -> Rat,
    kr: spec_fn(int) -> Rat,
)
    requires
        int_poly(a),
        int_poly(b),
        int_poly(a0),
        int_poly(b0),
        int_poly(q),
        int_poly(rem),
        int_poly(s0),
        int_poly(s1),
        int_poly(qs),
        int_poly(ns),
        canonical_fn(ko),
        canonical_fn(kr),
        bezout_rel(a0, s0, ko, a, b),
        bezout_rel(b0, s1, kr, a, b),
        forall|x: Rat| #[trigger] coeff_of(a0, x) == rat_add(product_coeff(q, b0, x), coeff_of(rem, x)),
        forall|x: Rat| #[trigger] coeff_of(qs, x) == product_coeff(q, s1, x),
        forall|x: Rat| #[trigger] coeff_of(ns, x) == rat_sub(coeff_of(s0, x), coeff_of(qs, x)),
    ensures
        bezout_rel(rem, ns, next_coeffs(ko, kr, q), a, b),
        canonical_fn(next_coeffs(ko, kr, q)),
{
    let cs0 = |z: int| int_coeff(s0, z);
    let cs1 = |z: int| int_coeff(s1, z);
    let cqs = |z: int| int_coeff(qs, z);
    let cns = |z: int| int_coeff(ns, z);
    let cb0 = |z: int| int_coeff(b0, z);
    let qk = |z: int| conv(kr, q, 0, z);
    let nk = next_coeffs(ko, kr, q);
    lemma_coeffs_canonical(s0);
    lemma_coeffs_canonical(s1);
    lemma_coeffs_canonical(qs);
    lemma_coeffs_canonical(b0);
    assert forall|z: int| (#[trigger] cs0(z)).canonical() by {
        assert(cs0(z) == int_coeff(s0, z));
    }
    assert forall|z: int| (#[trigger] cs1(z)).canonical() by {
        assert(cs1(z) == int_coeff(s1, z));
    }
    assert forall|z: int| (#[trigger] cqs(z)).canonical() by {
        assert(cqs(z) == int_coeff(qs, z));
    }
    assert forall|z: int| (#[trigger] qk(z)).canonical() by {
        lemma_conv_canonical(kr, q, 0, z);
    }
    assert forall|z: int| (#[trigger] nk(z)).canonical() by {
        lemma_conv_canonical(kr, q, 0, z);
        lemma_ops_canonical(ko(z), qk(z));
    }
    let sa = |z: int| conv(cs1, a, 0, z);
    let kb = |z: int| conv(kr, b, 0, z);
    let s1q = |z: int| conv(cs1, q, 0, z);
    assert forall|z: int| (#[trigger] sa(z)).canonical() by {
        lemma_conv_canonical(cs1, a, 0, z);
    }
    assert forall|z: int| (#[trigger] kb(z)).canonical() by {
        lemma_conv_canonical(kr, b, 0, z);
    }
    assert forall|z: int| #[trigger] cb0(z) == rat_add(sa(z), kb(z)) by {
        assert(cb0(z) == int_coeff(b0, z));
    }
    assert forall|z: int| #[trigger] s1q(z) == cqs(z) by {
        lemma_product_at(s1, q, z);
        lemma_product_comm(s1, q, rat_int(z));
        assert(coeff_of(qs, rat_int(z)) == product_coeff(q, s1, rat_int(z)));
    }
    assert forall|z: int| #[trigger] cns(z) == rat_sub(cs0(z), cqs(z)) by {
        assert(coeff_of(ns, rat_int(z)) == rat_sub(coeff_of(s0, rat_int(z)), coeff_of(qs, rat_int(z))));
    }
    assert forall|z: int| #[trigger] nk(z) == rat_sub(ko(z), qk(z)) by {}
    assert forall|y: int| #[trigger] int_coeff(rem, y) == rat_add(conv(cns, a, 0, y), conv(nk, b, 0, y)) by {
        let x = rat_int(y);
        lemma_product_at(q, b0, y);
        let p = product_coeff(q, b0, x);
        lemma_coeff_of_canonical(rem, x);
        assert(coeff_of(a0, x) == rat_add(p, coeff_of(rem, x)));
        lemma_regroup(p, int_coeff(rem, y), p, p);
        assert(int_coeff(rem, y) == rat_sub(int_coeff(a0, y), p));
        lemma_product_comm(q, b0, x);
        lemma_product_at(b0, q, y);
        assert(p == conv(cb0, q, 0, y));
        lemma_conv_add(sa, kb, cb0, q, 0, y, false);
        lemma_conv_swap(cs1, a, q, y);
        lemma_conv_local(s1q, cqs, a, 0, y);
        assert(conv(sa, q, 0, y) == conv(cqs, a, 0, y));
        lemma_conv_swap(kr, b, q, y);
        assert(conv(kb, q, 0, y) == conv(qk, b, 0, y));
        lemma_conv_add(cs0, cqs, cns, a, 0, y, true);
        lemma_conv_add(ko, qk, nk, b, 0, y, true);
        let va = conv(cs0, a, 0, y);
        let vb = conv(ko, b, 0, y);
        let vc = conv(cqs, a, 0, y);
        let vd = conv(qk, b, 0, y);
        assert(int_coeff(a0, y) == rat_add(va, vb));
        lemma_conv_canonical(cs0, a, 0, y);
        lemma_conv_canonical(ko, b, 0, y);
        lemma_conv_canonical(cqs, a, 0, y);
        lemma_conv_canonical(qk, b, 0, y);
        lemma_regroup(va, vb, vc, vd);
    }
}

/// The coefficients of `next_coeffs` stay zero outside `0 ..= top + dq`
/// when `q` has degrees in `0 ..= dq`.
pub proof fn lemma_bounded_step(ko: spec_fn(int) -> Rat, kr: spec_fn(int) -> Rat, q: Seq<(Rat, Rat)>, top: int, dq: int)
    requires
        bounded(ko, top),
        bounded(kr, top),
        dq >= 0,
        forall|i: int| 0 <= i < q.len() ==> 0 <= (#[trigger] q[i]).1.num <= dq,
        crate::polynomial::canonical_pairs(q),
    ensures
        bounded(next_coeffs(ko, kr, q), top + dq),
        bounded(kr, top + dq),
{
    let zf = |z: int| rat_zero();
    lemma_small_canonical(0);
    lemma_add_zero(rat_zero());
    assert forall|y: int| (y < 0 || y > top + dq) implies #[trigger] next_coeffs(ko, kr, q)(y) == rat_zero() by {
        assert forall|j: int| 0 <= j < q.len() implies kr(y - (#[trigger] q[j]).1.num + 0) == zf(y - q[j].1.num + 0) by {}
        lemma_conv_local(kr, zf, q, 0, y);
        assert forall|z: int| #[trigger] zf(z) == rat_zero() by {}
        lemma_conv_zero(zf, q, 0, y);
    }
}

/// The coefficient of `p` divided by `c` is that of `p`, divided by `c`.
pub proof fn lemma_coeff_scale_div(p: Seq<(Rat, Rat)>, c: Rat, x: Rat)
    requires
        sorted_degrees(p),
        crate::polynomial::canonical_pairs(p),
        c.canonical(),
        c.num != 0,
    ensures
        coeff_of(scale_div(p, c), x) == rat_div(coeff_of(p, x), c),
{
    let t = scale_div(p, c);
    assert(sorted_degrees(t)) by {
        assert forall|i: int, j: int| #![trigger t[i], t[j]] 0 <= i < j < t.len() implies rat_lt(t[j].1, t[i].1) by {
            assert(p[i].1 == t[i].1 && p[j].1 == t[j].1);
        }
    }
    lemma_small_canonical(0);
    lemma_div_laws(rat_zero(), rat_zero(), c);
    if has_degree(p, x) {
        let i = choose|i: int| 0 <= i < p.len() && (#[trigger] p[i]).1 == x;
        assert(t[i].1 == x);
        lemma_coeff_of_at(p, i);
        lemma_coeff_of_at(t, i);
    } else {
        assert forall|i: int| 0 <= i < t.len() implies (#[trigger] t[i]).1 != x by {
            assert(p[i].1 == t[i].1);
        }
        lemma_coeff_of_absent(t, x);
    }
}

/// Dividing by the leading coefficient keeps the relation, with `s` and
/// `k` divided too.
pub proof fn lemma_bezout_scale(
    g: Seq<(Rat, Rat)>,
    s: Seq<(Rat, Rat)>,
    k: spec_fn(int) -> Rat,
    a: Seq<(Rat, Rat)>,
    b: Seq<(Rat, Rat)>,
    c: Rat,
    top: int,
)
    requires
        int_poly(g),
        int_poly(s),
        int_poly(a),
        int_poly(b),
        canonical_fn(k),
        bounded(k, top),
        c.canonical(),
        c.num != 0,
        bezout_rel(g, s, k, a, b),
    ensures
        bezout_rel(scale_div(g, c), scale_div(s, c), |y: int| rat_div(k(y), c), a, b),
        canonical_fn(|y: int| rat_div(k(y), c)),
        bounded(|y: int| rat_div(k(y), c), top),
{
    let kc = |y: int| rat_div(k(y), c);
    let cs = |z: int| int_coeff(s, z);
    let cs2 = |z: int| int_coeff(scale_div(s, c), z);
    lemma_small_canonical(0);
    lemma_div_laws(rat_zero(), rat_zero(), c);
    assert forall|y: int| (#[trigger] kc(y)).canonical() by {
        lemma_ops_canonical(k(y), c);
    }
    lemma_coeffs_canonical(s);
    lemma_coeffs_canonical(g);
    assert forall|z: int| (#[trigger] cs(z)).canonical() by {
        assert(cs(z) == int_coeff(s, z));
    }
    assert forall|z: int| #[trigger] cs2(z) == rat_div(cs(z), c) by {
        lemma_coeff_scale_div(s, c, rat_int(z));
    }
    assert forall|y: int| #[trigger] int_coeff(scale_div(g, c), y) == rat_add(conv(cs2, a, 0, y), conv(kc, b, 0, y)) by {
        lemma_coeff_scale_div(g, c, rat_int(y));
        assert(int_coeff(scale_div(g, c), y) == rat_div(int_coeff(g, y), c));
        assert(int_coeff(g, y) == rat_add(conv(cs, a, 0, y), conv(k, b, 0, y)));
        assert forall|z: int| #[trigger] kc(z) == rat_div(k(z), c) by {}
        lemma_conv_div(cs, cs2, c, a, 0, y);
        lemma_conv_div(k, kc, c, b, 0, y);
        lemma_conv_canonical(cs, a, 0, y);
        lemma_conv_canonical(k, b, 0, y);
        lemma_div_laws(conv(cs, a, 0, y), conv(k, b, 0, y), c);
    }
}

/// A function that is zero outside `0 ..= top`, as a sequence of pairs:
/// the degrees `top` down to zero.
pub open spec fn dense(k: spec_fn(int) -> Rat, top: int) -> Seq<(Rat, Rat)> {
    Seq::new((top + 1) as nat, |i: int| (k(top - i), rat_int(top - i)))
}

/// `dense(k, top)` is sorted, with the coefficients of `k`.
pub proof fn lemma_dense(k: spec_fn(int) -> Rat, top: int)
    requires
        canonical_fn(k),
        bounded(k, top),
        top >= 0,
    ensures
        int_poly(dense(k, top)),
        forall|y: int| #[trigger] int_coeff(dense(k, top), y) == k(y),
        forall|i: int| 0 <= i < dense(k, top).len() ==> 0 <= (#[trigger] dense(k, top)[i]).1.num,
{
    let d = dense(k, top);
    assert forall|i: int, j: int| #![trigger d[i], d[j]] 0 <= i < j < d.len() implies rat_lt(d[j].1, d[i].1) by {
        lemma_int_ops(top - j, top - i);
    }
    assert forall|i: int| 0 <= i < d.len() implies (#[trigger] d[i]).0.canonical() && d[i].1.canonical() by {
        lemma_small_canonical(top - i);
    }
    lemma_small_canonical(0);
    assert forall|y: int| #[trigger] int_coeff(d, y) == k(y) by {
        if 0 <= y <= top {
            lemma_coeff_of_at(d, top - y);
        } else {
            assert forall|i: int| 0 <= i < d.len() implies (#[trigger] d[i]).1 != rat_int(y) by {}
            lemma_coeff_of_absent(d, rat_int(y));
        }
    }
}

/// When `g` is related with `s` and `k`, and `y` has the coefficients of
/// `g - a s`, the quotient `t` of `y` by `b` has the coefficients `k`: `g`
/// is `s a + t b`.
pub proof fn lemma_bezout_final(
    a: Seq<(Rat, Rat)>,
    b: Seq<(Rat, Rat)>,
    nd: int,
    g: Seq<(Rat, Rat)>,
    s: Seq<(Rat, Rat)>,
    k: spec_fn(int) -> Rat,
    top: int,
    yv: Seq<(Rat, Rat)>,
    t: Seq<(Rat, Rat)>,
    rem: Seq<(Rat, Rat)>,
)
    requires
        int_poly(a),
        int_poly(b),
        int_poly(g),
        int_poly(s),
        divisor_ok(b, nd),
        canonical_fn(k),
        bounded(k, top),
        top >= 0,
        bezout_rel(g, s, k, a, b),
        forall|x: Rat| #[trigger] coeff_of(yv, x) == rat_sub(coeff_of(g, x), product_coeff(a, s, x)),
        is_euclid_division(yv, b, t, rem),
    ensures
        forall|x: Rat| #[trigger] coeff_of(g, x) == rat_add(product_coeff(s, a, x), product_coeff(t, b, x)),
{
    let d = dense(k, top);
    lemma_dense(k, top);
    let kk = lemma_cleaned(d);
    let e = Seq::<(Rat, Rat)>::empty();
    lemma_small_canonical(0);
    lemma_add_zero(rat_zero());
    assert(integer_degrees(kk) && forall|j: int| 0 <= j < kk.len() ==> (#[trigger] kk[j]).1.num >= 0) by {
        assert forall|j: int| 0 <= j < kk.len() implies (#[trigger] kk[j]).1.den == 1 && kk[j].1.num >= 0 by {
            assert(has_degree(d, kk[j].1));
            let i = choose|i: int| 0 <= i < d.len() && (#[trigger] d[i]).1 == kk[j].1;
        }
    }
    let ck = |z: int| int_coeff(kk, z);
    assert forall|z: int| #[trigger] ck(z) == k(z) by {
        assert(int_coeff(d, z) == k(z));
    }
    assert forall|x: Rat| #[trigger] coeff_of(yv, x) == rat_add(product_coeff(kk, b, x), coeff_of(e, x)) by {
        lemma_coeff_of_absent(e, x);
        if x.den != 1 {
            lemma_product_non_integer(a, s, x);
            lemma_product_non_integer(kk, b, x);
            crate::polynomial::division::lemma_coeff_non_integer(g, x);
        } else {
            lemma_int_canonical(x);
            let y = x.num;
            let cs = |z: int| int_coeff(s, z);
            assert(coeff_of(g, x) == int_coeff(g, y));
            assert(int_coeff(g, y) == rat_add(conv(cs, a, 0, y), conv(k, b, 0, y)));
            lemma_product_at(s, a, y);
            lemma_product_comm(a, s, x);
            assert(product_coeff(a, s, x) == conv(cs, a, 0, y));
            lemma_product_at(kk, b, y);
            lemma_conv_local(ck, k, b, 0, y);
            assert(product_coeff(kk, b, x) == conv(k, b, 0, y));
            lemma_conv_canonical(k, b, 0, y);
            lemma_regroup(conv(cs, a, 0, y), conv(k, b, 0, y), conv(k, b, 0, y), conv(k, b, 0, y));
            lemma_add_zero(conv(k, b, 0, y));
            assert(coeff_of(yv, x) == conv(k, b, 0, y));
        }
    }
    assert(is_euclid_division(yv, b, kk, e));
    lemma_division_unique(yv, b, nd, kk, e, t, rem);
    assert forall|x: Rat| #[trigger] coeff_of(g, x) == rat_add(product_coeff(s, a, x), product_coeff(t, b, x)) by {
        if x.den != 1 {
            lemma_product_non_integer(s, a, x);
            lemma_product_non_integer(t, b, x);
            crate::polynomial::division::lemma_coeff_non_integer(g, x);
        } else {
            lemma_int_canonical(x);
            let y = x.num;
            assert(coeff_of(g, x) == int_coeff(g, y));
            assert(int_coeff(g, y) == rat_add(conv(|z: int| int_coeff(s, z), a, 0, y), conv(k, b, 0, y)));
            lemma_product_at(s, a, y);
            lemma_product_at(kk, b, y);
            lemma_conv_local(ck, k, b, 0, y);
        }
    }
}

/// With no second polynomial, `g` is `s a`.
pub proof fn lemma_bezout_alone(
    a: Seq<(Rat, Rat)>,
    b: Seq<(Rat, Rat)>,
    g: Seq<(Rat, Rat)>,
    s: Seq<(Rat, Rat)>,
    k: spec_fn(int) -> Rat,
)
    requires
        int_poly(a),
        int_poly(g),
        int_poly(s),
        b.len() == 0,
        bezout_rel(g, s, k, a, b),
    ensures
        forall|x: Rat| #[trigger] coeff_of(g, x) == rat_add(product_coeff(s, a, x), product_coeff(Seq::empty(), b, x)),
{
    lemma_small_canonical(0);
    lemma_add_zero(rat_zero());
    assert forall|x: Rat| #[trigger] coeff_of(g, x) == rat_add(product_coeff(s, a, x), product_coeff(Seq::empty(), b, x)) by {
        if x.den != 1 {
            lemma_product_non_integer(s, a, x);
            crate::polynomial::division::lemma_coeff_non_integer(g, x);
        } else {
            lemma_int_canonical(x);
            let y = x.num;
            assert(coeff_of(g, x) == int_coeff(g, y));
            lemma_product_at(s, a, y);
            lemma_add_zero(product_coeff(s, a, x));
            assert(int_coeff(g, y) == rat_add(conv(|z: int| int_coeff(s, z), a, 0, y), conv(k, b, 0, y)));
        }
    }
}

/// The Bézout identity as an equality of polynomials: a cleaned `g` whose
/// coefficients are those of `s a + t b` is `s a + t b`.
pub proof fn lemma_bezout_poly(
    a: Seq<(Rat, Rat)>,
    b: Seq<(Rat, Rat)>,
    s: Seq<(Rat, Rat)>,
    t: Seq<(Rat, Rat)>,
    g: Seq<(Rat, Rat)>,
)
    requires
        is_poly_value(g),
        sorted_degrees(s),
        canonical_pairs(s),
        sorted_degrees(t),
        canonical_pairs(t),
        crate::polynomial::canonical_pairs(a),
        crate::polynomial::canonical_pairs(b),
        forall|x: Rat| #[trigger] coeff_of(g, x) == rat_add(product_coeff(s, a, x), product_coeff(t, b, x)),
    ensures
        g == poly_add(poly_mul(s, a), poly_mul(t, b)),
{
    crate::polynomial::lemma_poly_mul_exists(s, a);
    crate::polynomial::lemma_poly_mul_exists(t, b);
    let sa = poly_mul(s, a);
    let tb = poly_mul(t, b);
    crate::polynomial::lemma_poly_add_exists(sa, tb);
    let u = poly_add(sa, tb);
    assert forall|x: Rat| #[trigger] coeff_of(u, x) == coeff_of(g, x) by {
        assert(coeff_of(sa, x) == product_coeff(s, a, x));
        assert(coeff_of(tb, x) == product_coeff(t, b, x));
    }
    crate::polynomial::lemma_poly_unique(u, g);
}

} // verus!
