//! Common divisors: what Euclid's algorithm keeps from one division to the
//! next.
use crate::polynomial::bezout::{bounded, dense, lemma_dense, lemma_product_at};
use crate::polynomial::division::{
    conv, int_coeff, integer_degrees, lemma_coeff_non_integer, lemma_conv_canonical, lemma_conv_local,
    lemma_conv_zero, lemma_int_canonical, lemma_product_non_integer,
};
use crate::polynomial::product::{
    canonical_fn, int_poly, lemma_coeffs_canonical, lemma_conv_add, lemma_conv_div, lemma_conv_swap,
    lemma_conv_unit, lemma_product_comm, unit,
};
use crate::polynomial::{
    canonical_pairs, coeff_of, has_degree, is_poly_value, lemma_cleaned, lemma_coeff_of_absent,
    lemma_coeff_of_canonical, product_coeff, scale_div, sorted_degrees,
};
use crate::rational::{
    lemma_add_zero, lemma_div_laws, lemma_int_ops, lemma_mul_laws, lemma_ops_canonical,
    lemma_regroup, lemma_small_canonical, lemma_sub_div_laws, rat_add, rat_div, rat_int, rat_lt,
    rat_mul, rat_sub, rat_zero, Rat,
};
use vstd::prelude::*;

verus! {

/// `d` divides `p`: `p` is `d` times a polynomial `u` with integer degrees
/// that are not negative.
pub open spec fn divides(d: Seq<(Rat, Rat)>, p: Seq<(Rat, Rat)>) -> bool {
    exists|u: Seq<(Rat, Rat)>|
        is_poly_value(u) && integer_degrees(u) && (forall|i: int| 0 <= i < u.len() ==> (#[trigger] u[i]).1.num
            >= 0) && forall|x: Rat| #[trigger] coeff_of(p, x) == product_coeff(u, d, x)
}

/// `p` is `d` times the coefficients `u`, zero outside `0 ..= top`.
pub open spec fn divides_by(d: Seq<(Rat, Rat)>, p: Seq<(Rat, Rat)>, u: spec_fn(int) -> Rat, top: int) -> bool {
    &&& canonical_fn(u)
    &&& top >= 0
    &&& bounded(u, top)
    &&& forall|y: int| #[trigger] int_coeff(p, y) == conv(u, d, 0, y)
}

/// Coefficients that divide give a polynomial that divides.
pub proof fn lemma_divides_of(d: Seq<(Rat, Rat)>, p: Seq<(Rat, Rat)>, u: spec_fn(int) -> Rat, top: int)
    requires
        int_poly(d),
        integer_degrees(p),
        divides_by(d, p, u, top),
    ensures
        divides(d, p),
{
    let dn = dense(u, top);
    lemma_dense(u, top);
    let w = lemma_cleaned(dn);
    lemma_small_canonical(0);
    assert(integer_degrees(w) && forall|j: int| 0 <= j < w.len() ==> (#[trigger] w[j]).1.num >= 0) by {
        assert forall|j: int| 0 <= j < w.len() implies (#[trigger] w[j]).1.den == 1 && w[j].1.num >= 0 by {
            assert(has_degree(dn, w[j].1));
            let i = choose|i: int| 0 <= i < dn.len() && (#[trigger] dn[i]).1 == w[j].1;
        }
    }
    let cw = |z: int| int_coeff(w, z);
    assert forall|z: int| #[trigger] cw(z) == u(z) by {
        assert(int_coeff(dn, z) == u(z));
    }
    assert forall|x: Rat| #[trigger] coeff_of(p, x) == product_coeff(w, d, x) by {
        if x.den != 1 {
            lemma_coeff_non_integer(p, x);
            lemma_product_non_integer(w, d, x);
        } else {
            lemma_int_canonical(x);
            let y = x.num;
            assert(coeff_of(p, x) == int_coeff(p, y));
            lemma_product_at(w, d, y);
            lemma_conv_local(cw, u, d, 0, y);
        }
    }
}

/// A polynomial that divides gives coefficients that divide.
pub proof fn lemma_divides_to(d: Seq<(Rat, Rat)>, p: Seq<(Rat, Rat)>) -> (r: (spec_fn(int) -> Rat, int))
    requires
        int_poly(d),
        divides(d, p),
    ensures
        divides_by(d, p, r.0, r.1),
{
    let w = choose|u: Seq<(Rat, Rat)>|
        is_poly_value(u) && integer_degrees(u) && (forall|i: int| 0 <= i < u.len() ==> (#[trigger] u[i]).1.num
            >= 0) && forall|x: Rat| #[trigger] coeff_of(p, x) == product_coeff(u, d, x);
    let top: int = if w.len() > 0 {
        w[0].1.num
    } else {
        0
    };
    let cw = |z: int| int_coeff(w, z);
    lemma_small_canonical(0);
    lemma_coeffs_canonical(w);
    assert forall|z: int| (#[trigger] cw(z)).canonical() by {
        assert(cw(z) == int_coeff(w, z));
    }
    assert forall|z: int| (z < 0 || z > top) implies #[trigger] cw(z) == rat_zero() by {
        assert forall|i: int| 0 <= i < w.len() implies (#[trigger] w[i]).1 != rat_int(z) by {
            lemma_int_canonical(w[i].1);
            if i > 0 {
                assert(rat_lt(w[i].1, w[0].1));
                lemma_int_canonical(w[0].1);
                lemma_int_ops(w[i].1.num, w[0].1.num);
            }
        }
        lemma_coeff_of_absent(w, rat_int(z));
    }
    assert forall|y: int| #[trigger] int_coeff(p, y) == conv(cw, d, 0, y) by {
        lemma_product_at(w, d, y);
    }
    (cw, top)
}

/// The coefficients of `q` times the coefficients `u`, as a product with
/// `d`, are those of `q` times `u d`.
proof fn lemma_times_quotient(
    d: Seq<(Rat, Rat)>,
    b0: Seq<(Rat, Rat)>,
    q: Seq<(Rat, Rat)>,
    u: spec_fn(int) -> Rat,
    top: int,
    y: int,
)
    requires
        int_poly(d),
        int_poly(b0),
        int_poly(q),
        divides_by(d, b0, u, top),
    ensures
        product_coeff(q, b0, rat_int(y)) == conv(|z: int| conv(u, q, 0, z), d, 0, y),
        product_coeff(q, b0, rat_int(y)).canonical(),
{
    let cb0 = |z: int| int_coeff(b0, z);
    let ud = |z: int| conv(u, d, 0, z);
    lemma_product_comm(q, b0, rat_int(y));
    lemma_product_at(b0, q, y);
    assert forall|z: int| #[trigger] cb0(z) == ud(z) by {
        assert(int_coeff(b0, z) == conv(u, d, 0, z));
    }
    lemma_conv_local(cb0, ud, q, 0, y);
    lemma_conv_swap(u, d, q, y);
    lemma_product_at(q, b0, y);
}

/// The coefficients `conv(u, q, ..)` are zero outside `0 ..= top + dq`.
proof fn lemma_times_bounded(u: spec_fn(int) -> Rat, q: Seq<(Rat, Rat)>, top: int, dq: int)
    requires
        canonical_fn(u),
        bounded(u, top),
        dq >= 0,
        canonical_pairs(q),
        forall|i: int| 0 <= i < q.len() ==> 0 <= (#[trigger] q[i]).1.num <= dq,
    ensures
        bounded(|z: int| conv(u, q, 0, z), top + dq),
        canonical_fn(|z: int| conv(u, q, 0, z)),
{
    let zf = |z: int| rat_zero();
    lemma_small_canonical(0);
    assert forall|y: int| (y < 0 || y > top + dq) implies #[trigger] conv(u, q, 0, y) == rat_zero() by {
        assert forall|j: int| 0 <= j < q.len() implies u(y - (#[trigger] q[j]).1.num + 0) == zf(y - q[j].1.num + 0) by {}
        lemma_conv_local(u, zf, q, 0, y);
        assert forall|z: int| #[trigger] zf(z) == rat_zero() by {}
        lemma_conv_zero(zf, q, 0, y);
    }
    assert forall|z: int| (#[trigger] conv(u, q, 0, z)).canonical() by {
        lemma_conv_canonical(u, q, 0, z);
    }
}

/// A common divisor of `a0` and `b0` divides the remainder `a0 - q b0`,
/// and a common divisor of `b0` and the remainder divides `a0`.
pub proof fn lemma_divides_step(
    d: Seq<(Rat, Rat)>,
    a0: Seq<(Rat, Rat)>,
    b0: Seq<(Rat, Rat)>,
    q: Seq<(Rat, Rat)>,
    rem: Seq<(Rat, Rat)>,
)
    requires
        int_poly(d),
        int_poly(a0),
        int_poly(b0),
        int_poly(q),
        int_poly(rem),
        forall|i: int| 0 <= i < q.len() ==> 0 <= (#[trigger] q[i]).1.num,
        forall|x: Rat| #[trigger] coeff_of(a0, x) == rat_add(product_coeff(q, b0, x), coeff_of(rem, x)),
        divides(d, b0),
    ensures
        divides(d, a0) ==> divides(d, rem),
        divides(d, rem) ==> divides(d, a0),
{
    let dq: int = if q.len() > 0 {
        q[0].1.num
    } else {
        0
    };
    assert forall|i: int| 0 <= i < q.len() implies 0 <= (#[trigger] q[i]).1.num <= dq by {
        if i > 0 {
            assert(rat_lt(q[i].1, q[0].1));
            lemma_int_canonical(q[i].1);
            lemma_int_canonical(q[0].1);
            lemma_int_ops(q[i].1.num, q[0].1.num);
        }
    }
    let (ub, tb) = lemma_divides_to(d, b0);
    let uq = |z: int| conv(ub, q, 0, z);
    lemma_times_bounded(ub, q, tb, dq);
    assert forall|y: int| #[trigger] int_coeff(a0, y) == rat_add(product_coeff(q, b0, rat_int(y)), int_coeff(rem, y)) by {}
    if divides(d, a0) {
        let (ua, ta) = lemma_divides_to(d, a0);
        let ur = |z: int| rat_sub(ua(z), uq(z));
        let tr: int = if ta > tb + dq {
            ta
        } else {
            tb + dq
        };
        assert forall|z: int| (#[trigger] ur(z)).canonical() by {
            lemma_ops_canonical(ua(z), uq(z));
        }
        lemma_small_canonical(0);
        lemma_add_zero(rat_zero());
        assert forall|z: int| (z < 0 || z > tr) implies #[trigger] ur(z) == rat_zero() by {
            assert(ua(z) == rat_zero());
            assert(uq(z) == rat_zero());
        }
        assert forall|z: int| #[trigger] ur(z) == rat_sub(ua(z), uq(z)) by {}
        assert forall|y: int| #[trigger] int_coeff(rem, y) == conv(ur, d, 0, y) by {
            lemma_times_quotient(d, b0, q, ub, tb, y);
            let p = product_coeff(q, b0, rat_int(y));
            lemma_coeff_of_canonical(rem, rat_int(y));
            lemma_regroup(p, int_coeff(rem, y), p, p);
            assert(int_coeff(a0, y) == rat_add(p, int_coeff(rem, y)));
            assert(int_coeff(rem, y) == rat_sub(int_coeff(a0, y), p));
            assert(int_coeff(a0, y) == conv(ua, d, 0, y));
            lemma_conv_add(ua, uq, ur, d, 0, y, true);
        }
        lemma_divides_of(d, rem, ur, tr);
    }
    if divides(d, rem) {
        let (ur, tr) = lemma_divides_to(d, rem);
        let ua = |z: int| rat_add(uq(z), ur(z));
        let ta: int = if tr > tb + dq {
            tr
        } else {
            tb + dq
        };
        assert forall|z: int| (#[trigger] ua(z)).canonical() by {
            lemma_ops_canonical(uq(z), ur(z));
        }
        lemma_small_canonical(0);
        lemma_add_zero(rat_zero());
        assert forall|z: int| (z < 0 || z > ta) implies #[trigger] ua(z) == rat_zero() by {
            assert(ur(z) == rat_zero());
            assert(uq(z) == rat_zero());
        }
        assert forall|z: int| #[trigger] ua(z) == rat_add(uq(z), ur(z)) by {}
        assert forall|y: int| #[trigger] int_coeff(a0, y) == conv(ua, d, 0, y) by {
            lemma_times_quotient(d, b0, q, ub, tb, y);
            assert(int_coeff(a0, y) == rat_add(product_coeff(q, b0, rat_int(y)), int_coeff(rem, y)));
            assert(int_coeff(rem, y) == conv(ur, d, 0, y));
            lemma_conv_add(uq, ur, ua, d, 0, y, false);
        }
        lemma_divides_of(d, a0, ua, ta);
    }
}

/// Every polynomial divides itself and zero.
pub proof fn lemma_divides_self(g: Seq<(Rat, Rat)>)
    requires
        int_poly(g),
    ensures
        divides(g, g),
        divides(g, Seq::empty()),
{
    lemma_small_canonical(0);
    lemma_small_canonical(1);
    assert forall|z: int| (#[trigger] unit()(z)).canonical() by {}
    assert forall|y: int| #[trigger] int_coeff(g, y) == conv(unit(), g, 0, y) by {
        lemma_conv_unit(g, y);
    }
    lemma_divides_of(g, g, unit(), 0);
    let zf = |z: int| rat_zero();
    let e = Seq::<(Rat, Rat)>::empty();
    assert forall|y: int| #[trigger] int_coeff(e, y) == conv(zf, g, 0, y) by {
        lemma_coeff_of_absent(e, rat_int(y));
        assert forall|z: int| #[trigger] zf(z) == rat_zero() by {}
        lemma_conv_zero(zf, g, 0, y);
    }
    lemma_divides_of(g, e, zf, 0);
}

/// The product with coefficients `u` and `g` equals that with `u c` and
/// `g / c`.
proof fn lemma_conv_rescale(u: spec_fn(int) -> Rat, v: spec_fn(int) -> Rat, g: Seq<(Rat, Rat)>, c: Rat, y: int)
    requires
        canonical_fn(u),
        canonical_pairs(g),
        c.canonical(),
        c.num != 0,
        forall|z: int| #[trigger] v(z) == rat_mul(u(z), c),
    ensures
        conv(u, g, 0, y) == conv(v, scale_div(g, c), 0, y),
    decreases g.len(),
{
    if g.len() > 0 {
        let t = g.drop_last();
        assert(scale_div(g, c).drop_last() =~= scale_div(t, c));
        assert(canonical_pairs(t)) by {
            assert forall|i: int| 0 <= i < t.len() implies (#[trigger] t[i]).0.canonical() && t[i].1.canonical() by {
                assert(t[i] == g[i]);
            }
        }
        lemma_conv_rescale(u, v, t, c, y);
        let m = g.last();
        assert(m == g[g.len() - 1]);
        let z = y - m.1.num + 0;
        let w = rat_div(m.0, c);
        lemma_ops_canonical(m.0, c);
        lemma_mul_laws(u(z), c, w);
        lemma_sub_div_laws(m.0, c);
        lemma_sub_div_laws(w, c);
        assert(scale_div(g, c).last() == (w, m.1));
    }
}

/// Dividing `g` by a non-zero constant keeps what it divides and what
/// divides it.
pub proof fn lemma_divides_scale(d: Seq<(Rat, Rat)>, g: Seq<(Rat, Rat)>, p: Seq<(Rat, Rat)>, c: Rat)
    requires
        int_poly(d),
        int_poly(g),
        int_poly(p),
        c.canonical(),
        c.num != 0,
    ensures
        divides(g, p) ==> divides(scale_div(g, c), p),
        divides(d, g) ==> divides(d, scale_div(g, c)),
{
    let gc = scale_div(g, c);
    assert(int_poly(gc)) by {
        assert forall|i: int, j: int| #![trigger gc[i], gc[j]] 0 <= i < j < gc.len() implies rat_lt(gc[j].1, gc[i].1) by {
            assert(g[i].1 == gc[i].1 && g[j].1 == gc[j].1);
        }
        assert forall|i: int| 0 <= i < gc.len() implies (#[trigger] gc[i]).0.canonical() && gc[i].1.canonical() by {
            lemma_ops_canonical(g[i].0, c);
        }
    }
    if divides(g, p) {
        let (u, t) = lemma_divides_to(g, p);
        let v = |z: int| rat_mul(u(z), c);
        lemma_small_canonical(0);
        assert forall|z: int| (#[trigger] v(z)).canonical() by {
            lemma_ops_canonical(u(z), c);
        }
        assert forall|z: int| (z < 0 || z > t) implies #[trigger] v(z) == rat_zero() by {
            crate::polynomial::division::lemma_mul_zero(c);
        }
        assert forall|y: int| #[trigger] int_coeff(p, y) == conv(v, gc, 0, y) by {
            lemma_conv_rescale(u, v, g, c, y);
        }
        lemma_divides_of(gc, p, v, t);
    }
    if divides(d, g) {
        let (u, t) = lemma_divides_to(d, g);
        let v = |z: int| rat_div(u(z), c);
        lemma_small_canonical(0);
        lemma_div_laws(rat_zero(), rat_zero(), c);
        assert forall|z: int| (#[trigger] v(z)).canonical() by {
            lemma_ops_canonical(u(z), c);
        }
        assert forall|z: int| (z < 0 || z > t) implies #[trigger] v(z) == rat_zero() by {}
        assert forall|z: int| #[trigger] v(z) == rat_div(u(z), c) by {}
        assert forall|y: int| #[trigger] int_coeff(gc, y) == conv(v, d, 0, y) by {
            crate::polynomial::bezout::lemma_coeff_scale_div(g, c, rat_int(y));
            assert(int_coeff(g, y) == conv(u, d, 0, y));
            lemma_conv_div(u, v, c, d, 0, y);
        }
        lemma_divides_of(d, gc, v, t);
    }
}

} // verus!
