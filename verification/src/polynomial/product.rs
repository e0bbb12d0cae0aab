//! Laws of the product of polynomials with integer degrees: it is
//! commutative and associative, and linear in its factors.
use crate::polynomial::division::{
    conv, find_degree, int_coeff, integer_degrees, lemma_conv_canonical, lemma_conv_local,
    lemma_conv_point, lemma_conv_zero, lemma_find_degree, lemma_int_canonical, lemma_mul_zero,
    lemma_product_conv, lemma_product_non_integer,
};
use crate::polynomial::{
    canonical_pairs, coeff_of, lemma_coeff_of_absent, lemma_coeff_of_at, lemma_coeff_of_canonical,
    product_coeff, sorted_degrees,
};
use crate::rational::{
    lemma_add_laws, lemma_add_zero, lemma_mul_cancel, lemma_mul_laws, lemma_ops_canonical,
    lemma_regroup, lemma_small_canonical, lemma_sub_div_laws, rat_add, rat_div, rat_int, rat_mul,
    rat_one, rat_sub, rat_zero, Rat,
};
use vstd::prelude::*;

verus! {

/// A sorted sequence of canonical pairs with integer degrees.
pub open spec fn int_poly(s: Seq<(Rat, Rat)>) -> bool {
    sorted_degrees(s) && canonical_pairs(s) && integer_degrees(s)
}

/// Every value of `f` is canonical.
pub open spec fn canonical_fn(f: spec_fn(int) -> Rat) -> bool {
    forall|y: int| (#[trigger] f(y)).canonical()
}

/// One at degree zero, zero elsewhere: the unit of the product.
pub open spec fn unit() -> spec_fn(int) -> Rat {
    |z: int|
        if z == 0 {
            rat_one()
        } else {
            rat_zero()
        }
}

/// The prefix of a sequence of canonical pairs has canonical pairs.
proof fn lemma_prefix(dv: Seq<(Rat, Rat)>)
    requires
        canonical_pairs(dv),
        dv.len() > 0,
    ensures
        canonical_pairs(dv.drop_last()),
        dv.last() == dv[dv.len() - 1],
        dv.last().0.canonical(),
{
    let t = dv.drop_last();
    assert forall|i: int| 0 <= i < t.len() implies (#[trigger] t[i]).0.canonical() && t[i].1.canonical() by {
        assert(t[i] == dv[i]);
    }
}

/// The product coefficients of a pointwise sum or difference are the sums
/// or differences of the product coefficients.
pub proof fn lemma_conv_add(
    f: spec_fn(int) -> Rat,
    g: spec_fn(int) -> Rat,
    h: spec_fn(int) -> Rat,
    dv: Seq<(Rat, Rat)>,
    nd: int,
    k: int,
    sub: bool,
)
    requires
        canonical_fn(f),
        canonical_fn(g),
        forall|y: int| #[trigger] h(y) == if sub {
            rat_sub(f(y), g(y))
        } else {
            rat_add(f(y), g(y))
        },
        canonical_pairs(dv),
    ensures
        conv(h, dv, nd, k) == if sub {
            rat_sub(conv(f, dv, nd, k), conv(g, dv, nd, k))
        } else {
            rat_add(conv(f, dv, nd, k), conv(g, dv, nd, k))
        },
    decreases dv.len(),
{
    lemma_small_canonical(0);
    lemma_add_zero(rat_zero());
    if dv.len() > 0 {
        let t = dv.drop_last();
        lemma_prefix(dv);
        lemma_conv_add(f, g, h, t, nd, k, sub);
        let m = dv.last();
        let y = k - m.1.num + nd;
        lemma_mul_laws(f(y), g(y), m.0);
        lemma_conv_canonical(f, t, nd, k);
        lemma_conv_canonical(g, t, nd, k);
        lemma_ops_canonical(f(y), m.0);
        lemma_ops_canonical(g(y), m.0);
        lemma_regroup(conv(f, t, nd, k), rat_mul(f(y), m.0), conv(g, t, nd, k), rat_mul(g(y), m.0));
        lemma_regroup(conv(f, t, nd, k), conv(g, t, nd, k), rat_mul(f(y), m.0), rat_mul(g(y), m.0));
    }
}

/// The product coefficients of `f` times `c` are those of `f`, times `c`.
pub proof fn lemma_conv_scale(f: spec_fn(int) -> Rat, g: spec_fn(int) -> Rat, c: Rat, dv: Seq<(Rat, Rat)>, nd: int, k: int)
    requires
        canonical_fn(f),
        c.canonical(),
        forall|y: int| #[trigger] g(y) == rat_mul(f(y), c),
        canonical_pairs(dv),
    ensures
        conv(g, dv, nd, k) == rat_mul(conv(f, dv, nd, k), c),
    decreases dv.len(),
{
    lemma_small_canonical(0);
    if dv.len() == 0 {
        lemma_mul_zero(c);
    } else {
        let t = dv.drop_last();
        lemma_prefix(dv);
        lemma_conv_scale(f, g, c, t, nd, k);
        let m = dv.last();
        let y = k - m.1.num + nd;
        lemma_conv_canonical(f, t, nd, k);
        lemma_ops_canonical(f(y), m.0);
        lemma_mul_laws(conv(f, t, nd, k), rat_mul(f(y), m.0), c);
        lemma_mul_laws(f(y), c, m.0);
        lemma_mul_laws(f(y), m.0, c);
        lemma_sub_div_laws(c, m.0);
    }
}

/// The product coefficients of `f` divided by `c` are those of `f`,
/// divided by `c`.
pub proof fn lemma_conv_div(f: spec_fn(int) -> Rat, g: spec_fn(int) -> Rat, c: Rat, dv: Seq<(Rat, Rat)>, nd: int, k: int)
    requires
        canonical_fn(f),
        c.canonical(),
        c.num != 0,
        forall|y: int| #[trigger] g(y) == rat_div(f(y), c),
        canonical_pairs(dv),
    ensures
        conv(g, dv, nd, k) == rat_div(conv(f, dv, nd, k), c),
{
    assert forall|y: int| (#[trigger] g(y)).canonical() by {
        lemma_ops_canonical(f(y), c);
    }
    let gc = |y: int| rat_mul(g(y), c);
    lemma_conv_scale(g, gc, c, dv, nd, k);
    assert forall|y: int| #[trigger] gc(y) == f(y) by {
        lemma_sub_div_laws(f(y), c);
    }
    lemma_conv_local(gc, f, dv, nd, k);
    lemma_conv_canonical(f, dv, nd, k);
    lemma_conv_canonical(g, dv, nd, k);
    lemma_sub_div_laws(conv(f, dv, nd, k), c);
    lemma_ops_canonical(conv(f, dv, nd, k), c);
    lemma_mul_cancel(conv(g, dv, nd, k), rat_div(conv(f, dv, nd, k), c), c);
}

/// Shifting `f` by `e` shifts the product coefficients by `e`.
pub proof fn lemma_conv_shift(f: spec_fn(int) -> Rat, g: spec_fn(int) -> Rat, e: int, dv: Seq<(Rat, Rat)>, nd: int, k: int)
    requires
        forall|y: int| #[trigger] g(y) == f(y - e),
    ensures
        conv(g, dv, nd, k) == conv(f, dv, nd, k - e),
    decreases dv.len(),
{
    if dv.len() > 0 {
        lemma_conv_shift(f, g, e, dv.drop_last(), nd, k);
        let m = dv.last();
        assert(g(k - m.1.num + nd) == f((k - e) - m.1.num + nd));
    }
}

/// The two orders of a double sum agree: multiplying by `p` then by `r` is
/// multiplying by `r` then by `p`.
pub proof fn lemma_conv_swap(f: spec_fn(int) -> Rat, p: Seq<(Rat, Rat)>, r: Seq<(Rat, Rat)>, k: int)
    requires
        canonical_fn(f),
        canonical_pairs(p),
        canonical_pairs(r),
    ensures
        conv(|y: int| conv(f, p, 0, y), r, 0, k) == conv(|y: int| conv(f, r, 0, y), p, 0, k),
    decreases r.len(),
{
    let fp = |y: int| conv(f, p, 0, y);
    let fr = |y: int| conv(f, r, 0, y);
    lemma_small_canonical(0);
    if r.len() == 0 {
        assert forall|y: int| #[trigger] fr(y) == rat_zero() by {}
        lemma_conv_zero(fr, p, 0, k);
    } else {
        let t = r.drop_last();
        lemma_prefix(r);
        lemma_conv_swap(f, p, t, k);
        let m = r.last();
        let e = m.1.num;
        let c = m.0;
        let ft = |y: int| conv(f, t, 0, y);
        let sh = |y: int| f(y - e);
        let hm = |y: int| rat_mul(sh(y), c);
        assert forall|y: int| (#[trigger] ft(y)).canonical() by {
            lemma_conv_canonical(f, t, 0, y);
        }
        assert forall|y: int| (#[trigger] hm(y)).canonical() by {
            lemma_ops_canonical(f(y - e), c);
        }
        assert forall|y: int| #[trigger] fr(y) == rat_add(ft(y), hm(y)) by {
            assert(y - e + 0 == y - e);
        }
        lemma_conv_add(ft, hm, fr, p, 0, k, false);
        assert forall|y: int| (#[trigger] sh(y)).canonical() by {}
        lemma_conv_scale(sh, hm, c, p, 0, k);
        lemma_conv_shift(f, sh, e, p, 0, k);
        assert(fp(k - e + 0) == conv(f, p, 0, k - e));
    }
}

/// Multiplying by the unit gives back the coefficients.
pub proof fn lemma_conv_unit(p: Seq<(Rat, Rat)>, y: int)
    requires
        int_poly(p),
    ensures
        conv(unit(), p, 0, y) == int_coeff(p, y),
{
    let zf = |z: int| rat_zero();
    lemma_small_canonical(0);
    lemma_small_canonical(1);
    assert forall|z: int| (#[trigger] zf(z)).canonical() by {}
    assert forall|z: int| #[trigger] unit()(z) == if z == 0 {
        rat_one()
    } else {
        zf(z)
    } by {}
    lemma_conv_point(zf, unit(), p, 0, y, 0, rat_one());
    assert forall|z: int| #[trigger] zf(z) == rat_zero() by {}
    lemma_conv_zero(zf, p, 0, y);
    lemma_find_degree(p, y);
    assert(y + 0 - 0 == y);
    let j = find_degree(p, y);
    if j >= 0 {
        lemma_int_canonical(p[j].1);
        lemma_coeff_of_at(p, j);
        let c = p[j].0;
        lemma_sub_div_laws(rat_one(), c);
        lemma_mul_laws(c, c, c);
        lemma_add_laws(c, c, c);
    } else {
        assert forall|i: int| 0 <= i < p.len() implies (#[trigger] p[i]).1 != rat_int(y) by {
            lemma_int_canonical(p[i].1);
        }
        lemma_coeff_of_absent(p, rat_int(y));
        lemma_add_laws(rat_zero(), rat_zero(), rat_zero());
    }
}

/// The coefficients of a sequence of canonical pairs are canonical.
pub proof fn lemma_coeffs_canonical(p: Seq<(Rat, Rat)>)
    requires
        canonical_pairs(p),
    ensures
        forall|y: int| (#[trigger] int_coeff(p, y)).canonical(),
{
    assert forall|y: int| (#[trigger] int_coeff(p, y)).canonical() by {
        lemma_coeff_of_canonical(p, rat_int(y));
    }
}

/// The product is commutative.
pub proof fn lemma_product_comm(p: Seq<(Rat, Rat)>, q: Seq<(Rat, Rat)>, x: Rat)
    requires
        int_poly(p),
        int_poly(q),
    ensures
        product_coeff(p, q, x) == product_coeff(q, p, x),
{
    if x.den != 1 {
        lemma_product_non_integer(p, q, x);
        lemma_product_non_integer(q, p, x);
    } else {
        lemma_int_canonical(x);
        let k = x.num;
        let cp = |y: int| int_coeff(p, y - 0);
        let cq = |y: int| int_coeff(q, y - 0);
        lemma_product_conv(p, q, cp, 0, k);
        lemma_product_conv(q, p, cq, 0, k);
        let up = |y: int| conv(unit(), p, 0, y);
        let uq = |y: int| conv(unit(), q, 0, y);
        assert forall|y: int| #[trigger] cp(y) == up(y) by {
            lemma_conv_unit(p, y);
        }
        assert forall|y: int| #[trigger] cq(y) == uq(y) by {
            lemma_conv_unit(q, y);
        }
        lemma_conv_local(cp, up, q, 0, k);
        lemma_conv_local(cq, uq, p, 0, k);
        lemma_small_canonical(0);
        lemma_small_canonical(1);
        assert forall|y: int| (#[trigger] unit()(y)).canonical() by {}
        lemma_conv_swap(unit(), p, q, k);
    }
}

/// The product is associative: `(p q) r == p (q r)`, where `pq` and `qr`
/// are polynomials with the coefficients of `p q` and `q r`.
pub proof fn lemma_product_assoc(
    p: Seq<(Rat, Rat)>,
    q: Seq<(Rat, Rat)>,
    r: Seq<(Rat, Rat)>,
    pq: Seq<(Rat, Rat)>,
    qr: Seq<(Rat, Rat)>,
    x: Rat,
)
    requires
        int_poly(p),
        int_poly(q),
        int_poly(r),
        int_poly(pq),
        int_poly(qr),
        forall|z: Rat| #[trigger] coeff_of(pq, z) == product_coeff(p, q, z),
        forall|z: Rat| #[trigger] coeff_of(qr, z) == product_coeff(q, r, z),
    ensures
        product_coeff(pq, r, x) == product_coeff(p, qr, x),
{
    if x.den != 1 {
        lemma_product_non_integer(pq, r, x);
        lemma_product_non_integer(p, qr, x);
    } else {
        lemma_int_canonical(x);
        let k = x.num;
        let cq = |y: int| int_coeff(q, y - 0);
        let cpq = |y: int| int_coeff(pq, y - 0);
        let cqr = |y: int| int_coeff(qr, y - 0);
        lemma_coeffs_canonical(q);
        assert forall|y: int| (#[trigger] cq(y)).canonical() by {
            assert(cq(y) == int_coeff(q, y));
        }
        lemma_product_conv(pq, r, cpq, 0, k);
        let a1 = |y: int| conv(cq, p, 0, y);
        assert forall|y: int| #[trigger] cpq(y) == a1(y) by {
            lemma_product_comm(p, q, rat_int(y));
            lemma_product_conv(q, p, cq, 0, y);
        }
        lemma_conv_local(cpq, a1, r, 0, k);
        lemma_conv_swap(cq, p, r, k);
        let a2 = |y: int| conv(cq, r, 0, y);
        assert forall|y: int| #[trigger] a2(y) == cqr(y) by {
            lemma_product_conv(q, r, cq, 0, y);
        }
        lemma_conv_local(a2, cqr, p, 0, k);
        lemma_product_conv(qr, p, cqr, 0, k);
        lemma_product_comm(p, qr, x);
    }
}

} // verus!
