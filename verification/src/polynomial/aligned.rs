//! Division when the degrees are not integers but lie an integer apart:
//! lowering every degree by the divisor's leading degree gives integer
//! degrees, and the division carries over.
use crate::polynomial::division::integer_degrees;
use crate::polynomial::{
    canonical_pairs, coeff_of, has_degree, lemma_coeff_of_absent, lemma_coeff_of_at, lemma_shift_scale_ok,
    lower_degrees, product_coeff, shift_scale, sorted_degrees,
};
use crate::rational::{
    lemma_add_laws, lemma_lt_add, lemma_lt_sub, lemma_ops_canonical, lemma_regroup, lemma_small_canonical,
    lemma_sub_div_laws, rat_add, rat_lt, rat_sub, rat_zero, Rat,
};
use vstd::prelude::*;

verus! {

/// Every degree of `o` and of `dv` lies an integer apart from the leading
/// degree of `dv`.
pub open spec fn aligned_degrees(o: Seq<(Rat, Rat)>, dv: Seq<(Rat, Rat)>) -> bool {
    &&& dv.len() > 0
    &&& integer_degrees(lower_degrees(o, dv[0].1))
    &&& integer_degrees(lower_degrees(dv, dv[0].1))
}

/// Adding and then subtracting `a`, or the other way round, gives the
/// number back.
pub proof fn lemma_shift_back(y: Rat, a: Rat)
    requires
        y.canonical(),
        a.canonical(),
    ensures
        rat_sub(rat_add(y, a), a) == y,
        rat_add(rat_sub(y, a), a) == y,
        rat_add(y, a).canonical(),
        rat_sub(y, a).canonical(),
{
    lemma_regroup(a, y, a, a);
    lemma_add_laws(a, y, a);
    lemma_sub_div_laws(y, a);
    lemma_ops_canonical(y, a);
}

/// Lowered by `a`, a sum of two degrees raised by `a` and then lowered by
/// `a` is the sum of the two, a degree raised by `a` and lowered by `u` is
/// the difference, and the comparison with `a` is the comparison with zero.
pub proof fn lemma_lowered_arith(x: Rat, u: Rat, a: Rat)
    requires
        x.canonical(),
        u.canonical(),
        a.canonical(),
    ensures
        rat_sub(rat_sub(rat_add(rat_add(x, a), rat_add(u, a)), a), a) == rat_add(x, u),
        rat_sub(rat_sub(rat_add(x, a), u), a) == rat_sub(x, u),
        rat_sub(a, a) == rat_zero(),
        rat_lt(x, a) == rat_lt(rat_sub(x, a), rat_zero()),
{
    lemma_small_canonical(0);
    lemma_ops_canonical(x, a);
    lemma_ops_canonical(u, a);
    lemma_ops_canonical(x, u);
    let d = rat_add(x, a);
    let w = rat_add(d, u);
    lemma_ops_canonical(d, u);
    lemma_add_laws(d, u, a);
    lemma_shift_back(w, a);
    lemma_add_laws(x, a, u);
    lemma_add_laws(a, u, x);
    lemma_add_laws(x, u, a);
    lemma_shift_back(rat_add(x, u), a);

    let y = rat_sub(x, u);
    lemma_shift_back(x, u);
    lemma_ops_canonical(y, a);
    lemma_add_laws(y, u, a);
    lemma_add_laws(u, a, y);
    lemma_add_laws(y, a, u);
    lemma_shift_back(rat_add(y, a), u);
    lemma_shift_back(y, a);

    lemma_shift_back(rat_zero(), a);
    lemma_add_laws(rat_zero(), a, a);

    if rat_lt(x, a) {
        lemma_lt_sub(x, a, a);
    }
    if rat_lt(rat_sub(x, a), rat_zero()) {
        lemma_shift_back(x, a);
        lemma_lt_add(rat_sub(x, a), rat_zero(), a);
    }
}

/// A sequence whose degrees are `d` or degrees of `old` keeps the degrees an
/// integer apart from `a` where `old` and `d` have them so.
pub proof fn lemma_aligned_keep(old: Seq<(Rat, Rat)>, new: Seq<(Rat, Rat)>, d: Rat, a: Rat)
    requires
        integer_degrees(lower_degrees(old, a)),
        rat_sub(d, a).den == 1,
        forall|k: int| 0 <= k < new.len() ==> (#[trigger] new[k]).1 == d || has_degree(old, new[k].1),
    ensures
        integer_degrees(lower_degrees(new, a)),
{
    assert forall|k: int| 0 <= k < new.len() implies (#[trigger] lower_degrees(new, a)[k]).1.den == 1 by {
        if new[k].1 != d {
            let j = choose|j: int| 0 <= j < old.len() && (#[trigger] old[j]).1 == new[k].1;
            assert(lower_degrees(old, a)[j].1.den == 1);
        }
    }
}

/// Lowering the degrees by `a` keeps the pairs canonical and sorted, and
/// moves each coefficient down by `a`.
pub proof fn lemma_lowered(s: Seq<(Rat, Rat)>, a: Rat)
    requires
        canonical_pairs(s),
        sorted_degrees(s),
        a.canonical(),
    ensures
        canonical_pairs(lower_degrees(s, a)),
        sorted_degrees(lower_degrees(s, a)),
        forall|y: Rat| y.canonical() ==> #[trigger] coeff_of(lower_degrees(s, a), y) == coeff_of(s, rat_add(y, a)),
        forall|x: Rat| !x.canonical() ==> #[trigger] coeff_of(s, x) == rat_zero(),
        forall|x: Rat| !x.canonical() ==> #[trigger] coeff_of(lower_degrees(s, a), x) == rat_zero(),
{
    let t = lower_degrees(s, a);
    assert forall|i: int| 0 <= i < t.len() implies (#[trigger] t[i]).0.canonical() && t[i].1.canonical() by {
        lemma_ops_canonical(s[i].1, a);
    }
    assert forall|i: int, j: int| #![trigger t[i], t[j]] 0 <= i < j < t.len() implies rat_lt(t[j].1, t[i].1) by {
        assert(rat_lt(s[j].1, s[i].1));
        lemma_lt_sub(s[j].1, s[i].1, a);
    }
    assert forall|y: Rat| y.canonical() implies #[trigger] coeff_of(t, y) == coeff_of(s, rat_add(y, a)) by {
        let x = rat_add(y, a);
        lemma_shift_back(y, a);
        if has_degree(s, x) {
            let k = choose|k: int| 0 <= k < s.len() && (#[trigger] s[k]).1 == x;
            lemma_coeff_of_at(s, k);
            lemma_coeff_of_at(t, k);
        } else {
            assert forall|i: int| 0 <= i < t.len() implies (#[trigger] t[i]).1 != y by {
                lemma_shift_back(s[i].1, a);
                if t[i].1 == y {
                    assert(s[i].1 == x);
                }
            }
            lemma_coeff_of_absent(t, y);
        }
    }
    assert forall|x: Rat| !x.canonical() implies #[trigger] coeff_of(s, x) == rat_zero() by {
        lemma_coeff_of_absent(s, x);
    }
    assert forall|x: Rat| !x.canonical() implies #[trigger] coeff_of(t, x) == rat_zero() by {
        lemma_coeff_of_absent(t, x);
    }
}

/// The product with `dv` lowered by `a` is the product with `dv`, lowered
/// by `a`.
pub proof fn lemma_product_lowered(q: Seq<(Rat, Rat)>, dv: Seq<(Rat, Rat)>, a: Rat, y: Rat)
    requires
        canonical_pairs(q),
        sorted_degrees(q),
        canonical_pairs(dv),
        a.canonical(),
        y.canonical(),
    ensures
        product_coeff(q, lower_degrees(dv, a), y) == product_coeff(q, dv, rat_add(y, a)),
    decreases dv.len(),
{
    if dv.len() > 0 {
        let c = dv.drop_last();
        assert(lower_degrees(dv, a).drop_last() =~= lower_degrees(c, a));
        assert(canonical_pairs(c)) by {
            assert forall|i: int| 0 <= i < c.len() implies (#[trigger] c[i]).0.canonical() && c[i].1.canonical() by {
                assert(c[i] == dv[i]);
            }
        }
        lemma_product_lowered(q, c, a, y);
        let m = dv.last();
        assert(m == dv[dv.len() - 1]);
        let ml = lower_degrees(dv, a).last();
        assert(ml == (m.0, rat_sub(m.1, a)));
        lemma_ops_canonical(m.1, a);
        let big = shift_scale(q, m);
        lemma_shift_scale_ok(q, m);
        assert(shift_scale(q, ml) =~= lower_degrees(big, a)) by {
            assert forall|i: int| 0 <= i < q.len() implies #[trigger] shift_scale(q, ml)[i] == lower_degrees(big, a)[i] by {
                let u = q[i].1;
                let w = rat_sub(m.1, a);
                lemma_shift_back(m.1, a);
                lemma_add_laws(u, w, a);
                lemma_ops_canonical(u, w);
                lemma_shift_back(rat_add(u, w), a);
            }
        }
        lemma_lowered(big, a);
    }
}

/// Where every coefficient of `o`, lowered by `a`, is that of `q` times
/// `dv` lowered by `a` plus that of `r` lowered by `a`, the same holds
/// before lowering.
pub proof fn lemma_unlowered(
    o: Seq<(Rat, Rat)>,
    dv: Seq<(Rat, Rat)>,
    q: Seq<(Rat, Rat)>,
    r: Seq<(Rat, Rat)>,
    a: Rat,
)
    requires
        canonical_pairs(o) && sorted_degrees(o),
        canonical_pairs(dv) && sorted_degrees(dv),
        canonical_pairs(q) && sorted_degrees(q),
        canonical_pairs(r) && sorted_degrees(r),
        a.canonical(),
        forall|y: Rat| #[trigger] coeff_of(lower_degrees(o, a), y) == rat_add(
            product_coeff(q, lower_degrees(dv, a), y),
            coeff_of(lower_degrees(r, a), y),
        ),
    ensures
        forall|x: Rat| #[trigger] coeff_of(o, x) == rat_add(product_coeff(q, dv, x), coeff_of(r, x)),
{
    lemma_lowered(o, a);
    lemma_lowered(r, a);
    assert forall|x: Rat| #[trigger] coeff_of(o, x) == rat_add(product_coeff(q, dv, x), coeff_of(r, x)) by {
        if x.canonical() {
            let y = rat_sub(x, a);
            lemma_shift_back(x, a);
            lemma_product_lowered(q, dv, a, y);
            assert(coeff_of(lower_degrees(o, a), y) == coeff_of(o, x));
            assert(coeff_of(lower_degrees(r, a), y) == coeff_of(r, x));
        } else {
            lemma_product_noncanonical(q, dv, x);
            lemma_small_canonical(0);
            lemma_add_laws(rat_zero(), rat_zero(), rat_zero());
        }
    }
}

/// A product has no coefficient at a degree that is not canonical.
proof fn lemma_product_noncanonical(q: Seq<(Rat, Rat)>, dv: Seq<(Rat, Rat)>, x: Rat)
    requires
        canonical_pairs(q),
        sorted_degrees(q),
        canonical_pairs(dv),
        !x.canonical(),
    ensures
        product_coeff(q, dv, x) == rat_zero(),
    decreases dv.len(),
{
    if dv.len() > 0 {
        let c = dv.drop_last();
        assert(canonical_pairs(c)) by {
            assert forall|i: int| 0 <= i < c.len() implies (#[trigger] c[i]).0.canonical() && c[i].1.canonical() by {
                assert(c[i] == dv[i]);
            }
        }
        lemma_product_noncanonical(q, c, x);
        let m = dv.last();
        assert(m == dv[dv.len() - 1]);
        lemma_shift_scale_ok(q, m);
        lemma_small_canonical(0);
        lemma_lowered(shift_scale(q, m), rat_zero());
        lemma_add_laws(rat_zero(), rat_zero(), rat_zero());
    }
}

} // verus!
