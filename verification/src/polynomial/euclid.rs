//! What Euclid's algorithm computes: the last non-zero remainder of
//! repeated long division, and its Bézout coefficient.
use crate::polynomial::division::{is_euclid_division, lemma_int_canonical};
use crate::polynomial::long_division::{long_quot, long_rem};
use crate::polynomial::{
    canonical_pairs, coeff_of, lemma_coeff_of_absent, lemma_coeff_of_at, nonzero_coeffs, poly_mul, poly_sub,
    product_coeff, scale_div, shift_scale, sorted_degrees,
};
use crate::rational::{lemma_add_zero, lemma_int_ops, rat_add, rat_one, rat_zero, Rat};
use vstd::prelude::*;

verus! {

/// The last non-zero remainder of Euclid's algorithm on `a` and `b`: while
/// `b` is not zero, `(a, b)` becomes `(b, a mod b)`; at most `fuel` divisions.
pub open spec fn euclid(a: Seq<(Rat, Rat)>, b: Seq<(Rat, Rat)>, fuel: nat) -> Seq<(Rat, Rat)>
    decreases fuel,
{
    if fuel == 0 || b.len() == 0 {
        a
    } else {
        euclid(b, long_rem(a, b), (fuel - 1) as nat)
    }
}

/// Euclid's algorithm on `a` and `b` reaches a zero remainder within
/// `fuel` divisions.
pub open spec fn euclid_ends(a: Seq<(Rat, Rat)>, b: Seq<(Rat, Rat)>, fuel: nat) -> bool
    decreases fuel,
{
    if b.len() == 0 {
        true
    } else if fuel == 0 {
        false
    } else {
        euclid_ends(b, long_rem(a, b), (fuel - 1) as nat)
    }
}

/// Every degree of `s` is an integer of at least `lo`.
pub open spec fn degrees_from(s: Seq<(Rat, Rat)>, lo: int) -> bool {
    forall|i: int| 0 <= i < s.len() ==> (#[trigger] s[i]).1.den == 1 && s[i].1.num >= lo
}

/// Room for Euclid's algorithm on `a` and `b` within `fuel` divisions: all
/// degrees are integers of at least `lo`, and the leading degree of `b` is
/// less than `fuel` above `lo`.
pub open spec fn euclid_room(a: Seq<(Rat, Rat)>, b: Seq<(Rat, Rat)>, lo: int, fuel: nat) -> bool {
    &&& degrees_from(a, lo)
    &&& degrees_from(b, lo)
    &&& b.len() > 0 ==> b[0].1.num - lo < fuel
}

/// The product of `q`, whose degrees are integers of at least zero, and
/// `b`, whose degrees are integers of at least `lo`, has no coefficient
/// below `lo`.
proof fn lemma_product_below(q: Seq<(Rat, Rat)>, b: Seq<(Rat, Rat)>, lo: int, x: Rat)
    requires
        forall|i: int| 0 <= i < q.len() ==> (#[trigger] q[i]).1.den == 1 && q[i].1.num >= 0,
        degrees_from(b, lo),
        x.den == 1,
        x.num < lo,
    ensures
        product_coeff(q, b, x) == rat_zero(),
    decreases b.len(),
{
    if b.len() > 0 {
        let c = b.drop_last();
        assert forall|i: int| 0 <= i < c.len() implies (#[trigger] c[i]).1.den == 1 && c[i].1.num >= lo by {
            assert(c[i] == b[i]);
        }
        lemma_product_below(q, c, lo, x);
        let m = b.last();
        assert(m == b[b.len() - 1]);
        let sq = shift_scale(q, m);
        assert forall|i: int| 0 <= i < sq.len() implies (#[trigger] sq[i]).1 != x by {
            lemma_int_canonical(q[i].1);
            lemma_int_canonical(m.1);
            lemma_int_ops(q[i].1.num, m.1.num);
        }
        lemma_coeff_of_absent(sq, x);
        lemma_int_ops(0, 0);
    }
}

/// A remainder of a division whose dividend and divisor have integer
/// degrees of at least `lo` has such degrees too.
pub proof fn lemma_rem_from(a: Seq<(Rat, Rat)>, b: Seq<(Rat, Rat)>, q: Seq<(Rat, Rat)>, r: Seq<(Rat, Rat)>, lo: int)
    requires
        is_euclid_division(a, b, q, r),
        degrees_from(a, lo),
        degrees_from(b, lo),
        sorted_degrees(r),
        canonical_pairs(r),
        nonzero_coeffs(r),
    ensures
        degrees_from(r, lo),
{
    assert forall|i: int| 0 <= i < r.len() implies (#[trigger] r[i]).1.den == 1 && r[i].1.num >= lo by {
        assert(r[i].1.den == 1);
        if r[i].1.num < lo {
            let x = r[i].1;
            lemma_coeff_of_at(r, i);
            assert forall|j: int| 0 <= j < a.len() implies (#[trigger] a[j]).1 != x by {}
            lemma_coeff_of_absent(a, x);
            lemma_product_below(q, b, lo, x);
            lemma_add_zero(r[i].0);
            assert(coeff_of(a, x) == rat_add(product_coeff(q, b, x), coeff_of(r, x)));
            assert(r[i].0.num != 0);
        }
    }
}

/// `p` divided by its leading coefficient, unless it is zero or that
/// coefficient is one.
pub open spec fn monic_value(p: Seq<(Rat, Rat)>) -> Seq<(Rat, Rat)> {
    if p.len() == 0 || p[0].0 == rat_one() {
        p
    } else {
        scale_div(p, p[0].0)
    }
}

/// The Bézout coefficient of the last non-zero remainder of Euclid's
/// algorithm on `a` and `b`, when `s0` and `s1` are those of `a` and `b`:
/// each division by `b` with quotient `q` turns `(s0, s1)` into
/// `(s1, s0 - q * s1)`.
pub open spec fn euclid_coeff(
    a: Seq<(Rat, Rat)>,
    b: Seq<(Rat, Rat)>,
    s0: Seq<(Rat, Rat)>,
    s1: Seq<(Rat, Rat)>,
    fuel: nat,
) -> Seq<(Rat, Rat)>
    decreases fuel,
{
    if fuel == 0 || b.len() == 0 {
        s0
    } else {
        euclid_coeff(b, long_rem(a, b), s1, poly_sub(s0, poly_mul(long_quot(a, b), s1)), (fuel - 1) as nat)
    }
}

} // verus!
