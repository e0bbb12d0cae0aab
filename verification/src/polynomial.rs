//! The polynomial structure and its related algorithms.
pub mod aligned;
pub mod bezout;
pub mod division;
pub mod divisors;
pub mod euclid;
pub mod long_division;
pub mod product;

use crate::error::{Error, ErrorV};
use crate::expr::{exprs_view, lemma_exprs, Expr, ExprV};
use crate::monomial::{parse_monomial, Monomial};
use crate::text::{split, split_str};
use division::{
    div_invariant, division_of, divisor_ok, int_coeff, integer_degrees, is_division, is_euclid_division,
    lemma_division_of, lemma_div_final, lemma_division_of_zero,
    lemma_division_start, lemma_int_canonical, lemma_step_done, lemma_step_start, lemma_step_term,
    lemma_integer_degrees, lemma_product_non_integer, stepped,
};
use aligned::{aligned_degrees, lemma_aligned_keep, lemma_lowered, lemma_lowered_arith, lemma_shift_back, lemma_unlowered};
use bezout::{
    bezout_rel, bounded, lemma_bezout_alone, lemma_bezout_poly, lemma_bezout_final, lemma_bezout_scale, lemma_bezout_start,
    lemma_bezout_step, lemma_bounded_step, next_coeffs,
};
use divisors::{divides, lemma_divides_scale, lemma_divides_self, lemma_divides_step};
use euclid::{euclid, euclid_coeff, euclid_ends, euclid_room, lemma_rem_from, monic_value};
use long_division::{
    coeff_fn, div_step, lemma_long_quot, lemma_long_rem, lemma_lowered_coeff, lemma_split_coeff, long_div,
    long_division, long_quot, long_quotient, long_remainder,
};
use product::{canonical_fn, int_poly, unit};
use crate::number::{Comparison, Number};
use crate::rational::{
    lemma_add_zero, lemma_canonical_zero, lemma_small_canonical, lemma_lt_add, lemma_lt_sub, lemma_lt_trans, rat_add,
    rat_div, rat_int, rat_lt, rat_mul, rat_neg, rat_one, rat_sub, rat_zero, Rat,
};
use vstd::prelude::*;
use vstd::string::*;

verus! {

/// Degrees strictly decreasing along the sequence of (coefficient, degree)
/// pairs.
pub open spec fn sorted_degrees(s: Seq<(Rat, Rat)>) -> bool {
    forall|i: int, j: int| #![trigger s[i], s[j]] 0 <= i < j < s.len() ==> rat_lt(s[j].1, s[i].1)
}

/// Every coefficient of the sequence is non-zero.
pub open spec fn nonzero_coeffs(s: Seq<(Rat, Rat)>) -> bool {
    forall|i: int| 0 <= i < s.len() ==> (#[trigger] s[i]).0.num != 0
}

/// Whether some pair of the sequence has degree `d`.
pub open spec fn has_degree(s: Seq<(Rat, Rat)>, d: Rat) -> bool {
    exists|i: int| 0 <= i < s.len() && (#[trigger] s[i]).1 == d
}

/// The coefficient of degree `d`: that of the pair with degree `d`, or zero.
pub open spec fn coeff_of(s: Seq<(Rat, Rat)>, d: Rat) -> Rat {
    if has_degree(s, d) {
        s[choose|i: int| 0 <= i < s.len() && (#[trigger] s[i]).1 == d].0
    } else {
        rat_zero()
    }
}

/// Every monomial of the vector is well formed.
pub open spec fn monos_wf(v: Seq<Monomial>) -> bool {
    forall|i: int| 0 <= i < v.len() ==> (#[trigger] v[i]).wf()
}

/// The (coefficient, degree) pairs of a vector of monomials.
pub open spec fn monos_view(v: Seq<Monomial>) -> Seq<(Rat, Rat)> {
    v.map_values(|m: Monomial| m@)
}

/// A polynomial with its monomials sorted by `degree` in descending order.
#[derive(Debug, PartialEq, Eq, Hash)]
pub struct Polynomial(Vec<Monomial>);

impl View for Polynomial {
    /// The (coefficient, degree) pairs, by decreasing degree.
    type V = Seq<(Rat, Rat)>;

    closed spec fn view(&self) -> Seq<(Rat, Rat)> {
        monos_view(self.0@)
    }
}

// ---------------------------------------------------------------------
// Facts about coefficients of sorted sequences
// ---------------------------------------------------------------------
/// In a sorted sequence, the coefficient of a present degree is the one of its
/// pair.
pub proof fn lemma_coeff_of_at(s: Seq<(Rat, Rat)>, k: int)
    requires
        sorted_degrees(s),
        0 <= k < s.len(),
    ensures
        coeff_of(s, s[k].1) == s[k].0,
{
    let d = s[k].1;
    assert(has_degree(s, d));
    let j = choose|i: int| 0 <= i < s.len() && (#[trigger] s[i]).1 == d;
    if j < k {
        assert(rat_lt(s[k].1, s[j].1));
    } else if j > k {
        assert(rat_lt(s[j].1, s[k].1));
    }
}

/// The coefficient of an absent degree is zero.
pub proof fn lemma_coeff_of_absent(s: Seq<(Rat, Rat)>, d: Rat)
    requires
        forall|i: int| 0 <= i < s.len() ==> (#[trigger] s[i]).1 != d,
    ensures
        coeff_of(s, d) == rat_zero(),
{
}

/// Inserting a pair with a new degree sets that coefficient only.
proof fn lemma_coeff_of_insert(s: Seq<(Rat, Rat)>, i: int, e: (Rat, Rat), d: Rat)
    requires
        0 <= i <= s.len(),
        sorted_degrees(s.insert(i, e)),
    ensures
        coeff_of(s.insert(i, e), d) == if d == e.1 {
            e.0
        } else {
            coeff_of(s, d)
        },
{
    let t = s.insert(i, e);
    assert(t[i] == e);
    if d == e.1 {
        lemma_coeff_of_at(t, i);
    } else {
        assert(sorted_degrees(s)) by {
            assert forall|a: int, b: int| #![trigger s[a], s[b]] 0 <= a < b < s.len() implies rat_lt(
                s[b].1,
                s[a].1,
            ) by {
                let a2 = if a < i {
                    a
                } else {
                    a + 1
                };
                let b2 = if b < i {
                    b
                } else {
                    b + 1
                };
                assert(t[a2] == s[a]);
                assert(t[b2] == s[b]);
            }
        }
        if has_degree(s, d) {
            let k = choose|k: int| 0 <= k < s.len() && (#[trigger] s[k]).1 == d;
            let k2 = if k < i {
                k
            } else {
                k + 1
            };
            assert(t[k2] == s[k]);
            lemma_coeff_of_at(s, k);
            lemma_coeff_of_at(t, k2);
        } else {
            assert forall|k: int| 0 <= k < t.len() implies (#[trigger] t[k]).1 != d by {
                if k < i {
                    assert(t[k] == s[k]);
                } else if k > i {
                    assert(t[k] == s[k - 1]);
                }
            }
        }
    }
}

/// Changing the coefficient of one pair changes that coefficient only.
proof fn lemma_coeff_of_update(s: Seq<(Rat, Rat)>, i: int, c: Rat, d: Rat)
    requires
        0 <= i < s.len(),
        sorted_degrees(s),
    ensures
        sorted_degrees(s.update(i, (c, s[i].1))),
        coeff_of(s.update(i, (c, s[i].1)), d) == if d == s[i].1 {
            c
        } else {
            coeff_of(s, d)
        },
{
    let t = s.update(i, (c, s[i].1));
    assert(sorted_degrees(t)) by {
        assert forall|a: int, b: int| #![trigger t[a], t[b]] 0 <= a < b < t.len() implies rat_lt(
            t[b].1,
            t[a].1,
        ) by {
            assert(t[a].1 == s[a].1);
            assert(t[b].1 == s[b].1);
            assert(rat_lt(s[b].1, s[a].1));
        }
    }
    if d == s[i].1 {
        lemma_coeff_of_at(t, i);
    } else if has_degree(s, d) {
        let k = choose|k: int| 0 <= k < s.len() && (#[trigger] s[k]).1 == d;
        assert(t[k] == s[k]);
        lemma_coeff_of_at(s, k);
        lemma_coeff_of_at(t, k);
    } else {
        assert forall|k: int| 0 <= k < t.len() implies (#[trigger] t[k]).1 != d by {
            assert(t[k].1 == s[k].1);
        }
    }
}

// ---------------------------------------------------------------------
// Internal operations
// ---------------------------------------------------------------------
impl Polynomial {
    /// The monomials are well formed and sorted by strictly decreasing degree.
    pub open spec fn wf(&self) -> bool {
        &&& self.monos_ok()
        &&& sorted_degrees(self@)
    }

    /// Every monomial is well formed.
    pub closed spec fn monos_ok(&self) -> bool {
        monos_wf(self.0@)
    }

    /// The zero polynomial.
    pub fn zero() -> (r: Self)
        ensures
            r.wf(),
            r@ == Seq::<(Rat, Rat)>::empty(),
    {
        let r = Polynomial(Vec::new());
        proof {
            assert(r@ =~= Seq::<(Rat, Rat)>::empty());
        }
        r
    }

    /// Internal method to search for the index of the given degree: `Ok` with
    /// its index, or `Err` with the index where it would be inserted.
    fn search(&self, degree: &Number) -> (r: Result<usize, usize>)
        requires
            self.wf(),
            degree.wf(),
        ensures
            r matches Ok(i) ==> i < self@.len() && self@[i as int].1 == degree@,
            r matches Err(i) ==> i <= self@.len() && (forall|j: int|
                0 <= j < i ==> rat_lt(degree@, #[trigger] self@[j].1)) && (forall|j: int|
                i <= j < self@.len() ==> rat_lt(#[trigger] self@[j].1, degree@)),
    {
        let mut lo: usize = 0;
        let mut hi: usize = self.0.len();
        while lo < hi
            invariant
                self.wf(),
                degree.wf(),
                lo <= hi <= self@.len(),
                self@.len() == self.0@.len(),
                forall|j: int| 0 <= j < lo ==> rat_lt(degree@, #[trigger] self@[j].1),
                forall|j: int| hi <= j < self@.len() ==> rat_lt(#[trigger] self@[j].1, degree@),
            decreases hi - lo,
        {
            let mid = lo + (hi - lo) / 2;
            assert(self@[mid as int] == self.0@[mid as int]@);
            assert(self.0@[mid as int].wf());
            match degree.compare(&self.0[mid].degree) {
                Comparison::Equal => {
                    return Ok(mid);
                },
                Comparison::Greater => {
                    assert forall|j: int| mid <= j < self@.len() implies rat_lt(
                        #[trigger] self@[j].1,
                        degree@,
                    ) by {
                        if j > mid {
                            assert(self.0@[j].wf());
                            assert(rat_lt(self@[j].1, self@[mid as int].1));
                            lemma_lt_trans(self@[j].1, self@[mid as int].1, degree@);
                        }
                    }
                    hi = mid;
                },
                Comparison::Less => {
                    assert forall|j: int| 0 <= j <= mid implies rat_lt(
                        degree@,
                        #[trigger] self@[j].1,
                    ) by {
                        if j < mid {
                            assert(self.0@[j].wf());
                            assert(rat_lt(self@[mid as int].1, self@[j].1));
                            lemma_lt_trans(degree@, self@[mid as int].1, self@[j].1);
                        }
                    }
                    lo = mid + 1;
                },
            }
        }
        Err(lo)
    }
}


/// The result of dropping the zero coefficients, described by the indices
/// `idx` of the kept pairs: the coefficient of every degree is unchanged.
proof fn lemma_clean_coeffs(s: Seq<(Rat, Rat)>, o: Seq<(Rat, Rat)>, idx: Seq<int>, d: Rat)
    requires
        sorted_degrees(s),
        sorted_degrees(o),
        forall|i: int| 0 <= i < s.len() ==> (#[trigger] s[i]).0.canonical(),
        nonzero_coeffs(o),
        idx.len() == o.len(),
        forall|i: int| 0 <= i < o.len() ==> 0 <= #[trigger] idx[i] < s.len() && o[i] == s[idx[i]],
        forall|j: int|
            0 <= j < s.len() && (#[trigger] s[j]).0.num != 0 ==> exists|i: int|
                0 <= i < idx.len() && #[trigger] idx[i] == j,
    ensures
        coeff_of(o, d) == coeff_of(s, d),
{
    if has_degree(s, d) {
        let j = choose|j: int| 0 <= j < s.len() && (#[trigger] s[j]).1 == d;
        lemma_coeff_of_at(s, j);
        if s[j].0.num != 0 {
            let i = choose|i: int| 0 <= i < idx.len() && #[trigger] idx[i] == j;
            assert(o[i] == s[j]);
            lemma_coeff_of_at(o, i);
        } else {
            lemma_canonical_zero(s[j].0);
            assert forall|i: int| 0 <= i < o.len() implies (#[trigger] o[i]).1 != d by {
                if o[i].1 == d {
                    let k = idx[i];
                    assert(o[i] == s[k]);
                    if k < j {
                        assert(rat_lt(s[j].1, s[k].1));
                    } else if k > j {
                        assert(rat_lt(s[k].1, s[j].1));
                    }
                }
            }
        }
    } else {
        assert forall|i: int| 0 <= i < o.len() implies (#[trigger] o[i]).1 != d by {
            assert(o[i] == s[idx[i]]);
        }
    }
}

impl Polynomial {
    /// Internal method to clean up a polynomial after operating on it: drops
    /// the monomials with a zero coefficient.
    fn clean(&mut self)
        requires
            old(self).wf(),
        ensures
            final(self).wf(),
            nonzero_coeffs(final(self)@),
            forall|d: Rat| #[trigger] coeff_of(final(self)@, d) == coeff_of(old(self)@, d),
    {
        let ghost s = self@;
        let mut out: Vec<Monomial> = Vec::new();
        let ghost mut idx: Seq<int> = Seq::empty();
        let n = self.0.len();
        let mut k: usize = 0;
        while k < n
            invariant
                self@ == s,
                self.wf(),
                n == self.0@.len(),
                n == s.len(),
                k <= n,
                monos_wf(out@),
                idx.len() == out@.len(),
                forall|i: int|
                    0 <= i < out@.len() ==> 0 <= #[trigger] idx[i] < k && monos_view(out@)[i]
                        == s[idx[i]],
                forall|i: int, j: int| 0 <= i < j < idx.len() ==> idx[i] < idx[j],
                nonzero_coeffs(monos_view(out@)),
                forall|j: int|
                    0 <= j < k && (#[trigger] s[j]).0.num != 0 ==> exists|i: int|
                        0 <= i < idx.len() && #[trigger] idx[i] == j,
            decreases n - k,
        {
            assert(s[k as int] == self.0@[k as int]@);
            assert(self.0@[k as int].wf());
            if !self.0[k].coeff.is_zero() {
                let ghost old_out = out@;
                let ghost old_idx = idx;
                out.push(self.0[k].clone());
                proof {
                    assert forall|i: int| 0 <= i < out@.len() implies (#[trigger] monos_view(
                        out@,
                    )[i]).0.num != 0 by {
                        if i < old_out.len() {
                            assert(out@[i] == old_out[i]);
                            assert(monos_view(old_out)[i].0.num != 0);
                        }
                    }
                    idx = idx.push(k as int);
                    assert(idx[idx.len() - 1] == k);
                    assert forall|i: int| 0 <= i < out@.len() implies 0 <= #[trigger] idx[i] < k + 1
                        && monos_view(out@)[i] == s[idx[i]] by {
                        if i < old_out.len() {
                            assert(out@[i] == old_out[i]);
                        }
                    }
                    assert forall|j: int|
                        0 <= j < k + 1 && (#[trigger] s[j]).0.num != 0 implies exists|i: int|
                        0 <= i < idx.len() && #[trigger] idx[i] == j by {
                        if j == k {
                            assert(idx[idx.len() - 1] == j);
                        } else {
                            let i = choose|i: int| 0 <= i < old_idx.len() && #[trigger] old_idx[i] == j;
                            assert(idx[i] == j);
                        }
                    }
                }
            }
            k = k + 1;
        }
        proof {
            let o = monos_view(out@);
            assert(sorted_degrees(o)) by {
                assert forall|a: int, b: int| #![trigger o[a], o[b]] 0 <= a < b < o.len() implies rat_lt(
                    o[b].1,
                    o[a].1,
                ) by {
                    assert(o[a] == s[idx[a]]);
                    assert(o[b] == s[idx[b]]);
                    assert(idx[a] < idx[b]);
                    assert(rat_lt(s[idx[b]].1, s[idx[a]].1));
                }
            }
            assert forall|i: int| 0 <= i < s.len() implies (#[trigger] s[i]).0.canonical() by {
                assert(s[i] == self.0@[i]@);
                assert(self.0@[i].wf());
            }
            assert forall|d: Rat| #[trigger] coeff_of(o, d) == coeff_of(s, d) by {
                lemma_clean_coeffs(s, o, idx, d);
            }
        }
        self.0 = out;
    }

    /// Internal method to set the coefficient of the monomial at index `i`.
    fn set_coeff(&mut self, i: usize, c: Number)
        requires
            old(self).wf(),
            i < old(self)@.len(),
            c.wf(),
        ensures
            final(self).wf(),
            final(self)@ == old(self)@.update(i as int, (c@, old(self)@[i as int].1)),
            forall|d: Rat| #[trigger] coeff_of(final(self)@, d) == if d == old(self)@[i as int].1 {
                c@
            } else {
                coeff_of(old(self)@, d)
            },
    {
        assert(self@[i as int] == self.0@[i as int]@);
        assert(self.0@[i as int].wf());
        let degree = self.0[i].degree.clone();
        let ghost s = self@;
        let ghost v = self.0@;
        let m = Monomial { coeff: c, degree };
        self.0.set(i, m);
        proof {
            assert(self.0@ == v.update(i as int, m));
            assert(self@ =~= s.update(i as int, (c@, s[i as int].1)));
            assert forall|d: Rat| #[trigger] coeff_of(self@, d) == if d == s[i as int].1 {
                c@
            } else {
                coeff_of(s, d)
            } by {
                lemma_coeff_of_update(s, i as int, c@, d);
            }
            assert forall|j: int| 0 <= j < self.0@.len() implies (#[trigger] self.0@[j]).wf() by {
                if j != i {
                    assert(self.0@[j] == v[j]);
                }
            }
            lemma_coeff_of_update(s, i as int, c@, rat_zero());
        }
    }

    /// Internal method to insert a monomial at index `i`.
    fn insert_at(&mut self, i: usize, m: Monomial)
        requires
            old(self).monos_ok(),
            m.wf(),
            i <= old(self)@.len(),
            sorted_degrees(old(self)@.insert(i as int, m@)),
        ensures
            final(self).wf(),
            final(self)@ == old(self)@.insert(i as int, m@),
    {
        let ghost v = self.0@;
        let ghost mm = m;
        self.0.insert(i, m);
        proof {
            assert(self.0@ == v.insert(i as int, mm));
            assert(self@ =~= monos_view(v).insert(i as int, mm@));
            assert forall|j: int| 0 <= j < self.0@.len() implies (#[trigger] self.0@[j]).wf() by {
                if j < i {
                    assert(self.0@[j] == v[j]);
                } else if j > i {
                    assert(self.0@[j] == v[j - 1]);
                }
            }
        }
    }

    /// Internal method to get the index of the monomial with the given degree,
    /// inserting one with a zero coefficient if it does not exist.
    fn get_or_insert(&mut self, degree: &Number) -> (i: usize)
        requires
            old(self).wf(),
            degree.wf(),
        ensures
            final(self).wf(),
            i < final(self)@.len(),
            final(self)@[i as int].1 == degree@,
            forall|d: Rat| #[trigger] coeff_of(final(self)@, d) == coeff_of(old(self)@, d),
            final(self)@.len() <= old(self)@.len() + 1,
            integer_degrees(old(self)@) && degree@.den == 1 ==> integer_degrees(final(self)@),
            forall|k: int| 0 <= k < final(self)@.len() ==> (#[trigger] final(self)@[k]).1 == degree@ || has_degree(
                old(self)@,
                final(self)@[k].1,
            ),
    {
        match self.search(degree) {
            Ok(i) => {
                assert forall|k: int| 0 <= k < self@.len() implies (#[trigger] self@[k]).1 == degree@ || has_degree(
                    self@,
                    self@[k].1,
                ) by {}
                i
            },
            Err(i) => {
                let ghost s = self@;
                let m = Monomial { coeff: Number::zero(), degree: degree.clone() };
                proof {
                    lemma_sorted_insert(s, i as int, m@);
                }
                self.insert_at(i, m);
                proof {
                    assert(self@[i as int] == m@);
                    assert forall|k: int| 0 <= k < self@.len() implies (#[trigger] self@[k]).1 == degree@ || has_degree(
                        s,
                        self@[k].1,
                    ) by {
                        if k < i {
                            assert(self@[k] == s[k]);
                        } else if k > i {
                            assert(self@[k] == s[k - 1]);
                        }
                    }
                    if integer_degrees(s) && degree@.den == 1 {
                        assert forall|k: int| 0 <= k < self@.len() implies (#[trigger] self@[k]).1.den == 1 by {
                            if k < i {
                                assert(self@[k] == s[k]);
                            } else if k > i {
                                assert(self@[k] == s[k - 1]);
                            }
                        }
                    }
                    assert forall|d: Rat| #[trigger] coeff_of(self@, d) == coeff_of(s, d) by {
                        lemma_coeff_of_insert(s, i as int, m@, d);
                        if d == degree@ {
                            lemma_coeff_of_absent(s, d);
                        }
                    }
                }
                i
            },
        }
    }
}

/// Inserting a pair at the position that `search` reports keeps the degrees
/// sorted.
proof fn lemma_sorted_insert(s: Seq<(Rat, Rat)>, i: int, e: (Rat, Rat))
    requires
        sorted_degrees(s),
        0 <= i <= s.len(),
        forall|j: int| 0 <= j < i ==> rat_lt(e.1, #[trigger] s[j].1),
        forall|j: int| i <= j < s.len() ==> rat_lt(#[trigger] s[j].1, e.1),
    ensures
        sorted_degrees(s.insert(i, e)),
        forall|j: int| 0 <= j < s.len() ==> (#[trigger] s[j]).1 != e.1,
{
    let t = s.insert(i, e);
    assert forall|a: int, b: int| #![trigger t[a], t[b]] 0 <= a < b < t.len() implies rat_lt(
        t[b].1,
        t[a].1,
    ) by {
        if a < i && b < i {
            assert(t[a] == s[a] && t[b] == s[b]);
        } else if a < i && b == i {
            assert(t[a] == s[a]);
        } else if a < i {
            assert(t[a] == s[a] && t[b] == s[b - 1]);
            assert(rat_lt(s[b - 1].1, s[a].1));
        } else if a == i {
            assert(t[b] == s[b - 1]);
        } else {
            assert(t[a] == s[a - 1] && t[b] == s[b - 1]);
        }
    }
    assert forall|j: int| 0 <= j < s.len() implies (#[trigger] s[j]).1 != e.1 by {
        if j < i {
            assert(rat_lt(e.1, s[j].1));
        } else {
            assert(rat_lt(s[j].1, e.1));
        }
    }
}

/// Every pair of the sequence holds canonical numbers.
pub open spec fn canonical_pairs(s: Seq<(Rat, Rat)>) -> bool {
    forall|i: int| 0 <= i < s.len() ==> (#[trigger] s[i]).0.canonical() && s[i].1.canonical()
}

/// The coefficient of `d` after adding (`sub == false`) or subtracting the
/// first `k` pairs of `q` to `p`, one degree at a time.
pub open spec fn partial_sum_coeff(p: Seq<(Rat, Rat)>, q: Seq<(Rat, Rat)>, k: int, d: Rat, sub: bool) -> Rat {
    if exists|j: int| 0 <= j < k && (#[trigger] q[j]).1 == d {
        if sub {
            rat_sub(coeff_of(p, d), coeff_of(q, d))
        } else {
            rat_add(coeff_of(p, d), coeff_of(q, d))
        }
    } else {
        coeff_of(p, d)
    }
}

/// The coefficients of a sequence of canonical pairs are canonical.
pub proof fn lemma_coeff_of_canonical(s: Seq<(Rat, Rat)>, d: Rat)
    requires
        canonical_pairs(s),
    ensures
        coeff_of(s, d).canonical(),
{
    if has_degree(s, d) {
        let j = choose|j: int| 0 <= j < s.len() && (#[trigger] s[j]).1 == d;
        assert(s[j].0.canonical());
    } else {
        crate::rational::lemma_small_canonical(0);
    }
}

impl Polynomial {
    /// The numbers of a well-formed polynomial are canonical.
    pub proof fn lemma_canonical(&self)
        requires
            self.wf(),
        ensures
            canonical_pairs(self@),
            forall|d: Rat| (#[trigger] coeff_of(self@, d)).canonical(),
    {
        assert forall|i: int| 0 <= i < self@.len() implies (#[trigger] self@[i]).0.canonical()
            && self@[i].1.canonical() by {
            assert(self@[i] == self.0@[i]@);
            assert(self.0@[i].wf());
        }
        assert forall|d: Rat| (#[trigger] coeff_of(self@, d)).canonical() by {
            lemma_coeff_of_canonical(self@, d);
        }
    }

    /// Adds a monomial in place.
    pub fn add_assign_mono(&mut self, rhs: Monomial)
        requires
            old(self).wf(),
            rhs.wf(),
        ensures
            final(self).wf(),
            nonzero_coeffs(final(self)@),
            forall|d: Rat| #[trigger] coeff_of(final(self)@, d) == if d == rhs@.1 {
                rat_add(coeff_of(old(self)@, d), rhs@.0)
            } else {
                coeff_of(old(self)@, d)
            },
    {
        let ghost s = self@;
        let ghost r = rhs@;
        proof {
            self.lemma_canonical();
        }
        match self.search(&rhs.degree) {
            Ok(i) => {
                assert(self@[i as int] == self.0@[i as int]@);
                assert(self.0@[i as int].wf());
                let c = self.0[i].coeff.clone().add(&rhs.coeff);
                proof {
                    lemma_coeff_of_at(s, i as int);
                }
                self.set_coeff(i, c);
            },
            Err(i) => {
                proof {
                    lemma_sorted_insert(s, i as int, r);
                    lemma_coeff_of_absent(s, r.1);
                    lemma_add_zero(r.0);
                }
                self.insert_at(i, rhs);
                proof {
                    assert forall|d: Rat| #[trigger] coeff_of(self@, d) == if d == r.1 {
                        rat_add(coeff_of(s, d), r.0)
                    } else {
                        coeff_of(s, d)
                    } by {
                        lemma_coeff_of_insert(s, i as int, r, d);
                    }
                }
            },
        }
        self.clean();
    }

    /// Subtracts a monomial in place.
    pub fn sub_assign_mono(&mut self, rhs: Monomial)
        requires
            old(self).wf(),
            rhs.wf(),
        ensures
            final(self).wf(),
            nonzero_coeffs(final(self)@),
            forall|d: Rat| #[trigger] coeff_of(final(self)@, d) == if d == rhs@.1 {
                rat_sub(coeff_of(old(self)@, d), rhs@.0)
            } else {
                coeff_of(old(self)@, d)
            },
    {
        let ghost s = self@;
        let ghost r = rhs@;
        proof {
            self.lemma_canonical();
        }
        match self.search(&rhs.degree) {
            Ok(i) => {
                assert(self@[i as int] == self.0@[i as int]@);
                assert(self.0@[i as int].wf());
                let c = self.0[i].coeff.clone().sub(&rhs.coeff);
                proof {
                    lemma_coeff_of_at(s, i as int);
                }
                self.set_coeff(i, c);
            },
            Err(i) => {
                let m = rhs.neg();
                proof {
                    lemma_sorted_insert(s, i as int, m@);
                    lemma_coeff_of_absent(s, r.1);
                    lemma_add_zero(r.0);
                }
                self.insert_at(i, m);
                proof {
                    assert forall|d: Rat| #[trigger] coeff_of(self@, d) == if d == r.1 {
                        rat_sub(coeff_of(s, d), r.0)
                    } else {
                        coeff_of(s, d)
                    } by {
                        lemma_coeff_of_insert(s, i as int, m@, d);
                    }
                }
            },
        }
        self.clean();
    }

    /// Adds a number to the constant term in place; adding zero changes
    /// nothing.
    pub fn add_assign_num(&mut self, rhs: Number)
        requires
            old(self).wf(),
            rhs.wf(),
        ensures
            final(self).wf(),
            rhs@.num == 0 ==> final(self)@ == old(self)@,
            rhs@.num != 0 ==> nonzero_coeffs(final(self)@),
            forall|d: Rat| #[trigger] coeff_of(final(self)@, d) == if d == rat_zero() {
                rat_add(coeff_of(old(self)@, d), rhs@)
            } else {
                coeff_of(old(self)@, d)
            },
    {
        proof {
            self.lemma_canonical();
        }
        if rhs.is_zero() {
            proof {
                lemma_canonical_zero(rhs@);
                lemma_add_zero(coeff_of(self@, rat_zero()));
            }
            return ;
        }
        self.add_assign_mono(Monomial::constant(rhs));
    }

    /// Subtracts a number from the constant term in place; subtracting zero
    /// changes nothing.
    pub fn sub_assign_num(&mut self, rhs: Number)
        requires
            old(self).wf(),
            rhs.wf(),
        ensures
            final(self).wf(),
            rhs@.num == 0 ==> final(self)@ == old(self)@,
            rhs@.num != 0 ==> nonzero_coeffs(final(self)@),
            forall|d: Rat| #[trigger] coeff_of(final(self)@, d) == if d == rat_zero() {
                rat_sub(coeff_of(old(self)@, d), rhs@)
            } else {
                coeff_of(old(self)@, d)
            },
    {
        proof {
            self.lemma_canonical();
        }
        if rhs.is_zero() {
            proof {
                lemma_canonical_zero(rhs@);
                lemma_add_zero(coeff_of(self@, rat_zero()));
            }
            return ;
        }
        self.sub_assign_mono(Monomial::constant(rhs));
    }

    /// Adds (`sub == false`) or subtracts the monomials of `rhs` one by one.
    fn add_sub_assign_poly(&mut self, rhs: Polynomial, sub: bool)
        requires
            old(self).wf(),
            rhs.wf(),
        ensures
            final(self).wf(),
            rhs@.len() > 0 ==> nonzero_coeffs(final(self)@),
            rhs@.len() == 0 ==> final(self)@ == old(self)@,
            forall|d: Rat| #[trigger] coeff_of(final(self)@, d) == partial_sum_coeff(
                old(self)@,
                rhs@,
                rhs@.len() as int,
                d,
                sub,
            ),
    {
        let ghost s = self@;
        let ghost q = rhs@;
        proof {
            rhs.lemma_canonical();
        }
        let n = rhs.0.len();
        let mut k: usize = 0;
        while k < n
            invariant
                self.wf(),
                rhs.wf(),
                q == rhs@,
                n == q.len(),
                n == rhs.0@.len(),
                k <= n,
                canonical_pairs(q),
                k > 0 ==> nonzero_coeffs(self@),
                k == 0 ==> self@ == s,
                forall|d: Rat| #[trigger] coeff_of(self@, d) == partial_sum_coeff(s, q, k as int, d, sub),
            decreases n - k,
        {
            assert(q[k as int] == rhs.0@[k as int]@);
            assert(rhs.0@[k as int].wf());
            let m = rhs.0[k].clone();
            let ghost cur = self@;
            if sub {
                self.sub_assign_mono(m);
            } else {
                self.add_assign_mono(m);
            }
            proof {
                lemma_coeff_of_at(q, k as int);
                assert forall|d: Rat| #[trigger] coeff_of(self@, d) == partial_sum_coeff(
                    s,
                    q,
                    k + 1,
                    d,
                    sub,
                ) by {
                    if d == q[k as int].1 {
                        assert forall|j: int| 0 <= j < k implies (#[trigger] q[j]).1 != d by {
                            assert(rat_lt(q[k as int].1, q[j].1));
                        }
                        assert(coeff_of(cur, d) == partial_sum_coeff(s, q, k as int, d, sub));
                    } else {
                        assert(coeff_of(cur, d) == partial_sum_coeff(s, q, k as int, d, sub));
                        if exists|j: int| 0 <= j < k + 1 && (#[trigger] q[j]).1 == d {
                            let j = choose|j: int| 0 <= j < k + 1 && (#[trigger] q[j]).1 == d;
                            assert(j < k);
                        }
                    }
                }
            }
            k = k + 1;
        }
        proof {
            if n == 0 {
            }
        }
    }

    /// Adds a polynomial in place: the coefficients of equal degrees add up.
    pub fn add_assign_poly(&mut self, rhs: Polynomial)
        requires
            old(self).wf(),
            rhs.wf(),
        ensures
            final(self).wf(),
            rhs@.len() > 0 ==> nonzero_coeffs(final(self)@),
            rhs@.len() == 0 ==> final(self)@ == old(self)@,
            forall|d: Rat| #[trigger] coeff_of(final(self)@, d) == rat_add(
                coeff_of(old(self)@, d),
                coeff_of(rhs@, d),
            ),
            nonzero_coeffs(old(self)@) ==> final(self)@ == poly_add(old(self)@, rhs@),
    {
        let ghost s = self@;
        let ghost q = rhs@;
        proof {
            self.lemma_canonical();
        }
        self.add_sub_assign_poly(rhs, false);
        proof {
            assert forall|d: Rat| #[trigger] coeff_of(self@, d) == rat_add(coeff_of(s, d), coeff_of(q, d)) by {
                if !has_degree(q, d) {
                    lemma_add_zero(coeff_of(s, d));
                } else {
                    let j = choose|j: int| 0 <= j < q.len() && (#[trigger] q[j]).1 == d;
                    assert(partial_sum_coeff(s, q, q.len() as int, d, false) == rat_add(coeff_of(s, d), coeff_of(q, d)));
                }
            }
            self.lemma_canonical();
            if nonzero_coeffs(s) {
                lemma_poly_add(self@, s, q);
            }
        }
    }

    /// Subtracts a polynomial in place: the coefficients of equal degrees
    /// subtract.
    pub fn sub_assign_poly(&mut self, rhs: Polynomial)
        requires
            old(self).wf(),
            rhs.wf(),
        ensures
            final(self).wf(),
            rhs@.len() > 0 ==> nonzero_coeffs(final(self)@),
            rhs@.len() == 0 ==> final(self)@ == old(self)@,
            forall|d: Rat| #[trigger] coeff_of(final(self)@, d) == rat_sub(
                coeff_of(old(self)@, d),
                coeff_of(rhs@, d),
            ),
            nonzero_coeffs(old(self)@) ==> final(self)@ == poly_sub(old(self)@, rhs@),
    {
        let ghost s = self@;
        let ghost q = rhs@;
        proof {
            self.lemma_canonical();
        }
        self.add_sub_assign_poly(rhs, true);
        proof {
            assert forall|d: Rat| #[trigger] coeff_of(self@, d) == rat_sub(coeff_of(s, d), coeff_of(q, d)) by {
                if !has_degree(q, d) {
                    lemma_add_zero(coeff_of(s, d));
                } else {
                    let j = choose|j: int| 0 <= j < q.len() && (#[trigger] q[j]).1 == d;
                    assert(partial_sum_coeff(s, q, q.len() as int, d, true) == rat_sub(coeff_of(s, d), coeff_of(q, d)));
                }
            }
            self.lemma_canonical();
            if nonzero_coeffs(s) {
                lemma_poly_sub(self@, s, q);
            }
        }
    }
}

/// The pairs of `p` with coefficients multiplied by `m.0` and degrees raised
/// by `m.1`: the product of `p` with the monomial `m`.
pub open spec fn shift_scale(p: Seq<(Rat, Rat)>, m: (Rat, Rat)) -> Seq<(Rat, Rat)> {
    p.map_values(|e: (Rat, Rat)| (rat_mul(e.0, m.0), rat_add(e.1, m.1)))
}

/// The pairs of `p` with coefficients divided by `m.0` and degrees lowered
/// by `m.1`: the quotient of `p` by the monomial `m`.
pub open spec fn shift_div(p: Seq<(Rat, Rat)>, m: (Rat, Rat)) -> Seq<(Rat, Rat)> {
    p.map_values(|e: (Rat, Rat)| (rat_div(e.0, m.0), rat_sub(e.1, m.1)))
}

/// The pairs of `p` with coefficients multiplied by `c`.
pub open spec fn scale(p: Seq<(Rat, Rat)>, c: Rat) -> Seq<(Rat, Rat)> {
    p.map_values(|e: (Rat, Rat)| (rat_mul(e.0, c), e.1))
}

/// The pairs of `p` with coefficients divided by `c`.
pub open spec fn scale_div(p: Seq<(Rat, Rat)>, c: Rat) -> Seq<(Rat, Rat)> {
    p.map_values(|e: (Rat, Rat)| (rat_div(e.0, c), e.1))
}

/// The pairs of `p` with degrees lowered by `d`.
pub open spec fn lower_degrees(p: Seq<(Rat, Rat)>, d: Rat) -> Seq<(Rat, Rat)> {
    p.map_values(|e: (Rat, Rat)| (e.0, rat_sub(e.1, d)))
}

/// The pairs of `p` with coefficients negated.
pub open spec fn negate(p: Seq<(Rat, Rat)>) -> Seq<(Rat, Rat)> {
    p.map_values(|e: (Rat, Rat)| (rat_neg(e.0), e.1))
}

/// The coefficient of `d` in the product of `p` and `q`: the sum, over the
/// monomials `m` of `q` in order, of the coefficients of `d` in `p * m`.
pub open spec fn product_coeff(p: Seq<(Rat, Rat)>, q: Seq<(Rat, Rat)>, d: Rat) -> Rat
    decreases q.len(),
{
    if q.len() == 0 {
        rat_zero()
    } else {
        rat_add(product_coeff(p, q.drop_last(), d), coeff_of(shift_scale(p, q.last()), d))
    }
}

/// The sum of the coefficients of the pairs of degree `d`, in order.
pub open spec fn sum_coeff(s: Seq<(Rat, Rat)>, d: Rat) -> Rat
    decreases s.len(),
{
    if s.len() == 0 {
        rat_zero()
    } else if s.last().1 == d {
        rat_add(sum_coeff(s.drop_last(), d), s.last().0)
    } else {
        sum_coeff(s.drop_last(), d)
    }
}

/// The gcd of all the coefficients, folded from zero in order.
pub open spec fn coeff_gcd(s: Seq<(Rat, Rat)>) -> Rat
    decreases s.len(),
{
    if s.len() == 0 {
        rat_zero()
    } else {
        crate::rational::rat_gcd(coeff_gcd(s.drop_last()), s.last().0)
    }
}

impl Clone for Polynomial {
    fn clone(&self) -> (r: Self)
        ensures
            r@ == self@,
            self.wf() ==> r.wf(),
    {
        let mut v: Vec<Monomial> = Vec::new();
        let n = self.0.len();
        for k in 0..n
            invariant
                n == self.0@.len(),
                v@.len() == k,
                forall|j: int| 0 <= j < k ==> (#[trigger] v@[j])@ == self.0@[j]@,
                forall|j: int| 0 <= j < k ==> self.0@[j].wf() ==> (#[trigger] v@[j]).wf(),
        {
            v.push(self.0[k].clone());
        }
        let r = Polynomial(v);
        proof {
            assert(r@ =~= self@);
        }
        r
    }
}

impl Polynomial {
    /// Internal method that applies a change to every monomial: `op` 0
    /// multiplies and 1 divides by the number `c`; 2 multiplies and 3 divides
    /// by the monomial `m`; 4 negates; 5 lowers the degree by that of `m`.
    fn map_monomials(&mut self, op: u8, c: &Number, m: &Monomial)
        requires
            old(self).monos_ok(),
            op <= 5,
            c.wf(),
            m.wf(),
            op == 1 ==> c@.num != 0,
            op == 3 ==> m@.0.num != 0,
        ensures
            op == 5 ==> final(self)@ == lower_degrees(old(self)@, m@.1),
            final(self).monos_ok(),
            op == 0 ==> final(self)@ == scale(old(self)@, c@),
            op == 1 ==> final(self)@ == scale_div(old(self)@, c@),
            op == 2 ==> final(self)@ == shift_scale(old(self)@, m@),
            op == 3 ==> final(self)@ == shift_div(old(self)@, m@),
            op == 4 ==> final(self)@ == negate(old(self)@),
    {
        let ghost s = self@;
        let mut v: Vec<Monomial> = Vec::new();
        let n = self.0.len();
        for k in 0..n
            invariant
                n == self.0@.len(),
                s == self@,
                self.monos_ok(),
                op <= 5,
                c.wf(),
                m.wf(),
                op == 1 ==> c@.num != 0,
                op == 3 ==> m@.0.num != 0,
                v@.len() == k,
                monos_wf(v@),
                forall|j: int| 0 <= j < k ==> op == 0 ==> (#[trigger] v@[j])@ == scale(s, c@)[j],
                forall|j: int| 0 <= j < k ==> op == 1 ==> (#[trigger] v@[j])@ == scale_div(s, c@)[j],
                forall|j: int| 0 <= j < k ==> op == 2 ==> (#[trigger] v@[j])@ == shift_scale(s, m@)[j],
                forall|j: int| 0 <= j < k ==> op == 3 ==> (#[trigger] v@[j])@ == shift_div(s, m@)[j],
                forall|j: int| 0 <= j < k ==> op == 4 ==> (#[trigger] v@[j])@ == negate(s)[j],
                forall|j: int| 0 <= j < k ==> op == 5 ==> (#[trigger] v@[j])@ == lower_degrees(s, m@.1)[j],
        {
            assert(s[k as int] == self.0@[k as int]@);
            assert(self.0@[k as int].wf());
            let x = self.0[k].clone();
            let y = if op == 0 {
                x.mul_num(c)
            } else if op == 1 {
                x.div_num(c)
            } else if op == 2 {
                x.mul_mono(m)
            } else if op == 3 {
                x.div_mono(m)
            } else if op == 4 {
                x.neg()
            } else {
                Monomial { coeff: x.coeff, degree: x.degree.sub(&m.degree) }
            };
            let ghost old_v = v@;
            v.push(y);
            proof {
                assert forall|j: int| 0 <= j < v@.len() implies (#[trigger] v@[j]).wf() by {
                    if j < k {
                        assert(v@[j] == old_v[j]);
                    }
                }
            }
        }
        self.0 = v;
        proof {
            if op == 0 {
                assert(self@ =~= scale(s, c@));
            } else if op == 1 {
                assert(self@ =~= scale_div(s, c@));
            } else if op == 2 {
                assert(self@ =~= shift_scale(s, m@));
            } else if op == 3 {
                assert(self@ =~= shift_div(s, m@));
            } else if op == 4 {
                assert(self@ =~= negate(s));
            } else {
                assert(self@ =~= lower_degrees(s, m@.1));
            }
        }
    }

    /// Multiplies every coefficient by a number in place. Multiplying by zero
    /// leaves zero coefficients in place.
    pub fn mul_assign_num(&mut self, rhs: &Number)
        requires
            old(self).wf(),
            rhs.wf(),
        ensures
            final(self).wf(),
            final(self)@ == scale(old(self)@, rhs@),
    {
        let m = Monomial { coeff: Number::one(), degree: Number::zero() };
        self.map_monomials(0, rhs, &m);
    }

    /// Divides every coefficient by a non-zero number in place.
    pub fn div_assign_num(&mut self, rhs: &Number)
        requires
            old(self).wf(),
            rhs.wf(),
            rhs@.num != 0,
        ensures
            final(self).wf(),
            final(self)@ == scale_div(old(self)@, rhs@),
    {
        let m = Monomial { coeff: Number::one(), degree: Number::zero() };
        self.map_monomials(1, rhs, &m);
    }

    /// Negates every coefficient in place.
    pub fn neg_assign(&mut self)
        requires
            old(self).wf(),
        ensures
            final(self).wf(),
            final(self)@ == negate(old(self)@),
    {
        let m = Monomial { coeff: Number::one(), degree: Number::zero() };
        let c = Number::one();
        self.map_monomials(4, &c, &m);
    }

    /// Multiplies every monomial by a monomial in place: the degrees are all
    /// raised by the same amount, so they stay sorted.
    pub fn mul_assign_mono(&mut self, rhs: &Monomial)
        requires
            old(self).wf(),
            rhs.wf(),
        ensures
            final(self).wf(),
            final(self)@ == shift_scale(old(self)@, rhs@),
    {
        let ghost s = self@;
        proof {
            self.lemma_canonical();
        }
        let c = Number::one();
        self.map_monomials(2, &c, rhs);
        proof {
            let t = self@;
            assert forall|a: int, b: int| #![trigger t[a], t[b]] 0 <= a < b < t.len() implies rat_lt(
                t[b].1,
                t[a].1,
            ) by {
                assert(rat_lt(s[b].1, s[a].1));
                lemma_lt_add(s[b].1, s[a].1, rhs@.1);
            }
        }
    }

    /// Divides every monomial by a monomial with a non-zero coefficient in
    /// place: the degrees are all lowered by the same amount, so they stay
    /// sorted.
    pub fn div_assign_mono(&mut self, rhs: &Monomial)
        requires
            old(self).wf(),
            rhs.wf(),
            rhs@.0.num != 0,
        ensures
            final(self).wf(),
            final(self)@ == shift_div(old(self)@, rhs@),
    {
        let ghost s = self@;
        proof {
            self.lemma_canonical();
        }
        let c = Number::one();
        self.map_monomials(3, &c, rhs);
        proof {
            let t = self@;
            assert forall|a: int, b: int| #![trigger t[a], t[b]] 0 <= a < b < t.len() implies rat_lt(
                t[b].1,
                t[a].1,
            ) by {
                assert(rat_lt(s[b].1, s[a].1));
                lemma_lt_sub(s[b].1, s[a].1, rhs@.1);
            }
        }
    }

    /// Multiplies by another polynomial in place: the sum of the products
    /// with each of its monomials.
    pub fn mul_assign_poly(&mut self, rhs: &Polynomial)
        requires
            old(self).wf(),
            rhs.wf(),
        ensures
            final(self).wf(),
            nonzero_coeffs(final(self)@),
            forall|d: Rat| #[trigger] coeff_of(final(self)@, d) == product_coeff(old(self)@, rhs@, d),
    {
        let mut old = Polynomial::zero();
        std::mem::swap(self, &mut old);
        let ghost p = old@;
        let ghost q = rhs@;
        let n = rhs.0.len();
        for k in 0..n
            invariant
                n == rhs.0@.len(),
                q == rhs@,
                p == old@,
                old.wf(),
                rhs.wf(),
                self.wf(),
                nonzero_coeffs(self@),
                forall|d: Rat| #[trigger] coeff_of(self@, d) == product_coeff(p, q.take(k as int), d),
        {
            assert(q[k as int] == rhs.0@[k as int]@);
            assert(rhs.0@[k as int].wf());
            let mut t = old.clone();
            t.mul_assign_mono(&rhs.0[k]);
            let ghost cur = self@;
            let ghost tv = t@;
            self.add_assign_poly(t);
            proof {
                assert(q.take(k + 1).drop_last() =~= q.take(k as int));
                assert(q.take(k + 1).last() == q[k as int]);
                if tv.len() == 0 {
                    assert(self@ == cur);
                }
            }
        }
        proof {
            assert(q.take(n as int) =~= q);
        }
    }

    /// Returns the degree of the polynomial, or `None` for the zero
    /// polynomial.
    pub fn degree(&self) -> (r: Option<&Number>)
        requires
            self.wf(),
        ensures
            r is None <==> self@.len() == 0,
            r matches Some(d) ==> d.wf() && d@ == self@[0].1 && forall|i: int|
                0 < i < self@.len() ==> rat_lt(#[trigger] self@[i].1, d@),
    {
        if self.0.len() == 0 {
            None
        } else {
            assert(self@[0] == self.0@[0]@);
            assert(self.0@[0].wf());
            assert forall|i: int| 0 < i < self@.len() implies rat_lt(#[trigger] self@[i].1, self@[0].1) by {
                assert(rat_lt(self@[i].1, self@[0].1));
            }
            Some(&self.0[0].degree)
        }
    }

    /// Returns the leading coefficient of the polynomial, or `None` for the
    /// zero polynomial.
    pub fn leading(&self) -> (r: Option<&Number>)
        requires
            self.wf(),
        ensures
            r is None <==> self@.len() == 0,
            r matches Some(c) ==> c.wf() && c@ == self@[0].0,
    {
        if self.0.len() == 0 {
            None
        } else {
            assert(self@[0] == self.0@[0]@);
            assert(self.0@[0].wf());
            Some(&self.0[0].coeff)
        }
    }

    /// Returns whether this is the zero polynomial.
    pub fn is_zero(&self) -> (r: bool)
        ensures
            r == (self@.len() == 0),
    {
        self.0.len() == 0
    }

    /// Returns whether this polynomial can be represented as a constant
    /// number: it is zero, or one monomial of degree zero.
    pub fn is_constant(&self) -> (r: bool)
        requires
            self.wf(),
        ensures
            r == (self@.len() == 0 || (self@.len() == 1 && self@[0].1.num == 0)),
    {
        if self.0.len() == 0 {
            return true;
        }
        assert(self@[0] == self.0@[0]@);
        assert(self.0@[0].wf());
        self.0.len() == 1 && self.0[0].degree.is_zero()
    }

    /// Returns whether this polynomial is the number negative one (`-1`).
    pub fn is_neg_one(&self) -> (r: bool)
        requires
            self.wf(),
        ensures
            r == (self@.len() == 1 && self@[0].0 == rat_int(-1) && self@[0].1.num == 0),
    {
        if self.0.len() != 1 {
            return false;
        }
        assert(self@[0] == self.0@[0]@);
        assert(self.0@[0].wf());
        self.0[0].coeff.is_neg_one() && self.0[0].degree.is_zero()
    }

    /// Returns whether this polynomial is the number one (`1`).
    pub fn is_one(&self) -> (r: bool)
        requires
            self.wf(),
        ensures
            r == (self@.len() == 1 && self@[0].0 == rat_one() && self@[0].1.num == 0),
    {
        if self.0.len() != 1 {
            return false;
        }
        assert(self@[0] == self.0@[0]@);
        assert(self.0@[0].wf());
        self.0[0].coeff.is_one() && self.0[0].degree.is_zero()
    }

    /// Returns the monomial with the given degree, or `None` if the degree is
    /// not present.
    pub fn get(&self, degree: &Number) -> (r: Option<&Monomial>)
        requires
            self.wf(),
            degree.wf(),
        ensures
            r is Some <==> has_degree(self@, degree@),
            r matches Some(m) ==> m.wf() && m@ == (coeff_of(self@, degree@), degree@),
    {
        match self.search(degree) {
            Ok(i) => {
                assert(self@[i as int] == self.0@[i as int]@);
                assert(self.0@[i as int].wf());
                proof {
                    lemma_coeff_of_at(self@, i as int);
                }
                Some(&self.0[i])
            },
            Err(i) => {
                assert forall|j: int| 0 <= j < self@.len() implies (#[trigger] self@[j]).1 != degree@ by {
                    if j < i {
                        assert(rat_lt(degree@, self@[j].1));
                    } else {
                        assert(rat_lt(self@[j].1, degree@));
                    }
                }
                None
            },
        }
    }

    /// Returns the contained monomials.
    pub fn monomials(&self) -> (r: &[Monomial])
        ensures
            monos_view(r@) == self@,
            self.wf() ==> monos_wf(r@),
    {
        self.0.as_slice()
    }

    /// Creates a new polynomial from the given monomials, adding them one by
    /// one to zero.
    pub fn new(monomials: Vec<Monomial>) -> (r: Self)
        requires
            monos_wf(monomials@),
        ensures
            r.wf(),
            nonzero_coeffs(r@),
            forall|d: Rat| #[trigger] coeff_of(r@, d) == sum_coeff(monos_view(monomials@), d),
    {
        let ghost s = monos_view(monomials@);
        let mut r = Polynomial::zero();
        let n = monomials.len();
        for k in 0..n
            invariant
                n == monomials@.len(),
                s == monos_view(monomials@),
                monos_wf(monomials@),
                r.wf(),
                nonzero_coeffs(r@),
                forall|d: Rat| #[trigger] coeff_of(r@, d) == sum_coeff(s.take(k as int), d),
        {
            assert(monomials@[k as int].wf());
            r.add_assign_mono(monomials[k].clone());
            proof {
                assert(s.take(k + 1).drop_last() =~= s.take(k as int));
                assert(s.take(k + 1).last() == s[k as int]);
            }
        }
        proof {
            assert(s.take(n as int) =~= s);
        }
        r
    }

    /// Splits the constant part from the polynomial in place and returns it.
    pub fn split_constant_mut(&mut self) -> (r: Number)
        requires
            old(self).wf(),
        ensures
            final(self).wf(),
            r.wf(),
            r@ == coeff_of(old(self)@, rat_zero()),
            !has_degree(final(self)@, rat_zero()),
            has_degree(old(self)@, rat_zero()) ==> exists|i: int|
                0 <= i < old(self)@.len() && #[trigger] old(self)@[i].1 == rat_zero()
                    && final(self)@ == old(self)@.remove(i),
            !has_degree(old(self)@, rat_zero()) ==> final(self)@ == old(self)@,
    {
        let z = Number::zero();
        let ghost s = self@;
        let ghost v = self.0@;
        match self.search(&z) {
            Ok(i) => {
                assert(self@[i as int] == self.0@[i as int]@);
                assert(self.0@[i as int].wf());
                proof {
                    lemma_coeff_of_at(s, i as int);
                }
                let m = self.0.remove(i);
                proof {
                    assert(self@ =~= s.remove(i as int));
                    assert forall|j: int| 0 <= j < self.0@.len() implies (#[trigger] self.0@[j]).wf() by {
                        if j < i {
                            assert(self.0@[j] == v[j]);
                        } else {
                            assert(self.0@[j] == v[j + 1]);
                        }
                    }
                    assert forall|a: int, b: int| #![trigger self@[a], self@[b]]
                        0 <= a < b < self@.len() implies rat_lt(self@[b].1, self@[a].1) by {
                        let a2 = if a < i { a } else { a + 1 };
                        let b2 = if b < i { b } else { b + 1 };
                        assert(rat_lt(s[b2].1, s[a2].1));
                    }
                    assert forall|j: int| 0 <= j < self@.len() implies (#[trigger] self@[j]).1 != rat_zero() by {
                        let j2 = if j < i { j } else { j + 1 };
                        assert(self@[j] == s[j2]);
                        if j2 < i {
                            assert(rat_lt(s[i as int].1, s[j2].1));
                        } else {
                            assert(rat_lt(s[j2].1, s[i as int].1));
                        }
                    }
                }
                m.coeff
            },
            Err(i) => {
                assert forall|j: int| 0 <= j < self@.len() implies (#[trigger] self@[j]).1 != rat_zero() by {
                    if j < i {
                        assert(rat_lt(z@, self@[j].1));
                    } else {
                        assert(rat_lt(self@[j].1, z@));
                    }
                }
                z
            },
        }
    }

    /// Splits the constant part from the polynomial and returns it.
    pub fn split_constant(self) -> (r: (Number, Self))
        requires
            self.wf(),
        ensures
            r.1.wf(),
            r.0.wf(),
            r.0@ == coeff_of(self@, rat_zero()),
            !has_degree(r.1@, rat_zero()),
            has_degree(self@, rat_zero()) ==> exists|i: int|
                0 <= i < self@.len() && #[trigger] self@[i].1 == rat_zero() && r.1@ == self@.remove(i),
            !has_degree(self@, rat_zero()) ==> r.1@ == self@,
    {
        let mut p = self;
        let c = p.split_constant_mut();
        (c, p)
    }

    /// Creates a monic polynomial in place by dividing all monomials by the
    /// leading coefficient, which must not be zero. Returns `None` if the
    /// polynomial is zero or already monic.
    pub fn monic_mut(&mut self) -> (r: Option<Number>)
        requires
            old(self).wf(),
            old(self)@.len() > 0 ==> old(self)@[0].0.num != 0,
        ensures
            final(self).wf(),
            r is None <==> (old(self)@.len() == 0 || old(self)@[0].0 == rat_one()),
            r is None ==> final(self)@ == old(self)@,
            r matches Some(f) ==> f.wf() && f@ == old(self)@[0].0 && final(self)@ == scale_div(
                old(self)@,
                f@,
            ),
            final(self)@.len() > 0 ==> final(self)@[0].0 == rat_one(),
    {
        let factor = match self.leading() {
            None => return None,
            Some(c) => c.clone(),
        };
        if factor.is_one() {
            return None;
        }
        proof {
            self.lemma_canonical();
            crate::rational::lemma_div_self(factor@);
        }
        self.div_assign_num(&factor);
        Some(factor)
    }

    /// Creates a monic polynomial by dividing all monomials by the leading
    /// coefficient, which must not be zero. Returns `None` if the polynomial
    /// is zero or already monic.
    pub fn monic(self) -> (r: Option<(Number, Self)>)
        requires
            self.wf(),
            self@.len() > 0 ==> self@[0].0.num != 0,
        ensures
            r is None <==> (self@.len() == 0 || self@[0].0 == rat_one()),
            r matches Some(x) ==> x.0.wf() && x.1.wf() && x.0@ == self@[0].0 && x.1@ == scale_div(
                self@,
                x.0@,
            ) && x.1@[0].0 == rat_one(),
    {
        let mut p = self;
        match p.monic_mut() {
            Some(f) => Some((f, p)),
            None => None,
        }
    }

    /// Extracts the common factor of all monomials in place: the gcd of the
    /// coefficients. Returns `None`, changing nothing, if that factor is at
    /// most one (the polynomial is zero or has coprime coefficients).
    pub fn factor_mut(&mut self) -> (r: Option<Number>)
        requires
            old(self).wf(),
        ensures
            final(self).wf(),
            r is None <==> coeff_gcd(old(self)@).num <= coeff_gcd(old(self)@).den,
            r is None ==> final(self)@ == old(self)@,
            r matches Some(f) ==> f.wf() && f@ == coeff_gcd(old(self)@) && final(self)@ == scale_div(
                old(self)@,
                f@,
            ),
    {
        let ghost s = self@;
        let mut factor = Number::zero();
        let n = self.0.len();
        for k in 0..n
            invariant
                n == self.0@.len(),
                s == self@,
                self.wf(),
                factor.wf(),
                factor@ == coeff_gcd(s.take(k as int)),
        {
            assert(s[k as int] == self.0@[k as int]@);
            assert(self.0@[k as int].wf());
            factor = factor.gcd(&self.0[k].coeff);
            proof {
                assert(s.take(k + 1).drop_last() =~= s.take(k as int));
                assert(s.take(k + 1).last() == s[k as int]);
            }
        }
        proof {
            assert(s.take(n as int) =~= s);
        }
        let one = Number::one();
        assert(rat_lt(one@, factor@) == (factor@.den < factor@.num)) by {
            assert(1 * factor@.den == factor@.den);
            assert(factor@.num * 1 == factor@.num);
        }
        if factor.compare(&one) != Comparison::Greater {
            return None;
        }
        self.div_assign_num(&factor);
        Some(factor)
    }

    /// Extracts the common factor of all monomials: the gcd of the
    /// coefficients. Returns `None` if that factor is at most one.
    pub fn factor(self) -> (r: Option<(Number, Self)>)
        requires
            self.wf(),
        ensures
            r is None <==> coeff_gcd(self@).num <= coeff_gcd(self@).den,
            r matches Some(x) ==> x.0.wf() && x.1.wf() && x.0@ == coeff_gcd(self@) && x.1@ == scale_div(
                self@,
                x.0@,
            ),
    {
        let mut p = self;
        match p.factor_mut() {
            Some(f) => Some((f, p)),
            None => None,
        }
    }
}

impl Polynomial {
    /// Calculates division in place and returns the remainder, or `None`
    /// (changing nothing) if the divisor is zero. The divisor's leading
    /// coefficient must not be zero. Long division: from the dividend's degree
    /// down in steps of one while at or above the divisor's degree, the
    /// coefficient of that degree is divided by the divisor's leading
    /// coefficient and the divisor's other terms, times it, are subtracted at
    /// their shifted degrees. The monomials above the divisor's degree then
    /// form the quotient, lowered by that degree; the rest is the remainder.
    /// Where every degree lies an integer apart from the divisor's leading
    /// degree, the quotient times the divisor plus the remainder is the
    /// dividend.
    pub fn div_rem_mut(&mut self, divisor: &Self) -> (r: Option<Self>)
        requires
            old(self).wf(),
            divisor.wf(),
            divisor@.len() > 0 ==> divisor@[0].0.num != 0,
        ensures
            r is None <==> divisor@.len() == 0,
            r is None ==> final(self)@ == old(self)@,
            final(self).wf(),
            r matches Some(rem) ==> rem.wf() && nonzero_coeffs(rem@) && nonzero_coeffs(final(self)@)
                && forall|i: int| 0 <= i < rem@.len() ==> rat_lt(#[trigger] rem@[i].1, divisor@[0].1),
            r matches Some(rem) ==> (integer_degrees(old(self)@) && integer_degrees(divisor@) ==> (
            is_euclid_division(old(self)@, divisor@, final(self)@, rem@) && (final(self)@, rem@)
                == division_of(old(self)@, divisor@))),
            r matches Some(rem) ==> (aligned_degrees(old(self)@, divisor@) ==> is_division(
                old(self)@,
                divisor@,
                final(self)@,
                rem@,
            ) && integer_degrees(final(self)@) && forall|i: int|
                0 <= i < final(self)@.len() ==> (#[trigger] final(self)@[i]).1.num >= 0),
            r matches Some(rem) ==> long_quotient(old(self)@, divisor@, final(self)@) && long_remainder(
                old(self)@,
                divisor@,
                rem@,
            ),
    {
        if divisor.0.len() == 0 {
            return None;
        }
        let ghost o = self@;
        let ghost dv = divisor@;
        let ghost ints = integer_degrees(o) && integer_degrees(dv);
        let ghost nd = dv[0].1.num;
        let ghost al = aligned_degrees(o, dv);
        let ghost ld = dv[0].1;
        let ghost o2 = lower_degrees(o, ld);
        let ghost dv2 = lower_degrees(dv, ld);
        assert(divisor@[0] == divisor.0@[0]@);
        assert(divisor.0@[0].wf());
        proof {
            divisor.lemma_canonical();
            self.lemma_canonical();
            crate::rational::lemma_small_canonical(0);
            lemma_lowered(o, ld);
            lemma_lowered(dv, ld);
            if al {
                lemma_lowered_arith(ld, ld, ld);
                assert(dv2[0].1 == rat_sub(ld, ld));
                assert(divisor_ok(dv2, 0));
            }
        }
        let normalizer = &divisor.0[0];
        let mut degree = match self.degree() {
            None => {
                let z = Self::zero();
                assert(z@ =~= o);
                proof {
                    if ints {
                        lemma_division_of_zero(o, dv, nd);
                        assert(divisor_ok(dv, nd));
                        assert(is_euclid_division(o, dv, o, z@));
                        lemma_division_of(o, dv, nd, o, z@);
                    }
                    if al {
                        lemma_division_of_zero(o2, dv2, 0);
                        assert(o2 =~= o);
                        lemma_unlowered(o, dv, o, o, ld);
                        assert(is_division(o, dv, o, z@));
                    }
                }
                return Some(z);
            },
            Some(d) => d.clone(),
        };
        let ghost d0 = degree@.num;
        let ghost lf = long_division(o, dv);
        let ghost e0 = rat_sub(degree@, ld).num;
        proof {
            if ints {
                lemma_division_start(o, dv, nd);
            }
            if al {
                assert(o2[0].1 == rat_sub(degree@, ld));
                assert(lower_degrees(self@, ld) == o2);
                lemma_division_start(o2, dv2, 0);
            }
        }
        let n = divisor.0.len();
        while degree.compare(&normalizer.degree) != Comparison::Less
            invariant
                self.wf(),
                divisor.wf(),
                n == divisor.0@.len(),
                n > 0,
                normalizer == &divisor.0@[0],
                normalizer.wf(),
                normalizer@.0.num != 0,
                normalizer@ == dv[0],
                degree.wf(),
                dv == divisor@,
                nd == dv[0].1.num,
                ints == (integer_degrees(o) && integer_degrees(dv)),
                ints ==> divisor_ok(dv, nd),
                ints ==> integer_degrees(self@) && degree@.den == 1 && degree@.num <= d0 && (degree@.num == d0
                    || degree@.num >= nd - 1) && (forall|y: int|
                    y > d0 ==> #[trigger] int_coeff(self@, y) == rat_zero()) && div_invariant(
                    o,
                    self@,
                    degree@.num,
                    dv,
                    nd,
                ),
                long_div(coeff_fn(self@), dv, degree@) == lf,
                al ==> divisor_ok(dv2, 0) && integer_degrees(o2) && o2 == lower_degrees(o, ld) && dv2 == lower_degrees(
                    dv,
                    ld,
                ) && ld == dv[0].1 && ld.canonical(),
                al ==> integer_degrees(lower_degrees(self@, ld)) && rat_sub(degree@, ld).den == 1 && rat_sub(
                    degree@,
                    ld,
                ).num <= e0 && (rat_sub(degree@, ld).num == e0 || rat_sub(degree@, ld).num >= -1) && (forall|y: int|
                    y > e0 ==> #[trigger] int_coeff(lower_degrees(self@, ld), y) == rat_zero()) && div_invariant(
                    o2,
                    lower_degrees(self@, ld),
                    rat_sub(degree@, ld).num,
                    dv2,
                    0,
                ),
            decreases crate::rational::rat_steps(degree@, normalizer@.1),
        {
            let ghost s0 = self@;
            let ghost dk = degree@.num;
            let ghost sk = rat_sub(degree@, ld).num;
            proof {
                self.lemma_canonical();
                if al {
                    lemma_int_canonical(rat_sub(degree@, ld));
                    lemma_shift_back(degree@, ld);
                    lemma_small_canonical(sk);
                    lemma_lowered(s0, ld);
                    lemma_lowered_arith(degree@, degree@, ld);
                    crate::rational::lemma_int_ops(sk, 0);
                    assert(sk >= 0);
                }
            }
            proof {
                if ints {
                    lemma_int_canonical(degree@);
                    lemma_int_canonical(normalizer@.1);
                    crate::rational::lemma_int_ops(dk, nd);
                }
            }
            let i = self.get_or_insert(&degree);
            let ghost s_mid = self@;
            assert(self@[i as int] == self.0@[i as int]@);
            assert(self.0@[i as int].wf());
            proof {
                lemma_coeff_of_at(self@, i as int);
            }
            let coeff = self.0[i].coeff.clone().div(&normalizer.coeff);
            let ghost cq = coeff@;
            let ghost dr = degree@;
            self.set_coeff(i, coeff.clone());
            assert forall|x: Rat| #[trigger] coeff_of(self@, x) == div_step(coeff_fn(s0), dv, dr, 1)(x) by {}
            proof {
                if ints {
                    assert forall|y: int| #[trigger] int_coeff(self@, y) == if y == dk {
                        cq
                    } else {
                        int_coeff(s0, y)
                    } by {}
                    lemma_step_start(s0, self@, dv, dk, nd, cq);
                }
                if al {
                    self.lemma_canonical();
                    lemma_lowered(self@, ld);
                    lemma_aligned_keep(s0, s_mid, dr, ld);
                    assert forall|k: int| 0 <= k < self@.len() implies (#[trigger] self@[k]).1 == dr || has_degree(
                        s_mid,
                        self@[k].1,
                    ) by {
                        assert(self@[k].1 == s_mid[k].1);
                    }
                    lemma_aligned_keep(s_mid, self@, dr, ld);
                    assert forall|y: int| #[trigger] int_coeff(lower_degrees(self@, ld), y) == if y == sk {
                        cq
                    } else {
                        int_coeff(lower_degrees(s0, ld), y)
                    } by {
                        lemma_small_canonical(y);
                        lemma_shift_back(rat_int(y), ld);
                        let x = rat_add(rat_int(y), ld);
                        assert(coeff_of(self@, x) == div_step(coeff_fn(s0), dv, dr, 1)(x));
                        if x == dr {
                            assert(rat_int(y) == rat_sub(dr, ld));
                        }
                    }
                    lemma_step_start(lower_degrees(s0, ld), lower_degrees(self@, ld), dv2, sk, 0, cq);
                }
            }
            for t in 1..n
                invariant
                    self.wf(),
                    divisor.wf(),
                    n == divisor.0@.len(),
                    degree.wf(),
                    coeff.wf(),
                    coeff@ == cq,
                    n > 0,
                    normalizer == &divisor.0@[0],
                    normalizer.wf(),
                    normalizer@ == dv[0],
                    dv == divisor@,
                    nd == dv[0].1.num,
                    degree@.num == dk,
                    ints ==> divisor_ok(dv, nd),
                    ints ==> degree@ == rat_int(dk),
                    ints ==> integer_degrees(self@) && forall|y: int| #[trigger] int_coeff(self@, y) == stepped(
                        s0,
                        dv,
                        dk,
                        nd,
                        cq,
                        t as int,
                        y,
                    ),
                    degree@ == dr,
                    cq == rat_div(coeff_of(s0, dr), dv[0].0),
                    forall|x: Rat| #[trigger] coeff_of(self@, x) == div_step(coeff_fn(s0), dv, dr, t as nat)(x),
                    al ==> divisor_ok(dv2, 0) && dv2 == lower_degrees(dv, ld) && ld == dv[0].1 && ld.canonical()
                        && canonical_pairs(s0) && sorted_degrees(s0),
                    al ==> rat_sub(degree@, ld) == rat_int(sk) && dr == rat_add(rat_int(sk), ld) && integer_degrees(
                        lower_degrees(self@, ld),
                    ) && forall|y: int| #[trigger] int_coeff(lower_degrees(self@, ld), y) == stepped(
                        lower_degrees(s0, ld),
                        dv2,
                        sk,
                        0,
                        cq,
                        t as int,
                        y,
                    ),
            {
                assert(divisor.0@[t as int].wf());
                assert(divisor@[t as int] == divisor.0@[t as int]@);
                let ghost sb = self@;
                proof {
                    self.lemma_canonical();
                }
                let term = &divisor.0[t];
                let d = degree.clone().add(&term.degree).sub(&normalizer.degree);
                let ghost yt = dk + dv[t as int].1.num - nd;
                proof {
                    if ints {
                        lemma_int_canonical(dv[t as int].1);
                        lemma_int_canonical(dv[0].1);
                        crate::rational::lemma_int_ops(dk, dv[t as int].1.num);
                        crate::rational::lemma_int_ops(dk + dv[t as int].1.num, nd);
                        assert(d@ == rat_int(yt));
                    }
                }
                let ghost dt = rat_sub(dv[t as int].1, ld).num;
                proof {
                    if al {
                        assert(dv2[t as int].1 == rat_sub(dv[t as int].1, ld));
                        lemma_int_canonical(dv2[t as int].1);
                        lemma_shift_back(dv[t as int].1, ld);
                        lemma_small_canonical(sk);
                        lemma_small_canonical(dt);
                        lemma_lowered_arith(rat_int(sk), rat_int(dt), ld);
                        crate::rational::lemma_int_ops(sk, dt);
                        assert(rat_sub(d@, ld) == rat_int(sk + dt));
                        lemma_shift_back(d@, ld);
                        assert(d@ == rat_add(rat_int(sk + dt), ld));
                    }
                }
                let j = self.get_or_insert(&d);
                let ghost s_mid2 = self@;
                assert(self@[j as int] == self.0@[j as int]@);
                assert(self.0@[j as int].wf());
                proof {
                    lemma_coeff_of_at(self@, j as int);
                }
                let c = self.0[j].coeff.clone().sub(&coeff.clone().mul(&term.coeff));
                self.set_coeff(j, c);
                assert forall|x: Rat| #[trigger] coeff_of(self@, x) == div_step(coeff_fn(s0), dv, dr, (t + 1) as nat)(
                    x,
                ) by {
                    assert(coeff_of(sb, x) == div_step(coeff_fn(s0), dv, dr, t as nat)(x));
                }
                proof {
                    if ints {
                        assert forall|y: int| #[trigger] int_coeff(self@, y) == if y == yt {
                            rat_sub(int_coeff(sb, y), rat_mul(cq, dv[t as int].0))
                        } else {
                            int_coeff(sb, y)
                        } by {}
                        lemma_step_term(s0, sb, self@, dv, dk, nd, cq, t as int);
                    }
                    if al {
                        self.lemma_canonical();
                        lemma_lowered(self@, ld);
                        lemma_lowered(sb, ld);
                        lemma_aligned_keep(sb, s_mid2, d@, ld);
                        assert forall|k: int| 0 <= k < self@.len() implies (#[trigger] self@[k]).1 == d@ || has_degree(
                            s_mid2,
                            self@[k].1,
                        ) by {
                            assert(self@[k].1 == s_mid2[k].1);
                        }
                        lemma_aligned_keep(s_mid2, self@, d@, ld);
                        assert forall|y: int| #[trigger] int_coeff(lower_degrees(self@, ld), y) == if y == sk + dt {
                            rat_sub(int_coeff(lower_degrees(sb, ld), y), rat_mul(cq, dv2[t as int].0))
                        } else {
                            int_coeff(lower_degrees(sb, ld), y)
                        } by {
                            lemma_small_canonical(y);
                            lemma_shift_back(rat_int(y), ld);
                            let x = rat_add(rat_int(y), ld);
                            assert(coeff_of(self@, x) == div_step(coeff_fn(s0), dv, dr, (t + 1) as nat)(x));
                            assert(coeff_of(sb, x) == div_step(coeff_fn(s0), dv, dr, t as nat)(x));
                            if x == d@ {
                                assert(rat_int(y) == rat_sub(d@, ld));
                            }
                            if y == sk + dt {
                                assert(x == d@);
                            }
                            assert(dv2[t as int].0 == dv[t as int].0);
                        }
                        lemma_step_term(
                            lower_degrees(s0, ld),
                            lower_degrees(sb, ld),
                            lower_degrees(self@, ld),
                            dv2,
                            sk,
                            0,
                            cq,
                            t as int,
                        );
                    }
                }
            }
            proof {
                if ints {
                    self.lemma_canonical();
                    assert(cq == crate::rational::rat_div(int_coeff(s0, dk), dv[0].0));
                    lemma_step_done(o, s0, self@, dv, dk, nd, cq);
                    assert forall|y: int| y > d0 implies #[trigger] int_coeff(self@, y) == rat_zero() by {
                        assert(int_coeff(self@, y) == int_coeff(s0, y));
                    }
                }
                if al {
                    self.lemma_canonical();
                    lemma_lowered(self@, ld);
                    assert(int_coeff(lower_degrees(s0, ld), sk) == coeff_of(s0, dr));
                    lemma_step_done(o2, lower_degrees(s0, ld), lower_degrees(self@, ld), dv2, sk, 0, cq);
                    assert forall|y: int| y > e0 implies #[trigger] int_coeff(lower_degrees(self@, ld), y)
                        == rat_zero() by {
                        assert(int_coeff(lower_degrees(self@, ld), y) == int_coeff(lower_degrees(s0, ld), y));
                    }
                }
                crate::rational::lemma_steps_decrease(degree@, normalizer@.1);
            }
            assert(coeff_fn(self@) =~= div_step(coeff_fn(s0), dv, dr, dv.len()));
            assert(long_div(coeff_fn(s0), dv, dr) == long_div(
                div_step(coeff_fn(s0), dv, dr, dv.len()),
                dv,
                rat_sub(dr, rat_one()),
            ));
            degree = degree.sub(&Number::one());
            proof {
                if ints {
                    crate::rational::lemma_int_ops(dk, 1);
                }
                if al {
                    lemma_small_canonical(1);
                    lemma_lowered_arith(rat_int(sk), rat_one(), ld);
                    crate::rational::lemma_int_ops(sk, 1);
                    assert(rat_sub(degree@, ld) == rat_int(sk - 1));
                }
            }
        }
        assert(coeff_fn(self@) == lf);
        let ghost s_loop = self@;
        let ghost top = degree@.num;
        let ghost top2 = rat_sub(degree@, ld).num;
        proof {
            self.lemma_canonical();
            if ints {
                lemma_int_canonical(degree@);
                lemma_int_canonical(normalizer@.1);
                crate::rational::lemma_int_ops(top, nd);
            }
            if al {
                lemma_lowered(s_loop, ld);
                lemma_int_canonical(rat_sub(degree@, ld));
                lemma_lowered_arith(degree@, degree@, ld);
                crate::rational::lemma_int_ops(top2, 0);
                assert(top2 < 0);
            }
        }
        self.clean();
        let index = match self.search(&normalizer.degree) {
            Ok(i) => {
                let len = self.0.len();
                assert(i < len);
                i + 1
            },
            Err(i) => i,
        };
        let ghost s = self@;
        let ghost v = self.0@;
        let ghost ndr = normalizer@.1;
        assert forall|j: int| 0 <= j < index ==> !rat_lt(#[trigger] s[j].1, ndr) by {
            if 0 <= j < index && index > 0 && s[index - 1].1 == ndr && j < index - 1 {
                assert(rat_lt(s[index - 1].1, s[j].1));
            }
        }
        assert forall|j: int| index <= j < s.len() ==> rat_lt(#[trigger] s[j].1, ndr) by {
            if index <= j < s.len() && index > 0 && s[index - 1].1 == ndr {
                assert(rat_lt(s[j].1, s[index - 1].1));
            }
        }
        assert forall|y: Rat| #[trigger] coeff_of(s, y) == lf(y) by {
            assert(coeff_of(s_loop, y) == coeff_fn(s_loop)(y));
        }
        proof {
            self.lemma_canonical();
            if ints {
                assert(integer_degrees(s)) by {
                    assert forall|k: int| 0 <= k < s.len() implies (#[trigger] s[k]).1.den == 1 by {
                        lemma_coeff_of_at(s, k);
                        assert(coeff_of(s_loop, s[k].1) == s[k].0);
                        if !has_degree(s_loop, s[k].1) {
                            crate::rational::lemma_canonical_zero(s[k].0);
                        }
                    }
                }
                assert forall|j: int| 0 <= j < index implies (#[trigger] s[j]).1.num >= nd by {
                    lemma_int_canonical(s[j].1);
                    crate::rational::lemma_int_ops(s[j].1.num, nd);
                    if j < index - 1 || !(s[index - 1].1 == normalizer@.1) {
                        assert(rat_lt(normalizer@.1, s[j].1) || s[j].1 == normalizer@.1) by {
                            if index > 0 && s[index - 1].1 == normalizer@.1 && j < index - 1 {
                                assert(rat_lt(s[index - 1].1, s[j].1));
                            }
                        }
                    }
                }
                assert forall|j: int| index <= j < s.len() implies (#[trigger] s[j]).1.num < nd by {
                    lemma_int_canonical(s[j].1);
                    crate::rational::lemma_int_ops(s[j].1.num, nd);
                    if index > 0 && s[index - 1].1 == normalizer@.1 {
                        assert(rat_lt(s[j].1, s[index - 1].1));
                    }
                }
                lemma_div_final(o, s_loop, s, dv, top, d0, nd, index as int);
            }
            if al {
                let big = lower_degrees(s, ld);
                lemma_lowered(s, ld);
                assert(integer_degrees(big)) by {
                    assert forall|k: int| 0 <= k < big.len() implies (#[trigger] big[k]).1.den == 1 by {
                        lemma_coeff_of_at(s, k);
                        assert(coeff_of(s_loop, s[k].1) == s[k].0);
                        if !has_degree(s_loop, s[k].1) {
                            crate::rational::lemma_canonical_zero(s[k].0);
                        }
                        let j = choose|j: int| 0 <= j < s_loop.len() && (#[trigger] s_loop[j]).1 == s[k].1;
                        assert(lower_degrees(s_loop, ld)[j].1.den == 1);
                    }
                }
                assert forall|d: Rat| #[trigger] coeff_of(big, d) == coeff_of(lower_degrees(s_loop, ld), d) by {
                    if d.canonical() {
                        lemma_shift_back(d, ld);
                        assert(coeff_of(s, rat_add(d, ld)) == coeff_of(s_loop, rat_add(d, ld)));
                    }
                }
                assert forall|j: int| 0 <= j < index implies (#[trigger] big[j]).1.num >= 0 by {
                    lemma_lowered_arith(s[j].1, s[j].1, ld);
                    lemma_int_canonical(big[j].1);
                    crate::rational::lemma_int_ops(big[j].1.num, 0);
                    assert(!rat_lt(s[j].1, ndr));
                }
                assert forall|j: int| index <= j < big.len() implies (#[trigger] big[j]).1.num < 0 by {
                    lemma_lowered_arith(s[j].1, s[j].1, ld);
                    lemma_int_canonical(big[j].1);
                    crate::rational::lemma_int_ops(big[j].1.num, 0);
                    assert(rat_lt(s[j].1, ndr));
                }
                lemma_div_final(o2, lower_degrees(s_loop, ld), big, dv2, top2, e0, 0, index as int);
            }
        }
        let rest = self.0.split_off(index);
        let remainder = Polynomial(rest);
        proof {
            assert(self@ =~= s.subrange(0, index as int));
            assert(remainder@ =~= s.subrange(index as int, s.len() as int));
            assert forall|j: int| 0 <= j < self.0@.len() implies (#[trigger] self.0@[j]).wf() by {
                assert(self.0@[j] == v[j]);
            }
            assert forall|j: int| 0 <= j < remainder.0@.len() implies (#[trigger] remainder.0@[j]).wf() by {
                assert(remainder.0@[j] == v[j + index]);
            }
            assert forall|a: int, b: int| #![trigger remainder@[a], remainder@[b]]
                0 <= a < b < remainder@.len() implies rat_lt(remainder@[b].1, remainder@[a].1) by {
                assert(remainder@[a] == s[a + index]);
                assert(remainder@[b] == s[b + index]);
            }
            assert forall|a: int, b: int| #![trigger self@[a], self@[b]]
                0 <= a < b < self@.len() implies rat_lt(self@[b].1, self@[a].1) by {
                assert(self@[a] == s[a]);
                assert(self@[b] == s[b]);
            }
            assert forall|j: int| 0 <= j < remainder@.len() implies rat_lt(
                #[trigger] remainder@[j].1,
                divisor@[0].1,
            ) by {
                assert(remainder@[j] == s[j + index]);
                if index > 0 && s[index - 1].1 == normalizer@.1 {
                    assert(rat_lt(s[j + index].1, s[index - 1].1));
                }
            }
            assert forall|j: int| 0 <= j < remainder@.len() implies (#[trigger] remainder@[j]).0.num != 0 by {
                assert(remainder@[j] == s[j + index]);
            }
            assert forall|j: int| 0 <= j < self@.len() implies (#[trigger] self@[j]).0.num != 0 by {
                assert(self@[j] == s[j]);
            }
        }
        let ghost q = self@;
        assert forall|y: Rat| y.canonical() implies #[trigger] coeff_of(remainder@, y) == (if rat_lt(y, ndr) {
            lf(y)
        } else {
            rat_zero()
        }) by {
            lemma_split_coeff(s, index as int, ndr, y);
        }
        assert forall|y: Rat| y.canonical() implies #[trigger] coeff_of(q, y) == (if rat_lt(y, ndr) {
            rat_zero()
        } else {
            lf(y)
        }) by {
            lemma_split_coeff(s, index as int, ndr, y);
        }
        let c = Number::one();
        proof {
            self.lemma_canonical();
        }
        self.map_monomials(5, &c, normalizer);
        proof {
            let t = self@;
            assert forall|a: int, b: int| #![trigger t[a], t[b]] 0 <= a < b < t.len() implies rat_lt(
                t[b].1,
                t[a].1,
            ) by {
                assert(rat_lt(q[b].1, q[a].1));
                lemma_lt_sub(q[b].1, q[a].1, normalizer@.1);
            }
            assert forall|j: int| 0 <= j < t.len() implies (#[trigger] t[j]).0.num != 0 by {
                assert(t[j].0 == q[j].0);
            }
            if ints {
                self.lemma_value();
                remainder.lemma_value();
                assert(is_euclid_division(o, dv, self@, remainder@));
                lemma_division_of(o, dv, nd, self@, remainder@);
            }
            if al {
                let big = lower_degrees(s, ld);
                let hq = s.subrange(0, index as int);
                lemma_lowered_arith(ld, ld, ld);
                assert(big.subrange(0, index as int) =~= lower_degrees(hq, ld));
                assert(lower_degrees(lower_degrees(hq, ld), dv2[0].1) =~= self@) by {
                    assert forall|k: int| 0 <= k < hq.len() implies #[trigger] lower_degrees(
                        lower_degrees(hq, ld),
                        dv2[0].1,
                    )[k] == self@[k] by {
                        assert(hq[k] == s[k]);
                        crate::rational::lemma_ops_canonical(s[k].1, ld);
                        lemma_add_zero(rat_sub(s[k].1, ld));
                    }
                }
                assert(big.subrange(index as int, big.len() as int) =~= lower_degrees(remainder@, ld));
                self.lemma_canonical();
                remainder.lemma_canonical();
                lemma_unlowered(o, dv, self@, remainder@, ld);
            }
            assert forall|y: Rat| y.canonical() implies #[trigger] coeff_of(self@, rat_sub(y, ndr)) == if rat_lt(
                y,
                ndr,
            ) {
                rat_zero()
            } else {
                lf(y)
            } by {
                assert(self@ == lower_degrees(q, ndr));
                assert(sorted_degrees(q));
                assert(canonical_pairs(q));
                assert(sorted_degrees(self@));
                assert(ndr.canonical());
                lemma_lowered_coeff(q, ndr, y);
                assert(coeff_of(q, y) == (if rat_lt(y, ndr) {
                    rat_zero()
                } else {
                    lf(y)
                }));
            }
        }
        Some(remainder)
    }

    /// Calculates division and remainder at the same time, returning `None`
    /// if the divisor is zero. The divisor's leading coefficient must not be
    /// zero.
    pub fn div_rem(self, divisor: &Self) -> (r: Option<(Self, Self)>)
        requires
            self.wf(),
            divisor.wf(),
            divisor@.len() > 0 ==> divisor@[0].0.num != 0,
        ensures
            r is None <==> divisor@.len() == 0,
            r matches Some(x) ==> x.0.wf() && x.1.wf() && nonzero_coeffs(x.0@) && nonzero_coeffs(
                x.1@,
            ) && forall|i: int| 0 <= i < x.1@.len() ==> rat_lt(#[trigger] x.1@[i].1, divisor@[0].1),
            r matches Some(x) ==> (integer_degrees(self@) && integer_degrees(divisor@) ==> (
            is_euclid_division(self@, divisor@, x.0@, x.1@) && (x.0@, x.1@) == division_of(self@, divisor@))),
            r matches Some(x) ==> (aligned_degrees(self@, divisor@) ==> is_division(self@, divisor@, x.0@, x.1@)
                && integer_degrees(x.0@) && forall|i: int| 0 <= i < x.0@.len() ==> (#[trigger] x.0@[i]).1.num >= 0),
            r matches Some(x) ==> long_quotient(self@, divisor@, x.0@) && long_remainder(self@, divisor@, x.1@),
    {
        let mut q = self;
        match q.div_rem_mut(divisor) {
            Some(rem) => Some((q, rem)),
            None => None,
        }
    }

    /// Divides by a non-zero polynomial in place, keeping the quotient.
    pub fn div_assign_poly(&mut self, rhs: &Self)
        requires
            old(self).wf(),
            rhs.wf(),
            rhs@.len() > 0,
            rhs@[0].0.num != 0,
        ensures
            final(self).wf(),
            nonzero_coeffs(final(self)@),
            integer_degrees(old(self)@) && integer_degrees(rhs@) ==> final(self)@ == division_of(
                old(self)@,
                rhs@,
            ).0,
            long_quotient(old(self)@, rhs@, final(self)@),
    {
        let _ = self.div_rem_mut(rhs);
    }

    /// Replaces this polynomial by its remainder modulo a non-zero polynomial.
    pub fn rem_assign_poly(&mut self, rhs: &Self)
        requires
            old(self).wf(),
            rhs.wf(),
            rhs@.len() > 0,
            rhs@[0].0.num != 0,
        ensures
            final(self).wf(),
            nonzero_coeffs(final(self)@),
            forall|i: int| 0 <= i < final(self)@.len() ==> rat_lt(#[trigger] final(self)@[i].1, rhs@[0].1),
            integer_degrees(old(self)@) && integer_degrees(rhs@) ==> final(self)@ == division_of(
                old(self)@,
                rhs@,
            ).1,
            long_remainder(old(self)@, rhs@, final(self)@),
    {
        match self.div_rem_mut(rhs) {
            Some(rem) => {
                *self = rem;
            },
            None => {},
        }
    }

    /// Returns the GCD of two polynomials in monic form (Euclid's algorithm:
    /// divide until the remainder is zero). The leading coefficients must not
    /// be zero. The loop stops after at most 2^64 - 1 divisions. For integer
    /// degrees, every common divisor of the two divides the result, and the
    /// result divides both once the algorithm has reached a zero remainder,
    /// which it does whenever the leading degree of `other` lies less than
    /// 2^64 - 1 above every degree of both.
    pub fn gcd(self, other: Self) -> (r: Self)
        requires
            self.wf(),
            other.wf(),
            self@.len() > 0 ==> self@[0].0.num != 0,
            other@.len() > 0 ==> other@[0].0.num != 0,
        ensures
            r.wf(),
            r@.len() > 0 ==> r@[0].0 == rat_one(),
            r@ == monic_value(euclid(self@, other@, u64::MAX as nat)),
            nonzero_coeffs(self@) && nonzero_coeffs(other@) ==> nonzero_coeffs(r@),
            integer_degrees(self@) && integer_degrees(other@) && euclid_ends(self@, other@, u64::MAX as nat)
                ==> divides(r@, self@) && divides(r@, other@),
            forall|lo: int| #[trigger] euclid_room(self@, other@, lo, u64::MAX as nat) ==> euclid_ends(
                self@,
                other@,
                u64::MAX as nat,
            ) && divides(r@, self@) && divides(r@, other@),
            integer_degrees(self@) && integer_degrees(other@) ==> forall|d: Seq<(Rat, Rat)>|
                int_poly(d) && #[trigger] divides(d, self@) && divides(d, other@) ==> divides(d, r@),
    {
        let ghost ints = integer_degrees(self@) && integer_degrees(other@);
        let ghost g = euclid(self@, other@, u64::MAX as nat);
        let ghost ends = euclid_ends(self@, other@, u64::MAX as nat);
        let ghost x0 = self@;
        let ghost y0 = other@;
        let ghost nz = nonzero_coeffs(self@) && nonzero_coeffs(other@);
        let ghost room = exists|lo: int| euclid_room(self@, other@, lo, u64::MAX as nat);
        let ghost lo = if room {
            choose|lo: int| euclid_room(self@, other@, lo, u64::MAX as nat)
        } else {
            0
        };
        proof {
            self.lemma_canonical();
            other.lemma_canonical();
            if room {
                assert(integer_degrees(self@));
                assert(integer_degrees(other@));
            }
        }
        let mut a = self;
        let mut b = other;
        let mut fuel: u64 = u64::MAX;
        while fuel > 0
            invariant
                a.wf(),
                b.wf(),
                a@.len() > 0 ==> a@[0].0.num != 0,
                b@.len() > 0 ==> b@[0].0.num != 0,
                euclid(a@, b@, fuel as nat) == g,
                euclid_ends(a@, b@, fuel as nat) == ends,
                room ==> ints && euclid_room(a@, b@, lo, fuel as nat),
                nz ==> nonzero_coeffs(a@) && nonzero_coeffs(b@),
                ints ==> integer_degrees(a@) && integer_degrees(b@),
                ints ==> int_poly(x0) && int_poly(y0) && canonical_pairs(a@) && canonical_pairs(b@),
                ints ==> forall|d: Seq<(Rat, Rat)>|
                    int_poly(d) && #[trigger] divides(d, x0) && divides(d, y0) ==> divides(d, a@) && divides(d, b@),
                ints ==> forall|d: Seq<(Rat, Rat)>|
                    int_poly(d) && #[trigger] divides(d, a@) && divides(d, b@) ==> divides(d, x0) && divides(d, y0),
            ensures
                a.wf(),
                a@.len() > 0 ==> a@[0].0.num != 0,
                a@ == g,
                nz ==> nonzero_coeffs(a@),
                ints ==> canonical_pairs(a@),
                ends ==> b@.len() == 0,
                room ==> ends,
                ints ==> forall|d: Seq<(Rat, Rat)>|
                    int_poly(d) && #[trigger] divides(d, x0) && divides(d, y0) ==> divides(d, a@) && divides(d, b@),
                ints ==> forall|d: Seq<(Rat, Rat)>|
                    int_poly(d) && #[trigger] divides(d, a@) && divides(d, b@) ==> divides(d, x0) && divides(d, y0),
            decreases fuel,
        {
            let ghost a0 = a@;
            let ghost b0 = b@;
            match a.div_rem_mut(&b) {
                Some(remainder) => {
                    proof {
                        remainder.lemma_canonical();
                        lemma_long_rem(a0, b0, remainder@);
                        assert(euclid(a0, b0, fuel as nat) == euclid(b0, remainder@, (fuel - 1) as nat));
                        assert(euclid_ends(a0, b0, fuel as nat) == euclid_ends(b0, remainder@, (fuel - 1) as nat));
                        if room {
                            lemma_rem_from(a0, b0, a@, remainder@, lo);
                            if remainder@.len() > 0 {
                                assert(rat_lt(remainder@[0].1, b0[0].1));
                                lemma_int_canonical(remainder@[0].1);
                                lemma_int_canonical(b0[0].1);
                                crate::rational::lemma_int_ops(remainder@[0].1.num, b0[0].1.num);
                            }
                        }
                        if ints {
                            let q = a@;
                            assert forall|d: Seq<(Rat, Rat)>|
                                int_poly(d) && #[trigger] divides(d, x0) && divides(d, y0) implies divides(d, b0)
                                && divides(d, remainder@) by {
                                lemma_divides_step(d, a0, b0, q, remainder@);
                            }
                            assert forall|d: Seq<(Rat, Rat)>|
                                int_poly(d) && #[trigger] divides(d, b0) && divides(d, remainder@) implies divides(d, x0)
                                && divides(d, y0) by {
                                lemma_divides_step(d, a0, b0, q, remainder@);
                            }
                        }
                    }
                    a = b;
                    b = remainder;
                },
                None => {
                    assert(a@ == a0);
                    assert(b@.len() == 0 ==> euclid_ends(a@, b@, fuel as nat));
                    break;
                },
            }
            fuel = fuel - 1;
        }
        let ghost g0 = a@;
        proof {
            a.lemma_canonical();
        }
        let f = a.monic_mut();
        proof {
            if nz {
                match &f {
                    Some(c) => {
                        crate::rational::lemma_small_canonical(1);
                        lemma_scale_nonzero(g0, c@);
                    },
                    None => {},
                }
            }
            if ints {
                a.lemma_canonical();
                if ends {
                    lemma_divides_self(g0);
                    assert(b@ =~= Seq::<(Rat, Rat)>::empty());
                    assert(divides(g0, x0) && divides(g0, y0));
                }
                match f {
                    Some(c) => {
                        crate::rational::lemma_small_canonical(1);
                        assert forall|d: Seq<(Rat, Rat)>| int_poly(d) && #[trigger] divides(d, x0) && divides(d, y0)
                            implies divides(d, a@) by {
                            lemma_divides_scale(d, g0, x0, c@);
                        }
                        if ends {
                            lemma_divides_scale(g0, g0, x0, c@);
                            lemma_divides_scale(g0, g0, y0, c@);
                        }
                    },
                    None => {},
                }
            }
        }
        a
    }

    /// Returns the GCD of two polynomials in monic form, along with their
    /// Bézout coefficients `(s, t, gcd)` (extended Euclid's algorithm). The
    /// leading coefficients must not be zero. The loop stops after at most
    /// 2^64 - 1 divisions. For integer degrees, `s * self + t * other` is
    /// `gcd`.
    #[verifier::spinoff_prover]
    pub fn gcd_ext(self, other: Self) -> (r: (Self, Self, Self))
        requires
            self.wf(),
            other.wf(),
            self@.len() > 0 ==> self@[0].0.num != 0,
            other@.len() > 0 ==> other@[0].0.num != 0,
        ensures
            r.0.wf(),
            r.1.wf(),
            r.2.wf(),
            r.2@.len() > 0 ==> r.2@[0].0 == rat_one(),
            other@.len() == 0 ==> r.1@.len() == 0,
            ({
                let g = euclid(self@, other@, u64::MAX as nat);
                let c = euclid_coeff(
                    self@,
                    other@,
                    seq![(rat_one(), rat_zero())],
                    Seq::empty(),
                    u64::MAX as nat,
                );
                let sa = poly_mul(self@, r.0@);
                &&& r.2@ == monic_value(g)
                &&& r.0@ == if g.len() == 0 || g[0].0 == rat_one() {
                    c
                } else {
                    scale_div(c, g[0].0)
                }
                &&& other@.len() > 0 ==> r.1@ == long_quot(
                    if sa.len() == 0 {
                        r.2@
                    } else {
                        poly_sub(r.2@, sa)
                    },
                    other@,
                )
            }),
            integer_degrees(self@) && integer_degrees(other@) ==> forall|x: Rat| #[trigger] coeff_of(r.2@, x)
                == rat_add(product_coeff(r.0@, self@, x), product_coeff(r.1@, other@, x)),
            nonzero_coeffs(r.0@),
            nonzero_coeffs(r.1@),
            nonzero_coeffs(self@) && nonzero_coeffs(other@) ==> nonzero_coeffs(r.2@),
            integer_degrees(self@) && integer_degrees(other@) && nonzero_coeffs(self@) && nonzero_coeffs(
                other@,
            ) ==> r.2@ == poly_add(poly_mul(r.0@, self@), poly_mul(r.1@, other@)),
    {
        let ghost ints = integer_degrees(self@) && integer_degrees(other@);
        let ghost g = euclid(self@, other@, u64::MAX as nat);
        let ghost c = euclid_coeff(
            self@,
            other@,
            seq![(rat_one(), rat_zero())],
            Seq::empty(),
            u64::MAX as nat,
        );
        let ghost a = self@;
        let ghost nz = nonzero_coeffs(self@) && nonzero_coeffs(other@);
        let ghost b = other@;
        let ghost mut ko: spec_fn(int) -> Rat = |y: int| rat_zero();
        let ghost mut kr: spec_fn(int) -> Rat = unit();
        let ghost mut top: int = 0;
        let mut old_r = self.clone();
        let mut r = other.clone();
        let mut old_s = Polynomial::from_number(Number::one());
        let mut s = Polynomial::zero();
        proof {
            crate::rational::lemma_small_canonical(0);
            crate::rational::lemma_small_canonical(1);
            assert(old_s@ =~= seq![(rat_one(), rat_zero())]);
            assert(s@ =~= Seq::<(Rat, Rat)>::empty());
            self.lemma_canonical();
            other.lemma_canonical();
            if ints {
                lemma_bezout_start(a, b);
            }
        }
        let mut fuel: u64 = u64::MAX;
        while fuel > 0
            invariant
                old_r.wf(),
                r.wf(),
                old_s.wf(),
                s.wf(),
                old_r@.len() > 0 ==> old_r@[0].0.num != 0,
                r@.len() > 0 ==> r@[0].0.num != 0,
                euclid(old_r@, r@, fuel as nat) == g,
                nz ==> nonzero_coeffs(old_r@) && nonzero_coeffs(r@),
                is_poly_value(old_s@) && is_poly_value(s@),
                euclid_coeff(old_r@, r@, old_s@, s@, fuel as nat) == c,
                ints ==> integer_degrees(old_r@) && integer_degrees(r@),
                ints ==> integer_degrees(old_s@) && integer_degrees(s@),
                ints ==> int_poly(a) && int_poly(b) && canonical_pairs(old_r@) && canonical_pairs(r@),
                ints ==> canonical_fn(ko) && canonical_fn(kr) && top >= 0 && bounded(ko, top) && bounded(kr, top),
                ints ==> bezout_rel(old_r@, old_s@, ko, a, b) && bezout_rel(r@, s@, kr, a, b),
            ensures
                old_r.wf(),
                old_s.wf(),
                old_r@.len() > 0 ==> old_r@[0].0.num != 0,
                old_r@ == g && is_poly_value(old_s@) && old_s@ == c,
                nz ==> nonzero_coeffs(old_r@),
                ints ==> integer_degrees(old_r@) && integer_degrees(old_s@),
                ints ==> int_poly(a) && int_poly(b) && canonical_pairs(old_r@),
                ints ==> canonical_fn(ko) && top >= 0 && bounded(ko, top) && bezout_rel(old_r@, old_s@, ko, a, b),
            decreases fuel,
        {
            let ghost a0 = old_r@;
            let ghost b0 = r@;
            let ghost s0 = old_s@;
            let ghost s1 = s@;
            match old_r.div_rem_mut(&r) {
                Some(remainder) => {
                    let quotient = old_r;
                    let ghost q = quotient@;
                    proof {
                        quotient.lemma_canonical();
                    }
                    old_r = r;
                    r = remainder;
                    let next_s = s.clone();
                    let mut t = quotient;
                    t.mul_assign_poly(&s);
                    let ghost tv = t@;
                    let mut u = old_s;
                    u.sub_assign_poly(t);
                    old_s = next_s;
                    s = u;
                    proof {
                        old_s.lemma_canonical();
                        s.lemma_canonical();
                        r.lemma_canonical();
                        lemma_long_rem(a0, b0, r@);
                        lemma_long_quot(a0, b0, q);
                        assert(is_poly_value(tv));
                        lemma_poly_mul(tv, q, s1);
                        assert(is_poly_value(s@));
                        lemma_poly_sub(s@, s0, tv);
                        assert(euclid(a0, b0, fuel as nat) == euclid(b0, r@, (fuel - 1) as nat));
                        assert(euclid_coeff(a0, b0, s0, s1, fuel as nat) == euclid_coeff(
                            b0,
                            r@,
                            s1,
                            s@,
                            (fuel - 1) as nat,
                        ));
                        if ints {
                            crate::rational::lemma_small_canonical(0);
                            crate::rational::lemma_add_zero(rat_zero());
                            assert forall|x: Rat| x.den != 1 implies #[trigger] coeff_of(tv, x) == rat_zero() by {
                                lemma_product_non_integer(q, s1, x);
                            }
                            lemma_integer_degrees(tv);
                            assert forall|x: Rat| x.den != 1 implies #[trigger] coeff_of(s@, x) == rat_zero() by {
                                division::lemma_coeff_non_integer(s0, x);
                                division::lemma_coeff_non_integer(tv, x);
                            }
                            lemma_integer_degrees(s@);
                            lemma_bezout_step(a, b, a0, b0, q, r@, s0, s1, tv, s@, ko, kr);
                            let dq: int = if q.len() > 0 {
                                q[0].1.num
                            } else {
                                0
                            };
                            assert forall|i: int| 0 <= i < q.len() implies 0 <= (#[trigger] q[i]).1.num <= dq by {
                                if i > 0 {
                                    assert(rat_lt(q[i].1, q[0].1));
                                    lemma_int_canonical(q[i].1);
                                    lemma_int_canonical(q[0].1);
                                    crate::rational::lemma_int_ops(q[i].1.num, q[0].1.num);
                                }
                            }
                            lemma_bounded_step(ko, kr, q, top, dq);
                            let k0 = ko;
                            let k1 = kr;
                            ko = k1;
                            kr = next_coeffs(k0, k1, q);
                            top = top + dq;
                        }
                    }
                },
                None => {
                    assert(old_r@ == a0);
                    break;
                },
            }
            fuel = fuel - 1;
        }
        let ghost s_pre = old_s@;
        let ghost g_pre = old_r@;
        match old_r.monic_mut() {
            Some(factor) => {
                proof {
                    crate::rational::lemma_small_canonical(1);
                }
                assert(factor@.num != 0);
                proof {
                    lemma_scale_nonzero(s_pre, factor@);
                    if nz {
                        lemma_scale_nonzero(g_pre, factor@);
                    }
                }
                old_s.div_assign_num(&factor);
                proof {
                    if ints {
                        lemma_bezout_scale(g_pre, s_pre, ko, a, b, factor@, top);
                        let k0 = ko;
                        ko = |y: int| rat_div(k0(y), factor@);
                    }
                }
            },
            None => {},
        }
        assert(old_s@ == if g.len() == 0 || g[0].0 == rat_one() {
            c
        } else {
            scale_div(c, g[0].0)
        });
        proof {
            if ints {
                old_r.lemma_canonical();
                old_s.lemma_canonical();
            }
        }
        let old_t = if other.is_zero() {
            let z = Polynomial::zero();
            proof {
                if ints {
                    assert(z@ =~= Seq::<(Rat, Rat)>::empty());
                    lemma_bezout_alone(a, b, old_r@, old_s@, ko);
                }
            }
            z
        } else {
            let mut x = self;
            let ghost sv = x@;
            x.mul_assign_poly(&old_s);
            let ghost xv = x@;
            let mut y = old_r.clone();
            y.sub_assign_poly(x);
            let ghost yv = y@;
            proof {
                old_s.lemma_canonical();
                old_r.lemma_canonical();
                y.lemma_canonical();
                assert(is_poly_value(xv));
                lemma_poly_mul(xv, sv, old_s@);
                if xv.len() > 0 {
                    lemma_poly_sub(yv, old_r@, xv);
                }
                if ints {
                    crate::rational::lemma_small_canonical(0);
                    crate::rational::lemma_add_zero(rat_zero());
                    assert forall|z: Rat| z.den != 1 implies #[trigger] coeff_of(xv, z) == rat_zero() by {
                        lemma_product_non_integer(sv, old_s@, z);
                    }
                    assert forall|z: Rat| z.den != 1 implies #[trigger] coeff_of(yv, z) == rat_zero() by {
                        division::lemma_coeff_non_integer(old_r@, z);
                    }
                    if xv.len() > 0 {
                        lemma_integer_degrees(yv);
                    } else {
                        assert(yv == old_r@);
                    }
                    assert(is_poly_value(xv));
                    lemma_poly_mul(xv, sv, old_s@);
                }
            }
            let ghost nd = other@[0].1.num;
            match y.div_rem_mut(&other) {
                Some(rem) => {
                    proof {
                        y.lemma_canonical();
                        other.lemma_canonical();
                        lemma_long_quot(yv, other@, y@);
                        if ints {
                            let p = poly_sub(old_r@, xv);
                            let cl = lemma_cleaned(yv);
                            lemma_poly_sub(cl, old_r@, xv);
                            assert(is_euclid_division(p, other@, y@, rem@)) by {
                                assert forall|z: Rat| #[trigger] coeff_of(p, z) == coeff_of(yv, z) by {
                                    assert(coeff_of(cl, z) == coeff_of(yv, z));
                                }
                            }
                            other.lemma_canonical();
                            assert(divisor_ok(other@, nd));
                            lemma_division_of(p, other@, nd, y@, rem@);
                            lemma_bezout_final(a, b, nd, old_r@, old_s@, ko, top, yv, y@, rem@);
                        }
                    }
                },
                None => {},
            }
            y
        };
        proof {
            if ints && nz {
                old_s.lemma_canonical();
                old_t.lemma_canonical();
                old_r.lemma_canonical();
                assert(forall|x: Rat| #[trigger] coeff_of(old_r@, x) == rat_add(
                    product_coeff(old_s@, a, x),
                    product_coeff(old_t@, b, x),
                ));
                lemma_bezout_poly(a, b, old_s@, old_t@, old_r@);
            }
        }
        (old_s, old_t, old_r)
    }
}

impl Polynomial {
    /// The polynomial of a number: zero, or that constant.
    pub fn from_number(value: Number) -> (r: Self)
        requires
            value.wf(),
        ensures
            r.wf(),
            nonzero_coeffs(r@),
            value@.num == 0 ==> r@.len() == 0,
            value@.num != 0 ==> r@ == seq![(value@, rat_zero())],
    {
        if value.is_zero() {
            Polynomial::zero()
        } else {
            Polynomial::from_monomial(Monomial::constant(value))
        }
    }

    /// The polynomial of one monomial; a zero coefficient gives zero.
    pub fn from_monomial(value: Monomial) -> (r: Self)
        requires
            value.wf(),
        ensures
            r.wf(),
            nonzero_coeffs(r@),
            value@.0.num == 0 ==> r@.len() == 0,
            value@.0.num != 0 ==> r@ == seq![value@],
    {
        let ghost m = value@;
        let mut p = Polynomial::zero();
        p.add_assign_mono(value);
        proof {
            crate::rational::lemma_add_zero(m.0);
            if m.0.num != 0 {
                assert(coeff_of(p@, m.1) == m.0);
                assert(has_degree(p@, m.1));
                let k = choose|k: int| 0 <= k < p@.len() && (#[trigger] p@[k]).1 == m.1;
                assert(p@.len() == 1) by {
                    if p@.len() > 1 {
                        let other = if k == 0 { 1int } else { 0int };
                        lemma_coeff_of_at(p@, other);
                        assert(p@[other].1 != m.1) by {
                            if other < k {
                                assert(rat_lt(p@[k].1, p@[other].1));
                            } else {
                                assert(rat_lt(p@[other].1, p@[k].1));
                            }
                        }
                        assert(coeff_of(Seq::<(Rat, Rat)>::empty(), p@[other].1) == rat_zero());
                    }
                }
                lemma_coeff_of_at(p@, 0);
                assert(p@ =~= seq![m]);
            } else {
                crate::rational::lemma_canonical_zero(m.0);
                if p@.len() > 0 {
                    lemma_coeff_of_at(p@, 0);
                    if p@[0].1 == m.1 {
                    } else {
                        assert(coeff_of(Seq::<(Rat, Rat)>::empty(), p@[0].1) == rat_zero());
                    }
                }
            }
        }
        p
    }
}

/// Dropping the first pair keeps the coefficients of the other degrees.
proof fn lemma_coeff_of_drop_first(s: Seq<(Rat, Rat)>, d: Rat)
    requires
        sorted_degrees(s),
        s.len() > 0,
        d != s[0].1,
    ensures
        sorted_degrees(s.drop_first()),
        coeff_of(s.drop_first(), d) == coeff_of(s, d),
{
    let t = s.drop_first();
    assert(sorted_degrees(t)) by {
        assert forall|a: int, b: int| #![trigger t[a], t[b]] 0 <= a < b < t.len() implies rat_lt(
            t[b].1,
            t[a].1,
        ) by {
            assert(t[a] == s[a + 1] && t[b] == s[b + 1]);
        }
    }
    if has_degree(s, d) {
        let k = choose|k: int| 0 <= k < s.len() && (#[trigger] s[k]).1 == d;
        assert(k > 0);
        assert(t[k - 1] == s[k]);
        lemma_coeff_of_at(s, k);
        lemma_coeff_of_at(t, k - 1);
    } else {
        assert forall|j: int| 0 <= j < t.len() implies (#[trigger] t[j]).1 != d by {
            assert(t[j] == s[j + 1]);
        }
    }
}

/// A degree above the first one of a sorted sequence is absent.
proof fn lemma_above_first_absent(s: Seq<(Rat, Rat)>, d: Rat)
    requires
        sorted_degrees(s),
        canonical_pairs(s),
        d.den > 0,
        s.len() > 0,
        rat_lt(s[0].1, d),
    ensures
        coeff_of(s, d) == rat_zero(),
{
    assert forall|j: int| 0 <= j < s.len() implies (#[trigger] s[j]).1 != d by {
        if j > 0 {
            assert(rat_lt(s[j].1, s[0].1));
            lemma_lt_trans(s[j].1, s[0].1, d);
        }
    }
}

/// Sorted sequences without zero coefficients are determined by their
/// coefficients.
pub proof fn lemma_poly_unique(s: Seq<(Rat, Rat)>, t: Seq<(Rat, Rat)>)
    requires
        sorted_degrees(s),
        sorted_degrees(t),
        nonzero_coeffs(s),
        nonzero_coeffs(t),
        canonical_pairs(s),
        canonical_pairs(t),
        forall|d: Rat| #[trigger] coeff_of(s, d) == coeff_of(t, d),
    ensures
        s == t,
    decreases s.len() + t.len(),
{
    if s.len() == 0 && t.len() == 0 {
        assert(s =~= t);
    } else if s.len() == 0 {
        lemma_coeff_of_at(t, 0);
        assert(coeff_of(s, t[0].1) == coeff_of(t, t[0].1));
    } else if t.len() == 0 {
        lemma_coeff_of_at(s, 0);
        assert(coeff_of(s, s[0].1) == coeff_of(t, s[0].1));
    } else {
        let d1 = s[0].1;
        let d2 = t[0].1;
        assert(s[0].1.canonical() && t[0].1.canonical());
        crate::rational::lemma_trichotomy(d1, d2);
        lemma_coeff_of_at(s, 0);
        lemma_coeff_of_at(t, 0);
        if rat_lt(d1, d2) {
            lemma_above_first_absent(s, d2);
            assert(coeff_of(s, d2) == coeff_of(t, d2));
        } else if rat_lt(d2, d1) {
            lemma_above_first_absent(t, d1);
            assert(coeff_of(s, d1) == coeff_of(t, d1));
        } else {
            assert(coeff_of(s, d1) == coeff_of(t, d1));
            let s2 = s.drop_first();
            let t2 = t.drop_first();
            assert forall|d: Rat| #[trigger] coeff_of(s2, d) == coeff_of(t2, d) by {
                if d == d1 {
                    assert forall|j: int| 0 <= j < s2.len() implies (#[trigger] s2[j]).1 != d by {
                        assert(s2[j] == s[j + 1]);
                        assert(rat_lt(s[j + 1].1, s[0].1));
                    }
                    assert forall|j: int| 0 <= j < t2.len() implies (#[trigger] t2[j]).1 != d by {
                        assert(t2[j] == t[j + 1]);
                        assert(rat_lt(t[j + 1].1, t[0].1));
                    }
                } else {
                    lemma_coeff_of_drop_first(s, d);
                    lemma_coeff_of_drop_first(t, d);
                    assert(coeff_of(s, d) == coeff_of(t, d));
                }
            }
            assert(sorted_degrees(s2)) by {
                assert forall|a: int, b: int| #![trigger s2[a], s2[b]] 0 <= a < b < s2.len() implies rat_lt(
                    s2[b].1,
                    s2[a].1,
                ) by {
                    assert(s2[a] == s[a + 1] && s2[b] == s[b + 1]);
                }
            }
            assert(sorted_degrees(t2)) by {
                assert forall|a: int, b: int| #![trigger t2[a], t2[b]] 0 <= a < b < t2.len() implies rat_lt(
                    t2[b].1,
                    t2[a].1,
                ) by {
                    assert(t2[a] == t[a + 1] && t2[b] == t[b + 1]);
                }
            }
            assert(nonzero_coeffs(s2)) by {
                assert forall|j: int| 0 <= j < s2.len() implies (#[trigger] s2[j]).0.num != 0 by {
                    assert(s2[j] == s[j + 1]);
                }
            }
            assert(nonzero_coeffs(t2)) by {
                assert forall|j: int| 0 <= j < t2.len() implies (#[trigger] t2[j]).0.num != 0 by {
                    assert(t2[j] == t[j + 1]);
                }
            }
            assert(canonical_pairs(s2)) by {
                assert forall|j: int| 0 <= j < s2.len() implies (#[trigger] s2[j]).0.canonical() && s2[j].1.canonical() by {
                    assert(s2[j] == s[j + 1]);
                }
            }
            assert(canonical_pairs(t2)) by {
                assert forall|j: int| 0 <= j < t2.len() implies (#[trigger] t2[j]).0.canonical() && t2[j].1.canonical() by {
                    assert(t2[j] == t[j + 1]);
                }
            }
            lemma_poly_unique(s2, t2);
            assert(s =~= t) by {
                assert forall|j: int| 0 <= j < s.len() implies s[j] == t[j] by {
                    if j > 0 {
                        assert(s[j] == s2[j - 1]);
                        assert(t[j] == t2[j - 1]);
                    }
                }
            }
        }
    }
}

/// A sorted sequence of canonical pairs without zero coefficients: the form
/// of every cleaned polynomial.
pub open spec fn is_poly_value(s: Seq<(Rat, Rat)>) -> bool {
    sorted_degrees(s) && nonzero_coeffs(s) && canonical_pairs(s)
}

/// The cleaned polynomial whose coefficient of each degree `d` is `f(d)`.
pub open spec fn poly_with(f: spec_fn(Rat) -> Rat) -> Seq<(Rat, Rat)> {
    choose|s: Seq<(Rat, Rat)>| is_poly_value(s) && forall|d: Rat| #[trigger] coeff_of(s, d) == f(d)
}

/// The cleaned sum of two polynomials.
pub open spec fn poly_add(p: Seq<(Rat, Rat)>, q: Seq<(Rat, Rat)>) -> Seq<(Rat, Rat)> {
    poly_with(|d: Rat| rat_add(coeff_of(p, d), coeff_of(q, d)))
}

/// The cleaned difference of two polynomials.
pub open spec fn poly_sub(p: Seq<(Rat, Rat)>, q: Seq<(Rat, Rat)>) -> Seq<(Rat, Rat)> {
    poly_with(|d: Rat| rat_sub(coeff_of(p, d), coeff_of(q, d)))
}

/// The cleaned product of two polynomials.
pub open spec fn poly_mul(p: Seq<(Rat, Rat)>, q: Seq<(Rat, Rat)>) -> Seq<(Rat, Rat)> {
    poly_with(|d: Rat| product_coeff(p, q, d))
}

/// The cleaned polynomial `p` with `c` added to its constant term.
pub open spec fn poly_add_const(p: Seq<(Rat, Rat)>, c: Rat) -> Seq<(Rat, Rat)> {
    poly_with(
        |d: Rat|
            if d == rat_zero() {
                rat_add(coeff_of(p, d), c)
            } else {
                coeff_of(p, d)
            },
    )
}

/// `p` without its constant term.
pub open spec fn remove_constant(p: Seq<(Rat, Rat)>) -> Seq<(Rat, Rat)> {
    if has_degree(p, rat_zero()) {
        p.remove(choose|i: int| 0 <= i < p.len() && (#[trigger] p[i]).1 == rat_zero())
    } else {
        p
    }
}

/// A cleaned polynomial with the coefficients `f` is `poly_with(f)`.
pub proof fn lemma_poly_with(r: Seq<(Rat, Rat)>, f: spec_fn(Rat) -> Rat)
    requires
        is_poly_value(r),
        forall|d: Rat| #[trigger] coeff_of(r, d) == f(d),
    ensures
        r == poly_with(f),
{
    let s = poly_with(f);
    assert(is_poly_value(s) && forall|d: Rat| #[trigger] coeff_of(s, d) == f(d));
    assert forall|d: Rat| #[trigger] coeff_of(r, d) == coeff_of(s, d) by {
        assert(coeff_of(r, d) == f(d));
        assert(coeff_of(s, d) == f(d));
    }
    lemma_poly_unique(r, s);
}

impl Polynomial {
    /// A well-formed polynomial without zero coefficients has a cleaned value.
    pub proof fn lemma_value(&self)
        requires
            self.wf(),
            nonzero_coeffs(self@),
        ensures
            is_poly_value(self@),
    {
        self.lemma_canonical();
    }
}

/// The sequence after removing the pair of a present degree is
/// `remove_constant` when that degree is zero.
pub proof fn lemma_remove_constant(p: Seq<(Rat, Rat)>, i: int)
    requires
        sorted_degrees(p),
        0 <= i < p.len(),
        p[i].1 == rat_zero(),
    ensures
        remove_constant(p) == p.remove(i),
{
    assert(has_degree(p, rat_zero()));
    let j = choose|j: int| 0 <= j < p.len() && (#[trigger] p[j]).1 == rat_zero();
    if j < i {
        assert(rat_lt(p[i].1, p[j].1));
    } else if j > i {
        assert(rat_lt(p[j].1, p[i].1));
    }
}

/// The expression of a polynomial with `v` in place of its variable: the
/// sum, in order, of each coefficient times `v` to the power of its degree.
pub open spec fn poly_into_expr(p: Seq<(Rat, Rat)>, v: ExprV) -> ExprV {
    ExprV::Add(
        p.map_values(
            |m: (Rat, Rat)|
                ExprV::Mul(
                    seq![ExprV::Num(m.0), ExprV::Pow(Box::new(v), Box::new(ExprV::Num(m.1)))],
                ),
        ),
    )
}

impl Polynomial {
    /// Converts the polynomial into a sum of terms with `expr` inserted as
    /// the variable.
    pub fn into_expr(self, expr: &Expr) -> (r: Expr)
        requires
            self.wf(),
            expr.wf(),
        ensures
            r@ == poly_into_expr(self@, expr@),
            r.wf(),
    {
        let ghost s = self@;
        let ghost v = expr@;
        let ghost target = poly_into_expr(s, v)->Add_0;
        let mut terms: Vec<Expr> = Vec::new();
        let n = self.0.len();
        for k in 0..n
            invariant
                n == self.0@.len(),
                s == self@,
                v == expr@,
                self.wf(),
                expr.wf(),
                target == poly_into_expr(s, v)->Add_0,
                terms@.len() == k,
                forall|j: int| 0 <= j < k ==> (#[trigger] terms@[j])@ == target[j] && terms@[j].wf(),
        {
            assert(self.0@[k as int].wf());
            assert(s[k as int] == self.0@[k as int]@);
            let c = Expr::Num(self.0[k].coeff.clone());
            let d = Expr::Num(self.0[k].degree.clone());
            let t = c.mul(expr.copy().pow(d));
            terms.push(t);
        }
        proof {
            lemma_exprs(terms@);
            assert(exprs_view(terms@) =~= target);
        }
        Expr::Add(terms)
    }
}

/// A cleaned polynomial with the coefficients of the sum of `p` and `q` is
/// `poly_add(p, q)`.
pub proof fn lemma_poly_add(r: Seq<(Rat, Rat)>, p: Seq<(Rat, Rat)>, q: Seq<(Rat, Rat)>)
    requires
        is_poly_value(r),
        forall|d: Rat| #[trigger] coeff_of(r, d) == rat_add(coeff_of(p, d), coeff_of(q, d)),
    ensures
        r == poly_add(p, q),
{
    lemma_poly_with(r, |d: Rat| rat_add(coeff_of(p, d), coeff_of(q, d)));
}

/// A sorted sequence of canonical pairs has a cleaned form: the same
/// coefficients without the zero ones, each pair taken from the sequence.
pub proof fn lemma_cleaned(s: Seq<(Rat, Rat)>) -> (t: Seq<(Rat, Rat)>)
    requires
        sorted_degrees(s),
        canonical_pairs(s),
    ensures
        is_poly_value(t),
        forall|d: Rat| #[trigger] coeff_of(t, d) == coeff_of(s, d),
        forall|j: int| 0 <= j < t.len() ==> has_degree(s, #[trigger] t[j].1),
    decreases s.len(),
{
    if s.len() == 0 {
        s
    } else {
        let r = s.drop_first();
        assert(s =~= r.insert(0, s[0]));
        assert(sorted_degrees(r)) by {
            assert forall|a: int, b: int| #![trigger r[a], r[b]] 0 <= a < b < r.len() implies rat_lt(
                r[b].1,
                r[a].1,
            ) by {
                assert(r[a] == s[a + 1] && r[b] == s[b + 1]);
            }
        }
        assert(canonical_pairs(r)) by {
            assert forall|i: int| 0 <= i < r.len() implies (#[trigger] r[i]).0.canonical() && r[i].1.canonical() by {
                assert(r[i] == s[i + 1]);
            }
        }
        let t1 = lemma_cleaned(r);
        lemma_coeff_of_at(s, 0);
        assert forall|j: int| 0 <= j < t1.len() implies rat_lt(#[trigger] t1[j].1, s[0].1) by {
            assert(has_degree(r, t1[j].1));
            let i = choose|i: int| 0 <= i < r.len() && (#[trigger] r[i]).1 == t1[j].1;
            assert(r[i] == s[i + 1]);
        }
        if s[0].0.num == 0 {
            crate::rational::lemma_canonical_zero(s[0].0);
            assert forall|d: Rat| #[trigger] coeff_of(t1, d) == coeff_of(s, d) by {
                if d == s[0].1 {
                    assert forall|i: int| 0 <= i < r.len() implies (#[trigger] r[i]).1 != d by {
                        assert(r[i] == s[i + 1]);
                        assert(rat_lt(s[i + 1].1, s[0].1));
                    }
                    lemma_coeff_of_absent(r, d);
                } else {
                    lemma_coeff_of_insert(r, 0, s[0], d);
                }
            }
            assert forall|j: int| 0 <= j < t1.len() implies has_degree(s, #[trigger] t1[j].1) by {
                let i = choose|i: int| 0 <= i < r.len() && (#[trigger] r[i]).1 == t1[j].1;
                assert(s[i + 1] == r[i]);
            }
            t1
        } else {
            let t = t1.insert(0, s[0]);
            assert(sorted_degrees(t)) by {
                assert forall|a: int, b: int| #![trigger t[a], t[b]] 0 <= a < b < t.len() implies rat_lt(
                    t[b].1,
                    t[a].1,
                ) by {
                    assert(t[b] == t1[b - 1]);
                    if a > 0 {
                        assert(t[a] == t1[a - 1]);
                    }
                }
            }
            assert(is_poly_value(t)) by {
                assert forall|i: int| 0 <= i < t.len() implies (#[trigger] t[i]).0.num != 0 by {
                    if i > 0 {
                        assert(t[i] == t1[i - 1]);
                    }
                }
                assert forall|i: int| 0 <= i < t.len() implies (#[trigger] t[i]).0.canonical() && t[i].1.canonical() by {
                    if i > 0 {
                        assert(t[i] == t1[i - 1]);
                    }
                }
            }
            assert forall|d: Rat| #[trigger] coeff_of(t, d) == coeff_of(s, d) by {
                lemma_coeff_of_insert(t1, 0, s[0], d);
                if d != s[0].1 {
                    lemma_coeff_of_insert(r, 0, s[0], d);
                }
            }
            assert forall|j: int| 0 <= j < t.len() implies has_degree(s, #[trigger] t[j].1) by {
                if j == 0 {
                    assert(s[0].1 == t[0].1);
                } else {
                    assert(t[j] == t1[j - 1]);
                    assert(has_degree(r, t1[j - 1].1));
                    let i = choose|i: int| 0 <= i < r.len() && (#[trigger] r[i]).1 == t1[j - 1].1;
                    assert(s[i + 1] == r[i]);
                }
            }
            t
        }
    }
}

/// A cleaned polynomial with the coefficients of `p` minus those of `q` is
/// `poly_sub(p, q)`.
pub proof fn lemma_poly_sub(r: Seq<(Rat, Rat)>, p: Seq<(Rat, Rat)>, q: Seq<(Rat, Rat)>)
    requires
        is_poly_value(r),
        forall|d: Rat| #[trigger] coeff_of(r, d) == rat_sub(coeff_of(p, d), coeff_of(q, d)),
    ensures
        r == poly_sub(p, q),
{
    lemma_poly_with(r, |d: Rat| rat_sub(coeff_of(p, d), coeff_of(q, d)));
}

/// The coefficients of a negated sorted sequence are negated.
pub proof fn lemma_negate_coeff(p: Seq<(Rat, Rat)>, d: Rat)
    requires
        sorted_degrees(p),
    ensures
        coeff_of(negate(p), d) == rat_neg(coeff_of(p, d)),
{
    let t = negate(p);
    assert(sorted_degrees(t)) by {
        assert forall|i: int, j: int| #![trigger t[i], t[j]] 0 <= i < j < t.len() implies rat_lt(t[j].1, t[i].1) by {
            assert(t[i].1 == p[i].1 && t[j].1 == p[j].1);
        }
    }
    if has_degree(p, d) {
        let i = choose|i: int| 0 <= i < p.len() && (#[trigger] p[i]).1 == d;
        assert(t[i].1 == d);
        lemma_coeff_of_at(p, i);
        lemma_coeff_of_at(t, i);
    } else {
        assert forall|i: int| 0 <= i < t.len() implies (#[trigger] t[i]).1 != d by {
            assert(t[i].1 == p[i].1);
        }
        lemma_coeff_of_absent(t, d);
    }
}

/// Subtracting what was added gives back the polynomial:
/// `(a + b) - b == a`.
pub proof fn lemma_add_sub_cancel(a: Seq<(Rat, Rat)>, b: Seq<(Rat, Rat)>)
    requires
        is_poly_value(a),
        sorted_degrees(b),
        canonical_pairs(b),
    ensures
        poly_sub(poly_add(a, b), b) == a,
{
    lemma_poly_add_exists(a, b);
    let u = poly_add(a, b);
    lemma_poly_sub_exists(u, b);
    let w = poly_sub(u, b);
    assert forall|d: Rat| #[trigger] coeff_of(w, d) == coeff_of(a, d) by {
        lemma_coeff_of_canonical(a, d);
        lemma_coeff_of_canonical(b, d);
        crate::rational::lemma_add_laws(coeff_of(a, d), coeff_of(b, d), coeff_of(b, d));
        crate::rational::lemma_regroup(coeff_of(b, d), coeff_of(a, d), coeff_of(b, d), coeff_of(b, d));
    }
    lemma_poly_unique(w, a);
}

/// A polynomial minus itself is zero: `a - a == 0`.
pub proof fn lemma_sub_self(a: Seq<(Rat, Rat)>)
    requires
        sorted_degrees(a),
        canonical_pairs(a),
    ensures
        poly_sub(a, a) == Seq::<(Rat, Rat)>::empty(),
{
    lemma_poly_sub_exists(a, a);
    let w = poly_sub(a, a);
    if w.len() > 0 {
        let d = w[0].1;
        lemma_coeff_of_at(w, 0);
        lemma_coeff_of_canonical(a, d);
        crate::rational::lemma_small_canonical(0);
        crate::rational::lemma_add_laws(coeff_of(a, d), rat_zero(), rat_zero());
        crate::rational::lemma_regroup(coeff_of(a, d), rat_zero(), rat_zero(), rat_zero());
        assert(rat_sub(coeff_of(a, d), coeff_of(a, d)) == rat_zero());
    }
    assert(w =~= Seq::<(Rat, Rat)>::empty());
}

/// Subtracting is adding the negation: `a - b == a + (-b)`.
pub proof fn lemma_sub_add_neg(a: Seq<(Rat, Rat)>, b: Seq<(Rat, Rat)>)
    requires
        sorted_degrees(a),
        canonical_pairs(a),
        sorted_degrees(b),
        canonical_pairs(b),
    ensures
        poly_sub(a, b) == poly_add(a, negate(b)),
{
    let nb = negate(b);
    assert(sorted_degrees(nb)) by {
        assert forall|i: int, j: int| #![trigger nb[i], nb[j]] 0 <= i < j < nb.len() implies rat_lt(nb[j].1, nb[i].1) by {
            assert(nb[i].1 == b[i].1 && nb[j].1 == b[j].1);
        }
    }
    assert(canonical_pairs(nb)) by {
        assert forall|i: int| 0 <= i < nb.len() implies (#[trigger] nb[i]).0.canonical() && nb[i].1.canonical() by {
            assert(crate::rational::abs(-b[i].0.num) == crate::rational::abs(b[i].0.num));
        }
    }
    lemma_poly_sub_exists(a, b);
    lemma_poly_add_exists(a, nb);
    assert forall|d: Rat| #[trigger] coeff_of(poly_sub(a, b), d) == coeff_of(poly_add(a, nb), d) by {
        lemma_negate_coeff(b, d);
        lemma_coeff_of_canonical(a, d);
        lemma_coeff_of_canonical(b, d);
        crate::rational::lemma_sub_div_laws(coeff_of(a, d), coeff_of(b, d));
    }
    lemma_poly_unique(poly_sub(a, b), poly_add(a, nb));
}

/// A cleaned polynomial with the coefficients of the product of `p` and `q`
/// is `poly_mul(p, q)`.
pub proof fn lemma_poly_mul(r: Seq<(Rat, Rat)>, p: Seq<(Rat, Rat)>, q: Seq<(Rat, Rat)>)
    requires
        is_poly_value(r),
        forall|d: Rat| #[trigger] coeff_of(r, d) == product_coeff(p, q, d),
    ensures
        r == poly_mul(p, q),
{
    lemma_poly_with(r, |d: Rat| product_coeff(p, q, d));
}

/// A cleaned polynomial with the coefficients of `p` and `c` added to its
/// constant term is `poly_add_const(p, c)`.
pub proof fn lemma_poly_add_const(r: Seq<(Rat, Rat)>, p: Seq<(Rat, Rat)>, c: Rat)
    requires
        is_poly_value(r),
        forall|d: Rat| #[trigger] coeff_of(r, d) == if d == rat_zero() {
            rat_add(coeff_of(p, d), c)
        } else {
            coeff_of(p, d)
        },
    ensures
        r == poly_add_const(p, c),
{
    lemma_poly_with(
        r,
        |d: Rat|
            if d == rat_zero() {
                rat_add(coeff_of(p, d), c)
            } else {
                coeff_of(p, d)
            },
    );
}

/// Scaling the coefficients by a non-zero number keeps them non-zero.
pub proof fn lemma_scale_nonzero(p: Seq<(Rat, Rat)>, c: Rat)
    requires
        nonzero_coeffs(p),
        canonical_pairs(p),
        c.canonical(),
        c.num != 0,
    ensures
        nonzero_coeffs(scale(p, c)),
        nonzero_coeffs(scale_div(p, c)),
{
    assert forall|i: int| 0 <= i < scale(p, c).len() implies (#[trigger] scale(p, c)[i]).0.num != 0 by {
        crate::rational::lemma_mul_div_nonzero(p[i].0, c);
    }
    assert forall|i: int| 0 <= i < scale_div(p, c).len() implies (#[trigger] scale_div(p, c)[i]).0.num
        != 0 by {
        crate::rational::lemma_mul_div_nonzero(p[i].0, c);
    }
}

/// The parts of a term list split at ` - `, each with whether it is
/// subtracted: every part but the first.
pub open spec fn signed_of(full: Seq<char>) -> Seq<(Seq<char>, bool)> {
    split(full, seq![' ', '-', ' ']).map(|i: int, part: Seq<char>| (part, i > 0))
}

/// The signed parts of each term list, in order.
pub open spec fn signed_parts(fulls: Seq<Seq<char>>) -> Seq<(Seq<char>, bool)>
    decreases fulls.len(),
{
    if fulls.len() == 0 {
        Seq::empty()
    } else {
        signed_parts(fulls.drop_last()) + signed_of(fulls.last())
    }
}

/// The monomials of the signed parts in order, skipping those with a zero
/// coefficient; the first other error stops.
pub open spec fn collect_monos(ps: Seq<(Seq<char>, bool)>) -> Result<Seq<((Rat, Rat), bool)>, ErrorV>
    decreases ps.len(),
{
    if ps.len() == 0 {
        Ok(Seq::empty())
    } else {
        match collect_monos(ps.drop_last()) {
            Err(e) => Err(e),
            Ok(ms) => match parse_monomial(ps.last().0) {
                Ok(m) => Ok(ms.push((m, ps.last().1))),
                Err(e) => if e matches ErrorV::InvalidNumber(z) && z.num == 0 {
                    Ok(ms)
                } else {
                    Err(e)
                },
            },
        }
    }
}

/// The coefficient of degree `d` in the sum of the signed monomials, folded
/// in order from zero.
pub open spec fn signed_sum(ms: Seq<((Rat, Rat), bool)>, d: Rat) -> Rat
    decreases ms.len(),
{
    if ms.len() == 0 {
        rat_zero()
    } else {
        let r = signed_sum(ms.drop_last(), d);
        let m = ms.last();
        if m.0.1 == d {
            if m.1 {
                rat_sub(r, m.0.0)
            } else {
                rat_add(r, m.0.0)
            }
        } else {
            r
        }
    }
}

/// The polynomial a text denotes: the monomials between ` + ` and ` - `,
/// added and subtracted in order, or the error for it.
pub open spec fn parse_polynomial(s: Seq<char>) -> Result<Seq<(Rat, Rat)>, ErrorV> {
    match collect_monos(signed_parts(split(s, seq![' ', '+', ' ']))) {
        Err(e) => Err(e),
        Ok(ms) => Ok(poly_with(|d: Rat| signed_sum(ms, d))),
    }
}

proof fn lemma_signed_parts_concat(x: Seq<Seq<char>>, y: Seq<Seq<char>>)
    ensures
        signed_parts(x + y) == signed_parts(x) + signed_parts(y),
    decreases y.len(),
{
    if y.len() == 0 {
        assert(x + y =~= x);
        assert(signed_parts(x) + signed_parts(y) =~= signed_parts(x));
    } else {
        assert((x + y).drop_last() =~= x + y.drop_last());
        lemma_signed_parts_concat(x, y.drop_last());
        assert(signed_parts(x) + signed_parts(y) =~= signed_parts(x) + signed_parts(y.drop_last())
            + signed_of(y.last()));
    }
}

proof fn lemma_collect_prefix(ps: Seq<(Seq<char>, bool)>, qs: Seq<(Seq<char>, bool)>)
    requires
        collect_monos(ps) is Err,
    ensures
        collect_monos(ps + qs) == collect_monos(ps),
    decreases qs.len(),
{
    if qs.len() == 0 {
        assert(ps + qs =~= ps);
    } else {
        assert((ps + qs).drop_last() =~= ps + qs.drop_last());
        lemma_collect_prefix(ps, qs.drop_last());
    }
}

impl Polynomial {
    /// Parses a polynomial such as `3x^2 - x + 1`: monomials between ` + `
    /// and ` - `; monomials with a zero coefficient are skipped.
    pub fn parse(s: &str) -> (r: Result<Polynomial, Error>)
        ensures
            match r {
                Ok(p) => p.wf() && nonzero_coeffs(p@) && parse_polynomial(s@) == Ok::<
                    Seq<(Rat, Rat)>,
                    ErrorV,
                >(p@),
                Err(e) => parse_polynomial(s@) == Err::<Seq<(Rat, Rat)>, ErrorV>(e@),
            },
    {
        proof {
            reveal_strlit(" + ");
            reveal_strlit(" - ");
            assert(" + "@ =~= seq![' ', '+', ' ']);
            assert(" - "@ =~= seq![' ', '-', ' ']);
        }
        let fulls = split_str(s, " + ");
        let ghost fv = fulls@.map_values(|x: &str| x@);
        let ghost all = signed_parts(fv);
        let mut result = Polynomial::zero();
        let ghost mut ms: Seq<((Rat, Rat), bool)> = Seq::empty();
        let na = fulls.len();
        for a in 0..na
            invariant
                na == fulls@.len(),
                fv == fulls@.map_values(|x: &str| x@),
                fv == split(s@, seq![' ', '+', ' ']),
                all == signed_parts(fv),
                " - "@ == seq![' ', '-', ' '],
                collect_monos(signed_parts(fv.take(a as int))) == Ok::<
                    Seq<((Rat, Rat), bool)>,
                    ErrorV,
                >(ms),
                result.wf(),
                nonzero_coeffs(result@),
                forall|d: Rat| #[trigger] coeff_of(result@, d) == signed_sum(ms, d),
        {
            let parts = split_str(fulls[a], " - ");
            let ghost f = fv[a as int];
            let ghost so = signed_of(f);
            let ghost base = signed_parts(fv.take(a as int));
            proof {
                assert(fv.take(a + 1).drop_last() =~= fv.take(a as int));
                assert(fv.take(a + 1).last() == f);
                assert(signed_parts(fv.take(a + 1)) == base + so);
                assert(base + so.take(0) =~= base);
            }
            let nb = parts.len();
            for b in 0..nb
                invariant
                    nb == parts@.len(),
                    parts@.map_values(|x: &str| x@) == split(f, seq![' ', '-', ' ']),
                    so == signed_of(f),
                    so.len() == nb,
                    fv == split(s@, seq![' ', '+', ' ']),
                    all == signed_parts(fv),
                    0 <= a < fv.len(),
                    f == fv[a as int],
                    base == signed_parts(fv.take(a as int)),
                    signed_parts(fv.take(a + 1)) == base + so,
                    collect_monos(base + so.take(b as int)) == Ok::<Seq<((Rat, Rat), bool)>, ErrorV>(ms),
                    result.wf(),
                    nonzero_coeffs(result@),
                    forall|d: Rat| #[trigger] coeff_of(result@, d) == signed_sum(ms, d),
            {
                let ghost ps = base + so.take(b + 1);
                proof {
                    assert(ps.drop_last() =~= base + so.take(b as int));
                    assert(ps.last() == so[b as int]);
                    assert(so[b as int] == (parts@[b as int]@, b > 0));
                }
                match Monomial::parse(parts[b]) {
                    Ok(m) => {
                        let ghost mv = m@;
                        let ghost before = result@;
                        if b == 0 {
                            result.add_assign_mono(m);
                        } else {
                            result.sub_assign_mono(m);
                        }
                        proof {
                            let ms2 = ms.push((mv, b > 0));
                            assert(ms2.drop_last() =~= ms);
                            ms = ms2;
                        }
                    },
                    Err(e) => {
                        let skip = match &e {
                            Error::InvalidNumber(z) => z.is_zero(),
                            _ => false,
                        };
                        if !skip {
                            proof {
                                let rest = fv.skip(a + 1);
                                assert(fv =~= fv.take(a + 1) + rest);
                                lemma_signed_parts_concat(fv.take(a + 1), rest);
                                assert(all =~= ps + (so.skip(b + 1) + signed_parts(rest)));
                                lemma_collect_prefix(ps, so.skip(b + 1) + signed_parts(rest));
                            }
                            return Err(e);
                        }
                    },
                }
            }
            proof {
                assert(so.take(nb as int) =~= so);
            }
        }
        proof {
            assert(fv.take(na as int) =~= fv);
            result.lemma_value();
            lemma_poly_with(result@, |d: Rat| signed_sum(ms, d));
        }
        Ok(result)
    }
}

impl std::str::FromStr for Polynomial {
    type Err = Error;

    fn from_str(s: &str) -> (r: Result<Polynomial, Error>)
        ensures
            match r {
                Ok(p) => p.wf() && nonzero_coeffs(p@) && parse_polynomial(s@) == Ok::<
                    Seq<(Rat, Rat)>,
                    ErrorV,
                >(p@),
                Err(e) => parse_polynomial(s@) == Err::<Seq<(Rat, Rat)>, ErrorV>(e@),
            },
    {
        Polynomial::parse(s)
    }
}

/// The coefficient of degree `d` of a single pair.
proof fn lemma_coeff_single(m: (Rat, Rat), d: Rat)
    ensures
        coeff_of(seq![m], d) == if d == m.1 {
            m.0
        } else {
            rat_zero()
        },
{
    if d == m.1 {
        lemma_coeff_of_at(seq![m], 0);
    } else {
        lemma_coeff_of_absent(seq![m], d);
    }
}

impl Monomial {
    /// The sum with another monomial, as a polynomial.
    pub fn add(self, rhs: Monomial) -> (r: Polynomial)
        requires
            self.wf(),
            rhs.wf(),
        ensures
            r.wf(),
            nonzero_coeffs(r@),
            forall|d: Rat| #[trigger] coeff_of(r@, d) == rat_add(coeff_of(seq![self@], d), coeff_of(seq![rhs@], d)),
    {
        let ghost a = self@;
        let ghost b = rhs@;
        let mut p = Polynomial::zero();
        p.add_assign_mono(self);
        p.add_assign_mono(rhs);
        proof {
            assert forall|d: Rat| #[trigger] coeff_of(p@, d) == rat_add(coeff_of(seq![a], d), coeff_of(seq![b], d)) by {
                lemma_coeff_of_absent(Seq::<(Rat, Rat)>::empty(), d);
                lemma_coeff_single(a, d);
                lemma_coeff_single(b, d);
                lemma_add_zero(a.0);
                lemma_add_zero(b.0);
                crate::rational::lemma_small_canonical(0);
                lemma_add_zero(coeff_of(seq![a], d));
            }
        }
        p
    }

    /// The difference with another monomial, as a polynomial.
    pub fn sub(self, rhs: Monomial) -> (r: Polynomial)
        requires
            self.wf(),
            rhs.wf(),
        ensures
            r.wf(),
            nonzero_coeffs(r@),
            forall|d: Rat| #[trigger] coeff_of(r@, d) == rat_sub(coeff_of(seq![self@], d), coeff_of(seq![rhs@], d)),
    {
        let ghost a = self@;
        let ghost b = rhs@;
        let mut p = Polynomial::zero();
        p.add_assign_mono(self);
        p.sub_assign_mono(rhs);
        proof {
            assert forall|d: Rat| #[trigger] coeff_of(p@, d) == rat_sub(coeff_of(seq![a], d), coeff_of(seq![b], d)) by {
                lemma_coeff_of_absent(Seq::<(Rat, Rat)>::empty(), d);
                lemma_coeff_single(a, d);
                lemma_coeff_single(b, d);
                lemma_add_zero(a.0);
                crate::rational::lemma_small_canonical(0);
                lemma_add_zero(coeff_of(seq![a], d));
            }
        }
        p
    }
}

/// The sorted merge of two sorted sequences, adding the coefficients of
/// equal degrees.
pub open spec fn merge_sum(a: Seq<(Rat, Rat)>, b: Seq<(Rat, Rat)>) -> Seq<(Rat, Rat)>
    decreases a.len() + b.len(),
{
    if a.len() == 0 {
        b
    } else if b.len() == 0 {
        a
    } else if rat_lt(b[0].1, a[0].1) {
        seq![a[0]] + merge_sum(a.drop_first(), b)
    } else if rat_lt(a[0].1, b[0].1) {
        seq![b[0]] + merge_sum(a, b.drop_first())
    } else {
        seq![(rat_add(a[0].0, b[0].0), a[0].1)] + merge_sum(a.drop_first(), b.drop_first())
    }
}

/// The rest of a sorted sequence of canonical pairs is one too.
proof fn lemma_rest_ok(a: Seq<(Rat, Rat)>)
    requires
        sorted_degrees(a),
        canonical_pairs(a),
        a.len() > 0,
    ensures
        sorted_degrees(a.drop_first()),
        canonical_pairs(a.drop_first()),
        forall|k: int| 0 <= k < a.drop_first().len() ==> rat_lt(#[trigger] a.drop_first()[k].1, a[0].1),
{
    let t = a.drop_first();
    assert forall|x: int, y: int| #![trigger t[x], t[y]] 0 <= x < y < t.len() implies rat_lt(t[y].1, t[x].1) by {
        assert(t[x] == a[x + 1] && t[y] == a[y + 1]);
    }
    assert forall|k: int| 0 <= k < t.len() implies (#[trigger] t[k]).0.canonical() && t[k].1.canonical()
        && rat_lt(t[k].1, a[0].1) by {
        assert(t[k] == a[k + 1]);
    }
}

/// A degree of a sorted sequence is at most its first one.
proof fn lemma_at_most_first(a: Seq<(Rat, Rat)>, d: Rat)
    requires
        sorted_degrees(a),
        has_degree(a, d),
    ensures
        d == a[0].1 || rat_lt(d, a[0].1),
{
    let k = choose|k: int| 0 <= k < a.len() && (#[trigger] a[k]).1 == d;
    if k > 0 {
        assert(rat_lt(a[k].1, a[0].1));
    }
}

/// `merge_sum` is sorted, canonical, takes its degrees from its arguments
/// and adds their coefficients.
pub proof fn lemma_merge_sum(a: Seq<(Rat, Rat)>, b: Seq<(Rat, Rat)>)
    requires
        sorted_degrees(a),
        sorted_degrees(b),
        canonical_pairs(a),
        canonical_pairs(b),
    ensures
        sorted_degrees(merge_sum(a, b)),
        canonical_pairs(merge_sum(a, b)),
        forall|d: Rat| #[trigger] coeff_of(merge_sum(a, b), d) == rat_add(coeff_of(a, d), coeff_of(b, d)),
        forall|j: int| 0 <= j < merge_sum(a, b).len() ==> has_degree(a, #[trigger] merge_sum(a, b)[j].1)
            || has_degree(b, merge_sum(a, b)[j].1),
    decreases a.len() + b.len(),
{
    let m = merge_sum(a, b);
    crate::rational::lemma_small_canonical(0);
    if a.len() == 0 {
        assert forall|d: Rat| #[trigger] coeff_of(m, d) == rat_add(coeff_of(a, d), coeff_of(b, d)) by {
            lemma_coeff_of_canonical(b, d);
            lemma_add_zero(coeff_of(b, d));
        }
        assert forall|j: int| 0 <= j < m.len() implies has_degree(a, #[trigger] m[j].1) || has_degree(b, m[j].1) by {
            assert(b[j].1 == m[j].1);
        }
    } else if b.len() == 0 {
        assert forall|d: Rat| #[trigger] coeff_of(m, d) == rat_add(coeff_of(a, d), coeff_of(b, d)) by {
            lemma_coeff_of_canonical(a, d);
            lemma_add_zero(coeff_of(a, d));
        }
        assert forall|j: int| 0 <= j < m.len() implies has_degree(a, #[trigger] m[j].1) || has_degree(b, m[j].1) by {
            assert(a[j].1 == m[j].1);
        }
    } else {
        crate::rational::lemma_trichotomy(a[0].1, b[0].1);
        let (h, x, y) = if rat_lt(b[0].1, a[0].1) {
            (a[0], a.drop_first(), b)
        } else if rat_lt(a[0].1, b[0].1) {
            (b[0], a, b.drop_first())
        } else {
            ((rat_add(a[0].0, b[0].0), a[0].1), a.drop_first(), b.drop_first())
        };
        lemma_rest_ok(a);
        lemma_rest_ok(b);
        lemma_merge_sum(x, y);
        let r = merge_sum(x, y);
        assert(m =~= r.insert(0, h));
        // every degree of the rest is below the head
        assert forall|j: int| 0 <= j < r.len() implies rat_lt(#[trigger] r[j].1, h.1) by {
            let e = r[j].1;
            if has_degree(x, e) {
                lemma_at_most_first(x, e);
                if x.len() > 0 && x =~= a.drop_first() {
                } else if x.len() > 0 && x[0].1 != e {
                    lemma_lt_trans(e, x[0].1, h.1);
                }
            }
            if has_degree(y, e) {
                lemma_at_most_first(y, e);
                if y.len() > 0 && y =~= b.drop_first() {
                } else if y.len() > 0 && y[0].1 != e {
                    lemma_lt_trans(e, y[0].1, h.1);
                }
            }
            let kx = choose|k: int| 0 <= k < x.len() && (#[trigger] x[k]).1 == e;
            let ky = choose|k: int| 0 <= k < y.len() && (#[trigger] y[k]).1 == e;
        }
        assert(sorted_degrees(m)) by {
            assert forall|i: int, j: int| #![trigger m[i], m[j]] 0 <= i < j < m.len() implies rat_lt(m[j].1, m[i].1) by {
                assert(m[j] == r[j - 1]);
                if i > 0 {
                    assert(m[i] == r[i - 1]);
                }
            }
        }
        assert(canonical_pairs(m)) by {
            crate::rational::lemma_ops_canonical(a[0].0, b[0].0);
            assert forall|i: int| 0 <= i < m.len() implies (#[trigger] m[i]).0.canonical() && m[i].1.canonical() by {
                if i > 0 {
                    assert(m[i] == r[i - 1]);
                }
            }
        }
        assert forall|d: Rat| #[trigger] coeff_of(m, d) == rat_add(coeff_of(a, d), coeff_of(b, d)) by {
            lemma_coeff_of_insert(r, 0, h, d);
            lemma_coeff_of_canonical(a, d);
            lemma_coeff_of_canonical(b, d);
            lemma_coeff_of_at(a, 0);
            lemma_coeff_of_at(b, 0);
            if d != a[0].1 {
                lemma_coeff_of_drop_first(a, d);
            }
            if d != b[0].1 {
                lemma_coeff_of_drop_first(b, d);
            }
            if rat_lt(b[0].1, a[0].1) {
                if d == a[0].1 {
                    lemma_above_first_absent(b, d);
                    lemma_add_zero(a[0].0);
                }
            } else if rat_lt(a[0].1, b[0].1) {
                if d == b[0].1 {
                    lemma_above_first_absent(a, d);
                    lemma_add_zero(b[0].0);
                }
            }
        }
        assert forall|j: int| 0 <= j < m.len() implies has_degree(a, #[trigger] m[j].1) || has_degree(b, m[j].1) by {
            if j == 0 {
                assert(a[0].1 == a[0].1);
                assert(b[0].1 == b[0].1);
            } else {
                let e = m[j].1;
                assert(m[j] == r[j - 1]);
                if has_degree(x, e) {
                    let k = choose|k: int| 0 <= k < x.len() && (#[trigger] x[k]).1 == e;
                    if x =~= a.drop_first() {
                        assert(a[k + 1] == x[k]);
                    } else {
                        assert(a[k] == x[k]);
                    }
                } else {
                    let k = choose|k: int| 0 <= k < y.len() && (#[trigger] y[k]).1 == e;
                    if y =~= b.drop_first() {
                        assert(b[k + 1] == y[k]);
                    } else {
                        assert(b[k] == y[k]);
                    }
                }
            }
        }
    }
}


/// The merged products of `p` with the monomials of `q`, in order.
pub open spec fn product_seq(p: Seq<(Rat, Rat)>, q: Seq<(Rat, Rat)>) -> Seq<(Rat, Rat)>
    decreases q.len(),
{
    if q.len() == 0 {
        Seq::empty()
    } else {
        merge_sum(product_seq(p, q.drop_last()), shift_scale(p, q.last()))
    }
}

/// The product with a monomial of canonical pairs keeps the order.
proof fn lemma_shift_scale_ok(p: Seq<(Rat, Rat)>, m: (Rat, Rat))
    requires
        sorted_degrees(p),
        canonical_pairs(p),
        m.0.canonical(),
        m.1.canonical(),
    ensures
        sorted_degrees(shift_scale(p, m)),
        canonical_pairs(shift_scale(p, m)),
{
    let t = shift_scale(p, m);
    assert forall|i: int, j: int| #![trigger t[i], t[j]] 0 <= i < j < t.len() implies rat_lt(t[j].1, t[i].1) by {
        assert(rat_lt(p[j].1, p[i].1));
        lemma_lt_add(p[j].1, p[i].1, m.1);
    }
    assert forall|i: int| 0 <= i < t.len() implies (#[trigger] t[i]).0.canonical() && t[i].1.canonical() by {
        crate::rational::lemma_ops_canonical(p[i].0, m.0);
        crate::rational::lemma_ops_canonical(p[i].1, m.1);
    }
}

/// `product_seq` is sorted and canonical, with the product coefficients.
proof fn lemma_product_seq(p: Seq<(Rat, Rat)>, q: Seq<(Rat, Rat)>)
    requires
        sorted_degrees(p),
        canonical_pairs(p),
        canonical_pairs(q),
    ensures
        sorted_degrees(product_seq(p, q)),
        canonical_pairs(product_seq(p, q)),
        forall|d: Rat| #[trigger] coeff_of(product_seq(p, q), d) == product_coeff(p, q, d),
    decreases q.len(),
{
    if q.len() > 0 {
        let t = q.drop_last();
        assert(canonical_pairs(t)) by {
            assert forall|i: int| 0 <= i < t.len() implies (#[trigger] t[i]).0.canonical() && t[i].1.canonical() by {
                assert(t[i] == q[i]);
            }
        }
        lemma_product_seq(p, t);
        assert(q.last() == q[q.len() - 1]);
        lemma_shift_scale_ok(p, q.last());
        lemma_merge_sum(product_seq(p, t), shift_scale(p, q.last()));
    }
}

/// The product of two polynomials with sorted canonical pairs exists as a
/// cleaned polynomial.
pub proof fn lemma_poly_mul_exists(p: Seq<(Rat, Rat)>, q: Seq<(Rat, Rat)>)
    requires
        sorted_degrees(p),
        canonical_pairs(p),
        canonical_pairs(q),
    ensures
        is_poly_value(poly_mul(p, q)),
        forall|d: Rat| #[trigger] coeff_of(poly_mul(p, q), d) == product_coeff(p, q, d),
{
    lemma_product_seq(p, q);
    let w = lemma_cleaned(product_seq(p, q));
    lemma_poly_mul(w, p, q);
}

/// The sum of two polynomials with sorted canonical pairs exists as a
/// cleaned polynomial.
pub proof fn lemma_poly_add_exists(p: Seq<(Rat, Rat)>, q: Seq<(Rat, Rat)>)
    requires
        sorted_degrees(p),
        sorted_degrees(q),
        canonical_pairs(p),
        canonical_pairs(q),
    ensures
        is_poly_value(poly_add(p, q)),
        forall|d: Rat| #[trigger] coeff_of(poly_add(p, q), d) == rat_add(coeff_of(p, d), coeff_of(q, d)),
{
    lemma_merge_sum(p, q);
    let w = lemma_cleaned(merge_sum(p, q));
    lemma_poly_add(w, p, q);
}

/// The difference of two polynomials with sorted canonical pairs exists as
/// a cleaned polynomial.
pub proof fn lemma_poly_sub_exists(p: Seq<(Rat, Rat)>, q: Seq<(Rat, Rat)>)
    requires
        sorted_degrees(p),
        sorted_degrees(q),
        canonical_pairs(p),
        canonical_pairs(q),
    ensures
        is_poly_value(poly_sub(p, q)),
        forall|d: Rat| #[trigger] coeff_of(poly_sub(p, q), d) == rat_sub(coeff_of(p, d), coeff_of(q, d)),
{
    let nq = negate(q);
    assert(sorted_degrees(nq)) by {
        assert forall|i: int, j: int| #![trigger nq[i], nq[j]] 0 <= i < j < nq.len() implies rat_lt(nq[j].1, nq[i].1) by {
            assert(nq[i].1 == q[i].1 && nq[j].1 == q[j].1);
        }
    }
    assert(canonical_pairs(nq)) by {
        assert forall|i: int| 0 <= i < nq.len() implies (#[trigger] nq[i]).0.canonical() && nq[i].1.canonical() by {
            assert(crate::rational::abs(-q[i].0.num) == crate::rational::abs(q[i].0.num));
        }
    }
    lemma_merge_sum(p, nq);
    let w = lemma_cleaned(merge_sum(p, nq));
    assert forall|d: Rat| #[trigger] coeff_of(w, d) == rat_sub(coeff_of(p, d), coeff_of(q, d)) by {
        lemma_negate_coeff(q, d);
        lemma_coeff_of_canonical(p, d);
        lemma_coeff_of_canonical(q, d);
        crate::rational::lemma_sub_div_laws(coeff_of(p, d), coeff_of(q, d));
    }
    lemma_poly_sub(w, p, q);
}

} // verus!
