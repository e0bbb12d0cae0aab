//! The number structure and its related operations.
use crate::rational::{
    abs, gcd, lcm, lemma_gcd_comm, lemma_gcd_divides, lemma_gcd_one, lemma_gcd_pos, lemma_reduce,
    lemma_small_canonical, rat_abs, rat_add, rat_ceil, rat_div, rat_floor, rat_gcd, rat_int, rat_is_int,
    rat_lcm, rat_lt, rat_mul, rat_neg, rat_one, rat_pow, rat_recip, rat_round, rat_signum, rat_sub,
    rat_trunc, rat_zero, reduce, Rat,
};
use crate::error::{Error, ErrorV};
use crate::text::{find, first_match, lemma_first_match};
use rug::integer::Order;
use rug::ops::PowAssign;
use rug::{Integer, Rational};
use vstd::arithmetic::power::*;
use vstd::prelude::*;
use vstd::string::*;
use vstd::utf8::encode_utf8;

verus! {

/// The base of the limbs that hold the numerator and the denominator.
pub open spec fn limb_base() -> nat {
    0x1_0000_0000_0000_0000nat
}

/// The natural number that little-endian 64-bit limbs denote.
pub open spec fn limbs_value(s: Seq<u64>) -> nat
    decreases s.len(),
{
    if s.len() == 0 {
        0
    } else {
        s[0] as nat + limb_base() * limbs_value(s.drop_first())
    }
}

/// Limbs without a most significant zero limb.
pub open spec fn normalized(s: Seq<u64>) -> bool {
    s.len() == 0 || s.last() != 0
}

proof fn lemma_limbs_single(x: u64)
    ensures
        limbs_value(seq![x]) == x as nat,
{
    let s = seq![x];
    assert(s.drop_first() =~= Seq::<u64>::empty());
    assert(limbs_value(Seq::<u64>::empty()) == 0);
    assert(limbs_value(s) == s[0] as nat + limb_base() * limbs_value(s.drop_first()));
}

/// Normalized limbs: no limbs means zero, one limb means that limb, more
/// limbs mean at least the base.
proof fn lemma_limbs_size(s: Seq<u64>)
    requires
        normalized(s),
    ensures
        (s.len() == 0) == (limbs_value(s) == 0),
        s.len() == 1 ==> limbs_value(s) == s[0] as nat,
        s.len() >= 2 ==> limbs_value(s) >= limb_base(),
    decreases s.len(),
{
    if s.len() == 1 {
        assert(s =~= seq![s[0]]);
        lemma_limbs_single(s[0]);
    } else if s.len() >= 2 {
        let t = s.drop_first();
        assert(t.last() == s.last());
        lemma_limbs_size(t);
        assert(limbs_value(t) >= 1);
    }
}

/// The result of comparing two values.
#[derive(Clone, Copy, Debug, PartialEq, Eq, Structural)]
pub enum Comparison {
    Less,
    Equal,
    Greater,
}

/// Represents a specific rational number, stored in lowest terms: a sign, and
/// the limbs of the numerator and of the denominator. Arithmetic is carried
/// out by `rug`.
#[derive(Debug, PartialEq, Eq, Hash)]
pub struct Number {
    neg: bool,
    numer: Vec<u64>,
    denom: Vec<u64>,
}

impl View for Number {
    type V = Rat;

    closed spec fn view(&self) -> Rat {
        Rat {
            num: if self.neg {
                -(limbs_value(self.numer@) as int)
            } else {
                limbs_value(self.numer@) as int
            },
            den: limbs_value(self.denom@) as int,
        }
    }
}

impl Clone for Number {
    fn clone(&self) -> (r: Self)
        ensures
            r@ == self@,
            self.wf() ==> r.wf(),
    {
        let r = Number { neg: self.neg, numer: self.numer.clone(), denom: self.denom.clone() };
        proof {
            assert(r.numer@ =~= self.numer@);
            assert(r.denom@ =~= self.denom@);
        }
        r
    }
}

/// What has been read of a rational's text: the sign, whether a sign, a
/// digit (since the slash, if any) and the slash were seen, and the values
/// of the numerator and denominator digits.
pub struct TextScan {
    pub neg: bool,
    pub signed: bool,
    pub digits: bool,
    pub slash: bool,
    pub numer: nat,
    pub denom: nat,
}

/// Reading one more character of a rational's text: ASCII whitespace is
/// skipped everywhere; one sign may come before the first digit of the
/// numerator; one slash may follow the numerator's digits; an underscore
/// may follow a digit of the part at hand; any other character but a
/// decimal digit is refused.
pub open spec fn scan_char(st: TextScan, c: char) -> Option<TextScan> {
    if c == ' ' || c == '\t' || c == '\n' || c == '\u{b}' || c == '\u{c}' || c == '\r' {
        Some(st)
    } else if c == '/' {
        if st.slash || !st.digits {
            None
        } else {
            Some(TextScan { digits: false, slash: true, ..st })
        }
    } else if c == '+' || c == '-' {
        if st.slash || st.signed || st.digits {
            None
        } else {
            Some(TextScan { neg: c == '-', signed: true, ..st })
        }
    } else if c == '_' {
        if st.digits {
            Some(st)
        } else {
            None
        }
    } else if '0' <= c && c <= '9' {
        let d = (c as u32 - '0' as u32) as nat;
        if st.slash {
            Some(TextScan { digits: true, denom: st.denom * 10 + d, ..st })
        } else {
            Some(TextScan { digits: true, numer: st.numer * 10 + d, ..st })
        }
    } else {
        None
    }
}

/// Reading a rational's text from the start.
pub open spec fn scan_text(s: Seq<char>) -> Option<TextScan>
    decreases s.len(),
{
    if s.len() == 0 {
        Some(TextScan { neg: false, signed: false, digits: false, slash: false, numer: 0, denom: 0 })
    } else {
        match scan_text(s.drop_last()) {
            None => None,
            Some(st) => scan_char(st, s.last()),
        }
    }
}

/// The value of a rational's text as `rug`'s `Rational::from_str` reads it:
/// an optionally signed decimal numerator and an optional non-zero
/// decimal denominator after a slash, each with at least one digit, in
/// lowest terms; `None` where the text is refused.
pub open spec fn rational_text_value(s: Seq<char>) -> Option<Rat> {
    match scan_text(s) {
        None => None,
        Some(st) => if !st.digits || (st.slash && st.denom == 0) {
            None
        } else {
            Some(
                reduce(
                    if st.neg {
                        -st.numer
                    } else {
                        st.numer as int
                    },
                    if st.slash {
                        st.denom as int
                    } else {
                        1
                    },
                ),
            )
        },
    }
}

/// `rug`'s `+` on `Rational`, with both numbers converted to `Rational` and
/// the result converted back: the exact result in lowest terms.
#[verifier::external_body]
fn rug_add(a: &Number, b: &Number) -> (r: Number)
    requires
        a.wf(),
        b.wf(),
    ensures
        r.wf(),
        r@ == rat_add(a@, b@),
{
    let x = Rational::from((Integer::from_digits(&a.numer, Order::Lsf), Integer::from_digits(&a.denom, Order::Lsf)));
    let y = Rational::from((Integer::from_digits(&b.numer, Order::Lsf), Integer::from_digits(&b.denom, Order::Lsf)));
    let z = (if a.neg { -x } else { x }) + (if b.neg { -y } else { y });
    let (n, d) = z.into_numer_denom();
    Number { neg: n < 0, numer: n.to_digits(Order::Lsf), denom: d.to_digits(Order::Lsf) }
}

/// `rug`'s `-` on `Rational`, with both numbers converted to `Rational` and
/// the result converted back: the exact result in lowest terms.
#[verifier::external_body]
fn rug_sub(a: &Number, b: &Number) -> (r: Number)
    requires
        a.wf(),
        b.wf(),
    ensures
        r.wf(),
        r@ == rat_sub(a@, b@),
{
    let x = Rational::from((Integer::from_digits(&a.numer, Order::Lsf), Integer::from_digits(&a.denom, Order::Lsf)));
    let y = Rational::from((Integer::from_digits(&b.numer, Order::Lsf), Integer::from_digits(&b.denom, Order::Lsf)));
    let z = (if a.neg { -x } else { x }) - (if b.neg { -y } else { y });
    let (n, d) = z.into_numer_denom();
    Number { neg: n < 0, numer: n.to_digits(Order::Lsf), denom: d.to_digits(Order::Lsf) }
}

/// `rug`'s `*` on `Rational`, with both numbers converted to `Rational` and
/// the result converted back: the exact result in lowest terms.
#[verifier::external_body]
fn rug_mul(a: &Number, b: &Number) -> (r: Number)
    requires
        a.wf(),
        b.wf(),
    ensures
        r.wf(),
        r@ == rat_mul(a@, b@),
{
    let x = Rational::from((Integer::from_digits(&a.numer, Order::Lsf), Integer::from_digits(&a.denom, Order::Lsf)));
    let y = Rational::from((Integer::from_digits(&b.numer, Order::Lsf), Integer::from_digits(&b.denom, Order::Lsf)));
    let z = (if a.neg { -x } else { x }) * (if b.neg { -y } else { y });
    let (n, d) = z.into_numer_denom();
    Number { neg: n < 0, numer: n.to_digits(Order::Lsf), denom: d.to_digits(Order::Lsf) }
}

/// `rug`'s `/` on `Rational`, with both numbers converted to `Rational` and
/// the result converted back: the exact result in lowest terms.
#[verifier::external_body]
fn rug_div(a: &Number, b: &Number) -> (r: Number)
    requires
        a.wf(),
        b.wf(),
        b@.num != 0,
    ensures
        r.wf(),
        r@ == rat_div(a@, b@),
{
    let x = Rational::from((Integer::from_digits(&a.numer, Order::Lsf), Integer::from_digits(&a.denom, Order::Lsf)));
    let y = Rational::from((Integer::from_digits(&b.numer, Order::Lsf), Integer::from_digits(&b.denom, Order::Lsf)));
    let z = (if a.neg { -x } else { x }) / (if b.neg { -y } else { y });
    let (n, d) = z.into_numer_denom();
    Number { neg: n < 0, numer: n.to_digits(Order::Lsf), denom: d.to_digits(Order::Lsf) }
}

/// `rug`'s `Rational::cmp`: the order of the two values.
#[verifier::external_body]
fn rug_compare(a: &Number, b: &Number) -> (r: Comparison)
    requires
        a.wf(),
        b.wf(),
    ensures
        (r == Comparison::Less) == rat_lt(a@, b@),
        (r == Comparison::Equal) == (a@ == b@),
        (r == Comparison::Greater) == rat_lt(b@, a@),
{
    let x = Rational::from((Integer::from_digits(&a.numer, Order::Lsf), Integer::from_digits(&a.denom, Order::Lsf)));
    let y = Rational::from((Integer::from_digits(&b.numer, Order::Lsf), Integer::from_digits(&b.denom, Order::Lsf)));
    let (x, y) = (if a.neg { -x } else { x }, if b.neg { -y } else { y });
    match x.cmp(&y) {
        std::cmp::Ordering::Less => Comparison::Less,
        std::cmp::Ordering::Equal => Comparison::Equal,
        std::cmp::Ordering::Greater => Comparison::Greater,
    }
}

/// `rug`'s `Rational::floor`: the largest integer not above the value.
#[verifier::external_body]
fn rug_floor(a: &Number) -> (r: Number)
    requires
        a.wf(),
    ensures
        r.wf(),
        r@ == rat_floor(a@),
{
    let x = Rational::from((Integer::from_digits(&a.numer, Order::Lsf), Integer::from_digits(&a.denom, Order::Lsf)));
    let z = (if a.neg { -x } else { x }).floor();
    let (n, d) = z.into_numer_denom();
    Number { neg: n < 0, numer: n.to_digits(Order::Lsf), denom: d.to_digits(Order::Lsf) }
}

/// `rug`'s `Rational::ceil`: the smallest integer not below the value.
#[verifier::external_body]
fn rug_ceil(a: &Number) -> (r: Number)
    requires
        a.wf(),
    ensures
        r.wf(),
        r@ == rat_ceil(a@),
{
    let x = Rational::from((Integer::from_digits(&a.numer, Order::Lsf), Integer::from_digits(&a.denom, Order::Lsf)));
    let z = (if a.neg { -x } else { x }).ceil();
    let (n, d) = z.into_numer_denom();
    Number { neg: n < 0, numer: n.to_digits(Order::Lsf), denom: d.to_digits(Order::Lsf) }
}

/// `rug`'s `Rational::trunc`: the value rounded towards zero.
#[verifier::external_body]
fn rug_trunc(a: &Number) -> (r: Number)
    requires
        a.wf(),
    ensures
        r.wf(),
        r@ == rat_trunc(a@),
{
    let x = Rational::from((Integer::from_digits(&a.numer, Order::Lsf), Integer::from_digits(&a.denom, Order::Lsf)));
    let z = (if a.neg { -x } else { x }).trunc();
    let (n, d) = z.into_numer_denom();
    Number { neg: n < 0, numer: n.to_digits(Order::Lsf), denom: d.to_digits(Order::Lsf) }
}

/// `rug`'s `Rational::round`: the nearest integer, halves away from zero.
#[verifier::external_body]
fn rug_round(a: &Number) -> (r: Number)
    requires
        a.wf(),
    ensures
        r.wf(),
        r@ == rat_round(a@),
{
    let x = Rational::from((Integer::from_digits(&a.numer, Order::Lsf), Integer::from_digits(&a.denom, Order::Lsf)));
    let z = (if a.neg { -x } else { x }).round();
    let (n, d) = z.into_numer_denom();
    Number { neg: n < 0, numer: n.to_digits(Order::Lsf), denom: d.to_digits(Order::Lsf) }
}

/// `rug`'s `Rational::pow_assign` with a `u32` exponent.
#[verifier::external_body]
fn rug_pow(a: &Number, e: u32) -> (r: Number)
    requires
        a.wf(),
    ensures
        r.wf(),
        r@ == rat_pow(a@, e as nat),
{
    let x = Rational::from((Integer::from_digits(&a.numer, Order::Lsf), Integer::from_digits(&a.denom, Order::Lsf)));
    let mut x = if a.neg { -x } else { x };
    x.pow_assign(e);
    let (n, d) = x.into_numer_denom();
    Number { neg: n < 0, numer: n.to_digits(Order::Lsf), denom: d.to_digits(Order::Lsf) }
}

/// `rug`'s `Integer::gcd` of two natural numbers given by their limbs; the
/// result's limbs are normalized.
#[verifier::external_body]
fn rug_gcd(a: &Vec<u64>, b: &Vec<u64>) -> (r: Vec<u64>)
    ensures
        normalized(r@),
        limbs_value(r@) == gcd(limbs_value(a@), limbs_value(b@)),
{
    Integer::from_digits(a, Order::Lsf).gcd(&Integer::from_digits(b, Order::Lsf)).to_digits(Order::Lsf)
}

/// `rug`'s `Integer::lcm` of two natural numbers given by their limbs; the
/// result's limbs are normalized.
#[verifier::external_body]
fn rug_lcm(a: &Vec<u64>, b: &Vec<u64>) -> (r: Vec<u64>)
    ensures
        normalized(r@),
        limbs_value(r@) == lcm(limbs_value(a@), limbs_value(b@)),
{
    Integer::from_digits(a, Order::Lsf).lcm(&Integer::from_digits(b, Order::Lsf)).to_digits(Order::Lsf)
}

/// `rug`'s `Rational::from((numerator, denominator))`: the fraction of the two
/// natural numbers given by their limbs, in lowest terms.
#[verifier::external_body]
fn rug_fraction(n: &Vec<u64>, d: &Vec<u64>) -> (r: Number)
    requires
        limbs_value(d@) > 0,
    ensures
        r.wf(),
        r@ == reduce(limbs_value(n@) as int, limbs_value(d@) as int),
{
    let x = Rational::from((Integer::from_digits(n, Order::Lsf), Integer::from_digits(d, Order::Lsf)));
    let (n, d) = x.into_numer_denom();
    Number { neg: n < 0, numer: n.to_digits(Order::Lsf), denom: d.to_digits(Order::Lsf) }
}

/// `rug`'s `Rational::from_str`: the text is accepted exactly where
/// `rational_text_value` gives a value, and that value comes back.
#[verifier::external_body]
fn rug_parse(s: &str) -> (r: Option<Number>)
    ensures
        r is Some <==> rational_text_value(s@) is Some,
        r matches Some(n) ==> n.wf() && rational_text_value(s@) == Some(n@),
{
    match s.parse::<Rational>() {
        Ok(x) => {
            let (n, d) = x.into_numer_denom();
            Some(Number { neg: n < 0, numer: n.to_digits(Order::Lsf), denom: d.to_digits(Order::Lsf) })
        },
        Err(_) => None,
    }
}

proof fn lemma_pow_nonzero(b: int, e: nat)
    requires
        b != 0,
    ensures
        pow(b, e) != 0,
    decreases e,
{
    reveal(pow);
    if e > 0 {
        lemma_pow_nonzero(b, (e - 1) as nat);
        assert(b * pow(b, (e - 1) as nat) != 0) by (nonlinear_arith)
            requires
                b != 0,
                pow(b, (e - 1) as nat) != 0,
        ;
    }
}

// Constants
impl Number {
    /// The number is in lowest terms and its limbs are normalized.
    pub open spec fn wf(&self) -> bool {
        &&& self.limbs_ok()
        &&& self@.canonical()
    }

    /// The limbs are normalized and a zero carries no sign.
    pub closed spec fn limbs_ok(&self) -> bool {
        &&& normalized(self.numer@)
        &&& normalized(self.denom@)
        &&& (self.neg ==> self.numer@.len() > 0)
    }

    proof fn lemma_view(&self)
        requires
            self.limbs_ok(),
        ensures
            (self@.num == 0) == (self.numer@.len() == 0),
            (self@.num < 0) == self.neg,
            self@.num == 1 <==> (!self.neg && self.numer@ =~= seq![1u64]),
            self@.num == -1 <==> (self.neg && self.numer@ =~= seq![1u64]),
            self@.den == 1 <==> self.denom@ =~= seq![1u64],
            self@.den == 0 <==> self.denom@.len() == 0,
    {
        lemma_limbs_size(self.numer@);
        lemma_limbs_size(self.denom@);
        if self.numer@.len() == 1 {
            assert(self.numer@ =~= seq![self.numer@[0]]);
        }
        if self.denom@.len() == 1 {
            assert(self.denom@ =~= seq![self.denom@[0]]);
        }
        lemma_limbs_single(1u64);
    }

    fn from_limbs(neg: bool, mag: u64) -> (r: Number)
        ensures
            r.limbs_ok(),
            r@ == rat_int(if neg {
                -(mag as int)
            } else {
                mag as int
            }),
            r.wf(),
    {
        let numer: Vec<u64> = if mag == 0 {
            Vec::new()
        } else {
            vec![mag]
        };
        let one = vec![1u64];
        let r = Number { neg: neg && mag != 0, numer, denom: one };
        proof {
            assert(one@ =~= seq![1u64]);
            if mag != 0 {
                assert(numer@ =~= seq![mag]);
            }
            lemma_limbs_single(1u64);
            if mag != 0 {
                lemma_limbs_single(mag);
            } else {
                assert(r.numer@ =~= Seq::<u64>::empty());
            }
            lemma_small_canonical(r@.num);
        }
        r
    }

    /// The number negative one (`-1`).
    pub fn neg_one() -> (r: Self)
        ensures
            r.wf(),
            r@ == rat_int(-1),
    {
        Self::from_limbs(true, 1)
    }

    /// The number one (`1`).
    pub fn one() -> (r: Self)
        ensures
            r.wf(),
            r@ == rat_one(),
    {
        Self::from_limbs(false, 1)
    }

    /// The number zero (`0`).
    pub fn zero() -> (r: Self)
        ensures
            r.wf(),
            r@ == rat_zero(),
    {
        Self::from_limbs(false, 0)
    }

    /// The number of a signed integer.
    pub fn from_i64(value: i64) -> (r: Self)
        ensures
            r.wf(),
            r@ == rat_int(value as int),
    {
        if value < 0 {
            let mag: u64 = ((-(value + 1)) as u64) + 1;
            Self::from_limbs(true, mag)
        } else {
            Self::from_limbs(false, value as u64)
        }
    }

    /// The number of an unsigned integer.
    pub fn from_u64(value: u64) -> (r: Self)
        ensures
            r.wf(),
            r@ == rat_int(value as int),
    {
        Self::from_limbs(false, value)
    }
}

// Guards
impl Number {
    /// Whether this number is an integer.
    pub fn is_integer(&self) -> (r: bool)
        requires
            self.wf(),
        ensures
            r == rat_is_int(self@),
    {
        proof {
            self.lemma_view();
        }
        self.denom.len() == 1 && self.denom[0] == 1
    }

    /// Whether this is the number negative one (`-1`).
    pub fn is_neg_one(&self) -> (r: bool)
        requires
            self.wf(),
        ensures
            r == (self@ == rat_int(-1)),
    {
        proof {
            self.lemma_view();
        }
        self.neg && self.numer.len() == 1 && self.numer[0] == 1 && self.denom.len() == 1
            && self.denom[0] == 1
    }

    /// Whether this number is less than zero.
    pub fn is_negative(&self) -> (r: bool)
        requires
            self.wf(),
        ensures
            r == (self@.num < 0),
    {
        proof {
            self.lemma_view();
        }
        self.neg
    }

    /// Whether this is the number one (`1`).
    pub fn is_one(&self) -> (r: bool)
        requires
            self.wf(),
        ensures
            r == (self@ == rat_one()),
    {
        proof {
            self.lemma_view();
        }
        !self.neg && self.numer.len() == 1 && self.numer[0] == 1 && self.denom.len() == 1
            && self.denom[0] == 1
    }

    /// Whether this number is greater than zero.
    pub fn is_positive(&self) -> (r: bool)
        requires
            self.wf(),
        ensures
            r == (self@.num > 0),
    {
        proof {
            self.lemma_view();
        }
        !self.neg && self.numer.len() > 0
    }

    /// Whether this is the number zero (`0`).
    pub fn is_zero(&self) -> (r: bool)
        requires
            self.wf(),
        ensures
            r == (self@.num == 0),
            r == (self@ == rat_zero()),
    {
        proof {
            self.lemma_view();
            if self@.num == 0 {
                assert(gcd(0, self@.den as nat) == gcd(self@.den as nat, 0nat % (self@.den as nat)));
            }
        }
        self.numer.len() == 0
    }
}

// Operations
impl Number {
    /// Compares two numbers by value.
    pub fn compare(&self, other: &Self) -> (r: Comparison)
        requires
            self.wf(),
            other.wf(),
        ensures
            (r == Comparison::Less) == rat_lt(self@, other@),
            (r == Comparison::Equal) == (self@ == other@),
            (r == Comparison::Greater) == rat_lt(other@, self@),
    {
        rug_compare(self, other)
    }

    /// The sum.
    pub fn add(self, rhs: &Self) -> (r: Self)
        requires
            self.wf(),
            rhs.wf(),
        ensures
            r.wf(),
            r@ == rat_add(self@, rhs@),
    {
        rug_add(&self, rhs)
    }

    /// The difference.
    pub fn sub(self, rhs: &Self) -> (r: Self)
        requires
            self.wf(),
            rhs.wf(),
        ensures
            r.wf(),
            r@ == rat_sub(self@, rhs@),
    {
        rug_sub(&self, rhs)
    }

    /// The product.
    pub fn mul(self, rhs: &Self) -> (r: Self)
        requires
            self.wf(),
            rhs.wf(),
        ensures
            r.wf(),
            r@ == rat_mul(self@, rhs@),
    {
        rug_mul(&self, rhs)
    }

    /// The quotient; the divisor must not be zero.
    pub fn div(self, rhs: &Self) -> (r: Self)
        requires
            self.wf(),
            rhs.wf(),
            rhs@.num != 0,
        ensures
            r.wf(),
            r@ == rat_div(self@, rhs@),
    {
        rug_div(&self, rhs)
    }

    /// The negated number.
    pub fn neg(self) -> (r: Self)
        requires
            self.wf(),
        ensures
            r.wf(),
            r@ == rat_neg(self@),
    {
        proof {
            self.lemma_view();
        }
        let neg = !self.neg && self.numer.len() > 0;
        let r = Number { neg, numer: self.numer, denom: self.denom };
        proof {
            assert(abs(r@.num) == abs(self@.num));
        }
        r
    }

    /// The absolute value.
    pub fn abs(self) -> (r: Self)
        requires
            self.wf(),
        ensures
            r.wf(),
            r@ == rat_abs(self@),
    {
        let r = Number { neg: false, numer: self.numer, denom: self.denom };
        proof {
            assert(abs(r@.num) == abs(self@.num));
        }
        r
    }

    /// The reciprocal; the number must not be zero.
    pub fn recip(self) -> (r: Self)
        requires
            self.wf(),
            self@.num != 0,
        ensures
            r.wf(),
            r@ == rat_recip(self@),
    {
        proof {
            self.lemma_view();
            lemma_gcd_comm(abs(self@.num), self@.den as nat);
            lemma_limbs_size(self.denom@);
        }
        let r = Number { neg: self.neg, numer: self.denom, denom: self.numer };
        r
    }

    /// The sign: -1, 0 or 1.
    pub fn signum(self) -> (r: Self)
        requires
            self.wf(),
        ensures
            r.wf(),
            r@ == rat_signum(self@),
    {
        proof {
            self.lemma_view();
        }
        if self.neg {
            Self::neg_one()
        } else if self.numer.len() == 0 {
            Self::zero()
        } else {
            Self::one()
        }
    }

    /// The square.
    pub fn square(self) -> (r: Self)
        requires
            self.wf(),
        ensures
            r.wf(),
            r@ == rat_mul(self@, self@),
    {
        rug_mul(&self, &self)
    }

    /// The largest integer not above this number.
    pub fn floor(self) -> (r: Self)
        requires
            self.wf(),
        ensures
            r.wf(),
            r@ == rat_floor(self@),
    {
        rug_floor(&self)
    }

    /// The smallest integer not below this number.
    pub fn ceil(self) -> (r: Self)
        requires
            self.wf(),
        ensures
            r.wf(),
            r@ == rat_ceil(self@),
    {
        rug_ceil(&self)
    }

    /// This number rounded towards zero.
    pub fn trunc(self) -> (r: Self)
        requires
            self.wf(),
        ensures
            r.wf(),
            r@ == rat_trunc(self@),
    {
        rug_trunc(&self)
    }

    /// This number rounded to the nearest integer, halves away from zero.
    pub fn round(self) -> (r: Self)
        requires
            self.wf(),
        ensures
            r.wf(),
            r@ == rat_round(self@),
    {
        rug_round(&self)
    }

    /// Gets the denominator of this number.
    pub fn denom(self) -> (r: Self)
        requires
            self.wf(),
        ensures
            r.wf(),
            r@ == rat_int(self@.den),
    {
        let one = vec![1u64];
        proof {
            lemma_gcd_one(abs(self@.den));
            lemma_limbs_single(1u64);
            assert(one@ =~= seq![1u64]);
            self.lemma_view();
        }
        Number { neg: false, numer: self.denom, denom: one }
    }

    /// Gets the numerator of this number.
    pub fn numer(self) -> (r: Self)
        requires
            self.wf(),
        ensures
            r.wf(),
            r@ == rat_int(self@.num),
    {
        let one = vec![1u64];
        proof {
            lemma_gcd_one(abs(self@.num));
            lemma_limbs_single(1u64);
            assert(one@ =~= seq![1u64]);
            lemma_limbs_size(self.denom@);
        }
        Number { neg: self.neg, numer: self.numer, denom: one }
    }

    /// Gets the numerator and denominator of this number as a tuple.
    pub fn ratio(self) -> (r: (Self, Self))
        requires
            self.wf(),
        ensures
            r.0.wf(),
            r.1.wf(),
            r.0@ == rat_int(self@.num),
            r.1@ == rat_int(self@.den),
    {
        let c = self.clone();
        (c.numer(), self.denom())
    }

    /// Gets the greatest common divisor: the gcd of the numerators over the
    /// lcm of the denominators.
    pub fn gcd(self, rhs: &Self) -> (r: Self)
        requires
            self.wf(),
            rhs.wf(),
        ensures
            r.wf(),
            r@ == rat_gcd(self@, rhs@),
    {
        let mut s = self;
        s.gcd_mut(rhs);
        s
    }

    /// Gets the greatest common divisor and assigns it in-place.
    pub fn gcd_mut(&mut self, rhs: &Self)
        requires
            old(self).wf(),
            rhs.wf(),
        ensures
            final(self).wf(),
            final(self)@ == rat_gcd(old(self)@, rhs@),
    {
        let n = rug_gcd(&self.numer, &rhs.numer);
        let d = rug_lcm(&self.denom, &rhs.denom);
        proof {
            assert(abs(self@.num) == limbs_value(self.numer@));
            assert(abs(rhs@.num) == limbs_value(rhs.numer@));
            lemma_lcm_pos(limbs_value(self.denom@), limbs_value(rhs.denom@));
        }
        *self = rug_fraction(&n, &d);
    }

    /// Gets the least common multiple: the lcm of the numerators over the gcd
    /// of the denominators.
    pub fn lcm(self, rhs: &Self) -> (r: Self)
        requires
            self.wf(),
            rhs.wf(),
        ensures
            r.wf(),
            r@ == rat_lcm(self@, rhs@),
    {
        let mut s = self;
        s.lcm_mut(rhs);
        s
    }

    /// Gets the least common multiple and assigns it in-place.
    pub fn lcm_mut(&mut self, rhs: &Self)
        requires
            old(self).wf(),
            rhs.wf(),
        ensures
            final(self).wf(),
            final(self)@ == rat_lcm(old(self)@, rhs@),
    {
        let n = rug_lcm(&self.numer, &rhs.numer);
        let d = rug_gcd(&self.denom, &rhs.denom);
        proof {
            assert(abs(self@.num) == limbs_value(self.numer@));
            assert(abs(rhs@.num) == limbs_value(rhs.numer@));
            lemma_gcd_pos(limbs_value(self.denom@), limbs_value(rhs.denom@));
        }
        *self = rug_fraction(&n, &d);
    }

    /// Raises this number to an integer power. The exponent must be an
    /// integer of absolute value below 2^32, and a negative exponent needs a
    /// non-zero base.
    pub fn pow(self, rhs: &Self) -> (r: Self)
        requires
            self.wf(),
            rhs.wf(),
            valid_exponent(self@, rhs@),
        ensures
            r.wf(),
            r@ == rat_pow_int(self@, rhs@),
    {
        proof {
            rhs.lemma_view();
            lemma_limbs_size(rhs.numer@);
        }
        let e: u32 = if rhs.numer.len() == 0 {
            0
        } else {
            rhs.numer[0] as u32
        };
        let p = rug_pow(&self, e);
        if rhs.neg {
            proof {
                lemma_pow_nonzero(self@.num, e as nat);
                assert(pow(self@.den, e as nat) > 0) by {
                    lemma_pow_positive(self@.den, e as nat);
                }
                lemma_reduce(pow(self@.num, e as nat), pow(self@.den, e as nat));
            }
            p.recip()
        } else {
            p
        }
    }
}

/// Whether `e` can serve as an exponent of `b` in `Number::pow`.
pub open spec fn valid_exponent(b: Rat, e: Rat) -> bool {
    &&& rat_is_int(e)
    &&& abs(e.num) < 0x1_0000_0000
    &&& (e.num < 0 ==> b.num != 0)
}

/// `b` raised to the integer `e`.
pub open spec fn rat_pow_int(b: Rat, e: Rat) -> Rat {
    if e.num < 0 {
        rat_recip(rat_pow(b, abs(e.num)))
    } else {
        rat_pow(b, abs(e.num))
    }
}

proof fn lemma_lcm_pos(a: nat, b: nat)
    requires
        a > 0,
        b > 0,
    ensures
        lcm(a, b) > 0,
{
    lemma_gcd_pos(a, b);
    lemma_gcd_divides(a, b);
    let g = gcd(a, b);
    vstd::arithmetic::div_mod::lemma_fundamental_div_mod(a as int, g as int);
    let k = a / g;
    assert(a == g * k);
    assert(a * b == g * (k * b)) by (nonlinear_arith)
        requires
            a == g * k,
    ;
    vstd::arithmetic::div_mod::lemma_div_multiples_vanish((k * b) as int, g as int);
    assert(k * b > 0) by (nonlinear_arith)
        requires
            a == g * k,
            a > 0,
            b > 0,
            g > 0,
    ;
}


/// The number of bytes of the text, as `str::len` gives it.
pub open spec fn byte_len(s: Seq<char>) -> nat {
    (encode_utf8(s).len() as usize) as nat
}

/// The text that is read as a rational: with a decimal point, `int.fract`
/// becomes the fraction `intfract/1` followed by one zero per byte of
/// `fract`; else the text itself.
pub open spec fn decimal_text(s: Seq<char>) -> Seq<char> {
    let i = first_match(s, seq!['.']);
    if i < 0 {
        s
    } else {
        let fract = s.skip(i + 1);
        s.take(i) + fract + seq!['/', '1'] + Seq::new(byte_len(fract), |k: int| '0')
    }
}

/// The number a text denotes, or the error for it.
pub open spec fn parse_number(s: Seq<char>) -> Result<Rat, ErrorV> {
    let t = decimal_text(s);
    match rational_text_value(t) {
        Some(r) => Ok(r),
        None => Err(ErrorV::InvalidString(t)),
    }
}

impl Number {
    /// Parses a number: an optionally signed integer or fraction, or a
    /// decimal with a point.
    pub fn parse(s: &str) -> (r: Result<Number, Error>)
        ensures
            match r {
                Ok(n) => n.wf() && parse_number(s@) == Ok::<Rat, ErrorV>(n@),
                Err(e) => parse_number(s@) == Err::<Rat, ErrorV>(e@),
            },
    {
        proof {
            reveal_strlit(".");
            reveal_strlit("/1");
            reveal_strlit("0");
            assert("."@ =~= seq!['.']);
            assert("/1"@ =~= seq!['/', '1']);
        }
        let full: String = match find(s, ".") {
            None => String::from_str(s),
            Some(i) => {
                let n = s.unicode_len();
                proof {
                    lemma_first_match(s@, "."@);
                }
                let int_part = s.substring_char(0, i);
                let fract = s.substring_char(i + 1, n);
                let z = fract.len();
                let mut t = String::from_str(int_part);
                t.append(fract);
                t.append("/1");
                let ghost head = t@;
                assert(head =~= s@.take(i as int) + s@.skip(i + 1) + seq!['/', '1']);
                assert(z as nat == byte_len(s@.skip(i + 1)));
                for k in 0..z
                    invariant
                        t@ == head + Seq::new(k as nat, |j: int| '0'),
                {
                    proof {
                        reveal_strlit("0");
                    }
                    t.append("0");
                    proof {
                        assert(t@ =~= head + Seq::new((k + 1) as nat, |j: int| '0'));
                    }
                }
                proof {
                    assert(t@ =~= decimal_text(s@));
                }
                t
            },
        };
        match rug_parse(full.as_str()) {
            Some(x) => Ok(x),
            None => Err(Error::InvalidString(full)),
        }
    }
}

impl std::str::FromStr for Number {
    type Err = Error;

    fn from_str(s: &str) -> (r: Result<Number, Error>)
        ensures
            match r {
                Ok(n) => n.wf() && parse_number(s@) == Ok::<Rat, ErrorV>(n@),
                Err(e) => parse_number(s@) == Err::<Rat, ErrorV>(e@),
            },
    {
        Number::parse(s)
    }
}

/// The quotient rounded by `mode`: 0 up, 1 down, else towards zero.
pub open spec fn rounded_quotient(a: Rat, b: Rat, mode: nat) -> Rat {
    let q = rat_div(a, b);
    if mode == 0 {
        rat_ceil(q)
    } else if mode == 1 {
        rat_floor(q)
    } else {
        rat_trunc(q)
    }
}

/// The Euclidean quotient: rounded down for a positive divisor, else up.
pub open spec fn euclid_quotient(a: Rat, b: Rat) -> Rat {
    if b.num > 0 {
        rounded_quotient(a, b, 1)
    } else {
        rounded_quotient(a, b, 0)
    }
}

/// The remainder that goes with the quotient `q`: `a - q * b`.
pub open spec fn remainder(a: Rat, b: Rat, q: Rat) -> Rat {
    rat_sub(a, rat_mul(q, b))
}

impl Number {
    /// The sign and the limbs, least significant first, of the numerator's
    /// magnitude and of the denominator.
    pub fn parts(&self) -> (r: (bool, Vec<u64>, Vec<u64>))
        requires
            self.wf(),
        ensures
            r.0 == (self@.num < 0),
            limbs_value(r.1@) == abs(self@.num),
            limbs_value(r.2@) == self@.den,
            normalized(r.1@),
            normalized(r.2@),
    {
        proof {
            self.lemma_view();
        }
        let r = (self.neg, self.numer.clone(), self.denom.clone());
        assert(r.1@ =~= self.numer@ && r.2@ =~= self.denom@);
        r
    }

    /// The quotient rounded up.
    pub fn div_ceil(self, rhs: &Self) -> (r: Self)
        requires
            self.wf(),
            rhs.wf(),
            rhs@.num != 0,
        ensures
            r.wf(),
            r@ == rounded_quotient(self@, rhs@, 0),
    {
        self.div(rhs).ceil()
    }

    /// The quotient rounded down.
    pub fn div_floor(self, rhs: &Self) -> (r: Self)
        requires
            self.wf(),
            rhs.wf(),
            rhs@.num != 0,
        ensures
            r.wf(),
            r@ == rounded_quotient(self@, rhs@, 1),
    {
        self.div(rhs).floor()
    }

    /// The quotient rounded towards zero.
    pub fn div_trunc(self, rhs: &Self) -> (r: Self)
        requires
            self.wf(),
            rhs.wf(),
            rhs@.num != 0,
        ensures
            r.wf(),
            r@ == rounded_quotient(self@, rhs@, 2),
    {
        self.div(rhs).trunc()
    }

    /// The Euclidean quotient: rounded down for a positive divisor, else
    /// rounded up.
    pub fn div_euc(self, rhs: &Self) -> (r: Self)
        requires
            self.wf(),
            rhs.wf(),
            rhs@.num != 0,
        ensures
            r.wf(),
            r@ == euclid_quotient(self@, rhs@),
    {
        if rhs.is_positive() {
            self.div_floor(rhs)
        } else {
            self.div_ceil(rhs)
        }
    }

    /// The quotient rounded up, in place.
    pub fn div_ceil_assign(&mut self, rhs: &Self)
        requires
            old(self).wf(),
            rhs.wf(),
            rhs@.num != 0,
        ensures
            final(self).wf(),
            final(self)@ == rounded_quotient(old(self)@, rhs@, 0),
    {
        let v = self.clone();
        *self = v.div_ceil(rhs);
    }

    /// The quotient rounded down, in place.
    pub fn div_floor_assign(&mut self, rhs: &Self)
        requires
            old(self).wf(),
            rhs.wf(),
            rhs@.num != 0,
        ensures
            final(self).wf(),
            final(self)@ == rounded_quotient(old(self)@, rhs@, 1),
    {
        let v = self.clone();
        *self = v.div_floor(rhs);
    }

    /// The quotient rounded towards zero, in place.
    pub fn div_trunc_assign(&mut self, rhs: &Self)
        requires
            old(self).wf(),
            rhs.wf(),
            rhs@.num != 0,
        ensures
            final(self).wf(),
            final(self)@ == rounded_quotient(old(self)@, rhs@, 2),
    {
        let v = self.clone();
        *self = v.div_trunc(rhs);
    }

    /// The Euclidean quotient, in place.
    pub fn div_euc_assign(&mut self, rhs: &Self)
        requires
            old(self).wf(),
            rhs.wf(),
            rhs@.num != 0,
        ensures
            final(self).wf(),
            final(self)@ == euclid_quotient(old(self)@, rhs@),
    {
        if rhs.is_positive() {
            self.div_floor_assign(rhs);
        } else {
            self.div_ceil_assign(rhs);
        }
    }

    /// The remainder of the quotient rounded up.
    pub fn rem_ceil(self, rhs: &Self) -> (r: Self)
        requires
            self.wf(),
            rhs.wf(),
            rhs@.num != 0,
        ensures
            r.wf(),
            r@ == remainder(self@, rhs@, rounded_quotient(self@, rhs@, 0)),
    {
        let q = self.clone().div_ceil(rhs);
        self.sub(&q.mul(rhs))
    }

    /// The remainder of the quotient rounded down.
    pub fn rem_floor(self, rhs: &Self) -> (r: Self)
        requires
            self.wf(),
            rhs.wf(),
            rhs@.num != 0,
        ensures
            r.wf(),
            r@ == remainder(self@, rhs@, rounded_quotient(self@, rhs@, 1)),
    {
        let q = self.clone().div_floor(rhs);
        self.sub(&q.mul(rhs))
    }

    /// The remainder of the quotient rounded towards zero.
    pub fn rem_trunc(self, rhs: &Self) -> (r: Self)
        requires
            self.wf(),
            rhs.wf(),
            rhs@.num != 0,
        ensures
            r.wf(),
            r@ == remainder(self@, rhs@, rounded_quotient(self@, rhs@, 2)),
    {
        let q = self.clone().div_trunc(rhs);
        self.sub(&q.mul(rhs))
    }

    /// The remainder of the Euclidean quotient.
    pub fn rem_euc(self, rhs: &Self) -> (r: Self)
        requires
            self.wf(),
            rhs.wf(),
            rhs@.num != 0,
        ensures
            r.wf(),
            r@ == remainder(self@, rhs@, euclid_quotient(self@, rhs@)),
    {
        let q = self.clone().div_euc(rhs);
        self.sub(&q.mul(rhs))
    }

    /// The remainder of the quotient rounded towards zero (the `%`
    /// operator).
    pub fn rem(self, rhs: &Self) -> (r: Self)
        requires
            self.wf(),
            rhs.wf(),
            rhs@.num != 0,
        ensures
            r.wf(),
            r@ == remainder(self@, rhs@, rounded_quotient(self@, rhs@, 2)),
    {
        self.rem_trunc(rhs)
    }
}
} // verus!
