//! The monomial structure and its related algorithms.
use crate::error::{Error, ErrorV};
use crate::number::{parse_number, valid_exponent, rat_pow_int, Number};
use crate::rational::{rat_add, rat_div, rat_int, rat_mul, rat_neg, rat_one, rat_sub, rat_zero, Rat};
use crate::text::{find, first_match, lemma_first_match};
use vstd::prelude::*;
use vstd::string::*;

verus! {

/// A monomial `ax^b` consisting of coefficient `a` and degree `b`.
#[derive(Debug, PartialEq, Eq, Hash)]
pub struct Monomial {
    /// The coefficient of the monomial
    pub coeff: Number,
    /// The degree of the monomial
    pub degree: Number,
}

impl View for Monomial {
    /// The coefficient and the degree.
    type V = (Rat, Rat);

    open spec fn view(&self) -> (Rat, Rat) {
        (self.coeff@, self.degree@)
    }
}

impl Clone for Monomial {
    fn clone(&self) -> (r: Self)
        ensures
            r@ == self@,
            self.wf() ==> r.wf(),
    {
        Monomial { coeff: self.coeff.clone(), degree: self.degree.clone() }
    }
}

impl Monomial {
    /// Both numbers are well formed.
    pub open spec fn wf(&self) -> bool {
        self.coeff.wf() && self.degree.wf()
    }

    /// Creates a constant monomial; the coefficient must not be zero.
    pub fn constant(coeff: Number) -> (r: Self)
        requires
            coeff.wf(),
            coeff@.num != 0,
        ensures
            r.wf(),
            r@ == (coeff@, rat_zero()),
    {
        Self::new(coeff, Number::zero())
    }

    /// Creates a linear monomial; the coefficient must not be zero.
    pub fn linear(coeff: Number) -> (r: Self)
        requires
            coeff.wf(),
            coeff@.num != 0,
        ensures
            r.wf(),
            r@ == (coeff@, rat_int(1)),
    {
        Self::new(coeff, Number::one())
    }

    /// Creates a new monomial; the coefficient must not be zero.
    pub fn new(coeff: Number, degree: Number) -> (r: Self)
        requires
            coeff.wf(),
            degree.wf(),
            coeff@.num != 0,
        ensures
            r.wf(),
            r@ == (coeff@, degree@),
    {
        Monomial { coeff, degree }
    }

    /// Multiplies by another monomial: coefficients multiply, degrees add.
    pub fn mul_mono(self, rhs: &Monomial) -> (r: Self)
        requires
            self.wf(),
            rhs.wf(),
        ensures
            r.wf(),
            r@ == (rat_mul(self@.0, rhs@.0), rat_add(self@.1, rhs@.1)),
    {
        Monomial { coeff: self.coeff.mul(&rhs.coeff), degree: self.degree.add(&rhs.degree) }
    }

    /// Divides by another monomial: coefficients divide, degrees subtract.
    pub fn div_mono(self, rhs: &Monomial) -> (r: Self)
        requires
            self.wf(),
            rhs.wf(),
            rhs@.0.num != 0,
        ensures
            r.wf(),
            r@ == (rat_div(self@.0, rhs@.0), rat_sub(self@.1, rhs@.1)),
    {
        Monomial { coeff: self.coeff.div(&rhs.coeff), degree: self.degree.sub(&rhs.degree) }
    }

    /// Multiplies the coefficient by a number.
    pub fn mul_num(self, rhs: &Number) -> (r: Self)
        requires
            self.wf(),
            rhs.wf(),
        ensures
            r.wf(),
            r@ == (rat_mul(self@.0, rhs@), self@.1),
    {
        Monomial { coeff: self.coeff.mul(rhs), degree: self.degree }
    }

    /// Divides the coefficient by a non-zero number.
    pub fn div_num(self, rhs: &Number) -> (r: Self)
        requires
            self.wf(),
            rhs.wf(),
            rhs@.num != 0,
        ensures
            r.wf(),
            r@ == (rat_div(self@.0, rhs@), self@.1),
    {
        Monomial { coeff: self.coeff.div(rhs), degree: self.degree }
    }

    /// Negates the coefficient.
    pub fn neg(self) -> (r: Self)
        requires
            self.wf(),
        ensures
            r.wf(),
            r@ == (rat_neg(self@.0), self@.1),
    {
        Monomial { coeff: self.coeff.neg(), degree: self.degree }
    }

    /// Raises the monomial to an integer power: the coefficient is raised,
    /// the degree multiplied.
    pub fn pow(self, rhs: &Number) -> (r: Self)
        requires
            self.wf(),
            rhs.wf(),
            valid_exponent(self@.0, rhs@),
        ensures
            r.wf(),
            r@ == (rat_pow_int(self@.0, rhs@), rat_mul(self@.1, rhs@)),
    {
        Monomial { coeff: self.coeff.pow(rhs), degree: self.degree.mul(rhs) }
    }
}


/// The monomial a text denotes, `<coefficient>x^<degree>`, `<coefficient>x`
/// or `<coefficient>`, or the error for it. With a non-zero degree an empty
/// coefficient or `+` is one and `-` is negative one; a zero coefficient is
/// an error.
pub open spec fn parse_monomial(s: Seq<char>) -> Result<(Rat, Rat), ErrorV> {
    let i = first_match(s, seq!['x', '^']);
    let ends_x = s.len() > 0 && s.last() == 'x';
    let init = if i >= 0 {
        s.take(i)
    } else if ends_x {
        s.drop_last()
    } else {
        s
    };
    let degree = if i >= 0 {
        parse_number(s.skip(i + 2))
    } else if ends_x {
        Ok(rat_one())
    } else {
        Ok(rat_zero())
    };
    match degree {
        Err(e) => Err(e),
        Ok(d) => {
            let coeff = if d.num != 0 && (init == Seq::<char>::empty() || init == seq!['+']) {
                Ok(rat_one())
            } else if d.num != 0 && init == seq!['-'] {
                Ok(rat_int(-1))
            } else {
                parse_number(init)
            };
            match coeff {
                Err(e) => Err(e),
                Ok(c) => if c.num == 0 {
                    Err(ErrorV::InvalidNumber(c))
                } else {
                    Ok((c, d))
                },
            }
        },
    }
}

/// The texts of the signs differ from each other and from the empty text.
proof fn lemma_sign_texts()
    ensures
        seq!['-'] != Seq::<char>::empty(),
        seq!['+'] != Seq::<char>::empty(),
        seq!['-'] != seq!['+'],
{
    assert(seq!['-'].len() == 1);
    assert(seq!['+'].len() == 1);
    assert(seq!['-'][0] != seq!['+'][0]);
}

/// In a coefficient without `x` followed by `x^`, the first `x^` is the one
/// after the coefficient.
proof fn lemma_find_power(c: Seq<char>, t: Seq<char>)
    requires
        forall|i: int| 0 <= i < c.len() ==> c[i] != 'x',
    ensures
        first_match(c + seq!['x', '^'] + t, seq!['x', '^']) == c.len(),
    decreases c.len(),
{
    let s = c + seq!['x', '^'] + t;
    if c.len() == 0 {
        assert(s.take(2) =~= seq!['x', '^']);
    } else {
        assert(s[0] == c[0]);
        assert(s.take(2) != seq!['x', '^']) by {
            assert(s.take(2)[0] == c[0]);
        }
        let c1 = c.drop_first();
        assert(s.drop_first() =~= c1 + seq!['x', '^'] + t);
        lemma_find_power(c1, t);
    }
}

/// Text without `x` holds no `x^`.
proof fn lemma_no_power(s: Seq<char>)
    requires
        forall|i: int| 0 <= i < s.len() ==> s[i] != 'x',
    ensures
        first_match(s, seq!['x', '^']) < 0,
{
    lemma_first_match(s, seq!['x', '^']);
    let i = first_match(s, seq!['x', '^']);
    if i >= 0 {
        assert(s.subrange(i, i + 2)[0] == s[i]);
    }
}

/// `<coefficient>x^<degree>` reads as that coefficient and degree: with a
/// non-zero degree an empty coefficient or `+` is one and `-` is negative
/// one; any other coefficient is read as a number, and a zero or a text that
/// is no number is an error.
pub proof fn lemma_parse_power(c: Seq<char>, t: Seq<char>, d: Rat)
    requires
        forall|i: int| 0 <= i < c.len() ==> c[i] != 'x',
        parse_number(t) == Ok::<Rat, ErrorV>(d),
    ensures
        d.num != 0 && (c == Seq::<char>::empty() || c == seq!['+']) ==> parse_monomial(c + seq!['x', '^'] + t)
            == Ok::<(Rat, Rat), ErrorV>((rat_one(), d)),
        d.num != 0 && c == seq!['-'] ==> parse_monomial(c + seq!['x', '^'] + t) == Ok::<(Rat, Rat), ErrorV>(
            (rat_int(-1), d),
        ),
        parse_number(c) is Ok && parse_number(c)->Ok_0.num != 0 && !(d.num != 0 && (c == Seq::<char>::empty() || c == seq!['+']
            || c == seq!['-'])) ==> parse_monomial(c + seq!['x', '^'] + t) == Ok::<(Rat, Rat), ErrorV>((parse_number(c)->Ok_0, d)),
        parse_number(c) is Ok && parse_number(c)->Ok_0.num == 0 && !(d.num != 0 && (c == Seq::<char>::empty() || c
            == seq!['+'] || c == seq!['-'])) ==> parse_monomial(c + seq!['x', '^'] + t) == Err::<(Rat, Rat), ErrorV>(
            ErrorV::InvalidNumber(parse_number(c)->Ok_0),
        ),
        parse_number(c) is Err && !(d.num != 0 && (c == Seq::<char>::empty() || c == seq!['+'] || c == seq!['-']))
            ==> parse_monomial(c + seq!['x', '^'] + t) == Err::<(Rat, Rat), ErrorV>(parse_number(c)->Err_0),
{
    let s = c + seq!['x', '^'] + t;
    lemma_find_power(c, t);
    assert(s.take(c.len() as int) =~= c);
    assert(s.skip(c.len() as int + 2) =~= t);
    lemma_sign_texts();
}

/// `<coefficient>x^<degree>` with a degree that is not a number is the
/// error for the degree.
pub proof fn lemma_parse_power_error(c: Seq<char>, t: Seq<char>)
    requires
        forall|i: int| 0 <= i < c.len() ==> c[i] != 'x',
        parse_number(t) is Err,
    ensures
        parse_monomial(c + seq!['x', '^'] + t) == Err::<(Rat, Rat), ErrorV>(parse_number(t)->Err_0),
{
    let s = c + seq!['x', '^'] + t;
    lemma_find_power(c, t);
    assert(s.skip(c.len() as int + 2) =~= t);
}

/// `<coefficient>x` reads as that coefficient and degree one: an empty
/// coefficient or `+` is one and `-` is negative one; any other coefficient
/// is read as a number, and a zero or a text that is no number is an error.
pub proof fn lemma_parse_linear(c: Seq<char>)
    requires
        forall|i: int| 0 <= i < c.len() ==> c[i] != 'x',
    ensures
        c == Seq::<char>::empty() || c == seq!['+'] ==> parse_monomial(c.push('x')) == Ok::<(Rat, Rat), ErrorV>(
            (rat_one(), rat_one()),
        ),
        c == seq!['-'] ==> parse_monomial(c.push('x')) == Ok::<(Rat, Rat), ErrorV>((rat_int(-1), rat_one())),
        parse_number(c) is Ok && parse_number(c)->Ok_0.num != 0 && !(c == Seq::<char>::empty() || c == seq!['+'] || c
            == seq!['-']) ==> parse_monomial(c.push('x')) == Ok::<(Rat, Rat), ErrorV>((parse_number(c)->Ok_0, rat_one())),
        parse_number(c) is Ok && parse_number(c)->Ok_0.num == 0 && !(c == Seq::<char>::empty() || c == seq!['+'] || c
            == seq!['-']) ==> parse_monomial(c.push('x')) == Err::<(Rat, Rat), ErrorV>(
            ErrorV::InvalidNumber(parse_number(c)->Ok_0),
        ),
        parse_number(c) is Err && !(c == Seq::<char>::empty() || c == seq!['+'] || c == seq!['-']) ==> parse_monomial(
            c.push('x'),
        ) == Err::<(Rat, Rat), ErrorV>(parse_number(c)->Err_0),
{
    let s = c.push('x');
    assert forall|i: int| 0 <= i < s.len() - 1 implies s[i] != 'x' by {
        assert(s[i] == c[i]);
    }
    lemma_first_match(s, seq!['x', '^']);
    let i = first_match(s, seq!['x', '^']);
    if i >= 0 {
        assert(s.subrange(i, i + 2)[0] == s[i]);
        assert(s.subrange(i, i + 2)[1] == s[i + 1]);
    }
    assert(first_match(s, seq!['x', '^']) < 0);
    assert(s.len() > 0 && s.last() == 'x');
    assert(s.drop_last() =~= c);
    assert(rat_one().num != 0);
    assert(rat_int(-1).num != 0);
    lemma_sign_texts();
    if c == seq!['-'] {
        assert(s.drop_last() == seq!['-']);
        assert(parse_monomial(s) == Ok::<(Rat, Rat), ErrorV>((rat_int(-1), rat_one())));
    }
}

/// A coefficient alone reads as that number with degree zero; a zero or a
/// text that is no number is an error.
pub proof fn lemma_parse_constant(c: Seq<char>)
    requires
        forall|i: int| 0 <= i < c.len() ==> c[i] != 'x',
    ensures
        parse_number(c) is Ok && parse_number(c)->Ok_0.num != 0 ==> parse_monomial(c) == Ok::<(Rat, Rat), ErrorV>(
            (parse_number(c)->Ok_0, rat_zero()),
        ),
        parse_number(c) is Ok && parse_number(c)->Ok_0.num == 0 ==> parse_monomial(c) == Err::<(Rat, Rat), ErrorV>(
            ErrorV::InvalidNumber(parse_number(c)->Ok_0),
        ),
        parse_number(c) is Err ==> parse_monomial(c) == Err::<(Rat, Rat), ErrorV>(parse_number(c)->Err_0),
{
    lemma_no_power(c);
    if c.len() > 0 {
        assert(c[c.len() - 1] != 'x');
    }
}

impl Monomial {
    /// Parses a monomial such as `3x^2`, `-x`, `x^0.5` or `7`.
    pub fn parse(s: &str) -> (r: Result<Monomial, Error>)
        ensures
            match r {
                Ok(m) => m.wf() && parse_monomial(s@) == Ok::<(Rat, Rat), ErrorV>(m@),
                Err(e) => parse_monomial(s@) == Err::<(Rat, Rat), ErrorV>(e@),
            },
            r matches Err(Error::InvalidNumber(z)) ==> z.wf(),
    {
        proof {
            reveal_strlit("x^");
            assert("x^"@ =~= seq!['x', '^']);
        }
        let n = s.unicode_len();
        let (init, degree): (&str, Number) = match find(s, "x^") {
            Some(i) => {
                proof {
                    lemma_first_match(s@, "x^"@);
                }
                let tail = s.substring_char(i + 2, n);
                match Number::parse(tail) {
                    Err(e) => return Err(e),
                    Ok(d) => (s.substring_char(0, i), d),
                }
            },
            None => if n > 0 && s.get_char(n - 1) == 'x' {
                (s.substring_char(0, n - 1), Number::one())
            } else {
                (s, Number::zero())
            },
        };
        let m = init.unicode_len();
        let plus = m == 0 || (m == 1 && init.get_char(0) == '+');
        let minus = m == 1 && init.get_char(0) == '-';
        proof {
            assert(plus == (init@ == Seq::<char>::empty() || init@ == seq!['+'])) by {
                if m == 1 && init@[0] == '+' {
                    assert(init@ =~= seq!['+']);
                }
                if m == 0 {
                    assert(init@ =~= Seq::<char>::empty());
                }
            }
            assert(minus == (init@ == seq!['-'])) by {
                if m == 1 && init@[0] == '-' {
                    assert(init@ =~= seq!['-']);
                }
            }
        }
        let coeff = if !degree.is_zero() && plus {
            Number::one()
        } else if !degree.is_zero() && minus {
            Number::neg_one()
        } else {
            match Number::parse(init) {
                Err(e) => return Err(e),
                Ok(c) => c,
            }
        };
        if coeff.is_zero() {
            return Err(Error::InvalidNumber(coeff));
        }
        Ok(Monomial::new(coeff, degree))
    }
}

impl std::str::FromStr for Monomial {
    type Err = Error;

    fn from_str(s: &str) -> (r: Result<Monomial, Error>)
        ensures
            match r {
                Ok(m) => m.wf() && parse_monomial(s@) == Ok::<(Rat, Rat), ErrorV>(m@),
                Err(e) => parse_monomial(s@) == Err::<(Rat, Rat), ErrorV>(e@),
            },
            r matches Err(Error::InvalidNumber(z)) ==> z.wf(),
    {
        Monomial::parse(s)
    }
}
} // verus!
