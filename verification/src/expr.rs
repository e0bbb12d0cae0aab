//! The expression structure and its related items.
pub mod copies;
pub mod settled;
pub mod size;
pub mod simplify;
pub mod tidy;

use crate::context::{symbol_order, Symbol};
use crate::number::{Comparison, Number};
use crate::polynomial::{nonzero_coeffs, Polynomial};
use crate::rational::{rat_int, rat_lt, rat_one, rat_zero, Rat};
use vstd::prelude::*;

verus! {

/// Represents a general expression.
#[derive(Debug, PartialEq, Eq, Hash)]
pub enum Expr {
    /// Represents the sum of multiple expressions.
    Add(Vec<Expr>),
    /// Represents a function call.
    Fun(Symbol, Vec<Expr>),
    /// Represents the product of multiple expressions.
    Mul(Vec<Expr>),
    /// Represents a constant number.
    Num(Number),
    /// Represents a polynomial.
    Poly(Symbol, Polynomial),
    /// Represents the power of two expressions.
    Pow(Box<Expr>, Box<Expr>),
}

/// The mathematical value of an expression: its tree, with names as
/// character sequences, numbers as rationals and polynomials as their
/// (coefficient, degree) pairs.
pub enum ExprV {
    Add(Seq<ExprV>),
    Fun(Seq<char>, Seq<ExprV>),
    Mul(Seq<ExprV>),
    Num(Rat),
    Poly(Seq<char>, Seq<(Rat, Rat)>),
    Pow(Box<ExprV>, Box<ExprV>),
}

/// The value of an expression.
pub open spec fn expr_view(e: Expr) -> ExprV
    decreases e,
{
    match e {
        Expr::Add(v) => ExprV::Add(exprs_view(v@)),
        Expr::Fun(s, v) => ExprV::Fun(s@, exprs_view(v@)),
        Expr::Mul(v) => ExprV::Mul(exprs_view(v@)),
        Expr::Num(n) => ExprV::Num(n@),
        Expr::Poly(s, p) => ExprV::Poly(s@, p@),
        Expr::Pow(b, x) => ExprV::Pow(Box::new(expr_view(*b)), Box::new(expr_view(*x))),
    }
}

/// The values of a sequence of expressions.
pub open spec fn exprs_view(s: Seq<Expr>) -> Seq<ExprV>
    decreases s,
{
    if s.len() == 0 {
        Seq::empty()
    } else {
        exprs_view(s.subrange(0, s.len() - 1)).push(expr_view(s[s.len() - 1]))
    }
}

/// Every number and polynomial of the expression is well formed, and no
/// polynomial holds a zero coefficient.
pub open spec fn expr_wf(e: Expr) -> bool
    decreases e,
{
    match e {
        Expr::Add(v) => exprs_wf(v@),
        Expr::Fun(_, v) => exprs_wf(v@),
        Expr::Mul(v) => exprs_wf(v@),
        Expr::Num(n) => n.wf(),
        Expr::Poly(_, p) => p.wf() && nonzero_coeffs(p@),
        Expr::Pow(b, x) => expr_wf(*b) && expr_wf(*x),
    }
}

/// Every expression of the sequence is well formed.
pub open spec fn exprs_wf(s: Seq<Expr>) -> bool
    decreases s,
{
    if s.len() == 0 {
        true
    } else {
        exprs_wf(s.subrange(0, s.len() - 1)) && expr_wf(s[s.len() - 1])
    }
}

/// Facts about the values and well-formedness of sequences of expressions.
pub proof fn lemma_exprs(s: Seq<Expr>)
    ensures
        exprs_view(s).len() == s.len(),
        forall|i: int| 0 <= i < s.len() ==> #[trigger] exprs_view(s)[i] == expr_view(s[i]),
        exprs_wf(s) <==> forall|i: int| 0 <= i < s.len() ==> #[trigger] expr_wf(s[i]),
    decreases s.len(),
{
    if s.len() > 0 {
        let t = s.subrange(0, s.len() - 1);
        lemma_exprs(t);
        assert forall|i: int| 0 <= i < s.len() implies #[trigger] exprs_view(s)[i] == expr_view(s[i]) by {
            if i < s.len() - 1 {
                assert(t[i] == s[i]);
            }
        }
        if exprs_wf(s) {
            assert forall|i: int| 0 <= i < s.len() implies #[trigger] expr_wf(s[i]) by {
                if i < s.len() - 1 {
                    assert(t[i] == s[i]);
                    assert(expr_wf(t[i]));
                }
            }
        }
        if forall|i: int| 0 <= i < s.len() ==> #[trigger] expr_wf(s[i]) {
            assert forall|i: int| 0 <= i < t.len() implies #[trigger] expr_wf(t[i]) by {
                assert(t[i] == s[i]);
                assert(expr_wf(s[i]));
            }
            assert(exprs_wf(t));
            assert(expr_wf(s[s.len() - 1]));
            assert(exprs_wf(s));
        }
    }
}

impl View for Expr {
    type V = ExprV;

    open spec fn view(&self) -> ExprV {
        expr_view(*self)
    }
}

impl Expr {
    /// Every number and polynomial in the expression is well formed.
    pub open spec fn wf(&self) -> bool {
        expr_wf(*self)
    }
}

/// The order of two rationals.
pub open spec fn rat_order(a: Rat, b: Rat) -> Comparison {
    if rat_lt(a, b) {
        Comparison::Less
    } else if a == b {
        Comparison::Equal
    } else {
        Comparison::Greater
    }
}

/// `first`, or `second` when `first` is `Equal`.
pub open spec fn then_order(first: Comparison, second: Comparison) -> Comparison {
    if first == Comparison::Equal {
        second
    } else {
        first
    }
}

/// The order of two naturals.
pub open spec fn nat_order(a: nat, b: nat) -> Comparison {
    if a < b {
        Comparison::Less
    } else if a == b {
        Comparison::Equal
    } else {
        Comparison::Greater
    }
}

/// The rank of each kind of expression in the order of expressions.
pub open spec fn kind_rank(e: ExprV) -> nat {
    match e {
        ExprV::Add(_) => 0,
        ExprV::Fun(_, _) => 1,
        ExprV::Mul(_) => 2,
        ExprV::Num(_) => 3,
        ExprV::Poly(_, _) => 4,
        ExprV::Pow(_, _) => 5,
    }
}

/// The order of two polynomials: the first pair of monomials that differ
/// (by coefficient, then by degree), else the number of monomials.
pub open spec fn poly_order(p: Seq<(Rat, Rat)>, q: Seq<(Rat, Rat)>) -> Comparison
    decreases p.len(),
{
    if p.len() == 0 || q.len() == 0 {
        nat_order(p.len(), q.len())
    } else {
        let first = then_order(rat_order(p[0].0, q[0].0), rat_order(p[0].1, q[0].1));
        if first != Comparison::Equal {
            first
        } else {
            poly_order(p.drop_first(), q.drop_first())
        }
    }
}

/// The consistent order of expressions: by kind, then by contents.
pub open spec fn expr_order(a: ExprV, b: ExprV) -> Comparison
    decreases a,
{
    match (a, b) {
        (ExprV::Add(x), ExprV::Add(y)) => exprs_order(x, y),
        (ExprV::Fun(n, x), ExprV::Fun(m, y)) => then_order(symbol_order(n, m), exprs_order(x, y)),
        (ExprV::Mul(x), ExprV::Mul(y)) => exprs_order(x, y),
        (ExprV::Num(x), ExprV::Num(y)) => rat_order(x, y),
        (ExprV::Poly(s, p), ExprV::Poly(t, q)) => then_order(symbol_order(s, t), poly_order(p, q)),
        (ExprV::Pow(b1, e1), ExprV::Pow(b2, e2)) => then_order(
            expr_order(*b1, *b2),
            expr_order(*e1, *e2),
        ),
        _ => nat_order(kind_rank(a), kind_rank(b)),
    }
}

/// The order of two sequences of expressions: the first pair that differs,
/// else the lengths.
pub open spec fn exprs_order(x: Seq<ExprV>, y: Seq<ExprV>) -> Comparison
    decreases x,
{
    if x.len() == 0 || y.len() == 0 {
        nat_order(x.len(), y.len())
    } else {
        let first = expr_order(x[0], y[0]);
        if first != Comparison::Equal {
            first
        } else {
            exprs_order(x.subrange(1, x.len() as int), y.subrange(1, y.len() as int))
        }
    }
}


impl Expr {
    /// A copy of the expression.
    pub fn copy(&self) -> (r: Self)
        ensures
            r@ == self@,
            self.wf() ==> r.wf(),
        decreases self,
    {
        match self {
            Expr::Add(v) => Expr::Add(copy_exprs(v)),
            Expr::Fun(s, v) => Expr::Fun(s.clone(), copy_exprs(v)),
            Expr::Mul(v) => Expr::Mul(copy_exprs(v)),
            Expr::Num(n) => Expr::Num(n.clone()),
            Expr::Poly(s, p) => Expr::Poly(s.clone(), p.clone()),
            Expr::Pow(b, x) => Expr::Pow(Box::new((**b).copy()), Box::new((**x).copy())),
        }
    }
}

/// A copy of a vector of expressions.
pub fn copy_exprs(v: &Vec<Expr>) -> (r: Vec<Expr>)
    ensures
        exprs_view(r@) == exprs_view(v@),
        exprs_wf(v@) ==> exprs_wf(r@),
    decreases v,
{
    proof {
        lemma_exprs(v@);
    }
    let mut r: Vec<Expr> = Vec::new();
    let n = v.len();
    for i in 0..n
        invariant
            n == v@.len(),
            r@.len() == i,
            forall|j: int| 0 <= j < i ==> (#[trigger] r@[j])@ == v@[j]@,
            forall|j: int| 0 <= j < i ==> expr_wf(v@[j]) ==> expr_wf(#[trigger] r@[j]),
    {
        r.push(v[i].copy());
    }
    proof {
        lemma_exprs(r@);
        lemma_exprs(v@);
        assert(exprs_view(r@) =~= exprs_view(v@));
    }
    r
}

impl Clone for Expr {
    fn clone(&self) -> (r: Self)
        ensures
            r@ == self@,
            self.wf() ==> r.wf(),
    {
        self.copy()
    }
}

// Constants
impl Expr {
    /// The number negative one (`-1`).
    pub fn neg_one() -> (r: Self)
        ensures
            r.wf(),
            r@ == ExprV::Num(rat_int(-1)),
    {
        Expr::Num(Number::neg_one())
    }

    /// The number one (`1`).
    pub fn one() -> (r: Self)
        ensures
            r.wf(),
            r@ == ExprV::Num(rat_one()),
    {
        Expr::Num(Number::one())
    }

    /// The number zero (`0`).
    pub fn zero() -> (r: Self)
        ensures
            r.wf(),
            r@ == ExprV::Num(rat_zero()),
    {
        Expr::Num(Number::zero())
    }
}

// Guards
impl Expr {
    /// Whether this is a constant number.
    pub fn is_num(&self) -> (r: bool)
        ensures
            r == (self@ is Num),
    {
        match self {
            Expr::Num(_) => true,
            _ => false,
        }
    }

    /// Whether this is a constant number that also satisfies a predicate.
    pub fn is_num_and<F: FnOnce(&Number) -> bool>(&self, predicate: F) -> (r: bool)
        requires
            self matches Expr::Num(n) ==> call_requires(predicate, (&n,)),
        ensures
            self matches Expr::Num(n) ==> call_ensures(predicate, (&n,), r),
            !(self is Num) ==> !r,
    {
        match self {
            Expr::Num(n) => predicate(n),
            _ => false,
        }
    }

    /// Whether this is a polynomial.
    pub fn is_poly(&self) -> (r: bool)
        ensures
            r == (self@ is Poly),
    {
        match self {
            Expr::Poly(_, _) => true,
            _ => false,
        }
    }

    /// Whether this is a polynomial that also satisfies a predicate.
    pub fn is_poly_and<F: FnOnce(&Symbol, &Polynomial) -> bool>(&self, predicate: F) -> (r: bool)
        requires
            self matches Expr::Poly(s, p) ==> call_requires(predicate, (&s, &p)),
        ensures
            self matches Expr::Poly(s, p) ==> call_ensures(predicate, (&s, &p), r),
            !(self is Poly) ==> !r,
    {
        match self {
            Expr::Poly(s, p) => predicate(s, p),
            _ => false,
        }
    }
}

// Operations
impl Expr {
    /// Returns the inner value if this expression is a number, otherwise
    /// `None`.
    pub fn into_num(self) -> (r: Option<Number>)
        ensures
            r is Some <==> self@ is Num,
            r matches Some(n) ==> ExprV::Num(n@) == self@ && (self.wf() ==> n.wf()),
    {
        match self {
            Expr::Num(n) => Some(n),
            _ => None,
        }
    }

    /// Returns the inner value if this expression is a polynomial, otherwise
    /// `None`.
    pub fn into_poly(self) -> (r: Option<(Symbol, Polynomial)>)
        ensures
            r is Some <==> self@ is Poly,
            r matches Some(x) ==> ExprV::Poly(x.0@, x.1@) == self@ && (self.wf() ==> x.1.wf()
                && nonzero_coeffs(x.1@)),
    {
        match self {
            Expr::Poly(s, p) => Some((s, p)),
            _ => None,
        }
    }

    /// The sum of two expressions.
    pub fn add(self, rhs: Self) -> (r: Self)
        ensures
            r@ == ExprV::Add(seq![self@, rhs@]),
            self.wf() && rhs.wf() ==> r.wf(),
    {
        let ghost a = self;
        let ghost b = rhs;
        let r = Expr::Add(vec![self, rhs]);
        proof {
            lemma_pair(r, a, b);
        }
        r
    }

    /// The product of two expressions.
    pub fn mul(self, rhs: Self) -> (r: Self)
        ensures
            r@ == ExprV::Mul(seq![self@, rhs@]),
            self.wf() && rhs.wf() ==> r.wf(),
    {
        let ghost a = self;
        let ghost b = rhs;
        let r = Expr::Mul(vec![self, rhs]);
        proof {
            lemma_pair(r, a, b);
        }
        r
    }

    /// The power of two expressions.
    pub fn pow(self, rhs: Self) -> (r: Self)
        ensures
            r@ == ExprV::Pow(Box::new(self@), Box::new(rhs@)),
            self.wf() && rhs.wf() ==> r.wf(),
    {
        Expr::Pow(Box::new(self), Box::new(rhs))
    }

    /// The negated expression: a product with negative one.
    pub fn neg(self) -> (r: Self)
        ensures
            r@ == ExprV::Mul(seq![self@, ExprV::Num(rat_int(-1))]),
            self.wf() ==> r.wf(),
    {
        self.mul(Self::neg_one())
    }

    /// The difference: a sum with the product of `rhs` and negative one.
    pub fn sub(self, rhs: Self) -> (r: Self)
        ensures
            r@ == ExprV::Add(seq![self@, ExprV::Mul(seq![rhs@, ExprV::Num(rat_int(-1))])]),
            self.wf() && rhs.wf() ==> r.wf(),
    {
        self.add(rhs.mul(Self::neg_one()))
    }

    /// The quotient: a product with `rhs` to the power of negative one.
    pub fn div(self, rhs: Self) -> (r: Self)
        ensures
            r@ == ExprV::Mul(seq![self@, ExprV::Pow(Box::new(rhs@), Box::new(ExprV::Num(rat_int(-1))))]),
            self.wf() && rhs.wf() ==> r.wf(),
    {
        self.mul(rhs.pow(Self::neg_one()))
    }
}

proof fn lemma_pair(r: Expr, a: Expr, b: Expr)
    requires
        (r matches Expr::Add(v) && v@ == seq![a, b]) || (r matches Expr::Mul(v) && v@ == seq![a, b]),
    ensures
        r matches Expr::Add(v) ==> exprs_view(v@) == seq![a@, b@] && (a.wf() && b.wf() ==> exprs_wf(v@)),
        r matches Expr::Mul(v) ==> exprs_view(v@) == seq![a@, b@] && (a.wf() && b.wf() ==> exprs_wf(v@)),
{
    let s = seq![a, b];
    lemma_exprs(s);
    assert(exprs_view(s) =~= seq![a@, b@]);
}

impl Expr {
    /// The rank of the kind of this expression.
    fn rank(&self) -> (r: u8)
        ensures
            r as nat == kind_rank(self@),
    {
        match self {
            Expr::Add(_) => 0,
            Expr::Fun(_, _) => 1,
            Expr::Mul(_) => 2,
            Expr::Num(_) => 3,
            Expr::Poly(_, _) => 4,
            Expr::Pow(_, _) => 5,
        }
    }

    /// Compares this expression with another for a consistent ordering: by
    /// kind, then by contents.
    pub fn compare(&self, other: &Self) -> (r: Comparison)
        requires
            self.wf(),
            other.wf(),
        ensures
            r == expr_order(self@, other@),
        decreases self,
    {
        match (self, other) {
            (Expr::Add(x), Expr::Add(y)) => compare_exprs(x, y),
            (Expr::Fun(n, x), Expr::Fun(m, y)) => {
                let c = n.compare(m);
                if c != Comparison::Equal {
                    c
                } else {
                    compare_exprs(x, y)
                }
            },
            (Expr::Mul(x), Expr::Mul(y)) => compare_exprs(x, y),
            (Expr::Num(x), Expr::Num(y)) => x.compare(y),
            (Expr::Poly(s, p), Expr::Poly(t, q)) => {
                let c = s.compare(t);
                if c != Comparison::Equal {
                    c
                } else {
                    compare_polys(p, q)
                }
            },
            (Expr::Pow(b1, e1), Expr::Pow(b2, e2)) => {
                let c = (**b1).compare(&**b2);
                if c != Comparison::Equal {
                    c
                } else {
                    (**e1).compare(&**e2)
                }
            },
            _ => {
                let a = self.rank();
                let b = other.rank();
                if a < b {
                    Comparison::Less
                } else if a == b {
                    Comparison::Equal
                } else {
                    Comparison::Greater
                }
            },
        }
    }
}

/// Compares two vectors of expressions: the first pair that differs, else the
/// lengths.
fn compare_exprs(x: &Vec<Expr>, y: &Vec<Expr>) -> (r: Comparison)
    requires
        exprs_wf(x@),
        exprs_wf(y@),
    ensures
        r == exprs_order(exprs_view(x@), exprs_view(y@)),
    decreases x,
{
    proof {
        lemma_exprs(x@);
        lemma_exprs(y@);
    }
    let ghost xs = exprs_view(x@);
    let ghost ys = exprs_view(y@);
    let nx = x.len();
    let ny = y.len();
    let mut i: usize = 0;
    assert(xs.subrange(0, nx as int) =~= xs);
    assert(ys.subrange(0, ny as int) =~= ys);
    while i < nx && i < ny
        invariant
            nx == x@.len(),
            ny == y@.len(),
            xs == exprs_view(x@),
            ys == exprs_view(y@),
            xs.len() == nx,
            ys.len() == ny,
            forall|j: int| 0 <= j < nx ==> #[trigger] xs[j] == x@[j]@ && expr_wf(x@[j]),
            forall|j: int| 0 <= j < ny ==> #[trigger] ys[j] == y@[j]@ && expr_wf(y@[j]),
            i <= nx,
            i <= ny,
            exprs_order(xs, ys) == exprs_order(
                xs.subrange(i as int, nx as int),
                ys.subrange(i as int, ny as int),
            ),
        decreases nx - i,
    {
        let c = x[i].compare(&y[i]);
        let ghost a = xs.subrange(i as int, nx as int);
        let ghost b = ys.subrange(i as int, ny as int);
        assert(a[0] == xs[i as int] && b[0] == ys[i as int]);
        assert(a.len() > 0 && b.len() > 0);
        assert(c == expr_order(a[0], b[0]));
        if c != Comparison::Equal {
            assert(exprs_order(a, b) == c);
            return c;
        }
        assert(a.subrange(1, a.len() as int) =~= xs.subrange(i + 1, nx as int));
        assert(b.subrange(1, b.len() as int) =~= ys.subrange(i + 1, ny as int));
        i = i + 1;
    }
    if nx - i < ny - i {
        Comparison::Less
    } else if nx - i == ny - i {
        Comparison::Equal
    } else {
        Comparison::Greater
    }
}

/// Compares two polynomials: the first pair of monomials that differ (by
/// coefficient, then by degree), else the number of monomials.
fn compare_polys(p: &Polynomial, q: &Polynomial) -> (r: Comparison)
    requires
        p.wf(),
        q.wf(),
    ensures
        r == poly_order(p@, q@),
{
    let x = p.monomials();
    let y = q.monomials();
    let ghost ps = p@;
    let ghost qs = q@;
    let nx = x.len();
    let ny = y.len();
    let mut i: usize = 0;
    assert(ps.subrange(0, nx as int) =~= ps);
    assert(qs.subrange(0, ny as int) =~= qs);
    while i < nx && i < ny
        invariant
            nx == x@.len(),
            ny == y@.len(),
            crate::polynomial::monos_view(x@) == ps,
            crate::polynomial::monos_view(y@) == qs,
            ps == p@,
            qs == q@,
            crate::polynomial::monos_wf(x@),
            crate::polynomial::monos_wf(y@),
            i <= nx,
            i <= ny,
            poly_order(ps, qs) == poly_order(
                ps.subrange(i as int, nx as int),
                qs.subrange(i as int, ny as int),
            ),
        decreases nx - i,
    {
        assert(x@[i as int].wf() && y@[i as int].wf());
        assert(ps[i as int] == x@[i as int]@ && qs[i as int] == y@[i as int]@);
        let ghost a = ps.subrange(i as int, nx as int);
        let ghost b = qs.subrange(i as int, ny as int);
        assert(a[0] == ps[i as int] && b[0] == qs[i as int]);
        let c1 = x[i].coeff.compare(&y[i].coeff);
        let c = if c1 != Comparison::Equal {
            c1
        } else {
            x[i].degree.compare(&y[i].degree)
        };
        assert(a.len() > 0 && b.len() > 0);
        assert(c == then_order(rat_order(a[0].0, b[0].0), rat_order(a[0].1, b[0].1)));
        if c != Comparison::Equal {
            assert(poly_order(a, b) == c);
            return c;
        }
        assert(a.drop_first() =~= ps.subrange(i + 1, nx as int));
        assert(b.drop_first() =~= qs.subrange(i + 1, ny as int));
        i = i + 1;
    }
    if nx - i < ny - i {
        Comparison::Less
    } else if nx - i == ny - i {
        Comparison::Equal
    } else {
        Comparison::Greater
    }
}

/// Names compare equal exactly when they are equal.
pub proof fn lemma_symbol_order_eq(a: Seq<char>, b: Seq<char>)
    ensures
        (symbol_order(a, b) == Comparison::Equal) == (a == b),
    decreases a.len(),
{
    if a.len() > 0 && b.len() > 0 {
        lemma_symbol_order_eq(a.drop_first(), b.drop_first());
        if a[0] == b[0] && a.drop_first() == b.drop_first() {
            assert(a =~= b) by {
                assert forall|j: int| 0 <= j < a.len() implies a[j] == b[j] by {
                    if j > 0 {
                        assert(a[j] == a.drop_first()[j - 1]);
                        assert(b[j] == b.drop_first()[j - 1]);
                    }
                }
            }
        }
        if a == b {
            assert(a.drop_first() == b.drop_first());
        }
    } else if a.len() == 0 && b.len() == 0 {
        assert(a =~= b);
    }
}

/// Polynomials compare equal exactly when they are equal.
pub proof fn lemma_poly_order_eq(p: Seq<(Rat, Rat)>, q: Seq<(Rat, Rat)>)
    ensures
        (poly_order(p, q) == Comparison::Equal) == (p == q),
    decreases p.len(),
{
    if p.len() > 0 && q.len() > 0 {
        lemma_poly_order_eq(p.drop_first(), q.drop_first());
        if p[0] == q[0] && p.drop_first() == q.drop_first() {
            assert(p =~= q) by {
                assert forall|j: int| 0 <= j < p.len() implies p[j] == q[j] by {
                    if j > 0 {
                        assert(p[j] == p.drop_first()[j - 1]);
                        assert(q[j] == q.drop_first()[j - 1]);
                    }
                }
            }
        }
        if p == q {
            assert(p.drop_first() == q.drop_first());
        }
    } else if p.len() == 0 && q.len() == 0 {
        assert(p =~= q);
    }
}

/// Expressions compare equal exactly when they are equal.
pub proof fn lemma_expr_order_eq(a: ExprV, b: ExprV)
    ensures
        (expr_order(a, b) == Comparison::Equal) == (a == b),
    decreases a,
{
    match (a, b) {
        (ExprV::Add(x), ExprV::Add(y)) => {
            lemma_exprs_order_eq(x, y);
        },
        (ExprV::Fun(n, x), ExprV::Fun(m, y)) => {
            lemma_symbol_order_eq(n, m);
            lemma_exprs_order_eq(x, y);
        },
        (ExprV::Mul(x), ExprV::Mul(y)) => {
            lemma_exprs_order_eq(x, y);
        },
        (ExprV::Num(x), ExprV::Num(y)) => {},
        (ExprV::Poly(s, p), ExprV::Poly(t, q)) => {
            lemma_symbol_order_eq(s, t);
            lemma_poly_order_eq(p, q);
        },
        (ExprV::Pow(b1, e1), ExprV::Pow(b2, e2)) => {
            lemma_expr_order_eq(*b1, *b2);
            lemma_expr_order_eq(*e1, *e2);
        },
        _ => {},
    }
}

/// Sequences of expressions compare equal exactly when they are equal.
pub proof fn lemma_exprs_order_eq(x: Seq<ExprV>, y: Seq<ExprV>)
    ensures
        (exprs_order(x, y) == Comparison::Equal) == (x == y),
    decreases x,
{
    if x.len() > 0 && y.len() > 0 {
        let x2 = x.subrange(1, x.len() as int);
        let y2 = y.subrange(1, y.len() as int);
        lemma_expr_order_eq(x[0], y[0]);
        lemma_exprs_order_eq(x2, y2);
        if x[0] == y[0] && x2 == y2 {
            assert(x =~= y) by {
                assert forall|j: int| 0 <= j < x.len() implies x[j] == y[j] by {
                    if j > 0 {
                        assert(x[j] == x2[j - 1]);
                        assert(y[j] == y2[j - 1]);
                    }
                }
            }
        }
        if x == y {
            assert(x2 == y2);
        }
    } else if x.len() == 0 && y.len() == 0 {
        assert(x =~= y);
    }
}

/// Every number of the value, and every number of its polynomials, is in
/// lowest terms.
pub open spec fn canonical_value(e: ExprV) -> bool
    decreases e,
{
    match e {
        ExprV::Add(v) => canonical_values(v),
        ExprV::Fun(_, v) => canonical_values(v),
        ExprV::Mul(v) => canonical_values(v),
        ExprV::Num(n) => n.canonical(),
        ExprV::Poly(_, p) => crate::polynomial::canonical_pairs(p),
        ExprV::Pow(b, x) => canonical_value(*b) && canonical_value(*x),
    }
}

/// Every value of the sequence is canonical.
pub open spec fn canonical_values(v: Seq<ExprV>) -> bool
    decreases v,
{
    if v.len() == 0 {
        true
    } else {
        canonical_value(v[0]) && canonical_values(v.subrange(1, v.len() as int))
    }
}

/// The values of well-formed expressions are canonical.
pub proof fn lemma_wf_canonical(e: Expr)
    requires
        e.wf(),
    ensures
        canonical_value(e@),
    decreases e,
{
    match e {
        Expr::Add(v) => lemma_wf_canonical_seq(v@),
        Expr::Fun(_, v) => lemma_wf_canonical_seq(v@),
        Expr::Mul(v) => lemma_wf_canonical_seq(v@),
        Expr::Num(_) => {},
        Expr::Poly(_, p) => p.lemma_canonical(),
        Expr::Pow(b, x) => {
            lemma_wf_canonical(*b);
            lemma_wf_canonical(*x);
        },
    }
}

proof fn lemma_wf_canonical_seq(v: Seq<Expr>)
    requires
        exprs_wf(v),
    ensures
        canonical_values(exprs_view(v)),
    decreases v,
{
    lemma_exprs(v);
    if v.len() > 0 {
        let w = v.subrange(1, v.len() as int);
        assert(exprs_wf(w)) by {
            lemma_exprs(w);
            assert forall|i: int| 0 <= i < w.len() implies #[trigger] expr_wf(w[i]) by {
                assert(w[i] == v[i + 1]);
            }
        }
        lemma_wf_canonical(v[0]);
        lemma_wf_canonical_seq(w);
        lemma_exprs(w);
        assert(exprs_view(w) =~= exprs_view(v).subrange(1, v.len() as int));
    }
}

/// `x` and `y` are the results of comparing two values in both directions:
/// less one way is greater the other, and equal is equal.
pub open spec fn opposite(x: Comparison, y: Comparison) -> bool {
    &&& (x == Comparison::Less) == (y == Comparison::Greater)
    &&& (x == Comparison::Equal) == (y == Comparison::Equal)
}

proof fn lemma_then_opposite(x1: Comparison, x2: Comparison, y1: Comparison, y2: Comparison)
    requires
        opposite(x1, y1),
        opposite(x2, y2),
    ensures
        opposite(then_order(x1, x2), then_order(y1, y2)),
{
}

proof fn lemma_rat_opposite(a: Rat, b: Rat)
    requires
        a.canonical(),
        b.canonical(),
    ensures
        opposite(rat_order(a, b), rat_order(b, a)),
{
    crate::rational::lemma_trichotomy(a, b);
}

/// Names compare oppositely in the two directions.
pub proof fn lemma_symbol_opposite(a: Seq<char>, b: Seq<char>)
    ensures
        opposite(symbol_order(a, b), symbol_order(b, a)),
    decreases a.len(),
{
    if a.len() > 0 && b.len() > 0 && a[0] == b[0] {
        lemma_symbol_opposite(a.drop_first(), b.drop_first());
    }
}

proof fn lemma_poly_opposite(p: Seq<(Rat, Rat)>, q: Seq<(Rat, Rat)>)
    requires
        crate::polynomial::canonical_pairs(p),
        crate::polynomial::canonical_pairs(q),
    ensures
        opposite(poly_order(p, q), poly_order(q, p)),
    decreases p.len(),
{
    if p.len() > 0 && q.len() > 0 {
        lemma_rat_opposite(p[0].0, q[0].0);
        lemma_rat_opposite(p[0].1, q[0].1);
        lemma_then_opposite(
            rat_order(p[0].0, q[0].0),
            rat_order(p[0].1, q[0].1),
            rat_order(q[0].0, p[0].0),
            rat_order(q[0].1, p[0].1),
        );
        let p2 = p.drop_first();
        let q2 = q.drop_first();
        assert(crate::polynomial::canonical_pairs(p2)) by {
            assert forall|i: int| 0 <= i < p2.len() implies (#[trigger] p2[i]).0.canonical() && p2[i].1.canonical() by {
                assert(p2[i] == p[i + 1]);
            }
        }
        assert(crate::polynomial::canonical_pairs(q2)) by {
            assert forall|i: int| 0 <= i < q2.len() implies (#[trigger] q2[i]).0.canonical() && q2[i].1.canonical() by {
                assert(q2[i] == q[i + 1]);
            }
        }
        lemma_poly_opposite(p2, q2);
    }
}

/// The order of expressions is antisymmetric: comparing the other way round
/// swaps less and greater and keeps equal.
pub proof fn lemma_order_opposite(a: ExprV, b: ExprV)
    requires
        canonical_value(a),
        canonical_value(b),
    ensures
        opposite(expr_order(a, b), expr_order(b, a)),
    decreases a,
{
    match (a, b) {
        (ExprV::Add(x), ExprV::Add(y)) => lemma_orders_opposite(x, y),
        (ExprV::Fun(n, x), ExprV::Fun(m, y)) => {
            lemma_symbol_opposite(n, m);
            lemma_orders_opposite(x, y);
            lemma_then_opposite(symbol_order(n, m), exprs_order(x, y), symbol_order(m, n), exprs_order(y, x));
        },
        (ExprV::Mul(x), ExprV::Mul(y)) => lemma_orders_opposite(x, y),
        (ExprV::Num(x), ExprV::Num(y)) => lemma_rat_opposite(x, y),
        (ExprV::Poly(s, p), ExprV::Poly(t, q)) => {
            lemma_symbol_opposite(s, t);
            lemma_poly_opposite(p, q);
            lemma_then_opposite(symbol_order(s, t), poly_order(p, q), symbol_order(t, s), poly_order(q, p));
        },
        (ExprV::Pow(b1, e1), ExprV::Pow(b2, e2)) => {
            lemma_order_opposite(*b1, *b2);
            lemma_order_opposite(*e1, *e2);
            lemma_then_opposite(expr_order(*b1, *b2), expr_order(*e1, *e2), expr_order(*b2, *b1), expr_order(*e2, *e1));
        },
        _ => {},
    }
}

/// Sequences of expressions compare oppositely in the two directions.
pub proof fn lemma_orders_opposite(x: Seq<ExprV>, y: Seq<ExprV>)
    requires
        canonical_values(x),
        canonical_values(y),
    ensures
        opposite(exprs_order(x, y), exprs_order(y, x)),
    decreases x,
{
    if x.len() > 0 && y.len() > 0 {
        lemma_order_opposite(x[0], y[0]);
        lemma_orders_opposite(x.subrange(1, x.len() as int), y.subrange(1, y.len() as int));
    }
}


/// `z` is how `a` compares with `c`, where `x` is how `a` compares with `b`
/// and `y` how `b` compares with `c`: less before less is less.
pub open spec fn chained(x: Comparison, y: Comparison, z: Comparison) -> bool {
    &&& x == Comparison::Less && y == Comparison::Less ==> z == Comparison::Less
    &&& x == Comparison::Equal ==> z == y
    &&& y == Comparison::Equal ==> z == x
}

proof fn lemma_then_chained(
    x1: Comparison,
    x2: Comparison,
    y1: Comparison,
    y2: Comparison,
    z1: Comparison,
    z2: Comparison,
)
    requires
        chained(x1, y1, z1),
        x1 == Comparison::Equal && y1 == Comparison::Equal ==> chained(x2, y2, z2),
    ensures
        chained(then_order(x1, x2), then_order(y1, y2), then_order(z1, z2)),
{
}

proof fn lemma_rat_chained(a: Rat, b: Rat, c: Rat)
    requires
        a.canonical(),
        b.canonical(),
        c.canonical(),
    ensures
        chained(rat_order(a, b), rat_order(b, c), rat_order(a, c)),
{
    if rat_lt(a, b) && rat_lt(b, c) {
        crate::rational::lemma_lt_trans(a, b, c);
    }
}

/// The order of names is transitive.
pub proof fn lemma_symbol_chained(a: Seq<char>, b: Seq<char>, c: Seq<char>)
    ensures
        chained(symbol_order(a, b), symbol_order(b, c), symbol_order(a, c)),
    decreases a.len(),
{
    lemma_symbol_order_eq(a, b);
    lemma_symbol_order_eq(b, c);
    if a.len() > 0 && b.len() > 0 && c.len() > 0 && a[0] == b[0] && b[0] == c[0] {
        lemma_symbol_chained(a.drop_first(), b.drop_first(), c.drop_first());
    }
}

proof fn lemma_poly_chained(p: Seq<(Rat, Rat)>, q: Seq<(Rat, Rat)>, r: Seq<(Rat, Rat)>)
    requires
        crate::polynomial::canonical_pairs(p),
        crate::polynomial::canonical_pairs(q),
        crate::polynomial::canonical_pairs(r),
    ensures
        chained(poly_order(p, q), poly_order(q, r), poly_order(p, r)),
    decreases p.len(),
{
    lemma_poly_order_eq(p, q);
    lemma_poly_order_eq(q, r);
    if p.len() > 0 && q.len() > 0 && r.len() > 0 {
        lemma_rat_chained(p[0].0, q[0].0, r[0].0);
        lemma_rat_chained(p[0].1, q[0].1, r[0].1);
        lemma_then_chained(
            rat_order(p[0].0, q[0].0),
            rat_order(p[0].1, q[0].1),
            rat_order(q[0].0, r[0].0),
            rat_order(q[0].1, r[0].1),
            rat_order(p[0].0, r[0].0),
            rat_order(p[0].1, r[0].1),
        );
        let p2 = p.drop_first();
        let q2 = q.drop_first();
        let r2 = r.drop_first();
        assert(crate::polynomial::canonical_pairs(p2)) by {
            assert forall|i: int| 0 <= i < p2.len() implies (#[trigger] p2[i]).0.canonical() && p2[i].1.canonical() by {
                assert(p2[i] == p[i + 1]);
            }
        }
        assert(crate::polynomial::canonical_pairs(q2)) by {
            assert forall|i: int| 0 <= i < q2.len() implies (#[trigger] q2[i]).0.canonical() && q2[i].1.canonical() by {
                assert(q2[i] == q[i + 1]);
            }
        }
        assert(crate::polynomial::canonical_pairs(r2)) by {
            assert forall|i: int| 0 <= i < r2.len() implies (#[trigger] r2[i]).0.canonical() && r2[i].1.canonical() by {
                assert(r2[i] == r[i + 1]);
            }
        }
        lemma_poly_chained(p2, q2, r2);
    }
}

/// The order of expressions is transitive: less before less is less, and
/// an equal value compares the same.
pub proof fn lemma_order_chained(a: ExprV, b: ExprV, c: ExprV)
    requires
        canonical_value(a),
        canonical_value(b),
        canonical_value(c),
    ensures
        chained(expr_order(a, b), expr_order(b, c), expr_order(a, c)),
    decreases a,
{
    lemma_expr_order_eq(a, b);
    lemma_expr_order_eq(b, c);
    match (a, b, c) {
        (ExprV::Add(x), ExprV::Add(y), ExprV::Add(z)) => lemma_orders_chained(x, y, z),
        (ExprV::Fun(n1, x), ExprV::Fun(n2, y), ExprV::Fun(n3, z)) => {
            lemma_symbol_chained(n1, n2, n3);
            lemma_symbol_order_eq(n1, n2);
            lemma_symbol_order_eq(n2, n3);
            lemma_orders_chained(x, y, z);
            lemma_then_chained(
                symbol_order(n1, n2),
                exprs_order(x, y),
                symbol_order(n2, n3),
                exprs_order(y, z),
                symbol_order(n1, n3),
                exprs_order(x, z),
            );
        },
        (ExprV::Mul(x), ExprV::Mul(y), ExprV::Mul(z)) => lemma_orders_chained(x, y, z),
        (ExprV::Num(x), ExprV::Num(y), ExprV::Num(z)) => lemma_rat_chained(x, y, z),
        (ExprV::Poly(s1, p), ExprV::Poly(s2, q), ExprV::Poly(s3, r)) => {
            lemma_symbol_chained(s1, s2, s3);
            lemma_symbol_order_eq(s1, s2);
            lemma_symbol_order_eq(s2, s3);
            lemma_poly_chained(p, q, r);
            lemma_then_chained(
                symbol_order(s1, s2),
                poly_order(p, q),
                symbol_order(s2, s3),
                poly_order(q, r),
                symbol_order(s1, s3),
                poly_order(p, r),
            );
        },
        (ExprV::Pow(b1, e1), ExprV::Pow(b2, e2), ExprV::Pow(b3, e3)) => {
            lemma_order_chained(*b1, *b2, *b3);
            lemma_order_chained(*e1, *e2, *e3);
            lemma_expr_order_eq(*b1, *b2);
            lemma_expr_order_eq(*b2, *b3);
            lemma_then_chained(
                expr_order(*b1, *b2),
                expr_order(*e1, *e2),
                expr_order(*b2, *b3),
                expr_order(*e2, *e3),
                expr_order(*b1, *b3),
                expr_order(*e1, *e3),
            );
        },
        _ => {},
    }
}

/// Sequences of expressions are ordered transitively.
pub proof fn lemma_orders_chained(x: Seq<ExprV>, y: Seq<ExprV>, z: Seq<ExprV>)
    requires
        canonical_values(x),
        canonical_values(y),
        canonical_values(z),
    ensures
        chained(exprs_order(x, y), exprs_order(y, z), exprs_order(x, z)),
    decreases x,
{
    lemma_exprs_order_eq(x, y);
    lemma_exprs_order_eq(y, z);
    if x.len() > 0 && y.len() > 0 && z.len() > 0 {
        lemma_order_chained(x[0], y[0], z[0]);
        lemma_expr_order_eq(x[0], y[0]);
        lemma_expr_order_eq(y[0], z[0]);
        lemma_orders_chained(
            x.subrange(1, x.len() as int),
            y.subrange(1, y.len() as int),
            z.subrange(1, z.len() as int),
        );
    }
}

} // verus!
