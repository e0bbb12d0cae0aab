//! The written form of monomials, polynomials and expressions, as a
//! sequence of pieces: text, and numbers that the caller writes out.
use crate::expr::{Expr, ExprV};
use crate::monomial::Monomial;
use crate::number::Number;
use crate::polynomial::Polynomial;
use crate::rational::{rat_int, rat_one, Rat};
use vstd::prelude::*;
use vstd::string::*;

verus! {

/// A piece of written output.
#[derive(Debug)]
pub enum Piece {
    /// Text written as it is.
    Text(String),
    /// A number, written by its absolute value when the flag is set.
    Num(Number, bool),
}

/// The value of a piece.
pub enum PieceV {
    Text(Seq<char>),
    Num(Rat, bool),
}

impl View for Piece {
    type V = PieceV;

    open spec fn view(&self) -> PieceV {
        match self {
            Piece::Text(s) => PieceV::Text(s@),
            Piece::Num(n, a) => PieceV::Num(n@, *a),
        }
    }
}

/// The values of a sequence of pieces.
pub open spec fn pieces_view(v: Seq<Piece>) -> Seq<PieceV> {
    v.map_values(|p: Piece| p@)
}

/// Every number among the pieces is well formed.
pub open spec fn pieces_wf(v: Seq<Piece>) -> bool {
    forall|i: int| 0 <= i < v.len() ==> (#[trigger] v[i] matches Piece::Num(n, _) ==> n.wf())
}

/// A text piece.
pub open spec fn text(s: Seq<char>) -> PieceV {
    PieceV::Text(s)
}

/// A monomial in the variable `sym`: a constant is its number; else the
/// coefficient (a lone `-` for negative one unless written by absolute
/// value, nothing for one), then `sym`, then `^` and the degree unless the
/// degree is one.
pub open spec fn monomial_pieces(m: (Rat, Rat), abs: bool, sym: Seq<char>) -> Seq<PieceV> {
    if m.1.num == 0 {
        seq![PieceV::Num(m.0, abs)]
    } else {
        let head = if m.0 == rat_int(-1) && !abs {
            seq![text(seq!['-'])]
        } else if m.0 != rat_int(-1) && m.0 != rat_one() {
            seq![PieceV::Num(m.0, abs)]
        } else {
            Seq::empty()
        };
        let tail = if m.1 == rat_one() {
            seq![text(sym)]
        } else {
            seq![text(sym), text(seq!['^']), PieceV::Num(m.1, false)]
        };
        head + tail
    }
}

/// The monomials after the first, each after ` - ` (negative coefficient)
/// or ` + `, by absolute value.
pub open spec fn poly_tail_pieces(p: Seq<(Rat, Rat)>, sym: Seq<char>) -> Seq<PieceV>
    decreases p.len(),
{
    if p.len() == 0 {
        Seq::empty()
    } else {
        let m = p.last();
        let sign = if m.0.num < 0 {
            seq![' ', '-', ' ']
        } else {
            seq![' ', '+', ' ']
        };
        poly_tail_pieces(p.drop_last(), sym) + seq![text(sign)] + monomial_pieces(m, true, sym)
    }
}

/// A polynomial in the variable `sym`: `0`, or its first monomial (by
/// absolute value if `abs`) and then the others.
pub open spec fn polynomial_pieces(p: Seq<(Rat, Rat)>, abs: bool, sym: Seq<char>) -> Seq<PieceV> {
    if p.len() == 0 {
        seq![text(seq!['0'])]
    } else {
        monomial_pieces(p[0], abs, sym) + poly_tail_pieces(p.skip(1), sym)
    }
}

/// Whether an expression is written in parentheses inside a product or a
/// power: a sum, product or polynomial of more than one term.
pub open spec fn needs_parens(e: ExprV) -> bool {
    match e {
        ExprV::Add(v) => v.len() > 1,
        ExprV::Mul(v) => v.len() > 1,
        ExprV::Poly(_, p) => p.len() > 1,
        _ => false,
    }
}

/// An expression, in parentheses where `needs_parens` says so.
pub open spec fn paren_pieces(e: ExprV) -> Seq<PieceV>
    decreases e, 1nat,
{
    if needs_parens(e) {
        seq![text(seq!['('])] + expr_pieces(e) + seq![text(seq![')'])]
    } else {
        expr_pieces(e)
    }
}

/// The written form of an expression.
pub open spec fn expr_pieces(e: ExprV) -> Seq<PieceV>
    decreases e, 0nat,
{
    match e {
        ExprV::Add(v) => sum_pieces(v),
        ExprV::Fun(n, a) => seq![text(n), text(seq!['('])] + args_pieces(a) + seq![text(seq![')'])],
        ExprV::Mul(v) => product_pieces(v),
        ExprV::Num(n) => seq![PieceV::Num(n, false)],
        ExprV::Poly(sym, p) => polynomial_pieces(p, false, sym),
        ExprV::Pow(b, x) => paren_pieces(*b) + seq![text(seq!['^'])] + paren_pieces(*x),
    }
}

/// A later term of a sum: a negative number or a polynomial with a negative
/// leading coefficient after ` - ` by absolute value, else after ` + `.
pub open spec fn sum_term_pieces(e: ExprV) -> Seq<PieceV>
    decreases e, 1nat,
{
    match e {
        ExprV::Num(n) => if n.num < 0 {
            seq![text(seq![' ', '-', ' ']), PieceV::Num(n, true)]
        } else {
            seq![text(seq![' ', '+', ' '])] + expr_pieces(e)
        },
        ExprV::Poly(sym, p) => if p.len() > 0 && p[0].0.num < 0 {
            seq![text(seq![' ', '-', ' '])] + polynomial_pieces(p, true, sym)
        } else {
            seq![text(seq![' ', '+', ' '])] + expr_pieces(e)
        },
        _ => seq![text(seq![' ', '+', ' '])] + expr_pieces(e),
    }
}

/// The later terms of a sum.
pub open spec fn sum_tail_pieces(v: Seq<ExprV>) -> Seq<PieceV>
    decreases v, 0nat,
{
    if v.len() == 0 {
        Seq::empty()
    } else {
        sum_term_pieces(v[0]) + sum_tail_pieces(v.subrange(1, v.len() as int))
    }
}

/// A sum: its first term, then the others.
pub open spec fn sum_pieces(v: Seq<ExprV>) -> Seq<PieceV>
    decreases v, 1nat,
{
    if v.len() == 0 {
        Seq::empty()
    } else {
        expr_pieces(v[0]) + sum_tail_pieces(v.subrange(1, v.len() as int))
    }
}

/// The factors of a product after the first, each after ` * `.
pub open spec fn product_tail_pieces(v: Seq<ExprV>) -> Seq<PieceV>
    decreases v, 0nat,
{
    if v.len() == 0 {
        Seq::empty()
    } else {
        seq![text(seq![' ', '*', ' '])] + paren_pieces(v[0]) + product_tail_pieces(
            v.subrange(1, v.len() as int),
        )
    }
}

/// A product: its factors, in parentheses where needed, between ` * `.
pub open spec fn product_pieces(v: Seq<ExprV>) -> Seq<PieceV>
    decreases v, 1nat,
{
    if v.len() == 0 {
        Seq::empty()
    } else {
        paren_pieces(v[0]) + product_tail_pieces(v.subrange(1, v.len() as int))
    }
}

/// The arguments after the first, each after `, `.
pub open spec fn args_tail_pieces(v: Seq<ExprV>) -> Seq<PieceV>
    decreases v, 0nat,
{
    if v.len() == 0 {
        Seq::empty()
    } else {
        seq![text(seq![',', ' '])] + expr_pieces(v[0]) + args_tail_pieces(
            v.subrange(1, v.len() as int),
        )
    }
}

/// The arguments of a call between `, `.
pub open spec fn args_pieces(v: Seq<ExprV>) -> Seq<PieceV>
    decreases v, 1nat,
{
    if v.len() == 0 {
        Seq::empty()
    } else {
        expr_pieces(v[0]) + args_tail_pieces(v.subrange(1, v.len() as int))
    }
}


/// An expression between parentheses.
pub open spec fn enclosed(e: ExprV) -> Seq<PieceV> {
    seq![text(seq!['('])] + expr_pieces(e) + seq![text(seq![')'])]
}

/// A power is written as its base, `^` and its exponent, each in
/// parentheses exactly where it is a sum, product or polynomial of more
/// than one term.
pub proof fn lemma_power_pieces(b: ExprV, x: ExprV)
    ensures
        ({
            let w = expr_pieces(ExprV::Pow(Box::new(b), Box::new(x)));
            let base = if needs_parens(b) {
                enclosed(b)
            } else {
                expr_pieces(b)
            };
            let exp = if needs_parens(x) {
                enclosed(x)
            } else {
                expr_pieces(x)
            };
            &&& w.take(base.len() as int) == base
            &&& w[base.len() as int] == text(seq!['^'])
            &&& w.skip(base.len() as int + 1) == exp
            &&& needs_parens(b) ==> w[0] == text(seq!['('])
        }),
{
    let w = expr_pieces(ExprV::Pow(Box::new(b), Box::new(x)));
    let base = paren_pieces(b);
    let exp = paren_pieces(x);
    assert(w == base + seq![text(seq!['^'])] + exp);
    assert(w.take(base.len() as int) =~= base);
    assert(w.skip(base.len() as int + 1) =~= exp);
}

/// Where the factor `v[i]` of a product is a sum, product or polynomial of
/// more than one term, the written product holds it in parentheses.
pub proof fn lemma_product_parens(v: Seq<ExprV>, i: int)
    requires
        0 <= i < v.len(),
        needs_parens(v[i]),
    ensures
        exists|k: int|
            0 <= k && k + enclosed(v[i]).len() <= product_pieces(v).len() && #[trigger] product_pieces(v).subrange(
                k,
                k + enclosed(v[i]).len(),
            ) == enclosed(v[i]),
{
    let w = v.subrange(1, v.len() as int);
    let head = paren_pieces(v[0]);
    if i == 0 {
        assert(product_pieces(v) == enclosed(v[0]) + product_tail_pieces(w));
        assert(product_pieces(v).subrange(0, enclosed(v[0]).len() as int) =~= enclosed(v[0]));
        let k0: int = 0;
        assert(product_pieces(v).subrange(k0, k0 + enclosed(v[i]).len()) == enclosed(v[i]));
    } else {
        assert(w[i - 1] == v[i]);
        lemma_tail_parens(w, i - 1);
        let k = choose|k: int|
            0 <= k && k + enclosed(w[i - 1]).len() <= product_tail_pieces(w).len() && #[trigger] product_tail_pieces(
                w,
            ).subrange(k, k + enclosed(w[i - 1]).len()) == enclosed(w[i - 1]);
        let n = enclosed(v[i]).len() as int;
        assert(product_pieces(v) == head + product_tail_pieces(w));
        assert(product_pieces(v).subrange(head.len() + k, head.len() + k + n) =~= product_tail_pieces(w).subrange(
            k,
            k + n,
        ));
        let k1 = head.len() + k;
        assert(product_pieces(v).subrange(k1, k1 + enclosed(v[i]).len()) == enclosed(v[i]));
    }
}

/// `lemma_product_parens` for the factors after the first.
proof fn lemma_tail_parens(v: Seq<ExprV>, i: int)
    requires
        0 <= i < v.len(),
        needs_parens(v[i]),
    ensures
        exists|k: int|
            0 <= k && k + enclosed(v[i]).len() <= product_tail_pieces(v).len()
                && #[trigger] product_tail_pieces(v).subrange(k, k + enclosed(v[i]).len()) == enclosed(v[i]),
    decreases v.len(),
{
    let w = v.subrange(1, v.len() as int);
    let head = seq![text(seq![' ', '*', ' '])] + paren_pieces(v[0]);
    assert(product_tail_pieces(v) == head + product_tail_pieces(w));
    let n = enclosed(v[i]).len() as int;
    if i == 0 {
        assert(product_tail_pieces(v).subrange(1, 1 + n) =~= enclosed(v[0]));
        let k0: int = 1;
        assert(product_tail_pieces(v).subrange(k0, k0 + enclosed(v[i]).len()) == enclosed(v[i]));
    } else {
        assert(w[i - 1] == v[i]);
        lemma_tail_parens(w, i - 1);
        let k = choose|k: int|
            0 <= k && k + enclosed(w[i - 1]).len() <= product_tail_pieces(w).len() && #[trigger] product_tail_pieces(
                w,
            ).subrange(k, k + enclosed(w[i - 1]).len()) == enclosed(w[i - 1]);
        assert(product_tail_pieces(v).subrange(head.len() + k, head.len() + k + n) =~= product_tail_pieces(
            w,
        ).subrange(k, k + n));
        let k1 = head.len() + k;
        assert(product_tail_pieces(v).subrange(k1, k1 + enclosed(v[i]).len()) == enclosed(v[i]));
    }
}

/// Appends a text piece.
fn push_text(out: &mut Vec<Piece>, s: &str)
    requires
        pieces_wf(old(out)@),
    ensures
        pieces_view(final(out)@) == pieces_view(old(out)@).push(text(s@)),
        pieces_wf(final(out)@),
{
    let ghost before = out@;
    out.push(Piece::Text(String::from_str(s)));
    proof {
        assert(pieces_view(out@) =~= pieces_view(before).push(text(s@)));
    }
}

/// Appends a number piece.
fn push_num(out: &mut Vec<Piece>, n: &Number, abs: bool)
    requires
        pieces_wf(old(out)@),
        n.wf(),
    ensures
        pieces_view(final(out)@) == pieces_view(old(out)@).push(PieceV::Num(n@, abs)),
        pieces_wf(final(out)@),
{
    let ghost before = out@;
    out.push(Piece::Num(n.clone(), abs));
    proof {
        assert(pieces_view(out@) =~= pieces_view(before).push(PieceV::Num(n@, abs)));
    }
}

impl Monomial {
    /// Writes the monomial in the variable `sym`, by absolute value if
    /// `abs`.
    pub fn write(&self, out: &mut Vec<Piece>, abs: bool, sym: &str)
        requires
            self.wf(),
            pieces_wf(old(out)@),
        ensures
            pieces_view(final(out)@) == pieces_view(old(out)@) + monomial_pieces(self@, abs, sym@),
            pieces_wf(final(out)@),
    {
        proof {
            reveal_strlit("-");
            reveal_strlit("^");
            assert("-"@ =~= seq!['-']);
            assert("^"@ =~= seq!['^']);
        }
        let ghost start = pieces_view(out@);
        if self.degree.is_zero() {
            push_num(out, &self.coeff, abs);
            proof {
                assert(pieces_view(out@) =~= start + monomial_pieces(self@, abs, sym@));
            }
            return;
        }
        let neg_one = self.coeff.is_neg_one();
        if neg_one && !abs {
            push_text(out, "-");
        } else if !neg_one && !self.coeff.is_one() {
            push_num(out, &self.coeff, abs);
        }
        let ghost mid = pieces_view(out@);
        if self.degree.is_one() {
            push_text(out, sym);
        } else {
            push_text(out, sym);
            push_text(out, "^");
            push_num(out, &self.degree, false);
        }
        proof {
            assert(pieces_view(out@) =~= start + monomial_pieces(self@, abs, sym@));
        }
    }

    /// The written form of the monomial in `x`.
    pub fn pieces(&self) -> (r: Vec<Piece>)
        requires
            self.wf(),
        ensures
            pieces_view(r@) == monomial_pieces(self@, false, "x"@),
            pieces_wf(r@),
    {
        let mut out: Vec<Piece> = Vec::new();
        proof {
            assert(pieces_view(out@) =~= Seq::<PieceV>::empty());
        }
        self.write(&mut out, false, "x");
        proof {
            assert(pieces_view(out@) =~= monomial_pieces(self@, false, "x"@));
        }
        out
    }
}

impl Polynomial {
    /// Writes the polynomial in the variable `sym`, its first monomial by
    /// absolute value if `abs`.
    pub fn write(&self, out: &mut Vec<Piece>, abs: bool, sym: &str)
        requires
            self.wf(),
            pieces_wf(old(out)@),
        ensures
            pieces_view(final(out)@) == pieces_view(old(out)@) + polynomial_pieces(self@, abs, sym@),
            pieces_wf(final(out)@),
    {
        proof {
            reveal_strlit("0");
            assert("0"@ =~= seq!['0']);
        }
        let ghost start = pieces_view(out@);
        let ms = self.monomials();
        let ghost p = self@;
        let n = ms.len();
        if n == 0 {
            push_text(out, "0");
            proof {
                assert(pieces_view(out@) =~= start + polynomial_pieces(p, abs, sym@));
            }
            return;
        }
        assert(ms@[0].wf() && ms@[0]@ == p[0]);
        ms[0].write(out, abs, sym);
        let ghost head = pieces_view(out@);
        proof {
            assert(p.subrange(1, 1) =~= Seq::<(Rat, Rat)>::empty());
        }
        for i in 1..n
            invariant
                n == ms@.len(),
                p == crate::polynomial::monos_view(ms@),
                crate::polynomial::monos_wf(ms@),
                p.len() == n,
                head == start + monomial_pieces(p[0], abs, sym@),
                pieces_view(out@) == head + poly_tail_pieces(p.subrange(1, i as int), sym@),
                pieces_wf(out@),
        {
            proof {
                reveal_strlit(" - ");
                reveal_strlit(" + ");
                assert(" - "@ =~= seq![' ', '-', ' ']);
                assert(" + "@ =~= seq![' ', '+', ' ']);
            }
            assert(ms@[i as int].wf() && ms@[i as int]@ == p[i as int]);
            let ghost before = pieces_view(out@);
            if ms[i].coeff.is_negative() {
                push_text(out, " - ");
            } else {
                push_text(out, " + ");
            }
            ms[i].write(out, true, sym);
            proof {
                let q = p.subrange(1, i + 1);
                assert(q.drop_last() =~= p.subrange(1, i as int));
                assert(q.last() == p[i as int]);
                assert(pieces_view(out@) =~= head + poly_tail_pieces(q, sym@));
            }
        }
        proof {
            assert(p.subrange(1, n as int) =~= p.skip(1));
            assert(pieces_view(out@) =~= start + polynomial_pieces(p, abs, sym@));
        }
    }

    /// The written form of the polynomial in `x`.
    pub fn pieces(&self) -> (r: Vec<Piece>)
        requires
            self.wf(),
        ensures
            pieces_view(r@) == polynomial_pieces(self@, false, "x"@),
            pieces_wf(r@),
    {
        let mut out: Vec<Piece> = Vec::new();
        proof {
            assert(pieces_view(out@) =~= Seq::<PieceV>::empty());
        }
        self.write(&mut out, false, "x");
        proof {
            assert(pieces_view(out@) =~= polynomial_pieces(self@, false, "x"@));
        }
        out
    }
}

impl Expr {
    /// Writes the expression.
    pub fn write(&self, out: &mut Vec<Piece>)
        requires
            self.wf(),
            pieces_wf(old(out)@),
        ensures
            pieces_view(final(out)@) == pieces_view(old(out)@) + expr_pieces(self@),
            pieces_wf(final(out)@),
        decreases self, 0nat,
    {
        proof {
            reveal_strlit("(");
            reveal_strlit(")");
            reveal_strlit("^");
            assert("("@ =~= seq!['(']);
            assert(")"@ =~= seq![')']);
            assert("^"@ =~= seq!['^']);
        }
        let ghost start = pieces_view(out@);
        match self {
            Expr::Add(v) => write_sum(v, out),
            Expr::Fun(n, a) => {
                push_text(out, n.name());
                push_text(out, "(");
                write_args(a, out);
                push_text(out, ")");
                proof {
                    assert(pieces_view(out@) =~= start + expr_pieces(self@));
                }
            },
            Expr::Mul(v) => write_product(v, out),
            Expr::Num(n) => {
                push_num(out, n, false);
                proof {
                    assert(pieces_view(out@) =~= start + expr_pieces(self@));
                }
            },
            Expr::Poly(s, p) => p.write(out, false, s.name()),
            Expr::Pow(b, x) => {
                write_parens(b, out);
                push_text(out, "^");
                write_parens(x, out);
                proof {
                    assert(pieces_view(out@) =~= start + expr_pieces(self@));
                }
            },
        }
    }

    /// The written form of the expression.
    pub fn pieces(&self) -> (r: Vec<Piece>)
        requires
            self.wf(),
        ensures
            pieces_view(r@) == expr_pieces(self@),
            pieces_wf(r@),
    {
        let mut out: Vec<Piece> = Vec::new();
        proof {
            assert(pieces_view(out@) =~= Seq::<PieceV>::empty());
        }
        self.write(&mut out);
        proof {
            assert(pieces_view(out@) =~= expr_pieces(self@));
        }
        out
    }
}

/// Writes an expression, in parentheses where needed.
fn write_parens(e: &Expr, out: &mut Vec<Piece>)
    requires
        e.wf(),
        pieces_wf(old(out)@),
    ensures
        pieces_view(final(out)@) == pieces_view(old(out)@) + paren_pieces(e@),
        pieces_wf(final(out)@),
    decreases e, 1nat,
{
    proof {
        reveal_strlit("(");
        reveal_strlit(")");
        assert("("@ =~= seq!['(']);
        assert(")"@ =~= seq![')']);
        crate::expr::lemma_exprs(match e {
            Expr::Add(v) => v@,
            Expr::Mul(v) => v@,
            _ => Seq::empty(),
        });
    }
    let ghost start = pieces_view(out@);
    let parens = match e {
        Expr::Add(v) => v.len() > 1,
        Expr::Mul(v) => v.len() > 1,
        Expr::Poly(_, p) => p.monomials().len() > 1,
        _ => false,
    };
    if parens {
        push_text(out, "(");
        e.write(out);
        push_text(out, ")");
    } else {
        e.write(out);
    }
    proof {
        assert(pieces_view(out@) =~= start + paren_pieces(e@));
    }
}

/// Writes a later term of a sum.
fn write_sum_term(e: &Expr, out: &mut Vec<Piece>)
    requires
        e.wf(),
        pieces_wf(old(out)@),
    ensures
        pieces_view(final(out)@) == pieces_view(old(out)@) + sum_term_pieces(e@),
        pieces_wf(final(out)@),
    decreases e, 1nat,
{
    proof {
        reveal_strlit(" - ");
        reveal_strlit(" + ");
        assert(" - "@ =~= seq![' ', '-', ' ']);
        assert(" + "@ =~= seq![' ', '+', ' ']);
    }
    let ghost start = pieces_view(out@);
    let minus = match e {
        Expr::Num(n) => n.is_negative(),
        Expr::Poly(_, p) => match p.leading() {
            Some(c) => c.is_negative(),
            None => false,
        },
        _ => false,
    };
    if minus {
        push_text(out, " - ");
        match e {
            Expr::Num(n) => push_num(out, n, true),
            Expr::Poly(s, p) => p.write(out, true, s.name()),
            _ => {},
        }
    } else {
        push_text(out, " + ");
        e.write(out);
    }
    proof {
        assert(pieces_view(out@) =~= start + sum_term_pieces(e@));
    }
}

/// Writes a sum.
fn write_sum(v: &Vec<Expr>, out: &mut Vec<Piece>)
    requires
        crate::expr::exprs_wf(v@),
        pieces_wf(old(out)@),
    ensures
        pieces_view(final(out)@) == pieces_view(old(out)@) + sum_pieces(crate::expr::exprs_view(v@)),
        pieces_wf(final(out)@),
    decreases v, 1nat,
{
    proof {
        crate::expr::lemma_exprs(v@);
    }
    let ghost vs = crate::expr::exprs_view(v@);
    let ghost start = pieces_view(out@);
    let n = v.len();
    if n == 0 {
        proof {
            assert(pieces_view(out@) =~= start + sum_pieces(vs));
        }
        return;
    }
    v[0].write(out);
    proof {
        assert(pieces_view(out@) + sum_tail_pieces(vs.subrange(1, n as int)) =~= start + sum_pieces(vs));
    }
    for i in 1..n
        invariant
            n == v@.len(),
            vs == crate::expr::exprs_view(v@),
            vs.len() == n,
            forall|j: int| 0 <= j < n ==> #[trigger] vs[j] == v@[j]@ && v@[j].wf(),
            pieces_view(out@) + sum_tail_pieces(vs.subrange(i as int, n as int)) == start + sum_pieces(vs),
            pieces_wf(out@),
    {
        let ghost before = pieces_view(out@);
        let ghost rest = vs.subrange(i as int, n as int);
        proof {
            assert(rest[0] == vs[i as int]);
            assert(rest.subrange(1, rest.len() as int) =~= vs.subrange(i + 1, n as int));
        }
        write_sum_term(&v[i], out);
        proof {
            assert(pieces_view(out@) + sum_tail_pieces(vs.subrange(i + 1, n as int)) =~= before
                + sum_tail_pieces(rest));
        }
    }
    proof {
        assert(vs.subrange(n as int, n as int) =~= Seq::<ExprV>::empty());
        assert(pieces_view(out@) =~= start + sum_pieces(vs));
    }
}

/// Writes a product.
fn write_product(v: &Vec<Expr>, out: &mut Vec<Piece>)
    requires
        crate::expr::exprs_wf(v@),
        pieces_wf(old(out)@),
    ensures
        pieces_view(final(out)@) == pieces_view(old(out)@) + product_pieces(
            crate::expr::exprs_view(v@),
        ),
        pieces_wf(final(out)@),
    decreases v, 1nat,
{
    proof {
        crate::expr::lemma_exprs(v@);
    }
    let ghost vs = crate::expr::exprs_view(v@);
    let ghost start = pieces_view(out@);
    let n = v.len();
    if n == 0 {
        proof {
            assert(pieces_view(out@) =~= start + product_pieces(vs));
        }
        return;
    }
    write_parens(&v[0], out);
    proof {
        assert(pieces_view(out@) + product_tail_pieces(vs.subrange(1, n as int)) =~= start
            + product_pieces(vs));
    }
    for i in 1..n
        invariant
            n == v@.len(),
            vs == crate::expr::exprs_view(v@),
            vs.len() == n,
            forall|j: int| 0 <= j < n ==> #[trigger] vs[j] == v@[j]@ && v@[j].wf(),
            pieces_view(out@) + product_tail_pieces(vs.subrange(i as int, n as int)) == start
                + product_pieces(vs),
            pieces_wf(out@),
    {
        proof {
            reveal_strlit(" * ");
            assert(" * "@ =~= seq![' ', '*', ' ']);
        }
        let ghost before = pieces_view(out@);
        let ghost rest = vs.subrange(i as int, n as int);
        proof {
            assert(rest[0] == vs[i as int]);
            assert(rest.subrange(1, rest.len() as int) =~= vs.subrange(i + 1, n as int));
        }
        push_text(out, " * ");
        write_parens(&v[i], out);
        proof {
            assert(pieces_view(out@) + product_tail_pieces(vs.subrange(i + 1, n as int)) =~= before
                + product_tail_pieces(rest));
        }
    }
    proof {
        assert(vs.subrange(n as int, n as int) =~= Seq::<ExprV>::empty());
        assert(pieces_view(out@) =~= start + product_pieces(vs));
    }
}

/// Writes the arguments of a call.
fn write_args(v: &Vec<Expr>, out: &mut Vec<Piece>)
    requires
        crate::expr::exprs_wf(v@),
        pieces_wf(old(out)@),
    ensures
        pieces_view(final(out)@) == pieces_view(old(out)@) + args_pieces(crate::expr::exprs_view(v@)),
        pieces_wf(final(out)@),
    decreases v, 1nat,
{
    proof {
        crate::expr::lemma_exprs(v@);
    }
    let ghost vs = crate::expr::exprs_view(v@);
    let ghost start = pieces_view(out@);
    let n = v.len();
    if n == 0 {
        proof {
            assert(pieces_view(out@) =~= start + args_pieces(vs));
        }
        return;
    }
    v[0].write(out);
    proof {
        assert(pieces_view(out@) + args_tail_pieces(vs.subrange(1, n as int)) =~= start + args_pieces(vs));
    }
    for i in 1..n
        invariant
            n == v@.len(),
            vs == crate::expr::exprs_view(v@),
            vs.len() == n,
            forall|j: int| 0 <= j < n ==> #[trigger] vs[j] == v@[j]@ && v@[j].wf(),
            pieces_view(out@) + args_tail_pieces(vs.subrange(i as int, n as int)) == start + args_pieces(
                vs,
            ),
            pieces_wf(out@),
    {
        proof {
            reveal_strlit(", ");
            assert(", "@ =~= seq![',', ' ']);
        }
        let ghost before = pieces_view(out@);
        let ghost rest = vs.subrange(i as int, n as int);
        proof {
            assert(rest[0] == vs[i as int]);
            assert(rest.subrange(1, rest.len() as int) =~= vs.subrange(i + 1, n as int));
        }
        push_text(out, ", ");
        v[i].write(out);
        proof {
            assert(pieces_view(out@) + args_tail_pieces(vs.subrange(i + 1, n as int)) =~= before
                + args_tail_pieces(rest));
        }
    }
    proof {
        assert(vs.subrange(n as int, n as int) =~= Seq::<ExprV>::empty());
        assert(pieces_view(out@) =~= start + args_pieces(vs));
    }
}

} // verus!
