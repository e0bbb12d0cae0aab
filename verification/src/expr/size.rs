//! The size of an expression: the measure by which simplification descends
//! into the parts of an expression.
use crate::expr::ExprV;
use vstd::prelude::*;

verus! {

/// The size of an expression, counting a little more for each node than
/// for its parts.
pub open spec fn expr_size(e: ExprV) -> nat
    decreases e,
{
    match e {
        ExprV::Add(v) => exprs_size(v) + 3,
        ExprV::Fun(_, v) => exprs_size(v) + 3,
        ExprV::Mul(v) => exprs_size(v) + 3,
        ExprV::Num(_) => 1,
        ExprV::Poly(_, _) => 2,
        ExprV::Pow(b, x) => expr_size(*b) + expr_size(*x) + 2,
    }
}

/// The total size of a sequence of expressions.
pub open spec fn exprs_size(v: Seq<ExprV>) -> nat
    decreases v,
{
    if v.len() == 0 {
        0
    } else {
        expr_size(v[0]) + exprs_size(v.subrange(1, v.len() as int))
    }
}

/// The size of a sequence is that without its last expression plus that of
/// the last one, and no expression is larger than the sequence.
pub proof fn lemma_exprs_size(v: Seq<ExprV>)
    ensures
        v.len() > 0 ==> exprs_size(v) == exprs_size(v.drop_last()) + expr_size(v.last()),
        forall|i: int| 0 <= i < v.len() ==> expr_size(#[trigger] v[i]) <= exprs_size(v),
    decreases v.len(),
{
    if v.len() > 0 {
        let w = v.subrange(1, v.len() as int);
        lemma_exprs_size(w);
        if v.len() > 1 {
            assert(w.drop_last() =~= v.drop_last().subrange(1, v.len() - 1));
            assert(v.drop_last()[0] == v[0]);
            assert(w.last() == v.last());
        } else {
            assert(w =~= Seq::<ExprV>::empty());
            assert(v.drop_last() =~= Seq::<ExprV>::empty());
        }
        assert forall|i: int| 0 <= i < v.len() implies expr_size(#[trigger] v[i]) <= exprs_size(v) by {
            if i > 0 {
                assert(v[i] == w[i - 1]);
            }
        }
    }
}

} // verus!
