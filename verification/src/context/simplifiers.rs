//! The standard set of simplifiers.
use crate::context::{Simplifier, Symbol};
use crate::error::{result_view, Error, ErrorV};
use crate::expr::{exprs_view, exprs_wf, lemma_exprs, Expr, ExprV};
use crate::number::Number;
use crate::rational::{rat_abs, rat_ceil, rat_floor, rat_lt, rat_round, rat_trunc, Rat};
use vstd::prelude::*;

verus! {

/// The name under which a simplifier is registered.
pub open spec fn simplifier_name(s: Simplifier) -> Seq<char> {
    match s {
        Simplifier::Abs => "abs"@,
        Simplifier::Ceil => "ceil"@,
        Simplifier::Floor => "floor"@,
        Simplifier::Max => "max"@,
        Simplifier::Min => "min"@,
        Simplifier::Round => "round"@,
        Simplifier::Trunc => "trunc"@,
    }
}

/// The operation of a one-argument simplifier on a number.
pub open spec fn unary_op(s: Simplifier, x: Rat) -> Rat {
    match s {
        Simplifier::Abs => rat_abs(x),
        Simplifier::Ceil => rat_ceil(x),
        Simplifier::Floor => rat_floor(x),
        Simplifier::Round => rat_round(x),
        _ => rat_trunc(x),
    }
}

/// The numbers among the expressions, in order.
pub open spec fn nums_of(s: Seq<ExprV>) -> Seq<Rat>
    decreases s.len(),
{
    if s.len() == 0 {
        Seq::empty()
    } else {
        let rest = nums_of(s.drop_last());
        match s.last() {
            ExprV::Num(x) => rest.push(x),
            _ => rest,
        }
    }
}

/// The expressions that are not numbers, in order.
pub open spec fn others_of(s: Seq<ExprV>) -> Seq<ExprV>
    decreases s.len(),
{
    if s.len() == 0 {
        Seq::empty()
    } else {
        let rest = others_of(s.drop_last());
        match s.last() {
            ExprV::Num(_) => rest,
            e => rest.push(e),
        }
    }
}

/// The greatest (`max`) or least number of a non-empty sequence; of equal
/// values the last (greatest) or first (least) one.
pub open spec fn extreme_of(s: Seq<Rat>, max: bool) -> Rat
    decreases s.len(),
{
    if s.len() <= 1 {
        s[0]
    } else {
        let m = extreme_of(s.drop_last(), max);
        if max {
            if rat_lt(s.last(), m) {
                m
            } else {
                s.last()
            }
        } else {
            if rat_lt(s.last(), m) {
                s.last()
            } else {
                m
            }
        }
    }
}

/// The result of a simplifier on simplified arguments.
pub open spec fn apply_simplifier(s: Simplifier, args: Seq<ExprV>) -> Result<ExprV, ErrorV> {
    let name = simplifier_name(s);
    match s {
        Simplifier::Max | Simplifier::Min => {
            if args.len() == 0 {
                Err(ErrorV::ArgumentCount(name))
            } else {
                let nums = nums_of(args);
                let rest = if nums.len() > 0 {
                    others_of(args).push(ExprV::Num(extreme_of(nums, s == Simplifier::Max)))
                } else {
                    others_of(args)
                };
                if rest.len() == 1 {
                    Ok(rest[0])
                } else {
                    Ok(ExprV::Fun(name, rest))
                }
            }
        },
        _ => {
            if args.len() != 1 {
                Err(ErrorV::ArgumentCount(name))
            } else {
                match args[0] {
                    ExprV::Num(x) => Ok(ExprV::Num(unary_op(s, x))),
                    _ => Ok(ExprV::Fun(name, args)),
                }
            }
        },
    }
}

/// The greatest (`max`) or least value of a non-empty sequence of numbers in
/// lowest terms is one of them, and none of them lies beyond it.
pub proof fn lemma_extreme_of(s: Seq<Rat>, max: bool)
    requires
        s.len() > 0,
        forall|i: int| 0 <= i < s.len() ==> (#[trigger] s[i]).canonical(),
    ensures
        s.contains(extreme_of(s, max)),
        forall|i: int| 0 <= i < s.len() ==> if max {
            !rat_lt(extreme_of(s, max), #[trigger] s[i])
        } else {
            !rat_lt(s[i], extreme_of(s, max))
        },
    decreases s.len(),
{
    let n = s.len() - 1;
    if s.len() == 1 {
        assert(s[0] == s[0]);
    } else {
        let p = s.drop_last();
        assert forall|i: int| 0 <= i < p.len() implies (#[trigger] p[i]).canonical() by {
            assert(p[i] == s[i]);
        }
        lemma_extreme_of(p, max);
        let m = extreme_of(p, max);
        let x = s.last();
        assert(x == s[n]);
        let k = choose|k: int| 0 <= k < p.len() && p[k] == m;
        assert(s[k] == m);
        assert(m.canonical());
        crate::rational::lemma_trichotomy(m, x);
        assert forall|i: int| 0 <= i < s.len() implies if max {
            !rat_lt(extreme_of(s, max), #[trigger] s[i])
        } else {
            !rat_lt(s[i], extreme_of(s, max))
        } by {
            if i < n {
                assert(p[i] == s[i]);
                if max {
                    if rat_lt(extreme_of(s, max), s[i]) && extreme_of(s, max) == x && x != m {
                        crate::rational::lemma_lt_trans(m, x, s[i]);
                    }
                } else {
                    if rat_lt(s[i], extreme_of(s, max)) && extreme_of(s, max) == x {
                        crate::rational::lemma_lt_trans(s[i], x, m);
                    }
                }
            }
        }
    }
}

/// The numbers of expressions that are all numbers are their values, and
/// none of them is another expression.
proof fn lemma_all_numbers(args: Seq<ExprV>)
    requires
        forall|i: int| 0 <= i < args.len() ==> (#[trigger] args[i]) is Num,
    ensures
        nums_of(args).len() == args.len(),
        forall|i: int| 0 <= i < args.len() ==> #[trigger] nums_of(args)[i] == args[i]->Num_0,
        others_of(args).len() == 0,
    decreases args.len(),
{
    if args.len() > 0 {
        let p = args.drop_last();
        assert forall|i: int| 0 <= i < p.len() implies (#[trigger] p[i]) is Num by {
            assert(p[i] == args[i]);
        }
        lemma_all_numbers(p);
        assert(args.last() == args[args.len() - 1]);
        assert forall|i: int| 0 <= i < args.len() implies #[trigger] nums_of(args)[i] == args[i]->Num_0 by {
            if i < p.len() {
                assert(p[i] == args[i]);
            }
        }
    }
}

/// `max` and `min` on numbers give one of them, and none of them lies
/// beyond it.
pub proof fn lemma_extreme_numbers(s: Simplifier, args: Seq<ExprV>)
    requires
        s == Simplifier::Max || s == Simplifier::Min,
        args.len() > 0,
        forall|i: int| 0 <= i < args.len() ==> (#[trigger] args[i]) is Num && args[i]->Num_0.canonical(),
    ensures
        apply_simplifier(s, args) is Ok,
        apply_simplifier(s, args)->Ok_0 is Num,
        args.contains(apply_simplifier(s, args)->Ok_0),
        forall|i: int| 0 <= i < args.len() ==> if s == Simplifier::Max {
            !rat_lt(apply_simplifier(s, args)->Ok_0->Num_0, (#[trigger] args[i])->Num_0)
        } else {
            !rat_lt(args[i]->Num_0, apply_simplifier(s, args)->Ok_0->Num_0)
        },
{
    let max = s == Simplifier::Max;
    lemma_all_numbers(args);
    let nums = nums_of(args);
    assert forall|i: int| 0 <= i < nums.len() implies (#[trigger] nums[i]).canonical() by {
        assert(args[i] is Num);
    }
    lemma_extreme_of(nums, max);
    let m = extreme_of(nums, max);
    assert(others_of(args) =~= Seq::<ExprV>::empty());
    assert(others_of(args).push(ExprV::Num(m)) =~= seq![ExprV::Num(m)]);
    let k = choose|k: int| 0 <= k < nums.len() && nums[k] == m;
    assert(args[k] == ExprV::Num(m));
    assert forall|i: int| 0 <= i < args.len() implies if s == Simplifier::Max {
        !rat_lt(m, (#[trigger] args[i])->Num_0)
    } else {
        !rat_lt(args[i]->Num_0, m)
    } by {
        assert(nums[i] == args[i]->Num_0);
    }
}

impl Simplifier {
    /// The symbol under which the simplifier is registered.
    pub fn symbol(&self) -> (r: Symbol)
        ensures
            r@ == simplifier_name(*self),
    {
        match self {
            Simplifier::Abs => Symbol::abs(),
            Simplifier::Ceil => Symbol::ceil(),
            Simplifier::Floor => Symbol::floor(),
            Simplifier::Max => Symbol::max(),
            Simplifier::Min => Symbol::min(),
            Simplifier::Round => Symbol::round(),
            Simplifier::Trunc => Symbol::trunc(),
        }
    }

    /// Applies the simplifier to the arguments of a call.
    pub fn apply(&self, args: Vec<Expr>) -> (r: Result<Expr, Error>)
        requires
            exprs_wf(args@),
        ensures
            result_view(r) == apply_simplifier(*self, exprs_view(args@)),
            r matches Ok(e) ==> e.wf(),
    {
        match self {
            Simplifier::Max => extreme(args, true),
            Simplifier::Min => extreme(args, false),
            _ => unary(args, *self),
        }
    }
}

/// A one-argument simplifier: the operation on a number, else the call
/// unchanged.
fn unary(args: Vec<Expr>, s: Simplifier) -> (r: Result<Expr, Error>)
    requires
        exprs_wf(args@),
        s != Simplifier::Max && s != Simplifier::Min,
    ensures
        result_view(r) == apply_simplifier(s, exprs_view(args@)),
        r matches Ok(e) ==> e.wf(),
{
    proof {
        lemma_exprs(args@);
    }
    if args.len() != 1 {
        return Err(Error::ArgumentCount(s.symbol()));
    }
    if args[0].is_num() {
        let mut args = args;
        let a = args.pop().unwrap();
        let n = a.into_num().unwrap();
        let m = match s {
            Simplifier::Abs => n.abs(),
            Simplifier::Ceil => n.ceil(),
            Simplifier::Floor => n.floor(),
            Simplifier::Round => n.round(),
            _ => n.trunc(),
        };
        Ok(Expr::Num(m))
    } else {
        Ok(Expr::Fun(s.symbol(), args))
    }
}

/// `max` (`max == true`) or `min`: the numbers are replaced by their extreme,
/// placed last; a single remaining argument is returned alone.
fn extreme(args: Vec<Expr>, max: bool) -> (r: Result<Expr, Error>)
    requires
        exprs_wf(args@),
    ensures
        result_view(r) == apply_simplifier(
            if max {
                Simplifier::Max
            } else {
                Simplifier::Min
            },
            exprs_view(args@),
        ),
        r matches Ok(e) ==> e.wf(),
{
    let s = if max {
        Simplifier::Max
    } else {
        Simplifier::Min
    };
    let ghost a = exprs_view(args@);
    proof {
        lemma_exprs(args@);
    }
    if args.len() == 0 {
        return Err(Error::ArgumentCount(s.symbol()));
    }
    let mut rest: Vec<Expr> = Vec::new();
    let mut best: Option<Number> = None;
    let mut args = args;
    let ghost orig = args@;
    let n = args.len();
    let mut taken: Vec<Expr> = Vec::new();
    // Take the arguments out in order.
    while args.len() > 0
        invariant
            orig.len() == n,
            args@.len() + taken@.len() == n,
            forall|j: int| 0 <= j < taken@.len() ==> #[trigger] taken@[j] == orig[n - 1 - j],
            forall|j: int| 0 <= j < args@.len() ==> #[trigger] args@[j] == orig[j],
        decreases args@.len(),
    {
        let e = args.pop().unwrap();
        taken.push(e);
    }
    // `taken` holds the arguments in reverse order.
    let mut k: usize = 0;
    while taken.len() > 0
        invariant
            orig.len() == n,
            k + taken@.len() == n,
            forall|j: int| 0 <= j < taken@.len() ==> #[trigger] taken@[j] == orig[n - 1 - j],
            forall|j: int| 0 <= j < n ==> #[trigger] a[j] == orig[j]@ && crate::expr::expr_wf(orig[j]),
            a.len() == n,
            exprs_view(rest@) == others_of(a.take(k as int)),
            exprs_wf(rest@),
            nums_of(a.take(k as int)).len() == 0 <==> best is None,
            best matches Some(b) ==> b.wf() && b@ == extreme_of(nums_of(a.take(k as int)), max),
        decreases taken@.len(),
    {
        let e = taken.pop().unwrap();
        proof {
            assert(e == orig[k as int]);
            assert(a.take(k + 1).drop_last() =~= a.take(k as int));
            assert(a.take(k + 1).last() == a[k as int]);
            lemma_exprs(rest@);
        }
        if e.is_num() {
            let ghost ev = e@;
            let x = e.into_num().unwrap();
            proof {
                let t = a.take(k + 1);
                assert(t.last() == ExprV::Num(x@));
                assert(nums_of(t) == nums_of(a.take(k as int)).push(x@));
                let ns = nums_of(t);
                if ns.len() > 1 {
                    assert(ns.drop_last() =~= nums_of(a.take(k as int)));
                }
            }
            best = match best {
                None => Some(x),
                Some(b) => {
                    let c = x.compare(&b);
                    if max {
                        if c == crate::number::Comparison::Less {
                            Some(b)
                        } else {
                            Some(x)
                        }
                    } else {
                        if c == crate::number::Comparison::Less {
                            Some(x)
                        } else {
                            Some(b)
                        }
                    }
                },
            };
        } else {
            let ghost old_rest = rest@;
            rest.push(e);
            proof {
                lemma_exprs(rest@);
                lemma_exprs(old_rest);
                assert(exprs_view(rest@) =~= exprs_view(old_rest).push(e@));
            }
        }
        k = k + 1;
    }
    proof {
        assert(a.take(n as int) =~= a);
    }
    match best {
        Some(b) => {
            let ghost old_rest = rest@;
            rest.push(Expr::Num(b));
            proof {
                lemma_exprs(rest@);
                lemma_exprs(old_rest);
                assert(exprs_view(rest@) =~= exprs_view(old_rest).push(ExprV::Num(b@)));
            }
        },
        None => {},
    }
    proof {
        lemma_exprs(rest@);
    }
    if rest.len() == 1 {
        let r = rest.pop().unwrap();
        Ok(r)
    } else {
        Ok(Expr::Fun(s.symbol(), rest))
    }
}

/// Returns the absolute value.
pub fn abs(args: Vec<Expr>) -> (r: Result<Expr, Error>)
    requires
        exprs_wf(args@),
    ensures
        result_view(r) == apply_simplifier(Simplifier::Abs, exprs_view(args@)),
        r matches Ok(e) ==> e.wf(),
{
    unary(args, Simplifier::Abs)
}

/// Rounds its argument towards positive infinity.
pub fn ceil(args: Vec<Expr>) -> (r: Result<Expr, Error>)
    requires
        exprs_wf(args@),
    ensures
        result_view(r) == apply_simplifier(Simplifier::Ceil, exprs_view(args@)),
        r matches Ok(e) ==> e.wf(),
{
    unary(args, Simplifier::Ceil)
}

/// Rounds its argument towards negative infinity.
pub fn floor(args: Vec<Expr>) -> (r: Result<Expr, Error>)
    requires
        exprs_wf(args@),
    ensures
        result_view(r) == apply_simplifier(Simplifier::Floor, exprs_view(args@)),
        r matches Ok(e) ==> e.wf(),
{
    unary(args, Simplifier::Floor)
}

/// Returns the greatest argument.
pub fn max(args: Vec<Expr>) -> (r: Result<Expr, Error>)
    requires
        exprs_wf(args@),
    ensures
        result_view(r) == apply_simplifier(Simplifier::Max, exprs_view(args@)),
        r matches Ok(e) ==> e.wf(),
{
    extreme(args, true)
}

/// Returns the smallest argument.
pub fn min(args: Vec<Expr>) -> (r: Result<Expr, Error>)
    requires
        exprs_wf(args@),
    ensures
        result_view(r) == apply_simplifier(Simplifier::Min, exprs_view(args@)),
        r matches Ok(e) ==> e.wf(),
{
    extreme(args, false)
}

/// Rounds its argument towards the nearest integer.
pub fn round(args: Vec<Expr>) -> (r: Result<Expr, Error>)
    requires
        exprs_wf(args@),
    ensures
        result_view(r) == apply_simplifier(Simplifier::Round, exprs_view(args@)),
        r matches Ok(e) ==> e.wf(),
{
    unary(args, Simplifier::Round)
}

/// Rounds its argument towards zero.
pub fn trunc(args: Vec<Expr>) -> (r: Result<Expr, Error>)
    requires
        exprs_wf(args@),
    ensures
        result_view(r) == apply_simplifier(Simplifier::Trunc, exprs_view(args@)),
        r matches Ok(e) ==> e.wf(),
{
    unary(args, Simplifier::Trunc)
}

} // verus!
