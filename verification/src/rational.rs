//! The mathematical model of numbers: rationals as numerator/denominator pairs.
use vstd::arithmetic::div_mod::*;
use vstd::arithmetic::mul::*;
use vstd::arithmetic::power::pow;
use vstd::prelude::*;

verus! {

/// A rational number `num / den`. Values of the library are always in
/// canonical form (see `Rat::canonical`), so that equal values have equal
/// representations.
pub struct Rat {
    pub num: int,
    pub den: int,
}

/// The greatest common divisor (Euclid's algorithm), with `gcd(0, 0) == 0`.
pub open spec fn gcd(a: nat, b: nat) -> nat
    decreases b,
{
    if b == 0 {
        a
    } else {
        gcd(b, a % b)
    }
}

/// The least common multiple, with `lcm(a, 0) == lcm(0, b) == 0`.
pub open spec fn lcm(a: nat, b: nat) -> nat {
    if a == 0 || b == 0 {
        0
    } else {
        (a * b / gcd(a, b)) as nat
    }
}

/// The absolute value of an integer.
pub open spec fn abs(i: int) -> nat {
    if i < 0 {
        (-i) as nat
    } else {
        i as nat
    }
}

/// The lowest-terms form of `n / d` for `d > 0`.
pub open spec fn reduce(n: int, d: int) -> Rat
    recommends
        d > 0,
{
    let g = gcd(abs(n), d as nat) as int;
    Rat { num: n / g, den: d / g }
}

/// The rational number of the integer `i`.
pub open spec fn rat_int(i: int) -> Rat {
    Rat { num: i, den: 1 }
}

pub open spec fn rat_zero() -> Rat {
    rat_int(0)
}

pub open spec fn rat_one() -> Rat {
    rat_int(1)
}

pub open spec fn rat_add(a: Rat, b: Rat) -> Rat {
    reduce(a.num * b.den + b.num * a.den, a.den * b.den)
}

pub open spec fn rat_sub(a: Rat, b: Rat) -> Rat {
    reduce(a.num * b.den - b.num * a.den, a.den * b.den)
}

pub open spec fn rat_mul(a: Rat, b: Rat) -> Rat {
    reduce(a.num * b.num, a.den * b.den)
}

/// Division; meaningful for `b.num != 0`.
pub open spec fn rat_div(a: Rat, b: Rat) -> Rat {
    if b.num < 0 {
        reduce(-(a.num * b.den), a.den * (-b.num))
    } else {
        reduce(a.num * b.den, a.den * b.num)
    }
}

pub open spec fn rat_neg(a: Rat) -> Rat {
    Rat { num: -a.num, den: a.den }
}

pub open spec fn rat_abs(a: Rat) -> Rat {
    Rat { num: abs(a.num) as int, den: a.den }
}

/// The reciprocal; meaningful for `a.num != 0`.
pub open spec fn rat_recip(a: Rat) -> Rat {
    if a.num < 0 {
        Rat { num: -a.den, den: -a.num }
    } else {
        Rat { num: a.den, den: a.num }
    }
}

/// `a < b`, for positive denominators.
pub open spec fn rat_lt(a: Rat, b: Rat) -> bool {
    a.num * b.den < b.num * a.den
}

/// `a <= b`, for positive denominators.
pub open spec fn rat_le(a: Rat, b: Rat) -> bool {
    a.num * b.den <= b.num * a.den
}

/// The largest integer not above `a` (for `a.den > 0`).
pub open spec fn rat_floor(a: Rat) -> Rat {
    rat_int(a.num / a.den)
}

/// The smallest integer not below `a` (for `a.den > 0`).
pub open spec fn rat_ceil(a: Rat) -> Rat {
    rat_int(-((-a.num) / a.den))
}

/// `a` rounded towards zero.
pub open spec fn rat_trunc(a: Rat) -> Rat {
    if a.num < 0 {
        rat_ceil(a)
    } else {
        rat_floor(a)
    }
}

/// `a` rounded to the nearest integer, halves away from zero.
pub open spec fn rat_round(a: Rat) -> Rat {
    if a.num < 0 {
        rat_int(-((2 * (-a.num) + a.den) / (2 * a.den)))
    } else {
        rat_int((2 * a.num + a.den) / (2 * a.den))
    }
}

/// The sign of `a`: -1, 0 or 1.
pub open spec fn rat_signum(a: Rat) -> Rat {
    if a.num < 0 {
        rat_int(-1)
    } else if a.num == 0 {
        rat_zero()
    } else {
        rat_one()
    }
}

/// `a` raised to the natural power `e`.
pub open spec fn rat_pow(a: Rat, e: nat) -> Rat {
    reduce(pow(a.num, e), pow(a.den, e))
}

/// The greatest common divisor of two rationals: the gcd of the numerators
/// over the lcm of the denominators.
pub open spec fn rat_gcd(a: Rat, b: Rat) -> Rat {
    reduce(gcd(abs(a.num), abs(b.num)) as int, lcm(a.den as nat, b.den as nat) as int)
}

/// The least common multiple of two rationals: the lcm of the numerators
/// over the gcd of the denominators.
pub open spec fn rat_lcm(a: Rat, b: Rat) -> Rat {
    reduce(lcm(abs(a.num), abs(b.num)) as int, gcd(a.den as nat, b.den as nat) as int)
}

/// Whether `a` is an integer (for canonical `a`).
pub open spec fn rat_is_int(a: Rat) -> bool {
    a.den == 1
}

impl Rat {
    /// Lowest terms with a positive denominator.
    pub open spec fn canonical(self) -> bool {
        self.den > 0 && gcd(abs(self.num), self.den as nat) == 1
    }
}

// ---------------------------------------------------------------------
// Facts about gcd and reduce
// ---------------------------------------------------------------------
/// `gcd` divides both arguments.
pub proof fn lemma_gcd_divides(a: nat, b: nat)
    ensures
        gcd(a, b) > 0 ==> a % gcd(a, b) == 0 && b % gcd(a, b) == 0,
    decreases b,
{
    let g = gcd(a, b);
    if b == 0 {
        if a > 0 {
            lemma_mod_self_0(a as int);
        }
    } else {
        lemma_gcd_divides(b, a % b);
        if g > 0 {
            lemma_fundamental_div_mod(a as int, b as int);
            let q = a / b;
            let r = a % b;
            // a == b * q + r with g | b and g | r
            lemma_fundamental_div_mod(b as int, g as int);
            lemma_fundamental_div_mod(r as int, g as int);
            let kb = b / g;
            let kr = r / g;
            assert(b == g * kb);
            assert(r == g * kr);
            assert(a == g * (kb * q + kr)) by (nonlinear_arith)
                requires
                    a == b * q + r,
                    b == g * kb,
                    r == g * kr,
            ;
            lemma_mod_multiples_basic((kb * q + kr) as int, g as int);
            lemma_mul_is_commutative(g as int, (kb * q + kr) as int);
        }
    }
}

/// `gcd` is positive unless both arguments are zero.
pub proof fn lemma_gcd_pos(a: nat, b: nat)
    requires
        a > 0 || b > 0,
    ensures
        gcd(a, b) > 0,
    decreases b,
{
    if b > 0 {
        lemma_gcd_pos(b, a % b);
    }
}

/// `gcd` is symmetric.
pub proof fn lemma_gcd_comm(a: nat, b: nat)
    ensures
        gcd(a, b) == gcd(b, a),
{
    if a == b {
    } else if b == 0 {
        assert(gcd(0, a) == gcd(a, 0nat % a));
        lemma_small_mod(0, a);
    } else if a == 0 {
        assert(gcd(0, b) == gcd(b, 0nat % b));
        lemma_small_mod(0, b);
    } else if a < b {
        lemma_small_mod(a, b);
        assert(gcd(a, b) == gcd(b, a % b));
    } else {
        lemma_small_mod(b, a);
        assert(gcd(b, a) == gcd(a, b % a));
    }
}

/// `gcd(a, 1) == 1`.
pub proof fn lemma_gcd_one(a: nat)
    ensures
        gcd(a, 1) == 1,
        gcd(1, a) == 1,
{
    assert(a % 1 == 0);
    assert(gcd(a, 1) == gcd(1, a % 1));
    assert(gcd(1, 0) == 1);
    lemma_gcd_comm(a, 1);
}

/// `reduce(n, d)` has a positive denominator and the value `n / d`.
pub proof fn lemma_reduce(n: int, d: int)
    requires
        d > 0,
    ensures
        reduce(n, d).den > 0,
        reduce(n, d).num * d == n * reduce(n, d).den,
        (reduce(n, d).num == 0) == (n == 0),
        (reduce(n, d).num < 0) == (n < 0),
{
    let g = gcd(abs(n), d as nat);
    lemma_gcd_pos(abs(n), d as nat);
    lemma_gcd_divides(abs(n), d as nat);
    let gi = g as int;
    lemma_fundamental_div_mod(d, gi);
    lemma_fundamental_div_mod(n, gi);
    assert(n % gi == 0) by {
        lemma_fundamental_div_mod(abs(n) as int, gi);
        let k = abs(n) as int / gi;
        if n < 0 {
            assert(n == gi * (-k)) by (nonlinear_arith)
                requires
                    abs(n) as int == gi * k + 0,
                    n == -(abs(n) as int),
            ;
            lemma_mod_multiples_basic(-k, gi);
            lemma_mul_is_commutative(gi, -k);
        }
    }
    let q = n / gi;
    let e = d / gi;
    assert(n == gi * q);
    assert(d == gi * e);
    assert(e > 0) by (nonlinear_arith)
        requires
            d == gi * e,
            d > 0,
            gi > 0,
    ;
    assert(q * d == n * e) by (nonlinear_arith)
        requires
            n == gi * q,
            d == gi * e,
    ;
    assert((q == 0) == (n == 0)) by (nonlinear_arith)
        requires
            n == gi * q,
            gi > 0,
    ;
    assert((q < 0) == (n < 0)) by (nonlinear_arith)
        requires
            n == gi * q,
            gi > 0,
    ;
}

/// A canonical rational is its own lowest-terms form.
pub proof fn lemma_reduce_canonical(r: Rat)
    requires
        r.canonical(),
    ensures
        reduce(r.num, r.den) == r,
{
}

/// Zero and one in canonical form.
pub proof fn lemma_small_canonical(i: int)
    ensures
        rat_int(i).canonical(),
{
    lemma_gcd_one(abs(i));
}

// ---------------------------------------------------------------------
// Facts about the order
// ---------------------------------------------------------------------
/// `<` is transitive.
pub proof fn lemma_lt_trans(a: Rat, b: Rat, c: Rat)
    requires
        a.den > 0,
        b.den > 0,
        c.den > 0,
        rat_lt(a, b),
        rat_lt(b, c),
    ensures
        rat_lt(a, c),
{
    assert(a.num * b.den * c.den < b.num * a.den * c.den) by (nonlinear_arith)
        requires
            a.num * b.den < b.num * a.den,
            c.den > 0,
    ;
    assert(b.num * c.den * a.den < c.num * b.den * a.den) by (nonlinear_arith)
        requires
            b.num * c.den < c.num * b.den,
            a.den > 0,
    ;
    assert(a.num * c.den * b.den < c.num * a.den * b.den) by (nonlinear_arith)
        requires
            a.num * b.den * c.den < b.num * a.den * c.den,
            b.num * c.den * a.den < c.num * b.den * a.den,
    ;
    assert(a.num * c.den < c.num * a.den) by (nonlinear_arith)
        requires
            a.num * c.den * b.den < c.num * a.den * b.den,
            b.den > 0,
    ;
}

/// The order of two lowest-terms forms follows the order of the fractions.
pub proof fn lemma_lt_reduce(n1: int, d1: int, n2: int, d2: int)
    requires
        d1 > 0,
        d2 > 0,
        n1 * d2 < n2 * d1,
    ensures
        rat_lt(reduce(n1, d1), reduce(n2, d2)),
{
    lemma_reduce(n1, d1);
    lemma_reduce(n2, d2);
    let a = reduce(n1, d1);
    let b = reduce(n2, d2);
    assert(n1 * d2 * (a.den * b.den) < n2 * d1 * (a.den * b.den)) by (nonlinear_arith)
        requires
            n1 * d2 < n2 * d1,
            a.den > 0,
            b.den > 0,
    ;
    assert(a.num * b.den * (d1 * d2) == (a.num * d1) * (b.den * d2)) by (nonlinear_arith);
    assert((a.num * d1) * (b.den * d2) == (n1 * a.den) * (b.den * d2));
    assert((n1 * a.den) * (b.den * d2) == n1 * d2 * (a.den * b.den)) by (nonlinear_arith);
    assert(b.num * a.den * (d1 * d2) == (b.num * d2) * (a.den * d1)) by (nonlinear_arith);
    assert((b.num * d2) * (a.den * d1) == (n2 * b.den) * (a.den * d1));
    assert((n2 * b.den) * (a.den * d1) == n2 * d1 * (a.den * b.den)) by (nonlinear_arith);
    assert(a.num * b.den < b.num * a.den) by (nonlinear_arith)
        requires
            a.num * b.den * (d1 * d2) < b.num * a.den * (d1 * d2),
            d1 > 0,
            d2 > 0,
    ;
}

/// Adding the same number keeps the order.
pub proof fn lemma_lt_add(a: Rat, b: Rat, c: Rat)
    requires
        a.den > 0,
        b.den > 0,
        c.den > 0,
        rat_lt(a, b),
    ensures
        rat_lt(rat_add(a, c), rat_add(b, c)),
{
    let x = a.num * c.den + c.num * a.den;
    let y = b.num * c.den + c.num * b.den;
    let k = c.den * c.den;
    let ac = a.den * c.den;
    let bc = b.den * c.den;
    assert(y * ac == b.num * c.den * ac + c.num * b.den * ac) by (nonlinear_arith)
        requires
            y == b.num * c.den + c.num * b.den,
    ;
    assert(x * bc == a.num * c.den * bc + c.num * a.den * bc) by (nonlinear_arith)
        requires
            x == a.num * c.den + c.num * a.den,
    ;
    assert(b.num * c.den * ac == k * (b.num * a.den)) by (nonlinear_arith)
        requires
            k == c.den * c.den,
            ac == a.den * c.den,
    ;
    assert(a.num * c.den * bc == k * (a.num * b.den)) by (nonlinear_arith)
        requires
            k == c.den * c.den,
            bc == b.den * c.den,
    ;
    assert(c.num * b.den * ac == c.num * a.den * bc) by (nonlinear_arith)
        requires
            ac == a.den * c.den,
            bc == b.den * c.den,
    ;
    assert(k * (b.num * a.den) - k * (a.num * b.den) == k * (b.num * a.den - a.num * b.den))
        by (nonlinear_arith);
    assert(c.den * c.den * (b.num * a.den - a.num * b.den) > 0) by (nonlinear_arith)
        requires
            a.num * b.den < b.num * a.den,
            c.den > 0,
    ;
    assert(a.den * c.den > 0) by (nonlinear_arith)
        requires
            a.den > 0,
            c.den > 0,
    ;
    assert(b.den * c.den > 0) by (nonlinear_arith)
        requires
            b.den > 0,
            c.den > 0,
    ;
    lemma_lt_reduce(x, a.den * c.den, y, b.den * c.den);
}

/// Subtracting the same number keeps the order.
pub proof fn lemma_lt_sub(a: Rat, b: Rat, c: Rat)
    requires
        a.den > 0,
        b.den > 0,
        c.den > 0,
        rat_lt(a, b),
    ensures
        rat_lt(rat_sub(a, c), rat_sub(b, c)),
{
    let x = a.num * c.den - c.num * a.den;
    let y = b.num * c.den - c.num * b.den;
    let k = c.den * c.den;
    let ac = a.den * c.den;
    let bc = b.den * c.den;
    assert(y * ac == b.num * c.den * ac - c.num * b.den * ac) by (nonlinear_arith)
        requires
            y == b.num * c.den - c.num * b.den,
    ;
    assert(x * bc == a.num * c.den * bc - c.num * a.den * bc) by (nonlinear_arith)
        requires
            x == a.num * c.den - c.num * a.den,
    ;
    assert(b.num * c.den * ac == k * (b.num * a.den)) by (nonlinear_arith)
        requires
            k == c.den * c.den,
            ac == a.den * c.den,
    ;
    assert(a.num * c.den * bc == k * (a.num * b.den)) by (nonlinear_arith)
        requires
            k == c.den * c.den,
            bc == b.den * c.den,
    ;
    assert(c.num * b.den * ac == c.num * a.den * bc) by (nonlinear_arith)
        requires
            ac == a.den * c.den,
            bc == b.den * c.den,
    ;
    assert(k * (b.num * a.den) - k * (a.num * b.den) == k * (b.num * a.den - a.num * b.den))
        by (nonlinear_arith);
    assert(c.den * c.den * (b.num * a.den - a.num * b.den) > 0) by (nonlinear_arith)
        requires
            a.num * b.den < b.num * a.den,
            c.den > 0,
    ;
    assert(a.den * c.den > 0) by (nonlinear_arith)
        requires
            a.den > 0,
            c.den > 0,
    ;
    assert(b.den * c.den > 0) by (nonlinear_arith)
        requires
            b.den > 0,
            c.den > 0,
    ;
    lemma_lt_reduce(x, a.den * c.den, y, b.den * c.den);
}

/// A canonical zero is `0 / 1`.
pub proof fn lemma_canonical_zero(a: Rat)
    requires
        a.canonical(),
        a.num == 0,
    ensures
        a == rat_zero(),
{
    assert(gcd(0, a.den as nat) == gcd(a.den as nat, 0nat % (a.den as nat)));
    vstd::arithmetic::div_mod::lemma_small_mod(0, a.den as nat);
}

/// Zero is neutral for addition and subtraction.
pub proof fn lemma_add_zero(a: Rat)
    requires
        a.canonical(),
    ensures
        rat_add(rat_zero(), a) == a,
        rat_add(a, rat_zero()) == a,
        rat_sub(a, rat_zero()) == a,
        rat_sub(rat_zero(), a) == rat_neg(a),
{
    assert(0 * a.den + a.num * 1 == a.num);
    assert(1 * a.den == a.den);
    assert(a.num * 1 + 0 * a.den == a.num);
    assert(a.den * 1 == a.den);
    assert(a.num * 1 - 0 * a.den == a.num);
    assert(0 * a.den - a.num * 1 == -a.num);
    lemma_reduce_canonical(a);
    assert(abs(-a.num) == abs(a.num));
    let g = gcd(abs(a.num), a.den as nat);
    assert(g == 1);
}

/// A non-zero number divided by itself is one.
pub proof fn lemma_div_self(a: Rat)
    requires
        a.canonical(),
        a.num != 0,
    ensures
        rat_div(a, a) == rat_one(),
{
    let x: int = if a.num < 0 {
        -(a.num * a.den)
    } else {
        a.num * a.den
    };
    assert(x > 0) by (nonlinear_arith)
        requires
            x == (if a.num < 0 {
                -(a.num * a.den)
            } else {
                a.num * a.den
            }),
            a.num != 0,
            a.den > 0,
    ;
    if a.num < 0 {
        assert(a.den * (-a.num) == x) by (nonlinear_arith)
            requires
                x == -(a.num * a.den),
        ;
    } else {
        assert(a.den * a.num == x) by (nonlinear_arith)
            requires
                x == a.num * a.den,
        ;
    }
    assert(gcd(x as nat, x as nat) == gcd(x as nat, (x as nat) % (x as nat)));
    vstd::arithmetic::div_mod::lemma_mod_self_0(x);
    assert(gcd(x as nat, 0) == x);
    vstd::arithmetic::div_mod::lemma_div_basics(x);
}

/// The number of unit steps down from `a` that stay at or above `b`.
pub open spec fn rat_steps(a: Rat, b: Rat) -> nat {
    if a.num * b.den < b.num * a.den {
        0
    } else {
        ((a.num * b.den - b.num * a.den) / (a.den * b.den)) as nat + 1
    }
}

/// Stepping `a` down by one lowers `rat_steps(a, b)` while `b <= a`.
pub proof fn lemma_steps_decrease(a: Rat, b: Rat)
    requires
        a.den > 0,
        b.den > 0,
        rat_le(b, a),
    ensures
        rat_steps(rat_sub(a, rat_one()), b) < rat_steps(a, b),
{
    let a2 = rat_sub(a, rat_one());
    assert(a.num * 1 - 1 * a.den == a.num - a.den);
    assert(a.den * 1 == a.den);
    lemma_reduce(a.num - a.den, a.den);
    let x = a.num * b.den - b.num * a.den;
    let d = a.den * b.den;
    let x2 = a2.num * b.den - b.num * a2.den;
    let d2 = a2.den * b.den;
    assert(d > 0) by (nonlinear_arith)
        requires
            d == a.den * b.den,
            a.den > 0,
            b.den > 0,
    ;
    assert(d2 > 0) by (nonlinear_arith)
        requires
            d2 == a2.den * b.den,
            a2.den > 0,
            b.den > 0,
    ;
    assert(x >= 0);
    assert(x2 * a.den == (x - d) * a2.den) by (nonlinear_arith)
        requires
            a2.num * a.den == (a.num - a.den) * a2.den,
            x2 == a2.num * b.den - b.num * a2.den,
            x == a.num * b.den - b.num * a.den,
            d == a.den * b.den,
    ;
    if x2 >= 0 {
        // x2 / d2 == (x - d) / d, and (x - d) / d == x / d - 1
        assert(x2 * d == (x - d) * d2) by (nonlinear_arith)
            requires
                x2 * a.den == (x - d) * a2.den,
                d == a.den * b.den,
                d2 == a2.den * b.den,
        ;
        lemma_div_same_value(x2, d2, x - d, d);
        vstd::arithmetic::div_mod::lemma_div_plus_one(x - d, d);
        assert(x - d + d == x);
        assert(rat_steps(a2, b) == (x2 / d2) as nat + 1);
        assert(x - d >= 0) by (nonlinear_arith)
            requires
                x2 * d == (x - d) * d2,
                x2 >= 0,
                d > 0,
                d2 > 0,
        ;
        assert((x - d) / d >= 0) by {
            vstd::arithmetic::div_mod::lemma_div_pos_is_pos(x - d, d);
        }
    } else {
        vstd::arithmetic::div_mod::lemma_div_pos_is_pos(x, d);
    }
}

/// Fractions of the same value have the same floor.
pub proof fn lemma_div_same_value(n1: int, d1: int, n2: int, d2: int)
    requires
        d1 > 0,
        d2 > 0,
        n1 * d2 == n2 * d1,
    ensures
        n1 / d1 == n2 / d2,
{
    vstd::arithmetic::div_mod::lemma_fundamental_div_mod(n1, d1);
    vstd::arithmetic::div_mod::lemma_fundamental_div_mod(n2, d2);
    vstd::arithmetic::div_mod::lemma_mod_bound(n1, d1);
    vstd::arithmetic::div_mod::lemma_mod_bound(n2, d2);
    let q1 = n1 / d1;
    let q2 = n2 / d2;
    let r1 = n1 % d1;
    let r2 = n2 % d2;
    assert((q1 - q2) * (d1 * d2) == r2 * d1 - r1 * d2) by (nonlinear_arith)
        requires
            n1 == d1 * q1 + r1,
            n2 == d2 * q2 + r2,
            n1 * d2 == n2 * d1,
    ;
    assert(r2 * d1 - r1 * d2 < d1 * d2) by (nonlinear_arith)
        requires
            0 <= r2 < d2,
            0 <= r1 < d1,
            d1 > 0,
    ;
    assert(r2 * d1 - r1 * d2 > -(d1 * d2)) by (nonlinear_arith)
        requires
            0 <= r2 < d2,
            0 <= r1 < d1,
            d2 > 0,
    ;
    assert(q1 == q2) by (nonlinear_arith)
        requires
            (q1 - q2) * (d1 * d2) < d1 * d2,
            (q1 - q2) * (d1 * d2) > -(d1 * d2),
            d1 * d2 > 0,
    ;
}


/// Bezout coefficients `(x, y)` with `a * x + b * y == gcd(a, b)` (extended
/// Euclid's algorithm).
pub open spec fn bezout(a: nat, b: nat) -> (int, int)
    decreases b,
{
    if b == 0 {
        (1, 0)
    } else {
        let (x, y) = bezout(b, a % b);
        (y, x - (a / b) as int * y)
    }
}

/// Bezout's identity.
pub proof fn lemma_bezout(a: nat, b: nat)
    ensures
        a * bezout(a, b).0 + b * bezout(a, b).1 == gcd(a, b),
    decreases b,
{
    if b > 0 {
        lemma_bezout(b, a % b);
        let (x, y) = bezout(b, a % b);
        let q = (a / b) as int;
        let r = (a % b) as int;
        lemma_fundamental_div_mod(a as int, b as int);
        assert(a as int == b * q + r);
        assert(a * y + b * (x - q * y) == b * x + r * y) by (nonlinear_arith)
            requires
                a as int == b * q + r,
        ;
        assert(bezout(a, b) == (y, x - q * y));
        assert(gcd(a, b) == gcd(b, a % b));
        assert(b * x + (a % b) * y == gcd(b, a % b));
        assert(a * bezout(a, b).0 + b * bezout(a, b).1 == a * y + b * (x - q * y));
    } else {
        assert(bezout(a, b) == (1int, 0int));
        assert(a * 1int + b * 0int == a);
    }
}

/// If `a` is coprime with `b` and divides `b * c`, it divides `c`.
pub proof fn lemma_coprime_divides(a: nat, b: nat, c: nat)
    requires
        a > 0,
        gcd(a, b) == 1,
        (b * c) % a == 0,
    ensures
        c % a == 0,
{
    lemma_bezout(a, b);
    let (x, y) = bezout(a, b);
    lemma_fundamental_div_mod((b * c) as int, a as int);
    let k = (b * c) as int / a as int;
    assert(b * c == a * k);
    assert(c == a * (c * x + k * y)) by (nonlinear_arith)
        requires
            a * x + b * y == 1,
            b * c == a * k,
    ;
    lemma_mod_multiples_basic(c * x + k * y, a as int);
    lemma_mul_is_commutative(a as int, c * x + k * y);
}

/// Canonical rationals with the same value are equal.
pub proof fn lemma_canonical_unique(a: Rat, b: Rat)
    requires
        a.canonical(),
        b.canonical(),
        a.num * b.den == b.num * a.den,
    ensures
        a == b,
{
    let an = abs(a.num);
    let bn = abs(b.num);
    let ad = a.den as nat;
    let bd = b.den as nat;
    assert(an * bd == bn * ad) by (nonlinear_arith)
        requires
            a.num * b.den == b.num * a.den,
            an == abs(a.num),
            bn == abs(b.num),
            ad == a.den,
            bd == b.den,
    ;
    lemma_gcd_comm(an, ad);
    lemma_gcd_comm(bn, bd);
    // ad divides an * bd, and is coprime with an
    assert((an * bd) % ad == 0) by {
        lemma_mod_multiples_basic(bn as int, ad as int);
    }
    lemma_coprime_divides(ad, an, bd);
    assert((bn * ad) % bd == 0) by {
        lemma_mod_multiples_basic(bn as int, bd as int);
        assert(an * bd == bd * an) by (nonlinear_arith);
        lemma_mod_multiples_basic(an as int, bd as int);
    }
    lemma_coprime_divides(bd, bn, ad);
    lemma_fundamental_div_mod(bd as int, ad as int);
    lemma_fundamental_div_mod(ad as int, bd as int);
    let k1 = bd as int / ad as int;
    let k2 = ad as int / bd as int;
    assert(ad == bd) by (nonlinear_arith)
        requires
            bd == ad * k1,
            ad == bd * k2,
            ad > 0,
            bd > 0,
    ;
    assert(a.num == b.num) by (nonlinear_arith)
        requires
            a.num * b.den == b.num * a.den,
            a.den == b.den,
            a.den > 0,
    ;
}

/// Canonical rationals are ordered one way, the other, or equal.
pub proof fn lemma_trichotomy(a: Rat, b: Rat)
    requires
        a.canonical(),
        b.canonical(),
    ensures
        rat_lt(a, b) || rat_lt(b, a) || a == b,
{
    if !rat_lt(a, b) && !rat_lt(b, a) {
        lemma_canonical_unique(a, b);
    }
}

/// Products and quotients of non-zero numbers are non-zero.
pub proof fn lemma_mul_div_nonzero(a: Rat, b: Rat)
    requires
        a.den > 0,
        b.den > 0,
        a.num != 0,
        b.num != 0,
    ensures
        rat_mul(a, b).num != 0,
        rat_div(a, b).num != 0,
{
    assert(a.den * b.den > 0) by (nonlinear_arith)
        requires
            a.den > 0,
            b.den > 0,
    ;
    assert(a.num * b.num != 0) by (nonlinear_arith)
        requires
            a.num != 0,
            b.num != 0,
    ;
    assert(a.num * b.den != 0) by (nonlinear_arith)
        requires
            a.num != 0,
            b.den > 0,
    ;
    lemma_reduce(a.num * b.num, a.den * b.den);
    if b.num < 0 {
        assert(a.den * (-b.num) > 0) by (nonlinear_arith)
            requires
                a.den > 0,
                b.num < 0,
        ;
        lemma_reduce(-(a.num * b.den), a.den * (-b.num));
    } else {
        assert(a.den * b.num > 0) by (nonlinear_arith)
            requires
                a.den > 0,
                b.num > 0,
        ;
        lemma_reduce(a.num * b.den, a.den * b.num);
    }
}

// ---------------------------------------------------------------------
// Field laws on canonical rationals
// ---------------------------------------------------------------------
/// The lowest-terms form is canonical.
pub proof fn lemma_reduce_is_canonical(n: int, d: int)
    requires
        d > 0,
    ensures
        reduce(n, d).canonical(),
{
    let a = abs(n);
    let b = d as nat;
    let g = gcd(a, b);
    lemma_gcd_pos(a, b);
    lemma_gcd_divides(a, b);
    lemma_reduce(n, d);
    let gi = g as int;
    let r = reduce(n, d);
    lemma_fundamental_div_mod(a as int, gi);
    lemma_fundamental_div_mod(d, gi);
    let qa = a as int / gi;
    let e = d / gi;
    assert(a as int == gi * qa);
    assert(d == gi * e);
    assert(r.den == e);
    assert(abs(r.num) as int == qa) by {
        lemma_fundamental_div_mod(n, gi);
        if n < 0 {
            assert(n == -(a as int));
            assert(n % gi == 0) by {
                lemma_mod_multiples_basic(-qa, gi);
                assert(n == (-qa) * gi) by (nonlinear_arith)
                    requires
                        n == -(a as int),
                        a as int == gi * qa,
                ;
            }
            assert(n == gi * (n / gi) + 0);
            assert(n / gi == -qa) by (nonlinear_arith)
                requires
                    n == gi * (n / gi),
                    n == -(gi * qa),
                    gi > 0,
            ;
        } else {
            assert(n == a as int);
            assert(n % gi == 0) by {
                lemma_mod_multiples_basic(qa, gi);
                assert(n == qa * gi) by (nonlinear_arith)
                    requires
                        n == a as int,
                        a as int == gi * qa,
                ;
            }
            assert(n == gi * (n / gi) + 0);
            assert(n / gi == qa) by (nonlinear_arith)
                requires
                    n == gi * (n / gi),
                    n == gi * qa,
                    gi > 0,
            ;
        }
    }
    assert(qa >= 0) by (nonlinear_arith)
        requires
            a as int == gi * qa,
            gi > 0,
            a >= 0,
    ;
    assert(e > 0) by (nonlinear_arith)
        requires
            d == gi * e,
            gi > 0,
            d > 0,
    ;
    lemma_bezout(a, b);
    let (x, y) = bezout(a, b);
    assert(qa * x + e * y == 1) by (nonlinear_arith)
        requires
            a * x + b * y == g,
            a as int == gi * qa,
            b as int == gi * e,
            gi == g,
            gi > 0,
    ;
    let h = gcd(qa as nat, e as nat);
    lemma_gcd_pos(qa as nat, e as nat);
    lemma_gcd_divides(qa as nat, e as nat);
    let hi = h as int;
    lemma_fundamental_div_mod(qa, hi);
    lemma_fundamental_div_mod(e, hi);
    let u = qa / hi;
    let w = e / hi;
    assert(hi * (u * x + w * y) == 1) by (nonlinear_arith)
        requires
            qa * x + e * y == 1,
            qa == hi * u,
            e == hi * w,
    ;
    assert(hi == 1) by (nonlinear_arith)
        requires
            hi * (u * x + w * y) == 1,
            hi > 0,
    ;
}

/// Every sum, difference and product of rationals with positive
/// denominators is canonical, and so is every quotient by a non-zero one.
pub proof fn lemma_ops_canonical(a: Rat, b: Rat)
    requires
        a.den > 0,
        b.den > 0,
    ensures
        rat_add(a, b).canonical(),
        rat_sub(a, b).canonical(),
        rat_mul(a, b).canonical(),
        b.num != 0 ==> rat_div(a, b).canonical(),
{
    assert(a.den * b.den > 0) by (nonlinear_arith)
        requires
            a.den > 0,
            b.den > 0,
    ;
    lemma_reduce_is_canonical(a.num * b.den + b.num * a.den, a.den * b.den);
    lemma_reduce_is_canonical(a.num * b.den - b.num * a.den, a.den * b.den);
    lemma_reduce_is_canonical(a.num * b.num, a.den * b.den);
    if b.num < 0 {
        assert(a.den * (-b.num) > 0) by (nonlinear_arith)
            requires
                a.den > 0,
                b.num < 0,
        ;
        lemma_reduce_is_canonical(-(a.num * b.den), a.den * (-b.num));
    } else if b.num > 0 {
        assert(a.den * b.num > 0) by (nonlinear_arith)
            requires
                a.den > 0,
                b.num > 0,
        ;
        lemma_reduce_is_canonical(a.num * b.den, a.den * b.num);
    }
}

/// The values of sums, differences, products and quotients.
pub proof fn lemma_ops_value(a: Rat, b: Rat)
    requires
        a.den > 0,
        b.den > 0,
    ensures
        rat_add(a, b).num * (a.den * b.den) == (a.num * b.den + b.num * a.den) * rat_add(a, b).den,
        rat_sub(a, b).num * (a.den * b.den) == (a.num * b.den - b.num * a.den) * rat_sub(a, b).den,
        rat_mul(a, b).num * (a.den * b.den) == (a.num * b.num) * rat_mul(a, b).den,
        b.num != 0 ==> rat_div(a, b).num * (a.den * b.num) == (a.num * b.den) * rat_div(a, b).den,
        rat_add(a, b).den > 0,
        rat_sub(a, b).den > 0,
        rat_mul(a, b).den > 0,
        b.num != 0 ==> rat_div(a, b).den > 0,
{
    assert(a.den * b.den > 0) by (nonlinear_arith)
        requires
            a.den > 0,
            b.den > 0,
    ;
    lemma_reduce(a.num * b.den + b.num * a.den, a.den * b.den);
    lemma_reduce(a.num * b.den - b.num * a.den, a.den * b.den);
    lemma_reduce(a.num * b.num, a.den * b.den);
    if b.num < 0 {
        assert(a.den * (-b.num) > 0) by (nonlinear_arith)
            requires
                a.den > 0,
                b.num < 0,
        ;
        let q = rat_div(a, b);
        lemma_reduce(-(a.num * b.den), a.den * (-b.num));
        assert(q.num * (a.den * b.num) == (a.num * b.den) * q.den) by (nonlinear_arith)
            requires
                q.num * (a.den * (-b.num)) == (-(a.num * b.den)) * q.den,
        ;
    } else if b.num > 0 {
        assert(a.den * b.num > 0) by (nonlinear_arith)
            requires
                a.den > 0,
                b.num > 0,
        ;
        lemma_reduce(a.num * b.den, a.den * b.num);
    }
}

/// Cancelling a non-zero factor.
pub proof fn lemma_cancel(x: int, y: int, k: int)
    requires
        k != 0,
        x * k == y * k,
    ensures
        x == y,
{
    assert((x - y) * k == 0) by (nonlinear_arith)
        requires
            x * k == y * k,
    ;
    assert(x - y == 0) by (nonlinear_arith)
        requires
            (x - y) * k == 0,
            k != 0,
    ;
}

/// Fractions of the same value have the same lowest-terms form.
pub proof fn lemma_reduce_eq(n1: int, d1: int, n2: int, d2: int)
    requires
        d1 > 0,
        d2 > 0,
        n1 * d2 == n2 * d1,
    ensures
        reduce(n1, d1) == reduce(n2, d2),
{
    let r1 = reduce(n1, d1);
    let r2 = reduce(n2, d2);
    lemma_reduce(n1, d1);
    lemma_reduce(n2, d2);
    lemma_reduce_is_canonical(n1, d1);
    lemma_reduce_is_canonical(n2, d2);
    let (a, b, x, y) = (r1.num, r1.den, r2.num, r2.den);
    assert(a * d1 * (y * d2) == n1 * b * (y * d2)) by (nonlinear_arith)
        requires
            a * d1 == n1 * b,
    ;
    assert(n1 * b * (y * d2) == (n1 * d2) * (b * y)) by (nonlinear_arith);
    assert(x * d2 * (b * d1) == n2 * y * (b * d1)) by (nonlinear_arith)
        requires
            x * d2 == n2 * y,
    ;
    assert(n2 * y * (b * d1) == (n2 * d1) * (b * y)) by (nonlinear_arith);
    assert((a * y) * (d1 * d2) == a * d1 * (y * d2)) by (nonlinear_arith);
    assert((x * b) * (d1 * d2) == x * d2 * (b * d1)) by (nonlinear_arith);
    assert(d1 * d2 != 0) by (nonlinear_arith)
        requires
            d1 > 0,
            d2 > 0,
    ;
    lemma_cancel(a * y, x * b, d1 * d2);
    lemma_canonical_unique(r1, r2);
}

/// `x` has the value of the fraction `n / d`.
pub open spec fn has_value(x: Rat, n: int, d: int) -> bool {
    x.num * d == n * x.den
}

/// Rearranging a product of four factors.
pub proof fn lemma_swap4(a: int, b: int, c: int, e: int)
    ensures
        (a * b) * (c * e) == (a * c) * (b * e),
        (a * b) * (c * e) == (a * e) * (c * b),
        a * (b * c) == (a * b) * c,
        a * b == b * a,
{
    assert((a * b) * (c * e) == (a * c) * (b * e)) by (nonlinear_arith);
    assert((a * b) * (c * e) == (a * e) * (c * b)) by (nonlinear_arith);
    assert(a * (b * c) == (a * b) * c) by (nonlinear_arith);
    assert(a * b == b * a) by (nonlinear_arith);
}

/// Distributing a product over a sum or a difference.
pub proof fn lemma_distrib(a: int, b: int, c: int)
    ensures
        (a + b) * c == a * c + b * c,
        (a - b) * c == a * c - b * c,
{
    assert((a + b) * c == a * c + b * c) by (nonlinear_arith);
    assert((a - b) * c == a * c - b * c) by (nonlinear_arith);
}

/// The cross products that show a sum, difference or product with a
/// fraction to depend only on its value.
proof fn lemma_cross(xn: int, xd: int, n: int, d: int, cn: int, cd: int)
    requires
        xn * d == n * xd,
    ensures
        (xn * cd + cn * xd) * (d * cd) == (n * cd + cn * d) * (xd * cd),
        (xn * cd - cn * xd) * (d * cd) == (n * cd - cn * d) * (xd * cd),
        (xn * cn) * (d * cd) == (n * cn) * (xd * cd),
{
    let t = d * cd;
    let u = xd * cd;
    lemma_distrib(xn * cd, cn * xd, t);
    lemma_distrib(n * cd, cn * d, u);
    lemma_swap4(xn, cd, d, cd);
    lemma_swap4(n, cd, xd, cd);
    lemma_swap4(n, xd, cd, cd);
    assert((xn * d) * (cd * cd) == (n * xd) * (cd * cd));
    lemma_swap4(cn, xd, d, cd);
    lemma_swap4(cn, d, xd, cd);
    assert((cn * xd) * (d * cd) == (cn * d) * (xd * cd));
    assert((xn * cd) * (d * cd) == (n * cd) * (xd * cd));
    lemma_swap4(xn, cn, d, cd);
    lemma_swap4(n, cn, xd, cd);
    lemma_swap4(xn, d, cn, cd);
    lemma_swap4(n, xd, cn, cd);
    assert((xn * d) * (cn * cd) == (n * xd) * (cn * cd));
}

/// A sum, difference or product with `x` depends only on the value of `x`.
pub proof fn lemma_ops_by_value(x: Rat, n: int, d: int, c: Rat)
    requires
        x.den > 0,
        d > 0,
        c.den > 0,
        has_value(x, n, d),
    ensures
        rat_add(x, c) == reduce(n * c.den + c.num * d, d * c.den),
        rat_add(c, x) == reduce(c.num * d + n * c.den, c.den * d),
        rat_sub(x, c) == reduce(n * c.den - c.num * d, d * c.den),
        rat_sub(c, x) == reduce(c.num * d - n * c.den, c.den * d),
        rat_mul(x, c) == reduce(n * c.num, d * c.den),
        rat_mul(c, x) == reduce(c.num * n, c.den * d),
{
    let (xn, xd, cn, cd) = (x.num, x.den, c.num, c.den);
    assert(xd * cd > 0 && d * cd > 0) by (nonlinear_arith)
        requires
            xd > 0,
            d > 0,
            cd > 0,
    ;
    lemma_cross(xn, xd, n, d, cn, cd);
    lemma_reduce_eq(xn * cd + cn * xd, xd * cd, n * cd + cn * d, d * cd);
    lemma_reduce_eq(xn * cd - cn * xd, xd * cd, n * cd - cn * d, d * cd);
    lemma_reduce_eq(xn * cn, xd * cd, n * cn, d * cd);
    lemma_swap4(cd, xd, 1, 1);
    lemma_swap4(cd, d, 1, 1);
    lemma_swap4(cn, xd, 1, 1);
    lemma_swap4(cn, d, 1, 1);
    lemma_swap4(xn, cd, 1, 1);
    lemma_swap4(n, cd, 1, 1);
    lemma_swap4(xn, cn, 1, 1);
    lemma_swap4(n, cn, 1, 1);
    assert(cd * xd == xd * cd && cd * d == d * cd);
    assert(cn * xd + xn * cd == xn * cd + cn * xd);
    assert(cn * d + n * cd == n * cd + cn * d);
    assert(cn * xd - xn * cd == -(xn * cd - cn * xd));
    assert(cn * d - n * cd == -(n * cd - cn * d));
    assert((cn * xd - xn * cd) * (cd * d) == (cn * d - n * cd) * (cd * xd)) by (nonlinear_arith)
        requires
            (xn * cd - cn * xd) * (d * cd) == (n * cd - cn * d) * (xd * cd),
            cn * xd - xn * cd == -(xn * cd - cn * xd),
            cn * d - n * cd == -(n * cd - cn * d),
            cd * xd == xd * cd,
            cd * d == d * cd,
    ;
    lemma_reduce_eq(cn * xd - xn * cd, cd * xd, cn * d - n * cd, cd * d);
    assert(cn * xn == xn * cn && cn * n == n * cn);
}

/// Addition is commutative and associative, and zero is neutral, on
/// canonical rationals.
pub proof fn lemma_add_laws(a: Rat, b: Rat, c: Rat)
    requires
        a.canonical(),
        b.canonical(),
        c.canonical(),
    ensures
        rat_add(a, b) == rat_add(b, a),
        rat_add(rat_add(a, b), c) == rat_add(a, rat_add(b, c)),
        rat_add(a, rat_zero()) == a,
        rat_add(rat_zero(), a) == a,
{
    let (an, ad, bn, bd, cn, cd) = (a.num, a.den, b.num, b.den, c.num, c.den);
    lemma_swap4(an, bd, 1, 1);
    lemma_swap4(bn, ad, 1, 1);
    lemma_swap4(ad, bd, 1, 1);
    assert(an * bd + bn * ad == bn * ad + an * bd);
    lemma_add_zero(a);
    let ab = rat_add(a, b);
    let bc = rat_add(b, c);
    assert(ad * bd > 0 && bd * cd > 0) by (nonlinear_arith)
        requires
            ad > 0,
            bd > 0,
            cd > 0,
    ;
    lemma_reduce(an * bd + bn * ad, ad * bd);
    lemma_reduce(bn * cd + cn * bd, bd * cd);
    lemma_ops_by_value(ab, an * bd + bn * ad, ad * bd, c);
    lemma_ops_by_value(bc, bn * cd + cn * bd, bd * cd, a);
    // both sides are reduce(an bd cd + bn ad cd + cn ad bd, ad bd cd)
    lemma_distrib(an * bd, bn * ad, cd);
    lemma_distrib(bn * cd, cn * bd, ad);
    lemma_swap4(an, bd, cd, 1);
    lemma_swap4(bn, ad, cd, 1);
    lemma_swap4(bn, cd, ad, 1);
    lemma_swap4(cn, bd, ad, 1);
    lemma_swap4(cn, ad, bd, 1);
    lemma_swap4(ad, bd, cd, 1);
    lemma_swap4(an, bd * cd, 1, 1);
    lemma_swap4(bn * cd + cn * bd, ad, 1, 1);
    lemma_swap4(cn, ad * bd, 1, 1);
    lemma_swap4(bn, ad * cd, 1, 1);
    assert((bn * ad) * cd == (bn * cd) * ad) by (nonlinear_arith);
    assert(cn * (ad * bd) == (cn * bd) * ad) by (nonlinear_arith);
    assert((an * bd) * cd == an * (bd * cd)) by (nonlinear_arith);
    assert((an * bd + bn * ad) * cd + cn * (ad * bd) == an * (bd * cd) + (bn * cd + cn * bd) * ad);
    assert((ad * bd) * cd == ad * (bd * cd)) by (nonlinear_arith);
}

/// Subtraction undoes addition, a quotient times its divisor is the
/// dividend, and multiplication is commutative, on canonical rationals.
pub proof fn lemma_sub_div_laws(a: Rat, b: Rat)
    requires
        a.canonical(),
        b.canonical(),
    ensures
        rat_add(rat_sub(a, b), b) == a,
        rat_sub(a, b) == rat_add(a, rat_neg(b)),
        b.num != 0 ==> rat_mul(rat_div(a, b), b) == a,
        rat_mul(a, b) == rat_mul(b, a),
{
    let (an, ad, bn, bd) = (a.num, a.den, b.num, b.den);
    let s = rat_sub(a, b);
    assert(ad * bd > 0) by (nonlinear_arith)
        requires
            ad > 0,
            bd > 0,
    ;
    lemma_reduce(an * bd - bn * ad, ad * bd);
    lemma_ops_by_value(s, an * bd - bn * ad, ad * bd, b);
    assert((an * bd - bn * ad) * bd + bn * (ad * bd) == an * (bd * bd)) by (nonlinear_arith);
    assert(ad * bd * bd > 0) by (nonlinear_arith)
        requires
            ad > 0,
            bd > 0,
    ;
    assert(an * (bd * bd) * ad == an * (ad * bd * bd)) by (nonlinear_arith);
    lemma_reduce_eq(an * (bd * bd), ad * bd * bd, an, ad);
    lemma_reduce_canonical(a);
    let nb = rat_neg(b);
    assert(an * nb.den + nb.num * ad == an * bd - bn * ad) by (nonlinear_arith)
        requires
            nb.num == -bn,
            nb.den == bd,
    ;
    assert(an * bn == bn * an && ad * bd == bd * ad) by (nonlinear_arith);
    if bn != 0 {
        let q = rat_div(a, b);
        lemma_ops_value(a, b);
        assert(ad * bn != 0) by (nonlinear_arith)
            requires
                ad > 0,
                bn != 0,
        ;
        let (n, d) = if ad * bn > 0 {
            (an * bd, ad * bn)
        } else {
            (-(an * bd), -(ad * bn))
        };
        assert(d > 0);
        assert(has_value(q, n, d)) by (nonlinear_arith)
            requires
                q.num * (ad * bn) == (an * bd) * q.den,
                (n == an * bd && d == ad * bn) || (n == -(an * bd) && d == -(ad * bn)),
        ;
        lemma_ops_by_value(q, n, d, b);
        assert((n * bn) * ad == an * (d * bd)) by (nonlinear_arith)
            requires
                (n == an * bd && d == ad * bn) || (n == -(an * bd) && d == -(ad * bn)),
        ;
        assert(d * bd > 0) by (nonlinear_arith)
            requires
                d > 0,
                bd > 0,
        ;
        lemma_reduce_eq(n * bn, d * bd, an, ad);
    }
}

/// On integers the operations are the integer ones.
pub proof fn lemma_int_ops(i: int, j: int)
    ensures
        rat_add(rat_int(i), rat_int(j)) == rat_int(i + j),
        rat_sub(rat_int(i), rat_int(j)) == rat_int(i - j),
        rat_lt(rat_int(i), rat_int(j)) == (i < j),
{
    lemma_gcd_one(abs(i + j));
    lemma_gcd_one(abs(i - j));
    assert(i * 1 + j * 1 == i + j && i * 1 - j * 1 == i - j && 1 * 1 == 1);
    assert(gcd(abs(i + j), 1) == 1);
    assert(gcd(abs(i - j), 1) == 1);
    assert((i + j) / 1 == i + j);
    assert((i - j) / 1 == i - j);
    assert(1int / 1 == 1);
}

/// Equal lowest-terms forms come from fractions of the same value.
pub proof fn lemma_reduce_eq_value(n1: int, d1: int, n2: int, d2: int)
    requires
        d1 > 0,
        d2 > 0,
        reduce(n1, d1) == reduce(n2, d2),
    ensures
        n1 * d2 == n2 * d1,
{
    let r = reduce(n1, d1);
    lemma_reduce(n1, d1);
    lemma_reduce(n2, d2);
    assert(r.num * d1 * d2 == n1 * r.den * d2) by (nonlinear_arith)
        requires
            r.num * d1 == n1 * r.den,
    ;
    assert(r.num * d2 * d1 == n2 * r.den * d1) by (nonlinear_arith)
        requires
            r.num * d2 == n2 * r.den,
    ;
    assert(n1 * d2 * r.den == n2 * d1 * r.den) by (nonlinear_arith)
        requires
            r.num * d1 * d2 == n1 * r.den * d2,
            r.num * d2 * d1 == n2 * r.den * d1,
    ;
    lemma_cancel(n1 * d2, n2 * d1, r.den);
}

/// Adding the same number on the left can be cancelled.
pub proof fn lemma_add_cancel(a: Rat, b: Rat, c: Rat)
    requires
        a.canonical(),
        b.canonical(),
        c.canonical(),
        rat_add(a, b) == rat_add(a, c),
    ensures
        b == c,
{
    let (an, ad, bn, bd, cn, cd) = (a.num, a.den, b.num, b.den, c.num, c.den);
    assert(ad * bd > 0 && ad * cd > 0) by (nonlinear_arith)
        requires
            ad > 0,
            bd > 0,
            cd > 0,
    ;
    lemma_reduce_eq_value(an * bd + bn * ad, ad * bd, an * cd + cn * ad, ad * cd);
    lemma_distrib(an * bd, bn * ad, ad * cd);
    lemma_distrib(an * cd, cn * ad, ad * bd);
    lemma_swap4(an, bd, ad, cd);
    lemma_swap4(an, cd, ad, bd);
    lemma_swap4(an, ad, bd, cd);
    lemma_swap4(an, ad, cd, bd);
    assert((an * bd) * (ad * cd) == (an * cd) * (ad * bd)) by (nonlinear_arith);
    assert((bn * ad) * (ad * cd) == (cn * ad) * (ad * bd));
    assert((bn * cd) * (ad * ad) == (bn * ad) * (ad * cd)) by (nonlinear_arith);
    assert((cn * bd) * (ad * ad) == (cn * ad) * (ad * bd)) by (nonlinear_arith);
    assert(ad * ad != 0) by (nonlinear_arith)
        requires
            ad > 0,
    ;
    lemma_cancel(bn * cd, cn * bd, ad * ad);
    lemma_canonical_unique(b, c);
}

/// Multiplying by the same non-zero number on the right can be cancelled.
pub proof fn lemma_mul_cancel(x: Rat, y: Rat, c: Rat)
    requires
        x.canonical(),
        y.canonical(),
        c.canonical(),
        c.num != 0,
        rat_mul(x, c) == rat_mul(y, c),
    ensures
        x == y,
{
    let (xn, xd, yn, yd, cn, cd) = (x.num, x.den, y.num, y.den, c.num, c.den);
    assert(xd * cd > 0 && yd * cd > 0) by (nonlinear_arith)
        requires
            xd > 0,
            yd > 0,
            cd > 0,
    ;
    lemma_reduce_eq_value(xn * cn, xd * cd, yn * cn, yd * cd);
    assert((xn * yd) * (cn * cd) == (xn * cn) * (yd * cd)) by (nonlinear_arith);
    assert((yn * xd) * (cn * cd) == (yn * cn) * (xd * cd)) by (nonlinear_arith);
    assert(cn * cd != 0) by (nonlinear_arith)
        requires
            cn != 0,
            cd > 0,
    ;
    lemma_cancel(xn * yd, yn * xd, cn * cd);
    lemma_canonical_unique(x, y);
}

/// A value known as `n / d` is also `n2 / d2` when the fractions are equal.
pub proof fn lemma_value_trans(z: Rat, n: int, d: int, n2: int, d2: int)
    requires
        z.den > 0,
        d > 0,
        d2 > 0,
        has_value(z, n, d),
        n * d2 == n2 * d,
    ensures
        has_value(z, n2, d2),
{
    assert(z.num * d2 == n2 * z.den) by (nonlinear_arith)
        requires
            z.num * d == n * z.den,
            n * d2 == n2 * d,
            d > 0,
    ;
}

/// The values of the sum, difference and product of `x = n1 / d1` and
/// `y = n2 / d2`.
pub proof fn lemma_values(x: Rat, y: Rat, n1: int, d1: int, n2: int, d2: int)
    requires
        x.den > 0,
        y.den > 0,
        d1 > 0,
        d2 > 0,
        has_value(x, n1, d1),
        has_value(y, n2, d2),
    ensures
        d1 * d2 > 0,
        has_value(rat_add(x, y), n1 * d2 + n2 * d1, d1 * d2),
        has_value(rat_sub(x, y), n1 * d2 - n2 * d1, d1 * d2),
        has_value(rat_mul(x, y), n1 * n2, d1 * d2),
        rat_add(x, y).den > 0,
        rat_sub(x, y).den > 0,
        rat_mul(x, y).den > 0,
{
    let (xn, xd, yn, yd) = (x.num, x.den, y.num, y.den);
    lemma_ops_value(x, y);
    assert(d1 * d2 > 0 && xd * yd > 0) by (nonlinear_arith)
        requires
            d1 > 0,
            d2 > 0,
            xd > 0,
            yd > 0,
    ;
    let e = xd * yd;
    let f = d1 * d2;
    assert((xn * yd) * f == (n1 * d2) * e) by (nonlinear_arith)
        requires
            xn * d1 == n1 * xd,
            e == xd * yd,
            f == d1 * d2,
    ;
    assert((yn * xd) * f == (n2 * d1) * e) by (nonlinear_arith)
        requires
            yn * d2 == n2 * yd,
            e == xd * yd,
            f == d1 * d2,
    ;
    lemma_distrib(xn * yd, yn * xd, f);
    lemma_distrib(n1 * d2, n2 * d1, e);
    assert((xn * yn) * (d1 * d2) == (n1 * n2) * (xd * yd)) by (nonlinear_arith)
        requires
            xn * d1 == n1 * xd,
            yn * d2 == n2 * yd,
    ;
    lemma_value_trans(rat_add(x, y), xn * yd + yn * xd, xd * yd, n1 * d2 + n2 * d1, d1 * d2);
    lemma_value_trans(rat_sub(x, y), xn * yd - yn * xd, xd * yd, n1 * d2 - n2 * d1, d1 * d2);
    lemma_value_trans(rat_mul(x, y), xn * yn, xd * yd, n1 * n2, d1 * d2);
}

/// Canonical rationals with equal values given as fractions are equal.
pub proof fn lemma_value_eq(x: Rat, y: Rat, n1: int, d1: int, n2: int, d2: int)
    requires
        x.canonical(),
        y.canonical(),
        d1 > 0,
        d2 > 0,
        has_value(x, n1, d1),
        has_value(y, n2, d2),
        n1 * d2 == n2 * d1,
    ensures
        x == y,
{
    let (xn, xd, yn, yd) = (x.num, x.den, y.num, y.den);
    assert(xn * yd == yn * xd) by (nonlinear_arith)
        requires
            xn * d1 == n1 * xd,
            yn * d2 == n2 * yd,
            n1 * d2 == n2 * d1,
            d1 > 0,
            d2 > 0,
    ;
    lemma_canonical_unique(x, y);
}

/// Multiplication is associative, distributes over sums and differences,
/// and has one as its unit, on canonical rationals.
pub proof fn lemma_mul_laws(a: Rat, b: Rat, c: Rat)
    requires
        a.canonical(),
        b.canonical(),
        c.canonical(),
    ensures
        rat_mul(rat_mul(a, b), c) == rat_mul(a, rat_mul(b, c)),
        rat_mul(rat_add(a, b), c) == rat_add(rat_mul(a, c), rat_mul(b, c)),
        rat_mul(rat_sub(a, b), c) == rat_sub(rat_mul(a, c), rat_mul(b, c)),
        rat_mul(a, rat_one()) == a,
{
    let (an, ad, bn, bd, cn, cd) = (a.num, a.den, b.num, b.den, c.num, c.den);
    lemma_values(a, b, an, ad, bn, bd);
    lemma_values(b, c, bn, bd, cn, cd);
    lemma_values(a, c, an, ad, cn, cd);
    lemma_values(rat_mul(a, b), c, an * bn, ad * bd, cn, cd);
    lemma_values(a, rat_mul(b, c), an, ad, bn * cn, bd * cd);
    lemma_ops_canonical(a, b);
    lemma_ops_canonical(b, c);
    lemma_ops_canonical(a, c);
    lemma_ops_canonical(rat_mul(a, b), c);
    lemma_ops_canonical(a, rat_mul(b, c));
    assert(((an * bn) * cn) * (ad * (bd * cd)) == (an * (bn * cn)) * ((ad * bd) * cd)) by (nonlinear_arith);
    lemma_value_eq(
        rat_mul(rat_mul(a, b), c),
        rat_mul(a, rat_mul(b, c)),
        (an * bn) * cn,
        (ad * bd) * cd,
        an * (bn * cn),
        ad * (bd * cd),
    );
    lemma_values(rat_add(a, b), c, an * bd + bn * ad, ad * bd, cn, cd);
    lemma_values(rat_sub(a, b), c, an * bd - bn * ad, ad * bd, cn, cd);
    lemma_values(rat_mul(a, c), rat_mul(b, c), an * cn, ad * cd, bn * cn, bd * cd);
    lemma_ops_canonical(rat_add(a, b), c);
    lemma_ops_canonical(rat_sub(a, b), c);
    lemma_ops_canonical(rat_mul(a, c), rat_mul(b, c));
    let t1 = (an * bd) * cn;
    let t2 = (bn * ad) * cn;
    let d1 = (ad * bd) * cd;
    let u1 = (an * cn) * (bd * cd);
    let u2 = (bn * cn) * (ad * cd);
    let d2 = (ad * cd) * (bd * cd);
    assert(u1 == cd * t1) by (nonlinear_arith)
        requires
            u1 == (an * cn) * (bd * cd),
            t1 == (an * bd) * cn,
    ;
    assert(u2 == cd * t2) by (nonlinear_arith)
        requires
            u2 == (bn * cn) * (ad * cd),
            t2 == (bn * ad) * cn,
    ;
    assert(d2 == cd * d1) by (nonlinear_arith)
        requires
            d2 == (ad * cd) * (bd * cd),
            d1 == (ad * bd) * cd,
    ;
    lemma_distrib(an * bd, bn * ad, cn);
    lemma_distrib(t1, t2, cd);
    lemma_swap4(cd, t1, 1, 1);
    lemma_swap4(cd, t2, 1, 1);
    assert(u1 + u2 == cd * (t1 + t2));
    assert(u1 - u2 == cd * (t1 - t2));
    assert((t1 + t2) * d2 == (u1 + u2) * d1) by (nonlinear_arith)
        requires
            u1 + u2 == cd * (t1 + t2),
            d2 == cd * d1,
    ;
    assert((t1 - t2) * d2 == (u1 - u2) * d1) by (nonlinear_arith)
        requires
            u1 - u2 == cd * (t1 - t2),
            d2 == cd * d1,
    ;
    lemma_value_eq(rat_mul(rat_add(a, b), c), rat_add(rat_mul(a, c), rat_mul(b, c)), t1 + t2, d1, u1 + u2, d2);
    lemma_value_eq(rat_mul(rat_sub(a, b), c), rat_sub(rat_mul(a, c), rat_mul(b, c)), t1 - t2, d1, u1 - u2, d2);
    lemma_small_canonical(1);
    lemma_values(a, rat_one(), an, ad, 1, 1);
    lemma_ops_canonical(a, rat_one());
    lemma_value_eq(rat_mul(a, rat_one()), a, an * 1, ad * 1, an, ad);
}


/// Regrouping sums and differences of four canonical rationals.
pub proof fn lemma_regroup(a: Rat, b: Rat, c: Rat, d: Rat)
    requires
        a.canonical(),
        b.canonical(),
        c.canonical(),
        d.canonical(),
    ensures
        rat_add(rat_add(a, b), rat_add(c, d)) == rat_add(rat_add(a, c), rat_add(b, d)),
        rat_sub(rat_add(a, b), rat_add(c, d)) == rat_add(rat_sub(a, c), rat_sub(b, d)),
        rat_sub(rat_add(a, b), a) == b,
{
    let (an, ad, bn, bd, cn, cd, dn, dd) = (a.num, a.den, b.num, b.den, c.num, c.den, d.num, d.den);
    lemma_values(a, b, an, ad, bn, bd);
    lemma_values(c, d, cn, cd, dn, dd);
    lemma_values(a, c, an, ad, cn, cd);
    lemma_values(b, d, bn, bd, dn, dd);
    let (n1, e1) = (an * bd + bn * ad, ad * bd);
    let (n2, e2) = (cn * dd + dn * cd, cd * dd);
    let (n3, e3) = (an * cd + cn * ad, ad * cd);
    let (n4, e4) = (bn * dd + dn * bd, bd * dd);
    let (m3, m4) = (an * cd - cn * ad, bn * dd - dn * bd);
    lemma_values(rat_add(a, b), rat_add(c, d), n1, e1, n2, e2);
    lemma_values(rat_add(a, c), rat_add(b, d), n3, e3, n4, e4);
    lemma_values(rat_sub(a, c), rat_sub(b, d), m3, e3, m4, e4);
    lemma_ops_canonical(rat_add(a, b), rat_add(c, d));
    lemma_ops_canonical(rat_add(a, c), rat_add(b, d));
    lemma_ops_canonical(rat_sub(a, c), rat_sub(b, d));
    lemma_ops_canonical(a, b);
    lemma_ops_canonical(c, d);
    lemma_ops_canonical(a, c);
    lemma_ops_canonical(b, d);
    // both sums are (an bd cd dd + bn ad cd dd + cn ad bd dd + dn ad bd cd) / (ad bd cd dd)
    let den = ((ad * bd) * cd) * dd;
    let w1 = ((an * bd) * cd) * dd;
    let w2 = ((bn * ad) * cd) * dd;
    let w3 = ((cn * ad) * bd) * dd;
    let w4 = ((dn * ad) * bd) * cd;
    assert(n1 * e2 == w1 + w2) by (nonlinear_arith)
        requires
            n1 == an * bd + bn * ad,
            e2 == cd * dd,
            w1 == ((an * bd) * cd) * dd,
            w2 == ((bn * ad) * cd) * dd,
    ;
    assert((cn * dd) * (ad * bd) == w3) by (nonlinear_arith)
        requires
            w3 == ((cn * ad) * bd) * dd,
    ;
    assert((dn * cd) * (ad * bd) == w4) by (nonlinear_arith)
        requires
            w4 == ((dn * ad) * bd) * cd,
    ;
    lemma_distrib(cn * dd, dn * cd, ad * bd);
    assert(n3 * e4 == w1 + w3) by (nonlinear_arith)
        requires
            n3 == an * cd + cn * ad,
            e4 == bd * dd,
            w1 == ((an * bd) * cd) * dd,
            w3 == ((cn * ad) * bd) * dd,
    ;
    assert((bn * dd) * (ad * cd) == w2) by (nonlinear_arith)
        requires
            w2 == ((bn * ad) * cd) * dd,
    ;
    assert((dn * bd) * (ad * cd) == w4) by (nonlinear_arith)
        requires
            w4 == ((dn * ad) * bd) * cd,
    ;
    lemma_distrib(bn * dd, dn * bd, ad * cd);
    assert(m3 * e4 == w1 - w3) by (nonlinear_arith)
        requires
            m3 == an * cd - cn * ad,
            e4 == bd * dd,
            w1 == ((an * bd) * cd) * dd,
            w3 == ((cn * ad) * bd) * dd,
    ;
    assert(m4 * e3 == w2 - w4);
    assert(e1 * e2 == den && e3 * e4 == den) by (nonlinear_arith)
        requires
            e1 == ad * bd,
            e2 == cd * dd,
            e3 == ad * cd,
            e4 == bd * dd,
            den == ((ad * bd) * cd) * dd,
    ;
    assert(den > 0) by (nonlinear_arith)
        requires
            e1 * e2 == den,
            e1 > 0,
            e2 > 0,
    ;
    lemma_value_eq(
        rat_add(rat_add(a, b), rat_add(c, d)),
        rat_add(rat_add(a, c), rat_add(b, d)),
        n1 * e2 + n2 * e1,
        e1 * e2,
        n3 * e4 + n4 * e3,
        e3 * e4,
    );
    lemma_value_eq(
        rat_sub(rat_add(a, b), rat_add(c, d)),
        rat_add(rat_sub(a, c), rat_sub(b, d)),
        n1 * e2 - n2 * e1,
        e1 * e2,
        m3 * e4 + m4 * e3,
        e3 * e4,
    );
    lemma_values(rat_add(a, b), a, n1, e1, an, ad);
    lemma_ops_canonical(rat_add(a, b), a);
    assert((n1 * ad - an * e1) * bd == bn * (e1 * ad)) by (nonlinear_arith)
        requires
            n1 == an * bd + bn * ad,
            e1 == ad * bd,
    ;
    lemma_value_eq(rat_sub(rat_add(a, b), a), b, n1 * ad - an * e1, e1 * ad, bn, bd);
}

/// Dividing by a non-zero canonical rational undoes multiplying by it,
/// distributes over sums, and leaves zero at zero.
pub proof fn lemma_div_laws(a: Rat, b: Rat, c: Rat)
    requires
        a.canonical(),
        b.canonical(),
        c.canonical(),
        c.num != 0,
    ensures
        rat_div(rat_add(a, b), c) == rat_add(rat_div(a, c), rat_div(b, c)),
        rat_div(rat_zero(), c) == rat_zero(),
        rat_div(rat_mul(a, c), c) == a,
{
    lemma_ops_canonical(a, c);
    lemma_ops_canonical(b, c);
    lemma_ops_canonical(a, b);
    lemma_ops_canonical(rat_add(a, b), c);
    let (x, y) = (rat_div(a, c), rat_div(b, c));
    lemma_ops_canonical(x, y);
    lemma_mul_laws(x, y, c);
    lemma_sub_div_laws(a, c);
    lemma_sub_div_laws(b, c);
    lemma_sub_div_laws(rat_add(a, b), c);
    // (x + y) c == a + b == ((a + b) / c) c
    lemma_mul_cancel(rat_add(x, y), rat_div(rat_add(a, b), c), c);
    lemma_small_canonical(0);
    lemma_ops_canonical(rat_zero(), c);
    lemma_ops_value(rat_zero(), c);
    let z = rat_div(rat_zero(), c);
    assert(z.num == 0) by (nonlinear_arith)
        requires
            c.num != 0 ==> z.num * (1 * c.num) == (0 * c.den) * z.den,
            c.num != 0,
            z.den > 0,
    ;
    lemma_canonical_zero(z);
    let m = rat_mul(a, c);
    lemma_ops_canonical(m, c);
    lemma_sub_div_laws(m, c);
    lemma_mul_cancel(rat_div(m, c), a, c);
}

} // verus!
