//! How rounding respects the order of numbers: what is larger stays so, signs are kept, and
//! errors are small.
use vstd::arithmetic::div_mod::{
    lemma_basic_div, lemma_div_is_ordered, lemma_div_pos_is_pos, lemma_fundamental_div_mod,
    lemma_fundamental_div_mod_converse, lemma_mod_bound,
};
use vstd::arithmetic::power2::{
    lemma2_to64, lemma2_to64_rest, lemma_pow2_adds, lemma_pow2_pos,
    lemma_pow2_strictly_increases, lemma_pow2_unfold, pow2,
};
use vstd::prelude::*;

use crate::decimal::{lemma_ten_pos, ten};
use crate::double::{
    lemma_bracket, lemma_exact, lemma_mag_form, lemma_mag_order, lemma_mag_step, lemma_nearest,
    lemma_overflow, lemma_rounds_to_unique, mag, make, nan, nearest, of_int, one_unit, quotient,
    rounded, rounds_to, step_exp, zero, Double, INF, P52, P53, UNIT,
};
use crate::parse::tens;

verus! {

/// Below a magnitude there is one that a quotient lies just above.
proof fn lemma_between(num: nat, den: nat, k: int) -> (u: int)
    requires
        den > 0,
        0 <= k,
        num < mag(k) * den,
    ensures
        0 <= u < k,
        mag(u) * den <= num < mag(u + 1) * den,
    decreases k,
{
    assert(mag(0) == 0);
    if k == 0 {
        assert(0 * den == 0);
        0
    } else if mag(k - 1) * den <= num {
        k - 1
    } else {
        lemma_between(num, den, k - 1)
    }
}

/// Every quotient has a nearest magnitude.
pub proof fn lemma_rounding_exists(num: nat, den: nat)
    requires
        den > 0,
    ensures
        rounds_to(num, den, nearest(num, den)),
{
    let top = INF as int;
    if mag(top) * den <= num {
        lemma_overflow(num, den, top);
    } else {
        let u = lemma_between(num, den, top);
        lemma_bracket(num, den, u);
    }
}

/// The nearest magnitude of a larger quotient is not smaller.
pub proof fn lemma_rounding_monotone(a: nat, b: nat, den: nat)
    requires
        den > 0,
        a <= b,
    ensures
        nearest(a, den) <= nearest(b, den),
{
    lemma_rounding_exists(a, den);
    lemma_rounding_exists(b, den);
    let u = nearest(a, den);
    let v = nearest(b, den);
    if u > v {
        lemma_mag_order(v, u - 1);
        lemma_mag_order(v + 1, u);
        let low = mag(u - 1) + mag(u);
        let high = mag(v) + mag(v + 1);
        assert(low >= high);
        assert(low * den >= high * den) by (nonlinear_arith)
            requires
                low >= high,
        ;
        assert(a == b);
        lemma_rounds_to_unique(a, den, u, v);
    }
}

/// A magnitude is its own nearest.
pub proof fn lemma_rounding_exact(u: int)
    requires
        0 <= u <= INF,
    ensures
        nearest(mag(u), 1) == u,
{
    lemma_exact(1, u);
    assert(mag(u) * 1 == mag(u));
    lemma_nearest(mag(u), 1, u);
}

/// What `rounded` gives: never not-a-number, and with the given sign.
pub proof fn lemma_rounded(neg: bool, num: nat, den: nat)
    requires
        den > 0,
    ensures
        !rounded(neg, num, den).is_nan(),
        rounded(neg, num, den).neg() == neg,
        rounded(neg, num, den).index() == nearest(num, den),
        neg ==> rounded(neg, num, den).value() <= 0,
        !neg ==> rounded(neg, num, den).value() >= 0,
{
    lemma_rounding_exists(num, den);
}

/// The sum of two numbers that are not negative is not negative.
pub proof fn sum_keeps_sign(a: Double, b: Double)
    requires
        zero().at_most(a),
        zero().at_most(b),
    ensures
        zero().at_most(a.plus(b)),
{
    lemma_mag_order(0, a.index());
    lemma_mag_order(0, b.index());
    assert(zero().value() == 0);
    let s = a.value() + b.value();
    if a.is_finite() && b.is_finite() && s != 0 {
        lemma_rounded(false, s as nat, 1);
    }
}

/// Adding what is not negative does not make a number smaller, unless infinities of both signs
/// meet.
pub proof fn adding_grows(a: Double, x: Double)
    requires
        !a.is_nan(),
        zero().at_most(x),
        !(a.is_inf() && x.is_inf()),
    ensures
        a.at_most(a.plus(x)),
{
    assert(mag(0) == 0);
    lemma_mag_order(0, a.index());
    lemma_mag_order(0, x.index());
    if a.is_finite() && x.is_finite() {
        let s = a.value() + x.value();
        if s > 0 {
            lemma_rounded(false, s as nat, 1);
            if a.value() > 0 {
                lemma_rounding_exact(a.index());
                lemma_rounding_monotone(mag(a.index()), s as nat, 1);
                lemma_mag_order(a.index(), nearest(s as nat, 1));
            }
        } else if s < 0 {
            lemma_rounded(true, (-s) as nat, 1);
            lemma_rounding_exact(a.index());
            lemma_rounding_monotone((-s) as nat, mag(a.index()), 1);
            lemma_mag_order(a.index(), nearest((-s) as nat, 1));
        }
    } else if x.is_inf() {
        lemma_mag_order(a.index(), INF as int);
    }
}

/// Subtracting what is not negative does not make a number larger, unless infinities meet.
pub proof fn subtracting_shrinks(a: Double, x: Double)
    requires
        !a.is_nan(),
        zero().at_most(x),
        !(a.is_inf() && x.is_inf()),
    ensures
        a.minus(x).at_most(a),
{
    assert(mag(0) == 0);
    lemma_mag_order(0, a.index());
    lemma_mag_order(0, x.index());
    let y = x.negated();
    assert(y.index() == x.index() && y.value() == -x.value() && y.neg() == !x.neg());
    if a.is_finite() && x.is_finite() {
        let s = a.value() + y.value();
        if s < 0 {
            lemma_rounded(true, (-s) as nat, 1);
            if a.value() < 0 {
                lemma_rounding_exact(a.index());
                lemma_rounding_monotone(mag(a.index()), (-s) as nat, 1);
                lemma_mag_order(a.index(), nearest((-s) as nat, 1));
            }
        } else if s > 0 {
            lemma_rounded(false, s as nat, 1);
            lemma_rounding_exact(a.index());
            lemma_rounding_monotone(s as nat, mag(a.index()), 1);
            lemma_mag_order(a.index(), nearest(s as nat, 1));
        }
    } else if x.is_inf() {
        lemma_mag_order(a.index(), INF as int);
    }
}

/// The sign of a product is that of its factors.
pub proof fn product_sign(a: Double, b: Double)
    requires
        !a.times(b).is_nan(),
    ensures
        !a.is_nan() && !b.is_nan(),
        zero().at_most(a) && zero().at_most(b) ==> zero().at_most(a.times(b)),
        a.at_most(zero()) && zero().at_most(b) ==> a.times(b).at_most(zero()),
{
    lemma_pow2_pos(UNIT as nat);
    assert(mag(0) == 0);
    assert(nan().is_nan());
    lemma_mag_order(0, a.index());
    lemma_mag_order(0, b.index());
    lemma_mag_order(0, INF as int);
    if a.is_finite() && b.is_finite() {
        let neg = a.neg() != b.neg();
        let num = mag(a.index()) * mag(b.index());
        lemma_rounded(neg, num, one_unit());
        if a.index() == 0 || b.index() == 0 {
            assert(num == 0) by (nonlinear_arith)
                requires
                    num == mag(a.index()) * mag(b.index()),
                    mag(a.index()) == 0 || mag(b.index()) == 0,
            ;
            lemma_exact(one_unit(), 0);
            assert(mag(0) * one_unit() == 0) by (nonlinear_arith)
                requires
                    mag(0) == 0,
            ;
            lemma_nearest(0, one_unit(), 0);
        }
    }
}

/// The quotient of what is not negative by what is positive is not negative.
pub proof fn quotient_sign(a: Double, b: Double)
    requires
        !a.over(b).is_nan(),
        zero().at_most(a),
        zero().less(b),
    ensures
        zero().at_most(a.over(b)),
{
    assert(mag(0) == 0);
    assert(nan().is_nan());
    lemma_mag_order(0, a.index());
    lemma_mag_order(0, b.index());
    lemma_mag_order(0, INF as int);
    if a.is_finite() && b.is_finite() {
        let neg = a.neg() != b.neg();
        let num = mag(a.index()) * one_unit();
        lemma_rounded(neg, num, mag(b.index()));
        if a.index() == 0 {
            assert(num == 0) by (nonlinear_arith)
                requires
                    num == mag(a.index()) * one_unit(),
                    mag(a.index()) == 0,
            ;
            lemma_exact(mag(b.index()), 0);
            assert(mag(0) * mag(b.index()) == 0) by (nonlinear_arith)
                requires
                    mag(0) == 0,
            ;
            lemma_nearest(0, mag(b.index()), 0);
        }
    }
}

/// The double of an integer that is not negative is not negative.
pub proof fn integers_keep_sign(n: nat)
    ensures
        zero().at_most(of_int(n as int)),
{
    assert(mag(0) == 0);
    lemma_rounded(false, (n * one_unit()) as nat, 1);
}

// ---- order --------------------------------------------------------------------------------------

/// The magnitude of an integer.
pub open spec fn size_of(s: int) -> nat {
    (if s < 0 {
        -s
    } else {
        s
    }) as nat
}

/// Nothing rounds to zero.
pub(crate) proof fn lemma_zero_rounding(den: nat)
    requires
        den > 0,
    ensures
        nearest(0, den) == 0,
        mag(0) == 0,
{
    assert(mag(0) == 0);
    lemma_exact(den, 0);
    assert(mag(0) * den == 0) by (nonlinear_arith)
        requires
            mag(0) == 0,
    ;
    lemma_nearest(0, den, 0);
}

/// Of two rationals the larger one rounds to what is not smaller; zero may have either sign.
proof fn lemma_signed_order(m: bool, s: int, n: bool, t: int, den: nat)
    requires
        den > 0,
        s <= t,
        m ==> s <= 0,
        !m ==> s >= 0,
        n ==> t <= 0,
        !n ==> t >= 0,
    ensures
        rounded(m, size_of(s), den).value() <= rounded(n, size_of(t), den).value(),
{
    lemma_rounded(m, size_of(s), den);
    lemma_rounded(n, size_of(t), den);
    lemma_zero_rounding(den);
    if s >= 0 && t >= 0 {
        lemma_rounding_monotone(size_of(s), size_of(t), den);
        lemma_rounding_exists(size_of(s), den);
        lemma_mag_order(nearest(size_of(s), den), nearest(size_of(t), den));
    } else if s <= 0 && t <= 0 {
        lemma_rounding_monotone(size_of(t), size_of(s), den);
        lemma_rounding_exists(size_of(t), den);
        lemma_mag_order(nearest(size_of(t), den), nearest(size_of(s), den));
    }
}

/// No number lies beyond an infinity.
pub(crate) proof fn lemma_extremes(a: Double)
    requires
        !a.is_nan(),
    ensures
        make(true, INF as int).value() <= a.value() <= make(false, INF as int).value(),
        make(true, INF as int).value() < 0 < make(false, INF as int).value(),
        a.is_finite() ==> make(true, INF as int).value() < a.value() < make(
            false,
            INF as int,
        ).value(),
        a.value() == 0 <==> a.index() == 0,
        a.value() < 0 ==> a.neg(),
        a.value() > 0 ==> !a.neg(),
{
    assert(mag(0) == 0);
    lemma_mag_order(a.index(), INF as int);
    lemma_mag_order(0, INF as int);
    lemma_mag_order(0, a.index());
}

/// Sums are formed in any order.
pub(crate) proof fn lemma_plus_commutes(a: Double, b: Double)
    ensures
        a.plus(b) == b.plus(a),
{
    if !a.is_nan() && !b.is_nan() && a.is_inf() && b.is_inf() && a.neg() == b.neg() {
        assert(a.bits == b.bits);
    }
}

/// Products are formed in any order.
pub(crate) proof fn lemma_times_commutes(a: Double, b: Double)
    ensures
        a.times(b) == b.times(a),
{
    assert(mag(a.index()) * mag(b.index()) == mag(b.index()) * mag(a.index()))
        by (nonlinear_arith);
}

/// What `plus` gives for finite numbers, as a rounded integer.
pub(crate) proof fn lemma_plus_value(a: Double, b: Double)
    requires
        a.is_finite(),
        b.is_finite(),
    ensures
        !a.plus(b).is_nan(),
        a.plus(b).value() == rounded(a.value() + b.value() < 0, size_of(a.value() + b.value()), 1).value(),
{
    let s = a.value() + b.value();
    lemma_zero_rounding(1);
    lemma_rounded(s < 0, size_of(s), 1);
}

/// The larger of two numbers stays so when the same is added.
pub proof fn sums_keep_order(a: Double, b: Double, c: Double)
    requires
        a.at_most(b),
        !a.plus(c).is_nan(),
        !b.plus(c).is_nan(),
    ensures
        a.plus(c).at_most(b.plus(c)),
        c.plus(a).at_most(c.plus(b)),
{
    assert(nan().is_nan());
    lemma_plus_commutes(a, c);
    lemma_plus_commutes(b, c);
    lemma_extremes(a);
    lemma_extremes(b);
    lemma_extremes(a.plus(c));
    lemma_extremes(b.plus(c));
    assert(a.is_inf() ==> a == make(a.neg(), INF as int));
    assert(b.is_inf() ==> b == make(b.neg(), INF as int));
    assert(c.is_inf() ==> c == make(c.neg(), INF as int));
    if a.is_finite() && b.is_finite() && c.is_finite() {
        lemma_plus_value(a, c);
        lemma_plus_value(b, c);
        let s = a.value() + c.value();
        let t = b.value() + c.value();
        lemma_signed_order(s < 0, s, t < 0, t, 1);
    }
}

/// Negation turns the order round.
pub proof fn negation_turns_order(a: Double, b: Double)
    requires
        a.at_most(b),
    ensures
        b.negated().at_most(a.negated()),
{
    lemma_negated(a);
    lemma_negated(b);
}

/// What negation does.
proof fn lemma_negated(a: Double)
    requires
        !a.is_nan(),
    ensures
        !a.negated().is_nan(),
        a.negated().value() == -a.value(),
        a.negated().index() == a.index(),
        a.negated().neg() == !a.neg(),
{
}

/// The larger of two numbers leaves more when the same is subtracted, and less when it is
/// subtracted from the same.
pub proof fn differences_keep_order(a: Double, b: Double, c: Double)
    requires
        a.at_most(b),
    ensures
        !a.minus(c).is_nan() && !b.minus(c).is_nan() ==> a.minus(c).at_most(b.minus(c)),
        !c.minus(a).is_nan() && !c.minus(b).is_nan() ==> c.minus(b).at_most(c.minus(a)),
{
    if !a.minus(c).is_nan() && !b.minus(c).is_nan() {
        sums_keep_order(a, b, c.negated());
    }
    if !c.minus(a).is_nan() && !c.minus(b).is_nan() {
        negation_turns_order(a, b);
        lemma_plus_commutes(c, a.negated());
        lemma_plus_commutes(c, b.negated());
        sums_keep_order(b.negated(), a.negated(), c);
    }
}

/// A product of finite numbers as a rounded rational.
proof fn lemma_times_value(a: Double, c: Double)
    requires
        a.is_finite(),
        c.is_finite(),
    ensures
        !a.times(c).is_nan(),
        a.times(c) == rounded(a.neg() != c.neg(), size_of(a.value() * c.value()), one_unit()),
        (a.neg() != c.neg()) ==> a.value() * c.value() <= 0,
        (a.neg() == c.neg()) ==> a.value() * c.value() >= 0,
{
    lemma_pow2_pos(UNIT as nat);
    let x = a.value();
    let y = c.value();
    let p = mag(a.index()) as int;
    let q = mag(c.index()) as int;
    assert(p * q >= 0) by (nonlinear_arith)
        requires
            p >= 0,
            q >= 0,
    ;
    assert((-p) * q == -(p * q)) by (nonlinear_arith);
    assert(p * (-q) == -(p * q)) by (nonlinear_arith);
    assert((-p) * (-q) == p * q) by (nonlinear_arith);
    lemma_rounded(a.neg() != c.neg(), size_of(x * y), one_unit());
}

/// The larger of two numbers stays so when both are multiplied by what is not negative.
pub proof fn products_keep_order(a: Double, b: Double, c: Double)
    requires
        a.at_most(b),
        zero().at_most(c),
        !a.times(c).is_nan(),
        !b.times(c).is_nan(),
    ensures
        a.times(c).at_most(b.times(c)),
        c.times(a).at_most(c.times(b)),
{
    lemma_pow2_pos(UNIT as nat);
    assert(nan().is_nan());
    assert(mag(0) == 0);
    lemma_times_commutes(a, c);
    lemma_times_commutes(b, c);
    lemma_extremes(a);
    lemma_extremes(b);
    lemma_extremes(c);
    lemma_extremes(a.times(c));
    lemma_extremes(b.times(c));
    if a.is_finite() && b.is_finite() && c.is_finite() {
        lemma_times_value(a, c);
        lemma_times_value(b, c);
        assert(a.value() * c.value() <= b.value() * c.value()) by (nonlinear_arith)
            requires
                a.value() <= b.value(),
                c.value() >= 0,
        ;
        lemma_signed_order(
            a.neg() != c.neg(),
            a.value() * c.value(),
            b.neg() != c.neg(),
            b.value() * c.value(),
            one_unit(),
        );
    }
}

/// The larger of two numbers stays so when both are divided by what is positive.
pub proof fn quotients_keep_order(a: Double, b: Double, c: Double)
    requires
        a.at_most(b),
        zero().less(c),
        !a.over(c).is_nan(),
        !b.over(c).is_nan(),
    ensures
        a.over(c).at_most(b.over(c)),
{
    lemma_pow2_pos(UNIT as nat);
    assert(nan().is_nan());
    assert(mag(0) == 0);
    lemma_extremes(a);
    lemma_extremes(b);
    lemma_extremes(c);
    lemma_extremes(a.over(c));
    lemma_extremes(b.over(c));
    let u = one_unit() as int;
    if a.is_finite() && b.is_finite() && c.is_finite() {
        let p = mag(a.index()) as int;
        let q = mag(b.index()) as int;
        assert(p * u >= 0 && q * u >= 0) by (nonlinear_arith)
            requires
                p >= 0,
                q >= 0,
                u > 0,
        ;
        assert((-p) * u == -(p * u)) by (nonlinear_arith);
        assert((-q) * u == -(q * u)) by (nonlinear_arith);
        assert(a.value() * u <= b.value() * u) by (nonlinear_arith)
            requires
                a.value() <= b.value(),
                u > 0,
        ;
        lemma_signed_order(a.neg(), a.value() * u, b.neg(), b.value() * u, mag(c.index()));
    }
}

/// A fraction may be extended.
pub(crate) proof fn lemma_extended(num: nat, den: nat, k: nat)
    requires
        den > 0,
        k > 0,
    ensures
        nearest(num * k, den * k) == nearest(num, den),
{
    lemma_rounding_exists(num, den);
    let u = nearest(num, den);
    if u > 0 {
        let low = mag(u - 1) + mag(u);
        assert((2 * num > low * den ==> 2 * (num * k) > low * (den * k)) && (2 * num == low * den
            ==> 2 * (num * k) == low * (den * k))) by (nonlinear_arith)
            requires
                k > 0,
        ;
    }
    if u < INF {
        let high = mag(u) + mag(u + 1);
        assert((2 * num < high * den ==> 2 * (num * k) < high * (den * k)) && (2 * num == high
            * den ==> 2 * (num * k) == high * (den * k))) by (nonlinear_arith)
            requires
                k > 0,
        ;
    }
    assert(den * k > 0) by (nonlinear_arith)
        requires
            den > 0,
            k > 0,
    ;
    lemma_nearest(num * k, den * k, u);
}

/// What is not negative does not grow when it is divided by more.
pub proof fn larger_divisors_leave_less(a: Double, c: Double, d: Double)
    requires
        zero().at_most(a),
        zero().less(c),
        c.at_most(d),
        !a.over(c).is_nan(),
        !a.over(d).is_nan(),
    ensures
        a.over(d).at_most(a.over(c)),
{
    let u = one_unit();
    let m = mag(a.index());
    let p = mag(c.index());
    let q = mag(d.index());
    lemma_pow2_pos(UNIT as nat);
    assert(nan().is_nan());
    assert(mag(0) == 0);
    lemma_extremes(a);
    lemma_extremes(c);
    lemma_extremes(d);
    lemma_extremes(a.over(c));
    lemma_extremes(a.over(d));
    quotient_sign(a, c);
    quotient_sign(a, d);
    if a.is_finite() && c.is_finite() && d.is_finite() {
        lemma_extended(m * u, p, q);
        lemma_extended(m * u, q, p);
        assert((m * u) * p <= (m * u) * q) by (nonlinear_arith)
            requires
                p <= q,
        ;
        assert(p * q == q * p && p * q > 0) by (nonlinear_arith)
            requires
                p > 0,
                q > 0,
        ;
        lemma_rounding_monotone((m * u) * p, (m * u) * q, p * q);
        lemma_rounded(a.neg() != c.neg(), m * u, p);
        lemma_rounded(a.neg() != d.neg(), m * u, q);
        lemma_mag_order(nearest(m * u, q), nearest(m * u, p));
        if a.neg() {
            assert(m * u == 0) by (nonlinear_arith)
                requires
                    m == 0,
            ;
            lemma_zero_rounding(p);
            lemma_zero_rounding(q);
        }
    }
}

/// What a rounded integer is, with the integer as a number.
proof fn lemma_with_whole(a: Double, n: nat)
    ensures
        !a.with_whole(n).is_nan(),
        a.with_whole(n).neg() == a.neg(),
        a.with_whole(n) == rounded(a.neg(), n * one_unit(), 1),
{
    lemma_rounded(a.neg(), (n * one_unit()) as nat, 1);
}

proof fn lemma_wholes_order(m: bool, i: nat, n: bool, j: nat)
    requires
        (if m {
            -(i as int)
        } else {
            i as int
        }) <= (if n {
            -(j as int)
        } else {
            j as int
        }),
    ensures
        rounded(m, i * one_unit(), 1).value() <= rounded(n, j * one_unit(), 1).value(),
{
    let u = one_unit() as int;
    let s = if m {
        -(i as int)
    } else {
        i as int
    };
    let t = if n {
        -(j as int)
    } else {
        j as int
    };
    assert(i * u >= 0 && j * u >= 0) by (nonlinear_arith)
        requires
            i >= 0,
            j >= 0,
            u >= 0,
    ;
    assert((-(i as int)) * u == -(i * u)) by (nonlinear_arith);
    assert((-(j as int)) * u == -(j * u)) by (nonlinear_arith);
    assert(s * u <= t * u) by (nonlinear_arith)
        requires
            s <= t,
            u >= 0,
    ;
    lemma_signed_order(m, s * u, n, t * u, 1);
}

/// Rounding a quotient up is rounding its negative down.
proof fn lemma_ceiling(m: nat, u: nat)
    requires
        u > 0,
    ensures
        (m + u - 1) / u as int == -((-(m as int)) / u as int),
{
    let q = (-(m as int)) / u as int;
    let r = (-(m as int)) % u as int;
    lemma_fundamental_div_mod(-(m as int), u as int);
    lemma_mod_bound(-(m as int), u as int);
    assert(m + u - 1 == (-q) * u + (u - 1 - r)) by (nonlinear_arith)
        requires
            -(m as int) == u * q + r,
    ;
    lemma_fundamental_div_mod_converse(
        m + u - 1,
        u as int,
        -q,
        u - 1 - r,
    );
}

/// The integer at or below a finite number.
pub open spec fn floor_of(a: Double) -> int {
    a.value() / one_unit() as int
}

/// The integer at or above a finite number.
pub open spec fn ceiling_of(a: Double) -> int {
    -((-a.value()) / one_unit() as int)
}

/// The signs and integers of the roundings of a finite number.
pub(crate) proof fn lemma_integers(a: Double)
    requires
        a.is_finite(),
    ensures
        a.floored() == rounded(a.neg(), size_of(floor_of(a)) * one_unit(), 1),
        a.ceiled() == rounded(a.neg(), size_of(ceiling_of(a)) * one_unit(), 1),
        a.neg() ==> floor_of(a) <= ceiling_of(a) <= 0,
        !a.neg() ==> 0 <= floor_of(a) <= ceiling_of(a),
        floor_of(a) * one_unit() <= a.value() <= ceiling_of(a) * one_unit(),
        a.value() < (floor_of(a) + 1) * one_unit(),
        (ceiling_of(a) - 1) * one_unit() < a.value(),
{
    lemma_pow2_pos(UNIT as nat);
    let u = one_unit() as int;
    let m = mag(a.index());
    let x = a.value();
    lemma_ceiling(m, one_unit());
    lemma_fundamental_div_mod(x, u);
    lemma_mod_bound(x, u);
    lemma_fundamental_div_mod(-x, u);
    lemma_mod_bound(-x, u);
    let f = floor_of(a);
    let c = ceiling_of(a);
    assert(f * u <= x && x < (f + 1) * u) by (nonlinear_arith)
        requires
            x == u * f + x % u,
            0 <= x % u < u,
    ;
    assert(x <= c * u && (c - 1) * u < x) by (nonlinear_arith)
        requires
            -x == u * (-c) + (-x) % u,
            0 <= (-x) % u < u,
    ;
    assert(f <= c) by (nonlinear_arith)
        requires
            f * u <= c * u,
            u > 0,
    ;
    lemma_div_pos_is_pos(m as int, u);
    lemma_div_pos_is_pos(m + u - 1, u);
}

/// Rounding down keeps the order of numbers.
pub proof fn floors_keep_order(a: Double, b: Double)
    requires
        a.at_most(b),
    ensures
        a.floored().at_most(b.floored()),
{
    lemma_pow2_pos(UNIT as nat);
    lemma_extremes(a);
    lemma_extremes(b);
    if a.is_finite() {
        lemma_integers(a);
        lemma_rounded(a.neg(), size_of(floor_of(a)) * one_unit(), 1);
        lemma_extremes(a.floored());
    }
    if b.is_finite() {
        lemma_integers(b);
        lemma_rounded(b.neg(), size_of(floor_of(b)) * one_unit(), 1);
        lemma_extremes(b.floored());
    }
    assert(a.is_inf() ==> a == make(a.neg(), INF as int));
    assert(b.is_inf() ==> b == make(b.neg(), INF as int));
    if a.is_finite() && b.is_finite() {
        lemma_div_is_ordered(a.value(), b.value(), one_unit() as int);
        lemma_wholes_order(a.neg(), size_of(floor_of(a)), b.neg(), size_of(floor_of(b)));
    }
}

/// Rounding up keeps the order of numbers.
pub proof fn ceilings_keep_order(a: Double, b: Double)
    requires
        a.at_most(b),
    ensures
        a.ceiled().at_most(b.ceiled()),
{
    lemma_pow2_pos(UNIT as nat);
    lemma_extremes(a);
    lemma_extremes(b);
    if a.is_finite() {
        lemma_integers(a);
        lemma_rounded(a.neg(), size_of(ceiling_of(a)) * one_unit(), 1);
        lemma_extremes(a.ceiled());
    }
    if b.is_finite() {
        lemma_integers(b);
        lemma_rounded(b.neg(), size_of(ceiling_of(b)) * one_unit(), 1);
        lemma_extremes(b.ceiled());
    }
    assert(a.is_inf() ==> a == make(a.neg(), INF as int));
    assert(b.is_inf() ==> b == make(b.neg(), INF as int));
    if a.is_finite() && b.is_finite() {
        lemma_div_is_ordered(-b.value(), -a.value(), one_unit() as int);
        lemma_wholes_order(a.neg(), size_of(ceiling_of(a)), b.neg(), size_of(ceiling_of(b)));
    }
}

/// Rounding down does not raise a number, and rounding up does not lower it.
pub proof fn roundings_bracket(a: Double)
    requires
        !a.is_nan(),
    ensures
        a.floored().at_most(a),
        a.at_most(a.ceiled()),
{
    if a.is_finite() {
        let u = one_unit() as int;
        lemma_integers(a);
        let f = floor_of(a);
        let c = ceiling_of(a);
        lemma_rounding_exact(a.index());
        lemma_rounded(a.neg(), mag(a.index()), 1);
        assert(rounded(a.neg(), mag(a.index()), 1) == a);
        lemma_rounded(a.neg(), size_of(f) * one_unit(), 1);
        lemma_rounded(a.neg(), size_of(c) * one_unit(), 1);
        assert((-f) * u == -(f * u)) by (nonlinear_arith);
        assert((-c) * u == -(c * u)) by (nonlinear_arith);
        assert(size_of(a.value()) == mag(a.index()));
        assert(size_of(f * u) == size_of(f) * u) by {
            assert(f >= 0 ==> f * u >= 0) by (nonlinear_arith)
                requires
                    u >= 0,
            ;
            assert(f < 0 ==> f * u <= 0) by (nonlinear_arith)
                requires
                    u >= 0,
            ;
        }
        assert(size_of(c * u) == size_of(c) * u) by {
            assert(c >= 0 ==> c * u >= 0) by (nonlinear_arith)
                requires
                    u >= 0,
            ;
            assert(c < 0 ==> c * u <= 0) by (nonlinear_arith)
                requires
                    u >= 0,
            ;
        }
        assert(a.neg() ==> f * u <= 0 && c * u <= 0) by (nonlinear_arith)
            requires
                a.neg() ==> f <= 0 && c <= 0,
                u >= 0,
        ;
        assert(!a.neg() ==> f * u >= 0 && c * u >= 0) by (nonlinear_arith)
            requires
                !a.neg() ==> f >= 0 && c >= 0,
                u >= 0,
        ;
        lemma_signed_order(a.neg(), f * u, a.neg(), a.value(), 1);
        lemma_signed_order(a.neg(), a.value(), a.neg(), c * u, 1);
    }
}

/// Rounding to the nearest integer keeps the order of numbers.
pub proof fn nearest_integers_keep_order(a: Double, b: Double)
    requires
        a.at_most(b),
    ensures
        a.nearest_whole().at_most(b.nearest_whole()),
{
    lemma_pow2_pos(UNIT as nat);
    assert(mag(0) == 0);
    let u = one_unit();
    let m = mag(a.index());
    let n = mag(b.index());
    let i = (2 * m + u) / (2 * u);
    let j = (2 * n + u) / (2 * u);
    lemma_extremes(a);
    lemma_extremes(b);
    if a.is_finite() {
        lemma_with_whole(a, i);
        lemma_extremes(a.nearest_whole());
    }
    if b.is_finite() {
        lemma_with_whole(b, j);
        lemma_extremes(b.nearest_whole());
    }
    assert(a.is_inf() ==> a == make(a.neg(), INF as int));
    assert(b.is_inf() ==> b == make(b.neg(), INF as int));
    if a.is_finite() && b.is_finite() {
        if m <= n {
            lemma_div_is_ordered(
                (2 * m + u) as int,
                (2 * n + u) as int,
                (2 * u) as int,
            );
        }
        if n <= m {
            lemma_div_is_ordered(
                (2 * n + u) as int,
                (2 * m + u) as int,
                (2 * u) as int,
            );
        }
        if !a.neg() && b.neg() {
            assert(m == 0 && n == 0);
            lemma_basic_div(u as int, (2 * u) as int);
        }
        lemma_wholes_order(a.neg(), i, b.neg(), j);
    }
}

/// A result that is a number comes from numbers.
pub proof fn numbers_come_from_numbers(a: Double, b: Double)
    ensures
        !a.plus(b).is_nan() ==> !a.is_nan() && !b.is_nan(),
        !a.minus(b).is_nan() ==> !a.is_nan() && !b.is_nan(),
        !a.times(b).is_nan() ==> !a.is_nan() && !b.is_nan(),
        !a.over(b).is_nan() ==> !a.is_nan() && !b.is_nan(),
        !a.floored().is_nan() ==> !a.is_nan(),
        !a.ceiled().is_nan() ==> !a.is_nan(),
        !a.nearest_whole().is_nan() ==> !a.is_nan(),
{
    assert(nan().is_nan());
    assert(b.negated().index() == b.index());
}

/// The double of the larger of two integers is not smaller.
pub proof fn integers_keep_order(m: int, n: int)
    requires
        m <= n,
    ensures
        of_int(m).at_most(of_int(n)),
{
    let u = one_unit() as int;
    lemma_rounded(m < 0, ((if m < 0 { -m } else { m }) * u) as nat, 1);
    lemma_rounded(n < 0, ((if n < 0 { -n } else { n }) * u) as nat, 1);
    lemma_wholes_order(m < 0, size_of(m), n < 0, size_of(n));
}

/// The product of finite numbers is a number.
pub proof fn product_is_number(a: Double, b: Double)
    requires
        a.is_finite(),
        b.is_finite(),
    ensures
        !a.times(b).is_nan(),
{
    lemma_times_value(a, b);
}

/// A small integer is finite as a double.
pub proof fn small_integers_are_finite(n: nat)
    requires
        n <= 0x1_0000_0000,
    ensures
        of_int(n as int).is_finite(),
{
    let u = one_unit();
    let p = P52;
    // the index of 2^32, which is far from that of infinity
    let k = 1055 * p as int;
    lemma_rounded(false, (n * u) as nat, 1);
    lemma_mag_form(1054, p as int);
    assert(1054 * p + p == k);
    lemma_pow2_adds(32, 1074);
    lemma_pow2_adds(52, 1054);
    lemma2_to64();
    lemma2_to64_rest();
    assert(mag(k) == 0x1_0000_0000 * u);
    assert(n * u <= 0x1_0000_0000 * u) by (nonlinear_arith)
        requires
            n <= 0x1_0000_0000,
            u >= 0,
    ;
    lemma_rounding_exact(k);
    lemma_rounding_monotone(n * u, mag(k), 1);
}

/// The double of a positive integer is positive.
pub proof fn positive_integers(n: nat)
    requires
        n > 0,
    ensures
        zero().less(of_int(n as int)),
{
    lemma_pow2_pos(UNIT as nat);
    let u = one_unit();
    assert(mag(0) == 0);
    assert(mag(1) == 1);
    lemma_rounded(false, (n * u) as nat, 1);
    assert(n * u >= 1) by (nonlinear_arith)
        requires
            n >= 1,
            u >= 1,
    ;
    lemma_rounding_exact(1);
    lemma_rounding_monotone(1, n * u, 1);
    lemma_mag_order(0, nearest(n * u, 1));
}

/// A magnitude above the smallest exceeds the rational that it is nearest to by a third at
/// most.
proof fn lemma_rounding_excess(num: nat, den: nat)
    requires
        den > 0,
        nearest(num, den) >= 2,
    ensures
        3 * (mag(nearest(num, den)) * den) <= 4 * num,
{
    lemma_rounding_exists(num, den);
    let u = nearest(num, den);
    let p = P52 as int;
    let e = step_exp(u - 1);
    let q = u - 1 - e * p;
    lemma_mag_step(u - 1);
    lemma_pow2_pos(e);
    assert(q >= 1) by {
        if e == 0 {
            assert(e * p == 0) by (nonlinear_arith)
                requires
                    e == 0,
            ;
        }
    }
    assert(mag(u) <= 2 * mag(u - 1)) by (nonlinear_arith)
        requires
            mag(u) == (q + 1) * pow2(e),
            mag(u - 1) == q * pow2(e),
            q >= 1,
            pow2(e) > 0,
    ;
    let a = mag(u - 1);
    let b = mag(u);
    assert(3 * (b * den) <= 4 * num) by (nonlinear_arith)
        requires
            2 * num >= (a + b) * den,
            b <= 2 * a,
            den > 0,
    ;
}

/// One half is exact.
pub(crate) proof fn lemma_half()
    ensures
        2 * mag(quotient(5, 10).index()) == one_unit(),
        !quotient(5, 10).neg(),
        quotient(5, 10).is_finite(),
{
    let p = P52 as int;
    let u = one_unit();
    let k = 1022 * p;
    lemma_rounded(false, 5 * u, 10);
    lemma_mag_form(1021, p);
    assert(1021 * p + p == k);
    lemma_pow2_adds(52, 1021);
    lemma_pow2_unfold(1074);
    lemma2_to64();
    lemma2_to64_rest();
    assert(2 * mag(k) == u);
    lemma_exact(10, k);
    assert(mag(k) * 10 == 5 * u);
    lemma_nearest(5 * u, 10, k);
}

/// A share of at most a half, rounded, is at most three quarters.
proof fn lemma_share(s: nat, k: nat)
    requires
        2 * k <= one_unit(),
    ensures
        4 * mag(nearest(s * k, one_unit())) <= 3 * s,
{
    lemma_pow2_pos(UNIT as nat);
    let u = one_unit();
    let i = nearest(s * k, u);
    let v = mag(i);
    lemma_rounding_exists(s * k, u);
    assert(mag(0) == 0 && mag(1) == 1);
    assert(2 * (s * k) <= s * u) by (nonlinear_arith)
        requires
            2 * k <= u,
    ;
    if i >= 2 {
        lemma_rounding_excess(s * k, u);
        assert(3 * v <= 2 * s) by (nonlinear_arith)
            requires
                3 * (v * u) <= 4 * (s * k),
                2 * (s * k) <= s * u,
                u > 0,
        ;
    } else if i == 1 {
        assert((mag(0) + mag(1)) * u == u) by (nonlinear_arith)
            requires
                mag(0) == 0,
                mag(1) == 1,
        ;
        assert(s > 1) by (nonlinear_arith)
            requires
                s * u > u,
                u > 0,
        ;
    }
}

/// Half of what is not negative, scaled up, cut to an integer and scaled down again, is not
/// more than the whole, however the steps are rounded.
pub proof fn cutting_a_half_shrinks(size: Double, scale: Double, factor: Double)
    requires
        zero().at_most(size),
        zero().at_most(scale),
        scale.at_most(quotient(5, 10)),
        zero().at_most(factor),
        size.times(factor).is_finite(),
        !size.times(scale).times(factor).floored().over(factor).is_nan(),
    ensures
        size.times(scale).times(factor).floored().over(factor).at_most(size),
{
    let u = one_unit();
    let v = size.times(scale);
    let x = v.times(factor);
    let w = x.floored();
    let r = w.over(factor);
    let sm = mag(size.index());
    let fm = mag(factor.index());
    let vm = mag(v.index());
    let xm = mag(x.index());
    let wm = mag(w.index());
    assert(nan().is_nan());
    assert(mag(0) == 0 && mag(1) == 1);
    lemma_pow2_pos(UNIT as nat);
    lemma_pow2_unfold(UNIT as nat);
    lemma_pow2_pos((UNIT - 1) as nat);
    lemma_half();
    lemma_extremes(size);
    lemma_extremes(scale);
    lemma_extremes(factor);
    lemma_extremes(quotient(5, 10));
    lemma_times_value(size, factor);
    lemma_times_value(size, scale);
    lemma_rounded(size.neg() != scale.neg(), sm * mag(scale.index()), u);
    lemma_share(sm, mag(scale.index()));
    assert(4 * vm <= 3 * sm);
    // no step overflows
    lemma_rounded(size.neg() != factor.neg(), sm * fm, u);
    lemma_mag_order(v.index(), size.index());
    assert(vm * fm <= sm * fm) by (nonlinear_arith)
        requires
            vm <= sm,
    ;
    lemma_rounding_monotone(vm * fm, sm * fm, u);
    lemma_times_value(v, factor);
    lemma_rounded(v.neg() != factor.neg(), vm * fm, u);
    lemma_integers(x);
    lemma_rounded(x.neg(), size_of(floor_of(x)) * u, 1);
    roundings_bracket(x);
    lemma_extremes(v);
    lemma_extremes(x);
    lemma_extremes(w);
    lemma_zero_rounding(u);
    lemma_zero_rounding(1);
    if x.index() > 1 {
        lemma_rounding_excess(vm * fm, u);
        assert(wm <= xm);
        assert(wm * u <= sm * fm) by (nonlinear_arith)
            requires
                3 * (xm * u) <= 4 * (vm * fm),
                4 * vm <= 3 * sm,
                wm <= xm,
                u > 0,
                fm >= 0,
        ;
    } else {
        lemma_basic_div(xm as int, u as int);
        assert(0 * u == 0);
        assert(wm == 0);
        assert(wm * u <= sm * fm) by (nonlinear_arith)
            requires
                wm == 0,
                sm >= 0,
                fm >= 0,
        ;
    }
    lemma_exact(fm, size.index());
    lemma_nearest(sm * fm, fm, size.index());
    lemma_rounding_monotone(wm * u, sm * fm, fm);
    lemma_rounded(w.neg() != factor.neg(), wm * u, fm);
    lemma_mag_order(r.index(), size.index());
}

/// A power of ten is not negative.
pub(crate) proof fn lemma_tens(places: u32)
    ensures
        zero().at_most(tens(places)),
{
    let x = if places < 0x8000_0000 {
        places as int
    } else {
        places - 0x1_0000_0000
    };
    assert(mag(0) == 0);
    if x >= 0 {
        lemma_rounded(false, 1 * ten(x as nat) * one_unit(), 1);
    } else {
        lemma_ten_pos((-x) as nat);
        lemma_rounded(false, 1 * one_unit(), ten((-x) as nat));
    }
}

/// A product with zero is zero.
pub(crate) proof fn lemma_zero_product(a: Double, b: Double)
    requires
        b.index() == 0,
        !a.times(b).is_nan(),
    ensures
        a.times(b).index() == 0,
{
    lemma_pow2_pos(UNIT as nat);
    assert(nan().is_nan());
    assert(mag(0) == 0);
    lemma_zero_rounding(one_unit());
    assert(mag(a.index()) * mag(b.index()) == 0) by (nonlinear_arith)
        requires
            mag(b.index()) == 0,
    ;
}

/// The nearest integer of zero is zero.
pub(crate) proof fn lemma_zero_integer(a: Double)
    requires
        a.index() == 0,
    ensures
        a.nearest_whole().index() == 0,
{
    lemma_pow2_pos(UNIT as nat);
    assert(mag(0) == 0);
    lemma_zero_rounding(1);
    lemma_basic_div(one_unit() as int, (2 * one_unit()) as int);
    assert(0 * one_unit() == 0);
}

/// Zero over a positive number is zero.
pub(crate) proof fn lemma_zero_quotient(a: Double, b: Double)
    requires
        a.index() == 0,
        zero().less(b),
    ensures
        a.over(b).index() == 0,
{
    assert(mag(0) == 0);
    lemma_mag_order(0, b.index());
    if b.is_finite() {
        lemma_zero_rounding(mag(b.index()));
        assert(mag(a.index()) * one_unit() == 0) by (nonlinear_arith)
            requires
                mag(a.index()) == 0,
        ;
    }
}

/// A quotient of positive integers that is not tiny is positive as a double.
pub proof fn positive_quotient(p: nat, q: nat)
    requires
        0 < p,
        0 < q <= 0xffff_ffff_ffff_ffff,
    ensures
        zero().less(quotient(p, q)),
{
    let u = one_unit();
    assert(mag(0) == 0);
    assert(mag(1) == 1);
    lemma_pow2_pos(UNIT as nat);
    lemma_pow2_adds(64, 1010);
    lemma_pow2_pos(1010);
    lemma2_to64();
    assert(u >= q) by (nonlinear_arith)
        requires
            u == 0x1_0000_0000_0000_0000 * pow2(1010),
            pow2(1010) >= 1,
            q <= 0xffff_ffff_ffff_ffff,
    ;
    assert(p * u >= q) by (nonlinear_arith)
        requires
            p >= 1,
            u >= q,
            q > 0,
    ;
    lemma_rounded(false, p * u, q);
    lemma_exact(q, 1);
    assert(mag(1) * q == q) by (nonlinear_arith)
        requires
            mag(1) == 1,
    ;
    lemma_nearest(q, q, 1);
    lemma_rounding_monotone(q, p * u, q);
    lemma_mag_order(0, nearest(p * u, q));
}

// ---- relative errors -----------------------------------------------------------------------------

/// What is not too large rounds to a finite magnitude.
pub(crate) proof fn lemma_no_overflow(num: nat, den: nat)
    requires
        den > 0,
        num <= pow2(2000) * den,
    ensures
        nearest(num, den) < INF,
{
    let k = 1949 * P52 as int;
    lemma_mag_form(1948, P52 as int);
    assert(1948 * P52 + P52 == k);
    lemma_pow2_adds(52, 1948);
    lemma2_to64();
    lemma2_to64_rest();
    lemma_exact(den, k);
    lemma_nearest(mag(k) * den, den, k);
    lemma_rounding_monotone(num, mag(k) * den, den);
}

/// A rational differs from its nearest magnitude by at most one part in 2^53, where that is
/// finite and normal.
pub(crate) proof fn lemma_normal_error(num: nat, den: nat)
    requires
        den > 0,
        P52 <= nearest(num, den) < INF,
    ensures
        ({
            let m = mag(nearest(num, den)) * den;
            &&& (P53 - 1) * m <= P53 * num
            &&& P53 * num <= (P53 + 1) * m
        }),
{
    let i = nearest(num, den);
    lemma_rounding_exists(num, den);
    // the distances to the neighbours
    let e = step_exp(i);
    let q = i - e * P52;
    let w = pow2(e);
    lemma_mag_step(i);
    lemma_mag_step(i - 1);
    lemma_pow2_pos(e);
    assert(q >= P52) by {
        if e == 0 {
            assert(e * P52 == 0) by (nonlinear_arith)
                requires
                    e == 0,
            ;
        }
    }
    let m = mag(i);
    assert(P52 * w <= m) by (nonlinear_arith)
        requires
            m == q * w,
            q >= P52,
            w > 0,
    ;
    let low = mag(i - 1);
    let high = mag(i + 1);
    assert(step_exp(i - 1) <= e) by {
        lemma_div_is_ordered(i - 1, i, P52 as int);
    }
    if step_exp(i - 1) < e {
        lemma_pow2_strictly_increases(step_exp(i - 1), e);
    }
    assert(m - low <= w && high - m == w);
    assert(P53 * num <= (P53 + 1) * (m * den)) by (nonlinear_arith)
        requires
            2 * num <= (m + high) * den,
            high == m + w,
            P52 * w <= m,
            den > 0,
            P53 == 2 * P52,
    ;
    assert((P53 - 1) * (m * den) <= P53 * num) by (nonlinear_arith)
        requires
            2 * num >= (low + m) * den,
            m - low <= w,
            P52 * w <= m,
            den > 0,
            P53 == 2 * P52,
    ;
}

/// A rational of normal size differs from its nearest magnitude by at most one part in 2^53.
pub(crate) proof fn lemma_relative(num: nat, den: nat)
    requires
        den > 0,
        P52 * den <= num,
        num <= pow2(2000) * den,
    ensures
        ({
            let m = mag(nearest(num, den)) * den;
            &&& (P53 - 1) * m <= P53 * num
            &&& P53 * num <= (P53 + 1) * m
            &&& nearest(num, den) < INF
            &&& nearest(num, den) >= P52
        }),
{
    lemma_no_overflow(num, den);
    lemma_mag_form(0, P52 as int);
    lemma2_to64();
    assert(mag(P52 as int) == P52);
    lemma_exact(den, P52 as int);
    lemma_nearest(P52 as nat * den, den, P52 as int);
    lemma_rounding_monotone(P52 as nat * den, num, den);
    lemma_normal_error(num, den);
}

/// A sum that is not too large differs from its nearest magnitude by at most one part in 2^53.
pub(crate) proof fn lemma_sum_error(num: nat)
    requires
        num <= pow2(2000),
    ensures
        ({
            let m = mag(nearest(num, 1));
            &&& (P53 - 1) * m <= P53 * num
            &&& P53 * num <= (P53 + 1) * m
            &&& nearest(num, 1) < INF
        }),
{
    if num >= P52 {
        lemma_relative(num, 1);
    } else {
        assert(mag(num as int) == num);
        lemma_rounding_exact(num as int);
    }
}

/// A significand times a power of two is a magnitude.
proof fn lemma_significand(n: nat, e: nat, k: nat) -> (i: int)
    requires
        1 <= n <= P53,
        n * pow2(k) >= P52,
        k <= e <= 1100,
    ensures
        0 <= i < INF,
        mag(i) == n * pow2(e),
    decreases k,
{
    if n >= P52 {
        lemma_mag_form(e, n as int);
        e * P52 + n
    } else {
        if k == 0 {
            lemma2_to64();
        }
        lemma_pow2_unfold(k);
        lemma_pow2_unfold(e);
        assert((2 * n) * pow2((k - 1) as nat) == n * pow2(k)) by (nonlinear_arith)
            requires
                pow2(k) == 2 * pow2((k - 1) as nat),
        ;
        assert((2 * n) * pow2((e - 1) as nat) == n * pow2(e)) by (nonlinear_arith)
            requires
                pow2(e) == 2 * pow2((e - 1) as nat),
        ;
        lemma_significand(2 * n, (e - 1) as nat, (k - 1) as nat)
    }
}

/// An integer of at most 53 bits is exact as a double.
pub proof fn integers_are_exact(n: nat)
    requires
        n <= P53,
    ensures
        of_int(n as int).value() == n * one_unit(),
        of_int(n as int).is_finite(),
        !of_int(n as int).neg(),
        mag(of_int(n as int).index()) == n * one_unit(),
{
    lemma_rounded(false, (n * one_unit()) as nat, 1);
    lemma_pow2_pos(UNIT as nat);
    if n == 0 {
        lemma_zero_rounding(1);
        assert(0 * one_unit() == 0);
    } else {
        lemma2_to64();
        lemma2_to64_rest();
        assert(n * pow2(52) >= P52) by (nonlinear_arith)
            requires
                n >= 1,
                pow2(52) == P52,
        ;
        let i = lemma_significand(n, UNIT as nat, 52);
        lemma_rounding_exact(i);
    }
}

} // verus!
