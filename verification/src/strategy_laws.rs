//! What holds of what the quotes are made of: variance, horizon, units of risk, center and half
//! spread, and the sizes of the levels.
use vstd::arithmetic::power2::lemma_pow2_pos;
use vstd::prelude::*;

use crate::bounds::{lemma_difference, lemma_value, roots_keep_order};
use crate::config::{decimals, Config};
use crate::double::{
    lemma_mag_order, mag, make, nan, nearest, of_int, one_unit, quotient, rounded, zero, Double, INF, P53, UNIT,
};
use crate::grid_laws::lemma_rounded_to_order;
use crate::market_laws::{least_variance, lemma_over_one};
use crate::matching_laws::positive;
use crate::order::{
    adding_grows, differences_keep_order, integers_are_exact, larger_divisors_leave_less,
    lemma_plus_commutes, lemma_rounded, lemma_times_commutes, lemma_zero_product,
    numbers_come_from_numbers, positive_integers, product_is_number, product_sign,
    products_keep_order, quotient_sign, quotients_keep_order, size_of, sums_keep_order,
};
use crate::parse::tens;
use crate::risk::floored_to;
use crate::size_laws::{floors_of_bounds_keep_order, over_itself, times_one};
use crate::strategy::{
    change_sums, grid_center, grid_delta, grid_ticks, has_price, horizon, mean_rt_pnl, model_quotes,
    price_variance, quote_variance, quotes, return_sums, risk_units, rounded_to, running_sum,
    spread_of, volatility_of, Grid,
};
use crate::ticks::lemma_room;
use crate::types::{Bbo, MmModel, VolRegime};

verus! {

// ---- variance ----------------------------------------------------------------------------------------------

proof fn lemma_count(n: nat)
    requires
        1 <= n <= 0xffff_ffff,
    ensures
        positive(of_int(n as int)),
        of_int(n as int).value() == n * one_unit(),
{
    lemma_pow2_pos(UNIT as nat);
    integers_are_exact(n);
    positive_integers(n);
}

proof fn lemma_number_over(x: Double, m: Double)
    requires
        !x.is_nan(),
        positive(m),
    ensures
        !x.over(m).is_nan(),
{
    assert(mag(0) == 0);
    lemma_value(m);
    if x.is_finite() {
        lemma_rounded(x.neg() != m.neg(), mag(x.index()) * one_unit(), mag(m.index()));
    }
}

/// Quotients of the same size have the same size.
proof fn lemma_same_quotient(a: Double, b: Double, c: Double)
    requires
        positive(c),
        !a.is_nan(),
        !b.is_nan(),
        a.index() <= b.index(),
    ensures
        a.over(c).index() <= b.over(c).index(),
        a.index() == b.index() ==> a.over(c).index() == b.over(c).index(),
        !a.over(c).is_nan(),
        !b.over(c).is_nan(),
{
    let u = one_unit();
    assert(mag(0) == 0);
    lemma_value(c);
    let x = mag(a.index());
    let y = mag(b.index());
    let m = mag(c.index());
    lemma_mag_order(a.index(), b.index());
    if a.is_finite() {
        lemma_rounded(a.neg() != c.neg(), x * u, m);
        crate::order::lemma_rounding_exists(x * u, m);
    }
    if b.is_finite() {
        lemma_rounded(b.neg() != c.neg(), y * u, m);
        assert(x * u <= y * u) by (nonlinear_arith)
            requires
                x <= y,
        ;
        crate::order::lemma_rounding_monotone(x * u, y * u, m);
    }
}

/// Squares of numbers of the same size are the same, and those of larger ones not smaller.
proof fn lemma_square_order(a: Double, b: Double)
    requires
        !a.is_nan(),
        !b.is_nan(),
        a.index() <= b.index(),
    ensures
        zero().at_most(a.times(a)),
        a.times(a).at_most(b.times(b)),
        a.index() == b.index() ==> a.times(a) == b.times(b),
{
    let u = one_unit();
    lemma_pow2_pos(UNIT as nat);
    lemma_mag_order(a.index(), b.index());
    assert(mag(0) == 0);
    let x = mag(a.index());
    let y = mag(b.index());
    lemma_mag_order(0, INF as int);
    if b.is_finite() {
        assert(x * x <= y * y) by (nonlinear_arith)
            requires
                x <= y,
        ;
        lemma_rounded(false, x * x, u);
        lemma_rounded(false, y * y, u);
        crate::order::lemma_rounding_monotone(x * x, y * y, u);
        lemma_mag_order(nearest(x * x, u), nearest(y * y, u));
    } else if a.is_finite() {
        lemma_rounded(false, x * x, u);
        crate::order::lemma_rounding_exists(x * x, u);
        lemma_mag_order(nearest(x * x, u), INF as int);
    }
}

/// A variance is the mean of the squares where the mean is nothing; it does not rise with the
/// size of the mean, whatever its sign, nor fall with the squares; and it is never negative.
pub proof fn variance_is_mean_square_less_squared_mean(
    sum1: Double,
    sum2: Double,
    squares1: Double,
    squares2: Double,
    count: nat,
)
    requires
        1 <= count <= 0xffff_ffff,
        sum1.is_finite(),
        sum2.is_finite(),
        size_of(sum1.value()) <= size_of(sum2.value()),
        zero().at_most(squares2),
        squares2.at_most(squares1),
        squares1.is_finite(),
    ensures
        ({
            let n = count as int;
            &&& spread_of((sum2, squares2), n).at_most(spread_of((sum1, squares1), n))
            &&& zero().at_most(spread_of((sum2, squares2), n))
            &&& size_of(sum1.value()) == size_of(sum2.value()) && squares1 == squares2
                ==> spread_of((sum1, squares1), n) == spread_of((sum2, squares2), n)
            &&& sum1.value() == 0 ==> spread_of((sum1, squares1), n).equal(
                squares1.over(of_int(n)),
            )
        }),
{
    let n = of_int(count as int);
    lemma_count(count);
    lemma_value(sum1);
    lemma_value(sum2);
    assert(mag(0) == 0);
    lemma_mag_order(sum1.index(), sum2.index());
    lemma_mag_order(sum2.index(), sum1.index());
    let a = sum1.over(n);
    let b = sum2.over(n);
    lemma_same_quotient(sum1, sum2, n);
    lemma_square_order(a, b);
    let x = squares1.over(n);
    let y = squares2.over(n);
    lemma_number_over(squares1, n);
    lemma_number_over(squares2, n);
    quotients_keep_order(squares2, squares1, n);
    lemma_finite_part(squares1, count);
    quotient_sign(squares2, n);
    let aa = a.times(a);
    let bb = b.times(b);
    lemma_value(x);
    lemma_value(y);
    lemma_mag_order(x.index(), INF as int);
    lemma_mag_order(y.index(), INF as int);
    lemma_mag_order(y.index(), x.index());
    assert(y.is_finite());
    assert(!x.minus(aa).is_nan() && !y.minus(bb).is_nan() && !x.minus(bb).is_nan()) by {
        lemma_value(aa);
        lemma_value(bb);
        if aa.is_finite() {
            lemma_difference(x, aa);
        }
        if bb.is_finite() {
            lemma_difference(x, bb);
            lemma_difference(y, bb);
        }
    }
    differences_keep_order(aa, bb, x);
    differences_keep_order(y, x, bb);
    floors_of_bounds_keep_order(y.minus(bb), x.minus(aa), zero());
    if sum1.value() == 0 {
        crate::order::lemma_zero_quotient(sum1, n);
        lemma_zero_product(a, a);
        lemma_value(aa);
        lemma_difference(x, aa);
        crate::order::lemma_rounding_exact(x.index());
    }
}

/// A finite number over a count is finite.
proof fn lemma_finite_part(x: Double, n: nat)
    requires
        zero().at_most(x),
        x.is_finite(),
        1 <= n <= 0xffff_ffff,
    ensures
        x.over(of_int(n as int)).is_finite(),
{
    lemma_count(n);
    lemma_count(1);
    lemma_over_one(x);
    crate::order::integers_keep_order(1, n as int);
    lemma_number_over(x, of_int(n as int));
    larger_divisors_leave_less(x, of_int(1), of_int(n as int));
    let q = x.over(of_int(n as int));
    lemma_value(x);
    lemma_value(q);
    lemma_mag_order(x.index(), INF as int);
    lemma_mag_order(INF as int, q.index());
    quotient_sign(x, of_int(n as int));
    assert(mag(0) == 0);
    lemma_mag_order(q.index(), INF as int);
}

/// Sums of opposites are opposite.
proof fn lemma_opposites(a: Double, b: Double, c: Double, d: Double)
    requires
        !a.is_nan() && !b.is_nan() && !c.is_nan() && !d.is_nan(),
        c.value() == -a.value(),
        d.value() == -b.value(),
    ensures
        a.plus(b).is_nan() == c.plus(d).is_nan(),
        !a.plus(b).is_nan() ==> c.plus(d).value() == -a.plus(b).value() && c.plus(d).index()
            == a.plus(b).index(),
{
    assert(nan().is_nan());
    crate::order::lemma_extremes(a);
    crate::order::lemma_extremes(b);
    crate::order::lemma_extremes(c);
    crate::order::lemma_extremes(d);
    lemma_value(a);
    lemma_value(b);
    lemma_value(c);
    lemma_value(d);
    lemma_mag_order(a.index(), c.index());
    lemma_mag_order(c.index(), a.index());
    lemma_mag_order(b.index(), d.index());
    lemma_mag_order(d.index(), b.index());
    assert(a.index() == c.index() && b.index() == d.index());
    if a.is_finite() && b.is_finite() {
        let s = a.value() + b.value();
        lemma_rounded(s < 0, size_of(s), 1);
        lemma_rounded(-s < 0, size_of(-s), 1);
        assert(size_of(s) == size_of(-s));
        crate::order::lemma_zero_rounding(1);
    }
}

/// Prices that move against each other: the one falls by as much as the other rises.
pub open spec fn mirrored(p: Seq<Double>, q: Seq<Double>, total: int) -> bool {
    &&& p.len() == q.len()
    &&& forall|i: int|
        0 <= i < p.len() ==> (#[trigger] p[i]).is_finite() && (#[trigger] q[i]).is_finite()
            && p[i].value() + q[i].value() == total
}

proof fn lemma_mirrored_sums(p: Seq<Double>, q: Seq<Double>, total: int, start: int, end: int)
    requires
        mirrored(p, q, total),
        0 <= start,
        end <= p.len(),
    ensures
        ({
            let a = change_sums(p, start, end);
            let b = change_sums(q, start, end);
            &&& a.1 == b.1
            &&& a.0.is_nan() == b.0.is_nan()
            &&& !a.0.is_nan() ==> b.0.value() == -a.0.value() && b.0.index() == a.0.index()
        }),
    decreases end - start,
{
    if end > start + 1 {
        lemma_mirrored_sums(p, q, total, start, end - 1);
        assert(p[end - 1].value() + q[end - 1].value() == total);
        assert(p[end - 2].value() + q[end - 2].value() == total);
        assert(p[end - 1].is_finite() && p[end - 2].is_finite());
        assert(q[end - 1].is_finite() && q[end - 2].is_finite());
        let d = p[end - 1].minus(p[end - 2]);
        let e = q[end - 1].minus(q[end - 2]);
        lemma_difference(p[end - 1], p[end - 2]);
        lemma_difference(q[end - 1], q[end - 2]);
        lemma_value(d);
        lemma_value(e);
        assert(d.index() == e.index());
        assert(e.value() == -d.value());
        lemma_square_order(d, e);
        let a = change_sums(p, start, end - 1);
        let b = change_sums(q, start, end - 1);
        assert(nan().is_nan());
        if !a.0.is_nan() {
            lemma_opposites(a.0, d, b.0, e);
        }
    } else {
        assert(mag(0) == 0);
    }
}

/// The variance of prices does not depend on whether they rise or fall, and is nothing where
/// they stand still.
pub proof fn variance_takes_no_side(p: Seq<Double>, q: Seq<Double>, total: int, window: int)
    requires
        mirrored(p, q, total),
        p.len() <= 0xffff_ffff,
    ensures
        price_variance(p, window) == price_variance(q, window),
{
    let n = if p.len() < window { p.len() as int } else { window };
    if n >= 5 {
        lemma_mirrored_sums(p, q, total, p.len() - n, p.len() as int);
        let a = change_sums(p, p.len() - n, p.len() as int);
        let b = change_sums(q, p.len() - n, p.len() as int);
        let c = of_int(n - 1);
        lemma_count((n - 1) as nat);
        assert(nan().is_nan());
        if !a.0.is_nan() {
            lemma_same_quotient(a.0, b.0, c);
            lemma_square_order(a.0.over(c), b.0.over(c));
        }
    }
}

proof fn lemma_still(p: Seq<Double>, x: Double, start: int, end: int)
    requires
        x.is_finite(),
        0 <= start,
        end <= p.len(),
        forall|i: int| 0 <= i < p.len() ==> #[trigger] p[i] == x,
    ensures
        change_sums(p, start, end).0.index() == 0,
        change_sums(p, start, end).1.index() == 0,
    decreases end - start,
{
    if end > start + 1 {
        lemma_still(p, x, start, end - 1);
        let d = p[end - 1].minus(p[end - 2]);
        lemma_difference(x, x);
        lemma_value(d);
        product_is_number(d, d);
        lemma_zero_product(d, d);
        let a = change_sums(p, start, end - 1);
        lemma_nothing(a.0, d);
        lemma_nothing(a.1, d.times(d));
    }
}

/// Nothing and nothing are nothing.
proof fn lemma_nothing(a: Double, b: Double)
    requires
        a.index() == 0,
        b.index() == 0,
    ensures
        a.plus(b).index() == 0,
{
    assert(mag(0) == 0);
}

/// Prices that stand still have no variance.
pub proof fn still_prices_have_no_variance(p: Seq<Double>, x: Double, window: int)
    requires
        x.is_finite(),
        p.len() <= 0xffff_ffff,
        forall|i: int| 0 <= i < p.len() ==> #[trigger] p[i] == x,
    ensures
        price_variance(p, window).value() == 0,
{
    let n = if p.len() < window { p.len() as int } else { window };
    assert(mag(0) == 0);
    if n >= 5 {
        lemma_still(p, x, p.len() - n, p.len() as int);
        let a = change_sums(p, p.len() - n, p.len() as int);
        let c = of_int(n - 1);
        lemma_count((n - 1) as nat);
        crate::order::lemma_zero_quotient(a.0, c);
        crate::order::lemma_zero_quotient(a.1, c);
        let m = a.0.over(c);
        product_is_number(m, m);
        lemma_zero_product(m, m);
        lemma_value(m.times(m));
        lemma_nothing(a.1.over(c), m.times(m).negated());
    }
}

proof fn lemma_shifted_sums(old_prices: Seq<Double>, p: Seq<Double>, start: int, end: int)
    requires
        0 <= start,
        end <= p.len(),
    ensures
        change_sums(old_prices + p, old_prices.len() + start, old_prices.len() + end)
            == change_sums(p, start, end),
    decreases end - start,
{
    if end > start + 1 {
        lemma_shifted_sums(old_prices, p, start, end - 1);
        let all = old_prices + p;
        let k = old_prices.len() as int;
        assert(all[k + end - 1] == p[end - 1]);
        assert(all[k + end - 2] == p[end - 2]);
        assert(k + (end - 1) == k + end - 1);
    }
}

/// Only the prices of the window count for the variance.
pub proof fn old_prices_have_no_variance(old_prices: Seq<Double>, p: Seq<Double>, window: int)
    requires
        0 <= window <= p.len(),
    ensures
        price_variance(old_prices + p, window) == price_variance(p, window),
{
    let all = old_prices + p;
    if window >= 5 {
        lemma_shifted_sums(old_prices, p, p.len() - window, p.len() as int);
        assert(all.len() - window == old_prices.len() + (p.len() - window));
    }
}

/// A price that jumps and comes back at once, among five: the variance is half the square of the
/// jump.
pub proof fn variance_of_a_spike(x: Double, y: Double, window: int)
    requires
        x.is_finite(),
        y.is_finite(),
        window >= 5,
        y.minus(x).is_finite(),
        y.minus(x).times(y.minus(x)).is_finite(),
        y.minus(x).times(y.minus(x)).plus(y.minus(x).times(y.minus(x))).is_finite(),
    ensures
        ({
            let square = y.minus(x).times(y.minus(x));
            price_variance(seq![x, y, x, x, x], window).equal(square.plus(square).over(of_int(4)))
        }),
{
    let p = seq![x, y, x, x, x];
    reveal_with_fuel(change_sums, 7);
    let d = y.minus(x);
    let e = x.minus(y);
    let z = x.minus(x);
    lemma_difference(y, x);
    lemma_difference(x, y);
    lemma_difference(x, x);
    lemma_value(d);
    lemma_value(e);
    lemma_value(z);
    assert(mag(0) == 0);
    assert(d.index() == e.index() && e.value() == -d.value());
    let dd = d.times(d);
    lemma_square_order(d, e);
    product_is_number(z, z);
    lemma_zero_product(z, z);
    let zz = z.times(z);
    lemma_value(zz);
    // the sum
    let s1 = zero().plus(d);
    lemma_add_nothing(zero(), d);
    let s2 = s1.plus(e);
    crate::order::lemma_plus_value(s1, e);
    crate::order::lemma_zero_rounding(1);
    lemma_rounded(false, 0, 1);
    lemma_value(s2);
    assert(s2.index() == 0);
    lemma_nothing(s2, z);
    lemma_nothing(s2.plus(z), z);
    // the squares
    let q1 = zero().plus(dd);
    lemma_add_nothing(zero(), dd);
    let q2 = q1.plus(dd);
    crate::order::lemma_plus_value(q1, dd);
    crate::order::lemma_plus_value(dd, dd);
    assert(q2.value() == dd.plus(dd).value());
    let twice = dd.plus(dd);
    lemma_value(q2);
    lemma_value(twice);
    lemma_mag_order(q2.index(), twice.index());
    lemma_mag_order(twice.index(), q2.index());
    assert(q2.is_finite());
    let q3 = q2.plus(zz);
    let q4 = q3.plus(zz);
    lemma_plus_commutes(q2, zz);
    lemma_add_nothing(zz, q2);
    lemma_value(q3);
    lemma_mag_order(q3.index(), q2.index());
    lemma_mag_order(q2.index(), q3.index());
    lemma_plus_commutes(q3, zz);
    lemma_add_nothing(zz, q3);
    lemma_value(q4);
    lemma_mag_order(q4.index(), q3.index());
    lemma_mag_order(q3.index(), q4.index());
    let sums = change_sums(p, 0, 5);
    assert(sums == (s2.plus(z).plus(z), q4)) by {
        assert(p[0] == x && p[1] == y && p[2] == x && p[3] == x && p[4] == x);
        assert(change_sums(p, 0, 1) == (zero(), zero()));
        assert(change_sums(p, 0, 2) == (s1, q1));
        assert(change_sums(p, 0, 3) == (s2, q2));
        assert(change_sums(p, 0, 4) == (s2.plus(z), q3));
    }
    lemma_count(4);
    product_sign(d, d);
    lemma_square_order(d, d);
    crate::order::sum_keeps_sign(dd, dd);
    assert(zero().at_most(q4));
    let s = sums.0;
    lemma_value(s);
    variance_is_mean_square_less_squared_mean(s, s, q4, q4, 4);
    lemma_same_quotient(q4, twice, of_int(4));
    lemma_value(q4.over(of_int(4)));
    lemma_value(twice.over(of_int(4)));
    lemma_number_over(twice, of_int(4));
    quotient_sign(q4, of_int(4));
    quotient_sign(twice, of_int(4));
}

/// Nothing and a number are that number.
proof fn lemma_add_nothing(z: Double, x: Double)
    requires
        !z.is_nan(),
        z.value() == 0,
        !x.is_nan(),
    ensures
        z.plus(x).equal(x),
        z.plus(x).index() == x.index(),
{
    lemma_value(z);
    lemma_value(x);
    assert(mag(0) == 0);
    lemma_mag_order(0, INF as int);
    let s = z.plus(x);
    if x.is_finite() {
        crate::order::lemma_plus_value(z, x);
        crate::order::lemma_rounding_exact(x.index());
        lemma_rounded(x.value() < 0, mag(x.index()), 1);
        crate::order::lemma_zero_rounding(1);
    }
}

// ---- volatility ------------------------------------------------------------------------------------------------

/// Volatility is never negative, and nothing where prices stand still or are too few.
pub proof fn volatility_is_not_negative(p: Seq<Double>, x: Double)
    requires
        p.len() <= 0xffff_ffff,
    ensures
        !volatility_of(p).is_nan() ==> zero().at_most(volatility_of(p)),
        p.len() < 5 ==> volatility_of(p) == zero(),
        x.is_finite() && (forall|i: int| 0 <= i < p.len() ==> #[trigger] p[i] == x)
            ==> volatility_of(p).value() == 0,
{
    assert(mag(0) == 0);
    if p.len() >= 5 {
        let n = (p.len() - 1) as nat;
        lemma_count(n);
        lemma_count(100);
        let v = spread_of(return_sums(p, p.len() as int), p.len() - 1);
        assert(zero().at_most(v));
        let r = v.root();
        lemma_value(v);
        roots_keep_order(v, v);
        if !r.times(of_int(100)).is_nan() {
            product_sign(r, of_int(100));
        }
        if x.is_finite() && (forall|i: int| 0 <= i < p.len() ==> #[trigger] p[i] == x) {
            lemma_still_returns(p, x, p.len() as int);
            let a = return_sums(p, p.len() as int);
            let c = of_int(n as int);
            crate::order::lemma_zero_quotient(a.0, c);
            crate::order::lemma_zero_quotient(a.1, c);
            let m = a.0.over(c);
            product_is_number(m, m);
            lemma_zero_product(m, m);
            lemma_value(m.times(m));
            lemma_nothing(a.1.over(c), m.times(m).negated());
            assert(v.index() == 0);
            assert(r == v);
            product_is_number(r, of_int(100));
            lemma_times_commutes(r, of_int(100));
            lemma_zero_product(of_int(100), r);
        }
    }
}

proof fn lemma_still_returns(p: Seq<Double>, x: Double, end: int)
    requires
        x.is_finite(),
        end <= p.len(),
        forall|i: int| 0 <= i < p.len() ==> #[trigger] p[i] == x,
    ensures
        return_sums(p, end).0.index() == 0,
        return_sums(p, end).1.index() == 0,
    decreases end,
{
    if end > 1 {
        lemma_still_returns(p, x, end - 1);
        assert(p[end - 1] == x && p[end - 2] == x);
        if zero().less(x) {
            let c = x.minus(x);
            lemma_difference(x, x);
            lemma_value(c);
            crate::order::lemma_zero_quotient(c, x);
            let d = c.over(x);
            product_is_number(d, d);
            lemma_zero_product(d, d);
            let a = return_sums(p, end - 1);
            lemma_nothing(a.0, d);
            lemma_nothing(a.1, d.times(d));
        }
    }
}

// ---- horizon, variance and units -----------------------------------------------------------------------------------

/// The horizon is never longer than the time that is left: the whole of it in a calm market, two
/// and a half minutes at most in an agitated one, and one minute at most in an extreme one.
pub proof fn horizons_are_shorter_in_agitated_markets(t: Double)
    requires
        !t.is_nan(),
    ensures
        horizon(VolRegime::Low, t) == t,
        horizon(VolRegime::Normal, t) == t,
        t.value() <= 150 * one_unit() ==> horizon(VolRegime::High, t).value() == t.value(),
        t.value() >= 150 * one_unit() ==> horizon(VolRegime::High, t).value() == 150 * one_unit(),
        t.value() <= 60 * one_unit() ==> horizon(VolRegime::Extreme, t).value() == t.value(),
        t.value() >= 60 * one_unit() ==> horizon(VolRegime::Extreme, t).value() == 60 * one_unit(),
        horizon(VolRegime::Extreme, t).at_most(horizon(VolRegime::High, t)),
        horizon(VolRegime::High, t).at_most(t),
{
    integers_are_exact(150);
    integers_are_exact(60);
}

/// The variance that is quoted by is the running one where there is one, else that of the prices,
/// and never nothing.
pub proof fn quotes_go_by_the_running_variance(s: MmModel, t: MmModel, window: int)
    ensures
        least_variance().at_most(quote_variance(s, window)),
        zero().less(s.ewma_variance) && least_variance().at_most(s.ewma_variance)
            ==> quote_variance(s, window) == s.ewma_variance,
        s.ewma_variance.at_most(zero()) && t.ewma_variance.at_most(zero()) && s.price_history
            == t.price_history ==> quote_variance(s, window) == quote_variance(t, window),
        s.ewma_variance.at_most(zero()) && least_variance().at_most(
            price_variance(s.price_history, window),
        ) ==> quote_variance(s, window) == price_variance(s.price_history, window),
{
    crate::bounds::lemma_ratio(1, 1_000_000_000_000_000_000);
    assert(mag(0) == 0);
}

/// Inventory in units of risk: it has the sign of the inventory and grows with it and with the
/// price; what is worth one unit is one; and without a unit or a price it is the inventory itself.
pub proof fn units_of_risk_measure_inventory(
    p1: Double,
    p2: Double,
    m1: Double,
    m2: Double,
    unit: Double,
)
    requires
        p1.at_most(p2),
        p1.is_finite(),
        p2.is_finite(),
        positive(m1),
        positive(m2),
        m1.at_most(m2),
        positive(unit),
    ensures
        risk_units(p1, m1, unit).at_most(risk_units(p2, m1, unit)),
        zero().at_most(p1) ==> zero().at_most(risk_units(p1, m1, unit)),
        p1.at_most(zero()) ==> risk_units(p1, m1, unit).at_most(zero()),
        zero().at_most(p1) ==> risk_units(p1, m1, unit).at_most(risk_units(p1, m2, unit)),
        p1 == unit.over(m1) && quotient(1, 1_000_000_000).at_most(p1) ==> risk_units(p1, m1, unit)
            == of_int(1),
        risk_units(p1, m1, zero()) == p1,
        risk_units(p1, zero(), unit) == p1,
{
    crate::bounds::lemma_ratio(1, 1_000_000_000);
    assert(mag(0) == 0);
    let least = quotient(1, 1_000_000_000);
    let a = unit.over(m1).larger(least);
    let b = unit.over(m2).larger(least);
    lemma_number_over(unit, m1);
    lemma_number_over(unit, m2);
    quotient_sign(unit, m1);
    lemma_value(a);
    lemma_value(b);
    lemma_value(p1);
    lemma_value(p2);
    assert(!p1.over(a).is_nan() && !p2.over(a).is_nan() && !p1.over(b).is_nan()) by {
        if a.is_finite() {
            lemma_number_over(p1, a);
            lemma_number_over(p2, a);
        }
        if b.is_finite() {
            lemma_number_over(p1, b);
        }
    }
    quotients_keep_order(p1, p2, a);
    larger_divisors_leave_less(unit, m1, m2);
    floors_of_bounds_keep_order(unit.over(m2), unit.over(m1), least);
    if zero().at_most(p1) {
        quotient_sign(p1, a);
        larger_divisors_leave_less(p1, b, a);
    }
    if p1.at_most(zero()) {
        assert(!zero().over(a).is_nan()) by {
            if a.is_finite() {
                lemma_number_over(zero(), a);
            }
        }
        quotients_keep_order(p1, zero(), a);
        crate::order::lemma_zero_quotient(zero(), a);
        lemma_value(zero().over(a));
    }
    if p1 == unit.over(m1) && least.at_most(p1) {
        assert(a == p1);
        over_itself(p1);
    }
}

/// Volatility is a hundred times the root of the variance of the relative changes: from a price
/// of one, these are the changes themselves.
pub proof fn volatility_is_in_percent(y: Double)
    requires
        y.is_finite(),
    ensures
        ({
            let one = of_int(1);
            let p = seq![one, one, one, one, y];
            volatility_of(p) == price_variance(p, 5).root().times(of_int(100))
        }),
{
    let one = of_int(1);
    let p = seq![one, one, one, one, y];
    lemma_count(1);
    lemma_difference(one, one);
    lemma_difference(y, one);
    reveal_with_fuel(change_sums, 7);
    reveal_with_fuel(return_sums, 7);
    let z = one.minus(one);
    let d = y.minus(one);
    lemma_over_one(z);
    lemma_over_one(d);
    assert(p[0] == one && p[1] == one && p[2] == one && p[3] == one && p[4] == y);
    assert(return_sums(p, 1) == change_sums(p, 0, 1));
    assert(return_sums(p, 2) == change_sums(p, 0, 2));
    assert(return_sums(p, 3) == change_sums(p, 0, 3));
    assert(return_sums(p, 4) == change_sums(p, 0, 4));
    assert(return_sums(p, 5) == change_sums(p, 0, 5));
}

/// Relative changes: twice the prices, or half of them, are as volatile. A change is measured
/// against the price that it starts from, and the last one is among those that count.
pub proof fn changes_are_relative(x: Double, y: Double, w: Double)
    requires
        positive(x),
        y.is_finite(),
        positive(w),
        y.minus(x).is_finite(),
        // the change is to `x` as the number `w` less one is to one
        w.minus(of_int(1)) == y.minus(x).over(x),
        x.minus(x).over(x) == of_int(1).minus(of_int(1)),
    ensures
        ({
            let one = of_int(1);
            volatility_of(seq![x, x, x, x, y]) == volatility_of(seq![one, one, one, one, w])
        }),
{
    let one = of_int(1);
    let p = seq![x, x, x, x, y];
    let q = seq![one, one, one, one, w];
    lemma_count(1);
    reveal_with_fuel(return_sums, 7);
    lemma_difference(one, one);
    lemma_difference(w, one);
    lemma_over_one(one.minus(one));
    lemma_over_one(w.minus(one));
    assert(p[0] == x && p[1] == x && p[2] == x && p[3] == x && p[4] == y);
    assert(q[0] == one && q[1] == one && q[2] == one && q[3] == one && q[4] == w);
    assert(return_sums(p, 1) == return_sums(q, 1));
    assert(return_sums(p, 2) == return_sums(q, 2));
    assert(return_sums(p, 3) == return_sums(q, 3));
    assert(return_sums(p, 4) == return_sums(q, 4));
    assert(return_sums(p, 5) == return_sums(q, 5));
}

// ---- center and half spread -------------------------------------------------------------------------------------

/// The half spread grows with the variance, and so does the shift of the reservation price.
pub proof fn variance_widens_the_quotes(
    mid: Double,
    position: Double,
    v1: Double,
    v2: Double,
    t: Double,
    gamma: Double,
    ln: Double,
)
    requires
        v1.at_most(v2),
        zero().at_most(v1),
        zero().at_most(t),
        zero().at_most(gamma),
        !quotes(mid, position, v1, t, gamma, ln).0.is_nan(),
        !quotes(mid, position, v2, t, gamma, ln).0.is_nan(),
        !quotes(mid, position, v1, t, gamma, ln).1.is_nan(),
        !quotes(mid, position, v2, t, gamma, ln).1.is_nan(),
    ensures
        quotes(mid, position, v1, t, gamma, ln).1.at_most(
            quotes(mid, position, v2, t, gamma, ln).1,
        ),
        zero().at_most(position) ==> quotes(mid, position, v2, t, gamma, ln).0.at_most(
            quotes(mid, position, v1, t, gamma, ln).0,
        ),
{
    let a1 = gamma.times(v1);
    let a2 = gamma.times(v2);
    let b1 = a1.times(t);
    let b2 = a2.times(t);
    let two = of_int(2);
    let rest = of_int(1).over(gamma).times(ln);
    numbers_come_from_numbers(b1.over(two), rest);
    numbers_come_from_numbers(b2.over(two), rest);
    numbers_come_from_numbers(b1, two);
    numbers_come_from_numbers(b2, two);
    numbers_come_from_numbers(a1, t);
    numbers_come_from_numbers(a2, t);
    numbers_come_from_numbers(gamma, v1);
    lemma_times_commutes(gamma, v1);
    lemma_times_commutes(gamma, v2);
    products_keep_order(v1, v2, gamma);
    products_keep_order(a1, a2, t);
    positive_integers(2);
    quotients_keep_order(b1, b2, two);
    sums_keep_order(b1.over(two), b2.over(two), rest);
    if zero().at_most(position) {
        let g = position.times(gamma);
        let c1 = g.times(v1);
        let c2 = g.times(v2);
        let x1 = c1.times(t);
        let x2 = c2.times(t);
        numbers_come_from_numbers(mid, x1);
        numbers_come_from_numbers(mid, x2);
        numbers_come_from_numbers(c1, t);
        numbers_come_from_numbers(c2, t);
        numbers_come_from_numbers(g, v1);
        product_sign(position, gamma);
        lemma_times_commutes(g, v1);
        lemma_times_commutes(g, v2);
        products_keep_order(v1, v2, g);
        products_keep_order(c1, c2, t);
        differences_keep_order(x1, x2, mid);
    }
}

/// Quotes look a second ahead at least: what is left of a shorter time changes nothing of them. From
/// a second on, more time never narrows them.
pub proof fn quotes_look_a_second_ahead(
    bbo: Bbo,
    position: Double,
    config: Config,
    s: MmModel,
    t: MmModel,
)
    requires
        t == (MmModel { t_remaining_secs: t.t_remaining_secs, ..s }),
        s.t_remaining_secs.at_most(t.t_remaining_secs),
    ensures
        t.t_remaining_secs.at_most(of_int(1)) ==> model_quotes(bbo, position, config, s)
            == model_quotes(bbo, position, config, t),
        positive(config.as_model.gamma) && !model_quotes(bbo, position, config, s).1.is_nan()
            && !model_quotes(bbo, position, config, t).1.is_nan() ==> model_quotes(
            bbo,
            position,
            config,
            s,
        ).1.at_most(model_quotes(bbo, position, config, t).1),
{
    let one = of_int(1);
    lemma_count(1);
    integers_are_exact(150);
    integers_are_exact(60);
    assert(mag(0) == 0);
    let ts = horizon(s.vol_regime, s.t_remaining_secs).larger(one);
    let tt = horizon(t.vol_regime, t.t_remaining_secs).larger(one);
    let sigma = config.as_model.sigma_window as int;
    assert(quote_variance(s, sigma) == quote_variance(t, sigma));
    assert(ts.at_most(tt));
    if t.t_remaining_secs.at_most(one) {
        assert(tt.at_most(one) && one.at_most(ts));
        lemma_value(ts);
        lemma_value(tt);
        lemma_value(one);
        lemma_alike(ts, one);
        lemma_alike(tt, one);
    }
    let gamma = config.as_model.gamma;
    if positive(gamma) && !model_quotes(bbo, position, config, s).1.is_nan() && !model_quotes(
        bbo,
        position,
        config,
        t,
    ).1.is_nan() {
        let g = gamma.times(quote_variance(s, sigma));
        let two = of_int(2);
        let b1 = g.times(ts);
        let b2 = g.times(tt);
        let rest = one.over(gamma).times(config.logs.arrival_ln);
        numbers_come_from_numbers(b1.over(two), rest);
        numbers_come_from_numbers(b2.over(two), rest);
        numbers_come_from_numbers(b1, two);
        numbers_come_from_numbers(b2, two);
        numbers_come_from_numbers(g, ts);
        crate::bounds::lemma_ratio(1, 1_000_000_000_000_000_000);
        numbers_come_from_numbers(gamma, quote_variance(s, sigma));
        product_sign(gamma, quote_variance(s, sigma));
        lemma_times_commutes(g, ts);
        lemma_times_commutes(g, tt);
        products_keep_order(ts, tt, g);
        positive_integers(2);
        quotients_keep_order(b1, b2, two);
        sums_keep_order(b1.over(two), b2.over(two), rest);
    }
}

/// Positive numbers of the same value are the same.
proof fn lemma_alike(a: Double, b: Double)
    requires
        !a.is_nan(),
        !b.is_nan(),
        0 < a.value() == b.value(),
    ensures
        a == b,
{
    assert(mag(0) == 0);
    lemma_value(a);
    lemma_value(b);
    if a.index() < b.index() {
        lemma_mag_order(a.index(), b.index());
    }
    if b.index() < a.index() {
        lemma_mag_order(b.index(), a.index());
    }
}

/// Bids that outweigh asks raise the center of the grid, never lower it; without an imbalance it
/// is the reservation price; and a full imbalance of weight one shifts it by a tick.
pub proof fn imbalance_shifts_the_center(
    bbo: Bbo,
    position: Double,
    config: Config,
    s: MmModel,
    t: MmModel,
)
    requires
        t == (MmModel { book_imbalance_ema: t.book_imbalance_ema, ..s }),
        s.book_imbalance_ema.at_most(t.book_imbalance_ema),
        zero().at_most(config.spread.imbalance_weight),
        positive(config.token.tick_size),
        !grid_center(bbo, position, config, s).is_nan(),
        !grid_center(bbo, position, config, t).is_nan(),
    ensures
        grid_center(bbo, position, config, s).at_most(grid_center(bbo, position, config, t)),
        s.book_imbalance_ema.value() == 0 && config.spread.imbalance_weight.is_finite()
            ==> grid_center(bbo, position, config, s).equal(
            model_quotes(bbo, position, config, s).0,
        ),
        s.book_imbalance_ema == of_int(1) && config.spread.imbalance_weight == of_int(1)
            ==> grid_center(bbo, position, config, s) == model_quotes(
            bbo,
            position,
            config,
            s,
        ).0.plus(config.token.tick_size),
{
    let w = config.spread.imbalance_weight;
    let tick = config.token.tick_size;
    let r = model_quotes(bbo, position, config, s).0;
    assert(quote_variance(s, config.as_model.sigma_window as int) == quote_variance(
        t,
        config.as_model.sigma_window as int,
    ));
    assert(r == model_quotes(bbo, position, config, t).0);
    let x = s.book_imbalance_ema;
    let y = t.book_imbalance_ema;
    let a = x.times(w).times(tick);
    let b = y.times(w).times(tick);
    numbers_come_from_numbers(r, a);
    numbers_come_from_numbers(r, b);
    numbers_come_from_numbers(x.times(w), tick);
    numbers_come_from_numbers(y.times(w), tick);
    products_keep_order(x, y, w);
    products_keep_order(x.times(w), y.times(w), tick);
    lemma_plus_commutes(r, a);
    lemma_plus_commutes(r, b);
    sums_keep_order(a, b, r);
    assert(mag(0) == 0);
    if x.value() == 0 && w.is_finite() {
        lemma_value(x);
        lemma_times_commutes(x, w);
        lemma_zero_product(w, x);
        lemma_times_commutes(x.times(w), tick);
        lemma_zero_product(tick, x.times(w));
        lemma_value(a);
        lemma_add_nothing(a, r);
    }
    if x == of_int(1) && w == of_int(1) {
        lemma_count(1);
        times_one(of_int(1));
        times_one(tick);
    }
}

/// The half spread does not fall with the markout score: without adverse fills it is that of the
/// model, and where all of them were it is three times that, within the bounds.
pub proof fn adverse_fills_widen_the_spread(
    bbo: Bbo,
    position: Double,
    config: Config,
    s: MmModel,
    t: MmModel,
)
    requires
        t == (MmModel { markout_score: t.markout_score, ..s }),
        zero().at_most(s.markout_score),
        s.markout_score.at_most(t.markout_score),
        t.markout_score.at_most(of_int(1)),
        zero().at_most(model_quotes(bbo, position, config, s).1),
        !grid_delta(bbo, position, config, s).is_nan(),
        !grid_delta(bbo, position, config, t).is_nan(),
    ensures
        ({
            let delta = model_quotes(bbo, position, config, s).1;
            let least = config.spread.min_spread_ticks.times(config.token.tick_size);
            let most = config.spread.max_spread_ticks.times(config.token.tick_size);
            &&& grid_delta(bbo, position, config, s).at_most(grid_delta(bbo, position, config, t))
            &&& s.markout_score.index() == 0 && s.vol_regime == VolRegime::Normal
                && least.at_most(delta) && delta.at_most(most) ==> grid_delta(
                bbo,
                position,
                config,
                s,
            ) == delta
            &&& s.markout_score == of_int(1) && s.vol_regime == VolRegime::Normal
                && least.at_most(delta.times(of_int(3))) && delta.times(of_int(3)).at_most(most)
                ==> grid_delta(bbo, position, config, s) == delta.times(of_int(3))
        }),
{
    let one = of_int(1);
    let two = of_int(2);
    let delta = model_quotes(bbo, position, config, s).1;
    assert(quote_variance(s, config.as_model.sigma_window as int) == quote_variance(
        t,
        config.as_model.sigma_window as int,
    ));
    assert(delta == model_quotes(bbo, position, config, t).1);
    lemma_count(1);
    lemma_count(2);
    lemma_count(3);
    assert(mag(0) == 0);
    let x = s.markout_score;
    let y = t.markout_score;
    lemma_factor(x);
    lemma_factor(y);
    let a = one.plus(x.times(two));
    let b = one.plus(y.times(two));
    products_keep_order(x, y, two);
    lemma_plus_commutes(one, x.times(two));
    lemma_plus_commutes(one, y.times(two));
    sums_keep_order(x.times(two), y.times(two), one);
    let c = delta.times(a);
    let d = delta.times(b);
    assert(!c.is_nan() && !d.is_nan()) by {
        lemma_value(a);
        lemma_value(b);
        if delta.is_finite() {
            product_is_number(delta, a);
            product_is_number(delta, b);
        }
    }
    lemma_times_commutes(delta, a);
    lemma_times_commutes(delta, b);
    products_keep_order(a, b, delta);
    let floor = crate::strategy::spread_floor(s.vol_regime, config.spread.min_spread_ticks).times(
        config.token.tick_size,
    );
    floors_of_bounds_keep_order(c, d, floor);
    if x.index() == 0 {
        lemma_times_commutes(x, two);
        lemma_zero_product(two, x);
        lemma_value(x.times(two));
        lemma_add_nothing(x.times(two), one);
        lemma_value(a);
        assert(a == one);
        times_one(delta);
        lemma_least_or_more(delta, floor);
    }
    if x == one {
        times_one(two);
        lemma_three();
        lemma_least_or_more(delta.times(of_int(3)), floor);
    }
}

/// The larger of two numbers is the one that is not below the other.
proof fn lemma_least_or_more(x: Double, floor: Double)
    requires
        !x.is_nan(),
    ensures
        floor.at_most(x) ==> x.larger(floor) == x,
{
}

proof fn lemma_three()
    ensures
        of_int(1).plus(of_int(2)) == of_int(3),
{
    let u = one_unit();
    lemma_count(1);
    lemma_count(2);
    lemma_count(3);
    assert(1 * u + 2 * u == 3 * u);
}

/// One plus twice a score is between one and three.
proof fn lemma_factor(x: Double)
    requires
        zero().at_most(x),
        x.at_most(of_int(1)),
    ensures
        positive(of_int(1).plus(x.times(of_int(2)))),
        !x.times(of_int(2)).is_nan(),
{
    let one = of_int(1);
    let two = of_int(2);
    lemma_count(1);
    lemma_count(2);
    lemma_count(3);
    assert(mag(0) == 0);
    lemma_value(x);
    lemma_mag_order(one.index(), INF as int);
    lemma_mag_order(x.index(), INF as int);
    product_is_number(x, two);
    product_sign(x, two);
    times_one(two);
    products_keep_order(x, one, two);
    lemma_three();
    adding_grows(one, x.times(two));
    sums_keep_order(x.times(two), two, one);
    crate::size_laws::lies_between(one, one.plus(x.times(two)), of_int(3));
}

/// Where the model asks for less than the smallest half spread, that is quoted: as it is
/// configured in a calm market, two ticks more in an agitated one, and four in an extreme one; and
/// where it asks for more than the largest, the largest.
pub proof fn bounds_hold_the_half_spread(bbo: Bbo, position: Double, config: Config, s: MmModel)
    requires
        s.markout_score.index() == 0,
        model_quotes(bbo, position, config, s).1.is_finite(),
        zero().at_most(model_quotes(bbo, position, config, s).1),
        !config.spread.min_spread_ticks.times(config.token.tick_size).is_nan(),
        !config.spread.max_spread_ticks.times(config.token.tick_size).is_nan(),
    ensures
        ({
            let delta = model_quotes(bbo, position, config, s).1;
            let tick = config.token.tick_size;
            let least = config.spread.min_spread_ticks;
            let most = config.spread.max_spread_ticks.times(tick);
            let wide = least.plus(of_int(2)).times(tick);
            let wider = least.plus(of_int(4)).times(tick);
            let r = grid_delta(bbo, position, config, s);
            &&& (s.vol_regime == VolRegime::Low || s.vol_regime == VolRegime::Normal) && delta.less(
                least.times(tick),
            ) && least.times(tick).at_most(most) ==> r == least.times(tick)
            &&& s.vol_regime == VolRegime::High && delta.less(wide) && wide.at_most(most) ==> r
                == wide
            &&& s.vol_regime == VolRegime::Extreme && delta.less(wider) && wider.at_most(most) ==> r
                == wider
            &&& most.at_most(delta) ==> r.value() == most.value()
            &&& r.at_most(most)
        }),
{
    let delta = model_quotes(bbo, position, config, s).1;
    let x = s.markout_score;
    lemma_count(1);
    lemma_count(2);
    assert(mag(0) == 0);
    lemma_times_commutes(x, of_int(2));
    product_is_number(x, of_int(2));
    lemma_zero_product(of_int(2), x);
    lemma_value(x.times(of_int(2)));
    lemma_plus_commutes(of_int(1), x.times(of_int(2)));
    lemma_add_nothing(x.times(of_int(2)), of_int(1));
    lemma_value(of_int(1).plus(x.times(of_int(2))));
    assert(of_int(1).plus(x.times(of_int(2))) == of_int(1));
    times_one(delta);
}

// ---- levels ---------------------------------------------------------------------------------------------------------

/// The size of a level grows with its multiplier and with the size of the grid; a multiplier of
/// one leaves it but for its decimals, and a level beyond the list has half of it.
pub proof fn levels_are_sized_by_their_multipliers(g: Grid, h: Grid, i: int, j: int)
    requires
        h == (Grid { base_size: h.base_size, ..g }),
        positive(g.base_size),
        positive(h.base_size),
        g.base_size.at_most(h.base_size),
        0 <= i < g.multipliers.len(),
        0 <= j,
        positive(g.multipliers[i]),
        j < g.multipliers.len() ==> g.multipliers[i].at_most(g.multipliers[j]) && positive(
            g.multipliers[j],
        ),
        !g.size(i).is_nan(),
        !g.size(j).is_nan(),
        !h.size(i).is_nan(),
    ensures
        g.size(i).at_most(h.size(i)),
        j < g.multipliers.len() ==> g.size(i).at_most(g.size(j)),
        g.multipliers[i] == of_int(1) ==> g.size(i) == rounded_to(
            g.base_size,
            g.size_places,
        ),
        j >= g.multipliers.len() && g.multipliers[i] == quotient(5, 10) ==> g.size(j) == g.size(i),
{
    let m = g.multipliers[i];
    let a = g.base_size;
    let b = h.base_size;
    product_is_number(a, m);
    product_is_number(b, m);
    products_keep_order(a, b, m);
    lemma_rounded_to_order(a.times(m), b.times(m), g.size_places);
    if j < g.multipliers.len() {
        let n = g.multipliers[j];
        product_is_number(a, n);
        lemma_times_commutes(a, m);
        lemma_times_commutes(a, n);
        products_keep_order(m, n, a);
        lemma_rounded_to_order(a.times(m), a.times(n), g.size_places);
    }
    times_one(a);
}

/// No level is left out that is large enough and has a positive price: that price is quoted.
pub proof fn no_level_is_left_out(g: Grid, buy: bool, n: int, i: int)
    requires
        0 <= i < n,
        g.min_size.at_most(g.size(i)),
        of_int(10).at_most(g.size(i).times(g.mid)),
        zero().less(if buy { g.bid(i) } else { g.ask(i) }),
    ensures
        has_price(g.side(buy, n), if buy { g.bid(i) } else { g.ask(i) }),
    decreases n,
{
    let price = if buy { g.bid(i) } else { g.ask(i) };
    let before = g.side(buy, n - 1);
    let all = g.side(buy, n);
    if i < n - 1 {
        no_level_is_left_out(g, buy, n - 1, i);
        let k = choose|k: int| 0 <= k < before.len() && (#[trigger] before[k]).price == price;
        assert(all[k] == before[k]);
    } else if has_price(before, price) {
        let k = choose|k: int| 0 <= k < before.len() && (#[trigger] before[k]).price == price;
        assert(all[k] == before[k]);
    } else {
        assert(all[before.len() as int].price == price);
    }
}

// ---- recent profits -------------------------------------------------------------------------------------------------

proof fn lemma_running_order(a: Seq<Double>, b: Seq<Double>, n: int)
    requires
        a.len() == b.len(),
        0 <= n <= a.len(),
        forall|i: int| 0 <= i < a.len() ==> (#[trigger] a[i]).at_most(#[trigger] b[i]),
        !running_sum(a, n).is_nan(),
        !running_sum(b, n).is_nan(),
    ensures
        running_sum(a, n).at_most(running_sum(b, n)),
    decreases n,
{
    assert(mag(0) == 0);
    if n > 0 {
        let x = running_sum(a, n - 1);
        let y = running_sum(b, n - 1);
        numbers_come_from_numbers(x, a[n - 1]);
        numbers_come_from_numbers(y, b[n - 1]);
        lemma_running_order(a, b, n - 1);
        assert(a[n - 1].at_most(b[n - 1]));
        assert(x.value() <= y.value() && a[n - 1].value() <= b[n - 1].value());
        lemma_sum_order(x, y, a[n - 1], b[n - 1]);
    }
}

/// Sums grow with both their parts.
proof fn lemma_sum_order(x: Double, y: Double, a: Double, b: Double)
    requires
        x.at_most(y),
        a.at_most(b),
        !x.plus(a).is_nan(),
        !y.plus(b).is_nan(),
    ensures
        x.plus(a).at_most(y.plus(b)),
{
    assert(nan().is_nan());
    if y.is_finite() && a.is_finite() {
        crate::order::lemma_plus_value(y, a);
    }
    if x.is_finite() && b.is_finite() {
        crate::order::lemma_plus_value(x, b);
    }
    if !y.plus(a).is_nan() {
        sums_keep_order(x, y, a);
        sums_keep_order(a, b, y);
    } else if !x.plus(b).is_nan() {
        sums_keep_order(a, b, x);
        sums_keep_order(x, y, b);
    } else {
        crate::order::lemma_extremes(x);
        crate::order::lemma_extremes(y);
        crate::order::lemma_extremes(a);
        crate::order::lemma_extremes(b);
        crate::order::lemma_extremes(x.plus(a));
        crate::order::lemma_extremes(y.plus(b));
        assert(a.is_inf() ==> a == make(a.neg(), INF as int));
        assert(x.is_inf() ==> x == make(x.neg(), INF as int));
        assert(y.is_inf() ==> y == make(y.neg(), INF as int));
        assert(b.is_inf() ==> b == make(b.neg(), INF as int));
    }
}

/// The mean of the recent profits: of one it is that one, of none it is nothing, and it does not
/// fall where none of them does.
pub proof fn recent_profits_are_averaged(a: Seq<Double>, b: Seq<Double>)
    requires
        a.len() == b.len(),
        1 <= a.len() <= 0xffff_ffff,
        forall|i: int| 0 <= i < a.len() ==> (#[trigger] a[i]).at_most(#[trigger] b[i]),
        !mean_rt_pnl(a).is_nan(),
        !mean_rt_pnl(b).is_nan(),
    ensures
        mean_rt_pnl(a).at_most(mean_rt_pnl(b)),
        a.len() == 1 ==> mean_rt_pnl(a).equal(a[0]),
        mean_rt_pnl(Seq::empty()) == zero(),
{
    let n = a.len();
    let c = of_int(n as int);
    lemma_count(n);
    let x = running_sum(a, n as int);
    let y = running_sum(b, n as int);
    numbers_come_from_numbers(x, c);
    numbers_come_from_numbers(y, c);
    lemma_running_order(a, b, n as int);
    quotients_keep_order(x, y, c);
    if n == 1 {
        reveal_with_fuel(running_sum, 3);
        assert(mag(0) == 0);
        assert(a[0].at_most(b[0]));
        lemma_value(zero());
        lemma_add_nothing(zero().negated(), a[0]);
        lemma_over_one(x);
    }
}

// ---- rounding -------------------------------------------------------------------------------------------------------

/// The whole number nearest to a number that is not negative.
proof fn lemma_nearest_whole(q: Double) -> (w: nat)
    requires
        q.is_finite(),
        mag(q.index()) <= 0x4_0000_0000_0000 * one_unit(),
    ensures
        w <= 0x4_0000_0000_0001,
        mag(q.nearest_whole().index()) == w * one_unit(),
        q.nearest_whole().neg() == q.neg(),
        q.nearest_whole().is_finite(),
        2 * (w * one_unit()) <= 2 * mag(q.index()) + one_unit(),
        2 * mag(q.index()) < 2 * (w * one_unit()) + one_unit(),
        q.nearest_whole().whole() == w,
{
    let u = one_unit();
    lemma_pow2_pos(UNIT as nat);
    let m = mag(q.index());
    let w = (2 * m + u) / (2 * u);
    crate::bounds::lemma_whole_part(2 * m + u, 2 * u);
    assert(w * (2 * u) == 2 * (w * u) && (w + 1) * (2 * u) == 2 * (w * u) + 2 * u)
        by (nonlinear_arith);
    assert(w <= 0x4_0000_0000_0001) by (nonlinear_arith)
        requires
            2 * (w * u) <= 2 * m + u,
            m <= 0x4_0000_0000_0000 * u,
            u > 0,
    ;
    integers_are_exact(w);
    lemma_rounded(q.neg(), w * u, 1);
    lemma_rounded(false, w * u, 1);
    assert((w * u) / u == w) by (nonlinear_arith)
        requires
            u > 0,
    ;
    w
}

/// The spread in ticks is the whole number nearest to twice the half spread over the tick, but for
/// rounding.
pub proof fn spreads_are_counted_in_ticks(delta: Double, tick: Double)
    requires
        zero().at_most(delta),
        delta.is_finite(),
        positive(tick),
        delta.value() <= 0x1000_0000 * tick.value(),
        delta.times(of_int(2)).is_finite(),
    ensures
        ({
            let k = grid_ticks(delta, tick);
            let t = tick.value();
            let y = 2 * delta.value();
            &&& P53 * (2 * (k * t)) <= P53 * (2 * y + t) + 4 * y + 2 * t
            &&& P53 * (2 * y) <= P53 * (2 * (k * t) + t) + 4 * y + 2 * t
        }),
{
    let u = one_unit();
    let p = P53 as int;
    lemma_room();
    assert(mag(0) == 0);
    lemma_count(2);
    lemma_value(delta);
    lemma_value(tick);
    let d = mag(delta.index());
    let two = of_int(2);
    let y = delta.times(two);
    // doubling is exact
    let j = crate::market_laws::lemma_doubled(delta.index());
    crate::order::lemma_extended(2 * d, 1, u);
    assert(d * mag(two.index()) == (2 * d) * u) by (nonlinear_arith)
        requires
            mag(two.index()) == 2 * u,
    ;
    lemma_rounded(delta.neg() != two.neg(), d * mag(two.index()), u);
    assert(y.index() == nearest(2 * d, 1));
    assert(j < INF) by {
        if j >= INF {
            lemma_mag_order(INF as int, j);
            crate::order::lemma_rounding_exact(INF as int);
            crate::order::lemma_rounding_monotone(mag(INF as int), 2 * d, 1);
            crate::order::lemma_rounding_exists(2 * d, 1);
        }
    }
    crate::order::lemma_rounding_exact(j);
    let yv = mag(y.index());
    assert(yv == 2 * d);
    let t = mag(tick.index());
    let q = y.over(tick);
    lemma_rounded(y.neg() != tick.neg(), yv * u, t);
    let qv = mag(q.index());
    lemma_value(y);
    lemma_quotient_error(yv, t, 0x2000_0000);
    assert(qv <= 0x4000_0000 * u) by (nonlinear_arith)
        requires
            p * (qv * t) <= p * (yv * u) + 2 * (yv * u) + p * t,
            yv <= 0x2000_0000 * t,
            t > 0,
            u >= 1,
            p == 0x20_0000_0000_0000,
    {
        assert(yv * u <= (0x2000_0000 * t) * u);
        assert(p * (qv * t) <= (p + 2) * ((0x2000_0000 * u) * t) + p * t);
        assert(qv * t <= (0x3000_0000 * u) * t + t);
        assert(qv * t <= (0x4000_0000 * u) * t);
    }
    let w = lemma_nearest_whole(q);
    let r = q.nearest_whole();
    let k = grid_ticks(delta, tick);
    lemma_value(r);
    assert(w <= 0x4000_0001) by (nonlinear_arith)
        requires
            2 * (w * u) <= 2 * qv + u,
            qv <= 0x4000_0000 * u,
            u > 0,
    ;
    assert(k == w) by {
        if q.neg() {
            assert(yv == 0);
            assert(yv * u == 0) by (nonlinear_arith)
                requires
                    yv == 0,
            ;
            crate::order::lemma_zero_rounding(t);
            assert(w == 0) by (nonlinear_arith)
                requires
                    2 * (w * u) <= u,
                    u > 0,
            ;
        }
    }
    lemma_counted(w as int, t as int, yv as int, qv as int, u as int);
}

/// From the whole number of a quotient to the number of ticks.
proof fn lemma_counted(w: int, t: int, y: int, q: int, u: int)
    requires
        2 * (w * u) <= 2 * q + u,
        2 * q < 2 * (w * u) + u,
        P53 * (q * t) <= P53 * (y * u) + 2 * (y * u) + P53 * t,
        P53 * (y * u) <= P53 * (q * t) + 2 * (y * u) + P53 * t,
        t > 0,
        u >= P53,
        y >= 0,
    ensures
        P53 * (2 * (w * t)) <= P53 * (2 * y + t) + 4 * y + 2 * t,
        P53 * (2 * y) <= P53 * (2 * (w * t) + t) + 4 * y + 2 * t,
{
    let p = P53 as int;
    let a = q * t;
    let yu = y * u;
    let tu = t * u;
    let wt = w * t;
    let wu = wt * u;
    assert(2 * wu <= 2 * a + tu && 2 * a <= 2 * wu + tu) by (nonlinear_arith)
        requires
            2 * (w * u) <= 2 * q + u,
            2 * q < 2 * (w * u) + u,
            a == q * t,
            tu == t * u,
            wu == (w * t) * u,
            t > 0,
    {
        assert((2 * (w * u)) * t <= (2 * q + u) * t);
        assert((2 * q) * t <= (2 * (w * u) + u) * t);
    }
    assert(p * t <= tu) by (nonlinear_arith)
        requires
            tu == t * u,
            u >= p,
            t > 0,
    ;
    let x1 = p * (2 * wt);
    let z1 = p * (2 * y + t) + 4 * y + 2 * t;
    assert(x1 * u == p * (2 * wu)) by (nonlinear_arith)
        requires
            x1 == p * (2 * wt),
            wu == wt * u,
    ;
    assert(z1 * u == 2 * (p * yu) + p * tu + 4 * yu + 2 * tu) by (nonlinear_arith)
        requires
            z1 == p * (2 * y + t) + 4 * y + 2 * t,
            yu == y * u,
            tu == t * u,
    ;
    assert(p * (2 * wu) <= 2 * (p * a) + p * tu) by (nonlinear_arith)
        requires
            2 * wu <= 2 * a + tu,
            p > 0,
    ;
    assert(x1 <= z1) by (nonlinear_arith)
        requires
            x1 * u <= z1 * u,
            u > 0,
    ;
    let x2 = p * (2 * y);
    let z2 = p * (2 * wt + t) + 4 * y + 2 * t;
    assert(x2 * u == 2 * (p * yu)) by (nonlinear_arith)
        requires
            x2 == p * (2 * y),
            yu == y * u,
    ;
    assert(z2 * u == p * (2 * wu) + p * tu + 4 * yu + 2 * tu) by (nonlinear_arith)
        requires
            z2 == p * (2 * wt + t) + 4 * y + 2 * t,
            yu == y * u,
            tu == t * u,
            wu == wt * u,
    ;
    assert(2 * (p * a) <= p * (2 * wu) + p * tu) by (nonlinear_arith)
        requires
            2 * a <= 2 * wu + tu,
            p > 0,
    ;
    assert(x2 <= z2) by (nonlinear_arith)
        requires
            x2 * u <= z2 * u,
            u > 0,
    ;
}

/// A quotient is off by two parts in 2^53 at most, and a tiny bit.
proof fn lemma_quotient_error(y: nat, t: nat, bound: nat)
    requires
        t > 0,
        y <= bound * t,
        bound <= 0x4_0000_0000_0000,
    ensures
        ({
            let u = one_unit();
            let q = mag(nearest(y * u, t));
            &&& P53 * (q * t) <= P53 * (y * u) + 2 * (y * u) + P53 * t
            &&& P53 * (y * u) <= P53 * (q * t) + 2 * (y * u) + P53 * t
            &&& nearest(y * u, t) < INF
        }),
{
    let u = one_unit();
    let p = P53 as int;
    lemma_room();
    let i = nearest(y * u, t);
    let q = mag(i);
    assert(y * u <= vstd::arithmetic::power2::pow2(2000) * t) by (nonlinear_arith)
        requires
            y <= bound * t,
            bound <= 0x4_0000_0000_0000,
            vstd::arithmetic::power2::pow2(2000)
                >= 0x1_0000_0000_0000_0000_0000_0000_0000_0000nat * u,
    {
        assert(y * u <= (bound * t) * u);
        assert((bound * t) * u <= (0x4_0000_0000_0000 * u) * t);
    }
    crate::order::lemma_no_overflow(y * u, t);
    crate::order::lemma_rounding_exists(y * u, t);
    if i >= crate::double::P52 {
        crate::order::lemma_normal_error(y * u, t);
        assert(p * (q * t) <= p * (y * u) + 2 * (y * u) && p * (y * u) <= p * (q * t) + 2 * (y * u))
            by (nonlinear_arith)
            requires
                (p - 1) * (q * t) <= p * (y * u),
                p * (y * u) <= (p + 1) * (q * t),
                q * t >= 0,
                y * u >= 0,
                p == 0x20_0000_0000_0000,
        ;
    } else {
        lemma_tiny_quotient(y * u, t);
    }
}

/// Below the normal magnitudes a quotient is off by half a unit at most.
proof fn lemma_tiny_quotient(num: nat, den: nat)
    requires
        den > 0,
        nearest(num, den) < crate::double::P52,
    ensures
        P53 * (mag(nearest(num, den)) * den) <= P53 * num + 2 * num + P53 * den,
        P53 * num <= P53 * (mag(nearest(num, den)) * den) + 2 * num + P53 * den,
{
    crate::order::lemma_rounding_exists(num, den);
    let i = nearest(num, den);
    lemma_mag_order(i, i + 1);
    crate::double::lemma_mag_step(i);
    let m = mag(i);
    vstd::arithmetic::power2::lemma2_to64();
    assert(mag(i + 1) == m + 1);
    if i > 0 {
        crate::double::lemma_mag_step(i - 1);
        assert(mag(i - 1) == m - 1);
        assert(m * den <= num + den) by (nonlinear_arith)
            requires
                2 * num >= (m - 1 + m) * den,
        ;
    } else {
        assert(m * den == 0) by (nonlinear_arith)
            requires
                m == 0,
        ;
    }
    assert(num <= m * den + den) by (nonlinear_arith)
        requires
            2 * num <= (m + m + 1) * den,
    ;
    let a = m * den;
    assert(P53 * a <= P53 * (num + den) && P53 * num <= P53 * (a + den)) by (nonlinear_arith)
        requires
            a <= num + den,
            num <= a + den,
    ;
}

/// Any quotient is off by two parts in 2^53 at most, and a unit.
proof fn lemma_any_error(num: nat, den: nat)
    requires
        den > 0,
        num <= vstd::arithmetic::power2::pow2(2000) * den,
    ensures
        ({
            let m = mag(nearest(num, den)) * den;
            &&& P53 * m <= P53 * num + 2 * num + P53 * den
            &&& P53 * num <= P53 * m + 2 * num + P53 * den
            &&& nearest(num, den) < INF
        }),
{
    let p = P53 as int;
    crate::order::lemma_no_overflow(num, den);
    let m = mag(nearest(num, den)) * den;
    if nearest(num, den) >= crate::double::P52 {
        crate::order::lemma_normal_error(num, den);
        assert(p * m <= p * num + 2 * num && p * num <= p * m + 2 * num) by (nonlinear_arith)
            requires
                (p - 1) * m <= p * num,
                p * num <= (p + 1) * m,
                m >= 0,
                num >= 0,
                p == 0x20_0000_0000_0000,
        ;
        assert(p * den >= 0) by (nonlinear_arith)
            requires
                den > 0,
                p > 0,
        ;
    } else {
        lemma_tiny_quotient(num, den);
    }
}

/// A power of ten that a size or price can have for its decimals.
pub open spec fn usual_decimals(places: u32) -> bool {
    of_int(1).at_most(tens(places)) && tens(places).at_most(of_int(0x1_0000_0000))
}

/// The steps of rounding to decimals, where `w` is the whole number that is taken.
proof fn lemma_decimal_steps(x: Double, places: u32)
    requires
        zero().at_most(x),
        x.is_finite(),
        usual_decimals(places),
        x.value() * tens(places).value() <= 0x1_0000_0000_0000 * (one_unit() * one_unit()),
    ensures
        ({
            let u = one_unit();
            let t = tens(places);
            let z = x.times(t);
            let a = x.value() * t.value();
            &&& positive(t)
            &&& z.is_finite()
            &&& z.value() == mag(z.index())
            &&& mag(z.index()) <= 0x2_0000_0000_0000 * u
            &&& P53 * (mag(z.index()) * u) <= P53 * a + 2 * a + P53 * u
            &&& P53 * a <= P53 * (mag(z.index()) * u) + 2 * a + P53 * u
        }),
{
    let u = one_unit();
    let p = P53 as int;
    lemma_room();
    lemma_count(1);
    integers_are_exact(0x1_0000_0000);
    assert(mag(0) == 0);
    let t = tens(places);
    lemma_value(x);
    lemma_value(t);
    lemma_mag_order(of_int(0x1_0000_0000).index(), INF as int);
    lemma_mag_order(t.index(), INF as int);
    let z = x.times(t);
    let xv = mag(x.index());
    let tv = mag(t.index());
    let a = xv * tv;
    lemma_rounded(x.neg() != t.neg(), a, u);
    assert(a <= vstd::arithmetic::power2::pow2(2000) * u) by (nonlinear_arith)
        requires
            a <= 0x1_0000_0000_0000 * (u * u),
            vstd::arithmetic::power2::pow2(2000)
                >= 0x1_0000_0000_0000_0000_0000_0000_0000_0000nat * u,
            u > 0,
    {
        assert(0x1_0000_0000_0000 * (u * u) == (0x1_0000_0000_0000 * u) * u);
    }
    lemma_any_error(a, u);
    let zv = mag(z.index());
    lemma_value(z);
    assert(z.value() == zv) by {
        if x.neg() {
            assert(xv == 0);
            assert(a == 0) by (nonlinear_arith)
                requires
                    a == xv * tv,
                    xv == 0,
            ;
            crate::order::lemma_zero_rounding(u);
        }
    }
    assert(zv <= 0x2_0000_0000_0000 * u) by (nonlinear_arith)
        requires
            p * (zv * u) <= p * a + 2 * a + p * u,
            a <= 0x1_0000_0000_0000 * (u * u),
            u >= 0x1_0000_0000_0000_0000_0000_0000_0000_0000nat,
            p == 0x20_0000_0000_0000,
    {
        assert(p * u <= u * u);
        assert(p * (zv * u) <= (p + 2) * (0x1_0000_0000_0000 * (u * u)) + u * u);
        assert(p * (zv * u) <= p * ((0x2_0000_0000_0000 * u) * u));
        assert(zv * u <= (0x2_0000_0000_0000 * u) * u);
    }
}

/// A whole number over the power of ten.
proof fn lemma_whole_over(r: Double, w: nat, places: u32)
    requires
        usual_decimals(places),
        r.is_finite(),
        mag(r.index()) == w * one_unit(),
        w <= 0x4_0000_0000_0001,
    ensures
        ({
            let u = one_unit();
            let t = tens(places);
            let y = r.over(t);
            let b = w * (u * u);
            &&& y.is_finite()
            &&& y.neg() == r.neg()
            &&& P53 * (mag(y.index()) * t.value()) <= P53 * b + 2 * b + P53 * t.value()
            &&& P53 * b <= P53 * (mag(y.index()) * t.value()) + 2 * b + P53 * t.value()
        }),
{
    let u = one_unit();
    lemma_room();
    lemma_count(1);
    integers_are_exact(0x1_0000_0000);
    assert(mag(0) == 0);
    let t = tens(places);
    lemma_value(t);
    lemma_mag_order(of_int(0x1_0000_0000).index(), INF as int);
    lemma_mag_order(t.index(), INF as int);
    let tv = mag(t.index());
    let num = (w * u) * u;
    assert(num == w * (u * u)) by (nonlinear_arith)
        requires
            num == (w * u) * u,
    ;
    lemma_rounded(r.neg() != t.neg(), num, tv);
    assert(num <= vstd::arithmetic::power2::pow2(2000) * tv) by (nonlinear_arith)
        requires
            num == (w * u) * u,
            w <= 0x4_0000_0000_0001,
            tv >= u,
            vstd::arithmetic::power2::pow2(2000)
                >= 0x1_0000_0000_0000_0000_0000_0000_0000_0000nat * u,
            u > 0,
    {
        assert(w * u <= 0x4_0000_0000_0001 * u);
        assert((w * u) * u <= (0x4_0000_0000_0001 * u) * u);
        assert((0x4_0000_0000_0001 * u) * u <= (0x4_0000_0000_0001 * u) * tv);
    }
    lemma_any_error(num, tv);
}

/// A number that is rounded to decimals is the nearest one that has them: it is off by half a step
/// of the last decimal at most, but for rounding.
pub proof fn decimals_are_the_nearest(x: Double, places: u32)
    requires
        zero().at_most(x),
        x.is_finite(),
        usual_decimals(places),
        x.value() * tens(places).value() <= 0x1_0000_0000_0000 * (one_unit() * one_unit()),
    ensures
        ({
            let uu = one_unit() * one_unit();
            let t = tens(places).value();
            let a = x.value() * t;
            let b = rounded_to(x, places).value() * t;
            &&& rounded_to(x, places).is_finite()
            &&& P53 * (2 * b) <= P53 * (2 * a + uu) + 16 * (a + uu)
            &&& P53 * (2 * a) <= P53 * (2 * b + uu) + 16 * (a + uu)
        }),
{
    let u = one_unit();
    lemma_room();
    lemma_decimal_steps(x, places);
    let t = tens(places);
    let z = x.times(t);
    let w = lemma_nearest_whole(z);
    let r = z.nearest_whole();
    lemma_whole_over(r, w, places);
    let y = rounded_to(x, places);
    lemma_value(y);
    assert(mag(0) == 0);
    lemma_value(z);
    assert(y.value() == mag(y.index())) by {
        if z.neg() {
            assert(mag(z.index()) == 0);
            assert(w == 0) by (nonlinear_arith)
                requires
                    2 * (w * u) <= u,
                    u > 0,
            ;
            assert(w * u == 0) by (nonlinear_arith)
                requires
                    w == 0,
            ;
            lemma_value(r);
            crate::order::lemma_zero_quotient(r, t);
        }
    }
    integers_are_exact(0x1_0000_0000);
    lemma_rounded_chain(
        x.value() * t.value(),
        mag(z.index()) as int,
        w as int,
        y.value() * t.value(),
        t.value(),
        u as int,
    );
}

proof fn lemma_rounded_chain(a: int, z: int, w: int, b: int, t: int, u: int)
    requires
        a >= 0,
        z >= 0,
        w >= 0,
        u >= 0x1_0000_0000_0000_0000_0000_0000_0000_0000int,
        0 < t <= 0x1_0000_0000 * u,
        P53 * (z * u) <= P53 * a + 2 * a + P53 * u,
        P53 * a <= P53 * (z * u) + 2 * a + P53 * u,
        2 * (w * u) <= 2 * z + u,
        2 * z < 2 * (w * u) + u,
        P53 * b <= P53 * (w * (u * u)) + 2 * (w * (u * u)) + P53 * t,
        P53 * (w * (u * u)) <= P53 * b + 2 * (w * (u * u)) + P53 * t,
    ensures
        P53 * (2 * b) <= P53 * (2 * a + u * u) + 16 * (a + u * u),
        P53 * (2 * a) <= P53 * (2 * b + u * u) + 16 * (a + u * u),
{
    let p = P53 as int;
    let uu = u * u;
    let zu = z * u;
    let c = w * uu;
    assert(2 * c <= 2 * zu + uu && 2 * zu <= 2 * c + uu) by (nonlinear_arith)
        requires
            c == w * uu,
            zu == z * u,
            uu == u * u,
            2 * (w * u) <= 2 * z + u,
            2 * z < 2 * (w * u) + u,
            u > 0,
    {
        assert((2 * (w * u)) * u <= (2 * z + u) * u);
        assert((2 * z) * u <= (2 * (w * u) + u) * u);
        assert((w * u) * u == w * (u * u));
    }
    assert(p * u <= uu && p * t <= uu) by (nonlinear_arith)
        requires
            uu == u * u,
            u >= 0x1_0000_0000_0000_0000_0000_0000_0000_0000int,
            0 < t <= 0x1_0000_0000 * u,
            p == 0x20_0000_0000_0000,
    {
        assert(p * t <= (0x20_0000_0000_0000 * 0x1_0000_0000) * u);
    }
    // everything is linear from here
    assert(p * zu <= (p + 2) * a + uu && (p - 2) * a <= p * zu + uu) by (nonlinear_arith)
        requires
            p * zu <= p * a + 2 * a + p * u,
            p * a <= p * zu + 2 * a + p * u,
            p * u <= uu,
    ;
    assert(p * b <= (p + 2) * c + uu && (p - 2) * c <= p * b + uu) by (nonlinear_arith)
        requires
            p * b <= p * c + 2 * c + p * t,
            p * c <= p * b + 2 * c + p * t,
            p * t <= uu,
    ;
    assert(uu >= 0 && c >= 0) by (nonlinear_arith)
        requires
            uu == u * u,
            c == w * uu,
            w >= 0,
    ;
    let k: int = 0x20_0000_0000_0000;
    assert(p == k);
    assert(k * zu <= (k + 2) * a + uu);
    assert((k - 2) * a <= k * zu + uu);
    assert(k * b <= (k + 2) * c + uu);
    assert((k - 2) * c <= k * b + uu);
}

/// A number that is cut to decimals is not above what it was, and less than a step of the last
/// decimal below it, but for rounding.
pub proof fn cut_decimals_are_below(x: Double, places: u32)
    requires
        zero().at_most(x),
        x.is_finite(),
        usual_decimals(places),
        x.value() * tens(places).value() <= 0x1_0000_0000_0000 * (one_unit() * one_unit()),
    ensures
        ({
            let uu = one_unit() * one_unit();
            let t = tens(places).value();
            let a = x.value() * t;
            let b = floored_to(x, places).value() * t;
            &&& floored_to(x, places).is_finite()
            &&& P53 * b <= P53 * a + 16 * (a + uu)
            &&& P53 * a <= P53 * (b + uu) + 16 * (a + uu)
        }),
{
    let u = one_unit();
    lemma_room();
    lemma_decimal_steps(x, places);
    let t = tens(places);
    let z = x.times(t);
    assert(mag(0) == 0);
    lemma_value(z);
    let m = mag(z.index());
    crate::order::lemma_integers(z);
    let f = crate::order::floor_of(z);
    let w = size_of(f);
    assert(f >= 0) by {
        if z.neg() {
            assert(z.value() == 0);
            assert(f == 0) by (nonlinear_arith)
                requires
                    f * u <= 0,
                    0 < (f + 1) * u,
                    u > 0,
            ;
        }
    }
    assert(w == f);
    assert(w <= 0x4_0000_0000_0001) by (nonlinear_arith)
        requires
            w * u <= m,
            m <= 0x2_0000_0000_0000 * u,
            u > 0,
    ;
    integers_are_exact(w);
    lemma_rounded(z.neg(), w * u, 1);
    lemma_rounded(false, w * u, 1);
    let r = z.floored();
    assert(mag(r.index()) == w * u);
    lemma_whole_over(r, w, places);
    let y = floored_to(x, places);
    lemma_value(y);
    assert(y.value() == mag(y.index())) by {
        if z.neg() {
            assert(w * u == 0) by (nonlinear_arith)
                requires
                    w == 0,
            ;
            lemma_value(r);
            crate::order::lemma_zero_quotient(r, t);
        }
    }
    integers_are_exact(0x1_0000_0000);
    lemma_cut_chain(
        x.value() * t.value(),
        m as int,
        w as int,
        y.value() * t.value(),
        t.value(),
        u as int,
    );
}

proof fn lemma_cut_chain(a: int, z: int, w: int, b: int, t: int, u: int)
    requires
        a >= 0,
        z >= 0,
        w >= 0,
        u >= 0x1_0000_0000_0000_0000_0000_0000_0000_0000int,
        0 < t <= 0x1_0000_0000 * u,
        P53 * (z * u) <= P53 * a + 2 * a + P53 * u,
        P53 * a <= P53 * (z * u) + 2 * a + P53 * u,
        w * u <= z,
        z < (w + 1) * u,
        P53 * b <= P53 * (w * (u * u)) + 2 * (w * (u * u)) + P53 * t,
        P53 * (w * (u * u)) <= P53 * b + 2 * (w * (u * u)) + P53 * t,
    ensures
        P53 * b <= P53 * a + 16 * (a + u * u),
        P53 * a <= P53 * (b + u * u) + 16 * (a + u * u),
{
    let uu = u * u;
    let zu = z * u;
    let c = w * uu;
    let k: int = 0x20_0000_0000_0000;
    assert(c <= zu && zu <= c + uu) by (nonlinear_arith)
        requires
            c == w * uu,
            zu == z * u,
            uu == u * u,
            w * u <= z,
            z < (w + 1) * u,
            u > 0,
    {
        assert((w * u) * u <= z * u);
        assert(z * u <= ((w + 1) * u) * u);
        assert((w * u) * u == w * (u * u));
        assert(((w + 1) * u) * u == w * (u * u) + u * u);
    }
    assert(k * u <= uu && k * t <= uu) by (nonlinear_arith)
        requires
            uu == u * u,
            u >= 0x1_0000_0000_0000_0000_0000_0000_0000_0000int,
            0 < t <= 0x1_0000_0000 * u,
            k == 0x20_0000_0000_0000,
    {
        assert(k * t <= (0x20_0000_0000_0000 * 0x1_0000_0000) * u);
    }
    assert(uu >= 0 && c >= 0) by (nonlinear_arith)
        requires
            uu == u * u,
            c == w * uu,
            w >= 0,
    ;
    assert(k * zu <= (k + 2) * a + uu);
    assert((k - 2) * a <= k * zu + uu);
    assert(k * b <= (k + 2) * c + uu);
    assert((k - 2) * c <= k * b + uu);
}

/// A step below one has as many decimals as bring its decimal logarithm to zero or above, and not one
/// more. A step of one or above has none.
pub proof fn decimals_bring_the_step_to_one(step: Double, log10: Double)
    requires
        !step.is_nan(),
        log10.is_finite(),
        log10.value() <= 0,
        -0x1_0000 * one_unit() <= log10.value(),
    ensures
        of_int(1).at_most(step) ==> decimals(step, log10) == 0,
        step.less(of_int(1)) ==> 0 <= decimals(step, log10) * one_unit() + log10.value()
            < one_unit(),
{
    let u = one_unit();
    lemma_room();
    lemma_count(1);
    assert(mag(0) == 0);
    lemma_value(log10);
    crate::order::lemma_integers(log10);
    let f = crate::order::floor_of(log10);
    let w = size_of(f);
    let v = log10.value();
    assert(-0x1_0001 <= f <= 0) by (nonlinear_arith)
        requires
            f * u <= v,
            v < (f + 1) * u,
            v <= 0,
            -0x1_0000 * u <= v,
            u > 0,
    ;
    integers_are_exact(w);
    lemma_rounded(log10.neg(), w * u, 1);
    lemma_rounded(false, w * u, 1);
    lemma_rounded(true, w * u, 1);
    let r = log10.floored();
    assert(mag(r.index()) == w * u);
    let n = r.negated();
    assert(mag(n.index()) == w * u);
    assert((w * u) / u == w) by (nonlinear_arith)
        requires
            u > 0,
    ;
    lemma_value(r);
    lemma_value(n);
    assert(n.truncated() == w) by {
        if n.neg() {
            assert(w == 0);
        }
    }
    assert(w == -f);
    if step.less(of_int(1)) {
        assert(decimals(step, log10) == w);
        assert(w * u == -(f * u)) by (nonlinear_arith)
            requires
                w == -f,
        ;
        assert((f + 1) * u == f * u + u) by (nonlinear_arith);
    }
}

} // verus!
