//! What holds of the order sizes: what raises and what lowers them, and by how much.
use vstd::arithmetic::power2::{lemma_pow2_pos, pow2};
use vstd::prelude::*;

use crate::bounds::{lemma_integer_error, lemma_ratio, lemma_value};
use crate::config::{decimals, Config};
use crate::double::{
    lemma_mag_order, mag, nearest, of_int, one_unit, quotient, zero, Double, INF, P52, P53, UNIT,
};
use crate::grid_laws::lemma_rounded_to_order;
use crate::matching_laws::positive;
use crate::order::{
    integers_are_exact, integers_keep_order, larger_divisors_leave_less, lemma_extended,
    lemma_plus_commutes, lemma_relative, lemma_rounded, lemma_rounding_exact, lemma_times_commutes,
    lemma_zero_product, numbers_come_from_numbers, product_sign, products_keep_order, quotient_sign,
    quotients_keep_order, sums_keep_order,
};
use crate::strategy::{rounded_to, size_factors, size_for};
use crate::ticks::lemma_room;
use crate::types::VolRegime;

verus! {

// ---- order ------------------------------------------------------------------------------------------

/// The larger of a number and a bound grows with the number.
pub proof fn floors_of_bounds_keep_order(a: Double, b: Double, m: Double)
    requires
        a.at_most(b),
    ensures
        a.larger(m).at_most(b.larger(m)),
{
}

/// What is held between two bounds grows with the number.
pub proof fn clamps_keep_order(a: Double, b: Double, lo: Double, hi: Double)
    requires
        a.at_most(b),
        lo.at_most(hi),
    ensures
        a.clamped(lo, hi).at_most(b.clamped(lo, hi)),
        lo.at_most(a.clamped(lo, hi)),
        a.clamped(lo, hi).at_most(hi),
{
}

/// A number times one is itself.
pub proof fn times_one(x: Double)
    requires
        !x.is_nan(),
    ensures
        x.times(of_int(1)) == x,
        of_int(1).times(x) == x,
{
    let u = one_unit();
    lemma_pow2_pos(UNIT as nat);
    integers_are_exact(1);
    assert(1 * u == u);
    let one = of_int(1);
    lemma_times_commutes(x, one);
    lemma_value(one);
    if x.is_finite() {
        lemma_extended(mag(x.index()), 1, u);
        lemma_rounding_exact(x.index());
        assert(mag(x.index()) * u == mag(x.index()) * mag(one.index()));
    }
}

/// A number over itself is one.
pub proof fn over_itself(x: Double)
    requires
        positive(x),
    ensures
        x.over(x) == of_int(1),
{
    let u = one_unit();
    lemma_pow2_pos(UNIT as nat);
    lemma_value(x);
    assert(mag(0) == 0);
    let m = mag(x.index());
    lemma_extended(u, 1, m);
    assert(m * u == u * m) by (nonlinear_arith);
    assert(1 * u == u);
}

/// A number that is not negative stays so when it is multiplied by a positive one.
proof fn lemma_scaled(x: Double, c: Double)
    requires
        zero().at_most(x),
        positive(c),
    ensures
        zero().at_most(x.times(c)),
{
    assert(mag(0) == 0);
    lemma_value(x);
    lemma_value(c);
    if x.is_finite() {
        crate::order::product_is_number(x, c);
    } else {
        lemma_extremes_of_product(x, c);
    }
    product_sign(x, c);
}

proof fn lemma_extremes_of_product(x: Double, c: Double)
    requires
        x.is_inf(),
        positive(c),
    ensures
        !x.times(c).is_nan(),
{
    assert(mag(0) == 0);
    lemma_value(c);
}

/// A number that is not negative over a positive one.
proof fn lemma_divided(x: Double, c: Double)
    requires
        zero().at_most(x),
        positive(c),
    ensures
        zero().at_most(x.over(c)),
{
    assert(mag(0) == 0);
    lemma_value(x);
    lemma_value(c);
    if x.is_finite() {
        lemma_rounded(x.neg() != c.neg(), mag(x.index()) * one_unit(), mag(c.index()));
    }
    quotient_sign(x, c);
}

/// Small quotients in their order.
pub proof fn ratios_keep_order(p: nat, q: nat, r: nat, s: nat)
    requires
        1 <= p <= 0xffff,
        1 <= r <= 0xffff,
        1 <= q <= 0xffff,
        1 <= s <= 0xffff,
        p * s <= r * q,
    ensures
        quotient(p, q).at_most(quotient(r, s)),
        positive(quotient(p, q)),
        positive(quotient(r, s)),
{
    let u = one_unit();
    lemma_pow2_pos(UNIT as nat);
    lemma_ratio(p, q);
    lemma_ratio(r, s);
    assert(mag(0) == 0);
    lemma_extended(p * u, q, s);
    lemma_extended(r * u, s, q);
    assert(q * s == s * q) by (nonlinear_arith);
    assert((p * u) * s <= (r * u) * q) by (nonlinear_arith)
        requires
            p * s <= r * q,
    ;
    assert(q * s > 0) by (nonlinear_arith)
        requires
            q >= 1,
            s >= 1,
    ;
    crate::order::lemma_rounding_monotone((p * u) * s, (r * u) * q, q * s);
    lemma_rounded(false, p * u, q);
    lemma_rounded(false, r * u, s);
    lemma_mag_order(quotient(p, q).index(), quotient(r, s).index());
}

/// A whole number as a quotient.
pub proof fn ratio_of_whole(n: nat, q: nat)
    requires
        1 <= q,
    ensures
        quotient(n * q, q) == of_int(n as int),
{
    let u = one_unit();
    lemma_pow2_pos(UNIT as nat);
    lemma_extended(n * u, 1, q);
    assert((n * u) * q == (n * q) * u) by (nonlinear_arith);
}

/// What lies between two positive finite numbers is one.
pub proof fn lies_between(a: Double, x: Double, b: Double)
    requires
        positive(a),
        a.at_most(x),
        x.at_most(b),
        b.is_finite(),
    ensures
        positive(x),
{
    lemma_value(x);
    lemma_value(b);
    lemma_mag_order(b.index(), INF as int);
}

// ---- sizes ------------------------------------------------------------------------------------------

/// A size before it is held to the smallest one and to its decimals: the notional over the
/// price, by its factors and the scale.
spec fn unheld(
    mid: Double,
    config: Config,
    size_scale: Double,
    spread_ticks: i32,
    recent_rt_pnl: Double,
    regime: VolRegime,
) -> Double {
    let f = size_factors(spread_ticks, recent_rt_pnl, regime);
    config.token.order_size_usd.over(mid).times(f.0).times(f.1).times(f.2).times(size_scale)
}

/// The share that volatility leaves.
spec fn share_left(volatility: Double) -> Double {
    of_int(1).over(of_int(1).plus(volatility.times(of_int(10)))).larger(quotient(4, 10))
}

spec fn held(x: Double, config: Config) -> Double {
    rounded_to(
        x.larger(config.token.min_size),
        decimals(config.token.min_size, config.logs.min_size_log10),
    )
}

proof fn lemma_size_form(
    mid: Double,
    config: Config,
    size_scale: Double,
    volatility: Double,
    spread_ticks: i32,
    recent_rt_pnl: Double,
    regime: VolRegime,
)
    requires
        zero().less(mid),
    ensures
        size_for(mid, config, size_scale, volatility, spread_ticks, recent_rt_pnl, regime) == held(
            unheld(mid, config, size_scale, spread_ticks, recent_rt_pnl, regime).times(
                share_left(volatility),
            ),
            config,
        ),
{
}

/// The factors are positive and finite.
proof fn lemma_factors(spread_ticks: i32, recent_rt_pnl: Double, regime: VolRegime)
    ensures
        positive(size_factors(spread_ticks, recent_rt_pnl, regime).0),
        positive(size_factors(spread_ticks, recent_rt_pnl, regime).1),
        positive(size_factors(spread_ticks, recent_rt_pnl, regime).2),
{
    lemma_one();
    ratios_keep_order(6, 10, 2, 1);
    ratio_of_whole(2, 1);
    ratios_keep_order(12, 10, 12, 10);
    ratios_keep_order(7, 10, 12, 10);
    ratios_keep_order(5, 10, 12, 10);
    lemma_spread_factor(spread_ticks);
    let n = of_int(spread_ticks as int).over(of_int(4));
    clamps_keep_order(n, n, quotient(6, 10), of_int(2));
    lies_between(quotient(6, 10), n.clamped(quotient(6, 10), of_int(2)), of_int(2));
}

proof fn lemma_one()
    ensures
        positive(of_int(1)),
        of_int(1).value() == one_unit(),
{
    lemma_pow2_pos(UNIT as nat);
    integers_are_exact(1);
    assert(1 * one_unit() == one_unit());
    assert(mag(0) == 0);
}

/// A number of ticks over four is a number.
proof fn lemma_spread_factor(spread_ticks: i32)
    ensures
        !of_int(spread_ticks as int).over(of_int(4)).is_nan(),
        !of_int(spread_ticks as int).is_nan(),
        positive(of_int(4)),
{
    let u = one_unit();
    lemma_pow2_pos(UNIT as nat);
    integers_are_exact(4);
    lemma_value(of_int(4));
    assert(mag(0) == 0);
    let n = of_int(spread_ticks as int);
    let k = (if spread_ticks < 0 {
        -(spread_ticks as int)
    } else {
        spread_ticks as int
    }) as nat;
    integers_are_exact(k);
    lemma_rounded(spread_ticks < 0, k * u, 1);
    lemma_rounded(n.neg(), mag(n.index()) * u, mag(of_int(4).index()));
}

/// A size before it is held is a number that is not negative.
proof fn lemma_unheld(
    mid: Double,
    config: Config,
    size_scale: Double,
    spread_ticks: i32,
    recent_rt_pnl: Double,
    regime: VolRegime,
)
    requires
        positive(mid),
        positive(config.token.order_size_usd),
        positive(size_scale),
    ensures
        zero().at_most(
            unheld(mid, config, size_scale, spread_ticks, recent_rt_pnl, regime),
        ),
{
    let f = size_factors(spread_ticks, recent_rt_pnl, regime);
    lemma_factors(spread_ticks, recent_rt_pnl, regime);
    let a = config.token.order_size_usd.over(mid);
    lemma_divided(config.token.order_size_usd, mid);
    lemma_scaled(a, f.0);
    lemma_scaled(a.times(f.0), f.1);
    lemma_scaled(a.times(f.0).times(f.1), f.2);
    lemma_scaled(a.times(f.0).times(f.1).times(f.2), size_scale);
}

/// The share that volatility leaves lies between four tenths and one, and is one where there is
/// none.
proof fn lemma_share(v: Double)
    requires
        zero().at_most(v),
    ensures
        positive(share_left(v)),
        quotient(4, 10).at_most(share_left(v)),
        share_left(v).at_most(of_int(1)),
        v.index() == 0 ==> share_left(v) == of_int(1),
{
    let ten = of_int(10);
    let one = of_int(1);
    lemma_one();
    integers_are_exact(10);
    lemma_value(ten);
    assert(mag(0) == 0);
    assert(10 * one_unit() > 0) by {
        lemma_pow2_pos(UNIT as nat);
    }
    lemma_scaled(v, ten);
    let t = v.times(ten);
    crate::order::adding_grows(one, t);
    let d = one.plus(t);
    assert(one.at_most(d));
    ratios_keep_order(4, 10, 1, 1);
    ratio_of_whole(1, 1);
    over_itself(one);
    lemma_value(d);
    if d.is_finite() {
        lemma_divided(one, d);
    }
    larger_divisors_leave_less(one, one, d);
    lies_between(quotient(4, 10), share_left(v), one);
    if v.index() == 0 {
        lemma_times_commutes(v, ten);
        lemma_zero_product(ten, v);
        lemma_value(t);
        let s = one.value() + t.value();
        assert(s == one.value());
        lemma_rounding_exact(one.index());
        lemma_rounded(false, mag(one.index()), 1);
        assert(d == one);
    }
}

/// Sizes grow with what they are held from.
proof fn lemma_held_order(a: Double, b: Double, config: Config)
    requires
        a.at_most(b),
        !held(a, config).is_nan(),
        !held(b, config).is_nan(),
    ensures
        held(a, config).at_most(held(b, config)),
{
    floors_of_bounds_keep_order(a, b, config.token.min_size);
    lemma_rounded_to_order(
        a.larger(config.token.min_size),
        b.larger(config.token.min_size),
        decimals(config.token.min_size, config.logs.min_size_log10),
    );
}

/// The order size does not rise with the volatility.
pub proof fn volatility_never_raises_sizes(
    mid: Double,
    config: Config,
    size_scale: Double,
    v1: Double,
    v2: Double,
    spread_ticks: i32,
    recent_rt_pnl: Double,
    regime: VolRegime,
)
    requires
        positive(mid),
        positive(config.token.order_size_usd),
        positive(size_scale),
        zero().at_most(v1),
        v1.at_most(v2),
        !size_for(mid, config, size_scale, v1, spread_ticks, recent_rt_pnl, regime).is_nan(),
        !size_for(mid, config, size_scale, v2, spread_ticks, recent_rt_pnl, regime).is_nan(),
    ensures
        size_for(mid, config, size_scale, v2, spread_ticks, recent_rt_pnl, regime).at_most(
            size_for(mid, config, size_scale, v1, spread_ticks, recent_rt_pnl, regime),
        ),
{
    let b = unheld(mid, config, size_scale, spread_ticks, recent_rt_pnl, regime);
    lemma_unheld(mid, config, size_scale, spread_ticks, recent_rt_pnl, regime);
    lemma_shares_order(v1, v2);
    lemma_share(v1);
    lemma_share(v2);
    let s1 = share_left(v1);
    let s2 = share_left(v2);
    lemma_scaled(b, s1);
    lemma_scaled(b, s2);
    lemma_times_commutes(b, s1);
    lemma_times_commutes(b, s2);
    products_keep_order(s2, s1, b);
    lemma_held_order(b.times(s2), b.times(s1), config);
}

proof fn lemma_shares_order(v1: Double, v2: Double)
    requires
        zero().at_most(v1),
        v1.at_most(v2),
    ensures
        share_left(v2).at_most(share_left(v1)),
{
    let ten = of_int(10);
    let one = of_int(1);
    lemma_one();
    integers_are_exact(10);
    lemma_value(ten);
    assert(mag(0) == 0);
    assert(10 * one_unit() > 0) by {
        lemma_pow2_pos(UNIT as nat);
    }
    lemma_scaled(v1, ten);
    lemma_scaled(v2, ten);
    let t1 = v1.times(ten);
    let t2 = v2.times(ten);
    products_keep_order(v1, v2, ten);
    crate::order::adding_grows(one, t1);
    crate::order::adding_grows(one, t2);
    lemma_plus_commutes(one, t1);
    lemma_plus_commutes(one, t2);
    sums_keep_order(t1, t2, one);
    let d1 = one.plus(t1);
    let d2 = one.plus(t2);
    lemma_value(d1);
    lemma_value(d2);
    if d1.is_finite() {
        lemma_divided(one, d1);
    }
    if d2.is_finite() {
        lemma_divided(one, d2);
    }
    larger_divisors_leave_less(one, d1, d2);
    floors_of_bounds_keep_order(one.over(d2), one.over(d1), quotient(4, 10));
}

/// A share `p` is one over one plus ten times the volatility, held at four tenths; a few parts
/// in 2^53 are left to rounding.
pub open spec fn share_of_volatility(p: Double, v: Double) -> bool {
    let u = one_unit() as int;
    let e = u + 10 * v.value();
    if p == quotient(4, 10) {
        10 * ((P53 - 6) * u) <= P53 * (4 * e)
    } else {
        &&& (P53 - 4) * (u * u) <= P53 * (p.value() * e)
        &&& P53 * (p.value() * e) <= (P53 + 4) * (u * u)
    }
}

proof fn lemma_share_chain(u: int, w: int, t: int, d: int, q: int)
    requires
        u > 0,
        w >= 0,
        t >= 0,
        d >= 0,
        q >= 0,
        (P53 - 1) * t <= P53 * w,
        P53 * w <= (P53 + 1) * t,
        (P53 - 1) * d <= P53 * (u + t),
        P53 * (u + t) <= (P53 + 1) * d,
        (P53 - 1) * (q * d) <= P53 * (u * u),
        P53 * (u * u) <= (P53 + 1) * (q * d),
    ensures
        (P53 - 4) * (u * u) <= P53 * (q * (u + w)),
        P53 * (q * (u + w)) <= (P53 + 4) * (u * u),
{
    let p = P53 as int;
    let a = p - 1;
    let b = p + 1;
    let e = u + w;
    let aa = a * a;
    let bb = b * b;
    let pp = p * p;
    assert(aa * d <= pp * e) by (nonlinear_arith)
        requires
            aa == a * a,
            pp == p * p,
            a == p - 1,
            e == u + w,
            a * t <= p * w,
            a * d <= p * (u + t),
            u > 0,
            p > 1,
    {
        assert(a * (a * d) <= a * (p * (u + t)));
        assert(a * (p * (u + t)) == p * (a * u) + p * (a * t));
        assert(p * (a * t) <= p * (p * w));
        assert(p * (a * u) <= p * (p * u));
        assert(p * (p * u) + p * (p * w) == pp * e);
        assert(a * (a * d) == aa * d);
    }
    assert(pp * e <= bb * d) by (nonlinear_arith)
        requires
            bb == b * b,
            pp == p * p,
            b == p + 1,
            e == u + w,
            p * w <= b * t,
            p * (u + t) <= b * d,
            u > 0,
            p > 1,
    {
        assert(b * (p * (u + t)) <= b * (b * d));
        assert(b * (p * (u + t)) == p * (b * u) + p * (b * t));
        assert(p * (p * w) <= p * (b * t));
        assert(p * (p * u) <= p * (b * u));
        assert(p * (p * u) + p * (p * w) == pp * e);
        assert(b * (b * d) == bb * d);
    }
    let uu = u * u;
    let qe = q * e;
    let qd = q * d;
    assert(aa * qd <= pp * qe && pp * qe <= bb * qd) by (nonlinear_arith)
        requires
            aa * d <= pp * e,
            pp * e <= bb * d,
            qe == q * e,
            qd == q * d,
            q >= 0,
    {
        assert(q * (aa * d) <= q * (pp * e));
        assert(q * (pp * e) <= q * (bb * d));
        assert(q * (aa * d) == aa * (q * d));
        assert(q * (pp * e) == pp * (q * e));
        assert(q * (bb * d) == bb * (q * d));
    }
    assert((p - 4) * uu <= p * qe) by (nonlinear_arith)
        requires
            aa * qd <= pp * qe,
            p * uu <= b * qd,
            aa == a * a,
            pp == p * p,
            a == p - 1,
            b == p + 1,
            uu >= 0,
            qe >= 0,
            p == 0x20_0000_0000_0000,
    {
        assert(aa * (p * uu) <= aa * (b * qd));
        assert(aa * (b * qd) == b * (aa * qd));
        assert(b * (aa * qd) <= b * (pp * qe));
        assert(aa * (p * uu) == p * (aa * uu));
        assert(b * (pp * qe) == p * (b * (p * qe)));
        assert(aa * uu <= b * (p * qe));
        assert((p - 4) * b <= aa);
        assert(((p - 4) * b) * uu <= aa * uu);
        assert(b * ((p - 4) * uu) <= b * (p * qe));
    }
    assert(p * qe <= (p + 4) * uu) by (nonlinear_arith)
        requires
            pp * qe <= bb * qd,
            a * qd <= p * uu,
            bb == b * b,
            pp == p * p,
            a == p - 1,
            b == p + 1,
            uu >= 0,
            qe >= 0,
            p == 0x20_0000_0000_0000,
    {
        assert(a * (pp * qe) <= a * (bb * qd));
        assert(a * (bb * qd) == bb * (a * qd));
        assert(bb * (a * qd) <= bb * (p * uu));
        assert(a * (pp * qe) == p * (a * (p * qe)));
        assert(bb * (p * uu) == p * (bb * uu));
        assert(a * (p * qe) <= bb * uu);
        assert(bb <= (p + 4) * a);
        assert(bb * uu <= ((p + 4) * a) * uu);
        assert(a * (p * qe) <= a * ((p + 4) * uu));
    }
}

proof fn lemma_share_of_volatility(v: Double)
    requires
        zero().at_most(v),
        v.at_most(of_int(1_000_000)),
    ensures
        share_of_volatility(share_left(v), v),
{
    let u = one_unit();
    lemma_room();
    lemma_one();
    lemma_value(v);
    assert(mag(0) == 0);
    integers_are_exact(1_000_000);
    integers_are_exact(10);
    let ten = of_int(10);
    let one = of_int(1);
    let w = 10 * v.value();
    let mv = mag(v.index());
    assert(v.value() == mv);
    // ten times the volatility
    let t = v.times(ten);
    assert(v.is_finite()) by {
        lemma_mag_order(of_int(1_000_000).index(), INF as int);
        lemma_mag_order(v.index(), INF as int);
    }
    lemma_extended(10 * mv, 1, u);
    assert(mv * mag(ten.index()) == (10 * mv) * u) by (nonlinear_arith)
        requires
            mag(ten.index()) == 10 * u,
    ;
    lemma_rounded(v.neg() != ten.neg(), mv * mag(ten.index()), u);
    assert(t.index() == nearest(10 * mv, 1));
    assert(10 * mv <= pow2(2000)) by (nonlinear_arith)
        requires
            mv <= 1_000_000 * u,
            pow2(2000) >= 0x1_0000_0000_0000_0000_0000_0000_0000_0000nat * u,
    ;
    crate::order::lemma_no_overflow(10 * mv, 1);
    lemma_integer_error(10 * mv);
    lemma_scaled(v, ten);
    lemma_value(t);
    let tv = t.value();
    assert(tv <= 20 * mv) by (nonlinear_arith)
        requires
            (P53 - 1) * tv <= P53 * (10 * mv),
            P53 == 0x20_0000_0000_0000,
            tv >= 0,
    ;
    // one more
    let d = one.plus(t);
    let sum = (u + tv) as nat;
    lemma_rounded(false, sum, 1);
    assert(sum <= pow2(2000)) by (nonlinear_arith)
        requires
            sum == u + tv,
            tv <= 20 * mv,
            mv <= 1_000_000 * u,
            pow2(2000) >= 0x1_0000_0000_0000_0000_0000_0000_0000_0000nat * u,
    ;
    crate::order::lemma_no_overflow(sum, 1);
    lemma_integer_error(sum);
    assert(d.index() == nearest(sum, 1));
    lemma_value(d);
    let dv = mag(d.index());
    // one over that
    assert(dv > 0 && dv <= 0x1_0000_0000 * u) by (nonlinear_arith)
        requires
            P53 * sum <= (P53 + 1) * dv,
            (P53 - 1) * dv <= P53 * sum,
            sum == u + tv,
            tv >= 0,
            tv <= 20 * mv,
            mv <= 1_000_000 * u,
            u > 0,
            P53 == 0x20_0000_0000_0000,
    ;
    let q = one.over(d);
    let uu = u * u;
    lemma_rounded(false, uu, dv);
    assert(P52 * dv <= uu && uu <= pow2(2000) * dv) by (nonlinear_arith)
        requires
            uu == u * u,
            dv <= 0x1_0000_0000 * u,
            2 * dv >= u,
            u >= 0x1_0000_0000_0000_0000_0000_0000_0000_0000nat,
            P52 == 0x10_0000_0000_0000,
            pow2(2000) >= 0x1_0000_0000_0000_0000_0000_0000_0000_0000nat * u,
    {
        assert(P52 * dv <= (0x10_0000_0000_0000 * 0x1_0000_0000) * u);
        assert((0x10_0000_0000_0000 * 0x1_0000_0000) * u <= u * u);
        assert(u * u <= (2 * u) * dv);
        assert((2 * u) * dv <= pow2(2000) * dv);
    }
    lemma_relative(uu, dv);
    assert(q.index() == nearest(uu, dv));
    lemma_value(q);
    lemma_share_chain(u as int, w, tv, dv as int, mag(q.index()) as int);
    let c = quotient(4, 10);
    lemma_ratio(4, 10);
    let s = share_left(v);
    if s == c {
        assert(q.value() <= c.value());
        let qv = q.value();
        let cv = c.value();
        let e = u + w;
        let p = P53 as int;
        assert(10 * ((p - 6) * u) <= p * (4 * e)) by (nonlinear_arith)
            requires
                (p - 4) * (u * u) <= p * (qv * e),
                qv <= cv,
                (p - 1) * (cv * 10) <= p * (4 * u),
                e >= u,
                u > 0,
                qv >= 0,
                p == 0x20_0000_0000_0000,
        {
            assert(p * (qv * e) <= p * (cv * e));
            assert((10 * (p - 1)) * ((p - 4) * (u * u)) <= (10 * (p - 1)) * (p * (cv * e)));
            assert((10 * (p - 1)) * (p * (cv * e)) == (p * e) * ((p - 1) * (cv * 10)));
            assert((p * e) * ((p - 1) * (cv * 10)) <= (p * e) * (p * (4 * u)));
            assert((10 * (p - 1)) * ((p - 4) * (u * u)) == ((10 * (p - 1)) * ((p - 4) * u)) * u);
            assert((p * e) * (p * (4 * u)) == (p * (p * (4 * e))) * u);
            assert((10 * (p - 1)) * ((p - 4) * u) <= p * (p * (4 * e)));
            assert((p - 6) * p <= (p - 1) * (p - 4));
            assert(((p - 6) * p) * (10 * u) <= ((p - 1) * (p - 4)) * (10 * u));
            assert(p * (10 * ((p - 6) * u)) <= p * (p * (4 * e)));
        }
    }
}

/// Volatility acts on the size as a scale does: as one over one plus ten times itself, but never
/// below four tenths.
pub proof fn volatility_acts_as_a_scale(
    mid: Double,
    config: Config,
    v: Double,
    spread_ticks: i32,
    recent_rt_pnl: Double,
    regime: VolRegime,
)
    requires
        positive(mid),
        positive(config.token.order_size_usd),
        zero().at_most(v),
        v.at_most(of_int(1_000_000)),
    ensures
        exists|p: Double|
            quotient(4, 10).at_most(p) && p.at_most(of_int(1)) && share_of_volatility(p, v)
                && size_for(mid, config, of_int(1), v, spread_ticks, recent_rt_pnl, regime)
                == #[trigger] size_for(mid, config, p, zero(), spread_ticks, recent_rt_pnl, regime),
{
    let p = share_left(v);
    lemma_share(v);
    lemma_share_of_volatility(v);
    lemma_share(zero());
    lemma_one();
    lemma_unheld(mid, config, of_int(1), spread_ticks, recent_rt_pnl, regime);
    lemma_unheld(mid, config, p, spread_ticks, recent_rt_pnl, regime);
    let x = unheld(mid, config, of_int(1), spread_ticks, recent_rt_pnl, regime);
    let y = unheld(mid, config, p, spread_ticks, recent_rt_pnl, regime);
    let f = size_factors(spread_ticks, recent_rt_pnl, regime);
    let b = config.token.order_size_usd.over(mid).times(f.0).times(f.1).times(f.2);
    numbers_come_from_numbers(b, p);
    times_one(b);
    times_one(y);
    assert(x == b && y == b.times(p));
    lemma_size_form(mid, config, of_int(1), v, spread_ticks, recent_rt_pnl, regime);
    lemma_size_form(mid, config, p, zero(), spread_ticks, recent_rt_pnl, regime);
    assert(size_for(mid, config, of_int(1), v, spread_ticks, recent_rt_pnl, regime) == size_for(
        mid,
        config,
        p,
        zero(),
        spread_ticks,
        recent_rt_pnl,
        regime,
    ));
}

/// How much a regime keeps orders back, in order.
pub open spec fn caution(regime: VolRegime) -> int {
    match regime {
        VolRegime::Low => 0,
        VolRegime::Normal => 0,
        VolRegime::High => 1,
        VolRegime::Extreme => 2,
    }
}

proof fn lemma_factors_order(k1: i32, k2: i32, g1: Double, g2: Double, r1: VolRegime, r2: VolRegime)
    requires
        k1 <= k2,
        g1.at_most(g2),
        caution(r2) <= caution(r1),
    ensures
        size_factors(k1, g1, r1).0.at_most(size_factors(k2, g2, r2).0),
        size_factors(k1, g1, r1).1.at_most(size_factors(k2, g2, r2).1),
        size_factors(k1, g1, r1).2.at_most(size_factors(k2, g2, r2).2),
{
    lemma_one();
    ratio_of_whole(1, 1);
    ratio_of_whole(2, 1);
    ratios_keep_order(6, 10, 2, 1);
    ratios_keep_order(7, 10, 1, 1);
    ratios_keep_order(1, 1, 12, 10);
    ratios_keep_order(7, 10, 12, 10);
    ratios_keep_order(5, 10, 7, 10);
    ratios_keep_order(5, 10, 1, 1);
    lemma_spread_factor(k1);
    lemma_spread_factor(k2);
    integers_keep_order(k1 as int, k2 as int);
    quotients_keep_order(of_int(k1 as int), of_int(k2 as int), of_int(4));
    clamps_keep_order(
        of_int(k1 as int).over(of_int(4)),
        of_int(k2 as int).over(of_int(4)),
        quotient(6, 10),
        of_int(2),
    );
    ratios_keep_order(1, 100, 2, 100);
    lemma_value(quotient(1, 100));
}

/// A step of the product keeps the order in both its factors.
proof fn lemma_step_order(x: Double, y: Double, a: Double, b: Double)
    requires
        zero().at_most(x),
        x.at_most(y),
        positive(a),
        positive(b),
        a.at_most(b),
    ensures
        zero().at_most(x.times(a)),
        x.times(a).at_most(y.times(b)),
{
    lemma_scaled(x, a);
    lemma_scaled(y, a);
    lemma_scaled(y, b);
    products_keep_order(x, y, a);
    lemma_times_commutes(y, a);
    lemma_times_commutes(y, b);
    products_keep_order(a, b, y);
}

/// The order size does not fall with the notional that is asked for, with the scale, with the
/// spread or with the recent profit; it does not rise with the price, nor where the market is
/// more agitated.
pub proof fn sizes_follow_their_causes(
    m1: Double,
    m2: Double,
    c1: Config,
    c2: Config,
    s1: Double,
    s2: Double,
    volatility: Double,
    k1: i32,
    k2: i32,
    g1: Double,
    g2: Double,
    r1: VolRegime,
    r2: VolRegime,
)
    requires
        positive(m1),
        positive(m2),
        positive(c1.token.order_size_usd),
        positive(c2.token.order_size_usd),
        positive(s1),
        positive(s2),
        zero().at_most(volatility),
        c2.token.min_size == c1.token.min_size,
        c2.logs.min_size_log10 == c1.logs.min_size_log10,
        m2.at_most(m1),
        c1.token.order_size_usd.at_most(c2.token.order_size_usd),
        s1.at_most(s2),
        k1 <= k2,
        g1.at_most(g2),
        caution(r2) <= caution(r1),
        !size_for(m1, c1, s1, volatility, k1, g1, r1).is_nan(),
        !size_for(m2, c2, s2, volatility, k2, g2, r2).is_nan(),
    ensures
        size_for(m1, c1, s1, volatility, k1, g1, r1).at_most(
            size_for(m2, c2, s2, volatility, k2, g2, r2),
        ),
{
    let d1 = c1.token.order_size_usd;
    let d2 = c2.token.order_size_usd;
    let f = size_factors(k1, g1, r1);
    let h = size_factors(k2, g2, r2);
    lemma_factors_order(k1, k2, g1, g2, r1, r2);
    lemma_factors(k1, g1, r1);
    lemma_factors(k2, g2, r2);
    lemma_divided(d1, m1);
    lemma_divided(d2, m1);
    lemma_divided(d2, m2);
    quotients_keep_order(d1, d2, m1);
    larger_divisors_leave_less(d2, m2, m1);
    let a1 = d1.over(m1);
    let a2 = d2.over(m2);
    lemma_step_order(a1, a2, f.0, h.0);
    lemma_step_order(a1.times(f.0), a2.times(h.0), f.1, h.1);
    lemma_step_order(a1.times(f.0).times(f.1), a2.times(h.0).times(h.1), f.2, h.2);
    lemma_step_order(
        a1.times(f.0).times(f.1).times(f.2),
        a2.times(h.0).times(h.1).times(h.2),
        s1,
        s2,
    );
    let v = share_left(volatility);
    lemma_share(volatility);
    let x = unheld(m1, c1, s1, k1, g1, r1);
    let y = unheld(m2, c2, s2, k2, g2, r2);
    lemma_step_order(x, y, v, v);
    lemma_size_form(m1, c1, s1, volatility, k1, g1, r1);
    lemma_size_form(m2, c2, s2, volatility, k2, g2, r2);
    lemma_held_order(x.times(v), y.times(v), c1);
}

/// Nothing that raises or lowers a size: a spread of four ticks, no recent profit or loss, and a
/// market as usual.
proof fn lemma_neutral(recent_rt_pnl: Double, regime: VolRegime)
    requires
        recent_rt_pnl.index() == 0,
        caution(regime) == 0,
    ensures
        size_factors(4, recent_rt_pnl, regime) == (of_int(1), of_int(1), of_int(1)),
{
    lemma_one();
    integers_are_exact(4);
    assert(mag(0) == 0);
    lemma_value(of_int(4));
    assert(4 * one_unit() > 0) by {
        lemma_pow2_pos(UNIT as nat);
    }
    over_itself(of_int(4));
    ratio_of_whole(1, 1);
    ratio_of_whole(2, 1);
    ratios_keep_order(6, 10, 1, 1);
    ratios_keep_order(1, 1, 2, 1);
    ratios_keep_order(1, 100, 2, 100);
    lemma_value(quotient(1, 100));
}

/// Where nothing raises or lowers it, an order is as large as its notional over the price, held
/// to the smallest size and rounded to its decimals.
pub proof fn undisturbed_sizes_are_notional_over_price(
    mid: Double,
    config: Config,
    regime: VolRegime,
)
    requires
        positive(mid),
        positive(config.token.order_size_usd),
        regime != VolRegime::High && regime != VolRegime::Extreme,
    ensures
        size_for(mid, config, of_int(1), zero(), 4, zero(), regime) == rounded_to(
            config.token.order_size_usd.over(mid).larger(config.token.min_size),
            decimals(config.token.min_size, config.logs.min_size_log10),
        ),
{
    assert(caution(regime) == 0);
    lemma_neutral(zero(), regime);
    lemma_share(zero());
    let x = config.token.order_size_usd.over(mid);
    lemma_divided(config.token.order_size_usd, mid);
    times_one(x);
    lemma_size_form(mid, config, of_int(1), zero(), 4, zero(), regime);
}

/// A wide spread acts on the size as a scale of a quarter for each tick, of six tenths at least
/// and two at most.
pub proof fn spread_acts_as_a_scale(mid: Double, config: Config, k: i32, f: Double, v: Double)
    requires
        positive(mid),
        positive(config.token.order_size_usd),
        zero().at_most(v),
        positive(f),
        k <= 2 ==> f == quotient(6, 10),
        3 <= k <= 8 ==> 4 * f.value() == k * one_unit(),
        k > 8 ==> f == of_int(2),
    ensures
        size_for(mid, config, of_int(1), v, k, zero(), VolRegime::Normal) == size_for(
            mid,
            config,
            f,
            v,
            4,
            zero(),
            VolRegime::Normal,
        ),
{
    let g = size_factors(k, zero(), VolRegime::Normal).0;
    lemma_one();
    lemma_spread_share(k, f);
    lemma_neutral(zero(), VolRegime::Normal);
    assert(size_factors(k, zero(), VolRegime::Normal) == (g, of_int(1), of_int(1))) by {
        assert(size_factors(4, zero(), VolRegime::Normal).1 == size_factors(
            k,
            zero(),
            VolRegime::Normal,
        ).1);
    }
    lemma_swap_scale(mid, config, f, v, k, zero(), VolRegime::Normal);
}

/// The factor of a spread.
proof fn lemma_spread_share(k: i32, f: Double)
    requires
        positive(f),
        k <= 2 ==> f == quotient(6, 10),
        3 <= k <= 8 ==> 4 * f.value() == k * one_unit(),
        k > 8 ==> f == of_int(2),
    ensures
        size_factors(k, zero(), VolRegime::Normal).0 == f,
{
    let u = one_unit();
    lemma_pow2_pos(UNIT as nat);
    lemma_spread_factor(k);
    integers_are_exact(4);
    integers_are_exact(2);
    lemma_value(of_int(4));
    assert(mag(0) == 0);
    ratios_keep_order(6, 10, 2, 1);
    ratio_of_whole(2, 1);
    let n = of_int(k as int);
    let q = n.over(of_int(4));
    lemma_spread_factor(2);
    lemma_spread_factor(8);
    integers_are_exact(8);
    lemma_exact_quarter(2, quotient(5, 10));
    lemma_exact_quarter(8, of_int(2));
    if k <= 2 {
        integers_keep_order(k as int, 2);
        quotients_keep_order(n, of_int(2), of_int(4));
        ratios_keep_order(5, 10, 6, 10);
        lemma_strict();
    } else if k <= 8 {
        lemma_exact_quarter(k as nat, f);
        ratios_keep_order(6, 10, 3, 4);
        lemma_ratio(3, 4);
        lemma_three_quarters();
        lemma_value(f);
        assert(3 * u <= k * u <= 8 * u) by (nonlinear_arith)
            requires
                3 <= k <= 8,
                u > 0,
        ;
        assert(quotient(6, 10).at_most(f));
        assert(of_int(2).value() == 2 * u);
        assert(4 * f.value() <= 8 * u);
        assert(f.at_most(of_int(2)));
    } else {
        integers_keep_order(8, k as int);
        quotients_keep_order(of_int(8), n, of_int(4));
        lemma_value(q);
        lemma_value(of_int(2));
        if q.value() == of_int(2).value() {
            lemma_mag_order(q.index(), of_int(2).index());
            lemma_mag_order(of_int(2).index(), q.index());
        }
    }
}

/// A half is less than six tenths.
proof fn lemma_strict()
    ensures
        quotient(5, 10).less(quotient(6, 10)),
{
    let u = one_unit();
    lemma_room();
    lemma_ratio(5, 10);
    lemma_ratio(6, 10);
    let a = quotient(5, 10).value();
    let b = quotient(6, 10).value();
    assert(a < b) by (nonlinear_arith)
        requires
            (P53 - 1) * (a * 10) <= P53 * (5 * u),
            P53 * (6 * u) <= (P53 + 1) * (b * 10),
            u > 0,
            b >= 0,
            P53 == 0x20_0000_0000_0000,
    ;
}

/// Three quarters are exact.
proof fn lemma_three_quarters()
    ensures
        4 * quotient(3, 4).value() == 3 * one_unit(),
{
    let u = one_unit();
    let w = pow2(1072);
    vstd::arithmetic::power2::lemma_pow2_adds(2, 1072);
    vstd::arithmetic::power2::lemma2_to64();
    assert(u == 4 * w);
    let i = lemma_three(w);
    crate::double::lemma_exact(4, i);
    crate::double::lemma_nearest(mag(i) * 4, 4, i);
    assert(mag(i) * 4 == 3 * u) by (nonlinear_arith)
        requires
            mag(i) == 3 * w,
            u == 4 * w,
    ;
    lemma_rounded(false, 3 * u, 4);
}

/// Three times a power of two is a magnitude.
proof fn lemma_three(w: nat) -> (i: int)
    requires
        w == pow2(1072),
    ensures
        0 <= i < INF,
        mag(i) == 3 * w,
{
    let e: nat = 1021;
    let q: int = 0x18_0000_0000_0000;
    vstd::arithmetic::power2::lemma_pow2_adds(51, 1021);
    vstd::arithmetic::power2::lemma2_to64();
    vstd::arithmetic::power2::lemma2_to64_rest();
    crate::double::lemma_mag_form(e, q);
    assert(q * pow2(e) == 3 * w) by (nonlinear_arith)
        requires
            w == 0x8_0000_0000_0000 * pow2(e),
            q == 0x18_0000_0000_0000,
    ;
    e * P52 + q
}

/// A quotient by four that is a double.
proof fn lemma_exact_quarter(k: nat, f: Double)
    requires
        2 <= k <= 8,
        k == 2 ==> f == quotient(5, 10),
        k > 2 ==> positive(f) && 4 * f.value() == k * one_unit() || f == of_int(2) && k == 8,
    ensures
        of_int(k as int).over(of_int(4)) == f,
{
    let u = one_unit();
    lemma_pow2_pos(UNIT as nat);
    integers_are_exact(k);
    integers_are_exact(4);
    integers_are_exact(2);
    crate::order::lemma_half();
    assert(mag(0) == 0);
    lemma_value(of_int(4));
    assert(positive(f) && 4 * f.value() == k * u) by {
        lemma_value(f);
    }
    lemma_value(f);
    let m = mag(f.index());
    crate::double::lemma_exact(4 * u, f.index());
    crate::double::lemma_nearest(m * (4 * u), 4 * u, f.index());
    assert((k * u) * u == m * (4 * u)) by (nonlinear_arith)
        requires
            4 * m == k * u,
    ;
}

/// A factor in place of the scale.
proof fn lemma_swap_scale(
    mid: Double,
    config: Config,
    f: Double,
    v: Double,
    k: i32,
    recent_rt_pnl: Double,
    regime: VolRegime,
)
    requires
        positive(mid),
        positive(config.token.order_size_usd),
        zero().at_most(v),
        positive(f),
        size_factors(k, recent_rt_pnl, regime) == (f, of_int(1), of_int(1)) || size_factors(
            k,
            recent_rt_pnl,
            regime,
        ) == (of_int(1), f, of_int(1)) || size_factors(k, recent_rt_pnl, regime) == (
            of_int(1),
            of_int(1),
            f,
        ),
    ensures
        size_for(mid, config, of_int(1), v, k, recent_rt_pnl, regime) == size_for(
            mid,
            config,
            f,
            v,
            4,
            zero(),
            VolRegime::Normal,
        ),
{
    lemma_neutral(zero(), VolRegime::Normal);
    let a = config.token.order_size_usd.over(mid);
    lemma_divided(config.token.order_size_usd, mid);
    lemma_scaled(a, f);
    times_one(a);
    times_one(a.times(f));
    lemma_size_form(mid, config, of_int(1), v, k, recent_rt_pnl, regime);
    lemma_size_form(mid, config, f, v, 4, zero(), VolRegime::Normal);
    assert(unheld(mid, config, of_int(1), k, recent_rt_pnl, regime) == a.times(f));
    assert(unheld(mid, config, f, 4, zero(), VolRegime::Normal) == a.times(f));
}

/// Recent profits of more than two cents act on the size as a scale of twelve tenths, recent
/// losses of more than one as one of seven tenths, and anything between leaves it.
pub proof fn profit_acts_as_a_scale(mid: Double, config: Config, profit: Double, v: Double)
    requires
        positive(mid),
        positive(config.token.order_size_usd),
        zero().at_most(v),
        !profit.is_nan(),
    ensures
        ({
            let size = size_for(mid, config, of_int(1), v, 4, profit, VolRegime::Normal);
            &&& profit.value() > quotient(2, 100).value() ==> size == size_for(
                mid,
                config,
                quotient(12, 10),
                v,
                4,
                zero(),
                VolRegime::Normal,
            )
            &&& profit.value() < -quotient(1, 100).value() ==> size == size_for(
                mid,
                config,
                quotient(7, 10),
                v,
                4,
                zero(),
                VolRegime::Normal,
            )
            &&& -quotient(1, 100).value() <= profit.value() <= quotient(2, 100).value() ==> size
                == size_for(mid, config, of_int(1), v, 4, zero(), VolRegime::Normal)
        }),
{
    lemma_neutral(zero(), VolRegime::Normal);
    lemma_one();
    ratios_keep_order(7, 10, 12, 10);
    ratios_keep_order(1, 100, 2, 100);
    lemma_value(quotient(1, 100));
    let f = size_factors(4, profit, VolRegime::Normal).1;
    assert(size_factors(4, profit, VolRegime::Normal) == (of_int(1), f, of_int(1)));
    lemma_swap_scale(mid, config, f, v, 4, profit, VolRegime::Normal);
}

/// An agitated market acts on the size as a scale of seven tenths, an extreme one as one of a
/// half; a calm one leaves it.
pub proof fn regime_acts_as_a_scale(mid: Double, config: Config, v: Double)
    requires
        positive(mid),
        positive(config.token.order_size_usd),
        zero().at_most(v),
    ensures
        size_for(mid, config, of_int(1), v, 4, zero(), VolRegime::High) == size_for(
            mid,
            config,
            quotient(7, 10),
            v,
            4,
            zero(),
            VolRegime::Normal,
        ),
        size_for(mid, config, of_int(1), v, 4, zero(), VolRegime::Extreme) == size_for(
            mid,
            config,
            quotient(5, 10),
            v,
            4,
            zero(),
            VolRegime::Normal,
        ),
        size_for(mid, config, of_int(1), v, 4, zero(), VolRegime::Low) == size_for(
            mid,
            config,
            of_int(1),
            v,
            4,
            zero(),
            VolRegime::Normal,
        ),
{
    lemma_neutral(zero(), VolRegime::Normal);
    lemma_neutral(zero(), VolRegime::Low);
    lemma_one();
    ratios_keep_order(5, 10, 7, 10);
    lemma_swap_scale(mid, config, quotient(7, 10), v, 4, zero(), VolRegime::High);
    lemma_swap_scale(mid, config, quotient(5, 10), v, 4, zero(), VolRegime::Extreme);
    lemma_swap_scale(mid, config, of_int(1), v, 4, zero(), VolRegime::Low);
}

/// No order is smaller than the smallest one, rounded to its decimals; without a price it is
/// that.
pub proof fn sizes_are_not_below_the_smallest(
    mid: Double,
    config: Config,
    size_scale: Double,
    volatility: Double,
    spread_ticks: i32,
    recent_rt_pnl: Double,
    regime: VolRegime,
)
    requires
        positive(config.token.min_size),
        !size_for(mid, config, size_scale, volatility, spread_ticks, recent_rt_pnl, regime).is_nan(),
        !rounded_to(
            config.token.min_size,
            decimals(config.token.min_size, config.logs.min_size_log10),
        ).is_nan(),
    ensures
        zero().less(mid) ==> rounded_to(
            config.token.min_size,
            decimals(config.token.min_size, config.logs.min_size_log10),
        ).at_most(
            size_for(mid, config, size_scale, volatility, spread_ticks, recent_rt_pnl, regime),
        ),
        mid.at_most(zero()) ==> size_for(
            mid,
            config,
            size_scale,
            volatility,
            spread_ticks,
            recent_rt_pnl,
            regime,
        ) == config.token.min_size,
{
    if zero().less(mid) {
        let places = decimals(config.token.min_size, config.logs.min_size_log10);
        let x = unheld(mid, config, size_scale, spread_ticks, recent_rt_pnl, regime).times(
            share_left(volatility),
        );
        lemma_size_form(
            mid,
            config,
            size_scale,
            volatility,
            spread_ticks,
            recent_rt_pnl,
            regime,
        );
        let m = config.token.min_size;
        assert(m.at_most(x.larger(m)));
        lemma_rounded_to_order(m, x.larger(m), places);
    }
}

} // verus!
