//! What holds of the flow of fills: when it is toxic, and what is then left of the side that would
//! build more inventory.
use vstd::prelude::*;

use crate::bounds::{lemma_below_normal, lemma_difference, lemma_integer_error, lemma_ratio, lemma_value};
use crate::config::{decimals, Config};
use crate::double::{
    lemma_mag_order, mag, nearest, of_int, one_unit, quotient, zero, Double, INF, P52, P53,
};
use crate::market_laws::lemma_doubled;
use crate::matching_laws::positive;
use crate::order::{
    integers_are_exact, lemma_extended, lemma_half, lemma_normal_error, lemma_relative,
    lemma_rounded, lemma_rounding_exact, lemma_rounding_monotone, lemma_zero_rounding,
    products_keep_order, size_of, sums_keep_order,
};
use crate::risk::{buys_among, floored_to, flow_limited, narrowed_levels, toxicity, Quote};
use crate::size_laws::{clamps_keep_order, ratios_keep_order, times_one};
use crate::ticks::lemma_room;
use crate::types::{last, MmModel, OrderLevel, Side};

verus! {

/// How one-sided some fills are: how many more there are of one side than of the other.
pub open spec fn surplus(fills: Seq<(Side, Double)>) -> nat {
    size_of(2 * buys_among(fills) - fills.len())
}

/// A markout score.
pub open spec fn is_score(x: Double) -> bool {
    zero().at_most(x) && x.at_most(of_int(1))
}

/// What the toxicity of some fills is to be, times twice their number: the surplus of one side,
/// and the score for each fill.
pub open spec fn toxic_units(recent: Seq<(Side, Double)>, score: Double) -> int {
    surplus(recent) * one_unit() + recent.len() * score.value()
}

proof fn lemma_buys(s: Seq<(Side, Double)>)
    ensures
        buys_among(s) <= s.len(),
        (forall|i: int| 0 <= i < s.len() ==> (#[trigger] s[i]).0 == Side::Buy) ==> buys_among(s)
            == s.len(),
        (forall|i: int| 0 <= i < s.len() ==> (#[trigger] s[i]).0 == Side::Sell) ==> buys_among(s)
            == 0,
    decreases s.len(),
{
    if s.len() > 0 {
        let t = s.drop_last();
        lemma_buys(t);
        assert(forall|i: int| 0 <= i < t.len() ==> t[i] == s[i]);
        assert(s.last() == s[s.len() - 1]);
    }
}

/// The pieces of the toxicity and how far each is off.
proof fn lemma_toxicity(k: nat, n: nat, score: Double)
    requires
        1 <= n <= 10,
        k <= n,
        is_score(score),
    ensures
        ({
            let u = one_unit();
            let ratio = of_int(k as int).over(of_int(n as int));
            let off = ratio.minus(quotient(5, 10)).magnitude();
            let imbalance = off.times(of_int(2)).clamped(zero(), of_int(1));
            let t = score.times(quotient(5, 10)).plus(imbalance.times(quotient(5, 10))).clamped(
                zero(),
                of_int(1),
            );
            let e = size_of(2 * k - n) * u + n * score.value();
            &&& !t.is_nan()
            &&& 0 <= t.value() <= u
            &&& P53 * (2 * (n * t.value())) <= P53 * e + 16 * (n * u)
            &&& P53 * e <= P53 * (2 * (n * t.value())) + 16 * (n * u)
            &&& imbalance.times(quotient(5, 10)) == off
            &&& k == 0 || k == n ==> off == quotient(5, 10)
            &&& 2 * k == n ==> off.index() == 0
        }),
{
    let u = one_unit();
    let p = P53 as int;
    lemma_room();
    lemma_half();
    assert(mag(0) == 0);
    integers_are_exact(k);
    integers_are_exact(n);
    integers_are_exact(1);
    integers_are_exact(2);
    assert(1 * u == u);
    let half = quotient(5, 10);
    let h = half.value();
    assert(2 * h == u);
    lemma_value(of_int(n as int));
    assert(n * u > 0) by (nonlinear_arith)
        requires
            n >= 1,
            u > 0,
    ;
    // the share of the purchases
    let ratio = of_int(k as int).over(of_int(n as int));
    let num = (k * u) * u;
    let den = n * u;
    lemma_rounded(false, num, den);
    lemma_extended(k * u, n, u);
    let i = nearest(k * u, n);
    assert(ratio.index() == i);
    lemma_value(ratio);
    let a = mag(i) as int;
    lemma_unit_rounding(n, u);
    assert(k * u <= n * u) by (nonlinear_arith)
        requires
            k <= n,
    ;
    lemma_rounding_monotone(k * u, n * u, n);
    lemma_mag_order(i, of_int(1).index());
    assert(a <= u);
    assert(a * n <= n * u) by (nonlinear_arith)
        requires
            a <= u,
            n >= 0,
    ;
    let ra = a * n - k * u;
    assert(-(n * u) <= p * ra <= n * u) by {
        if k == 0 {
            assert(k * u == 0) by (nonlinear_arith)
                requires
                    k == 0,
            ;
            lemma_zero_rounding(n);
            assert(a * n == 0) by (nonlinear_arith)
                requires
                    a == 0,
            ;
            assert(p * ra == 0) by (nonlinear_arith)
                requires
                    ra == 0,
            ;
        } else {
            assert(P52 * n <= k * u && k * u <= vstd::arithmetic::power2::pow2(2000) * n)
                by (nonlinear_arith)
                requires
                    1 <= k <= n,
                    n <= 10,
                    u >= 0x1_0000_0000_0000_0000_0000_0000_0000_0000nat,
                    P52 == 0x10_0000_0000_0000,
                    vstd::arithmetic::power2::pow2(2000)
                        >= 0x1_0000_0000_0000_0000_0000_0000_0000_0000nat * u,
            ;
            lemma_relative(k * u, n);
            assert(-(n * u) <= p * ra && p * ra <= n * u) by (nonlinear_arith)
                requires
                    ra == a * n - k * u,
                    (p - 1) * (a * n) <= p * (k * u),
                    p * (k * u) <= (p + 1) * (a * n),
                    a * n <= n * u,
            ;
        }
    }
    // its distance from a half
    let c = ratio.minus(half);
    lemma_difference(ratio, half);
    lemma_value(c);
    let off = c.magnitude();
    lemma_value(off);
    let x = size_of(a - h);
    assert(x <= h);
    lemma_rounding_exact(half.index());
    lemma_rounding_monotone(x, mag(half.index()), 1);
    lemma_mag_order(c.index(), half.index());
    let d = mag(c.index()) as int;
    assert(d <= h);
    assert(c.is_finite());
    lemma_integer_error(x);
    let rd = d - x;
    assert(-(u as int) <= p * rd <= u) by (nonlinear_arith)
        requires
            rd == d - x,
            (p - 1) * d <= p * x,
            p * x <= (p + 1) * d,
            d <= h,
            2 * h == u,
            d >= 0,
    ;
    if k == 0 {
        assert(k * u == 0) by (nonlinear_arith)
            requires
                k == 0,
        ;
        lemma_zero_rounding(n);
        assert(a == 0);
        assert(x == h);
        assert(c.index() == half.index());
    }
    if k == n {
        lemma_extended(u, 1, n);
        assert(u * n == n * u) by (nonlinear_arith);
        assert(a == u);
        assert(x == h);
    }
    // doubled and halved again
    let j = lemma_doubled(c.index());
    let twice = off.times(of_int(2));
    lemma_mag_order(j, of_int(1).index());
    assert(mag(j) <= u);
    assert(j < INF) by {
        lemma_mag_order(j, INF as int);
    }
    lemma_extended(2 * mag(c.index()), 1, u);
    assert(mag(c.index()) * (2 * u) == (2 * mag(c.index())) * u) by (nonlinear_arith);
    lemma_rounding_exact(j);
    lemma_rounded(false, mag(c.index()) * (2 * u), u);
    assert(twice.index() == j);
    lemma_value(twice);
    let imbalance = twice.clamped(zero(), of_int(1));
    assert(imbalance == twice);
    let second = imbalance.times(half);
    lemma_rounded(false, mag(j) * mag(half.index()), u);
    lemma_extended(mag(c.index()), 1, u);
    assert(mag(j) * mag(half.index()) == mag(c.index()) * u) by (nonlinear_arith)
        requires
            mag(j) == 2 * mag(c.index()),
            2 * mag(half.index()) == u,
    ;
    lemma_rounding_exact(c.index());
    assert(second == off);
    // half the score
    lemma_value(score);
    let m = score.value();
    let first = score.times(half);
    assert(score.is_finite()) by {
        lemma_mag_order(of_int(1).index(), INF as int);
        lemma_mag_order(score.index(), INF as int);
    }
    let sm = mag(score.index());
    assert(m == sm);
    lemma_rounded(score.neg() != half.neg(), sm * mag(half.index()), u);
    lemma_extended(sm, 2, mag(half.index()));
    assert(2 * mag(half.index()) == u);
    let q = nearest(sm, 2);
    assert(first.index() == q);
    lemma_value(first);
    let b = mag(q) as int;
    let rb = 2 * b - m;
    lemma_half_error(sm);
    assert(first.value() == b) by {
        if score.neg() {
            assert(sm == 0);
            lemma_zero_rounding(2);
        }
    }
    assert(b <= h) by {
        crate::double::lemma_exact(2, half.index());
        crate::double::lemma_nearest(mag(half.index()) * 2, 2, half.index());
        lemma_rounding_monotone(sm, mag(half.index()) * 2, 2);
        lemma_mag_order(q, half.index());
    }
    // the sum
    assert(first.is_finite()) by {
        lemma_mag_order(half.index(), INF as int);
        lemma_mag_order(q, INF as int);
    }
    let total = (b + d) as nat;
    crate::order::lemma_plus_value(first, second);
    let sum = first.plus(second);
    lemma_rounded(false, total, 1);
    lemma_rounding_exact(of_int(1).index());
    lemma_rounding_monotone(total, mag(of_int(1).index()), 1);
    lemma_mag_order(nearest(total, 1), of_int(1).index());
    let s = sum.value();
    assert(s == mag(nearest(total, 1)));
    assert(0 <= s <= u);
    lemma_integer_error(total);
    let rs = s - total;
    assert(-(u as int) <= p * rs <= u) by (nonlinear_arith)
        requires
            rs == s - total,
            (p - 1) * s <= p * total,
            p * total <= (p + 1) * s,
            0 <= s <= u,
    ;
    let t = sum.clamped(zero(), of_int(1));
    assert(t == sum);
    // all together
    let y = size_of(2 * k - n);
    let w = 2 * (a * n - k * u);
    assert(2 * (n * x) - y * u <= size_of(w) && y * u - 2 * (n * x) <= size_of(w)) by {
        let z1 = 2 * (n * (a - h));
        let z2 = (2 * k - n) * u;
        assert(z1 - z2 == w) by (nonlinear_arith)
            requires
                z1 == 2 * (n * (a - h)),
                z2 == (2 * k - n) * u,
                w == 2 * (a * n - k * u),
                2 * h == u,
        ;
        assert(size_of(z1) == 2 * (n * x)) by (nonlinear_arith)
            requires
                z1 == 2 * (n * (a - h)),
                x == (if a - h < 0 {
                    -(a - h)
                } else {
                    a - h
                }),
                size_of(z1) == (if z1 < 0 {
                    -z1
                } else {
                    z1
                }),
                n >= 0,
        ;
        assert(size_of(z2) == y * u) by (nonlinear_arith)
            requires
                z2 == (2 * k - n) * u,
                y == (if 2 * k - n < 0 {
                    -(2 * k - n)
                } else {
                    2 * k - n
                }),
                size_of(z2) == (if z2 < 0 {
                    -z2
                } else {
                    z2
                }),
                u >= 0,
        ;
    }
    let e = y * u + n * m;
    let nu = n * u;
    let r = 2 * (n * s) - e;
    // r is the sum of four errors
    let r1 = n * rb;
    let r2 = 2 * (n * rd);
    let r3 = 2 * (n * rs);
    let r4 = 2 * (n * x) - y * u;
    assert(r == r1 + r2 + r3 + r4) by (nonlinear_arith)
        requires
            r == 2 * (n * s) - e,
            e == y * u + n * m,
            r1 == n * rb,
            r2 == 2 * (n * rd),
            r3 == 2 * (n * rs),
            r4 == 2 * (n * x) - y * u,
            rb == 2 * b - m,
            rd == d - x,
            rs == s - (b + d),
    ;
    assert(-2 * nu <= p * r1 <= 2 * nu) by (nonlinear_arith)
        requires
            r1 == n * rb,
            nu == n * u,
            -2 * u <= p * rb <= 2 * u,
            n >= 0,
    ;
    assert(-2 * nu <= p * r2 <= 2 * nu) by (nonlinear_arith)
        requires
            r2 == 2 * (n * rd),
            nu == n * u,
            -(u as int) <= p * rd <= u,
            n >= 0,
    ;
    assert(-2 * nu <= p * r3 <= 2 * nu) by (nonlinear_arith)
        requires
            r3 == 2 * (n * rs),
            nu == n * u,
            -(u as int) <= p * rs <= u,
            n >= 0,
    ;
    assert(-2 * nu <= p * r4 <= 2 * nu) by (nonlinear_arith)
        requires
            r4 <= size_of(w),
            -r4 <= size_of(w),
            size_of(w) == (if w < 0 {
                -w
            } else {
                w
            }),
            w == 2 * ra,
            -nu <= p * ra <= nu,
            p > 0,
    ;
    assert(p * r == p * r1 + p * r2 + p * r3 + p * r4) by (nonlinear_arith)
        requires
            r == r1 + r2 + r3 + r4,
    ;
    assert(p * r == p * (2 * (n * s)) - p * e) by (nonlinear_arith)
        requires
            r == 2 * (n * s) - e,
    ;
    if 2 * k == n {
        lemma_half_share(k, n, u);
        assert(a == h);
        assert(x == 0);
        lemma_zero_rounding(1);
    }
}

/// One as a quotient.
proof fn lemma_unit_rounding(n: nat, u: nat)
    requires
        n >= 1,
        u == one_unit(),
    ensures
        nearest(n * u, n) == of_int(1).index(),
{
    integers_are_exact(1);
    assert(1 * u == u);
    lemma_extended(u, 1, n);
    assert(u * n == n * u) by (nonlinear_arith);
    lemma_rounding_exact(of_int(1).index());
}

/// A half as a quotient.
proof fn lemma_half_share(k: nat, n: nat, u: nat)
    requires
        2 * k == n,
        n >= 1,
        u == one_unit(),
    ensures
        nearest(k * u, n) == quotient(5, 10).index(),
{
    lemma_half();
    let half = quotient(5, 10);
    crate::double::lemma_exact(n, half.index());
    crate::double::lemma_nearest(mag(half.index()) * n, n, half.index());
    assert(mag(half.index()) * n == k * u) by (nonlinear_arith)
        requires
            2 * mag(half.index()) == u,
            2 * k == n,
    ;
}

/// Halving is off by a tiny bit at most.
proof fn lemma_half_error(m: nat)
    requires
        m <= one_unit(),
    ensures
        ({
            let u = one_unit();
            let r = 2 * mag(nearest(m, 2)) - m;
            -2 * u <= P53 * r <= 2 * u
        }),
{
    let u = one_unit();
    let b = mag(nearest(m, 2));
    let r = 2 * b - m;
    lemma_room();
    assert(nearest(m, 2) < INF) by {
        crate::order::lemma_no_overflow(m, 2);
    }
    if nearest(m, 2) >= P52 {
        lemma_normal_error(m, 2);
        assert(-2 * u <= P53 * r <= 2 * u) by (nonlinear_arith)
            requires
                r == 2 * b - m,
                (P53 - 1) * (b * 2) <= P53 * m,
                P53 * m <= (P53 + 1) * (b * 2),
                m <= u,
                b >= 0,
                P53 == 0x20_0000_0000_0000,
        ;
    } else {
        lemma_below_normal(m, 2);
        crate::order::lemma_rounding_exists(m, 2);
        lemma_mag_order(nearest(m, 2), P52 as int);
        crate::double::lemma_mag_form(0, P52 as int);
        vstd::arithmetic::power2::lemma2_to64();
        assert(mag(P52 as int) == P52);
        assert(-2 * u <= P53 * r <= 2 * u) by (nonlinear_arith)
            requires
                r == 2 * b - m,
                0 <= b <= P52,
                0 <= m < P52 * 2,
                u >= 0x1_0000_0000_0000_0000_0000_0000_0000_0000nat,
                P53 == 0x20_0000_0000_0000,
                P52 == 0x10_0000_0000_0000,
        ;
    }
}

/// The toxicity of the last ten fills is half by how one-sided they are, whichever the side, and
/// half by the markout score; sixteen parts in 2^53 are left to rounding.
pub proof fn toxicity_is_half_surplus_half_score(fills: Seq<(Side, Double)>, score: Double)
    requires
        fills.len() >= 1,
        is_score(score),
    ensures
        ({
            let recent = last(fills, 10);
            let n = recent.len();
            let t = toxicity(fills, score);
            &&& zero().at_most(t) && t.at_most(of_int(1))
            &&& P53 * (2 * (n * t.value())) <= P53 * toxic_units(recent, score) + 16 * (n
                * one_unit())
            &&& P53 * toxic_units(recent, score) <= P53 * (2 * (n * t.value())) + 16 * (n
                * one_unit())
        }),
{
    let recent = last(fills, 10);
    lemma_buys(recent);
    lemma_toxicity(buys_among(recent), recent.len(), score);
    integers_are_exact(1);
    assert(1 * one_unit() == one_unit());
    assert(mag(0) == 0);
}

/// Fills with every side swapped.
pub open spec fn swapped(fills: Seq<(Side, Double)>) -> Seq<(Side, Double)> {
    fills.map_values(
        |f: (Side, Double)|
            (
                if f.0 == Side::Buy {
                    Side::Sell
                } else {
                    Side::Buy
                },
                f.1,
            ),
    )
}

proof fn lemma_swapped(s: Seq<(Side, Double)>)
    ensures
        buys_among(swapped(s)) + buys_among(s) == s.len(),
    decreases s.len(),
{
    if s.len() > 0 {
        lemma_swapped(s.drop_last());
        assert(swapped(s).drop_last() == swapped(s.drop_last()));
        assert(swapped(s).last().0 == if s.last().0 == Side::Buy {
            Side::Sell
        } else {
            Side::Buy
        });
    }
}

/// The toxicity is the same for fills and for the same fills with every side swapped, but for
/// sixteen parts in 2^53.
pub proof fn toxicity_takes_no_side(fills: Seq<(Side, Double)>, score: Double)
    requires
        fills.len() >= 1,
        is_score(score),
    ensures
        ({
            let a = toxicity(fills, score).value();
            let b = toxicity(swapped(fills), score).value();
            &&& P53 * (a - b) <= 16 * one_unit()
            &&& P53 * (b - a) <= 16 * one_unit()
        }),
{
    let u = one_unit();
    let recent = last(fills, 10);
    let n = recent.len() as int;
    lemma_swapped(recent);
    assert(last(swapped(fills), 10) == swapped(recent));
    toxicity_is_half_surplus_half_score(fills, score);
    toxicity_is_half_surplus_half_score(swapped(fills), score);
    assert(surplus(swapped(recent)) == surplus(recent));
    let a = toxicity(fills, score).value();
    let b = toxicity(swapped(fills), score).value();
    let e = toxic_units(recent, score);
    assert(toxic_units(swapped(recent), score) == e);
    assert(P53 * (a - b) <= 16 * u && P53 * (b - a) <= 16 * u) by (nonlinear_arith)
        requires
            P53 * (2 * (n * a)) <= P53 * e + 16 * (n * u),
            P53 * e <= P53 * (2 * (n * a)) + 16 * (n * u),
            P53 * (2 * (n * b)) <= P53 * e + 16 * (n * u),
            P53 * e <= P53 * (2 * (n * b)) + 16 * (n * u),
            n >= 1,
    {
        assert(n * (P53 * (2 * (a - b))) <= n * (32 * u));
        assert(n * (P53 * (2 * (b - a))) <= n * (32 * u));
    }
}

/// The last ten fills are all on one side.
pub open spec fn one_sided(fills: Seq<(Side, Double)>, side: Side) -> bool {
    forall|i: int| 0 <= i < last(fills, 10).len() ==> (#[trigger] last(fills, 10)[i]).0 == side
}

/// Fills on one side only, whichever it is, have a toxicity of a half or more, exactly the same
/// for either side; fills of which half are on each side have one of a half or less.
pub proof fn one_sided_flow_is_toxic(
    fills: Seq<(Side, Double)>,
    side: Side,
    others: Seq<(Side, Double)>,
    other: Side,
    score: Double,
)
    requires
        fills.len() >= 1,
        others.len() >= 1,
        is_score(score),
        one_sided(fills, side),
        one_sided(others, other),
    ensures
        quotient(5, 10).at_most(toxicity(fills, score)),
        toxicity(fills, score) == toxicity(others, score),
{
    let r = last(fills, 10);
    let q = last(others, 10);
    lemma_buys(r);
    lemma_buys(q);
    lemma_toxicity(buys_among(r), r.len(), score);
    lemma_toxicity(buys_among(q), q.len(), score);
    assert(buys_among(r) == 0 || buys_among(r) == r.len()) by {
        if side == Side::Buy {
        } else {
        }
    }
    assert(buys_among(q) == 0 || buys_among(q) == q.len()) by {
        if other == Side::Buy {
        } else {
        }
    }
    let half = quotient(5, 10);
    let first = score.times(half);
    lemma_half();
    integers_are_exact(1);
    assert(1 * one_unit() == one_unit());
    assert(mag(0) == 0);
    lemma_value(score);
    lemma_mag_order(of_int(1).index(), INF as int);
    lemma_mag_order(score.index(), INF as int);
    crate::order::product_is_number(score, half);
    crate::order::product_sign(score, half);
    crate::order::lemma_plus_commutes(first, half);
    crate::order::adding_grows(half, first);
}

/// The toxicity does not fall with the markout score.
pub proof fn toxicity_follows_the_score(fills: Seq<(Side, Double)>, a: Double, b: Double)
    requires
        fills.len() >= 1,
        is_score(a),
        is_score(b),
        a.at_most(b),
    ensures
        toxicity(fills, a).at_most(toxicity(fills, b)),
{
    let r = last(fills, 10);
    lemma_buys(r);
    let k = buys_among(r);
    let n = r.len();
    lemma_toxicity(k, n, a);
    lemma_toxicity(k, n, b);
    let half = quotient(5, 10);
    lemma_half();
    integers_are_exact(1);
    assert(1 * one_unit() == one_unit());
    assert(mag(0) == 0);
    let off = of_int(k as int).over(of_int(n as int)).minus(half).magnitude();
    let x = a.times(half).plus(off);
    let y = b.times(half).plus(off);
    lemma_room();
    assert(!x.is_nan() && !y.is_nan()) by {
        assert(!x.clamped(zero(), of_int(1)).is_nan());
        assert(!y.clamped(zero(), of_int(1)).is_nan());
        if x.is_nan() {
            assert(x.clamped(zero(), of_int(1)) == x);
        }
        if y.is_nan() {
            assert(y.clamped(zero(), of_int(1)) == y);
        }
    }
    crate::order::numbers_come_from_numbers(a.times(half), off);
    crate::order::numbers_come_from_numbers(b.times(half), off);
    products_keep_order(a, b, half);
    sums_keep_order(a.times(half), b.times(half), off);
    clamps_keep_order(x, y, zero(), of_int(1));
}

/// Only the last ten fills count.
pub proof fn old_fills_are_not_toxic(old_fills: Seq<(Side, Double)>, fills: Seq<(Side, Double)>, score: Double)
    requires
        fills.len() >= 10,
    ensures
        toxicity(old_fills + fills, score) == toxicity(fills, score),
{
    assert(last(old_fills + fills, 10) == last(fills, 10));
}

// ---- what toxic flow leaves ----------------------------------------------------------------------------

/// A toxicity against a bound of so many tenths.
proof fn lemma_against(t: Double, n: int, e: int, c: int)
    requires
        1 <= n <= 10,
        c == 4 || c == 6 || c == 8,
        zero().at_most(t),
        P53 * (2 * (n * t.value())) <= P53 * e + 16 * (n * one_unit()),
        P53 * e <= P53 * (2 * (n * t.value())) + 16 * (n * one_unit()),
    ensures
        1000 * e <= (200 * c - 1) * (n * one_unit()) ==> t.less(quotient(c as nat, 10)),
        1000 * e >= (200 * c + 1) * (n * one_unit()) ==> quotient(c as nat, 10).less(t),
{
    let u = one_unit() as int;
    let p = P53 as int;
    lemma_room();
    lemma_ratio(c as nat, 10);
    let q = quotient(c as nat, 10).value();
    let v = t.value();
    let nu = n * u;
    assert(nu > 0) by (nonlinear_arith)
        requires
            nu == n * u,
            n >= 1,
            u > 0,
    ;
    let x = n * v;
    let y = n * q;
    assert(p * (10 * y) <= p * (c * nu) + 20 * nu && p * (c * nu) <= p * (10 * y) + 20 * nu)
        by (nonlinear_arith)
        requires
            y == n * q,
            nu == n * u,
            (p - 1) * (q * 10) <= p * (c * u),
            p * (c * u) <= (p + 1) * (q * 10),
            q >= 0,
            u > 0,
            n >= 1,
            4 <= c <= 8,
            p == 0x20_0000_0000_0000,
    {
        assert(q * 10 <= 20 * u);
        assert(p * (q * 10) <= p * (c * u) + 20 * u);
        assert(p * (c * u) <= p * (q * 10) + 20 * u);
        assert(n * (p * (q * 10)) <= n * (p * (c * u) + 20 * u));
        assert(n * (p * (c * u)) <= n * (p * (q * 10) + 20 * u));
    }
    if 1000 * e <= (200 * c - 1) * nu {
        assert(x < y) by (nonlinear_arith)
            requires
                1000 * e <= (200 * c - 1) * nu,
                p * (2 * x) <= p * e + 16 * nu,
                p * (c * nu) <= p * (10 * y) + 20 * nu,
                nu > 0,
                p == 0x20_0000_0000_0000,
        {
            assert(p * (1000 * e) <= p * ((200 * c - 1) * nu));
            assert(p * (2000 * x) <= p * ((200 * c - 1) * nu) + 16000 * nu);
            assert(p * ((200 * c) * nu) == 200 * (p * (c * nu)));
            assert(p * (2000 * x) < p * (2000 * y));
        }
        assert(v < q) by (nonlinear_arith)
            requires
                x < y,
                x == n * v,
                y == n * q,
                n >= 1,
        ;
    }
    if 1000 * e >= (200 * c + 1) * nu {
        assert(y < x) by (nonlinear_arith)
            requires
                1000 * e >= (200 * c + 1) * nu,
                p * e <= p * (2 * x) + 16 * nu,
                p * (10 * y) <= p * (c * nu) + 20 * nu,
                nu > 0,
                p == 0x20_0000_0000_0000,
        {
            assert(p * (1000 * e) >= p * ((200 * c + 1) * nu));
            assert(p * (2000 * x) + 16000 * nu >= p * ((200 * c + 1) * nu));
            assert(p * ((200 * c) * nu) == 200 * (p * (c * nu)));
            assert(p * (2000 * y) < p * (2000 * x));
        }
        assert(q < v) by (nonlinear_arith)
            requires
                y < x,
                x == n * v,
                y == n * q,
                n >= 1,
        ;
    }
}

/// What toxic flow does to the side that builds the position: below a toxicity of four tenths
/// nothing, from there on its orders are made smaller, from six tenths on more so, and above eight
/// tenths there are none. The toxicity counts half the surplus of one side among the last ten
/// fills and half the score; a thousandth about each bound is left out.
pub proof fn toxic_flow_limits_the_building_side(config: Config, s: MmModel, q: Quote)
    requires
        s.recent_fill_sides.len() >= 1,
        is_score(s.markout_score),
    ensures
        ({
            let recent = last(s.recent_fill_sides, 10);
            let e = 1000 * toxic_units(recent, s.markout_score);
            let nu = recent.len() * one_unit();
            let r = flow_limited(config, s, q);
            let long = zero().less(s.position);
            let short = s.position.less(zero());
            let old_side = if long { q.bids } else { q.asks };
            let side = if long { r.bids } else { r.asks };
            &&& long || short ==> {
                &&& e <= 799 * nu ==> side == old_side
                &&& 801 * nu <= e <= 1199 * nu ==> side == narrowed_levels(
                    old_side,
                    long,
                    false,
                    config,
                )
                &&& 1201 * nu <= e <= 1599 * nu ==> side == narrowed_levels(
                    old_side,
                    long,
                    true,
                    config,
                )
                &&& e >= 1601 * nu ==> side.len() == 0
            }
            &&& long ==> r.asks == q.asks
            &&& short ==> r.bids == q.bids
            &&& !long && !short ==> r == q
        }),
{
    let recent = last(s.recent_fill_sides, 10);
    let n = recent.len() as int;
    let t = toxicity(s.recent_fill_sides, s.markout_score);
    toxicity_is_half_surplus_half_score(s.recent_fill_sides, s.markout_score);
    let e = toxic_units(recent, s.markout_score);
    lemma_against(t, n, e, 4);
    lemma_against(t, n, e, 6);
    lemma_against(t, n, e, 8);
    ratios_keep_order(4, 10, 6, 10);
    ratios_keep_order(6, 10, 8, 10);
    let u = one_unit();
    let nu = n * u;
    lemma_room();
    assert(nu > 0) by (nonlinear_arith)
        requires
            nu == n * u,
            n >= 1,
            u > 0,
    ;
}

/// A quarter is exact.
proof fn lemma_exact_quarter_of_one()
    ensures
        4 * mag(quotient(25, 100).index()) == one_unit(),
        quotient(25, 100).is_finite(),
        !quotient(25, 100).neg(),
{
    let u = one_unit();
    vstd::arithmetic::power2::lemma2_to64();
    vstd::arithmetic::power2::lemma2_to64_rest();
    vstd::arithmetic::power2::lemma_pow2_adds(2, 1072);
    vstd::arithmetic::power2::lemma_pow2_adds(52, 1020);
    crate::double::lemma_mag_form(1020, P52 as int);
    let i = 1021 * P52 as int;
    assert(1020 * P52 + P52 == i);
    assert(4 * mag(i) == u);
    crate::double::lemma_exact(100, i);
    crate::double::lemma_nearest(mag(i) * 100, 100, i);
    lemma_rounded(false, 25 * u, 100);
}

/// A number over two, or over four, that is a double.
proof fn lemma_exact_part(x: Double, y: Double, c: Double, k: nat)
    requires
        positive(x),
        positive(y),
        c.is_finite(),
        !c.neg(),
        k >= 1,
        k * mag(c.index()) == one_unit(),
        k * y.value() == x.value(),
    ensures
        x.times(c) == y,
{
    let u = one_unit();
    lemma_room();
    lemma_value(x);
    lemma_value(y);
    assert(mag(0) == 0);
    let m = mag(y.index());
    lemma_extended(m, 1, u);
    assert(mag(x.index()) * mag(c.index()) == m * u) by (nonlinear_arith)
        requires
            mag(x.index()) == k * m,
            k * mag(c.index()) == u,
    ;
    lemma_rounding_exact(y.index());
}

/// An order that is made smaller gets half of its size and moves one tick away from the market,
/// or, where the flow is more toxic, a quarter of its size and two ticks; its size is cut to whole
/// lots, a bid is not moved below one tick, and it is dropped where it is then below the smallest
/// size.
pub proof fn narrowed_orders_are_halved_and_moved_away(
    l: OrderLevel,
    half: Double,
    quarter: Double,
    config: Config,
)
    requires
        positive(l.size),
        positive(half) && 2 * half.value() == l.size.value(),
        positive(quarter) && 4 * quarter.value() == l.size.value(),
        positive(l.price),
        positive(config.token.tick_size),
    ensures
        ({
            let tick = config.token.tick_size;
            let places = decimals(config.token.min_size, config.logs.min_size_log10);
            let least = config.token.min_size;
            let bid = narrowed_levels(seq![l], true, false, config);
            let ask = narrowed_levels(seq![l], false, false, config);
            let far_bid = narrowed_levels(seq![l], true, true, config);
            let far_ask = narrowed_levels(seq![l], false, true, config);
            let small = floored_to(half, places);
            let tiny = floored_to(quarter, places);
            &&& bid.len() == ask.len() == if least.at_most(small) { 1int } else { 0 }
            &&& far_bid.len() == far_ask.len() == if least.at_most(tiny) { 1int } else { 0 }
            &&& ask.len() == 1 ==> ask[0].size == small && bid[0].size == small && ask[0].price
                == l.price.plus(tick) && bid[0].price.value() == (if l.price.minus(tick).value()
                >= tick.value() {
                l.price.minus(tick).value()
            } else {
                tick.value()
            })
            &&& far_ask.len() == 1 ==> far_ask[0].size == tiny && far_bid[0].size == tiny
                && far_ask[0].price == l.price.plus(of_int(2).times(tick))
                && far_bid[0].price.value() == (if l.price.minus(of_int(2).times(tick)).value()
                >= tick.value() {
                l.price.minus(of_int(2).times(tick)).value()
            } else {
                tick.value()
            })
        }),
{
    reveal_with_fuel(narrowed_levels, 3);
    assert(seq![l].drop_last() == Seq::<OrderLevel>::empty());
    assert(seq![l].last() == l);
    let tick = config.token.tick_size;
    lemma_half();
    lemma_exact_quarter_of_one();
    lemma_exact_part(l.size, half, quotient(5, 10), 2);
    lemma_exact_part(l.size, quarter, quotient(25, 100), 4);
    times_one(tick);
    lemma_difference(l.price, tick);
    let two = of_int(2).times(tick);
    integers_are_exact(2);
    lemma_value(tick);
    assert(mag(0) == 0);
    crate::order::product_is_number(of_int(2), tick);
    lemma_value(two);
    if two.is_finite() {
        lemma_difference(l.price, two);
    }
    lemma_value(l.price.minus(tick));
    lemma_value(l.price.minus(two));
}

/// Each order is made smaller by itself.
pub proof fn orders_are_narrowed_one_by_one(s: Seq<OrderLevel>, l: OrderLevel, buy: bool, severe: bool, config: Config)
    ensures
        narrowed_levels(s.push(l), buy, severe, config) == narrowed_levels(s, buy, severe, config)
            + narrowed_levels(seq![l], buy, severe, config),
{
    reveal_with_fuel(narrowed_levels, 3);
    assert(s.push(l).drop_last() == s);
    assert(seq![l].drop_last() == Seq::<OrderLevel>::empty());
    assert(seq![l].last() == l);
}

} // verus!
