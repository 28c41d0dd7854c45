//! What holds of the state after a new book: how it tells an agitated market from a calm one, how
//! its averages move, and what it makes of the depths of the book.
use vstd::arithmetic::power2::{lemma2_to64, lemma2_to64_rest, lemma_pow2_adds, lemma_pow2_pos, pow2};
use vstd::prelude::*;

use crate::bounds::{lemma_difference, lemma_quotient_bound, lemma_ratio, lemma_value};
use crate::config::Config;
use crate::double::{
    lemma_mag_form, lemma_mag_increases, lemma_mag_order, lemma_mag_step, mag, nan, nearest, of_int,
    one_unit, quotient, step_exp, zero, Double, INF, P52, P53, UNIT,
};
use crate::market::{running, since_last_book, weight, with_price, Decay};
use crate::matching_laws::{apart, positive};
use crate::order::{
    differences_keep_order, integers_are_exact, larger_divisors_leave_less, lemma_half,
    lemma_plus_commutes, lemma_rounded, lemma_rounding_exists, lemma_rounding_monotone,
    lemma_times_commutes, lemma_zero_product, numbers_come_from_numbers, products_keep_order,
    quotients_keep_order, size_of, sums_keep_order,
};
use crate::size_laws::{clamps_keep_order, lies_between, ratios_keep_order, times_one};
use crate::strategy::{horizon, model_quotes};
use crate::ticks::lemma_room;
use crate::types::{Bbo, MmModel, VolRegime};

verus! {

// ---- the regime ---------------------------------------------------------------------------------------

/// How agitated a market is told to be, from calm on.
pub open spec fn agitation(regime: VolRegime) -> int {
    match regime {
        VolRegime::Low => 0,
        VolRegime::Normal => 1,
        VolRegime::High => 2,
        VolRegime::Extreme => 3,
    }
}

/// The smallest long-term variance that is told from none.
pub open spec fn least_variance() -> Double {
    quotient(1, 1_000_000_000_000_000_000)
}

/// Neighbouring magnitudes differ by one part in 2^53 or more.
proof fn lemma_gap(i: int, j: int)
    requires
        0 <= i < j,
    ensures
        P53 * (mag(j) - mag(i)) >= mag(j),
{
    lemma_mag_step(i);
    let e = step_exp(i);
    let q = i - e * P52;
    let w = pow2(e) as int;
    lemma_pow2_pos(e);
    if i + 1 < j {
        lemma_mag_increases(i + 1, j);
    }
    let d = mag(j) - mag(i);
    let x = mag(i) as int;
    assert(P53 * d >= x + d) by (nonlinear_arith)
        requires
            d >= w,
            x == q * w,
            q < P53,
            w > 0,
    {
        assert((P53 - 1) * d >= (P53 - 1) * w);
        assert((P53 - 1) * w >= q * w);
    }
}

/// Twice a magnitude is one.
pub proof fn lemma_doubled(i: int) -> (j: int)
    requires
        0 <= i,
    ensures
        0 <= j,
        mag(j) == 2 * mag(i),
{
    lemma_mag_step(i);
    let e = step_exp(i);
    let q = i - e * P52;
    lemma2_to64();
    if i < P52 {
        assert(e * P52 == 0) by (nonlinear_arith)
            requires
                e == 0,
        ;
        lemma_mag_form(0, 2 * i);
        2 * i
    } else {
        assert(q >= P52) by {
            if e == 0 {
                assert(e * P52 == 0) by (nonlinear_arith)
                    requires
                        e == 0,
                ;
            }
        }
        lemma_mag_form(e + 1, q);
        lemma_pow2_adds(1, e);
        assert(q * (2 * pow2(e)) == 2 * (q * pow2(e))) by (nonlinear_arith);
        assert((e + 1) * P52 + q >= 0) by (nonlinear_arith)
            requires
                q >= 0,
        ;
        (e + 1) * P52 + q
    }
}

/// What rounds to a power of two or above lies above it but for half a step below.
proof fn lemma_power_reached(num: nat, den: nat, e: nat)
    requires
        den > 0,
        e >= 1,
        (e + 1) * P52 < INF,
        nearest(num, den) >= (e + 1) * P52,
    ensures
        2 * (P53 * num) >= (2 * P53 - 1) * ((P52 * pow2(e)) * den),
{
    lemma_rounding_exists(num, den);
    let k: int = (e + 1) * P52;
    let i = nearest(num, den);
    lemma_mag_form(e, P52 as int);
    assert(e * P52 + P52 == k) by (nonlinear_arith)
        requires
            k == (e + 1) * P52,
    ;
    let c = (P52 * pow2(e)) as nat;
    assert(mag(k) == c);
    lemma_mag_step(k - 1);
    assert(step_exp(k - 1) == e - 1) by {
        assert((k - 1) / P52 as int == e) by (nonlinear_arith)
            requires
                k == (e + 1) * P52,
                P52 > 1,
        ;
        assert(k - 1 >= P52) by (nonlinear_arith)
            requires
                k == (e + 1) * P52,
                e >= 1,
                P52 > 1,
        ;
    }
    let w = pow2((e - 1) as nat);
    lemma_pow2_adds(1, (e - 1) as nat);
    lemma2_to64();
    assert(c == P53 * w) by (nonlinear_arith)
        requires
            c == P52 * pow2(e),
            pow2(e) == 2 * w,
            P53 == 2 * P52,
    ;
    let low = mag(k - 1);
    assert(low == c - w);
    if i > k {
        lemma_mag_increases(k, i);
        if i - 1 > k {
            lemma_mag_increases(k, i - 1);
        }
    }
    assert(2 * num >= (low + c) * den) by {
        let a = mag(i - 1);
        let b = mag(i);
        assert(a >= low && b >= c);
        assert((low + c) * den <= (a + b) * den) by (nonlinear_arith)
            requires
                low + c <= a + b,
        ;
    }
    assert(2 * (P53 * num) >= (2 * P53 - 1) * (c * den)) by (nonlinear_arith)
        requires
            2 * num >= (low + c) * den,
            low == c - w,
            c == P53 * w,
    {
        assert(P53 * (2 * num) >= P53 * ((2 * c - w) * den));
        assert(P53 * ((2 * c - w) * den) == (2 * P53) * (c * den) - (P53 * w) * den);
    }
}

/// How a quotient of variances stands to a half, two and five.
proof fn lemma_quotients(s: Double, l: Double)
    requires
        zero().at_most(s),
        s.is_finite(),
        positive(l),
    ensures
        ({
            let q = s.over(l);
            &&& !q.is_nan()
            &&& q.less(quotient(5, 10)) <==> 2 * s.value() < l.value()
            &&& q.less(of_int(2)) <==> s.value() < 2 * l.value()
            &&& 5 * l.value() <= s.value() ==> !q.less(of_int(5))
            &&& !q.less(of_int(5)) ==> 5 * ((P53 - 1) * l.value()) <= P53 * s.value()
        }),
{
    let u = one_unit();
    lemma_room();
    lemma_value(s);
    lemma_value(l);
    assert(mag(0) == 0);
    let a = mag(s.index());
    let b = mag(l.index());
    let q = s.over(l);
    let half = quotient(5, 10);
    let x = s.magnitude();
    assert(x.over(l).index() == q.index() && !q.is_nan()) by {
        lemma_rounded(s.neg() != l.neg(), a * u, b);
        lemma_rounded(false, a * u, b);
    }
    lemma_value(q);
    assert(s.neg() ==> a == 0);
    assert(q.value() == x.over(l).value()) by {
        if a == 0 {
            assert(a * u == 0) by (nonlinear_arith)
                requires
                    a == 0,
            ;
            crate::order::lemma_zero_rounding(b);
            lemma_rounded(s.neg() != l.neg(), a * u, b);
            lemma_rounded(false, a * u, b);
        }
    }
    // five
    integers_are_exact(5);
    integers_are_exact(2);
    lemma_half();
    assert(u >= P52 && 2 * u >= P52 && 5 * u >= P52);
    lemma_quotient_bound(x, l, of_int(5));
    assert((5 * u) * b == 5 * (b * u)) by (nonlinear_arith);
    assert((5 * b <= a) ==> 5 * (b * u) <= a * u) by (nonlinear_arith)
        requires
            u > 0,
    ;
    if !q.less(of_int(5)) {
        assert((P53 - 1) * ((5 * u) * b) <= P53 * (a * u));
        assert(5 * ((P53 - 1) * b) <= P53 * a) by (nonlinear_arith)
            requires
                (P53 - 1) * ((5 * u) * b) <= P53 * (a * u),
                u > 0,
        {
            assert((P53 - 1) * ((5 * u) * b) == (5 * ((P53 - 1) * b)) * u);
            assert(P53 * (a * u) == (P53 * a) * u);
        }
    }
    // two
    lemma_quotient_bound(x, l, of_int(2));
    assert((2 * u) * b == 2 * (b * u)) by (nonlinear_arith);
    assert((2 * b <= a) ==> 2 * (b * u) <= a * u) by (nonlinear_arith)
        requires
            u > 0,
    ;
    if !q.less(of_int(2)) && a < 2 * b {
        lemma_power(1023, 2 * u);
        lemma_mag_order(of_int(2).index(), q.index());
        lemma_mag_order(q.index(), of_int(2).index());
        lemma_rounded(s.neg() != l.neg(), a * u, b);
        lemma_power_reached(a * u, b, 1023);
        assert(2 * (P53 * a) >= (2 * P53 - 1) * (2 * b)) by (nonlinear_arith)
            requires
                2 * (P53 * (a * u)) >= (2 * P53 - 1) * ((2 * u) * b),
                u > 0,
        {
            assert(2 * (P53 * (a * u)) == (2 * (P53 * a)) * u);
            assert((2 * P53 - 1) * ((2 * u) * b) == ((2 * P53 - 1) * (2 * b)) * u);
        }
        let j = lemma_doubled(l.index());
        lemma_mag_order(j, s.index());
        lemma_gap(s.index(), j);
        assert(P53 * (2 * b - a) >= 2 * b);
        assert(false) by (nonlinear_arith)
            requires
                P53 * (2 * b - a) >= 2 * b,
                2 * (P53 * a) >= (2 * P53 - 1) * (2 * b),
                b > 0,
        ;
    }
    // a half
    let h = half.value();
    lemma_quotient_bound_half(x, l, half);
    if !q.less(half) && 2 * a < b {
        lemma_power(1021, h as nat);
        lemma_mag_order(half.index(), q.index());
        lemma_mag_order(q.index(), half.index());
        lemma_rounded(s.neg() != l.neg(), a * u, b);
        lemma_power_reached(a * u, b, 1021);
        assert(4 * (P53 * a) >= (2 * P53 - 1) * b) by (nonlinear_arith)
            requires
                2 * (P53 * (a * u)) >= (2 * P53 - 1) * (h * b),
                2 * h == u,
                u > 0,
        {
            assert(4 * (P53 * (a * u)) >= (2 * P53 - 1) * ((2 * h) * b));
            assert(4 * (P53 * (a * u)) == (4 * (P53 * a)) * u);
            assert((2 * P53 - 1) * ((2 * h) * b) == ((2 * P53 - 1) * b) * u);
        }
        let j = lemma_doubled(s.index());
        lemma_mag_order(l.index(), j);
        lemma_gap(j, l.index());
        assert(P53 * (b - 2 * a) >= b);
        assert(false) by (nonlinear_arith)
            requires
                P53 * (b - 2 * a) >= b,
                4 * (P53 * a) >= (2 * P53 - 1) * b,
                b > 0,
        ;
    }
}

proof fn lemma_quotient_bound_half(x: Double, l: Double, half: Double)
    requires
        half == quotient(5, 10),
        !x.neg(),
        x.is_finite(),
        positive(l),
    ensures
        l.value() <= 2 * x.value() ==> half.at_most(x.over(l)),
{
    let u = one_unit();
    lemma_room();
    lemma_half();
    lemma_quotient_bound(x, l, half);
    let a = x.value();
    let b = l.value();
    let h = half.value();
    if b <= 2 * a {
        assert(h * b <= a * u) by (nonlinear_arith)
            requires
                2 * h == u,
                b <= 2 * a,
                h >= 0,
        ;
    }
}

/// A power of two by its index.
proof fn lemma_power(e: nat, c: nat)
    requires
        e == 1021 && 2 * c == one_unit() || e == 1023 && c == 2 * one_unit(),
    ensures
        P52 * pow2(e) == c,
        mag((e + 1) * P52) == c,
        (e + 1) * P52 < INF,
        forall|i: int| 0 <= i && #[trigger] mag(i) == c ==> i == (e + 1) * P52,
{
    lemma2_to64();
    lemma2_to64_rest();
    lemma_pow2_adds(52, 1021);
    lemma_pow2_adds(52, 1022);
    lemma_pow2_adds(52, 1023);
    lemma_pow2_adds(1, 1021);
    lemma_pow2_adds(1, 1022);
    lemma_mag_form(e, P52 as int);
    assert(e * P52 + P52 == (e + 1) * P52);
    assert forall|i: int| 0 <= i && #[trigger] mag(i) == c implies i == (e + 1) * P52 by {
        let k: int = (e + 1) * P52;
        if i < k {
            lemma_mag_increases(i, k);
        }
        if k < i {
            lemma_mag_increases(k, i);
        }
    }
}

/// The regime tells how the short-term variance stands to the long-term one: below a half of it
/// the market is calm, from twice of it on agitated, and from five times of it on extremely so.
pub proof fn regime_tells_agitation(s: MmModel)
    requires
        zero().at_most(s.ewma_variance),
        s.ewma_variance.is_finite(),
        s.long_term_variance.is_finite(),
        least_variance().at_most(s.long_term_variance),
    ensures
        ({
            let x = s.ewma_variance.value();
            let l = s.long_term_variance.value();
            &&& 2 * x < l <==> agitation(s.regime()) == 0
            &&& x >= 2 * l <==> agitation(s.regime()) >= 2
            &&& x >= 5 * l ==> agitation(s.regime()) == 3
            &&& agitation(s.regime()) == 3 ==> P53 * x >= 5 * ((P53 - 1) * l)
        }),
{
    lemma_least();
    lemma_quotients(s.ewma_variance, s.long_term_variance);
    lemma_value(s.long_term_variance);
    lemma_order_of_bounds();
}

proof fn lemma_least()
    ensures
        positive(least_variance()),
{
    lemma_ratio(1, 1_000_000_000_000_000_000);
    assert(mag(0) == 0);
}

proof fn lemma_order_of_bounds()
    ensures
        quotient(5, 10).less(of_int(2)),
        of_int(2).less(of_int(5)),
{
    lemma_half();
    lemma_pow2_pos(UNIT as nat);
    integers_are_exact(2);
    integers_are_exact(5);
}

/// The market is not told to be calmer as the short-term variance grows.
pub proof fn regime_follows_the_short_term(s: MmModel, t: MmModel)
    requires
        s.ewma_variance.at_most(t.ewma_variance),
        t.long_term_variance == s.long_term_variance,
        s.long_term_variance.is_finite(),
    ensures
        agitation(s.regime()) <= agitation(t.regime()),
{
    let l = s.long_term_variance;
    if zero().less(l) {
        lemma_least();
        let m = l.larger(least_variance());
        assert(positive(m));
        lemma_value(m);
        let x = s.ewma_variance;
        let y = t.ewma_variance;
        lemma_number_over(x, m);
        lemma_number_over(y, m);
        quotients_keep_order(x, y, m);
        lemma_order_of_bounds();
    }
}

/// A number over a positive one is a number.
proof fn lemma_number_over(x: Double, m: Double)
    requires
        !x.is_nan(),
        positive(m),
    ensures
        !x.over(m).is_nan(),
{
    assert(mag(0) == 0);
    lemma_value(m);
    if x.is_finite() {
        lemma_rounded(x.neg() != m.neg(), mag(x.index()) * one_unit(), mag(m.index()));
    }
}

/// Before there is a long-term variance the market is told as usual; a tiny one counts as the
/// smallest that is told from none.
pub proof fn regime_without_a_past(s: MmModel, t: MmModel)
    ensures
        !zero().less(s.long_term_variance) ==> s.regime() == VolRegime::Normal,
        zero().less(s.long_term_variance) && s.long_term_variance.at_most(least_variance())
            && t.long_term_variance == least_variance() && t.ewma_variance == s.ewma_variance
            ==> s.regime() == t.regime(),
{
    lemma_least();
    lemma_half();
    lemma_pow2_pos(UNIT as nat);
    integers_are_exact(1);
    integers_are_exact(2);
    assert(1 * one_unit() == one_unit());
    let l = s.long_term_variance;
    if zero().less(l) && l.at_most(least_variance()) {
        lemma_value(l);
        lemma_value(least_variance());
        if l.value() == least_variance().value() {
            lemma_mag_order(l.index(), least_variance().index());
            lemma_mag_order(least_variance().index(), l.index());
        }
        assert(l.larger(least_variance()) == least_variance());
    }
}

/// After a book the regime is the one that its variances tell.
pub proof fn books_tell_the_regime(
    config: Config,
    s: MmModel,
    bbo: Bbo,
    bid_depth: Double,
    ask_depth: Double,
    now: Double,
    decay: Decay,
)
    ensures
        ({
            let r = s.with_book(config, bbo, bid_depth, ask_depth, now, decay);
            let x = r.ewma_variance;
            let l = r.long_term_variance;
            &&& r.vol_regime == r.regime()
            &&& zero().at_most(x) && x.is_finite() && l.is_finite() && least_variance().at_most(l)
                ==> {
                &&& r.vol_regime == VolRegime::Low <==> 2 * x.value() < l.value()
                &&& x.value() >= 2 * l.value() <==> r.vol_regime == VolRegime::High || r.vol_regime
                    == VolRegime::Extreme
                &&& x.value() >= 5 * l.value() ==> r.vol_regime == VolRegime::Extreme
            }
        }),
{
    let r = s.with_book(config, bbo, bid_depth, ask_depth, now, decay);
    let x = r.ewma_variance;
    let l = r.long_term_variance;
    if zero().at_most(x) && x.is_finite() && l.is_finite() && least_variance().at_most(l) {
        regime_tells_agitation(r);
    }
}

// ---- the variances ------------------------------------------------------------------------------------

/// A book comes after another one, long enough for the price between them to tell a variance.
pub open spec fn follows(s: MmModel, now: Double) -> bool {
    &&& zero().less(s.last_variance_update_ts)
    &&& zero().less(s.last_mid_for_variance)
    &&& quotient(1, 100).less(now.minus(s.last_variance_update_ts))
}

/// The square of a price change per time.
spec fn instant(change: Double, dt: Double) -> Double {
    change.times(change).over(dt.larger(quotient(1, 1_000_000)))
}

proof fn lemma_follows(s: MmModel, now: Double)
    requires
        follows(s, now),
    ensures
        since_last_book(s, now) == now.minus(s.last_variance_update_ts),
        zero().less(now.minus(s.last_variance_update_ts)),
        now.minus(s.last_variance_update_ts).larger(quotient(1, 1_000_000)) == now.minus(
            s.last_variance_update_ts,
        ),
{
    let dt = now.minus(s.last_variance_update_ts);
    lemma_ratio(1, 100);
    lemma_ratio(1, 1_000_000);
    assert(mag(0) == 0);
    let u = one_unit();
    let a = quotient(1, 100).value();
    let b = quotient(1, 1_000_000).value();
    lemma_room();
    assert(b < a) by (nonlinear_arith)
        requires
            P53 * (1 * u) <= (P53 + 1) * (a * 100),
            (P53 - 1) * (b * 1_000_000) <= P53 * (1 * u),
            a >= 0,
            b >= 0,
            u > 0,
            P53 == 0x20_0000_0000_0000,
    ;
}

/// What a book makes of the variances.
proof fn lemma_book_variances(
    config: Config,
    s: MmModel,
    bbo: Bbo,
    bid_depth: Double,
    ask_depth: Double,
    now: Double,
    decay: Decay,
)
    requires
        follows(s, now),
    ensures
        ({
            let r = s.with_book(config, bbo, bid_depth, ask_depth, now, decay);
            let i = instant(
                bbo.mid.minus(s.last_mid_for_variance),
                now.minus(s.last_variance_update_ts),
            );
            &&& r.ewma_variance == running(
                s.ewma_variance,
                i,
                weight(decay.minute, quotient(1, 1000), quotient(5, 10)),
            )
            &&& r.long_term_variance == running(
                s.long_term_variance,
                i,
                weight(decay.ten_minutes, quotient(5, 10_000), quotient(1, 10)),
            )
        }),
{
    lemma_follows(s, now);
}

/// The weights lie within their bounds.
proof fn lemma_weights(share: Double, lo: Double, hi: Double)
    requires
        positive(lo),
        lo.at_most(hi),
        hi.at_most(quotient(5, 10)),
        !share.is_nan(),
    ensures
        lo.at_most(weight(share, lo, hi)),
        weight(share, lo, hi).at_most(hi),
        positive(weight(share, lo, hi)),
        quotient(5, 10).at_most(of_int(1).minus(weight(share, lo, hi))),
        of_int(1).minus(weight(share, lo, hi)).at_most(of_int(1)),
        positive(of_int(1).minus(weight(share, lo, hi))),
{
    let one = of_int(1);
    let half = quotient(5, 10);
    lemma_pow2_pos(UNIT as nat);
    integers_are_exact(1);
    assert(1 * one_unit() == one_unit());
    lemma_half();
    assert(mag(0) == 0);
    lemma_value(share);
    if share.is_finite() {
        lemma_difference(one, share);
    }
    assert(!one.minus(share).is_nan());
    let x = one.minus(share);
    clamps_keep_order(x, x, lo, hi);
    let w = weight(share, lo, hi);
    lemma_value(hi);
    lemma_mag_order(half.index(), INF as int);
    lies_between(lo, w, half);
    lemma_difference(one, w);
    lemma_difference(one, half);
    differences_keep_order(w, half, one);
    lemma_exact_half();
    crate::order::subtracting_shrinks(one, w);
    lies_between(half, one.minus(w), one);
}

/// One less a half is a half.
proof fn lemma_exact_half()
    ensures
        of_int(1).minus(quotient(5, 10)) == quotient(5, 10),
{
    let u = one_unit();
    lemma_pow2_pos(UNIT as nat);
    lemma_half();
    integers_are_exact(1);
    assert(1 * u == u);
    let h = quotient(5, 10);
    lemma_difference(of_int(1), h);
    lemma_value(h);
    crate::order::lemma_rounding_exact(h.index());
    let d = of_int(1).minus(h);
    lemma_value(d);
    assert(size_of(of_int(1).value() - h.value()) == mag(h.index()));
}

proof fn lemma_bounds_of_weights()
    ensures
        positive(quotient(1, 1000)) && quotient(1, 1000).at_most(quotient(5, 10)),
        positive(quotient(5, 10_000)) && quotient(5, 10_000).at_most(quotient(1, 10)),
        quotient(1, 10).at_most(quotient(5, 10)),
        quotient(5, 10).at_most(quotient(5, 10)),
{
    ratios_keep_order(1, 1000, 5, 10);
    ratios_keep_order(5, 10_000, 1, 10);
    ratios_keep_order(1, 10, 5, 10);
}

/// Squares grow with the size of what is squared.
proof fn lemma_squares(a: Double, b: Double)
    requires
        !a.is_nan(),
        !b.is_nan(),
        a.index() <= b.index(),
    ensures
        zero().at_most(a.times(a)),
        a.times(a).at_most(b.times(b)),
        a.index() == b.index() ==> a.times(a) == b.times(b),
{
    let u = one_unit();
    lemma_pow2_pos(UNIT as nat);
    lemma_mag_order(a.index(), b.index());
    assert(mag(0) == 0);
    let x = mag(a.index());
    let y = mag(b.index());
    if b.is_finite() {
        assert(x * x <= y * y) by (nonlinear_arith)
            requires
                x <= y,
        ;
        lemma_rounded(false, x * x, u);
        lemma_rounded(false, y * y, u);
        lemma_rounding_monotone(x * x, y * y, u);
        lemma_mag_order(nearest(x * x, u), nearest(y * y, u));
    } else {
        lemma_mag_order(0, INF as int);
        if a.is_finite() {
            lemma_rounded(false, x * x, u);
            lemma_rounding_exists(x * x, u);
            lemma_mag_order(nearest(x * x, u), INF as int);
        }
    }
}

/// A larger price change is a larger variance, and whether the price rose or fell makes no
/// difference to it.
proof fn lemma_instants(last: Double, m1: Double, m2: Double, dt: Double)
    requires
        positive(last),
        positive(m1),
        positive(m2),
        zero().less(dt),
        dt.is_finite(),
        apart(m1, last) <= apart(m2, last),
    ensures
        zero().at_most(m1.minus(last).times(m1.minus(last)).over(dt)),
        m1.minus(last).times(m1.minus(last)).over(dt).at_most(
            m2.minus(last).times(m2.minus(last)).over(dt),
        ),
        apart(m1, last) == apart(m2, last) ==> m1.minus(last).times(m1.minus(last)) == m2.minus(
            last,
        ).times(m2.minus(last)),
{
    lemma_difference(m1, last);
    lemma_difference(m2, last);
    lemma_rounding_monotone(apart(m1, last), apart(m2, last), 1);
    let a = m1.minus(last);
    let b = m2.minus(last);
    lemma_squares(a, b);
    lemma_number_over(a.times(a), dt);
    lemma_number_over(b.times(b), dt);
    quotients_keep_order(a.times(a), b.times(b), dt);
    lemma_value(dt);
    assert(mag(0) == 0);
    crate::order::quotient_sign(a.times(a), dt);
}

/// A running average grows with its new value.
proof fn lemma_running_order(x: Double, a: Double, b: Double, w: Double)
    requires
        zero().at_most(a),
        a.at_most(b),
        positive(w),
        !running(x, a, w).is_nan(),
        !running(x, b, w).is_nan(),
    ensures
        running(x, a, w).at_most(running(x, b, w)),
{
    if zero().less(x) {
        let k = x.times(of_int(1).minus(w));
        numbers_come_from_numbers(k, a.times(w));
        numbers_come_from_numbers(k, b.times(w));
        products_keep_order(a, b, w);
        lemma_plus_commutes(k, a.times(w));
        lemma_plus_commutes(k, b.times(w));
        sums_keep_order(a.times(w), b.times(w), k);
    }
}

/// The variances do not fall with the size of a price change, and do not depend on whether the
/// price rose or fell.
pub proof fn moves_raise_the_variances(
    config: Config,
    s: MmModel,
    b1: Bbo,
    b2: Bbo,
    bid_depth: Double,
    ask_depth: Double,
    now: Double,
    decay: Decay,
)
    requires
        follows(s, now),
        now.minus(s.last_variance_update_ts).is_finite(),
        s.last_mid_for_variance.is_finite(),
        positive(b1.mid),
        positive(b2.mid),
        !decay.minute.is_nan(),
        !decay.ten_minutes.is_nan(),
        apart(b1.mid, s.last_mid_for_variance) <= apart(b2.mid, s.last_mid_for_variance),
    ensures
        ({
            let r = s.with_book(config, b1, bid_depth, ask_depth, now, decay);
            let t = s.with_book(config, b2, bid_depth, ask_depth, now, decay);
            &&& !r.ewma_variance.is_nan() && !t.ewma_variance.is_nan() ==> r.ewma_variance.at_most(
                t.ewma_variance,
            )
            &&& !r.long_term_variance.is_nan() && !t.long_term_variance.is_nan()
                ==> r.long_term_variance.at_most(t.long_term_variance)
            &&& apart(b1.mid, s.last_mid_for_variance) == apart(b2.mid, s.last_mid_for_variance)
                ==> r.ewma_variance == t.ewma_variance && r.long_term_variance
                == t.long_term_variance
        }),
{
    lemma_book_variances(config, s, b1, bid_depth, ask_depth, now, decay);
    lemma_book_variances(config, s, b2, bid_depth, ask_depth, now, decay);
    lemma_follows(s, now);
    let dt = now.minus(s.last_variance_update_ts);
    let last = s.last_mid_for_variance;
    lemma_instants(last, b1.mid, b2.mid, dt);
    lemma_bounds_of_weights();
    lemma_weights(decay.minute, quotient(1, 1000), quotient(5, 10));
    lemma_weights(decay.ten_minutes, quotient(5, 10_000), quotient(1, 10));
    let r = s.with_book(config, b1, bid_depth, ask_depth, now, decay);
    let t = s.with_book(config, b2, bid_depth, ask_depth, now, decay);
    let i = instant(b1.mid.minus(last), dt);
    let j = instant(b2.mid.minus(last), dt);
    if !r.ewma_variance.is_nan() && !t.ewma_variance.is_nan() {
        lemma_running_order(
            s.ewma_variance,
            i,
            j,
            weight(decay.minute, quotient(1, 1000), quotient(5, 10)),
        );
    }
    if !r.long_term_variance.is_nan() && !t.long_term_variance.is_nan() {
        lemma_running_order(
            s.long_term_variance,
            i,
            j,
            weight(decay.ten_minutes, quotient(5, 10_000), quotient(1, 10)),
        );
    }
}

/// A running average whose new value is nothing.
proof fn lemma_fading(x: Double, i: Double, share: Double, lo: Double, hi: Double)
    requires
        positive(x),
        i.index() == 0,
        positive(lo),
        lo.at_most(hi),
        hi.at_most(quotient(5, 10)),
        !share.is_nan(),
    ensures
        running(x, i, weight(share, lo, hi)).equal(x.times(of_int(1).minus(weight(share, lo, hi)))),
        x.times(quotient(5, 10)).at_most(running(x, i, weight(share, lo, hi))),
        running(x, i, weight(share, lo, hi)).at_most(x),
        x.times(of_int(1).minus(hi)).at_most(running(x, i, weight(share, lo, hi))),
        running(x, i, weight(share, lo, hi)).at_most(x.times(of_int(1).minus(lo))),
{
    let one = of_int(1);
    let w = weight(share, lo, hi);
    lemma_weights(share, lo, hi);
    let k = x.times(one.minus(w));
    let z = i.times(w);
    crate::order::product_is_number(i, w);
    lemma_times_commutes(i, w);
    lemma_zero_product(w, i);
    assert(z.index() == 0);
    crate::order::product_is_number(x, one.minus(w));
    lemma_value(k);
    lemma_value(z);
    assert(mag(0) == 0);
    // adding nothing
    if k.is_finite() {
        crate::order::lemma_plus_value(k, z);
        crate::order::lemma_rounding_exact(k.index());
        lemma_rounded(k.value() < 0, mag(k.index()), 1);
    }
    assert(k.plus(z).equal(k));
    lemma_pow2_pos(UNIT as nat);
    integers_are_exact(1);
    assert(1 * one_unit() == one_unit());
    lemma_half();
    times_one(x);
    lemma_times_commutes(x, quotient(5, 10));
    lemma_times_commutes(x, one.minus(w));
    lemma_times_commutes(x, one);
    crate::order::product_is_number(x, quotient(5, 10));
    crate::order::product_is_number(x, one);
    products_keep_order(quotient(5, 10), one.minus(w), x);
    products_keep_order(one.minus(w), one, x);
    // between the bounds
    lies_between(lo, w, quotient(5, 10));
    lemma_value(hi);
    lies_between(lo, hi, quotient(5, 10));
    lemma_difference(one, hi);
    lemma_difference(one, lo);
    lemma_difference(one, w);
    differences_keep_order(w, hi, one);
    differences_keep_order(lo, w, one);
    lemma_times_commutes(x, one.minus(hi));
    lemma_times_commutes(x, one.minus(lo));
    differences_keep_order(hi, quotient(5, 10), one);
    lemma_exact_half();
    lemma_difference(one, quotient(5, 10));
    crate::order::subtracting_shrinks(one, hi);
    crate::order::subtracting_shrinks(one, lo);
    lies_between(quotient(5, 10), one.minus(hi), one);
    lies_between(quotient(5, 10), one.minus(lo), one);
    crate::order::product_is_number(x, one.minus(hi));
    crate::order::product_is_number(x, one.minus(lo));
    products_keep_order(one.minus(hi), one.minus(w), x);
    products_keep_order(one.minus(w), one.minus(lo), x);
}

/// Where the price stands still the variances fade: the short-term one keeps at least a half and
/// loses at least a thousandth, the long-term one keeps at least nine tenths and loses at least
/// five parts in ten thousand. The larger the share that is left after the time that has passed,
/// the more they keep.
pub proof fn variances_fade(
    config: Config,
    s: MmModel,
    bbo: Bbo,
    bid_depth: Double,
    ask_depth: Double,
    now: Double,
    d1: Decay,
    d2: Decay,
)
    requires
        follows(s, now),
        now.minus(s.last_variance_update_ts).is_finite(),
        positive(s.last_mid_for_variance),
        bbo.mid == s.last_mid_for_variance,
        positive(s.ewma_variance),
        positive(s.long_term_variance),
        d1.minute.at_most(d2.minute),
        d1.ten_minutes.at_most(d2.ten_minutes),
    ensures
        ({
            let r = s.with_book(config, bbo, bid_depth, ask_depth, now, d1);
            let t = s.with_book(config, bbo, bid_depth, ask_depth, now, d2);
            let one = of_int(1);
            &&& s.ewma_variance.times(quotient(5, 10)).at_most(r.ewma_variance)
            &&& r.ewma_variance.at_most(s.ewma_variance.times(one.minus(quotient(1, 1000))))
            &&& s.long_term_variance.times(one.minus(quotient(1, 10))).at_most(
                r.long_term_variance,
            )
            &&& r.long_term_variance.at_most(
                s.long_term_variance.times(one.minus(quotient(5, 10_000))),
            )
            &&& r.ewma_variance.at_most(t.ewma_variance)
            &&& r.long_term_variance.at_most(t.long_term_variance)
        }),
{
    lemma_book_variances(config, s, bbo, bid_depth, ask_depth, now, d1);
    lemma_book_variances(config, s, bbo, bid_depth, ask_depth, now, d2);
    lemma_follows(s, now);
    lemma_bounds_of_weights();
    let dt = now.minus(s.last_variance_update_ts);
    let c = bbo.mid.minus(s.last_mid_for_variance);
    lemma_difference(bbo.mid, s.last_mid_for_variance);
    lemma_value(c);
    crate::order::product_is_number(c, c);
    lemma_zero_product(c, c);
    crate::order::lemma_zero_quotient(c.times(c), dt);
    let i = instant(c, dt);
    lemma_fading(s.ewma_variance, i, d1.minute, quotient(1, 1000), quotient(5, 10));
    lemma_fading(s.ewma_variance, i, d2.minute, quotient(1, 1000), quotient(5, 10));
    lemma_fading(s.long_term_variance, i, d1.ten_minutes, quotient(5, 10_000), quotient(1, 10));
    lemma_fading(s.long_term_variance, i, d2.ten_minutes, quotient(5, 10_000), quotient(1, 10));
    lemma_fading_order(s.ewma_variance, d1.minute, d2.minute, quotient(1, 1000), quotient(5, 10));
    lemma_fading_order(
        s.long_term_variance,
        d1.ten_minutes,
        d2.ten_minutes,
        quotient(5, 10_000),
        quotient(1, 10),
    );
}

/// What is kept grows with the share that is left.
proof fn lemma_fading_order(x: Double, a: Double, b: Double, lo: Double, hi: Double)
    requires
        positive(x),
        a.at_most(b),
        positive(lo),
        lo.at_most(hi),
        hi.at_most(quotient(5, 10)),
    ensures
        x.times(of_int(1).minus(weight(a, lo, hi))).at_most(
            x.times(of_int(1).minus(weight(b, lo, hi))),
        ),
{
    let one = of_int(1);
    lemma_pow2_pos(UNIT as nat);
    integers_are_exact(1);
    lemma_weights(a, lo, hi);
    lemma_weights(b, lo, hi);
    differences_keep_order(a, b, one);
    if a.is_finite() {
        lemma_difference(one, a);
    }
    if b.is_finite() {
        lemma_difference(one, b);
    }
    clamps_keep_order(one.minus(b), one.minus(a), lo, hi);
    let v = weight(a, lo, hi);
    let w = weight(b, lo, hi);
    differences_keep_order(w, v, one);
    crate::order::product_is_number(x, one.minus(v));
    crate::order::product_is_number(x, one.minus(w));
    lemma_times_commutes(x, one.minus(v));
    lemma_times_commutes(x, one.minus(w));
    products_keep_order(one.minus(v), one.minus(w), x);
}

/// The first variance of a session is the square of the price change per second: nothing of the
/// past is mixed into it, and for the same change it does not rise with the time that it took.
/// After one second it is the square itself.
pub proof fn first_variance_is_the_move_per_second(
    config: Config,
    s: MmModel,
    bbo: Bbo,
    bid_depth: Double,
    ask_depth: Double,
    now: Double,
    later: Double,
    d1: Decay,
    d2: Decay,
)
    requires
        follows(s, now),
        follows(s, later),
        now.at_most(later),
        now.minus(s.last_variance_update_ts).is_finite(),
        later.minus(s.last_variance_update_ts).is_finite(),
        positive(s.last_mid_for_variance),
        positive(bbo.mid),
        s.ewma_variance.at_most(zero()),
        s.long_term_variance.at_most(zero()),
    ensures
        ({
            let r = s.with_book(config, bbo, bid_depth, ask_depth, now, d1);
            let t = s.with_book(config, bbo, bid_depth, ask_depth, later, d2);
            let change = bbo.mid.minus(s.last_mid_for_variance);
            &&& r.ewma_variance == r.long_term_variance
            &&& t.ewma_variance.at_most(r.ewma_variance)
            &&& now.minus(s.last_variance_update_ts) == of_int(1) ==> r.ewma_variance
                == change.times(change)
        }),
{
    lemma_book_variances(config, s, bbo, bid_depth, ask_depth, now, d1);
    lemma_book_variances(config, s, bbo, bid_depth, ask_depth, later, d2);
    lemma_follows(s, now);
    lemma_follows(s, later);
    let a = now.minus(s.last_variance_update_ts);
    let b = later.minus(s.last_variance_update_ts);
    differences_keep_order(now, later, s.last_variance_update_ts);
    lemma_instants(s.last_mid_for_variance, bbo.mid, bbo.mid, a);
    lemma_instants(s.last_mid_for_variance, bbo.mid, bbo.mid, b);
    let c = bbo.mid.minus(s.last_mid_for_variance);
    lemma_difference(bbo.mid, s.last_mid_for_variance);
    lemma_squares(c, c);
    larger_divisors_leave_less(c.times(c), a, b);
    lemma_over_one(c.times(c));
}

/// A number over one is itself.
pub proof fn lemma_over_one(x: Double)
    requires
        !x.is_nan(),
    ensures
        x.over(of_int(1)) == x,
{
    let u = one_unit();
    lemma_pow2_pos(UNIT as nat);
    integers_are_exact(1);
    assert(1 * u == u);
    let one = of_int(1);
    lemma_value(one);
    assert(mag(0) == 0);
    if x.is_finite() {
        crate::order::lemma_extended(mag(x.index()), 1, u);
        crate::order::lemma_rounding_exact(x.index());
    }
}

/// Where nothing is left of the past after the time that has passed, the old and the new
/// short-term variance weigh the same: either could have come first.
pub proof fn old_and_new_variances_weigh_the_same_in_the_end(
    old_value: Double,
    new_value: Double,
    share: Double,
)
    requires
        share.at_most(quotient(5, 10)),
        zero().less(old_value),
        zero().less(new_value),
    ensures
        ({
            let w = weight(share, quotient(1, 1000), quotient(5, 10));
            running(old_value, new_value, w) == running(new_value, old_value, w)
        }),
{
    let one = of_int(1);
    let half = quotient(5, 10);
    lemma_pow2_pos(UNIT as nat);
    integers_are_exact(1);
    assert(1 * one_unit() == one_unit());
    lemma_half();
    lemma_exact_half();
    assert(mag(0) == 0);
    lemma_value(share);
    if share.is_finite() {
        lemma_difference(one, share);
    }
    assert(!one.minus(share).is_nan());
    differences_keep_order(share, half, one);
    ratios_keep_order(1, 1000, 5, 10);
    let x = one.minus(share);
    let w = weight(share, quotient(1, 1000), half);
    lemma_value(x);
    if x.value() == half.value() {
        lemma_mag_order(x.index(), half.index());
        lemma_mag_order(half.index(), x.index());
    }
    assert(w == half);
    lemma_plus_commutes(old_value.times(half), new_value.times(half));
}

/// Books that come in quick succession, or before there was a price, leave the variances alone.
pub proof fn quick_books_leave_the_variances(
    config: Config,
    s: MmModel,
    bbo: Bbo,
    bid_depth: Double,
    ask_depth: Double,
    now: Double,
    decay: Decay,
)
    requires
        now.minus(s.last_variance_update_ts).at_most(quotient(1, 100)) || s.last_variance_update_ts.at_most(
            zero(),
        ) || s.last_mid_for_variance.at_most(zero()),
    ensures
        ({
            let r = s.with_book(config, bbo, bid_depth, ask_depth, now, decay);
            &&& r.ewma_variance == s.ewma_variance
            &&& r.long_term_variance == s.long_term_variance
            &&& r.last_mid_for_variance == bbo.mid
            &&& r.last_variance_update_ts == now
        }),
{
    lemma_ratio(1, 100);
    assert(mag(0) == 0);
    lemma_value(quotient(1, 100));
}

// ---- the imbalance of the book -------------------------------------------------------------------------

/// The imbalance of two depths as it is computed.
spec fn imbalance_of(b: Double, a: Double) -> Double {
    b.minus(a).over(b.plus(a))
}

proof fn lemma_negative(a: Double)
    requires
        !a.is_nan(),
    ensures
        of_int(-1).value() == -(one_unit() as int),
        !of_int(-1).is_nan(),
        of_int(1).value() == one_unit(),
        !of_int(1).is_nan(),
        of_int(-1).at_most(of_int(1)),
{
    lemma_pow2_pos(UNIT as nat);
    integers_are_exact(1);
    assert(1 * one_unit() == one_unit());
    lemma_rounded(true, (1 * one_unit()) as nat, 1);
}

/// Three roundings in a row.
pub proof fn lemma_three_roundings(x: int, d: int, g: int, m: int)
    requires
        P53 * x <= (P53 + 1) * d,
        (P53 - 1) * d <= P53 * x,
        (P53 - 1) * g <= P53 * d,
        P53 * d <= (P53 + 1) * g,
        P53 * m <= (P53 + 1) * g,
        (P53 - 1) * g <= P53 * m,
        x >= 0,
        m >= 0,
    ensures
        (P53 - 4) * x <= P53 * m,
        P53 * m <= (P53 + 4) * x,
{
    let p = P53 as int;
    let a = p - 1;
    let b = p + 1;
    let aa = a * a;
    let bb = b * b;
    assert(aa * m <= (b * p) * x) by (nonlinear_arith)
        requires
            p * m <= b * g,
            a * g <= p * d,
            a * d <= p * x,
            aa == a * a,
            p > 1,
            a == p - 1,
            b == p + 1,
    {
        assert(aa * (p * m) <= aa * (b * g));
        assert(aa * (b * g) == (a * b) * (a * g));
        assert((a * b) * (a * g) <= (a * b) * (p * d));
        assert((a * b) * (p * d) == (b * p) * (a * d));
        assert((b * p) * (a * d) <= (b * p) * (p * x));
        assert(p * (aa * m) <= p * ((b * p) * x));
    }
    assert((a * p) * x <= bb * m) by (nonlinear_arith)
        requires
            a * g <= p * m,
            p * d <= b * g,
            p * x <= b * d,
            bb == b * b,
            p > 1,
            a == p - 1,
            b == p + 1,
    {
        assert((a * p) * (p * x) <= (a * p) * (b * d));
        assert((a * p) * (b * d) == (a * b) * (p * d));
        assert((a * b) * (p * d) <= (a * b) * (b * g));
        assert((a * b) * (b * g) == bb * (a * g));
        assert(bb * (a * g) <= bb * (p * m));
        assert(p * ((a * p) * x) <= p * (bb * m));
    }
    assert(p * m <= (p + 4) * x) by (nonlinear_arith)
        requires
            aa * m <= (b * p) * x,
            aa == a * a,
            a == p - 1,
            b == p + 1,
            x >= 0,
            m >= 0,
            p == 0x20_0000_0000_0000,
    {
        assert(p * (aa * m) <= p * ((b * p) * x));
        assert(p * (b * p) <= (p + 4) * aa);
        assert((p * (b * p)) * x <= ((p + 4) * aa) * x);
        assert(aa * (p * m) <= aa * ((p + 4) * x));
    }
    assert((p - 4) * x <= p * m) by (nonlinear_arith)
        requires
            (a * p) * x <= bb * m,
            bb == b * b,
            a == p - 1,
            b == p + 1,
            x >= 0,
            m >= 0,
            p == 0x20_0000_0000_0000,
    {
        assert(p * ((a * p) * x) <= p * (bb * m));
        assert((p - 4) * bb <= p * (a * p));
        assert(((p - 4) * bb) * x <= (p * (a * p)) * x);
        assert(bb * ((p - 4) * x) <= bb * (p * m));
    }
}

/// The computed imbalance tells the exact one, `(b - a) / (b + a)`, but for a few roundings.
proof fn lemma_imbalance(b: Double, a: Double)
    requires
        zero().at_most(b),
        zero().at_most(a),
        b.is_finite(),
        a.is_finite(),
        zero().less(b.plus(a)),
        b.plus(a).is_finite(),
        0x1_0000_0000_0000_0000 * size_of(b.value() - a.value()) >= b.value() + a.value(),
    ensures
        ({
            let q = imbalance_of(b, a);
            let e = size_of(b.value() - a.value()) * one_unit();
            let m = mag(q.index()) * (b.value() + a.value());
            &&& !q.is_nan()
            &&& (P53 - 4) * e <= P53 * m
            &&& P53 * m <= (P53 + 4) * e
            &&& b.value() >= a.value() ==> q.value() >= 0
            &&& b.value() <= a.value() ==> q.value() <= 0
        }),
{
    let u = one_unit();
    lemma_room();
    assert(mag(0) == 0);
    lemma_value(a);
    lemma_value(b);
    lemma_difference(b, a);
    lemma_difference(b, a.negated());
    assert(a.negated().negated() == a);
    let d = b.minus(a);
    let t = b.plus(a);
    lemma_value(d);
    lemma_value(t);
    let x = size_of(b.value() - a.value());
    let y = (b.value() + a.value()) as nat;
    assert(t.index() == nearest(y, 1));
    // the difference is not larger than the larger of the two
    crate::order::lemma_rounding_exact(a.index());
    crate::order::lemma_rounding_exact(b.index());
    if a.value() <= b.value() {
        lemma_rounding_monotone(x, mag(b.index()), 1);
    } else {
        lemma_rounding_monotone(x, mag(a.index()), 1);
    }
    assert(d.is_finite());
    let dv = mag(d.index());
    let tv = mag(t.index());
    let q = d.over(t);
    lemma_rounded(d.neg() != t.neg(), dv * u, tv);
    assert(P52 * tv <= dv * u && dv * u <= pow2(2000) * tv) by (nonlinear_arith)
        requires
            0x1_0000_0000_0000_0000 * x >= y,
            x <= y,
            P53 * x <= (P53 + 1) * dv,
            (P53 - 1) * dv <= P53 * x,
            P53 * y <= (P53 + 1) * tv,
            (P53 - 1) * tv <= P53 * y,
            u >= 0x1_0000_0000_0000_0000_0000_0000_0000_0000nat,
            pow2(2000) >= 0x1_0000_0000_0000_0000_0000_0000_0000_0000nat * u,
            P53 == 0x20_0000_0000_0000,
            P52 == 0x10_0000_0000_0000,
    {
        assert(tv <= 2 * y);
        assert(x <= 2 * dv);
        assert(tv <= 4 * (0x1_0000_0000_0000_0000 * dv));
        assert(P52 * tv <= (0x10_0000_0000_0000 * (4 * 0x1_0000_0000_0000_0000)) * dv);
        assert((0x10_0000_0000_0000 * (4 * 0x1_0000_0000_0000_0000)) * dv <= u * dv);
        assert(dv <= 2 * x);
        assert(y <= 2 * tv);
        assert(dv <= 4 * tv);
        assert(dv * u <= (4 * tv) * u);
        assert((4 * u) * tv <= pow2(2000) * tv);
    }
    crate::order::lemma_relative(dv * u, tv);
    lemma_value(q);
    let qv = mag(q.index());
    let p = P53 as int;
    let e = x * u;
    let m = qv * y;
    let g = qv * tv;
    assert(p * m <= (p + 1) * g && (p - 1) * g <= p * m) by (nonlinear_arith)
        requires
            m == qv * y,
            g == qv * tv,
            p * y <= (p + 1) * tv,
            (p - 1) * tv <= p * y,
            qv >= 0,
    {
        assert(qv * (p * y) <= qv * ((p + 1) * tv));
        assert(qv * ((p - 1) * tv) <= qv * (p * y));
    }
    assert(p * e <= (p + 1) * (dv * u) && (p - 1) * (dv * u) <= p * e) by (nonlinear_arith)
        requires
            e == x * u,
            p * x <= (p + 1) * dv,
            (p - 1) * dv <= p * x,
            u > 0,
    {
        assert((p * x) * u <= ((p + 1) * dv) * u);
        assert(((p - 1) * dv) * u <= (p * x) * u);
    }
    lemma_three_roundings(e as int, (dv * u) as int, g as int, m as int);
    if b.value() == a.value() {
        assert(dv * u == 0) by (nonlinear_arith)
            requires
                dv == 0,
        ;
    }
}

/// The imbalance of a book is the difference of its depths over their sum, but for rounding:
/// positive where there is more on the side of the bids, and between minus one and one. Without
/// depths it is nothing.
pub proof fn imbalance_compares_the_depths(
    config: Config,
    s: MmModel,
    bbo: Bbo,
    b: Double,
    a: Double,
    now: Double,
    decay: Decay,
)
    requires
        zero().at_most(b),
        zero().at_most(a),
        b.is_finite(),
        a.is_finite(),
        b.plus(a).is_finite(),
    ensures
        ({
            let q = s.with_book(config, bbo, b, a, now, decay).book_imbalance;
            let u = one_unit();
            let e = size_of(b.value() - a.value()) * u;
            let m = size_of(q.value()) * (b.value() + a.value());
            &&& !q.is_nan()
            &&& -(u as int) <= q.value() <= u
            &&& b.value() >= a.value() ==> q.value() >= 0
            &&& b.value() <= a.value() ==> q.value() <= 0
            &&& P53 * m <= (P53 + 4) * e || 0x1_0000_0000_0000_0000 * size_of(
                b.value() - a.value(),
            ) < b.value() + a.value()
            &&& 0x1_0000_0000_0000_0000 * size_of(b.value() - a.value()) >= b.value() + a.value()
                ==> (P53 - 4) * e <= P53 * m || size_of(q.value()) == u
        }),
{
    let q = s.with_book(config, bbo, b, a, now, decay).book_imbalance;
    let u = one_unit();
    lemma_pow2_pos(UNIT as nat);
    lemma_negative(zero());
    assert(mag(0) == 0);
    lemma_value(a);
    lemma_value(b);
    lemma_difference(b, a.negated());
    assert(a.negated().negated() == a);
    let t = b.plus(a);
    lemma_value(t);
    let x = size_of(b.value() - a.value());
    let y = b.value() + a.value();
    if zero().less(t) {
        let i = imbalance_of(b, a);
        lemma_difference(b, a);
        let d = b.minus(a);
        lemma_value(d);
        crate::order::lemma_rounding_exact(a.index());
        crate::order::lemma_rounding_exact(b.index());
        if a.value() <= b.value() {
            lemma_rounding_monotone(x, mag(b.index()), 1);
        } else {
            lemma_rounding_monotone(x, mag(a.index()), 1);
        }
        assert(d.is_finite());
        lemma_number_over(d, t);
        lemma_value(i);
        lemma_rounded(d.neg() != t.neg(), mag(d.index()) * u, mag(t.index()));
        if b.value() == a.value() {
            assert(mag(d.index()) * u == 0) by (nonlinear_arith)
                requires
                    mag(d.index()) == 0,
            ;
            crate::order::lemma_zero_rounding(mag(t.index()));
        }
        assert(q == i.clamped(of_int(-1), of_int(1)));
        if 0x1_0000_0000_0000_0000 * x >= y {
            lemma_imbalance(b, a);
            if q != i {
                assert(size_of(q.value()) == u);
                let m = u * y;
                let n = mag(i.index()) * y;
                assert(m <= n) by (nonlinear_arith)
                    requires
                        m == u * y,
                        n == mag(i.index()) * y,
                        u <= mag(i.index()),
                        y >= 0,
                ;
            }
        }
    } else {
        assert(y == 0);
        assert(x * u == 0 && size_of(q.value()) * y == 0) by (nonlinear_arith)
            requires
                x == 0,
                y == 0,
        ;
    }
}

/// The averaged imbalance of a book that follows another: as the variances do, it keeps between a
/// half and ninety-nine hundredths of what it was where the book is balanced, the more the larger
/// the share that is left; and the first one is the imbalance itself.
pub proof fn imbalance_is_averaged(
    config: Config,
    s: MmModel,
    bbo: Bbo,
    b: Double,
    a: Double,
    now: Double,
    d1: Decay,
    d2: Decay,
)
    requires
        positive(b),
        b.plus(a).is_finite(),
    ensures
        ({
            let r = s.with_book(config, bbo, b, a, now, d1);
            let t = s.with_book(config, bbo, b, a, now, d2);
            let x = s.book_imbalance_ema;
            &&& s.last_variance_update_ts.at_most(zero()) || now.at_most(s.last_variance_update_ts)
                ==> r.book_imbalance_ema == r.book_imbalance
            &&& zero().less(s.last_variance_update_ts) && zero().less(
                now.minus(s.last_variance_update_ts),
            ) && a == b && positive(x) && d1.ten_seconds.at_most(d2.ten_seconds) ==> {
                &&& x.times(quotient(5, 10)).at_most(r.book_imbalance_ema)
                &&& r.book_imbalance_ema.at_most(x.times(of_int(1).minus(quotient(1, 100))))
                &&& r.book_imbalance_ema.at_most(t.book_imbalance_ema)
            }
        }),
{
    let x = s.book_imbalance_ema;
    let last = s.last_variance_update_ts;
    assert(mag(0) == 0);
    if zero().less(last) && now.at_most(last) {
        if now.is_finite() && last.is_finite() {
            lemma_difference(now, last);
        } else {
            lemma_value(now);
            lemma_value(last);
            lemma_mag_order(last.index(), INF as int);
            assert(nan().is_nan());
            crate::order::lemma_extremes(now);
            crate::order::lemma_extremes(last);
        }
    }
    if zero().less(last) && zero().less(now.minus(last)) && a == b && positive(x)
        && d1.ten_seconds.at_most(d2.ten_seconds) {
        let r = s.with_book(config, bbo, b, a, now, d1);
        let t = s.with_book(config, bbo, b, a, now, d2);
        lemma_difference(b, a);
        lemma_value(b);
        lemma_negative(zero());
        lemma_pow2_pos(UNIT as nat);
        let d = b.minus(a);
        lemma_value(d);
        let i = r.book_imbalance;
        crate::order::adding_grows(b, a);
        assert(zero().less(b.plus(a)));
        crate::order::lemma_zero_quotient(d, b.plus(a));
        lemma_value(imbalance_of(b, a));
        assert(i.index() == 0);
        ratios_keep_order(1, 100, 5, 10);
        ratios_keep_order(5, 10, 5, 10);
        lemma_fading(x, i, d1.ten_seconds, quotient(1, 100), quotient(5, 10));
        lemma_fading(x, i, d2.ten_seconds, quotient(1, 100), quotient(5, 10));
        lemma_fading_order(x, d1.ten_seconds, d2.ten_seconds, quotient(1, 100), quotient(5, 10));
    }
}

/// Where little is left of the past, the old and the new imbalance weigh the same.
pub proof fn old_and_new_imbalance_weigh_the_same_in_the_end(
    config: Config,
    s: MmModel,
    t: MmModel,
    bbo: Bbo,
    b: Double,
    a: Double,
    c: Double,
    e: Double,
    now: Double,
    decay: Decay,
)
    requires
        zero().less(s.last_variance_update_ts),
        zero().less(now.minus(s.last_variance_update_ts)),
        t.last_variance_update_ts == s.last_variance_update_ts,
        decay.ten_seconds.at_most(quotient(5, 10)),
        s.book_imbalance_ema == t.with_book(config, bbo, c, e, now, decay).book_imbalance,
        t.book_imbalance_ema == s.with_book(config, bbo, b, a, now, decay).book_imbalance,
    ensures
        s.with_book(config, bbo, b, a, now, decay).book_imbalance_ema == t.with_book(
            config,
            bbo,
            c,
            e,
            now,
            decay,
        ).book_imbalance_ema,
{
    let one = of_int(1);
    let half = quotient(5, 10);
    let share = decay.ten_seconds;
    lemma_pow2_pos(UNIT as nat);
    integers_are_exact(1);
    assert(1 * one_unit() == one_unit());
    lemma_half();
    lemma_exact_half();
    assert(mag(0) == 0);
    lemma_value(share);
    if share.is_finite() {
        lemma_difference(one, share);
    }
    differences_keep_order(share, half, one);
    ratios_keep_order(1, 100, 5, 10);
    let x = one.minus(share);
    let w = weight(share, quotient(1, 100), half);
    lemma_value(x);
    if x.value() == half.value() {
        lemma_mag_order(x.index(), half.index());
        lemma_mag_order(half.index(), x.index());
    }
    assert(w == half);
    lemma_plus_commutes(s.book_imbalance_ema.times(half), t.book_imbalance_ema.times(half));
}

// ---- prices and times ----------------------------------------------------------------------------------

/// The prices of a book are those that are kept last; older ones keep their order, and no more
/// than the window are kept.
pub proof fn prices_are_kept_in_order(
    config: Config,
    s: MmModel,
    bbo: Bbo,
    bid_depth: Double,
    ask_depth: Double,
    now: Double,
    decay: Decay,
)
    requires
        config.timing.vol_window >= 1,
        s.price_history.len() <= config.timing.vol_window,
    ensures
        ({
            let r = s.with_book(config, bbo, bid_depth, ask_depth, now, decay);
            let n = s.price_history.len();
            let k = r.price_history.len();
            &&& r.bbo == Some(bbo)
            &&& r.last_ws_msg_ts == now
            &&& k == if n < config.timing.vol_window { n + 1 } else { n }
            &&& r.price_history[k - 1] == bbo.mid
            &&& forall|i: int|
                0 <= i < k - 1 ==> #[trigger] r.price_history[i] == s.price_history[n - (k - 1) + i]
        }),
{
    let all = s.price_history.push(bbo.mid);
    assert(with_price(s.price_history, bbo.mid, config.timing.vol_window as int) == if all.len()
        > config.timing.vol_window {
        all.skip(1)
    } else {
        all
    });
}

/// Counted in whole seconds, the time that is left is the length of the horizon less what has
/// passed of it, one second at least.
pub proof fn time_left_is_counted_down(
    config: Config,
    s: MmModel,
    bbo: Bbo,
    bid_depth: Double,
    ask_depth: Double,
    decay: Decay,
    start: nat,
    now: nat,
    length: nat,
)
    requires
        s.as_t0_ms == 1000 * start,
        start <= now <= 0x7ff_ffff_ffff,
        length <= 0xffff_ffff_ffff,
        config.as_model.t_secs == of_int(length as int),
    ensures
        s.with_book(
            config,
            bbo,
            bid_depth,
            ask_depth,
            of_int(now as int),
            decay,
        ).t_remaining_secs.value() == (if length - (now - start) >= 1 {
            length - (now - start)
        } else {
            1
        }) * one_unit(),
{
    let u = one_unit();
    lemma_pow2_pos(UNIT as nat);
    let t0 = of_int(s.as_t0_ms as int);
    let begin = t0.over(of_int(1000));
    lemma_thousandth(start, s.as_t0_ms as nat);
    integers_are_exact(start);
    integers_are_exact(now);
    integers_are_exact(length);
    integers_are_exact(1);
    let passed = (now - start) as nat;
    integers_are_exact(passed);
    lemma_whole_difference(now, start, of_int(now as int), begin);
    let elapsed = of_int(now as int).minus(begin);
    lemma_whole_difference(length, passed, of_int(length as int), elapsed);
    let left = of_int(length as int).minus(elapsed);
    let k = length - passed;
    if k >= 1 {
        assert(k * u >= 1 * u) by (nonlinear_arith)
            requires
                k >= 1,
                u > 0,
        ;
    } else {
        assert(k * u <= 0) by (nonlinear_arith)
            requires
                k <= 0,
                u > 0,
        ;
    }
}

/// Differences of whole numbers are exact.
pub proof fn lemma_whole_difference(m: nat, k: nat, a: Double, b: Double)
    requires
        m <= P53,
        k <= P53,
        a.is_finite(),
        b.is_finite(),
        a.value() == m * one_unit(),
        b.value() == k * one_unit(),
    ensures
        a.minus(b).is_finite(),
        a.minus(b).value() == (m - k) * one_unit(),
{
    let u = one_unit();
    lemma_pow2_pos(UNIT as nat);
    lemma_difference(a, b);
    let d = (if m >= k {
        m - k
    } else {
        k - m
    }) as nat;
    integers_are_exact(d);
    let e = a.value() - b.value();
    assert(e == (m - k) * u) by (nonlinear_arith)
        requires
            e == m * u - k * u,
    ;
    assert(size_of(e) == d * u) by (nonlinear_arith)
        requires
            e == (m - k) * u,
            d == (if m >= k {
                m - k
            } else {
                k - m
            }),
            size_of(e) == (if e < 0 {
                -e
            } else {
                e
            }),
            u > 0,
    ;
    crate::order::lemma_rounding_exact(of_int(d as int).index());
    let r = a.minus(b);
    lemma_value(r);
    assert(mag(r.index()) == d * u);
    if m >= k {
        assert(e >= 0) by (nonlinear_arith)
            requires
                e == (m - k) * u,
                m >= k,
                u > 0,
        ;
    } else {
        assert(e < 0) by (nonlinear_arith)
            requires
                e == (m - k) * u,
                m < k,
                u > 0,
        ;
    }
}

/// Thousands of milliseconds over a thousand are seconds.
pub proof fn lemma_thousandth(n: nat, ms: nat)
    requires
        ms == 1000 * n,
        n <= 0x7ff_ffff_ffff,
    ensures
        of_int(ms as int).over(of_int(1000)).is_finite(),
        of_int(ms as int).over(of_int(1000)).value() == n * one_unit(),
{
    let u = one_unit();
    lemma_room();
    integers_are_exact(n);
    integers_are_exact(1000);
    let x = of_int(n as int);
    lemma_value(of_int(1000));
    assert(mag(0) == 0);
    let num = mag(of_int(ms as int).index());
    integers_are_exact(ms);
    crate::double::lemma_exact(1000 * u, x.index());
    crate::double::lemma_nearest(mag(x.index()) * (1000 * u), 1000 * u, x.index());
    assert(num * u == mag(x.index()) * (1000 * u)) by (nonlinear_arith)
        requires
            num == ms * u,
            ms == 1000 * n,
            mag(x.index()) == n * u,
    ;
    lemma_rounded(false, num * u, 1000 * u);
}

/// The reservation price and the half spread that a book leaves are those that the grid for the same
/// book and position starts from, the half spread held under the configured ceiling.
pub proof fn grids_start_from_the_last_book(
    s: MmModel,
    config: Config,
    bbo: Bbo,
    bid_depth: Double,
    ask_depth: Double,
    now: Double,
    decay: Decay,
)
    ensures
        ({
            let after = s.with_book(config, bbo, bid_depth, ask_depth, now, decay);
            let ceiling = config.spread.max_spread_ticks.times(config.token.tick_size);
            let (center, delta) = model_quotes(bbo, s.position, config, after);
            &&& after.position == s.position
            &&& after.reservation_price == center
            &&& after.as_delta == delta || after.as_delta == ceiling
            &&& !delta.is_nan() && !ceiling.is_nan() ==> after.as_delta.at_most(delta)
                && after.as_delta.at_most(ceiling)
        }),
{
    let after = s.with_book(config, bbo, bid_depth, ask_depth, now, decay);
    integers_are_exact(1);
    integers_are_exact(60);
    integers_are_exact(150);
    let h = horizon(after.vol_regime, after.t_remaining_secs);
    assert(h.larger(of_int(1)) == h);
}

} // verus!
