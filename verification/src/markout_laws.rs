//! What holds of the samples that are taken after a fill, and of the score that they make.
use vstd::prelude::*;

use crate::bounds::{lemma_difference, lemma_value};
use crate::double::{lemma_mag_order, mag, of_int, one_unit, zero, Double, INF, P53};
use crate::market::{decay_exponent, decay_points, ln_2, since_last_book};
use crate::markout::{
    adverse, record_after, sampled, score_of, stats_after, weighed,
    weight_exponents, MarkoutRule,
};
use crate::matching_laws::positive;
use crate::model_laws::normal;
use crate::order::{
    adding_grows, differences_keep_order, integers_are_exact, larger_divisors_leave_less,
    lemma_rounded, lemma_times_commutes, positive_integers, product_is_number, products_keep_order,
    quotients_keep_order, sum_keeps_sign,
};
use crate::size_laws::{floors_of_bounds_keep_order, over_itself};
use crate::types::{FillRecord, MmModel, Side, Stats};

verus! {

// ---- samples -----------------------------------------------------------------------------------------------

proof fn lemma_sampled(
    fills: Seq<FillRecord>,
    n: int,
    stats: Stats,
    mid: Double,
    now: Double,
    rule: MarkoutRule,
)
    requires
        0 <= n <= fills.len(),
    ensures
        sampled(fills, n, stats, mid, now, rule).fills.len() == n,
        forall|i: int|
            0 <= i < n ==> #[trigger] sampled(fills, n, stats, mid, now, rule).fills[i]
                == record_after(fills[i], mid, now, rule),
    decreases n,
{
    if n > 0 {
        lemma_sampled(fills, n - 1, stats, mid, now, rule);
    }
}

/// Each fill is sampled once at each age, from one, five and ten seconds on and from that of the
/// rule on, and what was sampled stays; nothing else of its record changes.
pub proof fn fills_are_sampled_once_at_each_age(
    s: MmModel,
    weights: Seq<Double>,
    now: Double,
    rule: MarkoutRule,
    i: int,
)
    requires
        s.bbo is Some,
        0 <= i < s.fill_history.len(),
        now.is_finite(),
        s.fill_history[i].time.is_finite(),
        !rule.sample_sec.is_nan(),
    ensures
        ({
            let f = s.fill_history[i];
            let r = s.with_markouts(weights, now, rule).fill_history[i];
            let age = now.minus(f.time).value();
            let u = one_unit();
            &&& r.checked == (f.checked || age >= rule.sample_sec.value())
            &&& r.checked_1s == (f.checked_1s || age >= u)
            &&& r.checked_5s == (f.checked_5s || age >= 5 * u)
            &&& r.checked_10s == (f.checked_10s || age >= 10 * u)
            &&& r.markout_1s != f.markout_1s ==> !f.checked_1s && age >= u
            &&& r.markout_5s != f.markout_5s ==> !f.checked_5s && age >= 5 * u
            &&& r.markout_10s != f.markout_10s ==> !f.checked_10s && age >= 10 * u
            &&& !f.checked_1s && r.checked_1s ==> r.markout_1s is Some
            &&& !f.checked_5s && r.checked_5s ==> r.markout_5s is Some
            &&& !f.checked_10s && r.checked_10s ==> r.markout_10s is Some
            &&& r.side == f.side && r.fill_price == f.fill_price && r.time == f.time && r.order_ts
                == f.order_ts
        }),
{
    let bbo = s.bbo->0;
    lemma_sampled(s.fill_history, s.fill_history.len() as int, s.stats, bbo.mid, now, rule);
    integers_are_exact(1);
    integers_are_exact(5);
    integers_are_exact(10);
    lemma_difference(now, s.fill_history[i].time);
    assert(1 * one_unit() == one_unit());
}

/// What is sampled is how the price moved in favour of the fill: up from a purchase, down from a
/// sale. A rise after a purchase and the same fall after a sale are the same.
pub proof fn samples_favour_the_fill(
    s: MmModel,
    weights: Seq<Double>,
    now: Double,
    rule: MarkoutRule,
    i: int,
    j: int,
)
    requires
        s.bbo is Some,
        s.bbo->0.mid.is_finite(),
        0 <= i < s.fill_history.len(),
        0 <= j < s.fill_history.len(),
        s.fill_history[i].side == Side::Buy,
        s.fill_history[j].side == Side::Sell,
        s.fill_history[i].fill_price.is_finite(),
        s.fill_history[j].fill_price.is_finite(),
        !s.fill_history[i].checked_5s && !s.fill_history[j].checked_5s,
        !s.fill_history[i].checked_1s && !s.fill_history[i].checked_10s,
        s.with_markouts(weights, now, rule).fill_history[i].checked_5s,
        s.with_markouts(weights, now, rule).fill_history[j].checked_5s,
    ensures
        ({
            let r = s.with_markouts(weights, now, rule).fill_history;
            let mid = s.bbo->0.mid.value();
            let bought = s.fill_history[i].fill_price.value();
            let sold = s.fill_history[j].fill_price.value();
            let a = r[i].markout_5s->0;
            let b = r[j].markout_5s->0;
            &&& r[i].markout_5s is Some && r[j].markout_5s is Some
            &&& !a.is_nan() && !b.is_nan()
            &&& mid >= bought ==> a.value() >= 0
            &&& mid <= bought ==> a.value() <= 0
            &&& mid <= sold ==> b.value() >= 0
            &&& mid >= sold ==> b.value() <= 0
            &&& mid - bought == sold - mid ==> a.value() == b.value()
            &&& bought == 0 ==> a.value() == mid
            &&& r[i].checked_1s ==> r[i].markout_1s == Some(a)
            &&& r[i].checked_10s ==> r[i].markout_10s == Some(a)
        }),
{
    let mid = s.bbo->0.mid;
    lemma_sampled(s.fill_history, s.fill_history.len() as int, s.stats, mid, now, rule);
    let f = s.fill_history[i];
    let g = s.fill_history[j];
    lemma_difference(mid, f.fill_price);
    lemma_difference(g.fill_price, mid);
    let a = mid.minus(f.fill_price);
    let b = g.fill_price.minus(mid);
    lemma_value(a);
    lemma_value(b);
    lemma_value(mid);
    if f.fill_price.value() == 0 {
        crate::order::lemma_rounding_exact(mid.index());
    }
}

proof fn lemma_tallied(fills: Seq<FillRecord>, n: int, stats: Stats, mid: Double, now: Double, rule: MarkoutRule)
    requires
        n >= 0,
    ensures
        n == 0 ==> sampled(fills, n, stats, mid, now, rule).stats == stats,
        n == 1 ==> sampled(fills, n, stats, mid, now, rule).stats == stats_after(
            stats,
            fills[0],
            mid,
            now,
        ),
{
    reveal_with_fuel(sampled, 3);
}

/// A sample that is taken is added to the sum of its age and counted there; one that is not leaves
/// both. A fill that lost more than the threshold when it was sampled for the score is counted as
/// adverse.
pub proof fn samples_are_summed(
    s: MmModel,
    f: FillRecord,
    weights: Seq<Double>,
    now: Double,
    rule: MarkoutRule,
)
    requires
        s.bbo is Some,
        s.fill_history == seq![f],
        s.stats.markout_1s_count < u64::MAX,
        s.stats.markout_5s_count < u64::MAX,
        s.stats.markout_10s_count < u64::MAX,
        s.adverse_fill_count < u32::MAX,
        s.bbo->0.mid.is_finite(),
        f.fill_price.is_finite(),
        rule.threshold.is_finite(),
        f.fill_price.minus(rule.threshold).is_finite(),
        f.fill_price.plus(rule.threshold).is_finite(),
    ensures
        ({
            let r = s.with_markouts(weights, now, rule);
            let g = r.fill_history[0];
            let one = !f.checked_1s && g.checked_1s;
            let five = !f.checked_5s && g.checked_5s;
            let ten = !f.checked_10s && g.checked_10s;
            let mid = s.bbo->0.mid.value();
            let lost = if f.side == Side::Buy {
                mid < f.fill_price.minus(rule.threshold).value()
            } else {
                mid > f.fill_price.plus(rule.threshold).value()
            };
            &&& r.stats.markout_1s_count == s.stats.markout_1s_count + if one { 1int } else { 0 }
            &&& r.stats.markout_5s_count == s.stats.markout_5s_count + if five { 1int } else { 0 }
            &&& r.stats.markout_10s_count == s.stats.markout_10s_count + if ten { 1int } else { 0 }
            &&& one ==> r.stats.markout_1s_sum == s.stats.markout_1s_sum.plus(g.markout_1s->0)
            &&& five ==> r.stats.markout_5s_sum == s.stats.markout_5s_sum.plus(g.markout_5s->0)
            &&& ten ==> r.stats.markout_10s_sum == s.stats.markout_10s_sum.plus(g.markout_10s->0)
            &&& !one ==> r.stats.markout_1s_sum == s.stats.markout_1s_sum
            &&& !five ==> r.stats.markout_5s_sum == s.stats.markout_5s_sum
            &&& !ten ==> r.stats.markout_10s_sum == s.stats.markout_10s_sum
            &&& r.adverse_fill_count == s.adverse_fill_count + if !f.checked && g.checked && lost {
                1int
            } else {
                0
            }
        }),
{
    let mid = s.bbo->0.mid;
    lemma_sampled(s.fill_history, 1, s.stats, mid, now, rule);
    lemma_tallied(s.fill_history, 1, s.stats, mid, now, rule);
    reveal_with_fuel(sampled, 3);
    assert(s.fill_history[0] == f);
    assert(s.with_markouts(weights, now, rule).fill_history[0] == record_after(f, mid, now, rule));
    let b = sampled(s.fill_history, 0, s.stats, mid, now, rule);
    assert(b.adverse == 0);
}

// ---- the score -----------------------------------------------------------------------------------------------

/// A fill that lost more than a threshold: the price is below that of a purchase by more than it,
/// or above that of a sale.
pub open spec fn lost(f: FillRecord, mid: Double, threshold: Double) -> bool {
    if f.side == Side::Buy {
        mid.value() < f.fill_price.minus(threshold).value()
    } else {
        mid.value() > f.fill_price.plus(threshold).value()
    }
}

/// Prices and a threshold that a market can have.
pub open spec fn sane(fills: Seq<FillRecord>, mid: Double, threshold: Double) -> bool {
    &&& mid.is_finite()
    &&& threshold.is_finite()
    &&& forall|i: int|
        0 <= i < fills.len() ==> (#[trigger] fills[i]).fill_price.minus(threshold).is_finite()
            && fills[i].fill_price.plus(threshold).is_finite()
}

proof fn lemma_weighed(fills: Seq<FillRecord>, weights: Seq<Double>, n: int, mid: Double, threshold: Double)
    requires
        0 <= n <= fills.len(),
        weights.len() == fills.len(),
        sane(fills, mid, threshold),
        forall|i: int| 0 <= i < weights.len() ==> positive(#[trigger] weights[i]),
    ensures
        ({
            let w = weighed(fills, weights, n, mid, threshold);
            &&& zero().at_most(w.0)
            &&& zero().at_most(w.1)
            &&& (forall|i: int|
                0 <= i < n && (#[trigger] fills[i]).checked ==> lost(fills[i], mid, threshold))
                ==> w.0 == w.1
            &&& (forall|i: int|
                0 <= i < n && (#[trigger] fills[i]).checked ==> !lost(fills[i], mid, threshold))
                ==> w.0 == zero()
            &&& (exists|i: int| 0 <= i < n && (#[trigger] fills[i]).checked) ==> zero().less(w.1)
            &&& (forall|i: int| 0 <= i < n ==> !(#[trigger] fills[i]).checked) ==> w == (
                zero(),
                zero(),
            )
        }),
    decreases n,
{
    assert(mag(0) == 0);
    if n > 0 {
        lemma_weighed(fills, weights, n - 1, mid, threshold);
        let b = weighed(fills, weights, n - 1, mid, threshold);
        let f = fills[n - 1];
        let w = weights[n - 1];
        assert(positive(w));
        assert(f.fill_price.minus(threshold).is_finite());
        assert(adverse(f, mid, threshold) == lost(f, mid, threshold));
        sum_keeps_sign(b.0, w);
        sum_keeps_sign(b.1, w);
        crate::order::lemma_plus_commutes(b.1, w);
        lemma_value(w);
        lemma_value(b.1);
        adding_grows(w, b.1);
        let all = weighed(fills, weights, n, mid, threshold);
        if exists|i: int| 0 <= i < n && (#[trigger] fills[i]).checked {
            if !f.checked {
                let i = choose|i: int| 0 <= i < n && (#[trigger] fills[i]).checked;
                assert(0 <= i < n - 1);
            }
            assert(zero().less(all.1));
        }
    }
}

/// The score is one where every sampled fill lost more than the threshold, and nothing where none
/// did or none was sampled, however they are weighed. Fills that were not sampled do not count.
pub proof fn score_tells_the_losses(
    fills: Seq<FillRecord>,
    weights: Seq<Double>,
    mid: Double,
    threshold: Double,
)
    requires
        weights.len() == fills.len(),
        sane(fills, mid, threshold),
        forall|i: int| 0 <= i < weights.len() ==> positive(#[trigger] weights[i]),
        weighed(fills, weights, fills.len() as int, mid, threshold).1.is_finite(),
    ensures
        (exists|i: int| 0 <= i < fills.len() && (#[trigger] fills[i]).checked) && (forall|i: int|
            0 <= i < fills.len() && (#[trigger] fills[i]).checked ==> lost(
                fills[i],
                mid,
                threshold,
            )) ==> score_of(fills, weights, mid, threshold) == of_int(1),
        (forall|i: int|
            0 <= i < fills.len() && (#[trigger] fills[i]).checked ==> !lost(
                fills[i],
                mid,
                threshold,
            )) ==> score_of(fills, weights, mid, threshold).value() == 0,
{
    let n = fills.len() as int;
    let w = weighed(fills, weights, n, mid, threshold);
    lemma_weighed(fills, weights, n, mid, threshold);
    assert(mag(0) == 0);
    crate::double::lemma_mag_order(0, 0);
    integers_are_exact(1);
    if zero().less(w.1) {
        if w.0 == w.1 {
            over_itself(w.1);
        }
        if w.0 == zero() {
            crate::order::lemma_zero_quotient(w.0, w.1);
            lemma_value(w.0.over(w.1));
        }
    }
}

/// Of two sampled fills of which one lost, the score is the share of its weight: it does not fall
/// as that weight grows, nor rise as the other does, and is a half where both weigh the same.
pub proof fn score_is_a_share_of_weights(
    f: FillRecord,
    g: FillRecord,
    a: Double,
    b: Double,
    c: Double,
    mid: Double,
    threshold: Double,
)
    requires
        sane(seq![f, g], mid, threshold),
        f.checked && lost(f, mid, threshold),
        g.checked && !lost(g, mid, threshold),
        positive(a),
        positive(b),
        positive(c),
        b.at_most(c),
        a.plus(b).is_finite(),
        a.plus(c).is_finite(),
    ensures
        score_of(seq![f, g], seq![a, c], mid, threshold).at_most(
            score_of(seq![f, g], seq![a, b], mid, threshold),
        ),
        score_of(seq![f, g], seq![a, b], mid, threshold).value() == a.over(a.plus(b)).value()
            || score_of(seq![f, g], seq![a, b], mid, threshold).value() == one_unit(),
{
    let fills = seq![f, g];
    assert(fills[0] == f && fills[1] == g);
    assert(fills[0].fill_price.minus(threshold).is_finite());
    assert(fills[1].fill_price.minus(threshold).is_finite());
    assert(adverse(f, mid, threshold) && !adverse(g, mid, threshold));
    reveal_with_fuel(weighed, 4);
    assert(mag(0) == 0);
    integers_are_exact(1);
    assert(1 * one_unit() == one_unit());
    lemma_plus_nothing(a);
    let wb = seq![a, b];
    let wc = seq![a, c];
    assert(wb[0] == a && wb[1] == b && wc[0] == a && wc[1] == c);
    let x = weighed(fills, wb, 2, mid, threshold);
    let y = weighed(fills, wc, 2, mid, threshold);
    assert(weighed(fills, wb, 1, mid, threshold) == (zero().plus(a), zero().plus(a)));
    assert(weighed(fills, wc, 1, mid, threshold) == (zero().plus(a), zero().plus(a)));
    assert(x == (a, a.plus(b)));
    assert(y == (a, a.plus(c)));
    adding_grows(a, b);
    adding_grows(a, c);
    crate::order::sums_keep_order(b, c, a);
    lemma_value(x.1);
    lemma_value(y.1);
    lemma_rounded(a.neg() != x.1.neg(), mag(a.index()) * one_unit(), mag(x.1.index()));
    lemma_rounded(a.neg() != y.1.neg(), mag(a.index()) * one_unit(), mag(y.1.index()));
    larger_divisors_leave_less(a, x.1, y.1);
}

proof fn lemma_plus_nothing(a: Double)
    requires
        positive(a),
    ensures
        zero().plus(a) == a,
{
    assert(mag(0) == 0);
    lemma_value(a);
    crate::order::lemma_rounding_exact(a.index());
}

// ---- what fades -------------------------------------------------------------------------------------------------

/// The exponents of what is left do not rise with the time that has passed nor fall with the
/// half-life, and are not positive: the older, the less is left; and without time, all is.
pub proof fn less_is_left_of_what_is_older(t1: Double, t2: Double, h1: Double, h2: Double)
    requires
        zero().at_most(t1),
        t1.at_most(t2),
        t2.is_finite(),
        positive(h1),
        positive(h2),
        h1.at_most(h2),
    ensures
        decay_exponent(t2, h1).at_most(decay_exponent(t1, h1)),
        decay_exponent(t1, h1).at_most(decay_exponent(t1, h2)),
        decay_exponent(t1, h1).at_most(zero()),
        t1.value() == 0 ==> decay_exponent(t1, h1).value() == 0,
{
    let l = ln_2();
    lemma_ln();
    assert(mag(0) == 0);
    lemma_value(t1);
    lemma_value(t2);
    lemma_mag_order(t2.index(), INF as int);
    lemma_mag_order(t1.index(), INF as int);
    let a = t1.negated();
    let b = t2.negated();
    crate::order::negation_turns_order(t1, t2);
    product_is_number(a, l);
    product_is_number(b, l);
    products_keep_order(b, a, l);
    crate::order::product_sign(a, l);
    crate::order::product_sign(b, l);
    let x = a.times(l);
    let y = b.times(l);
    lemma_number(x, h1);
    lemma_number(x, h2);
    lemma_number(y, h1);
    lemma_number(zero(), h1);
    quotients_keep_order(y, x, h1);
    quotients_keep_order(x, zero(), h1);
    crate::order::lemma_zero_quotient(zero(), h1);
    lemma_value(zero().over(h1));
    // a longer half-life leaves more
    let z = x.negated();
    lemma_value(x);
    lemma_number(z, h1);
    lemma_number(z, h2);
    larger_divisors_leave_less(z, h1, h2);
    lemma_negated_quotient(x, h1);
    lemma_negated_quotient(x, h2);
    if t1.value() == 0 {
        lemma_times_commutes(a, l);
        lemma_value(a);
        crate::order::lemma_zero_product(l, a);
        crate::order::lemma_zero_quotient(x, h1);
        lemma_value(x.over(h1));
    }
}

proof fn lemma_number(x: Double, m: Double)
    requires
        !x.is_nan(),
        positive(m),
    ensures
        !x.over(m).is_nan(),
{
    assert(mag(0) == 0);
    lemma_value(m);
    if x.is_finite() {
        lemma_rounded(x.neg() != m.neg(), mag(x.index()) * one_unit(), mag(m.index()));
    }
}

proof fn lemma_negated_quotient(x: Double, m: Double)
    requires
        !x.is_nan(),
        positive(m),
    ensures
        x.negated().over(m).value() == -x.over(m).value(),
{
    assert(mag(0) == 0);
    lemma_value(m);
    lemma_value(x);
    if x.is_finite() {
        lemma_rounded(x.neg() != m.neg(), mag(x.index()) * one_unit(), mag(m.index()));
        lemma_rounded(x.negated().neg() != m.neg(), mag(x.index()) * one_unit(), mag(m.index()));
    }
}

/// The logarithm of two lies where it should.
pub proof fn lemma_ln()
    ensures
        positive(ln_2()),
        693_147_180_559_945 * one_unit() < 1_000_000_000_000_000 * ln_2().value(),
        1_000_000_000_000_000 * ln_2().value() < 693_147_180_559_946 * one_unit(),
{
    let u = one_unit();
    let i: int = 0x3FE6_2E42_FEFA_39EF;
    let f: int = 0x6_2E42_FEFA_39EF;
    let p: int = 0x10_0000_0000_0000;
    assert(i == 1022 * p + f);
    assert(i / p == 1022 && i % p == f);
    let w = vstd::arithmetic::power2::pow2(1021);
    assert(mag(i) == (p + f) * w);
    vstd::arithmetic::power2::lemma_pow2_adds(53, 1021);
    vstd::arithmetic::power2::lemma2_to64();
    vstd::arithmetic::power2::lemma2_to64_rest();
    vstd::arithmetic::power2::lemma_pow2_pos(1021);
    assert(u == 0x20_0000_0000_0000 * w);
    let m = mag(i);
    assert(m == 0x16_2E42_FEFA_39EF * w);
    assert(693_147_180_559_945 * u < 1_000_000_000_000_000 * m && 1_000_000_000_000_000 * m
        < 693_147_180_559_946 * u) by (nonlinear_arith)
        requires
            u == 0x20_0000_0000_0000 * w,
            m == 0x16_2E42_FEFA_39EF * w,
            w > 0,
    ;
    assert(ln_2().value() == m);
    assert(mag(0) == 0);
}

/// What is left after a time decays the faster the shorter its half-life: ten seconds, a minute,
/// ten minutes; and before there was a book all is left.
pub proof fn half_lives_are_in_order(s: MmModel, now: Double)
    requires
        now.is_finite(),
        s.last_variance_update_ts.is_finite(),
        now.minus(s.last_variance_update_ts).is_finite(),
    ensures
        ({
            let d = decay_points(s, now);
            &&& d.ten_seconds.at_most(d.minute)
            &&& d.minute.at_most(d.ten_minutes)
            &&& d.ten_minutes.at_most(zero())
            &&& s.last_variance_update_ts.at_most(zero()) ==> d.ten_seconds.value() == 0
                && d.minute.value() == 0 && d.ten_minutes.value() == 0
        }),
{
    let dt = since_last_book(s, now);
    lemma_difference(now, s.last_variance_update_ts);
    assert(mag(0) == 0);
    integers_are_exact(10);
    integers_are_exact(60);
    integers_are_exact(600);
    positive_integers(10);
    positive_integers(60);
    positive_integers(600);
    crate::order::integers_keep_order(10, 60);
    crate::order::integers_keep_order(60, 600);
    less_is_left_of_what_is_older(dt, dt, of_int(10), of_int(60));
    less_is_left_of_what_is_older(dt, dt, of_int(60), of_int(600));
    less_is_left_of_what_is_older(dt, dt, of_int(600), of_int(600));
}

/// Older fills weigh less: the exponent of a fill does not rise as time goes on, is nothing for
/// one that is not older than now, and is not higher than that of a later fill.
pub proof fn older_fills_weigh_less(fills: Seq<FillRecord>, now: Double, half_life: Double, i: int, j: int)
    requires
        now.is_finite(),
        positive(half_life),
        0 <= i < fills.len(),
        0 <= j < fills.len(),
        fills[i].time.is_finite(),
        fills[j].time.is_finite(),
        fills[i].time.at_most(fills[j].time),
        now.minus(fills[i].time).is_finite(),
    ensures
        ({
            let w = weight_exponents(fills, now, half_life);
            &&& w.len() == fills.len()
            &&& w[i].at_most(w[j])
            &&& w[j].at_most(zero())
            &&& now.at_most(fills[j].time) ==> w[j].value() == 0
        }),
{
    assert(mag(0) == 0);
    lemma_difference(now, fills[i].time);
    lemma_difference(now, fills[j].time);
    differences_keep_order(fills[i].time, fills[j].time, now);
    let a = now.minus(fills[i].time).larger(zero());
    let b = now.minus(fills[j].time).larger(zero());
    floors_of_bounds_keep_order(
        now.minus(fills[j].time),
        now.minus(fills[i].time),
        zero(),
    );
    lemma_value(a);
    less_is_left_of_what_is_older(b, a, half_life, half_life);
}

/// The exponent is the time in half-lives times the logarithm of two, turned round; three parts in
/// 2^53 are left to rounding.
pub proof fn half_is_left_after_a_half_life(t: Double, h: Double)
    requires
        positive(t),
        positive(h),
        normal(t.negated().times(ln_2())),
        normal(decay_exponent(t, h)),
    ensures
        ({
            let e = -decay_exponent(t, h).value();
            let x = t.value() * ln_2().value();
            &&& (P53 - 3) * x <= P53 * (e * h.value())
            &&& P53 * (e * h.value()) <= (P53 + 3) * x
        }),
{
    let u = one_unit();
    let p = P53 as int;
    let l = ln_2();
    lemma_ln();
    lemma_value(t);
    lemma_value(h);
    lemma_value(l);
    assert(mag(0) == 0);
    vstd::arithmetic::power2::lemma_pow2_pos(crate::double::UNIT as nat);
    let a = t.negated();
    let b = a.times(l);
    let tv = mag(t.index());
    let lv = mag(l.index());
    let hv = mag(h.index());
    lemma_rounded(a.neg() != l.neg(), tv * lv, u);
    crate::order::lemma_normal_error(tv * lv, u);
    let bv = mag(b.index());
    let q = b.over(h);
    lemma_value(b);
    lemma_rounded(b.neg() != h.neg(), bv * u, hv);
    crate::order::lemma_normal_error(bv * u, hv);
    let qv = mag(q.index());
    lemma_value(q);
    let x = tv * lv;
    let y = bv * u;
    let z = qv * hv;
    assert((p - 3) * x <= p * z && p * z <= (p + 3) * x) by (nonlinear_arith)
        requires
            (p - 1) * y <= p * x,
            p * x <= (p + 1) * y,
            (p - 1) * z <= p * y,
            p * y <= (p + 1) * z,
            x >= 0,
            y >= 0,
            z >= 0,
            p == 0x20_0000_0000_0000,
    {
        assert((p - 1) * ((p - 1) * z) <= (p - 1) * (p * y));
        assert((p - 1) * (p * y) <= p * (p * x));
        assert(p * (p * x) <= p * ((p + 1) * y));
        assert(p * ((p + 1) * y) <= (p + 1) * ((p + 1) * z));
    }
}

} // verus!
