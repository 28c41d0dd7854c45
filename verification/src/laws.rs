//! What holds of the bot as a whole: of its quotes, its limits, its records and its rounds.
use vstd::prelude::*;

use crate::bot::{with_session, SessionView, MAX_SESSIONS};
use crate::config::{arrival_argument, decimals, Config};
use crate::double::{
    lemma_exact, lemma_mag_order, lemma_nearest, mag, nan, of_int, one_unit, quotient, zero,
    Double, INF,
};
use crate::fills::{fill_room, Fill, MAX_FILLS, MAX_RT_PNLS, MAX_SIDES};
use crate::market::Decay;
use crate::markout::{sampled, score_of, weighed, MarkoutRule};
use crate::order::{
    adding_grows, cutting_a_half_shrinks, differences_keep_order, integers_keep_sign,
    larger_divisors_leave_less, lemma_half, lemma_plus_commutes, lemma_rounded,
    lemma_rounding_monotone, lemma_tens, lemma_times_commutes, numbers_come_from_numbers,
    positive_integers, product_is_number, product_sign, products_keep_order, quotient_sign,
    quotients_keep_order, small_integers_are_finite, subtracting_shrinks, sum_keeps_sign,
    sums_keep_order,
};
use crate::parse::tens;
use crate::risk::{
    allowed, flow_limit, flow_limited, leading, limited, narrowed, narrowed_levels, toxicity,
    FlowLimit, Quote, RefreshReason,
};
use crate::strategy::{grid_delta, price_variance, quotes, spread_floor, Grid};
use crate::trading::after_event;
use crate::types::{
    Bbo, EventLevel, EventView, FillRecord, MmModel, OrderLevel, Stats, VolRegime, MAX_EVENTS,
    MAX_HISTORY, SAMPLE_MS,
};
use crate::websocket::WsEventView;

verus! {

// ---- quotes -------------------------------------------------------------------------------------

/// The half spread stays between the configured bounds, in every regime and whatever the model
/// asks for; and it does not fall below the floor of the regime, as far as the ceiling leaves
/// room for that.
pub proof fn spread_is_bounded(bbo: Bbo, position: Double, config: Config, s: MmModel)
    requires
        zero().less(config.token.tick_size),
        config.spread.min_spread_ticks.times(config.token.tick_size).at_most(
            config.spread.max_spread_ticks.times(config.token.tick_size),
        ),
    ensures
        config.spread.min_spread_ticks.times(config.token.tick_size).at_most(
            grid_delta(bbo, position, config, s),
        ),
        grid_delta(bbo, position, config, s).at_most(
            config.spread.max_spread_ticks.times(config.token.tick_size),
        ),
        spread_floor(s.vol_regime, config.spread.min_spread_ticks).times(
            config.token.tick_size,
        ).at_most(config.spread.max_spread_ticks.times(config.token.tick_size)) ==> spread_floor(
            s.vol_regime,
            config.spread.min_spread_ticks,
        ).times(config.token.tick_size).at_most(grid_delta(bbo, position, config, s)),
{
    let tick = config.token.tick_size;
    let least = config.spread.min_spread_ticks;
    let floor = spread_floor(s.vol_regime, least);
    numbers_come_from_numbers(least, tick);
    floor_is_not_lower(s.vol_regime, least);
    if !floor.times(tick).is_nan() {
        products_keep_order(least, floor, tick);
    } else {
        undefined_floor(least, floor, tick);
    }
}

/// The floor of a regime is not below the configured one.
proof fn floor_is_not_lower(regime: VolRegime, least: Double)
    requires
        !least.is_nan(),
    ensures
        least.at_most(spread_floor(regime, least)),
{
    integers_keep_sign(2);
    integers_keep_sign(4);
    small_integers_are_finite(2);
    small_integers_are_finite(4);
    adding_grows(least, of_int(2));
    adding_grows(least, of_int(4));
}

/// Where the floor of the regime is undefined, the tick is infinite and the configured floor
/// is not positive, so that its product is the least of all.
proof fn undefined_floor(least: Double, floor: Double, tick: Double)
    requires
        zero().less(tick),
        least.at_most(floor),
        floor.times(tick).is_nan(),
        !least.times(tick).is_nan(),
    ensures
        forall|x: Double| !x.is_nan() ==> least.times(tick).at_most(x),
{
    assert(nan().is_nan());
    assert(mag(0) == 0);
    lemma_mag_order(0, INF as int);
    lemma_mag_order(0, floor.index());
    lemma_mag_order(0, least.index());
    lemma_mag_order(0, tick.index());
    if floor.is_finite() && tick.is_finite() {
        product_is_number(floor, tick);
    }
    assert forall|x: Double| !x.is_nan() implies least.times(tick).at_most(x) by {
        lemma_mag_order(x.index(), INF as int);
        lemma_mag_order(0, x.index());
    }
}

/// Inventory shifts the reservation price towards the side that reduces it: a long position
/// does not raise it above the mid, a short one does not lower it below.
pub proof fn inventory_skews_quotes(
    mid: Double,
    position: Double,
    sigma2: Double,
    t_remaining: Double,
    gamma: Double,
    arrival_ln: Double,
)
    requires
        zero().at_most(gamma),
        zero().at_most(sigma2),
        zero().at_most(t_remaining),
        !quotes(mid, position, sigma2, t_remaining, gamma, arrival_ln).0.is_nan(),
    ensures
        zero().at_most(position) ==> quotes(
            mid,
            position,
            sigma2,
            t_remaining,
            gamma,
            arrival_ln,
        ).0.at_most(mid),
        position.at_most(zero()) ==> mid.at_most(
            quotes(mid, position, sigma2, t_remaining, gamma, arrival_ln).0,
        ),
{
    let a = position.times(gamma);
    let b = a.times(sigma2);
    let x = b.times(t_remaining);
    assert(nan().is_nan());
    assert(x.negated().index() == x.index());
    assert(!x.is_nan());
    assert(!b.is_nan());
    assert(!a.is_nan());
    product_sign(position, gamma);
    product_sign(a, sigma2);
    product_sign(b, t_remaining);
    if mid.is_inf() && x.is_inf() {
        assert(mid.minus(x) == mid);
    } else {
        if zero().at_most(position) {
            subtracting_shrinks(mid, x);
        }
        if position.at_most(zero()) {
            assert(x.negated().value() == -x.value());
            adding_grows(mid, x.negated());
        }
    }
}

/// Without inventory the reservation price is the mid.
pub proof fn flat_inventory_quotes_around_the_mid(
    mid: Double,
    sigma2: Double,
    t_remaining: Double,
    gamma: Double,
    arrival_ln: Double,
)
    requires
        zero().at_most(gamma),
        zero().at_most(sigma2),
        zero().at_most(t_remaining),
        !quotes(mid, zero(), sigma2, t_remaining, gamma, arrival_ln).0.is_nan(),
    ensures
        quotes(mid, zero(), sigma2, t_remaining, gamma, arrival_ln).0.equal(mid),
{
    inventory_skews_quotes(mid, zero(), sigma2, t_remaining, gamma, arrival_ln);
}

/// The more inventory, the lower the reservation price: it does not rise with the inventory.
pub proof fn inventory_lowers_the_reservation_price(
    mid: Double,
    p1: Double,
    p2: Double,
    sigma2: Double,
    t_remaining: Double,
    gamma: Double,
    arrival_ln: Double,
)
    requires
        p1.at_most(p2),
        zero().at_most(gamma),
        zero().at_most(sigma2),
        zero().at_most(t_remaining),
        !quotes(mid, p1, sigma2, t_remaining, gamma, arrival_ln).0.is_nan(),
        !quotes(mid, p2, sigma2, t_remaining, gamma, arrival_ln).0.is_nan(),
    ensures
        quotes(mid, p2, sigma2, t_remaining, gamma, arrival_ln).0.at_most(
            quotes(mid, p1, sigma2, t_remaining, gamma, arrival_ln).0,
        ),
{
    let a1 = p1.times(gamma);
    let a2 = p2.times(gamma);
    let b1 = a1.times(sigma2);
    let b2 = a2.times(sigma2);
    let x1 = b1.times(t_remaining);
    let x2 = b2.times(t_remaining);
    numbers_come_from_numbers(mid, x1);
    numbers_come_from_numbers(mid, x2);
    numbers_come_from_numbers(b1, t_remaining);
    numbers_come_from_numbers(b2, t_remaining);
    numbers_come_from_numbers(a1, sigma2);
    numbers_come_from_numbers(a2, sigma2);
    products_keep_order(p1, p2, gamma);
    products_keep_order(a1, a2, sigma2);
    products_keep_order(b1, b2, t_remaining);
    differences_keep_order(x1, x2, mid);
}

/// The half spread does not fall with the time that is left.
pub proof fn time_widens_the_spread(
    mid: Double,
    position: Double,
    sigma2: Double,
    t1: Double,
    t2: Double,
    gamma: Double,
    arrival_ln: Double,
)
    requires
        t1.at_most(t2),
        zero().at_most(gamma),
        zero().at_most(sigma2),
        !quotes(mid, position, sigma2, t1, gamma, arrival_ln).1.is_nan(),
        !quotes(mid, position, sigma2, t2, gamma, arrival_ln).1.is_nan(),
    ensures
        quotes(mid, position, sigma2, t1, gamma, arrival_ln).1.at_most(
            quotes(mid, position, sigma2, t2, gamma, arrival_ln).1,
        ),
{
    let a = gamma.times(sigma2);
    let b1 = a.times(t1);
    let b2 = a.times(t2);
    let two = of_int(2);
    let rest = of_int(1).over(gamma).times(arrival_ln);
    numbers_come_from_numbers(b1.over(two), rest);
    numbers_come_from_numbers(b2.over(two), rest);
    numbers_come_from_numbers(b1, two);
    numbers_come_from_numbers(b2, two);
    numbers_come_from_numbers(a, t1);
    numbers_come_from_numbers(a, t2);
    product_sign(gamma, sigma2);
    lemma_times_commutes(a, t1);
    lemma_times_commutes(a, t2);
    products_keep_order(t1, t2, a);
    positive_integers(2);
    quotients_keep_order(b1, b2, two);
    sums_keep_order(b1.over(two), b2.over(two), rest);
}

/// The half spread does not fall with the logarithm of the arrivals.
pub proof fn rare_arrivals_widen_the_spread(
    mid: Double,
    position: Double,
    sigma2: Double,
    t_remaining: Double,
    gamma: Double,
    ln1: Double,
    ln2: Double,
)
    requires
        ln1.at_most(ln2),
        zero().less(gamma),
        !quotes(mid, position, sigma2, t_remaining, gamma, ln1).1.is_nan(),
        !quotes(mid, position, sigma2, t_remaining, gamma, ln2).1.is_nan(),
    ensures
        quotes(mid, position, sigma2, t_remaining, gamma, ln1).1.at_most(
            quotes(mid, position, sigma2, t_remaining, gamma, ln2).1,
        ),
{
    let first = gamma.times(sigma2).times(t_remaining).over(of_int(2));
    let a = of_int(1).over(gamma);
    numbers_come_from_numbers(first, a.times(ln1));
    numbers_come_from_numbers(first, a.times(ln2));
    numbers_come_from_numbers(a, ln1);
    numbers_come_from_numbers(a, ln2);
    integers_keep_sign(1);
    quotient_sign(of_int(1), gamma);
    lemma_times_commutes(a, ln1);
    lemma_times_commutes(a, ln2);
    products_keep_order(ln1, ln2, a);
    lemma_plus_commutes(first, a.times(ln1));
    lemma_plus_commutes(first, a.times(ln2));
    sums_keep_order(a.times(ln1), a.times(ln2), first);
}

/// A higher arrival intensity does not raise what the logarithm of the arrivals is taken of.
pub proof fn intensity_lowers_the_arrivals(gamma: Double, kappa1: Double, kappa2: Double)
    requires
        zero().at_most(gamma),
        zero().less(kappa1),
        kappa1.at_most(kappa2),
        !arrival_argument(gamma, kappa1).is_nan(),
        !arrival_argument(gamma, kappa2).is_nan(),
    ensures
        arrival_argument(gamma, kappa2).at_most(arrival_argument(gamma, kappa1)),
{
    let a = gamma.over(kappa1);
    let b = gamma.over(kappa2);
    numbers_come_from_numbers(of_int(1), a);
    numbers_come_from_numbers(of_int(1), b);
    larger_divisors_leave_less(gamma, kappa1, kappa2);
    lemma_plus_commutes(of_int(1), a);
    lemma_plus_commutes(of_int(1), b);
    sums_keep_order(b, a, of_int(1));
}

/// A higher arrival intensity does not widen the spread, the logarithms being ordered as what
/// they are taken of.
pub proof fn intensity_narrows_the_spread(
    mid: Double,
    position: Double,
    sigma2: Double,
    t_remaining: Double,
    gamma: Double,
    kappa1: Double,
    kappa2: Double,
    ln1: Double,
    ln2: Double,
)
    requires
        zero().less(gamma),
        zero().less(kappa1),
        kappa1.at_most(kappa2),
        !arrival_argument(gamma, kappa1).is_nan(),
        !arrival_argument(gamma, kappa2).is_nan(),
        arrival_argument(gamma, kappa2).at_most(arrival_argument(gamma, kappa1)) ==> ln2.at_most(
            ln1,
        ),
        !quotes(mid, position, sigma2, t_remaining, gamma, ln1).1.is_nan(),
        !quotes(mid, position, sigma2, t_remaining, gamma, ln2).1.is_nan(),
    ensures
        quotes(mid, position, sigma2, t_remaining, gamma, ln2).1.at_most(
            quotes(mid, position, sigma2, t_remaining, gamma, ln1).1,
        ),
{
    intensity_lowers_the_arrivals(gamma, kappa1, kappa2);
    rare_arrivals_widen_the_spread(mid, position, sigma2, t_remaining, gamma, ln2, ln1);
}

/// The half spread is the same at every mid and for every inventory.
pub proof fn spread_ignores_inventory(
    mid: Double,
    position: Double,
    other_mid: Double,
    other_position: Double,
    sigma2: Double,
    t_remaining: Double,
    gamma: Double,
    arrival_ln: Double,
)
    ensures
        quotes(mid, position, sigma2, t_remaining, gamma, arrival_ln).1 == quotes(
            other_mid,
            other_position,
            sigma2,
            t_remaining,
            gamma,
            arrival_ln,
        ).1,
{
}

/// The variance of prices is never negative, nor not-a-number.
pub proof fn variance_is_not_negative(p: Seq<Double>, window: int)
    ensures
        zero().at_most(price_variance(p, window)),
{
}

/// Each level of a grid is one that it quotes: of a positive price that no other has, not
/// below the smallest size, nor of a notional below ten; and there are no more of them than
/// asked for.
pub proof fn levels_are_valid(g: Grid, buy: bool, n: int)
    requires
        n >= 0,
    ensures
        g.side(buy, n).len() <= n,
        forall|i: int|
            0 <= i < g.side(buy, n).len() ==> {
                let l = #[trigger] g.side(buy, n)[i];
                &&& zero().less(l.price)
                &&& !l.size.less(g.min_size)
                &&& !l.size.times(g.mid).less(of_int(10))
            },
        forall|i: int, j: int|
            0 <= i < j < g.side(buy, n).len() ==> (#[trigger] g.side(buy, n)[i]).price != (
            #[trigger] g.side(buy, n)[j]).price,
    decreases n,
{
    if n > 0 {
        levels_are_valid(g, buy, n - 1);
    }
}

// ---- limits --------------------------------------------------------------------------------------

/// Places in a list of the given length, in order.
pub open spec fn places_in(at: Seq<int>, len: nat) -> bool {
    &&& forall|i: int| 0 <= i < at.len() ==> 0 <= #[trigger] at[i] < len
    &&& forall|i: int, j: int| 0 <= i < j < at.len() ==> #[trigger] at[i] < #[trigger] at[j]
}

/// The levels are some of the old ones, in their order.
pub open spec fn kept_from(levels: Seq<OrderLevel>, old_levels: Seq<OrderLevel>) -> bool {
    exists|at: Seq<int>| #[trigger]
        places_in(at, old_levels.len()) && at.len() == levels.len() && forall|i: int|
            0 <= i < levels.len() ==> #[trigger] levels[i] == old_levels[at[i]]
}

/// A level stands no better than an old one: not closer to the market, and not larger.
pub open spec fn no_better(l: OrderLevel, old_level: OrderLevel, buy: bool) -> bool {
    &&& l.size.at_most(old_level.size)
    &&& if buy {
        l.price.at_most(old_level.price)
    } else {
        old_level.price.at_most(l.price)
    }
}

/// The levels come from some of the old ones, in their order, each no better than its own.
pub open spec fn eased_from(levels: Seq<OrderLevel>, old_levels: Seq<OrderLevel>, buy: bool) -> bool {
    exists|at: Seq<int>| #[trigger]
        places_in(at, old_levels.len()) && at.len() == levels.len() && forall|i: int|
            0 <= i < levels.len() ==> no_better(#[trigger] levels[i], old_levels[at[i]], buy)
}

/// Levels that can be made smaller and moved away: of sizes that are not negative and can be
/// scaled to whole lots, bids at a tick or above, asks at positive prices.
pub open spec fn movable(levels: Seq<OrderLevel>, buy: bool, config: Config) -> bool {
    forall|i: int|
        0 <= i < levels.len() ==> {
            let l = #[trigger] levels[i];
            &&& zero().at_most(l.size)
            &&& l.size.times(
                tens(decimals(config.token.min_size, config.logs.min_size_log10)),
            ).is_finite()
            &&& if buy {
                config.token.tick_size.at_most(l.price)
            } else {
                zero().less(l.price)
            }
        }
}

proof fn lemma_narrowed(l: OrderLevel, buy: bool, severe: bool, config: Config)
    requires
        zero().less(config.token.tick_size),
        movable(seq![l], buy, config),
    ensures
        ({
            let places = decimals(config.token.min_size, config.logs.min_size_log10);
            let r = narrowed(l, buy, severe, config.token.tick_size, places);
            config.token.min_size.at_most(r.size) ==> no_better(r, l, buy)
        }),
{
    let tick = config.token.tick_size;
    let places = decimals(config.token.min_size, config.logs.min_size_log10);
    let r = narrowed(l, buy, severe, tick, places);
    let scale = if severe {
        quotient(25, 100)
    } else {
        quotient(5, 10)
    };
    let n: nat = if severe {
        2
    } else {
        1
    };
    let shift = of_int(n as int).times(tick);
    assert(seq![l][0] == l);
    if config.token.min_size.at_most(r.size) {
        lemma_tens(places);
        lemma_quarter();
        cutting_a_half_shrinks(l.size, scale, tens(places));
        small_integers_are_finite(n);
        positive_integers(n);
        lemma_shift(of_int(n as int), tick);
        if buy {
            if l.price.is_inf() && shift.is_inf() {
                assert(nan().is_nan());
            } else {
                subtracting_shrinks(l.price, shift);
            }
        } else if l.price.is_inf() && shift.is_inf() {
            lemma_mag_order(0, l.price.index());
            lemma_mag_order(0, shift.index());
            assert(mag(0) == 0);
        } else {
            adding_grows(l.price, shift);
        }
    }
}

/// A quarter is positive and at most a half.
proof fn lemma_quarter()
    ensures
        zero().at_most(quotient(25, 100)),
        quotient(25, 100).at_most(quotient(5, 10)),
        zero().at_most(quotient(5, 10)),
        quotient(5, 10).at_most(quotient(5, 10)),
{
    assert(mag(0) == 0);
    lemma_rounded(false, 25 * one_unit(), 100);
    lemma_rounded(false, 5 * one_unit(), 10);
    lemma_half();
    let half = quotient(5, 10).index();
    lemma_exact(100, half);
    assert(mag(half) * 100 == 50 * one_unit());
    lemma_nearest(50 * one_unit(), 100, half);
    lemma_rounding_monotone(25 * one_unit(), 50 * one_unit(), 100);
    lemma_mag_order(quotient(25, 100).index(), quotient(5, 10).index());
}

/// A positive number of ticks is not negative.
proof fn lemma_shift(n: Double, tick: Double)
    requires
        n.is_finite(),
        zero().less(n),
        zero().less(tick),
    ensures
        zero().at_most(n.times(tick)),
{
    assert(nan().is_nan());
    assert(mag(0) == 0);
    if tick.is_finite() {
        product_is_number(n, tick);
    }
    product_sign(n, tick);
}

proof fn lemma_narrowed_levels(s: Seq<OrderLevel>, buy: bool, severe: bool, config: Config)
    requires
        zero().less(config.token.tick_size),
        movable(s, buy, config),
    ensures
        eased_from(narrowed_levels(s, buy, severe, config), s, buy),
    decreases s.len(),
{
    let r = narrowed_levels(s, buy, severe, config);
    if s.len() == 0 {
        assert(places_in(Seq::<int>::empty(), s.len()));
    } else {
        let d = s.drop_last();
        assert forall|i: int| 0 <= i < d.len() implies #[trigger] d[i] == s[i] by {}
        assert(movable(d, buy, config));
        lemma_narrowed_levels(d, buy, severe, config);
        let before = narrowed_levels(d, buy, severe, config);
        let at = choose|at: Seq<int>| #[trigger]
            places_in(at, d.len()) && at.len() == before.len() && forall|i: int|
                0 <= i < before.len() ==> no_better(#[trigger] before[i], d[at[i]], buy);
        let places = decimals(config.token.min_size, config.logs.min_size_log10);
        let l = narrowed(s.last(), buy, severe, config.token.tick_size, places);
        assert(movable(seq![s.last()], buy, config)) by {
            assert(seq![s.last()][0] == s[s.len() - 1]);
        }
        lemma_narrowed(s.last(), buy, severe, config);
        if config.token.min_size.at_most(l.size) {
            let more = at.push(s.len() - 1);
            assert(places_in(more, s.len()));
            assert(r == before.push(l));
            assert forall|i: int| 0 <= i < r.len() implies no_better(
                #[trigger] r[i],
                s[more[i]],
                buy,
            ) by {
                if i < before.len() {
                    assert(r[i] == before[i]);
                    assert(d[at[i]] == s[more[i]]);
                }
            }
        } else {
            assert(places_in(at, s.len()));
            assert forall|i: int| 0 <= i < r.len() implies no_better(
                #[trigger] r[i],
                s[at[i]],
                buy,
            ) by {
                assert(d[at[i]] == s[at[i]]);
            }
        }
    }
}

/// All of some levels, the first of them, or none of them are kept.
proof fn lemma_kept(s: Seq<OrderLevel>, n: int)
    requires
        n >= 0,
    ensures
        kept_from(leading(s, n), s),
        kept_from(Seq::empty(), s),
        kept_from(s, s),
{
    let all = Seq::new(s.len(), |i: int| i);
    assert(places_in(all, s.len()));
    assert(places_in(all.take(leading(s, n).len() as int), s.len()));
    assert(places_in(Seq::<int>::empty(), s.len()));
}

/// Levels that are kept are no better, as long as they are numbers.
proof fn lemma_kept_eased(levels: Seq<OrderLevel>, s: Seq<OrderLevel>, buy: bool, config: Config)
    requires
        kept_from(levels, s),
        movable(s, buy, config),
    ensures
        eased_from(levels, s, buy),
{
    let at = choose|at: Seq<int>| #[trigger]
        places_in(at, s.len()) && at.len() == levels.len() && forall|i: int|
            0 <= i < levels.len() ==> #[trigger] levels[i] == s[at[i]];
    assert forall|i: int| 0 <= i < levels.len() implies no_better(
        #[trigger] levels[i],
        s[at[i]],
        buy,
    ) by {
        assert(0 <= at[i] < s.len());
    }
}

/// The first of some levels that come from others come from them too.
proof fn lemma_leading_eased(levels: Seq<OrderLevel>, s: Seq<OrderLevel>, buy: bool, n: int)
    requires
        n >= 0,
        eased_from(levels, s, buy),
    ensures
        eased_from(leading(levels, n), s, buy),
        eased_from(Seq::empty(), s, buy),
{
    let r = leading(levels, n);
    let at = choose|at: Seq<int>| #[trigger]
        places_in(at, s.len()) && at.len() == levels.len() && forall|i: int|
            0 <= i < levels.len() ==> no_better(#[trigger] levels[i], s[at[i]], buy);
    let first = at.take(r.len() as int);
    assert(places_in(first, s.len()));
    assert forall|i: int| 0 <= i < r.len() implies no_better(#[trigger] r[i], s[first[i]], buy) by {
        assert(r[i] == levels[i]);
        assert(first[i] == at[i]);
    }
    assert(places_in(Seq::<int>::empty(), s.len()));
}

proof fn lemma_limited_eased(s: Seq<OrderLevel>, buy: bool, limit: FlowLimit, config: Config)
    requires
        zero().less(config.token.tick_size),
        movable(s, buy, config),
    ensures
        eased_from(limited(s, buy, limit, config), s, buy),
{
    lemma_kept(s, 0);
    lemma_kept_eased(s, s, buy, config);
    lemma_kept_eased(Seq::empty(), s, buy, config);
    if let FlowLimit::Narrow { severe } = limit {
        lemma_narrowed_levels(s, buy, severe, config);
    }
}

proof fn lemma_narrowed_shorter(s: Seq<OrderLevel>, buy: bool, severe: bool, config: Config)
    ensures
        narrowed_levels(s, buy, severe, config).len() <= s.len(),
    decreases s.len(),
{
    if s.len() > 0 {
        lemma_narrowed_shorter(s.drop_last(), buy, severe, config);
    }
}

proof fn lemma_limited_shorter(s: Seq<OrderLevel>, buy: bool, limit: FlowLimit, config: Config)
    ensures
        limited(s, buy, limit, config).len() <= s.len(),
{
    if let FlowLimit::Narrow { severe } = limit {
        lemma_narrowed_shorter(s, buy, severe, config);
    }
}

/// The limits add no orders: neither side gets longer, and the side that does not build the
/// position keeps some of its levels, as they are and in their order; so do both sides where
/// there is no position.
pub proof fn limits_add_nothing(config: Config, s: MmModel, q: Quote, reason: RefreshReason, now: Double)
    ensures
        allowed(config, s, q, reason, now).bids.len() <= q.bids.len(),
        allowed(config, s, q, reason, now).asks.len() <= q.asks.len(),
        !zero().less(s.position) ==> kept_from(allowed(config, s, q, reason, now).bids, q.bids),
        !s.position.less(zero()) ==> kept_from(allowed(config, s, q, reason, now).asks, q.asks),
{
    let r = allowed(config, s, q, reason, now);
    let limit = flow_limit(toxicity(s.recent_fill_sides, s.markout_score));
    lemma_limited_none(true, limit, config);
    lemma_limited_none(false, limit, config);
    lemma_limited_shorter(q.bids, true, limit, config);
    lemma_limited_shorter(q.asks, false, limit, config);
    lemma_kept_side(r.bids, q.bids);
    lemma_kept_side(r.asks, q.asks);
}

/// The limits never improve a quote: what they leave of a side comes from some of its levels,
/// in their order, each no closer to the market and no larger than before.
pub proof fn limits_never_improve_quotes(
    config: Config,
    s: MmModel,
    q: Quote,
    reason: RefreshReason,
    now: Double,
)
    requires
        zero().less(config.token.tick_size),
        movable(q.bids, true, config),
        movable(q.asks, false, config),
    ensures
        eased_from(allowed(config, s, q, reason, now).bids, q.bids, true),
        eased_from(allowed(config, s, q, reason, now).asks, q.asks, false),
{
    let r = allowed(config, s, q, reason, now);
    let limit = flow_limit(toxicity(s.recent_fill_sides, s.markout_score));
    lemma_limited_none(true, limit, config);
    lemma_limited_none(false, limit, config);
    lemma_eased_side(r.bids, q.bids, true, limit, config);
    lemma_eased_side(r.asks, q.asks, false, limit, config);
}

/// No levels stay no levels.
proof fn lemma_limited_none(buy: bool, limit: FlowLimit, config: Config)
    ensures
        limited(Seq::empty(), buy, limit, config) == Seq::<OrderLevel>::empty(),
{
}

/// A side that is left out, or whole, or cut off, keeps its levels.
proof fn lemma_kept_side(r: Seq<OrderLevel>, s: Seq<OrderLevel>)
    ensures
        r.len() == 0 || r == s || r == leading(s, 1) || r == leading(s, 3) ==> kept_from(r, s),
{
    lemma_kept(s, 1);
    lemma_kept(s, 3);
    if r.len() == 0 {
        assert(r =~= Seq::<OrderLevel>::empty());
    }
}

/// A side that is left out, or whole, or cut off, with its levels as they were or limited.
proof fn lemma_eased_side(
    r: Seq<OrderLevel>,
    s: Seq<OrderLevel>,
    buy: bool,
    limit: FlowLimit,
    config: Config,
)
    requires
        zero().less(config.token.tick_size),
        movable(s, buy, config),
    ensures
        ({
            let t = limited(s, buy, limit, config);
            r.len() == 0 || r == s || r == leading(s, 1) || r == leading(s, 3) || r == t || r
                == leading(t, 1) || r == leading(t, 3) ==> eased_from(r, s, buy)
        }),
{
    let t = limited(s, buy, limit, config);
    lemma_limited_eased(s, buy, limit, config);
    lemma_leading_eased(t, s, buy, 1);
    lemma_leading_eased(t, s, buy, 3);
    lemma_kept_side(r, s);
    if kept_from(r, s) {
        lemma_kept_eased(r, s, buy, config);
    }
}

/// Beyond the position cap no order is quoted that would build the position further.
pub proof fn cap_stops_building(config: Config, s: MmModel, q: Quote, reason: RefreshReason, now: Double)
    requires
        zero().less(config.risk.position_cap_usd),
        zero().less(s.mid()),
        config.risk.position_cap_usd.less(s.position.magnitude().times(s.mid())),
    ensures
        zero().less(s.position) ==> allowed(config, s, q, reason, now).bids.len() == 0,
        s.position.less(zero()) ==> allowed(config, s, q, reason, now).asks.len() == 0,
{
    let limit = flow_limit(toxicity(s.recent_fill_sides, s.markout_score));
    lemma_limited_none(true, limit, config);
    lemma_limited_none(false, limit, config);
}

/// Toxic flow restricts only the side that would build more inventory.
pub proof fn toxic_flow_spares_the_other_side(config: Config, s: MmModel, q: Quote)
    ensures
        !s.position.less(zero()) ==> flow_limited(config, s, q).asks == q.asks,
        !zero().less(s.position) ==> flow_limited(config, s, q).bids == q.bids,
{
}

/// To leave a position only the side that reduces it is quoted, by three orders at most.
pub proof fn exit_quotes_one_side(config: Config, s: MmModel, q: Quote, sell: bool, now: Double)
    ensures
        ({
            let r = allowed(config, s, q, (RefreshReason::StopExit { sell }), now);
            &&& sell ==> r.bids.len() == 0 && r.asks.len() <= 3
            &&& !sell ==> r.asks.len() == 0 && r.bids.len() <= 3
        }),
{
}

/// After a fill its side is not quoted until the lock ends.
pub proof fn fill_locks_its_side(
    config: Config,
    s: MmModel,
    tid: Seq<char>,
    f: Fill,
    at: Double,
    q: Quote,
    reason: RefreshReason,
    now: Double,
)
    requires
        !s.processed_fill_ids.contains(tid),
        now.less(at.plus(crate::trading::lock_secs())),
    ensures
        ({
            let t = s.with_fill(tid, f, at, config.token.min_size);
            &&& f.is_buy ==> allowed(config, t, q, reason, now).bids.len() == 0
            &&& !f.is_buy ==> allowed(config, t, q, reason, now).asks.len() == 0
        }),
{
    let t = s.with_fill(tid, f, at, config.token.min_size);
    assert(t.fill_lock_side == Some(f.side_spec()));
    assert(t.fill_lock_until == at.plus(crate::trading::lock_secs()));
}

// ---- records ---------------------------------------------------------------------------------------

/// The records of a state are within their limits.
pub open spec fn bounded(s: MmModel, window: int) -> bool {
    &&& s.recent_events.len() <= MAX_EVENTS
    &&& s.metrics_history.len() <= MAX_HISTORY
    &&& s.fill_history.len() <= MAX_FILLS
    &&& s.recent_fill_sides.len() <= MAX_SIDES
    &&& s.recent_rt_pnls.len() <= MAX_RT_PNLS
    &&& s.price_history.len() <= window
}

/// Every fill is counted once, as that of a maker or of a taker.
pub open spec fn well_counted(s: MmModel) -> bool {
    &&& s.stats.maker_fills + s.stats.taker_fills == s.stats.fills_count
    &&& s.processed_fill_ids.no_duplicates()
}

/// A new state is within its limits and well counted.
pub proof fn new_state_is_sound(now_ms: u64, window: int)
    requires
        window >= 0,
    ensures
        bounded(MmModel::initial(now_ms), window),
        well_counted(MmModel::initial(now_ms)),
{
}

/// Announcing and sampling keep the records within their limits.
pub proof fn announcing_keeps_bounds(
    s: MmModel,
    window: int,
    e: EventView,
    level: EventLevel,
    status: Seq<char>,
    now_ms: u64,
)
    requires
        bounded(s, window),
    ensures
        bounded(s.with_event(e), window),
        bounded(s.with_status(level, status, now_ms), window),
        bounded(s.with_sample(now_ms), window),
{
}

/// A fill that comes again changes nothing.
pub proof fn fills_count_once(s: MmModel, tid: Seq<char>, f: Fill, now: Double, g: Fill, later: Double, min_size: Double)
    ensures
        s.with_fill(tid, f, now, min_size).with_fill(tid, g, later, min_size) == s.with_fill(
            tid,
            f,
            now,
            min_size,
        ),
{
    let t = s.with_fill(tid, f, now, min_size);
    if !s.processed_fill_ids.contains(tid) {
        assert(t.processed_fill_ids == s.processed_fill_ids.push(tid));
        assert(t.processed_fill_ids.last() == tid);
        assert(t.processed_fill_ids.contains(tid));
    }
}

/// Every event keeps the records within their limits and the fills well counted.
pub proof fn events_keep_records(config: Config, s: MmModel, e: WsEventView, now: Double, decay: Decay)
    requires
        bounded(s, config.timing.vol_window as int),
        well_counted(s),
        e is Fill ==> fill_room(s),
    ensures
        bounded(after_event(config, s, e, now, decay), config.timing.vol_window as int),
        well_counted(after_event(config, s, e, now, decay)),
{
    match e {
        WsEventView::L2Update { best_bid, best_ask, mid, bid_depth_5, ask_depth_5 } => {},
        WsEventView::Fill { tid, coin, price, size, fee, closed_pnl, oid, is_buy } => {
            let f = Fill { price, size, fee, closed_pnl, oid, is_buy };
            lemma_fill_keeps_records(s, tid, f, now, config.token.min_size, config.timing.vol_window as int);
        },
        _ => {},
    }
}

proof fn lemma_fill_keeps_records(s: MmModel, tid: Seq<char>, f: Fill, now: Double, min_size: Double, window: int)
    requires
        bounded(s, window),
        well_counted(s),
        fill_room(s),
    ensures
        bounded(s.with_fill(tid, f, now, min_size), window),
        well_counted(s.with_fill(tid, f, now, min_size)),
{
    if !s.processed_fill_ids.contains(tid) {
        let a = s.counted(tid, f);
        assert(a.processed_fill_ids.no_duplicates());
        let b = a.queue_timed(f, now);
        assert(b.stats.maker_fills == a.stats.maker_fills && b.stats.taker_fills
            == a.stats.taker_fills && b.stats.fills_count == a.stats.fills_count);
        let c = b.spread_captured(f);
        let d = c.matched(f, now);
        assert(bounded(d, window));
        let g = d.recorded(f, now);
        assert(bounded(g, window));
        let h = g.classified(f);
        assert(h.stats.maker_fills + h.stats.taker_fills == h.stats.fills_count);
    }
}

proof fn lemma_sampled_len(
    fills: Seq<FillRecord>,
    n: int,
    stats: Stats,
    mid: Double,
    now: Double,
    rule: MarkoutRule,
)
    requires
        n >= 0,
    ensures
        sampled(fills, n, stats, mid, now, rule).fills.len() == n,
        sampled(fills, n, stats, mid, now, rule).stats.maker_fills == stats.maker_fills,
        sampled(fills, n, stats, mid, now, rule).stats.taker_fills == stats.taker_fills,
        sampled(fills, n, stats, mid, now, rule).stats.fills_count == stats.fills_count,
    decreases n,
{
    if n > 0 {
        lemma_sampled_len(fills, n - 1, stats, mid, now, rule);
    }
}

/// Sampling the markouts keeps the records within their limits and the fills well counted.
pub proof fn markouts_keep_records(s: MmModel, weights: Seq<Double>, now: Double, rule: MarkoutRule, window: int)
    requires
        bounded(s, window),
        well_counted(s),
    ensures
        bounded(s.with_markouts(weights, now, rule), window),
        well_counted(s.with_markouts(weights, now, rule)),
{
    if let Some(bbo) = s.bbo {
        lemma_sampled_len(s.fill_history, s.fill_history.len() as int, s.stats, bbo.mid, now, rule);
    }
}

proof fn lemma_weights_sum(
    fills: Seq<FillRecord>,
    weights: Seq<Double>,
    n: int,
    mid: Double,
    threshold: Double,
)
    requires
        0 <= n <= weights.len(),
        forall|i: int| 0 <= i < weights.len() ==> zero().at_most(#[trigger] weights[i]),
    ensures
        zero().at_most(weighed(fills, weights, n, mid, threshold).0),
        zero().at_most(weighed(fills, weights, n, mid, threshold).1),
    decreases n,
{
    if n > 0 {
        lemma_weights_sum(fills, weights, n - 1, mid, threshold);
        let before = weighed(fills, weights, n - 1, mid, threshold);
        sum_keeps_sign(before.0, weights[n - 1]);
        sum_keeps_sign(before.1, weights[n - 1]);
    }
}

/// The markout score lies between none and one, as long as no weight is negative.
pub proof fn score_is_a_share(
    fills: Seq<FillRecord>,
    weights: Seq<Double>,
    mid: Double,
    threshold: Double,
)
    requires
        weights.len() == fills.len(),
        forall|i: int| 0 <= i < weights.len() ==> zero().at_most(#[trigger] weights[i]),
    ensures
        zero().at_most(score_of(fills, weights, mid, threshold)),
        score_of(fills, weights, mid, threshold).at_most(of_int(1)),
{
    lemma_weights_sum(fills, weights, fills.len() as int, mid, threshold);
    let w = weighed(fills, weights, fills.len() as int, mid, threshold);
    integers_keep_sign(1);
    if zero().less(w.1) && !w.0.over(w.1).is_nan() {
        quotient_sign(w.0, w.1);
    }
}

/// The points of a history lie at least a second apart, and the last is the one that was
/// sampled last.
pub open spec fn spaced(s: MmModel) -> bool {
    &&& forall|i: int, j: int|
        0 <= i < j < s.metrics_history.len() ==> (#[trigger] s.metrics_history[i]).ts_ms
            + SAMPLE_MS <= (#[trigger] s.metrics_history[j]).ts_ms
    &&& s.metrics_history.len() > 0 ==> s.metrics_history.last().ts_ms
        == s.last_metrics_sample_ms
}

/// Sampling keeps the points of the history at least a second apart.
pub proof fn samples_are_spaced(s: MmModel, now_ms: u64)
    requires
        spaced(s),
    ensures
        spaced(s.with_sample(now_ms)),
{
    let h = s.metrics_history;
    let all = h.push(s.sample(now_ms));
    if now_ms - s.last_metrics_sample_ms >= SAMPLE_MS {
        assert forall|i: int, j: int| 0 <= i < j < all.len() implies (#[trigger] all[i]).ts_ms
            + SAMPLE_MS <= (#[trigger] all[j]).ts_ms by {
            if j == h.len() {
                assert(i == h.len() - 1 || h[i].ts_ms + SAMPLE_MS <= h[h.len() - 1].ts_ms);
            } else {
                assert(h[i].ts_ms + SAMPLE_MS <= h[j].ts_ms);
            }
        }
    }
}

/// The time that is left in a horizon is never less than a second after a book.
pub proof fn time_left_is_positive(
    config: Config,
    s: MmModel,
    bbo: Bbo,
    bid_depth: Double,
    ask_depth: Double,
    now: Double,
    decay: Decay,
)
    ensures
        of_int(1).at_most(
            s.with_book(config, bbo, bid_depth, ask_depth, now, decay).t_remaining_secs,
        ),
{
    integers_keep_sign(1);
}

// ---- sessions -----------------------------------------------------------------------------------------

/// The newest session comes first, the others keep their order, and no more than a hundred are
/// kept.
pub proof fn sessions_are_newest_first(sessions: Seq<SessionView>, s: SessionView)
    ensures
        with_session(sessions, s).len() <= MAX_SESSIONS,
        with_session(sessions, s)[0] == s,
        forall|i: int|
            1 <= i < with_session(sessions, s).len() ==> #[trigger] with_session(sessions, s)[i]
                == sessions[i - 1],
        sessions.len() < MAX_SESSIONS ==> with_session(sessions, s).len() == sessions.len() + 1,
{
}

} // verus!
