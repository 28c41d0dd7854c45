//! What holds of the grid of orders: how its levels are ordered, and how inventory moves them.
use vstd::arithmetic::power2::{lemma2_to64, lemma_pow2_adds, lemma_pow2_pos};
use vstd::prelude::*;

use crate::config::Config;
use crate::double::{
    lemma_mag_form, lemma_mag_order, mag, nan, of_int, one_unit, quotient, zero, Double, INF, P52,
    UNIT,
};
use crate::laws::inventory_lowers_the_reservation_price;
use crate::order::{
    adding_grows, ceiling_of, ceilings_keep_order, differences_keep_order, floor_of,
    floors_keep_order, integers_keep_order, integers_keep_sign, lemma_integers, lemma_rounded,
    lemma_rounding_exact, lemma_tens, lemma_zero_integer, lemma_zero_product, lemma_zero_quotient,
    lemma_zero_rounding, nearest_integers_keep_order, numbers_come_from_numbers, positive_integers,
    positive_quotient, product_is_number, product_sign, products_keep_order, quotients_keep_order,
    roundings_bracket, size_of, small_integers_are_finite, subtracting_shrinks, sums_keep_order,
};
use crate::parse::tens;
use crate::strategy::{
    grid_center, grid_delta, grid_for, grid_levels, grid_ticks, has_price, horizon, model_quotes,
    quote_variance, quotes, risk_units, rounded_to, Grid,
};
use crate::ticks::{
    decimal_tick, lemma_decimal_tick, multiples_are_exact, multiples_stay_apart, MAX_TICKS,
};
use crate::types::{Bbo, MmModel, OrderLevel};

verus! {

// ---- prices on the grid ------------------------------------------------------------------------------

/// A price on the tick at or below the wanted one, or at or above it.
spec fn priced(x: Double, up: bool, tick: Double, places: u32) -> Double {
    let ticks = if up {
        x.over(tick).ceiled()
    } else {
        x.over(tick).floored()
    };
    rounded_to(ticks.times(tick), places)
}

/// Rounding to decimals keeps the order of numbers.
pub(crate) proof fn lemma_rounded_to_order(a: Double, b: Double, places: u32)
    requires
        a.at_most(b),
        !rounded_to(a, places).is_nan(),
        !rounded_to(b, places).is_nan(),
    ensures
        rounded_to(a, places).at_most(rounded_to(b, places)),
{
    let p = tens(places);
    lemma_tens(places);
    let x = a.times(p);
    let y = b.times(p);
    numbers_come_from_numbers(x.nearest_whole(), p);
    numbers_come_from_numbers(y.nearest_whole(), p);
    numbers_come_from_numbers(x, p);
    numbers_come_from_numbers(y, p);
    products_keep_order(a, b, p);
    nearest_integers_keep_order(x, y);
    lemma_divisor(a, places);
    quotients_keep_order(x.nearest_whole(), y.nearest_whole(), p);
}

/// What is rounded to decimals is a number only where the power of ten is not zero.
proof fn lemma_divisor(a: Double, places: u32)
    requires
        !rounded_to(a, places).is_nan(),
    ensures
        !a.is_nan(),
        zero().less(tens(places)),
{
    let p = tens(places);
    let x = a.times(p);
    assert(nan().is_nan());
    lemma_tens(places);
    assert(mag(0) == 0);
    lemma_mag_order(0, p.index());
    numbers_come_from_numbers(x.nearest_whole(), p);
    numbers_come_from_numbers(x, p);
    numbers_come_from_numbers(a, p);
    if p.index() == 0 {
        lemma_zero_product(a, p);
        lemma_zero_integer(x);
    }
}

proof fn lemma_priced_order(x: Double, y: Double, up: bool, tick: Double, places: u32)
    requires
        x.at_most(y),
        zero().less(tick),
        !priced(x, up, tick, places).is_nan(),
        !priced(y, up, tick, places).is_nan(),
    ensures
        priced(x, up, tick, places).at_most(priced(y, up, tick, places)),
{
    let a = x.over(tick);
    let b = y.over(tick);
    let m = if up {
        a.ceiled()
    } else {
        a.floored()
    };
    let n = if up {
        b.ceiled()
    } else {
        b.floored()
    };
    lemma_divisor(m.times(tick), places);
    lemma_divisor(n.times(tick), places);
    numbers_come_from_numbers(m, tick);
    numbers_come_from_numbers(n, tick);
    numbers_come_from_numbers(a, tick);
    numbers_come_from_numbers(b, tick);
    quotients_keep_order(x, y, tick);
    ceilings_keep_order(a, b);
    floors_keep_order(a, b);
    products_keep_order(m, n, tick);
    lemma_rounded_to_order(m.times(tick), n.times(tick), places);
}

proof fn lemma_priced_number(x: Double, up: bool, tick: Double, places: u32)
    requires
        !priced(x, up, tick, places).is_nan(),
    ensures
        !x.is_nan(),
        !x.over(tick).is_nan(),
{
    let a = x.over(tick);
    let m = if up {
        a.ceiled()
    } else {
        a.floored()
    };
    lemma_divisor(m.times(tick), places);
    numbers_come_from_numbers(m, tick);
    numbers_come_from_numbers(a, tick);
    numbers_come_from_numbers(x, tick);
}

impl Grid {
    /// What the bid or the ask at level `i` is wanted at, before it is put on a tick.
    pub open spec fn wish(self, buy: bool, i: int) -> Double {
        if buy {
            self.center.minus(self.delta).minus(self.offset(i))
        } else {
            self.center.plus(self.delta).plus(self.offset(i))
        }
    }

    /// The bid or the ask at level `i`.
    pub open spec fn price(self, buy: bool, i: int) -> Double {
        if buy {
            self.bid(i)
        } else {
            self.ask(i)
        }
    }
}

proof fn lemma_price(g: Grid, buy: bool, i: int)
    ensures
        g.price(buy, i) == priced(g.wish(buy, i), !buy, g.tick, g.price_places),
{
}

// ---- the order of the levels --------------------------------------------------------------------------

/// Levels farther out are not wanted closer to the market.
proof fn lemma_wishes(g: Grid, buy: bool, i: int, j: int)
    requires
        0 <= i <= j,
        zero().at_most(g.spacing),
        !g.wish(buy, i).is_nan(),
        !g.wish(buy, j).is_nan(),
    ensures
        buy ==> g.wish(buy, j).at_most(g.wish(buy, i)),
        !buy ==> g.wish(buy, i).at_most(g.wish(buy, j)),
{
    let c = if buy {
        g.center.minus(g.delta)
    } else {
        g.center.plus(g.delta)
    };
    numbers_come_from_numbers(c, g.offset(i));
    numbers_come_from_numbers(c, g.offset(j));
    integers_keep_order(i, j);
    products_keep_order(of_int(i), of_int(j), g.spacing);
    if buy {
        differences_keep_order(g.offset(i), g.offset(j), c);
    } else {
        sums_keep_order(g.offset(i), g.offset(j), c);
    }
}

/// Levels farther out are not quoted closer to the market.
proof fn lemma_outwards(g: Grid, buy: bool, i: int, j: int)
    requires
        0 <= i <= j,
        zero().less(g.tick),
        zero().at_most(g.spacing),
        !g.price(buy, i).is_nan(),
        !g.price(buy, j).is_nan(),
    ensures
        buy ==> g.price(buy, j).at_most(g.price(buy, i)),
        !buy ==> g.price(buy, i).at_most(g.price(buy, j)),
{
    lemma_price(g, buy, i);
    lemma_price(g, buy, j);
    lemma_priced_number(g.wish(buy, i), !buy, g.tick, g.price_places);
    lemma_priced_number(g.wish(buy, j), !buy, g.tick, g.price_places);
    lemma_wishes(g, buy, i, j);
    if buy {
        lemma_priced_order(g.wish(buy, j), g.wish(buy, i), !buy, g.tick, g.price_places);
    } else {
        lemma_priced_order(g.wish(buy, i), g.wish(buy, j), !buy, g.tick, g.price_places);
    }
}

/// Two positive numbers that differ are not equal.
proof fn lemma_distinct(a: Double, b: Double)
    requires
        zero().less(a),
        zero().less(b),
        a != b,
    ensures
        a.value() != b.value(),
{
    assert(mag(0) == 0);
    lemma_mag_order(0, a.index());
    lemma_mag_order(0, b.index());
    lemma_mag_order(a.index(), b.index());
}

/// Each level of a side has the positive price of a place that the grid quotes.
proof fn lemma_from_grid(g: Grid, buy: bool, n: int)
    requires
        n >= 0,
    ensures
        forall|k: int|
            0 <= k < g.side(buy, n).len() ==> zero().less(
                (#[trigger] g.side(buy, n)[k]).price,
            ) && exists|i: int|
                0 <= i < n && g.quoted(i) && g.side(buy, n)[k].price == #[trigger] g.price(buy, i),
    decreases n,
{
    if n > 0 {
        lemma_from_grid(g, buy, n - 1);
        let s = g.side(buy, n);
        let before = g.side(buy, n - 1);
        assert forall|k: int| 0 <= k < s.len() implies zero().less((#[trigger] s[k]).price)
            && exists|i: int|
            0 <= i < n && g.quoted(i) && s[k].price == #[trigger] g.price(buy, i) by {
            if k < before.len() {
                assert(s[k] == before[k]);
            } else {
                assert(s[k].price == g.price(buy, n - 1));
            }
        }
    }
}

/// The bids of a grid fall from level to level, and its asks rise.
pub proof fn levels_move_outwards(g: Grid, buy: bool, n: int)
    requires
        n >= 0,
        zero().less(g.tick),
        zero().at_most(g.spacing),
    ensures
        forall|i: int, j: int|
            0 <= i < j < g.side(buy, n).len() ==> if buy {
                (#[trigger] g.side(buy, n)[j]).price.less((#[trigger] g.side(buy, n)[i]).price)
            } else {
                g.side(buy, n)[i].price.less(g.side(buy, n)[j].price)
            },
    decreases n,
{
    if n > 0 {
        levels_move_outwards(g, buy, n - 1);
        lemma_from_grid(g, buy, n - 1);
        let s = g.side(buy, n);
        let before = g.side(buy, n - 1);
        assert forall|i: int, j: int| 0 <= i < j < s.len() implies if buy {
            (#[trigger] s[j]).price.less((#[trigger] s[i]).price)
        } else {
            s[i].price.less(s[j].price)
        } by {
            assert(s[i] == before[i]);
            if j < before.len() {
                assert(s[j] == before[j]);
            } else {
                let k = choose|k: int|
                    0 <= k < n - 1 && g.quoted(k) && before[i].price == #[trigger] g.price(buy, k);
                assert(s[j].price == g.price(buy, n - 1));
                assert(before[i].price != s[j].price);
                lemma_outwards(g, buy, k, n - 1);
                lemma_distinct(s[i].price, s[j].price);
            }
        }
    }
}

/// What is not negative does not raise a number from which it is subtracted, nor lower one to
/// which it is added.
proof fn lemma_around(a: Double, x: Double)
    requires
        zero().at_most(x),
    ensures
        !a.minus(x).is_nan() ==> a.minus(x).at_most(a),
        !a.plus(x).is_nan() ==> a.at_most(a.plus(x)),
{
    assert(mag(0) == 0);
    assert(nan().is_nan());
    numbers_come_from_numbers(a, x);
    if a.is_nan() {
    } else if a.is_inf() && x.is_inf() {
        lemma_mag_order(0, INF as int);
    } else {
        subtracting_shrinks(a, x);
        adding_grows(a, x);
    }
}

/// The bids of a grid do not cross its asks: no bid is above an ask, on any tick.
pub proof fn levels_do_not_cross(g: Grid, n: int)
    requires
        n >= 0,
        zero().less(g.tick),
        zero().at_most(g.spacing),
        zero().at_most(g.delta),
    ensures
        forall|i: int, j: int|
            0 <= i < g.side(true, n).len() && 0 <= j < g.side(false, n).len() ==> (
            #[trigger] g.side(true, n)[i]).price.at_most(
                (#[trigger] g.side(false, n)[j]).price,
            ),
{
    let bids = g.side(true, n);
    let asks = g.side(false, n);
    lemma_from_grid(g, true, n);
    lemma_from_grid(g, false, n);
    assert forall|i: int, j: int| 0 <= i < bids.len() && 0 <= j < asks.len() implies (
    #[trigger] bids[i]).price.at_most((#[trigger] asks[j]).price) by {
        let k = choose|k: int|
            0 <= k < n && g.quoted(k) && bids[i].price == #[trigger] g.price(true, k);
        let l = choose|l: int|
            0 <= l < n && g.quoted(l) && asks[j].price == #[trigger] g.price(false, l);
        lemma_no_crossing(g, k, l);
    }
}

proof fn lemma_no_crossing(g: Grid, k: int, l: int)
    requires
        0 <= k,
        0 <= l,
        zero().less(g.tick),
        zero().at_most(g.spacing),
        zero().at_most(g.delta),
        !g.price(true, k).is_nan(),
        !g.price(false, l).is_nan(),
    ensures
        g.price(true, k).at_most(g.price(false, l)),
{
    let x = g.wish(true, k);
    let y = g.wish(false, l);
    let c = g.center;
    lemma_price(g, true, k);
    lemma_price(g, false, l);
    lemma_priced_number(x, false, g.tick, g.price_places);
    lemma_priced_number(y, true, g.tick, g.price_places);
    numbers_come_from_numbers(c.minus(g.delta), g.offset(k));
    numbers_come_from_numbers(c.plus(g.delta), g.offset(l));
    integers_keep_sign(k as nat);
    integers_keep_sign(l as nat);
    product_sign(of_int(k), g.spacing);
    product_sign(of_int(l), g.spacing);
    lemma_around(c, g.delta);
    lemma_around(c.minus(g.delta), g.offset(k));
    lemma_around(c.plus(g.delta), g.offset(l));
    // down from the lower one, up from the higher one
    let a = x.over(g.tick);
    let b = y.over(g.tick);
    quotients_keep_order(x, y, g.tick);
    roundings_bracket(a);
    roundings_bracket(b);
    let m = a.floored();
    let n = b.ceiled();
    lemma_divisor(m.times(g.tick), g.price_places);
    lemma_divisor(n.times(g.tick), g.price_places);
    products_keep_order(m, n, g.tick);
    lemma_rounded_to_order(m.times(g.tick), n.times(g.tick), g.price_places);
}

/// The quotes for a state are in order: its bids fall, its asks rise, and with a half spread
/// that is not negative no bid is above an ask.
pub proof fn quotes_are_ordered(bbo: Bbo, position: Double, config: Config, s: MmModel)
    requires
        zero().less(config.token.tick_size),
        config.token.tick_size.is_finite(),
    ensures
        ({
            let (bids, asks) = grid_levels(bbo, position, config, s);
            &&& forall|i: int, j: int|
                0 <= i < j < bids.len() ==> (#[trigger] bids[j]).price.less(
                    (#[trigger] bids[i]).price,
                )
            &&& forall|i: int, j: int|
                0 <= i < j < asks.len() ==> (#[trigger] asks[i]).price.less(
                    (#[trigger] asks[j]).price,
                )
            &&& zero().at_most(grid_delta(bbo, position, config, s)) ==> forall|i: int, j: int|
                0 <= i < bids.len() && 0 <= j < asks.len() ==> (#[trigger] bids[i]).price.at_most(
                    (#[trigger] asks[j]).price,
                )
        }),
{
    let g = grid_for(bbo, position, config, s);
    let n = config.token.num_levels as int;
    let space = config.spread.level_tick_spacing as nat;
    integers_keep_sign(space);
    small_integers_are_finite(space);
    product_is_number(of_int(space as int), config.token.tick_size);
    product_sign(of_int(space as int), config.token.tick_size);
    levels_move_outwards(g, true, n);
    levels_move_outwards(g, false, n);
    if zero().at_most(g.delta) {
        levels_do_not_cross(g, n);
    }
}

/// What is rounded down to nothing or less has no positive price.
proof fn lemma_not_positive(m: Double, tick: Double, places: u32)
    requires
        m.at_most(zero()),
        zero().less(tick),
    ensures
        !zero().less(rounded_to(m.times(tick), places)),
{
    let x = m.times(tick);
    let p = tens(places);
    if zero().less(rounded_to(x, places)) {
        lemma_divisor(x, places);
        product_sign(m, tick);
        numbers_come_from_numbers(x.times(p).nearest_whole(), p);
        numbers_come_from_numbers(x.times(p), p);
        product_sign(x, p);
        nearest_integers_keep_order(x.times(p), zero());
        lemma_zero_integer(zero());
        lemma_zero_quotient(zero().nearest_whole(), p);
        assert(mag(0) == 0);
        quotients_keep_order(x.times(p).nearest_whole(), zero().nearest_whole(), p);
    }
}

/// The largest number of ticks is exact as a double.
proof fn lemma_max_ticks()
    ensures
        of_int(MAX_TICKS as int).value() == MAX_TICKS * one_unit(),
        of_int(MAX_TICKS as int).is_finite(),
{
    let u = one_unit();
    let k = 1072 * P52 as int;
    lemma_rounded(false, (MAX_TICKS * u) as nat, 1);
    lemma_mag_form(1071, P52 as int);
    assert(1071 * P52 + P52 == k);
    lemma_pow2_adds(3, 1071);
    lemma2_to64();
    assert(mag(k) == MAX_TICKS * u);
    lemma_rounding_exact(k);
}

/// The ticks that a level is rounded to are a positive integer, where its price is positive.
proof fn lemma_ticks(x: Double, up: bool, tick: Double, places: u32) -> (m: int)
    requires
        zero().less(tick),
        zero().less(priced(x, up, tick, places)),
        x.over(tick).at_most(of_int(MAX_TICKS as int)),
    ensures
        x.over(tick).is_finite(),
        m == (if up {
            ceiling_of(x.over(tick))
        } else {
            floor_of(x.over(tick))
        }),
        1 <= m <= MAX_TICKS,
        priced(x, up, tick, places) == rounded_to(of_int(m).times(tick), places),
{
    let u = one_unit() as int;
    let a = x.over(tick);
    let r = if up {
        a.ceiled()
    } else {
        a.floored()
    };
    lemma_pow2_pos(UNIT as nat);
    assert(mag(0) == 0);
    lemma_priced_number(x, up, tick, places);
    if r.at_most(zero()) {
        lemma_not_positive(r, tick, places);
    }
    lemma_max_ticks();
    lemma_mag_order(0, a.index());
    lemma_mag_order(0, INF as int);
    lemma_mag_order(a.index(), INF as int);
    lemma_mag_order(of_int(MAX_TICKS as int).index(), INF as int);
    lemma_integers(a);
    lemma_rounded(a.neg(), size_of(floor_of(a)) * one_unit(), 1);
    lemma_rounded(a.neg(), size_of(ceiling_of(a)) * one_unit(), 1);
    let m = if up {
        ceiling_of(a)
    } else {
        floor_of(a)
    };
    if m == 0 {
        lemma_zero_rounding(1);
        assert(0 * u == 0);
    }
    assert((m - 1) * u == m * u - u) by (nonlinear_arith);
    assert(m <= MAX_TICKS) by (nonlinear_arith)
        requires
            (m - 1) * u < a.value(),
            a.value() <= MAX_TICKS * u,
            u > 0,
    ;
    assert(r == of_int(m));
    m
}

/// A bid and the innermost ask on a decimal tick, where what they are wanted at differs.
proof fn lemma_apart(x: Double, y: Double, tick: Double, places: u32)
    requires
        places <= 22,
        tick == decimal_tick(places),
        zero().less(tick),
        zero().less(priced(x, false, tick, places)),
        x.over(tick).less(y.over(tick)),
        y.over(tick).at_most(of_int(MAX_TICKS as int)),
    ensures
        priced(x, false, tick, places).less(priced(y, true, tick, places)),
{
    let u = one_unit() as int;
    let a = x.over(tick);
    let b = y.over(tick);
    lemma_pow2_pos(UNIT as nat);
    let m = lemma_ticks(x, false, tick, places);
    lemma_max_ticks();
    assert(mag(0) == 0);
    lemma_mag_order(0, a.index());
    lemma_mag_order(b.index(), INF as int);
    lemma_mag_order(of_int(MAX_TICKS as int).index(), INF as int);
    lemma_integers(a);
    lemma_integers(b);
    let n = ceiling_of(b);
    assert(m < n) by (nonlinear_arith)
        requires
            m * u <= a.value(),
            a.value() < b.value(),
            b.value() <= n * u,
            u > 0,
    ;
    assert(n <= MAX_TICKS) by (nonlinear_arith)
        requires
            (n - 1) * u < b.value(),
            b.value() <= MAX_TICKS * u,
            u > 0,
    ;
    assert(b.ceiled() == of_int(n));
    multiples_are_exact(m as nat, places);
    multiples_are_exact(n as nat, places);
    multiples_stay_apart(m as nat, n as nat, places);
}

/// On a decimal tick every bid is below every ask, as long as the innermost bid and ask are
/// wanted at different numbers of ticks, and at no more of them than are told apart.
pub proof fn bids_stay_below_asks(g: Grid, n: int)
    requires
        n >= 0,
        g.price_places <= 22,
        g.tick == decimal_tick(g.price_places),
        zero().at_most(g.spacing),
        g.wish(true, 0).over(g.tick).less(g.wish(false, 0).over(g.tick)),
        g.wish(false, 0).over(g.tick).at_most(of_int(MAX_TICKS as int)),
    ensures
        forall|i: int, j: int|
            0 <= i < g.side(true, n).len() && 0 <= j < g.side(false, n).len() ==> (
            #[trigger] g.side(true, n)[i]).price.less((#[trigger] g.side(false, n)[j]).price),
{
    let bids = g.side(true, n);
    let asks = g.side(false, n);
    lemma_from_grid(g, true, n);
    lemma_from_grid(g, false, n);
    lemma_decimal_tick(g.price_places);
    assert forall|i: int, j: int| 0 <= i < bids.len() && 0 <= j < asks.len() implies (
    #[trigger] bids[i]).price.less((#[trigger] asks[j]).price) by {
        let k = choose|k: int|
            0 <= k < n && g.quoted(k) && bids[i].price == #[trigger] g.price(true, k);
        let l = choose|l: int|
            0 <= l < n && g.quoted(l) && asks[j].price == #[trigger] g.price(false, l);
        lemma_levels_apart(g, k, l);
    }
}

proof fn lemma_levels_apart(g: Grid, k: int, l: int)
    requires
        0 <= k,
        0 <= l,
        g.price_places <= 22,
        g.tick == decimal_tick(g.price_places),
        zero().less(g.tick),
        zero().at_most(g.spacing),
        g.wish(true, 0).over(g.tick).less(g.wish(false, 0).over(g.tick)),
        g.wish(false, 0).over(g.tick).at_most(of_int(MAX_TICKS as int)),
        zero().less(g.price(true, k)),
        zero().less(g.price(false, l)),
    ensures
        g.price(true, k).less(g.price(false, l)),
{
    let x0 = g.wish(true, 0);
    let y0 = g.wish(false, 0);
    let x = g.wish(true, k);
    let y = g.wish(false, l);
    lemma_price(g, true, k);
    lemma_price(g, false, l);
    lemma_priced_number(x, false, g.tick, g.price_places);
    lemma_priced_number(y, true, g.tick, g.price_places);
    numbers_come_from_numbers(x0, g.tick);
    numbers_come_from_numbers(y0, g.tick);
    lemma_wishes(g, true, 0, k);
    lemma_wishes(g, false, 0, l);
    quotients_keep_order(x, x0, g.tick);
    lemma_apart(x, y0, g.tick, g.price_places);
    lemma_priced_order(y0, y, true, g.tick, g.price_places);
}

/// On a decimal tick, levels that are wanted a tick or more apart are quoted at different
/// prices.
pub proof fn spaced_levels_differ(g: Grid, buy: bool, i: int, j: int)
    requires
        g.price_places <= 22,
        g.tick == decimal_tick(g.price_places),
        zero().less(g.price(buy, i)),
        zero().less(g.price(buy, j)),
        g.wish(buy, i).over(g.tick).value() + one_unit() <= g.wish(buy, j).over(g.tick).value(),
        g.wish(buy, j).over(g.tick).at_most(of_int(MAX_TICKS as int)),
    ensures
        g.price(buy, i).less(g.price(buy, j)),
{
    let u = one_unit() as int;
    let a = g.wish(buy, i).over(g.tick);
    let b = g.wish(buy, j).over(g.tick);
    lemma_pow2_pos(UNIT as nat);
    lemma_decimal_tick(g.price_places);
    lemma_price(g, buy, i);
    lemma_price(g, buy, j);
    lemma_priced_number(g.wish(buy, i), !buy, g.tick, g.price_places);
    let m = lemma_ticks(g.wish(buy, i), !buy, g.tick, g.price_places);
    let n = lemma_ticks(g.wish(buy, j), !buy, g.tick, g.price_places);
    lemma_integers(a);
    lemma_integers(b);
    assert(m < n) by {
        if buy {
            assert(m < n) by (nonlinear_arith)
                requires
                    m * u <= a.value(),
                    a.value() + u <= b.value(),
                    b.value() < (n + 1) * u,
                    u > 0,
            ;
        } else {
            assert(m < n) by (nonlinear_arith)
                requires
                    (m - 1) * u < a.value(),
                    a.value() + u <= b.value(),
                    b.value() <= n * u,
                    u > 0,
            ;
        }
    }
    multiples_are_exact(m as nat, g.price_places);
    multiples_are_exact(n as nat, g.price_places);
    multiples_stay_apart(m as nat, n as nat, g.price_places);
}

/// A level with a positive price is wanted at a positive one.
pub(crate) proof fn lemma_positive_wish(g: Grid, buy: bool, i: int)
    requires
        zero().less(g.tick),
        zero().less(g.price(buy, i)),
    ensures
        zero().less(g.wish(buy, i)),
        zero().less(g.wish(buy, i).over(g.tick)),
{
    let x = g.wish(buy, i);
    let a = x.over(g.tick);
    let r = if buy {
        a.floored()
    } else {
        a.ceiled()
    };
    assert(mag(0) == 0);
    lemma_price(g, buy, i);
    lemma_priced_number(x, !buy, g.tick, g.price_places);
    roundings_bracket(a);
    lemma_zero_quotient(zero(), g.tick);
    roundings_bracket(zero());
    if a.at_most(zero()) {
        ceilings_keep_order(a, zero());
        lemma_zero_ceiling();
        assert(r.at_most(zero()));
        lemma_not_positive(r, g.tick, g.price_places);
    }
    if x.at_most(zero()) {
        quotients_keep_order(x, zero(), g.tick);
    }
}

proof fn lemma_zero_ceiling()
    ensures
        zero().ceiled().value() == 0,
{
    let u = one_unit() as int;
    lemma_pow2_pos(UNIT as nat);
    assert(mag(0) == 0);
    lemma_integers(zero());
    lemma_zero_rounding(1);
    vstd::arithmetic::div_mod::lemma_basic_div(0, u);
    assert(0 * u == 0);
}

// ---- inventory ----------------------------------------------------------------------------------------

/// A positive bound from below makes any number positive.
proof fn lemma_at_least(a: Double, b: Double)
    requires
        zero().less(b),
    ensures
        zero().less(a.larger(b)),
{
}

/// More inventory is not less of it in units of risk.
proof fn lemma_risk_units(p1: Double, p2: Double, mid: Double, risk_unit_usd: Double)
    requires
        p1.at_most(p2),
        !risk_units(p1, mid, risk_unit_usd).is_nan(),
        !risk_units(p2, mid, risk_unit_usd).is_nan(),
    ensures
        risk_units(p1, mid, risk_unit_usd).at_most(risk_units(p2, mid, risk_unit_usd)),
{
    if !(mid.at_most(zero()) || risk_unit_usd.at_most(zero())) {
        let least = quotient(1, 1_000_000_000);
        positive_quotient(1, 1_000_000_000);
        lemma_at_least(risk_unit_usd.over(mid), least);
        quotients_keep_order(p1, p2, risk_unit_usd.over(mid).larger(least));
    }
}

/// More inventory does not raise the price around which the orders are laid.
proof fn lemma_center(bbo: Bbo, p1: Double, p2: Double, config: Config, s: MmModel)
    requires
        p1.at_most(p2),
        zero().at_most(config.as_model.gamma),
        !grid_center(bbo, p1, config, s).is_nan(),
        !grid_center(bbo, p2, config, s).is_nan(),
    ensures
        grid_center(bbo, p2, config, s).at_most(grid_center(bbo, p1, config, s)),
{
    let skew = s.book_imbalance_ema.times(config.spread.imbalance_weight).times(
        config.token.tick_size,
    );
    let unit = config.as_model.risk_unit_usd;
    let q1 = risk_units(p1, bbo.mid, unit);
    let q2 = risk_units(p2, bbo.mid, unit);
    let v = quote_variance(s, config.as_model.sigma_window as int);
    let t = horizon(s.vol_regime, s.t_remaining_secs).larger(of_int(1));
    let gamma = config.as_model.gamma;
    let ln = config.logs.arrival_ln;
    let r1 = model_quotes(bbo, p1, config, s).0;
    let r2 = model_quotes(bbo, p2, config, s).0;
    numbers_come_from_numbers(r1, skew);
    numbers_come_from_numbers(r2, skew);
    lemma_inventory_is_number(bbo.mid, q1, v, t, gamma, ln);
    lemma_inventory_is_number(bbo.mid, q2, v, t, gamma, ln);
    lemma_risk_units(p1, p2, bbo.mid, unit);
    positive_quotient(1, 1_000_000_000_000_000_000);
    positive_integers(1);
    inventory_lowers_the_reservation_price(bbo.mid, q1, q2, v, t, gamma, ln);
    sums_keep_order(r2, r1, skew);
}

proof fn lemma_inventory_is_number(
    mid: Double,
    q: Double,
    v: Double,
    t: Double,
    gamma: Double,
    ln: Double,
)
    requires
        !quotes(mid, q, v, t, gamma, ln).0.is_nan(),
    ensures
        !q.is_nan(),
{
    let a = q.times(gamma);
    let b = a.times(v);
    numbers_come_from_numbers(mid, b.times(t));
    numbers_come_from_numbers(b, t);
    numbers_come_from_numbers(a, v);
    numbers_come_from_numbers(q, gamma);
}

/// More inventory changes nothing of a grid but its center, and raises no price of it.
pub proof fn inventory_lowers_prices(
    bbo: Bbo,
    p1: Double,
    p2: Double,
    config: Config,
    s: MmModel,
    buy: bool,
    i: int,
)
    requires
        p1.at_most(p2),
        zero().at_most(config.as_model.gamma),
        zero().less(config.token.tick_size),
        !grid_for(bbo, p1, config, s).price(buy, i).is_nan(),
        !grid_for(bbo, p2, config, s).price(buy, i).is_nan(),
    ensures
        grid_for(bbo, p2, config, s) == (Grid {
            center: grid_center(bbo, p2, config, s),
            ..grid_for(bbo, p1, config, s)
        }),
        grid_for(bbo, p2, config, s).price(buy, i).at_most(
            grid_for(bbo, p1, config, s).price(buy, i),
        ),
{
    let g1 = grid_for(bbo, p1, config, s);
    let g2 = grid_for(bbo, p2, config, s);
    let offset = g1.offset(i);
    lemma_same_grid(bbo, p1, p2, config, s);
    lemma_price(g1, buy, i);
    lemma_price(g2, buy, i);
    lemma_priced_number(g1.wish(buy, i), !buy, g1.tick, g1.price_places);
    lemma_priced_number(g2.wish(buy, i), !buy, g2.tick, g2.price_places);
    if buy {
        let c1 = g1.center.minus(g1.delta);
        let c2 = g2.center.minus(g2.delta);
        numbers_come_from_numbers(c1, offset);
        numbers_come_from_numbers(c2, offset);
        numbers_come_from_numbers(g1.center, g1.delta);
        numbers_come_from_numbers(g2.center, g2.delta);
        lemma_center(bbo, p1, p2, config, s);
        differences_keep_order(g2.center, g1.center, g1.delta);
        differences_keep_order(c2, c1, offset);
    } else {
        let c1 = g1.center.plus(g1.delta);
        let c2 = g2.center.plus(g2.delta);
        numbers_come_from_numbers(c1, offset);
        numbers_come_from_numbers(c2, offset);
        numbers_come_from_numbers(g1.center, g1.delta);
        numbers_come_from_numbers(g2.center, g2.delta);
        lemma_center(bbo, p1, p2, config, s);
        sums_keep_order(g2.center, g1.center, g1.delta);
        sums_keep_order(c2, c1, offset);
    }
    lemma_priced_order(g2.wish(buy, i), g1.wish(buy, i), !buy, g1.tick, g1.price_places);
}

/// Grids for two inventories differ in their centers alone.
proof fn lemma_same_grid(bbo: Bbo, p1: Double, p2: Double, config: Config, s: MmModel)
    ensures
        grid_delta(bbo, p1, config, s) == grid_delta(bbo, p2, config, s),
        grid_for(bbo, p2, config, s) == (Grid {
            center: grid_center(bbo, p2, config, s),
            ..grid_for(bbo, p1, config, s)
        }),
{
}

/// Every level that a grid quotes on a side has a positive price, and one of its own.
pub open spec fn unfiltered(g: Grid, buy: bool, n: int) -> bool {
    &&& forall|i: int| 0 <= i < n && g.quoted(i) ==> zero().less(#[trigger] g.price(buy, i))
    &&& forall|i: int, j: int|
        0 <= i < j < n && g.quoted(i) && g.quoted(j) ==> #[trigger] g.price(buy, i)
            != #[trigger] g.price(buy, j)
}

/// The levels of a second list have the sizes of those of the first, and no higher prices.
pub open spec fn not_above(first: Seq<OrderLevel>, second: Seq<OrderLevel>) -> bool {
    &&& first.len() == second.len()
    &&& forall|k: int|
        0 <= k < first.len() ==> (#[trigger] second[k]).size == first[k].size
            && second[k].price.at_most(first[k].price)
}

proof fn lemma_sides(g1: Grid, g2: Grid, buy: bool, n: int)
    requires
        n >= 0,
        unfiltered(g1, buy, n),
        unfiltered(g2, buy, n),
        g2 == (Grid { center: g2.center, ..g1 }),
        forall|i: int|
            0 <= i < n && g1.quoted(i) ==> (#[trigger] g2.price(buy, i)).at_most(
                g1.price(buy, i),
            ),
    ensures
        not_above(g1.side(buy, n), g2.side(buy, n)),
    decreases n,
{
    if n > 0 {
        let i = n - 1;
        lemma_sides(g1, g2, buy, i);
        assert(g1.quoted(i) == g2.quoted(i) && g1.size(i) == g2.size(i));
        if g1.quoted(i) {
            lemma_fresh(g1, buy, i);
            lemma_fresh(g2, buy, i);
            assert(zero().less(g1.price(buy, i)) && zero().less(g2.price(buy, i)));
            assert(g2.price(buy, i).at_most(g1.price(buy, i)));
        }
    }
}

/// A level whose price no other quoted level has is not dropped.
proof fn lemma_fresh(g: Grid, buy: bool, n: int)
    requires
        n >= 0,
        g.quoted(n),
        unfiltered(g, buy, n + 1),
    ensures
        !has_price(g.side(buy, n), g.price(buy, n)),
{
    lemma_from_grid(g, buy, n);
    let s = g.side(buy, n);
    assert forall|k: int| 0 <= k < s.len() implies (#[trigger] s[k]).price != g.price(buy, n) by {
        let i = choose|i: int|
            0 <= i < n && g.quoted(i) && s[k].price == #[trigger] g.price(buy, i);
        assert(g.price(buy, i) != g.price(buy, n));
    }
}

/// More inventory never raises a quote, whether the half spread is clamped or not: with the
/// same book and state the grid has as many bids and asks, of the same sizes and the same
/// spread, and none at a higher price. No level is to be left out for its price, nor dropped
/// for the price of another.
pub proof fn inventory_never_raises_quotes(
    bbo: Bbo,
    p1: Double,
    p2: Double,
    config: Config,
    s: MmModel,
)
    requires
        p1.at_most(p2),
        zero().at_most(config.as_model.gamma),
        zero().less(config.token.tick_size),
        unfiltered(grid_for(bbo, p1, config, s), true, config.token.num_levels as int),
        unfiltered(grid_for(bbo, p1, config, s), false, config.token.num_levels as int),
        unfiltered(grid_for(bbo, p2, config, s), true, config.token.num_levels as int),
        unfiltered(grid_for(bbo, p2, config, s), false, config.token.num_levels as int),
    ensures
        not_above(grid_levels(bbo, p1, config, s).0, grid_levels(bbo, p2, config, s).0),
        not_above(grid_levels(bbo, p1, config, s).1, grid_levels(bbo, p2, config, s).1),
        grid_ticks(grid_delta(bbo, p1, config, s), config.token.tick_size) == grid_ticks(
            grid_delta(bbo, p2, config, s),
            config.token.tick_size,
        ),
{
    lemma_same_grid(bbo, p1, p2, config, s);
    lemma_lowered_side(bbo, p1, p2, config, s, true);
    lemma_lowered_side(bbo, p1, p2, config, s, false);
}

proof fn lemma_lowered_side(
    bbo: Bbo,
    p1: Double,
    p2: Double,
    config: Config,
    s: MmModel,
    buy: bool,
)
    requires
        p1.at_most(p2),
        zero().at_most(config.as_model.gamma),
        zero().less(config.token.tick_size),
        unfiltered(grid_for(bbo, p1, config, s), buy, config.token.num_levels as int),
        unfiltered(grid_for(bbo, p2, config, s), buy, config.token.num_levels as int),
    ensures
        not_above(
            grid_for(bbo, p1, config, s).side(buy, config.token.num_levels as int),
            grid_for(bbo, p2, config, s).side(buy, config.token.num_levels as int),
        ),
{
    let g1 = grid_for(bbo, p1, config, s);
    let g2 = grid_for(bbo, p2, config, s);
    let n = config.token.num_levels as int;
    lemma_same_grid(bbo, p1, p2, config, s);
    assert forall|i: int| 0 <= i < n && g1.quoted(i) implies (#[trigger] g2.price(
        buy,
        i,
    )).at_most(g1.price(buy, i)) by {
        assert(g2.quoted(i) == g1.quoted(i));
        assert(zero().less(g1.price(buy, i)));
        assert(zero().less(g2.price(buy, i)));
        inventory_lowers_prices(bbo, p1, p2, config, s, buy, i);
    }
    lemma_sides(g1, g2, buy, n);
}

/// Prices stand on ticks, and never nearer to the market than they are wanted: a bid on the last
/// tick at or below what is wanted, an ask on the first one at or above it.
pub proof fn prices_stand_on_the_outer_tick(g: Grid, i: int) -> (r: (int, int))
    requires
        g.price_places <= 22,
        g.tick == decimal_tick(g.price_places),
        zero().less(g.bid(i)),
        zero().less(g.ask(i)),
        g.center.minus(g.delta).minus(of_int(i).times(g.spacing)).over(g.tick).at_most(
            of_int(MAX_TICKS as int),
        ),
        g.center.plus(g.delta).plus(of_int(i).times(g.spacing)).over(g.tick).at_most(
            of_int(MAX_TICKS as int),
        ),
    ensures
        ({
            let u = one_unit();
            let low = g.center.minus(g.delta).minus(of_int(i).times(g.spacing)).over(g.tick).value();
            let high = g.center.plus(g.delta).plus(of_int(i).times(g.spacing)).over(g.tick).value();
            &&& g.bid(i) == of_int(r.0).over(tens(g.price_places))
            &&& g.ask(i) == of_int(r.1).over(tens(g.price_places))
            &&& r.0 * u <= low < (r.0 + 1) * u
            &&& (r.1 - 1) * u < high <= r.1 * u
        }),
{
    let a = g.wish(true, i).over(g.tick);
    let b = g.wish(false, i).over(g.tick);
    lemma_decimal_tick(g.price_places);
    lemma_price(g, true, i);
    lemma_price(g, false, i);
    let m = lemma_ticks(g.wish(true, i), false, g.tick, g.price_places);
    let n = lemma_ticks(g.wish(false, i), true, g.tick, g.price_places);
    lemma_integers(a);
    lemma_integers(b);
    multiples_are_exact(m as nat, g.price_places);
    multiples_are_exact(n as nat, g.price_places);
    (m, n)
}

} // verus!
