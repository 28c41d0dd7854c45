//! Avellaneda-Stoikov quoting: where to quote, how wide, and how much.
use std::collections::VecDeque;

use vstd::prelude::*;

use crate::config::{decimals, Config};
use crate::double::{of_int, quotient, zero, Double};
use crate::parse::{power_of_ten, tens};
use crate::types::{Bbo, MmModel, MmState, OrderLevel, VolRegime};

verus! {

// ---- variance and volatility --------------------------------------------------------

/// The sum of the price changes from `start` up to `end`, and the sum of their squares.
pub open spec fn change_sums(p: Seq<Double>, start: int, end: int) -> (Double, Double)
    decreases end - start,
{
    if end <= start + 1 {
        (zero(), zero())
    } else {
        let (sum, squares) = change_sums(p, start, end - 1);
        let d = p[end - 1].minus(p[end - 2]);
        (sum.plus(d), squares.plus(d.times(d)))
    }
}

/// The mean of the squares less the square of the mean, never negative.
pub open spec fn spread_of(sums: (Double, Double), count: int) -> Double {
    let mean = sums.0.over(of_int(count));
    sums.1.over(of_int(count)).minus(mean.times(mean)).larger(zero())
}

/// The variance of the price changes over the last `window` prices; zero where there are
/// fewer than five.
pub open spec fn price_variance(p: Seq<Double>, window: int) -> Double {
    let n = if p.len() < window { p.len() as int } else { window };
    if n < 5 {
        zero()
    } else {
        spread_of(change_sums(p, p.len() - n, p.len() as int), n - 1)
    }
}

/// The variance of the mid-price changes.
pub fn compute_price_variance(prices: &VecDeque<Double>, window: usize) -> (r: Double)
    ensures
        r == price_variance(prices@, window as int),
{
    let len: usize = prices.len();
    let n: usize = if len < window {
        len
    } else {
        window
    };
    if n < 5 {
        return Double::zero();
    }
    let start: usize = len - n;
    let mut sum = Double::zero();
    let mut squares = Double::zero();
    let mut i: usize = start + 1;
    while i < len
        invariant
            len == prices@.len(),
            start < i <= len,
            (sum, squares) == change_sums(prices@, start as int, i as int),
        decreases len - i,
    {
        let d = prices[i].sub(prices[i - 1]);
        sum = sum.add(d);
        squares = squares.add(d.mul(d));
        i = i + 1;
    }
    let count = Double::from_u64((n - 1) as u64);
    let mean = sum.div(count);
    squares.div(count).sub(mean.mul(mean)).max(Double::zero())
}

/// The sum of the relative price changes up to `end`, and the sum of their squares; a change
/// from a price that is not positive is left out.
pub open spec fn return_sums(p: Seq<Double>, end: int) -> (Double, Double)
    decreases end,
{
    if end <= 1 {
        (zero(), zero())
    } else {
        let (sum, squares) = return_sums(p, end - 1);
        if zero().less(p[end - 2]) {
            let d = p[end - 1].minus(p[end - 2]).over(p[end - 2]);
            (sum.plus(d), squares.plus(d.times(d)))
        } else {
            (sum, squares)
        }
    }
}

/// The standard deviation of the relative price changes, in percent; zero where there are
/// fewer than five prices.
pub open spec fn volatility_of(p: Seq<Double>) -> Double {
    if p.len() < 5 {
        zero()
    } else {
        spread_of(return_sums(p, p.len() as int), p.len() - 1).root().times(of_int(100))
    }
}

/// Rolling volatility, in percent of the mid.
pub fn update_volatility(prices: &VecDeque<Double>) -> (r: Double)
    ensures
        r == volatility_of(prices@),
{
    let n: usize = prices.len();
    if n < 5 {
        return Double::zero();
    }
    let mut sum = Double::zero();
    let mut squares = Double::zero();
    let mut i: usize = 1;
    while i < n
        invariant
            n == prices@.len(),
            1 <= i <= n,
            (sum, squares) == return_sums(prices@, i as int),
        decreases n - i,
    {
        let last = prices[i - 1];
        if last.gt(Double::zero()) {
            let d = prices[i].sub(last).div(last);
            sum = sum.add(d);
            squares = squares.add(d.mul(d));
        }
        i = i + 1;
    }
    let count = Double::from_u64((n - 1) as u64);
    let mean = sum.div(count);
    let var = squares.div(count).sub(mean.mul(mean));
    var.max(Double::zero()).sqrt().mul(Double::from_u64(100))
}

// ---- the model -----------------------------------------------------------------------

/// The reservation price `s - q g v t` and the half spread `g v t / 2 + l / g`, where `s` is
/// the mid price, `q` the inventory, `g` the risk aversion, `v` the variance, `t` the time
/// left, and `l` the logarithm of one plus the risk aversion over the arrival intensity.
pub open spec fn quotes(
    mid: Double,
    position: Double,
    sigma2: Double,
    t_remaining: Double,
    gamma: Double,
    arrival_ln: Double,
) -> (Double, Double) {
    (
        mid.minus(position.times(gamma).times(sigma2).times(t_remaining)),
        gamma.times(sigma2).times(t_remaining).over(of_int(2)).plus(
            of_int(1).over(gamma).times(arrival_ln),
        ),
    )
}

/// Avellaneda-Stoikov quotes: the reservation price and the half spread.
pub fn as_quotes(
    mid: Double,
    position: Double,
    sigma2: Double,
    t_remaining: Double,
    gamma: Double,
    arrival_ln: Double,
) -> (r: (Double, Double))
    ensures
        r == quotes(mid, position, sigma2, t_remaining, gamma, arrival_ln),
{
    let r = mid.sub(position.mul(gamma).mul(sigma2).mul(t_remaining));
    let delta = gamma.mul(sigma2).mul(t_remaining).div(Double::from_u64(2)).add(
        Double::from_u64(1).div(gamma).mul(arrival_ln),
    );
    (r, delta)
}

/// The inventory in units of risk, a unit being worth `risk_unit_usd`; the inventory itself
/// where the unit or the price is not positive.
pub open spec fn risk_units(position: Double, mid: Double, risk_unit_usd: Double) -> Double {
    if mid.at_most(zero()) || risk_unit_usd.at_most(zero()) {
        position
    } else {
        position.over(risk_unit_usd.over(mid).larger(quotient(1, 1_000_000_000)))
    }
}

/// The inventory in units of risk.
pub fn inventory_risk_units(position: Double, mid: Double, risk_unit_usd: Double) -> (r: Double)
    ensures
        r == risk_units(position, mid, risk_unit_usd),
{
    if mid.le(Double::zero()) || risk_unit_usd.le(Double::zero()) {
        return position;
    }
    let unit_size = risk_unit_usd.div(mid).max(Double::ratio(1, 1_000_000_000));
    position.div(unit_size)
}

/// The variance that the quotes go by: the running one where there is one, else that of the
/// recent prices, and never zero.
pub open spec fn quote_variance(s: MmModel, sigma_window: int) -> Double {
    (if zero().less(s.ewma_variance) {
        s.ewma_variance
    } else {
        price_variance(s.price_history, sigma_window)
    }).larger(quotient(1, 1_000_000_000_000_000_000))
}

/// The variance that the quotes go by.
pub fn variance_for(state: &MmState, sigma_window: usize) -> (r: Double)
    ensures
        r == quote_variance(state@, sigma_window as int),
{
    let v = if state.ewma_variance.gt(Double::zero()) {
        state.ewma_variance
    } else {
        compute_price_variance(&state.price_history, sigma_window)
    };
    v.max(Double::ratio(1, 1_000_000_000_000_000_000))
}

/// The horizon that the quotes go by: shorter where the market is agitated.
pub open spec fn horizon(regime: VolRegime, t_remaining: Double) -> Double {
    match regime {
        VolRegime::High => t_remaining.smaller(of_int(150)),
        VolRegime::Extreme => t_remaining.smaller(of_int(60)),
        _ => t_remaining,
    }
}

/// The horizon that the quotes go by.
pub fn horizon_for(regime: VolRegime, t_remaining: Double) -> (r: Double)
    ensures
        r == horizon(regime, t_remaining),
{
    match regime {
        VolRegime::High => t_remaining.min(Double::from_u64(150)),
        VolRegime::Extreme => t_remaining.min(Double::from_u64(60)),
        _ => t_remaining,
    }
}

// ---- sizes ------------------------------------------------------------------------------

/// A value with the given number of decimals, halves going away from zero.
pub open spec fn rounded_to(value: Double, places: u32) -> Double {
    value.times(tens(places)).nearest_whole().over(tens(places))
}

/// A value with the given number of decimals.
pub fn round_to_decimals(value: Double, places: u32) -> (r: Double)
    ensures
        r == rounded_to(value, places),
{
    let factor = power_of_ten(places);
    value.mul(factor).round().div(factor)
}

/// The share of the usual size that is quoted, by spread, recent profit and regime.
pub open spec fn size_factors(spread_ticks: i32, recent_rt_pnl: Double, regime: VolRegime) -> (
    Double,
    Double,
    Double,
) {
    (
        of_int(spread_ticks as int).over(of_int(4)).clamped(quotient(6, 10), of_int(2)),
        if quotient(2, 100).less(recent_rt_pnl) {
            quotient(12, 10)
        } else if recent_rt_pnl.less(quotient(1, 100).negated()) {
            quotient(7, 10)
        } else {
            of_int(1)
        },
        match regime {
            VolRegime::Low => of_int(1),
            VolRegime::Normal => of_int(1),
            VolRegime::High => quotient(7, 10),
            VolRegime::Extreme => quotient(5, 10),
        },
    )
}

/// The order size in units of the asset: the notional over the price, by the factors above,
/// less in volatile markets, at least the smallest size, and rounded to its decimals.
pub open spec fn size_for(
    mid: Double,
    config: Config,
    size_scale: Double,
    volatility: Double,
    spread_ticks: i32,
    recent_rt_pnl: Double,
    regime: VolRegime,
) -> Double {
    if mid.at_most(zero()) {
        config.token.min_size
    } else {
        let f = size_factors(spread_ticks, recent_rt_pnl, regime);
        let base = config.token.order_size_usd.over(mid).times(f.0).times(f.1).times(f.2);
        let vol_scale = of_int(1).over(of_int(1).plus(volatility.times(of_int(10))));
        let scaled = base.times(size_scale).times(vol_scale.larger(quotient(4, 10)));
        rounded_to(
            scaled.larger(config.token.min_size),
            decimals(config.token.min_size, config.logs.min_size_log10),
        )
    }
}

/// Order size in asset units, scaled for volatility.
pub fn calc_size(
    mid: Double,
    config: &Config,
    size_scale: Double,
    volatility: Double,
    spread_ticks: i32,
    recent_rt_pnl: Double,
    vol_regime: VolRegime,
) -> (r: Double)
    ensures
        r == size_for(
            mid,
            *config,
            size_scale,
            volatility,
            spread_ticks,
            recent_rt_pnl,
            vol_regime,
        ),
{
    if mid.le(Double::zero()) {
        return config.token.min_size;
    }
    let spread_scale = Double::from_i32(spread_ticks).div(Double::from_u64(4)).clamp(
        Double::ratio(6, 10),
        Double::from_u64(2),
    );
    let pnl_scale = if recent_rt_pnl.gt(Double::ratio(2, 100)) {
        Double::ratio(12, 10)
    } else if recent_rt_pnl.lt(Double::ratio(1, 100).negate()) {
        Double::ratio(7, 10)
    } else {
        Double::from_u64(1)
    };
    let regime_scale = match vol_regime {
        VolRegime::Low => Double::from_u64(1),
        VolRegime::Normal => Double::from_u64(1),
        VolRegime::High => Double::ratio(7, 10),
        VolRegime::Extreme => Double::ratio(5, 10),
    };
    let base = config.token.order_size_usd.div(mid).mul(spread_scale).mul(pnl_scale).mul(
        regime_scale,
    );
    let one = Double::from_u64(1);
    let vol_scale = one.div(one.add(volatility.mul(Double::from_u64(10))));
    let scaled = base.mul(size_scale).mul(vol_scale.max(Double::ratio(4, 10)));
    round_to_decimals(scaled.max(config.token.min_size), config.size_decimals())
}

// ---- the order grid -----------------------------------------------------------------------

/// The running sum of some numbers, from the first on.
pub open spec fn running_sum(s: Seq<Double>, n: int) -> Double
    decreases n,
{
    if n <= 0 {
        zero().negated()
    } else {
        running_sum(s, n - 1).plus(s[n - 1])
    }
}

/// The mean of the recent round-trip profits, zero where there are none.
pub open spec fn mean_rt_pnl(s: Seq<Double>) -> Double {
    if s.len() == 0 {
        zero()
    } else {
        running_sum(s, s.len() as int).over(of_int(s.len() as int))
    }
}

/// The mean of the recent round-trip profits.
pub fn recent_pnl(s: &VecDeque<Double>) -> (r: Double)
    ensures
        r == mean_rt_pnl(s@),
{
    let n: usize = s.len();
    if n == 0 {
        return Double::zero();
    }
    let mut sum = Double::zero().negate();
    let mut i: usize = 0;
    while i < n
        invariant
            n == s@.len(),
            i <= n,
            sum == running_sum(s@, i as int),
        decreases n - i,
    {
        sum = sum.add(s[i]);
        i = i + 1;
    }
    sum.div(Double::from_u64(n as u64))
}

/// What the grid of orders is laid out by.
pub struct Grid {
    /// The price around which it is symmetric.
    pub center: Double,
    /// Half the distance between the innermost bid and ask.
    pub delta: Double,
    /// Distance between neighbouring levels.
    pub spacing: Double,
    pub base_size: Double,
    pub mid: Double,
    pub tick: Double,
    pub min_size: Double,
    pub price_places: u32,
    pub size_places: u32,
    pub multipliers: Seq<Double>,
}

impl Grid {
    /// The size at level `i`; levels without a multiplier are quoted at half size.
    pub open spec fn size(self, i: int) -> Double {
        rounded_to(
            self.base_size.times(
                if i < self.multipliers.len() {
                    self.multipliers[i]
                } else {
                    quotient(5, 10)
                },
            ),
            self.size_places,
        )
    }

    /// Level `i` is quoted: its size is not below the smallest, nor its notional below ten.
    pub open spec fn quoted(self, i: int) -> bool {
        !self.size(i).less(self.min_size) && !self.size(i).times(self.mid).less(of_int(10))
    }

    pub open spec fn offset(self, i: int) -> Double {
        of_int(i).times(self.spacing)
    }

    /// The bid at level `i`: on the tick at or below the wanted price.
    pub open spec fn bid(self, i: int) -> Double {
        rounded_to(
            self.center.minus(self.delta).minus(self.offset(i)).over(self.tick).floored().times(
                self.tick,
            ),
            self.price_places,
        )
    }

    /// The ask at level `i`: on the tick at or above the wanted price.
    pub open spec fn ask(self, i: int) -> Double {
        rounded_to(
            self.center.plus(self.delta).plus(self.offset(i)).over(self.tick).ceiled().times(
                self.tick,
            ),
            self.price_places,
        )
    }

    /// The levels of one side up to level `n`, each price once and only positive ones.
    pub open spec fn side(self, buy: bool, n: int) -> Seq<OrderLevel>
        decreases n,
    {
        if n <= 0 {
            Seq::empty()
        } else {
            let before = self.side(buy, n - 1);
            let price = if buy {
                self.bid(n - 1)
            } else {
                self.ask(n - 1)
            };
            if self.quoted(n - 1) && zero().less(price) && !has_price(before, price) {
                before.push(OrderLevel { price, size: self.size(n - 1) })
            } else {
                before
            }
        }
    }
}

pub open spec fn has_price(s: Seq<OrderLevel>, price: Double) -> bool {
    exists|i: int| 0 <= i < s.len() && (#[trigger] s[i]).price == price
}

fn contains_price(v: &Vec<OrderLevel>, price: Double) -> (r: bool)
    ensures
        r == has_price(v@, price),
{
    let mut i: usize = 0;
    while i < v.len()
        invariant
            i <= v@.len(),
            forall|j: int| 0 <= j < i ==> (#[trigger] v@[j]).price != price,
        decreases v@.len() - i,
    {
        if v[i].price == price {
            return true;
        }
        i = i + 1;
    }
    false
}

/// The smallest half spread, in ticks: wider where the market is agitated.
pub open spec fn spread_floor(regime: VolRegime, min_spread_ticks: Double) -> Double {
    match regime {
        VolRegime::Low => min_spread_ticks,
        VolRegime::Normal => min_spread_ticks,
        VolRegime::High => min_spread_ticks.plus(of_int(2)),
        VolRegime::Extreme => min_spread_ticks.plus(of_int(4)),
    }
}

/// The model's quotes for a state.
pub open spec fn model_quotes(bbo: Bbo, position: Double, config: Config, s: MmModel) -> (
    Double,
    Double,
) {
    quotes(
        bbo.mid,
        risk_units(position, bbo.mid, config.as_model.risk_unit_usd),
        quote_variance(s, config.as_model.sigma_window as int),
        horizon(s.vol_regime, s.t_remaining_secs).larger(of_int(1)),
        config.as_model.gamma,
        config.logs.arrival_ln,
    )
}

/// The price around which the orders are laid: the reservation price, shifted by the
/// imbalance of the book.
pub open spec fn grid_center(bbo: Bbo, position: Double, config: Config, s: MmModel) -> Double {
    model_quotes(bbo, position, config, s).0.plus(
        s.book_imbalance_ema.times(config.spread.imbalance_weight).times(config.token.tick_size),
    )
}

/// The half spread: that of the model, wider after adverse fills, and held between the floor
/// of the regime and the configured ceiling.
pub open spec fn grid_delta(bbo: Bbo, position: Double, config: Config, s: MmModel) -> Double {
    model_quotes(bbo, position, config, s).1.times(
        of_int(1).plus(s.markout_score.times(of_int(2))),
    ).larger(
        spread_floor(s.vol_regime, config.spread.min_spread_ticks).times(config.token.tick_size),
    ).smaller(config.spread.max_spread_ticks.times(config.token.tick_size))
}

/// The whole spread in ticks.
pub open spec fn grid_ticks(delta: Double, tick: Double) -> i32 {
    delta.times(of_int(2)).over(tick).nearest_whole().saturated(
        i32::MIN as int,
        i32::MAX as int,
    ) as i32
}

/// The grid for a state.
pub open spec fn grid_for(bbo: Bbo, position: Double, config: Config, s: MmModel) -> Grid {
    let delta = grid_delta(bbo, position, config, s);
    Grid {
        center: grid_center(bbo, position, config, s),
        delta,
        spacing: of_int(config.spread.level_tick_spacing as int).times(config.token.tick_size),
        base_size: size_for(
            bbo.mid,
            config,
            s.size_scale,
            s.volatility,
            grid_ticks(delta, config.token.tick_size),
            mean_rt_pnl(s.recent_rt_pnls),
            s.vol_regime,
        ),
        mid: bbo.mid,
        tick: config.token.tick_size,
        min_size: config.token.min_size,
        price_places: decimals(config.token.tick_size, config.logs.tick_log10),
        size_places: decimals(config.token.min_size, config.logs.min_size_log10),
        multipliers: config.token.level_multipliers@,
    }
}

/// The bids and asks of the grid; none where there is nothing to quote.
pub open spec fn grid_levels(bbo: Bbo, position: Double, config: Config, s: MmModel) -> (
    Seq<OrderLevel>,
    Seq<OrderLevel>,
) {
    let g = grid_for(bbo, position, config, s);
    if g.base_size.at_most(zero()) {
        (Seq::empty(), Seq::empty())
    } else {
        (
            g.side(true, config.token.num_levels as int),
            g.side(false, config.token.num_levels as int),
        )
    }
}

/// Bid and ask levels around the reservation price, and the spread in ticks.
pub fn calculate_levels(bbo: &Bbo, position: Double, config: &Config, state: &MmState) -> (r: (
    Vec<OrderLevel>,
    Vec<OrderLevel>,
    i32,
))
    ensures
        (r.0@, r.1@) == grid_levels(*bbo, position, *config, state@),
        r.2 == grid_ticks(grid_delta(*bbo, position, *config, state@), config.token.tick_size),
{
    let tick = config.token.tick_size;
    let mid = bbo.mid;
    let sigma2 = variance_for(state, config.as_model.sigma_window);
    let t_remaining = horizon_for(state.vol_regime, state.t_remaining_secs).max(
        Double::from_u64(1),
    );
    let q_normalized = inventory_risk_units(position, mid, config.as_model.risk_unit_usd);
    let (r_raw, delta_raw) = as_quotes(
        mid,
        q_normalized,
        sigma2,
        t_remaining,
        config.as_model.gamma,
        config.logs.arrival_ln,
    );
    let imbalance_skew = state.book_imbalance_ema.mul(config.spread.imbalance_weight).mul(tick);
    let center = r_raw.add(imbalance_skew);
    let markout_mult = Double::from_u64(1).add(state.markout_score.mul(Double::from_u64(2)));
    let floor = match state.vol_regime {
        VolRegime::Low => config.spread.min_spread_ticks,
        VolRegime::Normal => config.spread.min_spread_ticks,
        VolRegime::High => config.spread.min_spread_ticks.add(Double::from_u64(2)),
        VolRegime::Extreme => config.spread.min_spread_ticks.add(Double::from_u64(4)),
    };
    let delta = delta_raw.mul(markout_mult).max(floor.mul(tick)).min(
        config.spread.max_spread_ticks.mul(tick),
    );
    let spread_ticks = delta.mul(Double::from_u64(2)).div(tick).round().to_i32();
    let recent_rt_pnl = recent_pnl(&state.recent_rt_pnls);
    let base_size = calc_size(
        mid,
        config,
        state.size_scale,
        state.volatility,
        spread_ticks,
        recent_rt_pnl,
        state.vol_regime,
    );
    let ghost g = grid_for(*bbo, position, *config, state@);
    assert(g.delta == delta && g.center == center && g.base_size == base_size);
    if base_size.le(Double::zero()) {
        return (Vec::new(), Vec::new(), spread_ticks);
    }
    let spacing = Double::from_u64(config.spread.level_tick_spacing as u64).mul(tick);
    let size_places = config.size_decimals();
    let price_places = config.price_decimals();
    let mut bids: Vec<OrderLevel> = Vec::new();
    let mut asks: Vec<OrderLevel> = Vec::new();
    let mut i: usize = 0;
    let n: usize = config.token.num_levels;
    while i < n
        invariant
            i <= n,
            g == grid_for(*bbo, position, *config, state@),
            g.center == center,
            g.delta == delta,
            g.spacing == spacing,
            g.base_size == base_size,
            g.mid == mid,
            g.tick == tick,
            g.min_size == config.token.min_size,
            g.price_places == price_places,
            g.size_places == size_places,
            g.multipliers == config.token.level_multipliers@,
            bids@ == g.side(true, i as int),
            asks@ == g.side(false, i as int),
        decreases n - i,
    {
        let offset = Double::from_u64(i as u64).mul(spacing);
        let mult = if i < config.token.level_multipliers.len() {
            config.token.level_multipliers[i]
        } else {
            Double::ratio(5, 10)
        };
        let size = round_to_decimals(base_size.mul(mult), size_places);
        assert(size == g.size(i as int));
        if !size.lt(config.token.min_size) && !size.mul(mid).lt(Double::from_u64(10)) {
            let p_bid = round_to_decimals(
                center.sub(delta).sub(offset).div(tick).floor().mul(tick),
                price_places,
            );
            let p_ask = round_to_decimals(
                center.add(delta).add(offset).div(tick).ceil().mul(tick),
                price_places,
            );
            if p_bid.gt(Double::zero()) && !contains_price(&bids, p_bid) {
                bids.push(OrderLevel { price: p_bid, size });
            }
            if p_ask.gt(Double::zero()) && !contains_price(&asks, p_ask) {
                asks.push(OrderLevel { price: p_ask, size });
            }
        }
        i = i + 1;
    }
    (bids, asks, spread_ticks)
}

} // verus!
