//! How a new book changes the state: prices, variances, the imbalance of the book, and the
//! quotes that are shown.
use vstd::prelude::*;

use crate::config::Config;
use crate::double::{of_int, quotient, zero, Double};
use crate::strategy::{
    as_quotes, horizon, horizon_for, inventory_risk_units, quote_variance, quotes, risk_units,
    update_volatility, variance_for, volatility_of,
};
use crate::types::{Bbo, MmModel, MmState, VolRegime};

verus! {

/// What is left of a quantity after some time, as a share, at the three half-lives that are in
/// use: the exponential function at the three values of `decay_exponents`.
#[derive(Clone, Copy, Debug, PartialEq, Eq, Structural)]
pub struct Decay {
    /// A half-life of one minute.
    pub minute: Double,
    /// A half-life of ten minutes.
    pub ten_minutes: Double,
    /// A half-life of ten seconds.
    pub ten_seconds: Double,
}

/// The natural logarithm of two, as a double.
pub open spec fn ln_2() -> Double {
    Double { bits: 0x3FE6_2E42_FEFA_39EF }
}

/// The natural logarithm of two, as a double.
pub fn log_two() -> (r: Double)
    ensures
        r == ln_2(),
{
    Double::from_bits(0x3FE6_2E42_FEFA_39EF)
}

/// The exponent of the share that is left after `dt` at the given half-life.
pub open spec fn decay_exponent(dt: Double, half_life: Double) -> Double {
    dt.negated().times(ln_2()).over(half_life)
}

/// The exponent of the share that is left after `dt` at the given half-life.
pub fn exponent_of(dt: Double, half_life: Double) -> (r: Double)
    ensures
        r == decay_exponent(dt, half_life),
{
    dt.negate().mul(log_two()).div(half_life)
}

/// Seconds since the last book, zero before any.
pub open spec fn since_last_book(s: MmModel, now: Double) -> Double {
    if zero().less(s.last_variance_update_ts) {
        now.minus(s.last_variance_update_ts).larger(zero())
    } else {
        zero()
    }
}

/// Seconds since the last book, zero before any.
pub fn book_age(state: &MmState, now: Double) -> (r: Double)
    ensures
        r == since_last_book(state@, now),
{
    if state.last_variance_update_ts.gt(Double::zero()) {
        now.sub(state.last_variance_update_ts).max(Double::zero())
    } else {
        Double::zero()
    }
}

/// The exponents at which the caller evaluates the exponential function for a book that comes
/// at the time `now`.
pub open spec fn decay_points(s: MmModel, now: Double) -> Decay {
    let dt = since_last_book(s, now);
    Decay {
        minute: decay_exponent(dt, of_int(60)),
        ten_minutes: decay_exponent(dt, of_int(600)),
        ten_seconds: decay_exponent(dt, of_int(10)),
    }
}

/// The exponents at which the caller evaluates the exponential function for a book that comes
/// at the time `now`.
pub fn decay_exponents(state: &MmState, now: Double) -> (r: Decay)
    ensures
        r == decay_points(state@, now),
{
    let dt = book_age(state, now);
    Decay {
        minute: exponent_of(dt, Double::from_u64(60)),
        ten_minutes: exponent_of(dt, Double::from_u64(600)),
        ten_seconds: exponent_of(dt, Double::from_u64(10)),
    }
}

/// The weight of a new value where `share` is left of the old one, within bounds.
pub open spec fn weight(share: Double, lo: Double, hi: Double) -> Double {
    of_int(1).minus(share).clamped(lo, hi)
}

/// The average of an old and a new value.
pub open spec fn blended(old_value: Double, new_value: Double, alpha: Double) -> Double {
    old_value.times(of_int(1).minus(alpha)).plus(new_value.times(alpha))
}

fn blend(old_value: Double, new_value: Double, alpha: Double) -> (r: Double)
    ensures
        r == blended(old_value, new_value, alpha),
{
    old_value.mul(Double::from_u64(1).sub(alpha)).add(new_value.mul(alpha))
}

/// A running average that starts with its first value.
pub open spec fn running(old_value: Double, new_value: Double, alpha: Double) -> Double {
    if zero().less(old_value) {
        blended(old_value, new_value, alpha)
    } else {
        new_value
    }
}

fn run_average(old_value: Double, new_value: Double, alpha: Double) -> (r: Double)
    ensures
        r == running(old_value, new_value, alpha),
{
    if old_value.gt(Double::zero()) {
        blend(old_value, new_value, alpha)
    } else {
        new_value
    }
}

/// The price history with a new price, held to the window.
pub open spec fn with_price(prices: Seq<Double>, mid: Double, window: int) -> Seq<Double> {
    let all = prices.push(mid);
    if all.len() > window {
        all.skip(1)
    } else {
        all
    }
}

impl MmModel {
    /// The state with a new quote and price.
    pub open spec fn with_quote(self, bbo: Bbo, now: Double, window: int) -> MmModel {
        let prices = with_price(self.price_history, bbo.mid, window);
        MmModel {
            bbo: Some(bbo),
            last_ws_msg_ts: now,
            price_history: prices,
            volatility: volatility_of(prices),
            ..self
        }
    }

    /// The state with its variances moved by a price that came `dt` after the last.
    pub open spec fn with_variance(self, mid: Double, dt: Double, now: Double, decay: Decay) -> MmModel {
        let change = mid.minus(self.last_mid_for_variance);
        let instant = change.times(change).over(dt.larger(quotient(1, 1_000_000)));
        let moved = if quotient(1, 100).less(dt) && zero().less(self.last_mid_for_variance) {
            MmModel {
                ewma_variance: running(
                    self.ewma_variance,
                    instant,
                    weight(decay.minute, quotient(1, 1000), quotient(5, 10)),
                ),
                long_term_variance: running(
                    self.long_term_variance,
                    instant,
                    weight(decay.ten_minutes, quotient(5, 10_000), quotient(1, 10)),
                ),
                ..self
            }
        } else {
            self
        };
        MmModel { last_variance_update_ts: now, last_mid_for_variance: mid, ..moved }
    }

    /// The state with the imbalance of a book whose sides hold the given sizes.
    pub open spec fn with_imbalance(
        self,
        bid_depth: Double,
        ask_depth: Double,
        dt: Double,
        decay: Decay,
    ) -> MmModel {
        let total = bid_depth.plus(ask_depth);
        let imbalance = if zero().less(total) {
            bid_depth.minus(ask_depth).over(total).clamped(of_int(-1), of_int(1))
        } else {
            zero()
        };
        MmModel {
            book_imbalance: imbalance,
            book_imbalance_ema: if zero().less(dt) {
                blended(
                    self.book_imbalance_ema,
                    imbalance,
                    weight(decay.ten_seconds, quotient(1, 100), quotient(5, 10)),
                )
            } else {
                imbalance
            },
            ..self
        }
    }

    /// How the short-term variance stands to the long-term one.
    pub open spec fn regime(self) -> VolRegime {
        let ratio = if zero().less(self.long_term_variance) {
            self.ewma_variance.over(
                self.long_term_variance.larger(quotient(1, 1_000_000_000_000_000_000)),
            )
        } else {
            of_int(1)
        };
        if ratio.less(quotient(5, 10)) {
            VolRegime::Low
        } else if ratio.less(of_int(2)) {
            VolRegime::Normal
        } else if ratio.less(of_int(5)) {
            VolRegime::High
        } else {
            VolRegime::Extreme
        }
    }

    /// The state with its regime, the time that is left, and the quotes that are shown.
    pub open spec fn with_model(self, config: Config, mid: Double, now: Double) -> MmModel {
        let regime = self.regime();
        let elapsed = now.minus(of_int(self.as_t0_ms as int).over(of_int(1000)));
        let left = config.as_model.t_secs.minus(elapsed).larger(of_int(1));
        let (r, d) = quotes(
            mid,
            risk_units(self.position, mid, config.as_model.risk_unit_usd),
            quote_variance(self, config.as_model.sigma_window as int),
            horizon(regime, left),
            config.as_model.gamma,
            config.logs.arrival_ln,
        );
        MmModel {
            vol_regime: regime,
            t_remaining_secs: left,
            reservation_price: r,
            as_delta: d.smaller(config.spread.max_spread_ticks.times(config.token.tick_size)),
            ..self
        }
    }

    /// The state after a new book.
    pub open spec fn with_book(
        self,
        config: Config,
        bbo: Bbo,
        bid_depth: Double,
        ask_depth: Double,
        now: Double,
        decay: Decay,
    ) -> MmModel {
        let dt = since_last_book(self, now);
        self.with_quote(bbo, now, config.timing.vol_window as int).with_variance(
            bbo.mid,
            dt,
            now,
            decay,
        ).with_imbalance(bid_depth, ask_depth, dt, decay).with_model(config, bbo.mid, now)
    }
}

impl MmState {
    fn note_quote(&mut self, bbo: Bbo, now: Double, window: usize)
        ensures
            final(self)@ == old(self)@.with_quote(bbo, now, window as int),
    {
        let ghost before = self@;
        self.bbo = Some(bbo);
        self.last_ws_msg_ts = now;
        self.price_history.push_back(bbo.mid);
        assert(self.price_history@ == before.price_history.push(bbo.mid));
        if self.price_history.len() > window {
            let _ = self.price_history.pop_front();
        }
        assert(self.price_history@ =~= with_price(before.price_history, bbo.mid, window as int));
        self.volatility = update_volatility(&self.price_history);
    }

    fn note_variance(&mut self, mid: Double, dt: Double, now: Double, decay: Decay)
        ensures
            final(self)@ == old(self)@.with_variance(mid, dt, now, decay),
    {
        if dt.gt(Double::ratio(1, 100)) && self.last_mid_for_variance.gt(Double::zero()) {
            let change = mid.sub(self.last_mid_for_variance);
            let instant = change.mul(change).div(dt.max(Double::ratio(1, 1_000_000)));
            let one = Double::from_u64(1);
            let alpha = one.sub(decay.minute).clamp(Double::ratio(1, 1000), Double::ratio(5, 10));
            let long_alpha = one.sub(decay.ten_minutes).clamp(
                Double::ratio(5, 10_000),
                Double::ratio(1, 10),
            );
            self.ewma_variance = run_average(self.ewma_variance, instant, alpha);
            self.long_term_variance = run_average(self.long_term_variance, instant, long_alpha);
        }
        self.last_variance_update_ts = now;
        self.last_mid_for_variance = mid;
    }

    fn note_imbalance(&mut self, bid_depth: Double, ask_depth: Double, dt: Double, decay: Decay)
        ensures
            final(self)@ == old(self)@.with_imbalance(bid_depth, ask_depth, dt, decay),
    {
        let total = bid_depth.add(ask_depth);
        self.book_imbalance = if total.gt(Double::zero()) {
            bid_depth.sub(ask_depth).div(total).clamp(Double::from_i32(-1), Double::from_u64(1))
        } else {
            Double::zero()
        };
        if dt.gt(Double::zero()) {
            let alpha = Double::from_u64(1).sub(decay.ten_seconds).clamp(
                Double::ratio(1, 100),
                Double::ratio(5, 10),
            );
            self.book_imbalance_ema = blend(self.book_imbalance_ema, self.book_imbalance, alpha);
        } else {
            self.book_imbalance_ema = self.book_imbalance;
        }
    }

    fn current_regime(&self) -> (r: VolRegime)
        ensures
            r == self@.regime(),
    {
        let ratio = if self.long_term_variance.gt(Double::zero()) {
            self.ewma_variance.div(
                self.long_term_variance.max(Double::ratio(1, 1_000_000_000_000_000_000)),
            )
        } else {
            Double::from_u64(1)
        };
        if ratio.lt(Double::ratio(5, 10)) {
            VolRegime::Low
        } else if ratio.lt(Double::from_u64(2)) {
            VolRegime::Normal
        } else if ratio.lt(Double::from_u64(5)) {
            VolRegime::High
        } else {
            VolRegime::Extreme
        }
    }

    fn note_model(&mut self, config: &Config, mid: Double, now: Double)
        ensures
            final(self)@ == old(self)@.with_model(*config, mid, now),
    {
        let regime = self.current_regime();
        let sigma2 = variance_for(self, config.as_model.sigma_window);
        let q = inventory_risk_units(self.position, mid, config.as_model.risk_unit_usd);
        let elapsed = now.sub(Double::from_u64(self.as_t0_ms).div(Double::from_u64(1000)));
        let left = config.as_model.t_secs.sub(elapsed).max(Double::from_u64(1));
        let (r, d) = as_quotes(
            mid,
            q,
            sigma2,
            horizon_for(regime, left),
            config.as_model.gamma,
            config.logs.arrival_ln,
        );
        self.vol_regime = regime;
        self.t_remaining_secs = left;
        self.reservation_price = r;
        self.as_delta = d.min(config.spread.max_spread_ticks.mul(config.token.tick_size));
    }

    /// Takes a new book that came at the time `now`.
    pub fn note_book(
        &mut self,
        config: &Config,
        bbo: Bbo,
        bid_depth: Double,
        ask_depth: Double,
        now: Double,
        decay: Decay,
    )
        ensures
            final(self)@ == old(self)@.with_book(*config, bbo, bid_depth, ask_depth, now, decay),
    {
        let dt = book_age(self, now);
        self.note_quote(bbo, now, config.timing.vol_window);
        self.note_variance(bbo.mid, dt, now, decay);
        self.note_imbalance(bid_depth, ask_depth, dt, decay);
        self.note_model(config, bbo.mid, now);
    }
}

} // verus!
