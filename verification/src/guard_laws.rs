//! What holds of the guards of a round: when a position is closed and how, when a session stops,
//! when a trend pauses it, and how the size scale falls and recovers.
use vstd::prelude::*;

use crate::bounds::{lemma_difference, lemma_quotient_bound, lemma_ratio, lemma_value};
use crate::config::Config;
use crate::double::{lemma_mag_order, mag, of_int, one_unit, quotient, zero, Double, INF, P52, P53};
use crate::exchange::{labelled, BulkView};
use crate::iteration::{begun, closing_of, filtered, guarded, judged, recovered, requoted, PlanView};
use crate::market_laws::{lemma_thousandth, lemma_whole_difference};
use crate::matching_laws::{apart, positive};
use crate::model_laws::normal;
use crate::order::{
    adding_grows, integers_are_exact, lemma_normal_error, lemma_rounded, lemma_rounding_exact,
    lemma_rounding_monotone, lemma_times_commutes, product_is_number, product_sign,
    products_keep_order, size_of,
};
use crate::round_laws::{lemma_filtered_rank, lemma_guarded_rank};
use crate::size_laws::{ratio_of_whole, ratios_keep_order, times_one};
use crate::ticks::lemma_room;
use crate::types::MmModel;

verus! {

// ---- closings ------------------------------------------------------------------------------------------------

/// A closing is one order against the position: a purchase where it is short and a sale where it
/// is long, of the given size, that cannot build a position and does not rest. It is priced one
/// percent beyond the mid, on the side that is filled at once.
pub proof fn closings_go_against_the_position(
    config: Config,
    position: Double,
    size: Double,
    mid: Double,
    pnl: Double,
)
    requires
        !position.is_nan(),
        positive(mid),
        normal(mid.times(quotient(101, 100))),
        normal(mid.times(quotient(99, 100))),
    ensures
        ({
            let c = closing_of(config, position, size, mid, pnl);
            let o = c.orders[0];
            let short = position.value() < 0;
            let percent: int = if short { 101 } else { 99 };
            &&& c.orders.len() == 1
            &&& c.is_buy == short && o.is_buy == short
            &&& c.size == size && o.sz == size
            &&& o.coin == config.token.symbol@ && o.reduce_only && o.tif == "Ioc"@
            &&& short ==> mid.at_most(o.limit_px)
            &&& !short ==> o.limit_px.at_most(mid)
            &&& (P53 - 3) * (percent * mid.value()) <= P53 * (100 * o.limit_px.value())
            &&& P53 * (100 * o.limit_px.value()) <= (P53 + 3) * (percent * mid.value())
        }),
{
    reveal(closing_of);
    let u = one_unit();
    let p = P53 as int;
    lemma_room();
    assert(mag(0) == 0);
    lemma_value(mid);
    times_one(mid);
    ratio_of_whole(1, 1);
    ratios_keep_order(1, 1, 101, 100);
    ratios_keep_order(99, 100, 1, 1);
    let up = quotient(101, 100);
    let down = quotient(99, 100);
    product_is_number(mid, up);
    product_is_number(mid, down);
    lemma_times_commutes(mid, up);
    lemma_times_commutes(mid, down);
    lemma_times_commutes(mid, of_int(1));
    products_keep_order(of_int(1), up, mid);
    products_keep_order(down, of_int(1), mid);
    lemma_percent(mid, 101);
    lemma_percent(mid, 99);
}

/// A number of percents of a price.
proof fn lemma_percent(mid: Double, k: nat)
    requires
        positive(mid),
        k == 99 || k == 101,
        normal(mid.times(quotient(k, 100))),
    ensures
        ({
            let x = mid.times(quotient(k, 100)).value();
            &&& (P53 - 3) * (k * mid.value()) <= P53 * (100 * x)
            &&& P53 * (100 * x) <= (P53 + 3) * (k * mid.value())
        }),
{
    let u = one_unit();
    let p = P53 as int;
    lemma_room();
    assert(mag(0) == 0);
    lemma_value(mid);
    lemma_ratio(k, 100);
    let q = quotient(k, 100);
    lemma_value(q);
    let m = mag(mid.index());
    let qv = mag(q.index());
    let r = mid.times(q);
    lemma_rounded(false, m * qv, u);
    lemma_normal_error(m * qv, u);
    lemma_value(r);
    let x = mag(r.index());
    let a = 100 * (m * qv);
    let b = (100 * x) * u;
    let c = (k * m) * u;
    assert((p - 1) * b <= p * a && p * a <= (p + 1) * b) by (nonlinear_arith)
        requires
            a == 100 * (m * qv),
            b == (100 * x) * u,
            (p - 1) * (x * u) <= p * (m * qv),
            p * (m * qv) <= (p + 1) * (x * u),
    ;
    assert((p - 1) * a <= p * c && p * c <= (p + 1) * a) by (nonlinear_arith)
        requires
            a == 100 * (m * qv),
            c == (k * m) * u,
            (p - 1) * (qv * 100) <= p * (k * u),
            p * (k * u) <= (p + 1) * (qv * 100),
            m >= 0,
    {
        assert(m * ((p - 1) * (qv * 100)) <= m * (p * (k * u)));
        assert(m * (p * (k * u)) <= m * ((p + 1) * (qv * 100)));
    }
    assert((p - 3) * c <= p * b && p * b <= (p + 3) * c) by (nonlinear_arith)
        requires
            (p - 1) * b <= p * a,
            p * a <= (p + 1) * b,
            (p - 1) * a <= p * c,
            p * c <= (p + 1) * a,
            a >= 0,
            b >= 0,
            c >= 0,
            p == 0x20_0000_0000_0000,
    {
        assert((p - 1) * ((p - 1) * b) <= (p - 1) * (p * a));
        assert((p - 1) * (p * a) <= p * (p * c));
        assert(p * (p * c) <= p * ((p + 1) * a));
        assert(p * ((p + 1) * a) <= (p + 1) * ((p + 1) * b));
    }
    let km = k * m;
    let hx = 100 * x;
    assert((p - 3) * km <= p * hx && p * hx <= (p + 3) * km) by (nonlinear_arith)
        requires
            (p - 3) * c <= p * b,
            p * b <= (p + 3) * c,
            c == km * u,
            b == hx * u,
            u > 0,
    {
        assert((p - 3) * (km * u) == ((p - 3) * km) * u);
        assert(p * (hx * u) == (p * hx) * u);
        assert((p + 3) * (km * u) == ((p + 3) * km) * u);
    }
}

// ---- losses ---------------------------------------------------------------------------------------------------

/// A position is hedged exactly where hedging is on, there is a position at a price, and it has
/// lost more than the given share of its worth; never where it has not lost. The hedge closes all
/// of it, and all orders are cancelled first.
pub proof fn losing_positions_are_hedged(config: Config, s: MmModel, now: Double, ts_ms: u64)
    requires
        s.stats.session_pnl.is_finite(),
        config.as_model.max_loss_usd.is_finite(),
        s.stats.session_pnl.value() + config.as_model.max_loss_usd.value() >= 0,
        s.position.is_finite(),
        positive(s.mid()),
        s.unrealized_pnl.is_finite(),
        config.risk.hedge_loss_pct.is_finite(),
        s.position.magnitude().times(s.mid()).is_finite(),
        s.position.magnitude().times(s.mid()).times(config.risk.hedge_loss_pct).is_finite(),
        s.position.value() != 0 ==> s.position.magnitude().times(s.mid()).value() > 0,
    ensures
        ({
            let worth = s.position.magnitude().times(s.mid());
            let limit = worth.times(config.risk.hedge_loss_pct).value();
            let (r, stage) = guarded(config, s, now, ts_ms);
            let hedged = stage is HedgeCancel || stage is HedgePlace;
            let close = if stage is HedgeCancel { stage->HedgeCancel_close } else { stage->HedgePlace_0 };
            &&& hedged <==> config.risk.hedge_loss_pct.value() > 0 && s.position.value() != 0
                && s.unrealized_pnl.value() + limit < 0
            &&& hedged ==> s.unrealized_pnl.value() < 0
            &&& hedged ==> close.size.value() == size_of(s.position.value()) && close.is_buy == (
            s.position.value() < 0)
            &&& hedged ==> r.buy_oids.len() == 0 && r.sell_oids.len() == 0
            &&& stage is HedgeCancel ==> stage->HedgeCancel_cancels == labelled(
                config.token.symbol@,
                s.buy_oids + s.sell_oids,
            )
            &&& hedged && s.buy_oids.len() + s.sell_oids.len() > 0 ==> stage is HedgeCancel
        }),
{
    reveal(guarded);
    reveal(closing_of);
    lemma_filtered_rank(config, s, now, ts_ms);
    assert(mag(0) == 0);
    lemma_value(config.as_model.max_loss_usd);
    lemma_value(s.position);
    let worth = s.position.magnitude().times(s.mid());
    let x = worth.times(config.risk.hedge_loss_pct);
    lemma_value(x);
    lemma_value(worth);
    product_is_number(s.position.magnitude(), s.mid());
    product_sign(s.position.magnitude(), s.mid());
    if config.risk.hedge_loss_pct.value() > 0 {
        product_sign(worth, config.risk.hedge_loss_pct);
    }
}

/// A session is stopped in a round exactly where its profit is below the loss that it may make.
pub proof fn sessions_stop_at_their_loss(config: Config, s: MmModel, now: Double, ts_ms: u64)
    requires
        s.stats.session_pnl.is_finite(),
        config.as_model.max_loss_usd.is_finite(),
        s.stats.session_pnl.value() + config.as_model.max_loss_usd.value() < 0,
    ensures
        !guarded(config, s, now, ts_ms).0.running,
        guarded(config, s, now, ts_ms).1 is Done,
{
    reveal(guarded);
    lemma_value(config.as_model.max_loss_usd);
}

// ---- horizons ---------------------------------------------------------------------------------------------------

/// A round begins by flattening the position exactly where the horizon is over, counted in whole
/// seconds, and the position is worth more than it may be at its end, long or short; the horizon
/// then starts anew.
pub proof fn horizons_end_flat(
    config: Config,
    s: MmModel,
    start: nat,
    now: nat,
    length: nat,
    ts_ms: u64,
)
    requires
        s.as_t0_ms == 1000 * start,
        start <= now <= 0x7ff_ffff_ffff,
        length <= 0x7ff_ffff_ffff,
        config.as_model.t_secs == of_int(length as int),
        s.position.is_finite(),
        positive(s.mid()),
        s.position.magnitude().times(s.mid()).is_finite(),
        !config.as_model.flatten_threshold_usd.is_nan(),
    ensures
        ({
            let (r, stage) = begun(config, s, of_int(now as int), ts_ms);
            let over = now - start >= length;
            let worth = s.position.magnitude().times(s.mid()).value();
            &&& stage is Flatten <==> over && worth > config.as_model.flatten_threshold_usd.value()
            &&& stage is Flatten ==> stage->Flatten_0.is_buy == (s.position.value() < 0)
                && stage->Flatten_0.size == s.position.magnitude().larger(config.token.min_size)
            &&& stage is Flatten ==> r.as_t0_ms == 1000 * now && r.t_remaining_secs
                == config.as_model.t_secs
            &&& !over ==> r.as_t0_ms == s.as_t0_ms
        }),
{
    reveal(begun);
    reveal(closing_of);
    let u = one_unit();
    lemma_room();
    lemma_thousandth(start, s.as_t0_ms as nat);
    integers_are_exact(now);
    integers_are_exact(length);
    integers_are_exact(start);
    let begin = of_int(s.as_t0_ms as int).over(of_int(1000));
    lemma_whole_difference(now, start, of_int(now as int), begin);
    let passed = now - start;
    assert(passed >= length <==> passed * u >= length * u) by (nonlinear_arith)
        requires
            u > 0,
    ;
    lemma_guarded_rank(config, s, of_int(now as int), ts_ms);
    let reset = crate::iteration::window_reset(config, s, of_int(now as int), ts_ms);
    lemma_guarded_rank(config, reset, of_int(now as int), ts_ms);
    lemma_milliseconds(now);
    lemma_guarded_horizon(config, s, of_int(now as int), ts_ms);
    assert(mag(0) == 0);
}

/// The guards leave the horizon alone.
proof fn lemma_guarded_horizon(config: Config, s: MmModel, now: Double, ts_ms: u64)
    ensures
        guarded(config, s, now, ts_ms).0.as_t0_ms == s.as_t0_ms,
{
    reveal(guarded);
    reveal(filtered);
    reveal(crate::iteration::trend_paused);
    reveal(requoted);
    reveal(crate::iteration::quoted);
    reveal(crate::iteration::cleared);
    reveal(crate::iteration::settled);
    reveal(crate::iteration::finished);
}

/// Whole seconds in milliseconds.
proof fn lemma_milliseconds(n: nat)
    requires
        n <= 0x7ff_ffff_ffff,
    ensures
        of_int(n as int).times(of_int(1000)).saturated(0, u64::MAX as int) == 1000 * n,
{
    let u = one_unit();
    lemma_room();
    integers_are_exact(n);
    integers_are_exact(1000);
    integers_are_exact(1000 * n);
    let x = of_int(n as int);
    let k = of_int(1000);
    let y = of_int((1000 * n) as int);
    crate::order::lemma_extended(mag(y.index()), 1, u);
    lemma_rounding_exact(y.index());
    assert(mag(x.index()) * mag(k.index()) == mag(y.index()) * u) by (nonlinear_arith)
        requires
            mag(x.index()) == n * u,
            mag(k.index()) == 1000 * u,
            mag(y.index()) == (1000 * n) * u,
    ;
    assert(x.times(k) == y);
    let m = 1000 * n;
    assert((m * u) / u == m) by (nonlinear_arith)
        requires
            u > 0,
    ;
}

// ---- trends ------------------------------------------------------------------------------------------------------

/// While a trend pauses the session, nothing is asked of the exchange and no order is forgotten.
pub proof fn pauses_hold_still(config: Config, s: MmModel, now: Double, ts_ms: u64)
    requires
        config.momentum.enabled,
        now.less(s.momentum_pause_until),
    ensures
        filtered(config, s, now, ts_ms).1 is Done,
        filtered(config, s, now, ts_ms).0.buy_oids == s.buy_oids,
        filtered(config, s, now, ts_ms).0.sell_oids == s.sell_oids,
        filtered(config, s, now, ts_ms).0.order_details == s.order_details,
{
    reveal(filtered);
}

/// A price that moved by so many ticks over the look-back, up or down, is a trend: all orders are
/// cancelled and the session pauses; a position that the trend goes against is closed, a long one
/// in a fall and a short one in a rise, and no other. A smaller move is none, and the round goes
/// on as without a filter.
pub proof fn trends_pause_the_session(
    config: Config,
    s: MmModel,
    now: Double,
    ts_ms: u64,
    last_price: Double,
    old_price: Double,
    ticks: nat,
)
    requires
        config.momentum.enabled,
        !now.less(s.momentum_pause_until),
        1 <= config.momentum.lookback <= s.price_history.len(),
        last_price == s.price_history[s.price_history.len() - 1],
        old_price == s.price_history[s.price_history.len() - config.momentum.lookback],
        positive(last_price),
        positive(old_price),
        positive(config.token.tick_size),
        1 <= ticks <= 0xffff_ffff,
        config.momentum.min_move_ticks == of_int(ticks as int),
        s.position.is_finite(),
        positive(s.mid()),
    ensures
        ({
            let (r, stage) = filtered(config, s, now, ts_ms);
            let far = (P53 - 1) * apart(last_price, old_price) >= P53 * (ticks
                * config.token.tick_size.value());
            let near = (P53 + 3) * apart(last_price, old_price) < P53 * (ticks
                * config.token.tick_size.value());
            let fall = last_price.value() < old_price.value();
            let against = if fall { s.position.value() > 0 } else { s.position.value() < 0 };
            &&& far ==> {
                &&& r.buy_oids.len() == 0 && r.sell_oids.len() == 0
                &&& r.momentum_pause_until == now.plus(config.momentum.pause_sec)
                &&& s.buy_oids.len() + s.sell_oids.len() > 0 ==> stage is TrendCancel
                    && stage->TrendCancel_cancels == labelled(
                    config.token.symbol@,
                    s.buy_oids + s.sell_oids,
                ) && (stage->TrendCancel_close is Some <==> against)
                &&& s.buy_oids.len() + s.sell_oids.len() == 0 ==> (stage is TrendClose <==> against)
                    && (stage is Done <==> !against)
                &&& stage is TrendClose ==> stage->TrendClose_0.is_buy == (s.position.value() < 0)
                    && stage->TrendClose_0.size.value() == size_of(s.position.value())
                &&& stage is TrendCancel && against ==> stage->TrendCancel_close->0.is_buy == (
                s.position.value() < 0) && stage->TrendCancel_close->0.size.value() == size_of(
                    s.position.value(),
                )
            }
            &&& near ==> (r, stage) == requoted(config, s, now)
        }),
{
    reveal(filtered);
    reveal(closing_of);
    reveal(crate::iteration::trend_paused);
    let u = one_unit();
    let p = P53 as int;
    lemma_room();
    assert(mag(0) == 0);
    let tick = config.token.tick_size;
    let t = tick.value();
    lemma_value(last_price);
    lemma_value(old_price);
    lemma_value(tick);
    lemma_value(s.position);
    let d = last_price.minus(old_price);
    lemma_difference(last_price, old_price);
    lemma_value(d);
    let e = apart(last_price, old_price);
    lemma_rounding_exact(last_price.index());
    lemma_rounding_exact(old_price.index());
    if last_price.value() <= old_price.value() {
        lemma_rounding_monotone(e, mag(old_price.index()), 1);
    } else {
        lemma_rounding_monotone(e, mag(last_price.index()), 1);
    }
    assert(d.is_finite());
    let x = d.magnitude();
    lemma_value(x);
    let xv = x.value();
    integers_are_exact(ticks);
    let m = of_int(ticks as int);
    assert(ticks * u >= P52) by (nonlinear_arith)
        requires
            ticks >= 1,
            u >= P52,
    ;
    lemma_quotient_bound(x, tick, m);
    let kt = ticks * t;
    if (p - 1) * e >= p * kt {
        assert((ticks * u) * t <= xv * u) by (nonlinear_arith)
            requires
                (p - 1) * e >= p * kt,
                p * e <= (p + 1) * xv,
                kt == ticks * t,
                u > 0,
                e >= 0,
                xv >= 0,
                kt >= 0,
                p == 0x20_0000_0000_0000,
        {
            assert((p - 1) * (p * e) <= (p - 1) * ((p + 1) * xv));
            assert(p * (p * kt) <= p * ((p - 1) * e));
            assert(p * (p * kt) <= ((p - 1) * (p + 1)) * xv);
            assert(((p - 1) * (p + 1)) * xv <= (p * p) * xv);
            assert(kt <= xv);
            assert(kt * u <= xv * u);
        }
        assert(crate::iteration::trending(config, d));
        assert(e > 0) by (nonlinear_arith)
            requires
                (p - 1) * e >= p * kt,
                kt == ticks * t,
                ticks >= 1,
                t > 0,
                p > 1,
        {
            assert(kt > 0);
        }
        assert(d.value() != 0);
    }
    if (p + 3) * e < p * kt {
        if crate::iteration::trending(config, d) {
            assert(false) by (nonlinear_arith)
                requires
                    (p + 3) * e < p * kt,
                    (p - 1) * ((ticks * u) * t) <= p * (xv * u),
                    (p - 1) * xv <= p * e,
                    kt == ticks * t,
                    u > 0,
                    e >= 0,
                    xv >= 0,
                    kt >= 0,
                    p == 0x20_0000_0000_0000,
            {
                assert((p - 1) * ((ticks * u) * t) == ((p - 1) * kt) * u);
                assert(p * (xv * u) == (p * xv) * u);
                assert((p - 1) * kt <= p * xv);
                assert((p - 1) * ((p - 1) * kt) <= (p - 1) * (p * xv));
                assert(p * ((p - 1) * xv) <= p * (p * e));
                assert((p - 1) * ((p - 1) * kt) <= p * (p * e));
                assert((p * p) * ((p + 3) * e) < (p * p) * (p * kt));
                assert((p + 3) * ((p - 1) * ((p - 1) * kt)) <= (p + 3) * (p * (p * e)));
                assert((p + 3) * (p * (p * e)) == (p * p) * ((p + 3) * e));
                assert((p + 3) * ((p - 1) * ((p - 1) * kt)) == ((p + 3) * ((p - 1) * (p - 1))) * kt);
                assert((p * p) * p <= (p + 3) * ((p - 1) * (p - 1)));
                assert(((p * p) * p) * kt <= ((p + 3) * ((p - 1) * (p - 1))) * kt);
                assert((p * p) * (p * kt) == ((p * p) * p) * kt);
            }
        }
    }
}

// ---- the size scale -----------------------------------------------------------------------------------------------

/// A minute after margin was refused the size scale recovers by a tenth, to one at most, and not
/// before; it never falls by itself.
pub proof fn scales_recover(s: MmModel, now: Double)
    requires
        now.is_finite(),
        s.last_margin_reject_ts.is_finite(),
        s.size_scale.is_finite(),
    ensures
        ({
            let r = recovered(s, now);
            let due = s.last_margin_reject_ts.value() > 0 && now.minus(
                s.last_margin_reject_ts,
            ).value() >= 60 * one_unit() && s.size_scale.value() < one_unit();
            &&& !due ==> r == s
            &&& s.size_scale.at_most(r.size_scale)
            &&& due ==> r.size_scale.at_most(of_int(1)) && r.last_margin_reject_ts == now
            &&& due && s.size_scale.plus(quotient(1, 10)).at_most(of_int(1)) ==> r.size_scale
                == s.size_scale.plus(quotient(1, 10))
        }),
{
    integers_are_exact(1);
    integers_are_exact(60);
    lemma_difference(now, s.last_margin_reject_ts);
    lemma_ratio(1, 10);
    assert(mag(0) == 0);
    assert(1 * one_unit() == one_unit());
    adding_grows(s.size_scale, quotient(1, 10));
}

/// Where margin was refused the size scale falls to the given share of what it was, not below the
/// smallest one, and the session pauses; where all went well it rises by its step, to one at most;
/// and after another error it stays.
pub proof fn refused_margin_lowers_the_scale(
    config: Config,
    s: MmModel,
    plan: PlanView,
    b: BulkView,
    now: Double,
)
    requires
        zero().at_most(s.size_scale),
        s.size_scale.at_most(of_int(1)),
        zero().at_most(config.margin.reject_decay),
        config.margin.reject_decay.at_most(of_int(1)),
        zero().at_most(config.margin.recovery_step),
        config.margin.recovery_step.is_finite(),
        config.margin.min_size_scale.at_most(s.size_scale),
    ensures
        ({
            let r = judged(config, s, plan, b, now);
            &&& b.margin_errs > 0 ==> {
                &&& r.size_scale.at_most(s.size_scale)
                &&& config.margin.min_size_scale.at_most(r.size_scale)
                &&& r.size_scale == s.size_scale.times(config.margin.reject_decay)
                    || r.size_scale == config.margin.min_size_scale
                &&& config.margin.min_size_scale.at_most(
                    s.size_scale.times(config.margin.reject_decay),
                ) ==> r.size_scale == s.size_scale.times(config.margin.reject_decay)
                &&& r.last_margin_reject_ts == now
                &&& r.margin_pause_until == now.plus(config.margin.reject_cooldown)
            }
            &&& b.margin_errs == 0 && b.first_error is None ==> {
                &&& s.size_scale.at_most(r.size_scale)
                &&& r.size_scale.at_most(of_int(1))
                &&& r.last_margin_reject_ts == s.last_margin_reject_ts
            }
            &&& b.margin_errs == 0 && b.first_error is Some ==> r.size_scale == s.size_scale
        }),
{
    reveal(judged);
    let x = s.size_scale;
    let d = config.margin.reject_decay;
    integers_are_exact(1);
    assert(1 * one_unit() == one_unit());
    assert(mag(0) == 0);
    lemma_value(x);
    lemma_value(d);
    lemma_mag_order(of_int(1).index(), INF as int);
    lemma_mag_order(x.index(), INF as int);
    lemma_mag_order(d.index(), INF as int);
    product_is_number(x, d);
    times_one(x);
    lemma_times_commutes(x, d);
    lemma_times_commutes(x, of_int(1));
    products_keep_order(d, of_int(1), x);
    adding_grows(x, config.margin.recovery_step);
}

} // verus!
