//! What holds of the checks before a round: when a session stops, when it requotes, and which
//! quotes are let through.
use vstd::prelude::*;

use crate::bounds::{lemma_difference, lemma_quotient_bound, lemma_value};
use crate::config::Config;
use crate::double::{lemma_mag_order, mag, of_int, one_unit, quotient, zero, Double, P52, P53};
use crate::market_laws::{lemma_over_one, lemma_three_roundings};
use crate::matching_laws::{apart, positive};
use crate::model_laws::normal;
use crate::order::{
    integers_are_exact, lemma_normal_error, lemma_rounded, lemma_rounding_exact,
    lemma_rounding_monotone, quotients_keep_order, size_of,
};
use crate::risk::{
    allowed, drift, flow_limited, market_ticks, refresh_of, risk_of, ticks_between, Quote,
    RefreshReason, RiskView,
};
use crate::size_laws::over_itself;
use crate::ticks::lemma_room;
use crate::trading::sides_for;
use crate::types::{Bbo, MmModel, OrderLevel, Side, Stats};

verus! {

// ---- costs ----------------------------------------------------------------------------------------------

/// The cost per million is what was paid in fees less what was earned, for a million of volume:
/// positive where more was paid than earned, and nothing without volume. Four parts in 2^53 are
/// left to rounding.
pub proof fn cost_is_net_fees_per_million(s: Stats)
    requires
        positive(s.total_volume),
        s.total_fees.is_finite(),
        s.session_pnl.is_finite(),
        normal(s.total_volume.over(of_int(1_000_000))),
        normal(s.cost_per_million_spec()),
        s.total_fees.minus(s.session_pnl).is_finite(),
    ensures
        ({
            let c = s.cost_per_million_spec();
            let e = s.total_fees.value() - s.session_pnl.value();
            let x = (size_of(e) * 1_000_000) * one_unit();
            let m = size_of(c.value()) * s.total_volume.value();
            &&& e >= 0 ==> c.value() >= 0
            &&& e <= 0 ==> c.value() <= 0
            &&& (P53 - 4) * x <= P53 * m
            &&& P53 * m <= (P53 + 4) * x
        }),
{
    let u = one_unit();
    let p = P53 as int;
    lemma_room();
    assert(mag(0) == 0);
    integers_are_exact(1_000_000);
    let mil = of_int(1_000_000);
    lemma_value(mil);
    let d = s.total_fees.minus(s.session_pnl);
    lemma_difference(s.total_fees, s.session_pnl);
    lemma_value(d);
    let v = s.total_volume;
    lemma_value(v);
    let w = v.over(mil);
    let vv = mag(v.index());
    let k = 1_000_000 * u;
    lemma_rounded(v.neg() != mil.neg(), vv * u, k);
    lemma_normal_error(vv * u, k);
    let wv = mag(w.index());
    lemma_value(w);
    let c = s.cost_per_million_spec();
    assert(c == d.over(w));
    let dv = mag(d.index());
    lemma_mag_order(0, w.index());
    lemma_rounded(d.neg() != w.neg(), dv * u, wv);
    lemma_normal_error(dv * u, wv);
    lemma_value(c);
    if dv == 0 {
        assert(dv * u == 0) by (nonlinear_arith)
            requires
                dv == 0,
        ;
        crate::order::lemma_zero_rounding(wv);
    }
    assert(!w.neg() && c.neg() == d.neg());
    let cv = mag(c.index());
    let e = s.total_fees.value() - s.session_pnl.value();
    let sz = size_of(e);
    let x = (sz * 1_000_000) * u;
    let dd = (dv * 1_000_000) * u;
    let g = (cv * wv) * 1_000_000;
    let m = cv * vv;
    assert(p * x <= (p + 1) * dd && (p - 1) * dd <= p * x) by (nonlinear_arith)
        requires
            x == (sz * 1_000_000) * u,
            dd == (dv * 1_000_000) * u,
            p * sz <= (p + 1) * dv,
            (p - 1) * dv <= p * sz,
            u > 0,
    {
        assert((p * sz) * (1_000_000 * u) <= ((p + 1) * dv) * (1_000_000 * u));
        assert(((p - 1) * dv) * (1_000_000 * u) <= (p * sz) * (1_000_000 * u));
    }
    assert((p - 1) * g <= p * dd && p * dd <= (p + 1) * g) by (nonlinear_arith)
        requires
            g == (cv * wv) * 1_000_000,
            dd == (dv * 1_000_000) * u,
            (p - 1) * (cv * wv) <= p * (dv * u),
            p * (dv * u) <= (p + 1) * (cv * wv),
    ;
    assert((p - 1) * (wv * 1_000_000) <= p * vv && p * vv <= (p + 1) * (wv * 1_000_000))
        by (nonlinear_arith)
        requires
            (p - 1) * (wv * k) <= p * (vv * u),
            p * (vv * u) <= (p + 1) * (wv * k),
            k == 1_000_000 * u,
            u > 0,
    {
        assert((p - 1) * (wv * k) == ((p - 1) * (wv * 1_000_000)) * u);
        assert((p + 1) * (wv * k) == ((p + 1) * (wv * 1_000_000)) * u);
        assert(p * (vv * u) == (p * vv) * u);
    }
    assert(p * m <= (p + 1) * g && (p - 1) * g <= p * m) by (nonlinear_arith)
        requires
            m == cv * vv,
            g == (cv * wv) * 1_000_000,
            (p - 1) * (wv * 1_000_000) <= p * vv,
            p * vv <= (p + 1) * (wv * 1_000_000),
            cv >= 0,
    {
        assert(cv * (p * vv) <= cv * ((p + 1) * (wv * 1_000_000)));
        assert(cv * ((p - 1) * (wv * 1_000_000)) <= cv * (p * vv));
    }
    lemma_three_roundings(x as int, dd as int, g as int, m as int);
}

/// The cost per million does not fall with the fees nor rise with the profit, and is nothing
/// before there is a volume; for a million of volume it is the fees less the profit.
pub proof fn cost_follows_fees_and_profit(s: Stats, t: Stats)
    requires
        positive(s.total_volume),
        positive(s.total_volume.over(of_int(1_000_000))),
        t.total_volume == s.total_volume,
        s.total_fees.at_most(t.total_fees),
        t.session_pnl.at_most(s.session_pnl),
        s.total_fees.is_finite() && t.total_fees.is_finite(),
        s.session_pnl.is_finite() && t.session_pnl.is_finite(),
    ensures
        s.cost_per_million_spec().at_most(t.cost_per_million_spec()),
        s.total_volume == of_int(1_000_000) ==> s.cost_per_million_spec() == s.total_fees.minus(
            s.session_pnl,
        ),
        (Stats { total_volume: zero(), ..s }).cost_per_million_spec() == zero(),
{
    let a = s.total_fees.minus(s.session_pnl);
    let b = t.total_fees.minus(t.session_pnl);
    lemma_difference(s.total_fees, s.session_pnl);
    lemma_difference(t.total_fees, s.session_pnl);
    lemma_difference(t.total_fees, t.session_pnl);
    crate::order::differences_keep_order(s.total_fees, t.total_fees, s.session_pnl);
    crate::order::differences_keep_order(t.session_pnl, s.session_pnl, t.total_fees);
    let w = s.total_volume.over(of_int(1_000_000));
    lemma_over_number(a, w);
    lemma_over_number(b, w);
    quotients_keep_order(a, b, w);
    if s.total_volume == of_int(1_000_000) {
        over_itself(of_int(1_000_000));
        lemma_over_one(a);
    }
}

proof fn lemma_over_number(x: Double, m: Double)
    requires
        !x.is_nan(),
        positive(m),
    ensures
        !x.over(m).is_nan(),
{
    assert(mag(0) == 0);
    lemma_value(m);
    if x.is_finite() {
        lemma_rounded(x.neg() != m.neg(), mag(x.index()) * one_unit(), mag(m.index()));
    }
}

// ---- stops ------------------------------------------------------------------------------------------------

/// A session is stopped exactly where, on enough volume, it costs more per million than it may,
/// or where, after enough fills, its profit is below the limit.
pub proof fn stops_are_for_costs_or_losses(config: Config, s: MmModel, now: Double)
    requires
        !s.stats.cost_per_million_spec().is_nan(),
        !s.stats.total_volume.is_nan(),
        !s.stats.session_pnl.is_nan(),
        !config.risk.cost_m_kill.is_nan(),
        !config.risk.cost_m_min_vol.is_nan(),
        !config.risk.session_pnl_kill.is_nan(),
    ensures
        risk_of(config, s, now) is EmergencyStop <==> (s.stats.total_volume.value()
            >= config.risk.cost_m_min_vol.value() && s.stats.cost_per_million_spec().value()
            > config.risk.cost_m_kill.value()) || (s.stats.fills_count
            >= config.risk.min_fills_kill && s.stats.session_pnl.value()
            < config.risk.session_pnl_kill.value()),
{
}

/// Where it is not stopped: the feed is stale exactly where the last message came longer ago than
/// it may; and a position is to be left exactly where it is not tiny and has lost more than the
/// stop loss, by a sale where it is long and by a purchase where it is short.
pub proof fn stale_feeds_and_losing_positions(config: Config, s: MmModel, now: Double)
    requires
        !(risk_of(config, s, now) is EmergencyStop),
        now.is_finite(),
        s.last_ws_msg_ts.is_finite(),
        !config.timing.feed_stale_sec.is_nan(),
        !s.position.is_nan(),
        !s.unrealized_pnl.is_nan(),
        !config.risk.stop_loss_usd.is_nan(),
    ensures
        ({
            let r = risk_of(config, s, now);
            let stale = s.last_ws_msg_ts.value() > 0 && now.minus(s.last_ws_msg_ts).value()
                > config.timing.feed_stale_sec.value();
            let losing = size_of(s.position.value()) > quotient(1, 1000).value()
                && s.unrealized_pnl.value() + config.risk.stop_loss_usd.value() < 0;
            &&& r is FeedStale <==> stale
            &&& r is ExitPosition <==> !stale && losing
            &&& r is ExitPosition && s.position.value() > 0 ==> r == RiskView::ExitPosition {
                sell: true,
            }
            &&& r is ExitPosition && s.position.value() < 0 ==> r == RiskView::ExitPosition {
                sell: false,
            }
            &&& r is Continue <==> !stale && !losing
        }),
{
    lemma_value(s.position);
    lemma_value(config.risk.stop_loss_usd);
    lemma_difference(now, s.last_ws_msg_ts);
    crate::bounds::lemma_ratio(1, 1000);
    assert(mag(0) == 0);
}

// ---- distances in ticks -------------------------------------------------------------------------------------

/// The distance of two prices in whole ticks, rounded down: that many ticks lie between them, and
/// one more does not, but for rounding; and it is the same whichever comes first.
pub proof fn distances_are_whole_ticks(a: Double, b: Double, tick: Double)
    requires
        positive(a),
        positive(b),
        positive(tick),
        apart(a, b) <= 0x8000_0000 * tick.value(),
    ensures
        ({
            let k = ticks_between(a, b, tick);
            &&& (P53 - 4) * (k * tick.value()) <= P53 * apart(a, b)
            &&& P53 * apart(a, b) <= (P53 + 1) * ((k + 1) * tick.value())
            &&& k == ticks_between(b, a, tick)
        }),
{
    let u = one_unit();
    let p = P53 as int;
    lemma_room();
    assert(mag(0) == 0);
    lemma_value(a);
    lemma_value(b);
    lemma_value(tick);
    lemma_difference(a, b);
    lemma_difference(b, a);
    let e = apart(a, b);
    assert(apart(b, a) == e);
    let d = a.minus(b);
    lemma_value(d);
    lemma_value(b.minus(a));
    assert(d.magnitude() == b.minus(a).magnitude());
    lemma_rounding_exact(a.index());
    lemma_rounding_exact(b.index());
    if a.value() <= b.value() {
        lemma_rounding_monotone(e, mag(b.index()), 1);
    } else {
        lemma_rounding_monotone(e, mag(a.index()), 1);
    }
    assert(d.is_finite());
    let x = d.magnitude();
    let xv = x.value();
    let t = tick.value();
    let q = x.over(tick);
    lemma_rounded(false, mag(x.index()) * u, mag(tick.index()));
    lemma_value(q);
    let w = mag(q.index()) / u;
    crate::bounds::lemma_whole_part(mag(q.index()), u);
    // it is not saturated
    integers_are_exact(0xffff_ffff);
    lemma_quotient_bound(x, tick, of_int(0xffff_ffff));
    assert(xv * u < (0xffff_ffff * u) * t) by (nonlinear_arith)
        requires
            (p - 1) * xv <= p * e,
            e <= 0x8000_0000 * t,
            t > 0,
            u > 0,
            p == 0x20_0000_0000_0000,
    {
        assert(xv <= 0x8000_0001 * t);
        assert(xv * u <= (0x8000_0001 * t) * u);
    }
    assert(w <= 0xffff_ffff) by (nonlinear_arith)
        requires
            w * u <= mag(q.index()),
            mag(q.index()) <= 0xffff_ffff * u,
            u > 0,
    ;
    let k = ticks_between(a, b, tick);
    assert(k == w);
    // that many ticks
    if k >= 1 {
        integers_are_exact(k as nat);
        assert(k * u >= P52) by (nonlinear_arith)
            requires
                k >= 1,
                u >= P52,
        ;
        lemma_quotient_bound(x, tick, of_int(k as int));
        assert((p - 1) * (k * t) <= p * xv) by (nonlinear_arith)
            requires
                (p - 1) * ((k * u) * t) <= p * (xv * u),
                u > 0,
        {
            assert((p - 1) * ((k * u) * t) == ((p - 1) * (k * t)) * u);
            assert(p * (xv * u) == (p * xv) * u);
        }
        let kt = k * t;
        assert((p - 4) * kt <= p * e) by (nonlinear_arith)
            requires
                (p - 1) * kt <= p * xv,
                (p - 1) * xv <= p * e,
                kt >= 0,
                e >= 0,
                p == 0x20_0000_0000_0000,
        {
            assert((p - 1) * ((p - 1) * kt) <= p * ((p - 1) * xv));
            assert(p * ((p - 1) * xv) <= p * (p * e));
            assert(p * ((p - 4) * kt) <= (p - 1) * ((p - 1) * kt));
        }
    } else {
        assert((p - 4) * (k * t) == 0) by (nonlinear_arith)
            requires
                k == 0,
        ;
        assert(p * e >= 0) by (nonlinear_arith)
            requires
                e >= 0,
                p > 0,
        ;
    }
    // and not one more
    let n = (k + 1) as nat;
    integers_are_exact(n);
    assert(n * u >= P52) by (nonlinear_arith)
        requires
            n >= 1,
            u >= P52,
    ;
    lemma_quotient_bound(x, tick, of_int(n as int));
    assert(mag(q.index()) < n * u) by (nonlinear_arith)
        requires
            mag(q.index()) < (w + 1) * u,
            n == w + 1,
    ;
    assert((n * u) * t > xv * u);
    assert(xv <= n * t) by (nonlinear_arith)
        requires
            (n * u) * t > xv * u,
            u > 0,
    ;
    assert(p * e <= (p + 1) * (n * t)) by (nonlinear_arith)
        requires
            p * e <= (p + 1) * xv,
            xv <= n * t,
            p > 0,
    ;
}

/// The width of a market is the distance of its ask from its bid in whole ticks, and not positive
/// where the two are crossed.
pub proof fn width_is_the_distance_of_the_quotes(bbo: Bbo, tick: Double)
    requires
        positive(bbo.best_bid),
        positive(bbo.best_ask),
        positive(tick),
        apart(bbo.best_ask, bbo.best_bid) <= 0x4000_0000 * tick.value(),
    ensures
        bbo.best_bid.value() <= bbo.best_ask.value() ==> market_ticks(bbo, tick) == ticks_between(
            bbo.best_ask,
            bbo.best_bid,
            tick,
        ),
        bbo.best_ask.value() <= bbo.best_bid.value() ==> market_ticks(bbo, tick) == -ticks_between(
            bbo.best_ask,
            bbo.best_bid,
            tick,
        ),
{
    let u = one_unit();
    lemma_room();
    assert(mag(0) == 0);
    let a = bbo.best_ask;
    let b = bbo.best_bid;
    lemma_value(a);
    lemma_value(b);
    lemma_value(tick);
    distances_are_whole_ticks(a, b, tick);
    lemma_difference(a, b);
    let d = a.minus(b);
    lemma_value(d);
    lemma_rounding_exact(a.index());
    lemma_rounding_exact(b.index());
    let e = apart(a, b);
    if a.value() <= b.value() {
        lemma_rounding_monotone(e, mag(b.index()), 1);
    } else {
        lemma_rounding_monotone(e, mag(a.index()), 1);
    }
    let q = d.over(tick);
    let r = d.magnitude().over(tick);
    lemma_rounded(d.neg() != tick.neg(), mag(d.index()) * u, mag(tick.index()));
    lemma_rounded(false, mag(d.index()) * u, mag(tick.index()));
    assert(q.index() == r.index());
    let k = ticks_between(a, b, tick);
    let t = tick.value();
    assert(k <= 0x4000_0001) by (nonlinear_arith)
        requires
            (P53 - 4) * (k * t) <= P53 * e,
            e <= 0x4000_0000 * t,
            t > 0,
            P53 == 0x20_0000_0000_0000,
    {
        assert((P53 - 4) * (k * t) <= (P53 * 0x4000_0000) * t);
        assert(((P53 - 4) * k) * t <= (P53 * 0x4000_0000) * t);
        assert((P53 - 4) * k <= P53 * 0x4000_0000);
    }
    assert(r.whole() == k);
    if d.value() == 0 {
        assert(mag(d.index()) * u == 0) by (nonlinear_arith)
            requires
                mag(d.index()) == 0,
        ;
        crate::order::lemma_zero_rounding(mag(tick.index()));
        assert(0nat / u == 0) by (nonlinear_arith)
            requires
                u > 0,
        ;
    }
}

// ---- reasons to requote ---------------------------------------------------------------------------------------

/// A quote and orders on both sides, and no position that is to be left.
pub open spec fn settled_state(s: MmModel, risk: RiskView) -> bool {
    s.bbo is Some && s.buy_oids.len() > 0 && s.sell_oids.len() > 0 && !(risk is ExitPosition)
}

/// Without a quote nothing is requoted; a position that is to be left comes first; then sides
/// without orders are filled.
pub proof fn missing_orders_are_replaced(config: Config, s: MmModel, now: Double, risk: RiskView)
    ensures
        ({
            let r = refresh_of(config, s, now, risk);
            let bids = s.buy_oids.len() > 0;
            let asks = s.sell_oids.len() > 0;
            &&& s.bbo is None ==> r == RefreshReason::NoRefresh
            &&& s.bbo is Some ==> {
                &&& risk == (RiskView::ExitPosition { sell: true }) <==> r
                    == RefreshReason::StopExit { sell: true }
                &&& risk == (RiskView::ExitPosition { sell: false }) <==> r
                    == RefreshReason::StopExit { sell: false }
                &&& r is Initial <==> !(risk is ExitPosition) && !bids && !asks
                &&& r is Replenish <==> !(risk is ExitPosition) && bids != asks
            }
        }),
{
}

/// Where the mid has moved from where it was quoted at by as many ticks as are urgent, up or
/// down, the orders are refreshed urgently; by as many as are a drift, normally; and otherwise
/// not for a drift.
pub proof fn drifts_are_requoted(config: Config, s: MmModel, now: Double, risk: RiskView, anchor: Double)
    requires
        settled_state(s, risk),
        s.anchor_price == Some(anchor),
        config.timing.drift_ticks <= config.timing.urgent_drift_ticks,
    ensures
        ({
            let r = refresh_of(config, s, now, risk);
            let k = ticks_between(s.bbo->0.mid, anchor, config.token.tick_size);
            &&& r is UrgentDrift <==> k >= config.timing.urgent_drift_ticks
            &&& r is NormalDrift <==> config.timing.drift_ticks <= k
                < config.timing.urgent_drift_ticks
            &&& r is UrgentDrift ==> r == RefreshReason::UrgentDrift(k)
            &&& r is NormalDrift ==> r == RefreshReason::NormalDrift(k)
        }),
{
}

/// Orders that have not drifted are refreshed where the width of the market differs by three
/// ticks or more from that at the last quote, whether wider or narrower; where the quotes are too
/// old; or where the last refresh is too long ago. Else only a lock of a side that has orders
/// asks for one.
pub proof fn quiet_orders_are_requoted_in_time(config: Config, s: MmModel, now: Double, risk: RiskView)
    requires
        settled_state(s, risk),
        s.anchor_price is None,
        config.timing.drift_ticks > 0,
        config.timing.urgent_drift_ticks > 0,
        now.is_finite(),
        s.last_quote_ts.is_finite(),
        s.last_sync_time.is_finite(),
        !config.timing.max_quote_ttl.is_nan(),
        !config.timing.periodic_sync_sec.is_nan(),
        !s.fill_lock_until.is_nan(),
    ensures
        ({
            let r = refresh_of(config, s, now, risk);
            let w = market_ticks(s.bbo->0, config.token.tick_size);
            let changed = s.anchor_spread_ticks is Some && size_of(w - s.anchor_spread_ticks->0)
                >= 3;
            let old_quotes = if s.last_quote_ts.value() > 0 {
                now.minus(s.last_quote_ts).value() >= config.timing.max_quote_ttl.value()
            } else {
                999 * one_unit() >= config.timing.max_quote_ttl.value()
            };
            let overdue = now.minus(s.last_sync_time).value()
                > config.timing.periodic_sync_sec.value();
            let locked = now.value() < s.fill_lock_until.value();
            &&& r is SpreadChange <==> changed
            &&& r is SpreadChange ==> r == RefreshReason::SpreadChange {
                from: s.anchor_spread_ticks->0,
                to: w,
            }
            &&& r is QuoteTtl <==> !changed && old_quotes
            &&& r is Periodic <==> !changed && !old_quotes && overdue
            &&& r is SameSideLock <==> !changed && !old_quotes && !overdue && locked
                && s.fill_lock_side is Some
            &&& r is SameSideLock ==> r == RefreshReason::SameSideLock(s.fill_lock_side->0)
            &&& r is NoRefresh <==> !changed && !old_quotes && !overdue && !(locked
                && s.fill_lock_side is Some)
        }),
{
    integers_are_exact(999);
    lemma_difference(now, s.last_quote_ts);
    lemma_difference(now, s.last_sync_time);
    assert(mag(0) == 0);
    assert(drift(s.anchor_price, s.bbo->0.mid, config.token.tick_size) == 0);
}

// ---- what is let through ----------------------------------------------------------------------------------------

/// A position within its cap, or no cap.
pub open spec fn within_cap(config: Config, s: MmModel) -> bool {
    config.risk.position_cap_usd.at_most(zero()) || s.mid().at_most(zero())
        || s.position.magnitude().times(s.mid()).at_most(config.risk.position_cap_usd)
}

/// A quote is let through as it is where the position is within its cap, no fills are known, no
/// side is locked, and nothing urgent is the reason.
pub proof fn quiet_quotes_are_let_through(
    config: Config,
    s: MmModel,
    q: Quote,
    reason: RefreshReason,
    now: Double,
)
    requires
        within_cap(config, s),
        s.recent_fill_sides.len() == 0,
        s.fill_lock_until.at_most(now) || s.fill_lock_side is None,
        !(reason is StopExit) && !(reason is UrgentDrift),
    ensures
        allowed(config, s, q, reason, now) == q,
{
}

/// A lock takes the orders of its side and leaves those of the other as they are.
pub proof fn locks_spare_the_other_side(
    config: Config,
    s: MmModel,
    q: Quote,
    reason: RefreshReason,
    now: Double,
    side: Side,
)
    requires
        s.fill_lock_side == Some(side),
    ensures
        ({
            let t = MmModel { fill_lock_side: None, ..s };
            let r = allowed(config, s, q, reason, now);
            let free = allowed(config, t, q, reason, now);
            &&& now.less(s.fill_lock_until) && side == Side::Buy ==> r.bids.len() == 0 && r.asks
                == free.asks
            &&& now.less(s.fill_lock_until) && side == Side::Sell ==> r.asks.len() == 0 && r.bids
                == free.bids
            &&& !now.less(s.fill_lock_until) ==> r == free
        }),
{
    let t = MmModel { fill_lock_side: None, ..s };
    assert(s.mid() == t.mid());
    assert(crate::risk::capped(config, s, q) == crate::risk::capped(config, t, q));
    let c = crate::risk::capped(config, s, q);
    assert(flow_limited(config, s, c) == flow_limited(config, t, c));
}

/// To leave a position, the first three orders of the side that does so are let through; on an
/// urgent move of the market, the first order of the side that it moves away from, and all of the
/// other.
pub proof fn urgent_quotes_are_cut(
    config: Config,
    s: MmModel,
    q: Quote,
    k: u32,
    now: Double,
    anchor: Double,
)
    requires
        s.anchor_price == Some(anchor),
        !anchor.is_nan(),
        !s.mid().is_nan(),
    ensures
        ({
            let free = allowed(config, s, q, RefreshReason::Periodic, now);
            let sale = allowed(config, s, q, (RefreshReason::StopExit { sell: true }), now);
            let purchase = allowed(config, s, q, (RefreshReason::StopExit { sell: false }), now);
            let moved = allowed(config, s, q, RefreshReason::UrgentDrift(k), now);
            let one = |v: Seq<OrderLevel>| if v.len() <= 1 { v } else { seq![v[0]] };
            let three = |v: Seq<OrderLevel>| if v.len() <= 3 { v } else { seq![v[0], v[1], v[2]] };
            &&& sale.bids.len() == 0 && sale.asks == three(free.asks)
            &&& purchase.asks.len() == 0 && purchase.bids == three(free.bids)
            &&& s.mid().value() > anchor.value() ==> moved.bids == one(free.bids) && moved.asks
                == free.asks
            &&& s.mid().value() <= anchor.value() ==> moved.asks == one(free.asks) && moved.bids
                == free.bids
        }),
{
    let free = allowed(config, s, q, RefreshReason::Periodic, now);
    let sale = allowed(config, s, q, (RefreshReason::StopExit { sell: true }), now);
    let purchase = allowed(config, s, q, (RefreshReason::StopExit { sell: false }), now);
    let moved = allowed(config, s, q, RefreshReason::UrgentDrift(k), now);
    if free.asks.len() > 3 {
        assert(sale.asks =~= seq![free.asks[0], free.asks[1], free.asks[2]]);
    }
    if free.bids.len() > 3 {
        assert(purchase.bids =~= seq![free.bids[0], free.bids[1], free.bids[2]]);
    }
    if free.bids.len() > 1 && s.mid().value() > anchor.value() {
        assert(moved.bids =~= seq![free.bids[0]]);
    }
    if free.asks.len() > 1 && s.mid().value() <= anchor.value() {
        assert(moved.asks =~= seq![free.asks[0]]);
    }
}

// ---- which sides ------------------------------------------------------------------------------------------------

/// Which sides a reason has requoted: none without a reason, both at first, those that have no
/// orders, the one that leaves a position, the one that is not locked, and on a drift the one that
/// the market moves away from.
pub proof fn reasons_choose_their_sides(
    bbo: Bbo,
    anchor: Double,
    has_bids: bool,
    has_asks: bool,
    k: u32,
)
    requires
        !bbo.mid.is_nan(),
        !anchor.is_nan(),
    ensures
        ({
            let at = Some(anchor);
            let f = |r: RefreshReason| sides_for(r, bbo, at, has_bids, has_asks);
            &&& f(RefreshReason::NoRefresh) == (false, false)
            &&& f(RefreshReason::Initial) == (true, true)
            &&& f(RefreshReason::Periodic) == (true, true)
            &&& f(RefreshReason::StopExit { sell: true }) == (false, true)
            &&& f(RefreshReason::StopExit { sell: false }) == (true, false)
            &&& f(RefreshReason::Replenish) == (!has_bids, !has_asks)
            &&& f(RefreshReason::SameSideLock(Side::Buy)) == (false, true)
            &&& f(RefreshReason::SameSideLock(Side::Sell)) == (true, false)
            &&& bbo.mid.value() >= anchor.value() ==> f(RefreshReason::UrgentDrift(k)) == (
                true,
                false,
            ) && f(RefreshReason::NormalDrift(k)) == (true, false)
            &&& bbo.mid.value() < anchor.value() ==> f(RefreshReason::UrgentDrift(k)) == (
                false,
                true,
            ) && f(RefreshReason::NormalDrift(k)) == (false, true)
        }),
{
}

} // verus!
