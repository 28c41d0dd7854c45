//! When to stop, when to requote, and which quotes are allowed.
use vstd::prelude::*;

use crate::config::{decimals, Config};
use crate::decimal::{fixed, push_fixed};
use crate::double::{of_int, quotient, zero, Double};
use crate::parse::{power_of_ten, tens};
use crate::types::{last, Bbo, MmModel, MmState, OrderLevel, Side};

verus! {

// ---- risk checks -----------------------------------------------------------------------

/// Risk check result
#[derive(Debug)]
pub enum RiskAction {
    /// All clear, continue trading
    Continue,
    /// Kill the bot with reason
    EmergencyStop(String),
    /// Need to exit the position, by a sale or by a purchase
    ExitPosition { sell: bool },
    /// Feed is stale, pull all orders
    FeedStale,
}

/// A risk check result with its text as characters.
pub enum RiskView {
    Continue,
    EmergencyStop(Seq<char>),
    ExitPosition { sell: bool },
    FeedStale,
}

impl View for RiskAction {
    type V = RiskView;

    open spec fn view(&self) -> RiskView {
        match *self {
            RiskAction::Continue => RiskView::Continue,
            RiskAction::EmergencyStop(reason) => RiskView::EmergencyStop(reason@),
            RiskAction::ExitPosition { sell } => RiskView::ExitPosition { sell },
            RiskAction::FeedStale => RiskView::FeedStale,
        }
    }
}

/// The session costs too much for its volume.
pub open spec fn too_costly(config: Config, s: MmModel) -> bool {
    config.risk.cost_m_min_vol.at_most(s.stats.total_volume) && config.risk.cost_m_kill.less(
        s.stats.cost_per_million_spec(),
    )
}

/// The session has lost too much.
pub open spec fn too_lossy(config: Config, s: MmModel) -> bool {
    s.stats.fills_count >= config.risk.min_fills_kill && s.stats.session_pnl.less(
        config.risk.session_pnl_kill,
    )
}

/// The last message from the market came too long ago.
pub open spec fn feed_stale(config: Config, s: MmModel, now: Double) -> bool {
    zero().less(s.last_ws_msg_ts) && config.timing.feed_stale_sec.less(
        now.minus(s.last_ws_msg_ts),
    )
}

/// The open position has lost too much.
pub open spec fn stop_loss_hit(config: Config, s: MmModel) -> bool {
    quotient(1, 1000).less(s.position.magnitude()) && s.unrealized_pnl.less(
        config.risk.stop_loss_usd.negated(),
    )
}

/// What the risk checks say of a state: the first of them that applies.
pub open spec fn risk_of(config: Config, s: MmModel, now: Double) -> RiskView {
    if too_costly(config, s) {
        RiskView::EmergencyStop("Cost/1M $"@ + fixed(s.stats.cost_per_million_spec(), 1))
    } else if too_lossy(config, s) {
        RiskView::EmergencyStop("PnL $"@ + fixed(s.stats.session_pnl, 4))
    } else if feed_stale(config, s, now) {
        RiskView::FeedStale
    } else if stop_loss_hit(config, s) {
        RiskView::ExitPosition { sell: zero().less(s.position) }
    } else {
        RiskView::Continue
    }
}

/// Run all risk checks
pub fn check_risks(config: &Config, state: &MmState, now: Double) -> (r: RiskAction)
    ensures
        r@ == risk_of(*config, state@, now),
{
    if state.stats.total_volume.ge(config.risk.cost_m_min_vol) {
        let cpm = state.stats.cost_per_million();
        if cpm.gt(config.risk.cost_m_kill) {
            let mut reason = "Cost/1M $".to_owned();
            push_fixed(&mut reason, cpm, 1);
            return RiskAction::EmergencyStop(reason);
        }
    }
    if state.stats.fills_count >= config.risk.min_fills_kill && state.stats.session_pnl.lt(
        config.risk.session_pnl_kill,
    ) {
        let mut reason = "PnL $".to_owned();
        push_fixed(&mut reason, state.stats.session_pnl, 4);
        return RiskAction::EmergencyStop(reason);
    }
    if state.last_ws_msg_ts.gt(Double::zero()) && now.sub(state.last_ws_msg_ts).gt(
        config.timing.feed_stale_sec,
    ) {
        return RiskAction::FeedStale;
    }
    if state.position.abs().gt(Double::ratio(1, 1000)) && state.unrealized_pnl.lt(
        config.risk.stop_loss_usd.negate(),
    ) {
        return RiskAction::ExitPosition { sell: state.position.gt(Double::zero()) };
    }
    RiskAction::Continue
}

// ---- reasons to requote ------------------------------------------------------------------

/// Whether orders are to be refreshed, and why
#[derive(Clone, Copy, Debug, PartialEq, Eq, Structural)]
pub enum RefreshReason {
    NoRefresh,
    Initial,
    StopExit { sell: bool },
    Replenish,
    SameSideLock(Side),
    UrgentDrift(u32),
    NormalDrift(u32),
    SpreadChange { from: i32, to: i32 },
    QuoteTtl(Double),
    Periodic,
}

/// The distance between two prices in whole ticks.
pub open spec fn ticks_between(a: Double, b: Double, tick: Double) -> u32 {
    a.minus(b).magnitude().over(tick).saturated(0, u32::MAX as int) as u32
}

/// The distance between two prices in whole ticks.
pub fn tick_distance(a: Double, b: Double, tick: Double) -> (r: u32)
    ensures
        r == ticks_between(a, b, tick),
{
    a.sub(b).abs().div(tick).to_u32()
}

/// How far the mid has moved from the anchor, in ticks; not at all where there is none.
pub open spec fn drift(anchor: Option<Double>, mid: Double, tick: Double) -> u32 {
    match anchor {
        Some(a) => ticks_between(mid, a, tick),
        None => 0,
    }
}

/// How far the mid has moved from the anchor, in ticks.
pub fn drift_from(anchor: Option<Double>, mid: Double, tick: Double) -> (r: u32)
    ensures
        r == drift(anchor, mid, tick),
{
    match anchor {
        Some(a) => tick_distance(mid, a, tick),
        None => 0,
    }
}

/// The width of the market in whole ticks.
pub open spec fn market_ticks(bbo: Bbo, tick: Double) -> i32 {
    bbo.best_ask.minus(bbo.best_bid).over(tick).saturated(i32::MIN as int, i32::MAX as int) as i32
}

/// The width of the market in whole ticks.
pub fn market_width(bbo: &Bbo, tick: Double) -> (r: i32)
    ensures
        r == market_ticks(*bbo, tick),
{
    bbo.best_ask.sub(bbo.best_bid).div(tick).to_i32()
}

/// The width of the market differs from the one at the last quote by three ticks or more.
pub open spec fn width_changed(anchor: Option<i32>, current: i32) -> bool {
    anchor matches Some(a) && (current - a >= 3 || a - current >= 3)
}

/// How old the quotes are; very old where there are none.
pub open spec fn quote_age(s: MmModel, now: Double) -> Double {
    if zero().less(s.last_quote_ts) {
        now.minus(s.last_quote_ts)
    } else {
        of_int(999)
    }
}

/// There are orders on the side that the last fill has locked.
pub open spec fn locked_side(s: MmModel, now: Double) -> Option<Side> {
    if now.less(s.fill_lock_until) {
        match s.fill_lock_side {
            Some(Side::Buy) if s.buy_oids.len() > 0 => Some(Side::Buy),
            Some(Side::Sell) if s.sell_oids.len() > 0 => Some(Side::Sell),
            _ => None,
        }
    } else {
        None
    }
}

/// Whether and why the orders of a state are to be refreshed: the first reason that applies.
pub open spec fn refresh_of(config: Config, s: MmModel, now: Double, risk: RiskView) -> RefreshReason {
    match s.bbo {
        None => RefreshReason::NoRefresh,
        Some(bbo) => {
            let tick = config.token.tick_size;
            let drift_ticks = drift(s.anchor_price, bbo.mid, tick);
            let current = market_ticks(bbo, tick);
            if risk is ExitPosition {
                RefreshReason::StopExit { sell: risk->sell }
            } else if s.buy_oids.len() == 0 && s.sell_oids.len() == 0 {
                RefreshReason::Initial
            } else if s.buy_oids.len() == 0 || s.sell_oids.len() == 0 {
                RefreshReason::Replenish
            } else if drift_ticks >= config.timing.urgent_drift_ticks {
                RefreshReason::UrgentDrift(drift_ticks)
            } else if drift_ticks >= config.timing.drift_ticks {
                RefreshReason::NormalDrift(drift_ticks)
            } else if width_changed(s.anchor_spread_ticks, current) {
                RefreshReason::SpreadChange { from: s.anchor_spread_ticks->0, to: current }
            } else if config.timing.max_quote_ttl.at_most(quote_age(s, now)) {
                RefreshReason::QuoteTtl(quote_age(s, now))
            } else if config.timing.periodic_sync_sec.less(now.minus(s.last_sync_time)) {
                RefreshReason::Periodic
            } else {
                match locked_side(s, now) {
                    Some(side) => RefreshReason::SameSideLock(side),
                    None => RefreshReason::NoRefresh,
                }
            }
        },
    }
}

/// Evaluate whether orders need refreshing
pub fn should_refresh(config: &Config, state: &MmState, now: Double, risk: &RiskAction) -> (r:
    RefreshReason)
    ensures
        r == refresh_of(*config, state@, now, risk@),
{
    let tick = config.token.tick_size;
    let has_bids = state.buy_oids.len() > 0;
    let has_asks = state.sell_oids.len() > 0;
    let bbo = match state.bbo {
        Some(b) => b,
        None => return RefreshReason::NoRefresh,
    };
    if let RiskAction::ExitPosition { sell } = risk {
        return RefreshReason::StopExit { sell: *sell };
    }
    if !has_bids && !has_asks {
        return RefreshReason::Initial;
    }
    if !has_bids || !has_asks {
        return RefreshReason::Replenish;
    }
    let drift_ticks = drift_from(state.anchor_price, bbo.mid, tick);
    if drift_ticks >= config.timing.urgent_drift_ticks {
        return RefreshReason::UrgentDrift(drift_ticks);
    }
    if drift_ticks >= config.timing.drift_ticks {
        return RefreshReason::NormalDrift(drift_ticks);
    }
    if let Some(anchor_spread) = state.anchor_spread_ticks {
        let cur_spread = market_width(&bbo, tick);
        let gap: i64 = cur_spread as i64 - anchor_spread as i64;
        if gap >= 3 || gap <= -3 {
            return RefreshReason::SpreadChange { from: anchor_spread, to: cur_spread };
        }
    }
    let age = if state.last_quote_ts.gt(Double::zero()) {
        now.sub(state.last_quote_ts)
    } else {
        Double::from_u64(999)
    };
    if age.ge(config.timing.max_quote_ttl) {
        return RefreshReason::QuoteTtl(age);
    }
    if now.sub(state.last_sync_time).gt(config.timing.periodic_sync_sec) {
        return RefreshReason::Periodic;
    }
    if now.lt(state.fill_lock_until) {
        if let Some(side) = state.fill_lock_side {
            return RefreshReason::SameSideLock(side);
        }
    }
    RefreshReason::NoRefresh
}

// ---- limits on the quotes -------------------------------------------------------------------

/// A value with the given number of decimals, cut towards minus infinity.
pub open spec fn floored_to(value: Double, places: u32) -> Double {
    value.times(tens(places)).floored().over(tens(places))
}

/// A value with the given number of decimals, cut towards minus infinity.
pub fn floor_to_decimals(value: Double, places: u32) -> (r: Double)
    ensures
        r == floored_to(value, places),
{
    let factor = power_of_ten(places);
    value.mul(factor).floor().div(factor)
}

/// Bids and asks.
#[verifier::ext_equal]
pub struct Quote {
    pub bids: Seq<OrderLevel>,
    pub asks: Seq<OrderLevel>,
}

/// Beyond the position cap only the side that reduces the position is quoted.
pub open spec fn capped(config: Config, s: MmModel, q: Quote) -> Quote {
    if zero().less(config.risk.position_cap_usd) && zero().less(s.mid())
        && config.risk.position_cap_usd.less(s.position.magnitude().times(s.mid())) {
        if zero().less(s.position) {
            Quote { bids: Seq::empty(), ..q }
        } else if s.position.less(zero()) {
            Quote { asks: Seq::empty(), ..q }
        } else {
            q
        }
    } else {
        q
    }
}

/// How many of some fills were purchases.
pub open spec fn buys_among(s: Seq<(Side, Double)>) -> nat
    decreases s.len(),
{
    if s.len() == 0 {
        0
    } else {
        buys_among(s.drop_last()) + if s.last().0 == Side::Buy {
            1nat
        } else {
            0
        }
    }
}

/// How toxic the flow of the last ten fills is, from none to one: half by how one-sided they
/// are, half by the markout score.
pub open spec fn toxicity(fills: Seq<(Side, Double)>, markout_score: Double) -> Double {
    let recent = last(fills, 10);
    let buy_ratio = of_int(buys_among(recent) as int).over(of_int(recent.len() as int));
    let imbalance = buy_ratio.minus(quotient(5, 10)).magnitude().times(of_int(2)).clamped(
        zero(),
        of_int(1),
    );
    markout_score.times(quotient(5, 10)).plus(imbalance.times(quotient(5, 10))).clamped(
        zero(),
        of_int(1),
    )
}

/// What toxic flow does to the side that would build more inventory.
pub enum FlowLimit {
    /// Nothing.
    Open,
    /// Orders are scaled to a quarter (or, where not severe, a half) of their size and moved
    /// two ticks (or one) away.
    Narrow { severe: bool },
    /// No orders.
    Shut,
}

/// What a given toxicity does.
pub open spec fn flow_limit(toxic: Double) -> FlowLimit {
    if quotient(8, 10).less(toxic) {
        FlowLimit::Shut
    } else if quotient(6, 10).at_most(toxic) {
        FlowLimit::Narrow { severe: true }
    } else if quotient(4, 10).at_most(toxic) {
        FlowLimit::Narrow { severe: false }
    } else {
        FlowLimit::Open
    }
}

/// A level made smaller and moved away from the market; a bid stays above one tick.
pub open spec fn narrowed(
    l: OrderLevel,
    buy: bool,
    severe: bool,
    tick: Double,
    places: u32,
) -> OrderLevel {
    let scale = if severe {
        quotient(25, 100)
    } else {
        quotient(5, 10)
    };
    let shift = of_int(
        if severe {
            2
        } else {
            1
        },
    ).times(tick);
    OrderLevel {
        price: if buy {
            l.price.minus(shift).larger(tick)
        } else {
            l.price.plus(shift)
        },
        size: floored_to(l.size.times(scale), places),
    }
}

/// The levels made smaller, those dropped that are then below the smallest size.
pub open spec fn narrowed_levels(s: Seq<OrderLevel>, buy: bool, severe: bool, config: Config) -> Seq<
    OrderLevel,
>
    decreases s.len(),
{
    if s.len() == 0 {
        Seq::empty()
    } else {
        let before = narrowed_levels(s.drop_last(), buy, severe, config);
        let l = narrowed(
            s.last(),
            buy,
            severe,
            config.token.tick_size,
            decimals(config.token.min_size, config.logs.min_size_log10),
        );
        if config.token.min_size.at_most(l.size) {
            before.push(l)
        } else {
            before
        }
    }
}

/// One side under a limit.
pub open spec fn limited(s: Seq<OrderLevel>, buy: bool, limit: FlowLimit, config: Config) -> Seq<
    OrderLevel,
> {
    match limit {
        FlowLimit::Open => s,
        FlowLimit::Narrow { severe } => narrowed_levels(s, buy, severe, config),
        FlowLimit::Shut => Seq::empty(),
    }
}

/// The quote under the limit that toxic flow sets to the side that builds inventory.
pub open spec fn flow_limited(config: Config, s: MmModel, q: Quote) -> Quote {
    let limit = flow_limit(toxicity(s.recent_fill_sides, s.markout_score));
    if s.recent_fill_sides.len() == 0 {
        q
    } else if zero().less(s.position) {
        Quote { bids: limited(q.bids, true, limit, config), ..q }
    } else if s.position.less(zero()) {
        Quote { asks: limited(q.asks, false, limit, config), ..q }
    } else {
        q
    }
}

/// After a fill its side is not quoted for a while.
pub open spec fn fill_locked(s: MmModel, q: Quote, now: Double) -> Quote {
    if now.less(s.fill_lock_until) {
        match s.fill_lock_side {
            Some(Side::Buy) => Quote { bids: Seq::empty(), ..q },
            Some(Side::Sell) => Quote { asks: Seq::empty(), ..q },
            None => q,
        }
    } else {
        q
    }
}

/// The first `n` levels.
pub open spec fn leading(s: Seq<OrderLevel>, n: int) -> Seq<OrderLevel> {
    if s.len() <= n {
        s
    } else {
        s.take(n)
    }
}

/// What the reason for quoting leaves of the quote.
pub open spec fn reason_limited(s: MmModel, q: Quote, reason: RefreshReason) -> Quote {
    match reason {
        RefreshReason::StopExit { sell: true } => Quote {
            bids: Seq::empty(),
            asks: leading(q.asks, 3),
        },
        RefreshReason::StopExit { sell: false } => Quote {
            bids: leading(q.bids, 3),
            asks: Seq::empty(),
        },
        RefreshReason::UrgentDrift(_) => match s.anchor_price {
            Some(anchor) => if anchor.less(s.mid()) {
                Quote { bids: leading(q.bids, 1), ..q }
            } else {
                Quote { asks: leading(q.asks, 1), ..q }
            },
            None => q,
        },
        _ => q,
    }
}

/// What the limits leave of a quote.
pub open spec fn allowed(
    config: Config,
    s: MmModel,
    q: Quote,
    reason: RefreshReason,
    now: Double,
) -> Quote {
    reason_limited(s, fill_locked(s, flow_limited(config, s, capped(config, s, q)), now), reason)
}

fn count_buys(state: &MmState, from: usize) -> (r: usize)
    requires
        from <= state.recent_fill_sides@.len(),
    ensures
        r == buys_among(state@.recent_fill_sides.skip(from as int)),
        r <= state@.recent_fill_sides.len() - from,
{
    let ghost s = state.recent_fill_sides@;
    let mut n: usize = 0;
    let mut i: usize = from;
    while i < state.recent_fill_sides.len()
        invariant
            s == state.recent_fill_sides@,
            from <= i <= s.len(),
            n == buys_among(s.subrange(from as int, i as int)),
            n <= i - from,
        decreases s.len() - i,
    {
        assert(s.subrange(from as int, i + 1).drop_last() == s.subrange(from as int, i as int));
        if state.recent_fill_sides[i].0 == Side::Buy {
            n = n + 1;
        }
        i = i + 1;
    }
    assert(s.subrange(from as int, s.len() as int) == s.skip(from as int));
    n
}

/// How toxic the flow of the last ten fills is.
pub fn flow_toxicity(state: &MmState) -> (r: Double)
    ensures
        r == toxicity(state@.recent_fill_sides, state.markout_score),
{
    let n: usize = state.recent_fill_sides.len();
    let from: usize = if n <= 10 {
        0
    } else {
        n - 10
    };
    let ghost s = state.recent_fill_sides@;
    assert(s.skip(0) == s);
    assert(last(s, 10) == s.skip(from as int));
    let buys: usize = count_buys(state, from);
    let buy_ratio = Double::from_u64(buys as u64).div(Double::from_u64((n - from) as u64));
    let one = Double::from_u64(1);
    let half = Double::ratio(5, 10);
    let imbalance = buy_ratio.sub(half).abs().mul(Double::from_u64(2)).clamp(Double::zero(), one);
    state.markout_score.mul(half).add(imbalance.mul(half)).clamp(Double::zero(), one)
}

fn narrow_levels(v: &mut Vec<OrderLevel>, buy: bool, severe: bool, config: &Config)
    ensures
        final(v)@ == narrowed_levels(old(v)@, buy, severe, *config),
{
    let scale = if severe {
        Double::ratio(25, 100)
    } else {
        Double::ratio(5, 10)
    };
    let ticks: u64 = if severe {
        2
    } else {
        1
    };
    let tick = config.token.tick_size;
    let shift = Double::from_u64(ticks).mul(tick);
    let places = config.size_decimals();
    let mut out: Vec<OrderLevel> = Vec::new();
    let mut i: usize = 0;
    assert(v@.take(0) == Seq::<OrderLevel>::empty());
    while i < v.len()
        invariant
            i <= v@.len(),
            v@ == old(v)@,
            scale == if severe { quotient(25, 100) } else { quotient(5, 10) },
            shift == of_int(if severe { 2 } else { 1 }).times(tick),
            tick == config.token.tick_size,
            places == decimals(config.token.min_size, config.logs.min_size_log10),
            out@ == narrowed_levels(v@.take(i as int), buy, severe, *config),
        decreases v@.len() - i,
    {
        let l = v[i];
        assert(v@.take(i + 1).drop_last() == v@.take(i as int));
        let price = if buy {
            l.price.sub(shift).max(tick)
        } else {
            l.price.add(shift)
        };
        let size = floor_to_decimals(l.size.mul(scale), places);
        if size.ge(config.token.min_size) {
            out.push(OrderLevel { price, size });
        }
        i = i + 1;
    }
    assert(v@.take(v@.len() as int) == v@);
    *v = out;
}

fn limit_levels(v: &mut Vec<OrderLevel>, buy: bool, toxic: Double, config: &Config)
    ensures
        final(v)@ == limited(old(v)@, buy, flow_limit(toxic), *config),
{
    if toxic.gt(Double::ratio(8, 10)) {
        v.clear();
    } else if toxic.ge(Double::ratio(6, 10)) {
        narrow_levels(v, buy, true, config);
    } else if toxic.ge(Double::ratio(4, 10)) {
        narrow_levels(v, buy, false, config);
    }
}

/// Apply position limits to bid/ask levels
pub fn apply_position_limits(
    config: &Config,
    state: &MmState,
    bids: &mut Vec<OrderLevel>,
    asks: &mut Vec<OrderLevel>,
    reason: &RefreshReason,
    now: Double,
)
    ensures
        (Quote { bids: final(bids)@, asks: final(asks)@ }) == allowed(
            *config,
            state@,
            (Quote { bids: old(bids)@, asks: old(asks)@ }),
            *reason,
            now,
        ),
{
    let mid = state.mid();
    let position = state.position;
    let ghost q = Quote { bids: bids@, asks: asks@ };
    if config.risk.position_cap_usd.gt(Double::zero()) && mid.gt(Double::zero()) {
        let inv_notional = position.abs().mul(mid);
        if inv_notional.gt(config.risk.position_cap_usd) {
            if position.gt(Double::zero()) {
                bids.clear();
            } else if position.lt(Double::zero()) {
                asks.clear();
            }
        }
    }
    let ghost q1 = capped(*config, state@, q);
    assert(q1.bids == bids@ && q1.asks == asks@);
    if state.recent_fill_sides.len() > 0 {
        let toxic = flow_toxicity(state);
        if position.gt(Double::zero()) {
            limit_levels(bids, true, toxic, config);
        } else if position.lt(Double::zero()) {
            limit_levels(asks, false, toxic, config);
        }
    }
    let ghost q2 = flow_limited(*config, state@, q1);
    assert(q2.bids == bids@ && q2.asks == asks@);
    if now.lt(state.fill_lock_until) {
        if let Some(side) = state.fill_lock_side {
            match side {
                Side::Buy => bids.clear(),
                Side::Sell => asks.clear(),
            }
        }
    }
    let ghost q3 = fill_locked(state@, q2, now);
    assert(q3.bids == bids@ && q3.asks == asks@);
    match *reason {
        RefreshReason::StopExit { sell } => {
            if sell {
                bids.clear();
                asks.truncate(3);
            } else {
                asks.clear();
                bids.truncate(3);
            }
        },
        RefreshReason::UrgentDrift(_) => {
            if let Some(anchor) = state.anchor_price {
                if mid.gt(anchor) {
                    bids.truncate(1);
                } else {
                    asks.truncate(1);
                }
            }
        },
        _ => {},
    }
    let ghost q4 = reason_limited(state@, q3, *reason);
    assert(q4.bids == bids@);
    assert(q4.asks == asks@);
}

} // verus!
