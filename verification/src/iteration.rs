//! One round of trading, from the checks to the orders: a sequence of stages, each of which
//! asks the exchange for something and takes its reply.
use vstd::prelude::*;

use crate::config::Config;
use crate::decimal::{fixed, push_fixed};
use crate::double::{of_int, quotient, zero, Double};
use crate::exchange::{
    bulk_result, cancel_views, closing, countable, labelled, push_cancels, request_views,
    BulkView, HyperLiquidExchange, ModifyRequest, OrderRequest, RequestView,
};
use crate::json::{Json, JsonView};
use crate::markout::{markout_room, rule_of, update_markout_score};
use crate::quoting::{
    desired_of, desired_orders, diff_of, diff_orders, existing_of, existing_orders, join_oids,
    joined, Diff, DiffView,
};
use crate::risk::{
    allowed, apply_position_limits, check_risks, drift, drift_from, market_ticks, market_width,
    refresh_of, risk_of, should_refresh, Quote, RefreshReason, RiskAction, RiskView,
};
use crate::strategy::{calculate_levels, grid_delta, grid_levels, grid_ticks};
use crate::text::{digits, front, push_i32, push_u64, signed_digits, take_front};
use crate::trading::{managed_sides, sides_for, track_orders, tracked_after};
use crate::types::{Bbo, EventLevel, EventView, MmModel, MmState, Side};

verus! {

broadcast use vstd::std_specs::hash::group_hash_axioms;

// ---- stages ---------------------------------------------------------------------------------------

/// An order that closes a position, and what is told of it.
#[derive(Debug)]
pub struct Closing {
    pub is_buy: bool,
    pub size: Double,
    pub mid: Double,
    pub pnl: Double,
    /// The one order.
    pub orders: Vec<OrderRequest>,
}

/// An order that closes a position, with its texts as characters.
#[verifier::ext_equal]
pub struct ClosingView {
    pub is_buy: bool,
    pub size: Double,
    pub mid: Double,
    pub pnl: Double,
    pub orders: Seq<RequestView>,
}

impl View for Closing {
    type V = ClosingView;

    open spec fn view(&self) -> ClosingView {
        ClosingView {
            is_buy: self.is_buy,
            size: self.size,
            mid: self.mid,
            pnl: self.pnl,
            orders: request_views(self.orders@),
        }
    }
}

/// What is to be done about the orders, why, and at which quote.
#[derive(Debug)]
pub struct Plan {
    pub diff: Diff,
    pub reason: String,
    pub bbo: Bbo,
}

/// A plan with its texts as characters.
#[verifier::ext_equal]
pub struct PlanView {
    pub diff: DiffView,
    pub reason: Seq<char>,
    pub bbo: Bbo,
}

impl View for Plan {
    type V = PlanView;

    open spec fn view(&self) -> PlanView {
        PlanView { diff: self.diff@, reason: self.reason@, bbo: self.bbo }
    }
}

/// Where a round stands: what the exchange is being asked for.
#[derive(Debug)]
pub enum Stage {
    /// Nothing yet.
    Begin,
    /// To flatten the inventory at the end of a horizon.
    Flatten(Closing),
    /// To cancel all orders before a hedge.
    HedgeCancel { cancels: Vec<(String, u64)>, close: Closing },
    /// To hedge.
    HedgePlace(Closing),
    /// To cancel all orders in a trend.
    TrendCancel { cancels: Vec<(String, u64)>, close: Option<Closing> },
    /// To close a position that stands against the trend.
    TrendClose(Closing),
    /// To cancel all orders at a stop.
    Pull { cancels: Vec<(String, u64)> },
    /// To cancel the orders that are not wanted.
    CancelOrders(Plan),
    /// To modify the orders that are not where they are wanted.
    ModifyOrders(Plan),
    /// To place the orders that are missing.
    PlaceOrders(Plan),
    /// Nothing any more.
    Done,
}

/// Where a round stands, with its texts as characters.
#[verifier::ext_equal]
pub enum StageView {
    Begin,
    Flatten(ClosingView),
    HedgeCancel { cancels: Seq<(Seq<char>, u64)>, close: ClosingView },
    HedgePlace(ClosingView),
    TrendCancel { cancels: Seq<(Seq<char>, u64)>, close: Option<ClosingView> },
    TrendClose(ClosingView),
    Pull { cancels: Seq<(Seq<char>, u64)> },
    CancelOrders(PlanView),
    ModifyOrders(PlanView),
    PlaceOrders(PlanView),
    Done,
}

pub open spec fn close_view(o: Option<Closing>) -> Option<ClosingView> {
    match o {
        Some(c) => Some(c@),
        None => None,
    }
}

impl View for Stage {
    type V = StageView;

    open spec fn view(&self) -> StageView {
        match *self {
            Stage::Begin => StageView::Begin,
            Stage::Flatten(c) => StageView::Flatten(c@),
            Stage::HedgeCancel { cancels, close } => StageView::HedgeCancel {
                cancels: cancel_views(cancels@),
                close: close@,
            },
            Stage::HedgePlace(c) => StageView::HedgePlace(c@),
            Stage::TrendCancel { cancels, close } => StageView::TrendCancel {
                cancels: cancel_views(cancels@),
                close: close_view(close),
            },
            Stage::TrendClose(c) => StageView::TrendClose(c@),
            Stage::Pull { cancels } => StageView::Pull { cancels: cancel_views(cancels@) },
            Stage::CancelOrders(p) => StageView::CancelOrders(p@),
            Stage::ModifyOrders(p) => StageView::ModifyOrders(p@),
            Stage::PlaceOrders(p) => StageView::PlaceOrders(p@),
            Stage::Done => StageView::Done,
        }
    }
}

/// What the exchange replied.
#[derive(Debug)]
pub enum Reply {
    /// Nothing was asked.
    Begin,
    Answer(Json),
    /// The request failed, and why.
    Failed(String),
}

/// What the exchange replied, with its texts as characters.
#[verifier::ext_equal]
pub enum ReplyView {
    Begin,
    Answer(JsonView),
    Failed(Seq<char>),
}

impl View for Reply {
    type V = ReplyView;

    open spec fn view(&self) -> ReplyView {
        match *self {
            Reply::Begin => ReplyView::Begin,
            Reply::Answer(j) => ReplyView::Answer(j@),
            Reply::Failed(e) => ReplyView::Failed(e@),
        }
    }
}

/// What the exchange is asked for.
#[derive(Debug)]
pub enum Task<'a> {
    Nothing,
    Cancel(&'a Vec<(String, u64)>),
    Modify(&'a Vec<ModifyRequest>),
    Place(&'a Vec<OrderRequest>),
}

/// What the exchange is asked for, with its texts as characters.
#[verifier::ext_equal]
pub enum TaskView {
    Nothing,
    Cancel(Seq<(Seq<char>, u64)>),
    Modify(Seq<ModifyRequest>),
    Place(Seq<RequestView>),
}

pub open spec fn task_view(t: Task<'_>) -> TaskView {
    match t {
        Task::Nothing => TaskView::Nothing,
        Task::Cancel(v) => TaskView::Cancel(cancel_views(v@)),
        Task::Modify(v) => TaskView::Modify(v@),
        Task::Place(v) => TaskView::Place(request_views(v@)),
    }
}

impl StageView {
    /// What the exchange is asked for at a stage.
    pub open spec fn task(self) -> TaskView {
        match self {
            StageView::Begin => TaskView::Nothing,
            StageView::Flatten(c) => TaskView::Place(c.orders),
            StageView::HedgeCancel { cancels, close } => TaskView::Cancel(cancels),
            StageView::HedgePlace(c) => TaskView::Place(c.orders),
            StageView::TrendCancel { cancels, close } => TaskView::Cancel(cancels),
            StageView::TrendClose(c) => TaskView::Place(c.orders),
            StageView::Pull { cancels } => TaskView::Cancel(cancels),
            StageView::CancelOrders(p) => TaskView::Cancel(p.diff.cancels),
            StageView::ModifyOrders(p) => TaskView::Modify(p.diff.modifies),
            StageView::PlaceOrders(p) => TaskView::Place(p.diff.adds),
            StageView::Done => TaskView::Nothing,
        }
    }
}

impl Stage {
    /// What the exchange is asked for at a stage.
    pub fn task(&self) -> (r: Task<'_>)
        ensures
            task_view(r) == self@.task(),
    {
        match self {
            Stage::Begin => Task::Nothing,
            Stage::Flatten(c) => Task::Place(&c.orders),
            Stage::HedgeCancel { cancels, close } => Task::Cancel(cancels),
            Stage::HedgePlace(c) => Task::Place(&c.orders),
            Stage::TrendCancel { cancels, close } => Task::Cancel(cancels),
            Stage::TrendClose(c) => Task::Place(&c.orders),
            Stage::Pull { cancels } => Task::Cancel(cancels),
            Stage::CancelOrders(p) => Task::Cancel(&p.diff.cancels),
            Stage::ModifyOrders(p) => Task::Modify(&p.diff.modifies),
            Stage::PlaceOrders(p) => Task::Place(&p.diff.adds),
            Stage::Done => Task::Nothing,
        }
    }
}

// ---- texts ------------------------------------------------------------------------------------------

pub open spec fn side_word(is_buy: bool) -> Seq<char> {
    if is_buy {
        "BUY"@
    } else {
        "SELL"@
    }
}

fn push_side_word(s: &mut String, is_buy: bool)
    ensures
        final(s)@ == old(s)@ + side_word(is_buy),
{
    if is_buy {
        s.push_str("BUY");
    } else {
        s.push_str("SELL");
    }
}

/// The reason of a refresh in a word.
pub open spec fn reason_word(refresh: RefreshReason) -> Seq<char> {
    match refresh {
        RefreshReason::NoRefresh => ""@,
        RefreshReason::Initial => "Initial"@,
        RefreshReason::StopExit { sell } => if sell {
            "STOP SELL"@
        } else {
            "STOP BUY"@
        },
        RefreshReason::Replenish => "Replenish"@,
        RefreshReason::SameSideLock(side) => if side == Side::Buy {
            "LOCK BUY"@
        } else {
            "LOCK SELL"@
        },
        RefreshReason::UrgentDrift(_) => "DRIFT"@,
        RefreshReason::NormalDrift(_) => "Drift"@,
        RefreshReason::SpreadChange { from, to } => "SPREAD"@,
        RefreshReason::QuoteTtl(_) => "TTL"@,
        RefreshReason::Periodic => "Periodic"@,
    }
}

/// The reason of a refresh in a word.
pub fn reason_text(refresh: &RefreshReason) -> (r: &'static str)
    ensures
        r@ == reason_word(*refresh),
{
    match *refresh {
        RefreshReason::NoRefresh => "",
        RefreshReason::Initial => "Initial",
        RefreshReason::StopExit { sell } => {
            if sell {
                "STOP SELL"
            } else {
                "STOP BUY"
            }
        },
        RefreshReason::Replenish => "Replenish",
        RefreshReason::SameSideLock(side) => {
            if side == Side::Buy {
                "LOCK BUY"
            } else {
                "LOCK SELL"
            }
        },
        RefreshReason::UrgentDrift(_) => "DRIFT",
        RefreshReason::NormalDrift(_) => "Drift",
        RefreshReason::SpreadChange { from, to } => "SPREAD",
        RefreshReason::QuoteTtl(_) => "TTL",
        RefreshReason::Periodic => "Periodic",
    }
}

/// An event that is announced.
pub open spec fn event(
    ts_ms: u64,
    level: EventLevel,
    title: Seq<char>,
    details: Seq<char>,
) -> EventView {
    EventView { ts_ms, level, title, details }
}

// ---- the end of a horizon -----------------------------------------------------------------------------

/// The order that closes a position of the given sign, one percent beyond the mid.
#[verifier::opaque]
pub open spec fn closing_of(
    config: Config,
    position: Double,
    size: Double,
    mid: Double,
    pnl: Double,
) -> ClosingView {
    let is_buy = position.less(zero());
    ClosingView {
        is_buy,
        size,
        mid,
        pnl,
        orders: seq![
            closing(
                config.token.symbol@,
                is_buy,
                size,
                mid.times(
                    if is_buy {
                        quotient(101, 100)
                    } else {
                        quotient(99, 100)
                    },
                ),
            ),
        ],
    }
}

fn close_position(config: &Config, position: Double, size: Double, mid: Double, pnl: Double) -> (r:
    Closing)
    ensures
        r@ == closing_of(*config, position, size, mid, pnl),
{
    reveal(closing_of);
    let is_buy = position.lt(Double::zero());
    let factor = if is_buy {
        Double::ratio(101, 100)
    } else {
        Double::ratio(99, 100)
    };
    let price = mid.mul(factor);
    let mut orders: Vec<OrderRequest> = Vec::new();
    orders.push(
        HyperLiquidExchange::close_order(config.token.symbol.as_str(), is_buy, size, price),
    );
    assert(request_views(orders@) =~= seq![closing(config.token.symbol@, is_buy, size, price)]);
    Closing { is_buy, size, mid, pnl, orders }
}

/// The horizon has passed.
pub open spec fn window_over(config: Config, s: MmModel, now: Double) -> bool {
    config.as_model.t_secs.at_most(now.minus(of_int(s.as_t0_ms as int).over(of_int(1000))))
}

/// The inventory is too large to be carried over.
pub open spec fn flatten_wanted(config: Config, s: MmModel) -> bool {
    config.as_model.flatten_threshold_usd.less(s.position.magnitude().times(s.mid()))
        && zero().less(s.mid())
}

/// The state with a new horizon.
pub open spec fn window_reset(config: Config, s: MmModel, now: Double, ts_ms: u64) -> MmModel {
    MmModel {
        as_t0_ms: now.times(of_int(1000)).saturated(0, u64::MAX as int) as u64,
        t_remaining_secs: config.as_model.t_secs,
        ..s
    }.with_event(
        event(
            ts_ms,
            EventLevel::Info,
            "A-S Reset"@,
            "T-window reset | pos="@ + fixed(s.position, 4) + " | t_secs="@ + fixed(
                config.as_model.t_secs,
                0,
            ),
        ),
    )
}

/// The beginning of a round: a new horizon where the last has passed, and the order that
/// flattens the inventory then.
#[verifier::opaque]
pub open spec fn begun(config: Config, s: MmModel, now: Double, ts_ms: u64) -> (MmModel, StageView) {
    if window_over(config, s, now) {
        let reset = window_reset(config, s, now, ts_ms);
        if flatten_wanted(config, s) {
            (
                reset,
                StageView::Flatten(
                    closing_of(
                        config,
                        s.position,
                        s.position.magnitude().larger(config.token.min_size),
                        s.mid(),
                        s.unrealized_pnl,
                    ),
                ),
            )
        } else {
            guarded(config, reset, now, ts_ms)
        }
    } else {
        guarded(config, s, now, ts_ms)
    }
}

fn begin(config: &Config, state: &mut MmState, now: Double, ts_ms: u64) -> (r: Stage)
    requires
        config.momentum.enabled ==> config.momentum.lookback > 0,
    ensures
        (final(state)@, r@) == begun(*config, old(state)@, now, ts_ms),
{
    reveal(begun);
    let elapsed = now.sub(Double::from_u64(state.as_t0_ms).div(Double::from_u64(1000)));
    if !elapsed.ge(config.as_model.t_secs) {
        return guard(config, state, now, ts_ms);
    }
    let position = state.position;
    let mid = state.mid();
    let pnl = state.unrealized_pnl;
    let flatten = position.abs().mul(mid).gt(config.as_model.flatten_threshold_usd) && mid.gt(
        Double::zero(),
    );
    state.as_t0_ms = now.mul(Double::from_u64(1000)).to_u64();
    state.t_remaining_secs = config.as_model.t_secs;
    let mut text = "T-window reset | pos=".to_owned();
    push_fixed(&mut text, position, 4);
    text.push_str(" | t_secs=");
    push_fixed(&mut text, config.as_model.t_secs, 0);
    state.push_event(EventLevel::Info, "A-S Reset".to_owned(), text, ts_ms);
    if flatten {
        let size = position.abs().max(config.token.min_size);
        Stage::Flatten(close_position(config, position, size, mid, pnl))
    } else {
        guard(config, state, now, ts_ms)
    }
}

/// The state after the inventory was flattened.
#[verifier::opaque]
pub open spec fn flattened(s: MmModel, c: ClosingView, ts_ms: u64) -> MmModel {
    s.with_event(
        event(
            ts_ms,
            EventLevel::Warn,
            "A-S Flatten"@,
            "Session end flatten: "@ + side_word(c.is_buy) + " "@ + fixed(c.size, 4) + " units"@,
        ),
    )
}

fn note_flattened(state: &mut MmState, c: &Closing, ts_ms: u64)
    ensures
        final(state)@ == flattened(old(state)@, c@, ts_ms),
{
    reveal(flattened);
    let mut text = "Session end flatten: ".to_owned();
    push_side_word(&mut text, c.is_buy);
    text.push_str(" ");
    push_fixed(&mut text, c.size, 4);
    text.push_str(" units");
    state.push_event(EventLevel::Warn, "A-S Flatten".to_owned(), text, ts_ms);
}

// ---- stops and hedges ------------------------------------------------------------------------------------

/// The session has lost more than it may.
pub open spec fn loss_stop(config: Config, s: MmModel) -> bool {
    s.stats.session_pnl.less(config.as_model.max_loss_usd.negated())
}

/// The state after the session was stopped for its loss.
pub open spec fn loss_stopped(config: Config, s: MmModel, ts_ms: u64) -> MmModel {
    MmModel { running: false, ..s }.with_status(
        EventLevel::Error,
        "A-S STOP: max loss $"@ + fixed(config.as_model.max_loss_usd, 2) + " reached (PnL $"@
            + fixed(s.stats.session_pnl, 4) + ")"@,
        ts_ms,
    )
}

/// The open position has lost more than its share of the notional, and is to be closed.
pub open spec fn hedge_wanted(config: Config, s: MmModel) -> bool {
    let notional = s.position.magnitude().times(s.mid());
    &&& zero().less(config.risk.hedge_loss_pct)
    &&& !s.position.equal(zero())
    &&& zero().less(s.mid())
    &&& zero().less(notional)
    &&& s.unrealized_pnl.less(notional.times(config.risk.hedge_loss_pct).negated())
}

/// All orders of a state.
pub open spec fn all_orders(config: Config, s: MmModel) -> Seq<(Seq<char>, u64)> {
    labelled(config.token.symbol@, s.buy_oids + s.sell_oids)
}

fn take_orders(config: &Config, state: &mut MmState) -> (r: Vec<(String, u64)>)
    ensures
        cancel_views(r@) == all_orders(*config, old(state)@),
        final(state)@ == old(state)@.without_orders(),
{
    let mut r: Vec<(String, u64)> = Vec::new();
    let symbol = config.token.symbol.as_str();
    push_cancels(&mut r, symbol, &state.buy_oids);
    push_cancels(&mut r, symbol, &state.sell_oids);
    assert(cancel_views(r@) =~= all_orders(*config, old(state)@));
    state.drop_orders();
    r
}

/// The round after the flattening: the stop on losses, and the hedge.
#[verifier::opaque]
pub open spec fn guarded(config: Config, s: MmModel, now: Double, ts_ms: u64) -> (
    MmModel,
    StageView,
) {
    if loss_stop(config, s) {
        (loss_stopped(config, s, ts_ms), StageView::Done)
    } else if hedge_wanted(config, s) {
        let cancels = all_orders(config, s);
        let close = closing_of(
            config,
            s.position,
            s.position.magnitude(),
            s.mid(),
            s.unrealized_pnl,
        );
        (
            s.without_orders(),
            if cancels.len() > 0 {
                StageView::HedgeCancel { cancels, close }
            } else {
                StageView::HedgePlace(close)
            },
        )
    } else {
        filtered(config, s, now, ts_ms)
    }
}

fn guard(config: &Config, state: &mut MmState, now: Double, ts_ms: u64) -> (r: Stage)
    requires
        config.momentum.enabled ==> config.momentum.lookback > 0,
    ensures
        (final(state)@, r@) == guarded(*config, old(state)@, now, ts_ms),
{
    reveal(guarded);
    let session_pnl = state.stats.session_pnl;
    if session_pnl.lt(config.as_model.max_loss_usd.negate()) {
        state.running = false;
        let mut text = "A-S STOP: max loss $".to_owned();
        push_fixed(&mut text, config.as_model.max_loss_usd, 2);
        text.push_str(" reached (PnL $");
        push_fixed(&mut text, session_pnl, 4);
        text.push_str(")");
        state.set_status_with_level(EventLevel::Error, text, ts_ms);
        return Stage::Done;
    }
    let mid = state.mid();
    let position = state.position;
    let pnl = state.unrealized_pnl;
    let notional = position.abs().mul(mid);
    if config.risk.hedge_loss_pct.gt(Double::zero()) && !position.same(Double::zero()) && mid.gt(
        Double::zero(),
    ) && notional.gt(Double::zero()) && pnl.lt(
        notional.mul(config.risk.hedge_loss_pct).negate(),
    ) {
        let cancels = take_orders(config, state);
        let close = close_position(config, position, position.abs(), mid, pnl);
        assert(cancel_views(cancels@).len() == cancels@.len());
        if cancels.len() > 0 {
            return Stage::HedgeCancel { cancels, close };
        } else {
            return Stage::HedgePlace(close);
        }
    }
    filter(config, state, now, ts_ms)
}

/// The state after a hedge.
#[verifier::opaque]
pub open spec fn hedged(s: MmModel, c: ClosingView, ts_ms: u64) -> MmModel {
    MmModel {
        last_status: "HEDGE "@ + side_word(c.is_buy) + " "@ + fixed(c.size, 4) + " @ $"@ + fixed(
            c.mid,
            2,
        ),
        ..s.with_event(
            event(
                ts_ms,
                EventLevel::Warn,
                "HEDGE"@,
                "Position hedged: "@ + side_word(c.is_buy) + " "@ + fixed(c.size, 4) + " @ $"@
                    + fixed(c.mid, 2) + " | upnl="@ + fixed(c.pnl, 4),
            ),
        )
    }
}

fn note_hedged(state: &mut MmState, c: &Closing, ts_ms: u64)
    ensures
        final(state)@ == hedged(old(state)@, c@, ts_ms),
{
    reveal(hedged);
    let mut text = "Position hedged: ".to_owned();
    push_side_word(&mut text, c.is_buy);
    text.push_str(" ");
    push_fixed(&mut text, c.size, 4);
    text.push_str(" @ $");
    push_fixed(&mut text, c.mid, 2);
    text.push_str(" | upnl=");
    push_fixed(&mut text, c.pnl, 4);
    state.push_event(EventLevel::Warn, "HEDGE".to_owned(), text, ts_ms);
    let mut status = "HEDGE ".to_owned();
    push_side_word(&mut status, c.is_buy);
    status.push_str(" ");
    push_fixed(&mut status, c.size, 4);
    status.push_str(" @ $");
    push_fixed(&mut status, c.mid, 2);
    state.last_status = status;
}

// ---- trends ---------------------------------------------------------------------------------------------

/// The move of the price over the look-back, where there are enough prices.
pub open spec fn trend_move(config: Config, s: MmModel) -> Option<Double> {
    let n = s.price_history.len();
    if n >= config.momentum.lookback {
        Some(s.price_history[n - 1].minus(s.price_history[n - config.momentum.lookback]))
    } else {
        None
    }
}

/// A move in ticks, in either direction.
pub open spec fn move_ticks(config: Config, delta: Double) -> Double {
    delta.magnitude().over(config.token.tick_size)
}

/// A move is a trend.
pub open spec fn trending(config: Config, delta: Double) -> bool {
    config.momentum.min_move_ticks.at_most(move_ticks(config, delta))
}

/// The state with the quoting paused for a trend.
#[verifier::opaque]
pub open spec fn trend_paused(config: Config, s: MmModel, delta: Double, now: Double, ts_ms: u64) -> MmModel {
    let ticks = move_ticks(config, delta);
    MmModel {
        last_status: "TREND PAUSE "@ + fixed(config.momentum.pause_sec, 0) + "s ("@ + fixed(
            ticks,
            1,
        ) + "t)"@,
        ..MmModel {
            momentum_pause_until: now.plus(config.momentum.pause_sec),
            anchor_price: None,
            ..s.without_orders()
        }.with_event(
            event(
                ts_ms,
                EventLevel::Warn,
                "TREND"@,
                (if delta.less(zero()) {
                    "DOWN"@
                } else {
                    "UP"@
                }) + " "@ + fixed(ticks, 1) + "t move — pausing "@ + fixed(
                    config.momentum.pause_sec,
                    0,
                ) + "s"@,
            ),
        )
    }
}

/// The order that closes a position which stands against a trend.
pub open spec fn trend_close(config: Config, s: MmModel, delta: Double) -> Option<ClosingView> {
    let against = (delta.less(zero()) && zero().less(s.position)) || (zero().less(delta)
        && s.position.less(zero()));
    if against && zero().less(s.mid()) {
        Some(closing_of(config, s.position, s.position.magnitude(), s.mid(), s.unrealized_pnl))
    } else {
        None
    }
}

/// The round after the hedge: the pause in a trend.
#[verifier::opaque]
pub open spec fn filtered(config: Config, s: MmModel, now: Double, ts_ms: u64) -> (
    MmModel,
    StageView,
) {
    if !config.momentum.enabled {
        requoted(config, s, now)
    } else if now.less(s.momentum_pause_until) {
        (
            MmModel {
                last_status: "TREND PAUSE "@ + fixed(s.momentum_pause_until.minus(now), 0) + "s"@,
                ..s
            },
            StageView::Done,
        )
    } else {
        match trend_move(config, s) {
            Some(delta) if trending(config, delta) => {
                let cancels = all_orders(config, s);
                let close = trend_close(config, s, delta);
                (
                    trend_paused(config, s, delta, now, ts_ms),
                    if cancels.len() > 0 {
                        StageView::TrendCancel { cancels, close }
                    } else {
                        after_trend(close)
                    },
                )
            },
            _ => requoted(config, s, now),
        }
    }
}

/// The stage after the orders were cancelled in a trend.
pub open spec fn after_trend(close: Option<ClosingView>) -> StageView {
    match close {
        Some(c) => StageView::TrendClose(c),
        None => StageView::Done,
    }
}

fn note_trend(config: &Config, state: &mut MmState, delta: Double, now: Double, ts_ms: u64) -> (r:
    Vec<(String, u64)>)
    ensures
        cancel_views(r@) == all_orders(*config, old(state)@),
        final(state)@ == trend_paused(*config, old(state)@, delta, now, ts_ms),
{
    reveal(trend_paused);
    let ticks = delta.abs().div(config.token.tick_size);
    let cancels = take_orders(config, state);
    state.momentum_pause_until = now.add(config.momentum.pause_sec);
    state.anchor_price = None;
    let mut text = if delta.lt(Double::zero()) {
        "DOWN".to_owned()
    } else {
        "UP".to_owned()
    };
    text.push_str(" ");
    push_fixed(&mut text, ticks, 1);
    text.push_str("t move — pausing ");
    push_fixed(&mut text, config.momentum.pause_sec, 0);
    text.push_str("s");
    state.push_event(EventLevel::Warn, "TREND".to_owned(), text, ts_ms);
    let mut status = "TREND PAUSE ".to_owned();
    push_fixed(&mut status, config.momentum.pause_sec, 0);
    status.push_str("s (");
    push_fixed(&mut status, ticks, 1);
    status.push_str("t)");
    state.last_status = status;
    cancels
}

fn filter(config: &Config, state: &mut MmState, now: Double, ts_ms: u64) -> (r: Stage)
    requires
        config.momentum.enabled ==> config.momentum.lookback > 0,
    ensures
        (final(state)@, r@) == filtered(*config, old(state)@, now, ts_ms),
{
    reveal(filtered);
    if !config.momentum.enabled {
        return requote(config, state, now);
    }
    if now.lt(state.momentum_pause_until) {
        let left = state.momentum_pause_until.sub(now);
        let mut status = "TREND PAUSE ".to_owned();
        push_fixed(&mut status, left, 0);
        status.push_str("s");
        state.last_status = status;
        return Stage::Done;
    }
    let n: usize = state.price_history.len();
    if n >= config.momentum.lookback {
        let delta = state.price_history[n - 1].sub(
            state.price_history[n - config.momentum.lookback],
        );
        let ticks = delta.abs().div(config.token.tick_size);
        if ticks.ge(config.momentum.min_move_ticks) {
            let position = state.position;
            let mid = state.mid();
            let pnl = state.unrealized_pnl;
            let cancels = note_trend(config, state, delta, now, ts_ms);
            let against = (delta.lt(Double::zero()) && position.gt(Double::zero())) || (delta.gt(
                Double::zero(),
            ) && position.lt(Double::zero()));
            let close = if against && mid.gt(Double::zero()) {
                Some(close_position(config, position, position.abs(), mid, pnl))
            } else {
                None
            };
            assert(cancel_views(cancels@).len() == cancels@.len());
            if cancels.len() > 0 {
                return Stage::TrendCancel { cancels, close };
            }
            return match close {
                Some(c) => Stage::TrendClose(c),
                None => Stage::Done,
            };
        }
    }
    requote(config, state, now)
}

/// The state after a position was closed in a trend.
#[verifier::opaque]
pub open spec fn trend_closed(s: MmModel, c: ClosingView, ts_ms: u64) -> MmModel {
    s.with_event(
        event(
            ts_ms,
            EventLevel::Warn,
            "TREND CLOSE"@,
            "Closing "@ + (if c.is_buy {
                "SHORT"@
            } else {
                "LONG"@
            }) + " "@ + fixed(c.size, 4) + " against trend @ $"@ + fixed(c.mid, 2),
        ),
    )
}

fn note_trend_closed(state: &mut MmState, c: &Closing, ts_ms: u64)
    ensures
        final(state)@ == trend_closed(old(state)@, c@, ts_ms),
{
    reveal(trend_closed);
    let mut text = "Closing ".to_owned();
    if c.is_buy {
        text.push_str("SHORT");
    } else {
        text.push_str("LONG");
    }
    text.push_str(" ");
    push_fixed(&mut text, c.size, 4);
    text.push_str(" against trend @ $");
    push_fixed(&mut text, c.mid, 2);
    state.push_event(EventLevel::Warn, "TREND CLOSE".to_owned(), text, ts_ms);
}

// ---- quotes ----------------------------------------------------------------------------------------------

/// The state with the size of orders recovering, a minute after margin was wanting.
pub open spec fn recovered(s: MmModel, now: Double) -> MmModel {
    if zero().less(s.last_margin_reject_ts) && of_int(60).at_most(
        now.minus(s.last_margin_reject_ts),
    ) && s.size_scale.less(of_int(1)) {
        MmModel {
            size_scale: s.size_scale.plus(quotient(1, 10)).smaller(of_int(1)),
            last_margin_reject_ts: now,
            ..s
        }
    } else {
        s
    }
}

fn recover(state: &mut MmState, now: Double)
    ensures
        final(state)@ == recovered(old(state)@, now),
{
    let one = Double::from_u64(1);
    if state.last_margin_reject_ts.gt(Double::zero()) && now.sub(state.last_margin_reject_ts).ge(
        Double::from_u64(60),
    ) && state.size_scale.lt(one) {
        state.size_scale = state.size_scale.add(Double::ratio(1, 10)).min(one);
        state.last_margin_reject_ts = now;
    }
}

/// The state after a stop: without orders, and not running after an emergency.
pub open spec fn pulled(config: Config, s: MmModel, risk: RiskView) -> MmModel {
    match risk {
        RiskView::EmergencyStop(reason) => MmModel {
            running: false,
            last_status: "EMERGENCY: "@ + reason,
            ..s.without_orders()
        },
        RiskView::FeedStale => MmModel {
            last_status: "Feed stale > "@ + fixed(config.timing.feed_stale_sec, 0) + "s - pulled"@,
            ..s.without_orders()
        },
        _ => s,
    }
}

/// The stage that cancels some orders, if there are any.
pub open spec fn pull_stage(cancels: Seq<(Seq<char>, u64)>) -> StageView {
    if cancels.len() > 0 {
        StageView::Pull { cancels }
    } else {
        StageView::Done
    }
}

/// The round after the pause: the risk checks, and new quotes where there is a reason.
#[verifier::opaque]
pub open spec fn requoted(config: Config, s: MmModel, now: Double) -> (MmModel, StageView) {
    let s = recovered(s, now);
    match s.bbo {
        None => (s, StageView::Done),
        Some(bbo) => {
            let risk = risk_of(config, s, now);
            if risk is EmergencyStop || risk is FeedStale {
                (pulled(config, s, risk), pull_stage(all_orders(config, s)))
            } else {
                quoted(config, s, bbo, refresh_of(config, s, now, risk), now)
            }
        },
    }
}

/// A state with the given status, and nothing more to do.
pub open spec fn idle(s: MmModel, status: Seq<char>) -> (MmModel, StageView) {
    (MmModel { last_status: status, ..s }, StageView::Done)
}

/// The status of orders that are left as they are.
pub open spec fn stable_text(word: Seq<char>, mid: Double, ticks: u32) -> Seq<char> {
    word + " @ $"@ + fixed(mid, 2) + " | "@ + digits(ticks as nat) + "t drift"@
}

/// What is wanted of the orders of a state: the sides that are requoted, and what the limits
/// leave of the grid.
pub open spec fn wanted(config: Config, s: MmModel, bbo: Bbo, refresh: RefreshReason, now: Double) -> Quote {
    let (bids, asks) = grid_levels(bbo, s.position, config, s);
    allowed(config, with_spread(config, s, bbo), Quote { bids, asks }, refresh, now)
}

/// A state with the spread of its grid.
pub open spec fn with_spread(config: Config, s: MmModel, bbo: Bbo) -> MmModel {
    MmModel {
        current_spread_ticks: grid_ticks(
            grid_delta(bbo, s.position, config, s),
            config.token.tick_size,
        ),
        ..s
    }
}

/// What is to be done about the orders of a state.
#[verifier::opaque]
pub open spec fn diff_for(
    config: Config,
    s: MmModel,
    bbo: Bbo,
    refresh: RefreshReason,
    now: Double,
) -> DiffView {
    let (bids, asks) = sides_for(
        refresh,
        bbo,
        s.anchor_price,
        s.buy_oids.len() > 0,
        s.sell_oids.len() > 0,
    );
    diff_of(
        existing_of(s, bids, asks),
        desired_of(wanted(config, s, bbo, refresh, now), bids, asks),
        s.order_details,
        config.token.symbol@,
        config.token.tick_size,
        config.token.min_size,
    )
}

/// The round for a reason to quote: the grid, its limits, and what they ask of the orders.
#[verifier::opaque]
pub open spec fn quoted(config: Config, s: MmModel, bbo: Bbo, refresh: RefreshReason, now: Double) -> (
    MmModel,
    StageView,
) {
    let tick = config.token.tick_size;
    if refresh is NoRefresh {
        idle(s, stable_text("STABLE"@, bbo.mid, drift(s.anchor_price, bbo.mid, tick)))
    } else {
        let s1 = with_spread(config, s, bbo);
        let (bids, asks) = sides_for(
            refresh,
            bbo,
            s.anchor_price,
            s.buy_oids.len() > 0,
            s.sell_oids.len() > 0,
        );
        if !bids && !asks {
            idle(s1, reason_word(refresh) + " | holding opposite side"@)
        } else {
            let diff = diff_for(config, s, bbo, refresh, now);
            if diff.modifies.len() == 0 && diff.cancels.len() == 0 && diff.adds.len() == 0 {
                idle(
                    s1.with_kept(diff.kept),
                    stable_text("STABLE(keep)"@, bbo.mid, drift(s.anchor_price, bbo.mid, tick)),
                )
            } else {
                let plan = PlanView { diff, reason: reason_word(refresh), bbo };
                if diff.cancels.len() > 0 {
                    (s1, StageView::CancelOrders(plan))
                } else {
                    cleared(config, s1, plan, now)
                }
            }
        }
    }
}

fn stable_status(word: &str, mid: Double, ticks: u32) -> (r: String)
    ensures
        r@ == stable_text(word@, mid, ticks),
{
    let mut s = word.to_owned();
    s.push_str(" @ $");
    push_fixed(&mut s, mid, 2);
    s.push_str(" | ");
    push_u64(&mut s, ticks as u64);
    s.push_str("t drift");
    s
}

fn make_diff(
    config: &Config,
    state: &mut MmState,
    bbo: Bbo,
    refresh: &RefreshReason,
    manage: (bool, bool),
    now: Double,
) -> (r: Diff)
    requires
        manage == sides_for(
            *refresh,
            bbo,
            old(state)@.anchor_price,
            old(state)@.buy_oids.len() > 0,
            old(state)@.sell_oids.len() > 0,
        ),
    ensures
        final(state)@ == with_spread(*config, old(state)@, bbo),
        r@ == diff_for(*config, old(state)@, bbo, *refresh, now),
{
    reveal(diff_for);
    let (bids, asks, spread_ticks) = calculate_levels(&bbo, state.position, config, state);
    let mut bids = bids;
    let mut asks = asks;
    state.current_spread_ticks = spread_ticks;
    apply_position_limits(config, state, &mut bids, &mut asks, refresh, now);
    let ghost q = wanted(*config, old(state)@, bbo, *refresh, now);
    assert(q.bids == bids@ && q.asks == asks@);
    assert((Quote { bids: bids@, asks: asks@ }) == q);
    let desired = desired_orders(&bids, &asks, manage.0, manage.1);
    let existing = existing_orders(state, manage.0, manage.1);
    diff_orders(config, state, &existing, &desired)
}

fn quote(config: &Config, state: &mut MmState, bbo: Bbo, refresh: &RefreshReason, now: Double) -> (r:
    Stage)
    ensures
        (final(state)@, r@) == quoted(*config, old(state)@, bbo, *refresh, now),
{
    reveal(quoted);
    let tick = config.token.tick_size;
    if let RefreshReason::NoRefresh = refresh {
        let ticks = drift_from(state.anchor_price, bbo.mid, tick);
        state.last_status = stable_status("STABLE", bbo.mid, ticks);
        return Stage::Done;
    }
    let manage = managed_sides(
        refresh,
        bbo,
        state.anchor_price,
        state.buy_oids.len() > 0,
        state.sell_oids.len() > 0,
    );
    let diff = make_diff(config, state, bbo, refresh, manage, now);
    if !manage.0 && !manage.1 {
        let mut status = reason_text(refresh).to_owned();
        status.push_str(" | holding opposite side");
        state.last_status = status;
        return Stage::Done;
    }
    assert(diff@.cancels.len() == diff.cancels@.len());
    assert(diff@.adds.len() == diff.adds@.len());
    if diff.modifies.len() == 0 && diff.cancels.len() == 0 && diff.adds.len() == 0 {
        state.update_kept(&diff.kept);
        let ticks = drift_from(state.anchor_price, bbo.mid, tick);
        state.last_status = stable_status("STABLE(keep)", bbo.mid, ticks);
        return Stage::Done;
    }
    let cancel = diff.cancels.len() > 0;
    let plan = Plan { diff, reason: reason_text(refresh).to_owned(), bbo };
    if cancel {
        Stage::CancelOrders(plan)
    } else {
        clear(config, state, plan, now)
    }
}

fn requote(config: &Config, state: &mut MmState, now: Double) -> (r: Stage)
    ensures
        (final(state)@, r@) == requoted(*config, old(state)@, now),
{
    reveal(requoted);
    recover(state, now);
    let bbo = match state.bbo {
        Some(b) => b,
        None => return Stage::Done,
    };
    let risk = check_risks(config, state, now);
    let refresh = should_refresh(config, state, now, &risk);
    match &risk {
        RiskAction::EmergencyStop(reason) => {
            let cancels = take_orders(config, state);
            state.running = false;
            let mut status = "EMERGENCY: ".to_owned();
            status.push_str(reason.as_str());
            state.last_status = status;
            pull(cancels)
        },
        RiskAction::FeedStale => {
            let cancels = take_orders(config, state);
            let mut status = "Feed stale > ".to_owned();
            push_fixed(&mut status, config.timing.feed_stale_sec, 0);
            status.push_str("s - pulled");
            state.last_status = status;
            pull(cancels)
        },
        _ => quote(config, state, bbo, &refresh, now),
    }
}

fn pull(cancels: Vec<(String, u64)>) -> (r: Stage)
    ensures
        r@ == pull_stage(cancel_views(cancels@)),
{
    assert(cancel_views(cancels@).len() == cancels@.len());
    if cancels.len() > 0 {
        Stage::Pull { cancels }
    } else {
        Stage::Done
    }
}

// ---- carrying out a plan -------------------------------------------------------------------------------------

/// The state after the orders that are not wanted were cancelled.
#[verifier::opaque]
pub open spec fn cancelled(s: MmModel, plan: PlanView) -> MmModel {
    let c = s.without_cancelled(plan.diff.cancels, plan.diff.cancels.len() as int);
    if plan.diff.adds.len() > 0 {
        MmModel {
            stats: crate::types::Stats {
                cancel_repost_count: (c.stats.cancel_repost_count + 1) as u64,
                ..c.stats
            },
            ..c
        }
    } else {
        c
    }
}

/// A state with an error as its status, cut to `n` characters.
pub open spec fn with_failure(s: MmModel, word: Seq<char>, error: Seq<char>, n: int) -> MmModel {
    MmModel { last_status: word + front(error, n), ..s }
}

fn note_failure(state: &mut MmState, word: &str, error: &str, n: usize)
    ensures
        final(state)@ == with_failure(old(state)@, word@, error@, n as int),
{
    let short = take_front(error, n);
    let mut status = word.to_owned();
    status.push_str(short.as_str());
    state.last_status = status;
}

/// A plan after its cancellations.
#[verifier::opaque]
pub open spec fn cleared(config: Config, s: MmModel, plan: PlanView, now: Double) -> (
    MmModel,
    StageView,
) {
    if plan.diff.modifies.len() > 0 {
        (s, StageView::ModifyOrders(plan))
    } else {
        settled(config, s, plan, now)
    }
}

fn clear(config: &Config, state: &mut MmState, plan: Plan, now: Double) -> (r: Stage)
    ensures
        (final(state)@, r@) == cleared(*config, old(state)@, plan@, now),
{
    reveal(cleared);
    if plan.diff.modifies.len() > 0 {
        Stage::ModifyOrders(plan)
    } else {
        settle(config, state, plan, now)
    }
}

/// A plan after its modifications.
#[verifier::opaque]
pub open spec fn settled(config: Config, s: MmModel, plan: PlanView, now: Double) -> (
    MmModel,
    StageView,
) {
    if plan.diff.adds.len() > 0 {
        (s, StageView::PlaceOrders(plan))
    } else {
        (finished(config, s, plan, now), StageView::Done)
    }
}

/// A state anchored at the quote of a plan.
pub open spec fn anchored(config: Config, s: MmModel, plan: PlanView, now: Double) -> MmModel {
    MmModel {
        last_quote_ts: now,
        anchor_price: Some(plan.bbo.mid),
        anchor_spread_ticks: Some(market_ticks(plan.bbo, config.token.tick_size)),
        last_sync_time: now,
        ..s
    }
}

fn anchor(config: &Config, state: &mut MmState, bbo: &Bbo, now: Double)
    ensures
        final(state)@ == (MmModel {
            last_quote_ts: now,
            anchor_price: Some(bbo.mid),
            anchor_spread_ticks: Some(market_ticks(*bbo, config.token.tick_size)),
            last_sync_time: now,
            ..old(state)@
        }),
{
    state.last_quote_ts = now;
    state.anchor_price = Some(bbo.mid);
    state.anchor_spread_ticks = Some(market_width(bbo, config.token.tick_size));
    state.last_sync_time = now;
}

/// How many bids and asks rest, after the reason.
pub open spec fn count_text(s: MmModel, plan: PlanView) -> Seq<char> {
    plan.reason + " -> "@ + digits(s.buy_oids.len()) + "B/"@ + digits(s.sell_oids.len()) + "A"@
}

fn count_status(state: &MmState, plan: &Plan) -> (r: String)
    ensures
        r@ == count_text(state@, plan@),
{
    let mut s = plan.reason.clone();
    s.push_str(" -> ");
    push_u64(&mut s, state.buy_oids.len() as u64);
    s.push_str("B/");
    push_u64(&mut s, state.sell_oids.len() as u64);
    s.push_str("A");
    s
}

/// The state after a plan that adds nothing.
#[verifier::opaque]
pub open spec fn finished(config: Config, s: MmModel, plan: PlanView, now: Double) -> MmModel {
    let d = plan.diff;
    MmModel {
        cancel_pending_since: None,
        last_status: count_text(s, plan) + " mod:"@ + digits(d.modifies.len()) + " add:"@ + digits(
            d.adds.len(),
        ) + " keep:"@ + digits(d.kept.len()) + " cancel:"@ + digits(d.cancels.len()),
        ..anchored(config, s.with_kept(d.kept), plan, now)
    }
}

fn settle(config: &Config, state: &mut MmState, plan: Plan, now: Double) -> (r: Stage)
    ensures
        (final(state)@, r@) == settled(*config, old(state)@, plan@, now),
{
    reveal(finished);
    reveal(settled);
    assert(plan.diff@.adds.len() == plan.diff.adds@.len());
    assert(plan.diff@.cancels.len() == plan.diff.cancels@.len());
    if plan.diff.adds.len() > 0 {
        return Stage::PlaceOrders(plan);
    }
    state.update_kept(&plan.diff.kept);
    state.cancel_pending_since = None;
    anchor(config, state, &plan.bbo, now);
    let mut s = count_status(state, &plan);
    s.push_str(" mod:");
    push_u64(&mut s, plan.diff.modifies.len() as u64);
    s.push_str(" add:");
    push_u64(&mut s, plan.diff.adds.len() as u64);
    s.push_str(" keep:");
    push_u64(&mut s, plan.diff.kept.len() as u64);
    s.push_str(" cancel:");
    push_u64(&mut s, plan.diff.cancels.len() as u64);
    state.last_status = s;
    Stage::Done
}

/// The state with the orders that an answer says rest.
#[verifier::opaque]
pub open spec fn with_placed(s: MmModel, plan: PlanView, result: JsonView, now: Double) -> MmModel {
    let b = bulk_result(result, plan.diff.adds);
    let k = s.with_kept(plan.diff.kept);
    MmModel {
        buy_oids: joined(k.buy_oids, b.buy_oids, b.buy_oids.len() as int),
        sell_oids: joined(k.sell_oids, b.sell_oids, b.sell_oids.len() as int),
        order_details: tracked_after(k.order_details, result, plan.diff.adds, now),
        cancel_pending_since: None,
        ..k
    }
}

/// The state with what an answer says of the margin and of errors: orders become smaller where
/// margin is wanting, and larger again where nothing is.
#[verifier::opaque]
pub open spec fn judged(config: Config, s: MmModel, plan: PlanView, b: BulkView, now: Double) -> MmModel {
    if b.margin_errs > 0 {
        let scale = s.size_scale.times(config.margin.reject_decay).larger(
            config.margin.min_size_scale,
        );
        MmModel {
            size_scale: scale,
            margin_pause_until: now.plus(config.margin.reject_cooldown),
            last_margin_reject_ts: now,
            last_status: "Margin reject x"@ + digits(b.margin_errs) + " | scale="@ + fixed(
                scale,
                2,
            ),
            ..s
        }
    } else {
        match b.first_error {
            Some(error) => MmModel {
                last_status: count_text(s, plan) + " | "@ + front(error, 72),
                ..s
            },
            None => MmModel {
                size_scale: s.size_scale.plus(config.margin.recovery_step).smaller(of_int(1)),
                last_status: count_text(s, plan) + " @ $"@ + fixed(plan.bbo.mid, 2) + " S:"@
                    + signed_digits(s.current_spread_ticks as int) + "t (mod:"@ + digits(
                    plan.diff.modifies.len(),
                ) + " add:"@ + digits(plan.diff.adds.len()) + ")"@,
                ..s
            },
        }
    }
}

fn judge(
    config: &Config,
    state: &mut MmState,
    plan: &Plan,
    margin_errs: u32,
    first_error: &Option<String>,
    Ghost(b): Ghost<BulkView>,
    now: Double,
)
    requires
        b.margin_errs == margin_errs,
        b.first_error == crate::types::text_view(*first_error),
    ensures
        final(state)@ == judged(*config, old(state)@, plan@, b, now),
{
    reveal(judged);
    if margin_errs > 0 {
        let scale = state.size_scale.mul(config.margin.reject_decay).max(
            config.margin.min_size_scale,
        );
        state.size_scale = scale;
        state.margin_pause_until = now.add(config.margin.reject_cooldown);
        state.last_margin_reject_ts = now;
        let mut s = "Margin reject x".to_owned();
        push_u64(&mut s, margin_errs as u64);
        s.push_str(" | scale=");
        push_fixed(&mut s, scale, 2);
        state.last_status = s;
        return;
    }
    let mut s = count_status(state, plan);
    match first_error {
        Some(error) => {
            s.push_str(" | ");
            let short = take_front(error.as_str(), 72);
            s.push_str(short.as_str());
        },
        None => {
            state.size_scale = state.size_scale.add(config.margin.recovery_step).min(
                Double::from_u64(1),
            );
            s.push_str(" @ $");
            push_fixed(&mut s, plan.bbo.mid, 2);
            s.push_str(" S:");
            push_i32(&mut s, state.current_spread_ticks);
            s.push_str("t (mod:");
            push_u64(&mut s, plan.diff.modifies.len() as u64);
            s.push_str(" add:");
            assert(plan.diff@.adds.len() == plan.diff.adds@.len());
            push_u64(&mut s, plan.diff.adds.len() as u64);
            s.push_str(")");
        },
    }
    state.last_status = s;
}

/// The state after the exchange replied to new orders.
#[verifier::opaque]
pub open spec fn placed(config: Config, s: MmModel, plan: PlanView, reply: ReplyView, now: Double) -> MmModel {
    let after = match reply {
        ReplyView::Answer(result) => judged(
            config,
            with_placed(s, plan, result, now),
            plan,
            bulk_result(result, plan.diff.adds),
            now,
        ),
        ReplyView::Failed(error) => with_failure(s, "Order error: "@, error, 96),
        ReplyView::Begin => s,
    };
    anchored(config, after, plan, now)
}

fn note_placed(config: &Config, state: &mut MmState, plan: &Plan, reply: &Reply, now: Double)
    requires
        reply@ matches ReplyView::Answer(result) ==> countable(result),
    ensures
        final(state)@ == placed(*config, old(state)@, plan@, reply@, now),
{
    reveal(with_placed);
    reveal(placed);
    match reply {
        Reply::Answer(result) => {
            let b = HyperLiquidExchange::parse_bulk_result(result, &plan.diff.adds);
            let ghost bv = b@;
            state.update_kept(&plan.diff.kept);
            join_oids(&mut state.buy_oids, &b.buy_oids);
            join_oids(&mut state.sell_oids, &b.sell_oids);
            track_orders(&mut state.order_details, result, &plan.diff.adds, now);
            state.cancel_pending_since = None;
            assert(state@ =~= with_placed(old(state)@, plan@, result@, now));
            judge(config, state, plan, b.margin_errs, &b.first_error, Ghost(bv), now);
        },
        Reply::Failed(error) => {
            note_failure(state, "Order error: ", error.as_str(), 96);
        },
        Reply::Begin => {},
    }
    anchor(config, state, &plan.bbo, now);
}

// ---- the round -------------------------------------------------------------------------------------------------

/// The state and the stage after a reply.
pub open spec fn stepped(
    config: Config,
    s: MmModel,
    stage: StageView,
    reply: ReplyView,
    now: Double,
    ts_ms: u64,
) -> (MmModel, StageView) {
    match stage {
        StageView::Begin => begun(config, s, now, ts_ms),
        StageView::Flatten(c) => guarded(config, flattened(s, c, ts_ms), now, ts_ms),
        StageView::HedgeCancel { cancels, close } => (s, StageView::HedgePlace(close)),
        StageView::HedgePlace(c) => filtered(config, hedged(s, c, ts_ms), now, ts_ms),
        StageView::TrendCancel { cancels, close } => (s, after_trend(close)),
        StageView::TrendClose(c) => (trend_closed(s, c, ts_ms), StageView::Done),
        StageView::Pull { cancels } => (s, StageView::Done),
        StageView::CancelOrders(plan) => match reply {
            ReplyView::Failed(error) => (
                with_failure(s, "Cancel error: "@, error, 96),
                StageView::Done,
            ),
            _ => cleared(config, cancelled(s, plan), plan, now),
        },
        StageView::ModifyOrders(plan) => settled(
            config,
            match reply {
                ReplyView::Failed(error) => with_failure(s, "Modify error: "@, error, 80),
                _ => s.with_modified(plan.diff.modifies),
            },
            plan,
            now,
        ),
        StageView::PlaceOrders(plan) => (placed(config, s, plan, reply, now), StageView::Done),
        StageView::Done => (s, StageView::Done),
    }
}

/// Takes a reply to what a stage asked for, and decides what is asked for next. A round starts
/// with `Stage::Begin` and is over at `Stage::Done`; its time is `now`, and `ts_ms` is the time
/// under which events are announced.
pub fn step(
    config: &Config,
    state: &mut MmState,
    stage: Stage,
    reply: Reply,
    now: Double,
    ts_ms: u64,
) -> (r: Stage)
    requires
        config.momentum.enabled ==> config.momentum.lookback > 0,
        stage is CancelOrders ==> old(state).stats.cancel_repost_count < u64::MAX,
        stage is PlaceOrders ==> (reply@ matches ReplyView::Answer(result) ==> countable(result)),
    ensures
        (final(state)@, r@) == stepped(*config, old(state)@, stage@, reply@, now, ts_ms),
{
    match stage {
        Stage::Begin => begin(config, state, now, ts_ms),
        Stage::Flatten(c) => {
            note_flattened(state, &c, ts_ms);
            guard(config, state, now, ts_ms)
        },
        Stage::HedgeCancel { cancels, close } => Stage::HedgePlace(close),
        Stage::HedgePlace(c) => {
            note_hedged(state, &c, ts_ms);
            filter(config, state, now, ts_ms)
        },
        Stage::TrendCancel { cancels, close } => match close {
            Some(c) => Stage::TrendClose(c),
            None => Stage::Done,
        },
        Stage::TrendClose(c) => {
            note_trend_closed(state, &c, ts_ms);
            Stage::Done
        },
        Stage::Pull { cancels } => Stage::Done,
        Stage::CancelOrders(plan) => match reply {
            Reply::Failed(error) => {
                note_failure(state, "Cancel error: ", error.as_str(), 96);
                Stage::Done
            },
            _ => {
                note_cancelled(state, &plan);
                clear(config, state, plan, now)
            },
        },
        Stage::ModifyOrders(plan) => {
            match reply {
                Reply::Failed(error) => {
                    note_failure(state, "Modify error: ", error.as_str(), 80);
                },
                _ => {
                    state.update_modified(&plan.diff.modifies);
                },
            }
            settle(config, state, plan, now)
        },
        Stage::PlaceOrders(plan) => {
            note_placed(config, state, &plan, &reply, now);
            Stage::Done
        },
        Stage::Done => Stage::Done,
    }
}

proof fn lemma_without_cancelled_stats(s: MmModel, cancels: Seq<(Seq<char>, u64)>, n: int)
    ensures
        s.without_cancelled(cancels, n).stats == s.stats,
    decreases n,
{
    if n > 0 {
        lemma_without_cancelled_stats(s, cancels, n - 1);
    }
}

fn note_cancelled(state: &mut MmState, plan: &Plan)
    requires
        old(state).stats.cancel_repost_count < u64::MAX,
    ensures
        final(state)@ == cancelled(old(state)@, plan@),
{
    reveal(cancelled);
    assert(plan.diff@.adds.len() == plan.diff.adds@.len());
    assert(plan.diff@.cancels.len() == plan.diff.cancels@.len());
    proof {
        lemma_without_cancelled_stats(
            state@,
            plan@.diff.cancels,
            plan@.diff.cancels.len() as int,
        );
    }
    state.forget_cancelled(&plan.diff.cancels);
    if plan.diff.adds.len() > 0 {
        state.stats.cancel_repost_count = state.stats.cancel_repost_count + 1;
    }
}

/// Opens a round at the time `now`: samples the markouts, each fill having the given weight,
/// and takes the first stage.
pub fn open_round(
    config: &Config,
    state: &mut MmState,
    weights: &Vec<Double>,
    now: Double,
    ts_ms: u64,
) -> (r: Stage)
    requires
        config.momentum.enabled ==> config.momentum.lookback > 0,
        markout_room(old(state)@),
        weights@.len() == old(state)@.fill_history.len(),
    ensures
        (final(state)@, r@) == stepped(
            *config,
            old(state)@.with_markouts(weights@, now, rule_of(*config)),
            StageView::Begin,
            ReplyView::Begin,
            now,
            ts_ms,
        ),
{
    update_markout_score(state, now, config, weights);
    step(config, state, Stage::Begin, Reply::Begin, now, ts_ms)
}

} // verus!
