//! The state of the market maker and the records that it keeps.
use std::collections::HashMap;
use std::collections::VecDeque;
use std::time::{SystemTime, UNIX_EPOCH};

use vstd::prelude::*;

use crate::double::{of_int, zero, Double};
use crate::text::same_text;

verus! {

broadcast use vstd::std_specs::hash::group_hash_axioms;

// ---- market data and orders ---------------------------------------------------

/// Best bid/offer snapshot
#[derive(Clone, Copy, Debug, PartialEq, Eq, Structural)]
pub struct Bbo {
    pub best_bid: Double,
    pub best_ask: Double,
    pub mid: Double,
}

/// A single order level (price, size)
#[derive(Clone, Copy, Debug, PartialEq, Eq, Structural)]
pub struct OrderLevel {
    pub price: Double,
    pub size: Double,
}

/// Tracked order details
#[derive(Clone, Copy, Debug, PartialEq, Eq, Structural)]
pub struct TrackedOrder {
    pub price: Double,
    pub size: Double,
    pub is_buy: bool,
    pub ts: Double,
    /// The price that the quoting grid last asked for.
    pub target_price: Double,
    /// Distance between the resting and the wanted price, in ticks.
    pub drift_ticks: u32,
}

#[derive(Clone, Copy, Debug, PartialEq, Eq, Structural)]
pub enum Side {
    Buy,
    Sell,
}

/// Pending round-trip leg
#[derive(Clone, Copy, Debug, PartialEq, Eq, Structural)]
pub struct PendingRt {
    pub side: Side,
    pub price: Double,
    pub size: Double,
    pub time: Double,
}

/// Fill record for adverse markout tracking
#[derive(Clone, Copy, Debug, PartialEq, Eq, Structural)]
pub struct FillRecord {
    pub side: Side,
    pub fill_price: Double,
    pub time: Double,
    /// Whether the markout that drives the score has been sampled.
    pub checked: bool,
    pub checked_1s: bool,
    pub checked_5s: bool,
    pub checked_10s: bool,
    pub markout_1s: Option<Double>,
    pub markout_5s: Option<Double>,
    pub markout_10s: Option<Double>,
    /// When the filled order was placed.
    pub order_ts: Double,
}

/// How the short-term variance stands to the long-term one.
#[derive(Clone, Copy, Debug, PartialEq, Eq, Structural)]
pub enum VolRegime {
    Low,
    Normal,
    High,
    Extreme,
}

#[derive(Clone, Copy, Debug, PartialEq, Eq, Structural)]
pub struct SignalState {
    pub bias: Double,
    pub ema_gap_bps: Double,
    pub bollinger_z: Double,
    pub macd_hist_bps: Double,
    pub rsi: Double,
    pub quote_vwap_dev_bps: Double,
}

impl SignalState {
    pub open spec fn neutral_spec() -> SignalState {
        SignalState {
            bias: zero(),
            ema_gap_bps: zero(),
            bollinger_z: zero(),
            macd_hist_bps: zero(),
            rsi: of_int(50),
            quote_vwap_dev_bps: zero(),
        }
    }

    /// No signal in either direction.
    pub fn neutral() -> (r: SignalState)
        ensures
            r == SignalState::neutral_spec(),
    {
        SignalState {
            bias: Double::zero(),
            ema_gap_bps: Double::zero(),
            bollinger_z: Double::zero(),
            macd_hist_bps: Double::zero(),
            rsi: Double::from_u64(50),
            quote_vwap_dev_bps: Double::zero(),
        }
    }
}

// ---- statistics -----------------------------------------------------------------

/// Session statistics
#[derive(Clone, Copy, Debug, PartialEq, Eq, Structural)]
pub struct Stats {
    pub total_volume: Double,
    pub total_fees: Double,
    pub session_pnl: Double,
    pub fills_count: u64,
    pub maker_fills: u64,
    pub taker_fills: u64,
    pub best_pnl: Double,
    pub rt_count: u64,
    pub rt_profit: Double,
    pub order_batches: u64,
    pub orders_posted: u64,
    pub cancel_batches: u64,
    pub cancel_requests: u64,
    pub queue_time_sum: Double,
    pub queue_time_count: u64,
    pub spread_capture_sum: Double,
    pub spread_capture_count: u64,
    pub markout_1s_sum: Double,
    pub markout_1s_count: u64,
    pub markout_5s_sum: Double,
    pub markout_5s_count: u64,
    pub markout_10s_sum: Double,
    pub markout_10s_count: u64,
    pub cancel_repost_count: u64,
}

/// `sum / count`, zero where nothing was counted.
pub open spec fn mean(sum: Double, count: u64) -> Double {
    if count > 0 {
        sum.over(of_int(count as int))
    } else {
        zero()
    }
}

/// `part / whole`, zero where there is no whole.
pub open spec fn share(part: u64, whole: u64) -> Double {
    if whole > 0 {
        of_int(part as int).over(of_int(whole as int))
    } else {
        zero()
    }
}

fn mean_of(sum: Double, count: u64) -> (r: Double)
    ensures
        r == mean(sum, count),
{
    if count > 0 {
        sum.div(Double::from_u64(count))
    } else {
        Double::zero()
    }
}

fn share_of(part: u64, whole: u64) -> (r: Double)
    ensures
        r == share(part, whole),
{
    if whole > 0 {
        Double::from_u64(part).div(Double::from_u64(whole))
    } else {
        Double::zero()
    }
}

impl Stats {
    pub open spec fn fresh() -> Stats {
        Stats {
            total_volume: zero(),
            total_fees: zero(),
            session_pnl: zero(),
            fills_count: 0,
            maker_fills: 0,
            taker_fills: 0,
            best_pnl: zero(),
            rt_count: 0,
            rt_profit: zero(),
            order_batches: 0,
            orders_posted: 0,
            cancel_batches: 0,
            cancel_requests: 0,
            queue_time_sum: zero(),
            queue_time_count: 0,
            spread_capture_sum: zero(),
            spread_capture_count: 0,
            markout_1s_sum: zero(),
            markout_1s_count: 0,
            markout_5s_sum: zero(),
            markout_5s_count: 0,
            markout_10s_sum: zero(),
            markout_10s_count: 0,
            cancel_repost_count: 0,
        }
    }

    pub fn new() -> (r: Stats)
        ensures
            r == Stats::fresh(),
    {
        Stats {
            total_volume: Double::zero(),
            total_fees: Double::zero(),
            session_pnl: Double::zero(),
            fills_count: 0,
            maker_fills: 0,
            taker_fills: 0,
            best_pnl: Double::zero(),
            rt_count: 0,
            rt_profit: Double::zero(),
            order_batches: 0,
            orders_posted: 0,
            cancel_batches: 0,
            cancel_requests: 0,
            queue_time_sum: Double::zero(),
            queue_time_count: 0,
            spread_capture_sum: Double::zero(),
            spread_capture_count: 0,
            markout_1s_sum: Double::zero(),
            markout_1s_count: 0,
            markout_5s_sum: Double::zero(),
            markout_5s_count: 0,
            markout_10s_sum: Double::zero(),
            markout_10s_count: 0,
            cancel_repost_count: 0,
        }
    }

    /// Fees net of profit, per million of volume; zero before any volume.
    pub open spec fn cost_per_million_spec(self) -> Double {
        if zero().less(self.total_volume) {
            self.total_fees.minus(self.session_pnl).over(self.total_volume.over(of_int(1_000_000)))
        } else {
            zero()
        }
    }

    pub fn cost_per_million(&self) -> (r: Double)
        ensures
            r == self.cost_per_million_spec(),
    {
        if self.total_volume.gt(Double::zero()) {
            let net = self.total_fees.sub(self.session_pnl);
            net.div(self.total_volume.div(Double::from_u64(1_000_000)))
        } else {
            Double::zero()
        }
    }

    /// The share of fills that were maker fills.
    pub fn maker_ratio(&self) -> (r: Double)
        requires
            self.maker_fills + self.taker_fills <= u64::MAX,
        ensures
            r == share(self.maker_fills, (self.maker_fills + self.taker_fills) as u64),
    {
        share_of(self.maker_fills, self.maker_fills + self.taker_fills)
    }

    /// Fills that belong to a completed round trip, as a share of all fills.
    pub open spec fn rt_ratio_spec(self) -> Double {
        if self.rt_count > 0 {
            share((self.rt_count * 2) as u64, self.fills_count)
        } else {
            zero()
        }
    }

    pub fn rt_ratio(&self) -> (r: Double)
        requires
            self.rt_count * 2 <= u64::MAX,
        ensures
            r == self.rt_ratio_spec(),
    {
        if self.rt_count > 0 && self.fills_count > 0 {
            share_of(self.rt_count * 2, self.fills_count)
        } else {
            Double::zero()
        }
    }

    /// Fills per posted order.
    pub fn fill_ratio(&self) -> (r: Double)
        ensures
            r == share(self.fills_count, self.orders_posted),
    {
        share_of(self.fills_count, self.orders_posted)
    }

    /// Cancel requests per posted order.
    pub fn cancel_ratio(&self) -> (r: Double)
        ensures
            r == share(self.cancel_requests, self.orders_posted),
    {
        share_of(self.cancel_requests, self.orders_posted)
    }

    /// Mean time between placing an order and its fill.
    pub fn avg_queue_time(&self) -> (r: Double)
        ensures
            r == mean(self.queue_time_sum, self.queue_time_count),
    {
        mean_of(self.queue_time_sum, self.queue_time_count)
    }

    /// Mean distance between the fill price and the mid, in our favour.
    pub fn avg_spread_capture(&self) -> (r: Double)
        ensures
            r == mean(self.spread_capture_sum, self.spread_capture_count),
    {
        mean_of(self.spread_capture_sum, self.spread_capture_count)
    }

    pub fn avg_markout_1s(&self) -> (r: Double)
        ensures
            r == mean(self.markout_1s_sum, self.markout_1s_count),
    {
        mean_of(self.markout_1s_sum, self.markout_1s_count)
    }

    pub fn avg_markout_5s(&self) -> (r: Double)
        ensures
            r == mean(self.markout_5s_sum, self.markout_5s_count),
    {
        mean_of(self.markout_5s_sum, self.markout_5s_count)
    }

    pub fn avg_markout_10s(&self) -> (r: Double)
        ensures
            r == mean(self.markout_10s_sum, self.markout_10s_count),
    {
        mean_of(self.markout_10s_sum, self.markout_10s_count)
    }
}

// ---- events and history ------------------------------------------------------------

#[derive(Clone, Copy, Debug, PartialEq, Eq, Structural)]
pub enum EventLevel {
    Info,
    Success,
    Warn,
    Error,
}

#[derive(Clone, Debug)]
pub struct UiEvent {
    pub ts_ms: u64,
    pub level: EventLevel,
    pub title: String,
    pub details: String,
}

/// An event with its texts as characters.
pub struct EventView {
    pub ts_ms: u64,
    pub level: EventLevel,
    pub title: Seq<char>,
    pub details: Seq<char>,
}

impl View for UiEvent {
    type V = EventView;

    open spec fn view(&self) -> EventView {
        EventView {
            ts_ms: self.ts_ms,
            level: self.level,
            title: self.title@,
            details: self.details@,
        }
    }
}

pub open spec fn event_views(s: Seq<UiEvent>) -> Seq<EventView> {
    s.map_values(|e: UiEvent| e@)
}

#[derive(Clone, Copy, Debug, PartialEq, Eq, Structural)]
pub struct HistoryPoint {
    pub ts_ms: u64,
    pub mid: Double,
    pub session_pnl: Double,
    pub position: Double,
    pub spread_ticks: i32,
    pub volatility: Double,
    pub inventory_notional: Double,
    pub drawdown: Double,
}

// ---- the clock -----------------------------------------------------------------------

/// What the system clock reads since the epoch, in whole seconds and the nanoseconds
/// beyond them (`SystemTime::now`, measured from `UNIX_EPOCH`); nothing where it stands
/// before the epoch. Of the reading it is only promised that the nanoseconds are less
/// than a second, as `Duration::subsec_nanos` says.
#[verifier::external_body]
fn read_clock() -> (r: Option<(u64, u32)>)
    ensures
        r matches Some((_, nanos)) ==> nanos < 1_000_000_000,
{
    match SystemTime::now().duration_since(UNIX_EPOCH) {
        Ok(d) => Some((d.as_secs(), d.subsec_nanos())),
        Err(_) => None,
    }
}

/// Milliseconds out of seconds and nanoseconds, in the range of `u64`.
pub open spec fn whole_millis(secs: u64, nanos: u32) -> nat {
    (secs * 1000 + nanos / 1_000_000) as nat
}

/// The milliseconds of a reading of `secs` seconds and `nanos` nanoseconds; the upper
/// bits of what does not fit are dropped.
pub fn millis(secs: u64, nanos: u32) -> (r: u64)
    ensures
        r == whole_millis(secs, nanos) % 0x1_0000_0000_0000_0000,
{
    ((secs as u128 * 1000 + (nanos / 1_000_000) as u128) % 0x1_0000_0000_0000_0000) as u64
}

/// Seconds out of seconds and nanoseconds, as a double.
pub open spec fn double_secs(secs: u64, nanos: u32) -> Double {
    of_int(secs as int).plus(of_int(nanos as int).over(of_int(1_000_000_000)))
}

/// The reading of `secs` seconds and `nanos` nanoseconds, in seconds.
pub fn seconds(secs: u64, nanos: u32) -> (r: Double)
    ensures
        r == double_secs(secs, nanos),
{
    Double::from_u64(secs).add(
        Double::from_u64(nanos as u64).div(Double::from_u64(1_000_000_000)),
    )
}

/// The milliseconds of what the clock read: nothing exactly where it read nothing.
pub fn reading_millis(reading: Option<(u64, u32)>) -> (r: Option<u64>)
    ensures
        r is Some <==> reading is Some,
        reading matches Some((secs, nanos)) ==> r == Some(
            (whole_millis(secs, nanos) % 0x1_0000_0000_0000_0000) as u64,
        ),
{
    match reading {
        Some((secs, nanos)) => Some(millis(secs, nanos)),
        None => None,
    }
}

/// The seconds of what the clock read: nothing exactly where it read nothing.
pub fn reading_seconds(reading: Option<(u64, u32)>) -> (r: Option<Double>)
    ensures
        r is Some <==> reading is Some,
        reading matches Some((secs, nanos)) ==> r == Some(double_secs(secs, nanos)),
{
    match reading {
        Some((secs, nanos)) => Some(seconds(secs, nanos)),
        None => None,
    }
}

/// The time in milliseconds since the epoch; nothing where the clock stands before it.
/// What the clock reads is not promised; `reading_millis` says what becomes of a reading.
pub fn now_ts_ms() -> (r: Option<u64>)
    ensures
        r matches Some(t) ==> exists|secs: u64, nanos: u32|
            nanos < 1_000_000_000 && t == #[trigger] whole_millis(secs, nanos)
                % 0x1_0000_0000_0000_0000,
{
    reading_millis(read_clock())
}

/// The time in seconds since the epoch; nothing where the clock stands before it.
/// What the clock reads is not promised; `reading_seconds` says what becomes of a reading.
pub fn now_secs() -> (r: Option<Double>)
    ensures
        r matches Some(t) ==> exists|secs: u64, nanos: u32|
            nanos < 1_000_000_000 && t == #[trigger] double_secs(secs, nanos),
{
    reading_seconds(read_clock())
}

// ---- the state -------------------------------------------------------------------------

/// How many events are kept.
pub const MAX_EVENTS: usize = 80;

/// How many history points are kept.
pub const MAX_HISTORY: usize = 360;

/// Milliseconds between two history points.
pub const SAMPLE_MS: u64 = 1_000;

/// Core market maker state
pub struct MmState {
    // Position
    pub position: Double,
    pub unrealized_pnl: Double,
    pub entry_price: Option<Double>,
    pub position_margin: Double,
    pub equity: Double,
    // Best bid and offer
    pub bbo: Option<Bbo>,
    // Orders
    pub buy_oids: Vec<u64>,
    pub sell_oids: Vec<u64>,
    pub order_details: HashMap<u64, TrackedOrder>,
    pub fill_lock_side: Option<Side>,
    pub fill_lock_until: Double,
    pub cancel_pending_since: Option<Double>,
    pub last_cancel_check_ts: Double,
    // Anchoring
    pub anchor_price: Option<Double>,
    pub anchor_spread_ticks: Option<i32>,
    // Volatility
    pub price_history: VecDeque<Double>,
    pub volatility: Double,
    pub signals: SignalState,
    pub ewma_variance: Double,
    pub long_term_variance: Double,
    pub last_variance_update_ts: Double,
    pub last_mid_for_variance: Double,
    pub vol_regime: VolRegime,
    // Order book
    pub book_imbalance: Double,
    pub book_imbalance_ema: Double,
    // Round trips
    pub pending_rts: Vec<PendingRt>,
    pub recent_rt_pnls: VecDeque<Double>,
    pub last_fill_time_rt: Double,
    pub waiting_for_rt: bool,
    pub rt_spread_adj: i32,
    // Toxic flow detection
    pub consecutive_buy_fills: u32,
    pub consecutive_sell_fills: u32,
    pub adverse_fill_count: u32,
    pub recent_fill_sides: VecDeque<(Side, Double)>,
    // Adverse markout tracking
    pub fill_history: VecDeque<FillRecord>,
    pub markout_score: Double,
    // Timing
    pub last_quote_ts: Double,
    pub last_api_sync_ts: Double,
    pub last_sync_time: Double,
    pub last_close_ts: Double,
    pub last_ws_msg_ts: Double,
    // Margin
    pub size_scale: Double,
    pub margin_pause_until: Double,
    pub momentum_pause_until: Double,
    pub last_margin_reject_ts: Double,
    // Spread
    pub current_spread_ticks: i32,
    // Statistics
    pub stats: Stats,
    /// The ids of the fills that were counted, each once, in order of arrival.
    pub processed_fill_ids: Vec<String>,
    // Avellaneda-Stoikov
    pub as_t0_ms: u64,
    pub t_remaining_secs: Double,
    pub reservation_price: Double,
    pub as_delta: Double,
    // Session
    pub start_ts_ms: u64,
    pub running: bool,
    pub trading_enabled: bool,
    pub manual_mode: bool,
    pub error_message: Option<String>,
    pub last_status: String,
    pub recent_events: VecDeque<UiEvent>,
    pub metrics_history: VecDeque<HistoryPoint>,
    pub last_metrics_sample_ms: u64,
}

/// The state as mathematical values.
#[verifier::ext_equal]
pub struct MmModel {
    pub position: Double,
    pub unrealized_pnl: Double,
    pub entry_price: Option<Double>,
    pub position_margin: Double,
    pub equity: Double,
    pub bbo: Option<Bbo>,
    pub buy_oids: Seq<u64>,
    pub sell_oids: Seq<u64>,
    pub order_details: Map<u64, TrackedOrder>,
    pub fill_lock_side: Option<Side>,
    pub fill_lock_until: Double,
    pub cancel_pending_since: Option<Double>,
    pub last_cancel_check_ts: Double,
    pub anchor_price: Option<Double>,
    pub anchor_spread_ticks: Option<i32>,
    pub price_history: Seq<Double>,
    pub volatility: Double,
    pub signals: SignalState,
    pub ewma_variance: Double,
    pub long_term_variance: Double,
    pub last_variance_update_ts: Double,
    pub last_mid_for_variance: Double,
    pub vol_regime: VolRegime,
    pub book_imbalance: Double,
    pub book_imbalance_ema: Double,
    pub pending_rts: Seq<PendingRt>,
    pub recent_rt_pnls: Seq<Double>,
    pub last_fill_time_rt: Double,
    pub waiting_for_rt: bool,
    pub rt_spread_adj: i32,
    pub consecutive_buy_fills: u32,
    pub consecutive_sell_fills: u32,
    pub adverse_fill_count: u32,
    pub recent_fill_sides: Seq<(Side, Double)>,
    pub fill_history: Seq<FillRecord>,
    pub markout_score: Double,
    pub last_quote_ts: Double,
    pub last_api_sync_ts: Double,
    pub last_sync_time: Double,
    pub last_close_ts: Double,
    pub last_ws_msg_ts: Double,
    pub size_scale: Double,
    pub margin_pause_until: Double,
    pub momentum_pause_until: Double,
    pub last_margin_reject_ts: Double,
    pub current_spread_ticks: i32,
    pub stats: Stats,
    pub processed_fill_ids: Seq<Seq<char>>,
    pub as_t0_ms: u64,
    pub t_remaining_secs: Double,
    pub reservation_price: Double,
    pub as_delta: Double,
    pub start_ts_ms: u64,
    pub running: bool,
    pub trading_enabled: bool,
    pub manual_mode: bool,
    pub error_message: Option<Seq<char>>,
    pub last_status: Seq<char>,
    pub recent_events: Seq<EventView>,
    pub metrics_history: Seq<HistoryPoint>,
    pub last_metrics_sample_ms: u64,
}

pub open spec fn text_view(o: Option<String>) -> Option<Seq<char>> {
    match o {
        Some(s) => Some(s@),
        None => None,
    }
}

pub open spec fn texts(s: Seq<String>) -> Seq<Seq<char>> {
    s.map_values(|t: String| t@)
}

impl View for MmState {
    type V = MmModel;

    open spec fn view(&self) -> MmModel {
        MmModel {
            position: self.position,
            unrealized_pnl: self.unrealized_pnl,
            entry_price: self.entry_price,
            position_margin: self.position_margin,
            equity: self.equity,
            bbo: self.bbo,
            buy_oids: self.buy_oids@,
            sell_oids: self.sell_oids@,
            order_details: self.order_details@,
            fill_lock_side: self.fill_lock_side,
            fill_lock_until: self.fill_lock_until,
            cancel_pending_since: self.cancel_pending_since,
            last_cancel_check_ts: self.last_cancel_check_ts,
            anchor_price: self.anchor_price,
            anchor_spread_ticks: self.anchor_spread_ticks,
            price_history: self.price_history@,
            volatility: self.volatility,
            signals: self.signals,
            ewma_variance: self.ewma_variance,
            long_term_variance: self.long_term_variance,
            last_variance_update_ts: self.last_variance_update_ts,
            last_mid_for_variance: self.last_mid_for_variance,
            vol_regime: self.vol_regime,
            book_imbalance: self.book_imbalance,
            book_imbalance_ema: self.book_imbalance_ema,
            pending_rts: self.pending_rts@,
            recent_rt_pnls: self.recent_rt_pnls@,
            last_fill_time_rt: self.last_fill_time_rt,
            waiting_for_rt: self.waiting_for_rt,
            rt_spread_adj: self.rt_spread_adj,
            consecutive_buy_fills: self.consecutive_buy_fills,
            consecutive_sell_fills: self.consecutive_sell_fills,
            adverse_fill_count: self.adverse_fill_count,
            recent_fill_sides: self.recent_fill_sides@,
            fill_history: self.fill_history@,
            markout_score: self.markout_score,
            last_quote_ts: self.last_quote_ts,
            last_api_sync_ts: self.last_api_sync_ts,
            last_sync_time: self.last_sync_time,
            last_close_ts: self.last_close_ts,
            last_ws_msg_ts: self.last_ws_msg_ts,
            size_scale: self.size_scale,
            margin_pause_until: self.margin_pause_until,
            momentum_pause_until: self.momentum_pause_until,
            last_margin_reject_ts: self.last_margin_reject_ts,
            current_spread_ticks: self.current_spread_ticks,
            stats: self.stats,
            processed_fill_ids: texts(self.processed_fill_ids@),
            as_t0_ms: self.as_t0_ms,
            t_remaining_secs: self.t_remaining_secs,
            reservation_price: self.reservation_price,
            as_delta: self.as_delta,
            start_ts_ms: self.start_ts_ms,
            running: self.running,
            trading_enabled: self.trading_enabled,
            manual_mode: self.manual_mode,
            error_message: text_view(self.error_message),
            last_status: self.last_status@,
            recent_events: event_views(self.recent_events@),
            metrics_history: self.metrics_history@,
            last_metrics_sample_ms: self.last_metrics_sample_ms,
        }
    }
}

/// The first `n` items.
pub open spec fn first<A>(s: Seq<A>, n: int) -> Seq<A> {
    if s.len() <= n {
        s
    } else {
        s.take(n)
    }
}

/// The last `n` items.
pub open spec fn last<A>(s: Seq<A>, n: int) -> Seq<A> {
    if s.len() <= n {
        s
    } else {
        s.skip(s.len() - n)
    }
}

impl MmModel {
    /// The mid price, zero before any quote came.
    pub open spec fn mid(self) -> Double {
        match self.bbo {
            Some(b) => b.mid,
            None => zero(),
        }
    }

    /// The state with an event at the front of the list, which is held to its limit.
    pub open spec fn with_event(self, e: EventView) -> MmModel {
        MmModel { recent_events: first(seq![e] + self.recent_events, MAX_EVENTS as int), ..self }
    }

    /// The state with a status; a new one is announced by an event.
    pub open spec fn with_status(self, level: EventLevel, status: Seq<char>, ts_ms: u64) -> MmModel {
        let announced = if self.last_status != status {
            self.with_event(EventView { ts_ms, level, title: "Status"@, details: status })
        } else {
            self
        };
        MmModel { last_status: status, ..announced }
    }

    /// The state as a history point.
    pub open spec fn sample(self, now_ms: u64) -> HistoryPoint {
        HistoryPoint {
            ts_ms: now_ms,
            mid: self.mid(),
            session_pnl: self.stats.session_pnl,
            position: self.position,
            spread_ticks: self.current_spread_ticks,
            volatility: self.volatility,
            inventory_notional: self.position.times(self.mid()),
            drawdown: self.stats.best_pnl.minus(self.stats.session_pnl).larger(zero()),
        }
    }

    /// The state after a sampling at `now_ms`: at most one point a second is kept.
    pub open spec fn with_sample(self, now_ms: u64) -> MmModel {
        if now_ms - self.last_metrics_sample_ms < SAMPLE_MS {
            self
        } else {
            MmModel {
                last_metrics_sample_ms: now_ms,
                metrics_history: last(
                    self.metrics_history.push(self.sample(now_ms)),
                    MAX_HISTORY as int,
                ),
                ..self
            }
        }
    }

    /// The state before anything was traded or announced.
    pub open spec fn blank(now_ms: u64) -> MmModel {
        MmModel {
            position: zero(),
            unrealized_pnl: zero(),
            entry_price: None,
            position_margin: zero(),
            equity: zero(),
            bbo: None,
            buy_oids: Seq::empty(),
            sell_oids: Seq::empty(),
            order_details: Map::empty(),
            fill_lock_side: None,
            fill_lock_until: zero(),
            cancel_pending_since: None,
            last_cancel_check_ts: zero(),
            anchor_price: None,
            anchor_spread_ticks: None,
            price_history: Seq::empty(),
            volatility: zero(),
            signals: SignalState::neutral_spec(),
            ewma_variance: zero(),
            long_term_variance: zero(),
            last_variance_update_ts: zero(),
            last_mid_for_variance: zero(),
            vol_regime: VolRegime::Normal,
            book_imbalance: zero(),
            book_imbalance_ema: zero(),
            pending_rts: Seq::empty(),
            recent_rt_pnls: Seq::empty(),
            last_fill_time_rt: zero(),
            waiting_for_rt: false,
            rt_spread_adj: 0,
            consecutive_buy_fills: 0,
            consecutive_sell_fills: 0,
            adverse_fill_count: 0,
            recent_fill_sides: Seq::empty(),
            fill_history: Seq::empty(),
            markout_score: zero(),
            last_quote_ts: zero(),
            last_api_sync_ts: zero(),
            last_sync_time: zero(),
            last_close_ts: zero(),
            last_ws_msg_ts: zero(),
            size_scale: of_int(1),
            margin_pause_until: zero(),
            momentum_pause_until: zero(),
            last_margin_reject_ts: zero(),
            current_spread_ticks: 30,
            stats: Stats::fresh(),
            processed_fill_ids: Seq::empty(),
            as_t0_ms: now_ms,
            t_remaining_secs: of_int(1800),
            reservation_price: zero(),
            as_delta: zero(),
            start_ts_ms: now_ms,
            running: true,
            trading_enabled: true,
            manual_mode: false,
            error_message: None,
            last_status: "Initializing..."@,
            recent_events: Seq::empty(),
            metrics_history: Seq::empty(),
            last_metrics_sample_ms: 0,
        }
    }

    /// A new state: announced, and sampled once.
    pub open spec fn initial(now_ms: u64) -> MmModel {
        MmModel::blank(now_ms).with_event(
            EventView {
                ts_ms: now_ms,
                level: EventLevel::Info,
                title: "Runtime"@,
                details: "Bot initialized and waiting for market data"@,
            },
        ).with_sample(now_ms)
    }
}

impl MmState {
    /// A new state at the time `now_ms`.
    pub fn new(now_ms: u64) -> (r: MmState)
        ensures
            r@ == MmModel::initial(now_ms),
    {
        let mut state = MmState {
            position: Double::zero(),
            unrealized_pnl: Double::zero(),
            entry_price: None,
            position_margin: Double::zero(),
            equity: Double::zero(),
            bbo: None,
            buy_oids: Vec::new(),
            sell_oids: Vec::new(),
            order_details: HashMap::new(),
            fill_lock_side: None,
            fill_lock_until: Double::zero(),
            cancel_pending_since: None,
            last_cancel_check_ts: Double::zero(),
            anchor_price: None,
            anchor_spread_ticks: None,
            price_history: VecDeque::new(),
            volatility: Double::zero(),
            signals: SignalState::neutral(),
            ewma_variance: Double::zero(),
            long_term_variance: Double::zero(),
            last_variance_update_ts: Double::zero(),
            last_mid_for_variance: Double::zero(),
            vol_regime: VolRegime::Normal,
            book_imbalance: Double::zero(),
            book_imbalance_ema: Double::zero(),
            pending_rts: Vec::new(),
            recent_rt_pnls: VecDeque::new(),
            last_fill_time_rt: Double::zero(),
            waiting_for_rt: false,
            rt_spread_adj: 0,
            consecutive_buy_fills: 0,
            consecutive_sell_fills: 0,
            adverse_fill_count: 0,
            recent_fill_sides: VecDeque::new(),
            fill_history: VecDeque::new(),
            markout_score: Double::zero(),
            last_quote_ts: Double::zero(),
            last_api_sync_ts: Double::zero(),
            last_sync_time: Double::zero(),
            last_close_ts: Double::zero(),
            last_ws_msg_ts: Double::zero(),
            size_scale: Double::from_u64(1),
            margin_pause_until: Double::zero(),
            momentum_pause_until: Double::zero(),
            last_margin_reject_ts: Double::zero(),
            current_spread_ticks: 30,
            stats: Stats::new(),
            processed_fill_ids: Vec::new(),
            as_t0_ms: now_ms,
            t_remaining_secs: Double::from_u64(1800),
            reservation_price: Double::zero(),
            as_delta: Double::zero(),
            start_ts_ms: now_ms,
            running: true,
            trading_enabled: true,
            manual_mode: false,
            error_message: None,
            last_status: "Initializing...".to_owned(),
            recent_events: VecDeque::new(),
            metrics_history: VecDeque::new(),
            last_metrics_sample_ms: 0,
        };
        assert(state@ == MmModel::blank(now_ms));
        state.push_event(
            EventLevel::Info,
            "Runtime".to_owned(),
            "Bot initialized and waiting for market data".to_owned(),
            now_ms,
        );
        state.record_metrics_sample(now_ms);
        state
    }

    /// The mid price, zero before any quote came.
    pub fn mid(&self) -> (r: Double)
        ensures
            r == self@.mid(),
    {
        match self.bbo {
            Some(b) => b.mid,
            None => Double::zero(),
        }
    }

    /// Puts an event at the front of the list and drops the oldest beyond the limit.
    pub fn push_event(&mut self, level: EventLevel, title: String, details: String, ts_ms: u64)
        ensures
            final(self)@ == old(self)@.with_event(
                EventView { ts_ms, level, title: title@, details: details@ },
            ),
    {
        let ghost e = EventView { ts_ms, level, title: title@, details: details@ };
        let ghost before = self@;
        self.recent_events.push_front(UiEvent { ts_ms, level, title, details });
        let ghost all = self@.recent_events;
        assert(all == seq![e] + before.recent_events);
        while self.recent_events.len() > MAX_EVENTS
            invariant
                self@ == (MmModel { recent_events: self@.recent_events, ..before }),
                all == seq![e] + before.recent_events,
                self@.recent_events.len() <= all.len(),
                self@.recent_events == all.take(self@.recent_events.len() as int),
                all.len() > MAX_EVENTS ==> self@.recent_events.len() >= MAX_EVENTS,
                all.len() <= MAX_EVENTS ==> self@.recent_events == all,
            decreases self.recent_events@.len(),
        {
            let ghost mid = self@.recent_events;
            let _ = self.recent_events.pop_back();
            assert(self@.recent_events == mid.drop_last());
            assert(self@.recent_events == all.take(self@.recent_events.len() as int));
        }
    }

    /// Sets the status, announced at level `Info` if it is new.
    pub fn set_status(&mut self, status: String, ts_ms: u64)
        ensures
            final(self)@ == old(self)@.with_status(EventLevel::Info, status@, ts_ms),
    {
        self.set_status_with_level(EventLevel::Info, status, ts_ms);
    }

    /// Sets the status, announced if it is new.
    pub fn set_status_with_level(&mut self, level: EventLevel, status: String, ts_ms: u64)
        ensures
            final(self)@ == old(self)@.with_status(level, status@, ts_ms),
    {
        if !same_text(self.last_status.as_str(), status.as_str()) {
            self.push_event(level, "Status".to_owned(), status.clone(), ts_ms);
        }
        self.last_status = status;
    }

    /// Records an error, which also stops the trading and becomes the status.
    pub fn set_runtime_error(&mut self, message: String, ts_ms: u64)
        ensures
            final(self)@ == (MmModel {
                error_message: Some(message@),
                trading_enabled: false,
                ..old(self)@
            }).with_status(EventLevel::Error, message@, ts_ms),
    {
        self.error_message = Some(message.clone());
        self.trading_enabled = false;
        self.set_status_with_level(EventLevel::Error, message, ts_ms);
    }

    pub fn clear_runtime_error(&mut self)
        ensures
            final(self)@ == (MmModel { error_message: None, ..old(self)@ }),
    {
        self.error_message = None;
    }

    /// Takes a history point, at most one a second, and drops the oldest beyond the limit.
    pub fn record_metrics_sample(&mut self, now_ms: u64)
        ensures
            final(self)@ == old(self)@.with_sample(now_ms),
    {
        if now_ms.saturating_sub(self.last_metrics_sample_ms) < SAMPLE_MS {
            return;
        }
        let ghost before = self@;
        self.last_metrics_sample_ms = now_ms;
        let mid = self.mid();
        let drawdown = self.stats.best_pnl.sub(self.stats.session_pnl).max(Double::zero());
        let point = HistoryPoint {
            ts_ms: now_ms,
            mid,
            session_pnl: self.stats.session_pnl,
            position: self.position,
            spread_ticks: self.current_spread_ticks,
            volatility: self.volatility,
            inventory_notional: self.position.mul(mid),
            drawdown,
        };
        self.metrics_history.push_back(point);
        let ghost all = self@.metrics_history;
        assert(all == before.metrics_history.push(before.sample(now_ms)));
        assert(all.skip(0) == all);
        while self.metrics_history.len() > MAX_HISTORY
            invariant
                self@ == (MmModel {
                    last_metrics_sample_ms: now_ms,
                    metrics_history: self@.metrics_history,
                    ..before
                }),
                all == before.metrics_history.push(before.sample(now_ms)),
                self@.metrics_history.len() <= all.len(),
                self@.metrics_history == all.skip(all.len() - self@.metrics_history.len()),
                all.len() > MAX_HISTORY ==> self@.metrics_history.len() >= MAX_HISTORY,
                all.len() <= MAX_HISTORY ==> self@.metrics_history == all,
            decreases self.metrics_history@.len(),
        {
            let ghost mid = self@.metrics_history;
            let _ = self.metrics_history.pop_front();
            assert(self@.metrics_history == mid.subrange(1, mid.len() as int));
            assert(self@.metrics_history == all.skip(all.len() - self@.metrics_history.len()));
        }
    }
}

// ---- snapshots ---------------------------------------------------------------------------

impl UiEvent {
    /// A copy of the event.
    pub fn duplicate(&self) -> (r: UiEvent)
        ensures
            r@ == self@,
    {
        UiEvent {
            ts_ms: self.ts_ms,
            level: self.level,
            title: self.title.clone(),
            details: self.details.clone(),
        }
    }
}

/// What the state shows of itself to the outside.
#[derive(Clone, Debug)]
pub struct StatusSnapshot {
    pub token: String,
    pub running: bool,
    pub trading_enabled: bool,
    pub position: Double,
    pub unrealized_pnl: Double,
    pub entry_price: Option<Double>,
    pub equity: Double,
    pub mid_price: Option<Double>,
    pub spread_ticks: i32,
    pub volatility: Double,
    pub signals: SignalState,
    pub stats: Stats,
    pub buy_orders: usize,
    pub sell_orders: usize,
    pub size_scale: Double,
    pub last_status: String,
    pub uptime_secs: u64,
    pub start_ts_ms: u64,
    pub recent_events: Vec<UiEvent>,
    pub metrics_history: Vec<HistoryPoint>,
    pub t_remaining_secs: Double,
    pub reservation_price: Double,
    pub as_delta: Double,
}

/// A snapshot with its texts as characters.
#[verifier::ext_equal]
pub struct SnapshotView {
    pub token: Seq<char>,
    pub running: bool,
    pub trading_enabled: bool,
    pub position: Double,
    pub unrealized_pnl: Double,
    pub entry_price: Option<Double>,
    pub equity: Double,
    pub mid_price: Option<Double>,
    pub spread_ticks: i32,
    pub volatility: Double,
    pub signals: SignalState,
    pub stats: Stats,
    pub buy_orders: int,
    pub sell_orders: int,
    pub size_scale: Double,
    pub last_status: Seq<char>,
    pub uptime_secs: u64,
    pub start_ts_ms: u64,
    pub recent_events: Seq<EventView>,
    pub metrics_history: Seq<HistoryPoint>,
    pub t_remaining_secs: Double,
    pub reservation_price: Double,
    pub as_delta: Double,
}

impl View for StatusSnapshot {
    type V = SnapshotView;

    open spec fn view(&self) -> SnapshotView {
        SnapshotView {
            token: self.token@,
            running: self.running,
            trading_enabled: self.trading_enabled,
            position: self.position,
            unrealized_pnl: self.unrealized_pnl,
            entry_price: self.entry_price,
            equity: self.equity,
            mid_price: self.mid_price,
            spread_ticks: self.spread_ticks,
            volatility: self.volatility,
            signals: self.signals,
            stats: self.stats,
            buy_orders: self.buy_orders as int,
            sell_orders: self.sell_orders as int,
            size_scale: self.size_scale,
            last_status: self.last_status@,
            uptime_secs: self.uptime_secs,
            start_ts_ms: self.start_ts_ms,
            recent_events: event_views(self.recent_events@),
            metrics_history: self.metrics_history@,
            t_remaining_secs: self.t_remaining_secs,
            reservation_price: self.reservation_price,
            as_delta: self.as_delta,
        }
    }
}

impl MmModel {
    pub open spec fn snapshot(self, token: Seq<char>, uptime_secs: u64) -> SnapshotView {
        SnapshotView {
            token,
            running: self.running,
            trading_enabled: self.trading_enabled,
            position: self.position,
            unrealized_pnl: self.unrealized_pnl,
            entry_price: self.entry_price,
            equity: self.equity,
            mid_price: match self.bbo {
                Some(b) => Some(b.mid),
                None => None,
            },
            spread_ticks: self.current_spread_ticks,
            volatility: self.volatility,
            signals: self.signals,
            stats: self.stats,
            buy_orders: self.buy_oids.len() as int,
            sell_orders: self.sell_oids.len() as int,
            size_scale: self.size_scale,
            last_status: self.last_status,
            uptime_secs,
            start_ts_ms: self.start_ts_ms,
            recent_events: self.recent_events,
            metrics_history: self.metrics_history,
            t_remaining_secs: self.t_remaining_secs,
            reservation_price: self.reservation_price,
            as_delta: self.as_delta,
        }
    }
}

impl MmState {
    /// What the state shows of itself under the name `token`, after `uptime_secs`.
    pub fn to_snapshot(&self, token: &str, uptime_secs: u64) -> (r: StatusSnapshot)
        ensures
            r@ == self@.snapshot(token@, uptime_secs),
    {
        let mut recent_events: Vec<UiEvent> = Vec::new();
        for i in 0..self.recent_events.len()
            invariant
                event_views(recent_events@) == self@.recent_events.take(i as int),
        {
            let e = self.recent_events[i].duplicate();
            let ghost before = recent_events@;
            recent_events.push(e);
            assert(event_views(recent_events@) == event_views(before).push(e@));
            assert(self@.recent_events.take(i + 1) == self@.recent_events.take(i as int).push(e@));
        }
        assert(self@.recent_events.take(self@.recent_events.len() as int) == self@.recent_events);
        let mut metrics_history: Vec<HistoryPoint> = Vec::new();
        for i in 0..self.metrics_history.len()
            invariant
                metrics_history@ == self@.metrics_history.take(i as int),
        {
            metrics_history.push(self.metrics_history[i]);
            assert(self@.metrics_history.take(i + 1) == self@.metrics_history.take(i as int).push(
                self@.metrics_history[i as int],
            ));
        }
        assert(self@.metrics_history.take(self@.metrics_history.len() as int) == self@.metrics_history);
        StatusSnapshot {
            token: token.to_owned(),
            running: self.running,
            trading_enabled: self.trading_enabled,
            position: self.position,
            unrealized_pnl: self.unrealized_pnl,
            entry_price: self.entry_price,
            equity: self.equity,
            mid_price: match self.bbo {
                Some(b) => Some(b.mid),
                None => None,
            },
            spread_ticks: self.current_spread_ticks,
            volatility: self.volatility,
            signals: self.signals,
            stats: self.stats,
            buy_orders: self.buy_oids.len(),
            sell_orders: self.sell_oids.len(),
            size_scale: self.size_scale,
            last_status: self.last_status.clone(),
            uptime_secs,
            start_ts_ms: self.start_ts_ms,
            recent_events,
            metrics_history,
            t_remaining_secs: self.t_remaining_secs,
            reservation_price: self.reservation_price,
            as_delta: self.as_delta,
        }
    }
}

} // verus!
