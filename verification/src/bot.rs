//! Sessions: how they start, when they stop, what they leave to cancel, and what is kept of
//! them.
use vstd::prelude::*;

use crate::config::{
    available_tokens, base_name, base_of, find_token, lookup, token_table, Config, TokenConfig,
    TokenView,
};
use crate::double::Double;
use crate::exchange::{cancel_views, labelled, push_cancels, OpenOrder};
use crate::text::{has_prefix, same_text, starts_with};
use crate::types::{mean, Bbo, EventLevel, EventView, MmModel, MmState, Stats};
use crate::websocket::{WsEvent, WsEventView};

verus! {

// ---- finished sessions ----------------------------------------------------------------------

/// What is kept of a session.
#[derive(Clone, Debug)]
pub struct FinishedSession {
    pub token: String,
    pub exchange_name: String,
    pub start_ts_ms: u64,
    pub end_ts_ms: u64,
    pub duration_secs: u64,
    pub gross_pnl: Double,
    pub net_pnl: Double,
    pub volume: Double,
    pub fees: Double,
    pub fills: u64,
    pub rt_count: u64,
    pub cost_per_million: Double,
    pub avg_queue_time: Double,
    pub avg_spread_capture: Double,
    pub cancel_repost_count: u64,
    pub markout_1s_avg: Double,
    pub markout_5s_avg: Double,
    pub markout_10s_avg: Double,
    pub stop_reason: String,
}

/// What is kept of a session, with its texts as characters.
#[verifier::ext_equal]
pub struct SessionView {
    pub token: Seq<char>,
    pub exchange_name: Seq<char>,
    pub start_ts_ms: u64,
    pub end_ts_ms: u64,
    pub duration_secs: int,
    pub gross_pnl: Double,
    pub net_pnl: Double,
    pub volume: Double,
    pub fees: Double,
    pub fills: u64,
    pub rt_count: u64,
    pub cost_per_million: Double,
    pub avg_queue_time: Double,
    pub avg_spread_capture: Double,
    pub cancel_repost_count: u64,
    pub markout_1s_avg: Double,
    pub markout_5s_avg: Double,
    pub markout_10s_avg: Double,
    pub stop_reason: Seq<char>,
}

impl View for FinishedSession {
    type V = SessionView;

    open spec fn view(&self) -> SessionView {
        SessionView {
            token: self.token@,
            exchange_name: self.exchange_name@,
            start_ts_ms: self.start_ts_ms,
            end_ts_ms: self.end_ts_ms,
            duration_secs: self.duration_secs as int,
            gross_pnl: self.gross_pnl,
            net_pnl: self.net_pnl,
            volume: self.volume,
            fees: self.fees,
            fills: self.fills,
            rt_count: self.rt_count,
            cost_per_million: self.cost_per_million,
            avg_queue_time: self.avg_queue_time,
            avg_spread_capture: self.avg_spread_capture,
            cancel_repost_count: self.cancel_repost_count,
            markout_1s_avg: self.markout_1s_avg,
            markout_5s_avg: self.markout_5s_avg,
            markout_10s_avg: self.markout_10s_avg,
            stop_reason: self.stop_reason@,
        }
    }
}

pub open spec fn session_views(s: Seq<FinishedSession>) -> Seq<SessionView> {
    s.map_values(|f: FinishedSession| f@)
}

/// The exchange on which a symbol trades.
pub open spec fn exchange_name(symbol: Seq<char>) -> Seq<char> {
    if has_prefix(symbol, "xyz:"@) {
        "TradeXYZ"@
    } else {
        "KiloMarkets"@
    }
}

/// What is kept of a session with the given statistics.
pub open spec fn session_of(
    token: Seq<char>,
    symbol: Seq<char>,
    stats: Stats,
    start_ts_ms: u64,
    end_ts_ms: u64,
    stop_reason: Seq<char>,
) -> SessionView {
    SessionView {
        token,
        exchange_name: exchange_name(symbol),
        start_ts_ms,
        end_ts_ms,
        duration_secs: (end_ts_ms - start_ts_ms) / 1000,
        gross_pnl: stats.session_pnl,
        net_pnl: stats.session_pnl.minus(stats.total_fees),
        volume: stats.total_volume,
        fees: stats.total_fees,
        fills: stats.fills_count,
        rt_count: stats.rt_count,
        cost_per_million: stats.cost_per_million_spec(),
        avg_queue_time: mean(stats.queue_time_sum, stats.queue_time_count),
        avg_spread_capture: mean(stats.spread_capture_sum, stats.spread_capture_count),
        cancel_repost_count: stats.cancel_repost_count,
        markout_1s_avg: mean(stats.markout_1s_sum, stats.markout_1s_count),
        markout_5s_avg: mean(stats.markout_5s_sum, stats.markout_5s_count),
        markout_10s_avg: mean(stats.markout_10s_sum, stats.markout_10s_count),
        stop_reason,
    }
}

/// What is kept of a session.
pub fn finish_session(
    token: &str,
    symbol: &str,
    stats: &Stats,
    start_ts_ms: u64,
    end_ts_ms: u64,
    stop_reason: String,
) -> (r: FinishedSession)
    requires
        start_ts_ms <= end_ts_ms,
    ensures
        r@ == session_of(token@, symbol@, *stats, start_ts_ms, end_ts_ms, stop_reason@),
{
    let exchange_name = if starts_with(symbol, "xyz:") {
        "TradeXYZ".to_owned()
    } else {
        "KiloMarkets".to_owned()
    };
    FinishedSession {
        token: token.to_owned(),
        exchange_name,
        start_ts_ms,
        end_ts_ms,
        duration_secs: (end_ts_ms - start_ts_ms) / 1000,
        gross_pnl: stats.session_pnl,
        net_pnl: stats.session_pnl.sub(stats.total_fees),
        volume: stats.total_volume,
        fees: stats.total_fees,
        fills: stats.fills_count,
        rt_count: stats.rt_count,
        cost_per_million: stats.cost_per_million(),
        avg_queue_time: stats.avg_queue_time(),
        avg_spread_capture: stats.avg_spread_capture(),
        cancel_repost_count: stats.cancel_repost_count,
        markout_1s_avg: stats.avg_markout_1s(),
        markout_5s_avg: stats.avg_markout_5s(),
        markout_10s_avg: stats.avg_markout_10s(),
        stop_reason,
    }
}

/// How many sessions are kept.
pub const MAX_SESSIONS: usize = 100;

/// Some sessions with one more, the newest first.
pub open spec fn with_session(sessions: Seq<SessionView>, s: SessionView) -> Seq<SessionView> {
    crate::types::first(seq![s] + sessions, MAX_SESSIONS as int)
}

/// Puts a session in front of the others, and drops the oldest beyond the limit.
pub fn record_session(sessions: &mut Vec<FinishedSession>, finished: FinishedSession)
    ensures
        session_views(final(sessions)@) == with_session(session_views(old(sessions)@), finished@),
{
    let ghost before = sessions@;
    let ghost v = finished@;
    sessions.insert(0, finished);
    assert(session_views(sessions@) =~= seq![v] + session_views(before));
    let ghost all = session_views(sessions@);
    sessions.truncate(MAX_SESSIONS);
    assert(session_views(sessions@) =~= crate::types::first(all, MAX_SESSIONS as int));
}

// ---- starting ------------------------------------------------------------------------------------

/// Why a session does not start or stop.
#[derive(Debug)]
pub enum BotError {
    AlreadyRunning,
    UnknownToken(String),
    MissingCredentials,
    NotRunning,
    NoMarketData,
}

/// Why a session does not start or stop, with its text as characters.
pub enum BotErrorView {
    AlreadyRunning,
    UnknownToken(Seq<char>),
    MissingCredentials,
    NotRunning,
    NoMarketData,
}

impl View for BotError {
    type V = BotErrorView;

    open spec fn view(&self) -> BotErrorView {
        match *self {
            BotError::AlreadyRunning => BotErrorView::AlreadyRunning,
            BotError::UnknownToken(name) => BotErrorView::UnknownToken(name@),
            BotError::MissingCredentials => BotErrorView::MissingCredentials,
            BotError::NotRunning => BotErrorView::NotRunning,
            BotError::NoMarketData => BotErrorView::NoMarketData,
        }
    }
}

impl BotErrorView {
    /// What is told of an error.
    pub open spec fn text(self) -> Seq<char> {
        match self {
            BotErrorView::AlreadyRunning => "Bot already running"@,
            BotErrorView::UnknownToken(name) => "Unknown token: "@ + name,
            BotErrorView::MissingCredentials =>
                "HL_AGENT_KEY and HL_ACCOUNT environment variables are required"@,
            BotErrorView::NotRunning => "No active session"@,
            BotErrorView::NoMarketData => "No market data received in 15s"@,
        }
    }
}

impl BotError {
    /// What is told of an error.
    pub fn message(&self) -> (r: String)
        ensures
            r@ == self@.text(),
    {
        match self {
            BotError::AlreadyRunning => "Bot already running".to_owned(),
            BotError::UnknownToken(name) => {
                let mut s = "Unknown token: ".to_owned();
                s.push_str(name.as_str());
                s
            },
            BotError::MissingCredentials => {
                "HL_AGENT_KEY and HL_ACCOUNT environment variables are required".to_owned()
            },
            BotError::NotRunning => "No active session".to_owned(),
            BotError::NoMarketData => "No market data received in 15s".to_owned(),
        }
    }
}

/// A token with another order size, which is not below the smallest size.
pub open spec fn with_order_size(t: TokenView, size: Option<Double>) -> TokenView {
    match size {
        Some(x) => TokenView { order_size_usd: x.larger(t.min_size), ..t },
        None => t,
    }
}

/// The token that a session is started with: of the given name, with the given order size, and
/// only where none is running.
pub open spec fn start_token(running: bool, name: Seq<char>, size: Option<Double>) -> Result<
    TokenView,
    BotErrorView,
> {
    if running {
        Err(BotErrorView::AlreadyRunning)
    } else {
        match lookup(token_table(), name) {
            Some(t) => Ok(with_order_size(t, size)),
            None => Err(BotErrorView::UnknownToken(name)),
        }
    }
}

/// The token that a session is started with.
pub fn prepare_start(running: bool, token_name: &str, order_size_usd: Option<Double>) -> (r: Result<
    TokenConfig,
    BotError,
>)
    ensures
        match r {
            Ok(t) => start_token(running, token_name@, order_size_usd) == Ok::<
                TokenView,
                BotErrorView,
            >(t@),
            Err(e) => start_token(running, token_name@, order_size_usd) == Err::<
                TokenView,
                BotErrorView,
            >(e@),
        },
{
    if running {
        return Err(BotError::AlreadyRunning);
    }
    let tokens = available_tokens();
    match find_token(&tokens, token_name) {
        Some(token) => {
            let mut token = token;
            if let Some(size) = order_size_usd {
                token.order_size_usd = size.max(token.min_size);
            }
            Ok(token)
        },
        None => Err(BotError::UnknownToken(token_name.to_owned())),
    }
}

/// A configuration can trade: it has a key and an account.
pub fn check_credentials(config: &Config) -> (r: Result<(), BotError>)
    ensures
        r is Ok <==> config.agent_private_key@.len() > 0 && config.account_address@.len() > 0,
        r matches Err(e) ==> e is MissingCredentials,
{
    proof {
        reveal_strlit("");
        assert(""@ =~= Seq::<char>::empty());
        assert(config.agent_private_key@.len() == 0 ==> config.agent_private_key@ =~= ""@);
        assert(config.account_address@.len() == 0 ==> config.account_address@ =~= ""@);
    }
    if same_text(config.agent_private_key.as_str(), "") || same_text(
        config.account_address.as_str(),
        "",
    ) {
        Err(BotError::MissingCredentials)
    } else {
        Ok(())
    }
}

/// A session can be stopped only where one is running.
pub fn check_stop(running: bool) -> (r: Result<(), BotError>)
    ensures
        r is Ok <==> running,
        r matches Err(e) ==> e is NotRunning,
{
    if running {
        Ok(())
    } else {
        Err(BotError::NotRunning)
    }
}

// ---- running ---------------------------------------------------------------------------------------

/// How many events are taken in a row before the next round.
pub const MAX_BATCH: usize = 51;

/// Milliseconds for which a session in the background waits for its first quote.
pub const QUOTE_WAIT_MS: u64 = 15_000;

/// Milliseconds for which a session in the terminal waits for its first quote.
pub const TERMINAL_QUOTE_WAIT_MS: u64 = 10_000;

/// Whether a session goes on waiting for its first quote: none was found, and the time is not
/// over.
pub fn keep_waiting(found: bool, elapsed_ms: u64, limit_ms: u64) -> (r: bool)
    ensures
        r == (!found && elapsed_ms < limit_ms),
{
    !found && elapsed_ms < limit_ms
}

/// The state with the first quote, where an event holds one.
pub open spec fn first_quote(s: MmModel, e: WsEventView, now: Double) -> Option<MmModel> {
    match e {
        WsEventView::L2Update { best_bid, best_ask, mid, bid_depth_5, ask_depth_5 } => Some(
            MmModel {
                bbo: Some(Bbo { best_bid, best_ask, mid }),
                last_ws_msg_ts: now,
                ..s
            },
        ),
        _ => None,
    }
}

/// Takes the first quote out of an event, and tells whether there was one.
pub fn take_first_quote(state: &mut MmState, evt: &WsEvent, now: Double) -> (r: bool)
    ensures
        r == (first_quote(old(state)@, evt@, now) is Some),
        final(state)@ == (match first_quote(old(state)@, evt@, now) {
            Some(s) => s,
            None => old(state)@,
        }),
{
    match evt {
        WsEvent::L2Update { best_bid, best_ask, mid, bid_depth_5, ask_depth_5 } => {
            state.bbo = Some(Bbo { best_bid: *best_bid, best_ask: *best_ask, mid: *mid });
            state.last_ws_msg_ts = now;
            true
        },
        _ => false,
    }
}

impl MmModel {
    /// The state of a session that is being stopped.
    pub open spec fn stopped(self) -> MmModel {
        MmModel { running: false, trading_enabled: false, ..self }
    }
}

impl MmState {
    /// Stops the session.
    pub fn halt(&mut self)
        ensures
            final(self)@ == old(self)@.stopped(),
    {
        self.running = false;
        self.trading_enabled = false;
    }

    /// Stops the session at the end of its time.
    pub fn expire(&mut self, ts_ms: u64)
        ensures
            final(self)@ == old(self)@.stopped().with_status(
                EventLevel::Warn,
                "Time limit reached"@,
                ts_ms,
            ),
    {
        self.halt();
        self.set_status_with_level(EventLevel::Warn, "Time limit reached".to_owned(), ts_ms);
    }

    /// Stops the session at the user's request.
    pub fn interrupt(&mut self, ts_ms: u64)
        ensures
            final(self)@ == old(self)@.stopped().with_event(
                EventView {
                    ts_ms,
                    level: EventLevel::Warn,
                    title: "Runtime"@,
                    details: "Shutdown requested via Ctrl+C"@,
                },
            ).with_status(EventLevel::Warn, "Shutdown requested via Ctrl+C"@, ts_ms),
    {
        self.halt();
        self.push_event(
            EventLevel::Warn,
            "Runtime".to_owned(),
            "Shutdown requested via Ctrl+C".to_owned(),
            ts_ms,
        );
        self.set_status_with_level(
            EventLevel::Warn,
            "Shutdown requested via Ctrl+C".to_owned(),
            ts_ms,
        );
    }
}

/// Why a session ends, if it does: at a request, or because it does not run any more.
pub open spec fn end_of(s: MmModel, shutdown: bool) -> Option<Seq<char>> {
    if shutdown {
        Some("Stop requested"@)
    } else if !s.running {
        Some(s.last_status)
    } else {
        None
    }
}

/// Decides whether a session ends before its next round; a request stops it.
pub fn check_end(state: &mut MmState, shutdown: bool) -> (r: Option<String>)
    ensures
        crate::types::text_view(r) == end_of(old(state)@, shutdown),
        final(state)@ == (if shutdown {
            old(state)@.stopped()
        } else {
            old(state)@
        }),
{
    if shutdown {
        state.halt();
        Some("Stop requested".to_owned())
    } else if !state.running {
        Some(state.last_status.clone())
    } else {
        None
    }
}

// ---- leaving ------------------------------------------------------------------------------------------

/// The orders that a session leaves, to be cancelled.
pub fn exit_cancels(config: &Config, state: &MmState) -> (r: Vec<(String, u64)>)
    ensures
        cancel_views(r@) == labelled(config.token.symbol@, state@.buy_oids + state@.sell_oids),
{
    let mut r: Vec<(String, u64)> = Vec::new();
    push_cancels(&mut r, config.token.symbol.as_str(), &state.buy_oids);
    push_cancels(&mut r, config.token.symbol.as_str(), &state.sell_oids);
    assert(cancel_views(r@) =~= labelled(
        config.token.symbol@,
        state@.buy_oids + state@.sell_oids,
    ));
    r
}

/// Those of the first `n` open orders that are in the symbol's coin.
pub open spec fn own_orders(open: Seq<OpenOrder>, n: int, symbol: Seq<char>) -> Seq<(Seq<char>, u64)>
    decreases n,
{
    if n <= 0 {
        Seq::empty()
    } else {
        let before = own_orders(open, n - 1, symbol);
        let o = open[n - 1];
        if o.coin@ == symbol || o.coin@ == base_of(symbol) {
            before.push((o.coin@, o.oid))
        } else {
            before
        }
    }
}

/// The open orders in the symbol's coin, to be cancelled.
pub fn open_cancels(config: &Config, open: &Vec<OpenOrder>) -> (r: Vec<(String, u64)>)
    ensures
        cancel_views(r@) == own_orders(open@, open@.len() as int, config.token.symbol@),
{
    let symbol = config.token.symbol.as_str();
    let base = base_name(symbol);
    let mut r: Vec<(String, u64)> = Vec::new();
    let mut i: usize = 0;
    assert(cancel_views(r@) == Seq::<(Seq<char>, u64)>::empty());
    while i < open.len()
        invariant
            symbol@ == config.token.symbol@,
            base@ == base_of(symbol@),
            i <= open@.len(),
            cancel_views(r@) == own_orders(open@, i as int, symbol@),
        decreases open@.len() - i,
    {
        let o = &open[i];
        if same_text(o.coin.as_str(), symbol) || same_text(o.coin.as_str(), base.as_str()) {
            let ghost before = r@;
            let c = (o.coin.clone(), o.oid);
            let ghost v = (c.0@, c.1);
            r.push(c);
            assert(cancel_views(r@) == cancel_views(before).push(v));
        }
        i = i + 1;
    }
    r
}

} // verus!
