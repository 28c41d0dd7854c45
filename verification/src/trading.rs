//! How events change the state, how answers are taken, and which sides are requoted.
use std::collections::HashMap;

use vstd::prelude::*;

use crate::config::{base_name, base_of, Config};
use crate::double::{of_int, quotient, zero, Double};
use crate::exchange::{
    read_statuses, request_views, statuses_of, OpenOrder, OrderRequest, RequestView,
};
use crate::fills::{fill_room, Fill};
use crate::json::{json_views, Json, JsonView};
use crate::market::Decay;
use crate::risk::RefreshReason;
use crate::text::same_text;
use crate::types::{Bbo, MmModel, MmState, Side, TrackedOrder};
use crate::websocket::{WsEvent, WsEventView};

verus! {

broadcast use vstd::std_specs::hash::group_hash_axioms;

// ---- orders and answers -----------------------------------------------------------------------

/// Seconds for which the side of a fill is not quoted.
pub open spec fn lock_secs() -> Double {
    quotient(1, 4)
}

/// Seconds for which the side of a fill is not quoted.
pub fn fill_lock_secs(config: &Config) -> (r: Double)
    ensures
        r == lock_secs(),
{
    Double::ratio(1, 4)
}

/// An order that was just placed.
pub open spec fn placed_order(r: RequestView, now: Double) -> TrackedOrder {
    TrackedOrder {
        price: r.limit_px,
        size: r.sz,
        is_buy: r.is_buy,
        ts: now,
        target_price: r.limit_px,
        drift_ticks: 0,
    }
}

/// The id under which a status says that its order rests.
pub open spec fn resting_oid(st: JsonView) -> Option<u64> {
    st.field("resting"@).field("oid"@).as_unsigned()
}

/// Some tracked orders with those that the first `n` statuses say rest.
pub open spec fn tracking(
    m: Map<u64, TrackedOrder>,
    statuses: Seq<JsonView>,
    n: int,
    requests: Seq<RequestView>,
    now: Double,
) -> Map<u64, TrackedOrder>
    decreases n,
{
    if n <= 0 {
        m
    } else {
        let before = tracking(m, statuses, n - 1, requests, now);
        match resting_oid(statuses[n - 1]) {
            Some(oid) => if n - 1 < requests.len() {
                before.insert(oid, placed_order(requests[n - 1], now))
            } else {
                before
            },
            None => before,
        }
    }
}

/// Some tracked orders with those that an answer says rest.
pub open spec fn tracked_after(
    m: Map<u64, TrackedOrder>,
    result: JsonView,
    requests: Seq<RequestView>,
    now: Double,
) -> Map<u64, TrackedOrder> {
    match statuses_of(result) {
        Some(s) => tracking(m, s, s.len() as int, requests, now),
        None => m,
    }
}

/// Adds the orders that an answer says rest.
pub fn track_orders(
    m: &mut HashMap<u64, TrackedOrder>,
    result: &Json,
    requests: &Vec<OrderRequest>,
    now: Double,
)
    ensures
        final(m)@ == tracked_after(old(m)@, result@, request_views(requests@), now),
{
    let ghost rv = request_views(requests@);
    if let Some(statuses) = read_statuses(result) {
        let ghost all = json_views(statuses@);
        let mut i: usize = 0;
        while i < statuses.len()
            invariant
                all == json_views(statuses@),
                all.len() == statuses@.len(),
                rv == request_views(requests@),
                forall|k: int| 0 <= k < statuses@.len() ==> #[trigger] all[k] == statuses@[k]@,
                i <= statuses@.len(),
                m@ == tracking(old(m)@, all, i as int, rv, now),
            decreases statuses@.len() - i,
        {
            assert(all[i as int] == statuses@[i as int]@);
            let oid = match statuses[i].get("resting") {
                Some(r) => match r.get("oid") {
                    Some(v) => v.as_unsigned(),
                    None => None,
                },
                None => None,
            };
            if let Some(oid) = oid {
                if i < requests.len() {
                    let req = &requests[i];
                    assert(rv[i as int] == req@);
                    let order = TrackedOrder {
                        price: req.limit_px,
                        size: req.sz,
                        is_buy: req.is_buy,
                        ts: now,
                        target_price: req.limit_px,
                        drift_ticks: 0,
                    };
                    m.insert(oid, order);
                }
            }
            i = i + 1;
        }
    }
}

/// The orders that an answer says rest.
pub fn extract_order_details(result: &Json, requests: &Vec<OrderRequest>, now: Double) -> (r:
    HashMap<u64, TrackedOrder>)
    ensures
        r@ == tracked_after(Map::empty(), result@, request_views(requests@), now),
{
    let mut details: HashMap<u64, TrackedOrder> = HashMap::new();
    track_orders(&mut details, result, requests, now);
    details
}

// ---- waiting for cancellations -----------------------------------------------------------------

impl MmModel {
    /// The state without orders, and without a cancellation that is waited for.
    pub open spec fn without_orders(self) -> MmModel {
        MmModel {
            buy_oids: Seq::empty(),
            sell_oids: Seq::empty(),
            order_details: Map::empty(),
            cancel_pending_since: None,
            ..self
        }
    }
}

impl MmState {
    /// Forgets all orders.
    pub fn drop_orders(&mut self)
        ensures
            final(self)@ == old(self)@.without_orders(),
    {
        self.buy_oids.clear();
        self.sell_oids.clear();
        self.order_details.clear();
        self.cancel_pending_since = None;
    }
}

/// What is to be done about cancellations.
#[derive(Clone, Copy, Debug, PartialEq, Eq, Structural)]
pub enum AckStep {
    /// None is waited for.
    Idle,
    /// It is too early to ask again.
    Wait,
    /// The exchange is to be asked for the open orders; the first cancellation was sent at
    /// `since`.
    Ask { since: Double },
}

/// What is to be done about cancellations at the time `now`.
pub open spec fn ack_step(s: MmModel, now: Double) -> AckStep {
    match s.cancel_pending_since {
        None => AckStep::Idle,
        Some(since) => if now.minus(s.last_cancel_check_ts).less(quotient(15, 100)) {
            AckStep::Wait
        } else {
            AckStep::Ask { since }
        },
    }
}

/// Decides what is to be done about cancellations; the time of a question is noted.
pub fn begin_cancel_check(state: &mut MmState, now: Double) -> (r: AckStep)
    ensures
        r == ack_step(old(state)@, now),
        final(state)@ == (if r is Ask {
            MmModel { last_cancel_check_ts: now, ..old(state)@ }
        } else {
            old(state)@
        }),
{
    match state.cancel_pending_since {
        None => AckStep::Idle,
        Some(since) => {
            if now.sub(state.last_cancel_check_ts).lt(Double::ratio(15, 100)) {
                AckStep::Wait
            } else {
                state.last_cancel_check_ts = now;
                AckStep::Ask { since }
            }
        },
    }
}

/// One of the open orders is in the symbol's coin and among the tracked ones.
pub open spec fn still_open(
    open: Seq<OpenOrder>,
    symbol: Seq<char>,
    buys: Seq<u64>,
    sells: Seq<u64>,
) -> bool {
    exists|i: int|
        0 <= i < open.len() && ((#[trigger] open[i]).coin@ == symbol || open[i].coin@ == base_of(
            symbol,
        )) && (buys.contains(open[i].oid) || sells.contains(open[i].oid))
}

/// Whether a list of ids holds one.
pub fn has_oid(v: &Vec<u64>, oid: u64) -> (r: bool)
    ensures
        r == v@.contains(oid),
{
    let mut i: usize = 0;
    while i < v.len()
        invariant
            i <= v@.len(),
            forall|k: int| 0 <= k < i ==> v@[k] != oid,
        decreases v@.len() - i,
    {
        if v[i] == oid {
            return true;
        }
        i = i + 1;
    }
    false
}

fn any_open(open: &Vec<OpenOrder>, symbol: &str, buys: &Vec<u64>, sells: &Vec<u64>) -> (r: bool)
    ensures
        r == still_open(open@, symbol@, buys@, sells@),
{
    let base = base_name(symbol);
    let mut i: usize = 0;
    while i < open.len()
        invariant
            base@ == base_of(symbol@),
            i <= open@.len(),
            forall|k: int|
                0 <= k < i ==> !(((#[trigger] open@[k]).coin@ == symbol@ || open@[k].coin@
                    == base_of(symbol@)) && (buys@.contains(open@[k].oid) || sells@.contains(
                    open@[k].oid,
                ))),
        decreases open@.len() - i,
    {
        let o = &open[i];
        if (same_text(o.coin.as_str(), symbol) || same_text(o.coin.as_str(), base.as_str())) && (
        has_oid(buys, o.oid) || has_oid(sells, o.oid)) {
            return true;
        }
        i = i + 1;
    }
    false
}

/// Takes the exchange's answer to the question for the open orders, which may have failed, and
/// tells whether to go on waiting. The tracked orders are those at the time of the question.
/// All are forgotten once none is open any more, or three seconds after the first
/// cancellation.
pub fn finish_cancel_check(
    config: &Config,
    state: &mut MmState,
    since: Double,
    buys: &Vec<u64>,
    sells: &Vec<u64>,
    open: Option<&Vec<OpenOrder>>,
    now: Double,
) -> (waiting: bool)
    ensures
        waiting == (!of_int(3).less(now.minus(since)) && match open {
            Some(v) => still_open(v@, config.token.symbol@, buys@, sells@),
            None => true,
        }),
        final(state)@ == (if waiting {
            old(state)@
        } else {
            old(state)@.without_orders()
        }),
{
    let late = now.sub(since).gt(Double::from_u64(3));
    let settled = match open {
        Some(v) => !any_open(v, config.token.symbol.as_str(), buys, sells),
        None => false,
    };
    if settled || late {
        state.drop_orders();
        false
    } else {
        true
    }
}

// ---- sides ---------------------------------------------------------------------------------------

/// Which sides are requoted for a reason, bids and asks.
pub open spec fn sides_for(
    refresh: RefreshReason,
    bbo: Bbo,
    anchor_price: Option<Double>,
    has_bids: bool,
    has_asks: bool,
) -> (bool, bool) {
    match refresh {
        RefreshReason::NoRefresh => (false, false),
        RefreshReason::Initial => (true, true),
        RefreshReason::StopExit { sell } => (!sell, sell),
        RefreshReason::Replenish => (!has_bids, !has_asks),
        RefreshReason::SameSideLock(side) => match side {
            Side::Buy => (false, true),
            Side::Sell => (true, false),
        },
        RefreshReason::UrgentDrift(_) | RefreshReason::NormalDrift(_) => match anchor_price {
            Some(anchor) => if anchor.at_most(bbo.mid) {
                (true, false)
            } else {
                (false, true)
            },
            None => (true, true),
        },
        _ => (true, true),
    }
}

/// Which sides are requoted for a reason, bids and asks.
pub fn managed_sides(
    refresh: &RefreshReason,
    bbo: Bbo,
    anchor_price: Option<Double>,
    has_bids: bool,
    has_asks: bool,
) -> (r: (bool, bool))
    ensures
        r == sides_for(*refresh, bbo, anchor_price, has_bids, has_asks),
{
    match *refresh {
        RefreshReason::NoRefresh => (false, false),
        RefreshReason::Initial => (true, true),
        RefreshReason::StopExit { sell } => (!sell, sell),
        RefreshReason::Replenish => (!has_bids, !has_asks),
        RefreshReason::SameSideLock(side) => match side {
            Side::Buy => (false, true),
            Side::Sell => (true, false),
        },
        RefreshReason::UrgentDrift(_) | RefreshReason::NormalDrift(_) => match anchor_price {
            Some(anchor) => {
                if bbo.mid.ge(anchor) {
                    (true, false)
                } else {
                    (false, true)
                }
            },
            None => (true, true),
        },
        _ => (true, true),
    }
}

// ---- events ----------------------------------------------------------------------------------------

/// The state after an event that came at the time `now`.
pub open spec fn after_event(
    config: Config,
    s: MmModel,
    e: WsEventView,
    now: Double,
    decay: Decay,
) -> MmModel {
    match e {
        WsEventView::L2Update { best_bid, best_ask, mid, bid_depth_5, ask_depth_5 } => s.with_book(
            config,
            Bbo { best_bid, best_ask, mid },
            bid_depth_5,
            ask_depth_5,
            now,
            decay,
        ),
        WsEventView::Fill { tid, coin, price, size, fee, closed_pnl, oid, is_buy } => s.with_fill(
            tid,
            Fill { price, size, fee, closed_pnl, oid, is_buy },
            now,
            config.token.min_size,
        ),
        WsEventView::PositionUpdate {
            position,
            unrealized_pnl,
            entry_price,
            margin_used,
            equity,
        } => MmModel {
            position,
            unrealized_pnl,
            entry_price,
            position_margin: margin_used,
            equity: if zero().less(equity) {
                equity
            } else {
                s.equity
            },
            ..s
        },
        WsEventView::Disconnected => MmModel {
            last_status: "WS disconnected, reconnecting..."@,
            ..s
        },
    }
}

/// Process a single event of the market stream that came at the time `now`; for a book, the
/// decay is the exponential function at the exponents that the state gives for that time.
pub fn process_ws_event(config: &Config, state: &mut MmState, evt: WsEvent, now: Double, decay: Decay)
    requires
        evt is Fill ==> fill_room(old(state)@),
    ensures
        final(state)@ == after_event(*config, old(state)@, evt@, now, decay),
{
    match evt {
        WsEvent::L2Update { best_bid, best_ask, mid, bid_depth_5, ask_depth_5 } => {
            state.note_book(
                config,
                Bbo { best_bid, best_ask, mid },
                bid_depth_5,
                ask_depth_5,
                now,
                decay,
            );
        },
        WsEvent::Fill { tid, coin, price, size, fee, closed_pnl, oid, is_buy } => {
            let f = Fill { price, size, fee, closed_pnl, oid, is_buy };
            state.note_fill(config, tid, &f, now);
        },
        WsEvent::PositionUpdate { position, unrealized_pnl, entry_price, margin_used, equity } => {
            state.position = position;
            state.unrealized_pnl = unrealized_pnl;
            state.entry_price = entry_price;
            state.position_margin = margin_used;
            if equity.gt(Double::zero()) {
                state.equity = equity;
            }
        },
        WsEvent::Disconnected => {
            state.last_status = "WS disconnected, reconnecting...".to_owned();
        },
    }
}

} // verus!
