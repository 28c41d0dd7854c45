//! What the market stream says.
use vstd::prelude::*;

use crate::double::{quotient, zero, Double};
use crate::exchange::{
    coin_matches, double_or_zero, find_position, is_coin_of, or_zero, position_of,
};
use crate::json::{json_read, json_views, parse_json, quote_text, quoted, Json, JsonView};
use crate::text::{contains, holds, replace, replaced, same_text};
use crate::types::Bbo;

verus! {

/// Events pushed from the market stream to the main loop
#[derive(Debug)]
pub enum WsEvent {
    /// New book: the best prices, the mid, and the sizes of the first five levels of each side
    L2Update {
        best_bid: Double,
        best_ask: Double,
        mid: Double,
        bid_depth_5: Double,
        ask_depth_5: Double,
    },
    /// Fill received
    Fill {
        tid: String,
        coin: String,
        price: Double,
        size: Double,
        fee: Double,
        closed_pnl: Double,
        oid: u64,
        is_buy: bool,
    },
    /// Position update
    PositionUpdate {
        position: Double,
        unrealized_pnl: Double,
        entry_price: Option<Double>,
        margin_used: Double,
        equity: Double,
    },
    /// Connection lost
    Disconnected,
}

/// An event with its texts as characters.
#[verifier::ext_equal]
pub enum WsEventView {
    L2Update {
        best_bid: Double,
        best_ask: Double,
        mid: Double,
        bid_depth_5: Double,
        ask_depth_5: Double,
    },
    Fill {
        tid: Seq<char>,
        coin: Seq<char>,
        price: Double,
        size: Double,
        fee: Double,
        closed_pnl: Double,
        oid: u64,
        is_buy: bool,
    },
    PositionUpdate {
        position: Double,
        unrealized_pnl: Double,
        entry_price: Option<Double>,
        margin_used: Double,
        equity: Double,
    },
    Disconnected,
}

impl View for WsEvent {
    type V = WsEventView;

    open spec fn view(&self) -> WsEventView {
        match *self {
            WsEvent::L2Update { best_bid, best_ask, mid, bid_depth_5, ask_depth_5 } => {
                WsEventView::L2Update { best_bid, best_ask, mid, bid_depth_5, ask_depth_5 }
            },
            WsEvent::Fill { tid, coin, price, size, fee, closed_pnl, oid, is_buy } => {
                WsEventView::Fill {
                    tid: tid@,
                    coin: coin@,
                    price,
                    size,
                    fee,
                    closed_pnl,
                    oid,
                    is_buy,
                }
            },
            WsEvent::PositionUpdate { position, unrealized_pnl, entry_price, margin_used, equity } =>
                WsEventView::PositionUpdate {
                position,
                unrealized_pnl,
                entry_price,
                margin_used,
                equity,
            },
            WsEvent::Disconnected => WsEventView::Disconnected,
        }
    }
}

pub open spec fn ws_views(s: Seq<WsEvent>) -> Seq<WsEventView> {
    s.map_values(|e: WsEvent| e@)
}

/// What the reader of the stream shares with the rest
#[derive(Clone, Copy, Debug, PartialEq, Eq, Structural)]
pub struct WsSharedState {
    pub bbo: Option<Bbo>,
    pub last_msg_ts: Double,
    pub ready: bool,
}

impl WsSharedState {
    /// Nothing was read yet.
    pub fn new() -> (r: WsSharedState)
        ensures
            r == (WsSharedState { bbo: None, last_msg_ts: zero(), ready: false }),
    {
        WsSharedState { bbo: None, last_msg_ts: Double::zero(), ready: false }
    }

    /// What is shared after an event that came at the time `now`.
    pub open spec fn after(self, e: WsEventView, now: Double) -> WsSharedState {
        match e {
            WsEventView::L2Update { best_bid, best_ask, mid, bid_depth_5, ask_depth_5 } => {
                WsSharedState {
                    bbo: Some(Bbo { best_bid, best_ask, mid }),
                    last_msg_ts: now,
                    ready: true,
                }
            },
            WsEventView::Disconnected => WsSharedState { ready: false, ..self },
            _ => self,
        }
    }

    /// Takes note of an event that came at the time `now`.
    pub fn note(&mut self, e: &WsEvent, now: Double)
        ensures
            *final(self) == old(self).after(e@, now),
    {
        match e {
            WsEvent::L2Update { best_bid, best_ask, mid, bid_depth_5, ask_depth_5 } => {
                self.bbo = Some(Bbo { best_bid: *best_bid, best_ask: *best_ask, mid: *mid });
                self.last_msg_ts = now;
                self.ready = true;
            },
            WsEvent::Disconnected => {
                self.ready = false;
            },
            _ => {},
        }
    }
}

/// The address of the stream of a server.
pub open spec fn stream_url(base_url: Seq<char>) -> Seq<char> {
    replaced(replaced(base_url, "https://"@, "wss://"@), "http://"@, "ws://"@) + "/ws"@
}

/// The address of the stream of a server.
pub fn ws_url(base_url: &str) -> (r: String)
    ensures
        r@ == stream_url(base_url@),
{
    proof {
        reveal_strlit("https://");
        reveal_strlit("http://");
    }
    let secure = replace(base_url, "https://", "wss://");
    let mut url = replace(secure.as_str(), "http://", "ws://");
    url.push_str("/ws");
    url
}

// ---- subscriptions -----------------------------------------------------------------------------

/// The message that subscribes to the book of a symbol.
pub open spec fn book_subscription(symbol: Seq<char>) -> Seq<char> {
    "{\"method\":\"subscribe\",\"subscription\":{\"coin\":"@ + quoted(symbol)
        + ",\"type\":\"l2Book\"}}"@
}

/// The message that subscribes to the events of an account.
pub open spec fn user_subscription(account: Seq<char>) -> Seq<char> {
    "{\"method\":\"subscribe\",\"subscription\":{\"type\":\"userEvents\",\"user\":"@ + quoted(
        account,
    ) + "}}"@
}

/// The messages that subscribe to the book of a symbol and to the events of an account, in the
/// order in which they are sent.
pub fn subscriptions(symbol: &str, account: &str) -> (r: (String, String))
    ensures
        r.0@ == book_subscription(symbol@),
        r.1@ == user_subscription(account@),
{
    let mut book = "{\"method\":\"subscribe\",\"subscription\":{\"coin\":".to_owned();
    book.push_str(quote_text(symbol).as_str());
    book.push_str(",\"type\":\"l2Book\"}}");
    let mut user =
        "{\"method\":\"subscribe\",\"subscription\":{\"type\":\"userEvents\",\"user\":".to_owned();
    user.push_str(quote_text(account).as_str());
    user.push_str("}}");
    (book, user)
}

// ---- the book ----------------------------------------------------------------------------------

/// The part of a message that says something: its data, or the whole where there is none.
pub open spec fn payload_of(data: JsonView) -> JsonView {
    match data.get("data"@) {
        Some(p) => p,
        None => data,
    }
}

/// The sizes of the first `n` levels together; a level whose size is no number counts nothing.
pub open spec fn depth(levels: Seq<JsonView>, n: int) -> Double
    decreases n,
{
    if n <= 0 {
        zero()
    } else {
        depth(levels, n - 1).plus(or_zero(levels[n - 1].double_at("sz"@)))
    }
}

/// The sizes of the first five levels together.
pub open spec fn depth_5(levels: Seq<JsonView>) -> Double {
    depth(
        levels,
        if levels.len() < 5 {
            levels.len() as int
        } else {
            5
        },
    )
}

/// The book that two sides make, where both have a first level with a price.
pub open spec fn book_of(bids: Seq<JsonView>, asks: Seq<JsonView>) -> Option<WsEventView> {
    if bids.len() == 0 || asks.len() == 0 {
        None
    } else {
        match (bids[0].double_at("px"@), asks[0].double_at("px"@)) {
            (Some(best_bid), Some(best_ask)) => Some(
                WsEventView::L2Update {
                    best_bid,
                    best_ask,
                    mid: best_bid.plus(best_ask).times(quotient(1, 2)),
                    bid_depth_5: depth_5(bids),
                    ask_depth_5: depth_5(asks),
                },
            ),
            _ => None,
        }
    }
}

/// The book that a message holds.
pub open spec fn l2_event(data: JsonView) -> Option<WsEventView> {
    match payload_of(data).field("levels"@).as_items() {
        Some(levels) if levels.len() >= 2 => match (levels[0].as_items(), levels[1].as_items()) {
            (Some(bids), Some(asks)) => book_of(bids, asks),
            _ => None,
        },
        _ => None,
    }
}

fn depth_of(levels: &Vec<Json>) -> (r: Double)
    requires
        json_views(levels@).len() == levels@.len(),
        forall|i: int| 0 <= i < levels@.len() ==> #[trigger] json_views(levels@)[i] == levels@[i]@,
    ensures
        r == depth_5(json_views(levels@)),
{
    let ghost all = json_views(levels@);
    let mut sum = Double::zero();
    let mut i: usize = 0;
    while i < levels.len() && i < 5
        invariant
            all == json_views(levels@),
            all.len() == levels@.len(),
            forall|k: int| 0 <= k < levels@.len() ==> #[trigger] all[k] == levels@[k]@,
            i <= levels@.len(),
            i <= 5,
            sum == depth(all, i as int),
        decreases levels@.len() - i,
    {
        assert(all[i as int] == levels@[i as int]@);
        sum = sum.add(double_or_zero(levels[i].double_at("sz")));
        i = i + 1;
    }
    sum
}

fn payload(data: &Json) -> (r: &Json)
    ensures
        r@ == payload_of(data@),
{
    match data.get("data") {
        Some(p) => p,
        None => data,
    }
}

/// An optional event with its texts as characters.
pub open spec fn ws_view(o: Option<WsEvent>) -> Option<WsEventView> {
    match o {
        Some(e) => Some(e@),
        None => None,
    }
}

/// The book that a message holds.
pub fn process_l2(data: &Json) -> (r: Option<WsEvent>)
    ensures
        ws_view(r) == l2_event(data@),
{
    let levels = match payload(data).get("levels") {
        Some(v) => match v.as_items() {
            Some(l) => l,
            None => return None,
        },
        None => return None,
    };
    if levels.len() < 2 {
        return None;
    }
    assert(json_views(levels@)[0] == levels@[0]@);
    assert(json_views(levels@)[1] == levels@[1]@);
    let bids = match levels[0].as_items() {
        Some(b) => b,
        None => return None,
    };
    let asks = match levels[1].as_items() {
        Some(a) => a,
        None => return None,
    };
    if bids.len() == 0 || asks.len() == 0 {
        return None;
    }
    assert(json_views(bids@)[0] == bids@[0]@);
    assert(json_views(asks@)[0] == asks@[0]@);
    let best_bid = match bids[0].double_at("px") {
        Some(v) => v,
        None => return None,
    };
    let best_ask = match asks[0].double_at("px") {
        Some(v) => v,
        None => return None,
    };
    let mid = best_bid.add(best_ask).mul(Double::ratio(1, 2));
    Some(
        WsEvent::L2Update {
            best_bid,
            best_ask,
            mid,
            bid_depth_5: depth_of(bids),
            ask_depth_5: depth_of(asks),
        },
    )
}

// ---- the account ---------------------------------------------------------------------------------

/// The position update that an account's state makes.
pub open spec fn position_event(ch: JsonView, symbol: Seq<char>) -> WsEventView {
    let p = position_of(ch, symbol);
    WsEventView::PositionUpdate {
        position: p.size,
        unrealized_pnl: p.unrealized_pnl,
        entry_price: p.entry_price,
        margin_used: p.margin,
        equity: or_zero(ch.field("marginSummary"@).double_at("accountValue"@)),
    }
}

/// How a value is written, empty where it is missing.
pub open spec fn written_or_empty(o: Option<JsonView>) -> Seq<char> {
    match o {
        Some(v) => v.written,
        None => Seq::empty(),
    }
}

/// The fill that an entry describes: a purchase where its direction says so.
pub open spec fn fill_event(fill: JsonView) -> WsEventView {
    WsEventView::Fill {
        tid: written_or_empty(fill.get("tid"@)),
        coin: fill.text_at("coin"@),
        price: or_zero(fill.double_at("px"@)),
        size: or_zero(fill.double_at("sz"@)),
        fee: or_zero(fill.double_at("fee"@)),
        closed_pnl: or_zero(fill.double_at("closedPnl"@)),
        oid: match fill.field("oid"@).as_unsigned() {
            Some(oid) => oid,
            None => 0,
        },
        is_buy: holds(fill.text_at("dir"@), "Long"@) || holds(fill.text_at("dir"@), "Buy"@),
    }
}

/// The fills in the symbol's coin among the first `n` entries, in their order.
pub open spec fn fill_events(fills: Seq<JsonView>, n: int, symbol: Seq<char>) -> Seq<WsEventView>
    decreases n,
{
    if n <= 0 {
        Seq::empty()
    } else {
        let before = fill_events(fills, n - 1, symbol);
        if coin_matches(fills[n - 1].text_at("coin"@), symbol) {
            before.push(fill_event(fills[n - 1]))
        } else {
            before
        }
    }
}

/// What a message says of the account: the position first, and then the fills.
pub open spec fn user_events(data: JsonView, symbol: Seq<char>) -> Seq<WsEventView> {
    let p = payload_of(data);
    let position = match p.get("clearinghouseState"@) {
        Some(ch) => seq![position_event(ch, symbol)],
        None => Seq::empty(),
    };
    let fills = match p.field("fills"@).as_items() {
        Some(s) => fill_events(s, s.len() as int, symbol),
        None => Seq::empty(),
    };
    position + fills
}

fn read_fill(fill: &Json) -> (r: WsEvent)
    ensures
        r@ == fill_event(fill@),
{
    let tid = match fill.get("tid") {
        Some(v) => v.written.clone(),
        None => String::new(),
    };
    let oid: u64 = match fill.get("oid") {
        Some(v) => match v.as_unsigned() {
            Some(oid) => oid,
            None => 0,
        },
        None => 0,
    };
    let dir = fill.text_at("dir");
    WsEvent::Fill {
        tid,
        coin: fill.text_at("coin").to_owned(),
        price: double_or_zero(fill.double_at("px")),
        size: double_or_zero(fill.double_at("sz")),
        fee: double_or_zero(fill.double_at("fee")),
        closed_pnl: double_or_zero(fill.double_at("closedPnl")),
        oid,
        is_buy: contains(dir, "Long") || contains(dir, "Buy"),
    }
}

fn read_position(ch: &Json, symbol: &str) -> (r: WsEvent)
    ensures
        r@ == position_event(ch@, symbol@),
{
    let p = find_position(ch, symbol);
    let equity = match ch.get("marginSummary") {
        Some(ms) => double_or_zero(ms.double_at("accountValue")),
        None => Double::zero(),
    };
    WsEvent::PositionUpdate {
        position: p.size,
        unrealized_pnl: p.unrealized_pnl,
        entry_price: p.entry_price,
        margin_used: p.margin,
        equity,
    }
}

/// What a message says of the account.
pub fn process_user(data: &Json, symbol: &str) -> (r: Vec<WsEvent>)
    ensures
        ws_views(r@) == user_events(data@, symbol@),
{
    let p = payload(data);
    let mut events: Vec<WsEvent> = Vec::new();
    let ghost mut first: Seq<WsEventView> = Seq::empty();
    if let Some(ch) = p.get("clearinghouseState") {
        events.push(read_position(ch, symbol));
        proof {
            first = seq![position_event(ch@, symbol@)];
        }
    }
    assert(ws_views(events@) == first);
    if let Some(list) = p.get("fills") {
        if let Some(fills) = list.as_items() {
            let ghost all = json_views(fills@);
            let mut i: usize = 0;
            assert(first + Seq::<WsEventView>::empty() == first);
            while i < fills.len()
                invariant
                    all == json_views(fills@),
                    all.len() == fills@.len(),
                    forall|k: int| 0 <= k < fills@.len() ==> #[trigger] all[k] == fills@[k]@,
                    i <= fills@.len(),
                    ws_views(events@) == first + fill_events(all, i as int, symbol@),
                decreases fills@.len() - i,
            {
                assert(all[i as int] == fills@[i as int]@);
                let fill = &fills[i];
                if is_coin_of(fill.text_at("coin"), symbol) {
                    let ghost before = ws_views(events@);
                    let e = read_fill(fill);
                    let ghost ev = e@;
                    events.push(e);
                    assert(ws_views(events@) == before.push(ev));
                    assert(before.push(ev) == first + fill_events(all, i as int, symbol@).push(ev));
                }
                i = i + 1;
            }
        }
    }
    assert(first + Seq::<WsEventView>::empty() == first);
    events
}

// ---- messages ----------------------------------------------------------------------------------------

/// What a message is about.
pub enum Topic {
    Book,
    Account,
    Nothing,
}

/// What a message is about: by its channel, else by what its data holds.
pub open spec fn topic(data: JsonView) -> Topic {
    let channel = data.text_at("channel"@);
    if channel == "l2Book"@ {
        Topic::Book
    } else if channel == "user"@ {
        Topic::Account
    } else {
        match data.get("data"@) {
            Some(inner) => if inner.get("levels"@) is Some {
                Topic::Book
            } else if inner.get("fills"@) is Some || inner.get("clearinghouseState"@) is Some {
                Topic::Account
            } else {
                Topic::Nothing
            },
            None => Topic::Nothing,
        }
    }
}

/// The events of a message.
pub open spec fn message_events(data: JsonView, symbol: Seq<char>) -> Seq<WsEventView> {
    match topic(data) {
        Topic::Book => match l2_event(data) {
            Some(e) => seq![e],
            None => Seq::empty(),
        },
        Topic::Account => user_events(data, symbol),
        Topic::Nothing => Seq::empty(),
    }
}

/// What is shared after some events that came at the time `now`.
pub open spec fn after_events(shared: WsSharedState, s: Seq<WsEventView>, now: Double) -> WsSharedState
    decreases s.len(),
{
    if s.len() == 0 {
        shared
    } else {
        after_events(shared, s.drop_last(), now).after(s.last(), now)
    }
}

/// The events of a message that came at the time `now`, which the shared state takes note of.
pub fn process_message(data: &Json, symbol: &str, shared: &mut WsSharedState, now: Double) -> (r:
    Vec<WsEvent>)
    ensures
        ws_views(r@) == message_events(data@, symbol@),
        *final(shared) == after_events(*old(shared), message_events(data@, symbol@), now),
{
    let channel = data.text_at("channel");
    let inner = data.get("data");
    let book = if same_text(channel, "l2Book") {
        true
    } else if same_text(channel, "user") {
        false
    } else {
        match inner {
            Some(v) => v.get("levels").is_some(),
            None => false,
        }
    };
    let account = if same_text(channel, "l2Book") {
        false
    } else if same_text(channel, "user") {
        true
    } else {
        match inner {
            Some(v) => !book && (v.get("fills").is_some() || v.get(
                "clearinghouseState",
            ).is_some()),
            None => false,
        }
    };
    assert(book <==> topic(data@) is Book);
    assert(account <==> topic(data@) is Account);
    let events = if book {
        match process_l2(data) {
            Some(e) => {
                let mut v: Vec<WsEvent> = Vec::new();
                v.push(e);
                v
            },
            None => Vec::new(),
        }
    } else if account {
        process_user(data, symbol)
    } else {
        Vec::new()
    };
    let ghost all = message_events(data@, symbol@);
    assert(ws_views(events@) =~= all);
    let mut i: usize = 0;
    assert(all.take(0) == Seq::<WsEventView>::empty());
    while i < events.len()
        invariant
            all == ws_views(events@),
            i <= events@.len(),
            *shared == after_events(*old(shared), all.take(i as int), now),
        decreases events@.len() - i,
    {
        shared.note(&events[i], now);
        assert(all.take(i + 1).drop_last() == all.take(i as int));
        assert(all.take(i + 1).last() == events@[i as int]@);
        i = i + 1;
    }
    assert(all.take(all.len() as int) == all);
    events
}

/// The events of a text that came at the time `now`; none where it is not JSON.
pub fn process_text(text: &str, symbol: &str, shared: &mut WsSharedState, now: Double) -> (r: Vec<
    WsEvent,
>)
    ensures
        match json_read(text@) {
            Some(data) => ws_views(r@) == message_events(data, symbol@) && *final(shared)
                == after_events(*old(shared), message_events(data, symbol@), now),
            None => r@.len() == 0 && *final(shared) == *old(shared),
        },
{
    match parse_json(text) {
        Some(data) => process_message(&data, symbol, shared, now),
        None => Vec::new(),
    }
}

} // verus!
