//! The exchange: what it is asked, and what its answers say.
use vstd::prelude::*;

use crate::config::{base_name, base_of, Config};
use crate::decimal::{fixed, push_fixed};
use crate::double::{zero, Double};
use crate::json::{json_views, Json, JsonView};
use crate::signing::{
    action_signature, is_key, key_of, read_key, sign_action, ApiSignature, KeyError,
};
use crate::text::{
    chars_of, contains, ends_with, has_suffix, holds, lower_text, lowercase, same_text, squeeze,
    squeezed, string_of, white_space,
};
use crate::types::text_view;

verus! {

// ---- answers --------------------------------------------------------------------------------

#[derive(Debug)]
pub struct OrderStatus {
    pub resting: Option<RestingOrder>,
    pub error: Option<String>,
    pub filled: Option<FilledOrder>,
}

#[derive(Debug)]
pub struct RestingOrder {
    pub oid: u64,
}

#[derive(Debug)]
pub struct FilledOrder {
    pub total_sz: String,
    pub avg_px: String,
    pub oid: u64,
}

#[derive(Debug)]
pub struct L2Snapshot {
    pub levels: Vec<Vec<L2Level>>,
}

#[derive(Debug)]
pub struct L2Level {
    pub px: String,
    pub sz: String,
    pub n: u64,
}

#[derive(Debug)]
pub struct UserState {
    pub asset_positions: Option<Vec<AssetPositionEntry>>,
    pub margin_summary: Option<MarginSummary>,
    pub cross_margin_summary: Option<MarginSummary>,
}

#[derive(Debug)]
pub struct AssetPositionEntry {
    pub position: AssetPosition,
}

#[derive(Debug)]
pub struct AssetPosition {
    pub coin: String,
    pub szi: String,
    pub unrealized_pnl: String,
    pub entry_px: Option<String>,
    pub margin_used: Option<String>,
}

#[derive(Debug)]
pub struct MarginSummary {
    pub account_value: String,
    pub total_margin_used: Option<String>,
}

#[derive(Debug)]
pub struct OpenOrder {
    pub coin: String,
    pub oid: u64,
}

// ---- requests ---------------------------------------------------------------------------------

/// An order to be placed
#[derive(Debug)]
pub struct OrderRequest {
    pub coin: String,
    pub is_buy: bool,
    pub sz: Double,
    pub limit_px: Double,
    pub reduce_only: bool,
    /// How long it lives: "Alo", "Ioc" or "Gtc".
    pub tif: String,
}

/// An order to be placed, with its texts as characters.
#[verifier::ext_equal]
pub struct RequestView {
    pub coin: Seq<char>,
    pub is_buy: bool,
    pub sz: Double,
    pub limit_px: Double,
    pub reduce_only: bool,
    pub tif: Seq<char>,
}

impl View for OrderRequest {
    type V = RequestView;

    open spec fn view(&self) -> RequestView {
        RequestView {
            coin: self.coin@,
            is_buy: self.is_buy,
            sz: self.sz,
            limit_px: self.limit_px,
            reduce_only: self.reduce_only,
            tif: self.tif@,
        }
    }
}

pub open spec fn request_views(s: Seq<OrderRequest>) -> Seq<RequestView> {
    s.map_values(|o: OrderRequest| o@)
}

/// Some orders to be cancelled, with their texts as characters.
pub open spec fn cancel_views(s: Seq<(String, u64)>) -> Seq<(Seq<char>, u64)> {
    s.map_values(|c: (String, u64)| (c.0@, c.1))
}

/// The orders with the given ids in one coin.
pub open spec fn labelled(coin: Seq<char>, oids: Seq<u64>) -> Seq<(Seq<char>, u64)> {
    oids.map_values(|oid: u64| (coin, oid))
}

/// Appends the orders with the given ids in one coin.
pub fn push_cancels(v: &mut Vec<(String, u64)>, coin: &str, oids: &Vec<u64>)
    ensures
        cancel_views(final(v)@) == cancel_views(old(v)@) + labelled(coin@, oids@),
{
    let mut i: usize = 0;
    assert(labelled(coin@, oids@.take(0)) == Seq::<(Seq<char>, u64)>::empty());
    while i < oids.len()
        invariant
            i <= oids@.len(),
            cancel_views(v@) == cancel_views(old(v)@) + labelled(coin@, oids@.take(i as int)),
        decreases oids@.len() - i,
    {
        let ghost before = v@;
        let c = (coin.to_owned(), oids[i]);
        let ghost cv = (c.0@, c.1);
        v.push(c);
        assert(cancel_views(v@) == cancel_views(before).push(cv));
        assert(labelled(coin@, oids@.take(i + 1)) == labelled(coin@, oids@.take(i as int)).push(
            (coin@, oids@[i as int]),
        ));
        i = i + 1;
    }
    assert(oids@.take(oids@.len() as int) == oids@);
}

/// A new price and size for a resting order
#[derive(Clone, Copy, Debug, PartialEq, Eq, Structural)]
pub struct ModifyRequest {
    pub oid: u64,
    pub new_price: Double,
    pub new_size: Double,
    pub is_buy: bool,
    pub reduce_only: bool,
}

/// An order as the exchange wants it
#[derive(Debug)]
pub struct SignedOrderRequest {
    pub asset: u32,
    pub is_buy: bool,
    pub limit_px: String,
    pub sz: String,
    pub reduce_only: bool,
    pub tif: String,
}

/// An order as the exchange wants it, with its texts as characters.
#[verifier::ext_equal]
pub struct WireOrder {
    pub asset: u32,
    pub is_buy: bool,
    pub limit_px: Seq<char>,
    pub sz: Seq<char>,
    pub reduce_only: bool,
    pub tif: Seq<char>,
}

impl View for SignedOrderRequest {
    type V = WireOrder;

    open spec fn view(&self) -> WireOrder {
        WireOrder {
            asset: self.asset,
            is_buy: self.is_buy,
            limit_px: self.limit_px@,
            sz: self.sz@,
            reduce_only: self.reduce_only,
            tif: self.tif@,
        }
    }
}

/// A cancellation as the exchange wants it
#[derive(Clone, Copy, Debug, PartialEq, Eq, Structural)]
pub struct SignedCancelRequest {
    pub asset: u32,
    pub oid: u64,
}

/// A modification as the exchange wants it
#[derive(Debug)]
pub struct SignedModifyRequest {
    pub oid: u64,
    pub order: SignedOrderRequest,
}

/// What the exchange is told to do
#[derive(Debug)]
pub enum ExchangeAction {
    /// Place orders, in the given grouping.
    Order { orders: Vec<SignedOrderRequest>, grouping: String },
    Cancel { cancels: Vec<SignedCancelRequest> },
    BatchModify { modifies: Vec<SignedModifyRequest> },
}

/// What the exchange is told to do, with its texts as characters.
#[verifier::ext_equal]
pub enum ActionView {
    Order { orders: Seq<WireOrder>, grouping: Seq<char> },
    Cancel { cancels: Seq<SignedCancelRequest> },
    BatchModify { modifies: Seq<(u64, WireOrder)> },
}

impl View for ExchangeAction {
    type V = ActionView;

    open spec fn view(&self) -> ActionView {
        match *self {
            ExchangeAction::Order { orders, grouping } => ActionView::Order {
                orders: orders@.map_values(|o: SignedOrderRequest| o@),
                grouping: grouping@,
            },
            ExchangeAction::Cancel { cancels } => ActionView::Cancel { cancels: cancels@ },
            ExchangeAction::BatchModify { modifies } => ActionView::BatchModify {
                modifies: modifies@.map_values(|m: SignedModifyRequest| (m.oid, m.order@)),
            },
        }
    }
}

// ---- numbers on the wire ------------------------------------------------------------------------

/// The text without the given character at its end, however often it stands there.
pub open spec fn stripped(s: Seq<char>, c: char) -> Seq<char>
    decreases s.len(),
{
    if s.len() > 0 && s.last() == c {
        stripped(s.drop_last(), c)
    } else {
        s
    }
}

/// The text without its last character where that is the given one.
pub open spec fn chopped(s: Seq<char>, c: char) -> Seq<char> {
    if s.len() > 0 && s.last() == c {
        s.drop_last()
    } else {
        s
    }
}

/// A number as the exchange wants it: eight decimals, without the zeros at the end, and
/// without a sign on zero.
pub open spec fn wire(value: Double) -> Seq<char> {
    let s = chopped(stripped(fixed(value, 8), '0'), '.');
    if s == "-0"@ {
        "0"@
    } else {
        s
    }
}

/// A number of zeros.
pub open spec fn zeros(n: int) -> Seq<char> {
    Seq::new(n as nat, |i: int| '0')
}

proof fn lemma_stripped(s: Seq<char>)
    ensures
        stripped(s, '0').len() <= s.len(),
        s == stripped(s, '0') + zeros(s.len() - stripped(s, '0').len()),
    decreases s.len(),
{
    if s.len() > 0 && s.last() == '0' {
        let d = s.drop_last();
        lemma_stripped(d);
        let t = stripped(s, '0');
        assert(t == stripped(d, '0'));
        assert forall|i: int| 0 <= i < s.len() implies s[i] == (t + zeros(s.len() - t.len()))[i] by {
            if i < d.len() {
                assert(s[i] == d[i]);
                assert(d[i] == (t + zeros(d.len() - t.len()))[i]);
            }
        }
        assert(s =~= t + zeros(s.len() - t.len()));
    } else {
        assert(s =~= s + zeros(0));
    }
}

/// What is sent of a number differs from its eight decimals only in zeros at the end, a point
/// that nothing follows, and the sign of zero.
pub proof fn wire_drops_only_zeros(value: Double)
    ensures
        ({
            let s = stripped(fixed(value, 8), '0');
            &&& fixed(value, 8) == s + zeros(fixed(value, 8).len() - s.len())
            &&& wire(value) == s || s == wire(value).push('.') || (wire(value) == "0"@ && (s
                == "-0"@ || s == "-0"@.push('.')))
        }),
{
    let s = stripped(fixed(value, 8), '0');
    lemma_stripped(fixed(value, 8));
    if s.len() > 0 && s.last() == '.' {
        assert(s =~= s.drop_last().push('.'));
    }
}

/// A number as the exchange wants it.
pub fn float_to_wire(value: Double) -> (r: String)
    ensures
        r@ == wire(value),
{
    let mut text = String::new();
    push_fixed(&mut text, value, 8);
    assert(text@ == fixed(value, 8));
    let mut v = chars_of(text.as_str());
    while v.len() > 0 && v[v.len() - 1] == '0'
        invariant
            stripped(fixed(value, 8), '0') == stripped(v@, '0'),
        decreases v@.len(),
    {
        let _ = v.pop();
    }
    if v.len() > 0 && v[v.len() - 1] == '.' {
        let _ = v.pop();
    }
    assert(v@ == chopped(stripped(fixed(value, 8), '0'), '.'));
    let s = string_of(&v);
    if same_text(s.as_str(), "-0") {
        "0".to_owned()
    } else {
        s
    }
}

/// An answer on one line of at most 240 characters, with dots where more was cut off.
pub open spec fn compact(body: Seq<char>) -> Seq<char> {
    let s = squeezed(body);
    if s.len() <= 240 {
        s
    } else {
        s.take(240) + "..."@
    }
}

proof fn lemma_squeezed(s: Seq<char>)
    ensures
        forall|i: int|
            0 <= i < squeezed(s).len() && white_space(#[trigger] squeezed(s)[i]) ==> squeezed(s)[i]
                == ' ',
        squeezed(s).len() > 0 ==> !white_space(squeezed(s)[0]) && !white_space(squeezed(s).last()),
        forall|i: int|
            0 <= i < squeezed(s).len() - 1 && #[trigger] squeezed(s)[i] == ' ' ==> squeezed(s)[i
                + 1] != ' ',
    decreases s.len(),
{
    if s.len() > 0 {
        lemma_squeezed(s.drop_last());
    }
}

/// A compact answer stands on one line: its only white space are single spaces between words,
/// and it is no longer than 243 characters.
pub proof fn compact_is_one_line(body: Seq<char>)
    ensures
        compact(body).len() <= 243,
        forall|i: int|
            0 <= i < compact(body).len() && white_space(#[trigger] compact(body)[i]) ==> compact(
                body,
            )[i] == ' ',
        forall|i: int|
            0 <= i < compact(body).len() - 1 && #[trigger] compact(body)[i] == ' ' ==> compact(
                body,
            )[i + 1] != ' ',
        compact(body).len() > 0 ==> !white_space(compact(body)[0]) && !white_space(
            compact(body).last(),
        ),
{
    lemma_squeezed(body);
    reveal_strlit("...");
}

/// An answer on one line of at most 240 characters, with dots where more was cut off.
pub fn compact_body(body: &str) -> (r: String)
    ensures
        r@ == compact(body@),
{
    let mut v = squeeze(body);
    if v.len() <= 240 {
        string_of(&v)
    } else {
        let ghost all = v@;
        v.truncate(240);
        assert(v@ == all.take(240));
        let mut s = string_of(&v);
        s.push_str("...");
        s
    }
}

/// What is said of an answer that is no success.
pub open spec fn http_failure(status: Seq<char>, url: Seq<char>, body: Seq<char>) -> Seq<char> {
    "HTTP "@ + status + " from "@ + url + ": "@ + compact(body)
}

/// What is said of an answer that is no success.
pub fn http_failure_text(status: &str, url: &str, body: &str) -> (r: String)
    ensures
        r@ == http_failure(status@, url@, body@),
{
    let mut s = "HTTP ".to_owned();
    s.push_str(status);
    s.push_str(" from ");
    s.push_str(url);
    s.push_str(": ");
    let short = compact_body(body);
    s.push_str(short.as_str());
    s
}

/// What is said of an answer that is not JSON, for the given reason.
pub open spec fn bad_answer(url: Seq<char>, error: Seq<char>, body: Seq<char>) -> Seq<char> {
    "Invalid JSON from "@ + url + ": "@ + error + " | body: "@ + compact(body)
}

/// What is said of an answer that is not JSON, for the given reason.
pub fn bad_answer_text(url: &str, error: &str, body: &str) -> (r: String)
    ensures
        r@ == bad_answer(url@, error@, body@),
{
    let mut s = "Invalid JSON from ".to_owned();
    s.push_str(url);
    s.push_str(": ");
    s.push_str(error);
    s.push_str(" | body: ");
    let short = compact_body(body);
    s.push_str(short.as_str());
    s
}

// ---- positions ------------------------------------------------------------------------------------

/// A coin of an answer is the one of a symbol: the symbol itself, its part after the colon, or
/// any other end of it.
pub open spec fn coin_matches(coin: Seq<char>, symbol: Seq<char>) -> bool {
    coin == symbol || coin == base_of(symbol) || has_suffix(symbol, coin)
}

/// Whether a coin of an answer is the one of a symbol.
pub fn is_coin_of(coin: &str, symbol: &str) -> (r: bool)
    ensures
        r == coin_matches(coin@, symbol@),
{
    let base = base_name(symbol);
    same_text(coin, symbol) || same_text(coin, base.as_str()) || ends_with(symbol, coin)
}

/// An open position: its size, what it would gain, its entry price, and the margin that it
/// holds.
#[derive(Clone, Copy, Debug, PartialEq, Eq, Structural)]
pub struct Position {
    pub size: Double,
    pub unrealized_pnl: Double,
    pub entry_price: Option<Double>,
    pub margin: Double,
}

/// The number, zero where there is none.
pub open spec fn or_zero(o: Option<Double>) -> Double {
    match o {
        Some(x) => x,
        None => zero(),
    }
}

/// The number where it is positive.
pub open spec fn if_positive(o: Option<Double>) -> Option<Double> {
    match o {
        Some(x) if zero().less(x) => Some(x),
        _ => None,
    }
}

/// The number, zero where there is none.
pub fn double_or_zero(o: Option<Double>) -> (r: Double)
    ensures
        r == or_zero(o),
{
    match o {
        Some(x) => x,
        None => Double::zero(),
    }
}

/// No position.
pub open spec fn flat() -> Position {
    Position { size: zero(), unrealized_pnl: zero(), entry_price: None, margin: zero() }
}

/// The position that an entry describes.
pub open spec fn described(pos: JsonView) -> Position {
    Position {
        size: or_zero(pos.double_at("szi"@)),
        unrealized_pnl: or_zero(pos.double_at("unrealizedPnl"@)),
        entry_price: if_positive(pos.double_at("entryPx"@)),
        margin: or_zero(pos.double_at("marginUsed"@)),
    }
}

/// The position in the symbol's coin among some entries: that of the first that matches.
pub open spec fn position_among(entries: Seq<JsonView>, symbol: Seq<char>) -> Position
    decreases entries.len(),
{
    if entries.len() == 0 {
        flat()
    } else {
        let pos = entries[0].field("position"@);
        if coin_matches(pos.text_at("coin"@), symbol) {
            described(pos)
        } else {
            position_among(entries.skip(1), symbol)
        }
    }
}

/// The position in the symbol's coin that an account's state shows.
pub open spec fn position_of(state: JsonView, symbol: Seq<char>) -> Position {
    match state.field("assetPositions"@).as_items() {
        Some(entries) => position_among(entries, symbol),
        None => flat(),
    }
}

fn flat_position() -> (r: Position)
    ensures
        r == flat(),
{
    Position {
        size: Double::zero(),
        unrealized_pnl: Double::zero(),
        entry_price: None,
        margin: Double::zero(),
    }
}

fn describe(pos: Option<&Json>) -> (r: Position)
    ensures
        r == described(crate::json::found(pos)),
{
    match pos {
        Some(p) => Position {
            size: double_or_zero(p.double_at("szi")),
            unrealized_pnl: double_or_zero(p.double_at("unrealizedPnl")),
            entry_price: match p.double_at("entryPx") {
                Some(x) => if x.gt(Double::zero()) {
                    Some(x)
                } else {
                    None
                },
                None => None,
            },
            margin: double_or_zero(p.double_at("marginUsed")),
        },
        None => flat_position(),
    }
}

/// The position in the symbol's coin that an account's state shows.
pub fn find_position(state: &Json, symbol: &str) -> (r: Position)
    ensures
        r == position_of(state@, symbol@),
{
    let entries = match state.get("assetPositions") {
        Some(v) => match v.as_items() {
            Some(e) => e,
            None => return flat_position(),
        },
        None => return flat_position(),
    };
    let ghost all = json_views(entries@);
    assert(all.skip(0) == all);
    let mut i: usize = 0;
    while i < entries.len()
        invariant
            all == json_views(entries@),
            all.len() == entries@.len(),
            forall|k: int| 0 <= k < entries@.len() ==> #[trigger] all[k] == entries@[k]@,
            i <= entries@.len(),
            position_of(state@, symbol@) == position_among(all.skip(i as int), symbol@),
        decreases entries@.len() - i,
    {
        assert(all.skip(i as int)[0] == all[i as int]);
        assert(all.skip(i as int).skip(1) == all.skip(i + 1));
        let pos = entries[i].get("position");
        let coin = match pos {
            Some(p) => p.text_at("coin"),
            None => {
                proof {
                    reveal_strlit("");
                    assert(""@ =~= Seq::<char>::empty());
                }
                ""
            },
        };
        if is_coin_of(coin, symbol) {
            return describe(pos);
        }
        i = i + 1;
    }
    flat_position()
}

/// The value of an account that one of its summaries shows, where it is positive.
pub open spec fn summary_value(state: JsonView, summary: Seq<char>) -> Option<Double> {
    if_positive(state.field(summary).double_at("accountValue"@))
}

/// The value of an account: by its margin summary, else by its cross margin summary.
pub open spec fn equity_of(state: JsonView) -> Double {
    match summary_value(state, "marginSummary"@) {
        Some(v) => v,
        None => or_zero(summary_value(state, "crossMarginSummary"@)),
    }
}

fn read_summary(state: &Json, summary: &str) -> (r: Option<Double>)
    ensures
        r == summary_value(state@, summary@),
{
    match state.get(summary) {
        Some(ms) => match ms.double_at("accountValue") {
            Some(v) => if v.gt(Double::zero()) {
                Some(v)
            } else {
                None
            },
            None => None,
        },
        None => None,
    }
}

// ---- answers to orders -------------------------------------------------------------------------------

/// The statuses of the orders in an answer.
pub open spec fn statuses_of(result: JsonView) -> Option<Seq<JsonView>> {
    result.field("response"@).field("data"@).field("statuses"@).as_items()
}

/// The statuses of the orders in an answer.
pub fn read_statuses(result: &Json) -> (r: Option<&Vec<Json>>)
    ensures
        r is Some <==> statuses_of(result@) is Some,
        r matches Some(v) ==> statuses_of(result@) == Some(json_views(v@)) && json_views(v@).len()
            == v@.len() && (forall|i: int|
            0 <= i < v@.len() ==> #[trigger] json_views(v@)[i] == v@[i]@),
{
    match result.get("response") {
        Some(response) => match response.get("data") {
            Some(data) => match data.get("statuses") {
                Some(statuses) => statuses.as_items(),
                None => None,
            },
            None => None,
        },
        None => None,
    }
}

/// The answer has no more statuses than can be counted.
pub open spec fn countable(result: JsonView) -> bool {
    statuses_of(result) matches Some(s) ==> s.len() <= u32::MAX
}

/// Whether the answer has no more statuses than can be counted.
pub fn is_countable(result: &Json) -> (r: bool)
    ensures
        r == countable(result@),
{
    match read_statuses(result) {
        Some(v) => v.len() as u64 <= 0xffff_ffffu64,
        None => true,
    }
}

/// What became of some orders: the ids of the bids and asks that rest, how many were refused
/// for want of margin, and the first error.
#[verifier::ext_equal]
pub struct BulkView {
    pub buy_oids: Seq<u64>,
    pub sell_oids: Seq<u64>,
    pub margin_errs: nat,
    pub first_error: Option<Seq<char>>,
}

impl BulkView {
    /// The same with a first error, unless there is one already.
    pub open spec fn with_error(self, error: Seq<char>) -> BulkView {
        match self.first_error {
            Some(_) => self,
            None => BulkView { first_error: Some(error), ..self },
        }
    }
}

/// An error says that margin is wanting.
pub open spec fn wants_margin(error: Seq<char>) -> bool {
    holds(lowercase(error), "insufficient"@) && holds(lowercase(error), "margin"@)
}

/// What an answer's next status adds, for the order at the place `i`: a resting order without
/// an order to it counts as an ask.
pub open spec fn after_status(
    b: BulkView,
    st: JsonView,
    i: int,
    requests: Seq<RequestView>,
) -> BulkView {
    match st.get("resting"@) {
        Some(resting) => match resting.field("oid"@).as_unsigned() {
            Some(oid) => if i < requests.len() && requests[i].is_buy {
                BulkView { buy_oids: b.buy_oids.push(oid), ..b }
            } else {
                BulkView { sell_oids: b.sell_oids.push(oid), ..b }
            },
            None => b,
        },
        None => match st.field("error"@).as_text() {
            Some(error) => BulkView {
                margin_errs: if wants_margin(error) {
                    b.margin_errs + 1
                } else {
                    b.margin_errs
                },
                ..b.with_error(error)
            },
            None => match st.as_text() {
                Some(error) => if error == "success"@ {
                    b
                } else {
                    b.with_error(error)
                },
                None => b.with_error(compact(st.written)),
            },
        },
    }
}

/// What the first `n` statuses of an answer say.
pub open spec fn after_statuses(
    statuses: Seq<JsonView>,
    n: int,
    requests: Seq<RequestView>,
) -> BulkView
    decreases n,
{
    if n <= 0 {
        BulkView {
            buy_oids: Seq::empty(),
            sell_oids: Seq::empty(),
            margin_errs: 0,
            first_error: None,
        }
    } else {
        after_status(
            after_statuses(statuses, n - 1, requests),
            statuses[n - 1],
            n - 1,
            requests,
        )
    }
}

/// What an answer says of some orders.
pub open spec fn bulk_result(result: JsonView, requests: Seq<RequestView>) -> BulkView {
    let failed = BulkView {
        buy_oids: Seq::empty(),
        sell_oids: Seq::empty(),
        margin_errs: 0,
        first_error: Some(compact(result.written)),
    };
    if result.field("status"@).as_text() != Some("ok"@) {
        failed
    } else {
        match statuses_of(result) {
            Some(statuses) => after_statuses(statuses, statuses.len() as int, requests),
            None => failed,
        }
    }
}

/// What became of some orders.
#[derive(Debug)]
pub struct BulkOutcome {
    pub buy_oids: Vec<u64>,
    pub sell_oids: Vec<u64>,
    pub margin_errs: u32,
    pub first_error: Option<String>,
}

impl View for BulkOutcome {
    type V = BulkView;

    open spec fn view(&self) -> BulkView {
        BulkView {
            buy_oids: self.buy_oids@,
            sell_oids: self.sell_oids@,
            margin_errs: self.margin_errs as nat,
            first_error: text_view(self.first_error),
        }
    }
}

impl BulkOutcome {
    fn note_error(&mut self, error: String)
        ensures
            final(self)@ == old(self)@.with_error(error@),
    {
        if self.first_error.is_none() {
            self.first_error = Some(error);
        }
    }

    fn note_status(&mut self, st: &Json, i: usize, requests: &Vec<OrderRequest>)
        requires
            old(self).margin_errs < u32::MAX,
        ensures
            final(self)@ == after_status(old(self)@, st@, i as int, request_views(requests@)),
    {
        let ghost before = self@;
        let ghost rv = request_views(requests@);
        match st.get("resting") {
            Some(resting) => {
                let oid = match resting.get("oid") {
                    Some(v) => v.as_unsigned(),
                    None => None,
                };
                if let Some(oid) = oid {
                    if i < requests.len() && requests[i].is_buy {
                        self.buy_oids.push(oid);
                    } else {
                        self.sell_oids.push(oid);
                    }
                }
            },
            None => {
                let error = match st.get("error") {
                    Some(v) => v.as_text(),
                    None => None,
                };
                if let Some(err) = error {
                    let lower = lower_text(err);
                    if contains(lower.as_str(), "insufficient") && contains(
                        lower.as_str(),
                        "margin",
                    ) {
                        self.margin_errs = self.margin_errs + 1;
                    }
                    self.note_error(err.to_owned());
                } else if let Some(err) = st.as_text() {
                    if !same_text(err, "success") {
                        self.note_error(err.to_owned());
                    }
                } else {
                    self.note_error(compact_body(st.written.as_str()));
                }
            },
        }
    }
}

fn failed_bulk(result: &Json) -> (r: BulkOutcome)
    ensures
        r@ == (BulkView {
            buy_oids: Seq::empty(),
            sell_oids: Seq::empty(),
            margin_errs: 0,
            first_error: Some(compact(result@.written)),
        }),
{
    BulkOutcome {
        buy_oids: Vec::new(),
        sell_oids: Vec::new(),
        margin_errs: 0,
        first_error: Some(compact_body(result.written.as_str())),
    }
}

// ---- finding an asset -----------------------------------------------------------------------------------

/// The place of a dex in the list of dexes, of which the first is left out.
pub open spec fn dex_place(names: Seq<Option<Seq<char>>>, dex: Seq<char>) -> Option<int>
    decreases names.len(),
{
    if names.len() == 0 {
        None
    } else if names[0] == Some(dex) {
        Some(0)
    } else {
        match dex_place(names.skip(1), dex) {
            Some(i) => Some(i + 1),
            None => None,
        }
    }
}

pub open spec fn option_texts(s: Seq<Option<String>>) -> Seq<Option<Seq<char>>> {
    s.map_values(|o: Option<String>| text_view(o))
}

/// The list without its first.
pub open spec fn others(names: Seq<Option<Seq<char>>>) -> Seq<Option<Seq<char>>> {
    if names.len() == 0 {
        names
    } else {
        names.skip(1)
    }
}

/// The number from which the assets of a dex are counted: the default dex from zero, the
/// others from 110000 on, ten thousand each, in the order of the list without its first.
pub open spec fn dex_offset(names: Seq<Option<Seq<char>>>, dex: Seq<char>) -> Option<int> {
    if dex.len() == 0 {
        Some(0)
    } else {
        match dex_place(others(names), dex) {
            Some(i) => Some(110_000 + i * 10_000),
            None => None,
        }
    }
}

/// The number from which the assets of a dex are counted.
pub fn find_dex_offset(names: &Vec<Option<String>>, dex: &str) -> (r: Option<u32>)
    requires
        names@.len() <= 429_487,
    ensures
        match r {
            Some(n) => dex_offset(option_texts(names@), dex@) == Some(n as int),
            None => dex_offset(option_texts(names@), dex@) is None,
        },
{
    proof {
        reveal_strlit("");
        assert(""@ =~= Seq::<char>::empty());
        assert(dex@.len() == 0 ==> dex@ =~= ""@);
    }
    if same_text(dex, "") {
        return Some(0);
    }
    let ghost all = others(option_texts(names@));
    assert(all.skip(0) == all);
    let mut i: usize = 1;
    while i < names.len()
        invariant
            names@.len() <= 429_487,
            dex@.len() > 0,
            all == others(option_texts(names@)),
            1 <= i,
            i <= names@.len() || (names@.len() == 0 && i == 1),
            match dex_place(all.skip(i - 1), dex@) {
                Some(k) => dex_place(all, dex@) == Some(k + i - 1),
                None => dex_place(all, dex@) is None,
            },
        decreases names@.len() - i,
    {
        assert(all.skip(i - 1)[0] == text_view(names@[i as int]));
        assert(all.skip(i - 1).skip(1) == all.skip(i as int));
        if let Some(name) = &names[i] {
            if same_text(name.as_str(), dex) {
                return Some(110_000 + ((i - 1) as u32) * 10_000);
            }
        }
        i = i + 1;
    }
    assert(all.skip(i - 1).len() == 0);
    None
}

/// The asset of a name is the wanted one: by its whole name, or by its part after the colon.
pub open spec fn asset_matches(name: Seq<char>, symbol: Seq<char>, base: Seq<char>) -> bool {
    name == symbol || name == base || base_of(name) == base
}

/// The place of the wanted asset in the list of assets.
pub open spec fn asset_place(names: Seq<Seq<char>>, symbol: Seq<char>, base: Seq<char>) -> Option<
    int,
>
    decreases names.len(),
{
    if names.len() == 0 {
        None
    } else if asset_matches(names[0], symbol, base) {
        Some(0)
    } else {
        match asset_place(names.skip(1), symbol, base) {
            Some(i) => Some(i + 1),
            None => None,
        }
    }
}

/// The number of the wanted asset, counted from `offset`.
pub fn find_asset(names: &Vec<String>, offset: u32, symbol: &str, base: &str) -> (r: Option<u32>)
    requires
        offset + names@.len() <= u32::MAX,
    ensures
        match r {
            Some(n) => asset_place(crate::types::texts(names@), symbol@, base@) == Some(
                n - offset,
            ),
            None => asset_place(crate::types::texts(names@), symbol@, base@) is None,
        },
{
    let ghost all = crate::types::texts(names@);
    assert(all.skip(0) == all);
    let mut i: usize = 0;
    while i < names.len()
        invariant
            offset + names@.len() <= u32::MAX,
            all == crate::types::texts(names@),
            i <= names@.len(),
            match asset_place(all.skip(i as int), symbol@, base@) {
                Some(k) => asset_place(all, symbol@, base@) == Some(k + i),
                None => asset_place(all, symbol@, base@) is None,
            },
        decreases names@.len() - i,
    {
        assert(all.skip(i as int)[0] == names@[i as int]@);
        assert(all.skip(i as int).skip(1) == all.skip(i + 1));
        let name = names[i].as_str();
        let asset_base = base_name(name);
        if same_text(name, symbol) || same_text(name, base) || same_text(
            asset_base.as_str(),
            base,
        ) {
            return Some(offset + i as u32);
        }
        i = i + 1;
    }
    None
}

/// What is said of a dex that is not in the list.
pub open spec fn unknown_dex(dex: Seq<char>) -> Seq<char> {
    "perp dex '"@ + dex + "' not found in perpDexs"@
}

/// What is said of a dex that is not in the list.
pub fn unknown_dex_text(dex: &str) -> (r: String)
    ensures
        r@ == unknown_dex(dex@),
{
    let mut s = "perp dex '".to_owned();
    s.push_str(dex);
    s.push_str("' not found in perpDexs");
    s
}

/// What is said of an asset that is not in the list of its dex.
pub open spec fn unknown_asset(symbol: Seq<char>, dex: Seq<char>) -> Seq<char> {
    "asset "@ + symbol + " not found in meta universe for dex '"@ + (if dex.len() == 0 {
        "<default>"@
    } else {
        dex
    }) + "'"@
}

/// What is said of an asset that is not in the list of its dex.
pub fn unknown_asset_text(symbol: &str, dex: &str) -> (r: String)
    ensures
        r@ == unknown_asset(symbol@, dex@),
{
    proof {
        reveal_strlit("");
        assert(""@ =~= Seq::<char>::empty());
        assert(dex@.len() == 0 ==> dex@ =~= ""@);
    }
    let mut s = "asset ".to_owned();
    s.push_str(symbol);
    s.push_str(" not found in meta universe for dex '");
    if same_text(dex, "") {
        s.push_str("<default>");
    } else {
        s.push_str(dex);
    }
    s.push_str("'");
    s
}

// ---- questions --------------------------------------------------------------------------------------

/// The names and values of a question as characters.
pub open spec fn question_views(s: Seq<(String, String)>) -> Seq<(Seq<char>, Seq<char>)> {
    s.map_values(|m: (String, String)| (m.0@, m.1@))
}

/// A question that is asked of a dex; the default one is not named.
pub open spec fn asked_of(members: Seq<(Seq<char>, Seq<char>)>, dex: Seq<char>) -> Seq<
    (Seq<char>, Seq<char>),
> {
    if dex.len() == 0 {
        members
    } else {
        members.push(("dex"@, dex))
    }
}

fn push_member(v: &mut Vec<(String, String)>, name: &str, value: &str)
    ensures
        question_views(final(v)@) == question_views(old(v)@).push((name@, value@)),
{
    v.push((name.to_owned(), value.to_owned()));
    assert(question_views(v@) =~= question_views(old(v)@).push((name@, value@)));
}

fn push_dex(v: &mut Vec<(String, String)>, dex: &str)
    ensures
        question_views(final(v)@) == asked_of(question_views(old(v)@), dex@),
{
    proof {
        reveal_strlit("");
        if dex@.len() == 0 {
            assert(dex@ =~= ""@);
        }
    }
    if !same_text(dex, "") {
        push_member(v, "dex", dex);
    }
}

/// The question for the dexes.
pub fn dexes_request() -> (r: Vec<(String, String)>)
    ensures
        question_views(r@) == seq![("type"@, "perpDexs"@)],
{
    let mut r: Vec<(String, String)> = Vec::new();
    push_member(&mut r, "type", "perpDexs");
    assert(question_views(r@) =~= seq![("type"@, "perpDexs"@)]);
    r
}

/// The question for the assets of a dex.
pub fn assets_request(dex: &str) -> (r: Vec<(String, String)>)
    ensures
        question_views(r@) == asked_of(seq![("type"@, "meta"@)], dex@),
{
    let mut r: Vec<(String, String)> = Vec::new();
    push_member(&mut r, "type", "meta");
    assert(question_views(r@) =~= seq![("type"@, "meta"@)]);
    push_dex(&mut r, dex);
    r
}

// ---- the client ---------------------------------------------------------------------------------------------

/// What the client of the exchange knows: the key that it signs with, whose account it trades,
/// where it sends its requests, and the asset.
pub struct HyperLiquidExchange {
    pub signing_key: Vec<u8>,
    pub account_address: String,
    pub info_url: String,
    pub exchange_url: String,
    pub symbol: String,
    pub perp_dex: String,
    pub asset_index: u32,
    pub is_mainnet: bool,
    pub vault_address: Option<String>,
}

/// An order as the exchange wants it, for the given asset.
pub open spec fn wired(asset: u32, o: RequestView) -> WireOrder {
    WireOrder {
        asset,
        is_buy: o.is_buy,
        limit_px: wire(o.limit_px),
        sz: wire(o.sz),
        reduce_only: o.reduce_only,
        tif: o.tif,
    }
}

/// An order that replaces a resting one: it is not to take liquidity.
pub open spec fn replacement(asset: u32, m: ModifyRequest) -> (u64, WireOrder) {
    (
        m.oid,
        WireOrder {
            asset,
            is_buy: m.is_buy,
            limit_px: wire(m.new_price),
            sz: wire(m.new_size),
            reduce_only: m.reduce_only,
            tif: "Alo"@,
        },
    )
}

impl HyperLiquidExchange {
    /// The key is one that can sign.
    pub open spec fn well_formed(self) -> bool {
        is_key(self.signing_key@)
    }

    /// A client for a configuration and the number of its asset.
    pub fn new(config: &Config, asset_index: u32) -> (r: Result<HyperLiquidExchange, KeyError>)
        ensures
            match r {
                Ok(x) => {
                    &&& x.well_formed()
                    &&& key_of(config.agent_private_key@) == Ok::<Seq<u8>, KeyError>(
                        x.signing_key@,
                    )
                    &&& x.account_address@ == config.account_address@
                    &&& x.info_url@ == config.base_url@ + "/info"@
                    &&& x.exchange_url@ == config.base_url@ + "/exchange"@
                    &&& x.symbol@ == config.token.symbol@
                    &&& x.perp_dex@ == crate::config::dex_of(config.token.symbol@)
                    &&& x.asset_index == asset_index
                    &&& x.is_mainnet == !holds(config.base_url@, "testnet"@)
                    &&& x.vault_address is None
                },
                Err(e) => key_of(config.agent_private_key@) == Err::<Seq<u8>, KeyError>(e),
            },
    {
        match read_key(config.agent_private_key.as_str()) {
            Err(e) => Err(e),
            Ok(signing_key) => {
                let mut info_url = config.base_url.clone();
                info_url.push_str("/info");
                let mut exchange_url = config.base_url.clone();
                exchange_url.push_str("/exchange");
                Ok(
                    HyperLiquidExchange {
                        signing_key,
                        account_address: config.account_address.clone(),
                        info_url,
                        exchange_url,
                        symbol: config.token.symbol.clone(),
                        perp_dex: config.perp_dex().to_owned(),
                        asset_index,
                        is_mainnet: !contains(config.base_url.as_str(), "testnet"),
                        vault_address: None,
                    },
                )
            },
        }
    }

    /// Signs an action by its connection id.
    pub fn sign_l1_action(&self, connection_id: &[u8; 32]) -> (r: Option<ApiSignature>)
        requires
            self.well_formed(),
        ensures
            r is Some <==> action_signature(
                self.signing_key@,
                connection_id@,
                self.is_mainnet,
            ) is Some,
            r matches Some(s) ==> action_signature(
                self.signing_key@,
                connection_id@,
                self.is_mainnet,
            ) == Some(s@),
    {
        sign_action(self.signing_key.as_slice(), connection_id, self.is_mainnet)
    }

    /// The question for the order book.
    pub fn l2_snapshot(&self) -> (r: Vec<(String, String)>)
        ensures
            question_views(r@) == seq![("type"@, "l2Book"@), ("coin"@, self.symbol@)],
    {
        let mut r: Vec<(String, String)> = Vec::new();
        push_member(&mut r, "type", "l2Book");
        push_member(&mut r, "coin", self.symbol.as_str());
        assert(question_views(r@) =~= seq![("type"@, "l2Book"@), ("coin"@, self.symbol@)]);
        r
    }

    fn account_request(&self, kind: &str) -> (r: Vec<(String, String)>)
        ensures
            question_views(r@) == seq![("type"@, kind@), ("user"@, self.account_address@)],
    {
        let mut r: Vec<(String, String)> = Vec::new();
        push_member(&mut r, "type", kind);
        push_member(&mut r, "user", self.account_address.as_str());
        assert(question_views(r@) =~= seq![("type"@, kind@), ("user"@, self.account_address@)]);
        r
    }

    /// The question for the account's positions and margin.
    pub fn user_state(&self) -> (r: Vec<(String, String)>)
        ensures
            question_views(r@) == seq![
                ("type"@, "clearinghouseState"@),
                ("user"@, self.account_address@),
            ],
    {
        self.account_request("clearinghouseState")
    }

    /// The question for the account's positions and margin on the symbol's dex.
    pub fn user_state_dex(&self) -> (r: Vec<(String, String)>)
        ensures
            question_views(r@) == asked_of(
                seq![("type"@, "clearinghouseState"@), ("user"@, self.account_address@)],
                self.perp_dex@,
            ),
    {
        let mut r = self.account_request("clearinghouseState");
        push_dex(&mut r, self.perp_dex.as_str());
        r
    }

    /// The question for the account's open orders on the symbol's dex.
    pub fn open_orders(&self) -> (r: Vec<(String, String)>)
        ensures
            question_views(r@) == asked_of(
                seq![("type"@, "openOrders"@), ("user"@, self.account_address@)],
                self.perp_dex@,
            ),
    {
        let mut r = self.account_request("openOrders");
        push_dex(&mut r, self.perp_dex.as_str());
        r
    }

    /// The action that places some orders.
    pub fn bulk_orders(&self, orders: &Vec<OrderRequest>) -> (r: ExchangeAction)
        ensures
            r@ == (ActionView::Order {
                orders: request_views(orders@).map_values(
                    |o: RequestView| wired(self.asset_index, o),
                ),
                grouping: "na"@,
            }),
    {
        let mut specs: Vec<SignedOrderRequest> = Vec::new();
        let mut i: usize = 0;
        while i < orders.len()
            invariant
                i <= orders@.len(),
                specs@.len() == i,
                forall|k: int|
                    0 <= k < i ==> (#[trigger] specs@[k])@ == wired(self.asset_index, orders@[k]@),
            decreases orders@.len() - i,
        {
            let o = &orders[i];
            specs.push(
                SignedOrderRequest {
                    asset: self.asset_index,
                    is_buy: o.is_buy,
                    limit_px: float_to_wire(o.limit_px),
                    sz: float_to_wire(o.sz),
                    reduce_only: o.reduce_only,
                    tif: o.tif.clone(),
                },
            );
            i = i + 1;
        }
        assert(specs@.map_values(|o: SignedOrderRequest| o@) =~= request_views(
            orders@,
        ).map_values(|o: RequestView| wired(self.asset_index, o)));
        ExchangeAction::Order { orders: specs, grouping: "na".to_owned() }
    }

    /// The action that cancels some orders, each given by its coin and its id.
    pub fn bulk_cancel(&self, cancels: &Vec<(String, u64)>) -> (r: ExchangeAction)
        ensures
            r@ == (ActionView::Cancel {
                cancels: cancels@.map_values(
                    |c: (String, u64)| SignedCancelRequest { asset: self.asset_index, oid: c.1 },
                ),
            }),
    {
        let mut specs: Vec<SignedCancelRequest> = Vec::new();
        let mut i: usize = 0;
        while i < cancels.len()
            invariant
                i <= cancels@.len(),
                specs@.len() == i,
                forall|k: int|
                    0 <= k < i ==> #[trigger] specs@[k] == (SignedCancelRequest {
                        asset: self.asset_index,
                        oid: cancels@[k].1,
                    }),
            decreases cancels@.len() - i,
        {
            specs.push(SignedCancelRequest { asset: self.asset_index, oid: cancels[i].1 });
            i = i + 1;
        }
        assert(specs@ =~= cancels@.map_values(
            |c: (String, u64)| SignedCancelRequest { asset: self.asset_index, oid: c.1 },
        ));
        ExchangeAction::Cancel { cancels: specs }
    }

    /// The action that modifies some orders.
    pub fn bulk_modify(&self, modifies: &Vec<ModifyRequest>) -> (r: ExchangeAction)
        ensures
            r@ == (ActionView::BatchModify {
                modifies: modifies@.map_values(
                    |m: ModifyRequest| replacement(self.asset_index, m),
                ),
            }),
    {
        let mut specs: Vec<SignedModifyRequest> = Vec::new();
        let mut i: usize = 0;
        while i < modifies.len()
            invariant
                i <= modifies@.len(),
                specs@.len() == i,
                forall|k: int|
                    0 <= k < i ==> ((#[trigger] specs@[k]).oid, specs@[k].order@) == replacement(
                        self.asset_index,
                        modifies@[k],
                    ),
            decreases modifies@.len() - i,
        {
            let m = modifies[i];
            specs.push(
                SignedModifyRequest {
                    oid: m.oid,
                    order: SignedOrderRequest {
                        asset: self.asset_index,
                        is_buy: m.is_buy,
                        limit_px: float_to_wire(m.new_price),
                        sz: float_to_wire(m.new_size),
                        reduce_only: m.reduce_only,
                        tif: "Alo".to_owned(),
                    },
                },
            );
            i = i + 1;
        }
        assert(specs@.map_values(|m: SignedModifyRequest| (m.oid, m.order@))
            =~= modifies@.map_values(|m: ModifyRequest| replacement(self.asset_index, m)));
        ExchangeAction::BatchModify { modifies: specs }
    }

    /// A single order that closes a position at once or not at all.
    pub fn close_order(coin: &str, is_buy: bool, size: Double, price: Double) -> (r: OrderRequest)
        ensures
            r@ == closing(coin@, is_buy, size, price),
    {
        OrderRequest {
            coin: coin.to_owned(),
            is_buy,
            sz: size,
            limit_px: price,
            reduce_only: true,
            tif: "Ioc".to_owned(),
        }
    }

    /// The position in the client's coin that an account's state shows
    pub fn parse_position(&self, state: &Json) -> (r: (Double, Double, Option<Double>, Double))
        ensures
            ({
                let p = position_of(state@, self.symbol@);
                r == (p.size, p.unrealized_pnl, p.entry_price, p.margin)
            }),
    {
        let p = find_position(state, self.symbol.as_str());
        (p.size, p.unrealized_pnl, p.entry_price, p.margin)
    }

    /// The value of an account
    pub fn parse_equity(state: &Json) -> (r: Double)
        ensures
            r == equity_of(state@),
    {
        match read_summary(state, "marginSummary") {
            Some(v) => v,
            None => double_or_zero(read_summary(state, "crossMarginSummary")),
        }
    }

    /// What an answer says of some orders
    pub fn parse_bulk_result(result: &Json, requests: &Vec<OrderRequest>) -> (r: BulkOutcome)
        requires
            countable(result@),
        ensures
            r@ == bulk_result(result@, request_views(requests@)),
    {
        let ok = match result.get("status") {
            Some(v) => match v.as_text() {
                Some(s) => same_text(s, "ok"),
                None => false,
            },
            None => false,
        };
        if !ok {
            return failed_bulk(result);
        }
        match read_statuses(result) {
            Some(statuses) => {
                let mut b = BulkOutcome {
                    buy_oids: Vec::new(),
                    sell_oids: Vec::new(),
                    margin_errs: 0,
                    first_error: None,
                };
                let ghost all = json_views(statuses@);
                let ghost rv = request_views(requests@);
                let mut i: usize = 0;
                while i < statuses.len()
                    invariant
                        all == json_views(statuses@),
                        rv == request_views(requests@),
                        all.len() == statuses@.len(),
                        statuses@.len() <= u32::MAX,
                        forall|k: int|
                            0 <= k < statuses@.len() ==> #[trigger] all[k] == statuses@[k]@,
                        i <= statuses@.len(),
                        b.margin_errs <= i,
                        b@ == after_statuses(all, i as int, rv),
                    decreases statuses@.len() - i,
                {
                    b.note_status(&statuses[i], i, requests);
                    i = i + 1;
                }
                b
            },
            None => failed_bulk(result),
        }
    }

    pub fn symbol(&self) -> (r: &str)
        ensures
            r@ == self.symbol@,
    {
        self.symbol.as_str()
    }

    pub fn base_coin(&self) -> (r: String)
        ensures
            r@ == base_of(self.symbol@),
    {
        base_name(self.symbol.as_str())
    }
}

/// An order that closes a position at once or not at all.
pub open spec fn closing(coin: Seq<char>, is_buy: bool, size: Double, price: Double) -> RequestView {
    RequestView { coin, is_buy, sz: size, limit_px: price, reduce_only: true, tif: "Ioc"@ }
}

} // verus!
