//! What holds of the records of a session: of its ratios and means, of what it keeps of positions
//! and placed orders, and of what is written down at its end.
use vstd::prelude::*;

use crate::bounds::{lemma_difference, lemma_value};
use crate::bot::{session_of, with_order_size};
use crate::config::{Config, TokenView};
use crate::double::{mag, of_int, one_unit, zero, Double, P53};
use crate::exchange::{after_statuses, bulk_result, statuses_of, RequestView};
use crate::json::JsonView;
use crate::market::Decay;
use crate::market_laws::lemma_over_one;
use crate::matching_laws::positive;
use crate::order::{
    integers_are_exact, integers_keep_order, larger_divisors_leave_less, lemma_rounded,
    positive_integers, quotient_sign, quotients_keep_order, subtracting_shrinks,
};
use crate::size_laws::over_itself;
use crate::trading::{after_event, resting_oid, tracked_after, tracking};
use crate::types::{mean, share, MmModel, Stats, TrackedOrder};
use crate::websocket::WsEventView;

verus! {

// ---- ratios and means ------------------------------------------------------------------------------------------

proof fn lemma_count(n: nat)
    requires
        n >= 1,
        n <= P53,
    ensures
        positive(of_int(n as int)),
{
    integers_are_exact(n);
    positive_integers(n);
}

proof fn lemma_number(x: Double, m: Double)
    requires
        !x.is_nan(),
        positive(m),
    ensures
        !x.over(m).is_nan(),
{
    assert(mag(0) == 0);
    lemma_value(m);
    if x.is_finite() {
        lemma_rounded(x.neg() != m.neg(), mag(x.index()) * one_unit(), mag(m.index()));
    }
}

/// The mean of a sum: of one value it is that value, of none it is nothing; it does not fall with
/// the sum, and a sum that is not negative has the smaller mean the more there are.
pub proof fn means_divide_the_sum(a: Double, b: Double, m: u64, n: u64)
    requires
        a.is_finite(),
        b.is_finite(),
        a.at_most(b),
        1 <= m <= n <= P53,
    ensures
        mean(a, m).at_most(mean(b, m)),
        mean(a, 1) == a,
        mean(a, 0) == zero(),
        zero().at_most(a) ==> mean(a, n).at_most(mean(a, m)),
{
    lemma_count(m as nat);
    lemma_count(n as nat);
    let x = of_int(m as int);
    let y = of_int(n as int);
    lemma_number(a, x);
    lemma_number(b, x);
    lemma_number(a, y);
    quotients_keep_order(a, b, x);
    lemma_over_one(a);
    integers_keep_order(m as int, n as int);
    if zero().at_most(a) {
        larger_divisors_leave_less(a, x, y);
    }
}

/// A share lies between nothing and one: nothing of the whole is nothing, all of it is one, and
/// it does not fall with the part nor rise with the whole.
pub proof fn shares_lie_between_nothing_and_one(p: u64, q: u64, whole: u64, larger_whole: u64)
    requires
        1 <= p <= q <= whole <= larger_whole <= P53,
    ensures
        share(p, whole).at_most(share(q, whole)),
        share(p, larger_whole).at_most(share(p, whole)),
        zero().at_most(share(p, whole)),
        share(q, whole).at_most(of_int(1)),
        share(whole, whole) == of_int(1),
        share(p, 0) == zero(),
{
    lemma_count(p as nat);
    lemma_count(q as nat);
    lemma_count(whole as nat);
    lemma_count(larger_whole as nat);
    let a = of_int(p as int);
    let b = of_int(q as int);
    let w = of_int(whole as int);
    let v = of_int(larger_whole as int);
    lemma_number(a, w);
    lemma_number(b, w);
    lemma_number(a, v);
    lemma_number(w, w);
    integers_keep_order(p as int, q as int);
    integers_keep_order(q as int, whole as int);
    integers_keep_order(whole as int, larger_whole as int);
    quotients_keep_order(a, b, w);
    quotients_keep_order(b, w, w);
    larger_divisors_leave_less(a, w, v);
    quotient_sign(a, w);
    over_itself(w);
}

/// The ratio of round trips counts two fills for each: it is one where every fill is half of one.
pub proof fn round_trips_take_two_fills(s: Stats)
    requires
        1 <= s.rt_count <= 0x8_0000_0000_0000,
        2 * s.rt_count <= s.fills_count <= P53,
    ensures
        s.fills_count == 2 * s.rt_count ==> s.rt_ratio_spec() == of_int(1),
        zero().at_most(s.rt_ratio_spec()),
        s.rt_ratio_spec().at_most(of_int(1)),
        (Stats { rt_count: 0, ..s }).rt_ratio_spec() == zero(),
{
    let k = (s.rt_count * 2) as u64;
    shares_lie_between_nothing_and_one(k, k, s.fills_count, s.fills_count);
    if s.fills_count == 2 * s.rt_count {
        shares_lie_between_nothing_and_one(k, s.fills_count, s.fills_count, s.fills_count);
    }
}

/// The drawdown of a sample is how far the profit is below the best one, and nothing at it; the
/// inventory is worth its size times the mid.
pub proof fn samples_tell_the_drawdown(s: MmModel, now_ms: u64)
    requires
        s.stats.session_pnl.is_finite(),
        s.stats.best_pnl.is_finite(),
    ensures
        ({
            let p = s.sample(now_ms);
            let best = s.stats.best_pnl;
            let pnl = s.stats.session_pnl;
            &&& zero().at_most(p.drawdown)
            &&& pnl.value() >= best.value() ==> p.drawdown.value() == 0
            &&& pnl.value() < best.value() ==> p.drawdown == best.minus(pnl)
            &&& p.ts_ms == now_ms && p.mid == s.mid() && p.session_pnl == pnl && p.position
                == s.position && p.spread_ticks == s.current_spread_ticks && p.volatility
                == s.volatility
            &&& p.inventory_notional == s.position.times(s.mid())
        }),
{
    lemma_difference(s.stats.best_pnl, s.stats.session_pnl);
    assert(mag(0) == 0);
}

// ---- the end of a session ----------------------------------------------------------------------------------------

/// At its end a session's net profit is its profit less its fees, and its length is counted in
/// whole seconds.
pub proof fn sessions_are_written_down(
    token: Seq<char>,
    symbol: Seq<char>,
    stats: Stats,
    start: u64,
    end: u64,
    reason: Seq<char>,
)
    requires
        start <= end,
        stats.session_pnl.is_finite(),
        stats.total_fees.is_finite(),
    ensures
        ({
            let r = session_of(token, symbol, stats, start, end, reason);
            &&& r.gross_pnl == stats.session_pnl && r.fees == stats.total_fees && r.volume
                == stats.total_volume && r.fills == stats.fills_count && r.rt_count
                == stats.rt_count
            &&& zero().at_most(stats.total_fees) ==> r.net_pnl.at_most(r.gross_pnl)
            &&& stats.total_fees.at_most(zero()) ==> r.gross_pnl.at_most(r.net_pnl)
            &&& stats.session_pnl.value() == stats.total_fees.value() ==> r.net_pnl.value() == 0
            &&& 1000 * r.duration_secs <= end - start < 1000 * (r.duration_secs + 1)
            &&& r.cost_per_million == stats.cost_per_million_spec()
            &&& r.token == token && r.stop_reason == reason && r.start_ts_ms == start
                && r.end_ts_ms == end
        }),
{
    let p = stats.session_pnl;
    let f = stats.total_fees;
    lemma_difference(p, f);
    assert(mag(0) == 0);
    lemma_value(f);
    if zero().at_most(f) {
        subtracting_shrinks(p, f);
    }
    if f.at_most(zero()) {
        crate::order::adding_grows(p, f.negated());
    }
}

/// An order size that is asked for replaces the usual one, but is not below the smallest size.
pub proof fn order_sizes_can_be_asked_for(t: TokenView, x: Double)
    requires
        !t.min_size.is_nan(),
        !x.is_nan(),
    ensures
        with_order_size(t, None) == t,
        t.min_size.at_most(with_order_size(t, Some(x)).order_size_usd),
        t.min_size.at_most(x) ==> with_order_size(t, Some(x)).order_size_usd == x,
        x.less(t.min_size) ==> with_order_size(t, Some(x)).order_size_usd == t.min_size,
{
}

// ---- positions -------------------------------------------------------------------------------------------------------

/// A position that is told replaces the one that was known; an equity only where it is positive;
/// no order, fill or price changes.
pub proof fn told_positions_are_taken(
    config: Config,
    s: MmModel,
    position: Double,
    unrealized_pnl: Double,
    entry_price: Option<Double>,
    margin_used: Double,
    equity: Double,
    now: Double,
    decay: Decay,
)
    ensures
        ({
            let r = after_event(
                config,
                s,
                (WsEventView::PositionUpdate {
                    position,
                    unrealized_pnl,
                    entry_price,
                    margin_used,
                    equity,
                }),
                now,
                decay,
            );
            &&& r.position == position && r.unrealized_pnl == unrealized_pnl && r.entry_price
                == entry_price && r.position_margin == margin_used
            &&& zero().less(equity) ==> r.equity == equity
            &&& equity.at_most(zero()) ==> r.equity == s.equity
            &&& r.stats == s.stats && r.order_details == s.order_details && r.buy_oids
                == s.buy_oids && r.sell_oids == s.sell_oids && r.bbo == s.bbo && r.price_history
                == s.price_history
        }),
{
}

// ---- placed orders -----------------------------------------------------------------------------------------------------

proof fn lemma_tracking(
    m: Map<u64, TrackedOrder>,
    statuses: Seq<JsonView>,
    n: int,
    requests: Seq<RequestView>,
    now: Double,
    oid: u64,
)
    requires
        0 <= n <= statuses.len(),
    ensures
        ({
            let r = tracking(m, statuses, n, requests, now);
            &&& (forall|i: int| 0 <= i < n ==> resting_oid(#[trigger] statuses[i]) != Some(oid))
                ==> (r.contains_key(oid) == m.contains_key(oid) && (m.contains_key(oid) ==> r[oid]
                == m[oid]))
            &&& forall|i: int|
                0 <= i < n && i < requests.len() && resting_oid(#[trigger] statuses[i]) == Some(oid)
                    && (forall|j: int|
                    i < j < n ==> resting_oid(#[trigger] statuses[j]) != Some(oid))
                    ==> r.contains_key(oid) && r[oid].price == requests[i].limit_px && r[oid].size
                    == requests[i].sz && r[oid].is_buy == requests[i].is_buy && r[oid].ts == now
                    && r[oid].target_price == requests[i].limit_px && r[oid].drift_ticks == 0
        }),
    decreases n,
{
    if n > 0 {
        lemma_tracking(m, statuses, n - 1, requests, now, oid);
    }
}

/// An order that the answer says rests is tracked under its id, with the price, size and side
/// that were asked for and the time at which it was placed; other orders are left as they were.
pub proof fn resting_orders_are_tracked(
    m: Map<u64, TrackedOrder>,
    result: JsonView,
    statuses: Seq<JsonView>,
    requests: Seq<RequestView>,
    now: Double,
    i: int,
    oid: u64,
)
    requires
        statuses_of(result) == Some(statuses),
    ensures
        ({
            let r = tracked_after(m, result, requests, now);
            &&& (forall|j: int|
                0 <= j < statuses.len() ==> resting_oid(#[trigger] statuses[j]) != Some(oid))
                ==> (r.contains_key(oid) == m.contains_key(oid) && (m.contains_key(oid) ==> r[oid]
                == m[oid]))
            &&& 0 <= i < statuses.len() && i < requests.len() && resting_oid(statuses[i]) == Some(
                oid,
            ) && (forall|j: int|
                i < j < statuses.len() ==> resting_oid(#[trigger] statuses[j]) != Some(oid))
                ==> r.contains_key(oid) && r[oid].price == requests[i].limit_px && r[oid].size
                == requests[i].sz && r[oid].is_buy == requests[i].is_buy && r[oid].ts == now
        }),
{
    lemma_tracking(m, statuses, statuses.len() as int, requests, now, oid);
}

proof fn lemma_statuses(statuses: Seq<JsonView>, n: int, requests: Seq<RequestView>, i: int, oid: u64)
    requires
        0 <= i < n <= statuses.len(),
        n <= requests.len(),
        statuses[i].get("resting"@) is Some,
        statuses[i].get("resting"@)->0.field("oid"@).as_unsigned() == Some(oid),
    ensures
        ({
            let b = after_statuses(statuses, n, requests);
            &&& requests[i].is_buy ==> b.buy_oids.contains(oid)
            &&& !requests[i].is_buy ==> b.sell_oids.contains(oid)
        }),
    decreases n,
{
    let b = after_statuses(statuses, n - 1, requests);
    let r = after_statuses(statuses, n, requests);
    if i < n - 1 {
        lemma_statuses(statuses, n - 1, requests, i, oid);
        if requests[i].is_buy {
            let k = b.buy_oids.index_of(oid);
            assert(r.buy_oids[k] == oid);
        } else {
            let k = b.sell_oids.index_of(oid);
            assert(r.sell_oids[k] == oid);
        }
    } else if requests[i].is_buy {
        assert(r.buy_oids[b.buy_oids.len() as int] == oid);
    } else {
        assert(r.sell_oids[b.sell_oids.len() as int] == oid);
    }
}

proof fn lemma_status_counts(statuses: Seq<JsonView>, n: int, requests: Seq<RequestView>)
    requires
        0 <= n <= statuses.len(),
    ensures
        ({
            let b = after_statuses(statuses, n, requests);
            &&& b.buy_oids.len() + b.sell_oids.len() + b.margin_errs <= n
            &&& b.margin_errs > 0 ==> b.first_error is Some
        }),
    decreases n,
{
    if n > 0 {
        lemma_status_counts(statuses, n - 1, requests);
    }
}

/// Of an answer that went well, each order that rests is listed on the side that it was asked for;
/// there are not more of them, together with those that margin was refused for, than there are
/// statuses; and refused margin is an error.
pub proof fn resting_orders_are_listed_on_their_side(
    result: JsonView,
    statuses: Seq<JsonView>,
    requests: Seq<RequestView>,
    i: int,
    oid: u64,
)
    requires
        result.field("status"@).as_text() == Some("ok"@),
        statuses_of(result) == Some(statuses),
        statuses.len() <= requests.len(),
    ensures
        ({
            let b = bulk_result(result, requests);
            &&& 0 <= i < statuses.len() && statuses[i].get("resting"@) is Some
                && statuses[i].get("resting"@)->0.field("oid"@).as_unsigned() == Some(oid) ==> if requests[i].is_buy {
                b.buy_oids.contains(oid)
            } else {
                b.sell_oids.contains(oid)
            }
            &&& b.buy_oids.len() + b.sell_oids.len() + b.margin_errs <= statuses.len()
            &&& b.margin_errs > 0 ==> b.first_error is Some
        }),
{
    let n = statuses.len() as int;
    if 0 <= i < n && statuses[i].get("resting"@) is Some && statuses[i].get("resting"@)->0.field(
        "oid"@,
    ).as_unsigned() == Some(oid) {
        lemma_statuses(statuses, n, requests, i, oid);
    }
    lemma_status_counts(statuses, n, requests);
}

} // verus!
