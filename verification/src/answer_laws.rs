//! What holds of the answers of an exchange and of what a session makes of them: which orders are its
//! own, where its assets stand, what an account holds, and what is left of orders that were cancelled.
use vstd::prelude::*;

use crate::bot::own_orders;
use crate::bounds::{lemma_difference, lemma_value};
use crate::config::{base_of, Config};
use crate::double::{mag, one_unit, quotient, zero, Double};
use crate::exchange::{
    after_statuses, asset_matches, asset_place, coin_matches, dex_offset, dex_place, equity_of,
    others, position_among, replacement, wired, ModifyRequest, OpenOrder, RequestView,
};
use crate::fills::without;
use crate::iteration::{anchored, cancelled, PlanView};
use crate::json::JsonView;
use crate::matching_laws::positive;
use crate::quoting::{new_order, Desired};
use crate::risk::{drift, market_ticks, quote_age, width_changed};
use crate::trading::{ack_step, still_open, AckStep};
use crate::types::MmModel;

verus! {

// ---- own orders --------------------------------------------------------------------------------------

/// Whether an open order is one of a symbol, under its full or its short name.
pub open spec fn is_own(o: OpenOrder, symbol: Seq<char>) -> bool {
    o.coin@ == symbol || o.coin@ == base_of(symbol)
}

/// Whether an entry names one of the first `n` open orders, and that is one of the symbol.
pub open spec fn names_own(
    open: Seq<OpenOrder>,
    n: int,
    symbol: Seq<char>,
    entry: (Seq<char>, u64),
) -> bool {
    exists|i: int|
        0 <= i < n && is_own(#[trigger] open[i], symbol) && entry == (open[i].coin@, open[i].oid)
}

proof fn lemma_own(open: Seq<OpenOrder>, n: int, symbol: Seq<char>, entry: (Seq<char>, u64))
    requires
        0 <= n <= open.len(),
    ensures
        own_orders(open, n, symbol).contains(entry) <==> names_own(open, n, symbol, entry),
        own_orders(open, n, symbol).len() <= n,
    decreases n,
{
    if n > 0 {
        lemma_own(open, n - 1, symbol, entry);
        let before = own_orders(open, n - 1, symbol);
        let now = own_orders(open, n, symbol);
        let o = open[n - 1];
        if names_own(open, n, symbol, entry) {
            let i = choose|i: int|
                0 <= i < n && is_own(#[trigger] open[i], symbol) && entry == (
                    open[i].coin@,
                    open[i].oid,
                );
            if i < n - 1 {
                assert(names_own(open, n - 1, symbol, entry));
                let k = before.index_of(entry);
                assert(now[k] == entry);
            } else {
                assert(now[now.len() - 1] == entry);
            }
        }
        if now.contains(entry) {
            let k = now.index_of(entry);
            if k < before.len() {
                assert(before[k] == entry);
                let i = choose|i: int|
                    0 <= i < n - 1 && is_own(#[trigger] open[i], symbol) && entry == (
                        open[i].coin@,
                        open[i].oid,
                    );
                assert(is_own(open[i], symbol));
            } else {
                assert(is_own(open[n - 1], symbol));
            }
        }
    }
}

/// Every open order of a symbol is found among its own, under the name that it is open under, and
/// nothing else is.
pub proof fn own_orders_are_all_found(
    open: Seq<OpenOrder>,
    symbol: Seq<char>,
    entry: (Seq<char>, u64),
)
    ensures
        own_orders(open, open.len() as int, symbol).contains(entry) <==> names_own(
            open,
            open.len() as int,
            symbol,
            entry,
        ),
        own_orders(open, open.len() as int, symbol).len() <= open.len(),
{
    lemma_own(open, open.len() as int, symbol, entry);
}

/// Cancelled orders are awaited as long as one of them is among the own open orders.
pub proof fn cancelled_orders_are_awaited(
    open: Seq<OpenOrder>,
    symbol: Seq<char>,
    buys: Seq<u64>,
    sells: Seq<u64>,
    k: int,
)
    ensures
        ({
            let own = own_orders(open, open.len() as int, symbol);
            &&& 0 <= k < own.len() && (buys.contains(own[k].1) || sells.contains(own[k].1))
                ==> still_open(open, symbol, buys, sells)
            &&& (forall|j: int|
                0 <= j < own.len() ==> !buys.contains((#[trigger] own[j]).1) && !sells.contains(
                    own[j].1,
                )) ==> !still_open(open, symbol, buys, sells)
        }),
{
    let n = open.len() as int;
    let own = own_orders(open, n, symbol);
    if 0 <= k < own.len() {
        lemma_own(open, n, symbol, own[k]);
        assert(own.contains(own[k]));
        let i = choose|i: int|
            0 <= i < n && is_own(#[trigger] open[i], symbol) && own[k] == (
                open[i].coin@,
                open[i].oid,
            );
        assert(is_own(open[i], symbol));
    }
    if still_open(open, symbol, buys, sells) {
        let i = choose|i: int|
            0 <= i < open.len() && ((#[trigger] open[i]).coin@ == symbol || open[i].coin@
                == base_of(symbol)) && (buys.contains(open[i].oid) || sells.contains(open[i].oid));
        assert(is_own(open[i], symbol));
        let entry = (open[i].coin@, open[i].oid);
        lemma_own(open, n, symbol, entry);
        assert(names_own(open, n, symbol, entry));
        let j = own.index_of(entry);
        assert(own[j].1 == open[i].oid);
    }
}

/// An exchange is asked about cancelled orders only while there are some, and not more than once in a
/// tenth of a second; it is asked again after a fifth of one.
pub proof fn questions_are_spaced(s: MmModel, now: Double)
    requires
        now.is_finite(),
        s.last_cancel_check_ts.is_finite(),
        s.last_cancel_check_ts.at_most(now),
        now.value() <= 0x1_0000_0000 * one_unit(),
        s.last_cancel_check_ts.value() >= 0,
    ensures
        s.cancel_pending_since is None <==> ack_step(s, now) is Idle,
        ack_step(s, now) is Ask ==> 10 * (now.value() - s.last_cancel_check_ts.value())
            >= one_unit(),
        ack_step(s, now) is Wait ==> 5 * (now.value() - s.last_cancel_check_ts.value())
            <= one_unit(),
        ack_step(s, now) matches AckStep::Ask { since } ==> s.cancel_pending_since == Some(since),
{
    let u = one_unit();
    crate::ticks::lemma_room();
    assert(mag(0) == 0);
    let last = s.last_cancel_check_ts;
    lemma_value(now);
    lemma_value(last);
    lemma_difference(now, last);
    crate::bounds::lemma_ratio(15, 100);
    let d = now.minus(last);
    lemma_value(d);
    lemma_value(quotient(15, 100));
    let e = (now.value() - last.value()) as nat;
    assert(e <= vstd::arithmetic::power2::pow2(2000));
    crate::order::lemma_sum_error(e);
    let k: int = 0x20_0000_0000_0000;
    assert((k - 1) * d.value() <= k * e && k * e <= (k + 1) * d.value());
    let q = quotient(15, 100).value();
    assert((k - 1) * (q * 100) <= k * (15 * u) && k * (15 * u) <= (k + 1) * (q * 100));
}

// ---- assets --------------------------------------------------------------------------------------------

proof fn lemma_dex_place(names: Seq<Option<Seq<char>>>, dex: Seq<char>)
    ensures
        dex_place(names, dex) matches Some(i) ==> 0 <= i < names.len() && names[i] == Some(dex)
            && forall|j: int| 0 <= j < i ==> names[j] != Some(dex),
        dex_place(names, dex) is None ==> forall|j: int|
            0 <= j < names.len() ==> names[j] != Some(dex),
    decreases names.len(),
{
    if names.len() > 0 && names[0] != Some(dex) {
        lemma_dex_place(names.skip(1), dex);
        assert forall|j: int| 1 <= j < names.len() implies names[j] == names.skip(1)[j - 1] by {}
        if let Some(i) = dex_place(names.skip(1), dex) {
            assert(names[i + 1] == Some(dex));
            assert forall|j: int| 0 <= j < i + 1 implies names[j] != Some(dex) by {
                if j > 0 {
                    assert(names.skip(1)[j - 1] != Some(dex));
                }
            }
        } else {
            assert forall|j: int| 0 <= j < names.len() implies names[j] != Some(dex) by {
                if j > 0 {
                    assert(names.skip(1)[j - 1] != Some(dex));
                }
            }
        }
    }
}

/// The assets of the first exchange are counted from nothing, those of the next in the list from 110000,
/// and of each one after it from ten thousand further on; different exchanges have no number in
/// common as long as none has more than ten thousand assets, and an exchange that is not in the list has
/// none.
pub proof fn exchanges_have_their_own_numbers(
    names: Seq<Option<Seq<char>>>,
    a: Seq<char>,
    b: Seq<char>,
    k: int,
)
    requires
        a.len() > 0,
    ensures
        dex_offset(names, Seq::<char>::empty()) == Some(0int),
        1 <= k < names.len() && names[k] == Some(a) && (forall|j: int|
            1 <= j < k ==> names[j] != Some(a)) ==> dex_offset(names, a) == Some(
            100_000 + 10_000 * k,
        ),
        dex_offset(names, a) matches Some(x) ==> x >= 110_000 && exists|j: int|
            1 <= j < names.len() && names[j] == Some(a),
        a != b ==> (dex_offset(names, a) matches Some(x) ==> (dex_offset(names, b) matches Some(y)
            ==> x - y >= 10_000 || y - x >= 10_000)),
{
    let rest = others(names);
    lemma_dex_place(rest, a);
    lemma_dex_place(rest, b);
    if 1 <= k < names.len() && names[k] == Some(a) && (forall|j: int|
        1 <= j < k ==> names[j] != Some(a)) {
        assert(rest[k - 1] == Some(a));
        if let Some(i) = dex_place(rest, a) {
            if i < k - 1 {
                assert(names[i + 1] == Some(a));
            }
            assert(i == k - 1);
        }
    }
    if let Some(i) = dex_place(rest, a) {
        assert(names[i + 1] == Some(a));
    }
}

proof fn lemma_asset_place(names: Seq<Seq<char>>, symbol: Seq<char>, base: Seq<char>)
    ensures
        asset_place(names, symbol, base) matches Some(i) ==> 0 <= i < names.len() && asset_matches(
            names[i],
            symbol,
            base,
        ) && forall|j: int| 0 <= j < i ==> !asset_matches(#[trigger] names[j], symbol, base),
        asset_place(names, symbol, base) is None ==> forall|j: int|
            0 <= j < names.len() ==> !asset_matches(#[trigger] names[j], symbol, base),
    decreases names.len(),
{
    if names.len() > 0 && !asset_matches(names[0], symbol, base) {
        lemma_asset_place(names.skip(1), symbol, base);
        if let Some(i) = asset_place(names.skip(1), symbol, base) {
            assert(names[i + 1] == names.skip(1)[i]);
            assert forall|j: int| 0 <= j < i + 1 implies !asset_matches(
                #[trigger] names[j],
                symbol,
                base,
            ) by {
                if j > 0 {
                    assert(names.skip(1)[j - 1] == names[j]);
                }
            }
        } else {
            assert forall|j: int| 0 <= j < names.len() implies !asset_matches(
                #[trigger] names[j],
                symbol,
                base,
            ) by {
                if j > 0 {
                    assert(names.skip(1)[j - 1] == names[j]);
                }
            }
        }
    }
}

/// A symbol that is listed is found, at or before its place; what is found goes by the symbol, by its
/// short name or by another name of the same short form; and what is listed afterwards changes
/// nothing.
pub proof fn listed_assets_are_found(
    names: Seq<Seq<char>>,
    more: Seq<Seq<char>>,
    symbol: Seq<char>,
    base: Seq<char>,
    k: int,
)
    ensures
        0 <= k < names.len() && (names[k] == symbol || names[k] == base || base_of(names[k]) == base)
            ==> (asset_place(names, symbol, base) matches Some(i) && 0 <= i <= k),
        asset_place(names, symbol, base) matches Some(i) ==> 0 <= i < names.len() && (names[i]
            == symbol || names[i] == base || base_of(names[i]) == base),
        asset_place(names, symbol, base) matches Some(i) ==> asset_place(names + more, symbol, base)
            == Some(i),
{
    lemma_asset_place(names, symbol, base);
    lemma_asset_place(names + more, symbol, base);
    if 0 <= k < names.len() && asset_matches(names[k], symbol, base) {
        assert(asset_place(names, symbol, base) is Some);
    }
    if let Some(i) = asset_place(names, symbol, base) {
        let all = names + more;
        assert(all[i] == names[i]);
        assert(asset_place(all, symbol, base) is Some);
        if let Some(j) = asset_place(all, symbol, base) {
            if j < i {
                assert(all[j] == names[j]);
            }
        }
    }
}

// ---- the account ---------------------------------------------------------------------------------------

/// Whether one of the entries of an account is about a coin.
pub open spec fn mentions(entries: Seq<JsonView>, symbol: Seq<char>) -> bool {
    exists|i: int|
        0 <= i < entries.len() && coin_matches(
            (#[trigger] entries[i]).field("position"@).text_at("coin"@),
            symbol,
        )
}

/// The first entry about a coin tells its position: entries about other coins before it, and any entries
/// after it, change nothing. Without such an entry there is no position.
pub proof fn first_entries_tell_the_position(
    before: Seq<JsonView>,
    after: Seq<JsonView>,
    symbol: Seq<char>,
)
    ensures
        !mentions(before, symbol) ==> position_among(before + after, symbol) == position_among(
            after,
            symbol,
        ),
        mentions(before, symbol) ==> position_among(before + after, symbol) == position_among(
            before,
            symbol,
        ),
        !mentions(before, symbol) ==> position_among(before, symbol).size == zero(),
    decreases before.len(),
{
    if before.len() == 0 {
        assert(before + after =~= after);
    } else {
        let all = before + after;
        let rest = before.skip(1);
        assert(all[0] == before[0]);
        assert(all.skip(1) =~= rest + after);
        first_entries_tell_the_position(rest, after, symbol);
        if !coin_matches(before[0].field("position"@).text_at("coin"@), symbol) {
            assert(mentions(rest, symbol) == mentions(before, symbol)) by {
                if mentions(rest, symbol) {
                    let i = choose|i: int|
                        0 <= i < rest.len() && coin_matches(
                            (#[trigger] rest[i]).field("position"@).text_at("coin"@),
                            symbol,
                        );
                    assert(before[i + 1] == rest[i]);
                }
                if mentions(before, symbol) {
                    let i = choose|i: int|
                        0 <= i < before.len() && coin_matches(
                            (#[trigger] before[i]).field("position"@).text_at("coin"@),
                            symbol,
                        );
                    assert(rest[i - 1] == before[i]);
                }
            }
        } else {
            assert(mentions(before, symbol));
        }
    }
}

/// Equity is never negative. It is the value of the account where that is positive, else that of its
/// cross margin.
pub proof fn equity_is_the_value_of_the_account(state: JsonView)
    ensures
        zero().at_most(equity_of(state)),
        state.field("marginSummary"@).double_at("accountValue"@) matches Some(v) ==> (zero().less(v)
            ==> equity_of(state) == v),
        state.field("marginSummary"@).double_at("accountValue"@) is None ==> (state.field(
            "crossMarginSummary"@,
        ).double_at("accountValue"@) matches Some(v) ==> (zero().less(v) ==> equity_of(state)
            == v)),
{
    assert(mag(0) == 0);
}

/// An order that is modified to a wish reaches the exchange as the wish would if it were placed anew.
pub proof fn modified_orders_are_wired_as_new_ones(asset: u32, oid: u64, coin: Seq<char>, d: Desired)
    ensures
        replacement(
            asset,
            ModifyRequest {
                oid,
                new_price: d.price,
                new_size: d.size,
                is_buy: d.is_buy,
                reduce_only: false,
            },
        ) == (oid, wired(asset, new_order(coin, d))),
{
}

/// The first error of an answer is what is told of it, whatever comes after.
pub proof fn first_errors_are_told(
    statuses: Seq<JsonView>,
    m: int,
    n: int,
    requests: Seq<RequestView>,
)
    requires
        0 <= m <= n <= statuses.len(),
    ensures
        after_statuses(statuses, m, requests).first_error is Some ==> after_statuses(
            statuses,
            n,
            requests,
        ).first_error == after_statuses(statuses, m, requests).first_error,
        after_statuses(statuses, m, requests).margin_errs <= after_statuses(
            statuses,
            n,
            requests,
        ).margin_errs,
        after_statuses(statuses, m, requests).buy_oids.is_prefix_of(
            after_statuses(statuses, n, requests).buy_oids,
        ),
        after_statuses(statuses, m, requests).sell_oids.is_prefix_of(
            after_statuses(statuses, n, requests).sell_oids,
        ),
    decreases n - m,
{
    if m < n {
        first_errors_are_told(statuses, m, n - 1, requests);
    }
}

// ---- the orders of a session ---------------------------------------------------------------------------

proof fn lemma_without(s: Seq<u64>, oid: u64, x: u64)
    ensures
        without(s, oid).contains(x) <==> s.contains(x) && x != oid,
    decreases s.len(),
{
    if s.len() > 0 {
        let t = s.drop_last();
        lemma_without(t, oid, x);
        let before = without(t, oid);
        let now = without(s, oid);
        if s.contains(x) && x != oid {
            if s.last() == x {
                assert(now[now.len() - 1] == x);
            } else {
                let i = s.index_of(x);
                assert(t[i] == x);
                let k = before.index_of(x);
                assert(now[k] == x);
            }
        }
        if now.contains(x) {
            let k = now.index_of(x);
            if k < before.len() {
                assert(before[k] == x);
                let i = t.index_of(x);
                assert(s[i] == x);
            } else {
                assert(s[s.len() - 1] == x);
            }
        }
    }
}

/// Whether an order is among the first `n` that are cancelled.
pub open spec fn is_cancelled(cancels: Seq<(Seq<char>, u64)>, n: int, oid: u64) -> bool {
    exists|k: int| 0 <= k < n && (#[trigger] cancels[k]).1 == oid
}

proof fn lemma_cancelled(s: MmModel, cancels: Seq<(Seq<char>, u64)>, n: int, x: u64)
    requires
        0 <= n <= cancels.len(),
    ensures
        ({
            let t = s.without_cancelled(cancels, n);
            let gone = is_cancelled(cancels, n, x);
            &&& t.buy_oids.contains(x) == (s.buy_oids.contains(x) && !gone)
            &&& t.sell_oids.contains(x) == (s.sell_oids.contains(x) && !gone)
            &&& t.order_details.contains_key(x) == (s.order_details.contains_key(x) && !gone)
            &&& t.order_details.contains_key(x) ==> t.order_details[x] == s.order_details[x]
        }),
    decreases n,
{
    if n > 0 {
        lemma_cancelled(s, cancels, n - 1, x);
        let t = s.without_cancelled(cancels, n - 1);
        lemma_without(t.buy_oids, cancels[n - 1].1, x);
        lemma_without(t.sell_oids, cancels[n - 1].1, x);
        if cancels[n - 1].1 == x {
            assert(0 <= n - 1 < n && cancels[n - 1].1 == x);
        }
        if is_cancelled(cancels, n, x) {
            let k = choose|k: int| 0 <= k < n && (#[trigger] cancels[k]).1 == x;
            if k < n - 1 {
                assert(is_cancelled(cancels, n - 1, x));
            }
        }
        if is_cancelled(cancels, n - 1, x) {
            let k = choose|k: int| 0 <= k < n - 1 && (#[trigger] cancels[k]).1 == x;
            assert(0 <= k < n && cancels[k].1 == x);
        }
    }
}

/// Of orders that were cancelled nothing is left, and all others rest as before.
pub proof fn cancelled_orders_are_forgotten(s: MmModel, plan: PlanView, x: u64)
    ensures
        ({
            let t = cancelled(s, plan);
            let gone = is_cancelled(plan.diff.cancels, plan.diff.cancels.len() as int, x);
            &&& t.buy_oids.contains(x) == (s.buy_oids.contains(x) && !gone)
            &&& t.sell_oids.contains(x) == (s.sell_oids.contains(x) && !gone)
            &&& t.order_details.contains_key(x) == (s.order_details.contains_key(x) && !gone)
            &&& t.order_details.contains_key(x) ==> t.order_details[x] == s.order_details[x]
        }),
{
    let n = plan.diff.cancels.len() as int;
    lemma_cancelled(s, plan.diff.cancels, n, x);
    reveal(cancelled);
}

/// After a round the market that it quoted is where quotes are measured from: it has not drifted, its
/// width has not changed, and the quotes have no age.
pub proof fn rounds_are_measured_from_their_market(
    config: Config,
    s: MmModel,
    plan: PlanView,
    now: Double,
)
    requires
        positive(config.token.tick_size),
        plan.bbo.mid.is_finite(),
        positive(now),
    ensures
        ({
            let after = anchored(config, s, plan, now);
            let tick = config.token.tick_size;
            &&& drift(after.anchor_price, plan.bbo.mid, tick) == 0
            &&& !width_changed(after.anchor_spread_ticks, market_ticks(plan.bbo, tick))
            &&& quote_age(after, now).value() == 0
        }),
{
    assert(mag(0) == 0);
    let tick = config.token.tick_size;
    let mid = plan.bbo.mid;
    lemma_difference(mid, mid);
    lemma_difference(now, now);
    lemma_value(now);
    lemma_value(tick);
    let z = mid.minus(mid).magnitude();
    lemma_value(mid.minus(mid));
    lemma_value(z);
    crate::order::lemma_zero_quotient(z, tick);
    lemma_value(z.over(tick));
    lemma_value(now.minus(now));
    vstd::arithmetic::power2::lemma_pow2_pos(crate::double::UNIT as nat);
    let q = z.over(tick);
    assert(z.index() == 0);
    assert(q.value() == 0);
    assert(mag(q.index()) == 0);
    assert(0nat / one_unit() == 0) by (nonlinear_arith)
        requires
            one_unit() > 0,
    ;
    assert(q.truncated() == 0);
    assert(drift(Some(mid), mid, tick) == 0);
}

} // verus!
