//! What holds of the messages of a feed: of the middle and the depths of a book, and of the fills that
//! are heard.
use vstd::prelude::*;

use crate::bounds::lemma_value;
use crate::config::{after_last, base_of};
use crate::double::{lemma_exact, lemma_nearest, mag, one_unit, quotient, zero, Double, UNIT};
use crate::exchange::{coin_matches, or_zero};
use crate::json::JsonView;
use crate::market_laws::lemma_doubled;
use crate::matching_laws::positive;
use crate::order::{
    lemma_extended, lemma_half, lemma_plus_commutes, lemma_plus_value, lemma_rounded,
    products_keep_order, sums_keep_order,
};
use crate::text::{holds, stands_at};
use crate::websocket::{
    book_of, depth, depth_5, fill_event, fill_events, WsEventView, WsSharedState,
};

verus! {

// ---- the book --------------------------------------------------------------------------------------

/// Twice a number, halved, is the number.
proof fn lemma_halved(x: Double)
    requires
        positive(x),
        x.plus(x).is_finite(),
    ensures
        x.plus(x).times(quotient(1, 2)) == x,
        !quotient(1, 2).is_nan(),
        zero().less(quotient(1, 2)),
{
    let u = one_unit();
    vstd::arithmetic::power2::lemma_pow2_pos(UNIT as nat);
    assert(mag(0) == 0);
    let half = quotient(1, 2);
    lemma_half();
    lemma_extended(u, 2, 5);
    assert(u * 5 == 5 * u && 1 * u == u);
    assert(half == quotient(5, 10));
    lemma_value(half);
    lemma_value(x);
    let i = x.index();
    let m = mag(i);
    let j = lemma_doubled(i);
    let d = x.plus(x);
    if j > crate::double::INF {
        crate::double::lemma_mag_order(crate::double::INF as int, j);
        crate::order::lemma_rounding_monotone(
            mag(crate::double::INF as int),
            2 * m,
            1,
        );
        lemma_exact(1, crate::double::INF as int);
        lemma_nearest(mag(crate::double::INF as int), 1, crate::double::INF as int);
        lemma_rounded(false, 2 * m, 1);
    } else {
        lemma_exact(1, j);
        lemma_nearest(2 * m, 1, j);
        lemma_rounded(false, 2 * m, 1);
    }
    assert(d.index() == j && !d.neg());
    lemma_exact(u, i);
    let num = mag(j) * mag(half.index());
    assert(num == m * u) by (nonlinear_arith)
        requires
            num == (2 * m) * mag(half.index()),
            2 * mag(half.index()) == u,
    ;
    lemma_nearest(num, u, i);
    lemma_rounded(false, num, u);
}

/// The middle of a book lies between its best bid and its best ask, wherever these are, and is the
/// same from either side; the best prices and the depths of a book that is turned round are
/// exchanged.
pub proof fn mids_lie_between_the_best_prices(bids: Seq<JsonView>, asks: Seq<JsonView>)
    ensures
        book_of(bids, asks) matches Some(
            WsEventView::L2Update { best_bid, best_ask, mid, bid_depth_5, ask_depth_5 },
        ) ==> {
            &&& positive(best_bid) && best_bid.at_most(best_ask) && best_ask.plus(best_ask).is_finite()
                ==> best_bid.at_most(mid) && mid.at_most(best_ask)
            &&& book_of(asks, bids) == Some(
                WsEventView::L2Update {
                    best_bid: best_ask,
                    best_ask: best_bid,
                    mid,
                    bid_depth_5: ask_depth_5,
                    ask_depth_5: bid_depth_5,
                },
            )
        },
{
    if let Some(e) = book_of(bids, asks) {
        if let WsEventView::L2Update { best_bid, best_ask, mid, bid_depth_5, ask_depth_5 } = e {
            lemma_plus_commutes(best_bid, best_ask);
            let half = quotient(1, 2);
            if positive(best_bid) && best_bid.at_most(best_ask) && best_ask.plus(
                best_ask,
            ).is_finite() {
                let b = best_bid;
                let a = best_ask;
                assert(mag(0) == 0);
                lemma_value(a);
                lemma_value(b);
                assert(a.is_finite()) by {
                    if a.is_inf() {
                        assert(a.plus(a) == a);
                    }
                }
                lemma_plus_value(b, b);
                lemma_plus_value(a, b);
                lemma_plus_value(b, a);
                lemma_plus_value(a, a);
                sums_keep_order(b, a, b);
                sums_keep_order(b, a, a);
                let low = b.plus(b);
                let mean = b.plus(a);
                let high = a.plus(a);
                assert(low.at_most(mean) && mean.at_most(high));
                lemma_value(low);
                lemma_value(mean);
                lemma_value(high);
                assert(low.is_finite() && mean.is_finite()) by {
                    let bv = b.value();
                    let av = a.value();
                    lemma_rounded(false, (bv + bv) as nat, 1);
                    lemma_rounded(false, (bv + av) as nat, 1);
                    crate::double::lemma_mag_order(high.index(), crate::double::INF as int);
                }
                lemma_halved(a);
                lemma_halved(b);
                crate::order::product_is_number(mean, half);
                products_keep_order(low, mean, half);
                products_keep_order(mean, high, half);
            }
        }
    }
}

/// The depth of a side is that of its five best levels: each of the first five adds its size, and those
/// after them add nothing.
pub proof fn depths_count_five_levels(levels: Seq<JsonView>, next: JsonView)
    ensures
        levels.len() < 5 ==> depth_5(levels.push(next)) == depth_5(levels).plus(
            or_zero(next.double_at("sz"@)),
        ),
        levels.len() >= 5 ==> depth_5(levels.push(next)) == depth_5(levels),
        depth_5(Seq::<JsonView>::empty()) == zero(),
{
    let more = levels.push(next);
    lemma_depth(levels, next, if levels.len() < 5 { levels.len() as int } else { 5 });
    if levels.len() < 5 {
        let n = levels.len() as int;
        assert(more[n] == next);
        assert(depth(more, n + 1) == depth(more, n).plus(or_zero(more[n].double_at("sz"@))));
    }
}

proof fn lemma_depth(levels: Seq<JsonView>, next: JsonView, n: int)
    requires
        n <= levels.len(),
    ensures
        depth(levels.push(next), n) == depth(levels, n),
    decreases n,
{
    if n > 0 {
        lemma_depth(levels, next, n - 1);
        assert(levels.push(next)[n - 1] == levels[n - 1]);
    }
}

// ---- names ------------------------------------------------------------------------------------------

proof fn lemma_after_last(s: Seq<char>, c: char)
    ensures
        0 <= after_last(s, c) <= s.len(),
        after_last(s, c) > 0 ==> s[after_last(s, c) - 1] == c,
        forall|i: int| after_last(s, c) <= i < s.len() ==> s[i] != c,
    decreases s.len(),
{
    if s.len() > 0 && s.last() != c {
        lemma_after_last(s.drop_last(), c);
        let k = after_last(s, c);
        assert forall|i: int| k <= i < s.len() implies s[i] != c by {
            if i < s.len() - 1 {
                assert(s.drop_last()[i] == s[i]);
            }
        }
    }
}

/// The short name of a symbol is what stands after its last colon, and the whole of it where there is
/// none; it is its own short name. A coin is recognized by its symbol and by its short name.
pub proof fn short_names_follow_the_colon(dex: Seq<char>, name: Seq<char>)
    requires
        !name.contains(':'),
    ensures
        base_of(dex + seq![':'] + name) == name,
        base_of(name) == name,
        coin_matches(name, dex + seq![':'] + name),
        coin_matches(dex + seq![':'] + name, dex + seq![':'] + name),
{
    let s = dex + seq![':'] + name;
    lemma_after_last(s, ':');
    lemma_after_last(name, ':');
    let k = after_last(s, ':');
    assert(s[dex.len() as int] == ':');
    assert(k >= dex.len() + 1);
    if k > dex.len() + 1 {
        assert(s[k - 1] == name[k - 1 - dex.len() - 1]);
    }
    assert(s.skip(k) =~= name);
    let j = after_last(name, ':');
    if j > 0 {
        assert(name[j - 1] == ':');
    }
    assert(name.skip(0) =~= name);
}

// ---- fills ------------------------------------------------------------------------------------------

/// A fill is a purchase when its direction speaks of buying or of a long position, wherever in it; a
/// direction without these words is a sale.
pub proof fn directions_tell_the_side(fill: JsonView, before: Seq<char>, after: Seq<char>)
    ensures
        fill.text_at("dir"@) == before + "Long"@ + after ==> fill_event(fill)->is_buy,
        fill.text_at("dir"@) == before + "Buy"@ + after ==> fill_event(fill)->is_buy,
        (forall|at: int| !stands_at(fill.text_at("dir"@), "Long"@, at)) && (forall|at: int|
            !stands_at(fill.text_at("dir"@), "Buy"@, at)) ==> !fill_event(fill)->is_buy,
{
    let dir = fill.text_at("dir"@);
    let at = before.len() as int;
    if dir == before + "Long"@ + after {
        assert(dir.subrange(at, at + "Long"@.len()) =~= "Long"@);
        assert(stands_at(dir, "Long"@, at));
    }
    if dir == before + "Buy"@ + after {
        assert(dir.subrange(at, at + "Buy"@.len()) =~= "Buy"@);
        assert(stands_at(dir, "Buy"@, at));
    }
}

/// Fills are heard in the order in which they are told, and only those of the coin: telling some more
/// afterwards leaves what was heard, and adds a fill of the coin, never one of another.
pub proof fn fills_of_the_coin_are_heard(fills: Seq<JsonView>, next: JsonView, symbol: Seq<char>)
    ensures
        ({
            let n = fills.len() as int;
            let heard = fill_events(fills, n, symbol);
            let more = fill_events(fills.push(next), n + 1, symbol);
            &&& heard.len() <= n
            &&& more.take(heard.len() as int) == heard
            &&& coin_matches(next.text_at("coin"@), symbol) ==> more.len() == heard.len() + 1
                && more.last()->price == or_zero(next.double_at("px"@)) && more.last()->size
                == or_zero(next.double_at("sz"@)) && more.last()->fee == or_zero(
                next.double_at("fee"@),
            ) && more.last()->closed_pnl == or_zero(next.double_at("closedPnl"@))
            &&& !coin_matches(next.text_at("coin"@), symbol) ==> more == heard
        }),
{
    let n = fills.len() as int;
    lemma_fills(fills, next, n, symbol);
    let heard = fill_events(fills, n, symbol);
    let more = fill_events(fills.push(next), n + 1, symbol);
    assert(fills.push(next)[n] == next);
    assert(more == if coin_matches(next.text_at("coin"@), symbol) {
        heard.push(fill_event(next))
    } else {
        heard
    });
    assert(more.take(heard.len() as int) =~= heard);
}

proof fn lemma_fills(fills: Seq<JsonView>, next: JsonView, n: int, symbol: Seq<char>)
    requires
        n <= fills.len(),
    ensures
        fill_events(fills.push(next), n, symbol) == fill_events(fills, n, symbol),
        n >= 0 ==> fill_events(fills, n, symbol).len() <= n,
    decreases n,
{
    if n > 0 {
        lemma_fills(fills, next, n - 1, symbol);
        assert(fills.push(next)[n - 1] == fills[n - 1]);
    }
}

// ---- the shared state ---------------------------------------------------------------------------------

/// A feed is ready from a book on until it is cut off. A book is kept until the next one, even when the
/// feed is cut off.
pub proof fn feeds_are_ready_between_a_book_and_a_cut(
    shared: WsSharedState,
    book: WsEventView,
    other: WsEventView,
    now: Double,
    later: Double,
)
    requires
        book is L2Update,
        !(other is L2Update),
    ensures
        shared.after(book, now).ready,
        shared.after(book, now).after(other, later).ready == !(other is Disconnected),
        shared.after(book, now).after(other, later).bbo == shared.after(book, now).bbo,
        shared.after(book, now).after(other, later).last_msg_ts == now,
        !shared.after(WsEventView::Disconnected, now).ready,
        shared.after(book, now).bbo matches Some(b) && b.mid == book->mid && b.best_bid
            == book->best_bid && b.best_ask == book->best_ask,
{
}

} // verus!
