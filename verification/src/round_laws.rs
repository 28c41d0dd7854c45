//! What holds of a round of trading: of the orders that it keeps, changes and places, of where
//! it ends, and of what it leaves as it was.
use vstd::prelude::*;

use crate::config::Config;
use crate::double::{of_int, quotient, zero, Double};
use crate::exchange::{labelled, ModifyRequest};
use crate::fills::without;
use crate::iteration::{
    all_orders, begun, cancelled, cleared, closing_of, diff_for, filtered, finished, flatten_wanted,
    flattened, guarded, hedged, judged, loss_stop, placed, quoted, recovered, requoted, settled,
    stepped, trend_closed, trend_paused, window_over, window_reset, with_placed, ClosingView,
    PlanView, ReplyView, StageView,
};
use crate::laws::{bounded, spaced, well_counted};
use crate::market::Decay;
use crate::quoting::{
    additions, after_order, closest, diff_of, distance, joined, lemma_closest, matching,
    size_change, Desired, Kept, Matching,
};
use crate::risk::risk_of;
use crate::trading::after_event;
use crate::types::{MmModel, TrackedOrder};
use crate::websocket::WsEventView;

verus! {

// ---- matching -------------------------------------------------------------------------------------

/// The ids of some kept orders.
pub open spec fn kept_oids(s: Seq<Kept>) -> Seq<u64> {
    s.map_values(|k: Kept| k.oid)
}

/// The ids of some orders to be modified.
pub open spec fn modify_oids(s: Seq<ModifyRequest>) -> Seq<u64> {
    s.map_values(|m: ModifyRequest| m.oid)
}

/// How many of the first `n` marks are set.
pub open spec fn marks(s: Seq<bool>, n: int) -> int
    decreases n,
{
    if n <= 0 {
        0
    } else {
        marks(s, n - 1) + if s[n - 1] {
            1int
        } else {
            0
        }
    }
}

proof fn lemma_no_marks(s: Seq<bool>, n: int)
    requires
        0 <= n <= s.len(),
        forall|i: int| 0 <= i < s.len() ==> !#[trigger] s[i],
    ensures
        marks(s, n) == 0,
    decreases n,
{
    if n > 0 {
        lemma_no_marks(s, n - 1);
    }
}

proof fn lemma_one_more_mark(s: Seq<bool>, i: int, n: int)
    requires
        0 <= i < s.len(),
        0 <= n <= s.len(),
        !s[i],
    ensures
        marks(s.update(i, true), n) == marks(s, n) + if i < n {
            1int
        } else {
            0
        },
    decreases n,
{
    if n > 0 {
        lemma_one_more_mark(s, i, n - 1);
    }
}

proof fn lemma_matching_step(
    m: Matching,
    desired: Seq<Desired>,
    details: Map<u64, TrackedOrder>,
    oid: u64,
    tick: Double,
    min_size: Double,
)
    requires
        m.matched.len() == desired.len(),
    ensures
        ({
            let r = after_order(m, desired, details, oid, tick, min_size);
            &&& r.matched.len() == desired.len()
            &&& r.kept.len() + r.modifies.len() + r.cancels.len() == m.kept.len()
                + m.modifies.len() + m.cancels.len() + 1
            &&& marks(r.matched, desired.len() as int) - marks(m.matched, desired.len() as int)
                == r.kept.len() + r.modifies.len() - m.kept.len() - m.modifies.len()
            &&& kept_oids(r.kept).to_multiset().add(modify_oids(r.modifies).to_multiset()).add(
                r.cancels.to_multiset(),
            ) == kept_oids(m.kept).to_multiset().add(modify_oids(m.modifies).to_multiset()).add(
                m.cancels.to_multiset(),
            ).insert(oid)
            &&& forall|i: int| 0 <= i < desired.len() && #[trigger] m.matched[i] ==> r.matched[i]
        }),
{
    broadcast use vstd::seq_lib::group_to_multiset_ensures;

    let r = after_order(m, desired, details, oid, tick, min_size);
    if details.contains_key(oid) {
        lemma_closest(desired, m.matched, details[oid], tick, desired.len() as int);
        if let Some((i, dist)) = closest(
            desired,
            m.matched,
            details[oid],
            tick,
            desired.len() as int,
        ) {
            lemma_one_more_mark(m.matched, i, desired.len() as int);
        }
    }
    if r.kept.len() > m.kept.len() {
        assert(kept_oids(r.kept) =~= kept_oids(m.kept).push(oid));
    } else if r.modifies.len() > m.modifies.len() {
        assert(modify_oids(r.modifies) =~= modify_oids(m.modifies).push(oid));
    } else {
        assert(r.cancels == m.cancels.push(oid));
    }
    assert(kept_oids(r.kept).to_multiset().add(modify_oids(r.modifies).to_multiset()).add(
        r.cancels.to_multiset(),
    ) =~= kept_oids(m.kept).to_multiset().add(modify_oids(m.modifies).to_multiset()).add(
        m.cancels.to_multiset(),
    ).insert(oid));
}

/// Each order that rests has one fate: it is kept, modified or cancelled; and each match takes
/// one wanted order.
pub proof fn each_order_has_one_fate(
    existing: Seq<u64>,
    n: int,
    desired: Seq<Desired>,
    details: Map<u64, TrackedOrder>,
    tick: Double,
    min_size: Double,
)
    requires
        0 <= n <= existing.len(),
    ensures
        ({
            let m = matching(existing, n, desired, details, tick, min_size);
            &&& m.matched.len() == desired.len()
            &&& kept_oids(m.kept).to_multiset().add(modify_oids(m.modifies).to_multiset()).add(
                m.cancels.to_multiset(),
            ) == existing.take(n).to_multiset()
            &&& m.kept.len() + m.modifies.len() + m.cancels.len() == n
            &&& marks(m.matched, desired.len() as int) == m.kept.len() + m.modifies.len()
        }),
    decreases n,
{
    broadcast use vstd::seq_lib::group_to_multiset_ensures;

    let m = matching(existing, n, desired, details, tick, min_size);
    if n <= 0 {
        lemma_no_marks(m.matched, desired.len() as int);
        assert(kept_oids(m.kept) =~= Seq::<u64>::empty());
        assert(modify_oids(m.modifies) =~= Seq::<u64>::empty());
        assert(existing.take(n) =~= Seq::<u64>::empty());
        assert(kept_oids(m.kept).to_multiset().add(modify_oids(m.modifies).to_multiset()).add(
            m.cancels.to_multiset(),
        ) =~= existing.take(n).to_multiset());
    } else {
        each_order_has_one_fate(existing, n - 1, desired, details, tick, min_size);
        lemma_matching_step(
            matching(existing, n - 1, desired, details, tick, min_size),
            desired,
            details,
            existing[n - 1],
            tick,
            min_size,
        );
        assert(existing.take(n) =~= existing.take(n - 1).push(existing[n - 1]));
        assert(existing.take(n).to_multiset() =~= existing.take(n - 1).to_multiset().insert(
            existing[n - 1],
        ));
    }
}

proof fn lemma_additions_len(coin: Seq<char>, desired: Seq<Desired>, matched: Seq<bool>, n: int)
    requires
        0 <= n <= desired.len(),
        matched.len() == desired.len(),
    ensures
        additions(coin, desired, matched, n).len() + marks(matched, n) == n,
        forall|i: int|
            0 <= i < additions(coin, desired, matched, n).len() ==> {
                let o = #[trigger] additions(coin, desired, matched, n)[i];
                o.tif == "Alo"@ && !o.reduce_only
            },
    decreases n,
{
    if n > 0 {
        lemma_additions_len(coin, desired, matched, n - 1);
    }
}

/// Each wanted order gets one: of those that rest, kept or modified, or a new one.
pub proof fn each_wanted_order_gets_one(
    existing: Seq<u64>,
    desired: Seq<Desired>,
    details: Map<u64, TrackedOrder>,
    coin: Seq<char>,
    tick: Double,
    min_size: Double,
)
    ensures
        ({
            let d = diff_of(existing, desired, details, coin, tick, min_size);
            &&& d.kept.len() + d.modifies.len() + d.adds.len() == desired.len()
            &&& d.kept.len() + d.modifies.len() + d.cancels.len() == existing.len()
        }),
{
    each_order_has_one_fate(
        existing,
        existing.len() as int,
        desired,
        details,
        tick,
        min_size,
    );
    let m = matching(existing, existing.len() as int, desired, details, tick, min_size);
    lemma_additions_len(coin, desired, m.matched, desired.len() as int);
}

/// Only known orders are kept, within one tick of the wanted price and five percent of the
/// wanted size; and a known order is cancelled only where every wanted order of its side has
/// another.
pub proof fn fates_are_justified(
    existing: Seq<u64>,
    n: int,
    desired: Seq<Desired>,
    details: Map<u64, TrackedOrder>,
    tick: Double,
    min_size: Double,
)
    requires
        0 <= n <= existing.len(),
    ensures
        ({
            let m = matching(existing, n, desired, details, tick, min_size);
            &&& m.matched.len() == desired.len()
            &&& forall|i: int|
                0 <= i < m.kept.len() ==> {
                    let k = #[trigger] m.kept[i];
                    let o = details[k.oid];
                    &&& details.contains_key(k.oid)
                    &&& distance(o, k.price, tick).at_most(of_int(1))
                    &&& size_change(o.size, k.size, min_size).at_most(quotient(5, 100))
                }
            &&& forall|i: int|
                0 <= i < m.modifies.len() ==> {
                    let r = #[trigger] m.modifies[i];
                    details.contains_key(r.oid) && r.is_buy == details[r.oid].is_buy
                }
            &&& forall|i: int, j: int|
                0 <= i < m.cancels.len() && details.contains_key(#[trigger] m.cancels[i]) && 0 <= j
                    < desired.len() && desired[j].is_buy == details[m.cancels[i]].is_buy
                    ==> #[trigger] m.matched[j]
        }),
    decreases n,
{
    if n > 0 {
        fates_are_justified(existing, n - 1, desired, details, tick, min_size);
        let b = matching(existing, n - 1, desired, details, tick, min_size);
        let m = matching(existing, n, desired, details, tick, min_size);
        let oid = existing[n - 1];
        lemma_matching_step(b, desired, details, oid, tick, min_size);
        if details.contains_key(oid) {
            lemma_closest(desired, b.matched, details[oid], tick, desired.len() as int);
        }
        assert forall|i: int, j: int|
            0 <= i < m.cancels.len() && details.contains_key(#[trigger] m.cancels[i]) && 0 <= j
                < desired.len() && desired[j].is_buy == details[m.cancels[i]].is_buy implies
            #[trigger] m.matched[j] by {
            if i < b.cancels.len() {
                assert(m.cancels[i] == b.cancels[i]);
                assert(b.matched[j]);
            }
        }
    }
}

// ---- the end of a round ------------------------------------------------------------------------------

/// How far a stage is from the end of its round.
pub open spec fn rank(stage: StageView) -> int {
    match stage {
        StageView::Begin => 9,
        StageView::Flatten(_) => 8,
        StageView::HedgeCancel { cancels, close } => 7,
        StageView::HedgePlace(_) => 6,
        StageView::TrendCancel { cancels, close } => 5,
        StageView::TrendClose(_) => 4,
        StageView::Pull { cancels } => 4,
        StageView::CancelOrders(_) => 3,
        StageView::ModifyOrders(_) => 2,
        StageView::PlaceOrders(_) => 1,
        StageView::Done => 0,
    }
}

proof fn lemma_requoted_rank(config: Config, s: MmModel, now: Double)
    ensures
        0 <= rank(requoted(config, s, now).1) <= 4,
{
    reveal(requoted);
    reveal(quoted);
    reveal(cleared);
    reveal(settled);
}

pub(crate) proof fn lemma_filtered_rank(config: Config, s: MmModel, now: Double, ts_ms: u64)
    ensures
        0 <= rank(filtered(config, s, now, ts_ms).1) <= 5,
{
    reveal(filtered);
    lemma_requoted_rank(config, s, now);
}

pub(crate) proof fn lemma_guarded_rank(config: Config, s: MmModel, now: Double, ts_ms: u64)
    ensures
        0 <= rank(guarded(config, s, now, ts_ms).1) <= 7,
{
    reveal(guarded);
    lemma_filtered_rank(config, s, now, ts_ms);
}

/// Every reply brings a round closer to its end, so that it asks the exchange at most eight
/// times.
pub proof fn rounds_end(
    config: Config,
    s: MmModel,
    stage: StageView,
    reply: ReplyView,
    now: Double,
    ts_ms: u64,
)
    ensures
        stage is Done ==> stepped(config, s, stage, reply, now, ts_ms) == (s, StageView::Done),
        !(stage is Done) ==> 0 <= rank(stepped(config, s, stage, reply, now, ts_ms).1) < rank(
            stage,
        ) <= 9,
{
    match stage {
        StageView::Begin => {
            reveal(begun);
            lemma_guarded_rank(config, s, now, ts_ms);
            lemma_guarded_rank(config, window_reset(config, s, now, ts_ms), now, ts_ms);
        },
        StageView::Flatten(c) => {
            lemma_guarded_rank(config, flattened(s, c, ts_ms), now, ts_ms);
        },
        StageView::HedgePlace(c) => {
            lemma_filtered_rank(config, hedged(s, c, ts_ms), now, ts_ms);
        },
        StageView::CancelOrders(plan) => {
            reveal(cleared);
            reveal(settled);
        },
        StageView::ModifyOrders(plan) => {
            reveal(settled);
        },
        _ => {},
    }
}

/// A round of a session that has lost more than it may quotes and hedges nothing: the session
/// is stopped at once, or, where a horizon ends with too large an inventory, right after that
/// was flattened.
pub proof fn losses_stop_the_session(
    config: Config,
    s: MmModel,
    c: ClosingView,
    reply: ReplyView,
    now: Double,
    ts_ms: u64,
)
    requires
        loss_stop(config, s),
    ensures
        ({
            let (t, stage) = stepped(config, s, StageView::Begin, reply, now, ts_ms);
            if window_over(config, s, now) && flatten_wanted(config, s) {
                stage is Flatten && loss_stop(config, t)
            } else {
                stage is Done && !t.running
            }
        }),
        ({
            let (t, stage) = stepped(config, s, StageView::Flatten(c), reply, now, ts_ms);
            stage is Done && !t.running
        }),
{
    reveal(begun);
    reveal(flattened);
    reveal(guarded);
}

/// At an emergency the session is stopped; then, as when the feed is stale, all orders are
/// cancelled and none is left in the state.
pub proof fn stops_pull_all_orders(config: Config, s: MmModel, now: Double)
    requires
        s.bbo is Some,
        risk_of(config, recovered(s, now), now) is EmergencyStop || risk_of(
            config,
            recovered(s, now),
            now,
        ) is FeedStale,
    ensures
        ({
            let (t, stage) = requoted(config, s, now);
            &&& risk_of(config, recovered(s, now), now) is EmergencyStop ==> !t.running
            &&& t.buy_oids.len() == 0 && t.sell_oids.len() == 0
            &&& t.order_details == Map::<u64, TrackedOrder>::empty()
            &&& match stage {
                StageView::Pull { cancels } => cancels == labelled(
                    config.token.symbol@,
                    s.buy_oids + s.sell_oids,
                ),
                StageView::Done => s.buy_oids.len() == 0 && s.sell_oids.len() == 0,
                _ => false,
            }
        }),
{
    reveal(requoted);
    let c = all_orders(config, recovered(s, now));
    assert(c.len() == s.buy_oids.len() + s.sell_oids.len());
}

// ---- what a round places -------------------------------------------------------------------------------

/// A closing is one order that can only reduce a position, and that does not rest.
pub open spec fn only_closes(c: ClosingView) -> bool {
    c.orders.len() == 1 && c.orders[0].reduce_only && c.orders[0].tif == "Ioc"@
        && c.orders[0].is_buy == c.is_buy && c.orders[0].sz == c.size
}

/// The orders of a plan only add liquidity.
pub open spec fn only_makes(p: PlanView) -> bool {
    forall|i: int|
        0 <= i < p.diff.adds.len() ==> (#[trigger] p.diff.adds[i]).tif == "Alo"@
            && !p.diff.adds[i].reduce_only
}

/// What a stage places is either a closing or makes liquidity.
pub open spec fn sound_stage(stage: StageView) -> bool {
    match stage {
        StageView::Flatten(c) => only_closes(c),
        StageView::HedgeCancel { cancels, close } => only_closes(close),
        StageView::HedgePlace(c) => only_closes(c),
        StageView::TrendCancel { cancels, close } => close matches Some(c) ==> only_closes(c),
        StageView::TrendClose(c) => only_closes(c),
        StageView::CancelOrders(p) => only_makes(p),
        StageView::ModifyOrders(p) => only_makes(p),
        StageView::PlaceOrders(p) => only_makes(p),
        _ => true,
    }
}

proof fn lemma_closing(config: Config, position: Double, size: Double, mid: Double, pnl: Double)
    ensures
        only_closes(closing_of(config, position, size, mid, pnl)),
{
    reveal(closing_of);
}

proof fn lemma_requoted_sound(config: Config, s: MmModel, now: Double)
    ensures
        sound_stage(requoted(config, s, now).1),
{
    reveal(requoted);
    reveal(quoted);
    reveal(cleared);
    reveal(settled);
    let r = recovered(s, now);
    if let Some(bbo) = r.bbo {
        let refresh = crate::risk::refresh_of(config, r, now, risk_of(config, r, now));
        lemma_diff_makes(config, r, bbo, refresh, now);
    }
}

proof fn lemma_diff_makes(
    config: Config,
    s: MmModel,
    bbo: crate::types::Bbo,
    refresh: crate::risk::RefreshReason,
    now: Double,
)
    ensures
        forall|i: int|
            0 <= i < diff_for(config, s, bbo, refresh, now).adds.len() ==> (
            #[trigger] diff_for(config, s, bbo, refresh, now).adds[i]).tif == "Alo"@ && !diff_for(
                config,
                s,
                bbo,
                refresh,
                now,
            ).adds[i].reduce_only,
{
    reveal(diff_for);
    let (bids, asks) = crate::trading::sides_for(
        refresh,
        bbo,
        s.anchor_price,
        s.buy_oids.len() > 0,
        s.sell_oids.len() > 0,
    );
    let existing = crate::quoting::existing_of(s, bids, asks);
    let desired = crate::quoting::desired_of(
        crate::iteration::wanted(config, s, bbo, refresh, now),
        bids,
        asks,
    );
    let tick = config.token.tick_size;
    each_order_has_one_fate(
        existing,
        existing.len() as int,
        desired,
        s.order_details,
        tick,
        config.token.min_size,
    );
    let m = matching(
        existing,
        existing.len() as int,
        desired,
        s.order_details,
        tick,
        config.token.min_size,
    );
    lemma_additions_len(config.token.symbol@, desired, m.matched, desired.len() as int);
}

proof fn lemma_filtered_sound(config: Config, s: MmModel, now: Double, ts_ms: u64)
    ensures
        sound_stage(filtered(config, s, now, ts_ms).1),
{
    reveal(filtered);
    lemma_requoted_sound(config, s, now);
    lemma_closing(config, s.position, s.position.magnitude(), s.mid(), s.unrealized_pnl);
}

proof fn lemma_guarded_sound(config: Config, s: MmModel, now: Double, ts_ms: u64)
    ensures
        sound_stage(guarded(config, s, now, ts_ms).1),
{
    reveal(guarded);
    lemma_filtered_sound(config, s, now, ts_ms);
    lemma_closing(config, s.position, s.position.magnitude(), s.mid(), s.unrealized_pnl);
}

/// Every order that a round places either closes a position, can only reduce it and does not
/// rest, or only adds liquidity.
pub proof fn rounds_place_sound_orders(
    config: Config,
    s: MmModel,
    stage: StageView,
    reply: ReplyView,
    now: Double,
    ts_ms: u64,
)
    requires
        sound_stage(stage),
    ensures
        sound_stage(stepped(config, s, stage, reply, now, ts_ms).1),
{
    match stage {
        StageView::Begin => {
            reveal(begun);
            lemma_guarded_sound(config, s, now, ts_ms);
            lemma_guarded_sound(config, window_reset(config, s, now, ts_ms), now, ts_ms);
            lemma_closing(
                config,
                s.position,
                s.position.magnitude().larger(config.token.min_size),
                s.mid(),
                s.unrealized_pnl,
            );
        },
        StageView::Flatten(c) => {
            lemma_guarded_sound(config, flattened(s, c, ts_ms), now, ts_ms);
        },
        StageView::HedgePlace(c) => {
            lemma_filtered_sound(config, hedged(s, c, ts_ms), now, ts_ms);
        },
        StageView::CancelOrders(plan) => {
            reveal(cleared);
            reveal(settled);
        },
        StageView::ModifyOrders(plan) => {
            reveal(settled);
        },
        _ => {},
    }
}

// ---- what a round leaves as it was ----------------------------------------------------------------------

/// Two states have the same records of prices, fills and samples, the same counts of fills,
/// and the same position; the events of the second are within their limit.
pub open spec fn same_records(s: MmModel, t: MmModel) -> bool {
    &&& t.price_history == s.price_history
    &&& t.metrics_history == s.metrics_history
    &&& t.last_metrics_sample_ms == s.last_metrics_sample_ms
    &&& t.fill_history == s.fill_history
    &&& t.recent_fill_sides == s.recent_fill_sides
    &&& t.recent_rt_pnls == s.recent_rt_pnls
    &&& t.pending_rts == s.pending_rts
    &&& t.processed_fill_ids == s.processed_fill_ids
    &&& t.stats.fills_count == s.stats.fills_count
    &&& t.stats.maker_fills == s.stats.maker_fills
    &&& t.stats.taker_fills == s.stats.taker_fills
    &&& t.stats.session_pnl == s.stats.session_pnl
    &&& t.position == s.position
    &&& t.bbo == s.bbo
    &&& s.recent_events.len() <= crate::types::MAX_EVENTS ==> t.recent_events.len()
        <= crate::types::MAX_EVENTS
}

proof fn lemma_cancelled_same(s: MmModel, cancels: Seq<(Seq<char>, u64)>, n: int)
    ensures
        same_records(s, s.without_cancelled(cancels, n)),
    decreases n,
{
    if n > 0 {
        lemma_cancelled_same(s, cancels, n - 1);
    }
}

proof fn lemma_settled_same(config: Config, s: MmModel, plan: PlanView, now: Double)
    ensures
        same_records(s, settled(config, s, plan, now).0),
        same_records(s, cleared(config, s, plan, now).0),
{
    reveal(settled);
    reveal(cleared);
    reveal(finished);
}

proof fn lemma_placed_same(config: Config, s: MmModel, plan: PlanView, reply: ReplyView, now: Double)
    ensures
        same_records(s, placed(config, s, plan, reply, now)),
{
    reveal(placed);
    reveal(judged);
    reveal(with_placed);
}

proof fn lemma_requoted_same(config: Config, s: MmModel, now: Double)
    ensures
        same_records(s, requoted(config, s, now).0),
{
    reveal(requoted);
    reveal(quoted);
    let r = recovered(s, now);
    if let Some(bbo) = r.bbo {
        let refresh = crate::risk::refresh_of(config, r, now, risk_of(config, r, now));
        let plan = PlanView {
            diff: diff_for(config, r, bbo, refresh, now),
            reason: crate::iteration::reason_word(refresh),
            bbo,
        };
        lemma_settled_same(config, crate::iteration::with_spread(config, r, bbo), plan, now);
    }
}

proof fn lemma_filtered_same(config: Config, s: MmModel, now: Double, ts_ms: u64)
    ensures
        same_records(s, filtered(config, s, now, ts_ms).0),
{
    reveal(filtered);
    reveal(trend_paused);
    lemma_requoted_same(config, s, now);
}

proof fn lemma_guarded_same(config: Config, s: MmModel, now: Double, ts_ms: u64)
    ensures
        same_records(s, guarded(config, s, now, ts_ms).0),
{
    reveal(guarded);
    lemma_filtered_same(config, s, now, ts_ms);
}

/// A round changes neither the records of prices, fills and samples nor the position.
pub proof fn rounds_keep_records(
    config: Config,
    s: MmModel,
    stage: StageView,
    reply: ReplyView,
    now: Double,
    ts_ms: u64,
)
    ensures
        same_records(s, stepped(config, s, stage, reply, now, ts_ms).0),
{
    match stage {
        StageView::Begin => {
            reveal(begun);
            let t = window_reset(config, s, now, ts_ms);
            lemma_guarded_same(config, s, now, ts_ms);
            lemma_guarded_same(config, t, now, ts_ms);
            assert(same_records(s, t));
        },
        StageView::Flatten(c) => {
            reveal(flattened);
            let t = flattened(s, c, ts_ms);
            assert(same_records(s, t));
            lemma_guarded_same(config, t, now, ts_ms);
        },
        StageView::HedgePlace(c) => {
            reveal(hedged);
            let t = hedged(s, c, ts_ms);
            assert(same_records(s, t));
            lemma_filtered_same(config, t, now, ts_ms);
        },
        StageView::TrendClose(c) => {
            reveal(trend_closed);
        },
        StageView::CancelOrders(plan) => {
            reveal(cancelled);
            lemma_cancelled_same(s, plan.diff.cancels, plan.diff.cancels.len() as int);
            lemma_settled_same(config, cancelled(s, plan), plan, now);
        },
        StageView::ModifyOrders(plan) => {
            lemma_settled_same(config, s.with_modified(plan.diff.modifies), plan, now);
            if let ReplyView::Failed(error) = reply {
                lemma_settled_same(
                    config,
                    crate::iteration::with_failure(s, "Modify error: "@, error, 80),
                    plan,
                    now,
                );
            }
        },
        StageView::PlaceOrders(plan) => {
            lemma_placed_same(config, s, plan, reply, now);
        },
        _ => {},
    }
}

/// A round keeps the records within their limits, the fills well counted, and the samples
/// apart.
pub proof fn rounds_keep_soundness(
    config: Config,
    s: MmModel,
    stage: StageView,
    reply: ReplyView,
    now: Double,
    ts_ms: u64,
    window: int,
)
    requires
        bounded(s, window),
        well_counted(s),
        spaced(s),
    ensures
        ({
            let t = stepped(config, s, stage, reply, now, ts_ms).0;
            bounded(t, window) && well_counted(t) && spaced(t)
        }),
{
    rounds_keep_records(config, s, stage, reply, now, ts_ms);
}

// ---- lists of orders --------------------------------------------------------------------------------

/// No order stands twice in the lists of a state.
pub open spec fn distinct_orders(s: MmModel) -> bool {
    s.buy_oids.no_duplicates() && s.sell_oids.no_duplicates()
}

proof fn lemma_without(s: Seq<u64>, oid: u64)
    requires
        s.no_duplicates(),
    ensures
        without(s, oid).no_duplicates(),
        !without(s, oid).contains(oid),
        forall|x: u64| #[trigger] without(s, oid).contains(x) ==> s.contains(x),
    decreases s.len(),
{
    if s.len() > 0 {
        let t = s.drop_last();
        assert(t.no_duplicates());
        lemma_without(t, oid);
        let before = without(t, oid);
        assert(!t.contains(s.last()));
        assert(!before.contains(s.last()));
        assert forall|x: u64| #[trigger] without(s, oid).contains(x) implies s.contains(x) by {
            let i = without(s, oid).index_of(x);
            if i < before.len() {
                assert(before[i] == x);
                assert(before.contains(x));
                assert(t.contains(x));
                let j = t.index_of(x);
                assert(s[j] == x);
            } else {
                assert(s[s.len() - 1] == x);
            }
        }
        if s.last() != oid {
            let r = before.push(s.last());
            assert(without(s, oid) == r);
            assert forall|i: int, j: int| 0 <= i < r.len() && 0 <= j < r.len() && i != j implies r[i]
                != r[j] by {
                if i < before.len() && j < before.len() {
                    assert(before[i] != before[j]);
                } else if i < before.len() {
                    assert(before.contains(before[i]));
                } else {
                    assert(before.contains(before[j]));
                }
            }
            if r.contains(oid) {
                let i = r.index_of(oid);
                assert(before[i] == oid);
                assert(before.contains(oid));
            }
        }
    }
}

proof fn lemma_joined(s: Seq<u64>, more: Seq<u64>, n: int)
    requires
        s.no_duplicates(),
        n <= more.len(),
    ensures
        joined(s, more, n).no_duplicates(),
    decreases n,
{
    if n > 0 {
        lemma_joined(s, more, n - 1);
        let before = joined(s, more, n - 1);
        let x = more[n - 1];
        if !before.contains(x) {
            let r = before.push(x);
            assert forall|i: int, j: int| 0 <= i < r.len() && 0 <= j < r.len() && i != j implies r[i]
                != r[j] by {
                if i < before.len() && j < before.len() {
                    assert(before[i] != before[j]);
                } else if i < before.len() {
                    assert(before.contains(before[i]));
                } else {
                    assert(before.contains(before[j]));
                }
            }
        }
    }
}

/// Every event keeps the orders of the lists apart; the order that a fill completes leaves
/// them.
pub proof fn events_keep_orders_distinct(
    config: Config,
    s: MmModel,
    e: WsEventView,
    now: Double,
    decay: Decay,
)
    requires
        distinct_orders(s),
    ensures
        distinct_orders(after_event(config, s, e, now, decay)),
        e matches WsEventView::Fill { tid, coin, price, size, fee, closed_pnl, oid, is_buy } ==> ({
            let t = after_event(config, s, e, now, decay);
            !s.processed_fill_ids.contains(tid) && s.order_details.contains_key(oid)
                && s.order_details[oid].size.minus(size).larger(zero()).less(config.token.min_size)
                ==> !t.order_details.contains_key(oid) && !t.buy_oids.contains(oid)
                && !t.sell_oids.contains(oid)
        }),
{
    if let WsEventView::Fill { tid, coin, price, size, fee, closed_pnl, oid, is_buy } = e {
        lemma_without(s.buy_oids, oid);
        lemma_without(s.sell_oids, oid);
    }
}

proof fn lemma_cancelled_distinct(s: MmModel, cancels: Seq<(Seq<char>, u64)>, n: int)
    requires
        distinct_orders(s),
        n <= cancels.len(),
    ensures
        distinct_orders(s.without_cancelled(cancels, n)),
    decreases n,
{
    if n > 0 {
        lemma_cancelled_distinct(s, cancels, n - 1);
        let t = s.without_cancelled(cancels, n - 1);
        lemma_without(t.buy_oids, cancels[n - 1].1);
        lemma_without(t.sell_oids, cancels[n - 1].1);
    }
}

proof fn lemma_requoted_distinct(config: Config, s: MmModel, now: Double)
    requires
        distinct_orders(s),
    ensures
        distinct_orders(requoted(config, s, now).0),
{
    reveal(requoted);
    reveal(quoted);
    reveal(cleared);
    reveal(settled);
    reveal(finished);
}

proof fn lemma_filtered_distinct(config: Config, s: MmModel, now: Double, ts_ms: u64)
    requires
        distinct_orders(s),
    ensures
        distinct_orders(filtered(config, s, now, ts_ms).0),
{
    reveal(filtered);
    reveal(trend_paused);
    lemma_requoted_distinct(config, s, now);
}

proof fn lemma_guarded_distinct(config: Config, s: MmModel, now: Double, ts_ms: u64)
    requires
        distinct_orders(s),
    ensures
        distinct_orders(guarded(config, s, now, ts_ms).0),
{
    reveal(guarded);
    lemma_filtered_distinct(config, s, now, ts_ms);
}

/// A round keeps the orders of the lists apart, whatever the exchange replies.
pub proof fn rounds_keep_orders_distinct(
    config: Config,
    s: MmModel,
    stage: StageView,
    reply: ReplyView,
    now: Double,
    ts_ms: u64,
)
    requires
        distinct_orders(s),
    ensures
        distinct_orders(stepped(config, s, stage, reply, now, ts_ms).0),
{
    match stage {
        StageView::Begin => {
            reveal(begun);
            lemma_guarded_distinct(config, s, now, ts_ms);
            lemma_guarded_distinct(config, window_reset(config, s, now, ts_ms), now, ts_ms);
        },
        StageView::Flatten(c) => {
            reveal(flattened);
            lemma_guarded_distinct(config, flattened(s, c, ts_ms), now, ts_ms);
        },
        StageView::HedgePlace(c) => {
            reveal(hedged);
            lemma_filtered_distinct(config, hedged(s, c, ts_ms), now, ts_ms);
        },
        StageView::TrendClose(c) => {
            reveal(trend_closed);
        },
        StageView::CancelOrders(plan) => {
            reveal(cancelled);
            reveal(cleared);
            reveal(settled);
            reveal(finished);
            lemma_cancelled_distinct(s, plan.diff.cancels, plan.diff.cancels.len() as int);
        },
        StageView::ModifyOrders(plan) => {
            reveal(settled);
            reveal(finished);
        },
        StageView::PlaceOrders(plan) => {
            reveal(placed);
            reveal(judged);
            reveal(with_placed);
            if let ReplyView::Answer(result) = reply {
                let b = crate::exchange::bulk_result(result, plan.diff.adds);
                lemma_joined(s.buy_oids, b.buy_oids, b.buy_oids.len() as int);
                lemma_joined(s.sell_oids, b.sell_oids, b.sell_oids.len() as int);
            }
        },
        _ => {},
    }
}

} // verus!
