//! What holds of the state after a fill: what it costs and earns, which round trip it closes, and
//! what is left of its order.
use vstd::prelude::*;

use crate::bounds::{lemma_difference, lemma_ratio, lemma_value};
use crate::double::{
    lemma_mag_order, mag, nan, of_int, quotient, zero, Double, INF,
};
use crate::fills::{
    fill_room, first_opposite, fresh_legs, rt_profit_of, without, Fill, MAX_FILLS, MAX_RT_PNLS,
    MAX_SIDES,
};
use crate::matching_laws::positive;
use crate::order::{
    adding_grows, integers_are_exact, lemma_plus_commutes, lemma_rounded,
    numbers_come_from_numbers, product_is_number, product_sign, subtracting_shrinks,
};
use crate::types::{last, MmModel, PendingRt, Side};

verus! {

// ---- what a fill counts for ------------------------------------------------------------------------------

/// A fill that is not counted yet.
pub open spec fn is_new(s: MmModel, tid: Seq<char>) -> bool {
    !s.processed_fill_ids.contains(tid)
}

proof fn lemma_magnitudes(x: Double)
    requires
        !x.is_nan(),
    ensures
        zero().at_most(x.magnitude()),
        x.value() > 0 ==> x.magnitude() == x,
        x.value() < 0 ==> x.magnitude() == x.negated(),
        x.negated().magnitude() == x.magnitude(),
{
    lemma_value(x);
    assert(mag(0) == 0);
}

/// A fee is paid: whatever its sign, a fill never lowers the fees of a session, and raises them
/// by the larger of the fee and its opposite.
pub proof fn fees_are_paid(s: MmModel, tid: Seq<char>, f: Fill, g: Fill, now: Double, min_size: Double)
    requires
        is_new(s, tid),
        f.fee.is_finite(),
        g == (Fill { fee: f.fee.negated(), ..f }),
        !s.stats.total_fees.is_nan(),
    ensures
        ({
            let r = s.with_fill(tid, f, now, min_size).stats.total_fees;
            &&& s.stats.total_fees.at_most(r)
            &&& f.fee.value() > 0 ==> r == s.stats.total_fees.plus(f.fee)
            &&& f.fee.value() < 0 ==> r == s.stats.total_fees.minus(f.fee)
            &&& r == s.with_fill(tid, g, now, min_size).stats.total_fees
        }),
{
    lemma_magnitudes(f.fee);
    adding_grows(s.stats.total_fees, f.fee.magnitude());
}

/// A fill adds its notional to the volume, whichever side it is on, and what it closes to the
/// profit; the best profit is never below either.
pub proof fn fills_add_volume_and_profit(
    s: MmModel,
    tid: Seq<char>,
    f: Fill,
    now: Double,
    min_size: Double,
)
    requires
        is_new(s, tid),
        positive(f.price),
        positive(f.size),
        f.closed_pnl.is_finite(),
        !s.stats.total_volume.is_nan(),
        zero().at_most(s.stats.total_volume),
        s.stats.session_pnl.is_finite(),
        !s.stats.best_pnl.is_nan(),
    ensures
        ({
            let r = s.with_fill(tid, f, now, min_size).stats;
            &&& s.stats.total_volume.at_most(r.total_volume)
            &&& s.stats.total_volume.value() == 0 ==> r.total_volume.equal(f.price.times(f.size))
            &&& f.closed_pnl.value() >= 0 ==> s.stats.session_pnl.at_most(r.session_pnl)
            &&& f.closed_pnl.value() <= 0 ==> r.session_pnl.at_most(s.stats.session_pnl)
            &&& s.stats.session_pnl.value() == 0 ==> r.session_pnl.equal(f.closed_pnl)
            &&& r.session_pnl.at_most(r.best_pnl)
            &&& s.stats.best_pnl.at_most(r.best_pnl)
            &&& r.best_pnl.value() == r.session_pnl.value() || r.best_pnl == s.stats.best_pnl
            &&& r.fills_count == (s.stats.fills_count + 1) as u64
        }),
{
    let x = f.price.times(f.size);
    product_is_number(f.price, f.size);
    product_sign(f.price, f.size);
    assert(mag(0) == 0);
    lemma_value(s.stats.total_volume);
    if s.stats.total_volume.is_inf() && x.is_inf() {
        lemma_value(x);
    } else {
        adding_grows(s.stats.total_volume, x);
    }
    if s.stats.total_volume.value() == 0 {
        lemma_sum_with_nothing(s.stats.total_volume, x);
    }
    let p = s.stats.session_pnl;
    let c = f.closed_pnl;
    lemma_value(c);
    lemma_value(p);
    if c.value() >= 0 {
        adding_grows(p, c);
    } else {
        subtracting_shrinks(p, c.negated());
        assert(c.negated().negated() == c);
    }
    if c.value() == 0 {
        lemma_sum_with_nothing(c, p);
        lemma_plus_commutes(c, p);
    }
    if p.value() == 0 {
        lemma_sum_with_nothing(p, c);
    }
    assert(!p.plus(c).is_nan()) by {
        numbers_come_from_numbers(p, c);
    }
}

/// Nothing and a number are that number.
proof fn lemma_sum_with_nothing(z: Double, x: Double)
    requires
        !z.is_nan(),
        z.value() == 0,
        !x.is_nan(),
    ensures
        z.plus(x).equal(x),
{
    lemma_value(z);
    lemma_value(x);
    assert(mag(0) == 0);
    lemma_mag_order(0, INF as int);
    if x.is_finite() {
        crate::order::lemma_plus_value(z, x);
        crate::order::lemma_rounding_exact(x.index());
        lemma_rounded(x.value() < 0, mag(x.index()), 1);
    }
}

/// A fill that bought below the mid or sold above it captures some of the spread, and one that
/// bought above it or sold below it gives some away; it makes no difference on which side the
/// same distance was captured.
pub proof fn spread_is_captured_from_the_mid(
    s: MmModel,
    tid: Seq<char>,
    f: Fill,
    g: Fill,
    now: Double,
    min_size: Double,
    mid: Double,
)
    requires
        is_new(s, tid),
        s.bbo is Some && s.bbo->0.mid == mid,
        mid.is_finite(),
        f.price.is_finite(),
        g.price.is_finite(),
        f.is_buy,
        !g.is_buy,
        s.stats.spread_capture_sum.is_finite(),
        mid.minus(f.price).is_finite(),
        g.price.minus(mid).is_finite(),
    ensures
        ({
            let x = s.stats.spread_capture_sum;
            let bought = s.with_fill(tid, f, now, min_size).stats.spread_capture_sum;
            let sold = s.with_fill(tid, g, now, min_size).stats.spread_capture_sum;
            &&& f.price.value() <= mid.value() ==> x.at_most(bought)
            &&& f.price.value() >= mid.value() ==> bought.at_most(x)
            &&& g.price.value() >= mid.value() ==> x.at_most(sold)
            &&& g.price.value() <= mid.value() ==> sold.at_most(x)
            &&& mid.value() - f.price.value() == g.price.value() - mid.value() ==> bought.equal(
                sold,
            )
            &&& x.value() == 0 ==> bought.equal(mid.minus(f.price)) && sold.equal(
                g.price.minus(mid),
            )
        }),
{
    let x = s.stats.spread_capture_sum;
    let a = mid.minus(f.price);
    let b = g.price.minus(mid);
    lemma_difference(mid, f.price);
    lemma_difference(g.price, mid);
    lemma_moved(x, a);
    lemma_moved(x, b);
    assert(mag(0) == 0);
    if x.value() == 0 {
        lemma_sum_with_nothing(x, a);
        lemma_sum_with_nothing(x, b);
    }
    if mid.value() - f.price.value() == g.price.value() - mid.value() {
        lemma_value(a);
        lemma_value(b);
        assert(a.index() == b.index());
        assert(a.value() == b.value());
        crate::order::lemma_plus_value(x, a);
        crate::order::lemma_plus_value(x, b);
    }
}

/// A sum moves with the sign of what is added.
proof fn lemma_moved(x: Double, a: Double)
    requires
        x.is_finite(),
        a.is_finite(),
    ensures
        !x.plus(a).is_nan(),
        a.value() >= 0 ==> x.at_most(x.plus(a)),
        a.value() <= 0 ==> x.plus(a).at_most(x),
{
    assert(mag(0) == 0);
    lemma_value(a);
    crate::order::lemma_plus_value(x, a);
    if a.value() >= 0 {
        adding_grows(x, a);
    }
    if a.value() <= 0 {
        subtracting_shrinks(x, a.negated());
        assert(a.negated().negated() == a);
    }
}

// ---- round trips -------------------------------------------------------------------------------------------

proof fn lemma_first_opposite(s: Seq<PendingRt>, side: Side)
    ensures
        match first_opposite(s, side) {
            Some(i) => 0 <= i < s.len() && s[i].side != side && forall|j: int|
                0 <= j < i ==> (#[trigger] s[j]).side == side,
            None => forall|j: int| 0 <= j < s.len() ==> (#[trigger] s[j]).side == side,
        },
    decreases s.len(),
{
    if s.len() > 0 && s[0].side == side {
        let t = s.skip(1);
        lemma_first_opposite(t, side);
        assert forall|j: int| 1 <= j < s.len() implies (#[trigger] s[j]).side == t[j - 1].side by {}
        match first_opposite(t, side) {
            Some(i) => {
                assert forall|j: int| 0 <= j < i + 1 implies (#[trigger] s[j]).side == side by {
                    if j > 0 {
                        assert(t[j - 1].side == side);
                    }
                }
            },
            None => {
                assert forall|j: int| 0 <= j < s.len() implies (#[trigger] s[j]).side == side by {
                    if j > 0 {
                        assert(t[j - 1].side == side);
                    }
                }
            },
        }
    }
}

proof fn lemma_fresh(s: Seq<PendingRt>, now: Double, l: PendingRt)
    ensures
        fresh_legs(s, now).contains(l) <==> s.contains(l) && now.minus(l.time).less(of_int(60)),
        fresh_legs(s, now).len() <= s.len(),
    decreases s.len(),
{
    if s.len() > 0 {
        let t = s.drop_last();
        lemma_fresh(t, now, l);
        let b = fresh_legs(t, now);
        let r = fresh_legs(s, now);
        assert(s.contains(l) <==> t.contains(l) || s.last() == l) by {
            if s.contains(l) {
                let i = s.index_of(l);
                if i < t.len() {
                    assert(t[i] == l);
                }
            }
            if t.contains(l) {
                let i = t.index_of(l);
                assert(s[i] == l);
            }
            assert(s[s.len() - 1] == s.last());
        }
        if now.minus(s.last().time).less(of_int(60)) {
            assert(r == b.push(s.last()));
            if b.contains(l) {
                let i = b.index_of(l);
                assert(r[i] == l);
            }
            assert(r[r.len() - 1] == s.last());
            if r.contains(l) {
                let i = r.index_of(l);
                if i < b.len() {
                    assert(b[i] == l);
                }
            }
        }
    }
}

/// What a fill does to the legs that wait for their other half.
proof fn lemma_legs(s: MmModel, tid: Seq<char>, f: Fill, now: Double, min_size: Double)
    requires
        is_new(s, tid),
    ensures
        ({
            let r = s.with_fill(tid, f, now, min_size);
            match first_opposite(s.pending_rts, f.side_spec()) {
                Some(i) => r.pending_rts == s.pending_rts.remove(i) && r.stats.rt_profit
                    == s.stats.rt_profit.plus(rt_profit_of(s.pending_rts[i], f))
                    && r.recent_rt_pnls == last(
                    s.recent_rt_pnls.push(rt_profit_of(s.pending_rts[i], f)),
                    MAX_RT_PNLS as int,
                ) && r.stats.rt_count == (s.stats.rt_count + 1) as u64 && !r.waiting_for_rt,
                None => r.pending_rts == fresh_legs(
                    s.pending_rts.push(
                        PendingRt {
                            side: f.side_spec(),
                            price: f.price,
                            size: f.size,
                            time: now,
                        },
                    ),
                    now,
                ) && r.stats.rt_count == s.stats.rt_count && r.stats.rt_profit
                    == s.stats.rt_profit && r.recent_rt_pnls == s.recent_rt_pnls
                    && r.waiting_for_rt,
            }
        }),
{
}

/// A fill closes a round trip where a leg of the other side waits, and then the oldest such leg
/// leaves; else it becomes a leg itself, and the legs of a minute and more are given up.
pub proof fn fills_close_the_oldest_leg(
    s: MmModel,
    tid: Seq<char>,
    f: Fill,
    now: Double,
    min_size: Double,
    i: int,
    l: PendingRt,
)
    requires
        is_new(s, tid),
    ensures
        ({
            let r = s.with_fill(tid, f, now, min_size);
            let other = if f.is_buy { Side::Sell } else { Side::Buy };
            let own = if f.is_buy { Side::Buy } else { Side::Sell };
            &&& 0 <= i < s.pending_rts.len() && s.pending_rts[i].side == other && (forall|j: int|
                0 <= j < i ==> (#[trigger] s.pending_rts[j]).side == own) ==> r.pending_rts
                == s.pending_rts.remove(i) && r.stats.rt_count == (s.stats.rt_count + 1) as u64
                && !r.waiting_for_rt
            &&& (forall|j: int|
                0 <= j < s.pending_rts.len() ==> (#[trigger] s.pending_rts[j]).side == own) ==> {
                &&& r.stats.rt_count == s.stats.rt_count
                &&& r.stats.rt_profit == s.stats.rt_profit
                &&& r.waiting_for_rt
                &&& r.pending_rts.contains(l) <==> now.minus(l.time).less(of_int(60)) && (
                s.pending_rts.contains(l) || l == PendingRt {
                    side: own,
                    price: f.price,
                    size: f.size,
                    time: now,
                })
            }
        }),
{
    lemma_legs(s, tid, f, now, min_size);
    lemma_first_opposite(s.pending_rts, f.side_spec());
    let other = if f.is_buy { Side::Sell } else { Side::Buy };
    let own = if f.is_buy { Side::Buy } else { Side::Sell };
    assert(f.side_spec() == own);
    let new_leg = PendingRt { side: own, price: f.price, size: f.size, time: now };
    let all = s.pending_rts.push(new_leg);
    lemma_fresh(all, now, l);
    assert(all.contains(l) <==> s.pending_rts.contains(l) || l == new_leg) by {
        if all.contains(l) {
            let k = all.index_of(l);
            if k < s.pending_rts.len() {
                assert(s.pending_rts[k] == l);
            }
        }
        if s.pending_rts.contains(l) {
            let k = s.pending_rts.index_of(l);
            assert(all[k] == l);
        }
        assert(all[s.pending_rts.len() as int] == new_leg);
    }
}

/// The one leg that waits, and the fill that closes it.
pub open spec fn profit_of_trip(
    s: MmModel,
    leg: PendingRt,
    tid: Seq<char>,
    f: Fill,
    now: Double,
    min_size: Double,
) -> Double {
    let r = MmModel { pending_rts: seq![leg], ..s }.with_fill(tid, f, now, min_size);
    r.recent_rt_pnls[r.recent_rt_pnls.len() - 1]
}

proof fn lemma_trip(s: MmModel, leg: PendingRt, tid: Seq<char>, f: Fill, now: Double, min_size: Double)
    requires
        is_new(s, tid),
        leg.side != f.side_spec(),
        s.recent_rt_pnls.len() <= MAX_RT_PNLS,
    ensures
        profit_of_trip(s, leg, tid, f, now, min_size) == rt_profit_of(leg, f),
        ({
            let r = MmModel { pending_rts: seq![leg], ..s }.with_fill(tid, f, now, min_size);
            r.stats.rt_profit == s.stats.rt_profit.plus(profit_of_trip(s, leg, tid, f, now, min_size))
        }),
{
    let t = MmModel { pending_rts: seq![leg], ..s };
    lemma_legs(t, tid, f, now, min_size);
    lemma_first_opposite(t.pending_rts, f.side_spec());
    assert(first_opposite(t.pending_rts, f.side_spec()) == Some(0int));
}

/// A round trip earns what was sold for less what was bought for, on the smaller of the two
/// sizes, less the fee of the fill that closes it: before the fee it is not a loss where the sale
/// was not below the purchase, and not a gain where it was not above; it earns the same whichever
/// side came first; a fee never raises it, whatever its sign; and the session's sum of such
/// profits moves by it.
pub proof fn round_trips_earn_the_difference(
    s: MmModel,
    leg: PendingRt,
    f: Fill,
    other_leg: PendingRt,
    g: Fill,
    h: Fill,
    tid: Seq<char>,
    now: Double,
    min_size: Double,
)
    requires
        is_new(s, tid),
        s.recent_rt_pnls.len() <= MAX_RT_PNLS,
        leg.side == Side::Buy && !f.is_buy,
        positive(leg.price) && positive(leg.size) && positive(f.price) && positive(f.size),
        f.fee.value() == 0 && f.fee.is_finite(),
        // the same trip with its sides in the other order
        other_leg.side == Side::Sell && g.is_buy,
        other_leg.price == f.price && other_leg.size == f.size,
        g.price == leg.price && g.size == leg.size && g.fee == f.fee,
        // the same fill with a fee
        h == (Fill { fee: h.fee, ..f }),
        h.fee.is_finite(),
        f.price.minus(leg.price).times(f.size).is_finite(),
        f.price.minus(leg.price).times(leg.size).is_finite(),
        f.price.minus(leg.price).is_finite(),
    ensures
        ({
            let p = profit_of_trip(s, leg, tid, f, now, min_size);
            let q = profit_of_trip(s, other_leg, tid, g, now, min_size);
            let x = profit_of_trip(s, leg, tid, h, now, min_size);
            let bought = leg.price.value();
            let sold = f.price.value();
            &&& sold >= bought ==> p.value() >= 0
            &&& sold <= bought ==> p.value() <= 0
            &&& !p.is_nan()
            &&& p.equal(q)
            &&& x.at_most(p)
            &&& h.fee.value() > 0 ==> x.value() == p.minus(h.fee).value()
            &&& h.fee.value() < 0 ==> x.value() == p.plus(h.fee).value()
            &&& leg.size.at_most(f.size) ==> p.value() == f.price.minus(leg.price).times(
                leg.size,
            ).value()
            &&& f.size.at_most(leg.size) ==> p.value() == f.price.minus(leg.price).times(
                f.size,
            ).value()
            &&& (MmModel { pending_rts: seq![leg], ..s }).with_fill(
                tid,
                h,
                now,
                min_size,
            ).stats.rt_profit == s.stats.rt_profit.plus(x)
        }),
{
    lemma_trip(s, leg, tid, f, now, min_size);
    lemma_trip(s, other_leg, tid, g, now, min_size);
    lemma_trip(s, leg, tid, h, now, min_size);
    assert(mag(0) == 0);
    let d = f.price.minus(leg.price);
    lemma_difference(f.price, leg.price);
    let a = f.size.smaller(leg.size);
    let b = leg.size.smaller(f.size);
    lemma_value(f.size);
    lemma_value(leg.size);
    if f.size.value() == leg.size.value() {
        lemma_mag_order(f.size.index(), leg.size.index());
        lemma_mag_order(leg.size.index(), f.size.index());
    }
    assert(a == b);
    let e = d.times(a);
    product_is_number(d, a);
    product_sign(d, a);
    lemma_value(d);
    lemma_value(e);
    lemma_magnitudes(f.fee);
    lemma_magnitudes(h.fee);
    lemma_value(f.fee);
    let z = f.fee.magnitude().negated();
    lemma_value(f.fee.magnitude());
    assert(z.value() == 0 && z.is_finite());
    lemma_sum_with_nothing(z, e);
    lemma_plus_commutes(z, e);
    let p = e.minus(f.fee.magnitude());
    assert(p.equal(e));
    if d.value() <= 0 {
        product_sign(d, a);
    }
    let fee = h.fee.magnitude();
    subtracting_shrinks(e, fee);
    lemma_value(h.fee);
    lemma_value(fee);
    lemma_value(p);
    lemma_mag_order(e.index(), p.index());
    lemma_mag_order(p.index(), e.index());
    assert(p.is_finite());
    crate::order::lemma_plus_value(e, fee.negated());
    crate::order::lemma_plus_value(p, fee.negated());
    if h.fee.value() > 0 {
        crate::order::lemma_plus_value(p, h.fee.negated());
    }
    if h.fee.value() < 0 {
        crate::order::lemma_plus_value(p, h.fee);
        assert(h.fee.negated().negated() == h.fee);
    }
}

// ---- the order that was filled ---------------------------------------------------------------------------------

/// A fill takes its size from its order: what is left is the difference, nothing at least; the
/// order is forgotten exactly where less than the smallest size is left, and no other order
/// changes.
pub proof fn fills_shrink_their_order(
    s: MmModel,
    tid: Seq<char>,
    f: Fill,
    now: Double,
    min_size: Double,
    oid: u64,
)
    requires
        is_new(s, tid),
        positive(min_size),
        s.order_details.contains_key(oid),
        positive(s.order_details[oid].size),
        positive(f.size),
    ensures
        ({
            let r = s.with_fill(tid, f, now, min_size);
            let o = s.order_details[oid];
            &&& oid != f.oid ==> r.order_details.contains_key(oid) && r.order_details[oid] == o
            &&& oid == f.oid && f.size.value() >= o.size.value()
                ==> !r.order_details.contains_key(oid) && !r.buy_oids.contains(oid)
                && !r.sell_oids.contains(oid)
            &&& oid == f.oid && r.order_details.contains_key(oid) ==> {
                let t = r.order_details[oid];
                &&& min_size.at_most(t.size)
                &&& t.size == o.size.minus(f.size)
                &&& t.size.at_most(o.size)
                &&& t.price == o.price && t.is_buy == o.is_buy && t.ts == o.ts
                &&& r.buy_oids == s.buy_oids && r.sell_oids == s.sell_oids
            }
            &&& oid == f.oid && min_size.at_most(o.size.minus(f.size))
                ==> r.order_details.contains_key(oid)
        }),
{
    assert(mag(0) == 0);
    let o = s.order_details[oid];
    lemma_difference(o.size, f.size);
    lemma_value(min_size);
    subtracting_shrinks(o.size, f.size);
    lemma_gone(s.buy_oids, f.oid);
    lemma_gone(s.sell_oids, f.oid);
    let before = s.counted(tid, f).queue_timed(f, now).spread_captured(f).matched(f, now).recorded(
        f,
        now,
    ).classified(f);
    assert(before.order_details == s.order_details);
    assert(before.buy_oids == s.buy_oids && before.sell_oids == s.sell_oids);
}

proof fn lemma_gone(s: Seq<u64>, oid: u64)
    ensures
        !without(s, oid).contains(oid),
    decreases s.len(),
{
    if s.len() > 0 {
        let b = without(s.drop_last(), oid);
        lemma_gone(s.drop_last(), oid);
        let r = without(s, oid);
        if r.contains(oid) {
            let i = r.index_of(oid);
            if i < b.len() {
                assert(b[i] == oid);
            }
        }
    }
}

/// The time that a filled order waited is counted where the order is known and waited for more
/// than nothing and less than five minutes; it is the time since it was placed.
pub proof fn waiting_is_timed(s: MmModel, tid: Seq<char>, f: Fill, now: Double, min_size: Double)
    requires
        is_new(s, tid),
        s.stats.queue_time_sum.is_finite(),
        s.stats.queue_time_count < u64::MAX,
    ensures
        ({
            let r = s.with_fill(tid, f, now, min_size).stats;
            let o = s.order_details[f.oid];
            let known = s.order_details.contains_key(f.oid);
            let timed = known && o.ts.less(now) && now.minus(o.ts).less(of_int(300));
            &&& r.queue_time_count == s.stats.queue_time_count + if timed { 1int } else { 0 }
            &&& !timed ==> r.queue_time_sum == s.stats.queue_time_sum
            &&& timed ==> s.stats.queue_time_sum.at_most(r.queue_time_sum)
            &&& timed && s.stats.queue_time_sum.value() == 0 ==> r.queue_time_sum.equal(
                now.minus(o.ts),
            )
        }),
{
    let o = s.order_details[f.oid];
    let w = now.minus(o.ts);
    assert(mag(0) == 0);
    assert(nan().is_nan());
    integers_are_exact(300);
    if now.is_finite() && o.ts.is_finite() {
        lemma_difference(now, o.ts);
    }
    if s.order_details.contains_key(f.oid) {
        if w.less(of_int(300)) && !w.is_nan() {
            lemma_mag_order(of_int(300).index(), INF as int);
            lemma_value(w);
            crate::order::lemma_extremes(w);
        }
        if !now.is_nan() && !o.ts.is_nan() && !(now.is_finite() && o.ts.is_finite()) {
            crate::order::lemma_extremes(now);
            crate::order::lemma_extremes(o.ts);
            lemma_value(now);
            lemma_value(o.ts);
            lemma_value(o.ts.negated());
            crate::order::lemma_extremes(of_int(300));
        }
        if zero().less(w) && w.less(of_int(300)) {
            adding_grows(s.stats.queue_time_sum, w);
            if s.stats.queue_time_sum.value() == 0 {
                lemma_sum_with_nothing(s.stats.queue_time_sum, w);
            }
        }
    }
}

/// A fill is recorded last, with its side, price and time, and with the time since when its order
/// rested; none of its markouts is taken yet. It counts as that of a maker where its order is
/// known. Fills on one side in a row are counted, and one on the other side ends the row.
pub proof fn fills_are_recorded(s: MmModel, tid: Seq<char>, f: Fill, now: Double, min_size: Double)
    requires
        is_new(s, tid),
        fill_room(s),
        s.fill_history.len() <= MAX_FILLS,
        s.recent_fill_sides.len() <= MAX_SIDES,
    ensures
        ({
            let r = s.with_fill(tid, f, now, min_size);
            let side = if f.is_buy { Side::Buy } else { Side::Sell };
            let known = s.order_details.contains_key(f.oid);
            let n = r.fill_history.len();
            let k = r.recent_fill_sides.len();
            let x = r.fill_history[n - 1];
            &&& n >= 1 && x.side == side && x.fill_price == f.price && x.time == now
            &&& x.order_ts == if known { s.order_details[f.oid].ts } else { now }
            &&& !x.checked && !x.checked_1s && !x.checked_5s && !x.checked_10s
            &&& k >= 1 && r.recent_fill_sides[k - 1] == (side, now)
            &&& forall|i: int|
                0 <= i < n - 1 ==> #[trigger] r.fill_history[i] == s.fill_history[
                s.fill_history.len() - (n - 1) + i]
            &&& forall|i: int|
                0 <= i < k - 1 ==> #[trigger] r.recent_fill_sides[i] == s.recent_fill_sides[
                s.recent_fill_sides.len() - (k - 1) + i]
            &&& r.last_fill_time_rt == now
            &&& r.fill_lock_side == Some(side)
            &&& r.fill_lock_until == now.plus(quotient(1, 4))
            &&& now.is_finite() ==> now.at_most(r.fill_lock_until)
            &&& r.stats.maker_fills == s.stats.maker_fills + if known { 1int } else { 0 }
            &&& r.stats.taker_fills == s.stats.taker_fills + if known { 0int } else { 1 }
            &&& r.consecutive_buy_fills == if f.is_buy { s.consecutive_buy_fills + 1 } else { 0 }
            &&& r.consecutive_sell_fills == if f.is_buy { 0 } else { s.consecutive_sell_fills + 1 }
            &&& r.processed_fill_ids.contains(tid)
            &&& r.position == s.position && r.bbo == s.bbo
        }),
{
    let r = s.with_fill(tid, f, now, min_size);
    let ids = s.processed_fill_ids.push(tid);
    assert(ids[s.processed_fill_ids.len() as int] == tid);
    assert(r.processed_fill_ids == ids);
    if now.is_finite() {
        lemma_ratio(1, 4);
        assert(mag(0) == 0);
        adding_grows(now, quotient(1, 4));
    }
}

} // verus!
