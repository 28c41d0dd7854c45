//! How fills change the state: what they count for, the round trips that they close, and the
//! orders that they belong to.
use vstd::prelude::*;

use crate::config::Config;
use crate::double::{of_int, zero, Double};
use crate::text::same_text;
use crate::trading::{fill_lock_secs, lock_secs};
use crate::types::{
    last, texts, FillRecord, MmModel, MmState, PendingRt, Side, Stats, TrackedOrder,
};

verus! {

broadcast use vstd::std_specs::hash::group_hash_axioms;

// ---- a fill ------------------------------------------------------------------------------------

/// A fill, but for its id.
#[derive(Clone, Copy, Debug, PartialEq, Eq, Structural)]
pub struct Fill {
    pub price: Double,
    pub size: Double,
    pub fee: Double,
    pub closed_pnl: Double,
    pub oid: u64,
    pub is_buy: bool,
}

impl Fill {
    pub open spec fn side_spec(self) -> Side {
        if self.is_buy {
            Side::Buy
        } else {
            Side::Sell
        }
    }

    /// The side that was filled.
    pub fn side(&self) -> (r: Side)
        ensures
            r == self.side_spec(),
    {
        if self.is_buy {
            Side::Buy
        } else {
            Side::Sell
        }
    }
}

/// How many round-trip profits are kept.
pub const MAX_RT_PNLS: usize = 10;

/// How many fills are watched.
pub const MAX_FILLS: usize = 50;

/// How many sides of fills are kept.
pub const MAX_SIDES: usize = 20;

/// No counter that a fill can move is at its end.
pub open spec fn fill_room(s: MmModel) -> bool {
    &&& s.stats.fills_count < u64::MAX
    &&& s.stats.queue_time_count < u64::MAX
    &&& s.stats.spread_capture_count < u64::MAX
    &&& s.stats.rt_count < u64::MAX
    &&& s.stats.maker_fills < u64::MAX
    &&& s.stats.taker_fills < u64::MAX
    &&& s.consecutive_buy_fills < u32::MAX
    &&& s.consecutive_sell_fills < u32::MAX
}

/// The first leg on the other side.
pub open spec fn first_opposite(s: Seq<PendingRt>, side: Side) -> Option<int>
    decreases s.len(),
{
    if s.len() == 0 {
        None
    } else if s[0].side != side {
        Some(0)
    } else {
        match first_opposite(s.skip(1), side) {
            Some(i) => Some(i + 1),
            None => None,
        }
    }
}

/// The profit of a round trip that a fill closes.
pub open spec fn rt_profit_of(leg: PendingRt, f: Fill) -> Double {
    let gain = if leg.side == Side::Buy {
        f.price.minus(leg.price)
    } else {
        leg.price.minus(f.price)
    };
    gain.times(f.size.smaller(leg.size)).minus(f.fee.magnitude())
}

/// The legs that are younger than a minute.
pub open spec fn fresh_legs(s: Seq<PendingRt>, now: Double) -> Seq<PendingRt>
    decreases s.len(),
{
    if s.len() == 0 {
        Seq::empty()
    } else {
        let before = fresh_legs(s.drop_last(), now);
        if now.minus(s.last().time).less(of_int(60)) {
            before.push(s.last())
        } else {
            before
        }
    }
}

/// The ids without the given one.
pub open spec fn without(s: Seq<u64>, oid: u64) -> Seq<u64>
    decreases s.len(),
{
    if s.len() == 0 {
        Seq::empty()
    } else {
        let before = without(s.drop_last(), oid);
        if s.last() != oid {
            before.push(s.last())
        } else {
            before
        }
    }
}

impl MmModel {
    /// The state with a fill counted: volume, fees, profit, and the id under which it came.
    pub open spec fn counted(self, tid: Seq<char>, f: Fill) -> MmModel {
        MmModel {
            processed_fill_ids: self.processed_fill_ids.push(tid),
            stats: Stats {
                total_volume: self.stats.total_volume.plus(f.price.times(f.size)),
                fills_count: (self.stats.fills_count + 1) as u64,
                total_fees: self.stats.total_fees.plus(f.fee.magnitude()),
                session_pnl: self.stats.session_pnl.plus(f.closed_pnl),
                ..self.stats
            },
            ..self
        }
    }

    /// The state with the time that the filled order waited, if it was a tracked one and
    /// waited less than five minutes.
    pub open spec fn queue_timed(self, f: Fill, now: Double) -> MmModel {
        let waited = now.minus(self.order_details[f.oid].ts);
        if self.order_details.contains_key(f.oid) && zero().less(waited) && waited.less(
            of_int(300),
        ) {
            MmModel {
                stats: Stats {
                    queue_time_sum: self.stats.queue_time_sum.plus(waited),
                    queue_time_count: (self.stats.queue_time_count + 1) as u64,
                    ..self.stats
                },
                ..self
            }
        } else {
            self
        }
    }

    /// The state with the distance of the fill from the mid: below it for a purchase, above it
    /// for a sale.
    pub open spec fn spread_captured(self, f: Fill) -> MmModel {
        match self.bbo {
            Some(bbo) => MmModel {
                stats: Stats {
                    spread_capture_sum: self.stats.spread_capture_sum.plus(
                        if f.is_buy {
                            bbo.mid.minus(f.price)
                        } else {
                            f.price.minus(bbo.mid)
                        },
                    ),
                    spread_capture_count: (self.stats.spread_capture_count + 1) as u64,
                    ..self.stats
                },
                ..self
            },
            None => self,
        }
    }

    /// The state with the round trip that the fill closes, or else the leg that it opens.
    pub open spec fn matched(self, f: Fill, now: Double) -> MmModel {
        match first_opposite(self.pending_rts, f.side_spec()) {
            Some(i) => {
                let pnl = rt_profit_of(self.pending_rts[i], f);
                MmModel {
                    stats: Stats {
                        rt_count: (self.stats.rt_count + 1) as u64,
                        rt_profit: self.stats.rt_profit.plus(pnl),
                        ..self.stats
                    },
                    recent_rt_pnls: last(self.recent_rt_pnls.push(pnl), MAX_RT_PNLS as int),
                    pending_rts: self.pending_rts.remove(i),
                    waiting_for_rt: false,
                    ..self
                }
            },
            None => MmModel {
                pending_rts: fresh_legs(
                    self.pending_rts.push(
                        PendingRt {
                            side: f.side_spec(),
                            price: f.price,
                            size: f.size,
                            time: now,
                        },
                    ),
                    now,
                ),
                waiting_for_rt: true,
                ..self
            },
        }
    }

    /// The record of a fill whose markouts are still to come.
    pub open spec fn record_of(self, f: Fill, now: Double) -> FillRecord {
        FillRecord {
            side: f.side_spec(),
            fill_price: f.price,
            time: now,
            checked: false,
            checked_1s: false,
            checked_5s: false,
            checked_10s: false,
            markout_1s: None,
            markout_5s: None,
            markout_10s: None,
            order_ts: if self.order_details.contains_key(f.oid) {
                self.order_details[f.oid].ts
            } else {
                now
            },
        }
    }

    /// The state with a fill recorded, its side locked for a while.
    pub open spec fn recorded(self, f: Fill, now: Double) -> MmModel {
        MmModel {
            fill_history: last(
                self.fill_history.push(self.record_of(f, now)),
                MAX_FILLS as int,
            ),
            recent_fill_sides: last(
                self.recent_fill_sides.push((f.side_spec(), now)),
                MAX_SIDES as int,
            ),
            last_fill_time_rt: now,
            fill_lock_side: Some(f.side_spec()),
            fill_lock_until: now.plus(lock_secs()),
            consecutive_buy_fills: if f.is_buy {
                (self.consecutive_buy_fills + 1) as u32
            } else {
                0
            },
            consecutive_sell_fills: if f.is_buy {
                0
            } else {
                (self.consecutive_sell_fills + 1) as u32
            },
            ..self
        }
    }

    /// The state with a fill told as that of a tracked order or of another, and the best
    /// profit so far.
    pub open spec fn classified(self, f: Fill) -> MmModel {
        let maker = self.order_details.contains_key(f.oid);
        MmModel {
            stats: Stats {
                maker_fills: if maker {
                    (self.stats.maker_fills + 1) as u64
                } else {
                    self.stats.maker_fills
                },
                taker_fills: if maker {
                    self.stats.taker_fills
                } else {
                    (self.stats.taker_fills + 1) as u64
                },
                best_pnl: self.stats.best_pnl.larger(self.stats.session_pnl),
                ..self.stats
            },
            ..self
        }
    }

    /// The state with the filled order made smaller; it is forgotten once what is left of it
    /// is below the smallest size.
    pub open spec fn reduced(self, f: Fill, min_size: Double) -> MmModel {
        if self.order_details.contains_key(f.oid) {
            let order = self.order_details[f.oid];
            let left = order.size.minus(f.size).larger(zero());
            if left.less(min_size) {
                MmModel {
                    order_details: self.order_details.remove(f.oid),
                    buy_oids: without(self.buy_oids, f.oid),
                    sell_oids: without(self.sell_oids, f.oid),
                    ..self
                }
            } else {
                MmModel {
                    order_details: self.order_details.insert(
                        f.oid,
                        TrackedOrder { size: left, ..order },
                    ),
                    ..self
                }
            }
        } else {
            self
        }
    }

    /// The state after a fill; a fill that was counted before changes nothing.
    pub open spec fn with_fill(self, tid: Seq<char>, f: Fill, now: Double, min_size: Double) -> MmModel {
        if self.processed_fill_ids.contains(tid) {
            self
        } else {
            self.counted(tid, f).queue_timed(f, now).spread_captured(f).matched(f, now).recorded(
                f,
                now,
            ).classified(f).reduced(f, min_size)
        }
    }
}

/// The ids without the given one.
pub fn remove_oid(v: &mut Vec<u64>, oid: u64)
    ensures
        final(v)@ == without(old(v)@, oid),
{
    let mut out: Vec<u64> = Vec::new();
    let mut i: usize = 0;
    assert(v@.take(0) == Seq::<u64>::empty());
    while i < v.len()
        invariant
            v@ == old(v)@,
            i <= v@.len(),
            out@ == without(v@.take(i as int), oid),
        decreases v@.len() - i,
    {
        assert(v@.take(i + 1).drop_last() == v@.take(i as int));
        if v[i] != oid {
            out.push(v[i]);
        }
        i = i + 1;
    }
    assert(v@.take(v@.len() as int) == v@);
    *v = out;
}

fn drop_old_legs(v: &mut Vec<PendingRt>, now: Double)
    ensures
        final(v)@ == fresh_legs(old(v)@, now),
{
    let mut out: Vec<PendingRt> = Vec::new();
    let mut i: usize = 0;
    assert(v@.take(0) == Seq::<PendingRt>::empty());
    while i < v.len()
        invariant
            v@ == old(v)@,
            i <= v@.len(),
            out@ == fresh_legs(v@.take(i as int), now),
        decreases v@.len() - i,
    {
        assert(v@.take(i + 1).drop_last() == v@.take(i as int));
        if now.sub(v[i].time).lt(Double::from_u64(60)) {
            out.push(v[i]);
        }
        i = i + 1;
    }
    assert(v@.take(v@.len() as int) == v@);
    *v = out;
}

fn find_opposite(v: &Vec<PendingRt>, side: Side) -> (r: Option<usize>)
    ensures
        match r {
            Some(i) => i < v@.len() && first_opposite(v@, side) == Some(i as int),
            None => first_opposite(v@, side) is None,
        },
{
    let mut i: usize = 0;
    assert(v@.skip(0) == v@);
    while i < v.len()
        invariant
            i <= v@.len(),
            match first_opposite(v@.skip(i as int), side) {
                Some(k) => first_opposite(v@, side) == Some(k + i),
                None => first_opposite(v@, side) is None,
            },
        decreases v@.len() - i,
    {
        assert(v@.skip(i as int)[0] == v@[i as int]);
        assert(v@.skip(i as int).skip(1) == v@.skip(i + 1));
        if v[i].side != side {
            return Some(i);
        }
        i = i + 1;
    }
    None
}

impl MmState {
    /// Whether no counter that a fill can move is at its end.
    pub fn has_fill_room(&self) -> (r: bool)
        ensures
            r == fill_room(self@),
    {
        self.stats.fills_count < 0xffff_ffff_ffff_ffff && self.stats.queue_time_count
            < 0xffff_ffff_ffff_ffff && self.stats.spread_capture_count < 0xffff_ffff_ffff_ffff
            && self.stats.rt_count < 0xffff_ffff_ffff_ffff && self.stats.maker_fills
            < 0xffff_ffff_ffff_ffff && self.stats.taker_fills < 0xffff_ffff_ffff_ffff
            && self.consecutive_buy_fills < 0xffff_ffff && self.consecutive_sell_fills
            < 0xffff_ffff
    }

    fn has_fill(&self, tid: &str) -> (r: bool)
        ensures
            r == self@.processed_fill_ids.contains(tid@),
    {
        let ghost ids = texts(self.processed_fill_ids@);
        let mut i: usize = 0;
        while i < self.processed_fill_ids.len()
            invariant
                ids == texts(self.processed_fill_ids@),
                ids == self@.processed_fill_ids,
                i <= self.processed_fill_ids@.len(),
                forall|k: int| 0 <= k < i ==> ids[k] != tid@,
            decreases self.processed_fill_ids@.len() - i,
        {
            assert(ids[i as int] == self.processed_fill_ids@[i as int]@);
            if same_text(self.processed_fill_ids[i].as_str(), tid) {
                return true;
            }
            i = i + 1;
        }
        false
    }

    fn count_fill(&mut self, tid: String, f: &Fill)
        requires
            fill_room(old(self)@),
        ensures
            final(self)@ == old(self)@.counted(tid@, *f),
    {
        let ghost before = self.processed_fill_ids@;
        let ghost t = tid@;
        self.processed_fill_ids.push(tid);
        assert(texts(self.processed_fill_ids@) =~= texts(before).push(t));
        self.stats.total_volume = self.stats.total_volume.add(f.price.mul(f.size));
        self.stats.fills_count = self.stats.fills_count + 1;
        self.stats.total_fees = self.stats.total_fees.add(f.fee.abs());
        self.stats.session_pnl = self.stats.session_pnl.add(f.closed_pnl);
    }

    fn time_queue(&mut self, f: &Fill, now: Double)
        requires
            old(self).stats.queue_time_count < u64::MAX,
        ensures
            final(self)@ == old(self)@.queue_timed(*f, now),
    {
        let ts = match self.order_details.get(&f.oid) {
            Some(o) => Some(o.ts),
            None => None,
        };
        if let Some(ts) = ts {
            let waited = now.sub(ts);
            if waited.gt(Double::zero()) && waited.lt(Double::from_u64(300)) {
                self.stats.queue_time_sum = self.stats.queue_time_sum.add(waited);
                self.stats.queue_time_count = self.stats.queue_time_count + 1;
            }
        }
    }

    fn capture_spread(&mut self, f: &Fill)
        requires
            old(self).stats.spread_capture_count < u64::MAX,
        ensures
            final(self)@ == old(self)@.spread_captured(*f),
    {
        if let Some(bbo) = self.bbo {
            let capture = if f.is_buy {
                bbo.mid.sub(f.price)
            } else {
                f.price.sub(bbo.mid)
            };
            self.stats.spread_capture_sum = self.stats.spread_capture_sum.add(capture);
            self.stats.spread_capture_count = self.stats.spread_capture_count + 1;
        }
    }

    fn push_rt_pnl(&mut self, pnl: Double)
        ensures
            final(self)@ == (MmModel {
                recent_rt_pnls: last(old(self)@.recent_rt_pnls.push(pnl), MAX_RT_PNLS as int),
                ..old(self)@
            }),
    {
        let ghost before = self@;
        self.recent_rt_pnls.push_back(pnl);
        let ghost all = self.recent_rt_pnls@;
        assert(all == before.recent_rt_pnls.push(pnl));
        assert(all.skip(0) == all);
        while self.recent_rt_pnls.len() > MAX_RT_PNLS
            invariant
                self@ == (MmModel { recent_rt_pnls: self@.recent_rt_pnls, ..before }),
                self@.recent_rt_pnls.len() <= all.len(),
                self@.recent_rt_pnls == all.skip(all.len() - self@.recent_rt_pnls.len()),
                all.len() > MAX_RT_PNLS ==> self@.recent_rt_pnls.len() >= MAX_RT_PNLS,
                all.len() <= MAX_RT_PNLS ==> self@.recent_rt_pnls == all,
            decreases self.recent_rt_pnls@.len(),
        {
            let _ = self.recent_rt_pnls.pop_front();
            assert(self@.recent_rt_pnls == all.skip(all.len() - self@.recent_rt_pnls.len()));
        }
    }

    fn match_fill(&mut self, f: &Fill, now: Double)
        requires
            old(self).stats.rt_count < u64::MAX,
        ensures
            final(self)@ == old(self)@.matched(*f, now),
    {
        let side = f.side();
        match find_opposite(&self.pending_rts, side) {
            Some(i) => {
                let leg = self.pending_rts[i];
                let gain = if leg.side == Side::Buy {
                    f.price.sub(leg.price)
                } else {
                    leg.price.sub(f.price)
                };
                let pnl = gain.mul(f.size.min(leg.size)).sub(f.fee.abs());
                self.stats.rt_count = self.stats.rt_count + 1;
                self.stats.rt_profit = self.stats.rt_profit.add(pnl);
                self.push_rt_pnl(pnl);
                let _ = self.pending_rts.remove(i);
                self.waiting_for_rt = false;
            },
            None => {
                self.pending_rts.push(PendingRt { side, price: f.price, size: f.size, time: now });
                drop_old_legs(&mut self.pending_rts, now);
                self.waiting_for_rt = true;
            },
        }
    }

    fn push_fill_record(&mut self, record: FillRecord)
        ensures
            final(self)@ == (MmModel {
                fill_history: last(old(self)@.fill_history.push(record), MAX_FILLS as int),
                ..old(self)@
            }),
    {
        let ghost before = self@;
        self.fill_history.push_back(record);
        let ghost all = self.fill_history@;
        assert(all == before.fill_history.push(record));
        assert(all.skip(0) == all);
        while self.fill_history.len() > MAX_FILLS
            invariant
                self@ == (MmModel { fill_history: self@.fill_history, ..before }),
                self@.fill_history.len() <= all.len(),
                self@.fill_history == all.skip(all.len() - self@.fill_history.len()),
                all.len() > MAX_FILLS ==> self@.fill_history.len() >= MAX_FILLS,
                all.len() <= MAX_FILLS ==> self@.fill_history == all,
            decreases self.fill_history@.len(),
        {
            let _ = self.fill_history.pop_front();
            assert(self@.fill_history == all.skip(all.len() - self@.fill_history.len()));
        }
    }

    fn push_fill_side(&mut self, side: Side, now: Double)
        ensures
            final(self)@ == (MmModel {
                recent_fill_sides: last(
                    old(self)@.recent_fill_sides.push((side, now)),
                    MAX_SIDES as int,
                ),
                ..old(self)@
            }),
    {
        let ghost before = self@;
        self.recent_fill_sides.push_back((side, now));
        let ghost all = self.recent_fill_sides@;
        assert(all == before.recent_fill_sides.push((side, now)));
        assert(all.skip(0) == all);
        while self.recent_fill_sides.len() > MAX_SIDES
            invariant
                self@ == (MmModel { recent_fill_sides: self@.recent_fill_sides, ..before }),
                self@.recent_fill_sides.len() <= all.len(),
                self@.recent_fill_sides == all.skip(all.len() - self@.recent_fill_sides.len()),
                all.len() > MAX_SIDES ==> self@.recent_fill_sides.len() >= MAX_SIDES,
                all.len() <= MAX_SIDES ==> self@.recent_fill_sides == all,
            decreases self.recent_fill_sides@.len(),
        {
            let _ = self.recent_fill_sides.pop_front();
            assert(self@.recent_fill_sides == all.skip(all.len() - self@.recent_fill_sides.len()));
        }
    }

    fn record_fill(&mut self, config: &Config, f: &Fill, now: Double)
        requires
            old(self).consecutive_buy_fills < u32::MAX,
            old(self).consecutive_sell_fills < u32::MAX,
        ensures
            final(self)@ == old(self)@.recorded(*f, now),
    {
        let side = f.side();
        let order_ts = match self.order_details.get(&f.oid) {
            Some(o) => o.ts,
            None => now,
        };
        let record = FillRecord {
            side,
            fill_price: f.price,
            time: now,
            checked: false,
            checked_1s: false,
            checked_5s: false,
            checked_10s: false,
            markout_1s: None,
            markout_5s: None,
            markout_10s: None,
            order_ts,
        };
        self.push_fill_record(record);
        self.push_fill_side(side, now);
        self.last_fill_time_rt = now;
        self.fill_lock_side = Some(side);
        self.fill_lock_until = now.add(fill_lock_secs(config));
        if f.is_buy {
            self.consecutive_buy_fills = self.consecutive_buy_fills + 1;
            self.consecutive_sell_fills = 0;
        } else {
            self.consecutive_sell_fills = self.consecutive_sell_fills + 1;
            self.consecutive_buy_fills = 0;
        }
    }

    fn classify_fill(&mut self, f: &Fill)
        requires
            old(self).stats.maker_fills < u64::MAX,
            old(self).stats.taker_fills < u64::MAX,
        ensures
            final(self)@ == old(self)@.classified(*f),
    {
        if self.order_details.contains_key(&f.oid) {
            self.stats.maker_fills = self.stats.maker_fills + 1;
        } else {
            self.stats.taker_fills = self.stats.taker_fills + 1;
        }
        self.stats.best_pnl = self.stats.best_pnl.max(self.stats.session_pnl);
    }

    fn reduce_order(&mut self, f: &Fill, min_size: Double)
        ensures
            final(self)@ == old(self)@.reduced(*f, min_size),
    {
        let found = match self.order_details.get(&f.oid) {
            Some(o) => Some(*o),
            None => None,
        };
        if let Some(order) = found {
            let left = order.size.sub(f.size).max(Double::zero());
            if left.lt(min_size) {
                let _ = self.order_details.remove(&f.oid);
                remove_oid(&mut self.buy_oids, f.oid);
                remove_oid(&mut self.sell_oids, f.oid);
            } else {
                self.order_details.insert(f.oid, TrackedOrder { size: left, ..order });
            }
        }
    }

    /// Takes a fill that came at the time `now` under the given id; one that was counted
    /// before changes nothing.
    pub fn note_fill(&mut self, config: &Config, tid: String, f: &Fill, now: Double)
        requires
            fill_room(old(self)@),
        ensures
            final(self)@ == old(self)@.with_fill(tid@, *f, now, config.token.min_size),
    {
        if self.has_fill(tid.as_str()) {
            return;
        }
        self.count_fill(tid, f);
        self.time_queue(f, now);
        self.capture_spread(f);
        self.match_fill(f, now);
        self.record_fill(config, f, now);
        self.classify_fill(f);
        self.reduce_order(f, config.token.min_size);
    }
}

} // verus!
