//! What the price does after a fill, and what that says of the flow.
use std::collections::VecDeque;

use vstd::prelude::*;

use crate::config::Config;
use crate::double::{of_int, zero, Double};
use crate::market::{decay_exponent, exponent_of};
use crate::types::{FillRecord, MmModel, MmState, Side, Stats};

verus! {

/// How the price moved in favour of a fill.
pub open spec fn move_since(f: FillRecord, mid: Double) -> Double {
    match f.side {
        Side::Buy => mid.minus(f.fill_price),
        Side::Sell => f.fill_price.minus(mid),
    }
}

/// The price moved against a fill by more than the threshold.
pub open spec fn adverse(f: FillRecord, mid: Double, threshold: Double) -> bool {
    match f.side {
        Side::Buy => mid.less(f.fill_price.minus(threshold)),
        Side::Sell => f.fill_price.plus(threshold).less(mid),
    }
}

/// What is sampled of fills: their records, the sums and counts of the moves, and how many
/// were adverse.
#[verifier::ext_equal]
pub struct Sampled {
    pub fills: Seq<FillRecord>,
    pub stats: Stats,
    pub adverse: int,
}

/// When a fill is sampled for the score, and how far the price must move against it.
#[derive(Clone, Copy, Debug, PartialEq, Eq, Structural)]
pub struct MarkoutRule {
    pub sample_sec: Double,
    pub threshold: Double,
}

/// The rule of a configuration.
pub open spec fn rule_of(config: Config) -> MarkoutRule {
    MarkoutRule {
        sample_sec: config.risk.markout_sample_sec,
        threshold: config.risk.markout_threshold_ticks.times(config.token.tick_size),
    }
}

/// A fill is due for a sample.
pub open spec fn due(checked: bool, age: Double, horizon: Double) -> bool {
    !checked && horizon.at_most(age)
}

/// A record after it was looked at: each horizon that it has passed is sampled once.
pub open spec fn record_after(f: FillRecord, mid: Double, now: Double, rule: MarkoutRule) -> FillRecord {
    let age = now.minus(f.time);
    let chg = move_since(f, mid);
    FillRecord {
        checked: f.checked || due(f.checked, age, rule.sample_sec),
        checked_1s: f.checked_1s || due(f.checked_1s, age, of_int(1)),
        checked_5s: f.checked_5s || due(f.checked_5s, age, of_int(5)),
        checked_10s: f.checked_10s || due(f.checked_10s, age, of_int(10)),
        markout_1s: if due(f.checked_1s, age, of_int(1)) {
            Some(chg)
        } else {
            f.markout_1s
        },
        markout_5s: if due(f.checked_5s, age, of_int(5)) {
            Some(chg)
        } else {
            f.markout_5s
        },
        markout_10s: if due(f.checked_10s, age, of_int(10)) {
            Some(chg)
        } else {
            f.markout_10s
        },
        ..f
    }
}

/// The sum and count of moves with one more, if it is due.
pub open spec fn tallied(sum: Double, count: u64, chg: Double, is_due: bool) -> (Double, u64) {
    if is_due {
        (sum.plus(chg), (count + 1) as u64)
    } else {
        (sum, count)
    }
}

/// The statistics after a record was looked at.
pub open spec fn stats_after(stats: Stats, f: FillRecord, mid: Double, now: Double) -> Stats {
    let age = now.minus(f.time);
    let chg = move_since(f, mid);
    let one = tallied(
        stats.markout_1s_sum,
        stats.markout_1s_count,
        chg,
        due(f.checked_1s, age, of_int(1)),
    );
    let five = tallied(
        stats.markout_5s_sum,
        stats.markout_5s_count,
        chg,
        due(f.checked_5s, age, of_int(5)),
    );
    let ten = tallied(
        stats.markout_10s_sum,
        stats.markout_10s_count,
        chg,
        due(f.checked_10s, age, of_int(10)),
    );
    Stats {
        markout_1s_sum: one.0,
        markout_1s_count: one.1,
        markout_5s_sum: five.0,
        markout_5s_count: five.1,
        markout_10s_sum: ten.0,
        markout_10s_count: ten.1,
        ..stats
    }
}

/// What the first `n` fills sample.
pub open spec fn sampled(
    fills: Seq<FillRecord>,
    n: int,
    stats: Stats,
    mid: Double,
    now: Double,
    rule: MarkoutRule,
) -> Sampled
    decreases n,
{
    if n <= 0 {
        Sampled { fills: Seq::empty(), stats, adverse: 0 }
    } else {
        let before = sampled(fills, n - 1, stats, mid, now, rule);
        let f = fills[n - 1];
        Sampled {
            fills: before.fills.push(record_after(f, mid, now, rule)),
            stats: stats_after(before.stats, f, mid, now),
            adverse: before.adverse + if due(f.checked, now.minus(f.time), rule.sample_sec)
                && adverse(f, mid, rule.threshold) {
                1int
            } else {
                0
            },
        }
    }
}

/// The weights of the sampled fills among the first `n` that were adverse, and of all of them.
pub open spec fn weighed(
    fills: Seq<FillRecord>,
    weights: Seq<Double>,
    n: int,
    mid: Double,
    threshold: Double,
) -> (Double, Double)
    decreases n,
{
    if n <= 0 {
        (zero(), zero())
    } else {
        let before = weighed(fills, weights, n - 1, mid, threshold);
        let f = fills[n - 1];
        if f.checked {
            (
                if adverse(f, mid, threshold) {
                    before.0.plus(weights[n - 1])
                } else {
                    before.0
                },
                before.1.plus(weights[n - 1]),
            )
        } else {
            before
        }
    }
}

/// The share of the weight that is adverse, zero where there is none and one at most.
pub open spec fn score_of(
    fills: Seq<FillRecord>,
    weights: Seq<Double>,
    mid: Double,
    threshold: Double,
) -> Double {
    let w = weighed(fills, weights, fills.len() as int, mid, threshold);
    if zero().less(w.1) {
        w.0.over(w.1).smaller(of_int(1))
    } else {
        zero()
    }
}

/// No counter that the markouts can move is near its end.
pub open spec fn markout_room(s: MmModel) -> bool {
    &&& s.stats.markout_1s_count + s.fill_history.len() <= u64::MAX
    &&& s.stats.markout_5s_count + s.fill_history.len() <= u64::MAX
    &&& s.stats.markout_10s_count + s.fill_history.len() <= u64::MAX
    &&& s.adverse_fill_count + s.fill_history.len() <= u32::MAX
}

impl MmModel {
    /// The state with the markouts sampled at the time `now` and the score of them, each fill
    /// having the given weight. Without a quote nothing changes.
    pub open spec fn with_markouts(
        self,
        weights: Seq<Double>,
        now: Double,
        rule: MarkoutRule,
    ) -> MmModel {
        match self.bbo {
            None => self,
            Some(bbo) => {
                let r = sampled(
                    self.fill_history,
                    self.fill_history.len() as int,
                    self.stats,
                    bbo.mid,
                    now,
                    rule,
                );
                MmModel {
                    fill_history: r.fills,
                    stats: r.stats,
                    adverse_fill_count: (self.adverse_fill_count + r.adverse) as u32,
                    markout_score: score_of(r.fills, weights, bbo.mid, rule.threshold),
                    ..self
                }
            },
        }
    }
}

/// The exponents at which the caller evaluates the exponential function for the weights of the
/// fills: by their age and the half-life.
pub open spec fn weight_exponents(fills: Seq<FillRecord>, now: Double, half_life: Double) -> Seq<Double> {
    fills.map_values(
        |f: FillRecord| decay_exponent(now.minus(f.time).larger(zero()), half_life),
    )
}

/// The exponents at which the caller evaluates the exponential function for the weights of the
/// fills.
pub fn markout_exponents(state: &MmState, now: Double, config: &Config) -> (r: Vec<Double>)
    ensures
        r@ == weight_exponents(state@.fill_history, now, config.risk.markout_halflife_sec),
{
    let mut r: Vec<Double> = Vec::new();
    let mut i: usize = 0;
    while i < state.fill_history.len()
        invariant
            i <= state.fill_history@.len(),
            r@.len() == i,
            forall|k: int|
                0 <= k < i ==> #[trigger] r@[k] == decay_exponent(
                    now.minus(state.fill_history@[k].time).larger(zero()),
                    config.risk.markout_halflife_sec,
                ),
        decreases state.fill_history@.len() - i,
    {
        let age = now.sub(state.fill_history[i].time).max(Double::zero());
        r.push(exponent_of(age, config.risk.markout_halflife_sec));
        i = i + 1;
    }
    assert(r@ =~= weight_exponents(
        state@.fill_history,
        now,
        config.risk.markout_halflife_sec,
    ));
    r
}

fn is_adverse(f: &FillRecord, mid: Double, threshold: Double) -> (r: bool)
    ensures
        r == adverse(*f, mid, threshold),
{
    match f.side {
        Side::Buy => mid.lt(f.fill_price.sub(threshold)),
        Side::Sell => mid.gt(f.fill_price.add(threshold)),
    }
}

fn sample_fill(f: &mut FillRecord, stats: &mut Stats, mid: Double, now: Double, rule: &MarkoutRule) -> (r:
    bool)
    requires
        old(stats).markout_1s_count < u64::MAX,
        old(stats).markout_5s_count < u64::MAX,
        old(stats).markout_10s_count < u64::MAX,
    ensures
        *final(f) == record_after(*old(f), mid, now, *rule),
        *final(stats) == stats_after(*old(stats), *old(f), mid, now),
        r == (due(old(f).checked, now.minus(old(f).time), rule.sample_sec) && adverse(
            *old(f),
            mid,
            rule.threshold,
        )),
{
    let age = now.sub(f.time);
    let chg = match f.side {
        Side::Buy => mid.sub(f.fill_price),
        Side::Sell => f.fill_price.sub(mid),
    };
    let mut hit = false;
    if !f.checked_1s && age.ge(Double::from_u64(1)) {
        f.checked_1s = true;
        f.markout_1s = Some(chg);
        stats.markout_1s_sum = stats.markout_1s_sum.add(chg);
        stats.markout_1s_count = stats.markout_1s_count + 1;
    }
    if !f.checked && age.ge(rule.sample_sec) {
        f.checked = true;
        hit = is_adverse(f, mid, rule.threshold);
    }
    if !f.checked_5s && age.ge(Double::from_u64(5)) {
        f.checked_5s = true;
        f.markout_5s = Some(chg);
        stats.markout_5s_sum = stats.markout_5s_sum.add(chg);
        stats.markout_5s_count = stats.markout_5s_count + 1;
    }
    if !f.checked_10s && age.ge(Double::from_u64(10)) {
        f.checked_10s = true;
        f.markout_10s = Some(chg);
        stats.markout_10s_sum = stats.markout_10s_sum.add(chg);
        stats.markout_10s_count = stats.markout_10s_count + 1;
    }
    hit
}

proof fn lemma_sampled(
    fills: Seq<FillRecord>,
    n: int,
    stats: Stats,
    mid: Double,
    now: Double,
    rule: MarkoutRule,
)
    requires
        0 <= n <= fills.len(),
        stats.markout_1s_count + fills.len() <= u64::MAX,
        stats.markout_5s_count + fills.len() <= u64::MAX,
        stats.markout_10s_count + fills.len() <= u64::MAX,
    ensures
        sampled(fills, n, stats, mid, now, rule).fills.len() == n,
        0 <= sampled(fills, n, stats, mid, now, rule).adverse <= n,
        sampled(fills, n, stats, mid, now, rule).stats.markout_1s_count <= stats.markout_1s_count
            + n,
        sampled(fills, n, stats, mid, now, rule).stats.markout_5s_count <= stats.markout_5s_count
            + n,
        sampled(fills, n, stats, mid, now, rule).stats.markout_10s_count
            <= stats.markout_10s_count + n,
    decreases n,
{
    if n > 0 {
        lemma_sampled(fills, n - 1, stats, mid, now, rule);
    }
}

fn sample_fills(fills: &mut VecDeque<FillRecord>, stats: &mut Stats, mid: Double, now: Double, rule: &MarkoutRule) -> (r:
    u32)
    requires
        old(stats).markout_1s_count + old(fills)@.len() <= u64::MAX,
        old(stats).markout_5s_count + old(fills)@.len() <= u64::MAX,
        old(stats).markout_10s_count + old(fills)@.len() <= u64::MAX,
        old(fills)@.len() <= u32::MAX,
    ensures
        ({
            let s = sampled(old(fills)@, old(fills)@.len() as int, *old(stats), mid, now, *rule);
            final(fills)@ == s.fills && *final(stats) == s.stats && r == s.adverse
        }),
        r <= old(fills)@.len(),
{
    let ghost all = fills@;
    let ghost before = *stats;
    let n: usize = fills.len();
    let mut count: u32 = 0;
    let mut i: usize = 0;
    proof {
        assert(all.skip(0) + Seq::<FillRecord>::empty() == all);
    }
    while i < n
        invariant
            n == all.len(),
            n <= u32::MAX,
            before.markout_1s_count + all.len() <= u64::MAX,
            before.markout_5s_count + all.len() <= u64::MAX,
            before.markout_10s_count + all.len() <= u64::MAX,
            i <= n,
            fills@ == all.skip(i as int) + sampled(all, i as int, before, mid, now, *rule).fills,
            *stats == sampled(all, i as int, before, mid, now, *rule).stats,
            count == sampled(all, i as int, before, mid, now, *rule).adverse,
        decreases n - i,
    {
        proof {
            lemma_sampled(all, i as int, before, mid, now, *rule);
            lemma_sampled(all, i + 1, before, mid, now, *rule);
            assert(fills@[0] == all[i as int]);
        }
        let ghost done = sampled(all, i as int, before, mid, now, *rule).fills;
        let front = fills.pop_front();
        if let Some(f) = front {
            let mut f = f;
            if sample_fill(&mut f, stats, mid, now, rule) {
                count = count + 1;
            }
            fills.push_back(f);
            assert(fills@ =~= all.skip(i + 1) + done.push(f));
        }
        i = i + 1;
    }
    proof {
        lemma_sampled(all, n as int, before, mid, now, *rule);
        assert(all.skip(n as int) + sampled(all, n as int, before, mid, now, *rule).fills
            == sampled(all, n as int, before, mid, now, *rule).fills);
    }
    count
}

fn score(fills: &VecDeque<FillRecord>, weights: &Vec<Double>, mid: Double, threshold: Double) -> (r:
    Double)
    requires
        weights@.len() == fills@.len(),
    ensures
        r == score_of(fills@, weights@, mid, threshold),
{
    let mut weighted_adverse = Double::zero();
    let mut weight_total = Double::zero();
    let mut i: usize = 0;
    while i < fills.len()
        invariant
            weights@.len() == fills@.len(),
            i <= fills@.len(),
            (weighted_adverse, weight_total) == weighed(
                fills@,
                weights@,
                i as int,
                mid,
                threshold,
            ),
        decreases fills@.len() - i,
    {
        let f = fills[i];
        if f.checked {
            if is_adverse(&f, mid, threshold) {
                weighted_adverse = weighted_adverse.add(weights[i]);
            }
            weight_total = weight_total.add(weights[i]);
        }
        i = i + 1;
    }
    if weight_total.gt(Double::zero()) {
        weighted_adverse.div(weight_total).min(Double::from_u64(1))
    } else {
        Double::zero()
    }
}

impl MmState {
    /// Whether no counter that the markouts can move is near its end.
    pub fn has_markout_room(&self) -> (r: bool)
        ensures
            r == markout_room(self@),
    {
        let n: usize = self.fill_history.len();
        let top: u64 = 0xffff_ffff_ffff_ffff;
        let small: u64 = 0xffff_ffff;
        self.stats.markout_1s_count <= top - n as u64 && self.stats.markout_5s_count <= top
            - n as u64 && self.stats.markout_10s_count <= top - n as u64 && n as u64 <= small
            && self.adverse_fill_count as u64 <= small - n as u64
    }
}

/// Samples the fills for adverse markouts at the time `now`, and computes the score anew, each
/// fill having the given weight: the exponential function at the exponents of the fills.
pub fn update_markout_score(state: &mut MmState, now: Double, config: &Config, weights: &Vec<Double>)
    requires
        markout_room(old(state)@),
        weights@.len() == old(state)@.fill_history.len(),
    ensures
        final(state)@ == old(state)@.with_markouts(weights@, now, rule_of(*config)),
{
    let mid = match state.bbo {
        Some(b) => b.mid,
        None => return,
    };
    let rule = MarkoutRule {
        sample_sec: config.risk.markout_sample_sec,
        threshold: config.risk.markout_threshold_ticks.mul(config.token.tick_size),
    };
    proof {
        lemma_sampled(
            state@.fill_history,
            state@.fill_history.len() as int,
            state@.stats,
            mid,
            now,
            rule,
        );
    }
    let mut stats = state.stats;
    let hits = sample_fills(&mut state.fill_history, &mut stats, mid, now, &rule);
    state.stats = stats;
    state.adverse_fill_count = state.adverse_fill_count + hits;
    state.markout_score = score(&state.fill_history, weights, mid, rule.threshold);
}

} // verus!
