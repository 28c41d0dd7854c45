//! When the levels of a grid stay apart: two ticks of spacing are enough, whatever is rounded in
//! between.
use vstd::arithmetic::power2::{lemma2_to64, lemma_pow2_pos, pow2};
use vstd::prelude::*;

use crate::config::Config;
use crate::double::{
    lemma_exact, lemma_mag_form, lemma_mag_order, lemma_nearest, mag, nearest, of_int, one_unit,
    zero, Double, INF, P52, P53, UNIT,
};
use crate::grid_laws::{
    inventory_never_raises_quotes, lemma_positive_wish, not_above, spaced_levels_differ,
    unfiltered,
};
use crate::order::{
    integers_are_exact, lemma_plus_value, lemma_relative, lemma_rounded, lemma_rounding_exists,
    lemma_rounding_monotone, lemma_sum_error, lemma_zero_rounding, size_of,
};
use crate::strategy::{grid_delta, grid_for, grid_levels, grid_ticks, Grid};
use crate::ticks::{decimal_tick, lemma_decimal_tick, lemma_room, lemma_tick_size, MAX_TICKS};
use crate::types::{Bbo, MmModel};

verus! {

/// The number of ticks within which the edges of a grid lie, and over which its levels reach:
/// twice as many are just below `MAX_TICKS`, up to which all ticks are told apart.
pub const GRID_TICKS: u64 = 0xffff_ffff_ffff;

// ---- the errors of one level -----------------------------------------------------------------------

/// The distance of a level from the innermost one, as it is computed: `i` times the spacing of
/// `s` ticks of the size `t`.
spec fn spacing_step(s: nat, t: nat) -> nat {
    mag(nearest((s * one_unit()) * t, one_unit()))
}

spec fn offset_step(i: nat, s: nat, t: nat) -> nat {
    mag(nearest((i * one_unit()) * spacing_step(s, t), one_unit()))
}

/// The distance is off by an eighth of a tick at most.
proof fn lemma_offset_error(i: nat, s: nat, t: nat)
    requires
        s >= 1,
        i * s <= GRID_TICKS,
        s <= 0xffff_ffff,
        P52 <= t <= 2 * one_unit(),
    ensures
        8 * offset_step(i, s, t) <= 8 * (i * s * t) + t,
        8 * (i * s * t) <= 8 * offset_step(i, s, t) + t,
        nearest((s * one_unit()) * t, one_unit()) < INF,
        nearest((i * one_unit()) * spacing_step(s, t), one_unit()) < INF,
{
    let u = one_unit();
    let k = spacing_step(s, t);
    let o = offset_step(i, s, t);
    let st = s * t;
    lemma_room();
    assert((s * u) * t == st * u) by (nonlinear_arith)
        requires
            st == s * t,
    ;
    assert(st >= P52 && st <= 0x1_0000_0000 * (2 * u)) by (nonlinear_arith)
        requires
            st == s * t,
            1 <= s <= 0xffff_ffff,
            P52 <= t <= 2 * u,
    ;
    assert(P52 * u <= st * u <= pow2(2000) * u) by (nonlinear_arith)
        requires
            P52 <= st <= 0x1_0000_0000 * (2 * u),
            pow2(2000) >= 0x1_0000_0000_0000_0000_0000_0000_0000_0000nat * u,
            u >= 1,
    ;
    lemma_relative(st * u, u);
    lemma_cancel(k, st, u);
    // i times the spacing
    let ik = i * k;
    let ist = i * s * t;
    assert(ist == i * st) by (nonlinear_arith)
        requires
            ist == i * s * t,
            st == s * t,
    ;
    assert((P53 - 1) * ik <= P53 * ist && P53 * ist <= (P53 + 1) * ik) by (nonlinear_arith)
        requires
            (P53 - 1) * k <= P53 * st,
            P53 * st <= (P53 + 1) * k,
            ik == i * k,
            ist == i * st,
    ;
    assert(ist <= GRID_TICKS * t) by (nonlinear_arith)
        requires
            ist == i * s * t,
            i * s <= GRID_TICKS,
    ;
    assert((i * u) * k == ik * u) by (nonlinear_arith)
        requires
            ik == i * k,
    ;
    if i == 0 {
        assert(ik == 0 && ist == 0) by (nonlinear_arith)
            requires
                i == 0,
                ik == i * k,
                ist == i * st,
        ;
        assert(ik * u == 0) by (nonlinear_arith)
            requires
                ik == 0,
        ;
        lemma_zero_rounding(u);
    } else {
        assert(ik >= k && 2 * k >= st) by (nonlinear_arith)
            requires
                i >= 1,
                ik == i * k,
                P53 * st <= (P53 + 1) * k,
                P53 == 0x20_0000_0000_0000,
        ;
        assert(k >= P52) by (nonlinear_arith)
            requires
                P53 * st <= (P53 + 1) * k,
                st >= P52,
                P53 == 0x20_0000_0000_0000,
                P52 == 0x10_0000_0000_0000,
        ;
        assert(ik <= 2 * (0xffff_ffff_ffff * (2 * u)));
        assert(P52 * u <= ik * u <= pow2(2000) * u) by (nonlinear_arith)
            requires
                P52 <= ik <= 2 * (0xffff_ffff_ffff * (2 * u)),
                pow2(2000) >= 0x1_0000_0000_0000_0000_0000_0000_0000_0000nat * u,
                u >= 1,
        ;
        lemma_relative(ik * u, u);
        lemma_cancel(o, ik, u);
    }
}

/// Relative errors of a quotient by the unit are those of the quotient.
proof fn lemma_cancel(k: nat, n: nat, u: nat)
    requires
        u == one_unit(),
        (P53 - 1) * (k * u) <= P53 * (n * u),
        P53 * (n * u) <= (P53 + 1) * (k * u),
    ensures
        (P53 - 1) * k <= P53 * n,
        P53 * n <= (P53 + 1) * k,
{
    lemma_pow2_pos(UNIT as nat);
    assert((P53 - 1) * k <= P53 * n) by (nonlinear_arith)
        requires
            (P53 - 1) * (k * u) <= P53 * (n * u),
            u > 0,
    {
        assert(((P53 - 1) * k) * u <= (P53 * n) * u);
    }
    assert(P53 * n <= (P53 + 1) * k) by (nonlinear_arith)
        requires
            P53 * (n * u) <= (P53 + 1) * (k * u),
            u > 0,
    {
        assert((P53 * n) * u <= ((P53 + 1) * k) * u);
    }
}

/// The price at which a level is wanted, as it is computed: off by an eighth of a tick at most.
proof fn lemma_wish_error(n: nat, t: nat)
    requires
        8 * n <= 8 * (2 * GRID_TICKS * t) + t,
        P52 <= t <= 2 * one_unit(),
    ensures
        ({
            let w = mag(nearest(n, 1));
            &&& 8 * w <= 8 * n + t
            &&& 8 * n <= 8 * w + t
            &&& nearest(n, 1) < INF
        }),
{
    let u = one_unit();
    lemma_room();
    lemma_reach(t);
    lemma_sum_error(n);
}

/// The ticks of that price, in units: off by an eighth of a tick at most, from above.
proof fn lemma_ticks_above(w: nat, t: nat)
    requires
        4 * w <= 4 * (2 * GRID_TICKS * t) + t,
        P52 <= t <= 2 * one_unit(),
    ensures
        8 * (mag(nearest(w * one_unit(), t)) * t) <= 8 * (w * one_unit()) + t * one_unit(),
        nearest(w * one_unit(), t) < INF,
{
    let u = one_unit();
    let n = w * u;
    let tu = t * u;
    lemma_room();
    assert(4 * n <= 4 * (2 * GRID_TICKS * tu) + tu) by (nonlinear_arith)
        requires
            4 * w <= 4 * (2 * GRID_TICKS * t) + t,
            n == w * u,
            tu == t * u,
            u >= 0,
    ;
    assert(n <= pow2(2000) * t) by (nonlinear_arith)
        requires
            4 * n <= 4 * (2 * GRID_TICKS * tu) + tu,
            tu == t * u,
            pow2(2000) >= 0x1_0000_0000_0000_0000_0000_0000_0000_0000nat * u,
            GRID_TICKS == 0xffff_ffff_ffff,
    ;
    lemma_reach(tu);
    let m = mag(nearest(n, t)) * t;
    if P52 * t <= n {
        lemma_relative(n, t);
        assert(8 * m <= 8 * n + tu) by (nonlinear_arith)
            requires
                (P53 - 1) * m <= P53 * n,
                4 * n <= 4 * (0x1_ffff_ffff_fffe * tu) + tu,
                P53 == 0x20_0000_0000_0000,
        ;
    } else {
        // less than a normal magnitude is far less than an eighth of a tick
        lemma_tiny(n, t);
    }
}

proof fn lemma_tiny(n: nat, t: nat)
    requires
        n <= P52 * t,
        t >= 1,
    ensures
        8 * (mag(nearest(n, t)) * t) <= t * one_unit(),
        nearest(n, t) < INF,
{
    let u = one_unit();
    lemma_room();
    assert(mag(P52 as int) == P52) by {
        lemma_mag_form(0, P52 as int);
        lemma2_to64();
    }
    lemma_exact(t, P52 as int);
    lemma_nearest(P52 as nat * t, t, P52 as int);
    lemma_rounding_monotone(n, P52 as nat * t, t);
    lemma_rounding_exists(n, t);
    lemma_mag_order(nearest(n, t), P52 as int);
    assert(8 * (mag(nearest(n, t)) * t) <= t * u) by (nonlinear_arith)
        requires
            mag(nearest(n, t)) <= P52,
            u >= 0x1_0000_0000_0000_0000_0000_0000_0000_0000nat,
            P52 == 0x10_0000_0000_0000,
            t >= 1,
    ;
}

/// The same from below, for a price of a tick or more.
proof fn lemma_ticks_below(w: nat, t: nat)
    requires
        t <= w,
        4 * w <= 4 * (2 * GRID_TICKS * t) + t,
        P52 <= t <= 2 * one_unit(),
    ensures
        8 * (w * one_unit()) <= 8 * (mag(nearest(w * one_unit(), t)) * t) + t * one_unit(),
{
    let u = one_unit();
    let n = w * u;
    let tu = t * u;
    lemma_room();
    lemma_ticks_above(w, t);
    assert(n >= tu && P52 * t <= n) by (nonlinear_arith)
        requires
            n == w * u,
            tu == t * u,
            t <= w,
            u >= 0x1_0000_0000_0000_0000_0000_0000_0000_0000nat,
            P52 == 0x10_0000_0000_0000,
    ;
    assert(4 * n <= 4 * (2 * GRID_TICKS * tu) + tu) by (nonlinear_arith)
        requires
            4 * w <= 4 * (2 * GRID_TICKS * t) + t,
            n == w * u,
            tu == t * u,
            u >= 0,
    ;
    assert(n <= pow2(2000) * t) by (nonlinear_arith)
        requires
            4 * n <= 4 * (2 * GRID_TICKS * tu) + tu,
            tu == t * u,
            pow2(2000) >= 0x1_0000_0000_0000_0000_0000_0000_0000_0000nat * u,
            GRID_TICKS == 0xffff_ffff_ffff,
    ;
    lemma_reach(tu);
    lemma_relative(n, t);
}

proof fn lemma_reach(t: nat)
    ensures
        2 * GRID_TICKS * t == 0x1_ffff_ffff_fffe * t,
{
    assert(2 * GRID_TICKS * t == 0x1_ffff_ffff_fffe * t) by (nonlinear_arith)
        requires
            GRID_TICKS == 0xffff_ffff_ffff,
    ;
}

// ---- two levels ----------------------------------------------------------------------------------------

impl Grid {
    /// What the innermost bid or ask is wanted at.
    pub open spec fn edge(self, buy: bool) -> Double {
        if buy {
            self.center.minus(self.delta)
        } else {
            self.center.plus(self.delta)
        }
    }
}

/// The edges of a grid lie within so many ticks of nothing.
pub open spec fn within_reach(g: Grid, buy: bool) -> bool {
    &&& g.edge(buy).is_finite()
    &&& -(GRID_TICKS * g.tick.value()) <= g.edge(buy).value() <= GRID_TICKS * g.tick.value()
}

/// The grid has a decimal tick, and its levels are laid `s` of them apart.
pub open spec fn laid_out(g: Grid, s: nat) -> bool {
    &&& g.price_places <= 22
    &&& g.tick == decimal_tick(g.price_places)
    &&& 1 <= s <= u32::MAX
    &&& g.spacing == of_int(s as int).times(g.tick)
}

/// The distance of a level of such a grid.
proof fn lemma_offset(g: Grid, i: nat, s: nat)
    requires
        laid_out(g, s),
        i * s <= GRID_TICKS,
    ensures
        g.offset(i as int).is_finite(),
        !g.offset(i as int).neg(),
        g.offset(i as int).value() == offset_step(i, s, mag(g.tick.index())),
{
    let t = mag(g.tick.index());
    let u = one_unit();
    lemma_pow2_pos(UNIT as nat);
    lemma_tick_size(g.price_places);
    lemma_offset_error(i, s, t);
    assert(i <= GRID_TICKS) by (nonlinear_arith)
        requires
            i * s <= GRID_TICKS,
            s >= 1,
    ;
    integers_are_exact(i);
    integers_are_exact(s);
    lemma_rounded(false, (s * u) * t, u);
    lemma_rounded(false, (i * u) * spacing_step(s, t), u);
}

/// What a level is wanted at: the edge and the distance, rounded.
proof fn lemma_wish(g: Grid, buy: bool, i: nat, s: nat) -> (n: nat)
    requires
        laid_out(g, s),
        i * s <= GRID_TICKS,
        within_reach(g, buy),
        zero().less(g.price(buy, i as int)),
    ensures
        n == (if buy {
            g.edge(buy).value() - offset_step(i, s, mag(g.tick.index()))
        } else {
            g.edge(buy).value() + offset_step(i, s, mag(g.tick.index()))
        }),
        n > 0,
        8 * n <= 8 * (2 * GRID_TICKS * mag(g.tick.index())) + mag(g.tick.index()),
        ({
            let t = mag(g.tick.index());
            let w = mag(nearest(n, 1));
            let x = g.wish(buy, i as int).over(g.tick);
            &&& x.value() == mag(nearest(w * one_unit(), t))
            &&& !x.is_nan()
        }),
{
    let t = mag(g.tick.index());
    let u = one_unit();
    let o = g.offset(i as int);
    let a = g.edge(buy);
    let wish = g.wish(buy, i as int);
    lemma_pow2_pos(UNIT as nat);
    lemma_tick_size(g.price_places);
    lemma_decimal_tick(g.price_places);
    lemma_offset(g, i, s);
    lemma_offset_error(i, s, t);
    lemma_positive_wish(g, buy, i as int);
    assert(mag(0) == 0);
    let b = if buy {
        o.negated()
    } else {
        o
    };
    assert(b.is_finite() && b.value() == if buy {
        -o.value()
    } else {
        o.value()
    });
    lemma_plus_value(a, b);
    let m = a.value() + b.value();
    lemma_rounded(m < 0, size_of(m), 1);
    if m == 0 {
        lemma_zero_rounding(1);
    }
    assert(m > 0);
    let n = m as nat;
    let ist = i * s * t;
    assert(ist <= GRID_TICKS * t) by (nonlinear_arith)
        requires
            ist == i * s * t,
            i * s <= GRID_TICKS,
    ;
    assert(2 * GRID_TICKS * t == GRID_TICKS * t + GRID_TICKS * t) by (nonlinear_arith);
    assert(offset_step(i, s, t) >= 0);
    lemma_wish_error(n, t);
    let w = mag(nearest(n, 1));
    lemma_reach(t);
    lemma_ticks_above(w, t);
    lemma_mag_order(0, wish.index());
    assert(mag(wish.index()) == w);
    lemma_rounded(false, w * u, t);
    n
}

/// Levels that are laid two ticks apart are wanted a tick or more apart.
proof fn lemma_two_ticks(g: Grid, buy: bool, i: nat, j: nat, s: nat)
    requires
        laid_out(g, s),
        s >= 2,
        i < j,
        j * s <= GRID_TICKS,
        within_reach(g, buy),
        zero().less(g.price(buy, i as int)),
        zero().less(g.price(buy, j as int)),
    ensures
        tick_apart(g, buy, i as int, j as int),
{
    let t = mag(g.tick.index());
    let u = one_unit();
    let oi = offset_step(i, s, t);
    let oj = offset_step(j, s, t);
    lemma_pow2_pos(UNIT as nat);
    lemma_tick_size(g.price_places);
    assert(i * s <= j * s) by (nonlinear_arith)
        requires
            i < j,
    ;
    lemma_offset_error(i, s, t);
    lemma_offset_error(j, s, t);
    assert(j * s * t >= i * s * t + 2 * t) by (nonlinear_arith)
        requires
            j >= i + 1,
            s >= 2,
            t >= 0,
    {
        assert(j * s >= i * s + s);
        assert((j * s) * t >= (i * s + s) * t);
        assert((i * s + s) * t == (i * s) * t + s * t);
        assert(s * t >= 2 * t);
    }
    assert(8 * oj >= 8 * oi + 14 * t);
    let ni = lemma_wish(g, buy, i, s);
    let nj = lemma_wish(g, buy, j, s);
    let (lo, hi) = if buy {
        (nj, ni)
    } else {
        (ni, nj)
    };
    assert(8 * hi >= 8 * lo + 14 * t);
    lemma_gap_of(lo, hi, t);
    integers_are_exact(MAX_TICKS as nat);
}

/// Two prices that differ by nearly two ticks differ by a tick or more after all rounding.
proof fn lemma_gap_of(lo: nat, hi: nat, t: nat)
    requires
        lo > 0,
        8 * hi >= 8 * lo + 14 * t,
        8 * lo <= 8 * (2 * GRID_TICKS * t) + t,
        8 * hi <= 8 * (2 * GRID_TICKS * t) + t,
        P52 <= t <= 2 * one_unit(),
    ensures
        ({
            let u = one_unit();
            let x = mag(nearest(mag(nearest(lo, 1)) * u, t));
            let y = mag(nearest(mag(nearest(hi, 1)) * u, t));
            &&& x + u <= y
            &&& y <= MAX_TICKS * u
        }),
{
    let u = one_unit();
    let v = mag(nearest(lo, 1));
    let w = mag(nearest(hi, 1));
    let x = mag(nearest(v * u, t));
    let y = mag(nearest(w * u, t));
    lemma_pow2_pos(UNIT as nat);
    lemma_reach(t);
    lemma_wish_error(lo, t);
    lemma_wish_error(hi, t);
    assert(8 * w >= 8 * v + 12 * t);
    lemma_ticks_above(v, t);
    lemma_ticks_above(w, t);
    lemma_ticks_below(w, t);
    let tu = t * u;
    assert(8 * (w * u) >= 8 * (v * u) + 12 * tu) by (nonlinear_arith)
        requires
            8 * w >= 8 * v + 12 * t,
            tu == t * u,
            u >= 0,
    ;
    assert(y * t >= x * t + tu);
    assert(y >= x + u) by (nonlinear_arith)
        requires
            y * t >= x * t + tu,
            tu == t * u,
            t > 0,
    ;
    assert(8 * (w * u) <= 8 * (0x1_ffff_ffff_fffe * tu) + 2 * tu) by (nonlinear_arith)
        requires
            8 * w <= 8 * (0x1_ffff_ffff_fffe * t) + 2 * t,
            tu == t * u,
            u >= 0,
    ;
    assert(y * t <= 0x2_0000_0000_0000 * tu);
    assert(y <= MAX_TICKS * u) by (nonlinear_arith)
        requires
            y * t <= 0x2_0000_0000_0000 * tu,
            tu == t * u,
            t > 0,
            MAX_TICKS == 0x2_0000_0000_0000,
    ;
}

// ---- whole sides -----------------------------------------------------------------------------------------

/// Two levels are wanted a tick or more apart, the outer one farther from the market, and
/// within the ticks that are told apart.
pub open spec fn tick_apart(g: Grid, buy: bool, i: int, j: int) -> bool {
    let x = g.wish(buy, i).over(g.tick);
    let y = g.wish(buy, j).over(g.tick);
    if buy {
        y.value() + one_unit() <= x.value() && x.at_most(of_int(MAX_TICKS as int))
    } else {
        x.value() + one_unit() <= y.value() && y.at_most(of_int(MAX_TICKS as int))
    }
}

/// The levels that a side quotes are wanted a tick or more apart.
pub open spec fn told_apart(g: Grid, buy: bool, n: int) -> bool {
    forall|i: int, j: int|
        0 <= i < j < n && g.quoted(i) && g.quoted(j) ==> #[trigger] tick_apart(g, buy, i, j)
}

/// Every level that a side quotes has a positive price.
pub open spec fn all_positive(g: Grid, buy: bool, n: int) -> bool {
    forall|i: int| 0 <= i < n && g.quoted(i) ==> zero().less(#[trigger] g.price(buy, i))
}

/// On a decimal tick no level is dropped for the price of another, where the levels are laid
/// two ticks apart or more; nor where they are laid one tick apart, and what they are wanted at
/// still differs by a tick after rounding.
pub proof fn spaced_levels_are_not_filtered(g: Grid, buy: bool, n: nat, s: nat)
    requires
        laid_out(g, s),
        n * s <= GRID_TICKS,
        within_reach(g, buy),
        all_positive(g, buy, n as int),
        s == 1 ==> told_apart(g, buy, n as int),
    ensures
        unfiltered(g, buy, n as int),
{
    assert forall|i: int, j: int| 0 <= i < j < n && g.quoted(i) && g.quoted(j) implies (
    #[trigger] g.price(buy, i)) != #[trigger] g.price(buy, j) by {
        assert(j * s <= n * s) by (nonlinear_arith)
            requires
                j < n,
        ;
        if s >= 2 {
            lemma_two_ticks(g, buy, i as nat, j as nat, s);
        }
        assert(tick_apart(g, buy, i, j));
        if buy {
            spaced_levels_differ(g, buy, j, i);
        } else {
            spaced_levels_differ(g, buy, i, j);
        }
    }
}

/// More inventory never raises a quote, also when the half spread is clamped. On a decimal
/// tick, with a spacing of a tick or more, with a grid that stays within so many ticks and has
/// positive prices, the quotes for two inventories are as many, of the same sizes and spread,
/// and those for the larger inventory are at no higher prices. A spacing of one tick can be lost
/// in rounding, and no two levels are to share a price there; one of two ticks never is.
pub proof fn inventory_never_raises_spaced_quotes(
    bbo: Bbo,
    p1: Double,
    p2: Double,
    config: Config,
    s: MmModel,
)
    requires
        p1.at_most(p2),
        zero().at_most(config.as_model.gamma),
        config.spread.level_tick_spacing >= 1,
        config.token.num_levels * config.spread.level_tick_spacing <= GRID_TICKS,
        ({
            let n = config.token.num_levels as int;
            let g1 = grid_for(bbo, p1, config, s);
            let g2 = grid_for(bbo, p2, config, s);
            &&& g1.price_places <= 22
            &&& config.token.tick_size == decimal_tick(g1.price_places)
            &&& forall|buy: bool|
                #![trigger within_reach(g1, buy)]
                #![trigger within_reach(g2, buy)]
                {
                    &&& within_reach(g1, buy) && within_reach(g2, buy)
                    &&& all_positive(g1, buy, n) && all_positive(g2, buy, n)
                    &&& config.spread.level_tick_spacing == 1 ==> unfiltered(g1, buy, n)
                        && unfiltered(g2, buy, n)
                }
        }),
    ensures
        not_above(grid_levels(bbo, p1, config, s).0, grid_levels(bbo, p2, config, s).0),
        not_above(grid_levels(bbo, p1, config, s).1, grid_levels(bbo, p2, config, s).1),
        grid_ticks(grid_delta(bbo, p1, config, s), config.token.tick_size) == grid_ticks(
            grid_delta(bbo, p2, config, s),
            config.token.tick_size,
        ),
{
    let n = config.token.num_levels as nat;
    let space = config.spread.level_tick_spacing as nat;
    let g1 = grid_for(bbo, p1, config, s);
    let g2 = grid_for(bbo, p2, config, s);
    lemma_decimal_tick(g1.price_places);
    assert(within_reach(g1, true) && within_reach(g1, false));
    assert(within_reach(g2, true) && within_reach(g2, false));
    if space >= 2 {
        spaced_levels_are_not_filtered(g1, true, n, space);
        spaced_levels_are_not_filtered(g1, false, n, space);
        spaced_levels_are_not_filtered(g2, true, n, space);
        spaced_levels_are_not_filtered(g2, false, n, space);
    }
    inventory_never_raises_quotes(bbo, p1, p2, config, s);
}

} // verus!
