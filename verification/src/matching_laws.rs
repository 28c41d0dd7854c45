//! What holds of the orders that rest and those that are wanted: which of them are near enough to
//! each other to be left alone, and what becomes of the others.
use vstd::arithmetic::power2::lemma_pow2_pos;
use vstd::prelude::*;

use crate::bounds::{lemma_difference, lemma_quotient_bound, lemma_ratio, lemma_value};
use crate::double::{
    lemma_mag_order, mag, nan, nearest, of_int, one_unit, quotient, zero, Double, INF, P52, P53,
    UNIT,
};
use crate::exchange::{ModifyRequest, RequestView};
use crate::order::{
    integers_are_exact, lemma_rounded, lemma_rounding_exact, lemma_rounding_monotone, size_of,
};
use crate::quoting::{
    additions, after_order, close_enough, closest, desired_of, diff_of, distance, existing_of,
    kept_updated, lemma_closest, matching, modified, size_change, Desired, DiffView, Kept,
};
use crate::risk::Quote;
use crate::round_laws::{kept_oids, modify_oids};
use crate::ticks::{lemma_room, MAX_TICKS};
use crate::types::{MmModel, TrackedOrder};

verus! {

/// How far two numbers are apart.
pub open spec fn apart(a: Double, b: Double) -> nat {
    size_of(a.value() - b.value())
}

/// The largest of the two sizes and the smallest size that there is.
pub open spec fn largest(a: Double, b: Double, min_size: Double) -> int {
    let m = if size_of(a.value()) >= size_of(b.value()) {
        size_of(a.value())
    } else {
        size_of(b.value())
    };
    if m >= min_size.value() {
        m as int
    } else {
        min_size.value()
    }
}

/// Two sizes differ, either way, by at most five percent of the larger; `slack` parts in 2^53
/// are left to rounding.
pub open spec fn sizes_agree(a: Double, b: Double, min_size: Double, slack: int) -> bool {
    20 * ((P53 + slack) * apart(a, b)) <= P53 * largest(a, b, min_size)
}

/// Two prices differ, either way, by at most one tick; `slack` parts in 2^53 are left to
/// rounding.
pub open spec fn prices_agree(a: Double, b: Double, tick: Double, slack: int) -> bool {
    (P53 + slack) * apart(a, b) <= P53 * tick.value()
}

/// A tick or a size that a market can have.
pub open spec fn positive(x: Double) -> bool {
    x.is_finite() && zero().less(x)
}

// ---- near enough ---------------------------------------------------------------------------------

proof fn lemma_largest(a: Double, b: Double, min_size: Double)
    requires
        !a.is_nan(),
        !b.is_nan(),
        positive(min_size),
    ensures
        ({
            let m = a.magnitude().larger(b.magnitude()).larger(min_size);
            &&& m.value() == largest(a, b, min_size)
            &&& zero().less(m)
            &&& a.is_finite() && b.is_finite() ==> m.is_finite()
        }),
{
    lemma_value(a);
    lemma_value(b);
    lemma_value(min_size);
    assert(mag(0) == 0);
}

/// The exact bound from the roundings of a difference, a quotient and the five percent.
proof fn lemma_chain(a: int, d: int, c: int, m: int, u: int)
    requires
        P53 * a <= (P53 + 1) * d,
        P53 * (d * u) <= (P53 + 1) * (c * m),
        (P53 - 1) * (20 * c) <= P53 * u,
        a >= 0,
        d >= 0,
        c >= 0,
        m >= 0,
        u > 0,
    ensures
        20 * ((P53 - 4) * a) <= P53 * m,
{
    let p = P53 as int;
    let g = p + 1;
    assert((20 * (p - 1)) * (p * (d * u)) <= (20 * (p - 1)) * (g * (c * m))) by (nonlinear_arith)
        requires
            p * (d * u) <= g * (c * m),
            p > 1,
    ;
    assert((20 * (p - 1)) * (g * (c * m)) <= (g * m) * (p * u)) by (nonlinear_arith)
        requires
            (p - 1) * (20 * c) <= p * u,
            g * m >= 0,
    {
        assert((20 * (p - 1)) * (g * (c * m)) == (g * m) * ((p - 1) * (20 * c)));
    }
    assert((20 * (p - 1)) * d <= g * m) by (nonlinear_arith)
        requires
            (20 * (p - 1)) * (p * (d * u)) <= (g * m) * (p * u),
            p > 0,
            u > 0,
    {
        assert((20 * (p - 1)) * (p * (d * u)) == ((20 * (p - 1)) * d) * (p * u));
        assert(p * u > 0);
    }
    assert((20 * (p - 1)) * (p * a) <= g * (g * m)) by (nonlinear_arith)
        requires
            p * a <= g * d,
            (20 * (p - 1)) * d <= g * m,
            p > 1,
            g == p + 1,
    {
        assert((20 * (p - 1)) * (p * a) <= (20 * (p - 1)) * (g * d));
        assert((20 * (p - 1)) * (g * d) == g * ((20 * (p - 1)) * d));
    }
    let gg = g * g;
    assert(gg * m == g * (g * m) && gg > 0) by (nonlinear_arith)
        requires
            gg == g * g,
            g > 0,
    ;
    assert((p - 4) * gg <= p * (p * (p - 1))) by (nonlinear_arith)
        requires
            gg == g * g,
            g == p + 1,
            p > 0,
    ;
    assert(20 * ((p - 4) * a) <= p * m) by (nonlinear_arith)
        requires
            (20 * (p - 1)) * (p * a) <= gg * m,
            (p - 4) * gg <= p * (p * (p - 1)),
            a >= 0,
            gg > 0,
            p > 0,
    {
        assert((20 * a) * ((p - 4) * gg) <= (20 * a) * (p * (p * (p - 1))));
        assert((20 * a) * (p * (p * (p - 1))) == p * ((20 * (p - 1)) * (p * a)));
        assert(p * ((20 * (p - 1)) * (p * a)) <= p * (gg * m));
        assert((20 * ((p - 4) * a)) * gg == (20 * a) * ((p - 4) * gg));
        assert(p * (gg * m) == (p * m) * gg);
    }
}

/// An order that is close enough agrees with the wanted one in price and size.
proof fn lemma_close(o: TrackedOrder, d: Desired, tick: Double, min_size: Double)
    requires
        positive(tick),
        positive(min_size),
        close_enough(o, d, distance(o, d.price, tick), min_size),
    ensures
        o.price.is_finite() && d.price.is_finite() && o.size.is_finite() && d.size.is_finite(),
        prices_agree(o.price, d.price, tick, -3),
        sizes_agree(o.size, d.size, min_size, -4),
{
    let u = one_unit();
    lemma_pow2_pos(UNIT as nat);
    assert(nan().is_nan());
    lemma_value(tick);
    lemma_value(min_size);
    let e = o.price.minus(d.price);
    assert(e.magnitude().index() == e.index());
    assert(!e.is_nan());
    assert(o.price.is_finite() && d.price.is_finite()) by {
        if o.price.is_inf() || d.price.is_inf() {
            assert(e.is_inf());
            integers_are_exact(1);
            lemma_mag_order(of_int(1).index(), INF as int);
        }
    }
    lemma_difference(o.price, d.price);
    lemma_value(e);
    integers_are_exact(1);
    assert(1 * u == u);
    assert(u >= P52) by {
        lemma_room();
    }
    if e.is_inf() {
        lemma_mag_order(of_int(1).index(), INF as int);
    }
    let dist = e.magnitude();
    lemma_quotient_bound(dist, tick, of_int(1));
    let ap = apart(o.price, d.price) as int;
    let dv = dist.value();
    let t = tick.value();
    assert((P53 - 3) * ap <= P53 * t) by (nonlinear_arith)
        requires
            P53 * ap <= (P53 + 1) * dv,
            P53 * (dv * u) <= (P53 + 1) * (u * t),
            u > 0,
            ap >= 0,
            t >= 0,
            dv >= 0,
    {
        assert((P53 * dv) * u <= ((P53 + 1) * t) * u);
        assert(P53 * dv <= (P53 + 1) * t);
    }
    let c = o.size.minus(d.size);
    assert(c.magnitude().index() == c.index());
    let den = o.size.magnitude().larger(d.size.magnitude()).larger(min_size);
    assert(!c.is_nan());
    lemma_value(o.size);
    lemma_value(d.size);
    lemma_largest(o.size, d.size, min_size);
    assert(o.size.is_finite() && d.size.is_finite()) by {
        if o.size.is_inf() || d.size.is_inf() {
            assert(c.is_inf());
            lemma_mag_order(o.size.index(), INF as int);
            lemma_mag_order(d.size.index(), INF as int);
            lemma_mag_order(min_size.index(), INF as int);
            lemma_mag_order(INF as int, den.index());
            assert(den.value() >= mag(INF as int));
            lemma_mag_order(den.index(), INF as int);
            assert(den.is_inf());
        }
    }
    lemma_difference(o.size, d.size);
    lemma_value(c);
    lemma_ratio(5, 100);
    let five = quotient(5, 100);
    if c.is_inf() {
        lemma_mag_order(five.index(), INF as int);
    }
    lemma_quotient_bound(c.magnitude(), den, five);
    assert((P53 - 1) * (20 * five.value()) <= P53 * u) by (nonlinear_arith)
        requires
            (P53 - 1) * (five.value() * 100) <= P53 * (5 * u),
    ;
    lemma_chain(
        apart(o.size, d.size) as int,
        c.magnitude().value(),
        five.value(),
        den.value(),
        u as int,
    );
}

/// An order that agrees with the wanted one in price and size is close enough.
proof fn lemma_agreeing(o: TrackedOrder, d: Desired, tick: Double, min_size: Double)
    requires
        positive(tick),
        positive(min_size),
        o.price.is_finite() && d.price.is_finite() && o.size.is_finite() && d.size.is_finite(),
        prices_agree(o.price, d.price, tick, 2),
        sizes_agree(o.size, d.size, min_size, 4),
    ensures
        close_enough(o, d, distance(o, d.price, tick), min_size),
{
    let u = one_unit();
    lemma_pow2_pos(UNIT as nat);
    lemma_value(tick);
    lemma_value(min_size);
    lemma_difference(o.price, d.price);
    let e = o.price.minus(d.price);
    lemma_value(e);
    integers_are_exact(1);
    assert(1 * u == u);
    assert(u >= P52) by {
        lemma_room();
    }
    let ap = apart(o.price, d.price);
    let t = tick.value();
    assert(ap <= t) by (nonlinear_arith)
        requires
            (P53 + 2) * ap <= P53 * t,
            ap >= 0,
    ;
    lemma_finite(ap, tick);
    let dv = mag(e.index()) as int;
    assert(dv <= t) by (nonlinear_arith)
        requires
            (P53 - 1) * dv <= P53 * ap,
            (P53 + 2) * ap <= P53 * t,
            dv >= 0,
            ap >= 0,
            t >= 0,
            P53 == 0x20_0000_0000_0000,
    ;
    assert(dv * u <= u * t) by (nonlinear_arith)
        requires
            dv <= t,
            u > 0,
    ;
    lemma_quotient_bound(e.magnitude(), tick, of_int(1));
    // the sizes
    lemma_value(o.size);
    lemma_value(d.size);
    lemma_largest(o.size, d.size, min_size);
    let den = o.size.magnitude().larger(d.size.magnitude()).larger(min_size);
    lemma_difference(o.size, d.size);
    let c = o.size.minus(d.size);
    lemma_value(c);
    let a = apart(o.size, d.size);
    let m = den.value();
    assert(a <= m) by (nonlinear_arith)
        requires
            20 * ((P53 + 4) * a) <= P53 * m,
            a >= 0,
    ;
    lemma_value(den);
    lemma_finite(a, den);
    lemma_ratio(5, 100);
    let five = quotient(5, 100).value();
    let cv = mag(c.index()) as int;
    assert(cv * u <= five * m) by {
        let p = P53 as int;
        assert(20 * ((p + 1) * cv) <= p * m) by (nonlinear_arith)
            requires
                (p - 1) * cv <= p * a,
                20 * ((p + 4) * a) <= p * m,
                cv >= 0,
                a >= 0,
                m >= 0,
                p == 0x20_0000_0000_0000,
        ;
        assert(cv * u <= five * m) by (nonlinear_arith)
            requires
                20 * ((p + 1) * cv) <= p * m,
                p * (5 * u) <= (p + 1) * (five * 100),
                u > 0,
                m >= 0,
                p == 0x20_0000_0000_0000,
        {
            assert(p * u <= (p + 1) * (20 * five));
            assert((20 * ((p + 1) * cv)) * u <= (p * m) * u);
            assert((p * u) * m <= ((p + 1) * (20 * five)) * m);
            assert((20 * (p + 1)) * (cv * u) <= (20 * (p + 1)) * (five * m));
        }
    }
    lemma_quotient_bound(c.magnitude(), den, quotient(5, 100));
}

/// What is at most a finite number rounds to a finite one.
proof fn lemma_finite(n: nat, x: Double)
    requires
        x.is_finite(),
        n <= mag(x.index()),
    ensures
        nearest(n, 1) < INF,
{
    lemma_rounding_exact(x.index());
    lemma_rounding_monotone(n, mag(x.index()), 1);
}

// ---- what is decided -----------------------------------------------------------------------------

/// A kept order is one that is known and close to the wanted order whose price and size it is
/// told.
spec fn kept_for(k: Kept, d: Desired, details: Map<u64, TrackedOrder>, tick: Double, min_size: Double) -> bool {
    let o = details[k.oid];
    &&& details.contains_key(k.oid)
    &&& d.is_buy == o.is_buy
    &&& k.price == d.price
    &&& k.size == d.size
    &&& close_enough(o, d, distance(o, d.price, tick), min_size)
    &&& k.drift_ticks == distance(o, d.price, tick).nearest_whole().saturated(0, u32::MAX as int)
}

spec fn modified_for(
    r: ModifyRequest,
    d: Desired,
    details: Map<u64, TrackedOrder>,
    tick: Double,
    min_size: Double,
) -> bool {
    let o = details[r.oid];
    &&& details.contains_key(r.oid)
    &&& d.is_buy == o.is_buy
    &&& r.is_buy == o.is_buy
    &&& r.new_price == d.price
    &&& r.new_size == d.size
    &&& !r.reduce_only
    &&& !close_enough(o, d, distance(o, d.price, tick), min_size)
}

/// Some wanted order is what an order is kept for.
spec fn is_kept_for(
    k: Kept,
    desired: Seq<Desired>,
    details: Map<u64, TrackedOrder>,
    tick: Double,
    min_size: Double,
) -> bool {
    exists|j: int|
        0 <= j < desired.len() && kept_for(k, #[trigger] desired[j], details, tick, min_size)
}

/// Some wanted order is what an order is modified for.
spec fn is_modified_for(
    r: ModifyRequest,
    desired: Seq<Desired>,
    details: Map<u64, TrackedOrder>,
    tick: Double,
    min_size: Double,
) -> bool {
    exists|j: int|
        0 <= j < desired.len() && modified_for(r, #[trigger] desired[j], details, tick, min_size)
}

proof fn lemma_decided(
    existing: Seq<u64>,
    n: int,
    desired: Seq<Desired>,
    details: Map<u64, TrackedOrder>,
    tick: Double,
    min_size: Double,
)
    requires
        0 <= n <= existing.len(),
    ensures
        ({
            let m = matching(existing, n, desired, details, tick, min_size);
            &&& m.matched.len() == desired.len()
            &&& forall|i: int|
                0 <= i < m.kept.len() ==> is_kept_for(
                    #[trigger] m.kept[i],
                    desired,
                    details,
                    tick,
                    min_size,
                )
            &&& forall|i: int|
                0 <= i < m.modifies.len() ==> is_modified_for(
                    #[trigger] m.modifies[i],
                    desired,
                    details,
                    tick,
                    min_size,
                )
        }),
    decreases n,
{
    if n > 0 {
        lemma_decided(existing, n - 1, desired, details, tick, min_size);
        let b = matching(existing, n - 1, desired, details, tick, min_size);
        let m = matching(existing, n, desired, details, tick, min_size);
        let oid = existing[n - 1];
        if details.contains_key(oid) {
            let o = details[oid];
            lemma_closest(desired, b.matched, o, tick, desired.len() as int);
            if let Some((j, dist)) = closest(desired, b.matched, o, tick, desired.len() as int) {
                if close_enough(o, desired[j], dist, min_size) {
                    assert(kept_for(m.kept.last(), desired[j], details, tick, min_size));
                } else {
                    assert(modified_for(m.modifies.last(), desired[j], details, tick, min_size));
                }
            }
        }
        assert forall|i: int| 0 <= i < m.kept.len() implies is_kept_for(
            #[trigger] m.kept[i],
            desired,
            details,
            tick,
            min_size,
        ) by {
            if i < b.kept.len() {
                assert(m.kept[i] == b.kept[i]);
            }
        }
        assert forall|i: int| 0 <= i < m.modifies.len() implies is_modified_for(
            #[trigger] m.modifies[i],
            desired,
            details,
            tick,
            min_size,
        ) by {
            if i < b.modifies.len() {
                assert(m.modifies[i] == b.modifies[i]);
            }
        }
    }
}

/// Every order that is kept is a known one, and agrees with a wanted order of its side: their
/// prices differ by at most a tick, whichever is the higher, and their sizes by at most five
/// percent of the larger, whichever that is. It is told that price and size, and it is off by
/// one tick at most.
pub proof fn kept_orders_agree(
    existing: Seq<u64>,
    desired: Seq<Desired>,
    details: Map<u64, TrackedOrder>,
    coin: Seq<char>,
    tick: Double,
    min_size: Double,
)
    requires
        positive(tick),
        positive(min_size),
    ensures
        ({
            let r = diff_of(existing, desired, details, coin, tick, min_size);
            forall|i: int|
                0 <= i < r.kept.len() ==> {
                    let k = #[trigger] r.kept[i];
                    let o = details[k.oid];
                    &&& details.contains_key(k.oid)
                    &&& exists|j: int|
                        0 <= j < desired.len() && (#[trigger] desired[j]).is_buy == o.is_buy
                            && desired[j].price == k.price && desired[j].size == k.size
                    &&& prices_agree(o.price, k.price, tick, -3)
                    &&& sizes_agree(o.size, k.size, min_size, -4)
                    &&& k.drift_ticks <= 1
                }
        }),
{
    lemma_decided(existing, existing.len() as int, desired, details, tick, min_size);
    let r = diff_of(existing, desired, details, coin, tick, min_size);
    let m = matching(existing, existing.len() as int, desired, details, tick, min_size);
    assert forall|i: int| 0 <= i < r.kept.len() implies {
        let k = #[trigger] r.kept[i];
        let o = details[k.oid];
        &&& details.contains_key(k.oid)
        &&& exists|j: int|
            0 <= j < desired.len() && (#[trigger] desired[j]).is_buy == o.is_buy
                && desired[j].price == k.price && desired[j].size == k.size
        &&& prices_agree(o.price, k.price, tick, -3)
        &&& sizes_agree(o.size, k.size, min_size, -4)
        &&& k.drift_ticks <= 1
    } by {
        let k = m.kept[i];
        let j = choose|j: int|
            0 <= j < desired.len() && kept_for(k, #[trigger] desired[j], details, tick, min_size);
        assert(is_kept_for(k, desired, details, tick, min_size));
        lemma_close(details[k.oid], desired[j], tick, min_size);
        lemma_one_tick(distance(details[k.oid], desired[j].price, tick));
    }
}

/// A distance of at most one is a whole distance of at most one.
proof fn lemma_one_tick(x: Double)
    requires
        x.at_most(of_int(1)),
    ensures
        x.nearest_whole().saturated(0, u32::MAX as int) <= 1,
{
    let u = one_unit();
    lemma_pow2_pos(UNIT as nat);
    integers_are_exact(1);
    crate::order::nearest_integers_keep_order(x, of_int(1));
    let one = of_int(1);
    assert(mag(one.index()) == u);
    assert((2 * u + u) / (2 * u) == 1) by (nonlinear_arith)
        requires
            u > 0,
    ;
    assert(one.nearest_whole() == one.with_whole(1));
    lemma_rounded(false, (1 * u) as nat, 1);
    assert(one.nearest_whole().value() == u);
    let y = x.nearest_whole();
    lemma_value(y);
    if !y.neg() {
        assert(mag(y.index()) / u <= 1) by (nonlinear_arith)
            requires
                mag(y.index()) <= u,
                u > 0,
        ;
    } else {
        assert(mag(y.index()) / u >= 0) by (nonlinear_arith)
            requires
                u > 0,
        ;
    }
}

/// Every order that is modified is a known one that differs from a wanted order of its side by
/// more than a tick or by more than five percent; it is to get exactly the price and size of
/// that, and stays on its side.
pub proof fn modified_orders_differ(
    existing: Seq<u64>,
    desired: Seq<Desired>,
    details: Map<u64, TrackedOrder>,
    coin: Seq<char>,
    tick: Double,
    min_size: Double,
)
    requires
        positive(tick),
        positive(min_size),
        forall|oid: u64| #[trigger]
            details.contains_key(oid) ==> details[oid].price.is_finite()
                && details[oid].size.is_finite(),
        forall|j: int|
            0 <= j < desired.len() ==> (#[trigger] desired[j]).price.is_finite()
                && desired[j].size.is_finite(),
    ensures
        ({
            let r = diff_of(existing, desired, details, coin, tick, min_size);
            forall|i: int|
                0 <= i < r.modifies.len() ==> {
                    let q = #[trigger] r.modifies[i];
                    let o = details[q.oid];
                    &&& details.contains_key(q.oid)
                    &&& q.is_buy == o.is_buy
                    &&& !q.reduce_only
                    &&& exists|j: int|
                        0 <= j < desired.len() && (#[trigger] desired[j]).is_buy == o.is_buy
                            && desired[j].price == q.new_price && desired[j].size == q.new_size
                    &&& !(prices_agree(o.price, q.new_price, tick, 2) && sizes_agree(
                        o.size,
                        q.new_size,
                        min_size,
                        4,
                    ))
                }
        }),
{
    lemma_decided(existing, existing.len() as int, desired, details, tick, min_size);
    let r = diff_of(existing, desired, details, coin, tick, min_size);
    let m = matching(existing, existing.len() as int, desired, details, tick, min_size);
    assert forall|i: int| 0 <= i < r.modifies.len() implies {
        let q = #[trigger] r.modifies[i];
        let o = details[q.oid];
        &&& details.contains_key(q.oid)
        &&& q.is_buy == o.is_buy
        &&& !q.reduce_only
        &&& exists|j: int|
            0 <= j < desired.len() && (#[trigger] desired[j]).is_buy == o.is_buy
                && desired[j].price == q.new_price && desired[j].size == q.new_size
        &&& !(prices_agree(o.price, q.new_price, tick, 2) && sizes_agree(
            o.size,
            q.new_size,
            min_size,
            4,
        ))
    } by {
        let q = m.modifies[i];
        let j = choose|j: int|
            0 <= j < desired.len() && modified_for(
                q,
                #[trigger] desired[j],
                details,
                tick,
                min_size,
            );
        assert(is_modified_for(q, desired, details, tick, min_size));
        let o = details[q.oid];
        if prices_agree(o.price, q.new_price, tick, 2) && sizes_agree(
            o.size,
            q.new_size,
            min_size,
            4,
        ) {
            lemma_agreeing(o, desired[j], tick, min_size);
        }
    }
}

// ---- one order and one wanted ---------------------------------------------------------------------

/// What is decided of one known order where one is wanted on its side.
proof fn lemma_single(o: TrackedOrder, d: Desired, oid: u64, coin: Seq<char>, tick: Double, min_size: Double)
    requires
        d.is_buy == o.is_buy,
    ensures
        ({
            let r = single(o, d, oid, coin, tick, min_size);
            let close = close_enough(o, d, distance(o, d.price, tick), min_size);
            &&& r.kept.len() == if close { 1int } else { 0 }
            &&& r.modifies.len() == if close { 0int } else { 1 }
            &&& r.cancels.len() == 0
            &&& r.adds.len() == 0
            &&& close ==> r.kept[0].oid == oid && r.kept[0].price == d.price && r.kept[0].size
                == d.size
            &&& !close ==> r.modifies[0].oid == oid && r.modifies[0].new_price == d.price
                && r.modifies[0].new_size == d.size
        }),
{
    let existing = seq![oid];
    let desired = seq![d];
    let details = map![oid => o];
    reveal_with_fuel(matching, 3);
    reveal_with_fuel(closest, 3);
    reveal_with_fuel(additions, 3);
    let m0 = matching(existing, 0, desired, details, tick, min_size);
    assert(!m0.matched[0]);
    assert(closest(desired, m0.matched, o, tick, 1) == Some((0int, distance(o, d.price, tick))));
    let m = matching(existing, 1, desired, details, tick, min_size);
    assert(m == after_order(m0, desired, details, oid, tick, min_size));
    assert(m.matched == m0.matched.update(0, true));
}

/// What is to be done about one order where one is wanted.
pub open spec fn single(
    o: TrackedOrder,
    d: Desired,
    oid: u64,
    coin: Seq<char>,
    tick: Double,
    min_size: Double,
) -> DiffView {
    diff_of(seq![oid], seq![d], map![oid => o], coin, tick, min_size)
}

/// Whether an order is left alone does not depend on which of two sizes it has and which is
/// wanted, nor on which of two prices.
pub proof fn agreement_is_mutual(
    o: TrackedOrder,
    d: Desired,
    p: TrackedOrder,
    e: Desired,
    oid: u64,
    coin: Seq<char>,
    tick: Double,
    min_size: Double,
)
    requires
        d.is_buy == o.is_buy,
        e.is_buy == p.is_buy,
        (p.size == d.size && e.size == o.size) || (p.size == o.size && e.size == d.size),
        (p.price == d.price && e.price == o.price) || (p.price == o.price && e.price == d.price),
    ensures
        single(o, d, oid, coin, tick, min_size).kept.len() == single(
            p,
            e,
            oid,
            coin,
            tick,
            min_size,
        ).kept.len(),
{
    lemma_single(o, d, oid, coin, tick, min_size);
    lemma_single(p, e, oid, coin, tick, min_size);
    lemma_mutual(o.price, d.price);
    lemma_mutual(o.size, d.size);
    assert(nan().is_nan());
    let a = o.size;
    let b = d.size;
    if a.is_nan() || b.is_nan() {
        assert(a.minus(b).is_nan() && b.minus(a).is_nan());
    } else {
        lemma_value(a);
        lemma_value(b);
        lemma_mag_order(a.index(), b.index());
        lemma_mag_order(b.index(), a.index());
        assert(a.magnitude().larger(b.magnitude()) == b.magnitude().larger(a.magnitude()));
    }
    assert(size_change(a, b, min_size) == size_change(b, a, min_size));
}

/// The difference of two numbers has the same magnitude either way.
proof fn lemma_mutual(a: Double, b: Double)
    ensures
        a.minus(b).magnitude() == b.minus(a).magnitude(),
{
    assert(nan().is_nan());
    if !a.is_nan() && !b.is_nan() {
        lemma_value(a);
        lemma_value(b);
        if a.is_finite() && b.is_finite() {
            lemma_difference(a, b);
            lemma_difference(b, a);
            assert(size_of(a.value() - b.value()) == size_of(b.value() - a.value()));
        } else if a.is_inf() && b.is_inf() {
            assert(a.negated().neg() != a.neg());
        }
    }
}

/// An order of which half its size or less is wanted is made smaller, whatever its price; and
/// one of which twice its size or more is wanted is made larger.
pub proof fn resized_orders_are_modified(
    o: TrackedOrder,
    d: Desired,
    oid: u64,
    coin: Seq<char>,
    tick: Double,
    min_size: Double,
)
    requires
        positive(tick),
        positive(min_size),
        d.is_buy == o.is_buy,
        zero().at_most(d.size),
        zero().at_most(o.size),
        min_size.at_most(o.size) && 2 * d.size.value() <= o.size.value() || min_size.at_most(
            d.size,
        ) && 2 * o.size.value() <= d.size.value(),
    ensures
        ({
            let r = single(o, d, oid, coin, tick, min_size);
            &&& r.kept.len() == 0 && r.cancels.len() == 0 && r.adds.len() == 0
            &&& r.modifies.len() == 1
            &&& r.modifies[0].oid == oid
            &&& r.modifies[0].new_price == d.price
            &&& r.modifies[0].new_size == d.size
        }),
{
    lemma_single(o, d, oid, coin, tick, min_size);
    if close_enough(o, d, distance(o, d.price, tick), min_size) {
        lemma_close(o, d, tick, min_size);
        assert(mag(0) == 0);
        let a = apart(o.size, d.size);
        let m = largest(o.size, d.size, min_size);
        assert(2 * a >= m && m > 0);
        assert(!(20 * ((P53 - 4) * a) <= P53 * m)) by (nonlinear_arith)
            requires
                2 * a >= m,
                m > 0,
                P53 == 0x20_0000_0000_0000,
        ;
    }
}

/// An order that rests just as it is wanted is left alone.
pub proof fn wanted_orders_are_left_alone(
    o: TrackedOrder,
    d: Desired,
    oid: u64,
    coin: Seq<char>,
    tick: Double,
    min_size: Double,
)
    requires
        positive(tick),
        positive(min_size),
        d.is_buy == o.is_buy,
        d.price.is_finite(),
        d.size.is_finite(),
        o.price == d.price,
        o.size == d.size,
    ensures
        ({
            let r = single(o, d, oid, coin, tick, min_size);
            &&& r.kept.len() == 1 && r.kept[0].oid == oid
            &&& r.modifies.len() == 0 && r.cancels.len() == 0 && r.adds.len() == 0
        }),
{
    lemma_single(o, d, oid, coin, tick, min_size);
    lemma_value(tick);
    lemma_value(min_size);
    assert(mag(0) == 0);
    assert((P53 + 2) * 0 == 0 && (P53 + 4) * 0 == 0);
    assert(apart(o.price, d.price) == 0 && apart(o.size, d.size) == 0);
    assert(P53 * tick.value() >= 0) by (nonlinear_arith)
        requires
            tick.value() >= 0,
    ;
    let m = largest(o.size, d.size, min_size);
    assert(P53 * m >= 0) by (nonlinear_arith)
        requires
            m >= 0,
    ;
    lemma_agreeing(o, d, tick, min_size);
}

/// No order is left alone for a wanted order of the other side: it is cancelled, and the wanted
/// one is placed.
pub proof fn sides_do_not_mix(
    o: TrackedOrder,
    d: Desired,
    oid: u64,
    coin: Seq<char>,
    tick: Double,
    min_size: Double,
)
    requires
        d.is_buy != o.is_buy,
    ensures
        ({
            let r = single(o, d, oid, coin, tick, min_size);
            &&& r.kept.len() == 0 && r.modifies.len() == 0
            &&& r.cancels == seq![(coin, oid)]
            &&& r.adds.len() == 1 && r.adds[0].is_buy == d.is_buy && r.adds[0].limit_px == d.price
                && r.adds[0].sz == d.size && r.adds[0].coin == coin
        }),
{
    let existing = seq![oid];
    let desired = seq![d];
    let details = map![oid => o];
    reveal_with_fuel(matching, 3);
    reveal_with_fuel(closest, 3);
    reveal_with_fuel(additions, 3);
    let m0 = matching(existing, 0, desired, details, tick, min_size);
    assert(!m0.matched[0]);
    let m = matching(existing, 1, desired, details, tick, min_size);
    assert(m == after_order(m0, desired, details, oid, tick, min_size));
    assert(m.cancels == seq![oid]);
}

// ---- which of the wanted ----------------------------------------------------------------------------

/// No wanted order of the side that is free has a smaller distance than the closest.
proof fn lemma_least(desired: Seq<Desired>, matched: Seq<bool>, o: TrackedOrder, tick: Double, n: int, j: int)
    requires
        0 <= j < n <= desired.len(),
        matched.len() == desired.len(),
        !matched[j],
        desired[j].is_buy == o.is_buy,
        forall|k: int|
            0 <= k < desired.len() ==> !distance(o, (#[trigger] desired[k]).price, tick).is_nan(),
    ensures
        closest(desired, matched, o, tick, n) matches Some((i, dist)) && dist.at_most(
            distance(o, desired[j].price, tick),
        ),
    decreases n,
{
    lemma_closest(desired, matched, o, tick, n - 1);
    assert(!distance(o, desired[n - 1].price, tick).is_nan());
    if j < n - 1 {
        lemma_least(desired, matched, o, tick, n - 1, j);
    } else if let Some((i, dist)) = closest(desired, matched, o, tick, n - 1) {
        assert(!distance(o, desired[i].price, tick).is_nan());
    }
}

/// Distances in ticks that are ordered belong to prices whose distances are, but for rounding.
proof fn lemma_nearer(a: Double, p: Double, q: Double, tick: Double)
    requires
        positive(tick),
        positive(a) && positive(p) && positive(q),
        apart(a, p) <= MAX_TICKS * tick.value(),
        apart(a, q) <= MAX_TICKS * tick.value(),
        a.minus(p).magnitude().over(tick).at_most(a.minus(q).magnitude().over(tick)),
    ensures
        P53 * apart(a, p) <= (P53 + 8) * apart(a, q) + tick.value(),
{
    let u = one_unit();
    let t = tick.value();
    let g = P53 as int;
    lemma_room();
    lemma_value(tick);
    assert(mag(0) == 0);
    lemma_difference(a, p);
    lemma_difference(a, q);
    let x = a.minus(p);
    let y = a.minus(q);
    lemma_value(x);
    lemma_value(y);
    lemma_reached(a, p, tick);
    lemma_reached(a, q, tick);
    let xv = mag(x.index());
    let yv = mag(y.index());
    let ap = apart(a, p);
    let aq = apart(a, q);
    lemma_rounded(false, xv * u, t as nat);
    lemma_rounded(false, yv * u, t as nat);
    let i = nearest(xv * u, t as nat);
    let j = nearest(yv * u, t as nat);
    lemma_mag_order(i, j);
    lemma_mag_order(j, i);
    assert(i <= j);
    // if the first is not tiny, neither is the second
    if i >= P52 {
        crate::order::lemma_normal_error(xv * u, t as nat);
        crate::order::lemma_normal_error(yv * u, t as nat);
        let mi = mag(i) * t;
        let mj = mag(j) * t;
        assert(mi <= mj) by (nonlinear_arith)
            requires
                mag(i) <= mag(j),
                t > 0,
                mi == mag(i) * t,
                mj == mag(j) * t,
        ;
        assert(g * (xv * u) <= (g + 1) * mi && (g - 1) * mj <= g * (yv * u));
        assert((g - 1) * (g * xv) <= (g + 1) * (g * yv)) by (nonlinear_arith)
            requires
                g * (xv * u) <= (g + 1) * mi,
                (g - 1) * mj <= g * (yv * u),
                mi <= mj,
                u > 0,
                g > 1,
        {
            assert((g - 1) * (g * (xv * u)) <= (g - 1) * ((g + 1) * mi));
            assert((g - 1) * ((g + 1) * mi) <= (g + 1) * ((g - 1) * mj));
            assert((g + 1) * ((g - 1) * mj) <= (g + 1) * (g * (yv * u)));
            assert((g - 1) * (g * (xv * u)) == ((g - 1) * (g * xv)) * u);
            assert((g + 1) * (g * (yv * u)) == ((g + 1) * (g * yv)) * u);
        }
        assert((g - 1) * xv <= (g + 1) * yv) by (nonlinear_arith)
            requires
                (g - 1) * (g * xv) <= (g + 1) * (g * yv),
                g > 0,
        ;
        assert(g * ap <= (g + 8) * aq) by (nonlinear_arith)
            requires
                (g - 1) * xv <= (g + 1) * yv,
                g * ap <= (g + 1) * xv,
                (g - 1) * yv <= g * aq,
                xv >= 0,
                yv >= 0,
                aq >= 0,
                ap >= 0,
                g == 0x20_0000_0000_0000,
        {
            assert((g - 1) * (g * ap) <= (g - 1) * ((g + 1) * xv));
            assert((g - 1) * ((g + 1) * xv) <= (g + 1) * ((g + 1) * yv));
            assert((g - 1) * ((g + 1) * ((g + 1) * yv)) <= ((g + 1) * (g + 1)) * (g * aq));
            assert((g - 1) * ((g - 1) * (g * ap)) <= ((g + 1) * (g + 1)) * (g * aq));
            assert((g - 1) * ((g - 1) * ap) <= ((g + 1) * (g + 1)) * aq);
        }
    } else {
        crate::bounds::lemma_below_normal(xv * u, t as nat);
        assert(g * ap <= t) by (nonlinear_arith)
            requires
                xv * u < P52 * t,
                g * ap <= (g + 1) * xv,
                u >= 0x1_0000_0000_0000_0000_0000_0000_0000_0000nat,
                g == 0x20_0000_0000_0000,
                P52 == 0x10_0000_0000_0000,
                xv >= 0,
                t > 0,
        {
            assert(xv * 0x1_0000_0000_0000_0000_0000_0000_0000_0000nat <= xv * u);
            assert(xv * 0x1_0000_0000_0000_0000 <= t);
        }
        assert((g + 8) * aq >= 0) by (nonlinear_arith)
            requires
                aq >= 0,
                g > 0,
        ;
    }
}

/// A distance within the ticks that are told apart is finite, in units and in ticks.
proof fn lemma_reached(a: Double, p: Double, tick: Double)
    requires
        positive(tick),
        positive(a) && positive(p),
        apart(a, p) <= MAX_TICKS * tick.value(),
    ensures
        a.minus(p).is_finite(),
        nearest(mag(a.minus(p).index()) * one_unit(), mag(tick.index())) < INF,
        a.minus(p).magnitude().over(tick).is_finite(),
{
    let u = one_unit();
    lemma_room();
    lemma_value(tick);
    assert(mag(0) == 0);
    lemma_difference(a, p);
    let x = a.minus(p);
    lemma_value(a);
    lemma_value(p);
    if apart(a, p) <= a.value() {
        lemma_finite(apart(a, p), a);
    } else {
        lemma_finite(apart(a, p), p);
    }
    lemma_value(x);
    let t = mag(tick.index());
    {
        let xv = mag(x.index());
        let ap = apart(a, p);
        assert(xv * u <= vstd::arithmetic::power2::pow2(2000) * t) by (nonlinear_arith)
            requires
                (P53 - 1) * xv <= P53 * ap,
                ap <= MAX_TICKS * t,
                P53 == 0x20_0000_0000_0000,
                MAX_TICKS == 0x2_0000_0000_0000,
                u >= 1,
                t > 0,
                vstd::arithmetic::power2::pow2(2000)
                    >= 0x1_0000_0000_0000_0000_0000_0000_0000_0000nat * u,
        {
            assert(xv <= 2 * ap);
            assert(xv <= 0x4_0000_0000_0000 * t);
            assert(xv * u <= (0x4_0000_0000_0000 * t) * u);
            assert((0x4_0000_0000_0000 * u) * t
                <= vstd::arithmetic::power2::pow2(2000) * t);
        }
        crate::order::lemma_no_overflow(xv * u, t);
        lemma_rounded(false, xv * u, t);
    }
}

/// Of the wanted orders of its side, an order gets the one whose price is nearest to its own,
/// but for rounding.
pub proof fn orders_get_the_nearest(
    o: TrackedOrder,
    desired: Seq<Desired>,
    oid: u64,
    coin: Seq<char>,
    tick: Double,
    min_size: Double,
    j: int,
)
    requires
        positive(tick),
        positive(o.price),
        forall|k: int|
            0 <= k < desired.len() ==> positive((#[trigger] desired[k]).price) && apart(
                o.price,
                desired[k].price,
            ) <= MAX_TICKS * tick.value(),
        0 <= j < desired.len(),
        desired[j].is_buy == o.is_buy,
    ensures
        ({
            let r = diff_of(seq![oid], desired, map![oid => o], coin, tick, min_size);
            &&& r.cancels.len() == 0
            &&& r.kept.len() + r.modifies.len() == 1
            &&& r.adds.len() == desired.len() - 1
            &&& r.kept.len() == 1 ==> P53 * apart(o.price, r.kept[0].price) <= (P53 + 8) * apart(
                o.price,
                desired[j].price,
            ) + tick.value()
            &&& r.modifies.len() == 1 ==> P53 * apart(o.price, r.modifies[0].new_price) <= (P53 + 8)
                * apart(o.price, desired[j].price) + tick.value()
        }),
{
    let existing = seq![oid];
    let details = map![oid => o];
    let n = desired.len() as int;
    reveal_with_fuel(matching, 3);
    let m0 = matching(existing, 0, desired, details, tick, min_size);
    let m = matching(existing, 1, desired, details, tick, min_size);
    assert(m == after_order(m0, desired, details, oid, tick, min_size));
    assert forall|k: int| 0 <= k < desired.len() implies !distance(
        o,
        (#[trigger] desired[k]).price,
        tick,
    ).is_nan() by {
        lemma_reached(o.price, desired[k].price, tick);
    }
    lemma_closest(desired, m0.matched, o, tick, n);
    lemma_least(desired, m0.matched, o, tick, n, j);
    if let Some((i, dist)) = closest(desired, m0.matched, o, tick, n) {
        lemma_nearer(o.price, desired[i].price, desired[j].price, tick);
    }
    crate::round_laws::each_wanted_order_gets_one(existing, desired, details, coin, tick, min_size);
}

// ---- what is added, and what is noted ------------------------------------------------------------------

/// A new order has the price, size and side of a wanted one, and adds liquidity only.
pub open spec fn placed_for(r: RequestView, d: Desired, coin: Seq<char>) -> bool {
    &&& r.coin == coin
    &&& r.is_buy == d.is_buy
    &&& r.limit_px == d.price
    &&& r.sz == d.size
    &&& !r.reduce_only
    &&& r.tif == "Alo"@
}

proof fn lemma_additions(coin: Seq<char>, desired: Seq<Desired>, matched: Seq<bool>, n: int)
    requires
        0 <= n <= desired.len(),
    ensures
        forall|i: int|
            0 <= i < additions(coin, desired, matched, n).len() ==> exists|j: int|
                0 <= j < n && !matched[j] && placed_for(
                    #[trigger] additions(coin, desired, matched, n)[i],
                    #[trigger] desired[j],
                    coin,
                ),
        (forall|j: int| 0 <= j < n ==> !matched[j]) ==> additions(coin, desired, matched, n).len()
            == n && forall|i: int|
            0 <= i < n ==> placed_for(
                #[trigger] additions(coin, desired, matched, n)[i],
                desired[i],
                coin,
            ),
    decreases n,
{
    if n > 0 {
        lemma_additions(coin, desired, matched, n - 1);
        let b = additions(coin, desired, matched, n - 1);
        let r = additions(coin, desired, matched, n);
        assert forall|i: int| 0 <= i < r.len() implies exists|j: int|
            0 <= j < n && !matched[j] && placed_for(
                #[trigger] r[i],
                #[trigger] desired[j],
                coin,
            ) by {
            if i < b.len() {
                assert(r[i] == b[i]);
                let j = choose|j: int|
                    0 <= j < n - 1 && !matched[j] && placed_for(b[i], #[trigger] desired[j], coin);
                assert(placed_for(r[i], desired[j], coin));
            } else {
                assert(placed_for(r[i], desired[n - 1], coin));
            }
        }
    }
}

/// Every order that is added is one that is wanted, as it is wanted; and where nothing rests,
/// all that is wanted is added, in its order.
pub proof fn additions_are_wanted(
    existing: Seq<u64>,
    desired: Seq<Desired>,
    details: Map<u64, TrackedOrder>,
    coin: Seq<char>,
    tick: Double,
    min_size: Double,
)
    ensures
        ({
            let r = diff_of(existing, desired, details, coin, tick, min_size);
            &&& forall|i: int|
                0 <= i < r.adds.len() ==> exists|j: int|
                    0 <= j < desired.len() && placed_for(
                        #[trigger] r.adds[i],
                        #[trigger] desired[j],
                        coin,
                    )
            &&& existing.len() == 0 ==> r.adds.len() == desired.len() && forall|i: int|
                0 <= i < desired.len() ==> placed_for(#[trigger] r.adds[i], desired[i], coin)
        }),
{
    let m = matching(existing, existing.len() as int, desired, details, tick, min_size);
    let r = diff_of(existing, desired, details, coin, tick, min_size);
    lemma_additions(coin, desired, m.matched, desired.len() as int);
    assert forall|i: int| 0 <= i < r.adds.len() implies exists|j: int|
        0 <= j < desired.len() && placed_for(
            #[trigger] r.adds[i],
            #[trigger] desired[j],
            coin,
        ) by {
        let j = choose|j: int|
            0 <= j < desired.len() && !m.matched[j] && placed_for(
                additions(coin, desired, m.matched, desired.len() as int)[i],
                #[trigger] desired[j],
                coin,
            );
        assert(placed_for(r.adds[i], desired[j], coin));
    }
}

/// What is wanted are the bids as purchases and the asks as sales, at their prices and sizes,
/// of the sides that are managed.
pub proof fn quotes_become_wanted_orders(q: Quote, manage_bids: bool, manage_asks: bool)
    ensures
        ({
            let d = desired_of(q, manage_bids, manage_asks);
            let n = if manage_bids { q.bids.len() } else { 0 };
            let k = if manage_asks { q.asks.len() } else { 0 };
            &&& d.len() == n + k
            &&& forall|i: int|
                0 <= i < n ==> (#[trigger] d[i]).is_buy && d[i].price == q.bids[i].price
                    && d[i].size == q.bids[i].size
            &&& forall|i: int|
                n <= i < n + k ==> !(#[trigger] d[i]).is_buy && d[i].price == q.asks[i - n].price
                    && d[i].size == q.asks[i - n].size
        }),
{
}

/// The orders that are looked at are those of the sides that are managed.
pub proof fn managed_orders_are_looked_at(s: MmModel, manage_bids: bool, manage_asks: bool, oid: u64)
    ensures
        existing_of(s, manage_bids, manage_asks).contains(oid) <==> (manage_bids
            && s.buy_oids.contains(oid)) || (manage_asks && s.sell_oids.contains(oid)),
{
    let e = existing_of(s, manage_bids, manage_asks);
    let b = if manage_bids { s.buy_oids } else { Seq::empty() };
    let a = if manage_asks { s.sell_oids } else { Seq::empty() };
    assert(e == b + a);
    if b.contains(oid) {
        let i = b.index_of(oid);
        assert(e[i] == oid);
    }
    if a.contains(oid) {
        let i = a.index_of(oid);
        assert(e[b.len() + i] == oid);
    }
}

proof fn lemma_kept_updated(m: Map<u64, TrackedOrder>, kept: Seq<Kept>, n: int, oid: u64)
    requires
        0 <= n <= kept.len(),
        kept_oids(kept).no_duplicates(),
        m.contains_key(oid),
    ensures
        ({
            let r = kept_updated(m, kept, n);
            &&& r.contains_key(oid)
            &&& r[oid].price == m[oid].price
            &&& r[oid].is_buy == m[oid].is_buy
            &&& r[oid].ts == m[oid].ts
            &&& (forall|i: int| 0 <= i < n ==> (#[trigger] kept[i]).oid != oid) ==> r[oid]
                == m[oid]
            &&& forall|i: int|
                0 <= i < n && (#[trigger] kept[i]).oid == oid ==> r[oid].target_price
                    == kept[i].price && r[oid].size == kept[i].size && r[oid].drift_ticks
                    == kept[i].drift_ticks
        }),
    decreases n,
{
    if n > 0 {
        lemma_kept_updated(m, kept, n - 1, oid);
        let k = kept[n - 1];
        if k.oid == oid {
            assert forall|i: int| 0 <= i < n && (#[trigger] kept[i]).oid == oid implies i == n
                - 1 by {
                assert(kept_oids(kept)[i] == kept_oids(kept)[n - 1]);
            }
        }
    }
}

/// An order that is kept still rests at its price and since its time, and is told what is wanted
/// of it; another one is left as it was.
pub proof fn kept_orders_stay_where_they_are(s: MmModel, kept: Seq<Kept>, oid: u64)
    requires
        kept_oids(kept).no_duplicates(),
        s.order_details.contains_key(oid),
    ensures
        ({
            let o = s.order_details[oid];
            let r = s.with_kept(kept).order_details;
            &&& r.contains_key(oid)
            &&& r[oid].price == o.price && r[oid].is_buy == o.is_buy && r[oid].ts == o.ts
            &&& !kept_oids(kept).contains(oid) ==> r[oid] == o
            &&& forall|i: int|
                0 <= i < kept.len() && (#[trigger] kept[i]).oid == oid ==> r[oid].target_price
                    == kept[i].price && r[oid].size == kept[i].size
        }),
{
    lemma_kept_updated(s.order_details, kept, kept.len() as int, oid);
    if !kept_oids(kept).contains(oid) {
        assert forall|i: int| 0 <= i < kept.len() implies (#[trigger] kept[i]).oid != oid by {
            assert(kept_oids(kept)[i] == kept[i].oid);
        }
    }
}

proof fn lemma_modified(m: Map<u64, TrackedOrder>, q: Seq<ModifyRequest>, n: int, oid: u64)
    requires
        0 <= n <= q.len(),
        modify_oids(q).no_duplicates(),
        m.contains_key(oid),
    ensures
        ({
            let r = modified(m, q, n);
            &&& r.contains_key(oid)
            &&& r[oid].is_buy == m[oid].is_buy
            &&& r[oid].ts == m[oid].ts
            &&& (forall|i: int| 0 <= i < n ==> (#[trigger] q[i]).oid != oid) ==> r[oid] == m[oid]
            &&& forall|i: int|
                0 <= i < n && (#[trigger] q[i]).oid == oid ==> r[oid].price == q[i].new_price
                    && r[oid].size == q[i].new_size && r[oid].target_price == q[i].new_price
                    && r[oid].drift_ticks == 0
        }),
    decreases n,
{
    if n > 0 {
        lemma_modified(m, q, n - 1, oid);
        if q[n - 1].oid == oid {
            assert forall|i: int| 0 <= i < n && (#[trigger] q[i]).oid == oid implies i == n - 1 by {
                assert(modify_oids(q)[i] == modify_oids(q)[n - 1]);
            }
        }
    }
}

/// An order that was modified rests at its new price and size; another one is left as it was.
pub proof fn modified_orders_rest_as_asked(s: MmModel, q: Seq<ModifyRequest>, oid: u64)
    requires
        modify_oids(q).no_duplicates(),
        s.order_details.contains_key(oid),
    ensures
        ({
            let o = s.order_details[oid];
            let r = s.with_modified(q).order_details;
            &&& r.contains_key(oid)
            &&& r[oid].is_buy == o.is_buy && r[oid].ts == o.ts
            &&& !modify_oids(q).contains(oid) ==> r[oid] == o
            &&& forall|i: int|
                0 <= i < q.len() && (#[trigger] q[i]).oid == oid ==> r[oid].price
                    == q[i].new_price && r[oid].size == q[i].new_size && r[oid].target_price
                    == q[i].new_price && r[oid].drift_ticks == 0
        }),
{
    lemma_modified(s.order_details, q, q.len() as int, oid);
    if !modify_oids(q).contains(oid) {
        assert forall|i: int| 0 <= i < q.len() implies (#[trigger] q[i]).oid != oid by {
            assert(modify_oids(q)[i] == q[i].oid);
        }
    }
}

} // verus!
