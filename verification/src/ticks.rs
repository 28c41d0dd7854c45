//! Prices on ticks that are powers of ten: every multiple of the tick comes out of the rounding
//! as the double that the decimal writes, and different multiples stay apart.
use vstd::arithmetic::div_mod::lemma_fundamental_div_mod_converse;
use vstd::arithmetic::power2::{lemma2_to64, lemma_pow2_adds, lemma_pow2_pos, pow2};
use vstd::prelude::*;

use crate::decimal::{lemma_ten_pos, ten};
use crate::double::{
    lemma_mag_order, mag, nearest, of_int, one_unit, quotient, rounded, zero, Double, INF, P52, P53,
    UNIT,
};
use crate::order::{lemma_relative, lemma_rounded};
use crate::parse::tens;
use crate::strategy::rounded_to;

verus! {

/// The largest number of ticks that a price is taken to have.
pub const MAX_TICKS: u64 = 0x2_0000_0000_0000;

/// The tick with the given number of decimals.
pub open spec fn decimal_tick(places: u32) -> Double {
    quotient(1, ten(places as nat))
}

pub(crate) proof fn lemma_ten_bound(k: nat)
    requires
        k <= 22,
    ensures
        1 <= ten(k) <= 10_000_000_000_000_000_000_000,
{
    lemma_ten_pos(k);
    assert(ten(22) == 10_000_000_000_000_000_000_000) by {
        reveal_with_fuel(ten, 23);
    }
    lemma_ten_up(k, 22);
}

proof fn lemma_ten_up(j: nat, k: nat)
    requires
        j <= k,
    ensures
        ten(j) <= ten(k),
    decreases k - j,
{
    if j < k {
        lemma_ten_up(j, (k - 1) as nat);
    }
}

/// The unit is large, and what is far larger still does not overflow.
pub(crate) proof fn lemma_room()
    ensures
        one_unit() >= 0x1_0000_0000_0000_0000_0000_0000_0000_0000nat,
        pow2(2000) >= 0x1_0000_0000_0000_0000_0000_0000_0000_0000nat * one_unit(),
{
    lemma2_to64();
    lemma_pow2_adds(64, 64);
    lemma_pow2_adds(128, 946);
    lemma_pow2_pos(946);
    lemma_pow2_adds(1074, 926);
    lemma_pow2_adds(128, 798);
    lemma_pow2_pos(798);
    assert(pow2(128) == 0x1_0000_0000_0000_0000_0000_0000_0000_0000nat);
    assert(pow2(1074) >= pow2(128)) by (nonlinear_arith)
        requires
            pow2(1074) == pow2(128) * pow2(946),
            pow2(946) >= 1,
    ;
    assert(pow2(926) >= pow2(128)) by (nonlinear_arith)
        requires
            pow2(926) == pow2(128) * pow2(798),
            pow2(798) >= 1,
    ;
    assert(pow2(2000) >= pow2(128) * pow2(1074)) by (nonlinear_arith)
        requires
            pow2(2000) == pow2(1074) * pow2(926),
            pow2(926) >= pow2(128),
    ;
}

/// The steps by which a multiple of a tick becomes a price: the integer, the tick, their
/// product, the power of ten, and the product with that, each rounded.
spec fn integer_step(a: nat) -> nat {
    mag(nearest(a * one_unit(), 1))
}

spec fn tick_step(t: nat) -> nat {
    mag(nearest(one_unit(), t))
}

spec fn price_step(a: nat, t: nat) -> nat {
    mag(nearest(integer_step(a) * tick_step(t), one_unit()))
}

spec fn power_step(t: nat) -> nat {
    mag(nearest(t * one_unit(), 1))
}

spec fn scaled_step(a: nat, t: nat) -> nat {
    mag(nearest(price_step(a, t) * power_step(t), one_unit()))
}

/// The errors of the first steps.
proof fn lemma_inputs(a: nat, t: nat)
    requires
        1 <= a <= MAX_TICKS,
        1 <= t <= 10_000_000_000_000_000_000_000,
    ensures
        (P53 - 1) * integer_step(a) <= P53 * (a * one_unit()) <= (P53 + 1) * integer_step(a),
        (P53 - 1) * (tick_step(t) * t) <= P53 * one_unit() <= (P53 + 1) * (tick_step(t) * t),
        (P53 - 1) * power_step(t) <= P53 * (t * one_unit()) <= (P53 + 1) * power_step(t),
        nearest(a * one_unit(), 1) < INF,
        nearest(one_unit(), t) < INF,
        nearest(t * one_unit(), 1) < INF,
{
    let u = one_unit();
    lemma_room();
    assert(P52 * 1 <= a * u <= pow2(2000) * 1) by (nonlinear_arith)
        requires
            1 <= a <= 0x2_0000_0000_0000,
            u >= 0x1_0000_0000_0000_0000_0000_0000_0000_0000nat,
            pow2(2000) >= 0x1_0000_0000_0000_0000_0000_0000_0000_0000nat * u,
            P52 == 0x10_0000_0000_0000,
    ;
    lemma_relative(a * u, 1);
    assert(P52 * t <= u <= pow2(2000) * t) by (nonlinear_arith)
        requires
            1 <= t <= 10_000_000_000_000_000_000_000,
            u >= 0x1_0000_0000_0000_0000_0000_0000_0000_0000nat,
            pow2(2000) >= 0x1_0000_0000_0000_0000_0000_0000_0000_0000nat * u,
            P52 == 0x10_0000_0000_0000,
    ;
    lemma_relative(u, t);
    assert(P52 * 1 <= t * u <= pow2(2000) * 1) by (nonlinear_arith)
        requires
            1 <= t <= 10_000_000_000_000_000_000_000,
            u >= 0x1_0000_0000_0000_0000_0000_0000_0000_0000nat,
            pow2(2000) >= 0x1_0000_0000_0000_0000_0000_0000_0000_0000nat * u,
            P52 == 0x10_0000_0000_0000,
    ;
    lemma_relative(t * u, 1);
}

/// The errors of the two products.
proof fn lemma_products(a: nat, t: nat)
    requires
        1 <= a <= MAX_TICKS,
        1 <= t <= 10_000_000_000_000_000_000_000,
    ensures
        ({
            let u = one_unit();
            let x = integer_step(a) * tick_step(t);
            let y = price_step(a, t) * power_step(t);
            &&& (P53 - 1) * (price_step(a, t) * u) <= P53 * x <= (P53 + 1) * (price_step(a, t) * u)
            &&& (P53 - 1) * (scaled_step(a, t) * u) <= P53 * y <= (P53 + 1) * (scaled_step(a, t)
                * u)
            &&& nearest(x, u) < INF
            &&& nearest(y, u) < INF
        }),
{
    let u = one_unit();
    let i = integer_step(a);
    let k = tick_step(t);
    let p = power_step(t);
    let m = price_step(a, t);
    lemma_room();
    lemma_inputs(a, t);
    assert(2 * i >= a * u && i <= 2 * (a * u));
    assert(2 * (k * t) >= u && k * t <= 2 * u);
    assert(2 * p >= t * u && p <= 2 * (t * u));
    assert(2 * i >= u) by (nonlinear_arith)
        requires
            2 * i >= a * u,
            a >= 1,
            u >= 0,
    ;
    // the product of the integer and the tick, from below and from above
    assert(4 * ((i * k) * t) >= u * u) by (nonlinear_arith)
        requires
            2 * i >= u,
            2 * (k * t) >= u,
            u >= 0,
    ;
    assert(i * k >= P52 * u) by (nonlinear_arith)
        requires
            4 * ((i * k) * t) >= u * u,
            1 <= t <= 10_000_000_000_000_000_000_000,
            u >= 0x1_0000_0000_0000_0000_0000_0000_0000_0000nat,
            P52 == 0x10_0000_0000_0000,
    ;
    assert((i * k) * t <= 4 * (a * (u * u))) by (nonlinear_arith)
        requires
            i <= 2 * (a * u),
            k * t <= 2 * u,
            i >= 0,
            u >= 0,
    ;
    assert(a * (u * u) <= 0x2_0000_0000_0000 * (u * u)) by (nonlinear_arith)
        requires
            a <= 0x2_0000_0000_0000,
            u >= 0,
    ;
    assert(i * k <= (i * k) * t) by (nonlinear_arith)
        requires
            t >= 1,
            i * k >= 0,
    ;
    let big = 0x1_0000_0000_0000_0000_0000_0000_0000_0000nat;
    assert(big * (u * u) <= pow2(2000) * u) by (nonlinear_arith)
        requires
            pow2(2000) >= big * u,
            u >= 0,
    ;
    lemma_relative(i * k, u);
    assert(2 * (m * u) >= i * k && m * u <= 2 * (i * k));
    // the product with the power of ten
    assert(16 * (m * p) >= u * u) by (nonlinear_arith)
        requires
            2 * (m * u) >= i * k,
            2 * p >= t * u,
            4 * ((i * k) * t) >= u * u,
            u > 0,
            t >= 1,
    {
        assert(4 * ((m * u) * p) >= (i * k) * (t * u));
        assert((i * k) * (t * u) == ((i * k) * t) * u);
        assert(16 * ((m * p) * u) >= (u * u) * u);
    }
    assert(m * p >= P52 * u) by (nonlinear_arith)
        requires
            16 * (m * p) >= u * u,
            u >= 0x1_0000_0000_0000_0000_0000_0000_0000_0000nat,
            P52 == 0x10_0000_0000_0000,
    ;
    assert(m * p <= 16 * (a * (u * u))) by (nonlinear_arith)
        requires
            m * u <= 2 * (i * k),
            p <= 2 * (t * u),
            (i * k) * t <= 4 * (a * (u * u)),
            u > 0,
            t >= 1,
    {
        assert((m * u) * p <= (2 * (i * k)) * (2 * (t * u)));
        assert((2 * (i * k)) * (2 * (t * u)) == 4 * (((i * k) * t) * u));
        assert((m * p) * u <= (16 * (a * (u * u))) * u);
    }
    lemma_relative(m * p, u);
}

/// After all steps a multiple of the tick is less than half a unit away from its integer.
proof fn lemma_close(a: nat, t: nat)
    requires
        1 <= a <= MAX_TICKS,
        1 <= t <= 10_000_000_000_000_000_000_000,
    ensures
        2 * scaled_step(a, t) < (2 * a + 1) * one_unit(),
        2 * scaled_step(a, t) > (2 * a - 1) * one_unit(),
{
    let u = one_unit() as int;
    let i = integer_step(a) as int;
    let k = tick_step(t) as int;
    let p = power_step(t) as int;
    let m = price_step(a, t) as int;
    let z = scaled_step(a, t) as int;
    lemma_pow2_pos(UNIT as nat);
    lemma_inputs(a, t);
    lemma_products(a, t);
    let d = P53 as int;
    lemma_from_above(a as int, t as int, u, i, k, p, m, z, d, d - 1);
    lemma_from_below(a as int, t as int, u, i, k, p, m, z, d, d + 1);
}

/// Five errors from above, multiplied.
proof fn lemma_from_above(
    a: int,
    t: int,
    u: int,
    i: int,
    k: int,
    p: int,
    m: int,
    z: int,
    d: int,
    e: int,
)
    requires
        a >= 1,
        a <= MAX_TICKS,
        t >= 1,
        u >= 1,
        i >= 0,
        k >= 0,
        p >= 0,
        m >= 0,
        z >= 0,
        d == P53,
        e == P53 - 1,
        e * i <= d * (a * u),
        e * (k * t) <= d * u,
        e * p <= d * (t * u),
        e * (m * u) <= d * (i * k),
        e * (z * u) <= d * (m * p),
    ensures
        2 * z < (2 * a + 1) * u,
{
    assert(e * (e * (z * u) * u) <= d * d * (i * k) * p) by (nonlinear_arith)
        requires
            e * (z * u) <= d * (m * p),
            e * (m * u) <= d * (i * k),
            u >= 1,
            e >= 0,
            p >= 0,
            d >= 0,
    {
        assert((e * (z * u)) * (e * u) <= (d * (m * p)) * (e * u));
        assert((d * (m * p)) * (e * u) == (d * p) * (e * (m * u)));
        assert((d * p) * (e * (m * u)) <= (d * p) * (d * (i * k)));
        assert((d * p) * (d * (i * k)) == d * d * (i * k) * p);
        assert((e * (z * u)) * (e * u) == e * (e * (z * u) * u));
    }
    let x3 = e * e * e * z;
    assert(x3 * (u * u) <= d * d * d * (a * u) * (k * p)) by (nonlinear_arith)
        requires
            e * (e * (z * u) * u) <= d * d * (i * k) * p,
            e * i <= d * (a * u),
            x3 == e * e * e * z,
            e >= 0,
            k >= 0,
            p >= 0,
            d >= 0,
    {
        assert(e * (e * (e * (z * u) * u)) <= e * (d * d * (i * k) * p));
        assert(e * (e * (e * (z * u) * u)) == x3 * (u * u));
        assert(e * (d * d * (i * k) * p) == (d * d * (k * p)) * (e * i));
        assert((d * d * (k * p)) * (e * i) <= (d * d * (k * p)) * (d * (a * u)));
        assert((d * d * (k * p)) * (d * (a * u)) == d * d * d * (a * u) * (k * p));
    }
    let x4 = x3 * e;
    let d4 = d * d * d * d;
    assert(x4 * (u * u) * t <= d4 * (a * u) * u * p) by (nonlinear_arith)
        requires
            x3 * (u * u) <= d * d * d * (a * u) * (k * p),
            e * (k * t) <= d * u,
            x4 == x3 * e,
            d4 == d * d * d * d,
            e >= 0,
            t >= 1,
            a >= 1,
            u >= 1,
            p >= 0,
            d >= 0,
    {
        assert((x3 * (u * u)) * (e * t) <= (d * d * d * (a * u) * (k * p)) * (e * t));
        assert((x3 * (u * u)) * (e * t) == x4 * (u * u) * t);
        assert((d * d * d * (a * u) * (k * p)) * (e * t) == (d * d * d * (a * u) * p) * (e * (k
            * t)));
        assert((d * d * d * (a * u) * p) * (e * (k * t)) <= (d * d * d * (a * u) * p) * (d * u));
        assert((d * d * d * (a * u) * p) * (d * u) == d4 * (a * u) * u * p);
    }
    let x5 = x4 * e;
    let d5 = d4 * d;
    assert(x5 * ((u * u) * t) <= (d5 * (a * u)) * ((u * u) * t)) by (nonlinear_arith)
        requires
            x4 * (u * u) * t <= d4 * (a * u) * u * p,
            e * p <= d * (t * u),
            x5 == x4 * e,
            d5 == d4 * d,
            e >= 0,
            a >= 1,
            u >= 1,
            d4 >= 0,
    {
        assert((x4 * (u * u) * t) * e <= (d4 * (a * u) * u * p) * e);
        assert((x4 * (u * u) * t) * e == x5 * ((u * u) * t));
        assert((d4 * (a * u) * u * p) * e == (d4 * (a * u) * u) * (e * p));
        assert((d4 * (a * u) * u) * (e * p) <= (d4 * (a * u) * u) * (d * (t * u)));
        assert((d4 * (a * u) * u) * (d * (t * u)) == (d5 * (a * u)) * ((u * u) * t));
    }
    assert(x5 <= d5 * (a * u)) by (nonlinear_arith)
        requires
            x5 * ((u * u) * t) <= (d5 * (a * u)) * ((u * u) * t),
            u >= 1,
            t >= 1,
    {
        assert((u * u) * t >= 1);
    }
    lemma_few(a, u, z, x5, d, e);
}

/// Five small errors do not add up to half a unit, from above.
proof fn lemma_few(a: int, u: int, z: int, x5: int, d: int, e: int)
    requires
        1 <= a <= MAX_TICKS,
        u >= 1,
        d == P53,
        e == P53 - 1,
        x5 == e * e * e * z * e * e,
        x5 <= d * d * d * d * d * (a * u),
    ensures
        2 * z < (2 * a + 1) * u,
{
    let e5 = 59285549689505859146777197900334673229677235515577591173502484983630641288445951int;
    let d5 = 59285549689505892056868344324448208820874232148807968788202283012051522375647232int;
    assert(e * e * e * e * e == e5) by (nonlinear_arith)
        requires
            e == 0x1f_ffff_ffff_ffff,
            e5 == 59285549689505859146777197900334673229677235515577591173502484983630641288445951int,
    ;
    assert(d * d * d * d * d == d5) by (nonlinear_arith)
        requires
            d == 0x20_0000_0000_0000,
            d5 == 59285549689505892056868344324448208820874232148807968788202283012051522375647232int,
    ;
    assert(x5 == e5 * z) by (nonlinear_arith)
        requires
            x5 == e * e * e * z * e * e,
            e * e * e * e * e == e5,
    ;
    let w = a * u;
    assert(w <= 0x2_0000_0000_0000 * u) by (nonlinear_arith)
        requires
            w == a * u,
            a <= 0x2_0000_0000_0000,
            u >= 1,
    ;
    assert((2 * a + 1) * u == 2 * w + u) by (nonlinear_arith)
        requires
            w == a * u,
    ;
    assert(d * d * d * d * d * (a * u) == d5 * w);
}

/// Five small errors do not add up to half a unit, from below.
proof fn lemma_few_below(a: int, u: int, z: int, x5: int, d: int, e: int)
    requires
        1 <= a <= MAX_TICKS,
        u >= 1,
        d == P53,
        e == P53 + 1,
        x5 == e * e * e * z * e * e,
        d * d * d * d * d * (a * u) <= x5,
    ensures
        2 * z > (2 * a - 1) * u,
{
    let e5 = 59285549689505924966959490748576359428444537811220383251229243960740955335688193int;
    let d5 = 59285549689505892056868344324448208820874232148807968788202283012051522375647232int;
    assert(e * e * e * e * e == e5) by (nonlinear_arith)
        requires
            e == 0x20_0000_0000_0001,
            e5 == 59285549689505924966959490748576359428444537811220383251229243960740955335688193int,
    ;
    assert(d * d * d * d * d == d5) by (nonlinear_arith)
        requires
            d == 0x20_0000_0000_0000,
            d5 == 59285549689505892056868344324448208820874232148807968788202283012051522375647232int,
    ;
    assert(x5 == e5 * z) by (nonlinear_arith)
        requires
            x5 == e * e * e * z * e * e,
            e * e * e * e * e == e5,
    ;
    let w = a * u;
    assert(w <= 0x2_0000_0000_0000 * u) by (nonlinear_arith)
        requires
            w == a * u,
            a <= 0x2_0000_0000_0000,
            u >= 1,
    ;
    assert((2 * a - 1) * u == 2 * w - u) by (nonlinear_arith)
        requires
            w == a * u,
    ;
    assert(d * d * d * d * d * (a * u) == d5 * w);
}

/// Five errors from below, multiplied.
proof fn lemma_from_below(
    a: int,
    t: int,
    u: int,
    i: int,
    k: int,
    p: int,
    m: int,
    z: int,
    d: int,
    e: int,
)
    requires
        a >= 1,
        a <= MAX_TICKS,
        t >= 1,
        u >= 1,
        i >= 0,
        k >= 0,
        p >= 0,
        m >= 0,
        z >= 0,
        d == P53,
        e == P53 + 1,
        d * (a * u) <= e * i,
        d * u <= e * (k * t),
        d * (t * u) <= e * p,
        d * (i * k) <= e * (m * u),
        d * (m * p) <= e * (z * u),
    ensures
        2 * z > (2 * a - 1) * u,
{
    assert(d * d * (i * k) * p <= e * (e * (z * u) * u)) by (nonlinear_arith)
        requires
            d * (m * p) <= e * (z * u),
            d * (i * k) <= e * (m * u),
            u >= 1,
            e >= 0,
            p >= 0,
            d >= 0,
    {
        assert((d * (m * p)) * (e * u) <= (e * (z * u)) * (e * u));
        assert((d * (m * p)) * (e * u) == (d * p) * (e * (m * u)));
        assert((d * p) * (d * (i * k)) <= (d * p) * (e * (m * u)));
        assert((d * p) * (d * (i * k)) == d * d * (i * k) * p);
        assert((e * (z * u)) * (e * u) == e * (e * (z * u) * u));
    }
    let x3 = e * e * e * z;
    assert(d * d * d * (a * u) * (k * p) <= x3 * (u * u)) by (nonlinear_arith)
        requires
            d * d * (i * k) * p <= e * (e * (z * u) * u),
            d * (a * u) <= e * i,
            x3 == e * e * e * z,
            e >= 0,
            k >= 0,
            p >= 0,
            d >= 0,
    {
        assert(e * (d * d * (i * k) * p) <= e * (e * (e * (z * u) * u)));
        assert(e * (e * (e * (z * u) * u)) == x3 * (u * u));
        assert(e * (d * d * (i * k) * p) == (d * d * (k * p)) * (e * i));
        assert((d * d * (k * p)) * (d * (a * u)) <= (d * d * (k * p)) * (e * i));
        assert((d * d * (k * p)) * (d * (a * u)) == d * d * d * (a * u) * (k * p));
    }
    let x4 = x3 * e;
    let d4 = d * d * d * d;
    assert(d4 * (a * u) * u * p <= x4 * (u * u) * t) by (nonlinear_arith)
        requires
            d * d * d * (a * u) * (k * p) <= x3 * (u * u),
            d * u <= e * (k * t),
            x4 == x3 * e,
            d4 == d * d * d * d,
            e >= 0,
            t >= 1,
            a >= 1,
            u >= 1,
            p >= 0,
            d >= 0,
    {
        assert((d * d * d * (a * u) * (k * p)) * (e * t) <= (x3 * (u * u)) * (e * t));
        assert((x3 * (u * u)) * (e * t) == x4 * (u * u) * t);
        assert((d * d * d * (a * u) * (k * p)) * (e * t) == (d * d * d * (a * u) * p) * (e * (k
            * t)));
        assert((d * d * d * (a * u) * p) * (d * u) <= (d * d * d * (a * u) * p) * (e * (k * t)));
        assert((d * d * d * (a * u) * p) * (d * u) == d4 * (a * u) * u * p);
    }
    let x5 = x4 * e;
    let d5 = d4 * d;
    assert((d5 * (a * u)) * ((u * u) * t) <= x5 * ((u * u) * t)) by (nonlinear_arith)
        requires
            d4 * (a * u) * u * p <= x4 * (u * u) * t,
            d * (t * u) <= e * p,
            x5 == x4 * e,
            d5 == d4 * d,
            e >= 0,
            a >= 1,
            u >= 1,
            d4 >= 0,
    {
        assert((d4 * (a * u) * u * p) * e <= (x4 * (u * u) * t) * e);
        assert((x4 * (u * u) * t) * e == x5 * ((u * u) * t));
        assert((d4 * (a * u) * u * p) * e == (d4 * (a * u) * u) * (e * p));
        assert((d4 * (a * u) * u) * (d * (t * u)) <= (d4 * (a * u) * u) * (e * p));
        assert((d4 * (a * u) * u) * (d * (t * u)) == (d5 * (a * u)) * ((u * u) * t));
    }
    assert(d5 * (a * u) <= x5) by (nonlinear_arith)
        requires
            (d5 * (a * u)) * ((u * u) * t) <= x5 * ((u * u) * t),
            u >= 1,
            t >= 1,
    {
        assert((u * u) * t >= 1);
    }
    lemma_few_below(a, u, z, x5, d, e);
}

/// A multiple of a decimal tick, rounded to its decimals, is the integer over the power of ten:
/// the steps in between leave no error.
pub proof fn multiples_are_exact(a: nat, places: u32)
    requires
        1 <= a <= MAX_TICKS,
        places <= 22,
    ensures
        rounded_to(of_int(a as int).times(decimal_tick(places)), places) == of_int(
            a as int,
        ).over(tens(places)),
{
    let u = one_unit();
    let t = ten(places as nat);
    let n = of_int(a as int);
    let tick = decimal_tick(places);
    let p = tens(places);
    lemma_ten_bound(places as nat);
    lemma_pow2_pos(UNIT as nat);
    lemma_inputs(a, t);
    lemma_products(a, t);
    lemma_close(a, t);
    lemma_rounded(false, a * u, 1);
    assert(1 * u == u && 1 * t * u == t * u);
    lemma_rounded(false, u, t);
    lemma_rounded(false, t * u, 1);
    assert(p == rounded(false, t * u, 1));
    let x = n.times(tick);
    lemma_rounded(false, integer_step(a) * tick_step(t), u);
    assert(x == rounded(false, integer_step(a) * tick_step(t), u));
    let y = x.times(p);
    lemma_rounded(false, price_step(a, t) * power_step(t), u);
    assert(y == rounded(false, price_step(a, t) * power_step(t), u));
    let z = scaled_step(a, t);
    assert((2 * z + u) / (2 * u) == a) by {
        let r = 2 * z + u - a * (2 * u);
        assert(0 <= r < 2 * u) by (nonlinear_arith)
            requires
                r == 2 * z + u - a * (2 * u),
                2 * z < (2 * a + 1) * u,
                2 * z > (2 * a - 1) * u,
        ;
        lemma_fundamental_div_mod_converse((2 * z + u) as int, (2 * u) as int, a as int, r);
    }
    assert(y.nearest_whole() == n);
}

/// Different multiples of a decimal tick are different prices.
pub proof fn multiples_stay_apart(a: nat, b: nat, places: u32)
    requires
        1 <= a < b <= MAX_TICKS,
        places <= 22,
    ensures
        of_int(a as int).over(tens(places)).less(of_int(b as int).over(tens(places))),
{
    let u = one_unit();
    let t = ten(places as nat);
    let w = integer_step(a);
    let v = integer_step(b);
    let p = power_step(t);
    lemma_ten_bound(places as nat);
    lemma_pow2_pos(UNIT as nat);
    lemma_room();
    lemma_inputs(a, t);
    lemma_inputs(b, t);
    lemma_rounded(false, a * u, 1);
    lemma_rounded(false, b * u, 1);
    assert(1 * t * u == t * u);
    lemma_rounded(false, t * u, 1);
    let i = nearest(w * u, p);
    let j = nearest(v * u, p);
    assert(2 * p >= t * u && p <= 2 * (t * u));
    assert(p >= 1) by (nonlinear_arith)
        requires
            2 * p >= t * u,
            t >= 1,
            u >= 1,
    ;
    lemma_mag_order(0, nearest(t * u, 1));
    assert(mag(0) == 0);
    assert(2 * w >= a * u && w <= 2 * (a * u));
    assert(2 * v >= b * u && v <= 2 * (b * u));
    lemma_divided(a, t, u, w, p);
    lemma_divided(b, t, u, v, p);
    lemma_relative(w * u, p);
    lemma_relative(v * u, p);
    lemma_rounded(false, w * u, p);
    lemma_rounded(false, v * u, p);
    let mi = mag(i) * p;
    let mj = mag(j) * p;
    lemma_gap(a as int, b as int, u as int, w as int, v as int, mi as int, mj as int);
    assert(mag(i) < mag(j)) by (nonlinear_arith)
        requires
            mag(i) * p < mag(j) * p,
    ;
    lemma_mag_order(i, j);
}

proof fn lemma_divided(a: nat, t: nat, u: nat, w: nat, p: nat)
    requires
        1 <= a <= MAX_TICKS,
        1 <= t <= 10_000_000_000_000_000_000_000,
        u >= 0x1_0000_0000_0000_0000_0000_0000_0000_0000nat,
        u == one_unit(),
        2 * w >= a * u,
        w <= 2 * (a * u),
        2 * p >= t * u,
        p <= 2 * (t * u),
    ensures
        P52 * p <= w * u <= pow2(2000) * p,
{
    lemma_room();
    assert(P52 * p <= w * u) by (nonlinear_arith)
        requires
            p <= 2 * (t * u),
            2 * w >= a * u,
            1 <= a,
            t <= 10_000_000_000_000_000_000_000,
            u >= 0x1_0000_0000_0000_0000_0000_0000_0000_0000nat,
            P52 == 0x10_0000_0000_0000,
    {
        assert(2 * w >= u);
        assert(2 * w * u >= u * u);
        assert(2 * (t * u) * P52 <= 2 * 10_000_000_000_000_000_000_000 * P52 * u);
        assert(u * u >= 0x1_0000_0000_0000_0000_0000_0000_0000_0000nat * u);
    }
    let big = 0x1_0000_0000_0000_0000_0000_0000_0000_0000nat;
    assert(w * u <= pow2(2000) * p) by (nonlinear_arith)
        requires
            w <= 2 * (a * u),
            2 * p >= t * u,
            t >= 1,
            a <= 0x2_0000_0000_0000,
            u >= 1,
            pow2(2000) >= big * u,
            big == 0x1_0000_0000_0000_0000_0000_0000_0000_0000nat,
    {
        assert(2 * p >= u);
        assert(w * u <= 2 * 0x2_0000_0000_0000 * (u * u));
        assert(pow2(2000) * (2 * p) >= (big * u) * u);
    }
}

/// The quotients of different integers keep a distance that no rounding closes.
proof fn lemma_gap(a: int, b: int, u: int, w: int, v: int, mi: int, mj: int)
    requires
        1 <= a < b <= MAX_TICKS,
        u >= 1,
        w >= 1,
        (P53 - 1) * w <= P53 * (a * u),
        P53 * (b * u) <= (P53 + 1) * v,
        (P53 - 1) * mi <= P53 * (w * u),
        P53 * (v * u) <= (P53 + 1) * mj,
    ensures
        mi < mj,
{
    let d = 0x20_0000_0000_0000int;
    if mj <= mi {
        assert((d - 1) * (d * (v * u)) <= (d + 1) * (d * (w * u))) by (nonlinear_arith)
            requires
                (d - 1) * mi <= d * (w * u),
                d * (v * u) <= (d + 1) * mj,
                mj <= mi,
                d == 0x20_0000_0000_0000,
        ;
        assert((d - 1) * v <= (d + 1) * w) by (nonlinear_arith)
            requires
                (d - 1) * (d * (v * u)) <= (d + 1) * (d * (w * u)),
                d == 0x20_0000_0000_0000,
                u >= 1,
        {
            assert(((d - 1) * v) * (d * u) <= ((d + 1) * w) * (d * u));
            assert(d * u >= 1);
        }
        let x = a * u;
        let y = b * u;
        assert(y >= x + u && x <= 0x2_0000_0000_0000 * u) by (nonlinear_arith)
            requires
                x == a * u,
                y == b * u,
                b >= a + 1,
                a <= 0x2_0000_0000_0000,
                u >= 1,
        ;
        assert((d - 1) * w <= d * x);
        assert(d * y <= (d + 1) * v);
    }
}

/// A decimal tick is positive.
pub(crate) proof fn lemma_decimal_tick(places: u32)
    requires
        places <= 22,
    ensures
        zero().less(decimal_tick(places)),
{
    let t = ten(places as nat);
    lemma_ten_bound(places as nat);
    lemma_room();
    lemma_inputs(1, t);
    assert(1 * one_unit() == one_unit());
    lemma_rounded(false, one_unit(), t);
    assert(mag(0) == 0);
    assert(tick_step(t) > 0) by (nonlinear_arith)
        requires
            P53 * one_unit() <= (P53 + 1) * (tick_step(t) * t),
            one_unit() >= 1,
            P53 >= 1,
    ;
}

/// How large a decimal tick is.
pub(crate) proof fn lemma_tick_size(places: u32)
    requires
        places <= 22,
    ensures
        decimal_tick(places).is_finite(),
        !decimal_tick(places).neg(),
        P52 <= mag(decimal_tick(places).index()) <= 2 * one_unit(),
{
    let t = ten(places as nat);
    let u = one_unit();
    let k = tick_step(t);
    lemma_ten_bound(places as nat);
    lemma_room();
    lemma_inputs(1, t);
    assert(1 * u == u);
    lemma_rounded(false, u, t);
    assert(2 * (k * t) >= u && k * t <= 2 * u);
    assert(k >= P52) by (nonlinear_arith)
        requires
            2 * (k * t) >= u,
            1 <= t <= 10_000_000_000_000_000_000_000,
            u >= 0x1_0000_0000_0000_0000_0000_0000_0000_0000nat,
            P52 == 0x10_0000_0000_0000,
    ;
    assert(k <= k * t) by (nonlinear_arith)
        requires
            t >= 1,
            k >= 0,
    ;
}

} // verus!
