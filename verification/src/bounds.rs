//! How computed differences and quotients stand to the exact ones.
use vstd::arithmetic::power2::{lemma2_to64, lemma_pow2_pos, pow2};
use vstd::prelude::*;

use crate::double::{
    lemma_exact, lemma_mag_form, lemma_mag_order, lemma_nearest, mag, nearest, nearest_root,
    one_unit, quotient, root_rounds_to, zero, Double, INF, P52, P53, UNIT,
};
use crate::order::{
    lemma_normal_error, lemma_plus_value, lemma_relative, lemma_rounded, lemma_rounding_exact,
    lemma_rounding_exists, lemma_rounding_monotone, lemma_zero_rounding, size_of,
};
use crate::ticks::lemma_room;

verus! {

/// A magnitude in the order of numbers.
pub proof fn lemma_value(a: Double)
    requires
        !a.is_nan(),
    ensures
        a.value() == 0 <==> a.index() == 0,
        a.value() < 0 ==> a.neg(),
        a.value() > 0 ==> !a.neg(),
        size_of(a.value()) == mag(a.index()),
        a.magnitude().value() == size_of(a.value()),
        !a.magnitude().is_nan(),
        a.magnitude().index() == a.index(),
        !a.magnitude().neg(),
        a.negated().value() == -a.value(),
        !a.negated().is_nan(),
        a.negated().index() == a.index(),
{
    assert(mag(0) == 0);
    lemma_mag_order(0, a.index());
}

/// Rounding an integer is off by at most one part in 2^53, where the result is finite.
pub proof fn lemma_integer_error(n: nat)
    requires
        nearest(n, 1) < INF,
    ensures
        (P53 - 1) * mag(nearest(n, 1)) <= P53 * n,
        P53 * n <= (P53 + 1) * mag(nearest(n, 1)),
{
    lemma_rounding_exists(n, 1);
    if nearest(n, 1) >= P52 {
        lemma_normal_error(n, 1);
    } else {
        lemma_mag_form(0, P52 as int);
        lemma2_to64();
        assert(mag(P52 as int) == P52);
        if n >= P52 {
            lemma_rounding_exact(P52 as int);
            lemma_rounding_monotone(P52 as nat, n, 1);
        }
        assert(mag(n as int) == n);
        lemma_rounding_exact(n as int);
    }
}

/// A computed difference of finite numbers against the exact one.
pub proof fn lemma_difference(a: Double, b: Double)
    requires
        a.is_finite(),
        b.is_finite(),
    ensures
        ({
            let d = a.minus(b);
            let e = a.value() - b.value();
            &&& !d.is_nan()
            &&& e == 0 <==> d.value() == 0
            &&& e >= 0 ==> d.value() >= 0
            &&& e <= 0 ==> d.value() <= 0
            &&& d.index() == nearest(size_of(e), 1)
            &&& d.is_finite() ==> (P53 - 1) * mag(d.index()) <= P53 * size_of(e) && P53 * size_of(e)
                <= (P53 + 1) * mag(d.index())
        }),
{
    lemma_value(b);
    let e = a.value() - b.value();
    lemma_plus_value(a, b.negated());
    lemma_rounded(e < 0, size_of(e), 1);
    let d = a.minus(b);
    lemma_value(d);
    lemma_zero_rounding(1);
    lemma_mag_order(0, nearest(size_of(e), 1));
    if e != 0 {
        assert(mag(1) == 1);
        lemma_rounding_exact(1);
        lemma_rounding_monotone(1, size_of(e), 1);
    }
    assert(mag(d.index()) == mag(nearest(size_of(e), 1)));
    lemma_mag_order(d.index(), nearest(size_of(e), 1));
    lemma_mag_order(nearest(size_of(e), 1), d.index());
    if d.is_finite() {
        lemma_integer_error(size_of(e));
    }
}

/// A quotient that is at most a bound, exactly, is so when it is computed; and what is computed
/// tells the exact quotient but for one part in 2^53.
pub proof fn lemma_quotient_bound(x: Double, m: Double, c: Double)
    requires
        !x.neg(),
        x.is_finite(),
        zero().less(m),
        m.is_finite(),
        !c.neg(),
        c.is_finite(),
        c.value() >= P52,
    ensures
        !x.over(m).is_nan(),
        x.value() * one_unit() <= c.value() * m.value() ==> x.over(m).at_most(c),
        c.value() * m.value() <= x.value() * one_unit() ==> c.at_most(x.over(m)),
        x.over(m).at_most(c) ==> P53 * (x.value() * one_unit()) <= (P53 + 1) * (c.value()
            * m.value()),
        c.at_most(x.over(m)) ==> (P53 - 1) * (c.value() * m.value()) <= P53 * (x.value()
            * one_unit()),
{
    let u = one_unit();
    lemma_pow2_pos(UNIT as nat);
    lemma_value(x);
    lemma_value(m);
    lemma_value(c);
    assert(mag(0) == 0);
    let num = mag(x.index()) * u;
    let den = mag(m.index());
    let q = x.over(m);
    lemma_rounded(false, num, den);
    let i = nearest(num, den);
    lemma_rounding_exists(num, den);
    let k = c.index();
    lemma_exact(den, k);
    lemma_nearest(mag(k) * den, den, k);
    assert(q.value() == mag(i));
    if num <= mag(k) * den {
        lemma_rounding_monotone(num, mag(k) * den, den);
        lemma_mag_order(i, k);
    }
    if mag(k) * den <= num {
        lemma_rounding_monotone(mag(k) * den, num, den);
        lemma_mag_order(k, i);
    }
    if q.at_most(c) {
        lemma_mag_order(i, k);
        lemma_mag_order(k, i);
        assert(i <= k < INF);
        assert(mag(i) * den <= mag(k) * den) by (nonlinear_arith)
            requires
                mag(i) <= mag(k),
        ;
        if i >= P52 {
            lemma_normal_error(num, den);
        } else {
            lemma_below_normal(num, den);
            assert(num <= mag(k) * den) by (nonlinear_arith)
                requires
                    num < P52 * den,
                    P52 <= mag(k),
            ;
        }
    }
    if c.at_most(q) {
        lemma_mag_order(i, k);
        lemma_mag_order(k, i);
        assert(k <= i);
        assert(mag(k) * den <= mag(i) * den) by (nonlinear_arith)
            requires
                mag(k) <= mag(i),
        ;
        if i < INF {
            lemma_mag_form(0, P52 as int);
            lemma2_to64();
            assert(mag(P52 as int) == P52);
            if k < P52 {
                lemma_mag_order(k, P52 as int);
            }
            lemma_normal_error(num, den);
        } else {
            lemma_mag_order(k, INF - 1);
            lemma_mag_order(INF - 1, INF as int);
            let low = mag(INF - 1);
            assert(mag(k) * den <= num) by (nonlinear_arith)
                requires
                    2 * num >= (low + mag(INF as int)) * den,
                    mag(k) <= low,
                    low <= mag(INF as int),
            ;
        }
    }
}

/// What rounds below the normal magnitudes lies below them.
pub proof fn lemma_below_normal(num: nat, den: nat)
    requires
        den > 0,
        nearest(num, den) < P52,
    ensures
        num < P52 * den,
{
    lemma_mag_form(0, P52 as int);
    lemma2_to64();
    assert(mag(P52 as int) == P52);
    if num >= P52 * den {
        lemma_exact(den, P52 as int);
        lemma_nearest(P52 as nat * den, den, P52 as int);
        lemma_rounding_monotone(P52 as nat * den, num, den);
    }
}

/// A quotient of small integers, as a double, but for one part in 2^53.
pub proof fn lemma_ratio(p: nat, q: nat)
    requires
        1 <= p <= 0xffff_ffff,
        1 <= q <= 0xffff_ffff_ffff_ffff,
    ensures
        quotient(p, q).is_finite(),
        !quotient(p, q).neg(),
        quotient(p, q).value() >= P52,
        (P53 - 1) * (quotient(p, q).value() * q) <= P53 * (p * one_unit()),
        P53 * (p * one_unit()) <= (P53 + 1) * (quotient(p, q).value() * q),
{
    let u = one_unit();
    lemma_rounded(false, p * u, q);
    lemma_room();
    assert(P52 * q <= p * u && p * u <= pow2(2000) * q) by (nonlinear_arith)
        requires
            p >= 1,
            p <= 0xffff_ffff,
            1 <= q <= 0xffff_ffff_ffff_ffff,
            u >= 0x1_0000_0000_0000_0000_0000_0000_0000_0000nat,
            P52 == 0x10_0000_0000_0000,
            pow2(2000) >= 0x1_0000_0000_0000_0000_0000_0000_0000_0000nat * u,
    ;
    lemma_relative(p * u, q);
    lemma_mag_form(0, P52 as int);
    lemma2_to64();
    assert(mag(P52 as int) == P52);
    lemma_mag_order(P52 as int, quotient(p, q).index());
}

/// The whole part of a quotient.
pub proof fn lemma_whole_part(m: nat, u: nat)
    requires
        u > 0,
    ensures
        (m / u) * u <= m,
        m < (m / u + 1) * u,
{
    let w = m / u;
    assert(w * u <= m && m < (w + 1) * u) by (nonlinear_arith)
        requires
            w == m / u,
            u > 0,
    ;
}

/// The magnitude below a square root.
proof fn lemma_root_between(s: nat, k: int) -> (u: int)
    requires
        0 <= k,
        s < mag(k) * mag(k),
    ensures
        0 <= u < k,
        mag(u) * mag(u) <= s < mag(u + 1) * mag(u + 1),
    decreases k,
{
    if k == 0 {
        assert(mag(0) == 0);
        assert(mag(0) * mag(0) == 0) by (nonlinear_arith)
            requires
                mag(0) == 0,
        ;
        0
    } else if mag(k - 1) * mag(k - 1) <= s {
        k - 1
    } else {
        lemma_root_between(s, k - 1)
    }
}

/// Every number has a nearest square root.
pub proof fn lemma_root_exists(s: nat)
    ensures
        root_rounds_to(s, nearest_root(s)),
{
    let top = INF as int;
    if mag(top) * mag(top) <= s {
        lemma_mag_order(top - 1, top);
        let a = mag(top - 1);
        let b = mag(top);
        assert(4 * s > (a + b) * (a + b)) by (nonlinear_arith)
            requires
                b * b <= s,
                a < b,
        ;
        assert(root_rounds_to(s, top));
    } else {
        let u = lemma_root_between(s, top);
        let m = mag(u);
        let n = mag(u + 1);
        lemma_mag_order(u, u + 1);
        let mid = (m + n) * (m + n);
        if u > 0 {
            lemma_mag_order(u - 1, u);
            let a = mag(u - 1);
            assert(4 * s > (a + m) * (a + m)) by (nonlinear_arith)
                requires
                    m * m <= s,
                    a < m,
            ;
        }
        if u + 1 < INF {
            lemma_mag_order(u + 1, u + 2);
            let b = mag(u + 2);
            assert(4 * s < (n + b) * (n + b)) by (nonlinear_arith)
                requires
                    s < n * n,
                    n < b,
            ;
        }
        if 4 * s < mid {
            assert(root_rounds_to(s, u));
        } else if 4 * s > mid {
            assert(u + 1 - 1 == u);
            assert(root_rounds_to(s, u + 1));
        } else if u % 2 == 0 {
            assert(root_rounds_to(s, u));
        } else {
            assert(u + 1 - 1 == u);
            assert(root_rounds_to(s, u + 1));
        }
    }
}

/// Square roots keep the order.
pub proof fn roots_keep_order(a: Double, b: Double)
    requires
        zero().at_most(a),
        a.at_most(b),
    ensures
        zero().at_most(a.root()),
        a.root().at_most(b.root()),
{
    let u = one_unit();
    assert(mag(0) == 0);
    lemma_value(a);
    lemma_value(b);
    lemma_mag_order(0, INF as int);
    let s = mag(a.index()) * u;
    let t = mag(b.index()) * u;
    lemma_root_exists(s);
    lemma_root_exists(t);
    let i = nearest_root(s);
    let j = nearest_root(t);
    lemma_mag_order(0, i);
    lemma_mag_order(0, j);
    lemma_mag_order(j, INF as int);
    lemma_mag_order(i, INF as int);
    lemma_mag_order(a.index(), b.index());
    lemma_mag_order(b.index(), a.index());
    if a.is_finite() && b.is_finite() {
        assert(s <= t) by (nonlinear_arith)
            requires
                s == mag(a.index()) * u,
                t == mag(b.index()) * u,
                mag(a.index()) <= mag(b.index()),
        ;
        if i > j {
            lemma_mag_order(j, i - 1);
            lemma_mag_order(i, j + 1);
            lemma_mag_order(j + 1, i);
            let low = mag(i - 1) + mag(i);
            let high = mag(j) + mag(j + 1);
            assert(low >= high);
            assert(low * low >= high * high) by (nonlinear_arith)
                requires
                    low >= high,
                    high >= 0,
            ;
            if i > j + 1 {
                lemma_mag_order(j + 1, i - 1);
                lemma_mag_order(j, i - 1);
                crate::double::lemma_mag_increases(j, i - 1);
                assert(low > high);
                assert(low * low > high * high) by (nonlinear_arith)
                    requires
                        low > high,
                        high >= 0,
                ;
            }
        }
        lemma_mag_order(i, j);
    }
}

} // verus!
