//! How near the computed quotes are to those of the model with real numbers.
use vstd::arithmetic::power::{lemma_pow_positive, pow};
use vstd::arithmetic::power2::lemma_pow2_pos;
use vstd::prelude::*;

use crate::double::{lemma_mag_order, mag, of_int, one_unit, Double, INF, P52, P53, UNIT};
use crate::order::{integers_are_exact, lemma_normal_error, lemma_rounded};
use crate::strategy::quotes;

verus! {

/// A number that is neither zero nor tiny nor infinite.
pub open spec fn normal(x: Double) -> bool {
    P52 <= x.index() < INF
}

/// `x` is `num / den` but for `k` roundings, each of which is off by at most one part in 2^53.
pub open spec fn near(x: Double, num: nat, den: nat, k: nat) -> bool {
    let m = mag(x.index()) * den;
    &&& pow(P53 - 1, k) * m <= pow(P53 as int, k) * num
    &&& pow(P53 as int, k) * num <= pow(P53 + 1, k) * m
}

/// One more rounding of a product or quotient.
proof fn lemma_step(x: nat, a: nat, b: nat, k: nat, c: nat, d: nat, y: nat)
    requires
        pow(P53 - 1, k) * (x * b) <= pow(P53 as int, k) * a,
        pow(P53 as int, k) * a <= pow(P53 + 1, k) * (x * b),
        (P53 - 1) * (y * d) <= P53 * (x * c),
        P53 * (x * c) <= (P53 + 1) * (y * d),
    ensures
        pow(P53 - 1, k + 1) * (y * (b * d)) <= pow(P53 as int, k + 1) * (a * c),
        pow(P53 as int, k + 1) * (a * c) <= pow(P53 + 1, k + 1) * (y * (b * d)),
{
    let e = P53 - 1;
    let f = P53 as int;
    let g = P53 + 1;
    let ek = pow(e, k);
    let fk = pow(f, k);
    let gk = pow(g, k);
    lemma_pow_positive(e, k);
    lemma_pow_positive(f, k);
    lemma_pow_positive(g, k);
    reveal(pow);
    assert(pow(e, k + 1) == e * ek);
    assert(pow(f, k + 1) == f * fk);
    assert(pow(g, k + 1) == g * gk);
    assert((e * ek) * (y * (b * d)) <= (f * fk) * (a * c)) by (nonlinear_arith)
        requires
            ek * (x * b) <= fk * a,
            e * (y * d) <= f * (x * c),
            ek >= 0,
            f >= 0,
            b >= 0,
            c >= 0,
    {
        assert((ek * b) * (e * (y * d)) <= (ek * b) * (f * (x * c)));
        assert((ek * b) * (e * (y * d)) == (e * ek) * (y * (b * d)));
        assert((ek * b) * (f * (x * c)) == (f * c) * (ek * (x * b)));
        assert((f * c) * (ek * (x * b)) <= (f * c) * (fk * a));
        assert((f * c) * (fk * a) == (f * fk) * (a * c));
    }
    assert((f * fk) * (a * c) <= (g * gk) * (y * (b * d))) by (nonlinear_arith)
        requires
            fk * a <= gk * (x * b),
            f * (x * c) <= g * (y * d),
            gk >= 0,
            f >= 0,
            b >= 0,
            c >= 0,
    {
        assert((f * c) * (fk * a) <= (f * c) * (gk * (x * b)));
        assert((f * c) * (fk * a) == (f * fk) * (a * c));
        assert((f * c) * (gk * (x * b)) == (gk * b) * (f * (x * c)));
        assert((gk * b) * (f * (x * c)) <= (gk * b) * (g * (y * d)));
        assert((gk * b) * (g * (y * d)) == (g * gk) * (y * (b * d)));
    }
}

/// A number is itself, without a rounding.
proof fn lemma_itself(x: Double)
    ensures
        near(x, mag(x.index()), 1, 0),
{
    reveal(pow);
    assert(mag(x.index()) * 1 == mag(x.index()));
}

proof fn lemma_near_product(x: Double, num: nat, den: nat, k: nat, c: Double)
    requires
        near(x, num, den, k),
        x.is_finite(),
        c.is_finite(),
        normal(x.times(c)),
    ensures
        near(x.times(c), num * mag(c.index()), den * one_unit(), k + 1),
        x.times(c).neg() == (x.neg() != c.neg()),
{
    let n = mag(x.index()) * mag(c.index());
    lemma_pow2_pos(UNIT as nat);
    lemma_rounded(x.neg() != c.neg(), n, one_unit());
    lemma_normal_error(n, one_unit());
    lemma_step(
        mag(x.index()),
        num,
        den,
        k,
        mag(c.index()),
        one_unit(),
        mag(x.times(c).index()),
    );
}

proof fn lemma_near_quotient(x: Double, num: nat, den: nat, k: nat, c: Double)
    requires
        near(x, num, den, k),
        x.is_finite(),
        c.is_finite(),
        c.index() > 0,
        normal(x.over(c)),
    ensures
        near(x.over(c), num * one_unit(), den * mag(c.index()), k + 1),
        x.over(c).neg() == (x.neg() != c.neg()),
{
    let n = mag(x.index()) * one_unit();
    assert(mag(0) == 0);
    lemma_mag_order(0, c.index());
    lemma_rounded(x.neg() != c.neg(), n, mag(c.index()));
    lemma_normal_error(n, mag(c.index()));
    lemma_step(
        mag(x.index()),
        num,
        den,
        k,
        one_unit(),
        mag(c.index()),
        mag(x.over(c).index()),
    );
}

/// The computed quotes are those of the model but for a few roundings, where nothing overflows
/// or becomes tiny: the shift `q g v t` of the reservation price from the mid is near the real
/// product, the parts `g v t / 2` and `l / g` of the half spread are near the real ones, and
/// the difference and the sum of these are the nearest doubles.
pub proof fn quotes_are_near_the_model(
    mid: Double,
    position: Double,
    sigma2: Double,
    t_remaining: Double,
    gamma: Double,
    arrival_ln: Double,
)
    requires
        position.is_finite(),
        sigma2.is_finite(),
        t_remaining.is_finite(),
        gamma.is_finite(),
        gamma.index() > 0,
        arrival_ln.is_finite(),
        normal(position.times(gamma)),
        normal(position.times(gamma).times(sigma2)),
        normal(position.times(gamma).times(sigma2).times(t_remaining)),
        normal(gamma.times(sigma2)),
        normal(gamma.times(sigma2).times(t_remaining)),
        normal(gamma.times(sigma2).times(t_remaining).over(of_int(2))),
        normal(of_int(1).over(gamma)),
        normal(of_int(1).over(gamma).times(arrival_ln)),
    ensures
        ({
            let u = one_unit();
            let q = mag(position.index());
            let g = mag(gamma.index());
            let v = mag(sigma2.index());
            let t = mag(t_remaining.index());
            let l = mag(arrival_ln.index());
            let shift = position.times(gamma).times(sigma2).times(t_remaining);
            let risk = gamma.times(sigma2).times(t_remaining).over(of_int(2));
            let arrivals = of_int(1).over(gamma).times(arrival_ln);
            &&& near(shift, q * g * v * t, u * u * u, 3)
            &&& shift.neg() == (((position.neg() != gamma.neg()) != sigma2.neg())
                != t_remaining.neg())
            &&& near(risk, g * v * t * u, u * u * (2 * u), 3)
            &&& near(arrivals, u * u * l, g * u, 2)
            &&& quotes(mid, position, sigma2, t_remaining, gamma, arrival_ln) == (
                mid.minus(shift),
                risk.plus(arrivals),
            )
        }),
{
    let u = one_unit();
    let q = mag(position.index());
    let g = mag(gamma.index());
    let v = mag(sigma2.index());
    let t = mag(t_remaining.index());
    let a = position.times(gamma);
    let b = a.times(sigma2);
    assert(1 * u == u && 1 * g == g);
    lemma_itself(position);
    lemma_near_product(position, q, 1, 0, gamma);
    lemma_near_product(a, q * g, u, 1, sigma2);
    lemma_near_product(b, q * g * v, u * u, 2, t_remaining);
    let c = gamma.times(sigma2);
    let d = c.times(t_remaining);
    lemma_itself(gamma);
    lemma_near_product(gamma, g, 1, 0, sigma2);
    lemma_near_product(c, g * v, u, 1, t_remaining);
    integers_are_exact(2);
    assert(mag(0) == 0);
    lemma_pow2_pos(UNIT as nat);
    lemma_near_quotient(d, g * v * t, u * u, 2, of_int(2));
    integers_are_exact(1);
    lemma_itself(of_int(1));
    lemma_near_quotient(of_int(1), u, 1, 0, gamma);
    lemma_near_product(of_int(1).over(gamma), u * u, g, 1, arrival_ln);
}

} // verus!
