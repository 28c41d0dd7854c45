//! IEEE 754 double-precision numbers, held by their bit pattern and computed
//! with integer arithmetic alone.
//!
//! Every finite double is an integer multiple of 2^-1074, so the model of a
//! double is an integer counted in that unit, and an operation is correct when
//! its result is the double nearest to the exact rational result, ties going to
//! the even bit pattern.
use vstd::arithmetic::power2::{lemma_pow2_adds, lemma_pow2_pos, lemma_pow2_unfold, pow2};
use vstd::prelude::*;

verus! {

/// Number of fraction bits, as a power: 2^52.
pub const P52: u64 = 0x10_0000_0000_0000;

/// 2^53, one past the largest significand.
pub const P53: u64 = 0x20_0000_0000_0000;

/// The sign bit, 2^63.
pub const SIGN: u64 = 0x8000_0000_0000_0000;

/// The magnitude bits of infinity; larger magnitudes are not-a-number.
pub const INF: u64 = 0x7ff0_0000_0000_0000;

/// The magnitude bits that every not-a-number result of this module has.
pub const NAN: u64 = 0x7ff8_0000_0000_0000;

/// The exponent of the unit in which magnitudes are counted: 2^-1074.
pub const UNIT: u64 = 1074;

/// The exponent (above the unit) of the last significand bit of the magnitude
/// with index `u`.
pub open spec fn step_exp(u: int) -> nat {
    if u < P52 {
        0
    } else {
        (u / P52 as int - 1) as nat
    }
}

/// The magnitude with index `u`, in units of 2^-1074. The index is the bit
/// pattern without the sign bit. Infinity stands where the next power of two
/// would, which is what rounding compares against.
pub open spec fn mag(u: int) -> nat {
    let e = u / P52 as int;
    let f = u % P52 as int;
    if e == 0 {
        f as nat
    } else {
        ((P52 + f) * pow2((e - 1) as nat)) as nat
    }
}

/// `num / den` lies in the rounding interval of the magnitude with index `u`:
/// between the midpoints to its neighbours, a midpoint belonging to the even one.
pub open spec fn rounds_to(num: nat, den: nat, u: int) -> bool {
    &&& 0 <= u <= INF
    &&& u > 0 ==> {
        let low = (mag(u - 1) + mag(u)) * den;
        2 * num > low || (2 * num == low && u % 2 == 0)
    }
    &&& u < INF ==> {
        let high = (mag(u) + mag(u + 1)) * den;
        2 * num < high || (2 * num == high && u % 2 == 0)
    }
}

/// The index of the magnitude nearest to `num / den`, ties to even.
pub open spec fn nearest(num: nat, den: nat) -> int {
    choose|u: int| rounds_to(num, den, u)
}

// ---- magnitudes ---------------------------------------------------------

pub(crate) proof fn lemma_mag_form(e: nat, q: int)
    requires
        0 <= q <= P53,
        e == 0 || q >= P52,
    ensures
        mag(e * P52 + q) == q * pow2(e),
{
    let p = P52 as int;
    let u = e * p + q;
    assert(pow2(0) == 1) by {
        vstd::arithmetic::power2::lemma2_to64();
    }
    if q < p {
        assert(u == q);
        assert(u / p == 0 && u % p == q) by (nonlinear_arith)
            requires
                u == q,
                0 <= q < p,
        ;
        assert(q * 1 == q);
    } else if q < 2 * p {
        assert(u / p == e + 1 && u % p == q - p) by (nonlinear_arith)
            requires
                u == e * p + q,
                p <= q < 2 * p,
        ;
    } else {
        assert(u / p == e + 2 && u % p == 0) by (nonlinear_arith)
            requires
                u == e * p + q,
                q == 2 * p,
                p > 0,
        ;
        lemma_pow2_unfold((e + 1) as nat);
        assert(p * (2 * pow2(e)) == (2 * p) * pow2(e)) by (nonlinear_arith);
    }
}

/// A magnitude is a significand times a power of two, and the next one has the
/// next significand.
pub(crate) proof fn lemma_mag_step(u: int)
    requires
        0 <= u,
    ensures
        ({
            let e = step_exp(u);
            let q = u - e * P52;
            &&& 0 <= q < P53
            &&& e > 0 ==> q >= P52
            &&& mag(u) == q * pow2(e)
            &&& mag(u + 1) == (q + 1) * pow2(e)
            &&& mag(u + 1) == mag(u) + pow2(e)
        }),
{
    let p = P52 as int;
    let e = step_exp(u);
    let q = u - e * p;
    if u < p {
        assert(e * p == 0) by (nonlinear_arith)
            requires
                e == 0,
        ;
    } else {
        assert(u / p >= 1 && p <= u - (u / p - 1) * p < 2 * p) by (nonlinear_arith)
            requires
                u >= p,
                p > 0,
        ;
    }
    lemma_mag_form(e, q);
    lemma_mag_form(e, q + 1);
    assert(e * p + (q + 1) == u + 1);
    assert((q + 1) * pow2(e) == q * pow2(e) + pow2(e)) by (nonlinear_arith);
}

/// Magnitudes grow strictly with their index.
pub proof fn lemma_mag_increases(u: int, v: int)
    requires
        0 <= u < v,
    ensures
        mag(u) < mag(v),
    decreases v - u,
{
    lemma_mag_step(v - 1);
    lemma_pow2_pos(step_exp(v - 1));
    if u < v - 1 {
        lemma_mag_increases(u, v - 1);
    }
}

/// A rational has at most one nearest magnitude.
pub proof fn lemma_rounds_to_unique(num: nat, den: nat, u: int, v: int)
    requires
        den > 0,
        rounds_to(num, den, u),
        rounds_to(num, den, v),
    ensures
        u == v,
{
    if u != v {
        let (a, b) = if u < v { (u, v) } else { (v, u) };
        lemma_mag_increases(a, a + 1);
        lemma_mag_increases(b - 1, b);
        if a + 1 < b {
            lemma_mag_increases(a + 1, b);
            if a < b - 1 {
                lemma_mag_increases(a, b - 1);
            }
        }
        let high = mag(a) + mag(a + 1);
        let low = mag(b - 1) + mag(b);
        assert(high <= low);
        assert(high * den <= low * den) by (nonlinear_arith)
            requires
                high <= low,
        ;
        if a + 1 < b {
            assert(high < low);
            assert(high * den < low * den) by (nonlinear_arith)
                requires
                    high < low,
                    den > 0,
            ;
        }
    }
}

/// Where `num / den` is bracketed by two neighbours, the midpoint decides.
pub(crate) proof fn lemma_bracket(num: nat, den: nat, u: int)
    requires
        den > 0,
        0 <= u < INF,
        mag(u) * den <= num,
        num < mag(u + 1) * den,
    ensures
        ({
            let mid = (mag(u) + mag(u + 1)) * den;
            &&& 2 * num < mid ==> rounds_to(num, den, u)
            &&& 2 * num > mid ==> rounds_to(num, den, u + 1)
            &&& 2 * num == mid ==> rounds_to(num, den, if u % 2 == 0 { u } else { u + 1 })
        }),
{
    lemma_mag_increases(u, u + 1);
    lemma_mag_increases(u + 1, u + 2);
    if u > 0 {
        lemma_mag_increases(u - 1, u);
        assert((mag(u - 1) + mag(u)) * den < 2 * num) by (nonlinear_arith)
            requires
                mag(u - 1) < mag(u),
                mag(u) * den <= num,
                den > 0,
        ;
    }
    assert((mag(u + 1) + mag(u + 2)) * den > 2 * num) by (nonlinear_arith)
        requires
            mag(u + 1) < mag(u + 2),
            num < mag(u + 1) * den,
            den > 0,
    ;
    assert(u + 1 - 1 == u);
}

/// At or beyond the magnitude of infinity a rational rounds to infinity.
pub(crate) proof fn lemma_overflow(num: nat, den: nat, u: int)
    requires
        den > 0,
        u >= INF,
        mag(u) * den <= num,
    ensures
        rounds_to(num, den, INF as int),
{
    let i = INF as int;
    if u > i {
        lemma_mag_increases(i, u);
    }
    lemma_mag_increases(i - 1, i);
    assert((mag(i - 1) + mag(i)) * den < 2 * num) by (nonlinear_arith)
        requires
            mag(i - 1) < mag(i),
            mag(i) <= mag(u),
            mag(u) * den <= num,
            den > 0,
    ;
}

/// A representable magnitude is nearest to itself.
pub(crate) proof fn lemma_exact(den: nat, u: int)
    requires
        den > 0,
        0 <= u <= INF,
    ensures
        rounds_to((mag(u) * den) as nat, den, u),
{
    let num = (mag(u) * den) as nat;
    assert(mag(u) * den >= 0) by (nonlinear_arith)
        requires
            den > 0,
    ;
    if u == INF {
        lemma_overflow(num, den, u);
    } else {
        lemma_mag_increases(u, u + 1);
        assert(num < mag(u + 1) * den && 2 * num < (mag(u) + mag(u + 1)) * den)
            by (nonlinear_arith)
            requires
                num == mag(u) * den,
                mag(u) < mag(u + 1),
                den > 0,
        ;
        lemma_bracket(num, den, u);
    }
}

// ---- rounding -----------------------------------------------------------

/// Where `n` stands between `q * d` and `(q + 1) * d`: `half` says that it is at or
/// past the middle, `low` that it is past the point that `half` names.
spec fn stands(q: int, half: bool, low: bool, n: nat, d: nat) -> bool {
    &&& q * d <= n
    &&& n < (q + 1) * d
    &&& half <==> 2 * n >= (2 * q + 1) * d
    &&& low <==> (if half { 2 * n != (2 * q + 1) * d } else { n != q * d })
}

/// `num / den == (n / d) * 2^e`.
spec fn scaled(num: nat, den: nat, n: nat, d: nat, e: int) -> bool {
    if e >= 0 {
        num * d == n * den * pow2(e as nat)
    } else {
        num * d * pow2((-e) as nat) == n * den
    }
}

proof fn lemma_scaled_step(num: nat, den: nat, n: nat, d: nat, e: int)
    requires
        scaled(num, den, n, d, e),
    ensures
        scaled(num, den, n, 2 * d, e + 1),
{
    if e >= 0 {
        lemma_pow2_unfold((e + 1) as nat);
        let p = pow2(e as nat);
        assert(num * (2 * d) == n * den * (2 * p)) by (nonlinear_arith)
            requires
                num * d == n * den * p,
        ;
    } else if e == -1 {
        lemma_pow2_unfold(1);
        vstd::arithmetic::power2::lemma2_to64();
        assert(num * (2 * d) == n * den * 1) by (nonlinear_arith)
            requires
                num * d * 2 == n * den,
        ;
    } else {
        lemma_pow2_unfold((-e) as nat);
        let p = pow2((-e - 1) as nat);
        assert(num * (2 * d) * p == num * d * (2 * p)) by (nonlinear_arith);
    }
}

proof fn lemma_scaled_back(num: nat, den: nat, n: nat, d: nat, e: int)
    requires
        scaled(num, den, n, d, e),
        e > 0,
    ensures
        scaled(num, den, 2 * n, d, e - 1),
{
    lemma_pow2_unfold(e as nat);
    let p = pow2((e - 1) as nat);
    assert(num * d == (2 * n) * den * p) by (nonlinear_arith)
        requires
            num * d == n * den * (2 * p),
    ;
}

proof fn lemma_stands_halve(q: int, half: bool, low: bool, n: nat, d: nat)
    requires
        stands(q, half, low, n, d),
        q >= 0,
        d > 0,
    ensures
        stands(q / 2, q % 2 == 1, half || low, n, 2 * d),
{
    let k = q / 2;
    if q % 2 == 0 {
        assert(q == 2 * k);
        assert(k * (2 * d) == q * d) by (nonlinear_arith)
            requires
                q == 2 * k,
        ;
        assert((k + 1) * (2 * d) == (q + 1) * d + d) by (nonlinear_arith)
            requires
                q == 2 * k,
        ;
        assert((2 * k + 1) * (2 * d) == 2 * ((q + 1) * d)) by (nonlinear_arith)
            requires
                q == 2 * k,
        ;
        assert((2 * q + 1) * d == 2 * (q * d) + d) by (nonlinear_arith);
    } else {
        assert(q == 2 * k + 1);
        assert(k * (2 * d) == q * d - d) by (nonlinear_arith)
            requires
                q == 2 * k + 1,
        ;
        assert((k + 1) * (2 * d) == (q + 1) * d) by (nonlinear_arith)
            requires
                q == 2 * k + 1,
        ;
        assert((2 * k + 1) * (2 * d) == 2 * (q * d)) by (nonlinear_arith)
            requires
                q == 2 * k + 1,
        ;
        assert((2 * q + 1) * d == 2 * (q * d) + d) by (nonlinear_arith);
    }
}

/// From the position between two multiples of the unit to the position of the
/// rational between two magnitudes.
proof fn lemma_finish(q: int, half: bool, low: bool, n: nat, d: nat, num: nat, den: nat, e: nat)
    requires
        stands(q, half, low, n, d),
        scaled(num, den, n, d, e as int),
        d > 0,
        den > 0,
        q >= 0,
    ensures
        q * pow2(e) * den <= num,
        num < (q + 1) * pow2(e) * den,
        half <==> 2 * num >= (2 * q + 1) * pow2(e) * den,
        half && !low ==> 2 * num == (2 * q + 1) * pow2(e) * den,
        half && low ==> 2 * num > (2 * q + 1) * pow2(e) * den,
{
    let p = pow2(e);
    lemma_pow2_pos(e);
    let w = den * p;
    assert(w > 0) by (nonlinear_arith)
        requires
            den > 0,
            p > 0,
            w == den * p,
    ;
    assert(num * d == n * w) by (nonlinear_arith)
        requires
            num * d == n * den * p,
            w == den * p,
    ;
    assert(q * p * den == q * w && (q + 1) * p * den == (q + 1) * w && (2 * q + 1) * p * den == (2
        * q + 1) * w) by (nonlinear_arith)
        requires
            w == den * p,
    ;
    assert(q * w <= num) by (nonlinear_arith)
        requires
            q * d <= n,
            num * d == n * w,
            d > 0,
            w > 0,
    ;
    assert(num < (q + 1) * w) by (nonlinear_arith)
        requires
            n < (q + 1) * d,
            num * d == n * w,
            d > 0,
            w > 0,
    ;
    if half {
        if low {
            assert(2 * num > (2 * q + 1) * w) by (nonlinear_arith)
                requires
                    2 * n > (2 * q + 1) * d,
                    num * d == n * w,
                    d > 0,
                    w > 0,
            ;
        } else {
            assert(2 * num == (2 * q + 1) * w) by (nonlinear_arith)
                requires
                    2 * n == (2 * q + 1) * d,
                    num * d == n * w,
                    d > 0,
                    w > 0,
            ;
        }
    } else {
        assert(2 * num < (2 * q + 1) * w) by (nonlinear_arith)
            requires
                2 * n < (2 * q + 1) * d,
                num * d == n * w,
                d > 0,
                w > 0,
        ;
    }
}

proof fn lemma_pow2_128()
    ensures
        pow2(128) == u128::MAX + 1,
{
    vstd::arithmetic::power2::lemma2_to64();
    vstd::arithmetic::power2::lemma2_to64_rest();
    lemma_pow2_adds(64, 64);
    assert(0x1_0000_0000_0000_0000 * 0x1_0000_0000_0000_0000
        == 0x1_0000_0000_0000_0000_0000_0000_0000_0000);
}

proof fn lemma_zero_rounds(num: nat, den: nat, n: nat, d: nat, e: int)
    requires
        den > 0,
        d > 0,
        e >= 0,
        stands(0, false, false, n, d),
        scaled(num, den, n, d, e),
    ensures
        rounds_to(num, den, 0),
{
    assert(0 * d == 0);
    assert(n * den * pow2(e as nat) == 0) by (nonlinear_arith)
        requires
            n == 0,
    ;
    assert(num == 0) by (nonlinear_arith)
        requires
            num * d == 0,
            d > 0,
    ;
    lemma_mag_increases(0, 1);
    lemma_exact(den, 0);
    assert(mag(0) * den == 0) by (nonlinear_arith)
        requires
            mag(0) == 0,
    ;
}

/// The magnitude nearest to `(n / d) * 2^e`, where `q` is the integer part of
/// `n / d` and `half`, `low` say what the remainder is.
fn round_scaled(
    q: u128,
    e: i64,
    half: bool,
    low: bool,
    Ghost(n): Ghost<nat>,
    Ghost(d): Ghost<nat>,
    Ghost(num): Ghost<nat>,
    Ghost(den): Ghost<nat>,
) -> (u: u64)
    requires
        d > 0,
        den > 0,
        -10000 <= e <= 10000,
        stands(q as int, half, low, n, d),
        scaled(num, den, n, d, e as int),
        half || low ==> q >= P53,
    ensures
        rounds_to(num, den, u as int),
{
    let mut q: u128 = q;
    let mut e: i64 = e;
    let mut half: bool = half;
    let mut low: bool = low;
    let ghost mut n: nat = n;
    let ghost mut d: nat = d;
    while e < 0
        invariant
            d > 0,
            den > 0,
            -10000 <= e <= 10000,
            stands(q as int, half, low, n, d),
            scaled(num, den, n, d, e as int),
            half || low ==> q >= P53 || e <= 0,
        decreases -e,
    {
        proof {
            lemma_stands_halve(q as int, half, low, n, d);
            lemma_scaled_step(num, den, n, d, e as int);
            d = 2 * d;
        }
        low = half || low;
        half = q % 2 == 1;
        q = q / 2;
        e = e + 1;
    }
    let mut k: u64 = 0;
    proof {
        lemma_pow2_128();
    }
    while q >= P53 as u128
        invariant
            d > 0,
            den > 0,
            k <= 128,
            0 <= e <= 10000 + k,
            q < pow2((128 - k) as nat),
            stands(q as int, half, low, n, d),
            scaled(num, den, n, d, e as int),
            half || low ==> q >= P52 || e == 0,
        decreases q,
    {
        proof {
            lemma_stands_halve(q as int, half, low, n, d);
            lemma_scaled_step(num, den, n, d, e as int);
            d = 2 * d;
            if k == 128 {
                vstd::arithmetic::power2::lemma2_to64();
            }
            lemma_pow2_unfold((128 - k) as nat);
        }
        low = half || low;
        half = q % 2 == 1;
        q = q / 2;
        e = e + 1;
        k = k + 1;
    }
    if q == 0 && !half && !low {
        proof {
            lemma_zero_rounds(num, den, n, d, e as int);
        }
        return 0;
    }
    while q < P52 as u128 && e > 0
        invariant
            d > 0,
            den > 0,
            0 <= e <= 20000,
            q < P53,
            stands(q as int, half, low, n, d),
            scaled(num, den, n, d, e as int),
            half || low ==> q >= P52 || e == 0,
        decreases e,
    {
        proof {
            lemma_scaled_back(num, den, n, d, e as int);
            assert((q * 2) * d == 2 * n && 2 * n < (q * 2 + 1) * d) by (nonlinear_arith)
                requires
                    q * d == n,
                    d > 0,
            ;
            assert((2 * (q * 2) + 1) * d == 2 * (2 * n) + d) by (nonlinear_arith)
                requires
                    q * d == n,
            ;
            n = 2 * n;
        }
        q = q * 2;
        e = e - 1;
    }
    proof {
        lemma_finish(q as int, half, low, n, d, num, den, e as nat);
        lemma_mag_form(e as nat, q as int);
        lemma_mag_form(e as nat, q + 1);
    }
    let ghost u0: int = e * P52 + q;
    if e >= 2047 {
        proof {
            assert(u0 >= INF) by (nonlinear_arith)
                requires
                    e >= 2047,
                    q >= 0,
                    u0 == e * P52 + q,
            ;
            lemma_overflow(num, den, u0);
        }
        return INF;
    }
    let u: u64 = e as u64 * P52 + q as u64;
    if u >= INF {
        proof {
            lemma_overflow(num, den, u0);
        }
        return INF;
    }
    proof {
        lemma_bracket(num, den, u as int);
        let w = pow2(e as nat);
        assert((2 * q + 1) * w == q * w + (q + 1) * w) by (nonlinear_arith);
    }
    if half && (low || u % 2 == 1) {
        u + 1
    } else {
        u
    }
}

// ---- the type -----------------------------------------------------------

/// A double-precision number. Two values are `==` when their bits are the same;
/// the comparisons of the numbers are `lt`, `le`, `gt`, `ge` and `same`.
#[derive(Clone, Copy, Debug, PartialEq, Eq, Structural)]
pub struct Double {
    pub bits: u64,
}

impl Double {
    pub open spec fn neg(self) -> bool {
        self.bits >= SIGN
    }

    /// The bit pattern without the sign bit.
    pub open spec fn index(self) -> int {
        if self.bits >= SIGN {
            self.bits - SIGN
        } else {
            self.bits as int
        }
    }

    pub open spec fn is_nan(self) -> bool {
        self.index() > INF
    }

    pub open spec fn is_inf(self) -> bool {
        self.index() == INF
    }

    pub open spec fn is_finite(self) -> bool {
        self.index() < INF
    }

    /// The number in units of 2^-1074; an infinity counts as the power of two
    /// that follows the largest finite magnitude.
    pub open spec fn value(self) -> int {
        if self.neg() {
            -(mag(self.index()) as int)
        } else {
            mag(self.index()) as int
        }
    }
}

/// The double with the given sign and magnitude index.
pub open spec fn make(neg: bool, u: int) -> Double {
    Double { bits: (if neg { SIGN + u } else { u }) as u64 }
}

pub open spec fn nan() -> Double {
    Double { bits: NAN }
}

/// The double nearest to `num / den` units of 2^-1074, with the given sign.
pub open spec fn rounded(neg: bool, num: nat, den: nat) -> Double {
    make(neg, nearest(num, den))
}

/// One, in units of 2^-1074.
pub open spec fn one_unit() -> nat {
    pow2(UNIT as nat)
}

/// The double nearest to the integer `n`.
pub open spec fn of_int(n: int) -> Double {
    rounded(n < 0, ((if n < 0 { -n } else { n }) * one_unit()) as nat, 1)
}

/// The double nearest to `p / q`.
pub open spec fn quotient(p: nat, q: nat) -> Double {
    rounded(false, p * one_unit(), q)
}

pub open spec fn zero() -> Double {
    Double { bits: 0 }
}

impl Double {
    pub open spec fn negated(self) -> Double {
        make(!self.neg(), self.index())
    }

    pub open spec fn magnitude(self) -> Double {
        make(false, self.index())
    }

    /// The sum: exact, then rounded once.
    pub open spec fn plus(self, other: Double) -> Double {
        if self.is_nan() || other.is_nan() {
            nan()
        } else if self.is_inf() {
            if other.is_inf() && self.neg() != other.neg() {
                nan()
            } else {
                self
            }
        } else if other.is_inf() {
            other
        } else {
            let s = self.value() + other.value();
            if s == 0 {
                make(self.neg() && other.neg(), 0)
            } else {
                rounded(s < 0, (if s < 0 { -s } else { s }) as nat, 1)
            }
        }
    }

    pub open spec fn minus(self, other: Double) -> Double {
        self.plus(other.negated())
    }

    /// The product: exact, then rounded once.
    pub open spec fn times(self, other: Double) -> Double {
        let neg = self.neg() != other.neg();
        if self.is_nan() || other.is_nan() {
            nan()
        } else if self.is_inf() || other.is_inf() {
            if self.index() == 0 || other.index() == 0 {
                nan()
            } else {
                make(neg, INF as int)
            }
        } else {
            rounded(neg, mag(self.index()) * mag(other.index()), one_unit())
        }
    }

    /// The quotient: exact, then rounded once.
    pub open spec fn over(self, other: Double) -> Double {
        let neg = self.neg() != other.neg();
        if self.is_nan() || other.is_nan() {
            nan()
        } else if self.is_inf() {
            if other.is_inf() {
                nan()
            } else {
                make(neg, INF as int)
            }
        } else if other.is_inf() {
            make(neg, 0)
        } else if other.index() == 0 {
            if self.index() == 0 {
                nan()
            } else {
                make(neg, INF as int)
            }
        } else {
            rounded(neg, mag(self.index()) * one_unit(), mag(other.index()))
        }
    }

    pub open spec fn less(self, other: Double) -> bool {
        !self.is_nan() && !other.is_nan() && self.value() < other.value()
    }

    pub open spec fn at_most(self, other: Double) -> bool {
        !self.is_nan() && !other.is_nan() && self.value() <= other.value()
    }

    pub open spec fn equal(self, other: Double) -> bool {
        !self.is_nan() && !other.is_nan() && self.value() == other.value()
    }

    /// The larger of two numbers; a not-a-number yields to the other operand.
    pub open spec fn larger(self, other: Double) -> Double {
        if self.is_nan() || self.less(other) {
            other
        } else {
            self
        }
    }

    /// The smaller of two numbers; a not-a-number yields to the other operand.
    pub open spec fn smaller(self, other: Double) -> Double {
        if self.is_nan() || other.less(self) {
            other
        } else {
            self
        }
    }

    pub open spec fn clamped(self, lo: Double, hi: Double) -> Double {
        if self.less(lo) {
            lo
        } else if hi.less(self) {
            hi
        } else {
            self
        }
    }

    /// The integer part of the magnitude.
    pub open spec fn whole(self) -> nat {
        mag(self.index()) / one_unit()
    }

    /// The integer towards zero.
    pub open spec fn truncated(self) -> int {
        if self.neg() {
            -(self.whole() as int)
        } else {
            self.whole() as int
        }
    }

    /// The integer towards zero, held to `lo..=hi`; zero for not-a-number.
    pub open spec fn saturated(self, lo: int, hi: int) -> int {
        if self.is_nan() {
            0
        } else if self.truncated() < lo {
            lo
        } else if self.truncated() > hi {
            hi
        } else {
            self.truncated()
        }
    }

    pub open spec fn floored(self) -> Double {
        if !self.is_finite() {
            self
        } else if self.neg() {
            self.with_whole(((mag(self.index()) + one_unit() - 1) / one_unit() as int) as nat)
        } else {
            self.with_whole(self.whole())
        }
    }

    pub open spec fn ceiled(self) -> Double {
        if !self.is_finite() {
            self
        } else if self.neg() {
            self.with_whole(self.whole())
        } else {
            self.with_whole(((mag(self.index()) + one_unit() - 1) / one_unit() as int) as nat)
        }
    }

    /// The nearest integer, halves going away from zero.
    pub open spec fn nearest_whole(self) -> Double {
        if !self.is_finite() {
            self
        } else {
            self.with_whole((2 * mag(self.index()) + one_unit()) / (2 * one_unit()))
        }
    }

    /// The integer `n` with the sign of this number.
    pub open spec fn with_whole(self, n: nat) -> Double {
        rounded(self.neg(), n * one_unit(), 1)
    }
}

pub(crate) proof fn lemma_nearest(num: nat, den: nat, u: int)
    requires
        den > 0,
        rounds_to(num, den, u),
    ensures
        nearest(num, den) == u,
{
    lemma_rounds_to_unique(num, den, nearest(num, den), u);
}

/// Magnitudes compare as their indices do.
pub(crate) proof fn lemma_mag_order(u: int, v: int)
    requires
        0 <= u,
        0 <= v,
    ensures
        mag(u) < mag(v) <==> u < v,
        mag(u) == mag(v) <==> u == v,
        mag(u) == 0 <==> u == 0,
{
    if u < v {
        lemma_mag_increases(u, v);
    } else if v < u {
        lemma_mag_increases(v, u);
    }
    if 0 < u {
        lemma_mag_increases(0, u);
    }
}

/// `num / den` in terms of an unscaled quotient.
proof fn lemma_scaled_powers(a: nat, b: nat, i: nat, j: nat, t: nat)
    ensures
        scaled(a * pow2(i), b * pow2(j), a * pow2(t), b, i - j - t),
{
    let e = i - j - t;
    if e >= 0 {
        lemma_pow2_adds(t, j);
        lemma_pow2_adds(t + j, e as nat);
        assert((a * pow2(i)) * b == (a * pow2(t)) * (b * pow2(j)) * pow2(e as nat))
            by (nonlinear_arith)
            requires
                pow2(i) == pow2(t + j) * pow2(e as nat),
                pow2(t + j) == pow2(t) * pow2(j),
        ;
    } else {
        lemma_pow2_adds(t, j);
        lemma_pow2_adds(i, (-e) as nat);
        assert((a * pow2(i)) * b * pow2((-e) as nat) == (a * pow2(t)) * (b * pow2(j)))
            by (nonlinear_arith)
            requires
                pow2(t + j) == pow2(i) * pow2((-e) as nat),
                pow2(t + j) == pow2(t) * pow2(j),
        ;
    }
}

/// The significand and exponent of the magnitude with index `u`.
pub(crate) fn split(u: u64) -> (r: (u64, u64))
    requires
        u < SIGN,
    ensures
        r.0 < P53,
        r.1 == step_exp(u as int),
        r.1 <= 2047,
        r.0 == u - r.1 * P52,
        r.1 > 0 ==> r.0 >= P52,
        mag(u as int) == r.0 * pow2(r.1 as nat),
        mag(u as int) == 0 <==> r.0 == 0,
{
    proof {
        lemma_mag_step(u as int);
        lemma_mag_order(u as int, 0);
        lemma_pow2_pos(step_exp(u as int));
    }
    if u < P52 {
        proof {
            vstd::arithmetic::power2::lemma2_to64();
        }
        (u, 0)
    } else {
        let e: u64 = u / P52 - 1;
        assert(e * P52 <= u && u - e * P52 >= P52) by (nonlinear_arith)
            requires
                u >= P52,
                e == u / P52 - 1,
        ;
        let m: u64 = u - e * P52;
        (m, e)
    }
}

/// `m * 2^k`.
pub(crate) fn shift_up(m: u128, k: u64) -> (r: u128)
    requires
        m * pow2(k as nat) <= u128::MAX,
    ensures
        r == m * pow2(k as nat),
{
    let mut r: u128 = m;
    let mut i: u64 = 0;
    proof {
        vstd::arithmetic::power2::lemma2_to64();
    }
    while i < k
        invariant
            i <= k,
            r == m * pow2(i as nat),
            m * pow2(k as nat) <= u128::MAX,
        decreases k - i,
    {
        proof {
            lemma_pow2_unfold((i + 1) as nat);
            if i + 1 < k {
                vstd::arithmetic::power2::lemma_pow2_strictly_increases((i + 1) as nat, k as nat);
            }
            assert(m * pow2((i + 1) as nat) == 2 * (m * pow2(i as nat))) by (nonlinear_arith)
                requires
                    pow2((i + 1) as nat) == 2 * pow2(i as nat),
            ;
            assert(m * pow2((i + 1) as nat) <= m * pow2(k as nat)) by (nonlinear_arith)
                requires
                    pow2((i + 1) as nat) <= pow2(k as nat),
            ;
        }
        r = r * 2;
        i = i + 1;
    }
    r
}

/// The magnitude nearest to `m * 2^e`.
fn round_integer(m: u128, e: u64) -> (u: u64)
    requires
        e <= 10000,
    ensures
        rounds_to(m as nat * pow2(e as nat), 1, u as int),
{
    proof {
        vstd::arithmetic::power2::lemma2_to64();
        lemma_scaled_powers(m as nat, 1, e as nat, 0, 0);
    }
    round_scaled(
        m,
        e as i64,
        false,
        false,
        Ghost(m as nat),
        Ghost(1),
        Ghost(m as nat * pow2(e as nat)),
        Ghost(1),
    )
}

/// The magnitude nearest to `(a * 2^i) / (b * 2^j)`.
pub(crate) fn round_quotient(a: u64, i: u64, b: u64, j: u64) -> (u: u64)
    requires
        a > 0,
        b > 0,
        i <= 4000,
        j <= 4000,
    ensures
        rounds_to(a as nat * pow2(i as nat), b as nat * pow2(j as nat), u as int),
{
    let mut m: u64 = a;
    let mut k: u64 = 0;
    proof {
        vstd::arithmetic::power2::lemma2_to64();
        vstd::arithmetic::power2::lemma2_to64_rest();
    }
    while m < SIGN
        invariant
            a > 0,
            k <= 63,
            m == a * pow2(k as nat),
            pow2(63) == SIGN,
        decreases 63 - k,
    {
        proof {
            lemma_pow2_pos(k as nat);
            lemma_pow2_unfold((k + 1) as nat);
            assert(a * pow2((k + 1) as nat) == 2 * (a * pow2(k as nat))) by (nonlinear_arith)
                requires
                    pow2((k + 1) as nat) == 2 * pow2(k as nat),
            ;
            assert(m > 0) by (nonlinear_arith)
                requires
                    a > 0,
                    pow2(k as nat) > 0,
                    m == a * pow2(k as nat),
            ;
            if k == 63 {
                assert(m >= SIGN) by (nonlinear_arith)
                    requires
                        m == a * SIGN,
                        a > 0,
                ;
            }
        }
        m = m * 2;
        k = k + 1;
    }
    let ghost t: nat = (k + 63) as nat;
    let n: u128 = m as u128 * SIGN as u128;
    proof {
        lemma_pow2_adds(k as nat, 63);
        assert(n == a * pow2(t)) by (nonlinear_arith)
            requires
                n == m * SIGN,
                m == a * pow2(k as nat),
                pow2(t) == pow2(k as nat) * SIGN,
        ;
        lemma_scaled_powers(a as nat, b as nat, i as nat, j as nat, t);
    }
    let d: u128 = b as u128;
    let q: u128 = n / d;
    let r: u128 = n % d;
    proof {
        vstd::arithmetic::div_mod::lemma_fundamental_div_mod(n as int, d as int);
        assert(q * d <= n && n < (q + 1) * d && 2 * n - (2 * q + 1) * d == 2 * r - d)
            by (nonlinear_arith)
            requires
                n == d * q + r,
                0 <= r < d,
        ;
        assert(q >= P53) by (nonlinear_arith)
            requires
                n < (q + 1) * d,
                d < 0x1_0000_0000_0000_0000,
                n >= SIGN * SIGN,
        ;
        assert(n >= SIGN * SIGN) by (nonlinear_arith)
            requires
                n == m * SIGN,
                m >= SIGN,
        ;
        lemma_pow2_pos(j as nat);
        assert(b * pow2(j as nat) > 0) by (nonlinear_arith)
            requires
                b > 0,
                pow2(j as nat) > 0,
        ;
    }
    let half: bool = r >= d - r;
    let low: bool = if half {
        r != d - r
    } else {
        r != 0
    };
    assert(n == q * d + r) by (nonlinear_arith)
        requires
            n == d * q + r,
    ;
    round_scaled(
        q,
        i as i64 - j as i64 - (k as i64 + 63),
        half,
        low,
        Ghost(n as nat),
        Ghost(d as nat),
        Ghost(a as nat * pow2(i as nat)),
        Ghost(b as nat * pow2(j as nat)),
    )
}

proof fn lemma_far_sum(ua: int, eb: nat, mb: int)
    requires
        P52 <= ua < INF,
        0 <= mb < P53,
        step_exp(ua) > eb + 70,
    ensures
        rounds_to((mag(ua) + mb * pow2(eb)) as nat, 1, ua),
        rounds_to((mag(ua) - mb * pow2(eb)) as nat, 1, ua),
        mag(ua) > mb * pow2(eb),
{
    let ea = step_exp(ua);
    let b = mb * pow2(eb);
    lemma_pow2_pos(eb);
    assert(b >= 0) by (nonlinear_arith)
        requires
            mb >= 0,
            pow2(eb) > 0,
            b == mb * pow2(eb),
    ;
    // b < 2^(eb + 53), far below the step on either side
    vstd::arithmetic::power2::lemma2_to64();
    vstd::arithmetic::power2::lemma2_to64_rest();
    lemma_pow2_adds(53, eb);
    assert(b < pow2(53 + eb)) by (nonlinear_arith)
        requires
            b == mb * pow2(eb),
            mb < P53,
            pow2(53 + eb) == P53 * pow2(eb),
            pow2(eb) > 0,
    ;
    lemma_mag_step(ua);
    lemma_mag_step(ua - 1);
    let el = step_exp(ua - 1);
    assert(el >= ea - 1) by (nonlinear_arith)
        requires
            ua >= P52,
            ea == ua / P52 as int - 1,
            ua - 1 >= P52 ==> el == (ua - 1) / P52 as int - 1,
            ua - 1 < P52 ==> el == 0,
    ;
    vstd::arithmetic::power2::lemma_pow2_strictly_increases(54 + eb, el);
    vstd::arithmetic::power2::lemma_pow2_strictly_increases(54 + eb, ea);
    lemma_pow2_unfold(54 + eb);
    lemma_bracket((mag(ua) + b) as nat, 1, ua);
    assert((mag(ua) + mag(ua + 1)) * 1 == mag(ua) + mag(ua + 1));
    assert(mag(ua) >= pow2(el));
    if b == 0 {
        lemma_exact(1, ua);
    } else {
        lemma_bracket((mag(ua) - b) as nat, 1, ua - 1);
        assert((mag(ua - 1) + mag(ua)) * 1 == mag(ua - 1) + mag(ua));
    }
}

impl Double {
    pub fn from_bits(bits: u64) -> (r: Double)
        ensures
            r.bits == bits,
    {
        Double { bits }
    }

    pub fn to_bits(self) -> (r: u64)
        ensures
            r == self.bits,
    {
        self.bits
    }

    pub(crate) fn is_neg(self) -> (r: bool)
        ensures
            r == self.neg(),
    {
        self.bits >= SIGN
    }

    pub(crate) fn magnitude_bits(self) -> (r: u64)
        ensures
            r == self.index(),
            r < SIGN,
    {
        if self.bits >= SIGN {
            self.bits - SIGN
        } else {
            self.bits
        }
    }

    pub(crate) fn with_sign(neg: bool, u: u64) -> (r: Double)
        requires
            u < SIGN,
        ensures
            r == make(neg, u as int),
            r.neg() == neg,
            r.index() == u,
    {
        if neg {
            Double { bits: SIGN + u }
        } else {
            Double { bits: u }
        }
    }

    pub fn zero() -> (r: Double)
        ensures
            r == zero(),
            r.value() == 0,
    {
        proof {
            lemma_mag_order(0, 0);
        }
        Double { bits: 0 }
    }

    /// The negation.
    pub fn negate(self) -> (r: Double)
        ensures
            r == self.negated(),
            !self.is_nan() ==> r.value() == -self.value(),
    {
        Double::with_sign(!self.is_neg(), self.magnitude_bits())
    }

    /// The magnitude.
    pub fn abs(self) -> (r: Double)
        ensures
            r == self.magnitude(),
            !self.is_nan() ==> r.value() == (if self.value() < 0 { -self.value() } else { self.value() }),
    {
        Double::with_sign(false, self.magnitude_bits())
    }

    /// The sum of two finite numbers, `ua` being the larger magnitude.
    fn add_ordered(na: bool, ua: u64, nb: bool, ub: u64) -> (r: Double)
        requires
            ub <= ua < INF,
        ensures
            r == make(na, ua as int).plus(make(nb, ub as int)),
    {
        let ghost a = make(na, ua as int);
        let ghost b = make(nb, ub as int);
        assert(a.index() == ua && a.neg() == na && b.index() == ub && b.neg() == nb);
        let (ma, ea) = split(ua);
        let (mb, eb) = split(ub);
        proof {
            lemma_mag_order(ua as int, ub as int);
            lemma_mag_order(ub as int, 0);
            assert(ea >= eb) by (nonlinear_arith)
                requires
                    ua >= ub,
                    ea == step_exp(ua as int),
                    eb == step_exp(ub as int),
            ;
        }
        if ua == ub && na != nb {
            return Double::with_sign(false, 0);
        }
        let ghost s: nat = if na == nb {
            mag(ua as int) + mag(ub as int)
        } else {
            (mag(ua as int) - mag(ub as int)) as nat
        };
        let d: u64 = ea - eb;
        let u: u64 = if d > 70 {
            proof {
                assert(ua >= P52);
                lemma_far_sum(ua as int, eb as nat, mb as int);
            }
            ua
        } else {
            proof {
                lemma_pow2_adds(d as nat, eb as nat);
                vstd::arithmetic::power2::lemma2_to64();
                vstd::arithmetic::power2::lemma2_to64_rest();
                if d < 70 {
                    vstd::arithmetic::power2::lemma_pow2_strictly_increases(d as nat, 70);
                }
                lemma_pow2_adds(64, 6);
                assert(ma * pow2(d as nat) <= P53 * (0x1_0000_0000_0000_0000 * 64)) by (nonlinear_arith)
                    requires
                        ma < P53,
                        pow2(d as nat) <= 0x1_0000_0000_0000_0000 * 64,
                ;
                assert(mag(ua as int) == (ma * pow2(d as nat)) * pow2(eb as nat)) by (nonlinear_arith)
                    requires
                        mag(ua as int) == ma * pow2(ea as nat),
                        pow2(ea as nat) == pow2(d as nat) * pow2(eb as nat),
                ;
                lemma_pow2_pos(eb as nat);
            }
            let wide: u128 = shift_up(ma as u128, d);
            proof {
                assert(wide >= mb) by (nonlinear_arith)
                    requires
                        mag(ua as int) == wide * pow2(eb as nat),
                        mag(ub as int) == mb * pow2(eb as nat),
                        mag(ua as int) >= mag(ub as int),
                        pow2(eb as nat) > 0,
                ;
                assert((wide + mb) * pow2(eb as nat) == wide * pow2(eb as nat) + mb * pow2(eb as nat)
                    && (wide - mb) * pow2(eb as nat) == wide * pow2(eb as nat) - mb * pow2(eb as nat))
                    by (nonlinear_arith);
            }
            if na == nb {
                round_integer(wide + mb as u128, eb)
            } else {
                round_integer(wide - mb as u128, eb)
            }
        };
        proof {
            assert(rounds_to(s, 1, u as int));
            lemma_nearest(s, 1, u as int);
            if s == 0 {
                lemma_mag_order(ua as int, 0);
                lemma_exact(1, 0);
                lemma_nearest(0, 1, 0);
            }
        }
        Double::with_sign(na, u)
    }

    /// The sum.
    pub fn add(self, other: Double) -> (r: Double)
        ensures
            r == self.plus(other),
    {
        let ua = self.magnitude_bits();
        let ub = other.magnitude_bits();
        let na = self.is_neg();
        let nb = other.is_neg();
        if ua > INF || ub > INF {
            return Double { bits: NAN };
        }
        if ua == INF {
            if ub == INF && na != nb {
                return Double { bits: NAN };
            }
            return self;
        }
        if ub == INF {
            return other;
        }
        if ua >= ub {
            Double::add_ordered(na, ua, nb, ub)
        } else {
            Double::add_ordered(nb, ub, na, ua)
        }
    }

    /// The difference.
    pub fn sub(self, other: Double) -> (r: Double)
        ensures
            r == self.minus(other),
    {
        self.add(other.negate())
    }

    /// The product.
    pub fn mul(self, other: Double) -> (r: Double)
        ensures
            r == self.times(other),
    {
        let ua = self.magnitude_bits();
        let ub = other.magnitude_bits();
        let neg = self.is_neg() != other.is_neg();
        if ua > INF || ub > INF {
            return Double { bits: NAN };
        }
        if ua == INF || ub == INF {
            if ua == 0 || ub == 0 {
                return Double { bits: NAN };
            }
            return Double::with_sign(neg, INF);
        }
        let (ma, ea) = split(ua);
        let (mb, eb) = split(ub);
        let ghost num: nat = mag(ua as int) * mag(ub as int);
        assert(ma * mb <= 0x40_0000_0000_0000_0000_0000_0000_00) by (nonlinear_arith)
            requires
                ma < P53,
                mb < P53,
        ;
        let m: u128 = ma as u128 * mb as u128;
        proof {
            lemma_pow2_adds(ea as nat, eb as nat);
            assert(num == m * pow2((ea + eb) as nat)) by (nonlinear_arith)
                requires
                    num == (ma * pow2(ea as nat)) * (mb * pow2(eb as nat)),
                    m == ma * mb,
                    pow2((ea + eb) as nat) == pow2(ea as nat) * pow2(eb as nat),
            ;
            vstd::arithmetic::power2::lemma2_to64();
            lemma_scaled_powers(m as nat, 1, (ea + eb) as nat, UNIT as nat, 0);
            lemma_pow2_pos(UNIT as nat);
        }
        let u = round_scaled(
            m,
            (ea + eb) as i64 - UNIT as i64,
            false,
            false,
            Ghost(m as nat),
            Ghost(1),
            Ghost(num),
            Ghost(one_unit()),
        );
        proof {
            lemma_nearest(num, one_unit(), u as int);
        }
        Double::with_sign(neg, u)
    }

    /// The quotient.
    pub fn div(self, other: Double) -> (r: Double)
        ensures
            r == self.over(other),
    {
        let ua = self.magnitude_bits();
        let ub = other.magnitude_bits();
        let neg = self.is_neg() != other.is_neg();
        if ua > INF || ub > INF || (ua == INF && ub == INF) || (ua == 0 && ub == 0) {
            return Double { bits: NAN };
        }
        if ua == INF || ub == 0 {
            return Double::with_sign(neg, INF);
        }
        if ub == INF {
            return Double::with_sign(neg, 0);
        }
        let (ma, ea) = split(ua);
        let (mb, eb) = split(ub);
        proof {
            lemma_mag_order(ua as int, 0);
            lemma_mag_order(ub as int, 0);
            lemma_pow2_pos(UNIT as nat);
        }
        let ghost num: nat = mag(ua as int) * one_unit();
        if ua == 0 {
            proof {
                assert(num == 0) by (nonlinear_arith)
                    requires
                        num == mag(ua as int) * one_unit(),
                        mag(ua as int) == 0,
                ;
                lemma_exact(mag(ub as int), 0);
                assert(mag(0) * mag(ub as int) == 0) by (nonlinear_arith)
                    requires
                        mag(0) == 0,
                ;
                lemma_nearest(num, mag(ub as int), 0);
            }
            return Double::with_sign(neg, 0);
        }
        let u = round_quotient(ma, ea + UNIT, mb, eb);
        proof {
            lemma_pow2_adds(ea as nat, UNIT as nat);
            assert(num == ma * pow2((ea + UNIT) as nat)) by (nonlinear_arith)
                requires
                    num == (ma * pow2(ea as nat)) * pow2(UNIT as nat),
                    pow2((ea + UNIT) as nat) == pow2(ea as nat) * pow2(UNIT as nat),
            ;
            lemma_nearest(num, mag(ub as int), u as int);
        }
        Double::with_sign(neg, u)
    }

    /// The double nearest to `p / q`.
    pub fn ratio(p: u64, q: u64) -> (r: Double)
        requires
            q > 0,
        ensures
            r == quotient(p as nat, q as nat),
    {
        proof {
            lemma_pow2_pos(UNIT as nat);
            vstd::arithmetic::power2::lemma2_to64();
        }
        if p == 0 {
            proof {
                lemma_mag_order(0, 0);
                lemma_exact(q as nat, 0);
                assert(mag(0) * q == 0 && 0 * one_unit() == 0) by (nonlinear_arith)
                    requires
                        mag(0) == 0,
                ;
                lemma_nearest(0, q as nat, 0);
            }
            return Double::with_sign(false, 0);
        }
        let u = round_quotient(p, UNIT, q, 0);
        proof {
            assert(q * 1 == q);
            lemma_nearest((p * one_unit()) as nat, q as nat, u as int);
        }
        Double::with_sign(false, u)
    }

    /// The double nearest to an unsigned integer.
    pub fn from_u64(n: u64) -> (r: Double)
        ensures
            r == of_int(n as int),
    {
        let u = round_integer(n as u128, UNIT);
        proof {
            lemma_nearest((n * one_unit()) as nat, 1, u as int);
        }
        Double::with_sign(false, u)
    }

    /// The double nearest to a signed integer.
    pub fn from_i32(n: i32) -> (r: Double)
        ensures
            r == of_int(n as int),
    {
        let m: u128 = if n < 0 {
            (-(n as i64)) as u128
        } else {
            n as u128
        };
        let u = round_integer(m, UNIT);
        proof {
            lemma_nearest((m * one_unit()) as nat, 1, u as int);
        }
        Double::with_sign(n < 0, u)
    }

    /// `<`
    pub fn lt(self, other: Double) -> (r: bool)
        ensures
            r == self.less(other),
    {
        let ua = self.magnitude_bits();
        let ub = other.magnitude_bits();
        proof {
            lemma_mag_order(ua as int, ub as int);
            lemma_mag_order(ub as int, ua as int);
        }
        if ua > INF || ub > INF {
            false
        } else if self.is_neg() {
            if other.is_neg() {
                ub < ua
            } else {
                ua != 0 || ub != 0
            }
        } else {
            !other.is_neg() && ua < ub
        }
    }

    /// `<=`
    pub fn le(self, other: Double) -> (r: bool)
        ensures
            r == self.at_most(other),
    {
        if self.magnitude_bits() > INF || other.magnitude_bits() > INF {
            false
        } else {
            !other.lt(self)
        }
    }

    /// `>`
    pub fn gt(self, other: Double) -> (r: bool)
        ensures
            r == other.less(self),
    {
        other.lt(self)
    }

    /// `>=`
    pub fn ge(self, other: Double) -> (r: bool)
        ensures
            r == other.at_most(self),
    {
        other.le(self)
    }

    /// Equality of the numbers: both zeros are equal, and nothing equals not-a-number.
    pub fn same(self, other: Double) -> (r: bool)
        ensures
            r == self.equal(other),
    {
        self.le(other) && other.le(self)
    }

    pub fn max(self, other: Double) -> (r: Double)
        ensures
            r == self.larger(other),
    {
        if self.magnitude_bits() > INF || self.lt(other) {
            other
        } else {
            self
        }
    }

    pub fn min(self, other: Double) -> (r: Double)
        ensures
            r == self.smaller(other),
    {
        if self.magnitude_bits() > INF || other.lt(self) {
            other
        } else {
            self
        }
    }

    pub fn clamp(self, lo: Double, hi: Double) -> (r: Double)
        ensures
            r == self.clamped(lo, hi),
    {
        if self.lt(lo) {
            lo
        } else if hi.lt(self) {
            hi
        } else {
            self
        }
    }
}

// ---- integers out of doubles ---------------------------------------------

proof fn lemma_whole(m: nat, e: nat)
    ensures
        e >= UNIT ==> (m * pow2(e)) / one_unit() == m * pow2((e - UNIT) as nat) && (m * pow2(e))
            == (m * pow2((e - UNIT) as nat)) * one_unit(),
        e < UNIT ==> (m * pow2(e)) / one_unit() == m / pow2((UNIT - e) as nat),
{
    let p = one_unit();
    lemma_pow2_pos(UNIT as nat);
    lemma_pow2_pos(e);
    if e >= UNIT {
        let k = (e - UNIT) as nat;
        lemma_pow2_adds(k, UNIT as nat);
        assert(m * pow2(e) == (m * pow2(k)) * p) by (nonlinear_arith)
            requires
                pow2(e) == pow2(k) * p,
        ;
        vstd::arithmetic::div_mod::lemma_div_by_multiple((m * pow2(k)) as int, p as int);
    } else {
        let k = (UNIT - e) as nat;
        lemma_pow2_pos(k);
        lemma_pow2_adds(e, k);
        vstd::arithmetic::div_mod::lemma_div_denominator((m * pow2(e)) as int, pow2(e) as int, pow2(k) as int);
        vstd::arithmetic::div_mod::lemma_div_by_multiple(m as int, pow2(e) as int);
    }
}

/// `2^k` for small `k`.
pub(crate) fn power(k: u64) -> (r: u64)
    requires
        k < 64,
    ensures
        r == pow2(k as nat),
        r > 0,
{
    proof {
        vstd::arithmetic::power2::lemma2_to64();
        vstd::arithmetic::power2::lemma2_to64_rest();
        lemma_pow2_pos(k as nat);
        if k < 63 {
            vstd::arithmetic::power2::lemma_pow2_strictly_increases(k as nat, 63);
        }
    }
    shift_up(1, k) as u64
}

/// The integer part of a magnitude, at most `u64::MAX`.
fn whole_part(u: u64) -> (n: u64)
    requires
        u < SIGN,
    ensures
        mag(u as int) / one_unit() <= u64::MAX ==> n == mag(u as int) / one_unit(),
        mag(u as int) / one_unit() > u64::MAX ==> n == u64::MAX,
{
    let (m, e) = split(u);
    proof {
        lemma_whole(m as nat, e as nat);
        vstd::arithmetic::power2::lemma2_to64();
        vstd::arithmetic::power2::lemma2_to64_rest();
    }
    if e >= UNIT {
        let k: u64 = e - UNIT;
        if k >= 12 {
            proof {
                if k > 12 {
                    vstd::arithmetic::power2::lemma_pow2_strictly_increases(12, k as nat);
                }
                assert(m * pow2(k as nat) > u64::MAX) by (nonlinear_arith)
                    requires
                        m >= P52,
                        pow2(k as nat) >= 4096,
                ;
            }
            return u64::MAX;
        }
        proof {
            vstd::arithmetic::power2::lemma_pow2_strictly_increases(k as nat, 12);
            assert(m * pow2(k as nat) <= u128::MAX) by (nonlinear_arith)
                requires
                    m < P53,
                    pow2(k as nat) < 4096,
            ;
        }
        let w: u128 = shift_up(m as u128, k);
        if w > u64::MAX as u128 {
            u64::MAX
        } else {
            w as u64
        }
    } else {
        let k: u64 = UNIT - e;
        if k >= 53 {
            proof {
                if k > 53 {
                    vstd::arithmetic::power2::lemma_pow2_strictly_increases(53, k as nat);
                }
                vstd::arithmetic::div_mod::lemma_basic_div(m as int, pow2(k as nat) as int);
            }
            return 0;
        }
        let p = power(k);
        m / p
    }
}

impl Double {
    /// The integer towards zero, held to the range of `u64`; zero for not-a-number.
    pub fn to_u64(self) -> (r: u64)
        ensures
            r == self.saturated(0, u64::MAX as int),
    {
        if self.magnitude_bits() > INF || self.is_neg() {
            0
        } else {
            whole_part(self.magnitude_bits())
        }
    }

    /// The integer towards zero, held to the range of `u32`; zero for not-a-number.
    pub fn to_u32(self) -> (r: u32)
        ensures
            r == self.saturated(0, u32::MAX as int),
    {
        let n = self.to_u64();
        if n > u32::MAX as u64 {
            u32::MAX
        } else {
            n as u32
        }
    }

    /// The integer towards zero, held to the range of `i32`; zero for not-a-number.
    pub fn to_i32(self) -> (r: i32)
        ensures
            r == self.saturated(i32::MIN as int, i32::MAX as int),
    {
        if self.magnitude_bits() > INF {
            return 0;
        }
        let n = whole_part(self.magnitude_bits());
        if self.is_neg() {
            if n >= 0x8000_0000 {
                i32::MIN
            } else {
                (-(n as i64)) as i32
            }
        } else if n > i32::MAX as u64 {
            i32::MAX
        } else {
            n as i32
        }
    }

    /// The integer `n` with a sign.
    fn integral(neg: bool, n: u64) -> (r: Double)
        ensures
            r == rounded(neg, n as nat * one_unit(), 1),
    {
        let u = round_integer(n as u128, UNIT);
        proof {
            lemma_nearest(n as nat * one_unit(), 1, u as int);
        }
        Double::with_sign(neg, u)
    }

    /// The integer part of a magnitude with a fraction, whether the fraction is at least
    /// a half, and whether there is one at all; nothing where the magnitude is an integer
    /// of 53 bits or more.
    fn fraction(u: u64) -> (r: Option<(u64, bool, bool)>)
        requires
            u < INF,
        ensures
            r is None ==> {
                &&& nearest(mag(u as int), 1) == u
                &&& mag(u as int) == (mag(u as int) / one_unit()) * one_unit()
                &&& mag(u as int) % one_unit() == 0
            },
            r matches Some((n, half, some)) ==> {
                &&& n == mag(u as int) / one_unit()
                &&& n < P53
                &&& half == (2 * (mag(u as int) % one_unit()) >= one_unit())
                &&& some == (mag(u as int) % one_unit() != 0)
            },
    {
        let (m, e) = split(u);
        proof {
            lemma_whole(m as nat, e as nat);
            vstd::arithmetic::power2::lemma2_to64();
            vstd::arithmetic::power2::lemma2_to64_rest();
            lemma_pow2_pos(UNIT as nat);
        }
        if e >= UNIT {
            proof {
                lemma_exact(1, u as int);
                assert(mag(u as int) * 1 == mag(u as int));
                lemma_nearest(mag(u as int), 1, u as int);
                vstd::arithmetic::div_mod::lemma_mod_multiples_basic(
                    (m * pow2((e - UNIT) as nat)) as int,
                    one_unit() as int,
                );
            }
            return None;
        }
        let k: u64 = UNIT - e;
        let ghost p = pow2(k as nat);
        proof {
            lemma_pow2_pos(k as nat);
            lemma_pow2_adds(e as nat, k as nat);
            lemma_pow2_pos(e as nat);
            // m * 2^e mod 2^(e+k) == (m mod 2^k) * 2^e
            vstd::arithmetic::div_mod::lemma_truncate_middle(m as int, pow2(e as nat) as int, p as int);
            assert(pow2(e as nat) * m == m * pow2(e as nat)) by (nonlinear_arith);
            assert(mag(u as int) % one_unit() == pow2(e as nat) * (m as int % p as int));
            let r = m as int % p as int;
            vstd::arithmetic::div_mod::lemma_mod_bound(m as int, p as int);
            assert((2 * (pow2(e as nat) * r) >= pow2(e as nat) * p) == (2 * r >= p)) by (nonlinear_arith)
                requires
                    pow2(e as nat) > 0,
            ;
            assert((pow2(e as nat) * r == 0) == (r == 0)) by (nonlinear_arith)
                requires
                    pow2(e as nat) > 0,
            ;
        }
        if k > 53 {
            proof {
                if k > 54 {
                    vstd::arithmetic::power2::lemma_pow2_strictly_increases(54, k as nat);
                }
                vstd::arithmetic::div_mod::lemma_small_mod(m as nat, p);
                vstd::arithmetic::div_mod::lemma_basic_div(m as int, p as int);
            }
            return Some((0, false, m != 0));
        }
        let d = power(k);
        let n: u64 = m / d;
        let r: u64 = m % d;
        proof {
            assert(n <= m) by (nonlinear_arith)
                requires
                    n == m / d,
                    d > 0,
            ;
        }
        Some((n, r >= d - r, r != 0))
    }

    /// The largest integer not above this number.
    pub fn floor(self) -> (r: Double)
        ensures
            r == self.floored(),
    {
        let u = self.magnitude_bits();
        if u >= INF {
            return self;
        }
        proof {
            lemma_pow2_pos(UNIT as nat);
            lemma_round_up(mag(u as int), one_unit());
        }
        match Double::fraction(u) {
            None => self,
            Some((n, _, some)) => {
                if self.is_neg() && some {
                    Double::integral(true, n + 1)
                } else {
                    Double::integral(self.is_neg(), n)
                }
            },
        }
    }

    /// The smallest integer not below this number.
    pub fn ceil(self) -> (r: Double)
        ensures
            r == self.ceiled(),
    {
        let u = self.magnitude_bits();
        if u >= INF {
            return self;
        }
        proof {
            lemma_pow2_pos(UNIT as nat);
            lemma_round_up(mag(u as int), one_unit());
        }
        match Double::fraction(u) {
            None => self,
            Some((n, _, some)) => {
                if !self.is_neg() && some {
                    Double::integral(false, n + 1)
                } else {
                    Double::integral(self.is_neg(), n)
                }
            },
        }
    }

    /// The nearest integer, halves going away from zero.
    pub fn round(self) -> (r: Double)
        ensures
            r == self.nearest_whole(),
    {
        let u = self.magnitude_bits();
        if u >= INF {
            return self;
        }
        proof {
            lemma_pow2_pos(UNIT as nat);
            lemma_round_half(mag(u as int), one_unit());
        }
        match Double::fraction(u) {
            None => self,
            Some((n, half, _)) => {
                if half {
                    Double::integral(self.is_neg(), n + 1)
                } else {
                    Double::integral(self.is_neg(), n)
                }
            },
        }
    }
}

proof fn lemma_round_up(x: nat, p: nat)
    requires
        p > 0,
    ensures
        ((x + p - 1) / p as int) == (if x % p == 0 { x / p } else { x / p + 1 }),
{
    let q = (x / p) as int;
    let r = (x % p) as int;
    vstd::arithmetic::div_mod::lemma_fundamental_div_mod(x as int, p as int);
    if r == 0 {
        assert(x + p - 1 == q * p + (p - 1)) by (nonlinear_arith)
            requires
                x == p * q + r,
                r == 0,
        ;
        vstd::arithmetic::div_mod::lemma_fundamental_div_mod_converse(
            x + p - 1,
            p as int,
            q,
            p - 1,
        );
    } else {
        assert(x + p - 1 == (q + 1) * p + (r - 1)) by (nonlinear_arith)
            requires
                x == p * q + r,
        ;
        vstd::arithmetic::div_mod::lemma_fundamental_div_mod_converse(
            x + p - 1,
            p as int,
            q + 1,
            r - 1,
        );
    }
}

proof fn lemma_round_half(x: nat, p: nat)
    requires
        p > 0,
    ensures
        (2 * x + p) / (2 * p) == (if 2 * (x % p) >= p { x / p + 1 } else { x / p }),
{
    let q = (x / p) as int;
    let r = (x % p) as int;
    vstd::arithmetic::div_mod::lemma_fundamental_div_mod(x as int, p as int);
    if 2 * r >= p {
        assert(2 * x + p == (q + 1) * (2 * p) + (2 * r - p)) by (nonlinear_arith)
            requires
                x == p * q + r,
        ;
        vstd::arithmetic::div_mod::lemma_fundamental_div_mod_converse(
            (2 * x + p) as int,
            (2 * p) as int,
            q + 1,
            2 * r - p,
        );
    } else {
        assert(2 * x + p == q * (2 * p) + (2 * r + p)) by (nonlinear_arith)
            requires
                x == p * q + r,
        ;
        vstd::arithmetic::div_mod::lemma_fundamental_div_mod_converse(
            (2 * x + p) as int,
            (2 * p) as int,
            q,
            2 * r + p,
        );
    }
}

// ---- square root ----------------------------------------------------------

/// The square root of `s` lies in the rounding interval of the magnitude with index `u`.
pub open spec fn root_rounds_to(s: nat, u: int) -> bool {
    &&& 0 <= u <= INF
    &&& u > 0 ==> {
        let low = mag(u - 1) + mag(u);
        4 * s > low * low || (4 * s == low * low && u % 2 == 0)
    }
    &&& u < INF ==> {
        let high = mag(u) + mag(u + 1);
        4 * s < high * high || (4 * s == high * high && u % 2 == 0)
    }
}

/// The index of the magnitude nearest to the square root of `s`.
pub open spec fn nearest_root(s: nat) -> int {
    choose|u: int| root_rounds_to(s, u)
}

impl Double {
    /// The square root, rounded once.
    pub open spec fn root(self) -> Double {
        if self.is_nan() {
            nan()
        } else if self.index() == 0 {
            self
        } else if self.neg() {
            nan()
        } else if self.is_inf() {
            self
        } else {
            make(false, nearest_root(mag(self.index()) * one_unit()))
        }
    }
}

proof fn lemma_root_unique(s: nat, u: int, v: int)
    requires
        root_rounds_to(s, u),
        root_rounds_to(s, v),
    ensures
        u == v,
{
    if u != v {
        let (a, b) = if u < v { (u, v) } else { (v, u) };
        lemma_mag_increases(a, a + 1);
        lemma_mag_increases(b - 1, b);
        if a + 1 < b {
            lemma_mag_increases(a + 1, b);
            if a < b - 1 {
                lemma_mag_increases(a, b - 1);
            }
        }
        let high = mag(a) + mag(a + 1);
        let low = mag(b - 1) + mag(b);
        assert(high * high <= low * low) by (nonlinear_arith)
            requires
                high <= low,
        ;
        if a + 1 < b {
            assert(high * high < low * low) by (nonlinear_arith)
                requires
                    high < low,
            ;
        }
    }
}

/// The integer square root.
fn integer_root(n: u128) -> (q: u64)
    ensures
        q * q <= n,
        n < (q + 1) * (q + 1),
{
    let mut lo: u128 = 0;
    let mut hi: u128 = 0x1_0000_0000_0000_0000;
    assert(n < 0x1_0000_0000_0000_0000 * 0x1_0000_0000_0000_0000);
    while hi - lo > 1
        invariant
            lo < hi <= 0x1_0000_0000_0000_0000,
            lo * lo <= n,
            n < hi * hi,
        decreases hi - lo,
    {
        let mid: u128 = lo + (hi - lo) / 2;
        assert(mid * mid <= 0xffff_ffff_ffff_ffff * 0xffff_ffff_ffff_ffff) by (nonlinear_arith)
            requires
                mid <= 0xffff_ffff_ffff_ffff,
        ;
        if mid * mid <= n {
            lo = mid;
        } else {
            hi = mid;
        }
    }
    lo as u64
}

/// Comparing `n` quarters with an integer is comparing the root with it.
proof fn lemma_quarters(x: nat, q: nat, half: bool, low: bool, k: nat)
    requires
        q * q <= x,
        x < (q + 1) * (q + 1),
        low || half <==> x != q * q,
    ensures
        ({
            let n = 4 * q + (if half { 2int } else { 0 }) + (if low { 1int } else { 0 });
            &&& n > 4 * k <==> x > k * k
            &&& n == 4 * k <==> x == k * k
        }),
{
    if q < k {
        assert((q + 1) * (q + 1) <= k * k) by (nonlinear_arith)
            requires
                q + 1 <= k,
        ;
    } else if q > k {
        assert(q * q > k * k) by (nonlinear_arith)
            requires
                q > k,
        ;
    }
}

/// Both neighbours of a midpoint are multiples of the power below their step.
proof fn lemma_midpoint(v: int, h: nat) -> (k: nat)
    requires
        v >= (h + 2) * P52,
    ensures
        mag(v) + mag(v + 1) == 2 * (k * pow2(h)),
{
    let e = step_exp(v);
    assert(v / P52 as int >= h + 2) by (nonlinear_arith)
        requires
            v >= (h + 2) * P52,
    ;
    assert(v >= P52) by (nonlinear_arith)
        requires
            v >= (h + 2) * P52,
    ;
    lemma_mag_step(v);
    let q = v - e * P52;
    let j = (e - h - 1) as nat;
    lemma_pow2_adds(j, h + 1);
    lemma_pow2_unfold(h + 1);
    let k = ((2 * q + 1) * pow2(j)) as nat;
    assert((2 * q + 1) * pow2(j) >= 0) by (nonlinear_arith)
        requires
            q >= 0,
    ;
    assert(q * pow2(e) + (q + 1) * pow2(e) == 2 * (k * pow2(h))) by (nonlinear_arith)
        requires
            pow2(e) == pow2(j) * (2 * pow2(h)),
            k == (2 * q + 1) * pow2(j),
    ;
    k
}

proof fn lemma_root_transfer(x: nat, q: nat, half: bool, low: bool, h: nat, n: nat, u: int)
    requires
        q * q <= x,
        x < (q + 1) * (q + 1),
        low || half <==> x != q * q,
        n == 4 * q + (if half { 2int } else { 0 }) + (if low { 1int } else { 0 }),
        q >= 0x4000_0000_0000_0000,
        h <= 2000,
        rounds_to(n * pow2(h), 4, u),
    ensures
        root_rounds_to(x * pow2(2 * h), u),
{
    let p = pow2(h);
    let w = (h + 2) * P52;
    lemma_pow2_pos(h);
    lemma_pow2_adds(h, h);
    let s = x * pow2(2 * h);
    assert(s == x * (p * p));
    if u <= w {
        // the magnitude is too large for so small an index
        lemma_mag_form(h, P53 as int);
        assert(h * P52 + P53 == w) by (nonlinear_arith)
            requires
                w == (h + 2) * P52,
        ;
        lemma_mag_step(w);
        assert(step_exp(w) == h + 1) by (nonlinear_arith)
            requires
                w == (h + 2) * P52,
                w >= P52 ==> step_exp(w) == (w / P52 as int - 1) as nat,
        ;
        lemma_pow2_unfold(h + 1);
        if u < w {
            lemma_mag_increases(u, w);
            lemma_mag_increases(u + 1, w + 1);
        }
        assert(w < INF) by (nonlinear_arith)
            requires
                w == (h + 2) * P52,
                h <= 2000,
        ;
        assert((mag(u) + mag(u + 1)) * 4 < 2 * (n * p)) by (nonlinear_arith)
            requires
                mag(u) <= P53 * p,
                mag(u + 1) <= P53 * p + 2 * p,
                n >= 0x1_0000_0000_0000_0000,
                p > 0,
        ;
    }
    let k = lemma_midpoint(u - 1, h);
    lemma_quarters(x, q, half, low, k);
    lemma_compare(x, n, p, k);
    if u < INF {
        let k2 = lemma_midpoint(u, h);
        lemma_quarters(x, q, half, low, k2);
        lemma_compare(x, n, p, k2);
    }
}

proof fn lemma_compare(x: nat, n: nat, p: nat, k: nat)
    requires
        p > 0,
        n > 4 * k <==> x > k * k,
        n == 4 * k <==> x == k * k,
    ensures
        ({
            let b = 2 * (k * p);
            let s = x * (p * p);
            &&& 2 * (n * p) > b * 4 <==> 4 * s > b * b
            &&& 2 * (n * p) == b * 4 <==> 4 * s == b * b
        }),
{
    let b = 2 * (k * p);
    let s = x * (p * p);
    let pp = p * p;
    assert(pp > 0) by (nonlinear_arith)
        requires
            p > 0,
            pp == p * p,
    ;
    assert(b * b == 4 * ((k * k) * pp)) by (nonlinear_arith)
        requires
            b == 2 * (k * p),
            pp == p * p,
    ;
    assert(b * 4 == 2 * ((4 * k) * p)) by (nonlinear_arith)
        requires
            b == 2 * (k * p),
    ;
    assert(n > 4 * k <==> n * p > (4 * k) * p) by (nonlinear_arith)
        requires
            p > 0,
    ;
    assert(n == 4 * k <==> n * p == (4 * k) * p) by (nonlinear_arith)
        requires
            p > 0,
    ;
    assert(x > k * k <==> x * pp > (k * k) * pp) by (nonlinear_arith)
        requires
            pp > 0,
    ;
    assert(x == k * k <==> x * pp == (k * k) * pp) by (nonlinear_arith)
        requires
            pp > 0,
    ;
}

impl Double {
    /// The square root.
    pub fn sqrt(self) -> (r: Double)
        ensures
            r == self.root(),
    {
        let u = self.magnitude_bits();
        if u > INF {
            return Double { bits: NAN };
        }
        if u == 0 {
            return self;
        }
        if self.is_neg() {
            return Double { bits: NAN };
        }
        if u == INF {
            return self;
        }
        let (m, e) = split(u);
        proof {
            lemma_mag_order(u as int, 0);
            vstd::arithmetic::power2::lemma2_to64();
        }
        let mut x: u128 = m as u128;
        let mut t: u64 = 0;
        while x < 0x1000_0000_0000_0000_0000_0000_0000_0000
            invariant
                m > 0,
                x == m * pow2(t as nat),
                0 < x < 0x2000_0000_0000_0000_0000_0000_0000_0000,
                t <= 124,
            decreases 124 - t,
        {
            proof {
                lemma_pow2_unfold((t + 1) as nat);
                assert(m * pow2((t + 1) as nat) == 2 * (m * pow2(t as nat))) by (nonlinear_arith)
                    requires
                        pow2((t + 1) as nat) == 2 * pow2(t as nat),
                ;
                if t == 124 {
                    lemma_pow2_124();
                    assert(x >= 0x1000_0000_0000_0000_0000_0000_0000_0000) by (nonlinear_arith)
                        requires
                            x == m * pow2(124),
                            pow2(124) == 0x1000_0000_0000_0000_0000_0000_0000_0000,
                            m > 0,
                    ;
                }
            }
            x = x * 2;
            t = t + 1;
        }
        if (e + UNIT - t) % 2 == 1 {
            proof {
                lemma_pow2_unfold((t + 1) as nat);
                assert(m * pow2((t + 1) as nat) == 2 * (m * pow2(t as nat))) by (nonlinear_arith)
                    requires
                        pow2((t + 1) as nat) == 2 * pow2(t as nat),
                ;
            }
            x = x * 2;
            t = t + 1;
        }
        let h: u64 = (e + UNIT - t) / 2;
        let q: u64 = integer_root(x);
        proof {
            assert(q >= 0x4000_0000_0000_0000) by (nonlinear_arith)
                requires
                    x < (q + 1) * (q + 1),
                    x >= 0x1000_0000_0000_0000_0000_0000_0000_0000,
            ;
            assert(q < 0x8000_0000_0000_0000) by (nonlinear_arith)
                requires
                    q * q <= x,
                    x < 0x4000_0000_0000_0000_0000_0000_0000_0000,
            ;
            assert(q * q + q <= 0x4000_0000_0000_0000_0000_0000_0000_0000) by (nonlinear_arith)
                requires
                    q < 0x8000_0000_0000_0000,
            ;
            // x is never half way: four times it is even, the square of an odd number is not
            assert((2 * q + 1) * (2 * q + 1) == 4 * (q * q + q) + 1) by (nonlinear_arith);
            assert((q + 1) * (q + 1) == q * q + 2 * q + 1) by (nonlinear_arith);
        }
        let w: u128 = q as u128 * q as u128;
        let half: bool = x > w + q as u128;
        let low: bool = half || x != w;
        let ghost n: nat = (4 * q + (if half { 2int } else { 0 }) + (if low { 1int } else { 0 })) as nat;
        let ghost num: nat = n * pow2(h as nat);
        proof {
            assert(num * 4 == n * 4 * pow2(h as nat)) by (nonlinear_arith)
                requires
                    num == n * pow2(h as nat),
            ;
        }
        let r = round_scaled(q as u128, h as i64, half, low, Ghost(n), Ghost(4), Ghost(num), Ghost(4));
        proof {
            lemma_root_transfer(x as nat, q as nat, half, low, h as nat, n, r as int);
            let s = mag(u as int) * one_unit();
            lemma_pow2_adds(t as nat, 2 * h as nat);
            lemma_pow2_adds(e as nat, UNIT as nat);
            assert(x * pow2(2 * h as nat) == s) by (nonlinear_arith)
                requires
                    x == m * pow2(t as nat),
                    s == (m * pow2(e as nat)) * pow2(UNIT as nat),
                    pow2(t as nat) * pow2(2 * h as nat) == pow2(e as nat) * pow2(UNIT as nat),
            ;
            lemma_root_unique(s, r as int, nearest_root(s));
        }
        Double::with_sign(false, r)
    }
}

proof fn lemma_pow2_124()
    ensures
        pow2(124) == 0x1000_0000_0000_0000_0000_0000_0000_0000,
{
    vstd::arithmetic::power2::lemma2_to64();
    vstd::arithmetic::power2::lemma2_to64_rest();
    lemma_pow2_adds(64, 60);
    assert(0x1_0000_0000_0000_0000 * 0x1000_0000_0000_0000
        == 0x1000_0000_0000_0000_0000_0000_0000_0000);
}

} // verus!
