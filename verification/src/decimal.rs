//! Doubles written in decimal, with a fixed number of places.
use vstd::arithmetic::power2::{lemma_pow2_adds, lemma_pow2_pos, lemma_pow2_unfold, pow2};
use vstd::prelude::*;

use crate::double::{mag, one_unit, split, Double, INF, P53, UNIT};
use crate::text::{digit_char, digits, padded};

verus! {

/// 10^k
pub open spec fn ten(k: nat) -> nat
    decreases k,
{
    if k == 0 {
        1
    } else {
        10 * ten((k - 1) as nat)
    }
}

pub proof fn lemma_ten_pos(k: nat)
    ensures
        ten(k) > 0,
    decreases k,
{
    if k > 0 {
        lemma_ten_pos((k - 1) as nat);
    }
}

/// `n / d` rounded to an integer, halves going to the even one.
pub open spec fn half_even(n: nat, d: nat) -> nat {
    let q = n / d;
    let r = n % d;
    if 2 * r > d || (2 * r == d && q % 2 == 1) {
        q + 1
    } else {
        q
    }
}

/// A magnitude in decimal with `k` places, `n` being the magnitude times `10^k`.
pub open spec fn placed(n: nat, k: nat) -> Seq<char> {
    if k == 0 {
        digits(n)
    } else {
        digits(n / ten(k)) + seq!['.'] + padded(n % ten(k), k)
    }
}

/// The digits that `fixed` writes after the sign.
pub open spec fn unsigned_text(x: Double, k: nat) -> Seq<char> {
    if x.is_inf() {
        seq!['i', 'n', 'f']
    } else {
        placed(half_even(mag(x.index()) * ten(k), one_unit()), k)
    }
}

/// A double in decimal with `k` places.
pub open spec fn fixed(x: Double, k: nat) -> Seq<char> {
    if x.is_nan() {
        seq!['N', 'a', 'N']
    } else if x.neg() {
        seq!['-'] + unsigned_text(x, k)
    } else {
        unsigned_text(x, k)
    }
}

/// A double in decimal with `k` places and always a sign.
pub open spec fn signed_fixed(x: Double, k: nat) -> Seq<char> {
    if x.is_nan() || x.neg() {
        fixed(x, k)
    } else {
        seq!['+'] + fixed(x, k)
    }
}

// ---- decimal digit vectors, least digit first ------------------------------

spec fn digit_value(v: Seq<u8>) -> nat
    decreases v.len(),
{
    if v.len() == 0 {
        0
    } else {
        v[0] as nat + 10 * digit_value(v.drop_first())
    }
}

spec fn all_digits(v: Seq<u8>) -> bool {
    forall|i: int| 0 <= i < v.len() ==> v[i] < 10
}

/// The characters of a digit vector, greatest digit first.
spec fn digit_text(v: Seq<u8>) -> Seq<char>
    decreases v.len(),
{
    if v.len() == 0 {
        Seq::empty()
    } else {
        digit_text(v.drop_first()).push(digit_char(v[0] as nat))
    }
}

proof fn lemma_padded(v: Seq<u8>)
    requires
        all_digits(v),
    ensures
        padded(digit_value(v), v.len()) == digit_text(v),
    decreases v.len(),
{
    if v.len() > 0 {
        lemma_padded(v.drop_first());
    }
}

proof fn lemma_digits(v: Seq<u8>)
    requires
        all_digits(v),
        v.len() >= 1,
        v.len() > 1 ==> v.last() != 0,
    ensures
        digits(digit_value(v)) == digit_text(v),
        v.last() != 0 ==> digit_value(v) > 0,
    decreases v.len(),
{
    let w = v.drop_first();
    if v.len() == 1 {
        assert(digit_text(w) == Seq::<char>::empty());
        assert(digit_value(w) == 0);
        assert(digit_text(v) == seq![digit_char(v[0] as nat)]);
    } else {
        assert(w.last() == v.last());
        lemma_digits(w);
        assert(digit_value(v) >= 10);
        assert(digit_value(v) / 10 == digit_value(w));
        assert(digit_value(v) % 10 == v[0]);
    }
}

proof fn lemma_digit_split(v: Seq<u8>, k: nat)
    requires
        all_digits(v),
        k <= v.len(),
    ensures
        digit_value(v) / ten(k) == digit_value(v.skip(k as int)),
        digit_value(v) % ten(k) == digit_value(v.take(k as int)),
        digit_value(v.take(k as int)) < ten(k),
        digit_value(v) == digit_value(v.skip(k as int)) * ten(k) + digit_value(v.take(k as int)),
    decreases k,
{
    lemma_ten_pos(k);
    if k == 0 {
        assert(v.skip(0) == v);
        assert(v.take(0) == Seq::<u8>::empty());
    } else {
        let w = v.drop_first();
        let j = (k - 1) as nat;
        lemma_digit_split(w, j);
        lemma_ten_pos(j);
        assert(v.skip(k as int) == w.skip(j as int));
        assert(v.take(k as int).drop_first() == w.take(j as int));
        let hi = digit_value(w.skip(j as int)) as int;
        let lo = digit_value(v.take(k as int)) as int;
        assert(digit_value(v) == hi * ten(k) + lo) by (nonlinear_arith)
            requires
                digit_value(v) == v[0] + 10 * (hi * ten(j) + digit_value(w.take(j as int))),
                lo == v[0] + 10 * digit_value(w.take(j as int)),
                ten(k) == 10 * ten(j),
        ;
        vstd::arithmetic::div_mod::lemma_fundamental_div_mod_converse(
            digit_value(v) as int,
            ten(k) as int,
            hi,
            lo,
        );
    }
}

proof fn lemma_digit_push(v: Seq<u8>, d: u8)
    ensures
        digit_value(v.push(d)) == digit_value(v) + d * ten(v.len()),
    decreases v.len(),
{
    if v.len() == 0 {
        assert(v.push(d).drop_first() == Seq::<u8>::empty());
        assert(digit_value(Seq::<u8>::empty()) == 0);
        assert(digit_value(v.push(d)) == d);
        assert(d * ten(0) == d) by (nonlinear_arith)
            requires
                ten(0) == 1,
        ;
    } else {
        lemma_digit_push(v.drop_first(), d);
        assert(v.push(d).drop_first() == v.drop_first().push(d));
        let w = ten((v.len() - 1) as nat);
        assert(10 * (d * w) == d * (10 * w)) by (nonlinear_arith);
    }
}

/// The decimal digits of a number.
fn digits_of(n: u128) -> (v: Vec<u8>)
    ensures
        all_digits(v@),
        digit_value(v@) == n,
        v@.len() <= 40,
{
    let mut v: Vec<u8> = Vec::new();
    let mut rest: u128 = n;
    assert(n * ten(0) == n) by (nonlinear_arith)
        requires
            ten(0) == 1,
    ;
    while rest > 0
        invariant
            all_digits(v@),
            digit_value(v@) + rest * ten(v@.len()) == n,
            rest > 0 ==> rest * ten(v@.len()) <= n,
            v@.len() <= 40,
            v@.len() == 40 ==> rest == 0,
        decreases rest,
    {
        let d: u8 = (rest % 10) as u8;
        proof {
            lemma_digit_push(v@, d);
            lemma_ten_40();
            let t = ten(v@.len());
            let q = rest / 10;
            assert(rest * t == d * t + q * (10 * t)) by (nonlinear_arith)
                requires
                    rest == 10 * q + d,
            ;
            assert(ten(v@.len() + 1) == 10 * t);
            if v@.len() == 39 && q > 0 {
                assert(q * (10 * t) >= 10 * t) by (nonlinear_arith)
                    requires
                        q > 0,
                ;
                assert(false);
            }
            assert(q * (10 * t) >= 0) by (nonlinear_arith);
        }
        v.push(d);
        rest = rest / 10;
    }
    assert(0 * ten(v@.len()) == 0);
    v
}

proof fn lemma_ten_40()
    ensures
        ten(40) > u128::MAX,
{
    reveal_with_fuel(ten, 41);
}

/// Doubles a digit vector.
fn double_digits(v: &mut Vec<u8>)
    requires
        all_digits(old(v)@),
    ensures
        all_digits(final(v)@),
        digit_value(final(v)@) == 2 * digit_value(old(v)@),
{
    let ghost before = v@;
    let mut r: Vec<u8> = Vec::new();
    let mut carry: u8 = 0;
    let mut i: usize = 0;
    assert(before.take(0) == Seq::<u8>::empty());
    while i < v.len()
        invariant
            v@ == before,
            all_digits(before),
            i <= v@.len(),
            r@.len() == i,
            all_digits(r@),
            carry <= 1,
            digit_value(r@) + carry * ten(i as nat) == 2 * digit_value(before.take(i as int)),
        decreases v@.len() - i,
    {
        let t: u8 = v[i] * 2 + carry;
        let d: u8 = t % 10;
        let c: u8 = t / 10;
        proof {
            assert(before.take(i + 1) == before.take(i as int).push(before[i as int]));
            lemma_digit_push(before.take(i as int), before[i as int]);
            lemma_digit_push(r@, d);
            let w = ten(i as nat);
            let x = before[i as int];
            assert(d * w + c * (10 * w) == 2 * (x * w) + carry * w) by (nonlinear_arith)
                requires
                    10 * c + d == 2 * x + carry,
            ;
        }
        r.push(d);
        carry = c;
        i = i + 1;
    }
    assert(before.take(before.len() as int) == before);
    if carry > 0 {
        proof {
            lemma_digit_push(r@, carry);
        }
        r.push(carry);
    }
    *v = r;
}

/// Appends a digit vector as a number with `k` places.
fn push_placed(s: &mut String, v: Vec<u8>, k: usize)
    requires
        all_digits(v@),
        k <= 40,
    ensures
        final(s)@ == old(s)@ + placed(digit_value(v@), k as nat),
{
    let ghost n = digit_value(v@);
    let ghost start = s@;
    let mut v = v;
    while v.len() < k + 1
        invariant
            k <= 40,
            all_digits(v@),
            digit_value(v@) == n,
        decreases k + 1 - v@.len(),
    {
        proof {
            lemma_digit_push(v@, 0);
        }
        v.push(0);
    }
    while v.len() > k + 1 && v[v.len() - 1] == 0
        invariant
            k <= 40,
            v@.len() >= k + 1,
            all_digits(v@),
            digit_value(v@) == n,
        decreases v@.len(),
    {
        proof {
            lemma_digit_push(v@.drop_last(), 0);
            assert(v@.drop_last().push(0) == v@);
        }
        let _ = v.pop();
    }
    let ghost upper = v@.skip(k as int);
    let ghost lower = v@.take(k as int);
    proof {
        lemma_digit_split(v@, k as nat);
        lemma_digits(upper);
        lemma_padded(lower);
        assert(upper.skip((v@.len() - k) as int) == Seq::<u8>::empty());
    }
    let mut i: usize = v.len();
    while i > k
        invariant
            k <= i <= v@.len(),
            all_digits(v@),
            upper == v@.skip(k as int),
            s@ == start + digit_text(v@.skip(i as int)),
        decreases i,
    {
        i = i - 1;
        assert(v@.skip(i as int).drop_first() == v@.skip(i + 1));
        s.push(crate::text::digit(v[i] as u64));
        assert(s@ == start + digit_text(v@.skip(i as int)));
    }
    if k > 0 {
        s.push('.');
        let ghost mid = s@;
        assert(lower.skip(k as int) == Seq::<u8>::empty());
        while i > 0
            invariant
                i <= k <= v@.len(),
                all_digits(v@),
                lower == v@.take(k as int),
                s@ == mid + digit_text(lower.skip(i as int)),
            decreases i,
        {
            i = i - 1;
            assert(lower.skip(i as int).drop_first() == lower.skip(i + 1));
            s.push(crate::text::digit(v[i] as u64));
            assert(s@ == mid + digit_text(lower.skip(i as int)));
        }
        assert(lower.skip(0) == lower);
        assert(s@ == start + placed(n, k as nat));
    } else {
        assert(upper == v@);
    }
}

/// 10^k for the numbers of places that are written.
fn small_ten(k: usize) -> (r: u64)
    requires
        k <= 8,
    ensures
        r == ten(k as nat),
        1 <= r <= 100_000_000,
{
    let mut r: u64 = 1;
    let mut i: usize = 0;
    proof {
        reveal_with_fuel(ten, 9);
    }
    while i < k
        invariant
            i <= k <= 8,
            r == ten(i as nat),
            1 <= r <= 100_000_000,
            ten(0) == 1,
            ten(1) == 10,
            ten(2) == 100,
            ten(3) == 1000,
            ten(4) == 10_000,
            ten(5) == 100_000,
            ten(6) == 1_000_000,
            ten(7) == 10_000_000,
            ten(8) == 100_000_000,
        decreases k - i,
    {
        r = r * 10;
        i = i + 1;
    }
    r
}

/// The magnitude with index `u` times `10^k`, rounded to an integer.
fn scaled_digits(u: u64, k: usize) -> (v: Vec<u8>)
    requires
        u < INF,
        k <= 8,
    ensures
        all_digits(v@),
        digit_value(v@) == half_even(mag(u as int) * ten(k as nat), one_unit()),
{
    let (m, e) = split(u);
    let t10 = small_ten(k);
    assert(m * t10 <= 900_719_925_474_099_200_000_000) by (nonlinear_arith)
        requires
            m < P53,
            t10 <= 100_000_000,
    ;
    let t: u128 = m as u128 * t10 as u128;
    let ghost x = mag(u as int) * ten(k as nat);
    proof {
        lemma_pow2_pos(UNIT as nat);
        assert(x == t * pow2(e as nat)) by (nonlinear_arith)
            requires
                x == (m * pow2(e as nat)) * t10,
                t == m * t10,
        ;
        vstd::arithmetic::power2::lemma2_to64();
    }
    if e >= UNIT {
        let mut v = digits_of(t);
        let mut i: u64 = UNIT;
        assert(t * pow2(0) == t) by (nonlinear_arith)
            requires
                pow2(0) == 1,
        ;
        while i < e
            invariant
                UNIT <= i <= e,
                all_digits(v@),
                digit_value(v@) == t * pow2((i - UNIT) as nat),
            decreases e - i,
        {
            proof {
                lemma_pow2_unfold((i + 1 - UNIT) as nat);
                assert(2 * (t * pow2((i - UNIT) as nat)) == t * pow2((i + 1 - UNIT) as nat)) by (nonlinear_arith)
                    requires
                        pow2((i + 1 - UNIT) as nat) == 2 * pow2((i - UNIT) as nat),
                ;
            }
            double_digits(&mut v);
            i = i + 1;
        }
        proof {
            let w = (t * pow2((e - UNIT) as nat)) as int;
            lemma_pow2_adds((e - UNIT) as nat, UNIT as nat);
            assert(x == w * one_unit() + 0) by (nonlinear_arith)
                requires
                    x == t * pow2(e as nat),
                    pow2(e as nat) == pow2((e - UNIT) as nat) * one_unit(),
                    w == t * pow2((e - UNIT) as nat),
            ;
            vstd::arithmetic::div_mod::lemma_fundamental_div_mod_converse(x as int, one_unit() as int, w, 0);
        }
        v
    } else {
        let c: u64 = UNIT - e;
        let ghost p = pow2(c as nat);
        proof {
            lemma_pow2_pos(e as nat);
            lemma_pow2_pos(c as nat);
            lemma_pow2_adds(e as nat, c as nat);
            lemma_half_even_scale(t as nat, p, pow2(e as nat));
            assert(one_unit() == p * pow2(e as nat)) by (nonlinear_arith)
                requires
                    one_unit() == pow2(e as nat) * p,
            ;
        }
        if c >= 100 {
            proof {
                vstd::arithmetic::power2::lemma2_to64_rest();
                lemma_pow2_adds(64, 36);
                assert(0x1_0000_0000_0000_0000 * 0x10_0000_0000 == 0x10_0000_0000_0000_0000_0000_0000);
                if c > 100 {
                    vstd::arithmetic::power2::lemma_pow2_strictly_increases(100, c as nat);
                }
                vstd::arithmetic::div_mod::lemma_basic_div(t as int, p as int);
                vstd::arithmetic::div_mod::lemma_small_mod(t as nat, p);
            }
            return Vec::new();
        }
        proof {
            vstd::arithmetic::power2::lemma2_to64_rest();
            lemma_pow2_adds(64, 36);
            assert(0x1_0000_0000_0000_0000 * 0x10_0000_0000 == 0x10_0000_0000_0000_0000_0000_0000);
            vstd::arithmetic::power2::lemma_pow2_strictly_increases(c as nat, 100);
            assert(1 * p == p);
        }
        let d: u128 = crate::double::shift_up(1, c);
        let q: u128 = t / d;
        let r: u128 = t % d;
        assert(q <= t) by (nonlinear_arith)
            requires
                q == t / d,
                d > 0,
        ;
        if 2 * r > d || (2 * r == d && q % 2 == 1) {
            digits_of(q + 1)
        } else {
            digits_of(q)
        }
    }
}

proof fn lemma_half_even_scale(t: nat, p: nat, w: nat)
    requires
        p > 0,
        w > 0,
    ensures
        half_even(t * w, p * w) == half_even(t, p),
{
    let q = (t / p) as int;
    let r = (t % p) as int;
    vstd::arithmetic::div_mod::lemma_fundamental_div_mod(t as int, p as int);
    assert(t * w == q * (p * w) + r * w && 0 <= r * w < p * w) by (nonlinear_arith)
        requires
            t == p * q + r,
            0 <= r < p,
            w > 0,
    ;
    vstd::arithmetic::div_mod::lemma_fundamental_div_mod_converse(
        (t * w) as int,
        (p * w) as int,
        q,
        r * w,
    );
    assert(2 * (r * w) > p * w <==> 2 * r > p) by (nonlinear_arith)
        requires
            w > 0,
    ;
    assert(2 * (r * w) == p * w <==> 2 * r == p) by (nonlinear_arith)
        requires
            w > 0,
    ;
}

/// Appends a double in decimal with `k` places.
pub fn push_fixed(s: &mut String, x: Double, k: usize)
    requires
        k <= 8,
    ensures
        final(s)@ == old(s)@ + fixed(x, k as nat),
{
    let u = x.magnitude_bits();
    if u > INF {
        s.push('N');
        s.push('a');
        s.push('N');
        assert(s@ == old(s)@ + fixed(x, k as nat));
        return;
    }
    if x.is_neg() {
        s.push('-');
    }
    if u == INF {
        s.push('i');
        s.push('n');
        s.push('f');
        assert(s@ == old(s)@ + fixed(x, k as nat));
        return;
    }
    let v = scaled_digits(u, k);
    push_placed(s, v, k);
    assert(s@ == old(s)@ + fixed(x, k as nat));
}

/// Appends a double in decimal with `k` places and a sign.
pub fn push_signed_fixed(s: &mut String, x: Double, k: usize)
    requires
        k <= 8,
    ensures
        final(s)@ == old(s)@ + signed_fixed(x, k as nat),
{
    if x.magnitude_bits() > INF || x.is_neg() {
        push_fixed(s, x, k);
    } else {
        s.push('+');
        push_fixed(s, x, k);
        assert(s@ == old(s)@ + signed_fixed(x, k as nat));
    }
}

} // verus!
