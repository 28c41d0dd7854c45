//! Reading doubles from decimal text.
use vstd::arithmetic::power2::{lemma_pow2_adds, lemma_pow2_pos, lemma_pow2_unfold, pow2};
use vstd::prelude::*;

use crate::decimal::{lemma_ten_pos, ten};
use crate::double::{
    lemma_bracket, lemma_exact, lemma_mag_order, lemma_mag_step, lemma_nearest, lemma_overflow,
    mag, make, nan, nearest, one_unit, power, round_quotient, rounded, rounds_to, split, Double,
    INF, NAN, P52, UNIT,
};
use crate::text::chars_of;

verus! {

// ---- what a decimal text means ----------------------------------------------

pub open spec fn is_digit(c: char) -> bool {
    '0' <= c <= '9'
}

pub open spec fn all_digits(s: Seq<char>) -> bool {
    forall|i: int| 0 <= i < s.len() ==> is_digit(#[trigger] s[i])
}

/// The number that a run of decimal digits writes.
pub open spec fn number(s: Seq<char>) -> nat
    decreases s.len(),
{
    if s.len() == 0 {
        0
    } else {
        10 * number(s.drop_last()) + (s.last() as nat - 48) as nat
    }
}

/// The length of the run of digits at `from`.
pub open spec fn digit_run(s: Seq<char>, from: int) -> nat
    decreases s.len() - from,
{
    if 0 <= from < s.len() && is_digit(s[from]) {
        1 + digit_run(s, from + 1)
    } else {
        0
    }
}

/// Where the text after an optional sign starts.
pub open spec fn after_sign(s: Seq<char>, from: int) -> int {
    if from < s.len() && (s[from] == '-' || s[from] == '+') {
        from + 1
    } else {
        from
    }
}

/// The exponent written from `from` to the end: none at all counts as zero.
pub open spec fn exponent(s: Seq<char>, from: int) -> Option<int> {
    if from >= s.len() {
        Some(0)
    } else if s[from] == 'e' || s[from] == 'E' {
        let start = after_sign(s, from + 1);
        let rest = s.skip(start);
        if start < s.len() && all_digits(rest) {
            if s[from + 1] == '-' {
                Some(-(number(rest) as int))
            } else {
                Some(number(rest) as int)
            }
        } else {
            None
        }
    } else {
        None
    }
}

/// The digits and the power of ten of an unsigned decimal number that starts at `from`.
pub open spec fn scientific(s: Seq<char>, from: int) -> Option<(nat, int)> {
    let whole = digit_run(s, from) as int;
    let dot = from + whole;
    let places = if dot < s.len() && s[dot] == '.' {
        digit_run(s, dot + 1) as int
    } else {
        0
    };
    let end = if dot < s.len() && s[dot] == '.' {
        dot + 1 + places
    } else {
        dot
    };
    if whole + places == 0 {
        None
    } else {
        match exponent(s, end) {
            None => None,
            Some(x) => Some(
                (
                    number(s.subrange(from, dot) + s.subrange(end - places, end)),
                    x - places,
                ),
            ),
        }
    }
}

/// The double nearest to `d * 10^x`.
pub open spec fn decimal(neg: bool, d: nat, x: int) -> Double {
    if x >= 0 {
        rounded(neg, d * ten(x as nat) * one_unit(), 1)
    } else {
        rounded(neg, d * one_unit(), ten((-x) as nat))
    }
}

pub open spec fn lower(c: char) -> char {
    if 'A' <= c <= 'Z' {
        (c as u32 + 32) as char
    } else {
        c
    }
}

/// The text from `from` on is `word`, whatever the case of its letters.
pub open spec fn is_word(s: Seq<char>, from: int, word: Seq<char>) -> bool {
    &&& s.len() - from == word.len()
    &&& forall|i: int| 0 <= i < word.len() ==> lower(#[trigger] s[from + i]) == word[i]
}

/// The double that a text writes: an optional sign, then a decimal number with an
/// optional exponent, or the name of an infinity or of not-a-number.
pub open spec fn read(s: Seq<char>) -> Option<Double> {
    let from = after_sign(s, 0);
    let neg = s.len() > 0 && s[0] == '-';
    if is_word(s, from, seq!['i', 'n', 'f']) || is_word(
        s,
        from,
        seq!['i', 'n', 'f', 'i', 'n', 'i', 't', 'y'],
    ) {
        Some(make(neg, INF as int))
    } else if is_word(s, from, seq!['n', 'a', 'n']) {
        Some(nan())
    } else {
        match scientific(s, from) {
            None => None,
            Some((d, x)) => Some(decimal(neg, d, x)),
        }
    }
}

// ---- big natural numbers, least word first ------------------------------------

/// 2^(64 i)
spec fn word(i: nat) -> nat {
    pow2(64 * i)
}

proof fn lemma_word(i: nat)
    ensures
        word(0) == 1,
        word(i + 1) == 0x1_0000_0000_0000_0000 * word(i),
        word(i) > 0,
{
    vstd::arithmetic::power2::lemma2_to64();
    vstd::arithmetic::power2::lemma2_to64_rest();
    lemma_pow2_adds(64, 64 * i);
    lemma_pow2_pos(64 * i);
    assert(64 + 64 * i == 64 * (i + 1));
}

spec fn word_at(v: Seq<u64>, i: int) -> nat {
    if 0 <= i < v.len() {
        v[i] as nat
    } else {
        0
    }
}

/// The value of the lowest `n` words.
spec fn low_words(v: Seq<u64>, n: nat) -> nat
    decreases n,
{
    if n == 0 {
        0
    } else {
        low_words(v, (n - 1) as nat) + word_at(v, n - 1) * word((n - 1) as nat)
    }
}

spec fn big(v: Seq<u64>) -> nat {
    low_words(v, v.len())
}

proof fn lemma_low_words_same(v: Seq<u64>, w: Seq<u64>, n: nat)
    requires
        forall|i: int| 0 <= i < n ==> word_at(v, i) == word_at(w, i),
    ensures
        low_words(v, n) == low_words(w, n),
    decreases n,
{
    if n > 0 {
        lemma_low_words_same(v, w, (n - 1) as nat);
        assert(word_at(v, n - 1) == word_at(w, n - 1));
    }
}

proof fn lemma_low_words_bound(v: Seq<u64>, n: nat)
    ensures
        low_words(v, n) < word(n),
    decreases n,
{
    lemma_word(0);
    if n > 0 {
        let m = (n - 1) as nat;
        lemma_low_words_bound(v, m);
        lemma_word(m);
        assert(word_at(v, m as int) * word(m) <= 0xffff_ffff_ffff_ffff * word(m)) by (nonlinear_arith)
            requires
                word_at(v, m as int) <= 0xffff_ffff_ffff_ffff,
        ;
    }
}

proof fn lemma_low_words_beyond(v: Seq<u64>, n: nat)
    requires
        n >= v.len(),
    ensures
        low_words(v, n) == big(v),
    decreases n,
{
    if n > v.len() {
        lemma_low_words_beyond(v, (n - 1) as nat);
        assert(word_at(v, n - 1) * word((n - 1) as nat) == 0) by (nonlinear_arith)
            requires
                word_at(v, n - 1) == 0,
        ;
    }
}

proof fn lemma_big_push(v: Seq<u64>, d: u64)
    ensures
        big(v.push(d)) == big(v) + d * word(v.len()),
{
    lemma_low_words_same(v, v.push(d), v.len());
}

/// Multiplies by `m` and adds `a`.
fn mul_add(v: &mut Vec<u64>, m: u64, a: u64)
    ensures
        big(final(v)@) == big(old(v)@) * m + a,
{
    let ghost before = v@;
    let mut r: Vec<u64> = Vec::new();
    let mut carry: u64 = a;
    let mut i: usize = 0;
    proof {
        lemma_word(0);
        assert(carry * word(0) == carry) by (nonlinear_arith)
            requires
                word(0) == 1,
        ;
        assert(0 * m == 0);
    }
    while i < v.len()
        invariant
            v@ == before,
            i <= v@.len(),
            r@.len() == i,
            big(r@) + carry * word(i as nat) == low_words(before, i as nat) * m + a,
        decreases v@.len() - i,
    {
        let x: u64 = v[i];
        assert(x * m + carry <= 0xffff_ffff_ffff_ffff_ffff_ffff_ffff_ffff) by (nonlinear_arith)
            requires
                x <= 0xffff_ffff_ffff_ffff,
                m <= 0xffff_ffff_ffff_ffff,
                carry <= 0xffff_ffff_ffff_ffff,
        ;
        assert(x * m <= 0xffff_ffff_ffff_ffff * 0xffff_ffff_ffff_ffff) by (nonlinear_arith)
            requires
                x <= 0xffff_ffff_ffff_ffff,
                m <= 0xffff_ffff_ffff_ffff,
        ;
        let t: u128 = x as u128 * m as u128 + carry as u128;
        let d: u64 = (t % 0x1_0000_0000_0000_0000) as u64;
        let c: u64 = (t / 0x1_0000_0000_0000_0000) as u64;
        proof {
            lemma_word(i as nat);
            lemma_big_push(r@, d);
            let w = word(i as nat);
            let l = low_words(before, i as nat);
            assert(low_words(before, (i + 1) as nat) == l + x * w);
            assert(d * w + c * (0x1_0000_0000_0000_0000 * w) == (x * m + carry) * w) by (nonlinear_arith)
                requires
                    x * m + carry == 0x1_0000_0000_0000_0000 * c + d,
            ;
            assert((l + x * w) * m == l * m + (x * m) * w && (x * m + carry) * w == (x * m) * w + carry * w)
                by (nonlinear_arith);
        }
        r.push(d);
        carry = c;
        i = i + 1;
    }
    if carry > 0 {
        proof {
            lemma_big_push(r@, carry);
        }
        r.push(carry);
    } else {
        assert(0 * word(i as nat) == 0);
    }
    *v = r;
}

/// `<=` on big numbers.
fn at_most(a: &Vec<u64>, b: &Vec<u64>) -> (r: bool)
    ensures
        r == (big(a@) <= big(b@)),
{
    let n: usize = if a.len() < b.len() {
        b.len()
    } else {
        a.len()
    };
    let mut i: usize = n;
    proof {
        lemma_low_words_beyond(a@, n as nat);
        lemma_low_words_beyond(b@, n as nat);
    }
    while i > 0
        invariant
            i <= n,
            big(a@) - low_words(a@, i as nat) == big(b@) - low_words(b@, i as nat),
        decreases i,
    {
        i = i - 1;
        let x: u64 = if i < a.len() {
            a[i]
        } else {
            0
        };
        let y: u64 = if i < b.len() {
            b[i]
        } else {
            0
        };
        proof {
            lemma_low_words_bound(a@, i as nat);
            lemma_low_words_bound(b@, i as nat);
            lemma_word(i as nat);
            let w = word(i as nat);
            assert(x < y ==> x * w + w <= y * w) by (nonlinear_arith)
                requires
                    w > 0,
            ;
            assert(y < x ==> y * w + w <= x * w) by (nonlinear_arith)
                requires
                    w > 0,
            ;
        }
        if x < y {
            return true;
        }
        if y < x {
            return false;
        }
    }
    true
}

/// `v * q * 2^e`
fn times(v: &Vec<u64>, q: u64, e: u64) -> (r: Vec<u64>)
    ensures
        big(r@) == big(v@) * (q * pow2(e as nat)),
{
    let mut r: Vec<u64> = v.clone();
    mul_add(&mut r, q, 0);
    let ghost base = big(v@) * q;
    let mut k: u64 = 0;
    proof {
        vstd::arithmetic::power2::lemma2_to64();
        vstd::arithmetic::power2::lemma2_to64_rest();
        assert(base * pow2(0) == base) by (nonlinear_arith)
            requires
                pow2(0) == 1,
        ;
    }
    while e - k >= 32
        invariant
            k <= e,
            big(r@) == base * pow2(k as nat),
            pow2(32) == 0x1_0000_0000,
        decreases e - k,
    {
        proof {
            lemma_pow2_adds(k as nat, 32);
            assert((base * pow2(k as nat)) * 0x1_0000_0000 == base * (pow2(k as nat) * 0x1_0000_0000))
                by (nonlinear_arith);
        }
        mul_add(&mut r, 0x1_0000_0000, 0);
        k = k + 32;
    }
    let p = power(e - k);
    proof {
        lemma_pow2_adds(k as nat, (e - k) as nat);
        assert((base * pow2(k as nat)) * p == base * (pow2(k as nat) * p)) by (nonlinear_arith);
        assert((big(v@) * q) * pow2(e as nat) == big(v@) * (q * pow2(e as nat))) by (nonlinear_arith);
    }
    mul_add(&mut r, p, 0);
    r
}

/// The magnitude nearest to a quotient of big numbers.
fn round_big(num: &Vec<u64>, den: &Vec<u64>) -> (u: u64)
    requires
        big(den@) > 0,
    ensures
        rounds_to(big(num@), big(den@), u as int),
        u <= INF,
{
    let ghost n = big(num@);
    let ghost d = big(den@);
    let (qi, ei) = split(INF);
    let top = times(den, qi, ei);
    if at_most(&top, num) {
        proof {
            assert(mag(INF as int) * d <= n) by (nonlinear_arith)
                requires
                    d * mag(INF as int) <= n,
            ;
            lemma_overflow(n, d, INF as int);
        }
        return INF;
    }
    proof {
        lemma_mag_order(0, 0);
        assert(mag(0) * d == 0) by (nonlinear_arith)
            requires
                mag(0) == 0,
        ;
        assert(n < mag(INF as int) * d) by (nonlinear_arith)
            requires
                n < d * mag(INF as int),
        ;
    }
    let mut lo: u64 = 0;
    let mut hi: u64 = INF;
    while hi - lo > 1
        invariant
            n == big(num@),
            d == big(den@),
            d > 0,
            lo < hi <= INF,
            mag(lo as int) * d <= n,
            n < mag(hi as int) * d,
        decreases hi - lo,
    {
        let mid: u64 = lo + (hi - lo) / 2;
        let (q, e) = split(mid);
        let p = times(den, q, e);
        assert(d * mag(mid as int) == mag(mid as int) * d) by (nonlinear_arith);
        if at_most(&p, num) {
            lo = mid;
        } else {
            hi = mid;
        }
    }
    let (q, e) = split(lo);
    let middle = times(den, 2 * q + 1, e);
    let mut twice: Vec<u64> = num.clone();
    mul_add(&mut twice, 2, 0);
    proof {
        lemma_mag_step(lo as int);
        lemma_bracket(n, d, lo as int);
        let w = pow2(e as nat);
        assert(d * ((2 * q + 1) * w) == (q * w + (q + 1) * w) * d) by (nonlinear_arith);
        assert(n * 2 == 2 * n);
    }
    if at_most(&twice, &middle) {
        if at_most(&middle, &twice) && lo % 2 == 1 {
            lo + 1
        } else {
            lo
        }
    } else {
        lo + 1
    }
}

// ---- from digits to the nearest double ------------------------------------------

/// The magnitude index of `decimal`.
spec fn decimal_index(d: nat, x: int) -> int {
    if x >= 0 {
        nearest(d * ten(x as nat) * one_unit(), 1)
    } else {
        nearest(d * one_unit(), ten((-x) as nat))
    }
}

proof fn lemma_ten_adds(a: nat, b: nat)
    ensures
        ten(a + b) == ten(a) * ten(b),
    decreases a,
{
    if a == 0 {
        assert(1 * ten(b) == ten(b));
    } else {
        lemma_ten_adds((a - 1) as nat, b);
        let p = ten((a - 1) as nat);
        assert(10 * (p * ten(b)) == (10 * p) * ten(b)) by (nonlinear_arith);
    }
}

proof fn lemma_ten_grows(k: nat)
    ensures
        ten(k) >= pow2(3 * k),
    decreases k,
{
    vstd::arithmetic::power2::lemma2_to64();
    if k > 0 {
        lemma_ten_grows((k - 1) as nat);
        lemma_pow2_adds(3, (3 * k - 3) as nat);
    }
}

proof fn lemma_number_bound(s: Seq<char>)
    requires
        all_digits(s),
    ensures
        number(s) < ten(s.len()),
    decreases s.len(),
{
    if s.len() > 0 {
        lemma_number_bound(s.drop_last());
        assert(is_digit(s[s.len() - 1]));
    }
}

proof fn lemma_huge(d: nat, x: int)
    requires
        d >= 1,
        x >= 400,
    ensures
        decimal_index(d, x) == INF,
{
    let i = INF as int;
    let t = ten(x as nat);
    lemma_ten_grows(400);
    lemma_ten_adds(400, (x - 400) as nat);
    lemma_ten_pos((x - 400) as nat);
    lemma_pow2_adds(1200, UNIT as nat);
    lemma_pow2_adds(52, 2046);
    vstd::arithmetic::power2::lemma2_to64();
    vstd::arithmetic::power2::lemma2_to64_rest();
    vstd::arithmetic::power2::lemma_pow2_strictly_increases(2098, 2274);
    assert(mag(i) == pow2(2098)) by {
        assert(i / P52 as int == 2047 && i % P52 as int == 0);
    }
    let num = d * t * one_unit();
    assert(t >= pow2(1200)) by (nonlinear_arith)
        requires
            t == ten(400) * ten((x - 400) as nat),
            ten(400) >= pow2(1200),
            ten((x - 400) as nat) >= 1,
    ;
    lemma_pow2_pos(UNIT as nat);
    assert(num >= pow2(1200) * one_unit()) by (nonlinear_arith)
        requires
            num == d * t * one_unit(),
            d >= 1,
            t >= pow2(1200),
            one_unit() > 0,
    ;
    assert(mag(i) * 1 <= num);
    lemma_overflow(num, 1, i);
    lemma_nearest(num, 1, i);
}

proof fn lemma_tiny(d: nat, n: nat, x: int)
    requires
        d < ten(n),
        n + x <= -400,
    ensures
        decimal_index(d, x) == 0,
{
    let k = (-x) as nat;
    lemma_ten_grows(400);
    lemma_ten_adds(n, (k - n) as nat);
    lemma_ten_adds(400, (k - n - 400) as nat);
    lemma_ten_pos((k - n - 400) as nat);
    lemma_ten_pos(n);
    lemma_ten_pos(k);
    lemma_pow2_unfold(1075);
    vstd::arithmetic::power2::lemma_pow2_strictly_increases(1075, 1200);
    let r = ten((k - n) as nat);
    assert(r >= pow2(1075)) by (nonlinear_arith)
        requires
            r == ten(400) * ten((k - n - 400) as nat),
            ten(400) >= pow2(1075),
            ten((k - n - 400) as nat) >= 1,
    ;
    lemma_pow2_pos(UNIT as nat);
    assert(2 * (d * one_unit()) < ten(k)) by (nonlinear_arith)
        requires
            d < ten(n),
            ten(k) == ten(n) * r,
            r >= 2 * one_unit(),
            one_unit() > 0,
    ;
    lemma_mag_step(0);
    lemma_mag_order(0, 0);
    vstd::arithmetic::power2::lemma2_to64();
    assert((mag(0) + mag(1)) * ten(k) == ten(k)) by (nonlinear_arith)
        requires
            mag(0) + mag(1) == 1,
    ;
    lemma_nearest(d * one_unit(), ten(k), 0);
}

proof fn lemma_none(x: int)
    ensures
        decimal_index(0, x) == 0,
{
    lemma_mag_order(0, 0);
    if x >= 0 {
        assert(0 * ten(x as nat) * one_unit() == 0) by (nonlinear_arith);
        lemma_exact(1, 0);
        lemma_nearest(0, 1, 0);
    } else {
        let t = ten((-x) as nat);
        lemma_ten_pos((-x) as nat);
        assert(0 * one_unit() == 0 && mag(0) * t == 0) by (nonlinear_arith)
            requires
                mag(0) == 0,
        ;
        lemma_exact(t, 0);
        lemma_nearest(0, t, 0);
    }
}

fn digit_of(c: char) -> (d: u64)
    requires
        is_digit(c),
    ensures
        d == c as nat - 48,
        d < 10,
{
    c as u64 - 48
}

/// Multiplies by `10^k`.
fn times_ten(v: &mut Vec<u64>, k: u128)
    ensures
        big(final(v)@) == big(old(v)@) * ten(k as nat),
{
    let ghost base = big(v@);
    let mut i: u128 = 0;
    assert(base * ten(0) == base) by (nonlinear_arith)
        requires
            ten(0) == 1,
    ;
    while i < k
        invariant
            i <= k,
            big(v@) == base * ten(i as nat),
        decreases k - i,
    {
        mul_add(v, 10, 0);
        assert((base * ten(i as nat)) * 10 == base * (10 * ten(i as nat))) by (nonlinear_arith);
        i = i + 1;
    }
}

/// The number that the digits write, as a big number and, where it has at most
/// nineteen digits, as a word; and whether it is more than zero.
fn collect(ds: &Vec<char>) -> (r: (Vec<u64>, u64, bool))
    requires
        all_digits(ds@),
    ensures
        big(r.0@) == number(ds@),
        ds@.len() <= 19 ==> r.1 == number(ds@),
        r.2 == (number(ds@) > 0),
{
    let mut num: Vec<u64> = Vec::new();
    let mut first: u64 = 0;
    let mut any = false;
    let mut i: usize = 0;
    assert(ds@.take(0) == Seq::<char>::empty());
    proof {
        lemma_ten_19();
    }
    while i < ds.len()
        invariant
            i <= ds@.len(),
            all_digits(ds@),
            big(num@) == number(ds@.take(i as int)),
            any <==> number(ds@.take(i as int)) > 0,
            ds@.len() <= 19 ==> first == number(ds@.take(i as int)),
            ten(19) == 10_000_000_000_000_000_000,
        decreases ds@.len() - i,
    {
        let c = digit_of(ds[i]);
        proof {
            let t = ds@.take(i + 1);
            assert(t.drop_last() == ds@.take(i as int));
            assert(t.last() == ds@[i as int]);
            if ds@.len() <= 19 {
                lemma_number_bound(t);
                lemma_ten_at_most(t.len(), 19);
            }
        }
        mul_add(&mut num, 10, c);
        if ds.len() <= 19 {
            first = first * 10 + c;
        }
        any = any || c > 0;
        i = i + 1;
    }
    assert(ds@.take(ds@.len() as int) == ds@);
    (num, first, any)
}

proof fn lemma_ten_19()
    ensures
        ten(19) == 10_000_000_000_000_000_000,
{
    reveal_with_fuel(ten, 20);
}

proof fn lemma_ten_at_most(a: nat, b: nat)
    requires
        a <= b,
    ensures
        ten(a) <= ten(b),
{
    lemma_ten_adds(a, (b - a) as nat);
    lemma_ten_pos((b - a) as nat);
    assert(ten(a) <= ten(b)) by (nonlinear_arith)
        requires
            ten(b) == ten(a) * ten((b - a) as nat),
            ten((b - a) as nat) >= 1,
    ;
}

/// `10^k` in one word.
fn word_ten(k: u64) -> (q: u64)
    requires
        k <= 19,
    ensures
        q == ten(k as nat),
        q > 0,
{
    let mut q: u64 = 1;
    let mut i: u64 = 0;
    proof {
        lemma_ten_19();
    }
    while i < k
        invariant
            i <= k <= 19,
            q == ten(i as nat),
            q > 0,
            ten(19) == 10_000_000_000_000_000_000,
        decreases k - i,
    {
        proof {
            lemma_ten_at_most((i + 1) as nat, 19);
        }
        q = q * 10;
        i = i + 1;
    }
    q
}

/// The case of few digits and places.
fn nearest_short(d: u64, k: u64) -> (u: u64)
    requires
        d > 0,
        k <= 19,
    ensures
        u == decimal_index(d as nat, -(k as int)),
        u <= INF,
{
    let q = word_ten(k);
    let u = round_quotient(d, UNIT, q, 0);
    proof {
        vstd::arithmetic::power2::lemma2_to64();
        assert(q * pow2(0) == q) by (nonlinear_arith)
            requires
                pow2(0) == 1,
        ;
        assert(d * ten(0) * one_unit() == d * one_unit()) by (nonlinear_arith)
            requires
                ten(0) == 1,
        ;
        lemma_nearest(d as nat * one_unit(), q as nat, u as int);
    }
    u
}

/// The general case, in big numbers.
fn nearest_long(num: Vec<u64>, x: i128) -> (u: u64)
    requires
        x > i128::MIN,
    ensures
        u == decimal_index(big(num@), x as int),
        u <= INF,
{
    let ghost d = big(num@);
    let mut num = num;
    let mut den: Vec<u64> = Vec::new();
    proof {
        lemma_word(0);
        lemma_big_push(Seq::<u64>::empty(), 1);
        assert(1 * word(0) == 1) by (nonlinear_arith)
            requires
                word(0) == 1,
        ;
        assert(den@ == Seq::<u64>::empty());
    }
    den.push(1);
    assert(big(den@) == 1);
    if x >= 0 {
        times_ten(&mut num, x as u128);
    } else {
        times_ten(&mut den, (-x) as u128);
        proof {
            lemma_ten_pos((-x) as nat);
        }
    }
    let ghost b = big(num@);
    let wide = times(&num, 1, UNIT);
    proof {
        assert(b * (1 * one_unit()) == b * one_unit()) by (nonlinear_arith);
    }
    let u = round_big(&wide, &den);
    proof {
        lemma_nearest(big(wide@), big(den@), u as int);
    }
    u
}

/// The magnitude index of the double nearest to `d * 10^x`, where `d` is the number that
/// the digits write. An exponent beyond all doubles may be given by another such one.
fn nearest_decimal(ds: &Vec<char>, x: i128, Ghost(exact): Ghost<int>) -> (u: u64)
    requires
        all_digits(ds@),
        -0x2_0000_0000_0000_0000_0000_0000 <= x <= 0x2_0000_0000_0000_0000_0000_0000,
        x == exact || (x >= 0x1_0000_0000_0000_0000_0000 && exact >= 400) || (x
            <= -0x1_0000_0000_0000_0000_0000 && exact <= -0x1_0000_0000_0000_0000_0000),
    ensures
        u == decimal_index(number(ds@), exact),
        u <= INF,
{
    let ghost d = number(ds@);
    let n: i128 = ds.len() as i128;
    let (num, first, any) = collect(ds);
    if !any {
        proof {
            lemma_none(exact);
        }
        return 0;
    }
    if x >= 400 {
        proof {
            lemma_huge(d, exact);
        }
        return INF;
    }
    proof {
        lemma_number_bound(ds@);
    }
    if n + x <= -400 {
        proof {
            lemma_tiny(d, ds@.len(), exact);
        }
        return 0;
    }
    if n <= 19 && -19 <= x && x <= 0 {
        nearest_short(first, (-x) as u64)
    } else {
        nearest_long(num, x)
    }
}

// ---- taking the text apart ------------------------------------------------------

/// The end of the run of digits at `from`.
fn digit_end(v: &Vec<char>, from: usize) -> (end: usize)
    requires
        from <= v@.len(),
    ensures
        end == from + digit_run(v@, from as int),
        end <= v@.len(),
        all_digits(v@.subrange(from as int, end as int)),
{
    let mut end: usize = from;
    while end < v.len() && '0' <= v[end] && v[end] <= '9'
        invariant
            from <= end <= v@.len(),
            from + digit_run(v@, from as int) == end + digit_run(v@, end as int),
            all_digits(v@.subrange(from as int, end as int)),
        decreases v@.len() - end,
    {
        assert(v@.subrange(from as int, end + 1) == v@.subrange(from as int, end as int).push(v@[end as int]));
        end = end + 1;
    }
    end
}

/// The exponent from `from` on; one beyond all doubles may come back as another such one.
fn read_exponent(v: &Vec<char>, from: usize) -> (r: Option<i128>)
    requires
        from <= v@.len(),
    ensures
        r is Some <==> exponent(v@, from as int) is Some,
        r matches Some(x) ==> {
            let exact = exponent(v@, from as int)->0;
            &&& -0x1_0000_0000_0000_0000_0000_0000 <= x <= 0x1_0000_0000_0000_0000_0000_0000
            &&& x == exact || (x >= 0x1_0000_0000_0000_0000_0000_00 && exact
                >= 0x1_0000_0000_0000_0000_0000_00) || (x <= -0x1_0000_0000_0000_0000_0000_00 && exact
                <= -0x1_0000_0000_0000_0000_0000_00)
        },
{
    if from == v.len() {
        return Some(0);
    }
    if v[from] != 'e' && v[from] != 'E' {
        return None;
    }
    let mut start: usize = from + 1;
    let mut neg = false;
    if start < v.len() && (v[start] == '-' || v[start] == '+') {
        neg = v[start] == '-';
        start = start + 1;
    }
    if start == v.len() {
        return None;
    }
    let ghost rest = v@.skip(start as int);
    let mut n: i128 = 0;
    let mut i: usize = start;
    assert(rest.take(0) == Seq::<char>::empty());
    while i < v.len()
        invariant
            start <= i <= v@.len(),
            from < v@.len(),
            v@[from as int] == 'e' || v@[from as int] == 'E',
            start == after_sign(v@, from + 1),
            start < v@.len(),
            rest == v@.skip(start as int),
            all_digits(rest.take(i - start)),
            0 <= n <= 0x1_0000_0000_0000_0000_0000_0000,
            n == number(rest.take(i - start)) || (n >= 0x1_0000_0000_0000_0000_0000_00 && number(
                rest.take(i - start),
            ) >= 0x1_0000_0000_0000_0000_0000_00),
        decreases v@.len() - i,
    {
        let c = v[i];
        proof {
            let t = rest.take(i + 1 - start);
            assert(t.drop_last() == rest.take(i - start));
            assert(t.last() == c);
        }
        if !('0' <= c && c <= '9') {
            assert(rest[i - start] == c);
            assert(!all_digits(rest));
            return None;
        }
        assert(rest.take(i + 1 - start) == rest.take(i - start).push(c));
        if n < 0x1_0000_0000_0000_0000_0000_00 {
            n = n * 10 + digit_of(c) as i128;
        }
        i = i + 1;
    }
    assert(rest.take(rest.len() as int) == rest);
    if neg {
        Some(-n)
    } else {
        Some(n)
    }
}

/// Whether the text from `from` on is `word`, whatever the case of its letters.
fn matches_word(v: &Vec<char>, from: usize, word: &Vec<char>) -> (r: bool)
    requires
        from <= v@.len(),
    ensures
        r == is_word(v@, from as int, word@),
{
    let n: usize = v.len();
    if n - from != word.len() {
        return false;
    }
    let mut i: usize = 0;
    while i < word.len()
        invariant
            from <= v@.len(),
            n == v@.len(),
            v@.len() - from == word@.len(),
            i <= word@.len(),
            forall|j: int| 0 <= j < i ==> lower(#[trigger] v@[from + j]) == word@[j],
        decreases word@.len() - i,
    {
        let c = v[from + i];
        let l: char = if 'A' <= c && c <= 'Z' {
            ((c as u8) + 32) as char
        } else {
            c
        };
        if l != word[i] {
            assert(lower(v@[from + i]) != word@[i as int]);
            return false;
        }
        i = i + 1;
    }
    true
}

/// The infinity or not-a-number that the text from `from` on names.
fn read_name(v: &Vec<char>, from: usize, neg: bool) -> (r: Option<Double>)
    requires
        from <= v@.len(),
    ensures
        ({
            let infinite = is_word(v@, from as int, seq!['i', 'n', 'f']) || is_word(
                v@,
                from as int,
                seq!['i', 'n', 'f', 'i', 'n', 'i', 't', 'y'],
            );
            r == (if infinite {
                Some(make(neg, INF as int))
            } else if is_word(v@, from as int, seq!['n', 'a', 'n']) {
                Some(nan())
            } else {
                None
            })
        }),
{
    let inf: Vec<char> = vec!['i', 'n', 'f'];
    let infinity: Vec<char> = vec!['i', 'n', 'f', 'i', 'n', 'i', 't', 'y'];
    let nan: Vec<char> = vec!['n', 'a', 'n'];
    assert(inf@ == seq!['i', 'n', 'f']);
    assert(infinity@ == seq!['i', 'n', 'f', 'i', 'n', 'i', 't', 'y']);
    assert(nan@ == seq!['n', 'a', 'n']);
    if matches_word(v, from, &inf) || matches_word(v, from, &infinity) {
        return Some(Double::with_sign(neg, INF));
    }
    if matches_word(v, from, &nan) {
        return Some(Double { bits: NAN });
    }
    None
}

/// The digits before and after the point.
fn gather(v: &Vec<char>, from: usize, dot: usize, tail: usize, end: usize) -> (ds: Vec<char>)
    requires
        from <= dot <= tail <= end <= v@.len(),
        all_digits(v@.subrange(from as int, dot as int)),
        all_digits(v@.subrange(tail as int, end as int)),
    ensures
        ds@ == v@.subrange(from as int, dot as int) + v@.subrange(tail as int, end as int),
        all_digits(ds@),
{
    let mut ds: Vec<char> = Vec::new();
    let mut i: usize = from;
    while i < dot
        invariant
            from <= i <= dot <= v@.len(),
            ds@ == v@.subrange(from as int, i as int),
        decreases dot - i,
    {
        ds.push(v[i]);
        i = i + 1;
    }
    let ghost head = ds@;
    i = tail;
    while i < end
        invariant
            tail <= i <= end <= v@.len(),
            ds@ == head + v@.subrange(tail as int, i as int),
        decreases end - i,
    {
        ds.push(v[i]);
        i = i + 1;
    }
    ds
}

/// The double that a text writes, if it writes one.
pub fn read_double(s: &str) -> (r: Option<Double>)
    ensures
        r == read(s@),
{
    let v = chars_of(s);
    let mut from: usize = 0;
    let mut neg = false;
    if v.len() > 0 && (v[0] == '-' || v[0] == '+') {
        neg = v[0] == '-';
        from = 1;
    }
    if let Some(x) = read_name(&v, from, neg) {
        return Some(x);
    }
    let dot = digit_end(&v, from);
    let mut end: usize = dot;
    let mut places: usize = 0;
    if dot < v.len() && v[dot] == '.' {
        end = digit_end(&v, dot + 1);
        places = end - (dot + 1);
    }
    if dot == from && places == 0 {
        return None;
    }
    match read_exponent(&v, end) {
        None => None,
        Some(x) => {
            let ghost exact = exponent(v@, end as int)->0 - places;
            assert(places == 0 ==> v@.subrange(end - places, end as int) == Seq::<char>::empty());
            let ds = gather(&v, from, dot, end - places, end);
            let u = nearest_decimal(&ds, x - places as i128, Ghost(exact));
            Some(Double::with_sign(neg, u))
        },
    }
}

/// The double nearest to ten to the power of a number of decimals, the number being read as
/// a signed one.
pub open spec fn tens(places: u32) -> Double {
    decimal(false, 1, if places < 0x8000_0000 { places as int } else { places - 0x1_0000_0000 })
}

/// The double nearest to ten to the power of a number of decimals.
pub fn power_of_ten(places: u32) -> (r: Double)
    ensures
        r == tens(places),
{
    let one: Vec<char> = vec!['1'];
    let k: i128 = if places < 0x8000_0000 {
        places as i128
    } else {
        places as i128 - 0x1_0000_0000
    };
    proof {
        assert(one@.drop_last() == Seq::<char>::empty());
        assert(number(one@) == 1) by {
            reveal_with_fuel(number, 2);
        }
    }
    let u = nearest_decimal(&one, k, Ghost(k as int));
    Double::with_sign(false, u)
}

} // verus!
