//! What the exchange reads of a number that was sent to it.
use vstd::arithmetic::div_mod::{lemma_fundamental_div_mod, lemma_mod_bound};
use vstd::arithmetic::power2::lemma_pow2_pos;
use vstd::prelude::*;

use crate::decimal::{fixed, half_even, lemma_ten_pos, ten};
use crate::double::{mag, one_unit, Double, UNIT};
use crate::exchange::{chopped, stripped, wire};
use crate::parse::{
    after_sign, all_digits, decimal, digit_run, is_digit, is_word, lower, number, read, scientific,
};
use crate::text::{digit_char, digits, padded};

verus! {

// ---- digits ---------------------------------------------------------------------------------------

proof fn lemma_digit(d: nat)
    requires
        d < 10,
    ensures
        is_digit(digit_char(d)),
        digit_char(d) as nat == 48 + d,
        digit_char(d) == '0' <==> d == 0,
{
}

/// The digits of a number write it.
proof fn lemma_digits(n: nat)
    ensures
        all_digits(digits(n)),
        number(digits(n)) == n,
        digits(n).len() >= 1,
        n == 0 ==> digits(n) == seq!['0'],
        n > 0 ==> digits(n)[0] != '0',
    decreases n,
{
    if n < 10 {
        lemma_digit(n);
        let s = digits(n);
        assert(s.drop_last() =~= Seq::<char>::empty());
        assert(number(s.drop_last()) == 0);
        assert(s.last() == digit_char(n));
    } else {
        lemma_digits(n / 10);
        lemma_digit(n % 10);
        let s = digits(n);
        assert(s.drop_last() =~= digits(n / 10));
        assert(s[0] == digits(n / 10)[0]);
    }
}

/// The last digits of a number, with leading zeros, write what is left of it.
proof fn lemma_padded(n: nat, k: nat)
    ensures
        all_digits(padded(n, k)),
        padded(n, k).len() == k,
        n < ten(k) ==> number(padded(n, k)) == n,
    decreases k,
{
    if k > 0 {
        lemma_padded(n / 10, (k - 1) as nat);
        lemma_digit(n % 10);
        let s = padded(n, k);
        assert(s.drop_last() =~= padded(n / 10, (k - 1) as nat));
    }
}

/// Digits that follow others shift them.
proof fn lemma_number_adds(s: Seq<char>, t: Seq<char>)
    requires
        all_digits(s),
        all_digits(t),
    ensures
        number(s + t) == number(s) * ten(t.len()) + number(t),
        all_digits(s + t),
    decreases t.len(),
{
    if t.len() == 0 {
        assert(s + t =~= s);
        assert(number(s) * 1 == number(s));
    } else {
        let d = t.drop_last();
        assert(all_digits(d));
        lemma_number_adds(s, d);
        assert((s + t).drop_last() =~= s + d);
        assert((s + t).last() == t.last());
        assert(10 * (number(s) * ten(d.len())) == number(s) * (10 * ten(d.len())))
            by (nonlinear_arith);
    }
}

/// Zeros at the end scale what stands before them.
proof fn lemma_stripped_number(s: Seq<char>)
    requires
        all_digits(s),
    ensures
        stripped(s, '0').len() <= s.len(),
        all_digits(stripped(s, '0')),
        number(s) == number(stripped(s, '0')) * ten((s.len() - stripped(s, '0').len()) as nat),
        stripped(s, '0').len() > 0 ==> stripped(s, '0').last() != '0',
    decreases s.len(),
{
    if s.len() > 0 && s.last() == '0' {
        let d = s.drop_last();
        assert(all_digits(d));
        lemma_stripped_number(d);
        let t = stripped(s, '0');
        let k = (d.len() - t.len()) as nat;
        assert(number(s) == 10 * number(d));
        assert(10 * (number(t) * ten(k)) == number(t) * (10 * ten(k))) by (nonlinear_arith);
    } else {
        assert(number(s) * 1 == number(s));
    }
}

/// Stripping stops at what does not end in a zero.
proof fn lemma_stripped_after(s: Seq<char>, t: Seq<char>)
    requires
        s.len() > 0,
        s.last() != '0',
    ensures
        stripped(s + t, '0') == s + stripped(t, '0'),
    decreases t.len(),
{
    if t.len() == 0 {
        assert(s + t =~= s);
        assert(s + stripped(t, '0') =~= s);
    } else if t.last() == '0' {
        lemma_stripped_after(s, t.drop_last());
        assert((s + t).drop_last() =~= s + t.drop_last());
        assert((s + t).last() == '0');
    } else {
        assert((s + t).last() == t.last());
    }
}

/// A run of digits ends where they do.
proof fn lemma_run(s: Seq<char>, from: int, to: int)
    requires
        0 <= from <= to <= s.len(),
        forall|i: int| from <= i < to ==> is_digit(#[trigger] s[i]),
        to < s.len() ==> !is_digit(s[to]),
    ensures
        digit_run(s, from) == to - from,
    decreases to - from,
{
    if from < to {
        assert(is_digit(s[from]));
        lemma_run(s, from + 1, to);
    }
}

// ---- a number on the wire ----------------------------------------------------------------------------

/// A number with a sign, whole digits, and after a point, if any are left, more digits.
spec fn spelled(neg: bool, whole: Seq<char>, part: Seq<char>) -> Seq<char> {
    let head = if neg {
        seq!['-'] + whole
    } else {
        whole
    };
    if part.len() == 0 {
        head
    } else {
        head + seq!['.'] + part
    }
}

/// What such a text spells.
proof fn lemma_spelled(neg: bool, whole: Seq<char>, part: Seq<char>)
    requires
        all_digits(whole),
        all_digits(part),
        whole.len() >= 1,
    ensures
        ({
            let s = spelled(neg, whole, part);
            &&& after_sign(s, 0) == (if neg {
                1int
            } else {
                0
            })
            &&& (s[0] == '-') == neg
            &&& is_digit(s[after_sign(s, 0)])
            &&& scientific(s, after_sign(s, 0)) == Some(
                (number(whole + part), -(part.len() as int)),
            )
        }),
{
    let s = spelled(neg, whole, part);
    let start: int = if neg {
        1
    } else {
        0
    };
    let dot = start + whole.len();
    assert(is_digit(whole[0]));
    assert(s[start] == whole[0]);
    assert forall|i: int| start <= i < dot implies is_digit(#[trigger] s[i]) by {
        assert(s[i] == whole[i - start]);
    }
    if part.len() > 0 {
        assert(s[dot] == '.');
        assert(s.len() == dot + 1 + part.len());
        assert forall|i: int| dot + 1 <= i < s.len() implies is_digit(#[trigger] s[i]) by {
            assert(s[i] == part[i - dot - 1]);
        }
        lemma_run(s, dot + 1, s.len() as int);
        assert(s.subrange(dot + 1, s.len() as int) =~= part);
    } else {
        assert(s.subrange(dot, dot) =~= part);
    }
    lemma_run(s, start, dot);
    assert(s.subrange(start, dot) =~= whole);
}

/// The parts of what is sent of a finite number: the whole digits, and those after the point
/// without the zeros at the end.
proof fn lemma_wire_parts(x: Double)
    requires
        x.is_finite(),
    ensures
        ({
            let n = half_even(mag(x.index()) * ten(8), one_unit());
            let whole = digits(n / ten(8));
            let part = stripped(padded(n % ten(8), 8), '0');
            wire(x) == spelled(x.neg() && n != 0, whole, part)
        }),
{
    let n = half_even(mag(x.index()) * ten(8), one_unit());
    let q = n / ten(8);
    let r = n % ten(8);
    let whole = digits(q);
    let all = padded(r, 8);
    let part = stripped(all, '0');
    lemma_ten_pos(8);
    lemma_fundamental_div_mod(n as int, ten(8) as int);
    lemma_mod_bound(n as int, ten(8) as int);
    lemma_digits(q);
    lemma_padded(r, 8);
    lemma_stripped_number(all);
    let head = if x.neg() {
        seq!['-'] + whole
    } else {
        whole
    };
    let front = head + seq!['.'];
    assert(fixed(x, 8) =~= front + all);
    assert(front.last() == '.');
    lemma_stripped_after(front, all);
    let s = stripped(fixed(x, 8), '0');
    assert(s == front + part);
    let c = chopped(s, '.');
    if part.len() == 0 {
        assert(s =~= front);
        assert(c =~= head);
        assert(number(part) == 0);
        assert(r == 0) by (nonlinear_arith)
            requires
                r == number(part) * ten((8 - part.len()) as nat),
                number(part) == 0,
        ;
        reveal_strlit("-0");
        reveal_strlit("0");
        if n == 0 {
            assert(q == 0) by (nonlinear_arith)
                requires
                    n == ten(8) * q + r,
                    n == 0,
                    ten(8) > 0,
                    r >= 0,
            ;
            assert(whole =~= seq!['0']);
            if x.neg() {
                assert(c =~= "-0"@);
                assert("0"@ =~= whole);
            } else {
                assert(c.len() == 1);
                assert(c != "-0"@);
            }
        } else {
            assert(q > 0) by (nonlinear_arith)
                requires
                    n == ten(8) * q + r,
                    n > 0,
                    r == 0,
            ;
            assert(c != "-0"@) by {
                if c == "-0"@ {
                    assert(c[1] == '0');
                    if x.neg() {
                        assert(c[1] == whole[0]);
                    } else {
                        assert(c[0] == '-');
                        assert(is_digit(whole[0]));
                    }
                }
            }
        }
    } else {
        assert(s.last() == part.last());
        assert(is_digit(part[part.len() - 1]));
        assert(c == s);
        assert(n != 0) by {
            if n == 0 {
                assert(r == 0);
                lemma_ten_pos((8 - part.len()) as nat);
                lemma_no_zeros(part, ten((8 - part.len()) as nat));
            }
        }
        reveal_strlit("-0");
        assert(s[front.len() - 1] == '.');
        assert(c != "-0"@) by {
            if c == "-0"@ {
                assert(c.len() == 2);
                assert(front.len() >= 2);
            }
        }
        assert(c =~= spelled(x.neg(), whole, part));
    }
}

/// Digits that do not end in a zero do not write zero.
proof fn lemma_no_zeros(s: Seq<char>, scale: nat)
    requires
        all_digits(s),
        s.len() > 0,
        s.last() != '0',
    ensures
        number(s) > 0,
        number(s) % 10 != 0,
        scale > 0 ==> number(s) * scale > 0,
{
    assert(is_digit(s[s.len() - 1]));
    assert(number(s) == 10 * number(s.drop_last()) + (s.last() as nat - 48));
    assert(scale > 0 ==> number(s) * scale > 0) by (nonlinear_arith)
        requires
            number(s) > 0,
    ;
}

/// Rounding to the nearest integer is off by a half at most.
proof fn lemma_half_even(n: nat, d: nat)
    requires
        d > 0,
    ensures
        2 * (half_even(n, d) * d) <= 2 * n + d,
        2 * n <= 2 * (half_even(n, d) * d) + d,
{
    let q = n / d;
    let r = n % d;
    lemma_fundamental_div_mod(n as int, d as int);
    lemma_mod_bound(n as int, d as int);
    assert((q + 1) * d == q * d + d) by (nonlinear_arith);
    assert(q * d == d * q) by (nonlinear_arith);
}

/// What is sent of a finite number reads back, as a decimal number, within half of the eighth
/// decimal: it is a number `d` over ten to the power of at most eight places, without a zero
/// at the end of them, and it has a sign only where it is negative.
pub proof fn wire_reads_back(x: Double)
    requires
        x.is_finite(),
    ensures
        ({
            let s = wire(x);
            &&& scientific(s, after_sign(s, 0)) matches Some((d, e)) && {
                &&& -8 <= e <= 0
                &&& e < 0 ==> d % 10 != 0
                &&& 2 * ((d * ten((8 + e) as nat)) * one_unit()) <= 2 * (mag(x.index()) * ten(8))
                    + one_unit()
                &&& 2 * (mag(x.index()) * ten(8)) <= 2 * ((d * ten((8 + e) as nat)) * one_unit())
                    + one_unit()
                &&& (s[0] == '-') == (x.neg() && d != 0)
                &&& read(s) == Some(decimal(x.neg() && d != 0, d, e))
            }
        }),
{
    let s = wire(x);
    let n = half_even(mag(x.index()) * ten(8), one_unit());
    let q = n / ten(8);
    let r = n % ten(8);
    let whole = digits(q);
    let all = padded(r, 8);
    let part = stripped(all, '0');
    let k = (8 - part.len()) as nat;
    let d = number(whole + part);
    lemma_pow2_pos(UNIT as nat);
    lemma_ten_pos(8);
    lemma_fundamental_div_mod(n as int, ten(8) as int);
    lemma_mod_bound(n as int, ten(8) as int);
    lemma_digits(q);
    lemma_padded(r, 8);
    lemma_stripped_number(all);
    lemma_wire_parts(x);
    lemma_spelled(x.neg() && n != 0, whole, part);
    lemma_number_adds(whole, part);
    lemma_half_even(mag(x.index()) * ten(8), one_unit());
    lemma_tens_split(part.len(), k);
    lemma_ten_pos(k);
    assert(d * ten(k) == n) by (nonlinear_arith)
        requires
            d == q * ten(part.len()) + number(part),
            r == number(part) * ten(k),
            n == ten(8) * q + r,
            ten(8) == ten(part.len()) * ten(k),
    ;
    assert(d == 0 <==> n == 0) by (nonlinear_arith)
        requires
            d * ten(k) == n,
            ten(k) > 0,
    ;
    if part.len() > 0 {
        lemma_no_zeros(part, 1);
        lemma_tens_end(part.len());
        let f = ten((part.len() - 1) as nat);
        assert(d == 10 * (q * f) + number(part)) by (nonlinear_arith)
            requires
                d == q * ten(part.len()) + number(part),
                ten(part.len()) == 10 * f,
        ;
    }
    lemma_read(s);
}

/// A text whose first character after the sign is a digit is read as a number.
proof fn lemma_read(s: Seq<char>)
    requires
        s.len() > 0,
        after_sign(s, 0) < s.len(),
        is_digit(s[after_sign(s, 0)]),
        scientific(s, after_sign(s, 0)) is Some,
    ensures
        ({
            let (d, e) = scientific(s, after_sign(s, 0))->0;
            read(s) == Some(decimal(s[0] == '-', d, e))
        }),
{
    let from = after_sign(s, 0);
    lemma_no_word(s, from, seq!['i', 'n', 'f']);
    lemma_no_word(s, from, seq!['i', 'n', 'f', 'i', 'n', 'i', 't', 'y']);
    lemma_no_word(s, from, seq!['n', 'a', 'n']);
}

proof fn lemma_no_word(s: Seq<char>, from: int, word: Seq<char>)
    requires
        0 <= from < s.len(),
        is_digit(s[from]),
        word.len() > 0,
        !is_digit(word[0]),
    ensures
        !is_word(s, from, word),
{
    if is_word(s, from, word) {
        assert(lower(s[from + 0]) == word[0]);
    }
}

proof fn lemma_tens_split(a: nat, b: nat)
    ensures
        ten(a + b) == ten(a) * ten(b),
    decreases a,
{
    if a > 0 {
        lemma_tens_split((a - 1) as nat, b);
        assert((10 * ten((a - 1) as nat)) * ten(b) == 10 * (ten((a - 1) as nat) * ten(b)))
            by (nonlinear_arith);
    } else {
        assert(1 * ten(b) == ten(b));
    }
}

proof fn lemma_tens_end(k: nat)
    requires
        k > 0,
    ensures
        ten(k) == 10 * ten((k - 1) as nat),
{
}

} // verus!
