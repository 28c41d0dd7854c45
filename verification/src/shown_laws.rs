//! What holds of what is shown to and heard from people: of colours, rates and running times, of the
//! order of names, of clocks and of keys.
use vstd::prelude::*;

use crate::api::authorized;
use crate::bounds::lemma_value;
use crate::console::precedes;
use crate::dashboard::{bias_tint, cost_tint, gain_tint, position_tint, rate, runtime_of, Tint};
use crate::double::{mag, of_int, one_unit, quotient, zero, Double};
use crate::market_laws::lemma_over_one;
use crate::matching_laws::positive;
use crate::order::{
    integers_are_exact, integers_keep_order, larger_divisors_leave_less, positive_integers,
    quotients_keep_order,
};
use crate::size_laws::over_itself;
use crate::text::digits;
use crate::types::{double_secs, whole_millis};

verus! {

// ---- colours -----------------------------------------------------------------------------------------

/// How much a colour warns.
pub open spec fn warning(t: Tint) -> int {
    match t {
        Tint::Green => 0,
        Tint::Yellow => 1,
        _ => 2,
    }
}

/// A position and its opposite have opposite colours, long ones that of gains, unless they are too small
/// to be coloured; and so have biases. A gain is coloured otherwise than the loss of as much.
pub proof fn opposites_have_opposite_colours(x: Double)
    requires
        x.is_finite(),
    ensures
        position_tint(x) == Tint::DarkGray <==> position_tint(x.negated()) == Tint::DarkGray,
        zero().less(x) && position_tint(x) != Tint::DarkGray ==> position_tint(x) == gain_tint(x)
            && position_tint(x.negated()) == gain_tint(x.negated()),
        zero().less(x) ==> gain_tint(x) == Tint::Green && gain_tint(x.negated()) == Tint::Red,
        bias_tint(x) == Tint::Green <==> bias_tint(x.negated()) == Tint::Red,
        bias_tint(x) == Tint::Yellow <==> bias_tint(x.negated()) == Tint::Yellow,
        bias_tint(of_int(1)) == Tint::Green,
{
    assert(mag(0) == 0);
    integers_are_exact(1);
    crate::bounds::lemma_ratio(1, 10);
    crate::bounds::lemma_ratio(1, 1000);
    lemma_value(x);
    lemma_value(x.negated());
    lemma_value(x.magnitude());
    lemma_value(x.negated().magnitude());
    lemma_value(quotient(1, 10));
    lemma_value(quotient(1, 10).negated());
    lemma_value(of_int(1));
    crate::ticks::lemma_room();
    assert(quotient(1, 10).value() < one_unit());
}

/// Higher costs never warn less: below a hundred not at all, from two hundred on in full.
pub proof fn costs_warn(a: Double, b: Double)
    requires
        a.at_most(b),
    ensures
        warning(cost_tint(a)) <= warning(cost_tint(b)),
        a.value() < 100 * one_unit() ==> cost_tint(a) == Tint::Green,
        b.value() >= 200 * one_unit() ==> cost_tint(b) == Tint::Red,
        100 * one_unit() <= a.value() < 200 * one_unit() ==> cost_tint(a) == Tint::Yellow,
{
    integers_are_exact(100);
    integers_are_exact(200);
    lemma_value(a);
    lemma_value(b);
}

// ---- rates and running times --------------------------------------------------------------------------

/// A quotient of whole numbers is the double nearest to it.
proof fn lemma_whole_ratio(p: nat, q: nat)
    requires
        1 <= p <= 0xffff_ffff,
        1 <= q <= 0xffff_ffff,
    ensures
        of_int(p as int).over(of_int(q as int)) == quotient(p, q),
        positive(quotient(p, q)),
{
    let u = one_unit();
    vstd::arithmetic::power2::lemma_pow2_pos(crate::double::UNIT as nat);
    assert(mag(0) == 0);
    integers_are_exact(p);
    integers_are_exact(q);
    positive_integers(p);
    positive_integers(q);
    lemma_value(of_int(p as int));
    lemma_value(of_int(q as int));
    crate::order::lemma_extended(p * u, q, u);
    crate::bounds::lemma_ratio(p, q);
    lemma_value(quotient(p, q));
}

/// What came in one unit of time is its rate; more of it in the same time is no lower rate, and the same
/// in a longer time no higher one. Before any time has passed there is no rate.
pub proof fn rates_are_per_unit(x: Double, y: Double, e1: u64, e2: u64, unit: int)
    requires
        positive(x),
        positive(y),
        x.at_most(y),
        1 <= unit <= 0xffff_ffff,
        1 <= e1 <= e2 <= 0xffff_ffff,
        !rate(x, e1, unit).is_nan(),
        !rate(y, e1, unit).is_nan(),
        !rate(x, e2, unit).is_nan(),
    ensures
        rate(x, unit as u64, unit) == x,
        rate(x, e1, unit).at_most(rate(y, e1, unit)),
        rate(x, e2, unit).at_most(rate(x, e1, unit)),
        rate(x, 0, unit) == zero(),
{
    assert(mag(0) == 0);
    lemma_value(x);
    lemma_value(y);
    positive_integers(unit as nat);
    positive_integers(e1 as nat);
    positive_integers(e2 as nat);
    integers_are_exact(unit as nat);
    let u = of_int(unit);
    over_itself(u);
    lemma_over_one(x);
    let t1 = of_int(e1 as int).over(u);
    let t2 = of_int(e2 as int).over(u);
    lemma_whole_ratio(e1 as nat, unit as nat);
    lemma_whole_ratio(e2 as nat, unit as nat);
    integers_keep_order(e1 as int, e2 as int);
    quotients_keep_order(of_int(e1 as int), of_int(e2 as int), u);
    quotients_keep_order(x, y, t1);
    larger_divisors_leave_less(x, t1, t2);
}

/// A running time is told in hours, where there are any, minutes and seconds.
pub proof fn running_times_add_up(hours: u64, minutes: u64, seconds: u64)
    requires
        hours <= 0xffff_ffff,
        minutes < 60,
        seconds < 60,
    ensures
        runtime_of((3600 * hours + 60 * minutes + seconds) as u64) == (if hours > 0 {
            digits(hours as nat) + "h"@
        } else {
            Seq::empty()
        }) + digits(minutes as nat) + "m"@ + digits(seconds as nat) + "s"@,
{
    let e = (3600 * hours + 60 * minutes + seconds) as u64;
    assert(e / 3600 == hours && e % 3600 == 60 * minutes + seconds);
    assert(e % 3600 / 60 == minutes);
    assert(e % 60 == seconds);
    let tail = digits(minutes as nat) + "m"@ + digits(seconds as nat) + "s"@;
    assert(runtime_of(e) =~= (if hours > 0 {
        digits(hours as nat) + "h"@
    } else {
        Seq::empty()
    }) + digits(minutes as nat) + "m"@ + digits(seconds as nat) + "s"@);
}

// ---- names ---------------------------------------------------------------------------------------------

/// Names are in the order of a dictionary: a name comes before those that it begins, and where two names
/// first differ the lesser letter comes first.
pub proof fn names_are_in_the_order_of_a_dictionary(
    start: Seq<char>,
    a: char,
    b: char,
    s: Seq<char>,
    t: Seq<char>,
)
    requires
        a != b,
    ensures
        precedes(start + seq![a] + s, start + seq![b] + t) <==> a < b,
        precedes(start, start + s),
        s.len() > 0 ==> !precedes(start + s, start),
    decreases start.len(),
{
    let x = start + seq![a] + s;
    let y = start + seq![b] + t;
    if start.len() == 0 {
        assert(x[0] == a && y[0] == b);
    } else {
        let rest = start.skip(1);
        names_are_in_the_order_of_a_dictionary(rest, a, b, s, t);
        assert(x[0] == start[0] && y[0] == start[0]);
        assert(x.skip(1) =~= rest + seq![a] + s);
        assert(y.skip(1) =~= rest + seq![b] + t);
        assert((start + s)[0] == start[0]);
        assert((start + s).skip(1) =~= rest + s);
    }
}

// ---- clocks and keys -----------------------------------------------------------------------------------

/// A clock in milliseconds counts a thousand for each second, and never runs backwards; whole seconds are
/// told exactly.
pub proof fn clocks_count_seconds(s1: u64, n1: u32, s2: u64, n2: u32)
    requires
        n1 < 1_000_000_000,
        n2 < 1_000_000_000,
        s1 < s2 || (s1 == s2 && n1 <= n2),
    ensures
        1000 * s1 <= whole_millis(s1, n1) < 1000 * s1 + 1000,
        whole_millis(s1, n1) <= whole_millis(s2, n2),
        1_000_000 * (whole_millis(s1, n1) - 1000 * s1) <= n1,
        n1 < 1_000_000 * (whole_millis(s1, n1) - 1000 * s1 + 1),
        1 <= s1 <= 0xffff_ffff ==> double_secs(s1, 0).value() == s1 * one_unit(),
{
    if 1 <= s1 <= 0xffff_ffff {
        assert(mag(0) == 0);
        integers_are_exact(s1 as nat);
        positive_integers(s1 as nat);
        positive_integers(1_000_000_000);
        integers_are_exact(1_000_000_000);
        integers_are_exact(0);
        let a = of_int(s1 as int);
        let z = of_int(0);
        lemma_value(a);
        lemma_value(z);
        lemma_value(of_int(1_000_000_000));
        crate::order::lemma_zero_quotient(z, of_int(1_000_000_000));
        let q = z.over(of_int(1_000_000_000));
        lemma_value(q);
        crate::order::lemma_plus_value(a, q);
        crate::order::lemma_rounding_exact(a.index());
        crate::order::lemma_rounded(false, mag(a.index()), 1);
    }
}

/// The key opens, and no header opens two keys.
pub proof fn headers_open_one_key(header: Seq<char>, a: Seq<char>, b: Seq<char>)
    ensures
        authorized(Some("Bearer "@ + a), a),
        authorized(Some(header), a) && authorized(Some(header), b) ==> a == b,
        !authorized(None, a),
{
    let k = "Bearer "@.len() as int;
    assert(("Bearer "@ + a).skip(k) =~= a);
    assert(("Bearer "@ + b).skip(k) =~= b);
}

} // verus!
