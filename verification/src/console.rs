//! The text around a session in the terminal: the menu of tokens, and the summary at the end.
use vstd::prelude::*;

use crate::config::{Config, TokenEntry};
use crate::dashboard::{rt_summary, rt_text, showable};
use crate::decimal::{fixed, push_fixed};
use crate::double::{of_int, quotient, Double};
use crate::parse::{all_digits, is_digit, number};
use crate::text::{chars_of, digits, push_u64, same_text, trim, trimmed};
use crate::types::{share, texts, MmState, Stats};

verus! {

// ---- the menu --------------------------------------------------------------------------------------

/// A text comes before another, or is the same: by the first character in which they differ,
/// a shorter text before its continuations.
pub open spec fn precedes(a: Seq<char>, b: Seq<char>) -> bool
    decreases a.len(),
{
    if a.len() == 0 {
        true
    } else if b.len() == 0 {
        false
    } else if a[0] == b[0] {
        precedes(a.skip(1), b.skip(1))
    } else {
        a[0] < b[0]
    }
}

/// Some texts stand in order.
pub open spec fn ordered(s: Seq<Seq<char>>) -> bool {
    forall|i: int, j: int| 0 <= i <= j < s.len() ==> precedes(s[i], s[j])
}

/// Of two texts one comes before the other.
pub proof fn lemma_precedes_total(a: Seq<char>, b: Seq<char>)
    ensures
        precedes(a, b) || precedes(b, a),
    decreases a.len(),
{
    if a.len() > 0 && b.len() > 0 && a[0] == b[0] {
        lemma_precedes_total(a.skip(1), b.skip(1));
    }
}

/// What comes before a text that comes before another comes before that one.
pub proof fn lemma_precedes_transitive(a: Seq<char>, b: Seq<char>, c: Seq<char>)
    requires
        precedes(a, b),
        precedes(b, c),
    ensures
        precedes(a, c),
    decreases a.len(),
{
    if a.len() > 0 && b.len() > 0 && c.len() > 0 && a[0] == b[0] && b[0] == c[0] {
        lemma_precedes_transitive(a.skip(1), b.skip(1), c.skip(1));
    }
}

fn comes_first(a: &str, b: &str) -> (r: bool)
    ensures
        r == precedes(a@, b@),
{
    let x = chars_of(a);
    let y = chars_of(b);
    let mut i: usize = 0;
    assert(x@.skip(0) == x@);
    assert(y@.skip(0) == y@);
    while i < x.len() && i < y.len()
        invariant
            x@ == a@,
            y@ == b@,
            i <= x@.len(),
            i <= y@.len(),
            precedes(a@, b@) == precedes(x@.skip(i as int), y@.skip(i as int)),
        decreases x@.len() - i,
    {
        assert(x@.skip(i as int)[0] == x@[i as int]);
        assert(y@.skip(i as int)[0] == y@[i as int]);
        assert(x@.skip(i as int).skip(1) == x@.skip(i + 1));
        assert(y@.skip(i as int).skip(1) == y@.skip(i + 1));
        if x[i] != y[i] {
            return x[i] < y[i];
        }
        i = i + 1;
    }
    i == x.len()
}

/// The names of some tokens.
pub open spec fn names_of(tokens: Seq<TokenEntry>) -> Seq<Seq<char>> {
    tokens.map_values(|t: TokenEntry| t.name@)
}

fn insert_name(v: &mut Vec<String>, name: String)
    requires
        ordered(texts(old(v)@)),
    ensures
        ordered(texts(final(v)@)),
        texts(final(v)@).to_multiset() == texts(old(v)@).to_multiset().insert(name@),
        final(v)@.len() == old(v)@.len() + 1,
{
    let ghost before = texts(v@);
    let ghost n = name@;
    let mut i: usize = 0;
    while i < v.len() && comes_first(v[i].as_str(), name.as_str())
        invariant
            before == texts(v@),
            n == name@,
            v@ == old(v)@,
            i <= v@.len(),
            forall|k: int| 0 <= k < i ==> precedes(#[trigger] before[k], n),
        decreases v@.len() - i,
    {
        assert(before[i as int] == v@[i as int]@);
        i = i + 1;
    }
    proof {
        if i < v@.len() {
            assert(before[i as int] == v@[i as int]@);
            lemma_precedes_total(before[i as int], n);
            assert forall|k: int| i <= k < before.len() implies precedes(
                n,
                #[trigger] before[k],
            ) by {
                lemma_precedes_transitive(n, before[i as int], before[k]);
            }
        }
        lemma_precedes_total(n, n);
    }
    v.insert(i, name);
    proof {
        assert(texts(v@) =~= before.insert(i as int, n));
        before.insert_ensures(i as int, n);
        broadcast use vstd::seq_lib::group_to_multiset_ensures;

        assert(before.insert(i as int, n).to_multiset() =~= before.to_multiset().insert(n));
        let after = texts(v@);
        assert forall|a: int, b: int| 0 <= a <= b < after.len() implies precedes(
            after[a],
            after[b],
        ) by {
            let x = if a < i {
                a
            } else {
                a - 1
            };
            let y = if b < i {
                b
            } else {
                b - 1
            };
            if a != i && b != i {
                assert(precedes(before[x], before[y]));
            } else if a == i && b != i {
                assert(precedes(n, before[y]));
            } else if b == i && a != i {
                assert(precedes(before[x], n));
            }
        }
    }
}

/// The names of some tokens, in order.
pub fn sorted_names(tokens: &Vec<TokenEntry>) -> (r: Vec<String>)
    ensures
        ordered(texts(r@)),
        texts(r@).to_multiset() == names_of(tokens@).to_multiset(),
        r@.len() == tokens@.len(),
{
    let mut r: Vec<String> = Vec::new();
    let mut i: usize = 0;
    let ghost all = names_of(tokens@);
    proof {
        broadcast use vstd::seq_lib::group_to_multiset_ensures;

        assert(texts(r@) =~= Seq::<Seq<char>>::empty());
        assert(all.take(0) =~= Seq::<Seq<char>>::empty());
    }
    while i < tokens.len()
        invariant
            all == names_of(tokens@),
            i <= tokens@.len(),
            r@.len() == i,
            ordered(texts(r@)),
            texts(r@).to_multiset() == all.take(i as int).to_multiset(),
        decreases tokens@.len() - i,
    {
        insert_name(&mut r, tokens[i].name.clone());
        proof {
            broadcast use vstd::seq_lib::group_to_multiset_ensures;

            assert(all.take(i + 1) =~= all.take(i as int).push(all[i as int]));
        }
        i = i + 1;
    }
    assert(all.take(all.len() as int) =~= all);
    r
}

/// What was chosen from the menu.
#[derive(Clone, Copy, Debug, PartialEq, Eq, Structural)]
pub enum Choice {
    /// Nothing: the default token.
    Default,
    Quit,
    /// The token at the given place, from zero on.
    Token(usize),
    Invalid,
}

/// The digits of a number that may start with a plus sign.
pub open spec fn unsigned_part(s: Seq<char>) -> Seq<char> {
    if s.len() > 0 && s[0] == '+' {
        s.skip(1)
    } else {
        s
    }
}

/// What an input chooses from a menu of `n` entries, which are counted from one.
pub open spec fn choice_of(input: Seq<char>, n: nat) -> Choice {
    let s = trimmed(input);
    let d = unsigned_part(s);
    if s.len() == 0 {
        Choice::Default
    } else if s == "q"@ {
        Choice::Quit
    } else if d.len() > 0 && all_digits(d) && 1 <= number(d) <= n {
        Choice::Token((number(d) - 1) as usize)
    } else {
        Choice::Invalid
    }
}

proof fn lemma_number_grows(s: Seq<char>, n: int)
    requires
        0 <= n <= s.len(),
        all_digits(s),
    ensures
        number(s.take(n)) <= number(s),
    decreases s.len() - n,
{
    if n < s.len() {
        lemma_number_grows(s, n + 1);
        assert(s.take(n + 1).drop_last() =~= s.take(n));
        assert(s.take(n + 1).last() == s[n]);
        assert(is_digit(s[n]));
    } else {
        assert(s.take(n) =~= s);
    }
}

/// The number that some digits spell, from the place `from` on, where it is at most `n`.
fn read_index(v: &Vec<char>, from: usize, n: usize) -> (r: Option<usize>)
    requires
        from <= v@.len(),
    ensures
        ({
            let d = v@.skip(from as int);
            match r {
                Some(k) => d.len() > 0 && all_digits(d) && number(d) == k && k <= n,
                None => d.len() == 0 || !all_digits(d) || number(d) > n,
            }
        }),
{
    let ghost d = v@.skip(from as int);
    if from == v.len() {
        return None;
    }
    let mut i: usize = from;
    let mut k: u128 = 0;
    let mut big = false;
    assert(d.take(0) =~= Seq::<char>::empty());
    while i < v.len()
        invariant
            d == v@.skip(from as int),
            from <= i <= v@.len(),
            forall|j: int| 0 <= j < i - from ==> is_digit(#[trigger] d[j]),
            !big ==> k == number(d.take(i - from)) && k <= n,
            big ==> number(d.take(i - from)) > n,
        decreases v@.len() - i,
    {
        let c = v[i];
        assert(d[i - from] == c);
        if !(c >= '0' && c <= '9') {
            assert(!is_digit(d[i - from]));
            return None;
        }
        assert(d.take(i + 1 - from).drop_last() =~= d.take(i - from));
        assert(d.take(i + 1 - from).last() == c);
        if !big {
            k = k * 10 + (c as u32 - 48) as u128;
            if k > n as u128 {
                big = true;
            }
        }
        i = i + 1;
    }
    assert(d.take(d.len() as int) =~= d);
    assert(all_digits(d));
    if big {
        None
    } else {
        Some(k as usize)
    }
}

/// What an input chooses from a menu of `n` entries.
pub fn menu_choice(input: &str, n: usize) -> (r: Choice)
    ensures
        r == choice_of(input@, n as nat),
{
    let s = trim(input);
    let v = chars_of(s.as_str());
    if v.len() == 0 {
        return Choice::Default;
    }
    if same_text(s.as_str(), "q") {
        return Choice::Quit;
    }
    let from: usize = if v[0] == '+' {
        1
    } else {
        0
    };
    assert(v@.skip(from as int) =~= unsigned_part(v@));
    match read_index(&v, from, n) {
        Some(k) => {
            if k >= 1 {
                Choice::Token(k - 1)
            } else {
                Choice::Invalid
            }
        },
        None => Choice::Invalid,
    }
}

/// A number of spaces.
pub open spec fn spaces(n: int) -> Seq<char> {
    Seq::new(
        if n > 0 {
            n as nat
        } else {
            0
        },
        |i: int| ' ',
    )
}

fn push_spaces(s: &mut String, n: usize)
    ensures
        final(s)@ == old(s)@ + spaces(n as int),
{
    let mut i: usize = 0;
    while i < n
        invariant
            i <= n,
            s@ == old(s)@ + spaces(i as int),
        decreases n - i,
    {
        s.push(' ');
        assert(s@ =~= old(s)@ + spaces(i + 1));
        i = i + 1;
    }
}

/// An entry of the menu: its number at the right of two places, the symbol at the left of
/// fifteen, the leverage and the order size.
pub open spec fn menu_text(n: u64, symbol: Seq<char>, leverage: Seq<char>, size: Seq<char>) -> Seq<char> {
    "  ["@ + spaces(2 - digits(n as nat).len()) + digits(n as nat) + "] "@ + symbol + spaces(
        15 - symbol.len(),
    ) + " Lev:"@ + leverage + "x  Size:$"@ + size
}

/// An entry of the menu; the leverage and the order size are given as they are written.
pub fn menu_line(n: u64, symbol: &str, leverage: &str, size: &str) -> (r: String)
    ensures
        r@ == menu_text(n, symbol@, leverage@, size@),
{
    let mut num = String::new();
    push_u64(&mut num, n);
    assert(num@ =~= digits(n as nat));
    let width: usize = chars_of(num.as_str()).len();
    let mut s = "  [".to_owned();
    if width < 2 {
        push_spaces(&mut s, 2 - width);
    }
    assert(s@ =~= "  ["@ + spaces(2 - digits(n as nat).len()));
    s.push_str(num.as_str());
    s.push_str("] ");
    s.push_str(symbol);
    let len: usize = chars_of(symbol).len();
    let ghost before = s@;
    if len < 15 {
        push_spaces(&mut s, 15 - len);
    }
    assert(s@ =~= before + spaces(15 - symbol@.len()));
    s.push_str(" Lev:");
    s.push_str(leverage);
    s.push_str("x  Size:$");
    s.push_str(size);
    s
}

// ---- the summary ----------------------------------------------------------------------------------------

/// The lines of the summary of a session that ran `elapsed` seconds.
pub open spec fn summary_of(symbol: Seq<char>, stats: Stats, reason: Seq<char>, elapsed: Double) -> Seq<
    Seq<char>,
> {
    let hours = elapsed.over(of_int(3600));
    let maker = share(stats.maker_fills, (stats.maker_fills + stats.taker_fills) as u64).times(
        of_int(100),
    );
    seq![
        "SESSION SUMMARY | "@ + symbol + " | "@ + reason,
        "Runtime     : "@ + fixed(hours, 2) + "h"@,
        "PnL         : $"@ + fixed(stats.session_pnl, 4) + " ($"@ + fixed(
            stats.session_pnl.over(hours.larger(quotient(1, 100))),
            4,
        ) + "/h)"@,
        "Round-trips : "@ + rt_text(stats),
        "Volume      : $"@ + fixed(stats.total_volume, 2) + " | Fees $"@ + fixed(
            stats.total_fees,
            4,
        ),
        "Cost/1M     : $"@ + fixed(stats.cost_per_million_spec(), 2),
        "Fills       : "@ + digits(stats.fills_count as nat) + " | Maker "@ + fixed(maker, 0)
            + "%"@,
    ]
}

fn push_text(v: &mut Vec<String>, s: String)
    ensures
        texts(final(v)@) == texts(old(v)@).push(s@),
{
    let ghost before = v@;
    let ghost t = s@;
    v.push(s);
    assert(texts(v@) =~= texts(before).push(t));
}

fn profit_line(stats: &Stats, hours: Double) -> (r: String)
    ensures
        r@ == "PnL         : $"@ + fixed(stats.session_pnl, 4) + " ($"@ + fixed(
            stats.session_pnl.over(hours.larger(quotient(1, 100))),
            4,
        ) + "/h)"@,
{
    let mut s = "PnL         : $".to_owned();
    push_fixed(&mut s, stats.session_pnl, 4);
    s.push_str(" ($");
    push_fixed(&mut s, stats.session_pnl.div(hours.max(Double::ratio(1, 100))), 4);
    s.push_str("/h)");
    s
}

/// The lines of the summary of a session that ran `elapsed` seconds.
pub fn summary_lines(config: &Config, state: &MmState, reason: &str, elapsed: Double) -> (r: Vec<
    String,
>)
    requires
        showable(state.stats),
    ensures
        texts(r@) == summary_of(config.token.symbol@, state.stats, reason@, elapsed),
{
    let stats = &state.stats;
    let hours = elapsed.div(Double::from_u64(3600));
    let mut lines: Vec<String> = Vec::new();
    let mut s = "SESSION SUMMARY | ".to_owned();
    s.push_str(config.token.symbol.as_str());
    s.push_str(" | ");
    s.push_str(reason);
    push_text(&mut lines, s);
    let mut s = "Runtime     : ".to_owned();
    push_fixed(&mut s, hours, 2);
    s.push_str("h");
    push_text(&mut lines, s);
    push_text(&mut lines, profit_line(stats, hours));
    let mut s = "Round-trips : ".to_owned();
    let rt = rt_summary(stats);
    s.push_str(rt.as_str());
    push_text(&mut lines, s);
    let mut s = "Volume      : $".to_owned();
    push_fixed(&mut s, stats.total_volume, 2);
    s.push_str(" | Fees $");
    push_fixed(&mut s, stats.total_fees, 4);
    push_text(&mut lines, s);
    let mut s = "Cost/1M     : $".to_owned();
    push_fixed(&mut s, stats.cost_per_million(), 2);
    push_text(&mut lines, s);
    let mut s = "Fills       : ".to_owned();
    push_u64(&mut s, stats.fills_count);
    s.push_str(" | Maker ");
    push_fixed(&mut s, stats.maker_ratio().mul(Double::from_u64(100)), 0);
    s.push_str("%");
    push_text(&mut lines, s);
    assert(texts(lines@) =~= summary_of(config.token.symbol@, state.stats, reason@, elapsed));
    lines
}

} // verus!
