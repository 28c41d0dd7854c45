//! Text as sequences of characters: building it, taking it apart, and writing
//! integers into it.
use vstd::prelude::*;

verus! {

/// `String::push`: the character is appended.
pub assume_specification[ String::push ](s: &mut String, c: char)
    ensures
        final(s)@ == old(s)@.push(c),
;

/// `String::push_str`: the text is appended.
pub assume_specification[ String::push_str ](s: &mut String, t: &str)
    ensures
        final(s)@ == old(s)@ + t@,
;

/// `str::eq`: two texts are equal when they hold the same characters.
pub assume_specification[ <str as PartialEq<str>>::eq ](a: &str, b: &str) -> (r: bool)
    ensures
        r == (a@ == b@),
;

/// The characters of a text.
pub fn chars_of(s: &str) -> (r: Vec<char>)
    ensures
        r@ == s@,
{
    let mut r: Vec<char> = Vec::new();
    for c in it: s.chars()
        invariant
            r@ == it.seq().take(it.index() as int),
            it.seq() == s@,
    {
        r.push(c);
        assert(it.seq().take(it.index() + 1) == it.seq().take(it.index() as int).push(c));
    }
    assert(s@.take(s@.len() as int) == s@);
    r
}

/// The text with the given characters.
pub fn string_of(v: &Vec<char>) -> (r: String)
    ensures
        r@ == v@,
{
    let mut r = String::new();
    for i in 0..v.len()
        invariant
            r@ == v@.take(i as int),
    {
        r.push(v[i]);
        assert(v@.take(i + 1) == v@.take(i as int).push(v@[i as int]));
    }
    assert(v@.take(v@.len() as int) == v@);
    r
}

/// Whether two texts are the same.
pub fn same_text(a: &str, b: &str) -> (r: bool)
    ensures
        r == (a@ == b@),
{
    *a == *b
}

pub open spec fn digit_char(d: nat) -> char {
    (48 + d) as char
}

/// The decimal digits of a number, without leading zeros.
pub open spec fn digits(n: nat) -> Seq<char>
    decreases n,
{
    if n < 10 {
        seq![digit_char(n)]
    } else {
        digits(n / 10).push(digit_char(n % 10))
    }
}

/// The last `k` decimal digits of a number, with leading zeros.
pub open spec fn padded(n: nat, k: nat) -> Seq<char>
    decreases k,
{
    if k == 0 {
        Seq::empty()
    } else {
        padded(n / 10, (k - 1) as nat).push(digit_char(n % 10))
    }
}

/// A signed number in decimal.
pub open spec fn signed_digits(n: int) -> Seq<char> {
    if n < 0 {
        seq!['-'] + digits((-n) as nat)
    } else {
        digits(n as nat)
    }
}

pub(crate) fn digit(d: u64) -> (c: char)
    requires
        d < 10,
    ensures
        c == digit_char(d as nat),
{
    match d {
        0 => '0',
        1 => '1',
        2 => '2',
        3 => '3',
        4 => '4',
        5 => '5',
        6 => '6',
        7 => '7',
        8 => '8',
        _ => '9',
    }
}

/// Appends a number in decimal.
pub fn push_u64(s: &mut String, n: u64)
    ensures
        final(s)@ == old(s)@ + digits(n as nat),
    decreases n,
{
    if n < 10 {
        s.push(digit(n));
        assert(s@ == old(s)@ + digits(n as nat));
    } else {
        push_u64(s, n / 10);
        let ghost mid = s@;
        s.push(digit(n % 10));
        assert(s@ == old(s)@ + digits(n as nat));
    }
}

/// Appends a signed number in decimal.
pub fn push_i32(s: &mut String, n: i32)
    ensures
        final(s)@ == old(s)@ + signed_digits(n as int),
{
    if n < 0 {
        s.push('-');
        push_u64(s, (-(n as i64)) as u64);
        assert(s@ == old(s)@ + signed_digits(n as int));
    } else {
        push_u64(s, n as u64);
    }
}

// ---- white space and case -----------------------------------------------------------

/// The characters that count as white space: those with the property White_Space in the Unicode
/// character database.
pub open spec fn white_space(c: char) -> bool {
    let n = c as u32;
    ||| 0x9 <= n <= 0xd
    ||| n == 0x20
    ||| n == 0x85
    ||| n == 0xa0
    ||| n == 0x1680
    ||| 0x2000 <= n <= 0x200a
    ||| 0x2028 <= n <= 0x2029
    ||| n == 0x202f
    ||| n == 0x205f
    ||| n == 0x3000
}

/// `char::is_whitespace`: whether the character has the property White_Space.
#[verifier::external_body]
pub(crate) fn is_white_space(c: char) -> (r: bool)
    ensures
        r == white_space(c),
{
    c.is_whitespace()
}

/// A text in lower case.
pub uninterp spec fn lowercase(s: Seq<char>) -> Seq<char>;

/// `str::to_lowercase`: the lower-case text is a function of the text.
#[verifier::external_body]
pub(crate) fn lower_text(s: &str) -> (r: String)
    ensures
        r@ == lowercase(s@),
{
    s.to_lowercase()
}

/// How many white space characters stand at the front.
pub open spec fn leading_space(s: Seq<char>) -> nat
    decreases s.len(),
{
    if s.len() > 0 && white_space(s[0]) {
        1 + leading_space(s.skip(1))
    } else {
        0
    }
}

/// The text without the white space at its end.
pub open spec fn trimmed_end(s: Seq<char>) -> Seq<char>
    decreases s.len(),
{
    if s.len() > 0 && white_space(s.last()) {
        trimmed_end(s.drop_last())
    } else {
        s
    }
}

/// The text without the white space at both ends.
pub open spec fn trimmed(s: Seq<char>) -> Seq<char> {
    trimmed_end(s.skip(leading_space(s) as int))
}

/// The text without the white space at both ends.
pub fn trim(s: &str) -> (r: String)
    ensures
        r@ == trimmed(s@),
{
    let v = chars_of(s);
    let mut i: usize = 0;
    assert(v@.skip(0) == v@);
    while i < v.len() && is_white_space(v[i])
        invariant
            i <= v@.len(),
            leading_space(v@) == i + leading_space(v@.skip(i as int)),
        decreases v@.len() - i,
    {
        assert(v@.skip(i as int).skip(1) == v@.skip(i + 1));
        i = i + 1;
    }
    assert(i < v@.len() ==> v@.skip(i as int)[0] == v@[i as int]);
    let mut r: Vec<char> = Vec::new();
    let start: usize = i;
    while i < v.len()
        invariant
            start <= i <= v@.len(),
            r@ == v@.subrange(start as int, i as int),
        decreases v@.len() - i,
    {
        r.push(v[i]);
        i = i + 1;
    }
    assert(v@.subrange(start as int, v@.len() as int) == v@.skip(start as int));
    let ghost body = r@;
    while r.len() > 0 && is_white_space(r[r.len() - 1])
        invariant
            trimmed_end(body) == trimmed_end(r@),
        decreases r@.len(),
    {
        let _ = r.pop();
    }
    string_of(&r)
}

// ---- parts of texts -------------------------------------------------------------------

/// `s` starts with `prefix`.
pub open spec fn has_prefix(s: Seq<char>, prefix: Seq<char>) -> bool {
    prefix.len() <= s.len() && s.take(prefix.len() as int) == prefix
}

/// Whether a text starts with another.
pub fn starts_with(s: &str, prefix: &str) -> (r: bool)
    ensures
        r == has_prefix(s@, prefix@),
{
    let v = chars_of(s);
    let p = chars_of(prefix);
    if p.len() > v.len() {
        return false;
    }
    let mut i: usize = 0;
    while i < p.len()
        invariant
            v@ == s@,
            p@ == prefix@,
            p@.len() <= v@.len(),
            i <= p@.len(),
            v@.take(i as int) == p@.take(i as int),
        decreases p@.len() - i,
    {
        if v[i] != p[i] {
            assert(v@.take(p@.len() as int)[i as int] != p@[i as int]);
            return false;
        }
        assert(v@.take(i + 1) == v@.take(i as int).push(v@[i as int]));
        assert(p@.take(i + 1) == p@.take(i as int).push(p@[i as int]));
        i = i + 1;
    }
    assert(p@.take(p@.len() as int) == p@);
    true
}

/// `s` ends with `suffix`.
pub open spec fn has_suffix(s: Seq<char>, suffix: Seq<char>) -> bool {
    suffix.len() <= s.len() && s.skip(s.len() - suffix.len()) == suffix
}

/// Some of the characters of a text.
fn cut(v: &Vec<char>, from: usize, to: usize) -> (r: Vec<char>)
    requires
        from <= to <= v@.len(),
    ensures
        r@ == v@.subrange(from as int, to as int),
{
    let mut r: Vec<char> = Vec::new();
    let mut i: usize = from;
    while i < to
        invariant
            from <= i <= to <= v@.len(),
            r@ == v@.subrange(from as int, i as int),
        decreases to - i,
    {
        r.push(v[i]);
        i = i + 1;
    }
    r
}

/// `part` stands in `s` at the place `at`.
pub open spec fn stands_at(s: Seq<char>, part: Seq<char>, at: int) -> bool {
    0 <= at && at + part.len() <= s.len() && s.subrange(at, at + part.len()) == part
}

/// Whether `part` stands in `v` at the place `at`.
fn stands(v: &Vec<char>, part: &Vec<char>, at: usize) -> (r: bool)
    ensures
        r == stands_at(v@, part@, at as int),
{
    if at > v.len() || part.len() > v.len() - at {
        return false;
    }
    let mut i: usize = 0;
    while i < part.len()
        invariant
            at + part@.len() <= v.len(),
            i <= part@.len(),
            forall|k: int| 0 <= k < i ==> v@[at + k] == part@[k],
        decreases part@.len() - i,
    {
        if v[at + i] != part[i] {
            assert(v@.subrange(at as int, at + part@.len())[i as int] != part@[i as int]);
            return false;
        }
        i = i + 1;
    }
    assert(v@.subrange(at as int, at + part@.len()) == part@);
    true
}

/// Whether a text ends with another.
pub fn ends_with(s: &str, suffix: &str) -> (r: bool)
    ensures
        r == has_suffix(s@, suffix@),
{
    let v = chars_of(s);
    let p = chars_of(suffix);
    if p.len() > v.len() {
        return false;
    }
    let at: usize = v.len() - p.len();
    assert(v@.subrange(at as int, v@.len() as int) == v@.skip(at as int));
    stands(&v, &p, at)
}

/// `part` stands somewhere in `s`.
pub open spec fn holds(s: Seq<char>, part: Seq<char>) -> bool {
    exists|at: int| stands_at(s, part, at)
}

/// Whether a text stands somewhere in another.
pub fn contains(s: &str, part: &str) -> (r: bool)
    ensures
        r == holds(s@, part@),
{
    let v = chars_of(s);
    let p = chars_of(part);
    let mut at: usize = 0;
    while at <= v.len()
        invariant
            v@ == s@,
            p@ == part@,
            at <= v@.len() + 1,
            forall|k: int| 0 <= k < at ==> !stands_at(v@, p@, k),
        decreases v@.len() + 1 - at,
    {
        if stands(&v, &p, at) {
            return true;
        }
        if at == v.len() {
            return false;
        }
        at = at + 1;
    }
    false
}

/// The first `n` characters of a text.
pub open spec fn front(s: Seq<char>, n: int) -> Seq<char> {
    if s.len() <= n {
        s
    } else {
        s.take(n)
    }
}

/// The first `n` characters of a text.
pub fn take_front(s: &str, n: usize) -> (r: String)
    ensures
        r@ == front(s@, n as int),
{
    let v = chars_of(s);
    let to: usize = if v.len() <= n {
        v.len()
    } else {
        n
    };
    let r = cut(&v, 0, to);
    assert(r@ == front(s@, n as int));
    string_of(&r)
}

/// The text without `prefix` at its front, however often that stands there.
pub open spec fn without_front(s: Seq<char>, prefix: Seq<char>) -> Seq<char>
    decreases s.len(),
{
    if 0 < prefix.len() && has_prefix(s, prefix) {
        without_front(s.skip(prefix.len() as int), prefix)
    } else {
        s
    }
}

/// The text without `prefix` at its front, however often that stands there.
pub fn strip_front(s: &str, prefix: &str) -> (r: String)
    ensures
        r@ == without_front(s@, prefix@),
{
    let v = chars_of(s);
    let p = chars_of(prefix);
    let mut i: usize = 0;
    assert(v@.skip(0) == v@);
    while p.len() > 0 && stands(&v, &p, i)
        invariant
            i <= v.len(),
            without_front(v@, p@) == without_front(v@.skip(i as int), p@),
        decreases v@.len() - i,
    {
        assert(v@.skip(i as int).take(p@.len() as int) == v@.subrange(i as int, i + p@.len()));
        assert(v@.skip(i as int).skip(p@.len() as int) == v@.skip(i + p@.len()));
        i = i + p.len();
    }
    proof {
        let rest = v@.skip(i as int);
        if has_prefix(rest, p@) {
            assert(rest.take(p@.len() as int) == v@.subrange(i as int, i + p@.len()));
        }
        assert(v@.subrange(i as int, v@.len() as int) == rest);
    }
    let r = cut(&v, i, v.len());
    string_of(&r)
}

/// The text after a prefix that stands at its front.
pub fn strip_first(s: &str, prefix: &str) -> (r: String)
    requires
        has_prefix(s@, prefix@),
    ensures
        r@ == s@.skip(prefix@.len() as int),
{
    let v = chars_of(s);
    let p = chars_of(prefix);
    let r = cut(&v, p.len(), v.len());
    assert(r@ == v@.skip(p@.len() as int));
    string_of(&r)
}

/// The text with each occurrence of `from` replaced by `to`, read from the front.
pub open spec fn replaced(s: Seq<char>, from: Seq<char>, to: Seq<char>) -> Seq<char>
    decreases s.len(),
{
    if s.len() == 0 || from.len() == 0 {
        s
    } else if has_prefix(s, from) {
        to + replaced(s.skip(from.len() as int), from, to)
    } else {
        seq![s[0]] + replaced(s.skip(1), from, to)
    }
}

/// The text with each occurrence of `from` replaced by `to`.
pub fn replace(s: &str, from: &str, to: &str) -> (r: String)
    requires
        from@.len() > 0,
    ensures
        r@ == replaced(s@, from@, to@),
{
    let v = chars_of(s);
    let p = chars_of(from);
    let mut r = String::new();
    let mut i: usize = 0;
    assert(v@.skip(0) == v@);
    assert(r@ + replaced(v@.skip(0), from@, to@) == replaced(s@, from@, to@));
    while i < v.len()
        invariant
            v@ == s@,
            p@ == from@,
            p@.len() > 0,
            i <= v@.len(),
            r@ + replaced(v@.skip(i as int), from@, to@) == replaced(s@, from@, to@),
        decreases v@.len() - i,
    {
        let ghost rest = v@.skip(i as int);
        let ghost before = r@;
        if stands(&v, &p, i) {
            assert(rest.take(p@.len() as int) == v@.subrange(i as int, i + p@.len()));
            assert(rest.skip(p@.len() as int) == v@.skip(i + p@.len()));
            r.push_str(to);
            i = i + p.len();
            assert(r@ + replaced(v@.skip(i as int), from@, to@) == before + (to@ + replaced(
                v@.skip(i as int),
                from@,
                to@,
            )));
        } else {
            proof {
                if has_prefix(rest, p@) {
                    assert(rest.take(p@.len() as int) == v@.subrange(i as int, i + p@.len()));
                }
            }
            assert(rest.skip(1) == v@.skip(i + 1));
            r.push(v[i]);
            i = i + 1;
            assert(r@ + replaced(v@.skip(i as int), from@, to@) == before + (seq![rest[0]]
                + replaced(v@.skip(i as int), from@, to@)));
        }
    }
    assert(v@.skip(i as int) == Seq::<char>::empty());
    assert(r@ + Seq::<char>::empty() == r@);
    r
}

/// The words of a text with one space between them: white space is dropped, but for one space
/// before a character that follows some and is not the first.
pub open spec fn squeezed(s: Seq<char>) -> Seq<char>
    decreases s.len(),
{
    if s.len() == 0 {
        Seq::empty()
    } else {
        let before = squeezed(s.drop_last());
        if white_space(s.last()) {
            before
        } else if before.len() > 0 && white_space(s[s.len() - 2]) {
            before.push(' ').push(s.last())
        } else {
            before.push(s.last())
        }
    }
}

/// The words of a text with one space between them.
pub fn squeeze(s: &str) -> (r: Vec<char>)
    ensures
        r@ == squeezed(s@),
{
    let v = chars_of(s);
    let mut r: Vec<char> = Vec::new();
    let mut gap = false;
    let mut i: usize = 0;
    while i < v.len()
        invariant
            i <= v@.len(),
            r@ == squeezed(v@.take(i as int)),
            r@.len() > 0 ==> i > 0,
            i > 0 ==> gap == white_space(v@[i - 1]),
        decreases v@.len() - i,
    {
        assert(v@.take(i + 1).drop_last() == v@.take(i as int));
        let c = v[i];
        if is_white_space(c) {
            gap = true;
        } else {
            if gap && r.len() > 0 {
                r.push(' ');
            }
            r.push(c);
            gap = false;
        }
        i = i + 1;
    }
    assert(v@.take(v@.len() as int) == v@);
    r
}

} // verus!
