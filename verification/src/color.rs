//! Color representation and the hex notation used by the hex field.
//!
//! `Color` (RGB plus a separate alpha of scalar type `F`) is the one color
//! representation stored on the document. The hex notation never carries
//! alpha: alpha always has its own control beside the hex input.

use vstd::prelude::*;

use crate::text::{chars_of, is_space, is_space_char, push_char};

verus! {

/// An RGB color with a separate alpha channel.
#[derive(Clone, Copy, Debug, PartialEq)]
pub struct Color<F> {
    pub r: u8,
    pub g: u8,
    pub b: u8,
    pub a: F,
}

/// `s` without leading whitespace.
pub open spec fn trim_start(s: Seq<char>) -> Seq<char>
    decreases s.len(),
{
    if s.len() > 0 && is_space(s[0]) {
        trim_start(s.drop_first())
    } else {
        s
    }
}

/// `s` without trailing whitespace.
pub open spec fn trim_end(s: Seq<char>) -> Seq<char>
    decreases s.len(),
{
    if s.len() > 0 && is_space(s.last()) {
        trim_end(s.drop_last())
    } else {
        s
    }
}

/// `s` without one leading `#`, if it has one.
pub open spec fn strip_hash(s: Seq<char>) -> Seq<char> {
    if s.len() > 0 && s[0] == '#' {
        s.drop_first()
    } else {
        s
    }
}

/// The value of a hexadecimal digit.
pub open spec fn hex_value(c: char) -> Option<u8> {
    if '0' <= c <= '9' {
        Some((c as u32 - '0' as u32) as u8)
    } else if 'a' <= c <= 'f' {
        Some((c as u32 - 'a' as u32 + 10) as u8)
    } else if 'A' <= c <= 'F' {
        Some((c as u32 - 'A' as u32 + 10) as u8)
    } else {
        None
    }
}

/// The byte written by the two hexadecimal digits `a` and `b`.
pub open spec fn hex_pair(a: char, b: char) -> Option<u8> {
    match (hex_value(a), hex_value(b)) {
        (Some(x), Some(y)) => Some((x * 16 + y) as u8),
        _ => None,
    }
}

/// A one-digit channel, written twice (`"f"` is `0xff`).
pub open spec fn hex_doubled(c: char) -> Option<u8> {
    match hex_value(c) {
        Some(x) => Some((x * 17) as u8),
        None => None,
    }
}

/// The text that remains once surrounding whitespace and one optional
/// leading `#` are gone.
pub open spec fn hex_body(input: Seq<char>) -> Seq<char> {
    strip_hash(trim_end(trim_start(input)))
}

/// `#RGB` or `#RRGGBB` (one leading `#` optional, surrounding whitespace
/// ignored): exactly three or six hexadecimal digits; `None` for anything
/// else.
pub open spec fn parsed_hex(input: Seq<char>) -> Option<(u8, u8, u8)> {
    let h = hex_body(input);
    if h.len() == 6 {
        match (hex_pair(h[0], h[1]), hex_pair(h[2], h[3]), hex_pair(h[4], h[5])) {
            (Some(r), Some(g), Some(b)) => Some((r, g, b)),
            _ => None,
        }
    } else if h.len() == 3 {
        match (hex_doubled(h[0]), hex_doubled(h[1]), hex_doubled(h[2])) {
            (Some(r), Some(g), Some(b)) => Some((r, g, b)),
            _ => None,
        }
    } else {
        None
    }
}

fn hex_value_of(c: char) -> (v: Option<u8>)
    ensures
        v == hex_value(c),
{
    if '0' <= c && c <= '9' {
        Some((c as u32 - '0' as u32) as u8)
    } else if 'a' <= c && c <= 'f' {
        Some((c as u32 - 'a' as u32 + 10) as u8)
    } else if 'A' <= c && c <= 'F' {
        Some((c as u32 - 'A' as u32 + 10) as u8)
    } else {
        None
    }
}

fn hex_pair_of(a: char, b: char) -> (v: Option<u8>)
    ensures
        v == hex_pair(a, b),
{
    match (hex_value_of(a), hex_value_of(b)) {
        (Some(x), Some(y)) => Some(x * 16 + y),
        _ => None,
    }
}

fn hex_doubled_of(c: char) -> (v: Option<u8>)
    ensures
        v == hex_doubled(c),
{
    match hex_value_of(c) {
        Some(x) => Some(x * 17),
        None => None,
    }
}

/// The range of `s` that `hex_body` keeps.
fn hex_body_range(s: &Vec<char>) -> (range: (usize, usize))
    ensures
        range.0 <= range.1 <= s@.len(),
        s@.subrange(range.0 as int, range.1 as int) == hex_body(s@),
{
    let n = s.len();
    let mut start: usize = 0;
    assert(s@.subrange(0, n as int) =~= s@);
    while start < n && is_space_char(s[start])
        invariant
            n == s@.len(),
            start <= n,
            trim_start(s@) == trim_start(s@.subrange(start as int, n as int)),
        decreases n - start,
    {
        assert(s@.subrange(start as int, n as int).drop_first() =~= s@.subrange(start + 1, n as int));
        start += 1;
    }
    let mut end: usize = n;
    while end > start && is_space_char(s[end - 1])
        invariant
            n == s@.len(),
            start <= end <= n,
            trim_start(s@) == s@.subrange(start as int, n as int),
            trim_end(trim_start(s@)) == trim_end(s@.subrange(start as int, end as int)),
        decreases end - start,
    {
        assert(s@.subrange(start as int, end as int).drop_last() =~= s@.subrange(start as int, end - 1));
        end -= 1;
    }
    if start < end && s[start] == '#' {
        assert(s@.subrange(start as int, end as int).drop_first() =~= s@.subrange(start + 1, end as int));
        start += 1;
    }
    (start, end)
}

/// Parses `#RGB` or `#RRGGBB` (one leading `#` optional, surrounding
/// whitespace ignored). Returns `None` for anything else rather than
/// guessing, so a bad paste into the hex field leaves the color unchanged.
pub fn parse_hex(input: &str) -> (rgb: Option<(u8, u8, u8)>)
    ensures
        rgb == parsed_hex(input@),
{
    let s = chars_of(input);
    let (start, end) = hex_body_range(&s);
    let len = end - start;
    if len == 6 {
        match (hex_pair_of(s[start], s[start + 1]), hex_pair_of(s[start + 2], s[start + 3]), hex_pair_of(s[start + 4], s[start + 5])) {
            (Some(r), Some(g), Some(b)) => Some((r, g, b)),
            _ => None,
        }
    } else if len == 3 {
        match (hex_doubled_of(s[start]), hex_doubled_of(s[start + 1]), hex_doubled_of(s[start + 2])) {
            (Some(r), Some(g), Some(b)) => Some((r, g, b)),
            _ => None,
        }
    } else {
        None
    }
}

/// The uppercase hexadecimal digit for a value below sixteen.
pub open spec fn upper_hex_digit(d: nat) -> char {
    if d < 10 {
        ((d + 48) as u8) as char
    } else {
        ((d + 55) as u8) as char
    }
}

/// `#RRGGBB`, uppercase.
pub open spec fn hex_notation(r: u8, g: u8, b: u8) -> Seq<char> {
    seq![
        '#',
        upper_hex_digit((r / 16) as nat),
        upper_hex_digit((r % 16) as nat),
        upper_hex_digit((g / 16) as nat),
        upper_hex_digit((g % 16) as nat),
        upper_hex_digit((b / 16) as nat),
        upper_hex_digit((b % 16) as nat),
    ]
}

fn upper_hex_digit_of(d: u8) -> (c: char)
    requires
        d < 16,
    ensures
        c == upper_hex_digit(d as nat),
{
    if d < 10 {
        (d + 48) as char
    } else {
        (d + 55) as char
    }
}

impl<F: Copy> Color<F> {
    /// `#RRGGBB`, uppercase, alpha not included.
    pub fn to_hex(&self) -> (hex: String)
        ensures
            hex@ == hex_notation(self.r, self.g, self.b),
    {
        let mut hex = String::new();
        push_char(&mut hex, '#');
        push_char(&mut hex, upper_hex_digit_of(self.r / 16));
        push_char(&mut hex, upper_hex_digit_of(self.r % 16));
        push_char(&mut hex, upper_hex_digit_of(self.g / 16));
        push_char(&mut hex, upper_hex_digit_of(self.g % 16));
        push_char(&mut hex, upper_hex_digit_of(self.b / 16));
        push_char(&mut hex, upper_hex_digit_of(self.b % 16));
        assert(hex@ =~= hex_notation(self.r, self.g, self.b));
        hex
    }
}

/// What `to_hex` writes, `parse_hex` reads back: the hex field round-trips
/// every color's RGB channels.
pub proof fn lemma_hex_round_trip(r: u8, g: u8, b: u8)
    ensures
        parsed_hex(hex_notation(r, g, b)) == Some((r, g, b)),
{
    let s = hex_notation(r, g, b);
    let t = s.drop_first();
    assert(!is_space(s[0]));
    assert(trim_start(s) == s);
    assert forall|d: nat| d < 16 implies !is_space(#[trigger] upper_hex_digit(d)) && upper_hex_digit(d) != '#' && hex_value(
        upper_hex_digit(d),
    ) == Some(d as u8) by {}
    assert(s.drop_last().last() == s[5]);
    assert(trim_end(s) == s);
    assert(strip_hash(s) == t);
    assert(t[0] == upper_hex_digit((r / 16) as nat));
    assert((r / 16) * 16 + r % 16 == r);
    assert((g / 16) * 16 + g % 16 == g);
    assert((b / 16) * 16 + b % 16 == b);
}


/// Whether `c` is a hexadecimal digit: `0`-`9`, `a`-`f` or `A`-`F`.
pub open spec fn is_hex_digit_char(c: char) -> bool {
    ||| '0' <= c <= '9'
    ||| 'a' <= c <= 'f'
    ||| 'A' <= c <= 'F'
}

/// `#RGB` is shorthand for `#RRGGBB`: each of the three digits stands for
/// its channel written twice, in the order red, green, blue.
pub proof fn lemma_short_hex_is_doubled(c0: char, c1: char, c2: char)
    requires
        is_hex_digit_char(c0),
        is_hex_digit_char(c1),
        is_hex_digit_char(c2),
    ensures
        parsed_hex(seq!['#', c0, c1, c2]) == parsed_hex(seq!['#', c0, c0, c1, c1, c2, c2]),
        parsed_hex(seq!['#', c0, c1, c2]) is Some,
{
    let s = seq!['#', c0, c1, c2];
    let t = seq!['#', c0, c0, c1, c1, c2, c2];
    assert(!is_space('#'));
    assert(!is_space(c2));
    assert(trim_start(s) == s);
    assert(trim_start(t) == t);
    assert(s.last() == c2 && t.last() == c2);
    assert(trim_end(s) == s);
    assert(trim_end(t) == t);
    assert(strip_hash(s) =~= seq![c0, c1, c2]);
    assert(strip_hash(t) =~= seq![c0, c0, c1, c1, c2, c2]);
}

/// In `#RGB`, the first digit is the red channel, the second the green one
/// and the third the blue one, each written twice: `#F00` is red, `#0F0`
/// green and `#00F` blue.
pub proof fn lemma_short_hex_channels(d: nat)
    requires
        d < 16,
    ensures
        parsed_hex(seq!['#', upper_hex_digit(d), '0', '0']) == Some(((17 * d) as u8, 0u8, 0u8)),
        parsed_hex(seq!['#', '0', upper_hex_digit(d), '0']) == Some((0u8, (17 * d) as u8, 0u8)),
        parsed_hex(seq!['#', '0', '0', upper_hex_digit(d)]) == Some((0u8, 0u8, (17 * d) as u8)),
{
    let c = upper_hex_digit(d);
    assert(hex_value(c) == Some(d as u8));
    assert(is_hex_digit_char(c));
    assert(is_hex_digit_char('0'));
    lemma_short_hex_is_doubled(c, '0', '0');
    lemma_short_hex_is_doubled('0', c, '0');
    lemma_short_hex_is_doubled('0', '0', c);
    let s1 = seq!['#', c, '0', '0'];
    let s2 = seq!['#', '0', c, '0'];
    let s3 = seq!['#', '0', '0', c];
    assert(!is_space('#') && !is_space('0') && !is_space(c));
    assert(trim_start(s1) == s1 && trim_start(s2) == s2 && trim_start(s3) == s3);
    assert(s1.last() == '0' && s2.last() == '0' && s3.last() == c);
    assert(trim_end(s1) == s1 && trim_end(s2) == s2 && trim_end(s3) == s3);
    assert(strip_hash(s1) =~= seq![c, '0', '0']);
    assert(strip_hash(s2) =~= seq!['0', c, '0']);
    assert(strip_hash(s3) =~= seq!['0', '0', c]);
}

/// In `#RRGGBB`, the first pair of digits is the red channel, the second
/// the green one and the third the blue one, high digit first.
pub proof fn lemma_long_hex_channels(hi: nat, lo: nat)
    requires
        hi < 16,
        lo < 16,
    ensures
        parsed_hex(seq!['#', upper_hex_digit(hi), upper_hex_digit(lo), '0', '0', '0', '0']) == Some(((16 * hi + lo) as u8, 0u8, 0u8)),
        parsed_hex(seq!['#', '0', '0', upper_hex_digit(hi), upper_hex_digit(lo), '0', '0']) == Some((0u8, (16 * hi + lo) as u8, 0u8)),
        parsed_hex(seq!['#', '0', '0', '0', '0', upper_hex_digit(hi), upper_hex_digit(lo)]) == Some((0u8, 0u8, (16 * hi + lo) as u8)),
{
    let h = upper_hex_digit(hi);
    let l = upper_hex_digit(lo);
    assert(hex_value(h) == Some(hi as u8));
    assert(hex_value(l) == Some(lo as u8));
    let s1 = seq!['#', h, l, '0', '0', '0', '0'];
    let s2 = seq!['#', '0', '0', h, l, '0', '0'];
    let s3 = seq!['#', '0', '0', '0', '0', h, l];
    assert(!is_space('#') && !is_space('0') && !is_space(l));
    assert(trim_start(s1) == s1 && trim_start(s2) == s2 && trim_start(s3) == s3);
    assert(s1.last() == '0' && s2.last() == '0' && s3.last() == l);
    assert(trim_end(s1) == s1 && trim_end(s2) == s2 && trim_end(s3) == s3);
    assert(strip_hash(s1) =~= s1.drop_first());
    assert(strip_hash(s2) =~= s2.drop_first());
    assert(strip_hash(s3) =~= s3.drop_first());
}

/// Lower-case and upper-case digits read the same: `#abc` is `#ABC`.
pub proof fn lemma_hex_case_insensitive(d0: nat, d1: nat, d2: nat)
    requires
        10 <= d0 < 16,
        10 <= d1 < 16,
        10 <= d2 < 16,
    ensures
        parsed_hex(seq!['#', ((d0 + 87) as u8) as char, ((d1 + 87) as u8) as char, ((d2 + 87) as u8) as char])
            == parsed_hex(seq!['#', upper_hex_digit(d0), upper_hex_digit(d1), upper_hex_digit(d2)]),
{
    let a = seq!['#', ((d0 + 87) as u8) as char, ((d1 + 87) as u8) as char, ((d2 + 87) as u8) as char];
    let b = seq!['#', upper_hex_digit(d0), upper_hex_digit(d1), upper_hex_digit(d2)];
    assert(!is_space('#') && !is_space(a[3]) && !is_space(b[3]));
    assert(trim_start(a) == a && trim_start(b) == b);
    assert(trim_end(a) == a && trim_end(b) == b);
    assert(strip_hash(a) =~= a.drop_first());
    assert(strip_hash(b) =~= b.drop_first());
}

} // verus!
