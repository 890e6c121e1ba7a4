//! Colors and their `#RRGGBB` text.

use vstd::prelude::*;
use vstd::string::{StrSliceExecFns, StringExecFns};

verus! {

/// An RGB color.
#[derive(Debug, Default, Clone, Copy, PartialEq, Eq, Structural)]
pub struct Color {
    pub r: u8,
    pub g: u8,
    pub b: u8,
}

/// A text that is not a color.
#[derive(Debug)]
pub struct ParseColorError(pub String);

pub open spec fn hex_digit_value(c: char) -> Option<int> {
    if '0' <= c && c <= '9' {
        Some(c as int - '0' as int)
    } else if 'a' <= c && c <= 'f' {
        Some(c as int - 'a' as int + 10)
    } else if 'A' <= c && c <= 'F' {
        Some(c as int - 'A' as int + 10)
    } else {
        None
    }
}

pub open spec fn all_hex(d: Seq<char>) -> bool {
    forall|i: int| 0 <= i < d.len() ==> (#[trigger] hex_digit_value(d[i])).is_some()
}

/// The number the hex digits stand for, most significant first.
pub open spec fn hex_number(d: Seq<char>) -> int
    decreases d.len(),
{
    if d.len() == 0 {
        0
    } else {
        16 * hex_number(d.drop_last()) + hex_digit_value(d.last()).unwrap()
    }
}

/// How many `#` the text starts with.
pub open spec fn leading_hashes(c: Seq<char>) -> int
    decreases c.len(),
{
    if c.len() > 0 && c[0] == '#' {
        1 + leading_hashes(c.drop_first())
    } else {
        0
    }
}

/// The digits after the leading `#`s and an optional `+`.
pub open spec fn color_digits(c: Seq<char>) -> Seq<char> {
    let t = c.subrange(leading_hashes(c), c.len() as int);
    if t.len() > 0 && t[0] == '+' {
        t.drop_first()
    } else {
        t
    }
}

/// A color text: seven characters (and bytes) starting with `#`, then,
/// after any further `#`s and an optional `+`, at least one hex digit and
/// nothing else.
pub open spec fn is_color_text(c: Seq<char>, byte_len: int) -> bool {
    &&& byte_len == 7
    &&& c.len() == 7
    &&& c[0] == '#'
    &&& color_digits(c).len() > 0
    &&& all_hex(color_digits(c))
}

pub open spec fn color_of(v: int) -> Color {
    Color { r: ((v / 65536) % 256) as u8, g: ((v / 256) % 256) as u8, b: (v % 256) as u8 }
}

/// The lower-case hex digits of `n`, without leading zeros.
pub open spec fn hex_text(n: u8) -> Seq<char> {
    if n < 16 {
        seq![hex_char(n as int)]
    } else {
        seq![hex_char(n as int / 16), hex_char(n as int % 16)]
    }
}

pub open spec fn hex_char(d: int) -> char {
    if d < 10 {
        ((d + '0' as int) as u32) as char
    } else {
        ((d - 10 + 'a' as int) as u32) as char
    }
}

proof fn lemma_leading_hashes(c: Seq<char>, k: int)
    requires
        0 <= k <= c.len(),
        forall|j: int| 0 <= j < k ==> c[j] == '#',
        k == c.len() || c[k] != '#',
    ensures
        leading_hashes(c) == k,
    decreases k,
{
    if k > 0 {
        assert(c.drop_first().len() == c.len() - 1);
        lemma_leading_hashes(c.drop_first(), k - 1);
    }
}

fn digit_value(c: char) -> (r: Option<u64>)
    ensures
        r.is_some() == hex_digit_value(c).is_some(),
        r.is_some() ==> r.unwrap() as int == hex_digit_value(c).unwrap(),
{
    if '0' <= c && c <= '9' {
        Some((c as u64) - ('0' as u64))
    } else if 'a' <= c && c <= 'f' {
        Some((c as u64) - ('a' as u64) + 10)
    } else if 'A' <= c && c <= 'F' {
        Some((c as u64) - ('A' as u64) + 10)
    } else {
        None
    }
}

pub(crate) fn hex_digit_str(d: u8) -> (r: &'static str)
    requires
        d < 16,
    ensures
        r@ == seq![hex_char(d as int)],
{
    proof {
        reveal_strlit("0"); reveal_strlit("1"); reveal_strlit("2"); reveal_strlit("3");
        reveal_strlit("4"); reveal_strlit("5"); reveal_strlit("6"); reveal_strlit("7");
        reveal_strlit("8"); reveal_strlit("9"); reveal_strlit("a"); reveal_strlit("b");
        reveal_strlit("c"); reveal_strlit("d"); reveal_strlit("e"); reveal_strlit("f");
    }
    match d {
        0 => "0",
        1 => "1",
        2 => "2",
        3 => "3",
        4 => "4",
        5 => "5",
        6 => "6",
        7 => "7",
        8 => "8",
        9 => "9",
        10 => "a",
        11 => "b",
        12 => "c",
        13 => "d",
        14 => "e",
        _ => "f",
    }
}

fn push_hex(s: String, n: u8) -> (r: String)
    ensures
        r@ == s@ + hex_text(n),
{
    if n < 16 {
        s.concat(hex_digit_str(n))
    } else {
        let s = s.concat(hex_digit_str(n / 16));
        let r = s.concat(hex_digit_str(n % 16));
        r
    }
}

impl Color {
    /// Reads `#RRGGBB`: after the `#`, up to six hex digits (as
    /// `u64::from_str_radix` reads them, a leading `+` and further leading
    /// `#`s aside) give the 24-bit value, red in the high byte.
    pub fn from_str(s: &str) -> (r: Result<Color, ParseColorError>)
        ensures
            r.is_ok() == is_color_text(s@, s.len() as int),
            r.is_ok() ==> r.unwrap() == color_of(hex_number(color_digits(s@))),
    {
        if s.len() != 7 || s.unicode_len() != 7 || s.get_char(0) != '#' {
            return Err(ParseColorError(s.to_owned()));
        }
        let ghost c = s@;
        let mut k: usize = 0;
        while k < 7 && s.get_char(k) == '#'
            invariant
                c == s@,
                c.len() == 7,
                0 <= k <= 7,
                forall|j: int| 0 <= j < k ==> c[j] == '#',
            decreases 7 - k,
        {
            k += 1;
        }
        proof { lemma_leading_hashes(c, k as int); }
        let ghost t = c.subrange(k as int, 7);
        let mut start = k;
        if start < 7 && s.get_char(start) == '+' {
            start += 1;
        }
        let ghost d = color_digits(c);
        assert(d =~= c.subrange(start as int, 7));
        if start == 7 {
            return Err(ParseColorError(s.to_owned()));
        }
        let mut value: u64 = 0;
        let mut i: usize = start;
        assert(c.subrange(start as int, start as int).len() == 0);
        while i < 7
            invariant
                c == s@,
                c.len() == 7,
                1 <= start <= i <= 7,
                start < 7,
                d == c.subrange(start as int, 7),
                d == color_digits(c),
                s.len() == 7,
                c[0] == '#',
                all_hex(c.subrange(start as int, i as int)),
                value as int == hex_number(c.subrange(start as int, i as int)),
            decreases 7 - i,
        {
            let ch = s.get_char(i);
            assert(d[(i - start) as int] == c[i as int]);
            match digit_value(ch) {
                None => {
                    assert(hex_digit_value(d[(i - start) as int]).is_none());
                    return Err(ParseColorError(s.to_owned()));
                },
                Some(v) => {
                    let ghost pre = c.subrange(start as int, i as int);
                    let ghost post = c.subrange(start as int, i as int + 1);
                    assert(post.drop_last() =~= pre);
                    assert(post.last() == ch);
                    assert forall|j: int| 0 <= j < post.len() implies (#[trigger] hex_digit_value(post[j])).is_some() by {
                        if j < pre.len() {
                            assert(post[j] == pre[j]);
                        }
                    }
                    proof {
                        lemma_hex_bound(pre);
                        lemma_pow_mono(pre.len() as int);
                        reveal_with_fuel(pow16, 6);
                    }
                    value = value * 16 + v;
                    i += 1;
                },
            }
        }
        assert(c.subrange(start as int, 7) =~= d);
        let red = ((value / 65536) % 256) as u8;
        let green = ((value / 256) % 256) as u8;
        let blue = (value % 256) as u8;
        Ok(Color { r: red, g: green, b: blue })
    }

    /// `#` and the three components in lower-case hex, each without leading
    /// zeros (so `#1a2b3c`, but `#102` for 1, 0 and 2).
    pub fn to_string(&self) -> (r: String)
        ensures
            r@ == seq!['#'] + hex_text(self.r) + hex_text(self.g) + hex_text(self.b),
    {
        proof { reveal_strlit("#"); }
        let s = String::from_str("#");
        let s = push_hex(s, self.r);
        let s = push_hex(s, self.g);
        push_hex(s, self.b)
    }
}

pub open spec fn pow16(n: int) -> int
    decreases n,
{
    if n <= 0 {
        1
    } else {
        16 * pow16(n - 1)
    }
}

proof fn lemma_hex_bound(d: Seq<char>)
    requires
        all_hex(d),
    ensures
        0 <= hex_number(d) < pow16(d.len() as int),
    decreases d.len(),
{
    if d.len() > 0 {
        assert(all_hex(d.drop_last())) by {
            assert forall|i: int| 0 <= i < d.drop_last().len() implies (#[trigger] hex_digit_value(d.drop_last()[i])).is_some() by {
                assert(d.drop_last()[i] == d[i]);
            }
        }
        lemma_hex_bound(d.drop_last());
        assert(hex_digit_value(d[d.len() - 1]).is_some());
    }
}

proof fn lemma_pow_mono(n: int)
    requires
        0 <= n <= 5,
    ensures
        1 <= pow16(n) <= pow16(5),
    decreases 5 - n,
{
    if n < 5 {
        lemma_pow_mono(n + 1);
        assert(pow16(n + 1) == 16 * pow16(n));
    } else {
        reveal_with_fuel(pow16, 6);
    }
}

} // verus!
