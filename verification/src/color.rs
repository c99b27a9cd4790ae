//! Hex colour parsing for the QR foreground and background.
use vstd::prelude::*;

use crate::text::{
    chars_to_string, copy_range, hex_digit, is_white, trim_end, trim_start, hex_digit_exec, hex_value, hex_value_exec, lower_chars,
    lower_seq, str_to_chars, trim, trim_chars,
};

verus! {

/// An RGBA colour. Parsed six- and three-digit colours are opaque (alpha 255).
#[derive(Debug, Clone, Copy, PartialEq, Eq, Structural)]
pub struct Rgba {
    pub r: u8,
    pub g: u8,
    pub b: u8,
    pub a: u8,
}

/// Why a colour string was refused.
#[derive(Debug, Clone, Copy, PartialEq, Eq, Structural)]
pub enum ColorError {
    /// Nothing is left once whitespace and the optional `#` are removed.
    Empty,
    /// A character other than `0-9`, `a-f`, `A-F` occurs.
    NotHex,
    /// The number of hex digits is not 3, 4, 6 or 8 (the count is carried).
    BadLength(usize),
}

impl Rgba {
    /// Opaque black.
    pub fn black() -> (c: Rgba)
        ensures
            c == black(),
    {
        Rgba { r: 0, g: 0, b: 0, a: 255 }
    }

    /// Opaque white.
    pub fn white() -> (c: Rgba)
        ensures
            c == white(),
    {
        Rgba { r: 255, g: 255, b: 255, a: 255 }
    }

    /// The pixel form `[r, g, b, a]`.
    pub fn to_array(self) -> (arr: [u8; 4])
        ensures
            arr@ == seq![self.r, self.g, self.b, self.a],
    {
        [self.r, self.g, self.b, self.a]
    }

    /// The `#rrggbb` form (lowercase, alpha dropped).
    pub fn to_hex(self) -> (s: String)
        ensures
            s@ == hex_text(self),
    {
        let mut v: Vec<char> = Vec::new();
        v.push('#');
        push_hex_byte(&mut v, self.r);
        push_hex_byte(&mut v, self.g);
        push_hex_byte(&mut v, self.b);
        proof {
            assert(v@ =~= hex_text(self));
        }
        chars_to_string(&v)
    }
}

/// The two lowercase hex digits of a byte.
pub open spec fn hex_byte(b: u8) -> Seq<char> {
    seq![hex_digit((b / 16) as nat), hex_digit((b % 16) as nat)]
}

/// `#rrggbb` for a colour.
pub open spec fn hex_text(c: Rgba) -> Seq<char> {
    seq!['#'] + hex_byte(c.r) + hex_byte(c.g) + hex_byte(c.b)
}

fn push_hex_byte(v: &mut Vec<char>, b: u8)
    ensures
        final(v)@ == old(v)@ + hex_byte(b),
{
    v.push(hex_digit_exec(b / 16));
    v.push(hex_digit_exec(b % 16));
    proof {
        assert(v@ =~= old(v)@ + hex_byte(b));
    }
}

pub open spec fn black() -> Rgba {
    Rgba { r: 0, g: 0, b: 0, a: 255 }
}

pub open spec fn white() -> Rgba {
    Rgba { r: 255, g: 255, b: 255, a: 255 }
}

/// The digit value of a character known to be a hex digit.
pub open spec fn nib(c: char) -> nat {
    hex_value(c).unwrap()
}

/// A single digit doubled: `f` stands for `ff`.
pub open spec fn dup(c: char) -> u8 {
    (17 * nib(c)) as u8
}

/// Two digits read as one byte.
pub open spec fn pair(hi: char, lo: char) -> u8 {
    (16 * nib(hi) + nib(lo)) as u8
}

pub open spec fn all_hex(s: Seq<char>) -> bool {
    forall|i: int| 0 <= i < s.len() ==> (#[trigger] hex_value(s[i])) is Some
}

/// `s` without one leading `#`, if it has one.
pub open spec fn strip_hash(s: Seq<char>) -> Seq<char> {
    if s.len() > 0 && s[0] == '#' {
        s.drop_first()
    } else {
        s
    }
}

/// What `parse_hex` gives for the text `input`.
pub open spec fn parse_hex_spec(input: Seq<char>) -> Result<Rgba, ColorError> {
    let raw = trim(input);
    let lower = lower_seq(raw);
    let hex = strip_hash(raw);
    if lower == "black"@ {
        Ok(black())
    } else if lower == "white"@ {
        Ok(white())
    } else if hex.len() == 0 {
        Err(ColorError::Empty)
    } else if !all_hex(hex) {
        Err(ColorError::NotHex)
    } else if hex.len() == 3 {
        Ok(Rgba { r: dup(hex[0]), g: dup(hex[1]), b: dup(hex[2]), a: 255 })
    } else if hex.len() == 4 {
        Ok(Rgba { r: dup(hex[0]), g: dup(hex[1]), b: dup(hex[2]), a: dup(hex[3]) })
    } else if hex.len() == 6 {
        Ok(Rgba { r: pair(hex[0], hex[1]), g: pair(hex[2], hex[3]), b: pair(hex[4], hex[5]), a: 255 })
    } else if hex.len() == 8 {
        Ok(
            Rgba {
                r: pair(hex[0], hex[1]),
                g: pair(hex[2], hex[3]),
                b: pair(hex[4], hex[5]),
                a: pair(hex[6], hex[7]),
            },
        )
    } else {
        Err(ColorError::BadLength(hex.len() as usize))
    }
}


proof fn lemma_hex_digit_value(d: nat)
    requires
        d < 16,
    ensures
        hex_value(hex_digit(d)) == Some(d),
        !is_white(hex_digit(d)),
{
}

/// Printing a colour with `to_hex` and parsing the text back gives the same
/// red, green and blue, with the alpha made opaque.
pub proof fn lemma_hex_roundtrip(c: Rgba)
    ensures
        parse_hex_spec(hex_text(c)) == Ok::<Rgba, ColorError>(Rgba { r: c.r, g: c.g, b: c.b, a: 255 }),
{
    let s = hex_text(c);
    lemma_hex_digit_value((c.r / 16) as nat);
    lemma_hex_digit_value((c.r % 16) as nat);
    lemma_hex_digit_value((c.g / 16) as nat);
    lemma_hex_digit_value((c.g % 16) as nat);
    lemma_hex_digit_value((c.b / 16) as nat);
    lemma_hex_digit_value((c.b % 16) as nat);
    assert(s.len() == 7);
    assert(trim_start(s) == s);
    assert(trim_end(s) == s);
    reveal_strlit("black");
    reveal_strlit("white");
    let hex = strip_hash(s);
    assert(hex =~= hex_byte(c.r) + hex_byte(c.g) + hex_byte(c.b));
    assert(all_hex(hex));
    assert(trim(s) == s);
    assert(lower_seq(s).len() == 7);
    assert(lower_seq(s) != "black"@);
    assert(hex.len() == 6);
    assert(pair(hex[0], hex[1]) == c.r);
}

/// A three-digit colour means the same as the six-digit colour that repeats
/// each digit: `#abc` is `#aabbcc`.
pub proof fn lemma_short_form_expands(x: char, y: char, z: char)
    requires
        hex_value(x) is Some,
        hex_value(y) is Some,
        hex_value(z) is Some,
    ensures
        parse_hex_spec(seq!['#', x, y, z]) == parse_hex_spec(seq!['#', x, x, y, y, z, z]),
        parse_hex_spec(seq!['#', x, y, z]) is Ok,
{
    let s3 = seq!['#', x, y, z];
    let s6 = seq!['#', x, x, y, y, z, z];
    assert(!is_white(x) && !is_white(y) && !is_white(z));
    assert(trim_start(s3) == s3);
    assert(trim_end(s3) == s3);
    assert(trim_start(s6) == s6);
    assert(trim_end(s6) == s6);
    reveal_strlit("black");
    reveal_strlit("white");
    assert(strip_hash(s3) =~= seq![x, y, z]);
    assert(strip_hash(s6) =~= seq![x, x, y, y, z, z]);
    assert(all_hex(strip_hash(s3)));
    assert(all_hex(strip_hash(s6)));
    assert(trim(s3) == s3);
    assert(trim(s6) == s6);
    assert(lower_seq(s3).len() == 4);
    assert(lower_seq(s6).len() == 7);
    assert("black"@.len() == 5 && "white"@.len() == 5);
    assert(dup(x) == pair(x, x));
    assert(dup(y) == pair(y, y));
    assert(dup(z) == pair(z, z));
}

/// `#` and hex digits is its own trimmed text, names no colour word, and
/// the digits are what follows the `#`.
proof fn lemma_hash_digits(d: Seq<char>)
    requires
        1 <= d.len() <= 8,
        forall|i: int| 0 <= i < d.len() ==> (#[trigger] hex_value(d[i])) is Some,
    ensures
        trim(seq!['#'] + d) == seq!['#'] + d,
        lower_seq(trim(seq!['#'] + d)) != "black"@,
        lower_seq(trim(seq!['#'] + d)) != "white"@,
        strip_hash(trim(seq!['#'] + d)) == d,
        all_hex(d),
{
    let s = seq!['#'] + d;
    assert(hex_value(d[d.len() - 1]) is Some);
    assert(s.last() == d[d.len() - 1]);
    assert(trim_start(s) == s);
    assert(trim_end(s) == s);
    reveal_strlit("black");
    reveal_strlit("white");
    assert(lower_seq(s)[0] == '#');
    assert("black"@[0] == 'b' && "white"@[0] == 'w');
    assert(s.drop_first() =~= d);
}

/// The number a hex digit character stands for.
pub open spec fn digit_value(c: char) -> int {
    hex_value(c).unwrap() as int
}

/// Eight digits are four bytes, red, green, blue and alpha, each read high
/// digit first.
pub proof fn lemma_parse_eight_digits(d: Seq<char>)
    requires
        d.len() == 8,
        forall|i: int| 0 <= i < 8 ==> (#[trigger] hex_value(d[i])) is Some,
    ensures
        parse_hex_spec(seq!['#'] + d) == Ok::<Rgba, ColorError>(
            Rgba {
                r: (16 * digit_value(d[0]) + digit_value(d[1])) as u8,
                g: (16 * digit_value(d[2]) + digit_value(d[3])) as u8,
                b: (16 * digit_value(d[4]) + digit_value(d[5])) as u8,
                a: (16 * digit_value(d[6]) + digit_value(d[7])) as u8,
            },
        ),
{
    lemma_hash_digits(d);
}

/// Six digits are three bytes, red, green and blue, each read high digit
/// first; the colour is opaque.
pub proof fn lemma_parse_six_digits(d: Seq<char>)
    requires
        d.len() == 6,
        forall|i: int| 0 <= i < 6 ==> (#[trigger] hex_value(d[i])) is Some,
    ensures
        parse_hex_spec(seq!['#'] + d) == Ok::<Rgba, ColorError>(
            Rgba {
                r: (16 * digit_value(d[0]) + digit_value(d[1])) as u8,
                g: (16 * digit_value(d[2]) + digit_value(d[3])) as u8,
                b: (16 * digit_value(d[4]) + digit_value(d[5])) as u8,
                a: 255,
            },
        ),
{
    lemma_hash_digits(d);
}

/// Four digits are red, green, blue and alpha, each digit doubled (`f` is
/// `ff`, that is 17 times its value).
pub proof fn lemma_parse_four_digits(d: Seq<char>)
    requires
        d.len() == 4,
        forall|i: int| 0 <= i < 4 ==> (#[trigger] hex_value(d[i])) is Some,
    ensures
        parse_hex_spec(seq!['#'] + d) == Ok::<Rgba, ColorError>(
            Rgba {
                r: (17 * digit_value(d[0])) as u8,
                g: (17 * digit_value(d[1])) as u8,
                b: (17 * digit_value(d[2])) as u8,
                a: (17 * digit_value(d[3])) as u8,
            },
        ),
{
    lemma_hash_digits(d);
}

/// Three digits are red, green and blue, each digit doubled; the colour is
/// opaque.
pub proof fn lemma_parse_three_digits(d: Seq<char>)
    requires
        d.len() == 3,
        forall|i: int| 0 <= i < 3 ==> (#[trigger] hex_value(d[i])) is Some,
    ensures
        parse_hex_spec(seq!['#'] + d) == Ok::<Rgba, ColorError>(
            Rgba {
                r: (17 * digit_value(d[0])) as u8,
                g: (17 * digit_value(d[1])) as u8,
                b: (17 * digit_value(d[2])) as u8,
                a: 255,
            },
        ),
{
    lemma_hash_digits(d);
}

/// Any colour written as `#rrggbbaa` (lowercase, high digit first) parses
/// back to itself, alpha included.
pub proof fn lemma_hex8_roundtrip(c: Rgba)
    ensures
        parse_hex_spec(
            seq![
                '#',
                hex_digit((c.r / 16) as nat),
                hex_digit((c.r % 16) as nat),
                hex_digit((c.g / 16) as nat),
                hex_digit((c.g % 16) as nat),
                hex_digit((c.b / 16) as nat),
                hex_digit((c.b % 16) as nat),
                hex_digit((c.a / 16) as nat),
                hex_digit((c.a % 16) as nat),
            ],
        ) == Ok::<Rgba, ColorError>(c),
{
    let d = seq![
        hex_digit((c.r / 16) as nat),
        hex_digit((c.r % 16) as nat),
        hex_digit((c.g / 16) as nat),
        hex_digit((c.g % 16) as nat),
        hex_digit((c.b / 16) as nat),
        hex_digit((c.b % 16) as nat),
        hex_digit((c.a / 16) as nat),
        hex_digit((c.a % 16) as nat),
    ];
    lemma_hex_digit_value((c.r / 16) as nat);
    lemma_hex_digit_value((c.r % 16) as nat);
    lemma_hex_digit_value((c.g / 16) as nat);
    lemma_hex_digit_value((c.g % 16) as nat);
    lemma_hex_digit_value((c.b / 16) as nat);
    lemma_hex_digit_value((c.b % 16) as nat);
    lemma_hex_digit_value((c.a / 16) as nat);
    lemma_hex_digit_value((c.a % 16) as nat);
    assert forall|i: int| 0 <= i < 8 implies (#[trigger] hex_value(d[i])) is Some by {}
    lemma_parse_eight_digits(d);
    assert(seq!['#'] + d =~= seq![
        '#',
        hex_digit((c.r / 16) as nat),
        hex_digit((c.r % 16) as nat),
        hex_digit((c.g / 16) as nat),
        hex_digit((c.g % 16) as nat),
        hex_digit((c.b / 16) as nat),
        hex_digit((c.b % 16) as nat),
        hex_digit((c.a / 16) as nat),
        hex_digit((c.a % 16) as nat),
    ]);
}

/// Whether the two character vectors hold the same text.
pub fn chars_eq(a: &Vec<char>, b: &Vec<char>) -> (r: bool)
    ensures
        r == (a@ == b@),
{
    if a.len() != b.len() {
        return false;
    }
    for i in 0..a.len()
        invariant
            a.len() == b.len(),
            forall|k: int| 0 <= k < i ==> a@[k] == b@[k],
    {
        if a[i] != b[i] {
            return false;
        }
    }
    assert(a@ =~= b@);
    true
}

/// Reads one byte from two hex digits.
fn byte(hi: char, lo: char) -> (b: u8)
    requires
        hex_value(hi) is Some,
        hex_value(lo) is Some,
    ensures
        b == pair(hi, lo),
{
    let h = hex_value_exec(hi).unwrap();
    let l = hex_value_exec(lo).unwrap();
    h * 16 + l
}

fn dup_exec(c: char) -> (b: u8)
    requires
        hex_value(c) is Some,
    ensures
        b == dup(c),
{
    let v = hex_value_exec(c).unwrap();
    v * 17
}

/// Parses a colour: `black`, `white` (any case), or 3, 4, 6 or 8 hex digits
/// with an optional leading `#`; surrounding whitespace is ignored.
pub fn parse_hex(input: &str) -> (res: Result<Rgba, ColorError>)
    ensures
        res == parse_hex_spec(input@),
{
    let chars = str_to_chars(input);
    let raw = trim_chars(&chars);
    let lower = lower_chars(&raw);
    if chars_eq(&lower, &str_to_chars("black")) {
        return Ok(Rgba::black());
    }
    if chars_eq(&lower, &str_to_chars("white")) {
        return Ok(Rgba::white());
    }
    let hex = if raw.len() > 0 && raw[0] == '#' {
        copy_range(&raw, 1, raw.len())
    } else {
        raw
    };
    assert(hex@ =~= strip_hash(trim(input@)));
    if hex.len() == 0 {
        return Err(ColorError::Empty);
    }
    for i in 0..hex.len()
        invariant
            forall|k: int| 0 <= k < i ==> (#[trigger] hex_value(hex@[k])) is Some,
            hex@ == strip_hash(trim(input@)),
            lower_seq(trim(input@)) != "black"@,
            lower_seq(trim(input@)) != "white"@,
            hex.len() > 0,
    {
        if hex_value_exec(hex[i]).is_none() {
            assert(!all_hex(hex@)) by {
                assert(hex_value(hex@[i as int]) is None);
            }
            return Err(ColorError::NotHex);
        }
    }
    let n = hex.len();
    if n == 3 {
        Ok(Rgba { r: dup_exec(hex[0]), g: dup_exec(hex[1]), b: dup_exec(hex[2]), a: 255 })
    } else if n == 4 {
        Ok(Rgba { r: dup_exec(hex[0]), g: dup_exec(hex[1]), b: dup_exec(hex[2]), a: dup_exec(hex[3]) })
    } else if n == 6 {
        Ok(Rgba { r: byte(hex[0], hex[1]), g: byte(hex[2], hex[3]), b: byte(hex[4], hex[5]), a: 255 })
    } else if n == 8 {
        Ok(
            Rgba {
                r: byte(hex[0], hex[1]),
                g: byte(hex[2], hex[3]),
                b: byte(hex[4], hex[5]),
                a: byte(hex[6], hex[7]),
            },
        )
    } else {
        Err(ColorError::BadLength(n))
    }
}

} // verus!
