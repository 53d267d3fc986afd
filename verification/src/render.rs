//! Colour parsing shared by the background, the `<box>` effect, icon tints and
//! status indicators.

use vstd::prelude::*;
use crate::strings::chars_of;

verus! {

/// An 8-bit-per-channel RGBA colour (straight alpha).
#[derive(Debug, Clone, Copy, PartialEq, Eq)]
pub struct HexColor {
    pub r: u8,
    pub g: u8,
    pub b: u8,
    pub a: u8,
}

/// The value of a hexadecimal digit (either case).
pub open spec fn hex_digit(c: char) -> Option<u8> {
    if '0' <= c && c <= '9' {
        Some((c as u32 - '0' as u32) as u8)
    } else if 'a' <= c && c <= 'f' {
        Some((c as u32 - 'a' as u32 + 10) as u8)
    } else if 'A' <= c && c <= 'F' {
        Some((c as u32 - 'A' as u32 + 10) as u8)
    } else {
        None
    }
}

/// A byte written as two hexadecimal digits.
pub open spec fn hex_byte(c0: char, c1: char) -> Option<u8> {
    match (hex_digit(c0), hex_digit(c1)) {
        (Some(h), Some(l)) => Some((h * 16 + l) as u8),
        _ => None,
    }
}

/// `s` without one leading `#`, if it has one.
pub open spec fn strip_hash(s: Seq<char>) -> Seq<char> {
    if s.len() > 0 && s[0] == '#' {
        s.drop_first()
    } else {
        s
    }
}

/// The colour written `#rrggbb` or `#rrggbbaa` (the `#` optional); `None`
/// for any other text. Without an alpha pair the colour is opaque.
pub open spec fn parse_hex_color_spec(s: Seq<char>) -> Option<HexColor> {
    let t = strip_hash(s);
    if t.len() == 6 {
        match (hex_byte(t[0], t[1]), hex_byte(t[2], t[3]), hex_byte(t[4], t[5])) {
            (Some(r), Some(g), Some(b)) => Some(HexColor { r, g, b, a: 255 }),
            _ => None,
        }
    } else if t.len() == 8 {
        match (hex_byte(t[0], t[1]), hex_byte(t[2], t[3]), hex_byte(t[4], t[5]), hex_byte(t[6], t[7])) {
            (Some(r), Some(g), Some(b), Some(a)) => Some(HexColor { r, g, b, a }),
            _ => None,
        }
    } else {
        None
    }
}

/// The value of an ASCII hexadecimal digit, read directly off its code.
pub open spec fn digit_value(c: char) -> int {
    let v = c as int;
    if 48 <= v <= 57 {
        v - 48
    } else if 97 <= v <= 102 {
        v - 87
    } else {
        v - 55
    }
}

/// An ASCII hexadecimal digit, either case.
pub open spec fn is_hex_digit(c: char) -> bool {
    ('0' <= c && c <= '9') || ('a' <= c && c <= 'f') || ('A' <= c && c <= 'F')
}

/// What a colour string means: after an optional `#`, six or eight hex
/// digits, read in pairs, each channel the value of its own pair (high digit
/// first) — red, green, blue, then alpha, opaque when absent. The eight-digit
/// form agrees with the six-digit form of its first six digits on red, green
/// and blue. Anything else is rejected.
pub proof fn hex_colour_channels(s: Seq<char>)
    ensures
        ({
            let t = strip_hash(s);
            let ok = (t.len() == 6 || t.len() == 8) && forall|i: int| 0 <= i < t.len() ==> is_hex_digit(#[trigger] t[i]);
            &&& (parse_hex_color_spec(s) is Some <==> ok)
            &&& ok ==> {
                let c = parse_hex_color_spec(s)->0;
                &&& c.r as int == 16 * digit_value(t[0]) + digit_value(t[1])
                &&& c.g as int == 16 * digit_value(t[2]) + digit_value(t[3])
                &&& c.b as int == 16 * digit_value(t[4]) + digit_value(t[5])
                &&& c.a as int == if t.len() == 8 { 16 * digit_value(t[6]) + digit_value(t[7]) } else { 255 }
            }
            &&& (ok && t.len() == 8) ==> {
                let c = parse_hex_color_spec(s)->0;
                parse_hex_color_spec(t.take(6)) == Some(HexColor { r: c.r, g: c.g, b: c.b, a: 255 })
            }
        }),
{
    let t = strip_hash(s);
    assert forall|c: char| is_hex_digit(c) implies hex_digit(c) == Some((digit_value(c)) as u8) && 0
        <= digit_value(c) < 16 by {}
    assert forall|c: char| !is_hex_digit(c) implies hex_digit(c) is None by {}
    if t.len() == 6 || t.len() == 8 {
        if !(forall|i: int| 0 <= i < t.len() ==> is_hex_digit(#[trigger] t[i])) {
            let i = choose|i: int| 0 <= i < t.len() && !is_hex_digit(#[trigger] t[i]);
            assert(hex_digit(t[i]) is None);
            assert(i < 8);
        }
        if t.len() == 8 && forall|i: int| 0 <= i < t.len() ==> is_hex_digit(#[trigger] t[i]) {
            let u = t.take(6);
            assert(is_hex_digit(t[0]));
            assert(u.len() == 6);
            assert(u[0] == t[0] && u[1] == t[1] && u[2] == t[2] && u[3] == t[3] && u[4] == t[4] && u[5] == t[5]);
            assert(strip_hash(u) == u) by {
                if u[0] == '#' {
                    assert(!is_hex_digit(u[0]));
                }
            }
        }
    }
}

fn hex_digit_exec(c: char) -> (r: Option<u8>)
    ensures
        r == hex_digit(c),
{
    if '0' <= c && c <= '9' {
        Some((c as u32 - '0' as u32) as u8)
    } else if 'a' <= c && c <= 'f' {
        Some((c as u32 - 'a' as u32 + 10) as u8)
    } else if 'A' <= c && c <= 'F' {
        Some((c as u32 - 'A' as u32 + 10) as u8)
    } else {
        None
    }
}

fn hex_byte_exec(c0: char, c1: char) -> (r: Option<u8>)
    ensures
        r == hex_byte(c0, c1),
{
    match (hex_digit_exec(c0), hex_digit_exec(c1)) {
        (Some(h), Some(l)) => Some(h * 16 + l),
        _ => None,
    }
}

/// Parse a `#rrggbb` or `#rrggbbaa` hex string (the `#` optional) into a
/// colour. Returns `None` for malformed input.
pub fn parse_hex_color(s: &str) -> (r: Option<HexColor>)
    ensures
        r == parse_hex_color_spec(s@),
{
    let cs = chars_of(s);
    let off: usize = if cs.len() > 0 && cs[0] == '#' { 1 } else { 0 };
    let ghost t = strip_hash(s@);
    assert(t =~= cs@.subrange(off as int, cs@.len() as int));
    let n = cs.len() - off;
    if n == 6 {
        match (hex_byte_exec(cs[off], cs[off + 1]), hex_byte_exec(cs[off + 2], cs[off + 3]), hex_byte_exec(cs[off + 4], cs[off + 5])) {
            (Some(r), Some(g), Some(b)) => Some(HexColor { r, g, b, a: 255 }),
            _ => None,
        }
    } else if n == 8 {
        match (
            hex_byte_exec(cs[off], cs[off + 1]),
            hex_byte_exec(cs[off + 2], cs[off + 3]),
            hex_byte_exec(cs[off + 4], cs[off + 5]),
            hex_byte_exec(cs[off + 6], cs[off + 7]),
        ) {
            (Some(r), Some(g), Some(b), Some(a)) => Some(HexColor { r, g, b, a }),
            _ => None,
        }
    } else {
        None
    }
}

} // verus!
