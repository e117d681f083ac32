//! The colour model: four 8-bit channels, parsed from hex or
//! functional (`rgb(..)` / `rgba(..)`) notation.
//!
//! The grammar, in precedence order:
//! - `rgb(R,G,B)` — three decimal integers 0–255, whitespace around
//!   the commas ignored; the alpha channel defaults to 255.
//! - `rgba(R,G,B,A)` — the same with four integers, all required.
//! - `#` followed by 1, 2, 3, 4, 6 or 8 hex digits. Lengths 1 and 2
//!   are greys; with 1, 3 and 4 digits each digit is duplicated to
//!   make a byte; lengths 6 and 8 give the bytes directly; lengths 4
//!   and 8 carry an alpha digit or byte, the others are opaque.

use vstd::prelude::*;

use crate::text::{
    dec_digit, dec_digit_val, dec_val, is_dec_digit, is_dec_digit_char, is_hex_digit,
    is_hex_digit_char, hex_digit, hex_digit_val, lemma_dec_val_prefix_le, split_char, split_on,
    trim, trim_of, views_of,
};

verus! {

/// An RGBA colour. A colour that was written without an alpha channel
/// is fully opaque (`a == 255`).
#[derive(Copy, Clone, Debug, PartialEq, Eq, Structural)]
pub struct Colour {
    pub r: u8,
    pub g: u8,
    pub b: u8,
    pub a: u8,
}

impl Colour {
    /// Grey: all three channels equal, fully opaque.
    pub fn grey(g: u8) -> (c: Colour)
        ensures
            c == (Colour { r: g, g: g, b: g, a: 255u8 }),
    {
        Self::rgb(g, g, g)
    }

    /// An opaque colour from its three channels.
    pub fn rgb(r: u8, g: u8, b: u8) -> (c: Colour)
        ensures
            c == (Colour { r, g, b, a: 255u8 }),
    {
        Self { r, g, b, a: 255 }
    }

    /// A colour from all four channels.
    pub fn rgba(r: u8, g: u8, b: u8, a: u8) -> (c: Colour)
        ensures
            c == (Colour { r, g, b, a }),
    {
        Self { r, g, b, a }
    }

    /// True if the colour is not transparent at all; if the alpha
    /// channel is 255.
    pub fn is_opaque(&self) -> (r: bool)
        ensures
            r == (self.a == 255),
    {
        self.a == 255
    }
}

/// Why a colour literal failed to parse.
#[derive(Debug)]
pub enum ColourParseError {
    Empty,
    InvalidColour { raw: String },
    InvalidHex { raw: String },
    RgbMissingValue { raw: String },
    RgbaMissingValue { raw: String },
    InvalidRgbValue { raw: String },
}

/// The mathematical shape of a `ColourParseError`: the same variants
/// over sequences of characters.
pub enum ColourErrView {
    Empty,
    InvalidColour(Seq<char>),
    InvalidHex(Seq<char>),
    RgbMissingValue(Seq<char>),
    RgbaMissingValue(Seq<char>),
    InvalidRgbValue(Seq<char>),
}

impl View for ColourParseError {
    type V = ColourErrView;

    open spec fn view(&self) -> ColourErrView {
        match self {
            ColourParseError::Empty => ColourErrView::Empty,
            ColourParseError::InvalidColour { raw } => ColourErrView::InvalidColour(raw@),
            ColourParseError::InvalidHex { raw } => ColourErrView::InvalidHex(raw@),
            ColourParseError::RgbMissingValue { raw } => ColourErrView::RgbMissingValue(raw@),
            ColourParseError::RgbaMissingValue { raw } => ColourErrView::RgbaMissingValue(raw@),
            ColourParseError::InvalidRgbValue { raw } => ColourErrView::InvalidRgbValue(raw@),
        }
    }
}

/// An executable parse result agrees with the specified one: the same
/// colour, or an error of the same variant over the same text.
pub open spec fn cres_matches(
    r: Result<Colour, ColourParseError>,
    m: Result<Colour, ColourErrView>,
) -> bool {
    match m {
        Ok(c) => r matches Ok(rc) && rc == c,
        Err(k) => r matches Err(e) && e@ == k,
    }
}

/// The byte written by two hex digits.
pub open spec fn hex_pair_val(l: char, h: char) -> u8 {
    ((hex_digit_val(l) as int) * 16 + hex_digit_val(h) as int) as u8
}

/// A decimal component with an optional leading `+` removed.
pub open spec fn dec_digits_part(t: Seq<char>) -> Seq<char> {
    if t.len() > 0 && t[0] == '+' {
        t.drop_first()
    } else {
        t
    }
}

/// The value of one decimal component: surrounding whitespace already
/// removed, an optional leading `+`, then at least one digit, and a
/// value of at most 255.
pub open spec fn dec_u8_of(t: Seq<char>) -> Option<u8> {
    let d = dec_digits_part(t);
    if d.len() > 0 && (forall|k: int| 0 <= k < d.len() ==> #[trigger] is_dec_digit_char(d[k]))
        && dec_val(d) <= 255 {
        Some(dec_val(d) as u8)
    } else {
        None
    }
}

/// What parsing the hex digits after `#` yields.
pub open spec fn spec_parse_hex(h: Seq<char>) -> Result<Colour, ColourErrView> {
    if h.len() == 0 {
        Err(ColourErrView::Empty)
    } else if h.len() == 1 && is_hex_digit_char(h[0]) {
        Ok(Colour { r: hex_pair_val(h[0], h[0]), g: hex_pair_val(h[0], h[0]), b: hex_pair_val(h[0], h[0]), a: 255u8 })
    } else if h.len() == 2 && is_hex_digit_char(h[0]) && is_hex_digit_char(h[1]) {
        Ok(Colour { r: hex_pair_val(h[0], h[1]), g: hex_pair_val(h[0], h[1]), b: hex_pair_val(h[0], h[1]), a: 255u8 })
    } else if h.len() == 3 && is_hex_digit_char(h[0]) && is_hex_digit_char(h[1])
        && is_hex_digit_char(h[2]) {
        Ok(Colour { r: hex_pair_val(h[0], h[0]), g: hex_pair_val(h[1], h[1]), b: hex_pair_val(h[2], h[2]), a: 255u8 })
    } else if h.len() == 4 && is_hex_digit_char(h[0]) && is_hex_digit_char(h[1])
        && is_hex_digit_char(h[2]) && is_hex_digit_char(h[3]) {
        Ok(Colour { r: hex_pair_val(h[0], h[0]), g: hex_pair_val(h[1], h[1]), b: hex_pair_val(h[2], h[2]), a: hex_pair_val(h[3], h[3]) })
    } else if h.len() == 6 && is_hex_digit_char(h[0]) && is_hex_digit_char(h[1])
        && is_hex_digit_char(h[2]) && is_hex_digit_char(h[3]) && is_hex_digit_char(h[4])
        && is_hex_digit_char(h[5]) {
        Ok(Colour { r: hex_pair_val(h[0], h[1]), g: hex_pair_val(h[2], h[3]), b: hex_pair_val(h[4], h[5]), a: 255u8 })
    } else if h.len() == 8 && is_hex_digit_char(h[0]) && is_hex_digit_char(h[1])
        && is_hex_digit_char(h[2]) && is_hex_digit_char(h[3]) && is_hex_digit_char(h[4])
        && is_hex_digit_char(h[5]) && is_hex_digit_char(h[6]) && is_hex_digit_char(h[7]) {
        Ok(Colour { r: hex_pair_val(h[0], h[1]), g: hex_pair_val(h[2], h[3]), b: hex_pair_val(h[4], h[5]), a: hex_pair_val(h[6], h[7]) })
    } else {
        Err(ColourErrView::InvalidHex(h))
    }
}

/// What parsing the text between the parentheses of `rgb(..)` or
/// `rgba(..)` yields: exactly three (or, with alpha, four)
/// comma-separated decimal components.
pub open spec fn spec_parse_rgb_inner(inner: Seq<char>, has_alpha: bool) -> Result<
    Colour,
    ColourErrView,
> {
    let parts = split_on(inner, ',');
    let n: int = if has_alpha {
        4
    } else {
        3
    };
    if parts.len() != n {
        if has_alpha {
            Err(ColourErrView::RgbaMissingValue(inner))
        } else {
            Err(ColourErrView::RgbMissingValue(inner))
        }
    } else if dec_u8_of(trim_of(parts[0])) is None || dec_u8_of(trim_of(parts[1])) is None
        || dec_u8_of(trim_of(parts[2])) is None || (has_alpha && dec_u8_of(trim_of(parts[3]))
        is None) {
        Err(ColourErrView::InvalidRgbValue(inner))
    } else {
        Ok(
            Colour {
                r: dec_u8_of(trim_of(parts[0]))->Some_0,
                g: dec_u8_of(trim_of(parts[1]))->Some_0,
                b: dec_u8_of(trim_of(parts[2]))->Some_0,
                a: if has_alpha {
                    dec_u8_of(trim_of(parts[3]))->Some_0
                } else {
                    255u8
                },
            },
        )
    }
}

/// What parsing a whole colour literal yields, in the grammar's
/// precedence order: `rgb(..)`, `rgba(..)`, then `#` hex.
pub open spec fn spec_parse_colour(s: Seq<char>) -> Result<Colour, ColourErrView> {
    if s.len() >= 4 && s[0] == 'r' && s[1] == 'g' && s[2] == 'b' && s[3] == '(' {
        if s.last() == ')' {
            spec_parse_rgb_inner(s.subrange(4, s.len() - 1), false)
        } else {
            Err(ColourErrView::InvalidColour(s))
        }
    } else if s.len() >= 5 && s[0] == 'r' && s[1] == 'g' && s[2] == 'b' && s[3] == 'a' && s[4]
        == '(' {
        if s.last() == ')' {
            spec_parse_rgb_inner(s.subrange(5, s.len() - 1), true)
        } else {
            Err(ColourErrView::InvalidColour(s))
        }
    } else if s.len() == 0 {
        Err(ColourErrView::Empty)
    } else if s[0] == '#' {
        spec_parse_hex(s.drop_first())
    } else {
        Err(ColourErrView::InvalidColour(s))
    }
}

/// Every valid hex literal parses, and parses byte-exactly: a `#`
/// followed by 1, 2, 3, 4, 6 or 8 hex digits always yields a colour,
/// the one the digit-duplication and direct-byte rules of
/// `spec_parse_hex` give — the functional notations never capture it.
pub proof fn lemma_hex_literals_parse(s: Seq<char>)
    requires
        s.len() >= 2,
        s[0] == '#',
        s.len() == 2 || s.len() == 3 || s.len() == 4 || s.len() == 5 || s.len() == 7 || s.len()
            == 9,
        forall|k: int| 1 <= k < s.len() ==> is_hex_digit_char(#[trigger] s[k]),
    ensures
        spec_parse_colour(s) == spec_parse_hex(s.drop_first()),
        spec_parse_colour(s) is Ok,
{
    let h = s.drop_first();
    assert forall|k: int| 0 <= k < h.len() implies is_hex_digit_char(#[trigger] h[k]) by {
        assert(h[k] == s[k + 1]);
    }
    assert(spec_parse_colour(s) == spec_parse_hex(h));
}

/// Relies on std's formatter for `char`, which writes the character
/// itself: the result is exactly the two characters in order.
#[verifier::external_body]
fn two_char_string(a: char, b: char) -> (r: String)
    ensures
        r@ == seq![a, b],
{
    format!("{}{}", a, b)
}

impl Colour {
    /// Parse two hex digits as one byte; the first digit carries the
    /// high four bits.
    pub fn parse_hexpair(low: char, high: char) -> (r: Result<u8, ColourParseError>)
        ensures
            is_hex_digit_char(low) && is_hex_digit_char(high) ==> (r matches Ok(v) && v
                == hex_pair_val(low, high)),
            !(is_hex_digit_char(low) && is_hex_digit_char(high)) ==> (r matches Err(e) && e@
                == ColourErrView::InvalidHex(seq![low, high])),
    {
        if is_hex_digit(low) && is_hex_digit(high) {
            Ok(16 * hex_digit(low) + hex_digit(high))
        } else {
            Err(ColourParseError::InvalidHex { raw: two_char_string(low, high) })
        }
    }

    /// Parse the hex digits that followed a `#`.
    pub fn parse_hex(s: &str) -> (r: Result<Colour, ColourParseError>)
        ensures
            cres_matches(r, spec_parse_hex(s@)),
    {
        let n = s.unicode_len();
        if n == 0 {
            return Err(ColourParseError::Empty);
        }
        if n == 1 {
            let d = s.get_char(0);
            match Self::parse_hexpair(d, d) {
                Ok(g) => Ok(Self::grey(g)),
                Err(_) => Err(ColourParseError::InvalidHex { raw: s.to_owned() }),
            }
        } else if n == 2 {
            let low = s.get_char(0);
            let high = s.get_char(1);
            match Self::parse_hexpair(low, high) {
                Ok(g) => Ok(Self::grey(g)),
                Err(_) => Err(ColourParseError::InvalidHex { raw: s.to_owned() }),
            }
        } else if n == 3 {
            let rch = s.get_char(0);
            let gch = s.get_char(1);
            let bch = s.get_char(2);
            match (Self::parse_hexpair(rch, rch), Self::parse_hexpair(gch, gch), Self::parse_hexpair(bch, bch)) {
                (Ok(r), Ok(g), Ok(b)) => Ok(Self::rgb(r, g, b)),
                _ => Err(ColourParseError::InvalidHex { raw: s.to_owned() }),
            }
        } else if n == 4 {
            let rch = s.get_char(0);
            let gch = s.get_char(1);
            let bch = s.get_char(2);
            let ach = s.get_char(3);
            match (Self::parse_hexpair(rch, rch), Self::parse_hexpair(gch, gch), Self::parse_hexpair(bch, bch), Self::parse_hexpair(ach, ach)) {
                (Ok(r), Ok(g), Ok(b), Ok(a)) => Ok(Self::rgba(r, g, b, a)),
                _ => Err(ColourParseError::InvalidHex { raw: s.to_owned() }),
            }
        } else if n == 6 {
            let rlow = s.get_char(0);
            let rhigh = s.get_char(1);
            let glow = s.get_char(2);
            let ghigh = s.get_char(3);
            let blow = s.get_char(4);
            let bhigh = s.get_char(5);
            match (Self::parse_hexpair(rlow, rhigh), Self::parse_hexpair(glow, ghigh), Self::parse_hexpair(blow, bhigh)) {
                (Ok(r), Ok(g), Ok(b)) => Ok(Self::rgb(r, g, b)),
                _ => Err(ColourParseError::InvalidHex { raw: s.to_owned() }),
            }
        } else if n == 8 {
            let rlow = s.get_char(0);
            let rhigh = s.get_char(1);
            let glow = s.get_char(2);
            let ghigh = s.get_char(3);
            let blow = s.get_char(4);
            let bhigh = s.get_char(5);
            let alow = s.get_char(6);
            let ahigh = s.get_char(7);
            match (Self::parse_hexpair(rlow, rhigh), Self::parse_hexpair(glow, ghigh), Self::parse_hexpair(blow, bhigh), Self::parse_hexpair(alow, ahigh)) {
                (Ok(r), Ok(g), Ok(b), Ok(a)) => Ok(Self::rgba(r, g, b, a)),
                _ => Err(ColourParseError::InvalidHex { raw: s.to_owned() }),
            }
        } else {
            Err(ColourParseError::InvalidHex { raw: s.to_owned() })
        }
    }

    /// Parse one decimal component of `rgb(..)` / `rgba(..)`.
    fn parse_channel(part: &str) -> (r: Option<u8>)
        ensures
            r == dec_u8_of(trim_of(part@)),
    {
        let t = trim(part);
        let n = t.unicode_len();
        let mut i: usize = 0;
        if n > 0 && t.get_char(0) == '+' {
            i = 1;
        }
        let ghost d = dec_digits_part(t@);
        assert(d =~= t@.skip(i as int));
        if i == n {
            return None;
        }
        let mut acc: u16 = 0;
        let mut j: usize = i;
        while j < n
            invariant
                i <= j <= n,
                n == t@.len(),
                acc <= 255,
                t@ == trim_of(part@),
                d == t@.skip(i as int),
                d == dec_digits_part(t@),
                forall|k: int| 0 <= k < j - i ==> is_dec_digit_char(d[k]),
                acc as nat == dec_val(d.take(j - i)),
            decreases n - j,
        {
            let c = t.get_char(j);
            assert(d[j - i] == c);
            if !is_dec_digit(c) {
                proof {
                    assert(0 <= j - i < d.len() && !is_dec_digit_char(d[j - i]));
                    assert(dec_u8_of(trim_of(part@)) is None);
                }
                return None;
            }
            let v = dec_digit(c);
            let next: u16 = acc * 10 + v as u16;
            proof {
                assert(d.take(j - i + 1).drop_last() =~= d.take(j - i));
                assert(d.take(j - i + 1).last() == c);
                assert(dec_val(d.take(j - i + 1)) == dec_val(d.take(j - i)) * 10 + dec_digit_val(
                    c,
                ) as nat);
            }
            if next > 255 {
                proof {
                    if forall|k: int| 0 <= k < d.len() ==> is_dec_digit_char(d[k]) {
                        lemma_dec_val_prefix_le(d, j - i + 1);
                        assert(dec_val(d) > 255);
                    }
                    assert(dec_u8_of(trim_of(part@)) is None);
                }
                return None;
            }
            acc = next;
            j += 1;
        }
        proof {
            assert(d.take(n - i) =~= d);
        }
        Some(acc as u8)
    }

    /// Parse the text between the parentheses of `rgb(..)` (or, with
    /// `has_alpha`, of `rgba(..)`).
    pub fn parse_rgb_inner(raw: &str, has_alpha: bool) -> (r: Result<Colour, ColourParseError>)
        ensures
            cres_matches(r, spec_parse_rgb_inner(raw@, has_alpha)),
    {
        let parts = split_char(raw, ',');
        let needed: usize = if has_alpha {
            4
        } else {
            3
        };
        if parts.len() != needed {
            return if has_alpha {
                Err(ColourParseError::RgbaMissingValue { raw: raw.to_owned() })
            } else {
                Err(ColourParseError::RgbMissingValue { raw: raw.to_owned() })
            };
        }
        assert(parts@[0]@ == split_on(raw@, ',')[0]);
        let red = match Self::parse_channel(parts[0].as_str()) {
            None => return Err(ColourParseError::InvalidRgbValue { raw: raw.to_owned() }),
            Some(v) => v,
        };
        let green = match Self::parse_channel(parts[1].as_str()) {
            None => return Err(ColourParseError::InvalidRgbValue { raw: raw.to_owned() }),
            Some(v) => v,
        };
        let blue = match Self::parse_channel(parts[2].as_str()) {
            None => return Err(ColourParseError::InvalidRgbValue { raw: raw.to_owned() }),
            Some(v) => v,
        };
        if has_alpha {
            let alpha = match Self::parse_channel(parts[3].as_str()) {
                None => return Err(ColourParseError::InvalidRgbValue { raw: raw.to_owned() }),
                Some(v) => v,
            };
            Ok(Self::rgba(red, green, blue, alpha))
        } else {
            Ok(Self::rgb(red, green, blue))
        }
    }

    /// Parse a colour literal.
    pub fn parse(s: &str) -> (r: Result<Colour, ColourParseError>)
        ensures
            cres_matches(r, spec_parse_colour(s@)),
    {
        let n = s.unicode_len();
        if n >= 4 && s.get_char(0) == 'r' && s.get_char(1) == 'g' && s.get_char(2) == 'b'
            && s.get_char(3) == '(' {
            return if s.get_char(n - 1) == ')' {
                let inner = s.substring_char(4, n - 1);
                assert(inner@ == s@.subrange(4, s@.len() - 1));
                Self::parse_rgb_inner(inner, false)
            } else {
                Err(ColourParseError::InvalidColour { raw: s.to_owned() })
            };
        }
        if n >= 5 && s.get_char(0) == 'r' && s.get_char(1) == 'g' && s.get_char(2) == 'b'
            && s.get_char(3) == 'a' && s.get_char(4) == '(' {
            return if s.get_char(n - 1) == ')' {
                let inner = s.substring_char(5, n - 1);
                assert(inner@ == s@.subrange(5, s@.len() - 1));
                Self::parse_rgb_inner(inner, true)
            } else {
                Err(ColourParseError::InvalidColour { raw: s.to_owned() })
            };
        }
        if n == 0 {
            return Err(ColourParseError::Empty);
        }
        if s.get_char(0) == '#' {
            let hex = s.substring_char(1, n);
            assert(hex@ =~= s@.drop_first());
            return Self::parse_hex(hex);
        }
        Err(ColourParseError::InvalidColour { raw: s.to_owned() })
    }
}

impl core::str::FromStr for Colour {
    type Err = ColourParseError;

    fn from_str(s: &str) -> Result<Colour, ColourParseError> {
        Colour::parse(s)
    }
}

} // verus!
