//! A single RGB color: three 8-bit channels, a decimal `"R,G,B"` parser
//! and a fixed lowercase hexadecimal rendering.
use vstd::prelude::*;

use crate::num::all_dec_digits;
use crate::num::dec_byte_value;
use crate::num::dec_val;
use crate::num::digits_after_sign;
use crate::num::is_dec_digit;
use crate::num::spec_dec_byte;
use crate::text::count_char;
use crate::text::lemma_split_on_append;
use crate::text::lemma_split_on_count;
use crate::text::lemma_split_on_no_sep;
use crate::text::push_char;
use crate::text::split_on;
use crate::text::split_str;

verus! {

/// The reason a numeric field failed to parse as a decimal `u8`.
#[derive(Debug, Clone, Copy, PartialEq, Eq, Structural)]
pub enum NumError {
    Empty,
    InvalidDigit,
    Overflow,
}

/// Errors of the two scheme parsers and of the color parser: a structural
/// violation, or a numeric field that is not a valid number in range.
#[derive(Debug, Clone, Copy, PartialEq, Eq, Structural)]
pub enum ColorError {
    InvalidFormat,
    ParseInt(NumError),
}

/// An RGB triple; equality is exact channel equality.
#[derive(Debug, Clone, Copy, PartialEq, Eq, Structural)]
pub struct Color {
    pub red: u8,
    pub green: u8,
    pub blue: u8,
}

impl Default for Color {
    /// The default color is black: all channels zero.
    fn default() -> (c: Self)
        ensures
            c == (Color { red: 0, green: 0, blue: 0 }),
    {
        Color { red: 0, green: 0, blue: 0 }
    }
}

pub open spec fn hex_digit(d: int) -> char {
    if d == 0 {
        '0'
    } else if d == 1 {
        '1'
    } else if d == 2 {
        '2'
    } else if d == 3 {
        '3'
    } else if d == 4 {
        '4'
    } else if d == 5 {
        '5'
    } else if d == 6 {
        '6'
    } else if d == 7 {
        '7'
    } else if d == 8 {
        '8'
    } else if d == 9 {
        '9'
    } else if d == 10 {
        'a'
    } else if d == 11 {
        'b'
    } else if d == 12 {
        'c'
    } else if d == 13 {
        'd'
    } else if d == 14 {
        'e'
    } else {
        'f'
    }
}

/// Two lowercase hexadecimal digits, zero-padded, for one channel.
pub open spec fn hex_byte(b: u8) -> Seq<char> {
    seq![hex_digit(b as int / 16), hex_digit(b as int % 16)]
}

/// The fixed rendering of a color: `0x` then two digits per channel.
pub open spec fn spec_to_hex(c: Color) -> Seq<char> {
    seq!['0', 'x'] + hex_byte(c.red) + hex_byte(c.green) + hex_byte(c.blue)
}

fn hex_char(d: u8) -> (c: char)
    requires
        d < 16,
    ensures
        c == hex_digit(d as int),
{
    if d == 0 {
        '0'
    } else if d == 1 {
        '1'
    } else if d == 2 {
        '2'
    } else if d == 3 {
        '3'
    } else if d == 4 {
        '4'
    } else if d == 5 {
        '5'
    } else if d == 6 {
        '6'
    } else if d == 7 {
        '7'
    } else if d == 8 {
        '8'
    } else if d == 9 {
        '9'
    } else if d == 10 {
        'a'
    } else if d == 11 {
        'b'
    } else if d == 12 {
        'c'
    } else if d == 13 {
        'd'
    } else if d == 14 {
        'e'
    } else {
        'f'
    }
}

fn push_hex_byte(out: &mut String, b: u8)
    ensures
        final(out)@ == old(out)@ + hex_byte(b),
{
    push_char(out, hex_char(b / 16));
    push_char(out, hex_char(b % 16));
    proof {
        assert(out@ =~= old(out)@ + hex_byte(b));
    }
}

/// What parsing one field as a channel value yields: the numeric-parse
/// failure is carried inside the color error.
pub open spec fn spec_parse_int(s: Seq<char>) -> Result<u8, ColorError> {
    match spec_dec_byte(s) {
        Ok(v) => Ok(v),
        Err(e) => Err(ColorError::ParseInt(e)),
    }
}

/// What parsing an `"R,G,B"` string yields: exactly three comma-separated
/// fields, each a decimal 0-255 integer; the first failing field aborts
/// the whole parse.
pub open spec fn spec_color_from_string(s: Seq<char>) -> Result<Color, ColorError> {
    let parts = split_on(s, ',');
    if parts.len() != 3 {
        Err(ColorError::InvalidFormat)
    } else {
        match spec_parse_int(parts[0]) {
            Err(e) => Err(e),
            Ok(red) => match spec_parse_int(parts[1]) {
                Err(e) => Err(e),
                Ok(green) => match spec_parse_int(parts[2]) {
                    Err(e) => Err(e),
                    Ok(blue) => Ok(Color { red, green, blue }),
                },
            },
        }
    }
}

/// A field that parses as a channel value: after an optional leading
/// plus sign, a nonempty string of decimal digits worth at most 255.
pub open spec fn valid_component(s: Seq<char>) -> bool {
    let d = digits_after_sign(s);
    s.len() > 0 && d.len() > 0 && all_dec_digits(d) && dec_val(d) <= 255
}

impl Color {
    /// Parses a string of exactly three comma-separated decimal 0-255
    /// fields; any failing field aborts the whole parse.
    pub fn from_string(s: &str) -> (r: Result<Self, ColorError>)
        ensures
            r == spec_color_from_string(s@),
    {
        let parts = split_str(s, ',');
        proof {
            assert(forall|k: int|
                0 <= k < parts@.len() ==> parts@.map_values(|p: String| p@)[k] == (
                #[trigger] parts@[k])@);
        }
        if parts.len() != 3 {
            return Err(ColorError::InvalidFormat);
        }
        let red = match Self::parse_int(parts[0].as_str()) {
            Ok(v) => v,
            Err(e) => {
                return Err(e);
            },
        };
        let green = match Self::parse_int(parts[1].as_str()) {
            Ok(v) => v,
            Err(e) => {
                return Err(e);
            },
        };
        let blue = match Self::parse_int(parts[2].as_str()) {
            Ok(v) => v,
            Err(e) => {
                return Err(e);
            },
        };
        Ok(Color { red, green, blue })
    }

    /// Parses one decimal field, wrapping the numeric failure.
    fn parse_int(s: &str) -> (r: Result<u8, ColorError>)
        ensures
            r == spec_parse_int(s@),
    {
        match dec_byte_value(s) {
            Ok(v) => Ok(v),
            Err(e) => Err(ColorError::ParseInt(e)),
        }
    }

    /// Renders the color as a fixed lowercase hexadecimal literal with a
    /// `0x` prefix and exactly two digits per channel. Total: never fails.
    pub fn to_hex(&self) -> (r: String)
        ensures
            r@ == spec_to_hex(*self),
    {
        let mut out = String::new();
        push_char(&mut out, '0');
        push_char(&mut out, 'x');
        push_hex_byte(&mut out, self.red);
        push_hex_byte(&mut out, self.green);
        push_hex_byte(&mut out, self.blue);
        proof {
            assert(out@ =~= spec_to_hex(*self));
        }
        out
    }
}

/// A valid component holds no comma: a plus sign or decimal digits only.
proof fn lemma_component_no_comma(c: Seq<char>)
    requires
        valid_component(c),
    ensures
        forall|i: int| 0 <= i < c.len() ==> (#[trigger] c[i]) != ',',
{
    let d = digits_after_sign(c);
    assert forall|i: int| 0 <= i < c.len() implies (#[trigger] c[i]) != ',' by {
        assert((',' as int) == 44);
        if c[0] == '+' {
            if i == 0 {
                assert(('+' as int) == 43);
            } else {
                assert(d[i - 1] == c[i]);
                assert(is_dec_digit(d[i - 1]));
            }
        } else {
            assert(d[i] == c[i]);
            assert(is_dec_digit(d[i]));
        }
    }
}

/// Law: parsing a string built from three valid decimal components
/// recovers exactly those channel values.
pub proof fn lemma_from_string_recovers_channels(r: Seq<char>, g: Seq<char>, b: Seq<char>)
    requires
        valid_component(r),
        valid_component(g),
        valid_component(b),
    ensures
        spec_color_from_string(r + seq![','] + g + seq![','] + b) == Ok::<Color, ColorError>(
            Color {
                red: dec_val(digits_after_sign(r)) as u8,
                green: dec_val(digits_after_sign(g)) as u8,
                blue: dec_val(digits_after_sign(b)) as u8,
            },
        ),
{
    let s = r + seq![','] + g + seq![','] + b;
    lemma_component_no_comma(r);
    lemma_component_no_comma(g);
    lemma_component_no_comma(b);
    let tail = g + seq![','] + b;
    assert(s =~= r + seq![','] + tail);
    lemma_split_on_append(r, tail, ',');
    lemma_split_on_append(g, b, ',');
    lemma_split_on_no_sep(b, ',');
    let parts = split_on(s, ',');
    assert(parts =~~= seq![r, g, b]);
}

/// Law: a string without exactly two commas is rejected as structurally
/// invalid, whatever its fields hold.
pub proof fn lemma_from_string_wrong_commas(s: Seq<char>)
    requires
        count_char(s, ',') != 2,
    ensures
        spec_color_from_string(s) == Err::<Color, ColorError>(ColorError::InvalidFormat),
{
    lemma_split_on_count(s, ',');
}

/// Law: a string with exactly two commas but some field that is not a
/// valid decimal 0-255 integer always yields a numeric-parse error.
pub proof fn lemma_from_string_bad_component(s: Seq<char>)
    requires
        count_char(s, ',') == 2,
        !(valid_component(split_on(s, ',')[0]) && valid_component(split_on(s, ',')[1])
            && valid_component(split_on(s, ',')[2])),
    ensures
        spec_color_from_string(s) matches Err(e) && e matches ColorError::ParseInt(_),
{
    lemma_split_on_count(s, ',');
}

} // verus!
