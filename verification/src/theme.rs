//! Colour palettes and the colour parser used by gradient interpolation.

use vstd::prelude::*;

use crate::color::{hex_digit_value, hex_pair, hex_pair_value, hex_value, starts_char};
use vstd::string::StringSliceAdditionalSpecFns;

use crate::sink::{hex_digit_lower, push_hex_digit};
use crate::text::{ascii_lowercase, chars_equal, chars_of, push_char, to_ascii_lowercase};

verus! {

/// The default categorical palette, colorblind-aware.
pub const CATEGORICAL_PALETTE: [&'static str; 10] = [
    "#4E79A7",
    "#F28E2B",
    "#E15759",
    "#76B7B2",
    "#59A14F",
    "#EDC948",
    "#B07AA1",
    "#FF9DA7",
    "#9C755F",
    "#BAB0AC",
];

/// A higher-contrast categorical palette, selected by the name `accent`.
pub const ACCENT_PALETTE: [&'static str; 10] = [
    "#006BA4",
    "#FF800E",
    "#ABABAB",
    "#595959",
    "#5F9ED1",
    "#C85200",
    "#898989",
    "#A2C8EC",
    "#FFBC79",
    "#CFCFCF",
];

/// The default continuous gradient stops, perceptually ordered.
pub const CONTINUOUS_GRADIENT: [&'static str; 4] = ["#440154", "#31688E", "#35B779", "#FDE725"];

/// Whether a palette name selects the accent palette.
pub open spec fn names_accent(name: Option<Seq<char>>) -> bool {
    name == Some("accent"@)
}

/// The palette a name selects: `accent` selects the accent palette, every
/// other name (and no name) the categorical palette.
pub open spec fn palette_of(name: Option<Seq<char>>) -> Seq<&'static str> {
    if names_accent(name) {
        ACCENT_PALETTE@
    } else {
        CATEGORICAL_PALETTE@
    }
}

/// The view of an optional string argument.
pub open spec fn opt_view(name: Option<&str>) -> Option<Seq<char>> {
    match name {
        Some(s) => Some(s@),
        None => None,
    }
}

fn is_accent(name: Option<&str>) -> (b: bool)
    ensures
        b == names_accent(opt_view(name)),
{
    match name {
        Some(s) => {
            let x = chars_of(s);
            let y = chars_of("accent");
            chars_equal(x.as_slice(), y.as_slice())
        },
        None => false,
    }
}

/// The colours of the named palette.
pub fn palette_colors(name: Option<&str>) -> (colors: &'static [&'static str])
    ensures
        colors@ == palette_of(opt_view(name)),
{
    if is_accent(name) {
        &ACCENT_PALETTE
    } else {
        &CATEGORICAL_PALETTE
    }
}

/// Pick a categorical color from a named palette by stable index; indices
/// past the end wrap around.
pub fn categorical_color_from(name: Option<&str>, index: usize) -> (color: &'static str)
    ensures
        color == palette_of(opt_view(name))[index as int % 10],
{
    let palette = palette_colors(name);
    palette[index % palette.len()]
}

/// Palette colours repeat with the palette's length: index `i` and index
/// `i + 10` pick the same colour.
pub proof fn lemma_categorical_colors_cycle(name: Option<Seq<char>>, index: int)
    requires
        index >= 0,
    ensures
        palette_of(name)[index % 10] == palette_of(name)[(index + 10) % 10],
{
    assert((index + 10) % 10 == index % 10);
}

// ---------------------------------------------------------------------------
// Colour parsing for gradients
// ---------------------------------------------------------------------------

/// The bytes that remain after every leading `#` is removed.
pub open spec fn trim_leading_hash(b: Seq<u8>) -> Seq<u8>
    decreases b.len(),
{
    if b.len() > 0 && b[0] == 35 {
        trim_leading_hash(b.drop_first())
    } else {
        b
    }
}

/// The RGB value of the CSS colour names the gradient parser knows.
pub open spec fn gradient_named_color(lower: Seq<char>) -> Option<(u8, u8, u8)> {
    if lower == "black"@ {
        Some((0u8, 0u8, 0u8))
    } else if lower == "white"@ {
        Some((255u8, 255u8, 255u8))
    } else if lower == "red"@ {
        Some((255u8, 0u8, 0u8))
    } else if lower == "green"@ {
        Some((0u8, 128u8, 0u8))
    } else if lower == "blue"@ {
        Some((0u8, 0u8, 255u8))
    } else if lower == "steelblue"@ {
        Some((70u8, 130u8, 180u8))
    } else if lower == "orange"@ {
        Some((255u8, 165u8, 0u8))
    } else if lower == "purple"@ {
        Some((128u8, 0u8, 128u8))
    } else {
        None
    }
}

/// A one-digit channel: the digit times 17, or 0 when it is not a digit.
pub open spec fn short_channel(b: u8) -> u8 {
    match hex_value(b) {
        Some(v) => (v * 17) as u8,
        None => 0,
    }
}

/// A two-digit channel, or 0 when the field does not parse.
pub open spec fn long_channel(b0: u8, b1: u8) -> u8 {
    match hex_pair_value(b0, b1) {
        Some(v) => v,
        None => 0,
    }
}

/// The RGB value the gradient parser gives the UTF-8 bytes of a colour
/// whose characters are `chars`.
pub open spec fn gradient_rgb(chars: Seq<char>, bytes: Seq<u8>) -> (u8, u8, u8) {
    match gradient_named_color(ascii_lowercase(chars)) {
        Some(rgb) => rgb,
        None => {
            let h = trim_leading_hash(bytes);
            if h.len() == 3 {
                (short_channel(h[0]), short_channel(h[1]), short_channel(h[2]))
            } else if h.len() == 6 {
                (long_channel(h[0], h[1]), long_channel(h[2], h[3]), long_channel(h[4], h[5]))
            } else {
                (0u8, 0u8, 0u8)
            }
        },
    }
}

/// Whether the hex digits of a colour can be sliced into their fields: the
/// field boundaries fall on character boundaries.
pub open spec fn hex_fields_sliceable(h: Seq<u8>) -> bool {
    &&& h.len() == 3 ==> starts_char(h[1]) && starts_char(h[2])
    &&& h.len() == 6 ==> starts_char(h[2]) && starts_char(h[4])
}

fn named_gradient_color(lower: &Vec<char>) -> (rgb: Option<(u8, u8, u8)>)
    ensures
        rgb == gradient_named_color(lower@),
{
    let l = lower.as_slice();
    if chars_equal(l, chars_of("black").as_slice()) {
        Some((0, 0, 0))
    } else if chars_equal(l, chars_of("white").as_slice()) {
        Some((255, 255, 255))
    } else if chars_equal(l, chars_of("red").as_slice()) {
        Some((255, 0, 0))
    } else if chars_equal(l, chars_of("green").as_slice()) {
        Some((0, 128, 0))
    } else if chars_equal(l, chars_of("blue").as_slice()) {
        Some((0, 0, 255))
    } else if chars_equal(l, chars_of("steelblue").as_slice()) {
        Some((70, 130, 180))
    } else if chars_equal(l, chars_of("orange").as_slice()) {
        Some((255, 165, 0))
    } else if chars_equal(l, chars_of("purple").as_slice()) {
        Some((128, 0, 128))
    } else {
        None
    }
}

fn short_channel_of(b: u8) -> (v: u8)
    ensures
        v == short_channel(b),
{
    match hex_digit_value(b) {
        Some(d) => d * 17,
        None => 0,
    }
}

fn long_channel_of(b0: u8, b1: u8) -> (v: u8)
    ensures
        v == long_channel(b0, b1),
{
    match hex_pair(b0, b1) {
        Some(v) => v,
        None => 0,
    }
}

/// Parse a colour for gradient interpolation: a known CSS name (any ASCII
/// case), else `#rgb` / `#rrggbb` hex (any number of leading `#`), with
/// unparsable channels read as 0; anything else is black.
pub fn parse_color(color: &str) -> (rgb: (u8, u8, u8))
    requires
        hex_fields_sliceable(trim_leading_hash(color.spec_bytes())),
    ensures
        rgb == gradient_rgb(color@, color.spec_bytes()),
{
    let lower = to_ascii_lowercase(color);
    if let Some(rgb) = named_gradient_color(&lower) {
        return rgb;
    }
    let bytes = color.as_bytes();
    let mut start: usize = 0;
    assert(bytes@.skip(0) =~= bytes@);
    while start < bytes.len() && bytes[start] == 35
        invariant
            start <= bytes@.len(),
            trim_leading_hash(bytes@.skip(start as int)) == trim_leading_hash(bytes@),
        decreases bytes@.len() - start,
    {
        assert(bytes@.skip(start as int).drop_first() =~= bytes@.skip(start + 1));
        start = start + 1;
    }
    let ghost h = bytes@.skip(start as int);
    assert(trim_leading_hash(h) == h);
    let n = bytes.len() - start;
    if n == 3 {
        (
            short_channel_of(bytes[start]),
            short_channel_of(bytes[start + 1]),
            short_channel_of(bytes[start + 2]),
        )
    } else if n == 6 {
        (
            long_channel_of(bytes[start], bytes[start + 1]),
            long_channel_of(bytes[start + 2], bytes[start + 3]),
            long_channel_of(bytes[start + 4], bytes[start + 5]),
        )
    } else {
        (0, 0, 0)
    }
}

/// The `#rrggbb` text of a colour, in lower-case hexadecimal.
pub open spec fn hex_color_text(rgb: (u8, u8, u8)) -> Seq<char> {
    seq![
        '#',
        hex_digit_lower((rgb.0 / 16) as u32),
        hex_digit_lower((rgb.0 % 16) as u32),
        hex_digit_lower((rgb.1 / 16) as u32),
        hex_digit_lower((rgb.1 % 16) as u32),
        hex_digit_lower((rgb.2 / 16) as u32),
        hex_digit_lower((rgb.2 % 16) as u32),
    ]
}

/// Write a colour as `#rrggbb`.
pub fn hex_color(rgb: (u8, u8, u8)) -> (text: String)
    ensures
        text@ == hex_color_text(rgb),
{
    let mut out = String::new();
    push_char(&mut out, '#');
    push_hex_digit(&mut out, (rgb.0 / 16) as u32);
    push_hex_digit(&mut out, (rgb.0 % 16) as u32);
    push_hex_digit(&mut out, (rgb.1 / 16) as u32);
    push_hex_digit(&mut out, (rgb.1 % 16) as u32);
    push_hex_digit(&mut out, (rgb.2 / 16) as u32);
    push_hex_digit(&mut out, (rgb.2 % 16) as u32);
    assert(out@ =~= hex_color_text(rgb));
    out
}

} // verus!
