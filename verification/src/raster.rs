//! Colour parsing for the raster backend.

use vstd::prelude::*;
use vstd::string::StringSliceAdditionalSpecFns;

use crate::color::{hex_digit_value, hex_pair, hex_pair_value, hex_value, starts_char};
use crate::text::{ascii_lowercase, chars_equal, chars_of, to_ascii_lowercase};

verus! {

/// The RGB value of a 3- or 6-digit hex colour body (without `#`); `None`
/// when a field is not hex or the length is neither 3 nor 6.
pub open spec fn hex_rgb(b: Seq<u8>) -> Option<(u8, u8, u8)> {
    if b.len() == 3 {
        match (hex_value(b[0]), hex_value(b[1]), hex_value(b[2])) {
            (Some(r), Some(g), Some(bl)) => Some(((r * 17) as u8, (g * 17) as u8, (bl * 17) as u8)),
            _ => None,
        }
    } else if b.len() == 6 {
        match (hex_pair_value(b[0], b[1]), hex_pair_value(b[2], b[3]), hex_pair_value(b[4], b[5])) {
            (Some(r), Some(g), Some(bl)) => Some((r, g, bl)),
            _ => None,
        }
    } else {
        None
    }
}

/// The CSS colour names the raster backend knows, by lower-case name.
pub open spec fn raster_named_color(lower: Seq<char>) -> Option<(u8, u8, u8)> {
    if lower == "black"@ {
        Some((0u8, 0u8, 0u8))
    } else if lower == "white"@ {
        Some((255u8, 255u8, 255u8))
    } else if lower == "red"@ {
        Some((255u8, 0u8, 0u8))
    } else if lower == "green"@ {
        Some((0u8, 128u8, 0u8))
    } else if lower == "blue"@ {
        Some((0u8, 0u8, 255u8))
    } else if lower == "gray"@ || lower == "grey"@ {
        Some((128u8, 128u8, 128u8))
    } else if lower == "lightgray"@ || lower == "lightgrey"@ {
        Some((211u8, 211u8, 211u8))
    } else if lower == "orange"@ {
        Some((255u8, 165u8, 0u8))
    } else if lower == "steelblue"@ {
        Some((70u8, 130u8, 180u8))
    } else if lower == "tomato"@ {
        Some((255u8, 99u8, 71u8))
    } else {
        None
    }
}

fn short_field(b: u8) -> (v: Option<u8>)
    ensures
        v == match hex_value(b) {
            Some(d) => Some((d * 17) as u8),
            None => None,
        },
{
    match hex_digit_value(b) {
        Some(d) => Some(d * 17),
        None => None,
    }
}

fn hex_rgb_at(b: &[u8], start: usize) -> (rgb: Option<(u8, u8, u8)>)
    requires
        start <= b@.len(),
    ensures
        rgb == hex_rgb(b@.skip(start as int)),
{
    let n = b.len() - start;
    if n == 3 {
        let r = short_field(b[start]);
        let g = short_field(b[start + 1]);
        let bl = short_field(b[start + 2]);
        match (r, g, bl) {
            (Some(r), Some(g), Some(bl)) => Some((r, g, bl)),
            _ => None,
        }
    } else if n == 6 {
        let r = hex_pair(b[start], b[start + 1]);
        let g = hex_pair(b[start + 2], b[start + 3]);
        let bl = hex_pair(b[start + 4], b[start + 5]);
        match (r, g, bl) {
            (Some(r), Some(g), Some(bl)) => Some((r, g, bl)),
            _ => None,
        }
    } else {
        None
    }
}

/// Parse the body of a hex colour (without `#`): three digits, each scaled
/// by 17, or three two-digit fields.
pub fn parse_hex(hex: &str) -> (rgb: Option<(u8, u8, u8)>)
    requires
        hex.spec_bytes().len() == 6 ==> starts_char(hex.spec_bytes()[2]) && starts_char(
            hex.spec_bytes()[4],
        ),
    ensures
        rgb == hex_rgb(hex.spec_bytes()),
{
    let b = hex.as_bytes();
    assert(b@.skip(0) =~= b@);
    hex_rgb_at(b, 0)
}

/// The RGB value of a known CSS colour name, in any ASCII case.
/// `transparent` and unknown names have none.
pub fn named_color(name: &str) -> (rgb: Option<(u8, u8, u8)>)
    ensures
        rgb == raster_named_color(ascii_lowercase(name@)),
{
    let lower = to_ascii_lowercase(name);
    let l = lower.as_slice();
    if chars_equal(l, chars_of("black").as_slice()) {
        Some((0, 0, 0))
    } else if chars_equal(l, chars_of("white").as_slice()) {
        Some((255, 255, 255))
    } else if chars_equal(l, chars_of("red").as_slice()) {
        Some((255, 0, 0))
    } else if chars_equal(l, chars_of("green").as_slice()) {
        Some((0, 128, 0))
    } else if chars_equal(l, chars_of("blue").as_slice()) {
        Some((0, 0, 255))
    } else if chars_equal(l, chars_of("gray").as_slice()) || chars_equal(
        l,
        chars_of("grey").as_slice(),
    ) {
        Some((128, 128, 128))
    } else if chars_equal(l, chars_of("lightgray").as_slice()) || chars_equal(
        l,
        chars_of("lightgrey").as_slice(),
    ) {
        Some((211, 211, 211))
    } else if chars_equal(l, chars_of("orange").as_slice()) {
        Some((255, 165, 0))
    } else if chars_equal(l, chars_of("steelblue").as_slice()) {
        Some((70, 130, 180))
    } else if chars_equal(l, chars_of("tomato").as_slice()) {
        Some((255, 99, 71))
    } else {
        None
    }
}

/// The grey the raster backend paints colours it does not know with.
pub open spec fn unknown_grey() -> (u8, u8, u8) {
    (0x88u8, 0x88u8, 0x88u8)
}

/// The RGB value the raster backend paints a colour with: `#` and a hex body
/// when that parses, else a known name (any ASCII case), else grey.
pub open spec fn raster_rgb_of(chars: Seq<char>, bytes: Seq<u8>) -> (u8, u8, u8) {
    let hex = if bytes.len() > 0 && bytes[0] == 35 {
        hex_rgb(bytes.drop_first())
    } else {
        None
    };
    match hex {
        Some(rgb) => rgb,
        None => match raster_named_color(ascii_lowercase(chars)) {
            Some(rgb) => rgb,
            None => unknown_grey(),
        },
    }
}

/// The RGB value of a draw-list colour for rasterizing.
pub fn raster_rgb(color: &str) -> (rgb: (u8, u8, u8))
    requires
        color.spec_bytes().len() == 7 && color.spec_bytes()[0] == 35 ==> starts_char(
            color.spec_bytes()[3],
        ) && starts_char(color.spec_bytes()[5]),
    ensures
        rgb == raster_rgb_of(color@, color.spec_bytes()),
{
    let b = color.as_bytes();
    if b.len() > 0 && b[0] == 35 {
        assert(b@.skip(1) =~= b@.drop_first());
        if let Some(rgb) = hex_rgb_at(b, 1) {
            return rgb;
        }
    }
    match named_color(color) {
        Some(rgb) => rgb,
        None => (0x88, 0x88, 0x88),
    }
}

} // verus!
