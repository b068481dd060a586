//! Local image assets: source de-duplication, URL rejection, MIME types from
//! file extensions, image header sniffing and base64 data URLs.

use vstd::prelude::*;
use vstd::string::StringSliceAdditionalSpecFns;

use crate::theme::opt_view;
use crate::text::{
    ascii_lowercase, chars_equal, chars_of, fields, push_char, split_fields, str_equal, texts,
    to_ascii_lowercase,
};

verus! {

// ---------------------------------------------------------------------------
// Image header sniffing
// ---------------------------------------------------------------------------

/// Big-endian `u16` of two bytes.
pub open spec fn be16(hi: u8, lo: u8) -> u16 {
    (hi as u16 * 256 + lo as u16) as u16
}

/// Little-endian `u16` of two bytes.
pub open spec fn le16(lo: u8, hi: u8) -> u16 {
    (hi as u16 * 256 + lo as u16) as u16
}

/// Big-endian `u32` of four bytes.
pub open spec fn be32(b0: u8, b1: u8, b2: u8, b3: u8) -> u32 {
    (b0 as u32 * 16777216 + b1 as u32 * 65536 + b2 as u32 * 256 + b3 as u32) as u32
}

/// Width and height, kept only when both are positive.
pub open spec fn positive_pair<T>(w: T, h: T, w_pos: bool, h_pos: bool) -> Option<(T, T)> {
    if w_pos && h_pos {
        Some((w, h))
    } else {
        None
    }
}

/// The eight-byte PNG signature.
pub open spec fn png_signature() -> Seq<u8> {
    seq![0x89u8, 0x50u8, 0x4eu8, 0x47u8, 0x0du8, 0x0au8, 0x1au8, 0x0au8]
}

/// The dimensions a PNG header declares: big-endian width and height after
/// the signature and the IHDR chunk header, when both are positive.
pub open spec fn png_dims(b: Seq<u8>) -> Option<(u32, u32)> {
    if b.len() < 24 || b.take(8) != png_signature() {
        None
    } else {
        let w = be32(b[16], b[17], b[18], b[19]);
        let h = be32(b[20], b[21], b[22], b[23]);
        positive_pair(w, h, w > 0, h > 0)
    }
}

/// Whether the bytes open with `GIF87a` or `GIF89a`.
pub open spec fn gif_magic(b: Seq<u8>) -> bool {
    &&& b.len() >= 6
    &&& b[0] == 0x47 && b[1] == 0x49 && b[2] == 0x46 && b[3] == 0x38
    &&& (b[4] == 0x37 || b[4] == 0x39)
    &&& b[5] == 0x61
}

/// The dimensions a GIF logical screen descriptor declares (little endian),
/// when both are positive.
pub open spec fn gif_dims(b: Seq<u8>) -> Option<(u16, u16)> {
    if b.len() < 10 || !gif_magic(b) {
        None
    } else {
        let w = le16(b[6], b[7]);
        let h = le16(b[8], b[9]);
        positive_pair(w, h, w > 0, h > 0)
    }
}

/// The JPEG start-of-frame markers, which carry the image dimensions.
pub open spec fn jpeg_sof_marker(m: u8) -> bool {
    m == 0xc0 || m == 0xc1 || m == 0xc2 || m == 0xc3 || m == 0xc5 || m == 0xc6 || m == 0xc7
        || m == 0xc9 || m == 0xca || m == 0xcb || m == 0xcd || m == 0xce || m == 0xcf
}

/// The first index at or after `i` that does not hold a fill byte `0xff`.
pub open spec fn skip_fill(b: Seq<u8>, i: int) -> int
    decreases b.len() - i,
{
    if 0 <= i < b.len() && b[i] == 0xff {
        skip_fill(b, i + 1)
    } else {
        i
    }
}

/// The dimensions found by walking JPEG marker segments from index `i`:
/// stray bytes are skipped, standalone markers (`d8`, `d9`, `01`) have no
/// length, a start-of-frame segment yields height then width, and a
/// truncated or malformed segment ends the walk without a result.
pub open spec fn jpeg_scan(b: Seq<u8>, i: int) -> Option<(u16, u16)>
    decreases b.len() - i, 1int,
{
    if i < 0 || i + 4 > b.len() {
        None
    } else if b[i] != 0xff {
        jpeg_scan(b, i + 1)
    } else {
        jpeg_marker(b, skip_fill(b, i), i)
    }
}

/// The walk continued at the marker byte index `j` (reached from `i`).
pub open spec fn jpeg_marker(b: Seq<u8>, j: int, i: int) -> Option<(u16, u16)>
    decreases b.len() - i, 0int,
{
    if j < i || j >= b.len() {
        None
    } else {
        let marker = b[j];
        let k = j + 1;
        if marker == 0xd8 || marker == 0xd9 || marker == 0x01 {
            jpeg_scan(b, k)
        } else if k + 2 > b.len() {
            None
        } else {
            let len = be16(b[k], b[k + 1]) as int;
            if len < 2 || k + len > b.len() {
                None
            } else if jpeg_sof_marker(marker) && k + 2 + 5 <= b.len() {
                let d = k + 2;
                let h = be16(b[d + 1], b[d + 2]);
                let w = be16(b[d + 3], b[d + 4]);
                positive_pair(w, h, w > 0, h > 0)
            } else {
                jpeg_scan(b, k + len)
            }
        }
    }
}

/// The dimensions of a JPEG image: after the `ffd8` start-of-image marker,
/// the first start-of-frame segment's width and height, when both are
/// positive.
pub open spec fn jpeg_dims(b: Seq<u8>) -> Option<(u16, u16)> {
    if b.len() < 4 || b[0] != 0xff || b[1] != 0xd8 {
        None
    } else {
        jpeg_scan(b, 2)
    }
}

/// Whether a JPEG marker starts a frame (and so carries the dimensions).
pub fn is_jpeg_sof(marker: u8) -> (b: bool)
    ensures
        b == jpeg_sof_marker(marker),
{
    marker == 0xc0 || marker == 0xc1 || marker == 0xc2 || marker == 0xc3 || marker == 0xc5
        || marker == 0xc6 || marker == 0xc7 || marker == 0xc9 || marker == 0xca || marker == 0xcb
        || marker == 0xcd || marker == 0xce || marker == 0xcf
}

fn read_be16(hi: u8, lo: u8) -> (v: u16)
    ensures
        v == be16(hi, lo),
{
    (hi as u16) * 256 + (lo as u16)
}

fn read_le16(lo: u8, hi: u8) -> (v: u16)
    ensures
        v == le16(lo, hi),
{
    (hi as u16) * 256 + (lo as u16)
}

fn read_be32(b0: u8, b1: u8, b2: u8, b3: u8) -> (v: u32)
    ensures
        v == be32(b0, b1, b2, b3),
{
    (b0 as u32) * 16777216 + (b1 as u32) * 65536 + (b2 as u32) * 256 + (b3 as u32)
}

/// The pixel dimensions declared in a PNG header.
pub fn png_dimensions(bytes: &[u8]) -> (dims: Option<(u32, u32)>)
    ensures
        dims == png_dims(bytes@),
{
    if bytes.len() < 24 {
        return None;
    }
    let sig = bytes[0] == 0x89 && bytes[1] == 0x50 && bytes[2] == 0x4e && bytes[3] == 0x47
        && bytes[4] == 0x0d && bytes[5] == 0x0a && bytes[6] == 0x1a && bytes[7] == 0x0a;
    if !sig {
        proof {
            if bytes@.take(8) == png_signature() {
                assert(bytes@.take(8)[0] == bytes@[0]);
                assert(bytes@.take(8)[1] == bytes@[1]);
                assert(bytes@.take(8)[2] == bytes@[2]);
                assert(bytes@.take(8)[3] == bytes@[3]);
                assert(bytes@.take(8)[4] == bytes@[4]);
                assert(bytes@.take(8)[5] == bytes@[5]);
                assert(bytes@.take(8)[6] == bytes@[6]);
                assert(bytes@.take(8)[7] == bytes@[7]);
            }
        }
        return None;
    }
    assert(bytes@.take(8) =~= png_signature());
    let width = read_be32(bytes[16], bytes[17], bytes[18], bytes[19]);
    let height = read_be32(bytes[20], bytes[21], bytes[22], bytes[23]);
    if width > 0 && height > 0 {
        Some((width, height))
    } else {
        None
    }
}

/// The pixel dimensions declared in a GIF header.
pub fn gif_dimensions(bytes: &[u8]) -> (dims: Option<(u16, u16)>)
    ensures
        dims == gif_dims(bytes@),
{
    if bytes.len() < 10 {
        return None;
    }
    let magic = bytes[0] == 0x47 && bytes[1] == 0x49 && bytes[2] == 0x46 && bytes[3] == 0x38 && (
    bytes[4] == 0x37 || bytes[4] == 0x39) && bytes[5] == 0x61;
    if !magic {
        return None;
    }
    let width = read_le16(bytes[6], bytes[7]);
    let height = read_le16(bytes[8], bytes[9]);
    if width > 0 && height > 0 {
        Some((width, height))
    } else {
        None
    }
}

/// The pixel dimensions in the first start-of-frame segment of a JPEG.
pub fn jpeg_dimensions(bytes: &[u8]) -> (dims: Option<(u16, u16)>)
    ensures
        dims == jpeg_dims(bytes@),
{
    let len = bytes.len();
    if len < 4 || bytes[0] != 0xff || bytes[1] != 0xd8 {
        return None;
    }
    let mut i: usize = 2;
    assert(jpeg_dims(bytes@) == jpeg_scan(bytes@, 2));
    while i < len && len - i >= 4
        invariant
            len == bytes@.len(),
            2 <= i <= len,
            jpeg_dims(bytes@) == jpeg_scan(bytes@, 2),
            jpeg_scan(bytes@, i as int) == jpeg_scan(bytes@, 2),
        decreases len - i,
    {
        if bytes[i] != 0xff {
            i = i + 1;
            continue;
        }
        let ghost start = i as int;
        assert(jpeg_scan(bytes@, start) == jpeg_scan(bytes@, 2));
        while i < len && bytes[i] == 0xff
            invariant
                len == bytes@.len(),
                start <= i <= len,
                skip_fill(bytes@, i as int) == skip_fill(bytes@, start),
            decreases len - i,
        {
            i = i + 1;
        }
        assert(skip_fill(bytes@, i as int) == i);
        assert(jpeg_scan(bytes@, start) == jpeg_marker(bytes@, i as int, start));
        if i >= len {
            return None;
        }
        let ghost j = i as int;
        let marker = bytes[i];
        i = i + 1;
        if marker == 0xd8 || marker == 0xd9 || marker == 0x01 {
            assert(jpeg_marker(bytes@, j, start) == jpeg_scan(bytes@, i as int));
            continue;
        }
        if len - i < 2 {
            return None;
        }
        let seg = read_be16(bytes[i], bytes[i + 1]) as usize;
        if seg < 2 || seg > len - i {
            return None;
        }
        let data = i + 2;
        if is_jpeg_sof(marker) && len - data >= 5 {
            let height = read_be16(bytes[data + 1], bytes[data + 2]);
            let width = read_be16(bytes[data + 3], bytes[data + 4]);
            assert(jpeg_marker(bytes@, j, start) == positive_pair(width, height, width > 0, height
                > 0));
            if width > 0 && height > 0 {
                assert(jpeg_scan(bytes@, start) == Some((width, height)));
                return Some((width, height));
            } else {
                return None;
            }
        }
        assert(jpeg_marker(bytes@, j, start) == jpeg_scan(bytes@, i + seg));
        i = i + seg;
    }
    None
}

// ---------------------------------------------------------------------------
// Base64 data URLs
// ---------------------------------------------------------------------------

/// The standard base64 alphabet symbol of a six-bit value.
pub open spec fn base64_symbol(v: u8) -> char {
    if v < 26 {
        (v + 65) as char
    } else if v < 52 {
        (v + 71) as char
    } else if v < 62 {
        (v - 4) as char
    } else if v == 62 {
        '+'
    } else {
        '/'
    }
}

/// The byte at `i`, or 0 past the end (the zero padding of the last group).
pub open spec fn byte_or_zero(b: Seq<u8>, i: int) -> u8 {
    if 0 <= i < b.len() {
        b[i]
    } else {
        0
    }
}

/// The four output characters of the `j`-th three-byte group of `b`, with
/// `=` padding where the group is short.
pub open spec fn base64_quad(b: Seq<u8>, j: int) -> Seq<char> {
    let b0 = byte_or_zero(b, 3 * j);
    let b1 = byte_or_zero(b, 3 * j + 1);
    let b2 = byte_or_zero(b, 3 * j + 2);
    seq![
        base64_symbol(b0 >> 2),
        base64_symbol(((b0 & 3) << 4) | (b1 >> 4)),
        if 3 * j + 1 < b.len() {
            base64_symbol(((b1 & 15) << 2) | (b2 >> 6))
        } else {
            '='
        },
        if 3 * j + 2 < b.len() {
            base64_symbol(b2 & 63)
        } else {
            '='
        },
    ]
}

/// The encoding of the first `n` groups of `b`.
pub open spec fn base64_groups(b: Seq<u8>, n: nat) -> Seq<char>
    decreases n,
{
    if n == 0 {
        Seq::empty()
    } else {
        base64_groups(b, (n - 1) as nat) + base64_quad(b, n - 1)
    }
}

/// The number of three-byte groups (the last one possibly short).
pub open spec fn group_count(len: nat) -> nat {
    (len + 2) / 3
}

/// The padded standard base64 encoding (RFC 4648) of `b`.
pub open spec fn base64(b: Seq<u8>) -> Seq<char> {
    base64_groups(b, group_count(b.len()))
}

fn base64_char(v: u8) -> (c: char)
    requires
        v < 64,
    ensures
        c == base64_symbol(v),
{
    let code: u8 = if v < 26 {
        v + 65
    } else if v < 52 {
        v + 71
    } else if v < 62 {
        v - 4
    } else if v == 62 {
        43
    } else {
        47
    };
    code as char
}

/// The padded standard base64 encoding of `bytes`.
pub fn base64_encode(bytes: &[u8]) -> (out: String)
    ensures
        out@ == base64(bytes@),
{
    let mut out = String::new();
    let len = bytes.len();
    let mut i: usize = 0;
    let mut j: usize = 0;
    while i < len
        invariant
            len == bytes@.len(),
            i == 3 * j,
            i <= len + 2,
            i < len ==> j < group_count(len as nat),
            i >= len ==> j == group_count(len as nat),
            out@ == base64_groups(bytes@, j as nat),
        decreases len + 3 - i,
    {
        let b0 = bytes[i];
        let b1: u8 = if i + 1 < len { bytes[i + 1] } else { 0 };
        let b2: u8 = if i + 2 < len { bytes[i + 2] } else { 0 };
        assert(b1 == byte_or_zero(bytes@, 3 * j + 1));
        assert(b2 == byte_or_zero(bytes@, 3 * j + 2));
        let ghost start = out@;
        assert((b0 >> 2) < 64 && (((b0 & 3) << 4) | (b1 >> 4)) < 64 && (((b1 & 15) << 2) | (b2
            >> 6)) < 64 && (b2 & 63) < 64) by (bit_vector);
        push_char(&mut out, base64_char(b0 >> 2));
        push_char(&mut out, base64_char(((b0 & 3) << 4) | (b1 >> 4)));
        if i + 1 < len {
            push_char(&mut out, base64_char(((b1 & 15) << 2) | (b2 >> 6)));
        } else {
            push_char(&mut out, '=');
        }
        if i + 2 < len {
            push_char(&mut out, base64_char(b2 & 63));
        } else {
            push_char(&mut out, '=');
        }
        assert(out@ =~= start + base64_quad(bytes@, j as int));
        i = i + 3;
        j = j + 1;
    }
    out
}

/// The encoding of `n` bytes has `4 * ceil(n / 3)` characters.
pub proof fn lemma_base64_length(b: Seq<u8>)
    ensures
        base64(b).len() == 4 * group_count(b.len()),
{
    lemma_base64_groups_length(b, group_count(b.len()));
}

proof fn lemma_base64_groups_length(b: Seq<u8>, n: nat)
    ensures
        base64_groups(b, n).len() == 4 * n,
    decreases n,
{
    if n > 0 {
        lemma_base64_groups_length(b, (n - 1) as nat);
    }
}

/// The six-bit value of a standard base64 alphabet symbol; `None` for any
/// other character (the `=` padding among them).
pub open spec fn base64_value(c: char) -> Option<u8> {
    let u = c as u32;
    if 65 <= u <= 90 {
        Some((u - 65) as u8)
    } else if 97 <= u <= 122 {
        Some((u - 71) as u8)
    } else if 48 <= u <= 57 {
        Some((u + 4) as u8)
    } else if u == 43 {
        Some(62u8)
    } else if u == 47 {
        Some(63u8)
    } else {
        None
    }
}

/// The six-bit value of a symbol, 0 for padding.
pub open spec fn value_or_zero(c: char) -> u8 {
    match base64_value(c) {
        Some(v) => v,
        None => 0,
    }
}

/// The bytes one four-character group decodes to: three, or one when its
/// third character is `=`, or two when only its fourth is.
pub open spec fn decode_quad(q: Seq<char>) -> Seq<u8> {
    let v0 = value_or_zero(q[0]);
    let v1 = value_or_zero(q[1]);
    let v2 = value_or_zero(q[2]);
    let v3 = value_or_zero(q[3]);
    let x0 = ((v0 << 2u8) | (v1 >> 4u8)) as u8;
    let x1 = (((v1 & 15) << 4u8) | (v2 >> 2u8)) as u8;
    let x2 = (((v2 & 3) << 6u8) | v3) as u8;
    if q[2] == '=' {
        seq![x0]
    } else if q[3] == '=' {
        seq![x0, x1]
    } else {
        seq![x0, x1, x2]
    }
}

/// The bytes the first `n` four-character groups of `s` decode to.
pub open spec fn decode_groups(s: Seq<char>, n: nat) -> Seq<u8>
    decreases n,
{
    if n == 0 {
        Seq::empty()
    } else {
        decode_groups(s, (n - 1) as nat) + decode_quad(s.subrange(4 * (n - 1), 4 * n as int))
    }
}

/// Standard padded base64 decoding (RFC 4648) of text whose length is a
/// multiple of four.
pub open spec fn base64_decode(s: Seq<char>) -> Seq<u8> {
    decode_groups(s, s.len() / 4)
}

proof fn lemma_symbol_value(v: u8)
    requires
        v < 64,
    ensures
        base64_value(base64_symbol(v)) == Some(v),
        base64_symbol(v) != '=',
{
}

proof fn lemma_group_bits(b0: u8, b1: u8, b2: u8)
    ensures
        ({
            let v0 = b0 >> 2u8;
            let v1 = ((b0 & 3) << 4u8) | (b1 >> 4u8);
            let v2 = ((b1 & 15) << 2u8) | (b2 >> 6u8);
            let v3 = b2 & 63;
            &&& v0 < 64 && v1 < 64 && v2 < 64 && v3 < 64
            &&& ((v0 << 2u8) | (v1 >> 4u8)) == b0
            &&& (((v1 & 15) << 4u8) | (v2 >> 2u8)) == b1
            &&& (((v2 & 3) << 6u8) | v3) == b2
        }),
{
    assert({
        let v0 = b0 >> 2u8;
        let v1 = ((b0 & 3) << 4u8) | (b1 >> 4u8);
        let v2 = ((b1 & 15) << 2u8) | (b2 >> 6u8);
        let v3 = b2 & 63;
        &&& v0 < 64 && v1 < 64 && v2 < 64 && v3 < 64
        &&& ((v0 << 2u8) | (v1 >> 4u8)) == b0
        &&& (((v1 & 15) << 4u8) | (v2 >> 2u8)) == b1
        &&& (((v2 & 3) << 6u8) | v3) == b2
    }) by (bit_vector);
}

proof fn lemma_quad_decodes(b: Seq<u8>, j: int)
    requires
        0 <= j,
        3 * j < b.len(),
    ensures
        decode_quad(base64_quad(b, j)) == b.subrange(
            3 * j,
            if 3 * j + 3 <= b.len() {
                3 * j + 3
            } else {
                b.len() as int
            },
        ),
{
    let b0 = byte_or_zero(b, 3 * j);
    let b1 = byte_or_zero(b, 3 * j + 1);
    let b2 = byte_or_zero(b, 3 * j + 2);
    lemma_group_bits(b0, b1, b2);
    let v0 = b0 >> 2u8;
    let v1 = ((b0 & 3) << 4u8) | (b1 >> 4u8);
    let v2 = ((b1 & 15) << 2u8) | (b2 >> 6u8);
    let v3 = b2 & 63;
    lemma_symbol_value(v0);
    lemma_symbol_value(v1);
    lemma_symbol_value(v2);
    lemma_symbol_value(v3);
    let q = base64_quad(b, j);
    assert(value_or_zero(q[0]) == v0);
    assert(value_or_zero(q[1]) == v1);
    if 3 * j + 1 < b.len() {
        assert(value_or_zero(q[2]) == v2);
    }
    if 3 * j + 2 < b.len() {
        assert(value_or_zero(q[3]) == v3);
    }
    if 3 * j + 3 <= b.len() {
        assert(decode_quad(q) =~= b.subrange(3 * j, 3 * j + 3));
    } else if 3 * j + 2 == b.len() {
        assert(decode_quad(q) =~= b.subrange(3 * j, 3 * j + 2));
    } else {
        assert(decode_quad(q) =~= b.subrange(3 * j, 3 * j + 1));
    }
}

proof fn lemma_groups_quad(b: Seq<u8>, n: nat, j: int)
    requires
        0 <= j < n,
    ensures
        base64_groups(b, n).subrange(4 * j, 4 * j + 4) == base64_quad(b, j),
    decreases n,
{
    let prev = base64_groups(b, (n - 1) as nat);
    lemma_base64_groups_length(b, (n - 1) as nat);
    if j == n - 1 {
        assert(base64_groups(b, n).subrange(4 * j, 4 * j + 4) =~= base64_quad(b, j));
    } else {
        lemma_groups_quad(b, (n - 1) as nat, j);
        assert(base64_groups(b, n).subrange(4 * j, 4 * j + 4) =~= prev.subrange(4 * j, 4 * j + 4));
    }
}

proof fn lemma_groups_decode(b: Seq<u8>, n: nat)
    requires
        n <= group_count(b.len()),
    ensures
        decode_groups(base64(b), n) == b.take(
            if 3 * n <= b.len() {
                3 * n as int
            } else {
                b.len() as int
            },
        ),
    decreases n,
{
    if n == 0 {
        assert(b.take(0) =~= Seq::<u8>::empty());
    } else {
        let m = (n - 1) as nat;
        lemma_groups_decode(b, m);
        assert(3 * m < b.len()) by (nonlinear_arith)
            requires
                m < (b.len() + 2) / 3,
        ;
        lemma_groups_quad(b, group_count(b.len()), m as int);
        lemma_quad_decodes(b, m as int);
        let end = if 3 * n <= b.len() {
            3 * n as int
        } else {
            b.len() as int
        };
        assert(b.take(3 * m as int) + b.subrange(3 * m as int, end) =~= b.take(end));
    }
}

/// Decoding the encoding of `b` gives back exactly `b`.
pub proof fn lemma_base64_round_trip(b: Seq<u8>)
    ensures
        base64_decode(base64(b)) == b,
{
    lemma_base64_length(b);
    let n = group_count(b.len());
    assert(base64(b).len() / 4 == n);
    lemma_groups_decode(b, n);
    assert(3 * n >= b.len());
    assert(b.take(b.len() as int) =~= b);
}

proof fn lemma_groups_alphabet(b: Seq<u8>, n: nat, i: int)
    requires
        n <= group_count(b.len()),
        0 <= i < 4 * n,
    ensures
        base64_value(base64_groups(b, n)[i]) is Some || (base64_groups(b, n)[i] == '=' && i % 4
            >= 2 && 3 * (i / 4) + i % 4 - 1 >= b.len()),
        base64_groups(b, n)[i] == '=' <==> 3 * (i / 4) + i % 4 - 1 >= b.len(),
    decreases n,
{
    lemma_base64_groups_length(b, (n - 1) as nat);
    let j = n - 1;
    if i < 4 * j {
        lemma_groups_alphabet(b, (n - 1) as nat, i);
    } else {
        let k = i - 4 * j;
        assert(i / 4 == j && i % 4 == k) by (nonlinear_arith)
            requires
                i == 4 * j + k,
                0 <= k < 4,
        ;
        let b0 = byte_or_zero(b, 3 * j);
        let b1 = byte_or_zero(b, 3 * j + 1);
        let b2 = byte_or_zero(b, 3 * j + 2);
        lemma_group_bits(b0, b1, b2);
        lemma_symbol_value(b0 >> 2u8);
        lemma_symbol_value(((b0 & 3) << 4u8) | (b1 >> 4u8));
        lemma_symbol_value(((b1 & 15) << 2u8) | (b2 >> 6u8));
        lemma_symbol_value(b2 & 63);
        assert(3 * j < b.len()) by (nonlinear_arith)
            requires
                j < (b.len() + 2) / 3,
        ;
        assert(base64_groups(b, n)[i] == base64_quad(b, j)[k]);
    }
}

/// The encoding uses only the 64 symbols of the standard alphabet, followed
/// by `=` padding: two `=` when the byte count leaves one over in its last
/// group of three, one `=` when it leaves two, none otherwise.
pub proof fn lemma_base64_alphabet(b: Seq<u8>)
    ensures
        ({
            let s = base64(b);
            let n = s.len() as int;
            &&& forall|i: int|
                0 <= i < n ==> base64_value(#[trigger] s[i]) is Some || (s[i] == '=' && i >= n - 2)
            &&& b.len() % 3 == 0 ==> forall|i: int| 0 <= i < n ==> #[trigger] s[i] != '='
            &&& b.len() % 3 == 1 ==> s[n - 1] == '=' && s[n - 2] == '='
            &&& b.len() % 3 == 2 ==> s[n - 1] == '=' && base64_value(s[n - 2]) is Some
        }),
{
    let s = base64(b);
    let g = group_count(b.len());
    lemma_base64_length(b);
    let n = s.len() as int;
    assert(n == 4 * g);
    assert forall|i: int|
        0 <= i < n implies base64_value(#[trigger] s[i]) is Some || (s[i] == '=' && i >= n - 2) by {
        lemma_groups_alphabet(b, g, i);
        if s[i] == '=' {
            let j = i / 4;
            let k = i % 4;
            assert(i == 4 * j + k && 0 <= k < 4) by (nonlinear_arith)
                requires
                    j == i / 4,
                    k == i % 4,
            ;
            assert(3 * j + k - 1 >= b.len());
            assert(g == (b.len() + 2) / 3);
            assert(j >= g - 1) by (nonlinear_arith)
                requires
                    3 * j + 2 >= b.len(),
                    g == (b.len() + 2) / 3,
                    j >= 0,
            ;
            assert(j < g) by (nonlinear_arith)
                requires
                    i == 4 * j + k,
                    0 <= k < 4,
                    i < 4 * g,
            ;
            if k == 2 {
                assert(3 * j + 1 >= b.len());
                assert(b.len() % 3 == 1 || b.len() == 3 * j + 1) by (nonlinear_arith)
                    requires
                        3 * j + 1 >= b.len(),
                        j == g - 1,
                        g == (b.len() + 2) / 3,
                ;
            }
        }
    }
    if b.len() % 3 == 0 {
        assert forall|i: int| 0 <= i < n implies #[trigger] s[i] != '=' by {
            lemma_groups_alphabet(b, g, i);
            let j = i / 4;
            let k = i % 4;
            assert(i == 4 * j + k && 0 <= k < 4 && j < g) by (nonlinear_arith)
                requires
                    j == i / 4,
                    k == i % 4,
                    0 <= i < 4 * g,
            ;
            assert(3 * j + k - 1 < b.len()) by (nonlinear_arith)
                requires
                    b.len() % 3 == 0,
                    g == (b.len() + 2) / 3,
                    0 <= j < g,
                    0 <= k < 4,
            ;
        }
    }
    if b.len() % 3 != 0 {
        assert(g >= 1);
        lemma_groups_alphabet(b, g, n - 1);
        lemma_groups_alphabet(b, g, n - 2);
        assert((n - 1) / 4 == g - 1 && (n - 1) % 4 == 3);
        assert((n - 2) / 4 == g - 1 && (n - 2) % 4 == 2);
        assert(3 * (g - 1) == b.len() - b.len() % 3) by (nonlinear_arith)
            requires
                g == (b.len() + 2) / 3,
                b.len() % 3 != 0,
        ;
    }
}

// ---------------------------------------------------------------------------
// Sources, URLs and MIME types
// ---------------------------------------------------------------------------

/// Whether a list of sources holds a source with the given text.
pub open spec fn has_source<S>(sources: Seq<(String, S)>, source: Seq<char>) -> bool {
    exists|i: int| 0 <= i < sources.len() && (#[trigger] sources[i]).0@ == source
}

/// Whether no two entries of a source list share their text.
pub open spec fn distinct_sources<S>(sources: Seq<(String, S)>) -> bool {
    forall|i: int, j: int|
        0 <= i < j < sources.len() ==> (#[trigger] sources[i]).0@ != (#[trigger] sources[j]).0@
}

/// Record an image source (with the span it came from) unless it is empty
/// or already recorded; the first occurrence wins.
pub fn push_source<S>(sources: &mut Vec<(String, S)>, source: &str, span: S)
    ensures
        source@.len() == 0 || has_source(old(sources)@, source@) ==> final(sources)@ == old(
            sources,
        )@,
        !(source@.len() == 0 || has_source(old(sources)@, source@)) ==> {
            &&& final(sources)@.len() == old(sources)@.len() + 1
            &&& final(sources)@.take(old(sources)@.len() as int) == old(sources)@
            &&& final(sources)@.last().0@ == source@
            &&& final(sources)@.last().1 == span
        },
{
    if source.is_empty() {
        return;
    }
    let mut i: usize = 0;
    while i < sources.len()
        invariant
            i <= sources@.len(),
            forall|k: int| 0 <= k < i ==> (#[trigger] sources@[k]).0@ != source@,
        decreases sources@.len() - i,
    {
        if str_equal(sources[i].0.as_str(), source) {
            return;
        }
        i = i + 1;
    }
    let ghost before = sources@;
    sources.push((String::from_str(source), span));
    assert(sources@.take(before.len() as int) =~= before);
}

/// Recording sources keeps the list free of duplicates.
pub proof fn lemma_push_source_keeps_distinct<S>(
    before: Seq<(String, S)>,
    after: Seq<(String, S)>,
    source: Seq<char>,
)
    requires
        distinct_sources(before),
        source.len() == 0 || has_source(before, source) ==> after == before,
        !(source.len() == 0 || has_source(before, source)) ==> {
            &&& after.len() == before.len() + 1
            &&& after.take(before.len() as int) == before
            &&& after.last().0@ == source
        },
    ensures
        distinct_sources(after),
{
    if !(source.len() == 0 || has_source(before, source)) {
        assert forall|i: int, j: int| 0 <= i < j < after.len() implies (#[trigger] after[i]).0@
            != (#[trigger] after[j]).0@ by {
            assert(after[i] == after.take(before.len() as int)[i]);
            if j < before.len() {
                assert(after[j] == after.take(before.len() as int)[j]);
            } else {
                assert(after[j] == after.last());
                assert(before[i] == after[i]);
                if after[i].0@ == source {
                    assert(has_source(before, source));
                }
            }
        }
    }
}

/// Whether a byte is an ASCII letter.
pub open spec fn ascii_alpha(b: u8) -> bool {
    (65 <= b <= 90) || (97 <= b <= 122)
}

/// Whether a byte may appear in a URL scheme: letters, digits, `+`, `.`,
/// `-`.
pub open spec fn scheme_byte(b: u8) -> bool {
    ascii_alpha(b) || (48 <= b <= 57) || b == 43 || b == 46 || b == 45
}

/// The index of the first `:` at or after `i`.
pub open spec fn first_colon_from(b: Seq<u8>, i: int) -> Option<int>
    decreases b.len() - i,
{
    if i < 0 || i >= b.len() {
        None
    } else if b[i] == 58 {
        Some(i)
    } else {
        first_colon_from(b, i + 1)
    }
}

/// Whether text looks like a URL: it has a `:` preceded by a non-empty
/// scheme that starts with a letter and holds only scheme bytes — except a
/// single letter followed by `:`, which is a Windows drive.
pub open spec fn url_like(b: Seq<u8>) -> bool {
    match first_colon_from(b, 0) {
        None => false,
        Some(colon) => {
            if colon == 1 && ascii_alpha(b[0]) {
                false
            } else {
                colon > 0 && ascii_alpha(b[0]) && forall|k: int|
                    0 <= k < colon ==> scheme_byte(#[trigger] b[k])
            }
        },
    }
}

fn is_ascii_alpha(b: u8) -> (r: bool)
    ensures
        r == ascii_alpha(b),
{
    (65 <= b && b <= 90) || (97 <= b && b <= 122)
}

/// Whether an image source is a URL (rather than a local path).
pub fn is_url_like(value: &str) -> (b: bool)
    ensures
        b == url_like(value.spec_bytes()),
{
    let bytes = value.as_bytes();
    let mut colon: usize = 0;
    while colon < bytes.len() && bytes[colon] != 58
        invariant
            colon <= bytes@.len(),
            first_colon_from(bytes@, colon as int) == first_colon_from(bytes@, 0),
        decreases bytes@.len() - colon,
    {
        colon = colon + 1;
    }
    if colon == bytes.len() {
        return false;
    }
    if colon == 1 && is_ascii_alpha(bytes[0]) {
        return false;
    }
    if colon == 0 || !is_ascii_alpha(bytes[0]) {
        return false;
    }
    let mut k: usize = 0;
    assert(first_colon_from(bytes@, 0) == Some(colon as int));
    assert(url_like(bytes@) == forall|m: int| 0 <= m < colon ==> scheme_byte(#[trigger] bytes@[m]));
    while k < colon
        invariant
            url_like(bytes@) == forall|m: int| 0 <= m < colon ==> scheme_byte(#[trigger] bytes@[m]),
            bytes@ == value.spec_bytes(),
            colon < bytes@.len(),
            k <= colon,
            forall|m: int| 0 <= m < k ==> scheme_byte(#[trigger] bytes@[m]),
        decreases colon - k,
    {
        let c = bytes[k];
        if !(is_ascii_alpha(c) || (48 <= c && c <= 57) || c == 43 || c == 46 || c == 45) {
            return false;
        }
        k = k + 1;
    }
    true
}

/// Whether `'.'` followed by `ext` occurs somewhere in `path`.
pub open spec fn dot_text_in(path: Seq<char>, ext: Seq<char>) -> bool {
    exists|i: int|
        0 <= i && i + ext.len() + 1 <= path.len() && #[trigger] path.subrange(i, i + ext.len() + 1)
            == seq!['.'] + ext
}

/// The index of the last `/` of a text, if it has one.
pub open spec fn last_slash(s: Seq<char>) -> Option<int>
    decreases s.len(),
{
    if s.len() == 0 {
        None
    } else if s.last() == '/' {
        Some(s.len() - 1)
    } else {
        last_slash(s.drop_last())
    }
}

/// The text after the last `/` of a path (the whole path when it has none).
pub open spec fn final_segment(path: Seq<char>) -> Seq<char> {
    match last_slash(path) {
        Some(i) => path.subrange(i + 1, path.len() as int),
        None => path,
    }
}

/// Whether a path splits into components the same way on every platform and
/// ends in a file name: it holds no `\\` and no `:` (no Windows separator or
/// prefix), does not begin with `//`, and the text after its last `/` is a
/// name other than `.` and `..` (so it does not end in `/` either).
pub open spec fn simple_path(path: Seq<char>) -> bool {
    &&& forall|i: int| 0 <= i < path.len() ==> #[trigger] path[i] != '\\' && path[i] != ':'
    &&& !(path.len() >= 2 && path[0] == '/' && path[1] == '/')
    &&& final_segment(path).len() > 0
    &&& final_segment(path) != seq!['.']
    &&& final_segment(path) != seq!['.', '.']
}

/// The index of the last `.` of a text, if it has one.
pub open spec fn last_dot(s: Seq<char>) -> Option<int>
    decreases s.len(),
{
    if s.len() == 0 {
        None
    } else if s.last() == '.' {
        Some(s.len() - 1)
    } else {
        last_dot(s.drop_last())
    }
}

/// The extension of a file name: the text after its final `.`; none when it
/// has no `.`, or when its only `.` is the one it begins with.
pub open spec fn name_extension(name: Seq<char>) -> Option<Seq<char>> {
    match last_dot(name) {
        Some(i) => if i == 0 {
            None
        } else {
            Some(name.subrange(i + 1, name.len() as int))
        },
        None => None,
    }
}

/// Calls `std::path::Path::extension` on `path` and returns the extension
/// as text (`None` when there is none or it is not valid text). How a path
/// splits into components depends on the platform's separators; the contract
/// claims what holds on every platform: an extension is the text after a `.`
/// in the path, and for a path that splits alike everywhere (see
/// `simple_path`) the file name is the text after the last `/`, whose
/// extension is as the documentation describes it (`name_extension`).
#[verifier::external_body]
fn file_extension(path: &str) -> (ext: Option<String>)
    ensures
        ext matches Some(e) ==> dot_text_in(path@, e@),
        simple_path(path@) ==> opt_string_view(ext) == name_extension(final_segment(path@)),
{
    std::path::Path::new(path).extension().and_then(|e| e.to_str()).map(|e| e.to_string())
}

/// The MIME type of an image extension (already lower-cased).
pub open spec fn mime_of_extension(lower: Seq<char>) -> Option<Seq<char>> {
    if lower == "png"@ {
        Some("image/png"@)
    } else if lower == "jpg"@ || lower == "jpeg"@ {
        Some("image/jpeg"@)
    } else if lower == "gif"@ {
        Some("image/gif"@)
    } else if lower == "svg"@ {
        Some("image/svg+xml"@)
    } else {
        None
    }
}

/// The MIME type an optional extension selects, compared without regard to
/// ASCII case.
pub open spec fn extension_mime(ext: Option<Seq<char>>) -> Option<Seq<char>> {
    match ext {
        Some(e) => mime_of_extension(ascii_lowercase(e)),
        None => None,
    }
}

/// Whether a path's MIME type may be `mime`: some `.` in the path is
/// followed by an extension that selects it.
pub open spec fn path_may_have_mime(path: Seq<char>, mime: Seq<char>) -> bool {
    exists|e: Seq<char>| dot_text_in(path, e) && #[trigger] mime_of_extension(ascii_lowercase(e)) == Some(mime)
}

/// The MIME type of a supported image extension: `png`, `jpg`/`jpeg`, `gif`
/// or `svg`, in any case.
pub fn mime_for_extension(ext: Option<&str>) -> (mime: Option<&'static str>)
    ensures
        match mime {
            Some(m) => extension_mime(opt_view(ext)) == Some(m@),
            None => extension_mime(opt_view(ext)) is None,
        },
{
    let ext = match ext {
        Some(e) => e,
        None => return None,
    };
    let lower = to_ascii_lowercase(ext);
    let l = lower.as_slice();
    if chars_equal(l, chars_of("png").as_slice()) {
        Some("image/png")
    } else if chars_equal(l, chars_of("jpg").as_slice()) || chars_equal(
        l,
        chars_of("jpeg").as_slice(),
    ) {
        Some("image/jpeg")
    } else if chars_equal(l, chars_of("gif").as_slice()) {
        Some("image/gif")
    } else if chars_equal(l, chars_of("svg").as_slice()) {
        Some("image/svg+xml")
    } else {
        None
    }
}

/// The text of an optional string.
pub open spec fn opt_string_view(s: Option<String>) -> Option<Seq<char>> {
    match s {
        Some(t) => Some(t@),
        None => None,
    }
}

/// The MIME type of an image path, selected by the extension
/// `std::path::Path::extension` finds (see `mime_for_extension`); for a path
/// that splits alike on every platform, the type its file name's extension
/// selects.
pub fn mime_for_path(source: &str) -> (mime: Option<&'static str>)
    ensures
        mime matches Some(m) ==> path_may_have_mime(source@, m@),
        simple_path(source@) ==> opt_view(mime) == extension_mime(
            name_extension(final_segment(source@)),
        ),
{
    let ext = file_extension(source);
    let mime = match &ext {
        Some(e) => mime_for_extension(Some(e.as_str())),
        None => mime_for_extension(None),
    };
    proof {
        if let Some(m) = mime {
            let e = ext->0@;
            assert(dot_text_in(source@, e));
            assert(mime_of_extension(ascii_lowercase(e)) == Some(m@));
        }
    }
    mime
}

// ---------------------------------------------------------------------------
// SVG attribute lookup
// ---------------------------------------------------------------------------

/// Whether a character has the Unicode `White_Space` property (the test
/// `char::is_whitespace` makes).
pub open spec fn unicode_whitespace(c: char) -> bool {
    let u = c as u32;
    (9 <= u <= 13) || u == 32 || u == 0x85 || u == 0xA0 || u == 0x1680 || (0x2000 <= u <= 0x200A)
        || u == 0x2028 || u == 0x2029 || u == 0x202F || u == 0x205F || u == 0x3000
}

fn is_whitespace(c: char) -> (b: bool)
    ensures
        b == unicode_whitespace(c),
{
    let u = c as u32;
    (9 <= u && u <= 13) || u == 32 || u == 0x85 || u == 0xA0 || u == 0x1680 || (0x2000 <= u && u
        <= 0x200A) || u == 0x2028 || u == 0x2029 || u == 0x202F || u == 0x205F || u == 0x3000
}

/// The first index at or after `i` that does not hold whitespace.
pub open spec fn skip_whitespace(t: Seq<char>, i: int) -> int
    decreases t.len() - i,
{
    if 0 <= i < t.len() && unicode_whitespace(t[i]) {
        skip_whitespace(t, i + 1)
    } else {
        i
    }
}

/// The first index at or after `i` where `needle` occurs in `t`.
pub open spec fn find_from(t: Seq<char>, needle: Seq<char>, i: int) -> Option<int>
    decreases t.len() + 1 - i,
{
    if i < 0 || i + needle.len() > t.len() {
        None
    } else if t.subrange(i, i + needle.len()) == needle {
        Some(i)
    } else {
        find_from(t, needle, i + 1)
    }
}

/// The first index at or after `i` that holds `c`.
pub open spec fn find_char_from(t: Seq<char>, c: char, i: int) -> Option<int>
    decreases t.len() - i,
{
    if i < 0 || i >= t.len() {
        None
    } else if t[i] == c {
        Some(i)
    } else {
        find_char_from(t, c, i + 1)
    }
}

/// The quoted value that follows the first occurrence of `name` in `t`:
/// after the name, optional whitespace, `=`, optional whitespace and a `"` or
/// `'`, the text up to the next occurrence of that same quote.
pub open spec fn attr_value_text(t: Seq<char>, name: Seq<char>) -> Option<Seq<char>> {
    match find_from(t, name, 0) {
        None => None,
        Some(p) => {
            let i1 = skip_whitespace(t, p + name.len());
            if i1 >= t.len() || t[i1] != '=' {
                None
            } else {
                let i2 = skip_whitespace(t, i1 + 1);
                if i2 >= t.len() || (t[i2] != '"' && t[i2] != '\'') {
                    None
                } else {
                    match find_char_from(t, t[i2], i2 + 1) {
                        None => None,
                        Some(e) => Some(t.subrange(i2 + 1, e)),
                    }
                }
            }
        },
    }
}

fn skip_ws(t: &Vec<char>, i: usize) -> (j: usize)
    requires
        i <= t@.len(),
    ensures
        j == skip_whitespace(t@, i as int),
        i <= j <= t@.len(),
{
    let mut j = i;
    while j < t.len() && is_whitespace(t[j])
        invariant
            i <= j <= t@.len(),
            skip_whitespace(t@, j as int) == skip_whitespace(t@, i as int),
        decreases t@.len() - j,
    {
        j = j + 1;
    }
    j
}

fn occurs_at(t: &Vec<char>, needle: &Vec<char>, i: usize) -> (b: bool)
    requires
        i + needle@.len() <= t@.len(),
    ensures
        b == (t@.subrange(i as int, i + needle@.len()) == needle@),
{
    let tl = t.len();
    let mut k: usize = 0;
    while k < needle.len()
        invariant
            tl == t@.len(),
            i + needle@.len() <= t@.len(),
            k <= needle@.len(),
            forall|m: int| 0 <= m < k ==> t@[i + m] == needle@[m],
        decreases needle@.len() - k,
    {
        if t[i + k] != needle[k] {
            assert(t@.subrange(i as int, i + needle@.len())[k as int] != needle@[k as int]);
            return false;
        }
        k = k + 1;
    }
    assert(t@.subrange(i as int, i + needle@.len()) =~= needle@);
    true
}

fn find_needle(t: &Vec<char>, needle: &Vec<char>) -> (p: Option<usize>)
    ensures
        match p {
            Some(i) => find_from(t@, needle@, 0) == Some(i as int) && i + needle@.len() <= t@.len(),
            None => find_from(t@, needle@, 0) == None::<int>,
        },
{
    if needle.len() > t.len() {
        return None;
    }
    let last = t.len() - needle.len();
    let mut i: usize = 0;
    while i <= last
        invariant
            last + needle@.len() == t@.len(),
            find_from(t@, needle@, i as int) == find_from(t@, needle@, 0),
        decreases last + 1 - i,
    {
        if occurs_at(t, needle, i) {
            return Some(i);
        }
        if i == last {
            assert(find_from(t@, needle@, i + 1) == None::<int>);
            return None;
        }
        i = i + 1;
    }
    None
}

fn find_char(t: &Vec<char>, c: char, i: usize) -> (p: Option<usize>)
    requires
        i <= t@.len(),
    ensures
        match p {
            Some(k) => find_char_from(t@, c, i as int) == Some(k as int) && i <= k < t@.len(),
            None => find_char_from(t@, c, i as int) == None::<int>,
        },
{
    let mut k = i;
    while k < t.len()
        invariant
            i <= k <= t@.len(),
            find_char_from(t@, c, k as int) == find_char_from(t@, c, i as int),
        decreases t@.len() - k,
    {
        if t[k] == c {
            return Some(k);
        }
        k = k + 1;
    }
    None
}

/// The raw value of an SVG root attribute such as `width="120"`: the quoted
/// text after the first occurrence of `name`.
pub fn svg_attr_value<'a>(text: &'a str, name: &str) -> (value: Option<&'a str>)
    ensures
        match value {
            Some(v) => attr_value_text(text@, name@) == Some(v@),
            None => attr_value_text(text@, name@) == None::<Seq<char>>,
        },
{
    let t = chars_of(text);
    let n = chars_of(name);
    let p = match find_needle(&t, &n) {
        Some(p) => p,
        None => return None,
    };
    let i1 = skip_ws(&t, p + n.len());
    if i1 >= t.len() || t[i1] != '=' {
        return None;
    }
    let i2 = skip_ws(&t, i1 + 1);
    if i2 >= t.len() || (t[i2] != '"' && t[i2] != '\'') {
        return None;
    }
    let quote = t[i2];
    match find_char(&t, quote, i2 + 1) {
        Some(e) => Some(text.substring_char(i2 + 1, e)),
        None => None,
    }
}

// ---------------------------------------------------------------------------
// Loading decisions
// ---------------------------------------------------------------------------

/// Why an image source cannot be loaded before its bytes are read.
#[derive(Debug, Clone, Copy, PartialEq, Eq, Structural)]
pub enum ImageSourceError {
    /// The source is a URL; only local paths are supported.
    Url,
    /// The path does not end in `.png`, `.jpg`, `.jpeg`, `.gif` or `.svg`.
    UnsupportedExtension,
}

/// The MIME type to load an image source as: URLs are refused first, then
/// paths without a supported extension; a path that splits alike on every
/// platform loads as the type its file name's extension selects.
pub fn image_source_mime(source: &str) -> (mime: Result<&'static str, ImageSourceError>)
    ensures
        url_like(source.spec_bytes()) ==> mime == Err::<&'static str, ImageSourceError>(
            ImageSourceError::Url,
        ),
        !url_like(source.spec_bytes()) ==> match mime {
            Ok(m) => path_may_have_mime(source@, m@),
            Err(e) => e == ImageSourceError::UnsupportedExtension,
        },
        !url_like(source.spec_bytes()) && simple_path(source@) ==> match extension_mime(
            name_extension(final_segment(source@)),
        ) {
            Some(t) => mime matches Ok(m) && m@ == t,
            None => mime == Err::<&'static str, ImageSourceError>(
                ImageSourceError::UnsupportedExtension,
            ),
        },
{
    if is_url_like(source) {
        return Err(ImageSourceError::Url);
    }
    match mime_for_path(source) {
        Some(m) => Ok(m),
        None => Err(ImageSourceError::UnsupportedExtension),
    }
}

/// The data URL that embeds image bytes of a MIME type.
pub open spec fn data_url_text(mime: Seq<char>, bytes: Seq<u8>) -> Seq<char> {
    "data:"@ + mime + ";base64,"@ + base64(bytes)
}

/// Embed image bytes as a `data:` URL.
pub fn data_url(mime: &str, bytes: &[u8]) -> (url: String)
    ensures
        url@ == data_url_text(mime@, bytes@),
{
    let mut url = String::new();
    url.append("data:");
    url.append(mime);
    url.append(";base64,");
    let encoded = base64_encode(bytes);
    url.append(encoded.as_str());
    url
}

/// The pixel dimensions a PNG, JPEG or GIF header of the given MIME type
/// declares; other types have none here.
pub open spec fn pixel_dims_of(mime: Seq<char>, b: Seq<u8>) -> Option<(u32, u32)> {
    if mime == "image/png"@ {
        png_dims(b)
    } else if mime == "image/jpeg"@ {
        match jpeg_dims(b) {
            Some((w, h)) => Some((w as u32, h as u32)),
            None => None,
        }
    } else if mime == "image/gif"@ {
        match gif_dims(b) {
            Some((w, h)) => Some((w as u32, h as u32)),
            None => None,
        }
    } else {
        None
    }
}

/// The pixel dimensions of an image are those its format's own header
/// reader finds, as (width, height) in the same order: the PNG reader's for
/// `image/png`, the JPEG reader's for `image/jpeg` and the GIF reader's for
/// `image/gif`, widened to `u32`.
pub proof fn lemma_pixel_dims_follow_format_readers(b: Seq<u8>)
    ensures
        pixel_dims_of("image/png"@, b) == png_dims(b),
        pixel_dims_of("image/jpeg"@, b) is Some <==> jpeg_dims(b) is Some,
        pixel_dims_of("image/jpeg"@, b) matches Some((w, h)) ==> (jpeg_dims(b) matches Some((
            fw,
            fh,
        )) && w == fw && h == fh),
        pixel_dims_of("image/gif"@, b) is Some <==> gif_dims(b) is Some,
        pixel_dims_of("image/gif"@, b) matches Some((w, h)) ==> (gif_dims(b) matches Some((
            fw,
            fh,
        )) && w == fw && h == fh),
{
    reveal_strlit("image/png");
    reveal_strlit("image/jpeg");
    reveal_strlit("image/gif");
    assert("image/jpeg"@ != "image/png"@) by {
        assert("image/jpeg"@[6] != "image/png"@[6]);
    }
    assert("image/gif"@ != "image/png"@) by {
        assert("image/gif"@[6] != "image/png"@[6]);
    }
    assert("image/gif"@ != "image/jpeg"@) by {
        assert("image/gif"@[6] != "image/jpeg"@[6]);
    }
}

/// A JPEG whose first segment is a start-of-frame segment declares its
/// height in the two bytes after the sample precision and its width in the
/// two after those (big endian): with the segment length at bytes 4 and 5,
/// the height is at 7 and 8 and the width at 9 and 10.
pub proof fn lemma_jpeg_first_frame_dims(b: Seq<u8>)
    requires
        b.len() >= 11,
        b[0] == 0xff && b[1] == 0xd8 && b[2] == 0xff,
        jpeg_sof_marker(b[3]),
        be16(b[4], b[5]) >= 2,
        4 + be16(b[4], b[5]) <= b.len(),
        be16(b[9], b[10]) > 0,
        be16(b[7], b[8]) > 0,
    ensures
        jpeg_dims(b) == Some((be16(b[9], b[10]), be16(b[7], b[8]))),
{
    assert(skip_fill(b, 3) == 3);
    assert(skip_fill(b, 2) == 3);
    assert(jpeg_scan(b, 2) == jpeg_marker(b, skip_fill(b, 2), 2));
}

/// A PNG declares its width in the four bytes after the IHDR chunk's type
/// (bytes 16 to 19) and its height in the next four (20 to 23), big endian.
pub proof fn lemma_png_header_dims(b: Seq<u8>)
    requires
        b.len() >= 24,
        b.subrange(0, 8) == seq![0x89u8, 0x50u8, 0x4eu8, 0x47u8, 0x0du8, 0x0au8, 0x1au8, 0x0au8],
        be32(b[16], b[17], b[18], b[19]) > 0,
        be32(b[20], b[21], b[22], b[23]) > 0,
    ensures
        png_dims(b) == Some((be32(b[16], b[17], b[18], b[19]), be32(b[20], b[21], b[22], b[23]))),
{
    assert(b.take(8) =~= png_signature());
}

/// A GIF declares its width in bytes 6 and 7 and its height in bytes 8 and
/// 9 of its logical screen descriptor, little endian.
pub proof fn lemma_gif_header_dims(b: Seq<u8>)
    requires
        b.len() >= 10,
        b[0] == 0x47 && b[1] == 0x49 && b[2] == 0x46 && b[3] == 0x38,
        b[4] == 0x37 || b[4] == 0x39,
        b[5] == 0x61,
        le16(b[6], b[7]) > 0,
        le16(b[8], b[9]) > 0,
    ensures
        gif_dims(b) == Some((le16(b[6], b[7]), le16(b[8], b[9]))),
{
}

/// The pixel dimensions of PNG, JPEG and GIF image data.
pub fn pixel_dimensions(mime: &str, bytes: &[u8]) -> (dims: Option<(u32, u32)>)
    ensures
        dims == pixel_dims_of(mime@, bytes@),
{
    if str_equal(mime, "image/png") {
        png_dimensions(bytes)
    } else if str_equal(mime, "image/jpeg") {
        match jpeg_dimensions(bytes) {
            Some((w, h)) => Some((w as u32, h as u32)),
            None => None,
        }
    } else if str_equal(mime, "image/gif") {
        match gif_dimensions(bytes) {
            Some((w, h)) => Some((w as u32, h as u32)),
            None => None,
        }
    } else {
        None
    }
}

// ---------------------------------------------------------------------------
// SVG sizes
// ---------------------------------------------------------------------------

/// Whether a character can belong to a number written in an SVG attribute.
pub open spec fn numeric_char(c: char) -> bool {
    ('0' <= c && c <= '9') || c == '.' || c == '-' || c == '+' || c == 'e' || c == 'E'
}

/// The length of the longest prefix made of number characters.
pub open spec fn numeric_prefix_len(s: Seq<char>) -> nat
    decreases s.len(),
{
    if s.len() == 0 || !numeric_char(s[0]) {
        0
    } else {
        1 + numeric_prefix_len(s.drop_first())
    }
}

proof fn lemma_numeric_prefix_len(s: Seq<char>, i: int)
    requires
        0 <= i <= s.len(),
        forall|k: int| 0 <= k < i ==> numeric_char(#[trigger] s[k]),
        i == s.len() || !numeric_char(s[i]),
    ensures
        numeric_prefix_len(s) == i,
    decreases i,
{
    if i > 0 {
        assert forall|k: int| 0 <= k < i - 1 implies numeric_char(#[trigger] s.drop_first()[k]) by {
            assert(s.drop_first()[k] == s[k + 1]);
        }
        if i < s.len() {
            assert(s.drop_first()[i - 1] == s[i]);
        }
        lemma_numeric_prefix_len(s.drop_first(), i - 1);
    }
}

fn is_numeric_char(c: char) -> (b: bool)
    ensures
        b == numeric_char(c),
{
    ('0' <= c && c <= '9') || c == '.' || c == '-' || c == '+' || c == 'e' || c == 'E'
}

/// The leading number text of an attribute value such as `120px`: the
/// longest prefix of digits, signs, points and exponent marks.
pub fn numeric_prefix(raw: &str) -> (prefix: &str)
    ensures
        prefix@ == raw@.take(numeric_prefix_len(raw@) as int),
{
    let chars = chars_of(raw);
    let mut i: usize = 0;
    while i < chars.len() && is_numeric_char(chars[i])
        invariant
            chars@ == raw@,
            i <= chars@.len(),
            forall|k: int| 0 <= k < i ==> numeric_char(#[trigger] chars@[k]),
        decreases chars@.len() - i,
    {
        i = i + 1;
    }
    proof {
        lemma_numeric_prefix_len(raw@, i as int);
    }
    raw.substring_char(0, i)
}

/// The fields of an SVG `viewBox` value, separated by commas and ASCII
/// whitespace.
pub fn view_box_fields(view_box: &str) -> (parts: Vec<String>)
    ensures
        texts(parts@) == fields(view_box@, true),
{
    let chars = chars_of(view_box);
    split_fields(chars.as_slice(), true)
}

} // verus!
