use algraf_render::assets::{
    base64_encode, data_url, gif_dimensions, image_source_mime, is_jpeg_sof, is_url_like,
    jpeg_dimensions, mime_for_extension, mime_for_path, numeric_prefix, pixel_dimensions, png_dimensions, push_source,
    svg_attr_value, view_box_fields, ImageSourceError,
};
use algraf_render::color::{hex_digit_value, hex_pair};
use algraf_render::raster::{named_color, parse_hex};
use algraf_render::rows::union_rows;
use algraf_render::stats::{
    normalize_grid_size, GridSize, QqOptions, StepDirection, StepVerticesOptions,
    Summary2DOptions, SummaryReducer,
};
use algraf_render::theme::{
    categorical_color_from, hex_color, palette_colors, parse_color, ACCENT_PALETTE,
    CATEGORICAL_PALETTE,
};

fn png_header(width: u32, height: u32) -> Vec<u8> {
    let mut bytes = vec![0x89, 0x50, 0x4e, 0x47, 0x0d, 0x0a, 0x1a, 0x0a, 0, 0, 0, 13];
    bytes.extend_from_slice(b"IHDR");
    bytes.extend_from_slice(&width.to_be_bytes());
    bytes.extend_from_slice(&height.to_be_bytes());
    bytes
}

#[test]
fn png_header_gives_big_endian_dimensions() {
    assert_eq!(png_dimensions(&png_header(640, 480)), Some((640, 480)));
    assert_eq!(png_dimensions(&png_header(0x01020304, 1)), Some((0x01020304, 1)));
}

#[test]
fn png_header_rejects_zero_size_and_bad_signature() {
    assert_eq!(png_dimensions(&png_header(0, 480)), None);
    let mut bad = png_header(10, 10);
    bad[1] = b'Q';
    assert_eq!(png_dimensions(&bad), None);
    assert_eq!(png_dimensions(&png_header(10, 10)[..23]), None);
}

#[test]
fn gif_header_gives_little_endian_dimensions() {
    let mut bytes = b"GIF89a".to_vec();
    bytes.extend_from_slice(&[0x2c, 0x01, 0xc8, 0x00]);
    assert_eq!(gif_dimensions(&bytes), Some((300, 200)));
    let mut old = b"GIF87a".to_vec();
    old.extend_from_slice(&[1, 0, 2, 0]);
    assert_eq!(gif_dimensions(&old), Some((1, 2)));
    let mut other = b"GIF88a".to_vec();
    other.extend_from_slice(&[1, 0, 2, 0]);
    assert_eq!(gif_dimensions(&other), None);
    assert_eq!(gif_dimensions(b"GIF89a\x01\x00\x00\x00"), None);
}

#[test]
fn jpeg_header_walks_segments_to_the_frame() {
    // SOI, an APP0 segment of length 4, fill bytes, then SOF0 with height 120, width 160.
    let bytes = vec![
        0xff, 0xd8, 0xff, 0xe0, 0x00, 0x04, 0xaa, 0xbb, 0xff, 0xff, 0xc0, 0x00, 0x08, 0x08,
        0x00, 0x78, 0x00, 0xa0, 0x03,
    ];
    assert_eq!(jpeg_dimensions(&bytes), Some((160, 120)));
}

#[test]
fn jpeg_header_rejects_truncated_and_missing_frames() {
    assert_eq!(jpeg_dimensions(&[0xff, 0xd8, 0xff]), None);
    assert_eq!(jpeg_dimensions(&[0x00, 0xd8, 0xff, 0xc0, 0, 0]), None);
    // A segment whose length runs past the end ends the walk.
    assert_eq!(jpeg_dimensions(&[0xff, 0xd8, 0xff, 0xe0, 0x00, 0x40, 0x00]), None);
    // A frame with zero width has no dimensions.
    let zero = vec![0xff, 0xd8, 0xff, 0xc2, 0x00, 0x08, 0x08, 0x00, 0x10, 0x00, 0x00, 0x03];
    assert_eq!(jpeg_dimensions(&zero), None);
}

#[test]
fn jpeg_frame_markers() {
    assert!(is_jpeg_sof(0xc0));
    assert!(is_jpeg_sof(0xc2));
    assert!(is_jpeg_sof(0xcf));
    assert!(!is_jpeg_sof(0xc4));
    assert!(!is_jpeg_sof(0xc8));
    assert!(!is_jpeg_sof(0xcc));
    assert!(!is_jpeg_sof(0xd8));
}

#[test]
fn base64_matches_the_standard_alphabet_with_padding() {
    assert_eq!(base64_encode(b""), "");
    assert_eq!(base64_encode(b"f"), "Zg==");
    assert_eq!(base64_encode(b"fo"), "Zm8=");
    assert_eq!(base64_encode(b"foo"), "Zm9v");
    assert_eq!(base64_encode(b"foobar"), "Zm9vYmFy");
    assert_eq!(base64_encode(&[0xff, 0xfe, 0xfd]), "//79");
    assert_eq!(base64_encode(b"hello world").len(), 16);
}

#[test]
fn sources_are_recorded_once_in_first_seen_order() {
    let mut sources: Vec<(String, u32)> = Vec::new();
    push_source(&mut sources, "a.png", 1);
    push_source(&mut sources, "", 2);
    push_source(&mut sources, "b.png", 3);
    push_source(&mut sources, "a.png", 4);
    assert_eq!(sources, vec![("a.png".to_string(), 1), ("b.png".to_string(), 3)]);
}

#[test]
fn url_detection_skips_drive_letters() {
    assert!(is_url_like("https://example.com/a.png"));
    assert!(is_url_like("data:image/png;base64,AAAA"));
    assert!(is_url_like("svn+ssh://host/x"));
    assert!(!is_url_like("C:\\images\\a.png"));
    assert!(!is_url_like("images/a.png"));
    assert!(!is_url_like(":nothing"));
    assert!(!is_url_like("1abc:rest"));
    assert!(!is_url_like("a b:rest"));
}

#[test]
fn mime_types_follow_the_extension_in_any_case() {
    assert_eq!(mime_for_path("logo.png"), Some("image/png"));
    assert_eq!(mime_for_path("photo.JPG"), Some("image/jpeg"));
    assert_eq!(mime_for_path("dir.v2/photo.jpeg"), Some("image/jpeg"));
    assert_eq!(mime_for_path("anim.Gif"), Some("image/gif"));
    assert_eq!(mime_for_path("icon.svg"), Some("image/svg+xml"));
    assert_eq!(mime_for_path("notes.txt"), None);
    assert_eq!(mime_for_path("README"), None);
    assert_eq!(mime_for_path(".png"), None);
    assert_eq!(mime_for_path("logos/team.png"), Some("image/png"));
    assert_eq!(mime_for_path("images.png/README"), None);
}

#[test]
fn svg_root_attributes_are_read_from_quotes() {
    let text = "<svg xmlns=\"http://www.w3.org/2000/svg\" width = '120' height=\"80px\">";
    assert_eq!(svg_attr_value(text, "width"), Some("120"));
    assert_eq!(svg_attr_value(text, "height"), Some("80px"));
    assert_eq!(svg_attr_value(text, "viewBox"), None);
    assert_eq!(svg_attr_value("<svg width=120>", "width"), None);
    assert_eq!(svg_attr_value("<svg width=\"120>", "width"), None);
}

#[test]
fn hex_digits_and_pairs() {
    assert_eq!(hex_digit_value(b'0'), Some(0));
    assert_eq!(hex_digit_value(b'9'), Some(9));
    assert_eq!(hex_digit_value(b'a'), Some(10));
    assert_eq!(hex_digit_value(b'F'), Some(15));
    assert_eq!(hex_digit_value(b'g'), None);
    assert_eq!(hex_pair(b'f', b'f'), Some(255));
    assert_eq!(hex_pair(b'4', b'6'), Some(70));
    assert_eq!(hex_pair(b'4', b'x'), None);
}

#[test]
fn raster_hex_parsing_short_and_long_forms() {
    assert_eq!(parse_hex("fff"), Some((255, 255, 255)));
    assert_eq!(parse_hex("1a2"), Some((17, 170, 34)));
    assert_eq!(parse_hex("4682B4"), Some((70, 130, 180)));
    assert_eq!(parse_hex("12345"), None);
    assert_eq!(parse_hex("zz0000"), None);
}

#[test]
fn raster_named_colors_ignore_case() {
    assert_eq!(named_color("SteelBlue"), Some((70, 130, 180)));
    assert_eq!(named_color("grey"), Some((128, 128, 128)));
    assert_eq!(named_color("LightGray"), Some((211, 211, 211)));
    assert_eq!(named_color("tomato"), Some((255, 99, 71)));
    assert_eq!(named_color("transparent"), None);
    assert_eq!(named_color("purple"), None);
}

#[test]
fn palettes_by_name() {
    assert_eq!(palette_colors(Some("accent")), &ACCENT_PALETTE[..]);
    assert_eq!(palette_colors(Some("category10")), &CATEGORICAL_PALETTE[..]);
    assert_eq!(palette_colors(None), &CATEGORICAL_PALETTE[..]);
}

#[test]
fn categorical_colors_wrap_around() {
    assert_eq!(categorical_color_from(None, 0), CATEGORICAL_PALETTE[0]);
    assert_eq!(categorical_color_from(None, 13), CATEGORICAL_PALETTE[3]);
    assert_eq!(categorical_color_from(Some("accent"), 21), ACCENT_PALETTE[1]);
    assert_eq!(
        categorical_color_from(Some("accent"), 4),
        categorical_color_from(Some("accent"), 14)
    );
}

#[test]
fn gradient_colors_parse_names_and_hex() {
    assert_eq!(parse_color("Purple"), (128, 0, 128));
    assert_eq!(parse_color("#440154"), (0x44, 0x01, 0x54));
    assert_eq!(parse_color("##abc"), (0xaa, 0xbb, 0xcc));
    assert_eq!(parse_color("#zz0154"), (0, 0x01, 0x54));
    assert_eq!(parse_color("tomato"), (0, 0, 0));
    assert_eq!(parse_color("#12345"), (0, 0, 0));
}

#[test]
fn grid_sizes_are_clamped_per_axis() {
    let g = normalize_grid_size(GridSize { x: 1, y: 500 }, 2, 200);
    assert_eq!(g, GridSize { x: 2, y: 200 });
    let same = normalize_grid_size(GridSize::square(30), 2, 200);
    assert_eq!(same, GridSize::square(30));
    assert_eq!(normalize_grid_size(g, 2, 200), g);
}

#[test]
fn stat_option_defaults() {
    assert_eq!(GridSize::default(), GridSize { x: 30, y: 30 });
    let s = Summary2DOptions::default();
    assert_eq!(s.bins, GridSize::square(30));
    assert_eq!(s.reducer, SummaryReducer::Mean);
    assert_eq!(SummaryReducer::default(), SummaryReducer::Mean);
    assert!(QqOptions::default().reference);
    assert_eq!(StepVerticesOptions::default().direction, StepDirection::Hv);
}

#[test]
fn matched_rows_are_merged_sorted_and_unique() {
    let rows = union_rows(&[vec![5, 1, 3], vec![3, 2], vec![], vec![5, 0]]);
    assert_eq!(rows, vec![0, 1, 2, 3, 5]);
    assert_eq!(union_rows(&[]), Vec::<usize>::new());
}

#[test]
fn colours_print_as_lower_case_hex() {
    assert_eq!(hex_color((0x44, 0x01, 0x54)), "#440154");
    assert_eq!(hex_color((255, 0, 171)), "#ff00ab");
    assert_eq!(hex_color(parse_color("#FDE725")), "#fde725");
}

#[test]
fn image_sources_are_checked_before_reading() {
    assert_eq!(image_source_mime("https://x.org/a.png"), Err(ImageSourceError::Url));
    assert_eq!(image_source_mime("logo.bmp"), Err(ImageSourceError::UnsupportedExtension));
    assert_eq!(image_source_mime("logos/team.PNG"), Ok("image/png"));
    assert_eq!(image_source_mime("C:/pics/a.svg"), Ok("image/svg+xml"));
}

#[test]
fn data_urls_embed_base64_bytes() {
    assert_eq!(data_url("image/gif", b"GIF"), "data:image/gif;base64,R0lG");
    assert_eq!(data_url("image/png", b""), "data:image/png;base64,");
}

#[test]
fn pixel_dimensions_dispatch_on_mime() {
    assert_eq!(pixel_dimensions("image/png", &png_header(3, 4)), Some((3, 4)));
    let mut gif = b"GIF89a".to_vec();
    gif.extend_from_slice(&[7, 0, 9, 0]);
    assert_eq!(pixel_dimensions("image/gif", &gif), Some((7, 9)));
    assert_eq!(pixel_dimensions("image/jpeg", &png_header(3, 4)), None);
    assert_eq!(pixel_dimensions("image/svg+xml", b"<svg width=\"3\"/>"), None);
}

#[test]
fn svg_sizes_take_the_leading_number() {
    assert_eq!(numeric_prefix("120px"), "120");
    assert_eq!(numeric_prefix("-3.5"), "-3.5");
    assert_eq!(numeric_prefix("1.5e2em"), "1.5e2e");
    assert_eq!(numeric_prefix("px"), "");
}

#[test]
fn view_boxes_split_on_commas_and_whitespace() {
    assert_eq!(view_box_fields("0 0,100\t50"), vec!["0", "0", "100", "50"]);
    assert_eq!(view_box_fields(" ,\n "), Vec::<String>::new());
    assert_eq!(view_box_fields("  -1,  2.5 "), vec!["-1", "2.5"]);
}

#[test]
fn mime_types_by_extension() {
    assert_eq!(mime_for_extension(Some("PNG")), Some("image/png"));
    assert_eq!(mime_for_extension(Some("Jpeg")), Some("image/jpeg"));
    assert_eq!(mime_for_extension(Some("svg")), Some("image/svg+xml"));
    assert_eq!(mime_for_extension(Some("txt")), None);
    assert_eq!(mime_for_extension(Some("")), None);
    assert_eq!(mime_for_extension(None), None);
}

fn read_base64(s: &str) -> Vec<u8> {
    let value = |c: u8| -> u8 {
        match c {
            b'A'..=b'Z' => c - b'A',
            b'a'..=b'z' => c - b'a' + 26,
            b'0'..=b'9' => c - b'0' + 52,
            b'+' => 62,
            b'/' => 63,
            _ => 0,
        }
    };
    let b = s.as_bytes();
    assert_eq!(b.len() % 4, 0);
    let mut out = Vec::new();
    for q in b.chunks(4) {
        let v: Vec<u8> = q.iter().map(|&c| value(c)).collect();
        out.push((v[0] << 2) | (v[1] >> 4));
        if q[2] != b'=' {
            out.push((v[1] << 4) | (v[2] >> 2));
        }
        if q[3] != b'=' {
            out.push((v[2] << 6) | v[3]);
        }
    }
    out
}

#[test]
fn base64_reads_back_with_standard_padding() {
    let data: Vec<u8> = (0u8..=255).rev().collect();
    for n in 0..12usize {
        let bytes = &data[..n];
        let text = base64_encode(bytes);
        assert_eq!(text.len(), 4 * ((n + 2) / 3));
        assert!(text.trim_end_matches('=').bytes().all(|c| c.is_ascii_alphanumeric() || c == b'+' || c == b'/'));
        let pad = text.len() - text.trim_end_matches('=').len();
        assert_eq!(pad, [0, 2, 1][n % 3]);
        assert_eq!(read_base64(&text), bytes);
    }
    assert_eq!(base64_encode(b"Man"), "TWFu");
    assert_eq!(base64_encode(b"Ma"), "TWE=");
}
