use algraf_render::path_data::{path_segments, path_tokens, PathSegment};
use algraf_render::raster::raster_rgb;

fn seg(command: char, operands: &[&str]) -> PathSegment {
    PathSegment { command, operands: operands.iter().map(|s| s.to_string()).collect() }
}

#[test]
fn letters_stand_alone_and_separators_split() {
    assert_eq!(
        path_tokens("M10 20L30,40Z"),
        vec!["M", "10", "20", "L", "30", "40", "Z"]
    );
    assert_eq!(path_tokens("  ,, "), Vec::<String>::new());
    assert_eq!(path_tokens("1e5"), vec!["1", "e", "5"]);
    assert_eq!(path_tokens("-1.5,,2"), vec!["-1.5", "2"]);
}

#[test]
fn path_data_splits_into_commands() {
    let segs = path_segments("M10 20L30,40A5 5 0 0 1 50 60Z").expect("valid path");
    assert_eq!(
        segs,
        vec![
            seg('M', &["10", "20"]),
            seg('L', &["30", "40"]),
            seg('A', &["5", "5", "0", "0", "1", "50", "60"]),
            seg('Z', &[]),
        ]
    );
    assert_eq!(path_segments(""), Some(vec![]));
    assert_eq!(path_segments("z"), Some(vec![seg('z', &[])]));
}

#[test]
fn unknown_commands_and_missing_operands_reject_the_path() {
    assert_eq!(path_segments("Q1 2 3 4"), None);
    assert_eq!(path_segments("M10"), None);
    assert_eq!(path_segments("1 2"), None);
    assert_eq!(path_segments("M1 2 3"), None);
}

#[test]
fn raster_colours_resolve_hex_then_names_then_grey() {
    assert_eq!(raster_rgb("#abc"), (0xaa, 0xbb, 0xcc));
    assert_eq!(raster_rgb("#4682b4"), (70, 130, 180));
    assert_eq!(raster_rgb("SteelBlue"), (70, 130, 180));
    assert_eq!(raster_rgb("Tomato"), (255, 99, 71));
    assert_eq!(raster_rgb("#zzz"), (0x88, 0x88, 0x88));
    assert_eq!(raster_rgb("#12345"), (0x88, 0x88, 0x88));
    assert_eq!(raster_rgb("transparent"), (0x88, 0x88, 0x88));
    assert_eq!(raster_rgb("abc"), (0x88, 0x88, 0x88));
}
