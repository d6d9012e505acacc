use retained_tree::codec::{decode_style, encode_style, STYLE_BLOB_LEN};
use retained_tree::style::{Align, Dimension, Direction, EdgeSpec, Justify, SizeSpec, Style};

fn sample_style() -> Style {
    Style {
        direction: Direction::Column,
        justify: Justify::SpaceBetween,
        align: Align::Center,
        size: SizeSpec {
            width: Dimension::Points(12_500),
            height: Dimension::Percent(10_000),
        },
        margin: EdgeSpec {
            start: Dimension::Points(4_000),
            end: Dimension::Auto,
            top: Dimension::Undefined,
            bottom: Dimension::Percent(250),
        },
    }
}

#[test]
fn round_trip_sample_style() {
    let s = sample_style();
    let blob = encode_style(&s);
    assert_eq!(blob.len(), STYLE_BLOB_LEN);
    assert_eq!(decode_style(&blob), Some(s));
}

#[test]
fn round_trip_default_and_window_styles() {
    let d = Style::default_style();
    assert_eq!(decode_style(&encode_style(&d)), Some(d));
    let w = Style::window_root_style();
    assert_eq!(decode_style(&encode_style(&w)), Some(w));
}

#[test]
fn round_trip_extreme_values() {
    let mut s = Style::default_style();
    s.size = SizeSpec {
        width: Dimension::Points(u32::MAX),
        height: Dimension::Percent(0),
    };
    assert_eq!(decode_style(&encode_style(&s)), Some(s));
}

#[test]
fn exact_wire_form_of_default_style() {
    // row / flex-start / stretch, auto size, undefined margins
    let blob = encode_style(&Style::default_style());
    assert_eq!(
        blob,
        "004A00000000A00000000U00000000U00000000U00000000U00000000"
    );
}

#[test]
fn malformed_blobs_are_rejected() {
    assert_eq!(decode_style(""), None);
    assert_eq!(decode_style("short"), None);
    // right length, bad direction digit
    let mut blob = encode_style(&Style::default_style());
    blob.replace_range(0..1, "9");
    assert_eq!(decode_style(&blob), None);
    // bad hex digit inside a points value
    let mut blob2 = encode_style(&sample_style());
    blob2.replace_range(4..5, "z");
    assert_eq!(decode_style(&blob2), None);
    // unknown dimension tag
    let mut blob3 = encode_style(&sample_style());
    blob3.replace_range(3..4, "X");
    assert_eq!(decode_style(&blob3), None);
}
