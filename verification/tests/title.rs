use launch::title::{
    concat_list, concat_path, default_font_size, line_gap, parse_dimensions, parse_duration,
    stroke_offsets, title_paragraphs, title_span,
};

#[test]
fn paragraphs_are_trimmed_and_never_blank() {
    assert_eq!(
        title_paragraphs("  第一行 \\n\\n \n第二行\\\\n"),
        vec!["第一行".to_string(), "第二行\\".to_string()]
    );
    assert!(title_paragraphs(" \\n ").is_empty());
}

#[test]
fn default_font_size_exact_value() {
    let lines = title_paragraphs("如何下载\\n搬小书");
    // min(1598 / (4 * 0.92), 3014 / (2.5 * 5.2)) = 231.8..., rounded
    assert_eq!(default_font_size(1598, 3014, &lines), 232);
    // very wide: capped at 360; very small: raised to 72
    assert_eq!(default_font_size(100_000, 100_000, &["a".to_string()]), 360);
    assert_eq!(default_font_size(10, 10, &["abc".to_string()]), 72);
    // no lines counts four characters
    assert_eq!(default_font_size(1000, 100_000, &[]), 272);
}

#[test]
fn line_gap_is_092_of_the_size() {
    assert_eq!(line_gap(120), 110);
    assert_eq!(line_gap(100), 92);
}

#[test]
fn outline_rings() {
    let o = stroke_offsets(12);
    assert_eq!(o.len(), 4 * 16);
    assert_eq!(&o[..9], &[(-3, 0), (3, 0), (0, -3), (0, 3), (-3, -3), (-3, 3), (3, -3), (3, 3), (-1, -3)]);
    assert_eq!(stroke_offsets(18).len(), 6 * 16);
    assert_eq!(stroke_offsets(30).len(), 5 * 16);
    assert_eq!(stroke_offsets(30)[0], (-6, 0));
    assert!(stroke_offsets(0).is_empty());
}

#[test]
fn concat_list_quotes_paths() {
    assert_eq!(concat_path("a'b"), "a'\\''b");
    assert_eq!(
        concat_list("/tmp/h.mp4", "in's.mp4", 3_500_000),
        "file '/tmp/h.mp4'\nfile 'in'\\''s.mp4'\ninpoint 3.500\n"
    );
}

#[test]
fn title_span_and_rest() {
    assert_eq!(title_span(5_000_000, 10_000_000), (5_000_000, true));
    assert_eq!(title_span(20_000_000, 10_000_000), (10_000_000, false));
    assert_eq!(title_span(10_000_000, 10_040_000), (10_000_000, false));
}

#[test]
fn ffprobe_output() {
    assert_eq!(parse_dimensions("1920x1080\n"), Some((1920, 1080)));
    assert_eq!(parse_dimensions("abc"), None);
    assert_eq!(parse_dimensions("12x"), None);
    assert_eq!(parse_duration(" 12.5\n"), Some(12_500_000));
    assert_eq!(parse_duration("N/A"), None);
}

#[test]
fn durations_with_an_exponent() {
    assert_eq!(parse_duration("1e1"), Some(10_000_000));
    assert_eq!(parse_duration("2.5E-3"), Some(2_500));
    assert_eq!(parse_duration("+1.25e+2"), Some(125_000_000));
    assert_eq!(parse_duration("125e-2"), Some(1_250_000));
    assert_eq!(parse_duration(".5e1"), Some(5_000_000));
    assert_eq!(parse_duration("3.e0"), Some(3_000_000));
    assert_eq!(parse_duration("1e-7"), Some(0));
    assert_eq!(parse_duration("0e999999999999999999999999"), Some(0));
    assert_eq!(parse_duration("1e999999999999999999999999"), None);
    assert_eq!(parse_duration("1e-999999999999999999999999"), Some(0));
    assert_eq!(parse_duration("1.5e-10"), Some(0));
    assert_eq!(parse_duration("123456789e-9"), Some(123_456));
    assert_eq!(parse_duration("1e13"), Some(10_000_000_000_000_000_000));
    assert_eq!(parse_duration("1e14"), None);
    assert_eq!(parse_duration("1e"), None);
    assert_eq!(parse_duration("e5"), None);
    assert_eq!(parse_duration("1e+"), None);
    assert_eq!(parse_duration("1.2.3e1"), None);
}
