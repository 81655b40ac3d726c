use launch::mockup::{has_marker, is_already_processed, MARKER_KEY, MARKER_VALUE};

/// A 1x1 RGBA PNG with the given text chunks.
fn png_with_text(chunks: &[(&str, &str)]) -> Vec<u8> {
    let mut bytes = Vec::new();
    {
        let mut encoder = png::Encoder::new(&mut bytes, 1, 1);
        encoder.set_color(png::ColorType::Rgba);
        encoder.set_depth(png::BitDepth::Eight);
        for (k, t) in chunks {
            encoder.add_text_chunk(k.to_string(), t.to_string()).unwrap();
        }
        let mut writer = encoder.write_header().unwrap();
        writer.write_image_data(&[1, 2, 3, 4]).unwrap();
        writer.finish().unwrap();
    }
    bytes
}

#[test]
fn marker_chunk() {
    assert!(has_marker(&vec![("x".to_string(), "y".to_string()), ("launch".to_string(), "mockup".to_string())]));
    assert!(!has_marker(&vec![("launch".to_string(), "other".to_string())]));
    assert!(!has_marker(&vec![]));
}

#[test]
fn marked_png_is_recognized() {
    let marked = png_with_text(&[("Software", "x"), (MARKER_KEY, MARKER_VALUE)]);
    assert!(is_already_processed(Some(&marked)));
    let plain = png_with_text(&[("Software", "x")]);
    assert!(!is_already_processed(Some(&plain)));
    let other = png_with_text(&[(MARKER_KEY, "other")]);
    assert!(!is_already_processed(Some(&other)));
}

#[test]
fn unreadable_files_are_not_processed() {
    assert!(!is_already_processed(None));
    assert!(!is_already_processed(Some(b"not a png")));
    assert!(!is_already_processed(Some(&[])));
}
