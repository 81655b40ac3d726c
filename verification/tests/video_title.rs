use launch::title::{default_font_size, title_paragraphs};

#[test]
fn splits_title_lines_from_escaped_newline() {
    assert_eq!(
        title_paragraphs("如何下载\\n搬小书"),
        vec!["如何下载".to_string(), "搬小书".to_string()]
    );
}

#[test]
fn default_font_size_stays_in_reasonable_range() {
    let lines = title_paragraphs("如何下载\\n搬小书");
    let size = default_font_size(1598, 3014, &lines);
    assert!((72..=360).contains(&size));
}
