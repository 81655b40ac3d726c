use launch::capture::{
    capture_name, capture_suffix, derived_name, is_clip_file, is_image_extension,
    is_simulator_app, numbered_png, parse_adb_devices, safe_name, sanitize_name, window_fields,
    window_lines,
};

#[test]
fn adb_device_list() {
    let out = "List of devices attached\nemulator-5554\tdevice\nR58M\tunauthorized\nXYZ device usb:1\n\n";
    assert_eq!(parse_adb_devices(out), vec!["emulator-5554".to_string(), "XYZ".to_string()]);
    assert!(parse_adb_devices("List of devices attached\n").is_empty());
    assert!(parse_adb_devices("").is_empty());
}

#[test]
fn window_list() {
    let out = "\n12|Safari|Apple|800x600\n\n34|Safari|a|b|c\n";
    let ls = window_lines(out);
    assert_eq!(ls, vec!["12|Safari|Apple|800x600".to_string(), "34|Safari|a|b|c".to_string()]);
    assert_eq!(window_fields(&ls[1]), vec!["34", "Safari", "a", "b|c"]);
    assert_eq!(window_fields("7|Only"), vec!["7", "Only"]);
    assert!(is_simulator_app("Simulator"));
    assert!(!is_simulator_app("Safari"));
}

#[test]
fn output_names() {
    assert_eq!(capture_suffix(true, true), "screenshot");
    assert_eq!(capture_suffix(false, true), "raw");
    assert_eq!(capture_suffix(false, false), "mockup");
    assert_eq!(capture_name("screenshot", 1700000000, "mockup"), "screenshot-1700000000-mockup.png");
    assert_eq!(derived_name("shot", "mockup"), "shot-mockup.png");
    assert_eq!(safe_name("微信 App!"), "微信_App_");
    assert_eq!(numbered_png(7), "007.png");
    assert_eq!(numbered_png(1234), "1234.png");
}

#[test]
fn file_selection() {
    assert!(is_image_extension("PNG"));
    assert!(is_image_extension("jpeg"));
    assert!(!is_image_extension("gif"));
    assert!(is_clip_file("MP4", "clip-001"));
    assert!(!is_clip_file("mp4", "clip-001-framed"));
    assert!(!is_clip_file("mov", "clip"));
}

#[test]
fn session_names() {
    assert_eq!(sanitize_name("My Demo #1"), "My_Demo__1");
    assert_eq!(sanitize_name("__a-b__"), "a-b");
    assert_eq!(sanitize_name("???"), "recording");
    assert_eq!(sanitize_name(""), "recording");
}

#[test]
fn sanitizing_twice_changes_nothing() {
    for name in ["__My Demo!__", "", "ok-name_1", "***", "é-x"] {
        let once = sanitize_name(name);
        assert_eq!(sanitize_name(&once), once);
    }
}
