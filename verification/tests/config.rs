use launch::config::{
    android_entries, contents_entries, expand_platforms, get_entries, has_apple_platform,
    icon_files, ipad_entries, iphone_entries, is_apple_platform, mac_entries, preserves_alpha,
    size_requests, store_entries, store_preserves_alpha, watch_entries, Platform, APPICONSET,
};

#[test]
fn iphone_set_matches_the_asset_catalog() {
    let e = iphone_entries();
    assert_eq!(e.len(), 12);
    assert_eq!(e[0].size, "60x60");
    assert_eq!(e[0].expected_size, 180);
    assert_eq!(e[0].filename, "180.png");
    assert_eq!(e[0].folder, APPICONSET);
    assert_eq!(e[0].idiom, "iphone");
    assert_eq!(e[0].scale, "3x");
    assert_eq!(e[11].idiom, "ios-marketing");
    assert_eq!(e[11].expected_size, 1024);
}

#[test]
fn other_apple_sets_have_their_sizes() {
    assert_eq!(ipad_entries().len(), 13);
    assert_eq!(ipad_entries()[10].size, "83.5x83.5");
    assert_eq!(mac_entries().len(), 10);
    let w = watch_entries();
    assert_eq!(w.len(), 17);
    assert_eq!(w[0].role, Some("quickLook"));
    assert_eq!(w[0].subtype, Some("38mm"));
    assert_eq!(w[14].role, Some("companionSettings"));
    assert_eq!(w[14].subtype, None);
    assert_eq!(w[16].idiom, "watch-marketing");
}

#[test]
fn android_names_default_keep_and_extend() {
    let d = android_entries("");
    assert_eq!(d.len(), 5);
    assert!(d.iter().all(|e| e.filename == "ic_launcher.png"));
    assert_eq!(d[0].folder, "android/mipmap-mdpi/");
    assert_eq!(d[0].size, "48x48");
    assert_eq!(d[4].folder, "android/mipmap-xxxhdpi/");
    assert_eq!(d[4].expected_size, 192);
    assert!(android_entries("icon.png").iter().all(|e| e.filename == "icon.png"));
    assert!(android_entries("icon").iter().all(|e| e.filename == "icon.png"));
}

#[test]
fn store_icons_and_their_alpha() {
    let s = store_entries();
    assert_eq!(s[0].filename, "appstore.png");
    assert_eq!(s[1].filename, "playstore.png");
    assert!(!store_preserves_alpha("appstore.png"));
    assert!(store_preserves_alpha("playstore.png"));
    assert!(preserves_alpha(Platform::Android));
    assert!(!preserves_alpha(Platform::Iphone));
    assert!(is_apple_platform(Platform::Mac));
    assert!(!is_apple_platform(Platform::Android));
    assert!(!is_apple_platform(Platform::All));
}

#[test]
fn get_entries_picks_the_platform_set() {
    assert_eq!(get_entries(Platform::Ipad, "x").len(), 13);
    assert_eq!(get_entries(Platform::Android, "x")[0].filename, "x.png");
}

#[test]
fn expanding_all_or_nothing_gives_every_platform() {
    let every = vec![
        Platform::Iphone,
        Platform::Ipad,
        Platform::Watch,
        Platform::Mac,
        Platform::Android,
    ];
    assert_eq!(expand_platforms(&[]), every);
    assert_eq!(expand_platforms(&[Platform::Mac, Platform::All]), every);
}

#[test]
fn expanding_drops_repeats_in_first_order() {
    let e = expand_platforms(&[Platform::Android, Platform::Iphone, Platform::Android]);
    assert_eq!(e, vec![Platform::Android, Platform::Iphone]);
    assert_eq!(expand_platforms(&e), e);
}

#[test]
fn contents_lists_only_apple_icons() {
    let c = contents_entries(&[Platform::Android, Platform::Mac], "x");
    assert_eq!(c.len(), 10);
    assert!(c.iter().all(|e| e.idiom == "mac"));
    assert!(contents_entries(&[Platform::Android], "x").is_empty());
}

#[test]
fn icon_bundle_plan_requests_each_resize_once() {
    let platforms = [Platform::Iphone, Platform::Android];
    let files = icon_files(&platforms, "ic_launcher.png", false);
    assert_eq!(files.len(), 12 + 5 + 2);
    assert_eq!(files[0].path, "Assets.xcassets/AppIcon.appiconset/180.png");
    assert!(files[0].fill_white);
    assert_eq!(files[12].path, "android/mipmap-mdpi/ic_launcher.png");
    assert!(!files[12].fill_white);
    assert_eq!(files[17].path, "appstore.png");
    assert!(files[17].fill_white);
    assert_eq!(files[18].path, "playstore.png");
    assert!(!files[18].fill_white);
    let req = size_requests(&files);
    for f in &files {
        assert!(req.contains(&(f.size, f.fill_white)));
    }
    for (i, a) in req.iter().enumerate() {
        assert!(!req[i + 1..].contains(a));
    }
    assert_eq!(req[0], (180, true));
    assert!(req.contains(&(48, false)));
    assert!(req.contains(&(512, false)));
    assert_eq!(icon_files(&platforms, "ic_launcher.png", true).len(), 17);
    assert!(has_apple_platform(&platforms));
    assert!(!has_apple_platform(&[Platform::Android]));
}
