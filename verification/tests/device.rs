use launch::device::{
    all_devices, display_size, find_device, fit_to_screen, pixel_choice, screen_origin,
    screen_pixel, PixelChoice, DEFAULT_ANDROID_DEVICE, DEFAULT_DEVICE, DEFAULT_MAC_DEVICE,
};

#[test]
fn curated_devices_are_listed() {
    let ds = all_devices();
    assert_eq!(ds.len(), 9);
    assert_eq!(ds[0].id, "apple-iphone-17-pro-deep-blue");
    assert_eq!(ds[4].display_resolution, (1290, 2796));
    assert_eq!(DEFAULT_DEVICE, "apple-iphone-16-pro-black-titanium");
    assert!(find_device(DEFAULT_DEVICE).is_some());
    assert!(find_device(DEFAULT_ANDROID_DEVICE).is_some());
    assert!(find_device(DEFAULT_MAC_DEVICE).is_some());
}

#[test]
fn every_listed_device_is_found() {
    for id in [
        "apple-iphone-17-pro-deep-blue",
        "apple-iphone-16-pro-black-titanium",
        "apple-iphone-15-black",
        "apple-iphone-15-pro-black-titanium",
        "apple-iphone-15-pro-max-black-titanium",
        "apple-iphone14pro-spaceblack",
        "apple-iphone14-midnight",
        "samsung-galaxys21ultra-black",
        "apple-macbookair13",
    ] {
        let d = find_device(id).unwrap();
        assert_eq!(d.id, id);
    }
    let mac = find_device("apple-macbookair13").unwrap();
    assert_eq!(mac.orientation_names(), "front");
    assert_eq!(display_size(&mac, mac.find_orientation("front").unwrap()), (2560, 1664));
}

#[test]
fn find_device_by_id() {
    let d = find_device("apple-iphone14-midnight").unwrap();
    assert_eq!(d.name, "iPhone 14");
    assert_eq!(d.color, "Midnight");
    assert!(find_device("nokia-3310").is_none());
}

#[test]
fn orientations_and_template_names() {
    let d = find_device("apple-iphone-15-pro-black-titanium").unwrap();
    assert_eq!(d.template_filename("portrait"), "apple-iphone-15-pro-black-titanium-portrait.png");
    let o = d.find_orientation("landscape").unwrap();
    assert_eq!(o.name, "landscape");
    assert!(d.find_orientation("upside-down").is_none());
    assert_eq!(d.orientation_names(), "portrait, landscape");
    assert_eq!(display_size(&d, o), (2556, 1179));
    assert_eq!(display_size(&d, d.find_orientation("portrait").unwrap()), (1179, 2556));
}

#[test]
fn screen_origin_is_the_smallest_corner() {
    let d = find_device("apple-iphone14pro-spaceblack").unwrap();
    assert_eq!(screen_origin(d.find_orientation("landscape").unwrap()), (79, 79));
    assert_eq!(screen_origin(d.find_orientation("portrait").unwrap()), (78, 78));
}

#[test]
fn fitting_a_screenshot_to_the_screen() {
    // same orientation, narrower than the screen: fills the height
    let f = fit_to_screen(1000, 3000, 1179, 2556);
    assert!(!f.rotate);
    assert_eq!((f.width, f.height), (852, 2556));
    assert_eq!((f.offset_x, f.offset_y), (163, 0));
    // landscape shot on a portrait screen: turned first
    let g = fit_to_screen(2556, 1179, 1179, 2556);
    assert!(g.rotate);
    assert_eq!((g.width, g.height), (1179, 2556));
    assert_eq!((g.offset_x, g.offset_y), (0, 0));
}

#[test]
fn pixel_choice_thresholds() {
    assert!(matches!(pixel_choice(253, 0), PixelChoice::Frame));
    assert!(matches!(pixel_choice(252, 255), PixelChoice::Blend));
    assert!(matches!(pixel_choice(2, 255), PixelChoice::Screen));
    assert!(matches!(pixel_choice(3, 1), PixelChoice::Blend));
    assert!(matches!(pixel_choice(100, 0), PixelChoice::Clear));
}

#[test]
fn screen_pixel_maps_into_the_screenshot() {
    assert_eq!(screen_pixel(130, 125, 120, 120, 1179, 2556), Some((10, 5)));
    assert_eq!(screen_pixel(100, 125, 120, 120, 1179, 2556), None);
    assert_eq!(screen_pixel(120 + 1179, 125, 120, 120, 1179, 2556), None);
}
