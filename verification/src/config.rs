//! The icon sets of each platform and the plan of an icon bundle.
use vstd::prelude::*;

use crate::text::{chars_of, ends_with, ends_with_str, str_eq, string_of};

verus! {

/// A platform that icons are made for; `All` stands for every one.
#[derive(Clone, Copy, Debug, PartialEq, Eq, Structural)]
pub enum Platform {
    Iphone,
    Ipad,
    Watch,
    Mac,
    Android,
    All,
}

/// One icon file of a platform's icon set.
#[derive(Clone, Debug)]
pub struct IconEntry {
    pub size: &'static str,
    pub expected_size: u32,
    pub filename: String,
    pub folder: &'static str,
    pub idiom: &'static str,
    pub scale: &'static str,
    pub role: Option<&'static str>,
    pub subtype: Option<&'static str>,
}

/// What an `IconEntry` holds, as text.
pub struct IconSpec {
    pub size: Seq<char>,
    pub expected_size: u32,
    pub filename: Seq<char>,
    pub folder: Seq<char>,
    pub idiom: Seq<char>,
    pub scale: Seq<char>,
    pub role: Option<Seq<char>>,
    pub subtype: Option<Seq<char>>,
}

pub open spec fn opt_view(o: Option<&'static str>) -> Option<Seq<char>> {
    match o {
        Some(s) => Some(s@),
        None => None,
    }
}

impl View for IconEntry {
    type V = IconSpec;

    open spec fn view(&self) -> IconSpec {
        IconSpec {
            size: self.size@,
            expected_size: self.expected_size,
            filename: self.filename@,
            folder: self.folder@,
            idiom: self.idiom@,
            scale: self.scale@,
            role: opt_view(self.role),
            subtype: opt_view(self.subtype),
        }
    }
}

pub open spec fn icon_views(v: Seq<IconEntry>) -> Seq<IconSpec> {
    v.map_values(|e: IconEntry| e@)
}

/// Where the Xcode asset catalog keeps app icons.
pub const APPICONSET: &'static str = "Assets.xcassets/AppIcon.appiconset/";

pub open spec fn ie_spec(
    size: Seq<char>,
    expected_size: u32,
    filename: Seq<char>,
    folder: Seq<char>,
    idiom: Seq<char>,
    scale: Seq<char>,
) -> IconSpec {
    IconSpec { size, expected_size, filename, folder, idiom, scale, role: None, subtype: None }
}

pub open spec fn iew_spec(
    size: Seq<char>,
    expected_size: u32,
    filename: Seq<char>,
    idiom: Seq<char>,
    scale: Seq<char>,
    role: Seq<char>,
    subtype: Seq<char>,
) -> IconSpec {
    IconSpec {
        size,
        expected_size,
        filename,
        folder: APPICONSET@,
        idiom,
        scale,
        role: Some(role),
        subtype: Some(subtype),
    }
}

pub open spec fn ier_spec(
    size: Seq<char>,
    expected_size: u32,
    filename: Seq<char>,
    idiom: Seq<char>,
    scale: Seq<char>,
    role: Seq<char>,
) -> IconSpec {
    IconSpec {
        size,
        expected_size,
        filename,
        folder: APPICONSET@,
        idiom,
        scale,
        role: Some(role),
        subtype: None,
    }
}

fn ie(
    size: &'static str,
    expected_size: u32,
    filename: &'static str,
    folder: &'static str,
    idiom: &'static str,
    scale: &'static str,
) -> (e: IconEntry)
    ensures
        e@ == ie_spec(size@, expected_size, filename@, folder@, idiom@, scale@),
{
    IconEntry {
        size,
        expected_size,
        filename: String::from_str(filename),
        folder,
        idiom,
        scale,
        role: None,
        subtype: None,
    }
}

fn iew(
    size: &'static str,
    expected_size: u32,
    filename: &'static str,
    idiom: &'static str,
    scale: &'static str,
    role: &'static str,
    subtype: &'static str,
) -> (e: IconEntry)
    ensures
        e@ == iew_spec(size@, expected_size, filename@, idiom@, scale@, role@, subtype@),
{
    IconEntry {
        size,
        expected_size,
        filename: String::from_str(filename),
        folder: APPICONSET,
        idiom,
        scale,
        role: Some(role),
        subtype: Some(subtype),
    }
}

fn ier(
    size: &'static str,
    expected_size: u32,
    filename: &'static str,
    idiom: &'static str,
    scale: &'static str,
    role: &'static str,
) -> (e: IconEntry)
    ensures
        e@ == ier_spec(size@, expected_size, filename@, idiom@, scale@, role@),
{
    IconEntry {
        size,
        expected_size,
        filename: String::from_str(filename),
        folder: APPICONSET,
        idiom,
        scale,
        role: Some(role),
        subtype: None,
    }
}

/// The iphone icon set.
pub open spec fn spec_iphone_entries() -> Seq<IconSpec> {
    seq![
        ie_spec("60x60"@, 180, "180.png"@, APPICONSET@, "iphone"@, "3x"@),
        ie_spec("40x40"@, 80, "80.png"@, APPICONSET@, "iphone"@, "2x"@),
        ie_spec("40x40"@, 120, "120.png"@, APPICONSET@, "iphone"@, "3x"@),
        ie_spec("60x60"@, 120, "120.png"@, APPICONSET@, "iphone"@, "2x"@),
        ie_spec("57x57"@, 57, "57.png"@, APPICONSET@, "iphone"@, "1x"@),
        ie_spec("29x29"@, 58, "58.png"@, APPICONSET@, "iphone"@, "2x"@),
        ie_spec("29x29"@, 29, "29.png"@, APPICONSET@, "iphone"@, "1x"@),
        ie_spec("29x29"@, 87, "87.png"@, APPICONSET@, "iphone"@, "3x"@),
        ie_spec("57x57"@, 114, "114.png"@, APPICONSET@, "iphone"@, "2x"@),
        ie_spec("20x20"@, 40, "40.png"@, APPICONSET@, "iphone"@, "2x"@),
        ie_spec("20x20"@, 60, "60.png"@, APPICONSET@, "iphone"@, "3x"@),
        ie_spec("1024x1024"@, 1024, "1024.png"@, APPICONSET@, "ios-marketing"@, "1x"@),
    ]
}

pub fn iphone_entries() -> (r: Vec<IconEntry>)
    ensures
        icon_views(r@) == spec_iphone_entries(),
{
    let mut r: Vec<IconEntry> = Vec::new();
    r.push(ie("60x60", 180, "180.png", APPICONSET, "iphone", "3x"));
    r.push(ie("40x40", 80, "80.png", APPICONSET, "iphone", "2x"));
    r.push(ie("40x40", 120, "120.png", APPICONSET, "iphone", "3x"));
    r.push(ie("60x60", 120, "120.png", APPICONSET, "iphone", "2x"));
    r.push(ie("57x57", 57, "57.png", APPICONSET, "iphone", "1x"));
    r.push(ie("29x29", 58, "58.png", APPICONSET, "iphone", "2x"));
    r.push(ie("29x29", 29, "29.png", APPICONSET, "iphone", "1x"));
    r.push(ie("29x29", 87, "87.png", APPICONSET, "iphone", "3x"));
    r.push(ie("57x57", 114, "114.png", APPICONSET, "iphone", "2x"));
    r.push(ie("20x20", 40, "40.png", APPICONSET, "iphone", "2x"));
    r.push(ie("20x20", 60, "60.png", APPICONSET, "iphone", "3x"));
    r.push(ie("1024x1024", 1024, "1024.png", APPICONSET, "ios-marketing", "1x"));
    assert(icon_views(r@) =~= spec_iphone_entries());
    r
}

/// The ipad icon set.
pub open spec fn spec_ipad_entries() -> Seq<IconSpec> {
    seq![
        ie_spec("40x40"@, 80, "80.png"@, APPICONSET@, "ipad"@, "2x"@),
        ie_spec("72x72"@, 72, "72.png"@, APPICONSET@, "ipad"@, "1x"@),
        ie_spec("76x76"@, 152, "152.png"@, APPICONSET@, "ipad"@, "2x"@),
        ie_spec("50x50"@, 100, "100.png"@, APPICONSET@, "ipad"@, "2x"@),
        ie_spec("29x29"@, 58, "58.png"@, APPICONSET@, "ipad"@, "2x"@),
        ie_spec("76x76"@, 76, "76.png"@, APPICONSET@, "ipad"@, "1x"@),
        ie_spec("29x29"@, 29, "29.png"@, APPICONSET@, "ipad"@, "1x"@),
        ie_spec("50x50"@, 50, "50.png"@, APPICONSET@, "ipad"@, "1x"@),
        ie_spec("72x72"@, 144, "144.png"@, APPICONSET@, "ipad"@, "2x"@),
        ie_spec("40x40"@, 40, "40.png"@, APPICONSET@, "ipad"@, "1x"@),
        ie_spec("83.5x83.5"@, 167, "167.png"@, APPICONSET@, "ipad"@, "2x"@),
        ie_spec("20x20"@, 20, "20.png"@, APPICONSET@, "ipad"@, "1x"@),
        ie_spec("20x20"@, 40, "40.png"@, APPICONSET@, "ipad"@, "2x"@),
    ]
}

pub fn ipad_entries() -> (r: Vec<IconEntry>)
    ensures
        icon_views(r@) == spec_ipad_entries(),
{
    let mut r: Vec<IconEntry> = Vec::new();
    r.push(ie("40x40", 80, "80.png", APPICONSET, "ipad", "2x"));
    r.push(ie("72x72", 72, "72.png", APPICONSET, "ipad", "1x"));
    r.push(ie("76x76", 152, "152.png", APPICONSET, "ipad", "2x"));
    r.push(ie("50x50", 100, "100.png", APPICONSET, "ipad", "2x"));
    r.push(ie("29x29", 58, "58.png", APPICONSET, "ipad", "2x"));
    r.push(ie("76x76", 76, "76.png", APPICONSET, "ipad", "1x"));
    r.push(ie("29x29", 29, "29.png", APPICONSET, "ipad", "1x"));
    r.push(ie("50x50", 50, "50.png", APPICONSET, "ipad", "1x"));
    r.push(ie("72x72", 144, "144.png", APPICONSET, "ipad", "2x"));
    r.push(ie("40x40", 40, "40.png", APPICONSET, "ipad", "1x"));
    r.push(ie("83.5x83.5", 167, "167.png", APPICONSET, "ipad", "2x"));
    r.push(ie("20x20", 20, "20.png", APPICONSET, "ipad", "1x"));
    r.push(ie("20x20", 40, "40.png", APPICONSET, "ipad", "2x"));
    assert(icon_views(r@) =~= spec_ipad_entries());
    r
}

/// The watch icon set.
pub open spec fn spec_watch_entries() -> Seq<IconSpec> {
    seq![
        iew_spec("86x86"@, 172, "172.png"@, "watch"@, "2x"@, "quickLook"@, "38mm"@),
        iew_spec("40x40"@, 80, "80.png"@, "watch"@, "2x"@, "appLauncher"@, "38mm"@),
        iew_spec("44x44"@, 88, "88.png"@, "watch"@, "2x"@, "appLauncher"@, "40mm"@),
        iew_spec("51x51"@, 102, "102.png"@, "watch"@, "2x"@, "appLauncher"@, "45mm"@),
        iew_spec("54x54"@, 108, "108.png"@, "watch"@, "2x"@, "appLauncher"@, "49mm"@),
        iew_spec("46x46"@, 92, "92.png"@, "watch"@, "2x"@, "appLauncher"@, "41mm"@),
        iew_spec("50x50"@, 100, "100.png"@, "watch"@, "2x"@, "appLauncher"@, "44mm"@),
        iew_spec("98x98"@, 196, "196.png"@, "watch"@, "2x"@, "quickLook"@, "42mm"@),
        iew_spec("108x108"@, 216, "216.png"@, "watch"@, "2x"@, "quickLook"@, "44mm"@),
        iew_spec("117x117"@, 234, "234.png"@, "watch"@, "2x"@, "quickLook"@, "45mm"@),
        iew_spec("129x129"@, 258, "258.png"@, "watch"@, "2x"@, "quickLook"@, "49mm"@),
        iew_spec("24x24"@, 48, "48.png"@, "watch"@, "2x"@, "notificationCenter"@, "38mm"@),
        iew_spec("27.5x27.5"@, 55, "55.png"@, "watch"@, "2x"@, "notificationCenter"@, "42mm"@),
        iew_spec("33x33"@, 66, "66.png"@, "watch"@, "2x"@, "notificationCenter"@, "45mm"@),
        ier_spec("29x29"@, 87, "87.png"@, "watch"@, "3x"@, "companionSettings"@),
        ier_spec("29x29"@, 58, "58.png"@, "watch"@, "2x"@, "companionSettings"@),
        ie_spec("1024x1024"@, 1024, "1024.png"@, APPICONSET@, "watch-marketing"@, "1x"@),
    ]
}

pub fn watch_entries() -> (r: Vec<IconEntry>)
    ensures
        icon_views(r@) == spec_watch_entries(),
{
    let mut r: Vec<IconEntry> = Vec::new();
    r.push(iew("86x86", 172, "172.png", "watch", "2x", "quickLook", "38mm"));
    r.push(iew("40x40", 80, "80.png", "watch", "2x", "appLauncher", "38mm"));
    r.push(iew("44x44", 88, "88.png", "watch", "2x", "appLauncher", "40mm"));
    r.push(iew("51x51", 102, "102.png", "watch", "2x", "appLauncher", "45mm"));
    r.push(iew("54x54", 108, "108.png", "watch", "2x", "appLauncher", "49mm"));
    r.push(iew("46x46", 92, "92.png", "watch", "2x", "appLauncher", "41mm"));
    r.push(iew("50x50", 100, "100.png", "watch", "2x", "appLauncher", "44mm"));
    r.push(iew("98x98", 196, "196.png", "watch", "2x", "quickLook", "42mm"));
    r.push(iew("108x108", 216, "216.png", "watch", "2x", "quickLook", "44mm"));
    r.push(iew("117x117", 234, "234.png", "watch", "2x", "quickLook", "45mm"));
    r.push(iew("129x129", 258, "258.png", "watch", "2x", "quickLook", "49mm"));
    r.push(iew("24x24", 48, "48.png", "watch", "2x", "notificationCenter", "38mm"));
    r.push(iew("27.5x27.5", 55, "55.png", "watch", "2x", "notificationCenter", "42mm"));
    r.push(iew("33x33", 66, "66.png", "watch", "2x", "notificationCenter", "45mm"));
    r.push(ier("29x29", 87, "87.png", "watch", "3x", "companionSettings"));
    r.push(ier("29x29", 58, "58.png", "watch", "2x", "companionSettings"));
    r.push(ie("1024x1024", 1024, "1024.png", APPICONSET, "watch-marketing", "1x"));
    assert(icon_views(r@) =~= spec_watch_entries());
    r
}

/// The mac icon set.
pub open spec fn spec_mac_entries() -> Seq<IconSpec> {
    seq![
        ie_spec("128x128"@, 128, "128.png"@, APPICONSET@, "mac"@, "1x"@),
        ie_spec("256x256"@, 256, "256.png"@, APPICONSET@, "mac"@, "1x"@),
        ie_spec("128x128"@, 256, "256.png"@, APPICONSET@, "mac"@, "2x"@),
        ie_spec("256x256"@, 512, "512.png"@, APPICONSET@, "mac"@, "2x"@),
        ie_spec("32x32"@, 32, "32.png"@, APPICONSET@, "mac"@, "1x"@),
        ie_spec("512x512"@, 512, "512.png"@, APPICONSET@, "mac"@, "1x"@),
        ie_spec("16x16"@, 16, "16.png"@, APPICONSET@, "mac"@, "1x"@),
        ie_spec("16x16"@, 32, "32.png"@, APPICONSET@, "mac"@, "2x"@),
        ie_spec("32x32"@, 64, "64.png"@, APPICONSET@, "mac"@, "2x"@),
        ie_spec("512x512"@, 1024, "1024.png"@, APPICONSET@, "mac"@, "2x"@),
    ]
}

pub fn mac_entries() -> (r: Vec<IconEntry>)
    ensures
        icon_views(r@) == spec_mac_entries(),
{
    let mut r: Vec<IconEntry> = Vec::new();
    r.push(ie("128x128", 128, "128.png", APPICONSET, "mac", "1x"));
    r.push(ie("256x256", 256, "256.png", APPICONSET, "mac", "1x"));
    r.push(ie("128x128", 256, "256.png", APPICONSET, "mac", "2x"));
    r.push(ie("256x256", 512, "512.png", APPICONSET, "mac", "2x"));
    r.push(ie("32x32", 32, "32.png", APPICONSET, "mac", "1x"));
    r.push(ie("512x512", 512, "512.png", APPICONSET, "mac", "1x"));
    r.push(ie("16x16", 16, "16.png", APPICONSET, "mac", "1x"));
    r.push(ie("16x16", 32, "32.png", APPICONSET, "mac", "2x"));
    r.push(ie("32x32", 64, "64.png", APPICONSET, "mac", "2x"));
    r.push(ie("512x512", 1024, "1024.png", APPICONSET, "mac", "2x"));
    assert(icon_views(r@) =~= spec_mac_entries());
    r
}

// ---------------------------------------------------------------------------
// Android and store icons
// ---------------------------------------------------------------------------

/// The file name Android icons get: the default for an empty name, the
/// name itself when it ends in `.png`, else the name with `.png` added.
pub open spec fn android_file_name(f: Seq<char>) -> Seq<char> {
    if f.len() == 0 {
        "ic_launcher.png"@
    } else if ends_with(f, ".png"@) {
        f
    } else {
        f + ".png"@
    }
}

pub open spec fn android_spec(size: Seq<char>, expected_size: u32, folder: Seq<char>, filename: Seq<char>) -> IconSpec {
    IconSpec {
        size,
        expected_size,
        filename,
        folder,
        idiom: "android"@,
        scale: "1x"@,
        role: None,
        subtype: None,
    }
}

pub open spec fn spec_android_entries(f: Seq<char>) -> Seq<IconSpec> {
    let n = android_file_name(f);
    seq![
        android_spec("48x48"@, 48, "android/mipmap-mdpi/"@, n),
        android_spec("72x72"@, 72, "android/mipmap-hdpi/"@, n),
        android_spec("96x96"@, 96, "android/mipmap-xhdpi/"@, n),
        android_spec("144x144"@, 144, "android/mipmap-xxhdpi/"@, n),
        android_spec("192x192"@, 192, "android/mipmap-xxxhdpi/"@, n),
    ]
}

/// The size names and folders of the Android densities.
pub open spec fn android_density(size: u32, density: Seq<char>) -> bool {
    ||| size == 48 && density == "mipmap-mdpi"@
    ||| size == 72 && density == "mipmap-hdpi"@
    ||| size == 96 && density == "mipmap-xhdpi"@
    ||| size == 144 && density == "mipmap-xxhdpi"@
    ||| size == 192 && density == "mipmap-xxxhdpi"@
}

fn android_entry(size: u32, density: &'static str, filename: &str) -> (e: IconEntry)
    requires
        android_density(size, density@),
    ensures
        size == 48 ==> e@ == android_spec("48x48"@, 48, "android/mipmap-mdpi/"@, filename@),
        size == 72 ==> e@ == android_spec("72x72"@, 72, "android/mipmap-hdpi/"@, filename@),
        size == 96 ==> e@ == android_spec("96x96"@, 96, "android/mipmap-xhdpi/"@, filename@),
        size == 144 ==> e@ == android_spec("144x144"@, 144, "android/mipmap-xxhdpi/"@, filename@),
        size == 192 ==> e@ == android_spec("192x192"@, 192, "android/mipmap-xxxhdpi/"@, filename@),
{
    let size_text: &'static str = if size == 48 {
        "48x48"
    } else if size == 72 {
        "72x72"
    } else if size == 96 {
        "96x96"
    } else if size == 144 {
        "144x144"
    } else {
        "192x192"
    };
    // the density goes with the size
    let folder: &'static str = if size == 48 {
        "android/mipmap-mdpi/"
    } else if size == 72 {
        "android/mipmap-hdpi/"
    } else if size == 96 {
        "android/mipmap-xhdpi/"
    } else if size == 144 {
        "android/mipmap-xxhdpi/"
    } else {
        "android/mipmap-xxxhdpi/"
    };
    IconEntry {
        size: size_text,
        expected_size: size,
        filename: String::from_str(filename),
        folder,
        idiom: "android",
        scale: "1x",
        role: None,
        subtype: None,
    }
}

pub fn android_entries(filename: &str) -> (r: Vec<IconEntry>)
    ensures
        icon_views(r@) == spec_android_entries(filename@),
{
    let name: String = if filename.is_empty() {
        String::from_str("ic_launcher.png")
    } else if ends_with_str(filename, ".png") {
        String::from_str(filename)
    } else {
        String::from_str(filename).concat(".png")
    };
    assert(filename.is_empty() == (filename@.len() == 0));
    assert(name@ == android_file_name(filename@));
    let f = name.as_str();
    let mut r: Vec<IconEntry> = Vec::new();
    r.push(android_entry(48, "mipmap-mdpi", f));
    r.push(android_entry(72, "mipmap-hdpi", f));
    r.push(android_entry(96, "mipmap-xhdpi", f));
    r.push(android_entry(144, "mipmap-xxhdpi", f));
    r.push(android_entry(192, "mipmap-xxxhdpi", f));
    assert(icon_views(r@) =~= spec_android_entries(filename@));
    r
}

/// The App Store and Play Store icons.
pub open spec fn spec_store_entries() -> Seq<IconSpec> {
    seq![
        IconSpec {
            size: "1024x1024"@,
            expected_size: 1024,
            filename: "appstore.png"@,
            folder: ""@,
            idiom: "ios-marketing"@,
            scale: "1x"@,
            role: None,
            subtype: None,
        },
        IconSpec {
            size: "512x512"@,
            expected_size: 512,
            filename: "playstore.png"@,
            folder: ""@,
            idiom: "other"@,
            scale: "1x"@,
            role: None,
            subtype: None,
        },
    ]
}

pub fn store_entries() -> (r: Vec<IconEntry>)
    ensures
        icon_views(r@) == spec_store_entries(),
{
    let mut r: Vec<IconEntry> = Vec::new();
    r.push(
        IconEntry {
            size: "1024x1024",
            expected_size: 1024,
            filename: String::from_str("appstore.png"),
            folder: "",
            idiom: "ios-marketing",
            scale: "1x",
            role: None,
            subtype: None,
        },
    );
    r.push(
        IconEntry {
            size: "512x512",
            expected_size: 512,
            filename: String::from_str("playstore.png"),
            folder: "",
            idiom: "other",
            scale: "1x",
            role: None,
            subtype: None,
        },
    );
    assert(icon_views(r@) =~= spec_store_entries());
    r
}

// ---------------------------------------------------------------------------
// Platform rules
// ---------------------------------------------------------------------------

/// Android icons keep their transparency; Apple icons get a white
/// background.
pub fn preserves_alpha(platform: Platform) -> (b: bool)
    ensures
        b == (platform == Platform::Android),
{
    platform == Platform::Android
}

/// Of the store icons only the Play Store one keeps its transparency.
pub fn store_preserves_alpha(filename: &str) -> (b: bool)
    ensures
        b == (filename@ == "playstore.png"@),
{
    str_eq(filename, "playstore.png")
}

pub open spec fn spec_is_apple(platform: Platform) -> bool {
    platform == Platform::Iphone || platform == Platform::Ipad || platform == Platform::Watch
        || platform == Platform::Mac
}

pub fn is_apple_platform(platform: Platform) -> (b: bool)
    ensures
        b == spec_is_apple(platform),
{
    platform == Platform::Iphone || platform == Platform::Ipad || platform == Platform::Watch
        || platform == Platform::Mac
}

/// The icon set of one platform (`All` has none of its own).
pub open spec fn spec_entries(platform: Platform, android_filename: Seq<char>) -> Seq<IconSpec> {
    match platform {
        Platform::Iphone => spec_iphone_entries(),
        Platform::Ipad => spec_ipad_entries(),
        Platform::Watch => spec_watch_entries(),
        Platform::Mac => spec_mac_entries(),
        Platform::Android => spec_android_entries(android_filename),
        Platform::All => Seq::<IconSpec>::empty(),
    }
}

pub fn get_entries(platform: Platform, android_filename: &str) -> (r: Vec<IconEntry>)
    requires
        platform != Platform::All,
    ensures
        icon_views(r@) == spec_entries(platform, android_filename@),
{
    match platform {
        Platform::Iphone => iphone_entries(),
        Platform::Ipad => ipad_entries(),
        Platform::Watch => watch_entries(),
        Platform::Mac => mac_entries(),
        Platform::Android => android_entries(android_filename),
        Platform::All => Vec::new(),
    }
}

// ---------------------------------------------------------------------------
// Expanding the platform list
// ---------------------------------------------------------------------------

pub open spec fn every_platform() -> Seq<Platform> {
    seq![Platform::Iphone, Platform::Ipad, Platform::Watch, Platform::Mac, Platform::Android]
}

/// `s` without repeats, each kept where it first occurs.
pub open spec fn first_occurrences<T>(s: Seq<T>) -> Seq<T>
    decreases s.len(),
{
    if s.len() == 0 {
        s
    } else {
        let r = first_occurrences(s.drop_last());
        if r.contains(s.last()) {
            r
        } else {
            r.push(s.last())
        }
    }
}

/// Every platform when the list is empty or holds `All`; else the list
/// without repeats.
pub open spec fn spec_expand_platforms(platforms: Seq<Platform>) -> Seq<Platform> {
    if platforms.contains(Platform::All) || platforms.len() == 0 {
        every_platform()
    } else {
        first_occurrences(platforms)
    }
}

pub fn expand_platforms(platforms: &[Platform]) -> (r: Vec<Platform>)
    ensures
        r@ == spec_expand_platforms(platforms@),
{
    let n = platforms.len();
    let mut has_all = false;
    let mut i: usize = 0;
    while i < n
        invariant
            n == platforms@.len(),
            i <= n,
            has_all == (exists|j: int| 0 <= j < i && platforms@[j] == Platform::All),
        decreases n - i,
    {
        if platforms[i] == Platform::All {
            has_all = true;
        }
        i = i + 1;
    }
    if has_all || n == 0 {
        proof {
            if has_all {
                let j = choose|j: int| 0 <= j < n && platforms@[j] == Platform::All;
                assert(platforms@.contains(Platform::All));
            }
        }
        let mut r: Vec<Platform> = Vec::new();
        r.push(Platform::Iphone);
        r.push(Platform::Ipad);
        r.push(Platform::Watch);
        r.push(Platform::Mac);
        r.push(Platform::Android);
        assert(r@ =~= every_platform());
        return r;
    }
    assert(!platforms@.contains(Platform::All));
    let mut result: Vec<Platform> = Vec::new();
    let mut k: usize = 0;
    assert(platforms@.take(0) =~= Seq::<Platform>::empty());
    while k < n
        invariant
            n == platforms@.len(),
            k <= n,
            result@ == first_occurrences(platforms@.take(k as int)),
        decreases n - k,
    {
        assert(platforms@.take(k + 1).drop_last() =~= platforms@.take(k as int));
        assert(platforms@.take(k + 1).last() == platforms@[k as int]);
        let p = platforms[k];
        let mut seen = false;
        let mut j: usize = 0;
        while j < result.len()
            invariant
                j <= result@.len(),
                seen == (exists|t: int| 0 <= t < j && result@[t] == p),
            decreases result@.len() - j,
        {
            if result[j] == p {
                seen = true;
            }
            j = j + 1;
        }
        proof {
            if seen {
                let t = choose|t: int| 0 <= t < result@.len() && result@[t] == p;
                assert(result@.contains(p));
            } else {
                assert(!result@.contains(p));
            }
        }
        if !seen {
            result.push(p);
        }
        k = k + 1;
    }
    assert(platforms@.take(n as int) =~= platforms@);
    result
}

proof fn lemma_first_occurrences<T>(s: Seq<T>)
    ensures
        first_occurrences(s).no_duplicates(),
        forall|x: T| #[trigger] first_occurrences(s).contains(x) <==> s.contains(x),
        s.no_duplicates() ==> first_occurrences(s) == s,
    decreases s.len(),
{
    if s.len() > 0 {
        let t = s.drop_last();
        lemma_first_occurrences(t);
        let r = first_occurrences(t);
        assert forall|x: T| #[trigger] first_occurrences(s).contains(x) <==> s.contains(x) by {
            if s.contains(x) {
                let k = choose|k: int| 0 <= k < s.len() && s[k] == x;
                if k < s.len() - 1 {
                    assert(t[k] == x);
                    assert(t.contains(x));
                    assert(r.contains(x));
                    if !r.contains(s.last()) {
                        let m = choose|m: int| 0 <= m < r.len() && r[m] == x;
                        assert(r.push(s.last())[m] == x);
                    }
                } else {
                    if !r.contains(s.last()) {
                        assert(r.push(s.last())[r.len() as int] == x);
                    }
                }
            }
            if first_occurrences(s).contains(x) {
                let k = choose|k: int|
                    0 <= k < first_occurrences(s).len() && first_occurrences(s)[k] == x;
                if k < r.len() {
                    assert(r[k] == x);
                    assert(r.contains(x));
                    assert(t.contains(x));
                    let m = choose|m: int| 0 <= m < t.len() && t[m] == x;
                    assert(s[m] == x);
                } else {
                    assert(s[s.len() - 1] == x);
                }
            }
        }
        if s.no_duplicates() {
            assert(t.no_duplicates());
            assert(!t.contains(s.last())) by {
                if t.contains(s.last()) {
                    let m = choose|m: int| 0 <= m < t.len() && t[m] == s.last();
                    assert(s[m] == s[s.len() - 1]);
                }
            }
            assert(s == t.push(s.last()));
        }
    }
}

/// `All`, or no platform at all, stands for every platform; otherwise
/// exactly the listed platforms are expanded to.
pub proof fn lemma_expand_platforms_exact(platforms: Seq<Platform>)
    ensures
        platforms.contains(Platform::All) || platforms.len() == 0 ==> spec_expand_platforms(
            platforms,
        ).len() == 5 && forall|p: Platform|
            p != Platform::All ==> #[trigger] spec_expand_platforms(platforms).contains(p),
        !platforms.contains(Platform::All) && platforms.len() > 0 ==> forall|p: Platform|
            #[trigger] spec_expand_platforms(platforms).contains(p) <==> platforms.contains(p),
{
    lemma_first_occurrences(platforms);
    if platforms.contains(Platform::All) || platforms.len() == 0 {
        let five = every_platform();
        assert forall|p: Platform| p != Platform::All implies #[trigger] five.contains(p) by {
            match p {
                Platform::Iphone => assert(five[0] == p),
                Platform::Ipad => assert(five[1] == p),
                Platform::Watch => assert(five[2] == p),
                Platform::Mac => assert(five[3] == p),
                Platform::Android => assert(five[4] == p),
                Platform::All => {},
            }
        }
    }
}

/// The expanded platform list never holds `All` or a repeat, every listed
/// platform other than `All` is in it, and expanding it again changes
/// nothing.
pub proof fn lemma_expand_platforms(platforms: Seq<Platform>)
    ensures
        !spec_expand_platforms(platforms).contains(Platform::All),
        spec_expand_platforms(platforms).no_duplicates(),
        spec_expand_platforms(platforms).len() > 0,
        forall|p: Platform|
            #[trigger] platforms.contains(p) && p != Platform::All ==> spec_expand_platforms(
                platforms,
            ).contains(p),
        spec_expand_platforms(spec_expand_platforms(platforms)) == spec_expand_platforms(
            platforms,
        ),
{
    let e = spec_expand_platforms(platforms);
    let five = every_platform();
    assert(five.no_duplicates());
    assert(!five.contains(Platform::All)) by {
        if five.contains(Platform::All) {
            let k = choose|k: int| 0 <= k < five.len() && five[k] == Platform::All;
        }
    }
    assert forall|p: Platform| p != Platform::All implies #[trigger] five.contains(p) by {
        match p {
            Platform::Iphone => assert(five[0] == p),
            Platform::Ipad => assert(five[1] == p),
            Platform::Watch => assert(five[2] == p),
            Platform::Mac => assert(five[3] == p),
            Platform::Android => assert(five[4] == p),
            Platform::All => {},
        }
    }
    lemma_first_occurrences(platforms);
    lemma_first_occurrences(five);
    if !(platforms.contains(Platform::All) || platforms.len() == 0) {
        lemma_first_occurrences(e);
        assert(platforms.contains(platforms[0]));
        assert(e.contains(platforms[0]));
    }
}

// ---------------------------------------------------------------------------
// The asset catalog and the icon bundle
// ---------------------------------------------------------------------------

/// The entries of `Contents.json`: the icon sets of the Apple platforms
/// among `platforms`, in order.
pub open spec fn spec_contents_entries(platforms: Seq<Platform>, android_filename: Seq<char>) -> Seq<
    IconSpec,
>
    decreases platforms.len(),
{
    if platforms.len() == 0 {
        Seq::<IconSpec>::empty()
    } else {
        let r = spec_contents_entries(platforms.drop_last(), android_filename);
        if spec_is_apple(platforms.last()) {
            r + spec_entries(platforms.last(), android_filename)
        } else {
            r
        }
    }
}

fn append_entries(out: &mut Vec<IconEntry>, es: Vec<IconEntry>)
    ensures
        icon_views(final(out)@) == icon_views(old(out)@) + icon_views(es@),
{
    let ghost added = es@;
    let mut moved = es;
    out.append(&mut moved);
    assert(icon_views(final(out)@) =~= icon_views(old(out)@) + icon_views(added));
}

pub fn contents_entries(platforms: &[Platform], android_filename: &str) -> (r: Vec<IconEntry>)
    ensures
        icon_views(r@) == spec_contents_entries(platforms@, android_filename@),
{
    let mut r: Vec<IconEntry> = Vec::new();
    let n = platforms.len();
    let mut i: usize = 0;
    assert(platforms@.take(0) =~= Seq::<Platform>::empty());
    while i < n
        invariant
            n == platforms@.len(),
            i <= n,
            icon_views(r@) == spec_contents_entries(platforms@.take(i as int), android_filename@),
        decreases n - i,
    {
        assert(platforms@.take(i + 1).drop_last() =~= platforms@.take(i as int));
        assert(platforms@.take(i + 1).last() == platforms@[i as int]);
        let p = platforms[i];
        if is_apple_platform(p) {
            let es = get_entries(p, android_filename);
            append_entries(&mut r, es);
        }
        i = i + 1;
    }
    assert(platforms@.take(n as int) =~= platforms@);
    r
}

/// One file of the icon bundle: where it goes, the square size it is
/// resized to, and whether transparency is filled with white.
pub struct IconFile {
    pub path: String,
    pub size: u32,
    pub fill_white: bool,
}

pub struct IconFileSpec {
    pub path: Seq<char>,
    pub size: u32,
    pub fill_white: bool,
}

impl View for IconFile {
    type V = IconFileSpec;

    open spec fn view(&self) -> IconFileSpec {
        IconFileSpec { path: self.path@, size: self.size, fill_white: self.fill_white }
    }
}

pub open spec fn file_views(v: Seq<IconFile>) -> Seq<IconFileSpec> {
    v.map_values(|f: IconFile| f@)
}

pub open spec fn entry_file(e: IconSpec, fill_white: bool) -> IconFileSpec {
    IconFileSpec { path: e.folder + e.filename, size: e.expected_size, fill_white }
}

pub open spec fn entry_files(es: Seq<IconSpec>, fill_white: bool) -> Seq<IconFileSpec> {
    es.map_values(|e: IconSpec| entry_file(e, fill_white))
}

/// The icon files of `platforms`, each in its platform's folder, in order.
pub open spec fn platform_files(platforms: Seq<Platform>, android_filename: Seq<char>) -> Seq<
    IconFileSpec,
>
    decreases platforms.len(),
{
    if platforms.len() == 0 {
        Seq::<IconFileSpec>::empty()
    } else {
        let p = platforms.last();
        platform_files(platforms.drop_last(), android_filename) + entry_files(
            spec_entries(p, android_filename),
            p != Platform::Android,
        )
    }
}

/// The store icons sit at the top of the bundle under their own names.
pub open spec fn store_files() -> Seq<IconFileSpec> {
    spec_store_entries().map_values(
        |e: IconSpec|
            IconFileSpec {
                path: e.filename,
                size: e.expected_size,
                fill_white: e.filename != "playstore.png"@,
            },
    )
}

/// Every file of an icon bundle.
pub open spec fn spec_icon_files(
    platforms: Seq<Platform>,
    android_filename: Seq<char>,
    no_stores: bool,
) -> Seq<IconFileSpec> {
    platform_files(platforms, android_filename) + if no_stores {
        Seq::<IconFileSpec>::empty()
    } else {
        store_files()
    }
}

pub open spec fn file_key(f: IconFileSpec) -> (u32, bool) {
    (f.size, f.fill_white)
}

pub open spec fn file_keys(fs: Seq<IconFileSpec>) -> Seq<(u32, bool)> {
    fs.map_values(|f: IconFileSpec| file_key(f))
}

pub open spec fn no_all(platforms: Seq<Platform>) -> bool {
    forall|i: int| 0 <= i < platforms.len() ==> platforms[i] != Platform::All
}

fn push_entry_files(out: &mut Vec<IconFile>, es: &Vec<IconEntry>, fill_white: bool, in_folder: bool)
    ensures
        in_folder ==> file_views(final(out)@) == file_views(old(out)@) + entry_files(
            icon_views(es@),
            fill_white,
        ),
        !in_folder ==> file_views(final(out)@) == file_views(old(out)@) + icon_views(
            es@,
        ).map_values(
            |e: IconSpec|
                IconFileSpec { path: e.filename, size: e.expected_size, fill_white: fill_white },
        ),
{
    let n = es.len();
    let ghost start = file_views(out@);
    let mut i: usize = 0;
    while i < n
        invariant
            n == es@.len(),
            i <= n,
            in_folder ==> file_views(out@) == start + entry_files(
                icon_views(es@.take(i as int)),
                fill_white,
            ),
            !in_folder ==> file_views(out@) == start + icon_views(es@.take(i as int)).map_values(
                |e: IconSpec|
                    IconFileSpec { path: e.filename, size: e.expected_size, fill_white: fill_white },
            ),
        decreases n - i,
    {
        let e = &es[i];
        let path = if in_folder {
            String::from_str(e.folder).concat(e.filename.as_str())
        } else {
            e.filename.clone()
        };
        let f = IconFile { path, size: e.expected_size, fill_white };
        let ghost before = file_views(out@);
        out.push(f);
        assert(file_views(out@) =~= before.push(f@));
        assert(icon_views(es@.take(i + 1)) =~= icon_views(es@.take(i as int)).push(es@[i as int]@));
        proof {
            if in_folder {
                assert(entry_files(icon_views(es@.take(i + 1)), fill_white) =~= entry_files(
                    icon_views(es@.take(i as int)),
                    fill_white,
                ).push(entry_file(es@[i as int]@, fill_white)));
                assert(file_views(out@) =~= start + entry_files(
                    icon_views(es@.take(i + 1)),
                    fill_white,
                ));
            } else {
                assert(file_views(out@) =~= start + icon_views(es@.take(i + 1)).map_values(
                    |e: IconSpec|
                        IconFileSpec {
                            path: e.filename,
                            size: e.expected_size,
                            fill_white: fill_white,
                        },
                ));
            }
        }
        i = i + 1;
    }
    assert(es@.take(n as int) =~= es@);
}

/// The files of the icon bundle: every platform's icons, then, unless
/// `no_stores`, the store icons.
pub fn icon_files(platforms: &[Platform], android_filename: &str, no_stores: bool) -> (r: Vec<
    IconFile,
>)
    requires
        no_all(platforms@),
    ensures
        file_views(r@) == spec_icon_files(platforms@, android_filename@, no_stores),
{
    let mut r: Vec<IconFile> = Vec::new();
    let n = platforms.len();
    let mut i: usize = 0;
    assert(platforms@.take(0) =~= Seq::<Platform>::empty());
    while i < n
        invariant
            n == platforms@.len(),
            no_all(platforms@),
            i <= n,
            file_views(r@) == platform_files(platforms@.take(i as int), android_filename@),
        decreases n - i,
    {
        assert(platforms@.take(i + 1).drop_last() =~= platforms@.take(i as int));
        assert(platforms@.take(i + 1).last() == platforms@[i as int]);
        let p = platforms[i];
        let fill_white = !preserves_alpha(p);
        let es = get_entries(p, android_filename);
        push_entry_files(&mut r, &es, fill_white, true);
        i = i + 1;
    }
    assert(platforms@.take(n as int) =~= platforms@);
    if !no_stores {
        let stores = store_entries();
        let ghost before = file_views(r@);
        assert(icon_views(stores@).len() == 2);
        assert(stores@.len() == 2);
        assert(stores@[0]@ == spec_store_entries()[0]);
        assert(stores@[1]@ == spec_store_entries()[1]);
        let app = &stores[0];
        let play = &stores[1];
        let f0 = IconFile {
            path: app.filename.clone(),
            size: app.expected_size,
            fill_white: !store_preserves_alpha(app.filename.as_str()),
        };
        let f1 = IconFile {
            path: play.filename.clone(),
            size: play.expected_size,
            fill_white: !store_preserves_alpha(play.filename.as_str()),
        };
        r.push(f0);
        r.push(f1);
        assert(file_views(r@) =~= before + store_files());
    }
    assert(file_views(r@) =~= spec_icon_files(platforms@, android_filename@, no_stores));
    r
}

/// The distinct (size, fill) resizes that `files` need, in first-use order.
pub fn size_requests(files: &Vec<IconFile>) -> (r: Vec<(u32, bool)>)
    ensures
        r@ == first_occurrences(file_keys(file_views(files@))),
{
    let mut r: Vec<(u32, bool)> = Vec::new();
    let n = files.len();
    let mut k: usize = 0;
    let ghost keys = file_keys(file_views(files@));
    assert(keys.take(0) =~= Seq::<(u32, bool)>::empty());
    while k < n
        invariant
            n == files@.len(),
            keys == file_keys(file_views(files@)),
            k <= n,
            r@ == first_occurrences(keys.take(k as int)),
        decreases n - k,
    {
        assert(keys.take(k + 1).drop_last() =~= keys.take(k as int));
        assert(keys.take(k + 1).last() == keys[k as int]);
        let key = (files[k].size, files[k].fill_white);
        assert(key == keys[k as int]);
        let mut seen = false;
        let mut j: usize = 0;
        while j < r.len()
            invariant
                j <= r@.len(),
                seen == (exists|t: int| 0 <= t < j && r@[t] == key),
            decreases r@.len() - j,
        {
            if r[j].0 == key.0 && r[j].1 == key.1 {
                seen = true;
                assert(r@[j as int] == key);
            }
            j = j + 1;
        }
        proof {
            if seen {
                let t = choose|t: int| 0 <= t < r@.len() && r@[t] == key;
                assert(r@.contains(key));
            } else {
                assert(!r@.contains(key));
            }
        }
        if !seen {
            r.push(key);
        }
        k = k + 1;
    }
    assert(keys.take(n as int) =~= keys);
    r
}

/// Whether the bundle needs an asset catalog.
pub fn has_apple_platform(platforms: &[Platform]) -> (b: bool)
    ensures
        b == (exists|i: int| 0 <= i < platforms@.len() && spec_is_apple(platforms@[i])),
{
    let n = platforms.len();
    let mut i: usize = 0;
    while i < n
        invariant
            n == platforms@.len(),
            i <= n,
            forall|j: int| 0 <= j < i ==> !spec_is_apple(platforms@[j]),
        decreases n - i,
    {
        if is_apple_platform(platforms[i]) {
            return true;
        }
        i = i + 1;
    }
    false
}

/// Every file of the bundle has its resize among the requested ones, and no
/// resize is requested twice.
pub proof fn lemma_icon_requests(files: Seq<IconFileSpec>)
    ensures
        first_occurrences(file_keys(files)).no_duplicates(),
        forall|i: int|
            0 <= i < files.len() ==> first_occurrences(file_keys(files)).contains(
                file_key(#[trigger] files[i]),
            ),
{
    lemma_first_occurrences(file_keys(files));
    assert forall|i: int| 0 <= i < files.len() implies first_occurrences(
        file_keys(files),
    ).contains(file_key(#[trigger] files[i])) by {
        assert(file_keys(files)[i] == file_key(files[i]));
        assert(file_keys(files).contains(file_key(files[i])));
    }
}

/// On every platform the list expands to, icons keep their transparency
/// exactly when the platform is not an Apple one (Android); of the store
/// icons only the Play Store one keeps it.
pub proof fn lemma_alpha_rule(platforms: Seq<Platform>)
    ensures
        forall|i: int|
            0 <= i < spec_expand_platforms(platforms).len() ==> ((#[trigger] spec_expand_platforms(
                platforms,
            )[i] == Platform::Android) <==> !spec_is_apple(spec_expand_platforms(platforms)[i])),
        store_files()[0].fill_white && !store_files()[1].fill_white,
{
    lemma_expand_platforms(platforms);
    let e = spec_expand_platforms(platforms);
    assert forall|i: int| 0 <= i < e.len() implies ((#[trigger] e[i] == Platform::Android)
        <==> !spec_is_apple(e[i])) by {
        assert(e.contains(e[i]));
    }
    reveal_strlit("appstore.png");
    reveal_strlit("playstore.png");
    assert("appstore.png"@.len() != "playstore.png"@.len());
}

} // verus!
