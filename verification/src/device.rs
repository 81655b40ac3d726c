//! The device frames that screenshots and videos are put into, and the
//! geometry of placing a screenshot on a frame's screen.
use vstd::prelude::*;

use crate::text::{join, join_strings, push_str, str_eq, views};

verus! {

/// How a device is held, and where its screen lies in the frame image.
pub struct OrientationConfig {
    pub name: &'static str,
    /// Screen coordinates: [top-left, top-right, bottom-right, bottom-left]
    pub screen_coord: [(u32, u32); 4],
}

/// A device whose frame can hold a screenshot.
pub struct DeviceConfig {
    pub id: &'static str,
    pub name: &'static str,
    pub color: &'static str,
    pub display_resolution: (u32, u32),
    pub is_mockup_image_at_front: bool,
    pub orientations: Vec<OrientationConfig>,
}

pub struct OrientationSpec {
    pub name: Seq<char>,
    pub screen_coord: Seq<(u32, u32)>,
}

pub struct DeviceSpec {
    pub id: Seq<char>,
    pub name: Seq<char>,
    pub color: Seq<char>,
    pub display_resolution: (u32, u32),
    pub is_mockup_image_at_front: bool,
    pub orientations: Seq<OrientationSpec>,
}

impl View for OrientationConfig {
    type V = OrientationSpec;

    open spec fn view(&self) -> OrientationSpec {
        OrientationSpec { name: self.name@, screen_coord: self.screen_coord@ }
    }
}

pub open spec fn orientation_views(v: Seq<OrientationConfig>) -> Seq<OrientationSpec> {
    v.map_values(|o: OrientationConfig| o@)
}

impl View for DeviceConfig {
    type V = DeviceSpec;

    open spec fn view(&self) -> DeviceSpec {
        DeviceSpec {
            id: self.id@,
            name: self.name@,
            color: self.color@,
            display_resolution: self.display_resolution,
            is_mockup_image_at_front: self.is_mockup_image_at_front,
            orientations: orientation_views(self.orientations@),
        }
    }
}

pub open spec fn device_views(v: Seq<DeviceConfig>) -> Seq<DeviceSpec> {
    v.map_values(|d: DeviceConfig| d@)
}

/// The device used when none is named.
pub const DEFAULT_DEVICE: &'static str = "apple-iphone-16-pro-black-titanium";

/// The device used for Android captures when none is named.
pub const DEFAULT_ANDROID_DEVICE: &'static str = "samsung-galaxys21ultra-black";

/// The device used for windows of Mac apps when none is named.
pub const DEFAULT_MAC_DEVICE: &'static str = "apple-macbookair13";

pub open spec fn orientation_spec(name: Seq<char>, screen_coord: Seq<(u32, u32)>) -> OrientationSpec {
    OrientationSpec { name, screen_coord }
}

fn orientation(name: &'static str, screen_coord: [(u32, u32); 4]) -> (o: OrientationConfig)
    ensures
        o@ == orientation_spec(name@, screen_coord@),
{
    OrientationConfig { name, screen_coord }
}

/// The curated devices.
pub open spec fn spec_all_devices() -> Seq<DeviceSpec> {
    seq![
        DeviceSpec {
            id: "apple-iphone-17-pro-deep-blue"@,
            name: "iPhone 17 Pro"@,
            color: "Deep Blue"@,
            display_resolution: (1206, 2622),
            is_mockup_image_at_front: true,
            orientations: seq![orientation_spec("portrait"@, seq![(120, 120), (1326, 120), (1326, 2742), (120, 2742)]), orientation_spec("landscape"@, seq![(2742, 120), (2742, 1326), (120, 1326), (120, 120)])],
        },
        DeviceSpec {
            id: "apple-iphone-16-pro-black-titanium"@,
            name: "iPhone 16 Pro"@,
            color: "Black Titanium"@,
            display_resolution: (1206, 2622),
            is_mockup_image_at_front: true,
            orientations: seq![orientation_spec("portrait"@, seq![(120, 120), (1326, 120), (1326, 2742), (120, 2742)]), orientation_spec("landscape"@, seq![(2742, 120), (2742, 1326), (120, 1326), (120, 120)])],
        },
        DeviceSpec {
            id: "apple-iphone-15-black"@,
            name: "iPhone 15"@,
            color: "Black"@,
            display_resolution: (1179, 2556),
            is_mockup_image_at_front: true,
            orientations: seq![orientation_spec("portrait"@, seq![(120, 120), (1299, 120), (1299, 2676), (120, 2676)]), orientation_spec("landscape"@, seq![(2676, 120), (2676, 1299), (120, 1299), (120, 120)])],
        },
        DeviceSpec {
            id: "apple-iphone-15-pro-black-titanium"@,
            name: "iPhone 15 Pro"@,
            color: "Black Titanium"@,
            display_resolution: (1179, 2556),
            is_mockup_image_at_front: true,
            orientations: seq![orientation_spec("portrait"@, seq![(120, 120), (1299, 120), (1299, 2676), (120, 2676)]), orientation_spec("landscape"@, seq![(2676, 120), (2676, 1299), (120, 1299), (120, 120)])],
        },
        DeviceSpec {
            id: "apple-iphone-15-pro-max-black-titanium"@,
            name: "iPhone 15 Pro Max"@,
            color: "Black Titanium"@,
            display_resolution: (1290, 2796),
            is_mockup_image_at_front: true,
            orientations: seq![orientation_spec("portrait"@, seq![(120, 120), (1410, 120), (1410, 2916), (120, 2916)]), orientation_spec("landscape"@, seq![(2916, 120), (2916, 1410), (120, 1410), (120, 120)])],
        },
        DeviceSpec {
            id: "apple-iphone14pro-spaceblack"@,
            name: "iPhone 14 Pro"@,
            color: "Space Black"@,
            display_resolution: (1179, 2556),
            is_mockup_image_at_front: true,
            orientations: seq![orientation_spec("portrait"@, seq![(78, 78), (1261, 78), (1261, 2638), (78, 2638)]), orientation_spec("landscape"@, seq![(2638, 79), (2638, 1262), (79, 1262), (79, 79)])],
        },
        DeviceSpec {
            id: "apple-iphone14-midnight"@,
            name: "iPhone 14"@,
            color: "Midnight"@,
            display_resolution: (1170, 2532),
            is_mockup_image_at_front: true,
            orientations: seq![orientation_spec("portrait"@, seq![(98, 98), (1272, 98), (1272, 2634), (98, 2634)]), orientation_spec("landscape"@, seq![(2634, 98), (2634, 1272), (98, 1272), (98, 98)])],
        },
        DeviceSpec {
            id: "samsung-galaxys21ultra-black"@,
            name: "Samsung Galaxy S21 Ultra"@,
            color: "Black"@,
            display_resolution: (1440, 3200),
            is_mockup_image_at_front: true,
            orientations: seq![orientation_spec("portrait"@, seq![(120, 120), (1560, 120), (1560, 3320), (120, 3320)]), orientation_spec("landscape"@, seq![(3320, 120), (3320, 1560), (120, 1560), (120, 120)])],
        },
        DeviceSpec {
            id: "apple-macbookair13"@,
            name: "MacBook Air 13\""@,
            color: "Midnight"@,
            display_resolution: (2560, 1664),
            is_mockup_image_at_front: true,
            orientations: seq![orientation_spec("front"@, seq![(330, 218), (2890, 218), (2890, 1882), (330, 1882)])],
        },
    ]
}

/// Returns all curated device configs.
pub fn all_devices() -> (ds: Vec<DeviceConfig>)
    ensures
        device_views(ds@) == spec_all_devices(),
{
    let mut ds: Vec<DeviceConfig> = Vec::new();
    let mut o: Vec<OrientationConfig> = Vec::new();
    o.push(orientation("portrait", [(120, 120), (1326, 120), (1326, 2742), (120, 2742)]));
    o.push(orientation("landscape", [(2742, 120), (2742, 1326), (120, 1326), (120, 120)]));
    ds.push(
        DeviceConfig {
            id: "apple-iphone-17-pro-deep-blue",
            name: "iPhone 17 Pro",
            color: "Deep Blue",
            display_resolution: (1206, 2622),
            is_mockup_image_at_front: true,
            orientations: o,
        },
    );
    let mut o: Vec<OrientationConfig> = Vec::new();
    o.push(orientation("portrait", [(120, 120), (1326, 120), (1326, 2742), (120, 2742)]));
    o.push(orientation("landscape", [(2742, 120), (2742, 1326), (120, 1326), (120, 120)]));
    ds.push(
        DeviceConfig {
            id: "apple-iphone-16-pro-black-titanium",
            name: "iPhone 16 Pro",
            color: "Black Titanium",
            display_resolution: (1206, 2622),
            is_mockup_image_at_front: true,
            orientations: o,
        },
    );
    let mut o: Vec<OrientationConfig> = Vec::new();
    o.push(orientation("portrait", [(120, 120), (1299, 120), (1299, 2676), (120, 2676)]));
    o.push(orientation("landscape", [(2676, 120), (2676, 1299), (120, 1299), (120, 120)]));
    ds.push(
        DeviceConfig {
            id: "apple-iphone-15-black",
            name: "iPhone 15",
            color: "Black",
            display_resolution: (1179, 2556),
            is_mockup_image_at_front: true,
            orientations: o,
        },
    );
    let mut o: Vec<OrientationConfig> = Vec::new();
    o.push(orientation("portrait", [(120, 120), (1299, 120), (1299, 2676), (120, 2676)]));
    o.push(orientation("landscape", [(2676, 120), (2676, 1299), (120, 1299), (120, 120)]));
    ds.push(
        DeviceConfig {
            id: "apple-iphone-15-pro-black-titanium",
            name: "iPhone 15 Pro",
            color: "Black Titanium",
            display_resolution: (1179, 2556),
            is_mockup_image_at_front: true,
            orientations: o,
        },
    );
    let mut o: Vec<OrientationConfig> = Vec::new();
    o.push(orientation("portrait", [(120, 120), (1410, 120), (1410, 2916), (120, 2916)]));
    o.push(orientation("landscape", [(2916, 120), (2916, 1410), (120, 1410), (120, 120)]));
    ds.push(
        DeviceConfig {
            id: "apple-iphone-15-pro-max-black-titanium",
            name: "iPhone 15 Pro Max",
            color: "Black Titanium",
            display_resolution: (1290, 2796),
            is_mockup_image_at_front: true,
            orientations: o,
        },
    );
    let mut o: Vec<OrientationConfig> = Vec::new();
    o.push(orientation("portrait", [(78, 78), (1261, 78), (1261, 2638), (78, 2638)]));
    o.push(orientation("landscape", [(2638, 79), (2638, 1262), (79, 1262), (79, 79)]));
    ds.push(
        DeviceConfig {
            id: "apple-iphone14pro-spaceblack",
            name: "iPhone 14 Pro",
            color: "Space Black",
            display_resolution: (1179, 2556),
            is_mockup_image_at_front: true,
            orientations: o,
        },
    );
    let mut o: Vec<OrientationConfig> = Vec::new();
    o.push(orientation("portrait", [(98, 98), (1272, 98), (1272, 2634), (98, 2634)]));
    o.push(orientation("landscape", [(2634, 98), (2634, 1272), (98, 1272), (98, 98)]));
    ds.push(
        DeviceConfig {
            id: "apple-iphone14-midnight",
            name: "iPhone 14",
            color: "Midnight",
            display_resolution: (1170, 2532),
            is_mockup_image_at_front: true,
            orientations: o,
        },
    );
    let mut o: Vec<OrientationConfig> = Vec::new();
    o.push(orientation("portrait", [(120, 120), (1560, 120), (1560, 3320), (120, 3320)]));
    o.push(orientation("landscape", [(3320, 120), (3320, 1560), (120, 1560), (120, 120)]));
    ds.push(
        DeviceConfig {
            id: "samsung-galaxys21ultra-black",
            name: "Samsung Galaxy S21 Ultra",
            color: "Black",
            display_resolution: (1440, 3200),
            is_mockup_image_at_front: true,
            orientations: o,
        },
    );
    let mut o: Vec<OrientationConfig> = Vec::new();
    o.push(orientation("front", [(330, 218), (2890, 218), (2890, 1882), (330, 1882)]));
    ds.push(
        DeviceConfig {
            id: "apple-macbookair13",
            name: "MacBook Air 13\"",
            color: "Midnight",
            display_resolution: (2560, 1664),
            is_mockup_image_at_front: true,
            orientations: o,
        },
    );
    assert(device_views(ds@) =~= spec_all_devices()) by {
        assert(device_views(ds@).len() == 9);
        assert forall|i: int| 0 <= i < 9 implies device_views(ds@)[i] == spec_all_devices()[i] by {
            assert(orientation_views(ds@[i].orientations@) =~= spec_all_devices()[i].orientations);
        }
    }
    ds
}

/// Index of the first device with this id (the count when none has it).
pub open spec fn device_index(ds: Seq<DeviceSpec>, id: Seq<char>) -> int
    decreases ds.len(),
{
    if ds.len() == 0 {
        0
    } else if ds[0].id == id {
        0
    } else {
        1 + device_index(ds.drop_first(), id)
    }
}

/// The index found is that of the first device with the id, or the number
/// of devices when none has it.
pub proof fn lemma_device_index(ds: Seq<DeviceSpec>, id: Seq<char>)
    ensures
        0 <= device_index(ds, id) <= ds.len(),
        device_index(ds, id) < ds.len() ==> ds[device_index(ds, id)].id == id,
        forall|j: int| 0 <= j < device_index(ds, id) ==> ds[j].id != id,
    decreases ds.len(),
{
    if ds.len() > 0 && ds[0].id != id {
        lemma_device_index(ds.drop_first(), id);
        assert forall|j: int| 0 <= j < device_index(ds, id) implies ds[j].id != id by {
            if j > 0 {
                assert(ds[j] == ds.drop_first()[j - 1]);
            }
        }
    }
}

/// Find a device by ID.
pub fn find_device(id: &str) -> (r: Option<DeviceConfig>)
    ensures
        ({
            let k = device_index(spec_all_devices(), id@);
            &&& r is Some <==> k < spec_all_devices().len()
            &&& r matches Some(d) ==> d@ == spec_all_devices()[k]
        }),
{
    let mut ds = all_devices();
    proof {
        lemma_device_index(spec_all_devices(), id@);
    }
    let n = ds.len();
    assert(n == 9);
    let mut i: usize = 0;
    while i < n
        invariant
            n == ds@.len(),
            device_views(ds@) == spec_all_devices(),
            i <= n,
            forall|j: int| 0 <= j < i ==> spec_all_devices()[j].id != id@,
        decreases n - i,
    {
        assert(ds@[i as int]@ == spec_all_devices()[i as int]);
        if str_eq(ds[i].id, id) {
            proof {
                lemma_device_index(spec_all_devices(), id@);
            }
            return Some(ds.swap_remove(i));
        }
        i = i + 1;
    }
    None
}

/// Index of the first orientation with this name (the count when none).
pub open spec fn orientation_index(os: Seq<OrientationSpec>, name: Seq<char>) -> int
    decreases os.len(),
{
    if os.len() == 0 {
        0
    } else if os[0].name == name {
        0
    } else {
        1 + orientation_index(os.drop_first(), name)
    }
}

/// The index found is that of the first orientation with the name, or the
/// number of orientations when none has it.
pub proof fn lemma_orientation_index(os: Seq<OrientationSpec>, name: Seq<char>)
    ensures
        0 <= orientation_index(os, name) <= os.len(),
        orientation_index(os, name) < os.len() ==> os[orientation_index(os, name)].name == name,
        forall|j: int| 0 <= j < orientation_index(os, name) ==> os[j].name != name,
    decreases os.len(),
{
    if os.len() > 0 && os[0].name != name {
        lemma_orientation_index(os.drop_first(), name);
        assert forall|j: int| 0 <= j < orientation_index(os, name) implies os[j].name != name by {
            if j > 0 {
                assert(os[j] == os.drop_first()[j - 1]);
            }
        }
    }
}

impl DeviceConfig {
    /// The file name of this device's frame image for an orientation.
    pub fn template_filename(&self, orientation: &str) -> (s: String)
        ensures
            s@ == self.id@ + "-"@ + orientation@ + ".png"@,
    {
        let mut s = String::from_str(self.id);
        push_str(&mut s, "-");
        push_str(&mut s, orientation);
        push_str(&mut s, ".png");
        s
    }

    pub fn find_orientation(&self, name: &str) -> (r: Option<&OrientationConfig>)
        ensures
            ({
                let k = orientation_index(self@.orientations, name@);
                &&& r is Some <==> k < self@.orientations.len()
                &&& r matches Some(o) ==> o@ == self@.orientations[k]
            }),
    {
        proof {
            lemma_orientation_index(self@.orientations, name@);
        }
        let n = self.orientations.len();
        let mut i: usize = 0;
        while i < n
            invariant
                n == self.orientations@.len(),
                i <= n,
                forall|j: int| 0 <= j < i ==> self@.orientations[j].name != name@,
            decreases n - i,
        {
            assert(self@.orientations[i as int] == self.orientations@[i as int]@);
            if str_eq(self.orientations[i].name, name) {
                proof {
                    lemma_orientation_index(self@.orientations, name@);
                }
                return Some(&self.orientations[i]);
            }
            i = i + 1;
        }
        None
    }

    /// The names of this device's orientations, separated by commas.
    pub fn orientation_names(&self) -> (s: String)
        ensures
            s@ == join(self@.orientations.map_values(|o: OrientationSpec| o.name), ", "@),
    {
        let mut names: Vec<String> = Vec::new();
        let n = self.orientations.len();
        let mut i: usize = 0;
        while i < n
            invariant
                n == self.orientations@.len(),
                i <= n,
                views(names@) == self@.orientations.take(i as int).map_values(
                    |o: OrientationSpec| o.name,
                ),
            decreases n - i,
        {
            let t = String::from_str(self.orientations[i].name);
            let ghost before = views(names@);
            names.push(t);
            assert(views(names@) =~= before.push(t@));
            assert(views(names@) =~= self@.orientations.take(i + 1).map_values(
                |o: OrientationSpec| o.name,
            ));
            i = i + 1;
        }
        assert(self@.orientations.take(n as int) =~= self@.orientations);
        join_strings(&names, ", ")
    }
}

/// The display resolution in the orientation: width and height swap when
/// the device lies in landscape.
pub fn display_size(device: &DeviceConfig, orientation: &OrientationConfig) -> (r: (u32, u32))
    ensures
        orientation.name@ == "landscape"@ ==> r == (device.display_resolution.1, device.display_resolution.0),
        orientation.name@ != "landscape"@ ==> r == device.display_resolution,
{
    let (w, h) = device.display_resolution;
    if str_eq(orientation.name, "landscape") {
        (h, w)
    } else {
        (w, h)
    }
}

pub open spec fn min4(a: u32, b: u32, c: u32, d: u32) -> u32 {
    let ab = if a <= b {
        a
    } else {
        b
    };
    let cd = if c <= d {
        c
    } else {
        d
    };
    if ab <= cd {
        ab
    } else {
        cd
    }
}

/// The top-left corner of the screen area: the smallest x and y of its
/// corners.
pub fn screen_origin(orientation: &OrientationConfig) -> (r: (u32, u32))
    ensures
        r.0 == min4(
            orientation.screen_coord@[0].0,
            orientation.screen_coord@[1].0,
            orientation.screen_coord@[2].0,
            orientation.screen_coord@[3].0,
        ),
        r.1 == min4(
            orientation.screen_coord@[0].1,
            orientation.screen_coord@[1].1,
            orientation.screen_coord@[2].1,
            orientation.screen_coord@[3].1,
        ),
{
    let c = &orientation.screen_coord;
    let x01 = if c[0].0 <= c[1].0 {
        c[0].0
    } else {
        c[1].0
    };
    let x23 = if c[2].0 <= c[3].0 {
        c[2].0
    } else {
        c[3].0
    };
    let y01 = if c[0].1 <= c[1].1 {
        c[0].1
    } else {
        c[1].1
    };
    let y23 = if c[2].1 <= c[3].1 {
        c[2].1
    } else {
        c[3].1
    };
    (if x01 <= x23 {
        x01
    } else {
        x23
    }, if y01 <= y23 {
        y01
    } else {
        y23
    })
}

// ---------------------------------------------------------------------------
// Placing a screenshot on the screen
// ---------------------------------------------------------------------------

/// `p / q` rounded to the nearest whole number, halves up.
pub open spec fn round_div(p: nat, q: nat) -> nat {
    (2 * p + q) / (2 * q)
}

/// How a screenshot of `iw` x `ih` is fitted to a screen of `w` x `h`: it is
/// turned a quarter when its orientation differs from the screen's, scaled
/// to fit keeping its aspect ratio, and centred.
pub struct Fit {
    pub rotate: bool,
    pub width: u32,
    pub height: u32,
    pub offset_x: u32,
    pub offset_y: u32,
}

pub open spec fn fit_matches(f: Fit, iw: nat, ih: nat, w: nat, h: nat) -> bool {
    let rotate = (iw > ih) != (w > h);
    let (sw, sh) = if rotate {
        (ih, iw)
    } else {
        (iw, ih)
    };
    let (nw, nh) = if w * sh <= h * sw {
        (w, round_div(sh * w, sw))
    } else {
        (round_div(sw * h, sh), h)
    };
    &&& f.rotate == rotate
    &&& f.width == nw
    &&& f.height == nh
    &&& nw <= w && nh <= h
    &&& f.offset_x == (w - nw) / 2
    &&& f.offset_y == (h - nh) / 2
}

/// A fitted screenshot is turned exactly when its orientation differs from
/// the screen's, fills the screen's width or its height without leaving
/// it, keeps its aspect ratio up to rounding, and is centred.
pub proof fn lemma_fit_to_screen(f: Fit, iw: nat, ih: nat, w: nat, h: nat)
    requires
        iw > 0,
        ih > 0,
        fit_matches(f, iw, ih, w, h),
    ensures
        f.rotate == ((iw > ih) != (w > h)),
        f.width <= w,
        f.height <= h,
        f.width == w || f.height == h,
        f.offset_x == (w - f.width) / 2,
        f.offset_y == (h - f.height) / 2,
        ({
            let (sw, sh) = if f.rotate {
                (ih, iw)
            } else {
                (iw, ih)
            };
            &&& -(sw + sh) <= 2 * (f.width * sh - f.height * sw)
            &&& 2 * (f.width * sh - f.height * sw) <= sw + sh
        }),
{
    let rotate = (iw > ih) != (w > h);
    let (sw, sh) = if rotate {
        (ih, iw)
    } else {
        (iw, ih)
    };
    let wd: int = f.width as int;
    let ht: int = f.height as int;
    if w * sh <= h * sw {
        assert(-(sw + sh) <= 2 * (wd * sh - ht * sw) <= sw + sh) by (nonlinear_arith)
            requires
                wd == w,
                ht == (2 * (sh * w) + sw) / (2 * sw),
                sw > 0,
                sh > 0,
        ;
    } else {
        assert(-(sw + sh) <= 2 * (wd * sh - ht * sw) <= sw + sh) by (nonlinear_arith)
            requires
                ht == h,
                wd == (2 * (sw * h) + sh) / (2 * sh),
                sw > 0,
                sh > 0,
        ;
    }
}

pub fn fit_to_screen(iw: u32, ih: u32, w: u32, h: u32) -> (f: Fit)
    requires
        iw > 0,
        ih > 0,
    ensures
        fit_matches(f, iw as nat, ih as nat, w as nat, h as nat),
        f.rotate == ((iw > ih) != (w > h)),
        f.width <= w,
        f.height <= h,
        f.width == w || f.height == h,
        f.offset_x == (w - f.width) / 2,
        f.offset_y == (h - f.height) / 2,
{
    let rotate = (iw > ih) != (w > h);
    let (sw, sh): (u128, u128) = if rotate {
        (ih as u128, iw as u128)
    } else {
        (iw as u128, ih as u128)
    };
    let w1 = w as u128;
    let h1 = h as u128;
    assert(w1 * sh <= 0xFFFF_FFFE_0000_0001u128 && h1 * sw <= 0xFFFF_FFFE_0000_0001u128
        && sh * w1 <= 0xFFFF_FFFE_0000_0001u128 && sw * h1 <= 0xFFFF_FFFE_0000_0001u128)
        by (nonlinear_arith)
        requires
            w1 <= 0xFFFF_FFFFu128,
            h1 <= 0xFFFF_FFFFu128,
            sw <= 0xFFFF_FFFFu128,
            sh <= 0xFFFF_FFFFu128,
    ;
    if w1 * sh <= h1 * sw {
        let nh = (2 * (sh * w1) + sw) / (2 * sw);
        assert(nh <= h1) by (nonlinear_arith)
            requires
                nh == (2 * (sh * w1) + sw) / (2 * sw),
                w1 * sh <= h1 * sw,
                sw > 0,
        ;
        Fit {
            rotate,
            width: w,
            height: nh as u32,
            offset_x: 0,
            offset_y: ((h1 - nh) / 2) as u32,
        }
    } else {
        let nw = (2 * (sw * h1) + sh) / (2 * sh);
        assert(nw <= w1) by (nonlinear_arith)
            requires
                nw == (2 * (sw * h1) + sh) / (2 * sh),
                w1 * sh > h1 * sw,
                sh > 0,
        ;
        Fit {
            rotate,
            width: nw as u32,
            height: h,
            offset_x: ((w1 - nw) / 2) as u32,
            offset_y: 0,
        }
    }
}

/// What a pixel of the mockup shows, decided by the alpha of the frame
/// template and of the screen mask there.
pub enum PixelChoice {
    /// The frame is (all but) opaque: the frame pixel.
    Frame,
    /// The frame is (all but) clear over the screen: the screenshot pixel.
    Screen,
    /// The frame's edge over the screen: the frame blended over the
    /// screenshot by the frame's alpha.
    Blend,
    /// Outside the device: transparent.
    Clear,
}

/// Alpha above 252 is taken as opaque (above 0.99 of 255), alpha below 3 as
/// clear (below 0.01 of 255).
pub fn pixel_choice(frame_alpha: u8, mask_alpha: u8) -> (c: PixelChoice)
    ensures
        frame_alpha > 252 ==> c is Frame,
        frame_alpha <= 252 && mask_alpha > 0 && frame_alpha < 3 ==> c is Screen,
        frame_alpha <= 252 && mask_alpha > 0 && frame_alpha >= 3 ==> c is Blend,
        frame_alpha <= 252 && mask_alpha == 0 ==> c is Clear,
{
    if frame_alpha > 252 {
        PixelChoice::Frame
    } else if mask_alpha > 0 {
        if frame_alpha < 3 {
            PixelChoice::Screen
        } else {
            PixelChoice::Blend
        }
    } else {
        PixelChoice::Clear
    }
}

/// The screenshot pixel under mockup pixel (`x`, `y`) when the screen
/// starts at (`origin_x`, `origin_y`), if the fitted screenshot of
/// `width` x `height` covers it.
pub fn screen_pixel(x: u32, y: u32, origin_x: u32, origin_y: u32, width: u32, height: u32) -> (r: Option<(u32, u32)>)
    ensures
        r is Some <==> (origin_x <= x && origin_y <= y && x - origin_x < width && y - origin_y < height),
        r matches Some(p) ==> p == ((x - origin_x) as u32, (y - origin_y) as u32),
{
    if x >= origin_x && y >= origin_y && x - origin_x < width && y - origin_y < height {
        Some((x - origin_x, y - origin_y))
    } else {
        None
    }
}

} // verus!
