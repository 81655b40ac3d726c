//! The texts handed to ffmpeg: second counts, filter graphs, segment lists
//! and concat lists, and the tail of its error output.
use vstd::prelude::*;

use crate::text::{
    chars_of, decimal, join, join_strings, lines, push_char, push_decimal, push_str,
    push_three_digits, split_lines, three_digits, views,
};
use crate::device::{
    device_index, display_size, lemma_device_index, lemma_orientation_index, find_device, min4, orientation_index, screen_origin,
    spec_all_devices, DeviceSpec, OrientationSpec,
};
use crate::timeline::{normalized_markers, spec_normalized_markers, TimeRange};
use std::path::PathBuf;

verus! {

/// Microseconds rounded to the nearest millisecond, halves up.
pub open spec fn millis_rounded(us: nat) -> nat {
    us / 1000 + if us % 1000 >= 500 {
        1nat
    } else {
        0nat
    }
}

pub fn rounded_millis(us: u64) -> (ms: u64)
    ensures
        ms == millis_rounded(us as nat),
{
    us / 1000 + if us % 1000 >= 500 {
        1
    } else {
        0
    }
}

/// A time as seconds with three decimals, as `{:.3}` prints it.
pub open spec fn seconds_text(us: nat) -> Seq<char> {
    let ms = millis_rounded(us);
    decimal(ms / 1000) + seq!['.'] + three_digits(ms % 1000)
}

pub fn push_seconds(s: &mut String, us: u64)
    ensures
        final(s)@ == old(s)@ + seconds_text(us as nat),
{
    let ms = rounded_millis(us);
    push_decimal(s, ms / 1000);
    push_char(s, '.');
    push_three_digits(s, ms % 1000);
    assert(final(s)@ =~= old(s)@ + seconds_text(us as nat));
}

pub fn format_seconds(us: u64) -> (s: String)
    ensures
        s@ == seconds_text(us as nat),
{
    let mut s = String::new();
    push_seconds(&mut s, us);
    assert(s@ =~= seconds_text(us as nat));
    s
}

pub open spec fn seconds_texts(ms: Seq<u64>) -> Seq<Seq<char>> {
    ms.map_values(|m: u64| seconds_text(m as nat))
}

/// The `-segment_times` list that splits a recording at its markers.
pub open spec fn spec_segment_times(markers: Seq<u64>) -> Seq<char> {
    join(seconds_texts(spec_normalized_markers(markers, None)), ","@)
}

pub fn segment_times(markers: &Vec<u64>) -> (r: String)
    ensures
        r@ == spec_segment_times(markers@),
{
    let norm = normalized_markers(markers, None);
    let mut parts: Vec<String> = Vec::new();
    let n = norm.len();
    let mut i: usize = 0;
    while i < n
        invariant
            n == norm@.len(),
            i <= n,
            views(parts@) == seconds_texts(norm@.take(i as int)),
        decreases n - i,
    {
        let t = format_seconds(norm[i]);
        let ghost before = views(parts@);
        parts.push(t);
        assert(views(parts@) =~= before.push(t@));
        assert(views(parts@) =~= seconds_texts(norm@.take(i + 1)));
        i = i + 1;
    }
    assert(norm@.take(n as int) =~= norm@);
    join_strings(&parts, ",")
}

// ---------------------------------------------------------------------------
// Trim filter
// ---------------------------------------------------------------------------

pub open spec fn trim_part(r: TimeRange, i: nat) -> Seq<char> {
    "[0:v]trim=start="@ + seconds_text(r.start as nat) + ":end="@ + seconds_text(r.end as nat)
        + ",setpts=PTS-STARTPTS[v"@ + decimal(i) + "];"@
}

pub open spec fn trim_parts(kept: Seq<TimeRange>) -> Seq<char>
    decreases kept.len(),
{
    if kept.len() == 0 {
        Seq::<char>::empty()
    } else {
        trim_parts(kept.drop_last()) + trim_part(kept.last(), (kept.len() - 1) as nat)
    }
}

pub open spec fn stream_labels(n: nat) -> Seq<char>
    decreases n,
{
    if n == 0 {
        Seq::<char>::empty()
    } else {
        stream_labels((n - 1) as nat) + "[v"@ + decimal((n - 1) as nat) + "]"@
    }
}

/// The filter graph that cuts the kept ranges out of a video and joins them.
pub open spec fn spec_trim_filter(kept: Seq<TimeRange>) -> Seq<char> {
    trim_parts(kept) + if kept.len() == 1 {
        "[v0]format=yuv420p[outv]"@
    } else {
        stream_labels(kept.len()) + "concat=n="@ + decimal(kept.len()) + ":v=1:a=0,format=yuv420p[outv]"@
    }
}

pub fn trim_filter(kept: &Vec<TimeRange>) -> (f: String)
    ensures
        f@ == spec_trim_filter(kept@),
{
    let mut f = String::new();
    let n = kept.len();
    let mut i: usize = 0;
    assert(kept@.take(0) =~= Seq::<TimeRange>::empty());
    while i < n
        invariant
            n == kept@.len(),
            i <= n,
            f@ == trim_parts(kept@.take(i as int)),
        decreases n - i,
    {
        let r = kept[i];
        push_str(&mut f, "[0:v]trim=start=");
        push_seconds(&mut f, r.start);
        push_str(&mut f, ":end=");
        push_seconds(&mut f, r.end);
        push_str(&mut f, ",setpts=PTS-STARTPTS[v");
        push_decimal(&mut f, i as u64);
        push_str(&mut f, "];");
        assert(kept@.take(i + 1).drop_last() =~= kept@.take(i as int));
        assert(f@ =~= trim_parts(kept@.take(i + 1)));
        i = i + 1;
    }
    assert(kept@.take(n as int) =~= kept@);
    if n == 1 {
        push_str(&mut f, "[v0]format=yuv420p[outv]");
    } else {
        let ghost before = f@;
        let mut j: usize = 0;
        while j < n
            invariant
                j <= n,
                f@ == before + stream_labels(j as nat),
            decreases n - j,
        {
            push_str(&mut f, "[v");
            push_decimal(&mut f, j as u64);
            push_str(&mut f, "]");
            assert(f@ =~= before + stream_labels((j + 1) as nat));
            j = j + 1;
        }
        push_str(&mut f, "concat=n=");
        push_decimal(&mut f, n as u64);
        push_str(&mut f, ":v=1:a=0,format=yuv420p[outv]");
    }
    assert(f@ =~= spec_trim_filter(kept@));
    f
}

// ---------------------------------------------------------------------------
// Device frame filter
// ---------------------------------------------------------------------------

/// The filter graph that puts a video into a device frame: the video is
/// scaled and letterboxed to the screen, masked, laid on a light background
/// and covered by the frame template, all inside `padding` pixels of margin.
pub open spec fn spec_frame_filter(
    template_w: nat,
    template_h: nat,
    screen_w: nat,
    screen_h: nat,
    screen_x: nat,
    screen_y: nat,
    padding: nat,
) -> Seq<char> {
    let cw = decimal(template_w + padding * 2);
    let ch = decimal(template_h + padding * 2);
    let sx = decimal(screen_x + padding);
    let sy = decimal(screen_y + padding);
    let sw = decimal(screen_w);
    let sh = decimal(screen_h);
    let p = decimal(padding);
    "[0:v]scale=w="@ + sw + ":h="@ + sh + ":force_original_aspect_ratio=decrease,pad="@ + sw + ":"@
        + sh + ":(ow-iw)/2:(oh-ih)/2:color=black,setsar=1,format=rgba,pad="@ + cw + ":"@ + ch
        + ":"@ + sx + ":"@ + sy
        + ":color=black@0[screen_full];[2:v]format=rgba,alphaextract[mask];[mask]pad="@ + cw
        + ":"@ + ch + ":"@ + p + ":"@ + p
        + ":color=black[mask_full];[screen_full][mask_full]alphamerge[screen_masked];color=c=0xf2f2f7:s="@
        + cw + "x"@ + ch
        + ":r=30,format=rgba[bg];[bg][screen_masked]overlay=0:0:shortest=1[with_screen];[with_screen][1:v]overlay="@
        + p + ":"@ + p + ":shortest=1,format=yuv420p[outv]"@
}

pub fn frame_filter(
    template_w: u32,
    template_h: u32,
    screen_w: u32,
    screen_h: u32,
    screen_x: u32,
    screen_y: u32,
    padding: u32,
) -> (f: String)
    requires
        template_w + padding * 2 <= u32::MAX,
        template_h + padding * 2 <= u32::MAX,
        screen_x + padding <= u32::MAX,
        screen_y + padding <= u32::MAX,
    ensures
        f@ == spec_frame_filter(
            template_w as nat,
            template_h as nat,
            screen_w as nat,
            screen_h as nat,
            screen_x as nat,
            screen_y as nat,
            padding as nat,
        ),
{
    let cw = (template_w + padding * 2) as u64;
    let ch = (template_h + padding * 2) as u64;
    let sx = (screen_x + padding) as u64;
    let sy = (screen_y + padding) as u64;
    let sw = screen_w as u64;
    let sh = screen_h as u64;
    let p = padding as u64;
    let mut f = String::new();
    push_str(&mut f, "[0:v]scale=w=");
    push_decimal(&mut f, sw);
    push_str(&mut f, ":h=");
    push_decimal(&mut f, sh);
    push_str(&mut f, ":force_original_aspect_ratio=decrease,pad=");
    push_decimal(&mut f, sw);
    push_str(&mut f, ":");
    push_decimal(&mut f, sh);
    push_str(&mut f, ":(ow-iw)/2:(oh-ih)/2:color=black,setsar=1,format=rgba,pad=");
    push_decimal(&mut f, cw);
    push_str(&mut f, ":");
    push_decimal(&mut f, ch);
    push_str(&mut f, ":");
    push_decimal(&mut f, sx);
    push_str(&mut f, ":");
    push_decimal(&mut f, sy);
    push_str(
        &mut f,
        ":color=black@0[screen_full];[2:v]format=rgba,alphaextract[mask];[mask]pad=",
    );
    push_decimal(&mut f, cw);
    push_str(&mut f, ":");
    push_decimal(&mut f, ch);
    push_str(&mut f, ":");
    push_decimal(&mut f, p);
    push_str(&mut f, ":");
    push_decimal(&mut f, p);
    push_str(
        &mut f,
        ":color=black[mask_full];[screen_full][mask_full]alphamerge[screen_masked];color=c=0xf2f2f7:s=",
    );
    push_decimal(&mut f, cw);
    push_str(&mut f, "x");
    push_decimal(&mut f, ch);
    push_str(
        &mut f,
        ":r=30,format=rgba[bg];[bg][screen_masked]overlay=0:0:shortest=1[with_screen];[with_screen][1:v]overlay=",
    );
    push_decimal(&mut f, p);
    push_str(&mut f, ":");
    push_decimal(&mut f, p);
    push_str(&mut f, ":shortest=1,format=yuv420p[outv]");
    assert(f@ =~= spec_frame_filter(
        template_w as nat,
        template_h as nat,
        screen_w as nat,
        screen_h as nat,
        screen_x as nat,
        screen_y as nat,
        padding as nat,
    ));
    f
}

// ---------------------------------------------------------------------------
// Error output
// ---------------------------------------------------------------------------

/// The last `count` lines of `text`, joined by newlines.
pub open spec fn spec_last_lines(text: Seq<char>, count: nat) -> Seq<char> {
    let ls = lines(text);
    let start = if ls.len() > count {
        ls.len() - count
    } else {
        0
    };
    join(ls.skip(start), "\n"@)
}

pub fn last_lines(text: &str, count: usize) -> (r: String)
    ensures
        r@ == spec_last_lines(text@, count as nat),
{
    let v = chars_of(text);
    let ls = split_lines(&v);
    let n = ls.len();
    let start: usize = if n > count {
        n - count
    } else {
        0
    };
    let mut tail: Vec<String> = Vec::new();
    let mut i = start;
    while i < n
        invariant
            start <= i <= n,
            n == ls@.len(),
            views(tail@) == views(ls@).subrange(start as int, i as int),
        decreases n - i,
    {
        let line = ls[i].clone();
        let ghost before = views(tail@);
        tail.push(line);
        assert(views(tail@) =~= before.push(line@));
        assert(line@ == views(ls@)[i as int]);
        assert(views(tail@) =~= views(ls@).subrange(start as int, i + 1));
        i = i + 1;
    }
    assert(views(ls@).subrange(start as int, n as int) =~= views(ls@).skip(start as int));
    join_strings(&tail, "\n")
}

// ---------------------------------------------------------------------------
// Framing a video
// ---------------------------------------------------------------------------

#[verifier::external_type_specification]
#[verifier::external_body]
pub struct ExPathBuf(PathBuf);

/// What `frame` needs to put an existing video into a device frame.
pub struct FrameVideoOptions {
    pub input: PathBuf,
    pub output: PathBuf,
    pub device: String,
    pub orientation: String,
    pub padding: u32,
}

/// Why a device frame cannot be set up.
#[derive(Clone, Copy, Debug, PartialEq, Eq, Structural)]
pub enum FrameSetupError {
    UnknownDevice,
    UnknownOrientation,
}

/// The largest screen coordinate of any device's frame.
pub const MAX_SCREEN_COORD: u32 = 3320;

/// The filter that frames a video in `device`'s frame held in
/// `orientation`, whose frame image is `template_w` x `template_h`.
pub open spec fn spec_frame_filter_for(
    d: DeviceSpec,
    o: OrientationSpec,
    template_w: nat,
    template_h: nat,
    padding: nat,
) -> Seq<char> {
    let (sw, sh) = if o.name == "landscape"@ {
        (d.display_resolution.1, d.display_resolution.0)
    } else {
        d.display_resolution
    };
    let c = o.screen_coord;
    spec_frame_filter(
        template_w,
        template_h,
        sw as nat,
        sh as nat,
        min4(c[0].0, c[1].0, c[2].0, c[3].0) as nat,
        min4(c[0].1, c[1].1, c[2].1, c[3].1) as nat,
        padding,
    )
}

/// The screen of the frame filter is the device's display in the chosen
/// orientation: width and height swap in landscape.
pub proof fn lemma_frame_filter_screen(d: DeviceSpec, o: OrientationSpec, template_w: nat, template_h: nat, padding: nat)
    ensures
        ({
            let c = o.screen_coord;
            let x = min4(c[0].0, c[1].0, c[2].0, c[3].0) as nat;
            let y = min4(c[0].1, c[1].1, c[2].1, c[3].1) as nat;
            &&& o.name == "landscape"@ ==> spec_frame_filter_for(d, o, template_w, template_h, padding)
                == spec_frame_filter(
                template_w,
                template_h,
                d.display_resolution.1 as nat,
                d.display_resolution.0 as nat,
                x,
                y,
                padding,
            )
            &&& o.name != "landscape"@ ==> spec_frame_filter_for(d, o, template_w, template_h, padding)
                == spec_frame_filter(
                template_w,
                template_h,
                d.display_resolution.0 as nat,
                d.display_resolution.1 as nat,
                x,
                y,
                padding,
            )
        }),
{
}

pub fn frame_filter_for(options: &FrameVideoOptions, template_w: u32, template_h: u32) -> (r: Result<
    String,
    FrameSetupError,
>)
    requires
        template_w + options.padding * 2 <= u32::MAX,
        template_h + options.padding * 2 <= u32::MAX,
        options.padding + MAX_SCREEN_COORD <= u32::MAX,
    ensures
        ({
            let ds = spec_all_devices();
            let k = device_index(ds, options.device@);
            if k >= ds.len() {
                r == Err::<String, FrameSetupError>(FrameSetupError::UnknownDevice)
            } else {
                let os = ds[k].orientations;
                let j = orientation_index(os, options.orientation@);
                if j >= os.len() {
                    r == Err::<String, FrameSetupError>(FrameSetupError::UnknownOrientation)
                } else {
                    r matches Ok(f) && f@ == spec_frame_filter_for(
                        ds[k],
                        os[j],
                        template_w as nat,
                        template_h as nat,
                        options.padding as nat,
                    )
                }
            }
        }),
        r matches Ok(f) ==> {
            let d = spec_all_devices()[device_index(spec_all_devices(), options.device@)];
            let c = d.orientations[orientation_index(d.orientations, options.orientation@)].screen_coord;
            let (sw, sh) = if options.orientation@ == "landscape"@ {
                (d.display_resolution.1, d.display_resolution.0)
            } else {
                (d.display_resolution.0, d.display_resolution.1)
            };
            f@ == spec_frame_filter(
                template_w as nat,
                template_h as nat,
                sw as nat,
                sh as nat,
                min4(c[0].0, c[1].0, c[2].0, c[3].0) as nat,
                min4(c[0].1, c[1].1, c[2].1, c[3].1) as nat,
                options.padding as nat,
            )
        },
{
    let found = find_device(options.device.as_str());
    if found.is_none() {
        return Err(FrameSetupError::UnknownDevice);
    }
    let device = found.unwrap();
    let found_orientation = device.find_orientation(options.orientation.as_str());
    if found_orientation.is_none() {
        return Err(FrameSetupError::UnknownOrientation);
    }
    let orientation = found_orientation.unwrap();
    let (sw, sh) = display_size(&device, orientation);
    let (sx, sy) = screen_origin(orientation);
    proof {
        let ds = spec_all_devices();
        let k = device_index(ds, options.device@);
        let j = orientation_index(ds[k].orientations, options.orientation@);
        lemma_device_index(ds, options.device@);
        lemma_orientation_index(ds[k].orientations, options.orientation@);
        assert(device@ == ds[k]);
        assert(orientation@ == ds[k].orientations[j]);
        lemma_screen_coords_small(k, j);
    }
    Ok(frame_filter(template_w, template_h, sw, sh, sx, sy, options.padding))
}

/// Every corner of every device's screen lies within `MAX_SCREEN_COORD`.
proof fn lemma_screen_coords_small(a: int, b: int)
    requires
        0 <= a < spec_all_devices().len(),
        0 <= b < spec_all_devices()[a].orientations.len(),
    ensures
        spec_all_devices()[a].orientations[b].screen_coord.len() == 4,
        forall|c: int|
            0 <= c < 4 ==> (#[trigger] spec_all_devices()[a].orientations[b].screen_coord[c]).0
                <= MAX_SCREEN_COORD && spec_all_devices()[a].orientations[b].screen_coord[c].1
                <= MAX_SCREEN_COORD,
{
    let ds = spec_all_devices();
    assert(ds.len() == 9);
    assert(0 <= a < 9);
    assert(a < 8 ==> ds[a].orientations.len() == 2);
    assert(a == 8 ==> ds[a].orientations.len() == 1);
    assert(b == 0 || b == 1);
}

} // verus!
