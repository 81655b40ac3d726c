use launch::ffmpeg::{
    format_seconds, frame_filter, frame_filter_for, last_lines, rounded_millis, segment_times,
    trim_filter, FrameSetupError, FrameVideoOptions,
};
use launch::timeline::TimeRange;
use std::path::PathBuf;

#[test]
fn seconds_have_three_decimals() {
    assert_eq!(format_seconds(0), "0.000");
    assert_eq!(format_seconds(1_250_000), "1.250");
    assert_eq!(format_seconds(12_345_678), "12.346");
    assert_eq!(format_seconds(999_499), "0.999");
    assert_eq!(format_seconds(999_500), "1.000");
    assert_eq!(rounded_millis(1_499), 1);
    assert_eq!(rounded_millis(1_500), 2);
}

#[test]
fn segment_times_list_the_normalized_markers() {
    assert_eq!(segment_times(&vec![3_000_000, 1_000_000, 1_100_000, 50_000]), "1.000,3.000");
    assert_eq!(segment_times(&vec![]), "");
}

#[test]
fn trim_filter_for_one_and_several_ranges() {
    assert_eq!(
        trim_filter(&vec![TimeRange { start: 0, end: 2_000_000 }]),
        "[0:v]trim=start=0.000:end=2.000,setpts=PTS-STARTPTS[v0];[v0]format=yuv420p[outv]"
    );
    assert_eq!(
        trim_filter(&vec![
            TimeRange { start: 0, end: 2_000_000 },
            TimeRange { start: 4_000_000, end: 6_500_000 }
        ]),
        "[0:v]trim=start=0.000:end=2.000,setpts=PTS-STARTPTS[v0];\
[0:v]trim=start=4.000:end=6.500,setpts=PTS-STARTPTS[v1];\
[v0][v1]concat=n=2:v=1:a=0,format=yuv420p[outv]"
    );
}

const FRAMED: &str = "[0:v]scale=w=1179:h=2556:force_original_aspect_ratio=decrease,pad=1179:2556:(ow-iw)/2:(oh-ih)/2:color=black,setsar=1,format=rgba,pad=1499:2876:160:160:color=black@0[screen_full];[2:v]format=rgba,alphaextract[mask];[mask]pad=1499:2876:40:40:color=black[mask_full];[screen_full][mask_full]alphamerge[screen_masked];color=c=0xf2f2f7:s=1499x2876:r=30,format=rgba[bg];[bg][screen_masked]overlay=0:0:shortest=1[with_screen];[with_screen][1:v]overlay=40:40:shortest=1,format=yuv420p[outv]";

#[test]
fn frame_filter_text() {
    assert_eq!(frame_filter(1419, 2796, 1179, 2556, 120, 120, 40), FRAMED);
}

#[test]
fn frame_filter_for_a_device() {
    let mut o = FrameVideoOptions {
        input: PathBuf::from("in.mp4"),
        output: PathBuf::from("out.mp4"),
        device: "apple-iphone-15-black".to_string(),
        orientation: "portrait".to_string(),
        padding: 40,
    };
    assert_eq!(frame_filter_for(&o, 1419, 2796).unwrap(), FRAMED);
    o.orientation = "sideways".to_string();
    assert_eq!(frame_filter_for(&o, 1419, 2796), Err(FrameSetupError::UnknownOrientation));
    o.device = "nope".to_string();
    assert_eq!(frame_filter_for(&o, 1419, 2796), Err(FrameSetupError::UnknownDevice));
}

#[test]
fn last_lines_keeps_the_tail() {
    assert_eq!(last_lines("a\nb\r\nc\n", 2), "b\nc");
    assert_eq!(last_lines("a\nb", 5), "a\nb");
    assert_eq!(last_lines("", 3), "");
}
