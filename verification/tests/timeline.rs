use launch::timeline::{
    clip_ranges, clip_source, frame_plan, intersect, normalized_markers, parse_metric, plan_clips,
    record_marker, record_step, ClipSource, FramePlan, RecordAction, RecordEvent, TimeRange,
};

fn tr(start: u64, end: u64) -> TimeRange {
    TimeRange { start, end }
}

#[test]
fn intersect_overlap_or_nothing() {
    assert_eq!(intersect(tr(0, 10), tr(5, 20)), Some(tr(5, 10)));
    assert_eq!(intersect(tr(0, 5), tr(5, 20)), None);
}

#[test]
fn markers_are_filtered_sorted_and_merged() {
    let m = vec![3_000_000, 50_000, 1_000_000, 1_200_000, 9_950_000, 6_000_000];
    // 0.05 s is too close to the start, 9.95 s to the end of a 10 s video,
    // 1.2 s is within half a second of 1.0 s
    assert_eq!(
        normalized_markers(&m, Some(10_000_000)),
        vec![1_000_000, 3_000_000, 6_000_000]
    );
    assert_eq!(
        normalized_markers(&m, None),
        vec![1_000_000, 3_000_000, 6_000_000, 9_950_000]
    );
}

#[test]
fn clip_ranges_split_at_markers() {
    assert_eq!(
        clip_ranges(10_000_000, &vec![4_000_000, 2_000_000]),
        vec![tr(0, 2_000_000), tr(2_000_000, 4_000_000), tr(4_000_000, 10_000_000)]
    );
    assert_eq!(clip_ranges(10_000_000, &vec![]), vec![tr(0, 10_000_000)]);
    assert_eq!(clip_ranges(50_000, &vec![]), vec![]);
}

#[test]
fn plan_clips_cuts_freezes_from_each_clip() {
    let plans = plan_clips(
        10_000_000,
        &vec![5_000_000],
        &vec![tr(1_000_000, 4_000_000), tr(4_500_000, 9_000_000)],
        500_000,
    );
    assert_eq!(plans.len(), 2);
    assert_eq!(plans[0].source, tr(0, 5_000_000));
    assert_eq!(plans[0].removed, vec![tr(1_500_000, 3_500_000)]);
    assert_eq!(plans[0].kept, vec![tr(0, 1_500_000), tr(3_500_000, 5_000_000)]);
    assert_eq!(plans[1].source, tr(5_000_000, 10_000_000));
    assert_eq!(plans[1].removed, vec![tr(5_500_000, 8_500_000)]);
    assert_eq!(plans[1].kept, vec![tr(5_000_000, 5_500_000), tr(8_500_000, 10_000_000)]);
}

#[test]
fn metric_reads_the_number_after_its_key() {
    assert_eq!(parse_metric("[x] freeze_end: 3.75 more", "freeze_end:"), Some(3_750_000));
    assert_eq!(parse_metric("freeze_end:   12", "freeze_end:"), Some(12_000_000));
    assert_eq!(parse_metric("freeze_end: abc", "freeze_end:"), None);
    assert_eq!(parse_metric("freeze_start: 1", "freeze_end:"), None);
    assert_eq!(parse_metric("freeze_end:", "freeze_end:"), None);
}

#[test]
fn markers_closer_than_half_a_second_are_ignored() {
    let mut m = Vec::new();
    assert!(record_marker(&mut m, 1_000_000));
    assert!(!record_marker(&mut m, 1_400_000));
    assert!(record_marker(&mut m, 1_500_000));
    assert_eq!(m, vec![1_000_000, 1_500_000]);
}

#[test]
fn recorder_decisions() {
    let mut m = Vec::new();
    assert!(matches!(
        record_step(&mut m, RecordEvent::RecorderExited { success: false }),
        RecordAction::Fail
    ));
    assert!(matches!(
        record_step(&mut m, RecordEvent::RecorderExited { success: true }),
        RecordAction::Finish
    ));
    assert!(matches!(record_step(&mut m, RecordEvent::Interrupted), RecordAction::StopAndFinish));
    assert!(matches!(record_step(&mut m, RecordEvent::Quit), RecordAction::StopAndFinish));
    assert!(matches!(record_step(&mut m, RecordEvent::Idle), RecordAction::Continue));
    assert!(matches!(
        record_step(&mut m, RecordEvent::Marker { at: 2_000_000 }),
        RecordAction::Continue
    ));
    assert_eq!(m, vec![2_000_000]);
}

#[test]
fn what_happens_after_recording() {
    assert!(matches!(clip_source(true, 0), ClipSource::AutoTrim));
    assert!(matches!(clip_source(false, 2), ClipSource::SplitByMarkers));
    assert!(matches!(clip_source(false, 0), ClipSource::NoClips));
    assert!(matches!(frame_plan(false, true, 3), FramePlan::NoFrame));
    assert!(matches!(frame_plan(true, true, 3), FramePlan::DryRun));
    assert!(matches!(frame_plan(true, false, 0), FramePlan::WholeRecording));
    assert!(matches!(frame_plan(true, false, 3), FramePlan::EachClip));
}
