use video_merger::group::{group_segments, key_of_segment, Bucket, MergeLevel};
use video_merger::plan::{
    artifact_is_valid, is_today, plan_bucket, sort_segments, ArtifactStatus, BucketPlan,
};
use video_merger::scan::Segment;

fn seg(path: &str, hour: &str, instant: u64) -> Segment {
    Segment { path: path.to_string(), bucket_hour: hour.to_string(), instant }
}

fn no_artifact() -> ArtifactStatus {
    ArtifactStatus { exists: false, is_regular: false, size: 0 }
}

fn valid_artifact() -> ArtifactStatus {
    ArtifactStatus { exists: true, is_regular: true, size: 7 }
}

#[test]
fn levels_name_themselves() {
    assert_eq!(MergeLevel::Hour.name(), "hour");
    assert_eq!(MergeLevel::Day.name(), "day");
}

#[test]
fn keys_follow_the_level() {
    let s = seg("a.mp4", "2024031007", 20240310070000);
    assert_eq!(key_of_segment(&s, MergeLevel::Hour), "2024031007");
    assert_eq!(key_of_segment(&s, MergeLevel::Day), "20240310");
}

#[test]
fn hour_grouping_splits_by_hour() {
    let segs = vec![
        seg("a.mp4", "2024031007", 20240310070502),
        seg("b.mp4", "2024031008", 20240310080000),
        seg("c.mp4", "2024031007", 20240310073015),
    ];
    let buckets = group_segments(&segs, MergeLevel::Hour);
    assert_eq!(buckets.len(), 2);
    let seven = buckets.iter().find(|b| b.key == "2024031007").unwrap();
    let eight = buckets.iter().find(|b| b.key == "2024031008").unwrap();
    assert_eq!(seven.segments.len(), 2);
    assert_eq!(seven.segments[0].path, "a.mp4");
    assert_eq!(seven.segments[1].path, "c.mp4");
    assert_eq!(eight.segments.len(), 1);
}

#[test]
fn day_grouping_merges_hours() {
    let segs = vec![
        seg("a.mp4", "2024031007", 20240310070502),
        seg("b.mp4", "2024031008", 20240310080000),
        seg("c.mp4", "2024031107", 20240311070000),
    ];
    let buckets = group_segments(&segs, MergeLevel::Day);
    assert_eq!(buckets.len(), 2);
    let ten = buckets.iter().find(|b| b.key == "20240310").unwrap();
    assert_eq!(ten.segments.len(), 2);
    let eleven = buckets.iter().find(|b| b.key == "20240311").unwrap();
    assert_eq!(eleven.segments.len(), 1);
}

#[test]
fn sorting_is_by_instant_and_stable() {
    let segs = vec![
        seg("late.mp4", "2024031007", 20240310073015),
        seg("tie_first.mp4", "2024031007", 20240310070502),
        seg("tie_second.mp4", "2024031007", 20240310070502),
        seg("early.mp4", "2024031007", 20240310070000),
    ];
    let sorted = sort_segments(&segs);
    let paths: Vec<&str> = sorted.iter().map(|s| s.path.as_str()).collect();
    assert_eq!(paths, vec!["early.mp4", "tie_first.mp4", "tie_second.mp4", "late.mp4"]);
}

#[test]
fn artifact_validity_needs_a_nonempty_regular_file() {
    assert!(artifact_is_valid(&valid_artifact()));
    assert!(!artifact_is_valid(&ArtifactStatus { exists: true, is_regular: true, size: 0 }));
    assert!(!artifact_is_valid(&ArtifactStatus { exists: true, is_regular: false, size: 7 }));
    assert!(!artifact_is_valid(&no_artifact()));
}

#[test]
fn todays_bucket_is_always_skipped() {
    let bucket = Bucket {
        key: "2024031007".to_string(),
        segments: vec![seg("a.mp4", "2024031007", 20240310070502)],
    };
    assert!(is_today("20240310", "20240310"));
    // Skipped whether or not an output artifact already exists.
    assert!(matches!(
        plan_bucket(&bucket, "20240310", &no_artifact()),
        BucketPlan::SkipToday
    ));
    assert!(matches!(
        plan_bucket(&bucket, "20240310", &valid_artifact()),
        BucketPlan::SkipToday
    ));
}

#[test]
fn materialized_bucket_is_skipped_on_rerun() {
    let bucket = Bucket {
        key: "2024031007".to_string(),
        segments: vec![seg("a.mp4", "2024031007", 20240310070502)],
    };
    assert!(matches!(
        plan_bucket(&bucket, "20250101", &valid_artifact()),
        BucketPlan::SkipExisting
    ));
}

#[test]
fn fresh_bucket_executes_in_timestamp_order() {
    let bucket = Bucket {
        key: "2024031007".to_string(),
        segments: vec![
            seg("/in/30M15S_1.mp4", "2024031007", 20240310073015),
            seg("/in/05M02S_2.mp4", "2024031007", 20240310070502),
            seg("/in/07M00S_3.mp4", "2024031007", 20240310070700),
        ],
    };
    match plan_bucket(&bucket, "20250101", &no_artifact()) {
        BucketPlan::Execute(ordered) => {
            let paths: Vec<&str> = ordered.iter().map(|s| s.path.as_str()).collect();
            assert_eq!(
                paths,
                vec!["/in/05M02S_2.mp4", "/in/07M00S_3.mp4", "/in/30M15S_1.mp4"]
            );
        },
        other => panic!("expected Execute, got {:?}", other),
    }
}

#[test]
fn day_bucket_plans_like_an_hour_bucket() {
    let bucket = Bucket {
        key: "20240310".to_string(),
        segments: vec![seg("a.mp4", "2024031007", 20240310070502)],
    };
    assert!(matches!(
        plan_bucket(&bucket, "20240310", &no_artifact()),
        BucketPlan::SkipToday
    ));
    assert!(matches!(
        plan_bucket(&bucket, "20250101", &no_artifact()),
        BucketPlan::Execute(_)
    ));
}
