use video_merger::exec::{build_merge_steps, output_paths, MergeStep};
use video_merger::group::{scan_into_buckets, MergeLevel};
use video_merger::plan::{plan_bucket, ArtifactStatus, BucketPlan};
use video_merger::scan::FsEntry;

fn file(name: &str, path: &str) -> FsEntry {
    FsEntry::File { name: name.to_string(), path: path.to_string() }
}

fn dir(name: &str, entries: Vec<FsEntry>) -> FsEntry {
    FsEntry::Dir { name: name.to_string(), entries }
}

fn sample_tree() -> Vec<FsEntry> {
    vec![dir(
        "2024031007",
        vec![
            file("30M15S_1.mp4", "/in/2024031007/30M15S_1.mp4"),
            file("05M02S_2.mp4", "/in/2024031007/05M02S_2.mp4"),
            dir(
                "2024031007",
                vec![file("07M00S_3.mp4", "/in/2024031007/2024031007/07M00S_3.mp4")],
            ),
        ],
    )]
}

fn no_artifact() -> ArtifactStatus {
    ArtifactStatus { exists: false, is_regular: false, size: 0 }
}

#[test]
fn hour_mode_merges_the_hour_in_order() {
    let buckets = scan_into_buckets("input", &sample_tree(), "2025010100", MergeLevel::Hour)
        .unwrap();
    assert_eq!(buckets.len(), 1);
    assert_eq!(buckets[0].key, "2024031007");
    let (out_dir, out_file) = output_paths("output", &buckets[0].key);
    assert_eq!(out_file, "output/20240310/2024031007.mp4");
    match plan_bucket(&buckets[0], "20250101", &no_artifact()) {
        BucketPlan::Execute(ordered) => {
            let steps = build_merge_steps(&ordered, &out_dir, &out_file);
            assert_eq!(steps.len(), 4);
            assert!(matches!(
                &steps[1],
                MergeStep::WriteFile { content, .. }
                    if content
                        == "file '/in/2024031007/05M02S_2.mp4'\nfile '/in/2024031007/2024031007/07M00S_3.mp4'\nfile '/in/2024031007/30M15S_1.mp4'\n"
            ));
        },
        other => panic!("expected Execute, got {:?}", other),
    }
}

#[test]
fn day_mode_merges_the_day_from_the_same_segments() {
    let buckets = scan_into_buckets("input", &sample_tree(), "2025010100", MergeLevel::Day)
        .unwrap();
    assert_eq!(buckets.len(), 1);
    assert_eq!(buckets[0].key, "20240310");
    let (_, out_file) = output_paths("output", &buckets[0].key);
    assert_eq!(out_file, "output/20240310/20240310.mp4");
    match plan_bucket(&buckets[0], "20250101", &no_artifact()) {
        BucketPlan::Execute(ordered) => {
            let paths: Vec<&str> = ordered.iter().map(|s| s.path.as_str()).collect();
            assert_eq!(
                paths,
                vec![
                    "/in/2024031007/05M02S_2.mp4",
                    "/in/2024031007/2024031007/07M00S_3.mp4",
                    "/in/2024031007/30M15S_1.mp4",
                ]
            );
        },
        other => panic!("expected Execute, got {:?}", other),
    }
}

#[test]
fn on_the_recording_day_nothing_is_merged() {
    for level in [MergeLevel::Hour, MergeLevel::Day] {
        let buckets = scan_into_buckets("input", &sample_tree(), "2025010100", level).unwrap();
        assert_eq!(buckets.len(), 1);
        assert!(matches!(
            plan_bucket(&buckets[0], "20240310", &no_artifact()),
            BucketPlan::SkipToday
        ));
    }
}
