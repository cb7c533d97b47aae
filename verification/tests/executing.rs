use video_merger::exec::{build_manifest, build_merge_steps, manifest_path, output_paths, MergeStep};
use video_merger::scan::Segment;

fn seg(path: &str, hour: &str, instant: u64) -> Segment {
    Segment { path: path.to_string(), bucket_hour: hour.to_string(), instant }
}

#[test]
fn output_paths_follow_the_layout() {
    let (dir, file) = output_paths("output", "2024031007");
    assert_eq!(dir, "output/20240310");
    assert_eq!(file, "output/20240310/2024031007.mp4");
    let (dir, file) = output_paths("output", "20240310");
    assert_eq!(dir, "output/20240310");
    assert_eq!(file, "output/20240310/20240310.mp4");
}

#[test]
fn manifest_sits_beside_the_output() {
    assert_eq!(
        manifest_path("output/20240310/2024031007.mp4"),
        "output/20240310/2024031007.txt"
    );
}

#[test]
fn manifest_lists_paths_in_order() {
    let segs = vec![
        seg("/in/05M02S_2.mp4", "2024031007", 20240310070502),
        seg("/in/07M00S_3.mp4", "2024031007", 20240310070700),
    ];
    assert_eq!(
        build_manifest(&segs),
        "file '/in/05M02S_2.mp4'\nfile '/in/07M00S_3.mp4'\n"
    );
    assert_eq!(build_manifest(&Vec::new()), "");
}

#[test]
fn single_segment_is_copied_verbatim() {
    let segs = vec![seg("/in/05M02S_2.mp4", "2024031007", 20240310070502)];
    let steps = build_merge_steps(&segs, "output/20240310", "output/20240310/2024031007.mp4");
    assert_eq!(steps.len(), 2);
    assert!(matches!(&steps[0], MergeStep::EnsureDir { dir } if dir == "output/20240310"));
    assert!(matches!(
        &steps[1],
        MergeStep::CopyFile { source, dest }
            if source == "/in/05M02S_2.mp4" && dest == "output/20240310/2024031007.mp4"
    ));
}

#[test]
fn several_segments_concatenate_through_a_manifest() {
    let segs = vec![
        seg("/in/05M02S_2.mp4", "2024031007", 20240310070502),
        seg("/in/07M00S_3.mp4", "2024031007", 20240310070700),
        seg("/in/30M15S_1.mp4", "2024031007", 20240310073015),
    ];
    let steps = build_merge_steps(&segs, "output/20240310", "output/20240310/2024031007.mp4");
    assert_eq!(steps.len(), 4);
    assert!(matches!(&steps[0], MergeStep::EnsureDir { dir } if dir == "output/20240310"));
    assert!(matches!(
        &steps[1],
        MergeStep::WriteFile { path, content }
            if path == "output/20240310/2024031007.txt"
                && content
                    == "file '/in/05M02S_2.mp4'\nfile '/in/07M00S_3.mp4'\nfile '/in/30M15S_1.mp4'\n"
    ));
    assert!(matches!(
        &steps[2],
        MergeStep::RunConcatTool { manifest, output }
            if manifest == "output/20240310/2024031007.txt"
                && output == "output/20240310/2024031007.mp4"
    ));
    assert!(matches!(
        &steps[3],
        MergeStep::RemoveFile { path } if path == "output/20240310/2024031007.txt"
    ));
}

#[test]
fn every_written_manifest_is_removed_last() {
    let segs = vec![
        seg("a.mp4", "2024031007", 1),
        seg("b.mp4", "2024031007", 2),
    ];
    let steps = build_merge_steps(&segs, "out/20240310", "out/20240310/2024031007.mp4");
    let written: Vec<&String> = steps
        .iter()
        .filter_map(|s| match s {
            MergeStep::WriteFile { path, .. } => Some(path),
            _ => None,
        })
        .collect();
    assert_eq!(written.len(), 1);
    assert!(matches!(
        steps.last().unwrap(),
        MergeStep::RemoveFile { path } if &path == written.last().unwrap()
    ));
}
