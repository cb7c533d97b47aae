use video_merger::scan::{match_segment_name, scan_tree, FsEntry, ScanError};

fn file(name: &str, path: &str) -> FsEntry {
    FsEntry::File { name: name.to_string(), path: path.to_string() }
}

fn dir(name: &str, entries: Vec<FsEntry>) -> FsEntry {
    FsEntry::Dir { name: name.to_string(), entries }
}

#[test]
fn segment_names_match_the_pattern() {
    assert_eq!(match_segment_name("30M15S_1.mp4"), Some((30, 15)));
    assert_eq!(match_segment_name("05M02S_2.mp4"), Some((5, 2)));
    assert_eq!(match_segment_name("prefix05M02S_2.mp4"), Some((5, 2)));
    assert_eq!(match_segment_name("123M45S_6.mp4"), Some((23, 45)));
    assert_eq!(match_segment_name("99M99S_1.mp4"), Some((99, 99)));
}

#[test]
fn non_segment_names_do_not_match() {
    assert_eq!(match_segment_name("1M23S_4.mp4"), None);
    assert_eq!(match_segment_name("05M02S_.mp4"), None);
    assert_eq!(match_segment_name("05M02S_2.mp4x"), None);
    assert_eq!(match_segment_name("05M02S2.mp4"), None);
    assert_eq!(match_segment_name("05m02S_2.mp4"), None);
    assert_eq!(match_segment_name("05M02S_1_2.mp4"), None);
    assert_eq!(match_segment_name(".mp4"), None);
    assert_eq!(match_segment_name(""), None);
}

#[test]
fn suffix_must_fit_a_signed_64_bit_parse() {
    assert_eq!(match_segment_name("05M02S_9223372036854775807.mp4"), Some((5, 2)));
    assert_eq!(match_segment_name("05M02S_9223372036854775808.mp4"), None);
    assert_eq!(match_segment_name("05M02S_99999999999999999999.mp4"), None);
}

#[test]
fn three_segments_across_nested_buckets() {
    let entries = vec![dir(
        "2024031007",
        vec![
            file("30M15S_1.mp4", "/in/2024031007/30M15S_1.mp4"),
            file("05M02S_2.mp4", "/in/2024031007/05M02S_2.mp4"),
            dir(
                "2024031007",
                vec![file("07M00S_3.mp4", "/in/2024031007/2024031007/07M00S_3.mp4")],
            ),
        ],
    )];
    let segs = scan_tree("input", &entries, "2025010100").unwrap();
    assert_eq!(segs.len(), 3);
    assert!(segs.iter().all(|s| s.bucket_hour == "2024031007"));
    assert_eq!(segs[0].instant, 20240310073015);
    assert_eq!(segs[1].instant, 20240310070502);
    assert_eq!(segs[2].instant, 20240310070700);
    assert_eq!(segs[2].path, "/in/2024031007/2024031007/07M00S_3.mp4");
}

#[test]
fn root_files_take_the_fallback_hour() {
    let entries = vec![file("05M02S_9.mp4", "/in/05M02S_9.mp4")];
    let segs = scan_tree("input", &entries, "2025010112").unwrap();
    assert_eq!(segs.len(), 1);
    assert_eq!(segs[0].bucket_hour, "2025010112");
    assert_eq!(segs[0].instant, 20250101120502);
}

#[test]
fn root_files_take_the_root_bucket_name() {
    let entries = vec![file("05M02S_9.mp4", "/in/05M02S_9.mp4")];
    let segs = scan_tree("2024031007", &entries, "2025010112").unwrap();
    assert_eq!(segs.len(), 1);
    assert_eq!(segs[0].bucket_hour, "2024031007");
}

#[test]
fn malformed_fallback_fails_only_when_used() {
    let entries = vec![file("05M02S_9.mp4", "/in/05M02S_9.mp4")];
    assert_eq!(scan_tree("input", &entries, "oops").unwrap_err(), ScanError::BucketFormat);
    let quiet = vec![file("notes.txt", "/in/notes.txt")];
    assert!(scan_tree("input", &quiet, "oops").unwrap().is_empty());
}

#[test]
fn impossible_calendar_fails_the_scan() {
    let entries = vec![dir(
        "2024139912",
        vec![file("05M02S_9.mp4", "/in/2024139912/05M02S_9.mp4")],
    )];
    assert_eq!(scan_tree("input", &entries, "2025010100").unwrap_err(), ScanError::Timestamp);
}

#[test]
fn non_bucket_directories_are_not_entered() {
    let entries = vec![dir(
        "stuff",
        vec![file("05M02S_9.mp4", "/in/stuff/05M02S_9.mp4")],
    )];
    assert!(scan_tree("input", &entries, "2025010100").unwrap().is_empty());
}
