use std::collections::HashSet;
use std::error::Error;

use lcov_filter::entries::is_summary_line;
use lcov_filter::text::{chars_of, contains_chars, decimal_string, parse_u64, starts_with};
use lcov_filter::{
    compute_excluded_lines_from_content, filter_lcov, filter_lcov_records, format_missing_lines,
    has_missing_lines, parse_brda_line, parse_da_line, process_record, split_records,
    ExclusionCache, Markers, RecordResult, SourceFile, FULL_COVERAGE_MESSAGE,
};

const FIXTURE_CONTENT: &str = r#"pub fn demo(x: i32) -> i32 {
    if x == 0 { return 0; }
    let a = x + 1; // LCOV_EXCL_LINE
    let b = x + 2; // lcov_excl_line
    // LCOV_EXCL_START
    let c = a + b;
    let d = c * 2;
    // LCOV_EXCL_STOP
    // lcov_excl_start
    let e = d + 1;
    // lcov_excl_stop
    e
}"#;

const FIXTURE_PATH: &str = "/tmp/lcov_filter_fixture_demo.rs";

/// The fixture as a source file that was read.
fn fixture_sources() -> Vec<SourceFile> {
    vec![SourceFile {
        path: FIXTURE_PATH.to_string(),
        content: Some(FIXTURE_CONTENT.to_string()),
    }]
}

fn load_fixture_lines() -> Vec<String> {
    FIXTURE_CONTENT
        .lines()
        .map(|line| line.to_string())
        .collect()
}

fn build_lcov_for_path(path: &str) -> String {
    let lines = load_fixture_lines();
    let line_count = lines.len();
    let mut lcov = String::new();
    lcov.push_str("TN:\n");
    lcov.push_str(&format!("SF:{}\n", path));
    lcov.push_str("FN:1,demo\n");
    lcov.push_str("FNDA:1,demo\n");
    for line_no in 1..=line_count {
        lcov.push_str(&format!("DA:{line_no},1\n"));
    }
    lcov.push_str("FNF:1\n");
    lcov.push_str("FNH:1\n");
    lcov.push_str(&format!("LF:{line_count}\n"));
    lcov.push_str(&format!("LH:{line_count}\n"));
    lcov.push_str("end_of_record\n");
    lcov
}

fn build_lcov_for_path_with_misses(path: &str, misses: &HashSet<usize>) -> String {
    let lines = load_fixture_lines();
    let line_count = lines.len();
    let mut lcov = String::new();
    lcov.push_str("TN:\n");
    lcov.push_str(&format!("SF:{}\n", path));
    lcov.push_str("FN:1,demo\n");
    lcov.push_str("FNDA:1,demo\n");
    for line_no in 1..=line_count {
        let hits = if misses.contains(&line_no) { 0 } else { 1 };
        lcov.push_str(&format!("DA:{line_no},{hits}\n"));
    }
    lcov.push_str("FNF:1\n");
    lcov.push_str("FNH:1\n");
    lcov.push_str(&format!("LF:{line_count}\n"));
    lcov.push_str(&format!("LH:{line_count}\n"));
    lcov.push_str("end_of_record\n");
    lcov
}

fn compute_expected_excluded(lines: &[String], markers: &Markers) -> HashSet<usize> {
    let mut excluded = HashSet::new();
    let mut in_block = false;

    for (idx, line) in lines.iter().enumerate() {
        let line_no = idx + 1;
        let has_line = !markers.line.is_empty() && line.contains(&markers.line);
        let has_start = !markers.start.is_empty() && line.contains(&markers.start);
        let has_stop = !markers.stop.is_empty() && line.contains(&markers.stop);

        if has_line {
            excluded.insert(line_no);
        }
        if in_block || has_start {
            excluded.insert(line_no);
        }
        if has_start {
            in_block = true;
        }
        if has_stop {
            excluded.insert(line_no);
            in_block = false;
        }
    }

    excluded
}

fn extract_da_lines(output: &str) -> HashSet<usize> {
    output
        .lines()
        .filter_map(|line| parse_da_line(line).map(|(line_no, _)| line_no))
        .collect()
}

fn extract_summary_value(output: &str, key: &str) -> usize {
    output
        .lines()
        .find_map(|line| line.strip_prefix(key))
        .and_then(|value| value.parse::<usize>().ok())
        .unwrap_or(0)
}

fn strings(lines: &[&str]) -> Vec<String> {
    lines.iter().map(|line| line.to_string()).collect()
}

#[test]
fn test_format_missing_lines_with_text_output() -> Result<(), Box<dyn Error>> {
    let fixture_lines = load_fixture_lines();
    let markers = Markers::default();
    let excluded = compute_expected_excluded(&fixture_lines, &markers);
    let mut misses = HashSet::new();
    for line_no in 1..=fixture_lines.len() {
        if !excluded.contains(&line_no) {
            misses.insert(line_no);
            if misses.len() == 2 {
                break;
            }
        }
    }

    let input = build_lcov_for_path_with_misses(FIXTURE_PATH, &misses);
    let records = filter_lcov_records(&input, &markers, &fixture_sources());
    let output = format_missing_lines(&records, None);
    let mut expected_missing: Vec<usize> = misses
        .into_iter()
        .filter(|line_no| !excluded.contains(line_no))
        .collect();
    expected_missing.sort_unstable();

    let expected_line = format!(
        "{}: {}",
        FIXTURE_PATH,
        expected_missing
            .iter()
            .map(|line| line.to_string())
            .collect::<Vec<_>>()
            .join(", ")
    );

    assert_eq!(
        output.trim(),
        format!(
            "Missing Lines ({})\n{expected_line}",
            expected_missing.len()
        )
    );
    Ok(())
}

#[test]
fn test_filter_lcov_when_default_markers_then_filters_case_sensitive() -> Result<(), Box<dyn Error>>
{
    let output = filter_lcov(
        &build_lcov_for_path(FIXTURE_PATH),
        &Markers::default(),
        &fixture_sources(),
    );
    let fixture_lines = load_fixture_lines();
    let expected = compute_expected_excluded(&fixture_lines, &Markers::default());
    let da_lines = extract_da_lines(&output);

    for line_no in &expected {
        assert!(
            !da_lines.contains(line_no),
            "line {line_no} should be excluded"
        );
    }

    let lower_marker_line = fixture_lines
        .iter()
        .enumerate()
        .find(|(_, line)| line.contains("lcov_excl_line"))
        .map(|(idx, _)| idx + 1)
        .ok_or_else(|| std::io::Error::other("lowercase marker line should exist"))?;
    assert!(da_lines.contains(&lower_marker_line));
    assert_eq!(
        extract_summary_value(&output, "LF:"),
        fixture_lines.len() - expected.len()
    );
    assert_eq!(
        extract_summary_value(&output, "LH:"),
        fixture_lines.len() - expected.len()
    );
    Ok(())
}

#[test]
fn test_filter_lcov_with_custom_lowercase_markers() -> Result<(), Box<dyn Error>> {
    let markers = Markers {
        line: "lcov_excl_line".to_string(),
        start: "lcov_excl_start".to_string(),
        stop: "lcov_excl_stop".to_string(),
    };

    let output = filter_lcov(&build_lcov_for_path(FIXTURE_PATH), &markers, &fixture_sources());
    let fixture_lines = load_fixture_lines();
    let expected = compute_expected_excluded(&fixture_lines, &markers);
    let da_lines = extract_da_lines(&output);

    for line_no in &expected {
        assert!(
            !da_lines.contains(line_no),
            "line {line_no} should be excluded"
        );
    }

    let upper_marker_line = fixture_lines
        .iter()
        .enumerate()
        .find(|(_, line)| line.contains("LCOV_EXCL_LINE"))
        .map(|(idx, _)| idx + 1)
        .ok_or_else(|| std::io::Error::other("uppercase marker line should exist"))?;
    assert!(da_lines.contains(&upper_marker_line));
    assert_eq!(
        extract_summary_value(&output, "LF:"),
        fixture_lines.len() - expected.len()
    );
    assert_eq!(
        extract_summary_value(&output, "LH:"),
        fixture_lines.len() - expected.len()
    );
    Ok(())
}

#[test]
fn test_compute_excluded_lines_from_content_with_line_and_block_markers() {
    let excluded = compute_excluded_lines_from_content(FIXTURE_CONTENT, &Markers::default());

    assert!(excluded.contains(&3));
    assert!(excluded.contains(&5));
    assert!(excluded.contains(&6));
    assert!(excluded.contains(&7));
    assert!(excluded.contains(&8));
    assert!(!excluded.contains(&4));
}

#[test]
fn test_split_records_when_end_of_record_is_missing() {
    let records = split_records("TN:\nSF:/test.rs\nDA:1,1");

    assert_eq!(records.len(), 1);
    assert!(records[0].contains(&"end_of_record".to_string()));
}

#[test]
fn test_parse_brda_line_with_valid_and_invalid_input() -> Result<(), Box<dyn Error>> {
    let Some((line_no, block, branch, taken)) = parse_brda_line("BRDA:10,0,0,1") else {
        return Err(std::io::Error::other("BRDA line should parse").into());
    };

    assert_eq!(line_no, 10);
    assert_eq!(block, "0");
    assert_eq!(branch, "0");
    assert_eq!(taken, "1");
    assert!(parse_brda_line("BRDA:invalid").is_none());
    assert!(parse_brda_line("DA:1,1").is_none());
    Ok(())
}

#[test]
fn test_process_record_when_sf_line_is_missing() {
    let cache = ExclusionCache::new(&[], &Markers::default());
    let record = vec![
        "TN:".to_string(),
        "DA:1,1".to_string(),
        "end_of_record".to_string(),
    ];

    let result = process_record(&record, &cache);

    assert!(result.source_path.is_none());
    assert_eq!(result.lines, record);
}

#[test]
fn test_process_record_when_source_is_unreadable() {
    let sources = vec![SourceFile {
        path: "/nonexistent/path/to/file.rs".to_string(),
        content: None,
    }];
    let cache = ExclusionCache::new(&sources, &Markers::default());
    let record = vec![
        "TN:".to_string(),
        "SF:/nonexistent/path/to/file.rs".to_string(),
        "DA:1,0".to_string(),
        "DA:2,1".to_string(),
        "end_of_record".to_string(),
    ];

    let result = process_record(&record, &cache);

    assert!(result.source_path.is_some());
    assert_eq!(result.missing_lines, vec![1]);
}

#[test]
fn test_process_record_with_brda_lines() -> Result<(), Box<dyn Error>> {
    let cache = ExclusionCache::new(&fixture_sources(), &Markers::default());
    let record = vec![
        "TN:".to_string(),
        format!("SF:{}", FIXTURE_PATH),
        "FN:1,demo".to_string(),
        "FNDA:1,demo".to_string(),
        "DA:1,1".to_string(),
        "DA:2,1".to_string(),
        "BRDA:1,0,0,1".to_string(),
        "BRDA:2,0,0,-".to_string(),
        "BRF:2".to_string(),
        "BRH:1".to_string(),
        "end_of_record".to_string(),
    ];

    let result = process_record(&record, &cache);
    let output = result.lines.join("\n");

    assert!(output.contains("BRF:"));
    assert!(output.contains("BRH:"));
    Ok(())
}

#[test]
fn test_process_record_with_malformed_lines() -> Result<(), Box<dyn Error>> {
    let cache = ExclusionCache::new(&fixture_sources(), &Markers::default());
    let record = vec![
        "TN:".to_string(),
        format!("SF:{}", FIXTURE_PATH),
        "FN:invalid".to_string(),
        "FNDA:invalid".to_string(),
        "DA:invalid".to_string(),
        "BRDA:invalid".to_string(),
        "end_of_record".to_string(),
    ];

    let result = process_record(&record, &cache);
    let output = result.lines.join("\n");

    assert!(output.contains("FN:invalid"));
    assert!(output.contains("FNDA:invalid"));
    assert!(output.contains("DA:invalid"));
    assert!(output.contains("BRDA:invalid"));
    Ok(())
}

#[test]
fn test_format_missing_lines_without_source_path() {
    let records = vec![RecordResult {
        lines: vec!["TN:".to_string()],
        source_path: None,
        missing_lines: vec![1, 2, 3],
    }];

    assert_eq!(format_missing_lines(&records, None), FULL_COVERAGE_MESSAGE);
}

#[test]
fn test_format_missing_lines_with_empty_missing_lines() {
    let records = vec![RecordResult {
        lines: vec!["TN:".to_string()],
        source_path: Some("/test.rs".to_string()),
        missing_lines: vec![],
    }];

    assert_eq!(format_missing_lines(&records, None), FULL_COVERAGE_MESSAGE);
}

#[test]
fn test_format_missing_lines_with_empty_records() {
    let records = Vec::new();

    assert_eq!(format_missing_lines(&records, None), FULL_COVERAGE_MESSAGE);
}

#[test]
fn test_format_missing_lines_with_grep() {
    let records = sample_missing_records();

    let output = format_missing_lines(&records, Some("crate_a"));
    assert!(output.starts_with("Missing Lines (2)"));
    assert!(output.contains("crate_a"));
    assert!(!output.contains("crate_b"));
    assert!(!output.contains("crate_c"));

    let output = format_missing_lines(&records, Some("crate_b"));
    assert!(output.starts_with("Missing Lines (2)"));
    assert!(!output.contains("crate_a"));
    assert!(output.contains("crate_b"));
    assert!(!output.contains("crate_c"));

    let output = format_missing_lines(&records, None);
    assert!(output.starts_with("Missing Lines (5)"));
}

#[test]
fn test_format_missing_lines_when_grep_has_no_matches() {
    let records = vec![RecordResult {
        lines: vec![],
        source_path: Some("/project/crates/crate_a/src/lib.rs".to_string()),
        missing_lines: vec![10, 20],
    }];

    assert_eq!(
        format_missing_lines(&records, Some("missing_crate")),
        FULL_COVERAGE_MESSAGE
    );
}

#[test]
fn test_format_missing_lines_when_grep_match_has_no_missing_lines() {
    let records = vec![
        RecordResult {
            lines: vec![],
            source_path: Some("/project/crates/crate_a/src/lib.rs".to_string()),
            missing_lines: vec![],
        },
        RecordResult {
            lines: vec![],
            source_path: Some("/project/crates/crate_b/src/lib.rs".to_string()),
            missing_lines: vec![30, 40],
        },
    ];

    assert_eq!(
        format_missing_lines(&records, Some("crate_a")),
        FULL_COVERAGE_MESSAGE
    );
}

#[test]
fn test_has_missing_lines_with_grep() {
    let records = vec![RecordResult {
        lines: vec![],
        source_path: Some("/project/crates/crate_a/src/lib.rs".to_string()),
        missing_lines: vec![10, 20],
    }];

    assert!(has_missing_lines(&records, None));
    assert!(has_missing_lines(&records, Some("crate_a")));
    assert!(!has_missing_lines(&records, Some("crate_b")));
}

#[test]
fn test_has_missing_lines_when_source_path_is_none() {
    let records = vec![RecordResult {
        lines: vec![],
        source_path: None,
        missing_lines: vec![10, 20],
    }];

    assert!(!has_missing_lines(&records, None));
}

fn sample_missing_records() -> Vec<RecordResult> {
    vec![
        RecordResult {
            lines: vec![],
            source_path: Some("/project/crates/crate_a/src/lib.rs".to_string()),
            missing_lines: vec![10, 20],
        },
        RecordResult {
            lines: vec![],
            source_path: Some("/project/crates/crate_b/src/lib.rs".to_string()),
            missing_lines: vec![30, 40],
        },
        RecordResult {
            lines: vec![],
            source_path: Some("/project/crates/crate_c/src/lib.rs".to_string()),
            missing_lines: vec![50],
        },
    ]
}

// ------------------------------------------------------------------
// Further cases
// ------------------------------------------------------------------

#[test]
fn test_filter_lcov_exact_output_for_fixture() {
    let input = "TN:\nSF:/src/demo.rs\nFN:3,hidden\nFN:4,shown\nFNDA:5,hidden\nFNDA:0,shown\nDA:3,1\nDA:4,0\nBRDA:3,0,0,1\nBRDA:4,0,0,2\nBRDA:4,0,1,-\nLF:2\nLH:1\nend_of_record\n";
    let sources = vec![SourceFile {
        path: "/src/demo.rs".to_string(),
        content: Some(FIXTURE_CONTENT.to_string()),
    }];
    let output = filter_lcov(input, &Markers::default(), &sources);
    assert_eq!(
        output,
        "TN:\nSF:/src/demo.rs\nFN:4,shown\nFNDA:0,shown\nDA:4,0\nBRDA:4,0,0,2\nBRDA:4,0,1,-\nFNF:1\nFNH:0\nBRF:2\nBRH:1\nLF:1\nLH:0\nend_of_record\n"
    );
}

#[test]
fn test_filter_lcov_of_empty_input_is_one_newline() {
    assert_eq!(filter_lcov("", &Markers::default(), &[]), "\n");
}

#[test]
fn test_filter_lcov_keeps_record_without_source() {
    let output = filter_lcov("TN:\nDA:1,0\nLF:1\n", &Markers::default(), &[]);
    assert_eq!(output, "TN:\nDA:1,0\nLF:1\nend_of_record\n");
}

#[test]
fn test_filter_lcov_records_missing_lines_are_zero_hit_lines() {
    let input = "SF:/src/demo.rs\nDA:2,0\nDA:3,0\nDA:4,0\nDA:12,3\nend_of_record\n";
    let sources = vec![SourceFile {
        path: "/src/demo.rs".to_string(),
        content: Some(FIXTURE_CONTENT.to_string()),
    }];
    let records = filter_lcov_records(input, &Markers::default(), &sources);
    assert_eq!(records.len(), 1);
    assert_eq!(records[0].missing_lines, vec![2, 4]);
    assert_eq!(records[0].source_path, Some("/src/demo.rs".to_string()));
}

#[test]
fn test_trim_start_matches_repeated_sf_prefix() {
    let cache = ExclusionCache::new(&[], &Markers::default());
    let record = strings(&["SF:SF:/x.rs", "end_of_record"]);
    let result = process_record(&record, &cache);
    assert_eq!(result.source_path, Some("/x.rs".to_string()));
}

#[test]
fn test_unreadable_source_keeps_lines_and_reports_zero_hits() {
    let record = strings(&["SF:/gone.rs", "DA:7,0", "DA:8,2", "DA:9,0", "end_of_record"]);
    let result = lcov_filter::process_unreadable_source_record(&record, "/gone.rs".to_string());
    assert_eq!(result.lines, record);
    assert_eq!(result.missing_lines, vec![7, 9]);
}

#[test]
fn test_empty_markers_exclude_nothing() {
    let markers = Markers {
        line: String::new(),
        start: String::new(),
        stop: String::new(),
    };
    let excluded = compute_excluded_lines_from_content(FIXTURE_CONTENT, &markers);
    assert!(excluded.is_empty());
}

#[test]
fn test_block_without_stop_runs_to_end() {
    let content = "a\nLCOV_EXCL_START\nb\nc";
    let excluded = compute_excluded_lines_from_content(content, &Markers::default());
    let mut lines: Vec<usize> = excluded.into_iter().collect();
    lines.sort_unstable();
    assert_eq!(lines, vec![2, 3, 4]);
}

#[test]
fn test_crlf_lines_are_numbered_like_str_lines() {
    let content = "x\r\nLCOV_EXCL_LINE\r\ny\r\n";
    let excluded = compute_excluded_lines_from_content(content, &Markers::default());
    assert!(excluded.contains(&2));
    assert!(!excluded.contains(&1));
    assert!(!excluded.contains(&3));
    assert!(!excluded.contains(&4));
}

#[test]
fn test_parse_da_line_cases() {
    assert_eq!(parse_da_line("DA:12,3"), Some((12, 3)));
    assert_eq!(parse_da_line("DA:12,3,checksum"), Some((12, 3)));
    assert_eq!(parse_da_line("DA:+5,0"), Some((5, 0)));
    assert_eq!(parse_da_line("DA:12"), None);
    assert_eq!(parse_da_line("DA:-1,0"), None);
    assert_eq!(parse_da_line("DA:1,18446744073709551616"), None);
    assert_eq!(parse_da_line("DA:1,18446744073709551615"), Some((1, u64::MAX)));
    assert_eq!(parse_da_line("BRDA:1,2"), None);
}

#[test]
fn test_parse_fn_and_fnda_lines() {
    assert_eq!(lcov_filter::parse_fn_line("FN:3,a,b"), Some((3, "a,b")));
    assert_eq!(lcov_filter::parse_fn_line("FN:3"), None);
    assert_eq!(lcov_filter::parse_fnda_line("FNDA:0,main"), Some((0, "main")));
    assert_eq!(lcov_filter::parse_fnda_line("FNDA:x,main"), None);
}

#[test]
fn test_is_summary_line() {
    assert!(is_summary_line("LF:3"));
    assert!(is_summary_line("BRH:0"));
    assert!(is_summary_line("FNF:1"));
    assert!(!is_summary_line("FN:1,f"));
    assert!(!is_summary_line("DA:1,1"));
}

#[test]
fn test_format_missing_lines_sorts_numbers() {
    let records = vec![RecordResult {
        lines: vec![],
        source_path: Some("/a.rs".to_string()),
        missing_lines: vec![30, 4, 17, 4],
    }];
    assert_eq!(
        format_missing_lines(&records, None),
        "Missing Lines (4)\n/a.rs: 4, 4, 17, 30\n"
    );
}

#[test]
fn test_has_missing_lines_agrees_with_report() {
    let records = sample_missing_records();
    for grep in [None, Some("crate_a"), Some("crate_x")] {
        assert_eq!(
            has_missing_lines(&records, grep),
            format_missing_lines(&records, grep) != FULL_COVERAGE_MESSAGE
        );
    }
}

#[test]
fn test_source_paths_are_distinct_and_in_order() {
    let input = "SF:/b.rs\nend_of_record\nSF:/a.rs\nend_of_record\nTN:\nend_of_record\nSF:/b.rs\nend_of_record\n";
    assert_eq!(
        lcov_filter::source_paths(input),
        vec!["/b.rs".to_string(), "/a.rs".to_string()]
    );
    assert_eq!(
        lcov_filter::record_source_of(&strings(&["TN:", "SF:/c.rs"])),
        Some("/c.rs".to_string())
    );
}

#[test]
fn test_decimal_and_parse_round_trip() {
    for n in [0u64, 7, 10, 99, 1000, u64::MAX] {
        let s = decimal_string(n as u128);
        assert_eq!(s, n.to_string());
        assert_eq!(parse_u64(&chars_of(&s)), Some(n));
    }
}

#[test]
fn test_contains_and_starts_with_chars() {
    assert!(contains_chars(&chars_of("abcabd"), &chars_of("abd")));
    assert!(!contains_chars(&chars_of("abc"), &chars_of("abcd")));
    assert!(contains_chars(&chars_of("abc"), &chars_of("")));
    assert!(starts_with(&chars_of("FNDA:1"), &chars_of("FNDA:")));
    assert!(!starts_with(&chars_of("FN"), &chars_of("FN:")));
}

#[test]
fn test_spellings_of_one_path_share_its_source() {
    let input = "SF:/src/demo.rs\nDA:3,1\nDA:4,0\nend_of_record\nSF:/src//./demo.rs/\nDA:3,1\nDA:4,0\nend_of_record\n";
    let sources = vec![SourceFile {
        path: "/src/demo.rs".to_string(),
        content: Some(FIXTURE_CONTENT.to_string()),
    }];
    let records = filter_lcov_records(input, &Markers::default(), &sources);
    assert_eq!(records.len(), 2);
    assert_eq!(
        records[0].lines,
        strings(&["SF:/src/demo.rs", "DA:4,0", "LF:1", "LH:0", "end_of_record"])
    );
    assert_eq!(
        records[1].lines,
        strings(&["SF:/src//./demo.rs/", "DA:4,0", "LF:1", "LH:0", "end_of_record"])
    );
    assert_eq!(records[1].missing_lines, vec![4]);
    assert_eq!(
        records[1].source_path,
        Some("/src//./demo.rs/".to_string())
    );
    assert_eq!(
        lcov_filter::source_paths(input),
        vec!["/src/demo.rs".to_string()]
    );
    assert_eq!(
        lcov_filter::source_paths("SF:x.rs\nend_of_record\nSF:./x.rs\nend_of_record\n"),
        vec!["x.rs".to_string(), "./x.rs".to_string()]
    );
}

#[test]
fn test_function_lines_follow_their_declarations() {
    // Line 3 of the fixture is excluded, line 4 is not.
    let input = "SF:/src/demo.rs\nFN:3,twice\nFN:4,twice\nFN:3,gone\nFNDA:2,twice\nFNDA:1,gone\nFNDA:1,nowhere\nFN:bad\nFNDA:bad\nTN:\nend_of_record\n";
    let sources = vec![SourceFile {
        path: "/src/demo.rs".to_string(),
        content: Some(FIXTURE_CONTENT.to_string()),
    }];
    let records = filter_lcov_records(input, &Markers::default(), &sources);
    assert_eq!(
        records[0].lines,
        strings(&[
            "SF:/src/demo.rs",
            "FN:3,twice",
            "FN:4,twice",
            "FNDA:2,twice",
            "FN:bad",
            "FNDA:bad",
            "TN:",
            "FNF:1",
            "FNH:1",
            "end_of_record",
        ])
    );
}
