use lcov_filter::cli::{next_value, parse_args_from, render_output, set_mode, value_after_equals, Args};
use lcov_filter::{Markers, OutputMode, SourceFile};

fn parse(args: &[&str]) -> Result<Args, String> {
    parse_args_from("lcov_filter", args.iter().map(|arg| arg.to_string()).collect())
}

#[test]
fn test_parse_args_from_when_default_then_lcov_mode() -> Result<(), String> {
    let args = parse(&[])?;

    assert_eq!(args.mode, OutputMode::Lcov);
    assert_eq!(args.grep, None);
    assert_eq!(args.markers, Markers::default());
    Ok(())
}

#[test]
fn test_parse_args_from_with_text_and_grep() -> Result<(), String> {
    let args = parse(&["--text", "--grep", "crate_a"])?;

    assert_eq!(args.mode, OutputMode::Text);
    assert_eq!(args.grep, Some("crate_a".to_string()));
    Ok(())
}

#[test]
fn test_parse_args_from_with_custom_markers() -> Result<(), String> {
    let args = parse(&[
        "--marker-line=IGNORE_LINE",
        "--marker-start",
        "IGNORE_START",
        "--marker-stop",
        "IGNORE_STOP",
    ])?;

    assert_eq!(args.markers.line, "IGNORE_LINE");
    assert_eq!(args.markers.start, "IGNORE_START");
    assert_eq!(args.markers.stop, "IGNORE_STOP");
    Ok(())
}

#[test]
fn test_parse_args_from_when_modes_conflict_then_error() -> Result<(), String> {
    let err = parse(&["--lcov", "--text"])
        .err()
        .ok_or_else(|| "conflicting output modes should fail".to_string())?;

    assert_eq!(err, "Cannot use --lcov and --text together");
    Ok(())
}

fn sample_source() -> Vec<SourceFile> {
    vec![SourceFile {
        path: "/tmp/lcov_filter_cli_sample.rs".to_string(),
        content: Some("fn sample() {}\n".to_string()),
    }]
}

fn build_lcov(path: &str, hits: u64) -> String {
    let lh = if hits == 0 { 0 } else { 1 };
    format!("TN:\nSF:{}\nDA:1,{hits}\nLF:1\nLH:{lh}\nend_of_record\n", path)
}

#[test]
fn test_text_mode_exit_code_when_missing_lines() -> Result<(), String> {
    let args = parse(&["--text"])?;
    let path = "/tmp/lcov_filter_cli_sample.rs";
    let (output, should_fail) = render_output(&build_lcov(path, 0), &args, &sample_source());

    assert_eq!(output, format!("Missing Lines (1)\n{}: 1\n", path));
    assert!(should_fail);
    Ok(())
}

#[test]
fn test_text_mode_exit_code_when_full_coverage() -> Result<(), String> {
    let args = parse(&["--text"])?;
    let path = "/tmp/lcov_filter_cli_sample.rs";
    let (output, should_fail) = render_output(&build_lcov(path, 1), &args, &sample_source());

    assert_eq!(output, "100% coverage\n");
    assert!(!should_fail);
    Ok(())
}

#[test]
fn test_lcov_mode_never_fails() -> Result<(), String> {
    let args = parse(&[])?;
    let path = "/tmp/lcov_filter_cli_sample.rs";
    let (output, should_fail) = render_output(&build_lcov(path, 0), &args, &sample_source());

    assert_eq!(
        output,
        format!("TN:\nSF:{}\nDA:1,0\nLF:1\nLH:0\nend_of_record\n", path)
    );
    assert!(!should_fail);
    Ok(())
}

#[test]
fn test_parse_args_errors() {
    assert_eq!(parse(&["--help"]).err(), Some(String::new()));
    assert_eq!(parse(&["-h"]).err(), Some(String::new()));
    assert_eq!(
        parse(&["--grep"]).err(),
        Some("--grep requires a value".to_string())
    );
    assert_eq!(
        parse(&["--bogus"]).err(),
        Some("Unknown option: --bogus".to_string())
    );
    assert_eq!(
        parse(&["file.info"]).err(),
        Some("Unexpected positional argument (stdin only)".to_string())
    );
    assert!(parse(&["--text", "--text"]).is_ok());
}

#[test]
fn test_parse_args_grep_with_equals() -> Result<(), String> {
    let args = parse(&["--grep=a=b", "--text"])?;
    assert_eq!(args.grep, Some("a=b".to_string()));
    assert_eq!(args.mode, OutputMode::Text);
    Ok(())
}

#[test]
fn test_set_mode_and_helpers() {
    let mut mode = OutputMode::Lcov;
    let mut explicit = Some(OutputMode::Lcov);
    assert!(set_mode(&mut mode, &mut explicit, OutputMode::Text).is_err());
    assert_eq!(mode, OutputMode::Lcov);
    assert!(set_mode(&mut mode, &mut explicit, OutputMode::Lcov).is_ok());

    let args = vec!["--grep".to_string(), "x".to_string()];
    assert_eq!(next_value(&args, 0, "--grep"), Ok("x".to_string()));
    assert_eq!(
        next_value(&args, 1, "--grep"),
        Err("--grep requires a value".to_string())
    );
    assert_eq!(value_after_equals("--marker-line=A=B"), "A=B");
    assert_eq!(value_after_equals("none"), "");
}

#[test]
fn test_equals_form_reads_as_separate_value() {
    for option in ["--grep", "--marker-line", "--marker-start", "--marker-stop"] {
        for value in ["a=b", "", "X"] {
            let joined = format!("{option}={value}");
            assert_eq!(
                parse(&["--text", &joined, "--lcov"]),
                parse(&["--text", option, value, "--lcov"])
            );
            assert_eq!(parse(&[&joined]), parse(&[option, value]));
        }
    }
    let args = parse(&["--grep=a=b"]).unwrap();
    assert_eq!(args.grep, Some("a=b".to_string()));
}
