use parser_chunker::cli::{
    argfile_lines, argfile_path, expand_argfile, Cli, LogLevel, PathState, ProcessingMode,
};

fn make_cli() -> Cli {
    let mut cli = Cli::default();
    cli.input = Some(".".to_string());
    cli.output = Some("out".to_string());
    cli
}

#[test]
fn test_validate_all_defaults_ok() {
    let cli = make_cli();
    assert!(cli.validate(PathState::File).is_ok());
}

#[test]
fn test_validate_overlap_exceeds_max_tokens() {
    let mut cli = make_cli();
    cli.overlap = 600;
    cli.max_tokens = 512;
    let errs = cli.validate(PathState::File).unwrap_err();
    assert!(errs.iter().any(|e| e.contains("--overlap")));
    assert_eq!(
        errs,
        vec!["--overlap (600) must be less than --max-tokens (512). Overlap >= max_tokens produces degenerate chunks."]
    );
}

#[test]
fn test_validate_workers_zero() {
    let mut cli = make_cli();
    cli.workers = Some(0);
    let errs = cli.validate(PathState::File).unwrap_err();
    assert!(errs.iter().any(|e| e.contains("--workers")));
}

#[test]
fn test_validate_gpu_fast_mode() {
    let mut cli = make_cli();
    cli.gpu = true;
    cli.mode = ProcessingMode::Fast;
    let errs = cli.validate(PathState::File).unwrap_err();
    assert!(errs.iter().any(|e| e.contains("--gpu")));
}

#[test]
fn test_validate_config_nonexistent() {
    let mut cli = make_cli();
    cli.config = Some("/nonexistent/path.toml".to_string());
    let errs = cli.validate(PathState::Missing).unwrap_err();
    assert!(errs.iter().any(|e| e.contains("--config")));
    assert_eq!(errs, vec!["--config path does not exist: /nonexistent/path.toml"]);
}

#[test]
fn config_directory_is_not_a_file() {
    let mut cli = make_cli();
    cli.config = Some("/tmp".to_string());
    let errs = cli.validate(PathState::NotAFile).unwrap_err();
    assert_eq!(errs, vec!["--config path is not a file: /tmp"]);
}

#[test]
fn test_validate_multiple_errors() {
    let mut cli = make_cli();
    cli.overlap = 600;
    cli.max_tokens = 512;
    cli.workers = Some(0);
    let errs = cli.validate(PathState::File).unwrap_err();
    assert!(errs.len() >= 2, "Expected multiple errors, got {}", errs.len());
}

#[test]
fn test_validate_input_required() {
    let mut cli = Cli::default();
    cli.output = Some("out".to_string());
    let errs = cli.validate(PathState::File).unwrap_err();
    assert!(errs.iter().any(|e| e.contains("--input")));
}

#[test]
fn debug_output_without_debug_is_reported() {
    let mut cli = make_cli();
    cli.debug_output = "./elsewhere/".to_string();
    let errs = cli.validate(PathState::File).unwrap_err();
    assert_eq!(errs.len(), 1);
    assert!(errs[0].starts_with("--debug-output is set"));
    cli.debug = true;
    assert!(cli.validate(PathState::File).is_ok());
}

#[test]
fn debug_output_same_path_other_spelling_is_default() {
    let mut cli = make_cli();
    cli.debug_output = "./parser-chunker-debug".to_string();
    assert!(cli.validate(PathState::File).is_ok());
}

#[test]
fn log_level_filters() {
    assert_eq!(LogLevel::Error.as_tracing_filter(), "error");
    assert_eq!(LogLevel::Warn.as_tracing_filter(), "warn");
    assert_eq!(LogLevel::Info.as_tracing_filter(), "info");
    assert_eq!(LogLevel::Debug.as_tracing_filter(), "debug");
    assert_eq!(LogLevel::Trace.as_tracing_filter(), "trace");
}

#[test]
fn test_argfile_expansion_lines() {
    let contents = "# comment\n--input\n./docs\n\n--output\n./out\n";
    assert_eq!(argfile_lines(contents), vec!["--input", "./docs", "--output", "./out"]);
}

#[test]
fn argfile_lines_are_trimmed() {
    assert_eq!(argfile_lines("  --gpu  \r\n\t# note\n"), vec!["--gpu"]);
}

#[test]
fn argfile_path_strips_at() {
    assert_eq!(argfile_path("@args.txt"), Some("args.txt".to_string()));
    assert_eq!(argfile_path("--input"), None);
}

fn strings(v: &[&str]) -> Vec<String> {
    v.iter().map(|s| s.to_string()).collect()
}

#[test]
fn test_argfile_expansion() {
    let args = strings(&["parser-chunker", "@args.txt"]);
    let reads = vec![
        None,
        Some(Ok("# comment\n--input\n./docs\n\n--output\n./out\n".to_string())),
    ];
    let expanded = expand_argfile(&args, &reads).unwrap();
    assert_eq!(expanded, vec!["parser-chunker", "--input", "./docs", "--output", "./out"]);
}

#[test]
fn test_argfile_missing_file() {
    let args = strings(&["parser-chunker", "@/nonexistent/file.txt"]);
    let reads = vec![None, Some(Err("No such file or directory (os error 2)".to_string()))];
    let err = expand_argfile(&args, &reads).unwrap_err();
    assert_eq!(
        err,
        "Failed to read argfile '/nonexistent/file.txt': No such file or directory (os error 2)"
    );
}

#[test]
fn test_argfile_no_at_args() {
    let args = strings(&["parser-chunker", "--input", "."]);
    let reads = vec![None, None, None];
    let expanded = expand_argfile(&args, &reads).unwrap();
    assert_eq!(expanded, args);
}

#[test]
fn argfile_first_unreadable_file_is_reported() {
    let args = strings(&["@a", "@b", "--x"]);
    let reads = vec![
        Some(Err("first".to_string())),
        Some(Err("second".to_string())),
        None,
    ];
    assert_eq!(expand_argfile(&args, &reads).unwrap_err(), "Failed to read argfile 'a': first");
}

#[test]
fn argfile_arguments_keep_their_place() {
    let args = strings(&["-a", "@f", "-z"]);
    let reads = vec![None, Some(Ok("  -b  \r\n#-c\n-d".to_string())), None];
    assert_eq!(expand_argfile(&args, &reads).unwrap(), vec!["-a", "-b", "-d", "-z"]);
}
