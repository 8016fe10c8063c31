use parser_chunker::cli::{ChunkStrategy, Cli, OutputFormat, ProcessingMode};
use parser_chunker::config::{
    merge_config, ChunkStrategyConfig, Config, OutputFormatConfig, PerDocConfig,
    ProcessingModeConfig,
};

fn make_cli() -> Cli {
    let mut cli = Cli::default();
    cli.input = Some(".".to_string());
    cli.output = Some("out".to_string());
    cli
}

#[test]
fn test_merge_config_applies_when_default() {
    let mut cli = make_cli();
    let config = Config {
        max_tokens: Some(1024),
        overlap: Some(100),
        chunk_strategy: Some(ChunkStrategyConfig::ByTitle),
        gpu: Some(true),
        strict: Some(true),
        ..Config::default()
    };
    merge_config(&mut cli, &config);
    assert_eq!(cli.max_tokens, 1024);
    assert_eq!(cli.overlap, 100);
    assert!(matches!(cli.chunk_strategy, ChunkStrategy::ByTitle));
    assert!(cli.gpu);
    assert!(cli.strict);
}

#[test]
fn test_merge_config_cli_overrides_config() {
    let mut cli = make_cli();
    cli.max_tokens = 256;
    let config = Config { max_tokens: Some(1024), ..Config::default() };
    merge_config(&mut cli, &config);
    assert_eq!(cli.max_tokens, 256);
}

#[test]
fn merge_sets_text_options_and_modes() {
    let mut cli = make_cli();
    let config = Config {
        tokenizer: Some("o200k_base".to_string()),
        debug_output: Some("/tmp/dbg".to_string()),
        format: Some(OutputFormatConfig::Markdown),
        mode: Some(ProcessingModeConfig::Fast),
        workers: Some(4),
        ..Config::default()
    };
    merge_config(&mut cli, &config);
    assert_eq!(cli.tokenizer, "o200k_base");
    assert_eq!(cli.debug_output, "/tmp/dbg");
    assert_eq!(cli.format, OutputFormat::Markdown);
    assert_eq!(cli.mode, ProcessingMode::Fast);
    assert_eq!(cli.workers, Some(4));
}

#[test]
fn merge_empty_config_changes_nothing() {
    let mut cli = make_cli();
    cli.overlap = 7;
    merge_config(&mut cli, &Config::default());
    assert_eq!(cli.overlap, 7);
    assert_eq!(cli.max_tokens, 512);
    assert_eq!(cli.tokenizer, "cl100k_base");
}

#[test]
fn merge_twice_is_merge_once() {
    let config = Config { max_tokens: Some(512), overlap: Some(10), ..Config::default() };
    let mut once = make_cli();
    merge_config(&mut once, &config);
    let mut twice = make_cli();
    merge_config(&mut twice, &config);
    merge_config(&mut twice, &config);
    assert_eq!(once.max_tokens, twice.max_tokens);
    assert_eq!(once.overlap, twice.overlap);
}

#[test]
fn log_level_is_merged_over_default() {
    let mut cli = make_cli();
    let config = Config {
        log_level: Some(parser_chunker::config::LogLevelConfig::Debug),
        ..Config::default()
    };
    merge_config(&mut cli, &config);
    assert_eq!(cli.log_level, parser_chunker::cli::LogLevel::Debug);
}

#[test]
fn explicit_log_level_wins_over_config() {
    let mut cli = make_cli();
    cli.log_level = parser_chunker::cli::LogLevel::Error;
    let config = Config {
        log_level: Some(parser_chunker::config::LogLevelConfig::Trace),
        ..Config::default()
    };
    merge_config(&mut cli, &config);
    assert_eq!(cli.log_level, parser_chunker::cli::LogLevel::Error);
}

#[test]
fn config_names_convert() {
    assert_eq!(ChunkStrategy::from(ChunkStrategyConfig::Fixed), ChunkStrategy::Fixed);
    assert_eq!(OutputFormat::from(OutputFormatConfig::Jsonl), OutputFormat::Jsonl);
    assert_eq!(ProcessingMode::from(ProcessingModeConfig::Accurate), ProcessingMode::Accurate);
    let per_doc = PerDocConfig::default();
    assert!(per_doc.max_tokens.is_none());
}
