use vstd::prelude::*;
use crate::cli::{
    default_debug_output, path_eq, same_path, ChunkStrategy, Cli, LogLevel, OutputFormat,
    ProcessingMode,
};

verus! {

/// Output format as a configuration file names it.
#[derive(Debug, Clone, Copy, PartialEq, Eq, Structural)]
pub enum OutputFormatConfig {
    Json,
    Jsonl,
    Parquet,
    Markdown,
}

/// Chunking strategy as a configuration file names it.
#[derive(Debug, Clone, Copy, PartialEq, Eq, Structural)]
pub enum ChunkStrategyConfig {
    ByStructure,
    ByTitle,
    ByPage,
    Fixed,
}

/// Processing mode as a configuration file names it.
#[derive(Debug, Clone, Copy, PartialEq, Eq, Structural)]
pub enum ProcessingModeConfig {
    Fast,
    Accurate,
}

/// Log level as a configuration file names it.
#[derive(Debug, Clone, Copy, PartialEq, Eq, Structural)]
pub enum LogLevelConfig {
    Error,
    Warn,
    Info,
    Debug,
    Trace,
}

/// The global configuration file: it mirrors the command-line options, and
/// every field is optional.
#[derive(Debug)]
pub struct Config {
    pub format: Option<OutputFormatConfig>,
    pub chunk_strategy: Option<ChunkStrategyConfig>,
    pub max_tokens: Option<usize>,
    pub overlap: Option<usize>,
    pub tokenizer: Option<String>,
    pub workers: Option<usize>,
    pub mode: Option<ProcessingModeConfig>,
    pub gpu: Option<bool>,
    pub strict: Option<bool>,
    pub log_level: Option<LogLevelConfig>,
    pub debug: Option<bool>,
    pub debug_output: Option<String>,
}

impl Default for Config {
    /// A configuration that sets nothing.
    fn default() -> (c: Config)
        ensures
            is_empty_config(c),
    {
        Config {
            format: None,
            chunk_strategy: None,
            max_tokens: None,
            overlap: None,
            tokenizer: None,
            workers: None,
            mode: None,
            gpu: None,
            strict: None,
            log_level: None,
            debug: None,
            debug_output: None,
        }
    }
}

/// Whether a configuration sets no field.
pub open spec fn is_empty_config(c: Config) -> bool {
    &&& c.format is None
    &&& c.chunk_strategy is None
    &&& c.max_tokens is None
    &&& c.overlap is None
    &&& c.tokenizer is None
    &&& c.workers is None
    &&& c.mode is None
    &&& c.gpu is None
    &&& c.strict is None
    &&& c.log_level is None
    &&& c.debug is None
    &&& c.debug_output is None
}

/// The per-document configuration kept next to a document.
#[derive(Debug)]
pub struct PerDocConfig {
    pub chunk_strategy: Option<ChunkStrategyConfig>,
    pub max_tokens: Option<usize>,
    pub overlap: Option<usize>,
    pub format: Option<OutputFormatConfig>,
}

impl Default for PerDocConfig {
    /// A per-document configuration that sets nothing.
    fn default() -> (c: PerDocConfig)
        ensures
            c.chunk_strategy is None,
            c.max_tokens is None,
            c.overlap is None,
            c.format is None,
    {
        PerDocConfig { chunk_strategy: None, max_tokens: None, overlap: None, format: None }
    }
}

/// The strategy a configuration name stands for.
pub open spec fn chunk_strategy_of(c: ChunkStrategyConfig) -> ChunkStrategy {
    match c {
        ChunkStrategyConfig::ByStructure => ChunkStrategy::ByStructure,
        ChunkStrategyConfig::ByTitle => ChunkStrategy::ByTitle,
        ChunkStrategyConfig::ByPage => ChunkStrategy::ByPage,
        ChunkStrategyConfig::Fixed => ChunkStrategy::Fixed,
    }
}

/// The output format a configuration name stands for.
pub open spec fn output_format_of(c: OutputFormatConfig) -> OutputFormat {
    match c {
        OutputFormatConfig::Json => OutputFormat::Json,
        OutputFormatConfig::Jsonl => OutputFormat::Jsonl,
        OutputFormatConfig::Parquet => OutputFormat::Parquet,
        OutputFormatConfig::Markdown => OutputFormat::Markdown,
    }
}

/// The processing mode a configuration name stands for.
pub open spec fn processing_mode_of(c: ProcessingModeConfig) -> ProcessingMode {
    match c {
        ProcessingModeConfig::Fast => ProcessingMode::Fast,
        ProcessingModeConfig::Accurate => ProcessingMode::Accurate,
    }
}

/// The log level a configuration name stands for.
pub open spec fn log_level_of(c: LogLevelConfig) -> LogLevel {
    match c {
        LogLevelConfig::Error => LogLevel::Error,
        LogLevelConfig::Warn => LogLevel::Warn,
        LogLevelConfig::Info => LogLevel::Info,
        LogLevelConfig::Debug => LogLevel::Debug,
        LogLevelConfig::Trace => LogLevel::Trace,
    }
}

impl From<ChunkStrategyConfig> for ChunkStrategy {
    fn from(c: ChunkStrategyConfig) -> (s: ChunkStrategy) {
        match c {
            ChunkStrategyConfig::ByStructure => ChunkStrategy::ByStructure,
            ChunkStrategyConfig::ByTitle => ChunkStrategy::ByTitle,
            ChunkStrategyConfig::ByPage => ChunkStrategy::ByPage,
            ChunkStrategyConfig::Fixed => ChunkStrategy::Fixed,
        }
    }
}

impl vstd::std_specs::convert::FromSpecImpl<ChunkStrategyConfig> for ChunkStrategy {
    open spec fn obeys_from_spec() -> bool {
        true
    }

    open spec fn from_spec(v: ChunkStrategyConfig) -> ChunkStrategy {
        chunk_strategy_of(v)
    }
}

impl From<OutputFormatConfig> for OutputFormat {
    fn from(c: OutputFormatConfig) -> (f: OutputFormat) {
        match c {
            OutputFormatConfig::Json => OutputFormat::Json,
            OutputFormatConfig::Jsonl => OutputFormat::Jsonl,
            OutputFormatConfig::Parquet => OutputFormat::Parquet,
            OutputFormatConfig::Markdown => OutputFormat::Markdown,
        }
    }
}

impl vstd::std_specs::convert::FromSpecImpl<OutputFormatConfig> for OutputFormat {
    open spec fn obeys_from_spec() -> bool {
        true
    }

    open spec fn from_spec(v: OutputFormatConfig) -> OutputFormat {
        output_format_of(v)
    }
}

impl From<ProcessingModeConfig> for ProcessingMode {
    fn from(c: ProcessingModeConfig) -> (m: ProcessingMode) {
        match c {
            ProcessingModeConfig::Fast => ProcessingMode::Fast,
            ProcessingModeConfig::Accurate => ProcessingMode::Accurate,
        }
    }
}

impl vstd::std_specs::convert::FromSpecImpl<ProcessingModeConfig> for ProcessingMode {
    open spec fn obeys_from_spec() -> bool {
        true
    }

    open spec fn from_spec(v: ProcessingModeConfig) -> ProcessingMode {
        processing_mode_of(v)
    }
}

impl From<LogLevelConfig> for LogLevel {
    fn from(c: LogLevelConfig) -> (l: LogLevel) {
        match c {
            LogLevelConfig::Error => LogLevel::Error,
            LogLevelConfig::Warn => LogLevel::Warn,
            LogLevelConfig::Info => LogLevel::Info,
            LogLevelConfig::Debug => LogLevel::Debug,
            LogLevelConfig::Trace => LogLevel::Trace,
        }
    }
}

impl vstd::std_specs::convert::FromSpecImpl<LogLevelConfig> for LogLevel {
    open spec fn obeys_from_spec() -> bool {
        true
    }

    open spec fn from_spec(v: LogLevelConfig) -> LogLevel {
        log_level_of(v)
    }
}

/// The text of an optional string.
pub open spec fn opt_text(o: Option<String>) -> Option<Seq<char>> {
    match o {
        Some(s) => Some(s@),
        None => None,
    }
}

/// The options after a configuration is merged in: a configured value is taken
/// only where the command line left the option at its default.
/// Input, output, compatibility mode, config and log file are kept.
pub open spec fn merged(old: Cli, config: Config, new: Cli) -> bool {
    &&& new.max_tokens == (if old.max_tokens == 512 && config.max_tokens is Some {
        config.max_tokens->0
    } else {
        old.max_tokens
    })
    &&& new.overlap == (if old.overlap == 50 && config.overlap is Some {
        config.overlap->0
    } else {
        old.overlap
    })
    &&& new.tokenizer@ == (if old.tokenizer@ == "cl100k_base"@ && config.tokenizer is Some {
        config.tokenizer->0@
    } else {
        old.tokenizer@
    })
    &&& new.workers == (if old.workers is None { config.workers } else { old.workers })
    &&& new.gpu == (if !old.gpu && config.gpu is Some { config.gpu->0 } else { old.gpu })
    &&& new.strict == (if !old.strict && config.strict is Some {
        config.strict->0
    } else {
        old.strict
    })
    &&& new.debug == (if !old.debug && config.debug is Some { config.debug->0 } else { old.debug })
    &&& new.chunk_strategy == (if old.chunk_strategy == ChunkStrategy::ByStructure
        && config.chunk_strategy is Some {
        chunk_strategy_of(config.chunk_strategy->0)
    } else {
        old.chunk_strategy
    })
    &&& new.format == (if old.format == OutputFormat::Json && config.format is Some {
        output_format_of(config.format->0)
    } else {
        old.format
    })
    &&& new.mode == (if old.mode == ProcessingMode::Accurate && config.mode is Some {
        processing_mode_of(config.mode->0)
    } else {
        old.mode
    })
    &&& new.debug_output@ == (if path_eq(old.debug_output@, default_debug_output())
        && config.debug_output is Some {
        config.debug_output->0@
    } else {
        old.debug_output@
    })
    &&& opt_text(new.input) == opt_text(old.input)
    &&& opt_text(new.output) == opt_text(old.output)
    &&& new.output_compat == old.output_compat
    &&& opt_text(new.config) == opt_text(old.config)
    &&& new.log_level == (if old.log_level == LogLevel::Warn && config.log_level is Some {
        log_level_of(config.log_level->0)
    } else {
        old.log_level
    })
    &&& opt_text(new.log_file) == opt_text(old.log_file)
}

/// The configured text where the option holds its default, else the option's own.
fn merged_text(current: &String, at_default: bool, configured: &Option<String>) -> (r: String)
    ensures
        r@ == (if at_default && configured is Some { configured->0@ } else { current@ }),
{
    if at_default {
        if let Some(t) = configured {
            return t.clone();
        }
    }
    current.clone()
}

/// The configured log level where the option holds its default `Warn`, else the option's own.
fn merged_log_level(current: LogLevel, configured: Option<LogLevelConfig>) -> (r: LogLevel)
    ensures
        r == (if current == LogLevel::Warn && configured is Some {
            log_level_of(configured->0)
        } else {
            current
        }),
{
    match configured {
        Some(l) if current == LogLevel::Warn => LogLevel::from(l),
        _ => current,
    }
}

/// Merges configuration values into the options. Command-line flags win: a
/// configured value is applied only where the option still holds its default.
#[verifier::rlimit(100)]
#[verifier::spinoff_prover]
pub fn merge_config(cli: &mut Cli, config: &Config)
    ensures
        final(cli).max_tokens == (if old(cli).max_tokens == 512 && config.max_tokens is Some {
        config.max_tokens->0
    } else {
        old(cli).max_tokens
    }),
        final(cli).overlap == (if old(cli).overlap == 50 && config.overlap is Some {
        config.overlap->0
    } else {
        old(cli).overlap
    }),
        final(cli).tokenizer@ == (if old(cli).tokenizer@ == "cl100k_base"@ && config.tokenizer is Some {
        config.tokenizer->0@
    } else {
        old(cli).tokenizer@
    }),
        final(cli).workers == (if old(cli).workers is None { config.workers } else { old(cli).workers }),
        final(cli).gpu == (if !old(cli).gpu && config.gpu is Some { config.gpu->0 } else { old(cli).gpu }),
        final(cli).strict == (if !old(cli).strict && config.strict is Some {
        config.strict->0
    } else {
        old(cli).strict
    }),
        final(cli).debug == (if !old(cli).debug && config.debug is Some { config.debug->0 } else { old(cli).debug }),
        final(cli).chunk_strategy == (if old(cli).chunk_strategy == ChunkStrategy::ByStructure
        && config.chunk_strategy is Some {
        chunk_strategy_of(config.chunk_strategy->0)
    } else {
        old(cli).chunk_strategy
    }),
        final(cli).format == (if old(cli).format == OutputFormat::Json && config.format is Some {
        output_format_of(config.format->0)
    } else {
        old(cli).format
    }),
        final(cli).mode == (if old(cli).mode == ProcessingMode::Accurate && config.mode is Some {
        processing_mode_of(config.mode->0)
    } else {
        old(cli).mode
    }),
        final(cli).debug_output@ == (if path_eq(old(cli).debug_output@, default_debug_output())
        && config.debug_output is Some {
        config.debug_output->0@
    } else {
        old(cli).debug_output@
    }),
        opt_text(final(cli).input) == opt_text(old(cli).input),
        opt_text(final(cli).output) == opt_text(old(cli).output),
        final(cli).output_compat == old(cli).output_compat,
        opt_text(final(cli).config) == opt_text(old(cli).config),
        final(cli).log_level == (if old(cli).log_level == LogLevel::Warn && config.log_level is Some {
        log_level_of(config.log_level->0)
    } else {
        old(cli).log_level
    }),
        opt_text(final(cli).log_file) == opt_text(old(cli).log_file),
        merged(*old(cli), *config, *final(cli)),
{
    let max_tokens = match config.max_tokens {
        Some(mt) if cli.max_tokens == 512 => mt,
        _ => cli.max_tokens,
    };
    let overlap = match config.overlap {
        Some(ov) if cli.overlap == 50 => ov,
        _ => cli.overlap,
    };
    let tokenizer_default = cli.tokenizer == String::from_str("cl100k_base");
    let tokenizer = merged_text(&cli.tokenizer, tokenizer_default, &config.tokenizer);
    let workers = if cli.workers.is_none() { config.workers } else { cli.workers };
    let gpu = match config.gpu {
        Some(g) if !cli.gpu => g,
        _ => cli.gpu,
    };
    let strict = match config.strict {
        Some(st) if !cli.strict => st,
        _ => cli.strict,
    };
    let debug = match config.debug {
        Some(d) if !cli.debug => d,
        _ => cli.debug,
    };
    let chunk_strategy = match config.chunk_strategy {
        Some(cs) if cli.chunk_strategy == ChunkStrategy::ByStructure => ChunkStrategy::from(cs),
        _ => cli.chunk_strategy,
    };
    let format = match config.format {
        Some(f) if cli.format == OutputFormat::Json => OutputFormat::from(f),
        _ => cli.format,
    };
    let mode = match config.mode {
        Some(m) if cli.mode == ProcessingMode::Accurate => ProcessingMode::from(m),
        _ => cli.mode,
    };
    let log_level = merged_log_level(cli.log_level, config.log_level);
    let debug_output_default = same_path(cli.debug_output.as_str(), "./parser-chunker-debug/");
    let debug_output = merged_text(&cli.debug_output, debug_output_default, &config.debug_output);
    cli.max_tokens = max_tokens;
    cli.overlap = overlap;
    cli.tokenizer = tokenizer;
    cli.workers = workers;
    cli.gpu = gpu;
    cli.strict = strict;
    cli.debug = debug;
    cli.chunk_strategy = chunk_strategy;
    cli.format = format;
    cli.mode = mode;
    cli.log_level = log_level;
    cli.debug_output = debug_output;
}

/// Whether two option sets hold the same values, texts compared by their characters.
pub open spec fn same_options(a: Cli, b: Cli) -> bool {
    &&& opt_text(a.input) == opt_text(b.input)
    &&& opt_text(a.output) == opt_text(b.output)
    &&& a.format == b.format
    &&& a.output_compat == b.output_compat
    &&& a.chunk_strategy == b.chunk_strategy
    &&& a.max_tokens == b.max_tokens
    &&& a.overlap == b.overlap
    &&& a.tokenizer@ == b.tokenizer@
    &&& a.workers == b.workers
    &&& a.mode == b.mode
    &&& a.gpu == b.gpu
    &&& a.strict == b.strict
    &&& opt_text(a.config) == opt_text(b.config)
    &&& a.log_level == b.log_level
    &&& opt_text(a.log_file) == opt_text(b.log_file)
    &&& a.debug == b.debug
    &&& a.debug_output@ == b.debug_output@
}

/// Merging a configuration that sets nothing leaves every option as it was.
pub proof fn lemma_merge_empty_config(old: Cli, config: Config, new: Cli)
    requires
        is_empty_config(config),
        merged(old, config, new),
    ensures
        same_options(old, new),
{
}

/// Merging the same configuration twice gives what merging it once gave.
pub proof fn lemma_merge_idempotent(c0: Cli, config: Config, c1: Cli, c2: Cli)
    requires
        merged(c0, config, c1),
        merged(c1, config, c2),
    ensures
        same_options(c1, c2),
{
}

/// An option the command line moved off its default is never replaced by the configuration.
pub proof fn lemma_merge_keeps_explicit_flags(old: Cli, config: Config, new: Cli)
    requires
        merged(old, config, new),
    ensures
        old.max_tokens != 512 ==> new.max_tokens == old.max_tokens,
        old.overlap != 50 ==> new.overlap == old.overlap,
        old.tokenizer@ != "cl100k_base"@ ==> new.tokenizer@ == old.tokenizer@,
        old.workers is Some ==> new.workers == old.workers,
        old.gpu ==> new.gpu,
        old.strict ==> new.strict,
        old.debug ==> new.debug,
        old.chunk_strategy != ChunkStrategy::ByStructure ==> new.chunk_strategy == old.chunk_strategy,
        old.format != OutputFormat::Json ==> new.format == old.format,
        old.mode != ProcessingMode::Accurate ==> new.mode == old.mode,
        old.log_level != LogLevel::Warn ==> new.log_level == old.log_level,
        !path_eq(old.debug_output@, default_debug_output()) ==> new.debug_output@ == old.debug_output@,
{
}

} // verus!
