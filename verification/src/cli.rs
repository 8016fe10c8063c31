use vstd::prelude::*;
use crate::strings::{
    chars_of, decimal, lines_spec, split_lines, string_of, trim_chars, trim_spec, usize_to_decimal,
    views_of,
};

verus! {

/// Exit code: every document was processed.
pub const EXIT_SUCCESS: i32 = 0;
/// Exit code: some documents failed.
pub const EXIT_PARTIAL: i32 = 1;
/// Exit code: the run failed.
pub const EXIT_FAILURE: i32 = 2;
/// Exit code: the command line or the configuration was invalid.
pub const EXIT_CONFIG_ERROR: i32 = 3;

/// Output format.
#[derive(Debug, Clone, Copy, PartialEq, Eq, Structural)]
pub enum OutputFormat {
    Json,
    Jsonl,
    Parquet,
    Markdown,
}

/// Chunking strategy.
#[derive(Debug, Clone, Copy, PartialEq, Eq, Structural)]
pub enum ChunkStrategy {
    ByStructure,
    ByTitle,
    ByPage,
    Fixed,
}

/// Processing mode: fast uses lightweight models, accurate uses full models.
#[derive(Debug, Clone, Copy, PartialEq, Eq, Structural)]
pub enum ProcessingMode {
    Fast,
    Accurate,
}

/// Output compatibility mode (output matching another tool's schema).
#[derive(Debug, Clone, Copy, PartialEq, Eq, Structural)]
pub enum OutputCompat {
    Unstructured,
}

/// Log level.
#[derive(Debug, Clone, Copy, PartialEq, Eq, Structural)]
pub enum LogLevel {
    Error,
    Warn,
    Info,
    Debug,
    Trace,
}

/// The filter directive of each log level.
pub open spec fn tracing_filter(level: LogLevel) -> Seq<char> {
    match level {
        LogLevel::Error => "error"@,
        LogLevel::Warn => "warn"@,
        LogLevel::Info => "info"@,
        LogLevel::Debug => "debug"@,
        LogLevel::Trace => "trace"@,
    }
}

impl LogLevel {
    /// The filter directive that selects this level.
    pub fn as_tracing_filter(&self) -> (s: &'static str)
        ensures
            s@ == tracing_filter(*self),
    {
        match self {
            LogLevel::Error => "error",
            LogLevel::Warn => "warn",
            LogLevel::Info => "info",
            LogLevel::Debug => "debug",
            LogLevel::Trace => "trace",
        }
    }
}

/// Whether two paths are equal as `std::path::Path` compares them: component by component.
pub uninterp spec fn path_eq(a: Seq<char>, b: Seq<char>) -> bool;

/// `Path::new(a) == Path::new(b)`. std compares paths by their components, so the
/// same text always gives equal paths; which other texts compare equal is left to std.
#[verifier::external_body]
pub(crate) fn same_path(a: &str, b: &str) -> (r: bool)
    ensures
        r == path_eq(a@, b@),
        a@ == b@ ==> r,
{
    std::path::Path::new(a) == std::path::Path::new(b)
}

/// The default debug output directory.
pub open spec fn default_debug_output() -> Seq<char> {
    "./parser-chunker-debug/"@
}

/// The options of a run, paths held as text. The completions subcommand
/// belongs to the command-line front end.
#[derive(Debug)]
pub struct Cli {
    pub input: Option<String>,
    pub output: Option<String>,
    pub format: OutputFormat,
    pub output_compat: Option<OutputCompat>,
    pub chunk_strategy: ChunkStrategy,
    pub max_tokens: usize,
    pub overlap: usize,
    pub tokenizer: String,
    pub workers: Option<usize>,
    pub mode: ProcessingMode,
    pub gpu: bool,
    pub strict: bool,
    pub config: Option<String>,
    pub log_level: LogLevel,
    pub log_file: Option<String>,
    pub debug: bool,
    pub debug_output: String,
}

/// Whether a value holds the command line's defaults for every option that
/// has one, and no input, output, workers, config or log file.
pub open spec fn is_default_cli(c: Cli) -> bool {
    &&& c.input is None
    &&& c.output is None
    &&& c.format == OutputFormat::Json
    &&& c.output_compat is None
    &&& c.chunk_strategy == ChunkStrategy::ByStructure
    &&& c.max_tokens == 512
    &&& c.overlap == 50
    &&& c.tokenizer@ == "cl100k_base"@
    &&& c.workers is None
    &&& c.mode == ProcessingMode::Accurate
    &&& !c.gpu
    &&& !c.strict
    &&& c.config is None
    &&& c.log_level == LogLevel::Warn
    &&& c.log_file is None
    &&& !c.debug
    &&& c.debug_output@ == default_debug_output()
}

impl Default for Cli {
    /// The options as the command line leaves them when no flag is given.
    fn default() -> (c: Cli)
        ensures
            is_default_cli(c),
    {
        Cli {
            input: None,
            output: None,
            format: OutputFormat::Json,
            output_compat: None,
            chunk_strategy: ChunkStrategy::ByStructure,
            max_tokens: 512,
            overlap: 50,
            tokenizer: String::from_str("cl100k_base"),
            workers: None,
            mode: ProcessingMode::Accurate,
            gpu: false,
            strict: false,
            config: None,
            log_level: LogLevel::Warn,
            log_file: None,
            debug: false,
            debug_output: String::from_str("./parser-chunker-debug/"),
        }
    }
}

/// What the file system says of the `--config` path.
#[derive(Debug, Clone, Copy, PartialEq, Eq, Structural)]
pub enum PathState {
    Missing,
    NotAFile,
    File,
}

/// The message for an overlap that is not below the token budget.
pub open spec fn overlap_message(overlap: nat, max_tokens: nat) -> Seq<char> {
    "--overlap ("@ + decimal(overlap) + ") must be less than --max-tokens ("@ + decimal(max_tokens)
        + "). Overlap >= max_tokens produces degenerate chunks."@
}

/// The message for a missing `--input`.
pub open spec fn input_required_message() -> Seq<char> {
    "--input is required. Specify a file or directory to parse."@
}

/// The message for a missing `--output`.
pub open spec fn output_required_message() -> Seq<char> {
    "--output is required. Specify an output directory."@
}

/// The message for `--debug-output` without `--debug`.
pub open spec fn debug_output_message() -> Seq<char> {
    "--debug-output is set but --debug is not enabled. Add --debug to enable debug output, or remove --debug-output."@
}

/// The message for zero workers.
pub open spec fn workers_message() -> Seq<char> {
    "--workers must be at least 1. Use --workers 1 for single-threaded processing."@
}

/// The message for `--gpu` in fast mode.
pub open spec fn gpu_message() -> Seq<char> {
    "--gpu is only supported with --mode accurate. Fast mode uses lightweight CPU models that do not benefit from GPU acceleration."@
}

/// The message for a `--config` path in the given state.
pub open spec fn config_message(path: Seq<char>, state: PathState) -> Seq<Seq<char>> {
    match state {
        PathState::Missing => seq!["--config path does not exist: "@ + path],
        PathState::NotAFile => seq!["--config path is not a file: "@ + path],
        PathState::File => seq![],
    }
}

/// Every violation of the rules between flags, in the order the rules are checked:
/// input and output given, overlap below the token budget, debug output only with
/// debug, at least one worker, no GPU in fast mode, a config path that is a file.
pub open spec fn validation_errors(c: Cli, config_state: PathState) -> Seq<Seq<char>> {
    (if c.input is None { seq![input_required_message()] } else { seq![] })
    + (if c.output is None { seq![output_required_message()] } else { seq![] })
    + (if c.overlap >= c.max_tokens {
        seq![overlap_message(c.overlap as nat, c.max_tokens as nat)]
    } else {
        seq![]
    })
    + (if !path_eq(c.debug_output@, default_debug_output()) && !c.debug {
        seq![debug_output_message()]
    } else {
        seq![]
    })
    + (if c.workers == Some(0usize) { seq![workers_message()] } else { seq![] })
    + (if c.gpu && c.mode == ProcessingMode::Fast { seq![gpu_message()] } else { seq![] })
    + (match c.config {
        Some(p) => config_message(p@, config_state),
        None => seq![],
    })
}

fn push_message(errors: &mut Vec<String>, m: &str)
    ensures
        final(errors).deep_view() == old(errors).deep_view().push(m@),
{
    let ghost before = errors.deep_view();
    errors.push(String::from_str(m));
    assert(errors.deep_view() =~= before.push(m@));
}

fn push_string(errors: &mut Vec<String>, m: String)
    ensures
        final(errors).deep_view() == old(errors).deep_view().push(m@),
{
    let ghost before = errors.deep_view();
    errors.push(m);
    assert(errors.deep_view() =~= before.push(m@));
}

impl Cli {
    /// Checks the rules between flags and returns every violation, not just the first.
    /// The state of the `--config` path on disk is handed in by the caller.
    /// The default debug-output path always counts as the default, so it never
    /// gives the debug-output error.
    #[verifier::rlimit(60)]
    pub fn validate(&self, config_state: PathState) -> (r: Result<(), Vec<String>>)
        ensures
            self.debug_output@ == default_debug_output() ==> path_eq(self.debug_output@, default_debug_output()),
            match r {
                Ok(()) => validation_errors(*self, config_state).len() == 0,
                Err(errs) => errs.deep_view() == validation_errors(*self, config_state)
                    && errs@.len() > 0,
            },
    {
        let mut errors: Vec<String> = Vec::new();
        let ghost c = *self;
        let ghost e0: Seq<Seq<char>> = if c.input is None { seq![input_required_message()] } else { seq![] };
        let ghost e1: Seq<Seq<char>> = if c.output is None { seq![output_required_message()] } else { seq![] };
        let ghost e2: Seq<Seq<char>> = if c.overlap >= c.max_tokens {
            seq![overlap_message(c.overlap as nat, c.max_tokens as nat)]
        } else {
            seq![]
        };
        let ghost e3: Seq<Seq<char>> = if !path_eq(c.debug_output@, default_debug_output()) && !c.debug {
            seq![debug_output_message()]
        } else {
            seq![]
        };
        let ghost e4: Seq<Seq<char>> = if c.workers == Some(0usize) { seq![workers_message()] } else { seq![] };
        let ghost e5: Seq<Seq<char>> = if c.gpu && c.mode == ProcessingMode::Fast { seq![gpu_message()] } else { seq![] };
        let ghost e6: Seq<Seq<char>> = match c.config {
            Some(p) => config_message(p@, config_state),
            None => seq![],
        };

        if self.input.is_none() {
            push_message(&mut errors, "--input is required. Specify a file or directory to parse.");
        }
        assert(errors.deep_view() =~= e0);
        if self.output.is_none() {
            push_message(&mut errors, "--output is required. Specify an output directory.");
        }
        assert(errors.deep_view() =~= e0 + e1);
        if self.overlap >= self.max_tokens {
            let m = String::from_str("--overlap (")
                .concat(usize_to_decimal(self.overlap).as_str())
                .concat(") must be less than --max-tokens (")
                .concat(usize_to_decimal(self.max_tokens).as_str())
                .concat("). Overlap >= max_tokens produces degenerate chunks.");
            push_string(&mut errors, m);
        }
        assert(errors.deep_view() =~= e0 + e1 + e2);
        if !same_path(self.debug_output.as_str(), "./parser-chunker-debug/") && !self.debug {
            push_message(
                &mut errors,
                "--debug-output is set but --debug is not enabled. Add --debug to enable debug output, or remove --debug-output.",
            );
        }
        assert(errors.deep_view() =~= e0 + e1 + e2 + e3);
        if let Some(w) = self.workers {
            if w == 0 {
                push_message(
                    &mut errors,
                    "--workers must be at least 1. Use --workers 1 for single-threaded processing.",
                );
            }
        }
        assert(errors.deep_view() =~= e0 + e1 + e2 + e3 + e4);
        if self.gpu && self.mode == ProcessingMode::Fast {
            push_message(
                &mut errors,
                "--gpu is only supported with --mode accurate. Fast mode uses lightweight CPU models that do not benefit from GPU acceleration.",
            );
        }
        assert(errors.deep_view() =~= e0 + e1 + e2 + e3 + e4 + e5);
        if let Some(p) = &self.config {
            match config_state {
                PathState::Missing => {
                    push_string(&mut errors, String::from_str("--config path does not exist: ").concat(p.as_str()));
                },
                PathState::NotAFile => {
                    push_string(&mut errors, String::from_str("--config path is not a file: ").concat(p.as_str()));
                },
                PathState::File => {},
            }
        }
        assert(errors.deep_view() =~= e0 + e1 + e2 + e3 + e4 + e5 + e6);
        if errors.len() == 0 {
            Ok(())
        } else {
            Err(errors)
        }
    }
}

/// The path named by an `@argfile` argument: the text after a leading `@`.
pub open spec fn argfile_path_spec(arg: Seq<char>) -> Option<Seq<char>> {
    if arg.len() > 0 && arg[0] == '@' { Some(arg.subrange(1, arg.len() as int)) } else { None }
}

/// The path of an `@argfile` argument, or `None` for an ordinary argument.
pub fn argfile_path(arg: &str) -> (r: Option<String>)
    ensures
        match r {
            Some(p) => argfile_path_spec(arg@) == Some(p@),
            None => argfile_path_spec(arg@) is None,
        },
{
    let chars = chars_of(arg);
    if chars.len() > 0 && chars[0] == '@' {
        let mut rest: Vec<char> = Vec::new();
        let mut i: usize = 1;
        while i < chars.len()
            invariant
                1 <= i <= chars@.len(),
                chars@ == arg@,
                rest@ == chars@.subrange(1, i as int),
            decreases chars@.len() - i,
        {
            rest.push(chars[i]);
            i += 1;
        }
        Some(string_of(rest.as_slice()))
    } else {
        None
    }
}

/// The arguments an argfile's lines give: each line trimmed, blank lines and
/// lines starting with `#` skipped.
pub open spec fn argfile_args(lines: Seq<Seq<char>>) -> Seq<Seq<char>>
    decreases lines.len(),
{
    if lines.len() == 0 {
        seq![]
    } else {
        let rest = argfile_args(lines.drop_last());
        let t = trim_spec(lines.last());
        if t.len() == 0 || t[0] == '#' { rest } else { rest.push(t) }
    }
}

/// The arguments held in the text of an argfile, one per line.
pub fn argfile_lines(contents: &str) -> (args: Vec<String>)
    ensures
        args.deep_view() == argfile_args(lines_spec(contents@)),
{
    let chars = chars_of(contents);
    let lines = split_lines(chars.as_slice());
    let ghost ls = lines_spec(contents@);
    let mut args: Vec<String> = Vec::new();
    let mut i: usize = 0;
    assert(ls.take(0) =~= seq![]);
    while i < lines.len()
        invariant
            i <= lines@.len(),
            views_of(lines@) == ls,
            args.deep_view() == argfile_args(ls.take(i as int)),
        decreases lines@.len() - i,
    {
        assert(ls.take(i + 1).drop_last() =~= ls.take(i as int));
        assert(ls[i as int] == lines@[i as int]@);
        let t = trim_chars(lines[i].as_slice());
        if t.len() == 0 || t[0] == '#' {
        } else {
            push_string(&mut args, string_of(t.as_slice()));
        }
        i += 1;
    }
    assert(ls.take(lines@.len() as int) =~= ls);
    args
}

/// The message when an argfile cannot be read.
pub open spec fn argfile_read_message(path: Seq<char>, err: Seq<char>) -> Seq<char> {
    "Failed to read argfile '"@ + path + "': "@ + err
}

/// The arguments after `@argfile` expansion, taken from the first: each
/// `@path` argument is replaced by the arguments its file holds, as `reads`
/// gives them (its text, or the error of reading it), and the first file that
/// could not be read ends the expansion with an error.
pub open spec fn expanded_args(args: Seq<Seq<char>>, reads: Seq<Option<Result<Seq<char>, Seq<char>>>>)
    -> Result<Seq<Seq<char>>, Seq<char>>
    decreases args.len(),
{
    if args.len() == 0 {
        Ok(seq![])
    } else {
        match expanded_args(args.drop_last(), reads.drop_last()) {
            Err(e) => Err(e),
            Ok(done) => match argfile_path_spec(args.last()) {
                None => Ok(done.push(args.last())),
                Some(p) => match reads.last() {
                    Some(Ok(c)) => Ok(done + argfile_args(lines_spec(c))),
                    Some(Err(e)) => Err(argfile_read_message(p, e)),
                    None => Ok(done),
                },
            },
        }
    }
}

/// The plain values of the results of reading argfiles.
pub open spec fn read_views(reads: Seq<Option<Result<String, String>>>) -> Seq<Option<Result<Seq<char>, Seq<char>>>> {
    reads.map_values(|r: Option<Result<String, String>>| match r {
        Some(Ok(c)) => Some(Ok(c@)),
        Some(Err(e)) => Some(Err(e@)),
        None => None,
    })
}

/// Expands `@argfile` arguments. Reading the files is the caller's part:
/// `reads[i]` is the result of reading the file that `args[i]` names, the
/// file's text or the error's description, and `None` where `args[i]` is an
/// ordinary argument. Blank lines and lines starting with `#` are skipped.
pub fn expand_argfile(args: &Vec<String>, reads: &Vec<Option<Result<String, String>>>)
    -> (r: Result<Vec<String>, String>)
    requires
        reads@.len() == args@.len(),
    ensures
        match expanded_args(args.deep_view(), read_views(reads@)) {
            Ok(a) => r matches Ok(v) && v.deep_view() == a,
            Err(e) => r matches Err(m) && m@ == e,
        },
{
    let ghost av = args.deep_view();
    let ghost rv = read_views(reads@);
    let mut expanded: Vec<String> = Vec::new();
    let mut i: usize = 0;
    assert(av.take(0) =~= seq![]);
    assert(rv.take(0) =~= seq![]);
    assert(expanded.deep_view() =~= seq![]);
    while i < args.len()
        invariant
            i <= args@.len(),
            reads@.len() == args@.len(),
            av == args.deep_view(),
            rv == read_views(reads@),
            expanded_args(av.take(i as int), rv.take(i as int)) == Ok::<Seq<Seq<char>>, Seq<char>>(expanded.deep_view()),
        decreases args@.len() - i,
    {
        assert(av.take(i + 1).drop_last() =~= av.take(i as int));
        assert(rv.take(i + 1).drop_last() =~= rv.take(i as int));
        assert(av.take(i + 1).last() == args@[i as int]@);
        assert(rv.take(i + 1).last() == rv[i as int]);
        match argfile_path(args[i].as_str()) {
            None => {
                let ghost before = expanded.deep_view();
                expanded.push(args[i].clone());
                assert(expanded.deep_view() =~= before.push(args@[i as int]@));
            },
            Some(p) => match &reads[i] {
                Some(Ok(c)) => {
                    let more = argfile_lines(c.as_str());
                    let ghost before = expanded.deep_view();
                    let mut k: usize = 0;
                    while k < more.len()
                        invariant
                            k <= more@.len(),
                            expanded.deep_view() == before + more.deep_view().take(k as int),
                        decreases more@.len() - k,
                    {
                        let ghost b2 = expanded.deep_view();
                        expanded.push(more[k].clone());
                        assert(expanded.deep_view() =~= b2.push(more@[k as int]@));
                        assert(more.deep_view().take(k + 1) =~= more.deep_view().take(k as int).push(more@[k as int]@));
                        k += 1;
                    }
                    assert(more.deep_view().take(more@.len() as int) =~= more.deep_view());
                },
                Some(Err(e)) => {
                    let m = String::from_str("Failed to read argfile '").concat(p.as_str()).concat("': ").concat(e.as_str());
                    proof {
                        reveal_strlit("Failed to read argfile '");
                        reveal_strlit("': ");
                        lemma_expanded_error_stays(av, rv, i as int + 1);
                        assert(av.take(args@.len() as int) =~= av);
                        assert(rv.take(args@.len() as int) =~= rv);
                    }
                    return Err(m);
                },
                None => {},
            },
        }
        i += 1;
    }
    assert(av.take(i as int) =~= av);
    assert(rv.take(i as int) =~= rv);
    Ok(expanded)
}

/// Once the expansion of a prefix of the arguments fails, that of any longer
/// prefix fails with the same error.
proof fn lemma_expanded_error_stays(
    av: Seq<Seq<char>>,
    rv: Seq<Option<Result<Seq<char>, Seq<char>>>>,
    j: int,
)
    requires
        0 <= j <= av.len(),
        av.len() == rv.len(),
        expanded_args(av.take(j), rv.take(j)) is Err,
    ensures
        expanded_args(av, rv) == expanded_args(av.take(j), rv.take(j)),
    decreases av.len() - j,
{
    if j < av.len() {
        assert(av.take(j + 1).drop_last() =~= av.take(j));
        assert(rv.take(j + 1).drop_last() =~= rv.take(j));
        lemma_expanded_error_stays(av, rv, j + 1);
    } else {
        assert(av.take(j) =~= av);
        assert(rv.take(j) =~= rv);
    }
}

} // verus!
