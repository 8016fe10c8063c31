use vstd::prelude::*;
use crate::chunking::{byte_len, chunk_blocks, strategy_chunks};
use crate::chunking::fixed_size::fixed_size_accepts;
use crate::cli::{ChunkStrategy, EXIT_FAILURE, EXIT_PARTIAL, EXIT_SUCCESS};
use crate::config::{chunk_strategy_of, PerDocConfig};
use crate::format::is_text;
use crate::model::{block_views, chunk_views, Block, BlockView, Chunk, ChunkView, ElementType};
use crate::strings::starts_with;
use crate::Error;

verus! {

/// The parsers of the library, one per family of formats.
#[derive(Debug, Clone, Copy, PartialEq, Eq, Structural)]
pub enum ParserKind {
    Text,
    CsvTsv,
    Docx,
    Html,
    Email,
    Msg,
    Xlsx,
    Pdf,
    Pptx,
    Image,
    Rtf,
}

/// The parser that handles a format key. JSON, YAML and XML are read as text.
pub open spec fn parser_of(key: Seq<char>) -> Option<ParserKind> {
    if key == "text"@ || key == "json"@ || key == "yaml"@ || key == "xml"@ {
        Some(ParserKind::Text)
    } else if key == "csv_tsv"@ {
        Some(ParserKind::CsvTsv)
    } else if key == "docx"@ {
        Some(ParserKind::Docx)
    } else if key == "html"@ {
        Some(ParserKind::Html)
    } else if key == "email"@ {
        Some(ParserKind::Email)
    } else if key == "msg"@ {
        Some(ParserKind::Msg)
    } else if key == "xlsx"@ {
        Some(ParserKind::Xlsx)
    } else if key == "pdf"@ {
        Some(ParserKind::Pdf)
    } else if key == "pptx"@ {
        Some(ParserKind::Pptx)
    } else if key == "image"@ {
        Some(ParserKind::Image)
    } else if key == "rtf"@ {
        Some(ParserKind::Rtf)
    } else {
        None
    }
}

/// The parser for a detected format key, if any handles it.
pub fn get_parser(format_key: &str) -> (r: Option<ParserKind>)
    ensures
        r == parser_of(format_key@),
{
    let k = crate::strings::chars_of(format_key);
    if is_text(&k, "text") || is_text(&k, "json") || is_text(&k, "yaml") || is_text(&k, "xml") {
        Some(ParserKind::Text)
    } else if is_text(&k, "csv_tsv") {
        Some(ParserKind::CsvTsv)
    } else if is_text(&k, "docx") {
        Some(ParserKind::Docx)
    } else if is_text(&k, "html") {
        Some(ParserKind::Html)
    } else if is_text(&k, "email") {
        Some(ParserKind::Email)
    } else if is_text(&k, "msg") {
        Some(ParserKind::Msg)
    } else if is_text(&k, "xlsx") {
        Some(ParserKind::Xlsx)
    } else if is_text(&k, "pdf") {
        Some(ParserKind::Pdf)
    } else if is_text(&k, "pptx") {
        Some(ParserKind::Pptx)
    } else if is_text(&k, "image") {
        Some(ParserKind::Image)
    } else if is_text(&k, "rtf") {
        Some(ParserKind::Rtf)
    } else {
        None
    }
}

/// The message when no format could be detected for a path.
pub open spec fn undetected_message(path: Seq<char>) -> Seq<char> {
    "Cannot detect format for: "@ + path
}

/// The message when a detected format has no parser.
pub open spec fn no_parser_message(key: Seq<char>, path: Seq<char>) -> Seq<char> {
    "No parser available for format '"@ + key + "': "@ + path
}

/// What routing a file gives: the format found by extension, else by content,
/// and the parser for it; or the error that says which of the two is missing.
pub open spec fn route_of(path: Seq<char>, by_ext: Option<Seq<char>>, by_magic: Option<Seq<char>>)
    -> Result<(Seq<char>, ParserKind), Seq<char>> {
    let key = if by_ext is Some { by_ext } else { by_magic };
    match key {
        None => Err(undetected_message(path)),
        Some(k) => match parser_of(k) {
            Some(p) => Ok((k, p)),
            None => Err(no_parser_message(k, path)),
        },
    }
}

/// Routes a file to its parser. The format found from the extension wins over
/// the one found from the content; either failure is an `UnsupportedFormat`.
pub fn route_format(path: &str, by_ext: Option<&'static str>, by_magic: Option<&'static str>)
    -> (r: Result<(&'static str, ParserKind), Error>)
    ensures
        match route_of(path@, crate::format::opt_str(by_ext), crate::format::opt_str(by_magic)) {
            Ok((k, p)) => r matches Ok((key, kind)) && key@ == k && kind == p,
            Err(m) => r matches Err(Error::UnsupportedFormat(e)) && e@ == m,
        },
{
    let key = match by_ext {
        Some(k) => Some(k),
        None => by_magic,
    };
    match key {
        None => {
            let m = String::from_str("Cannot detect format for: ").concat(path);
            proof {
                reveal_strlit("Cannot detect format for: ");
            }
            Err(Error::UnsupportedFormat(m))
        },
        Some(k) => match get_parser(k) {
            Some(p) => Ok((k, p)),
            None => {
                let m = String::from_str("No parser available for format '").concat(k).concat(
                    "': ",
                ).concat(path);
                proof {
                    reveal_strlit("No parser available for format '");
                    reveal_strlit("': ");
                }
                Err(Error::UnsupportedFormat(m))
            },
        },
    }
}

/// Routing fails exactly when no format was found by extension or content, or
/// the format found has no parser; the failure is an `UnsupportedFormat`
/// error, whose code is `E1001`.
pub proof fn law_route_unsupported(path: Seq<char>, by_ext: Option<Seq<char>>, by_magic: Option<Seq<char>>, e: Error)
    requires
        e matches Error::UnsupportedFormat(_),
    ensures
        route_of(path, by_ext, by_magic) is Err <==> (by_ext is None && by_magic is None) || parser_of(
            (if by_ext is Some { by_ext } else { by_magic })->0,
        ) is None,
        crate::error_code_spec(&e) == "E1001"@,
{
}

/// The chunking settings a document gets: each one its sidecar configuration
/// sets, else the one given for the run.
pub open spec fn effective_settings(
    per_doc: Option<PerDocConfig>,
    strategy: ChunkStrategy,
    max_tokens: usize,
    overlap: usize,
) -> (ChunkStrategy, usize, usize) {
    match per_doc {
        None => (strategy, max_tokens, overlap),
        Some(c) => (
            match c.chunk_strategy {
                Some(s) => chunk_strategy_of(s),
                None => strategy,
            },
            match c.max_tokens {
                Some(m) => m,
                None => max_tokens,
            },
            match c.overlap {
                Some(o) => o,
                None => overlap,
            },
        ),
    }
}

/// The chunking settings of one document, from its sidecar configuration
/// where it has one.
pub fn document_settings(
    per_doc: &Option<PerDocConfig>,
    strategy: ChunkStrategy,
    max_tokens: usize,
    overlap: usize,
) -> (r: (ChunkStrategy, usize, usize))
    ensures
        r == effective_settings(*per_doc, strategy, max_tokens, overlap),
{
    match per_doc {
        None => (strategy, max_tokens, overlap),
        Some(c) => {
            let s = match c.chunk_strategy {
                Some(cs) => ChunkStrategy::from(cs),
                None => strategy,
            };
            let m = match c.max_tokens {
                Some(m) => m,
                None => max_tokens,
            };
            let o = match c.overlap {
                Some(o) => o,
                None => overlap,
            };
            (s, m, o)
        },
    }
}

/// The UTF-8 length of all the blocks' texts together.
pub open spec fn text_bytes(bs: Seq<BlockView>) -> nat
    decreases bs.len(),
{
    if bs.len() == 0 {
        0
    } else {
        text_bytes(bs.drop_last()) + byte_len(bs.last().text)
    }
}

proof fn lemma_text_bytes_prefix(bs: Seq<BlockView>, j: int)
    requires
        0 <= j <= bs.len(),
    ensures
        text_bytes(bs.take(j)) <= text_bytes(bs),
    decreases bs.len() - j,
{
    if j < bs.len() {
        lemma_text_bytes_prefix(bs, j + 1);
        assert(bs.take(j + 1).drop_last() =~= bs.take(j));
    } else {
        assert(bs.take(j) =~= bs);
    }
}

/// Whether parsed blocks call for the vision pipeline: nothing was extracted,
/// every block has low confidence, or the texts hold under fifty bytes.
pub open spec fn needs_vision(bs: Seq<BlockView>, all_low_confidence: bool) -> bool {
    bs.len() == 0 || all_low_confidence || text_bytes(bs) < 50
}

/// Decides whether the vision pipeline should be tried on a document.
///
/// Confidence scores are floating-point values, which this library does not
/// hold: the caller says whether every block scored below the threshold.
pub fn should_use_vision(blocks: &[Block], all_low_confidence: bool) -> (r: bool)
    ensures
        r == needs_vision(block_views(blocks@), all_low_confidence),
{
    let ghost bs = block_views(blocks@);
    if blocks.len() == 0 {
        return true;
    }
    if all_low_confidence {
        return true;
    }
    let mut total: usize = 0;
    let mut i: usize = 0;
    while i < blocks.len()
        invariant
            i <= blocks@.len(),
            bs == block_views(blocks@),
            total == text_bytes(bs.take(i as int)),
            total < 50,
            !all_low_confidence,
        decreases blocks@.len() - i,
    {
        let l = blocks[i].text.as_str().len();
        assert(bs.take(i as int + 1).drop_last() =~= bs.take(i as int));
        assert(bs.take(i as int + 1).last() == bs[i as int]);
        assert(bs[i as int].text == blocks@[i as int].text@);
        assert(l == byte_len(bs[i as int].text));
        assert(text_bytes(bs.take(i as int + 1)) == total + l);
        if l >= 50 - total {
            proof {
                lemma_text_bytes_prefix(bs, i as int + 1);
            }
            return false;
        }
        total = total + l;
        i += 1;
    }
    assert(bs.take(i as int) =~= bs);
    true
}

/// Chunks the blocks one document yielded: a document without blocks gives
/// no chunks.
pub fn chunk_document(blocks: &[Block], strategy: ChunkStrategy, max_tokens: usize, overlap: usize)
    -> (r: Result<Vec<Chunk>, Error>)
    requires
        strategy == ChunkStrategy::Fixed ==> fixed_size_accepts(block_views(blocks@), max_tokens, overlap),
    ensures
        r matches Ok(chunks) && chunk_views(chunks@) == (if blocks@.len() == 0 {
            Seq::<ChunkView>::empty()
        } else {
            strategy_chunks(block_views(blocks@), strategy, max_tokens, overlap)
        }),
{
    if blocks.len() == 0 {
        let v: Vec<Chunk> = Vec::new();
        assert(chunk_views(v@) =~= Seq::<ChunkView>::empty());
        return Ok(v);
    }
    chunk_blocks(blocks, strategy, max_tokens, overlap)
}

/// The chunks of one document's blocks under the settings its sidecar
/// configuration gives (each setting it sets, else the run's own): none for a
/// document without blocks.
pub open spec fn document_chunks(
    bs: Seq<BlockView>,
    per_doc: Option<PerDocConfig>,
    strategy: ChunkStrategy,
    max_tokens: usize,
    overlap: usize,
) -> Seq<ChunkView> {
    let e = effective_settings(per_doc, strategy, max_tokens, overlap);
    if bs.len() == 0 {
        Seq::<ChunkView>::empty()
    } else {
        strategy_chunks(bs, e.0, e.1, e.2)
    }
}

/// Chunks a document's blocks with the strategy, token budget and overlap of
/// its sidecar configuration where it has one, else with the run's.
pub fn chunk_with_settings(
    blocks: &[Block],
    per_doc: &Option<PerDocConfig>,
    strategy: ChunkStrategy,
    max_tokens: usize,
    overlap: usize,
) -> (r: Result<Vec<Chunk>, Error>)
    requires
        ({
            let e = effective_settings(*per_doc, strategy, max_tokens, overlap);
            e.0 == ChunkStrategy::Fixed ==> fixed_size_accepts(block_views(blocks@), e.1, e.2)
        }),
    ensures
        r matches Ok(chunks) && chunk_views(chunks@) == document_chunks(
            block_views(blocks@),
            *per_doc,
            strategy,
            max_tokens,
            overlap,
        ),
{
    let (s, m, o) = document_settings(per_doc, strategy, max_tokens, overlap);
    chunk_document(blocks, s, m, o)
}

/// The exit code of a run: success when nothing failed, partial when some
/// documents succeeded and the run is not strict, failure otherwise. A
/// document whose output could not be written counts as failed.
pub open spec fn exit_code_of(written: int, failed: int, strict: bool) -> i32 {
    if failed == 0 {
        EXIT_SUCCESS
    } else if written > 0 && !strict {
        EXIT_PARTIAL
    } else {
        EXIT_FAILURE
    }
}

/// The exit code after processing: `successes` documents were chunked, of
/// which `write_errors` could not be written, and `failures` failed.
pub fn run_exit_code(successes: usize, failures: usize, write_errors: usize, strict: bool) -> (code: i32)
    requires
        write_errors <= successes,
    ensures
        code == exit_code_of(successes - write_errors, failures + write_errors, strict),
{
    let succeeded = successes - write_errors;
    if failures == 0 && write_errors == 0 {
        EXIT_SUCCESS
    } else if succeeded > 0 && !strict {
        EXIT_PARTIAL
    } else {
        EXIT_FAILURE
    }
}

/// The confidence, in hundredths, that a parser gives the block at `i` of the
/// blocks it produced. `None` for PDF, whose reader scores its own blocks.
pub open spec fn confidence_pct(kind: ParserKind, bs: Seq<BlockView>, i: int) -> Option<u8> {
    let b = bs[i];
    match kind {
        ParserKind::Text | ParserKind::CsvTsv => Some(100u8),
        ParserKind::Html => Some(if b.element_type == ElementType::Table { 100u8 } else { 95u8 }),
        ParserKind::Docx => Some(90u8),
        ParserKind::Rtf => Some(80u8),
        ParserKind::Xlsx => Some(95u8),
        ParserKind::Image => Some(0u8),
        ParserKind::Msg => Some(if b.element_type == ElementType::NarrativeText { 100u8 } else { 85u8 }),
        ParserKind::Pptx => Some(
            if bs.len() == 1 && b.element_type == ElementType::NarrativeText { 100u8 } else { 85u8 },
        ),
        ParserKind::Email => Some(
            if (b.element_type == ElementType::EmailHeader && starts_with(b.text, "Date: "@)) || (
            b.element_type == ElementType::NarrativeText && b.text == "Empty email"@) {
                100u8
            } else {
                90u8
            },
        ),
        ParserKind::Pdf => None,
    }
}

/// The confidences, in hundredths, of the blocks a parser produced; `None`
/// for PDF.
pub fn block_confidences(kind: ParserKind, blocks: &[Block]) -> (r: Option<Vec<u8>>)
    ensures
        kind == ParserKind::Pdf <==> r is None,
        r matches Some(v) ==> v@.len() == blocks@.len() && forall|i: int|
            0 <= i < blocks@.len() ==> confidence_pct(kind, block_views(blocks@), i) == Some(#[trigger] v@[i]),
{
    if kind == ParserKind::Pdf {
        return None;
    }
    let ghost bs = block_views(blocks@);
    let mut v: Vec<u8> = Vec::new();
    let mut i: usize = 0;
    while i < blocks.len()
        invariant
            kind != ParserKind::Pdf,
            i <= blocks@.len(),
            bs == block_views(blocks@),
            v@.len() == i,
            forall|j: int| 0 <= j < i ==> confidence_pct(kind, bs, j) == Some(#[trigger] v@[j]),
        decreases blocks@.len() - i,
    {
        let b = &blocks[i];
        assert(bs[i as int] == b@);
        let et = b.element_type;
        let p: u8 = match kind {
            ParserKind::Text | ParserKind::CsvTsv => 100,
            ParserKind::Html => if et == ElementType::Table { 100 } else { 95 },
            ParserKind::Docx => 90,
            ParserKind::Rtf => 80,
            ParserKind::Xlsx => 95,
            ParserKind::Image => 0,
            ParserKind::Msg => if et == ElementType::NarrativeText { 100 } else { 85 },
            ParserKind::Pptx => if blocks.len() == 1 && et == ElementType::NarrativeText { 100 } else { 85 },
            ParserKind::Email => {
                let t = crate::strings::chars_of(b.text.as_str());
                let date = crate::strings::chars_of("Date: ");
                if (et == ElementType::EmailHeader && crate::strings::chars_start_with(t.as_slice(), date.as_slice()))
                    || (et == ElementType::NarrativeText && is_text(&t, "Empty email")) {
                    100
                } else {
                    90
                }
            },
            ParserKind::Pdf => 100,
        };
        v.push(p);
        i += 1;
    }
    Some(v)
}

} // verus!
