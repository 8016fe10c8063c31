//! Outlook messages (`.msg`): string properties of an OLE compound file.
use vstd::prelude::*;
use std::io::Read;
use crate::format::text::{decode_windows1252_text, windows1252_decoding};
use crate::model::{block_views, plain_block, Block, BlockView, ElementType};
use crate::strings::{chars_of, string_of, trim_chars, trim_spec};
use crate::{Error, ErrorView};

verus! {

/// Outlook messages.
pub struct MsgParser;

/// Why the compound file in `bytes` cannot be opened, if it cannot.
pub uninterp spec fn compound_open_error(bytes: Seq<u8>) -> Option<Seq<char>>;

/// Opens the compound file in `bytes` with `cfb::CompoundFile::open`.
#[verifier::external_body]
fn open_compound(bytes: &[u8]) -> (r: Option<String>)
    ensures
        match r {
            Some(m) => compound_open_error(bytes@) == Some(m@),
            None => compound_open_error(bytes@) is None,
        },
{
    cfb::CompoundFile::open(std::io::Cursor::new(bytes)).err().map(|e| e.to_string())
}

/// The content of the stream at `path` of the compound file in `bytes`, if it can be read.
pub uninterp spec fn compound_stream(bytes: Seq<u8>, path: Seq<char>) -> Option<Seq<u8>>;

/// Opens the compound file in `bytes`, then the stream at `path`, and reads it to its end.
#[verifier::external_body]
fn read_stream(bytes: &[u8], path: &str) -> (r: Option<Vec<u8>>)
    ensures
        match r {
            Some(b) => compound_stream(bytes@, path@) == Some(b@),
            None => compound_stream(bytes@, path@) is None,
        },
{
    let mut comp = cfb::CompoundFile::open(std::io::Cursor::new(bytes)).ok()?;
    let mut stream = comp.open_stream(path).ok()?;
    let mut buf = Vec::new();
    stream.read_to_end(&mut buf).ok()?;
    Some(buf)
}

/// The text `String::from_utf16_lossy` decodes from UTF-16 code units.
pub uninterp spec fn utf16_lossy(units: Seq<u16>) -> Seq<char>;

/// `String::from_utf16_lossy`: UTF-16 decoded, unpaired surrogates replaced by U+FFFD.
#[verifier::external_body]
fn utf16_text(units: &[u16]) -> (s: String)
    ensures
        s@ == utf16_lossy(units@),
{
    String::from_utf16_lossy(units)
}

/// The little-endian 16-bit units of bytes; a last odd byte is dropped.
pub open spec fn le_units(b: Seq<u8>) -> Seq<u16> {
    Seq::new(b.len() / 2, |i: int| (b[2 * i] as int + b[2 * i + 1] as int * 256) as u16)
}

/// A text without its trailing NUL characters.
pub open spec fn trim_nuls(s: Seq<char>) -> Seq<char>
    decreases s.len(),
{
    if s.len() > 0 && s.last() == '\0' { trim_nuls(s.drop_last()) } else { s }
}

/// The text of a stream: `None` when it cannot be read, is empty, or holds only NULs.
pub open spec fn stream_text(bytes: Seq<u8>, path: Seq<char>, unicode: bool) -> Option<Seq<char>> {
    match compound_stream(bytes, path) {
        None => None,
        Some(b) => if b.len() == 0 {
            None
        } else {
            let t = trim_nuls(if unicode { utf16_lossy(le_units(b)) } else { windows1252_decoding(b) });
            if t.len() == 0 { None } else { Some(t) }
        },
    }
}

/// A string property: its UTF-16 stream (`...001F`), else its ANSI stream (`...001E`).
pub open spec fn string_prop(bytes: Seq<u8>, id: Seq<char>) -> Option<Seq<char>> {
    match stream_text(bytes, "/__substg1.0_"@ + id + "001F"@, true) {
        Some(t) => Some(t),
        None => stream_text(bytes, "/__substg1.0_"@ + id + "001E"@, false),
    }
}

/// The units of a stream's bytes.
fn units_of(b: &Vec<u8>) -> (u: Vec<u16>)
    ensures
        u@ == le_units(b@),
{
    let mut u: Vec<u16> = Vec::new();
    let len = b.len();
    let n = len / 2;
    let mut i: usize = 0;
    while i < n
        invariant
            len == b@.len(),
            n == b@.len() / 2,
            i <= n,
            u@ == le_units(b@).take(i as int),
        decreases n - i,
    {
        let v: u16 = (b[2 * i] as u16) + (b[2 * i + 1] as u16) * 256;
        u.push(v);
        i += 1;
        assert(u@ =~= le_units(b@).take(i as int));
    }
    assert(le_units(b@).take(n as int) =~= le_units(b@));
    u
}

/// A text without its trailing NULs.
fn strip_nuls(s: &str) -> (r: Vec<char>)
    ensures
        r@ == trim_nuls(s@),
{
    let mut cs = chars_of(s);
    while cs.len() > 0 && cs[cs.len() - 1] == '\0'
        invariant
            trim_nuls(s@) == trim_nuls(cs@),
        decreases cs@.len(),
    {
        let ghost before = cs@;
        cs.pop();
        assert(cs@ =~= before.drop_last());
    }
    cs
}

/// The text of a stream.
fn read_stream_text(bytes: &[u8], path: &str, unicode: bool) -> (r: Option<String>)
    ensures
        match r {
            Some(t) => stream_text(bytes@, path@, unicode) == Some(t@),
            None => stream_text(bytes@, path@, unicode) is None,
        },
{
    let b = match read_stream(bytes, path) {
        Some(b) => b,
        None => return None,
    };
    if b.len() == 0 {
        return None;
    }
    let text = if unicode { utf16_text(units_of(&b).as_slice()) } else { decode_windows1252_text(b.as_slice()) };
    let t = strip_nuls(text.as_str());
    if t.len() == 0 { None } else { Some(string_of(t.as_slice())) }
}

/// Reads a string property.
fn read_string_prop(bytes: &[u8], id: &str) -> (r: Option<String>)
    ensures
        match r {
            Some(t) => string_prop(bytes@, id@) == Some(t@),
            None => string_prop(bytes@, id@) is None,
        },
{
    let unicode = String::from_str("/__substg1.0_").concat(id).concat("001F");
    match read_stream_text(bytes, unicode.as_str(), true) {
        Some(t) => Some(t),
        None => {
            let ansi = String::from_str("/__substg1.0_").concat(id).concat("001E");
            read_stream_text(bytes, ansi.as_str(), false)
        },
    }
}

/// The blocks of a message: subject (`0037`) as title, sender (`0C1A`) and
/// recipients (`0E04`) as headers, the trimmed body (`1000`); or "Empty email".
pub open spec fn msg_blocks(bytes: Seq<u8>) -> Seq<BlockView> {
    let b1: Seq<BlockView> = match string_prop(bytes, "0037"@) {
        Some(s) => if s.len() > 0 { seq![plain_block(ElementType::Title, s, 1)] } else { seq![] },
        None => seq![],
    };
    let b2 = match string_prop(bytes, "0C1A"@) {
        Some(s) => if s.len() > 0 { b1.push(plain_block(ElementType::EmailHeader, "From: "@ + s, 1)) } else { b1 },
        None => b1,
    };
    let b3 = match string_prop(bytes, "0E04"@) {
        Some(s) => if s.len() > 0 { b2.push(plain_block(ElementType::EmailHeader, "To: "@ + s, 1)) } else { b2 },
        None => b2,
    };
    let b4 = match string_prop(bytes, "1000"@) {
        Some(s) => if trim_spec(s).len() > 0 { b3.push(plain_block(ElementType::EmailBody, trim_spec(s), 1)) } else { b3 },
        None => b3,
    };
    if b4.len() == 0 { seq![plain_block(ElementType::NarrativeText, "Empty email"@, 1)] } else { b4 }
}

/// What reading a message gives.
pub open spec fn msg_result(bytes: Seq<u8>) -> Result<Seq<BlockView>, ErrorView> {
    match compound_open_error(bytes) {
        Some(m) => Err(ErrorView::Parse("Failed to open MSG compound file: "@ + m)),
        None => Ok(msg_blocks(bytes)),
    }
}

fn push_block(v: &mut Vec<Block>, b: Block)
    ensures
        block_views(final(v)@) == block_views(old(v)@).push(b@),
{
    let ghost before = block_views(v@);
    v.push(b);
    assert(block_views(v@) =~= before.push(b@));
}

impl MsgParser {
    /// The blocks of a message given the bytes of its file.
    pub fn parse_bytes(&self, bytes: &[u8]) -> (r: Result<Vec<Block>, Error>)
        ensures
            match msg_result(bytes@) {
                Ok(bs) => r matches Ok(blocks) && block_views(blocks@) == bs,
                Err(e) => r matches Err(err) && err@ == e,
            },
    {
        if let Some(m) = open_compound(bytes) {
            return Err(Error::Parse(String::from_str("Failed to open MSG compound file: ").concat(m.as_str())));
        }
        let mut blocks: Vec<Block> = Vec::new();
        assert(block_views(blocks@) =~= seq![]);
        if let Some(s) = read_string_prop(bytes, "0037") {
            if !s.as_str().is_empty() {
                push_block(&mut blocks, Block::on_page(ElementType::Title, s, 1));
            }
        }
        if let Some(s) = read_string_prop(bytes, "0C1A") {
            if !s.as_str().is_empty() {
                push_block(&mut blocks, Block::on_page(ElementType::EmailHeader, String::from_str("From: ").concat(s.as_str()), 1));
            }
        }
        if let Some(s) = read_string_prop(bytes, "0E04") {
            if !s.as_str().is_empty() {
                push_block(&mut blocks, Block::on_page(ElementType::EmailHeader, String::from_str("To: ").concat(s.as_str()), 1));
            }
        }
        if let Some(s) = read_string_prop(bytes, "1000") {
            let t = trim_chars(chars_of(s.as_str()).as_slice());
            if t.len() > 0 {
                push_block(&mut blocks, Block::on_page(ElementType::EmailBody, string_of(t.as_slice()), 1));
            }
        }
        if blocks.len() == 0 {
            push_block(&mut blocks, Block::on_page(ElementType::NarrativeText, String::from_str("Empty email"), 1));
        }
        Ok(blocks)
    }
}

} // verus!
