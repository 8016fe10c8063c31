//! Image files: dimensions read from the header bytes.
use vstd::prelude::*;
use crate::format::pdf::{to_lowercase, unicode_lowercase};
use crate::model::{plain_block, Block, BlockView, ElementType};
use crate::strings::{decimal, u64_to_decimal, usize_to_decimal};

verus! {

/// Images: no text is extracted, the block describes the file.
pub struct ImageParser;

/// A big-endian 32-bit number.
pub open spec fn be32(a: u8, b: u8, c: u8, d: u8) -> u32 {
    (a as int * 0x1000000 + b as int * 0x10000 + c as int * 0x100 + d as int) as u32
}

/// A little-endian 32-bit number.
pub open spec fn le32(a: u8, b: u8, c: u8, d: u8) -> u32 {
    be32(d, c, b, a)
}

/// A big-endian 16-bit number.
pub open spec fn be16(a: u8, b: u8) -> u32 {
    (a as int * 0x100 + b as int) as u32
}

/// The magnitude of a 32-bit two's complement number given by its bits.
pub open spec fn abs_i32_bits(u: u32) -> u32 {
    if u < 0x8000_0000 { u } else { (0x1_0000_0000 - u) as u32 }
}

fn be32_of(a: u8, b: u8, c: u8, d: u8) -> (r: u32)
    ensures
        r == be32(a, b, c, d),
{
    (a as u32) * 0x1000000 + (b as u32) * 0x10000 + (c as u32) * 0x100 + (d as u32)
}

fn be16_of(a: u8, b: u8) -> (r: u32)
    ensures
        r == be16(a, b),
{
    (a as u32) * 0x100 + (b as u32)
}

/// Whether `data` starts with `p`.
pub open spec fn has_prefix(data: Seq<u8>, p: Seq<u8>) -> bool {
    p.len() <= data.len() && data.take(p.len() as int) == p
}

/// Whether `data` starts with the bytes of `p`.
pub fn bytes_start_with(data: &[u8], p: &[u8]) -> (b: bool)
    ensures
        b == has_prefix(data@, p@),
{
    if p.len() > data.len() {
        return false;
    }
    let mut i: usize = 0;
    while i < p.len()
        invariant
            i <= p@.len() <= data@.len(),
            data@.take(i as int) == p@.take(i as int),
        decreases p@.len() - i,
    {
        if data[i] != p[i] {
            assert(data@.take(p@.len() as int)[i as int] != p@[i as int]);
            return false;
        }
        i += 1;
        assert(data@.take(i as int) =~= p@.take(i as int));
    }
    assert(p@.take(p@.len() as int) =~= p@);
    true
}

/// The PNG signature's first bytes.
pub open spec fn png_magic() -> Seq<u8> {
    seq![0x89u8, 0x50u8, 0x4Eu8, 0x47u8]
}

/// Width and height from a PNG header: big-endian at bytes 16 and 20.
pub open spec fn png_dimensions(d: Seq<u8>) -> Option<(u32, u32)> {
    if d.len() < 24 || !has_prefix(d, png_magic()) {
        None
    } else {
        Some((be32(d[16], d[17], d[18], d[19]), be32(d[20], d[21], d[22], d[23])))
    }
}

/// Reads width and height from a PNG header.
pub fn read_png_dimensions(data: &[u8]) -> (r: Option<(u32, u32)>)
    ensures
        r == png_dimensions(data@),
{
    let magic: [u8; 4] = [0x89, 0x50, 0x4E, 0x47];
    assert(magic@ =~= png_magic());
    if data.len() < 24 || !bytes_start_with(data, &magic) {
        return None;
    }
    let w = be32_of(data[16], data[17], data[18], data[19]);
    let h = be32_of(data[20], data[21], data[22], data[23]);
    Some((w, h))
}

/// Scans JPEG markers from position `i` for a start-of-frame marker (baseline
/// `C0` or progressive `C2`), whose height and width follow big-endian; other
/// segments are skipped by their length.
pub open spec fn jpeg_scan(d: Seq<u8>, i: int) -> Option<(u32, u32)>
    decreases d.len() - i,
{
    if i < 0 || i + 1 >= d.len() {
        None
    } else if d[i] != 0xFF {
        jpeg_scan(d, i + 1)
    } else if d[i + 1] == 0xC0 || d[i + 1] == 0xC2 {
        if i + 9 < d.len() {
            Some((be16(d[i + 7], d[i + 8]), be16(d[i + 5], d[i + 6])))
        } else {
            None
        }
    } else if i + 3 < d.len() {
        let next = i + 2 + be16(d[i + 2], d[i + 3]);
        if next + 1 >= d.len() { None } else { jpeg_scan(d, next) }
    } else {
        None
    }
}

/// Width and height from a JPEG file: it starts `FF D8`, then its markers are scanned.
pub open spec fn jpeg_dimensions(d: Seq<u8>) -> Option<(u32, u32)> {
    if d.len() < 4 || d[0] != 0xFF || d[1] != 0xD8 { None } else { jpeg_scan(d, 2) }
}

/// Reads width and height from a JPEG file.
pub fn read_jpeg_dimensions(data: &[u8]) -> (r: Option<(u32, u32)>)
    ensures
        r == jpeg_dimensions(data@),
{
    if data.len() < 4 || data[0] != 0xFF || data[1] != 0xD8 {
        return None;
    }
    let n = data.len();
    let mut i: usize = 2;
    while i < n - 1
        invariant
            n == data@.len(),
            2 <= i <= n,
            jpeg_dimensions(data@) == jpeg_scan(data@, i as int),
        decreases n - i,
    {
        if data[i] != 0xFF {
            i += 1;
        } else {
            let marker = data[i + 1];
            if marker == 0xC0 || marker == 0xC2 {
                if 9 < n - i {
                    let h = be16_of(data[i + 5], data[i + 6]);
                    let w = be16_of(data[i + 7], data[i + 8]);
                    return Some((w, h));
                }
                return None;
            }
            if 3 < n - i {
                let len = be16_of(data[i + 2], data[i + 3]) as usize;
                if len + 2 >= n - i {
                    i = n;
                } else {
                    i = i + 2 + len;
                }
            } else {
                return None;
            }
        }
    }
    None
}

/// The GIF signature's first bytes.
pub open spec fn gif_magic() -> Seq<u8> {
    seq![0x47u8, 0x49u8, 0x46u8, 0x38u8]
}

/// Width and height from a GIF header: little-endian at bytes 6 and 8.
pub open spec fn gif_dimensions(d: Seq<u8>) -> Option<(u32, u32)> {
    if d.len() < 10 || !has_prefix(d, gif_magic()) {
        None
    } else {
        Some((be16(d[7], d[6]), be16(d[9], d[8])))
    }
}

/// Reads width and height from a GIF header.
pub fn read_gif_dimensions(data: &[u8]) -> (r: Option<(u32, u32)>)
    ensures
        r == gif_dimensions(data@),
{
    let magic: [u8; 4] = [0x47, 0x49, 0x46, 0x38];
    assert(magic@ =~= gif_magic());
    if data.len() < 10 || !bytes_start_with(data, &magic) {
        return None;
    }
    Some((be16_of(data[7], data[6]), be16_of(data[9], data[8])))
}

/// The BMP signature.
pub open spec fn bmp_magic() -> Seq<u8> {
    seq![0x42u8, 0x4Du8]
}

/// Width and height from a BMP header: little-endian at bytes 18 and 22, the
/// height signed (negative for top-down images) and taken by magnitude.
pub open spec fn bmp_dimensions(d: Seq<u8>) -> Option<(u32, u32)> {
    if d.len() < 26 || !has_prefix(d, bmp_magic()) {
        None
    } else {
        Some((le32(d[18], d[19], d[20], d[21]), abs_i32_bits(le32(d[22], d[23], d[24], d[25]))))
    }
}

/// Reads width and height from a BMP header.
pub fn read_bmp_dimensions(data: &[u8]) -> (r: Option<(u32, u32)>)
    ensures
        r == bmp_dimensions(data@),
{
    let magic: [u8; 2] = [0x42, 0x4D];
    assert(magic@ =~= bmp_magic());
    if data.len() < 26 || !bytes_start_with(data, &magic) {
        return None;
    }
    let w = be32_of(data[21], data[20], data[19], data[18]);
    let hu = be32_of(data[25], data[24], data[23], data[22]);
    let h = if hu < 0x8000_0000 { hu } else { ((0x1_0000_0000u64 - hu as u64) as u32) };
    Some((w, h))
}

/// The dimensions of an image of the given (lower-case) extension, read from its bytes.
pub open spec fn image_dimensions(data: Seq<u8>, ext: Seq<char>) -> Option<(u32, u32)> {
    if ext == "png"@ {
        png_dimensions(data)
    } else if ext == "jpg"@ || ext == "jpeg"@ {
        jpeg_dimensions(data)
    } else if ext == "gif"@ {
        gif_dimensions(data)
    } else if ext == "bmp"@ {
        bmp_dimensions(data)
    } else {
        None
    }
}

/// Whether two character sequences are equal.
fn same_text(a: &str, b: &str) -> (r: bool)
    ensures
        r == (a@ == b@),
{
    let x = crate::strings::chars_of(a);
    let y = crate::strings::chars_of(b);
    if x.len() != y.len() {
        return false;
    }
    let mut i: usize = 0;
    while i < x.len()
        invariant
            i <= x@.len(),
            x@.len() == y@.len(),
            x@ == a@,
            y@ == b@,
            x@.take(i as int) == y@.take(i as int),
        decreases x@.len() - i,
    {
        if x[i] != y[i] {
            assert(x@[i as int] != y@[i as int]);
            return false;
        }
        i += 1;
        assert(x@.take(i as int) =~= y@.take(i as int));
    }
    assert(x@.take(x@.len() as int) =~= x@);
    assert(y@.take(y@.len() as int) =~= y@);
    true
}

/// Reads the dimensions of an image from its bytes, by its lower-case extension.
pub fn read_image_dimensions(data: &[u8], ext: &str) -> (r: Option<(u32, u32)>)
    ensures
        r == image_dimensions(data@, ext@),
{
    if same_text(ext, "png") {
        read_png_dimensions(data)
    } else if same_text(ext, "jpg") || same_text(ext, "jpeg") {
        read_jpeg_dimensions(data)
    } else if same_text(ext, "gif") {
        read_gif_dimensions(data)
    } else if same_text(ext, "bmp") {
        read_bmp_dimensions(data)
    } else {
        None
    }
}


/// The text of an image block: its extension, dimensions and size.
pub open spec fn image_text(ext: Seq<char>, dims: Option<(u32, u32)>, size: u64) -> Seq<char> {
    "Image ("@ + ext + "): "@ + match dims {
        Some(d) => decimal(d.0 as nat) + "x"@ + decimal(d.1 as nat),
        None => "unknown dimensions"@,
    } + ", "@ + decimal(size as nat) + " bytes \u{2014} OCR not available (ONNX runtime not configured)"@
}

impl ImageParser {
    /// The block of an image file, given its extension (`"unknown"` when it has
    /// none), its bytes and its size: the extension is lower-cased and the
    /// dimensions read from the header.
    pub fn parse_bytes(&self, ext: &str, data: &[u8], file_size: u64) -> (blocks: Vec<Block>)
        ensures
            blocks@.len() == 1,
            blocks@[0]@ == plain_block(
                ElementType::Image,
                image_text(unicode_lowercase(ext@), image_dimensions(data@, unicode_lowercase(ext@)), file_size),
                1,
            ),
    {
        let lower = to_lowercase(ext);
        let dims = read_image_dimensions(data, lower.as_str());
        let dim_text = match dims {
            Some((w, h)) => usize_to_decimal(w as usize).concat("x").concat(usize_to_decimal(h as usize).as_str()),
            None => String::from_str("unknown dimensions"),
        };
        let text = String::from_str("Image (")
            .concat(lower.as_str())
            .concat("): ")
            .concat(dim_text.as_str())
            .concat(", ")
            .concat(u64_to_decimal(file_size).as_str())
            .concat(" bytes \u{2014} OCR not available (ONNX runtime not configured)");
        let mut blocks: Vec<Block> = Vec::new();
        blocks.push(Block::on_page(ElementType::Image, text, 1));
        blocks
    }
}

} // verus!
