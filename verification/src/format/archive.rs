//! ZIP archives, read from their bytes.
use vstd::prelude::*;
use std::io::Read;

verus! {

/// An optional text as plain values.
pub open spec fn opt_string(o: Option<String>) -> Option<Seq<char>> {
    match o {
        Some(s) => Some(s@),
        None => None,
    }
}

/// The names of the entries of the ZIP archive in `bytes`, in archive order
/// (`None` for an entry, or an entry name, that cannot be read), or the message
/// of the archive's error.
pub uninterp spec fn zip_entry_names(bytes: Seq<u8>) -> Result<Seq<Option<Seq<char>>>, Seq<char>>;

/// Opens the ZIP archive in `bytes` with `zip::ZipArchive` and lists its entries' names.
#[verifier::external_body]
pub(crate) fn zip_names(bytes: &[u8]) -> (r: Result<Vec<Option<String>>, String>)
    ensures
        match r {
            Ok(ns) => zip_entry_names(bytes@) == Ok::<Seq<Option<Seq<char>>>, Seq<char>>(
                ns@.map_values(|o: Option<String>| opt_string(o)),
            ),
            Err(m) => zip_entry_names(bytes@) == Err::<Seq<Option<Seq<char>>>, Seq<char>>(m@),
        },
{
    let mut archive = zip::ZipArchive::new(std::io::Cursor::new(bytes)).map_err(|e| e.to_string())?;
    Ok((0..archive.len()).map(|i| archive.by_index(i).ok().and_then(|e| e.name().ok().map(String::from))).collect())
}

/// The text of an archive entry, or why there is none.
pub enum EntryText {
    /// The entry's content.
    Text(String),
    /// The archive or the entry could not be opened; the message says why.
    Missing(String),
    /// The entry's content could not be read as text; the message says why.
    Unreadable(String),
}

/// The text of an archive entry as plain values.
pub enum EntryTextView {
    Text(Seq<char>),
    Missing(Seq<char>),
    Unreadable(Seq<char>),
}

impl View for EntryText {
    type V = EntryTextView;

    open spec fn view(&self) -> EntryTextView {
        match self {
            EntryText::Text(t) => EntryTextView::Text(t@),
            EntryText::Missing(m) => EntryTextView::Missing(m@),
            EntryText::Unreadable(m) => EntryTextView::Unreadable(m@),
        }
    }
}

/// What reading the entry `name` of the ZIP archive in `bytes` as text gives.
pub uninterp spec fn zip_entry_text(bytes: Seq<u8>, name: Seq<char>) -> EntryTextView;

/// Opens the ZIP archive in `bytes`, finds the entry `name` with `by_name` and
/// reads it to a string.
#[verifier::external_body]
pub(crate) fn read_zip_entry(bytes: &[u8], name: &str) -> (r: EntryText)
    ensures
        r@ == zip_entry_text(bytes@, name@),
{
    let mut archive = match zip::ZipArchive::new(std::io::Cursor::new(bytes)) {
        Ok(a) => a,
        Err(e) => return EntryText::Missing(e.to_string()),
    };
    let mut entry = match archive.by_name(name) {
        Ok(e) => e,
        Err(e) => return EntryText::Missing(e.to_string()),
    };
    let mut text = String::new();
    match entry.read_to_string(&mut text) {
        Ok(_) => EntryText::Text(text),
        Err(e) => EntryText::Unreadable(e.to_string()),
    }
}

} // verus!
