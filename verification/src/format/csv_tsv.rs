//! Delimited tables: CSV, TSV and their kin.
use vstd::prelude::*;
use vstd::utf8::{decode_utf8, valid_utf8};
use crate::model::{Block, BlockView, ElementType, TableData, TableDataView, plain_block};
use crate::strings::{chars_of, decimal, usize_to_decimal};

verus! {

/// Delimited text tables.
pub struct CsvTsvParser;

/// The text before the `n`-th line break of `s`, or all of `s`: its first `n` lines.
pub open spec fn head_lines(s: Seq<char>, n: nat) -> Seq<char>
    decreases s.len(),
{
    if s.len() == 0 || n == 0 {
        seq![]
    } else if s[0] == '\n' {
        if n == 1 { seq![] } else { seq!['\n'] + head_lines(s.drop_first(), (n - 1) as nat) }
    } else {
        seq![s[0]] + head_lines(s.drop_first(), n)
    }
}

/// How often `c` occurs in `s`.
pub open spec fn count_of(s: Seq<char>, c: char) -> nat
    decreases s.len(),
{
    if s.len() == 0 { 0 } else { (if s[0] == c { 1nat } else { 0nat }) + count_of(s.drop_first(), c) }
}

/// The delimiter that occurs most in the first five lines: tab, then semicolon,
/// then pipe win ties over comma; comma when none occurs.
pub open spec fn delimiter_of(text: Seq<char>) -> u8 {
    let h = head_lines(text, 5);
    let tab = count_of(h, '\t');
    let comma = count_of(h, ',');
    let semi = count_of(h, ';');
    let pipe = count_of(h, '|');
    let m1 = if tab > comma { tab } else { comma };
    let m2 = if m1 > semi { m1 } else { semi };
    let max = if m2 > pipe { m2 } else { pipe };
    if max == 0 {
        44
    } else if max == tab {
        9
    } else if max == semi {
        59
    } else if max == pipe {
        124
    } else {
        44
    }
}

/// Picks the delimiter of a table from the counts of the candidates in its first five lines.
pub fn detect_delimiter(text: &str) -> (d: u8)
    ensures
        d == delimiter_of(text@),
{
    let cs = chars_of(text);
    let n = cs.len();
    let mut i: usize = 0;
    let mut left: usize = 5;
    let mut tab: usize = 0;
    let mut comma: usize = 0;
    let mut semi: usize = 0;
    let mut pipe: usize = 0;
    assert(cs@.skip(0) =~= cs@);
    while i < n && left > 0
        invariant
            n == cs@.len(),
            cs@ == text@,
            i <= n,
            left <= 5,
            tab <= i && comma <= i && semi <= i && pipe <= i,
            count_of(head_lines(text@, 5), '\t') == tab + count_of(head_lines(cs@.skip(i as int), left as nat), '\t'),
            count_of(head_lines(text@, 5), ',') == comma + count_of(head_lines(cs@.skip(i as int), left as nat), ','),
            count_of(head_lines(text@, 5), ';') == semi + count_of(head_lines(cs@.skip(i as int), left as nat), ';'),
            count_of(head_lines(text@, 5), '|') == pipe + count_of(head_lines(cs@.skip(i as int), left as nat), '|'),
        decreases n - i,
    {
        let c = cs[i];
        let ghost rest = cs@.skip(i as int);
        assert(rest.drop_first() =~= cs@.skip(i + 1));
        assert(rest[0] == c);
        if c == '\n' {
            proof {
                if left > 1 {
                    let h = head_lines(cs@.skip(i + 1), (left - 1) as nat);
                    assert((seq!['\n'] + h).drop_first() =~= h);
                }
            }
            left -= 1;
        } else {
            let ghost h = head_lines(cs@.skip(i + 1), left as nat);
            assert((seq![c] + h).drop_first() =~= h);
            if c == '\t' {
                tab += 1;
            } else if c == ',' {
                comma += 1;
            } else if c == ';' {
                semi += 1;
            } else if c == '|' {
                pipe += 1;
            }
        }
        i += 1;
    }
    let m1 = if tab > comma { tab } else { comma };
    let m2 = if m1 > semi { m1 } else { semi };
    let max = if m2 > pipe { m2 } else { pipe };
    if max == 0 {
        44
    } else if max == tab {
        9
    } else if max == semi {
        59
    } else if max == pipe {
        124
    } else {
        44
    }
}


/// The text that `String::from_utf8_lossy` reads from bytes.
pub uninterp spec fn lossy_utf8(bytes: Seq<u8>) -> Seq<char>;

/// `String::from_utf8_lossy(bytes)`: the text of the bytes, invalid sequences
/// replaced by U+FFFD; valid UTF-8 is read as it is.
#[verifier::external_body]
pub(crate) fn utf8_lossy(bytes: &[u8]) -> (s: String)
    ensures
        s@ == lossy_utf8(bytes@),
        valid_utf8(bytes@) ==> s@ == decode_utf8(bytes@),
{
    String::from_utf8_lossy(bytes).into_owned()
}

/// A row of a table as texts.
pub open spec fn opt_row(o: Option<Vec<String>>) -> Option<Seq<Seq<char>>> {
    match o {
        Some(r) => Some(r.deep_view()),
        None => None,
    }
}

/// What the `csv` crate reads from a text with the given delimiter, a header row
/// and rows of any width: the header fields (`None` when they cannot be read) and,
/// per record, its fields or `None` for a record that failed to read.
pub uninterp spec fn csv_records(text: Seq<char>, delimiter: u8) -> (Option<Seq<Seq<char>>>, Seq<Option<Seq<Seq<char>>>>);

/// Reads a delimited text with `csv::ReaderBuilder` (header row, flexible row widths).
#[verifier::external_body]
fn read_csv(text: &str, delimiter: u8) -> (r: (Option<Vec<String>>, Vec<Option<Vec<String>>>))
    ensures
        (opt_row(r.0), r.1@.map_values(|o: Option<Vec<String>>| opt_row(o))) == csv_records(text@, delimiter),
{
    let mut rdr = csv::ReaderBuilder::new().delimiter(delimiter).has_headers(true).flexible(true).from_reader(text.as_bytes());
    let headers = rdr.headers().ok().map(|h| h.iter().map(String::from).collect());
    let rows = rdr.records().map(|r| r.ok().map(|rec| rec.iter().map(String::from).collect())).collect();
    (headers, rows)
}

/// The records that were read, in order.
pub open spec fn read_rows(rs: Seq<Option<Seq<Seq<char>>>>) -> Seq<Seq<Seq<char>>>
    decreases rs.len(),
{
    if rs.len() == 0 {
        seq![]
    } else {
        let before = read_rows(rs.drop_last());
        match rs.last() {
            Some(r) => before.push(r),
            None => before,
        }
    }
}

/// Texts joined with `, `.
pub open spec fn join_comma(ts: Seq<Seq<char>>) -> Seq<char>
    decreases ts.len(),
{
    if ts.len() == 0 {
        seq![]
    } else if ts.len() == 1 {
        ts[0]
    } else {
        join_comma(ts.drop_last()) + ", "@ + ts.last()
    }
}

/// The description of a table: its columns, when a header was read, and its rows.
pub open spec fn table_text(headers: Option<Seq<Seq<char>>>, rows: nat) -> Seq<char> {
    match headers {
        Some(h) => "Table with "@ + decimal(h.len()) + " columns ("@ + join_comma(h) + ") and "@ + decimal(rows)
            + " rows"@,
        None => "Table with "@ + decimal(rows) + " rows"@,
    }
}

/// The block of a delimited file: one table, described in its text.
pub open spec fn csv_block(bytes: Seq<u8>) -> BlockView {
    let text = lossy_utf8(bytes);
    let (headers, records) = csv_records(text, delimiter_of(text));
    let rows = read_rows(records);
    BlockView {
        table_data: Some(TableDataView { rows, headers }),
        ..plain_block(ElementType::Table, table_text(headers, rows.len()), 1)
    }
}

/// Texts joined with `, `.
pub(crate) fn join_with_comma(ts: &Vec<String>) -> (s: String)
    ensures
        s@ == join_comma(ts.deep_view()),
{
    let mut s = String::new();
    let mut i: usize = 0;
    while i < ts.len()
        invariant
            i <= ts@.len(),
            s@ == join_comma(ts.deep_view().take(i as int)),
        decreases ts@.len() - i,
    {
        assert(ts.deep_view().take(i + 1).drop_last() =~= ts.deep_view().take(i as int));
        if i > 0 {
            s.append(", ");
        }
        s.append(ts[i].as_str());
        i += 1;
    }
    assert(ts.deep_view().take(i as int) =~= ts.deep_view());
    s
}

impl CsvTsvParser {
    /// The table block of a delimited file given its bytes; the delimiter is detected.
    pub fn parse_bytes(&self, content: &[u8]) -> (blocks: Vec<Block>)
        ensures
            blocks@.len() == 1,
            blocks@[0]@ == csv_block(content@),
    {
        let text = utf8_lossy(content);
        let delimiter = detect_delimiter(text.as_str());
        let (headers, records) = read_csv(text.as_str(), delimiter);
        let ghost recs = records@.map_values(|o: Option<Vec<String>>| opt_row(o));
        let mut rows: Vec<Vec<String>> = Vec::new();
        let mut i: usize = 0;
        while i < records.len()
            invariant
                i <= records@.len(),
                recs == records@.map_values(|o: Option<Vec<String>>| opt_row(o)),
                rows.deep_view() == read_rows(recs.take(i as int)),
            decreases records@.len() - i,
        {
            assert(recs.take(i + 1).drop_last() =~= recs.take(i as int));
            assert(recs.take(i + 1).last() == opt_row(records@[i as int]));
            match &records[i] {
                Some(r) => {
                    let ghost before = rows.deep_view();
                    rows.push(crate::model::copy_strings(r));
                    assert(rows.deep_view() =~= before.push(r.deep_view()));
                },
                None => {},
            }
            i += 1;
        }
        assert(recs.take(records@.len() as int) =~= recs);
        let text_out = match &headers {
            Some(h) => String::from_str("Table with ")
                .concat(usize_to_decimal(h.len()).as_str())
                .concat(" columns (")
                .concat(join_with_comma(h).as_str())
                .concat(") and ")
                .concat(usize_to_decimal(rows.len()).as_str())
                .concat(" rows"),
            None => String::from_str("Table with ").concat(usize_to_decimal(rows.len()).as_str()).concat(" rows"),
        };
        let ghost hv = opt_row(headers);
        let ghost rv = rows.deep_view();
        let mut b = Block::on_page(ElementType::Table, text_out, 1);
        b.table_data = Some(TableData { rows, headers });
        assert(b@.table_data == Some(TableDataView { rows: rv, headers: hv }));
        let mut v: Vec<Block> = Vec::new();
        v.push(b);
        v
    }
}

} // verus!
