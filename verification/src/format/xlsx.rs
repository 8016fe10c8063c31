//! Spreadsheets: a title and a table per sheet.
use vstd::prelude::*;
use crate::format::csv_tsv::join_comma;
use crate::model::{block_views, plain_block, Block, BlockView, ElementType, TableData, TableDataView};
use crate::strings::{decimal, usize_to_decimal};
use crate::{Error, ErrorView};

verus! {

/// Spreadsheets (xlsx, xls, xlsb, ods).
pub struct XlsxParser;

/// A sheet as the workbook reader gives it: its name and its rows of cell
/// texts, or the message of the error reading its range.
pub struct Sheet {
    pub name: String,
    pub rows: Result<Vec<Vec<String>>, String>,
}

/// A sheet as plain values.
pub struct SheetView {
    pub name: Seq<char>,
    pub rows: Result<Seq<Seq<Seq<char>>>, Seq<char>>,
}

impl View for Sheet {
    type V = SheetView;

    open spec fn view(&self) -> SheetView {
        SheetView {
            name: self.name@,
            rows: match self.rows {
                Ok(r) => Ok(r.deep_view()),
                Err(m) => Err(m@),
            },
        }
    }
}

/// The views of sheets.
pub open spec fn sheet_views(s: Seq<Sheet>) -> Seq<SheetView> {
    s.map_values(|x: Sheet| x@)
}

/// The page of the sheet at position `k`: its position from one, wrapping at 2^32.
pub open spec fn sheet_page(k: int) -> u32 {
    ((k + 1) % 0x1_0000_0000) as u32
}

/// The blocks of a sheet of rows: its name as title, then, when it has rows, a
/// table whose first row is the header.
pub open spec fn sheet_blocks(name: Seq<char>, rows: Seq<Seq<Seq<char>>>, page: u32) -> Seq<BlockView> {
    let title = plain_block(ElementType::Title, name, page);
    if rows.len() == 0 {
        seq![title]
    } else {
        let headers = rows[0];
        let body = rows.drop_first();
        seq![
            title,
            BlockView {
                table_data: Some(TableDataView { rows: body, headers: Some(headers) }),
                ..plain_block(
                    ElementType::Table,
                    "Sheet \""@ + name + "\": "@ + decimal(headers.len()) + " columns ("@ + join_comma(headers)
                        + ") and "@ + decimal(body.len()) + " data rows"@,
                    page,
                )
            },
        ]
    }
}

/// The blocks of the first `k` sheets, or the first sheet error.
pub open spec fn sheets_result(sheets: Seq<SheetView>, k: int) -> Result<Seq<BlockView>, ErrorView>
    decreases k,
{
    if k <= 0 {
        Ok(seq![])
    } else {
        match sheets_result(sheets, k - 1) {
            Err(e) => Err(e),
            Ok(before) => match sheets[k - 1].rows {
                Err(m) => Err(ErrorView::Parse(m)),
                Ok(rows) => Ok(before + sheet_blocks(sheets[k - 1].name, rows, sheet_page(k - 1))),
            },
        }
    }
}

/// The blocks of a workbook's sheets: "Empty spreadsheet" when there are none.
pub open spec fn workbook_result(sheets: Seq<SheetView>) -> Result<Seq<BlockView>, ErrorView> {
    match sheets_result(sheets, sheets.len() as int) {
        Err(e) => Err(e),
        Ok(bs) => Ok(if bs.len() == 0 { seq![plain_block(ElementType::NarrativeText, "Empty spreadsheet"@, 1)] } else { bs }),
    }
}

proof fn lemma_sheet_error_stays(sheets: Seq<SheetView>, k: int, n: int)
    requires
        0 <= k <= n,
        sheets_result(sheets, k) is Err,
    ensures
        sheets_result(sheets, n) == sheets_result(sheets, k),
    decreases n - k,
{
    if n > k {
        lemma_sheet_error_stays(sheets, k, n - 1);
    }
}

impl XlsxParser {
    /// The blocks of a workbook given its sheets as the reader gives them.
    pub fn blocks_of_sheets(&self, sheets: &Vec<Sheet>) -> (r: Result<Vec<Block>, Error>)
        ensures
            match workbook_result(sheet_views(sheets@)) {
                Ok(bs) => r matches Ok(blocks) && block_views(blocks@) == bs,
                Err(e) => r matches Err(err) && err@ == e,
            },
    {
        let ghost sv = sheet_views(sheets@);
        let mut blocks: Vec<Block> = Vec::new();
        assert(block_views(blocks@) =~= seq![]);
        let mut k: usize = 0;
        while k < sheets.len()
            invariant
                k <= sheets@.len(),
                sv == sheet_views(sheets@),
                sheets_result(sv, k as int) == Ok::<Seq<BlockView>, ErrorView>(block_views(blocks@)),
            decreases sheets@.len() - k,
        {
            let sheet = &sheets[k];
            let rows = match &sheet.rows {
                Ok(r) => r,
                Err(m) => {
                    proof { lemma_sheet_error_stays(sv, k + 1, sv.len() as int); }
                    return Err(Error::Parse(m.clone()));
                },
            };
            let page: u32 = ((k as u64 + 1) % 0x1_0000_0000) as u32;
            let ghost before = block_views(blocks@);
            blocks.push(Block::on_page(ElementType::Title, sheet.name.clone(), page));
            if rows.len() > 0 {
                let headers = crate::model::copy_strings(&rows[0]);
                let mut body: Vec<Vec<String>> = Vec::new();
                let mut i: usize = 1;
                while i < rows.len()
                    invariant
                        1 <= i <= rows@.len(),
                        body.deep_view() == rows.deep_view().subrange(1, i as int),
                    decreases rows@.len() - i,
                {
                    let ghost b0 = body.deep_view();
                    body.push(crate::model::copy_strings(&rows[i]));
                    assert(body.deep_view() =~= b0.push(rows.deep_view()[i as int]));
                    i += 1;
                    assert(rows.deep_view().subrange(1, i as int) =~= rows.deep_view().subrange(1, i - 1).push(
                        rows.deep_view()[i - 1],
                    ));
                }
                assert(rows.deep_view().subrange(1, rows@.len() as int) =~= rows.deep_view().drop_first());
                let text = String::from_str("Sheet \"")
                    .concat(sheet.name.as_str())
                    .concat("\": ")
                    .concat(usize_to_decimal(headers.len()).as_str())
                    .concat(" columns (")
                    .concat(crate::format::csv_tsv::join_with_comma(&headers).as_str())
                    .concat(") and ")
                    .concat(usize_to_decimal(body.len()).as_str())
                    .concat(" data rows");
                let ghost hv = headers.deep_view();
                let ghost bv = body.deep_view();
                let mut b = Block::on_page(ElementType::Table, text, page);
                b.table_data = Some(TableData { rows: body, headers: Some(headers) });
                assert(b@.table_data == Some(TableDataView { rows: bv, headers: Some(hv) }));
                blocks.push(b);
            }
            assert(block_views(blocks@) =~= before + sheet_blocks(sv[k as int].name, rows.deep_view(), page));
            k += 1;
        }
        if blocks.len() == 0 {
            blocks.push(Block::on_page(ElementType::NarrativeText, String::from_str("Empty spreadsheet"), 1));
            assert(block_views(blocks@) =~= seq![plain_block(ElementType::NarrativeText, "Empty spreadsheet"@, 1)]);
        }
        Ok(blocks)
    }
}

} // verus!
