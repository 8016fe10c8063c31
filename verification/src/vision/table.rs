//! OTSL (Optimized Table Structure Language) decoding.
//!
//! OTSL tokens:
//!   C  = regular cell
//!   L  = left-looking (merge with left neighbor -> colspan)
//!   U  = up-looking (merge with cell above -> rowspan)
//!   X  = cross (merge both left and up)
//!   NL = new line (end of row)
use vstd::prelude::*;

use crate::model::TableData;
use crate::strings::{chars_of, decimal, is_white_space, is_whitespace, string_of, usize_to_decimal};
use crate::Error;

verus! {

/// OTSL token types emitted by the table-structure model.
#[derive(Debug, Clone, Copy, PartialEq, Eq, Structural)]
pub enum OtslToken {
    /// Regular cell
    C,
    /// Left-merge (extend colspan of left neighbor)
    L,
    /// Up-merge (extend rowspan of cell above)
    U,
    /// Cross-merge (both left and up)
    X,
    /// New line (end of row)
    NL,
}

// ---------------------------------------------------------------------------
// The grid: rows of tokens
// ---------------------------------------------------------------------------

/// Splits a token sequence into rows at `NL`; empty rows are dropped.
/// `done` holds the finished rows and `cur` the row being read.
pub open spec fn rows_from(t: Seq<OtslToken>, done: Seq<Seq<OtslToken>>, cur: Seq<OtslToken>) -> Seq<Seq<OtslToken>>
    decreases t.len(),
{
    if t.len() == 0 {
        if cur.len() > 0 { done.push(cur) } else { done }
    } else if t[0] == OtslToken::NL {
        rows_from(t.drop_first(), if cur.len() > 0 { done.push(cur) } else { done }, seq![])
    } else {
        rows_from(t.drop_first(), done, cur.push(t[0]))
    }
}

/// The rows of the grid that a token sequence describes.
pub open spec fn otsl_rows(t: Seq<OtslToken>) -> Seq<Seq<OtslToken>> {
    rows_from(t, seq![], seq![])
}

/// A cell that may carry a colspan: `C` or `U`.
pub open spec fn is_left_origin(t: OtslToken) -> bool {
    t == OtslToken::C || t == OtslToken::U
}

/// A cell that may carry a rowspan: `C` or `L`.
pub open spec fn is_up_origin(t: OtslToken) -> bool {
    t == OtslToken::C || t == OtslToken::L
}

/// A cell that merges into its left neighbour: `L` or `X`.
pub open spec fn merges_left(t: OtslToken) -> bool {
    t == OtslToken::L || t == OtslToken::X
}

/// The nearest column left of `c` in `row` holding `C` or `U`.
pub open spec fn left_origin(row: Seq<OtslToken>, c: int) -> Option<int>
    decreases c,
{
    if c <= 0 {
        None
    } else if is_left_origin(row[c - 1]) {
        Some(c - 1)
    } else {
        left_origin(row, c - 1)
    }
}

/// The nearest row above `r` whose column `c` exists and holds `C` or `L`.
pub open spec fn up_origin(g: Seq<Seq<OtslToken>>, r: int, c: int) -> Option<int>
    decreases r,
{
    if r <= 0 {
        None
    } else if c < g[r - 1].len() && is_up_origin(g[r - 1][c]) {
        Some(r - 1)
    } else {
        up_origin(g, r - 1, c)
    }
}

/// The column of row `r0` whose rowspan grows for an up-merge found in column `c`:
/// the cell directly above, or, where that cell continues a colspan (`L` or `X`),
/// the origin of that colspan.
pub open spec fn rowspan_target(g: Seq<Seq<OtslToken>>, r0: int, c: int) -> int {
    if merges_left(g[r0][c]) {
        match left_origin(g[r0], c) {
            Some(x) => x,
            None => c,
        }
    } else {
        c
    }
}

/// Whether the left-merge pass absorbs cell `c` of `row` into a cell to its left.
pub open spec fn absorbed_left(row: Seq<OtslToken>, c: int) -> bool {
    merges_left(row[c]) && left_origin(row, c) is Some
}

/// Whether cell `(r, c)` is absorbed by a merge and so produces no output cell.
pub open spec fn consumed(g: Seq<Seq<OtslToken>>, r: int, c: int) -> bool {
    absorbed_left(g[r], c) || g[r][c] == OtslToken::U || g[r][c] == OtslToken::X
}

/// Among the first `n` cells of `row`, how many merge into column `o`.
pub open spec fn left_merges_into(row: Seq<OtslToken>, o: int, n: int) -> nat
    decreases n,
{
    if n <= 0 {
        0
    } else {
        left_merges_into(row, o, n - 1) + if absorbed_left(row, n - 1) && left_origin(row, n - 1)
            == Some(o) {
            1nat
        } else {
            0nat
        }
    }
}

/// The number of columns that cell `(r, c)` spans.
pub open spec fn colspan_of(g: Seq<Seq<OtslToken>>, r: int, c: int) -> nat {
    1 + left_merges_into(g[r], c, g[r].len() as int)
}

/// Whether the `U` cell at `(r, c)` extends the rowspan of cell `(r0, c0)`.
pub open spec fn up_merge_into(g: Seq<Seq<OtslToken>>, r0: int, c0: int, r: int, c: int) -> bool {
    g[r][c] == OtslToken::U && up_origin(g, r, c) == Some(r0) && rowspan_target(g, r0, c) == c0
}

/// Among the first `n` cells of row `r`, how many extend the rowspan of `(r0, c0)`.
pub open spec fn up_merges_in_row(g: Seq<Seq<OtslToken>>, r0: int, c0: int, r: int, n: int) -> nat
    decreases n,
{
    if n <= 0 {
        0
    } else {
        up_merges_in_row(g, r0, c0, r, n - 1) + if up_merge_into(g, r0, c0, r, n - 1) {
            1nat
        } else {
            0nat
        }
    }
}

/// Among the first `nr` rows, how many cells extend the rowspan of `(r0, c0)`.
pub open spec fn up_merges_in_rows(g: Seq<Seq<OtslToken>>, r0: int, c0: int, nr: int) -> nat
    decreases nr,
{
    if nr <= 0 {
        0
    } else {
        up_merges_in_rows(g, r0, c0, nr - 1) + up_merges_in_row(g, r0, c0, nr - 1, g[nr - 1].len() as int)
    }
}

/// The number of rows that cell `(r, c)` spans.
pub open spec fn rowspan_of(g: Seq<Seq<OtslToken>>, r: int, c: int) -> nat {
    1 + up_merges_in_rows(g, r, c, g.len() as int)
}

/// The number of cells of row `r` before column `n` that are not consumed.
pub open spec fn live_in_row(g: Seq<Seq<OtslToken>>, r: int, n: int) -> nat
    decreases n,
{
    if n <= 0 {
        0
    } else {
        live_in_row(g, r, n - 1) + if consumed(g, r, n - 1) { 0nat } else { 1nat }
    }
}

/// The number of cells in the first `nr` rows that are not consumed.
pub open spec fn live_in_rows(g: Seq<Seq<OtslToken>>, nr: int) -> nat
    decreases nr,
{
    if nr <= 0 {
        0
    } else {
        live_in_rows(g, nr - 1) + live_in_row(g, nr - 1, g[nr - 1].len() as int)
    }
}

/// The reading-order position of cell `(r, c)` among the cells that are not consumed.
pub open spec fn live_rank(g: Seq<Seq<OtslToken>>, r: int, c: int) -> nat {
    live_in_rows(g, r) + live_in_row(g, r, c)
}

/// The text of cell `(r, c)`: the content at its reading-order position among the
/// cells that are not consumed, or empty when consumed or when contents run out.
pub open spec fn cell_content(g: Seq<Seq<OtslToken>>, contents: Seq<Seq<char>>, r: int, c: int) -> Seq<char> {
    if !consumed(g, r, c) && live_rank(g, r, c) < contents.len() {
        contents[live_rank(g, r, c) as int]
    } else {
        seq![]
    }
}

// ---------------------------------------------------------------------------
// HTML rendering
// ---------------------------------------------------------------------------

/// The span attributes of a cell.
pub open spec fn span_attrs(colspan: nat, rowspan: nat) -> Seq<char> {
    (if colspan > 1 { " colspan=\""@ + decimal(colspan) + "\""@ } else { seq![] }) + (if rowspan
        > 1 {
        " rowspan=\""@ + decimal(rowspan) + "\""@
    } else {
        seq![]
    })
}

/// The HTML of cell `(r, c)`.
pub open spec fn cell_html(g: Seq<Seq<OtslToken>>, contents: Seq<Seq<char>>, r: int, c: int) -> Seq<char> {
    "    <td"@ + span_attrs(colspan_of(g, r, c), rowspan_of(g, r, c)) + ">"@ + cell_content(
        g,
        contents,
        r,
        c,
    ) + "</td>\n"@
}

/// The HTML of the cells of row `r` before column `n` that are not consumed.
pub open spec fn cells_html(g: Seq<Seq<OtslToken>>, contents: Seq<Seq<char>>, r: int, n: int) -> Seq<char>
    decreases n,
{
    if n <= 0 {
        seq![]
    } else {
        cells_html(g, contents, r, n - 1) + if consumed(g, r, n - 1) {
            seq![]
        } else {
            cell_html(g, contents, r, n - 1)
        }
    }
}

/// The HTML of the first `nr` rows.
pub open spec fn rows_html(g: Seq<Seq<OtslToken>>, contents: Seq<Seq<char>>, nr: int) -> Seq<char>
    decreases nr,
{
    if nr <= 0 {
        seq![]
    } else {
        rows_html(g, contents, nr - 1) + "  <tr>\n"@ + cells_html(
            g,
            contents,
            nr - 1,
            g[nr - 1].len() as int,
        ) + "  </tr>\n"@
    }
}

/// The HTML table that an OTSL token sequence and cell texts decode to.
pub open spec fn otsl_html(t: Seq<OtslToken>, contents: Seq<Seq<char>>) -> Seq<char> {
    let g = otsl_rows(t);
    "<table>\n"@ + rows_html(g, contents, g.len() as int) + "</table>"@
}

// ---------------------------------------------------------------------------
// Table data
// ---------------------------------------------------------------------------

/// The texts of the cells of row `r` before column `n` that are not consumed.
pub open spec fn row_cells(g: Seq<Seq<OtslToken>>, contents: Seq<Seq<char>>, r: int, n: int) -> Seq<Seq<char>>
    decreases n,
{
    if n <= 0 {
        seq![]
    } else if consumed(g, r, n - 1) {
        row_cells(g, contents, r, n - 1)
    } else {
        row_cells(g, contents, r, n - 1).push(cell_content(g, contents, r, n - 1))
    }
}

/// The rows of texts of the first `nr` grid rows, leaving out rows with no cell.
pub open spec fn table_rows(g: Seq<Seq<OtslToken>>, contents: Seq<Seq<char>>, nr: int) -> Seq<Seq<Seq<char>>>
    decreases nr,
{
    if nr <= 0 {
        seq![]
    } else {
        let row = row_cells(g, contents, nr - 1, g[nr - 1].len() as int);
        if row.len() > 0 {
            table_rows(g, contents, nr - 1).push(row)
        } else {
            table_rows(g, contents, nr - 1)
        }
    }
}

/// The rows of cell texts that an OTSL token sequence and cell texts decode to.
pub open spec fn otsl_table_rows(t: Seq<OtslToken>, contents: Seq<Seq<char>>) -> Seq<Seq<Seq<char>>> {
    let g = otsl_rows(t);
    table_rows(g, contents, g.len() as int)
}

// ---------------------------------------------------------------------------
// Token parsing
// ---------------------------------------------------------------------------

/// Splits text into the maximal runs of characters that are not white space.
/// `done` holds the finished words and `cur` the word being read.
pub open spec fn words_from(s: Seq<char>, done: Seq<Seq<char>>, cur: Seq<char>) -> Seq<Seq<char>>
    decreases s.len(),
{
    if s.len() == 0 {
        if cur.len() > 0 { done.push(cur) } else { done }
    } else if is_white_space(s[0]) {
        words_from(s.drop_first(), if cur.len() > 0 { done.push(cur) } else { done }, seq![])
    } else {
        words_from(s.drop_first(), done, cur.push(s[0]))
    }
}

/// The white-space separated words of `s`, as `str::split_whitespace` gives them.
pub open spec fn words(s: Seq<char>) -> Seq<Seq<char>> {
    words_from(s, seq![], seq![])
}

/// The token that a word names, if any.
pub open spec fn token_of_word(w: Seq<char>) -> Option<OtslToken> {
    if w == seq!['C'] {
        Some(OtslToken::C)
    } else if w == seq!['L'] {
        Some(OtslToken::L)
    } else if w == seq!['U'] {
        Some(OtslToken::U)
    } else if w == seq!['X'] {
        Some(OtslToken::X)
    } else if w == seq!['N', 'L'] {
        Some(OtslToken::NL)
    } else {
        None
    }
}

/// The message of the error for a word that names no token.
pub open spec fn unknown_token_message(w: Seq<char>) -> Seq<char> {
    "Unknown OTSL token: '"@ + w + "'"@
}

/// The index of the first word that names no token, if any.
pub open spec fn first_unknown(ws: Seq<Seq<char>>, i: int) -> Option<int>
    decreases ws.len() - i,
{
    if i >= ws.len() || i < 0 {
        None
    } else if token_of_word(ws[i]) is None {
        Some(i)
    } else {
        first_unknown(ws, i + 1)
    }
}

} // verus!

verus! {

proof fn lemma_words_from_prefix(s: Seq<char>, done: Seq<Seq<char>>, cur: Seq<char>)
    ensures
        words_from(s, done, cur) == done + words_from(s, seq![], cur),
    decreases s.len(),
{
    if s.len() == 0 {
        assert(done + seq![cur] =~= done.push(cur));
        assert(done + Seq::<Seq<char>>::empty() =~= done);
    } else if is_white_space(s[0]) {
        if cur.len() > 0 {
            lemma_words_from_prefix(s.drop_first(), done.push(cur), seq![]);
            lemma_words_from_prefix(s.drop_first(), seq![cur], seq![]);
            assert(done.push(cur) + words_from(s.drop_first(), seq![], seq![]) =~= done + (seq![cur]
                + words_from(s.drop_first(), seq![], seq![])));
            assert(Seq::<Seq<char>>::empty().push(cur) =~= seq![cur]);
        } else {
            lemma_words_from_prefix(s.drop_first(), done, seq![]);
        }
    } else {
        lemma_words_from_prefix(s.drop_first(), done, cur.push(s[0]));
        lemma_words_from_prefix(s.drop_first(), seq![], cur.push(s[0]));
        assert(done + Seq::<Seq<char>>::empty() =~= done);
    }
}

proof fn lemma_first_unknown_found(ws: Seq<Seq<char>>, i: int, k: int)
    requires
        0 <= i <= k < ws.len(),
        forall|j: int| i <= j < k ==> token_of_word(#[trigger] ws[j]) is Some,
        token_of_word(ws[k]) is None,
    ensures
        first_unknown(ws, i) == Some(k),
    decreases k - i,
{
    if i < k {
        lemma_first_unknown_found(ws, i + 1, k);
    }
}

proof fn lemma_first_unknown_none(ws: Seq<Seq<char>>, i: int)
    requires
        0 <= i <= ws.len(),
        forall|j: int| i <= j < ws.len() ==> token_of_word(#[trigger] ws[j]) is Some,
    ensures
        first_unknown(ws, i) is None,
    decreases ws.len() - i,
{
    if i < ws.len() {
        lemma_first_unknown_none(ws, i + 1);
    }
}

fn word_token(w: &Vec<char>) -> (r: Option<OtslToken>)
    ensures
        r == token_of_word(w@),
{
    if w.len() == 1 {
        let c = w[0];
        if c == 'C' {
            assert(w@ =~= seq!['C']);
            Some(OtslToken::C)
        } else if c == 'L' {
            assert(w@ =~= seq!['L']);
            Some(OtslToken::L)
        } else if c == 'U' {
            assert(w@ =~= seq!['U']);
            Some(OtslToken::U)
        } else if c == 'X' {
            assert(w@ =~= seq!['X']);
            Some(OtslToken::X)
        } else {
            assert(w@ != seq!['C'] && w@ != seq!['L'] && w@ != seq!['U'] && w@ != seq!['X']) by {
                assert(seq!['C'][0] == 'C');
                assert(seq!['L'][0] == 'L');
                assert(seq!['U'][0] == 'U');
                assert(seq!['X'][0] == 'X');
            }
            None
        }
    } else if w.len() == 2 && w[0] == 'N' && w[1] == 'L' {
        assert(w@ =~= seq!['N', 'L']);
        Some(OtslToken::NL)
    } else {
        assert(w@ != seq!['N', 'L']) by {
            if w.len() == 2 {
                assert(seq!['N', 'L'][0] == 'N');
                assert(seq!['N', 'L'][1] == 'L');
            }
        }
        None
    }
}

fn unknown_token_error(w: &Vec<char>) -> (e: Error)
    ensures
        e matches Error::Parse(m) && m@ == unknown_token_message(w@),
{
    let mut m = String::from_str("Unknown OTSL token: '");
    let ws = string_of(w.as_slice());
    m.append(ws.as_str());
    m.append("'");
    Error::Parse(m)
}

/// Parse a string of space-separated OTSL tokens into a token sequence.
pub fn parse_otsl_string(input: &str) -> (res: Result<Vec<OtslToken>, Error>)
    ensures
        match first_unknown(words(input@), 0) {
            None => res matches Ok(ts) && ts@ == words(input@).map_values(
                |w: Seq<char>| token_of_word(w)->0,
            ),
            Some(i) => res matches Err(Error::Parse(m)) && m@ == unknown_token_message(
                words(input@)[i],
            ),
        },
{
    let chars = chars_of(input);
    let ghost s = input@;
    let mut tokens: Vec<OtslToken> = Vec::new();
    let mut cur: Vec<char> = Vec::new();
    let ghost mut done: Seq<Seq<char>> = seq![];
    let mut i: usize = 0;
    assert(s.skip(0) =~= s);
    assert(cur@ =~= seq![]);
    while i < chars.len()
        invariant
            chars@ == s,
            s == input@,
            i <= s.len(),
            words(s) == words_from(s.skip(i as int), done, cur@),
            forall|j: int| 0 <= j < done.len() ==> token_of_word(#[trigger] done[j]) is Some,
            tokens@ == done.map_values(|w: Seq<char>| token_of_word(w)->0),
        decreases s.len() - i,
    {
        let c = chars[i];
        let ghost old_cur = cur@;
        let ghost old_done = done;
        assert(s.skip(i as int).drop_first() =~= s.skip(i + 1));
        assert(s.skip(i as int)[0] == c);
        assert(words_from(s.skip(i as int), old_done, old_cur) == if is_white_space(c) {
            words_from(s.skip(i + 1), if old_cur.len() > 0 { old_done.push(old_cur) } else { old_done }, seq![])
        } else {
            words_from(s.skip(i + 1), old_done, old_cur.push(c))
        });
        if is_whitespace(c) {
            if cur.len() == 0 {
                assert(old_cur =~= seq![]);
            }
            if cur.len() > 0 {
                match word_token(&cur) {
                    Some(t) => {
                        tokens.push(t);
                        proof {
                            done = done.push(cur@);
                        }
                        assert(tokens@ =~= done.map_values(|w: Seq<char>| token_of_word(w)->0));
                        cur = Vec::new();
                        assert(cur@ =~= seq![]);
                    },
                    None => {
                        proof {
                            lemma_words_from_prefix(s.skip(i + 1), done.push(cur@), seq![]);
                            let ws = words(s);
                            let rest = words_from(s.skip(i + 1), seq![], seq![]);
                            assert(ws == done.push(cur@) + rest);
                            assert(ws[done.len() as int] == cur@);
                            assert forall|j: int| 0 <= j < done.len() implies token_of_word(
                                #[trigger] ws[j],
                            ) is Some by {
                                assert(ws[j] == done[j]);
                            }
                            lemma_first_unknown_found(ws, 0, done.len() as int);
                        }
                        return Err(unknown_token_error(&cur));
                    },
                }
            }
        } else {
            cur.push(c);
        }
        i += 1;
    }
    assert(s.skip(i as int) =~= seq![]);
    assert(words(s) == words_from(seq![], done, cur@));
    if cur.len() > 0 {
        match word_token(&cur) {
            Some(t) => {
                tokens.push(t);
                proof {
                    done = done.push(cur@);
                }
                assert(tokens@ =~= done.map_values(|w: Seq<char>| token_of_word(w)->0));
            },
            None => {
                proof {
                    let ws = words(s);
                    assert(ws == done.push(cur@));
                    assert(ws[done.len() as int] == cur@);
                    assert forall|j: int| 0 <= j < done.len() implies token_of_word(
                        #[trigger] ws[j],
                    ) is Some by {
                        assert(ws[j] == done[j]);
                    }
                    lemma_first_unknown_found(ws, 0, done.len() as int);
                }
                return Err(unknown_token_error(&cur));
            },
        }
    }
    proof {
        lemma_first_unknown_none(done, 0);
    }
    Ok(tokens)
}

} // verus!

verus! {

/// A cell in the resolved grid with span information.
struct GridCell {
    token: OtslToken,
    /// Number of columns this cell spans (1 = no merge).
    colspan: usize,
    /// Number of rows this cell spans (1 = no merge).
    rowspan: usize,
    /// If true, this cell is "consumed" by a merge and should not emit HTML.
    consumed: bool,
    /// Optional text content for the cell.
    content: String,
}

impl GridCell {
    fn new(token: OtslToken) -> (c: Self)
        ensures
            c.token == token,
            c.colspan == 1,
            c.rowspan == 1,
            !c.consumed,
            c.content@ == Seq::<char>::empty(),
    {
        GridCell { token, colspan: 1, rowspan: 1, consumed: false, content: String::new() }
    }
}

spec fn row_tokens(row: Seq<GridCell>) -> Seq<OtslToken> {
    row.map_values(|cell: GridCell| cell.token)
}

spec fn grid_tokens(grid: Seq<Vec<GridCell>>) -> Seq<Seq<OtslToken>> {
    grid.map_values(|row: Vec<GridCell>| row_tokens(row@))
}

/// The total number of cells in a grid of rows.
pub open spec fn total_cells(g: Seq<Seq<OtslToken>>) -> nat
    decreases g.len(),
{
    if g.len() == 0 {
        0
    } else {
        total_cells(g.drop_last()) + g.last().len()
    }
}

proof fn lemma_total_cells_push(g: Seq<Seq<OtslToken>>, row: Seq<OtslToken>)
    ensures
        total_cells(g.push(row)) == total_cells(g) + row.len(),
{
    assert(g.push(row).drop_last() =~= g);
}

proof fn lemma_rows_from_cells(t: Seq<OtslToken>, done: Seq<Seq<OtslToken>>, cur: Seq<OtslToken>)
    ensures
        total_cells(rows_from(t, done, cur)) <= total_cells(done) + cur.len() + t.len(),
    decreases t.len(),
{
    if t.len() == 0 {
        lemma_total_cells_push(done, cur);
    } else if t[0] == OtslToken::NL {
        if cur.len() > 0 {
            lemma_total_cells_push(done, cur);
            lemma_rows_from_cells(t.drop_first(), done.push(cur), seq![]);
        } else {
            lemma_rows_from_cells(t.drop_first(), done, seq![]);
        }
    } else {
        lemma_rows_from_cells(t.drop_first(), done, cur.push(t[0]));
    }
}

/// All cells are as `GridCell::new` makes them.
spec fn all_fresh(grid: Seq<Vec<GridCell>>) -> bool {
    forall|r: int, c: int|
        0 <= r < grid.len() && 0 <= c < grid[r]@.len() ==> {
            let cell = #[trigger] grid[r]@[c];
            &&& cell.colspan == 1
            &&& cell.rowspan == 1
            &&& !cell.consumed
            &&& cell.content@ == Seq::<char>::empty()
        }
}

/// Build a 2D grid from a flat token sequence.
/// Returns Vec<Vec<GridCell>> where outer vec = rows, inner vec = columns.
fn build_grid(tokens: &[OtslToken]) -> (grid: Vec<Vec<GridCell>>)
    ensures
        grid_tokens(grid@) == otsl_rows(tokens@),
        all_fresh(grid@),
{
    let mut grid: Vec<Vec<GridCell>> = Vec::new();
    let mut current_row: Vec<GridCell> = Vec::new();
    let ghost t = tokens@;
    let mut i: usize = 0;
    assert(t.skip(0) =~= t);
    assert(grid_tokens(grid@) =~= seq![]);
    assert(row_tokens(current_row@) =~= seq![]);
    while i < tokens.len()
        invariant
            t == tokens@,
            i <= t.len(),
            otsl_rows(t) == rows_from(t.skip(i as int), grid_tokens(grid@), row_tokens(current_row@)),
            all_fresh(grid@),
            forall|c: int| 0 <= c < current_row@.len() ==> {
                let cell = #[trigger] current_row@[c];
                &&& cell.colspan == 1
                &&& cell.rowspan == 1
                &&& !cell.consumed
                &&& cell.content@ == Seq::<char>::empty()
            },
        decreases t.len() - i,
    {
        let token = tokens[i];
        let ghost old_grid = grid_tokens(grid@);
        let ghost old_row = row_tokens(current_row@);
        assert(t.skip(i as int).drop_first() =~= t.skip(i + 1));
        assert(t.skip(i as int)[0] == token);
        match token {
            OtslToken::NL => {
                if current_row.len() > 0 {
                    grid.push(current_row);
                    current_row = Vec::new();
                    assert(grid_tokens(grid@) =~= old_grid.push(old_row));
                } else {
                    assert(old_row =~= seq![]);
                }
                assert(row_tokens(current_row@) =~= seq![]);
            },
            _ => {
                current_row.push(GridCell::new(token));
                assert(row_tokens(current_row@) =~= old_row.push(token));
            },
        }
        i += 1;
    }
    assert(t.skip(i as int) =~= seq![]);
    // Handle case where last row doesn't end with NL
    if current_row.len() > 0 {
        let ghost old_grid = grid_tokens(grid@);
        let ghost old_row = row_tokens(current_row@);
        grid.push(current_row);
        assert(grid_tokens(grid@) =~= old_grid.push(old_row));
    }
    grid
}

/// Find the leftmost origin cell in the same row by scanning left from col_idx.
/// Returns the column index of the first C or U cell (not L or X).
fn find_left_origin(grid: &Vec<Vec<GridCell>>, row: usize, col: usize) -> (res: Option<usize>)
    requires
        row < grid@.len(),
        col <= grid@[row as int]@.len(),
    ensures
        match left_origin(row_tokens(grid@[row as int]@), col as int) {
            Some(x) => res == Some(x as usize),
            None => res is None,
        },
{
    let ghost rt = row_tokens(grid@[row as int]@);
    if col == 0 {
        return None;
    }
    let mut c = col;
    while c > 0
        invariant
            c <= col,
            col <= grid@[row as int]@.len(),
            row < grid@.len(),
            rt == row_tokens(grid@[row as int]@),
            left_origin(rt, col as int) == left_origin(rt, c as int),
        decreases c,
    {
        c -= 1;
        let t = grid[row][c].token;
        if t == OtslToken::C || t == OtslToken::U {
            return Some(c);
        }
    }
    None
}

/// Find the topmost origin cell in the same column by scanning up from row_idx.
/// Returns the row index of the first C or L cell (not U or X).
fn find_up_origin(grid: &Vec<Vec<GridCell>>, row: usize, col: usize) -> (res: Option<usize>)
    requires
        row <= grid@.len(),
    ensures
        match up_origin(grid_tokens(grid@), row as int, col as int) {
            Some(x) => res == Some(x as usize),
            None => res is None,
        },
{
    let ghost g = grid_tokens(grid@);
    if row == 0 {
        return None;
    }
    let mut r = row;
    while r > 0
        invariant
            r <= row,
            row <= grid@.len(),
            g == grid_tokens(grid@),
            up_origin(g, row as int, col as int) == up_origin(g, r as int, col as int),
        decreases r,
    {
        r -= 1;
        if col < grid[r].len() {
            let t = grid[r][col].token;
            if t == OtslToken::C || t == OtslToken::L {
                return Some(r);
            }
        }
    }
    None
}

} // verus!

verus! {

proof fn lemma_left_origin_range(row: Seq<OtslToken>, c: int)
    ensures
        left_origin(row, c) matches Some(x) ==> 0 <= x < c,
    decreases c,
{
    if c > 0 && !is_left_origin(row[c - 1]) {
        lemma_left_origin_range(row, c - 1);
    }
}

proof fn lemma_up_origin_range(g: Seq<Seq<OtslToken>>, r: int, c: int)
    ensures
        up_origin(g, r, c) matches Some(x) ==> 0 <= x < r && c < g[x].len(),
    decreases r,
{
    if r > 0 && !(c < g[r - 1].len() && is_up_origin(g[r - 1][c])) {
        lemma_up_origin_range(g, r - 1, c);
    }
}

proof fn lemma_left_merges_bound(row: Seq<OtslToken>, o: int, n: int)
    requires
        0 <= o,
    ensures
        left_merges_into(row, o, n) <= if n > o + 1 { n - o - 1 } else { 0 },
    decreases n,
{
    if n > 0 {
        lemma_left_merges_bound(row, o, n - 1);
        lemma_left_origin_range(row, n - 1);
    }
}

proof fn lemma_up_merges_row_bound(g: Seq<Seq<OtslToken>>, r0: int, c0: int, r: int, n: int)
    ensures
        up_merges_in_row(g, r0, c0, r, n) <= if n > 0 { n } else { 0 },
    decreases n,
{
    if n > 0 {
        lemma_up_merges_row_bound(g, r0, c0, r, n - 1);
    }
}

proof fn lemma_take_cells_step(g: Seq<Seq<OtslToken>>, n: int)
    requires
        0 <= n < g.len(),
    ensures
        total_cells(g.take(n + 1)) == total_cells(g.take(n)) + g[n].len(),
{
    assert(g.take(n + 1).drop_last() =~= g.take(n));
}

proof fn lemma_take_cells_mono(g: Seq<Seq<OtslToken>>, n: int)
    requires
        0 <= n <= g.len(),
    ensures
        total_cells(g.take(n)) <= total_cells(g),
    decreases g.len() - n,
{
    if n < g.len() {
        lemma_take_cells_step(g, n);
        lemma_take_cells_mono(g, n + 1);
    } else {
        assert(g.take(n) =~= g);
    }
}

proof fn lemma_up_merges_rows_bound(g: Seq<Seq<OtslToken>>, r0: int, c0: int, nr: int)
    requires
        0 <= nr <= g.len(),
    ensures
        up_merges_in_rows(g, r0, c0, nr) <= total_cells(g.take(nr)),
    decreases nr,
{
    if nr > 0 {
        lemma_up_merges_rows_bound(g, r0, c0, nr - 1);
        lemma_up_merges_row_bound(g, r0, c0, nr - 1, g[nr - 1].len() as int);
        lemma_take_cells_step(g, nr - 1);
    }
}

proof fn lemma_up_merges_row_zero(g: Seq<Seq<OtslToken>>, r0: int, c0: int, r: int, n: int)
    requires
        r <= r0,
    ensures
        up_merges_in_row(g, r0, c0, r, n) == 0,
    decreases n,
{
    if n > 0 {
        lemma_up_merges_row_zero(g, r0, c0, r, n - 1);
        lemma_up_origin_range(g, r, n - 1);
    }
}

proof fn lemma_up_merges_rows_zero(g: Seq<Seq<OtslToken>>, r0: int, c0: int, nr: int)
    requires
        nr <= r0 + 1,
    ensures
        up_merges_in_rows(g, r0, c0, nr) == 0,
    decreases nr,
{
    if nr > 0 {
        lemma_up_merges_rows_zero(g, r0, c0, nr - 1);
        lemma_up_merges_row_zero(g, r0, c0, nr - 1, g[nr - 1].len() as int);
    }
}

proof fn lemma_up_merges_rows_below(g: Seq<Seq<OtslToken>>, r0: int, c0: int, nr: int)
    requires
        0 <= r0 < nr <= g.len(),
    ensures
        up_merges_in_rows(g, r0, c0, nr) + total_cells(g.take(r0 + 1)) <= total_cells(g.take(nr)),
    decreases nr,
{
    if nr == r0 + 1 {
        lemma_up_merges_rows_zero(g, r0, c0, nr);
    } else {
        lemma_up_merges_rows_below(g, r0, c0, nr - 1);
        lemma_up_merges_row_bound(g, r0, c0, nr - 1, g[nr - 1].len() as int);
        lemma_take_cells_step(g, nr - 1);
    }
}

/// The number of leading columns of row `r` that a pass has handled,
/// when it is at row `ri`, column `ci`.
spec fn done_cols(g: Seq<Seq<OtslToken>>, r: int, ri: int, ci: int) -> int {
    if r < ri { g[r].len() as int } else if r == ri { ci } else { 0 }
}

spec fn valid_cell(g: Seq<Seq<OtslToken>>, r: int, c: int) -> bool {
    0 <= r < g.len() && 0 <= c < g[r].len()
}

/// The grid during the left-merge pass, at row `ri`, column `ci`.
spec fn left_pass(grid: Seq<Vec<GridCell>>, g: Seq<Seq<OtslToken>>, g0: Seq<Vec<GridCell>>, ri: int, ci: int) -> bool {
    &&& grid_tokens(grid) == g
    &&& g0.len() == g.len()
    &&& forall|r: int| 0 <= r < g.len() ==> #[trigger] g0[r]@.len() == g[r].len()
    &&& forall|r: int, c: int|
        valid_cell(g, r, c) ==> {
            let cell = #[trigger] grid[r]@[c];
            &&& cell.content == g0[r]@[c].content
            &&& cell.rowspan == 1
            &&& cell.colspan == 1 + left_merges_into(g[r], c, done_cols(g, r, ri, ci))
            &&& cell.consumed == (c < done_cols(g, r, ri, ci) && absorbed_left(g[r], c))
        }
}

/// The grid during the up-merge pass, at row `ri`, column `ci`.
spec fn up_pass(grid: Seq<Vec<GridCell>>, g: Seq<Seq<OtslToken>>, g0: Seq<Vec<GridCell>>, ri: int, ci: int) -> bool {
    &&& grid_tokens(grid) == g
    &&& g0.len() == g.len()
    &&& forall|r: int| 0 <= r < g.len() ==> #[trigger] g0[r]@.len() == g[r].len()
    &&& forall|r: int, c: int|
        valid_cell(g, r, c) ==> {
            let cell = #[trigger] grid[r]@[c];
            &&& cell.content == g0[r]@[c].content
            &&& cell.colspan == colspan_of(g, r, c)
            &&& cell.rowspan == 1 + up_merges_in_rows(g, r, c, ri) + up_merges_in_row(g, r, c, ri, ci)
            &&& cell.consumed == if c < done_cols(g, r, ri, ci) {
                consumed(g, r, c)
            } else {
                absorbed_left(g[r], c)
            }
        }
}

/// Every cell carries the spans and the consumed flag that the tokens give it.
spec fn resolved(grid: Seq<Vec<GridCell>>, g: Seq<Seq<OtslToken>>) -> bool {
    &&& grid_tokens(grid) == g
    &&& forall|r: int, c: int|
        valid_cell(g, r, c) ==> {
            let cell = #[trigger] grid[r]@[c];
            &&& cell.colspan == colspan_of(g, r, c)
            &&& cell.rowspan == rowspan_of(g, r, c)
            &&& cell.consumed == consumed(g, r, c)
        }
}

proof fn lemma_grid_tokens_at(grid: Seq<Vec<GridCell>>, r: int, c: int)
    requires
        0 <= r < grid.len(),
        0 <= c < grid[r]@.len(),
    ensures
        grid_tokens(grid)[r][c] == grid[r]@[c].token,
        grid_tokens(grid)[r].len() == grid[r]@.len(),
        grid_tokens(grid).len() == grid.len(),
{
}

/// Resolve merge directives in the grid.
///
/// Algorithm:
/// - L cells: find the nearest non-L cell to the left in the same row,
///   increment its colspan, mark this cell as consumed.
/// - U cells: find the "origin" cell above (walking up through U/X cells),
///   increment its rowspan, mark this cell as consumed.
/// - X cells: merge both left (colspan of left origin) and up (rowspan of above origin),
///   mark as consumed.
fn resolve_merges(grid: &mut Vec<Vec<GridCell>>)
    requires
        all_fresh(old(grid)@),
        total_cells(grid_tokens(old(grid)@)) <= usize::MAX,
    ensures
        resolved(final(grid)@, grid_tokens(old(grid)@)),
        final(grid)@.len() == old(grid)@.len(),
        forall|r: int, c: int|
            valid_cell(grid_tokens(old(grid)@), r, c) ==> #[trigger] final(grid)@[r]@[c].content
                == old(grid)@[r]@[c].content,
{
    let ghost g = grid_tokens(grid@);
    let ghost g0 = grid@;
    let num_rows = grid.len();
    if num_rows == 0 {
        return;
    }
    assert(left_pass(grid@, g, g0, 0, 0)) by {
        assert forall|r: int, c: int| valid_cell(g, r, c) implies {
            let cell = #[trigger] grid@[r]@[c];
            &&& cell.content == g0[r]@[c].content
            &&& cell.rowspan == 1
            &&& cell.colspan == 1 + left_merges_into(g[r], c, done_cols(g, r, 0, 0))
            &&& cell.consumed == (c < done_cols(g, r, 0, 0) && absorbed_left(g[r], c))
        } by {
            lemma_grid_tokens_at(grid@, r, c);
        }
    }

    // Process left-merges first (L and X extend colspan)
    let mut row_idx: usize = 0;
    while row_idx < num_rows
        invariant
            num_rows == g.len(),
            row_idx <= num_rows,
            total_cells(g) <= usize::MAX,
            left_pass(grid@, g, g0, row_idx as int, 0),
        decreases num_rows - row_idx,
    {
        let num_cols = grid[row_idx].len();
        assert(num_cols == g[row_idx as int].len());
        let mut col_idx: usize = 0;
        while col_idx < num_cols
            invariant
                num_rows == g.len(),
                row_idx < num_rows,
                num_cols == g[row_idx as int].len(),
                col_idx <= num_cols,
                total_cells(g) <= usize::MAX,
                left_pass(grid@, g, g0, row_idx as int, col_idx as int),
            decreases num_cols - col_idx,
        {
            let ghost before = grid@;
            let ghost row = g[row_idx as int];
            proof {
                lemma_grid_tokens_at(grid@, row_idx as int, col_idx as int);
            }
            let token = grid[row_idx][col_idx].token;
            if token == OtslToken::L || token == OtslToken::X {
                // Find the origin cell to the left (first non-L, non-X cell scanning left)
                if let Some(origin_col) = find_left_origin(grid, row_idx, col_idx) {
                    proof {
                        lemma_left_origin_range(row, col_idx as int);
                        lemma_left_merges_bound(row, origin_col as int, col_idx as int);
                    }
                    grid[row_idx][origin_col].colspan += 1;
                    grid[row_idx][col_idx].consumed = true;
                }
            }
            proof {
                assert forall|r: int, c: int| valid_cell(g, r, c) implies {
                    let cell = #[trigger] grid@[r]@[c];
                    &&& cell.content == g0[r]@[c].content
                    &&& cell.rowspan == 1
                    &&& cell.colspan == 1 + left_merges_into(
                        g[r],
                        c,
                        done_cols(g, r, row_idx as int, col_idx + 1),
                    )
                    &&& cell.consumed == (c < done_cols(g, r, row_idx as int, col_idx + 1)
                        && absorbed_left(g[r], c))
                } by {
                    assert(before[r]@[c] == before[r]@[c]);
                    if r == row_idx {
                        assert(left_merges_into(g[r], c, col_idx + 1) == left_merges_into(
                            g[r],
                            c,
                            col_idx as int,
                        ) + if absorbed_left(g[r], col_idx as int) && left_origin(
                            g[r],
                            col_idx as int,
                        ) == Some(c) {
                            1nat
                        } else {
                            0nat
                        });
                    }
                }
                assert(grid_tokens(grid@) =~= g) by {
                    assert forall|r: int| 0 <= r < g.len() implies #[trigger] grid_tokens(grid@)[r] =~= g[r] by {
                        assert forall|c: int| 0 <= c < g[r].len() implies grid_tokens(grid@)[r][c] == g[r][c] by {
                            lemma_grid_tokens_at(before, r, c);
                        }
                    }
                }
            }
            col_idx += 1;
        }
        assert(left_pass(grid@, g, g0, row_idx + 1, 0)) by {
            assert forall|r: int, c: int| valid_cell(g, r, c) implies done_cols(g, r, row_idx as int, num_cols as int) == done_cols(g, r, row_idx + 1, 0) by {}
        }
        row_idx += 1;
    }

    assert(up_pass(grid@, g, g0, 0, 0)) by {
        assert forall|r: int, c: int| valid_cell(g, r, c) implies {
            let cell = #[trigger] grid@[r]@[c];
            &&& cell.content == g0[r]@[c].content
            &&& cell.colspan == colspan_of(g, r, c)
            &&& cell.rowspan == 1 + up_merges_in_rows(g, r, c, 0) + up_merges_in_row(g, r, c, 0, 0)
            &&& cell.consumed == if c < done_cols(g, r, 0, 0) {
                consumed(g, r, c)
            } else {
                absorbed_left(g[r], c)
            }
        } by {
            assert(done_cols(g, r, num_rows as int, 0) == g[r].len());
        }
    }

    // Process up-merges (only U cells extend rowspan).
    // X cells are already consumed by the colspan pass. They represent the
    // horizontal continuation of the U cell in the same row, so they do NOT
    // add an extra rowspan. Only U cells (the leftmost vertical-merge token
    // in a row) trigger a rowspan increment on the origin cell above.
    let mut row_idx: usize = 0;
    while row_idx < num_rows
        invariant
            num_rows == g.len(),
            row_idx <= num_rows,
            total_cells(g) <= usize::MAX,
            up_pass(grid@, g, g0, row_idx as int, 0),
        decreases num_rows - row_idx,
    {
        let num_cols = grid[row_idx].len();
        assert(num_cols == g[row_idx as int].len());
        let mut col_idx: usize = 0;
        while col_idx < num_cols
            invariant
                num_rows == g.len(),
                row_idx < num_rows,
                num_cols == g[row_idx as int].len(),
                col_idx <= num_cols,
                total_cells(g) <= usize::MAX,
                up_pass(grid@, g, g0, row_idx as int, col_idx as int),
            decreases num_cols - col_idx,
        {
            let ghost before = grid@;
            proof {
                lemma_grid_tokens_at(grid@, row_idx as int, col_idx as int);
            }
            let token = grid[row_idx][col_idx].token;
            if token == OtslToken::U {
                // Find the origin cell above (first non-U, non-X cell scanning up)
                if let Some(origin_row) = find_up_origin(grid, row_idx, col_idx) {
                    proof {
                        lemma_up_origin_range(g, row_idx as int, col_idx as int);
                        lemma_grid_tokens_at(grid@, origin_row as int, col_idx as int);
                    }
                    // The rowspan belongs to the cell directly above; where that cell
                    // continues a colspan group, to the group's left origin.
                    let above = grid[origin_row][col_idx].token;
                    let target_col = if above == OtslToken::L || above == OtslToken::X {
                        match find_left_origin(grid, origin_row, col_idx) {
                            Some(x) => x,
                            None => col_idx,
                        }
                    } else {
                        col_idx
                    };
                    proof {
                        lemma_left_origin_range(g[origin_row as int], col_idx as int);
                        assert(target_col == rowspan_target(g, origin_row as int, col_idx as int));
                        lemma_up_merges_rows_below(g, origin_row as int, target_col as int, row_idx as int);
                        lemma_take_cells_step(g, origin_row as int);
                        lemma_up_merges_row_bound(g, origin_row as int, target_col as int, row_idx as int, col_idx as int);
                        lemma_take_cells_step(g, row_idx as int);
                        lemma_take_cells_mono(g, row_idx + 1);
                        assert(valid_cell(g, origin_row as int, target_col as int));
                    }
                    grid[origin_row][target_col].rowspan += 1;
                }
                grid[row_idx][col_idx].consumed = true;
            } else if token == OtslToken::X {
                // X is already consumed by the colspan pass, but ensure it's marked
                grid[row_idx][col_idx].consumed = true;
            }
            proof {
                assert forall|r: int, c: int| valid_cell(g, r, c) implies {
                    let cell = #[trigger] grid@[r]@[c];
                    &&& cell.content == g0[r]@[c].content
                    &&& cell.colspan == colspan_of(g, r, c)
                    &&& cell.rowspan == 1 + up_merges_in_rows(g, r, c, row_idx as int)
                        + up_merges_in_row(g, r, c, row_idx as int, col_idx + 1)
                    &&& cell.consumed == if c < done_cols(g, r, row_idx as int, col_idx + 1) {
                        consumed(g, r, c)
                    } else {
                        absorbed_left(g[r], c)
                    }
                } by {
                    assert(before[r]@[c] == before[r]@[c]);
                    assert(up_merges_in_row(g, r, c, row_idx as int, col_idx + 1) == up_merges_in_row(
                        g,
                        r,
                        c,
                        row_idx as int,
                        col_idx as int,
                    ) + if up_merge_into(g, r, c, row_idx as int, col_idx as int) {
                        1nat
                    } else {
                        0nat
                    });
                    if r == row_idx && c == col_idx {
                        lemma_grid_tokens_at(before, r, c);
                    }
                }
                assert(grid_tokens(grid@) =~= g) by {
                    assert forall|r: int| 0 <= r < g.len() implies #[trigger] grid_tokens(grid@)[r] =~= g[r] by {
                        assert forall|c: int| 0 <= c < g[r].len() implies grid_tokens(grid@)[r][c] == g[r][c] by {
                            lemma_grid_tokens_at(before, r, c);
                        }
                    }
                }
            }
            col_idx += 1;
        }
        assert(up_pass(grid@, g, g0, row_idx + 1, 0)) by {
            assert forall|r: int, c: int| valid_cell(g, r, c) implies done_cols(g, r, row_idx as int, num_cols as int) == done_cols(g, r, row_idx + 1, 0) && up_merges_in_rows(g, r, c, row_idx + 1) == up_merges_in_rows(g, r, c, row_idx as int) + up_merges_in_row(g, r, c, row_idx as int, num_cols as int) by {}
        }
        row_idx += 1;
    }
}

} // verus!

verus! {

/// The texts of a slice of string slices.
pub open spec fn str_views(contents: Seq<&str>) -> Seq<Seq<char>> {
    contents.map_values(|s: &str| s@)
}

/// Every cell carries its spans, its consumed flag and its text.
spec fn decoded(grid: Seq<Vec<GridCell>>, g: Seq<Seq<OtslToken>>, cs: Seq<Seq<char>>) -> bool {
    &&& resolved(grid, g)
    &&& forall|r: int, c: int|
        valid_cell(g, r, c) ==> (#[trigger] grid[r]@[c]).content@ == cell_content(g, cs, r, c)
}

/// Assign cell content to the grid. Content is provided as a flat list
/// matching the order of non-consumed cells in reading order.
fn assign_content(grid: &mut Vec<Vec<GridCell>>, contents: &[&str])
    requires
        resolved(old(grid)@, grid_tokens(old(grid)@)),
        forall|r: int, c: int|
            valid_cell(grid_tokens(old(grid)@), r, c) ==> (#[trigger] old(grid)@[r]@[c]).content@
                == Seq::<char>::empty(),
    ensures
        decoded(final(grid)@, grid_tokens(old(grid)@), str_views(contents@)),
{
    let ghost g = grid_tokens(grid@);
    let ghost cs = str_views(contents@);
    let num_rows = grid.len();
    let mut content_idx: usize = 0;
    let mut row_idx: usize = 0;
    while row_idx < num_rows
        invariant
            num_rows == g.len(),
            row_idx <= num_rows,
            cs == str_views(contents@),
            resolved(grid@, g),
            content_idx as int == if live_rank(g, row_idx as int, 0) < cs.len() {
                live_rank(g, row_idx as int, 0) as int
            } else {
                cs.len() as int
            },
            forall|r: int, c: int|
                valid_cell(g, r, c) ==> (#[trigger] grid@[r]@[c]).content@ == if c < done_cols(
                    g,
                    r,
                    row_idx as int,
                    0,
                ) {
                    cell_content(g, cs, r, c)
                } else {
                    Seq::<char>::empty()
                },
        decreases num_rows - row_idx,
    {
        let num_cols = grid[row_idx].len();
        assert(num_cols == g[row_idx as int].len());
        let mut col_idx: usize = 0;
        while col_idx < num_cols
            invariant
                num_rows == g.len(),
                row_idx < num_rows,
                num_cols == g[row_idx as int].len(),
                col_idx <= num_cols,
                cs == str_views(contents@),
                resolved(grid@, g),
                content_idx as int == if live_rank(g, row_idx as int, col_idx as int) < cs.len() {
                    live_rank(g, row_idx as int, col_idx as int) as int
                } else {
                    cs.len() as int
                },
                forall|r: int, c: int|
                    valid_cell(g, r, c) ==> (#[trigger] grid@[r]@[c]).content@ == if c < done_cols(
                        g,
                        r,
                        row_idx as int,
                        col_idx as int,
                    ) {
                        cell_content(g, cs, r, c)
                    } else {
                        Seq::<char>::empty()
                    },
            decreases num_cols - col_idx,
        {
            let ghost before = grid@;
            assert(valid_cell(g, row_idx as int, col_idx as int));
            assert(live_in_row(g, row_idx as int, col_idx + 1) == live_in_row(g, row_idx as int, col_idx as int)
                + if consumed(g, row_idx as int, col_idx as int) { 0nat } else { 1nat });
            if !grid[row_idx][col_idx].consumed && content_idx < contents.len() {
                let text = contents[content_idx].to_owned();
                grid[row_idx][col_idx].content = text;
                content_idx += 1;
            }
            proof {
                assert forall|r: int, c: int| valid_cell(g, r, c) implies (#[trigger] grid@[r]@[c]).content@
                    == if c < done_cols(g, r, row_idx as int, col_idx + 1) {
                    cell_content(g, cs, r, c)
                } else {
                    Seq::<char>::empty()
                } by {
                    assert(before[r]@[c] == before[r]@[c]);
                }
                assert forall|r: int, c: int| valid_cell(g, r, c) implies {
                    let cell = #[trigger] grid@[r]@[c];
                    &&& cell.colspan == colspan_of(g, r, c)
                    &&& cell.rowspan == rowspan_of(g, r, c)
                    &&& cell.consumed == consumed(g, r, c)
                } by {
                    assert(before[r]@[c] == before[r]@[c]);
                }
                assert(grid_tokens(grid@) =~= g) by {
                    assert forall|r: int| 0 <= r < g.len() implies #[trigger] grid_tokens(grid@)[r] =~= g[r] by {
                        assert forall|c: int| 0 <= c < g[r].len() implies grid_tokens(grid@)[r][c] == g[r][c] by {
                            lemma_grid_tokens_at(before, r, c);
                        }
                    }
                }
            }
            col_idx += 1;
        }
        assert(live_rank(g, row_idx + 1, 0) == live_rank(g, row_idx as int, num_cols as int));
        row_idx += 1;
    }
}

fn span_attributes(colspan: usize, rowspan: usize) -> (s: String)
    ensures
        s@ == span_attrs(colspan as nat, rowspan as nat),
{
    let mut attrs = String::new();
    if colspan > 1 {
        attrs.append(" colspan=\"");
        let n = usize_to_decimal(colspan);
        attrs.append(n.as_str());
        attrs.append("\"");
    }
    if rowspan > 1 {
        attrs.append(" rowspan=\"");
        let n = usize_to_decimal(rowspan);
        attrs.append(n.as_str());
        attrs.append("\"");
    }
    assert(attrs@ =~= span_attrs(colspan as nat, rowspan as nat));
    attrs
}

/// Convert the resolved grid to an HTML table string.
#[verifier::rlimit(80)]
#[verifier::spinoff_prover]
fn grid_to_html(grid: &Vec<Vec<GridCell>>) -> (html: String)
    ensures
        forall|cs: Seq<Seq<char>>|
            decoded(grid@, grid_tokens(grid@), cs) ==> html@ == "<table>\n"@ + rows_html(
                grid_tokens(grid@),
                cs,
                grid@.len() as int,
            ) + "</table>"@,
{
    let ghost g = grid_tokens(grid@);
    let mut html = String::from_str("<table>\n");
    let num_rows = grid.len();
    let mut row_idx: usize = 0;
    while row_idx < num_rows
        invariant
            num_rows == g.len(),
            g == grid_tokens(grid@),
            row_idx <= num_rows,
            forall|cs: Seq<Seq<char>>|
                decoded(grid@, g, cs) ==> html@ == "<table>\n"@ + rows_html(g, cs, row_idx as int),
        decreases num_rows - row_idx,
    {
        let ghost start = html@;
        html.append("  <tr>\n");
        let num_cols = grid[row_idx].len();
        assert(num_cols == g[row_idx as int].len());
        let mut col_idx: usize = 0;
        while col_idx < num_cols
            invariant
                num_rows == g.len(),
                g == grid_tokens(grid@),
                row_idx < num_rows,
                num_cols == g[row_idx as int].len(),
                col_idx <= num_cols,
                forall|cs: Seq<Seq<char>>|
                    decoded(grid@, g, cs) ==> html@ == "<table>\n"@ + rows_html(g, cs, row_idx as int)
                        + "  <tr>\n"@ + cells_html(g, cs, row_idx as int, col_idx as int),
            decreases num_cols - col_idx,
        {
            let ghost prev = html@;
            assert(valid_cell(g, row_idx as int, col_idx as int));
            let cell = &grid[row_idx][col_idx];
            if !cell.consumed {
                let attrs = span_attributes(cell.colspan, cell.rowspan);
                html.append("    <td");
                html.append(attrs.as_str());
                html.append(">");
                html.append(cell.content.as_str());
                html.append("</td>\n");
            }
            assert forall|cs: Seq<Seq<char>>| decoded(grid@, g, cs) implies html@ == "<table>\n"@
                + rows_html(g, cs, row_idx as int) + "  <tr>\n"@ + cells_html(
                g,
                cs,
                row_idx as int,
                col_idx + 1,
            ) by {
                assert(grid@[row_idx as int]@[col_idx as int] == *cell);
                if !cell.consumed {
                    assert(html@ =~= prev + cell_html(g, cs, row_idx as int, col_idx as int));
                } else {
                    assert(html@ =~= prev + Seq::<char>::empty());
                }
            }
            col_idx += 1;
        }
        html.append("  </tr>\n");
        row_idx += 1;
    }
    html.append("</table>");
    html
}

} // verus!

verus! {

/// Structured table output from the recognition pipeline.
#[derive(Debug)]
pub struct TableStructure {
    /// OTSL token sequence predicted by the model.
    pub tokens: Vec<OtslToken>,
    /// Number of rows detected.
    pub num_rows: usize,
    /// Number of columns detected.
    pub num_cols: usize,
    /// Rendered HTML table string.
    pub html: String,
}

/// Table structure recognition engine.
///
/// Takes a cropped table image and produces structured table output
/// (OTSL tokens -> HTML with correct colspan/rowspan).
pub struct TableRecognizer {
    _private: (),
}

/// The message of the error that table recognition reports.
pub open spec fn table_model_missing() -> Seq<char> {
    "Table recognition model not loaded"@
}

fn decode_grid(tokens: &[OtslToken], cell_contents: &[&str]) -> (grid: Vec<Vec<GridCell>>)
    ensures
        grid_tokens(grid@) == otsl_rows(tokens@),
        decoded(grid@, otsl_rows(tokens@), str_views(cell_contents@)),
{
    let mut grid = build_grid(tokens);
    let n = tokens.len();
    proof {
        assert(tokens@.len() == n);
        lemma_rows_from_cells(tokens@, seq![], seq![]);
        assert(total_cells(Seq::<Seq<OtslToken>>::empty()) == 0);
    }
    resolve_merges(&mut grid);
    assign_content(&mut grid, cell_contents);
    grid
}

impl TableRecognizer {
    /// Create a new TableRecognizer.
    pub fn new() -> Self {
        Self { _private: () }
    }

    /// Recognize table structure from a cropped table image.
    ///
    /// No recognition model is bundled, so this always reports
    /// `NotImplemented`.
    pub fn recognize_structure(&self, _image: &[u8]) -> (res: Result<TableStructure, Error>)
        ensures
            res matches Err(Error::NotImplemented(m)) && m@ == table_model_missing(),
    {
        Err(Error::NotImplemented("Table recognition model not loaded"))
    }

    /// Decode an OTSL token sequence into an HTML table.
    ///
    /// It handles:
    /// - Simple tables (no merges)
    /// - Horizontal merges (colspan via L tokens)
    /// - Vertical merges (rowspan via U tokens)
    /// - Cross merges (colspan + rowspan via X tokens)
    pub fn decode_otsl(tokens: &[OtslToken], cell_contents: &[&str]) -> (res: Result<String, Error>)
        ensures
            res matches Ok(html) && html@ == otsl_html(tokens@, str_views(cell_contents@)),
    {
        let grid = decode_grid(tokens, cell_contents);
        Ok(grid_to_html(&grid))
    }

    /// Decode an OTSL token sequence and return structured table data:
    /// one row of texts per grid row that keeps at least one cell, and the
    /// first such row repeated as the headers.
    pub fn decode_otsl_to_table_data(tokens: &[OtslToken], cell_contents: &[&str]) -> (res: Result<TableData, Error>)
        ensures
            res matches Ok(td) && td@.rows == otsl_table_rows(tokens@, str_views(cell_contents@))
                && td@.headers == if td@.rows.len() > 0 {
                Some(td@.rows[0])
            } else {
                None
            },
    {
        let grid = decode_grid(tokens, cell_contents);
        let ghost g = otsl_rows(tokens@);
        let ghost cs = str_views(cell_contents@);
        let mut rows: Vec<Vec<String>> = Vec::new();
        let num_rows = grid.len();
        let mut r: usize = 0;
        assert(rows.deep_view() =~= table_rows(g, cs, 0));
        while r < num_rows
            invariant
                num_rows == g.len(),
                r <= num_rows,
                grid_tokens(grid@) == g,
                decoded(grid@, g, cs),
                rows.deep_view() == table_rows(g, cs, r as int),
            decreases num_rows - r,
        {
            let mut cells: Vec<String> = Vec::new();
            let num_cols = grid[r].len();
            assert(num_cols == g[r as int].len());
            let mut c: usize = 0;
            assert(cells.deep_view() =~= row_cells(g, cs, r as int, 0));
            while c < num_cols
                invariant
                    num_rows == g.len(),
                    r < num_rows,
                    num_cols == g[r as int].len(),
                    c <= num_cols,
                    grid_tokens(grid@) == g,
                    decoded(grid@, g, cs),
                    cells.deep_view() == row_cells(g, cs, r as int, c as int),
                decreases num_cols - c,
            {
                assert(valid_cell(g, r as int, c as int));
                let cell = &grid[r][c];
                if !cell.consumed {
                    let ghost prev = cells.deep_view();
                    cells.push(cell.content.clone());
                    assert(cells.deep_view() =~= prev.push(cell_content(g, cs, r as int, c as int)));
                }
                c += 1;
            }
            if cells.len() > 0 {
                let ghost prev = rows.deep_view();
                let ghost rc = cells.deep_view();
                rows.push(cells);
                assert(rows.deep_view() =~= prev.push(rc));
            }
            r += 1;
        }
        let headers = if rows.len() > 0 {
            let first = rows[0].clone();
            assert(first.deep_view() =~= rows.deep_view()[0]);
            Some(first)
        } else {
            None
        };
        Ok(TableData { rows, headers })
    }
}

impl Default for TableRecognizer {
    fn default() -> Self {
        Self::new()
    }
}


/// Parsing fails exactly when some word names no token.
proof fn lemma_first_unknown_iff(ws: Seq<Seq<char>>, i: int)
    requires
        0 <= i <= ws.len(),
    ensures
        first_unknown(ws, i) is None <==> forall|k: int| i <= k < ws.len() ==> (#[trigger] token_of_word(ws[k])) is Some,
    decreases ws.len() - i,
{
    if i < ws.len() {
        lemma_first_unknown_iff(ws, i + 1);
    }
}

/// `parse_otsl_string` fails exactly when some white-space separated word of the
/// input is not one of `C`, `L`, `U`, `X` and `NL`; the error names the first such word.
pub proof fn law_otsl_parse_fails_on_unknown_word(input: Seq<char>)
    ensures
        first_unknown(words(input), 0) is None <==> forall|k: int| 0 <= k < words(input).len()
            ==> (#[trigger] token_of_word(words(input)[k])) is Some,
        first_unknown(words(input), 0) matches Some(i) ==> 0 <= i < words(input).len()
            && token_of_word(words(input)[i]) is None
            && forall|k: int| 0 <= k < i ==> (#[trigger] token_of_word(words(input)[k])) is Some,
{
    lemma_first_unknown_iff(words(input), 0);
    lemma_first_unknown_first(words(input), 0);
}

proof fn lemma_first_unknown_first(ws: Seq<Seq<char>>, i: int)
    requires
        0 <= i,
    ensures
        first_unknown(ws, i) matches Some(j) ==> i <= j < ws.len() && token_of_word(ws[j]) is None
            && forall|k: int| i <= k < j ==> (#[trigger] token_of_word(ws[k])) is Some,
    decreases ws.len() - i,
{
    if i < ws.len() && token_of_word(ws[i]) is Some {
        lemma_first_unknown_first(ws, i + 1);
    }
}

/// The word that names a token.
pub open spec fn token_name(t: OtslToken) -> Seq<char> {
    match t {
        OtslToken::C => seq!['C'],
        OtslToken::L => seq!['L'],
        OtslToken::U => seq!['U'],
        OtslToken::X => seq!['X'],
        OtslToken::NL => seq!['N', 'L'],
    }
}

proof fn lemma_token_of_name(t: OtslToken)
    ensures
        token_of_word(token_name(t)) == Some(t),
{
    let n = token_name(t);
    if n.len() == 1 {
        assert(n[0] != 'C' ==> n != seq!['C']);
        assert(n[0] != 'L' ==> n != seq!['L']);
        assert(n[0] != 'U' ==> n != seq!['U']);
    }
    assert(n.len() == 1 ==> n != seq!['N', 'L']);
    assert(n.len() == 2 ==> n != seq!['C'] && n != seq!['L'] && n != seq!['U'] && n != seq!['X']);
}

/// Tokens written as text: each token's word followed by a space.
pub open spec fn otsl_text(ts: Seq<OtslToken>) -> Seq<char>
    decreases ts.len(),
{
    if ts.len() == 0 {
        seq![]
    } else {
        token_name(ts[0]) + seq![' '] + otsl_text(ts.drop_first())
    }
}

proof fn lemma_words_from_word(w: Seq<char>, rest: Seq<char>, done: Seq<Seq<char>>, cur: Seq<char>)
    requires
        forall|k: int| 0 <= k < w.len() ==> !is_white_space(#[trigger] w[k]),
    ensures
        words_from(w + rest, done, cur) == words_from(rest, done, cur + w),
    decreases w.len(),
{
    if w.len() > 0 {
        assert((w + rest).drop_first() =~= w.drop_first() + rest);
        assert((w + rest)[0] == w[0]);
        lemma_words_from_word(w.drop_first(), rest, done, cur.push(w[0]));
        assert(cur.push(w[0]) + w.drop_first() =~= cur + w);
    } else {
        assert(w + rest =~= rest);
        assert(cur + w =~= cur);
    }
}

proof fn lemma_words_of_text(ts: Seq<OtslToken>, done: Seq<Seq<char>>)
    ensures
        words_from(otsl_text(ts), done, seq![]) == done + ts.map_values(|t: OtslToken| token_name(t)),
    decreases ts.len(),
{
    if ts.len() == 0 {
        assert(done + ts.map_values(|t: OtslToken| token_name(t)) =~= done);
    } else {
        let w = token_name(ts[0]);
        let rest = seq![' '] + otsl_text(ts.drop_first());
        assert(otsl_text(ts) =~= w + rest);
        lemma_words_from_word(w, rest, done, seq![]);
        assert(seq![] + w =~= w);
        assert(rest.drop_first() =~= otsl_text(ts.drop_first()));
        assert(is_white_space(rest[0]));
        lemma_words_of_text(ts.drop_first(), done.push(w));
        assert(done.push(w) + ts.drop_first().map_values(|t: OtslToken| token_name(t)) =~= done + ts.map_values(
            |t: OtslToken| token_name(t),
        ));
    }
}

/// Writing tokens as text and parsing it back gives the same tokens: the words of
/// the text are the tokens' names, every one of them names a token, and
/// `parse_otsl_string` on the text returns exactly those tokens.
pub proof fn law_otsl_round_trip(ts: Seq<OtslToken>)
    ensures
        words(otsl_text(ts)) == ts.map_values(|t: OtslToken| token_name(t)),
        first_unknown(words(otsl_text(ts)), 0) is None,
        words(otsl_text(ts)).map_values(|w: Seq<char>| token_of_word(w)->0) == ts,
{
    lemma_words_of_text(ts, seq![]);
    assert(Seq::<Seq<char>>::empty() + ts.map_values(|t: OtslToken| token_name(t)) =~= ts.map_values(
        |t: OtslToken| token_name(t),
    ));
    let ws = words(otsl_text(ts));
    assert forall|k: int| 0 <= k < ws.len() implies (#[trigger] token_of_word(ws[k])) is Some by {
        assert(ws[k] == token_name(ts[k]));
    }
    lemma_first_unknown_iff(ws, 0);
    let back = ws.map_values(|w: Seq<char>| token_of_word(w)->0);
    assert forall|k: int| 0 <= k < ts.len() implies #[trigger] back[k] == ts[k] by {
        assert(ws[k] == token_name(ts[k]));
        lemma_token_of_name(ts[k]);
    }
    assert(back =~= ts);
}

/// The HTML of every token sequence is one table: it starts with `<table>` and a
/// newline and ends with `</table>`.
pub proof fn law_otsl_html_is_one_table(t: Seq<OtslToken>, contents: Seq<Seq<char>>)
    ensures
        otsl_html(t, contents).len() >= 16,
        otsl_html(t, contents).take(8) == "<table>\n"@,
        otsl_html(t, contents).skip(otsl_html(t, contents).len() - 8) == "</table>"@,
{
    reveal_strlit("<table>\n");
    reveal_strlit("</table>");
    let g = otsl_rows(t);
    let mid = rows_html(g, contents, g.len() as int);
    let h = otsl_html(t, contents);
    assert(h == "<table>\n"@ + mid + "</table>"@);
    assert(h.take(8) =~= "<table>\n"@);
    assert(h.skip(h.len() - 8) =~= "</table>"@);
}

} // verus!
