//! From what a PDF reader finds on a page to the blocks of the page.
use crate::binary::Binary32;
use crate::blocks;
use crate::blocks::PageBlock;
use crate::fragments;
use crate::geometry;
use crate::order;
use crate::pdf;
use crate::pdf_layout;
use crate::pdf_layout::{reconstruct_page, LayoutLine, LayoutTable};
use crate::text;
use vstd::prelude::*;
use vstd::string::StringExecFns;

verus! {

/// A word of a line, with the average size of its characters.
#[derive(Debug, Clone)]
pub struct PdfWord {
    pub text: String,
    pub font_size: Binary32,
}

/// A line as the reader finds it.
#[derive(Debug, Clone)]
pub struct PdfLine {
    pub text: String,
    pub words: Vec<PdfWord>,
    pub x: Binary32,
    pub y: Binary32,
    pub width: Binary32,
    pub height: Binary32,
}

/// A cell of a table, which may reach over several columns.
#[derive(Debug, Clone)]
pub struct PdfCell {
    pub text: String,
    pub colspan: u32,
}

#[derive(Debug, Clone)]
pub struct PdfRow {
    pub cells: Vec<PdfCell>,
    pub is_header: bool,
}

/// Where a table stands.
#[derive(Debug, Clone, Copy)]
pub struct PdfBox {
    pub x: Binary32,
    pub y: Binary32,
    pub width: Binary32,
    pub height: Binary32,
}

/// A table as the reader finds it.
#[derive(Debug, Clone)]
pub struct PdfTable {
    pub bounds: Option<PdfBox>,
    pub col_count: usize,
    pub rows: Vec<PdfRow>,
    pub has_header: bool,
}

pub open spec fn word_texts(words: Seq<PdfWord>) -> Seq<Seq<char>> {
    words.map_values(|word: PdfWord| word.text@)
}

pub open spec fn size_sum(words: Seq<PdfWord>) -> Binary32
    decreases words.len(),
{
    if words.len() == 0 {
        geometry::num(geometry::ZERO)
    } else {
        size_sum(words.drop_last()).spec_plus(words.last().font_size)
    }
}

/// The size of a line: the average of its words, or its height where it has none; at least an em.
pub open spec fn line_size(line: PdfLine) -> Binary32 {
    (if line.words@.len() == 0 {
        line.height
    } else {
        size_sum(line.words@).spec_over(Binary32::spec_from_whole(line.words@.len()))
    }).spec_max(geometry::num(geometry::MIN_EM))
}

/// A line with its words joined.
pub open spec fn line_found(line: PdfLine) -> geometry::LineView {
    geometry::LineView {
        text: if line.words@.len() == 0 {
            line.text@
        } else {
            fragments::all_joined(word_texts(line.words@))
        },
        x: line.x,
        y: line.y,
        width: line.width,
        height: line.height,
        font_size: line_size(line),
        heading_level: None,
    }
}

fn average_size(words: &[PdfWord]) -> (r: Binary32)
    ensures
        r == size_sum(words@).spec_over(Binary32::spec_from_whole(words@.len())),
{
    let mut sum = Binary32 { bits: geometry::ZERO };
    for i in 0..words.len()
        invariant
            sum == size_sum(words@.take(i as int)),
    {
        assert(words@.take(i + 1).drop_last() =~= words@.take(i as int));
        sum = sum.plus(words[i].font_size);
    }
    assert(words@.take(words@.len() as int) =~= words@);
    sum.over(Binary32::from_whole(words.len() as u64))
}

fn texts_of(words: &[PdfWord]) -> (r: Vec<String>)
    ensures
        text::views(r@) == word_texts(words@),
{
    let ghost all = word_texts(words@);
    let mut out: Vec<String> = Vec::new();
    assert(text::views(out@) =~= all.take(0));
    for i in 0..words.len()
        invariant
            all == word_texts(words@),
            text::views(out@) == all.take(i as int),
    {
        let ghost before = out@;
        out.push(text::owned(words[i].text.as_str()));
        assert(text::views(out@) =~= text::views(before).push(all[i as int]));
        assert(all.take(i + 1) =~= all.take(i as int).push(all[i as int]));
    }
    assert(all.take(all.len() as int) =~= all);
    out
}

pub fn layout_line_from_pdf(line: PdfLine) -> (r: LayoutLine)
    ensures
        r@ == line_found(line),
{
    let em = Binary32 { bits: geometry::MIN_EM };
    let font_size = if line.words.len() == 0 {
        line.height.max(em)
    } else {
        average_size(line.words.as_slice()).max(em)
    };
    let text = if line.words.len() == 0 {
        line.text
    } else {
        let words = texts_of(line.words.as_slice());
        fragments::join_fragments(words.as_slice())
    };
    LayoutLine {
        text,
        x: line.x,
        y: line.y,
        width: line.width,
        height: line.height,
        font_size,
        heading_level: None,
    }
}

/// How many columns a cell takes: at least one.
pub open spec fn span(cell: PdfCell) -> nat {
    if cell.colspan == 0 {
        1
    } else {
        cell.colspan as nat
    }
}

/// `n` empty cells.
pub open spec fn blanks(n: nat) -> Seq<Seq<char>> {
    Seq::new(n, |i: int| Seq::empty())
}

/// The cells of a row, each followed by empty ones for the other columns that it takes.
pub open spec fn spread(cells: Seq<PdfCell>) -> Seq<Seq<char>>
    decreases cells.len(),
{
    if cells.len() == 0 {
        Seq::empty()
    } else {
        spread(cells.drop_last()).push(cells.last().text@) + blanks((span(cells.last()) - 1) as nat)
    }
}

/// The number of columns that the rows take, and at least `least`.
pub open spec fn columns(rows: Seq<PdfRow>, least: nat) -> nat
    decreases rows.len(),
{
    if rows.len() == 0 {
        least
    } else {
        let n = columns(rows.drop_last(), least);
        let width = spread(rows.last().cells@).len();
        if width > n {
            width
        } else {
            n
        }
    }
}

/// A row with empty cells for the columns that it lacks.
pub open spec fn padded(cells: Seq<Seq<char>>, n: nat) -> Seq<Seq<char>> {
    if cells.len() < n {
        cells + blanks((n - cells.len()) as nat)
    } else {
        cells
    }
}

/// The rows of a table, all of one length; rows without a column are left out.
pub open spec fn table_rows(rows: Seq<PdfRow>, n: nat) -> blocks::Grid
    decreases rows.len(),
{
    if rows.len() == 0 {
        Seq::empty()
    } else {
        let before = table_rows(rows.drop_last(), n);
        let cells = padded(spread(rows.last().cells@), n);
        if cells.len() > 0 {
            before.push(cells)
        } else {
            before
        }
    }
}

/// The texts of the cells of rows, as they were found.
pub open spec fn cell_texts(rows: Seq<PdfRow>) -> blocks::Grid {
    rows.map_values(
        |row: PdfRow| row.cells@.map_values(|cell: PdfCell| cell.text@),
    )
}

/// Whether the reader takes a table with so many columns and these cells for a grid of data.
pub uninterp spec fn real_grid(col_count: usize, cells: Seq<Seq<Seq<char>>>) -> bool;

/// What is known of that answer. A grid has two rows and two columns. With fewer than eight columns
/// that and two filled cells in at least half of the rows are enough; the number of rows is bounded
/// here so that their part is computed without rounding. Wider tables have to be filled more densely.
pub open spec fn is_grid_answer(col_count: usize, cells: blocks::Grid, answer: bool) -> bool {
    let populated = cells.filter(|row: Seq<Seq<char>>| blocks::is_populated(row)).len();
    &&& col_count < 2 || cells.len() < 2 ==> !answer
    &&& 2 <= col_count < 8 && 2 <= cells.len() <= 0x100_0000 ==> answer == (2 * populated
        >= cells.len())
}

/// `pdf_oxide::structure::Table::is_real_grid`, asked of a table with these columns, rows and texts.
/// It looks at nothing else of a table. The answer is named by [`real_grid`], and
/// [`is_grid_answer`] says what is claimed of it; how dense a table with eight columns or more has
/// to be is left unsaid.
#[verifier::external_body]
fn is_real_grid(table: &PdfTable) -> (r: bool)
    ensures
        r == real_grid(table.col_count, cell_texts(table.rows@)),
        is_grid_answer(table.col_count, cell_texts(table.rows@), r),
{
    let mut asked = pdf_oxide::structure::Table::new();
    asked.col_count = table.col_count;
    for row in &table.rows {
        let mut cells = pdf_oxide::structure::TableRow::new(row.is_header);
        for cell in &row.cells {
            cells.add_cell(pdf_oxide::structure::TableCell::new(cell.text.clone(), false));
        }
        asked.rows.push(cells);
    }
    asked.is_real_grid()
}

/// A table that is a grid and has its place on the page, with a cell for every column of every row.
pub open spec fn table_taken(table: PdfTable, is_grid: bool) -> Option<geometry::TableView> {
    match table.bounds {
        Some(bounds) => if is_grid {
            Some(
                geometry::TableView {
                    x: bounds.x,
                    y: bounds.y,
                    width: bounds.width,
                    height: bounds.height,
                    rows: table_rows(table.rows@, columns(table.rows@, table.col_count as nat)),
                    has_header: table.has_header || (table.rows@.len() > 0
                        && table.rows@[0].is_header),
                },
            )
        } else {
            None
        },
        None => None,
    }
}

/// A table that the reader takes for a grid of data.
pub open spec fn table_found(table: PdfTable) -> Option<geometry::TableView> {
    table_taken(table, real_grid(table.col_count, cell_texts(table.rows@)))
}

/// Whether what is known of the reader's answer holds of a table.
pub open spec fn is_answered(table: PdfTable) -> bool {
    let cells = cell_texts(table.rows@);
    is_grid_answer(table.col_count, cells, real_grid(table.col_count, cells))
}

fn spread_cells(cells: &[PdfCell]) -> (r: Vec<String>)
    ensures
        text::views(r@) == spread(cells@),
{
    let mut out: Vec<String> = Vec::new();
    assert(text::views(out@) =~= spread(cells@.take(0)));
    for i in 0..cells.len()
        invariant
            text::views(out@) == spread(cells@.take(i as int)),
    {
        let ghost before = text::views(out@);
        let ghost cell = cells@[i as int];
        assert(cells@.take(i + 1).drop_last() =~= cells@.take(i as int));
        out.push(text::owned(cells[i].text.as_str()));
        let ghost base = before.push(cell.text@);
        assert(text::views(out@) =~= base + blanks(0));
        let mut k: u32 = 1;
        while k < cells[i].colspan
            invariant
                i < cells@.len(),
                cell == cells@[i as int],
                1 <= k,
                k <= span(cell),
                text::views(out@) == base + blanks((k - 1) as nat),
            decreases cell.colspan - k,
        {
            let ghost old_out = out@;
            let empty = String::new();
            assert(empty@ =~= Seq::empty());
            out.push(empty);
            assert(text::views(out@) =~= text::views(old_out).push(Seq::empty()));
            assert(base + blanks(k as nat) =~= (base + blanks((k - 1) as nat)).push(Seq::empty()));
            k += 1;
        }
    }
    assert(cells@.take(cells@.len() as int) =~= cells@);
    out
}

fn pad_row(cells: Vec<String>, n: usize) -> (r: Vec<String>)
    ensures
        text::views(r@) == padded(text::views(cells@), n as nat),
{
    let ghost given = text::views(cells@);
    let mut out = cells;
    assert(text::views(out@) =~= given + blanks(0));
    while out.len() < n
        invariant
            given.len() <= out@.len(),
            out@.len() <= n || out@.len() == given.len(),
            text::views(out@) == given + blanks((out@.len() - given.len()) as nat),
        decreases n - out@.len(),
    {
        let ghost old_out = out@;
        let empty = String::new();
        assert(empty@ =~= Seq::empty());
        out.push(empty);
        let ghost m = (old_out.len() - given.len()) as nat;
        assert(text::views(out@) =~= text::views(old_out).push(Seq::empty()));
        assert(given + blanks(m + 1) =~= (given + blanks(m)).push(Seq::empty()));
    }
    assert(given + blanks(0) =~= given);
    out
}

/// A table in the form in which pages are put together; none where it is no grid or has no place.
pub fn layout_table_from_pdf(table: &PdfTable) -> (r: Option<LayoutTable>)
    ensures
        match r {
            Some(t) => table_found(*table) == Some(t@),
            None => table_found(*table) is None,
        },
        is_answered(*table),
{
    layout_table_from_grid(table, is_real_grid(table))
}

/// A table in the form in which pages are put together, once it is known whether it is a grid.
pub fn layout_table_from_grid(table: &PdfTable, is_grid: bool) -> (r: Option<LayoutTable>)
    ensures
        match r {
            Some(t) => table_taken(*table, is_grid) == Some(t@),
            None => table_taken(*table, is_grid) is None,
        },
{
    if !is_grid {
        return None;
    }
    let bounds = match table.bounds {
        Some(bounds) => bounds,
        None => {
            return None;
        },
    };
    let mut cells: Vec<Vec<String>> = Vec::new();
    let mut col_count: usize = table.col_count;
    for i in 0..table.rows.len()
        invariant
            cells@.len() == i,
            forall|j: int|
                0 <= j < i ==> text::views((#[trigger] cells@[j])@) == spread(
                    table.rows@[j].cells@,
                ),
            col_count == columns(table.rows@.take(i as int), table.col_count as nat),
    {
        assert(table.rows@.take(i + 1).drop_last() =~= table.rows@.take(i as int));
        let row = spread_cells(table.rows[i].cells.as_slice());
        assert(text::views(row@).len() == row@.len());
        if row.len() > col_count {
            col_count = row.len();
        }
        cells.push(row);
    }
    assert(table.rows@.take(table.rows@.len() as int) =~= table.rows@);
    let mut rows: Vec<Vec<String>> = Vec::new();
    assert(blocks::grid(rows@) =~= table_rows(table.rows@.take(0), col_count as nat));
    let ghost found = cells@;
    for row in it: cells
        invariant
            it.seq() == found,
            found.len() == table.rows@.len(),
            forall|j: int|
                0 <= j < found.len() ==> text::views((#[trigger] found[j])@) == spread(
                    table.rows@[j].cells@,
                ),
            blocks::grid(rows@) == table_rows(table.rows@.take(it.index()), col_count as nat),
    {
        let ghost before = rows@;
        proof {
            let n = it.index();
            assert(table.rows@.take(n + 1).drop_last() =~= table.rows@.take(n));
            assert(table.rows@.take(n + 1).last() == table.rows@[n]);
            assert(text::views(found[n]@) == spread(table.rows@[n].cells@));
        }
        let whole = pad_row(row, col_count);
        assert(text::views(whole@).len() == whole@.len());
        if whole.len() > 0 {
            let ghost w = text::views(whole@);
            rows.push(whole);
            assert(blocks::grid(rows@) =~= blocks::grid(before).push(w));
        }
    }
    assert(table.rows@.take(table.rows@.len() as int) =~= table.rows@);
    let has_header = table.has_header || (table.rows.len() > 0 && table.rows[0].is_header);
    Some(
        LayoutTable {
            x: bounds.x,
            y: bounds.y,
            width: bounds.width,
            height: bounds.height,
            rows,
            has_header,
        },
    )
}

pub open spec fn lines_found(lines: Seq<PdfLine>) -> Seq<geometry::LineView> {
    lines.map_values(|line: PdfLine| line_found(line))
}

/// The tables among those that the reader finds.
pub open spec fn tables_found(tables: Seq<PdfTable>) -> Seq<geometry::TableView>
    decreases tables.len(),
{
    if tables.len() == 0 {
        Seq::empty()
    } else {
        let before = tables_found(tables.drop_last());
        match table_found(tables.last()) {
            Some(table) => before.push(table),
            None => before,
        }
    }
}

/// What the reading of a page needs next, or what it has come to.
pub enum PageStep {
    /// The tables of the page, which has these lines.
    Tables(Vec<LayoutLine>),
    /// The plain text of the page.
    Text,
    /// The page is done.
    Blocks(Vec<PageBlock>),
}

/// Begins a page with the lines that were found on it, if they could be read. Without lines the
/// plain text has to do.
pub fn extract_page_blocks(lines: Option<Vec<PdfLine>>) -> (r: PageStep)
    ensures
        match lines {
            Some(lines) => if lines@.len() > 0 {
                r matches PageStep::Tables(found) && order::seen(found@) == lines_found(lines@)
            } else {
                r is Text
            },
            None => r is Text,
        },
{
    match lines {
        Some(lines) => {
            if lines.len() == 0 {
                return PageStep::Text;
            }
            let ghost all = lines_found(lines@);
            let mut found: Vec<LayoutLine> = Vec::new();
            assert(order::seen(found@) =~= all.take(0));
            for line in it: lines
                invariant
                    all == lines_found(it.seq()),
                    order::seen(found@) == all.take(it.index()),
            {
                let ghost before = found@;
                let ghost n = it.index();
                assert(all[n] == line_found(line));
                found.push(layout_line_from_pdf(line));
                assert(order::seen(found@) =~= order::seen(before).push(all[n]));
                assert(all.take(n + 1) =~= all.take(n).push(all[n]));
            }
            assert(all.take(all.len() as int) =~= all);
            PageStep::Tables(found)
        },
        None => PageStep::Text,
    }
}

/// Goes on with the tables that were found on a page. Where nothing comes of lines and tables, the
/// plain text has to do.
pub fn page_with_tables(lines: Vec<LayoutLine>, tables: &[PdfTable]) -> (r: PageStep)
    ensures
        is_page_step(order::seen(lines@), tables_found(tables@), r),
        forall|i: int| 0 <= i < tables@.len() ==> is_answered(#[trigger] tables@[i]),
{
    let mut found: Vec<LayoutTable> = Vec::new();
    assert(order::seen(found@) =~= tables_found(tables@.take(0)));
    for i in 0..tables.len()
        invariant
            order::seen(found@) == tables_found(tables@.take(i as int)),
            forall|j: int| 0 <= j < i ==> is_answered(#[trigger] tables@[j]),
    {
        let ghost before = found@;
        assert(tables@.take(i + 1).drop_last() =~= tables@.take(i as int));
        if let Some(table) = layout_table_from_pdf(&tables[i]) {
            let ghost t = table@;
            found.push(table);
            assert(order::seen(found@) =~= order::seen(before).push(t));
        }
    }
    assert(tables@.take(tables@.len() as int) =~= tables@);
    page_of_parts(lines, found)
}

/// Whether this is what comes of the lines and tables of a page.
pub open spec fn is_page_step(
    lines: Seq<geometry::LineView>,
    tables: Seq<geometry::TableView>,
    r: PageStep,
) -> bool {
    let done = pdf_layout::page_blocks(lines, tables);
    if done.len() > 0 {
        r matches PageStep::Blocks(found) && blocks::block_views(found@) == done
    } else {
        r is Text
    }
}

/// Puts a page together from its lines and the tables that were taken over.
pub fn page_of_parts(lines: Vec<LayoutLine>, tables: Vec<LayoutTable>) -> (r: PageStep)
    ensures
        is_page_step(order::seen(lines@), order::seen(tables@), r),
{
    let done = reconstruct_page(lines, tables);
    assert(blocks::block_views(done@).len() == done@.len());
    if done.len() == 0 {
        PageStep::Text
    } else {
        PageStep::Blocks(done)
    }
}

pub open spec fn page_error(page: nat, err: Seq<char>) -> Seq<char> {
    "ページ "@ + text::decimal(page) + " の抽出に失敗しました: "@ + err
}

/// A page as its plain text: one paragraph, or nothing where the text is blank.
pub fn fallback_page_blocks(index: usize, found: Result<String, String>) -> (r: Result<
    Option<Vec<PageBlock>>,
    String,
>)
    requires
        index < usize::MAX,
    ensures
        match found {
            Ok(text) => if pdf::tidied(text@).len() > 0 {
                r matches Ok(Some(page)) && blocks::block_views(page@) == seq![
                    blocks::Block::Paragraph(pdf::tidied(text@)),
                ]
            } else {
                r matches Ok(None)
            },
            Err(err) => r matches Err(e) && e@ == page_error((index + 1) as nat, err@),
        },
{
    match found {
        Ok(text) => {
            let body = pdf::collapse_ws(text.as_str());
            if body.as_str().is_empty() {
                Ok(None)
            } else {
                let ghost b = body@;
                let page: Vec<PageBlock> = vec![PageBlock::Paragraph(body)];
                assert(blocks::block_views(page@) =~= seq![blocks::Block::Paragraph(b)]);
                Ok(Some(page))
            }
        },
        Err(err) => {
            let mut out = text::owned("ページ ");
            text::push_decimal(&mut out, (index + 1) as u64);
            out.append(" の抽出に失敗しました: ");
            out.append(err.as_str());
            Err(out)
        },
    }
}

/// How the opening of a document may fail.
pub enum OpenError {
    Open(String),
    PageCount(String),
}

pub open spec fn open_error(err: OpenError) -> Seq<char> {
    match err {
        OpenError::Open(err) => "PDF を開けません: "@ + err@,
        OpenError::PageCount(err) => "ページ数を取得できません: "@ + err@,
    }
}

/// The number of pages of a document that was opened; there must be one.
pub fn checked_page_count(opened: Result<usize, OpenError>) -> (r: Result<usize, String>)
    ensures
        match opened {
            Ok(n) => if n > 0 {
                r == Ok::<usize, String>(n)
            } else {
                r matches Err(e) && e@ == "ページがありません"@
            },
            Err(err) => r matches Err(e) && e@ == open_error(err),
        },
{
    match opened {
        Ok(n) => {
            if n == 0 {
                Err(text::owned("ページがありません"))
            } else {
                Ok(n)
            }
        },
        Err(OpenError::Open(err)) => {
            let mut out = text::owned("PDF を開けません: ");
            out.append(err.as_str());
            Err(out)
        },
        Err(OpenError::PageCount(err)) => {
            let mut out = text::owned("ページ数を取得できません: ");
            out.append(err.as_str());
            Err(out)
        },
    }
}

/// What the reading of a page has come to: its blocks, if it has any, or a failure.
pub type PageOutcome = Result<Option<Vec<PageBlock>>, String>;

/// The pages that have blocks, in their order; where a page failed, the first failure.
pub open spec fn pages_kept(outcomes: Seq<PageOutcome>) -> Result<
    Seq<Seq<blocks::Block>>,
    Seq<char>,
>
    decreases outcomes.len(),
{
    if outcomes.len() == 0 {
        Ok(Seq::empty())
    } else {
        match pages_kept(outcomes.drop_last()) {
            Ok(before) => match outcomes.last() {
                Ok(Some(page)) => Ok(before.push(blocks::block_views(page@))),
                Ok(None) => Ok(before),
                Err(err) => Err(err@),
            },
            Err(err) => Err(err),
        }
    }
}

/// The page to read next, from what the pages before it have come to: none behind the last page, and
/// none behind one that failed.
pub fn next_page(outcomes: &[PageOutcome], page_count: usize) -> (r: Option<usize>)
    ensures
        r == if outcomes@.len() < page_count && !(outcomes@.len() > 0 && outcomes@.last() is Err) {
            Some(outcomes@.len() as usize)
        } else {
            None
        },
{
    let done = outcomes.len();
    if done >= page_count || (done > 0 && outcomes[done - 1].is_err()) {
        None
    } else {
        Some(done)
    }
}

proof fn lemma_failure_stays(outcomes: Seq<PageOutcome>, n: int)
    requires
        0 <= n <= outcomes.len(),
        pages_kept(outcomes.take(n)) is Err,
    ensures
        pages_kept(outcomes) == pages_kept(outcomes.take(n)),
    decreases outcomes.len(),
{
    if n < outcomes.len() {
        assert(outcomes.drop_last().take(n) =~= outcomes.take(n));
        lemma_failure_stays(outcomes.drop_last(), n);
    } else {
        assert(outcomes.take(n) =~= outcomes);
    }
}

/// The pages of a document, from what each of them has come to: those without blocks are left out,
/// and the first failure is that of the document.
pub fn pages_read(outcomes: Vec<PageOutcome>) -> (r: Result<Vec<Vec<PageBlock>>, String>)
    ensures
        match pages_kept(outcomes@) {
            Ok(pages) => r matches Ok(found) && pdf::page_views(found@) == pages,
            Err(err) => r matches Err(e) && e@ == err,
        },
{
    let ghost all = outcomes@;
    let mut pages: Vec<Vec<PageBlock>> = Vec::new();
    proof {
        assert(pdf::page_views(pages@) =~= Seq::empty());
        assert(all.take(0) =~= Seq::empty());
    }
    for outcome in it: outcomes
        invariant
            all == outcomes@,
            all == it.seq(),
            pages_kept(all.take(it.index())) == Ok::<Seq<Seq<blocks::Block>>, Seq<char>>(
                pdf::page_views(pages@),
            ),
    {
        let ghost before = pages@;
        proof {
            let n = it.index();
            assert(all.take(n + 1).drop_last() =~= all.take(n));
            assert(all.take(n + 1).last() == outcome);
        }
        match outcome {
            Ok(Some(page)) => {
                let ghost p = blocks::block_views(page@);
                pages.push(page);
                assert(pdf::page_views(pages@) =~= pdf::page_views(before).push(p));
            },
            Ok(None) => {},
            Err(err) => {
                proof {
                    lemma_failure_stays(all, it.index() + 1);
                }
                return Err(err);
            },
        }
    }
    assert(all.take(all.len() as int) =~= all);
    Ok(pages)
}

/// No page is missed by stopping behind one that failed: whatever the others would have come to, the
/// document fails with the same message.
pub proof fn pages_behind_a_failure_do_not_count(outcomes: Seq<PageOutcome>, n: int)
    requires
        0 < n <= outcomes.len(),
        outcomes[n - 1] is Err,
    ensures
        pages_kept(outcomes) is Err,
        pages_kept(outcomes) == pages_kept(outcomes.take(n)),
{
    assert(outcomes.take(n).last() == outcomes[n - 1]);
    lemma_failure_stays(outcomes, n);
}

proof fn lemma_columns(rows: Seq<PdfRow>, least: nat)
    ensures
        columns(rows, least) >= least,
        forall|i: int|
            0 <= i < rows.len() ==> spread((#[trigger] rows[i]).cells@).len() <= columns(
                rows,
                least,
            ),
    decreases rows.len(),
{
    if rows.len() > 0 {
        lemma_columns(rows.drop_last(), least);
        assert forall|i: int| 0 <= i < rows.len() implies spread((#[trigger] rows[i]).cells@).len()
            <= columns(rows, least) by {
            if i < rows.len() - 1 {
                assert(rows.drop_last()[i] == rows[i]);
            }
        }
    }
}

proof fn lemma_table_rows(rows: Seq<PdfRow>, n: nat)
    requires
        forall|i: int| 0 <= i < rows.len() ==> spread((#[trigger] rows[i]).cells@).len() <= n,
    ensures
        n > 0 ==> table_rows(rows, n).len() == rows.len(),
        forall|i: int|
            0 <= i < table_rows(rows, n).len() ==> (#[trigger] table_rows(rows, n)[i]).len() == n,
        forall|i: int|
            n > 0 && 0 <= i < rows.len() ==> spread((#[trigger] rows[i]).cells@).is_prefix_of(
                table_rows(rows, n)[i],
            ),
    decreases rows.len(),
{
    if rows.len() > 0 {
        let front = rows.drop_last();
        assert forall|i: int| 0 <= i < front.len() implies spread((#[trigger] front[i]).cells@).len()
            <= n by {
            assert(front[i] == rows[i]);
        }
        lemma_table_rows(front, n);
        assert(rows[rows.len() - 1] == rows.last());
        let cells = spread(rows.last().cells@);
        let whole = padded(cells, n);
        assert(whole.len() == n);
        assert(whole.subrange(0, cells.len() as int) =~= cells);
        let before = table_rows(front, n);
        assert forall|i: int| 0 <= i < table_rows(rows, n).len() implies (#[trigger] table_rows(
            rows,
            n,
        )[i]).len() == n by {
            if i < before.len() {
                assert(table_rows(rows, n)[i] == before[i]);
            }
        }
        assert forall|i: int| n > 0 && 0 <= i < rows.len() implies spread(
            (#[trigger] rows[i]).cells@,
        ).is_prefix_of(table_rows(rows, n)[i]) by {
            if i < front.len() {
                assert(front[i] == rows[i]);
            }
        }
    }
}

/// A table that is taken over has all its rows, each with the same number of cells, and each begins
/// with the cells that were found in it.
pub proof fn tables_are_rectangular(table: PdfTable, i: int)
    requires
        table.bounds is Some,
        columns(table.rows@, table.col_count as nat) > 0,
        0 <= i < table.rows@.len(),
    ensures
        ({
            let rows = table_taken(table, true).unwrap().rows;
            &&& rows.len() == table.rows@.len()
            &&& rows[i].len() == columns(table.rows@, table.col_count as nat)
            &&& spread(table.rows@[i].cells@).is_prefix_of(rows[i])
        }),
{
    let n = columns(table.rows@, table.col_count as nat);
    lemma_columns(table.rows@, table.col_count as nat);
    lemma_table_rows(table.rows@, n);
}

/// The cells of a row follow one another. Each stands in the first of the columns that it takes,
/// which is at least one, and leaves the others empty.
pub proof fn cells_take_their_columns(a: Seq<PdfCell>, b: Seq<PdfCell>, cell: PdfCell)
    ensures
        spread(a + b) == spread(a) + spread(b),
        spread(seq![cell]).len() == if cell.colspan <= 1 {
            1
        } else {
            cell.colspan as nat
        },
        spread(seq![cell])[0] == cell.text@,
        forall|i: int| 1 <= i < spread(seq![cell]).len() ==> (#[trigger] spread(seq![cell])[i]).len()
            == 0,
        spread(Seq::empty()).len() == 0,
    decreases b.len(),
{
    reveal_with_fuel(spread, 2);
    assert(seq![cell].drop_last() =~= Seq::empty());
    if b.len() == 0 {
        assert(a + b =~= a);
        assert(spread(a) + spread(b) =~= spread(a));
    } else {
        cells_take_their_columns(a, b.drop_last(), cell);
        assert((a + b).drop_last() =~= a + b.drop_last());
        assert((a + b).last() == b.last());
        assert(spread(a + b) =~= spread(a) + spread(b));
    }
}

proof fn lemma_widest(rows: Seq<PdfRow>, least: nat)
    ensures
        columns(rows, least) == least || exists|i: int|
            0 <= i < rows.len() && columns(rows, least) == spread(
                (#[trigger] rows[i]).cells@,
            ).len(),
    decreases rows.len(),
{
    if rows.len() > 0 {
        let front = rows.drop_last();
        lemma_widest(front, least);
        assert(rows[rows.len() - 1] == rows.last());
        if columns(front, least) != least {
            let i = choose|i: int|
                0 <= i < front.len() && columns(front, least) == spread(
                    (#[trigger] front[i]).cells@,
                ).len();
            assert(rows[i] == front[i]);
        }
    }
}

/// A table has as many columns as were counted, or as its widest row takes, whichever is more.
pub proof fn tables_are_as_wide_as_their_widest_row(rows: Seq<PdfRow>, counted: nat)
    ensures
        columns(rows, counted) >= counted,
        forall|i: int|
            0 <= i < rows.len() ==> columns(rows, counted) >= spread(
                (#[trigger] rows[i]).cells@,
            ).len(),
        columns(rows, counted) == counted || exists|i: int|
            0 <= i < rows.len() && columns(rows, counted) == spread(
                (#[trigger] rows[i]).cells@,
            ).len(),
{
    lemma_columns(rows, counted);
    lemma_widest(rows, counted);
}

proof fn lemma_padding(rows: Seq<PdfRow>, n: nat, i: int)
    requires
        n > 0,
        0 <= i < rows.len(),
        forall|k: int| 0 <= k < rows.len() ==> spread((#[trigger] rows[k]).cells@).len() <= n,
    ensures
        table_rows(rows, n).len() == rows.len(),
        table_rows(rows, n)[i] == padded(spread(rows[i].cells@), n),
    decreases rows.len(),
{
    let front = rows.drop_last();
    assert forall|k: int| 0 <= k < front.len() implies spread((#[trigger] front[k]).cells@).len()
        <= n by {
        assert(front[k] == rows[k]);
    }
    lemma_table_rows(front, n);
    lemma_table_rows(rows, n);
    if i < front.len() {
        lemma_padding(front, n, i);
        assert(front[i] == rows[i]);
    }
}

/// A table is taken over where it has its place and is a grid. It keeps the place, has a header
/// where the table or its first row says so, and behind the cells that were found in a row it has
/// empty ones alone.
pub proof fn tables_keep_place_and_cells(table: PdfTable, is_grid: bool, i: int, k: int)
    ensures
        table_taken(table, is_grid) is Some <==> table.bounds is Some && is_grid,
        table_taken(table, is_grid) matches Some(taken) ==> {
            let cells = spread(table.rows@[i].cells@);
            &&& taken.x == table.bounds.unwrap().x && taken.y == table.bounds.unwrap().y
            &&& taken.width == table.bounds.unwrap().width && taken.height
                == table.bounds.unwrap().height
            &&& taken.has_header <==> (table.has_header || (table.rows@.len() > 0
                && table.rows@[0].is_header))
            &&& 0 <= i < table.rows@.len() && 0 <= k < cells.len() ==> taken.rows.len()
                == table.rows@.len() && taken.rows[i][k] == cells[k]
            &&& 0 <= i < table.rows@.len() && cells.len() <= k < taken.rows[i].len() && columns(
                table.rows@,
                table.col_count as nat,
            ) > 0 ==> taken.rows[i][k].len() == 0
        },
{
    let n = columns(table.rows@, table.col_count as nat);
    lemma_columns(table.rows@, table.col_count as nat);
    if 0 <= i < table.rows@.len() && n > 0 {
        lemma_padding(table.rows@, n, i);
    }
}

/// The tables of a page are those that were taken over, in their order.
pub proof fn tables_follow_one_another(a: Seq<PdfTable>, b: Seq<PdfTable>, table: PdfTable)
    ensures
        tables_found(a + b) == tables_found(a) + tables_found(b),
        match table_found(table) {
            Some(taken) => tables_found(seq![table]) == seq![taken],
            None => tables_found(seq![table]).len() == 0,
        },
    decreases b.len(),
{
    reveal_with_fuel(tables_found, 2);
    assert(seq![table].drop_last() =~= Seq::empty());
    if let Some(taken) = table_found(table) {
        assert(tables_found(seq![table]) =~= seq![taken]);
    }
    if b.len() == 0 {
        assert(a + b =~= a);
        assert(tables_found(a) + tables_found(b) =~= tables_found(a));
    } else {
        tables_follow_one_another(a, b.drop_last(), table);
        assert((a + b).drop_last() =~= a + b.drop_last());
        assert((a + b).last() == b.last());
        assert(tables_found(a + b) =~= tables_found(a) + tables_found(b));
    }
}

/// A line keeps its place. It has the text of its words, joined, and their average size; without
/// words it has its own text and its height for its size. The size is at least 1, and nothing is
/// taken for a heading yet.
pub proof fn lines_keep_place_and_words(line: PdfLine)
    ensures
        ({
            let found = line_found(line);
            let n = line.words@.len();
            let one = geometry::num(0x3f80_0000);
            &&& found.x == line.x && found.y == line.y && found.width == line.width && found.height
                == line.height
            &&& found.heading_level is None
            &&& n == 0 ==> found.text == line.text@ && found.font_size == line.height.spec_max(one)
            &&& n > 0 ==> found.text == fragments::all_joined(
                line.words@.map_values(|word: PdfWord| word.text@),
            )
            &&& n > 0 ==> found.font_size == size_sum(line.words@).spec_over(
                Binary32::spec_from_whole(n),
            ).spec_max(one)
        }),
{
}

/// The sizes of words are summed up one after another, from 0.
pub proof fn sizes_are_summed_up(words: Seq<PdfWord>, word: PdfWord)
    ensures
        size_sum(words.push(word)) == size_sum(words).spec_plus(word.font_size),
        size_sum(Seq::empty()) == geometry::num(0),
{
    assert(words.push(word).drop_last() =~= words);
}

/// Pages are kept in their order, and those without blocks are left out. The first failure is that
/// of the document.
pub proof fn pages_are_kept_in_order(a: Seq<PageOutcome>, b: Seq<PageOutcome>, one: PageOutcome)
    ensures
        match (pages_kept(a), pages_kept(b)) {
            (Ok(first), Ok(then)) => pages_kept(a + b) == Ok::<
                Seq<Seq<blocks::Block>>,
                Seq<char>,
            >(first + then),
            (Ok(_), Err(err)) => pages_kept(a + b) == Err::<Seq<Seq<blocks::Block>>, Seq<char>>(
                err,
            ),
            (Err(err), _) => pages_kept(a + b) == Err::<Seq<Seq<blocks::Block>>, Seq<char>>(err),
        },
        match one {
            Ok(Some(page)) => pages_kept(seq![one]) == Ok::<Seq<Seq<blocks::Block>>, Seq<char>>(
                seq![blocks::block_views(page@)],
            ),
            Ok(None) => pages_kept(seq![one]) == Ok::<Seq<Seq<blocks::Block>>, Seq<char>>(
                Seq::empty(),
            ),
            Err(err) => pages_kept(seq![one]) == Err::<Seq<Seq<blocks::Block>>, Seq<char>>(err@),
        },
    decreases b.len(),
{
    reveal_with_fuel(pages_kept, 2);
    assert(seq![one].drop_last() =~= Seq::empty());
    if let Ok(Some(page)) = one {
        assert(Seq::<Seq<blocks::Block>>::empty().push(blocks::block_views(page@)) =~= seq![
            blocks::block_views(page@),
        ]);
    }
    if b.len() == 0 {
        assert(a + b =~= a);
        if let Ok(first) = pages_kept(a) {
            assert(first + Seq::<Seq<blocks::Block>>::empty() =~= first);
        }
    } else {
        pages_are_kept_in_order(a, b.drop_last(), one);
        assert((a + b).drop_last() =~= a + b.drop_last());
        assert((a + b).last() == b.last());
        if pages_kept(a) is Ok && pages_kept(b.drop_last()) is Ok {
            if let Ok(Some(page)) = b.last() {
                let first = pages_kept(a)->Ok_0;
                let then = pages_kept(b.drop_last())->Ok_0;
                let v = blocks::block_views(page@);
                assert((first + then).push(v) =~= first + then.push(v));
            }
        }
    }
}

/// A failure names the page, counted from 1, or says what could not be done with the document.
pub proof fn failures_say_what_failed(page: nat, err: String)
    ensures
        page_error(page, err@) == "ページ "@ + text::decimal(page) + " の抽出に失敗しました: "@
            + err@,
        open_error(OpenError::Open(err)) == "PDF を開けません: "@ + err@,
        open_error(OpenError::PageCount(err)) == "ページ数を取得できません: "@ + err@,
{
}

/// A page is done with the blocks of its lines and tables; where these show nothing the plain text of
/// the page is asked for.
pub proof fn pages_fall_back_to_plain_text(
    lines: Seq<geometry::LineView>,
    tables: Seq<geometry::TableView>,
    r: PageStep,
)
    requires
        is_page_step(lines, tables, r),
    ensures
        r is Text <==> pdf_layout::page_blocks(lines, tables).len() == 0,
        !(r is Tables),
        r matches PageStep::Blocks(found) ==> blocks::block_views(found@) == pdf_layout::page_blocks(
            lines,
            tables,
        ),
{
}

/// The reader is asked about the columns and the texts of a table as they were found. A table with
/// its place and with two to seven columns is taken over where at least half of its rows have two
/// filled cells; one with fewer than two rows or columns never is.
pub proof fn tables_are_judged_by_their_cells(table: PdfTable, i: int, k: int)
    requires
        is_answered(table),
    ensures
        0 <= i < table.rows@.len() && 0 <= k < table.rows@[i].cells@.len() ==> cell_texts(
            table.rows@,
        )[i][k] == table.rows@[i].cells@[k].text@,
        table_found(table) is Some ==> table.bounds is Some && table.col_count >= 2
            && table.rows@.len() >= 2 && real_grid(table.col_count, cell_texts(table.rows@)),
        table.bounds is Some && 2 <= table.col_count < 8 && 2 <= table.rows@.len() <= 0x100_0000
            ==> (table_found(table) is Some <==> 2 * cell_texts(table.rows@).filter(
            |row: Seq<Seq<char>>| blocks::has_two_filled(row),
        ).len() >= table.rows@.len()),
{
    let p = |row: Seq<Seq<char>>| blocks::is_populated(row);
    let q = |row: Seq<Seq<char>>| blocks::has_two_filled(row);
    assert forall|row: Seq<Seq<char>>| #[trigger] p(row) == q(row) by {
        blocks::lemma_populated(row);
    }
    assert(p =~= q);
}

} // verus!
