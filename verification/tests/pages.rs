use rtools::binary::Binary32;
use rtools::blocks::PageBlock;
use rtools::pdf_pages::{
    checked_page_count, extract_page_blocks, fallback_page_blocks, layout_line_from_pdf,
    layout_table_from_grid, layout_table_from_pdf, next_page, page_of_parts, page_with_tables,
    pages_read, OpenError, PageOutcome, PageStep, PdfBox, PdfCell, PdfLine, PdfRow, PdfTable,
    PdfWord,
};

fn num(x: f32) -> Binary32 {
    Binary32 { bits: x.to_bits() }
}

fn line(text: &str, words: Vec<(&str, f32)>, height: f32) -> PdfLine {
    PdfLine {
        text: text.into(),
        words: words
            .into_iter()
            .map(|(text, size)| PdfWord { text: text.into(), font_size: num(size) })
            .collect(),
        x: num(10.0),
        y: num(700.0),
        width: num(100.0),
        height: num(height),
    }
}

fn row(cells: Vec<(&str, u32)>, is_header: bool) -> PdfRow {
    PdfRow {
        cells: cells
            .into_iter()
            .map(|(text, colspan)| PdfCell { text: text.into(), colspan })
            .collect(),
        is_header,
    }
}

fn table(rows: Vec<PdfRow>, col_count: usize) -> PdfTable {
    PdfTable {
        bounds: Some(PdfBox { x: num(1.0), y: num(2.0), width: num(3.0), height: num(4.0) }),
        col_count,
        rows,
        has_header: false,
    }
}

#[test]
fn words_give_text_and_size() {
    let found = layout_line_from_pdf(line("ignored", vec![("hello", 10.0), ("world", 13.0)], 9.0));
    assert_eq!(found.text, "hello world");
    assert_eq!(found.font_size, num(11.5));
    assert_eq!(found.x, num(10.0));
    let bare = layout_line_from_pdf(line("as it is", Vec::new(), 9.0));
    assert_eq!(bare.text, "as it is");
    assert_eq!(bare.font_size, num(9.0));
    let tiny = layout_line_from_pdf(line("t", vec![("t", 0.25)], 9.0));
    assert_eq!(tiny.font_size, num(1.0));
    assert_eq!(tiny.heading_level, None);
}

#[test]
fn spans_leave_empty_cells() {
    let spanned = table(
        vec![
            row(vec![("a", 2), ("b", 1)], true),
            row(vec![("c", 0)], false),
        ],
        2,
    );
    let found = layout_table_from_pdf(&spanned).unwrap();
    assert_eq!(found.rows, vec![vec!["a", "", "b"], vec!["c", "", ""]]);
    assert!(found.has_header);
    assert_eq!(found.height, num(4.0));
}

#[test]
fn columns_may_be_given() {
    let narrow = table(vec![row(vec![("a", 1)], false)], 3);
    let found = layout_table_from_grid(&narrow, true).unwrap();
    assert_eq!(found.rows, vec![vec!["a", "", ""]]);
    assert!(!found.has_header);
    let empty = table(vec![row(Vec::new(), false)], 0);
    let none = layout_table_from_grid(&empty, true).unwrap();
    assert!(none.rows.is_empty());
}

#[test]
fn tables_need_a_grid_and_a_place() {
    let grid = table(vec![row(vec![("a", 1), ("b", 1)], false), row(Vec::new(), false)], 2);
    assert!(layout_table_from_pdf(&grid).is_some());
    assert!(layout_table_from_grid(&grid, false).is_none());
    let mut lost = grid.clone();
    lost.bounds = None;
    assert!(layout_table_from_pdf(&lost).is_none());
    assert!(layout_table_from_grid(&lost, true).is_none());
}

#[test]
fn grids_have_filled_rows() {
    let filled = || row(vec![("a", 1), ("b", 1)], false);
    let label = || row(vec![("a", 1), (" \u{3000}", 1)], false);
    for (rows, col_count, is_grid) in [
        (vec![filled(), filled()], 1, false),
        (vec![filled()], 2, false),
        (vec![filled(), label()], 2, true),
        (vec![filled(), label(), label()], 7, false),
        (vec![filled(), filled(), label()], 7, true),
        (vec![filled(), filled(), filled()], 8, false),
    ] {
        let found = layout_table_from_pdf(&table(rows, col_count));
        assert_eq!(found.is_some(), is_grid, "{col_count}");
    }
    let wide = || row(vec![("a", 1); 8], false);
    assert!(layout_table_from_pdf(&table(vec![wide(), wide(), wide()], 8)).is_some());
}

#[test]
fn pages_are_made_of_their_parts() {
    let grid = table(vec![row(vec![("a", 1), ("b", 1)], false), row(vec![("c", 1)], false)], 2);
    let rows = vec![vec!["a".to_string(), "b".into()], vec!["c".into(), String::new()]];
    let expected = vec![PageBlock::Table { rows, has_header: false }];
    match page_with_tables(Vec::new(), &[grid.clone()]) {
        PageStep::Blocks(blocks) => assert_eq!(blocks, expected),
        _ => panic!("the page is done"),
    }
    let taken = layout_table_from_grid(&grid, true).unwrap();
    match page_of_parts(Vec::new(), vec![taken]) {
        PageStep::Blocks(blocks) => assert_eq!(blocks, expected),
        _ => panic!("the page is done"),
    }
}

#[test]
fn the_first_failing_page_ends_the_reading() {
    let page = |text: &str| vec![PageBlock::Paragraph(text.into())];
    let read: Vec<PageOutcome> = vec![Ok(Some(page("a"))), Ok(None), Ok(Some(page("b")))];
    assert_eq!(next_page(&[], 3), Some(0));
    assert_eq!(next_page(&read[..2], 3), Some(2));
    assert_eq!(next_page(&read, 3), None);
    assert_eq!(pages_read(read), Ok(vec![page("a"), page("b")]));
    let failed: Vec<PageOutcome> =
        vec![Ok(Some(page("a"))), Err("one".into()), Ok(None), Err("two".into())];
    assert_eq!(next_page(&failed[..2], 9), None);
    assert_eq!(pages_read(failed), Err("one".into()));
    assert_eq!(pages_read(Vec::new()), Ok(Vec::new()));
}

#[test]
fn pages_without_lines_fall_back_to_text() {
    assert!(matches!(extract_page_blocks(None), PageStep::Text));
    assert!(matches!(extract_page_blocks(Some(Vec::new())), PageStep::Text));
    let lines = match extract_page_blocks(Some(vec![line("text", Vec::new(), 14.0)])) {
        PageStep::Tables(lines) => lines,
        _ => panic!("tables are asked for"),
    };
    match page_with_tables(lines, &[]) {
        PageStep::Blocks(blocks) => {
            assert_eq!(blocks, vec![PageBlock::Paragraph("text".into())])
        }
        _ => panic!("the page is done"),
    }
    assert!(matches!(page_with_tables(Vec::new(), &[]), PageStep::Text));
}

#[test]
fn plain_text_makes_one_paragraph() {
    assert_eq!(
        fallback_page_blocks(0, Ok(" a \n b ".into())),
        Ok(Some(vec![PageBlock::Paragraph("a b".into())]))
    );
    assert_eq!(fallback_page_blocks(0, Ok(" \n".into())), Ok(None));
    assert_eq!(
        fallback_page_blocks(11, Err("broken".into())),
        Err("ページ 12 の抽出に失敗しました: broken".into())
    );
}

#[test]
fn a_document_needs_a_page() {
    assert_eq!(checked_page_count(Ok(3)), Ok(3));
    assert_eq!(checked_page_count(Ok(0)), Err("ページがありません".into()));
    assert_eq!(
        checked_page_count(Err(OpenError::Open("x".into()))),
        Err("PDF を開けません: x".into())
    );
    assert_eq!(
        checked_page_count(Err(OpenError::PageCount("y".into()))),
        Err("ページ数を取得できません: y".into())
    );
}
