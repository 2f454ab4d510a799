use rtools::binary::Binary32;
use rtools::pdf_layout::{
    blocks_to_markdown, blocks_to_plain, detect_gutter, is_heading, is_same_line, join_fragments,
    median_line_gap, merge_same_lines, ordered_items, overlap_fraction, paragraph_break_threshold,
    reconstruct_page, should_continue, table_to_markdown, Item, LayoutLine, LayoutTable, PageBlock,
};

fn num(x: f32) -> Binary32 {
    Binary32 { bits: x.to_bits() }
}

fn line(text: &str, x: f32, y: f32, width: f32, height: f32, font_size: f32) -> LayoutLine {
    LayoutLine {
        text: text.into(),
        x: num(x),
        y: num(y),
        width: num(width),
        height: num(height),
        font_size: num(font_size),
        heading_level: None,
    }
}

fn texts(rows: Vec<Vec<&str>>) -> Vec<Vec<String>> {
    rows.into_iter()
        .map(|row| row.into_iter().map(str::to_string).collect())
        .collect()
}

fn table(y: f32, height: f32, rows: Vec<Vec<&str>>) -> LayoutTable {
    LayoutTable {
        x: num(40.0),
        y: num(y),
        width: num(400.0),
        height: num(height),
        rows: texts(rows),
        has_header: true,
    }
}

fn fragments(parts: &[&str]) -> String {
    let owned: Vec<String> = parts.iter().map(|part| part.to_string()).collect();
    join_fragments(&owned)
}

#[test]
fn joins_japanese_wrapped_lines() {
    let lines = [
        line("これは折り返された", 50.0, 700.0, 200.0, 14.0, 12.0),
        line("文章です。", 50.0, 684.0, 80.0, 14.0, 12.0),
    ];
    let blocks = reconstruct_page(lines.into(), Vec::new());
    assert_eq!(
        blocks,
        vec![PageBlock::Paragraph("これは折り返された文章です。".into())]
    );
}

#[test]
fn joins_wrapped_lines_with_wide_leading() {
    let lines = [
        line("特性排気速度効率を向", 50.0, 700.0, 200.0, 14.0, 12.0),
        line("上できるインジェクタ。", 50.0, 672.0, 180.0, 14.0, 12.0),
    ];
    let blocks = reconstruct_page(lines.into(), Vec::new());
    assert_eq!(
        blocks,
        vec![PageBlock::Paragraph(
            "特性排気速度効率を向上できるインジェクタ。".into()
        )]
    );
}

#[test]
fn joins_after_japanese_period_when_leading_matches() {
    let lines = [
        line("これは一文です。", 50.0, 700.0, 160.0, 14.0, 12.0),
        line("次の文です。", 50.0, 684.0, 140.0, 14.0, 12.0),
    ];
    let blocks = reconstruct_page(lines.into(), Vec::new());
    assert_eq!(
        blocks,
        vec![PageBlock::Paragraph("これは一文です。次の文です。".into())]
    );
}

#[test]
fn splits_when_previous_line_does_not_fill_frame() {
    let lines = [
        line("短い段落。", 50.0, 700.0, 80.0, 14.0, 12.0),
        line("次の段落は長い行です。", 50.0, 684.0, 200.0, 14.0, 12.0),
    ];
    let blocks = reconstruct_page(lines.into(), Vec::new());
    assert_eq!(
        blocks,
        vec![
            PageBlock::Paragraph("短い段落。".into()),
            PageBlock::Paragraph("次の段落は長い行です。".into()),
        ]
    );
}

#[test]
fn splits_after_short_wrap_before_next_paragraph() {
    let lines = [
        line("これは折り返された長い", 50.0, 700.0, 200.0, 14.0, 12.0),
        line("段落の終わり。", 50.0, 684.0, 90.0, 14.0, 12.0),
        line("新しい段落の始まりは長い行", 50.0, 668.0, 200.0, 14.0, 12.0),
    ];
    let blocks = reconstruct_page(lines.into(), Vec::new());
    assert_eq!(
        blocks,
        vec![
            PageBlock::Paragraph("これは折り返された長い段落の終わり。".into()),
            PageBlock::Paragraph("新しい段落の始まりは長い行".into()),
        ]
    );
}

#[test]
fn splits_when_vertical_gap_exceeds_leading() {
    let mut lines = Vec::new();
    for i in 0..3 {
        let y = 700.0 - i as f32 * 16.0;
        lines.push(line(&format!("上{i}。"), 50.0, y, 140.0, 14.0, 12.0));
    }
    for i in 0..3 {
        let y = 520.0 - i as f32 * 16.0;
        lines.push(line(&format!("下{i}。"), 50.0, y, 140.0, 14.0, 12.0));
    }
    let blocks = reconstruct_page(lines, Vec::new());
    assert_eq!(
        blocks,
        vec![
            PageBlock::Paragraph("上0。上1。上2。".into()),
            PageBlock::Paragraph("下0。下1。下2。".into()),
        ]
    );
}

#[test]
fn joins_same_visual_line_fragments() {
    let lines = [
        line("第１の端部、", 50.0, 700.0, 90.0, 14.0, 12.0),
        line("第２の端部、", 145.0, 701.0, 90.0, 14.0, 12.0),
        line("チャンバを囲む", 240.0, 699.5, 100.0, 14.0, 12.0),
    ];
    let blocks = reconstruct_page(lines.into(), Vec::new());
    assert_eq!(
        blocks,
        vec![PageBlock::Paragraph(
            "第１の端部、第２の端部、チャンバを囲む".into()
        )]
    );
}

#[test]
fn keeps_latin_word_spaces() {
    let lines = [
        line("This is a wrapped", 50.0, 700.0, 180.0, 14.0, 12.0),
        line("English sentence.", 50.0, 684.0, 140.0, 14.0, 12.0),
    ];
    let blocks = reconstruct_page(lines.into(), Vec::new());
    assert_eq!(
        blocks,
        vec![PageBlock::Paragraph(
            "This is a wrapped English sentence.".into()
        )]
    );
}

#[test]
fn table_markdown_escapes_pipes() {
    let rows = vec![
        vec!["項目".into(), "値".into()],
        vec!["A|B".into(), "1".into()],
    ];
    let md = table_to_markdown(&rows, true);
    assert_eq!(md, "| 項目 | 値 |\n| --- | --- |\n| A\\|B | 1 |");
}

#[test]
fn drops_lines_overlapping_table() {
    let lines = [
        line("見出しの前", 50.0, 400.0, 120.0, 14.0, 12.0),
        line("表の中の文字", 50.0, 120.0, 120.0, 14.0, 12.0),
        line("表のあと", 50.0, 50.0, 120.0, 14.0, 12.0),
    ];
    let tables = [table(
        100.0,
        120.0,
        vec![vec!["項目", "値"], vec!["A", "1"]],
    )];
    let blocks = reconstruct_page(lines.into(), tables.into());
    assert_eq!(
        blocks,
        vec![
            PageBlock::Paragraph("見出しの前".into()),
            PageBlock::Table {
                rows: vec![
                    vec!["項目".into(), "値".into()],
                    vec!["A".into(), "1".into()],
                ],
                has_header: true,
            },
            PageBlock::Paragraph("表のあと".into()),
        ]
    );
    let md = blocks_to_markdown(&blocks);
    assert!(md.contains("| 項目 | 値 |"));
    assert!(!md.contains("表の中の文字"));
}

#[test]
fn dehyphenates_latin_wrap() {
    assert_eq!(fragments(&["inter-", "national"]), "international");
}

#[test]
fn heading_from_font_size() {
    let lines = [
        line("大きな見出し", 50.0, 720.0, 180.0, 22.0, 22.0),
        line("本文の一行目です。", 50.0, 690.0, 180.0, 14.0, 12.0),
    ];
    let blocks = reconstruct_page(lines.into(), Vec::new());
    assert_eq!(
        blocks,
        vec![
            PageBlock::Heading("大きな見出し".into()),
            PageBlock::Paragraph("本文の一行目です。".into()),
        ]
    );
    assert_eq!(
        blocks_to_markdown(&blocks),
        "### 大きな見出し\n\n本文の一行目です。"
    );
}

#[test]
fn join_fragments_handles_cjk_and_latin() {
    assert_eq!(fragments(&["価格は", "100円"]), "価格は100円");
    assert_eq!(fragments(&["hello", "world"]), "hello world");
}

#[test]
fn join_fragments_scales_to_many_chars() {
    let parts: Vec<String> = (0..2000).map(|_| "あ".to_string()).collect();
    let joined = join_fragments(&parts);
    assert_eq!(joined.chars().count(), 2000);
    assert!(joined.chars().all(|ch| ch == 'あ'));
}

#[test]
fn two_column_reads_left_then_right() {
    let mut lines = Vec::new();
    for i in 0..4 {
        let y = 700.0 - i as f32 * 16.0;
        lines.push(line(&format!("L{i}"), 20.0, y, 80.0, 14.0, 12.0));
        lines.push(line(&format!("R{i}"), 300.0, y, 80.0, 14.0, 12.0));
    }
    let blocks = reconstruct_page(lines, Vec::new());
    let plain = blocks_to_plain(&blocks);
    let l_pos = plain.find("L0").unwrap();
    let r_pos = plain.find("R0").unwrap();
    assert!(l_pos < r_pos, "unexpected order: {plain}");
    assert!(plain.contains("L3"));
    assert!(
        !plain.contains("L0 R0"),
        "columns were interleaved: {plain}"
    );
}

#[test]
fn reading_order_follows_pdf_y_up() {
    let lines = [
        line("ページ下部", 50.0, 80.0, 120.0, 14.0, 12.0),
        line("ページ上部", 50.0, 700.0, 120.0, 14.0, 12.0),
    ];
    let plain = blocks_to_plain(&reconstruct_page(lines.into(), Vec::new()));
    let top = plain.find("ページ上部").unwrap();
    let bottom = plain.find("ページ下部").unwrap();
    assert!(top < bottom, "PDF Y-up was inverted: {plain}");
}

#[test]
fn plain_tables_join_cells_with_spaces() {
    let blocks = [PageBlock::Table {
        rows: vec![vec!["A".into(), "B".into()], vec!["1".into(), "2".into()]],
        has_header: true,
    }];
    assert_eq!(blocks_to_plain(&blocks), "A B\n1 2");
}

#[test]
fn a_line_knows_its_edges() {
    let l = line("x", 10.0, 20.0, 30.0, 14.5, 12.0);
    assert_eq!(l.right(), num(40.0));
    assert_eq!(l.bottom(), num(34.5));
    assert_eq!(l.visual_top(), num(34.5));
    assert_eq!(l.center_x(), num(25.0));
    let t = table(100.0, 120.0, Vec::new());
    assert_eq!(t.right(), num(440.0));
    assert_eq!(t.bottom(), num(220.0));
    assert_eq!(t.visual_top(), num(220.0));
}

#[test]
fn overlap_is_a_part_of_the_line() {
    let t = table(100.0, 100.0, Vec::new());
    let half = line("x", 40.0, 193.0, 100.0, 14.0, 12.0);
    assert_eq!(overlap_fraction(&half, &t), num(0.5));
    let empty = line("x", 40.0, 150.0, 0.0, 14.0, 12.0);
    assert_eq!(overlap_fraction(&empty, &t), num(0.0));
    let away = line("x", 40.0, 400.0, 100.0, 14.0, 12.0);
    assert_eq!(overlap_fraction(&away, &t), num(0.0));
}

#[test]
fn headings_are_large_or_marked() {
    let mut l = line("x", 0.0, 0.0, 10.0, 10.0, 15.0);
    assert!(is_heading(&l, num(12.0)));
    assert!(!is_heading(&l, num(12.1)));
    assert!(!is_heading(&l, num(0.0)));
    l.heading_level = Some(2);
    assert!(is_heading(&l, num(100.0)));
}

#[test]
fn same_line_needs_level_and_touch() {
    let a = line("a", 100.0, 700.0, 50.0, 10.0, 10.0);
    assert!(is_same_line(&a, &line("b", 155.0, 701.0, 50.0, 10.0, 10.0)));
    assert!(!is_same_line(&a, &line("b", 161.0, 700.0, 50.0, 10.0, 10.0)));
    assert!(!is_same_line(&a, &line("b", 89.0, 700.0, 50.0, 10.0, 10.0)));
    assert!(!is_same_line(&a, &line("b", 150.0, 709.5, 50.0, 10.0, 10.0)));
}

#[test]
fn paragraphs_go_on_only_from_full_lines() {
    let prev = line("a", 50.0, 700.0, 200.0, 14.0, 12.0);
    let next = line("b", 50.0, 684.0, 80.0, 14.0, 12.0);
    assert!(should_continue(&prev, &next, num(12.0), num(2.0), num(250.0)));
    assert!(should_continue(&prev, &next, num(12.0), num(2.0), num(256.0)));
    assert!(!should_continue(&prev, &next, num(12.0), num(2.0), num(257.0)));
    let indented = line("b", 75.0, 684.0, 80.0, 14.0, 12.0);
    assert!(!should_continue(&prev, &indented, num(12.0), num(2.0), num(250.0)));
    let above = line("b", 50.0, 760.0, 80.0, 14.0, 12.0);
    assert!(!should_continue(&prev, &above, num(12.0), num(2.0), num(250.0)));
    let left = line("b", 10.0, 684.0, 30.0, 14.0, 12.0);
    assert!(!should_continue(&prev, &left, num(12.0), num(2.0), num(250.0)));
    let far = line("b", 50.0, 600.0, 80.0, 14.0, 12.0);
    assert!(!should_continue(&prev, &far, num(12.0), num(2.0), num(250.0)));
}

#[test]
fn the_break_gap_follows_the_leading() {
    assert_eq!(paragraph_break_threshold(num(10.0), num(12.0)), num(1.8 * 10.0));
    assert_eq!(paragraph_break_threshold(num(1.0), num(12.0)), num(9.0));
    assert_eq!(paragraph_break_threshold(num(-5.0), num(0.0)), num(0.75));
}

#[test]
fn parts_of_a_line_are_merged_from_left_to_right() {
    let lines = vec![
        line("right", 60.0, 700.0, 40.0, 10.0, 10.0),
        line("left", 10.0, 700.0, 45.0, 10.0, 10.0),
        line("far", 300.0, 700.0, 40.0, 10.0, 10.0),
        line("below", 10.0, 600.0, 40.0, 10.0, 10.0),
    ];
    let merged = merge_same_lines(lines);
    let found: Vec<&str> = merged.iter().map(|l| l.text.as_str()).collect();
    assert_eq!(found, vec!["left right", "far", "below"]);
    assert_eq!(merged[0].x, num(10.0));
    assert_eq!(merged[0].width, num(90.0));
    assert_eq!(merged[0].height, num(10.0));
}

#[test]
fn a_gutter_needs_two_columns() {
    let mut lines = Vec::new();
    for i in 0..4 {
        let y = 700.0 - i as f32 * 16.0;
        lines.push(line("l", 20.0, y, 80.0, 14.0, 12.0));
        lines.push(line("r", 300.0, y, 80.0, 14.0, 12.0));
    }
    assert_eq!(detect_gutter(&lines), Some(num(200.0)));
    assert_eq!(detect_gutter(&lines[..7]), None);
    lines.push(line("across", 20.0, 500.0, 360.0, 14.0, 12.0));
    assert_eq!(detect_gutter(&lines), None);
    let narrow: Vec<LayoutLine> = (0..8)
        .map(|i| line("n", 20.0, 700.0 - i as f32 * 16.0, 80.0, 14.0, 12.0))
        .collect();
    assert_eq!(detect_gutter(&narrow), None);
}

#[test]
fn wide_tables_cut_columns_into_bands() {
    let mut lines = Vec::new();
    for i in 0..2 {
        let y = 700.0 - i as f32 * 16.0;
        lines.push(line(&format!("L{i}"), 20.0, y, 80.0, 14.0, 12.0));
        lines.push(line(&format!("R{i}"), 300.0, y, 80.0, 14.0, 12.0));
    }
    for i in 2..4 {
        let y = 300.0 - i as f32 * 16.0;
        lines.push(line(&format!("L{i}"), 20.0, y, 80.0, 14.0, 12.0));
        lines.push(line(&format!("R{i}"), 300.0, y, 80.0, 14.0, 12.0));
    }
    let wide = table(400.0, 100.0, vec![vec!["a", "b"], vec!["c", "d"]]);
    let items = ordered_items(lines, vec![wide], Some(num(200.0)));
    let order: Vec<String> = items
        .iter()
        .map(|item| match item {
            Item::Line(l) => l.text.clone(),
            Item::Table(_) => "T".to_string(),
        })
        .collect();
    assert_eq!(
        order,
        vec!["L0", "L1", "R0", "R1", "T", "L2", "L3", "R2", "R3"]
    );
}

#[test]
fn the_median_gap_skips_tables() {
    let items = vec![
        Item::Line(line("a", 0.0, 100.0, 10.0, 10.0, 10.0)),
        Item::Line(line("b", 0.0, 85.0, 10.0, 10.0, 10.0)),
        Item::Table(table(50.0, 10.0, Vec::new())),
        Item::Line(line("c", 0.0, 30.0, 10.0, 10.0, 10.0)),
        Item::Line(line("d", 0.0, 13.0, 10.0, 10.0, 10.0)),
    ];
    assert_eq!(median_line_gap(&items), num(5.0));
    assert_eq!(median_line_gap(&[]), num(12.0));
}

#[test]
fn tables_without_header_get_an_empty_one() {
    let rows = texts(vec![vec!["a", "b"], vec!["c"]]);
    assert_eq!(
        table_to_markdown(&rows, false),
        "|  |  |\n| --- | --- |\n| a | b |\n| c |  |"
    );
    assert_eq!(table_to_markdown(&[], true), "");
    assert_eq!(table_to_markdown(&[Vec::new()], true), "");
}

#[test]
fn small_grids_are_no_tables() {
    let lines = vec![line("text", 50.0, 400.0, 120.0, 14.0, 12.0)];
    let one_row = table(100.0, 20.0, vec![vec!["a", "b"]]);
    let one_column = table(60.0, 20.0, vec![vec!["a"], vec!["b"]]);
    let sparse = table(20.0, 20.0, vec![vec!["a", " "], vec!["", "b"]]);
    let blocks = reconstruct_page(lines, vec![one_row, one_column, sparse]);
    assert_eq!(blocks, vec![PageBlock::Paragraph("text".into())]);
}

#[test]
fn an_empty_page_has_no_blocks() {
    assert!(reconstruct_page(Vec::new(), Vec::new()).is_empty());
    let blank = vec![line("  ", 0.0, 0.0, 10.0, 10.0, 10.0)];
    assert!(reconstruct_page(blank, Vec::new()).is_empty());
}

#[test]
fn markdown_of_a_table_has_a_line_per_row() {
    let rows = texts(vec![vec!["a\nb", "c"], vec!["d", "e"], vec!["f", "g"]]);
    assert_eq!(table_to_markdown(&rows, true).lines().count(), 4);
    assert_eq!(table_to_markdown(&rows, false).lines().count(), 5);
}

#[test]
fn plain_text_shows_no_marks() {
    let rows = vec![vec!["a|b".to_string(), "c".into()], vec!["d".into(), String::new()]];
    let marked = [
        PageBlock::Heading("h".into()),
        PageBlock::Paragraph("p".into()),
        PageBlock::Table { rows: rows.clone(), has_header: true },
    ];
    let unmarked = [
        PageBlock::Paragraph("h".into()),
        PageBlock::Heading("p".into()),
        PageBlock::Table { rows, has_header: false },
    ];
    assert_eq!(blocks_to_plain(&marked), "h\n\np\n\na|b c\nd ");
    assert_eq!(blocks_to_plain(&unmarked), blocks_to_plain(&marked));
}
