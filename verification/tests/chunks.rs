use rtools::blocks::PageBlock;
use rtools::pdf::{
    chunks_from_text, chunks_of_file, collapse_ws, extract_text, extract_with_pdf_oxide,
    format_extraction_error, is_pdf, markdown_file_name, markdown_from_pdf, markdown_from_text,
    markdown_of_blocks, markdown_of_pages, panic_to_string, pdf_to_markdown, split_chunks,
    structure_pdf, Guarded, OVERLAP_CHARS, TARGET_CHARS,
};

#[test]
fn chunks_short_text_as_one() {
    let docs = chunks_from_text("/docs/report.pdf", "これはテストです。");
    assert_eq!(docs.len(), 1);
    assert_eq!(docs[0].title, "report");
    assert_eq!(docs[0].file_name, "report.pdf");
    assert_eq!(docs[0].page, 1);
    assert_eq!(docs[0].chunk, 1);
    assert!(docs[0].text.contains("テスト"));
}

#[test]
fn splits_form_feed_as_pages() {
    let docs = chunks_from_text("a.pdf", "page-one\u{c}page-two");
    assert_eq!(docs.len(), 2);
    assert_eq!(docs[0].page, 1);
    assert_eq!(docs[0].text, "page-one");
    assert_eq!(docs[1].page, 2);
    assert_eq!(docs[1].text, "page-two");
}

#[test]
fn empty_text_gets_placeholder() {
    let docs = chunks_from_text("empty.pdf", "   \n\t");
    assert_eq!(docs.len(), 1);
    assert!(docs[0].text.contains("抽出できませんでした"));
}

#[test]
fn splits_long_text() {
    let long = "あ".repeat(TARGET_CHARS + 200);
    let docs = chunks_from_text("long.pdf", &long);
    assert!(docs.len() >= 2);
    assert_eq!(docs[0].chunk, 1);
    assert_eq!(docs[1].chunk, 2);
}

#[test]
fn detects_pdf_extension() {
    assert!(is_pdf("a.PDF"));
    assert!(!is_pdf("a.txt"));
}

#[test]
fn extraction_error_is_japanese() {
    let err = format_extraction_error("C:\\patents\\jp.pdf", "ページがありません");
    assert!(err.contains("テキスト抽出に失敗しました"));
    assert!(err.contains("jp.pdf"));
    assert!(err.contains("ページがありません"));
}

#[test]
fn panic_payload_keeps_message() {
    let msg = panic_to_string(Some("parse failed".into()));
    assert_eq!(msg, "parse failed");
    let msg = panic_to_string(Some("owned".to_string()));
    assert_eq!(msg, "owned");
    assert_eq!(panic_to_string(None), "PDF 解析中にパニックしました");
}

#[test]
fn markdown_file_name_uses_stem() {
    assert_eq!(markdown_file_name("/docs/report.pdf"), "report.md");
    assert_eq!(markdown_file_name("a.PDF"), "a.md");
    assert_eq!(markdown_file_name("noext"), "noext.md");
}

#[test]
fn markdown_uses_stem_as_title() {
    let md = markdown_from_text("/docs/report.pdf", "hello");
    assert_eq!(md, "# report\n\nhello\n");
    assert!(!md.contains("## ページ"));
}

#[test]
fn markdown_splits_form_feed_as_pages() {
    let md = markdown_from_text("a.pdf", "page-one\u{c}page-two");
    assert_eq!(md, "# a\n\npage-one\n\npage-two\n");
    assert!(!md.contains("## ページ"));
}

#[test]
fn markdown_skips_empty_pages() {
    let md = markdown_from_text("a.pdf", "keep\u{c}  \n\t\u{c}also");
    assert_eq!(md, "# a\n\nkeep\n\nalso\n");
    assert!(!md.contains("## ページ"));
}

#[test]
fn file_names_follow_the_path() {
    for (path, name) in [
        ("a/b/c.pdf", "c.pdf"),
        ("a/b/c.pdf/", "c.pdf"),
        ("a/b/./", "b"),
        ("/x//y.z", "y.z"),
        ("./q", "q"),
    ] {
        assert_eq!(chunks_from_text(path, "t")[0].file_name, name, "{path}");
    }
    for path in ["..", "a/..", "/", "", ".", "./."] {
        let chunk = &chunks_from_text(path, "t")[0];
        assert_eq!(chunk.file_name, path);
        assert_eq!(chunk.title, path);
        assert_eq!(markdown_file_name(path), "converted.md");
        assert!(!is_pdf(path));
    }
}

#[test]
fn stems_end_at_the_last_dot() {
    for (name, stem, pdf) in [
        ("a.b.pdf", "a.b", true),
        (".pdf", ".pdf", false),
        ("a.", "a", false),
        ("..pdf", ".", true),
        ("x.Pdf", "x", true),
        ("x.pdfx", "x", false),
    ] {
        assert_eq!(chunks_of_file("p", Some(name), "t")[0].title, stem, "{name}");
        assert_eq!(is_pdf(name), pdf, "{name}");
    }
}

#[test]
fn pages_are_tidied() {
    assert_eq!(collapse_ws("  a \n b\n\n c\u{c}d  "), "a b\ncd");
    assert_eq!(collapse_ws("\u{c} \n"), "");
    let once = collapse_ws("x \t y\n\nz ");
    assert_eq!(collapse_ws(&once), once);
    assert_eq!(once, "x y\nz");
}

#[test]
fn long_pages_are_cut_with_an_overlap() {
    let text: String = (0..5000).map(|i| char::from(b'a' + (i % 26) as u8)).collect();
    let parts = split_chunks(&text);
    let chars: Vec<char> = text.chars().collect();
    let mut start = 0;
    for (i, part) in parts.iter().enumerate() {
        let found: Vec<char> = part.chars().collect();
        assert!(found.len() <= TARGET_CHARS);
        assert_eq!(found[..], chars[start..start + found.len()]);
        start += found.len();
        if i + 1 < parts.len() {
            start -= OVERLAP_CHARS;
        }
    }
    assert_eq!(start, 5000);
}

#[test]
fn chunks_end_behind_sentences() {
    let text = format!("{}。{}", "あ".repeat(1000), "い".repeat(1500));
    let parts = split_chunks(&text);
    assert_eq!(parts[0].chars().count(), 1001);
    assert!(parts[0].ends_with('。'));
    let early = format!("{}。{}", "あ".repeat(800), "い".repeat(1500));
    assert_eq!(split_chunks(&early)[0].chars().count(), TARGET_CHARS);
}

#[test]
fn chunks_are_numbered_page_by_page() {
    let text = format!("{}\u{c}\u{c}{}", "あ".repeat(2500), "い".repeat(2500));
    let chunks = chunks_from_text("n.pdf", &text);
    let numbers: Vec<(u32, u32)> = chunks.iter().map(|c| (c.page, c.chunk)).collect();
    assert_eq!(numbers, vec![(1, 1), (1, 2), (3, 1), (3, 2)]);
    assert!(chunks.iter().all(|c| !c.text.is_empty()));
}

#[test]
fn pages_join_and_come_apart() {
    let pages = vec![
        vec![PageBlock::Paragraph("one".into())],
        vec![PageBlock::Heading("two".into()), PageBlock::Paragraph("x".into())],
    ];
    let text = extract_with_pdf_oxide(Ok(pages)).unwrap();
    assert_eq!(text, "one\u{c}two\n\nx");
    let found: Vec<&str> = text.split('\u{c}').collect();
    assert_eq!(found, vec!["one", "two\n\nx"]);
    assert_eq!(extract_with_pdf_oxide(Err("e".into())), Err("e".into()));
}

#[test]
fn extraction_passes_text_on() {
    assert_eq!(
        extract_text("p", Guarded::Finished(Ok("t".into()))),
        Ok("t".into())
    );
    assert_eq!(
        extract_text("p", Guarded::Finished(Ok(" \n".into()))),
        Ok(" \n".into())
    );
    assert_eq!(
        extract_text("p", Guarded::Finished(Err("bad".into()))),
        Err("p: PDF のテキスト抽出に失敗しました。bad".into())
    );
    assert_eq!(
        extract_text("p", Guarded::Panicked(None)),
        Err("p: PDF のテキスト抽出に失敗しました。PDF 解析中にパニックしました".into())
    );
}

#[test]
fn structuring_passes_errors_on() {
    let chunks = structure_pdf("d/x.pdf", Guarded::Finished(Ok("hello".into()))).unwrap();
    assert_eq!(chunks[0].title, "x");
    assert_eq!(chunks[0].text, "hello");
    assert!(structure_pdf("x.pdf", Guarded::Panicked(Some("m".into())))
        .unwrap_err()
        .ends_with("m"));
}

#[test]
fn files_without_text_are_kept() {
    let no_pages = extract_with_pdf_oxide(Ok(Vec::new()));
    assert_eq!(no_pages, Ok(String::new()));
    for outcome in [no_pages, Ok(" \n\u{c}\u{3000}".into())] {
        let chunks = structure_pdf("d/scan.pdf", Guarded::Finished(outcome)).unwrap();
        assert_eq!(chunks.len(), 1);
        assert_eq!(chunks[0].text, "(テキストを抽出できませんでした)");
        assert_eq!((chunks[0].page, chunks[0].chunk), (1, 1));
        assert_eq!(chunks[0].title, "scan");
        assert_eq!(chunks[0].file_name, "scan.pdf");
    }
    assert!(structure_pdf("d/scan.pdf", Guarded::Finished(Err("e".into()))).is_err());
}

#[test]
fn pdf_files_are_known_behind_backslashes() {
    for path in ["C:\\docs\\a.pdf", "docs\\a.PDF", "C:a.pdf", "C:/docs/a.pdf", "\\docs\\a.pdf"] {
        assert!(is_pdf(path), "{path}");
        assert!(markdown_file_name(path).ends_with("a.md"), "{path}");
        assert!(chunks_from_text(path, "t")[0].title.ends_with('a'), "{path}");
    }
    assert!(!is_pdf("C:\\docs.pdf\\a.txt"));
    assert_eq!(chunks_from_text("C:/docs/a.pdf", "t")[0].file_name, "a.pdf");
}

#[test]
fn markdown_needs_text() {
    let blank: Vec<Vec<PageBlock>> = vec![Vec::new()];
    assert_eq!(
        markdown_from_pdf("a.pdf", Ok(blank)),
        Err("テキストが空でした".into())
    );
    let pages = vec![
        vec![PageBlock::Heading("h".into())],
        Vec::new(),
        vec![PageBlock::Paragraph("p".into())],
    ];
    assert_eq!(
        markdown_from_pdf("a.pdf", Ok(pages.clone())),
        Ok("# a\n\n### h\n\np\n".into())
    );
    assert_eq!(
        markdown_of_blocks("dir", None, &pages),
        Ok("# dir\n\n### h\n\np\n".into())
    );
    assert_eq!(markdown_from_pdf("a.pdf", Err("e".into())), Err("e".into()));
    assert_eq!(
        pdf_to_markdown("a.pdf", Guarded::Finished(Ok("m".into()))),
        Ok("m".into())
    );
    assert_eq!(
        pdf_to_markdown("a.pdf", Guarded::Finished(Err("e".into()))),
        Err("a.pdf: PDF のテキスト抽出に失敗しました。e".into())
    );
    assert!(pdf_to_markdown("a.pdf", Guarded::Panicked(None)).is_err());
}

#[test]
fn a_page_may_end_with_its_own_line_break() {
    let (text, wrote) = markdown_of_pages("p", Some("t.pdf"), &["a\n".into(), "b".into()]);
    assert_eq!(text, "# t\n\na\n\nb\n");
    assert!(wrote);
    let (text, wrote) = markdown_of_pages("p", Some("t.pdf"), &[" ".into()]);
    assert_eq!(text, "# t\n\n");
    assert!(!wrote);
}
