use docling::{DocumentConverter, InputFormat, SourceDocument};
use rtools::docling_convert::{
    document_to_markdown, format_convert_error, markdown_from_document, panic_to_string,
};
use rtools::pdf::Guarded;

fn convert(name: &str, format: InputFormat, contents: &str) -> Result<String, String> {
    let source = SourceDocument::from_bytes(name, format, contents.as_bytes().to_vec());
    let converted = DocumentConverter::new()
        .convert(source)
        .map(|result| result.document.export_to_markdown())
        .map_err(|err| err.to_string());
    document_to_markdown(name, Guarded::Finished(markdown_from_document(converted)))
}

#[test]
fn converts_html_to_markdown() {
    let md = convert(
        "hello.html",
        InputFormat::Html,
        "<!DOCTYPE html><html><body><h1>DoclingHello</h1><p>Paragraph text for conversion.</p></body></html>",
    )
    .expect("document_to_markdown");
    assert!(md.contains("DoclingHello"), "unexpected markdown: {md:?}");
    assert!(
        md.contains("Paragraph text for conversion."),
        "unexpected markdown: {md:?}"
    );
}

#[test]
fn converts_markdown_passthrough() {
    let md = convert(
        "hello.md",
        InputFormat::Md,
        "# DoclingHello\n\nParagraph text for conversion.\n",
    )
    .expect("document_to_markdown");
    assert!(md.contains("DoclingHello"), "unexpected markdown: {md:?}");
    assert!(
        md.contains("Paragraph text for conversion."),
        "unexpected markdown: {md:?}"
    );
}

#[test]
fn empty_html_is_an_error() {
    let err = convert(
        "empty.html",
        InputFormat::Html,
        "<!DOCTYPE html><html><body></body></html>",
    )
    .expect_err("empty html");
    assert!(
        err.contains("変換に失敗しました"),
        "unexpected error: {err}"
    );
    assert!(
        err.contains("empty.html"),
        "error should include file name: {err}"
    );
}

#[test]
fn conversions_may_panic() {
    assert_eq!(
        document_to_markdown("d", Guarded::Panicked(None)),
        Err("d: 文書の変換に失敗しました。文書の変換中にパニックしました".into())
    );
    assert_eq!(
        document_to_markdown("d", Guarded::Panicked(Some("m".into()))),
        Err(format_convert_error("d", "m"))
    );
    assert_eq!(panic_to_string(Some("x".into())), "x");
    assert_eq!(
        markdown_from_document(Ok(" \n".into())),
        Err("テキストが空でした".into())
    );
    assert_eq!(markdown_from_document(Err("e".into())), Err("e".into()));
}
