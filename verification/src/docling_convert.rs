//! Documents of other kinds, turned into Markdown.
use crate::pdf::Guarded;
use crate::text;
use vstd::prelude::*;
use vstd::string::StringExecFns;

verus! {

/// The Markdown of a document that was converted; it must not be blank.
pub fn markdown_from_document(converted: Result<String, String>) -> (r: Result<String, String>)
    ensures
        text::result_view(r) == match converted {
            Ok(markdown) => if text::trimmed(markdown@).len() > 0 {
                Ok(markdown@)
            } else {
                Err("テキストが空でした"@)
            },
            Err(err) => Err(err@),
        },
{
    match converted {
        Ok(markdown) => {
            if text::is_blank(markdown.as_str()) {
                return Err(text::owned("テキストが空でした"));
            }
            Ok(markdown)
        },
        Err(err) => Err(err),
    }
}

pub open spec fn convert_error(path: Seq<char>, detail: Seq<char>) -> Seq<char> {
    path + ": 文書の変換に失敗しました。"@ + detail
}

pub fn format_convert_error(path: &str, detail: &str) -> (r: String)
    ensures
        r@ == convert_error(path@, detail@),
{
    let mut out = text::owned(path);
    out.append(": 文書の変換に失敗しました。");
    out.append(detail);
    out
}

pub open spec fn panic_text(message: Option<String>) -> Seq<char> {
    match message {
        Some(message) => message@,
        None => "文書の変換中にパニックしました"@,
    }
}

pub fn panic_to_string(message: Option<String>) -> (r: String)
    ensures
        r@ == panic_text(message),
{
    match message {
        Some(message) => message,
        None => text::owned("文書の変換中にパニックしました"),
    }
}

/// The Markdown of a document, from what its conversion ended with.
pub fn document_to_markdown(path: &str, outcome: Guarded) -> (r: Result<String, String>)
    ensures
        text::result_view(r) == match outcome {
            Guarded::Finished(Ok(markdown)) => Ok(markdown@),
            Guarded::Finished(Err(err)) => Err(convert_error(path@, err@)),
            Guarded::Panicked(message) => Err(convert_error(path@, panic_text(message))),
        },
{
    match outcome {
        Guarded::Finished(Ok(markdown)) => Ok(markdown),
        Guarded::Finished(Err(err)) => Err(format_convert_error(path, err.as_str())),
        Guarded::Panicked(message) => Err(
            format_convert_error(path, panic_to_string(message).as_str()),
        ),
    }
}

/// A failure names the document and what went wrong with it, which is the message of a panic where
/// there was one.
pub proof fn failures_name_the_document(path: Seq<char>, detail: Seq<char>, message: String)
    ensures
        convert_error(path, detail) == path + ": 文書の変換に失敗しました。"@ + detail,
        panic_text(Some(message)) == message@,
        panic_text(None) == "文書の変換中にパニックしました"@,
{
}

} // verus!
