//! What goes into the embedding model and what is accepted from it.
//!
//! The model itself is run by the caller; the functions here are generic over the type of a
//! vector's components, which they only carry through.
use crate::text;
use vstd::prelude::*;
use vstd::string::StringExecFns;

verus! {

/// The number of components that the model multilingual-e5-small gives, and that the index holds.
pub const EMBEDDING_DIM: usize = 384;

/// A search text as the model expects it.
pub fn with_query_prefix(text: &str) -> (r: String)
    ensures
        r@ == "query: "@ + text::trimmed(text@),
{
    let mut r = text::owned("query: ");
    r.append(text::trim(text));
    r
}

/// A text to be registered as the model expects it.
pub fn with_passage_prefix(text: &str) -> (r: String)
    ensures
        r@ == "passage: "@ + text::trimmed(text@),
{
    let mut r = text::owned("passage: ");
    r.append(text::trim(text));
    r
}

/// The input of the model for a search text, which must not be blank.
pub fn query_input(text: &str) -> (r: Result<String, String>)
    ensures
        match r {
            Ok(input) => text::trimmed(text@).len() > 0 && input@ == "query: "@ + text::trimmed(text@),
            Err(message) => text::trimmed(text@).len() == 0 && message@ == "検索文が空です。"@,
        },
{
    let input = with_query_prefix(text);
    if text::same_text(input.as_str(), "query: ") {
        proof {
            assert(input@.len() == "query: "@.len() + text::trimmed(text@).len());
        }
        return Err(text::owned("検索文が空です。"));
    }
    proof {
        if text::trimmed(text@).len() == 0 {
            assert(input@ =~= "query: "@);
        }
    }
    Ok(input)
}

/// The inputs of the model for the texts to be registered, one for each.
pub fn passage_inputs(texts: &[&str]) -> (r: Vec<String>)
    ensures
        r@.len() == texts@.len(),
        forall|i: int|
            0 <= i < texts@.len() ==> (#[trigger] r@[i])@ == "passage: "@ + text::trimmed(texts@[i]@),
{
    let mut r: Vec<String> = Vec::new();
    for i in 0..texts.len()
        invariant
            r@.len() == i,
            forall|j: int|
                0 <= j < i ==> (#[trigger] r@[j])@ == "passage: "@ + text::trimmed(texts@[j]@),
    {
        r.push(with_passage_prefix(texts[i]));
    }
    r
}

pub open spec fn dimension_message(n: nat) -> Seq<char> {
    "埋め込み次元が "@ + text::decimal(384) + " ではありません（"@ + text::decimal(n) + "）。"@
}

/// Where the model is kept.
#[derive(Debug, Clone)]
pub enum CacheRoot {
    /// In a folder for such data.
    Folder(String),
    /// In the usual place below the home folder.
    Home(String),
    /// Among the temporary files.
    Temporary,
}

pub open spec fn is_given(dir: Option<&str>) -> bool {
    match dir {
        Some(dir) => text::trimmed(dir@).len() > 0,
        None => false,
    }
}

/// Chooses where the model is kept, from the folders that the system names: first the one for
/// local data, next the one for caches, then the home folder. The first two are passed over where
/// they are blank.
pub fn model_cache_root(local: Option<&str>, cache: Option<&str>, home: Option<&str>) -> (r:
    CacheRoot)
    ensures
        if is_given(local) {
            r matches CacheRoot::Folder(dir) && dir@ == text::trimmed(local.unwrap()@)
        } else if is_given(cache) {
            r matches CacheRoot::Folder(dir) && dir@ == text::trimmed(cache.unwrap()@)
        } else {
            match home {
                Some(home) => r matches CacheRoot::Home(dir) && dir@ == home@,
                None => r is Temporary,
            }
        },
{
    if let Some(dir) = local {
        let dir = text::trim(dir);
        if !dir.is_empty() {
            return CacheRoot::Folder(text::owned(dir));
        }
    }
    if let Some(dir) = cache {
        let dir = text::trim(dir);
        if !dir.is_empty() {
            return CacheRoot::Folder(text::owned(dir));
        }
    }
    match home {
        Some(home) => CacheRoot::Home(text::owned(home)),
        None => CacheRoot::Temporary,
    }
}

/// Refuses a dimension other than that of the index.
pub fn checked_dimension(dimension: usize) -> (r: Result<(), String>)
    ensures
        r is Ok <==> dimension == EMBEDDING_DIM,
        r matches Err(message) ==> message@ == dimension_message(dimension as nat),
{
    if dimension == EMBEDDING_DIM {
        Ok(())
    } else {
        let mut message = text::owned("埋め込み次元が ");
        text::push_decimal(&mut message, EMBEDDING_DIM as u64);
        message.append(" ではありません（");
        text::push_decimal(&mut message, dimension as u64);
        message.append("）。");
        Err(message)
    }
}

/// Refuses a vector of another dimension.
pub fn check_dim<T>(vector: &[T]) -> (r: Result<(), String>)
    ensures
        r is Ok <==> vector@.len() == EMBEDDING_DIM,
        r matches Err(message) ==> message@ == dimension_message(vector@.len()),
{
    checked_dimension(vector.len())
}

/// The vector of a search text, out of what the model gave for its one input: the last vector,
/// which must have the dimension of the index.
pub fn embed_query<T>(output: Result<Vec<Vec<T>>, String>) -> (r: Result<Vec<T>, String>)
    ensures
        match output {
            Err(message) => r == Err::<Vec<T>, String>(message),
            Ok(vectors) => if vectors@.len() == 0 {
                r is Err && r->Err_0@ == "埋め込み結果が空です。"@
            } else if vectors@.last()@.len() != 384 {
                r is Err && r->Err_0@ == dimension_message(vectors@.last()@.len())
            } else {
                r == Ok::<Vec<T>, String>(vectors@.last())
            },
        },
{
    match output {
        Err(message) => Err(message),
        Ok(mut vectors) => match vectors.pop() {
            None => Err(text::owned("埋め込み結果が空です。")),
            Some(vector) => match check_dim(vector.as_slice()) {
                Err(message) => Err(message),
                Ok(()) => Ok(vector),
            },
        },
    }
}

/// The first vector of another dimension.
pub open spec fn first_misfit<T>(vectors: Seq<Vec<T>>, i: int) -> bool {
    &&& 0 <= i < vectors.len()
    &&& vectors[i]@.len() != 384
    &&& forall|j: int| 0 <= j < i ==> (#[trigger] vectors[j])@.len() == 384
}

pub open spec fn all_fit<T>(vectors: Seq<Vec<T>>) -> bool {
    forall|j: int| 0 <= j < vectors.len() ==> (#[trigger] vectors[j])@.len() == 384
}

pub open spec fn count_message(inputs: nat, outputs: nat) -> Seq<char> {
    "埋め込み件数が一致しません（入力 "@ + text::decimal(inputs) + " / 出力 "@ + text::decimal(outputs)
        + "）。"@
}

/// The vectors of `count` texts, out of what the model gave for their inputs: one for each, all of
/// the dimension of the index. Without texts the model is not asked.
pub fn embed_passages<T>(count: usize, output: Result<Vec<Vec<T>>, String>) -> (r: Result<
    Vec<Vec<T>>,
    String,
>)
    ensures
        count == 0 ==> r is Ok && r->Ok_0@.len() == 0,
        count > 0 ==> match output {
            Err(message) => r == Err::<Vec<Vec<T>>, String>(message),
            Ok(vectors) => if vectors@.len() != count {
                r is Err && r->Err_0@ == count_message(count as nat, vectors@.len())
            } else if all_fit(vectors@) {
                r == Ok::<Vec<Vec<T>>, String>(vectors)
            } else {
                exists|i: int| #[trigger]
                    first_misfit(vectors@, i) && r is Err && r->Err_0@ == dimension_message(
                        vectors@[i]@.len(),
                    )
            },
        },
{
    if count == 0 {
        return Ok(Vec::new());
    }
    match output {
        Err(message) => Err(message),
        Ok(vectors) => {
            if vectors.len() != count {
                let mut message = text::owned("埋め込み件数が一致しません（入力 ");
                text::push_decimal(&mut message, count as u64);
                message.append(" / 出力 ");
                text::push_decimal(&mut message, vectors.len() as u64);
                message.append("）。");
                return Err(message);
            }
            for i in 0..vectors.len()
                invariant
                    count > 0,
                    output == Ok::<Vec<Vec<T>>, String>(vectors),
                    vectors@.len() == count,
                    forall|j: int| 0 <= j < i ==> (#[trigger] vectors@[j])@.len() == 384,
            {
                match check_dim(vectors[i].as_slice()) {
                    Err(message) => {
                        assert(first_misfit(vectors@, i as int));
                        return Err(message);
                    },
                    Ok(()) => {},
                }
            }
            Ok(vectors)
        },
    }
}

/// The two kinds of input can never be mistaken for one another.
pub proof fn prefixes_differ(query: Seq<char>, passage: Seq<char>)
    ensures
        "query: "@ + text::trimmed(query) != "passage: "@ + text::trimmed(passage),
{
    reveal_strlit("query: ");
    reveal_strlit("passage: ");
    let a = "query: "@ + text::trimmed(query);
    let b = "passage: "@ + text::trimmed(passage);
    assert(a[0] == 'q');
    assert(b[0] == 'p');
}

/// What is said of vectors tells how many numbers or how many of them there are.
pub proof fn messages_tell_the_numbers(n: nat, inputs: nat, outputs: nat)
    ensures
        dimension_message(n) == "埋め込み次元が "@ + text::decimal(384) + " ではありません（"@
            + text::decimal(n) + "）。"@,
        count_message(inputs, outputs) == "埋め込み件数が一致しません（入力 "@ + text::decimal(inputs)
            + " / 出力 "@ + text::decimal(outputs) + "）。"@,
{
}

} // verus!
