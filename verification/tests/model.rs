use rtools::embedding::{
    check_dim, embed_passages, embed_query, model_cache_root, passage_inputs, query_input,
    with_passage_prefix, with_query_prefix, CacheRoot, EMBEDDING_DIM,
};

fn model(inputs: &[String]) -> Result<Vec<Vec<f32>>, String> {
    Ok(inputs.iter().map(|_| vec![0.01_f32; EMBEDDING_DIM]).collect())
}

#[test]
fn prefixes_query_and_passage() {
    assert_eq!(with_query_prefix("  こんにちは  "), "query: こんにちは");
    assert_eq!(with_passage_prefix("hello"), "passage: hello");
}

#[test]
fn embed_query_rejects_blank() {
    assert!(query_input("   ").is_err());
}

#[test]
fn embed_passages_match_input_len_and_dim() {
    let inputs = passage_inputs(&["a", "b"]);
    let vectors = embed_passages(2, model(&inputs)).unwrap();
    assert_eq!(vectors.len(), 2);
    assert_eq!(vectors[0].len(), EMBEDDING_DIM);
    let none = passage_inputs(&[]);
    assert!(embed_passages(0, model(&none)).unwrap().is_empty());
}

#[test]
fn queries_give_one_vector() {
    assert_eq!(query_input(" q "), Ok("query: q".into()));
    assert_eq!(query_input(""), Err("検索文が空です。".into()));
    assert_eq!(embed_query(model(&["x".into()])).unwrap().len(), EMBEDDING_DIM);
    assert_eq!(
        embed_query::<f32>(Ok(Vec::new())).unwrap_err(),
        "埋め込み結果が空です。"
    );
    assert_eq!(
        embed_query(Ok(vec![vec![0.5_f32; 2]])).unwrap_err(),
        "埋め込み次元が 384 ではありません（2）。"
    );
    assert_eq!(embed_query::<f32>(Err("m".into())).unwrap_err(), "m");
}

#[test]
fn passages_give_as_many_vectors() {
    assert_eq!(
        embed_passages(2, model(&["x".into()])).unwrap_err(),
        "埋め込み件数が一致しません（入力 2 / 出力 1）。"
    );
    let short = vec![vec![0.5_f32; EMBEDDING_DIM], vec![0.5_f32; 1]];
    assert_eq!(
        embed_passages(2, Ok(short)).unwrap_err(),
        "埋め込み次元が 384 ではありません（1）。"
    );
    assert_eq!(embed_passages::<f32>(1, Err("m".into())).unwrap_err(), "m");
    assert!(check_dim(&[0u8; 384]).is_ok());
}

#[test]
fn queries_and_passages_never_meet() {
    assert_ne!(with_query_prefix("a"), with_passage_prefix("a"));
}

#[test]
fn the_model_is_kept_where_the_system_says() {
    assert!(matches!(
        model_cache_root(Some(" l "), Some("x"), Some("h")),
        CacheRoot::Folder(dir) if dir == "l"
    ));
    assert!(matches!(
        model_cache_root(Some(" "), Some(" x"), Some("h")),
        CacheRoot::Folder(dir) if dir == "x"
    ));
    assert!(matches!(
        model_cache_root(None, Some(""), Some(" h")),
        CacheRoot::Home(dir) if dir == " h"
    ));
    assert!(matches!(model_cache_root(None, None, None), CacheRoot::Temporary));
}
