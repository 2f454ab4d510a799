use rtools::binary::Binary64;
use rtools::embedding::EMBEDDING_DIM;
use rtools::opensearch::{
    build_bulk_body, bulk_index, document_id, ingest_files, ingest_pdfs, knn_search,
    knn_search_body, new_index_body, parse_bulk_indexed, parse_search_response, post_search,
    read_bulk_response, read_search_response, search, search_knn_vector, snippet_segments, Reply,
    HIGHLIGHT_POST, HIGHLIGHT_PRE, SEARCH_SIZE,
};
use rtools::ingest::{
    after_reading, count_taken, next_batch, progress_line, reading_line, report_on_files,
    report_without_chunks, sending_line, IngestStep,
};
use rtools::pdf::{chunks_from_text, PdfChunk};
use rtools::replies::{
    after_field_added, after_index_check, after_index_creation, send_json, settings_skipped_line,
    IndexStep,
};
use rtools::requests::{
    bulk_url, index_url, knn_settings_body, mapping_url, search_url, settings_url,
    vector_field_body,
};
use rtools::settings::OpenSearchSettings;
use serde_json::Value;

fn wide(x: f64) -> Binary64 {
    Binary64 { bits: x.to_bits() }
}

fn sample_chunk() -> PdfChunk {
    PdfChunk {
        path: "/tmp/a.pdf".into(),
        file_name: "a.pdf".into(),
        title: "a".into(),
        page: 1,
        chunk: 1,
        text: "hello world".into(),
    }
}

fn parse(text: &str) -> Value {
    serde_json::from_str(text).unwrap()
}

fn reply(success: bool, status: &str, body: &str) -> Result<Reply, String> {
    Ok(Reply { success, status: status.into(), body: Ok(body.into()) })
}

fn unreadable() -> Result<Reply, String> {
    Ok(Reply { success: true, status: "200 OK".into(), body: Err("cut".into()) })
}

#[test]
fn bulk_body_is_ndjson() {
    let body = build_bulk_body(
        "pdf_docs",
        &[sample_chunk()],
        "2026-01-01T00:00:00Z",
        &[Value::from(vec![0.1_f32, 0.2])],
    );
    let lines: Vec<_> = body.lines().collect();
    assert_eq!(lines.len(), 2);
    assert!(lines[0].contains("\"index\""));
    assert!(lines[1].contains("hello world"));
    assert!(lines[1].contains("\"embedding\""));
    assert!(body.ends_with('\n'));
}

#[test]
fn index_body_includes_knn_vector() {
    let body = new_index_body();
    assert_eq!(body["settings"]["knn"], true);
    assert_eq!(
        body["mappings"]["properties"]["embedding"]["type"],
        "knn_vector"
    );
    assert_eq!(
        body["mappings"]["properties"]["embedding"]["dimension"],
        EMBEDDING_DIM
    );
}

#[test]
fn knn_search_body_uses_vector() {
    let body = knn_search_body(vec![Value::from(0.5_f32), Value::from(0.25_f32)]);
    assert_eq!(body["size"], SEARCH_SIZE);
    assert_eq!(body["query"]["knn"]["embedding"]["k"], SEARCH_SIZE);
    assert_eq!(
        body["query"]["knn"]["embedding"]["vector"][0].as_f64(),
        Some(0.5)
    );
    assert_eq!(
        body["query"]["knn"]["embedding"]["vector"][1].as_f64(),
        Some(0.25)
    );
}

#[test]
fn document_ids_are_stable() {
    let a = document_id(&sample_chunk());
    let mut other = sample_chunk();
    other.page = 2;
    let b = document_id(&other);
    assert_ne!(a, b);
    assert_eq!(a, document_id(&sample_chunk()));
    assert_eq!(a.len(), 64);
}

#[test]
fn parses_search_hits() {
    let json = r#"{
        "hits": {
            "total": { "value": 2, "relation": "eq" },
            "max_score": 1.5,
            "hits": [
                {
                    "_score": 1.5,
                    "_source": {
                        "title": "仕様書",
                        "path": "C:\\docs\\a.pdf",
                        "page": 3,
                        "text": "長い本文"
                    },
                    "highlight": { "text": ["<mark>キーワード</mark>を含む"] }
                }
            ]
        }
    }"#;
    let out = parse_search_response(json).unwrap();
    assert_eq!(out.total, 2);
    assert_eq!(out.max_score, wide(1.5));
    assert_eq!(out.hits.len(), 1);
    assert_eq!(out.hits[0].title, "仕様書");
    assert_eq!(out.hits[0].page, 3);
    assert!(out.hits[0].snippet.contains("キーワード"));
    assert_eq!(
        snippet_segments(&out.hits[0].snippet),
        vec![(true, "キーワード"), (false, "を含む")]
    );
}

#[test]
fn splits_highlight_markers() {
    let snippet = format!("{HIGHLIGHT_PRE}hello{HIGHLIGHT_POST} world");
    assert_eq!(
        snippet_segments(&snippet),
        vec![(true, "hello"), (false, " world")]
    );
    assert_eq!(snippet_segments("plain"), vec![(false, "plain")]);
}

#[test]
fn parse_total_as_number() {
    let json = r#"{ "hits": { "total": 4, "hits": [] } }"#;
    let out = parse_search_response(json).unwrap();
    assert_eq!(out.total, 4);
    assert_eq!(out.max_score, wide(0.0));
    assert!(out.hits.is_empty());
}

#[test]
fn max_score_falls_back_to_hit_scores() {
    let json = r#"{
        "hits": {
            "total": 2,
            "hits": [
                { "_score": 0.8, "_source": { "title": "a", "page": 1, "text": "x" } },
                { "_score": 1.2, "_source": { "title": "b", "page": 1, "text": "y" } }
            ]
        }
    }"#;
    let out = parse_search_response(json).unwrap();
    assert_eq!(out.max_score, wide(1.2));
}

#[test]
fn chunks_from_text_used_in_id_path() {
    let chunks = chunks_from_text("n.pdf", "abc");
    assert_eq!(chunks.len(), 1);
    assert!(!document_id(&chunks[0]).is_empty());
}

#[test]
fn ids_are_digests_of_path_page_and_number() {
    let mut chunk = sample_chunk();
    chunk.path = "é".into();
    chunk.page = 0x0403_0201;
    chunk.chunk = 5;
    let key: [u8; 11] = [0xc3, 0xa9, 0, 1, 2, 3, 4, 5, 0, 0, 0];
    let expected = format!("{:x}", <sha2::Sha256 as sha2::Digest>::digest(key));
    assert_eq!(document_id(&chunk), expected);
    let mut same = chunk.clone();
    same.text = "other".into();
    same.title = "other".into();
    assert_eq!(document_id(&same), expected);
}

#[test]
fn snippets_keep_their_parts() {
    let parts = vec![(false, "a <mar"), (true, "b"), (true, "c"), (false, "d")];
    let snippet = "a <mar<mark>b</mark><mark>c</mark>d";
    assert_eq!(snippet_segments(snippet), parts);
    assert_eq!(snippet_segments("<mark>open"), vec![(true, "open")]);
    assert_eq!(snippet_segments("a</mark>"), vec![(false, "a</mark>")]);
    assert!(snippet_segments("").is_empty());
    assert!(snippet_segments("<mark></mark>").is_empty());
}

#[test]
fn hits_may_lack_anything() {
    let out = parse_search_response(
        r#"{"hits":{"total":{"value":-1},"max_score":null,"hits":[{},
            {"_score":3,"_source":{"file_name":"f.pdf","page":4294967297,"text":"t"},
             "highlight":{"text":[1,"x","y"]}},
            {"_score":-2,"_source":{"title":5,"page":"9"},"highlight":{"text":[""]}}]}}"#,
    )
    .unwrap();
    assert_eq!(out.total, 0);
    assert_eq!(out.max_score, wide(3.0));
    assert_eq!(out.hits[0].title, "(無題)");
    assert_eq!(out.hits[0].page, 1);
    assert_eq!(out.hits[0].path, "");
    assert_eq!(out.hits[0].snippet, "");
    assert_eq!(out.hits[0].score, wide(0.0));
    assert_eq!(out.hits[1].title, "f.pdf");
    assert_eq!(out.hits[1].page, 1);
    assert_eq!(out.hits[1].snippet, "x … y");
    assert_eq!(out.hits[2].score, wide(-2.0));
    assert_eq!(out.hits[2].title, "(無題)");
}

#[test]
fn long_texts_are_shortened() {
    let text = "あ".repeat(300);
    let value = parse(&format!(
        r#"{{"hits":{{"hits":[{{"_source":{{"text":"{text}"}}}}]}}}}"#
    ));
    let out = read_search_response(&value).unwrap();
    assert_eq!(out.hits[0].snippet, format!("{}…", "あ".repeat(220)));
}

#[test]
fn answers_without_hits_are_errors() {
    assert_eq!(
        parse_search_response("{}").unwrap_err(),
        "検索結果に hits がありません。"
    );
    assert!(parse_search_response("nonsense")
        .unwrap_err()
        .starts_with("検索結果の JSON 解析に失敗しました: expected"));
}

#[test]
fn bulk_answers_count_what_was_taken() {
    assert_eq!(parse_bulk_indexed(r#"{"errors":false,"items":[{},{}]}"#, 7), Ok(2));
    assert_eq!(parse_bulk_indexed("{}", 7), Ok(7));
    assert_eq!(
        parse_bulk_indexed(
            r#"{"errors":true,"items":[{"index":{"status":201}},{"index":{"status":400,
                "error":{"reason":"bad"}}},{"index":{"status":299}},{"index":{"status":300}}]}"#,
            7
        ),
        Ok(2)
    );
    assert_eq!(
        parse_bulk_indexed(
            r#"{"errors":true,"items":[{},{"index":{"status":400,"error":{"reason":"bad"}}},
                {"index":{"error":{"reason":"worse"}}}]}"#,
            7
        ),
        Err("一括登録エラー: bad".into())
    );
    assert_eq!(
        parse_bulk_indexed(r#"{"errors":true,"items":[{"index":{"error":{"x":1.5}}}]}"#, 7),
        Err(r#"一括登録エラー: {"x":1.5}"#.into())
    );
    assert_eq!(
        read_bulk_response(&parse(r#"{"errors":true,"items":[]}"#), 7),
        Err("一括登録で一部エラーが発生しました".into())
    );
    assert_eq!(
        read_bulk_response(&parse(r#"{"errors":true}"#), 7),
        Err("一括登録で一部エラーが発生しました".into())
    );
    assert!(parse_bulk_indexed("[", 7)
        .unwrap_err()
        .starts_with("一括登録の JSON 解析に失敗しました: "));
}

#[test]
fn refused_searches_say_why() {
    let long = "x".repeat(500);
    assert_eq!(
        post_search(reply(false, "500 Internal Server Error", &long)).unwrap_err(),
        format!("検索が拒否されました (500 Internal Server Error): {}…", "x".repeat(400))
    );
    assert_eq!(
        post_search(unreadable()).unwrap_err(),
        "検索レスポンスを読めません: cut"
    );
    assert_eq!(
        post_search(Err("no route".into())).unwrap_err(),
        "OpenSearch 検索に失敗しました: no route"
    );
    assert_eq!(
        post_search(reply(true, "200 OK", r#"{"hits":{"total":1}}"#)).unwrap().total,
        1
    );
}

#[test]
fn refused_batches_say_why() {
    assert_eq!(bulk_index(reply(true, "200 OK", "{}"), 3), Ok(3));
    assert_eq!(
        bulk_index(reply(false, "413", "big"), 3),
        Err("一括登録が拒否されました (413): big".into())
    );
    assert_eq!(
        bulk_index(unreadable(), 3),
        Err("一括登録の応答を読めません: cut".into())
    );
    assert_eq!(
        bulk_index(Err("gone".into()), 3),
        Err("一括登録に失敗しました: gone".into())
    );
}

#[test]
fn an_index_is_made_once() {
    assert_eq!(after_index_check(Ok(true)), Ok(IndexStep::Extend));
    assert_eq!(after_index_check(Ok(false)), Ok(IndexStep::Create));
    assert_eq!(
        after_index_check(Err("e".into())),
        Err("インデックス確認に失敗しました: e".into())
    );
    assert_eq!(after_index_creation("i", reply(true, "200", "")), Ok(IndexStep::Ready));
    assert_eq!(
        after_index_creation(
            "i",
            reply(false, "400", r#"{"type":"resource_already_exists_exception"}"#)
        ),
        Ok(IndexStep::Extend)
    );
    assert_eq!(
        after_index_creation("i", reply(false, "400", "no")),
        Err("インデックス 'i' を作成できません (400): no".into())
    );
    assert_eq!(
        after_index_creation("i", Err("e".into())),
        Err("インデックス作成に失敗しました: e".into())
    );
}

#[test]
fn changes_to_an_index_may_fail() {
    assert_eq!(send_json(reply(true, "200", "")), Ok(()));
    assert_eq!(send_json(reply(false, "403", "no")), Err("403: no".into()));
    assert_eq!(
        send_json(Err("e".into())),
        Err("OpenSearch への PUT に失敗しました: e".into())
    );
    assert_eq!(
        settings_skipped_line("e"),
        "既存インデックスの kNN 設定更新をスキップしました: e"
    );
    assert_eq!(after_field_added(Ok(())), Ok(()));
    assert!(after_field_added(Err("why".into())).unwrap_err().ends_with("ください: why"));
}

#[test]
fn searches_need_words() {
    assert_eq!(search("  ").unwrap_err(), "検索キーワードが空です。");
    let body = search(" 仕様 ").unwrap();
    assert_eq!(body["query"]["multi_match"]["query"], "仕様");
    assert_eq!(body["query"]["multi_match"]["fields"][0], "text^3");
    assert_eq!(body["query"]["multi_match"]["fields"][1], "title^2");
    assert_eq!(body["query"]["multi_match"]["fields"][2], "file_name");
    assert_eq!(body["query"]["multi_match"]["type"], "best_fields");
    assert_eq!(body["highlight"]["pre_tags"][0], HIGHLIGHT_PRE);
    assert_eq!(body["highlight"]["post_tags"][0], HIGHLIGHT_POST);
    assert_eq!(body["highlight"]["fields"]["text"]["fragment_size"], 160);
    assert_eq!(body["highlight"]["fields"]["text"]["number_of_fragments"], 2);
    assert_eq!(body["track_total_hits"], true);
    assert_eq!(body["size"], 10);
    assert_eq!(knn_search(" a "), Ok("a".into()));
    assert_eq!(knn_search("\n"), Err("検索文が空です。".into()));
}

#[test]
fn vectors_need_the_right_dimension() {
    let vector = vec![Value::from(0.5_f32); EMBEDDING_DIM];
    let body = search_knn_vector(vector.clone()).unwrap();
    let sent = body["query"]["knn"]["embedding"]["vector"].as_array().unwrap();
    assert_eq!(sent, &vector);
    assert_eq!(
        search_knn_vector(vector[..3].to_vec()).unwrap_err(),
        "埋め込み次元が 384 ではありません（3）。"
    );
}

#[test]
fn existing_indexes_are_extended() {
    assert_eq!(knn_settings_body()["index"]["knn"], true);
    let body = vector_field_body();
    assert_eq!(body["properties"]["embedding"], new_index_body()["mappings"]["properties"]["embedding"]);
    assert_eq!(body["properties"]["embedding"]["method"]["name"], "hnsw");
    assert_eq!(body["properties"]["embedding"]["method"]["parameters"]["m"], 16);
}

#[test]
fn bulk_lines_read_back() {
    let mut second = sample_chunk();
    second.chunk = 2;
    second.text = "two\nlines \"quoted\"".into();
    let body = build_bulk_body("i", &[sample_chunk(), second.clone()], "now", &[Value::Null]);
    let lines: Vec<Value> = body.lines().map(parse).collect();
    assert_eq!(lines.len(), 4);
    assert_eq!(lines[0]["index"]["_index"], "i");
    assert_eq!(lines[0]["index"]["_id"], document_id(&sample_chunk()));
    assert_eq!(lines[1]["embedding"], Value::Null);
    assert!(lines[1].get("embedding").is_some());
    assert_eq!(lines[2]["index"]["_id"], document_id(&second));
    assert_eq!(lines[3]["text"], "two\nlines \"quoted\"");
    assert_eq!(lines[3]["page"], 1);
    assert_eq!(lines[3]["chunk"], 2);
    assert_eq!(lines[3]["ingested_at"], "now");
    assert!(lines[3].get("embedding").is_none());
    assert_eq!(build_bulk_body("i", &[], "now", &[]), "");
}

#[test]
fn addresses_begin_with_the_base() {
    let settings = OpenSearchSettings {
        url: "http://h:1/".into(),
        host: "localhost".into(),
        port: 9200,
        scheme: "https".into(),
        index: " docs ".into(),
        username: String::new(),
        password: String::new(),
        api_key: String::new(),
        insecure_skip_tls_verify: false,
    };
    assert_eq!(index_url(&settings), "http://h:1/docs");
    assert_eq!(search_url(&settings), "http://h:1/docs/_search");
    assert_eq!(settings_url(&settings), "http://h:1/docs/_settings");
    assert_eq!(mapping_url(&settings), "http://h:1/docs/_mapping");
    assert_eq!(bulk_url(&settings), "http://h:1/_bulk");
}

#[test]
fn files_are_counted() {
    let read = ingest_files(vec![
        Ok(vec![sample_chunk()]),
        Err("one".into()),
        Ok(vec![sample_chunk(), sample_chunk()]),
        Err("two".into()),
    ]);
    assert_eq!((read.files_ok, read.files_fail), (2, 2));
    assert_eq!(read.errors, vec!["one", "two"]);
    assert_eq!(read.chunks.len(), 3);
    assert_eq!(
        sending_line(&read),
        "2 件の PDF から 3 チャンクを OpenSearch に登録します。"
    );
    let sent = ingest_pdfs(vec![Ok(2), Err("three".into())]);
    let report = report_on_files(read.files_ok, read.files_fail, read.errors.clone(), sent).unwrap();
    assert_eq!((report.files_ok, report.files_fail, report.chunks), (2, 2, 2));
    assert_eq!(report.errors, vec!["one", "two", "three"]);
    assert_eq!(
        report_on_files(1, 0, Vec::new(), Err("e".into())).unwrap_err(),
        "e"
    );
    match after_reading(read) {
        IngestStep::Send(read) => assert!(!read.chunks.is_empty()),
        other => panic!("{other:?}"),
    }
    match after_reading(ingest_files(vec![Err("x".into())])) {
        IngestStep::Report(report) => assert_eq!((report.files_fail, report.chunks), (1, 0)),
        other => panic!("{other:?}"),
    }
    let none = report_without_chunks(ingest_files(vec![Err("x".into())]));
    assert_eq!((none.files_ok, none.files_fail, none.chunks), (0, 1, 0));
    assert_eq!(none.errors, vec!["x"]);
}

#[test]
fn batches_cover_all_chunks() {
    let mut start = 0;
    let mut sizes = Vec::new();
    while let Some(end) = next_batch(start, 200) {
        sizes.push(end - start);
        start = end;
    }
    assert_eq!(sizes, vec![80, 80, 40]);
    assert_eq!(next_batch(0, 0), None);
    assert_eq!(next_batch(0, 80), Some(80));
}

#[test]
fn sending_fails_only_where_nothing_is_taken() {
    assert_eq!(
        ingest_pdfs(vec![Err("a".into()), Ok(0), Err("b".into())]).unwrap_err(),
        "a / b"
    );
    let empty = ingest_pdfs(Vec::new()).unwrap();
    assert_eq!((empty.files_ok, empty.files_fail, empty.chunks), (0, 0, 0));
    assert!(empty.errors.is_empty());
    assert_eq!(count_taken(&[Ok(3), Err("e".into()), Ok(4)]), Some(7));
    assert_eq!(count_taken(&[Ok(usize::MAX), Ok(1)]), None);
}

#[test]
fn progress_is_logged() {
    assert_eq!(progress_line(80, 200), "登録進捗: 80/200 チャンク");
    assert_eq!(
        reading_line(0, 12, "/a.pdf"),
        "PDF を解析しています (1/12): /a.pdf"
    );
}
