use rtools::binary::Binary64;
use rtools::ingest::IngestReport;
use rtools::replies::{SearchHit, SearchOutcome};
use rtools::session::{
    format_log_line, found_lines, load_opensearch_or_log, search_failure_line,
    search_query_preview, search_text, similarity_label, Action, ConvertState, ExportState,
    IngestState, Poll, Response, SearchKind, Session,
};
use rtools::settings::OpenSearchSettings;

fn wide(x: f64) -> Binary64 {
    Binary64 { bits: x.to_bits() }
}

fn settings() -> OpenSearchSettings {
    OpenSearchSettings {
        url: "http://h:1".into(),
        host: "localhost".into(),
        port: 9200,
        scheme: "https".into(),
        index: "docs".into(),
        username: String::new(),
        password: String::new(),
        api_key: "k".into(),
        insecure_skip_tls_verify: false,
    }
}

fn loaded() -> Result<(String, OpenSearchSettings), String> {
    Ok(("setting.toml".into(), settings()))
}

fn session() -> Session {
    Session::new(loaded()).0
}

fn says(response: Response, lines: &[&str]) {
    assert_eq!(response.lines, lines);
    assert!(!response.repaint);
}

#[test]
fn a_session_begins_idle() {
    let (session, lines) = Session::new(loaded());
    assert_eq!(
        lines,
        vec![
            "rtools を起動しました。",
            "OpenSearch 設定を読み込みました: http://h:1  index=docs  認証=APIキー  (setting.toml)"
        ]
    );
    assert!(session.is_idle());
    assert_eq!(session.busy_hint(), None);
    assert_eq!(session.search_status, "検索結果はここに表示されます。");
    assert_eq!(session.poll_export(), Action::Nothing);
    assert_eq!(session.poll_ingest(), Action::Nothing);
    assert_eq!(session.poll_convert(), Action::Nothing);
    assert_eq!(Session::new(Err("none".into())).1[1], "none");
}

#[test]
fn a_list_is_saved() {
    let mut s = session();
    says(s.start_export(), &["フォルダ選択ダイアログを開きます。"]);
    assert_eq!(s.busy_hint(), Some("ファイル一覧を処理中…"));
    assert_eq!(s.poll_export(), Action::Nothing);
    assert!(!s.begin_frame());
    assert!(s.begin_frame());
    assert_eq!(s.poll_export(), Action::PickSource);
    says(
        s.pick_folder(Some("/d")),
        &["フォルダ: /d", "ファイル一覧を取得しています。"],
    );
    assert_eq!(s.poll_export(), Action::Poll);
    let wait = s.poll_listing(Poll::Pending);
    assert!(wait.repaint && wait.lines.is_empty());
    says(
        s.poll_listing(Poll::Done(Ok(vec!["a".into(), "b".into()]))),
        &["ファイル数: 2", "保存先の選択ダイアログを開きます。"],
    );
    assert_eq!(s.poll_export(), Action::Nothing);
    s.begin_frame();
    assert_eq!(s.poll_export(), Action::PickSave);
    let (response, contents) = s.pick_save(Some("/out.txt"));
    says(response, &["保存しています: /out.txt"]);
    assert_eq!(contents, Some("a\nb".into()));
    assert_eq!(s.poll_export(), Action::Poll);
    says(s.poll_writing(Poll::Done(Ok("/out.txt".into()))), &["保存しました: /out.txt"]);
    assert!(s.is_idle());
}

#[test]
fn a_list_may_fail() {
    let mut s = session();
    s.start_export();
    says(s.pick_folder(None), &["フォルダ選択をキャンセルしました。"]);
    assert!(matches!(s.export, ExportState::Idle));
    s.pick_folder(Some("/d"));
    says(
        s.poll_listing(Poll::Done(Err("e".into()))),
        &["ファイル一覧の取得に失敗しました: e"],
    );
    s.pick_folder(Some("/d"));
    says(
        s.poll_listing(Poll::Lost),
        &["ファイル一覧の取得に失敗しました: ワーカーが終了しました。"],
    );
    s.pick_folder(Some("/d"));
    says(s.poll_listing(Poll::Missing), &[]);
    assert!(s.is_idle());
    let (response, contents) = s.pick_save(Some("/x"));
    says(response, &[]);
    assert_eq!(contents, None);
    s.pick_folder(Some("/d"));
    s.poll_listing(Poll::Done(Ok(Vec::new())));
    says(s.pick_save(None).0, &["保存をキャンセルしました。"]);
    assert!(s.is_idle());
    says(s.poll_writing(Poll::Done(Err("full".into()))), &["保存に失敗しました: full"]);
    says(s.poll_writing(Poll::Missing), &[]);
    says(
        s.poll_writing(Poll::Lost),
        &["保存に失敗しました: ワーカーが終了しました。"],
    );
}

#[test]
fn files_go_into_the_index() {
    let mut s = session();
    says(s.start_ingest(), &["PDF フォルダの選択ダイアログを開きます。"]);
    assert_eq!(s.busy_hint(), Some("PDFを登録中…"));
    s.begin_frame();
    assert_eq!(s.poll_ingest(), Action::PickSource);
    let (response, found) = s.pick_ingest_folder(Some(("/d", loaded())));
    says(
        response,
        &["PDF フォルダ: /d", "接続先: http://h:1  index=docs  (setting.toml)"],
    );
    assert!(found.is_some());
    assert_eq!(s.ingest, IngestState::Running);
    assert!(s.poll_ingest_worker(Poll::Pending).repaint);
    let report = IngestReport {
        files_ok: 3,
        files_fail: 10,
        chunks: 7,
        errors: (0..10).map(|i| format!("e{i}")).collect(),
    };
    let response = s.poll_ingest_worker(Poll::Done(Ok(report)));
    assert_eq!(
        response.lines[0],
        "登録が完了しました: 成功 3 ファイル / 失敗 10 / 7 チャンク"
    );
    assert_eq!(response.lines[1], "  警告: e0");
    assert_eq!(response.lines[8], "  警告: e7");
    assert_eq!(response.lines[9], "  …ほか 2 件の警告");
    assert_eq!(response.lines.len(), 10);
    assert!(s.is_idle());
}

#[test]
fn indexing_may_fail() {
    let mut s = session();
    says(
        s.pick_ingest_folder(None).0,
        &["PDF フォルダの選択をキャンセルしました。"],
    );
    let (response, found) = s.pick_ingest_folder(Some(("/d", Err("no file".into()))));
    says(response, &["PDF フォルダ: /d", "no file"]);
    assert!(found.is_none());
    assert!(s.is_idle());
    s.ingest = IngestState::Running;
    says(s.poll_ingest_worker(Poll::Done(Err("e".into()))), &["登録に失敗しました: e"]);
    s.ingest = IngestState::Running;
    says(
        s.poll_ingest_worker(Poll::Lost),
        &["登録に失敗しました: ワーカーが終了しました。"],
    );
    s.ingest = IngestState::Running;
    says(s.poll_ingest_worker(Poll::Missing), &[]);
    assert!(s.is_idle());
    let few = IngestReport { files_ok: 1, files_fail: 0, chunks: 1, errors: vec!["w".into()] };
    says(
        s.poll_ingest_worker(Poll::Done(Ok(few))),
        &["登録が完了しました: 成功 1 ファイル / 失敗 0 / 1 チャンク", "  警告: w"],
    );
}

#[test]
fn a_file_becomes_markdown() {
    let mut s = session();
    says(s.start_convert(), &["PDF の選択ダイアログを開きます。"]);
    assert_eq!(s.busy_hint(), Some("PDFを変換中…"));
    s.begin_frame();
    assert_eq!(s.poll_convert(), Action::PickSource);
    says(
        s.pick_pdf(Some(("/a.pdf", "a.md".into()))),
        &["PDF: /a.pdf", "Markdown に変換しています。"],
    );
    assert_eq!(s.poll_convert(), Action::Poll);
    assert!(s.poll_converting(Poll::Pending).repaint);
    says(
        s.poll_converting(Poll::Done(Ok("# a".into()))),
        &["保存先の選択ダイアログを開きます。"],
    );
    assert_eq!(s.offered_name(), Some("a.md"));
    s.begin_frame();
    assert_eq!(s.poll_convert(), Action::PickSave);
    let (response, contents) = s.pick_convert_save(Some("/a.md"));
    says(response, &["保存しています: /a.md"]);
    assert_eq!(contents, Some("# a".into()));
    assert!(s.poll_convert_writing(Poll::Pending).repaint);
    says(s.poll_convert_writing(Poll::Done(Ok("/a.md".into()))), &["保存しました: /a.md"]);
    assert!(s.is_idle());
}

#[test]
fn conversion_may_fail() {
    let mut s = session();
    says(s.pick_pdf(None), &["PDF の選択をキャンセルしました。"]);
    s.pick_pdf(Some(("/a.pdf", "a.md".into())));
    says(
        s.poll_converting(Poll::Done(Err("e".into()))),
        &["PDF の変換に失敗しました: e"],
    );
    assert!(s.is_idle());
    says(s.poll_converting(Poll::Lost), &[]);
    s.pick_pdf(Some(("/a.pdf", "a.md".into())));
    says(
        s.poll_converting(Poll::Lost),
        &["PDF の変換に失敗しました: ワーカーが終了しました。"],
    );
    assert_eq!(s.offered_name(), None);
    s.convert = ConvertState::PickSave { markdown: "m".into(), file_name: "f".into() };
    says(s.pick_convert_save(None).0, &["保存をキャンセルしました。"]);
    assert!(s.is_idle());
    says(s.pick_convert_save(Some("/x")).0, &[]);
    says(s.poll_convert_writing(Poll::Lost), &[]);
    s.convert = ConvertState::Writing;
    says(s.poll_convert_writing(Poll::Done(Err("full".into()))), &["保存に失敗しました: full"]);
    assert!(s.is_idle());
}

#[test]
fn a_search_shows_its_hits() {
    let mut s = session();
    assert!(s.can_search(" a "));
    assert!(!s.can_search(" "));
    let (response, found) = s.start_search(SearchKind::Sentence, "意味", loaded());
    says(
        response,
        &[
            "接続先: http://h:1  index=docs  (setting.toml)",
            "文章検索（kNN）しています: 意味",
            "埋め込みモデルを準備しています（初回は約 120MB のダウンロードがあります）。",
        ],
    );
    assert!(found.is_some());
    assert!(!s.can_search("a"));
    assert_eq!(s.busy_hint(), Some("検索中…"));
    assert_eq!(s.search_status, "検索中…");
    assert!(s.poll_search(Poll::Pending).repaint);
    let outcome = SearchOutcome {
        total: 12,
        max_score: wide(2.0),
        hits: vec![SearchHit {
            score: wide(2.0),
            title: "t".into(),
            path: "p".into(),
            page: 1,
            snippet: "s".into(),
        }],
    };
    says(
        s.poll_search(Poll::Done(Ok(outcome))),
        &["文章検索（kNN）: 12 件ヒット（表示 1 件）"],
    );
    assert_eq!(s.search_hits.len(), 1);
    assert_eq!(s.search_max_score, wide(2.0));
    assert!(s.is_idle());
}

#[test]
fn a_search_may_fail() {
    let mut s = session();
    let (response, found) = s.start_search(SearchKind::Keyword, "a", Err("no file".into()));
    says(response, &["no file"]);
    assert!(found.is_none());
    assert!(s.is_idle());
    let (response, _) = s.start_search(SearchKind::Keyword, "a", loaded());
    assert_eq!(response.lines[1], "キーワード検索（BM25）しています: a");
    assert_eq!(response.lines.len(), 2);
    says(s.poll_search(Poll::Done(Err("e".into()))), &["検索に失敗しました: e"]);
    assert_eq!(s.search_status, "検索に失敗しました: e");
    assert!(s.search_hits.is_empty());
    s.searching = true;
    says(
        s.poll_search(Poll::Lost),
        &["検索に失敗しました: ワーカーが終了しました。"],
    );
    says(s.poll_search(Poll::Missing), &[]);
    assert_eq!(search_failure_line("e"), "検索に失敗しました: e");
    assert_eq!(
        search_text(SearchKind::Keyword, " "),
        Err("検索キーワードを入力してください。".into())
    );
    assert_eq!(
        search_text(SearchKind::Sentence, ""),
        Err("検索する文章を入力してください。".into())
    );
    assert_eq!(search_text(SearchKind::Sentence, " x "), Ok("x".into()));
}

#[test]
fn similarity_is_a_percentage() {
    assert_eq!(similarity_label(wide(1.0), wide(0.0)), "類似度 —");
    assert_eq!(similarity_label(wide(1.0), wide(-1.0)), "類似度 —");
    assert_eq!(similarity_label(wide(0.7), wide(0.7)), "類似度 100%");
    assert_eq!(similarity_label(wide(1.0), wide(3.0)), "類似度 33%");
    assert_eq!(similarity_label(wide(-1.0), wide(2.0)), "類似度 -50%");
    assert_eq!(similarity_label(wide(f64::NAN), wide(2.0)), "類似度 0%");
    assert_eq!(similarity_label(wide(1.0), wide(f64::NAN)), "類似度 0%");
    assert_eq!(similarity_label(wide(1.0e300), wide(1.0)), "類似度 2147483647%");
}

#[test]
fn previews_and_log_lines() {
    assert_eq!(search_query_preview(&"あ".repeat(80)), "あ".repeat(80));
    assert_eq!(search_query_preview(&"あ".repeat(81)), format!("{}…", "あ".repeat(80)));
    assert_eq!(
        format_log_line("[2026-01-01 00:00:00]", "m"),
        "[2026-01-01 00:00:00] m\n"
    );
    let (line, found) = load_opensearch_or_log(Err("e".into()));
    assert_eq!(line, "e");
    assert!(found.is_none());
}

#[test]
fn found_files_are_listed() {
    assert_eq!(
        found_lines(&[]).unwrap_err(),
        "フォルダ内に PDF ファイルが見つかりませんでした。"
    );
    let paths: Vec<String> = (0..23).map(|i| format!("/{i}.pdf")).collect();
    let lines = found_lines(&paths).unwrap();
    assert_eq!(lines[0], "PDF ファイル数: 23");
    assert_eq!(lines[1], "  - /0.pdf");
    assert_eq!(lines[20], "  - /19.pdf");
    assert_eq!(lines[21], "  …ほか 3 件");
    assert_eq!(lines.len(), 22);
    assert_eq!(found_lines(&paths[..20]).unwrap().len(), 21);
}
