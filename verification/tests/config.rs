use rtools::settings::{
    find_setting_file, load_settings, load_settings_from, Authorization, FileContents,
    OpenSearchSettings, SettingsEntries,
};

fn text_entry(section: &toml::Table, names: &[&str]) -> Option<String> {
    names
        .iter()
        .find_map(|name| section.get(*name))
        .map(|value| value.as_str().unwrap().to_string())
}

fn entries(raw: &str) -> SettingsEntries {
    let file: toml::Table = toml::from_str(raw).unwrap();
    let section = file["opensearch"].as_table().unwrap();
    SettingsEntries {
        url: text_entry(section, &["url", "base_url", "endpoint"]),
        host: text_entry(section, &["host"]),
        port: section.get("port").map(|value| value.as_integer().unwrap() as u16),
        scheme: text_entry(section, &["scheme"]),
        index: text_entry(section, &["index"]),
        username: text_entry(section, &["username"]),
        password: text_entry(section, &["password"]),
        api_key: text_entry(section, &["api_key"]),
        insecure_skip_tls_verify: ["insecure_skip_tls_verify", "skip_tls_verify", "tls_insecure"]
            .iter()
            .find_map(|name| section.get(*name))
            .map(|value| value.as_bool().unwrap()),
    }
}

fn settings(raw: &str) -> OpenSearchSettings {
    load_settings_from("setting.toml", FileContents::Entries(entries(raw))).unwrap()
}

#[test]
fn parses_url_and_aliases() {
    let opensearch = settings(
        r#"
        [opensearch]
        url = "https://opensearch.example:9200/"
        index = "papers"
        username = "admin"
        password = "secret"
        skip_tls_verify = true
    "#,
    );
    assert_eq!(opensearch.base_url(), "https://opensearch.example:9200");
    assert_eq!(opensearch.index(), "papers");
    assert!(opensearch.insecure_skip_tls_verify);
    assert_eq!(opensearch.auth_label(), "ユーザー名/パスワード");
}

#[test]
fn builds_url_from_host_port() {
    let opensearch = settings(
        r#"
        [opensearch]
        host = "127.0.0.1"
        port = 9201
        scheme = "http"
    "#,
    );
    assert_eq!(opensearch.base_url(), "http://127.0.0.1:9201");
    assert_eq!(opensearch.index(), "pdf_docs");
    assert_eq!(opensearch.auth_label(), "なし");
}

#[test]
fn api_key_auth_label() {
    let opensearch = settings(
        r#"
        [opensearch]
        api_key = "abcd"
    "#,
    );
    assert_eq!(opensearch.auth_label(), "APIキー");
}

#[test]
fn everything_has_a_default() {
    let opensearch = settings("[opensearch]\n");
    assert_eq!(opensearch.base_url(), "https://localhost:9200");
    assert_eq!(opensearch.index(), "pdf_docs");
    assert!(!opensearch.insecure_skip_tls_verify);
    assert!(matches!(opensearch.authorization(), Authorization::Anonymous));
}

#[test]
fn blank_entries_are_passed_over() {
    let opensearch = settings(
        "[opensearch]\nurl = \" // \"\nscheme = \" \"\nhost = \" h \"\nindex = \" \"\n",
    );
    assert_eq!(opensearch.base_url(), "https://h:9200");
    assert_eq!(opensearch.index(), "pdf_docs");
}

#[test]
fn a_key_goes_before_a_name() {
    let both = settings("[opensearch]\napi_key = \" k \"\nusername = \"u\"\npassword = \"p\"\n");
    match both.authorization() {
        Authorization::ApiKey(header) => assert_eq!(header, "ApiKey k"),
        other => panic!("{other:?}"),
    }
    let name = settings("[opensearch]\nusername = \" u \"\npassword = \" p \"\n");
    match name.authorization() {
        Authorization::Basic { username, password } => {
            assert_eq!(username, "u");
            assert_eq!(password, " p ");
        }
        other => panic!("{other:?}"),
    }
}

#[test]
fn given_urls_lose_their_slashes() {
    let opensearch = settings("[opensearch]\nurl = \" http://x:1/// \"\nhost = \"y\"\n");
    assert_eq!(opensearch.base_url(), "http://x:1");
}

#[test]
fn a_given_url_goes_first() {
    let one = settings("[opensearch]\nurl = \"http://x:1\"\n");
    let other = settings("[opensearch]\nurl = \"http://x:1\"\nhost = \"y\"\nport = 7\n");
    assert_eq!(one.base_url(), other.base_url());
}

#[test]
fn broken_files_are_errors() {
    assert_eq!(
        load_settings_from("p", FileContents::Unreadable("gone".into())).unwrap_err(),
        "setting.toml を読めません (p): gone"
    );
    assert_eq!(
        load_settings_from("p", FileContents::Malformed("bad".into())).unwrap_err(),
        "setting.toml の解析に失敗しました (p): bad"
    );
    assert!(load_settings(None)
        .unwrap_err()
        .starts_with("setting.toml が見つかりません。"));
    let (path, found) =
        load_settings(Some(("q".into(), FileContents::Entries(entries("[opensearch]\n"))))).unwrap();
    assert_eq!(path, "q");
    assert_eq!(found.port, 9200);
}

#[test]
fn the_file_beside_the_program_goes_first() {
    let program = || Some(("exe".to_string(), true));
    let directory = || Some(("cwd".to_string(), true));
    assert_eq!(find_setting_file(program(), directory()), Some("exe".into()));
    assert_eq!(
        find_setting_file(Some(("exe".into(), false)), directory()),
        Some("cwd".into())
    );
    assert_eq!(find_setting_file(None, Some(("cwd".into(), false))), None);
}
