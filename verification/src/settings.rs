//! The connection settings of the search service.
use crate::text;
use vstd::prelude::*;
use vstd::string::StringExecFns;

verus! {

/// The connection settings, as the section `[opensearch]` of `setting.toml` gives them.
#[derive(Debug, Clone)]
pub struct OpenSearchSettings {
    /// The URL to connect to; where it is given it goes before `scheme`, `host` and `port`.
    pub url: String,
    pub host: String,
    pub port: u16,
    pub scheme: String,
    pub index: String,
    pub username: String,
    pub password: String,
    /// Where it is given it goes before the user name and the password.
    pub api_key: String,
    /// Skips the check of the server's certificate.
    pub insecure_skip_tls_verify: bool,
}

/// The entries of the section, as far as the file holds them.
#[derive(Debug, Clone)]
pub struct SettingsEntries {
    pub url: Option<String>,
    pub host: Option<String>,
    pub port: Option<u16>,
    pub scheme: Option<String>,
    pub index: Option<String>,
    pub username: Option<String>,
    pub password: Option<String>,
    pub api_key: Option<String>,
    pub insecure_skip_tls_verify: Option<bool>,
}

/// What became of reading a settings file.
#[derive(Debug, Clone)]
pub enum FileContents {
    /// The file could not be read, for this reason.
    Unreadable(String),
    /// The file holds no valid settings, for this reason.
    Malformed(String),
    Entries(SettingsEntries),
}

/// How a request identifies itself.
#[derive(Debug, Clone)]
pub enum Authorization {
    /// The value of the header `Authorization`.
    ApiKey(String),
    Basic { username: String, password: String },
    Anonymous,
}

pub fn default_host() -> (r: String)
    ensures
        r@ == "localhost"@,
{
    text::owned("localhost")
}

pub fn default_port() -> (r: u16)
    ensures
        r == 9200,
{
    9200
}

pub fn default_scheme() -> (r: String)
    ensures
        r@ == "https"@,
{
    text::owned("https")
}

pub fn default_index() -> (r: String)
    ensures
        r@ == "pdf_docs"@,
{
    text::owned("pdf_docs")
}

pub open spec fn entry_or(entry: Option<String>, default: Seq<char>) -> Seq<char> {
    match entry {
        Some(text) => text@,
        None => default,
    }
}

fn text_or(entry: Option<String>, default: String) -> (r: String)
    ensures
        r@ == entry_or(entry, default@),
{
    match entry {
        Some(text) => text,
        None => default,
    }
}

impl SettingsEntries {
    /// Whether these are the settings that the entries give: what the file leaves out has its
    /// default.
    pub open spec fn give(self, r: OpenSearchSettings) -> bool {
        &&& r.url@ == entry_or(self.url, Seq::empty())
        &&& r.host@ == entry_or(self.host, "localhost"@)
        &&& r.port == match self.port {
            Some(port) => port,
            None => 9200,
        }
        &&& r.scheme@ == entry_or(self.scheme, "https"@)
        &&& r.index@ == entry_or(self.index, "pdf_docs"@)
        &&& r.username@ == entry_or(self.username, Seq::empty())
        &&& r.password@ == entry_or(self.password, Seq::empty())
        &&& r.api_key@ == entry_or(self.api_key, Seq::empty())
        &&& r.insecure_skip_tls_verify == match self.insecure_skip_tls_verify {
            Some(skip) => skip,
            None => false,
        }
    }

    pub fn settings(self) -> (r: OpenSearchSettings)
        ensures
            self.give(r),
    {
        OpenSearchSettings {
            url: text_or(self.url, String::new()),
            host: text_or(self.host, default_host()),
            port: match self.port {
                Some(port) => port,
                None => default_port(),
            },
            scheme: text_or(self.scheme, default_scheme()),
            index: text_or(self.index, default_index()),
            username: text_or(self.username, String::new()),
            password: text_or(self.password, String::new()),
            api_key: text_or(self.api_key, String::new()),
            insecure_skip_tls_verify: match self.insecure_skip_tls_verify {
                Some(skip) => skip,
                None => false,
            },
        }
    }
}

impl OpenSearchSettings {
    /// The address that every request begins with.
    pub open spec fn base(self) -> Seq<char> {
        let url = text::without_trailing_char(text::trimmed(self.url@), '/');
        if url.len() > 0 {
            url
        } else {
            let scheme = text::trimmed(self.scheme@);
            (if scheme.len() == 0 {
                "https"@
            } else {
                scheme
            }) + "://"@ + text::trimmed(self.host@) + ":"@ + text::decimal(self.port as nat)
        }
    }

    pub fn base_url(&self) -> (r: String)
        ensures
            r@ == self.base(),
    {
        let url = text::trim_end_char(text::trim(self.url.as_str()), '/');
        if !url.is_empty() {
            return text::owned(url);
        }
        let scheme = text::trim(self.scheme.as_str());
        let mut r = text::owned(
            if scheme.is_empty() {
                "https"
            } else {
                scheme
            },
        );
        r.append("://");
        r.append(text::trim(self.host.as_str()));
        r.append(":");
        text::push_decimal(&mut r, self.port as u64);
        r
    }

    pub open spec fn index_name(self) -> Seq<char> {
        let index = text::trimmed(self.index@);
        if index.len() == 0 {
            "pdf_docs"@
        } else {
            index
        }
    }

    pub fn index(&self) -> (r: &str)
        ensures
            r@ == self.index_name(),
    {
        let index = text::trim(self.index.as_str());
        if index.is_empty() {
            "pdf_docs"
        } else {
            index
        }
    }

    pub open spec fn has_api_key(self) -> bool {
        text::trimmed(self.api_key@).len() > 0
    }

    pub open spec fn has_username(self) -> bool {
        text::trimmed(self.username@).len() > 0
    }

    /// How requests identify themselves, in words.
    pub open spec fn auth_name(self) -> Seq<char> {
        if self.has_api_key() {
            "APIキー"@
        } else if self.has_username() {
            "ユーザー名/パスワード"@
        } else {
            "なし"@
        }
    }

    pub fn auth_label(&self) -> (r: &'static str)
        ensures
            r@ == self.auth_name(),
    {
        if !text::is_blank(self.api_key.as_str()) {
            "APIキー"
        } else if !text::is_blank(self.username.as_str()) {
            "ユーザー名/パスワード"
        } else {
            "なし"
        }
    }

    /// How requests to the service identify themselves: by the API key, else by the user name and
    /// the password, else not at all.
    pub fn authorization(&self) -> (r: Authorization)
        ensures
            match r {
                Authorization::ApiKey(header) => self.has_api_key() && header@ == "ApiKey "@
                    + text::trimmed(self.api_key@),
                Authorization::Basic { username, password } => !self.has_api_key()
                    && self.has_username() && username@ == text::trimmed(self.username@)
                    && password@ == self.password@,
                Authorization::Anonymous => !self.has_api_key() && !self.has_username(),
            },
    {
        let api_key = text::trim(self.api_key.as_str());
        if !api_key.is_empty() {
            let mut header = text::owned("ApiKey ");
            header.append(api_key);
            return Authorization::ApiKey(header);
        }
        let username = text::trim(self.username.as_str());
        if !username.is_empty() {
            return Authorization::Basic {
                username: text::owned(username),
                password: text::owned(self.password.as_str()),
            };
        }
        Authorization::Anonymous
    }
}

/// The settings file to read: the one beside the program, else the one in the working directory.
/// Each place is given by its path and whether a file stands there.
pub fn find_setting_file(
    beside_program: Option<(String, bool)>,
    in_working_directory: Option<(String, bool)>,
) -> (r: Option<String>)
    ensures
        r == match (beside_program, in_working_directory) {
            (Some((path, true)), _) => Some(path),
            (_, Some((path, true))) => Some(path),
            _ => None,
        },
{
    if let Some((path, is_file)) = beside_program {
        if is_file {
            return Some(path);
        }
    }
    if let Some((path, is_file)) = in_working_directory {
        if is_file {
            return Some(path);
        }
    }
    None
}

pub open spec fn missing_file_message() -> Seq<char> {
    "setting.toml が見つかりません。実行ファイルと同じフォルダ、または作業ディレクトリに setting.toml.example をコピーして setting.toml を作成してください。"@
}

/// The settings that a file gives, or why it gives none.
pub fn load_settings_from(path: &str, contents: FileContents) -> (r: Result<
    OpenSearchSettings,
    String,
>)
    ensures
        match contents {
            FileContents::Unreadable(reason) => r is Err && r->Err_0@
                == "setting.toml を読めません ("@ + path@ + "): "@ + reason@,
            FileContents::Malformed(reason) => r is Err && r->Err_0@
                == "setting.toml の解析に失敗しました ("@ + path@ + "): "@ + reason@,
            FileContents::Entries(entries) => r is Ok && entries.give(r->Ok_0),
        },
{
    match contents {
        FileContents::Unreadable(reason) => {
            let mut message = text::owned("setting.toml を読めません (");
            message.append(path);
            message.append("): ");
            message.append(reason.as_str());
            Err(message)
        },
        FileContents::Malformed(reason) => {
            let mut message = text::owned("setting.toml の解析に失敗しました (");
            message.append(path);
            message.append("): ");
            message.append(reason.as_str());
            Err(message)
        },
        FileContents::Entries(entries) => Ok(entries.settings()),
    }
}

/// The settings of the file that was found, with its path.
pub fn load_settings(found: Option<(String, FileContents)>) -> (r: Result<
    (String, OpenSearchSettings),
    String,
>)
    ensures
        match found {
            None => r is Err && r->Err_0@ == missing_file_message(),
            Some((path, FileContents::Entries(entries))) => r is Ok && r->Ok_0.0@ == path@
                && entries.give(r->Ok_0.1),
            Some((path, FileContents::Unreadable(reason))) => r is Err && r->Err_0@
                == "setting.toml を読めません ("@ + path@ + "): "@ + reason@,
            Some((path, FileContents::Malformed(reason))) => r is Err && r->Err_0@
                == "setting.toml の解析に失敗しました ("@ + path@ + "): "@ + reason@,
        },
{
    match found {
        None => Err(
            text::owned(
                "setting.toml が見つかりません。実行ファイルと同じフォルダ、または作業ディレクトリに setting.toml.example をコピーして setting.toml を作成してください。",
            ),
        ),
        Some((path, contents)) => match load_settings_from(path.as_str(), contents) {
            Ok(settings) => Ok((path, settings)),
            Err(message) => Err(message),
        },
    }
}

/// A URL that is given never ends in a slash, so that paths can be appended to it.
pub proof fn given_url_has_no_trailing_slash(settings: OpenSearchSettings)
    requires
        text::without_trailing_char(text::trimmed(settings.url@), '/').len() > 0,
    ensures
        settings.base().len() > 0,
        settings.base().last() != '/',
{
    lemma_no_trailing(text::trimmed(settings.url@), '/');
}

proof fn lemma_no_trailing(s: Seq<char>, c: char)
    ensures
        text::without_trailing_char(s, c).len() > 0 ==> text::without_trailing_char(s, c).last() != c,
    decreases s.len(),
{
    if s.len() > 0 && s.last() == c {
        lemma_no_trailing(s.drop_last(), c);
    }
}

/// A URL that is given goes before scheme, host and port, whatever they are.
pub proof fn given_url_goes_first(a: OpenSearchSettings, b: OpenSearchSettings)
    requires
        a.url@ == b.url@,
        text::without_trailing_char(text::trimmed(a.url@), '/').len() > 0,
    ensures
        a.base() == b.base(),
{
}

proof fn lemma_slashes_cut(url: Seq<char>, slashes: Seq<char>)
    requires
        url.len() > 0,
        url.last() != '/',
        forall|i: int| 0 <= i < slashes.len() ==> #[trigger] slashes[i] == '/',
    ensures
        text::without_trailing_char(url + slashes, '/') == url,
    decreases slashes.len(),
{
    if slashes.len() == 0 {
        assert(url + slashes =~= url);
    } else {
        lemma_slashes_cut(url, slashes.drop_last());
        assert((url + slashes).drop_last() =~= url + slashes.drop_last());
        assert((url + slashes).last() == slashes[slashes.len() - 1]);
    }
}

/// A URL that is given is taken as it is, but for slashes at its end.
pub proof fn given_url_is_taken(settings: OpenSearchSettings, url: Seq<char>, slashes: Seq<char>)
    requires
        url.len() > 0,
        url.last() != '/',
        !text::is_space(url[0]),
        !text::is_space(url.last()),
        forall|i: int| 0 <= i < slashes.len() ==> #[trigger] slashes[i] == '/',
        settings.url@ == url + slashes,
    ensures
        settings.base() == url,
{
    let s = url + slashes;
    assert(s[0] == url[0]);
    if slashes.len() > 0 {
        assert(s.last() == slashes[slashes.len() - 1]);
    } else {
        assert(s =~= url);
    }
    assert(text::trimmed(s) == s);
    lemma_slashes_cut(url, slashes);
}

/// Without a URL the address is made of scheme, host and port. A blank scheme stands for `https`,
/// and a blank index for `pdf_docs`.
pub proof fn addresses_are_made_of_their_parts(settings: OpenSearchSettings)
    requires
        settings.url@.len() == 0,
    ensures
        text::trimmed(settings.scheme@).len() > 0 ==> settings.base() == text::trimmed(
            settings.scheme@,
        ) + "://"@ + text::trimmed(settings.host@) + ":"@ + text::decimal(settings.port as nat),
        text::trimmed(settings.scheme@).len() == 0 ==> settings.base() == "https"@ + "://"@
            + text::trimmed(settings.host@) + ":"@ + text::decimal(settings.port as nat),
        text::trimmed(settings.index@).len() > 0 ==> settings.index_name() == text::trimmed(
            settings.index@,
        ),
        text::trimmed(settings.index@).len() == 0 ==> settings.index_name() == "pdf_docs"@,
{
    text::trimming_cuts_both_ends(settings.url@);
}

/// An API key goes before a user name, and where both are blank, requests do not identify
/// themselves.
pub proof fn keys_go_before_names(settings: OpenSearchSettings)
    ensures
        settings.has_api_key() <==> exists|i: int|
            0 <= i < settings.api_key@.len() && !text::is_space(#[trigger] settings.api_key@[i]),
        settings.has_username() <==> exists|i: int|
            0 <= i < settings.username@.len() && !text::is_space(#[trigger] settings.username@[i]),
        settings.has_api_key() ==> settings.auth_name() == "APIキー"@,
        !settings.has_api_key() && settings.has_username() ==> settings.auth_name()
            == "ユーザー名/パスワード"@,
        !settings.has_api_key() && !settings.has_username() ==> settings.auth_name() == "なし"@,
{
    text::lemma_blank(settings.api_key@);
    text::lemma_blank(settings.username@);
}

/// What a settings file says is taken as it is, and what it leaves out has its default: the secure
/// service on this machine, without a user, with the certificate looked at.
pub proof fn what_is_left_out_has_its_default(
    entries: SettingsEntries,
    settings: OpenSearchSettings,
    value: String,
)
    requires
        entries.give(settings),
    ensures
        entries.url == Some(value) ==> settings.url@ == value@,
        entries.url is None ==> settings.url@.len() == 0,
        entries.host == Some(value) ==> settings.host@ == value@,
        entries.host is None ==> settings.host@ == "localhost"@,
        entries.port matches Some(port) ==> settings.port == port,
        entries.port is None ==> settings.port == 9200,
        entries.scheme == Some(value) ==> settings.scheme@ == value@,
        entries.scheme is None ==> settings.scheme@ == "https"@,
        entries.index == Some(value) ==> settings.index@ == value@,
        entries.index is None ==> settings.index@ == "pdf_docs"@,
        entries.username == Some(value) ==> settings.username@ == value@,
        entries.username is None ==> settings.username@.len() == 0,
        entries.password == Some(value) ==> settings.password@ == value@,
        entries.password is None ==> settings.password@.len() == 0,
        entries.api_key == Some(value) ==> settings.api_key@ == value@,
        entries.api_key is None ==> settings.api_key@.len() == 0,
        entries.insecure_skip_tls_verify matches Some(skip) ==> settings.insecure_skip_tls_verify
            == skip,
        entries.insecure_skip_tls_verify is None ==> !settings.insecure_skip_tls_verify,
{
}

} // verus!
