//! What the window does: its jobs, the lines of its log, and the searches.
//!
//! The window shows dialogs and runs workers; it tells the session what came of them, and the
//! session says what is to be logged and done next.
use crate::binary::Binary64;
use crate::ieee;
use crate::ingest;
use crate::ingest::IngestReport;
use crate::replies::{SearchHit, SearchOutcome};
use crate::settings::OpenSearchSettings;
use crate::text;
use vstd::arithmetic::power2;
use vstd::prelude::*;
use vstd::string::StringExecFns;

verus! {

/// Saving the list of the files in a folder.
#[derive(Debug)]
pub enum ExportState {
    Idle,
    PickFolder,
    Listing,
    PickSave { names: Vec<String> },
    Writing,
}

/// Bringing the PDF files of a folder into the index.
#[derive(Debug, Clone, Copy, PartialEq, Eq, Structural)]
pub enum IngestState {
    Idle,
    PickFolder,
    Running,
}

/// Turning a PDF file into Markdown.
#[derive(Debug)]
pub enum ConvertState {
    Idle,
    PickPdf,
    Converting { file_name: String },
    PickSave { markdown: String, file_name: String },
    Writing,
}

/// What a search looks for.
#[derive(Debug, Clone, Copy, PartialEq, Eq, Structural)]
pub enum SearchKind {
    Keyword,
    Sentence,
}

impl SearchKind {
    pub open spec fn name(self) -> Seq<char> {
        match self {
            SearchKind::Keyword => "キーワード検索（BM25）"@,
            SearchKind::Sentence => "文章検索（kNN）"@,
        }
    }

    pub fn label(self) -> (r: &'static str)
        ensures
            r@ == self.name(),
    {
        match self {
            SearchKind::Keyword => "キーワード検索（BM25）",
            SearchKind::Sentence => "文章検索（kNN）",
        }
    }
}

/// What a look at a worker gave.
#[derive(Debug)]
pub enum Poll<T> {
    /// There is no worker.
    Missing,
    /// It is still at work.
    Pending,
    Done(Result<T, String>),
    /// It has gone without a word.
    Lost,
}

/// The state of the window.
#[derive(Debug)]
pub struct Session {
    pub export: ExportState,
    pub ingest: IngestState,
    pub convert: ConvertState,
    pub searching: bool,
    /// Whether a frame is to be drawn before a dialog opens.
    pub yield_before_action: bool,
    pub search_kind: SearchKind,
    pub search_hits: Vec<SearchHit>,
    pub search_max_score: Binary64,
    pub search_status: String,
}

/// What is to be done next for a job.
#[derive(Debug, Clone, Copy, PartialEq, Eq, Structural)]
pub enum Action {
    Nothing,
    /// Ask for the folder or the file to work on.
    PickSource,
    /// Look at the worker.
    Poll,
    /// Ask for the file to save to.
    PickSave,
}

/// What the window does after it was told of something: the lines for its log, and whether to look
/// again soon.
#[derive(Debug)]
pub struct Response {
    pub lines: Vec<String>,
    pub repaint: bool,
}

impl Response {
    /// Whether these lines are logged and nothing is looked at again.
    pub open spec fn says(self, lines: Seq<Seq<char>>) -> bool {
        text::views(self.lines@) == lines && !self.repaint
    }

    /// Whether nothing is logged and the worker is looked at again.
    pub open spec fn waits(self) -> bool {
        self.lines@.len() == 0 && self.repaint
    }
}

fn silent() -> (r: Response)
    ensures
        r.says(Seq::empty()),
{
    let lines: Vec<String> = Vec::new();
    assert(text::views(lines@) =~= Seq::empty());
    Response { lines, repaint: false }
}

fn waiting() -> (r: Response)
    ensures
        r.waits(),
{
    Response { lines: Vec::new(), repaint: true }
}

fn one_line(line: String) -> (r: Response)
    ensures
        r.says(seq![line@]),
{
    let lines: Vec<String> = vec![line];
    assert(text::views(lines@) =~= seq![line@]);
    Response { lines, repaint: false }
}

fn two_lines(first: String, second: String) -> (r: Response)
    ensures
        r.says(seq![first@, second@]),
{
    let lines: Vec<String> = vec![first, second];
    assert(text::views(lines@) =~= seq![first@, second@]);
    Response { lines, repaint: false }
}

fn with_detail(what: &str, detail: &str) -> (r: String)
    ensures
        r@ == what@ + detail@,
{
    let mut out = text::owned(what);
    out.append(detail);
    out
}

/// A line of the log, with the time before it.
pub open spec fn log_line(stamp: Seq<char>, message: Seq<char>) -> Seq<char> {
    stamp + " "@ + message + "\n"@
}

pub fn format_log_line(stamp: &str, message: &str) -> (r: String)
    ensures
        r@ == log_line(stamp@, message@),
{
    let mut out = text::owned(stamp);
    out.append(" ");
    out.append(message);
    out.append("\n");
    out
}

/// The beginning of a query, for the log.
pub fn search_query_preview(query: &str) -> (r: String)
    ensures
        r@ == text::shortened(query@, 80),
{
    text::truncate(query, 80)
}

/// How near a hit is to the best one, in percent.
pub open spec fn similarity(score: Binary64, max_score: Binary64) -> Seq<char> {
    if max_score.spec_at_most(Binary64 { bits: 0 }) {
        "類似度 —"@
    } else {
        "類似度 "@ + text::signed_decimal(
            score.spec_over(max_score).spec_times(
                Binary64 { bits: 0x4059_0000_0000_0000 },
            ).spec_to_i32(),
        ) + "%"@
    }
}

pub fn similarity_label(score: Binary64, max_score: Binary64) -> (r: String)
    ensures
        r@ == similarity(score, max_score),
{
    if max_score.at_most(Binary64 { bits: 0 }) {
        return text::owned("類似度 —");
    }
    let percent: i32 = score.over(max_score).times(
        Binary64 { bits: 0x4059_0000_0000_0000 },
    ).to_i32();
    let mut out = text::owned("類似度 ");
    text::push_signed(&mut out, percent);
    out.append("%");
    out
}

/// The line that tells where the settings lead.
pub open spec fn connection_message(settings: OpenSearchSettings, path: Seq<char>) -> Seq<char> {
    "接続先: "@ + settings.base() + "  index="@ + settings.index_name() + "  ("@ + path + ")"@
}

/// The line that tells of the settings when the window opens.
pub open spec fn loaded_message(settings: OpenSearchSettings, path: Seq<char>) -> Seq<char> {
    "OpenSearch 設定を読み込みました: "@ + settings.base() + "  index="@ + settings.index_name()
        + "  認証="@ + settings.auth_name() + "  ("@ + path + ")"@
}

fn connection_line(settings: &OpenSearchSettings, path: &str) -> (r: String)
    ensures
        r@ == connection_message(*settings, path@),
{
    let mut out = text::owned("接続先: ");
    let base = settings.base_url();
    out.append(base.as_str());
    out.append("  index=");
    out.append(settings.index());
    out.append("  (");
    out.append(path);
    out.append(")");
    out
}

/// The settings for a job, if they could be loaded, and the line that tells of them or of the
/// failure.
pub fn load_opensearch_or_log(loaded: Result<(String, OpenSearchSettings), String>) -> (r: (
    String,
    Option<OpenSearchSettings>,
))
    ensures
        match loaded {
            Ok((path, settings)) => r.0@ == connection_message(settings, path@) && r.1 == Some(
                settings,
            ),
            Err(err) => r.0@ == err@ && r.1 is None,
        },
{
    match loaded {
        Ok((path, settings)) => (
            connection_line(&settings, path.as_str()),
            Some(settings),
        ),
        Err(err) => (err, None),
    }
}

impl Session {
    /// A session in which nothing goes on, and the lines that the log begins with.
    pub fn new(loaded: Result<(String, OpenSearchSettings), String>) -> (r: (Session, Vec<String>))
        ensures
            r.0.export is Idle,
            r.0.ingest is Idle,
            r.0.convert is Idle,
            !r.0.searching,
            !r.0.yield_before_action,
            r.0.search_kind is Keyword,
            r.0.search_hits@.len() == 0,
            r.0.search_max_score == (Binary64 { bits: 0 }),
            r.0.search_status@ == "検索結果はここに表示されます。"@,
            text::views(r.1@) == seq![
                "rtools を起動しました。"@,
                match loaded {
                    Ok((path, settings)) => loaded_message(settings, path@),
                    Err(err) => err@,
                },
            ],
    {
        let line = match loaded {
            Ok((path, settings)) => {
                let mut out = text::owned("OpenSearch 設定を読み込みました: ");
                let base = settings.base_url();
                out.append(base.as_str());
                out.append("  index=");
                out.append(settings.index());
                out.append("  認証=");
                out.append(settings.auth_label());
                out.append("  (");
                out.append(path.as_str());
                out.append(")");
                out
            },
            Err(err) => err,
        };
        let lines = two_lines(text::owned("rtools を起動しました。"), line).lines;
        let session = Session {
            export: ExportState::Idle,
            ingest: IngestState::Idle,
            convert: ConvertState::Idle,
            searching: false,
            yield_before_action: false,
            search_kind: SearchKind::Keyword,
            search_hits: Vec::new(),
            search_max_score: Binary64 { bits: 0 },
            search_status: text::owned("検索結果はここに表示されます。"),
        };
        (session, lines)
    }

    /// Whether nothing goes on.
    pub open spec fn idle(self) -> bool {
        self.export is Idle && self.ingest is Idle && self.convert is Idle && !self.searching
    }

    /// How many jobs go on.
    pub open spec fn jobs(self) -> nat {
        (if self.export is Idle {
            0nat
        } else {
            1
        }) + (if self.ingest is Idle {
            0nat
        } else {
            1
        }) + (if self.convert is Idle {
            0nat
        } else {
            1
        }) + (if self.searching {
            1nat
        } else {
            0
        })
    }

    pub fn is_idle(&self) -> (r: bool)
        ensures
            r == self.idle(),
    {
        matches!(self.export, ExportState::Idle) && matches!(self.ingest, IngestState::Idle)
            && matches!(self.convert, ConvertState::Idle) && !self.searching
    }

    /// What is shown while something goes on.
    pub open spec fn hint(self) -> Option<Seq<char>> {
        if !(self.export is Idle) {
            Some("ファイル一覧を処理中…"@)
        } else if !(self.ingest is Idle) {
            Some("PDFを登録中…"@)
        } else if !(self.convert is Idle) {
            Some("PDFを変換中…"@)
        } else if self.searching {
            Some("検索中…"@)
        } else {
            None
        }
    }

    pub fn busy_hint(&self) -> (r: Option<&'static str>)
        ensures
            match r {
                Some(hint) => self.hint() == Some(hint@),
                None => self.hint() is None,
            },
    {
        if !matches!(self.export, ExportState::Idle) {
            Some("ファイル一覧を処理中…")
        } else if !matches!(self.ingest, IngestState::Idle) {
            Some("PDFを登録中…")
        } else if !matches!(self.convert, ConvertState::Idle) {
            Some("PDFを変換中…")
        } else if self.searching {
            Some("検索中…")
        } else {
            None
        }
    }

    /// Whether a search for this text can be started.
    pub fn can_search(&self, query: &str) -> (r: bool)
        ensures
            r == (self.idle() && text::trimmed(query@).len() > 0),
    {
        self.is_idle() && !text::is_blank(query)
    }

    /// Begins a frame: whether the jobs are to be looked after. A frame that was to be drawn first
    /// is drawn without that.
    pub fn begin_frame(&mut self) -> (r: bool)
        ensures
            r == !old(self).yield_before_action,
            *final(self) == (Session { yield_before_action: false, ..*old(self) }),
    {
        let ready = !self.yield_before_action;
        self.yield_before_action = false;
        ready
    }

    pub fn start_export(&mut self) -> (r: Response)
        ensures
            r.says(seq!["フォルダ選択ダイアログを開きます。"@]),
            *final(self) == (Session {
                export: ExportState::PickFolder,
                yield_before_action: true,
                ..*old(self)
            }),
            old(self).idle() ==> final(self).jobs() == 1,
    {
        self.export = ExportState::PickFolder;
        self.yield_before_action = true;
        one_line(text::owned("フォルダ選択ダイアログを開きます。"))
    }

    pub fn start_ingest(&mut self) -> (r: Response)
        ensures
            r.says(seq!["PDF フォルダの選択ダイアログを開きます。"@]),
            *final(self) == (Session {
                ingest: IngestState::PickFolder,
                yield_before_action: true,
                ..*old(self)
            }),
            old(self).idle() ==> final(self).jobs() == 1,
    {
        self.ingest = IngestState::PickFolder;
        self.yield_before_action = true;
        one_line(text::owned("PDF フォルダの選択ダイアログを開きます。"))
    }

    pub fn start_convert(&mut self) -> (r: Response)
        ensures
            r.says(seq!["PDF の選択ダイアログを開きます。"@]),
            *final(self) == (Session {
                convert: ConvertState::PickPdf,
                yield_before_action: true,
                ..*old(self)
            }),
            old(self).idle() ==> final(self).jobs() == 1,
    {
        self.convert = ConvertState::PickPdf;
        self.yield_before_action = true;
        one_line(text::owned("PDF の選択ダイアログを開きます。"))
    }

    pub open spec fn export_action(self) -> Action {
        match self.export {
            ExportState::Idle => Action::Nothing,
            ExportState::PickFolder => if self.yield_before_action {
                Action::Nothing
            } else {
                Action::PickSource
            },
            ExportState::Listing => Action::Poll,
            ExportState::PickSave { .. } => if self.yield_before_action {
                Action::Nothing
            } else {
                Action::PickSave
            },
            ExportState::Writing => Action::Poll,
        }
    }

    /// What is to be done for the list of files.
    pub fn poll_export(&self) -> (r: Action)
        ensures
            r == self.export_action(),
    {
        match self.export {
            ExportState::Idle => Action::Nothing,
            ExportState::PickFolder => if self.yield_before_action {
                Action::Nothing
            } else {
                Action::PickSource
            },
            ExportState::Listing => Action::Poll,
            ExportState::PickSave { .. } => if self.yield_before_action {
                Action::Nothing
            } else {
                Action::PickSave
            },
            ExportState::Writing => Action::Poll,
        }
    }

    pub open spec fn ingest_action(self) -> Action {
        match self.ingest {
            IngestState::Idle => Action::Nothing,
            IngestState::PickFolder => if self.yield_before_action {
                Action::Nothing
            } else {
                Action::PickSource
            },
            IngestState::Running => Action::Poll,
        }
    }

    /// What is to be done for the files that go into the index.
    pub fn poll_ingest(&self) -> (r: Action)
        ensures
            r == self.ingest_action(),
    {
        match self.ingest {
            IngestState::Idle => Action::Nothing,
            IngestState::PickFolder => if self.yield_before_action {
                Action::Nothing
            } else {
                Action::PickSource
            },
            IngestState::Running => Action::Poll,
        }
    }

    pub open spec fn convert_action(self) -> Action {
        match self.convert {
            ConvertState::Idle => Action::Nothing,
            ConvertState::PickPdf => if self.yield_before_action {
                Action::Nothing
            } else {
                Action::PickSource
            },
            ConvertState::Converting { .. } => Action::Poll,
            ConvertState::PickSave { .. } => if self.yield_before_action {
                Action::Nothing
            } else {
                Action::PickSave
            },
            ConvertState::Writing => Action::Poll,
        }
    }

    /// What is to be done for the file that is turned into Markdown.
    pub fn poll_convert(&self) -> (r: Action)
        ensures
            r == self.convert_action(),
    {
        match self.convert {
            ConvertState::Idle => Action::Nothing,
            ConvertState::PickPdf => if self.yield_before_action {
                Action::Nothing
            } else {
                Action::PickSource
            },
            ConvertState::Converting { .. } => Action::Poll,
            ConvertState::PickSave { .. } => if self.yield_before_action {
                Action::Nothing
            } else {
                Action::PickSave
            },
            ConvertState::Writing => Action::Poll,
        }
    }
}

impl Session {
    /// Tells of the folder whose files are to be listed, or that none was chosen. Whether to list
    /// them is seen by the state.
    pub fn pick_folder(&mut self, folder: Option<&str>) -> (r: Response)
        ensures
            match folder {
                Some(folder) => {
                    &&& r.says(seq!["フォルダ: "@ + folder@, "ファイル一覧を取得しています。"@])
                    &&& *final(self) == (Session { export: ExportState::Listing, ..*old(self) })
                },
                None => {
                    &&& r.says(seq!["フォルダ選択をキャンセルしました。"@])
                    &&& *final(self) == (Session { export: ExportState::Idle, ..*old(self) })
                },
            },
            !(old(self).export is Idle) ==> final(self).jobs() <= old(self).jobs(),
    {
        match folder {
            Some(folder) => {
                self.export = ExportState::Listing;
                two_lines(
                    with_detail("フォルダ: ", folder),
                    text::owned("ファイル一覧を取得しています。"),
                )
            },
            None => {
                self.export = ExportState::Idle;
                one_line(text::owned("フォルダ選択をキャンセルしました。"))
            },
        }
    }

    /// Tells of the worker that lists the files.
    pub fn poll_listing(&mut self, poll: Poll<Vec<String>>) -> (r: Response)
        ensures
            match poll {
                Poll::Missing => {
                    &&& r.says(Seq::empty())
                    &&& *final(self) == (Session { export: ExportState::Idle, ..*old(self) })
                },
                Poll::Pending => r.waits() && *final(self) == *old(self),
                Poll::Done(Ok(names)) => {
                    &&& r.says(
                        seq![
                            "ファイル数: "@ + text::decimal(names@.len()),
                            "保存先の選択ダイアログを開きます。"@,
                        ],
                    )
                    &&& *final(self) == (Session {
                        export: ExportState::PickSave { names },
                        yield_before_action: true,
                        ..*old(self)
                    })
                },
                Poll::Done(Err(err)) => {
                    &&& r.says(seq!["ファイル一覧の取得に失敗しました: "@ + err@])
                    &&& *final(self) == (Session { export: ExportState::Idle, ..*old(self) })
                },
                Poll::Lost => {
                    &&& r.says(
                        seq!["ファイル一覧の取得に失敗しました: ワーカーが終了しました。"@],
                    )
                    &&& *final(self) == (Session { export: ExportState::Idle, ..*old(self) })
                },
            },
            !(old(self).export is Idle) ==> final(self).jobs() <= old(self).jobs(),
    {
        match poll {
            Poll::Missing => {
                self.export = ExportState::Idle;
                silent()
            },
            Poll::Pending => waiting(),
            Poll::Done(Ok(names)) => {
                let mut count = text::owned("ファイル数: ");
                text::push_decimal(&mut count, names.len() as u64);
                self.export = ExportState::PickSave { names };
                self.yield_before_action = true;
                two_lines(count, text::owned("保存先の選択ダイアログを開きます。"))
            },
            Poll::Done(Err(err)) => {
                self.export = ExportState::Idle;
                one_line(with_detail("ファイル一覧の取得に失敗しました: ", err.as_str()))
            },
            Poll::Lost => {
                self.export = ExportState::Idle;
                one_line(
                    text::owned("ファイル一覧の取得に失敗しました: ワーカーが終了しました。"),
                )
            },
        }
    }

    /// Tells of the file to which the list is saved, or that none was chosen, and gets what is to be
    /// written into it: the names, each on a line.
    pub fn pick_save(&mut self, save_path: Option<&str>) -> (r: (Response, Option<String>))
        ensures
            match old(self).export {
                ExportState::PickSave { names } => match save_path {
                    Some(path) => {
                        &&& r.0.says(seq!["保存しています: "@ + path@])
                        &&& r.1 matches Some(contents) && contents@ == text::joined(
                            text::views(names@),
                            "\n"@,
                        )
                        &&& *final(self) == (Session {
                            export: ExportState::Writing,
                            ..*old(self)
                        })
                    },
                    None => {
                        &&& r.0.says(seq!["保存をキャンセルしました。"@])
                        &&& r.1 is None
                        &&& *final(self) == (Session { export: ExportState::Idle, ..*old(self) })
                    },
                },
                _ => {
                    &&& r.0.says(Seq::empty())
                    &&& r.1 is None
                    &&& *final(self) == (Session { export: ExportState::Idle, ..*old(self) })
                },
            },
            !(old(self).export is Idle) ==> final(self).jobs() <= old(self).jobs(),
    {
        let mut taken = ExportState::Idle;
        std::mem::swap(&mut taken, &mut self.export);
        match taken {
            ExportState::PickSave { names } => match save_path {
                Some(path) => {
                    self.export = ExportState::Writing;
                    let contents = text::join_texts(names.as_slice(), "\n");
                    (one_line(with_detail("保存しています: ", path)), Some(contents))
                },
                None => (one_line(text::owned("保存をキャンセルしました。")), None),
            },
            _ => (silent(), None),
        }
    }

    /// Tells of the worker that writes the list.
    pub fn poll_writing(&mut self, poll: Poll<String>) -> (r: Response)
        ensures
            match poll {
                Poll::Pending => r.waits() && *final(self) == *old(self),
                _ => *final(self) == (Session { export: ExportState::Idle, ..*old(self) }),
            },
            saved(poll, r),
            !(old(self).export is Idle) ==> final(self).jobs() <= old(self).jobs(),
    {
        match &poll {
            Poll::Pending => {},
            _ => {
                self.export = ExportState::Idle;
            },
        }
        tell_of_saving(poll)
    }

    /// Tells of the folder whose files are to go into the index, with the settings that were loaded
    /// for it, or that none was chosen. The files are gone through where there are settings.
    pub fn pick_ingest_folder(
        &mut self,
        picked: Option<(&str, Result<(String, OpenSearchSettings), String>)>,
    ) -> (r: (Response, Option<OpenSearchSettings>))
        ensures
            match picked {
                Some((folder, Ok((path, settings)))) => {
                    &&& r.0.says(
                        seq!["PDF フォルダ: "@ + folder@, connection_message(settings, path@)],
                    )
                    &&& r.1 == Some(settings)
                    &&& *final(self) == (Session { ingest: IngestState::Running, ..*old(self) })
                },
                Some((folder, Err(err))) => {
                    &&& r.0.says(seq!["PDF フォルダ: "@ + folder@, err@])
                    &&& r.1 is None
                    &&& *final(self) == (Session { ingest: IngestState::Idle, ..*old(self) })
                },
                None => {
                    &&& r.0.says(seq!["PDF フォルダの選択をキャンセルしました。"@])
                    &&& r.1 is None
                    &&& *final(self) == (Session { ingest: IngestState::Idle, ..*old(self) })
                },
            },
            !(old(self).ingest is Idle) ==> final(self).jobs() <= old(self).jobs(),
    {
        self.ingest = IngestState::Idle;
        match picked {
            Some((folder, loaded)) => {
                let (line, settings) = load_opensearch_or_log(loaded);
                if settings.is_some() {
                    self.ingest = IngestState::Running;
                }
                (two_lines(with_detail("PDF フォルダ: ", folder), line), settings)
            },
            None => (one_line(text::owned("PDF フォルダの選択をキャンセルしました。")), None),
        }
    }

    /// Tells of the worker that brings files into the index.
    pub fn poll_ingest_worker(&mut self, poll: Poll<IngestReport>) -> (r: Response)
        ensures
            match poll {
                Poll::Pending => r.waits() && *final(self) == *old(self),
                Poll::Missing => {
                    &&& r.says(Seq::empty())
                    &&& *final(self) == (Session { ingest: IngestState::Idle, ..*old(self) })
                },
                Poll::Done(Ok(report)) => {
                    &&& r.says(report_messages(report@))
                    &&& *final(self) == (Session { ingest: IngestState::Idle, ..*old(self) })
                },
                Poll::Done(Err(err)) => {
                    &&& r.says(seq!["登録に失敗しました: "@ + err@])
                    &&& *final(self) == (Session { ingest: IngestState::Idle, ..*old(self) })
                },
                Poll::Lost => {
                    &&& r.says(seq!["登録に失敗しました: ワーカーが終了しました。"@])
                    &&& *final(self) == (Session { ingest: IngestState::Idle, ..*old(self) })
                },
            },
            !(old(self).ingest is Idle) ==> final(self).jobs() <= old(self).jobs(),
    {
        match poll {
            Poll::Pending => waiting(),
            Poll::Missing => {
                self.ingest = IngestState::Idle;
                silent()
            },
            Poll::Done(Ok(report)) => {
                self.ingest = IngestState::Idle;
                Response { lines: report_lines(&report), repaint: false }
            },
            Poll::Done(Err(err)) => {
                self.ingest = IngestState::Idle;
                one_line(with_detail("登録に失敗しました: ", err.as_str()))
            },
            Poll::Lost => {
                self.ingest = IngestState::Idle;
                one_line(text::owned("登録に失敗しました: ワーカーが終了しました。"))
            },
        }
    }

    /// Tells of the file that is to be turned into Markdown, by its path and the name to save under,
    /// or that none was chosen.
    pub fn pick_pdf(&mut self, picked: Option<(&str, String)>) -> (r: Response)
        ensures
            match picked {
                Some((path, file_name)) => {
                    &&& r.says(seq!["PDF: "@ + path@, "Markdown に変換しています。"@])
                    &&& *final(self) == (Session {
                        convert: ConvertState::Converting { file_name },
                        ..*old(self)
                    })
                },
                None => {
                    &&& r.says(seq!["PDF の選択をキャンセルしました。"@])
                    &&& *final(self) == (Session { convert: ConvertState::Idle, ..*old(self) })
                },
            },
            !(old(self).convert is Idle) ==> final(self).jobs() <= old(self).jobs(),
    {
        match picked {
            Some((path, file_name)) => {
                self.convert = ConvertState::Converting { file_name };
                two_lines(with_detail("PDF: ", path), text::owned("Markdown に変換しています。"))
            },
            None => {
                self.convert = ConvertState::Idle;
                one_line(text::owned("PDF の選択をキャンセルしました。"))
            },
        }
    }

    /// Tells of the worker that turns a file into Markdown.
    pub fn poll_converting(&mut self, poll: Poll<String>) -> (r: Response)
        ensures
            match old(self).convert {
                ConvertState::Converting { file_name } => match poll {
                    Poll::Missing => r.says(Seq::empty()) && *final(self) == *old(self),
                    Poll::Pending => r.waits() && *final(self) == *old(self),
                    Poll::Done(Ok(markdown)) => {
                        &&& r.says(seq!["保存先の選択ダイアログを開きます。"@])
                        &&& *final(self) == (Session {
                            convert: ConvertState::PickSave { markdown, file_name },
                            yield_before_action: true,
                            ..*old(self)
                        })
                    },
                    Poll::Done(Err(err)) => {
                        &&& r.says(seq!["PDF の変換に失敗しました: "@ + err@])
                        &&& *final(self) == (Session { convert: ConvertState::Idle, ..*old(self) })
                    },
                    Poll::Lost => {
                        &&& r.says(seq!["PDF の変換に失敗しました: ワーカーが終了しました。"@])
                        &&& *final(self) == (Session { convert: ConvertState::Idle, ..*old(self) })
                    },
                },
                _ => r.says(Seq::empty()) && *final(self) == *old(self),
            },
            !(old(self).convert is Idle) ==> final(self).jobs() <= old(self).jobs(),
    {
        let mut taken = ConvertState::Idle;
        std::mem::swap(&mut taken, &mut self.convert);
        match taken {
            ConvertState::Converting { file_name } => match poll {
                Poll::Missing => {
                    self.convert = ConvertState::Converting { file_name };
                    silent()
                },
                Poll::Pending => {
                    self.convert = ConvertState::Converting { file_name };
                    waiting()
                },
                Poll::Done(Ok(markdown)) => {
                    self.convert = ConvertState::PickSave { markdown, file_name };
                    self.yield_before_action = true;
                    one_line(text::owned("保存先の選択ダイアログを開きます。"))
                },
                Poll::Done(Err(err)) => one_line(
                    with_detail("PDF の変換に失敗しました: ", err.as_str()),
                ),
                Poll::Lost => one_line(
                    text::owned("PDF の変換に失敗しました: ワーカーが終了しました。"),
                ),
            },
            other => {
                self.convert = other;
                silent()
            },
        }
    }

    /// The name that is offered for saving the Markdown.
    pub fn offered_name(&self) -> (r: Option<&str>)
        ensures
            match self.convert {
                ConvertState::PickSave { markdown, file_name } => r matches Some(name) && name@
                    == file_name@,
                _ => r is None,
            },
    {
        match &self.convert {
            ConvertState::PickSave { file_name, .. } => Some(file_name.as_str()),
            _ => None,
        }
    }

    /// Tells of the file to which the Markdown is saved, or that none was chosen, and gets what is to
    /// be written into it.
    pub fn pick_convert_save(&mut self, save_path: Option<&str>) -> (r: (Response, Option<String>))
        ensures
            match old(self).convert {
                ConvertState::PickSave { markdown, file_name } => match save_path {
                    Some(path) => {
                        &&& r.0.says(seq!["保存しています: "@ + path@])
                        &&& r.1 == Some(markdown)
                        &&& *final(self) == (Session {
                            convert: ConvertState::Writing,
                            ..*old(self)
                        })
                    },
                    None => {
                        &&& r.0.says(seq!["保存をキャンセルしました。"@])
                        &&& r.1 is None
                        &&& *final(self) == (Session { convert: ConvertState::Idle, ..*old(self) })
                    },
                },
                _ => {
                    &&& r.0.says(Seq::empty())
                    &&& r.1 is None
                    &&& *final(self) == (Session { convert: ConvertState::Idle, ..*old(self) })
                },
            },
            !(old(self).convert is Idle) ==> final(self).jobs() <= old(self).jobs(),
    {
        let mut taken = ConvertState::Idle;
        std::mem::swap(&mut taken, &mut self.convert);
        match taken {
            ConvertState::PickSave { markdown, .. } => match save_path {
                Some(path) => {
                    self.convert = ConvertState::Writing;
                    (one_line(with_detail("保存しています: ", path)), Some(markdown))
                },
                None => (one_line(text::owned("保存をキャンセルしました。")), None),
            },
            _ => (silent(), None),
        }
    }

    /// Tells of the worker that writes the Markdown.
    pub fn poll_convert_writing(&mut self, poll: Poll<String>) -> (r: Response)
        ensures
            match old(self).convert {
                ConvertState::Writing => {
                    &&& saved(poll, r)
                    &&& match poll {
                        Poll::Pending => *final(self) == *old(self),
                        Poll::Missing => *final(self) == *old(self),
                        _ => *final(self) == (Session {
                            convert: ConvertState::Idle,
                            ..*old(self)
                        }),
                    }
                },
                _ => r.says(Seq::empty()) && *final(self) == *old(self),
            },
            !(old(self).convert is Idle) ==> final(self).jobs() <= old(self).jobs(),
    {
        if !matches!(self.convert, ConvertState::Writing) {
            return silent();
        }
        match &poll {
            Poll::Pending => {},
            Poll::Missing => {},
            _ => {
                self.convert = ConvertState::Idle;
            },
        }
        tell_of_saving(poll)
    }
}

/// Whether the response is the one to a worker that saves a file.
pub open spec fn saved(poll: Poll<String>, r: Response) -> bool {
    match poll {
        Poll::Missing => r.says(Seq::empty()),
        Poll::Pending => r.waits(),
        Poll::Done(Ok(path)) => r.says(seq!["保存しました: "@ + path@]),
        Poll::Done(Err(err)) => r.says(seq!["保存に失敗しました: "@ + err@]),
        Poll::Lost => r.says(seq!["保存に失敗しました: ワーカーが終了しました。"@]),
    }
}

fn tell_of_saving(poll: Poll<String>) -> (r: Response)
    ensures
        saved(poll, r),
{
    match poll {
        Poll::Missing => silent(),
        Poll::Pending => waiting(),
        Poll::Done(Ok(path)) => one_line(with_detail("保存しました: ", path.as_str())),
        Poll::Done(Err(err)) => one_line(with_detail("保存に失敗しました: ", err.as_str())),
        Poll::Lost => one_line(text::owned("保存に失敗しました: ワーカーが終了しました。")),
    }
}

/// The most warnings that are logged.
pub const SHOWN_WARNINGS: usize = 8;

/// The lines on what came of bringing files into the index: the numbers, the first warnings, and how
/// many more there are.
pub open spec fn report_messages(report: ingest::ReportView) -> Seq<Seq<char>> {
    let n = report.errors.len();
    let head = seq![
        "登録が完了しました: 成功 "@ + text::decimal(report.files_ok) + " ファイル / 失敗 "@
            + text::decimal(report.files_fail) + " / "@ + text::decimal(report.chunks)
            + " チャンク"@,
    ];
    if n <= SHOWN_WARNINGS {
        head + report.errors.map_values(|err: Seq<char>| "  警告: "@ + err)
    } else {
        (head + report.errors.take(SHOWN_WARNINGS as int).map_values(
            |err: Seq<char>| "  警告: "@ + err,
        )).push("  …ほか "@ + text::decimal((n - SHOWN_WARNINGS) as nat) + " 件の警告"@)
    }
}

fn report_lines(report: &IngestReport) -> (r: Vec<String>)
    ensures
        text::views(r@) == report_messages(report@),
{
    let mut first = text::owned("登録が完了しました: 成功 ");
    text::push_decimal(&mut first, report.files_ok as u64);
    first.append(" ファイル / 失敗 ");
    text::push_decimal(&mut first, report.files_fail as u64);
    first.append(" / ");
    text::push_decimal(&mut first, report.chunks as u64);
    first.append(" チャンク");
    let ghost head = seq![first@];
    let mut lines: Vec<String> = Vec::new();
    lines.push(first);
    let count = report.errors.len();
    let shown: usize = if count <= SHOWN_WARNINGS {
        count
    } else {
        SHOWN_WARNINGS
    };
    let ghost f = |err: Seq<char>| "  警告: "@ + err;
    let ghost all = text::views(report.errors@).take(shown as int).map_values(f);
    assert(text::views(lines@) =~= head + all.take(0));
    for i in 0..shown
        invariant
            shown <= report.errors@.len(),
            f == (|err: Seq<char>| "  警告: "@ + err),
            all == text::views(report.errors@).take(shown as int).map_values(f),
            text::views(lines@) == head + all.take(i as int),
    {
        let ghost before = lines@;
        lines.push(with_detail("  警告: ", report.errors[i].as_str()));
        proof {
            assert(all[i as int] == "  警告: "@ + report.errors@[i as int]@);
            assert(text::views(lines@) =~= text::views(before).push(all[i as int]));
            assert(head + all.take(i + 1) =~= (head + all.take(i as int)).push(all[i as int]));
        }
    }
    assert(all.take(all.len() as int) =~= all);
    if count > SHOWN_WARNINGS {
        let ghost before = lines@;
        let mut last = text::owned("  …ほか ");
        text::push_decimal(&mut last, (count - SHOWN_WARNINGS) as u64);
        last.append(" 件の警告");
        let ghost l = last@;
        lines.push(last);
        assert(text::views(lines@) =~= text::views(before).push(l));
    } else {
        assert(text::views(report.errors@).take(shown as int) =~= text::views(report.errors@));
    }
    lines
}

/// The most files that are named in the log.
pub const SHOWN_FILES: usize = 20;

/// The lines on the files that were found: their number, the first ones, and how many more there
/// are.
pub open spec fn found_messages(paths: Seq<Seq<char>>) -> Seq<Seq<char>> {
    let n = paths.len();
    let head = seq!["PDF ファイル数: "@ + text::decimal(n)];
    if n <= SHOWN_FILES {
        head + paths.map_values(|path: Seq<char>| "  - "@ + path)
    } else {
        (head + paths.take(SHOWN_FILES as int).map_values(|path: Seq<char>| "  - "@ + path)).push(
            "  …ほか "@ + text::decimal((n - SHOWN_FILES) as nat) + " 件"@,
        )
    }
}

/// The lines on the files that were found; there must be one.
pub fn found_lines(paths: &[String]) -> (r: Result<Vec<String>, String>)
    ensures
        if paths@.len() > 0 {
            r matches Ok(lines) && text::views(lines@) == found_messages(text::views(paths@))
        } else {
            r matches Err(e) && e@ == "フォルダ内に PDF ファイルが見つかりませんでした。"@
        },
{
    let count = paths.len();
    if count == 0 {
        return Err(text::owned("フォルダ内に PDF ファイルが見つかりませんでした。"));
    }
    let mut first = text::owned("PDF ファイル数: ");
    text::push_decimal(&mut first, count as u64);
    let ghost head = seq![first@];
    let mut lines: Vec<String> = Vec::new();
    lines.push(first);
    let shown: usize = if count <= SHOWN_FILES {
        count
    } else {
        SHOWN_FILES
    };
    let ghost f = |path: Seq<char>| "  - "@ + path;
    let ghost all = text::views(paths@).take(shown as int).map_values(f);
    assert(text::views(lines@) =~= head + all.take(0));
    for i in 0..shown
        invariant
            shown <= paths@.len(),
            f == (|path: Seq<char>| "  - "@ + path),
            all == text::views(paths@).take(shown as int).map_values(f),
            text::views(lines@) == head + all.take(i as int),
    {
        let ghost before = lines@;
        lines.push(with_detail("  - ", paths[i].as_str()));
        proof {
            assert(all[i as int] == "  - "@ + paths@[i as int]@);
            assert(text::views(lines@) =~= text::views(before).push(all[i as int]));
            assert(head + all.take(i + 1) =~= (head + all.take(i as int)).push(all[i as int]));
        }
    }
    assert(all.take(all.len() as int) =~= all);
    if count > SHOWN_FILES {
        let ghost before = lines@;
        let mut last = text::owned("  …ほか ");
        text::push_decimal(&mut last, (count - SHOWN_FILES) as u64);
        last.append(" 件");
        let ghost l = last@;
        lines.push(last);
        assert(text::views(lines@) =~= text::views(before).push(l));
    } else {
        assert(text::views(paths@).take(shown as int) =~= text::views(paths@));
    }
    Ok(lines)
}

/// What is to be looked for, without the spaces round it, or what is said where there is nothing.
pub fn search_text(kind: SearchKind, query: &str) -> (r: Result<String, String>)
    ensures
        text::result_view(r) == if text::trimmed(query@).len() > 0 {
            Ok(text::trimmed(query@))
        } else {
            Err(
                match kind {
                    SearchKind::Keyword => "検索キーワードを入力してください。"@,
                    SearchKind::Sentence => "検索する文章を入力してください。"@,
                },
            )
        },
{
    let query = text::trim(query);
    if query.is_empty() {
        return Err(
            text::owned(
                match kind {
                    SearchKind::Keyword => "検索キーワードを入力してください。",
                    SearchKind::Sentence => "検索する文章を入力してください。",
                },
            ),
        );
    }
    Ok(text::owned(query))
}

/// The lines on a search that begins.
pub open spec fn search_messages(
    kind: SearchKind,
    query: Seq<char>,
    settings: OpenSearchSettings,
    path: Seq<char>,
) -> Seq<Seq<char>> {
    let lines = seq![
        connection_message(settings, path),
        kind.name() + "しています: "@ + text::shortened(query, 80),
    ];
    match kind {
        SearchKind::Keyword => lines,
        SearchKind::Sentence => lines.push(
            "埋め込みモデルを準備しています（初回は約 120MB のダウンロードがあります）。"@,
        ),
    }
}

/// The line on a search that has ended.
pub open spec fn found_message(kind: SearchKind, total: u64, shown: nat) -> Seq<char> {
    kind.name() + ": "@ + text::decimal(total as nat) + " 件ヒット（表示 "@ + text::decimal(shown)
        + " 件）"@
}

impl Session {
    /// Starts a search with the settings that were loaded for it; without them there is none.
    pub fn start_search(
        &mut self,
        kind: SearchKind,
        query: &str,
        loaded: Result<(String, OpenSearchSettings), String>,
    ) -> (r: (Response, Option<OpenSearchSettings>))
        ensures
            match loaded {
                Ok((path, settings)) => {
                    &&& r.0.says(search_messages(kind, query@, settings, path@))
                    &&& r.1 == Some(settings)
                    &&& final(self).search_status@ == "検索中…"@
                    &&& *final(self) == (Session {
                        search_kind: kind,
                        searching: true,
                        search_status: final(self).search_status,
                        ..*old(self)
                    })
                },
                Err(err) => {
                    &&& r.0.says(seq![err@])
                    &&& r.1 is None
                    &&& *final(self) == *old(self)
                },
            },
            old(self).idle() ==> final(self).jobs() <= 1,
    {
        let (line, settings) = load_opensearch_or_log(loaded);
        if settings.is_none() {
            return (one_line(line), None);
        }
        self.search_kind = kind;
        self.searching = true;
        self.search_status = text::owned("検索中…");
        let mut second = text::owned(kind.label());
        second.append("しています: ");
        let preview = search_query_preview(query);
        second.append(preview.as_str());
        let mut lines: Vec<String> = vec![line, second];
        let ghost two = seq![line@, second@];
        assert(text::views(lines@) =~= two);
        if let SearchKind::Sentence = kind {
            lines.push(
                text::owned(
                    "埋め込みモデルを準備しています（初回は約 120MB のダウンロードがあります）。",
                ),
            );
            assert(text::views(lines@) =~= two.push(
                "埋め込みモデルを準備しています（初回は約 120MB のダウンロードがあります）。"@,
            ));
        }
        (Response { lines, repaint: false }, settings)
    }

    /// Whether the session shows that a search has failed, for this reason.
    pub open spec fn shows_failure(self, before: Session, reason: Seq<char>) -> bool {
        &&& self.search_status@ == "検索に失敗しました: "@ + reason
        &&& self.search_hits@.len() == 0
        &&& self == (Session {
            searching: false,
            search_hits: self.search_hits,
            search_max_score: Binary64 { bits: 0 },
            search_status: self.search_status,
            ..before
        })
    }

    fn fail_search(&mut self, reason: &str) -> (r: Response)
        ensures
            r.says(seq!["検索に失敗しました: "@ + reason@]),
            final(self).shows_failure(*old(self), reason@),
    {
        self.searching = false;
        self.search_hits = Vec::new();
        self.search_max_score = Binary64 { bits: 0 };
        self.search_status = with_detail("検索に失敗しました: ", reason);
        one_line(with_detail("検索に失敗しました: ", reason))
    }

    /// Tells of the worker that searches.
    pub fn poll_search(&mut self, poll: Poll<SearchOutcome>) -> (r: Response)
        ensures
            match poll {
                Poll::Missing => r.says(Seq::empty()) && *final(self) == *old(self),
                Poll::Pending => r.waits() && *final(self) == *old(self),
                Poll::Done(Ok(outcome)) => {
                    let line = found_message(
                        old(self).search_kind,
                        outcome.total,
                        outcome.hits@.len(),
                    );
                    &&& r.says(seq![line])
                    &&& final(self).search_status@ == line
                    &&& *final(self) == (Session {
                        searching: false,
                        search_hits: outcome.hits,
                        search_max_score: outcome.max_score,
                        search_status: final(self).search_status,
                        ..*old(self)
                    })
                },
                Poll::Done(Err(err)) => {
                    &&& r.says(seq!["検索に失敗しました: "@ + err@])
                    &&& final(self).shows_failure(*old(self), err@)
                },
                Poll::Lost => {
                    &&& r.says(seq!["検索に失敗しました: "@ + "ワーカーが終了しました。"@])
                    &&& final(self).shows_failure(*old(self), "ワーカーが終了しました。"@)
                },
            },
            final(self).jobs() <= old(self).jobs(),
    {
        match poll {
            Poll::Missing => silent(),
            Poll::Pending => waiting(),
            Poll::Done(Ok(outcome)) => {
                let mut line = text::owned(self.search_kind.label());
                line.append(": ");
                text::push_decimal(&mut line, outcome.total);
                line.append(" 件ヒット（表示 ");
                text::push_decimal(&mut line, outcome.hits.len() as u64);
                line.append(" 件）");
                self.searching = false;
                self.search_max_score = outcome.max_score;
                self.search_hits = outcome.hits;
                self.search_status = text::owned(line.as_str());
                one_line(line)
            },
            Poll::Done(Err(err)) => self.fail_search(err.as_str()),
            Poll::Lost => self.fail_search("ワーカーが終了しました。"),
        }
    }
}

proof fn lemma_one_and_hundred()
    ensures
        ieee::from_whole(52, 1) == (ieee::Number { negative: false, code: 0x3ff0_0000_0000_0000 }),
        ieee::magnitude(52, 0x3ff0_0000_0000_0000) == power2::pow2(1074),
        ieee::magnitude(52, 0x4059_0000_0000_0000) == 100 * power2::pow2(1074),
        ieee::infinity_code(52) == 0x7ff0_0000_0000_0000,
{
    power2::lemma2_to64();
    power2::lemma2_to64_rest();
    power2::lemma_pow2_adds(52, 1022);
    power2::lemma_pow2_adds(46, 1028);
    let one: nat = 0x3ff0_0000_0000_0000;
    assert(one / 0x10_0000_0000_0000 == 1023 && one % 0x10_0000_0000_0000 == 0);
    let hundred: nat = 0x4059_0000_0000_0000;
    assert(hundred / 0x10_0000_0000_0000 == 1029 && hundred % 0x10_0000_0000_0000
        == 0x9_0000_0000_0000);
    let a = power2::pow2(1028);
    assert(0x19_0000_0000_0000 * a == 100 * (power2::pow2(46) * a)) by (nonlinear_arith)
        requires
            power2::pow2(46) == 0x4000_0000_0000,
    ;
    ieee::rounding_keeps_numbers(52, one);
    assert(1 * power2::pow2(1074) == power2::pow2(1074)) by (nonlinear_arith);
}

/// The hit with the best score is wholly alike.
pub proof fn best_hit_is_wholly_alike(score: Binary64)
    requires
        ieee::is_finite(52, score.number()),
        (Binary64 { bits: 0 }).spec_less(score),
    ensures
        similarity(score, score) == "類似度 "@ + text::signed_decimal(100) + "%"@,
{
    lemma_one_and_hundred();
    let a = score.number();
    ieee::number_over_itself_is_one(52, a);
    let one = ieee::Number { negative: false, code: 0x3ff0_0000_0000_0000 };
    let hundred = ieee::Number { negative: false, code: 0x4059_0000_0000_0000 };
    let u = power2::pow2(1074);
    power2::lemma_pow2_pos(1074);
    ieee::lemma_nearest_scaled(52, 100 * u, 1, u);
    assert(u * (100 * u) == (100 * u) * u) by (nonlinear_arith);
    assert(1 * u == u) by (nonlinear_arith);
    ieee::rounding_keeps_numbers(52, 0x4059_0000_0000_0000);
    assert(ieee::product(52, one, hundred) == hundred);
    assert((2 * (100 * u) + u) / (2 * u) == 100) by (nonlinear_arith)
        requires
            u > 0,
    ;
    assert(Binary64::of(one).number() == one);
    assert(Binary64::of(hundred).number() == hundred);
}

/// A hint is shown exactly while something goes on, which is while there is a job.
pub proof fn hint_tells_of_work(session: Session)
    ensures
        session.hint() is None <==> session.idle(),
        session.idle() <==> session.jobs() == 0,
{
}

/// The line for the log when a search fails in its worker.
pub fn search_failure_line(err: &str) -> (r: String)
    ensures
        r@ == "検索に失敗しました: "@ + err@,
{
    with_detail("検索に失敗しました: ", err)
}

/// A report tells its numbers, each of up to eight warnings on a line of its own, and how many more
/// there are.
pub proof fn reports_show_eight_warnings(report: ingest::ReportView)
    ensures
        ({
            let lines = report_messages(report);
            let n = report.errors.len();
            &&& lines[0] == "登録が完了しました: 成功 "@ + text::decimal(report.files_ok)
                + " ファイル / 失敗 "@ + text::decimal(report.files_fail) + " / "@
                + text::decimal(report.chunks) + " チャンク"@
            &&& n <= 8 ==> lines.len() == n + 1
            &&& n > 8 ==> lines.len() == 10 && lines[9] == "  …ほか "@ + text::decimal(
                (n - 8) as nat,
            ) + " 件の警告"@
            &&& forall|i: int|
                0 <= i < n && i < 8 ==> #[trigger] lines[i + 1] == "  警告: "@ + report.errors[i]
        }),
{
    let lines = report_messages(report);
    let n = report.errors.len();
    assert forall|i: int| 0 <= i < n && i < 8 implies #[trigger] lines[i + 1] == "  警告: "@
        + report.errors[i] by {
        if n > 8 {
            assert(report.errors.take(8)[i] == report.errors[i]);
        }
    }
}

/// The log names the number of files that were found, each of up to twenty on a line of its own, and
/// how many more there are.
pub proof fn twenty_files_are_named(paths: Seq<Seq<char>>)
    ensures
        ({
            let lines = found_messages(paths);
            let n = paths.len();
            &&& lines[0] == "PDF ファイル数: "@ + text::decimal(n)
            &&& n <= 20 ==> lines.len() == n + 1
            &&& n > 20 ==> lines.len() == 22 && lines[21] == "  …ほか "@ + text::decimal(
                (n - 20) as nat,
            ) + " 件"@
            &&& forall|i: int|
                0 <= i < n && i < 20 ==> #[trigger] lines[i + 1] == "  - "@ + paths[i]
        }),
{
    let lines = found_messages(paths);
    let n = paths.len();
    assert forall|i: int| 0 <= i < n && i < 20 implies #[trigger] lines[i + 1] == "  - "@
        + paths[i] by {
        if n > 20 {
            assert(paths.take(20)[i] == paths[i]);
        }
    }
}

/// A hit without a score has nothing in common with what was looked for, and where the best score is
/// 0 nothing is said of how near a hit is.
pub proof fn hits_without_score_are_not_alike(best: Binary64)
    requires
        ieee::is_finite(52, best.number()),
    ensures
        (Binary64 { bits: 0 }).spec_less(best) ==> similarity(Binary64 { bits: 0 }, best)
            == "類似度 "@ + text::signed_decimal(0) + "%"@,
        best == (Binary64 { bits: 0 }) ==> similarity(best, best) == "類似度 —"@,
{
    lemma_one_and_hundred();
    power2::lemma_pow2_pos(1074);
    power2::lemma_pow2_pos(53);
    power2::lemma_pow2_pos(52);
    if (Binary64 { bits: 0 }).spec_less(best) {
        let u = power2::pow2(1074);
        let zero = ieee::Number { negative: false, code: 0 };
        let hundred = ieee::Number { negative: false, code: 0x4059_0000_0000_0000 };
        let code = best.number().code as nat;
        if code >= power2::pow2(52) {
            let e = (code / power2::pow2(52) - 1) as nat;
            power2::lemma_pow2_pos(e);
            let whole = power2::pow2(52) + code % power2::pow2(52);
            assert(whole * power2::pow2(e) > 0) by (nonlinear_arith)
                requires
                    whole > 0,
                    power2::pow2(e) > 0,
            ;
        }
        ieee::lemma_nearest_of_zero(52, ieee::magnitude(52, code));
        ieee::lemma_nearest_of_zero(52, u);
        assert(0 * u == 0) by (nonlinear_arith);
        assert(0 * (100 * u) == 0) by (nonlinear_arith);
        assert(ieee::quotient(52, zero, best.number()) == zero);
        assert(ieee::product(52, zero, hundred) == zero);
        assert((2 * 0 + u) / (2 * u) == 0) by (nonlinear_arith)
            requires
                u > 0,
        ;
        assert(Binary64::of(zero).number() == zero);
        assert(Binary64::of(hundred).number() == hundred);
    }
}

/// The kinds of search go by different names, and the hint names the work that goes on.
pub proof fn work_is_named(session: Session)
    ensures
        SearchKind::Keyword.name() == "キーワード検索（BM25）"@,
        SearchKind::Sentence.name() == "文章検索（kNN）"@,
        session.idle() <==> (session.export is Idle && session.ingest is Idle
            && session.convert is Idle && !session.searching),
        !(session.export is Idle) ==> session.hint() == Some("ファイル一覧を処理中…"@),
        session.export is Idle && !(session.ingest is Idle) ==> session.hint() == Some(
            "PDFを登録中…"@,
        ),
        session.export is Idle && session.ingest is Idle && !(session.convert is Idle)
            ==> session.hint() == Some("PDFを変換中…"@),
        session.export is Idle && session.ingest is Idle && session.convert is Idle
            && session.searching ==> session.hint() == Some("検索中…"@),
{
}

/// A dialog is opened only in a frame before which one was drawn; workers are looked at in every
/// frame; and where nothing goes on nothing is done.
pub proof fn dialogs_wait_for_a_frame(session: Session)
    ensures
        session.yield_before_action ==> !(session.export_action() is PickSource)
            && !(session.export_action() is PickSave) && !(session.ingest_action() is PickSource)
            && !(session.convert_action() is PickSource) && !(session.convert_action() is PickSave),
        session.export is Idle <==> session.export_action() is Nothing && !(
        session.export is PickFolder) && !(session.export is PickSave),
        session.export is Listing || session.export is Writing <==> session.export_action() is Poll,
        session.ingest is Running <==> session.ingest_action() is Poll,
        session.convert is Converting || session.convert is Writing
            <==> session.convert_action() is Poll,
        !session.yield_before_action ==> {
            &&& session.export is PickFolder <==> session.export_action() is PickSource
            &&& session.export is PickSave <==> session.export_action() is PickSave
            &&& session.ingest is PickFolder <==> session.ingest_action() is PickSource
            &&& session.convert is PickPdf <==> session.convert_action() is PickSource
            &&& session.convert is PickSave <==> session.convert_action() is PickSave
        },
        session.ingest is Idle ==> session.ingest_action() is Nothing,
        session.convert is Idle ==> session.convert_action() is Nothing,
{
}

/// What the log says of the settings leads to the index.
pub proof fn lines_tell_where_settings_lead(
    settings: OpenSearchSettings,
    path: Seq<char>,
    stamp: Seq<char>,
    kind: SearchKind,
    query: Seq<char>,
    total: u64,
    shown: nat,
)
    ensures
        connection_message(settings, path) == "接続先: "@ + settings.base() + "  index="@
            + settings.index_name() + "  ("@ + path + ")"@,
        loaded_message(settings, path) == "OpenSearch 設定を読み込みました: "@ + settings.base()
            + "  index="@ + settings.index_name() + "  認証="@ + settings.auth_name() + "  ("@ + path
            + ")"@,
        log_line(stamp, path) == stamp + " "@ + path + "\n"@,
        found_message(kind, total, shown) == kind.name() + ": "@ + text::decimal(total as nat)
            + " 件ヒット（表示 "@ + text::decimal(shown) + " 件）"@,
        search_messages(kind, query, settings, path)[0] == connection_message(settings, path),
        query.len() <= 80 ==> search_messages(kind, query, settings, path)[1] == kind.name()
            + "しています: "@ + query,
        search_messages(kind, query, settings, path).len() == if kind is Sentence {
            3nat
        } else {
            2
        },
{
}

/// How near a hit is to the best one is told in whole parts of a hundred.
pub proof fn hits_are_measured_by_the_best(score: Binary64, best: Binary64)
    ensures
        best.spec_at_most(Binary64 { bits: 0 }) ==> similarity(score, best) == "類似度 —"@,
        !best.spec_at_most(Binary64 { bits: 0 }) ==> similarity(score, best) == "類似度 "@
            + text::signed_decimal(
            score.spec_over(best).spec_times(Binary64::of(
                ieee::Number { negative: false, code: 0x4059_0000_0000_0000 },
            )).spec_to_i32(),
        ) + "%"@,
{
}

/// A response either has lines to log or asks to look again, and a failed search shows nothing that
/// was found before.
pub proof fn responses_tell_or_wait(
    r: Response,
    lines: Seq<Seq<char>>,
    session: Session,
    before: Session,
    reason: Seq<char>,
)
    ensures
        r.says(lines) ==> r.lines@.len() == lines.len() && !r.repaint && !r.waits(),
        r.says(lines) ==> forall|i: int| 0 <= i < lines.len() ==> (#[trigger] r.lines@[i])@ == lines[i],
        r.waits() ==> r.lines@.len() == 0 && r.repaint,
        session.shows_failure(before, reason) ==> {
            &&& !session.searching
            &&& session.search_hits@.len() == 0
            &&& session.search_max_score == (Binary64 { bits: 0 })
            &&& session.search_status@ == "検索に失敗しました: "@ + reason
            &&& session.export == before.export && session.ingest == before.ingest
                && session.convert == before.convert
        },
{
    assert(text::views(r.lines@).len() == r.lines@.len());
    assert forall|i: int| r.says(lines) && 0 <= i < lines.len() implies (#[trigger] r.lines@[i])@
        == lines[i] by {
        assert(text::views(r.lines@)[i] == r.lines@[i]@);
    }
}

} // verus!
