//! What is made of the answers of OpenSearch.
use crate::binary::Binary64;
use crate::json;
use crate::text;
use serde_json::Value;
use vstd::prelude::*;
use vstd::string::StringExecFns;

verus! {

/// A document that was found.
#[derive(Debug, Clone)]
pub struct SearchHit {
    pub score: Binary64,
    pub title: String,
    pub path: String,
    pub page: u32,
    pub snippet: String,
}

/// What a search has found.
#[derive(Debug, Clone)]
pub struct SearchOutcome {
    pub total: u64,
    pub max_score: Binary64,
    pub hits: Vec<SearchHit>,
}

pub struct HitView {
    pub score: Binary64,
    pub title: Seq<char>,
    pub path: Seq<char>,
    pub page: u32,
    pub snippet: Seq<char>,
}

pub struct OutcomeView {
    pub total: u64,
    pub max_score: Binary64,
    pub hits: Seq<HitView>,
}

impl View for SearchHit {
    type V = HitView;

    open spec fn view(&self) -> HitView {
        HitView {
            score: self.score,
            title: self.title@,
            path: self.path@,
            page: self.page,
            snippet: self.snippet@,
        }
    }
}

pub open spec fn hit_views(hits: Seq<SearchHit>) -> Seq<HitView> {
    hits.map_values(|hit: SearchHit| hit@)
}

impl View for SearchOutcome {
    type V = OutcomeView;

    open spec fn view(&self) -> OutcomeView {
        OutcomeView {
            total: self.total,
            max_score: self.max_score,
            hits: hit_views(self.hits@),
        }
    }
}

/// The number 0.
pub open spec fn zero() -> Binary64 {
    Binary64 { bits: 0 }
}

/// The member of a value with this key, if there is a value.
pub open spec fn in_member(t: Option<json::Tree>, key: Seq<char>) -> Option<json::Tree> {
    match t {
        Some(t) => json::member_of(t, key),
        None => None,
    }
}

/// The number of documents found: given as it is, or as the member `value`.
pub open spec fn total_in(t: Option<json::Tree>) -> u64 {
    match t {
        Some(json::Tree::Uint(n)) => n,
        Some(t) => match json::member_of(t, "value"@) {
            Some(json::Tree::Uint(n)) => n,
            _ => 0,
        },
        None => 0,
    }
}

pub open spec fn text_member(t: Option<json::Tree>, key: Seq<char>) -> Option<Seq<char>> {
    match in_member(t, key) {
        Some(t) => json::text_in(t),
        None => None,
    }
}

/// The texts in a list.
pub open spec fn texts_in(items: Seq<json::Tree>) -> Seq<Seq<char>>
    decreases items.len(),
{
    if items.len() == 0 {
        Seq::empty()
    } else {
        let before = texts_in(items.drop_last());
        match items.last() {
            json::Tree::Text(s) => before.push(s),
            _ => before,
        }
    }
}

/// The highlighted fragments of a hit, joined; none where there is no text in them.
pub open spec fn highlight_in(hit: json::Tree) -> Option<Seq<char>> {
    match in_member(json::member_of(hit, "highlight"@), "text"@) {
        Some(json::Tree::List(items)) => {
            let joined = text::joined(texts_in(items), " … "@);
            if joined.len() > 0 {
                Some(joined)
            } else {
                None
            }
        },
        _ => None,
    }
}

/// What a hit says.
pub open spec fn hit_in(hit: json::Tree) -> HitView {
    let source = json::member_of(hit, "_source"@);
    HitView {
        score: match json::member_of(hit, "_score"@) {
            Some(t) => match json::real_of(t) {
                Some(x) => x,
                None => zero(),
            },
            None => zero(),
        },
        title: match text_member(source, "title"@) {
            Some(s) => s,
            None => match text_member(source, "file_name"@) {
                Some(s) => s,
                None => "(無題)"@,
            },
        },
        path: match text_member(source, "path"@) {
            Some(s) => s,
            None => Seq::empty(),
        },
        page: match in_member(source, "page"@) {
            Some(json::Tree::Uint(n)) => n as u32,
            _ => 1,
        },
        snippet: match highlight_in(hit) {
            Some(s) => s,
            None => match text_member(source, "text"@) {
                Some(s) => text::shortened(s, 220),
                None => Seq::empty(),
            },
        },
    }
}

pub open spec fn hits_in(t: Option<json::Tree>) -> Seq<HitView> {
    match t {
        Some(json::Tree::List(items)) => items.map_values(|hit: json::Tree| hit_in(hit)),
        _ => Seq::empty(),
    }
}

/// The best score of hits, and at least 0.
pub open spec fn best_score(hits: Seq<HitView>) -> Binary64
    decreases hits.len(),
{
    if hits.len() == 0 {
        zero()
    } else {
        best_score(hits.drop_last()).spec_max(hits.last().score)
    }
}

/// The best score as it is given, if it is above 0; else the best score of the hits.
pub open spec fn max_score_in(t: Option<json::Tree>, hits: Seq<HitView>) -> Binary64 {
    match t {
        Some(t) => match json::real_of(t) {
            Some(x) => if zero().spec_less(x) {
                x
            } else {
                best_score(hits)
            },
            None => best_score(hits),
        },
        None => best_score(hits),
    }
}

/// What an answer to a search says.
pub open spec fn outcome_in(t: json::Tree) -> Result<OutcomeView, Seq<char>> {
    match json::member_of(t, "hits"@) {
        Some(found) => {
            let hits = hits_in(json::member_of(found, "hits"@));
            Ok(
                OutcomeView {
                    total: total_in(json::member_of(found, "total"@)),
                    max_score: max_score_in(json::member_of(found, "max_score"@), hits),
                    hits,
                },
            )
        },
        None => Err("検索結果に hits がありません。"@),
    }
}

pub open spec fn outcome_result(r: Result<SearchOutcome, String>) -> Result<OutcomeView, Seq<char>> {
    match r {
        Ok(outcome) => Ok(outcome@),
        Err(err) => Err(err@),
    }
}

fn parse_total(total: Option<&Value>) -> (r: u64)
    ensures
        r == total_in(
            match total {
                Some(v) => Some(json::tree(*v)),
                None => None,
            },
        ),
{
    match total {
        Some(value) => {
            if let Some(n) = value.as_u64() {
                return n;
            }
            match json::member(value, "value") {
                Some(n) => match n.as_u64() {
                    Some(n) => n,
                    None => 0,
                },
                None => 0,
            }
        },
        None => 0,
    }
}

fn string_field(value: Option<&Value>, key: &str) -> (r: Option<String>)
    ensures
        match text_member(
            match value {
                Some(v) => Some(json::tree(*v)),
                None => None,
            },
            key@,
        ) {
            Some(s) => r matches Some(found) && found@ == s,
            None => r is None,
        },
{
    match value {
        Some(value) => match json::member(value, key) {
            Some(field) => match field.as_str() {
                Some(s) => Some(text::owned(s)),
                None => None,
            },
            None => None,
        },
        None => None,
    }
}

fn highlight_snippet(hit: &Value) -> (r: Option<String>)
    ensures
        match highlight_in(json::tree(*hit)) {
            Some(s) => r matches Some(found) && found@ == s,
            None => r is None,
        },
{
    let highlight = match json::member(hit, "highlight") {
        Some(value) => value,
        None => {
            return None;
        },
    };
    let found = match json::member(highlight, "text") {
        Some(value) => value,
        None => {
            return None;
        },
    };
    let items = match found.as_array() {
        Some(items) => items,
        None => {
            return None;
        },
    };
    let ghost all = json::trees(items@);
    let mut fragments: Vec<String> = Vec::new();
    assert(text::views(fragments@) =~= texts_in(all.take(0)));
    for i in 0..items.len()
        invariant
            all == json::trees(items@),
            text::views(fragments@) == texts_in(all.take(i as int)),
    {
        let ghost before = fragments@;
        assert(all.take(i + 1).drop_last() =~= all.take(i as int));
        assert(all.take(i + 1).last() == json::tree(items@[i as int]));
        if let Some(s) = items[i].as_str() {
            fragments.push(text::owned(s));
            assert(text::views(fragments@) =~= text::views(before).push(s@));
        }
    }
    assert(all.take(all.len() as int) =~= all);
    let joined = text::join_texts(fragments.as_slice(), " … ");
    if joined.as_str().is_empty() {
        None
    } else {
        Some(joined)
    }
}

fn parse_hit(hit: &Value) -> (r: SearchHit)
    ensures
        r@ == hit_in(json::tree(*hit)),
{
    let score = match json::member(hit, "_score") {
        Some(score) => match json::as_real(score) {
            Some(x) => x,
            None => Binary64 { bits: 0 },
        },
        None => Binary64 { bits: 0 },
    };
    let source = json::member(hit, "_source");
    let title = match string_field(source, "title") {
        Some(s) => s,
        None => match string_field(source, "file_name") {
            Some(s) => s,
            None => text::owned("(無題)"),
        },
    };
    let path = match string_field(source, "path") {
        Some(s) => s,
        None => String::new(),
    };
    let page: u32 = match source {
        Some(source) => match json::member(source, "page") {
            Some(page) => match page.as_u64() {
                Some(n) => #[verifier::truncate]
                (n as u32),
                None => 1,
            },
            None => 1,
        },
        None => 1,
    };
    let snippet = match highlight_snippet(hit) {
        Some(s) => s,
        None => match string_field(source, "text") {
            Some(s) => text::truncate(s.as_str(), 220),
            None => String::new(),
        },
    };
    assert(path@ =~= hit_in(json::tree(*hit)).path);
    assert(snippet@ =~= hit_in(json::tree(*hit)).snippet);
    SearchHit { score, title, path, page, snippet }
}

fn best_of(hits: &[SearchHit]) -> (r: Binary64)
    ensures
        r == best_score(hit_views(hits@)),
{
    let ghost all = hit_views(hits@);
    let mut best = Binary64 { bits: 0 };
    for i in 0..hits.len()
        invariant
            all == hit_views(hits@),
            best == best_score(all.take(i as int)),
    {
        assert(all.take(i + 1).drop_last() =~= all.take(i as int));
        assert(all.take(i + 1).last() == hits@[i as int]@);
        best = best.max(hits[i].score);
    }
    assert(all.take(all.len() as int) =~= all);
    best
}

/// What an answer to a search says, once it is read as JSON.
pub fn read_search_response(value: &Value) -> (r: Result<SearchOutcome, String>)
    ensures
        outcome_result(r) == outcome_in(json::tree(*value)),
{
    let found = match json::member(value, "hits") {
        Some(found) => found,
        None => {
            return Err(text::owned("検索結果に hits がありません。"));
        },
    };
    let total = parse_total(json::member(found, "total"));
    let mut hits: Vec<SearchHit> = Vec::new();
    let ghost all = hits_in(json::member_of(json::tree(*found), "hits"@));
    assert(hit_views(hits@) =~= all.take(0));
    if let Some(list) = json::member(found, "hits") {
        if let Some(items) = list.as_array() {
            let ghost f = |hit: json::Tree| hit_in(hit);
            for i in 0..items.len()
                invariant
                    f == (|hit: json::Tree| hit_in(hit)),
                    all == json::trees(items@).map_values(f),
                    hit_views(hits@) == all.take(i as int),
            {
                let ghost before = hits@;
                hits.push(parse_hit(&items[i]));
                proof {
                    assert(json::trees(items@)[i as int] == json::tree(items@[i as int]));
                    assert(hit_views(hits@) =~= hit_views(before).push(all[i as int]));
                    assert(all.take(i + 1) =~= all.take(i as int).push(all[i as int]));
                }
            }
            assert(all.take(all.len() as int) =~= all);
        }
    }
    assert(hit_views(hits@) =~= all);
    let best = best_of(hits.as_slice());
    let max_score = match json::member(found, "max_score") {
        Some(score) => match json::as_real(score) {
            Some(x) => {
                if (Binary64 { bits: 0 }).less(x) {
                    x
                } else {
                    best
                }
            },
            None => best,
        },
        None => best,
    };
    Ok(SearchOutcome { total, max_score, hits })
}

pub open spec fn search_parse_error(err: Seq<char>) -> Seq<char> {
    "検索結果の JSON 解析に失敗しました: "@ + err
}

/// Reads an answer to a search.
pub fn parse_search_response(answer: &str) -> (r: Result<SearchOutcome, String>)
    ensures
        outcome_result(r) == match json::parsed(answer@) {
            Ok(t) => outcome_in(t),
            Err(err) => Err(search_parse_error(err)),
        },
{
    match json::parse(answer) {
        Ok(value) => read_search_response(&value),
        Err(err) => {
            let mut out = text::owned("検索結果の JSON 解析に失敗しました: ");
            out.append(err.as_str());
            Err(out)
        },
    }
}

/// The error that an item of an answer to a bulk request reports.
pub open spec fn item_error(item: json::Tree) -> Option<json::Tree> {
    in_member(json::member_of(item, "index"@), "error"@)
}

/// Whether an item was taken: its status is one of success.
pub open spec fn item_taken(item: json::Tree) -> bool {
    match in_member(json::member_of(item, "index"@), "status"@) {
        Some(json::Tree::Uint(n)) => 200 <= n < 300,
        _ => false,
    }
}

/// The first error that items report.
pub open spec fn first_error(items: Seq<json::Tree>) -> Option<json::Tree>
    decreases items.len(),
{
    if items.len() == 0 {
        None
    } else {
        match item_error(items[0]) {
            Some(err) => Some(err),
            None => first_error(items.skip(1)),
        }
    }
}

/// Whether a message tells of this error: by its reason, or by the whole of it, written as JSON,
/// where it gives none.
pub open spec fn tells_of(message: Seq<char>, err: json::Tree) -> bool {
    match text_member(Some(err), "reason"@) {
        Some(reason) => message == "一括登録エラー: "@ + reason,
        None => exists|value: Value| #[trigger]
            json::tree(value) == err && message == "一括登録エラー: "@ + json::rendered(value),
    }
}

/// Whether this is what an answer to a bulk request comes to. Without errors it is the number of
/// items, or `fallback` where none are given. With errors it is the number of items that were taken,
/// and where there are none, the first error.
pub open spec fn is_bulk_result(t: json::Tree, fallback: usize, r: Result<usize, String>) -> bool {
    let items = json::member_of(t, "items"@);
    if json::member_of(t, "errors"@) == Some(json::Tree::Bool(true)) {
        match items {
            Some(json::Tree::List(items)) => {
                let taken = items.filter(|item: json::Tree| item_taken(item)).len();
                if taken > 0 {
                    r matches Ok(n) && n == taken
                } else {
                    r matches Err(e) && match first_error(items) {
                        Some(err) => tells_of(e@, err),
                        None => e@ == "一括登録で一部エラーが発生しました"@,
                    }
                }
            },
            _ => r matches Err(e) && e@ == "一括登録で一部エラーが発生しました"@,
        }
    } else {
        match items {
            Some(json::Tree::List(items)) => r matches Ok(n) && n == items.len(),
            _ => r == Ok::<usize, String>(fallback),
        }
    }
}

fn describe_error(err: &Value) -> (r: String)
    ensures
        tells_of(r@, json::tree(*err)),
{
    let mut out = text::owned("一括登録エラー: ");
    match string_field(Some(err), "reason") {
        Some(reason) => out.append(reason.as_str()),
        None => {
            let whole = json::to_text(err);
            out.append(whole.as_str());
            assert(json::tree(*err) == json::tree(*err));
        },
    }
    out
}

fn find_error(items: &Vec<Value>) -> (r: Option<String>)
    ensures
        match first_error(json::trees(items@)) {
            Some(err) => r matches Some(message) && tells_of(message@, err),
            None => r is None,
        },
{
    let ghost all = json::trees(items@);
    assert(all.skip(0) =~= all);
    for i in 0..items.len()
        invariant
            all == json::trees(items@),
            first_error(all) == first_error(all.skip(i as int)),
    {
        assert(all.skip(i as int)[0] == json::tree(items@[i as int]));
        assert(all.skip(i as int).skip(1) =~= all.skip(i + 1));
        if let Some(index) = json::member(&items[i], "index") {
            if let Some(err) = json::member(index, "error") {
                return Some(describe_error(err));
            }
        }
    }
    None
}

fn was_taken(item: &Value) -> (r: bool)
    ensures
        r == item_taken(json::tree(*item)),
{
    match json::member(item, "index") {
        Some(index) => match json::member(index, "status") {
            Some(status) => match status.as_u64() {
                Some(n) => 200 <= n && n < 300,
                None => false,
            },
            None => false,
        },
        None => false,
    }
}

fn count_taken(items: &Vec<Value>) -> (r: usize)
    ensures
        r == json::trees(items@).filter(|item: json::Tree| item_taken(item)).len(),
{
    let ghost all = json::trees(items@);
    let ghost p = |item: json::Tree| item_taken(item);
    let mut n: usize = 0;
    for i in 0..items.len()
        invariant
            all == json::trees(items@),
            p == (|item: json::Tree| item_taken(item)),
            n == all.take(i as int).filter(p).len(),
            n <= i,
    {
        proof {
            all.take(i as int).lemma_filter_len_push(p, all[i as int]);
            assert(all.take(i + 1) =~= all.take(i as int).push(all[i as int]));
        }
        if was_taken(&items[i]) {
            n += 1;
        }
    }
    assert(all.take(all.len() as int) =~= all);
    n
}

/// What an answer to a bulk request comes to, once it is read as JSON.
pub fn read_bulk_response(value: &Value, fallback: usize) -> (r: Result<usize, String>)
    ensures
        is_bulk_result(json::tree(*value), fallback, r),
{
    let errors = match json::member(value, "errors") {
        Some(errors) => match errors.as_bool() {
            Some(errors) => errors,
            None => false,
        },
        None => false,
    };
    let items = match json::member(value, "items") {
        Some(items) => items.as_array(),
        None => None,
    };
    match items {
        Some(items) => {
            assert(json::trees(items@).len() == items@.len());
            if !errors {
                return Ok(items.len());
            }
            let taken = count_taken(items);
            if taken > 0 {
                return Ok(taken);
            }
            match find_error(items) {
                Some(message) => Err(message),
                None => Err(text::owned("一括登録で一部エラーが発生しました")),
            }
        },
        None => {
            if errors {
                Err(text::owned("一括登録で一部エラーが発生しました"))
            } else {
                Ok(fallback)
            }
        },
    }
}

/// Reads an answer to a bulk request.
pub fn parse_bulk_indexed(answer: &str, fallback: usize) -> (r: Result<usize, String>)
    ensures
        match json::parsed(answer@) {
            Ok(t) => is_bulk_result(t, fallback, r),
            Err(err) => r matches Err(e) && e@ == "一括登録の JSON 解析に失敗しました: "@ + err,
        },
{
    match json::parse(answer) {
        Ok(value) => read_bulk_response(&value, fallback),
        Err(err) => {
            let mut out = text::owned("一括登録の JSON 解析に失敗しました: ");
            out.append(err.as_str());
            Err(out)
        },
    }
}

/// An answer to a request: whether it reports success, its status, and its body, if it could be
/// read.
#[derive(Debug)]
pub struct Reply {
    pub success: bool,
    pub status: String,
    pub body: Result<String, String>,
}

/// A refusal, with the beginning of the body.
pub open spec fn refusal(what: Seq<char>, status: Seq<char>, body: Seq<char>) -> Seq<char> {
    what + " ("@ + status + "): "@ + text::shortened(body, 400)
}

fn describe_refusal(what: &str, status: &str, body: &str) -> (r: String)
    ensures
        r@ == refusal(what@, status@, body@),
{
    let mut out = text::owned(what);
    out.append(" (");
    out.append(status);
    out.append("): ");
    let beginning = text::truncate(body, 400);
    out.append(beginning.as_str());
    out
}

fn with_detail(what: &str, detail: &str) -> (r: String)
    ensures
        r@ == what@ + detail@,
{
    let mut out = text::owned(what);
    out.append(detail);
    out
}

/// What a search comes to, from its answer or the failure to get one.
pub fn post_search(reply: Result<Reply, String>) -> (r: Result<SearchOutcome, String>)
    ensures
        outcome_result(r) == match reply {
            Ok(reply) => match reply.body {
                Ok(body) => if reply.success {
                    match json::parsed(body@) {
                        Ok(t) => outcome_in(t),
                        Err(err) => Err(search_parse_error(err)),
                    }
                } else {
                    Err(refusal("検索が拒否されました"@, reply.status@, body@))
                },
                Err(err) => Err("検索レスポンスを読めません: "@ + err@),
            },
            Err(err) => Err("OpenSearch 検索に失敗しました: "@ + err@),
        },
{
    match reply {
        Ok(reply) => match reply.body {
            Ok(body) => {
                if !reply.success {
                    return Err(
                        describe_refusal(
                            "検索が拒否されました",
                            reply.status.as_str(),
                            body.as_str(),
                        ),
                    );
                }
                parse_search_response(body.as_str())
            },
            Err(err) => Err(with_detail("検索レスポンスを読めません: ", err.as_str())),
        },
        Err(err) => Err(with_detail("OpenSearch 検索に失敗しました: ", err.as_str())),
    }
}

/// How many chunks of a batch were taken, from the answer or the failure to get one.
pub fn bulk_index(reply: Result<Reply, String>, batch: usize) -> (r: Result<usize, String>)
    ensures
        match reply {
            Ok(reply) => match reply.body {
                Ok(body) => if reply.success {
                    match json::parsed(body@) {
                        Ok(t) => is_bulk_result(t, batch, r),
                        Err(err) => r matches Err(e) && e@
                            == "一括登録の JSON 解析に失敗しました: "@ + err,
                    }
                } else {
                    r matches Err(e) && e@ == refusal(
                        "一括登録が拒否されました"@,
                        reply.status@,
                        body@,
                    )
                },
                Err(err) => r matches Err(e) && e@ == "一括登録の応答を読めません: "@ + err@,
            },
            Err(err) => r matches Err(e) && e@ == "一括登録に失敗しました: "@ + err@,
        },
{
    match reply {
        Ok(reply) => match reply.body {
            Ok(body) => {
                if !reply.success {
                    return Err(
                        describe_refusal(
                            "一括登録が拒否されました",
                            reply.status.as_str(),
                            body.as_str(),
                        ),
                    );
                }
                parse_bulk_indexed(body.as_str(), batch)
            },
            Err(err) => Err(with_detail("一括登録の応答を読めません: ", err.as_str())),
        },
        Err(err) => Err(with_detail("一括登録に失敗しました: ", err.as_str())),
    }
}

/// The body of an answer, which is empty where it could not be read.
pub open spec fn body_or_empty(reply: Reply) -> Seq<char> {
    match reply.body {
        Ok(body) => body@,
        Err(_) => Seq::empty(),
    }
}

fn take_body(body: Result<String, String>) -> (r: String)
    ensures
        r@ == match body {
            Ok(body) => body@,
            Err(_) => Seq::empty(),
        },
{
    match body {
        Ok(body) => body,
        Err(_) => {
            let empty = String::new();
            assert(empty@ =~= Seq::empty());
            empty
        },
    }
}

/// What is left to do for an index.
#[derive(Debug, Clone, Copy, PartialEq, Eq, Structural)]
pub enum IndexStep {
    /// It is to be made.
    Create,
    /// It is there, and is to get its vectors.
    Extend,
    /// Nothing.
    Ready,
}

/// Whether an index is there, from the answer to the question for it or the failure to get one.
pub fn after_index_check(found: Result<bool, String>) -> (r: Result<IndexStep, String>)
    ensures
        match found {
            Ok(found) => r == Ok::<IndexStep, String>(
                if found {
                    IndexStep::Extend
                } else {
                    IndexStep::Create
                },
            ),
            Err(err) => r matches Err(e) && e@ == "インデックス確認に失敗しました: "@ + err@,
        },
{
    match found {
        Ok(found) => {
            if found {
                Ok(IndexStep::Extend)
            } else {
                Ok(IndexStep::Create)
            }
        },
        Err(err) => Err(with_detail("インデックス確認に失敗しました: ", err.as_str())),
    }
}

/// What became of the attempt to make an index. One that was made meanwhile is taken as it is.
pub fn after_index_creation(index: &str, reply: Result<Reply, String>) -> (r: Result<
    IndexStep,
    String,
>)
    ensures
        match reply {
            Ok(reply) => if reply.success {
                r == Ok::<IndexStep, String>(IndexStep::Ready)
            } else if text::holds_text(
                body_or_empty(reply),
                "resource_already_exists_exception"@,
            ) {
                r == Ok::<IndexStep, String>(IndexStep::Extend)
            } else {
                r matches Err(e) && e@ == refusal(
                    "インデックス '"@ + index@ + "' を作成できません"@,
                    reply.status@,
                    body_or_empty(reply),
                )
            },
            Err(err) => r matches Err(e) && e@ == "インデックス作成に失敗しました: "@ + err@,
        },
{
    match reply {
        Ok(reply) => {
            let body = take_body(reply.body);
            if reply.success {
                return Ok(IndexStep::Ready);
            }
            if text::contains_text(body.as_str(), "resource_already_exists_exception") {
                return Ok(IndexStep::Extend);
            }
            let mut what = text::owned("インデックス '");
            what.append(index);
            what.append("' を作成できません");
            Err(describe_refusal(what.as_str(), reply.status.as_str(), body.as_str()))
        },
        Err(err) => Err(with_detail("インデックス作成に失敗しました: ", err.as_str())),
    }
}

/// What became of a change to an index.
pub fn send_json(reply: Result<Reply, String>) -> (r: Result<(), String>)
    ensures
        match reply {
            Ok(reply) => if reply.success {
                r is Ok
            } else {
                r matches Err(e) && e@ == reply.status@ + ": "@ + text::shortened(
                    body_or_empty(reply),
                    400,
                )
            },
            Err(err) => r matches Err(e) && e@ == "OpenSearch への PUT に失敗しました: "@ + err@,
        },
{
    match reply {
        Ok(reply) => {
            if reply.success {
                return Ok(());
            }
            let body = take_body(reply.body);
            let mut out = reply.status;
            out.append(": ");
            let beginning = text::truncate(body.as_str(), 400);
            out.append(beginning.as_str());
            Err(out)
        },
        Err(err) => Err(with_detail("OpenSearch への PUT に失敗しました: ", err.as_str())),
    }
}

/// The line for the log where the settings of an index that is there could not be changed.
pub fn settings_skipped_line(err: &str) -> (r: String)
    ensures
        r@ == "既存インデックスの kNN 設定更新をスキップしました: "@ + err@,
{
    with_detail("既存インデックスの kNN 設定更新をスキップしました: ", err)
}

/// What became of the attempt to give an index that is there a field for vectors.
pub fn after_field_added(sent: Result<(), String>) -> (r: Result<(), String>)
    ensures
        match sent {
            Ok(_) => r is Ok,
            Err(err) => r matches Err(e) && e@
                == "既存インデックスにベクトルフィールドを追加できません。インデックスを削除して「PDFをOpenSearchに登録」をやり直してください: "@
                + err@,
        },
{
    match sent {
        Ok(_) => Ok(()),
        Err(err) => Err(
            with_detail(
                "既存インデックスにベクトルフィールドを追加できません。インデックスを削除して「PDFをOpenSearchに登録」をやり直してください: ",
                err.as_str(),
            ),
        ),
    }
}

proof fn lemma_best_score(hits: Seq<HitView>, i: int)
    requires
        0 <= i < hits.len(),
        forall|k: int|
            0 <= k < hits.len() ==> !crate::ieee::is_nan(52, (#[trigger] hits[k]).score.number()),
    ensures
        !crate::ieee::is_nan(52, best_score(hits).number()),
        hits[i].score.spec_at_most(best_score(hits)),
        zero().spec_at_most(best_score(hits)),
    decreases hits.len(),
{
    crate::ieee::lemma_nearest_bounded(52, 0, 1);
    let front = hits.drop_last();
    assert forall|k: int| 0 <= k < front.len() implies !crate::ieee::is_nan(
        52,
        (#[trigger] front[k]).score.number(),
    ) by {
        assert(front[k] == hits[k]);
    }
    assert(hits[hits.len() - 1] == hits.last());
    if front.len() > 0 {
        lemma_best_score(front, 0);
        if i < front.len() {
            lemma_best_score(front, i);
            assert(front[i] == hits[i]);
        }
    }
}

/// No hit has a score above the best one, and where none is given, the best one is at least 0.
pub proof fn best_score_is_the_best(hits: Seq<HitView>, i: int)
    requires
        0 <= i < hits.len(),
        forall|k: int|
            0 <= k < hits.len() ==> !crate::ieee::is_nan(52, (#[trigger] hits[k]).score.number()),
    ensures
        hits[i].score.spec_at_most(best_score(hits)),
        zero().spec_at_most(best_score(hits)),
{
    lemma_best_score(hits, i);
}

/// A hit is shown with the title of its source, or else with its file name, or else as one without a
/// title; with its path, or none; with its page, or the first; and with its score, or 0.
pub proof fn hits_say_what_their_source_says(hit: json::Tree, source: json::Tree)
    requires
        json::member_of(hit, "_source"@) == Some(source),
    ensures
        json::member_of(source, "title"@) matches Some(json::Tree::Text(title)) ==> hit_in(hit).title
            == title,
        json::member_of(source, "title"@) is None ==> (json::member_of(
            source,
            "file_name"@,
        ) matches Some(json::Tree::Text(name)) ==> hit_in(hit).title == name),
        json::member_of(source, "title"@) is None && json::member_of(source, "file_name"@) is None
            ==> hit_in(hit).title == "(無題)"@,
        json::member_of(source, "path"@) matches Some(json::Tree::Text(path)) ==> hit_in(hit).path
            == path,
        json::member_of(source, "path"@) is None ==> hit_in(hit).path.len() == 0,
        json::member_of(source, "page"@) matches Some(json::Tree::Uint(page)) ==> page <= u32::MAX
            ==> hit_in(hit).page == page,
        json::member_of(source, "page"@) is None ==> hit_in(hit).page == 1,
        json::member_of(hit, "_score"@) matches Some(json::Tree::Real(score)) ==> hit_in(hit).score
            == score,
        json::member_of(hit, "_score"@) is None ==> hit_in(hit).score == (Binary64 { bits: 0 }),
{
}

/// What was highlighted is shown before the beginning of the text: the fragments, with an ellipsis
/// between them.
pub proof fn highlights_are_shown_first(
    hit: json::Tree,
    highlight: json::Tree,
    first: Seq<char>,
    second: Seq<char>,
)
    requires
        json::member_of(hit, "highlight"@) == Some(highlight),
        first.len() > 0,
    ensures
        json::member_of(highlight, "text"@) == Some(json::Tree::List(seq![json::Tree::Text(first)]))
            ==> hit_in(hit).snippet == first,
        json::member_of(highlight, "text"@) == Some(
            json::Tree::List(seq![json::Tree::Text(first), json::Tree::Text(second)]),
        ) ==> hit_in(hit).snippet == first + " … "@ + second,
{
    let one = seq![json::Tree::Text(first)];
    let two = seq![json::Tree::Text(first), json::Tree::Text(second)];
    reveal_with_fuel(texts_in, 3);
    assert(one.drop_last() =~= Seq::empty());
    assert(two.drop_last() =~= one);
    assert(texts_in(one) =~= seq![first]);
    assert(texts_in(two) =~= seq![first, second]);
    reveal_with_fuel(text::joined, 3);
    assert(seq![first].drop_last() =~= Seq::empty());
    assert(seq![first, second].drop_last() =~= seq![first]);
    assert(text::joined(seq![first], " … "@) =~= first);
    assert(text::joined(seq![first, second], " … "@) =~= first + " … "@ + second);
}

/// The texts in a list are those of its parts, one behind another; what is no text is left out.
pub proof fn texts_are_picked_in_order(items: Seq<json::Tree>, more: Seq<json::Tree>, s: Seq<char>)
    ensures
        texts_in(items + more) == texts_in(items) + texts_in(more),
        texts_in(seq![json::Tree::Text(s)]) == seq![s],
        texts_in(seq![json::Tree::Null]).len() == 0,
    decreases more.len(),
{
    reveal_with_fuel(texts_in, 2);
    assert(seq![json::Tree::Text(s)].drop_last() =~= Seq::empty());
    assert(seq![json::Tree::Null].drop_last() =~= Seq::empty());
    assert(texts_in(seq![json::Tree::Text(s)]) =~= seq![s]);
    if more.len() == 0 {
        assert(items + more =~= items);
        assert(texts_in(items) + texts_in(more) =~= texts_in(items));
    } else {
        texts_are_picked_in_order(items, more.drop_last(), s);
        assert((items + more).drop_last() =~= items + more.drop_last());
        assert((items + more).last() == more.last());
        assert(texts_in(items + more) =~= texts_in(items) + texts_in(more));
    }
}

/// An answer to a search gives its hits in their order, with how many documents there are, in either
/// form, and with the best score, as it is given where it is above 0 and else as that of its hits.
/// One without hits in it is an error.
pub proof fn answers_are_read_in_full(answer: json::Tree, found: json::Tree)
    ensures
        json::member_of(answer, "hits"@) is None <==> outcome_in(answer) is Err,
        json::member_of(answer, "hits"@) is None ==> outcome_in(answer) == Err::<
            OutcomeView,
            Seq<char>,
        >("検索結果に hits がありません。"@),
        json::member_of(answer, "hits"@) == Some(found) ==> ({
            let outcome = outcome_in(answer)->Ok_0;
            let total = json::member_of(found, "total"@);
            let best = json::member_of(found, "max_score"@);
            &&& json::member_of(found, "hits"@) matches Some(json::Tree::List(hits)) ==> {
                &&& outcome.hits.len() == hits.len()
                &&& forall|i: int|
                    0 <= i < hits.len() ==> #[trigger] outcome.hits[i] == hit_in(hits[i])
            }
            &&& json::member_of(found, "hits"@) is None ==> outcome.hits.len() == 0
            &&& total matches Some(json::Tree::Uint(n)) ==> outcome.total == n
            &&& in_member(total, "value"@) matches Some(json::Tree::Uint(n)) ==> outcome.total == n
            &&& !(total matches Some(json::Tree::Uint(_))) && in_member(total, "value"@) is None
                ==> outcome.total == 0
            &&& best matches Some(t) ==> json::real_of(t) matches Some(x) ==> (Binary64 {
                bits: 0,
            }).spec_less(x) ==> outcome.max_score == x
            &&& best matches Some(t) ==> json::real_of(t) matches Some(x) ==> !(Binary64 {
                bits: 0,
            }).spec_less(x) ==> outcome.max_score == best_score(outcome.hits)
            &&& best is None || best == Some(json::Tree::Null) ==> outcome.max_score == best_score(
                outcome.hits,
            )
        }),
{
}

proof fn lemma_best_is_one_of_them(hits: Seq<HitView>)
    ensures
        best_score(hits) == (Binary64 { bits: 0 }) || exists|i: int|
            0 <= i < hits.len() && best_score(hits) == (#[trigger] hits[i]).score,
    decreases hits.len(),
{
    if hits.len() > 0 {
        let front = hits.drop_last();
        lemma_best_is_one_of_them(front);
        assert(hits[hits.len() - 1] == hits.last());
        if best_score(front) != (Binary64 { bits: 0 }) {
            let i = choose|i: int|
                0 <= i < front.len() && best_score(front) == (#[trigger] front[i]).score;
            assert(hits[i] == front[i]);
        }
    }
}

/// The best score of hits is the score of one of them, or 0.
pub proof fn the_best_score_is_that_of_a_hit(hits: Seq<HitView>)
    ensures
        best_score(hits) == (Binary64 { bits: 0 }) || exists|i: int|
            0 <= i < hits.len() && best_score(hits) == (#[trigger] hits[i]).score,
        hits.len() == 0 ==> best_score(hits) == (Binary64 { bits: 0 }),
{
    lemma_best_is_one_of_them(hits);
}

/// An item was taken where its status is one of the two hundreds.
pub proof fn success_is_a_status_of_two_hundred(item: json::Tree, status: u64)
    requires
        in_member(json::member_of(item, "index"@), "status"@) == Some(json::Tree::Uint(status)),
    ensures
        item_taken(item) <==> status / 100 == 2,
{
}

/// The first error of items is that of the first of them that has one.
pub proof fn errors_are_looked_for_from_the_front(items: Seq<json::Tree>, i: int, err: json::Tree)
    ensures
        (0 <= i < items.len() && item_error(items[i]) == Some(err) && forall|k: int|
            0 <= k < i ==> item_error(#[trigger] items[k]) is None) ==> first_error(items) == Some(
            err,
        ),
        (forall|k: int| 0 <= k < items.len() ==> item_error(#[trigger] items[k]) is None) ==>
            first_error(items) is None,
    decreases items.len(),
{
    if items.len() > 0 {
        let rest = items.skip(1);
        errors_are_looked_for_from_the_front(rest, i - 1, err);
        if forall|k: int| 0 <= k < items.len() ==> item_error(#[trigger] items[k]) is None {
            assert forall|k: int| 0 <= k < rest.len() implies item_error(
                #[trigger] rest[k],
            ) is None by {
                assert(rest[k] == items[k + 1]);
            }
            assert(item_error(items[0]) is None);
        }
        if 0 < i < items.len() && item_error(items[i]) == Some(err) && forall|k: int|
            0 <= k < i ==> item_error(#[trigger] items[k]) is None {
            assert(item_error(items[0]) is None);
            assert(rest[i - 1] == items[i]);
            assert forall|k: int| 0 <= k < i - 1 implies item_error(#[trigger] rest[k]) is None by {
                assert(rest[k] == items[k + 1]);
            }
        }
    }
}

/// What an answer to a bulk request comes to: without errors as many as there are items; with errors
/// as many as have a status of success; and where none has, the reason of the first item that gives
/// one.
pub proof fn bulk_results_count_what_was_taken(
    answer: json::Tree,
    items: Seq<json::Tree>,
    fallback: usize,
    r: Result<usize, String>,
)
    requires
        is_bulk_result(answer, fallback, r),
        json::member_of(answer, "items"@) == Some(json::Tree::List(items)),
    ensures
        ({
            let failed = json::member_of(answer, "errors"@) == Some(json::Tree::Bool(true));
            let taken = items.filter(
                |item: json::Tree|
                    {
                        let status = in_member(json::member_of(item, "index"@), "status"@);
                        status is Some && status.unwrap() is Uint && 200
                            <= json::uint_of(status.unwrap()).unwrap() <= 299
                    },
            ).len();
            &&& !failed ==> r == Ok::<usize, String>(items.len() as usize)
            &&& failed && taken > 0 ==> (r matches Ok(n) && n == taken)
            &&& failed && taken == 0 ==> r is Err
            &&& forall|i: int, reason: Seq<char>|
                failed && taken == 0 && 0 <= i < items.len() && (forall|k: int|
                    0 <= k < i ==> in_member(
                        json::member_of(#[trigger] items[k], "index"@),
                        "error"@,
                    ) is None) && #[trigger] text_member(
                    in_member(json::member_of(items[i], "index"@), "error"@),
                    "reason"@,
                ) == Some(reason) ==> r->Err_0@ == #[trigger] ("一括登録エラー: "@ + reason)
        }),
{
    let failed = json::member_of(answer, "errors"@) == Some(json::Tree::Bool(true));
    let p = |item: json::Tree|
        {
            let status = in_member(json::member_of(item, "index"@), "status"@);
            status is Some && status.unwrap() is Uint && 200 <= json::uint_of(
                status.unwrap(),
            ).unwrap() <= 299
        };
    let q = |item: json::Tree| item_taken(item);
    assert forall|item: json::Tree| #[trigger] p(item) == q(item) by {}
    assert(p =~= q);
    assert forall|i: int, reason: Seq<char>|
        failed && items.filter(p).len() == 0 && 0 <= i < items.len() && (forall|k: int|
            0 <= k < i ==> in_member(
                json::member_of(#[trigger] items[k], "index"@),
                "error"@,
            ) is None) && #[trigger] text_member(
            in_member(json::member_of(items[i], "index"@), "error"@),
            "reason"@,
        ) == Some(reason) implies r->Err_0@ == #[trigger] ("一括登録エラー: "@ + reason) by {
        let err = in_member(json::member_of(items[i], "index"@), "error"@)->Some_0;
        assert(item_error(items[i]) == Some(err));
        assert forall|k: int| 0 <= k < i implies item_error(#[trigger] items[k]) is None by {}
        errors_are_looked_for_from_the_front(items, i, err);
    }
}

/// A refusal says what was refused, with which status, and up to 400 characters of the body.
pub proof fn refusals_show_what_was_refused(what: Seq<char>, status: Seq<char>, body: Seq<char>)
    ensures
        body.len() <= 400 ==> refusal(what, status, body) == what + " ("@ + status + "): "@ + body,
        body.len() > 400 ==> refusal(what, status, body) == (what + " ("@ + status + "): "@
            + body.take(400)).push('\u{2026}'),
{
    if body.len() > 400 {
        assert(refusal(what, status, body) =~= (what + " ("@ + status + "): "@ + body.take(
            400,
        )).push('\u{2026}'));
    }
}

/// A hit and an outcome stand for what their fields hold.
pub proof fn hits_stand_for_their_fields(hit: SearchHit, outcome: SearchOutcome)
    ensures
        hit@.score == hit.score && hit@.title == hit.title@ && hit@.path == hit.path@ && hit@.page
            == hit.page && hit@.snippet == hit.snippet@,
        outcome@.total == outcome.total && outcome@.max_score == outcome.max_score,
        outcome@.hits.len() == outcome.hits@.len(),
        forall|i: int|
            0 <= i < outcome.hits@.len() ==> #[trigger] outcome@.hits[i] == outcome.hits@[i]@,
{
}

/// A score is read whether it is whole or not, and as 0 where it is no number.
pub proof fn scores_are_read_in_every_form(hit: json::Tree, n: u64, x: Binary64)
    ensures
        json::member_of(hit, "_score"@) == Some(json::Tree::Uint(n)) ==> hit_in(hit).score
            == Binary64::spec_from_whole(n as nat),
        json::member_of(hit, "_score"@) == Some(json::Tree::Real(x)) ==> hit_in(hit).score == x,
        json::member_of(hit, "_score"@) == Some(json::Tree::Null) ==> hit_in(hit).score == (
        Binary64 { bits: 0 }),
{
}

/// The body of an answer is what was read of it, and empty where it could not be read; an error in
/// bulk is told by its reason.
pub proof fn answers_are_told_by_their_bodies(
    reply: Reply,
    err: json::Tree,
    reason: Seq<char>,
    message: Seq<char>,
)
    ensures
        match reply.body {
            Ok(body) => body_or_empty(reply) == body@,
            Err(_) => body_or_empty(reply).len() == 0,
        },
        json::member_of(err, "reason"@) == Some(json::Tree::Text(reason)) ==> (tells_of(
            message,
            err,
        ) <==> message == "一括登録エラー: "@ + reason),
        search_parse_error(reason) == "検索結果の JSON 解析に失敗しました: "@ + reason,
{
}

proof fn lemma_texts(texts: Seq<Seq<char>>)
    ensures
        texts_in(texts.map_values(|s: Seq<char>| json::Tree::Text(s))) == texts,
    decreases texts.len(),
{
    let items = texts.map_values(|s: Seq<char>| json::Tree::Text(s));
    if texts.len() > 0 {
        let front = texts.drop_last();
        lemma_texts(front);
        assert(items.drop_last() =~= front.map_values(|s: Seq<char>| json::Tree::Text(s)));
        assert(items.last() == json::Tree::Text(texts.last()));
        assert(front.push(texts.last()) =~= texts);
    } else {
        assert(texts_in(items) =~= texts);
    }
}

/// All fragments that were highlighted are shown, with an ellipsis between them. Where they hold
/// nothing, and where there are none, the beginning of the text is shown, and nothing where there is
/// no text.
pub proof fn snippets_show_what_there_is(
    hit: json::Tree,
    highlight: json::Tree,
    texts: Seq<Seq<char>>,
    source: json::Tree,
)
    requires
        json::member_of(hit, "highlight"@) == Some(highlight),
        json::member_of(hit, "_source"@) == Some(source),
        json::member_of(highlight, "text"@) == Some(
            json::Tree::List(texts.map_values(|s: Seq<char>| json::Tree::Text(s))),
        ) || (texts.len() == 0 && json::member_of(highlight, "text"@) is None),
    ensures
        ({
            let shown = text::joined(texts, " … "@);
            let beginning = json::member_of(source, "text"@);
            &&& shown.len() > 0 ==> hit_in(hit).snippet == shown
            &&& shown.len() == 0 && beginning is None ==> hit_in(hit).snippet.len() == 0
            &&& shown.len() == 0 ==> (beginning matches Some(json::Tree::Text(s)) ==> s.len() <= 220
                ==> hit_in(hit).snippet == s)
        }),
{
    lemma_texts(texts);
}

/// An answer to a bulk request without a list of items counts as one for all that was sent, unless
/// it reports errors; one that reports errors of which no item tells is told of as such.
pub proof fn bulk_results_without_items(
    answer: json::Tree,
    items: Seq<json::Tree>,
    fallback: usize,
    r: Result<usize, String>,
)
    requires
        is_bulk_result(answer, fallback, r),
    ensures
        ({
            let failed = json::member_of(answer, "errors"@) == Some(json::Tree::Bool(true));
            let none_given = json::member_of(answer, "items"@) is None;
            let none_tells = json::member_of(answer, "items"@) == Some(json::Tree::List(items))
                && forall|k: int|
                0 <= k < items.len() ==> json::member_of(#[trigger] items[k], "index"@) is None;
            &&& !failed && none_given ==> r == Ok::<usize, String>(fallback)
            &&& failed && (none_given || none_tells) ==> (r matches Err(e) && e@
                == "一括登録で一部エラーが発生しました"@)
        }),
{
    if json::member_of(answer, "items"@) == Some(json::Tree::List(items)) && forall|k: int|
        0 <= k < items.len() ==> json::member_of(#[trigger] items[k], "index"@) is None {
        let p = |item: json::Tree| item_taken(item);
        if items.filter(p).len() > 0 {
            items.lemma_filter_pred(p, 0);
            crate::pdf::lemma_filter_source(items, p, 0);
            let k = choose|k: int| 0 <= k < items.len() && items[k] == items.filter(p)[0];
            assert(json::member_of(items[k], "index"@) is None);
            assert(p(items.filter(p)[0]));
        }
        assert forall|k: int| 0 <= k < items.len() implies item_error(#[trigger] items[k]) is None by {
            assert(json::member_of(items[k], "index"@) is None);
        }
        errors_are_looked_for_from_the_front(items, 0, answer);
    }
}

} // verus!
