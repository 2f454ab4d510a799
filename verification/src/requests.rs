//! What is sent to OpenSearch.
use crate::blocks;
use crate::embedding;
use crate::embedding::EMBEDDING_DIM;
use crate::json;
use crate::pdf;
use crate::pdf::PdfChunk;
use crate::replies;
use crate::settings::OpenSearchSettings;
use crate::snippets;
use crate::text;
use serde_json::Value;
use vstd::prelude::*;
use vstd::string::StringExecFns;

verus! {

/// How many documents a search shows.
pub const SEARCH_SIZE: u64 = 10;

/// Hexadecimal SHA-256.
pub uninterp spec fn sha256(bytes: Seq<u8>) -> Seq<char>;

pub open spec fn is_hex_digit(c: char) -> bool {
    ('0' <= c <= '9') || ('a' <= c <= 'f')
}

/// `sha2::Sha256::digest`, written in hexadecimal. The digest is named by [`sha256`]; it has 64
/// digits.
#[verifier::external_body]
fn sha256_hex(bytes: &[u8]) -> (r: String)
    ensures
        r@ == sha256(bytes@),
        r@.len() == 64,
        forall|i: int| 0 <= i < r@.len() ==> is_hex_digit(#[trigger] r@[i]),
{
    format!("{:x}", <sha2::Sha256 as sha2::Digest>::digest(bytes))
}

/// A number as four bytes, the lowest first.
pub open spec fn four_bytes(n: u32) -> Seq<u8> {
    seq![
        (n % 0x100) as u8,
        (n / 0x100 % 0x100) as u8,
        (n / 0x1_0000 % 0x100) as u8,
        (n / 0x100_0000) as u8,
    ]
}

/// The bytes that stand for a chunk: its path, a zero, its page and its number.
pub open spec fn chunk_key(path: Seq<char>, page: u32, chunk: u32) -> Seq<u8> {
    vstd::utf8::encode_utf8(path).push(0) + four_bytes(page) + four_bytes(chunk)
}

fn push_number(out: &mut Vec<u8>, n: u32)
    ensures
        final(out)@ == old(out)@ + four_bytes(n),
{
    out.push((n % 0x100) as u8);
    out.push((n / 0x100 % 0x100) as u8);
    out.push((n / 0x1_0000 % 0x100) as u8);
    out.push((n / 0x100_0000) as u8);
    assert(out@ =~= old(out)@ + four_bytes(n));
}

/// The name under which a chunk is kept, which rests on its path, page and number alone.
pub fn document_id(chunk: &PdfChunk) -> (r: String)
    ensures
        r@ == sha256(chunk_key(chunk.path@, chunk.page, chunk.chunk)),
        r@.len() == 64,
        forall|i: int| 0 <= i < r@.len() ==> is_hex_digit(#[trigger] r@[i]),
{
    let path = chunk.path.as_str().as_bytes();
    let mut key: Vec<u8> = Vec::new();
    for i in 0..path.len()
        invariant
            key@ == path@.take(i as int),
    {
        key.push(path[i]);
        assert(path@.take(i + 1) =~= path@.take(i as int).push(path@[i as int]));
    }
    assert(path@.take(path@.len() as int) =~= path@);
    key.push(0);
    push_number(&mut key, chunk.page);
    push_number(&mut key, chunk.chunk);
    assert(key@ =~= chunk_key(chunk.path@, chunk.page, chunk.chunk));
    sha256_hex(key.as_slice())
}

proof fn lemma_four_bytes(a: u32, b: u32)
    requires
        four_bytes(a) == four_bytes(b),
    ensures
        a == b,
{
    let x = four_bytes(a);
    let y = four_bytes(b);
    assert(x[0] == y[0] && x[1] == y[1] && x[2] == y[2] && x[3] == y[3]);
}

/// Chunks that differ in path, page or number are told apart by the bytes that stand for them.
pub proof fn keys_tell_chunks_apart(
    path: Seq<char>,
    page: u32,
    chunk: u32,
    other_path: Seq<char>,
    other_page: u32,
    other_chunk: u32,
)
    requires
        chunk_key(path, page, chunk) == chunk_key(other_path, other_page, other_chunk),
    ensures
        path == other_path,
        page == other_page,
        chunk == other_chunk,
{
    let a = chunk_key(path, page, chunk);
    let b = chunk_key(other_path, other_page, other_chunk);
    let p = vstd::utf8::encode_utf8(path);
    let q = vstd::utf8::encode_utf8(other_path);
    let n = p.len() as int;
    assert(a.len() == n + 9 && b.len() == q.len() + 9);
    assert(p =~= a.take(n));
    assert(q =~= b.take(n));
    assert(four_bytes(page) =~= a.subrange(n + 1, n + 5));
    assert(four_bytes(other_page) =~= b.subrange(n + 1, n + 5));
    assert(four_bytes(chunk) =~= a.subrange(n + 5, n + 9));
    assert(four_bytes(other_chunk) =~= b.subrange(n + 5, n + 9));
    lemma_four_bytes(page, other_page);
    lemma_four_bytes(chunk, other_chunk);
    vstd::utf8::encode_utf8_decode_utf8(path);
    vstd::utf8::encode_utf8_decode_utf8(other_path);
}

/// Whether two texts of bytes share their SHA-256 though they differ.
pub open spec fn collide(a: Seq<u8>, b: Seq<u8>) -> bool {
    a != b && sha256(a) == sha256(b)
}

/// Chunks that share path, page and number are kept under one name. Chunks that do not are kept
/// under different names, but for bytes that differ and yet share their SHA-256.
pub proof fn names_tell_chunks_apart(
    path: Seq<char>,
    page: u32,
    chunk: u32,
    other_path: Seq<char>,
    other_page: u32,
    other_chunk: u32,
)
    ensures
        ({
            let a = chunk_key(path, page, chunk);
            let b = chunk_key(other_path, other_page, other_chunk);
            let same = path == other_path && page == other_page && chunk == other_chunk;
            &&& same ==> sha256(a) == sha256(b)
            &&& !same ==> a != b && (sha256(a) != sha256(b) || collide(a, b))
        }),
{
    if chunk_key(path, page, chunk) == chunk_key(other_path, other_page, other_chunk) {
        keys_tell_chunks_apart(path, page, chunk, other_path, other_page, other_chunk);
    }
}

/// The line that announces a document.
pub open spec fn action_tree(index: Seq<char>, id: Seq<char>) -> json::Tree {
    json::Tree::Object(
        map![
            "index"@ => json::Tree::Object(
                map![
                    "_index"@ => json::Tree::Text(index),
                    "_id"@ => json::Tree::Text(id),
                ],
            ),
        ],
    )
}

/// A document without its vector.
pub open spec fn source_members(chunk: pdf::ChunkView, ingested_at: Seq<char>) -> Map<
    Seq<char>,
    json::Tree,
> {
    map![
        "title"@ => json::Tree::Text(chunk.title),
        "file_name"@ => json::Tree::Text(chunk.file_name),
        "path"@ => json::Tree::Text(chunk.path),
        "page"@ => json::Tree::Uint(chunk.page as u64),
        "chunk"@ => json::Tree::Uint(chunk.chunk as u64),
        "text"@ => json::Tree::Text(chunk.text),
        "ingested_at"@ => json::Tree::Text(ingested_at),
    ]
}

/// A document, with its vector if it has one.
pub open spec fn source_tree(
    chunk: pdf::ChunkView,
    ingested_at: Seq<char>,
    embedding: Option<json::Tree>,
) -> json::Tree {
    let members = source_members(chunk, ingested_at);
    json::Tree::Object(
        match embedding {
            Some(vector) => members.insert("embedding"@, vector),
            None => members,
        },
    )
}

fn action(index: &str, id: &str) -> (r: Value)
    ensures
        json::tree(r) == action_tree(index@, id@),
{
    let inner = json::Members::new().with("_index", json::from_text(index)).with(
        "_id",
        json::from_text(id),
    ).object();
    json::Members::new().with("index", inner).object()
}

fn source(chunk: &PdfChunk, ingested_at: &str, embedding: Option<&Value>) -> (r: Value)
    ensures
        json::tree(r) == source_tree(
            chunk@,
            ingested_at@,
            match embedding {
                Some(v) => Some(json::tree(*v)),
                None => None,
            },
        ),
{
    let members = json::Members::new().with("title", json::from_text(chunk.title.as_str())).with(
        "file_name",
        json::from_text(chunk.file_name.as_str()),
    ).with("path", json::from_text(chunk.path.as_str())).with(
        "page",
        json::from_uint(chunk.page as u64),
    ).with("chunk", json::from_uint(chunk.chunk as u64)).with(
        "text",
        json::from_text(chunk.text.as_str()),
    ).with("ingested_at", json::from_text(ingested_at));
    match embedding {
        Some(vector) => members.with("embedding", vector.clone()).object(),
        None => members.object(),
    }
}

/// The two lines of each document, one after the other.
pub open spec fn bulk_text(lines: Seq<(Value, Value)>) -> Seq<char>
    decreases lines.len(),
{
    if lines.len() == 0 {
        Seq::empty()
    } else {
        (bulk_text(lines.drop_last()) + json::rendered(lines.last().0)).push('\n')
            + json::rendered(lines.last().1).push('\n')
    }
}

/// Whether two values are the lines of a document. Each is written on one line. The first reads back
/// as it is, and so does the second where it holds no vector.
pub open spec fn is_document(
    lines: (Value, Value),
    index: Seq<char>,
    chunk: pdf::ChunkView,
    ingested_at: Seq<char>,
    embedding: Option<json::Tree>,
) -> bool {
    let action = action_tree(index, sha256(chunk_key(chunk.path, chunk.page, chunk.chunk)));
    &&& json::tree(lines.0) == action
    &&& json::tree(lines.1) == source_tree(chunk, ingested_at, embedding)
    &&& json::reads_as(json::rendered(lines.0), action)
    &&& embedding is None ==> json::reads_as(
        json::rendered(lines.1),
        source_tree(chunk, ingested_at, None),
    )
    &&& !json::rendered(lines.0).contains('\n')
    &&& !json::rendered(lines.1).contains('\n')
}

/// The vector of a chunk, if there is one for it.
pub open spec fn vector_at(embeddings: Seq<Value>, i: int) -> Option<json::Tree> {
    if i < embeddings.len() {
        Some(json::tree(embeddings[i]))
    } else {
        None
    }
}

/// Whether a text asks for these chunks to be kept, in their order.
pub open spec fn is_bulk_body(
    body: Seq<char>,
    lines: Seq<(Value, Value)>,
    index: Seq<char>,
    batch: Seq<pdf::ChunkView>,
    ingested_at: Seq<char>,
    embeddings: Seq<Value>,
) -> bool {
    &&& body == bulk_text(lines)
    &&& lines.len() == batch.len()
    &&& forall|i: int|
        0 <= i < lines.len() ==> is_document(
            #[trigger] lines[i],
            index,
            batch[i],
            ingested_at,
            vector_at(embeddings, i),
        )
}

proof fn lemma_action_is_plain(index: Seq<char>, id: Seq<char>)
    ensures
        json::is_plain(action_tree(index, id), 100),
{
    reveal_with_fuel(json::is_plain, 3);
    let inner: Map<Seq<char>, json::Tree> =
        map![
        "_index"@ => json::Tree::Text(index),
        "_id"@ => json::Tree::Text(id),
    ];
    assert forall|key: Seq<char>| inner.dom().contains(key) implies json::is_plain(
        #[trigger] inner[key],
        98,
    ) by {}
    assert(json::is_plain(json::Tree::Object(inner), 99));
}

proof fn lemma_source_is_plain(chunk: pdf::ChunkView, ingested_at: Seq<char>)
    ensures
        json::is_plain(source_tree(chunk, ingested_at, None), 100),
{
    reveal_with_fuel(json::is_plain, 2);
    let members = source_members(chunk, ingested_at);
    assert forall|key: Seq<char>| members.dom().contains(key) implies json::is_plain(
        #[trigger] members[key],
        99,
    ) by {}
}

/// The body of a request that asks for chunks to be kept.
pub fn build_bulk_body(
    index: &str,
    batch: &[PdfChunk],
    ingested_at: &str,
    embeddings: &[Value],
) -> (r: String)
    ensures
        exists|lines: Seq<(Value, Value)>| #[trigger]
            is_bulk_body(
                r@,
                lines,
                index@,
                pdf::chunk_views(batch@),
                ingested_at@,
                embeddings@,
            ),
{
    let mut body = String::new();
    let ghost mut lines: Seq<(Value, Value)> = Seq::empty();
    let ghost all = pdf::chunk_views(batch@);
    assert(body@ =~= bulk_text(lines));
    for i in 0..batch.len()
        invariant
            all == pdf::chunk_views(batch@),
            is_bulk_body(body@, lines, index@, all.take(i as int), ingested_at@, embeddings@),
    {
        let id = document_id(&batch[i]);
        let first = action(index, id.as_str());
        let vector = if i < embeddings.len() {
            Some(&embeddings[i])
        } else {
            None
        };
        let second = source(&batch[i], ingested_at, vector);
        let ghost before = body@;
        let ghost old_lines = lines;
        let first_text = json::to_text(&first);
        let second_text = json::to_text(&second);
        body.append(first_text.as_str());
        body.push('\n');
        body.append(second_text.as_str());
        body.push('\n');
        proof {
            lines = lines.push((first, second));
            lemma_action_is_plain(index@, id@);
            lemma_source_is_plain(all[i as int], ingested_at@);
            assert(lines.drop_last() =~= old_lines);
            assert(body@ =~= bulk_text(lines));
            assert(all[i as int] == batch@[i as int]@);
            assert(is_document(
                (first, second),
                index@,
                all[i as int],
                ingested_at@,
                vector_at(embeddings@, i as int),
            ));
            assert forall|k: int| 0 <= k < lines.len() implies is_document(
                #[trigger] lines[k],
                index@,
                all.take(i + 1)[k],
                ingested_at@,
                vector_at(embeddings@, k),
            ) by {
                if k < i {
                    assert(lines[k] == old_lines[k]);
                    assert(all.take(i as int)[k] == all.take(i + 1)[k]);
                }
            }
        }
    }
    assert(all.take(all.len() as int) =~= all);
    body
}

proof fn lemma_line_breaks(lines: Seq<(Value, Value)>)
    requires
        forall|i: int|
            0 <= i < lines.len() ==> !json::rendered((#[trigger] lines[i]).0).contains('\n')
                && !json::rendered(lines[i].1).contains('\n'),
    ensures
        blocks::occurrences(bulk_text(lines), '\n') == 2 * lines.len(),
        lines.len() > 0 ==> bulk_text(lines).last() == '\n',
    decreases lines.len(),
{
    if lines.len() > 0 {
        let front = lines.drop_last();
        assert forall|i: int| 0 <= i < front.len() implies !json::rendered(
            (#[trigger] front[i]).0,
        ).contains('\n') && !json::rendered(front[i].1).contains('\n') by {
            assert(front[i] == lines[i]);
        }
        lemma_line_breaks(front);
        assert(lines[lines.len() - 1] == lines.last());
        let a = json::rendered(lines.last().0);
        let b = json::rendered(lines.last().1);
        let before = bulk_text(front);
        assert forall|i: int| 0 <= i < a.len() implies a[i] != '\n' by {
            assert(a.contains(a[i]));
        }
        assert forall|i: int| 0 <= i < b.len() implies b[i] != '\n' by {
            assert(b.contains(b[i]));
        }
        blocks::lemma_occurrences_none(a, '\n');
        blocks::lemma_occurrences_none(b, '\n');
        blocks::lemma_occurrences_add(before, a, '\n');
        assert((before + a).push('\n').drop_last() =~= before + a);
        assert(b.push('\n').drop_last() =~= b);
        blocks::lemma_occurrences_add((before + a).push('\n'), b.push('\n'), '\n');
    }
}

/// The body of a request for chunks has two lines for each of them and ends with a line break.
pub proof fn bulk_body_has_two_lines_per_chunk(
    body: Seq<char>,
    lines: Seq<(Value, Value)>,
    index: Seq<char>,
    batch: Seq<pdf::ChunkView>,
    ingested_at: Seq<char>,
    embeddings: Seq<Value>,
)
    requires
        is_bulk_body(body, lines, index, batch, ingested_at, embeddings),
    ensures
        blocks::occurrences(body, '\n') == 2 * batch.len(),
        batch.len() > 0 ==> body.last() == '\n',
{
    assert forall|i: int| 0 <= i < lines.len() implies !json::rendered(
        (#[trigger] lines[i]).0,
    ).contains('\n') && !json::rendered(lines[i].1).contains('\n') by {
        assert(is_document(lines[i], index, batch[i], ingested_at, vector_at(embeddings, i)));
    }
    lemma_line_breaks(lines);
}

/// A search for words.
pub open spec fn search_tree(query: Seq<char>) -> json::Tree {
    json::Tree::Object(
        map![
            "size"@ => json::Tree::Uint(SEARCH_SIZE),
            "track_total_hits"@ => json::Tree::Bool(true),
            "query"@ => json::Tree::Object(map![
                "multi_match"@ => json::Tree::Object(map![
                    "query"@ => json::Tree::Text(query),
                    "fields"@ => json::Tree::List(seq![
                        json::Tree::Text("text^3"@),
                        json::Tree::Text("title^2"@),
                        json::Tree::Text("file_name"@),
                    ]),
                    "type"@ => json::Tree::Text("best_fields"@),
                ]),
            ]),
            "highlight"@ => json::Tree::Object(map![
                "pre_tags"@ => json::Tree::List(seq![json::Tree::Text(snippets::HIGHLIGHT_PRE@)]),
                "post_tags"@ => json::Tree::List(seq![json::Tree::Text(snippets::HIGHLIGHT_POST@)]),
                "fields"@ => json::Tree::Object(map![
                    "text"@ => json::Tree::Object(map![
                        "fragment_size"@ => json::Tree::Uint(160),
                        "number_of_fragments"@ => json::Tree::Uint(2),
                    ]),
                ]),
            ]),
        ],
    )
}

fn search_body(query: &str) -> (r: Value)
    ensures
        json::tree(r) == search_tree(query@),
{
    let fields: Vec<Value> = vec![
        json::from_text("text^3"),
        json::from_text("title^2"),
        json::from_text("file_name"),
    ];
    let pre_tags: Vec<Value> = vec![json::from_text(snippets::HIGHLIGHT_PRE)];
    let post_tags: Vec<Value> = vec![json::from_text(snippets::HIGHLIGHT_POST)];
    proof {
        assert(json::trees(fields@) =~= seq![
            json::Tree::Text("text^3"@),
            json::Tree::Text("title^2"@),
            json::Tree::Text("file_name"@),
        ]);
        assert(json::trees(pre_tags@) =~= seq![json::Tree::Text(snippets::HIGHLIGHT_PRE@)]);
        assert(json::trees(post_tags@) =~= seq![json::Tree::Text(snippets::HIGHLIGHT_POST@)]);
    }
    let matching = json::Members::new().with("query", json::from_text(query)).with(
        "fields",
        json::from_list(fields),
    ).with("type", json::from_text("best_fields")).object();
    let wanted = json::Members::new().with("multi_match", matching).object();
    let fragments = json::Members::new().with("fragment_size", json::from_uint(160)).with(
        "number_of_fragments",
        json::from_uint(2),
    ).object();
    let highlighted = json::Members::new().with("text", fragments).object();
    let highlight = json::Members::new().with("pre_tags", json::from_list(pre_tags)).with(
        "post_tags",
        json::from_list(post_tags),
    ).with("fields", highlighted).object();
    json::Members::new().with("size", json::from_uint(SEARCH_SIZE)).with(
        "track_total_hits",
        json::from_bool(true),
    ).with("query", wanted).with("highlight", highlight).object()
}

/// The request for words that a user looks for; there must be some.
pub fn search(query: &str) -> (r: Result<Value, String>)
    ensures
        if text::trimmed(query@).len() > 0 {
            r matches Ok(body) && json::tree(body) == search_tree(text::trimmed(query@))
        } else {
            r matches Err(e) && e@ == "検索キーワードが空です。"@
        },
{
    let query = text::trim(query);
    if query.is_empty() {
        return Err(text::owned("検索キーワードが空です。"));
    }
    Ok(search_body(query))
}

/// The nearest documents to a vector.
pub open spec fn knn_tree(vector: json::Tree) -> json::Tree {
    json::Tree::Object(
        map![
            "size"@ => json::Tree::Uint(SEARCH_SIZE),
            "track_total_hits"@ => json::Tree::Bool(true),
            "query"@ => json::Tree::Object(map![
                "knn"@ => json::Tree::Object(map![
                    "embedding"@ => json::Tree::Object(map![
                        "vector"@ => vector,
                        "k"@ => json::Tree::Uint(SEARCH_SIZE),
                    ]),
                ]),
            ]),
        ],
    )
}

/// The request for the documents nearest to a vector, which is given by its numbers.
pub fn knn_search_body(vector: Vec<Value>) -> (r: Value)
    ensures
        json::tree(r) == knn_tree(json::Tree::List(json::trees(vector@))),
{
    let near = json::Members::new().with("vector", json::from_list(vector)).with(
        "k",
        json::from_uint(SEARCH_SIZE),
    ).object();
    let knn = json::Members::new().with("embedding", near).object();
    let query = json::Members::new().with("knn", knn).object();
    json::Members::new().with("size", json::from_uint(SEARCH_SIZE)).with(
        "track_total_hits",
        json::from_bool(true),
    ).with("query", query).object()
}

/// The sentence that a user looks for, without the spaces round it; there must be one.
pub fn knn_search(query: &str) -> (r: Result<String, String>)
    ensures
        text::result_view(r) == if text::trimmed(query@).len() > 0 {
            Ok(text::trimmed(query@))
        } else {
            Err("検索文が空です。"@)
        },
{
    let query = text::trim(query);
    if query.is_empty() {
        return Err(text::owned("検索文が空です。"));
    }
    Ok(text::owned(query))
}

/// The request for the documents nearest to a vector, which must have the right length.
pub fn search_knn_vector(vector: Vec<Value>) -> (r: Result<Value, String>)
    ensures
        if vector@.len() == EMBEDDING_DIM {
            r matches Ok(body) && json::tree(body) == knn_tree(
                json::Tree::List(json::trees(vector@)),
            )
        } else {
            r matches Err(e) && e@ == embedding::dimension_message(vector@.len())
        },
{
    match embedding::check_dim(vector.as_slice()) {
        Ok(_) => Ok(knn_search_body(vector)),
        Err(err) => Err(err),
    }
}

/// A field for vectors.
pub open spec fn vector_field() -> json::Tree {
    json::Tree::Object(
        map![
            "type"@ => json::Tree::Text("knn_vector"@),
            "dimension"@ => json::Tree::Uint(EMBEDDING_DIM as u64),
            "method"@ => json::Tree::Object(map![
                "name"@ => json::Tree::Text("hnsw"@),
                "engine"@ => json::Tree::Text("lucene"@),
                "space_type"@ => json::Tree::Text("cosinesimil"@),
                "parameters"@ => json::Tree::Object(map![
                    "ef_construction"@ => json::Tree::Uint(100),
                    "m"@ => json::Tree::Uint(16),
                ]),
            ]),
        ],
    )
}

fn knn_vector_property() -> (r: Value)
    ensures
        json::tree(r) == vector_field(),
{
    let parameters = json::Members::new().with("ef_construction", json::from_uint(100)).with(
        "m",
        json::from_uint(16),
    ).object();
    let method = json::Members::new().with("name", json::from_text("hnsw")).with(
        "engine",
        json::from_text("lucene"),
    ).with("space_type", json::from_text("cosinesimil")).with("parameters", parameters).object();
    json::Members::new().with("type", json::from_text("knn_vector")).with(
        "dimension",
        json::from_uint(EMBEDDING_DIM as u64),
    ).with("method", method).object()
}

/// A field of a kind.
pub open spec fn field(kind: Seq<char>) -> json::Tree {
    json::Tree::Object(map!["type"@ => json::Tree::Text(kind)])
}

/// An index with a field for each part of a chunk and one for its vector.
pub open spec fn index_tree() -> json::Tree {
    json::Tree::Object(
        map![
            "settings"@ => json::Tree::Object(map![
                "number_of_shards"@ => json::Tree::Uint(1),
                "number_of_replicas"@ => json::Tree::Uint(0),
                "knn"@ => json::Tree::Bool(true),
            ]),
            "mappings"@ => json::Tree::Object(map![
                "properties"@ => json::Tree::Object(map![
                    "title"@ => json::Tree::Object(map![
                        "type"@ => json::Tree::Text("text"@),
                        "fields"@ => json::Tree::Object(map![
                            "keyword"@ => json::Tree::Object(map![
                                "type"@ => json::Tree::Text("keyword"@),
                                "ignore_above"@ => json::Tree::Uint(256),
                            ]),
                        ]),
                    ]),
                    "file_name"@ => field("keyword"@),
                    "path"@ => field("keyword"@),
                    "page"@ => field("integer"@),
                    "chunk"@ => field("integer"@),
                    "text"@ => field("text"@),
                    "ingested_at"@ => field("date"@),
                    "embedding"@ => vector_field(),
                ]),
            ]),
        ],
    )
}

fn plain_field(kind: &str) -> (r: Value)
    ensures
        json::tree(r) == field(kind@),
{
    json::Members::new().with("type", json::from_text(kind)).object()
}

/// The request that makes the index.
pub fn new_index_body() -> (r: Value)
    ensures
        json::tree(r) == index_tree(),
{
    let settings = json::Members::new().with("number_of_shards", json::from_uint(1)).with(
        "number_of_replicas",
        json::from_uint(0),
    ).with("knn", json::from_bool(true)).object();
    let keyword = json::Members::new().with("type", json::from_text("keyword")).with(
        "ignore_above",
        json::from_uint(256),
    ).object();
    let fields = json::Members::new().with("keyword", keyword).object();
    let title = json::Members::new().with("type", json::from_text("text")).with(
        "fields",
        fields,
    ).object();
    let properties = json::Members::new().with("title", title).with(
        "file_name",
        plain_field("keyword"),
    ).with("path", plain_field("keyword")).with("page", plain_field("integer")).with(
        "chunk",
        plain_field("integer"),
    ).with("text", plain_field("text")).with("ingested_at", plain_field("date")).with(
        "embedding",
        knn_vector_property(),
    ).object();
    let mappings = json::Members::new().with("properties", properties).object();
    json::Members::new().with("settings", settings).with("mappings", mappings).object()
}

/// The request that lets an index that is there be searched by vectors.
pub fn knn_settings_body() -> (r: Value)
    ensures
        json::tree(r) == json::Tree::Object(
            map![
                "index"@ => json::Tree::Object(map!["knn"@ => json::Tree::Bool(true)]),
            ],
        ),
{
    let index = json::Members::new().with("knn", json::from_bool(true)).object();
    json::Members::new().with("index", index).object()
}

/// The request that gives an index that is there a field for vectors.
pub fn vector_field_body() -> (r: Value)
    ensures
        json::tree(r) == json::Tree::Object(
            map![
                "properties"@ => json::Tree::Object(map!["embedding"@ => vector_field()]),
            ],
        ),
{
    let properties = json::Members::new().with("embedding", knn_vector_property()).object();
    json::Members::new().with("properties", properties).object()
}

/// The address of the index.
pub open spec fn index_address(settings: OpenSearchSettings) -> Seq<char> {
    settings.base() + "/"@ + settings.index_name()
}

pub fn index_url(settings: &OpenSearchSettings) -> (r: String)
    ensures
        r@ == index_address(*settings),
{
    let mut out = settings.base_url();
    out.append("/");
    out.append(settings.index());
    out
}

pub fn search_url(settings: &OpenSearchSettings) -> (r: String)
    ensures
        r@ == index_address(*settings) + "/_search"@,
{
    let mut out = index_url(settings);
    out.append("/_search");
    out
}

pub fn settings_url(settings: &OpenSearchSettings) -> (r: String)
    ensures
        r@ == index_address(*settings) + "/_settings"@,
{
    let mut out = index_url(settings);
    out.append("/_settings");
    out
}

pub fn mapping_url(settings: &OpenSearchSettings) -> (r: String)
    ensures
        r@ == index_address(*settings) + "/_mapping"@,
{
    let mut out = index_url(settings);
    out.append("/_mapping");
    out
}

pub fn bulk_url(settings: &OpenSearchSettings) -> (r: String)
    ensures
        r@ == settings.base() + "/_bulk"@,
{
    let mut out = settings.base_url();
    out.append("/_bulk");
    out
}

proof fn lemma_keys_differ()
    ensures
        "title"@ != "file_name"@ && "title"@ != "path"@ && "title"@ != "page"@ && "title"@ != "chunk"@
            && "title"@ != "text"@ && "title"@ != "ingested_at"@ && "title"@ != "embedding"@,
        "file_name"@ != "path"@ && "file_name"@ != "page"@ && "file_name"@ != "chunk"@
            && "file_name"@ != "text"@ && "file_name"@ != "ingested_at"@ && "file_name"@
            != "embedding"@,
        "path"@ != "page"@ && "path"@ != "chunk"@ && "path"@ != "text"@ && "path"@ != "ingested_at"@
            && "path"@ != "embedding"@,
        "page"@ != "chunk"@ && "page"@ != "text"@ && "page"@ != "ingested_at"@ && "page"@
            != "embedding"@,
        "chunk"@ != "text"@ && "chunk"@ != "ingested_at"@ && "chunk"@ != "embedding"@,
        "text"@ != "ingested_at"@ && "text"@ != "embedding"@,
        "ingested_at"@ != "embedding"@,
{
    reveal_strlit("title");
    reveal_strlit("file_name");
    reveal_strlit("path");
    reveal_strlit("page");
    reveal_strlit("chunk");
    reveal_strlit("text");
    reveal_strlit("ingested_at");
    reveal_strlit("embedding");
    assert("title"@.len() == 5 && "chunk"@.len() == 5 && "file_name"@.len() == 9
        && "embedding"@.len() == 9 && "ingested_at"@.len() == 11);
    assert("path"@.len() == 4 && "page"@.len() == 4 && "text"@.len() == 4);
    assert("title"@[0] == 't' && "chunk"@[0] == 'c');
    assert("path"@[0] == 'p' && "text"@[0] == 't');
    assert("path"@[2] == 't' && "page"@[2] == 'g');
    assert("page"@[0] == 'p');
    assert("file_name"@[0] == 'f' && "embedding"@[0] == 'e');
}

/// A document gives back every part of its chunk, the time and the vector, each under its key, and
/// holds nothing else.
pub proof fn documents_hold_their_chunk(
    chunk: pdf::ChunkView,
    ingested_at: Seq<char>,
    embedding: Option<json::Tree>,
)
    ensures
        ({
            let document = source_tree(chunk, ingested_at, embedding);
            &&& json::member_of(document, "title"@) == Some(json::Tree::Text(chunk.title))
            &&& json::member_of(document, "file_name"@) == Some(json::Tree::Text(chunk.file_name))
            &&& json::member_of(document, "path"@) == Some(json::Tree::Text(chunk.path))
            &&& json::member_of(document, "page"@) == Some(json::Tree::Uint(chunk.page as u64))
            &&& json::member_of(document, "chunk"@) == Some(json::Tree::Uint(chunk.chunk as u64))
            &&& json::member_of(document, "text"@) == Some(json::Tree::Text(chunk.text))
            &&& json::member_of(document, "ingested_at"@) == Some(json::Tree::Text(ingested_at))
            &&& json::member_of(document, "embedding"@) == embedding
            &&& forall|key: Seq<char>|
                key != "title"@ && key != "file_name"@ && key != "path"@ && key != "page"@ && key
                    != "chunk"@ && key != "text"@ && key != "ingested_at"@ && key != "embedding"@
                    ==> #[trigger] json::member_of(document, key) is None
        }),
{
    lemma_keys_differ();
}

/// Two documents are the same only where they are of the same chunk, time and vector.
pub proof fn documents_tell_chunks_apart(
    chunk: pdf::ChunkView,
    ingested_at: Seq<char>,
    embedding: Option<json::Tree>,
    other: pdf::ChunkView,
    other_ingested_at: Seq<char>,
    other_embedding: Option<json::Tree>,
)
    requires
        source_tree(chunk, ingested_at, embedding) == source_tree(
            other,
            other_ingested_at,
            other_embedding,
        ),
    ensures
        chunk == other,
        ingested_at == other_ingested_at,
        embedding == other_embedding,
{
    documents_hold_their_chunk(chunk, ingested_at, embedding);
    documents_hold_their_chunk(other, other_ingested_at, other_embedding);
}

/// A hit whose source is the document that was sent for a chunk reads back with the title, the path
/// and the page of the chunk, and, where nothing is highlighted, with the beginning of its text.
pub proof fn chunks_are_found_as_they_were_sent(
    hit: json::Tree,
    chunk: pdf::ChunkView,
    ingested_at: Seq<char>,
    embedding: Option<json::Tree>,
)
    requires
        json::member_of(hit, "_source"@) == Some(source_tree(chunk, ingested_at, embedding)),
    ensures
        replies::hit_in(hit).title == chunk.title,
        replies::hit_in(hit).path == chunk.path,
        replies::hit_in(hit).page == chunk.page,
        json::member_of(hit, "highlight"@) is None && chunk.text.len() <= 220 ==> replies::hit_in(
            hit,
        ).snippet == chunk.text,
        json::member_of(hit, "highlight"@) is None && chunk.text.len() > 220 ==> replies::hit_in(
            hit,
        ).snippet == chunk.text.take(220).push('\u{2026}'),
{
    documents_hold_their_chunk(chunk, ingested_at, embedding);
}

/// An answer whose hits are the documents of chunks, in some order, is read as that many hits, each
/// with the title, the path and the page of its chunk.
pub proof fn answers_list_the_chunks_found(
    answer: json::Tree,
    found: json::Tree,
    hits: Seq<json::Tree>,
    chunks: Seq<pdf::ChunkView>,
    ingested_at: Seq<char>,
)
    requires
        json::member_of(answer, "hits"@) == Some(found),
        json::member_of(found, "hits"@) == Some(json::Tree::List(hits)),
        hits.len() == chunks.len(),
        forall|i: int|
            0 <= i < hits.len() ==> json::member_of(#[trigger] hits[i], "_source"@) == Some(
                source_tree(chunks[i], ingested_at, None),
            ),
    ensures
        replies::outcome_in(answer) matches Ok(outcome) && outcome.hits.len() == chunks.len()
            && forall|i: int|
            0 <= i < chunks.len() ==> (#[trigger] outcome.hits[i]).title == chunks[i].title
                && outcome.hits[i].path == chunks[i].path && outcome.hits[i].page
                == chunks[i].page,
{
    let outcome = replies::outcome_in(answer)->Ok_0;
    assert forall|i: int| 0 <= i < chunks.len() implies (#[trigger] outcome.hits[i]).title
        == chunks[i].title && outcome.hits[i].path == chunks[i].path && outcome.hits[i].page
        == chunks[i].page by {
        assert(outcome.hits[i] == replies::hit_in(hits[i]));
        chunks_are_found_as_they_were_sent(hits[i], chunks[i], ingested_at, None);
    }
}

/// The line that announces a document names the index and the document, and asks for nothing else.
pub proof fn actions_name_index_and_document(index: Seq<char>, id: Seq<char>)
    ensures
        ({
            let named = replies::in_member(Some(action_tree(index, id)), "index"@);
            &&& replies::text_member(named, "_index"@) == Some(index)
            &&& replies::text_member(named, "_id"@) == Some(id)
            &&& forall|key: Seq<char>|
                key != "index"@ ==> #[trigger] json::member_of(action_tree(index, id), key) is None
        }),
{
    reveal_strlit("_index");
    reveal_strlit("_id");
    assert("_index"@.len() != "_id"@.len());
}

/// A number is the sum of its four bytes, each 256 times as heavy as the one before it.
pub proof fn four_bytes_weigh_a_number(n: u32)
    ensures
        four_bytes(n).len() == 4,
        n == four_bytes(n)[0] + 0x100 * four_bytes(n)[1] + 0x1_0000 * four_bytes(n)[2] + 0x100_0000
            * four_bytes(n)[3],
{
}

/// The bytes that stand for a chunk are those of its path, a zero, the four of its page and the four
/// of its number.
pub proof fn keys_hold_path_page_and_number(path: Seq<char>, page: u32, chunk: u32)
    ensures
        ({
            let key = chunk_key(path, page, chunk);
            let n = vstd::utf8::encode_utf8(path).len() as int;
            &&& key.len() == n + 9
            &&& key.take(n) == vstd::utf8::encode_utf8(path)
            &&& key[n] == 0
            &&& page == key[n + 1] + 0x100 * key[n + 2] + 0x1_0000 * key[n + 3] + 0x100_0000 * key[n
                + 4]
            &&& chunk == key[n + 5] + 0x100 * key[n + 6] + 0x1_0000 * key[n + 7] + 0x100_0000
                * key[n + 8]
        }),
{
    let key = chunk_key(path, page, chunk);
    let p = vstd::utf8::encode_utf8(path);
    let n = p.len() as int;
    assert(key.take(n) =~= p);
    four_bytes_weigh_a_number(page);
    four_bytes_weigh_a_number(chunk);
    assert(key.subrange(n + 1, n + 5) =~= four_bytes(page));
    assert(key.subrange(n + 5, n + 9) =~= four_bytes(chunk));
    assert forall|k: int| 0 <= k < 4 implies key[n + 1 + k] == #[trigger] four_bytes(page)[k]
        && key[n + 5 + k] == four_bytes(chunk)[k] by {
        assert(key.subrange(n + 1, n + 5)[k] == key[n + 1 + k]);
        assert(key.subrange(n + 5, n + 9)[k] == key[n + 5 + k]);
    }
    assert(key[n + 1] == four_bytes(page)[0] && key[n + 2] == four_bytes(page)[1]);
    assert(key[n + 3] == four_bytes(page)[2] && key[n + 4] == four_bytes(page)[3]);
}

/// The text of documents is that of each of them, one behind another: its two lines, each with a
/// line break behind it.
pub proof fn documents_stand_one_behind_another(
    lines: Seq<(Value, Value)>,
    more: Seq<(Value, Value)>,
    document: (Value, Value),
)
    ensures
        bulk_text(lines + more) == bulk_text(lines) + bulk_text(more),
        bulk_text(seq![document]) == json::rendered(document.0) + seq!['\n'] + json::rendered(
            document.1,
        ) + seq!['\n'],
        bulk_text(Seq::empty()).len() == 0,
    decreases more.len(),
{
    reveal_with_fuel(bulk_text, 2);
    assert(seq![document].drop_last() =~= Seq::empty());
    assert(bulk_text(seq![document]) =~= json::rendered(document.0) + seq!['\n'] + json::rendered(
        document.1,
    ) + seq!['\n']);
    if more.len() == 0 {
        assert(lines + more =~= lines);
        assert(bulk_text(lines) + bulk_text(more) =~= bulk_text(lines));
    } else {
        documents_stand_one_behind_another(lines, more.drop_last(), document);
        assert((lines + more).drop_last() =~= lines + more.drop_last());
        assert((lines + more).last() == more.last());
        assert(bulk_text(lines + more) =~= bulk_text(lines) + bulk_text(more));
    }
}

/// In the body of a request for chunks the lines of each chunk stand at its place in the batch. The
/// first names the index and what is made of path, page and number; the second is the document of
/// the chunk, with the vector that has the same place, if there is one.
pub proof fn bulk_bodies_pair_chunks_with_vectors(
    body: Seq<char>,
    lines: Seq<(Value, Value)>,
    index: Seq<char>,
    batch: Seq<pdf::ChunkView>,
    ingested_at: Seq<char>,
    embeddings: Seq<Value>,
    i: int,
)
    requires
        is_bulk_body(body, lines, index, batch, ingested_at, embeddings),
        0 <= i < batch.len(),
    ensures
        lines.len() == batch.len(),
        body == bulk_text(lines.take(i)) + json::rendered(lines[i].0) + seq!['\n'] + json::rendered(
            lines[i].1,
        ) + seq!['\n'] + bulk_text(lines.skip(i + 1)),
        ({
            let named = replies::in_member(Some(json::tree(lines[i].0)), "index"@);
            let document = json::tree(lines[i].1);
            &&& replies::text_member(named, "_index"@) == Some(index)
            &&& replies::text_member(named, "_id"@) == Some(
                sha256(chunk_key(batch[i].path, batch[i].page, batch[i].chunk)),
            )
            &&& json::member_of(document, "path"@) == Some(json::Tree::Text(batch[i].path))
            &&& json::member_of(document, "text"@) == Some(json::Tree::Text(batch[i].text))
            &&& i < embeddings.len() ==> json::member_of(document, "embedding"@) == Some(
                json::tree(embeddings[i]),
            )
            &&& i >= embeddings.len() ==> json::member_of(document, "embedding"@) is None
        }),
        embeddings.len() == 0 ==> json::parsed(json::rendered(lines[i].1)) == Ok::<
            json::Tree,
            Seq<char>,
        >(json::tree(lines[i].1)),
{
    assert(is_document(lines[i], index, batch[i], ingested_at, vector_at(embeddings, i)));
    actions_name_index_and_document(
        index,
        sha256(chunk_key(batch[i].path, batch[i].page, batch[i].chunk)),
    );
    documents_hold_their_chunk(batch[i], ingested_at, vector_at(embeddings, i));
    let one = seq![lines[i]];
    documents_stand_one_behind_another(lines.take(i), one, lines[i]);
    documents_stand_one_behind_another(lines.take(i) + one, lines.skip(i + 1), lines[i]);
    assert(lines.take(i) + one + lines.skip(i + 1) =~= lines);
    assert(body =~= bulk_text(lines.take(i)) + json::rendered(lines[i].0) + seq!['\n']
        + json::rendered(lines[i].1) + seq!['\n'] + bulk_text(lines.skip(i + 1)));
}

/// What stands under a key, and under a further key within it.
pub open spec fn within(t: json::Tree, key: Seq<char>, inner: Seq<char>) -> Option<json::Tree> {
    replies::in_member(json::member_of(t, key), inner)
}

/// A search for words hands them over as they are, to be matched against text, title and file name,
/// asks for ten hits and for how many there are, and for fragments with the markers round what was
/// found at which a snippet is split.
pub proof fn searches_ask_for_their_words(query: Seq<char>)
    ensures
        ({
            let t = search_tree(query);
            let matching = within(t, "query"@, "multi_match"@);
            let shown = within(t, "highlight"@, "fields"@);
            &&& json::member_of(t, "size"@) == Some(json::Tree::Uint(10))
            &&& json::member_of(t, "track_total_hits"@) == Some(json::Tree::Bool(true))
            &&& replies::text_member(matching, "query"@) == Some(query)
            &&& replies::text_member(matching, "type"@) == Some("best_fields"@)
            &&& replies::in_member(matching, "fields"@) == Some(
                json::Tree::List(
                    seq![
                        json::Tree::Text("text^3"@),
                        json::Tree::Text("title^2"@),
                        json::Tree::Text("file_name"@),
                    ],
                ),
            )
            &&& within(t, "highlight"@, "pre_tags"@) == Some(
                json::Tree::List(seq![json::Tree::Text("<mark>"@)]),
            )
            &&& within(t, "highlight"@, "post_tags"@) == Some(
                json::Tree::List(seq![json::Tree::Text("</mark>"@)]),
            )
            &&& replies::in_member(replies::in_member(shown, "text"@), "fragment_size"@) == Some(
                json::Tree::Uint(160),
            )
            &&& replies::in_member(replies::in_member(shown, "text"@), "number_of_fragments"@)
                == Some(json::Tree::Uint(2))
        }),
        snippets::marker(false) == "<mark>"@,
        snippets::marker(true) == "</mark>"@,
{
    reveal_strlit("size");
    reveal_strlit("track_total_hits");
    reveal_strlit("query");
    reveal_strlit("highlight");
    reveal_strlit("fields");
    reveal_strlit("type");
    reveal_strlit("pre_tags");
    reveal_strlit("post_tags");
    reveal_strlit("fragment_size");
    reveal_strlit("number_of_fragments");
    assert("size"@.len() == 4 && "track_total_hits"@.len() == 16 && "query"@.len() == 5
        && "highlight"@.len() == 9 && "fields"@.len() == 6 && "type"@.len() == 4
        && "pre_tags"@.len() == 8 && "post_tags"@.len() == 9 && "fragment_size"@.len() == 13
        && "number_of_fragments"@.len() == 19);
}

/// Searches for different words are different requests.
pub proof fn searches_tell_words_apart(query: Seq<char>, other: Seq<char>)
    requires
        search_tree(query) == search_tree(other),
    ensures
        query == other,
{
    searches_ask_for_their_words(query);
    searches_ask_for_their_words(other);
}

/// A search by a vector hands it over as it is, under the key under which documents hold theirs, and
/// asks for the ten nearest and for how many there are.
pub proof fn nearest_are_asked_for_by_vector(vector: json::Tree, chunk: pdf::ChunkView)
    ensures
        ({
            let t = knn_tree(vector);
            let near = replies::in_member(within(t, "query"@, "knn"@), "embedding"@);
            &&& json::member_of(t, "size"@) == Some(json::Tree::Uint(10))
            &&& json::member_of(t, "track_total_hits"@) == Some(json::Tree::Bool(true))
            &&& replies::in_member(near, "vector"@) == Some(vector)
            &&& replies::in_member(near, "k"@) == Some(json::Tree::Uint(10))
        }),
        json::member_of(source_tree(chunk, Seq::empty(), Some(vector)), "embedding"@) == Some(
            vector,
        ),
{
    reveal_strlit("size");
    reveal_strlit("track_total_hits");
    reveal_strlit("query");
    reveal_strlit("vector");
    reveal_strlit("k");
    assert("size"@.len() == 4 && "track_total_hits"@.len() == 16 && "query"@.len() == 5
        && "vector"@.len() == 6 && "k"@.len() == 1);
    documents_hold_their_chunk(chunk, Seq::empty(), Some(vector));
}

/// The fields of the index.
pub open spec fn fields_of_index() -> json::Tree {
    match within(index_tree(), "mappings"@, "properties"@) {
        Some(fields) => fields,
        None => json::Tree::Null,
    }
}

proof fn lemma_fields(key: Seq<char>)
    ensures
        json::member_of(fields_of_index(), "title"@) is Some,
        json::member_of(fields_of_index(), "file_name"@) == Some(field("keyword"@)),
        json::member_of(fields_of_index(), "path"@) == Some(field("keyword"@)),
        json::member_of(fields_of_index(), "page"@) == Some(field("integer"@)),
        json::member_of(fields_of_index(), "chunk"@) == Some(field("integer"@)),
        json::member_of(fields_of_index(), "text"@) == Some(field("text"@)),
        json::member_of(fields_of_index(), "ingested_at"@) == Some(field("date"@)),
        json::member_of(fields_of_index(), "embedding"@) == Some(vector_field()),
        within(fields_of_index(), "title"@, "type"@) == Some(json::Tree::Text("text"@)),
        json::member_of(fields_of_index(), key) is Some <==> (key == "title"@ || key == "file_name"@
            || key == "path"@ || key == "page"@ || key == "chunk"@ || key == "text"@ || key
            == "ingested_at"@ || key == "embedding"@),
{
    lemma_keys_differ();
    reveal_strlit("settings");
    reveal_strlit("mappings");
    reveal_strlit("type");
    reveal_strlit("fields");
    assert("settings"@[0] == 's' && "mappings"@[0] == 'm');
    assert("type"@.len() == 4 && "fields"@.len() == 6);
}

/// The index has a field for each member that a document with a vector holds, and no other.
pub proof fn the_index_has_the_fields_of_documents(
    chunk: pdf::ChunkView,
    ingested_at: Seq<char>,
    vector: json::Tree,
    key: Seq<char>,
)
    ensures
        json::member_of(fields_of_index(), key) is Some <==> json::member_of(
            source_tree(chunk, ingested_at, Some(vector)),
            key,
        ) is Some,
{
    lemma_fields(key);
    documents_hold_their_chunk(chunk, ingested_at, Some(vector));
}

/// In the index text and title are searched by their words, file name and path as a whole, page and
/// number are whole numbers, and a vector has 384 numbers.
pub proof fn fields_fit_what_documents_hold()
    ensures
        ({
            let fields = fields_of_index();
            &&& within(fields, "title"@, "type"@) == Some(json::Tree::Text("text"@))
            &&& within(fields, "text"@, "type"@) == Some(json::Tree::Text("text"@))
            &&& within(fields, "file_name"@, "type"@) == Some(json::Tree::Text("keyword"@))
            &&& within(fields, "path"@, "type"@) == Some(json::Tree::Text("keyword"@))
            &&& within(fields, "page"@, "type"@) == Some(json::Tree::Text("integer"@))
            &&& within(fields, "chunk"@, "type"@) == Some(json::Tree::Text("integer"@))
            &&& within(fields, "ingested_at"@, "type"@) == Some(json::Tree::Text("date"@))
            &&& within(fields, "embedding"@, "type"@) == Some(json::Tree::Text("knn_vector"@))
            &&& within(fields, "embedding"@, "dimension"@) == Some(
                json::Tree::Uint(384),
            )
        }),
        within(index_tree(), "settings"@, "knn"@) == Some(json::Tree::Bool(true)),
{
    lemma_fields("title"@);
    reveal_strlit("type");
    reveal_strlit("dimension");
    reveal_strlit("method");
    reveal_strlit("settings");
    reveal_strlit("mappings");
    reveal_strlit("number_of_shards");
    reveal_strlit("number_of_replicas");
    reveal_strlit("knn");
    assert("type"@.len() == 4 && "dimension"@.len() == 9 && "method"@.len() == 6);
    assert("settings"@[0] == 's' && "mappings"@[0] == 'm');
    assert("number_of_shards"@.len() == 16 && "number_of_replicas"@.len() == 18 && "knn"@.len()
        == 3);
}

/// The address of the index is that of the server, a slash and the name of the index.
pub proof fn the_index_has_its_own_address(settings: OpenSearchSettings)
    ensures
        ({
            let n = settings.base().len() as int;
            let address = index_address(settings);
            &&& address.len() == n + 1 + settings.index_name().len()
            &&& address.take(n) == settings.base()
            &&& address[n] == '/'
            &&& address.skip(n + 1) == settings.index_name()
        }),
{
    reveal_strlit("/");
    let n = settings.base().len() as int;
    assert(index_address(settings).take(n) =~= settings.base());
    assert(index_address(settings).skip(n + 1) =~= settings.index_name());
}

/// The index stands on one shard without a copy. It finds near vectors by the cosine of their angle,
/// and titles as a whole too where they have up to 256 characters.
pub proof fn the_index_is_laid_out_for_nearness()
    ensures
        within(index_tree(), "settings"@, "number_of_shards"@) == Some(json::Tree::Uint(1)),
        within(index_tree(), "settings"@, "number_of_replicas"@) == Some(json::Tree::Uint(0)),
        ({
            let method = within(fields_of_index(), "embedding"@, "method"@);
            let parameters = replies::in_member(method, "parameters"@);
            let whole = replies::in_member(
                within(fields_of_index(), "title"@, "fields"@),
                "keyword"@,
            );
            &&& replies::text_member(method, "name"@) == Some("hnsw"@)
            &&& replies::text_member(method, "engine"@) == Some("lucene"@)
            &&& replies::text_member(method, "space_type"@) == Some("cosinesimil"@)
            &&& replies::in_member(parameters, "ef_construction"@) == Some(json::Tree::Uint(100))
            &&& replies::in_member(parameters, "m"@) == Some(json::Tree::Uint(16))
            &&& replies::text_member(whole, "type"@) == Some("keyword"@)
            &&& replies::in_member(whole, "ignore_above"@) == Some(json::Tree::Uint(256))
        }),
{
    lemma_keys_differ();
    reveal_strlit("settings");
    reveal_strlit("mappings");
    reveal_strlit("number_of_shards");
    reveal_strlit("number_of_replicas");
    reveal_strlit("knn");
    reveal_strlit("type");
    reveal_strlit("dimension");
    reveal_strlit("method");
    reveal_strlit("name");
    reveal_strlit("engine");
    reveal_strlit("space_type");
    reveal_strlit("parameters");
    reveal_strlit("ef_construction");
    reveal_strlit("m");
    reveal_strlit("fields");
    reveal_strlit("ignore_above");
    assert("settings"@[0] == 's' && "mappings"@[0] == 'm');
    assert("number_of_shards"@.len() == 16 && "number_of_replicas"@.len() == 18 && "knn"@.len()
        == 3);
    assert("type"@.len() == 4 && "dimension"@.len() == 9 && "method"@.len() == 6
        && "fields"@.len() == 6 && "ignore_above"@.len() == 12);
    assert("name"@.len() == 4 && "engine"@.len() == 6 && "space_type"@.len() == 10
        && "parameters"@.len() == 10 && "ef_construction"@.len() == 15 && "m"@.len() == 1);
    assert("space_type"@[0] == 's' && "parameters"@[0] == 'p');
}

} // verus!
