//! From the text of a PDF to chunks for the index and to Markdown.
use crate::blocks;
use crate::blocks::PageBlock;
use crate::paths;
use crate::text;
use vstd::prelude::*;
use vstd::string::StringExecFns;

verus! {

/// A piece of a page, as it goes into the index.
#[derive(Debug, Clone, PartialEq, Eq)]
pub struct PdfChunk {
    pub path: String,
    pub file_name: String,
    pub title: String,
    pub page: u32,
    pub chunk: u32,
    pub text: String,
}

/// What a chunk stands for.
pub struct ChunkView {
    pub path: Seq<char>,
    pub file_name: Seq<char>,
    pub title: Seq<char>,
    pub page: u32,
    pub chunk: u32,
    pub text: Seq<char>,
}

impl View for PdfChunk {
    type V = ChunkView;

    open spec fn view(&self) -> ChunkView {
        ChunkView {
            path: self.path@,
            file_name: self.file_name@,
            title: self.title@,
            page: self.page,
            chunk: self.chunk,
            text: self.text@,
        }
    }
}

pub open spec fn chunk_views(chunks: Seq<PdfChunk>) -> Seq<ChunkView> {
    chunks.map_values(|chunk: PdfChunk| chunk@)
}

/// The most characters of a chunk.
pub const TARGET_CHARS: usize = 1800;

/// How many characters a chunk shares with the one before it.
pub const OVERLAP_CHARS: usize = 120;

/// Whether a file is a PDF, by the extension of its name.
pub fn is_pdf(path: &str) -> (r: bool)
    ensures
        exists|name: Option<Seq<char>>| #[trigger]
            paths::names_file(path@, name) && r == paths::has_pdf_extension(name),
{
    let name = paths::file_name(path);
    let ghost n = paths::text_or_none(name);
    assert(paths::names_file(path@, n));
    match name {
        Some(name) => paths::is_pdf_name(name.as_str()),
        None => false,
    }
}

/// A text with every run of spaces made one character, which is a line break where the run begins
/// with one, and without form feeds.
pub open spec fn squeezed(s: Seq<char>) -> Seq<char>
    decreases s.len(),
{
    if s.len() == 0 {
        Seq::empty()
    } else {
        let out = squeezed(s.drop_last());
        let c = s.last();
        if c == '\u{c}' {
            out
        } else if !text::is_space(c) {
            out.push(c)
        } else if out.len() > 0 && !text::is_space(out.last()) {
            out.push(
                if c == '\n' {
                    '\n'
                } else {
                    ' '
                },
            )
        } else {
            out
        }
    }
}

/// The text of a page, tidied.
pub open spec fn tidied(s: Seq<char>) -> Seq<char> {
    text::trimmed(squeezed(s))
}

pub fn collapse_ws(s: &str) -> (r: String)
    ensures
        r@ == tidied(s@),
{
    let chars = text::characters(s);
    let mut out = String::new();
    let mut after_space = true;
    for i in 0..chars.len()
        invariant
            chars@ == s@,
            out@ == squeezed(chars@.take(i as int)),
            after_space == (out@.len() == 0 || text::is_space(out@.last())),
    {
        let c = chars[i];
        proof {
            assert(chars@.take(i + 1).drop_last() =~= chars@.take(i as int));
        }
        if c != '\u{c}' {
            if text::is_whitespace(c) {
                if !after_space {
                    out.push(
                        if c == '\n' {
                            '\n'
                        } else {
                            ' '
                        },
                    );
                    after_space = true;
                }
            } else {
                out.push(c);
                after_space = false;
            }
        }
    }
    assert(chars@.take(chars@.len() as int) =~= chars@);
    text::owned(text::trim(out.as_str()))
}

/// Whether a chunk may end behind this character.
pub open spec fn ends_sentence(c: char) -> bool {
    c == '。' || c == '\n' || c == '.'
}

/// The last place in `low..high` whose character ends a sentence, or -1.
pub open spec fn last_end(chars: Seq<char>, low: int, high: int) -> int
    decreases high - low,
{
    if high <= low {
        -1
    } else if ends_sentence(chars[high - 1]) {
        high - 1
    } else {
        last_end(chars, low, high - 1)
    }
}

/// Where the chunk that begins at `start` ends: behind the last end of a sentence in its second
/// half, if there is one, else where it is full; the last chunk ends with the text.
pub open spec fn chunk_end(chars: Seq<char>, start: int) -> int {
    let full = start + TARGET_CHARS;
    if full >= chars.len() {
        chars.len() as int
    } else {
        let last = last_end(chars, start + TARGET_CHARS / 2, full);
        if last >= 0 {
            last + 1
        } else {
            full
        }
    }
}

proof fn lemma_last_end(chars: Seq<char>, low: int, high: int)
    requires
        0 <= low <= high <= chars.len(),
    ensures
        last_end(chars, low, high) == -1 || low <= last_end(chars, low, high) < high,
        last_end(chars, low, high) >= 0 ==> ends_sentence(chars[last_end(chars, low, high)]),
        forall|i: int|
            last_end(chars, low, high) < i < high && low <= i ==> !ends_sentence(
                #[trigger] chars[i],
            ),
    decreases high - low,
{
    if high > low && !ends_sentence(chars[high - 1]) {
        lemma_last_end(chars, low, high - 1);
    }
}

proof fn lemma_chunk_end(chars: Seq<char>, start: int)
    requires
        0 <= start < chars.len(),
    ensures
        start < chunk_end(chars, start) <= chars.len(),
        chunk_end(chars, start) <= start + TARGET_CHARS,
        chunk_end(chars, start) < chars.len() ==> chunk_end(chars, start) > start + TARGET_CHARS
            / 2,
{
    let full = start + TARGET_CHARS;
    if full < chars.len() {
        lemma_last_end(chars, start + TARGET_CHARS / 2, full);
    }
}

/// The stretches that a text is cut into, from `start` on: each begins a little before the end of
/// the one before it.
pub open spec fn stretches(chars: Seq<char>, start: int) -> Seq<(int, int)>
    decreases chars.len() - start,
    when 0 <= start
    via stretches_end
{
    if start >= chars.len() {
        Seq::empty()
    } else {
        let end = chunk_end(chars, start);
        if end >= chars.len() {
            seq![(start, end)]
        } else {
            seq![(start, end)] + stretches(chars, end - OVERLAP_CHARS)
        }
    }
}

#[via_fn]
proof fn stretches_end(chars: Seq<char>, start: int) {
    if start < chars.len() {
        lemma_chunk_end(chars, start);
    }
}

/// The text of a stretch, without the spaces round it.
pub open spec fn stretch_text(chars: Seq<char>, stretch: (int, int)) -> Seq<char> {
    text::trimmed(chars.subrange(stretch.0, stretch.1))
}

pub open spec fn stretch_texts(chars: Seq<char>, cuts: Seq<(int, int)>) -> Seq<Seq<char>> {
    cuts.map_values(|cut: (int, int)| stretch_text(chars, cut)).filter(
        |piece: Seq<char>| piece.len() > 0,
    )
}

/// The pieces of a page: none where it is blank, one where it is short.
pub open spec fn pieces(page: Seq<char>) -> Seq<Seq<char>> {
    let chars = tidied(page);
    if chars.len() == 0 {
        Seq::empty()
    } else if chars.len() <= TARGET_CHARS {
        seq![chars]
    } else {
        stretch_texts(chars, stretches(chars, 0))
    }
}

fn find_chunk_end(chars: &[char], start: usize) -> (r: usize)
    requires
        start < chars@.len(),
    ensures
        r == chunk_end(chars@, start as int),
{
    if chars.len() - start <= TARGET_CHARS {
        return chars.len();
    }
    let full: usize = start + TARGET_CHARS;
    let low: usize = start + TARGET_CHARS / 2;
    let mut i: usize = full;
    while i > low
        invariant
            low <= i <= full,
            full == start + TARGET_CHARS,
            low == start + TARGET_CHARS / 2,
            full < chars@.len(),
            last_end(chars@, low as int, full as int) == last_end(chars@, low as int, i as int),
        decreases i,
    {
        let c = chars[i - 1];
        if c == '。' || c == '\n' || c == '.' {
            return i;
        }
        i -= 1;
    }
    full
}

pub fn split_chunks(page: &str) -> (r: Vec<String>)
    ensures
        text::views(r@) == pieces(page@),
{
    let normalized = collapse_ws(page);
    let chars = text::characters(normalized.as_str());
    let mut out: Vec<String> = Vec::new();
    if chars.len() == 0 {
        assert(text::views(out@) =~= Seq::empty());
        return out;
    }
    if chars.len() <= TARGET_CHARS {
        out.push(normalized);
        assert(text::views(out@) =~= seq![normalized@]);
        return out;
    }
    let ghost all = stretches(chars@, 0);
    let ghost mut done: Seq<(int, int)> = Seq::empty();
    let ghost f = |cut: (int, int)| stretch_text(chars@, cut);
    let ghost p = |piece: Seq<char>| piece.len() > 0;
    proof {
        reveal(Seq::filter);
        assert(done + all =~= all);
        assert(text::views(out@) =~= stretch_texts(chars@, done));
    }
    let mut start: usize = 0;
    let mut running = true;
    while running
        invariant
            f == (|cut: (int, int)| stretch_text(chars@, cut)),
            p == (|piece: Seq<char>| piece.len() > 0),
            running ==> start < chars@.len(),
            running ==> done + stretches(chars@, start as int) == all,
            !running ==> done == all,
            text::views(out@) == stretch_texts(chars@, done),
        decreases
            if running {
                chars@.len() - start + 1
            } else {
                0
            },
    {
        let end = find_chunk_end(chars.as_slice(), start);
        proof {
            lemma_chunk_end(chars@, start as int);
        }
        let piece = text::text_of(slice(&chars, start, end));
        let trimmed = text::owned(text::trim(piece.as_str()));
        let ghost before = out@;
        let ghost cut = (start as int, end as int);
        proof {
            reveal(Seq::filter);
            assert(done.push(cut).map_values(f) =~= done.map_values(f).push(f(cut)));
            assert(done.map_values(f).push(f(cut)).drop_last() =~= done.map_values(f));
        }
        if !trimmed.as_str().is_empty() {
            out.push(trimmed);
            assert(text::views(out@) =~= text::views(before).push(f(cut)));
        }
        let ghost old_done = done;
        proof {
            done = done.push(cut);
        }
        if end >= chars.len() {
            running = false;
            assert(old_done + seq![cut] =~= done);
        } else {
            start = end - OVERLAP_CHARS;
            assert(old_done + (seq![cut] + stretches(chars@, start as int)) =~= done + stretches(
                chars@,
                start as int,
            ));
        }
    }
    out
}

fn slice(chars: &Vec<char>, start: usize, end: usize) -> (r: &[char])
    requires
        start <= end <= chars@.len(),
    ensures
        r@ == chars@.subrange(start as int, end as int),
{
    vstd::slice::slice_subrange(chars.as_slice(), start, end)
}

/// The file that chunks come from.
pub struct Origin {
    pub path: Seq<char>,
    pub file_name: Seq<char>,
    pub title: Seq<char>,
}

/// A file by its path and its file name: the title is the stem of the name, and the path stands for
/// a name that is missing.
pub open spec fn origin(path: Seq<char>, name: Option<Seq<char>>) -> Origin {
    match name {
        Some(n) => Origin { path, file_name: n, title: paths::stem(n) },
        None => Origin { path, file_name: path, title: path },
    }
}

pub open spec fn chunk_of(from: Origin, page: u32, chunk: u32, text: Seq<char>) -> ChunkView {
    ChunkView { path: from.path, file_name: from.file_name, title: from.title, page, chunk, text }
}

/// The chunks of one page, counted from 1.
pub open spec fn page_chunks(from: Origin, page: int, texts: Seq<Seq<char>>) -> Seq<ChunkView> {
    texts.map(|i: int, t: Seq<char>| chunk_of(from, (page + 1) as u32, (i + 1) as u32, t))
}

pub open spec fn pages_chunks(from: Origin, pages: Seq<Seq<char>>) -> Seq<ChunkView>
    decreases pages.len(),
{
    if pages.len() == 0 {
        Seq::empty()
    } else {
        pages_chunks(from, pages.drop_last()) + page_chunks(
            from,
            pages.len() - 1,
            pieces(pages.last()),
        )
    }
}

/// The pages of a text, which form feeds divide.
pub open spec fn pages_of(text: Seq<char>) -> Seq<Seq<char>> {
    text::split_at_char(text, '\u{c}')
}

/// The chunks of a file; one that says so where there is no text.
pub open spec fn file_chunks(from: Origin, text: Seq<char>) -> Seq<ChunkView> {
    let chunks = pages_chunks(from, pages_of(text));
    if chunks.len() == 0 {
        seq![chunk_of(from, 1, 1, "(テキストを抽出できませんでした)"@)]
    } else {
        chunks
    }
}

fn make_chunk(
    path: &str,
    file_name: &str,
    title: &str,
    page: u32,
    chunk: u32,
    text: String,
) -> (r: PdfChunk)
    ensures
        r@ == chunk_of(
            Origin { path: path@, file_name: file_name@, title: title@ },
            page,
            chunk,
            text@,
        ),
{
    PdfChunk {
        path: text::owned(path),
        file_name: text::owned(file_name),
        title: text::owned(title),
        page,
        chunk,
        text,
    }
}

/// The chunks of a file whose path has this file name.
pub fn chunks_of_file(path: &str, name: Option<&str>, text: &str) -> (r: Vec<PdfChunk>)
    ensures
        chunk_views(r@) == file_chunks(
            origin(
                path@,
                match name {
                    Some(n) => Some(n@),
                    None => None,
                },
            ),
            text@,
        ),
{
    let file_name = match name {
        Some(name) => text::owned(name),
        None => text::owned(path),
    };
    let title = match name {
        Some(name) => paths::file_stem(name),
        None => text::owned(path),
    };
    let ghost from = Origin { path: path@, file_name: file_name@, title: title@ };
    let pages = text::split_text(text, '\u{c}');
    let ghost all = pages_of(text@);
    let mut docs: Vec<PdfChunk> = Vec::new();
    assert(chunk_views(docs@) =~= Seq::empty());
    for i in 0..pages.len()
        invariant
            text::views(pages@) == all,
            from == (Origin { path: path@, file_name: file_name@, title: title@ }),
            chunk_views(docs@) == pages_chunks(from, all.take(i as int)),
    {
        let ghost before = chunk_views(docs@);
        proof {
            assert(all.take(i + 1).drop_last() =~= all.take(i as int));
            assert(all.take(i + 1).last() == pages@[i as int]@);
        }
        let page: u32 = #[verifier::truncate]
        ((i + 1) as u32);
        let parts = split_chunks(pages[i].as_str());
        let ghost texts = pieces(pages@[i as int]@);
        let ghost whole = page_chunks(from, i as int, texts);
        let count = parts.len();
        let mut k: usize = 0;
        assert(before + whole.take(0) =~= before);
        for part in it: parts
            invariant
                texts == text::views(it.seq()),
                whole == page_chunks(from, i as int, texts),
                page == (i + 1) as u32,
                from == (Origin { path: path@, file_name: file_name@, title: title@ }),
                k == it.index(),
                chunk_views(docs@) == before + whole.take(k as int),
                it.seq().len() == count,
        {
            let ghost old_docs = docs@;
            let ghost t = part@;
            let chunk: u32 = #[verifier::truncate]
            ((k + 1) as u32);
            docs.push(
                make_chunk(path, file_name.as_str(), title.as_str(), page, chunk, part),
            );
            proof {
                assert(texts[k as int] == t);
                assert(whole[k as int] == chunk_of(from, page, chunk, t));
                assert(chunk_views(docs@) =~= chunk_views(old_docs).push(whole[k as int]));
                assert(before + whole.take(k + 1) =~= (before + whole.take(k as int)).push(
                    whole[k as int],
                ));
            }
            k += 1;
        }
        assert(whole.take(whole.len() as int) =~= whole);
    }
    assert(all.take(all.len() as int) =~= all);
    if docs.len() == 0 {
        docs.push(
            make_chunk(
                path,
                file_name.as_str(),
                title.as_str(),
                1,
                1,
                text::owned("(テキストを抽出できませんでした)"),
            ),
        );
        assert(chunk_views(docs@) =~= seq![
            chunk_of(from, 1, 1, "(テキストを抽出できませんでした)"@),
        ]);
    }
    docs
}

/// Cuts the text of a file into chunks, page by page.
pub fn chunks_from_text(path: &str, text: &str) -> (r: Vec<PdfChunk>)
    ensures
        exists|name: Option<Seq<char>>| #[trigger]
            paths::names_file(path@, name) && chunk_views(r@) == file_chunks(
                origin(path@, name),
                text@,
            ),
{
    let name = paths::file_name(path);
    let ghost n = paths::text_or_none(name);
    assert(paths::names_file(path@, n));
    match &name {
        Some(name) => chunks_of_file(path, Some(name.as_str()), text),
        None => chunks_of_file(path, None, text),
    }
}

/// Whether a text holds no space but single blanks and line breaks inside it.
pub open spec fn is_tidy(s: Seq<char>) -> bool {
    forall|i: int|
        0 <= i < s.len() && text::is_space(#[trigger] s[i]) ==> (s[i] == ' ' || s[i] == '\n') && 0
            < i && !text::is_space(s[i - 1])
}

proof fn lemma_squeezed_is_tidy(s: Seq<char>)
    ensures
        is_tidy(squeezed(s)),
    decreases s.len(),
{
    if s.len() > 0 {
        lemma_squeezed_is_tidy(s.drop_last());
        let out = squeezed(s.drop_last());
        let r = squeezed(s);
        assert forall|i: int| 0 <= i < r.len() && text::is_space(#[trigger] r[i]) implies (r[i]
            == ' ' || r[i] == '\n') && 0 < i && !text::is_space(r[i - 1]) by {
            if i < out.len() {
                assert(r[i] == out[i]);
            }
        }
    }
}

proof fn lemma_tidy_stays(s: Seq<char>)
    requires
        is_tidy(s),
    ensures
        squeezed(s) == s,
    decreases s.len(),
{
    if s.len() > 0 {
        let t = s.drop_last();
        assert forall|i: int| 0 <= i < t.len() && text::is_space(#[trigger] t[i]) implies (t[i]
            == ' ' || t[i] == '\n') && 0 < i && !text::is_space(t[i - 1]) by {
            assert(t[i] == s[i]);
        }
        lemma_tidy_stays(t);
        assert(t.push(s.last()) =~= s);
        if text::is_space(s.last()) {
            assert(s[s.len() - 1] == s.last());
            assert(t.last() == s[s.len() - 2]);
        }
    } else {
        assert(squeezed(s) =~= s);
    }
}

/// Tidied text holds only single blanks and line breaks between its words, no form feed and no
/// space at either end, and tidying it again changes nothing.
pub proof fn tidying_is_stable(s: Seq<char>)
    ensures
        is_tidy(tidied(s)),
        tidied(s).len() > 0 ==> !text::is_space(tidied(s).last()),
        forall|i: int| 0 <= i < tidied(s).len() ==> #[trigger] tidied(s)[i] != '\u{c}',
        tidied(tidied(s)) == tidied(s),
{
    let q = squeezed(s);
    lemma_squeezed_is_tidy(s);
    text::trimming_cuts_both_ends(q);
    let r = tidied(s);
    if r.len() > 0 {
        let k = choose|k: int| text::stands_at(q, r, k);
        assert forall|i: int| 0 <= i < r.len() implies #[trigger] r[i] == q[k + i] by {
            assert(q.subrange(k, k + r.len())[i] == q[k + i]);
        }
        assert forall|i: int| 0 <= i < r.len() && text::is_space(#[trigger] r[i]) implies (r[i]
            == ' ' || r[i] == '\n') && 0 < i && !text::is_space(r[i - 1]) by {
            assert(text::is_space(q[k + i]));
            if i > 0 {
                assert(r[i - 1] == q[k + i - 1]);
            }
        }
    }
    lemma_tidy_stays(r);
}

proof fn lemma_stretches(chars: Seq<char>, start: int)
    requires
        0 <= start < chars.len(),
    ensures
        stretches(chars, start).len() > 0,
        stretches(chars, start).len() <= chars.len() - start,
        stretches(chars, start)[0].0 == start,
        stretches(chars, start).last().1 == chars.len(),
        forall|i: int|
            0 <= i < stretches(chars, start).len() ==> {
                let s = #[trigger] stretches(chars, start)[i];
                start <= s.0 < s.1 <= chars.len() && s.1 <= s.0 + TARGET_CHARS
            },
        forall|i: int|
            0 < i < stretches(chars, start).len() ==> (#[trigger] stretches(chars, start)[i]).0
                == stretches(chars, start)[i - 1].1 - OVERLAP_CHARS,
    decreases chars.len() - start,
{
    lemma_chunk_end(chars, start);
    let end = chunk_end(chars, start);
    let all = stretches(chars, start);
    if end < chars.len() {
        let next = end - OVERLAP_CHARS;
        lemma_stretches(chars, next);
        let rest = stretches(chars, next);
        assert(all == seq![(start, end)] + rest);
        assert forall|i: int| 0 <= i < all.len() implies {
            let s = #[trigger] all[i];
            start <= s.0 < s.1 <= chars.len() && s.1 <= s.0 + TARGET_CHARS
        } by {
            if i > 0 {
                assert(all[i] == rest[i - 1]);
            }
        }
        assert forall|i: int| 0 < i < all.len() implies (#[trigger] all[i]).0 == all[i - 1].1
            - OVERLAP_CHARS by {
            assert(all[i] == rest[i - 1]);
            if i > 1 {
                assert(all[i - 1] == rest[i - 2]);
            }
        }
        assert(all.last() == rest.last());
    }
}

/// A text is cut without a gap: the first stretch begins with it, the last one ends with it, and
/// each of the others begins a fixed number of characters before the end of the one before it. None
/// is longer than a chunk may be.
pub proof fn stretches_cover_the_text(chars: Seq<char>)
    requires
        chars.len() > 0,
    ensures
        ({
            let all = stretches(chars, 0);
            &&& all.len() > 0
            &&& all[0].0 == 0
            &&& all.last().1 == chars.len()
            &&& forall|i: int|
                0 <= i < all.len() ==> {
                    let s = #[trigger] all[i];
                    0 <= s.0 < s.1 <= chars.len() && s.1 <= s.0 + TARGET_CHARS
                }
            &&& forall|i: int|
                0 < i < all.len() ==> (#[trigger] all[i]).0 == all[i - 1].1 - OVERLAP_CHARS
        }),
{
    lemma_stretches(chars, 0);
}

/// A stretch that does not end with the text ends behind the end of a sentence, unless there is
/// none in its second half.
pub proof fn stretches_end_with_sentences(chars: Seq<char>, start: int)
    requires
        0 <= start < chars.len(),
        chunk_end(chars, start) < chars.len(),
    ensures
        ends_sentence(chars[chunk_end(chars, start) - 1]) || (chunk_end(chars, start) == start
            + TARGET_CHARS && forall|i: int|
            start + TARGET_CHARS / 2 <= i < start + TARGET_CHARS ==> !ends_sentence(
                #[trigger] chars[i],
            )),
{
    lemma_last_end(chars, start + TARGET_CHARS / 2, start + TARGET_CHARS);
}

/// Every piece of a page holds text, fits into a chunk and has no space round it, and a page that is
/// not blank has a piece.
pub proof fn pieces_fit(page: Seq<char>)
    ensures
        forall|i: int|
            0 <= i < pieces(page).len() ==> {
                let piece = #[trigger] pieces(page)[i];
                0 < piece.len() <= TARGET_CHARS && !text::is_space(piece[0]) && !text::is_space(
                    piece.last(),
                )
            },
        pieces(page).len() <= tidied(page).len(),
        tidied(page).len() > 0 ==> pieces(page).len() > 0,
{
    let chars = tidied(page);
    tidying_is_stable(page);
    text::trimming_cuts_both_ends(squeezed(page));
    if chars.len() > TARGET_CHARS {
        lemma_stretches(chars, 0);
        let all = stretches(chars, 0);
        let f = |cut: (int, int)| stretch_text(chars, cut);
        let p = |piece: Seq<char>| piece.len() > 0;
        let texts = all.map_values(f);
        let kept = texts.filter(p);
        assert forall|i: int| 0 <= i < kept.len() implies {
            let piece = #[trigger] kept[i];
            0 < piece.len() <= TARGET_CHARS && !text::is_space(piece[0]) && !text::is_space(
                piece.last(),
            )
        } by {
            texts.lemma_filter_pred(p, i);
            assert(p(kept[i]));
            lemma_filter_source(texts, p, i);
            let j = choose|j: int| 0 <= j < texts.len() && texts[j] == kept[i];
            assert(texts[j] == stretch_text(chars, all[j]));
            text::trimming_cuts_both_ends(chars.subrange(all[j].0, all[j].1));
        }
        texts.lemma_filter_len(p);
        let first = chars.subrange(all[0].0, all[0].1);
        assert(first[0] == chars[0]);
        text::lemma_blank(first);
        assert(texts[0] == text::trimmed(first));
        texts.lemma_filter_contains(p, 0);
        assert(kept.contains(texts[0]));
    }
}

pub(crate) proof fn lemma_filter_source<A>(s: Seq<A>, p: spec_fn(A) -> bool, i: int)
    requires
        0 <= i < s.filter(p).len(),
    ensures
        exists|j: int| 0 <= j < s.len() && s[j] == s.filter(p)[i],
    decreases s.len(),
{
    reveal(Seq::filter);
    let t = s.drop_last();
    if i < t.filter(p).len() {
        lemma_filter_source(t, p, i);
        let j = choose|j: int| 0 <= j < t.len() && t[j] == t.filter(p)[i];
        assert(s[j] == s.filter(p)[i]);
    } else {
        assert(s[s.len() - 1] == s.filter(p)[i]);
    }
}

proof fn lemma_split_sizes(s: Seq<char>, sep: char)
    ensures
        0 < text::split_at_char(s, sep).len() <= s.len() + 1,
        forall|i: int|
            0 <= i < text::split_at_char(s, sep).len() ==> (#[trigger] text::split_at_char(
                s,
                sep,
            )[i]).len() <= s.len(),
    decreases s.len(),
{
    if s.len() > 0 {
        lemma_split_sizes(s.drop_last(), sep);
    }
}

proof fn lemma_squeezed_len(s: Seq<char>)
    ensures
        squeezed(s).len() <= s.len(),
    decreases s.len(),
{
    if s.len() > 0 {
        lemma_squeezed_len(s.drop_last());
    }
}

/// Whether a chunk comes before another one in its file.
pub open spec fn precedes(a: ChunkView, b: ChunkView) -> bool {
    a.page < b.page || (a.page == b.page && a.chunk < b.chunk)
}

proof fn lemma_pages_chunks(from: Origin, pages: Seq<Seq<char>>, most: nat)
    requires
        pages.len() <= u32::MAX,
        most <= u32::MAX,
        forall|i: int| 0 <= i < pages.len() ==> (#[trigger] pages[i]).len() <= most,
    ensures
        forall|i: int|
            0 <= i < pages_chunks(from, pages).len() ==> {
                let c = #[trigger] pages_chunks(from, pages)[i];
                &&& c.path == from.path && c.file_name == from.file_name && c.title == from.title
                &&& 1 <= c.page <= pages.len()
                &&& 1 <= c.chunk
                &&& 0 < c.text.len() <= TARGET_CHARS
            },
        forall|i: int, j: int|
            0 <= i < j < pages_chunks(from, pages).len() ==> precedes(
                #[trigger] pages_chunks(from, pages)[i],
                #[trigger] pages_chunks(from, pages)[j],
            ),
    decreases pages.len(),
{
    if pages.len() > 0 {
        let front = pages.drop_last();
        assert forall|i: int| 0 <= i < front.len() implies (#[trigger] front[i]).len() <= most by {
            assert(front[i] == pages[i]);
        }
        lemma_pages_chunks(from, front, most);
        let page = pages.last();
        pieces_fit(page);
        lemma_squeezed_len(page);
        text::trimming_cuts_both_ends(squeezed(page));
        let before = pages_chunks(from, front);
        let texts = pieces(page);
        let added = page_chunks(from, pages.len() - 1, texts);
        let all = pages_chunks(from, pages);
        assert(pages[pages.len() - 1].len() <= most);
        assert forall|k: int| 0 <= k < added.len() implies #[trigger] added[k] == chunk_of(
            from,
            pages.len() as u32,
            (k + 1) as u32,
            texts[k],
        ) by {}
        assert forall|i: int| 0 <= i < all.len() implies {
            let c = #[trigger] all[i];
            &&& c.path == from.path && c.file_name == from.file_name && c.title == from.title
            &&& 1 <= c.page <= pages.len()
            &&& 1 <= c.chunk
            &&& 0 < c.text.len() <= TARGET_CHARS
        } by {
            if i < before.len() {
                assert(all[i] == before[i]);
            } else {
                assert(all[i] == added[i - before.len()]);
                assert(0 < texts[i - before.len()].len() <= TARGET_CHARS);
            }
        }
        assert forall|i: int, j: int| 0 <= i < j < all.len() implies precedes(
            #[trigger] all[i],
            #[trigger] all[j],
        ) by {
            if j < before.len() {
                assert(all[i] == before[i] && all[j] == before[j]);
            } else {
                assert(all[j] == added[j - before.len()]);
                if i < before.len() {
                    assert(all[i] == before[i]);
                } else {
                    assert(all[i] == added[i - before.len()]);
                }
            }
        }
    }
}

/// A file always has a chunk. Each chunk names the file, holds text and is no longer than a chunk
/// may be, and the chunks stand in the order of their pages and numbers, so that no two of them
/// share both.
pub proof fn chunks_are_in_order(from: Origin, text: Seq<char>)
    requires
        text.len() < u32::MAX,
    ensures
        file_chunks(from, text).len() > 0,
        forall|i: int|
            0 <= i < file_chunks(from, text).len() ==> {
                let c = #[trigger] file_chunks(from, text)[i];
                &&& c.path == from.path && c.file_name == from.file_name && c.title == from.title
                &&& 1 <= c.page && 1 <= c.chunk
                &&& 0 < c.text.len() <= TARGET_CHARS
            },
        forall|i: int, j: int|
            0 <= i < j < file_chunks(from, text).len() ==> precedes(
                #[trigger] file_chunks(from, text)[i],
                #[trigger] file_chunks(from, text)[j],
            ),
{
    lemma_split_sizes(text, '\u{c}');
    lemma_pages_chunks(from, pages_of(text), text.len());
    reveal_strlit("(テキストを抽出できませんでした)");
}

/// A title line for a file.
pub open spec fn title_line(title: Seq<char>) -> Seq<char> {
    "# "@ + title + "\n\n"@
}

/// Markdown that is being written: the text, and whether it holds a page.
pub struct Draft {
    pub text: Seq<char>,
    pub wrote_page: bool,
}

/// The draft with one more page, which a blank line divides from the others; a blank page is left
/// out.
pub open spec fn with_page(draft: Draft, body: Seq<char>) -> Draft {
    if text::trimmed(body).len() == 0 {
        draft
    } else {
        let start = if draft.wrote_page {
            draft.text.push('\n')
        } else {
            draft.text
        };
        Draft {
            text: if body.last() == '\n' {
                start + body
            } else {
                (start + body).push('\n')
            },
            wrote_page: true,
        }
    }
}

pub open spec fn with_pages(draft: Draft, bodies: Seq<Seq<char>>) -> Draft
    decreases bodies.len(),
{
    if bodies.len() == 0 {
        draft
    } else {
        with_page(with_pages(draft, bodies.drop_last()), bodies.last())
    }
}

pub open spec fn empty_draft(title: Seq<char>) -> Draft {
    Draft { text: title_line(title), wrote_page: false }
}

/// The title of a file in Markdown: the stem of its name, or its path.
pub open spec fn markdown_title(path: Seq<char>, name: Option<Seq<char>>) -> Seq<char> {
    match name {
        Some(n) => paths::stem(n),
        None => path,
    }
}

fn push_markdown_title(out: &mut String, path: &str, name: Option<&str>)
    ensures
        final(out)@ == old(out)@ + title_line(
            markdown_title(
                path@,
                match name {
                    Some(n) => Some(n@),
                    None => None,
                },
            ),
        ),
{
    out.append("# ");
    match name {
        Some(name) => {
            let title = paths::file_stem(name);
            out.append(title.as_str());
        },
        None => out.append(path),
    }
    out.append("\n\n");
    assert(out@ =~= old(out)@ + title_line(
        markdown_title(
            path@,
            match name {
                Some(n) => Some(n@),
                None => None,
            },
        ),
    ));
}

fn push_markdown_page(out: &mut String, wrote_page: &mut bool, body: &str)
    ensures
        (Draft { text: final(out)@, wrote_page: *final(wrote_page) }) == with_page(
            Draft { text: old(out)@, wrote_page: *old(wrote_page) },
            body@,
        ),
{
    if text::is_blank(body) {
        return;
    }
    proof {
        text::trimming_cuts_both_ends(body@);
    }
    let chars = text::characters(body);
    if *wrote_page {
        out.push('\n');
    }
    out.append(body);
    if chars[chars.len() - 1] != '\n' {
        out.push('\n');
    }
    *wrote_page = true;
}

/// The Markdown of a file whose pages have these bodies; there must be one that is not blank.
pub fn markdown_of_pages(path: &str, name: Option<&str>, bodies: &[String]) -> (r: (String, bool))
    ensures
        (Draft { text: r.0@, wrote_page: r.1 }) == with_pages(
            empty_draft(
                markdown_title(
                    path@,
                    match name {
                        Some(n) => Some(n@),
                        None => None,
                    },
                ),
            ),
            text::views(bodies@),
        ),
{
    let mut out = String::new();
    push_markdown_title(&mut out, path, name);
    let mut wrote_page = false;
    let ghost start = Draft { text: out@, wrote_page };
    let ghost all = text::views(bodies@);
    assert(Seq::<char>::empty() + out@ =~= out@);
    for i in 0..bodies.len()
        invariant
            all == text::views(bodies@),
            (Draft { text: out@, wrote_page }) == with_pages(start, all.take(i as int)),
    {
        assert(all.take(i + 1).drop_last() =~= all.take(i as int));
        assert(all.take(i + 1).last() == bodies@[i as int]@);
        push_markdown_page(&mut out, &mut wrote_page, bodies[i].as_str());
    }
    assert(all.take(all.len() as int) =~= all);
    (out, wrote_page)
}

/// Markdown from a text whose pages form feeds divide.
pub fn markdown_from_text(path: &str, text: &str) -> (r: String)
    ensures
        exists|name: Option<Seq<char>>| #[trigger]
            paths::names_file(path@, name) && r@ == with_pages(
                empty_draft(markdown_title(path@, name)),
                pages_of(text@).map_values(|page: Seq<char>| tidied(page)),
            ).text,
{
    let pages = text::split_text(text, '\u{c}');
    let ghost f = |page: Seq<char>| tidied(page);
    let ghost all = pages_of(text@).map_values(f);
    let mut bodies: Vec<String> = Vec::new();
    assert(text::views(bodies@) =~= all.take(0));
    for i in 0..pages.len()
        invariant
            text::views(pages@) == pages_of(text@),
            f == (|page: Seq<char>| tidied(page)),
            all == pages_of(text@).map_values(f),
            text::views(bodies@) == all.take(i as int),
    {
        let ghost before = bodies@;
        bodies.push(collapse_ws(pages[i].as_str()));
        proof {
            assert(pages_of(text@)[i as int] == pages@[i as int]@);
            assert(text::views(bodies@) =~= text::views(before).push(all[i as int]));
            assert(all.take(i + 1) =~= all.take(i as int).push(all[i as int]));
        }
    }
    assert(all.take(all.len() as int) =~= all);
    let name = paths::file_name(path);
    let ghost n = paths::text_or_none(name);
    assert(paths::names_file(path@, n));
    match &name {
        Some(name) => markdown_of_pages(path, Some(name.as_str()), bodies.as_slice()).0,
        None => markdown_of_pages(path, None, bodies.as_slice()).0,
    }
}

/// The pages of a document by their blocks.
pub open spec fn page_views(pages: Seq<Vec<PageBlock>>) -> Seq<Seq<blocks::Block>> {
    pages.map_values(|page: Vec<PageBlock>| blocks::block_views(page@))
}

/// Markdown for pages that were put together; without text there is none.
pub open spec fn pages_markdown(title: Seq<char>, pages: Seq<Seq<blocks::Block>>) -> Result<
    Seq<char>,
    Seq<char>,
> {
    let draft = with_pages(
        empty_draft(title),
        pages.map_values(|page: Seq<blocks::Block>| blocks::blocks_written(page)),
    );
    if draft.wrote_page {
        Ok(draft.text)
    } else {
        Err("テキストが空でした"@)
    }
}

/// Markdown for a file whose path has this file name.
pub fn markdown_of_blocks(path: &str, name: Option<&str>, pages: &[Vec<PageBlock>]) -> (r: Result<
    String,
    String,
>)
    ensures
        text::result_view(r) == pages_markdown(
            markdown_title(
                path@,
                match name {
                    Some(n) => Some(n@),
                    None => None,
                },
            ),
            page_views(pages@),
        ),
{
    let ghost f = |page: Seq<blocks::Block>| blocks::blocks_written(page);
    let ghost all = page_views(pages@).map_values(f);
    let mut bodies: Vec<String> = Vec::new();
    assert(text::views(bodies@) =~= all.take(0));
    for i in 0..pages.len()
        invariant
            f == (|page: Seq<blocks::Block>| blocks::blocks_written(page)),
            all == page_views(pages@).map_values(f),
            text::views(bodies@) == all.take(i as int),
    {
        let ghost before = bodies@;
        bodies.push(blocks::blocks_to_markdown(pages[i].as_slice()));
        proof {
            assert(page_views(pages@)[i as int] == blocks::block_views(pages@[i as int]@));
            assert(text::views(bodies@) =~= text::views(before).push(all[i as int]));
            assert(all.take(i + 1) =~= all.take(i as int).push(all[i as int]));
        }
    }
    assert(all.take(all.len() as int) =~= all);
    let (out, wrote_page) = markdown_of_pages(path, name, bodies.as_slice());
    if !wrote_page {
        return Err(text::owned("テキストが空でした"));
    }
    Ok(out)
}

/// Markdown for a file, from its pages or what kept them from being read.
pub fn markdown_from_pdf(path: &str, pages: Result<Vec<Vec<PageBlock>>, String>) -> (r: Result<
    String,
    String,
>)
    ensures
        exists|name: Option<Seq<char>>| #[trigger]
            paths::names_file(path@, name) && text::result_view(r) == match pages {
                Ok(pages) => pages_markdown(markdown_title(path@, name), page_views(pages@)),
                Err(err) => Err(err@),
            },
{
    let name = paths::file_name(path);
    let ghost n = paths::text_or_none(name);
    assert(paths::names_file(path@, n));
    match pages {
        Ok(pages) => match &name {
            Some(name) => markdown_of_blocks(path, Some(name.as_str()), pages.as_slice()),
            None => markdown_of_blocks(path, None, pages.as_slice()),
        },
        Err(err) => Err(err),
    }
}

/// The plain text of pages, with form feeds between them.
pub open spec fn pages_plain(pages: Seq<Seq<blocks::Block>>) -> Seq<char> {
    text::joined(
        pages.map_values(|page: Seq<blocks::Block>| blocks::blocks_plain(page)),
        seq!['\u{c}'],
    )
}

/// The plain text of a file, from its pages or what kept them from being read.
pub fn extract_with_pdf_oxide(pages: Result<Vec<Vec<PageBlock>>, String>) -> (r: Result<
    String,
    String,
>)
    ensures
        text::result_view(r) == match pages {
            Ok(pages) => Ok(pages_plain(page_views(pages@))),
            Err(err) => Err(err@),
        },
{
    match pages {
        Ok(pages) => {
            let ghost f = |page: Seq<blocks::Block>| blocks::blocks_plain(page);
            let ghost all = page_views(pages@).map_values(f);
            let mut texts: Vec<String> = Vec::new();
            assert(text::views(texts@) =~= all.take(0));
            for i in 0..pages.len()
                invariant
                    f == (|page: Seq<blocks::Block>| blocks::blocks_plain(page)),
                    all == page_views(pages@).map_values(f),
                    text::views(texts@) == all.take(i as int),
            {
                let ghost before = texts@;
                texts.push(blocks::blocks_to_plain(pages[i].as_slice()));
                proof {
                    assert(page_views(pages@)[i as int] == blocks::block_views(pages@[i as int]@));
                    assert(text::views(texts@) =~= text::views(before).push(all[i as int]));
                    assert(all.take(i + 1) =~= all.take(i as int).push(all[i as int]));
                }
            }
            proof {
                assert(all.take(all.len() as int) =~= all);
                reveal_strlit("\u{c}");
                assert("\u{c}"@ =~= seq!['\u{c}']);
            }
            Ok(text::join_texts(texts.as_slice(), "\u{c}"))
        },
        Err(err) => Err(err),
    }
}

/// How work that may panic has ended: with a result, or with a panic and its message, if it had
/// one.
pub enum Guarded {
    Finished(Result<String, String>),
    Panicked(Option<String>),
}

pub open spec fn extraction_error(path: Seq<char>, detail: Seq<char>) -> Seq<char> {
    path + ": PDF のテキスト抽出に失敗しました。"@ + detail
}

pub fn format_extraction_error(path: &str, detail: &str) -> (r: String)
    ensures
        r@ == extraction_error(path@, detail@),
{
    let mut out = text::owned(path);
    out.append(": PDF のテキスト抽出に失敗しました。");
    out.append(detail);
    out
}

pub open spec fn panic_text(message: Option<String>) -> Seq<char> {
    match message {
        Some(message) => message@,
        None => "PDF 解析中にパニックしました"@,
    }
}

pub fn panic_to_string(message: Option<String>) -> (r: String)
    ensures
        r@ == panic_text(message),
{
    match message {
        Some(message) => message,
        None => text::owned("PDF 解析中にパニックしました"),
    }
}

/// The text of a file, unless it could not be extracted. It may be blank: a file that holds only
/// scanned pages has none.
pub open spec fn extracted(path: Seq<char>, outcome: Guarded) -> Result<Seq<char>, Seq<char>> {
    match outcome {
        Guarded::Finished(Ok(text)) => Ok(text@),
        Guarded::Finished(Err(err)) => Err(extraction_error(path, err@)),
        Guarded::Panicked(message) => Err(extraction_error(path, panic_text(message))),
    }
}

pub fn extract_text(path: &str, outcome: Guarded) -> (r: Result<String, String>)
    ensures
        text::result_view(r) == extracted(path@, outcome),
{
    match outcome {
        Guarded::Finished(Ok(text)) => Ok(text),
        Guarded::Finished(Err(err)) => Err(format_extraction_error(path, err.as_str())),
        Guarded::Panicked(message) => Err(
            format_extraction_error(path, panic_to_string(message).as_str()),
        ),
    }
}

/// The chunks of a file, from what its extraction ended with. A file without text is kept too, with
/// the one chunk that says so.
pub fn structure_pdf(path: &str, outcome: Guarded) -> (r: Result<Vec<PdfChunk>, String>)
    ensures
        match outcome {
            Guarded::Finished(Ok(text)) => r matches Ok(chunks) && exists|
                name: Option<Seq<char>>,
            | #[trigger]
                paths::names_file(path@, name) && chunk_views(chunks@) == file_chunks(
                    origin(path@, name),
                    text@,
                ),
            Guarded::Finished(Err(err)) => r matches Err(e) && e@ == extraction_error(path@, err@),
            Guarded::Panicked(message) => r matches Err(e) && e@ == extraction_error(
                path@,
                panic_text(message),
            ),
        },
{
    match extract_text(path, outcome) {
        Ok(text) => Ok(chunks_from_text(path, text.as_str())),
        Err(err) => Err(err),
    }
}

/// The Markdown of a file, from what its conversion ended with.
pub fn pdf_to_markdown(path: &str, outcome: Guarded) -> (r: Result<String, String>)
    ensures
        text::result_view(r) == match outcome {
            Guarded::Finished(Ok(markdown)) => Ok(markdown@),
            Guarded::Finished(Err(err)) => Err(extraction_error(path@, err@)),
            Guarded::Panicked(message) => Err(extraction_error(path@, panic_text(message))),
        },
{
    match outcome {
        Guarded::Finished(Ok(markdown)) => Ok(markdown),
        Guarded::Finished(Err(err)) => Err(format_extraction_error(path, err.as_str())),
        Guarded::Panicked(message) => Err(
            format_extraction_error(path, panic_to_string(message).as_str()),
        ),
    }
}

/// The name under which the Markdown of a file is saved.
pub open spec fn markdown_name(name: Option<Seq<char>>) -> Seq<char> {
    match name {
        Some(n) => paths::stem(n) + ".md"@,
        None => "converted.md"@,
    }
}

/// The name that is offered for saving the Markdown of a file.
pub fn markdown_file_name(path: &str) -> (r: String)
    ensures
        exists|name: Option<Seq<char>>| #[trigger]
            paths::names_file(path@, name) && r@ == markdown_name(name),
{
    let name = paths::file_name(path);
    let ghost n = paths::text_or_none(name);
    assert(paths::names_file(path@, n));
    match name {
        Some(name) => {
            let mut out = paths::file_stem(name.as_str());
            out.append(".md");
            out
        },
        None => text::owned("converted.md"),
    }
}

/// Markdown begins with the title of its file, and it holds a page exactly where one of the bodies
/// is not blank.
pub proof fn markdown_has_title_and_pages(title: Seq<char>, bodies: Seq<Seq<char>>)
    ensures
        title_line(title).is_prefix_of(with_pages(empty_draft(title), bodies).text),
        with_pages(empty_draft(title), bodies).wrote_page <==> exists|i: int|
            0 <= i < bodies.len() && text::trimmed(#[trigger] bodies[i]).len() > 0,
        !with_pages(empty_draft(title), bodies).wrote_page ==> with_pages(
            empty_draft(title),
            bodies,
        ).text == title_line(title),
    decreases bodies.len(),
{
    let line = title_line(title);
    if bodies.len() == 0 {
        assert(line.subrange(0, line.len() as int) =~= line);
    } else {
        let front = bodies.drop_last();
        markdown_has_title_and_pages(title, front);
        let before = with_pages(empty_draft(title), front);
        let draft = with_pages(empty_draft(title), bodies);
        assert(draft.text.subrange(0, line.len() as int) =~= before.text.subrange(
            0,
            line.len() as int,
        ));
        if text::trimmed(bodies.last()).len() > 0 {
            assert(bodies[bodies.len() - 1] == bodies.last());
        } else if before.wrote_page {
            let i = choose|i: int| 0 <= i < front.len() && text::trimmed(#[trigger] front[i]).len()
                > 0;
            assert(bodies[i] == front[i]);
        } else {
            assert forall|i: int| 0 <= i < bodies.len() implies text::trimmed(
                #[trigger] bodies[i],
            ).len() == 0 by {
                if i < front.len() {
                    assert(front[i] == bodies[i]);
                }
            }
        }
    }
}

/// The pages of a file come back, in their order, when its plain text is cut at the form feeds.
pub proof fn plain_pages_come_back(pages: Seq<Seq<blocks::Block>>)
    requires
        pages.len() > 0,
        forall|i: int|
            0 <= i < pages.len() ==> !blocks::blocks_plain(#[trigger] pages[i]).contains('\u{c}'),
    ensures
        pages_of(pages_plain(pages)) == pages.map_values(
            |page: Seq<blocks::Block>| blocks::blocks_plain(page),
        ),
{
    let texts = pages.map_values(|page: Seq<blocks::Block>| blocks::blocks_plain(page));
    assert forall|i: int| 0 <= i < texts.len() implies !(#[trigger] texts[i]).contains('\u{c}') by {
        assert(texts[i] == blocks::blocks_plain(pages[i]));
    }
    text::splitting_undoes_joining(texts, '\u{c}');
}

proof fn lemma_squeezed_blank(s: Seq<char>)
    requires
        forall|i: int| 0 <= i < s.len() ==> text::is_space(#[trigger] s[i]),
    ensures
        squeezed(s).len() == 0,
    decreases s.len(),
{
    if s.len() > 0 {
        let front = s.drop_last();
        assert forall|i: int| 0 <= i < front.len() implies text::is_space(#[trigger] front[i]) by {
            assert(front[i] == s[i]);
        }
        lemma_squeezed_blank(front);
        assert(s.last() == s[s.len() - 1]);
    }
}

proof fn lemma_blank_pages(from: Origin, pages: Seq<Seq<char>>)
    requires
        forall|i: int, k: int|
            0 <= i < pages.len() && 0 <= k < pages[i].len() ==> text::is_space(
                #[trigger] pages[i][k],
            ),
    ensures
        pages_chunks(from, pages).len() == 0,
    decreases pages.len(),
{
    if pages.len() > 0 {
        let front = pages.drop_last();
        assert forall|i: int, k: int| 0 <= i < front.len() && 0 <= k < front[i].len() implies
            text::is_space(#[trigger] front[i][k]) by {
            assert(front[i][k] == pages[i][k]);
        }
        lemma_blank_pages(from, front);
        let last = pages.last();
        assert forall|k: int| 0 <= k < last.len() implies text::is_space(#[trigger] last[k]) by {
            assert(last[k] == pages[pages.len() - 1][k]);
        }
        lemma_squeezed_blank(last);
        text::trimming_cuts_both_ends(squeezed(last));
    }
}

proof fn lemma_split_characters(s: Seq<char>, sep: char)
    requires
        forall|i: int| 0 <= i < s.len() ==> text::is_space(#[trigger] s[i]),
    ensures
        ({
            let parts = text::split_at_char(s, sep);
            forall|i: int, k: int|
                0 <= i < parts.len() && 0 <= k < parts[i].len() ==> text::is_space(
                    #[trigger] parts[i][k],
                )
        }),
    decreases s.len(),
{
    if s.len() > 0 {
        let front = s.drop_last();
        assert forall|i: int| 0 <= i < front.len() implies text::is_space(#[trigger] front[i]) by {
            assert(front[i] == s[i]);
        }
        lemma_split_characters(front, sep);
        text::lemma_split_nonempty(front, sep);
        assert(s.last() == s[s.len() - 1]);
        let before = text::split_at_char(front, sep);
        let parts = text::split_at_char(s, sep);
        assert forall|i: int, k: int| 0 <= i < parts.len() && 0 <= k < parts[i].len() implies
            text::is_space(#[trigger] parts[i][k]) by {
            if i < before.len() && k < before[i].len() {
                assert(parts[i][k] == before[i][k]);
            }
        }
    }
}

/// A file without text is kept as the one chunk that says so.
pub proof fn files_without_text_are_kept(from: Origin, text: Seq<char>)
    requires
        text::trimmed(text).len() == 0,
    ensures
        file_chunks(from, text) == seq![
            chunk_of(from, 1, 1, "(テキストを抽出できませんでした)"@),
        ],
{
    text::lemma_blank(text);
    lemma_split_characters(text, '\u{c}');
    lemma_blank_pages(from, pages_of(text));
}

proof fn lemma_squeezing_keeps_text(s: Seq<char>)
    ensures
        text::ink(squeezed(s)) == text::ink(s),
    decreases s.len(),
{
    if s.len() > 0 {
        let front = s.drop_last();
        lemma_squeezing_keeps_text(front);
        assert(front.push(s.last()) =~= s);
        text::lemma_ink_push(front, s.last());
        let out = squeezed(front);
        text::lemma_ink_push(out, s.last());
        text::lemma_ink_push(out, ' ');
        text::lemma_ink_push(out, '\n');
    }
}

/// Tidying takes away spaces alone: all other characters stay, in their order.
pub proof fn tidying_keeps_text(s: Seq<char>)
    ensures
        text::ink(tidied(s)) == text::ink(s),
{
    lemma_squeezing_keeps_text(s);
    text::trimming_keeps_text(squeezed(s));
}

proof fn lemma_squeezed_goes_on(a: Seq<char>, b: Seq<char>)
    requires
        b.len() > 0,
        !text::is_space(b[0]),
    ensures
        squeezed(a + b) == squeezed(a) + squeezed(b),
        squeezed(b).len() > 0,
        squeezed(b)[0] == b[0],
    decreases b.len(),
{
    assert((a + b).drop_last() =~= a + b.drop_last());
    assert((a + b).last() == b.last());
    if b.len() == 1 {
        assert(a + b.drop_last() =~= a);
        assert(b.drop_last() =~= Seq::<char>::empty());
        assert(squeezed(b.drop_last()) =~= Seq::<char>::empty());
        assert(squeezed(b) =~= seq![b[0]]);
        assert(squeezed(a + b) =~= squeezed(a) + squeezed(b));
    } else {
        lemma_squeezed_goes_on(a, b.drop_last());
        let out = squeezed(b.drop_last());
        assert((squeezed(a) + out).last() == out.last());
        assert(squeezed(a + b) =~= squeezed(a) + squeezed(b));
    }
}

proof fn lemma_squeezed_run(a: Seq<char>, run: Seq<char>)
    requires
        a.len() > 0,
        !text::is_space(a.last()),
        run.len() > 0,
        run[0] != '\u{c}',
        forall|i: int| 0 <= i < run.len() ==> text::is_space(#[trigger] run[i]),
    ensures
        squeezed(a + run) == squeezed(a).push(
            if run[0] == '\n' {
                '\n'
            } else {
                ' '
            },
        ),
        squeezed(a).len() > 0,
        squeezed(a).last() == a.last(),
    decreases run.len(),
{
    assert((a + run).drop_last() =~= a + run.drop_last());
    assert((a + run).last() == run.last());
    assert(run[run.len() - 1] == run.last());
    if run.len() == 1 {
        assert(a + run.drop_last() =~= a);
    } else {
        let front = run.drop_last();
        assert forall|i: int| 0 <= i < front.len() implies text::is_space(#[trigger] front[i]) by {
            assert(front[i] == run[i]);
        }
        lemma_squeezed_run(a, front);
    }
}

proof fn lemma_trimmed_is_whole(s: Seq<char>)
    requires
        s.len() > 0,
        !text::is_space(s[0]),
        !text::is_space(s.last()),
    ensures
        text::trimmed(s) == s,
{
}

proof fn lemma_squeezed_word(s: Seq<char>)
    requires
        s.len() > 0,
        !text::is_space(s.last()),
    ensures
        tidied(s) == squeezed(s),
        squeezed(s).len() > 0,
        squeezed(s).last() == s.last(),
        !text::is_space(squeezed(s)[0]),
{
    lemma_squeezed_is_tidy(s);
    lemma_trimmed_is_whole(squeezed(s));
}

/// A run of spaces between words becomes a line break where it begins with one, and else a blank;
/// words with nothing between them stay together.
pub proof fn tidying_keeps_words_apart(a: Seq<char>, run: Seq<char>, b: Seq<char>)
    requires
        a.len() > 0,
        !text::is_space(a.last()),
        b.len() > 0,
        !text::is_space(b[0]),
        !text::is_space(b.last()),
        run.len() > 0 ==> run[0] != '\u{c}',
        forall|i: int| 0 <= i < run.len() ==> text::is_space(#[trigger] run[i]),
    ensures
        run.len() == 0 ==> tidied(a + b) == tidied(a) + tidied(b),
        run.len() > 0 && run[0] == '\n' ==> tidied(a + run + b) == tidied(a).push('\n') + tidied(b),
        run.len() > 0 && run[0] != '\n' ==> tidied(a + run + b) == tidied(a).push(' ') + tidied(b),
{
    lemma_squeezed_word(a);
    lemma_squeezed_word(b);
    if run.len() == 0 {
        lemma_squeezed_goes_on(a, b);
        lemma_squeezed_word(a + b);
    } else {
        lemma_squeezed_run(a, run);
        lemma_squeezed_goes_on(a + run, b);
        lemma_squeezed_word(a + run + b);
    }
}

proof fn lemma_stretch_ends(chars: Seq<char>, start: int, i: int)
    requires
        0 <= start < chars.len(),
        0 <= i < stretches(chars, start).len(),
    ensures
        0 <= stretches(chars, start)[i].0 < chars.len(),
        stretches(chars, start)[i].1 == chunk_end(chars, stretches(chars, start)[i].0),
        i < stretches(chars, start).len() - 1 <==> stretches(chars, start)[i].1 < chars.len(),
    decreases chars.len() - start,
{
    lemma_chunk_end(chars, start);
    lemma_stretches(chars, start);
    let end = chunk_end(chars, start);
    if end < chars.len() {
        let next = end - OVERLAP_CHARS;
        let rest = stretches(chars, next);
        lemma_stretches(chars, next);
        if i > 0 {
            assert(stretches(chars, start)[i] == rest[i - 1]);
            lemma_stretch_ends(chars, next, i - 1);
        }
    }
}

/// A text is cut into stretches of at most 1800 characters. One that the text does not end with ends
/// behind the last of its second half that ends a sentence, and with 1800 characters where there is
/// none; the next one begins 120 characters before that.
pub proof fn texts_are_cut_behind_sentences(chars: Seq<char>, i: int)
    requires
        0 <= i < stretches(chars, 0).len(),
        chars.len() > 0,
    ensures
        ({
            let all = stretches(chars, 0);
            let start = all[i].0;
            let end = all[i].1;
            &&& i == 0 ==> start == 0
            &&& i == all.len() - 1 ==> end == chars.len() && end - start <= 1800
            &&& i < all.len() - 1 ==> {
                &&& start + 900 < end <= start + 1800
                &&& end < chars.len()
                &&& all[i + 1].0 == end - 120
                &&& (end == start + 1800 && forall|k: int|
                    start + 900 <= k < start + 1800 ==> #[trigger] chars[k] != '。' && chars[k]
                        != '\n' && chars[k] != '.') || ((chars[end - 1] == '。' || chars[end - 1]
                    == '\n' || chars[end - 1] == '.') && forall|k: int|
                    end <= k < start + 1800 ==> #[trigger] chars[k] != '。' && chars[k] != '\n'
                        && chars[k] != '.')
            }
        }),
{
    lemma_stretches(chars, 0);
    lemma_stretch_ends(chars, 0, i);
    let all = stretches(chars, 0);
    let start = all[i].0;
    lemma_chunk_end(chars, start);
    if i < all.len() - 1 {
        lemma_last_end(chars, start + 900, start + 1800);
        assert(all[i + 1].0 == all[i].1 - OVERLAP_CHARS);
    }
}

proof fn lemma_filter_all<A>(s: Seq<A>, p: spec_fn(A) -> bool)
    requires
        forall|i: int| 0 <= i < s.len() ==> p(#[trigger] s[i]),
    ensures
        s.filter(p) == s,
    decreases s.len(),
{
    reveal(Seq::filter);
    if s.len() > 0 {
        let front = s.drop_last();
        assert forall|i: int| 0 <= i < front.len() implies p(#[trigger] front[i]) by {
            assert(front[i] == s[i]);
        }
        lemma_filter_all(front, p);
        assert(p(s[s.len() - 1]));
        assert(front.push(s.last()) =~= s);
    } else {
        assert(s.filter(p) =~= s);
    }
}

/// A blank page has no pieces; one of at most 1800 characters, tidied, is one piece; a longer one
/// has a piece for each of its stretches, which is the text of the stretch without the spaces round
/// it.
pub proof fn pages_are_cut_into_stretches(page: Seq<char>)
    ensures
        tidied(page).len() == 0 <==> pieces(page).len() == 0,
        0 < tidied(page).len() <= 1800 ==> pieces(page) == seq![tidied(page)],
        tidied(page).len() > 1800 ==> ({
            let all = stretches(tidied(page), 0);
            &&& pieces(page).len() == all.len()
            &&& forall|i: int|
                0 <= i < all.len() ==> #[trigger] pieces(page)[i] == text::trimmed(
                    tidied(page).subrange(all[i].0, all[i].1),
                )
        }),
{
    pieces_fit(page);
    let chars = tidied(page);
    if chars.len() > 1800 {
        tidying_is_stable(page);
        lemma_stretches(chars, 0);
        let all = stretches(chars, 0);
        let texts = all.map_values(|cut: (int, int)| stretch_text(chars, cut));
        let p = |piece: Seq<char>| piece.len() > 0;
        assert forall|i: int| 0 <= i < texts.len() implies p(#[trigger] texts[i]) by {
            let part = chars.subrange(all[i].0, all[i].1);
            text::lemma_blank(part);
            texts_are_cut_behind_sentences(chars, i);
            assert(part[part.len() - 1] == chars[all[i].1 - 1]);
            if part.len() > 1 {
                assert(part[part.len() - 2] == chars[all[i].1 - 2]);
            }
        }
        lemma_filter_all(texts, p);
    }
}

/// The text of a page stands in its pieces: each of its characters stands in a stretch, and each
/// piece stands in the tidied page as it is.
pub proof fn pieces_stand_in_their_page(page: Seq<char>, i: int)
    requires
        0 <= i < pieces(page).len(),
    ensures
        text::holds_text(tidied(page), pieces(page)[i]),
{
    let chars = tidied(page);
    pages_are_cut_into_stretches(page);
    pieces_fit(page);
    let piece = pieces(page)[i];
    if chars.len() <= 1800 {
        assert(chars.subrange(0, chars.len() as int) =~= chars);
        assert(text::stands_at(chars, piece, 0));
    } else {
        lemma_stretches(chars, 0);
        let all = stretches(chars, 0);
        let part = chars.subrange(all[i].0, all[i].1);
        text::trimming_cuts_both_ends(part);
        let k = choose|k: int| text::stands_at(part, piece, k);
        assert(chars.subrange(all[i].0 + k, all[i].0 + k + piece.len()) =~= part.subrange(
            k,
            k + piece.len(),
        ));
        assert(text::stands_at(chars, piece, all[i].0 + k));
    }
}

/// One more page adds its pieces behind the chunks of the others, each with the number of the page
/// and its own number, counted from 1, and with the path, the file name and the title of the file. A
/// blank page adds no chunk and is counted all the same.
pub proof fn pages_add_their_chunks(from: Origin, pages: Seq<Seq<char>>, page: Seq<char>)
    requires
        pages.len() < u32::MAX,
        page.len() < u32::MAX,
    ensures
        ({
            let before = pages_chunks(from, pages);
            let all = pages_chunks(from, pages.push(page));
            let n = before.len();
            &&& all.len() == n + pieces(page).len()
            &&& all.take(n as int) == before
            &&& forall|k: int|
                0 <= k < pieces(page).len() ==> {
                    let c = #[trigger] all[n + k];
                    &&& c.page == pages.len() + 1 && c.chunk == k + 1
                    &&& c.text == pieces(page)[k]
                    &&& c.path == from.path && c.file_name == from.file_name && c.title
                        == from.title
                }
        }),
        pages_chunks(from, Seq::empty()).len() == 0,
{
    let before = pages_chunks(from, pages);
    let all = pages_chunks(from, pages.push(page));
    let n = before.len() as int;
    assert(pages.push(page).drop_last() =~= pages);
    let added = page_chunks(from, pages.len() as int, pieces(page));
    assert(all == before + added);
    assert(all.take(n) =~= before);
    pieces_fit(page);
    lemma_squeezed_len(page);
    text::trimming_cuts_both_ends(squeezed(page));
    assert forall|k: int| 0 <= k < pieces(page).len() implies {
        let c = #[trigger] all[n + k];
        &&& c.page == pages.len() + 1 && c.chunk == k + 1
        &&& c.text == pieces(page)[k]
        &&& c.path == from.path && c.file_name == from.file_name && c.title == from.title
    } by {
        assert(all[n + k] == added[k]);
    }
}

proof fn lemma_no_form_feed(page: Seq<char>, sep: char)
    requires
        !page.contains(sep),
    ensures
        text::split_at_char(page, sep) == seq![page],
    decreases page.len(),
{
    if page.len() > 0 {
        let front = page.drop_last();
        assert(page.contains(page[page.len() - 1]));
        assert forall|c: char| front.contains(c) implies page.contains(c) by {
            let i = choose|i: int| 0 <= i < front.len() && front[i] == c;
            assert(page[i] == c);
        }
        lemma_no_form_feed(front, sep);
        assert(text::split_at_char(page, sep) =~= seq![page]) by {
            assert(front.push(page.last()) =~= page);
        }
    } else {
        assert(page =~= Seq::<char>::empty());
        assert(text::split_at_char(page, sep) =~= seq![page]);
    }
}

proof fn lemma_form_feed(before: Seq<char>, page: Seq<char>, sep: char)
    requires
        !page.contains(sep),
    ensures
        text::split_at_char(before.push(sep) + page, sep) == text::split_at_char(before, sep).push(
            page,
        ),
    decreases page.len(),
{
    let all = before.push(sep) + page;
    if page.len() == 0 {
        assert(all =~= before.push(sep));
        assert(before.push(sep).drop_last() =~= before);
        assert(page =~= Seq::<char>::empty());
    } else {
        let front = page.drop_last();
        assert(page.contains(page[page.len() - 1]));
        assert forall|c: char| front.contains(c) implies page.contains(c) by {
            let i = choose|i: int| 0 <= i < front.len() && front[i] == c;
            assert(page[i] == c);
        }
        lemma_form_feed(before, front, sep);
        assert(all.drop_last() =~= before.push(sep) + front);
        assert(all.last() == page.last());
        assert(front.push(page.last()) =~= page);
        let parts = text::split_at_char(all.drop_last(), sep);
        assert(parts.drop_last() =~= text::split_at_char(before, sep));
        assert(parts.last() == front);
    }
}

/// Form feeds divide the pages of a text: what stands behind the last one is the last page, and a
/// text without one is a page.
pub proof fn form_feeds_divide_pages(before: Seq<char>, page: Seq<char>)
    requires
        !page.contains('\u{c}'),
    ensures
        pages_of(page) == seq![page],
        pages_of(before.push('\u{c}') + page) == pages_of(before).push(page),
{
    lemma_no_form_feed(page, '\u{c}');
    lemma_form_feed(before, page, '\u{c}');
}

/// A text without form feeds and of at most 1800 characters, tidied, is one chunk: the first of the
/// first page.
pub proof fn short_files_are_one_chunk(from: Origin, text: Seq<char>)
    requires
        !text.contains('\u{c}'),
        0 < tidied(text).len() <= 1800,
        text.len() < u32::MAX,
    ensures
        file_chunks(from, text) == seq![
            (ChunkView {
                path: from.path,
                file_name: from.file_name,
                title: from.title,
                page: 1,
                chunk: 1,
                text: tidied(text),
            }),
        ],
{
    form_feeds_divide_pages(Seq::empty(), text);
    pages_add_their_chunks(from, Seq::empty(), text);
    pages_are_cut_into_stretches(text);
    assert(Seq::<Seq<char>>::empty().push(text) =~= seq![text]);
    let all = pages_chunks(from, seq![text]);
    assert(all.len() == 1);
    let k: int = 0;
    assert(all[pages_chunks(from, Seq::empty()).len() + k].page == 1);
    assert(file_chunks(from, text) =~= seq![
        (ChunkView {
            path: from.path,
            file_name: from.file_name,
            title: from.title,
            page: 1,
            chunk: 1,
            text: tidied(text),
        }),
    ]);
}

/// A file is known by its path and by its file name, and has the name without its extension for its
/// title, in its chunks and in Markdown; where it has no file name, its path stands for both. Its
/// Markdown is saved under the title.
pub proof fn files_are_titled_by_their_names(path: Seq<char>, front: Seq<char>, ext: Seq<char>)
    requires
        front.len() > 0,
        !ext.contains('.'),
    ensures
        ({
            let name = front.push('.') + ext;
            &&& origin(path, Some(name)).path == path
            &&& origin(path, Some(name)).file_name == name
            &&& origin(path, Some(name)).title == front
            &&& markdown_title(path, Some(name)) == front
            &&& markdown_name(Some(name)) == front + ".md"@
        }),
        origin(path, None).path == path && origin(path, None).file_name == path && origin(
            path,
            None,
        ).title == path,
        markdown_title(path, None) == path,
{
    paths::names_are_cut_at_the_last_dot(front, ext);
}

/// The bodies of pages that are not blank, each ended with a line break.
pub open spec fn ended_bodies(bodies: Seq<Seq<char>>) -> Seq<Seq<char>> {
    bodies.filter(|body: Seq<char>| text::trimmed(body).len() > 0).map_values(
        |body: Seq<char>|
            if body.last() == '\n' {
                body
            } else {
                body.push('\n')
            },
    )
}

/// Markdown is the title, a blank line and the pages that are not blank, with a blank line between
/// them; each page ends with a line break.
pub proof fn markdown_is_title_and_pages(title: Seq<char>, bodies: Seq<Seq<char>>)
    ensures
        with_pages(empty_draft(title), bodies).text == "# "@ + title + "\n\n"@ + text::joined(
            ended_bodies(bodies),
            "\n"@,
        ),
        with_pages(empty_draft(title), bodies).wrote_page <==> ended_bodies(bodies).len() > 0,
    decreases bodies.len(),
{
    let p = |body: Seq<char>| text::trimmed(body).len() > 0;
    reveal(Seq::filter);
    reveal_strlit("\n");
    assert("\n"@ =~= seq!['\n']);
    let ended = ended_bodies(bodies);
    let head = "# "@ + title + "\n\n"@;
    if bodies.len() == 0 {
        assert(ended =~= Seq::empty());
        assert(head + text::joined(ended, "\n"@) =~= head);
    } else {
        let front = bodies.drop_last();
        let body = bodies.last();
        markdown_is_title_and_pages(title, front);
        let before = ended_bodies(front);
        if p(body) {
            let end = if body.last() == '\n' {
                body
            } else {
                body.push('\n')
            };
            assert(ended =~= before.push(end));
            assert(ended.drop_last() =~= before);
            let written = with_pages(empty_draft(title), bodies).text;
            if before.len() > 0 {
                assert(written =~= head + (text::joined(before, "\n"@) + "\n"@ + end));
            } else {
                assert(text::joined(before, "\n"@) =~= Seq::empty());
                assert(written =~= head + end);
            }
        } else {
            assert(ended =~= before);
        }
    }
}

/// A failure names the file and what went wrong with it, which is the message of a panic where there
/// was one. Text that was extracted is taken as it is.
pub proof fn failures_name_the_file(
    path: Seq<char>,
    detail: Seq<char>,
    message: String,
    text: String,
)
    ensures
        extraction_error(path, detail) == path + ": PDF のテキスト抽出に失敗しました。"@ + detail,
        panic_text(Some(message)) == message@,
        panic_text(None) == "PDF 解析中にパニックしました"@,
        extracted(path, Guarded::Finished(Ok(text))) == Ok::<Seq<char>, Seq<char>>(text@),
        extracted(path, Guarded::Finished(Err(message))) == Err::<Seq<char>, Seq<char>>(
            extraction_error(path, message@),
        ),
        extracted(path, Guarded::Panicked(Some(message))) == Err::<Seq<char>, Seq<char>>(
            extraction_error(path, message@),
        ),
{
}

/// Markdown for pages is that of their blocks, written page by page; where none of them shows
/// anything there is none.
pub proof fn pages_are_written_one_by_one(title: Seq<char>, pages: Seq<Seq<blocks::Block>>)
    ensures
        ({
            let bodies = pages.map_values(|page: Seq<blocks::Block>| blocks::blocks_written(page));
            match pages_markdown(title, pages) {
                Ok(text) => ended_bodies(bodies).len() > 0 && text == "# "@ + title + "\n\n"@
                    + text::joined(ended_bodies(bodies), "\n"@),
                Err(err) => ended_bodies(bodies).len() == 0 && err == "テキストが空でした"@,
            }
        }),
{
    let bodies = pages.map_values(|page: Seq<blocks::Block>| blocks::blocks_written(page));
    markdown_is_title_and_pages(title, bodies);
}

/// A chunk stands for what its fields hold, and chunks for one after another.
pub proof fn chunks_stand_for_their_fields(chunk: PdfChunk, chunks: Seq<PdfChunk>)
    ensures
        chunk@.path == chunk.path@ && chunk@.file_name == chunk.file_name@ && chunk@.title
            == chunk.title@,
        chunk@.page == chunk.page && chunk@.chunk == chunk.chunk && chunk@.text == chunk.text@,
        chunk_views(chunks).len() == chunks.len(),
        forall|i: int| 0 <= i < chunks.len() ==> #[trigger] chunk_views(chunks)[i] == chunks[i]@,
{
}

/// The chunks that are made of a text name their file by the file name of the path, and are titled by
/// what stands before its last dot.
pub proof fn paths_name_their_chunks(
    path: Seq<char>,
    name: Option<Seq<char>>,
    text: Seq<char>,
    i: int,
)
    requires
        text.len() < u32::MAX,
        0 <= i < file_chunks(origin(path, name), text).len(),
    ensures
        ({
            let chunk = file_chunks(origin(path, name), text)[i];
            &&& chunk.path == path
            &&& name matches Some(n) ==> chunk.file_name == n && chunk.title == paths::stem(n)
            &&& name is None ==> chunk.file_name == path && chunk.title == path
        }),
{
    chunks_are_in_order(origin(path, name), text);
}

} // verus!
