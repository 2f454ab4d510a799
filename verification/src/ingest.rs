//! Bringing files into the index.
use crate::pdf;
use crate::pdf::PdfChunk;
use crate::text;
use vstd::prelude::*;
use vstd::string::StringExecFns;

verus! {

/// How many chunks are sent at a time.
pub const BULK_BATCH: usize = 80;

/// What came of bringing files into the index.
#[derive(Debug, Clone)]
pub struct IngestReport {
    pub files_ok: usize,
    pub files_fail: usize,
    pub chunks: usize,
    pub errors: Vec<String>,
}

pub struct ReportView {
    pub files_ok: nat,
    pub files_fail: nat,
    pub chunks: nat,
    pub errors: Seq<Seq<char>>,
}

impl View for IngestReport {
    type V = ReportView;

    open spec fn view(&self) -> ReportView {
        ReportView {
            files_ok: self.files_ok as nat,
            files_fail: self.files_fail as nat,
            chunks: self.chunks as nat,
            errors: text::views(self.errors@),
        }
    }
}

pub open spec fn report_result(r: Result<IngestReport, String>) -> Result<ReportView, Seq<char>> {
    match r {
        Ok(report) => Ok(report@),
        Err(err) => Err(err@),
    }
}

/// What the reading of a file gave.
pub type FileOutcome = Result<Vec<PdfChunk>, String>;

/// How many files were read.
pub open spec fn files_read(outcomes: Seq<FileOutcome>) -> nat {
    outcomes.filter(|o: FileOutcome| o is Ok).len()
}

/// The chunks of all files, in the order of the files.
pub open spec fn chunks_read(outcomes: Seq<FileOutcome>) -> Seq<pdf::ChunkView>
    decreases outcomes.len(),
{
    if outcomes.len() == 0 {
        Seq::empty()
    } else {
        let before = chunks_read(outcomes.drop_last());
        match outcomes.last() {
            Ok(chunks) => before + pdf::chunk_views(chunks@),
            Err(_) => before,
        }
    }
}

/// The errors of the files that could not be read.
pub open spec fn read_errors(outcomes: Seq<FileOutcome>) -> Seq<Seq<char>>
    decreases outcomes.len(),
{
    if outcomes.len() == 0 {
        Seq::empty()
    } else {
        let before = read_errors(outcomes.drop_last());
        match outcomes.last() {
            Ok(_) => before,
            Err(err) => before.push(err@),
        }
    }
}

/// Files that were read, before their chunks are sent.
#[derive(Debug, Clone)]
pub struct FilesRead {
    pub files_ok: usize,
    pub files_fail: usize,
    pub errors: Vec<String>,
    pub chunks: Vec<PdfChunk>,
}

impl FilesRead {
    /// Whether this is what the files gave.
    pub open spec fn comes_from(self, outcomes: Seq<FileOutcome>) -> bool {
        &&& self.files_ok == files_read(outcomes)
        &&& self.files_fail == outcomes.len() - files_read(outcomes)
        &&& text::views(self.errors@) == read_errors(outcomes)
        &&& pdf::chunk_views(self.chunks@) == chunks_read(outcomes)
    }
}

/// The line for the log before a file is read.
pub open spec fn reading_message(i: nat, n: nat, path: Seq<char>) -> Seq<char> {
    "PDF を解析しています ("@ + text::decimal(i + 1) + "/"@ + text::decimal(n) + "): "@ + path
}

pub fn reading_line(i: usize, n: usize, path: &str) -> (r: String)
    requires
        i < n,
    ensures
        r@ == reading_message(i as nat, n as nat, path@),
{
    let mut out = text::owned("PDF を解析しています (");
    text::push_decimal(&mut out, (i + 1) as u64);
    out.append("/");
    text::push_decimal(&mut out, n as u64);
    out.append("): ");
    out.append(path);
    out
}

/// Gathers what the files gave.
pub fn ingest_files(outcomes: Vec<FileOutcome>) -> (r: FilesRead)
    ensures
        r.comes_from(outcomes@),
{
    let ghost all = outcomes@;
    let ghost p = |o: FileOutcome| o is Ok;
    let count = outcomes.len();
    let mut files_ok: usize = 0;
    let mut files_fail: usize = 0;
    let mut errors: Vec<String> = Vec::new();
    let mut chunks: Vec<PdfChunk> = Vec::new();
    proof {
        reveal(Seq::filter);
        assert(text::views(errors@) =~= read_errors(all.take(0)));
        assert(pdf::chunk_views(chunks@) =~= chunks_read(all.take(0)));
    }
    for outcome in it: outcomes
        invariant
            it.seq() == all,
            all.len() == count,
            p == (|o: FileOutcome| o is Ok),
            files_ok == files_read(all.take(it.index())),
            files_ok + files_fail == it.index(),
            text::views(errors@) == read_errors(all.take(it.index())),
            pdf::chunk_views(chunks@) == chunks_read(all.take(it.index())),
    {
        proof {
            let n = it.index();
            all.take(n).lemma_filter_len_push(p, outcome);
            assert(all.take(n + 1) =~= all.take(n).push(outcome));
            assert(all.take(n + 1).drop_last() =~= all.take(n));
            assert(all.take(n + 1).last() == outcome);
        }
        let ghost old_errors = errors@;
        let ghost old_chunks = chunks@;
        match outcome {
            Ok(docs) => {
                files_ok += 1;
                let mut docs = docs;
                let ghost added = docs@;
                chunks.append(&mut docs);
                assert(pdf::chunk_views(chunks@) =~= pdf::chunk_views(old_chunks)
                    + pdf::chunk_views(added));
            },
            Err(err) => {
                files_fail += 1;
                let ghost e = err@;
                errors.push(err);
                assert(text::views(errors@) =~= text::views(old_errors).push(e));
            },
        }
    }
    assert(all.take(all.len() as int) =~= all);
    FilesRead { files_ok, files_fail, errors, chunks }
}

/// The line for the log before chunks are sent.
pub open spec fn sending_message(files: nat, chunks: nat) -> Seq<char> {
    text::decimal(files) + " 件の PDF から "@ + text::decimal(chunks)
        + " チャンクを OpenSearch に登録します。"@
}

pub fn sending_line(read: &FilesRead) -> (r: String)
    ensures
        r@ == sending_message(read.files_ok as nat, read.chunks@.len()),
{
    let mut out = String::new();
    text::push_decimal(&mut out, read.files_ok as u64);
    out.append(" 件の PDF から ");
    text::push_decimal(&mut out, read.chunks.len() as u64);
    out.append(" チャンクを OpenSearch に登録します。");
    assert(out@ =~= sending_message(read.files_ok as nat, read.chunks@.len()));
    out
}

/// The report on files that gave no chunk to send.
pub fn report_without_chunks(read: FilesRead) -> (r: IngestReport)
    ensures
        r@ == (ReportView {
            files_ok: read.files_ok as nat,
            files_fail: read.files_fail as nat,
            chunks: 0,
            errors: text::views(read.errors@),
        }),
{
    IngestReport {
        files_ok: read.files_ok,
        files_fail: read.files_fail,
        chunks: 0,
        errors: read.errors,
    }
}

/// What is done with files that were read.
#[derive(Debug)]
pub enum IngestStep {
    /// Nothing is sent: there is only the report.
    Report(IngestReport),
    /// The chunks are sent.
    Send(FilesRead),
}

/// Decides what is done with files that were read: without a chunk nothing is sent.
pub fn after_reading(read: FilesRead) -> (r: IngestStep)
    ensures
        r is Report <==> read.chunks@.len() == 0,
        match r {
            IngestStep::Report(report) => report@ == (ReportView {
                files_ok: read.files_ok as nat,
                files_fail: read.files_fail as nat,
                chunks: 0,
                errors: text::views(read.errors@),
            }),
            IngestStep::Send(files) => files == read,
        },
{
    if read.chunks.len() == 0 {
        IngestStep::Report(report_without_chunks(read))
    } else {
        IngestStep::Send(read)
    }
}

/// The report on files whose chunks were sent: the errors of the files come before those of the
/// sending.
pub fn report_on_files(
    files_ok: usize,
    files_fail: usize,
    errors: Vec<String>,
    sent: Result<IngestReport, String>,
) -> (r: Result<IngestReport, String>)
    ensures
        report_result(r) == match sent {
            Ok(report) => Ok(
                ReportView {
                    files_ok: files_ok as nat,
                    files_fail: files_fail as nat,
                    chunks: report@.chunks,
                    errors: text::views(errors@) + report@.errors,
                },
            ),
            Err(err) => Err(err@),
        },
{
    match sent {
        Ok(report) => {
            let mut all = errors;
            let mut more = report.errors;
            let ghost first = all@;
            let ghost second = more@;
            all.append(&mut more);
            assert(text::views(all@) =~= text::views(first) + text::views(second));
            Ok(IngestReport { files_ok, files_fail, chunks: report.chunks, errors: all })
        },
        Err(err) => Err(err),
    }
}

/// The batch of chunks that begins at `start`.
pub open spec fn batch_end(start: nat, total: nat) -> nat {
    if total - start > BULK_BATCH {
        start + BULK_BATCH as nat
    } else {
        total
    }
}

/// Where the batch of chunks that begins at `start` ends; there is none behind the last chunk.
pub fn next_batch(start: usize, total: usize) -> (r: Option<usize>)
    ensures
        if start < total {
            r matches Some(end) && end == batch_end(start as nat, total as nat)
        } else {
            r is None
        },
{
    if start >= total {
        None
    } else if total - start > BULK_BATCH {
        Some(start + BULK_BATCH)
    } else {
        Some(total)
    }
}

/// The stretches of chunks that are sent together, from `start` on.
pub open spec fn batches(start: nat, total: nat) -> Seq<(nat, nat)>
    decreases total - start,
{
    if start >= total {
        Seq::empty()
    } else {
        let end = batch_end(start, total);
        seq![(start, end)] + batches(end, total)
    }
}

proof fn lemma_batches(start: nat, total: nat)
    requires
        start < total,
    ensures
        batches(start, total).len() > 0,
        batches(start, total)[0].0 == start,
        batches(start, total).last().1 == total,
        forall|i: int|
            0 <= i < batches(start, total).len() ==> {
                let b = #[trigger] batches(start, total)[i];
                b.0 < b.1 <= b.0 + BULK_BATCH
            },
        forall|i: int|
            0 < i < batches(start, total).len() ==> (#[trigger] batches(start, total)[i]).0
                == batches(start, total)[i - 1].1,
    decreases total - start,
{
    let end = batch_end(start, total);
    let all = batches(start, total);
    if end < total {
        lemma_batches(end, total);
        let rest = batches(end, total);
        assert forall|i: int| 0 <= i < all.len() implies {
            let b = #[trigger] all[i];
            b.0 < b.1 <= b.0 + BULK_BATCH
        } by {
            if i > 0 {
                assert(all[i] == rest[i - 1]);
            }
        }
        assert forall|i: int| 0 < i < all.len() implies (#[trigger] all[i]).0 == all[i - 1].1 by {
            assert(all[i] == rest[i - 1]);
            if i > 1 {
                assert(all[i - 1] == rest[i - 2]);
            }
        }
        assert(all.last() == rest.last());
    } else {
        assert(batches(end, total) =~= Seq::empty());
        assert(all =~= seq![(start, end)]);
    }
}

/// Every chunk is sent once, in order, and no more than a batch at a time.
pub proof fn batches_cover_the_chunks(total: nat)
    requires
        total > 0,
    ensures
        ({
            let all = batches(0, total);
            &&& all.len() > 0
            &&& all[0].0 == 0
            &&& all.last().1 == total
            &&& forall|i: int|
                0 <= i < all.len() ==> {
                    let b = #[trigger] all[i];
                    b.0 < b.1 <= b.0 + BULK_BATCH
                }
            &&& forall|i: int| 0 < i < all.len() ==> (#[trigger] all[i]).0 == all[i - 1].1
        }),
{
    lemma_batches(0, total);
}

/// How many chunks were taken in all.
pub open spec fn total_taken(outcomes: Seq<Result<usize, String>>) -> nat
    decreases outcomes.len(),
{
    if outcomes.len() == 0 {
        0
    } else {
        total_taken(outcomes.drop_last()) + match outcomes.last() {
            Ok(n) => n as nat,
            Err(_) => 0nat,
        }
    }
}

/// The errors of the batches that failed.
pub open spec fn batch_errors(outcomes: Seq<Result<usize, String>>) -> Seq<Seq<char>>
    decreases outcomes.len(),
{
    if outcomes.len() == 0 {
        Seq::empty()
    } else {
        let before = batch_errors(outcomes.drop_last());
        match outcomes.last() {
            Ok(_) => before,
            Err(err) => before.push(err@),
        }
    }
}

proof fn lemma_taken_grows(outcomes: Seq<Result<usize, String>>, i: int)
    requires
        0 <= i <= outcomes.len(),
    ensures
        total_taken(outcomes.take(i)) <= total_taken(outcomes),
    decreases outcomes.len(),
{
    if i < outcomes.len() {
        lemma_taken_grows(outcomes.drop_last(), i);
        assert(outcomes.drop_last().take(i) =~= outcomes.take(i));
    } else {
        assert(outcomes.take(i) =~= outcomes);
    }
}

/// How many chunks were taken in all, if the number can be held.
pub fn count_taken(outcomes: &[Result<usize, String>]) -> (r: Option<usize>)
    ensures
        match r {
            Some(n) => n == total_taken(outcomes@),
            None => total_taken(outcomes@) > usize::MAX,
        },
{
    let mut n: usize = 0;
    for i in 0..outcomes.len()
        invariant
            n == total_taken(outcomes@.take(i as int)),
    {
        proof {
            assert(outcomes@.take(i + 1).drop_last() =~= outcomes@.take(i as int));
            lemma_taken_grows(outcomes@, i + 1);
        }
        if let Ok(m) = &outcomes[i] {
            match n.checked_add(*m) {
                Some(sum) => {
                    n = sum;
                },
                None => {
                    return None;
                },
            }
        }
    }
    assert(outcomes@.take(outcomes@.len() as int) =~= outcomes@);
    Some(n)
}

/// The line for the log on how far the sending has got.
pub open spec fn progress_message(taken: nat, total: nat) -> Seq<char> {
    "登録進捗: "@ + text::decimal(taken) + "/"@ + text::decimal(total) + " チャンク"@
}

pub fn progress_line(taken: usize, total: usize) -> (r: String)
    ensures
        r@ == progress_message(taken as nat, total as nat),
{
    let mut out = text::owned("登録進捗: ");
    text::push_decimal(&mut out, taken as u64);
    out.append("/");
    text::push_decimal(&mut out, total as u64);
    out.append(" チャンク");
    out
}

/// What the sending of all batches comes to: the number of chunks taken, and the errors. Where
/// nothing was taken and there are errors, they are all that there is to tell.
pub open spec fn sending_result(outcomes: Seq<Result<usize, String>>) -> Result<
    ReportView,
    Seq<char>,
> {
    let errors = batch_errors(outcomes);
    if total_taken(outcomes) == 0 && errors.len() > 0 {
        Err(text::joined(errors, " / "@))
    } else {
        Ok(ReportView { files_ok: 0, files_fail: 0, chunks: total_taken(outcomes), errors })
    }
}

/// What the sending of all batches comes to.
pub fn ingest_pdfs(outcomes: Vec<Result<usize, String>>) -> (r: Result<IngestReport, String>)
    requires
        total_taken(outcomes@) <= usize::MAX,
    ensures
        report_result(r) == sending_result(outcomes@),
{
    let ghost all = outcomes@;
    let mut taken: usize = 0;
    let mut errors: Vec<String> = Vec::new();
    assert(text::views(errors@) =~= batch_errors(all.take(0)));
    for outcome in it: outcomes
        invariant
            it.seq() == all,
            total_taken(all) <= usize::MAX,
            taken == total_taken(all.take(it.index())),
            text::views(errors@) == batch_errors(all.take(it.index())),
    {
        proof {
            let n = it.index();
            assert(all.take(n + 1).drop_last() =~= all.take(n));
            assert(all.take(n + 1).last() == outcome);
            lemma_taken_grows(all, n + 1);
        }
        let ghost before = errors@;
        match outcome {
            Ok(n) => {
                taken += n;
            },
            Err(err) => {
                let ghost e = err@;
                errors.push(err);
                assert(text::views(errors@) =~= text::views(before).push(e));
            },
        }
    }
    assert(all.take(all.len() as int) =~= all);
    assert(text::views(errors@).len() == errors@.len());
    if taken == 0 && errors.len() > 0 {
        return Err(text::join_texts(errors.as_slice(), " / "));
    }
    Ok(IngestReport { files_ok: 0, files_fail: 0, chunks: taken, errors })
}

/// Every file is counted once, as read or as failed, and each that failed leaves one error.
pub proof fn files_are_all_counted(outcomes: Seq<FileOutcome>)
    ensures
        files_read(outcomes) + read_errors(outcomes).len() == outcomes.len(),
    decreases outcomes.len(),
{
    let p = |o: FileOutcome| o is Ok;
    reveal(Seq::filter);
    if outcomes.len() > 0 {
        files_are_all_counted(outcomes.drop_last());
        assert(outcomes.drop_last().push(outcomes.last()) =~= outcomes);
        outcomes.drop_last().lemma_filter_len_push(p, outcomes.last());
    }
}

/// Files that are read one list after another give the chunks and errors of the first list and then
/// those of the second. A file that was read gives its chunks; one that was not, its error.
pub proof fn files_follow_one_another(a: Seq<FileOutcome>, b: Seq<FileOutcome>, one: FileOutcome)
    ensures
        chunks_read(a + b) == chunks_read(a) + chunks_read(b),
        read_errors(a + b) == read_errors(a) + read_errors(b),
        files_read(a + b) == files_read(a) + files_read(b),
        match one {
            Ok(chunks) => chunks_read(seq![one]) == pdf::chunk_views(chunks@) && read_errors(
                seq![one],
            ).len() == 0 && files_read(seq![one]) == 1,
            Err(err) => chunks_read(seq![one]).len() == 0 && read_errors(seq![one]) == seq![err@]
                && files_read(seq![one]) == 0,
        },
    decreases b.len(),
{
    let p = |o: FileOutcome| o is Ok;
    Seq::filter_distributes_over_add(a, b, p);
    files_are_all_counted(seq![one]);
    reveal_with_fuel(chunks_read, 2);
    reveal_with_fuel(read_errors, 2);
    assert(seq![one].drop_last() =~= Seq::empty());
    match one {
        Ok(chunks) => {
            assert(chunks_read(seq![one]) =~= pdf::chunk_views(chunks@));
        },
        Err(err) => {
            assert(read_errors(seq![one]) =~= seq![err@]);
        },
    }
    if b.len() == 0 {
        assert(a + b =~= a);
        assert(chunks_read(a) + chunks_read(b) =~= chunks_read(a));
        assert(read_errors(a) + read_errors(b) =~= read_errors(a));
    } else {
        files_follow_one_another(a, b.drop_last(), one);
        assert((a + b).drop_last() =~= a + b.drop_last());
        assert((a + b).last() == b.last());
        assert(chunks_read(a + b) =~= chunks_read(a) + chunks_read(b));
        assert(read_errors(a + b) =~= read_errors(a) + read_errors(b));
    }
}

/// Batches that are sent one list after another have as many chunks taken as both lists together,
/// and leave the errors of the first list and then those of the second.
pub proof fn batches_add_up(
    a: Seq<Result<usize, String>>,
    b: Seq<Result<usize, String>>,
    one: Result<usize, String>,
)
    ensures
        total_taken(a + b) == total_taken(a) + total_taken(b),
        batch_errors(a + b) == batch_errors(a) + batch_errors(b),
        match one {
            Ok(n) => total_taken(seq![one]) == n && batch_errors(seq![one]).len() == 0,
            Err(err) => total_taken(seq![one]) == 0 && batch_errors(seq![one]) == seq![err@],
        },
    decreases b.len(),
{
    reveal_with_fuel(total_taken, 2);
    reveal_with_fuel(batch_errors, 2);
    assert(seq![one].drop_last() =~= Seq::empty());
    if let Err(err) = one {
        assert(batch_errors(seq![one]) =~= seq![err@]);
    }
    if b.len() == 0 {
        assert(a + b =~= a);
        assert(batch_errors(a) + batch_errors(b) =~= batch_errors(a));
    } else {
        batches_add_up(a, b.drop_last(), one);
        assert((a + b).drop_last() =~= a + b.drop_last());
        assert((a + b).last() == b.last());
        assert(batch_errors(a + b) =~= batch_errors(a) + batch_errors(b));
    }
}

proof fn lemma_batches_are_full(start: nat, total: nat, i: int)
    requires
        0 <= i < batches(start, total).len() - 1,
    ensures
        batches(start, total)[i].1 == batches(start, total)[i].0 + 80,
    decreases total - start,
{
    let end = batch_end(start, total);
    let rest = batches(end, total);
    assert(batches(start, total) == seq![(start, end)] + rest);
    if i > 0 {
        assert(batches(start, total)[i] == rest[i - 1]);
        lemma_batches_are_full(end, total, i - 1);
    }
}

/// All batches but the last hold 80 chunks, and the last holds no more.
pub proof fn batches_are_full(total: nat, i: int)
    requires
        0 <= i < batches(0, total).len(),
    ensures
        ({
            let all = batches(0, total);
            &&& i < all.len() - 1 ==> all[i] == (80 * i as nat, (80 * i + 80) as nat)
            &&& i == all.len() - 1 ==> all[i] == (80 * i as nat, total)
            &&& all[i].1 - all[i].0 <= 80
        }),
    decreases i,
{
    let all = batches(0, total);
    if total > 0 {
        lemma_batches(0, total);
        if i > 0 {
            batches_are_full(total, i - 1);
            assert(all[i].0 == all[i - 1].1);
        }
        if i < all.len() - 1 {
            lemma_batches_are_full(0, total, i);
        }
    }
}

proof fn lemma_nothing_taken(outcomes: Seq<Result<usize, String>>)
    ensures
        total_taken(outcomes) == 0 <==> forall|i: int|
            0 <= i < outcomes.len() ==> (#[trigger] outcomes[i] is Err || outcomes[i]->Ok_0 == 0),
        batch_errors(outcomes).len() == 0 <==> forall|i: int|
            0 <= i < outcomes.len() ==> #[trigger] outcomes[i] is Ok,
    decreases outcomes.len(),
{
    if outcomes.len() > 0 {
        let front = outcomes.drop_last();
        lemma_nothing_taken(front);
        assert(outcomes[outcomes.len() - 1] == outcomes.last());
        assert forall|i: int| 0 <= i < front.len() implies #[trigger] front[i] == outcomes[i] by {}
        if forall|i: int|
            0 <= i < outcomes.len() ==> (#[trigger] outcomes[i] is Err || outcomes[i]->Ok_0 == 0) {
            assert forall|i: int| 0 <= i < front.len() implies (#[trigger] front[i] is Err
                || front[i]->Ok_0 == 0) by {
                assert(front[i] == outcomes[i]);
            }
        }
        if total_taken(outcomes) == 0 {
            assert forall|i: int| 0 <= i < outcomes.len() implies (#[trigger] outcomes[i] is Err
                || outcomes[i]->Ok_0 == 0) by {
                if i < front.len() {
                    assert(front[i] == outcomes[i]);
                }
            }
        }
        if forall|i: int| 0 <= i < outcomes.len() ==> #[trigger] outcomes[i] is Ok {
            assert forall|i: int| 0 <= i < front.len() implies #[trigger] front[i] is Ok by {
                assert(front[i] == outcomes[i]);
            }
        }
        if batch_errors(outcomes).len() == 0 {
            assert forall|i: int| 0 <= i < outcomes.len() implies #[trigger] outcomes[i] is Ok by {
                if i < front.len() {
                    assert(front[i] == outcomes[i]);
                }
            }
        }
    }
}

/// The sending of batches fails only where a batch failed and none of the others had a chunk taken,
/// and then with all the errors. Else it gives the number of chunks taken and the errors.
pub proof fn sending_fails_where_nothing_was_taken(outcomes: Seq<Result<usize, String>>)
    ensures
        sending_result(outcomes) is Err <==> {
            &&& forall|i: int|
                0 <= i < outcomes.len() ==> (#[trigger] outcomes[i] is Err || outcomes[i]->Ok_0
                    == 0)
            &&& exists|i: int| 0 <= i < outcomes.len() && #[trigger] outcomes[i] is Err
        },
        match sending_result(outcomes) {
            Ok(report) => report.chunks == total_taken(outcomes) && report.errors == batch_errors(
                outcomes,
            ),
            Err(err) => err == text::joined(batch_errors(outcomes), " / "@),
        },
{
    lemma_nothing_taken(outcomes);
}

/// Files and chunks are counted from 1 in what the log says of them.
pub proof fn messages_tell_numbers(i: nat, n: nat, path: Seq<char>)
    ensures
        reading_message(i, n, path) == "PDF を解析しています ("@ + text::decimal(i + 1) + "/"@
            + text::decimal(n) + "): "@ + path,
        sending_message(i, n) == text::decimal(i) + " 件の PDF から "@ + text::decimal(n)
            + " チャンクを OpenSearch に登録します。"@,
        progress_message(i, n) == "登録進捗: "@ + text::decimal(i) + "/"@ + text::decimal(n)
            + " チャンク"@,
{
}

/// A report stands for what its fields hold, and files that were read for what they gave.
pub proof fn reports_stand_for_their_fields(
    report: IngestReport,
    read: FilesRead,
    outcomes: Seq<FileOutcome>,
)
    ensures
        report@.files_ok == report.files_ok && report@.files_fail == report.files_fail
            && report@.chunks == report.chunks,
        report@.errors == text::views(report.errors@),
        read.comes_from(outcomes) ==> {
            &&& read.files_ok + read.files_fail == outcomes.len()
            &&& read.files_fail == read.errors@.len()
            &&& read.chunks@.len() == chunks_read(outcomes).len()
        },
{
    files_are_all_counted(outcomes);
    assert(text::views(read.errors@).len() == read.errors@.len());
    assert(pdf::chunk_views(read.chunks@).len() == read.chunks@.len());
}

} // verus!
