//! The blocks of a page, and how they are written out.
use crate::fragments;
use crate::text;
use vstd::prelude::*;
use vstd::string::StringExecFns;

verus! {

/// A block of a page, put together again.
#[derive(Debug, Clone, PartialEq, Eq)]
pub enum PageBlock {
    Heading(String),
    Paragraph(String),
    Table { rows: Vec<Vec<String>>, has_header: bool },
}

/// The cells of a table.
pub type Grid = Seq<Seq<Seq<char>>>;

pub open spec fn grid(rows: Seq<Vec<String>>) -> Grid {
    rows.map_values(|row: Vec<String>| text::views(row@))
}

/// A block, by its texts.
pub enum Block {
    Heading(Seq<char>),
    Paragraph(Seq<char>),
    Table(Grid, bool),
}

impl View for PageBlock {
    type V = Block;

    open spec fn view(&self) -> Block {
        match self {
            PageBlock::Heading(text) => Block::Heading(text@),
            PageBlock::Paragraph(text) => Block::Paragraph(text@),
            PageBlock::Table { rows, has_header } => Block::Table(grid(rows@), *has_header),
        }
    }
}

pub open spec fn block_views(blocks: Seq<PageBlock>) -> Seq<Block> {
    blocks.map_values(|block: PageBlock| block@)
}

/// The length of the longest row.
pub open spec fn column_count(rows: Grid) -> nat
    decreases rows.len(),
{
    if rows.len() == 0 {
        0
    } else {
        let n = column_count(rows.drop_last());
        if rows.last().len() > n {
            rows.last().len()
        } else {
            n
        }
    }
}

fn count_columns(rows: &[Vec<String>]) -> (r: usize)
    ensures
        r == column_count(grid(rows@)),
{
    let mut n: usize = 0;
    for i in 0..rows.len()
        invariant
            n == column_count(grid(rows@).take(i as int)),
    {
        proof {
            let g = grid(rows@);
            assert(g.take(i + 1).drop_last() =~= g.take(i as int));
            assert(g.take(i + 1).last() == text::views(rows@[i as int]@));
        }
        if rows[i].len() > n {
            n = rows[i].len();
        }
    }
    assert(grid(rows@).take(rows@.len() as int) =~= grid(rows@));
    n
}

pub open spec fn is_filled(cell: Seq<char>) -> bool {
    text::trimmed(cell).len() > 0
}

/// Whether a row holds at least two cells that are not blank.
pub open spec fn is_populated(row: Seq<Seq<char>>) -> bool {
    row.filter(|cell: Seq<char>| is_filled(cell)).len() >= 2
}

/// Whether a grid of cells is a table: at least two rows and two columns, and at least half of the
/// rows populated.
pub open spec fn is_table(rows: Grid) -> bool {
    &&& rows.len() >= 2
    &&& column_count(rows) >= 2
    &&& 2 * rows.filter(|row: Seq<Seq<char>>| is_populated(row)).len() >= rows.len()
}

fn row_is_populated(row: &[String]) -> (r: bool)
    ensures
        r == is_populated(text::views(row@)),
{
    let mut filled: usize = 0;
    let ghost p = |cell: Seq<char>| is_filled(cell);
    for i in 0..row.len()
        invariant
            p == (|cell: Seq<char>| is_filled(cell)),
            filled == text::views(row@).take(i as int).filter(p).len(),
            filled <= i,
    {
        proof {
            let v = text::views(row@);
            v.take(i as int).lemma_filter_len_push(p, v[i as int]);
            assert(v.take(i + 1) =~= v.take(i as int).push(v[i as int]));
            assert(v[i as int] == row@[i as int]@);
        }
        if !text::is_blank(row[i].as_str()) {
            filled += 1;
        }
    }
    assert(text::views(row@).take(row@.len() as int) =~= text::views(row@));
    filled >= 2
}

pub fn is_real_grid(rows: &[Vec<String>]) -> (r: bool)
    ensures
        r == is_table(grid(rows@)),
{
    if rows.len() < 2 {
        return false;
    }
    if count_columns(rows) < 2 {
        return false;
    }
    let mut populated: usize = 0;
    let ghost p = |row: Seq<Seq<char>>| is_populated(row);
    for i in 0..rows.len()
        invariant
            p == (|row: Seq<Seq<char>>| is_populated(row)),
            populated == grid(rows@).take(i as int).filter(p).len(),
            populated <= i,
    {
        proof {
            let g = grid(rows@);
            g.take(i as int).lemma_filter_len_push(p, g[i as int]);
            assert(g.take(i + 1) =~= g.take(i as int).push(g[i as int]));
            assert(g[i as int] == text::views(rows@[i as int]@));
        }
        if row_is_populated(rows[i].as_slice()) {
            populated += 1;
        }
    }
    assert(grid(rows@).take(rows@.len() as int) =~= grid(rows@));
    populated >= rows.len() - populated
}

/// A text with a backslash before every vertical bar.
pub open spec fn bars_escaped(s: Seq<char>) -> Seq<char>
    decreases s.len(),
{
    if s.len() == 0 {
        Seq::empty()
    } else if s.last() == '|' {
        bars_escaped(s.drop_last()).push('\\').push('|')
    } else {
        bars_escaped(s.drop_last()).push(s.last())
    }
}

pub fn escape_cell(text: &str) -> (r: String)
    ensures
        r@ == bars_escaped(fragments::collapsed(text@)),
{
    let line = fragments::collapse_inline_ws(text);
    let chars = text::characters(line.as_str());
    let mut out = String::new();
    for i in 0..chars.len()
        invariant
            out@ == bars_escaped(chars@.take(i as int)),
    {
        assert(chars@.take(i + 1).drop_last() =~= chars@.take(i as int));
        if chars[i] == '|' {
            out.push('\\');
        }
        out.push(chars[i]);
    }
    assert(chars@.take(chars@.len() as int) =~= chars@);
    out
}

/// The first `n` cells of a row, each followed by a bar; what the row lacks is empty.
pub open spec fn cells_written(cells: Seq<Seq<char>>, n: nat) -> Seq<char>
    decreases n,
{
    if n == 0 {
        seq!['|']
    } else {
        let i = (n - 1) as nat;
        cells_written(cells, i).push(' ') + (if i < cells.len() {
            bars_escaped(fragments::collapsed(cells[i as int]))
        } else {
            Seq::empty()
        }) + " |"@
    }
}

fn push_md_row(out: &mut String, cells: &[String], col_count: usize)
    ensures
        final(out)@ == old(out)@ + cells_written(text::views(cells@), col_count as nat),
{
    let ghost start = out@;
    out.push('|');
    assert(out@ =~= start + cells_written(text::views(cells@), 0));
    for i in 0..col_count
        invariant
            out@ == start + cells_written(text::views(cells@), i as nat),
    {
        let ghost before = out@;
        let ghost v = text::views(cells@);
        out.push(' ');
        if i < cells.len() {
            let cell = escape_cell(cells[i].as_str());
            out.append(cell.as_str());
            assert(v[i as int] == cells@[i as int]@);
        }
        out.append(" |");
        assert(out@ =~= start + cells_written(v, (i + 1) as nat));
    }
}

/// `n` times the same text.
pub open spec fn repeated(s: Seq<char>, n: nat) -> Seq<char>
    decreases n,
{
    if n == 0 {
        Seq::empty()
    } else {
        repeated(s, (n - 1) as nat) + s
    }
}

/// Rows, each on a line of its own.
pub open spec fn rows_written(rows: Grid, n: nat) -> Seq<char>
    decreases rows.len(),
{
    if rows.len() == 0 {
        Seq::empty()
    } else {
        rows_written(rows.drop_last(), n).push('\n') + cells_written(rows.last(), n)
    }
}

/// A table in Markdown: the header row, or an empty one, then a rule, then the other rows; nothing
/// for a table without cells.
pub open spec fn table_written(rows: Grid, has_header: bool) -> Seq<char> {
    let n = column_count(rows);
    if n == 0 {
        Seq::empty()
    } else {
        cells_written(
            if has_header {
                rows[0]
            } else {
                Seq::empty()
            },
            n,
        ).push('\n').push('|') + repeated(" --- |"@, n) + rows_written(
            if has_header {
                rows.skip(1)
            } else {
                rows
            },
            n,
        )
    }
}

pub fn table_to_markdown(rows: &[Vec<String>], has_header: bool) -> (r: String)
    ensures
        r@ == table_written(grid(rows@), has_header),
{
    let col_count = count_columns(rows);
    if col_count == 0 {
        return String::new();
    }
    let ghost g = grid(rows@);
    assert(rows@.len() > 0);
    let mut out = String::new();
    if has_header {
        push_md_row(&mut out, rows[0].as_slice(), col_count);
        assert(g[0] == text::views(rows@[0]@));
        assert(out@ =~= cells_written(g[0], col_count as nat));
    } else {
        let empty: Vec<String> = Vec::new();
        push_md_row(&mut out, empty.as_slice(), col_count);
        assert(text::views(empty@) =~= Seq::empty());
        assert(out@ =~= cells_written(Seq::empty(), col_count as nat));
    }
    out.push('\n');
    out.push('|');
    let ghost head = out@;
    assert(head =~= head + repeated(" --- |"@, 0));
    for i in 0..col_count
        invariant
            out@ == head + repeated(" --- |"@, i as nat),
    {
        out.append(" --- |");
        assert(out@ =~= head + repeated(" --- |"@, (i + 1) as nat));
    }
    let ghost ruled = out@;
    let first: usize = if has_header {
        1
    } else {
        0
    };
    let ghost data = if has_header {
        g.skip(1)
    } else {
        g
    };
    assert(ruled =~= ruled + rows_written(data.take(0), col_count as nat));
    for i in first..rows.len()
        invariant
            g == grid(rows@),
            first <= 1,
            first <= rows@.len(),
            data == if first == 1 {
                g.skip(1)
            } else {
                g
            },
            out@ == ruled + rows_written(data.take(i - first), col_count as nat),
    {
        out.push('\n');
        push_md_row(&mut out, rows[i].as_slice(), col_count);
        proof {
            let k = i - first;
            assert(data.take(k + 1).drop_last() =~= data.take(k));
            assert(data.take(k + 1).last() == text::views(rows@[i as int]@));
            assert(out@ =~= ruled + rows_written(data.take(k + 1), col_count as nat));
        }
    }
    assert(data.take(data.len() as int) =~= data);
    out
}

/// A block in Markdown.
pub open spec fn block_written(block: Block) -> Seq<char> {
    match block {
        Block::Heading(text) => "### "@ + text,
        Block::Paragraph(text) => text,
        Block::Table(rows, has_header) => table_written(rows, has_header),
    }
}

/// A block as plain text: the cells of a table with blanks between them, row by row.
pub open spec fn block_plain(block: Block) -> Seq<char> {
    match block {
        Block::Heading(text) => text,
        Block::Paragraph(text) => text,
        Block::Table(rows, _) => text::joined(
            rows.map_values(|row: Seq<Seq<char>>| text::joined(row, seq![' '])),
            seq!['\n'],
        ),
    }
}

/// Text followed by a blank line, if there is any.
pub open spec fn set_off(s: Seq<char>) -> Seq<char> {
    if s.len() > 0 {
        s + "\n\n"@
    } else {
        s
    }
}

pub open spec fn blocks_written(blocks: Seq<Block>) -> Seq<char>
    decreases blocks.len(),
{
    if blocks.len() == 0 {
        Seq::empty()
    } else {
        set_off(blocks_written(blocks.drop_last())) + block_written(blocks.last())
    }
}

pub open spec fn blocks_plain(blocks: Seq<Block>) -> Seq<char>
    decreases blocks.len(),
{
    if blocks.len() == 0 {
        Seq::empty()
    } else {
        set_off(blocks_plain(blocks.drop_last())) + block_plain(blocks.last())
    }
}

pub fn blocks_to_markdown(blocks: &[PageBlock]) -> (r: String)
    ensures
        r@ == blocks_written(block_views(blocks@)),
{
    let mut out = String::new();
    for i in 0..blocks.len()
        invariant
            out@ == blocks_written(block_views(blocks@).take(i as int)),
    {
        let ghost before = out@;
        proof {
            let v = block_views(blocks@);
            assert(v.take(i + 1).drop_last() =~= v.take(i as int));
            assert(v.take(i + 1).last() == blocks@[i as int]@);
        }
        if !out.as_str().is_empty() {
            out.append("\n\n");
        }
        match &blocks[i] {
            PageBlock::Heading(text) => {
                out.append("### ");
                out.append(text.as_str());
                assert(out@ =~= set_off(before) + block_written(blocks@[i as int]@));
            },
            PageBlock::Paragraph(text) => out.append(text.as_str()),
            PageBlock::Table { rows, has_header } => {
                let table = table_to_markdown(rows.as_slice(), *has_header);
                out.append(table.as_str());
            },
        }
    }
    assert(block_views(blocks@).take(blocks@.len() as int) =~= block_views(blocks@));
    out
}

fn table_to_plain(rows: &[Vec<String>]) -> (r: String)
    ensures
        r@ == block_plain(Block::Table(grid(rows@), true)),
{
    let mut lines: Vec<String> = Vec::new();
    let ghost f = |row: Seq<Seq<char>>| text::joined(row, seq![' ']);
    proof {
        reveal_strlit(" ");
        reveal_strlit("\n");
        assert(" "@ =~= seq![' ']);
        assert("\n"@ =~= seq!['\n']);
    }
    for i in 0..rows.len()
        invariant
            f == (|row: Seq<Seq<char>>| text::joined(row, seq![' '])),
            " "@ == seq![' '],
            text::views(lines@) == grid(rows@).map_values(f).take(i as int),
    {
        let ghost before = lines@;
        lines.push(text::join_texts(rows[i].as_slice(), " "));
        proof {
            let m = grid(rows@).map_values(f);
            assert(m[i as int] == f(text::views(rows@[i as int]@)));
            assert(text::views(lines@) =~= text::views(before).push(m[i as int]));
            assert(m.take(i + 1) =~= m.take(i as int).push(m[i as int]));
        }
    }
    assert(grid(rows@).map_values(f).take(rows@.len() as int) =~= grid(rows@).map_values(f));
    text::join_texts(lines.as_slice(), "\n")
}

pub fn blocks_to_plain(blocks: &[PageBlock]) -> (r: String)
    ensures
        r@ == blocks_plain(block_views(blocks@)),
{
    let mut out = String::new();
    for i in 0..blocks.len()
        invariant
            out@ == blocks_plain(block_views(blocks@).take(i as int)),
    {
        proof {
            let v = block_views(blocks@);
            assert(v.take(i + 1).drop_last() =~= v.take(i as int));
            assert(v.take(i + 1).last() == blocks@[i as int]@);
        }
        if !out.as_str().is_empty() {
            out.append("\n\n");
        }
        match &blocks[i] {
            PageBlock::Heading(text) => out.append(text.as_str()),
            PageBlock::Paragraph(text) => out.append(text.as_str()),
            PageBlock::Table { rows, .. } => {
                let table = table_to_plain(rows.as_slice());
                out.append(table.as_str());
            },
        }
    }
    assert(block_views(blocks@).take(blocks@.len() as int) =~= block_views(blocks@));
    out
}

/// How often a character occurs in a text.
pub open spec fn occurrences(s: Seq<char>, c: char) -> nat
    decreases s.len(),
{
    if s.len() == 0 {
        0
    } else {
        occurrences(s.drop_last(), c) + if s.last() == c {
            1nat
        } else {
            0nat
        }
    }
}

pub(crate) proof fn lemma_occurrences_add(a: Seq<char>, b: Seq<char>, c: char)
    ensures
        occurrences(a + b, c) == occurrences(a, c) + occurrences(b, c),
    decreases b.len(),
{
    if b.len() == 0 {
        assert(a + b =~= a);
    } else {
        lemma_occurrences_add(a, b.drop_last(), c);
        assert((a + b).drop_last() =~= a + b.drop_last());
    }
}

pub(crate) proof fn lemma_occurrences_none(s: Seq<char>, c: char)
    requires
        forall|i: int| 0 <= i < s.len() ==> s[i] != c,
    ensures
        occurrences(s, c) == 0,
    decreases s.len(),
{
    if s.len() > 0 {
        lemma_occurrences_none(s.drop_last(), c);
    }
}

proof fn lemma_escaped_has_no_newline(s: Seq<char>)
    requires
        forall|i: int| 0 <= i < s.len() ==> s[i] != '\n',
    ensures
        occurrences(bars_escaped(s), '\n') == 0,
    decreases s.len(),
{
    reveal_with_fuel(occurrences, 3);
    if s.len() > 0 {
        lemma_escaped_has_no_newline(s.drop_last());
        let e = bars_escaped(s.drop_last());
        if s.last() == '|' {
            assert(bars_escaped(s).drop_last() =~= e.push('\\'));
            assert(e.push('\\').drop_last() =~= e);
        } else {
            assert(bars_escaped(s).drop_last() =~= e);
        }
    }
}

proof fn lemma_cells_are_one_line(cells: Seq<Seq<char>>, n: nat)
    ensures
        occurrences(cells_written(cells, n), '\n') == 0,
    decreases n,
{
    if n == 0 {
        lemma_occurrences_none(seq!['|'], '\n');
    } else {
        let i = (n - 1) as nat;
        lemma_cells_are_one_line(cells, i);
        let before = cells_written(cells, i);
        assert(before.push(' ').drop_last() =~= before);
        let cell = if i < cells.len() {
            bars_escaped(fragments::collapsed(cells[i as int]))
        } else {
            Seq::empty()
        };
        if i < cells.len() {
            let line = fragments::collapsed(cells[i as int]);
            fragments::collapsing_is_stable(cells[i as int]);
            assert forall|j: int| 0 <= j < line.len() implies line[j] != '\n' by {
                if text::is_space(line[j]) {
                    assert(line[j] == ' ');
                }
            }
            lemma_escaped_has_no_newline(line);
        }
        reveal_strlit(" |");
        lemma_occurrences_none(" |"@, '\n');
        lemma_occurrences_add(before.push(' '), cell, '\n');
        lemma_occurrences_add(before.push(' ') + cell, " |"@, '\n');
    }
}

proof fn lemma_rows_are_lines(rows: Grid, n: nat)
    ensures
        occurrences(rows_written(rows, n), '\n') == rows.len(),
    decreases rows.len(),
{
    if rows.len() > 0 {
        lemma_rows_are_lines(rows.drop_last(), n);
        let before = rows_written(rows.drop_last(), n);
        assert(before.push('\n').drop_last() =~= before);
        lemma_cells_are_one_line(rows.last(), n);
        lemma_occurrences_add(before.push('\n'), cells_written(rows.last(), n), '\n');
    }
}

/// Whatever its cells hold, a table in Markdown has one line for each row and one for the rule, and
/// a line more for the empty header where it has none of its own.
pub proof fn table_has_one_line_per_row(rows: Grid, has_header: bool)
    requires
        column_count(rows) > 0,
    ensures
        occurrences(table_written(rows, has_header), '\n') == rows.len() + if has_header {
            0int
        } else {
            1int
        },
{
    let n = column_count(rows);
    let header = if has_header {
        rows[0]
    } else {
        Seq::empty()
    };
    let data = if has_header {
        rows.skip(1)
    } else {
        rows
    };
    let head = cells_written(header, n);
    lemma_cells_are_one_line(header, n);
    assert(head.push('\n').drop_last() =~= head);
    assert(head.push('\n').push('|').drop_last() =~= head.push('\n'));
    reveal_with_fuel(occurrences, 3);
    lemma_rule_is_one_line(n);
    lemma_rows_are_lines(data, n);
    let top = head.push('\n').push('|');
    lemma_occurrences_add(top, repeated(" --- |"@, n), '\n');
    lemma_occurrences_add(top + repeated(" --- |"@, n), rows_written(data, n), '\n');
}

proof fn lemma_rule_is_one_line(n: nat)
    ensures
        occurrences(repeated(" --- |"@, n), '\n') == 0,
    decreases n,
{
    if n > 0 {
        lemma_rule_is_one_line((n - 1) as nat);
        reveal_strlit(" --- |");
        lemma_occurrences_none(" --- |"@, '\n');
        lemma_occurrences_add(repeated(" --- |"@, (n - 1) as nat), " --- |"@, '\n');
    }
}

/// Whether two blocks hold the same text or the same cells, whatever they are marked as.
pub open spec fn same_contents(a: Block, b: Block) -> bool {
    match a {
        Block::Table(rows, _) => match b {
            Block::Table(other, _) => rows == other,
            _ => false,
        },
        Block::Heading(text) => b == Block::Heading(text) || b == Block::Paragraph(text),
        Block::Paragraph(text) => b == Block::Heading(text) || b == Block::Paragraph(text),
    }
}

/// The plain text of blocks holds their texts and cells and no marks: blocks that agree in these
/// have the same plain text.
pub proof fn plain_text_holds_no_marks(a: Seq<Block>, b: Seq<Block>)
    requires
        a.len() == b.len(),
        forall|i: int| 0 <= i < a.len() ==> same_contents(#[trigger] a[i], b[i]),
    ensures
        blocks_plain(a) == blocks_plain(b),
    decreases a.len(),
{
    if a.len() > 0 {
        let x = a.drop_last();
        let y = b.drop_last();
        assert forall|i: int| 0 <= i < x.len() implies same_contents(#[trigger] x[i], y[i]) by {
            assert(same_contents(a[i], b[i]));
        }
        plain_text_holds_no_marks(x, y);
        assert(same_contents(a[a.len() - 1], b[b.len() - 1]));
    }
}

proof fn lemma_one_block(block: Block)
    ensures
        blocks_written(seq![block]) == block_written(block),
        blocks_plain(seq![block]) == block_plain(block),
{
    reveal_with_fuel(blocks_written, 2);
    reveal_with_fuel(blocks_plain, 2);
    assert(seq![block].drop_last() =~= Seq::empty());
    assert(set_off(Seq::empty()) + block_written(block) =~= block_written(block));
    assert(set_off(Seq::empty()) + block_plain(block) =~= block_plain(block));
}

/// What one block is in Markdown and as plain text: a heading of the third level, or its text.
pub proof fn blocks_show_their_text(text: Seq<char>)
    ensures
        blocks_written(seq![Block::Heading(text)]) == seq!['#', '#', '#', ' '] + text,
        blocks_written(seq![Block::Paragraph(text)]) == text,
        blocks_plain(seq![Block::Heading(text)]) == text,
        blocks_plain(seq![Block::Paragraph(text)]) == text,
        blocks_written(Seq::empty()) == Seq::<char>::empty(),
        blocks_plain(Seq::empty()) == Seq::<char>::empty(),
{
    lemma_one_block(Block::Heading(text));
    lemma_one_block(Block::Paragraph(text));
    reveal_strlit("### ");
    assert("### "@ =~= seq!['#', '#', '#', ' ']);
}

/// A blank line divides the Markdown of blocks that follow each other: the blocks of two lists give
/// the Markdown of the first ones, a blank line and the Markdown of the others. Blocks that show
/// nothing are left out of this.
pub proof fn a_blank_line_divides_blocks(a: Seq<Block>, b: Seq<Block>)
    requires
        blocks_written(a).len() > 0,
        b.len() > 0,
        blocks_written(seq![b[0]]).len() > 0,
    ensures
        blocks_written(a + b) == blocks_written(a) + seq!['\n', '\n'] + blocks_written(b),
    decreases b.len(),
{
    reveal_strlit("\n\n");
    assert("\n\n"@ =~= seq!['\n', '\n']);
    assert((a + b).drop_last() =~= a + b.drop_last());
    assert((a + b).last() == b.last());
    if b.len() == 1 {
        assert(b =~= seq![b[0]]);
        lemma_one_block(b[0]);
        assert(a + b.drop_last() =~= a);
    } else {
        let front = b.drop_last();
        assert(front[0] == b[0]);
        a_blank_line_divides_blocks(a, front);
        lemma_shown_stays(front);
        assert(blocks_written(a + b) =~= blocks_written(a) + seq!['\n', '\n'] + blocks_written(b));
    }
}

proof fn lemma_shown_stays(b: Seq<Block>)
    requires
        b.len() > 0,
        blocks_written(seq![b[0]]).len() > 0,
    ensures
        blocks_written(b).len() > 0,
    decreases b.len(),
{
    if b.len() == 1 {
        assert(b =~= seq![b[0]]);
    } else {
        assert(b.drop_last()[0] == b[0]);
        lemma_shown_stays(b.drop_last());
    }
}

/// The same of the plain text.
pub proof fn a_blank_line_divides_plain_blocks(a: Seq<Block>, b: Seq<Block>)
    requires
        blocks_plain(a).len() > 0,
        b.len() > 0,
        blocks_plain(seq![b[0]]).len() > 0,
    ensures
        blocks_plain(a + b) == blocks_plain(a) + seq!['\n', '\n'] + blocks_plain(b),
    decreases b.len(),
{
    reveal_strlit("\n\n");
    assert("\n\n"@ =~= seq!['\n', '\n']);
    assert((a + b).drop_last() =~= a + b.drop_last());
    assert((a + b).last() == b.last());
    if b.len() == 1 {
        assert(b =~= seq![b[0]]);
        lemma_one_block(b[0]);
        assert(a + b.drop_last() =~= a);
    } else {
        let front = b.drop_last();
        assert(front[0] == b[0]);
        a_blank_line_divides_plain_blocks(a, front);
        lemma_plain_stays(front);
        assert(blocks_plain(a + b) =~= blocks_plain(a) + seq!['\n', '\n'] + blocks_plain(b));
    }
}

proof fn lemma_plain_stays(b: Seq<Block>)
    requires
        b.len() > 0,
        blocks_plain(seq![b[0]]).len() > 0,
    ensures
        blocks_plain(b).len() > 0,
    decreases b.len(),
{
    if b.len() == 1 {
        assert(b =~= seq![b[0]]);
    } else {
        assert(b.drop_last()[0] == b[0]);
        lemma_plain_stays(b.drop_last());
    }
}

/// Blocks that all show something are joined by blank lines, in Markdown and as plain text.
pub proof fn shown_blocks_are_joined(list: Seq<Block>)
    ensures
        (forall|i: int|
            0 <= i < list.len() ==> blocks_written(seq![#[trigger] list[i]]).len() > 0)
            ==> blocks_written(list) == text::joined(
            list.map_values(|b: Block| blocks_written(seq![b])),
            seq!['\n', '\n'],
        ),
        (forall|i: int| 0 <= i < list.len() ==> blocks_plain(seq![#[trigger] list[i]]).len() > 0)
            ==> blocks_plain(list) == text::joined(
            list.map_values(|b: Block| blocks_plain(seq![b])),
            seq!['\n', '\n'],
        ),
    decreases list.len(),
{
    let f = |b: Block| blocks_written(seq![b]);
    let g = |b: Block| blocks_plain(seq![b]);
    if list.len() == 0 {
        assert(list.map_values(f) =~= Seq::empty());
        assert(list.map_values(g) =~= Seq::empty());
    } else if list.len() == 1 {
        assert(list =~= seq![list[0]]);
        assert(list.map_values(f) =~= seq![f(list[0])]);
        assert(list.map_values(g) =~= seq![g(list[0])]);
    } else {
        let front = list.drop_last();
        shown_blocks_are_joined(front);
        assert(list =~= front + seq![list.last()]);
        assert(list.map_values(f).drop_last() =~= front.map_values(f));
        assert(list.map_values(g).drop_last() =~= front.map_values(g));
        if forall|i: int|
            0 <= i < list.len() ==> blocks_written(seq![#[trigger] list[i]]).len() > 0 {
            assert forall|i: int| 0 <= i < front.len() implies blocks_written(
                seq![#[trigger] front[i]],
            ).len() > 0 by {
                assert(front[i] == list[i]);
            }
            assert(blocks_written(seq![front[0]]).len() > 0);
            lemma_shown_stays(front);
            assert(blocks_written(seq![list[list.len() - 1]]).len() > 0);
            a_blank_line_divides_blocks(front, seq![list.last()]);
        }
        if forall|i: int| 0 <= i < list.len() ==> blocks_plain(seq![#[trigger] list[i]]).len() > 0 {
            assert forall|i: int| 0 <= i < front.len() implies blocks_plain(
                seq![#[trigger] front[i]],
            ).len() > 0 by {
                assert(front[i] == list[i]);
            }
            assert(blocks_plain(seq![front[0]]).len() > 0);
            lemma_plain_stays(front);
            assert(blocks_plain(seq![list[list.len() - 1]]).len() > 0);
            a_blank_line_divides_plain_blocks(front, seq![list.last()]);
        }
    }
}

/// The cells of a table come back from its plain text, which has a line for each row and a blank
/// between the cells, where they hold neither.
pub proof fn plain_cells_come_back(rows: Grid, has_header: bool, i: int)
    requires
        0 <= i < rows.len(),
        forall|k: int| 0 <= k < rows.len() ==> (#[trigger] rows[k]).len() > 0,
        forall|k: int, j: int|
            0 <= k < rows.len() && 0 <= j < rows[k].len() ==> !(#[trigger] rows[k][j]).contains(' ')
                && !rows[k][j].contains('\n'),
    ensures
        ({
            let lines = text::split_at_char(
                blocks_plain(seq![Block::Table(rows, has_header)]),
                '\n',
            );
            lines.len() == rows.len() && text::split_at_char(lines[i], ' ') == rows[i]
        }),
{
    lemma_one_block(Block::Table(rows, has_header));
    let f = |row: Seq<Seq<char>>| text::joined(row, seq![' ']);
    let lines = rows.map_values(f);
    assert forall|k: int| 0 <= k < lines.len() implies !(#[trigger] lines[k]).contains('\n') by {
        assert forall|j: int| 0 <= j < rows[k].len() implies !(#[trigger] rows[k][j]).contains(
            '\n',
        ) by {}
        lemma_joined_lacks(rows[k], seq![' '], '\n');
    }
    text::splitting_undoes_joining(lines, '\n');
    assert forall|j: int| 0 <= j < rows[i].len() implies !(#[trigger] rows[i][j]).contains(
        ' ',
    ) by {}
    text::splitting_undoes_joining(rows[i], ' ');
}

proof fn lemma_joined_lacks(parts: Seq<Seq<char>>, sep: Seq<char>, c: char)
    requires
        forall|j: int| 0 <= j < parts.len() ==> !(#[trigger] parts[j]).contains(c),
        !sep.contains(c),
    ensures
        !text::joined(parts, sep).contains(c),
    decreases parts.len(),
{
    let all = text::joined(parts, sep);
    if parts.len() > 1 {
        let front = parts.drop_last();
        assert forall|j: int| 0 <= j < front.len() implies !(#[trigger] front[j]).contains(c) by {
            assert(front[j] == parts[j]);
        }
        lemma_joined_lacks(front, sep, c);
        let before = text::joined(front, sep);
        assert(!parts[parts.len() - 1].contains(c));
        assert forall|k: int| 0 <= k < all.len() implies all[k] != c by {
            if k < before.len() {
                assert(before.contains(before[k]));
            } else if k < before.len() + sep.len() {
                assert(sep.contains(sep[k - before.len()]));
            } else {
                let j = k - before.len() - sep.len();
                assert(parts.last().contains(parts.last()[j]));
            }
        }
    }
}

/// A text with its escaped bars as they were.
pub open spec fn bars_read(s: Seq<char>) -> Seq<char>
    decreases s.len(),
{
    if s.len() == 0 {
        s
    } else if s.len() > 1 && s.last() == '|' && s[s.len() - 2] == '\\' {
        bars_read(s.drop_last().drop_last()).push('|')
    } else {
        bars_read(s.drop_last()).push(s.last())
    }
}

/// Escaped bars read back, and none is left without a backslash before it.
pub proof fn bars_read_back(s: Seq<char>)
    ensures
        bars_read(bars_escaped(s)) == s,
        forall|i: int|
            0 <= i < bars_escaped(s).len() && #[trigger] bars_escaped(s)[i] == '|' ==> i > 0
                && bars_escaped(s)[i - 1] == '\\',
    decreases s.len(),
{
    if s.len() == 0 {
        assert(bars_read(bars_escaped(s)) =~= s);
    } else {
        bars_read_back(s.drop_last());
        let e = bars_escaped(s.drop_last());
        let r = bars_escaped(s);
        assert(s.drop_last().push(s.last()) =~= s);
        if s.last() == '|' {
            assert(r.drop_last().drop_last() =~= e);
        } else {
            assert(r.drop_last() =~= e);
        }
        assert forall|i: int| 0 <= i < r.len() && #[trigger] r[i] == '|' implies i > 0 && r[i - 1]
            == '\\' by {
            if i < e.len() {
                assert(r[i] == e[i]);
            }
        }
    }
}

/// A line of a table with these parts.
pub open spec fn table_line(parts: Seq<Seq<char>>) -> Seq<char> {
    seq!['|', ' '] + text::joined(parts, seq![' ', '|', ' ']) + seq![' ', '|']
}

/// The cells of a row as they are shown: in one line, with escaped bars, and an empty one for each
/// that the row lacks.
pub open spec fn shown_cells(cells: Seq<Seq<char>>, n: nat) -> Seq<Seq<char>> {
    Seq::new(
        n,
        |i: int|
            if i < cells.len() {
                bars_escaped(fragments::collapsed(cells[i]))
            } else {
                Seq::empty()
            },
    )
}

proof fn lemma_row_line(cells: Seq<Seq<char>>, n: nat)
    requires
        n > 0,
    ensures
        cells_written(cells, n) == table_line(shown_cells(cells, n)),
    decreases n,
{
    reveal_strlit(" |");
    assert(" |"@ =~= seq![' ', '|']);
    let all = shown_cells(cells, n);
    if n == 1 {
        reveal_with_fuel(cells_written, 2);
        assert(cells_written(cells, n) =~= table_line(all));
    } else {
        let i = (n - 1) as nat;
        lemma_row_line(cells, i);
        assert(all.drop_last() =~= shown_cells(cells, i));
        assert(cells_written(cells, n) =~= table_line(all));
    }
}

proof fn lemma_rule_line(n: nat)
    requires
        n > 0,
    ensures
        seq!['|'] + repeated(" --- |"@, n) == table_line(Seq::new(n, |i: int| seq!['-', '-', '-'])),
    decreases n,
{
    reveal_strlit(" --- |");
    assert(" --- |"@ =~= seq![' ', '-', '-', '-', ' ', '|']);
    let all = Seq::new(n, |i: int| seq!['-', '-', '-']);
    if n == 1 {
        reveal_with_fuel(repeated, 2);
        assert(seq!['|'] + repeated(" --- |"@, n) =~= table_line(all));
    } else {
        let i = (n - 1) as nat;
        lemma_rule_line(i);
        assert(all.drop_last() =~= Seq::new(i, |i: int| seq!['-', '-', '-']));
        assert(seq!['|'] + repeated(" --- |"@, n) =~= (seq!['|'] + repeated(" --- |"@, i))
            + " --- |"@);
        assert(seq!['|'] + repeated(" --- |"@, n) =~= table_line(all));
    }
}

proof fn lemma_rows_joined(top: Seq<Seq<char>>, rows: Grid, n: nat)
    requires
        top.len() > 0,
        n > 0,
    ensures
        text::joined(top, seq!['\n']) + rows_written(rows, n) == text::joined(
            top + rows.map_values(|row: Seq<Seq<char>>| table_line(shown_cells(row, n))),
            seq!['\n'],
        ),
    decreases rows.len(),
{
    let f = |row: Seq<Seq<char>>| table_line(shown_cells(row, n));
    let all = top + rows.map_values(f);
    if rows.len() == 0 {
        assert(all =~= top);
        assert(text::joined(top, seq!['\n']) + rows_written(rows, n) =~= text::joined(
            top,
            seq!['\n'],
        ));
    } else {
        lemma_rows_joined(top, rows.drop_last(), n);
        assert(all.drop_last() =~= top + rows.drop_last().map_values(f));
        assert(all.last() == f(rows.last()));
        lemma_row_line(rows.last(), n);
        assert(text::joined(top, seq!['\n']) + rows_written(rows, n) =~= text::joined(
            all,
            seq!['\n'],
        ));
    }
}

/// The number of columns is the length of the longest row.
pub proof fn columns_are_those_of_the_longest_row(rows: Grid)
    ensures
        forall|i: int| 0 <= i < rows.len() ==> (#[trigger] rows[i]).len() <= column_count(rows),
        rows.len() > 0 ==> exists|i: int|
            0 <= i < rows.len() && (#[trigger] rows[i]).len() == column_count(rows),
        rows.len() == 0 ==> column_count(rows) == 0,
    decreases rows.len(),
{
    if rows.len() > 0 {
        let front = rows.drop_last();
        columns_are_those_of_the_longest_row(front);
        assert forall|i: int| 0 <= i < rows.len() implies (#[trigger] rows[i]).len()
            <= column_count(rows) by {
            if i < front.len() {
                assert(front[i] == rows[i]);
            }
        }
        if rows.last().len() > column_count(front) || front.len() == 0 {
            assert(rows[rows.len() - 1].len() == column_count(rows));
        } else {
            let i = choose|i: int|
                0 <= i < front.len() && (#[trigger] front[i]).len() == column_count(front);
            assert(rows[i].len() == column_count(rows));
        }
    }
}

/// A table in Markdown is made of lines: one for the header, which is the first row where the table
/// has a header and empty cells where it has none, the rule, and one for each of the other rows. Each
/// line has a cell for every column, between bars.
pub proof fn tables_are_written_row_by_row(rows: Grid, has_header: bool)
    requires
        column_count(rows) > 0,
    ensures
        ({
            let n = column_count(rows);
            let header = if has_header {
                rows[0]
            } else {
                Seq::empty()
            };
            let others = if has_header {
                rows.skip(1)
            } else {
                rows
            };
            blocks_written(seq![Block::Table(rows, has_header)]) == text::joined(
                seq![
                    table_line(shown_cells(header, n)),
                    table_line(Seq::new(n, |i: int| seq!['-', '-', '-'])),
                ] + others.map_values(|row: Seq<Seq<char>>| table_line(shown_cells(row, n))),
                seq!['\n'],
            )
        }),
{
    lemma_one_block(Block::Table(rows, has_header));
    let n = column_count(rows);
    let header = if has_header {
        rows[0]
    } else {
        Seq::empty()
    };
    let others = if has_header {
        rows.skip(1)
    } else {
        rows
    };
    let rule = table_line(Seq::new(n, |i: int| seq!['-', '-', '-']));
    let top = seq![table_line(shown_cells(header, n)), rule];
    lemma_row_line(header, n);
    lemma_rule_line(n);
    reveal_with_fuel(text::joined, 3);
    assert(top.drop_last() =~= seq![table_line(shown_cells(header, n))]);
    assert(cells_written(header, n).push('\n').push('|') + repeated(" --- |"@, n) =~= text::joined(
        top,
        seq!['\n'],
    ));
    lemma_rows_joined(top, others, n);
}

/// Whether two cells of a row hold more than spaces.
pub open spec fn has_two_filled(row: Seq<Seq<char>>) -> bool {
    exists|i: int, j: int|
        0 <= i < j < row.len() && text::ink(#[trigger] row[i]).len() > 0 && text::ink(
            #[trigger] row[j],
        ).len() > 0
}

proof fn lemma_filled(cell: Seq<char>)
    ensures
        is_filled(cell) <==> text::ink(cell).len() > 0,
{
    text::trimming_keeps_text(cell);
    text::trimming_cuts_both_ends(cell);
    text::lemma_blank(cell);
    let t = text::trimmed(cell);
    if t.len() > 0 {
        assert(t =~= seq![t[0]] + t.skip(1));
        text::lemma_ink_add(seq![t[0]], t.skip(1));
        text::lemma_ink_all(seq![t[0]]);
    } else {
        text::lemma_ink_none(cell);
    }
}

proof fn lemma_one_filled(row: Seq<Seq<char>>)
    ensures
        row.filter(|cell: Seq<char>| is_filled(cell)).len() >= 1 <==> exists|i: int|
            0 <= i < row.len() && text::ink(#[trigger] row[i]).len() > 0,
    decreases row.len(),
{
    let p = |cell: Seq<char>| is_filled(cell);
    reveal(Seq::filter);
    if row.len() > 0 {
        let front = row.drop_last();
        lemma_one_filled(front);
        lemma_filled(row.last());
        assert(row[row.len() - 1] == row.last());
        if exists|i: int| 0 <= i < front.len() && text::ink(#[trigger] front[i]).len() > 0 {
            let i = choose|i: int| 0 <= i < front.len() && text::ink(#[trigger] front[i]).len() > 0;
            assert(row[i] == front[i]);
        }
        if exists|i: int| 0 <= i < row.len() && text::ink(#[trigger] row[i]).len() > 0 {
            let i = choose|i: int| 0 <= i < row.len() && text::ink(#[trigger] row[i]).len() > 0;
            if i < front.len() {
                assert(row[i] == front[i]);
            }
        }
    }
}

pub(crate) proof fn lemma_populated(row: Seq<Seq<char>>)
    ensures
        is_populated(row) <==> has_two_filled(row),
    decreases row.len(),
{
    let p = |cell: Seq<char>| is_filled(cell);
    reveal(Seq::filter);
    if row.len() > 0 {
        let front = row.drop_last();
        lemma_populated(front);
        lemma_one_filled(front);
        lemma_filled(row.last());
        assert(row[row.len() - 1] == row.last());
        if has_two_filled(front) {
            let (i, j) = choose|i: int, j: int|
                0 <= i < j < front.len() && text::ink(#[trigger] front[i]).len() > 0 && text::ink(
                    #[trigger] front[j],
                ).len() > 0;
            assert(row[i] == front[i] && row[j] == front[j]);
        }
        if is_filled(row.last()) && front.filter(p).len() >= 1 {
            let i = choose|i: int| 0 <= i < front.len() && text::ink(#[trigger] front[i]).len() > 0;
            assert(row[i] == front[i]);
            assert(text::ink(row[row.len() - 1]).len() > 0);
        }
        if has_two_filled(row) {
            let (i, j) = choose|i: int, j: int|
                0 <= i < j < row.len() && text::ink(#[trigger] row[i]).len() > 0 && text::ink(
                    #[trigger] row[j],
                ).len() > 0;
            assert(front[i] == row[i]);
            if j < front.len() {
                assert(front[j] == row[j]);
            }
        }
    }
}

proof fn lemma_populated_rows(rows: Grid)
    ensures
        rows.filter(|row: Seq<Seq<char>>| is_populated(row)) == rows.filter(
            |row: Seq<Seq<char>>| has_two_filled(row),
        ),
    decreases rows.len(),
{
    reveal(Seq::filter);
    if rows.len() > 0 {
        lemma_populated_rows(rows.drop_last());
        lemma_populated(rows.last());
    }
}

/// A grid is a table where it has two rows, a row of two cells, and in at least half of its rows two
/// cells that hold more than spaces.
pub proof fn tables_have_filled_rows(rows: Grid)
    ensures
        is_table(rows) <==> {
            &&& rows.len() >= 2
            &&& exists|i: int| 0 <= i < rows.len() && (#[trigger] rows[i]).len() >= 2
            &&& rows.filter(|row: Seq<Seq<char>>| has_two_filled(row)).len() * 2 >= rows.len()
        },
{
    lemma_populated_rows(rows);
    columns_are_those_of_the_longest_row(rows);
    if exists|i: int| 0 <= i < rows.len() && (#[trigger] rows[i]).len() >= 2 {
        let i = choose|i: int| 0 <= i < rows.len() && (#[trigger] rows[i]).len() >= 2;
        assert(rows[i].len() <= column_count(rows));
    }
}

/// Blocks stand for what they hold, one after another.
pub proof fn blocks_stand_for_what_they_hold(
    text: String,
    rows: Vec<Vec<String>>,
    has_header: bool,
    list: Seq<PageBlock>,
)
    ensures
        PageBlock::Heading(text)@ == Block::Heading(text@),
        PageBlock::Paragraph(text)@ == Block::Paragraph(text@),
        (PageBlock::Table { rows, has_header })@ == Block::Table(grid(rows@), has_header),
        grid(rows@).len() == rows@.len(),
        forall|i: int, k: int|
            0 <= i < rows@.len() && 0 <= k < rows@[i]@.len() ==> #[trigger] grid(rows@)[i][k]
                == rows@[i]@[k]@,
        block_views(list).len() == list.len(),
        forall|i: int| 0 <= i < list.len() ==> #[trigger] block_views(list)[i] == list[i]@,
{
}

} // verus!
