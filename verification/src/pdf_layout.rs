//! Rebuilding the text of a page from lines and tables with their places on it.
use crate::binary::Binary32;
use crate::blocks;
use crate::fragments;
use crate::geometry;
use crate::geometry::{ItemView, LineView, TableView, INDENT_BREAK_EM, MIN_EM, OVERLAP_DROP};
use crate::order;
use crate::page_order;
use crate::text;
use vstd::prelude::*;

pub use crate::blocks::{
    blocks_to_markdown, blocks_to_plain, is_real_grid, table_to_markdown, PageBlock,
};
pub use crate::fragments::join_fragments;
pub use crate::geometry::{
    is_heading, is_same_line, overlap_fraction, paragraph_break_threshold, should_continue, Item,
    LayoutLine, LayoutTable,
};
pub use crate::page_order::{detect_gutter, merge_same_lines, ordered_items};

verus! {

/// The gaps between lines that follow each other with no table between them.
pub open spec fn gaps(items: Seq<ItemView>) -> Seq<Binary32>
    decreases items.len(),
{
    if items.len() < 2 {
        Seq::empty()
    } else {
        let before = gaps(items.drop_last());
        match (items[items.len() - 2], items.last()) {
            (ItemView::Line(upper), ItemView::Line(lower)) => before.push(geometry::gap(upper, lower)),
            _ => before,
        }
    }
}

pub fn median_line_gap(items: &[Item]) -> (r: Binary32)
    ensures
        r == geometry::median(gaps(order::seen(items@))),
{
    let ghost all = order::seen(items@);
    let mut found: Vec<Binary32> = Vec::new();
    for i in 0..items.len()
        invariant
            all == order::seen(items@),
            found@ == gaps(all.take(i as int)),
    {
        proof {
            let s = all.take(i + 1);
            assert(s.drop_last() =~= all.take(i as int));
            assert(s.last() == items@[i as int]@);
            if i > 0 {
                assert(s[s.len() - 2] == items@[i - 1]@);
            }
        }
        if i > 0 {
            if let Item::Line(upper) = &items[i - 1] {
                if let Item::Line(lower) = &items[i] {
                    found.push(geometry::gap_between(upper, lower));
                }
            }
        }
    }
    assert(all.take(all.len() as int) =~= all);
    geometry::median_of(found.as_slice())
}

/// How far a line reaches from left to right.
#[derive(Clone, Copy, Debug)]
pub struct LineExtent {
    pub x: Binary32,
    pub right: Binary32,
    pub center_x: Binary32,
}

pub open spec fn extents(items: Seq<ItemView>) -> Seq<LineExtent>
    decreases items.len(),
{
    if items.len() == 0 {
        Seq::empty()
    } else {
        let before = extents(items.drop_last());
        match items.last() {
            ItemView::Line(line) => before.push(
                LineExtent { x: line.x, right: line.right(), center_x: line.center_x() },
            ),
            ItemView::Table(_) => before,
        }
    }
}

fn line_extents(items: &[Item]) -> (r: Vec<LineExtent>)
    ensures
        r@ == extents(order::seen(items@)),
{
    let ghost all = order::seen(items@);
    let mut found: Vec<LineExtent> = Vec::new();
    for i in 0..items.len()
        invariant
            all == order::seen(items@),
            found@ == extents(all.take(i as int)),
    {
        proof {
            assert(all.take(i + 1).drop_last() =~= all.take(i as int));
            assert(all.take(i + 1).last() == items@[i as int]@);
        }
        if let Item::Line(line) = &items[i] {
            found.push(LineExtent { x: line.x, right: line.right(), center_x: line.center_x() });
        }
    }
    assert(all.take(all.len() as int) =~= all);
    found
}

/// Whether two lines stand in one frame: on a page with two columns, both over the gutter or both
/// on one side of it; on another page, with about the same left edge.
pub open spec fn same_frame(
    line: LineView,
    other: LineExtent,
    gutter: Option<Binary32>,
    slack: Binary32,
) -> bool {
    match gutter {
        Some(gutter) => {
            let line_spans = line.x.spec_less(gutter) && gutter.spec_less(line.right());
            let other_spans = other.x.spec_less(gutter) && gutter.spec_less(other.right);
            &&& line_spans == other_spans
            &&& line_spans || line.center_x().spec_less(gutter) == other.center_x.spec_less(gutter)
        },
        None => other.x.spec_minus(line.x).spec_abs().spec_at_most(slack),
    }
}

fn in_same_frame(
    line: &LayoutLine,
    other: &LineExtent,
    gutter: Option<Binary32>,
    slack_x: Binary32,
) -> (r: bool)
    ensures
        r == same_frame(line@, *other, gutter, slack_x),
{
    if let Some(gutter) = gutter {
        let line_span = line.x.less(gutter) && gutter.less(line.right());
        let other_span = other.x.less(gutter) && gutter.less(other.right);
        if line_span || other_span {
            return line_span && other_span;
        }
        return line.center_x().less(gutter) == other.center_x.less(gutter);
    }
    other.x.minus(line.x).abs().at_most(slack_x)
}

/// The right edge of a line's frame. It leaves out the few lines that reach farthest, which may
/// carry a line number.
pub open spec fn frame_right(
    line: LineView,
    extents: Seq<LineExtent>,
    gutter: Option<Binary32>,
    median_size: Binary32,
) -> Binary32 {
    let slack = geometry::num(INDENT_BREAK_EM).spec_times(
        median_size.spec_max(geometry::num(MIN_EM)),
    );
    geometry::percentile(
        extents.filter(|e: LineExtent| same_frame(line, e, gutter, slack)).map_values(
            |e: LineExtent| e.right,
        ),
    ).spec_max(line.right())
}

fn column_frame_right(
    line: &LayoutLine,
    extents: &[LineExtent],
    gutter: Option<Binary32>,
    median_size: Binary32,
) -> (r: Binary32)
    ensures
        r == frame_right(line@, extents@, gutter, median_size),
{
    let slack_x = geometry::number(INDENT_BREAK_EM).times(
        median_size.max(geometry::number(MIN_EM)),
    );
    let ghost p = |e: LineExtent| same_frame(line@, e, gutter, slack_x);
    let ghost f = |e: LineExtent| e.right;
    let mut rights: Vec<Binary32> = Vec::new();
    proof {
        reveal(Seq::filter);
        assert(rights@ =~= extents@.take(0).filter(p).map_values(f));
    }
    for i in 0..extents.len()
        invariant
            p == (|e: LineExtent| same_frame(line@, e, gutter, slack_x)),
            f == (|e: LineExtent| e.right),
            rights@ == extents@.take(i as int).filter(p).map_values(f),
    {
        proof {
            reveal(Seq::filter);
            assert(extents@.take(i + 1).drop_last() =~= extents@.take(i as int));
        }
        if in_same_frame(line, &extents[i], gutter, slack_x) {
            rights.push(extents[i].right);
            assert(rights@ =~= extents@.take(i + 1).filter(p).map_values(f));
        }
    }
    assert(extents@.take(extents@.len() as int) =~= extents@);
    geometry::percentile_of(rights.as_slice()).max(line.right())
}

/// Blocks, and the paragraph that is being put together.
pub struct Merge {
    pub paragraph: Option<LineView>,
    pub blocks: Seq<blocks::Block>,
}

pub open spec fn with_paragraph(done: Seq<blocks::Block>, line: LineView) -> Seq<blocks::Block> {
    let text = fragments::collapsed(line.text);
    if text.len() > 0 {
        done.push(blocks::Block::Paragraph(text))
    } else {
        done
    }
}

pub open spec fn with_heading(done: Seq<blocks::Block>, line: LineView) -> Seq<blocks::Block> {
    let text = fragments::collapsed(line.text);
    if text.len() > 0 {
        done.push(blocks::Block::Heading(text))
    } else {
        done
    }
}

/// The blocks with the open paragraph as the last one.
pub open spec fn flushed(m: Merge) -> Seq<blocks::Block> {
    match m.paragraph {
        Some(line) => with_paragraph(m.blocks, line),
        None => m.blocks,
    }
}

/// What is known of the page as a whole when its items are merged.
pub struct PageShape {
    pub median_size: Binary32,
    pub leading: Binary32,
    pub gutter: Option<Binary32>,
    pub extents: Seq<LineExtent>,
}

/// Whether `line` goes on with the paragraph that ends in `prev`.
pub open spec fn goes_on(prev: LineView, line: LineView, page: PageShape) -> bool {
    geometry::continues(
        prev,
        line,
        page.median_size,
        page.leading,
        frame_right(prev, page.extents, page.gutter, page.median_size).spec_max(line.right()),
    )
}

pub open spec fn merge_step(m: Merge, item: ItemView, page: PageShape) -> Merge {
    match item {
        ItemView::Table(table) => Merge {
            paragraph: None,
            blocks: flushed(m).push(blocks::Block::Table(table.rows, table.has_header)),
        },
        ItemView::Line(line) => if geometry::heading(line, page.median_size) {
            Merge { paragraph: None, blocks: with_heading(flushed(m), line) }
        } else {
            match m.paragraph {
                Some(prev) => if goes_on(prev, line, page) {
                    Merge { paragraph: Some(page_order::wrapped_line(prev, line)), blocks: m.blocks }
                } else {
                    Merge { paragraph: Some(line), blocks: with_paragraph(m.blocks, prev) }
                },
                None => Merge { paragraph: Some(line), blocks: m.blocks },
            }
        },
    }
}

pub open spec fn merged(items: Seq<ItemView>, page: PageShape) -> Merge
    decreases items.len(),
{
    if items.len() == 0 {
        Merge { paragraph: None, blocks: Seq::empty() }
    } else {
        merge_step(merged(items.drop_last(), page), items.last(), page)
    }
}

/// The blocks that items in reading order make up.
pub open spec fn items_merged(
    items: Seq<ItemView>,
    median_size: Binary32,
    leading: Binary32,
    gutter: Option<Binary32>,
) -> Seq<blocks::Block> {
    flushed(
        merged(items, PageShape { median_size, leading, gutter, extents: extents(items) }),
    )
}

pub open spec fn paragraph_view(paragraph: Option<LayoutLine>) -> Option<LineView> {
    match paragraph {
        Some(line) => Some(line@),
        None => None,
    }
}

fn push_paragraph(line: LayoutLine, out: &mut Vec<PageBlock>)
    ensures
        blocks::block_views(final(out)@) == with_paragraph(blocks::block_views(old(out)@), line@),
{
    let text = fragments::collapse_inline_ws(line.text.as_str());
    if !text.as_str().is_empty() {
        let ghost before = blocks::block_views(out@);
        let ghost t = text@;
        out.push(PageBlock::Paragraph(text));
        assert(blocks::block_views(out@) =~= before.push(blocks::Block::Paragraph(t)));
    }
}

fn push_heading(line: &LayoutLine, out: &mut Vec<PageBlock>)
    ensures
        blocks::block_views(final(out)@) == with_heading(blocks::block_views(old(out)@), line@),
{
    let text = fragments::collapse_inline_ws(line.text.as_str());
    if !text.as_str().is_empty() {
        let ghost before = blocks::block_views(out@);
        let ghost t = text@;
        out.push(PageBlock::Heading(text));
        assert(blocks::block_views(out@) =~= before.push(blocks::Block::Heading(t)));
    }
}

fn flush_paragraph(paragraph: Option<LayoutLine>, out: &mut Vec<PageBlock>)
    ensures
        blocks::block_views(final(out)@) == flushed(
            Merge { paragraph: paragraph_view(paragraph), blocks: blocks::block_views(old(out)@) },
        ),
{
    if let Some(line) = paragraph {
        push_paragraph(line, out);
    }
}

pub fn merge_items(
    items: Vec<Item>,
    median_size: Binary32,
    leading: Binary32,
    gutter: Option<Binary32>,
) -> (r: Vec<PageBlock>)
    ensures
        blocks::block_views(r@) == items_merged(
            order::seen(items@),
            median_size,
            leading,
            gutter,
        ),
{
    let extents = line_extents(items.as_slice());
    let ghost all = order::seen(items@);
    let ghost page = PageShape { median_size, leading, gutter, extents: extents@ };
    let mut out: Vec<PageBlock> = Vec::new();
    let mut paragraph: Option<LayoutLine> = None;
    assert(blocks::block_views(out@) =~= Seq::empty());
    for item in it: items
        invariant
            all == order::seen(it.seq()),
            page == (PageShape { median_size, leading, gutter, extents: extents@ }),
            merged(all.take(it.index()), page) == (Merge {
                paragraph: paragraph_view(paragraph),
                blocks: blocks::block_views(out@),
            }),
    {
        proof {
            let n = it.index();
            assert(all.take(n + 1).drop_last() =~= all.take(n));
            assert(all.take(n + 1).last() == item@);
        }
        match item {
            Item::Table(table) => {
                flush_paragraph(paragraph, &mut out);
                paragraph = None;
                let ghost before = blocks::block_views(out@);
                let ghost block = blocks::Block::Table(table@.rows, table.has_header);
                out.push(PageBlock::Table { rows: table.rows, has_header: table.has_header });
                assert(blocks::block_views(out@) =~= before.push(block));
            },
            Item::Line(line) => {
                if geometry::is_heading(&line, median_size) {
                    flush_paragraph(paragraph, &mut out);
                    paragraph = None;
                    push_heading(&line, &mut out);
                } else {
                    match paragraph {
                        Some(prev) => {
                            let edge = column_frame_right(
                                &prev,
                                extents.as_slice(),
                                gutter,
                                median_size,
                            ).max(line.right());
                            if geometry::should_continue(&prev, &line, median_size, leading, edge) {
                                paragraph = Some(page_order::join_wrapped_lines(prev, &line));
                            } else {
                                push_paragraph(prev, &mut out);
                                paragraph = Some(line);
                            }
                        },
                        None => {
                            paragraph = Some(line);
                        },
                    }
                }
            },
        }
    }
    assert(all.take(all.len() as int) =~= all);
    flush_paragraph(paragraph, &mut out);
    out
}

/// Whether one of the tables covers much of a line.
pub open spec fn covered(line: LineView, tables: Seq<TableView>) -> bool {
    exists|i: int|
        0 <= i < tables.len() && geometry::num(OVERLAP_DROP).spec_less(
            geometry::overlap(line, #[trigger] tables[i]),
        )
}

pub open spec fn real_tables(tables: Seq<TableView>) -> Seq<TableView> {
    tables.filter(|t: TableView| blocks::is_table(t.rows))
}

/// The lines that are neither blank nor a part of one of the tables.
pub open spec fn free_lines(lines: Seq<LineView>, tables: Seq<TableView>) -> Seq<LineView> {
    lines.filter(|l: LineView| text::trimmed(l.text).len() > 0 && !covered(l, tables))
}

pub open spec fn text_sizes(lines: Seq<LineView>) -> Seq<Binary32> {
    lines.map_values(|l: LineView| l.height.spec_max(l.font_size))
}

/// The items of a page in reading order.
pub open spec fn page_items(lines: Seq<LineView>, tables: Seq<TableView>) -> Seq<ItemView> {
    let kept = real_tables(tables);
    let whole = page_order::lines_merged(free_lines(lines, kept));
    page_order::page_order(whole, kept, page_order::gutter_of(whole))
}

/// The blocks of a page.
pub open spec fn page_blocks(lines: Seq<LineView>, tables: Seq<TableView>) -> Seq<blocks::Block> {
    let whole = page_order::lines_merged(free_lines(lines, real_tables(tables)));
    let items = page_items(lines, tables);
    items_merged(
        items,
        geometry::median(text_sizes(whole)),
        geometry::median(gaps(items)),
        page_order::gutter_of(whole),
    )
}

fn keep_tables(tables: Vec<LayoutTable>) -> (r: Vec<LayoutTable>)
    ensures
        order::seen(r@) == real_tables(order::seen(tables@)),
{
    let ghost all = order::seen(tables@);
    let ghost p = |t: TableView| blocks::is_table(t.rows);
    let mut kept: Vec<LayoutTable> = Vec::new();
    proof {
        reveal(Seq::filter);
        assert(order::seen(kept@) =~= all.take(0).filter(p));
    }
    for table in it: tables
        invariant
            all == order::seen(it.seq()),
            p == (|t: TableView| blocks::is_table(t.rows)),
            order::seen(kept@) == all.take(it.index()).filter(p),
    {
        let ghost before = kept@;
        proof {
            reveal(Seq::filter);
            let n = it.index();
            assert(all.take(n + 1).drop_last() =~= all.take(n));
            assert(all.take(n + 1).last() == table@);
        }
        if is_real_grid(table.rows.as_slice()) {
            kept.push(table);
            assert(order::seen(kept@) =~= order::seen(before).push(table@));
        }
    }
    assert(all.take(all.len() as int) =~= all);
    kept
}

fn is_covered(line: &LayoutLine, tables: &[LayoutTable]) -> (r: bool)
    ensures
        r == covered(line@, order::seen(tables@)),
{
    let ghost all = order::seen(tables@);
    for i in 0..tables.len()
        invariant
            all == order::seen(tables@),
            forall|j: int|
                0 <= j < i ==> !geometry::num(OVERLAP_DROP).spec_less(
                    geometry::overlap(line@, #[trigger] all[j]),
                ),
    {
        assert(all[i as int] == tables@[i as int]@);
        if geometry::number(OVERLAP_DROP).less(geometry::overlap_fraction(line, &tables[i])) {
            return true;
        }
    }
    false
}

fn keep_lines(lines: Vec<LayoutLine>, tables: &[LayoutTable]) -> (r: Vec<LayoutLine>)
    ensures
        order::seen(r@) == free_lines(order::seen(lines@), order::seen(tables@)),
{
    let ghost all = order::seen(lines@);
    let ghost seen_tables = order::seen(tables@);
    let ghost p = |l: LineView| text::trimmed(l.text).len() > 0 && !covered(l, seen_tables);
    let mut kept: Vec<LayoutLine> = Vec::new();
    proof {
        reveal(Seq::filter);
        assert(order::seen(kept@) =~= all.take(0).filter(p));
    }
    for line in it: lines
        invariant
            all == order::seen(it.seq()),
            seen_tables == order::seen(tables@),
            p == (|l: LineView| text::trimmed(l.text).len() > 0 && !covered(l, seen_tables)),
            order::seen(kept@) == all.take(it.index()).filter(p),
    {
        let ghost before = kept@;
        proof {
            reveal(Seq::filter);
            let n = it.index();
            assert(all.take(n + 1).drop_last() =~= all.take(n));
            assert(all.take(n + 1).last() == line@);
        }
        if !text::is_blank(line.text.as_str()) && !is_covered(&line, tables) {
            kept.push(line);
            assert(order::seen(kept@) =~= order::seen(before).push(line@));
        }
    }
    assert(all.take(all.len() as int) =~= all);
    kept
}

fn sizes(lines: &[LayoutLine]) -> (r: Vec<Binary32>)
    ensures
        r@ == text_sizes(order::seen(lines@)),
{
    let ghost all = text_sizes(order::seen(lines@));
    let mut found: Vec<Binary32> = Vec::new();
    for i in 0..lines.len()
        invariant
            all == text_sizes(order::seen(lines@)),
            found@ == all.take(i as int),
    {
        let line = &lines[i];
        assert(all[i as int] == line@.height.spec_max(line@.font_size));
        found.push(line.height.max(line.font_size));
        assert(all.take(i + 1) =~= all.take(i as int).push(all[i as int]));
    }
    assert(all.take(all.len() as int) =~= all);
    found
}

/// Puts the paragraphs, headings and tables of a page together from its lines and tables.
pub fn reconstruct_page(lines: Vec<LayoutLine>, tables: Vec<LayoutTable>) -> (r: Vec<PageBlock>)
    ensures
        blocks::block_views(r@) == page_blocks(order::seen(lines@), order::seen(tables@)),
{
    let tables = keep_tables(tables);
    let lines = page_order::merge_same_lines(keep_lines(lines, tables.as_slice()));
    let median_size = geometry::median_of(sizes(lines.as_slice()).as_slice());
    let gutter = page_order::detect_gutter(lines.as_slice());
    let items = page_order::ordered_items(lines, tables, gutter);
    let leading = median_line_gap(items.as_slice());
    merge_items(items, median_size, leading, gutter)
}

/// Whether a block holds text that is neither empty nor holds a run of spaces; tables hold none.
pub open spec fn is_tidy(block: blocks::Block) -> bool {
    match block {
        blocks::Block::Heading(text) => text.len() > 0 && fragments::collapsed(text) == text,
        blocks::Block::Paragraph(text) => text.len() > 0 && fragments::collapsed(text) == text,
        blocks::Block::Table(_, _) => true,
    }
}

pub open spec fn all_tidy(done: Seq<blocks::Block>) -> bool {
    forall|i: int| 0 <= i < done.len() ==> is_tidy(#[trigger] done[i])
}

proof fn lemma_with_line_is_tidy(done: Seq<blocks::Block>, line: LineView)
    requires
        all_tidy(done),
    ensures
        all_tidy(with_paragraph(done, line)),
        all_tidy(with_heading(done, line)),
{
    fragments::collapsing_is_stable(line.text);
}

proof fn lemma_merged_is_tidy(items: Seq<ItemView>, page: PageShape)
    ensures
        all_tidy(merged(items, page).blocks),
        all_tidy(flushed(merged(items, page))),
    decreases items.len(),
{
    if items.len() > 0 {
        lemma_merged_is_tidy(items.drop_last(), page);
        let before = merged(items.drop_last(), page);
        if let Some(prev) = before.paragraph {
            lemma_with_line_is_tidy(before.blocks, prev);
        }
        if let ItemView::Line(line) = items.last() {
            lemma_with_line_is_tidy(flushed(before), line);
        }
    }
    let m = merged(items, page);
    if let Some(prev) = m.paragraph {
        lemma_with_line_is_tidy(m.blocks, prev);
    }
}

/// No heading and no paragraph of a page is empty, and their texts hold no runs of spaces.
pub proof fn page_text_is_tidy(lines: Seq<LineView>, tables: Seq<TableView>)
    ensures
        all_tidy(page_blocks(lines, tables)),
{
    let whole = page_order::lines_merged(free_lines(lines, real_tables(tables)));
    let items = page_items(lines, tables);
    lemma_merged_is_tidy(
        items,
        PageShape {
            median_size: geometry::median(text_sizes(whole)),
            leading: geometry::median(gaps(items)),
            gutter: page_order::gutter_of(whole),
            extents: extents(items),
        },
    );
}

/// The tables among items, as blocks.
pub open spec fn table_blocks(items: Seq<ItemView>) -> Seq<blocks::Block>
    decreases items.len(),
{
    if items.len() == 0 {
        Seq::empty()
    } else {
        let before = table_blocks(items.drop_last());
        match items.last() {
            ItemView::Table(table) => before.push(
                blocks::Block::Table(table.rows, table.has_header),
            ),
            ItemView::Line(_) => before,
        }
    }
}

pub open spec fn only_tables(done: Seq<blocks::Block>) -> Seq<blocks::Block> {
    done.filter(|b: blocks::Block| b is Table)
}

proof fn lemma_push_keeps_tables(done: Seq<blocks::Block>, block: blocks::Block)
    ensures
        only_tables(done.push(block)) == if block is Table {
            only_tables(done).push(block)
        } else {
            only_tables(done)
        },
{
    reveal(Seq::filter);
    assert(done.push(block).drop_last() =~= done);
}

proof fn lemma_with_line_keeps_tables(done: Seq<blocks::Block>, line: LineView)
    ensures
        only_tables(with_paragraph(done, line)) == only_tables(done),
        only_tables(with_heading(done, line)) == only_tables(done),
{
    let text = fragments::collapsed(line.text);
    lemma_push_keeps_tables(done, blocks::Block::Paragraph(text));
    lemma_push_keeps_tables(done, blocks::Block::Heading(text));
}

proof fn lemma_merged_keeps_tables(items: Seq<ItemView>, page: PageShape)
    ensures
        only_tables(merged(items, page).blocks) == table_blocks(items),
        only_tables(flushed(merged(items, page))) == table_blocks(items),
    decreases items.len(),
{
    if items.len() == 0 {
        reveal(Seq::filter);
    } else {
        lemma_merged_keeps_tables(items.drop_last(), page);
        let before = merged(items.drop_last(), page);
        if let Some(prev) = before.paragraph {
            lemma_with_line_keeps_tables(before.blocks, prev);
        }
        match items.last() {
            ItemView::Line(line) => {
                lemma_with_line_keeps_tables(flushed(before), line);
            },
            ItemView::Table(table) => {
                lemma_push_keeps_tables(
                    flushed(before),
                    blocks::Block::Table(table.rows, table.has_header),
                );
            },
        }
    }
    let m = merged(items, page);
    if let Some(prev) = m.paragraph {
        lemma_with_line_keeps_tables(m.blocks, prev);
    }
}

/// Merging passes every table on, in the order of the items.
pub proof fn tables_keep_their_order(
    items: Seq<ItemView>,
    median_size: Binary32,
    leading: Binary32,
    gutter: Option<Binary32>,
)
    ensures
        only_tables(items_merged(items, median_size, leading, gutter)) == table_blocks(items),
{
    lemma_merged_keeps_tables(
        items,
        PageShape { median_size, leading, gutter, extents: extents(items) },
    );
}

/// No line that is kept is blank, and none lies under a table that is kept.
pub proof fn kept_lines_are_free(lines: Seq<LineView>, tables: Seq<TableView>, i: int)
    requires
        0 <= i < free_lines(lines, tables).len(),
    ensures
        text::trimmed(free_lines(lines, tables)[i].text).len() > 0,
        forall|j: int|
            0 <= j < tables.len() ==> !geometry::num(OVERLAP_DROP).spec_less(
                geometry::overlap(free_lines(lines, tables)[i], #[trigger] tables[j]),
            ),
{
    let p = |l: LineView| text::trimmed(l.text).len() > 0 && !covered(l, tables);
    lines.lemma_filter_pred(p, i);
    assert(p(free_lines(lines, tables)[i]));
}

proof fn lemma_picked_from_stock<A, B>(
    a: Seq<A>,
    b: Seq<A>,
    p: spec_fn(A) -> bool,
    f: spec_fn(A) -> B,
)
    requires
        a.to_multiset() == b.to_multiset(),
    ensures
        a.filter(p).map_values(f).to_multiset() == b.filter(p).map_values(f).to_multiset(),
    decreases a.len(),
{
    broadcast use vstd::seq_lib::group_to_multiset_ensures;

    if a.len() == 0 {
        assert(b.to_multiset().len() == b.len());
        assert(a =~= b);
    } else {
        let e = a.last();
        assert(a =~= a.drop_last().push(e));
        assert(a.to_multiset().count(e) > 0);
        assert(b.contains(e));
        let i = choose|i: int| 0 <= i < b.len() && b[i] == e;
        let head = b.take(i);
        let tail = b.skip(i + 1);
        assert(b =~= head.push(e) + tail);
        vstd::seq_lib::lemma_multiset_commutative(head.push(e), tail);
        vstd::seq_lib::lemma_multiset_commutative(head, tail);
        assert(b.to_multiset() =~= (head + tail).to_multiset().insert(e));
        assert(a.drop_last().to_multiset() =~= a.to_multiset().remove(e));
        assert((head + tail).to_multiset() =~= b.to_multiset().remove(e));
        lemma_picked_from_stock(a.drop_last(), head + tail, p, f);
        reveal(Seq::filter);
        Seq::filter_distributes_over_add(head.push(e), tail, p);
        Seq::filter_distributes_over_add(head, tail, p);
        assert(head.push(e).drop_last() =~= head);
        let h = head.filter(p).map_values(f);
        let t = tail.filter(p).map_values(f);
        assert((head.filter(p) + tail.filter(p)).map_values(f) =~= h + t);
        vstd::seq_lib::lemma_multiset_commutative(h, t);
        if p(e) {
            assert(a.filter(p).map_values(f) =~= a.drop_last().filter(p).map_values(f).push(f(e)));
            assert((head.filter(p).push(e) + tail.filter(p)).map_values(f) =~= h.push(f(e)) + t);
            vstd::seq_lib::lemma_multiset_commutative(h.push(f(e)), t);
            assert(h.to_multiset().insert(f(e)).add(t.to_multiset()) =~= h.to_multiset().add(
                t.to_multiset(),
            ).insert(f(e)));
        }
    }
}

/// A table as a block.
pub open spec fn as_block(table: TableView) -> blocks::Block {
    blocks::Block::Table(table.rows, table.has_header)
}

pub open spec fn item_block(item: ItemView) -> blocks::Block {
    match item {
        ItemView::Table(table) => as_block(table),
        ItemView::Line(line) => blocks::Block::Paragraph(line.text),
    }
}

proof fn lemma_table_blocks(items: Seq<ItemView>)
    ensures
        table_blocks(items) == items.filter(|v: ItemView| v is Table).map_values(
            |v: ItemView| item_block(v),
        ),
    decreases items.len(),
{
    let p = |v: ItemView| v is Table;
    let f = |v: ItemView| item_block(v);
    reveal(Seq::filter);
    if items.len() == 0 {
        assert(table_blocks(items) =~= items.filter(p).map_values(f));
    } else {
        lemma_table_blocks(items.drop_last());
        assert(table_blocks(items) =~= items.filter(p).map_values(f));
    }
}

proof fn lemma_no_tables_in_lines(lines: Seq<LineView>)
    ensures
        page_order::line_items(lines).filter(|v: ItemView| v is Table) == Seq::<ItemView>::empty(),
    decreases lines.len(),
{
    reveal(Seq::filter);
    if lines.len() > 0 {
        lemma_no_tables_in_lines(lines.drop_last());
        assert(page_order::line_items(lines).drop_last() =~= page_order::line_items(lines.drop_last()));
    }
}

proof fn lemma_all_tables_in_tables(tables: Seq<TableView>)
    ensures
        page_order::table_items(tables).filter(|v: ItemView| v is Table) == page_order::table_items(tables),
    decreases tables.len(),
{
    reveal(Seq::filter);
    if tables.len() > 0 {
        lemma_all_tables_in_tables(tables.drop_last());
        assert(page_order::table_items(tables).drop_last() =~= page_order::table_items(tables.drop_last()));
        assert(page_order::table_items(tables) =~= page_order::table_items(tables.drop_last()).push(
            ItemView::Table(tables.last()),
        ));
    } else {
        assert(page_order::table_items(tables) =~= Seq::empty());
    }
}

/// A page shows each of its real tables once, with its cells unchanged, and no other table.
pub proof fn page_shows_every_table(lines: Seq<LineView>, tables: Seq<TableView>)
    ensures
        only_tables(page_blocks(lines, tables)).to_multiset() == real_tables(tables).map_values(
            |t: TableView| as_block(t),
        ).to_multiset(),
{
    let kept = real_tables(tables);
    let whole = page_order::lines_merged(free_lines(lines, kept));
    let items = page_items(lines, tables);
    let p = |v: ItemView| v is Table;
    let f = |v: ItemView| item_block(v);
    tables_keep_their_order(
        items,
        geometry::median(text_sizes(whole)),
        geometry::median(gaps(items)),
        page_order::gutter_of(whole),
    );
    page_order::reading_order_keeps_all(whole, kept, page_order::gutter_of(whole));
    let all = page_order::line_items(whole) + page_order::table_items(kept);
    vstd::seq_lib::lemma_multiset_commutative(
        page_order::line_items(whole),
        page_order::table_items(kept),
    );
    lemma_picked_from_stock(items, all, p, f);
    lemma_table_blocks(items);
    Seq::filter_distributes_over_add(page_order::line_items(whole), page_order::table_items(kept), p);
    lemma_no_tables_in_lines(whole);
    lemma_all_tables_in_tables(kept);
    assert(all.filter(p) =~= page_order::table_items(kept));
    assert(page_order::table_items(kept).map_values(f) =~= kept.map_values(|t: TableView| as_block(t)));
}

/// What a reader of a page meets: a character, by its code point, with whether it stands in a heading,
/// or a table.
pub enum Token {
    Char(int, bool),
    Table(blocks::Grid, bool),
}

/// The characters of a text that are neither spaces nor hyphens, one after another.
pub open spec fn text_tokens(text: Seq<char>, in_heading: bool) -> Seq<Token> {
    char_tokens(fragments::letters(text), in_heading)
}

pub open spec fn char_tokens(all: Seq<char>, in_heading: bool) -> Seq<Token>
    decreases all.len(),
{
    if all.len() == 0 {
        Seq::empty()
    } else {
        char_tokens(all.drop_last(), in_heading).push(Token::Char(all.last() as int, in_heading))
    }
}

proof fn lemma_tokens_joined(a: Seq<char>, b: Seq<char>, in_heading: bool)
    ensures
        char_tokens(a + b, in_heading) == char_tokens(a, in_heading) + char_tokens(b, in_heading),
    decreases b.len(),
{
    if b.len() == 0 {
        assert(a + b =~= a);
        assert(char_tokens(a, in_heading) + char_tokens(b, in_heading) =~= char_tokens(
            a,
            in_heading,
        ));
    } else {
        lemma_tokens_joined(a, b.drop_last(), in_heading);
        assert((a + b).drop_last() =~= a + b.drop_last());
        assert((a + b).last() == b.last());
        assert(char_tokens(a + b, in_heading) =~= char_tokens(a, in_heading) + char_tokens(
            b,
            in_heading,
        ));
    }
}

pub open spec fn block_tokens(block: blocks::Block) -> Seq<Token> {
    match block {
        blocks::Block::Heading(text) => text_tokens(text, true),
        blocks::Block::Paragraph(text) => text_tokens(text, false),
        blocks::Block::Table(rows, has_header) => seq![Token::Table(rows, has_header)],
    }
}

/// What is met in blocks, from the first one to the last.
pub open spec fn tokens_of_blocks(done: Seq<blocks::Block>) -> Seq<Token>
    decreases done.len(),
{
    if done.len() == 0 {
        Seq::empty()
    } else {
        tokens_of_blocks(done.drop_last()) + block_tokens(done.last())
    }
}

/// What is met in lines and tables, from the first one to the last.
pub open spec fn tokens_of_items(items: Seq<ItemView>, median_size: Binary32) -> Seq<Token>
    decreases items.len(),
{
    if items.len() == 0 {
        Seq::empty()
    } else {
        tokens_of_items(items.drop_last(), median_size) + match items.last() {
            ItemView::Line(line) => text_tokens(line.text, geometry::heading(line, median_size)),
            ItemView::Table(table) => seq![Token::Table(table.rows, table.has_header)],
        }
    }
}

proof fn lemma_push_tokens(done: Seq<blocks::Block>, block: blocks::Block)
    ensures
        tokens_of_blocks(done.push(block)) == tokens_of_blocks(done) + block_tokens(block),
{
    assert(done.push(block).drop_last() =~= done);
}

proof fn lemma_line_tokens(done: Seq<blocks::Block>, line: LineView)
    ensures
        tokens_of_blocks(with_paragraph(done, line)) == tokens_of_blocks(done) + text_tokens(
            line.text,
            false,
        ),
        tokens_of_blocks(with_heading(done, line)) == tokens_of_blocks(done) + text_tokens(
            line.text,
            true,
        ),
{
    let text = fragments::collapsed(line.text);
    fragments::collapsing_keeps_text(line.text);
    lemma_push_tokens(done, blocks::Block::Paragraph(text));
    lemma_push_tokens(done, blocks::Block::Heading(text));
    if text.len() == 0 {
        text::lemma_ink_none(text);
        text::ink(line.text).lemma_filter_len(|c: char| c != '-');
        assert(fragments::letters(line.text).len() == 0);
        assert(tokens_of_blocks(done) + text_tokens(line.text, false) =~= tokens_of_blocks(done));
        assert(tokens_of_blocks(done) + text_tokens(line.text, true) =~= tokens_of_blocks(done));
    }
}

proof fn lemma_merged_tokens(items: Seq<ItemView>, page: PageShape)
    ensures
        tokens_of_blocks(flushed(merged(items, page))) == tokens_of_items(items, page.median_size),
    decreases items.len(),
{
    if items.len() > 0 {
        let front = items.drop_last();
        lemma_merged_tokens(front, page);
        let before = merged(front, page);
        let after = merged(items, page);
        match items.last() {
            ItemView::Table(table) => {
                lemma_push_tokens(
                    flushed(before),
                    blocks::Block::Table(table.rows, table.has_header),
                );
            },
            ItemView::Line(line) => {
                if geometry::heading(line, page.median_size) {
                    lemma_line_tokens(flushed(before), line);
                } else {
                    match before.paragraph {
                        Some(prev) => {
                            lemma_line_tokens(before.blocks, prev);
                            if goes_on(prev, line, page) {
                                let whole = page_order::wrapped_line(prev, line);
                                lemma_line_tokens(before.blocks, whole);
                                fragments::lemma_letters_joined(prev.text, line.text);
                                assert(whole.text == fragments::appended(prev.text, line.text));
                                lemma_tokens_joined(
                                    fragments::letters(prev.text),
                                    fragments::letters(line.text),
                                    false,
                                );
                                assert(text_tokens(whole.text, false) == text_tokens(
                                    prev.text,
                                    false,
                                ) + text_tokens(line.text, false));
                                assert(tokens_of_blocks(flushed(after)) =~= tokens_of_blocks(
                                    flushed(before),
                                ) + text_tokens(line.text, false));
                            } else {
                                lemma_line_tokens(after.blocks, line);
                            }
                        },
                        None => {
                            lemma_line_tokens(before.blocks, line);
                        },
                    }
                }
            },
        }
    }
}

/// Merging loses nothing and moves nothing: what is met in the blocks is what is met in the items,
/// in their order, each table where it stands and each character in a heading where its line is one.
/// Spaces and hyphens are left out of this.
pub proof fn merging_keeps_text(
    items: Seq<ItemView>,
    median_size: Binary32,
    leading: Binary32,
    gutter: Option<Binary32>,
)
    ensures
        tokens_of_blocks(items_merged(items, median_size, leading, gutter)) == tokens_of_items(
            items,
            median_size,
        ),
{
    lemma_merged_tokens(
        items,
        PageShape { median_size, leading, gutter, extents: extents(items) },
    );
}

/// The same of a whole page: its blocks hold the text of the items of the page, in reading order.
pub proof fn pages_keep_their_text(lines: Seq<LineView>, tables: Seq<TableView>)
    ensures
        tokens_of_blocks(page_blocks(lines, tables)) == tokens_of_items(
            page_items(lines, tables),
            geometry::median(
                text_sizes(page_order::lines_merged(free_lines(lines, real_tables(tables)))),
            ),
        ),
{
    let whole = page_order::lines_merged(free_lines(lines, real_tables(tables)));
    let items = page_items(lines, tables);
    merging_keeps_text(
        items,
        geometry::median(text_sizes(whole)),
        geometry::median(gaps(items)),
        page_order::gutter_of(whole),
    );
}

/// Whether two lines stand at the same place and are equally large.
pub open spec fn same_place(a: LineView, b: LineView) -> bool {
    a.x == b.x && a.y == b.y && a.width == b.width && a.height == b.height && a.font_size
        == b.font_size
}

proof fn lemma_goes_on_by_place(a: LineView, b: LineView, next: LineView, page: PageShape)
    requires
        same_place(a, b),
    ensures
        goes_on(a, next, page) == goes_on(b, next, page),
{
    let slack = geometry::num(INDENT_BREAK_EM).spec_times(
        page.median_size.spec_max(geometry::num(MIN_EM)),
    );
    let p = |e: LineExtent| same_frame(a, e, page.gutter, slack);
    let q = |e: LineExtent| same_frame(b, e, page.gutter, slack);
    assert(p =~= q);
    assert(frame_right(a, page.extents, page.gutter, page.median_size) == frame_right(
        b,
        page.extents,
        page.gutter,
        page.median_size,
    ));
}

proof fn lemma_open_paragraph(items: Seq<ItemView>, line: LineView, page: PageShape)
    requires
        !geometry::heading(line, page.median_size),
    ensures
        merged(items.push(ItemView::Line(line)), page).paragraph matches Some(p) && same_place(
            p,
            line,
        ),
{
    assert(items.push(ItemView::Line(line)).drop_last() =~= items);
}

/// A line of text behind another one either goes on with the paragraph of the line before it, which
/// then is the last block, now with the text of both, or it begins a paragraph of its own and leaves
/// the blocks before it as they are. Only the two lines and the page decide which.
pub proof fn lines_go_on_or_begin_a_paragraph(
    items: Seq<ItemView>,
    upper: LineView,
    lower: LineView,
    page: PageShape,
)
    requires
        !geometry::heading(upper, page.median_size),
        !geometry::heading(lower, page.median_size),
        text::ink(upper.text).len() > 0,
        text::ink(lower.text).len() > 0,
    ensures
        ({
            let before = items.push(ItemView::Line(upper));
            let a = flushed(merged(before, page));
            let b = flushed(merged(before.push(ItemView::Line(lower)), page));
            &&& a.len() > 0 && b.len() > 0
            &&& a.last() is Paragraph && b.last() is Paragraph
            &&& goes_on(upper, lower, page) ==> b.len() == a.len() && b.drop_last()
                == a.drop_last()
            &&& !goes_on(upper, lower, page) ==> b == a.push(
                blocks::Block::Paragraph(fragments::collapsed(lower.text)),
            )
        }),
{
    let before = items.push(ItemView::Line(upper));
    let after = before.push(ItemView::Line(lower));
    lemma_open_paragraph(items, upper, page);
    assert(before.drop_last() =~= items);
    assert(after.drop_last() =~= before);
    let m = merged(before, page);
    let p = m.paragraph.unwrap();
    lemma_goes_on_by_place(p, upper, lower, page);
    lemma_paragraph_is_shown(items, upper, page);
    lemma_shown(lower.text);
    fragments::joining_keeps_text(p.text, lower.text);
    let whole = page_order::wrapped_line(p, lower);
    assert(text::ink(whole.text).len() > 0);
    lemma_shown(whole.text);
    assert(flushed(m) == m.blocks.push(blocks::Block::Paragraph(fragments::collapsed(p.text))));
    assert(flushed(m).drop_last() =~= m.blocks);
    if goes_on(upper, lower, page) {
        assert(flushed(merged(after, page)).drop_last() =~= m.blocks);
    }
}

proof fn lemma_shown(s: Seq<char>)
    requires
        text::ink(s).len() > 0,
    ensures
        fragments::collapsed(s).len() > 0,
{
    fragments::collapsing_keeps_text(s);
    if fragments::collapsed(s).len() == 0 {
        text::lemma_ink_none(fragments::collapsed(s));
    }
}

proof fn lemma_paragraph_is_shown(items: Seq<ItemView>, line: LineView, page: PageShape)
    requires
        !geometry::heading(line, page.median_size),
        text::ink(line.text).len() > 0,
    ensures
        merged(items.push(ItemView::Line(line)), page).paragraph matches Some(p) && text::ink(
            p.text,
        ).len() > 0 && fragments::collapsed(p.text).len() > 0,
{
    assert(items.push(ItemView::Line(line)).drop_last() =~= items);
    lemma_shown(line.text);
    if let Some(prev) = merged(items, page).paragraph {
        fragments::joining_keeps_text(prev.text, line.text);
        let whole = page_order::wrapped_line(prev, line);
        assert(text::ink(whole.text).len() > 0);
        lemma_shown(whole.text);
    }
}

/// A table or a heading divides a page: what stands before it and what stands behind it are merged
/// each for itself, and it stands between them as a block of its own.
pub proof fn tables_and_headings_divide(
    before: Seq<ItemView>,
    item: ItemView,
    behind: Seq<ItemView>,
    page: PageShape,
)
    requires
        match item {
            ItemView::Table(_) => true,
            ItemView::Line(line) => geometry::heading(line, page.median_size) && text::ink(
                line.text,
            ).len() > 0,
        },
    ensures
        flushed(merged(before.push(item) + behind, page)) == flushed(merged(before, page)).push(
            match item {
                ItemView::Table(table) => blocks::Block::Table(table.rows, table.has_header),
                ItemView::Line(line) => blocks::Block::Heading(fragments::collapsed(line.text)),
            },
        ) + flushed(merged(behind, page)),
    decreases behind.len(),
{
    let head = flushed(merged(before, page)).push(
        match item {
            ItemView::Table(table) => blocks::Block::Table(table.rows, table.has_header),
            ItemView::Line(line) => blocks::Block::Heading(fragments::collapsed(line.text)),
        },
    );
    lemma_divided(before, item, behind, head, page);
    let m = merged(behind, page);
    let whole = merged(before.push(item) + behind, page);
    assert(flushed(whole) =~= head + flushed(m));
}

proof fn lemma_divided(
    before: Seq<ItemView>,
    item: ItemView,
    behind: Seq<ItemView>,
    head: Seq<blocks::Block>,
    page: PageShape,
)
    requires
        match item {
            ItemView::Table(_) => true,
            ItemView::Line(line) => geometry::heading(line, page.median_size) && text::ink(
                line.text,
            ).len() > 0,
        },
        head == flushed(merged(before, page)).push(
            match item {
                ItemView::Table(table) => blocks::Block::Table(table.rows, table.has_header),
                ItemView::Line(line) => blocks::Block::Heading(fragments::collapsed(line.text)),
            },
        ),
    ensures
        merged(before.push(item) + behind, page) == (Merge {
            paragraph: merged(behind, page).paragraph,
            blocks: head + merged(behind, page).blocks,
        }),
    decreases behind.len(),
{
    let all = before.push(item) + behind;
    if behind.len() == 0 {
        assert(all =~= before.push(item));
        assert(all.drop_last() =~= before);
        if let ItemView::Line(line) = item {
            lemma_shown(line.text);
        }
        assert(head + merged(behind, page).blocks =~= head);
    } else {
        let front = behind.drop_last();
        lemma_divided(before, item, front, head, page);
        assert(all.drop_last() =~= before.push(item) + front);
        assert(all.last() == behind.last());
        let m = merged(front, page);
        assert(merged(all, page).blocks =~= head + merged(behind, page).blocks);
    }
}

/// A gap counts where a line follows a line: one more line adds its gap to the line right before it,
/// and a table adds none, neither before it nor behind it.
pub proof fn gaps_lie_between_neighbours(
    items: Seq<ItemView>,
    upper: LineView,
    lower: LineView,
    table: TableView,
)
    ensures
        gaps(items.push(ItemView::Line(upper)).push(ItemView::Line(lower))) == gaps(
            items.push(ItemView::Line(upper)),
        ).push(upper.y.spec_minus(lower.y.spec_plus(lower.height)).spec_max(geometry::num(0))),
        gaps(items.push(ItemView::Table(table))) == gaps(items),
        gaps(items.push(ItemView::Table(table)).push(ItemView::Line(lower))) == gaps(items),
        gaps(seq![ItemView::Line(upper)]).len() == 0,
{
    let a = items.push(ItemView::Line(upper));
    let b = a.push(ItemView::Line(lower));
    assert(b.drop_last() =~= a);
    let c = items.push(ItemView::Table(table));
    let d = c.push(ItemView::Line(lower));
    assert(c.drop_last() =~= items);
    assert(d.drop_last() =~= c);
    assert(d[d.len() - 2] == ItemView::Table(table));
    assert(gaps(c) =~= gaps(items));
    geometry::gaps_lie_between_lines(upper, lower);
}

/// The extents of a page are those of its lines, one after another.
pub proof fn extents_are_those_of_lines(
    a: Seq<ItemView>,
    b: Seq<ItemView>,
    line: LineView,
    table: TableView,
)
    ensures
        extents(a + b) == extents(a) + extents(b),
        extents(seq![ItemView::Line(line)]) == seq![
            (LineExtent {
                x: line.x,
                right: line.x.spec_plus(line.width),
                center_x: line.x.spec_plus(line.width.spec_over(geometry::num(0x4000_0000))),
            }),
        ],
        extents(seq![ItemView::Table(table)]).len() == 0,
    decreases b.len(),
{
    reveal_with_fuel(extents, 2);
    assert(seq![ItemView::Line(line)].drop_last() =~= Seq::empty());
    assert(seq![ItemView::Table(table)].drop_last() =~= Seq::empty());
    assert(extents(seq![ItemView::Line(line)]) =~= seq![
        (LineExtent {
            x: line.x,
            right: line.x.spec_plus(line.width),
            center_x: line.x.spec_plus(line.width.spec_over(geometry::num(0x4000_0000))),
        }),
    ]);
    if b.len() == 0 {
        assert(a + b =~= a);
        assert(extents(a) + extents(b) =~= extents(a));
    } else {
        extents_are_those_of_lines(a, b.drop_last(), line, table);
        assert((a + b).drop_last() =~= a + b.drop_last());
        assert((a + b).last() == b.last());
        assert(extents(a + b) =~= extents(a) + extents(b));
    }
}

/// On a page with two columns a line over the gutter stands in one frame with others over it, and
/// one beside it with others whose middle lies on the same side. On other pages lines stand in one
/// frame where their left edges are no farther apart than the slack.
pub proof fn frames_are_columns(
    line: LineView,
    other: LineExtent,
    gutter: Binary32,
    slack: Binary32,
)
    ensures
        ({
            let over = line.x.spec_less(gutter) && gutter.spec_less(line.x.spec_plus(line.width));
            let other_over = other.x.spec_less(gutter) && gutter.spec_less(other.right);
            let left = line.x.spec_plus(
                line.width.spec_over(geometry::num(0x4000_0000)),
            ).spec_less(gutter);
            let other_left = other.center_x.spec_less(gutter);
            &&& over && other_over ==> same_frame(line, other, Some(gutter), slack)
            &&& over != other_over ==> !same_frame(line, other, Some(gutter), slack)
            &&& !over && !other_over ==> same_frame(line, other, Some(gutter), slack) == (left
                == other_left)
        }),
        same_frame(line, other, None, slack) == other.x.spec_minus(
            line.x,
        ).spec_abs().spec_at_most(slack),
{
}

/// The right edge of the frame of a line is that of its lines behind which their last twentieth ends,
/// and no less than that of the line. Without columns the left edges of a frame may differ by two em,
/// and an em is at least 1.
pub proof fn frames_end_with_their_lines(
    line: LineView,
    extents: Seq<LineExtent>,
    gutter: Option<Binary32>,
    median_size: Binary32,
)
    ensures
        ({
            let slack = geometry::num(0x4000_0000).spec_times(
                median_size.spec_max(geometry::num(0x3f80_0000)),
            );
            let frame = extents.filter(|e: LineExtent| same_frame(line, e, gutter, slack));
            frame_right(line, extents, gutter, median_size) == geometry::percentile(
                frame.map_values(|e: LineExtent| e.right),
            ).spec_max(line.x.spec_plus(line.width))
        }),
{
}

/// A line goes on with the one before it where the place of the two, the frame of the upper one and
/// the page say so; the frame reaches at least as far as the lower line.
pub proof fn lines_go_on_within_their_frame(prev: LineView, line: LineView, page: PageShape)
    ensures
        goes_on(prev, line, page) == geometry::continues(
            prev,
            line,
            page.median_size,
            page.leading,
            frame_right(prev, page.extents, page.gutter, page.median_size).spec_max(
                line.x.spec_plus(line.width),
            ),
        ),
{
}

/// A page keeps, in their order, the lines that are not blank and of which no table covers more than
/// four tenths, and drops no other.
pub proof fn lines_outside_of_tables_are_kept(
    lines: Seq<LineView>,
    line: LineView,
    tables: Seq<TableView>,
)
    ensures
        ({
            let is_free = text::ink(line.text).len() > 0 && forall|i: int|
                0 <= i < tables.len() ==> !geometry::num(0x3ecc_cccd).spec_less(
                    geometry::overlap(line, #[trigger] tables[i]),
                );
            free_lines(lines.push(line), tables) == if is_free {
                free_lines(lines, tables).push(line)
            } else {
                free_lines(lines, tables)
            }
        }),
        free_lines(Seq::empty(), tables).len() == 0,
{
    let p = |l: LineView| text::trimmed(l.text).len() > 0 && !covered(l, tables);
    reveal(Seq::filter);
    assert(lines.push(line).drop_last() =~= lines);
    let s = line.text;
    text::lemma_blank(s);
    if text::trimmed(s).len() == 0 {
        text::lemma_ink_none(s);
    } else {
        text::trimming_keeps_text(s);
        text::trimming_cuts_both_ends(s);
        let t = text::trimmed(s);
        let ink = |c: char| !text::is_space(c);
        t.lemma_filter_contains(ink, 0);
        assert(text::ink(t).contains(t[0]));
    }
    assert(p(line) == (text::ink(s).len() > 0 && forall|i: int|
        0 <= i < tables.len() ==> !geometry::num(0x3ecc_cccd).spec_less(
            geometry::overlap(line, #[trigger] tables[i]),
        )));
}

/// A page is made of its real tables and of the lines outside of them, put together and in reading
/// order; the gutter, the sizes and the gaps that decide on headings and paragraphs are those of
/// these lines.
pub proof fn pages_are_made_of_free_lines_and_tables(lines: Seq<LineView>, tables: Seq<TableView>)
    ensures
        ({
            let kept = tables.filter(|t: TableView| blocks::is_table(t.rows));
            let whole = page_order::lines_merged(free_lines(lines, kept));
            let gutter = page_order::gutter_of(whole);
            let items = page_order::page_order(whole, kept, gutter);
            let sizes = whole.map_values(|l: LineView| l.height.spec_max(l.font_size));
            &&& page_items(lines, tables) == items
            &&& page_items(lines, tables).to_multiset() == page_order::stock(whole, kept)
            &&& page_blocks(lines, tables) == items_merged(
                items,
                geometry::median(sizes),
                geometry::median(gaps(items)),
                gutter,
            )
        }),
{
    let kept = real_tables(tables);
    let whole = page_order::lines_merged(free_lines(lines, kept));
    page_order::reading_order_keeps_all(whole, kept, page_order::gutter_of(whole));
}

/// What is merged is judged by the shape of the whole page.
pub proof fn merging_looks_at_the_whole_page(
    items: Seq<ItemView>,
    median_size: Binary32,
    leading: Binary32,
    gutter: Option<Binary32>,
)
    ensures
        items_merged(items, median_size, leading, gutter) == flushed(
            merged(
                items,
                PageShape { median_size, leading, gutter, extents: extents(items) },
            ),
        ),
{
}

} // verus!
