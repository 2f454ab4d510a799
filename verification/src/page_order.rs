//! The order in which a page is read: its lines put together, its columns told apart.
use crate::binary::Binary32;
use crate::fragments;
use crate::geometry;
use crate::geometry::{
    Item, ItemView, LayoutLine, LayoutTable, LineView, TableView, GUTTER_BAND_RATIO, INFINITY,
    MAX_GUTTER_CROSSING_DENOM, MIN_COLUMN_LINES, MIN_LINES_FOR_GUTTER, MIN_PAGE_WIDTH_FOR_GUTTER,
    NEGATIVE_INFINITY, TWO,
};
use crate::order;
use crate::order::{Placed, SortBy};
use vstd::prelude::*;

verus! {

/// Two parts of a line as one.
pub open spec fn joined_line(prev: LineView, next: LineView) -> LineView {
    let x = prev.x.spec_min(next.x);
    let y = prev.y.spec_min(next.y);
    LineView {
        text: fragments::appended(prev.text, next.text),
        x,
        y,
        width: prev.right().spec_max(next.right()).spec_minus(x),
        height: prev.bottom().spec_max(next.bottom()).spec_minus(y),
        font_size: prev.font_size,
        heading_level: prev.heading_level,
    }
}

fn join_lines(prev: LayoutLine, next: &LayoutLine) -> (r: LayoutLine)
    ensures
        r@ == joined_line(prev@, next@),
{
    let right = prev.right().max(next.right());
    let top = prev.bottom().max(next.bottom());
    let x = prev.x.min(next.x);
    let y = prev.y.min(next.y);
    let mut text = prev.text;
    fragments::append_fragment(&mut text, next.text.as_str());
    LayoutLine {
        text,
        x,
        y,
        width: right.minus(x),
        height: top.minus(y),
        font_size: prev.font_size,
        heading_level: prev.heading_level,
    }
}

/// A paragraph with one more line: the texts together, at the place of the new line.
pub open spec fn wrapped_line(prev: LineView, next: LineView) -> LineView {
    LineView {
        text: fragments::appended(prev.text, next.text),
        heading_level: prev.heading_level,
        ..next
    }
}

pub(crate) fn join_wrapped_lines(prev: LayoutLine, next: &LayoutLine) -> (r: LayoutLine)
    ensures
        r@ == wrapped_line(prev@, next@),
{
    let mut text = prev.text;
    fragments::append_fragment(&mut text, next.text.as_str());
    LayoutLine {
        text,
        x: next.x,
        y: next.y,
        width: next.width,
        height: next.height,
        font_size: next.font_size,
        heading_level: prev.heading_level,
    }
}

/// Lines, from the top down, grouped into rows: each line that is level with the one before it
/// stands in the same row.
pub open spec fn rows_of(lines: Seq<LineView>) -> Seq<Seq<LineView>>
    decreases lines.len(),
{
    if lines.len() == 0 {
        Seq::empty()
    } else {
        let rows = rows_of(lines.drop_last());
        let line = lines.last();
        if rows.len() > 0 && geometry::level(rows.last().last(), line) {
            rows.drop_last().push(rows.last().push(line))
        } else {
            rows.push(seq![line])
        }
    }
}

/// A row, from left to right, with the parts that adjoin put together.
pub open spec fn row_merged(row: Seq<LineView>) -> Seq<LineView>
    decreases row.len(),
{
    if row.len() == 0 {
        Seq::empty()
    } else {
        let merged = row_merged(row.drop_last());
        let line = row.last();
        if merged.len() > 0 && geometry::adjoins(merged.last(), line) {
            merged.drop_last().push(joined_line(merged.last(), line))
        } else {
            merged.push(line)
        }
    }
}

pub open spec fn rows_merged(rows: Seq<Seq<LineView>>) -> Seq<LineView>
    decreases rows.len(),
{
    if rows.len() == 0 {
        Seq::empty()
    } else {
        rows_merged(rows.drop_last()) + row_merged(
            order::arranged::<LayoutLine>(rows.last(), SortBy::Left),
        )
    }
}

/// The lines of a page with the parts of each line put together.
pub open spec fn lines_merged(lines: Seq<LineView>) -> Seq<LineView> {
    rows_merged(rows_of(order::arranged::<LayoutLine>(lines, SortBy::TopThenLeft)))
}

pub open spec fn row_views(rows: Seq<Vec<LayoutLine>>) -> Seq<Seq<LineView>> {
    rows.map_values(|row: Vec<LayoutLine>| order::seen(row@))
}

#[verifier::spinoff_prover]
fn group_rows(lines: Vec<LayoutLine>) -> (r: Vec<Vec<LayoutLine>>)
    ensures
        row_views(r@) == rows_of(order::seen(lines@)),
{
    let ghost all = order::seen(lines@);
    let mut rows: Vec<Vec<LayoutLine>> = Vec::new();
    assert(row_views(rows@) =~= rows_of(all.take(0)));
    for line in it: lines
        invariant
            all == order::seen(it.seq()),
            row_views(rows@) == rows_of(all.take(it.index())),
            forall|i: int| 0 <= i < rows@.len() ==> (#[trigger] rows@[i])@.len() > 0,
    {
        let ghost before = rows@;
        proof {
            let n = it.index();
            assert(all.take(n + 1).drop_last() =~= all.take(n));
            assert(all.take(n + 1).last() == line@);
        }
        match rows.pop() {
            None => {
                let row: Vec<LayoutLine> = vec![line];
                assert(order::seen(row@) =~= seq![line@]);
                rows.push(row);
                assert(row_views(rows@) =~= row_views(before).push(seq![line@]));
            },
            Some(row) => {
                let mut row = row;
                proof {
                    assert(row@ == before.last()@);
                    assert(row_views(before).last() == order::seen(row@));
                    assert(order::seen(row@).last() == row@.last()@);
                }
                let ghost old_row = row@;
                if geometry::is_level(&row[row.len() - 1], &line) {
                    row.push(line);
                    rows.push(row);
                    proof {
                        assert(order::seen(row@) =~= order::seen(old_row).push(line@));
                        assert(row_views(rows@) =~= row_views(before).drop_last().push(
                            order::seen(row@),
                        ));
                    }
                } else {
                    let next: Vec<LayoutLine> = vec![line];
                    assert(order::seen(next@) =~= seq![line@]);
                    rows.push(row);
                    assert(rows@ =~= before);
                    rows.push(next);
                    assert(row_views(rows@) =~= row_views(before).push(seq![line@]));
                }
            },
        }
    }
    assert(all.take(all.len() as int) =~= all);
    rows
}

#[verifier::spinoff_prover]
#[verifier::rlimit(60)]
fn merge_row(row: Vec<LayoutLine>) -> (r: Vec<LayoutLine>)
    ensures
        order::seen(r@) == row_merged(order::seen(row@)),
{
    let ghost all = order::seen(row@);
    let mut merged: Vec<LayoutLine> = Vec::new();
    assert(order::seen(merged@) =~= row_merged(all.take(0)));
    for line in it: row
        invariant
            all == order::seen(it.seq()),
            order::seen(merged@) == row_merged(all.take(it.index())),
    {
        let ghost before = merged@;
        proof {
            let n = it.index();
            assert(all.take(n + 1).drop_last() =~= all.take(n));
            assert(all.take(n + 1).last() == line@);
        }
        match merged.pop() {
            None => {
                merged.push(line);
                assert(order::seen(merged@) =~= order::seen(before).push(line@));
            },
            Some(last) => {
                assert(order::seen(before).last() == last@);
                if geometry::does_adjoin(&last, &line) {
                    merged.push(join_lines(last, &line));
                    assert(order::seen(merged@) =~= order::seen(before).drop_last().push(
                        joined_line(before.last()@, line@),
                    ));
                } else {
                    merged.push(last);
                    merged.push(line);
                    assert(order::seen(merged@) =~= order::seen(before).push(line@));
                }
            },
        }
    }
    assert(all.take(all.len() as int) =~= all);
    merged
}

pub fn merge_same_lines(lines: Vec<LayoutLine>) -> (r: Vec<LayoutLine>)
    ensures
        order::seen(r@) == lines_merged(order::seen(lines@)),
{
    let rows = group_rows(order::sort(lines, SortBy::TopThenLeft));
    let ghost all = row_views(rows@);
    let mut merged: Vec<LayoutLine> = Vec::new();
    assert(order::seen(merged@) =~= rows_merged(all.take(0)));
    for row in it: rows
        invariant
            all == row_views(it.seq()),
            order::seen(merged@) == rows_merged(all.take(it.index())),
    {
        let ghost before = merged@;
        proof {
            let n = it.index();
            assert(all.take(n + 1).drop_last() =~= all.take(n));
            assert(all.take(n + 1).last() == order::seen(row@));
        }
        let mut part = merge_row(order::sort(row, SortBy::Left));
        let ghost added = part@;
        merged.append(&mut part);
        assert(order::seen(merged@) =~= order::seen(before) + order::seen(added));
    }
    assert(all.take(all.len() as int) =~= all);
    merged
}

pub open spec fn leftmost(lines: Seq<LineView>) -> Binary32
    decreases lines.len(),
{
    if lines.len() == 0 {
        geometry::num(INFINITY)
    } else {
        leftmost(lines.drop_last()).spec_min(lines.last().x)
    }
}

pub open spec fn rightmost(lines: Seq<LineView>) -> Binary32
    decreases lines.len(),
{
    if lines.len() == 0 {
        geometry::num(NEGATIVE_INFINITY)
    } else {
        rightmost(lines.drop_last()).spec_max(lines.last().right())
    }
}

/// The middle of a page with two columns. A page has two columns where it has lines enough, is wide
/// enough, few lines cross the band round its middle and some lines lie wholly on each side.
pub open spec fn gutter_of(lines: Seq<LineView>) -> Option<Binary32> {
    let left = leftmost(lines);
    let right = rightmost(lines);
    let width = right.spec_minus(left);
    let mid = left.spec_plus(right).spec_over(geometry::num(TWO));
    let band = width.spec_times(geometry::num(GUTTER_BAND_RATIO));
    let low = mid.spec_minus(band);
    let high = mid.spec_plus(band);
    if lines.len() >= MIN_LINES_FOR_GUTTER && width.spec_is_finite() && !width.spec_less(
        geometry::num(MIN_PAGE_WIDTH_FOR_GUTTER),
    ) && lines.filter(|l: LineView| crosses(l, low, high)).len() <= lines.len()
        / MAX_GUTTER_CROSSING_DENOM as nat && lines.filter(
        |l: LineView| l.right().spec_at_most(mid),
    ).len() >= MIN_COLUMN_LINES && lines.filter(|l: LineView| mid.spec_at_most(l.x)).len()
        >= MIN_COLUMN_LINES {
        Some(mid)
    } else {
        None
    }
}

pub open spec fn crosses(line: LineView, low: Binary32, high: Binary32) -> bool {
    line.x.spec_less(low) && high.spec_less(line.right())
}

pub fn detect_gutter(lines: &[LayoutLine]) -> (r: Option<Binary32>)
    ensures
        r == gutter_of(order::seen(lines@)),
{
    let ghost all = order::seen(lines@);
    if lines.len() < MIN_LINES_FOR_GUTTER {
        return None;
    }
    let mut page_left = geometry::number(INFINITY);
    let mut page_right = geometry::number(NEGATIVE_INFINITY);
    for i in 0..lines.len()
        invariant
            all == order::seen(lines@),
            page_left == leftmost(all.take(i as int)),
            page_right == rightmost(all.take(i as int)),
    {
        assert(all.take(i + 1).drop_last() =~= all.take(i as int));
        assert(all.take(i + 1).last() == lines@[i as int]@);
        page_left = page_left.min(lines[i].x);
        page_right = page_right.max(lines[i].right());
    }
    assert(all.take(all.len() as int) =~= all);
    let width = page_right.minus(page_left);
    if !width.is_finite() || width.less(geometry::number(MIN_PAGE_WIDTH_FOR_GUTTER)) {
        return None;
    }
    let mid = page_left.plus(page_right).over(geometry::number(TWO));
    let band = width.times(geometry::number(GUTTER_BAND_RATIO));
    let low = mid.minus(band);
    let high = mid.plus(band);
    let mut crossing: usize = 0;
    let mut left: usize = 0;
    let mut right: usize = 0;
    let ghost p = |l: LineView| crosses(l, low, high);
    let ghost on_left = |l: LineView| l.right().spec_at_most(mid);
    let ghost on_right = |l: LineView| mid.spec_at_most(l.x);
    for i in 0..lines.len()
        invariant
            all == order::seen(lines@),
            p == (|l: LineView| crosses(l, low, high)),
            on_left == (|l: LineView| l.right().spec_at_most(mid)),
            on_right == (|l: LineView| mid.spec_at_most(l.x)),
            crossing == all.take(i as int).filter(p).len(),
            left == all.take(i as int).filter(on_left).len(),
            right == all.take(i as int).filter(on_right).len(),
            crossing <= i,
            left <= i,
            right <= i,
    {
        proof {
            let v = all[i as int];
            assert(v == lines@[i as int]@);
            all.take(i as int).lemma_filter_len_push(p, v);
            all.take(i as int).lemma_filter_len_push(on_left, v);
            all.take(i as int).lemma_filter_len_push(on_right, v);
            assert(all.take(i + 1) =~= all.take(i as int).push(v));
        }
        let line = &lines[i];
        if line.x.less(low) && high.less(line.right()) {
            crossing += 1;
        }
        if line.right().at_most(mid) {
            left += 1;
        }
        if mid.at_most(line.x) {
            right += 1;
        }
    }
    if crossing <= lines.len() / MAX_GUTTER_CROSSING_DENOM && left >= MIN_COLUMN_LINES && right
        >= MIN_COLUMN_LINES {
        Some(mid)
    } else {
        None
    }
}

/// Whether a table reaches over the gutter.
pub open spec fn full_width(table: TableView, gutter: Binary32) -> bool {
    table.x.spec_less(gutter) && gutter.spec_less(table.right())
}

fn is_full_width_table(table: &LayoutTable, gutter: Binary32) -> (r: bool)
    ensures
        r == full_width(table@, gutter),
{
    table.x.less(gutter) && gutter.less(table.right())
}

pub open spec fn line_items(lines: Seq<LineView>) -> Seq<ItemView> {
    lines.map_values(|line: LineView| ItemView::Line(line))
}

pub open spec fn table_items(tables: Seq<TableView>) -> Seq<ItemView> {
    tables.map_values(|table: TableView| ItemView::Table(table))
}

/// Lines and tables of one column, in the order in which they are read.
pub open spec fn column_order(lines: Seq<LineView>, tables: Seq<TableView>) -> Seq<ItemView> {
    order::arranged::<Item>(line_items(lines) + table_items(tables), SortBy::TopThenLeft)
}

fn order_column(lines: Vec<LayoutLine>, tables: Vec<LayoutTable>) -> (r: Vec<Item>)
    ensures
        order::seen(r@) == column_order(order::seen(lines@), order::seen(tables@)),
{
    let ghost l = line_items(order::seen(lines@));
    let ghost t = table_items(order::seen(tables@));
    let mut items: Vec<Item> = Vec::new();
    for line in it: lines
        invariant
            l == line_items(order::seen(it.seq())),
            order::seen(items@) == l.take(it.index()),
    {
        let ghost before = items@;
        items.push(Item::Line(line));
        assert(order::seen(items@) =~= order::seen(before).push(ItemView::Line(line@)));
        assert(l.take(it.index() + 1) =~= l.take(it.index()).push(ItemView::Line(line@)));
    }
    assert(l.take(l.len() as int) =~= l);
    assert(order::seen(items@) =~= l + t.take(0));
    for table in it: tables
        invariant
            t == table_items(order::seen(it.seq())),
            order::seen(items@) == l + t.take(it.index()),
    {
        let ghost before = items@;
        items.push(Item::Table(table));
        assert(order::seen(items@) =~= order::seen(before).push(ItemView::Table(table@)));
        assert(l + t.take(it.index() + 1) =~= (l + t.take(it.index())).push(
            ItemView::Table(table@),
        ));
    }
    assert(t.take(t.len() as int) =~= t);
    order::sort(items, SortBy::TopThenLeft)
}

/// Lines and tables that stand in two columns: first the left column, then the right one.
pub open spec fn band_order(
    lines: Seq<LineView>,
    tables: Seq<TableView>,
    gutter: Binary32,
) -> Seq<ItemView> {
    column_order(
        lines.filter(|l: LineView| l.center_x().spec_less(gutter)),
        tables.filter(|t: TableView| t.center_x().spec_less(gutter)),
    ) + column_order(
        lines.filter(|l: LineView| !l.center_x().spec_less(gutter)),
        tables.filter(|t: TableView| !t.center_x().spec_less(gutter)),
    )
}

fn order_band(lines: Vec<LayoutLine>, tables: Vec<LayoutTable>, gutter: Binary32) -> (r: Vec<Item>)
    ensures
        order::seen(r@) == band_order(order::seen(lines@), order::seen(tables@), gutter),
{
    let ghost all_lines = order::seen(lines@);
    let ghost all_tables = order::seen(tables@);
    let ghost line_left = |l: LineView| l.center_x().spec_less(gutter);
    let ghost line_right = |l: LineView| !l.center_x().spec_less(gutter);
    let ghost table_left = |t: TableView| t.center_x().spec_less(gutter);
    let ghost table_right = |t: TableView| !t.center_x().spec_less(gutter);
    let mut left: Vec<LayoutLine> = Vec::new();
    let mut right: Vec<LayoutLine> = Vec::new();
    proof {
        reveal(Seq::filter);
        assert(order::seen(left@) =~= all_lines.take(0).filter(line_left));
        assert(order::seen(right@) =~= all_lines.take(0).filter(line_right));
    }
    for line in it: lines
        invariant
            all_lines == order::seen(it.seq()),
            line_left == (|l: LineView| l.center_x().spec_less(gutter)),
            line_right == (|l: LineView| !l.center_x().spec_less(gutter)),
            order::seen(left@) == all_lines.take(it.index()).filter(line_left),
            order::seen(right@) == all_lines.take(it.index()).filter(line_right),
    {
        let ghost before_left = left@;
        let ghost before_right = right@;
        proof {
            reveal(Seq::filter);
            let n = it.index();
            assert(all_lines.take(n + 1).drop_last() =~= all_lines.take(n));
            assert(all_lines.take(n + 1).last() == line@);
        }
        if line.center_x().less(gutter) {
            left.push(line);
            assert(order::seen(left@) =~= order::seen(before_left).push(line@));
        } else {
            right.push(line);
            assert(order::seen(right@) =~= order::seen(before_right).push(line@));
        }
    }
    assert(all_lines.take(all_lines.len() as int) =~= all_lines);
    let mut left_tables: Vec<LayoutTable> = Vec::new();
    let mut right_tables: Vec<LayoutTable> = Vec::new();
    proof {
        reveal(Seq::filter);
        assert(order::seen(left_tables@) =~= all_tables.take(0).filter(table_left));
        assert(order::seen(right_tables@) =~= all_tables.take(0).filter(table_right));
    }
    for table in it: tables
        invariant
            all_tables == order::seen(it.seq()),
            table_left == (|t: TableView| t.center_x().spec_less(gutter)),
            table_right == (|t: TableView| !t.center_x().spec_less(gutter)),
            order::seen(left_tables@) == all_tables.take(it.index()).filter(table_left),
            order::seen(right_tables@) == all_tables.take(it.index()).filter(table_right),
    {
        let ghost before_left = left_tables@;
        let ghost before_right = right_tables@;
        proof {
            reveal(Seq::filter);
            let n = it.index();
            assert(all_tables.take(n + 1).drop_last() =~= all_tables.take(n));
            assert(all_tables.take(n + 1).last() == table@);
        }
        if table.center_x().less(gutter) {
            left_tables.push(table);
            assert(order::seen(left_tables@) =~= order::seen(before_left).push(table@));
        } else {
            right_tables.push(table);
            assert(order::seen(right_tables@) =~= order::seen(before_right).push(table@));
        }
    }
    assert(all_tables.take(all_tables.len() as int) =~= all_tables);
    let mut items = order_column(left, left_tables);
    let mut rest = order_column(right, right_tables);
    let ghost first = items@;
    let ghost second = rest@;
    items.append(&mut rest);
    assert(order::seen(items@) =~= order::seen(first) + order::seen(second));
    items
}

/// How many of the upper edges, from the first one on, lie above `top`.
pub open spec fn lead(tops: Seq<Binary32>, top: Binary32) -> nat
    decreases tops.len(),
{
    if tops.len() > 0 && top.spec_less(tops[0]) {
        1 + lead(tops.skip(1), top)
    } else {
        0
    }
}

pub open spec fn line_tops(lines: Seq<LineView>) -> Seq<Binary32> {
    lines.map_values(|line: LineView| line.visual_top())
}

pub open spec fn table_tops(tables: Seq<TableView>) -> Seq<Binary32> {
    tables.map_values(|table: TableView| table.visual_top())
}

fn count_lead(tops: &[Binary32], top: Binary32) -> (r: usize)
    ensures
        r == lead(tops@, top),
        r <= tops@.len(),
{
    let mut n: usize = 0;
    assert(tops@.skip(0) =~= tops@);
    while n < tops.len() && top.less(tops[n])
        invariant
            n <= tops@.len(),
            lead(tops@, top) == n + lead(tops@.skip(n as int), top),
        decreases tops@.len() - n,
    {
        assert(tops@.skip(n as int)[0] == tops@[n as int]);
        assert(tops@.skip(n as int).skip(1) =~= tops@.skip(n + 1));
        n += 1;
    }
    proof {
        if n < tops@.len() {
            assert(tops@.skip(n as int)[0] == tops@[n as int]);
        }
    }
    n
}

fn lines_above(lines: &[LayoutLine], top: Binary32) -> (r: usize)
    ensures
        r == lead(line_tops(order::seen(lines@)), top),
        r <= lines@.len(),
{
    let ghost all = line_tops(order::seen(lines@));
    let mut tops: Vec<Binary32> = Vec::new();
    for i in 0..lines.len()
        invariant
            all == line_tops(order::seen(lines@)),
            tops@ == all.take(i as int),
    {
        assert(all.take(i + 1) =~= all.take(i as int).push(all[i as int]));
        assert(all[i as int] == lines@[i as int]@.visual_top());
        tops.push(lines[i].visual_top());
    }
    assert(all.take(all.len() as int) =~= all);
    count_lead(tops.as_slice(), top)
}

fn tables_above(tables: &[LayoutTable], top: Binary32) -> (r: usize)
    ensures
        r == lead(table_tops(order::seen(tables@)), top),
        r <= tables@.len(),
{
    let ghost all = table_tops(order::seen(tables@));
    let mut tops: Vec<Binary32> = Vec::new();
    for i in 0..tables.len()
        invariant
            all == table_tops(order::seen(tables@)),
            tops@ == all.take(i as int),
    {
        assert(all.take(i + 1) =~= all.take(i as int).push(all[i as int]));
        assert(all[i as int] == tables@[i as int]@.visual_top());
        tops.push(tables[i].visual_top());
    }
    assert(all.take(all.len() as int) =~= all);
    count_lead(tops.as_slice(), top)
}

/// A page with two columns, cut into bands by the tables that reach over both: each band is read
/// before the table below it.
pub open spec fn bands_order(
    wide: Seq<TableView>,
    lines: Seq<LineView>,
    tables: Seq<TableView>,
    gutter: Binary32,
) -> Seq<ItemView>
    decreases wide.len(),
{
    if wide.len() == 0 {
        band_order(lines, tables, gutter)
    } else {
        let top = wide[0].visual_top();
        let n = lead(line_tops(lines), top) as int;
        let m = lead(table_tops(tables), top) as int;
        band_order(lines.take(n), tables.take(m), gutter).push(ItemView::Table(wide[0]))
            + bands_order(wide.skip(1), lines.skip(n), tables.skip(m), gutter)
    }
}

/// The lines and tables of a page in the order in which they are read.
pub open spec fn page_order(
    lines: Seq<LineView>,
    tables: Seq<TableView>,
    gutter: Option<Binary32>,
) -> Seq<ItemView> {
    match gutter {
        None => column_order(lines, tables),
        Some(gutter) => bands_order(
            order::arranged::<LayoutTable>(
                tables.filter(|t: TableView| full_width(t, gutter)),
                SortBy::Top,
            ),
            order::arranged::<LayoutLine>(lines, SortBy::TopThenLeft),
            order::arranged::<LayoutTable>(
                tables.filter(|t: TableView| !full_width(t, gutter)),
                SortBy::Top,
            ),
            gutter,
        ),
    }
}

fn split_tables(tables: Vec<LayoutTable>, gutter: Binary32) -> (r: (
    Vec<LayoutTable>,
    Vec<LayoutTable>,
))
    ensures
        order::seen(r.0@) == order::seen(tables@).filter(|t: TableView| full_width(t, gutter)),
        order::seen(r.1@) == order::seen(tables@).filter(|t: TableView| !full_width(t, gutter)),
{
    let ghost all = order::seen(tables@);
    let ghost p = |t: TableView| full_width(t, gutter);
    let ghost q = |t: TableView| !full_width(t, gutter);
    let mut wide: Vec<LayoutTable> = Vec::new();
    let mut narrow: Vec<LayoutTable> = Vec::new();
    proof {
        reveal(Seq::filter);
        assert(order::seen(wide@) =~= all.take(0).filter(p));
        assert(order::seen(narrow@) =~= all.take(0).filter(q));
    }
    for table in it: tables
        invariant
            all == order::seen(it.seq()),
            p == (|t: TableView| full_width(t, gutter)),
            q == (|t: TableView| !full_width(t, gutter)),
            order::seen(wide@) == all.take(it.index()).filter(p),
            order::seen(narrow@) == all.take(it.index()).filter(q),
    {
        let ghost before_wide = wide@;
        let ghost before_narrow = narrow@;
        proof {
            reveal(Seq::filter);
            let n = it.index();
            assert(all.take(n + 1).drop_last() =~= all.take(n));
            assert(all.take(n + 1).last() == table@);
        }
        if is_full_width_table(&table, gutter) {
            wide.push(table);
            assert(order::seen(wide@) =~= order::seen(before_wide).push(table@));
        } else {
            narrow.push(table);
            assert(order::seen(narrow@) =~= order::seen(before_narrow).push(table@));
        }
    }
    assert(all.take(all.len() as int) =~= all);
    (wide, narrow)
}

pub fn ordered_items(
    lines: Vec<LayoutLine>,
    tables: Vec<LayoutTable>,
    gutter: Option<Binary32>,
) -> (r: Vec<Item>)
    ensures
        order::seen(r@) == page_order(order::seen(lines@), order::seen(tables@), gutter),
{
    match gutter {
        None => order_column(lines, tables),
        Some(gutter) => {
            let (wide, narrow) = split_tables(tables, gutter);
            let wide = order::sort(wide, SortBy::Top);
            let mut narrow = order::sort(narrow, SortBy::Top);
            let mut remaining = order::sort(lines, SortBy::TopThenLeft);
            let ghost all = order::seen(wide@);
            let ghost whole = bands_order(
                all,
                order::seen(remaining@),
                order::seen(narrow@),
                gutter,
            );
            let mut items: Vec<Item> = Vec::new();
            proof {
                assert(all.skip(0) =~= all);
                assert(order::seen(items@) + whole =~= whole);
            }
            for table in it: wide
                invariant
                    all == order::seen(it.seq()),
                    order::seen(items@) + bands_order(
                        all.skip(it.index()),
                        order::seen(remaining@),
                        order::seen(narrow@),
                        gutter,
                    ) == whole,
            {
                let ghost i = it.index();
                let ghost before = order::seen(items@);
                let ghost all_lines = order::seen(remaining@);
                let ghost all_tables = order::seen(narrow@);
                assert(all.skip(i)[0] == table@);
                assert(all.skip(i).skip(1) =~= all.skip(i + 1));
                let top = table.visual_top();
                let line_n = lines_above(remaining.as_slice(), top);
                let rest = remaining.split_off(line_n);
                let table_n = tables_above(narrow.as_slice(), top);
                let rest_tables = narrow.split_off(table_n);
                proof {
                    assert(order::seen(remaining@) =~= all_lines.take(line_n as int));
                    assert(order::seen(rest@) =~= all_lines.skip(line_n as int));
                    assert(order::seen(narrow@) =~= all_tables.take(table_n as int));
                    assert(order::seen(rest_tables@) =~= all_tables.skip(table_n as int));
                }
                let mut band = order_band(remaining, narrow, gutter);
                let ghost added = band@;
                items.append(&mut band);
                items.push(Item::Table(table));
                remaining = rest;
                narrow = rest_tables;
                proof {
                    let part = order::seen(added).push(ItemView::Table(table@));
                    assert(order::seen(items@) =~= before + part);
                    let tail = bands_order(
                        all.skip(i + 1),
                        order::seen(remaining@),
                        order::seen(narrow@),
                        gutter,
                    );
                    assert(before + (part + tail) =~= (before + part) + tail);
                }
            }
            let ghost old_items = items@;
            let mut band = order_band(remaining, narrow, gutter);
            let ghost added = band@;
            items.append(&mut band);
            assert(order::seen(items@) =~= order::seen(old_items) + order::seen(added));
            items
        },
    }
}

proof fn lemma_inserted_mapped<A, B>(
    s: Seq<A>,
    e: A,
    key: spec_fn(A) -> (int, int),
    f: spec_fn(A) -> B,
)
    ensures
        order::inserted(s, e, key).map_values(f).to_multiset() == s.map_values(
            f,
        ).to_multiset().insert(f(e)),
    decreases s.len(),
{
    broadcast use vstd::seq_lib::group_to_multiset_ensures;

    if s.len() == 0 || !order::before(key(e), key(s.last())) {
        assert(s.push(e).map_values(f) =~= s.map_values(f).push(f(e)));
    } else {
        let t = s.drop_last();
        lemma_inserted_mapped(t, e, key, f);
        let u = order::inserted(t, e, key);
        assert(u.push(s.last()).map_values(f) =~= u.map_values(f).push(f(s.last())));
        assert(s.map_values(f) =~= t.map_values(f).push(f(s.last())));
        assert(t.map_values(f).to_multiset().insert(f(e)).insert(f(s.last())) =~= t.map_values(
            f,
        ).to_multiset().insert(f(s.last())).insert(f(e)));
    }
}

proof fn lemma_sorted_mapped<A, B>(s: Seq<A>, key: spec_fn(A) -> (int, int), f: spec_fn(A) -> B)
    ensures
        order::sorted(s, key).map_values(f).to_multiset() == s.map_values(f).to_multiset(),
    decreases s.len(),
{
    broadcast use vstd::seq_lib::group_to_multiset_ensures;

    if s.len() > 0 {
        lemma_sorted_mapped(s.drop_last(), key, f);
        lemma_inserted_mapped(order::sorted(s.drop_last(), key), s.last(), key, f);
        assert(s.map_values(f) =~= s.drop_last().map_values(f).push(f(s.last())));
    }
}

proof fn lemma_parted<A, B>(
    s: Seq<A>,
    p: spec_fn(A) -> bool,
    q: spec_fn(A) -> bool,
    f: spec_fn(A) -> B,
)
    requires
        forall|a: A| #[trigger] q(a) == !p(a),
    ensures
        s.map_values(f).to_multiset() == s.filter(p).map_values(f).to_multiset().add(
            s.filter(q).map_values(f).to_multiset(),
        ),
    decreases s.len(),
{
    broadcast use vstd::seq_lib::group_to_multiset_ensures;

    reveal(Seq::filter);
    if s.len() == 0 {
        assert(s.map_values(f).to_multiset() =~= s.filter(p).map_values(f).to_multiset().add(
            s.filter(q).map_values(f).to_multiset(),
        ));
    } else {
        let t = s.drop_last();
        let e = s.last();
        lemma_parted(t, p, q, f);
        assert(s.map_values(f) =~= t.map_values(f).push(f(e)));
        assert(q(e) == !p(e));
        if p(e) {
            assert(s.filter(p).map_values(f) =~= t.filter(p).map_values(f).push(f(e)));
        } else {
            assert(s.filter(q).map_values(f) =~= t.filter(q).map_values(f).push(f(e)));
        }
        assert(s.map_values(f).to_multiset() =~= s.filter(p).map_values(f).to_multiset().add(
            s.filter(q).map_values(f).to_multiset(),
        ));
    }
}

/// What lines and tables are there, in no order.
pub open spec fn stock(lines: Seq<LineView>, tables: Seq<TableView>) -> vstd::multiset::Multiset<
    ItemView,
> {
    line_items(lines).to_multiset().add(table_items(tables).to_multiset())
}

proof fn lemma_column_keeps(lines: Seq<LineView>, tables: Seq<TableView>)
    ensures
        column_order(lines, tables).to_multiset() == stock(lines, tables),
{
    let all = line_items(lines) + table_items(tables);
    order::sorting_orders(all, |v: ItemView| Item::place(v, SortBy::TopThenLeft));
    vstd::seq_lib::lemma_multiset_commutative(line_items(lines), table_items(tables));
}

proof fn lemma_band_keeps(lines: Seq<LineView>, tables: Seq<TableView>, gutter: Binary32)
    ensures
        band_order(lines, tables, gutter).to_multiset() == stock(lines, tables),
{
    let line_left = |l: LineView| l.center_x().spec_less(gutter);
    let line_right = |l: LineView| !l.center_x().spec_less(gutter);
    let table_left = |t: TableView| t.center_x().spec_less(gutter);
    let table_right = |t: TableView| !t.center_x().spec_less(gutter);
    let left = column_order(lines.filter(line_left), tables.filter(table_left));
    let right = column_order(lines.filter(line_right), tables.filter(table_right));
    lemma_parted(lines, line_left, line_right, |line: LineView| ItemView::Line(line));
    lemma_parted(tables, table_left, table_right, |table: TableView| ItemView::Table(table));
    lemma_column_keeps(lines.filter(line_left), tables.filter(table_left));
    lemma_column_keeps(lines.filter(line_right), tables.filter(table_right));
    vstd::seq_lib::lemma_multiset_commutative(left, right);
    assert(stock(lines, tables) =~= stock(lines.filter(line_left), tables.filter(table_left)).add(
        stock(lines.filter(line_right), tables.filter(table_right)),
    ));
}

proof fn lemma_lead_bounded(tops: Seq<Binary32>, top: Binary32)
    ensures
        lead(tops, top) <= tops.len(),
    decreases tops.len(),
{
    if tops.len() > 0 && top.spec_less(tops[0]) {
        lemma_lead_bounded(tops.skip(1), top);
    }
}

proof fn lemma_cut_keeps(lines: Seq<LineView>, tables: Seq<TableView>, n: int, m: int)
    requires
        0 <= n <= lines.len(),
        0 <= m <= tables.len(),
    ensures
        stock(lines, tables) == stock(lines.take(n), tables.take(m)).add(
            stock(lines.skip(n), tables.skip(m)),
        ),
{
    assert(line_items(lines) =~= line_items(lines.take(n)) + line_items(lines.skip(n)));
    vstd::seq_lib::lemma_multiset_commutative(line_items(lines.take(n)), line_items(lines.skip(n)));
    assert(table_items(tables) =~= table_items(tables.take(m)) + table_items(tables.skip(m)));
    vstd::seq_lib::lemma_multiset_commutative(
        table_items(tables.take(m)),
        table_items(tables.skip(m)),
    );
    assert(stock(lines, tables) =~= stock(lines.take(n), tables.take(m)).add(
        stock(lines.skip(n), tables.skip(m)),
    ));
}

proof fn lemma_first_table(wide: Seq<TableView>)
    requires
        wide.len() > 0,
    ensures
        table_items(wide).to_multiset() == table_items(wide.skip(1)).to_multiset().insert(
            ItemView::Table(wide[0]),
        ),
{
    broadcast use vstd::seq_lib::group_to_multiset_ensures;

    let first = ItemView::Table(wide[0]);
    let rest = table_items(wide.skip(1));
    assert(table_items(wide) =~= seq![first] + rest);
    vstd::seq_lib::lemma_multiset_commutative(seq![first], rest);
    assert(seq![first] =~= Seq::empty().push(first));
    assert(table_items(wide).to_multiset() =~= rest.to_multiset().insert(first));
}

proof fn lemma_bands_keep(
    wide: Seq<TableView>,
    lines: Seq<LineView>,
    tables: Seq<TableView>,
    gutter: Binary32,
)
    ensures
        bands_order(wide, lines, tables, gutter).to_multiset() == stock(lines, tables).add(
            table_items(wide).to_multiset(),
        ),
    decreases wide.len(),
{
    if wide.len() == 0 {
        lemma_band_keeps(lines, tables, gutter);
        assert(table_items(wide) =~= Seq::empty());
        assert(stock(lines, tables).add(table_items(wide).to_multiset()) =~= stock(lines, tables))
            by {
            broadcast use vstd::seq_lib::group_to_multiset_ensures;

        }
    } else {
        let top = wide[0].visual_top();
        let n = lead(line_tops(lines), top) as int;
        let m = lead(table_tops(tables), top) as int;
        lemma_lead_bounded(line_tops(lines), top);
        lemma_lead_bounded(table_tops(tables), top);
        let band = band_order(lines.take(n), tables.take(m), gutter);
        let first = ItemView::Table(wide[0]);
        let rest = bands_order(wide.skip(1), lines.skip(n), tables.skip(m), gutter);
        lemma_band_keeps(lines.take(n), tables.take(m), gutter);
        lemma_bands_keep(wide.skip(1), lines.skip(n), tables.skip(m), gutter);
        lemma_cut_keeps(lines, tables, n, m);
        lemma_first_table(wide);
        vstd::seq_lib::lemma_multiset_commutative(band.push(first), rest);
        assert(band.push(first).to_multiset() == band.to_multiset().insert(first)) by {
            broadcast use vstd::seq_lib::group_to_multiset_ensures;

        }
        let a = stock(lines.take(n), tables.take(m));
        let b = stock(lines.skip(n), tables.skip(m));
        let c = table_items(wide.skip(1)).to_multiset();
        assert(a.insert(first).add(b.add(c)) =~= a.add(b).add(c.insert(first)));
    }
}

/// Putting a page in reading order loses no line and no table and adds none.
pub proof fn reading_order_keeps_all(
    lines: Seq<LineView>,
    tables: Seq<TableView>,
    gutter: Option<Binary32>,
)
    ensures
        page_order(lines, tables, gutter).to_multiset() == stock(lines, tables),
{
    match gutter {
        None => {
            lemma_column_keeps(lines, tables);
        },
        Some(gutter) => {
            let p = |t: TableView| full_width(t, gutter);
            let q = |t: TableView| !full_width(t, gutter);
            let f = |line: LineView| ItemView::Line(line);
            let g = |table: TableView| ItemView::Table(table);
            let by_top = |v: TableView| LayoutTable::place(v, SortBy::Top);
            lemma_parted(tables, p, q, g);
            lemma_sorted_mapped(tables.filter(p), by_top, g);
            lemma_sorted_mapped(tables.filter(q), by_top, g);
            lemma_sorted_mapped(lines, |v: LineView| LayoutLine::place(v, SortBy::TopThenLeft), f);
            lemma_bands_keep(
                order::arranged::<LayoutTable>(tables.filter(p), SortBy::Top),
                order::arranged::<LayoutLine>(lines, SortBy::TopThenLeft),
                order::arranged::<LayoutTable>(tables.filter(q), SortBy::Top),
                gutter,
            );
            assert(page_order(lines, tables, Some(gutter)).to_multiset() =~= stock(lines, tables));
        },
    }
}

/// On a page without a gutter, nothing is read before what stands above it, nor before what stands
/// at the same height to its left.
pub proof fn one_column_reads_down(lines: Seq<LineView>, tables: Seq<TableView>)
    ensures
        order::is_ordered(
            page_order(lines, tables, None),
            |v: ItemView| (-v.visual_top().spec_order(), v.x().spec_order()),
        ),
{
    let key = |v: ItemView| Item::place(v, SortBy::TopThenLeft);
    order::sorting_orders(line_items(lines) + table_items(tables), key);
    let place = |v: ItemView| (-v.visual_top().spec_order(), v.x().spec_order());
    assert forall|v: ItemView| #[trigger] key(v) == place(v) by {}
    let all = page_order(lines, tables, None);
    assert forall|i: int, j: int| 0 <= i < j < all.len() implies !order::before(
        place(#[trigger] all[j]),
        place(#[trigger] all[i]),
    ) by {
        assert(!order::before(key(all[j]), key(all[i])));
    }
}

/// Whether the middle of an item lies to the left of the gutter.
pub open spec fn on_the_left(item: ItemView, gutter: Binary32) -> bool {
    match item {
        ItemView::Line(line) => line.center_x().spec_less(gutter),
        ItemView::Table(table) => table.center_x().spec_less(gutter),
    }
}

proof fn lemma_column_side(
    lines: Seq<LineView>,
    tables: Seq<TableView>,
    gutter: Binary32,
    left: bool,
)
    requires
        forall|i: int| 0 <= i < lines.len() ==> (#[trigger] lines[i]).center_x().spec_less(gutter)
            == left,
        forall|i: int| 0 <= i < tables.len() ==> (#[trigger] tables[i]).center_x().spec_less(gutter)
            == left,
    ensures
        forall|i: int|
            0 <= i < column_order(lines, tables).len() ==> on_the_left(
                #[trigger] column_order(lines, tables)[i],
                gutter,
            ) == left,
{
    broadcast use vstd::seq_lib::group_to_multiset_ensures;

    let all = line_items(lines) + table_items(tables);
    let arranged = column_order(lines, tables);
    order::sorting_orders(all, |v: ItemView| Item::place(v, SortBy::TopThenLeft));
    assert forall|i: int| 0 <= i < arranged.len() implies on_the_left(
        #[trigger] arranged[i],
        gutter,
    ) == left by {
        assert(arranged.to_multiset().count(arranged[i]) > 0);
        assert(all.contains(arranged[i]));
        let j = choose|j: int| 0 <= j < all.len() && all[j] == arranged[i];
        if j < lines.len() {
            assert(all[j] == ItemView::Line(lines[j]));
        } else {
            assert(all[j] == ItemView::Table(tables[j - lines.len()]));
        }
    }
}

/// Whether of two items in two columns one may be read before the other: none on the right before one
/// on the left, and none on the same side before one that stands above it.
pub open spec fn may_be_read_before(a: ItemView, b: ItemView, gutter: Binary32) -> bool {
    &&& on_the_left(b, gutter) ==> on_the_left(a, gutter)
    &&& on_the_left(a, gutter) == on_the_left(b, gutter) ==> !order::before(
        Item::place(b, SortBy::TopThenLeft),
        Item::place(a, SortBy::TopThenLeft),
    )
}

proof fn lemma_band_reads_left_first(
    l: Seq<LineView>,
    t: Seq<TableView>,
    gutter: Binary32,
    i: int,
    j: int,
)
    requires
        0 <= i < j < band_order(l, t, gutter).len(),
    ensures
        may_be_read_before(band_order(l, t, gutter)[i], band_order(l, t, gutter)[j], gutter),
{
    let line_left = |l: LineView| l.center_x().spec_less(gutter);
    let line_right = |l: LineView| !l.center_x().spec_less(gutter);
    let table_left = |t: TableView| t.center_x().spec_less(gutter);
    let table_right = |t: TableView| !t.center_x().spec_less(gutter);
    broadcast use vstd::seq_lib::group_filter_ensures;

    let left = column_order(l.filter(line_left), t.filter(table_left));
    let right = column_order(l.filter(line_right), t.filter(table_right));
    assert forall|k: int| 0 <= k < l.filter(line_right).len() implies !(#[trigger] l.filter(
        line_right,
    )[k]).center_x().spec_less(gutter) by {
        assert(line_right(l.filter(line_right)[k]));
    }
    assert forall|k: int| 0 <= k < t.filter(table_right).len() implies !(#[trigger] t.filter(
        table_right,
    )[k]).center_x().spec_less(gutter) by {
        assert(table_right(t.filter(table_right)[k]));
    }
    assert forall|k: int| 0 <= k < l.filter(line_left).len() implies (#[trigger] l.filter(
        line_left,
    )[k]).center_x().spec_less(gutter) by {
        assert(line_left(l.filter(line_left)[k]));
    }
    assert forall|k: int| 0 <= k < t.filter(table_left).len() implies (#[trigger] t.filter(
        table_left,
    )[k]).center_x().spec_less(gutter) by {
        assert(table_left(t.filter(table_left)[k]));
    }
    lemma_column_side(l.filter(line_left), t.filter(table_left), gutter, true);
    lemma_column_side(l.filter(line_right), t.filter(table_right), gutter, false);
    let key = |v: ItemView| Item::place(v, SortBy::TopThenLeft);
    order::sorting_orders(
        line_items(l.filter(line_left)) + table_items(t.filter(table_left)),
        key,
    );
    order::sorting_orders(
        line_items(l.filter(line_right)) + table_items(t.filter(table_right)),
        key,
    );
    let all = band_order(l, t, gutter);
    assert(all == left + right);
    let n = left.len() as int;
    if j < n {
        assert(!order::before(key(left[j]), key(left[i])));
    } else if i >= n {
        assert(!order::before(key(right[j - n]), key(right[i - n])));
    } else {
        assert(all[i] == left[i] && all[j] == right[j - n]);
    }
}

/// On a page with two columns and no table over both, the whole left column is read before the
/// right one, and each column from the top down.
pub proof fn two_columns_read_left_first(
    lines: Seq<LineView>,
    tables: Seq<TableView>,
    gutter: Binary32,
    i: int,
    j: int,
)
    requires
        tables.filter(|t: TableView| full_width(t, gutter)).len() == 0,
        0 <= i < j < page_order(lines, tables, Some(gutter)).len(),
    ensures
        ({
            let a = page_order(lines, tables, Some(gutter))[i];
            let b = page_order(lines, tables, Some(gutter))[j];
            &&& on_the_left(b, gutter) ==> on_the_left(a, gutter)
            &&& on_the_left(a, gutter) == on_the_left(b, gutter) ==> !order::before(
                Item::place(b, SortBy::TopThenLeft),
                Item::place(a, SortBy::TopThenLeft),
            )
        }),
{
    let by_top = |v: TableView| LayoutTable::place(v, SortBy::Top);
    order::sorting_orders(tables.filter(|t: TableView| full_width(t, gutter)), by_top);
    let l = order::arranged::<LayoutLine>(lines, SortBy::TopThenLeft);
    let t = order::arranged::<LayoutTable>(
        tables.filter(|t: TableView| !full_width(t, gutter)),
        SortBy::Top,
    );
    assert(page_order(lines, tables, Some(gutter)) == band_order(l, t, gutter));
    lemma_band_reads_left_first(l, t, gutter, i, j);
}

/// The left edge of a page is the least left edge of its lines and the right one the greatest right
/// edge, as far as these are numbers.
pub proof fn page_edges_are_those_of_its_lines(lines: Seq<LineView>)
    requires
        lines.len() > 0,
        forall|i: int|
            0 <= i < lines.len() ==> !crate::ieee::is_nan(23, (#[trigger] lines[i]).x.number())
                && !crate::ieee::is_nan(23, lines[i].right().number()),
    ensures
        forall|i: int|
            0 <= i < lines.len() ==> leftmost(lines).spec_at_most((#[trigger] lines[i]).x)
                && lines[i].right().spec_at_most(rightmost(lines)),
        exists|i: int| 0 <= i < lines.len() && leftmost(lines) == (#[trigger] lines[i]).x,
        exists|i: int| 0 <= i < lines.len() && rightmost(lines) == (#[trigger] lines[i]).right(),
    decreases lines.len(),
{
    crate::ieee::lemma_nearest_bounded(23, 0, 1);
    let front = lines.drop_last();
    let last = lines.last();
    assert(lines[lines.len() - 1] == last);
    if front.len() > 0 {
        assert forall|i: int| 0 <= i < front.len() implies !crate::ieee::is_nan(
            23,
            (#[trigger] front[i]).x.number(),
        ) && !crate::ieee::is_nan(23, front[i].right().number()) by {
            assert(front[i] == lines[i]);
        }
        page_edges_are_those_of_its_lines(front);
        let i = choose|i: int| 0 <= i < front.len() && leftmost(front) == (#[trigger] front[i]).x;
        let j = choose|j: int|
            0 <= j < front.len() && rightmost(front) == (#[trigger] front[j]).right();
        assert(lines[i] == front[i] && lines[j] == front[j]);
        assert forall|k: int| 0 <= k < lines.len() implies leftmost(lines).spec_at_most(
            (#[trigger] lines[k]).x,
        ) && lines[k].right().spec_at_most(rightmost(lines)) by {
            if k < front.len() {
                assert(front[k] == lines[k]);
            }
        }
    } else {
        assert(leftmost(front) == geometry::num(INFINITY));
        assert(rightmost(front) == geometry::num(NEGATIVE_INFINITY));
        assert(leftmost(lines) == last.x);
        assert(rightmost(lines) == last.right());
    }
}

/// A page has two columns, and its gutter is its middle, where it has at least 8 lines, is at least
/// 200 wide, at most one line in ten reaches over the band round the middle, which takes in 8 in 100
/// of the width on each side, and at least 3 lines lie wholly on each side of the middle. Other pages
/// have no gutter.
pub proof fn pages_with_two_columns_have_a_gutter(lines: Seq<LineView>)
    ensures
        ({
            let left = leftmost(lines);
            let right = rightmost(lines);
            let width = right.spec_minus(left);
            let middle = left.spec_plus(right).spec_over(geometry::num(0x4000_0000));
            let band = width.spec_times(geometry::num(0x3da3_d70a));
            let over = lines.filter(
                |l: LineView|
                    l.x.spec_less(middle.spec_minus(band)) && middle.spec_plus(band).spec_less(
                        l.x.spec_plus(l.width),
                    ),
            ).len();
            let on_left = lines.filter(
                |l: LineView| l.x.spec_plus(l.width).spec_at_most(middle),
            ).len();
            let on_right = lines.filter(|l: LineView| middle.spec_at_most(l.x)).len();
            let two = lines.len() >= 8 && width.spec_is_finite() && !width.spec_less(
                geometry::num(0x4348_0000),
            ) && 10 * over <= lines.len() && on_left >= 3 && on_right >= 3;
            &&& two ==> gutter_of(lines) == Some(middle)
            &&& !two ==> gutter_of(lines) is None
        }),
{
    let left = leftmost(lines);
    let right = rightmost(lines);
    let width = right.spec_minus(left);
    let middle = left.spec_plus(right).spec_over(geometry::num(0x4000_0000));
    let band = width.spec_times(geometry::num(0x3da3_d70a));
    let low = middle.spec_minus(band);
    let high = middle.spec_plus(band);
    let p = |l: LineView|
        l.x.spec_less(middle.spec_minus(band)) && middle.spec_plus(band).spec_less(
            l.x.spec_plus(l.width),
        );
    let q = |l: LineView| crosses(l, low, high);
    assert(p =~= q);
    let a = |l: LineView| l.x.spec_plus(l.width).spec_at_most(middle);
    let b = |l: LineView| l.right().spec_at_most(middle);
    assert(a =~= b);
}

/// A page keeps its gutter when a line is added that reaches over both columns, as long as no more
/// than one line in ten then does so: to a page of 20 lines none of which does, one may be added.
pub proof fn one_line_in_ten_may_cross(lines: Seq<LineView>, line: LineView)
    requires
        gutter_of(lines) is Some,
        leftmost(lines).spec_at_most(line.x),
        line.right().spec_at_most(rightmost(lines)),
        ({
            let width = rightmost(lines).spec_minus(leftmost(lines));
            let middle = gutter_of(lines).unwrap();
            let band = width.spec_times(geometry::num(0x3da3_d70a));
            let over = lines.filter(
                |l: LineView|
                    l.x.spec_less(middle.spec_minus(band)) && middle.spec_plus(band).spec_less(
                        l.x.spec_plus(l.width),
                    ),
            ).len();
            10 * (over + 1) <= lines.len() + 1 || (over == 0 && lines.len() >= 20)
        }),
    ensures
        gutter_of(lines.push(line)) == gutter_of(lines),
{
    let more = lines.push(line);
    assert(more.drop_last() =~= lines);
    assert(leftmost(more) == leftmost(lines));
    assert(rightmost(more) == rightmost(lines));
    let width = rightmost(lines).spec_minus(leftmost(lines));
    let middle = leftmost(lines).spec_plus(rightmost(lines)).spec_over(geometry::num(0x4000_0000));
    let band = width.spec_times(geometry::num(0x3da3_d70a));
    let p = |l: LineView|
        l.x.spec_less(middle.spec_minus(band)) && middle.spec_plus(band).spec_less(
            l.x.spec_plus(l.width),
        );
    let a = |l: LineView| l.x.spec_plus(l.width).spec_at_most(middle);
    let b = |l: LineView| middle.spec_at_most(l.x);
    lines.lemma_filter_len_push(p, line);
    lines.lemma_filter_len_push(a, line);
    lines.lemma_filter_len_push(b, line);
    pages_with_two_columns_have_a_gutter(lines);
    pages_with_two_columns_have_a_gutter(more);
}

/// The letters of lines, one line after another.
pub open spec fn letters_of(lines: Seq<LineView>) -> Seq<char>
    decreases lines.len(),
{
    if lines.len() == 0 {
        Seq::empty()
    } else {
        letters_of(lines.drop_last()) + fragments::letters(lines.last().text)
    }
}

proof fn lemma_letters_add(a: Seq<LineView>, b: Seq<LineView>)
    ensures
        letters_of(a + b) == letters_of(a) + letters_of(b),
    decreases b.len(),
{
    if b.len() == 0 {
        assert(a + b =~= a);
        assert(letters_of(a) + letters_of(b) =~= letters_of(a));
    } else {
        lemma_letters_add(a, b.drop_last());
        assert((a + b).drop_last() =~= a + b.drop_last());
        assert((a + b).last() == b.last());
        assert(letters_of(a + b) =~= letters_of(a) + letters_of(b));
    }
}

proof fn lemma_letters_one(line: LineView)
    ensures
        letters_of(seq![line]) == fragments::letters(line.text),
{
    reveal_with_fuel(letters_of, 2);
    assert(seq![line].drop_last() =~= Seq::empty());
    assert(Seq::<char>::empty() + fragments::letters(line.text) =~= fragments::letters(line.text));
}

proof fn lemma_inserted_letters(
    s: Seq<LineView>,
    e: LineView,
    key: spec_fn(LineView) -> (int, int),
)
    ensures
        letters_of(order::inserted(s, e, key)).to_multiset() == letters_of(s).to_multiset().add(
            fragments::letters(e.text).to_multiset(),
        ),
    decreases s.len(),
{
    let l = fragments::letters(e.text);
    if s.len() == 0 || !order::before(key(e), key(s.last())) {
        assert(s.push(e).drop_last() =~= s);
        vstd::seq_lib::lemma_multiset_commutative(letters_of(s), l);
    } else {
        let t = s.drop_last();
        let u = order::inserted(t, e, key);
        let m = fragments::letters(s.last().text);
        lemma_inserted_letters(t, e, key);
        assert(u.push(s.last()).drop_last() =~= u);
        vstd::seq_lib::lemma_multiset_commutative(letters_of(u), m);
        vstd::seq_lib::lemma_multiset_commutative(letters_of(t), m);
        assert(letters_of(t).to_multiset().add(l.to_multiset()).add(m.to_multiset()) =~= letters_of(
            t,
        ).to_multiset().add(m.to_multiset()).add(l.to_multiset()));
    }
}

proof fn lemma_sorted_letters(s: Seq<LineView>, key: spec_fn(LineView) -> (int, int))
    ensures
        letters_of(order::sorted(s, key)).to_multiset() == letters_of(s).to_multiset(),
    decreases s.len(),
{
    if s.len() > 0 {
        lemma_sorted_letters(s.drop_last(), key);
        lemma_inserted_letters(order::sorted(s.drop_last(), key), s.last(), key);
        vstd::seq_lib::lemma_multiset_commutative(
            letters_of(s.drop_last()),
            fragments::letters(s.last().text),
        );
    }
}

#[verifier::spinoff_prover]
#[verifier::rlimit(60)]
proof fn lemma_row_letters(row: Seq<LineView>)
    ensures
        letters_of(row_merged(row)) == letters_of(row),
    decreases row.len(),
{
    if row.len() > 0 {
        lemma_row_letters(row.drop_last());
        let before = row_merged(row.drop_last());
        let line = row.last();
        let after = row_merged(row);
        if before.len() > 0 && geometry::adjoins(before.last(), line) {
            assert(after.drop_last() =~= before.drop_last());
            fragments::lemma_letters_joined(before.last().text, line.text);
            assert(letters_of(after) =~= letters_of(row));
        } else {
            assert(after.drop_last() =~= before);
        }
    }
}

/// The letters of rows, one row after another.
spec fn letters_of_rows(rows: Seq<Seq<LineView>>) -> Seq<char>
    decreases rows.len(),
{
    if rows.len() == 0 {
        Seq::empty()
    } else {
        letters_of_rows(rows.drop_last()) + letters_of(rows.last())
    }
}

#[verifier::spinoff_prover]
proof fn lemma_rows_letters(lines: Seq<LineView>)
    ensures
        letters_of_rows(rows_of(lines)) == letters_of(lines),
    decreases lines.len(),
{
    if lines.len() > 0 {
        lemma_rows_letters(lines.drop_last());
        let before = rows_of(lines.drop_last());
        let after = rows_of(lines);
        let line = lines.last();
        lemma_letters_one(line);
        if before.len() > 0 && geometry::level(before.last().last(), line) {
            assert(after.drop_last() =~= before.drop_last());
            assert(before.last().push(line) =~= before.last() + seq![line]);
            lemma_letters_add(before.last(), seq![line]);
            assert(letters_of_rows(after) =~= letters_of(lines));
        } else {
            assert(after.drop_last() =~= before);
        }
    }
}

proof fn lemma_merged_rows_letters(rows: Seq<Seq<LineView>>)
    ensures
        letters_of(rows_merged(rows)).to_multiset() == letters_of_rows(rows).to_multiset(),
    decreases rows.len(),
{
    if rows.len() > 0 {
        let front = rows.drop_last();
        lemma_merged_rows_letters(front);
        let row = order::arranged::<LayoutLine>(rows.last(), SortBy::Left);
        lemma_sorted_letters(rows.last(), |v: LineView| LayoutLine::place(v, SortBy::Left));
        lemma_row_letters(row);
        lemma_letters_add(rows_merged(front), row_merged(row));
        vstd::seq_lib::lemma_multiset_commutative(
            letters_of(rows_merged(front)),
            letters_of(row_merged(row)),
        );
        vstd::seq_lib::lemma_multiset_commutative(letters_of_rows(front), letters_of(rows.last()));
    }
}

/// Putting the parts of lines together loses no letter and adds none.
pub proof fn merging_lines_keeps_text(lines: Seq<LineView>)
    ensures
        letters_of(lines_merged(lines)).to_multiset() == letters_of(lines).to_multiset(),
{
    let all = order::arranged::<LayoutLine>(lines, SortBy::TopThenLeft);
    lemma_sorted_letters(lines, |v: LineView| LayoutLine::place(v, SortBy::TopThenLeft));
    lemma_rows_letters(all);
    lemma_merged_rows_letters(rows_of(all));
}

proof fn lemma_two_sorted(a: LineView, b: LineView, by: SortBy)
    ensures
        order::arranged::<LayoutLine>(seq![a, b], by) == if order::before(
            LayoutLine::place(b, by),
            LayoutLine::place(a, by),
        ) {
            seq![b, a]
        } else {
            seq![a, b]
        },
{
    reveal_with_fuel(order::sorted, 3);
    reveal_with_fuel(order::inserted, 3);
    let key = |v: LineView| LayoutLine::place(v, by);
    let s = seq![a, b];
    assert(s.drop_last() =~= seq![a]);
    assert(s.drop_last().drop_last() =~= Seq::empty());
    assert(order::sorted(seq![a], key) =~= seq![a]);
    assert(seq![a].drop_last() =~= Seq::empty());
    assert(order::arranged::<LayoutLine>(s, by) =~= if order::before(key(b), key(a)) {
        seq![b, a]
    } else {
        seq![a, b]
    });
}

proof fn lemma_one_row(row: Seq<LineView>)
    ensures
        rows_merged(seq![row]) == row_merged(order::arranged::<LayoutLine>(row, SortBy::Left)),
{
    reveal_with_fuel(rows_merged, 2);
    assert(seq![row].drop_last() =~= Seq::empty());
    let r = row_merged(order::arranged::<LayoutLine>(row, SortBy::Left));
    assert(Seq::<LineView>::empty() + r =~= r);
}

/// Two lines that stand at the same height are put in order from left to right, whichever of them
/// comes first. Where the right one begins at most a height behind the end of the left one they
/// become one line with the text of both, from the left end of the two to the right one; else they
/// stay two.
#[verifier::spinoff_prover]
#[verifier::rlimit(60)]
pub proof fn level_lines_are_put_together(left: LineView, right: LineView)
    requires
        geometry::level(left, right),
        geometry::level(right, left),
        left.x.spec_order() < right.x.spec_order(),
    ensures
        lines_merged(seq![left, right]) == lines_merged(seq![right, left]),
        geometry::adjoins(left, right) ==> ({
            let whole = lines_merged(seq![left, right]);
            &&& whole.len() == 1
            &&& whole[0].text == fragments::appended(left.text, right.text)
            &&& whole[0].x == left.x.spec_min(right.x)
            &&& whole[0].y == left.y.spec_min(right.y)
            &&& whole[0].width == left.right().spec_max(right.right()).spec_minus(whole[0].x)
            &&& whole[0].height == left.visual_top().spec_max(right.visual_top()).spec_minus(
                whole[0].y,
            )
            &&& whole[0].font_size == left.font_size
            &&& whole[0].heading_level == left.heading_level
        }),
        !geometry::adjoins(left, right) ==> lines_merged(seq![left, right]) == seq![left, right],
{
    lemma_two_sorted(left, right, SortBy::TopThenLeft);
    lemma_two_sorted(right, left, SortBy::TopThenLeft);
    lemma_two_sorted(left, right, SortBy::Left);
    lemma_two_sorted(right, left, SortBy::Left);
    lemma_two_rows(left, right);
    lemma_two_rows(right, left);
    lemma_one_row(seq![left, right]);
    lemma_one_row(seq![right, left]);
    reveal_with_fuel(row_merged, 3);
    let s = seq![left, right];
    assert(s.drop_last() =~= seq![left]);
    assert(seq![left].drop_last() =~= Seq::empty());
    assert(row_merged(seq![left]) =~= seq![left]);
    assert(seq![left].push(right) =~= s);
    if geometry::adjoins(left, right) {
        assert(row_merged(s) =~= seq![joined_line(left, right)]);
    }
}

#[verifier::spinoff_prover]
proof fn lemma_two_rows(a: LineView, b: LineView)
    ensures
        rows_of(seq![a, b]) == if geometry::level(a, b) {
            seq![seq![a, b]]
        } else {
            seq![seq![a], seq![b]]
        },
{
    reveal_with_fuel(rows_of, 3);
    let s = seq![a, b];
    assert(s.drop_last() =~= seq![a]);
    assert(seq![a].drop_last() =~= Seq::empty());
    assert(rows_of(seq![a]) =~= seq![seq![a]]);
    assert(seq![a].push(b) =~= s);
    assert(rows_of(s) =~= if geometry::level(a, b) {
        seq![seq![a, b]]
    } else {
        seq![seq![a], seq![b]]
    });
}

#[verifier::spinoff_prover]
#[verifier::rlimit(60)]
proof fn lemma_single_rows(lines: Seq<LineView>)
    requires
        forall|i: int, j: int|
            0 <= i < j < lines.len() ==> !geometry::level(#[trigger] lines[i], #[trigger] lines[j]),
    ensures
        rows_of(lines) == Seq::new(lines.len(), |i: int| seq![lines[i]]),
        rows_merged(rows_of(lines)) == lines,
    decreases lines.len(),
{
    if lines.len() > 0 {
        let front = lines.drop_last();
        assert forall|i: int, j: int| 0 <= i < j < front.len() implies !geometry::level(
            #[trigger] front[i],
            #[trigger] front[j],
        ) by {
            assert(front[i] == lines[i] && front[j] == lines[j]);
        }
        lemma_single_rows(front);
        let before = rows_of(front);
        if before.len() > 0 {
            assert(before.last().last() == lines[lines.len() - 2]);
            assert(!geometry::level(lines[lines.len() - 2], lines[lines.len() - 1]));
        }
        assert(rows_of(lines) == before.push(seq![lines.last()]));
        assert(rows_of(lines) =~= Seq::new(lines.len(), |i: int| seq![lines[i]]));
        let row = seq![lines.last()];
        assert(rows_of(lines).drop_last() =~= before);
        reveal_with_fuel(order::sorted, 2);
        reveal_with_fuel(order::inserted, 2);
        reveal_with_fuel(row_merged, 2);
        assert(row.drop_last() =~= Seq::empty());
        assert(order::arranged::<LayoutLine>(row, SortBy::Left) =~= row);
        assert(row_merged(row) =~= row);
        assert(front + row =~= lines);
    } else {
        assert(rows_of(lines) =~= Seq::new(lines.len(), |i: int| seq![lines[i]]));
        assert(rows_merged(rows_of(lines)) =~= lines);
    }
}

proof fn lemma_all_apart(lines: Seq<LineView>, all: Seq<LineView>)
    requires
        all == order::arranged::<LayoutLine>(lines, SortBy::TopThenLeft),
        forall|i: int, j: int|
            0 <= i < lines.len() && 0 <= j < lines.len() && i != j ==> !geometry::level(
                #[trigger] lines[i],
                #[trigger] lines[j],
            ),
    ensures
        forall|i: int, j: int|
            0 <= i < all.len() && 0 <= j < all.len() && i != j ==> !geometry::level(
                #[trigger] all[i],
                #[trigger] all[j],
            ),
{
    let near = |a: LineView, b: LineView| geometry::level(a, b);
    let key = |v: LineView| LayoutLine::place(v, SortBy::TopThenLeft);
    assert(order::none_near(lines, near));
    order::lemma_sorted_none_near(lines, key, near);
    assert forall|i: int, j: int|
        0 <= i < all.len() && 0 <= j < all.len() && i != j implies !geometry::level(
        #[trigger] all[i],
        #[trigger] all[j],
    ) by {
        assert(!near(all[i], all[j]));
    }
}

/// Lines no two of which stand at the same height all stay as they are, and are put in order from
/// the top down.
pub proof fn lines_apart_stay_apart(lines: Seq<LineView>)
    requires
        forall|i: int, j: int|
            0 <= i < lines.len() && 0 <= j < lines.len() && i != j ==> !geometry::level(
                #[trigger] lines[i],
                #[trigger] lines[j],
            ),
    ensures
        lines_merged(lines).to_multiset() == lines.to_multiset(),
        forall|i: int, j: int|
            0 <= i < j < lines_merged(lines).len() ==> (#[trigger] lines_merged(
                lines,
            )[j]).visual_top().spec_order() <= (#[trigger] lines_merged(
                lines,
            )[i]).visual_top().spec_order(),
{
    let key = |v: LineView| LayoutLine::place(v, SortBy::TopThenLeft);
    let all = order::arranged::<LayoutLine>(lines, SortBy::TopThenLeft);
    lemma_all_apart(lines, all);
    lemma_single_rows(all);
    order::sorting_orders(lines, key);
    assert forall|i: int, j: int| 0 <= i < j < all.len() implies (
    #[trigger] all[j]).visual_top().spec_order() <= (
    #[trigger] all[i]).visual_top().spec_order() by {
        assert(!order::before(key(all[j]), key(all[i])));
    }
}

/// How high an edge lies, as a whole number that grows with it.
#[verifier::opaque]
pub open spec fn height_of(edge: Binary32) -> int {
    crate::ieee::rank(edge.number())
}

/// Whether an edge is a number.
#[verifier::opaque]
pub open spec fn is_known(edge: Binary32) -> bool {
    !crate::ieee::is_nan(23, edge.number())
}

proof fn lemma_above(a: Binary32, b: Binary32)
    requires
        is_known(a),
        is_known(b),
    ensures
        a.spec_less(b) <==> height_of(a) < height_of(b),
        a.spec_order() <= b.spec_order() ==> height_of(a) <= height_of(b),
{
    reveal(height_of);
    reveal(is_known);
}

proof fn lemma_lead(tops: Seq<Binary32>, top: Binary32)
    requires
        is_known(top),
        forall|i: int| 0 <= i < tops.len() ==> is_known(#[trigger] tops[i]),
        forall|i: int, j: int|
            0 <= i < j < tops.len() ==> height_of(#[trigger] tops[j]) <= height_of(
                #[trigger] tops[i],
            ),
    ensures
        lead(tops, top) <= tops.len(),
        forall|i: int|
            0 <= i < lead(tops, top) ==> height_of(top) < height_of(#[trigger] tops[i]),
        forall|i: int|
            lead(tops, top) <= i < tops.len() ==> height_of(#[trigger] tops[i]) <= height_of(top),
    decreases tops.len(),
{
    if tops.len() > 0 {
        lemma_above(top, tops[0]);
        if height_of(top) < height_of(tops[0]) {
            let rest = tops.skip(1);
            assert forall|i: int, j: int| 0 <= i < j < rest.len() implies height_of(
                #[trigger] rest[j],
            ) <= height_of(#[trigger] rest[i]) by {
                assert(rest[j] == tops[j + 1] && rest[i] == tops[i + 1]);
            }
            lemma_lead(rest, top);
            assert forall|i: int| 0 <= i < lead(tops, top) implies height_of(top) < height_of(
                #[trigger] tops[i],
            ) by {
                if i > 0 {
                    assert(rest[i - 1] == tops[i]);
                }
            }
            assert forall|i: int| lead(tops, top) <= i < tops.len() implies height_of(
                #[trigger] tops[i],
            ) <= height_of(top) by {
                assert(rest[i - 1] == tops[i]);
            }
        }
    }
}

/// Whether an item is one of these lines or tables.
pub open spec fn is_among(item: ItemView, lines: Seq<LineView>, tables: Seq<TableView>) -> bool {
    match item {
        ItemView::Line(line) => lines.contains(line),
        ItemView::Table(table) => tables.contains(table),
    }
}

proof fn lemma_stock(
    all: Seq<ItemView>,
    lines: Seq<LineView>,
    tables: Seq<TableView>,
    wide: Seq<TableView>,
    k: int,
)
    requires
        all.to_multiset() == stock(lines, tables).add(table_items(wide).to_multiset()),
        0 <= k < all.len(),
    ensures
        is_among(all[k], lines, tables + wide),
{
    broadcast use vstd::seq_lib::group_to_multiset_ensures;

    let item = all[k];
    assert(all.contains(item));
    assert(all.to_multiset().count(item) > 0);
    let a = line_items(lines);
    let b = table_items(tables);
    let c = table_items(wide);
    assert(a.to_multiset().count(item) > 0 || b.to_multiset().count(item) > 0
        || c.to_multiset().count(item) > 0);
    if a.contains(item) {
        let i = choose|i: int| 0 <= i < a.len() && a[i] == item;
        assert(lines[i] == item->Line_0);
    } else if b.contains(item) {
        let i = choose|i: int| 0 <= i < b.len() && b[i] == item;
        assert((tables + wide)[i] == item->Table_0);
    } else {
        assert(c.contains(item));
        let i = choose|i: int| 0 <= i < c.len() && c[i] == item;
        assert((tables + wide)[tables.len() + i] == item->Table_0);
    }
}

/// Whether no item stands behind a wide table below it, nor before one above it, and the wide tables
/// stand from the top down.
pub open spec fn is_divided_by(
    all: Seq<ItemView>,
    wide: spec_fn(ItemView) -> bool,
    height: spec_fn(ItemView) -> int,
) -> bool {
    forall|i: int, j: int|
        0 <= i < j < all.len() ==> {
            let a = #[trigger] all[i];
            let b = #[trigger] all[j];
            &&& !wide(a) && wide(b) ==> height(b) < height(a)
            &&& wide(a) && !wide(b) ==> height(b) <= height(a)
            &&& wide(a) && wide(b) ==> height(b) <= height(a)
        }
}

proof fn lemma_divided(
    band: Seq<ItemView>,
    first: ItemView,
    rest: Seq<ItemView>,
    wide: spec_fn(ItemView) -> bool,
    height: spec_fn(ItemView) -> int,
)
    requires
        is_divided_by(rest, wide, height),
        wide(first),
        forall|i: int| 0 <= i < band.len() ==> !wide(#[trigger] band[i]),
        forall|i: int| 0 <= i < band.len() ==> height(first) < height(#[trigger] band[i]),
        forall|i: int| 0 <= i < rest.len() ==> height(#[trigger] rest[i]) <= height(first),
    ensures
        is_divided_by(band.push(first) + rest, wide, height),
{
    let all = band.push(first) + rest;
    let n = band.len();
    assert forall|i: int, j: int| 0 <= i < j < all.len() implies {
        let a = #[trigger] all[i];
        let b = #[trigger] all[j];
        &&& !wide(a) && wide(b) ==> height(b) < height(a)
        &&& wide(a) && !wide(b) ==> height(b) <= height(a)
        &&& wide(a) && wide(b) ==> height(b) <= height(a)
    } by {
        if i < n {
            assert(all[i] == band[i]);
        } else if i > n {
            assert(all[i] == rest[i - n - 1]);
        }
        if j < n {
            assert(all[j] == band[j]);
        } else if j > n {
            assert(all[j] == rest[j - n - 1]);
        }
    }
}

spec fn known_and_down(tops: Seq<Binary32>) -> bool {
    &&& forall|i: int| 0 <= i < tops.len() ==> is_known(#[trigger] tops[i])
    &&& forall|i: int, j: int|
        0 <= i < j < tops.len() ==> height_of(#[trigger] tops[j]) <= height_of(#[trigger] tops[i])
}

proof fn lemma_down_skip(tops: Seq<Binary32>, n: int)
    requires
        known_and_down(tops),
        0 <= n <= tops.len(),
    ensures
        known_and_down(tops.skip(n)),
{
    let rest = tops.skip(n);
    assert forall|i: int| 0 <= i < rest.len() implies is_known(#[trigger] rest[i]) by {
        assert(rest[i] == tops[n + i]);
    }
    assert forall|i: int, j: int| 0 <= i < j < rest.len() implies height_of(#[trigger] rest[j])
        <= height_of(#[trigger] rest[i]) by {
        assert(rest[i] == tops[n + i] && rest[j] == tops[n + j]);
    }
}

proof fn lemma_bands_divide(
    wide: Seq<TableView>,
    lines: Seq<LineView>,
    tables: Seq<TableView>,
    gutter: Binary32,
    is_wide: spec_fn(ItemView) -> bool,
    height: spec_fn(ItemView) -> int,
)
    requires
        height == (|v: ItemView| height_of(v.visual_top())),
        forall|l: LineView| !(#[trigger] is_wide(ItemView::Line(l))),
        forall|i: int| 0 <= i < wide.len() ==> is_wide(ItemView::Table(#[trigger] wide[i])),
        forall|i: int| 0 <= i < tables.len() ==> !is_wide(ItemView::Table(#[trigger] tables[i])),
        known_and_down(line_tops(lines)),
        known_and_down(table_tops(tables)),
        known_and_down(table_tops(wide)),
    ensures
        is_divided_by(bands_order(wide, lines, tables, gutter), is_wide, height),
    decreases wide.len(),
{
    let all = bands_order(wide, lines, tables, gutter);
    if wide.len() == 0 {
        lemma_band_keeps(lines, tables, gutter);
        assert(table_items(wide) =~= Seq::empty());
        lemma_bands_keep(wide, lines, tables, gutter);
        assert forall|i: int| 0 <= i < all.len() implies !is_wide(#[trigger] all[i]) by {
            lemma_stock(all, lines, tables, wide, i);
            lemma_not_wide(all[i], lines, tables, wide, is_wide);
        }
    } else {
        let top = wide[0].visual_top();
        assert(table_tops(wide)[0] == top);
        lemma_lead(line_tops(lines), top);
        lemma_lead(table_tops(tables), top);
        let n = lead(line_tops(lines), top) as int;
        let m = lead(table_tops(tables), top) as int;
        let none: Seq<TableView> = Seq::empty();
        let upper = lines.take(n);
        let upper_tables = tables.take(m);
        let lower = lines.skip(n);
        let lower_tables = tables.skip(m);
        let band = band_order(upper, upper_tables, gutter);
        let first = ItemView::Table(wide[0]);
        let rest = bands_order(wide.skip(1), lower, lower_tables, gutter);
        lemma_down_skip(line_tops(lines), n);
        lemma_down_skip(table_tops(tables), m);
        lemma_down_skip(table_tops(wide), 1);
        assert(line_tops(lower) =~= line_tops(lines).skip(n));
        assert(table_tops(lower_tables) =~= table_tops(tables).skip(m));
        assert(table_tops(wide.skip(1)) =~= table_tops(wide).skip(1));
        lemma_bands_divide(wide.skip(1), lower, lower_tables, gutter, is_wide, height);
        lemma_bands_keep(none, upper, upper_tables, gutter);
        lemma_bands_keep(wide.skip(1), lower, lower_tables, gutter);
        assert forall|i: int| 0 <= i < band.len() implies !is_wide(#[trigger] band[i]) && height(
            first,
        ) < height(band[i]) by {
            lemma_stock(band, upper, upper_tables, none, i);
            match band[i] {
                ItemView::Line(line) => {
                    let k = choose|k: int| 0 <= k < upper.len() && upper[k] == line;
                    assert(line_tops(lines)[k] == line.visual_top());
                },
                ItemView::Table(table) => {
                    let u = upper_tables + none;
                    let k = choose|k: int| 0 <= k < u.len() && u[k] == table;
                    assert(tables[k] == table);
                    assert(table_tops(tables)[k] == table.visual_top());
                },
            }
        }
        assert forall|i: int| 0 <= i < rest.len() implies height(#[trigger] rest[i]) <= height(
            first,
        ) by {
            lemma_stock(rest, lower, lower_tables, wide.skip(1), i);
            match rest[i] {
                ItemView::Line(line) => {
                    let k = choose|k: int| 0 <= k < lower.len() && lower[k] == line;
                    assert(line_tops(lines)[n + k] == line.visual_top());
                },
                ItemView::Table(table) => {
                    let u = lower_tables + wide.skip(1);
                    let k = choose|k: int| 0 <= k < u.len() && u[k] == table;
                    if k < lower_tables.len() {
                        assert(table_tops(tables)[m + k] == table.visual_top());
                    } else {
                        let w = k - lower_tables.len() + 1;
                        assert(table_tops(wide)[w] == table.visual_top());
                        assert(height_of(table_tops(wide)[w]) <= height_of(table_tops(wide)[0]));
                    }
                },
            }
        }
        lemma_divided(band, first, rest, is_wide, height);
    }
}

proof fn lemma_not_wide(
    item: ItemView,
    lines: Seq<LineView>,
    tables: Seq<TableView>,
    wide: Seq<TableView>,
    is_wide: spec_fn(ItemView) -> bool,
)
    requires
        is_among(item, lines, tables + wide),
        wide.len() == 0,
        forall|l: LineView| !(#[trigger] is_wide(ItemView::Line(l))),
        forall|i: int| 0 <= i < tables.len() ==> !is_wide(ItemView::Table(#[trigger] tables[i])),
    ensures
        !is_wide(item),
{
    if let ItemView::Table(table) = item {
        let u = tables + wide;
        let k = choose|k: int| 0 <= k < u.len() && u[k] == table;
        assert(tables[k] == table);
    }
}

proof fn lemma_tops_down(tops: Seq<Binary32>)
    requires
        forall|i: int| 0 <= i < tops.len() ==> is_known(#[trigger] tops[i]),
        forall|i: int, j: int|
            0 <= i < j < tops.len() ==> (#[trigger] tops[j]).spec_order() <= (
            #[trigger] tops[i]).spec_order(),
    ensures
        known_and_down(tops),
{
    assert forall|i: int, j: int| 0 <= i < j < tops.len() implies height_of(#[trigger] tops[j])
        <= height_of(#[trigger] tops[i]) by {
        lemma_above(tops[j], tops[i]);
    }
}

proof fn lemma_lines_down(lines: Seq<LineView>)
    requires
        forall|i: int| 0 <= i < lines.len() ==> is_known((#[trigger] lines[i]).visual_top()),
    ensures
        known_and_down(line_tops(order::arranged::<LayoutLine>(lines, SortBy::TopThenLeft))),
{
    let key = |v: LineView| LayoutLine::place(v, SortBy::TopThenLeft);
    let all = order::arranged::<LayoutLine>(lines, SortBy::TopThenLeft);
    let tops = line_tops(all);
    order::sorting_orders(lines, key);
    assert forall|i: int| 0 <= i < tops.len() implies is_known(#[trigger] tops[i]) by {
        broadcast use vstd::seq_lib::group_to_multiset_ensures;

        assert(all.contains(all[i]));
        assert(all.to_multiset().count(all[i]) > 0);
        assert(lines.contains(all[i]));
        let k = choose|k: int| 0 <= k < lines.len() && lines[k] == all[i];
        assert(is_known(lines[k].visual_top()));
    }
    assert forall|i: int, j: int| 0 <= i < j < tops.len() implies (#[trigger] tops[j]).spec_order()
        <= (#[trigger] tops[i]).spec_order() by {
        assert(!order::before(key(all[j]), key(all[i])));
    }
    lemma_tops_down(tops);
}

proof fn lemma_tables_down(tables: Seq<TableView>, p: spec_fn(TableView) -> bool)
    requires
        forall|i: int| 0 <= i < tables.len() ==> is_known((#[trigger] tables[i]).visual_top()),
    ensures
        known_and_down(table_tops(order::arranged::<LayoutTable>(tables.filter(p), SortBy::Top))),
        forall|i: int|
            0 <= i < order::arranged::<LayoutTable>(tables.filter(p), SortBy::Top).len() ==> p(
                #[trigger] order::arranged::<LayoutTable>(tables.filter(p), SortBy::Top)[i],
            ),
{
    let key = |v: TableView| LayoutTable::place(v, SortBy::Top);
    let kept = tables.filter(p);
    let all = order::arranged::<LayoutTable>(kept, SortBy::Top);
    let tops = table_tops(all);
    order::sorting_orders(kept, key);
    assert forall|i: int| 0 <= i < all.len() implies p(#[trigger] all[i]) && is_known(
        all[i].visual_top(),
    ) by {
        broadcast use vstd::seq_lib::group_to_multiset_ensures;
        broadcast use vstd::seq_lib::group_filter_ensures;

        assert(all.contains(all[i]));
        assert(all.to_multiset().count(all[i]) > 0);
        assert(kept.contains(all[i]));
        let f = choose|f: int| 0 <= f < kept.len() && kept[f] == all[i];
        crate::pdf::lemma_filter_source(tables, p, f);
        let k = choose|k: int| 0 <= k < tables.len() && tables[k] == all[i];
        assert(is_known(tables[k].visual_top()));
    }
    assert forall|i: int| 0 <= i < tops.len() implies is_known(#[trigger] tops[i]) by {
        assert(tops[i] == all[i].visual_top());
    }
    assert forall|i: int, j: int| 0 <= i < j < tops.len() implies (#[trigger] tops[j]).spec_order()
        <= (#[trigger] tops[i]).spec_order() by {
        assert(!order::before(key(all[j]), key(all[i])));
    }
    lemma_tops_down(tops);
}

/// A table that reaches over both columns divides its page: all that is read before it lies above
/// its upper edge, and nothing that is read behind it does. Such tables are read from the top down.
pub proof fn wide_tables_divide_their_page(
    lines: Seq<LineView>,
    tables: Seq<TableView>,
    gutter: Binary32,
    i: int,
    j: int,
)
    requires
        forall|k: int| 0 <= k < lines.len() ==> is_known((#[trigger] lines[k]).visual_top()),
        forall|k: int| 0 <= k < tables.len() ==> is_known((#[trigger] tables[k]).visual_top()),
        0 <= i < j < page_order(lines, tables, Some(gutter)).len(),
    ensures
        ({
            let a = page_order(lines, tables, Some(gutter))[i];
            let b = page_order(lines, tables, Some(gutter))[j];
            let wide = |v: ItemView|
                match v {
                    ItemView::Line(_) => false,
                    ItemView::Table(t) => t.x.spec_less(gutter) && gutter.spec_less(
                        t.x.spec_plus(t.width),
                    ),
                };
            &&& !wide(a) && wide(b) ==> b.visual_top().spec_less(a.visual_top())
            &&& wide(a) ==> !a.visual_top().spec_less(b.visual_top())
        }),
{
    let wide = |v: ItemView|
        match v {
            ItemView::Line(_) => false,
            ItemView::Table(t) => t.x.spec_less(gutter) && gutter.spec_less(t.x.spec_plus(t.width)),
        };
    let height = |v: ItemView| height_of(v.visual_top());
    let p = |t: TableView| full_width(t, gutter);
    let q = |t: TableView| !full_width(t, gutter);
    lemma_lines_down(lines);
    lemma_tables_down(tables, p);
    lemma_tables_down(tables, q);
    let across = order::arranged::<LayoutTable>(tables.filter(p), SortBy::Top);
    let others = order::arranged::<LayoutTable>(tables.filter(q), SortBy::Top);
    let ordered = order::arranged::<LayoutLine>(lines, SortBy::TopThenLeft);
    assert forall|k: int| 0 <= k < across.len() implies wide(
        ItemView::Table(#[trigger] across[k]),
    ) by {
        assert(p(across[k]));
    }
    assert forall|k: int| 0 <= k < others.len() implies !wide(
        ItemView::Table(#[trigger] others[k]),
    ) by {
        assert(q(others[k]));
    }
    lemma_bands_divide(across, ordered, others, gutter, wide, height);
    let all = page_order(lines, tables, Some(gutter));
    assert(is_divided_by(all, wide, height));
    reading_order_keeps_all(lines, tables, Some(gutter));
    lemma_tops_known(all, lines, tables, i);
    lemma_tops_known(all, lines, tables, j);
    lemma_above(all[i].visual_top(), all[j].visual_top());
    lemma_above(all[j].visual_top(), all[i].visual_top());
    assert(height(all[i]) == height_of(all[i].visual_top()));
    assert(height(all[j]) == height_of(all[j].visual_top()));
}

proof fn lemma_tops_known(
    all: Seq<ItemView>,
    lines: Seq<LineView>,
    tables: Seq<TableView>,
    k: int,
)
    requires
        all.to_multiset() == stock(lines, tables),
        0 <= k < all.len(),
        forall|i: int| 0 <= i < lines.len() ==> is_known((#[trigger] lines[i]).visual_top()),
        forall|i: int| 0 <= i < tables.len() ==> is_known((#[trigger] tables[i]).visual_top()),
    ensures
        is_known(all[k].visual_top()),
{
    let none: Seq<TableView> = Seq::empty();
    assert(table_items(none) =~= Seq::empty());
    assert(stock(lines, tables).add(table_items(none).to_multiset()) =~= stock(lines, tables)) by {
        broadcast use vstd::seq_lib::group_to_multiset_ensures;

    }
    lemma_stock(all, lines, tables, none, k);
    match all[k] {
        ItemView::Line(line) => {
            let i = choose|i: int| 0 <= i < lines.len() && lines[i] == line;
            assert(is_known(lines[i].visual_top()));
        },
        ItemView::Table(table) => {
            let u = tables + none;
            let i = choose|i: int| 0 <= i < u.len() && u[i] == table;
            assert(tables[i] == table);
        },
    }
}

#[verifier::spinoff_prover]
proof fn lemma_rows_are_runs(lines: Seq<LineView>)
    ensures
        rows_of(lines) == order::runs(lines, |a: LineView, b: LineView| geometry::level(a, b)),
    decreases lines.len(),
{
    if lines.len() > 0 {
        lemma_rows_are_runs(lines.drop_last());
    }
}

/// The rows of lines, one behind another, are the lines again; none is empty. In a row each line is
/// level with the one before it, and no row begins with a line that is level with the last one of
/// the row before it.
pub proof fn rows_hold_level_lines(lines: Seq<LineView>)
    ensures
        rows_of(lines).flatten() == lines,
        order::are_runs(rows_of(lines), |a: LineView, b: LineView| geometry::level(a, b)),
{
    lemma_rows_are_runs(lines);
    order::runs_hold_neighbours(lines, |a: LineView, b: LineView| geometry::level(a, b));
}

proof fn lemma_last_replaced<V>(s: Seq<V>, v: V)
    requires
        s.len() > 0,
    ensures
        s.drop_last().push(v).len() == s.len(),
        s.drop_last().push(v).drop_last() == s.drop_last(),
        s.drop_last().push(v).last() == v,
{
    assert(s.drop_last().push(v).drop_last() =~= s.drop_last());
}

proof fn lemma_last_dropped<V>(s: Seq<V>, v: V)
    ensures
        s.push(v).drop_last() == s,
        s.push(v).last() == v,
{
    assert(s.push(v).drop_last() =~= s);
}

/// A row is put together from left to right: the next part is joined to the last one where it
/// adjoins it, and else begins a line of its own.
#[verifier::spinoff_prover]
#[verifier::rlimit(60)]
pub proof fn rows_are_put_together_from_the_left(row: Seq<LineView>, part: LineView)
    ensures
        ({
            let before = row_merged(row);
            let after = row_merged(row.push(part));
            if before.len() > 0 && geometry::adjoins(before.last(), part) {
                &&& after.len() == before.len()
                &&& after.drop_last() == before.drop_last()
                &&& after.last().text == fragments::appended(before.last().text, part.text)
            } else {
                after == before.push(part)
            }
        }),
{
    lemma_last_dropped(row, part);
    let before = row_merged(row);
    if before.len() > 0 {
        lemma_last_replaced(before, joined_line(before.last(), part));
    }
}

/// Whether of any two items with none of a kind among them and between them the first may come before
/// the second.
pub open spec fn fits_between(
    all: Seq<ItemView>,
    wide: spec_fn(ItemView) -> bool,
    fits: spec_fn(ItemView, ItemView) -> bool,
) -> bool {
    forall|i: int, j: int|
        0 <= i < j < all.len() && (forall|k: int| i <= k <= j ==> !wide(#[trigger] all[k])) ==> fits(
            #[trigger] all[i],
            #[trigger] all[j],
        )
}

proof fn lemma_fits_between(
    band: Seq<ItemView>,
    first: ItemView,
    rest: Seq<ItemView>,
    wide: spec_fn(ItemView) -> bool,
    fits: spec_fn(ItemView, ItemView) -> bool,
)
    requires
        wide(first),
        forall|i: int, j: int|
            0 <= i < j < band.len() ==> fits(#[trigger] band[i], #[trigger] band[j]),
        fits_between(rest, wide, fits),
    ensures
        fits_between(band.push(first) + rest, wide, fits),
{
    let all = band.push(first) + rest;
    let n = band.len() as int;
    assert forall|i: int, j: int|
        0 <= i < j < all.len() && (forall|k: int| i <= k <= j ==> !wide(
            #[trigger] all[k],
        )) implies fits(#[trigger] all[i], #[trigger] all[j]) by {
        assert(all[n] == first);
        if j < n {
            assert(all[i] == band[i] && all[j] == band[j]);
        } else {
            assert(i > n);
            let x = i - n - 1;
            let y = j - n - 1;
            assert(all[i] == rest[x] && all[j] == rest[y]);
            assert forall|k: int| x <= k <= y implies !wide(#[trigger] rest[k]) by {
                assert(all[k + n + 1] == rest[k]);
            }
        }
    }
}

proof fn lemma_bands_read_left_first(
    across: Seq<TableView>,
    lines: Seq<LineView>,
    tables: Seq<TableView>,
    gutter: Binary32,
    wide: spec_fn(ItemView) -> bool,
    fits: spec_fn(ItemView, ItemView) -> bool,
)
    requires
        fits == (|a: ItemView, b: ItemView| may_be_read_before(a, b, gutter)),
        forall|i: int| 0 <= i < across.len() ==> wide(ItemView::Table(#[trigger] across[i])),
    ensures
        fits_between(bands_order(across, lines, tables, gutter), wide, fits),
    decreases across.len(),
{
    if across.len() == 0 {
        let all = band_order(lines, tables, gutter);
        assert forall|i: int, j: int| 0 <= i < j < all.len() implies fits(
            #[trigger] all[i],
            #[trigger] all[j],
        ) by {
            lemma_band_reads_left_first(lines, tables, gutter, i, j);
        }
    } else {
        let top = across[0].visual_top();
        let n = lead(line_tops(lines), top) as int;
        let m = lead(table_tops(tables), top) as int;
        let upper = lines.take(n);
        let upper_tables = tables.take(m);
        let band = band_order(upper, upper_tables, gutter);
        let rest = bands_order(across.skip(1), lines.skip(n), tables.skip(m), gutter);
        assert forall|i: int| 0 <= i < across.skip(1).len() implies wide(
            ItemView::Table(#[trigger] across.skip(1)[i]),
        ) by {
            assert(across.skip(1)[i] == across[i + 1]);
        }
        lemma_bands_read_left_first(
            across.skip(1),
            lines.skip(n),
            tables.skip(m),
            gutter,
            wide,
            fits,
        );
        assert forall|i: int, j: int| 0 <= i < j < band.len() implies fits(
            #[trigger] band[i],
            #[trigger] band[j],
        ) by {
            lemma_band_reads_left_first(upper, upper_tables, gutter, i, j);
        }
        assert(wide(ItemView::Table(across[0])));
        lemma_fits_between(band, ItemView::Table(across[0]), rest, wide, fits);
    }
}

/// Between tables that reach over both columns, too, what stands on the left is read before what
/// stands on the right, and each side from the top down.
pub proof fn columns_between_tables_read_left_first(
    lines: Seq<LineView>,
    tables: Seq<TableView>,
    gutter: Binary32,
    i: int,
    j: int,
)
    requires
        0 <= i < j < page_order(lines, tables, Some(gutter)).len(),
        forall|k: int|
            i <= k <= j ==> match #[trigger] page_order(lines, tables, Some(gutter))[k] {
                ItemView::Line(_) => true,
                ItemView::Table(t) => !(t.x.spec_less(gutter) && gutter.spec_less(
                    t.x.spec_plus(t.width),
                )),
            },
    ensures
        may_be_read_before(
            page_order(lines, tables, Some(gutter))[i],
            page_order(lines, tables, Some(gutter))[j],
            gutter,
        ),
{
    let wide = |v: ItemView|
        match v {
            ItemView::Line(_) => false,
            ItemView::Table(t) => t.x.spec_less(gutter) && gutter.spec_less(t.x.spec_plus(t.width)),
        };
    let fits = |a: ItemView, b: ItemView| may_be_read_before(a, b, gutter);
    let p = |t: TableView| full_width(t, gutter);
    let across = order::arranged::<LayoutTable>(tables.filter(p), SortBy::Top);
    let others = order::arranged::<LayoutTable>(
        tables.filter(|t: TableView| !full_width(t, gutter)),
        SortBy::Top,
    );
    let ordered = order::arranged::<LayoutLine>(lines, SortBy::TopThenLeft);
    lemma_arranged_keep(tables, p);
    assert forall|k: int| 0 <= k < across.len() implies wide(
        ItemView::Table(#[trigger] across[k]),
    ) by {
        assert(p(across[k]));
    }
    lemma_bands_read_left_first(across, ordered, others, gutter, wide, fits);
    let all = page_order(lines, tables, Some(gutter));
    assert forall|k: int| i <= k <= j implies !wide(#[trigger] all[k]) by {}
    assert(fits(all[i], all[j]));
}

proof fn lemma_arranged_keep(tables: Seq<TableView>, p: spec_fn(TableView) -> bool)
    ensures
        forall|i: int|
            0 <= i < order::arranged::<LayoutTable>(tables.filter(p), SortBy::Top).len() ==> p(
                #[trigger] order::arranged::<LayoutTable>(tables.filter(p), SortBy::Top)[i],
            ),
{
    let key = |v: TableView| LayoutTable::place(v, SortBy::Top);
    let kept = tables.filter(p);
    let all = order::arranged::<LayoutTable>(kept, SortBy::Top);
    order::sorting_orders(kept, key);
    assert forall|i: int| 0 <= i < all.len() implies p(#[trigger] all[i]) by {
        broadcast use vstd::seq_lib::group_to_multiset_ensures;
        broadcast use vstd::seq_lib::group_filter_ensures;

        assert(all.contains(all[i]));
        assert(all.to_multiset().count(all[i]) > 0);
        assert(kept.contains(all[i]));
    }
}

} // verus!
