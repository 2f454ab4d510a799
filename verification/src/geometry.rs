//! Lines and tables with their places on a page.
//!
//! Coordinates are those of PDF: `y` is the lower edge and grows towards the top of the page.
use crate::binary::Binary32;
use crate::blocks;
use crate::order;
use crate::order::{Placed, SortBy};
use vstd::prelude::*;

verus! {

/// A line of text with its place on the page.
#[derive(Debug, Clone)]
pub struct LayoutLine {
    pub text: String,
    pub x: Binary32,
    pub y: Binary32,
    pub width: Binary32,
    pub height: Binary32,
    pub font_size: Binary32,
    pub heading_level: Option<u8>,
}

/// A table with its place on the page.
#[derive(Debug, Clone)]
pub struct LayoutTable {
    pub x: Binary32,
    pub y: Binary32,
    pub width: Binary32,
    pub height: Binary32,
    pub rows: Vec<Vec<String>>,
    pub has_header: bool,
}

/// A line or a table.
#[derive(Debug, Clone)]
pub enum Item {
    Line(LayoutLine),
    Table(LayoutTable),
}

/// What a line stands for.
pub struct LineView {
    pub text: Seq<char>,
    pub x: Binary32,
    pub y: Binary32,
    pub width: Binary32,
    pub height: Binary32,
    pub font_size: Binary32,
    pub heading_level: Option<u8>,
}

/// What a table stands for.
pub struct TableView {
    pub x: Binary32,
    pub y: Binary32,
    pub width: Binary32,
    pub height: Binary32,
    pub rows: blocks::Grid,
    pub has_header: bool,
}

pub enum ItemView {
    Line(LineView),
    Table(TableView),
}

impl View for LayoutLine {
    type V = LineView;

    open spec fn view(&self) -> LineView {
        LineView {
            text: self.text@,
            x: self.x,
            y: self.y,
            width: self.width,
            height: self.height,
            font_size: self.font_size,
            heading_level: self.heading_level,
        }
    }
}

impl View for LayoutTable {
    type V = TableView;

    open spec fn view(&self) -> TableView {
        TableView {
            x: self.x,
            y: self.y,
            width: self.width,
            height: self.height,
            rows: blocks::grid(self.rows@),
            has_header: self.has_header,
        }
    }
}

impl View for Item {
    type V = ItemView;

    open spec fn view(&self) -> ItemView {
        match self {
            Item::Line(line) => ItemView::Line(line@),
            Item::Table(table) => ItemView::Table(table@),
        }
    }
}

// Numbers, by their bits.

/// 0
pub const ZERO: u32 = 0x0000_0000;

/// 1, the least size that is taken for an em.
pub const MIN_EM: u32 = 0x3f80_0000;

/// 2
pub const TWO: u32 = 0x4000_0000;

pub const INFINITY: u32 = 0x7f80_0000;

pub const NEGATIVE_INFINITY: u32 = 0xff80_0000;

/// 1.25: how much larger than the text a heading is.
pub const HEADING_SIZE_RATIO: u32 = 0x3fa0_0000;

/// 0.4: the part of a line that a table may cover.
pub const OVERLAP_DROP: u32 = 0x3ecc_cccd;

/// 0.9: how far apart the tops of one line may be, in its height.
pub const SAME_LINE_TOP_RATIO: u32 = 0x3f66_6666;

/// 2: the indent, in em, that begins a paragraph.
pub const INDENT_BREAK_EM: u32 = 0x4000_0000;

/// 1.8: the gap, in leadings, that ends a paragraph.
pub const LEADING_BREAK_RATIO: u32 = 0x3fe6_6666;

/// 0.75: the least such gap, in heights of a line.
pub const MIN_BREAK_HEIGHT_RATIO: u32 = 0x3f40_0000;

/// 0.5: how far, in em, a line that goes on may end before the edge of its frame.
pub const WRAP_FILL_EM: u32 = 0x3f00_0000;

/// 0.95: the part of the right edges that a frame takes in.
pub const FRAME_RIGHT_PERCENTILE: u32 = 0x3f73_3333;

/// 200: the least width of a page with two columns.
pub const MIN_PAGE_WIDTH_FOR_GUTTER: u32 = 0x4348_0000;

/// 0.08: half of the gutter's width, in widths of the page.
pub const GUTTER_BAND_RATIO: u32 = 0x3da3_d70a;

/// 12: the size of a text that gives none.
pub const DEFAULT_MEDIAN_SIZE: u32 = 0x4140_0000;

pub open spec fn num(bits: u32) -> Binary32 {
    Binary32 { bits }
}

/// The least number of lines of a page with two columns.
pub const MIN_LINES_FOR_GUTTER: usize = 8;

/// One line in so many may cross the gutter.
pub const MAX_GUTTER_CROSSING_DENOM: usize = 10;

/// The least number of lines of a column.
pub const MIN_COLUMN_LINES: usize = 3;

pub(crate) fn number(bits: u32) -> (r: Binary32)
    ensures
        r == num(bits),
{
    Binary32 { bits }
}

impl LineView {
    pub open spec fn right(self) -> Binary32 {
        self.x.spec_plus(self.width)
    }

    pub open spec fn bottom(self) -> Binary32 {
        self.y.spec_plus(self.height)
    }

    pub open spec fn visual_top(self) -> Binary32 {
        self.y.spec_plus(self.height)
    }

    pub open spec fn center_x(self) -> Binary32 {
        self.x.spec_plus(self.width.spec_over(num(TWO)))
    }
}

impl TableView {
    pub open spec fn right(self) -> Binary32 {
        self.x.spec_plus(self.width)
    }

    pub open spec fn bottom(self) -> Binary32 {
        self.y.spec_plus(self.height)
    }

    pub open spec fn visual_top(self) -> Binary32 {
        self.y.spec_plus(self.height)
    }

    pub open spec fn center_x(self) -> Binary32 {
        self.x.spec_plus(self.width.spec_over(num(TWO)))
    }
}

impl ItemView {
    pub open spec fn visual_top(self) -> Binary32 {
        match self {
            ItemView::Line(line) => line.visual_top(),
            ItemView::Table(table) => table.visual_top(),
        }
    }

    pub open spec fn x(self) -> Binary32 {
        match self {
            ItemView::Line(line) => line.x,
            ItemView::Table(table) => table.x,
        }
    }
}

impl LayoutLine {
    pub fn right(&self) -> (r: Binary32)
        ensures
            r == self@.right(),
    {
        self.x.plus(self.width)
    }

    pub fn bottom(&self) -> (r: Binary32)
        ensures
            r == self@.bottom(),
    {
        self.y.plus(self.height)
    }

    pub fn center_x(&self) -> (r: Binary32)
        ensures
            r == self@.center_x(),
    {
        self.x.plus(self.width.over(number(TWO)))
    }

    /// The upper edge, as it is seen.
    pub fn visual_top(&self) -> (r: Binary32)
        ensures
            r == self@.visual_top(),
    {
        self.y.plus(self.height)
    }
}

impl LayoutTable {
    pub fn right(&self) -> (r: Binary32)
        ensures
            r == self@.right(),
    {
        self.x.plus(self.width)
    }

    pub fn bottom(&self) -> (r: Binary32)
        ensures
            r == self@.bottom(),
    {
        self.y.plus(self.height)
    }

    /// The upper edge, as it is seen.
    pub fn visual_top(&self) -> (r: Binary32)
        ensures
            r == self@.visual_top(),
    {
        self.y.plus(self.height)
    }

    pub(crate) fn center_x(&self) -> (r: Binary32)
        ensures
            r == self@.center_x(),
    {
        self.x.plus(self.width.over(number(TWO)))
    }
}

impl Item {
    fn visual_top(&self) -> (r: Binary32)
        ensures
            r == self@.visual_top(),
    {
        match self {
            Item::Line(line) => line.visual_top(),
            Item::Table(table) => table.visual_top(),
        }
    }

    fn x(&self) -> (r: Binary32)
        ensures
            r == self@.x(),
    {
        match self {
            Item::Line(line) => line.x,
            Item::Table(table) => table.x,
        }
    }
}

/// The numbers that order things with these upper and left edges.
pub open spec fn place_of(top: Binary32, left: Binary32, by: SortBy) -> (int, int) {
    match by {
        SortBy::Top => (-top.spec_order(), 0),
        SortBy::TopThenLeft => (-top.spec_order(), left.spec_order()),
        SortBy::Left => (left.spec_order(), 0),
    }
}

fn key_of(top: Binary32, left: Binary32, by: SortBy) -> (r: (i64, i64))
    ensures
        (r.0 as int, r.1 as int) == place_of(top, left, by),
{
    let down: i64 = top.order();
    match by {
        SortBy::Top => (-down, 0),
        SortBy::TopThenLeft => (-down, left.order()),
        SortBy::Left => (left.order(), 0),
    }
}

impl Placed for LayoutLine {
    open spec fn place(v: LineView, by: SortBy) -> (int, int) {
        place_of(v.visual_top(), v.x, by)
    }

    fn key(&self, by: SortBy) -> (r: (i64, i64)) {
        key_of(self.visual_top(), self.x, by)
    }
}

impl Placed for LayoutTable {
    open spec fn place(v: TableView, by: SortBy) -> (int, int) {
        place_of(v.visual_top(), v.x, by)
    }

    fn key(&self, by: SortBy) -> (r: (i64, i64)) {
        key_of(self.visual_top(), self.x, by)
    }
}

impl Placed for Item {
    open spec fn place(v: ItemView, by: SortBy) -> (int, int) {
        place_of(v.visual_top(), v.x(), by)
    }

    fn key(&self, by: SortBy) -> (r: (i64, i64)) {
        key_of(self.visual_top(), self.x(), by)
    }
}

impl View for Binary32 {
    type V = Binary32;

    open spec fn view(&self) -> Binary32 {
        *self
    }
}

impl Placed for Binary32 {
    open spec fn place(v: Binary32, by: SortBy) -> (int, int) {
        (v.spec_order(), 0)
    }

    fn key(&self, by: SortBy) -> (r: (i64, i64)) {
        (self.order(), 0)
    }
}

/// Numbers from the least to the greatest.
pub open spec fn ascending(values: Seq<Binary32>) -> Seq<Binary32> {
    order::arranged::<Binary32>(values, SortBy::Left)
}

fn sort_numbers(values: Vec<Binary32>) -> (r: Vec<Binary32>)
    ensures
        r@ == ascending(values@),
{
    let ghost given = values@;
    let r = order::sort(values, SortBy::Left);
    assert(order::seen(given) =~= given);
    assert(order::seen(r@) =~= r@);
    r
}

pub open spec fn is_positive(v: Binary32) -> bool {
    v.spec_is_finite() && num(ZERO).spec_less(v)
}

/// The lower median of the positive numbers; 12 where there are none.
pub open spec fn median(values: Seq<Binary32>) -> Binary32 {
    let v = ascending(values.filter(|v: Binary32| is_positive(v)));
    if v.len() == 0 {
        num(DEFAULT_MEDIAN_SIZE)
    } else {
        v[(v.len() - 1) / 2]
    }
}

pub(crate) fn median_of(values: &[Binary32]) -> (r: Binary32)
    ensures
        r == median(values@),
{
    let ghost p = |v: Binary32| is_positive(v);
    let mut kept: Vec<Binary32> = Vec::new();
    for i in 0..values.len()
        invariant
            p == (|v: Binary32| is_positive(v)),
            kept@ == values@.take(i as int).filter(p),
    {
        proof {
            reveal(Seq::filter);
            assert(values@.take(i + 1).drop_last() =~= values@.take(i as int));
        }
        if values[i].is_finite() && number(ZERO).less(values[i]) {
            kept.push(values[i]);
        }
    }
    assert(values@.take(values@.len() as int) =~= values@);
    let ghost positive = kept@;
    let sorted = sort_numbers(kept);
    proof {
        order::sorting_orders(positive, |v: Binary32| Binary32::place(v, SortBy::Left));
    }
    if sorted.len() == 0 {
        return number(DEFAULT_MEDIAN_SIZE);
    }
    let mid: usize = sorted.len() / 2;
    if sorted.len() % 2 == 0 && mid > 0 {
        sorted[mid - 1]
    } else {
        sorted[mid]
    }
}

/// The number below which 95 in 100 of the finite numbers lie; 0 where there are none.
pub open spec fn percentile(values: Seq<Binary32>) -> Binary32 {
    let v = ascending(values.filter(|v: Binary32| v.spec_is_finite()));
    if v.len() == 0 {
        num(ZERO)
    } else {
        let last = (v.len() - 1) as nat;
        let at = Binary32::spec_from_whole(last).spec_times(
            num(FRAME_RIGHT_PERCENTILE),
        ).spec_to_index();
        v[if at < last {
            at
        } else {
            last as int
        }]
    }
}

pub(crate) fn percentile_of(values: &[Binary32]) -> (r: Binary32)
    ensures
        r == percentile(values@),
{
    let ghost p = |v: Binary32| v.spec_is_finite();
    let mut kept: Vec<Binary32> = Vec::new();
    for i in 0..values.len()
        invariant
            p == (|v: Binary32| v.spec_is_finite()),
            kept@ == values@.take(i as int).filter(p),
    {
        proof {
            reveal(Seq::filter);
            assert(values@.take(i + 1).drop_last() =~= values@.take(i as int));
        }
        if values[i].is_finite() {
            kept.push(values[i]);
        }
    }
    assert(values@.take(values@.len() as int) =~= values@);
    let ghost finite = kept@;
    let sorted = sort_numbers(kept);
    proof {
        order::sorting_orders(finite, |v: Binary32| Binary32::place(v, SortBy::Left));
    }
    if sorted.len() == 0 {
        return number(ZERO);
    }
    let last: usize = sorted.len() - 1;
    let at: usize = Binary32::from_whole(last as u64).times(
        number(FRAME_RIGHT_PERCENTILE),
    ).to_index();
    if at < last {
        sorted[at]
    } else {
        sorted[last]
    }
}

/// The part of a line's area that a table covers.
pub open spec fn overlap(line: LineView, table: TableView) -> Binary32 {
    let x0 = line.x.spec_max(table.x);
    let y0 = line.y.spec_max(table.y);
    let x1 = line.right().spec_min(table.right());
    let y1 = line.bottom().spec_min(table.bottom());
    let w = x1.spec_minus(x0).spec_max(num(ZERO));
    let h = y1.spec_minus(y0).spec_max(num(ZERO));
    let area = line.width.spec_times(line.height);
    if area.spec_at_most(num(ZERO)) {
        num(ZERO)
    } else {
        w.spec_times(h).spec_over(area)
    }
}

pub fn overlap_fraction(line: &LayoutLine, table: &LayoutTable) -> (r: Binary32)
    ensures
        r == overlap(line@, table@),
{
    let x0 = line.x.max(table.x);
    let y0 = line.y.max(table.y);
    let x1 = line.right().min(table.right());
    let y1 = line.bottom().min(table.bottom());
    let w = x1.minus(x0).max(number(ZERO));
    let h = y1.minus(y0).max(number(ZERO));
    let area = line.width.times(line.height);
    if area.at_most(number(ZERO)) {
        number(ZERO)
    } else {
        w.times(h).over(area)
    }
}

/// The larger of two heights, and at least an em.
pub open spec fn common_height(a: LineView, b: LineView) -> Binary32 {
    a.height.spec_max(b.height).spec_max(num(MIN_EM))
}

fn shared_height(a: &LayoutLine, b: &LayoutLine) -> (r: Binary32)
    ensures
        r == common_height(a@, b@),
{
    a.height.max(b.height).max(number(MIN_EM))
}

/// Whether two lines stand at the same height.
pub open spec fn level(a: LineView, b: LineView) -> bool {
    a.visual_top().spec_minus(b.visual_top()).spec_abs().spec_less(
        common_height(a, b).spec_times(num(SAME_LINE_TOP_RATIO)),
    )
}

pub(crate) fn is_level(a: &LayoutLine, b: &LayoutLine) -> (r: bool)
    ensures
        r == level(a@, b@),
{
    let h = shared_height(a, b);
    a.visual_top().minus(b.visual_top()).abs().less(h.times(number(SAME_LINE_TOP_RATIO)))
}

/// Whether a line begins no farther to the right than a height behind the other's end.
pub open spec fn adjoins(a: LineView, b: LineView) -> bool {
    b.x.spec_at_most(a.right().spec_plus(common_height(a, b)))
}

pub(crate) fn does_adjoin(a: &LayoutLine, b: &LayoutLine) -> (r: bool)
    ensures
        r == adjoins(a@, b@),
{
    let h = shared_height(a, b);
    b.x.at_most(a.right().plus(h))
}

/// Whether two fragments are parts of one line.
pub open spec fn same_line(a: LineView, b: LineView) -> bool {
    &&& level(a, b)
    &&& adjoins(a, b)
    &&& a.x.spec_minus(common_height(a, b)).spec_at_most(b.x)
}

pub fn is_same_line(prev: &LayoutLine, next: &LayoutLine) -> (r: bool)
    ensures
        r == same_line(prev@, next@),
{
    let h = shared_height(prev, next);
    is_level(prev, next) && does_adjoin(prev, next) && prev.x.minus(h).at_most(next.x)
}

/// Whether a line is a heading: it is marked as one, or it is large beside the text.
pub open spec fn heading(line: LineView, median_size: Binary32) -> bool {
    ||| line.heading_level is Some
    ||| {
        &&& num(ZERO).spec_less(median_size)
        &&& num(HEADING_SIZE_RATIO).spec_times(median_size).spec_at_most(
            line.font_size.spec_max(line.height),
        )
    }
}

pub fn is_heading(line: &LayoutLine, median_size: Binary32) -> (r: bool)
    ensures
        r == heading(line@, median_size),
{
    if line.heading_level.is_some() {
        return true;
    }
    let size = line.font_size.max(line.height);
    number(ZERO).less(median_size) && number(HEADING_SIZE_RATIO).times(median_size).at_most(size)
}

/// The gap that ends a paragraph.
pub open spec fn break_gap(leading: Binary32, median_size: Binary32) -> Binary32 {
    num(LEADING_BREAK_RATIO).spec_times(leading.spec_max(num(ZERO))).spec_max(
        num(MIN_BREAK_HEIGHT_RATIO).spec_times(median_size.spec_max(num(MIN_EM))),
    )
}

pub fn paragraph_break_threshold(leading: Binary32, median_size: Binary32) -> (r: Binary32)
    ensures
        r == break_gap(leading, median_size),
{
    let height = median_size.max(number(MIN_EM));
    number(LEADING_BREAK_RATIO).times(leading.max(number(ZERO))).max(
        number(MIN_BREAK_HEIGHT_RATIO).times(height),
    )
}

/// The gap between a line and the one below it.
pub open spec fn gap(upper: LineView, lower: LineView) -> Binary32 {
    upper.y.spec_minus(lower.visual_top()).spec_max(num(ZERO))
}

pub(crate) fn gap_between(upper: &LayoutLine, lower: &LayoutLine) -> (r: Binary32)
    ensures
        r == gap(upper@, lower@),
{
    upper.y.minus(lower.visual_top()).max(number(ZERO))
}

/// Whether a line goes on with the paragraph whose last line stands before it: it is no heading,
/// and either it is a part of that line, or it stands below it, neither wholly to its left nor
/// indented, without a large gap, and that line reaches to the right edge of its frame.
pub open spec fn continues(
    prev: LineView,
    next: LineView,
    median_size: Binary32,
    leading: Binary32,
    frame_right: Binary32,
) -> bool {
    let em = median_size.spec_max(num(MIN_EM));
    &&& !heading(next, median_size)
    &&& {
        ||| same_line(prev, next)
        ||| {
            &&& !prev.visual_top().spec_minus(next.visual_top()).spec_at_most(num(ZERO))
            &&& !next.right().spec_less(prev.x)
            &&& !num(INDENT_BREAK_EM).spec_times(em).spec_less(next.x.spec_minus(prev.x))
            &&& !break_gap(leading, median_size).spec_less(gap(prev, next))
            &&& frame_right.spec_minus(prev.right()).spec_at_most(num(WRAP_FILL_EM).spec_times(em))
        }
    }
}

pub fn should_continue(
    prev: &LayoutLine,
    next: &LayoutLine,
    median_size: Binary32,
    leading: Binary32,
    frame_right: Binary32,
) -> (r: bool)
    ensures
        r == continues(prev@, next@, median_size, leading, frame_right),
{
    if is_heading(next, median_size) {
        return false;
    }
    if is_same_line(prev, next) {
        return true;
    }
    let dy = prev.visual_top().minus(next.visual_top());
    if dy.at_most(number(ZERO)) {
        return false;
    }
    if next.right().less(prev.x) {
        return false;
    }
    let em = median_size.max(number(MIN_EM));
    if number(INDENT_BREAK_EM).times(em).less(next.x.minus(prev.x)) {
        return false;
    }
    let gap = gap_between(prev, next);
    if paragraph_break_threshold(leading, median_size).less(gap) {
        return false;
    }
    frame_right.minus(prev.right()).at_most(number(WRAP_FILL_EM).times(em))
}

/// The edges of a line and of a table: the right one is the left one and the width, the upper one the
/// lower one and the height, and the middle lies half the width from the left.
pub proof fn edges_are_sums(line: LineView, table: TableView)
    ensures
        line.right() == line.x.spec_plus(line.width),
        line.visual_top() == line.y.spec_plus(line.height),
        line.bottom() == line.visual_top(),
        line.center_x() == line.x.spec_plus(line.width.spec_over(num(0x4000_0000))),
        table.right() == table.x.spec_plus(table.width),
        table.visual_top() == table.y.spec_plus(table.height),
        table.bottom() == table.visual_top(),
        table.center_x() == table.x.spec_plus(table.width.spec_over(num(0x4000_0000))),
{
}

/// Whether numbers stand from the least to the greatest.
pub open spec fn ascends(s: Seq<Binary32>) -> bool {
    forall|i: int, j: int|
        0 <= i < j < s.len() ==> (#[trigger] s[i]).spec_order() <= (#[trigger] s[j]).spec_order()
}

proof fn lemma_ascending(values: Seq<Binary32>)
    ensures
        ascends(ascending(values)),
        ascending(values).to_multiset() == values.to_multiset(),
        ascending(values).len() == values.len(),
{
    let key = |v: Binary32| Binary32::place(v, SortBy::Left);
    order::sorting_orders(values, key);
    let s = ascending(values);
    assert forall|i: int, j: int| 0 <= i < j < s.len() implies (#[trigger] s[i]).spec_order() <= (
    #[trigger] s[j]).spec_order() by {
        assert(!order::before(key(s[j]), key(s[i])));
    }
}

/// The median is the middle one of the positive numbers, put in order, and the lower one of the two
/// in the middle where their number is even. Without positive numbers it is 12.
pub proof fn the_median_stands_in_the_middle(values: Seq<Binary32>)
    ensures
        ({
            let positive = values.filter(
                |v: Binary32| v.spec_is_finite() && num(0).spec_less(v),
            );
            if positive.len() == 0 {
                median(values) == num(0x4140_0000)
            } else {
                exists|s: Seq<Binary32>| #[trigger]
                    ascends(s) && s.to_multiset() == positive.to_multiset() && s.len()
                        == positive.len() && median(values) == s[(s.len() - 1) / 2]
            }
        }),
{
    let p = |v: Binary32| v.spec_is_finite() && num(0).spec_less(v);
    let q = |v: Binary32| is_positive(v);
    assert(p =~= q);
    let positive = values.filter(p);
    lemma_ascending(positive);
    if positive.len() > 0 {
        assert(ascends(ascending(positive)));
    }
}

/// The edge that is taken for that of a frame is one of the finite numbers, put in order: the one
/// behind which the last twentieth of them stands. Without finite numbers it is 0.
pub proof fn the_percentile_leaves_out_the_last(values: Seq<Binary32>)
    ensures
        ({
            let finite = values.filter(|v: Binary32| v.spec_is_finite());
            if finite.len() == 0 {
                percentile(values) == num(0)
            } else {
                let last = (finite.len() - 1) as nat;
                let at = Binary32::spec_from_whole(last).spec_times(
                    num(0x3f73_3333),
                ).spec_to_index();
                exists|s: Seq<Binary32>| #[trigger]
                    ascends(s) && s.to_multiset() == finite.to_multiset() && s.len() == finite.len()
                        && percentile(values) == s[if at < last {
                        at
                    } else {
                        last as int
                    }]
            }
        }),
{
    let finite = values.filter(|v: Binary32| v.spec_is_finite());
    lemma_ascending(finite);
    if finite.len() > 0 {
        assert(ascends(ascending(finite)));
    }
}

/// A line is a heading where it is marked as one, and where its size, the larger one of its type and
/// its height, is at least five quarters of a positive median size. A larger line than a heading by
/// its size is a heading too.
pub proof fn large_lines_are_headings(line: LineView, other: LineView, median_size: Binary32)
    ensures
        heading(line, median_size) <==> line.heading_level is Some || (num(0).spec_less(median_size)
            && num(0x3fa0_0000).spec_times(median_size).spec_at_most(
            line.font_size.spec_max(line.height),
        )),
        heading(line, median_size) && line.heading_level is None && line.font_size.spec_max(
            line.height,
        ).spec_at_most(other.font_size.spec_max(other.height)) ==> heading(other, median_size),
{
}

/// Two lines are parts of one where their tops are less than nine tenths of their height apart and
/// the second one begins at most that height behind the end of the first one, nor so far before its
/// beginning. The height is the larger one of the two, and at least 1.
pub proof fn parts_of_a_line_touch(a: LineView, b: LineView)
    ensures
        ({
            let h = a.height.spec_max(b.height).spec_max(num(0x3f80_0000));
            let apart = a.y.spec_plus(a.height).spec_minus(b.y.spec_plus(b.height)).spec_abs();
            &&& level(a, b) <==> apart.spec_less(h.spec_times(num(0x3f66_6666)))
            &&& adjoins(a, b) <==> b.x.spec_at_most(a.x.spec_plus(a.width).spec_plus(h))
            &&& same_line(a, b) <==> level(a, b) && adjoins(a, b) && a.x.spec_minus(h).spec_at_most(
                b.x,
            )
        }),
{
}

/// What begins a paragraph: a heading does, and of the lines that are no part of the line before
/// them those that do not stand below it, that end before its beginning, that are indented by more
/// than two em, that stand behind a large gap, and those behind a line that ends more than half an
/// em before the edge of its frame. Every other line goes on.
pub proof fn paragraphs_end_for_a_reason(
    prev: LineView,
    next: LineView,
    median_size: Binary32,
    leading: Binary32,
    frame_right: Binary32,
)
    ensures
        ({
            let on = continues(prev, next, median_size, leading, frame_right);
            let em = median_size.spec_max(num(0x3f80_0000));
            let top = prev.y.spec_plus(prev.height);
            let next_top = next.y.spec_plus(next.height);
            let right = prev.x.spec_plus(prev.width);
            let gap = prev.y.spec_minus(next_top).spec_max(num(0));
            let large = num(0x3fe6_6666).spec_times(leading.spec_max(num(0))).spec_max(
                num(0x3f40_0000).spec_times(em),
            );
            let not_below = top.spec_minus(next_top).spec_at_most(num(0));
            let ends_before = next.x.spec_plus(next.width).spec_less(prev.x);
            let indented = num(0x4000_0000).spec_times(em).spec_less(next.x.spec_minus(prev.x));
            let behind_gap = large.spec_less(gap);
            let behind_full_line = frame_right.spec_minus(right).spec_at_most(
                num(0x3f00_0000).spec_times(em),
            );
            &&& heading(next, median_size) ==> !on
            &&& !heading(next, median_size) && same_line(prev, next) ==> on
            &&& !same_line(prev, next) && (not_below || ends_before || indented || behind_gap
                || !behind_full_line) ==> !on
            &&& !heading(next, median_size) && !not_below && !ends_before && !indented
                && !behind_gap && behind_full_line ==> on
        }),
{
}

/// How much of a line a table covers: the common area, in parts of the area of the line; nothing of
/// a line without area.
pub proof fn overlap_is_the_common_part(line: LineView, table: TableView)
    ensures
        ({
            let area = line.width.spec_times(line.height);
            let wide = line.x.spec_plus(line.width).spec_min(
                table.x.spec_plus(table.width),
            ).spec_minus(line.x.spec_max(table.x)).spec_max(num(0));
            let high = line.y.spec_plus(line.height).spec_min(
                table.y.spec_plus(table.height),
            ).spec_minus(line.y.spec_max(table.y)).spec_max(num(0));
            &&& area.spec_at_most(num(0)) ==> overlap(line, table) == num(0)
            &&& !area.spec_at_most(num(0)) ==> overlap(line, table) == wide.spec_times(
                high,
            ).spec_over(area)
        }),
{
}

/// The gap between a line and the one below it reaches from the lower edge of the first to the upper
/// edge of the second, and is never negative.
pub proof fn gaps_lie_between_lines(upper: LineView, lower: LineView)
    ensures
        gap(upper, lower) == upper.y.spec_minus(lower.y.spec_plus(lower.height)).spec_max(num(0)),
        num(0).spec_at_most(gap(upper, lower)),
{
    crate::ieee::lemma_nearest_bounded(23, 0, 1);
}

/// Lines and tables stand for what their fields hold.
pub proof fn items_stand_for_their_fields(line: LayoutLine, table: LayoutTable)
    ensures
        line@.text == line.text@ && line@.x == line.x && line@.y == line.y && line@.width
            == line.width && line@.height == line.height && line@.font_size == line.font_size
            && line@.heading_level == line.heading_level,
        table@.x == table.x && table@.y == table.y && table@.width == table.width && table@.height
            == table.height && table@.has_header == table.has_header,
        table@.rows.len() == table.rows@.len(),
        forall|i: int|
            0 <= i < table.rows@.len() ==> #[trigger] table@.rows[i] == crate::text::views(
                table.rows@[i]@,
            ),
        Item::Line(line)@ == ItemView::Line(line@),
        Item::Table(table)@ == ItemView::Table(table@),
{
}

/// Things are put in order by their upper edges, the highest first, and where these are equal by
/// their left edges, the leftmost first.
pub proof fn places_are_read_from_the_top_left(
    upper: Binary32,
    lower: Binary32,
    left: Binary32,
    right: Binary32,
)
    requires
        lower.spec_order() < upper.spec_order(),
        left.spec_order() < right.spec_order(),
    ensures
        order::before(
            place_of(upper, right, SortBy::TopThenLeft),
            place_of(lower, left, SortBy::TopThenLeft),
        ),
        order::before(
            place_of(upper, left, SortBy::TopThenLeft),
            place_of(upper, right, SortBy::TopThenLeft),
        ),
        order::before(place_of(upper, right, SortBy::Top), place_of(lower, left, SortBy::Top)),
        place_of(upper, left, SortBy::Top) == place_of(upper, right, SortBy::Top),
        order::before(place_of(lower, left, SortBy::Left), place_of(upper, right, SortBy::Left)),
        place_of(lower, left, SortBy::Left) == place_of(upper, left, SortBy::Left),
{
}

} // verus!
