//! The table model builder and the column/row distributor: extracts a grid of
//! cells from a table subtree and assigns column widths, row heights and cell
//! geometry.

use vstd::prelude::*;
use crate::dom::{
    attr_of, elem_name_of, is_elem_named, lemma_nodes_view, nodes_view, Node, NodeV,
};
use crate::layout::{DeviceContext, Point, Size, TestDC, MAX_MEASURE_LEN, MEASURE_UNIT};
use crate::query::{collect_text, find_elements, find_in_node, get_attr, get_elem_name, text_of};
use crate::text::{
    contains_seq, contains_str, line_count, max_line_len, parse_u32, parse_u32_spec,
};

verus! {

broadcast use vstd::std_specs::vec::group_vec_axioms;

/// The width a table is forced to when its style attribute mentions a width:
/// the length itself is not parsed.
pub const STYLE_WIDTH_OVERRIDE: u32 = 300;

/// Size constraints read from a block's style.
#[derive(Clone, Copy, Debug)]
pub struct BlockProps {
    pub width: Option<u32>,
    pub height: Option<u32>,
    pub min_width: u32,
    pub min_height: u32,
    pub max_width: u32,
    pub max_height: u32,
}

impl BlockProps {
    /// No explicit sizes, no constraints.
    pub fn new() -> (p: Self)
        ensures
            p.width is None,
            p.height is None,
            p.min_width == u32::MIN,
            p.min_height == u32::MIN,
            p.max_width == u32::MAX,
            p.max_height == u32::MAX,
    {
        BlockProps {
            width: None,
            height: None,
            min_width: u32::MIN,
            min_height: u32::MIN,
            max_width: u32::MAX,
            max_height: u32::MAX,
        }
    }
}

/// A measured run of text with a position assigned later by the layout pass.
#[derive(Debug)]
pub struct TextBlock {
    pub text: String,
    pub pos: Point,
    pub size: Size,
    pub min_width: u32,
    pub max_width: u32,
}

impl TextBlock {
    /// Measures `text` with the reference device: the size is recorded, the
    /// minimal width is the width of a single blank, the maximal width is the
    /// full measured width. The position is assigned later.
    pub fn new_from(text: &str) -> (tb: TextBlock)
        requires
            text@.len() <= MAX_MEASURE_LEN,
        ensures
            tb.text@ == text@,
            tb.pos.x == 0 && tb.pos.y == 0,
            tb.size.width == MEASURE_UNIT * max_line_len(text@),
            tb.size.height == MEASURE_UNIT * line_count(text@),
            tb.min_width == MEASURE_UNIT,
            tb.max_width == tb.size.width,
    {
        let dc = TestDC::new();
        let size = dc.measure_text(text);
        proof {
            reveal_strlit(" ");
            lemma_measure_one_blank();
        }
        let min_width = dc.measure_text(" ").width;
        let max_width = size.width;
        TextBlock {
            text: text.to_owned(),
            pos: Point::new(),
            size,
            min_width,
            max_width,
        }
    }
}

proof fn lemma_measure_one_blank()
    ensures
        max_line_len(" "@) == 1,
    decreases 0int,
{
    reveal_strlit(" ");
    let s = " "@;
    assert(s.len() == 1);
    assert(s.last() == ' ');
    assert(s.drop_last() =~= Seq::<char>::empty());
    let l0 = crate::text::split_lines(Seq::<char>::empty());
    assert(l0 == seq![Seq::<char>::empty()]);
    let l1 = crate::text::split_lines(s);
    assert(l1 == l0.update(l0.len() - 1, l0.last().push(' ')));
    assert(l1 =~= seq![seq![' ']]);
    assert(l1.drop_last() =~= Seq::<Seq<char>>::empty());
    assert(crate::text::max_len_of(Seq::<Seq<char>>::empty()) == 0);
    assert(crate::text::max_len_of(l1) == 1);
}

/// One grid cell: its text and the row and column indices it occupies.
pub struct TableCell {
    pub text_block: TextBlock,
    pub row_range: Vec<u32>,
    pub col_range: Vec<u32>,
}

impl TableCell {
    /// A cell around `text_block`, occupying no rows or columns yet.
    pub fn new_from(text_block: TextBlock) -> (c: Self)
        ensures
            c.text_block == text_block,
            c.row_range@ == Seq::<u32>::empty(),
            c.col_range@ == Seq::<u32>::empty(),
    {
        TableCell { text_block, row_range: Vec::new(), col_range: Vec::new() }
    }
}

/// A laid-out table: grid dimensions, per-column widths, cells, overall size.
pub struct Table {
    pub block_props: BlockProps,
    pub rows: u32,
    pub cols: u32,
    pub min_width_cols: Vec<u32>,
    pub max_width_cols: Vec<u32>,
    pub size: Size,
    pub cells: Vec<TableCell>,
}

impl Table {
    /// An empty table.
    pub fn new() -> (t: Self)
        ensures
            t.block_props.width is None,
            t.block_props.height is None,
            t.block_props.min_width == u32::MIN,
            t.block_props.min_height == u32::MIN,
            t.block_props.max_width == u32::MAX,
            t.block_props.max_height == u32::MAX,
            t.rows == 0,
            t.cols == 0,
            t.min_width_cols@ == Seq::<u32>::empty(),
            t.max_width_cols@ == Seq::<u32>::empty(),
            t.size.width == 0,
            t.size.height == 0,
            t.cells@ == Seq::<TableCell>::empty(),
    {
        Table {
            block_props: BlockProps::new(),
            rows: 0,
            cols: 0,
            min_width_cols: Vec::new(),
            max_width_cols: Vec::new(),
            size: Size::new(),
            cells: Vec::new(),
        }
    }
}

/// A well-formed cell: one row index, and a nonempty contiguous ascending run
/// of column indices.
pub open spec fn cell_wf(c: TableCell) -> bool {
    &&& c.row_range@.len() == 1
    &&& c.col_range@.len() >= 1
    &&& forall|k: int|
        0 <= k < c.col_range@.len() ==> #[trigger] c.col_range@[k] == c.col_range@[0] + k
}

/// The row a cell occupies.
pub open spec fn cell_row(c: TableCell) -> int {
    c.row_range@[0] as int
}

/// The first column a cell occupies.
pub open spec fn cell_col(c: TableCell) -> int {
    c.col_range@[0] as int
}

/// How many columns a cell spans.
pub open spec fn cell_span(c: TableCell) -> int {
    c.col_range@.len() as int
}

/// Whether the cell's column range holds `col`.
pub open spec fn cell_has_col(c: TableCell, col: int) -> bool {
    cell_col(c) <= col < cell_col(c) + cell_span(c)
}

/// The cell's even share of its measured width: the full width split across
/// the columns it spans, rounded up, so that the columns together always
/// cover the measured width.
pub open spec fn cell_share(c: TableCell) -> int {
    (c.text_block.size.width as int + cell_span(c) - 1) / cell_span(c)
}

/// One more than the highest column index any cell occupies; 0 with no cells.
pub open spec fn cols_of_cells(cells: Seq<TableCell>) -> int
    decreases cells.len(),
{
    if cells.len() == 0 {
        0
    } else {
        let m = cols_of_cells(cells.drop_last());
        let e = cell_col(cells.last()) + cell_span(cells.last());
        if e > m {
            e
        } else {
            m
        }
    }
}

/// The width of column `col`: the largest even share among the cells that
/// touch it; 0 if none does.
pub open spec fn col_max_width(cells: Seq<TableCell>, col: int) -> int
    decreases cells.len(),
{
    if cells.len() == 0 {
        0
    } else {
        let m = col_max_width(cells.drop_last(), col);
        let w = if cell_has_col(cells.last(), col) {
            cell_share(cells.last())
        } else {
            0
        };
        if w > m {
            w
        } else {
            m
        }
    }
}

/// The height of row `row`: the tallest measured text among its cells; 0 if
/// none.
pub open spec fn row_max_height(cells: Seq<TableCell>, row: int) -> int
    decreases cells.len(),
{
    if cells.len() == 0 {
        0
    } else {
        let m = row_max_height(cells.drop_last(), row);
        let h = if cell_row(cells.last()) == row {
            cells.last().text_block.size.height as int
        } else {
            0
        };
        if h > m {
            h
        } else {
            m
        }
    }
}

/// The sum of a sequence of widths.
pub open spec fn sum_u32(s: Seq<u32>) -> int
    decreases s.len(),
{
    if s.len() == 0 {
        0
    } else {
        sum_u32(s.drop_last()) + s.last()
    }
}

/// A sum of widths is no less than any of its prefixes.
pub proof fn lemma_sum_u32_prefix(s: Seq<u32>, k: int)
    requires
        0 <= k <= s.len(),
    ensures
        0 <= sum_u32(s.take(k)) <= sum_u32(s),
    decreases s.len() - k,
{
    if k == s.len() {
        assert(s.take(k) =~= s);
        lemma_sum_u32_nonneg(s);
    } else {
        lemma_sum_u32_prefix(s, k + 1);
        assert(s.take(k + 1).drop_last() =~= s.take(k));
        assert(s.take(k + 1).last() == s[k]);
        lemma_sum_u32_nonneg(s.take(k));
    }
}

/// A sum of widths is non-negative.
pub proof fn lemma_sum_u32_nonneg(s: Seq<u32>)
    ensures
        sum_u32(s) >= 0,
    decreases s.len(),
{
    if s.len() > 0 {
        lemma_sum_u32_nonneg(s.drop_last());
    }
}

/// Sums of widths add up over concatenation.
pub proof fn lemma_sum_u32_concat(a: Seq<u32>, b: Seq<u32>)
    ensures
        sum_u32(a + b) == sum_u32(a) + sum_u32(b),
    decreases b.len(),
{
    if b.len() == 0 {
        assert(a + b =~= a);
    } else {
        lemma_sum_u32_concat(a, b.drop_last());
        assert((a + b).drop_last() =~= a + b.drop_last());
        assert((a + b).last() == b.last());
    }
}

/// Rounding a division up: the quotient stays within the dividend, and
/// multiplied back by the divisor it covers the dividend.
proof fn lemma_ceil_div(w: int, s: int)
    requires
        w >= 0,
        s >= 1,
    ensures
        0 <= (w + s - 1) / s <= w,
        s * ((w + s - 1) / s) >= w,
{
    let q = (w + s - 1) / s;
    vstd::arithmetic::div_mod::lemma_fundamental_div_mod(w + s - 1, s);
    vstd::arithmetic::div_mod::lemma_mod_bound(w + s - 1, s);
    vstd::arithmetic::div_mod::lemma_div_pos_is_pos(w + s - 1, s);
    assert(s * q >= w);
    assert(s * q <= w + s - 1);
    assert(q <= w) by (nonlinear_arith)
        requires
            s >= 1,
            w >= 0,
            q >= 0,
            s * q <= w + s - 1,
    ;
}

/// A column's width is at least the share of any cell that spans it.
proof fn lemma_col_max_width_ge_member(cells: Seq<TableCell>, i: int, c: int)
    requires
        0 <= i < cells.len(),
        cell_has_col(cells[i], c),
    ensures
        col_max_width(cells, c) >= cell_share(cells[i]),
    decreases cells.len(),
{
    if i < cells.len() - 1 {
        assert(cells.drop_last()[i] == cells[i]);
        lemma_col_max_width_ge_member(cells.drop_last(), i, c);
    }
}

/// A slice whose entries all reach `x` sums to at least `x` per entry.
proof fn lemma_sum_u32_lower(ws: Seq<u32>, a: int, b: int, x: int)
    requires
        0 <= a <= b <= ws.len(),
        x >= 0,
        forall|c: int| a <= c < b ==> #[trigger] ws[c] as int >= x,
    ensures
        sum_u32(ws.subrange(a, b)) >= (b - a) * x,
    decreases b - a,
{
    if a == b {
        assert(ws.subrange(a, b) =~= Seq::<u32>::empty());
        assert((b - a) * x == 0) by (nonlinear_arith)
            requires
                b - a == 0,
        ;
    } else {
        lemma_sum_u32_lower(ws, a, b - 1, x);
        assert(ws.subrange(a, b).drop_last() =~= ws.subrange(a, b - 1));
        assert(ws.subrange(a, b).last() == ws[b - 1]);
        assert((b - a) * x == (b - 1 - a) * x + x) by (nonlinear_arith);
    }
}

/// The width invariant of the data model: with the column widths computed
/// from the cells, the columns a cell spans together allocate at least the
/// cell's measured width — the rounded-up even split never undershoots.
pub proof fn lemma_allocation_covers_measured(cells: Seq<TableCell>, widths: Seq<u32>, i: int)
    requires
        0 <= i < cells.len(),
        cell_wf(cells[i]),
        cell_col(cells[i]) + cell_span(cells[i]) <= widths.len(),
        forall|c: int|
            0 <= c < widths.len() ==> #[trigger] widths[c] as int == col_max_width(cells, c),
    ensures
        sum_u32(
            widths.subrange(cell_col(cells[i]), cell_col(cells[i]) + cell_span(cells[i])),
        ) >= cells[i].text_block.size.width,
{
    let col = cell_col(cells[i]);
    let span = cell_span(cells[i]);
    let w = cells[i].text_block.size.width as int;
    lemma_ceil_div(w, span);
    let share = cell_share(cells[i]);
    assert forall|c: int| col <= c < col + span implies #[trigger] widths[c] as int >= share by {
        assert(cell_has_col(cells[i], c));
        lemma_col_max_width_ge_member(cells, i, c);
    }
    lemma_sum_u32_lower(widths, col, col + span, share);
    assert(span * share >= w);
}

/// Any contiguous slice of widths sums to no more than the whole.
pub proof fn lemma_sum_u32_subrange(s: Seq<u32>, a: int, b: int)
    requires
        0 <= a <= b <= s.len(),
    ensures
        0 <= sum_u32(s.subrange(a, b)) <= sum_u32(s),
{
    assert(s =~= (s.take(a) + s.subrange(a, b)) + s.skip(b));
    lemma_sum_u32_concat(s.take(a) + s.subrange(a, b), s.skip(b));
    lemma_sum_u32_concat(s.take(a), s.subrange(a, b));
    lemma_sum_u32_nonneg(s.take(a));
    lemma_sum_u32_nonneg(s.skip(b));
    lemma_sum_u32_nonneg(s.subrange(a, b));
}

impl Table {
    /// One more than the highest column index any cell occupies, or 0 for a
    /// table without cells.
    pub fn calc_cols(&self) -> (r: u32)
        requires
            forall|i: int| 0 <= i < self.cells@.len() ==> cell_wf(#[trigger] self.cells@[i]),
            forall|i: int|
                0 <= i < self.cells@.len() ==> cell_col(#[trigger] self.cells@[i]) + cell_span(
                    self.cells@[i],
                ) <= u32::MAX,
        ensures
            r as int == cols_of_cells(self.cells@),
    {
        let n: usize = self.cells.len();
        let mut best: u32 = 0;
        proof {
            assert(cols_of_cells(self.cells@.take(0)) == 0);
        }
        let mut i: usize = 0;
        while i < n
            invariant
                i <= n,
                n == self.cells@.len(),
                forall|j: int| 0 <= j < n ==> cell_wf(#[trigger] self.cells@[j]),
                forall|j: int|
                    0 <= j < n ==> cell_col(#[trigger] self.cells@[j]) + cell_span(self.cells@[j])
                        <= u32::MAX,
                best as int == cols_of_cells(self.cells@.take(i as int)),
            decreases n - i,
        {
            let cell = &self.cells[i];
            let k: usize = cell.col_range.len();
            let last_col: u32 = cell.col_range[k - 1];
            proof {
                assert(cell.col_range@[k - 1] == cell.col_range@[0] + (k - 1));
            }
            let e: u32 = last_col + 1;
            if e > best {
                best = e;
            }
            i = i + 1;
            proof {
                assert(self.cells@.take(i as int).drop_last() =~= self.cells@.take(i - 1));
                assert(self.cells@.take(i as int).last() == self.cells@[i - 1]);
            }
        }
        proof {
            assert(self.cells@.take(n as int) =~= self.cells@);
        }
        best
    }

    /// The width of each of the `cols` columns: the largest even width share
    /// among the cells that touch the column.
    pub fn calc_max_width_cols(&self) -> (r: Vec<u32>)
        requires
            forall|i: int| 0 <= i < self.cells@.len() ==> cell_wf(#[trigger] self.cells@[i]),
            forall|i: int|
                0 <= i < self.cells@.len() ==> cell_col(#[trigger] self.cells@[i]) + cell_span(
                    self.cells@[i],
                ) <= u32::MAX,
        ensures
            r@.len() == self.cols,
            forall|c: int| 0 <= c < self.cols ==> #[trigger] r@[c] as int == col_max_width(
                self.cells@,
                c,
            ),
    {
        let n: usize = self.cells.len();
        let mut r: Vec<u32> = Vec::new();
        let mut col: u32 = 0;
        while col < self.cols
            invariant
                col <= self.cols,
                n == self.cells@.len(),
                forall|j: int| 0 <= j < n ==> cell_wf(#[trigger] self.cells@[j]),
                forall|j: int|
                    0 <= j < n ==> cell_col(#[trigger] self.cells@[j]) + cell_span(self.cells@[j])
                        <= u32::MAX,
                r@.len() == col,
                forall|c: int| 0 <= c < col ==> #[trigger] r@[c] as int == col_max_width(
                    self.cells@,
                    c,
                ),
            decreases self.cols - col,
        {
            let mut m: u32 = 0;
            proof {
                assert(col_max_width(self.cells@.take(0), col as int) == 0);
            }
            let mut i: usize = 0;
            while i < n
                invariant
                    i <= n,
                    n == self.cells@.len(),
                    forall|j: int| 0 <= j < n ==> cell_wf(#[trigger] self.cells@[j]),
                    forall|j: int|
                        0 <= j < n ==> cell_col(#[trigger] self.cells@[j]) + cell_span(
                            self.cells@[j],
                        ) <= u32::MAX,
                    m as int == col_max_width(self.cells@.take(i as int), col as int),
                decreases n - i,
            {
                let cell = &self.cells[i];
                let c0: u32 = cell.col_range[0];
                let sp: usize = cell.col_range.len();
                let w: u32 = if c0 <= col && ((col - c0) as usize) < sp {
                    let wid: u64 = cell.text_block.size.width as u64;
                    let spu: u64 = sp as u64;
                    proof {
                        assert(cell_has_col(self.cells@[i as int], col as int));
                        lemma_ceil_div(wid as int, spu as int);
                    }
                    (((wid + spu) - 1) / spu) as u32
                } else {
                    proof {
                        assert(!cell_has_col(self.cells@[i as int], col as int));
                    }
                    0
                };
                if w > m {
                    m = w;
                }
                i = i + 1;
                proof {
                    assert(self.cells@.take(i as int).drop_last() =~= self.cells@.take(i - 1));
                    assert(self.cells@.take(i as int).last() == self.cells@[i - 1]);
                }
            }
            proof {
                assert(self.cells@.take(n as int) =~= self.cells@);
            }
            r.push(m);
            col = col + 1;
        }
        r
    }

    /// The height of each of the `rows` rows: the tallest measured text among
    /// the cells of the row.
    pub fn calc_max_height_rows(&self) -> (r: Vec<u32>)
        requires
            forall|i: int| 0 <= i < self.cells@.len() ==> cell_wf(#[trigger] self.cells@[i]),
        ensures
            r@.len() == self.rows,
            forall|w: int| 0 <= w < self.rows ==> #[trigger] r@[w] as int == row_max_height(
                self.cells@,
                w,
            ),
    {
        let n: usize = self.cells.len();
        let mut r: Vec<u32> = Vec::new();
        let mut row: u32 = 0;
        while row < self.rows
            invariant
                row <= self.rows,
                n == self.cells@.len(),
                forall|j: int| 0 <= j < n ==> cell_wf(#[trigger] self.cells@[j]),
                r@.len() == row,
                forall|w: int| 0 <= w < row ==> #[trigger] r@[w] as int == row_max_height(
                    self.cells@,
                    w,
                ),
            decreases self.rows - row,
        {
            let mut m: u32 = 0;
            proof {
                assert(row_max_height(self.cells@.take(0), row as int) == 0);
            }
            let mut i: usize = 0;
            while i < n
                invariant
                    i <= n,
                    n == self.cells@.len(),
                    forall|j: int| 0 <= j < n ==> cell_wf(#[trigger] self.cells@[j]),
                    m as int == row_max_height(self.cells@.take(i as int), row as int),
                decreases n - i,
            {
                let cell = &self.cells[i];
                let h: u32 = if cell.row_range[0] == row {
                    cell.text_block.size.height
                } else {
                    0
                };
                if h > m {
                    m = h;
                }
                i = i + 1;
                proof {
                    assert(self.cells@.take(i as int).drop_last() =~= self.cells@.take(i - 1));
                    assert(self.cells@.take(i as int).last() == self.cells@[i - 1]);
                }
            }
            proof {
                assert(self.cells@.take(n as int) =~= self.cells@);
            }
            r.push(m);
            row = row + 1;
        }
        r
    }
}

/// Everything about a cell except its position is as before.
pub open spec fn cell_same_but_pos(c: TableCell, o: TableCell) -> bool {
    &&& c.text_block.text@ == o.text_block.text@
    &&& c.text_block.size == o.text_block.size
    &&& c.text_block.min_width == o.text_block.min_width
    &&& c.text_block.max_width == o.text_block.max_width
    &&& c.row_range@ == o.row_range@
    &&& c.col_range@ == o.col_range@
}

/// Everything about a cell except its rendered width is as before.
pub open spec fn cell_same_but_width(c: TableCell, o: TableCell) -> bool {
    &&& c.text_block.text@ == o.text_block.text@
    &&& c.text_block.pos == o.text_block.pos
    &&& c.text_block.size.height == o.text_block.size.height
    &&& c.text_block.min_width == o.text_block.min_width
    &&& c.text_block.max_width == o.text_block.max_width
    &&& c.row_range@ == o.row_range@
    &&& c.col_range@ == o.col_range@
}

/// The table fields that the two geometry passes leave alone.
pub open spec fn table_frame_same(t: Table, o: Table) -> bool {
    &&& t.block_props == o.block_props
    &&& t.rows == o.rows
    &&& t.cols == o.cols
    &&& t.min_width_cols@ == o.min_width_cols@
    &&& t.max_width_cols@ == o.max_width_cols@
    &&& t.size == o.size
}

impl Table {
    /// Assigns each cell its position: x is the summed width of all columns
    /// before its first column, y advances by one fixed row step per row.
    pub fn calc_positions(&mut self)
        requires
            forall|i: int| 0 <= i < old(self).cells@.len() ==> cell_wf(
                #[trigger] old(self).cells@[i],
            ),
            forall|i: int|
                0 <= i < old(self).cells@.len() ==> cell_row(#[trigger] old(self).cells@[i])
                    < old(self).rows,
            forall|i: int|
                0 <= i < old(self).cells@.len() ==> cell_col(#[trigger] old(self).cells@[i])
                    < old(self).max_width_cols@.len(),
            sum_u32(old(self).max_width_cols@) <= i32::MAX,
            MEASURE_UNIT * old(self).rows <= i32::MAX,
        ensures
            table_frame_same(*final(self), *old(self)),
            final(self).cells@.len() == old(self).cells@.len(),
            forall|i: int|
                0 <= i < old(self).cells@.len() ==> cell_same_but_pos(
                    #[trigger] final(self).cells@[i],
                    old(self).cells@[i],
                ),
            forall|i: int|
                0 <= i < old(self).cells@.len() ==> (#[trigger] final(self).cells@[i]).text_block.pos.x
                    as int == sum_u32(
                    old(self).max_width_cols@.take(cell_col(old(self).cells@[i])),
                ),
            forall|i: int|
                0 <= i < old(self).cells@.len() ==> (#[trigger] final(self).cells@[i]).text_block.pos.y
                    as int == MEASURE_UNIT * cell_row(old(self).cells@[i]),
    {
        let ghost widths = self.max_width_cols@;
        // Cumulative x offset of every column.
        let ncols: usize = self.max_width_cols.len();
        let mut xs: Vec<u32> = Vec::new();
        let mut acc: u32 = 0;
        proof {
            assert(sum_u32(widths.take(0)) == 0);
        }
        let mut i: usize = 0;
        while i < ncols
            invariant
                i <= ncols,
                ncols == widths.len(),
                widths == self.max_width_cols@,
                sum_u32(widths) <= i32::MAX,
                xs@.len() == i,
                acc as int == sum_u32(widths.take(i as int)),
                forall|j: int| 0 <= j < i ==> #[trigger] xs@[j] as int == sum_u32(widths.take(j)),
            decreases ncols - i,
        {
            xs.push(acc);
            proof {
                lemma_sum_u32_prefix(widths, i + 1);
                assert(widths.take(i + 1).drop_last() =~= widths.take(i as int));
                assert(widths.take(i + 1).last() == widths[i as int]);
            }
            acc = acc + self.max_width_cols[i];
            i = i + 1;
        }
        // Fixed-step y offset of every row.
        let nrows: u32 = self.rows;
        let mut ys: Vec<u32> = Vec::new();
        let mut yacc: u32 = 0;
        let mut r: u32 = 0;
        while r < nrows
            invariant
                r <= nrows,
                MEASURE_UNIT * nrows <= i32::MAX,
                ys@.len() == r,
                yacc as int == MEASURE_UNIT * r,
                forall|j: int| 0 <= j < r ==> #[trigger] ys@[j] as int == MEASURE_UNIT * j,
            decreases nrows - r,
        {
            ys.push(yacc);
            yacc = yacc + MEASURE_UNIT;
            r = r + 1;
        }
        // Give each cell its position.
        let ghost old_cells = self.cells@;
        let mut cs: Vec<TableCell> = Vec::new();
        core::mem::swap(&mut cs, &mut self.cells);
        let mut out: Vec<TableCell> = Vec::new();
        let ghost mut k: int = 0;
        while cs.len() > 0
            invariant
                0 <= k <= old_cells.len(),
                cs@.len() == old_cells.len() - k,
                forall|j: int| 0 <= j < cs@.len() ==> #[trigger] cs@[j] == old_cells[k + j],
                out@.len() == k,
                forall|j: int| 0 <= j < old_cells.len() ==> cell_wf(#[trigger] old_cells[j]),
                forall|j: int|
                    0 <= j < old_cells.len() ==> cell_col(#[trigger] old_cells[j]) < widths.len(),
                forall|j: int|
                    0 <= j < old_cells.len() ==> cell_row(#[trigger] old_cells[j]) < nrows,
                xs@.len() == widths.len(),
                forall|j: int| 0 <= j < xs@.len() ==> #[trigger] xs@[j] as int == sum_u32(
                    widths.take(j),
                ),
                ys@.len() == nrows,
                forall|j: int| 0 <= j < nrows ==> #[trigger] ys@[j] as int == MEASURE_UNIT * j,
                sum_u32(widths) <= i32::MAX,
                MEASURE_UNIT * nrows <= i32::MAX,
                forall|j: int| 0 <= j < k ==> cell_same_but_pos(
                    #[trigger] out@[j],
                    old_cells[j],
                ),
                forall|j: int| 0 <= j < k ==> (#[trigger] out@[j]).text_block.pos.x as int
                    == sum_u32(widths.take(cell_col(old_cells[j]))),
                forall|j: int| 0 <= j < k ==> (#[trigger] out@[j]).text_block.pos.y as int
                    == MEASURE_UNIT * cell_row(old_cells[j]),
            decreases cs@.len(),
        {
            let cell = cs.remove(0);
            let row: u32 = cell.row_range[0];
            let col: u32 = cell.col_range[0];
            proof {
                lemma_sum_u32_prefix(widths, col as int);
            }
            let x: i32 = xs[col as usize] as i32;
            let y: i32 = ys[row as usize] as i32;
            let TableCell { text_block, row_range, col_range } = cell;
            let TextBlock { text, pos: _, size, min_width, max_width } = text_block;
            out.push(
                TableCell {
                    text_block: TextBlock { text, pos: Point { x, y }, size, min_width, max_width },
                    row_range,
                    col_range,
                },
            );
            proof {
                k = k + 1;
            }
        }
        self.cells = out;
    }

    /// Widens each cell to fill its column allocation: its rendered width
    /// becomes the summed width of the columns it spans.
    pub fn set_cell_sizes(&mut self)
        requires
            forall|i: int| 0 <= i < old(self).cells@.len() ==> cell_wf(
                #[trigger] old(self).cells@[i],
            ),
            forall|i: int|
                0 <= i < old(self).cells@.len() ==> cell_col(#[trigger] old(self).cells@[i])
                    + cell_span(old(self).cells@[i]) <= old(self).max_width_cols@.len(),
            sum_u32(old(self).max_width_cols@) <= u32::MAX,
        ensures
            table_frame_same(*final(self), *old(self)),
            final(self).cells@.len() == old(self).cells@.len(),
            forall|i: int|
                0 <= i < old(self).cells@.len() ==> cell_same_but_width(
                    #[trigger] final(self).cells@[i],
                    old(self).cells@[i],
                ),
            forall|i: int|
                0 <= i < old(self).cells@.len() ==> (#[trigger] final(self).cells@[i]).text_block.size.width
                    as int == sum_u32(
                    old(self).max_width_cols@.subrange(
                        cell_col(old(self).cells@[i]),
                        cell_col(old(self).cells@[i]) + cell_span(old(self).cells@[i]),
                    ),
                ),
    {
        let ghost widths = self.max_width_cols@;
        let ghost old_cells = self.cells@;
        let mut cs: Vec<TableCell> = Vec::new();
        core::mem::swap(&mut cs, &mut self.cells);
        let mut out: Vec<TableCell> = Vec::new();
        let ghost mut k: int = 0;
        while cs.len() > 0
            invariant
                0 <= k <= old_cells.len(),
                cs@.len() == old_cells.len() - k,
                forall|j: int| 0 <= j < cs@.len() ==> #[trigger] cs@[j] == old_cells[k + j],
                out@.len() == k,
                forall|j: int| 0 <= j < old_cells.len() ==> cell_wf(#[trigger] old_cells[j]),
                forall|j: int|
                    0 <= j < old_cells.len() ==> cell_col(#[trigger] old_cells[j]) + cell_span(
                        old_cells[j],
                    ) <= widths.len(),
                widths == self.max_width_cols@,
                sum_u32(widths) <= u32::MAX,
                forall|j: int| 0 <= j < k ==> cell_same_but_width(
                    #[trigger] out@[j],
                    old_cells[j],
                ),
                forall|j: int| 0 <= j < k ==> (#[trigger] out@[j]).text_block.size.width as int
                    == sum_u32(
                    widths.subrange(
                        cell_col(old_cells[j]),
                        cell_col(old_cells[j]) + cell_span(old_cells[j]),
                    ),
                ),
            decreases cs@.len(),
        {
            let cell = cs.remove(0);
            let col: u32 = cell.col_range[0];
            let span: usize = cell.col_range.len();
            let wlen: usize = self.max_width_cols.len();
            let ghost c0 = col as int;
            let mut w: u32 = 0;
            proof {
                assert(widths.subrange(c0, c0) =~= Seq::<u32>::empty());
            }
            let mut t: usize = 0;
            while t < span
                invariant
                    t <= span,
                    c0 == col as int,
                    c0 + span <= wlen,
                    wlen == widths.len(),
                    widths == self.max_width_cols@,
                    sum_u32(widths) <= u32::MAX,
                    w as int == sum_u32(widths.subrange(c0, c0 + t)),
                decreases span - t,
            {
                proof {
                    lemma_sum_u32_subrange(widths, c0, c0 + t + 1);
                    assert(widths.subrange(c0, c0 + t + 1).drop_last() =~= widths.subrange(
                        c0,
                        c0 + t,
                    ));
                    assert(widths.subrange(c0, c0 + t + 1).last() == widths[c0 + t]);
                }
                w = w + self.max_width_cols[col as usize + t];
                t = t + 1;
            }
            let TableCell { text_block, row_range, col_range } = cell;
            let TextBlock { text, pos, size, min_width, max_width } = text_block;
            out.push(
                TableCell {
                    text_block: TextBlock {
                        text,
                        pos,
                        size: Size { width: w, height: size.height },
                        min_width,
                        max_width,
                    },
                    row_range,
                    col_range,
                },
            );
            proof {
                k = k + 1;
            }
        }
        self.cells = out;
    }
}

/// The abstract record of one grid cell, as read off the document tree: the
/// row it lies in, its first column, its column span, and its collected text.
pub ghost struct CellModel {
    pub row: int,
    pub col: int,
    pub span: int,
    pub text: Seq<char>,
}

/// The column span of a cell element: its `colspan` attribute read as an
/// unsigned integer, or 1 when the attribute is absent or unreadable.
pub open spec fn colspan_of(n: NodeV) -> int {
    match attr_of(n, "colspan"@) {
        Some(v) => match parse_u32_spec(v) {
            Some(x) => x as int,
            None => 1,
        },
        None => 1,
    }
}

/// Whether `n` is a header or data cell element.
pub open spec fn is_cell_elem(n: NodeV) -> bool {
    is_elem_named(n, "th"@) || is_elem_named(n, "td"@)
}

/// The cells one row contributes: direct children that are cell elements, in
/// order, each advancing the column cursor by its span; a cell with no text
/// consumes cursor space but yields no record, and a cell whose span reads as
/// zero yields none either — it has no column to stand in.
pub open spec fn row_cells(cs: Seq<NodeV>, row: int, col: int) -> Seq<CellModel>
    decreases cs.len(),
{
    if cs.len() == 0 {
        Seq::empty()
    } else {
        let c = cs[0];
        if is_cell_elem(c) {
            let span = colspan_of(c);
            let text = text_of(c);
            if text.len() == 0 || span == 0 {
                row_cells(cs.drop_first(), row, col + span)
            } else {
                seq![CellModel { row, col, span, text }] + row_cells(
                    cs.drop_first(),
                    row,
                    col + span,
                )
            }
        } else {
            row_cells(cs.drop_first(), row, col)
        }
    }
}

/// The cells of all rows from `row` on, in document order.
pub open spec fn rows_cells(trs: Seq<NodeV>, row: int) -> Seq<CellModel>
    decreases trs.len(),
{
    if trs.len() == 0 {
        Seq::empty()
    } else {
        row_cells(trs[0].children, row, 0) + rows_cells(trs.drop_first(), row + 1)
    }
}

/// How far one row's cell elements advance the column cursor in total.
pub open spec fn row_total_span(cs: Seq<NodeV>) -> int
    decreases cs.len(),
{
    if cs.len() == 0 {
        0
    } else {
        (if is_cell_elem(cs[0]) {
            colspan_of(cs[0])
        } else {
            0
        }) + row_total_span(cs.drop_first())
    }
}

/// A cell's full measured width.
pub open spec fn cell_w_m(m: CellModel) -> int {
    MEASURE_UNIT * max_line_len(m.text)
}

/// A cell's measured height.
pub open spec fn cell_h_m(m: CellModel) -> int {
    MEASURE_UNIT * line_count(m.text)
}

/// A cell's even share of its width across the columns it spans, rounded up.
pub open spec fn share_m(m: CellModel) -> int {
    (cell_w_m(m) + m.span - 1) / m.span
}

/// One more than the highest column index any cell record occupies.
pub open spec fn cols_m(cells: Seq<CellModel>) -> int
    decreases cells.len(),
{
    if cells.len() == 0 {
        0
    } else {
        let p = cols_m(cells.drop_last());
        let e = cells.last().col + cells.last().span;
        if e > p {
            e
        } else {
            p
        }
    }
}

/// The width of column `col`: the largest share among the records that span
/// it.
pub open spec fn col_w_m(cells: Seq<CellModel>, col: int) -> int
    decreases cells.len(),
{
    if cells.len() == 0 {
        0
    } else {
        let p = col_w_m(cells.drop_last(), col);
        let w = if cells.last().col <= col < cells.last().col + cells.last().span {
            share_m(cells.last())
        } else {
            0
        };
        if w > p {
            w
        } else {
            p
        }
    }
}

/// The height of row `row`: the tallest record in it.
pub open spec fn row_h_m(cells: Seq<CellModel>, row: int) -> int
    decreases cells.len(),
{
    if cells.len() == 0 {
        0
    } else {
        let p = row_h_m(cells.drop_last(), row);
        let h = if cells.last().row == row {
            cell_h_m(cells.last())
        } else {
            0
        };
        if h > p {
            h
        } else {
            p
        }
    }
}

/// The sum of a sequence of integers.
pub open spec fn sum_int(s: Seq<int>) -> int
    decreases s.len(),
{
    if s.len() == 0 {
        0
    } else {
        sum_int(s.drop_last()) + s.last()
    }
}

/// The per-column widths of a set of cell records.
pub open spec fn widths_m(cells: Seq<CellModel>) -> Seq<int> {
    Seq::new(cols_m(cells) as nat, |c: int| col_w_m(cells, c))
}

/// The summed heights of the first `nrows` rows.
pub open spec fn heights_total_m(cells: Seq<CellModel>, nrows: int) -> int {
    sum_int(Seq::new(nrows as nat, |r: int| row_h_m(cells, r)))
}

/// Whether the table element's style attribute mentions a width.
pub open spec fn style_has_width(n: NodeV) -> bool {
    match attr_of(n, "style"@) {
        Some(s) => contains_seq(s, "width"@),
        None => false,
    }
}

/// An exec cell agrees with its abstract record, before the distributor has
/// touched its geometry: position unset, size as measured.
pub open spec fn cell_matches_model(c: TableCell, m: CellModel) -> bool {
    &&& cell_wf(c)
    &&& cell_row(c) == m.row
    &&& cell_col(c) == m.col
    &&& cell_span(c) == m.span
    &&& c.text_block.text@ == m.text
    &&& c.text_block.size.width as int == cell_w_m(m)
    &&& c.text_block.size.height as int == cell_h_m(m)
    &&& c.text_block.max_width as int == cell_w_m(m)
    &&& c.text_block.min_width == MEASURE_UNIT
    &&& c.text_block.pos.x == 0 && c.text_block.pos.y == 0
}

/// What the measured grid of cells computes to, carried from the matched exec
/// cells to the abstract records.
proof fn lemma_grid_bridge(cells: Seq<TableCell>, models: Seq<CellModel>)
    requires
        cells.len() == models.len(),
        forall|i: int| 0 <= i < cells.len() ==> cell_matches_model(
            #[trigger] cells[i],
            models[i],
        ),
    ensures
        cols_of_cells(cells) == cols_m(models),
        forall|c: int| #![auto] col_max_width(cells, c) == col_w_m(models, c),
        forall|r: int| #![auto] row_max_height(cells, r) == row_h_m(models, r),
    decreases cells.len(),
{
    if cells.len() > 0 {
        assert(forall|i: int|
            0 <= i < cells.drop_last().len() ==> cells.drop_last()[i] == cells[i]);
        assert(forall|i: int|
            0 <= i < models.drop_last().len() ==> models.drop_last()[i] == models[i]);
        lemma_grid_bridge(cells.drop_last(), models.drop_last());
        assert(cell_matches_model(cells.last(), models.last()));
        assert forall|c: int| #![auto] col_max_width(cells, c) == col_w_m(models, c) by {
            assert(col_max_width(cells.drop_last(), c) == col_w_m(models.drop_last(), c));
            assert(cell_has_col(cells.last(), c) == (models.last().col <= c < models.last().col
                + models.last().span));
            if cell_has_col(cells.last(), c) {
                assert(cell_share(cells.last()) == share_m(models.last()));
            }
        }
        assert forall|r: int| #![auto] row_max_height(cells, r) == row_h_m(models, r) by {
            assert(row_max_height(cells.drop_last(), r) == row_h_m(models.drop_last(), r));
        }
    }
}

/// Every record of a row scan lies in that row, spans at least its declared
/// width forward from a cursor at or past `col`, and ends within the row's
/// total span.
proof fn lemma_row_cells_bounds(cs: Seq<NodeV>, row: int, col: int)
    ensures
        forall|i: int|
            0 <= i < row_cells(cs, row, col).len() ==> (#[trigger] row_cells(cs, row, col)[i]).row
                == row,
        forall|i: int|
            0 <= i < row_cells(cs, row, col).len() ==> col <= (#[trigger] row_cells(
                cs,
                row,
                col,
            )[i]).col && row_cells(cs, row, col)[i].col + row_cells(cs, row, col)[i].span <= col
                + row_total_span(cs),
        forall|i: int|
            0 <= i < row_cells(cs, row, col).len() ==> (#[trigger] row_cells(
                cs,
                row,
                col,
            )[i]).span >= 1,
    decreases cs.len(),
{
    if cs.len() > 0 {
        let c = cs[0];
        let rc = row_cells(cs, row, col);
        lemma_row_total_span_nonneg(cs.drop_first());
        if is_cell_elem(c) {
            lemma_colspan_nonneg(c);
            let span = colspan_of(c);
            lemma_row_cells_bounds(cs.drop_first(), row, col + span);
            let rest = row_cells(cs.drop_first(), row, col + span);
            if text_of(c).len() == 0 || span == 0 {
                assert(rc == rest);
            } else {
                let m = CellModel { row, col, span, text: text_of(c) };
                assert(rc == seq![m] + rest);
                assert forall|i: int| 0 <= i < rc.len() implies (#[trigger] rc[i]).row == row
                    && col <= rc[i].col && rc[i].col + rc[i].span <= col + row_total_span(cs)
                    && rc[i].span >= 1 by {
                    if i == 0 {
                        assert(rc[0] == m);
                    } else {
                        assert(rc[i] == rest[i - 1]);
                    }
                }
            }
        } else {
            lemma_row_cells_bounds(cs.drop_first(), row, col);
            assert(rc == row_cells(cs.drop_first(), row, col));
            assert(row_total_span(cs) == row_total_span(cs.drop_first()));
        }
    }
}

/// A column span is never negative.
proof fn lemma_colspan_nonneg(n: NodeV)
    ensures
        colspan_of(n) >= 0,
{
}

/// A row's total span is never negative.
proof fn lemma_row_total_span_nonneg(cs: Seq<NodeV>)
    ensures
        row_total_span(cs) >= 0,
    decreases cs.len(),
{
    if cs.len() > 0 {
        if is_cell_elem(cs[0]) {
            lemma_colspan_nonneg(cs[0]);
        }
        lemma_row_total_span_nonneg(cs.drop_first());
    }
}

/// Every record of the whole scan lies in a real row.
proof fn lemma_rows_cells_bounds(trs: Seq<NodeV>, row: int)
    ensures
        forall|i: int|
            0 <= i < rows_cells(trs, row).len() ==> row <= (#[trigger] rows_cells(trs, row)[i]).row
                < row + trs.len(),
        forall|i: int|
            0 <= i < rows_cells(trs, row).len() ==> (#[trigger] rows_cells(trs, row)[i]).col >= 0
                && rows_cells(trs, row)[i].span >= 1,
    decreases trs.len(),
{
    if trs.len() > 0 {
        lemma_row_cells_bounds(trs[0].children, row, 0);
        lemma_rows_cells_bounds(trs.drop_first(), row + 1);
        lemma_row_total_span_nonneg(trs[0].children);
        let head = row_cells(trs[0].children, row, 0);
        let rest = rows_cells(trs.drop_first(), row + 1);
        let rc = rows_cells(trs, row);
        assert forall|i: int| 0 <= i < rc.len() implies row <= (#[trigger] rc[i]).row < row
            + trs.len() && rc[i].col >= 0 && rc[i].span >= 1 by {
            if i < head.len() {
                assert(rc[i] == head[i]);
            } else {
                assert(rc[i] == rest[i - head.len()]);
            }
        }
    }
}

/// Every record's columns lie below the column count.
proof fn lemma_cols_m_bounds(cells: Seq<CellModel>, i: int)
    requires
        0 <= i < cells.len(),
    ensures
        cells[i].col + cells[i].span <= cols_m(cells),
        cols_m(cells) >= 0,
    decreases cells.len(),
{
    if i < cells.len() - 1 {
        lemma_cols_m_bounds(cells.drop_last(), i);
    }
    lemma_cols_m_nonneg(cells);
}

/// A column count is never negative.
proof fn lemma_cols_m_nonneg(cells: Seq<CellModel>)
    ensures
        cols_m(cells) >= 0,
    decreases cells.len(),
{
    if cells.len() > 0 {
        lemma_cols_m_nonneg(cells.drop_last());
    }
}

/// A matched sequence of widths sums to the model's total.
proof fn lemma_sum_matches(s: Seq<u32>, m: Seq<int>)
    requires
        s.len() == m.len(),
        forall|i: int| 0 <= i < s.len() ==> #[trigger] s[i] as int == m[i],
    ensures
        sum_u32(s) == sum_int(m),
    decreases s.len(),
{
    if s.len() > 0 {
        assert(forall|i: int| 0 <= i < s.drop_last().len() ==> s.drop_last()[i] == s[i]);
        assert(forall|i: int| 0 <= i < m.drop_last().len() ==> m.drop_last()[i] == m[i]);
        lemma_sum_matches(s.drop_last(), m.drop_last());
    }
}

/// What a table subtree must satisfy for its grid to be computed within
/// fixed-width arithmetic: the row count and every column cursor fit, every
/// cell's text is measurable, and the summed widths and heights fit their
/// fields. Trivially satisfied by a table that the builder skips.
pub open spec fn table_fits(t: NodeV) -> bool {
    find_in_node(t, "tbody"@).len() == 1 ==> {
        let trs = find_in_node(find_in_node(t, "tbody"@)[0], "tr"@);
        let cells = rows_cells(trs, 0);
        &&& trs.len() <= u32::MAX
        &&& MEASURE_UNIT * trs.len() <= i32::MAX
        &&& (forall|r: int|
            0 <= r < trs.len() ==> row_total_span(#[trigger] trs[r].children) <= u32::MAX)
        &&& (forall|i: int|
            0 <= i < cells.len() ==> (#[trigger] cells[i]).text.len() <= MAX_MEASURE_LEN)
        &&& sum_int(widths_m(cells)) <= i32::MAX
        &&& heights_total_m(cells, trs.len() as int) <= u32::MAX
    }
}

/// The style heuristic's outcome: a width override if the style attribute
/// mentions one, nothing else set.
pub open spec fn props_match(p: BlockProps, n: NodeV) -> bool {
    &&& p.width == (if style_has_width(n) {
        Some(STYLE_WIDTH_OVERRIDE)
    } else {
        None::<u32>
    })
    &&& p.height is None
    &&& p.min_width == u32::MIN
    &&& p.min_height == u32::MIN
    &&& p.max_width == u32::MAX
    &&& p.max_height == u32::MAX
}

/// One laid-out cell: the record's text and grid place, the measured height,
/// the position the distributor assigned, and a width widened to fill the
/// cell's column allocation.
pub open spec fn cell_placed(c: TableCell, m: CellModel, ws: Seq<int>) -> bool {
    &&& cell_wf(c)
    &&& cell_row(c) == m.row
    &&& cell_col(c) == m.col
    &&& cell_span(c) == m.span
    &&& c.text_block.text@ == m.text
    &&& c.text_block.size.height as int == cell_h_m(m)
    &&& c.text_block.max_width as int == cell_w_m(m)
    &&& c.text_block.min_width == MEASURE_UNIT
    &&& c.text_block.pos.x as int == sum_int(ws.take(m.col))
    &&& c.text_block.pos.y as int == MEASURE_UNIT * m.row
    &&& c.text_block.size.width as int == sum_int(ws.subrange(m.col, m.col + m.span))
}

/// What `Table::new_from` yields for the subtree `n`: a skipped shell when
/// `n` does not hold exactly one row container, otherwise the fully laid-out
/// grid of `n`'s cell records.
pub open spec fn table_built(t: Table, n: NodeV) -> bool {
    let tbodies = find_in_node(n, "tbody"@);
    if tbodies.len() != 1 {
        &&& props_match(t.block_props, n)
        &&& t.rows == 0
        &&& t.cols == 0
        &&& t.cells@.len() == 0
        &&& t.max_width_cols@.len() == 0
        &&& t.min_width_cols@.len() == 0
        &&& t.size.width == 0
        &&& t.size.height == 0
    } else {
        let trs = find_in_node(tbodies[0], "tr"@);
        let cells = rows_cells(trs, 0);
        let ws = widths_m(cells);
        &&& props_match(t.block_props, n)
        &&& t.rows == trs.len()
        &&& t.cols as int == cols_m(cells)
        &&& t.min_width_cols@.len() == 0
        &&& t.max_width_cols@.len() == ws.len()
        &&& (forall|c: int| 0 <= c < ws.len() ==> #[trigger] t.max_width_cols@[c] as int == ws[c])
        &&& t.cells@.len() == cells.len()
        &&& (forall|i: int|
            0 <= i < cells.len() ==> cell_placed(#[trigger] t.cells@[i], cells[i], ws))
        &&& (forall|i: int|
            0 <= i < cells.len() ==> (#[trigger] t.cells@[i]).text_block.size.width as int
                >= cell_w_m(cells[i]))
        &&& t.size.height as int == heights_total_m(cells, trs.len() as int)
        &&& t.size.width as int == (if style_has_width(n) {
            STYLE_WIDTH_OVERRIDE as int
        } else {
            sum_int(ws)
        })
    }
}

/// Whether `child` is a header or data cell element.
fn is_cell_tag(child: &Node) -> (r: bool)
    ensures
        r == is_cell_elem(child@),
{
    let tag_name = get_elem_name(child);
    let r = crate::text::str_eq(tag_name.as_str(), "th") || crate::text::str_eq(
        tag_name.as_str(),
        "td",
    );
    proof {
        assert(r == is_cell_elem(child@)) by {
            reveal_strlit("th");
            reveal_strlit("td");
            assert("th"@.len() == 2);
            assert("td"@.len() == 2);
            if !(child@.data is Element) {
                assert(elem_name_of(child@) == Seq::<char>::empty());
            }
        }
    }
    r
}

/// The column span `child` declares: its colspan attribute read as an
/// unsigned integer, defaulting to 1 when absent or unreadable.
fn read_colspan(child: &Node) -> (c: u32)
    ensures
        c as int == colspan_of(child@),
{
    let c = match get_attr(child, "colspan") {
        Some(s) => match parse_u32(s.as_str()) {
            Some(v) => v,
            None => 1,
        },
        None => 1,
    };
    proof {
        reveal_strlit("colspan");
    }
    c
}

/// Builds the cells of one row and appends them to `cells`, advancing a fresh
/// column cursor by each cell element's span.
fn build_row(tr: &Node, row: u32, cells: &mut Vec<TableCell>)
    requires
        row_total_span(tr@.children) <= u32::MAX,
        forall|i: int|
            0 <= i < row_cells(tr@.children, row as int, 0).len() ==> (#[trigger] row_cells(
                tr@.children,
                row as int,
                0,
            )[i]).text.len() <= MAX_MEASURE_LEN,
        forall|i: int|
            0 <= i < row_cells(tr@.children, row as int, 0).len() ==> (#[trigger] row_cells(
                tr@.children,
                row as int,
                0,
            )[i]).span >= 1,
    ensures
        final(cells)@.len() == old(cells)@.len() + row_cells(tr@.children, row as int, 0).len(),
        forall|j: int| 0 <= j < old(cells)@.len() ==> #[trigger] final(cells)@[j] == old(
            cells,
        )@[j],
        forall|i: int|
            0 <= i < row_cells(tr@.children, row as int, 0).len() ==> cell_matches_model(
                #[trigger] final(cells)@[old(cells)@.len() + i],
                row_cells(tr@.children, row as int, 0)[i],
            ),
{
    let ghost kids = tr@.children;
    let ghost rmodels = row_cells(kids, row as int, 0);
    let ghost old_len = cells@.len();
    let n: usize = tr.children.len();
    proof {
        lemma_nodes_view(tr.children@);
        assert(kids.skip(0) =~= kids);
    }
    let mut col: u32 = 0;
    let ghost mut b: int = 0;
    let mut j: usize = 0;
    while j < n
        invariant
            j <= n,
            n == tr.children@.len(),
            kids == tr@.children,
            kids == nodes_view(tr.children@),
            rmodels == row_cells(kids, row as int, 0),
            row_total_span(kids) <= u32::MAX,
            forall|i: int| 0 <= i < rmodels.len() ==> (#[trigger] rmodels[i]).text.len()
                <= MAX_MEASURE_LEN,
            forall|i: int| 0 <= i < rmodels.len() ==> (#[trigger] rmodels[i]).span >= 1,
            0 <= b <= rmodels.len(),
            col as int + row_total_span(kids.skip(j as int)) == row_total_span(kids),
            rmodels.skip(b) == row_cells(kids.skip(j as int), row as int, col as int),
            cells@.len() == old_len + b,
            forall|t: int| 0 <= t < old_len ==> #[trigger] cells@[t] == old(cells)@[t],
            forall|i: int| 0 <= i < b ==> cell_matches_model(
                #[trigger] cells@[old_len + i],
                rmodels[i],
            ),
        decreases n - j,
    {
        let child = &tr.children[j];
        proof {
            lemma_nodes_view(tr.children@);
            assert(child@ == kids[j as int]);
            assert(kids.skip(j as int)[0] == kids[j as int]);
            assert(kids.skip(j as int).drop_first() =~= kids.skip(j + 1));
            lemma_row_total_span_nonneg(kids.skip(j + 1));
        }
        let is_cell = is_cell_tag(child);
        if is_cell {
            let colspan: u32 = read_colspan(child);
            proof {
                assert(colspan as int == colspan_of(kids[j as int]));
                assert(row_total_span(kids.skip(j as int)) == colspan_of(kids[j as int])
                    + row_total_span(kids.skip(j + 1)));
            }
            let text = collect_text(child);
            if colspan == 0 || text.as_str().is_empty() {
                proof {
                    assert(colspan == 0 || text_of(kids[j as int]).len() == 0);
                }
            } else {
                proof {
                    assert(text_of(kids[j as int]).len() > 0);
                    assert(colspan_of(kids[j as int]) != 0);
                    let m = CellModel {
                        row: row as int,
                        col: col as int,
                        span: colspan as int,
                        text: text_of(kids[j as int]),
                    };
                    assert(row_cells(kids.skip(j as int), row as int, col as int) == seq![m]
                        + row_cells(kids.skip(j + 1), row as int, col as int + colspan as int));
                    assert(rmodels.skip(b).len() > 0);
                    assert(0 <= b < rmodels.len());
                    assert(rmodels.skip(b)[0] == rmodels[b]);
                    assert(rmodels[b] == m);
                }
                proof {
                    assert(rmodels[b].row == row as int);
                    assert(rmodels[b].col == col as int);
                    assert(rmodels[b].span == colspan as int);
                    assert(rmodels[b].text == text@);
                    assert(rmodels[b].span >= 1);
                }
                let tb = TextBlock::new_from(text.as_str());
                let ghost tbg = tb;
                let mut cell = TableCell::new_from(tb);
                cell.row_range.push(row);
                let mut k: u32 = 0;
                while k < colspan
                    invariant
                        k <= colspan,
                        col as int + colspan as int <= u32::MAX,
                        cell.text_block == tbg,
                        cell.row_range@ == seq![row],
                        cell.col_range@.len() == k,
                        forall|t: int| 0 <= t < k ==> #[trigger] cell.col_range@[t] == col + t,
                    decreases colspan - k,
                {
                    cell.col_range.push(col + k);
                    k = k + 1;
                }
                let ghost cellg = cell;
                cells.push(cell);
                proof {
                    assert(cell_matches_model(cellg, rmodels[b]));
                    b = b + 1;
                    assert(rmodels.skip(b) =~= rmodels.skip(b - 1).drop_first());
                }
            }
            col = col + colspan;
        } else {
            proof {
                assert(row_cells(kids.skip(j as int), row as int, col as int) == row_cells(
                    kids.skip(j + 1),
                    row as int,
                    col as int,
                ));
                assert(row_total_span(kids.skip(j as int)) == row_total_span(kids.skip(j + 1)));
            }
        }
        j = j + 1;
    }
    proof {
        assert(kids.skip(n as int) =~= Seq::<NodeV>::empty());
        assert(rmodels.skip(b).len() == 0);
        assert(b == rmodels.len());
    }
}

/// When every row's total span stays within `bound`, so does every record's
/// final column.
proof fn lemma_rows_cells_span_bound(trs: Seq<NodeV>, row: int, bound: int)
    requires
        forall|r: int| 0 <= r < trs.len() ==> row_total_span(#[trigger] trs[r].children) <= bound,
    ensures
        forall|i: int|
            0 <= i < rows_cells(trs, row).len() ==> (#[trigger] rows_cells(trs, row)[i]).col
                + rows_cells(trs, row)[i].span <= bound,
    decreases trs.len(),
{
    if trs.len() > 0 {
        lemma_row_cells_bounds(trs[0].children, row, 0);
        assert(forall|r: int|
            0 <= r < trs.drop_first().len() ==> trs.drop_first()[r] == trs[r + 1]);
        lemma_rows_cells_span_bound(trs.drop_first(), row + 1, bound);
        let head = row_cells(trs[0].children, row, 0);
        let rest = rows_cells(trs.drop_first(), row + 1);
        let rc = rows_cells(trs, row);
        assert(row_total_span(trs[0].children) <= bound);
        assert forall|i: int| 0 <= i < rc.len() implies (#[trigger] rc[i]).col + rc[i].span
            <= bound by {
            if i < head.len() {
                assert(rc[i] == head[i]);
            } else {
                assert(rc[i] == rest[i - head.len()]);
            }
        }
    }
}

impl Table {
    /// Builds the laid-out table for the subtree rooted at `table_node`: reads
    /// the style width heuristic, requires exactly one row container (else the
    /// table stays an empty shell), collects the grid of cells row by row,
    /// sizes the columns and rows, positions the cells, and widens each cell
    /// to its column allocation.
    pub fn new_from(table_node: &Node) -> (t: Table)
        requires
            table_fits(table_node@),
        ensures
            table_built(t, table_node@),
    {
        let mut table = Table::new();
        let mut block_props = BlockProps::new();
        match get_attr(table_node, "style") {
            Some(style) => {
                if contains_str(style.as_str(), "width") {
                    block_props.width = Some(STYLE_WIDTH_OVERRIDE);
                }
            },
            None => {},
        }
        proof {
            assert(props_match(block_props, table_node@));
        }
        table.block_props = block_props;

        let tbody_nodes = find_elements(table_node, "tbody");
        proof {
            lemma_nodes_view(tbody_nodes@);
        }
        if tbody_nodes.len() != 1 {
            return table;
        }
        let tbody_node = &tbody_nodes[0];
        let ghost tbodies = find_in_node(table_node@, "tbody"@);
        proof {
            assert(tbody_node@ == tbodies[0]);
        }
        let tr_nodes = find_elements(tbody_node, "tr");
        proof {
            lemma_nodes_view(tr_nodes@);
        }
        let ghost trs = find_in_node(tbodies[0], "tr"@);
        let ghost models = rows_cells(trs, 0);

        let nrows: usize = tr_nodes.len();
        proof {
            assert(trs.len() == nrows);
        }
        table.rows = nrows as u32;

        // Collect the grid of cells, row by row.
        let mut cells: Vec<TableCell> = Vec::new();
        let ghost mut done: int = 0;
        proof {
            assert(trs.skip(0) =~= trs);
            assert(models.skip(0) =~= models);
        }
        let mut r: usize = 0;
        while r < nrows
            invariant
                r <= nrows,
                nrows == tr_nodes@.len(),
                nrows == trs.len(),
                nodes_view(tr_nodes@) == trs,
                models == rows_cells(trs, 0),
                table_fits(table_node@),
                tbodies == find_in_node(table_node@, "tbody"@),
                tbodies.len() == 1,
                trs == find_in_node(tbodies[0], "tr"@),
                0 <= done <= models.len(),
                cells@.len() == done,
                models.skip(done) == rows_cells(trs.skip(r as int), r as int),
                forall|i: int| 0 <= i < done ==> cell_matches_model(
                    #[trigger] cells@[i],
                    models[i],
                ),
            decreases nrows - r,
        {
            let tr = &tr_nodes[r];
            proof {
                lemma_nodes_view(tr_nodes@);
                assert(tr@ == trs[r as int]);
                assert(trs.skip(r as int)[0] == trs[r as int]);
                assert(trs.skip(r as int).drop_first() =~= trs.skip(r + 1));
                assert(rows_cells(trs.skip(r as int), r as int) == row_cells(
                    trs[r as int].children,
                    r as int,
                    0,
                ) + rows_cells(trs.skip(r + 1), r + 1));
                let rowm = row_cells(trs[r as int].children, r as int, 0);
                lemma_row_cells_bounds(trs[r as int].children, r as int, 0);
                assert(models.skip(done).len() == models.len() - done);
                assert(models.skip(done) == rowm + rows_cells(trs.skip(r + 1), r + 1));
                assert forall|i: int| 0 <= i < rowm.len() implies (#[trigger] rowm[i]).text.len()
                    <= MAX_MEASURE_LEN by {
                    assert(i < models.skip(done).len());
                    assert(rowm[i] == models.skip(done)[i]);
                    assert(0 <= done + i < models.len());
                    assert(models.skip(done)[i] == models[done + i]);
                }
            }
            let ghost old_cells_len = cells@.len();
            build_row(tr, r as u32, &mut cells);
            proof {
                let rowm = row_cells(trs[r as int].children, r as int, 0);
                assert forall|i: int| 0 <= i < cells@.len() implies cell_matches_model(
                    #[trigger] cells@[i],
                    models[i],
                ) by {
                    if i >= done {
                        assert(cells@[i] == cells@[old_cells_len + (i - done)]);
                        assert(cell_matches_model(cells@[i], rowm[i - done]));
                        assert(rowm[i - done] == models.skip(done)[i - done]);
                    }
                }
                done = done + rowm.len();
                assert(models.skip(done) =~= models.skip(done - rowm.len() as int).skip(
                    rowm.len() as int,
                ));
                assert(models.skip(done - rowm.len() as int).skip(rowm.len() as int)
                    =~= rows_cells(trs.skip(r + 1), r + 1));
            }
            r = r + 1;
        }
        proof {
            assert(trs.skip(nrows as int) =~= Seq::<NodeV>::empty());
            assert(models.skip(done).len() == 0);
            assert(done == models.len());
        }
        table.cells = cells;

        // Grid extents and column widths.
        proof {
            lemma_rows_cells_span_bound(trs, 0, u32::MAX as int);
            lemma_grid_bridge(table.cells@, models);
            lemma_cols_m_nonneg(models);
        }
        table.cols = table.calc_cols();
        table.max_width_cols = table.calc_max_width_cols();
        let ghost ws = widths_m(models);
        proof {
            assert(table.max_width_cols@.len() == ws.len());
            assert(forall|c: int|
                0 <= c < ws.len() ==> #[trigger] table.max_width_cols@[c] as int == ws[c]);
            lemma_sum_matches(table.max_width_cols@, ws);
        }

        // Total width: the sum of the column widths.
        let ncols: usize = table.max_width_cols.len();
        let mut total_w: u32 = 0;
        proof {
            assert(sum_u32(table.max_width_cols@.take(0)) == 0);
            lemma_sum_u32_nonneg(table.max_width_cols@);
        }
        let mut i: usize = 0;
        while i < ncols
            invariant
                i <= ncols,
                ncols == table.max_width_cols@.len(),
                sum_u32(table.max_width_cols@) <= i32::MAX,
                total_w as int == sum_u32(table.max_width_cols@.take(i as int)),
            decreases ncols - i,
        {
            proof {
                lemma_sum_u32_prefix(table.max_width_cols@, i + 1);
                assert(table.max_width_cols@.take(i + 1).drop_last() =~= table.max_width_cols@.take(
                    i as int,
                ));
                assert(table.max_width_cols@.take(i + 1).last() == table.max_width_cols@[i as int]);
            }
            total_w = total_w + table.max_width_cols[i];
            i = i + 1;
        }
        proof {
            assert(table.max_width_cols@.take(ncols as int) =~= table.max_width_cols@);
        }
        table.size.width = total_w;

        // Total height: the sum of the row heights.
        let heights = table.calc_max_height_rows();
        let ghost hs = Seq::new(nrows as nat, |q: int| row_h_m(models, q));
        proof {
            assert(heights@.len() == hs.len());
            assert(forall|q: int| 0 <= q < hs.len() ==> #[trigger] heights@[q] as int == hs[q]);
            lemma_sum_matches(heights@, hs);
            assert(sum_u32(heights@) == heights_total_m(models, nrows as int));
            assert(sum_u32(heights@.take(0)) == 0);
        }
        let mut total_h: u32 = 0;
        let mut q: usize = 0;
        while q < nrows
            invariant
                q <= nrows,
                nrows == heights@.len(),
                sum_u32(heights@) <= u32::MAX,
                total_h as int == sum_u32(heights@.take(q as int)),
            decreases nrows - q,
        {
            proof {
                lemma_sum_u32_prefix(heights@, q + 1);
                assert(heights@.take(q + 1).drop_last() =~= heights@.take(q as int));
                assert(heights@.take(q + 1).last() == heights@[q as int]);
            }
            total_h = total_h + heights[q];
            q = q + 1;
        }
        proof {
            assert(heights@.take(nrows as int) =~= heights@);
        }
        table.size.height = total_h;

        // Geometry: positions, then widths widened to the column allocation.
        proof {
            lemma_rows_cells_bounds(trs, 0);
            assert forall|i: int| 0 <= i < table.cells@.len() implies cell_col(
                #[trigger] table.cells@[i],
            ) < table.max_width_cols@.len() && cell_row(table.cells@[i]) < table.rows by {
                lemma_cols_m_bounds(models, i);
            }
        }
        let ghost before_pos = table.cells@;
        table.calc_positions();
        proof {
            assert forall|i: int| 0 <= i < table.cells@.len() implies cell_wf(
                #[trigger] table.cells@[i],
            ) && cell_col(table.cells@[i]) + cell_span(table.cells@[i])
                <= table.max_width_cols@.len() by {
                assert(cell_same_but_pos(table.cells@[i], before_pos[i]));
                lemma_cols_m_bounds(models, i);
            }
        }
        let ghost before_size = table.cells@;
        table.set_cell_sizes();

        // The style override forces the total width.
        match table.block_props.width {
            Some(w) => {
                table.size.width = w;
            },
            None => {},
        }

        proof {
            assert forall|i: int| 0 <= i < models.len() implies cell_placed(
                #[trigger] table.cells@[i],
                models[i],
                ws,
            ) && table.cells@[i].text_block.size.width as int >= cell_w_m(models[i]) by {
                assert(cell_same_but_width(table.cells@[i], before_size[i]));
                assert(cell_same_but_pos(before_size[i], before_pos[i]));
                assert(cell_matches_model(before_pos[i], models[i]));
                lemma_cols_m_bounds(models, i);
                assert(cell_wf(before_pos[i]));
                assert(cell_col(before_pos[i]) + cell_span(before_pos[i])
                    <= table.max_width_cols@.len());
                lemma_allocation_covers_measured(before_pos, table.max_width_cols@, i);
                let m = models[i];
                assert(table.max_width_cols@.take(cell_col(before_pos[i])) =~= table.max_width_cols@.take(
                    m.col,
                ));
                lemma_sum_matches(table.max_width_cols@.take(m.col), ws.take(m.col));
                lemma_sum_matches(
                    table.max_width_cols@.subrange(m.col, m.col + m.span),
                    ws.subrange(m.col, m.col + m.span),
                );
            }
        }
        table
    }
}

/// Walks one row and checks it against the measurement limits: the column
/// cursor must stay within 32 bits and every cell's text must be measurable.
fn check_row(tr: &Node, row: u32) -> (ok: bool)
    ensures
        ok ==> row_total_span(tr@.children) <= u32::MAX,
        ok ==> forall|i: int|
            0 <= i < row_cells(tr@.children, row as int, 0).len() ==> (#[trigger] row_cells(
                tr@.children,
                row as int,
                0,
            )[i]).text.len() <= MAX_MEASURE_LEN,
        !ok ==> row_total_span(tr@.children) > u32::MAX || exists|i: int|
            0 <= i < row_cells(tr@.children, row as int, 0).len() && (#[trigger] row_cells(
                tr@.children,
                row as int,
                0,
            )[i]).text.len() > MAX_MEASURE_LEN,
{
    let ghost kids = tr@.children;
    let ghost rmodels = row_cells(kids, row as int, 0);
    let n: usize = tr.children.len();
    proof {
        lemma_nodes_view(tr.children@);
        assert(kids.skip(0) =~= kids);
    }
    let mut col: u64 = 0;
    let ghost mut b: int = 0;
    let mut j: usize = 0;
    while j < n
        invariant
            j <= n,
            n == tr.children@.len(),
            kids == tr@.children,
            kids == nodes_view(tr.children@),
            rmodels == row_cells(kids, row as int, 0),
            0 <= b <= rmodels.len(),
            col <= u32::MAX,
            col as int + row_total_span(kids.skip(j as int)) == row_total_span(kids),
            rmodels.skip(b) == row_cells(kids.skip(j as int), row as int, col as int),
            forall|i: int| 0 <= i < b ==> (#[trigger] rmodels[i]).text.len() <= MAX_MEASURE_LEN,
        decreases n - j,
    {
        let child = &tr.children[j];
        proof {
            lemma_nodes_view(tr.children@);
            assert(child@ == kids[j as int]);
            assert(kids.skip(j as int)[0] == kids[j as int]);
            assert(kids.skip(j as int).drop_first() =~= kids.skip(j + 1));
            lemma_row_total_span_nonneg(kids.skip(j + 1));
        }
        let is_cell = is_cell_tag(child);
        if is_cell {
            let colspan: u32 = read_colspan(child);
            proof {
                assert(colspan as int == colspan_of(kids[j as int]));
                assert(row_total_span(kids.skip(j as int)) == colspan_of(kids[j as int])
                    + row_total_span(kids.skip(j + 1)));
            }
            if col + (colspan as u64) > u32::MAX as u64 {
                proof {
                    assert(row_total_span(kids) > u32::MAX);
                }
                return false;
            }
            let text = collect_text(child);
            if colspan == 0 || text.as_str().is_empty() {
                proof {
                    assert(colspan == 0 || text_of(kids[j as int]).len() == 0);
                }
            } else {
                proof {
                    assert(text_of(kids[j as int]).len() > 0);
                    assert(colspan_of(kids[j as int]) != 0);
                    let m = CellModel {
                        row: row as int,
                        col: col as int,
                        span: colspan as int,
                        text: text_of(kids[j as int]),
                    };
                    assert(row_cells(kids.skip(j as int), row as int, col as int) == seq![m]
                        + row_cells(kids.skip(j + 1), row as int, col as int + colspan as int));
                    assert(rmodels.skip(b).len() > 0);
                    assert(0 <= b < rmodels.len());
                    assert(rmodels.skip(b)[0] == rmodels[b]);
                    assert(rmodels[b] == m);
                    assert(rmodels[b].text == text@);
                }
                if text.as_str().unicode_len() > MAX_MEASURE_LEN {
                    proof {
                        assert(0 <= b < row_cells(tr@.children, row as int, 0).len()
                            && row_cells(tr@.children, row as int, 0)[b].text.len()
                            > MAX_MEASURE_LEN);
                    }
                    return false;
                }
                proof {
                    b = b + 1;
                    assert(rmodels.skip(b) =~= rmodels.skip(b - 1).drop_first());
                }
            }
            col = col + (colspan as u64);
        } else {
            proof {
                assert(row_cells(kids.skip(j as int), row as int, col as int) == row_cells(
                    kids.skip(j + 1),
                    row as int,
                    col as int,
                ));
                assert(row_total_span(kids.skip(j as int)) == row_total_span(kids.skip(j + 1)));
            }
        }
        j = j + 1;
    }
    proof {
        assert(kids.skip(n as int) =~= Seq::<NodeV>::empty());
        assert(rmodels.skip(b).len() == 0);
        assert(b == rmodels.len());
    }
    true
}

impl Table {
    /// Builds the laid-out table for `table_node` after checking, at run
    /// time, the measurement limits that `Table::new_from` asks of its
    /// caller; where a limit is exceeded nothing is built and `None` comes
    /// back. A table the builder skips is always built, as its empty shell.
    pub fn try_new_from(table_node: &Node) -> (r: Option<Table>)
        ensures
            match r {
                Some(t) => table_fits(table_node@) && table_built(t, table_node@),
                None => !table_fits(table_node@),
            },
    {
        let tbody_nodes = find_elements(table_node, "tbody");
        proof {
            lemma_nodes_view(tbody_nodes@);
        }
        if tbody_nodes.len() != 1 {
            return Some(Self::new_from(table_node));
        }
        let ghost tbodies = find_in_node(table_node@, "tbody"@);
        let tbody_node = &tbody_nodes[0];
        proof {
            assert(tbody_node@ == tbodies[0]);
        }
        let tr_nodes = find_elements(tbody_node, "tr");
        proof {
            lemma_nodes_view(tr_nodes@);
        }
        let ghost trs = find_in_node(tbodies[0], "tr"@);
        let ghost models = rows_cells(trs, 0);
        let nrows: usize = tr_nodes.len();
        proof {
            assert(trs.len() == nrows);
        }
        if (nrows as u64) > (u32::MAX as u64) {
            proof {
                assert(!table_fits(table_node@));
            }
            return None;
        }
        if (MEASURE_UNIT as u64) * (nrows as u64) > (i32::MAX as u64) {
            proof {
                assert(MEASURE_UNIT * trs.len() > i32::MAX);
                assert(!table_fits(table_node@));
            }
            return None;
        }
        // Check every row and gather the grid it contributes.
        let mut cells: Vec<TableCell> = Vec::new();
        let ghost mut done: int = 0;
        proof {
            assert(trs.skip(0) =~= trs);
            assert(models.skip(0) =~= models);
        }
        let mut r: usize = 0;
        while r < nrows
            invariant
                r <= nrows,
                nrows <= u32::MAX,
                nrows == tr_nodes@.len(),
                nrows == trs.len(),
                nodes_view(tr_nodes@) == trs,
                models == rows_cells(trs, 0),
                tbodies == find_in_node(table_node@, "tbody"@),
                tbodies.len() == 1,
                trs == find_in_node(tbodies[0], "tr"@),
                0 <= done <= models.len(),
                cells@.len() == done,
                models.skip(done) == rows_cells(trs.skip(r as int), r as int),
                forall|i: int| 0 <= i < done ==> cell_matches_model(
                    #[trigger] cells@[i],
                    models[i],
                ),
                forall|i: int| 0 <= i < done ==> (#[trigger] models[i]).text.len()
                    <= MAX_MEASURE_LEN,
                forall|q: int|
                    0 <= q < r ==> row_total_span(#[trigger] trs[q].children) <= u32::MAX,
            decreases nrows - r,
        {
            let tr = &tr_nodes[r];
            proof {
                lemma_nodes_view(tr_nodes@);
                assert(tr@ == trs[r as int]);
            }
            if !check_row(tr, r as u32) {
                proof {
                    assert(tr@.children == trs[r as int].children);
                    if row_total_span(tr@.children) > u32::MAX {
                        assert(row_total_span(trs[r as int].children) > u32::MAX);
                        assert(!table_fits(table_node@));
                    } else {
                        let rowm = row_cells(trs[r as int].children, r as int, 0);
                        assert(exists|i: int|
                            0 <= i < rowm.len() && (#[trigger] rowm[i]).text.len()
                                > MAX_MEASURE_LEN);
                        let i = choose|i: int|
                            0 <= i < rowm.len() && (#[trigger] rowm[i]).text.len()
                                > MAX_MEASURE_LEN;
                        assert(trs.skip(r as int)[0] == trs[r as int]);
                        assert(trs.skip(r as int).drop_first() =~= trs.skip(r + 1));
                        assert(rows_cells(trs.skip(r as int), r as int) == rowm + rows_cells(
                            trs.skip(r + 1),
                            r + 1,
                        ));
                        assert(models.skip(done) == rowm + rows_cells(trs.skip(r + 1), r + 1));
                        assert(models.skip(done).len() == models.len() - done);
                        assert(i < models.skip(done).len());
                        assert(rowm[i] == models.skip(done)[i]);
                        assert(0 <= done + i < models.len());
                        assert(models.skip(done)[i] == models[done + i]);
                        assert(models[done + i].text.len() > MAX_MEASURE_LEN);
                        assert(!table_fits(table_node@));
                    }
                }
                return None;
            }
            proof {
                assert(tr@.children == trs[r as int].children);
                assert(row_total_span(trs[r as int].children) <= u32::MAX);
                assert(forall|i: int|
                    0 <= i < row_cells(trs[r as int].children, r as int, 0).len()
                        ==> (#[trigger] row_cells(trs[r as int].children, r as int, 0)[i]).text.len()
                        <= MAX_MEASURE_LEN);
                assert(trs.skip(r as int)[0] == trs[r as int]);
                assert(trs.skip(r as int).drop_first() =~= trs.skip(r + 1));
                assert(rows_cells(trs.skip(r as int), r as int) == row_cells(
                    trs[r as int].children,
                    r as int,
                    0,
                ) + rows_cells(trs.skip(r + 1), r + 1));
                lemma_row_cells_bounds(trs[r as int].children, r as int, 0);
            }
            let ghost old_cells_len = cells@.len();
            build_row(tr, r as u32, &mut cells);
            proof {
                let rowm = row_cells(trs[r as int].children, r as int, 0);
                assert(models.skip(done).len() == models.len() - done);
                assert(models.skip(done) == rowm + rows_cells(trs.skip(r + 1), r + 1));
                assert forall|i: int| 0 <= i < cells@.len() implies cell_matches_model(
                    #[trigger] cells@[i],
                    models[i],
                ) by {
                    if i >= done {
                        assert(i - done < models.skip(done).len());
                        assert(cells@[i] == cells@[old_cells_len + (i - done)]);
                        assert(cell_matches_model(cells@[i], rowm[i - done]));
                        assert(rowm[i - done] == models.skip(done)[i - done]);
                        assert(models.skip(done)[i - done] == models[done + (i - done)]);
                    }
                }
                assert forall|i: int| 0 <= i < cells@.len() implies (#[trigger] models[i]).text.len()
                    <= MAX_MEASURE_LEN by {
                    if i >= done {
                        assert(i - done < models.skip(done).len());
                        assert(rowm[i - done] == models.skip(done)[i - done]);
                        assert(models.skip(done)[i - done] == models[done + (i - done)]);
                    }
                }
                done = done + rowm.len();
                assert(models.skip(done) =~= models.skip(done - rowm.len() as int).skip(
                    rowm.len() as int,
                ));
                assert(models.skip(done - rowm.len() as int).skip(rowm.len() as int)
                    =~= rows_cells(trs.skip(r + 1), r + 1));
            }
            r = r + 1;
        }
        proof {
            assert(trs.skip(nrows as int) =~= Seq::<NodeV>::empty());
            assert(models.skip(done).len() == 0);
            assert(done == models.len());
            lemma_rows_cells_span_bound(trs, 0, u32::MAX as int);
            lemma_grid_bridge(cells@, models);
            lemma_cols_m_nonneg(models);
        }
        // Evaluate the summed widths and heights against their fields.
        let mut probe = Table::new();
        probe.cells = cells;
        probe.rows = nrows as u32;
        probe.cols = probe.calc_cols();
        let widths = probe.calc_max_width_cols();
        let heights = probe.calc_max_height_rows();
        let ghost ws = widths_m(models);
        let ghost hs = Seq::new(nrows as nat, |q: int| row_h_m(models, q));
        proof {
            assert(widths@.len() == ws.len());
            assert(forall|c: int| 0 <= c < ws.len() ==> #[trigger] widths@[c] as int == ws[c]);
            lemma_sum_matches(widths@, ws);
            assert(heights@.len() == hs.len());
            assert(forall|q: int| 0 <= q < hs.len() ==> #[trigger] heights@[q] as int == hs[q]);
            lemma_sum_matches(heights@, hs);
            assert(sum_u32(widths@.take(0)) == 0);
            assert(sum_u32(heights@.take(0)) == 0);
        }
        let ncols: usize = widths.len();
        let mut wsum: u64 = 0;
        let mut i: usize = 0;
        while i < ncols
            invariant
                i <= ncols,
                ncols == widths@.len(),
                wsum as int == sum_u32(widths@.take(i as int)),
                wsum <= i32::MAX,
                tbodies == find_in_node(table_node@, "tbody"@),
                tbodies.len() == 1,
                trs == find_in_node(tbodies[0], "tr"@),
                models == rows_cells(trs, 0),
                sum_u32(widths@) == sum_int(widths_m(models)),
            decreases ncols - i,
        {
            proof {
                assert(widths@.take(i + 1).drop_last() =~= widths@.take(i as int));
                assert(widths@.take(i + 1).last() == widths@[i as int]);
            }
            wsum = wsum + (widths[i] as u64);
            if wsum > (i32::MAX as u64) {
                proof {
                    lemma_sum_u32_prefix(widths@, i + 1);
                    assert(sum_int(widths_m(models)) > i32::MAX);
                    assert(!table_fits(table_node@));
                }
                return None;
            }
            i = i + 1;
        }
        proof {
            assert(widths@.take(ncols as int) =~= widths@);
        }
        let mut hsum: u64 = 0;
        let mut q: usize = 0;
        while q < heights.len()
            invariant
                q <= heights@.len(),
                hsum as int == sum_u32(heights@.take(q as int)),
                hsum <= u32::MAX,
                tbodies == find_in_node(table_node@, "tbody"@),
                tbodies.len() == 1,
                trs == find_in_node(tbodies[0], "tr"@),
                models == rows_cells(trs, 0),
                nrows == trs.len(),
                sum_u32(heights@) == heights_total_m(models, nrows as int),
            decreases heights@.len() - q,
        {
            proof {
                assert(heights@.take(q + 1).drop_last() =~= heights@.take(q as int));
                assert(heights@.take(q + 1).last() == heights@[q as int]);
            }
            hsum = hsum + (heights[q] as u64);
            if hsum > (u32::MAX as u64) {
                proof {
                    lemma_sum_u32_prefix(heights@, q + 1);
                    assert(heights_total_m(models, trs.len() as int) > u32::MAX);
                    assert(!table_fits(table_node@));
                }
                return None;
            }
            q = q + 1;
        }
        proof {
            assert(heights@.take(heights@.len() as int) =~= heights@);
            assert(sum_int(ws) <= i32::MAX);
            assert(heights_total_m(models, nrows as int) <= u32::MAX);
            assert(table_fits(table_node@));
        }
        Some(Self::new_from(table_node))
    }
}

/// Whether the builder accepts a table subtree: it holds exactly one row
/// container.
pub open spec fn table_buildable(n: NodeV) -> bool {
    find_in_node(n, "tbody"@).len() == 1
}

/// Lays out every table of the document: finds the table elements in document
/// order, builds each, and keeps those the builder accepts — a table without
/// exactly one row container is silently excluded.
pub fn extract_tables(root: &Node) -> (r: Vec<Table>)
    requires
        forall|i: int|
            0 <= i < find_in_node(root@, "table"@).len() ==> table_fits(
                #[trigger] find_in_node(root@, "table"@)[i],
            ),
    ensures
        ({
            let good = find_in_node(root@, "table"@).filter(|n: NodeV| table_buildable(n));
            &&& r@.len() == good.len()
            &&& forall|i: int| 0 <= i < good.len() ==> table_built(#[trigger] r@[i], good[i])
        }),
{
    let ghost pred = |n: NodeV| table_buildable(n);
    let table_nodes = find_elements(root, "table");
    let ghost tablesv = find_in_node(root@, "table"@);
    let n: usize = table_nodes.len();
    proof {
        lemma_nodes_view(table_nodes@);
        reveal(Seq::filter);
        assert(tablesv.take(0) =~= Seq::<NodeV>::empty());
        assert(tablesv.take(0).filter(pred) =~= Seq::<NodeV>::empty());
    }
    let mut out: Vec<Table> = Vec::new();
    let mut i: usize = 0;
    while i < n
        invariant
            i <= n,
            n == table_nodes@.len(),
            nodes_view(table_nodes@) == tablesv,
            tablesv == find_in_node(root@, "table"@),
            pred == (|m: NodeV| table_buildable(m)),
            forall|j: int| 0 <= j < tablesv.len() ==> table_fits(#[trigger] tablesv[j]),
            out@.len() == tablesv.take(i as int).filter(pred).len(),
            forall|j: int| 0 <= j < out@.len() ==> table_built(
                #[trigger] out@[j],
                tablesv.take(i as int).filter(pred)[j],
            ),
        decreases n - i,
    {
        let tn = &table_nodes[i];
        proof {
            lemma_nodes_view(table_nodes@);
            assert(tn@ == tablesv[i as int]);
        }
        let tbodies = find_elements(tn, "tbody");
        proof {
            lemma_nodes_view(tbodies@);
        }
        let ghost old_out = out@;
        if tbodies.len() == 1 {
            proof {
                assert(table_buildable(tn@));
            }
            out.push(Table::new_from(tn));
        } else {
            proof {
                assert(!table_buildable(tn@));
            }
        }
        i = i + 1;
        proof {
            reveal(Seq::filter);
            let pfx = tablesv.take(i as int);
            assert(pfx.drop_last() =~= tablesv.take(i - 1));
            assert(pfx.last() == tablesv[i - 1]);
            assert(pfx.filter(pred) == (if pred(tablesv[i - 1]) {
                tablesv.take(i - 1).filter(pred).push(tablesv[i - 1])
            } else {
                tablesv.take(i - 1).filter(pred)
            }));
        }
    }
    proof {
        assert(tablesv.take(n as int) =~= tablesv);
    }
    out
}

} // verus!
