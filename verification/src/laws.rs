//! Properties that hold across the operations of the library.
use crate::cell::Cell;
use crate::grid::{
    after_delete, after_insert, delete_count, delete_fits, lemma_delete_end, lemma_fix_tail_len, lemma_map_cells_widths,
    lemma_resized_wf, lemma_with_cells_widths, map_cells, region_step, resize_offset, resized, scrolled_down,
    scrolled_up, settle, view_step, with_cells, GridModel,
};
use crate::reflow::{
    all_empty, chunk_lines, chunks_of,
    lemma_widths_concat, lemma_widths_take_skip,
    concat_cells, content, group_at, group_ok, keep_last, lead_wrapped, lemma_lead_wrapped, lemma_reflow_empty,
    lemma_reflow_unfold, lemma_trim_blank_lines, pad, reflow, reflow_group, reflow_ok, trim_blank_lines, trim_to,
    widths_are,
};
use crate::cell::spec_cell_width;
use crate::edit::{
    clear_refs, deleted, delete_end, delete_ok, fix_tail, leading_refs, lemma_leading_refs, lemma_shift_len, shifted_left,
    shifted_right, spliced, trailing_refs,
};
use crate::row::{blank_line, blank_lines, blanks, Line};
use crate::sixel::{
    advanced, band, band_hi, band_lo, columns, defined, drawn, drawn_columns, enabled, fitting_columns, handle_ok, handled,
    is_shift, painted, row_len, started, Item, SixelMap, SixelModel,
};
use crate::style::Pixel;
use crate::util::spec_clamp;
use vstd::prelude::*;

verus! {

/// On a well formed grid, cutting the scrollback to its limit changes nothing.
pub proof fn law_clean_history_idle(m: GridModel)
    requires
        m.wf(),
    ensures
        keep_last(m.back, m.history) == m.back,
{
}

/// Scrolling a region up leaves the lines above and below it as they were,
/// and keeps the number of lines.
pub proof fn law_scroll_up_stays_in_region(m: GridModel, n: u32, top: u32, bottom: u32)
    requires
        m.wf(),
        top <= bottom < m.rows,
    ensures
        scrolled_up(m, n, Some((top, bottom))).view.len() == m.view.len(),
        scrolled_up(m, n, Some((top, bottom))).view.take(top as int) == m.view.take(top as int),
        scrolled_up(m, n, Some((top, bottom))).view.skip(bottom + 1) == m.view.skip(bottom + 1),
        scrolled_up(m, n, Some((top, bottom))).back == m.back,
{
    let v = scrolled_up(m, n, Some((top, bottom))).view;
    assert(v.take(top as int) =~= m.view.take(top as int));
    assert(v.skip(bottom + 1) =~= m.view.skip(bottom + 1));
}

/// Scrolling a region down leaves the lines above and below it as they were,
/// and keeps the number of lines.
pub proof fn law_scroll_down_stays_in_region(m: GridModel, n: u32, top: u32, bottom: u32)
    requires
        m.wf(),
        top <= bottom < m.rows,
    ensures
        scrolled_down(m, n, Some((top, bottom))).view.len() == m.view.len(),
        scrolled_down(m, n, Some((top, bottom))).view.take(top as int) == m.view.take(top as int),
        scrolled_down(m, n, Some((top, bottom))).view.skip(bottom + 1) == m.view.skip(bottom + 1),
        scrolled_down(m, n, Some((top, bottom))).back == m.back,
{
    let v = scrolled_down(m, n, Some((top, bottom))).view;
    assert(v.take(top as int) =~= m.view.take(top as int));
    assert(v.skip(bottom + 1) =~= m.view.skip(bottom + 1));
}

/// Scrolling the whole view up by `n` moves every line up by `n`, or by the
/// height of the view when that is smaller, fills the bottom with blank lines,
/// and adds the lines scrolled off the top to the scrollback, which is then
/// cut to its limit.
pub proof fn law_scroll_up_whole_view(m: GridModel, n: u32)
    requires
        m.wf(),
    ensures
        ({
            let k = view_step(n, m.rows);
            let r = scrolled_up(m, n, None);
            &&& k == if n < m.rows { n as nat } else { m.rows }
            &&& r.view.len() == m.rows
            &&& forall|j: int| 0 <= j < m.rows && j + k < m.rows ==> #[trigger] r.view[j] == m.view[j + k]
            &&& forall|j: int| 0 <= j < m.rows && j + k >= m.rows ==> #[trigger] r.view[j] == blank_line(m.blank, m.cols)
            &&& r.back == keep_last(m.back + m.view.take(k as int), m.history)
            &&& r.cols == m.cols && r.rows == m.rows && r.history == m.history && r.blank == m.blank
        }),
{
}

/// Scrolling the whole view down by `n` moves every line down by `n`, or by
/// the height of the view when that is smaller, fills the top with blank
/// lines, drops the lines scrolled off the bottom, and keeps the scrollback.
pub proof fn law_scroll_down_whole_view(m: GridModel, n: u32)
    requires
        m.wf(),
    ensures
        ({
            let k = view_step(n, m.rows);
            let r = scrolled_down(m, n, None);
            &&& r.view.len() == m.rows
            &&& forall|j: int| 0 <= j < k ==> #[trigger] r.view[j] == blank_line(m.blank, m.cols)
            &&& forall|j: int| k <= j < m.rows ==> #[trigger] r.view[j] == m.view[j - k]
            &&& r.back == m.back
            &&& r.cols == m.cols && r.rows == m.rows && r.history == m.history && r.blank == m.blank
        }),
{
    let k = view_step(n, m.rows);
    let r = scrolled_down(m, n, None);
    assert forall|j: int| k <= j < m.rows implies #[trigger] r.view[j] == m.view[j - k] by {
        assert(r.view[j] == m.view.take(m.rows - k)[j - k]);
    }
}

/// Deleting from cells of one column each ends exactly `n` columns further,
/// at the end of the row at most.
proof fn lemma_delete_end_plain(s: Seq<Cell>, cols: int, e: int, j: nat)
    requires
        s.len() == cols,
        cols <= u32::MAX,
        0 <= e,
        e + j <= cols,
        forall|i: int| 0 <= i < s.len() ==> !(#[trigger] s[i] is Reference) && spec_cell_width(s[i]) == 1,
    ensures
        delete_end(s, cols, e, j) == e + j,
        delete_ok(s, cols, e, j),
    decreases j,
{
    if j > 0 {
        assert(!(s[e] is Reference) && spec_cell_width(s[e]) == 1);
        if e + 1 < cols {
            lemma_delete_end_plain(s, cols, e + 1, (j - 1) as nat);
        }
    }
}

/// In a row of cells one column wide each, deleting `n` cells at column `x`
/// is always allowed, and it moves the cells after them `n` columns to the
/// left, or takes every cell from `x` on when fewer are left, and blank
/// cells fill the end of the row; the other rows and the scrollback stay.
pub proof fn law_delete_plain_row(m: GridModel, x: u32, y: u32, n: u32)
    requires
        m.wf(),
        m.cols <= u32::MAX,
        y < m.rows,
        x <= m.cols,
        forall|i: int| 0 <= i < m.cols ==> !(#[trigger] m.view[y as int].cells[i] is Reference)
            && spec_cell_width(m.view[y as int].cells[i]) == 1,
    ensures
        delete_fits(m, x, y, n),
        ({
            let k = if n < m.cols - x { n as int } else { m.cols - x };
            let r = after_delete(m, x, y, n);
            let s = m.view[y as int].cells;
            &&& r.view.len() == m.view.len()
            &&& r.view[y as int].cells.len() == m.cols
            &&& r.view[y as int].wrapped == m.view[y as int].wrapped
            &&& forall|i: int| 0 <= i < x ==> #[trigger] r.view[y as int].cells[i] == s[i]
            &&& forall|i: int| x <= i && i + k < m.cols ==> #[trigger] r.view[y as int].cells[i] == s[i + k]
            &&& forall|i: int| x <= i < m.cols && i + k >= m.cols ==> #[trigger] r.view[y as int].cells[i] == m.blank
            &&& forall|j: int| 0 <= j < m.rows && j != y ==> #[trigger] r.view[j] == m.view[j]
            &&& r.back == m.back
        }),
{
    let s = m.view[y as int].cells;
    let c = delete_count(m.cols, x, n);
    assert(c == if n < m.cols - x { n as int } else { m.cols - x });
    lemma_delete_end_plain(s, m.cols as int, x as int, c);
    let k = c as int;
    let r = after_delete(m, x, y, n);
    let d = s.take(x as int) + s.skip(x + k) + blanks(m.blank, k as nat);
    assert(r.view[y as int].cells == d);
    assert forall|i: int| x <= i && i + k < m.cols implies #[trigger] r.view[y as int].cells[i] == s[i + k] by {
        assert(d[i] == s.skip(x + k)[i - x]);
    }
}

/// Resizing a well formed grid of at least one column to at least one column
/// gives a grid of exactly `cols` columns and `rows` rows, with no more
/// scrollback than its limit.
pub proof fn law_resize_shape(m: GridModel, cols: nat, rows: nat)
    requires
        m.wf(),
        m.cols > 0,
        cols > 0,
    ensures
        resized(m, cols, rows).wf(),
        resized(m, cols, rows).cols == cols,
        resized(m, cols, rows).rows == rows,
        resized(m, cols, rows).view.len() == rows,
        resized(m, cols, rows).back.len() <= m.history,
{
    law_rewrap_possible(m.view, m.cols, cols);
    law_rewrap_possible(m.back, m.cols, cols);
    lemma_resized_wf(m, cols, rows);
}

/// Resizing a well formed grid none of whose lines is wrapped to the size it
/// has changes nothing and moves nothing.
pub proof fn law_resize_same_size(m: GridModel)
    requires
        m.wf(),
        forall|i: int| 0 <= i < m.view.len() ==> !(#[trigger] m.view[i]).wrapped,
        forall|i: int| 0 <= i < m.back.len() ==> !(#[trigger] m.back[i]).wrapped,
    ensures
        resized(m, m.cols, m.rows) == m,
        resize_offset(m, m.cols, m.rows) == 0,
{
    law_widen_plain_grid(m, m.cols);
    let r = resized(m, m.cols, m.rows);
    assert(r.view =~= m.view);
    assert(r.back =~= m.back);
}

/// Lines that continue nothing and fit in `cols` cells are kept by
/// rewrapping, filled up to `cols` with `blank`.
pub proof fn law_reflow_keeps_fitting_lines(s: Seq<Line>, cols: nat, blank: Cell)
    requires
        forall|i: int| 0 <= i < s.len() ==> !(#[trigger] s[i]).wrapped && s[i].cells.len() <= cols,
    ensures
        reflow(s, cols, blank) == Seq::new(s.len(), |i: int| Line { cells: pad(s[i].cells, cols, blank), wrapped: false }),
    decreases s.len(),
{
    let want = Seq::new(s.len(), |i: int| Line { cells: pad(s[i].cells, cols, blank), wrapped: false });
    if s.len() == 0 {
        lemma_reflow_empty(cols, blank);
        assert(s =~= Seq::<Line>::empty());
        assert(want =~= Seq::<Line>::empty());
    } else {
        lemma_reflow_unfold(s, cols, blank);
        let rest = s.skip(1);
        if s.len() > 1 {
            assert(s.drop_first()[0] == s[1]);
        }
        assert(lead_wrapped(s.drop_first()) == 0);
        let g = s.take(1);
        assert(g.len() == 1);
        assert(trim_to(g[0].cells, cols) == g[0].cells);
        assert(content(g, cols) == s[0].cells);
        assert(reflow_group(g, cols, blank) =~= seq![Line { cells: pad(s[0].cells, cols, blank), wrapped: false }]);
        assert forall|i: int| 0 <= i < rest.len() implies !(#[trigger] rest[i]).wrapped && rest[i].cells.len() <= cols by {
            assert(rest[i] == s[i + 1]);
        }
        law_reflow_keeps_fitting_lines(rest, cols, blank);
        assert(reflow(s, cols, blank) =~= want);
    }
}

/// A row without references moved `n` columns to the left loses its last
/// `n` cells and gains `n` blank ones at the start.
pub proof fn law_shift_left_plain(s: Seq<Cell>, blank: Cell, n: nat)
    requires
        n <= s.len(),
        !(blank is Reference),
        forall|i: int| 0 <= i < s.len() ==> !((#[trigger] s[i]) is Reference),
    ensures
        shifted_left(s, blank, n) == blanks(blank, n) + s.take(s.len() - n),
    decreases n,
{
    if n == 0 {
        assert(s.take(s.len() as int) =~= s);
        assert(blanks(blank, 0) + s =~= s);
    } else {
        law_shift_left_plain(s, blank, (n - 1) as nat);
        let p = shifted_left(s, blank, (n - 1) as nat);
        assert(p.len() == s.len());
        assert(!(p.last() is Reference));
        assert(trailing_refs(p) == 0);
        assert(blanks(blank, 1) + p.take(p.len() - 1) =~= blanks(blank, n) + s.take(s.len() - n));
    }
}

/// A row without references moved `n` columns to the right loses its first
/// `n` cells and gains `n` blank ones at the end.
pub proof fn law_shift_right_plain(s: Seq<Cell>, blank: Cell, n: nat)
    requires
        n <= s.len(),
        !(blank is Reference),
        forall|i: int| 0 <= i < s.len() ==> !((#[trigger] s[i]) is Reference),
    ensures
        shifted_right(s, blank, n) == s.skip(n as int) + blanks(blank, n),
    decreases n,
{
    if n == 0 {
        assert(s.skip(0) + blanks(blank, 0) =~= s);
    } else {
        law_shift_right_plain(s, blank, (n - 1) as nat);
        let p = shifted_right(s, blank, (n - 1) as nat);
        let t = p.drop_first();
        assert(t =~= s.skip(n as int) + blanks(blank, (n - 1) as nat));
        if t.len() > 0 {
            assert(!(t[0] is Reference));
        }
        assert(leading_refs(t) == 0);
        assert(t.skip(0) + blanks(blank, 1) =~= s.skip(n as int) + blanks(blank, n));
    }
}

/// Widening a grid none of whose lines is wrapped, without changing its
/// height, fills every line up with blank cells, keeps the scrollback in the
/// same way, and moves nothing.
pub proof fn law_widen_plain_grid(m: GridModel, cols: nat)
    requires
        m.wf(),
        m.cols <= cols,
        forall|i: int| 0 <= i < m.view.len() ==> !(#[trigger] m.view[i]).wrapped,
        forall|i: int| 0 <= i < m.back.len() ==> !(#[trigger] m.back[i]).wrapped,
    ensures
        resized(m, cols, m.rows).view == Seq::new(
            m.view.len(),
            |i: int| Line { cells: pad(m.view[i].cells, cols, m.blank), wrapped: false },
        ),
        resized(m, cols, m.rows).back == Seq::new(
            m.back.len(),
            |i: int| Line { cells: pad(m.back[i].cells, cols, m.blank), wrapped: false },
        ),
        resize_offset(m, cols, m.rows) == 0,
{
    law_reflow_keeps_fitting_lines(m.view, cols, m.blank);
    law_reflow_keeps_fitting_lines(m.back, cols, m.blank);
    let v1 = reflow(m.view, cols, m.blank);
    let b1 = reflow(m.back, cols, m.blank);
    lemma_trim_blank_lines(v1, m.rows);
    assert(trim_blank_lines(v1, m.rows) == v1);
    lemma_lead_wrapped(m.view);
    if m.view.len() > 0 {
        assert(lead_wrapped(m.view) == 0);
    }
    assert(v1.skip(0) =~= v1);
    assert(b1.take(b1.len() as int) =~= b1);
    assert(b1 + v1.take(0) =~= b1);
    assert(b1.skip(b1.len() as int) + v1 + crate::row::blank_lines(m.blank, cols, 0) =~= v1);
    assert(settle(m, cols, m.rows).0 == v1);
    assert(settle(m, cols, m.rows).1 == b1);
    assert(keep_last(b1, m.history) == b1);
}

/// Lines of at least one cell can always be rewrapped to a width of at least one.
pub proof fn law_rewrap_possible(s: Seq<Line>, w: nat, cols: nat)
    requires
        widths_are(s, w),
        w > 0,
        cols > 0,
    ensures
        reflow_ok(s, cols),
{
    assert forall|i: int| 0 <= i < s.len() && !s[i].wrapped implies group_ok(#[trigger] group_at(s, i), cols) by {
        let g = group_at(s, i);
        lemma_lead_wrapped(s.skip(i + 1));
        if g.len() > 1 {
            let f = |l: Line| l.cells;
            let x = g.drop_last().map_values(f);
            assert(x.len() > 0);
            assert(x.flatten() == x.first() + x.drop_first().flatten());
            assert(x.first() == s[i].cells);
            assert(concat_cells(g.drop_last()).len() >= w);
        }
    }
}

proof fn lemma_chunks_count<A>(x: Seq<A>, n: nat)
    requires
        n > 0,
    ensures
        crate::reflow::chunks_of(x, n).len() <= x.len(),
    decreases x.len(),
{
    if x.len() > n {
        lemma_chunks_count(x.skip(n as int), n);
    }
}

proof fn lemma_concat_len(g: Seq<Line>, w: nat)
    requires
        widths_are(g, w),
    ensures
        concat_cells(g).len() == g.len() * w,
    decreases g.len(),
{
    if g.len() > 0 {
        let f = |l: Line| l.cells;
        let x = g.map_values(f);
        assert(x.drop_first() =~= g.drop_first().map_values(f));
        assert(widths_are(g.drop_first(), w)) by {
            assert forall|j: int| 0 <= j < g.drop_first().len() implies (#[trigger] g.drop_first()[j]).cells.len() == w by {
                assert(g.drop_first()[j] == g[j + 1]);
            }
        }
        lemma_concat_len(g.drop_first(), w);
        assert(concat_cells(g).len() == w + (g.len() - 1) * w);
        assert(w + (g.len() - 1) * w == g.len() * w) by (nonlinear_arith);
    } else {
        assert(g.map_values(|l: Line| l.cells) =~= Seq::<Seq<Cell>>::empty());
        assert(g.len() * w == 0) by (nonlinear_arith)
            requires
                g.len() == 0,
        ;
    }
}

proof fn lemma_trim_lens(s: Seq<Cell>, n: nat)
    ensures
        crate::reflow::trim_empty(s).len() <= s.len(),
        trim_to(s, n).len() <= s.len(),
    decreases s.len(),
{
    if s.len() > 0 {
        lemma_trim_lens(s.drop_last(), n);
    }
}

proof fn lemma_reflow_group_len(g: Seq<Line>, w: nat, cols: nat, blank: Cell)
    requires
        widths_are(g, w),
        g.len() >= 1,
        w > 0,
        cols > 0,
    ensures
        reflow_group(g, cols, blank).len() <= g.len() * w,
{
    let x = content(g, cols);
    assert(g.len() * w >= 1) by (nonlinear_arith)
        requires
            g.len() >= 1,
            w >= 1,
    ;
    if g.len() > 1 {
        let d = g.drop_last();
        assert(widths_are(d, w)) by {
            assert forall|j: int| 0 <= j < d.len() implies (#[trigger] d[j]).cells.len() == w by {
                assert(d[j] == g[j]);
            }
        }
        lemma_concat_len(d, w);
        lemma_trim_lens(g.last().cells, cols);
        assert(x.len() <= d.len() * w + w);
        assert(d.len() * w + w == g.len() * w) by (nonlinear_arith)
            requires
                d.len() + 1 == g.len(),
        ;
    } else {
        lemma_trim_lens(g[0].cells, cols);
        assert(x.len() <= w);
        assert(w <= g.len() * w) by (nonlinear_arith)
            requires
                g.len() == 1,
        ;
    }
    if !(g.len() == 1 && x.len() <= cols) {
        lemma_chunks_count(x, cols);
    }
}

/// Rewrapping lines of `w` cells to a positive width gives no more lines than cells.
pub proof fn law_reflow_len(s: Seq<Line>, w: nat, cols: nat, blank: Cell)
    requires
        widths_are(s, w),
        w > 0,
        cols > 0,
    ensures
        reflow(s, cols, blank).len() <= s.len() * w,
    decreases s.len(),
{
    lemma_lead_wrapped(s);
    crate::reflow::lemma_reflow_skip_lead(s, cols, blank);
    let lead = lead_wrapped(s) as int;
    let t = s.skip(lead);
    if t.len() == 0 {
        assert(t =~= Seq::<Line>::empty());
        lemma_reflow_empty(cols, blank);
        assert(0 <= s.len() * w) by (nonlinear_arith);
    } else {
        lemma_reflow_unfold(t, cols, blank);
        let glen = 1 + lead_wrapped(t.drop_first());
        let g = t.take(glen as int);
        assert(widths_are(g, w)) by {
            assert forall|j: int| 0 <= j < g.len() implies (#[trigger] g[j]).cells.len() == w by {
                assert(g[j] == s[lead + j]);
            }
        }
        lemma_reflow_group_len(g, w, cols, blank);
        let rest = s.skip(lead + glen);
        assert(t.skip(glen as int) =~= rest);
        assert(widths_are(rest, w)) by {
            assert forall|j: int| 0 <= j < rest.len() implies (#[trigger] rest[j]).cells.len() == w by {
                assert(rest[j] == s[lead + glen + j]);
            }
        }
        law_reflow_len(rest, w, cols, blank);
        assert(glen * w + rest.len() * w <= s.len() * w) by (nonlinear_arith)
            requires
                glen + rest.len() <= s.len(),
        ;
    }
}

/// A well formed grid of at least one column, whose lines are few enough,
/// can be resized to any size of at least one column.
pub proof fn law_resize_ready(m: GridModel, cols: nat, rows: nat)
    requires
        m.wf(),
        m.cols > 0,
        cols > 0,
        (2 * m.view.len() + m.back.len()) * m.cols <= i32::MAX,
    ensures
        reflow_ok(m.view, cols),
        reflow_ok(m.back, cols),
        i32::MIN <= resize_offset(m, cols, rows) <= i32::MAX,
{
    law_rewrap_possible(m.view, m.cols, cols);
    law_rewrap_possible(m.back, m.cols, cols);
    law_reflow_len(m.view, m.cols, cols, m.blank);
    law_reflow_len(m.back, m.cols, cols, m.blank);
    let v1 = reflow(m.view, cols, m.blank);
    let b1 = reflow(m.back, cols, m.blank);
    lemma_trim_blank_lines(v1, rows);
    lemma_lead_wrapped(m.view);
    assert(m.view.len() <= (2 * m.view.len() + m.back.len()) * m.cols) by (nonlinear_arith)
        requires
            m.cols >= 1,
    ;
    assert(2 * (m.view.len() * m.cols) + m.back.len() * m.cols == (2 * m.view.len() + m.back.len()) * m.cols)
        by (nonlinear_arith);
    assert(resize_offset(m, cols, rows) <= 2 * v1.len() + b1.len());
}

/// A cell is of exactly one kind.
pub proof fn law_cell_has_one_kind(c: Cell)
    ensures
        (c is Empty) as int + (c is Image) as int + (c is Occupied) as int + (c is Reference) as int == 1,
{
}

/// Enabling a colour just defined makes it the current colour.
pub proof fn law_define_then_enable(m: SixelModel, id: u32, color: Pixel)
    ensures
        enabled(defined(m, id, color), id).color == color,
{
}

/// Defining a colour leaves the others as they were.
pub proof fn law_define_keeps_others(m: SixelModel, id: u32, other: u32, color: Pixel)
    requires
        id != other,
    ensures
        enabled(defined(m, id, color), other).color == enabled(m, other).color,
{
}

/// A carriage return after a line feed is a line feed.
pub proof fn law_next_then_start(m: SixelModel)
    ensures
        started(advanced(m)) == advanced(m),
{
}

/// A single sixel value is handled as the same value repeated once.
pub proof fn law_value_is_repeat_of_one(m: SixelModel, new: SixelModel, value: crate::sixel::SixelMap)
    ensures
        handle_ok(m, Item::Value(value)) == handle_ok(m, Item::Repeat(1, value)),
        handled(m, new, Item::Value(value)) == handled(m, new, Item::Repeat(1, value)),
{
}

/// A public call that changes a grid, with its arguments.
pub enum GridOp {
    Resize(u32, u32),
    Left(u32),
    Right(u32),
    Up(u32, Option<(u32, u32)>),
    Down(u32, Option<(u32, u32)>),
    Delete(u32, u32, u32),
    Insert(u32, u32, u32),
    CleanReferences(u32, u32),
    CleanHistory,
    Wrapped(u32, bool),
    SetCell(u32, u32, Cell),
}

/// What the call `op` asks of the grid `m` besides being well formed; for
/// `right` the grid has a column, unless nothing moves.
pub open spec fn op_ok(m: GridModel, op: GridOp) -> bool {
    match op {
        GridOp::Resize(cols, rows) => {
            &&& reflow_ok(m.view, cols as nat)
            &&& reflow_ok(m.back, cols as nat)
            &&& i32::MIN <= resize_offset(m, cols as nat, rows as nat) <= i32::MAX
        },
        GridOp::Left(n) => n > 0 && m.rows > 0 ==> m.cols > 0,
        GridOp::Right(n) => n > 0 && m.rows > 0 ==> m.cols > 0,
        GridOp::Up(_, region) => region matches Some((top, bottom)) ==> top <= bottom < m.rows,
        GridOp::Down(_, region) => region matches Some((top, bottom)) ==> top <= bottom < m.rows,
        GridOp::Delete(x, y, n) => y < m.rows && x <= m.cols && delete_fits(m, x, y, n),
        GridOp::Insert(x, y, n) => {
            let k = spec_clamp(n, 0, m.cols as u32) as nat;
            &&& y < m.rows
            &&& x <= m.cols
            &&& m.cols > 0
            &&& x + k <= u32::MAX
            &&& trailing_refs(spliced(m.view[y as int].cells, x as int, k, m.cols, m.blank)) < m.cols
        },
        GridOp::CleanReferences(x, y) => y < m.rows && x < m.cols,
        GridOp::CleanHistory => true,
        GridOp::Wrapped(y, _) => y < m.rows,
        GridOp::SetCell(x, y, _) => y < m.rows && x < m.cols,
    }
}

/// The grid `m` after the call `op`, as the call's contract states it.
pub open spec fn apply(m: GridModel, op: GridOp) -> GridModel {
    match op {
        GridOp::Resize(cols, rows) => resized(m, cols as nat, rows as nat),
        GridOp::Left(n) => GridModel { view: map_cells(m.view, |c: Seq<Cell>| shifted_left(c, m.blank, n as nat)), ..m },
        GridOp::Right(n) => GridModel { view: map_cells(m.view, |c: Seq<Cell>| shifted_right(c, m.blank, n as nat)), ..m },
        GridOp::Up(n, region) => scrolled_up(m, n, region),
        GridOp::Down(n, region) => scrolled_down(m, n, region),
        GridOp::Delete(x, y, n) => after_delete(m, x, y, n),
        GridOp::Insert(x, y, n) => after_insert(m, x, y, n),
        GridOp::CleanReferences(x, y) => GridModel {
            view: with_cells(m.view, y as int, clear_refs(m.view[y as int].cells, x as int, m.blank)),
            ..m
        },
        GridOp::CleanHistory => GridModel { back: keep_last(m.back, m.history), ..m },
        GridOp::Wrapped(y, value) => GridModel {
            view: m.view.update(y as int, Line { cells: m.view[y as int].cells, wrapped: value }),
            ..m
        },
        GridOp::SetCell(x, y, cell) => GridModel {
            view: with_cells(m.view, y as int, m.view[y as int].cells.update(x as int, cell)),
            ..m
        },
    }
}

/// The grid `m` after the calls `ops`, one after the other.
pub open spec fn run(m: GridModel, ops: Seq<GridOp>) -> GridModel
    decreases ops.len(),
{
    if ops.len() == 0 {
        m
    } else {
        run(apply(m, ops[0]), ops.drop_first())
    }
}

/// Each of the calls `ops` gets what it asks of the grid it is made on.
pub open spec fn run_ok(m: GridModel, ops: Seq<GridOp>) -> bool
    decreases ops.len(),
{
    ops.len() == 0 || (op_ok(m, ops[0]) && run_ok(apply(m, ops[0]), ops.drop_first()))
}

/// The size the grid `m` has after the calls `ops`: that of the last
/// resize among them, or its own when there is none.
pub open spec fn size_after(m: GridModel, ops: Seq<GridOp>) -> (nat, nat)
    decreases ops.len(),
{
    if ops.len() == 0 {
        (m.cols, m.rows)
    } else {
        match ops.last() {
            GridOp::Resize(cols, rows) => (cols as nat, rows as nat),
            _ => size_after(m, ops.drop_last()),
        }
    }
}

proof fn lemma_scroll_region_wf(m: GridModel, n: u32, top: u32, bottom: u32)
    requires
        m.wf(),
        top <= bottom < m.rows,
    ensures
        scrolled_up(m, n, Some((top, bottom))).wf(),
        scrolled_down(m, n, Some((top, bottom))).wf(),
{
    let k = region_step(n, top, bottom) as int;
    let bl = blank_lines(m.blank, m.cols, k as nat);
    let a = m.view.take(top as int);
    let z = m.view.skip(bottom + 1);
    lemma_widths_take_skip(m.view, m.cols, top as int);
    lemma_widths_take_skip(m.view, m.cols, bottom + 1);
    lemma_widths_take_skip(m.view, m.cols, bottom + 1 - k);
    lemma_widths_take_skip(m.view.skip(top + k), m.cols, bottom + 1 - top - k);
    lemma_widths_take_skip(m.view.take(bottom + 1 - k), m.cols, top as int);
    let up_mid = m.view.subrange(top + k, bottom + 1);
    let down_mid = m.view.subrange(top as int, bottom + 1 - k);
    assert(m.view.skip(top + k).take(bottom + 1 - top - k) =~= up_mid);
    assert(m.view.take(bottom + 1 - k).skip(top as int) =~= down_mid);
    lemma_widths_concat(a, up_mid, m.cols);
    lemma_widths_concat(a + up_mid, bl, m.cols);
    lemma_widths_concat(a + up_mid + bl, z, m.cols);
    lemma_widths_concat(a, bl, m.cols);
    lemma_widths_concat(a + bl, down_mid, m.cols);
    lemma_widths_concat(a + bl + down_mid, z, m.cols);
}

proof fn lemma_scroll_view_wf(m: GridModel, n: u32)
    requires
        m.wf(),
    ensures
        scrolled_up(m, n, None).wf(),
        scrolled_down(m, n, None).wf(),
{
    let k = view_step(n, m.rows) as int;
    let bl = blank_lines(m.blank, m.cols, k as nat);
    lemma_widths_take_skip(m.view, m.cols, k);
    lemma_widths_take_skip(m.view, m.cols, m.rows - k);
    lemma_widths_concat(m.view.skip(k), bl, m.cols);
    lemma_widths_concat(bl, m.view.take(m.rows - k), m.cols);
    let b = m.back + m.view.take(k);
    lemma_widths_concat(m.back, m.view.take(k), m.cols);
    if b.len() > m.history {
        lemma_widths_take_skip(b, m.cols, b.len() - m.history);
    }
}

proof fn lemma_apply_wf(m: GridModel, op: GridOp)
    requires
        m.wf(),
        op_ok(m, op),
    ensures
        apply(m, op).wf(),
        apply(m, op).history == m.history,
        apply(m, op).blank == m.blank,
        !(op is Resize) ==> apply(m, op).cols == m.cols && apply(m, op).rows == m.rows,
        op matches GridOp::Resize(cols, rows) ==> apply(m, op).cols == cols && apply(m, op).rows == rows,
{
    match op {
        GridOp::Resize(cols, rows) => {
            lemma_resized_wf(m, cols as nat, rows as nat);
        },
        GridOp::Left(n) => {
            let f = |c: Seq<Cell>| shifted_left(c, m.blank, n as nat);
            assert forall|i: int| 0 <= i < m.view.len() implies (#[trigger] f(m.view[i].cells)).len() == m.cols by {
                if m.cols > 0 {
                    lemma_shift_len(m.view[i].cells, m.blank, n as nat);
                }
            }
            lemma_map_cells_widths(m.view, f, m.cols);
        },
        GridOp::Right(n) => {
            let f = |c: Seq<Cell>| shifted_right(c, m.blank, n as nat);
            assert forall|i: int| 0 <= i < m.view.len() implies (#[trigger] f(m.view[i].cells)).len() == m.cols by {
                if m.cols > 0 {
                    lemma_shift_len(m.view[i].cells, m.blank, n as nat);
                }
            }
            lemma_map_cells_widths(m.view, f, m.cols);
        },
        GridOp::Up(n, region) => {
            match region {
                Some((top, bottom)) => lemma_scroll_region_wf(m, n, top, bottom),
                None => lemma_scroll_view_wf(m, n),
            }
        },
        GridOp::Down(n, region) => {
            match region {
                Some((top, bottom)) => lemma_scroll_region_wf(m, n, top, bottom),
                None => lemma_scroll_view_wf(m, n),
            }
        },
        GridOp::Delete(x, y, n) => {
            let s = m.view[y as int].cells;
            let c = delete_count(m.cols, x, n);
            lemma_delete_end(s, m.cols as int, x as int, c);
            let e = delete_end(s, m.cols as int, x as int, c);
            assert(deleted(s, x as int, e, m.blank).len() == m.cols);
            lemma_with_cells_widths(m.view, y as int, deleted(s, x as int, e, m.blank), m.cols);
        },
        GridOp::Insert(x, y, n) => {
            let r = spliced(m.view[y as int].cells, x as int, spec_clamp(n, 0, m.cols as u32) as nat, m.cols, m.blank);
            lemma_fix_tail_len(r, m.blank);
            lemma_with_cells_widths(m.view, y as int, fix_tail(r, m.blank), m.cols);
        },
        GridOp::CleanReferences(x, y) => {
            let s = m.view[y as int].cells;
            lemma_leading_refs(s.skip(x as int));
            assert(clear_refs(s, x as int, m.blank).len() == s.len());
            lemma_with_cells_widths(m.view, y as int, clear_refs(s, x as int, m.blank), m.cols);
        },
        GridOp::CleanHistory => {
        },
        GridOp::Wrapped(y, value) => {
            let v = m.view.update(y as int, Line { cells: m.view[y as int].cells, wrapped: value });
            assert forall|j: int| 0 <= j < v.len() implies (#[trigger] v[j]).cells.len() == m.cols by {
                if j != y {
                    assert(v[j] == m.view[j]);
                }
            }
        },
        GridOp::SetCell(x, y, cell) => {
            lemma_with_cells_widths(m.view, y as int, m.view[y as int].cells.update(x as int, cell), m.cols);
        },
    }
}

proof fn lemma_size_after_push(m: GridModel, ops: Seq<GridOp>, op: GridOp)
    ensures
        size_after(m, ops.push(op)) == match op {
            GridOp::Resize(cols, rows) => (cols as nat, rows as nat),
            _ => size_after(m, ops),
        },
{
    assert(ops.push(op).drop_last() =~= ops);
}

proof fn lemma_size_after_front(m: GridModel, ops: Seq<GridOp>)
    requires
        ops.len() > 0,
        m.wf(),
        op_ok(m, ops[0]),
    ensures
        size_after(apply(m, ops[0]), ops.drop_first()) == size_after(m, ops),
    decreases ops.len(),
{
    lemma_apply_wf(m, ops[0]);
    if ops.len() == 1 {
        assert(ops.drop_first() =~= Seq::<GridOp>::empty());
        assert(ops.drop_last() =~= Seq::<GridOp>::empty());
        assert(ops.last() == ops[0]);
        let e = Seq::<GridOp>::empty();
        assert(size_after(apply(m, ops[0]), e) == (apply(m, ops[0]).cols, apply(m, ops[0]).rows));
        assert(size_after(m, e) == (m.cols, m.rows));
        match ops[0] {
            GridOp::Resize(c, r) => {
                assert(size_after(m, ops) == (c as nat, r as nat));
            },
            _ => {
                assert(size_after(m, ops) == size_after(m, ops.drop_last()));
            },
        }
    } else {
        let init = ops.drop_last();
        assert(init[0] == ops[0]);
        lemma_size_after_front(m, init);
        assert(ops.drop_first() =~= init.drop_first().push(ops.last()));
        lemma_size_after_push(apply(m, ops[0]), init.drop_first(), ops.last());
        assert(ops =~= init.push(ops.last()));
        lemma_size_after_push(m, init, ops.last());
    }
}

/// Whatever calls are made on a well formed grid, each with what it asks,
/// the grid keeps its shape: the view has as many lines as the last size
/// it was given, every line of the view and of the scrollback that many
/// cells, and the scrollback never more lines than its limit.
pub proof fn law_grid_shape_kept(m: GridModel, ops: Seq<GridOp>)
    requires
        m.wf(),
        run_ok(m, ops),
    ensures
        run(m, ops).wf(),
        (run(m, ops).cols, run(m, ops).rows) == size_after(m, ops),
        run(m, ops).view.len() == size_after(m, ops).1,
        widths_are(run(m, ops).view, size_after(m, ops).0),
        widths_are(run(m, ops).back, size_after(m, ops).0),
        run(m, ops).back.len() <= m.history,
        run(m, ops).history == m.history,
    decreases ops.len(),
{
    if ops.len() > 0 {
        lemma_apply_wf(m, ops[0]);
        law_grid_shape_kept(apply(m, ops[0]), ops.drop_first());
        lemma_size_after_front(m, ops);
    }
}

/// Cutting lines to the last `n` keeps as many lines as there are, but no
/// more than `n`, and the ones it keeps are the last ones.
pub proof fn law_keep_last(s: Seq<Line>, n: nat)
    ensures
        keep_last(s, n).len() == if s.len() < n { s.len() } else { n },
        keep_last(s, n) == s.skip(s.len() - keep_last(s, n).len()),
{
    if s.len() <= n {
        assert(s.skip(0) =~= s);
    }
}

/// Scrolling the region from `top` to `bottom` up by `n` moves every line of
/// the region up by `n`, or by the height of the region when that is
/// smaller, and blank lines fill its bottom; the rest of the view and the
/// scrollback stay as they were.
pub proof fn law_scroll_region_up(m: GridModel, n: u32, top: u32, bottom: u32)
    requires
        m.wf(),
        top <= bottom < m.rows,
        m.rows <= u32::MAX,
    ensures
        ({
            let h = bottom - top + 1;
            let k: int = if n <= h { n as int } else { h };
            let r = scrolled_up(m, n, Some((top, bottom)));
            &&& r.view.len() == m.rows
            &&& forall|j: int| 0 <= j < top ==> #[trigger] r.view[j] == m.view[j]
            &&& forall|j: int| top <= j && j + k <= bottom ==> #[trigger] r.view[j] == m.view[j + k]
            &&& forall|j: int| bottom - k < j <= bottom ==> #[trigger] r.view[j] == blank_line(m.blank, m.cols)
            &&& forall|j: int| bottom < j < m.rows ==> #[trigger] r.view[j] == m.view[j]
            &&& r.back == m.back
            &&& r.cols == m.cols && r.rows == m.rows && r.history == m.history && r.blank == m.blank
        }),
{
    let h = bottom - top + 1;
    let k: int = if n <= h { n as int } else { h };
    assert(region_step(n, top, bottom) == k);
    let r = scrolled_up(m, n, Some((top, bottom)));
    let a = m.view.take(top as int);
    let mid = m.view.subrange(top + k, bottom + 1);
    let bl = blank_lines(m.blank, m.cols, k as nat);
    let z = m.view.skip(bottom + 1);
    assert(r.view == a + mid + bl + z);
    assert forall|j: int| top <= j && j + k <= bottom implies #[trigger] r.view[j] == m.view[j + k] by {
        assert((a + mid + bl + z)[j] == mid[j - top]);
    }
    assert forall|j: int| bottom - k < j <= bottom implies #[trigger] r.view[j] == blank_line(m.blank, m.cols) by {
        assert((a + mid + bl + z)[j] == bl[j - top - mid.len()]);
    }
    assert forall|j: int| bottom < j < m.rows implies #[trigger] r.view[j] == m.view[j] by {
        assert((a + mid + bl + z)[j] == z[j - bottom - 1]);
    }
}

/// Scrolling the region from `top` to `bottom` down by `n` moves every line
/// of the region down by `n`, or by the height of the region when that is
/// smaller, and blank lines fill its top; the rest of the view and the
/// scrollback stay as they were.
pub proof fn law_scroll_region_down(m: GridModel, n: u32, top: u32, bottom: u32)
    requires
        m.wf(),
        top <= bottom < m.rows,
        m.rows <= u32::MAX,
    ensures
        ({
            let h = bottom - top + 1;
            let k: int = if n <= h { n as int } else { h };
            let r = scrolled_down(m, n, Some((top, bottom)));
            &&& r.view.len() == m.rows
            &&& forall|j: int| 0 <= j < top ==> #[trigger] r.view[j] == m.view[j]
            &&& forall|j: int| top <= j < top + k ==> #[trigger] r.view[j] == blank_line(m.blank, m.cols)
            &&& forall|j: int| top + k <= j <= bottom ==> #[trigger] r.view[j] == m.view[j - k]
            &&& forall|j: int| bottom < j < m.rows ==> #[trigger] r.view[j] == m.view[j]
            &&& r.back == m.back
            &&& r.cols == m.cols && r.rows == m.rows && r.history == m.history && r.blank == m.blank
        }),
{
    let h = bottom - top + 1;
    let k: int = if n <= h { n as int } else { h };
    assert(region_step(n, top, bottom) == k);
    let r = scrolled_down(m, n, Some((top, bottom)));
    let a = m.view.take(top as int);
    let bl = blank_lines(m.blank, m.cols, k as nat);
    let mid = m.view.subrange(top as int, bottom + 1 - k);
    let z = m.view.skip(bottom + 1);
    assert(r.view == a + bl + mid + z);
    assert forall|j: int| top <= j < top + k implies #[trigger] r.view[j] == blank_line(m.blank, m.cols) by {
        assert((a + bl + mid + z)[j] == bl[j - top]);
    }
    assert forall|j: int| top + k <= j <= bottom implies #[trigger] r.view[j] == m.view[j - k] by {
        assert((a + bl + mid + z)[j] == mid[j - top - k]);
    }
    assert forall|j: int| bottom < j < m.rows implies #[trigger] r.view[j] == m.view[j] by {
        assert((a + bl + mid + z)[j] == z[j - bottom - 1]);
    }
}

/// In a row of cells one column wide each, inserting `n` cells at column
/// `x` is always allowed, and it puts `n` blank cells there, or as many as
/// the row has columns, moving the cells from `x` on to the right by as
/// many columns; the cells pushed past the end of the row go. The other rows
/// and the scrollback stay.
pub proof fn law_insert_plain_row(m: GridModel, x: u32, y: u32, n: u32)
    requires
        m.wf(),
        0 < m.cols <= u32::MAX,
        y < m.rows,
        x <= m.cols,
        forall|i: int| 0 <= i < m.cols ==> !(#[trigger] m.view[y as int].cells[i] is Reference)
            && spec_cell_width(m.view[y as int].cells[i]) == 1,
    ensures
        trailing_refs(
            spliced(m.view[y as int].cells, x as int, spec_clamp(n, 0, m.cols as u32) as nat, m.cols, m.blank),
        ) < m.cols,
        ({
            let k: int = if n <= m.cols { n as int } else { m.cols as int };
            let r = after_insert(m, x, y, n);
            let s = m.view[y as int].cells;
            &&& r.view.len() == m.view.len()
            &&& r.view[y as int].cells.len() == m.cols
            &&& r.view[y as int].wrapped == m.view[y as int].wrapped
            &&& forall|i: int| 0 <= i < x ==> #[trigger] r.view[y as int].cells[i] == s[i]
            &&& forall|i: int| x <= i < x + k && i < m.cols ==> #[trigger] r.view[y as int].cells[i] == m.blank
            &&& forall|i: int| x + k <= i < m.cols ==> #[trigger] r.view[y as int].cells[i] == s[i - k]
            &&& forall|j: int| 0 <= j < m.rows && j != y ==> #[trigger] r.view[j] == m.view[j]
            &&& r.back == m.back
        }),
{
    let s = m.view[y as int].cells;
    let k: int = if n <= m.cols { n as int } else { m.cols as int };
    assert(spec_clamp(n, 0, m.cols as u32) == k);
    let u = s.take(x as int) + blanks(m.blank, k as nat) + s.skip(x as int);
    let t = spliced(s, x as int, k as nat, m.cols, m.blank);
    assert(t == u.take(m.cols as int));
    assert forall|i: int| 0 <= i < m.cols implies !(#[trigger] t[i] is Reference) && spec_cell_width(t[i]) == 1 && t[i] == (
        if i < x { s[i] } else if i < x + k { m.blank } else { s[i - k] }) by {
        assert(t[i] == u[i]);
        if i < x {
            assert(u[i] == s.take(x as int)[i]);
        } else if i < x + k {
            assert(u[i] == blanks(m.blank, k as nat)[i - x]);
        } else {
            assert(u[i] == s.skip(x as int)[i - x - k]);
        }
    }
    assert(!(t.last() is Reference));
    assert(trailing_refs(t) == 0);
    assert(fix_tail(t, m.blank) == t);
}

/// The pixel at column `x` and row `y` of the picture a decoder has drawn,
/// when an image covers it.
pub open spec fn pixel_at(m: SixelModel, x: int, y: int) -> Option<Pixel> {
    let r = y / m.cell.1 as int;
    let c = x / m.cell.0 as int;
    if 0 <= r < m.grid.len() && 0 <= c < m.grid[r].len() {
        Some(m.grid[r][c].pixels()[y % m.cell.1 as int][x % m.cell.0 as int])
    } else {
        None
    }
}

/// Drawing a value that is not only a cursor move paints, in the cursor's
/// column, every pixel of the band whose bit is set with the current colour,
/// and when the background is painted every other pixel of the band with the
/// background, as long as that column is within the terminal.
proof fn lemma_first_column_painted(m: SixelModel, new: SixelModel, times: u32, value: SixelMap)
    requires
        m.wf(),
        m.paint_background || value.0 != 0,
        times > 0,
        m.cell.0 > 0,
        m.cell.1 > 0,
        m.aspect.0 > 0,
        m.position.0 / m.cell.0 + m.limit.0 < m.limit.1,
        drawn(m, new, times, value),
    ensures
        forall|y: int| m.position.1 <= y < m.position.1 + 6 * m.aspect.0 && (m.paint_background || value.has(
            (y - m.position.1) / m.aspect.0 as int,
        )) ==> #[trigger] pixel_at(new, m.position.0 as int, y) == Some(
            if value.has((y - m.position.1) / m.aspect.0 as int) { m.color } else { m.background },
        ),
{
    assert(!is_shift(m, value));
    let k = columns(m, times) as int;
    assert(k >= 1);
    assert(drawn_columns(m, new, value, k));
    let cw = m.cell.0 as int;
    let ch = m.cell.1 as int;
    let x = m.position.0 as int;
    assert forall|y: int| m.position.1 <= y < m.position.1 + 6 * m.aspect.0 && (m.paint_background || value.has(
        (y - m.position.1) / m.aspect.0 as int,
    )) implies #[trigger] pixel_at(new, x, y) == Some(
        if value.has((y - m.position.1) / m.aspect.0 as int) { m.color } else { m.background },
    ) by {
        let r = y / ch;
        let c = x / cw;
        let u = x % cw;
        let v = y % ch;
        vstd::arithmetic::div_mod::lemma_fundamental_div_mod(x, cw);
        vstd::arithmetic::div_mod::lemma_fundamental_div_mod(y, ch);
        vstd::arithmetic::div_mod::lemma_mod_bound(x, cw);
        vstd::arithmetic::div_mod::lemma_mod_bound(y, ch);
        vstd::arithmetic::div_mod::lemma_div_is_ordered(y, m.position.1 + band(m) - 1, ch);
        vstd::arithmetic::div_mod::lemma_div_is_ordered(m.position.1 as int, y, ch);
        vstd::arithmetic::div_mod::lemma_div_is_ordered(x, x + k - 1, cw);
        vstd::arithmetic::div_mod::lemma_div_pos_is_pos(y, ch);
        vstd::arithmetic::div_mod::lemma_div_pos_is_pos(x, cw);
        assert(band_lo(m) <= r <= band_hi(m, band(m)));
        assert(r < new.grid.len());
        assert(c < new.grid[r].len());
        vstd::arithmetic::mul::lemma_mul_is_commutative(cw, c);
        vstd::arithmetic::mul::lemma_mul_is_commutative(ch, r);
        assert(c * cw + u == x);
        assert(r * ch + v == y);
        assert(painted(m, k, r, c, u, v));
        assert(new.grid[r][c].pixels()[v][u] == crate::sixel::paint_value(m, value, r, v, crate::sixel::prior(m, r, c, u, v)));
    }
}

/// When the background is painted, drawing any value, one with no bit set
/// included, paints every pixel of the band in the cursor's column, the
/// current colour where the value's bit for it is set and the background
/// where it is not, as long as that column is within the terminal.
pub proof fn law_background_painted(m: SixelModel, new: SixelModel, times: u32, value: SixelMap)
    requires
        m.wf(),
        m.paint_background,
        times > 0,
        m.cell.0 > 0,
        m.cell.1 > 0,
        m.aspect.0 > 0,
        m.position.0 / m.cell.0 + m.limit.0 < m.limit.1,
        drawn(m, new, times, value),
    ensures
        forall|y: int| m.position.1 <= y < m.position.1 + 6 * m.aspect.0 ==> #[trigger] pixel_at(new, m.position.0 as int, y)
            == Some(if value.has((y - m.position.1) / m.aspect.0 as int) { m.color } else { m.background }),
{
    lemma_first_column_painted(m, new, times, value);
}

/// Drawing a value paints, in the cursor's column, every pixel of the band
/// whose bit is set with the current colour, as long as that column is
/// within the terminal.
pub proof fn law_set_bits_painted(m: SixelModel, new: SixelModel, times: u32, value: SixelMap)
    requires
        m.wf(),
        times > 0,
        m.cell.0 > 0,
        m.cell.1 > 0,
        m.aspect.0 > 0,
        m.position.0 / m.cell.0 + m.limit.0 < m.limit.1,
        drawn(m, new, times, value),
    ensures
        forall|y: int| m.position.1 <= y < m.position.1 + 6 * m.aspect.0 && value.has((y - m.position.1) / m.aspect.0 as int)
            ==> #[trigger] pixel_at(new, m.position.0 as int, y) == Some(m.color),
{
    if m.paint_background || value.0 != 0 {
        lemma_first_column_painted(m, new, times, value);
    } else {
        assert forall|b: int| !value.has(b) by {
            assert(value.0 as int / vstd::arithmetic::power2::pow2(b as nat) as int == 0) by {
                vstd::arithmetic::power2::lemma_pow2_pos(b as nat);
                vstd::arithmetic::div_mod::lemma_basic_div(0, vstd::arithmetic::power2::pow2(b as nat) as int);
            }
        }
    }
}

/// Enabling a colour that was never defined makes the background the
/// current colour.
pub proof fn law_enable_undefined(m: SixelModel, id: u32)
    requires
        !m.colors.contains_key(id),
    ensures
        enabled(m, id).color == m.background,
        enabled(m, id).grid == m.grid && enabled(m, id).position == m.position,
{
}

/// With the background not painted, drawing a value with no bit set only
/// moves the cursor by `times` columns.
pub proof fn law_empty_value_moves_cursor(m: SixelModel, new: SixelModel, times: u32, value: SixelMap)
    requires
        !m.paint_background,
        value.0 == 0,
        drawn(m, new, times, value),
    ensures
        new.grid == m.grid,
        new.position == ((m.position.0 + times) as u32, m.position.1),
        new.color == m.color && new.colors == m.colors,
{
}

/// The end of piece `j` when `x` is cut into pieces of `n` items.
pub open spec fn piece_end(len: int, n: int, j: int) -> int {
    if (j + 1) * n < len { (j + 1) * n } else { len }
}

/// `x` cut into pieces of `n` items: there are as many pieces as it takes to
/// hold `x`, and piece `j` holds the items from `j * n` on, `n` of them or
/// what is left.
proof fn lemma_chunks_at<A>(x: Seq<A>, n: nat)
    requires
        n > 0,
    ensures
        chunks_of(x, n).len() == (x.len() + n - 1) / (n as int),
        forall|j: int| 0 <= j < chunks_of(x, n).len() ==> 0 < (#[trigger] chunks_of(x, n)[j]).len()
            == piece_end(x.len() as int, n as int, j) - j * n,
        forall|j: int| 0 <= j < chunks_of(x, n).len() ==> #[trigger] chunks_of(x, n)[j] == x.subrange(
            j * n,
            piece_end(x.len() as int, n as int, j),
        ),
    decreases x.len(),
{
    let len = x.len() as int;
    let c = chunks_of(x, n);
    if len == 0 {
        vstd::arithmetic::div_mod::lemma_fundamental_div_mod_converse(n - 1, n as int, 0, n - 1);
        assert(c.len() == 0);
    } else if len <= n {
        vstd::arithmetic::div_mod::lemma_fundamental_div_mod_converse(len + n - 1, n as int, 1, len - 1);
        assert(c =~= seq![x]);
        assert forall|j: int| 0 <= j < c.len() implies 0 < (#[trigger] c[j]).len() == piece_end(len, n as int, j) - j * n
            && c[j] == x.subrange(j * n, piece_end(len, n as int, j)) by {
            assert(j == 0);
            assert(j * n == 0);
            assert((j + 1) * n == n);
            assert(x.subrange(0, len) =~= x);
        }
    } else {
        let t = x.skip(n as int);
        let rest = chunks_of(t, n);
        lemma_chunks_at(t, n);
        vstd::arithmetic::div_mod::lemma_div_plus_one(len - 1, n as int);
        assert(t.len() + n - 1 == len - 1);
        assert forall|j: int| 0 <= j < c.len() implies 0 < (#[trigger] c[j]).len() == piece_end(len, n as int, j) - j * n
            && c[j] == x.subrange(j * n, piece_end(len, n as int, j)) by {
            if j == 0 {
                assert(j * n == 0);
                assert((j + 1) * n == n);
                assert(c[0] == x.take(n as int));
                assert(x.take(n as int) =~= x.subrange(0, n as int));
            } else {
                assert(c[j] == rest[j - 1]);
                assert((j - 1) * n + n == j * n) by (nonlinear_arith);
                assert(j * n + n == (j + 1) * n) by (nonlinear_arith);
                assert((j - 1 + 1) * n == j * n);
                assert(0 <= j - 1 < rest.len());
                assert(0 < rest[j - 1].len() == piece_end(t.len() as int, n as int, j - 1) - (j - 1) * n);
                assert(rest[j - 1] == t.subrange((j - 1) * n, piece_end(t.len() as int, n as int, j - 1)));
                assert(piece_end(t.len() as int, n as int, j - 1) + n == piece_end(len, n as int, j));
                assert(rest[j - 1] =~= x.subrange(j * n, piece_end(len, n as int, j)));
            }
        }
    }
}

/// Dropping the empty cells at the end of `c` keeps its first `p` cells,
/// when the last of them is not empty and all after them are.
proof fn lemma_trim_empty_at(c: Seq<Cell>, p: nat)
    requires
        p <= c.len(),
        p > 0 ==> !(c[p - 1] is Empty),
        forall|i: int| p <= i < c.len() ==> (#[trigger] c[i]) is Empty,
    ensures
        crate::reflow::trim_empty(c) == c.take(p as int),
    decreases c.len(),
{
    if c.len() > p {
        assert(c.last() is Empty);
        lemma_trim_empty_at(c.drop_last(), p);
        assert(c.drop_last().take(p as int) =~= c.take(p as int));
    } else {
        assert(c.take(p as int) =~= c);
    }
}

proof fn lemma_all_wrapped(t: Seq<Line>)
    requires
        forall|i: int| 0 <= i < t.len() ==> (#[trigger] t[i]).wrapped,
    ensures
        lead_wrapped(t) == t.len(),
    decreases t.len(),
{
    if t.len() > 0 {
        assert forall|i: int| 0 <= i < t.drop_first().len() implies (#[trigger] t.drop_first()[i]).wrapped by {
            assert(t.drop_first()[i] == t[i + 1]);
        }
        lemma_all_wrapped(t.drop_first());
    }
}

/// Rewrapping a logical line of several rows to a width of at least one
/// gives the text of the line cut into rows of `cols` cells: the cells of
/// its rows one after the other, the empty cells at the end of its last row
/// dropped (its cells after the `p` first, where the cell before them is
/// not empty). There are as many rows as it takes to hold that text, every
/// row but the first continues the one before, and blank cells fill the last.
pub proof fn law_rewrap_logical_line(s: Seq<Line>, cols: nat, blank: Cell, p: nat)
    requires
        s.len() >= 2,
        !s[0].wrapped,
        forall|i: int| 1 <= i < s.len() ==> (#[trigger] s[i]).wrapped,
        cols > 0,
        p <= s.last().cells.len(),
        p > 0 ==> !(s.last().cells[p - 1] is Empty),
        forall|i: int| p <= i < s.last().cells.len() ==> (#[trigger] s.last().cells[i]) is Empty,
    ensures
        ({
            let x = s.drop_last().map_values(|l: Line| l.cells).flatten() + s.last().cells.take(p as int);
            let r = reflow(s, cols, blank);
            &&& r.len() == (x.len() + cols - 1) / (cols as int)
            &&& forall|j: int| 0 <= j < r.len() ==> (#[trigger] r[j]).wrapped == (j != 0) && r[j].cells.len() == cols
            &&& forall|j: int, i: int| 0 <= j < r.len() && 0 <= i < cols ==> #[trigger] r[j].cells[i] == if j * cols + i
                < x.len() {
                x[j * cols + i]
            } else {
                blank
            }
        }),
{
    let x = s.drop_last().map_values(|l: Line| l.cells).flatten() + s.last().cells.take(p as int);
    assert forall|i: int| 0 <= i < s.drop_first().len() implies (#[trigger] s.drop_first()[i]).wrapped by {
        assert(s.drop_first()[i] == s[i + 1]);
    }
    lemma_all_wrapped(s.drop_first());
    lemma_reflow_unfold(s, cols, blank);
    assert(s.take(s.len() as int) =~= s);
    assert(s.skip(s.len() as int) =~= Seq::<Line>::empty());
    lemma_reflow_empty(cols, blank);
    let r = reflow(s, cols, blank);
    assert(r =~= reflow_group(s, cols, blank));
    lemma_trim_empty_at(s.last().cells, p);
    assert(content(s, cols) == x);
    assert(r == chunk_lines(x, cols, blank));
    let c = chunks_of(x, cols);
    lemma_chunks_at(x, cols);
    assert forall|j: int| 0 <= j < r.len() implies (#[trigger] r[j]).wrapped == (j != 0) && r[j].cells.len() == cols by {
        assert(c[j] == c[j]);
        assert(j * cols < x.len());
        assert(j * cols + cols == (j + 1) * cols) by (nonlinear_arith);
        if j < c.len() - 1 {
            assert(c[j + 1] == x.subrange(
                (j + 1) * cols,
                if (j + 1 + 1) * cols < x.len() { (j + 1 + 1) * cols } else { x.len() as int },
            ));
            assert((j + 1) * cols < x.len());
            assert(c[j].len() == cols);
            assert(r[j].cells == c[j]);
        } else {
            assert(c[j].len() <= cols);
            assert(r[j].cells == crate::reflow::pad(c[j], cols, blank));
        }
    }
    assert forall|j: int, i: int| 0 <= j < r.len() && 0 <= i < cols implies #[trigger] r[j].cells[i] == if j * cols + i
        < x.len() {
        x[j * cols + i]
    } else {
        blank
    } by {
        assert(j * cols + cols == (j + 1) * cols) by (nonlinear_arith);
        let piece = c[j];
        assert(j * cols < x.len());
        if j == c.len() - 1 {
            assert(r[j].cells == crate::reflow::pad(piece, cols, blank));
        } else {
            assert(r[j].cells == piece);
        }
    }
}

/// Clearing the references at column `x` makes blank the run of reference
/// cells that starts there, up to the first cell that is not a reference or
/// the end of the row, and leaves every other cell as it was.
pub proof fn law_clear_reference_run(s: Seq<Cell>, x: int, e: int, blank: Cell)
    requires
        0 <= x <= e <= s.len(),
        forall|i: int| x <= i < e ==> (#[trigger] s[i]) is Reference,
        e < s.len() ==> !(s[e] is Reference),
    ensures
        clear_refs(s, x, blank).len() == s.len(),
        forall|i: int| 0 <= i < s.len() ==> #[trigger] clear_refs(s, x, blank)[i] == if x <= i < e { blank } else { s[i] },
{
    let t = s.skip(x);
    lemma_leading_refs(t);
    let k = leading_refs(t) as int;
    assert forall|i: int| 0 <= i < e - x implies #[trigger] t[i] is Reference by {
        assert(t[i] == s[x + i]);
    }
    if k < e - x {
        assert(t[k] is Reference);
    }
    if k > e - x {
        assert(t[e - x] == s[e]);
    }
    assert(k == e - x);
    let r = clear_refs(s, x, blank);
    assert(r == s.take(x) + blanks(blank, k as nat) + s.skip(x + k));
    assert forall|i: int| 0 <= i < s.len() implies #[trigger] r[i] == if x <= i < e { blank } else { s[i] } by {
        if i >= e {
            assert(r[i] == s.skip(x + k)[i - x - k]);
        }
    }
}

/// After an insertion, the last cell of the row that is not a reference,
/// at column `st`, keeps its place when the references after it are as many
/// as its width needs; otherwise it and the references after it are made
/// blank. The cells before it stay.
pub proof fn law_fix_cut_wide_cell(t: Seq<Cell>, st: int, blank: Cell)
    requires
        0 <= st < t.len(),
        !(t[st] is Reference),
        forall|i: int| st < i < t.len() ==> (#[trigger] t[i]) is Reference,
    ensures
        fix_tail(t, blank).len() == t.len(),
        forall|i: int| 0 <= i < t.len() ==> #[trigger] fix_tail(t, blank)[i] == if i < st || spec_cell_width(t[st]) == t.len() - st {
            t[i]
        } else {
            blank
        },
{
    crate::edit::lemma_trailing_refs(t);
    let tr = trailing_refs(t) as int;
    if tr < t.len() - 1 - st {
        assert(t[t.len() - 1 - tr] is Reference);
    }
    if tr > t.len() - 1 - st {
        assert(t[st] is Reference);
    }
    assert(tr == t.len() - 1 - st);
    assert(crate::edit::last_start(t) == st);
}

/// Lines none of which is wrapped, each `cols` cells long, are kept as they
/// are by rewrapping to `cols`.
proof fn lemma_reflow_plain_same(s: Seq<Line>, cols: nat, blank: Cell)
    requires
        forall|i: int| 0 <= i < s.len() ==> !(#[trigger] s[i]).wrapped && s[i].cells.len() == cols,
    ensures
        reflow(s, cols, blank) == s,
{
    law_reflow_keeps_fitting_lines(s, cols, blank);
    assert(reflow(s, cols, blank) =~= s);
}

/// Dropping empty lines from the end, keeping at least `n`, keeps the first
/// `q` lines when the lines after them are empty and, unless `q` is `n`, the
/// last of them is not.
proof fn lemma_trim_blank_lines_at(v: Seq<Line>, n: nat, q: nat)
    requires
        n <= q <= v.len(),
        forall|i: int, c: int| q <= i < v.len() && 0 <= c < v[i].cells.len() ==> (#[trigger] v[i].cells[c]) is Empty,
        q > n ==> !all_empty(v[q - 1]),
    ensures
        trim_blank_lines(v, n) == v.take(q as int),
    decreases v.len(),
{
    if v.len() > q {
        assert forall|c: int| 0 <= c < v.last().cells.len() implies (#[trigger] v.last().cells[c]) is Empty by {
            assert(v[v.len() - 1].cells[c] is Empty);
        }
        assert(all_empty(v.last()));
        let d = v.drop_last();
        assert forall|i: int, c: int| q <= i < d.len() && 0 <= c < d[i].cells.len() implies (#[trigger] d[i].cells[c]) is Empty by {
            assert(d[i] == v[i]);
        }
        if q > n {
            assert(d[q - 1] == v[q - 1]);
        }
        lemma_trim_blank_lines_at(d, n, q);
        assert(d.take(q as int) =~= v.take(q as int));
    } else {
        assert(v.take(q as int) =~= v);
    }
}

/// Making a grid none of whose lines is wrapped taller without changing its
/// width takes lines back from the end of the scrollback, as many as it has
/// up to the number of new lines, puts them above the view, and fills the
/// rest with blank lines at the bottom; the content moves down by the number
/// of lines taken back.
pub proof fn law_resize_taller(m: GridModel, rows: nat)
    requires
        m.wf(),
        m.rows <= rows,
        forall|i: int| 0 <= i < m.view.len() ==> !(#[trigger] m.view[i]).wrapped,
        forall|i: int| 0 <= i < m.back.len() ==> !(#[trigger] m.back[i]).wrapped,
    ensures
        ({
            let need = rows - m.rows;
            let k: int = if m.back.len() < need { m.back.len() as int } else { need };
            let r = resized(m, m.cols, rows);
            &&& r.cols == m.cols && r.rows == rows && r.history == m.history && r.blank == m.blank
            &&& r.view.len() == rows
            &&& forall|j: int| 0 <= j < k ==> #[trigger] r.view[j] == m.back[m.back.len() - k + j]
            &&& forall|j: int| k <= j < k + m.rows ==> #[trigger] r.view[j] == m.view[j - k]
            &&& forall|j: int| k + m.rows <= j < rows ==> #[trigger] r.view[j] == blank_line(m.blank, m.cols)
            &&& r.back == m.back.take(m.back.len() - k)
            &&& resize_offset(m, m.cols, rows) == k
        }),
{
    lemma_reflow_plain_same(m.view, m.cols, m.blank);
    lemma_reflow_plain_same(m.back, m.cols, m.blank);
    lemma_trim_blank_lines(m.view, rows);
    assert(trim_blank_lines(m.view, rows) == m.view);
    lemma_lead_wrapped(m.view);
    if m.view.len() > 0 {
        assert(lead_wrapped(m.view) == 0);
    }
    let need = rows - m.rows;
    let k: int = if m.back.len() < need { m.back.len() as int } else { need };
    assert(m.back + m.view.take(0) =~= m.back);
    assert(m.view.skip(0) =~= m.view);
    let st = settle(m, m.cols, rows);
    assert(st.2 == k);
    let bl = blank_lines(m.blank, m.cols, (need - k) as nat);
    let top = m.back.skip(m.back.len() - k);
    assert(st.0 == top + m.view + bl);
    let r = resized(m, m.cols, rows);
    assert forall|j: int| 0 <= j < k implies #[trigger] r.view[j] == m.back[m.back.len() - k + j] by {
        assert((top + m.view + bl)[j] == top[j]);
    }
    assert forall|j: int| k <= j < k + m.rows implies #[trigger] r.view[j] == m.view[j - k] by {
        assert((top + m.view + bl)[j] == m.view[j - k]);
    }
    assert forall|j: int| k + m.rows <= j < rows implies #[trigger] r.view[j] == blank_line(m.blank, m.cols) by {
        assert((top + m.view + bl)[j] == bl[j - k - m.rows]);
    }
}

/// Making a grid none of whose lines is wrapped shorter without changing its
/// width first drops the empty lines at the bottom of the view, but only
/// down to the new height: `q` lines are left, the last of them not empty
/// unless there are just `rows`. The first `q - rows` of them then go to the
/// scrollback, which is cut to its limit, and the view keeps the last
/// `rows`; the content does not move.
pub proof fn law_resize_shorter(m: GridModel, rows: nat, q: nat)
    requires
        m.wf(),
        rows <= q <= m.rows,
        forall|i: int| 0 <= i < m.view.len() ==> !(#[trigger] m.view[i]).wrapped,
        forall|i: int| 0 <= i < m.back.len() ==> !(#[trigger] m.back[i]).wrapped,
        forall|i: int, c: int| q <= i < m.rows && 0 <= c < m.cols ==> (#[trigger] m.view[i].cells[c]) is Empty,
        q > rows ==> exists|c: int| 0 <= c < m.cols && !(#[trigger] m.view[q - 1].cells[c] is Empty),
    ensures
        ({
            let r = resized(m, m.cols, rows);
            &&& r.cols == m.cols && r.rows == rows && r.history == m.history && r.blank == m.blank
            &&& r.view.len() == rows
            &&& forall|j: int| 0 <= j < rows ==> #[trigger] r.view[j] == m.view[q - rows + j]
            &&& r.back == keep_last(m.back + m.view.take(q - rows), m.history)
            &&& resize_offset(m, m.cols, rows) == 0
        }),
{
    lemma_reflow_plain_same(m.view, m.cols, m.blank);
    lemma_reflow_plain_same(m.back, m.cols, m.blank);
    assert forall|i: int, c: int| q <= i < m.view.len() && 0 <= c < m.view[i].cells.len() implies (#[trigger] m.view[i].cells[c]) is Empty by {
        assert(m.view[i].cells[c] is Empty);
    }
    if q > rows {
        let c = choose|c: int| 0 <= c < m.cols && !(#[trigger] m.view[q - 1].cells[c] is Empty);
        assert(!all_empty(m.view[q - 1]));
    }
    lemma_trim_blank_lines_at(m.view, rows, q);
    lemma_lead_wrapped(m.view);
    if m.view.len() > 0 {
        assert(lead_wrapped(m.view) == 0);
    }
    let v2 = m.view.take(q as int);
    let over = q - rows;
    let v3 = v2.skip(over);
    assert(v3 =~= m.view.subrange(over, q as int));
    let b2 = m.back + v2.take(over);
    assert(v2.take(over) =~= m.view.take(over));
    let st = settle(m, m.cols, rows);
    assert(st.2 == 0);
    assert(b2.skip(b2.len() as int) + v3 + blank_lines(m.blank, m.cols, 0) =~= v3);
    assert(b2.take(b2.len() as int) =~= b2);
    assert(st.0 == v3);
    assert(st.1 == b2);
}

proof fn lemma_fitting_all(x: int, cw: int, l0: int, l1: int, t: nat)
    requires
        cw > 0,
        x >= 0,
        t > 0 ==> (x + t - 1) / cw + l0 < l1,
    ensures
        fitting_columns(x, cw, l0, l1, t) == t,
    decreases t,
{
    if t > 0 {
        vstd::arithmetic::div_mod::lemma_div_is_ordered(x, x + t - 1, cw);
        lemma_fitting_all(x + 1, cw, l0, l1, (t - 1) as nat);
    }
}

/// Drawing a value that is not only a cursor move advances the cursor by one
/// pixel column for each time the value is drawn when every column drawn is
/// within the terminal, and leaves the decoder as it was when the first one
/// is not.
pub proof fn law_draw_moves_cursor(m: SixelModel, new: SixelModel, times: u32, value: SixelMap)
    requires
        m.wf(),
        m.paint_background || value.0 != 0,
        m.cell.0 > 0,
        drawn(m, new, times, value),
    ensures
        times > 0 && (m.position.0 + times - 1) / (m.cell.0 as int) + m.limit.0 < m.limit.1 ==> new.position == (
            (m.position.0 + times) as u32,
            m.position.1,
        ),
        (m.position.0 as int) / (m.cell.0 as int) + m.limit.0 >= m.limit.1 ==> {
            &&& new.position == m.position
            &&& new.grid.len() == m.grid.len()
            &&& forall|r: int| 0 <= r < m.grid.len() ==> (#[trigger] new.grid[r]).len() == m.grid[r].len()
            &&& forall|r: int, c: int| 0 <= r < m.grid.len() && 0 <= c < m.grid[r].len() ==> (#[trigger] new.grid[r][c]).pixels()
                == m.grid[r][c].pixels()
        },
{
    assert(!is_shift(m, value));
    if times > 0 && (m.position.0 + times - 1) / (m.cell.0 as int) + m.limit.0 < m.limit.1 {
        lemma_fitting_all(m.position.0 as int, m.cell.0 as int, m.limit.0 as int, m.limit.1 as int, times as nat);
    }
    if (m.position.0 as int) / (m.cell.0 as int) + m.limit.0 >= m.limit.1 {
        assert(columns(m, times) == 0);
        assert(new.grid.len() == m.grid.len());
        assert forall|r: int, c: int| 0 <= r < m.grid.len() && 0 <= c < m.grid[r].len() implies (#[trigger] new.grid[r][c]).pixels()
            == m.grid[r][c].pixels() by {
            assert(new.grid[r].len() == m.grid[r].len());
            assert(new.grid[r][c].wf() && m.grid[r][c].wf());
            assert(new.grid[r][c].spec_height() == m.cell.1 && m.grid[r][c].spec_height() == m.cell.1);
            assert(new.grid[r][c].spec_width() == m.cell.0 && m.grid[r][c].spec_width() == m.cell.0);
            assert forall|v: int| 0 <= v < m.cell.1 implies #[trigger] new.grid[r][c].pixels()[v] =~= m.grid[r][c].pixels()[v] by {
                assert forall|u: int| 0 <= u < m.cell.0 implies #[trigger] new.grid[r][c].pixels()[v][u] == m.grid[r][c].pixels()[v][u] by {
                    assert(!painted(m, 0, r, c, u, v));
                }
            }
            assert(new.grid[r][c].pixels() =~= m.grid[r][c].pixels());
        }
    }
}

} // verus!
