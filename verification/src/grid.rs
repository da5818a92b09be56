use std::collections::VecDeque;

use crate::cell::Cell;
use crate::edit::{
    clear_refs, delete_end, delete_ok, deleted, fix_tail, lemma_shift_len, shifted_left, shifted_right, spliced,
    trailing_refs,
};
use crate::free::Free;
use crate::reflow::{
    keep_last, lead_wrapped, lemma_lead_wrapped, lemma_reflow_empty, lemma_reflow_widths, lemma_trim_blank_lines,
    lemma_widths_concat, lemma_widths_take_skip, reflow, reflow_ok, trim_blank_lines, widths_are,
};
use crate::rewrap::{
    insert_blank_rows, reflow_rows, remove_rows, row_all_empty, shift_all,
};
use crate::row::{blank_line, blank_lines, lines, Line, Row};
use crate::rowedit::{clear_ref_run, delete_allowed, delete_cells, insert_cells, set_cell};
use crate::util::{clamp, spec_clamp};
use vstd::prelude::*;

verus! {

/// What a grid holds: its size, how many rows of scrollback it keeps, the
/// cell it fills new space with, the scrollback and the rows on screen.
pub struct GridModel {
    pub cols: nat,
    pub rows: nat,
    pub history: nat,
    pub blank: Cell,
    pub back: Seq<Line>,
    pub view: Seq<Line>,
}

impl GridModel {
    /// The view has `rows` lines, the scrollback no more than `history`, every
    /// line `cols` cells, and new space is filled with empty cells.
    pub open spec fn wf(self) -> bool {
        &&& self.view.len() == self.rows
        &&& self.back.len() <= self.history
        &&& widths_are(self.view, self.cols)
        &&& widths_are(self.back, self.cols)
        &&& self.blank is Empty
    }
}

/// The view rewrapped to `cols` and made `rows` lines long, before the
/// scrollback is cut to its limit: the view (`.0`), the scrollback (`.1`) and
/// the number of lines taken back from the scrollback (`.2`).
pub open spec fn settle(m: GridModel, cols: nat, rows: nat) -> (Seq<Line>, Seq<Line>, nat) {
    let v1 = reflow(m.view, cols, m.blank);
    let b1 = reflow(m.back, cols, m.blank);
    let v2 = trim_blank_lines(v1, rows);
    let over: nat = if v2.len() > rows { (v2.len() - rows) as nat } else { 0 };
    let b2 = b1 + v2.take(over as int);
    let v3 = v2.skip(over as int);
    let need: nat = if v3.len() < rows { (rows - v3.len()) as nat } else { 0 };
    let k: nat = if b2.len() < need { b2.len() } else { need };
    (
        b2.skip(b2.len() - k) + v3 + blank_lines(m.blank, cols, (need - k) as nat),
        b2.take(b2.len() - k),
        k,
    )
}

/// The grid after `resize(cols, rows)`.
pub open spec fn resized(m: GridModel, cols: nat, rows: nat) -> GridModel {
    let (v, b, k) = settle(m, cols, rows);
    GridModel { cols, rows, history: m.history, blank: m.blank, back: keep_last(b, m.history), view: v }
}

/// What `resize(cols, rows)` returns: by how many lines the content of the
/// view moved down, rewrapping and lines taken back from the scrollback counted.
pub open spec fn resize_offset(m: GridModel, cols: nat, rows: nat) -> int {
    reflow(m.view, cols, m.blank).len() - (m.view.len() - lead_wrapped(m.view)) + settle(m, cols, rows).2
}

/// `v` with `f` applied to the cells of every line.
pub open spec fn map_cells(v: Seq<Line>, f: spec_fn(Seq<Cell>) -> Seq<Cell>) -> Seq<Line> {
    Seq::new(v.len(), |i: int| Line { cells: f(v[i].cells), wrapped: v[i].wrapped })
}

/// `v` with line `y` given the cells `cells`.
pub open spec fn with_cells(v: Seq<Line>, y: int, cells: Seq<Cell>) -> Seq<Line> {
    v.update(y, Line { cells, wrapped: v[y].wrapped })
}

/// How many lines a scroll of `n` within the region from `top` to `bottom` moves.
pub open spec fn region_step(n: u32, top: u32, bottom: u32) -> nat {
    spec_clamp(n, 0, (bottom - top + 1) as u32) as nat
}

/// How many lines a scroll of `n` over the whole view of `rows` lines moves.
pub open spec fn view_step(n: u32, rows: nat) -> nat {
    if n < rows { n as nat } else { rows }
}

/// The grid after `up(n, region)`.
pub open spec fn scrolled_up(m: GridModel, n: u32, region: Option<(u32, u32)>) -> GridModel {
    match region {
        Some((top, bottom)) => {
            let k = region_step(n, top, bottom);
            GridModel {
                view: m.view.take(top as int) + m.view.subrange(top + k, bottom + 1) + blank_lines(m.blank, m.cols, k)
                    + m.view.skip(bottom + 1),
                ..m
            }
        },
        None => {
            let k = view_step(n, m.rows);
            GridModel {
                view: m.view.skip(k as int) + blank_lines(m.blank, m.cols, k),
                back: keep_last(m.back + m.view.take(k as int), m.history),
                ..m
            }
        },
    }
}

/// The grid after `down(n, region)`.
pub open spec fn scrolled_down(m: GridModel, n: u32, region: Option<(u32, u32)>) -> GridModel {
    match region {
        Some((top, bottom)) => {
            let k = region_step(n, top, bottom);
            GridModel {
                view: m.view.take(top as int) + blank_lines(m.blank, m.cols, k) + m.view.subrange(top as int, bottom + 1 - k)
                    + m.view.skip(bottom + 1),
                ..m
            }
        },
        None => {
            let k = view_step(n, m.rows);
            GridModel {
                view: blank_lines(m.blank, m.cols, k) + m.view.take(m.rows - k),
                back: keep_last(m.back, m.history),
                ..m
            }
        },
    }
}

pub proof fn lemma_map_cells_widths(v: Seq<Line>, f: spec_fn(Seq<Cell>) -> Seq<Cell>, cols: nat)
    requires
        widths_are(v, cols),
        forall|i: int| 0 <= i < v.len() ==> (#[trigger] f(v[i].cells)).len() == cols,
    ensures
        widths_are(map_cells(v, f), cols),
{
    assert forall|j: int| 0 <= j < map_cells(v, f).len() implies (#[trigger] map_cells(v, f)[j]).cells.len() == cols by {
        assert(f(v[j].cells).len() == cols);
    }
}


pub proof fn lemma_with_cells_widths(v: Seq<Line>, y: int, cells: Seq<Cell>, cols: nat)
    requires
        widths_are(v, cols),
        0 <= y < v.len(),
        cells.len() == cols,
    ensures
        widths_are(with_cells(v, y, cells), cols),
{
    assert forall|j: int| 0 <= j < v.len() implies (#[trigger] with_cells(v, y, cells)[j]).cells.len() == cols by {
        if j != y {
            assert(with_cells(v, y, cells)[j] == v[j]);
        }
    }
}

/// How many characters `delete(x, _, n)` removes in a row of `cols` cells.
pub open spec fn delete_count(cols: nat, x: u32, n: u32) -> nat {
    spec_clamp(n, 0, (cols - x) as u32) as nat
}

/// `delete(x, y, n)` only meets cells that have a width, and the columns it
/// counts fit in 32 bits.
pub open spec fn delete_fits(m: GridModel, x: u32, y: u32, n: u32) -> bool {
    delete_ok(m.view[y as int].cells, m.cols as int, x as int, delete_count(m.cols, x, n))
}

/// The grid after `delete(x, y, n)`.
pub open spec fn after_delete(m: GridModel, x: u32, y: u32, n: u32) -> GridModel {
    let s = m.view[y as int].cells;
    GridModel {
        view: with_cells(m.view, y as int, deleted(s, x as int, delete_end(s, m.cols as int, x as int, delete_count(m.cols, x, n)), m.blank)),
        ..m
    }
}

/// The grid after `insert(x, y, n)`.
pub open spec fn after_insert(m: GridModel, x: u32, y: u32, n: u32) -> GridModel {
    GridModel {
        view: with_cells(
            m.view,
            y as int,
            fix_tail(spliced(m.view[y as int].cells, x as int, spec_clamp(n, 0, m.cols as u32) as nat, m.cols, m.blank), m.blank),
        ),
        ..m
    }
}

/// Deleting stops in the row, after where it starts.
pub proof fn lemma_delete_end(s: Seq<Cell>, cols: int, end: int, n: nat)
    requires
        0 <= end <= cols,
        s.len() == cols,
        n > 0 ==> end < cols,
        delete_ok(s, cols, end, n),
    ensures
        end <= delete_end(s, cols, end, n) <= cols,
    decreases n,
{
    if n > 0 {
        let e = end + crate::cell::spec_cell_width(s[end]) as int;
        if e < cols {
            lemma_delete_end(s, cols, e, (n - 1) as nat);
        }
    }
}

pub proof fn lemma_fix_tail_len(s: Seq<Cell>, blank: Cell)
    requires
        trailing_refs(s) < s.len(),
    ensures
        fix_tail(s, blank).len() == s.len(),
{
    crate::edit::lemma_trailing_refs(s);
}

/// Resizing keeps the grid well formed.
pub proof fn lemma_resized_wf(m: GridModel, cols: nat, rows: nat)
    requires
        reflow_ok(m.view, cols),
        reflow_ok(m.back, cols),
        m.blank is Empty,
    ensures
        resized(m, cols, rows).wf(),
{
    let v1 = reflow(m.view, cols, m.blank);
    let b1 = reflow(m.back, cols, m.blank);
    lemma_reflow_widths(m.view, cols, m.blank);
    lemma_reflow_widths(m.back, cols, m.blank);
    let v2 = trim_blank_lines(v1, rows);
    lemma_trim_blank_lines(v1, rows);
    lemma_widths_take_skip(v1, cols, v2.len() as int);
    let over: nat = if v2.len() > rows { (v2.len() - rows) as nat } else { 0 };
    lemma_widths_take_skip(v2, cols, over as int);
    let b2 = b1 + v2.take(over as int);
    lemma_widths_concat(b1, v2.take(over as int), cols);
    let v3 = v2.skip(over as int);
    let need: nat = if v3.len() < rows { (rows - v3.len()) as nat } else { 0 };
    let k: nat = if b2.len() < need { b2.len() } else { need };
    lemma_widths_take_skip(b2, cols, b2.len() - k);
    let bl = blank_lines(m.blank, cols, (need - k) as nat);
    assert(widths_are(bl, cols));
    lemma_widths_concat(b2.skip(b2.len() - k), v3, cols);
    lemma_widths_concat(b2.skip(b2.len() - k) + v3, bl, cols);
    let b3 = b2.take(b2.len() - k);
    if b3.len() > m.history {
        lemma_widths_take_skip(b3, cols, b3.len() - m.history);
    }
}

/// The terminal grid: the rows on screen and the scrollback above them.
#[derive(Debug)]
pub struct Grid {
    cols: u32,
    rows: u32,
    history: usize,
    free: Free,
    back: VecDeque<Row>,
    view: VecDeque<Row>,
}

impl Grid {
    /// What the grid holds.
    pub closed spec fn model(&self) -> GridModel {
        GridModel {
            cols: self.cols as nat,
            rows: self.rows as nat,
            history: self.history as nat,
            blank: self.free.blank(),
            back: lines(self.back@),
            view: lines(self.view@),
        }
    }
}

impl Grid {
    /// The grid is well formed (see `GridModel::wf`).
    pub open spec fn wf(&self) -> bool {
        self.model().wf()
    }

    /// Create a new grid.
    pub fn new(cols: u32, rows: u32, history: usize) -> (g: Grid)
        ensures
            g.wf(),
            g.model().cols == cols,
            g.model().rows == rows,
            g.model().history == history,
            g.model().blank matches Cell::Empty { style } && *style == crate::style::Style::plain(),
            g.model().back == Seq::<Line>::empty(),
            g.model().view == blank_lines(g.model().blank, cols as nat, rows as nat),
    {
        let mut value = Grid {
            cols: 0,
            rows: 0,
            history: history,
            free: Free::new(),
            back: VecDeque::new(),
            view: VecDeque::new(),
        };
        proof {
            lemma_reflow_empty(cols as nat, value.model().blank);
            assert(lines(value.view@) =~= Seq::<Line>::empty());
            assert(lines(value.back@) =~= Seq::<Line>::empty());
            assert(reflow_ok(value.model().view, cols as nat));
            assert(reflow_ok(value.model().back, cols as nat));
            assert(lead_wrapped(value.model().view) == 0);
        }
        value.resize(cols, rows);
        proof {
            let m = GridModel { cols: 0, rows: 0, history: history as nat, blank: value.model().blank,
                back: Seq::empty(), view: Seq::empty() };
            assert(trim_blank_lines(Seq::<Line>::empty(), rows as nat) == Seq::<Line>::empty());
            assert(value.model().view =~= blank_lines(value.model().blank, cols as nat, rows as nat));
            assert(value.model().back =~= Seq::<Line>::empty());
        }
        value
    }

    /// Get the scroll back.
    pub fn back(&self) -> (b: &VecDeque<Row>)
        ensures
            lines(b@) == self.model().back,
    {
        &self.back
    }

    /// Get the current view.
    pub fn view(&self) -> (v: &VecDeque<Row>)
        ensures
            lines(v@) == self.model().view,
    {
        &self.view
    }

    /// Drop rows in the scrollback that go beyond the history limit: the
    /// last `history` rows stay, or all of them when there are fewer.
    pub fn clean_history(&mut self)
        ensures
            final(self).model() == (GridModel { back: keep_last(old(self).model().back, old(self).model().history), ..old(self).model() }),
            final(self).model().back.len() == if old(self).model().back.len() < old(self).model().history {
                old(self).model().back.len()
            } else {
                old(self).model().history
            },
            final(self).model().back == old(self).model().back.skip(
                old(self).model().back.len() - final(self).model().back.len(),
            ),
    {
        proof {
            crate::laws::law_keep_last(self.model().back, self.model().history);
        }
        if self.back.len() > self.history {
            let overflow = self.back.len() - self.history;
            let ghost start = self.back@;
            let mut j: usize = 0;
            while j < overflow
                invariant
                    j <= overflow,
                    overflow == start.len() - self.history,
                    self.back@ == start.skip(j as int),
                    self.free.blank() == old(self).free.blank(),
                    self.view == old(self).view,
                    self.cols == old(self).cols,
                    self.rows == old(self).rows,
                    self.history == old(self).history,
                    start == old(self).back@,
                decreases overflow - j,
            {
                let row = self.back.pop_front().unwrap();
                self.free.push(row);
                j = j + 1;
                assert(self.back@ =~= start.skip(j as int));
            }
            assert(lines(self.back@) =~= keep_last(lines(start), self.history as nat));
        }
    }


    /// Clean left-over references from changes.
    pub fn clean_references(&mut self, x: u32, y: u32)
        requires
            old(self).wf(),
            y < old(self).model().rows,
            x < old(self).model().cols,
        ensures
            final(self).wf(),
            final(self).model() == (GridModel {
                view: with_cells(
                    old(self).model().view,
                    y as int,
                    clear_refs(old(self).model().view[y as int].cells, x as int, old(self).model().blank),
                ),
                ..old(self).model()
            }),
    {
        let ghost v0 = lines(self.view@);
        let mut row = self.view.remove(y as usize).unwrap();
        assert(row@ == v0[y as int]);
        clear_ref_run(&mut row, x as usize, &self.free);
        proof {
            let s = v0[y as int].cells;
            crate::edit::lemma_leading_refs(s.skip(x as int));
            assert(clear_refs(s, x as int, self.free.blank()).len() == s.len());
        }
        self.view.insert(y as usize, row);
        assert(lines(self.view@) =~= with_cells(v0, y as int, row@.cells));
    }

    /// Move the view `n` cells to the left, dropping cells from the back.
    pub fn left(&mut self, n: u32)
        requires
            old(self).wf(),
            n > 0 && old(self).model().rows > 0 ==> old(self).model().cols > 0,
        ensures
            final(self).wf(),
            final(self).model() == (GridModel {
                view: map_cells(old(self).model().view, |c: Seq<Cell>| shifted_left(c, old(self).model().blank, n as nat)),
                ..old(self).model()
            }),
    {
        let ghost m = self.model();
        self.shift(n, true);
        assert(self.model().view =~= map_cells(m.view, |c: Seq<Cell>| shifted_left(c, m.blank, n as nat)));
    }

    /// Move the view `n` cells to the right, dropping cells from the front;
    /// in a grid without columns every row is left with one blank cell.
    pub fn right(&mut self, n: u32)
        requires
            old(self).wf(),
        ensures
            old(self).model().cols > 0 || n == 0 || old(self).model().rows == 0 ==> final(self).wf(),
            final(self).model() == (GridModel {
                view: map_cells(old(self).model().view, |c: Seq<Cell>| shifted_right(c, old(self).model().blank, n as nat)),
                ..old(self).model()
            }),
    {
        let ghost m = self.model();
        self.shift(n, false);
        assert(self.model().view =~= map_cells(m.view, |c: Seq<Cell>| shifted_right(c, m.blank, n as nat)));
    }

    fn shift(&mut self, n: u32, left: bool)
        requires
            old(self).wf(),
            left ==> (n > 0 && old(self).model().rows > 0 ==> old(self).model().cols > 0),
        ensures
            left || old(self).model().cols > 0 || n == 0 || old(self).model().rows == 0 ==> final(self).wf(),
            final(self).model() == (GridModel {
                view: map_cells(
                    old(self).model().view,
                    |c: Seq<Cell>| if left {
                        shifted_left(c, old(self).model().blank, n as nat)
                    } else {
                        shifted_right(c, old(self).model().blank, n as nat)
                    },
                ),
                ..old(self).model()
            }),
    {
        let ghost m = self.model();
        let ghost blank = m.blank;
        let ghost sh = |c: Seq<Cell>, k: nat| if left { shifted_left(c, blank, k) } else { shifted_right(c, blank, k) };
        let mut k: u32 = 0;
        assert(lines(self.view@) =~= map_cells(m.view, |c: Seq<Cell>| sh(c, 0)));
        while k < n
            invariant
                k <= n,
                m == old(self).model(),
                blank == m.blank,
                m.wf(),
                left ==> (n > 0 && m.rows > 0 ==> m.cols > 0),
                sh == (|c: Seq<Cell>, k: nat| if left { shifted_left(c, blank, k) } else { shifted_right(c, blank, k) }),
                self.free.blank() == blank,
                self.cols == old(self).cols,
                self.rows == old(self).rows,
                self.history == old(self).history,
                self.back == old(self).back,
                self.view@.len() == m.view.len(),
                lines(self.view@) == map_cells(m.view, |c: Seq<Cell>| sh(c, k as nat)),
            decreases n - k,
        {
            let ghost cur = lines(self.view@);
            if left {
                assert forall|i: int| 0 <= i < self.view@.len() implies (#[trigger] self.view@[i])@.cells.len() > 0 by {
                    assert(cur[i] == self.view@[i]@);
                    assert(m.view[i].cells.len() == m.cols);
                    lemma_shift_len(m.view[i].cells, blank, k as nat);
                }
            }
            shift_all(&mut self.view, &self.free, left);
            k = k + 1;
            assert(lines(self.view@) =~= map_cells(m.view, |c: Seq<Cell>| sh(c, k as nat)));
        }
        proof {
            let f = |c: Seq<Cell>| sh(c, n as nat);
            if left || m.cols > 0 || n == 0 || m.rows == 0 {
                assert forall|i: int| 0 <= i < m.view.len() implies (#[trigger] f(m.view[i].cells)).len() == m.cols by {
                    if m.cols > 0 {
                        lemma_shift_len(m.view[i].cells, blank, n as nat);
                    }
                }
                lemma_map_cells_widths(m.view, f, m.cols);
            }
        }
        assert(lines(self.view@) =~= map_cells(
            m.view,
            |c: Seq<Cell>| if left { shifted_left(c, blank, n as nat) } else { shifted_right(c, blank, n as nat) },
        ));
    }

    /// Scroll the view up by `n`, optionally within the given region; without
    /// a region the lines scrolled off the top go to the scrollback.
    pub fn up(&mut self, n: u32, region: Option<(u32, u32)>)
        requires
            old(self).wf(),
            region matches Some((top, bottom)) ==> top <= bottom < old(self).model().rows,
        ensures
            final(self).wf(),
            final(self).model() == scrolled_up(old(self).model(), n, region),
    {
        let ghost m = self.model();
        if let Some(region) = region {
            let y = region.0;
            let n = clamp(n, 0, region.1 - y + 1);
            let offset = self.rows - (region.1 + 1);
            assert(n <= region.1 - y + 1);
            assert(m.view.len() == self.rows);
            remove_rows(&mut self.view, y as usize, n as usize, &mut self.free);
            assert(lines(self.view@).len() == m.view.len() - n);
            assert(self.view@.len() == m.view.len() - n);
            assert(offset as int <= self.view@.len());
            let index = self.view.len() - offset as usize;
            insert_blank_rows(&mut self.view, index, n as usize, self.cols as usize, &mut self.free);
            proof {
                let k = region_step(n, region.0, region.1) as int;
                let want = m.view.take(y as int) + m.view.subrange(y + k, region.1 + 1) + blank_lines(m.blank, m.cols, k as nat)
                    + m.view.skip(region.1 + 1);
                assert(lines(self.view@) =~= want);
                lemma_widths_take_skip(m.view, m.cols, y as int);
                lemma_widths_take_skip(m.view, m.cols, region.1 + 1);
                lemma_widths_take_skip(m.view.skip(y + k), m.cols, region.1 + 1 - y - k);
                assert(m.view.skip(y + k).take(region.1 + 1 - y - k) =~= m.view.subrange(y + k, region.1 + 1));
                lemma_widths_concat(m.view.take(y as int), m.view.subrange(y + k, region.1 + 1), m.cols);
                lemma_widths_concat(m.view.take(y as int) + m.view.subrange(y + k, region.1 + 1), blank_lines(m.blank, m.cols, k as nat), m.cols);
                lemma_widths_concat(m.view.take(y as int) + m.view.subrange(y + k, region.1 + 1) + blank_lines(m.blank, m.cols, k as nat), m.view.skip(region.1 + 1), m.cols);
            }
        } else {
            let k = clamp(n, 0, self.rows);
            let mut i: u32 = 0;
            while i < k
                invariant
                    i <= k,
                    k == view_step(n, m.rows),
                    m == old(self).model(),
                    m.wf(),
                    self.free == old(self).free,
                    self.cols == old(self).cols,
                    self.rows == old(self).rows,
                    self.history == old(self).history,
                    self.view@.len() == m.view.len() - i,
                    lines(self.view@) == m.view.skip(i as int),
                    lines(self.back@) == m.back + m.view.take(i as int),
                decreases k - i,
            {
                let ghost raw = self.view@;
                let ghost braw = self.back@;
                assert(raw[0]@ == m.view.skip(i as int)[0]);
                let first = self.view.pop_front().unwrap();
                assert(self.view@ =~= raw.drop_first());
                assert(first@ == m.view[i as int]);
                self.back.push_back(first);
                assert(self.back@ =~= braw.push(first));
                proof {
                    assert forall|j: int| 0 <= j < self.view@.len() implies
                        #[trigger] lines(self.view@)[j] == m.view.skip(i + 1)[j] by {
                        assert(lines(self.view@)[j] == self.view@[j]@);
                        assert(self.view@[j] == raw[j + 1]);
                        assert(lines(raw)[j + 1] == raw[j + 1]@);
                        assert(lines(raw)[j + 1] == m.view.skip(i as int)[j + 1]);
                    }
                    assert(lines(braw.push(first)) =~= lines(braw).push(first@));
                }
                i = i + 1;
                assert(lines(self.view@) =~= m.view.skip(i as int));
                assert(lines(self.back@) =~= m.back + m.view.take(i as int));
            }
            let len = self.view.len();
            insert_blank_rows(&mut self.view, len, k as usize, self.cols as usize, &mut self.free);
            proof {
                let v = m.view.skip(k as int);
                assert(lines(self.view@) =~= v + blank_lines(m.blank, m.cols, k as nat));
                lemma_widths_take_skip(m.view, m.cols, k as int);
                lemma_widths_concat(v, blank_lines(m.blank, m.cols, k as nat), m.cols);
                lemma_widths_concat(m.back, m.view.take(k as int), m.cols);
            }
        }
        self.clean_history();
        proof {
            let b = self.model().back;
            if b.len() > 0 {
                lemma_widths_take_skip(b, m.cols, 0);
            }
        }
    }

    /// Scroll the view down by `n`, optionally within the region; the lines
    /// scrolled off the bottom are dropped.
    pub fn down(&mut self, n: u32, region: Option<(u32, u32)>)
        requires
            old(self).wf(),
            region matches Some((top, bottom)) ==> top <= bottom < old(self).model().rows,
        ensures
            final(self).wf(),
            final(self).model() == scrolled_down(old(self).model(), n, region),
    {
        let ghost m = self.model();
        if let Some(region) = region {
            let y = region.0;
            let n = clamp(n, 0, region.1 - y + 1);
            let mut rest = self.view.split_off(y as usize);
            let ghost r0 = lines(rest@);
            assert(r0 =~= m.view.skip(y as int));
            assert(lines(self.view@) =~= m.view.take(y as int));
            let len = self.view.len();
            insert_blank_rows(&mut self.view, len, n as usize, self.cols as usize, &mut self.free);
            let offset = region.1 + 1 - y - n;
            remove_rows(&mut rest, offset as usize, n as usize, &mut self.free);
            let ghost vb = lines(self.view@);
            let ghost rb = lines(rest@);
            self.view.append(&mut rest);
            proof {
                let k = region_step(n, region.0, region.1) as int;
                assert(lines(self.view@) =~= vb + rb);
                let want = m.view.take(y as int) + blank_lines(m.blank, m.cols, k as nat) + m.view.subrange(y as int, region.1 + 1 - k)
                    + m.view.skip(region.1 + 1);
                assert(lines(self.view@) =~= want);
                lemma_widths_take_skip(m.view, m.cols, y as int);
                lemma_widths_take_skip(m.view, m.cols, region.1 + 1);
                lemma_widths_take_skip(m.view, m.cols, region.1 + 1 - k);
                lemma_widths_take_skip(m.view.take(region.1 + 1 - k), m.cols, y as int);
                assert(m.view.take(region.1 + 1 - k).skip(y as int) =~= m.view.subrange(y as int, region.1 + 1 - k));
                lemma_widths_concat(m.view.take(y as int), blank_lines(m.blank, m.cols, k as nat), m.cols);
                lemma_widths_concat(m.view.take(y as int) + blank_lines(m.blank, m.cols, k as nat), m.view.subrange(y as int, region.1 + 1 - k), m.cols);
                lemma_widths_concat(m.view.take(y as int) + blank_lines(m.blank, m.cols, k as nat) + m.view.subrange(y as int, region.1 + 1 - k), m.view.skip(region.1 + 1), m.cols);
            }
        } else {
            let k = clamp(n, 0, self.rows);
            assert(self.view@.len() == m.rows);
            remove_rows(&mut self.view, (self.rows - k) as usize, k as usize, &mut self.free);
            assert(lines(self.view@) =~= m.view.take(m.rows - k));
            insert_blank_rows(&mut self.view, 0, k as usize, self.cols as usize, &mut self.free);
            proof {
                let v = m.view.take(m.rows - k);
                assert(lines(self.view@) =~= blank_lines(m.blank, m.cols, k as nat) + v);
                lemma_widths_take_skip(m.view, m.cols, m.rows - k);
                lemma_widths_concat(blank_lines(m.blank, m.cols, k as nat), v, m.cols);
            }
        }
        self.clean_history();
    }

    /// Delete `n` cells starting from the given origin: the cells up to where
    /// `n` characters end go, and blank cells fill the end of the row.
    pub fn delete(&mut self, x: u32, y: u32, n: u32)
        requires
            old(self).wf(),
            y < old(self).model().rows,
            x <= old(self).model().cols,
            delete_fits(old(self).model(), x, y, n),
        ensures
            final(self).wf(),
            final(self).model() == after_delete(old(self).model(), x, y, n),
    {
        let ghost m = self.model();
        let n = clamp(n, 0, self.cols - x);
        let mut row = self.view.remove(y as usize).unwrap();
        assert(row@ == m.view[y as int]);
        let ghost s = row@.cells;
        proof {
            lemma_delete_end(s, self.cols as int, x as int, n as nat);
        }
        delete_cells(&mut row, x, n, self.cols, &self.free);
        self.view.insert(y as usize, row);
        assert(lines(self.view@) =~= with_cells(m.view, y as int, row@.cells));
        proof {
            lemma_with_cells_widths(m.view, y as int, row@.cells, m.cols);
        }
    }

    /// Delete `n` cells starting from the given origin when every cell the
    /// deletion passes has a width and the columns fit in 32 bits; tells
    /// whether it did, and leaves the grid as it was when it did not.
    pub fn delete_checked(&mut self, x: u32, y: u32, n: u32) -> (done: bool)
        requires
            old(self).wf(),
            y < old(self).model().rows,
            x <= old(self).model().cols,
        ensures
            final(self).wf(),
            done == delete_fits(old(self).model(), x, y, n),
            final(self).model() == if done { after_delete(old(self).model(), x, y, n) } else { old(self).model() },
    {
        let k = clamp(n, 0, self.cols - x);
        assert(self.view@[y as int]@ == self.model().view[y as int]);
        let ok = delete_allowed(&self.view[y as usize], x, k, self.cols);
        if ok {
            self.delete(x, y, n);
        }
        ok
    }

    /// Insert `n` empty cells starting from the given origin; cells pushed
    /// past the end of the row are dropped, and a wide cell at the end that
    /// lost part of its references is made blank.
    pub fn insert(&mut self, x: u32, y: u32, n: u32)
        requires
            old(self).wf(),
            y < old(self).model().rows,
            x <= old(self).model().cols,
            old(self).model().cols > 0,
            x + spec_clamp(n, 0, old(self).model().cols as u32) <= u32::MAX,
            trailing_refs(
                spliced(
                    old(self).model().view[y as int].cells,
                    x as int,
                    spec_clamp(n, 0, old(self).model().cols as u32) as nat,
                    old(self).model().cols,
                    old(self).model().blank,
                ),
            ) < old(self).model().cols,
        ensures
            final(self).wf(),
            final(self).model() == after_insert(old(self).model(), x, y, n),
    {
        let ghost m = self.model();
        let n = clamp(n, 0, self.cols);
        let mut row = self.view.remove(y as usize).unwrap();
        assert(row@ == m.view[y as int]);
        insert_cells(&mut row, x, n, self.cols, &self.free);
        proof {
            lemma_fix_tail_len(spliced(m.view[y as int].cells, x as int, n as nat, m.cols, m.blank), m.blank);
        }
        self.view.insert(y as usize, row);
        assert(lines(self.view@) =~= with_cells(m.view, y as int, row@.cells));
        proof {
            lemma_with_cells_widths(m.view, y as int, row@.cells, m.cols);
        }
    }

    /// Mark a row as wrapped.
    pub fn wrapped(&mut self, y: u32, value: bool)
        requires
            old(self).wf(),
            y < old(self).model().rows,
        ensures
            final(self).wf(),
            final(self).model() == (GridModel {
                view: old(self).model().view.update(y as int, Line { cells: old(self).model().view[y as int].cells, wrapped: value }),
                ..old(self).model()
            }),
    {
        let ghost m = self.model();
        let mut row = self.view.remove(y as usize).unwrap();
        assert(row@ == m.view[y as int]);
        row.wrapped = value;
        self.view.insert(y as usize, row);
        assert(lines(self.view@) =~= m.view.update(y as int, row@));
        proof {
            lemma_with_cells_widths(m.view, y as int, row@.cells, m.cols);
            assert(with_cells(m.view, y as int, row@.cells).update(y as int, row@) =~= m.view.update(y as int, row@));
            assert forall|j: int| 0 <= j < m.view.len() implies (#[trigger] m.view.update(y as int, row@)[j]).cells.len() == m.cols by {
                assert(with_cells(m.view, y as int, row@.cells)[j].cells == m.view.update(y as int, row@)[j].cells);
            }
        }
    }

    /// The row `y` of the view.
    pub fn row(&self, y: u32) -> (r: &Row)
        requires
            y < self.model().rows,
            self.wf(),
        ensures
            r@ == self.model().view[y as int],
    {
        &self.view[y as usize]
    }

    /// The cell at column `x` of row `y` of the view.
    pub fn cell(&self, x: u32, y: u32) -> (c: &Cell)
        requires
            self.wf(),
            y < self.model().rows,
            x < self.model().cols,
        ensures
            *c == self.model().view[y as int].cells[x as int],
    {
        assert(self.view@[y as int]@ == self.model().view[y as int]);
        self.view[y as usize].get(x as usize)
    }

    /// Puts `cell` at column `x` of row `y` of the view.
    pub fn set_cell(&mut self, x: u32, y: u32, cell: Cell)
        requires
            old(self).wf(),
            y < old(self).model().rows,
            x < old(self).model().cols,
        ensures
            final(self).wf(),
            final(self).model() == (GridModel {
                view: with_cells(old(self).model().view, y as int, old(self).model().view[y as int].cells.update(x as int, cell)),
                ..old(self).model()
            }),
    {
        let ghost m = self.model();
        let mut row = self.view.remove(y as usize).unwrap();
        assert(row@ == m.view[y as int]);
        set_cell(&mut row, x as usize, cell);
        self.view.insert(y as usize, row);
        assert(lines(self.view@) =~= with_cells(m.view, y as int, row@.cells));
        proof {
            lemma_with_cells_widths(m.view, y as int, row@.cells, m.cols);
        }
    }

    /// Resize the grid.
    pub fn resize(&mut self, cols: u32, rows: u32) -> (offset: i32)
        requires
            reflow_ok(old(self).model().view, cols as nat),
            reflow_ok(old(self).model().back, cols as nat),
            old(self).model().blank is Empty,
            i32::MIN <= resize_offset(old(self).model(), cols as nat, rows as nat) <= i32::MAX,
        ensures
            final(self).model() == resized(old(self).model(), cols as nat, rows as nat),
            offset == resize_offset(old(self).model(), cols as nat, rows as nat),
            final(self).wf(),
    {
        let ghost m = self.model();
        let ghost blank = m.blank;
        self.cols = cols;
        self.rows = rows;
        let old_len = self.view.len();
        let orphans = reflow_rows(&mut self.view, &self.free, cols);
        reflow_rows(&mut self.back, &self.free, cols);
        let reflowed = self.view.len();
        let ghost v1 = reflow(m.view, cols as nat, blank);
        let ghost b1 = reflow(m.back, cols as nat, blank);
        proof {
            lemma_reflow_widths(m.view, cols as nat, blank);
            lemma_reflow_widths(m.back, cols as nat, blank);
        }
        let ghost v2 = trim_blank_lines(v1, rows as nat);
        if self.view.len() > rows as usize {
            while self.view.len() > rows as usize && row_all_empty(&self.view[self.view.len() - 1])
                invariant
                    trim_blank_lines(lines(self.view@), rows as nat) == v2,
                    lines(self.back@) == b1,
                    self.free.blank() == blank,
                    self.view@.len() >= rows,
                    self.cols == cols,
                    self.rows == rows,
                    self.history == m.history,
                decreases self.view@.len(),
            {
                let ghost before = lines(self.view@);
                self.view.pop_back();
                assert(lines(self.view@) =~= before.drop_last());
            }
            assert(lines(self.view@) == v2);
            let overflow = self.view.len() - rows as usize;
            let mut j: usize = 0;
            while j < overflow
                invariant
                    j <= overflow,
                    overflow == v2.len() - rows,
                    v2.len() >= rows,
                    lines(self.view@) == v2.skip(j as int),
                    lines(self.back@) == b1 + v2.take(j as int),
                    self.free.blank() == blank,
                    self.cols == cols,
                    self.rows == rows,
                    self.history == m.history,
                decreases overflow - j,
            {
                let ghost vb = lines(self.view@);
                let ghost bb = lines(self.back@);
                let ghost vold = self.view@;
                assert(vb.len() > 0);
                assert(vb[0] == vold[0]@);
                let row = self.view.pop_front().unwrap();
                assert(vb[0] == row@);
                assert(vb[0] == v2.skip(j as int)[0]);
                assert(row@ == v2[j as int]);
                self.back.push_back(row);
                j = j + 1;
                assert(lines(self.view@) =~= vb.drop_first());
                assert(lines(self.view@) =~= v2.skip(j as int));
                assert(lines(self.back@) =~= bb.push(row@));
                assert(lines(self.back@) =~= b1 + v2.take(j as int));
            }
        } else {
            assert(v2 == v1);
        }
        let ghost b2 = lines(self.back@);
        let ghost v3 = lines(self.view@);
        let mut pulled: usize = 0;
        if self.view.len() < rows as usize {
            let need = rows as usize - self.view.len();
            let mut j: usize = 0;
            while j < need
                invariant
                    j <= need,
                    need == rows - v3.len(),
                    pulled <= j,
                    pulled <= b2.len(),
                    pulled < j ==> pulled == b2.len(),
                    lines(self.view@) == b2.skip(b2.len() - pulled) + v3 + blank_lines(blank, cols as nat, (j - pulled) as nat),
                    lines(self.back@) == b2.take(b2.len() - pulled),
                    self.free.blank() == blank,
                    self.cols == cols,
                    self.rows == rows,
                    self.history == m.history,
                decreases need - j,
            {
                let ghost vb = lines(self.view@);
                let ghost bb = lines(self.back@);
                match self.back.pop_back() {
                    Some(row) => {
                        assert(row@ == bb.last());
                        assert(pulled == j);
                        self.view.push_front(row);
                        pulled = pulled + 1;
                        assert(row@ == b2[b2.len() - pulled]);
                        assert(lines(self.back@) =~= bb.drop_last());
                        assert(lines(self.back@) =~= b2.take(b2.len() - pulled));
                        assert(lines(self.view@) =~= seq![row@] + vb);
                        assert(lines(self.view@) =~= b2.skip(b2.len() - pulled) + v3 + blank_lines(blank, cols as nat, (j + 1 - pulled) as nat));
                    },
                    None => {
                        assert(bb.len() == 0);
                        let row = self.free.pop(cols as usize);
                        self.view.push_back(row);
                        assert(lines(self.view@) =~= b2.skip(b2.len() - pulled) + v3 + blank_lines(blank, cols as nat, (j + 1 - pulled) as nat)) by {
                            assert(lines(self.view@) =~= vb.push(row@));
                        }
                    },
                }
                j = j + 1;
            }
        }
        proof {
            lemma_resized_wf(m, cols as nat, rows as nat);
        }
        proof {
            let st = settle(m, cols as nat, rows as nat);
            assert(pulled == st.2);
            assert(lines(self.view@) == st.0);
            assert(lines(self.back@) == st.1);
        }
        self.clean_history();
        proof {
            lemma_lead_wrapped(m.view);
        }
        let grouped = old_len - orphans;
        let offset: i128 = reflowed as i128 - grouped as i128 + pulled as i128;
        offset as i32
    }
}

} // verus!
