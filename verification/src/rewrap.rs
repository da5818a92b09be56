//! Moving rows and cells around in the deques of the grid.
use std::collections::VecDeque;

use itertools::Itertools;

use crate::cell::Cell;
use crate::edit::{shift_left, shift_right};
use crate::free::Free;
use crate::grid::map_cells;
use crate::reflow::{
    all_empty, chunk_lines, chunks_of, concat_cells, content, group_at, group_ok, lead_wrapped, lemma_chunks_of,
    lemma_concat_cells_take, lemma_lead_wrapped, lemma_reflow_empty, lemma_reflow_skip_lead, lemma_reflow_unfold,
    pad, reflow, reflow_group, reflow_ok, trim_empty, trim_to,
};
use crate::row::{blank_lines, blanks, lines, Line, Row};
use crate::rowedit::{shift_row_left, shift_row_right};
use vstd::prelude::*;

verus! {

/// Calls `Itertools::chunks` of itertools, which yields the items in pieces
/// of `size`, the last piece holding what is left; each piece is collected.
#[verifier::external_body]
fn chunk_items<T>(items: Vec<T>, size: usize) -> (pieces: Vec<Vec<T>>)
    requires
        size > 0,
    ensures
        pieces@.map_values(|p: Vec<T>| p@) == chunks_of(items@, size as nat),
{
    let grouped = items.into_iter().chunks(size);
    let pieces: Vec<Vec<T>> = (&grouped).into_iter().map(|piece| piece.collect()).collect();
    pieces
}

/// Drops the empty cells at the end of the row.
pub(crate) fn trim_row(row: &mut Row)
    ensures
        final(row)@ == (Line { cells: trim_empty(old(row)@.cells), wrapped: old(row)@.wrapped }),
{
    while row.inner.len() > 0 && row.inner[row.inner.len() - 1].is_empty()
        invariant
            trim_empty(row.inner@) == trim_empty(old(row)@.cells),
            row.wrapped == old(row)@.wrapped,
        decreases row.inner@.len(),
    {
        let ghost before = row.inner@;
        row.inner.pop_back();
        assert(row.inner@ =~= before.drop_last());
    }
}

/// Drops the empty cells at the end of the row while it is longer than `n`.
pub(crate) fn trim_row_to(row: &mut Row, n: usize)
    ensures
        final(row)@ == (Line { cells: trim_to(old(row)@.cells, n as nat), wrapped: old(row)@.wrapped }),
{
    while row.inner.len() > n && row.inner[row.inner.len() - 1].is_empty()
        invariant
            trim_to(row.inner@, n as nat) == trim_to(old(row)@.cells, n as nat),
            row.wrapped == old(row)@.wrapped,
        decreases row.inner@.len(),
    {
        let ghost before = row.inner@;
        row.inner.pop_back();
        assert(row.inner@ =~= before.drop_last());
    }
}

/// Moves the cells of `row` to the end of `out`.
pub(crate) fn append_cells(row: Row, out: &mut Vec<Cell>)
    ensures
        final(out)@ == old(out)@ + row@.cells,
{
    let ghost cells = row@.cells;
    let mut row = row;
    while row.inner.len() > 0
        invariant
            out@ + row.inner@ == old(out)@ + cells,
        decreases row.inner@.len(),
    {
        let ghost before = row.inner@;
        let c = row.inner.pop_front().unwrap();
        out.push(c);
        assert(out@ + row.inner@ =~= old(out)@ + cells) by {
            assert(before =~= seq![c] + row.inner@);
        }
    }
    assert(row.inner@ =~= Seq::<Cell>::empty());
    assert(out@ =~= old(out)@ + cells);
}

/// The cells of `v` in a deque.
pub(crate) fn deque_of(v: Vec<Cell>) -> (d: VecDeque<Cell>)
    ensures
        d@ == v@,
{
    let ghost all = v@;
    let mut v = v;
    let mut d: VecDeque<Cell> = VecDeque::new();
    while v.len() > 0
        invariant
            v@ + d@ == all,
        decreases v@.len(),
    {
        let ghost before = v@;
        let c = v.pop().unwrap();
        d.push_front(c);
        assert(v@ + d@ =~= all) by {
            assert(before =~= v@.push(c));
        }
    }
    assert(v@ + d@ =~= d@);
    d
}

/// Fills the row up to `cols` cells with blank ones.
pub(crate) fn pad_row(row: &mut Row, cols: usize, free: &Free)
    ensures
        final(row)@ == (Line { cells: pad(old(row)@.cells, cols as nat, free.blank()), wrapped: old(row)@.wrapped }),
{
    let ghost start = row.inner@;
    while row.inner.len() < cols
        invariant
            row.wrapped == old(row)@.wrapped,
            start == old(row)@.cells,
            start.len() <= row.inner@.len() <= cols || (start.len() >= cols && row.inner@ == start),
            row.inner@.len() <= start.len() || row.inner@ == start + blanks(free.blank(), (row.inner@.len() - start.len()) as nat),
            row.inner@.len() >= start.len(),
            row.inner@.subrange(0, start.len() as int) == start,
        decreases cols - row.inner@.len(),
    {
        let ghost before = row.inner@;
        row.inner.push_back(free.cell());
        assert(row.inner@.subrange(0, start.len() as int) =~= start) by {
            assert(before.subrange(0, start.len() as int) == start);
        }
        assert(row.inner@ =~= start + blanks(free.blank(), (row.inner@.len() - start.len()) as nat)) by {
            if before.len() > start.len() {
                assert(before == start + blanks(free.blank(), (before.len() - start.len()) as nat));
            } else {
                assert(before =~= start);
            }
        }
    }
    proof {
        if start.len() < cols {
            assert(row.inner@ =~= start + blanks(free.blank(), (cols - start.len()) as nat));
        } else {
            assert(row.inner@ =~= start);
        }
    }
}

/// Whether every cell of the row is empty.
pub(crate) fn row_all_empty(row: &Row) -> (b: bool)
    ensures
        b == all_empty(row@),
{
    let mut k: usize = 0;
    while k < row.inner.len()
        invariant
            k <= row.inner@.len(),
            forall|j: int| 0 <= j < k ==> (#[trigger] row.inner@[j]) is Empty,
        decreases row.inner@.len() - k,
    {
        if !row.inner[k].is_empty() {
            return false;
        }
        k = k + 1;
    }
    true
}

/// Inserts at `at` the rows that show `cells` at width `cols`.
pub(crate) fn insert_chunks(rows: &mut VecDeque<Row>, at: usize, cells: Vec<Cell>, cols: u32, free: &Free)
    requires
        at <= old(rows)@.len(),
        cols > 0,
        cells@.len() > 0,
    ensures
        lines(final(rows)@) == lines(old(rows)@).take(at as int) + chunk_lines(cells@, cols as nat, free.blank())
            + lines(old(rows)@).skip(at as int),
{
    let ghost x = cells@;
    let ghost c = chunks_of(x, cols as nat);
    let ghost out = chunk_lines(x, cols as nat, free.blank());
    let ghost before = lines(rows@);
    proof {
        lemma_chunks_of(x, cols as nat);
    }
    let mut pieces = chunk_items(cells, cols as usize);
    assert(pieces@.len() == c.len()) by {
        assert(pieces@.map_values(|p: Vec<Cell>| p@).len() == pieces@.len());
    }
    let total = pieces.len();
    let mut k = total;
    while k > 0
        invariant
            k <= total,
            total == c.len(),
            total > 0,
            pieces@.len() == k,
            forall|j: int| 0 <= j < k ==> (#[trigger] pieces@[j])@ == c[j],
            forall|j: int| 0 <= j < c.len() ==> 0 < (#[trigger] c[j]).len() <= cols,
            out == chunk_lines(x, cols as nat, free.blank()),
            c == chunks_of(x, cols as nat),
            at <= before.len(),
            at <= rows@.len(),
            lines(rows@) == before.take(at as int) + out.skip(k as int) + before.skip(at as int),
        decreases k,
    {
        assert(pieces@[k - 1]@ == c[k - 1]) by {
            assert(pieces@.map_values(|p: Vec<Cell>| p@)[k - 1] == c[k - 1]);
        }
        let piece = pieces.pop().unwrap();
        k = k - 1;
        let mut row = Row { inner: deque_of(piece), wrapped: k != 0 };
        if k == total - 1 {
            pad_row(&mut row, cols as usize, free);
        }
        assert(row@ == out[k as int]);
        let ghost mid = rows@;
        rows.insert(at, row);
        assert(lines(rows@) =~= before.take(at as int) + out.skip(k as int) + before.skip(at as int)) by {
            assert(lines(rows@) =~= lines(mid).insert(at as int, row@));
            assert(out.skip(k as int) =~= seq![out[k as int]] + out.skip(k + 1));
        }
    }
}

/// Moves the cells of a logical line into one vector: the cells of `head`,
/// then those of the rows in `pending` from the last to the first, the empty
/// cells at the end of the first one dropped.
pub(crate) fn gather_group(head: Row, pending: &mut Vec<Row>, g: Ghost<Seq<Line>>) -> (cells: Vec<Cell>)
    requires
        old(pending)@.len() > 0,
        g@.len() == old(pending)@.len() + 1,
        g@[0] == head@,
        forall|k: int| 0 <= k < old(pending)@.len() ==> (#[trigger] old(pending)@[k])@ == g@[g@.len() - 1 - k],
    ensures
        cells@ == content(g@, 0),
        final(pending)@.len() == 0,
{
    let ghost p: int = pending@.len() as int;
    let mut cells: Vec<Cell> = Vec::new();
    append_cells(head, &mut cells);
    proof {
        lemma_concat_cells_take(g@, 0);
        assert(g@.take(0).map_values(|l: Line| l.cells) =~= Seq::<Seq<Cell>>::empty());
        assert(cells@ =~= concat_cells(g@.take(1)));
    }
    while pending.len() > 1
        invariant
            1 <= pending@.len() <= p,
            g@.len() == p + 1,
            forall|k: int| 0 <= k < pending@.len() ==> (#[trigger] pending@[k])@ == g@[g@.len() - 1 - k],
            cells@ == concat_cells(g@.take(1 + p - pending@.len())),
        decreases pending@.len(),
    {
        let ghost m = 1 + p - pending@.len();
        let r = pending.pop().unwrap();
        assert(r@ == g@[m]);
        append_cells(r, &mut cells);
        proof {
            lemma_concat_cells_take(g@, m);
        }
    }
    let mut last = pending.pop().unwrap();
    assert(last@ == g@.last());
    trim_row(&mut last);
    append_cells(last, &mut cells);
    assert(g@.take(p as int) =~= g@.drop_last());
    cells
}


/// Puts at `at` the rows that show the logical line made of `head` and the
/// rows in `pending`, from the last to the first.
pub(crate) fn place_group(
    rows: &mut VecDeque<Row>,
    at: usize,
    head: Row,
    pending: &mut Vec<Row>,
    free: &Free,
    cols: u32,
    g: Ghost<Seq<Line>>,
)
    requires
        at <= old(rows)@.len(),
        g@.len() == old(pending)@.len() + 1,
        g@[0] == head@,
        !head@.wrapped,
        forall|k: int| 0 <= k < old(pending)@.len() ==> (#[trigger] old(pending)@[k])@ == g@[g@.len() - 1 - k],
        group_ok(g@, cols as nat),
    ensures
        lines(final(rows)@) == lines(old(rows)@).take(at as int) + reflow_group(g@, cols as nat, free.blank())
            + lines(old(rows)@).skip(at as int),
        final(pending)@.len() == 0,
{
    let ghost c = cols as nat;
    let ghost blank = free.blank();
    let ghost before = lines(rows@);
    let row = head;
    if pending.len() > 0 {
        let cells = gather_group(row, pending, g);
        assert(cells@ == content(g@, c));
        insert_chunks(rows, at, cells, cols, free);
        assert(reflow_group(g@, c, blank) == chunk_lines(cells@, c, blank));
        assert(lines(rows@) =~= before.take(at as int) + reflow_group(g@, c, blank) + before.skip(at as int));
    } else {
        let mut row = row;
        trim_row_to(&mut row, cols as usize);
        assert(row@.cells == content(g@, c));
        if row.len() > cols as usize {
            let mut cells: Vec<Cell> = Vec::new();
            append_cells(row, &mut cells);
            assert(cells@ == content(g@, c));
            insert_chunks(rows, at, cells, cols, free);
            assert(reflow_group(g@, c, blank) == chunk_lines(cells@, c, blank));
        } else {
            pad_row(&mut row, cols as usize, free);
            rows.insert(at, row);
            assert(lines(rows@) =~= before.insert(at as int, row@));
            assert(reflow_group(g@, c, blank) =~= seq![row@]);
        }
        assert(lines(rows@) =~= before.take(at as int) + reflow_group(g@, c, blank) + before.skip(at as int));
    }
}

/// Rewraps the rows to width `cols`, bottom to top, and gives the number of
/// wrapped rows at the top that continued nothing and were dropped.
pub(crate) fn reflow_rows(rows: &mut VecDeque<Row>, free: &Free, cols: u32) -> (orphans: usize)
    requires
        reflow_ok(lines(old(rows)@), cols as nat),
    ensures
        lines(final(rows)@) == reflow(lines(old(rows)@), cols as nat, free.blank()),
        orphans == lead_wrapped(lines(old(rows)@)),
{
    let ghost s = lines(rows@);
    let ghost blank = free.blank();
    let ghost c = cols as nat;
    let mut pending: Vec<Row> = Vec::new();
    let mut i: usize = rows.len();
    proof {
        lemma_reflow_empty(c, blank);
        assert(s.skip(i as int) =~= Seq::<Line>::empty());
        assert(lines(rows@) =~= s.take(i as int) + reflow(s.skip(i as int), c, blank));
    }
    while i > 0
        invariant
            s == lines(old(rows)@),
            c == cols as nat,
            blank == free.blank(),
            reflow_ok(s, c),
            i + pending@.len() <= s.len(),
            pending@.len() == lead_wrapped(s.skip(i as int)),
            forall|k: int| 0 <= k < pending@.len() ==> (#[trigger] pending@[k])@ == s[i + pending@.len() - 1 - k],
            lines(rows@) == s.take(i as int) + reflow(s.skip(i + pending@.len()), c, blank),
        decreases i,
    {
        i = i - 1;
        let ghost p: int = pending@.len() as int;
        let ghost before = rows@;
        assert(lines(before).len() == before.len());
        assert(before.len() >= i + 1);
        assert(before[i as int]@ == s[i as int]) by {
            assert(lines(before)[i as int] == (s.take(i + 1) + reflow(s.skip(i + 1 + p), c, blank))[i as int]);
        }
        let row = rows.remove(i).unwrap();
        let ghost after_remove = rows@;
        assert(lines(after_remove) =~= s.take(i as int) + reflow(s.skip(i + 1 + p), c, blank)) by {
            assert(lines(after_remove) =~= lines(before).remove(i as int));
        }
        assert(s.skip(i as int).drop_first() =~= s.skip(i + 1));
        if row.is_wrapped() {
            pending.push(row);
            proof {
                lemma_lead_wrapped(s.skip(i as int));
            }
        } else {
            let ghost g = s.skip(i as int).take(1 + p);
            proof {
                lemma_reflow_unfold(s.skip(i as int), c, blank);
                assert(s.skip(i as int).skip(1 + p) =~= s.skip(i + 1 + p));
                assert(g =~= group_at(s, i as int));
                assert(lead_wrapped(s.skip(i as int)) == 0);
                assert(group_ok(group_at(s, i as int), c));
                assert(reflow(s.skip(i as int), c, blank) == reflow_group(g, c, blank) + reflow(s.skip(i + 1 + p), c, blank));
            }
            place_group(rows, i, row, &mut pending, free, cols, Ghost(g));
            assert(lines(rows@) =~= s.take(i as int) + reflow_group(g, c, blank) + reflow(s.skip(i + 1 + p), c, blank));
            assert(lines(rows@) =~= s.take(i as int) + reflow(s.skip(i as int), c, blank));
        }
    }
    proof {
        lemma_reflow_skip_lead(s, c, blank);
        assert(s.take(0) + reflow(s.skip(pending@.len() as int), c, blank) =~= reflow(s.skip(pending@.len() as int), c, blank));
    }
    pending.len()
}


/// Moves every row one column to the left, or to the right.
pub(crate) fn shift_all(view: &mut VecDeque<Row>, free: &Free, left: bool)
    requires
        left ==> forall|i: int| 0 <= i < old(view)@.len() ==> (#[trigger] old(view)@[i])@.cells.len() > 0,
    ensures
        lines(final(view)@) == map_cells(
            lines(old(view)@),
            |c: Seq<Cell>| if left { shift_left(c, free.blank()) } else { shift_right(c, free.blank()) },
        ),
{
    let ghost cur = lines(view@);
    let ghost f = |c: Seq<Cell>| if left { shift_left(c, free.blank()) } else { shift_right(c, free.blank()) };
    let ghost mapped = map_cells(cur, f);
    let len = view.len();
    let mut i: usize = 0;
    assert(lines(view@) =~= cur.skip(0) + mapped.take(0));
    while i < len
        invariant
            i <= len,
            len == cur.len(),
            view@.len() == len,
            cur == lines(old(view)@),
            mapped == map_cells(cur, f),
            f == (|c: Seq<Cell>| if left { shift_left(c, free.blank()) } else { shift_right(c, free.blank()) }),
            left ==> forall|j: int| 0 <= j < cur.len() ==> (#[trigger] cur[j]).cells.len() > 0,
            lines(view@) == cur.skip(i as int) + mapped.take(i as int),
        decreases len - i,
    {
        let ghost before = lines(view@);
        assert(before[0] == cur[i as int]);
        let ghost vold = view@;
        assert(before[0] == vold[0]@);
        let mut row = view.pop_front().unwrap();
        if left {
            shift_row_left(&mut row, free);
        } else {
            shift_row_right(&mut row, free);
        }
        assert(row@ == mapped[i as int]);
        view.push_back(row);
        i = i + 1;
        assert(lines(view@) =~= before.drop_first().push(row@));
        assert(lines(view@) =~= cur.skip(i as int) + mapped.take(i as int));
    }
    assert(lines(view@) =~= mapped);
}

/// Removes `n` rows at `at`, handing them to `free`.
pub(crate) fn remove_rows(view: &mut VecDeque<Row>, at: usize, n: usize, free: &mut Free)
    requires
        at + n <= old(view)@.len(),
    ensures
        lines(final(view)@) == lines(old(view)@).take(at as int) + lines(old(view)@).skip(at + n),
        final(free).blank() == old(free).blank(),
{
    let ghost v0 = lines(view@);
    let mut k: usize = 0;
    while k < n
        invariant
            k <= n,
            at + n <= v0.len(),
            v0 == lines(old(view)@),
            free.blank() == old(free).blank(),
            view@.len() == v0.len() - k,
            lines(view@) == v0.take(at as int) + v0.skip(at + k),
        decreases n - k,
    {
        let ghost before = lines(view@);
        let row = view.remove(at).unwrap();
        free.push(row);
        k = k + 1;
        assert(lines(view@) =~= before.remove(at as int));
        assert(lines(view@) =~= v0.take(at as int) + v0.skip(at + k));
    }
}

/// Inserts `n` blank rows of `cols` cells at `at`.
pub(crate) fn insert_blank_rows(view: &mut VecDeque<Row>, at: usize, n: usize, cols: usize, free: &mut Free)
    requires
        at <= old(view)@.len(),
    ensures
        lines(final(view)@) == lines(old(view)@).take(at as int) + blank_lines(old(free).blank(), cols as nat, n as nat)
            + lines(old(view)@).skip(at as int),
        final(free).blank() == old(free).blank(),
{
    let ghost v0 = lines(view@);
    let ghost blank = free.blank();
    let mut k: usize = 0;
    while k < n
        invariant
            k <= n,
            at <= v0.len(),
            v0 == lines(old(view)@),
            blank == old(free).blank(),
            free.blank() == blank,
            view@.len() == v0.len() + k,
            lines(view@) == v0.take(at as int) + blank_lines(blank, cols as nat, k as nat) + v0.skip(at as int),
        decreases n - k,
    {
        let ghost before = lines(view@);
        let cur_len = view.len();
        let row = free.pop(cols);
        view.insert(at + k, row);
        k = k + 1;
        assert(lines(view@) =~= before.insert(at + k - 1, row@));
        assert(lines(view@) =~= v0.take(at as int) + blank_lines(blank, cols as nat, k as nat) + v0.skip(at as int));
    }
}

} // verus!
