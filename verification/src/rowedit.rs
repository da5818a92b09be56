//! Edits of the cells of one row.
use crate::cell::{spec_cell_width, Cell};
use crate::edit::{
    clear_refs, delete_end, delete_ok, deleted, fix_tail, last_start, leading_refs, lemma_leading_refs,
    lemma_trailing_refs, shift_left, shift_right, spliced, trailing_refs,
};
use crate::free::Free;
use crate::row::{blanks, Line, Row};
use vstd::prelude::*;

verus! {

/// Moves the row one column to the left.
pub fn shift_row_left(row: &mut Row, free: &Free)
    requires
        old(row)@.cells.len() > 0,
    ensures
        final(row)@ == (Line { cells: shift_left(old(row)@.cells, free.blank()), wrapped: old(row)@.wrapped }),
{
    let ghost s = row.inner@;
    let ghost l = s.len();
    let ghost blank = free.blank();
    let len0 = row.inner.len();
    proof {
        lemma_trailing_refs(s);
        assert(row.inner@ =~= blanks(blank, 0) + s.take(l as int));
    }
    let mut j: usize = 0;
    loop
        invariant_except_break
            j <= trailing_refs(s),
            j <= l,
            row.inner@ == blanks(blank, j as nat) + s.take(l - j),
        invariant
            s == old(row)@.cells,
            l == s.len(),
            l == len0,
            l > 0,
            blank == free.blank(),
            row.wrapped == old(row)@.wrapped,
            trailing_refs(s) <= l,
            forall|i: int| l - trailing_refs(s) <= i < l ==> (#[trigger] s[i]) is Reference,
            trailing_refs(s) < l ==> !(s[l - 1 - trailing_refs(s)] is Reference),
        ensures
            j == trailing_refs(s),
            j < l ==> row.inner@ == blanks(blank, j as nat) + s.take(l - j - 1),
            j == l ==> row.inner@ == blanks(blank, (l - 1) as nat),
        decreases l - j,
    {
        let ghost before = row.inner@;
        let c = row.inner.pop_back().unwrap();
        if c.is_reference() {
            proof {
                assert(c == before[before.len() - 1]);
                if j < l {
                    assert(before[before.len() - 1] == s[l - 1 - j]);
                } else {
                    assert(before[before.len() - 1] == blank);
                }
            }
            row.inner.push_front(free.cell());
            j = j + 1;
            assert(row.inner@ =~= blanks(blank, j as nat) + s.take(l - j));
        } else {
            proof {
                assert(c == before[before.len() - 1]);
                if j < l {
                    assert(before[before.len() - 1] == s[l - 1 - j]);
                    assert(row.inner@ =~= blanks(blank, j as nat) + s.take(l - j - 1));
                } else {
                    assert(row.inner@ =~= blanks(blank, (l - 1) as nat));
                }
            }
            break;
        }
    }
    row.inner.push_front(free.cell());
    proof {
        if j < l {
            assert(row.inner@ =~= blanks(blank, (j + 1) as nat) + s.take(l - j - 1));
        } else {
            assert(row.inner@ =~= blanks(blank, l as nat));
        }
    }
}

/// Moves the row one column to the right.
pub fn shift_row_right(row: &mut Row, free: &Free)
    ensures
        final(row)@ == (Line { cells: shift_right(old(row)@.cells, free.blank()), wrapped: old(row)@.wrapped }),
{
    if row.inner.len() == 0 {
        row.inner.push_back(free.cell());
        assert(row.inner@ =~= blanks(free.blank(), 1));
        return;
    }
    let ghost s = row.inner@;
    let ghost t = s.drop_first();
    let ghost blank = free.blank();
    let len0 = row.inner.len();
    proof {
        lemma_leading_refs(t);
    }
    row.inner.pop_front();
    row.inner.push_back(free.cell());
    assert(row.inner@ =~= t.skip(0) + blanks(blank, 1));
    let mut j: usize = 0;
    while row.inner[0].is_reference()
        invariant
            old(row)@.cells.len() > 0,
            t == old(row)@.cells.drop_first(),
            t.len() < len0,
            blank == free.blank(),
            row.wrapped == old(row)@.wrapped,
            j <= leading_refs(t),
            row.inner@ == t.skip(j as int) + blanks(blank, (j + 1) as nat),
            leading_refs(t) <= t.len(),
            forall|i: int| 0 <= i < leading_refs(t) ==> (#[trigger] t[i]) is Reference,
            leading_refs(t) < t.len() ==> !(t[leading_refs(t) as int] is Reference),
        decreases t.len() - j,
    {
        proof {
            if j < t.len() {
                assert(row.inner@[0] == t[j as int]);
            } else {
                assert(row.inner@[0] == blank);
            }
        }
        row.inner.pop_front();
        row.inner.push_back(free.cell());
        j = j + 1;
        assert(row.inner@ =~= t.skip(j as int) + blanks(blank, (j + 1) as nat));
    }
    proof {
        if j < t.len() {
            assert(row.inner@[0] == t[j as int]);
        } else {
            assert(row.inner@[0] == blank);
        }
    }
}

/// Puts `c` in column `x` of the row.
pub fn set_cell(row: &mut Row, x: usize, c: Cell)
    requires
        x < old(row)@.cells.len(),
    ensures
        final(row)@ == (Line { cells: old(row)@.cells.update(x as int, c), wrapped: old(row)@.wrapped }),
{
    let ghost before = row.inner@;
    row.inner.remove(x);
    row.inner.insert(x, c);
    assert(row.inner@ =~= before.update(x as int, c));
}

/// Makes blank the run of references that starts at column `x`.
pub fn clear_ref_run(row: &mut Row, x: usize, free: &Free)
    requires
        x <= old(row)@.cells.len(),
    ensures
        final(row)@ == (Line { cells: clear_refs(old(row)@.cells, x as int, free.blank()), wrapped: old(row)@.wrapped }),
{
    let ghost s = row.inner@;
    let ghost blank = free.blank();
    proof {
        lemma_leading_refs(s.skip(x as int));
    }
    let mut k: usize = x;
    while k < row.inner.len() && row.inner[k].is_reference()
        invariant
            s == old(row)@.cells,
            blank == free.blank(),
            row.wrapped == old(row)@.wrapped,
            x <= k <= s.len(),
            k - x <= leading_refs(s.skip(x as int)),
            row.inner@ == s.take(x as int) + blanks(blank, (k - x) as nat) + s.skip(k as int),
            leading_refs(s.skip(x as int)) <= s.skip(x as int).len(),
            forall|i: int| 0 <= i < leading_refs(s.skip(x as int)) ==> (#[trigger] s.skip(x as int)[i]) is Reference,
            leading_refs(s.skip(x as int)) < s.skip(x as int).len() ==> !(s.skip(x as int)[leading_refs(s.skip(x as int)) as int] is Reference),
        decreases s.len() - k,
    {
        assert(row.inner@[k as int] == s[k as int]);
        assert(s[k as int] == s.skip(x as int)[k - x]);
        set_cell(row, k, free.cell());
        k = k + 1;
        assert(row.inner@ =~= s.take(x as int) + blanks(blank, (k - x) as nat) + s.skip(k as int));
    }
    proof {
        if k < s.len() {
            assert(row.inner@[k as int] == s[k as int]);
            assert(s[k as int] == s.skip(x as int)[k - x]);
        }
    }
}

/// Whether deleting `n` characters from column `x` only meets cells that
/// have a width and counts columns that fit in 32 bits.
pub fn delete_allowed(row: &Row, x: u32, n: u32, cols: u32) -> (b: bool)
    requires
        row@.cells.len() == cols,
        x <= cols,
    ensures
        b == delete_ok(row@.cells, cols as int, x as int, n as nat),
{
    let ghost s = row.inner@;
    let mut end: u32 = x;
    let mut k: u32 = 0;
    while k < n
        invariant
            k <= n,
            s == row@.cells,
            s.len() == cols,
            delete_ok(s, cols as int, x as int, n as nat) == delete_ok(s, cols as int, end as int, (n - k) as nat),
        decreases n - k,
    {
        if end >= cols {
            return false;
        }
        let cell = &row.inner[end as usize];
        if cell.is_reference() {
            return false;
        }
        let w = cell.width();
        if w > u32::MAX - end {
            return false;
        }
        end = end + w;
        k = k + 1;
        if end >= cols {
            return true;
        }
    }
    true
}

/// Deletes `n` characters from column `x`: the cells up to where the
/// characters end go, and as many blank cells are added at the end.
pub fn delete_cells(row: &mut Row, x: u32, n: u32, cols: u32, free: &Free)
    requires
        old(row)@.cells.len() == cols,
        x <= cols,
        n <= cols - x,
        delete_ok(old(row)@.cells, cols as int, x as int, n as nat),
    ensures
        final(row)@ == (Line {
            cells: deleted(old(row)@.cells, x as int, delete_end(old(row)@.cells, cols as int, x as int, n as nat), free.blank()),
            wrapped: old(row)@.wrapped,
        }),
{
    let ghost s = row.inner@;
    let ghost blank = free.blank();
    let mut end: u32 = x;
    let mut k: u32 = 0;
    while k < n
        invariant_except_break
            k <= n,
            x <= end,
            delete_ok(s, cols as int, end as int, (n - k) as nat),
            delete_end(s, cols as int, end as int, (n - k) as nat) == delete_end(s, cols as int, x as int, n as nat),
            end <= cols,
            k < n ==> end < cols,
        invariant
            s == old(row)@.cells,
            row.inner@ == s,
            s.len() == cols,
            x <= cols,
        ensures
            x <= end <= cols,
            end == delete_end(s, cols as int, x as int, n as nat),
        decreases n - k,
    {
        let w = row.inner[end as usize].width();
        end = end + w;
        k = k + 1;
        if end >= cols {
            end = cols;
            break;
        }
    }
    let mut m: u32 = x;
    while m < end
        invariant
            x <= m <= end <= cols,
            s.len() == cols,
            blank == free.blank(),
            row.wrapped == old(row)@.wrapped,
            row.inner@ == s.take(x as int) + s.skip(m as int),
        decreases end - m,
    {
        let ghost before = row.inner@;
        row.inner.remove(x as usize);
        m = m + 1;
        assert(row.inner@ =~= s.take(x as int) + s.skip(m as int));
    }
    let mut m: u32 = x;
    while m < end
        invariant
            x <= m <= end <= cols,
            s.len() == cols,
            blank == free.blank(),
            row.wrapped == old(row)@.wrapped,
            row.inner@ == s.take(x as int) + s.skip(end as int) + blanks(blank, (m - x) as nat),
        decreases end - m,
    {
        row.inner.push_back(free.cell());
        m = m + 1;
        assert(row.inner@ =~= s.take(x as int) + s.skip(end as int) + blanks(blank, (m - x) as nat));
    }
}

/// Inserts `n` blank cells at column `x`, keeps the first `cols` cells, and
/// makes blank a wide cell at the end that lost part of its references.
pub fn insert_cells(row: &mut Row, x: u32, n: u32, cols: u32, free: &Free)
    requires
        old(row)@.cells.len() == cols,
        x <= cols,
        x + n <= u32::MAX,
        cols > 0,
        trailing_refs(spliced(old(row)@.cells, x as int, n as nat, cols as nat, free.blank())) < cols,
    ensures
        final(row)@ == (Line {
            cells: fix_tail(spliced(old(row)@.cells, x as int, n as nat, cols as nat, free.blank()), free.blank()),
            wrapped: old(row)@.wrapped,
        }),
{
    let ghost s = row.inner@;
    let ghost blank = free.blank();
    let mut k: u32 = x;
    while k < x + n
        invariant
            x <= k <= x + n,
            x + n <= u32::MAX,
            x <= s.len(),
            s == old(row)@.cells,
            blank == free.blank(),
            row.wrapped == old(row)@.wrapped,
            row.inner@ == s.take(x as int) + blanks(blank, (k - x) as nat) + s.skip(x as int),
        decreases x + n - k,
    {
        row.inner.insert(x as usize, free.cell());
        k = k + 1;
        assert(row.inner@ =~= s.take(x as int) + blanks(blank, (k - x) as nat) + s.skip(x as int));
    }
    row.inner.truncate(cols as usize);
    let ghost r1 = spliced(s, x as int, n as nat, cols as nat, blank);
    assert(row.inner@ =~= r1);
    proof {
        lemma_trailing_refs(r1);
    }
    let mut width: u32 = 0;
    let mut c: u32 = cols;
    loop
        invariant_except_break
            c == cols - width,
            width <= trailing_refs(r1),
            c > 0,
        invariant
            r1.len() == cols,
            row.inner@ == r1,
            trailing_refs(r1) < cols,
            forall|i: int| cols - trailing_refs(r1) <= i < cols ==> (#[trigger] r1[i]) is Reference,
            !(r1[cols - 1 - trailing_refs(r1)] is Reference),
        ensures
            width == trailing_refs(r1) + 1,
        decreases c,
    {
        c = c - 1;
        width = width + 1;
        if !row.inner[c as usize].is_reference() {
            break;
        }
    }
    let start = cols - width;
    assert(start == last_start(r1));
    if width != row.inner[start as usize].width() {
        let mut m: u32 = start;
        while m < cols
            invariant
                start <= m <= cols,
                r1.len() == cols,
                blank == free.blank(),
                row.wrapped == old(row)@.wrapped,
                row.inner@ == r1.take(start as int) + blanks(blank, (m - start) as nat) + r1.skip(m as int),
            decreases cols - m,
        {
            set_cell(row, m as usize, free.cell());
            m = m + 1;
            assert(row.inner@ =~= r1.take(start as int) + blanks(blank, (m - start) as nat) + r1.skip(m as int));
        }
        assert(row.inner@ =~= fix_tail(r1, blank));
    }
}

} // verus!
