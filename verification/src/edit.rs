//! What the grid's edits do to the cells of a row, stated over sequences.
use crate::cell::{spec_cell_width, Cell};
use crate::row::blanks;
use vstd::prelude::*;

verus! {

/// The number of reference cells at the end of `s`.
pub open spec fn trailing_refs(s: Seq<Cell>) -> nat
    decreases s.len(),
{
    if s.len() > 0 && s.last() is Reference {
        1 + trailing_refs(s.drop_last())
    } else {
        0
    }
}

/// The number of reference cells at the start of `s`.
pub open spec fn leading_refs(s: Seq<Cell>) -> nat
    decreases s.len(),
{
    if s.len() > 0 && s[0] is Reference {
        1 + leading_refs(s.drop_first())
    } else {
        0
    }
}

/// The row moved one column to the left: its last cell that is not a
/// reference goes, with the references after it, and as many blank cells
/// come in at the start.
pub open spec fn shift_left(s: Seq<Cell>, blank: Cell) -> Seq<Cell> {
    let k = trailing_refs(s);
    if k < s.len() {
        blanks(blank, k + 1) + s.take(s.len() - k - 1)
    } else {
        blanks(blank, s.len())
    }
}

/// The row moved one column to the right: its first cell goes, with the
/// references after it, and as many blank cells come in at the end; a row
/// without cells gets one blank cell.
pub open spec fn shift_right(s: Seq<Cell>, blank: Cell) -> Seq<Cell> {
    if s.len() == 0 {
        blanks(blank, 1)
    } else {
        let t = s.drop_first();
        let k = leading_refs(t);
        t.skip(k as int) + blanks(blank, k + 1)
    }
}

/// The row moved `n` columns to the left.
pub open spec fn shifted_left(s: Seq<Cell>, blank: Cell, n: nat) -> Seq<Cell>
    decreases n,
{
    if n == 0 {
        s
    } else {
        shift_left(shifted_left(s, blank, (n - 1) as nat), blank)
    }
}

/// The row moved `n` columns to the right.
pub open spec fn shifted_right(s: Seq<Cell>, blank: Cell, n: nat) -> Seq<Cell>
    decreases n,
{
    if n == 0 {
        s
    } else {
        shift_right(shifted_right(s, blank, (n - 1) as nat), blank)
    }
}

/// The row with the run of references that starts at column `x` made blank.
pub open spec fn clear_refs(s: Seq<Cell>, x: int, blank: Cell) -> Seq<Cell> {
    let k = leading_refs(s.skip(x));
    s.take(x) + blanks(blank, k) + s.skip(x + k)
}

/// Where deleting `n` characters from column `end` stops: each one moves
/// past the width of its cell, and reaching the end of the row stops there.
pub open spec fn delete_end(s: Seq<Cell>, cols: int, end: int, n: nat) -> int
    decreases n,
{
    if n == 0 {
        end
    } else {
        let e = end + spec_cell_width(s[end]) as int;
        if e >= cols {
            cols
        } else {
            delete_end(s, cols, e, (n - 1) as nat)
        }
    }
}

/// Deleting `n` characters from column `end` only passes cells that have a
/// width, and the columns it counts fit in 32 bits.
pub open spec fn delete_ok(s: Seq<Cell>, cols: int, end: int, n: nat) -> bool
    decreases n,
{
    n == 0 || {
        &&& 0 <= end < s.len()
        &&& !(s[end] is Reference)
        &&& end + spec_cell_width(s[end]) <= u32::MAX
        &&& (end + spec_cell_width(s[end]) >= cols || delete_ok(s, cols, end + spec_cell_width(s[end]), (n - 1) as nat))
    }
}

/// The row with the cells from `x` to `end` deleted and as many blank cells
/// added at the end.
pub open spec fn deleted(s: Seq<Cell>, x: int, end: int, blank: Cell) -> Seq<Cell> {
    s.take(x) + s.skip(end) + blanks(blank, (end - x) as nat)
}

/// The row with `n` blank cells inserted at `x`, cut to `cols` cells.
pub open spec fn spliced(s: Seq<Cell>, x: int, n: nat, cols: nat, blank: Cell) -> Seq<Cell> {
    (s.take(x) + blanks(blank, n) + s.skip(x)).take(cols as int)
}

/// The column where the last cell that is not a reference stands.
pub open spec fn last_start(s: Seq<Cell>) -> int {
    s.len() - 1 - trailing_refs(s)
}

/// The row after an insertion: when the wide cell at its end lost part of
/// its references, that cell and its references are made blank.
pub open spec fn fix_tail(s: Seq<Cell>, blank: Cell) -> Seq<Cell> {
    let start = last_start(s);
    if trailing_refs(s) + 1 != spec_cell_width(s[start]) {
        s.take(start) + blanks(blank, (s.len() - start) as nat)
    } else {
        s
    }
}

pub proof fn lemma_trailing_refs(s: Seq<Cell>)
    ensures
        trailing_refs(s) <= s.len(),
        forall|i: int| s.len() - trailing_refs(s) <= i < s.len() ==> (#[trigger] s[i]) is Reference,
        trailing_refs(s) < s.len() ==> !(s[s.len() - 1 - trailing_refs(s)] is Reference),
    decreases s.len(),
{
    if s.len() > 0 && s.last() is Reference {
        lemma_trailing_refs(s.drop_last());
        assert forall|i: int| s.len() - trailing_refs(s) <= i < s.len() implies (#[trigger] s[i]) is Reference by {
            if i < s.len() - 1 {
                assert(s[i] == s.drop_last()[i]);
            }
        }
        if trailing_refs(s) < s.len() {
            assert(s[s.len() - 1 - trailing_refs(s)] == s.drop_last()[s.drop_last().len() - 1 - trailing_refs(s.drop_last())]);
        }
    }
}

pub proof fn lemma_leading_refs(s: Seq<Cell>)
    ensures
        leading_refs(s) <= s.len(),
        forall|i: int| 0 <= i < leading_refs(s) ==> (#[trigger] s[i]) is Reference,
        leading_refs(s) < s.len() ==> !(s[leading_refs(s) as int] is Reference),
    decreases s.len(),
{
    if s.len() > 0 && s[0] is Reference {
        lemma_leading_refs(s.drop_first());
        assert forall|i: int| 0 <= i < leading_refs(s) implies (#[trigger] s[i]) is Reference by {
            if i > 0 {
                assert(s[i] == s.drop_first()[i - 1]);
            }
        }
        if leading_refs(s) < s.len() {
            assert(s[leading_refs(s) as int] == s.drop_first()[leading_refs(s.drop_first()) as int]);
        }
    }
}

pub proof fn lemma_shift_len(s: Seq<Cell>, blank: Cell, n: nat)
    requires
        s.len() > 0,
    ensures
        shifted_left(s, blank, n).len() == s.len(),
        shifted_right(s, blank, n).len() == s.len(),
    decreases n,
{
    if n > 0 {
        lemma_shift_len(s, blank, (n - 1) as nat);
        lemma_trailing_refs(shifted_left(s, blank, (n - 1) as nat));
        lemma_leading_refs(shifted_right(s, blank, (n - 1) as nat).drop_first());
    }
}

} // verus!
