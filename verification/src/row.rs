use std::collections::VecDeque;

use crate::cell::Cell;
use vstd::prelude::*;

verus! {

/// What a row holds: its cells, and whether it continues the row above it.
pub struct Line {
    pub cells: Seq<Cell>,
    pub wrapped: bool,
}

/// `n` copies of the cell `c`.
pub open spec fn blanks(c: Cell, n: nat) -> Seq<Cell> {
    Seq::new(n, |_i: int| c)
}

/// A line of `n` copies of `c` that continues nothing.
pub open spec fn blank_line(c: Cell, n: nat) -> Line {
    Line { cells: blanks(c, n), wrapped: false }
}

/// `n` lines of `cols` copies of `c` each.
pub open spec fn blank_lines(c: Cell, cols: nat, n: nat) -> Seq<Line> {
    Seq::new(n, |_i: int| blank_line(c, cols))
}

/// A row of the terminal grid.
#[derive(Debug)]
pub struct Row {
    pub inner: VecDeque<Cell>,
    pub wrapped: bool,
}

impl View for Row {
    type V = Line;

    open spec fn view(&self) -> Line {
        Line { cells: self.inner@, wrapped: self.wrapped }
    }
}

/// The lines that a sequence of rows holds.
pub open spec fn lines(rows: Seq<Row>) -> Seq<Line> {
    rows.map_values(|r: Row| r@)
}

impl Row {
    /// Creates a row of `len` cells that continues nothing.
    pub fn blank(len: usize, cell: &Cell) -> (row: Row)
        requires
            cell is Empty,
        ensures
            row@ == blank_line(*cell, len as nat),
    {
        let mut inner: VecDeque<Cell> = VecDeque::new();
        let mut i: usize = 0;
        while i < len
            invariant
                i <= len,
                cell is Empty,
                inner@ == blanks(*cell, i as nat),
            decreases len - i,
        {
            inner.push_back(copy_empty(cell));
            i = i + 1;
        }
        Row { inner, wrapped: false }
    }

    /// Check if the row continues the one above it.
    pub fn is_wrapped(&self) -> (b: bool)
        ensures
            b == self@.wrapped,
    {
        self.wrapped
    }

    /// The number of cells in the row.
    pub fn len(&self) -> (n: usize)
        ensures
            n == self@.cells.len(),
    {
        self.inner.len()
    }

    /// The cell in column `x`.
    pub fn get(&self, x: usize) -> (c: &Cell)
        requires
            x < self@.cells.len(),
        ensures
            *c == self@.cells[x as int],
    {
        &self.inner[x]
    }
}

/// A fresh empty cell with the same style as `cell`.
pub fn copy_empty(cell: &Cell) -> (c: Cell)
    requires
        cell is Empty,
    ensures
        c == *cell,
{
    match cell {
        Cell::Empty { style } => Cell::Empty { style: style.clone() },
        _ => unreached(),
    }
}

} // verus!
