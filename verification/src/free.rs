use std::rc::Rc;

use crate::cell::Cell;
use crate::row::{blank_line, lines, Line, Row};
use crate::style::Style;
use vstd::prelude::*;

verus! {

/// The most rows kept for reuse.
pub const POOL_LIMIT: usize = 1024;

/// A source of blank cells and rows, which keeps dropped rows to reuse their storage.
#[derive(Debug)]
pub struct Free {
    style: Rc<Style>,
    pool: Vec<Row>,
}

impl Free {
    /// The cell this source hands out: empty, in the default style.
    pub closed spec fn blank(&self) -> Cell {
        Cell::Empty { style: self.style }
    }

    /// The rows kept for reuse, oldest first.
    pub closed spec fn pool(&self) -> Seq<Line> {
        lines(self.pool@)
    }

    pub fn new() -> (f: Free)
        ensures
            f.blank() matches Cell::Empty { style } && *style == Style::plain(),
            f.pool().len() == 0,
    {
        Free { style: Rc::new(Style { foreground: None, background: None, attributes: 0 }), pool: Vec::new() }
    }

    /// The default style.
    pub fn style(&self) -> (s: Rc<Style>)
        ensures
            self.blank() == (Cell::Empty { style: s }),
    {
        self.style.clone()
    }

    /// A blank cell.
    pub fn cell(&self) -> (c: Cell)
        ensures
            c == self.blank(),
            c is Empty,
    {
        Cell::Empty { style: self.style.clone() }
    }

    /// Gives a row back for its storage to be reused.
    pub fn push(&mut self, row: Row)
        ensures
            final(self).blank() == old(self).blank(),
            final(self).pool() == if old(self).pool().len() < POOL_LIMIT {
                old(self).pool().push(row@)
            } else {
                old(self).pool()
            },
    {
        if self.pool.len() < POOL_LIMIT {
            self.pool.push(row);
            proof {
                assert(lines(self.pool@) =~= lines(old(self).pool@).push(row@));
            }
        }
    }

    /// A row of `cols` blank cells that continues nothing.
    pub fn pop(&mut self, cols: usize) -> (row: Row)
        ensures
            final(self).blank() == old(self).blank(),
            row@ == blank_line(old(self).blank(), cols as nat),
            final(self).pool() == if old(self).pool().len() > 0 {
                old(self).pool().drop_last()
            } else {
                old(self).pool()
            },
    {
        let blank = self.cell();
        let ghost before = self.pool@;
        match self.pool.pop() {
            Some(mut row) => {
                proof {
                    assert(lines(self.pool@) =~= lines(before).drop_last());
                }
                row.inner.clear();
                row.wrapped = false;
                let mut i: usize = 0;
                while i < cols
                    invariant
                        i <= cols,
                        blank is Empty,
                        row.inner@ == crate::row::blanks(blank, i as nat),
                        !row.wrapped,
                    decreases cols - i,
                {
                    row.inner.push_back(crate::row::copy_empty(&blank));
                    i = i + 1;
                }
                row
            },
            None => Row::blank(cols, &blank),
        }
    }
}

} // verus!
