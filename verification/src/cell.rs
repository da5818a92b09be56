use std::rc::Rc;

use crate::image::Image;
use crate::style::Style;
use vstd::prelude::*;

verus! {

/// Names what `UnicodeWidthStr::width` of unicode-width returns for a string:
/// the number of terminal columns the text takes up.
pub uninterp spec fn str_width(text: Seq<char>) -> usize;

/// Calls `UnicodeWidthStr::width` of unicode-width; its result is taken to be
/// `str_width` of the text, which depends on the text alone.
#[verifier::external_body]
fn display_width(text: &str) -> (w: usize)
    ensures
        w == str_width(text@),
{
    unicode_width::UnicodeWidthStr::width(text)
}

/// One cell of the terminal grid.
#[derive(Clone, Debug, PartialEq)]
pub enum Cell {
    /// Nothing is drawn but the background of the style.
    Empty { style: Rc<Style> },
    /// A piece of an image covers the cell.
    Image { style: Rc<Style>, buffer: Box<Image> },
    /// Text is drawn in the cell.
    Occupied { style: Rc<Style>, value: String },
    /// The cell is covered by a wide cell `offset` columns to its left.
    Reference(u8),
}

/// The number of columns a cell other than a reference covers.
pub open spec fn spec_cell_width(c: Cell) -> u32 {
    match c {
        Cell::Occupied { value, .. } => str_width(value@) as u32,
        _ => 1,
    }
}

impl Default for Cell {
    fn default() -> (c: Cell)
        ensures
            c matches Cell::Empty { style } && *style == Style::plain(),
    {
        Cell::Empty { style: Rc::new(Style { foreground: None, background: None, attributes: 0 }) }
    }
}

/// A cell seen at a given column and row of the grid.
#[derive(Copy, Clone, Debug)]
pub struct Position<'a> {
    x: u32,
    y: u32,
    inner: &'a Cell,
}

impl Cell {
    /// Creates an empty cell.
    pub fn empty(style: Rc<Style>) -> (c: Cell)
        ensures
            c == (Cell::Empty { style }),
    {
        Cell::Empty { style: style }
    }

    /// Creates an occupied cell.
    pub fn occupied(value: String, style: Rc<Style>) -> (c: Cell)
        ensures
            c == (Cell::Occupied { style, value }),
    {
        Cell::Occupied { value: value, style: style }
    }

    /// Creates a referencing cell.
    pub fn reference(offset: u8) -> (c: Cell)
        ensures
            c == Cell::Reference(offset),
    {
        Cell::Reference(offset)
    }

    /// Check if the cell is in its default state.
    pub fn is_default(&self) -> (b: bool)
        ensures
            b == (*self matches Cell::Empty { style } && *style == Style::plain()),
    {
        if let Cell::Empty { style } = self {
            style.foreground.is_none() && style.background.is_none() && style.attributes == 0
        } else {
            false
        }
    }

    /// Check if the cell is empty.
    pub fn is_empty(&self) -> (b: bool)
        ensures
            b == (*self is Empty),
    {
        if let Cell::Empty { .. } = self {
            true
        } else {
            false
        }
    }

    /// Check if the cell is occupied.
    pub fn is_occupied(&self) -> (b: bool)
        ensures
            b == (*self is Occupied),
    {
        if let Cell::Occupied { .. } = self {
            true
        } else {
            false
        }
    }

    /// Check if the cell is a reference.
    pub fn is_reference(&self) -> (b: bool)
        ensures
            b == (*self is Reference),
    {
        if let Cell::Reference(..) = self {
            true
        } else {
            false
        }
    }

    /// Check if the cell is an image.
    pub fn is_image(&self) -> (b: bool)
        ensures
            b == (*self is Image),
    {
        if let Cell::Image { .. } = self {
            true
        } else {
            false
        }
    }

    /// Check if the cell is wide.
    pub fn is_wide(&self) -> (b: bool)
        requires
            !(*self is Reference),
        ensures
            b == (*self matches Cell::Occupied { value, .. } && str_width(value@) > 1),
    {
        match self {
            Cell::Empty { .. } | Cell::Image { .. } => false,
            Cell::Occupied { value, .. } => display_width(value.as_str()) > 1,
            Cell::Reference(..) => false,
        }
    }

    /// Make the cell empty.
    pub fn make_empty(&mut self, style: Rc<Style>)
        ensures
            *final(self) == (Cell::Empty { style }),
    {
        *self = Cell::Empty { style: style };
    }

    /// Make the cell occupied.
    pub fn make_occupied(&mut self, value: String, style: Rc<Style>)
        ensures
            *final(self) == (Cell::Occupied { style, value }),
    {
        *self = Cell::Occupied { value: value, style: style };
    }

    /// Make the cell into a reference.
    pub fn make_reference(&mut self, offset: u8)
        ensures
            *final(self) == Cell::Reference(offset),
    {
        *self = Cell::Reference(offset);
    }

    /// Make the cell into an image; a cell that already shows the same
    /// pixels is left as it is.
    pub fn make_image(&mut self, buffer: Image, style: Rc<Style>)
        requires
            buffer.wf(),
            *old(self) matches Cell::Image { buffer: b, .. } ==> b.wf(),
        ensures
            (*old(self) matches Cell::Image { buffer: b, .. } && b.spec_width() == buffer.spec_width()
                && b.spec_height() == buffer.spec_height() && b.pixels() == buffer.pixels())
                ==> *final(self) == *old(self),
            !(*old(self) matches Cell::Image { buffer: b, .. } && b.spec_width() == buffer.spec_width()
                && b.spec_height() == buffer.spec_height() && b.pixels() == buffer.pixels())
                ==> *final(self) == (Cell::Image { style, buffer: Box::new(buffer) }),
    {
        if let Cell::Image { buffer: current, .. } = self {
            if current.same_as(&buffer) {
                return;
            }
        }
        *self = Cell::Image { buffer: Box::new(buffer), style: style };
    }

    /// Change the style in place.
    pub fn set_style(&mut self, value: Rc<Style>)
        ensures
            *final(self) == match *old(self) {
                Cell::Empty { .. } => Cell::Empty { style: value },
                Cell::Image { buffer, .. } => Cell::Image { style: value, buffer },
                Cell::Occupied { value: text, .. } => Cell::Occupied { style: value, value: text },
                Cell::Reference(offset) => Cell::Reference(offset),
            },
    {
        match self {
            Cell::Empty { style, .. } => {
                *style = value;
            },
            Cell::Image { style, .. } => {
                *style = value;
            },
            Cell::Occupied { style, .. } => {
                *style = value;
            },
            Cell::Reference(..) => {},
        }
    }

    /// Get the cell style.
    pub fn style(&self) -> (s: &Rc<Style>)
        requires
            !(*self is Reference),
        ensures
            match *self {
                Cell::Empty { style } => *s == style,
                Cell::Image { style, .. } => *s == style,
                Cell::Occupied { style, .. } => *s == style,
                Cell::Reference(_) => false,
            },
    {
        match self {
            Cell::Empty { style, .. } => style,
            Cell::Image { style, .. } => style,
            Cell::Occupied { style, .. } => style,
            Cell::Reference(..) => unreached(),
        }
    }

    /// Get the value if any: a space for an empty cell, the text of an
    /// occupied one, and nothing for the others.
    pub fn value(&self) -> (v: &str)
        ensures
            match *self {
                Cell::Empty { .. } => v@ == seq![' '],
                Cell::Occupied { value, .. } => v@ == value@,
                _ => v@ == Seq::<char>::empty(),
            },
    {
        proof {
            reveal_strlit(" ");
            reveal_strlit("");
        }
        match self {
            Cell::Empty { .. } => " ",
            Cell::Occupied { value, .. } => value.as_str(),
            Cell::Reference(..) | Cell::Image { .. } => "",
        }
    }

    /// Get the cell width.
    pub fn width(&self) -> (w: u32)
        requires
            !(*self is Reference),
        ensures
            w == spec_cell_width(*self),
    {
        match self {
            Cell::Empty { .. } | Cell::Image { .. } => 1,
            Cell::Occupied { value, .. } => display_width(value.as_str()) as u32,
            Cell::Reference(..) => 1,
        }
    }

    /// Get the reference offset.
    pub fn offset(&self) -> (o: u32)
        requires
            *self is Reference,
        ensures
            *self matches Cell::Reference(offset) && o == offset,
    {
        match self {
            Cell::Reference(offset) => *offset as u32,
            _ => 0,
        }
    }

    /// Get the image buffer.
    pub fn image(&self) -> (img: &Image)
        requires
            *self is Image,
        ensures
            *self matches Cell::Image { buffer, .. } && *img == *buffer,
    {
        match self {
            Cell::Image { buffer, .. } => buffer,
            _ => unreached(),
        }
    }
}

impl<'a> Position<'a> {
    /// The cell `inner`, seen at column `x` and row `y`.
    pub fn new(x: u32, y: u32, inner: &'a Cell) -> (p: Position<'a>)
        ensures
            p.spec_x() == x,
            p.spec_y() == y,
            *p.spec_cell() == *inner,
    {
        Position { x: x, y: y, inner: inner }
    }

    /// The column.
    pub closed spec fn spec_x(&self) -> u32 {
        self.x
    }

    /// The row.
    pub closed spec fn spec_y(&self) -> u32 {
        self.y
    }

    /// The cell.
    pub closed spec fn spec_cell(&self) -> &'a Cell {
        self.inner
    }

    /// Get the X.
    pub fn x(&self) -> (x: u32)
        ensures
            x == self.spec_x(),
    {
        self.x
    }

    /// Get the Y.
    pub fn y(&self) -> (y: u32)
        ensures
            y == self.spec_y(),
    {
        self.y
    }
}

impl<'a> std::ops::Deref for Position<'a> {
    type Target = Cell;

    fn deref(&self) -> (c: &Cell)
        ensures
            *c == *self.spec_cell(),
    {
        self.inner
    }
}

} // verus!
