use vstd::prelude::*;

verus! {

/// A colour as its four 8-bit channels.
#[derive(Clone, Copy, Debug, PartialEq, Eq, Structural)]
pub struct Pixel {
    pub red: u8,
    pub green: u8,
    pub blue: u8,
    pub alpha: u8,
}

/// The presentation of a cell: optional colours and a set of attribute flags.
#[derive(Clone, Copy, Debug, PartialEq)]
pub struct Style {
    pub foreground: Option<Pixel>,
    pub background: Option<Pixel>,
    pub attributes: u16,
}

impl Style {
    /// The style with no colours and no attributes.
    pub open spec fn plain() -> Style {
        Style { foreground: None, background: None, attributes: 0 }
    }
}

impl Default for Style {
    fn default() -> (s: Style)
        ensures
            s == Style::plain(),
    {
        Style { foreground: None, background: None, attributes: 0 }
    }
}


} // verus!
