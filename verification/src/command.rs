use vstd::prelude::*;

verus! {

/// The selection buffers text can be copied to and pasted from.
#[derive(Clone, Copy, Debug, PartialEq, Eq)]
pub enum Clipboard {
    Primary,
    Secondary,
    Clipboard,
}

/// What the overlay is asked to do; `B` tells where words begin and end
/// (a predicate on text, which the overlay calls).
pub enum Command<B> {
    Nothing,
    Exit,
    Move(Move<B>),
    Scroll(Scroll),
    Select(Select),
    Copy(Clipboard),
    Paste(Clipboard),
    Hint(Hint),
}

pub enum Scroll {
    Up(u32),
    Down(u32),
    PageUp(u32),
    PageDown(u32),
    Begin,
    End,
    To(u32),
}

pub enum Move<B> {
    Left(u32),
    Right(u32),
    Up(u32),
    Down(u32),
    Start,
    End,
    To(u32, u32),
    Next(u32, Next<B>),
    Previous(u32, Previous<B>),
}

pub enum Next<B> {
    Word(Word<B>),
    Match(Match),
}

pub enum Previous<B> {
    Word(Word<B>),
    Match(Match),
}

/// A move to the start or the end of a word, `B` telling where words end.
pub enum Word<B> {
    Start(B),
    End(B),
}

pub enum Match {
    After(String),
    Before(String),
}

pub enum Select {
    Normal,
    Block,
    Line,
}

pub enum Hint {
    Start(u32),
    Pick(char),
    Open,
    Copy(Clipboard),
}

} // verus!
