//! The screen of a terminal emulator: a grid of cells with its scrollback,
//! rewrapped when the terminal is resized, the cells themselves, a decoder
//! that paints sixel graphics into cell-sized images, and the commands of the
//! overlay.
pub mod cell;
pub mod command;
pub mod edit;
pub mod free;
pub mod grid;
pub mod image;
pub mod laws;
pub mod reflow;
mod rewrap;
pub mod row;
pub mod rowedit;
pub mod sixel;
pub mod style;
pub mod util;
