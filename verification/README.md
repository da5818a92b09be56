# cancer

The screen of a terminal emulator, with its behaviour stated in Verus
contracts and proved.

- `grid`: the rows on screen and the scrollback, with scrolling, shifting,
  insertion and deletion of cells, and resizing, which rewraps wrapped rows
  to the new width (`reflow` states what rewrapping gives, `edit` what the
  edits of one row give).
- `cell`, `row`, `style`, `free`: the cells, rows and styles the grid holds.
- `sixel`, `image`: a decoder that paints sixel graphics into images the size
  of a cell.
- `command`: the commands of the overlay.
- `laws`: properties that hold across operations.

`app/` holds what works in floating point (colour conversions with picto)
and the command types with their word-boundary closures.
