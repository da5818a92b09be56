use std::rc::Rc;

use cancer::cell::Cell;
use cancer::grid::Grid;
use cancer::row::Row;
use cancer::style::Style;

fn style() -> Rc<Style> {
    Rc::new(Style::default())
}

fn text(row: &Row) -> String {
    let mut out = String::new();
    for x in 0..row.len() {
        match row.get(x) {
            Cell::Empty { .. } => out.push('_'),
            Cell::Occupied { value, .. } => out.push_str(value),
            Cell::Reference(_) => out.push('<'),
            Cell::Image { .. } => out.push('#'),
        }
    }
    if row.is_wrapped() {
        out.push('+');
    }
    out
}

fn view(g: &Grid) -> Vec<String> {
    g.view().iter().map(text).collect()
}

fn back(g: &Grid) -> Vec<String> {
    g.back().iter().map(text).collect()
}

fn put(g: &mut Grid, y: u32, s: &str) {
    let mut x = 0;
    for ch in s.chars() {
        match ch {
            '_' => g.set_cell(x, y, Cell::empty(style())),
            '<' => g.set_cell(x, y, Cell::reference(1)),
            c => g.set_cell(x, y, Cell::occupied(c.to_string(), style())),
        }
        x += 1;
    }
}

#[test]
fn new_grid_is_blank() {
    let g = Grid::new(4, 3, 10);
    assert_eq!(view(&g), vec!["____", "____", "____"]);
    assert!(back(&g).is_empty());
    assert!(g.cell(3, 2).is_default());
}

#[test]
fn new_grid_without_columns() {
    let g = Grid::new(0, 2, 10);
    assert_eq!(view(&g), vec!["", ""]);
}

#[test]
fn resize_narrower_wraps_long_rows() {
    let mut g = Grid::new(4, 3, 10);
    put(&mut g, 0, "abcd");
    put(&mut g, 1, "ef");
    let offset = g.resize(2, 3);
    assert_eq!(offset, 1);
    assert_eq!(view(&g), vec!["ab", "cd+", "ef"]);
    assert!(back(&g).is_empty());
}

#[test]
fn resize_wider_joins_wrapped_rows() {
    let mut g = Grid::new(4, 3, 10);
    put(&mut g, 0, "abcd");
    put(&mut g, 1, "ef");
    g.resize(2, 3);
    let offset = g.resize(4, 3);
    assert_eq!(offset, -1);
    assert_eq!(view(&g), vec!["abcd", "ef__", "____"]);
}

#[test]
fn resize_moves_overflow_to_scrollback() {
    let mut g = Grid::new(4, 2, 10);
    put(&mut g, 0, "abcd");
    put(&mut g, 1, "ef");
    let offset = g.resize(2, 2);
    assert_eq!(offset, 1);
    assert_eq!(view(&g), vec!["cd+", "ef"]);
    assert_eq!(back(&g), vec!["ab"]);
}

#[test]
fn resize_drops_continuation_without_its_start() {
    let mut g = Grid::new(4, 2, 10);
    put(&mut g, 0, "abcd");
    put(&mut g, 1, "ef");
    g.resize(2, 2);
    let offset = g.resize(4, 2);
    assert_eq!(offset, 1);
    assert_eq!(view(&g), vec!["ab__", "ef__"]);
    assert!(back(&g).is_empty());
}

#[test]
fn resize_taller_takes_rows_back() {
    let mut g = Grid::new(2, 1, 10);
    put(&mut g, 0, "ab");
    g.up(1, None);
    put(&mut g, 0, "cd");
    assert_eq!(back(&g), vec!["ab"]);
    let offset = g.resize(2, 3);
    assert_eq!(offset, 1);
    assert_eq!(view(&g), vec!["ab", "cd", "__"]);
    assert!(back(&g).is_empty());
}

#[test]
fn resize_shorter_drops_blank_rows_first() {
    let mut g = Grid::new(2, 3, 10);
    put(&mut g, 0, "ab");
    let offset = g.resize(2, 1);
    assert_eq!(offset, 0);
    assert_eq!(view(&g), vec!["ab"]);
    assert!(back(&g).is_empty());
}

#[test]
fn resize_trims_trailing_empty_cells() {
    let mut g = Grid::new(4, 1, 10);
    put(&mut g, 0, "ab");
    let offset = g.resize(3, 1);
    assert_eq!(offset, 0);
    assert_eq!(view(&g), vec!["ab_"]);
}

#[test]
fn left_and_right_shift_rows() {
    let mut g = Grid::new(4, 1, 10);
    put(&mut g, 0, "a");
    g.set_cell(1, 0, Cell::occupied("漢".to_string(), style()));
    g.set_cell(2, 0, Cell::reference(1));
    g.set_cell(3, 0, Cell::occupied("d".to_string(), style()));
    assert_eq!(view(&g), vec!["a漢<d"]);
    g.left(1);
    assert_eq!(view(&g), vec!["_a漢<"]);
    g.left(1);
    assert_eq!(view(&g), vec!["___a"]);
}

#[test]
fn right_drops_references_of_a_dropped_cell() {
    let mut g = Grid::new(4, 1, 10);
    g.set_cell(0, 0, Cell::occupied("a".to_string(), style()));
    g.set_cell(1, 0, Cell::occupied("漢".to_string(), style()));
    g.set_cell(2, 0, Cell::reference(1));
    g.set_cell(3, 0, Cell::occupied("d".to_string(), style()));
    g.right(1);
    assert_eq!(view(&g), vec!["漢<d_"]);
    g.right(1);
    assert_eq!(view(&g), vec!["d___"]);
}

#[test]
fn up_without_region_feeds_scrollback() {
    let mut g = Grid::new(2, 2, 3);
    put(&mut g, 0, "ab");
    put(&mut g, 1, "cd");
    g.up(1, None);
    assert_eq!(view(&g), vec!["cd", "__"]);
    assert_eq!(back(&g), vec!["ab"]);
    g.up(0, None);
    assert_eq!(view(&g), vec!["cd", "__"]);
    assert_eq!(back(&g), vec!["ab"]);
    g.up(5, None);
    assert_eq!(view(&g), vec!["__", "__"]);
    assert_eq!(back(&g), vec!["ab", "cd", "__"]);
}

#[test]
fn up_without_region_scrolls_by_n() {
    let mut g = Grid::new(1, 3, 10);
    put(&mut g, 0, "a");
    put(&mut g, 1, "b");
    put(&mut g, 2, "c");
    g.up(2, None);
    assert_eq!(view(&g), vec!["c", "_", "_"]);
    assert_eq!(back(&g), vec!["a", "b"]);
}

#[test]
fn up_within_region() {
    let mut g = Grid::new(1, 4, 10);
    put(&mut g, 0, "a");
    put(&mut g, 1, "b");
    put(&mut g, 2, "c");
    put(&mut g, 3, "d");
    g.up(1, Some((1, 2)));
    assert_eq!(view(&g), vec!["a", "c", "_", "d"]);
    g.up(9, Some((0, 3)));
    assert_eq!(view(&g), vec!["_", "_", "_", "_"]);
    assert!(back(&g).is_empty());
}

#[test]
fn down_within_region() {
    let mut g = Grid::new(1, 4, 10);
    put(&mut g, 0, "a");
    put(&mut g, 1, "b");
    put(&mut g, 2, "c");
    put(&mut g, 3, "d");
    g.down(1, Some((0, 2)));
    assert_eq!(view(&g), vec!["_", "a", "b", "d"]);
    g.down(2, None);
    assert_eq!(view(&g), vec!["_", "_", "_", "a"]);
    assert!(back(&g).is_empty());
}

#[test]
fn down_without_region_scrolls_by_n() {
    let mut g = Grid::new(1, 3, 10);
    put(&mut g, 0, "a");
    put(&mut g, 1, "b");
    put(&mut g, 2, "c");
    g.up(1, None);
    g.down(1, None);
    assert_eq!(view(&g), vec!["_", "b", "c"]);
    assert_eq!(back(&g), vec!["a"]);
    g.down(0, None);
    assert_eq!(view(&g), vec!["_", "b", "c"]);
    g.down(7, None);
    assert_eq!(view(&g), vec!["_", "_", "_"]);
    assert_eq!(back(&g), vec!["a"]);
}

#[test]
fn delete_shifts_cells_left() {
    let mut g = Grid::new(4, 1, 10);
    put(&mut g, 0, "abcd");
    g.delete(0, 0, 1);
    assert_eq!(view(&g), vec!["bcd_"]);
}

#[test]
fn delete_counts_wide_cells() {
    let mut g = Grid::new(4, 1, 10);
    g.set_cell(0, 0, Cell::occupied("a".to_string(), style()));
    g.set_cell(1, 0, Cell::occupied("漢".to_string(), style()));
    g.set_cell(2, 0, Cell::reference(1));
    g.set_cell(3, 0, Cell::occupied("d".to_string(), style()));
    g.delete(1, 0, 1);
    assert_eq!(view(&g), vec!["ad__"]);
    g.set_cell(1, 0, Cell::occupied("漢".to_string(), style()));
    g.set_cell(2, 0, Cell::reference(1));
    g.set_cell(3, 0, Cell::occupied("d".to_string(), style()));
    g.delete(1, 0, 2);
    assert_eq!(view(&g), vec!["a___"]);
}

#[test]
fn delete_reaches_the_last_column() {
    let mut g = Grid::new(4, 1, 10);
    put(&mut g, 0, "abcd");
    g.delete(0, 0, 4);
    assert_eq!(view(&g), vec!["____"]);
    put(&mut g, 0, "abcd");
    g.delete(3, 0, 1);
    assert_eq!(view(&g), vec!["abc_"]);
    put(&mut g, 0, "abcd");
    g.delete(2, 0, 9);
    assert_eq!(view(&g), vec!["ab__"]);
}

#[test]
fn delete_one_cell_at_the_end_of_a_short_row() {
    let mut g = Grid::new(2, 1, 10);
    put(&mut g, 0, "ab");
    g.delete(1, 0, 1);
    assert_eq!(view(&g), vec!["a_"]);
}

#[test]
fn insert_pushes_cells_right() {
    let mut g = Grid::new(4, 1, 10);
    put(&mut g, 0, "abcd");
    g.insert(1, 0, 1);
    assert_eq!(view(&g), vec!["a_bc"]);
}

#[test]
fn insert_clears_a_cut_wide_cell() {
    let mut g = Grid::new(4, 1, 10);
    put(&mut g, 0, "ab");
    g.set_cell(2, 0, Cell::occupied("漢".to_string(), style()));
    g.set_cell(3, 0, Cell::reference(1));
    g.insert(0, 0, 1);
    assert_eq!(view(&g), vec!["_ab_"]);
}

#[test]
fn clean_references_clears_the_run() {
    let mut g = Grid::new(4, 1, 10);
    put(&mut g, 0, "a<<b");
    g.clean_references(1, 0);
    assert_eq!(view(&g), vec!["a__b"]);
    put(&mut g, 0, "a<<b");
    g.clean_references(0, 0);
    assert_eq!(view(&g), vec!["a<<b"]);
}

#[test]
fn wrapped_marks_a_row() {
    let mut g = Grid::new(2, 2, 10);
    g.wrapped(1, true);
    assert!(g.row(1).is_wrapped());
    assert!(!g.row(0).is_wrapped());
    g.wrapped(1, false);
    assert!(!g.row(1).is_wrapped());
}

#[test]
fn clean_history_keeps_the_limit() {
    let mut g = Grid::new(1, 1, 2);
    for c in ["a", "b", "c", "d"] {
        put(&mut g, 0, c);
        g.up(1, None);
    }
    assert_eq!(back(&g), vec!["c", "d"]);
    g.clean_history();
    assert_eq!(back(&g), vec!["c", "d"]);
}

#[test]
fn widening_a_plain_grid_pads_its_rows() {
    let mut g = Grid::new(2, 2, 10);
    put(&mut g, 0, "ab");
    put(&mut g, 1, "c");
    g.up(1, None);
    put(&mut g, 1, "de");
    assert_eq!(back(&g), vec!["ab"]);
    let offset = g.resize(4, 2);
    assert_eq!(offset, 0);
    assert_eq!(view(&g), vec!["c___", "de__"]);
    assert_eq!(back(&g), vec!["ab__"]);
}

#[test]
fn plain_rows_shift_by_whole_cells() {
    let mut g = Grid::new(4, 1, 10);
    put(&mut g, 0, "abcd");
    g.left(2);
    assert_eq!(view(&g), vec!["__ab"]);
    put(&mut g, 0, "abcd");
    g.right(2);
    assert_eq!(view(&g), vec!["cd__"]);
    put(&mut g, 0, "abcd");
    g.left(0);
    g.right(0);
    assert_eq!(view(&g), vec!["abcd"]);
}

#[test]
fn resize_to_no_columns() {
    let mut g = Grid::new(3, 2, 10);
    let offset = g.resize(0, 2);
    assert_eq!(offset, 0);
    assert_eq!(view(&g), vec!["", ""]);
    let offset = g.resize(2, 3);
    assert_eq!(offset, 0);
    assert_eq!(view(&g), vec!["__", "__", "__"]);
}

#[test]
fn edits_at_the_edges() {
    let mut g = Grid::new(3, 1, 10);
    put(&mut g, 0, "abc");
    g.delete(1, 0, 0);
    assert_eq!(view(&g), vec!["abc"]);
    g.delete(3, 0, 5);
    assert_eq!(view(&g), vec!["abc"]);
    g.insert(3, 0, 2);
    assert_eq!(view(&g), vec!["abc"]);
    g.insert(0, 0, 9);
    assert_eq!(view(&g), vec!["___"]);
}

#[test]
fn delete_checked_refuses_to_start_on_a_reference() {
    let mut g = Grid::new(4, 1, 10);
    g.set_cell(0, 0, Cell::occupied("a".to_string(), style()));
    g.set_cell(1, 0, Cell::occupied("漢".to_string(), style()));
    g.set_cell(2, 0, Cell::reference(1));
    g.set_cell(3, 0, Cell::occupied("d".to_string(), style()));
    assert!(!g.delete_checked(2, 0, 1));
    assert_eq!(view(&g), vec!["a漢<d"]);
    assert!(g.delete_checked(1, 0, 1));
    assert_eq!(view(&g), vec!["ad__"]);
    assert!(g.delete_checked(4, 0, 3));
    assert_eq!(view(&g), vec!["ad__"]);
}

#[test]
fn right_without_columns_leaves_one_blank_cell() {
    let mut g = Grid::new(0, 2, 10);
    g.right(0);
    assert_eq!(view(&g), vec!["", ""]);
    g.right(1);
    assert_eq!(view(&g), vec!["_", "_"]);
}
