use cancer::sixel::{Color, Header, Item, Sixel, SixelMap};
use cancer::style::Pixel;

const CLEAR: Pixel = Pixel { red: 0, green: 0, blue: 0, alpha: 0 };
const RED: Pixel = Pixel { red: 255, green: 0, blue: 0, alpha: 255 };
const BG: Pixel = Pixel { red: 1, green: 2, blue: 3, alpha: 255 };

fn sixel(background: bool, aspect: u32, limit: (u32, u32)) -> Sixel {
    Sixel::new((5, 6), Header { aspect: (aspect, 1), background }, BG, (2, 3), limit)
}

#[test]
fn new_sixel_is_empty() {
    let s = sixel(false, 1, (0, 10));
    assert_eq!(s.origin(), (5, 6));
    assert_eq!(s.rows(), 0);
    assert!(s.into_inner().is_empty());
}

#[test]
fn draw_paints_set_bits() {
    let mut s = sixel(false, 1, (0, 10));
    s.define(1, RED);
    s.enable(1);
    s.draw(1, SixelMap(0b101));
    assert_eq!(s.rows(), 2);
    let grid = s.into_inner();
    assert_eq!(grid[0].len(), 1);
    assert_eq!(grid[1].len(), 1);
    assert_eq!(grid[0][0].get(0, 0), RED);
    assert_eq!(grid[0][0].get(0, 1), CLEAR);
    assert_eq!(grid[0][0].get(0, 2), RED);
    assert_eq!(grid[0][0].get(1, 0), CLEAR);
    for y in 0..3 {
        assert_eq!(grid[1][0].get(0, y), CLEAR);
    }
}

#[test]
fn draw_repeats_across_cells() {
    let mut s = sixel(false, 1, (0, 10));
    s.define(1, RED);
    s.enable(1);
    s.draw(1, SixelMap(0b1));
    s.draw(2, SixelMap(0b1));
    let grid = s.into_inner();
    assert_eq!(grid[0].len(), 2);
    assert_eq!(grid[0][0].get(0, 0), RED);
    assert_eq!(grid[0][0].get(1, 0), RED);
    assert_eq!(grid[0][1].get(0, 0), RED);
    assert_eq!(grid[0][1].get(1, 0), CLEAR);
}

#[test]
fn draw_stops_at_the_terminal_edge() {
    let mut s = sixel(false, 1, (8, 10));
    s.draw(10, SixelMap(0b1));
    let grid = s.into_inner();
    assert_eq!(grid[0].len(), 2);
}

#[test]
fn draw_stops_at_the_edge_and_keeps_the_cursor() {
    let mut s = sixel(false, 1, (8, 10));
    s.draw(10, SixelMap(0b1));
    s.draw(1, SixelMap(0b1));
    let grid = s.into_inner();
    assert_eq!(grid[0].len(), 2);
    assert_eq!(grid[0][1].get(1, 0), Pixel { red: 0, green: 0, blue: 0, alpha: 255 });
}

#[test]
fn empty_sixel_only_moves() {
    let mut s = sixel(false, 1, (0, 10));
    s.draw(5, SixelMap(0));
    assert_eq!(s.rows(), 0);
    s.draw(1, SixelMap(0b1));
    let grid = s.into_inner();
    assert_eq!(grid[0].len(), 3);
    assert_eq!(grid[0][2].get(1, 0), Pixel { red: 0, green: 0, blue: 0, alpha: 255 });
    assert_eq!(grid[0][0].get(0, 0), CLEAR);
}

#[test]
fn background_fills_unset_bits() {
    let mut s = sixel(true, 1, (0, 10));
    s.define(2, RED);
    s.enable(2);
    s.draw(1, SixelMap(0b10));
    let grid = s.into_inner();
    assert_eq!(grid[0][0].get(0, 0), BG);
    assert_eq!(grid[0][0].get(0, 1), RED);
    assert_eq!(grid[1][0].get(0, 2), BG);
    assert_eq!(grid[0][0].get(1, 0), CLEAR);
}

#[test]
fn aspect_stretches_bits() {
    let mut s = sixel(false, 2, (0, 10));
    s.define(1, RED);
    s.enable(1);
    s.draw(1, SixelMap(0b10));
    assert_eq!(s.rows(), 4);
    let grid = s.into_inner();
    assert_eq!(grid[0][0].get(0, 1), CLEAR);
    assert_eq!(grid[0][0].get(0, 2), RED);
    assert_eq!(grid[1][0].get(0, 0), RED);
    assert_eq!(grid[1][0].get(0, 1), CLEAR);
}

#[test]
fn undefined_color_is_the_background() {
    let mut s = sixel(false, 1, (0, 10));
    s.define(1, RED);
    s.enable(7);
    s.draw(1, SixelMap(0b1));
    let grid = s.into_inner();
    assert_eq!(grid[0][0].get(0, 0), BG);
}

#[test]
fn line_feed_moves_down_a_band() {
    let mut s = sixel(false, 1, (0, 10));
    s.draw(1, SixelMap(0b1));
    s.next();
    s.draw(1, SixelMap(0b1));
    assert_eq!(s.rows(), 4);
    let grid = s.into_inner();
    assert_eq!(grid[2][0].get(0, 0), Pixel { red: 0, green: 0, blue: 0, alpha: 255 });
    assert_eq!(grid[0][0].get(0, 0), Pixel { red: 0, green: 0, blue: 0, alpha: 255 });
}

#[test]
fn carriage_return_goes_back() {
    let mut s = sixel(false, 1, (0, 10));
    s.draw(3, SixelMap(0b1));
    s.start();
    s.define(1, RED);
    s.enable(1);
    s.draw(1, SixelMap(0b1));
    let grid = s.into_inner();
    assert_eq!(grid[0][0].get(0, 0), RED);
    assert_eq!(grid[0][0].get(1, 0), Pixel { red: 0, green: 0, blue: 0, alpha: 255 });
}

#[test]
fn handle_dispatches() {
    let mut s = sixel(false, 1, (0, 10));
    s.handle(&Item::Raster { aspect: (2, 1), size: (0, 0) });
    s.handle(&Item::Define(3, RED));
    s.handle(&Item::Enable(3));
    s.handle(&Item::Repeat(2, SixelMap(0b1)));
    s.handle(&Item::Value(SixelMap(0b1)));
    assert_eq!(s.rows(), 4);
    s.handle(&Item::CarriageReturn);
    s.handle(&Item::LineFeed);
    s.handle(&Item::Value(SixelMap(0b1)));
    let grid = s.into_inner();
    assert_eq!(grid.len(), 8);
    assert_eq!(grid[0].len(), 2);
    assert_eq!(grid[0][1].get(0, 0), RED);
    assert_eq!(grid[4][0].get(0, 0), RED);
}

#[test]
fn sixel_bits() {
    let m = SixelMap(0b100101);
    assert!(m.get(0));
    assert!(!m.get(1));
    assert!(m.get(2));
    assert!(m.get(5));
    assert!(!m.is_empty());
    assert!(SixelMap(0).is_empty());
}

#[test]
fn colors_to_pixels() {
    assert_eq!(Color::Rgb(1, 2, 3).to_pixel(), Some(Pixel { red: 1, green: 2, blue: 3, alpha: 255 }));
    assert_eq!(Color::Rgba(1, 2, 3, 4).to_pixel(), Some(Pixel { red: 1, green: 2, blue: 3, alpha: 4 }));
    assert_eq!(Color::Hsl(120, 50, 50).to_pixel(), None);
}

#[test]
fn defining_a_color_keeps_the_others() {
    let green = Pixel { red: 0, green: 255, blue: 0, alpha: 255 };
    let mut s = sixel(false, 1, (0, 10));
    s.define(1, RED);
    s.define(2, green);
    s.define(1, RED);
    s.enable(2);
    s.draw(1, SixelMap(0b1));
    s.enable(1);
    s.draw(1, SixelMap(0b1));
    let grid = s.into_inner();
    assert_eq!(grid[0][0].get(0, 0), green);
    assert_eq!(grid[0][0].get(1, 0), RED);
}

#[test]
fn start_after_next_changes_nothing() {
    let mut s = sixel(false, 1, (0, 10));
    s.draw(3, SixelMap(0));
    s.next();
    s.start();
    s.draw(1, SixelMap(0b1));
    let grid = s.into_inner();
    assert_eq!(grid.len(), 4);
    assert_eq!(grid[2].len(), 1);
    assert!(grid[0].is_empty());
}

#[test]
fn flat_aspect_paints_nothing() {
    let mut s = sixel(false, 0, (0, 10));
    s.draw(2, SixelMap(0b1));
    assert_eq!(s.rows(), 0);
    s.aspect((1, 1));
    s.draw(1, SixelMap(0b1));
    let grid = s.into_inner();
    assert_eq!(grid[0].len(), 2);
    assert_eq!(grid[0][1].get(0, 0), Pixel { red: 0, green: 0, blue: 0, alpha: 255 });
    assert_eq!(grid[0][0].get(0, 0), CLEAR);
}
