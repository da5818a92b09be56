use std::rc::Rc;

use cancer::cell::{Cell, Position};
use cancer::image::Image;
use cancer::style::{Pixel, Style};
use cancer::util::clamp;

fn style() -> Rc<Style> {
    Rc::new(Style::default())
}

fn red() -> Rc<Style> {
    Rc::new(Style { foreground: Some(Pixel { red: 255, green: 0, blue: 0, alpha: 255 }), background: None, attributes: 0 })
}

#[test]
fn default_cell_is_default() {
    let c = Cell::default();
    assert!(c.is_default());
    assert!(c.is_empty());
    assert!(!Cell::empty(red()).is_default());
    assert!(!Cell::occupied("a".to_string(), style()).is_default());
}

#[test]
fn kinds() {
    let e = Cell::empty(style());
    let o = Cell::occupied("x".to_string(), style());
    let r = Cell::reference(2);
    let i = Cell::Image { style: style(), buffer: Box::new(Image::new(1, 1)) };
    assert!(e.is_empty() && !e.is_occupied() && !e.is_reference() && !e.is_image());
    assert!(o.is_occupied() && !o.is_empty() && !o.is_reference() && !o.is_image());
    assert!(r.is_reference() && !r.is_empty() && !r.is_occupied() && !r.is_image());
    assert!(i.is_image() && !i.is_empty() && !i.is_occupied() && !i.is_reference());
}

#[test]
fn widths() {
    assert_eq!(Cell::empty(style()).width(), 1);
    assert_eq!(Cell::occupied("a".to_string(), style()).width(), 1);
    assert_eq!(Cell::occupied("漢".to_string(), style()).width(), 2);
    assert!(Cell::occupied("漢".to_string(), style()).is_wide());
    assert!(!Cell::occupied("a".to_string(), style()).is_wide());
    assert!(!Cell::empty(style()).is_wide());
    let i = Cell::Image { style: style(), buffer: Box::new(Image::new(1, 1)) };
    assert_eq!(i.width(), 1);
}

#[test]
fn values() {
    assert_eq!(Cell::empty(style()).value(), " ");
    assert_eq!(Cell::occupied("ab".to_string(), style()).value(), "ab");
    assert_eq!(Cell::reference(1).value(), "");
    let i = Cell::Image { style: style(), buffer: Box::new(Image::new(1, 1)) };
    assert_eq!(i.value(), "");
}

#[test]
fn makes() {
    let mut c = Cell::default();
    c.make_occupied("q".to_string(), red());
    assert_eq!(c, Cell::occupied("q".to_string(), red()));
    c.make_reference(3);
    assert_eq!(c.offset(), 3);
    c.make_empty(style());
    assert!(c.is_default());
}

#[test]
fn make_image_keeps_the_same_picture() {
    let mut c = Cell::Image { style: red(), buffer: Box::new(Image::new(2, 2)) };
    c.make_image(Image::new(2, 2), style());
    assert_eq!(c.style(), &red());
    let mut other = Image::new(2, 2);
    other.set(1, 1, &Pixel { red: 1, green: 2, blue: 3, alpha: 4 });
    c.make_image(other.clone(), style());
    assert_eq!(c.style(), &style());
    assert_eq!(c.image().get(1, 1), Pixel { red: 1, green: 2, blue: 3, alpha: 4 });
    let mut e = Cell::default();
    e.make_image(Image::new(1, 1), red());
    assert!(e.is_image());
    assert_eq!(e.style(), &red());
}

#[test]
fn set_style_changes_all_but_references() {
    let mut c = Cell::occupied("a".to_string(), style());
    c.set_style(red());
    assert_eq!(c, Cell::occupied("a".to_string(), red()));
    let mut r = Cell::reference(1);
    r.set_style(red());
    assert_eq!(r, Cell::reference(1));
    let mut e = Cell::empty(style());
    e.set_style(red());
    assert_eq!(e.style(), &red());
}

#[test]
fn position_gives_its_cell() {
    let c = Cell::occupied("z".to_string(), style());
    let p = Position::new(3, 4, &c);
    assert_eq!(p.x(), 3);
    assert_eq!(p.y(), 4);
    assert_eq!(p.value(), "z");
    assert!(p.is_occupied());
}

#[test]
fn images_hold_pixels() {
    let mut i = Image::new(3, 2);
    assert_eq!(i.width(), 3);
    assert_eq!(i.height(), 2);
    assert_eq!(i.get(2, 1), Pixel { red: 0, green: 0, blue: 0, alpha: 0 });
    let p = Pixel { red: 9, green: 8, blue: 7, alpha: 6 };
    i.set(2, 1, &p);
    assert_eq!(i.get(2, 1), p);
    assert_eq!(i.get(1, 1), Pixel { red: 0, green: 0, blue: 0, alpha: 0 });
    assert!(!i.same_as(&Image::new(3, 2)));
    assert!(i.same_as(&i.clone()));
    assert!(!Image::new(3, 2).same_as(&Image::new(2, 3)));
}

#[test]
fn clamp_bounds() {
    assert_eq!(clamp(5, 0, 3), 3);
    assert_eq!(clamp(1, 2, 3), 2);
    assert_eq!(clamp(2, 0, 3), 2);
}
