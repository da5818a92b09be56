use std::collections::HashMap;

use fnv::{FnvBuildHasher, FnvHasher};

use crate::image::{clear_pixel, Image};
use crate::style::Pixel;
use vstd::prelude::*;

verus! {

#[verifier::external_type_specification]
#[verifier::external_body]
pub struct ExFnvHasher(FnvHasher);

#[verifier::external_type_specification]
#[verifier::external_body]
#[verifier::reject_recursive_types(H)]
pub struct ExBuildHasherDefault<H>(std::hash::BuildHasherDefault<H>);

/// Calls `HashMap::get` on a table hashed with fnv's `FnvHasher`; the result
/// is taken to be the colour the table maps `id` to, if any.
#[verifier::external_body]
fn color_get(colors: &HashMap<u32, Pixel, FnvBuildHasher>, id: u32) -> (c: Option<Pixel>)
    ensures
        c == (if colors@.contains_key(id) { Some(colors@[id]) } else { None }),
{
    colors.get(&id).copied()
}

/// Calls `HashMap::insert` on a table hashed with fnv's `FnvHasher`; the
/// table is taken to map `id` to `color` afterwards, and every other key as before.
#[verifier::external_body]
fn color_insert(colors: &mut HashMap<u32, Pixel, FnvBuildHasher>, id: u32, color: Pixel)
    ensures
        final(colors)@ == old(colors)@.insert(id, color),
{
    colors.insert(id, color);
}


/// The images of a grid, row by row.
pub open spec fn images(grid: Seq<Vec<Image>>) -> Seq<Seq<Image>> {
    grid.map_values(|row: Vec<Image>| row@)
}

/// Whether `img` is a clear, well formed `w` by `h` image.
pub open spec fn fresh(img: Image, w: u32, h: u32) -> bool {
    &&& img.wf()
    &&& img.spec_width() == w
    &&& img.spec_height() == h
    &&& forall|x: int, y: int| 0 <= x < w && 0 <= y < h ==> #[trigger] img.pixels()[y][x] == clear_pixel()
}

/// Adds empty rows to the grid until it has row `gy`.
fn ensure_rows(grid: &mut Vec<Vec<Image>>, gy: usize)
    ensures
        final(grid)@.len() == if gy < old(grid)@.len() { old(grid)@.len() } else { (gy + 1) as nat },
        forall|r: int| 0 <= r < old(grid)@.len() ==> (#[trigger] images(final(grid)@)[r]) == images(old(grid)@)[r],
        forall|r: int| old(grid)@.len() <= r < final(grid)@.len() ==> (#[trigger] images(final(grid)@)[r]).len() == 0,
{
    let ghost g0 = images(grid@);
    while gy >= grid.len()
        invariant
            old(grid)@.len() <= grid@.len() <= if gy < old(grid)@.len() { old(grid)@.len() } else { (gy + 1) as nat },
            forall|r: int| 0 <= r < old(grid)@.len() ==> (#[trigger] images(grid@)[r]) == g0[r],
            forall|r: int| old(grid)@.len() <= r < grid@.len() ==> (#[trigger] images(grid@)[r]).len() == 0,
            g0 == images(old(grid)@),
        decreases gy + 1 - grid@.len(),
    {
        let ghost before = grid@;
        grid.push(Vec::new());
        assert forall|r: int| 0 <= r < before.len() implies (#[trigger] images(grid@)[r]) == images(before)[r] by {
            assert(grid@[r] == before[r]);
        }
    }
}

/// Adds clear `w` by `h` images to row `gy` until it has image `gx`.
fn ensure_cols(grid: &mut Vec<Vec<Image>>, gy: usize, gx: usize, w: u32, h: u32)
    requires
        gy < old(grid)@.len(),
    ensures
        final(grid)@.len() == old(grid)@.len(),
        forall|r: int| 0 <= r < old(grid)@.len() && r != gy ==> (#[trigger] images(final(grid)@)[r]) == images(old(grid)@)[r],
        images(final(grid)@)[gy as int].len() == if gx < images(old(grid)@)[gy as int].len() {
            images(old(grid)@)[gy as int].len()
        } else {
            (gx + 1) as nat
        },
        forall|c: int| 0 <= c < images(old(grid)@)[gy as int].len() ==> (#[trigger] images(final(grid)@)[gy as int][c]) == images(old(grid)@)[gy as int][c],
        forall|c: int| images(old(grid)@)[gy as int].len() <= c < images(final(grid)@)[gy as int].len() ==> fresh(#[trigger] images(final(grid)@)[gy as int][c], w, h),
{
    let ghost g0 = images(grid@);
    let mut row: Vec<Image> = Vec::new();
    std::mem::swap(&mut grid[gy], &mut row);
    assert(row@ == g0[gy as int]);
    let ghost r0 = row@;
    while gx >= row.len()
        invariant
            r0.len() <= row@.len() <= if gx < r0.len() { r0.len() } else { (gx + 1) as nat },
            forall|c: int| 0 <= c < r0.len() ==> #[trigger] row@[c] == r0[c],
            forall|c: int| r0.len() <= c < row@.len() ==> fresh(#[trigger] row@[c], w, h),
        decreases gx + 1 - row@.len(),
    {
        let img = Image::new(w, h);
        row.push(img);
    }
    let ghost mid = grid@;
    std::mem::swap(&mut grid[gy], &mut row);
    assert forall|r: int| 0 <= r < g0.len() && r != gy implies (#[trigger] images(grid@)[r]) == g0[r] by {
        assert(grid@[r] == mid[r]);
    }
}

/// Sets pixel (`x`, `y`) of image `gx` of row `gy` to `color`.
fn paint_pixel(grid: &mut Vec<Vec<Image>>, gy: usize, gx: usize, x: u32, y: u32, color: Pixel)
    requires
        gy < old(grid)@.len(),
        gx < old(grid)@[gy as int]@.len(),
        old(grid)@[gy as int]@[gx as int].wf(),
        x < old(grid)@[gy as int]@[gx as int].spec_width(),
        y < old(grid)@[gy as int]@[gx as int].spec_height(),
    ensures
        final(grid)@.len() == old(grid)@.len(),
        forall|r: int| 0 <= r < old(grid)@.len() && r != gy ==> (#[trigger] images(final(grid)@)[r]) == images(old(grid)@)[r],
        images(final(grid)@)[gy as int].len() == images(old(grid)@)[gy as int].len(),
        forall|c: int| 0 <= c < images(old(grid)@)[gy as int].len() && c != gx ==> (#[trigger] images(final(grid)@)[gy as int][c]) == images(old(grid)@)[gy as int][c],
        ({
            let before = images(old(grid)@)[gy as int][gx as int];
            let after = images(final(grid)@)[gy as int][gx as int];
            &&& after.wf()
            &&& after.spec_width() == before.spec_width()
            &&& after.spec_height() == before.spec_height()
            &&& after.pixels() == before.pixels().update(y as int, before.pixels()[y as int].update(x as int, color))
        }),
{
    let ghost g0 = images(grid@);
    let mut row: Vec<Image> = Vec::new();
    std::mem::swap(&mut grid[gy], &mut row);
    let ghost r0 = row@;
    row[gx].set(x, y, &color);
    let ghost mid = grid@;
    std::mem::swap(&mut grid[gy], &mut row);
    assert forall|r: int| 0 <= r < g0.len() && r != gy implies (#[trigger] images(grid@)[r]) == g0[r] by {
        assert(grid@[r] == mid[r]);
    }
}

/// The raster attributes of a sixel image: the pixel aspect ratio, and
/// whether the bits of a sixel that are not set paint the background.
#[derive(Clone, Copy, Debug, PartialEq, Eq)]
pub struct Header {
    pub aspect: (u32, u32),
    pub background: bool,
}

/// Six vertical pixels, one bit each, the lowest bit on top.
#[derive(Clone, Copy, Debug, PartialEq, Eq)]
pub struct SixelMap(pub u8);

impl SixelMap {
    /// Whether bit `bit` is set.
    pub open spec fn has(self, bit: int) -> bool {
        (self.0 as int / vstd::arithmetic::power2::pow2(bit as nat) as int) % 2 == 1
    }

    /// Whether no bit is set.
    pub fn is_empty(&self) -> (b: bool)
        ensures
            b == (self.0 == 0),
    {
        self.0 == 0
    }

    /// Whether bit `bit` is set.
    pub fn get(&self, bit: u8) -> (b: bool)
        requires
            bit < 8,
        ensures
            b == self.has(bit as int),
    {
        let v = self.0;
        let r = (v >> bit) & 1u8 == 1u8;
        proof {
            lemma_shift_bit(v, bit);
        }
        r
    }
}

proof fn lemma_shift_bit(v: u8, bit: u8)
    requires
        bit < 8,
    ensures
        ((v >> bit) & 1u8 == 1u8) == ((v as int / vstd::arithmetic::power2::pow2(bit as nat) as int) % 2 == 1),
{
    vstd::bits::lemma_u8_shr_is_div(v, bit);
    assert(((v >> bit) & 1u8) == (v >> bit) % 2) by (bit_vector);
}

/// A colour as a sixel stream defines it.
#[derive(Clone, Copy, Debug, PartialEq, Eq)]
pub enum Color {
    /// Hue in degrees, saturation and lightness in percent.
    Hsl(u16, u8, u8),
    Rgb(u8, u8, u8),
    Rgba(u8, u8, u8, u8),
}

impl Color {
    /// The pixel of a colour given by its channels; a colour given by hue,
    /// saturation and lightness has none here, its conversion being done in
    /// floating point by the caller.
    pub fn to_pixel(&self) -> (p: Option<Pixel>)
        ensures
            p == match *self {
                Color::Hsl(..) => None,
                Color::Rgb(r, g, b) => Some(Pixel { red: r, green: g, blue: b, alpha: 255 }),
                Color::Rgba(r, g, b, a) => Some(Pixel { red: r, green: g, blue: b, alpha: a }),
            },
    {
        match self {
            Color::Hsl(..) => None,
            Color::Rgb(r, g, b) => Some(Pixel { red: *r, green: *g, blue: *b, alpha: 255 }),
            Color::Rgba(r, g, b, a) => Some(Pixel { red: *r, green: *g, blue: *b, alpha: *a }),
        }
    }
}

/// One instruction of a sixel stream; a defined colour comes as its pixel.
#[derive(Clone, Copy, Debug, PartialEq, Eq)]
pub enum Item {
    Raster { aspect: (u32, u32), size: (u32, u32) },
    Enable(u32),
    Define(u32, Pixel),
    Value(SixelMap),
    Repeat(u32, SixelMap),
    CarriageReturn,
    LineFeed,
}

/// What a sixel decoder holds.
pub struct SixelModel {
    pub aspect: (u32, u32),
    pub paint_background: bool,
    pub origin: (u32, u32),
    pub grid: Seq<Seq<Image>>,
    pub cell: (u32, u32),
    pub limit: (u32, u32),
    pub position: (u32, u32),
    pub colors: Map<u32, Pixel>,
    pub color: Pixel,
    pub background: Pixel,
}

impl SixelModel {
    /// Every image of the grid is a well formed buffer the size of a cell.
    pub open spec fn wf(self) -> bool {
        forall|r: int, c: int|
            0 <= r < self.grid.len() && 0 <= c < self.grid[r].len() ==> {
                &&& (#[trigger] self.grid[r][c]).wf()
                &&& self.grid[r][c].spec_width() == self.cell.0
                &&& self.grid[r][c].spec_height() == self.cell.1
            }
    }
}


/// The number of columns `draw(times, ..)` paints from pixel column `x`: it
/// stops at the first one whose cell is at or beyond the last terminal column.
pub open spec fn fitting_columns(x: int, cw: int, l0: int, l1: int, times: nat) -> nat
    decreases times,
{
    if times == 0 || x / cw + l0 >= l1 {
        0
    } else {
        1 + fitting_columns(x + 1, cw, l0, l1, (times - 1) as nat)
    }
}

/// Whether drawing `value` only moves the cursor: no bit set and no background to paint.
pub open spec fn is_shift(m: SixelModel, value: SixelMap) -> bool {
    !m.paint_background && value.0 == 0
}

/// The columns `draw(times, value)` paints.
pub open spec fn columns(m: SixelModel, times: u32) -> nat {
    fitting_columns(m.position.0 as int, m.cell.0 as int, m.limit.0 as int, m.limit.1 as int, times as nat)
}

/// The pixel rows one line of sixels covers.
pub open spec fn band(m: SixelModel) -> int {
    6 * m.aspect.0
}

/// The first grid row the band reaches.
pub open spec fn band_lo(m: SixelModel) -> int {
    m.position.1 as int / m.cell.1 as int
}

/// The grid row that the first `i` pixel rows of the band end in.
pub open spec fn band_hi(m: SixelModel, i: int) -> int {
    (m.position.1 + i - 1) / (m.cell.1 as int)
}

/// The number of images row `r` of the grid has.
pub open spec fn row_len(m: SixelModel, r: int) -> nat {
    if 0 <= r < m.grid.len() {
        m.grid[r].len()
    } else {
        0
    }
}

/// Pixel (`u`, `v`) of image `c` of row `r`, clear where there is no such image.
pub open spec fn prior(m: SixelModel, r: int, c: int, u: int, v: int) -> Pixel {
    if 0 <= r < m.grid.len() && 0 <= c < m.grid[r].len() {
        m.grid[r][c].pixels()[v][u]
    } else {
        clear_pixel()
    }
}

/// What drawing `value` makes of the pixel at row `v` of an image of grid
/// row `r` that held `p`: the current colour where the bit for that pixel
/// row is set, else the background if it is painted, else `p`.
pub open spec fn paint_value(m: SixelModel, value: SixelMap, r: int, v: int, p: Pixel) -> Pixel {
    let i = r * m.cell.1 + v - m.position.1;
    if value.has(i / m.aspect.0 as int) {
        m.color
    } else if m.paint_background {
        m.background
    } else {
        p
    }
}

/// Whether the pixel (`u`, `v`) of image `c` of row `r` is among those the
/// first `k` columns of `draw` paint.
pub open spec fn painted(m: SixelModel, k: int, r: int, c: int, u: int, v: int) -> bool {
    let x = c * m.cell.0 + u;
    let y = r * m.cell.1 + v;
    &&& m.position.0 <= x < m.position.0 + k
    &&& m.position.1 <= y < m.position.1 + band(m)
}

/// The number of rows of the grid after `k` columns are drawn.
pub open spec fn rows_after(m: SixelModel, k: int) -> nat {
    if k > 0 && m.aspect.0 > 0 && m.grid.len() <= band_hi(m, band(m)) {
        (band_hi(m, band(m)) + 1) as nat
    } else {
        m.grid.len()
    }
}

/// The number of images of row `r` after `k` columns are drawn.
pub open spec fn row_len_after(m: SixelModel, k: int, r: int) -> nat {
    let last = (m.position.0 + k - 1) / (m.cell.0 as int);
    if k > 0 && m.aspect.0 > 0 && band_lo(m) <= r <= band_hi(m, band(m)) && row_len(m, r) <= last {
        (last + 1) as nat
    } else {
        row_len(m, r)
    }
}


/// `new` is `old` after the first `i` pixel rows of the band are drawn with
/// `value` in column `xo` of the images of column `gx`.
pub open spec fn column_done(old: SixelModel, new: SixelModel, gx: int, xo: int, value: SixelMap, i: int) -> bool {
    &&& new == (SixelModel { grid: new.grid, ..old })
    &&& new.grid.len() == if i > 0 && old.grid.len() <= band_hi(old, i) {
        (band_hi(old, i) + 1) as nat
    } else {
        old.grid.len()
    }
    &&& forall|r: int|
        0 <= r < new.grid.len() ==> (#[trigger] new.grid[r]).len() == if i > 0 && band_lo(old) <= r <= band_hi(old, i)
            && row_len(old, r) <= gx {
            (gx + 1) as nat
        } else {
            row_len(old, r)
        }
    &&& new.wf()
    &&& forall|r: int, c: int, u: int, v: int|
        0 <= r < new.grid.len() && 0 <= c < new.grid[r].len() && 0 <= u < old.cell.0 && 0 <= v < old.cell.1
            ==> #[trigger] new.grid[r][c].pixels()[v][u] == if c == gx && u == xo && old.position.1 <= r * old.cell.1 + v
            < old.position.1 + i {
            paint_value(old, value, r, v, prior(old, r, c, u, v))
        } else {
            prior(old, r, c, u, v)
        }
}

/// `new` is `old` after its first `k` columns are drawn with `value`.
pub open spec fn drawn_columns(old: SixelModel, new: SixelModel, value: SixelMap, k: int) -> bool {
    &&& new == (SixelModel { grid: new.grid, position: ((old.position.0 + k) as u32, old.position.1), ..old })
    &&& new.grid.len() == rows_after(old, k)
    &&& forall|r: int| 0 <= r < new.grid.len() ==> (#[trigger] new.grid[r]).len() == row_len_after(old, k, r)
    &&& new.wf()
    &&& forall|r: int, c: int, u: int, v: int|
        0 <= r < new.grid.len() && 0 <= c < new.grid[r].len() && 0 <= u < old.cell.0 && 0 <= v < old.cell.1
            ==> #[trigger] new.grid[r][c].pixels()[v][u] == if painted(old, k, r, c, u, v) {
            paint_value(old, value, r, v, prior(old, r, c, u, v))
        } else {
            prior(old, r, c, u, v)
        }
}

/// `new` is `old` after `draw(times, value)`.
pub open spec fn drawn(old: SixelModel, new: SixelModel, times: u32, value: SixelMap) -> bool {
    if is_shift(old, value) {
        new == (SixelModel { position: ((old.position.0 + times) as u32, old.position.1), ..old })
    } else {
        drawn_columns(old, new, value, columns(old, times) as int)
    }
}

/// `draw(times, value)` computes no column past 32 bits, and divides by no zero.
pub open spec fn draw_ok(m: SixelModel, times: u32, value: SixelMap) -> bool {
    if is_shift(m, value) {
        m.position.0 + times <= u32::MAX
    } else {
        let n = columns(m, times);
        &&& times > 0 ==> m.cell.0 > 0
        &&& forall|k: int| 0 <= k <= n && k < times ==> #[trigger] ((m.position.0 + k) / (m.cell.0 as int)) + m.limit.0 <= u32::MAX
        &&& m.position.0 + n <= u32::MAX
        &&& n > 0 ==> m.position.1 + band(m) <= u32::MAX
        &&& n > 0 && m.aspect.0 > 0 ==> m.cell.1 > 0
    }
}

/// What the method that `item` names asks of the decoder before it runs.
pub open spec fn handle_ok(m: SixelModel, item: Item) -> bool {
    match item {
        Item::Value(value) => draw_ok(m, 1, value),
        Item::Repeat(times, value) => draw_ok(m, times, value),
        Item::LineFeed => m.position.1 + 6 * m.aspect.0 <= u32::MAX,
        _ => true,
    }
}

/// `new` is the decoder `old` after the method that `item` names: `aspect`,
/// `enable`, `define`, `draw` once, `draw` repeated, `start` or `next`.
pub open spec fn handled(old: SixelModel, new: SixelModel, item: Item) -> bool {
    match item {
        Item::Raster { aspect, .. } => new == with_aspect(old, aspect),
        Item::Enable(id) => new == enabled(old, id),
        Item::Define(id, color) => new == defined(old, id, color),
        Item::Value(value) => drawn(old, new, 1, value),
        Item::Repeat(times, value) => drawn(old, new, times, value),
        Item::CarriageReturn => new == started(old),
        Item::LineFeed => new == advanced(old),
    }
}

/// `q * d + r` is `x` exactly when `q` and `r` are the quotient and remainder of `x` by `d`.
pub proof fn lemma_split(x: int, d: int, q: int, r: int)
    requires
        d > 0,
        0 <= r < d,
        x >= 0,
    ensures
        (q * d + r == x) == (q == x / d && r == x % d),
{
    if q * d + r == x {
        vstd::arithmetic::div_mod::lemma_fundamental_div_mod_converse(x, d, q, r);
    }
    if q == x / d && r == x % d {
        vstd::arithmetic::div_mod::lemma_fundamental_div_mod(x, d);
        vstd::arithmetic::mul::lemma_mul_is_commutative(d, q);
    }
}


/// One more pixel row of the band drawn in a column.
proof fn lemma_column_step(
    m0: SixelModel,
    mi: SixelModel,
    m2: SixelModel,
    m3: SixelModel,
    gx: int,
    xo: int,
    value: SixelMap,
    i: int,
    gy: int,
    yo: int,
)
    requires
        m0.wf(),
        0 <= i,
        0 <= gx,
        0 <= xo < m0.cell.0,
        m0.aspect.0 > 0,
        m0.cell.1 > 0,
        gy == (m0.position.1 + i) / (m0.cell.1 as int),
        yo == (m0.position.1 + i) % (m0.cell.1 as int),
        column_done(m0, mi, gx, xo, value, i),
        // the grid after the rows and the images are added
        m2 == (SixelModel { grid: m2.grid, ..mi }),
        m2.grid.len() == if gy < mi.grid.len() { mi.grid.len() } else { (gy + 1) as nat },
        forall|r: int| 0 <= r < mi.grid.len() && r != gy ==> (#[trigger] m2.grid[r]) == mi.grid[r],
        forall|r: int| mi.grid.len() <= r < m2.grid.len() && r != gy ==> (#[trigger] m2.grid[r]).len() == 0,
        m2.grid[gy].len() == if gx < row_len(mi, gy) { row_len(mi, gy) } else { (gx + 1) as nat },
        forall|c: int| 0 <= c < row_len(mi, gy) ==> (#[trigger] m2.grid[gy][c]) == mi.grid[gy][c],
        forall|c: int| row_len(mi, gy) <= c < m2.grid[gy].len() ==> fresh(#[trigger] m2.grid[gy][c], m0.cell.0, m0.cell.1),
        // the grid after the pixel is painted
        m3 == (SixelModel { grid: m3.grid, ..m2 }),
        m3.grid.len() == m2.grid.len(),
        forall|r: int| 0 <= r < m2.grid.len() && r != gy ==> (#[trigger] m3.grid[r]) == m2.grid[r],
        m3.grid[gy].len() == m2.grid[gy].len(),
        forall|c: int| 0 <= c < m2.grid[gy].len() && c != gx ==> (#[trigger] m3.grid[gy][c]) == m2.grid[gy][c],
        ({
            let before = m2.grid[gy][gx];
            let after = m3.grid[gy][gx];
            let p = paint_value(m0, value, gy, yo, before.pixels()[yo][xo]);
            &&& after.wf()
            &&& after.spec_width() == before.spec_width()
            &&& after.spec_height() == before.spec_height()
            &&& after.pixels() == before.pixels().update(yo, before.pixels()[yo].update(xo, p))
        }),
    ensures
        column_done(m0, m3, gx, xo, value, i + 1),
{
    let ch = m0.cell.1 as int;
    let cw = m0.cell.0 as int;
    let py = m0.position.1 as int;
    let y = py + i;
    vstd::arithmetic::div_mod::lemma_fundamental_div_mod(y, ch);
    vstd::arithmetic::div_mod::lemma_mod_pos_bound(y, ch);
    lemma_split(y, ch, gy, yo);
    assert(gy * ch + yo == y);
    if i > 0 {
        lemma_div_step(y, ch);
    } else {
        assert(gy == band_lo(m0));
    }
    assert(band_hi(m0, i + 1) == gy);
    assert(band_lo(m0) <= gy) by {
        vstd::arithmetic::div_mod::lemma_div_is_ordered(py, y, ch);
    }
    // Rows of `mi` are at least as long as those of `m0`.
    assert forall|r: int| 0 <= r < mi.grid.len() implies row_len(m0, r) <= (#[trigger] mi.grid[r]).len() by {
    }
    // Where `i` rows are painted, the image was there before this step.
    assert forall|r: int, v: int| 0 <= v < ch && py <= #[trigger] (r * ch + v) < py + i implies
        band_lo(m0) <= r <= band_hi(m0, i) && i > 0 by {
        lemma_split(r * ch + v, ch, r, v);
        vstd::arithmetic::div_mod::lemma_div_is_ordered(py, r * ch + v, ch);
        vstd::arithmetic::div_mod::lemma_div_is_ordered(r * ch + v, py + i - 1, ch);
    }
    // The grid's length.
    assert(m3.grid.len() == if i + 1 > 0 && m0.grid.len() <= band_hi(m0, i + 1) {
        (band_hi(m0, i + 1) + 1) as nat
    } else {
        m0.grid.len()
    });
    // The rows' lengths.
    assert forall|r: int| 0 <= r < m3.grid.len() implies (#[trigger] m3.grid[r]).len() == if i + 1 > 0 && band_lo(m0) <= r
        <= band_hi(m0, i + 1) && row_len(m0, r) <= gx {
        (gx + 1) as nat
    } else {
        row_len(m0, r)
    } by {
        if r != gy {
            if r < mi.grid.len() {
                assert(m3.grid[r] == mi.grid[r]);
            } else {
                assert(m3.grid[r].len() == 0);
                assert(row_len(m0, r) == 0);
            }
        } else {
            if gy < mi.grid.len() {
                assert(row_len(mi, gy) == mi.grid[gy].len());
            }
        }
    }
    // Every image is well formed and the size of a cell.
    assert forall|r: int, c: int| 0 <= r < m3.grid.len() && 0 <= c < m3.grid[r].len() implies {
        &&& (#[trigger] m3.grid[r][c]).wf()
        &&& m3.grid[r][c].spec_width() == m3.cell.0
        &&& m3.grid[r][c].spec_height() == m3.cell.1
    } by {
        if r != gy {
            assert(m3.grid[r] == m2.grid[r]);
            if r < mi.grid.len() {
                assert(m2.grid[r] == mi.grid[r]);
            }
        } else if c != gx {
            assert(m3.grid[gy][c] == m2.grid[gy][c]);
            if c < row_len(mi, gy) {
                assert(m2.grid[gy][c] == mi.grid[gy][c]);
            }
        } else {
            if gx < row_len(mi, gy) {
                assert(m2.grid[gy][gx] == mi.grid[gy][gx]);
            }
        }
    }
    // The pixels.
    assert forall|r: int, c: int, u: int, v: int|
        0 <= r < m3.grid.len() && 0 <= c < m3.grid[r].len() && 0 <= u < cw && 0 <= v < ch implies
        #[trigger] m3.grid[r][c].pixels()[v][u] == if c == gx && u == xo && py <= r * ch + v < py + i + 1 {
            paint_value(m0, value, r, v, prior(m0, r, c, u, v))
        } else {
            prior(m0, r, c, u, v)
        } by {
        lemma_split(y, ch, r, v);
        let expected_i = if c == gx && u == xo && py <= r * ch + v < py + i {
            paint_value(m0, value, r, v, prior(m0, r, c, u, v))
        } else {
            prior(m0, r, c, u, v)
        };
        let expected = if c == gx && u == xo && py <= r * ch + v < py + i + 1 {
            paint_value(m0, value, r, v, prior(m0, r, c, u, v))
        } else {
            prior(m0, r, c, u, v)
        };
        if r != gy {
            assert(m3.grid[r] == m2.grid[r]);
            assert(r < mi.grid.len());
            assert(m2.grid[r] == mi.grid[r]);
            assert(mi.grid[r][c].pixels()[v][u] == expected_i);
            assert(expected_i == expected);
            assert(m3.grid[r][c].pixels()[v][u] == expected);
        } else if c != gx {
            assert(m3.grid[gy][c] == m2.grid[gy][c]);
            if c < row_len(mi, gy) {
                assert(m2.grid[gy][c] == mi.grid[gy][c]);
                assert(mi.grid[gy][c].pixels()[v][u] == expected_i);
                assert(m3.grid[r][c].pixels()[v][u] == expected);
            } else {
                assert(fresh(m2.grid[gy][c], m0.cell.0, m0.cell.1));
                assert(m2.grid[gy][c].pixels()[v][u] == clear_pixel());
                assert(row_len(m0, gy) <= row_len(mi, gy));
                assert(prior(m0, r, c, u, v) == clear_pixel());
                assert(m3.grid[r][c].pixels()[v][u] == expected);
            }
        } else {
            let before = m2.grid[gy][gx];
            let after = m3.grid[gy][gx];
            let bp = before.pixels()[yo][xo];
            if gx < row_len(mi, gy) {
                assert(before == mi.grid[gy][gx]);
                assert(mi.grid[gy][gx].pixels()[v][u] == expected_i);
                assert(mi.grid[gy][gx].pixels()[yo][xo] == prior(m0, gy, gx, xo, yo));
            } else {
                assert(fresh(before, m0.cell.0, m0.cell.1));
                assert(before.pixels()[v][u] == clear_pixel());
                assert(bp == clear_pixel());
                assert(row_len(m0, gy) <= row_len(mi, gy));
                assert(prior(m0, r, c, u, v) == clear_pixel());
                assert(prior(m0, gy, gx, xo, yo) == clear_pixel());
                if u == xo && py <= r * ch + v < py + i {
                    assert(band_lo(m0) <= gy <= band_hi(m0, i) && i > 0);
                    if gy < mi.grid.len() {
                        assert(row_len(mi, gy) == mi.grid[gy].len());
                    }
                    assert(false);
                }
                assert(before.pixels()[v][u] == expected_i);
            }
            assert(bp == prior(m0, gy, gx, xo, yo));
            if u == xo && v == yo {
                assert(after.pixels()[v][u] == paint_value(m0, value, gy, yo, bp));
                assert(m3.grid[r][c].pixels()[v][u] == expected);
            } else {
                assert(after.pixels()[v][u] == before.pixels()[v][u]);
                assert(m3.grid[r][c].pixels()[v][u] == expected);
            }
        }
    }
}

/// One more pixel row ends in the same grid row as the one before, or in the next.
proof fn lemma_div_step(y: int, d: int)
    requires
        y >= 1,
        d > 0,
    ensures
        (y - 1) / d <= y / d <= (y - 1) / d + 1,
{
    let q = (y - 1) / d;
    let r = (y - 1) % d;
    vstd::arithmetic::div_mod::lemma_fundamental_div_mod(y - 1, d);
    vstd::arithmetic::div_mod::lemma_mod_pos_bound(y - 1, d);
    vstd::arithmetic::mul::lemma_mul_is_commutative(d, q);
    if r + 1 < d {
        vstd::arithmetic::div_mod::lemma_fundamental_div_mod_converse(y, d, q, r + 1);
    } else {
        vstd::arithmetic::mul::lemma_mul_is_distributive_add_other_way(d, q, 1);
        vstd::arithmetic::mul::lemma_mul_is_commutative(d, q + 1);
        vstd::arithmetic::div_mod::lemma_fundamental_div_mod_converse(y, d, q + 1, 0);
    }
}


/// A pixel that the first `k` columns paint lies in an image they made.
proof fn lemma_painted_inside(m0: SixelModel, k: int, r: int, c: int, u: int, v: int)
    requires
        m0.cell.0 > 0,
        m0.cell.1 > 0,
        k > 0,
        0 <= u < m0.cell.0,
        0 <= v < m0.cell.1,
        0 <= r,
        0 <= c,
        painted(m0, k, r, c, u, v),
    ensures
        m0.aspect.0 > 0,
        band_lo(m0) <= r <= band_hi(m0, band(m0)),
        c <= (m0.position.0 + k - 1) / (m0.cell.0 as int),
{
    let cw = m0.cell.0 as int;
    let ch = m0.cell.1 as int;
    let x = c * cw + u;
    let y = r * ch + v;
    lemma_split(x, cw, c, u);
    lemma_split(y, ch, r, v);
    vstd::arithmetic::div_mod::lemma_div_is_ordered(x, m0.position.0 + k - 1, cw);
    vstd::arithmetic::div_mod::lemma_div_is_ordered(m0.position.1 as int, y, ch);
    vstd::arithmetic::div_mod::lemma_div_is_ordered(y, m0.position.1 + band(m0) - 1, ch);
}

/// One more column drawn.
proof fn lemma_draw_step(m0: SixelModel, mk: SixelModel, mc: SixelModel, value: SixelMap, k: int)
    requires
        0 <= k,
        m0.cell.0 > 0,
        m0.aspect.0 > 0 ==> m0.cell.1 > 0,
        drawn_columns(m0, mk, value, k),
        column_done(
            mk,
            mc,
            (m0.position.0 + k) / (m0.cell.0 as int),
            (m0.position.0 + k) % (m0.cell.0 as int),
            value,
            band(mk),
        ),
        m0.position.0 + k + 1 <= u32::MAX,
    ensures
        drawn_columns(m0, SixelModel { position: ((m0.position.0 + k + 1) as u32, m0.position.1), ..mc }, value, k + 1),
{
    let cw = m0.cell.0 as int;
    let ch = m0.cell.1 as int;
    let px = m0.position.0 as int;
    let py = m0.position.1 as int;
    let gx = (px + k) / cw;
    let xo = (px + k) % cw;
    let m1 = SixelModel { position: ((px + k + 1) as u32, m0.position.1), ..mc };
    vstd::arithmetic::div_mod::lemma_fundamental_div_mod(px + k, cw);
    vstd::arithmetic::div_mod::lemma_mod_pos_bound(px + k, cw);
    if k > 0 {
        vstd::arithmetic::div_mod::lemma_div_is_ordered(px + k - 1, px + k, cw);
    }
    assert(band(mk) == band(m0));
    assert(band_lo(mk) == band_lo(m0));
    assert(band_hi(mk, band(mk)) == band_hi(m0, band(m0)));
    assert(m1.grid.len() == rows_after(m0, k + 1));
    assert forall|r: int| 0 <= r < mk.grid.len() implies row_len(m0, r) <= (#[trigger] mk.grid[r]).len() by {
    }
    assert forall|r: int| 0 <= r < m1.grid.len() implies (#[trigger] m1.grid[r]).len() == row_len_after(m0, k + 1, r) by {
        if r < mk.grid.len() {
            assert(row_len(mk, r) == row_len_after(m0, k, r));
        } else {
            assert(row_len(mk, r) == 0);
            assert(row_len(m0, r) == 0);
        }
    }
    assert forall|r: int, c: int, u: int, v: int|
        0 <= r < m1.grid.len() && 0 <= c < m1.grid[r].len() && 0 <= u < cw && 0 <= v < ch implies
        #[trigger] m1.grid[r][c].pixels()[v][u] == if painted(m0, k + 1, r, c, u, v) {
            paint_value(m0, value, r, v, prior(m0, r, c, u, v))
        } else {
            prior(m0, r, c, u, v)
        } by {
        lemma_split(px + k, cw, c, u);
        assert(paint_value(mk, value, r, v, prior(mk, r, c, u, v)) == paint_value(m0, value, r, v, prior(mk, r, c, u, v)));
        assert(mc.grid[r][c].pixels()[v][u] == m1.grid[r][c].pixels()[v][u]);
        if 0 <= r < mk.grid.len() && 0 <= c < mk.grid[r].len() {
            assert(prior(mk, r, c, u, v) == mk.grid[r][c].pixels()[v][u]);
        } else {
            assert(prior(mk, r, c, u, v) == clear_pixel());
            if r < mk.grid.len() {
                assert(row_len(mk, r) == mk.grid[r].len());
            }
            assert(prior(m0, r, c, u, v) == clear_pixel());
            if painted(m0, k, r, c, u, v) {
                lemma_painted_inside(m0, k, r, c, u, v);
                assert(false);
            }
        }
    }
}


/// The decoder after `enable(id)`: the colour defined as `id` is current, or
/// the background colour where none is.
pub open spec fn enabled(m: SixelModel, id: u32) -> SixelModel {
    SixelModel { color: if m.colors.contains_key(id) { m.colors[id] } else { m.background }, ..m }
}

/// The decoder after `define(id, color)`.
pub open spec fn defined(m: SixelModel, id: u32, color: Pixel) -> SixelModel {
    SixelModel { colors: m.colors.insert(id, color), ..m }
}

/// The decoder after `start()`: the cursor back at the first pixel column.
pub open spec fn started(m: SixelModel) -> SixelModel {
    SixelModel { position: (0, m.position.1), ..m }
}

/// The decoder after `next()`: the cursor at the first pixel column of the next band.
pub open spec fn advanced(m: SixelModel) -> SixelModel {
    SixelModel { position: (0, (m.position.1 + 6 * m.aspect.0) as u32), ..m }
}

/// The decoder after `aspect(aspect)`.
pub open spec fn with_aspect(m: SixelModel, aspect: (u32, u32)) -> SixelModel {
    SixelModel { aspect, ..m }
}

/// Decodes a sixel stream into a grid of cell-sized images.
#[derive(Debug)]
pub struct Sixel {
    raster: Header,
    origin: (u32, u32),
    grid: Vec<Vec<Image>>,
    cell: (u32, u32),
    limit: (u32, u32),
    position: (u32, u32),
    colors: HashMap<u32, Pixel, FnvBuildHasher>,
    color: Pixel,
    background: Pixel,
}

impl Sixel {
    /// What the decoder holds.
    pub closed spec fn model(&self) -> SixelModel {
        SixelModel {
            aspect: self.raster.aspect,
            paint_background: self.raster.background,
            origin: self.origin,
            grid: self.grid@.map_values(|row: Vec<Image>| row@),
            cell: self.cell,
            limit: self.limit,
            position: self.position,
            colors: self.colors@,
            color: self.color,
            background: self.background,
        }
    }

    pub open spec fn wf(&self) -> bool {
        self.model().wf()
    }

    /// A decoder for an image drawn from `origin`, with cells of `cell`
    /// pixels; `limit` holds the first column of the image and the number of
    /// columns of the terminal. The background colour comes as its pixel.
    pub fn new(origin: (u32, u32), header: Header, background: Pixel, cell: (u32, u32), limit: (u32, u32)) -> (s: Sixel)
        ensures
            s.wf(),
            s.model() == (SixelModel {
                aspect: header.aspect,
                paint_background: header.background,
                origin,
                grid: Seq::empty(),
                cell,
                limit,
                position: (0, 0),
                colors: Map::empty(),
                color: Pixel { red: 0, green: 0, blue: 0, alpha: 255 },
                background,
            }),
    {
        let s = Sixel {
            raster: header,
            origin: origin,
            grid: Vec::new(),
            cell: cell,
            limit: limit,
            position: (0, 0),
            colors: HashMap::default(),
            color: Pixel { red: 0, green: 0, blue: 0, alpha: 255 },
            background: background,
        };
        assert(s.model().grid =~= Seq::<Seq<Image>>::empty());
        s
    }

    /// The cell where the image starts.
    pub fn origin(&self) -> (o: (u32, u32))
        ensures
            o == self.model().origin,
    {
        self.origin
    }

    /// The number of rows of cells the image covers so far.
    pub fn rows(&self) -> (n: usize)
        ensures
            n == self.model().grid.len(),
    {
        self.grid.len()
    }

    /// The images drawn, row by row.
    pub fn into_inner(self) -> (g: Vec<Vec<Image>>)
        ensures
            g@.map_values(|row: Vec<Image>| row@) == self.model().grid,
    {
        self.grid
    }

    /// Sets the pixel aspect ratio; a line of sixels is `6 * aspect.0` pixels tall.
    pub fn aspect(&mut self, aspect: (u32, u32))
        ensures
            final(self).model() == with_aspect(old(self).model(), aspect),
    {
        self.raster.aspect = aspect;
    }

    /// Makes colour `id` the one drawing uses.
    pub fn enable(&mut self, id: u32)
        ensures
            final(self).model() == enabled(old(self).model(), id),
    {
        self.color = match color_get(&self.colors, id) {
            Some(c) => c,
            None => self.background,
        };
    }

    /// Defines colour `id`.
    pub fn define(&mut self, id: u32, color: Pixel)
        ensures
            final(self).model() == defined(old(self).model(), id, color),
    {
        color_insert(&mut self.colors, id, color);
    }

    /// Moves the cursor back to the first pixel column.
    pub fn start(&mut self)
        ensures
            final(self).model() == started(old(self).model()),
    {
        self.position.0 = 0;
    }


    /// Draws `value` down the band in column `xo` of the images of column `gx`.
    fn paint_column(&mut self, gx: u32, xo: u32, value: SixelMap)
        requires
            old(self).wf(),
            xo < old(self).model().cell.0,
            old(self).model().position.1 + band(old(self).model()) <= u32::MAX,
            old(self).model().aspect.0 > 0 ==> old(self).model().cell.1 > 0,
        ensures
            column_done(old(self).model(), final(self).model(), gx as int, xo as int, value, band(old(self).model())),
    {
        let ghost m0 = self.model();
        let a = self.raster.aspect.0;
        let h = 6 * a;
        let mut i: u32 = 0;
        proof {
            assert(self.model().grid =~= m0.grid);
        }
        while i < h
            invariant
                m0 == old(self).model(),
                m0.wf(),
                a == m0.aspect.0,
                h == band(m0),
                i <= h,
                xo < m0.cell.0,
                m0.position.1 + h <= u32::MAX,
                a > 0 ==> m0.cell.1 > 0,
                column_done(m0, self.model(), gx as int, xo as int, value, i as int),
            decreases h - i,
        {
            let ghost mi = self.model();
            let y = self.position.1 + i;
            proof {
                vstd::arithmetic::div_mod::lemma_div_is_ordered(i as int, (h - 1) as int, a as int);
                assert((h - 1) as int / a as int <= 5) by (nonlinear_arith)
                    requires
                        h == 6 * a,
                        a > 0,
                ;
            }
            let bit = (i / a) as u8;
            let yo = y % self.cell.1;
            let gy = (y / self.cell.1) as usize;
            ensure_rows(&mut self.grid, gy);
            ensure_cols(&mut self.grid, gy, gx as usize, self.cell.0, self.cell.1);
            let ghost m2 = self.model();
            proof {
                let ch = m0.cell.1 as int;
                vstd::arithmetic::div_mod::lemma_fundamental_div_mod(y as int, ch);
                vstd::arithmetic::div_mod::lemma_mod_pos_bound(y as int, ch);
                lemma_split(y as int, ch, gy as int, yo as int);
                assert(gy * ch + yo - m0.position.1 == i);
                assert(self.grid@[gy as int]@ == m2.grid[gy as int]);
                assert(m2.grid[gy as int][gx as int].wf());
            }
            let ghost before = m2.grid[gy as int][gx as int];
            if value.get(bit) {
                paint_pixel(&mut self.grid, gy, gx as usize, xo, yo, self.color);
            } else if self.raster.background {
                paint_pixel(&mut self.grid, gy, gx as usize, xo, yo, self.background);
            } else {
                assert(before.spec_height() == m0.cell.1 && before.spec_width() == m0.cell.0);
                assert(before.pixels()[yo as int].update(xo as int, before.pixels()[yo as int][xo as int]) =~= before.pixels()[yo as int]);
                assert(before.pixels().update(yo as int, before.pixels()[yo as int].update(xo as int, before.pixels()[yo as int][xo as int])) =~= before.pixels());
            }
            i = i + 1;
            proof {
                lemma_column_step(m0, mi, m2, self.model(), gx as int, xo as int, value, (i - 1) as int, gy as int, yo as int);
            }
        }
    }


    /// Draws the sixel `value` `times` times from the cursor, one column of
    /// pixels each, stopping at the last column of the terminal; when no bit
    /// is set and the background is not painted, only the cursor moves.
    pub fn draw(&mut self, times: u32, value: SixelMap)
        requires
            old(self).wf(),
            draw_ok(old(self).model(), times, value),
        ensures
            drawn(old(self).model(), final(self).model(), times, value),
    {
        if !self.raster.background && value.is_empty() {
            self.position.0 = self.position.0 + times;
            return;
        }
        let ghost m0 = self.model();
        let ghost n = columns(m0, times);
        let mut k: u32 = 0;
        proof {
            assert(self.model().grid =~= m0.grid);
            assert forall|r: int| 0 <= r < m0.grid.len() implies (#[trigger] m0.grid[r]).len() == row_len_after(m0, 0, r) by {
            }
            assert forall|r: int, c: int, u: int, v: int|
                0 <= r < m0.grid.len() && 0 <= c < m0.grid[r].len() && 0 <= u < m0.cell.0 && 0 <= v < m0.cell.1 implies
                #[trigger] m0.grid[r][c].pixels()[v][u] == if painted(m0, 0, r, c, u, v) {
                    paint_value(m0, value, r, v, prior(m0, r, c, u, v))
                } else {
                    prior(m0, r, c, u, v)
                } by {
            }
        }
        while k < times
            invariant_except_break
                k <= times,
                n == k + fitting_columns(m0.position.0 + k, m0.cell.0 as int, m0.limit.0 as int, m0.limit.1 as int, (times - k) as nat),
            invariant
                m0 == old(self).model(),
                !is_shift(m0, value),
                draw_ok(m0, times, value),
                n == columns(m0, times),
                k <= n,
                drawn_columns(m0, self.model(), value, k as int),
            ensures
                k == n,
            decreases times - k,
        {
            let ghost mk = self.model();
            let x = self.position.0 / self.cell.0;
            if x + self.limit.0 >= self.limit.1 {
                break;
            }
            let xo = self.position.0 % self.cell.0;
            self.paint_column(x, xo, value);
            let ghost mc = self.model();
            self.position.0 = self.position.0 + 1;
            k = k + 1;
            proof {
                lemma_draw_step(m0, mk, mc, value, (k - 1) as int);
                assert(self.model() == SixelModel { position: ((m0.position.0 + k) as u32, m0.position.1), ..mc });
            }
        }
    }

    /// Handles one instruction of the stream: it has the effect of the
    /// method the instruction names (see `handled`).
    pub fn handle(&mut self, item: &Item)
        requires
            old(self).wf(),
            handle_ok(old(self).model(), *item),
        ensures
            handled(old(self).model(), final(self).model(), *item),
            final(self).wf(),
    {
        match *item {
            Item::Raster { aspect, .. } => {
                self.aspect(aspect);
            },
            Item::Enable(id) => {
                self.enable(id);
            },
            Item::Define(id, color) => {
                self.define(id, color);
            },
            Item::Value(value) => {
                self.draw(1, value);
            },
            Item::Repeat(times, value) => {
                self.draw(times, value);
            },
            Item::CarriageReturn => {
                self.start();
            },
            Item::LineFeed => {
                self.next();
            },
        }
    }

    /// Moves the cursor to the first pixel column of the next line of sixels.
    pub fn next(&mut self)
        requires
            old(self).model().position.1 + 6 * old(self).model().aspect.0 <= u32::MAX,
        ensures
            final(self).model() == advanced(old(self).model()),
    {
        self.position.0 = 0;
        self.position.1 = self.position.1 + 6 * self.raster.aspect.0;
    }
}

} // verus!
