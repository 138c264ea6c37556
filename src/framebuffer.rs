use vstd::prelude::*;
use vstd::arithmetic::div_mod::lemma_fundamental_div_mod_converse;
use crate::color::Color;
use crate::sprite::{Pixel, Sprite};
use crate::stack::Layer;

verus! {

/// A group of pixels placed in world space.
pub type SpriteVector = Vec<Pixel>;

/// Where (x, y) lies in a row-major grid `width` cells wide.
pub open spec fn raw_index(width: int, x: int, y: int) -> int {
    width * y + x
}

/// Whether `p` is drawn into a grid of `len` cells, `width` wide: only a
/// rendered pixel whose flat index lies in the grid.
pub open spec fn lands(p: Pixel, width: int, len: int) -> bool {
    &&& p.isrendered
    &&& 0 <= raw_index(width, p.x as int, p.y as int) < len
}

/// The cell colours after drawing `p`: its colour replaces that of its cell.
pub open spec fn paint_pixel(cells: Seq<Color>, width: int, p: Pixel) -> Seq<Color> {
    if lands(p, width, cells.len() as int) {
        cells.update(raw_index(width, p.x as int, p.y as int), p.color)
    } else {
        cells
    }
}

/// The cell colours after drawing the pixels of `g` in their order.
pub open spec fn paint_group(cells: Seq<Color>, width: int, g: Seq<Pixel>) -> Seq<Color> {
    g.fold_left(cells, |acc: Seq<Color>, p: Pixel| paint_pixel(acc, width, p))
}

/// The cell colours after drawing the groups of `gs` in their order.
pub open spec fn paint_groups(cells: Seq<Color>, width: int, gs: Seq<Seq<Pixel>>) -> Seq<Color> {
    gs.fold_left(cells, |acc: Seq<Color>, g: Seq<Pixel>| paint_group(acc, width, g))
}

/// Whether a sprite pixel lands inside a `width` by `height` buffer when the
/// sprite's origin is put at (dx, dy).
pub open spec fn inside(p: Pixel, dx: int, dy: int, width: int, height: int) -> bool {
    &&& 0 <= p.x + dx < width
    &&& 0 <= p.y + dy < height
}

/// `p` moved by (dx, dy); colour and render flag are kept.
pub open spec fn translate(p: Pixel, dx: int, dy: int) -> Pixel {
    Pixel { x: (p.x + dx) as i32, y: (p.y + dy) as i32, color: p.color, isrendered: p.isrendered }
}

/// The pixels of a sprite put at (dx, dy) in world space: those that fall
/// outside the buffer are dropped, the others are moved, in their order.
pub open spec fn placed(pixels: Seq<Pixel>, dx: int, dy: int, width: int, height: int) -> Seq<Pixel> {
    pixels.filter(|p: Pixel| inside(p, dx, dy, width, height)).map_values(
        |p: Pixel| translate(p, dx, dy),
    )
}

/// The pixel groups held in `gs`.
pub open spec fn views_of(gs: Seq<Vec<Pixel>>) -> Seq<Seq<Pixel>> {
    gs.map_values(|g: Vec<Pixel>| g@)
}

/// The abstract state of a frame buffer.
pub struct FrameView {
    pub cells: Seq<Pixel>,
    pub background: Color,
    pub width: int,
    pub height: int,
}

impl FrameView {
    pub open spec fn colors(self) -> Seq<Color> {
        self.cells.map_values(|p: Pixel| p.color)
    }

    /// One rendered cell per grid position, in row-major order.
    pub open spec fn wf(self) -> bool {
        &&& 0 <= self.width <= 65535
        &&& 0 <= self.height <= 65535
        &&& self.cells.len() == self.width * self.height
        &&& forall|i: int|
            0 <= i < self.cells.len() ==> {
                &&& (#[trigger] self.cells[i]).x == i % self.width
                &&& self.cells[i].y == i / self.width
                &&& self.cells[i].isrendered
            }
    }

    /// The same grid, only the colours of its cells may differ.
    pub open spec fn same_grid(self, other: FrameView) -> bool {
        &&& self.width == other.width
        &&& self.height == other.height
        &&& self.background == other.background
        &&& self.cells.len() == other.cells.len()
        &&& forall|i: int|
            0 <= i < self.cells.len() ==> {
                &&& (#[trigger] self.cells[i]).x == other.cells[i].x
                &&& self.cells[i].y == other.cells[i].y
                &&& self.cells[i].isrendered == other.cells[i].isrendered
            }
    }
}

/// The dense grid of cells that layers are flattened into, in row-major
/// order, with the colour it is reset to.
pub struct FrameBuffer {
    buffer: Vec<Pixel>,
    color: Color,
    height: u16,
    width: u16,
}

impl View for FrameBuffer {
    type V = FrameView;

    closed spec fn view(&self) -> FrameView {
        FrameView {
            cells: self.buffer@,
            background: self.color,
            width: self.width as int,
            height: self.height as int,
        }
    }
}

/// The flat index of (x, y) in a row-major grid `width` cells wide.
pub fn get_raw_index(width: usize, x: usize, y: usize) -> (r: usize)
    requires
        width * y + x <= usize::MAX,
    ensures
        r == raw_index(width as int, x as int, y as int),
{
    width * y + x
}

impl FrameBuffer {
    pub open spec fn wf(&self) -> bool {
        self@.wf()
    }

    /// A `width` by `height` buffer whose cells all have the colour `color`.
    pub fn new(width: u16, height: u16, color: Color) -> (r: FrameBuffer)
        ensures
            r.wf(),
            r@.width == width,
            r@.height == height,
            r@.background == color,
            forall|i: int| 0 <= i < r@.cells.len() ==> (#[trigger] r@.cells[i]).color == color,
    {
        let mut buffer: Vec<Pixel> = Vec::new();
        let mut y_framebuffer: u16 = 0;
        while y_framebuffer < height
            invariant
                y_framebuffer <= height,
                buffer@.len() == y_framebuffer as int * width as int,
                forall|i: int|
                    0 <= i < buffer@.len() ==> {
                        &&& (#[trigger] buffer@[i]).x == i % width as int
                        &&& buffer@[i].y == i / width as int
                        &&& buffer@[i].isrendered
                        &&& buffer@[i].color == color
                    },
            decreases height - y_framebuffer,
        {
            let mut x_framebuffer: u16 = 0;
            while x_framebuffer < width
                invariant
                    y_framebuffer < height,
                    x_framebuffer <= width,
                    buffer@.len() == y_framebuffer as int * width as int + x_framebuffer as int,
                    forall|i: int|
                        0 <= i < buffer@.len() ==> {
                            &&& (#[trigger] buffer@[i]).x == i % width as int
                            &&& buffer@[i].y == i / width as int
                            &&& buffer@[i].isrendered
                            &&& buffer@[i].color == color
                        },
                decreases width - x_framebuffer,
            {
                proof {
                    lemma_fundamental_div_mod_converse(
                        buffer@.len() as int,
                        width as int,
                        y_framebuffer as int,
                        x_framebuffer as int,
                    );
                }
                buffer.push(
                    Pixel {
                        x: x_framebuffer as i32,
                        y: y_framebuffer as i32,
                        color: color,
                        isrendered: true,
                    },
                );
                x_framebuffer += 1;
            }
            proof {
                assert((y_framebuffer as int + 1) * width as int == y_framebuffer as int
                    * width as int + width as int) by (nonlinear_arith);
            }
            y_framebuffer += 1;
        }
        proof {
            assert(height as int * width as int == width as int * height as int) by (nonlinear_arith);
        }
        FrameBuffer { buffer, color, height, width }
    }

    /// The cells, in row-major order.
    pub fn buffer(&self) -> (r: &Vec<Pixel>)
        ensures
            r@ == self@.cells,
    {
        &self.buffer
    }

    pub fn width(&self) -> (r: u16)
        ensures
            r == self@.width,
    {
        self.width
    }

    pub fn height(&self) -> (r: u16)
        ensures
            r == self@.height,
    {
        self.height
    }

    pub fn background(&self) -> (r: Color)
        ensures
            r == self@.background,
    {
        self.color
    }

    /// Draws one pixel: where it lands, its colour replaces that of its cell;
    /// elsewhere it is skipped.
    pub fn paint(&mut self, p: &Pixel)
        requires
            old(self).wf(),
        ensures
            final(self).wf(),
            final(self)@.same_grid(old(self)@),
            final(self)@.colors() == paint_pixel(old(self)@.colors(), old(self)@.width, *p),
    {
        let len = self.buffer.len();
        proof {
            assert(0 <= self.width as int * self.height as int <= 65535 * 65535) by (nonlinear_arith)
                requires
                    self.width <= 65535,
                    self.height <= 65535,
            ;
            assert(-65535 * 0x8000_0000 <= self.width as int * p.y as int <= 65535 * 0x8000_0000)
                by (nonlinear_arith)
                requires
                    0 <= self.width <= 65535,
                    -0x8000_0000 <= p.y < 0x8000_0000,
            ;
        }
        let idx: i64 = self.width as i64 * p.y as i64 + p.x as i64;
        if p.isrendered && 0 <= idx && idx < len as i64 {
            self.buffer[idx as usize].color = p.color;
        }
        proof {
            assert(self@.colors() =~= paint_pixel(old(self)@.colors(), old(self)@.width, *p));
        }
    }

    /// Draws the pixels of `g` in their order.
    pub fn paint_vector(&mut self, g: &Vec<Pixel>)
        requires
            old(self).wf(),
        ensures
            final(self).wf(),
            final(self)@.same_grid(old(self)@),
            final(self)@.colors() == paint_group(old(self)@.colors(), old(self)@.width, g@),
    {
        let n = g.len();
        let mut i: usize = 0;
        while i < n
            invariant
                n == g@.len(),
                i <= n,
                self.wf(),
                self@.same_grid(old(self)@),
                self@.colors() == paint_group(
                    old(self)@.colors(),
                    old(self)@.width,
                    g@.subrange(0, i as int),
                ),
            decreases n - i,
        {
            self.paint(&g[i]);
            proof {
                assert(g@.subrange(0, i + 1).drop_last() =~= g@.subrange(0, i as int));
            }
            i += 1;
        }
        proof {
            assert(g@.subrange(0, n as int) =~= g@);
        }
    }

    /// Draws every pixel of every group, group by group: a sparse update in
    /// which the last pixel drawn on a cell decides its colour.
    pub fn blit(&mut self, groups: &Vec<SpriteVector>)
        requires
            old(self).wf(),
        ensures
            final(self).wf(),
            final(self)@.same_grid(old(self)@),
            final(self)@.colors() == paint_groups(
                old(self)@.colors(),
                old(self)@.width,
                views_of(groups@),
            ),
    {
        let n = groups.len();
        let mut i: usize = 0;
        while i < n
            invariant
                n == groups@.len(),
                i <= n,
                self.wf(),
                self@.same_grid(old(self)@),
                self@.colors() == paint_groups(
                    old(self)@.colors(),
                    old(self)@.width,
                    views_of(groups@).subrange(0, i as int),
                ),
            decreases n - i,
        {
            self.paint_vector(&groups[i]);
            proof {
                assert(views_of(groups@).subrange(0, i + 1).drop_last() =~= views_of(
                    groups@,
                ).subrange(0, i as int));
            }
            i += 1;
        }
        proof {
            assert(views_of(groups@).subrange(0, n as int) =~= views_of(groups@));
        }
    }

    /// Draws the groups that a layer has staged.
    pub fn write_layer(&mut self, layer: &Layer)
        requires
            old(self).wf(),
        ensures
            final(self).wf(),
            final(self)@.same_grid(old(self)@),
            final(self)@.colors() == paint_groups(
                old(self)@.colors(),
                old(self)@.width,
                layer.groups(),
            ),
    {
        self.blit(&layer.buffer);
    }

    /// The pixels of `sprite` with its origin put at (x_world, y_world):
    /// those that fall outside the buffer are dropped, silently.
    pub fn to_worldspace(&self, x_world: u16, y_world: u16, sprite: &Sprite) -> (r: SpriteVector)
        ensures
            r@ == placed(sprite.pixels@, x_world as int, y_world as int, self@.width, self@.height),
    {
        let mut pixels: SpriteVector = Vec::new();
        let n = sprite.pixels.len();
        let mut i: usize = 0;
        while i < n
            invariant
                n == sprite.pixels@.len(),
                i <= n,
                pixels@ == placed(
                    sprite.pixels@.subrange(0, i as int),
                    x_world as int,
                    y_world as int,
                    self@.width,
                    self@.height,
                ),
            decreases n - i,
        {
            let pixel = sprite.pixels[i];
            let x_pixel: i64 = pixel.x as i64 + x_world as i64;
            let y_pixel: i64 = pixel.y as i64 + y_world as i64;
            proof {
                let pred = |p: Pixel| inside(p, x_world as int, y_world as int, self@.width, self@.height);
                assert(sprite.pixels@.subrange(0, i + 1) =~= sprite.pixels@.subrange(0, i as int).push(pixel));
                sprite.pixels@.subrange(0, i as int).lemma_filter_push(pixel, pred);
            }
            if 0 <= x_pixel && x_pixel < self.width as i64 && 0 <= y_pixel && y_pixel < self.height as i64 {
                pixels.push(
                    Pixel {
                        x: x_pixel as i32,
                        y: y_pixel as i32,
                        color: pixel.color,
                        isrendered: pixel.isrendered,
                    },
                );
            }
            proof {
                assert(pixels@ =~= placed(
                    sprite.pixels@.subrange(0, i + 1),
                    x_world as int,
                    y_world as int,
                    self@.width,
                    self@.height,
                ));
            }
            i += 1;
        }
        proof {
            assert(sprite.pixels@.subrange(0, n as int) =~= sprite.pixels@);
        }
        pixels
    }

    /// Draws `sprite` with its origin at (x, y), straight into the buffer.
    pub fn write(&mut self, x: u16, y: u16, sprite: &Sprite)
        requires
            old(self).wf(),
        ensures
            final(self).wf(),
            final(self)@.same_grid(old(self)@),
            final(self)@.colors() == paint_group(
                old(self)@.colors(),
                old(self)@.width,
                placed(sprite.pixels@, x as int, y as int, old(self)@.width, old(self)@.height),
            ),
    {
        let sprite_worldspace = self.to_worldspace(x, y, sprite);
        self.paint_vector(&sprite_worldspace);
    }

    /// Gives every cell the background colour again.
    pub fn reset(&mut self)
        requires
            old(self).wf(),
        ensures
            final(self).wf(),
            final(self)@.same_grid(old(self)@),
            forall|i: int|
                0 <= i < final(self)@.cells.len() ==> (#[trigger] final(self)@.cells[i]).color
                    == final(self)@.background,
    {
        let n = self.buffer.len();
        let mut i: usize = 0;
        while i < n
            invariant
                n == self@.cells.len(),
                i <= n,
                self.wf(),
                self@.same_grid(old(self)@),
                forall|j: int| 0 <= j < i ==> (#[trigger] self@.cells[j]).color == self@.background,
            decreases n - i,
        {
            let background = self.color;
            self.buffer[i].color = background;
            i += 1;
        }
    }
}

} // verus!
