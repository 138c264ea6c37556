use vstd::prelude::*;
use crate::color::Color;
use crate::sprite::Pixel;
use crate::framebuffer::FrameView;
use crate::stack::{Layerstack, composite};

verus! {

/// The cells of a frame that are drawn on the display, in row-major order.
pub open spec fn drawn(cells: Seq<Pixel>) -> Seq<Pixel> {
    cells.filter(|p: Pixel| p.isrendered)
}

/// The cells of `frame` with the colours `colors`.
pub open spec fn recolor(frame: FrameView, colors: Seq<Color>) -> Seq<Pixel> {
    Seq::new(
        frame.cells.len(),
        |i: int|
            Pixel {
                x: frame.cells[i].x,
                y: frame.cells[i].y,
                color: colors[i],
                isrendered: frame.cells[i].isrendered,
            },
    )
}

/// Runs frames: flattens the layer stack, hands out what is to be drawn and
/// clears the staged state for the next frame. The display itself, and the
/// pause between frames, belong to the caller.
pub struct Renderer {
    pub layerstack: Layerstack,
    framerate: u64,
    debug: bool,
}

impl Renderer {
    /// The pause after each frame, in milliseconds.
    pub closed spec fn frame_interval(&self) -> u64 {
        self.framerate
    }

    /// The layer stack that the renderer flattens.
    pub closed spec fn stack(&self) -> Layerstack {
        self.layerstack
    }

    pub closed spec fn debugging(&self) -> bool {
        self.debug
    }

    pub open spec fn wf(&self) -> bool {
        self.stack().wf()
    }

    /// A renderer for a `width` by `height` display with the background
    /// `bg_color`, pausing 40 ms after each frame.
    pub fn new(width: u16, height: u16, bg_color: Color) -> (r: Renderer)
        ensures
            r.wf(),
            r.frame_interval() == 40,
            !r.debugging(),
            r.stack().ids().len() == 0,
            r.stack().frame().width == width,
            r.stack().frame().height == height,
            r.stack().frame().background == bg_color,
            forall|i: int|
                0 <= i < r.stack().frame().cells.len()
                    ==> (#[trigger] r.stack().frame().cells[i]).color == bg_color,
    {
        Renderer { layerstack: Layerstack::new(width, height, bg_color), framerate: 40, debug: false }
    }

    /// Sets the pause after each frame, in milliseconds.
    pub fn set_framerate(&mut self, new_framerate: u64)
        ensures
            final(self).frame_interval() == new_framerate,
            final(self).debugging() == old(self).debugging(),
            final(self).stack() == old(self).stack(),
    {
        self.framerate = new_framerate;
    }

    /// The pause after each frame, in milliseconds.
    pub fn framerate(&self) -> (r: u64)
        ensures
            r == self.frame_interval(),
    {
        self.framerate
    }

    /// Turns debug logging on or off.
    pub fn debug_mode(&mut self, toggle: bool)
        ensures
            final(self).debugging() == toggle,
            final(self).frame_interval() == old(self).frame_interval(),
            final(self).stack() == old(self).stack(),
    {
        self.debug = toggle;
    }

    /// Whether debug logging is on.
    pub fn is_debug(&self) -> (r: bool)
        ensures
            r == self.debugging(),
    {
        self.debug
    }

    /// The cells of the frame buffer that are to be drawn, with their grid
    /// positions and colours.
    pub fn render_push(&self) -> (r: Vec<Pixel>)
        ensures
            r@ == drawn(self.stack().frame().cells),
    {
        let cells = self.layerstack.framebuffer().buffer();
        let n = cells.len();
        let mut out: Vec<Pixel> = Vec::new();
        let mut i: usize = 0;
        while i < n
            invariant
                n == cells@.len(),
                i <= n,
                out@ == drawn(cells@.subrange(0, i as int)),
            decreases n - i,
        {
            let pixel = cells[i];
            proof {
                assert(cells@.subrange(0, i + 1) =~= cells@.subrange(0, i as int).push(pixel));
                cells@.subrange(0, i as int).lemma_filter_push(pixel, |p: Pixel| p.isrendered);
            }
            if pixel.isrendered {
                out.push(pixel);
            }
            i += 1;
        }
        proof {
            assert(cells@.subrange(0, n as int) =~= cells@);
        }
        out
    }

    /// One frame: the layers are flattened into the frame buffer (the order
    /// of drawing is rebuilt first where it is stale), the cells to draw are
    /// returned, and the frame buffer and the layers' staged groups are
    /// cleared for the next frame.
    pub fn render_update(&mut self) -> (r: Vec<Pixel>)
        requires
            old(self).wf(),
        ensures
            final(self).wf(),
            !final(self).stack().sequence_dirty(),
            r@ == drawn(
                recolor(
                    old(self).stack().frame(),
                    composite(
                        old(self).stack().frame().colors(),
                        old(self).stack().frame().width,
                        old(self).stack().render_order(),
                    ),
                ),
            ),
            final(self).frame_interval() == old(self).frame_interval(),
            final(self).debugging() == old(self).debugging(),
            final(self).stack().ids() == old(self).stack().ids(),
            final(self).stack().layers().len() == old(self).stack().layers().len(),
            forall|i: int|
                0 <= i < old(self).stack().layers().len()
                    ==> (#[trigger] final(self).stack().layers()[i]).holds(
                    old(self).stack().layers()[i],
                    Seq::empty(),
                ),
            final(self).stack().frame().same_grid(old(self).stack().frame()),
            forall|c: int|
                0 <= c < final(self).stack().frame().cells.len()
                    ==> (#[trigger] final(self).stack().frame().cells[c]).color
                    == final(self).stack().frame().background,
    {
        self.layerstack.layerstack_rasterize();
        let frame = self.render_push();
        proof {
            let before = old(self).stack().frame();
            let after = self.stack().frame();
            assert(after.colors() =~= composite(before.colors(), before.width, old(self).stack().render_order()));
            assert(after.cells =~= recolor(before, after.colors()));
        }
        self.layerstack.wipe_buffers();
        frame
    }
}

} // verus!
