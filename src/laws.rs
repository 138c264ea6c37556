use vstd::prelude::*;
use crate::color::Color;
use crate::sprite::{Pixel, Sprite, SpriteError, Metadata, compiles_to, decimal};
use crate::framebuffer::{
    lands, raw_index, paint_group, paint_groups, inside, translate, placed,
};
use crate::stack::{Layer, Layerstack, LayerID, composite, dense, slot_at, taken};

verus! {

/// A grid with one cell per declared cell compiles, into one pixel per cell:
/// cell `i` at column `i % width` of row `i / width`, inside the sprite.
pub proof fn lemma_compile_fits(grid: Seq<char>, m: &Metadata, r: Result<Sprite, SpriteError>)
    requires
        compiles_to(grid, m, r),
        grid.len() == m.area(),
    ensures
        r is Ok,
        r->Ok_0.wf(),
        r->Ok_0.pixels@.len() == m.width as int * m.height as int,
        forall|i: int|
            0 <= i < grid.len() ==> {
                &&& (#[trigger] r->Ok_0.pixels@[i]).x == i % m.width as int
                &&& r->Ok_0.pixels@[i].y == i / m.width as int
                &&& r->Ok_0.pixels@[i].color == m.cell_color(grid[i])
                &&& r->Ok_0.pixels@[i].isrendered == (grid[i] != m.transparent)
            },
{
    let s = r->Ok_0;
    let w = m.width as int;
    let h = m.height as int;
    assert forall|i: int| 0 <= i < s.pixels@.len() implies {
        &&& 0 <= #[trigger] s.pixels@[i].x < s.width
        &&& 0 <= s.pixels@[i].y < s.height
        &&& s.pixels@[i].x == i % w
        &&& s.pixels@[i].y == i / w
    } by {
        assert(w > 0) by (nonlinear_arith)
            requires
                0 <= i < w * h,
                0 <= h,
        ;
        assert(0 <= i % w < w && 0 <= i / w < h) by (nonlinear_arith)
            requires
                0 <= i < w * h,
                w > 0,
        ;
    }
}

/// A grid whose number of cells differs from the declared size fails with
/// both numbers, and its message holds both in decimal.
pub proof fn lemma_compile_mismatch(grid: Seq<char>, m: &Metadata, r: Result<Sprite, SpriteError>)
    requires
        compiles_to(grid, m, r),
        grid.len() != m.area(),
        grid.len() <= usize::MAX,
    ensures
        r == Err::<Sprite, SpriteError>(
            SpriteError::AspectMismatch { expected: m.area() as usize, actual: grid.len() as usize },
        ),
        exists|k: int|
            0 <= k && k + decimal(m.area() as nat).len() <= r->Err_0.text().len() && #[trigger] r->Err_0.text().subrange(
                k,
                k + decimal(m.area() as nat).len(),
            ) == decimal(m.area() as nat),
        exists|k: int|
            0 <= k && k + decimal(grid.len()).len() <= r->Err_0.text().len() && #[trigger] r->Err_0.text().subrange(
                k,
                k + decimal(grid.len()).len(),
            ) == decimal(grid.len()),
{
    assert(0 <= m.area() <= 65535 * 65535) by (nonlinear_arith)
        requires
            m.area() == m.width as int * m.height as int,
            m.width <= 65535,
            m.height <= 65535,
    ;
    assert((m.area() as usize) as nat == m.area() as nat);
    assert((grid.len() as usize) as nat == grid.len());
    let e = r->Err_0.text();
    let pre = "declared size does not match the glyph grid: expected "@;
    let mid = " cells, real "@;
    let post = "; the palette may be missing an entry"@;
    let de = decimal(m.area() as nat);
    let da = decimal(grid.len());
    assert(e == pre + de + mid + da + post);
    let k1 = pre.len() as int;
    assert(e.subrange(k1, k1 + de.len()) =~= de);
    let k2 = (pre.len() + de.len() + mid.len()) as int;
    assert(e.subrange(k2, k2 + da.len()) =~= da);
}

/// Compiling is deterministic: two results for the same grid and metadata
/// agree pixel for pixel, in size and centre, and in their error.
pub proof fn lemma_compile_deterministic(
    grid: Seq<char>,
    m: &Metadata,
    r1: Result<Sprite, SpriteError>,
    r2: Result<Sprite, SpriteError>,
)
    requires
        compiles_to(grid, m, r1),
        compiles_to(grid, m, r2),
    ensures
        r1 is Ok <==> r2 is Ok,
        r1 is Ok ==> {
            &&& r1->Ok_0.pixels@ == r2->Ok_0.pixels@
            &&& r1->Ok_0.width == r2->Ok_0.width
            &&& r1->Ok_0.height == r2->Ok_0.height
            &&& r1->Ok_0.center == r2->Ok_0.center
            &&& r1->Ok_0.tag == r2->Ok_0.tag
        },
        r1 is Err ==> r1 == r2,
{
}

proof fn lemma_filter_none(s: Seq<Pixel>, pred: spec_fn(Pixel) -> bool)
    requires
        forall|i: int| 0 <= i < s.len() ==> !pred(#[trigger] s[i]),
    ensures
        s.filter(pred).len() == 0,
    decreases s.len(),
{
    reveal(Seq::filter);
    if s.len() > 0 {
        lemma_filter_none(s.drop_last(), pred);
        assert(!pred(s[s.len() - 1]));
    }
}

proof fn lemma_filter_all(s: Seq<Pixel>, pred: spec_fn(Pixel) -> bool)
    requires
        forall|i: int| 0 <= i < s.len() ==> pred(#[trigger] s[i]),
    ensures
        s.filter(pred) == s,
    decreases s.len(),
{
    reveal(Seq::filter);
    if s.len() > 0 {
        lemma_filter_all(s.drop_last(), pred);
        assert(pred(s[s.len() - 1]));
        assert(s.drop_last().push(s.last()) =~= s);
    }
}

/// A sprite put where none of its pixels falls inside the buffer leaves
/// nothing to draw.
pub proof fn lemma_place_outside(pixels: Seq<Pixel>, dx: int, dy: int, width: int, height: int)
    requires
        forall|i: int| 0 <= i < pixels.len() ==> !inside(#[trigger] pixels[i], dx, dy, width, height),
    ensures
        placed(pixels, dx, dy, width, height).len() == 0,
{
    lemma_filter_none(pixels, |p: Pixel| inside(p, dx, dy, width, height));
}

/// A sprite put at the origin of a buffer at least as large as itself keeps
/// every pixel, unchanged: `width * height` of them.
pub proof fn lemma_place_origin(sprite: &Sprite, width: int, height: int)
    requires
        sprite.wf(),
        sprite.width <= width,
        sprite.height <= height,
    ensures
        placed(sprite.pixels@, 0, 0, width, height) == sprite.pixels@,
        placed(sprite.pixels@, 0, 0, width, height).len() == sprite.width as int * sprite.height as int,
{
    let px = sprite.pixels@;
    let pred = |p: Pixel| inside(p, 0, 0, width, height);
    assert forall|i: int| 0 <= i < px.len() implies pred(#[trigger] px[i]) by {
        assert(0 <= px[i].x < sprite.width);
    }
    lemma_filter_all(px, pred);
    assert(px.map_values(|p: Pixel| translate(p, 0, 0)) =~= px);
}

/// The ranks of the layers, slot by slot.
pub open spec fn ranks(layers: Seq<Layer>) -> Seq<int> {
    layers.map_values(|l: Layer| l.stack_pos as int)
}

/// In a dense stack, which every `layer_add`, `layer_move` and
/// `layer_remove` leaves behind, the multiset of ranks is exactly
/// {0, 1, ..., n - 1}: each value once.
pub proof fn lemma_ranks_multiset(layers: Seq<Layer>)
    requires
        dense(layers),
    ensures
        ranks(layers).to_multiset() == Seq::new(layers.len(), |k: int| k).to_multiset(),
{
    broadcast use vstd::seq_lib::group_to_multiset_ensures;

    let a = ranks(layers);
    let b = Seq::new(layers.len(), |k: int| k);
    assert(a.no_duplicates()) by {
        assert forall|i: int, j: int| 0 <= i < a.len() && 0 <= j < a.len() && i != j implies a[i]
            != a[j] by {
            assert(layers[i].stack_pos != layers[j].stack_pos);
        }
    }
    a.lemma_multiset_has_no_duplicates();
    b.lemma_multiset_has_no_duplicates();
    assert forall|v: int| a.to_multiset().count(v) == b.to_multiset().count(v) by {
        if a.contains(v) {
            let i = choose|i: int| 0 <= i < a.len() && a[i] == v;
            assert(layers[i].stack_pos < layers.len());
            assert(b[v] == v);
            assert(b.contains(v));
        }
        if b.contains(v) {
            let k = choose|k: int| 0 <= k < b.len() && b[k] == v;
            assert(taken(layers, v));
            let i = choose|i: int| 0 <= i < layers.len() && layers[i].stack_pos == v;
            assert(a[i] == v);
            assert(a.contains(v));
        }
    }
    assert(a.to_multiset() =~= b.to_multiset());
}

/// Whether some rendered pixel of `g` is drawn on cell `idx`.
pub open spec fn hits(g: Seq<Pixel>, width: int, len: int, idx: int) -> bool {
    exists|i: int|
        0 <= i < g.len() && lands(g[i], width, len) && raw_index(width, g[i].x as int, g[i].y as int)
            == idx
}

/// Whether the layer `l` is drawn and draws on cell `idx`.
pub open spec fn layer_hits(l: Layer, width: int, len: int, idx: int) -> bool {
    &&& l.is_rendered
    &&& exists|k: int| 0 <= k < l.groups().len() && hits(#[trigger] l.groups()[k], width, len, idx)
}

proof fn lemma_group(s1: Seq<Color>, s2: Seq<Color>, width: int, g: Seq<Pixel>, idx: int)
    requires
        s1.len() == s2.len(),
        0 <= idx < s1.len(),
    ensures
        paint_group(s1, width, g).len() == s1.len(),
        !hits(g, width, s1.len() as int, idx) ==> paint_group(s1, width, g)[idx] == s1[idx],
        hits(g, width, s1.len() as int, idx) ==> paint_group(s1, width, g)[idx] == paint_group(
            s2,
            width,
            g,
        )[idx],
    decreases g.len(),
{
    if g.len() > 0 {
        let rest = g.drop_last();
        lemma_group(s1, s2, width, rest, idx);
        lemma_group_len(s2, width, rest);
        let p = g.last();
        let len = s1.len() as int;
        if hits(g, width, len, idx) && !(lands(p, width, len) && raw_index(
            width,
            p.x as int,
            p.y as int,
        ) == idx) {
            let i = choose|i: int|
                0 <= i < g.len() && lands(g[i], width, len) && raw_index(
                    width,
                    g[i].x as int,
                    g[i].y as int,
                ) == idx;
            assert(rest[i] == g[i]);
            assert(hits(rest, width, len, idx));
        }
        if hits(rest, width, len, idx) {
            assert(hits(g, width, len, idx)) by {
                let i = choose|i: int|
                    0 <= i < rest.len() && lands(rest[i], width, len) && raw_index(
                        width,
                        rest[i].x as int,
                        rest[i].y as int,
                    ) == idx;
                assert(g[i] == rest[i]);
            }
        }
        if !hits(g, width, len, idx) {
            assert(!(lands(p, width, len) && raw_index(width, p.x as int, p.y as int) == idx)) by {
                if lands(p, width, len) && raw_index(width, p.x as int, p.y as int) == idx {
                    assert(g[g.len() - 1] == p);
                }
            }
        }
    }
}

proof fn lemma_groups(s1: Seq<Color>, s2: Seq<Color>, width: int, gs: Seq<Seq<Pixel>>, idx: int)
    requires
        s1.len() == s2.len(),
        0 <= idx < s1.len(),
    ensures
        paint_groups(s1, width, gs).len() == s1.len(),
        (forall|k: int| 0 <= k < gs.len() ==> !hits(#[trigger] gs[k], width, s1.len() as int, idx))
            ==> paint_groups(s1, width, gs)[idx] == s1[idx],
        (exists|k: int| 0 <= k < gs.len() && hits(#[trigger] gs[k], width, s1.len() as int, idx))
            ==> paint_groups(s1, width, gs)[idx] == paint_groups(s2, width, gs)[idx],
    decreases gs.len(),
{
    if gs.len() > 0 {
        let rest = gs.drop_last();
        let g = gs.last();
        let len = s1.len() as int;
        lemma_groups(s1, s2, width, rest, idx);
        lemma_groups_len(s2, width, rest);
        let a1 = paint_groups(s1, width, rest);
        let a2 = paint_groups(s2, width, rest);
        lemma_group(a1, a2, width, g, idx);
        lemma_group(a2, a1, width, g, idx);
        if forall|k: int| 0 <= k < gs.len() ==> !hits(#[trigger] gs[k], width, len, idx) {
            assert(!hits(g, width, len, idx)) by {
                assert(!hits(gs[gs.len() - 1], width, len, idx));
            }
            assert forall|k: int| 0 <= k < rest.len() implies !hits(#[trigger] rest[k], width, len, idx) by {
                assert(rest[k] == gs[k]);
                assert(!hits(gs[k], width, len, idx));
            }
        }
        if !hits(g, width, len, idx) && exists|k: int|
            0 <= k < gs.len() && hits(#[trigger] gs[k], width, len, idx) {
            let k = choose|k: int| 0 <= k < gs.len() && hits(#[trigger] gs[k], width, len, idx);
            assert(k != gs.len() - 1);
            assert(rest[k] == gs[k]);
        }
    }
}

/// The cell colours after drawing one layer of a composite.
spec fn draw_layer(acc: Seq<Color>, width: int, l: Layer) -> Seq<Color> {
    if l.is_rendered {
        paint_groups(acc, width, l.groups())
    } else {
        acc
    }
}

proof fn lemma_composite_unfold(cells: Seq<Color>, width: int, order: Seq<Layer>)
    requires
        order.len() > 0,
    ensures
        composite(cells, width, order) == draw_layer(
            composite(cells, width, order.drop_last()),
            width,
            order.last(),
        ),
{
}

proof fn lemma_composite(cells: Seq<Color>, width: int, order: Seq<Layer>, j: int, idx: int)
    requires
        0 <= j < order.len(),
        0 <= idx < cells.len(),
        layer_hits(order[j], width, cells.len() as int, idx),
        forall|m: int|
            j < m < order.len() ==> !layer_hits(#[trigger] order[m], width, cells.len() as int, idx),
    ensures
        composite(cells, width, order).len() == cells.len(),
        composite(cells, width, order)[idx] == paint_groups(cells, width, order[j].groups())[idx],
    decreases order.len(),
{
    let len = cells.len() as int;
    let rest = order.drop_last();
    let l = order.last();
    lemma_composite_unfold(cells, width, order);
    if order.len() - 1 == j {
        lemma_composite_len(cells, width, rest);
        let acc = composite(cells, width, rest);
        lemma_groups(acc, cells, width, l.groups(), idx);
    } else {
        assert forall|m: int| j < m < rest.len() implies !layer_hits(
            #[trigger] rest[m],
            width,
            len,
            idx,
        ) by {
            assert(rest[m] == order[m]);
        }
        assert(rest[j] == order[j]);
        lemma_composite(cells, width, rest, j, idx);
        let acc = composite(cells, width, rest);
        assert(!layer_hits(order[order.len() - 1], width, len, idx));
        if l.is_rendered {
            lemma_groups(acc, acc, width, l.groups(), idx);
            assert forall|k: int| 0 <= k < l.groups().len() implies !hits(
                #[trigger] l.groups()[k],
                width,
                len,
                idx,
            ) by {
                assert(!layer_hits(l, width, len, idx));
            }
        }
    }
}

proof fn lemma_composite_len(cells: Seq<Color>, width: int, order: Seq<Layer>)
    ensures
        composite(cells, width, order).len() == cells.len(),
    decreases order.len(),
{
    if order.len() > 0 {
        lemma_composite_unfold(cells, width, order);
        lemma_composite_len(cells, width, order.drop_last());
        let acc = composite(cells, width, order.drop_last());
        if order.last().is_rendered {
            lemma_groups_len(acc, width, order.last().groups());
        }
    }
}

proof fn lemma_group_len(s: Seq<Color>, width: int, g: Seq<Pixel>)
    ensures
        paint_group(s, width, g).len() == s.len(),
    decreases g.len(),
{
    if g.len() > 0 {
        lemma_group_len(s, width, g.drop_last());
    }
}

proof fn lemma_groups_len(s: Seq<Color>, width: int, gs: Seq<Seq<Pixel>>)
    ensures
        paint_groups(s, width, gs).len() == s.len(),
    decreases gs.len(),
{
    if gs.len() > 0 {
        lemma_groups_len(s, width, gs.drop_last());
        lemma_group_len(paint_groups(s, width, gs.drop_last()), width, gs.last());
    }
}

/// Painter's algorithm: where layer `b` lies above layer `a`, both draw on
/// cell `idx`, and no layer above `b` draws there, the cell ends with the
/// colour that `b` gives it, whatever lies below.
pub proof fn lemma_painter(stack: &Layerstack, a: LayerID, b: LayerID, idx: int)
    requires
        stack.wf(),
        stack.contains(a),
        stack.contains(b),
        stack.layer(a).stack_pos < stack.layer(b).stack_pos,
        0 <= idx < stack.frame().cells.len(),
        layer_hits(stack.layer(a), stack.frame().width, stack.frame().cells.len() as int, idx),
        layer_hits(stack.layer(b), stack.frame().width, stack.frame().cells.len() as int, idx),
        forall|i: int|
            0 <= i < stack.layers().len() && (#[trigger] stack.layers()[i]).stack_pos
                > stack.layer(b).stack_pos ==> !layer_hits(
                stack.layers()[i],
                stack.frame().width,
                stack.frame().cells.len() as int,
                idx,
            ),
    ensures
        composite(stack.frame().colors(), stack.frame().width, stack.render_order())[idx]
            == paint_groups(stack.frame().colors(), stack.frame().width, stack.layer(b).groups())[idx],
{
    let layers = stack.layers();
    let order = stack.render_order();
    let cells = stack.frame().colors();
    let width = stack.frame().width;
    let len = stack.frame().cells.len() as int;
    let sb = stack.slot(b);
    stack.lemma_storage();
    assert(stack.ids().contains(b));
    assert(0 <= sb < layers.len()) by {
        let i = choose|i: int| 0 <= i < stack.ids().len() && stack.ids()[i] == b;
    }
    let j = layers[sb].stack_pos as int;
    assert(taken(layers, j));
    let sj = slot_at(layers, j);
    assert(layers[sj].stack_pos == j);
    assert(sj == sb);
    assert(order[j] == layers[sb]);
    assert forall|m: int| j < m < order.len() implies !layer_hits(#[trigger] order[m], width, len, idx) by {
        assert(taken(layers, m));
        let s = slot_at(layers, m);
        assert(layers[s].stack_pos == m);
        assert(order[m] == layers[s]);
    }
    lemma_composite(cells, width, order, j, idx);
}

} // verus!
