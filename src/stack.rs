use vstd::prelude::*;
use vstd::set_lib::{lemma_int_range, lemma_len_subset, set_int_range};
use crate::color::Color;
use crate::sprite::{Pixel, Sprite};
use crate::framebuffer::{FrameBuffer, FrameView, SpriteVector, views_of, paint_groups, placed};

verus! {

/// Names a layer of a `Layerstack`.
pub type LayerID = u16;

/// The pixel groups staged at one depth for the current frame, with the
/// layer's rank in the stack and whether it is drawn.
pub struct Layer {
    pub buffer: Vec<SpriteVector>,
    pub stack_pos: u32,
    pub is_rendered: bool,
}

/// Where a layer at `p` goes when the slot `start` is opened.
pub open spec fn shift_up(p: int, start: int) -> int {
    if p >= start {
        p + 1
    } else {
        p
    }
}

/// Where a layer at `p` goes when the slot `start` is closed.
pub open spec fn shift_down(p: int, start: int) -> int {
    if p > start {
        p - 1
    } else {
        p
    }
}

impl Layer {
    /// The staged groups as pixel sequences.
    pub open spec fn groups(&self) -> Seq<Seq<Pixel>> {
        views_of(self.buffer@)
    }

    /// This layer at rank `p`, with its groups and visibility.
    pub open spec fn at(self, p: int) -> Layer {
        Layer { buffer: self.buffer, stack_pos: p as u32, is_rendered: self.is_rendered }
    }

    /// This layer, drawn or not as `v` says.
    pub open spec fn shown(self, v: bool) -> Layer {
        Layer { buffer: self.buffer, stack_pos: self.stack_pos, is_rendered: v }
    }

    /// A layer that holds the same rank and visibility, with its staged
    /// groups `gs`.
    pub open spec fn holds(self, other: Layer, gs: Seq<Seq<Pixel>>) -> bool {
        &&& self.stack_pos == other.stack_pos
        &&& self.is_rendered == other.is_rendered
        &&& self.groups() == gs
    }
}

/// The cell colours after painting the visible layers of `order`, first to
/// last: back to front.
pub open spec fn composite(cells: Seq<Color>, width: int, order: Seq<Layer>) -> Seq<Color> {
    order.fold_left(
        cells,
        |acc: Seq<Color>, l: Layer|
            if l.is_rendered {
                paint_groups(acc, width, l.groups())
            } else {
                acc
            },
    )
}

/// The ranks in `layers` are exactly 0, 1, ..., n - 1: each below n, no two
/// equal, and each of them taken.
pub open spec fn dense(layers: Seq<Layer>) -> bool {
    &&& forall|i: int| 0 <= i < layers.len() ==> (#[trigger] layers[i]).stack_pos < layers.len()
    &&& forall|i: int, j: int|
        0 <= i < layers.len() && 0 <= j < layers.len() && i != j ==> (#[trigger] layers[i]).stack_pos
            != (#[trigger] layers[j]).stack_pos
    &&& forall|k: int| 0 <= k < layers.len() ==> #[trigger] taken(layers, k)
}

/// Some layer holds rank `k`.
pub open spec fn taken(layers: Seq<Layer>, k: int) -> bool {
    exists|i: int| 0 <= i < layers.len() && layers[i].stack_pos == k
}

/// The slot of the layer at rank `k`.
pub open spec fn slot_at(layers: Seq<Layer>, k: int) -> int {
    choose|i: int| 0 <= i < layers.len() && layers[i].stack_pos == k
}

/// The layers from the back (rank 0) to the front.
pub open spec fn by_rank(layers: Seq<Layer>) -> Seq<Layer> {
    Seq::new(layers.len(), |k: int| layers[slot_at(layers, k)])
}

/// There are no more distinct ids than values of `LayerID`.
proof fn lemma_ids_bound(ids: Seq<LayerID>)
    requires
        ids.no_duplicates(),
    ensures
        ids.len() <= 65536,
{
    let wide = ids.map_values(|x: LayerID| x as int);
    assert(wide.no_duplicates()) by {
        assert forall|i: int, j: int|
            0 <= i < wide.len() && 0 <= j < wide.len() && i != j implies wide[i] != wide[j] by {
            assert(ids[i] != ids[j]);
        }
    }
    wide.unique_seq_to_set();
    assert(wide.to_set().subset_of(set_int_range(0, 65536))) by {
        assert forall|v: int| wide.to_set().contains(v) implies set_int_range(0, 65536).contains(v) by {
            assert(wide.contains(v));
            let i = choose|i: int| 0 <= i < wide.len() && wide[i] == v;
            assert(wide[i] == ids[i] as int);
        }
    }
    lemma_int_range(0, 65536);
    lemma_len_subset(wide.to_set(), set_int_range(0, 65536));
}

/// Ranks that are kept layer by layer keep the stack dense.
proof fn lemma_same_ranks(before: Seq<Layer>, after: Seq<Layer>)
    requires
        dense(before),
        after.len() == before.len(),
        forall|i: int| 0 <= i < before.len() ==> (#[trigger] after[i]).stack_pos == before[i].stack_pos,
    ensures
        dense(after),
{
    assert forall|k: int| 0 <= k < after.len() implies #[trigger] taken(after, k) by {
        assert(taken(before, k));
        let i = choose|i: int| 0 <= i < before.len() && before[i].stack_pos == k;
        assert(after[i].stack_pos == k);
    }
    assert forall|i: int, j: int|
        0 <= i < after.len() && 0 <= j < after.len() && i != j implies (#[trigger] after[i]).stack_pos
        != (#[trigger] after[j]).stack_pos by {
        assert(before[i].stack_pos != before[j].stack_pos);
    }
    assert forall|i: int| 0 <= i < after.len() implies (#[trigger] after[i]).stack_pos < after.len() by {
        assert(before[i].stack_pos < before.len());
    }
}

/// Opening the slot `pos <= n` and putting a new layer there keeps the
/// stack dense.
proof fn lemma_add_dense(before: Seq<Layer>, after: Seq<Layer>, pos: int)
    requires
        dense(before),
        0 <= pos <= before.len(),
        after.len() == before.len() + 1,
        forall|i: int|
            0 <= i < before.len() ==> (#[trigger] after[i]).stack_pos == shift_up(
                before[i].stack_pos as int,
                pos,
            ),
        after[before.len() as int].stack_pos == pos,
    ensures
        dense(after),
{
    let n = before.len() as int;
    assert forall|i: int| 0 <= i < after.len() implies (#[trigger] after[i]).stack_pos < after.len() by {
        if i < n {
            assert(before[i].stack_pos < n);
        }
    }
    assert forall|i: int, j: int|
        0 <= i < after.len() && 0 <= j < after.len() && i != j implies (#[trigger] after[i]).stack_pos
        != (#[trigger] after[j]).stack_pos by {
        if i < n && j < n {
            assert(before[i].stack_pos != before[j].stack_pos);
        }
    }
    assert forall|k: int| 0 <= k < after.len() implies #[trigger] taken(after, k) by {
        if k == pos {
            assert(after[n].stack_pos == k);
        } else {
            let q = if k < pos { k } else { k - 1 };
            assert(taken(before, q));
            let i = choose|i: int| 0 <= i < before.len() && before[i].stack_pos == q;
            assert(after[i].stack_pos == k);
        }
    }
}

/// Taking out the layer in slot `t` and closing its rank keeps the stack
/// dense.
proof fn lemma_remove_dense(before: Seq<Layer>, after: Seq<Layer>, t: int)
    requires
        dense(before),
        0 <= t < before.len(),
        after.len() == before.len() - 1,
        forall|i: int|
            0 <= i < after.len() ==> (#[trigger] after[i]).stack_pos == shift_down(
                before[if i < t { i } else { i + 1 }].stack_pos as int,
                before[t].stack_pos as int,
            ),
    ensures
        dense(after),
{
    let n = before.len() as int;
    let pt = before[t].stack_pos as int;
    assert forall|i: int| 0 <= i < after.len() implies (#[trigger] after[i]).stack_pos < after.len() by {
        let src = if i < t { i } else { i + 1 };
        assert(before[src].stack_pos < n);
        assert(before[src].stack_pos != pt);
    }
    assert forall|i: int, j: int|
        0 <= i < after.len() && 0 <= j < after.len() && i != j implies (#[trigger] after[i]).stack_pos
        != (#[trigger] after[j]).stack_pos by {
        let si = if i < t { i } else { i + 1 };
        let sj = if j < t { j } else { j + 1 };
        assert(before[si].stack_pos != before[sj].stack_pos);
        assert(before[si].stack_pos != pt);
        assert(before[sj].stack_pos != pt);
    }
    assert forall|k: int| 0 <= k < after.len() implies #[trigger] taken(after, k) by {
        let q = if k < pt { k } else { k + 1 };
        assert(taken(before, q));
        let s = choose|s: int| 0 <= s < before.len() && before[s].stack_pos == q;
        assert(s != t);
        let i = if s < t { s } else { s - 1 };
        assert(after[i].stack_pos == k);
    }
}

/// Closing the rank of the layer in slot `t`, opening the slot `np` and
/// putting that layer there keeps the stack dense.
proof fn lemma_move_dense(before: Seq<Layer>, after: Seq<Layer>, t: int, np: int)
    requires
        dense(before),
        0 <= t < before.len(),
        0 <= np < before.len(),
        after.len() == before.len(),
        forall|i: int|
            0 <= i < before.len() && i != t ==> (#[trigger] after[i]).stack_pos == shift_up(
                shift_down(before[i].stack_pos as int, before[t].stack_pos as int),
                np,
            ),
        after[t].stack_pos == np,
    ensures
        dense(after),
{
    let n = before.len() as int;
    let pt = before[t].stack_pos as int;
    assert forall|i: int| 0 <= i < after.len() implies (#[trigger] after[i]).stack_pos < after.len() by {
        if i != t {
            assert(before[i].stack_pos < n);
            assert(before[i].stack_pos != pt);
        }
    }
    assert forall|i: int, j: int|
        0 <= i < after.len() && 0 <= j < after.len() && i != j implies (#[trigger] after[i]).stack_pos
        != (#[trigger] after[j]).stack_pos by {
        assert(before[i].stack_pos != before[j].stack_pos);
        assert(i != t ==> before[i].stack_pos != pt);
        assert(j != t ==> before[j].stack_pos != pt);
    }
    assert forall|k: int| 0 <= k < after.len() implies #[trigger] taken(after, k) by {
        if k == np {
            assert(after[t].stack_pos == k);
        } else {
            let closed = if k < np { k } else { k - 1 };
            let q = if closed < pt { closed } else { closed + 1 };
            assert(taken(before, q));
            let s = choose|s: int| 0 <= s < before.len() && before[s].stack_pos == q;
            assert(s != t);
            assert(after[s].stack_pos == k);
        }
    }
}

enum ShiftDirection {
    Up,
    Down,
}

/// All layers with the frame buffer that they are flattened into. Layers are
/// named by id and ordered by a dense rank; the order of drawing is cached
/// and rebuilt after the ranks change.
pub struct Layerstack {
    ids: Vec<LayerID>,
    layers: Vec<Layer>,
    framebuffer: FrameBuffer,
    sequence: Vec<LayerID>,
    sequence_rebuild: bool,
}

impl Layerstack {
    /// The ids of the layers, slot by slot.
    pub closed spec fn ids(&self) -> Seq<LayerID> {
        self.ids@
    }

    /// The layers, slot by slot.
    pub closed spec fn layers(&self) -> Seq<Layer> {
        self.layers@
    }

    pub closed spec fn frame(&self) -> FrameView {
        self.framebuffer@
    }

    /// Whether the cached order of drawing is stale.
    pub closed spec fn sequence_dirty(&self) -> bool {
        self.sequence_rebuild
    }

    pub open spec fn contains(&self, id: LayerID) -> bool {
        self.ids().contains(id)
    }

    /// The slot of the layer `id`.
    pub open spec fn slot(&self, id: LayerID) -> int {
        self.ids().index_of(id)
    }

    pub open spec fn layer(&self, id: LayerID) -> Layer {
        self.layers()[self.slot(id)]
    }

    /// The layers in the order they are drawn: back to front.
    pub open spec fn render_order(&self) -> Seq<Layer> {
        by_rank(self.layers())
    }

    /// The ranks of the layers are 0, 1, ..., n - 1.
    pub open spec fn is_dense(&self) -> bool {
        dense(self.layers())
    }

    /// The cached order lists the ids by rank.
    closed spec fn sequence_ok(&self) -> bool {
        &&& self.sequence@.len() == self.layers@.len()
        &&& forall|k: int|
            0 <= k < self.sequence@.len() ==> {
                &&& self.ids@.contains(#[trigger] self.sequence@[k])
                &&& self.layers@[self.ids@.index_of(self.sequence@[k])].stack_pos == k
            }
    }

    /// One layer per id, no id twice, a well-formed frame buffer and, while
    /// it is not stale, a correct cached order.
    pub closed spec fn storage_ok(&self) -> bool {
        &&& self.ids@.len() == self.layers@.len()
        &&& self.ids@.no_duplicates()
        &&& self.framebuffer.wf()
        &&& !self.sequence_rebuild ==> self.sequence_ok()
    }

    pub open spec fn wf(&self) -> bool {
        &&& self.storage_ok()
        &&& self.is_dense()
    }

    /// What a well-formed stack gives its users: one layer per id, no id
    /// twice, and a well-formed frame buffer.
    pub proof fn lemma_storage(&self)
        requires
            self.storage_ok(),
        ensures
            self.ids().len() == self.layers().len(),
            self.ids().no_duplicates(),
            self.frame().wf(),
    {
    }

    proof fn lemma_slot(ids: Seq<LayerID>, j: int)
        requires
            ids.no_duplicates(),
            0 <= j < ids.len(),
        ensures
            ids.contains(ids[j]),
            ids.index_of(ids[j]) == j,
    {
        let id = ids[j];
        assert(ids.contains(id));
        let i = ids.index_of(id);
        assert(0 <= i < ids.len() && ids[i] == id);
    }

    proof fn lemma_slot_at(layers: Seq<Layer>, i: int)
        requires
            dense(layers),
            0 <= i < layers.len(),
        ensures
            slot_at(layers, layers[i].stack_pos as int) == i,
    {
        let k = layers[i].stack_pos as int;
        assert(taken(layers, k));
        let j = slot_at(layers, k);
        assert(layers[j].stack_pos == k);
    }

    /// An empty stack drawing into a `width` by `height` buffer whose cells
    /// have the colour `bg_color`.
    pub fn new(width: u16, height: u16, bg_color: Color) -> (r: Layerstack)
        ensures
            r.wf(),
            r.sequence_dirty(),
            r.ids().len() == 0,
            r.layers().len() == 0,
            r.frame().width == width,
            r.frame().height == height,
            r.frame().background == bg_color,
            forall|i: int|
                0 <= i < r.frame().cells.len() ==> (#[trigger] r.frame().cells[i]).color == bg_color,
    {
        Layerstack {
            ids: Vec::new(),
            layers: Vec::new(),
            framebuffer: FrameBuffer::new(width, height, bg_color),
            sequence: Vec::new(),
            sequence_rebuild: true,
        }
    }

    /// The frame buffer that the layers are flattened into.
    pub fn framebuffer(&self) -> (r: &FrameBuffer)
        ensures
            r@ == self.frame(),
            r.wf() == self.frame().wf(),
    {
        &self.framebuffer
    }

    /// The number of layers.
    pub fn len(&self) -> (r: usize)
        requires
            self.storage_ok(),
        ensures
            r == self.ids().len(),
    {
        self.ids.len()
    }

    /// Whether the layer `id` exists.
    pub fn has_layer(&self, id: LayerID) -> (r: bool)
        requires
            self.storage_ok(),
        ensures
            r == self.contains(id),
    {
        self.find(id).is_some()
    }

    /// The slot of the layer `id`, if there is one.
    fn find(&self, id: LayerID) -> (r: Option<usize>)
        requires
            self.storage_ok(),
        ensures
            r matches Some(i) ==> i == self.slot(id) && self.contains(id) && i < self.ids().len(),
            r is None ==> !self.contains(id),
    {
        let n = self.ids.len();
        let mut i: usize = 0;
        while i < n
            invariant
                self.storage_ok(),
                n == self.ids@.len(),
                i <= n,
                forall|j: int| 0 <= j < i ==> self.ids@[j] != id,
            decreases n - i,
        {
            if self.ids[i] == id {
                proof {
                    Self::lemma_slot(self.ids@, i as int);
                }
                return Some(i);
            }
            i += 1;
        }
        None
    }

    /// The slot of the layer `id`, which must exist: a missing layer is a
    /// fault of the caller.
    fn slot_of(&self, id: LayerID) -> (r: usize)
        requires
            self.storage_ok(),
            self.contains(id),
        ensures
            r == self.slot(id),
            r < self.ids().len(),
    {
        match self.find(id) {
            Some(i) => i,
            None => {
                proof {
                    assert(false);
                }
                0
            },
        }
    }

    /// The layer `id`.
    pub fn layer_fetch(&self, id: &LayerID) -> (r: &Layer)
        requires
            self.storage_ok(),
            self.contains(*id),
        ensures
            *r == self.layer(*id),
    {
        let i = self.slot_of(*id);
        &self.layers[i]
    }

    /// Moves ranks relative to `starting_pos`. `Up` moves every rank at or
    /// above it up by one, opening that slot; `Down` moves every rank above it
    /// down by one, closing that slot. The cached order becomes stale.
    fn layer_shift(&mut self, starting_pos: u32, direction: ShiftDirection)
        requires
            old(self).storage_ok(),
            direction is Up ==> forall|i: int|
                0 <= i < old(self).layers().len() ==> (#[trigger] old(self).layers()[i]).stack_pos
                    < u32::MAX,
        ensures
            final(self).storage_ok(),
            final(self).sequence_dirty(),
            final(self).ids() == old(self).ids(),
            final(self).frame() == old(self).frame(),
            final(self).layers().len() == old(self).layers().len(),
            forall|i: int|
                0 <= i < old(self).layers().len() ==> #[trigger] final(self).layers()[i] == old(
                    self,
                ).layers()[i].at(
                    if direction is Up {
                        shift_up(old(self).layers()[i].stack_pos as int, starting_pos as int)
                    } else {
                        shift_down(old(self).layers()[i].stack_pos as int, starting_pos as int)
                    },
                ),
    {
        self.sequence_rebuild = true;
        let n = self.layers.len();
        let mut i: usize = 0;
        while i < n
            invariant
                n == self.layers@.len(),
                n == old(self).layers@.len(),
                i <= n,
                self.sequence_rebuild,
                self.ids@ == old(self).ids@,
                self.framebuffer@ == old(self).framebuffer@,
                self.framebuffer.wf(),
                self.ids@.len() == n,
                self.ids@.no_duplicates(),
                direction is Up ==> forall|j: int|
                    0 <= j < n ==> (#[trigger] old(self).layers()[j]).stack_pos < u32::MAX,
                forall|j: int| i <= j < n ==> #[trigger] self.layers@[j] == old(self).layers@[j],
                forall|j: int|
                    0 <= j < i ==> #[trigger] self.layers@[j] == old(self).layers@[j].at(
                        if direction is Up {
                            shift_up(old(self).layers@[j].stack_pos as int, starting_pos as int)
                        } else {
                            shift_down(old(self).layers@[j].stack_pos as int, starting_pos as int)
                        },
                    ),
            decreases n - i,
        {
            let p = self.layers[i].stack_pos;
            match direction {
                ShiftDirection::Up => {
                    if p >= starting_pos {
                        proof {
                            assert(old(self).layers()[i as int].stack_pos < u32::MAX);
                        }
                        self.layers[i].stack_pos = p + 1;
                    }
                },
                ShiftDirection::Down => {
                    if p > starting_pos {
                        self.layers[i].stack_pos = p - 1;
                    }
                },
            }
            i += 1;
        }
    }

    /// Lists the ids by rank: for each rank from the back, the layer that
    /// holds it.
    pub fn rebuild_sequence(&mut self)
        requires
            old(self).wf(),
        ensures
            final(self).wf(),
            !final(self).sequence_dirty(),
            final(self).ids() == old(self).ids(),
            final(self).layers() == old(self).layers(),
            final(self).frame() == old(self).frame(),
    {
        self.sequence_rebuild = true;
        self.sequence = Vec::new();
        let n = self.layers.len();
        let mut position: usize = 0;
        while position < n
            invariant
                n == self.layers@.len(),
                position <= n,
                self.sequence_rebuild,
                self.ids@ == old(self).ids@,
                self.layers@ == old(self).layers@,
                self.framebuffer@ == old(self).framebuffer@,
                self.framebuffer.wf(),
                self.ids@.len() == n,
                self.ids@.no_duplicates(),
                dense(self.layers@),
                self.sequence@.len() == position,
                forall|k: int|
                    0 <= k < position ==> {
                        &&& self.ids@.contains(#[trigger] self.sequence@[k])
                        &&& self.layers@[self.ids@.index_of(self.sequence@[k])].stack_pos == k
                    },
            decreases n - position,
        {
            let ghost mut found: bool = false;
            let mut j: usize = 0;
            while j < n
                invariant
                    n == self.layers@.len(),
                    position < n,
                    j <= n,
                    self.sequence_rebuild,
                    self.ids@ == old(self).ids@,
                    self.layers@ == old(self).layers@,
                    self.framebuffer@ == old(self).framebuffer@,
                    self.framebuffer.wf(),
                    self.ids@.len() == n,
                    self.ids@.no_duplicates(),
                    dense(self.layers@),
                    self.sequence@.len() == position + if found { 1int } else { 0int },
                    forall|k: int|
                        0 <= k < position ==> {
                            &&& self.ids@.contains(#[trigger] self.sequence@[k])
                            &&& self.layers@[self.ids@.index_of(self.sequence@[k])].stack_pos == k
                        },
                    found ==> {
                        &&& self.ids@.contains(self.sequence@[position as int])
                        &&& self.ids@.index_of(self.sequence@[position as int]) < j
                        &&& self.layers@[self.ids@.index_of(self.sequence@[position as int])].stack_pos
                            == position
                    },
                    !found ==> forall|i: int| 0 <= i < j ==> (#[trigger] self.layers@[i]).stack_pos != position,
                decreases n - j,
            {
                if self.layers[j].stack_pos as usize == position {
                    let id = self.ids[j];
                    proof {
                        Self::lemma_slot(self.ids@, j as int);
                        if found {
                            let s = self.ids@.index_of(self.sequence@[position as int]);
                            assert(self.layers@[s].stack_pos != self.layers@[j as int].stack_pos);
                        }
                        found = true;
                    }
                    self.sequence.push(id);
                }
                j += 1;
            }
            proof {
                assert(taken(self.layers@, position as int));
                if !found {
                    let i = choose|i: int| 0 <= i < n && self.layers@[i].stack_pos == position;
                    assert(self.layers@[i].stack_pos != position);
                }
            }
            position += 1;
        }
        self.sequence_rebuild = false;
    }

    /// Adds an empty, visible layer `layer_id` at rank `pos`, moving the
    /// layers at or above that rank up by one. Nothing changes when
    /// `layer_id` already exists.
    pub fn layer_add(&mut self, layer_id: LayerID, pos: u16)
        requires
            old(self).wf(),
            !old(self).contains(layer_id) ==> pos <= old(self).ids().len(),
        ensures
            final(self).wf(),
            final(self).frame() == old(self).frame(),
            old(self).contains(layer_id) ==> {
                &&& final(self).sequence_dirty() == old(self).sequence_dirty()
                &&& final(self).ids() == old(self).ids()
                &&& final(self).layers() == old(self).layers()
            },
            final(self).is_dense(),
            !old(self).contains(layer_id) ==> {
                &&& final(self).sequence_dirty()
                &&& final(self).ids() == old(self).ids().push(layer_id)
                &&& final(self).layers().len() == old(self).layers().len() + 1
                &&& forall|i: int|
                    0 <= i < old(self).layers().len() ==> #[trigger] final(self).layers()[i] == old(
                        self,
                    ).layers()[i].at(shift_up(old(self).layers()[i].stack_pos as int, pos as int))
                &&& final(self).layers().last().stack_pos == pos
                &&& final(self).layers().last().is_rendered
                &&& final(self).layers().last().groups().len() == 0
            },
    {
        if self.has_layer(layer_id) {
            return;
        }
        proof {
            lemma_ids_bound(self.ids@);
            assert(!self.ids@.push(layer_id).contains(layer_id) ==> false) by {
                assert(self.ids@.push(layer_id)[self.ids@.len() as int] == layer_id);
            }
            assert(self.ids@.push(layer_id).no_duplicates());
            lemma_ids_bound(self.ids@.push(layer_id));
        }
        self.layer_shift(pos as u32, ShiftDirection::Up);
        let ghost shifted = self.layers@;
        self.ids.push(layer_id);
        self.layers.push(Layer { buffer: Vec::new(), stack_pos: pos as u32, is_rendered: true });
        proof {
            lemma_add_dense(old(self).layers@, self.layers@, pos as int);
            assert(self.layers@.last().groups() =~= Seq::<Seq<Pixel>>::empty());
        }
    }

    /// Moves the layer `layer_id` to rank `new_pos`: the slot of its former
    /// rank is closed, the slot `new_pos` is opened, and the layer is put
    /// there. The other layers keep their order.
    pub fn layer_move(&mut self, layer_id: LayerID, new_pos: u16)
        requires
            old(self).wf(),
            old(self).contains(layer_id),
            new_pos < old(self).ids().len(),
        ensures
            final(self).wf(),
            final(self).is_dense(),
            final(self).sequence_dirty(),
            final(self).ids() == old(self).ids(),
            final(self).frame() == old(self).frame(),
            final(self).layers().len() == old(self).layers().len(),
            final(self).layer(layer_id) == old(self).layer(layer_id).at(new_pos as int),
            forall|i: int|
                0 <= i < old(self).layers().len() && i != old(self).slot(layer_id)
                    ==> #[trigger] final(self).layers()[i] == old(self).layers()[i].at(
                    shift_up(
                        shift_down(
                            old(self).layers()[i].stack_pos as int,
                            old(self).layer(layer_id).stack_pos as int,
                        ),
                        new_pos as int,
                    ),
                ),
    {
        let t = self.slot_of(layer_id);
        let old_pos = self.layers[t].stack_pos;
        proof {
            lemma_ids_bound(self.ids@);
        }
        self.layer_shift(old_pos, ShiftDirection::Down);
        self.layer_shift(new_pos as u32, ShiftDirection::Up);
        self.layers[t].stack_pos = new_pos as u32;
        proof {
            lemma_move_dense(old(self).layers@, self.layers@, t as int, new_pos as int);
        }
    }

    /// Takes the layer `layer_id` out and moves the layers above its rank
    /// down by one.
    pub fn layer_remove(&mut self, layer_id: LayerID)
        requires
            old(self).wf(),
            old(self).contains(layer_id),
        ensures
            final(self).wf(),
            final(self).is_dense(),
            final(self).sequence_dirty(),
            !final(self).contains(layer_id),
            final(self).frame() == old(self).frame(),
            final(self).ids() == old(self).ids().remove(old(self).slot(layer_id)),
            final(self).layers().len() == old(self).layers().len() - 1,
            forall|i: int|
                0 <= i < final(self).layers().len() ==> #[trigger] final(self).layers()[i] == old(
                    self,
                ).layers().remove(old(self).slot(layer_id))[i].at(
                    shift_down(
                        old(self).layers().remove(old(self).slot(layer_id))[i].stack_pos as int,
                        old(self).layer(layer_id).stack_pos as int,
                    ),
                ),
    {
        let t = self.slot_of(layer_id);
        let void_pos = self.layers[t].stack_pos;
        self.sequence_rebuild = true;
        self.ids.remove(t);
        self.layers.remove(t);
        proof {
            let before = old(self).ids@;
            assert forall|i: int, j: int|
                0 <= i < self.ids@.len() && 0 <= j < self.ids@.len() && i != j implies self.ids@[i]
                != self.ids@[j] by {
                let si = if i < t { i } else { i + 1 };
                let sj = if j < t { j } else { j + 1 };
                assert(before[si] != before[sj]);
            }
            assert(!self.ids@.contains(layer_id)) by {
                if self.ids@.contains(layer_id) {
                    let i = choose|i: int| 0 <= i < self.ids@.len() && self.ids@[i] == layer_id;
                    let si = if i < t { i } else { i + 1 };
                    assert(before[si] == before[t as int]);
                }
            }
        }
        self.layer_shift(void_pos, ShiftDirection::Down);
        proof {
            lemma_remove_dense(old(self).layers@, self.layers@, t as int);
        }
    }

    /// Shows or hides the layer `layer_id`; ranks and the cached order stay.
    pub fn layer_set_visibility(&mut self, layer_id: LayerID, isvisible: bool)
        requires
            old(self).wf(),
            old(self).contains(layer_id),
        ensures
            final(self).wf(),
            final(self).sequence_dirty() == old(self).sequence_dirty(),
            final(self).ids() == old(self).ids(),
            final(self).frame() == old(self).frame(),
            final(self).layers() == old(self).layers().update(
                old(self).slot(layer_id),
                old(self).layer(layer_id).shown(isvisible),
            ),
    {
        let t = self.slot_of(layer_id);
        self.layers[t].is_rendered = isvisible;
        proof {
            lemma_same_ranks(old(self).layers@, self.layers@);
        }
    }

    /// Appends a group of pixels to the layer `layer_id`.
    fn layer_push(&mut self, layer_id: LayerID, group: SpriteVector)
        requires
            old(self).wf(),
            old(self).contains(layer_id),
        ensures
            final(self).wf(),
            final(self).sequence_dirty() == old(self).sequence_dirty(),
            final(self).ids() == old(self).ids(),
            final(self).frame() == old(self).frame(),
            final(self).layers().len() == old(self).layers().len(),
            forall|i: int|
                0 <= i < old(self).layers().len() && i != old(self).slot(layer_id)
                    ==> #[trigger] final(self).layers()[i] == old(self).layers()[i],
            final(self).layer(layer_id).holds(
                old(self).layer(layer_id),
                old(self).layer(layer_id).groups().push(group@),
            ),
    {
        let t = self.slot_of(layer_id);
        self.layers[t].buffer.push(group);
        proof {
            lemma_same_ranks(old(self).layers@, self.layers@);
            assert(self.layers@[t as int].groups() =~= old(self).layers@[t as int].groups().push(
                group@,
            ));
        }
    }

    /// Stages `sprite` with its origin at (x, y) on the layer `layer_id`: its
    /// pixels that fall inside the frame buffer are moved to world space and
    /// appended as one group. The frame buffer itself is not touched.
    pub fn layer_write_sprite(&mut self, x: u16, y: u16, sprite: &Sprite, layer_id: LayerID)
        requires
            old(self).wf(),
            old(self).contains(layer_id),
        ensures
            final(self).wf(),
            final(self).sequence_dirty() == old(self).sequence_dirty(),
            final(self).ids() == old(self).ids(),
            final(self).frame() == old(self).frame(),
            final(self).layers().len() == old(self).layers().len(),
            forall|i: int|
                0 <= i < old(self).layers().len() && i != old(self).slot(layer_id)
                    ==> #[trigger] final(self).layers()[i] == old(self).layers()[i],
            final(self).layer(layer_id).holds(
                old(self).layer(layer_id),
                old(self).layer(layer_id).groups().push(
                    placed(
                        sprite.pixels@,
                        x as int,
                        y as int,
                        old(self).frame().width,
                        old(self).frame().height,
                    ),
                ),
            ),
    {
        let worldspace_spritevector = self.framebuffer.to_worldspace(x, y, sprite);
        self.layer_push(layer_id, worldspace_spritevector);
    }

    /// Stages one rendered pixel of colour `color` at (x, y) on the layer
    /// `layer_id`, as a group of its own.
    pub fn layer_direct_write(&mut self, x: u16, y: u16, color: Color, layer_id: LayerID)
        requires
            old(self).wf(),
            old(self).contains(layer_id),
        ensures
            final(self).wf(),
            final(self).sequence_dirty() == old(self).sequence_dirty(),
            final(self).ids() == old(self).ids(),
            final(self).frame() == old(self).frame(),
            final(self).layers().len() == old(self).layers().len(),
            forall|i: int|
                0 <= i < old(self).layers().len() && i != old(self).slot(layer_id)
                    ==> #[trigger] final(self).layers()[i] == old(self).layers()[i],
            final(self).layer(layer_id).holds(
                old(self).layer(layer_id),
                old(self).layer(layer_id).groups().push(
                    seq![Pixel { x: x as i32, y: y as i32, color: color, isrendered: true }],
                ),
            ),
    {
        let new_pixel = Pixel { x: x as i32, y: y as i32, color: color, isrendered: true };
        let group: SpriteVector = vec![new_pixel];
        proof {
            assert(group@ =~= seq![new_pixel]);
        }
        self.layer_push(layer_id, group);
    }

    /// Flattens the layers into the frame buffer: the visible ones are drawn
    /// from the back rank to the front one, each over what lies below it.
    /// The cached order is rebuilt first where it is stale.
    pub fn layerstack_rasterize(&mut self)
        requires
            old(self).wf(),
        ensures
            final(self).wf(),
            !final(self).sequence_dirty(),
            final(self).ids() == old(self).ids(),
            final(self).layers() == old(self).layers(),
            final(self).frame().same_grid(old(self).frame()),
            final(self).frame().colors() == composite(
                old(self).frame().colors(),
                old(self).frame().width,
                old(self).render_order(),
            ),
    {
        if self.sequence_rebuild {
            self.rebuild_sequence();
        }
        let ghost start = self.framebuffer@;
        let n = self.sequence.len();
        let mut k: usize = 0;
        while k < n
            invariant
                n == self.sequence@.len(),
                k <= n,
                self.wf(),
                !self.sequence_rebuild,
                self.ids@ == old(self).ids@,
                self.layers@ == old(self).layers@,
                start == old(self).framebuffer@,
                self.framebuffer@.same_grid(start),
                self.framebuffer@.colors() == composite(
                    start.colors(),
                    start.width,
                    by_rank(self.layers@).subrange(0, k as int),
                ),
            decreases n - k,
        {
            let id = self.sequence[k];
            let i = self.slot_of(id);
            proof {
                Self::lemma_slot_at(self.layers@, i as int);
                assert(by_rank(self.layers@)[k as int] == self.layers@[i as int]);
                assert(by_rank(self.layers@).subrange(0, k + 1).drop_last() =~= by_rank(
                    self.layers@,
                ).subrange(0, k as int));
            }
            if self.layers[i].is_rendered {
                self.framebuffer.write_layer(&self.layers[i]);
            }
            k += 1;
        }
        proof {
            assert(by_rank(self.layers@).subrange(0, n as int) =~= by_rank(self.layers@));
        }
    }

    /// Prepares the next frame: the frame buffer gets its background colour
    /// back and every layer drops its staged groups.
    pub fn wipe_buffers(&mut self)
        requires
            old(self).wf(),
        ensures
            final(self).wf(),
            final(self).sequence_dirty() == old(self).sequence_dirty(),
            final(self).ids() == old(self).ids(),
            final(self).layers().len() == old(self).layers().len(),
            forall|i: int|
                0 <= i < old(self).layers().len() ==> (#[trigger] final(self).layers()[i]).holds(
                    old(self).layers()[i],
                    Seq::empty(),
                ),
            final(self).frame().same_grid(old(self).frame()),
            forall|c: int|
                0 <= c < final(self).frame().cells.len()
                    ==> (#[trigger] final(self).frame().cells[c]).color
                    == final(self).frame().background,
    {
        self.framebuffer.reset();
        let n = self.layers.len();
        let mut i: usize = 0;
        while i < n
            invariant
                n == self.layers@.len(),
                n == old(self).layers@.len(),
                i <= n,
                self.ids@ == old(self).ids@,
                self.sequence@ == old(self).sequence@,
                self.sequence_rebuild == old(self).sequence_rebuild,
                self.framebuffer.wf(),
                self.framebuffer@.same_grid(old(self).framebuffer@),
                forall|c: int|
                    0 <= c < self.framebuffer@.cells.len() ==> (#[trigger] self.framebuffer@.cells[c]).color
                        == self.framebuffer@.background,
                forall|j: int| i <= j < n ==> #[trigger] self.layers@[j] == old(self).layers@[j],
                forall|j: int|
                    0 <= j < i ==> (#[trigger] self.layers@[j]).holds(old(self).layers@[j], Seq::empty()),
            decreases n - i,
        {
            self.layers[i].buffer = Vec::new();
            proof {
                assert(self.layers@[i as int].groups() =~= Seq::<Seq<Pixel>>::empty());
            }
            i += 1;
        }
        proof {
            lemma_same_ranks(old(self).layers@, self.layers@);
        }
    }
}

} // verus!
