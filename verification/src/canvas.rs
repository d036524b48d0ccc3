use vstd::prelude::*;

use crate::layer::Layer;
use crate::stroke::{LayerId, PaintStrokeId};
use crate::MAX_LAYERS;

verus! {

/// An ordered, lazily grown collection of layers for one room, indexed by
/// layer id and bounded by `MAX_LAYERS`. Referencing a layer for the first
/// time materializes it and everything below it, never leaving gaps.
pub struct Canvas {
    pub(crate) layers: Vec<Layer>,
}

impl Canvas {
    /// The materialized layers, in layer-id order.
    pub closed spec fn layers_seq(self) -> Seq<Layer> {
        self.layers@
    }

    /// How many layers have been materialized.
    pub open spec fn layer_count_spec(self) -> int {
        self.layers_seq().len() as int
    }

    /// The layer at index `i`.
    pub open spec fn layer_at(self, i: int) -> Layer {
        self.layers_seq()[i]
    }

    /// At most `MAX_LAYERS` layers, each well-formed.
    pub open spec fn wf(self) -> bool {
        &&& self.layers_seq().len() <= MAX_LAYERS as int
        &&& forall|i: int| 0 <= i < self.layers_seq().len() ==> (#[trigger] self.layers_seq()[i]).wf()
    }

    /// An empty canvas with no layers yet.
    pub fn new() -> (r: Canvas)
        ensures
            r.wf(),
            r.layer_count_spec() == 0,
    {
        Canvas { layers: Vec::new() }
    }

    /// How many layers have been materialized.
    pub fn layer_count(&self) -> (n: usize)
        ensures
            n == self.layer_count_spec(),
    {
        self.layers.len()
    }

    /// A read-only view of the layer at `i`.
    pub fn layer_ref(&self, i: usize) -> (l: &Layer)
        requires
            (i as int) < self.layer_count_spec(),
        ensures
            *l == self.layer_at(i as int),
    {
        &self.layers[i]
    }

    /// The last stroke id handed out by the layer at `layer_id`.
    pub fn last_id_of(&self, layer_id: LayerId) -> (r: PaintStrokeId)
        requires
            (layer_id as int) < self.layer_count_spec(),
        ensures
            r == self.layer_at(layer_id as int).spec_last_id(),
    {
        self.layers[layer_id as usize].last_stroke_id()
    }

    /// Grows the canvas with default (empty) layers up to and including
    /// `layer_id`, if it does not exist yet.
    pub fn ensure_layer(&mut self, layer_id: LayerId)
        requires
            old(self).wf(),
            (layer_id as int) < MAX_LAYERS as int,
        ensures
            final(self).wf(),
            final(self).layer_count_spec() == if old(self).layer_count_spec() > layer_id as int {
                old(self).layer_count_spec()
            } else {
                layer_id as int + 1
            },
            forall|i: int|
                0 <= i < old(self).layer_count_spec() ==> final(self).layer_at(i) == old(
                    self,
                ).layer_at(i),
            forall|i: int|
                old(self).layer_count_spec() <= i < final(self).layer_count_spec() ==> (
                #[trigger] final(self).layer_at(i)).wf() && final(self).layer_at(i).strokes().len()
                    == 0 && final(self).layer_at(i).spec_last_id() == 0,
    {
        while self.layers.len() <= layer_id as usize
            invariant
                old(self).wf(),
                (layer_id as int) < MAX_LAYERS as int,
                old(self).layer_count_spec() <= self.layers@.len() <= layer_id as int + 1 || *self
                    == *old(self),
            self.layers@.len() >= old(self).layer_count_spec(),
                self.layers@.len() <= MAX_LAYERS as int,
                forall|i: int|
                    0 <= i < old(self).layer_count_spec() ==> self.layers@[i] == old(
                        self,
                    ).layers@[i],
                forall|i: int|
                    old(self).layer_count_spec() <= i < self.layers@.len() ==> (
                    #[trigger] self.layers@[i]).wf() && self.layers@[i].strokes().len() == 0
                        && self.layers@[i].spec_last_id() == 0,
                forall|i: int| 0 <= i < self.layers@.len() ==> (#[trigger] self.layers@[i]).wf(),
            decreases layer_id as int + 1 - self.layers@.len(),
        {
            self.layers.push(Layer::default());
        }
    }

    /// Returns the layer at `layer_id`, growing the canvas with default
    /// (empty) layers up to and including it if it does not yet exist.
    pub fn layer(&mut self, layer_id: LayerId) -> (l: &mut Layer)
        requires
            old(self).wf(),
            (layer_id as int) < MAX_LAYERS as int,
        ensures
            final(self).layer_count_spec() == if old(self).layer_count_spec() > layer_id as int {
                old(self).layer_count_spec()
            } else {
                layer_id as int + 1
            },
            (layer_id as int) < old(self).layer_count_spec() ==> *l == old(self).layer_at(
                layer_id as int,
            ),
            l.wf(),
            layer_id as int >= old(self).layer_count_spec() ==> l.strokes().len() == 0
                && l.spec_last_id() == 0,
            final(self).layer_at(layer_id as int) == *final(l),
            forall|i: int|
                0 <= i < old(self).layer_count_spec() && i != layer_id as int
                    ==> final(self).layer_at(i) == old(self).layer_at(i),
            forall|i: int|
                old(self).layer_count_spec() <= i < final(self).layer_count_spec() && i
                    != layer_id as int ==> (#[trigger] final(self).layer_at(i)).wf()
                    && final(self).layer_at(i).strokes().len() == 0
                    && final(self).layer_at(i).spec_last_id() == 0,
            final(l).wf() ==> final(self).wf(),
    {
        self.ensure_layer(layer_id);
        proof {
            assert(forall|i: int|
                0 <= i < self.layers@.len() ==> self.layer_at(i) == #[trigger] self.layers@[i]);
            assert(self.layer_at(layer_id as int).wf());
            if (layer_id as int) < old(self).layer_count_spec() {
                assert(self.layer_at(layer_id as int) == old(self).layer_at(layer_id as int));
            } else {
                assert(self.layer_at(layer_id as int).strokes().len() == 0);
            }
        }
        &mut self.layers[layer_id as usize]
    }
}

} // verus!
