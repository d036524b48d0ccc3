use vstd::prelude::*;

use crate::geom::Offset;
use crate::stroke::{stroke_views, PaintStroke, PaintStrokeId, StrokeView, UserId};
use crate::tile_ops::{
    distinct_seq, find_paintstroke_tile_offsets, footprint_contains, stroke_in_bounds,
};
use crate::UNDO_SEARCH_DEPTH;

verus! {

/// One bucket of the spatial index: the ids of the strokes whose footprint
/// contains `offset`, in ascending id (that is, creation) order.
pub(crate) struct TileEntry {
    pub(crate) offset: Offset,
    pub(crate) stroke_ids: Vec<PaintStrokeId>,
}

/// One drawing layer: the authoritative, append-only (except for undo) list
/// of its strokes, the tile index derived from it, and the last id handed
/// out. Strokes are stored once, in `paint_strokes`; the tile buckets refer
/// to them by id.
pub struct Layer {
    pub(crate) paint_strokes: Vec<PaintStroke>,
    pub(crate) tiles: Vec<TileEntry>,
    pub(crate) last_id: PaintStrokeId,
}

/// Appending to a sequence adds exactly the appended element to its
/// membership.
proof fn lemma_push_contains<A>(s: Seq<A>, x: A)
    ensures
        forall|y: A| #[trigger] s.push(x).contains(y) <==> (s.contains(y) || y == x),
{
    assert forall|y: A| #[trigger] s.push(x).contains(y) implies (s.contains(y) || y == x) by {
        let j = choose|j: int| 0 <= j < s.push(x).len() && s.push(x)[j] == y;
        if j < s.len() {
            assert(s[j] == y);
        }
    }
    assert forall|y: A| (s.contains(y) || y == x) implies #[trigger] s.push(x).contains(y) by {
        if s.contains(y) {
            let j = choose|j: int| 0 <= j < s.len() && s[j] == y;
            assert(s.push(x)[j] == y);
        } else {
            assert(s.push(x)[s.len() as int] == y);
        }
    }
}

/// Whether the given bucket sequence lists stroke `id` under tile `t`.
spec fn prev_has(tiles: Seq<TileEntry>, t: Offset, id: PaintStrokeId) -> bool {
    exists|b: int|
        0 <= b < tiles.len() && (#[trigger] tiles[b]).offset == t && tiles[b].stroke_ids@.contains(
            id,
        )
}

/// Whether `strokes` holds, at some index, a stroke with id `id` whose
/// footprint contains tile `t`.
pub open spec fn stroke_entry_ok(strokes: Seq<StrokeView>, id: PaintStrokeId, t: Offset) -> bool {
    exists|i: int|
        0 <= i < strokes.len() && (#[trigger] strokes[i]).id == id && footprint_contains(
            strokes[i],
            t,
        )
}

impl Layer {
    /// The authoritative stroke sequence, in creation order.
    pub closed spec fn strokes(self) -> Seq<StrokeView> {
        stroke_views(self.paint_strokes@)
    }

    /// The id assigned to the most recently created stroke (0 before any).
    /// Ids of removed strokes are never reused.
    pub closed spec fn spec_last_id(self) -> PaintStrokeId {
        self.last_id
    }

    /// Whether the spatial index lists stroke `id` under tile `t`.
    pub closed spec fn tile_has(self, t: Offset, id: PaintStrokeId) -> bool {
        exists|a: int|
            0 <= a < self.tiles@.len() && (#[trigger] self.tiles@[a]).offset == t
                && self.tiles@[a].stroke_ids@.contains(id)
    }

    /// The layer invariant: stroke ids are positive, at most `last_id`, and
    /// strictly increasing along the list; every stroke fits the index's
    /// coordinate range; tile buckets have distinct offsets and strictly
    /// ascending id lists; and the index lists exactly the pairs (t, s)
    /// with t in the footprint of s.
    pub closed spec fn wf(self) -> bool {
        &&& forall|i: int, j: int|
            0 <= i < j < self.strokes().len() ==> (#[trigger] self.strokes()[i]).id
                < (#[trigger] self.strokes()[j]).id
        &&& forall|i: int|
            0 <= i < self.strokes().len() ==> 1 <= (#[trigger] self.strokes()[i]).id
                <= self.last_id
        &&& forall|i: int|
            0 <= i < self.strokes().len() ==> stroke_in_bounds(#[trigger] self.strokes()[i])
        &&& forall|a: int, b: int|
            0 <= a < b < self.tiles@.len() ==> (#[trigger] self.tiles@[a]).offset
                != (#[trigger] self.tiles@[b]).offset
        &&& forall|a: int, k1: int, k2: int|
            0 <= a < self.tiles@.len() && 0 <= k1 < k2 < self.tiles@[a].stroke_ids@.len()
                ==> (#[trigger] self.tiles@[a].stroke_ids@[k1]) < (#[trigger] self.tiles@[
                a
            ].stroke_ids@[k2])
        &&& forall|a: int, k: int|
            0 <= a < self.tiles@.len() && 0 <= k < self.tiles@[a].stroke_ids@.len()
                ==> stroke_entry_ok(
                self.strokes(),
                #[trigger] self.tiles@[a].stroke_ids@[k],
                self.tiles@[a].offset,
            )
        &&& forall|i: int, t: Offset|
            0 <= i < self.strokes().len() && #[trigger] footprint_contains(self.strokes()[i], t)
                ==> self.tile_has(t, self.strokes()[i].id)
    }

    /// The strokes of a well-formed layer carry strictly ascending ids
    /// along the list: each stroke stands once, in creation order.
    pub proof fn lemma_strokes_ascending(self)
        requires
            self.wf(),
        ensures
            forall|i: int, j: int|
                0 <= i < j < self.strokes().len() ==> (#[trigger] self.strokes()[i]).id < (
                #[trigger] self.strokes()[j]).id,
    {
    }

    /// Distinct strokes of a well-formed layer never share an id.
    pub proof fn lemma_ids_unique(self)
        requires
            self.wf(),
        ensures
            forall|i: int, j: int|
                0 <= i < self.strokes().len() && 0 <= j < self.strokes().len() && i != j ==> (
                #[trigger] self.strokes()[i]).id != (#[trigger] self.strokes()[j]).id,
    {
    }

    /// How many strokes the layer currently holds.
    pub fn stroke_count(&self) -> (n: usize)
        ensures
            n == self.strokes().len(),
    {
        self.paint_strokes.len()
    }

    /// The id assigned to the most recently created stroke (0 before any).
    pub fn last_stroke_id(&self) -> (id: PaintStrokeId)
        ensures
            id == self.spec_last_id(),
    {
        self.last_id
    }
}

impl Default for Layer {
    /// An empty layer: no strokes, no indexed tiles, no id handed out yet.
    fn default() -> (r: Layer)
        ensures
            r.wf(),
            r.strokes().len() == 0,
            r.spec_last_id() == 0,
    {
        let r = Layer { paint_strokes: Vec::new(), tiles: Vec::new(), last_id: 0 };
        proof {
            assert(r.strokes().len() == 0);
        }
        r
    }
}

impl Layer {
    /// Assigns the next id to the draft stroke, stores it in the
    /// authoritative list, inserts its id into the bucket of every tile of
    /// its footprint, and returns the finalized stroke together with the
    /// affected tile set.
    pub fn add_paint_stroke(&mut self, paint_stroke: PaintStroke) -> (r: (PaintStroke, Vec<Offset>))
        requires
            old(self).wf(),
            stroke_in_bounds(paint_stroke@),
            old(self).spec_last_id() < u64::MAX,
        ensures
            final(self).wf(),
            final(self).spec_last_id() == old(self).spec_last_id() + 1,
            r.0@ == (StrokeView {
                id: (old(self).spec_last_id() + 1) as PaintStrokeId,
                user_id: paint_stroke@.user_id,
                brush: paint_stroke@.brush,
                points: paint_stroke@.points,
            }),
            final(self).strokes() == old(self).strokes().push(r.0@),
            distinct_seq(r.1@),
            forall|t: Offset| r.1@.contains(t) <==> footprint_contains(r.0@, t),
    {
        self.last_id = self.last_id + 1;
        let new_id = self.last_id;
        let mut s = paint_stroke;
        s.id = new_id;
        let ghost sv = s@;
        let tile_offsets = find_paintstroke_tile_offsets(&s);
        let mut m: usize = 0;
        while m < tile_offsets.len()
            invariant
                self.paint_strokes@ == old(self).paint_strokes@,
                self.last_id == new_id,
                new_id == old(self).spec_last_id() + 1,
                old(self).wf(),
                s@ == sv,
                sv.id == new_id,
                stroke_in_bounds(sv),
                distinct_seq(tile_offsets@),
                forall|t: Offset| tile_offsets@.contains(t) <==> footprint_contains(sv, t),
                m <= tile_offsets@.len(),
                forall|a: int, b: int|
                    0 <= a < b < self.tiles@.len() ==> (#[trigger] self.tiles@[a]).offset
                        != (#[trigger] self.tiles@[b]).offset,
                forall|a: int, k1: int, k2: int|
                    0 <= a < self.tiles@.len() && 0 <= k1 < k2 < self.tiles@[a].stroke_ids@.len()
                        ==> (#[trigger] self.tiles@[a].stroke_ids@[k1]) < (#[trigger] self.tiles@[
                        a
                    ].stroke_ids@[k2]),
                forall|a: int, k: int|
                    0 <= a < self.tiles@.len() && 0 <= k < self.tiles@[a].stroke_ids@.len() ==> {
                        let id = #[trigger] self.tiles@[a].stroke_ids@[k];
                        ||| (id <= old(self).spec_last_id() && stroke_entry_ok(
                            old(self).strokes(),
                            id,
                            self.tiles@[a].offset,
                        ))
                        ||| (id == new_id && footprint_contains(sv, self.tiles@[a].offset))
                    },
                forall|t: Offset, id: PaintStrokeId| #[trigger]
                    old(self).tile_has(t, id) ==> self.tile_has(t, id),
                forall|t: Offset| #[trigger]
                    self.tile_has(t, new_id) <==> tile_offsets@.take(m as int).contains(t),
            decreases tile_offsets@.len() - m,
        {
            let t = tile_offsets[m];
            let ghost tiles_before = self.tiles@;
            proof {
                assert(forall|t2: Offset, id: PaintStrokeId|
                    #![trigger prev_has(tiles_before, t2, id)]
                    self.tile_has(t2, id) <==> prev_has(tiles_before, t2, id));
                assert(tile_offsets@.take(m as int + 1) =~= tile_offsets@.take(m as int).push(t));
                assert(!tile_offsets@.take(m as int).contains(t)) by {
                    assert(forall|j: int|
                        0 <= j < m ==> tile_offsets@.take(m as int)[j] == #[trigger] tile_offsets@[j]);
                    assert(tile_offsets@[m as int] == t);
                }
            }
            match find_tile_index(&self.tiles, t) {
                Some(a) => {
                    proof {
                        // The bucket cannot already hold the new id.
                        assert(!self.tiles@[a as int].stroke_ids@.contains(new_id)) by {
                            if self.tiles@[a as int].stroke_ids@.contains(new_id) {
                                assert(self.tile_has(t, new_id));
                            }
                        }
                        // All of its ids are old, hence below the new id.
                        assert forall|k: int|
                            0 <= k < self.tiles@[a as int].stroke_ids@.len() implies #[trigger] self
                            .tiles@[a as int].stroke_ids@[k] < new_id by {
                            if self.tiles@[a as int].stroke_ids@[k] == new_id {
                                assert(self.tiles@[a as int].stroke_ids@.contains(new_id));
                            }
                        }
                    }
                    let ghost old_ids = tiles_before[a as int].stroke_ids@;
                    let entry = &mut self.tiles[a];
                    entry.stroke_ids.push(new_id);
                    proof {
                        lemma_push_contains(old_ids, new_id);
                        assert(self.tiles@.len() == tiles_before.len());
                        assert(self.tiles@[a as int].offset == t);
                        assert(self.tiles@[a as int].stroke_ids@ == old_ids.push(new_id));
                        assert(forall|b: int|
                            0 <= b < self.tiles@.len() && b != a ==> self.tiles@[b]
                                == #[trigger] tiles_before[b]);
                        // membership in the index after the push
                        assert forall|t2: Offset, id: PaintStrokeId| #[trigger]
                            self.tile_has(t2, id) implies (prev_has(tiles_before, t2, id) || (t2
                            == t && id == new_id)) by {
                            let b = choose|b: int|
                                0 <= b < self.tiles@.len() && (#[trigger] self.tiles@[b]).offset
                                    == t2 && self.tiles@[b].stroke_ids@.contains(id);
                            if b != a {
                                assert(tiles_before[b].offset == t2);
                            } else {
                                if id != new_id {
                                    assert(old_ids.contains(id));
                                    assert(tiles_before[a as int].offset == t2);
                                }
                            }
                        }
                        assert forall|t2: Offset, id: PaintStrokeId| (prev_has(
                            tiles_before,
                            t2,
                            id,
                        ) || (t2 == t && id == new_id)) implies #[trigger] self.tile_has(
                            t2,
                            id,
                        ) by {
                            if prev_has(tiles_before, t2, id) {
                                let b = choose|b: int|
                                    0 <= b < tiles_before.len() && (#[trigger] tiles_before[b]).offset == t2 && tiles_before[b].stroke_ids@.contains(id);
                                if b == a {
                                    assert(self.tiles@[b].stroke_ids@.contains(id));
                                    assert(self.tiles@[b].offset == t2);
                                } else {
                                    assert(self.tiles@[b] == tiles_before[b]);
                                }
                            } else {
                                assert(self.tiles@[a as int].stroke_ids@[old_ids.len() as int]
                                    == new_id);
                                assert(self.tiles@[a as int].stroke_ids@.contains(new_id));
                            }
                        }
                        assert(footprint_contains(sv, t));
                    }
                },
                None => {
                    let mut ids: Vec<PaintStrokeId> = Vec::new();
                    ids.push(new_id);
                    self.tiles.push(TileEntry { offset: t, stroke_ids: ids });
                    proof {
                        assert(self.tiles@.len() == tiles_before.len() + 1);
                        assert(forall|b: int|
                            0 <= b < tiles_before.len() ==> self.tiles@[b] == #[trigger] tiles_before[b]);
                        assert(self.tiles@[tiles_before.len() as int].offset == t);
                        assert(self.tiles@[tiles_before.len() as int].stroke_ids@
                            =~= seq![new_id]);
                        assert forall|t2: Offset, id: PaintStrokeId| #[trigger]
                            self.tile_has(t2, id) implies (prev_has(tiles_before, t2, id) || (t2
                            == t && id == new_id)) by {
                            let b = choose|b: int|
                                0 <= b < self.tiles@.len() && (#[trigger] self.tiles@[b]).offset
                                    == t2 && self.tiles@[b].stroke_ids@.contains(id);
                            if b < tiles_before.len() {
                                assert(tiles_before[b].offset == t2);
                            } else {
                                assert(self.tiles@[b].stroke_ids@ =~= seq![new_id]);
                                assert(id == new_id && t2 == t);
                            }
                        }
                        assert forall|t2: Offset, id: PaintStrokeId| (prev_has(
                            tiles_before,
                            t2,
                            id,
                        ) || (t2 == t && id == new_id)) implies #[trigger] self.tile_has(
                            t2,
                            id,
                        ) by {
                            if prev_has(tiles_before, t2, id) {
                                let b = choose|b: int|
                                    0 <= b < tiles_before.len() && (#[trigger] tiles_before[b]).offset == t2 && tiles_before[b].stroke_ids@.contains(id);
                                assert(self.tiles@[b] == tiles_before[b]);
                            } else {
                                assert(self.tiles@[tiles_before.len() as int].stroke_ids@[0]
                                    == new_id);
                                assert(self.tiles@[tiles_before.len() as int].stroke_ids@.contains(
                                    new_id,
                                ));
                            }
                        }
                        assert(footprint_contains(sv, t));
                    }
                },
            }
            proof {
                lemma_push_contains(tile_offsets@.take(m as int), t);
                assert forall|t2: Offset| #[trigger]
                    self.tile_has(t2, new_id) <==> tile_offsets@.take(m as int + 1).contains(
                    t2,
                ) by {
                    assert(self.tile_has(t2, new_id) <==> (prev_has(tiles_before, t2, new_id) || t2
                        == t));
                    assert(prev_has(tiles_before, t2, new_id) <==> tile_offsets@.take(
                        m as int,
                    ).contains(t2));
                }
            }
            m += 1;
        }
        let stored = s.clone();
        proof {
            assert(tile_offsets@.take(m as int) =~= tile_offsets@);
        }
        self.paint_strokes.push(s);
        proof {
            assert(self.strokes() =~= old(self).strokes().push(sv));
            let ns = self.strokes();
            let os = old(self).strokes();
            let n = os.len() as int;
            assert(forall|i: int| 0 <= i < n ==> ns[i] == #[trigger] os[i]);
            assert(ns[n] == sv);
            // the index is sound for the extended stroke list
            assert forall|a: int, k: int|
                0 <= a < self.tiles@.len() && 0 <= k < self.tiles@[a].stroke_ids@.len()
                implies stroke_entry_ok(
                ns,
                #[trigger] self.tiles@[a].stroke_ids@[k],
                self.tiles@[a].offset,
            ) by {
                let id = self.tiles@[a].stroke_ids@[k];
                let t = self.tiles@[a].offset;
                if id == new_id {
                    assert(ns[n].id == id && footprint_contains(ns[n], t));
                } else {
                    assert(stroke_entry_ok(os, id, t));
                    let i = choose|i: int|
                        0 <= i < os.len() && (#[trigger] os[i]).id == id && footprint_contains(
                            os[i],
                            t,
                        );
                    assert(ns[i].id == id && footprint_contains(ns[i], t));
                }
            }
            // and complete for it
            assert forall|i: int, t: Offset|
                0 <= i < ns.len() && #[trigger] footprint_contains(ns[i], t) implies self.tile_has(
                t,
                ns[i].id,
            ) by {
                if i < n {
                    assert(footprint_contains(os[i], t));
                    assert(old(self).tile_has(t, os[i].id));
                } else {
                    assert(tile_offsets@.contains(t));
                }
            }
        }
        (stored, tile_offsets)
    }
}

/// The subsequence of `strokes` whose footprint contains tile `t`, in the
/// original order.
pub open spec fn filter_tile(strokes: Seq<StrokeView>, t: Offset) -> Seq<StrokeView>
    decreases strokes.len(),
{
    if strokes.len() == 0 {
        Seq::empty()
    } else {
        let rest = filter_tile(strokes.drop_last(), t);
        if footprint_contains(strokes.last(), t) {
            rest.push(strokes.last())
        } else {
            rest
        }
    }
}

/// Whether some tile of `sub` lies in the footprint of `s`.
pub open spec fn stroke_visible(s: StrokeView, sub: Seq<Offset>) -> bool {
    exists|t: Offset| #[trigger] sub.contains(t) && footprint_contains(s, t)
}

/// The subsequence of `strokes` whose footprint meets the tile set `sub`,
/// in the original order.
pub open spec fn filter_visible(strokes: Seq<StrokeView>, sub: Seq<Offset>) -> Seq<StrokeView>
    decreases strokes.len(),
{
    if strokes.len() == 0 {
        Seq::empty()
    } else {
        let rest = filter_visible(strokes.drop_last(), sub);
        if stroke_visible(strokes.last(), sub) {
            rest.push(strokes.last())
        } else {
            rest
        }
    }
}

impl Layer {
    /// The strokes the index lists under tile `t`, as a sequence.
    pub open spec fn tile_strokes_spec(self, t: Offset) -> Seq<StrokeView> {
        filter_tile(self.strokes(), t)
    }

    /// The strokes of this layer visible through the tile set `sub`.
    pub open spec fn visible_strokes_spec(self, sub: Seq<Offset>) -> Seq<StrokeView> {
        filter_visible(self.strokes(), sub)
    }

    /// Gets all strokes belonging to a tile, in ascending stroke-id order
    /// (their creation order); empty if the tile has never been touched.
    /// Strokes removed by undo are not included.
    pub fn get_tile_paintstrokes(&self, tile_offset: &Offset) -> (r: Vec<PaintStroke>)
        requires
            self.wf(),
        ensures
            stroke_views(r@) == self.tile_strokes_spec(*tile_offset),
    {
        let mut r: Vec<PaintStroke> = Vec::new();
        let t = *tile_offset;
        match find_tile_index(&self.tiles, t) {
            None => {
                proof {
                    assert forall|i: int|
                        0 <= i < self.strokes().len() implies !footprint_contains(
                        #[trigger] self.strokes()[i],
                        t,
                    ) by {
                        if footprint_contains(self.strokes()[i], t) {
                            assert(self.tile_has(t, self.strokes()[i].id));
                        }
                    }
                    lemma_filter_tile_none(self.strokes(), t);
                    assert(stroke_views(r@) =~= self.tile_strokes_spec(t));
                }
                r
            },
            Some(a) => {
                let mut i: usize = 0;
                while i < self.paint_strokes.len()
                    invariant
                        self.wf(),
                        a < self.tiles@.len(),
                        self.tiles@[a as int].offset == t,
                        i <= self.strokes().len(),
                        stroke_views(r@) == filter_tile(self.strokes().take(i as int), t),
                    decreases self.paint_strokes@.len() - i,
                {
                    let ghost r_before = r@;
                    let ghost sv = self.strokes()[i as int];
                    let in_bucket = match ids_index_of(
                        &self.tiles[a].stroke_ids,
                        self.paint_strokes[i].id,
                    ) {
                        Some(_) => true,
                        None => false,
                    };
                    proof {
                        self.lemma_ids_unique();
                        if in_bucket {
                            assert(stroke_entry_ok(self.strokes(), sv.id, t));
                            let j = choose|j: int|
                                0 <= j < self.strokes().len() && (#[trigger] self.strokes()[j]).id
                                    == sv.id && footprint_contains(self.strokes()[j], t);
                            assert(j == i);
                            assert(footprint_contains(sv, t));
                        } else {
                            if footprint_contains(sv, t) {
                                assert(self.tile_has(t, sv.id));
                                let b = choose|b: int|
                                    0 <= b < self.tiles@.len() && (#[trigger] self.tiles@[b]).offset == t && self.tiles@[b].stroke_ids@.contains(sv.id);
                                assert(b == a);
                                assert(false);
                            }
                        }
                    }
                    if in_bucket {
                        r.push(self.paint_strokes[i].clone());
                    }
                    proof {
                        let tk = self.strokes().take(i as int + 1);
                        assert(tk.drop_last() =~= self.strokes().take(i as int));
                        assert(tk.last() == sv);
                        if in_bucket {
                            assert(stroke_views(r@) =~= stroke_views(r_before).push(sv));
                        }
                    }
                    i += 1;
                }
                proof {
                    assert(self.strokes().take(i as int) =~= self.strokes());
                }
                r
            },
        }
    }
}

/// Whether the two tile sets share an element.
pub(crate) fn tile_sets_intersect(xs: &Vec<Offset>, ys: &Vec<Offset>) -> (b: bool)
    ensures
        b == exists|t: Offset| #[trigger] xs@.contains(t) && ys@.contains(t),
{
    let mut i: usize = 0;
    while i < xs.len()
        invariant
            i <= xs@.len(),
            forall|j: int| 0 <= j < i ==> !ys@.contains(#[trigger] xs@[j]),
        decreases xs@.len() - i,
    {
        let mut j: usize = 0;
        while j < ys.len()
            invariant
                i < xs@.len(),
                j <= ys@.len(),
                forall|k: int| 0 <= k < j ==> ys@[k] != xs@[i as int],
            decreases ys@.len() - j,
        {
            if ys[j].x == xs[i].x && ys[j].y == xs[i].y {
                proof {
                    assert(xs@.contains(xs@[i as int]));
                    assert(ys@.contains(ys@[j as int]));
                }
                return true;
            }
            j += 1;
        }
        i += 1;
    }
    false
}

impl Layer {
    /// The strokes of this layer whose footprint meets the tile set `sub`,
    /// in ascending stroke-id order, each once.
    pub fn visible_strokes(&self, sub: &Vec<Offset>) -> (r: Vec<PaintStroke>)
        requires
            self.wf(),
        ensures
            stroke_views(r@) == self.visible_strokes_spec(sub@),
    {
        let mut r: Vec<PaintStroke> = Vec::new();
        let mut i: usize = 0;
        while i < self.paint_strokes.len()
            invariant
                self.wf(),
                i <= self.strokes().len(),
                stroke_views(r@) == filter_visible(self.strokes().take(i as int), sub@),
            decreases self.paint_strokes@.len() - i,
        {
            let ghost r_before = r@;
            let ghost sv = self.strokes()[i as int];
            let fp = find_paintstroke_tile_offsets(&self.paint_strokes[i]);
            let visible = tile_sets_intersect(&fp, sub);
            proof {
                assert(visible == stroke_visible(sv, sub@));
            }
            if visible {
                r.push(self.paint_strokes[i].clone());
            }
            proof {
                let tk = self.strokes().take(i as int + 1);
                assert(tk.drop_last() =~= self.strokes().take(i as int));
                assert(tk.last() == sv);
                if visible {
                    assert(stroke_views(r@) =~= stroke_views(r_before).push(sv));
                }
            }
            i += 1;
        }
        proof {
            assert(self.strokes().take(i as int) =~= self.strokes());
        }
        r
    }
}

/// What `filter_visible` keeps: exactly the strokes whose footprint meets
/// `sub`, each of them drawn from `strokes`.
pub proof fn lemma_filter_visible_membership(strokes: Seq<StrokeView>, sub: Seq<Offset>)
    ensures
        forall|k: int|
            0 <= k < filter_visible(strokes, sub).len() ==> stroke_visible(
                #[trigger] filter_visible(strokes, sub)[k],
                sub,
            ) && strokes.contains(filter_visible(strokes, sub)[k]),
        forall|i: int|
            0 <= i < strokes.len() && stroke_visible(#[trigger] strokes[i], sub)
                ==> filter_visible(strokes, sub).contains(strokes[i]),
    decreases strokes.len(),
{
    if strokes.len() > 0 {
        let rest = strokes.drop_last();
        lemma_filter_visible_membership(rest, sub);
        let f = filter_visible(strokes, sub);
        let fr = filter_visible(rest, sub);
        assert(forall|i: int| 0 <= i < rest.len() ==> rest[i] == #[trigger] strokes[i]);
        assert(strokes.last() == strokes[strokes.len() - 1]);
        assert forall|k: int| 0 <= k < f.len() implies stroke_visible(#[trigger] f[k], sub)
            && strokes.contains(f[k]) by {
            if k < fr.len() {
                assert(f[k] == fr[k]);
                let j = choose|j: int| 0 <= j < rest.len() && rest[j] == fr[k];
                assert(strokes[j] == f[k]);
            } else {
                assert(f[k] == strokes[strokes.len() - 1]);
            }
        }
        assert forall|i: int|
            0 <= i < strokes.len() && stroke_visible(#[trigger] strokes[i], sub) implies f.contains(
            strokes[i],
        ) by {
            if i < rest.len() {
                assert(fr.contains(rest[i]));
                let k = choose|k: int| 0 <= k < fr.len() && fr[k] == rest[i];
                assert(f[k] == strokes[i]);
            } else {
                assert(f[f.len() - 1] == strokes[i]);
            }
        }
    }
}

/// Filtering a sequence of strokes with strictly ascending ids yields a
/// sequence of strokes with strictly ascending ids: each visible stroke is
/// delivered once, in creation order.
pub proof fn lemma_filter_visible_ascending(strokes: Seq<StrokeView>, sub: Seq<Offset>)
    requires
        forall|i: int, j: int|
            0 <= i < j < strokes.len() ==> (#[trigger] strokes[i]).id < (#[trigger] strokes[j]).id,
    ensures
        forall|k1: int, k2: int|
            0 <= k1 < k2 < filter_visible(strokes, sub).len() ==> (#[trigger] filter_visible(
                strokes,
                sub,
            )[k1]).id < (#[trigger] filter_visible(strokes, sub)[k2]).id,
    decreases strokes.len(),
{
    if strokes.len() > 0 {
        let rest = strokes.drop_last();
        assert(forall|i: int| 0 <= i < rest.len() ==> rest[i] == #[trigger] strokes[i]);
        lemma_filter_visible_ascending(rest, sub);
        lemma_filter_visible_membership(rest, sub);
        let f = filter_visible(strokes, sub);
        let fr = filter_visible(rest, sub);
        assert(strokes.last() == strokes[strokes.len() - 1]);
        assert forall|k1: int, k2: int| 0 <= k1 < k2 < f.len() implies (#[trigger] f[k1]).id < (
        #[trigger] f[k2]).id by {
            if k2 < fr.len() {
                assert(f[k1] == fr[k1] && f[k2] == fr[k2]);
            } else {
                assert(f[k1] == fr[k1]);
                assert(fr.contains(fr[k1]));
                let j = choose|j: int| 0 <= j < rest.len() && rest[j] == fr[k1];
                assert(f[k2] == strokes[strokes.len() - 1]);
                assert(strokes[j].id < strokes[strokes.len() - 1].id);
            }
        }
    }
}

/// What `filter_tile` keeps: exactly the strokes whose footprint contains
/// `t`, each of them drawn from `strokes`.
pub proof fn lemma_filter_tile_membership(strokes: Seq<StrokeView>, t: Offset)
    ensures
        forall|k: int|
            0 <= k < filter_tile(strokes, t).len() ==> footprint_contains(
                #[trigger] filter_tile(strokes, t)[k],
                t,
            ) && strokes.contains(filter_tile(strokes, t)[k]),
        forall|i: int|
            0 <= i < strokes.len() && footprint_contains(#[trigger] strokes[i], t) ==> filter_tile(
                strokes,
                t,
            ).contains(strokes[i]),
    decreases strokes.len(),
{
    if strokes.len() > 0 {
        let rest = strokes.drop_last();
        lemma_filter_tile_membership(rest, t);
        let f = filter_tile(strokes, t);
        let fr = filter_tile(rest, t);
        assert(forall|i: int| 0 <= i < rest.len() ==> rest[i] == #[trigger] strokes[i]);
        assert(strokes.last() == strokes[strokes.len() - 1]);
        assert forall|k: int| 0 <= k < f.len() implies footprint_contains(#[trigger] f[k], t)
            && strokes.contains(f[k]) by {
            if k < fr.len() {
                assert(f[k] == fr[k]);
                let j = choose|j: int| 0 <= j < rest.len() && rest[j] == fr[k];
                assert(strokes[j] == f[k]);
            } else {
                assert(f[k] == strokes[strokes.len() - 1]);
            }
        }
        assert forall|i: int|
            0 <= i < strokes.len() && footprint_contains(#[trigger] strokes[i], t) implies f
            .contains(strokes[i]) by {
            if i < rest.len() {
                assert(fr.contains(rest[i]));
                let k = choose|k: int| 0 <= k < fr.len() && fr[k] == rest[i];
                assert(f[k] == strokes[i]);
            } else {
                assert(f[f.len() - 1] == strokes[i]);
            }
        }
    }
}

/// Filtering by tile keeps the strict ascending id order of the stroke
/// list: a tile's strokes come out in creation order, each once.
pub proof fn lemma_filter_tile_ascending(strokes: Seq<StrokeView>, t: Offset)
    requires
        forall|i: int, j: int|
            0 <= i < j < strokes.len() ==> (#[trigger] strokes[i]).id < (#[trigger] strokes[j]).id,
    ensures
        forall|k1: int, k2: int|
            0 <= k1 < k2 < filter_tile(strokes, t).len() ==> (#[trigger] filter_tile(
                strokes,
                t,
            )[k1]).id < (#[trigger] filter_tile(strokes, t)[k2]).id,
    decreases strokes.len(),
{
    if strokes.len() > 0 {
        let rest = strokes.drop_last();
        assert(forall|i: int| 0 <= i < rest.len() ==> rest[i] == #[trigger] strokes[i]);
        lemma_filter_tile_ascending(rest, t);
        lemma_filter_tile_membership(rest, t);
        let f = filter_tile(strokes, t);
        let fr = filter_tile(rest, t);
        assert(strokes.last() == strokes[strokes.len() - 1]);
        assert forall|k1: int, k2: int| 0 <= k1 < k2 < f.len() implies (#[trigger] f[k1]).id < (
        #[trigger] f[k2]).id by {
            if k2 < fr.len() {
                assert(f[k1] == fr[k1] && f[k2] == fr[k2]);
            } else {
                assert(f[k1] == fr[k1]);
                assert(fr.contains(fr[k1]));
                let j = choose|j: int| 0 <= j < rest.len() && rest[j] == fr[k1];
                assert(f[k2] == strokes[strokes.len() - 1]);
                assert(strokes[j].id < strokes[strokes.len() - 1].id);
            }
        }
    }
}

/// Tile containment: for a well-formed layer holding stroke `s`, tile `t`
/// lists `s` — both in the index and in what `get_tile_paintstrokes`
/// returns — exactly when `t` lies in the footprint of `s`.
pub proof fn lemma_tile_containment(l: Layer, s: StrokeView, t: Offset)
    requires
        l.wf(),
        l.strokes().contains(s),
    ensures
        l.tile_has(t, s.id) <==> footprint_contains(s, t),
        l.tile_strokes_spec(t).contains(s) <==> footprint_contains(s, t),
{
    l.lemma_ids_unique();
    let i = choose|i: int| 0 <= i < l.strokes().len() && l.strokes()[i] == s;
    lemma_filter_tile_membership(l.strokes(), t);
    if footprint_contains(s, t) {
        assert(footprint_contains(l.strokes()[i], t));
        assert(l.tile_has(t, s.id));
        assert(l.tile_strokes_spec(t).contains(l.strokes()[i]));
    }
    if l.tile_has(t, s.id) {
        let b = choose|b: int|
            0 <= b < l.tiles@.len() && (#[trigger] l.tiles@[b]).offset == t
                && l.tiles@[b].stroke_ids@.contains(s.id);
        let k = choose|k: int| 0 <= k < l.tiles@[b].stroke_ids@.len() && l.tiles@[b].stroke_ids@[k]
            == s.id;
        assert(stroke_entry_ok(l.strokes(), l.tiles@[b].stroke_ids@[k], l.tiles@[b].offset));
        let w = choose|w: int|
            0 <= w < l.strokes().len() && (#[trigger] l.strokes()[w]).id == s.id
                && footprint_contains(l.strokes()[w], t);
        assert(w == i);
    }
    if l.tile_strokes_spec(t).contains(s) {
        let k = choose|k: int|
            0 <= k < l.tile_strokes_spec(t).len() && l.tile_strokes_spec(t)[k] == s;
        assert(footprint_contains(l.tile_strokes_spec(t)[k], t));
    }
}

/// A stroke sequence in which no stroke's footprint contains `t` filters to
/// the empty sequence.
proof fn lemma_filter_tile_none(strokes: Seq<StrokeView>, t: Offset)
    requires
        forall|i: int|
            0 <= i < strokes.len() ==> !footprint_contains(#[trigger] strokes[i], t),
    ensures
        filter_tile(strokes, t) == Seq::<StrokeView>::empty(),
    decreases strokes.len(),
{
    if strokes.len() > 0 {
        assert(strokes.last() == strokes[strokes.len() - 1]);
        assert(forall|i: int|
            0 <= i < strokes.drop_last().len() ==> strokes.drop_last()[i] == #[trigger] strokes[i]);
        lemma_filter_tile_none(strokes.drop_last(), t);
    }
}

/// The first index of the backward search window for undo: undo inspects
/// only the strokes from this index on.
pub open spec fn undo_window_start(len: int) -> int {
    if len > UNDO_SEARCH_DEPTH as int {
        len - (UNDO_SEARCH_DEPTH as int)
    } else {
        0
    }
}

/// Removing an element from a repeat-free sequence removes exactly that
/// value from its membership.
proof fn lemma_remove_contains<A>(s: Seq<A>, k: int)
    requires
        0 <= k < s.len(),
        forall|a: int, b: int| 0 <= a < b < s.len() ==> s[a] != s[b],
    ensures
        forall|y: A| #[trigger] s.remove(k).contains(y) <==> (s.contains(y) && y != s[k]),
{
    let r = s.remove(k);
    assert forall|y: A| #[trigger] r.contains(y) implies (s.contains(y) && y != s[k]) by {
        let j = choose|j: int| 0 <= j < r.len() && r[j] == y;
        if j < k {
            assert(s[j] == y);
        } else {
            assert(s[j + 1] == y);
        }
    }
    assert forall|y: A| (s.contains(y) && y != s[k]) implies #[trigger] r.contains(y) by {
        let j = choose|j: int| 0 <= j < s.len() && s[j] == y;
        if j < k {
            assert(r[j] == y);
        } else {
            assert(r[j - 1] == y);
        }
    }
}

impl Layer {
    /// Removes the stroke at `idx` from the authoritative list and from
    /// every tile bucket that referenced it; the ids of all other strokes
    /// are untouched. Returns the tiles whose contents changed: the removed
    /// stroke's footprint.
    fn remove_stroke_at(&mut self, idx: usize) -> (tiles: Vec<Offset>)
        requires
            old(self).wf(),
            idx < old(self).strokes().len(),
        ensures
            final(self).wf(),
            final(self).spec_last_id() == old(self).spec_last_id(),
            final(self).strokes() == old(self).strokes().remove(idx as int),
            distinct_seq(tiles@),
            forall|t: Offset|
                tiles@.contains(t) <==> footprint_contains(old(self).strokes()[idx as int], t),
    {
        let removed = self.paint_strokes.remove(idx);
        let ghost rsv = removed@;
        let ghost rid = removed.id;
        proof {
            assert(rsv == old(self).strokes()[idx as int]);
            assert(stroke_in_bounds(rsv));
        }
        let fp = find_paintstroke_tile_offsets(&removed);
        let mut m: usize = 0;
        while m < fp.len()
            invariant
                self.paint_strokes@ == old(self).paint_strokes@.remove(idx as int),
                self.last_id == old(self).spec_last_id(),
                old(self).wf(),
                idx < old(self).strokes().len(),
                rsv == old(self).strokes()[idx as int],
                removed@ == rsv,
                rid == rsv.id,
                stroke_in_bounds(rsv),
                distinct_seq(fp@),
                forall|t: Offset| fp@.contains(t) <==> footprint_contains(rsv, t),
                m <= fp@.len(),
                forall|a: int, b: int|
                    0 <= a < b < self.tiles@.len() ==> (#[trigger] self.tiles@[a]).offset
                        != (#[trigger] self.tiles@[b]).offset,
                forall|a: int, k1: int, k2: int|
                    0 <= a < self.tiles@.len() && 0 <= k1 < k2 < self.tiles@[a].stroke_ids@.len()
                        ==> (#[trigger] self.tiles@[a].stroke_ids@[k1]) < (#[trigger] self.tiles@[
                        a
                    ].stroke_ids@[k2]),
                forall|a: int, k: int|
                    0 <= a < self.tiles@.len() && 0 <= k < self.tiles@[a].stroke_ids@.len()
                        ==> stroke_entry_ok(
                        old(self).strokes(),
                        #[trigger] self.tiles@[a].stroke_ids@[k],
                        self.tiles@[a].offset,
                    ),
                forall|t: Offset, id: PaintStrokeId|
                    #![trigger self.tile_has(t, id)]
                    #![trigger old(self).tile_has(t, id)]
                    id != rid ==> (self.tile_has(t, id) <==> old(self).tile_has(t, id)),
                forall|t: Offset| #[trigger]
                    self.tile_has(t, rid) <==> (old(self).tile_has(t, rid) && !fp@.take(
                        m as int,
                    ).contains(t)),
            decreases fp@.len() - m,
        {
            let t = fp[m];
            let ghost tiles_before = self.tiles@;
            proof {
                assert(forall|t2: Offset, id: PaintStrokeId|
                    #![trigger prev_has(tiles_before, t2, id)]
                    self.tile_has(t2, id) <==> prev_has(tiles_before, t2, id));
                assert(fp@.take(m as int + 1) =~= fp@.take(m as int).push(t));
                assert(!fp@.take(m as int).contains(t)) by {
                    assert(forall|j: int|
                        0 <= j < m ==> fp@.take(m as int)[j] == #[trigger] fp@[j]);
                    assert(fp@[m as int] == t);
                }
                // the bucket for t exists and still holds the removed id
                assert(footprint_contains(old(self).strokes()[idx as int], t));
                assert(old(self).tile_has(t, rid));
                assert(self.tile_has(t, rid));
            }
            let a = match find_tile_index(&self.tiles, t) {
                Some(a) => a,
                None => {
                    proof {
                        let b = choose|b: int|
                            0 <= b < self.tiles@.len() && (#[trigger] self.tiles@[b]).offset == t
                                && self.tiles@[b].stroke_ids@.contains(rid);
                        assert(false);
                    }
                    0
                },
            };
            let k = match ids_index_of(&self.tiles[a].stroke_ids, removed.id) {
                Some(k) => k,
                None => {
                    proof {
                        let b = choose|b: int|
                            0 <= b < self.tiles@.len() && (#[trigger] self.tiles@[b]).offset == t
                                && self.tiles@[b].stroke_ids@.contains(rid);
                        assert(b == a);
                        assert(false);
                    }
                    0
                },
            };
            let ghost old_ids = self.tiles@[a as int].stroke_ids@;
            proof {
                assert(forall|a1: int, b1: int|
                    0 <= a1 < b1 < old_ids.len() ==> (#[trigger] old_ids[a1]) != (
                    #[trigger] old_ids[b1]));
            }
            let entry = &mut self.tiles[a];
            entry.stroke_ids.remove(k);
            proof {
                lemma_remove_contains(old_ids, k as int);
                assert(self.tiles@.len() == tiles_before.len());
                assert(self.tiles@[a as int].offset == t);
                assert(self.tiles@[a as int].stroke_ids@ == old_ids.remove(k as int));
                assert(forall|b: int|
                    0 <= b < self.tiles@.len() && b != a ==> self.tiles@[b] == #[trigger] tiles_before[b]);
                // buckets after the removal
                assert forall|t2: Offset, id: PaintStrokeId| #[trigger]
                    self.tile_has(t2, id) implies (prev_has(tiles_before, t2, id) && !(t2 == t
                    && id == rid)) by {
                    let b = choose|b: int|
                        0 <= b < self.tiles@.len() && (#[trigger] self.tiles@[b]).offset == t2
                            && self.tiles@[b].stroke_ids@.contains(id);
                    if b != a {
                        assert(tiles_before[b].offset == t2);
                    } else {
                        assert(old_ids.contains(id) && id != rid);
                        assert(tiles_before[b].offset == t2);
                    }
                }
                assert forall|t2: Offset, id: PaintStrokeId| (prev_has(tiles_before, t2, id) && !(
                t2 == t && id == rid)) implies #[trigger] self.tile_has(t2, id) by {
                    let b = choose|b: int|
                        0 <= b < tiles_before.len() && (#[trigger] tiles_before[b]).offset == t2
                            && tiles_before[b].stroke_ids@.contains(id);
                    if b == a {
                        assert(t2 == t);
                        assert(self.tiles@[b].stroke_ids@.contains(id));
                    } else {
                        assert(self.tiles@[b] == tiles_before[b]);
                    }
                }
                lemma_push_contains(fp@.take(m as int), t);
                assert forall|t2: Offset| #[trigger]
                    self.tile_has(t2, rid) <==> (old(self).tile_has(t2, rid) && !fp@.take(
                    m as int + 1,
                ).contains(t2)) by {
                    assert(self.tile_has(t2, rid) <==> (prev_has(tiles_before, t2, rid) && t2
                        != t));
                    assert(prev_has(tiles_before, t2, rid) <==> (old(self).tile_has(t2, rid)
                        && !fp@.take(m as int).contains(t2)));
                }
            }
            m += 1;
        }
        proof {
            assert(fp@.take(m as int) =~= fp@);
            let ns = self.strokes();
            let os = old(self).strokes();
            assert(ns =~= os.remove(idx as int));
            assert(forall|j: int| 0 <= j < idx ==> ns[j] == #[trigger] os[j]);
            assert(forall|j: int| idx <= j < ns.len() ==> ns[j] == #[trigger] os[j + 1]);
            old(self).lemma_ids_unique();
            // no bucket still lists the removed stroke
            assert forall|t2: Offset| !#[trigger] self.tile_has(t2, rid) by {
                if old(self).tile_has(t2, rid) {
                    assert(stroke_entry_ok(os, rid, t2));
                    let w = choose|w: int|
                        0 <= w < os.len() && (#[trigger] os[w]).id == rid && footprint_contains(
                            os[w],
                            t2,
                        );
                    assert(w == idx);
                    assert(fp@.contains(t2));
                }
            }
            // the index is sound for the shortened stroke list
            assert forall|a: int, k: int|
                0 <= a < self.tiles@.len() && 0 <= k < self.tiles@[a].stroke_ids@.len()
                implies stroke_entry_ok(
                ns,
                #[trigger] self.tiles@[a].stroke_ids@[k],
                self.tiles@[a].offset,
            ) by {
                let id = self.tiles@[a].stroke_ids@[k];
                let t2 = self.tiles@[a].offset;
                assert(self.tile_has(t2, id));
                assert(id != rid);
                assert(stroke_entry_ok(os, id, t2));
                let w = choose|w: int|
                    0 <= w < os.len() && (#[trigger] os[w]).id == id && footprint_contains(
                        os[w],
                        t2,
                    );
                assert(w != idx);
                if w < idx {
                    assert(ns[w].id == id && footprint_contains(ns[w], t2));
                } else {
                    assert(ns[w - 1].id == id && footprint_contains(ns[w - 1], t2));
                }
            }
            // and complete for it
            assert forall|j: int, t2: Offset|
                0 <= j < ns.len() && #[trigger] footprint_contains(ns[j], t2) implies self.tile_has(
                t2,
                ns[j].id,
            ) by {
                let w = if j < idx {
                    j
                } else {
                    j + 1
                };
                assert(ns[j] == os[w]);
                assert(footprint_contains(os[w], t2));
                assert(old(self).tile_has(t2, os[w].id));
                assert(os[w].id != rid);
            }
        }
        fp
    }

    /// Undoes the newest stroke authored by `user_id` within the most
    /// recent `UNDO_SEARCH_DEPTH` strokes, returning the tiles that
    /// changed; a no-op returning `None` when no stroke of that user lies
    /// in the window, even if an older one exists beyond it.
    pub fn undo(&mut self, user_id: UserId) -> (r: Option<Vec<Offset>>)
        requires
            old(self).wf(),
        ensures
            final(self).wf(),
            final(self).spec_last_id() == old(self).spec_last_id(),
            match r {
                None => {
                    &&& *final(self) == *old(self)
                    &&& forall|i: int|
                        undo_window_start(old(self).strokes().len() as int) <= i < old(
                            self,
                        ).strokes().len() ==> (#[trigger] old(self).strokes()[i]).user_id
                            != user_id
                },
                Some(tiles) => exists|i: int|
                    {
                        &&& undo_window_start(old(self).strokes().len() as int) <= i < old(
                            self,
                        ).strokes().len()
                        &&& (#[trigger] old(self).strokes()[i]).user_id == user_id
                        &&& forall|j: int|
                            i < j < old(self).strokes().len() ==> (#[trigger] old(
                                self,
                            ).strokes()[j]).user_id != user_id
                        &&& final(self).strokes() == old(self).strokes().remove(i)
                        &&& distinct_seq(tiles@)
                        &&& forall|t: Offset|
                            tiles@.contains(t) <==> footprint_contains(old(self).strokes()[i], t)
                    },
            },
    {
        let len = self.paint_strokes.len();
        let start = if len > UNDO_SEARCH_DEPTH {
            len - UNDO_SEARCH_DEPTH
        } else {
            0
        };
        proof {
            assert(start == undo_window_start(old(self).strokes().len() as int));
        }
        let mut i: usize = len;
        while i > start
            invariant
                *self == *old(self),
                old(self).wf(),
                len == self.paint_strokes@.len(),
                start == undo_window_start(old(self).strokes().len() as int),
                start <= i <= len,
                forall|j: int|
                    i <= j < len ==> (#[trigger] old(self).strokes()[j]).user_id != user_id,
            decreases i,
        {
            i -= 1;
            if self.paint_strokes[i].user_id == user_id {
                let ghost target = i as int;
                let tiles = self.remove_stroke_at(i);
                proof {
                    assert((#[trigger] old(self).strokes()[target]).user_id == user_id);
                }
                return Some(tiles);
            }
        }
        None
    }
}

/// The index of the bucket for tile `t`, if the index has one.
fn find_tile_index(tiles: &Vec<TileEntry>, t: Offset) -> (r: Option<usize>)
    ensures
        match r {
            Some(a) => a < tiles@.len() && tiles@[a as int].offset == t,
            None => forall|a: int| 0 <= a < tiles@.len() ==> (#[trigger] tiles@[a]).offset != t,
        },
{
    let mut a: usize = 0;
    while a < tiles.len()
        invariant
            a <= tiles@.len(),
            forall|b: int| 0 <= b < a ==> (#[trigger] tiles@[b]).offset != t,
        decreases tiles@.len() - a,
    {
        if tiles[a].offset.x == t.x && tiles[a].offset.y == t.y {
            return Some(a);
        }
        a += 1;
    }
    None
}

/// Where `id` sits in an id list, if it is there.
fn ids_index_of(ids: &Vec<PaintStrokeId>, id: PaintStrokeId) -> (r: Option<usize>)
    ensures
        match r {
            Some(k) => k < ids@.len() && ids@[k as int] == id,
            None => !ids@.contains(id),
        },
{
    let mut k: usize = 0;
    while k < ids.len()
        invariant
            k <= ids@.len(),
            forall|j: int| 0 <= j < k ==> ids@[j] != id,
        decreases ids@.len() - k,
    {
        if ids[k] == id {
            return Some(k);
        }
        k += 1;
    }
    None
}

} // verus!
