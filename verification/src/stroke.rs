use vstd::prelude::*;

use crate::geom::Offset;

verus! {

/// Identifier of a paint stroke, unique and strictly increasing within one
/// layer.
pub type PaintStrokeId = u64;

/// Process-wide identifier of a user (one per connection).
pub type UserId = u64;

/// Index of a layer within a canvas; always below `MAX_LAYERS`.
pub type LayerId = u8;

/// An RGBA colour.
#[derive(Debug, Clone, Copy, PartialEq, Eq, Structural)]
pub struct Color {
    pub r: u8,
    pub g: u8,
    pub b: u8,
    pub a: u8,
}

/// Bit pattern of the 32-bit binary floating-point value one, as carried in
/// the brush parameters that only the renderer interprets.
pub const UNIT_PARAM_BITS: u32 = 0x3F80_0000;

/// Visual parameters of a stroke. The engine itself reads only `width`
/// (through the brush radius); the remaining fields are carried for the
/// renderer, which lies outside this library.
#[derive(Debug, Clone, Copy, PartialEq, Eq, Structural)]
pub struct Brush {
    pub color: Color,
    /// Stroke width in whole pixels.
    pub width: u16,
    /// How far the stroke falls off, as the bit pattern of a 32-bit
    /// floating-point value; opaque to the engine.
    pub hardness_bits: u32,
    /// How much the stroke bleeds in from surrounding areas, as the bit
    /// pattern of a 32-bit floating-point value; opaque to the engine.
    pub smudging_bits: u32,
    /// True to replace the colours underneath the stroke instead of applying
    /// on top (useful for erasing).
    pub replace: bool,
}

impl Default for Brush {
    /// A one-pixel opaque black brush with unit hardness and smudging.
    fn default() -> (r: Brush)
        ensures
            r.color == (Color { r: 0, g: 0, b: 0, a: 255 }),
            r.width == 1,
            r.hardness_bits == UNIT_PARAM_BITS,
            r.smudging_bits == UNIT_PARAM_BITS,
            !r.replace,
    {
        Brush {
            color: Color { r: 0, g: 0, b: 0, a: 255 },
            width: 1,
            hardness_bits: UNIT_PARAM_BITS,
            smudging_bits: UNIT_PARAM_BITS,
            replace: false,
        }
    }
}

/// Half the brush width, rounded up: how far a stroke's paint reaches out
/// from each sampled point.
pub open spec fn brush_radius_spec(b: Brush) -> int {
    ((b.width as int) + 1) / 2
}

impl Brush {
    /// The brush radius used by the spatial index.
    pub fn radius(&self) -> (r: i32)
        ensures
            r as int == brush_radius_spec(*self),
            0 <= r <= 0x8000,
    {
        (((self.width as u32) + 1) / 2) as i32
    }
}

/// One sample of a stroke's path.
#[derive(Debug, Clone, Copy, PartialEq, Eq, Structural)]
pub struct StrokePoint {
    /// Pen pressure of the sample, as the bit pattern of a 32-bit
    /// floating-point value; opaque to the engine.
    pub pressure_bits: u32,
    pub x: i32,
    pub y: i32,
}

impl StrokePoint {
    /// The point translated by `rhs`; pressure is kept.
    pub fn add(self, rhs: Offset) -> (r: StrokePoint)
        requires
            i32::MIN <= self.x + rhs.x <= i32::MAX,
            i32::MIN <= self.y + rhs.y <= i32::MAX,
        ensures
            r.pressure_bits == self.pressure_bits,
            r.x == self.x + rhs.x,
            r.y == self.y + rhs.y,
    {
        StrokePoint { pressure_bits: self.pressure_bits, x: self.x + rhs.x, y: self.y + rhs.y }
    }
}

/// One continuous paint gesture: a brush and an ordered list of sampled
/// points. Identity and order among strokes are defined solely by `id`.
#[derive(Debug)]
pub struct PaintStroke {
    pub id: PaintStrokeId,
    pub user_id: UserId,
    pub brush: Brush,
    pub points: Vec<StrokePoint>,
}

/// The mathematical value of a `PaintStroke`: the same fields, with the
/// point list abstracted to a sequence.
pub struct StrokeView {
    pub id: PaintStrokeId,
    pub user_id: UserId,
    pub brush: Brush,
    pub points: Seq<StrokePoint>,
}

impl View for PaintStroke {
    type V = StrokeView;

    open spec fn view(&self) -> StrokeView {
        StrokeView { id: self.id, user_id: self.user_id, brush: self.brush, points: self.points@ }
    }
}

/// The sequence of mathematical values of a sequence of strokes.
pub open spec fn stroke_views(v: Seq<PaintStroke>) -> Seq<StrokeView> {
    Seq::new(v.len(), |i: int| v[i]@)
}

impl Clone for PaintStroke {
    fn clone(&self) -> (r: PaintStroke)
        ensures
            r@ == self@,
    {
        let mut points: Vec<StrokePoint> = Vec::new();
        let mut i: usize = 0;
        while i < self.points.len()
            invariant
                i <= self.points.len(),
                points@ == self.points@.take(i as int),
            decreases self.points.len() - i,
        {
            points.push(self.points[i]);
            proof {
                assert(points@ =~= self.points@.take(i + 1));
            }
            i += 1;
        }
        proof {
            assert(points@ =~= self.points@);
        }
        PaintStroke { id: self.id, user_id: self.user_id, brush: self.brush, points }
    }
}

impl PartialEq for PaintStroke {
    /// Two strokes are the same stroke exactly when their ids agree,
    /// whatever their content.
    fn eq(&self, other: &PaintStroke) -> (r: bool)
    {
        self.id == other.id
    }
}

impl vstd::std_specs::cmp::PartialEqSpecImpl for PaintStroke {
    open spec fn obeys_eq_spec() -> bool {
        true
    }

    open spec fn eq_spec(&self, other: &PaintStroke) -> bool {
        self.id == other.id
    }
}

impl PaintStroke {
    /// Translates every sampled point by `offset`.
    pub fn shift(&mut self, offset: &Offset)
        requires
            forall|i: int|
                0 <= i < old(self).points@.len() ==> {
                    &&& i32::MIN <= #[trigger] old(self).points@[i].x + offset.x <= i32::MAX
                    &&& i32::MIN <= old(self).points@[i].y + offset.y <= i32::MAX
                },
        ensures
            final(self).id == old(self).id,
            final(self).user_id == old(self).user_id,
            final(self).brush == old(self).brush,
            final(self).points@.len() == old(self).points@.len(),
            forall|i: int|
                0 <= i < old(self).points@.len() ==> {
                    &&& #[trigger] final(self).points@[i].pressure_bits == old(self).points@[i].pressure_bits
                    &&& final(self).points@[i].x == old(self).points@[i].x + offset.x
                    &&& final(self).points@[i].y == old(self).points@[i].y + offset.y
                },
    {
        let mut shifted: Vec<StrokePoint> = Vec::new();
        let mut i: usize = 0;
        while i < self.points.len()
            invariant
                i <= self.points.len(),
                self.points@ == old(self).points@,
                shifted@.len() == i,
                forall|j: int|
                    0 <= j < i ==> {
                        &&& #[trigger] shifted@[j].pressure_bits == old(self).points@[j].pressure_bits
                        &&& shifted@[j].x == old(self).points@[j].x + offset.x
                        &&& shifted@[j].y == old(self).points@[j].y + offset.y
                    },
                forall|j: int|
                    0 <= j < old(self).points@.len() ==> {
                        &&& i32::MIN <= #[trigger] old(self).points@[j].x + offset.x <= i32::MAX
                        &&& i32::MIN <= old(self).points@[j].y + offset.y <= i32::MAX
                    },
            decreases self.points.len() - i,
        {
            shifted.push(self.points[i].add(*offset));
            i += 1;
        }
        self.points = shifted;
    }
}

} // verus!
