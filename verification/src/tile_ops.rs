use vstd::prelude::*;

use crate::TILE_SIZE;
use crate::geom::Offset;
use crate::stroke::{brush_radius_spec, PaintStroke, StrokePoint, StrokeView};

verus! {

/// The greatest multiple of `TILE_SIZE` that is at most `v`: the left (or
/// top) edge of the tile containing coordinate `v`.
pub open spec fn tile_coord_spec(v: int) -> int {
    (v / (TILE_SIZE as int)) * (TILE_SIZE as int)
}

/// Whether the tile containing coordinate `v` has an edge representable as
/// an `i32`. Fails only within `TILE_SIZE` of the lower end of the `i32`
/// range.
pub open spec fn snappable(v: int) -> bool {
    &&& i32::MIN <= tile_coord_spec(v)
    &&& v <= i32::MAX
}

/// The identifier of the tile containing the point (x, y).
pub open spec fn point_tile_spec(x: int, y: int) -> Offset {
    Offset { x: tile_coord_spec(x) as i32, y: tile_coord_spec(y) as i32 }
}

/// A tile's edge never lies to the right of the coordinate it was snapped
/// from, and is less than one tile size away.
pub proof fn lemma_tile_coord_le(v: int)
    ensures
        v - (TILE_SIZE as int) < tile_coord_spec(v) <= v,
        tile_coord_spec(v) % (TILE_SIZE as int) == 0,
{
    let d = TILE_SIZE as int;
    vstd::arithmetic::div_mod::lemma_fundamental_div_mod(v, d);
    vstd::arithmetic::div_mod::lemma_mod_division_less_than_divisor(v, d);
    vstd::arithmetic::div_mod::lemma_mod_multiples_basic(v / d, d);
}

/// Snapping is monotone: a coordinate at most `w` snaps to a tile edge at
/// most `w`'s.
pub proof fn lemma_tile_coord_ordered(v: int, w: int)
    requires
        v <= w,
    ensures
        tile_coord_spec(v) <= tile_coord_spec(w),
{
    vstd::arithmetic::div_mod::lemma_div_is_ordered(v, w, TILE_SIZE as int);
}

/// A multiple of the tile size lying strictly within one tile size of
/// another multiple equals it.
proof fn lemma_unique_tile_edge(m: int, e: int)
    requires
        m % (TILE_SIZE as int) == 0,
        e % (TILE_SIZE as int) == 0,
        e <= m < e + (TILE_SIZE as int),
    ensures
        m == e,
{
    let d = TILE_SIZE as int;
    vstd::arithmetic::div_mod::lemma_fundamental_div_mod(m, d);
    vstd::arithmetic::div_mod::lemma_fundamental_div_mod(e, d);
    let qm = m / d;
    let qe = e / d;
    assert(d * qe <= d * qm < d * qe + d);
    assert(qm == qe) by (nonlinear_arith)
        requires
            d > 0,
            d * qe <= d * qm < d * qe + d,
    ;
}

/// The exact `i32` bounds equivalent to `snappable`, used by the executable
/// range checks.
pub proof fn lemma_snappable_bounds(v: int)
    ensures
        snappable(v) <==> -2147483600 <= v <= 2147483647,
{
    let d = TILE_SIZE as int;
    lemma_tile_coord_le(v);
    if -2147483600 <= v {
        lemma_tile_coord_ordered(-2147483600, v);
        assert(tile_coord_spec(-2147483600) == -2147483600);
    }
    if v <= -2147483601 {
        lemma_tile_coord_ordered(v, -2147483601);
        assert(tile_coord_spec(-2147483601) == -2147483700);
    }
}

/// Generates the tile offset containing the x and y coordinates specified,
/// snapping each coordinate down to a multiple of the tile size (toward
/// negative infinity, so tile boundaries are consistent across the origin).
pub fn point_to_tile_offset(x: i32, y: i32) -> (r: Offset)
    requires
        snappable(x as int),
        snappable(y as int),
    ensures
        r == point_tile_spec(x as int, y as int),
{
    proof {
        lemma_tile_coord_le(x as int);
        lemma_tile_coord_le(y as int);
    }
    let qx = match x.checked_div_euclid(TILE_SIZE) {
        Some(q) => q,
        None => 0,
    };
    let qy = match y.checked_div_euclid(TILE_SIZE) {
        Some(q) => q,
        None => 0,
    };
    Offset { x: qx * TILE_SIZE, y: qy * TILE_SIZE }
}

/// Whether tile `t` lies in the axis-aligned rectangle of tiles spanned by
/// the tiles of the two corner points (inclusive on all sides).
pub open spec fn tile_in_rect_spec(upper_left: Offset, lower_right: Offset, t: Offset) -> bool {
    let ax = tile_coord_spec(upper_left.x as int);
    let ay = tile_coord_spec(upper_left.y as int);
    let bx = tile_coord_spec(lower_right.x as int);
    let by = tile_coord_spec(lower_right.y as int);
    &&& ax <= t.x as int <= bx
    &&& ay <= t.y as int <= by
    &&& (t.x as int) % (TILE_SIZE as int) == 0
    &&& (t.y as int) % (TILE_SIZE as int) == 0
}

/// The tiles of the rectangle that the enumeration loop has already
/// emitted, walking rows top to bottom and each row left to right: all of
/// the rectangle strictly above `rowy`, plus, on row `rowy` itself, the
/// tiles strictly left of `colx`.
spec fn covered_upto(upper_left: Offset, lower_right: Offset, rowy: int, colx: int, t: Offset) -> bool {
    &&& tile_in_rect_spec(upper_left, lower_right, t)
    &&& ((t.y as int) < rowy || ((t.y as int) == rowy && (t.x as int) < colx))
}

/// Generates the distinct tile offsets contained in the rectangle specified
/// by the upper-left and lower-right corners (inclusive of the tiles that
/// contain the corners themselves). The caller guarantees that the corners
/// are ordered.
pub fn compute_bounded_tile_offsets(upper_left: &Offset, lower_right: &Offset) -> (r: Vec<Offset>)
    requires
        snappable(upper_left.x as int),
        snappable(upper_left.y as int),
        snappable(lower_right.x as int),
        snappable(lower_right.y as int),
        upper_left.x <= lower_right.x,
        upper_left.y <= lower_right.y,
    ensures
        distinct_seq(r@),
        forall|t: Offset| r@.contains(t) <==> tile_in_rect_spec(*upper_left, *lower_right, t),
{
    let ghost d = TILE_SIZE as int;
    let a = point_to_tile_offset(upper_left.x, upper_left.y);
    let b = point_to_tile_offset(lower_right.x, lower_right.y);
    let ghost ax = a.x as int;
    let ghost ay = a.y as int;
    let ghost bx = b.x as int;
    let ghost by = b.y as int;
    proof {
        lemma_tile_coord_le(upper_left.x as int);
        lemma_tile_coord_le(upper_left.y as int);
        lemma_tile_coord_le(lower_right.x as int);
        lemma_tile_coord_le(lower_right.y as int);
        lemma_tile_coord_ordered(upper_left.x as int, lower_right.x as int);
        lemma_tile_coord_ordered(upper_left.y as int, lower_right.y as int);
    }
    let diff_x: u64 = ((b.x as i64 - a.x as i64) as u64) / (TILE_SIZE as u64);
    let diff_y: u64 = ((b.y as i64 - a.y as i64) as u64) / (TILE_SIZE as u64);
    proof {
        vstd::arithmetic::div_mod::lemma_fundamental_div_mod(bx - ax, d);
        vstd::arithmetic::div_mod::lemma_sub_mod_noop(bx, ax, d);
        vstd::arithmetic::div_mod::lemma_mod_division_less_than_divisor(bx - ax, d);
        vstd::arithmetic::div_mod::lemma_fundamental_div_mod(by - ay, d);
        vstd::arithmetic::div_mod::lemma_sub_mod_noop(by, ay, d);
        vstd::arithmetic::div_mod::lemma_mod_division_less_than_divisor(by - ay, d);
        assert(ax + (diff_x as int) * d == bx);
        assert(ay + (diff_y as int) * d == by);
        vstd::arithmetic::div_mod::lemma_div_nonincreasing(bx - ax, d);
        vstd::arithmetic::div_mod::lemma_div_nonincreasing(by - ay, d);
    }
    let nx: u64 = diff_x + 1;
    let ny: u64 = diff_y + 1;
    proof {
        assert(nx as int <= 0x1_0000_0001 && ny as int <= 0x1_0000_0001);
    }
    let mut out: Vec<Offset> = Vec::new();
    let mut iy: u64 = 0;
    while iy < ny
        invariant
            snappable(upper_left.x as int) && snappable(upper_left.y as int),
            snappable(lower_right.x as int) && snappable(lower_right.y as int),
            ax == tile_coord_spec(upper_left.x as int),
            ay == tile_coord_spec(upper_left.y as int),
            bx == tile_coord_spec(lower_right.x as int),
            by == tile_coord_spec(lower_right.y as int),
            a.x as int == ax && a.y as int == ay,
            b.x as int == bx && b.y as int == by,
            i32::MIN <= ax <= bx <= i32::MAX,
            i32::MIN <= ay <= by <= i32::MAX,
            ax % d == 0 && ay % d == 0 && bx % d == 0 && by % d == 0,
            d == TILE_SIZE as int,
            1 <= nx && 1 <= ny,
            nx as int <= 0x1_0000_0001 && ny as int <= 0x1_0000_0001,
            ax + (nx as int - 1) * d == bx,
            ay + (ny as int - 1) * d == by,
            iy <= ny,
            distinct_seq(out@),
            forall|t: Offset|
                out@.contains(t) <==> covered_upto(
                    *upper_left,
                    *lower_right,
                    ay + (iy as int) * d,
                    ax,
                    t,
                ),
        decreases ny - iy,
    {
        proof {
            assert(0 <= (iy as int) * d && (iy as int) * d <= (ny as int - 1) * d)
                by (nonlinear_arith)
                requires
                    d > 0,
                    0 <= iy < ny,
            ;
            assert(ay <= ay + (iy as int) * d <= by);
        }
        let y_wide: i64 = a.y as i64 + (iy as i64) * (TILE_SIZE as i64);
        let ghost rowy = ay + (iy as int) * d;
        proof {
            assert(y_wide as int == rowy);
            assert(i32::MIN <= y_wide as int <= i32::MAX);
        }
        let y: i32 = y_wide as i32;
        proof {
            vstd::arithmetic::div_mod::lemma_mod_multiples_vanish(iy as int, ay, d);
            assert(rowy % d == 0);
        }
        let mut jx: u64 = 0;
        while jx < nx
            invariant
                snappable(upper_left.x as int) && snappable(upper_left.y as int),
                snappable(lower_right.x as int) && snappable(lower_right.y as int),
                ax == tile_coord_spec(upper_left.x as int),
                ay == tile_coord_spec(upper_left.y as int),
                bx == tile_coord_spec(lower_right.x as int),
                by == tile_coord_spec(lower_right.y as int),
                a.x as int == ax && a.y as int == ay,
                b.x as int == bx && b.y as int == by,
                i32::MIN <= ax <= bx <= i32::MAX,
                i32::MIN <= ay <= by <= i32::MAX,
                ax % d == 0 && ay % d == 0 && bx % d == 0 && by % d == 0,
                rowy % d == 0,
                d == TILE_SIZE as int,
                1 <= nx,
                nx as int <= 0x1_0000_0001 && ny as int <= 0x1_0000_0001,
                ax + (nx as int - 1) * d == bx,
                iy < ny,
                ay + (ny as int - 1) * d == by,
                rowy == ay + (iy as int) * d,
                ay <= rowy <= by,
                y as int == rowy,
                jx <= nx,
                distinct_seq(out@),
                forall|t: Offset|
                    out@.contains(t) <==> covered_upto(
                        *upper_left,
                        *lower_right,
                        rowy,
                        ax + (jx as int) * d,
                        t,
                    ),
            decreases nx - jx,
        {
            proof {
                assert(0 <= (jx as int) * d && (jx as int) * d <= (nx as int - 1) * d)
                    by (nonlinear_arith)
                    requires
                        d > 0,
                        0 <= jx < nx,
                ;
                assert(ax <= ax + (jx as int) * d <= bx);
            }
            let x_wide: i64 = a.x as i64 + (jx as i64) * (TILE_SIZE as i64);
            let ghost colx = ax + (jx as int) * d;
            proof {
                assert(x_wide as int == colx);
                assert(i32::MIN <= x_wide as int <= i32::MAX);
            }
            let x: i32 = x_wide as i32;
            let t_new = Offset { x, y };
            proof {
                vstd::arithmetic::div_mod::lemma_mod_multiples_vanish(jx as int, ax, d);
                assert(colx % d == 0);
            }
            push_unique(&mut out, t_new);
            proof {
                let ghost ul = *upper_left;
                let ghost lr = *lower_right;
                assert(forall|t: Offset|
                    #![trigger tile_in_rect_spec(ul, lr, t)]
                    covered_upto(ul, lr, rowy, colx + d, t) <==> (covered_upto(ul, lr, rowy, colx, t)
                        || t == t_new)) by {
                    assert forall|t: Offset|
                        covered_upto(ul, lr, rowy, colx + d, t) && !covered_upto(
                            ul,
                            lr,
                            rowy,
                            colx,
                            t,
                        ) implies t == t_new by {
                        lemma_unique_tile_edge(t.x as int, colx);
                    }
                    assert(covered_upto(ul, lr, rowy, colx + d, t_new)) by {
                        assert(tile_in_rect_spec(ul, lr, t_new));
                    }
                }
            }
            jx += 1;
        }
        proof {
            let ghost ul = *upper_left;
            let ghost lr = *lower_right;
            assert(forall|t: Offset|
                #![trigger tile_in_rect_spec(ul, lr, t)]
                covered_upto(ul, lr, rowy, ax + (nx as int) * d, t) <==> covered_upto(
                    ul,
                    lr,
                    rowy + d,
                    ax,
                    t,
                )) by {
                assert forall|t: Offset|
                    #![trigger tile_in_rect_spec(ul, lr, t)]
                    covered_upto(ul, lr, rowy + d, ax, t) implies covered_upto(
                        ul,
                        lr,
                        rowy,
                        ax + (nx as int) * d,
                        t,
                    ) by {
                    if (t.y as int) >= rowy {
                        lemma_unique_tile_edge(t.y as int, rowy);
                        assert(t.x as int <= bx);
                        assert(bx < ax + (nx as int) * d);
                    }
                }
            }
        }
        iy += 1;
    }
    proof {
        let ghost ul = *upper_left;
        let ghost lr = *lower_right;
        assert(forall|t: Offset|
            #![trigger tile_in_rect_spec(ul, lr, t)]
            covered_upto(ul, lr, ay + (ny as int) * d, ax, t) <==> tile_in_rect_spec(ul, lr, t))
            by {
            assert forall|t: Offset| #[trigger] tile_in_rect_spec(ul, lr, t) implies covered_upto(
                ul,
                lr,
                ay + (ny as int) * d,
                ax,
                t,
            ) by {
                assert(t.y as int <= by);
                assert(by < ay + (ny as int) * d);
            }
        }
    }
    out
}

/// A sequence without repeated elements.
pub open spec fn distinct_seq<A>(s: Seq<A>) -> bool {
    forall|a: int, b: int| 0 <= a < b < s.len() ==> s[a] != s[b]
}

/// Whether every point of `points`, pushed out by `radius` in each corner
/// direction, stays within snappable coordinates.
pub open spec fn points_in_bounds(points: Seq<StrokePoint>, radius: int) -> bool {
    forall|i: int|
        0 <= i < points.len() ==> {
            let p = #[trigger] points[i];
            &&& snappable(p.x - radius)
            &&& snappable(p.x + radius)
            &&& snappable(p.y - radius)
            &&& snappable(p.y + radius)
        }
}

/// Whether the spatial index can hold the stroke: all four corner
/// translations of all its points snap to representable tiles.
pub open spec fn stroke_in_bounds(s: StrokeView) -> bool {
    points_in_bounds(s.points, brush_radius_spec(s.brush))
}

/// Whether tile `t` is touched by one of the first `n` points of `s`,
/// expanded by the brush radius in each of the four corner directions.
pub open spec fn footprint_upto(s: StrokeView, n: int, t: Offset) -> bool {
    let r = brush_radius_spec(s.brush);
    exists|i: int|
        0 <= i < n && i < s.points.len() && {
            let p = #[trigger] s.points[i];
            ||| t == point_tile_spec(p.x - r, p.y - r)
            ||| t == point_tile_spec(p.x - r, p.y + r)
            ||| t == point_tile_spec(p.x + r, p.y - r)
            ||| t == point_tile_spec(p.x + r, p.y + r)
        }
}

/// The stroke's tile footprint: every tile containing some point of the
/// stroke translated by one of the four corner offsets (±radius, ±radius).
/// This over-covers the area the brush actually paints; it never
/// under-covers a point sample.
pub open spec fn footprint_contains(s: StrokeView, t: Offset) -> bool {
    footprint_upto(s, s.points.len() as int, t)
}

/// Whether `v` lies in the coordinate range whose tiles are representable.
fn coord_snappable(v: i64) -> (b: bool)
    ensures
        b == snappable(v as int),
{
    proof {
        lemma_snappable_bounds(v as int);
    }
    -2147483600 <= v && v <= 2147483647
}

/// Whether both coordinates of `o` snap to representable tiles.
pub(crate) fn offset_snappable(o: &Offset) -> (b: bool)
    ensures
        b == (snappable(o.x as int) && snappable(o.y as int)),
{
    coord_snappable(o.x as i64) && coord_snappable(o.y as i64)
}

impl PaintStroke {
    /// Whether the spatial index can hold this stroke; true for every stroke
    /// whose coordinates stay a brush radius away from the ends of the `i32`
    /// range.
    pub fn in_bounds(&self) -> (b: bool)
        ensures
            b == stroke_in_bounds(self@),
    {
        let radius = self.brush.radius() as i64;
        let mut i: usize = 0;
        let mut ok = true;
        while i < self.points.len()
            invariant
                i <= self.points@.len(),
                radius == brush_radius_spec(self.brush),
                ok == points_in_bounds(self.points@.take(i as int), radius as int),
            decreases self.points@.len() - i,
        {
            let p = self.points[i];
            let p_ok = coord_snappable(p.x as i64 - radius) && coord_snappable(
                p.x as i64 + radius,
            ) && coord_snappable(p.y as i64 - radius) && coord_snappable(p.y as i64 + radius);
            proof {
                assert(self.points@.take(i + 1)[i as int] == self.points@[i as int]);
                assert(forall|j: int|
                    0 <= j < i ==> self.points@.take(i + 1)[j] == #[trigger] self.points@.take(
                        i as int,
                    )[j]);
                if !(ok && p_ok) {
                    if !ok {
                        let w = choose|j: int|
                            0 <= j < i && !{
                                let p = #[trigger] self.points@.take(i as int)[j];
                                &&& snappable(p.x - radius)
                                &&& snappable(p.x + radius)
                                &&& snappable(p.y - radius)
                                &&& snappable(p.y + radius)
                            };
                        assert(self.points@.take(i + 1)[w] == self.points@.take(i as int)[w]);
                    }
                }
            }
            ok = ok && p_ok;
            i += 1;
        }
        proof {
            assert(self.points@.take(i as int) == self.points@);
        }
        ok
    }
}

/// Whether `v` holds `t`, by linear scan.
fn contains_offset(v: &Vec<Offset>, t: Offset) -> (b: bool)
    ensures
        b == v@.contains(t),
{
    let mut i: usize = 0;
    while i < v.len()
        invariant
            i <= v@.len(),
            forall|j: int| 0 <= j < i ==> v@[j] != t,
        decreases v@.len() - i,
    {
        if v[i].x == t.x && v[i].y == t.y {
            return true;
        }
        i += 1;
    }
    false
}

/// Appends `t` unless it is already present, keeping the vector free of
/// repeats.
fn push_unique(v: &mut Vec<Offset>, t: Offset)
    requires
        distinct_seq(old(v)@),
    ensures
        distinct_seq(final(v)@),
        forall|u: Offset| final(v)@.contains(u) <==> (old(v)@.contains(u) || u == t),
{
    if !contains_offset(v, t) {
        v.push(t);
        proof {
            assert(forall|u: Offset|
                final(v)@.contains(u) <==> (old(v)@.contains(u) || u == t)) by {
                assert(forall|j: int|
                    0 <= j < old(v)@.len() ==> final(v)@[j] == #[trigger] old(v)@[j]);
                assert(final(v)@[old(v)@.len() as int] == t);
                assert(forall|u: Offset| #[trigger] final(v)@.contains(u) ==> (old(v)@.contains(u)
                    || u == t)) by {
                    assert(forall|j: int|
                        0 <= j < final(v)@.len() && j < old(v)@.len() ==> old(v)@.contains(
                            #[trigger] final(v)@[j],
                        ));
                }
            }
        }
    }
}

/// Finds the tile offsets containing the paint stroke: the union, over all
/// stroke points and all four corner offsets (±radius, ±radius), of the tile
/// containing the translated point.
pub fn find_paintstroke_tile_offsets(paint_stroke: &PaintStroke) -> (r: Vec<Offset>)
    requires
        stroke_in_bounds(paint_stroke@),
    ensures
        distinct_seq(r@),
        forall|t: Offset| r@.contains(t) <==> footprint_contains(paint_stroke@, t),
{
    let radius = paint_stroke.brush.radius();
    let mut out: Vec<Offset> = Vec::new();
    let mut i: usize = 0;
    while i < paint_stroke.points.len()
        invariant
            i <= paint_stroke.points@.len(),
            radius == brush_radius_spec(paint_stroke.brush),
            stroke_in_bounds(paint_stroke@),
            distinct_seq(out@),
            forall|t: Offset| out@.contains(t) <==> footprint_upto(paint_stroke@, i as int, t),
        decreases paint_stroke.points@.len() - i,
    {
        let p = paint_stroke.points[i];
        proof {
            assert(paint_stroke@.points[i as int] == p);
            lemma_tile_coord_le(p.x - radius);
            lemma_tile_coord_le(p.x + radius);
            lemma_tile_coord_le(p.y - radius);
            lemma_tile_coord_le(p.y + radius);
        }
        let t1 = point_to_tile_offset(p.x - radius, p.y - radius);
        let t2 = point_to_tile_offset(p.x - radius, p.y + radius);
        let t3 = point_to_tile_offset(p.x + radius, p.y - radius);
        let t4 = point_to_tile_offset(p.x + radius, p.y + radius);
        push_unique(&mut out, t1);
        push_unique(&mut out, t2);
        push_unique(&mut out, t3);
        push_unique(&mut out, t4);
        proof {
            assert(forall|t: Offset|
                footprint_upto(paint_stroke@, i + 1, t) <==> (footprint_upto(
                    paint_stroke@,
                    i as int,
                    t,
                ) || t == t1 || t == t2 || t == t3 || t == t4)) by {
                let s = paint_stroke@;
                assert(forall|t: Offset|
                    #[trigger] footprint_upto(s, i + 1, t) ==> (footprint_upto(s, i as int, t)
                        || t == t1 || t == t2 || t == t3 || t == t4)) by {
                    assert(s.points[i as int] == p);
                }
                assert(forall|t: Offset|
                    (footprint_upto(s, i as int, t) || t == t1 || t == t2 || t == t3 || t == t4)
                        ==> #[trigger] footprint_upto(s, i + 1, t)) by {
                    assert(s.points[i as int] == p);
                    assert(forall|t: Offset| footprint_upto(s, i as int, t) ==> footprint_upto(
                        s,
                        i + 1,
                        t,
                    ));
                }
            }
        }
        i += 1;
    }
    out
}

} // verus!
