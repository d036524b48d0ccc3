use vstd::prelude::*;

use std::io::Read;
use std::io::Write;

use crate::geom::Offset;
use crate::messages::{ClientMessage, ClientMessageView, ServerMessage, ServerMessageView};
use crate::stroke::{Brush, Color, PaintStroke, StrokePoint, StrokeView};

verus! {

// ---------------------------------------------------------------------
// Little-endian byte layouts of the integer fields of the wire format.
// ---------------------------------------------------------------------

/// The two little-endian bytes of `v`.
pub open spec fn spec_u16_le(v: u16) -> Seq<u8> {
    seq![(v & 0xff) as u8, ((v >> 8) & 0xff) as u8]
}

/// The four little-endian bytes of `v`.
pub open spec fn spec_u32_le(v: u32) -> Seq<u8> {
    seq![
        (v & 0xff) as u8,
        ((v >> 8) & 0xff) as u8,
        ((v >> 16) & 0xff) as u8,
        ((v >> 24) & 0xff) as u8,
    ]
}

/// The eight little-endian bytes of `v`.
pub open spec fn spec_u64_le(v: u64) -> Seq<u8> {
    seq![
        (v & 0xff) as u8,
        ((v >> 8) & 0xff) as u8,
        ((v >> 16) & 0xff) as u8,
        ((v >> 24) & 0xff) as u8,
        ((v >> 32) & 0xff) as u8,
        ((v >> 40) & 0xff) as u8,
        ((v >> 48) & 0xff) as u8,
        ((v >> 56) & 0xff) as u8,
    ]
}

/// The four little-endian bytes of `v`, in two's complement.
pub open spec fn spec_i32_le(v: i32) -> Seq<u8> {
    spec_u32_le(v as u32)
}

/// The `u16` with the given little-endian bytes.
pub open spec fn u16_from_le(b0: u8, b1: u8) -> u16 {
    (b0 as u16) | ((b1 as u16) << 8)
}

/// The `u32` with the given little-endian bytes.
pub open spec fn u32_from_le(b0: u8, b1: u8, b2: u8, b3: u8) -> u32 {
    (b0 as u32) | ((b1 as u32) << 8) | ((b2 as u32) << 16) | ((b3 as u32) << 24)
}

/// The `u64` with the given little-endian bytes.
pub open spec fn u64_from_le(
    b0: u8,
    b1: u8,
    b2: u8,
    b3: u8,
    b4: u8,
    b5: u8,
    b6: u8,
    b7: u8,
) -> u64 {
    (b0 as u64) | ((b1 as u64) << 8) | ((b2 as u64) << 16) | ((b3 as u64) << 24) | ((b4
        as u64) << 32) | ((b5 as u64) << 40) | ((b6 as u64) << 48) | ((b7 as u64) << 56)
}

/// Reassembling the little-endian bytes of a `u16` gives it back.
proof fn lemma_u16_round(v: u16)
    ensures
        u16_from_le((v & 0xff) as u8, ((v >> 8) & 0xff) as u8) == v,
{
    assert((((v & 0xff) as u8) as u16) | ((((v >> 8) & 0xff) as u8) as u16) << 8 == v)
        by (bit_vector);
}

/// Reassembling the little-endian bytes of a `u32` gives it back.
proof fn lemma_u32_round(v: u32)
    ensures
        u32_from_le(
            (v & 0xff) as u8,
            ((v >> 8) & 0xff) as u8,
            ((v >> 16) & 0xff) as u8,
            ((v >> 24) & 0xff) as u8,
        ) == v,
{
    assert((((v & 0xff) as u8) as u32) | ((((v >> 8) & 0xff) as u8) as u32) << 8 | ((((v >> 16)
        & 0xff) as u8) as u32) << 16 | ((((v >> 24) & 0xff) as u8) as u32) << 24 == v)
        by (bit_vector);
}

/// Reassembling the little-endian bytes of a `u64` gives it back.
proof fn lemma_u64_round(v: u64)
    ensures
        u64_from_le(
            (v & 0xff) as u8,
            ((v >> 8) & 0xff) as u8,
            ((v >> 16) & 0xff) as u8,
            ((v >> 24) & 0xff) as u8,
            ((v >> 32) & 0xff) as u8,
            ((v >> 40) & 0xff) as u8,
            ((v >> 48) & 0xff) as u8,
            ((v >> 56) & 0xff) as u8,
        ) == v,
{
    assert((((v & 0xff) as u8) as u64) | ((((v >> 8) & 0xff) as u8) as u64) << 8 | ((((v >> 16)
        & 0xff) as u8) as u64) << 16 | ((((v >> 24) & 0xff) as u8) as u64) << 24 | ((((v >> 32)
        & 0xff) as u8) as u64) << 32 | ((((v >> 40) & 0xff) as u8) as u64) << 40 | ((((v >> 48)
        & 0xff) as u8) as u64) << 48 | ((((v >> 56) & 0xff) as u8) as u64) << 56 == v)
        by (bit_vector);
}

/// A two's-complement round trip through `u32` gives an `i32` back.
proof fn lemma_i32_round(v: i32)
    ensures
        ((v as u32) as i32) == v,
{
    assert(((v as u32) as i32) == v) by (bit_vector);
}

// ---------------------------------------------------------------------
// Executable little-endian writers.
// ---------------------------------------------------------------------

/// Appends the single byte `v`.
fn ser_u8(out: &mut Vec<u8>, v: u8)
    ensures
        final(out)@ == old(out)@ + seq![v],
{
    out.push(v);
    proof {
        assert(out@ =~= old(out)@ + seq![v]);
    }
}

/// Appends the two little-endian bytes of `v`.
fn ser_u16(out: &mut Vec<u8>, v: u16)
    ensures
        final(out)@ == old(out)@ + spec_u16_le(v),
{
    out.push(#[verifier::truncate] ((v & 0xff) as u8));
    out.push(#[verifier::truncate] (((v >> 8) & 0xff) as u8));
    proof {
        assert(out@ =~= old(out)@ + spec_u16_le(v));
    }
}

/// Appends the four little-endian bytes of `v`.
fn ser_u32(out: &mut Vec<u8>, v: u32)
    ensures
        final(out)@ == old(out)@ + spec_u32_le(v),
{
    out.push(#[verifier::truncate] ((v & 0xff) as u8));
    out.push(#[verifier::truncate] (((v >> 8) & 0xff) as u8));
    out.push(#[verifier::truncate] (((v >> 16) & 0xff) as u8));
    out.push(#[verifier::truncate] (((v >> 24) & 0xff) as u8));
    proof {
        assert(out@ =~= old(out)@ + spec_u32_le(v));
    }
}

/// Appends the eight little-endian bytes of `v`.
fn ser_u64(out: &mut Vec<u8>, v: u64)
    ensures
        final(out)@ == old(out)@ + spec_u64_le(v),
{
    out.push(#[verifier::truncate] ((v & 0xff) as u8));
    out.push(#[verifier::truncate] (((v >> 8) & 0xff) as u8));
    out.push(#[verifier::truncate] (((v >> 16) & 0xff) as u8));
    out.push(#[verifier::truncate] (((v >> 24) & 0xff) as u8));
    out.push(#[verifier::truncate] (((v >> 32) & 0xff) as u8));
    out.push(#[verifier::truncate] (((v >> 40) & 0xff) as u8));
    out.push(#[verifier::truncate] (((v >> 48) & 0xff) as u8));
    out.push(#[verifier::truncate] (((v >> 56) & 0xff) as u8));
    proof {
        assert(out@ =~= old(out)@ + spec_u64_le(v));
    }
}

/// Appends the four little-endian two's-complement bytes of `v`.
fn ser_i32(out: &mut Vec<u8>, v: i32)
    ensures
        final(out)@ == old(out)@ + spec_i32_le(v),
{
    ser_u32(out, #[verifier::truncate] (v as u32));
}

// ---------------------------------------------------------------------
// Specification-level parsers. Each consumes from index `i` and yields
// the parsed value with the index just past it, or nothing when the
// input is exhausted or malformed.
// ---------------------------------------------------------------------

/// Parses one byte.
pub open spec fn spec_parse_u8(b: Seq<u8>, i: int) -> Option<(u8, int)> {
    if 0 <= i && i + 1 <= b.len() {
        Some((b[i], i + 1))
    } else {
        None
    }
}

/// Parses a little-endian `u16`.
pub open spec fn spec_parse_u16(b: Seq<u8>, i: int) -> Option<(u16, int)> {
    if 0 <= i && i + 2 <= b.len() {
        Some((u16_from_le(b[i], b[i + 1]), i + 2))
    } else {
        None
    }
}

/// Parses a little-endian `u32`.
pub open spec fn spec_parse_u32(b: Seq<u8>, i: int) -> Option<(u32, int)> {
    if 0 <= i && i + 4 <= b.len() {
        Some((u32_from_le(b[i], b[i + 1], b[i + 2], b[i + 3]), i + 4))
    } else {
        None
    }
}

/// Parses a little-endian `u64`.
pub open spec fn spec_parse_u64(b: Seq<u8>, i: int) -> Option<(u64, int)> {
    if 0 <= i && i + 8 <= b.len() {
        Some(
            (
                u64_from_le(
                    b[i],
                    b[i + 1],
                    b[i + 2],
                    b[i + 3],
                    b[i + 4],
                    b[i + 5],
                    b[i + 6],
                    b[i + 7],
                ),
                i + 8,
            ),
        )
    } else {
        None
    }
}

/// Parses a little-endian two's-complement `i32`.
pub open spec fn spec_parse_i32(b: Seq<u8>, i: int) -> Option<(i32, int)> {
    match spec_parse_u32(b, i) {
        Some((v, j)) => Some(((v as i32), j)),
        None => None,
    }
}

// ---------------------------------------------------------------------
// Executable parsers, each proved to agree with its specification.
// ---------------------------------------------------------------------

/// Reads one byte at `i`.
fn parse_u8(b: &Vec<u8>, i: usize) -> (r: Option<(u8, usize)>)
    ensures
        match r {
            Some((v, j)) => spec_parse_u8(b@, i as int) == Some((v, j as int)),
            None => spec_parse_u8(b@, i as int) is None,
        },
{
    if i < b.len() {
        Some((b[i], i + 1))
    } else {
        None
    }
}

/// Reads a little-endian `u16` at `i`.
fn parse_u16(b: &Vec<u8>, i: usize) -> (r: Option<(u16, usize)>)
    ensures
        match r {
            Some((v, j)) => spec_parse_u16(b@, i as int) == Some((v, j as int)),
            None => spec_parse_u16(b@, i as int) is None,
        },
{
    if i < b.len() && 2 <= b.len() - i {
        let v = (b[i] as u16) | ((b[i + 1] as u16) << 8);
        Some((v, i + 2))
    } else {
        None
    }
}

/// Reads a little-endian `u32` at `i`.
fn parse_u32(b: &Vec<u8>, i: usize) -> (r: Option<(u32, usize)>)
    ensures
        match r {
            Some((v, j)) => spec_parse_u32(b@, i as int) == Some((v, j as int)),
            None => spec_parse_u32(b@, i as int) is None,
        },
{
    if i < b.len() && 4 <= b.len() - i {
        let v = (b[i] as u32) | ((b[i + 1] as u32) << 8) | ((b[i + 2] as u32) << 16) | ((b[i
            + 3] as u32) << 24);
        Some((v, i + 4))
    } else {
        None
    }
}

/// Reads a little-endian `u64` at `i`.
fn parse_u64(b: &Vec<u8>, i: usize) -> (r: Option<(u64, usize)>)
    ensures
        match r {
            Some((v, j)) => spec_parse_u64(b@, i as int) == Some((v, j as int)),
            None => spec_parse_u64(b@, i as int) is None,
        },
{
    if i < b.len() && 8 <= b.len() - i {
        let v = (b[i] as u64) | ((b[i + 1] as u64) << 8) | ((b[i + 2] as u64) << 16) | ((b[i
            + 3] as u64) << 24) | ((b[i + 4] as u64) << 32) | ((b[i + 5] as u64) << 40) | ((b[i
            + 6] as u64) << 48) | ((b[i + 7] as u64) << 56);
        Some((v, i + 8))
    } else {
        None
    }
}

/// Reads a little-endian two's-complement `i32` at `i`.
fn parse_i32(b: &Vec<u8>, i: usize) -> (r: Option<(i32, usize)>)
    ensures
        match r {
            Some((v, j)) => spec_parse_i32(b@, i as int) == Some((v, j as int)),
            None => spec_parse_i32(b@, i as int) is None,
        },
{
    match parse_u32(b, i) {
        Some((v, j)) => Some((#[verifier::truncate] (v as i32), j)),
        None => None,
    }
}

// ---------------------------------------------------------------------
// The wire layout of the message payloads, field by field.
// ---------------------------------------------------------------------

/// An offset: x then y, four bytes each.
pub open spec fn spec_ser_offset(o: Offset) -> Seq<u8> {
    spec_i32_le(o.x) + spec_i32_le(o.y)
}

/// A colour: the four channel bytes.
pub open spec fn spec_ser_color(c: Color) -> Seq<u8> {
    seq![c.r, c.g, c.b, c.a]
}

/// A brush: colour, width, the two opaque parameter bit patterns, and the
/// replace flag as one byte.
pub open spec fn spec_ser_brush(b: Brush) -> Seq<u8> {
    spec_ser_color(b.color) + spec_u16_le(b.width) + spec_u32_le(b.hardness_bits) + spec_u32_le(
        b.smudging_bits,
    ) + seq![
        if b.replace {
            1u8
        } else {
            0u8
        },
    ]
}

/// A stroke point: the pressure bit pattern, then x, then y.
pub open spec fn spec_ser_point(p: StrokePoint) -> Seq<u8> {
    spec_u32_le(p.pressure_bits) + spec_i32_le(p.x) + spec_i32_le(p.y)
}

/// A point list, in order; the count travels separately.
pub open spec fn spec_ser_points(ps: Seq<StrokePoint>) -> Seq<u8>
    decreases ps.len(),
{
    if ps.len() == 0 {
        Seq::empty()
    } else {
        spec_ser_points(ps.drop_last()) + spec_ser_point(ps.last())
    }
}

/// A stroke: id, author, brush, point count, then the points.
pub open spec fn spec_ser_stroke(s: StrokeView) -> Seq<u8> {
    spec_u64_le(s.id) + spec_u64_le(s.user_id) + spec_ser_brush(s.brush) + spec_u64_le(
        s.points.len() as u64,
    ) + spec_ser_points(s.points)
}

/// A byte string: its length, then its bytes.
pub open spec fn spec_ser_bytes(bs: Seq<u8>) -> Seq<u8> {
    spec_u64_le(bs.len() as u64) + bs
}

/// A client message: a tag byte, then the payload of that message kind.
pub open spec fn spec_ser_client(m: ClientMessageView) -> Seq<u8> {
    match m {
        ClientMessageView::PaintStroke(lid, s) => seq![0u8, lid] + spec_ser_stroke(s),
        ClientMessageView::SetViewPort(a, b) => seq![1u8] + spec_ser_offset(a) + spec_ser_offset(b),
        ClientMessageView::ChatMessage(text) => seq![2u8] + spec_ser_bytes(text),
        ClientMessageView::UndoMessage => seq![3u8],
    }
}

/// A server message: a tag byte, then the payload of that message kind.
pub open spec fn spec_ser_server(m: ServerMessageView) -> Seq<u8> {
    match m {
        ServerMessageView::PaintStroke(lid, s) => seq![0u8, lid] + spec_ser_stroke(s),
        ServerMessageView::PaintStrokeEcho(lid, s) => seq![1u8, lid] + spec_ser_stroke(s),
        ServerMessageView::ChatMessage(name, text) => seq![2u8] + spec_ser_bytes(name)
            + spec_ser_bytes(text),
    }
}

// ---------------------------------------------------------------------
// Specification-level parsers for the composite layouts.
// ---------------------------------------------------------------------

/// Parses an offset.
pub open spec fn spec_parse_offset(b: Seq<u8>, i: int) -> Option<(Offset, int)> {
    match spec_parse_i32(b, i) {
        Some((x, j)) => match spec_parse_i32(b, j) {
            Some((y, k)) => Some((Offset { x, y }, k)),
            None => None,
        },
        None => None,
    }
}

/// Parses a colour.
pub open spec fn spec_parse_color(b: Seq<u8>, i: int) -> Option<(Color, int)> {
    if 0 <= i && i + 4 <= b.len() {
        Some((Color { r: b[i], g: b[i + 1], b: b[i + 2], a: b[i + 3] }, i + 4))
    } else {
        None
    }
}

/// Parses a brush; the replace flag must be 0 or 1.
pub open spec fn spec_parse_brush(b: Seq<u8>, i: int) -> Option<(Brush, int)> {
    match spec_parse_color(b, i) {
        Some((color, j1)) => match spec_parse_u16(b, j1) {
            Some((width, j2)) => match spec_parse_u32(b, j2) {
                Some((hardness_bits, j3)) => match spec_parse_u32(b, j3) {
                    Some((smudging_bits, j4)) => match spec_parse_u8(b, j4) {
                        Some((flag, j5)) => if flag == 0 || flag == 1 {
                            Some(
                                (
                                    Brush {
                                        color,
                                        width,
                                        hardness_bits,
                                        smudging_bits,
                                        replace: flag == 1,
                                    },
                                    j5,
                                ),
                            )
                        } else {
                            None
                        },
                        None => None,
                    },
                    None => None,
                },
                None => None,
            },
            None => None,
        },
        None => None,
    }
}

/// Parses a stroke point.
pub open spec fn spec_parse_point(b: Seq<u8>, i: int) -> Option<(StrokePoint, int)> {
    match spec_parse_u32(b, i) {
        Some((pressure_bits, j1)) => match spec_parse_i32(b, j1) {
            Some((x, j2)) => match spec_parse_i32(b, j2) {
                Some((y, j3)) => Some((StrokePoint { pressure_bits, x, y }, j3)),
                None => None,
            },
            None => None,
        },
        None => None,
    }
}

/// Parses exactly `n` stroke points.
pub open spec fn spec_parse_points(b: Seq<u8>, i: int, n: int) -> Option<(Seq<StrokePoint>, int)>
    decreases n,
{
    if n <= 0 {
        Some((Seq::empty(), i))
    } else {
        match spec_parse_points(b, i, n - 1) {
            Some((ps, j)) => match spec_parse_point(b, j) {
                Some((p, k)) => Some((ps.push(p), k)),
                None => None,
            },
            None => None,
        }
    }
}

/// Parses a stroke.
pub open spec fn spec_parse_stroke(b: Seq<u8>, i: int) -> Option<(StrokeView, int)> {
    match spec_parse_u64(b, i) {
        Some((id, j1)) => match spec_parse_u64(b, j1) {
            Some((user_id, j2)) => match spec_parse_brush(b, j2) {
                Some((brush, j3)) => match spec_parse_u64(b, j3) {
                    Some((n, j4)) => match spec_parse_points(b, j4, n as int) {
                        Some((points, j5)) => Some((StrokeView { id, user_id, brush, points }, j5)),
                        None => None,
                    },
                    None => None,
                },
                None => None,
            },
            None => None,
        },
        None => None,
    }
}

/// Parses a length-prefixed byte string.
pub open spec fn spec_parse_bytes(b: Seq<u8>, i: int) -> Option<(Seq<u8>, int)> {
    match spec_parse_u64(b, i) {
        Some((n, j)) => if j + n <= b.len() {
            Some((b.subrange(j, j + n), j + n))
        } else {
            None
        },
        None => None,
    }
}

/// Parses a client message starting at `i`.
pub open spec fn spec_parse_client(b: Seq<u8>, i: int) -> Option<(ClientMessageView, int)> {
    match spec_parse_u8(b, i) {
        Some((tag, j)) => if tag == 0 {
            match spec_parse_u8(b, j) {
                Some((lid, j1)) => match spec_parse_stroke(b, j1) {
                    Some((s, j2)) => Some((ClientMessageView::PaintStroke(lid, s), j2)),
                    None => None,
                },
                None => None,
            }
        } else if tag == 1 {
            match spec_parse_offset(b, j) {
                Some((a, j1)) => match spec_parse_offset(b, j1) {
                    Some((c, j2)) => Some((ClientMessageView::SetViewPort(a, c), j2)),
                    None => None,
                },
                None => None,
            }
        } else if tag == 2 {
            match spec_parse_bytes(b, j) {
                Some((text, j1)) => Some((ClientMessageView::ChatMessage(text), j1)),
                None => None,
            }
        } else if tag == 3 {
            Some((ClientMessageView::UndoMessage, j))
        } else {
            None
        },
        None => None,
    }
}

/// Parses a server message starting at `i`.
pub open spec fn spec_parse_server(b: Seq<u8>, i: int) -> Option<(ServerMessageView, int)> {
    match spec_parse_u8(b, i) {
        Some((tag, j)) => if tag == 0 || tag == 1 {
            match spec_parse_u8(b, j) {
                Some((lid, j1)) => match spec_parse_stroke(b, j1) {
                    Some((s, j2)) => Some(
                        (
                            if tag == 0 {
                                ServerMessageView::PaintStroke(lid, s)
                            } else {
                                ServerMessageView::PaintStrokeEcho(lid, s)
                            },
                            j2,
                        ),
                    ),
                    None => None,
                },
                None => None,
            }
        } else if tag == 2 {
            match spec_parse_bytes(b, j) {
                Some((name, j1)) => match spec_parse_bytes(b, j1) {
                    Some((text, j2)) => Some((ServerMessageView::ChatMessage(name, text), j2)),
                    None => None,
                },
                None => None,
            }
        } else {
            None
        },
        None => None,
    }
}

// ---------------------------------------------------------------------
// Executable writers for the composite layouts.
// ---------------------------------------------------------------------

/// Appends the wire form of an offset.
fn ser_offset(out: &mut Vec<u8>, o: &Offset)
    ensures
        final(out)@ == old(out)@ + spec_ser_offset(*o),
{
    ser_i32(out, o.x);
    ser_i32(out, o.y);
    proof {
        assert(out@ =~= old(out)@ + spec_ser_offset(*o));
    }
}

/// Appends the wire form of a colour.
fn ser_color(out: &mut Vec<u8>, c: &Color)
    ensures
        final(out)@ == old(out)@ + spec_ser_color(*c),
{
    out.push(c.r);
    out.push(c.g);
    out.push(c.b);
    out.push(c.a);
    proof {
        assert(out@ =~= old(out)@ + spec_ser_color(*c));
    }
}

/// Appends the wire form of a brush.
fn ser_brush(out: &mut Vec<u8>, b: &Brush)
    ensures
        final(out)@ == old(out)@ + spec_ser_brush(*b),
{
    ser_color(out, &b.color);
    ser_u16(out, b.width);
    ser_u32(out, b.hardness_bits);
    ser_u32(out, b.smudging_bits);
    ser_u8(
        out,
        if b.replace {
            1
        } else {
            0
        },
    );
    proof {
        assert(out@ =~= old(out)@ + spec_ser_brush(*b));
    }
}

/// Appends the wire form of a stroke point.
fn ser_point(out: &mut Vec<u8>, p: &StrokePoint)
    ensures
        final(out)@ == old(out)@ + spec_ser_point(*p),
{
    ser_u32(out, p.pressure_bits);
    ser_i32(out, p.x);
    ser_i32(out, p.y);
    proof {
        assert(out@ =~= old(out)@ + spec_ser_point(*p));
    }
}

/// Appends the wire form of a point list (without its count).
fn ser_points(out: &mut Vec<u8>, ps: &Vec<StrokePoint>)
    ensures
        final(out)@ == old(out)@ + spec_ser_points(ps@),
{
    let mut k: usize = 0;
    while k < ps.len()
        invariant
            k <= ps@.len(),
            out@ == old(out)@ + spec_ser_points(ps@.take(k as int)),
        decreases ps@.len() - k,
    {
        ser_point(out, &ps[k]);
        proof {
            assert(ps@.take(k as int + 1).drop_last() =~= ps@.take(k as int));
            assert(ps@.take(k as int + 1).last() == ps@[k as int]);
            assert(out@ =~= old(out)@ + spec_ser_points(ps@.take(k as int + 1)));
        }
        k += 1;
    }
    proof {
        assert(ps@.take(k as int) =~= ps@);
    }
}

/// Appends the wire form of a stroke.
fn ser_stroke(out: &mut Vec<u8>, s: &PaintStroke)
    ensures
        final(out)@ == old(out)@ + spec_ser_stroke(s@),
{
    ser_u64(out, s.id);
    ser_u64(out, s.user_id);
    ser_brush(out, &s.brush);
    ser_u64(out, s.points.len() as u64);
    ser_points(out, &s.points);
    proof {
        assert(out@ =~= old(out)@ + spec_ser_stroke(s@));
    }
}

/// Appends a length-prefixed byte string.
fn ser_bytes(out: &mut Vec<u8>, bs: &Vec<u8>)
    ensures
        final(out)@ == old(out)@ + spec_ser_bytes(bs@),
{
    ser_u64(out, bs.len() as u64);
    let mut k: usize = 0;
    while k < bs.len()
        invariant
            k <= bs@.len(),
            out@ == old(out)@ + spec_u64_le(bs@.len() as u64) + bs@.take(k as int),
        decreases bs@.len() - k,
    {
        out.push(bs[k]);
        proof {
            assert(out@ =~= old(out)@ + spec_u64_le(bs@.len() as u64) + bs@.take(k as int + 1));
        }
        k += 1;
    }
    proof {
        assert(bs@.take(k as int) =~= bs@);
        assert(out@ =~= old(out)@ + spec_ser_bytes(bs@));
    }
}

/// The wire form of a client message, before compression.
fn ser_client(m: &ClientMessage) -> (r: Vec<u8>)
    ensures
        r@ == spec_ser_client(m@),
{
    let mut out: Vec<u8> = Vec::new();
    match m {
        ClientMessage::PaintStroke(lid, s) => {
            out.push(0);
            out.push(*lid);
            ser_stroke(&mut out, s);
            proof {
                assert(out@ =~= spec_ser_client(m@));
            }
        },
        ClientMessage::SetViewPort(a, b) => {
            out.push(1);
            ser_offset(&mut out, a);
            ser_offset(&mut out, b);
            proof {
                assert(out@ =~= spec_ser_client(m@));
            }
        },
        ClientMessage::ChatMessage(text) => {
            out.push(2);
            ser_bytes(&mut out, text);
            proof {
                assert(out@ =~= spec_ser_client(m@));
            }
        },
        ClientMessage::UndoMessage => {
            out.push(3);
            proof {
                assert(out@ =~= spec_ser_client(m@));
            }
        },
    }
    out
}

/// The wire form of a server message, before compression.
fn ser_server(m: &ServerMessage) -> (r: Vec<u8>)
    ensures
        r@ == spec_ser_server(m@),
{
    let mut out: Vec<u8> = Vec::new();
    match m {
        ServerMessage::PaintStroke(lid, s) => {
            out.push(0);
            out.push(*lid);
            ser_stroke(&mut out, s);
            proof {
                assert(out@ =~= spec_ser_server(m@));
            }
        },
        ServerMessage::PaintStrokeEcho(lid, s) => {
            out.push(1);
            out.push(*lid);
            ser_stroke(&mut out, s);
            proof {
                assert(out@ =~= spec_ser_server(m@));
            }
        },
        ServerMessage::ChatMessage(name, text) => {
            out.push(2);
            ser_bytes(&mut out, name);
            ser_bytes(&mut out, text);
            proof {
                assert(out@ =~= spec_ser_server(m@));
            }
        },
    }
    out
}

// ---------------------------------------------------------------------
// Executable parsers for the composite layouts.
// ---------------------------------------------------------------------

/// Reads an offset at `i`.
fn parse_offset(b: &Vec<u8>, i: usize) -> (r: Option<(Offset, usize)>)
    ensures
        match r {
            Some((v, j)) => spec_parse_offset(b@, i as int) == Some((v, j as int)),
            None => spec_parse_offset(b@, i as int) is None,
        },
{
    match parse_i32(b, i) {
        Some((x, j)) => match parse_i32(b, j) {
            Some((y, k)) => Some((Offset { x, y }, k)),
            None => None,
        },
        None => None,
    }
}

/// Reads a colour at `i`.
fn parse_color(b: &Vec<u8>, i: usize) -> (r: Option<(Color, usize)>)
    ensures
        match r {
            Some((v, j)) => spec_parse_color(b@, i as int) == Some((v, j as int)),
            None => spec_parse_color(b@, i as int) is None,
        },
{
    if i < b.len() && 4 <= b.len() - i {
        Some((Color { r: b[i], g: b[i + 1], b: b[i + 2], a: b[i + 3] }, i + 4))
    } else {
        None
    }
}

/// Reads a brush at `i`; its replace flag must be 0 or 1.
fn parse_brush(b: &Vec<u8>, i: usize) -> (r: Option<(Brush, usize)>)
    ensures
        match r {
            Some((v, j)) => spec_parse_brush(b@, i as int) == Some((v, j as int)),
            None => spec_parse_brush(b@, i as int) is None,
        },
{
    match parse_color(b, i) {
        Some((color, j1)) => match parse_u16(b, j1) {
            Some((width, j2)) => match parse_u32(b, j2) {
                Some((hardness_bits, j3)) => match parse_u32(b, j3) {
                    Some((smudging_bits, j4)) => match parse_u8(b, j4) {
                        Some((flag, j5)) => {
                            if flag == 0 || flag == 1 {
                                Some(
                                    (
                                        Brush {
                                            color,
                                            width,
                                            hardness_bits,
                                            smudging_bits,
                                            replace: flag == 1,
                                        },
                                        j5,
                                    ),
                                )
                            } else {
                                None
                            }
                        },
                        None => None,
                    },
                    None => None,
                },
                None => None,
            },
            None => None,
        },
        None => None,
    }
}

/// Reads a stroke point at `i`.
fn parse_point(b: &Vec<u8>, i: usize) -> (r: Option<(StrokePoint, usize)>)
    ensures
        match r {
            Some((v, j)) => spec_parse_point(b@, i as int) == Some((v, j as int)),
            None => spec_parse_point(b@, i as int) is None,
        },
{
    match parse_u32(b, i) {
        Some((pressure_bits, j1)) => match parse_i32(b, j1) {
            Some((x, j2)) => match parse_i32(b, j2) {
                Some((y, j3)) => Some((StrokePoint { pressure_bits, x, y }, j3)),
                None => None,
            },
            None => None,
        },
        None => None,
    }
}

/// When a point list's prefix parses but the next point does not, no
/// longer count can parse either.
proof fn lemma_points_fail(b: Seq<u8>, i: int, k: int, m: int, ps: Seq<StrokePoint>, cur: int)
    requires
        0 <= k < m,
        spec_parse_points(b, i, k) == Some((ps, cur)),
        spec_parse_point(b, cur) is None,
    ensures
        spec_parse_points(b, i, m) is None,
    decreases m,
{
    if m > k + 1 {
        lemma_points_fail(b, i, k, m - 1, ps, cur);
    }
}

/// Reads exactly `n` stroke points at `i`.
fn parse_points(b: &Vec<u8>, i: usize, n: u64) -> (r: Option<(Vec<StrokePoint>, usize)>)
    ensures
        match r {
            Some((ps, j)) => spec_parse_points(b@, i as int, n as int) == Some((ps@, j as int)),
            None => spec_parse_points(b@, i as int, n as int) is None,
        },
{
    let mut ps: Vec<StrokePoint> = Vec::new();
    let mut cur: usize = i;
    let mut k: u64 = 0;
    while k < n
        invariant
            k <= n,
            spec_parse_points(b@, i as int, k as int) == Some((ps@, cur as int)),
        decreases n - k,
    {
        match parse_point(b, cur) {
            Some((p, j)) => {
                let ghost ps_before = ps@;
                ps.push(p);
                proof {
                    assert(ps@ =~= ps_before.push(p));
                }
                cur = j;
            },
            None => {
                proof {
                    lemma_points_fail(b@, i as int, k as int, n as int, ps@, cur as int);
                }
                return None;
            },
        }
        k += 1;
    }
    Some((ps, cur))
}

/// Reads a stroke at `i`.
fn parse_stroke(b: &Vec<u8>, i: usize) -> (r: Option<(PaintStroke, usize)>)
    ensures
        match r {
            Some((s, j)) => spec_parse_stroke(b@, i as int) == Some((s@, j as int)),
            None => spec_parse_stroke(b@, i as int) is None,
        },
{
    match parse_u64(b, i) {
        Some((id, j1)) => match parse_u64(b, j1) {
            Some((user_id, j2)) => match parse_brush(b, j2) {
                Some((brush, j3)) => match parse_u64(b, j3) {
                    Some((n, j4)) => match parse_points(b, j4, n) {
                        Some((points, j5)) => Some((PaintStroke { id, user_id, brush, points }, j5)),
                        None => None,
                    },
                    None => None,
                },
                None => None,
            },
            None => None,
        },
        None => None,
    }
}

/// Reads a length-prefixed byte string at `i`.
fn parse_bytes(b: &Vec<u8>, i: usize) -> (r: Option<(Vec<u8>, usize)>)
    ensures
        match r {
            Some((bs, j)) => spec_parse_bytes(b@, i as int) == Some((bs@, j as int)),
            None => spec_parse_bytes(b@, i as int) is None,
        },
{
    match parse_u64(b, i) {
        Some((n, j)) => {
            if n <= (b.len() - j) as u64 {
                let len = n as usize;
                let mut out: Vec<u8> = Vec::new();
                let mut k: usize = 0;
                while k < len
                    invariant
                        k <= len,
                        j + len <= b@.len(),
                        b@.len() <= usize::MAX,
                        out@ == b@.subrange(j as int, j as int + k as int),
                    decreases len - k,
                {
                    out.push(b[j + k]);
                    proof {
                        assert(out@ =~= b@.subrange(j as int, j as int + k as int + 1));
                    }
                    k += 1;
                }
                Some((out, j + len))
            } else {
                None
            }
        },
        None => None,
    }
}

/// Decodes a whole uncompressed client-message payload; trailing bytes
/// make it malformed.
fn parse_client_message(b: &Vec<u8>) -> (r: Option<ClientMessage>)
    ensures
        match r {
            Some(m) => spec_decode_client(b@) == Some(m@),
            None => spec_decode_client(b@) is None,
        },
{
    let parsed = match parse_u8(b, 0) {
        Some((tag, j)) => {
            if tag == 0 {
                match parse_u8(b, j) {
                    Some((lid, j1)) => match parse_stroke(b, j1) {
                        Some((s, j2)) => Some((ClientMessage::PaintStroke(lid, s), j2)),
                        None => None,
                    },
                    None => None,
                }
            } else if tag == 1 {
                match parse_offset(b, j) {
                    Some((a, j1)) => match parse_offset(b, j1) {
                        Some((c, j2)) => Some((ClientMessage::SetViewPort(a, c), j2)),
                        None => None,
                    },
                    None => None,
                }
            } else if tag == 2 {
                match parse_bytes(b, j) {
                    Some((text, j1)) => Some((ClientMessage::ChatMessage(text), j1)),
                    None => None,
                }
            } else if tag == 3 {
                Some((ClientMessage::UndoMessage, j))
            } else {
                None
            }
        },
        None => None,
    };
    match parsed {
        Some((m, j)) => {
            if j == b.len() {
                Some(m)
            } else {
                None
            }
        },
        None => None,
    }
}

/// Decodes a whole uncompressed server-message payload; trailing bytes
/// make it malformed.
fn parse_server_message(b: &Vec<u8>) -> (r: Option<ServerMessage>)
    ensures
        match r {
            Some(m) => spec_decode_server(b@) == Some(m@),
            None => spec_decode_server(b@) is None,
        },
{
    let parsed = match parse_u8(b, 0) {
        Some((tag, j)) => {
            if tag == 0 || tag == 1 {
                match parse_u8(b, j) {
                    Some((lid, j1)) => match parse_stroke(b, j1) {
                        Some((s, j2)) => Some(
                            (
                                if tag == 0 {
                                    ServerMessage::PaintStroke(lid, s)
                                } else {
                                    ServerMessage::PaintStrokeEcho(lid, s)
                                },
                                j2,
                            ),
                        ),
                        None => None,
                    },
                    None => None,
                }
            } else if tag == 2 {
                match parse_bytes(b, j) {
                    Some((name, j1)) => match parse_bytes(b, j1) {
                        Some((text, j2)) => Some((ServerMessage::ChatMessage(name, text), j2)),
                        None => None,
                    },
                    None => None,
                }
            } else {
                None
            }
        },
        None => None,
    };
    match parsed {
        Some((m, j)) => {
            if j == b.len() {
                Some(m)
            } else {
                None
            }
        },
        None => None,
    }
}

/// A whole client-message payload: one message and nothing after it.
pub open spec fn spec_decode_client(b: Seq<u8>) -> Option<ClientMessageView> {
    match spec_parse_client(b, 0) {
        Some((m, j)) => if j == b.len() {
            Some(m)
        } else {
            None
        },
        None => None,
    }
}

/// A whole server-message payload: one message and nothing after it.
pub open spec fn spec_decode_server(b: Seq<u8>) -> Option<ServerMessageView> {
    match spec_parse_server(b, 0) {
        Some((m, j)) => if j == b.len() {
            Some(m)
        } else {
            None
        },
        None => None,
    }
}

// ---------------------------------------------------------------------
// Round trip: parsing reverses serialization, field by field.
// ---------------------------------------------------------------------

/// Splits knowledge about a concatenated byte range into its two halves.
proof fn lemma_subrange_split(b: Seq<u8>, i: int, x: Seq<u8>, y: Seq<u8>)
    requires
        0 <= i,
        i + x.len() + y.len() <= b.len(),
        b.subrange(i, i + x.len() + y.len()) == x + y,
    ensures
        b.subrange(i, i + x.len()) == x,
        b.subrange(i + x.len(), i + x.len() + y.len()) == y,
{
    assert forall|k: int| 0 <= k < x.len() implies b.subrange(i, i + x.len())[k] == x[k] by {
        assert(b.subrange(i, i + x.len() + y.len())[k] == (x + y)[k]);
    }
    assert(b.subrange(i, i + x.len()) =~= x);
    assert forall|k: int|
        0 <= k < y.len() implies b.subrange(i + x.len(), i + x.len() + y.len())[k] == y[k] by {
        assert(b.subrange(i + x.len(), i + x.len() + y.len())[k] == b[i + x.len() + k]);
        assert(b[i + x.len() + k] == b.subrange(i, i + x.len() + y.len())[x.len() + k]);
        assert(b.subrange(i, i + x.len() + y.len())[x.len() + k] == (x + y)[x.len() + k]);
        assert((x + y)[x.len() + k] == y[k]);
    }
    assert(b.subrange(i + x.len(), i + x.len() + y.len()) =~= y);
}

proof fn lemma_parse_u8_at(b: Seq<u8>, i: int, v: u8)
    requires
        0 <= i,
        i + 1 <= b.len(),
        b.subrange(i, i + 1) == seq![v],
    ensures
        spec_parse_u8(b, i) == Some((v, i + 1)),
{
    assert(b[i] == b.subrange(i, i + 1)[0]);
}

proof fn lemma_parse_u16_at(b: Seq<u8>, i: int, v: u16)
    requires
        0 <= i,
        i + 2 <= b.len(),
        b.subrange(i, i + 2) == spec_u16_le(v),
    ensures
        spec_parse_u16(b, i) == Some((v, i + 2)),
{
    assert(forall|k: int| 0 <= k < 2 ==> b.subrange(i, i + 2)[k] == #[trigger] b[i + k]);
    lemma_u16_round(v);
}

proof fn lemma_parse_u32_at(b: Seq<u8>, i: int, v: u32)
    requires
        0 <= i,
        i + 4 <= b.len(),
        b.subrange(i, i + 4) == spec_u32_le(v),
    ensures
        spec_parse_u32(b, i) == Some((v, i + 4)),
{
    assert(forall|k: int| 0 <= k < 4 ==> b.subrange(i, i + 4)[k] == #[trigger] b[i + k]);
    lemma_u32_round(v);
}

proof fn lemma_parse_u64_at(b: Seq<u8>, i: int, v: u64)
    requires
        0 <= i,
        i + 8 <= b.len(),
        b.subrange(i, i + 8) == spec_u64_le(v),
    ensures
        spec_parse_u64(b, i) == Some((v, i + 8)),
{
    assert(forall|k: int| 0 <= k < 8 ==> b.subrange(i, i + 8)[k] == #[trigger] b[i + k]);
    lemma_u64_round(v);
}

proof fn lemma_parse_i32_at(b: Seq<u8>, i: int, v: i32)
    requires
        0 <= i,
        i + 4 <= b.len(),
        b.subrange(i, i + 4) == spec_i32_le(v),
    ensures
        spec_parse_i32(b, i) == Some((v, i + 4)),
{
    lemma_parse_u32_at(b, i, v as u32);
    lemma_i32_round(v);
}

proof fn lemma_parse_offset_at(b: Seq<u8>, i: int, o: Offset)
    requires
        0 <= i,
        i + 8 <= b.len(),
        b.subrange(i, i + 8) == spec_ser_offset(o),
    ensures
        spec_parse_offset(b, i) == Some((o, i + 8)),
{
    lemma_subrange_split(b, i, spec_i32_le(o.x), spec_i32_le(o.y));
    lemma_parse_i32_at(b, i, o.x);
    lemma_parse_i32_at(b, i + 4, o.y);
}

proof fn lemma_parse_color_at(b: Seq<u8>, i: int, c: Color)
    requires
        0 <= i,
        i + 4 <= b.len(),
        b.subrange(i, i + 4) == spec_ser_color(c),
    ensures
        spec_parse_color(b, i) == Some((c, i + 4)),
{
    assert(forall|k: int| 0 <= k < 4 ==> b.subrange(i, i + 4)[k] == #[trigger] b[i + k]);
}

proof fn lemma_parse_brush_at(b: Seq<u8>, i: int, v: Brush)
    requires
        0 <= i,
        i + 15 <= b.len(),
        b.subrange(i, i + 15) == spec_ser_brush(v),
    ensures
        spec_parse_brush(b, i) == Some((v, i + 15)),
{
    let flag_seq = seq![
        if v.replace {
            1u8
        } else {
            0u8
        },
    ];
    let head4 = spec_ser_color(v.color) + spec_u16_le(v.width) + spec_u32_le(v.hardness_bits)
        + spec_u32_le(v.smudging_bits);
    assert(b.subrange(i, i + 15) == head4 + flag_seq);
    lemma_subrange_split(b, i, head4, flag_seq);
    let head3 = spec_ser_color(v.color) + spec_u16_le(v.width) + spec_u32_le(v.hardness_bits);
    assert(head4 == head3 + spec_u32_le(v.smudging_bits));
    lemma_subrange_split(b, i, head3, spec_u32_le(v.smudging_bits));
    let head2 = spec_ser_color(v.color) + spec_u16_le(v.width);
    assert(head3 == head2 + spec_u32_le(v.hardness_bits));
    lemma_subrange_split(b, i, head2, spec_u32_le(v.hardness_bits));
    assert(head2 == spec_ser_color(v.color) + spec_u16_le(v.width));
    lemma_subrange_split(b, i, spec_ser_color(v.color), spec_u16_le(v.width));
    lemma_parse_color_at(b, i, v.color);
    lemma_parse_u16_at(b, i + 4, v.width);
    lemma_parse_u32_at(b, i + 6, v.hardness_bits);
    lemma_parse_u32_at(b, i + 10, v.smudging_bits);
    lemma_parse_u8_at(b, i + 14, if v.replace { 1u8 } else { 0u8 });
}

proof fn lemma_parse_point_at(b: Seq<u8>, i: int, p: StrokePoint)
    requires
        0 <= i,
        i + 12 <= b.len(),
        b.subrange(i, i + 12) == spec_ser_point(p),
    ensures
        spec_parse_point(b, i) == Some((p, i + 12)),
{
    let head2 = spec_u32_le(p.pressure_bits) + spec_i32_le(p.x);
    assert(b.subrange(i, i + 12) == head2 + spec_i32_le(p.y));
    lemma_subrange_split(b, i, head2, spec_i32_le(p.y));
    lemma_subrange_split(b, i, spec_u32_le(p.pressure_bits), spec_i32_le(p.x));
    lemma_parse_u32_at(b, i, p.pressure_bits);
    lemma_parse_i32_at(b, i + 4, p.x);
    lemma_parse_i32_at(b, i + 8, p.y);
}

/// Each point takes twelve bytes on the wire.
proof fn lemma_ser_points_len(ps: Seq<StrokePoint>)
    ensures
        spec_ser_points(ps).len() == 12 * ps.len(),
    decreases ps.len(),
{
    if ps.len() > 0 {
        lemma_ser_points_len(ps.drop_last());
    }
}

proof fn lemma_parse_points_at(b: Seq<u8>, i: int, ps: Seq<StrokePoint>)
    requires
        0 <= i,
        i + 12 * ps.len() <= b.len(),
        b.subrange(i, i + 12 * ps.len()) == spec_ser_points(ps),
    ensures
        spec_parse_points(b, i, ps.len() as int) == Some((ps, i + 12 * ps.len())),
    decreases ps.len(),
{
    if ps.len() > 0 {
        let rest = ps.drop_last();
        lemma_ser_points_len(rest);
        lemma_ser_points_len(ps);
        lemma_subrange_split(b, i, spec_ser_points(rest), spec_ser_point(ps.last()));
        lemma_parse_points_at(b, i, rest);
        lemma_parse_point_at(b, i + 12 * rest.len(), ps.last());
        assert(rest.push(ps.last()) =~= ps);
    }
}

proof fn lemma_parse_stroke_at(b: Seq<u8>, i: int, s: StrokeView)
    requires
        0 <= i,
        s.points.len() <= u64::MAX,
        i + spec_ser_stroke(s).len() <= b.len(),
        b.subrange(i, i + spec_ser_stroke(s).len()) == spec_ser_stroke(s),
    ensures
        spec_parse_stroke(b, i) == Some((s, i + spec_ser_stroke(s).len())),
{
    lemma_ser_points_len(s.points);
    let n = s.points.len() as int;
    let total = 39 + 12 * n;
    assert(spec_ser_stroke(s).len() == total);
    let head4 = spec_u64_le(s.id) + spec_u64_le(s.user_id) + spec_ser_brush(s.brush) + spec_u64_le(
        s.points.len() as u64,
    );
    assert(b.subrange(i, i + total) == head4 + spec_ser_points(s.points));
    lemma_subrange_split(b, i, head4, spec_ser_points(s.points));
    let head3 = spec_u64_le(s.id) + spec_u64_le(s.user_id) + spec_ser_brush(s.brush);
    assert(head4 == head3 + spec_u64_le(s.points.len() as u64));
    lemma_subrange_split(b, i, head3, spec_u64_le(s.points.len() as u64));
    let head2 = spec_u64_le(s.id) + spec_u64_le(s.user_id);
    assert(head3 == head2 + spec_ser_brush(s.brush));
    lemma_subrange_split(b, i, head2, spec_ser_brush(s.brush));
    lemma_subrange_split(b, i, spec_u64_le(s.id), spec_u64_le(s.user_id));
    lemma_parse_u64_at(b, i, s.id);
    lemma_parse_u64_at(b, i + 8, s.user_id);
    lemma_parse_brush_at(b, i + 16, s.brush);
    lemma_parse_u64_at(b, i + 31, s.points.len() as u64);
    lemma_parse_points_at(b, i + 39, s.points);
    assert((s.points.len() as u64) as int == n);
}

proof fn lemma_parse_bytes_at(b: Seq<u8>, i: int, bs: Seq<u8>)
    requires
        0 <= i,
        bs.len() <= u64::MAX,
        i + 8 + bs.len() <= b.len(),
        b.subrange(i, i + 8 + bs.len()) == spec_ser_bytes(bs),
    ensures
        spec_parse_bytes(b, i) == Some((bs, i + 8 + bs.len())),
{
    lemma_subrange_split(b, i, spec_u64_le(bs.len() as u64), bs);
    lemma_parse_u64_at(b, i, bs.len() as u64);
    assert((bs.len() as u64) as int == bs.len() as int);
}

/// Whether the sequences inside the message view are small enough for
/// their wire-format length fields. The view of every `ClientMessage`
/// value satisfies this.
pub open spec fn client_view_bounded(m: ClientMessageView) -> bool {
    match m {
        ClientMessageView::PaintStroke(_, s) => s.points.len() <= u64::MAX,
        ClientMessageView::SetViewPort(_, _) => true,
        ClientMessageView::ChatMessage(text) => text.len() <= u64::MAX,
        ClientMessageView::UndoMessage => true,
    }
}

/// Whether the sequences inside the message view are small enough for
/// their wire-format length fields. The view of every `ServerMessage`
/// value satisfies this.
pub open spec fn server_view_bounded(m: ServerMessageView) -> bool {
    match m {
        ServerMessageView::PaintStroke(_, s) => s.points.len() <= u64::MAX,
        ServerMessageView::PaintStrokeEcho(_, s) => s.points.len() <= u64::MAX,
        ServerMessageView::ChatMessage(name, text) => name.len() <= u64::MAX && text.len()
            <= u64::MAX,
    }
}

/// Codec round trip, serialization half: decoding the uncompressed wire
/// form of any client message yields exactly that message.
#[verifier::rlimit(100)]
pub proof fn lemma_client_codec_round_trip(m: ClientMessageView)
    requires
        client_view_bounded(m),
    ensures
        spec_decode_client(spec_ser_client(m)) == Some(m),
{
    let b = spec_ser_client(m);
    match m {
        ClientMessageView::PaintStroke(lid, s) => {
            assert(b == seq![0u8, lid] + spec_ser_stroke(s));
            assert(b.subrange(0, 1) =~= seq![0u8]);
            assert(b.subrange(1, 2) =~= seq![lid]);
            lemma_parse_u8_at(b, 0, 0u8);
            lemma_parse_u8_at(b, 1, lid);
            assert(b.subrange(2, 2 + spec_ser_stroke(s).len() as int) =~= spec_ser_stroke(s));
            lemma_parse_stroke_at(b, 2, s);
        },
        ClientMessageView::SetViewPort(a, c) => {
            assert(b == seq![1u8] + spec_ser_offset(a) + spec_ser_offset(c));
            assert(b.subrange(0, 1) =~= seq![1u8]);
            lemma_parse_u8_at(b, 0, 1u8);
            assert(b.subrange(1, 9) =~= spec_ser_offset(a));
            assert(b.subrange(9, 17) =~= spec_ser_offset(c));
            lemma_parse_offset_at(b, 1, a);
            lemma_parse_offset_at(b, 9, c);
        },
        ClientMessageView::ChatMessage(text) => {
            assert(b == seq![2u8] + spec_ser_bytes(text));
            assert(b.subrange(0, 1) =~= seq![2u8]);
            lemma_parse_u8_at(b, 0, 2u8);
            assert(b.subrange(1, 9 + text.len() as int) =~= spec_ser_bytes(text));
            lemma_parse_bytes_at(b, 1, text);
        },
        ClientMessageView::UndoMessage => {
            assert(b =~= seq![3u8]);
            assert(b.subrange(0, 1) =~= seq![3u8]);
            lemma_parse_u8_at(b, 0, 3u8);
        },
    }
}

/// Codec round trip, serialization half: decoding the uncompressed wire
/// form of any server message yields exactly that message.
#[verifier::rlimit(100)]
pub proof fn lemma_server_codec_round_trip(m: ServerMessageView)
    requires
        server_view_bounded(m),
    ensures
        spec_decode_server(spec_ser_server(m)) == Some(m),
{
    let b = spec_ser_server(m);
    match m {
        ServerMessageView::PaintStroke(lid, s) => {
            assert(b == seq![0u8, lid] + spec_ser_stroke(s));
            assert(b.subrange(0, 1) =~= seq![0u8]);
            assert(b.subrange(1, 2) =~= seq![lid]);
            lemma_parse_u8_at(b, 0, 0u8);
            lemma_parse_u8_at(b, 1, lid);
            assert(b.subrange(2, 2 + spec_ser_stroke(s).len() as int) =~= spec_ser_stroke(s));
            lemma_parse_stroke_at(b, 2, s);
        },
        ServerMessageView::PaintStrokeEcho(lid, s) => {
            assert(b == seq![1u8, lid] + spec_ser_stroke(s));
            assert(b.subrange(0, 1) =~= seq![1u8]);
            assert(b.subrange(1, 2) =~= seq![lid]);
            lemma_parse_u8_at(b, 0, 1u8);
            lemma_parse_u8_at(b, 1, lid);
            assert(b.subrange(2, 2 + spec_ser_stroke(s).len() as int) =~= spec_ser_stroke(s));
            lemma_parse_stroke_at(b, 2, s);
        },
        ServerMessageView::ChatMessage(name, text) => {
            assert(b == seq![2u8] + spec_ser_bytes(name) + spec_ser_bytes(text));
            assert(b.subrange(0, 1) =~= seq![2u8]);
            lemma_parse_u8_at(b, 0, 2u8);
            assert(b.subrange(1, 9 + name.len() as int) =~= spec_ser_bytes(name));
            lemma_parse_bytes_at(b, 1, name);
            assert(b.subrange(9 + name.len() as int, 9 + name.len() + 8 + text.len() as int) =~= spec_ser_bytes(
                text,
            ));
            lemma_parse_bytes_at(b, 9 + name.len() as int, text);
        },
    }
}

// ---------------------------------------------------------------------
// Compression, through flate2, and the public codec entry points.
// ---------------------------------------------------------------------

/// The byte stream that the DEFLATE encoder, at its default setting,
/// produces for the given input: a function of the input bytes alone.
pub uninterp spec fn deflate_of(b: Seq<u8>) -> Seq<u8>;

/// What the DEFLATE decoder makes of the given byte stream: the
/// decompressed bytes, or nothing for a malformed stream. A function of
/// the input bytes alone.
pub uninterp spec fn inflate_of(b: Seq<u8>) -> Option<Seq<u8>>;

/// Relies on flate2's `write::DeflateEncoder` with the default compression
/// setting: what it produces depends on the input bytes alone, and,
/// DEFLATE being lossless, decoding the result yields the input again.
/// Compressing into a `Vec` never fails: the `Vec` writer is infallible,
/// the compression parameters are flate2's own defaults, and the pure-Rust
/// compressor reports an error only for invalid parameters or a failed
/// output callback, neither of which this call can produce.
#[verifier::external_body]
fn deflate_compress(data: &Vec<u8>) -> (r: Result<Vec<u8>, String>)
    ensures
        r is Ok,
        r matches Ok(v) ==> v@ == deflate_of(data@) && inflate_of(v@) == Some(data@),
{
    let mut e = flate2::write::DeflateEncoder::new(Vec::new(), flate2::Compression::default());
    if let Err(err) = e.write_all(data.as_slice()) {
        return Err(err.to_string());
    }
    match e.finish() {
        Ok(v) => Ok(v),
        Err(err) => Err(err.to_string()),
    }
}

/// Relies on flate2's `read::DeflateDecoder`: what it yields, or that it
/// fails, depends on the input bytes alone.
#[verifier::external_body]
fn deflate_decompress(data: &Vec<u8>) -> (r: Result<Vec<u8>, String>)
    ensures
        r matches Ok(v) ==> inflate_of(data@) == Some(v@),
        r is Err ==> inflate_of(data@) is None,
{
    let mut buf = Vec::new();
    let mut inflater = flate2::read::DeflateDecoder::new(data.as_slice());
    match inflater.read_to_end(&mut buf) {
        Ok(_) => Ok(buf),
        Err(err) => Err(err.to_string()),
    }
}

/// Serializes a client message to its compact binary form, then
/// compresses it. Encoding a constructible message always succeeds.
pub fn to_zbincode_client(message: &ClientMessage) -> (r: Result<Vec<u8>, String>)
    ensures
        r is Ok,
        r matches Ok(v) ==> v@ == deflate_of(spec_ser_client(message@)) && inflate_of(v@) == Some(
            spec_ser_client(message@),
        ),
{
    deflate_compress(&ser_client(message))
}

/// Serializes a server message to its compact binary form, then
/// compresses it. Encoding a constructible message always succeeds.
pub fn to_zbincode_server(message: &ServerMessage) -> (r: Result<Vec<u8>, String>)
    ensures
        r is Ok,
        r matches Ok(v) ==> v@ == deflate_of(spec_ser_server(message@)) && inflate_of(v@) == Some(
            spec_ser_server(message@),
        ),
{
    deflate_compress(&ser_server(message))
}

/// Decompresses, then deserializes, a client message; any failure at
/// either stage is reported as a single error carrying a human-readable
/// (non-empty) cause, never a partial result. Succeeds exactly on
/// payloads that decompress to a whole well-formed message.
pub fn from_zbincode_client(serialized: &Vec<u8>) -> (r: Result<ClientMessage, String>)
    ensures
        match r {
            Ok(m) => match inflate_of(serialized@) {
                Some(p) => spec_decode_client(p) == Some(m@),
                None => false,
            },
            Err(_) => match inflate_of(serialized@) {
                Some(p) => spec_decode_client(p) is None,
                None => true,
            },
        },
        r matches Err(e) ==> e@.len() > 0,
{
    match deflate_decompress(serialized) {
        Ok(payload) => match parse_client_message(&payload) {
            Some(m) => Ok(m),
            None => {
                let cause = "malformed client message payload".to_string();
                proof {
                    reveal_strlit("malformed client message payload");
                }
                Err(cause)
            },
        },
        Err(_) => {
            let cause = "invalid compressed payload".to_string();
            proof {
                reveal_strlit("invalid compressed payload");
            }
            Err(cause)
        },
    }
}

/// Decompresses, then deserializes, a server message; any failure at
/// either stage is reported as a single error carrying a human-readable
/// (non-empty) cause, never a partial result. Succeeds exactly on
/// payloads that decompress to a whole well-formed message.
pub fn from_zbincode_server(serialized: &Vec<u8>) -> (r: Result<ServerMessage, String>)
    ensures
        match r {
            Ok(m) => match inflate_of(serialized@) {
                Some(p) => spec_decode_server(p) == Some(m@),
                None => false,
            },
            Err(_) => match inflate_of(serialized@) {
                Some(p) => spec_decode_server(p) is None,
                None => true,
            },
        },
        r matches Err(e) ==> e@.len() > 0,
{
    match deflate_decompress(serialized) {
        Ok(payload) => match parse_server_message(&payload) {
            Some(m) => Ok(m),
            None => {
                let cause = "malformed server message payload".to_string();
                proof {
                    reveal_strlit("malformed server message payload");
                }
                Err(cause)
            },
        },
        Err(_) => {
            let cause = "invalid compressed payload".to_string();
            proof {
                reveal_strlit("invalid compressed payload");
            }
            Err(cause)
        },
    }
}

/// The view of a real message value always fits the wire format's length
/// fields.
pub proof fn lemma_client_message_bounded(m: &ClientMessage)
    ensures
        client_view_bounded(m@),
{
    match m {
        ClientMessage::PaintStroke(_, s) => {
            vstd::std_specs::vec::axiom_spec_len(&s.points);
        },
        ClientMessage::ChatMessage(text) => {
            vstd::std_specs::vec::axiom_spec_len(text);
        },
        _ => {},
    }
}

/// The view of a real message value always fits the wire format's length
/// fields.
pub proof fn lemma_server_message_bounded(m: &ServerMessage)
    ensures
        server_view_bounded(m@),
{
    match m {
        ServerMessage::PaintStroke(_, s) => {
            vstd::std_specs::vec::axiom_spec_len(&s.points);
        },
        ServerMessage::PaintStrokeEcho(_, s) => {
            vstd::std_specs::vec::axiom_spec_len(&s.points);
        },
        ServerMessage::ChatMessage(name, text) => {
            vstd::std_specs::vec::axiom_spec_len(name);
            vstd::std_specs::vec::axiom_spec_len(text);
        },
    }
}

} // verus!
