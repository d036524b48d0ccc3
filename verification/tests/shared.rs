use netsketch::geom::Offset;
use netsketch::stroke::{Brush, Color, StrokePoint};

#[test]
fn it_works() {
    assert_eq!(2 + 2, 4);
}

#[test]
fn offset_arithmetic() {
    let a = Offset { x: 3, y: -4 };
    let b = Offset { x: 10, y: 7 };
    assert_eq!(a.add(b), Offset { x: 13, y: 3 });
    assert_eq!(b.sub(a), Offset { x: 7, y: 11 });
    assert_eq!(a.neg(), Offset { x: -3, y: 4 });
}

#[test]
fn default_brush_is_one_pixel_black() {
    let b = Brush::default();
    assert_eq!(b.color, Color { r: 0, g: 0, b: 0, a: 255 });
    assert_eq!(b.width, 1);
    assert_eq!(b.hardness_bits, 1.0f32.to_bits());
    assert_eq!(b.smudging_bits, 1.0f32.to_bits());
    assert!(!b.replace);
}

#[test]
fn brush_radius_rounds_up() {
    let mut b = Brush::default();
    assert_eq!(b.radius(), 1);
    b.width = 0;
    assert_eq!(b.radius(), 0);
    b.width = 4;
    assert_eq!(b.radius(), 2);
    b.width = 5;
    assert_eq!(b.radius(), 3);
}

#[test]
fn stroke_point_translation() {
    let p = StrokePoint { pressure_bits: 0, x: 5, y: -9 };
    let moved = p.add(Offset { x: -5, y: 9 });
    assert_eq!(moved.x, 0);
    assert_eq!(moved.y, 0);
    assert_eq!(moved.pressure_bits, 0);
}

#[test]
fn stroke_shift_translates_every_point() {
    let mut s = netsketch::stroke::PaintStroke {
        id: 0,
        user_id: 0,
        brush: Brush::default(),
        points: vec![
            StrokePoint { pressure_bits: 7, x: 0, y: 0 },
            StrokePoint { pressure_bits: 8, x: 150, y: 0 },
        ],
    };
    s.shift(&Offset { x: 10, y: -20 });
    assert_eq!(s.points[0].x, 10);
    assert_eq!(s.points[0].y, -20);
    assert_eq!(s.points[1].x, 160);
    assert_eq!(s.points[1].y, -20);
    assert_eq!(s.points[0].pressure_bits, 7);
}

#[test]
fn stroke_identity_is_the_id() {
    let a = netsketch::stroke::PaintStroke {
        id: 4,
        user_id: 1,
        brush: Brush::default(),
        points: vec![StrokePoint { pressure_bits: 0, x: 1, y: 2 }],
    };
    let b = netsketch::stroke::PaintStroke {
        id: 4,
        user_id: 2,
        brush: Brush::default(),
        points: vec![],
    };
    let c = netsketch::stroke::PaintStroke {
        id: 5,
        user_id: 1,
        brush: Brush::default(),
        points: vec![StrokePoint { pressure_bits: 0, x: 1, y: 2 }],
    };
    assert_eq!(a, b);
    assert_ne!(a, c);
}
