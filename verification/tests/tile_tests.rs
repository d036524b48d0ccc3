use netsketch::geom::Offset;
use netsketch::stroke::{Brush, PaintStroke, StrokePoint};
use netsketch::tile_ops::{
    compute_bounded_tile_offsets, find_paintstroke_tile_offsets, point_to_tile_offset,
};

#[test]
fn snapping_on_positive_coordinates() {
    assert_eq!(point_to_tile_offset(0, 0), Offset { x: 0, y: 0 });
    assert_eq!(point_to_tile_offset(99, 1), Offset { x: 0, y: 0 });
    assert_eq!(point_to_tile_offset(100, 250), Offset { x: 100, y: 200 });
}

#[test]
fn snapping_floors_negative_coordinates() {
    assert_eq!(point_to_tile_offset(-1, -1), Offset { x: -100, y: -100 });
    assert_eq!(point_to_tile_offset(-100, -99), Offset { x: -100, y: -100 });
    assert_eq!(point_to_tile_offset(-101, 0), Offset { x: -200, y: 0 });
}

#[test]
fn bounded_tiles_of_a_rectangle() {
    let tiles = compute_bounded_tile_offsets(
        &Offset { x: -50, y: 0 },
        &Offset { x: 150, y: 99 },
    );
    assert_eq!(tiles.len(), 3);
    assert!(tiles.contains(&Offset { x: -100, y: 0 }));
    assert!(tiles.contains(&Offset { x: 0, y: 0 }));
    assert!(tiles.contains(&Offset { x: 100, y: 0 }));
}

#[test]
fn bounded_tiles_of_a_single_point() {
    let corner = Offset { x: 500, y: 500 };
    let tiles = compute_bounded_tile_offsets(&corner, &corner);
    assert_eq!(tiles, vec![Offset { x: 500, y: 500 }]);
}

#[test]
fn footprint_of_the_two_point_stroke() {
    // Tile size 100, brush width 1 (radius 1), points (0,0) and (150,0):
    // the four corner translations of each point land in these six tiles.
    let stroke = PaintStroke {
        id: 0,
        user_id: 7,
        brush: Brush::default(),
        points: vec![
            StrokePoint { pressure_bits: 0, x: 0, y: 0 },
            StrokePoint { pressure_bits: 0, x: 150, y: 0 },
        ],
    };
    let mut tiles = find_paintstroke_tile_offsets(&stroke);
    tiles.sort_by_key(|t| (t.x, t.y));
    assert_eq!(
        tiles,
        vec![
            Offset { x: -100, y: -100 },
            Offset { x: -100, y: 0 },
            Offset { x: 0, y: -100 },
            Offset { x: 0, y: 0 },
            Offset { x: 100, y: -100 },
            Offset { x: 100, y: 0 },
        ]
    );
}

#[test]
fn footprint_grows_with_the_brush() {
    let mut stroke = PaintStroke {
        id: 0,
        user_id: 0,
        brush: Brush::default(),
        points: vec![StrokePoint { pressure_bits: 0, x: 50, y: 50 }],
    };
    let tiles = find_paintstroke_tile_offsets(&stroke);
    assert_eq!(tiles, vec![Offset { x: 0, y: 0 }]);
    stroke.brush.width = 101;  // radius 51: the corners cross every tile edge
    let mut wide = find_paintstroke_tile_offsets(&stroke);
    wide.sort_by_key(|t| (t.x, t.y));
    assert_eq!(
        wide,
        vec![
            Offset { x: -100, y: -100 },
            Offset { x: -100, y: 100 },
            Offset { x: 100, y: -100 },
            Offset { x: 100, y: 100 },
        ]
    );
}

#[test]
fn footprint_of_an_empty_stroke_is_empty() {
    let stroke = PaintStroke {
        id: 0,
        user_id: 0,
        brush: Brush::default(),
        points: vec![],
    };
    assert!(find_paintstroke_tile_offsets(&stroke).is_empty());
}
