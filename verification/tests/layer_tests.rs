use netsketch::geom::Offset;
use netsketch::layer::Layer;
use netsketch::stroke::{Brush, PaintStroke, StrokePoint};

fn draft_stroke(user_id: u64, points: Vec<(i32, i32)>) -> PaintStroke {
    PaintStroke {
        id: 0,
        user_id,
        brush: Brush::default(),
        points: points
            .into_iter()
            .map(|(x, y)| StrokePoint { pressure_bits: 0, x, y })
            .collect(),
    }
}

#[test]
fn ids_increase_by_one_from_one() {
    let mut layer = Layer::default();
    assert_eq!(layer.last_stroke_id(), 0);
    let (s1, _) = layer.add_paint_stroke(draft_stroke(1, vec![(0, 0)]));
    let (s2, _) = layer.add_paint_stroke(draft_stroke(1, vec![(10, 10)]));
    let (s3, _) = layer.add_paint_stroke(draft_stroke(2, vec![(20, 20)]));
    assert_eq!(s1.id, 1);
    assert_eq!(s2.id, 2);
    assert_eq!(s3.id, 3);
    assert_eq!(layer.last_stroke_id(), 3);
    assert_eq!(layer.stroke_count(), 3);
}

#[test]
fn tile_lookup_contains_exactly_the_footprint() {
    let mut layer = Layer::default();
    let (stored, tiles) = layer.add_paint_stroke(draft_stroke(7, vec![(0, 0), (150, 0)]));
    for t in &tiles {
        let strokes = layer.get_tile_paintstrokes(t);
        assert_eq!(strokes.len(), 1);
        assert_eq!(strokes[0].id, stored.id);
    }
    // a tile outside the footprint has nothing
    assert!(layer.get_tile_paintstrokes(&Offset { x: 500, y: 500 }).is_empty());
    assert!(!tiles.contains(&Offset { x: 500, y: 500 }));
}

#[test]
fn tile_strokes_come_out_in_creation_order() {
    let mut layer = Layer::default();
    layer.add_paint_stroke(draft_stroke(1, vec![(10, 10)]));
    layer.add_paint_stroke(draft_stroke(2, vec![(20, 20)]));
    layer.add_paint_stroke(draft_stroke(1, vec![(30, 30)]));
    let strokes = layer.get_tile_paintstrokes(&Offset { x: 0, y: 0 });
    let ids: Vec<u64> = strokes.iter().map(|s| s.id).collect();
    assert_eq!(ids, vec![1, 2, 3]);
}

#[test]
fn undo_removes_the_users_latest_stroke() {
    let mut layer = Layer::default();
    layer.add_paint_stroke(draft_stroke(1, vec![(10, 10)]));
    let (target, target_tiles) = layer.add_paint_stroke(draft_stroke(2, vec![(20, 20)]));
    layer.add_paint_stroke(draft_stroke(1, vec![(30, 30)]));
    let changed = layer.undo(2).expect("a stroke of user 2 is in the window");
    let mut changed_sorted = changed.clone();
    changed_sorted.sort_by_key(|t| (t.x, t.y));
    let mut expected = target_tiles.clone();
    expected.sort_by_key(|t| (t.x, t.y));
    assert_eq!(changed_sorted, expected);
    // the other strokes keep their ids, and the undone one is gone
    let ids: Vec<u64> = layer
        .get_tile_paintstrokes(&Offset { x: 0, y: 0 })
        .iter()
        .map(|s| s.id)
        .collect();
    assert_eq!(ids, vec![1, 3]);
    assert!(!ids.contains(&target.id));
    // no second stroke of user 2 exists, so another undo is a no-op
    assert!(layer.undo(2).is_none());
    assert_eq!(layer.stroke_count(), 2);
}

#[test]
fn undo_searches_only_the_bounded_window() {
    let mut layer = Layer::default();
    layer.add_paint_stroke(draft_stroke(7, vec![(0, 0)]));
    // push the stroke of user 7 out of the search window
    for _ in 0..netsketch::UNDO_SEARCH_DEPTH {
        layer.add_paint_stroke(draft_stroke(8, vec![(50, 50)]));
    }
    assert!(layer.undo(7).is_none());
    assert_eq!(layer.stroke_count(), 1 + netsketch::UNDO_SEARCH_DEPTH);
    // the most recent author is still found
    assert!(layer.undo(8).is_some());
    assert_eq!(layer.stroke_count(), netsketch::UNDO_SEARCH_DEPTH);
}
