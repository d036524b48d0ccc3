use netsketch::geom::Offset;
use netsketch::messages::{ClientMessage, ServerMessage};
use netsketch::room::Room;
use netsketch::stroke::{Brush, PaintStroke, StrokePoint};

fn rm_stroke(points: Vec<(i32, i32)>) -> PaintStroke {
    PaintStroke {
        id: 0,
        user_id: 0,
        brush: Brush::default(),
        points: points
            .into_iter()
            .map(|(x, y)| StrokePoint { pressure_bits: 0, x, y })
            .collect(),
    }
}

fn rm_submit(layer: u8, points: Vec<(i32, i32)>) -> Vec<u8> {
    netsketch::codec::to_zbincode_client(&ClientMessage::PaintStroke(layer, rm_stroke(points)))
        .unwrap()
}

fn rm_viewport(ulx: i32, uly: i32, lrx: i32, lry: i32) -> Vec<u8> {
    netsketch::codec::to_zbincode_client(&ClientMessage::SetViewPort(
        Offset { x: ulx, y: uly },
        Offset { x: lrx, y: lry },
    ))
    .unwrap()
}

#[test]
fn stroke_fan_out_filters_by_subscription() {
    // Tile size 100, brush width 1: user 7 draws from (0,0) to (150,0).
    // A connection watching tile (0,0) hears about it; one watching
    // (500,500) does not; the author gets the echo regardless.
    let mut room = Room::new(0);
    room.connect(7, "author".to_string());
    room.connect(8, "near".to_string());
    room.connect(9, "far".to_string());
    assert!(room.receive_msg(8, &rm_viewport(0, 0, 0, 0)).is_empty());
    assert!(room.receive_msg(9, &rm_viewport(500, 500, 500, 500)).is_empty());

    let deliveries = room.receive_msg(7, &rm_submit(0, vec![(0, 0), (150, 0)]));
    assert_eq!(deliveries.len(), 2);
    assert_eq!(deliveries[0].to, 7);
    match &deliveries[0].msg {
        ServerMessage::PaintStrokeEcho(0, s) => {
            assert_eq!(s.id, 1);
            assert_eq!(s.user_id, 7);
            assert_eq!(s.points.len(), 2);
        }
        other => panic!("the author expected an echo, got {:?}", other),
    }
    assert_eq!(deliveries[1].to, 8);
    assert!(matches!(&deliveries[1].msg, ServerMessage::PaintStroke(0, _)));
}

#[test]
fn echo_is_sent_even_without_a_subscription() {
    let mut room = Room::new(1);
    room.connect(3, "only".to_string());
    let deliveries = room.receive_msg(3, &rm_submit(0, vec![(10, 10)]));
    assert_eq!(deliveries.len(), 1);
    assert_eq!(deliveries[0].to, 3);
    assert!(matches!(&deliveries[0].msg, ServerMessage::PaintStrokeEcho(0, _)));
}

#[test]
fn highest_layer_id_grows_the_canvas_and_one_more_is_rejected() {
    let mut room = Room::new(2);
    room.connect(1, "painter".to_string());
    // layer 99 (MAX_LAYERS - 1) is accepted and materializes 100 layers
    let deliveries = room.receive_msg(1, &rm_submit(99, vec![(0, 0)]));
    assert_eq!(deliveries.len(), 1);
    assert_eq!(room.layer_count(), 100);
    for layer in 0..99u8 {
        assert_eq!(room.layer_stroke_count(layer), Some(0));
    }
    assert_eq!(room.layer_stroke_count(99), Some(1));
    // layer 100 is out of bounds: dropped, nothing grows
    let rejected = room.receive_msg(1, &rm_submit(100, vec![(0, 0)]));
    assert!(rejected.is_empty());
    assert_eq!(room.layer_count(), 100);
    assert_eq!(room.layer_stroke_count(99), Some(1));
}

#[test]
fn viewport_catch_up_replays_visible_strokes_in_order() {
    let mut room = Room::new(3);
    room.connect(1, "painter".to_string());
    room.connect(2, "latecomer".to_string());
    // strokes 1..=3 on layer 0 (the second spans two tiles), one on layer 1
    room.receive_msg(1, &rm_submit(0, vec![(10, 10)]));
    room.receive_msg(1, &rm_submit(0, vec![(10, 10), (150, 10)]));
    room.receive_msg(1, &rm_submit(0, vec![(900, 900)]));
    room.receive_msg(1, &rm_submit(1, vec![(20, 20)]));

    // the latecomer looks at the region covering tiles (0,0) and (100,0)
    let deliveries = room.receive_msg(2, &rm_viewport(0, 0, 199, 99));
    let summary: Vec<(u64, u8, u64)> = deliveries
        .iter()
        .map(|d| match &d.msg {
            ServerMessage::PaintStroke(layer, s) => (d.to, *layer, s.id),
            other => panic!("catch-up must use the broadcast variant, got {:?}", other),
        })
        .collect();
    // both tiles list stroke 2, but it arrives once; layer order, then id order
    assert_eq!(summary, vec![(2, 0, 1), (2, 0, 2), (2, 1, 1)]);
}

#[test]
fn chat_and_undo_messages_are_accepted_and_ignored() {
    let mut room = Room::new(4);
    room.connect(1, "quiet".to_string());
    let chat = netsketch::codec::to_zbincode_client(&ClientMessage::ChatMessage(
        b"anyone here?".to_vec(),
    ))
    .unwrap();
    assert!(room.receive_msg(1, &chat).is_empty());
    let undo = netsketch::codec::to_zbincode_client(&ClientMessage::UndoMessage).unwrap();
    assert!(room.receive_msg(1, &undo).is_empty());
    assert_eq!(room.layer_count(), 0);
}

#[test]
fn malformed_payloads_are_dropped() {
    let mut room = Room::new(5);
    room.connect(1, "noisy".to_string());
    assert!(room.receive_msg(1, &vec![0, 1, 2, 3]).is_empty());
    assert_eq!(room.layer_count(), 0);
    assert_eq!(room.connection_count(), 1);
}

#[test]
fn disconnect_is_idempotent() {
    let mut room = Room::new(6);
    room.connect(1, "here".to_string());
    room.connect(2, "gone".to_string());
    assert_eq!(room.connection_count(), 2);
    room.disconnect(2);
    assert_eq!(room.connection_count(), 1);
    room.disconnect(2);
    assert_eq!(room.connection_count(), 1);
    // the remaining connection still receives its echo
    let deliveries = room.receive_msg(1, &rm_submit(0, vec![(0, 0)]));
    assert_eq!(deliveries.len(), 1);
}

#[test]
fn unordered_viewport_corners_are_dropped() {
    let mut room = Room::new(7);
    room.connect(1, "confused".to_string());
    room.receive_msg(1, &rm_submit(0, vec![(10, 10)]));
    let deliveries = room.receive_msg(1, &rm_viewport(100, 100, 0, 0));
    assert!(deliveries.is_empty());
}

#[test]
fn a_stroke_with_no_points_touches_no_tile() {
    let mut room = Room::new(8);
    room.connect(1, "author".to_string());
    room.connect(2, "watcher".to_string());
    room.receive_msg(2, &rm_viewport(0, 0, 0, 0));
    // an empty footprint reaches nobody, but the author still gets the echo
    let deliveries = room.receive_msg(1, &rm_submit(0, vec![]));
    assert_eq!(deliveries.len(), 1);
    assert_eq!(deliveries[0].to, 1);
    assert!(matches!(&deliveries[0].msg, ServerMessage::PaintStrokeEcho(0, _)));
}
