use std::io::Read;
use std::io::Write;

use netsketch::codec::{
    from_zbincode_client, from_zbincode_server, to_zbincode_client, to_zbincode_server,
};
use netsketch::geom::Offset;
use netsketch::messages::{ClientMessage, ServerMessage};
use netsketch::stroke::{Brush, Color, PaintStroke, StrokePoint};

fn sample_stroke() -> PaintStroke {
    PaintStroke {
        id: 42,
        user_id: 7,
        brush: Brush {
            color: Color { r: 1, g: 2, b: 3, a: 4 },
            width: 12,
            hardness_bits: 0.5f32.to_bits(),
            smudging_bits: 0.25f32.to_bits(),
            replace: true,
        },
        points: vec![
            StrokePoint { pressure_bits: 0.9f32.to_bits(), x: -3, y: 1000 },
            StrokePoint { pressure_bits: 0, x: i32::MAX - 40000, y: i32::MIN + 40000 },
        ],
    }
}

#[test]
fn client_paint_stroke_round_trip() {
    let msg = ClientMessage::PaintStroke(3, sample_stroke());
    let bytes = to_zbincode_client(&msg).unwrap();
    let back = from_zbincode_client(&bytes).unwrap();
    match (&msg, &back) {
        (ClientMessage::PaintStroke(l1, s1), ClientMessage::PaintStroke(l2, s2)) => {
            assert_eq!(l1, l2);
            assert_eq!(s1.id, s2.id);
            assert_eq!(s1.user_id, s2.user_id);
            assert_eq!(s1.brush, s2.brush);
            assert_eq!(s1.points, s2.points);
        }
        _ => panic!("wrong message kind after the round trip"),
    }
}

#[test]
fn client_viewport_round_trip() {
    let msg = ClientMessage::SetViewPort(
        Offset { x: -120, y: -7 },
        Offset { x: 480, y: 360 },
    );
    let bytes = to_zbincode_client(&msg).unwrap();
    assert_eq!(from_zbincode_client(&bytes).unwrap(), msg);
}

#[test]
fn client_chat_and_undo_round_trip() {
    let chat = ClientMessage::ChatMessage(b"hello tiles".to_vec());
    let bytes = to_zbincode_client(&chat).unwrap();
    assert_eq!(from_zbincode_client(&bytes).unwrap(), chat);

    let undo = ClientMessage::UndoMessage;
    let bytes = to_zbincode_client(&undo).unwrap();
    assert_eq!(from_zbincode_client(&bytes).unwrap(), undo);
}

#[test]
fn server_messages_round_trip() {
    let stroke_msg = ServerMessage::PaintStroke(0, sample_stroke());
    let bytes = to_zbincode_server(&stroke_msg).unwrap();
    match from_zbincode_server(&bytes).unwrap() {
        ServerMessage::PaintStroke(l, s) => {
            assert_eq!(l, 0);
            assert_eq!(s.points, sample_stroke().points);
        }
        _ => panic!("wrong message kind after the round trip"),
    }

    let echo = ServerMessage::PaintStrokeEcho(9, sample_stroke());
    let bytes = to_zbincode_server(&echo).unwrap();
    assert!(matches!(
        from_zbincode_server(&bytes).unwrap(),
        ServerMessage::PaintStrokeEcho(9, _)
    ));

    let chat = ServerMessage::ChatMessage(b"ada".to_vec(), b"hi there".to_vec());
    let bytes = to_zbincode_server(&chat).unwrap();
    assert_eq!(from_zbincode_server(&bytes).unwrap(), chat);
}

#[test]
fn empty_text_round_trips() {
    let chat = ClientMessage::ChatMessage(Vec::new());
    let bytes = to_zbincode_client(&chat).unwrap();
    assert_eq!(from_zbincode_client(&bytes).unwrap(), chat);
}

#[test]
fn garbage_bytes_are_a_decode_error() {
    assert!(from_zbincode_client(&vec![0xde, 0xad, 0xbe, 0xef]).is_err());
    assert!(from_zbincode_server(&vec![0xff; 16]).is_err());
    assert!(from_zbincode_client(&Vec::new()).is_err());
}

#[test]
fn decode_errors_carry_a_readable_cause() {
    let cause = from_zbincode_client(&vec![0xde, 0xad]).unwrap_err();
    assert!(!cause.is_empty());
    let undo = to_zbincode_client(&ClientMessage::UndoMessage).unwrap();
    let mut truncated = undo.clone();
    truncated.truncate(1);
    let cause = from_zbincode_server(&truncated).unwrap_err();
    assert!(!cause.is_empty());
}

#[test]
fn encoding_never_fails() {
    assert!(to_zbincode_client(&ClientMessage::UndoMessage).is_ok());
    assert!(to_zbincode_client(&ClientMessage::PaintStroke(0, sample_stroke())).is_ok());
    assert!(to_zbincode_client(&ClientMessage::ChatMessage(vec![0; 4096])).is_ok());
    assert!(to_zbincode_server(&ServerMessage::ChatMessage(Vec::new(), Vec::new())).is_ok());
    assert!(to_zbincode_server(&ServerMessage::PaintStrokeEcho(99, sample_stroke())).is_ok());
}

#[test]
fn well_compressed_garbage_is_a_decode_error() {
    // a valid DEFLATE stream whose content is not a message
    let mut enc =
        flate2::write::DeflateEncoder::new(Vec::new(), flate2::Compression::default());
    enc.write_all(&[0xEE, 0x01, 0x02]).unwrap();
    let bytes = enc.finish().unwrap();
    assert!(from_zbincode_client(&bytes).is_err());
    assert!(from_zbincode_server(&bytes).is_err());
}

#[test]
fn truncated_payload_is_a_decode_error() {
    let msg = ClientMessage::PaintStroke(1, sample_stroke());
    let mut bytes = to_zbincode_client(&msg).unwrap();
    bytes.truncate(bytes.len() / 2);
    assert!(from_zbincode_client(&bytes).is_err());
}

#[test]
fn trailing_garbage_inside_the_payload_is_rejected() {
    // compress a valid undo message followed by one stray byte
    let undo = to_zbincode_client(&ClientMessage::UndoMessage).unwrap();
    let mut dec = flate2::read::DeflateDecoder::new(undo.as_slice());
    let mut payload = Vec::new();
    dec.read_to_end(&mut payload).unwrap();
    payload.push(0);
    let mut enc =
        flate2::write::DeflateEncoder::new(Vec::new(), flate2::Compression::default());
    enc.write_all(&payload).unwrap();
    let bytes = enc.finish().unwrap();
    assert!(from_zbincode_client(&bytes).is_err());
}

#[test]
fn a_stroke_with_no_points_round_trips() {
    let msg = ClientMessage::PaintStroke(
        0,
        PaintStroke { id: 1, user_id: 2, brush: Brush::default(), points: vec![] },
    );
    let bytes = to_zbincode_client(&msg).unwrap();
    match from_zbincode_client(&bytes).unwrap() {
        ClientMessage::PaintStroke(0, s) => {
            assert_eq!(s.id, 1);
            assert_eq!(s.user_id, 2);
            assert!(s.points.is_empty());
        }
        other => panic!("wrong message kind after the round trip: {:?}", other),
    }
}
