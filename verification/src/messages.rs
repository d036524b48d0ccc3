use vstd::prelude::*;

use crate::geom::Offset;
use crate::stroke::{LayerId, PaintStroke, StrokeView};

verus! {

/// A message from a client to the server. Chat text is carried as raw
/// UTF-8 bytes; this engine does not interpret it.
#[derive(Debug, PartialEq)]
pub enum ClientMessage {
    /// Submit a stroke on the given layer.
    PaintStroke(LayerId, PaintStroke),
    /// Declare the viewport by its upper-left and lower-right corners.
    SetViewPort(Offset, Offset),
    /// Chat text; accepted by the wire format, not acted on by this engine.
    ChatMessage(Vec<u8>),
    /// Ask to undo the sender's most recent stroke within the search window.
    UndoMessage,
}

/// The mathematical value of a `ClientMessage`.
pub enum ClientMessageView {
    PaintStroke(LayerId, StrokeView),
    SetViewPort(Offset, Offset),
    ChatMessage(Seq<u8>),
    UndoMessage,
}

impl View for ClientMessage {
    type V = ClientMessageView;

    open spec fn view(&self) -> ClientMessageView {
        match self {
            ClientMessage::PaintStroke(lid, s) => ClientMessageView::PaintStroke(*lid, s@),
            ClientMessage::SetViewPort(a, b) => ClientMessageView::SetViewPort(*a, *b),
            ClientMessage::ChatMessage(text) => ClientMessageView::ChatMessage(text@),
            ClientMessage::UndoMessage => ClientMessageView::UndoMessage,
        }
    }
}

/// A message from the server to a client. The username and chat text are
/// carried as raw UTF-8 bytes.
#[derive(Debug, PartialEq)]
pub enum ServerMessage {
    /// A stroke some client added to the given layer.
    PaintStroke(LayerId, PaintStroke),
    /// The sender's own stroke, confirmed back to it in place of the
    /// broadcast variant.
    PaintStrokeEcho(LayerId, PaintStroke),
    /// A chat line (username, text); passed through, not processed here.
    ChatMessage(Vec<u8>, Vec<u8>),
}

/// The mathematical value of a `ServerMessage`.
pub enum ServerMessageView {
    PaintStroke(LayerId, StrokeView),
    PaintStrokeEcho(LayerId, StrokeView),
    ChatMessage(Seq<u8>, Seq<u8>),
}

impl View for ServerMessage {
    type V = ServerMessageView;

    open spec fn view(&self) -> ServerMessageView {
        match self {
            ServerMessage::PaintStroke(lid, s) => ServerMessageView::PaintStroke(*lid, s@),
            ServerMessage::PaintStrokeEcho(lid, s) => ServerMessageView::PaintStrokeEcho(*lid, s@),
            ServerMessage::ChatMessage(name, text) => ServerMessageView::ChatMessage(name@, text@),
        }
    }
}

} // verus!
