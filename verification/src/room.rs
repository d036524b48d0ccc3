use vstd::prelude::*;

use crate::canvas::Canvas;
use crate::codec::{from_zbincode_client, inflate_of, spec_decode_client};
use crate::geom::Offset;
use crate::layer::{filter_visible, stroke_visible, Layer};
use crate::messages::{ClientMessage, ClientMessageView, ServerMessage, ServerMessageView};
use crate::stroke::{LayerId, PaintStroke, StrokeView, UserId};
use crate::tile_ops::{
    distinct_seq, offset_snappable, snappable, stroke_in_bounds, tile_in_rect_spec,
};
use crate::MAX_LAYERS;

verus! {

/// Per-client session state within a room: the client's identity, display
/// name, and the set of tile identifiers it currently subscribes to
/// (empty until it declares a viewport).
pub struct Connection {
    pub user_id: UserId,
    pub username: String,
    pub active_tile_offsets: Vec<Offset>,
}

impl Connection {
    /// The tiles the connection currently wants updates for.
    pub open spec fn subscription(self) -> Seq<Offset> {
        self.active_tile_offsets@
    }
}

/// One outbound message: which connection it goes to and what it says.
/// The transport turns each delivery into bytes on that connection's
/// queue.
pub struct Delivery {
    pub to: UserId,
    pub msg: ServerMessage,
}

/// The mathematical value of a `Delivery`.
pub struct DeliveryView {
    pub to: UserId,
    pub msg: ServerMessageView,
}

impl View for Delivery {
    type V = DeliveryView;

    open spec fn view(&self) -> DeliveryView {
        DeliveryView { to: self.to, msg: self.msg@ }
    }
}

/// The sequence of mathematical values of a sequence of deliveries.
pub open spec fn delivery_views(v: Seq<Delivery>) -> Seq<DeliveryView> {
    Seq::new(v.len(), |i: int| v[i]@)
}

/// Whether the connection's subscription meets the stroke's footprint.
pub open spec fn conn_sees(c: Connection, s: StrokeView) -> bool {
    stroke_visible(s, c.subscription())
}

/// The deliveries a newly stored stroke causes, one connection at a time
/// in map order: the author always receives the echo variant; every other
/// connection receives the broadcast variant exactly when its subscription
/// meets the stroke's footprint.
pub open spec fn stroke_deliveries(
    conns: Seq<Connection>,
    author: UserId,
    lid: LayerId,
    s: StrokeView,
) -> Seq<DeliveryView>
    decreases conns.len(),
{
    if conns.len() == 0 {
        Seq::empty()
    } else {
        let rest = stroke_deliveries(conns.drop_last(), author, lid, s);
        let c = conns.last();
        if c.user_id == author {
            rest.push(DeliveryView { to: author, msg: ServerMessageView::PaintStrokeEcho(lid, s) })
        } else if conn_sees(c, s) {
            rest.push(DeliveryView { to: c.user_id, msg: ServerMessageView::PaintStroke(lid, s) })
        } else {
            rest
        }
    }
}

/// One "stroke added" delivery to `to` for each stroke, in order.
pub open spec fn deliveries_for(strokes: Seq<StrokeView>, lid: LayerId, to: UserId) -> Seq<
    DeliveryView,
>
    decreases strokes.len(),
{
    if strokes.len() == 0 {
        Seq::empty()
    } else {
        deliveries_for(strokes.drop_last(), lid, to).push(
            DeliveryView { to, msg: ServerMessageView::PaintStroke(lid, strokes.last()) },
        )
    }
}

/// The viewport catch-up for one layer: every stroke of the layer visible
/// through the new subscription, in ascending id order, delivered to the
/// declaring connection.
pub open spec fn layer_catchup(l: Layer, lid: LayerId, sub: Seq<Offset>, to: UserId) -> Seq<
    DeliveryView,
> {
    deliveries_for(filter_visible(l.strokes(), sub), lid, to)
}

/// The whole viewport catch-up: the per-layer catch-ups of all
/// materialized layers, in layer order.
pub open spec fn catchup_deliveries(layers: Seq<Layer>, sub: Seq<Offset>, to: UserId) -> Seq<
    DeliveryView,
>
    decreases layers.len(),
{
    if layers.len() == 0 {
        Seq::empty()
    } else {
        catchup_deliveries(layers.drop_last(), sub, to) + layer_catchup(
            layers.last(),
            (layers.len() - 1) as LayerId,
            sub,
            to,
        )
    }
}

/// An isolated drawing session: a numeric id, the connections of its
/// participants, and one canvas. The room implements the protocol state
/// transitions; the transport around it does the reading and writing.
pub struct Room {
    pub room_id: u64,
    pub(crate) connections: Vec<Connection>,
    pub(crate) canvas: Canvas,
}

impl Room {
    /// The room's numeric id.
    pub closed spec fn spec_room_id(self) -> u64 {
        self.room_id
    }

    /// The live connections, in join order.
    pub closed spec fn conns(self) -> Seq<Connection> {
        self.connections@
    }

    /// The room's canvas.
    pub closed spec fn spec_canvas(self) -> Canvas {
        self.canvas
    }

    /// The room invariant: a well-formed canvas, and no two connections
    /// with the same user id.
    pub open spec fn wf(self) -> bool {
        &&& self.spec_canvas().wf()
        &&& forall|i: int, j: int|
            0 <= i < j < self.conns().len() ==> (#[trigger] self.conns()[i]).user_id != (
            #[trigger] self.conns()[j]).user_id
    }

    /// Whether a connection with this user id is present.
    pub open spec fn has_conn(self, user_id: UserId) -> bool {
        exists|i: int|
            0 <= i < self.conns().len() && (#[trigger] self.conns()[i]).user_id == user_id
    }

    /// A fresh room: no connections, no layers.
    pub fn new(room_id: u64) -> (r: Room)
        ensures
            r.wf(),
            r.spec_room_id() == room_id,
            r.conns().len() == 0,
            r.spec_canvas().layer_count_spec() == 0,
    {
        Room { room_id, connections: Vec::new(), canvas: Canvas::new() }
    }

    /// How many connections are live.
    pub fn connection_count(&self) -> (n: usize)
        ensures
            n == self.conns().len(),
    {
        self.connections.len()
    }

    /// How many layers the room's canvas holds.
    pub fn layer_count(&self) -> (n: usize)
        ensures
            n == self.spec_canvas().layer_count_spec(),
    {
        self.canvas.layer_count()
    }

    /// How many strokes the layer `layer_id` holds; nothing if that layer
    /// has not been materialized.
    pub fn layer_stroke_count(&self, layer_id: LayerId) -> (r: Option<usize>)
        ensures
            match r {
                Some(n) => (layer_id as int) < self.spec_canvas().layer_count_spec() && n
                    == self.spec_canvas().layer_at(layer_id as int).strokes().len(),
                None => (layer_id as int) >= self.spec_canvas().layer_count_spec(),
            },
    {
        if (layer_id as usize) < self.canvas.layer_count() {
            Some(self.canvas.layer_ref(layer_id as usize).stroke_count())
        } else {
            None
        }
    }

    /// Whether a connection with this user id is present.
    pub fn has_connection(&self, user_id: UserId) -> (b: bool)
        ensures
            b == self.has_conn(user_id),
    {
        match self.find_conn(user_id) {
            Some(_) => true,
            None => false,
        }
    }

    /// The index of the connection with this user id.
    fn find_conn(&self, user_id: UserId) -> (r: Option<usize>)
        ensures
            match r {
                Some(i) => i < self.conns().len() && self.conns()[i as int].user_id == user_id,
                None => !self.has_conn(user_id),
            },
    {
        let mut i: usize = 0;
        while i < self.connections.len()
            invariant
                i <= self.conns().len(),
                forall|j: int| 0 <= j < i ==> (#[trigger] self.conns()[j]).user_id != user_id,
            decreases self.conns().len() - i,
        {
            if self.connections[i].user_id == user_id {
                return Some(i);
            }
            i += 1;
        }
        None
    }

    /// Inserts a connection for `user_id` with an empty subscription: the
    /// new participant is eligible for broadcasts but receives none until
    /// it declares a viewport. The caller allocates user ids, never
    /// reusing one.
    pub fn connect(&mut self, user_id: UserId, username: String)
        requires
            old(self).wf(),
            !old(self).has_conn(user_id),
        ensures
            final(self).wf(),
            final(self).spec_room_id() == old(self).spec_room_id(),
            final(self).spec_canvas() == old(self).spec_canvas(),
            final(self).conns().len() == old(self).conns().len() + 1,
            forall|i: int|
                0 <= i < old(self).conns().len() ==> final(self).conns()[i] == #[trigger] old(
                    self,
                ).conns()[i],
            final(self).conns().last().user_id == user_id,
            final(self).conns().last().username == username,
            final(self).conns().last().subscription().len() == 0,
    {
        self.connections.push(
            Connection { user_id, username, active_tile_offsets: Vec::new() },
        );
    }

    /// Removes the connection for `user_id` if it is present; a no-op when
    /// it is already gone, so disconnecting twice is harmless.
    pub fn disconnect(&mut self, user_id: UserId)
        requires
            old(self).wf(),
        ensures
            final(self).wf(),
            final(self).spec_room_id() == old(self).spec_room_id(),
            final(self).spec_canvas() == old(self).spec_canvas(),
            !final(self).has_conn(user_id),
            old(self).has_conn(user_id) ==> exists|i: int|
                0 <= i < old(self).conns().len() && (#[trigger] old(self).conns()[i]).user_id
                    == user_id && final(self).conns() == old(self).conns().remove(i),
            !old(self).has_conn(user_id) ==> *final(self) == *old(self),
    {
        match self.find_conn(user_id) {
            Some(i) => {
                self.connections.remove(i);
                proof {
                    assert(forall|j: int|
                        0 <= j < i ==> self.conns()[j] == #[trigger] old(self).conns()[j]);
                    assert(forall|j: int|
                        i <= j < self.conns().len() ==> self.conns()[j] == #[trigger] old(
                            self,
                        ).conns()[j + 1]);
                    assert forall|j: int|
                        0 <= j < self.conns().len() implies (#[trigger] self.conns()[j]).user_id
                        != user_id by {
                        if j < i {
                            assert(old(self).conns()[j].user_id != old(self).conns()[i as int].user_id);
                        }
                    }
                }
            },
            None => {},
        }
    }
}

/// The last id handed out by layer `lid` of the room's canvas, counting a
/// not-yet-materialized layer as fresh.
pub open spec fn pre_last_id(pre: Room, lid: LayerId) -> u64 {
    if (lid as int) < pre.spec_canvas().layer_count_spec() {
        pre.spec_canvas().layer_at(lid as int).spec_last_id()
    } else {
        0
    }
}

/// The strokes layer `lid` holds, counting a not-yet-materialized layer
/// as empty.
pub open spec fn pre_layer_strokes(pre: Room, lid: LayerId) -> Seq<StrokeView> {
    if (lid as int) < pre.spec_canvas().layer_count_spec() {
        pre.spec_canvas().layer_at(lid as int).strokes()
    } else {
        Seq::empty()
    }
}

/// The stroke as the room stores it: the next id of its layer, the
/// authenticated author, and the submitted brush and points.
pub open spec fn stored_stroke(pre: Room, author: UserId, lid: LayerId, s: StrokeView) -> StrokeView {
    StrokeView {
        id: (pre_last_id(pre, lid) + 1) as u64,
        user_id: author,
        brush: s.brush,
        points: s.points,
    }
}

/// What submitting stroke `s` on layer `lid` does to the room. An
/// out-of-range layer id, a stroke too close to the ends of the
/// coordinate range, or an exhausted id counter drops the message with no
/// effect. Otherwise the layer (materialized on first touch, together
/// with everything below it) stores the stroke under the next id, and the
/// deliveries are the echo to the author plus the tile-filtered broadcast
/// to everyone else.
pub open spec fn paint_stroke_outcome(
    pre: Room,
    author: UserId,
    lid: LayerId,
    s: StrokeView,
    post: Room,
    out: Seq<DeliveryView>,
) -> bool {
    if (lid as int) >= MAX_LAYERS as int || !stroke_in_bounds(s) || pre_last_id(pre, lid)
        == u64::MAX {
        &&& post == pre
        &&& out.len() == 0
    } else {
        let pre_count = pre.spec_canvas().layer_count_spec();
        let stored = stored_stroke(pre, author, lid, s);
        &&& post.conns() == pre.conns()
        &&& post.spec_canvas().wf()
        &&& post.spec_canvas().layer_count_spec() == if pre_count > lid as int {
            pre_count
        } else {
            lid as int + 1
        }
        &&& forall|i: int|
            0 <= i < pre_count && i != lid as int ==> post.spec_canvas().layer_at(i)
                == #[trigger] pre.spec_canvas().layer_at(i)
        &&& forall|i: int|
            pre_count <= i < post.spec_canvas().layer_count_spec() && i != lid as int ==> (
            #[trigger] post.spec_canvas().layer_at(i)).strokes().len() == 0
        &&& post.spec_canvas().layer_at(lid as int).strokes() == pre_layer_strokes(
            pre,
            lid,
        ).push(stored)
        &&& post.spec_canvas().layer_at(lid as int).spec_last_id() == pre_last_id(pre, lid) + 1
        &&& out == stroke_deliveries(pre.conns(), author, lid, stored)
    }
}

impl Room {
    /// Handles a submitted stroke: bounds checks, storage, and fan-out.
    fn handle_paint_stroke(&mut self, user_id: UserId, lid: LayerId, s: PaintStroke) -> (r: Vec<
        Delivery,
    >)
        requires
            old(self).wf(),
        ensures
            final(self).wf(),
            final(self).spec_room_id() == old(self).spec_room_id(),
            paint_stroke_outcome(
                *old(self),
                user_id,
                lid,
                s@,
                *final(self),
                delivery_views(r@),
            ),
    {
        if lid >= MAX_LAYERS {
            let r: Vec<Delivery> = Vec::new();
            proof {
                assert(delivery_views(r@) =~= Seq::<DeliveryView>::empty());
            }
            return r;
        }
        if !s.in_bounds() {
            let r: Vec<Delivery> = Vec::new();
            proof {
                assert(delivery_views(r@) =~= Seq::<DeliveryView>::empty());
            }
            return r;
        }
        let pre_last: u64 = if (lid as usize) < self.canvas.layer_count() {
            self.canvas.last_id_of(lid)
        } else {
            0
        };
        if pre_last == u64::MAX {
            let r: Vec<Delivery> = Vec::new();
            proof {
                assert(delivery_views(r@) =~= Seq::<DeliveryView>::empty());
            }
            return r;
        }
        let mut stroke = s;
        stroke.user_id = user_id;
        let ghost pre = *self;
        let layer = self.canvas.layer(lid);
        let (stored, tiles) = layer.add_paint_stroke(stroke);
        let ghost stored_v = stored@;
        proof {
            assert(stored_v == stored_stroke(pre, user_id, lid, s@));
            assert(self.canvas.wf());
            assert(self.canvas.layer_at(lid as int).strokes() == pre_layer_strokes(pre, lid).push(
                stored_v,
            ));
        }
        let ghost canvas_snap = self.canvas;
        let mut out: Vec<Delivery> = Vec::new();
        let mut k: usize = 0;
        while k < self.connections.len()
            invariant
                self.connections@ == pre.conns(),
                self.canvas == canvas_snap,
                self.room_id == pre.spec_room_id(),
                k <= self.connections@.len(),
                stored_v == stored@,
                forall|t: Offset|
                    tiles@.contains(t) <==> crate::tile_ops::footprint_contains(stored_v, t),
                delivery_views(out@) == stroke_deliveries(
                    pre.conns().take(k as int),
                    user_id,
                    lid,
                    stored_v,
                ),
            decreases self.connections@.len() - k,
        {
            let ghost out_before = out@;
            let c = &self.connections[k];
            let ghost cv = pre.conns()[k as int];
            if c.user_id == user_id {
                out.push(Delivery { to: user_id, msg: ServerMessage::PaintStrokeEcho(lid, stored.clone()) });
            } else {
                let sees = crate::layer::tile_sets_intersect(&c.active_tile_offsets, &tiles);
                proof {
                    assert(sees == conn_sees(cv, stored_v)) by {
                        if sees {
                            let t = choose|t: Offset|
                                #![trigger c.active_tile_offsets@.contains(t)]
                                c.active_tile_offsets@.contains(t) && tiles@.contains(t);
                            assert(cv.subscription().contains(t) && crate::tile_ops::footprint_contains(
                                stored_v,
                                t,
                            ));
                        }
                        if conn_sees(cv, stored_v) {
                            let t = choose|t: Offset|
                                #![trigger cv.subscription().contains(t)]
                                cv.subscription().contains(t) && crate::tile_ops::footprint_contains(
                                    stored_v,
                                    t,
                                );
                            assert(c.active_tile_offsets@.contains(t) && tiles@.contains(t));
                        }
                    }
                }
                if sees {
                    out.push(Delivery { to: c.user_id, msg: ServerMessage::PaintStroke(lid, stored.clone()) });
                }
            }
            proof {
                let pk = pre.conns().take(k as int + 1);
                assert(pk.drop_last() =~= pre.conns().take(k as int));
                assert(pk.last() == cv);
                assert(delivery_views(out@) =~= stroke_deliveries(pk, user_id, lid, stored_v));
            }
            k += 1;
        }
        proof {
            assert(pre.conns().take(k as int) =~= pre.conns());
        }
        out
    }
}

/// Copies a tile set.
fn copy_tiles(v: &Vec<Offset>) -> (r: Vec<Offset>)
    ensures
        r@ == v@,
{
    let mut r: Vec<Offset> = Vec::new();
    let mut i: usize = 0;
    while i < v.len()
        invariant
            i <= v@.len(),
            r@ == v@.take(i as int),
        decreases v@.len() - i,
    {
        r.push(v[i]);
        proof {
            assert(r@ =~= v@.take(i as int + 1));
        }
        i += 1;
    }
    proof {
        assert(v@.take(i as int) =~= v@);
    }
    r
}

/// What declaring the viewport `[upper_left, lower_right]` does to the
/// room. Corners out of order or outside the snappable coordinate range,
/// or an unknown sender, drop the message with no effect. Otherwise the
/// sender's subscription is replaced wholesale by the tiles of the
/// rectangle, and the sender alone receives the catch-up: per layer, in
/// layer order, each stroke visible through the new subscription, in
/// ascending id order.
pub open spec fn viewport_outcome(
    pre: Room,
    user_id: UserId,
    upper_left: Offset,
    lower_right: Offset,
    post: Room,
    out: Seq<DeliveryView>,
) -> bool {
    if !(upper_left.x <= lower_right.x && upper_left.y <= lower_right.y && snappable(
        upper_left.x as int,
    ) && snappable(upper_left.y as int) && snappable(lower_right.x as int) && snappable(
        lower_right.y as int,
    ) && pre.has_conn(user_id)) {
        &&& post == pre
        &&& out.len() == 0
    } else {
        &&& post.spec_canvas() == pre.spec_canvas()
        &&& post.conns().len() == pre.conns().len()
        &&& exists|k: int|
            {
                &&& 0 <= k < pre.conns().len()
                &&& (#[trigger] pre.conns()[k]).user_id == user_id
                &&& forall|j: int|
                    0 <= j < pre.conns().len() && j != k ==> post.conns()[j] == #[trigger] pre.conns()[j]
                &&& post.conns()[k].user_id == user_id
                &&& post.conns()[k].username == pre.conns()[k].username
                &&& distinct_seq(post.conns()[k].subscription())
                &&& forall|t: Offset|
                    #![trigger post.conns()[k].subscription().contains(t)]
                    post.conns()[k].subscription().contains(t) <==> tile_in_rect_spec(
                        upper_left,
                        lower_right,
                        t,
                    )
                &&& out == catchup_deliveries(
                    pre.spec_canvas().layers_seq(),
                    post.conns()[k].subscription(),
                    user_id,
                )
            }
    }
}

impl Room {
    /// Handles a viewport declaration: recompute the subscription, then
    /// send the declaring connection the strokes now visible.
    fn handle_viewport(&mut self, user_id: UserId, upper_left: Offset, lower_right: Offset) -> (r:
        Vec<Delivery>)
        requires
            old(self).wf(),
        ensures
            final(self).wf(),
            final(self).spec_room_id() == old(self).spec_room_id(),
            viewport_outcome(
                *old(self),
                user_id,
                upper_left,
                lower_right,
                *final(self),
                delivery_views(r@),
            ),
    {
        if !(upper_left.x <= lower_right.x && upper_left.y <= lower_right.y) || !offset_snappable(
            &upper_left,
        ) || !offset_snappable(&lower_right) {
            let r: Vec<Delivery> = Vec::new();
            proof {
                assert(delivery_views(r@) =~= Seq::<DeliveryView>::empty());
            }
            return r;
        }
        let idx = match self.find_conn(user_id) {
            Some(i) => i,
            None => {
                let r: Vec<Delivery> = Vec::new();
                proof {
                    assert(delivery_views(r@) =~= Seq::<DeliveryView>::empty());
                }
                return r;
            },
        };
        let ghost pre = *self;
        let sub = crate::tile_ops::compute_bounded_tile_offsets(&upper_left, &lower_right);
        let stored_sub = copy_tiles(&sub);
        let conn = &mut self.connections[idx];
        conn.active_tile_offsets = stored_sub;
        proof {
            assert(self.connections@.len() == pre.conns().len());
            assert(forall|j: int|
                0 <= j < pre.conns().len() && j != idx ==> self.connections@[j]
                    == #[trigger] pre.conns()[j]);
            assert(self.connections@[idx as int].user_id == user_id);
            assert(self.connections@[idx as int].username == pre.conns()[idx as int].username);
            assert(self.connections@[idx as int].subscription() == sub@);
        }
        let ghost conns_snap = self.connections@;
        let mut out: Vec<Delivery> = Vec::new();
        let mut l: usize = 0;
        let layer_total = self.canvas.layer_count();
        while l < layer_total
            invariant
                self.connections@ == conns_snap,
                self.canvas == pre.spec_canvas(),
                self.room_id == pre.spec_room_id(),
                pre.wf(),
                layer_total == pre.spec_canvas().layer_count_spec(),
                l <= layer_total,
                delivery_views(out@) == catchup_deliveries(
                    pre.spec_canvas().layers_seq().take(l as int),
                    sub@,
                    user_id,
                ),
            decreases layer_total - l,
        {
            let ghost lv = pre.spec_canvas().layers_seq()[l as int];
            let layer = self.canvas.layer_ref(l);
            let vis = layer.visible_strokes(&sub);
            proof {
                assert(crate::stroke::stroke_views(vis@) == filter_visible(lv.strokes(), sub@));
            }
            let mut m: usize = 0;
            while m < vis.len()
                invariant
                    m <= vis@.len(),
                    l < layer_total <= MAX_LAYERS as int,
                    crate::stroke::stroke_views(vis@) == filter_visible(lv.strokes(), sub@),
                    delivery_views(out@) == catchup_deliveries(
                        pre.spec_canvas().layers_seq().take(l as int),
                        sub@,
                        user_id,
                    ) + deliveries_for(
                        filter_visible(lv.strokes(), sub@).take(m as int),
                        l as LayerId,
                        user_id,
                    ),
                decreases vis@.len() - m,
            {
                let ghost out_before = out@;
                out.push(
                    Delivery { to: user_id, msg: ServerMessage::PaintStroke(l as u8, vis[m].clone()) },
                );
                proof {
                    let fv = filter_visible(lv.strokes(), sub@);
                    let tk = fv.take(m as int + 1);
                    assert(tk.drop_last() =~= fv.take(m as int));
                    assert(tk.last() == crate::stroke::stroke_views(vis@)[m as int]);
                    assert(delivery_views(out@) =~= delivery_views(out_before).push(
                        DeliveryView {
                            to: user_id,
                            msg: ServerMessageView::PaintStroke(l as LayerId, fv[m as int]),
                        },
                    ));
                }
                m += 1;
            }
            proof {
                let layers = pre.spec_canvas().layers_seq();
                let tk = layers.take(l as int + 1);
                assert(tk.drop_last() =~= layers.take(l as int));
                assert(tk.last() == lv);
                assert(filter_visible(lv.strokes(), sub@).take(m as int) =~= filter_visible(
                    lv.strokes(),
                    sub@,
                ));
                assert(delivery_views(out@) =~= catchup_deliveries(tk, sub@, user_id));
            }
            l += 1;
        }
        proof {
            assert(pre.spec_canvas().layers_seq().take(l as int) =~= pre.spec_canvas().layers_seq());
            assert(self.connections@[idx as int].subscription() == sub@);
        }
        out
    }
}

/// The client message carried by a compressed inbound payload, if it
/// decompresses and decodes.
pub open spec fn decoded_message(data: Seq<u8>) -> Option<ClientMessageView> {
    match inflate_of(data) {
        Some(p) => spec_decode_client(p),
        None => None,
    }
}

/// What one inbound payload does to the room: an undecodable payload is
/// dropped with no effect; a stroke submission and a viewport declaration
/// act as their outcome predicates say; chat and undo requests are
/// accepted by the wire format but not acted on here.
pub open spec fn receive_outcome(
    pre: Room,
    user_id: UserId,
    data: Seq<u8>,
    post: Room,
    out: Seq<DeliveryView>,
) -> bool {
    match decoded_message(data) {
        None => post == pre && out.len() == 0,
        Some(mv) => match mv {
            ClientMessageView::PaintStroke(lid, s) => paint_stroke_outcome(
                pre,
                user_id,
                lid,
                s,
                post,
                out,
            ),
            ClientMessageView::SetViewPort(a, b) => viewport_outcome(pre, user_id, a, b, post, out),
            ClientMessageView::ChatMessage(_) => post == pre && out.len() == 0,
            ClientMessageView::UndoMessage => post == pre && out.len() == 0,
        },
    }
}

impl Room {
    /// Decodes one inbound payload from `user_id` and dispatches it,
    /// returning the deliveries it causes. Malformed payloads, layer ids
    /// at or above `MAX_LAYERS`, strokes outside the snappable coordinate
    /// range, and viewport corners out of order are dropped, leaving the
    /// room unchanged; the sender's connection stays open either way.
    pub fn receive_msg(&mut self, user_id: UserId, data: &Vec<u8>) -> (r: Vec<Delivery>)
        requires
            old(self).wf(),
        ensures
            final(self).wf(),
            final(self).spec_room_id() == old(self).spec_room_id(),
            receive_outcome(*old(self), user_id, data@, *final(self), delivery_views(r@)),
    {
        let msg = match from_zbincode_client(data) {
            Ok(m) => m,
            Err(_) => {
                let r: Vec<Delivery> = Vec::new();
                proof {
                    assert(delivery_views(r@) =~= Seq::<DeliveryView>::empty());
                }
                return r;
            },
        };
        match msg {
            ClientMessage::PaintStroke(lid, s) => self.handle_paint_stroke(user_id, lid, s),
            ClientMessage::SetViewPort(a, b) => self.handle_viewport(user_id, a, b),
            ClientMessage::ChatMessage(_) => {
                let r: Vec<Delivery> = Vec::new();
                proof {
                    assert(delivery_views(r@) =~= Seq::<DeliveryView>::empty());
                }
                r
            },
            ClientMessage::UndoMessage => {
                let r: Vec<Delivery> = Vec::new();
                proof {
                    assert(delivery_views(r@) =~= Seq::<DeliveryView>::empty());
                }
                r
            },
        }
    }
}

/// Fan-out filtering: a stroke submitted on a layer is delivered to a
/// connection exactly when its subscription meets the stroke's footprint,
/// except that the author always receives the echo variant regardless of
/// its subscription; nobody is delivered to twice, the author gets
/// exactly the echo variant, and everyone else the broadcast variant.
pub proof fn lemma_fanout_filtering(
    conns: Seq<Connection>,
    author: UserId,
    lid: LayerId,
    s: StrokeView,
    user_id: UserId,
)
    requires
        forall|i: int, j: int|
            0 <= i < j < conns.len() ==> (#[trigger] conns[i]).user_id != (
            #[trigger] conns[j]).user_id,
    ensures
        (exists|k: int|
            0 <= k < stroke_deliveries(conns, author, lid, s).len() && (#[trigger] stroke_deliveries(
                conns,
                author,
                lid,
                s,
            )[k]).to == user_id) <==> (exists|j: int|
            0 <= j < conns.len() && (#[trigger] conns[j]).user_id == user_id && (user_id == author
                || conn_sees(conns[j], s))),
        forall|k: int|
            0 <= k < stroke_deliveries(conns, author, lid, s).len() ==> ((
            #[trigger] stroke_deliveries(conns, author, lid, s)[k]).msg
                == ServerMessageView::PaintStrokeEcho(lid, s) <==> stroke_deliveries(
                conns,
                author,
                lid,
                s,
            )[k].to == author),
        forall|k: int|
            0 <= k < stroke_deliveries(conns, author, lid, s).len() ==> ((
            #[trigger] stroke_deliveries(conns, author, lid, s)[k]).msg
                == ServerMessageView::PaintStroke(lid, s) <==> stroke_deliveries(
                conns,
                author,
                lid,
                s,
            )[k].to != author),
        forall|k1: int, k2: int|
            0 <= k1 < k2 < stroke_deliveries(conns, author, lid, s).len() ==> (
            #[trigger] stroke_deliveries(conns, author, lid, s)[k1]).to != (
            #[trigger] stroke_deliveries(conns, author, lid, s)[k2]).to,
        forall|k: int|
            0 <= k < stroke_deliveries(conns, author, lid, s).len() ==> exists|j: int|
                0 <= j < conns.len() && (#[trigger] stroke_deliveries(conns, author, lid, s)[k]).to
                    == (#[trigger] conns[j]).user_id && (conns[j].user_id == author || conn_sees(
                    conns[j],
                    s,
                )),
    decreases conns.len(),
{
    if conns.len() > 0 {
        let rest = conns.drop_last();
        assert(forall|i: int| 0 <= i < rest.len() ==> rest[i] == #[trigger] conns[i]);
        lemma_fanout_filtering(rest, author, lid, s, user_id);
        let d = stroke_deliveries(conns, author, lid, s);
        let dr = stroke_deliveries(rest, author, lid, s);
        let c = conns.last();
        assert(c == conns[conns.len() - 1]);
        assert forall|k: int|
            0 <= k < d.len() implies exists|j: int|
            0 <= j < conns.len() && (#[trigger] d[k]).to == (#[trigger] conns[j]).user_id && (
            conns[j].user_id == author || conn_sees(conns[j], s)) by {
            if k < dr.len() {
                assert(d[k] == dr[k]);
                let j = choose|j: int|
                    0 <= j < rest.len() && (#[trigger] dr[k]).to == (#[trigger] rest[j]).user_id
                        && (rest[j].user_id == author || conn_sees(rest[j], s));
                assert(d[k].to == conns[j].user_id && (conns[j].user_id == author || conn_sees(
                    conns[j],
                    s,
                )));
            } else {
                assert(d[k].to == c.user_id);
                assert(d[k].to == conns[conns.len() - 1].user_id);
            }
        }
        assert forall|k1: int, k2: int| 0 <= k1 < k2 < d.len() implies (#[trigger] d[k1]).to != (
        #[trigger] d[k2]).to by {
            if k2 < dr.len() {
                assert(d[k1] == dr[k1] && d[k2] == dr[k2]);
            } else if k2 == dr.len() && d.len() > dr.len() {
                assert(d[k1] == dr[k1]);
                let j = choose|j: int|
                    0 <= j < rest.len() && (#[trigger] dr[k1]).to == (#[trigger] rest[j]).user_id
                        && (rest[j].user_id == author || conn_sees(rest[j], s));
                assert(d[k2].to == c.user_id);
                assert(conns[j].user_id != conns[conns.len() - 1].user_id);
            }
        }
        if exists|k: int| 0 <= k < d.len() && (#[trigger] d[k]).to == user_id {
            let k = choose|k: int| 0 <= k < d.len() && (#[trigger] d[k]).to == user_id;
            if k < dr.len() {
                assert(dr[k].to == user_id);
            } else {
                assert(d[k].to == c.user_id);
                assert(conns[conns.len() - 1].user_id == user_id && (user_id == author
                    || conn_sees(conns[conns.len() - 1], s)));
            }
        }
        if exists|j: int|
            0 <= j < conns.len() && (#[trigger] conns[j]).user_id == user_id && (user_id == author
                || conn_sees(conns[j], s)) {
            let j = choose|j: int|
                0 <= j < conns.len() && (#[trigger] conns[j]).user_id == user_id && (user_id
                    == author || conn_sees(conns[j], s));
            if j < rest.len() {
                assert(rest[j].user_id == user_id && (user_id == author || conn_sees(rest[j], s)));
                let k = choose|k: int| 0 <= k < dr.len() && (#[trigger] dr[k]).to == user_id;
                assert(d[k].to == user_id);
            } else {
                assert(c.user_id == user_id);
                if user_id == author || conn_sees(c, s) {
                    assert(d[d.len() - 1].to == user_id);
                }
            }
        }
    }
}

/// Each catch-up delivery carries exactly one of the visible strokes, to
/// the declaring connection, in the order the strokes were given.
pub proof fn lemma_deliveries_for_index(strokes: Seq<StrokeView>, lid: LayerId, to: UserId)
    ensures
        deliveries_for(strokes, lid, to).len() == strokes.len(),
        forall|k: int|
            0 <= k < strokes.len() ==> #[trigger] deliveries_for(strokes, lid, to)[k]
                == (DeliveryView { to, msg: ServerMessageView::PaintStroke(lid, strokes[k]) }),
    decreases strokes.len(),
{
    if strokes.len() > 0 {
        lemma_deliveries_for_index(strokes.drop_last(), lid, to);
        assert(forall|i: int|
            0 <= i < strokes.len() - 1 ==> strokes.drop_last()[i] == #[trigger] strokes[i]);
    }
}

/// Every catch-up delivery goes to the declaring connection: a viewport
/// declaration enqueues nothing on any other connection.
pub proof fn lemma_catchup_all_to(layers: Seq<Layer>, sub: Seq<Offset>, to: UserId)
    ensures
        forall|k: int|
            0 <= k < catchup_deliveries(layers, sub, to).len() ==> (#[trigger] catchup_deliveries(
                layers,
                sub,
                to,
            )[k]).to == to,
    decreases layers.len(),
{
    if layers.len() > 0 {
        let rest = layers.drop_last();
        lemma_catchup_all_to(rest, sub, to);
        let lid = (layers.len() - 1) as LayerId;
        let fv = filter_visible(layers.last().strokes(), sub);
        lemma_deliveries_for_index(fv, lid, to);
        let d = catchup_deliveries(layers, sub, to);
        let dr = catchup_deliveries(rest, sub, to);
        assert forall|k: int| 0 <= k < d.len() implies (#[trigger] d[k]).to == to by {
            if k < dr.len() {
                assert(d[k] == dr[k]);
            } else {
                assert(d[k] == deliveries_for(fv, lid, to)[k - dr.len()]);
            }
        }
    }
}

/// Viewport catch-up completeness for one layer of a well-formed canvas:
/// the catch-up delivers, to the declaring connection and as the
/// broadcast "stroke added" variant, exactly the strokes of the layer
/// whose footprint meets the new subscription — each exactly once, in
/// strictly ascending stroke-id order.
pub proof fn lemma_layer_catchup_exact(l: Layer, lid: LayerId, sub: Seq<Offset>, to: UserId)
    requires
        l.wf(),
    ensures
        layer_catchup(l, lid, sub, to).len() == filter_visible(l.strokes(), sub).len(),
        forall|k: int|
            0 <= k < layer_catchup(l, lid, sub, to).len() ==> #[trigger] layer_catchup(
                l,
                lid,
                sub,
                to,
            )[k] == (DeliveryView {
                to,
                msg: ServerMessageView::PaintStroke(lid, filter_visible(l.strokes(), sub)[k]),
            }),
        forall|k: int|
            0 <= k < filter_visible(l.strokes(), sub).len() ==> stroke_visible(
                #[trigger] filter_visible(l.strokes(), sub)[k],
                sub,
            ) && l.strokes().contains(filter_visible(l.strokes(), sub)[k]),
        forall|i: int|
            0 <= i < l.strokes().len() && stroke_visible(#[trigger] l.strokes()[i], sub)
                ==> filter_visible(l.strokes(), sub).contains(l.strokes()[i]),
        forall|k1: int, k2: int|
            0 <= k1 < k2 < filter_visible(l.strokes(), sub).len() ==> (#[trigger] filter_visible(
                l.strokes(),
                sub,
            )[k1]).id < (#[trigger] filter_visible(l.strokes(), sub)[k2]).id,
{
    l.lemma_strokes_ascending();
    lemma_deliveries_for_index(filter_visible(l.strokes(), sub), lid, to);
    crate::layer::lemma_filter_visible_membership(l.strokes(), sub);
    crate::layer::lemma_filter_visible_ascending(l.strokes(), sub);
}

} // verus!
