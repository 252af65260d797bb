//! Connection manager: the orchestration core of the presence service.
//!
//! The manager holds the session and room registries and turns each inbound
//! event — connect, frame, disconnect, bus delivery — into a new state and a
//! sequence of [`Effect`]s: frames to hand to local outbound queues and
//! envelopes to publish on the inter-instance bus. The transport layer
//! performs the effects; the manager itself never blocks or does I/O, so its
//! whole behaviour is stated by the `spec_*` transition functions and proved.

use crate::codec::{BinaryMessage, MessageView};
use crate::room::{member_wire_valid, Room, RoomView, UserInfoView};
use crate::session::{info_wire_valid, BoardInfoView, ConnId, Session, SessionView};
use rand::Rng;
use vstd::prelude::*;

verus! {

/// One outward action the transport must perform for the manager.
#[derive(Debug)]
pub enum Effect {
    /// Enqueue a frame on one local connection's outbound queue.
    Send { to: ConnId, message: BinaryMessage },
    /// Publish a frame on the bus channel of a board, wrapped in this
    /// instance's envelope.
    Publish { board_id: u16, message: BinaryMessage },
}

/// Mathematical image of an [`Effect`].
pub enum EffectView {
    Send { to: ConnId, message: MessageView },
    Publish { board_id: u16, message: MessageView },
}

impl View for Effect {
    type V = EffectView;

    open spec fn view(&self) -> EffectView {
        match *self {
            Effect::Send { to, ref message } => EffectView::Send { to, message: message@ },
            Effect::Publish { board_id, ref message } => EffectView::Publish {
                board_id,
                message: message@,
            },
        }
    }
}

/// The views of a sequence of effects.
pub open spec fn effects_view(s: Seq<Effect>) -> Seq<EffectView> {
    s.map_values(|e: Effect| e@)
}

/// One send of `msg` to every listed connection except the excluded one,
/// in list order.
pub open spec fn spec_sends(addrs: Seq<ConnId>, msg: MessageView, exclude: Option<ConnId>) -> Seq<
    EffectView,
>
    decreases addrs.len(),
{
    if addrs.len() == 0 {
        Seq::empty()
    } else {
        let rest = spec_sends(addrs.drop_first(), msg, exclude);
        if exclude matches Some(c) && addrs[0] == c {
            rest
        } else {
            seq![EffectView::Send { to: addrs[0], message: msg }] + rest
        }
    }
}

/// Appending a recipient appends its send (or nothing, if it is excluded).
pub proof fn lemma_sends_push(addrs: Seq<ConnId>, x: ConnId, msg: MessageView, exclude: Option<
    ConnId,
>)
    ensures
        spec_sends(addrs.push(x), msg, exclude) == spec_sends(addrs, msg, exclude) + (
        if exclude matches Some(c) && x == c {
            Seq::<EffectView>::empty()
        } else {
            seq![EffectView::Send { to: x, message: msg }]
        }),
    decreases addrs.len(),
{
    let tail = if exclude matches Some(c) && x == c {
        Seq::<EffectView>::empty()
    } else {
        seq![EffectView::Send { to: x, message: msg }]
    };
    if addrs.len() == 0 {
        assert(addrs.push(x).drop_first() =~= Seq::<ConnId>::empty());
        assert(spec_sends(Seq::<ConnId>::empty(), msg, exclude) == Seq::<EffectView>::empty());
        assert(addrs.push(x)[0] == x);
        assert(spec_sends(addrs.push(x), msg, exclude) =~= spec_sends(addrs, msg, exclude) + tail);
    } else {
        assert(addrs.push(x).drop_first() =~= addrs.drop_first().push(x));
        lemma_sends_push(addrs.drop_first(), x, msg, exclude);
        assert(spec_sends(addrs.push(x), msg, exclude) =~= spec_sends(addrs, msg, exclude) + tail);
    }
}

/// Every effect of a fan-out is a send of the broadcast message to a listed,
/// non-excluded connection.
pub proof fn lemma_sends_targets(addrs: Seq<ConnId>, msg: MessageView, exclude: Option<ConnId>)
    ensures
        forall|k: int|
            0 <= k < spec_sends(addrs, msg, exclude).len() ==> {
                let e = #[trigger] spec_sends(addrs, msg, exclude)[k];
                &&& e matches EffectView::Send { to, message }
                &&& message == msg
                &&& addrs.contains(to)
                &&& (exclude matches Some(c) ==> to != c)
            },
    decreases addrs.len(),
{
    if addrs.len() > 0 {
        lemma_sends_targets(addrs.drop_first(), msg, exclude);
        assert forall|k: int|
            0 <= k < spec_sends(addrs, msg, exclude).len() implies {
            let e = #[trigger] spec_sends(addrs, msg, exclude)[k];
            &&& e matches EffectView::Send { to, message }
            &&& message == msg
            &&& addrs.contains(to)
            &&& (exclude matches Some(c) ==> to != c)
        } by {
            let rest = spec_sends(addrs.drop_first(), msg, exclude);
            if exclude matches Some(c) && addrs[0] == c {
                assert(spec_sends(addrs, msg, exclude)[k] == rest[k]);
                assert(rest[k] matches EffectView::Send { to, .. }
                    ==> addrs.drop_first().contains(to));
                assert forall|to: ConnId|
                    addrs.drop_first().contains(to) implies addrs.contains(to) by {
                    let j = choose|j: int|
                        0 <= j < addrs.drop_first().len() && addrs.drop_first()[j] == to;
                    assert(addrs[j + 1] == to);
                }
            } else {
                if k == 0 {
                    assert(addrs.contains(addrs[0])) by {
                        assert(addrs[0] == addrs[0]);
                    }
                } else {
                    assert(spec_sends(addrs, msg, exclude)[k] == rest[k - 1]);
                    assert forall|to: ConnId|
                        addrs.drop_first().contains(to) implies addrs.contains(to) by {
                        let j = choose|j: int|
                            0 <= j < addrs.drop_first().len() && addrs.drop_first()[j] == to;
                        assert(addrs[j + 1] == to);
                    }
                }
            }
        }
    }
}

/// Mathematical image of a [`ConnectionManager`].
pub struct ManagerView {
    pub sessions: Seq<SessionView>,
    pub rooms: Seq<RoomView>,
    pub instance_id: Seq<char>,
}

impl ManagerView {
    /// Whether a session is registered for connection `c`.
    pub open spec fn has_session(self, c: ConnId) -> bool {
        exists|i: int| 0 <= i < self.sessions.len() && self.sessions[i].addr == c
    }

    /// Index of connection `c`'s session.
    pub open spec fn session_index_of(self, c: ConnId) -> int {
        choose|i: int| 0 <= i < self.sessions.len() && self.sessions[i].addr == c
    }

    /// The session of connection `c`.
    pub open spec fn session_of(self, c: ConnId) -> SessionView {
        self.sessions[self.session_index_of(c)]
    }

    /// Whether a room exists for board `b`.
    pub open spec fn has_room(self, b: u16) -> bool {
        exists|i: int| 0 <= i < self.rooms.len() && self.rooms[i].board_id == b
    }

    /// Index of board `b`'s room.
    pub open spec fn room_index_of(self, b: u16) -> int {
        choose|i: int| 0 <= i < self.rooms.len() && self.rooms[i].board_id == b
    }

    /// The room of board `b`.
    pub open spec fn room_of(self, b: u16) -> RoomView {
        self.rooms[self.room_index_of(b)]
    }

    /// Whether connection `c` is a member of board `b`'s room.
    pub open spec fn is_member(self, b: u16, c: ConnId) -> bool {
        self.has_room(b) && self.room_of(b).has_member(c)
    }

    /// Sessions are keyed by connection, rooms by board; both sides are
    /// well-formed; no room is empty; and the two registries agree: a session
    /// holds a board exactly when its connection is a member of that room,
    /// with the same id, name and colour.
    pub open spec fn wf(self) -> bool {
        &&& forall|i: int, j: int|
            0 <= i < j < self.sessions.len() ==> self.sessions[i].addr != self.sessions[j].addr
        &&& forall|i: int, j: int|
            0 <= i < j < self.rooms.len() ==> self.rooms[i].board_id != self.rooms[j].board_id
        &&& forall|i: int| 0 <= i < self.sessions.len() ==> (#[trigger] self.sessions[i]).wf()
        &&& forall|i: int| 0 <= i < self.rooms.len() ==> (#[trigger] self.rooms[i]).wf()
        &&& forall|i: int| 0 <= i < self.rooms.len() ==> (#[trigger] self.rooms[i]).members.len() >= 1
        &&& forall|i: int, j: int|
            0 <= i < self.sessions.len() && 0 <= j < self.sessions[i].boards.len()
                ==> #[trigger] self.session_board_in_room(i, j)
        &&& forall|i: int, j: int|
            0 <= i < self.rooms.len() && 0 <= j < self.rooms[i].members.len()
                ==> #[trigger] self.room_member_in_session(i, j)
    }

    /// Entry `j` of session `i` is mirrored by a room membership.
    pub open spec fn session_board_in_room(self, i: int, j: int) -> bool {
        let s = self.sessions[i];
        let b = s.boards[j].0;
        let info = s.boards[j].1;
        &&& self.has_room(b)
        &&& self.room_of(b).has_member(s.addr)
        &&& self.room_of(b).member_of(s.addr) == UserInfoView {
            addr: s.addr,
            user_id: info.user_id,
            username: info.username,
            color: info.color,
        }
    }

    /// Member `j` of room `i` is mirrored by a session entry.
    pub open spec fn room_member_in_session(self, i: int, j: int) -> bool {
        let r = self.rooms[i];
        let m = r.members[j];
        &&& self.has_session(m.addr)
        &&& self.session_of(m.addr).has_board(r.board_id)
    }
}

/// The views of a sequence of sessions.
pub open spec fn sessions_view(s: Seq<Session>) -> Seq<SessionView> {
    s.map_values(|x: Session| x@)
}

/// The views of a sequence of rooms.
pub open spec fn rooms_view(s: Seq<Room>) -> Seq<RoomView> {
    s.map_values(|x: Room| x@)
}

/// A vivid cursor colour: one channel at 180 or above, the other two at 150
/// or below.
pub open spec fn vivid_color(c: Seq<u8>) -> bool {
    &&& c.len() == 3
    &&& exists|i: int|
        0 <= i < 3 && c[i] >= 180 && (forall|j: int| 0 <= j < 3 && j != i ==> c[j] <= 150)
}

/// Relies on rand's `thread_rng` and `Rng::gen_range`: a value drawn from
/// `lo..=hi`. Nothing is assumed beyond the range.
#[verifier::external_body]
fn rand_range_u8(lo: u8, hi: u8) -> (r: u8)
    requires
        lo <= hi,
    ensures
        lo <= r <= hi,
{
    rand::thread_rng().gen_range(lo..=hi)
}

/// Relies on uuid's `Uuid::new_v4` and its `Display` form: a random v4 UUID
/// rendered as the 36-character hyphenated string. Nothing is assumed about
/// which identifier comes back.
#[verifier::external_body]
fn new_instance_id() -> (r: String)
    ensures
        r@.len() == 36,
{
    uuid::Uuid::new_v4().to_string()
}

/// Registries and identity of one service instance.
#[derive(Debug)]
pub struct ConnectionManager {
    sessions: Vec<Session>,
    rooms: Vec<Room>,
    instance_id: String,
}

impl View for ConnectionManager {
    type V = ManagerView;

    closed spec fn view(&self) -> ManagerView {
        ManagerView {
            sessions: sessions_view(self.sessions@),
            rooms: rooms_view(self.rooms@),
            instance_id: self.instance_id@,
        }
    }
}

impl ConnectionManager {
    /// A fresh manager with no connections and a random instance identity.
    pub fn new() -> (r: Self)
        ensures
            r@.sessions == Seq::<SessionView>::empty(),
            r@.rooms == Seq::<RoomView>::empty(),
            r@.instance_id.len() == 36,
            r@.wf(),
    {
        let r = ConnectionManager {
            sessions: Vec::new(),
            rooms: Vec::new(),
            instance_id: new_instance_id(),
        };
        proof {
            assert(r@.sessions =~= Seq::<SessionView>::empty());
            assert(r@.rooms =~= Seq::<RoomView>::empty());
        }
        r
    }

    /// The random identity this instance tags its bus envelopes with.
    pub fn instance_id(&self) -> (r: &String)
        ensures
            r@ == self@.instance_id,
    {
        &self.instance_id
    }

    /// Index of connection `c`'s session in the backing vector.
    fn find_session(&self, addr: ConnId) -> (r: Option<usize>)
        ensures
            (r is Some) == self@.has_session(addr),
            r matches Some(i) ==> 0 <= i < self@.sessions.len() && self@.sessions[i as int].addr
                == addr,
    {
        let n = self.sessions.len();
        for i in 0..n
            invariant
                n == self.sessions.len(),
                forall|j: int| 0 <= j < i ==> self@.sessions[j].addr != addr,
        {
            if self.sessions[i].addr() == addr {
                proof {
                    assert(self@.sessions[i as int].addr == addr);
                }
                return Some(i);
            }
        }
        None
    }

    /// Index of board `b`'s room in the backing vector.
    fn find_room(&self, board_id: u16) -> (r: Option<usize>)
        ensures
            (r is Some) == self@.has_room(board_id),
            r matches Some(i) ==> 0 <= i < self@.rooms.len() && self@.rooms[i as int].board_id
                == board_id,
    {
        let n = self.rooms.len();
        for i in 0..n
            invariant
                n == self.rooms.len(),
                forall|j: int| 0 <= j < i ==> self@.rooms[j].board_id != board_id,
        {
            if self.rooms[i].board_id() == board_id {
                proof {
                    assert(self@.rooms[i as int].board_id == board_id);
                }
                return Some(i);
            }
        }
        None
    }

    /// Register a new connection with an empty session.
    pub fn connect(&mut self, addr: ConnId)
        requires
            old(self)@.wf(),
            !old(self)@.has_session(addr),
        ensures
            final(self)@.sessions == old(self)@.sessions.push(
                SessionView { addr, boards: Seq::empty() },
            ),
            final(self)@.rooms == old(self)@.rooms,
            final(self)@.instance_id == old(self)@.instance_id,
            final(self)@.wf(),
    {
        let s = Session::new(addr);
        let ghost sv = s@;
        self.sessions.push(s);
        proof {
            assert(self@.sessions =~= old(self)@.sessions.push(sv));
            assert(self@.rooms =~= old(self)@.rooms);
            lemma_wf_after_session_push(old(self)@, self@, sv);
        }
    }

    /// How many members board `b`'s room has on this instance.
    pub fn get_room_user_count(&self, board_id: u16) -> (r: usize)
        requires
            self@.wf(),
        ensures
            self@.has_room(board_id) ==> r == self@.room_of(board_id).members.len(),
            !self@.has_room(board_id) ==> r == 0,
    {
        match self.find_room(board_id) {
            Some(i) => {
                proof {
                    lemma_unique_room_index(self@, board_id, i as int);
                }
                self.rooms[i].user_count()
            },
            None => 0,
        }
    }

    /// How many rooms this instance currently hosts.
    pub fn get_room_count(&self) -> (r: usize)
        ensures
            r == self@.rooms.len(),
    {
        self.rooms.len()
    }

    /// A random vivid cursor colour: one dominant channel in `180..=255`,
    /// the other two in `0..=150`.
    pub fn generate_color() -> (r: [u8; 3])
        ensures
            vivid_color(r@),
    {
        let strategy = rand_range_u8(0, 2);
        let hi = rand_range_u8(180, 255);
        let lo1 = rand_range_u8(0, 150);
        let lo2 = rand_range_u8(0, 150);
        let c: [u8; 3] = if strategy == 0 {
            [hi, lo1, lo2]
        } else if strategy == 1 {
            [lo1, hi, lo2]
        } else {
            [lo1, lo2, hi]
        };
        proof {
            let i: int = if strategy == 0 {
                0
            } else if strategy == 1 {
                1
            } else {
                2
            };
            assert(c@[i] >= 180 && (forall|j: int| 0 <= j < 3 && j != i ==> c@[j] <= 150));
        }
        c
    }
}

/// Viewing a pushed effect sequence appends the effect's view.
proof fn lemma_effects_view_push(s: Seq<Effect>, e: Effect)
    ensures
        effects_view(s.push(e)) == effects_view(s).push(e@),
{
    assert forall|k: int|
        0 <= k < effects_view(s.push(e)).len() implies effects_view(s.push(e))[k] == effects_view(
        s,
    ).push(e@)[k] by {
        if k < s.len() {
            assert(s.push(e)[k] == s[k]);
        } else {
            assert(s.push(e)[k] == e);
        }
    }
    assert(effects_view(s.push(e)) =~= effects_view(s).push(e@));
}

/// Viewing a concatenation of effect sequences concatenates the views.
proof fn lemma_effects_view_concat(s1: Seq<Effect>, s2: Seq<Effect>)
    ensures
        effects_view(s1 + s2) == effects_view(s1) + effects_view(s2),
{
    assert forall|k: int|
        0 <= k < effects_view(s1 + s2).len() implies effects_view(s1 + s2)[k] == (effects_view(s1)
        + effects_view(s2))[k] by {
        if k < s1.len() {
            assert((s1 + s2)[k] == s1[k]);
        } else {
            assert((s1 + s2)[k] == s2[k - s1.len()]);
        }
    }
    assert(effects_view(s1 + s2) =~= effects_view(s1) + effects_view(s2));
}

/// One send per listed connection, skipping the excluded one.
fn build_sends(addrs: &Vec<ConnId>, message: &BinaryMessage, exclude: Option<ConnId>) -> (r: Vec<
    Effect,
>)
    ensures
        effects_view(r@) == spec_sends(addrs@, message@, exclude),
{
    let mut out: Vec<Effect> = Vec::new();
    let n = addrs.len();
    proof {
        assert(effects_view(out@) =~= Seq::<EffectView>::empty());
        assert(addrs@.take(0) =~= Seq::<ConnId>::empty());
        assert(spec_sends(Seq::<ConnId>::empty(), message@, exclude) == Seq::<
            EffectView,
        >::empty());
    }
    for i in 0..n
        invariant
            n == addrs@.len(),
            effects_view(out@) == spec_sends(addrs@.take(i as int), message@, exclude),
    {
        let a = addrs[i];
        let excluded = match exclude {
            Some(c) => a == c,
            None => false,
        };
        let ghost pre = out@;
        if !excluded {
            let e = Effect::Send { to: a, message: message.duplicate() };
            let ghost ge = e;
            out.push(e);
            proof {
                lemma_effects_view_push(pre, ge);
            }
        }
        proof {
            lemma_sends_push(addrs@.take(i as int), a, message@, exclude);
            assert(addrs@.take(i as int + 1) =~= addrs@.take(i as int).push(a));
            if !excluded {
                assert(effects_view(out@) =~= spec_sends(addrs@.take(i as int), message@, exclude)
                    + seq![EffectView::Send { to: a, message: message@ }]);
            } else {
                assert(effects_view(out@) =~= spec_sends(addrs@.take(i as int), message@, exclude)
                    + Seq::<EffectView>::empty());
            }
        }
    }
    proof {
        assert(addrs@.take(n as int) =~= addrs@);
    }
    out
}

/// The fan-out of one frame to board `b`'s local members: nothing when the
/// room does not exist, else one send per member except the excluded one.
pub open spec fn spec_broadcast(m: ManagerView, b: u16, msg: MessageView, exclude: Option<
    ConnId,
>) -> Seq<EffectView> {
    if m.has_room(b) {
        spec_sends(m.room_of(b).member_addrs(), msg, exclude)
    } else {
        Seq::empty()
    }
}

/// The effects of a cursor update: nothing unless the sender has joined the
/// board; else one bus publish and the local fan-out to everyone but the
/// sender.
pub open spec fn spec_cursor_effects(m: ManagerView, addr: ConnId, b: u16, x: u16, y: u16) -> Seq<
    EffectView,
> {
    if m.has_session(addr) && m.session_of(addr).has_board(b) {
        let uid = m.session_of(addr).board_info_of(b).user_id;
        let msg = MessageView::CursorBroadcast { board_id: b, user_id: uid, x, y };
        seq![EffectView::Publish { board_id: b, message: msg }] + spec_broadcast(
            m,
            b,
            msg,
            Some(addr),
        )
    } else {
        Seq::empty()
    }
}

impl ConnectionManager {
    /// Fan one frame out to every local member of a board, except `exclude`.
    fn broadcast_to_room(
        &self,
        board_id: u16,
        message: &BinaryMessage,
        exclude: Option<ConnId>,
    ) -> (r: Vec<Effect>)
        requires
            self@.wf(),
        ensures
            effects_view(r@) == spec_broadcast(self@, board_id, message@, exclude),
    {
        match self.find_room(board_id) {
            Some(i) => {
                proof {
                    lemma_unique_room_index(self@, board_id, i as int);
                    assert(self@.rooms[i as int] == self.rooms@[i as int]@);
                }
                let addrs = self.rooms[i].user_addresses();
                build_sends(&addrs, message, exclude)
            },
            None => {
                let r: Vec<Effect> = Vec::new();
                proof {
                    assert(effects_view(r@) =~= Seq::<EffectView>::empty());
                }
                r
            },
        }
    }

    /// Answer a heartbeat: echo one back to the sender.
    fn handle_heartbeat(&self, addr: ConnId) -> (r: Vec<Effect>)
        ensures
            effects_view(r@) == seq![
                EffectView::Send { to: addr, message: MessageView::Heartbeat },
            ],
    {
        let mut out: Vec<Effect> = Vec::new();
        let ghost pre = out@;
        let e = Effect::Send { to: addr, message: BinaryMessage::Heartbeat };
        let ghost ge = e;
        out.push(e);
        proof {
            lemma_effects_view_push(pre, ge);
            assert(effects_view(pre) =~= Seq::<EffectView>::empty());
            assert(effects_view(out@) =~= seq![
                EffectView::Send { to: addr, message: MessageView::Heartbeat },
            ]);
        }
        out
    }

    /// Relay a cursor position: publish it on the bus and fan it out to the
    /// board's other local members. A sender that has not joined the board
    /// is dropped. The registries do not change.
    fn handle_cursor_update(&self, addr: ConnId, board_id: u16, x: u16, y: u16) -> (r: Vec<
        Effect,
    >)
        requires
            self@.wf(),
        ensures
            effects_view(r@) == spec_cursor_effects(self@, addr, board_id, x, y),
    {
        let si = match self.find_session(addr) {
            Some(si) => si,
            None => {
                let r: Vec<Effect> = Vec::new();
                proof {
                    assert(effects_view(r@) =~= Seq::<EffectView>::empty());
                }
                return r;
            },
        };
        proof {
            lemma_unique_session_index(self@, addr, si as int);
            assert(self@.sessions[si as int] == self.sessions@[si as int]@);
        }
        let uid = match self.sessions[si].get_board_info(board_id) {
            Some(info) => info.user_id,
            None => {
                let r: Vec<Effect> = Vec::new();
                proof {
                    assert(effects_view(r@) =~= Seq::<EffectView>::empty());
                }
                return r;
            },
        };
        let msg = BinaryMessage::CursorBroadcast { board_id, user_id: uid, x, y };
        let mut out: Vec<Effect> = Vec::new();
        let ghost pre = out@;
        let e = Effect::Publish { board_id, message: msg.duplicate() };
        let ghost ge = e;
        out.push(e);
        proof {
            lemma_effects_view_push(pre, ge);
            assert(effects_view(pre) =~= Seq::<EffectView>::empty());
        }
        let ghost mid = out@;
        let mut sends = self.broadcast_to_room(board_id, &msg, Some(addr));
        let ghost sv = sends@;
        out.append(&mut sends);
        proof {
            assert(out@ == mid + sv);
            lemma_effects_view_concat(mid, sv);
            assert(effects_view(mid) =~= seq![
                EffectView::Publish { board_id, message: msg@ },
            ]);
            assert(effects_view(out@) =~= spec_cursor_effects(self@, addr, board_id, x, y));
        }
        out
    }
}

/// Removing and re-inserting at the same place is an update.
proof fn lemma_remove_insert<T>(s: Seq<T>, i: int, v: T)
    requires
        0 <= i < s.len(),
    ensures
        s.remove(i).insert(i, v) == s.update(i, v),
{
    assert(s.remove(i).insert(i, v) =~= s.update(i, v));
}

/// Viewing rooms commutes with removing one.
proof fn lemma_rooms_view_remove(s: Seq<Room>, i: int)
    requires
        0 <= i < s.len(),
    ensures
        rooms_view(s.remove(i)) == rooms_view(s).remove(i),
{
    assert(rooms_view(s.remove(i)) =~= rooms_view(s).remove(i));
}

/// Viewing rooms commutes with inserting one.
proof fn lemma_rooms_view_insert(s: Seq<Room>, i: int, r: Room)
    requires
        0 <= i <= s.len(),
    ensures
        rooms_view(s.insert(i, r)) == rooms_view(s).insert(i, r@),
{
    assert(rooms_view(s.insert(i, r)) =~= rooms_view(s).insert(i, r@));
}

/// Viewing rooms commutes with appending one.
proof fn lemma_rooms_view_push(s: Seq<Room>, r: Room)
    ensures
        rooms_view(s.push(r)) == rooms_view(s).push(r@),
{
    assert(rooms_view(s.push(r)) =~= rooms_view(s).push(r@));
}

/// Viewing sessions commutes with removing one.
proof fn lemma_sessions_view_remove(s: Seq<Session>, i: int)
    requires
        0 <= i < s.len(),
    ensures
        sessions_view(s.remove(i)) == sessions_view(s).remove(i),
{
    assert(sessions_view(s.remove(i)) =~= sessions_view(s).remove(i));
}

/// Viewing sessions commutes with inserting one.
proof fn lemma_sessions_view_insert(s: Seq<Session>, i: int, x: Session)
    requires
        0 <= i <= s.len(),
    ensures
        sessions_view(s.insert(i, x)) == sessions_view(s).insert(i, x@),
{
    assert(sessions_view(s.insert(i, x)) =~= sessions_view(s).insert(i, x@));
}

/// After updating the session at `si` without changing its connection,
/// lookups resolve as before; the updated connection resolves to the new
/// session.
proof fn lemma_session_lookup_after_update(m0: ManagerView, m1: ManagerView, si: int)
    requires
        forall|x: int, y: int|
            0 <= x < y < m0.sessions.len() ==> m0.sessions[x].addr != m0.sessions[y].addr,
        0 <= si < m0.sessions.len(),
        m1.sessions.len() == m0.sessions.len(),
        m1.sessions[si].addr == m0.sessions[si].addr,
        forall|k: int| 0 <= k < m0.sessions.len() && k != si ==> m1.sessions[k] == m0.sessions[k],
    ensures
        forall|c: ConnId| #[trigger] m1.has_session(c) == m0.has_session(c),
        forall|c: ConnId|
            m0.has_session(c) ==> #[trigger] m1.session_index_of(c) == m0.session_index_of(c),
        forall|c: ConnId|
            m0.has_session(c) && c != m0.sessions[si].addr ==> #[trigger] m1.session_of(c)
                == m0.session_of(c),
        m1.session_of(m0.sessions[si].addr) == m1.sessions[si],
{
    assert(forall|k: int|
        0 <= k < m1.sessions.len() ==> #[trigger] m1.sessions[k].addr == m0.sessions[k].addr);
    assert forall|c: ConnId| #[trigger] m1.has_session(c) == m0.has_session(c) by {
        if m0.has_session(c) {
            let i = m0.session_index_of(c);
            assert(0 <= i < m0.sessions.len() && m0.sessions[i].addr == c);
            assert(m1.sessions[i].addr == c);
        }
        if m1.has_session(c) {
            let i = choose|i: int| 0 <= i < m1.sessions.len() && m1.sessions[i].addr == c;
            assert(m0.sessions[i].addr == c);
        }
    }
    assert forall|c: ConnId|
        m0.has_session(c) implies #[trigger] m1.session_index_of(c) == m0.session_index_of(
        c,
    ) by {
        let k0 = m0.session_index_of(c);
        assert(0 <= k0 < m0.sessions.len() && m0.sessions[k0].addr == c);
        assert(m1.has_session(c));
        let k1 = m1.session_index_of(c);
        assert(0 <= k1 < m1.sessions.len() && m1.sessions[k1].addr == c);
        assert(m0.sessions[k1].addr == c);
        if k0 < k1 {
            assert(m0.sessions[k0].addr != m0.sessions[k1].addr);
        } else if k1 < k0 {
            assert(m0.sessions[k1].addr != m0.sessions[k0].addr);
        }
    }
    let a = m0.sessions[si].addr;
    assert(m0.has_session(a)) by {
        assert(m0.sessions[si].addr == a);
    }
    assert(m1.session_index_of(a) == m0.session_index_of(a));
    let k0 = m0.session_index_of(a);
    assert(0 <= k0 < m0.sessions.len() && m0.sessions[k0].addr == a);
    if k0 < si {
        assert(m0.sessions[k0].addr != m0.sessions[si].addr);
    } else if si < k0 {
        assert(m0.sessions[si].addr != m0.sessions[k0].addr);
    }
    assert(m1.session_of(a) == m1.sessions[si]);
}

/// After updating the room at `ri` without changing its board, lookups
/// resolve as before; the updated board resolves to the new room.
proof fn lemma_room_lookup_after_update(m0: ManagerView, m1: ManagerView, ri: int)
    requires
        forall|x: int, y: int|
            0 <= x < y < m0.rooms.len() ==> m0.rooms[x].board_id != m0.rooms[y].board_id,
        0 <= ri < m0.rooms.len(),
        m1.rooms.len() == m0.rooms.len(),
        m1.rooms[ri].board_id == m0.rooms[ri].board_id,
        forall|k: int| 0 <= k < m0.rooms.len() && k != ri ==> m1.rooms[k] == m0.rooms[k],
    ensures
        forall|b: u16| #[trigger] m1.has_room(b) == m0.has_room(b),
        forall|b: u16| m0.has_room(b) ==> #[trigger] m1.room_index_of(b) == m0.room_index_of(b),
        forall|b: u16|
            m0.has_room(b) && b != m0.rooms[ri].board_id ==> #[trigger] m1.room_of(b)
                == m0.room_of(b),
        m1.room_of(m0.rooms[ri].board_id) == m1.rooms[ri],
{
    assert(forall|k: int|
        0 <= k < m1.rooms.len() ==> #[trigger] m1.rooms[k].board_id == m0.rooms[k].board_id);
    assert forall|b: u16| #[trigger] m1.has_room(b) == m0.has_room(b) by {
        if m0.has_room(b) {
            let i = m0.room_index_of(b);
            assert(0 <= i < m0.rooms.len() && m0.rooms[i].board_id == b);
            assert(m1.rooms[i].board_id == b);
        }
        if m1.has_room(b) {
            let i = choose|i: int| 0 <= i < m1.rooms.len() && m1.rooms[i].board_id == b;
            assert(m0.rooms[i].board_id == b);
        }
    }
    assert forall|b: u16|
        m0.has_room(b) implies #[trigger] m1.room_index_of(b) == m0.room_index_of(b) by {
        let k0 = m0.room_index_of(b);
        assert(0 <= k0 < m0.rooms.len() && m0.rooms[k0].board_id == b);
        assert(m1.has_room(b));
        let k1 = m1.room_index_of(b);
        assert(0 <= k1 < m1.rooms.len() && m1.rooms[k1].board_id == b);
        assert(m0.rooms[k1].board_id == b);
        if k0 < k1 {
            assert(m0.rooms[k0].board_id != m0.rooms[k1].board_id);
        } else if k1 < k0 {
            assert(m0.rooms[k1].board_id != m0.rooms[k0].board_id);
        }
    }
    let b = m0.rooms[ri].board_id;
    assert(m0.has_room(b)) by {
        assert(m0.rooms[ri].board_id == b);
    }
    let k0 = m0.room_index_of(b);
    assert(0 <= k0 < m0.rooms.len() && m0.rooms[k0].board_id == b);
    if k0 < ri {
        assert(m0.rooms[k0].board_id != m0.rooms[ri].board_id);
    } else if ri < k0 {
        assert(m0.rooms[ri].board_id != m0.rooms[k0].board_id);
    }
    assert(m1.room_of(b) == m1.rooms[ri]);
}

/// After appending a room for a board that had none, other boards resolve
/// as before and the new board resolves to the appended room.
proof fn lemma_room_lookup_after_push(m0: ManagerView, m1: ManagerView, rv: RoomView)
    requires
        forall|x: int, y: int|
            0 <= x < y < m0.rooms.len() ==> m0.rooms[x].board_id != m0.rooms[y].board_id,
        !m0.has_room(rv.board_id),
        m1.rooms == m0.rooms.push(rv),
    ensures
        forall|b: u16| b != rv.board_id ==> #[trigger] m1.has_room(b) == m0.has_room(b),
        forall|b: u16|
            m0.has_room(b) && b != rv.board_id ==> #[trigger] m1.room_index_of(b)
                == m0.room_index_of(b) && m1.room_of(b) == m0.room_of(b),
        m1.has_room(rv.board_id),
        m1.room_index_of(rv.board_id) == m0.rooms.len(),
        m1.room_of(rv.board_id) == rv,
{
    let n = m0.rooms.len() as int;
    assert(m1.rooms[n] == rv);
    assert forall|b: u16| b != rv.board_id implies #[trigger] m1.has_room(b) == m0.has_room(b) by {
        if m0.has_room(b) {
            let i = m0.room_index_of(b);
            assert(m1.rooms[i].board_id == b);
        }
        if m1.has_room(b) {
            let i = choose|i: int| 0 <= i < m1.rooms.len() && m1.rooms[i].board_id == b;
            assert(i != n);
            assert(m0.rooms[i].board_id == b);
        }
    }
    assert forall|b: u16|
        m0.has_room(b) && b != rv.board_id implies #[trigger] m1.room_index_of(b)
        == m0.room_index_of(b) && m1.room_of(b) == m0.room_of(b) by {
        let k0 = m0.room_index_of(b);
        assert(0 <= k0 < n && m0.rooms[k0].board_id == b);
        assert(m1.rooms[k0].board_id == b);
        assert(m1.has_room(b));
        let k1 = m1.room_index_of(b);
        assert(0 <= k1 < m1.rooms.len() && m1.rooms[k1].board_id == b);
        assert(k1 != n ==> m0.rooms[k1].board_id == b);
        if k1 == n {
            assert(m1.rooms[k1] == rv);
        } else if !m0.has_room(b) {
        }
        assert(m0.has_room(b));
        assert(m0.rooms[k1].board_id == b);
        assert(k1 == k0) by {
            lemma_unique_room_index_raw(m0.rooms, b, k0, k1);
        }
    }
    let k = m1.room_index_of(rv.board_id);
    assert(0 <= k < m1.rooms.len() && m1.rooms[k].board_id == rv.board_id) by {
        assert(m1.rooms[n].board_id == rv.board_id);
    }
    if k != n {
        assert(m0.rooms[k].board_id == rv.board_id);
        assert(m0.has_room(rv.board_id));
    }
    assert(k == n);
}

/// Two indices holding the same board in a uniquely keyed room sequence
/// are the same index.
proof fn lemma_unique_room_index_raw(rooms: Seq<RoomView>, b: u16, i: int, j: int)
    requires
        0 <= i < rooms.len(),
        0 <= j < rooms.len(),
        rooms[i].board_id == b,
        rooms[j].board_id == b,
        forall|x: int, y: int|
            0 <= x < y < rooms.len() ==> rooms[x].board_id != rooms[y].board_id,
    ensures
        i == j,
{
    if i < j {
        assert(rooms[i].board_id != rooms[j].board_id);
    } else if j < i {
        assert(rooms[j].board_id != rooms[i].board_id);
    }
}

/// After appending a member whose connection was absent, other connections
/// resolve as before and the new connection resolves to the appended record.
proof fn lemma_member_lookup_after_push(r0: RoomView, r1: RoomView, mv: UserInfoView)
    requires
        forall|x: int, y: int|
            0 <= x < y < r0.members.len() ==> r0.members[x].addr != r0.members[y].addr,
        !r0.has_member(mv.addr),
        r1.members == r0.members.push(mv),
    ensures
        forall|c: ConnId| c != mv.addr ==> #[trigger] r1.has_member(c) == r0.has_member(c),
        forall|c: ConnId|
            r0.has_member(c) && c != mv.addr ==> #[trigger] r1.member_of(c) == r0.member_of(c),
        r1.has_member(mv.addr),
        r1.member_of(mv.addr) == mv,
{
    let n = r0.members.len() as int;
    assert(r1.members[n] == mv);
    assert forall|c: ConnId| c != mv.addr implies #[trigger] r1.has_member(c) == r0.has_member(
        c,
    ) by {
        if r0.has_member(c) {
            let i = r0.member_index_of(c);
            assert(r1.members[i].addr == c);
        }
        if r1.has_member(c) {
            let i = choose|i: int| 0 <= i < r1.members.len() && r1.members[i].addr == c;
            assert(i != n);
            assert(r0.members[i].addr == c);
        }
    }
    assert forall|c: ConnId|
        r0.has_member(c) && c != mv.addr implies #[trigger] r1.member_of(c) == r0.member_of(
        c,
    ) by {
        let k0 = r0.member_index_of(c);
        assert(0 <= k0 < n && r0.members[k0].addr == c);
        assert(r1.members[k0].addr == c);
        assert(r1.has_member(c));
        let k1 = r1.member_index_of(c);
        assert(0 <= k1 < r1.members.len() && r1.members[k1].addr == c);
        assert(k1 != n);
        assert(r0.members[k1].addr == c);
        if k0 < k1 {
            assert(r0.members[k0].addr != r0.members[k1].addr);
        } else if k1 < k0 {
            assert(r0.members[k1].addr != r0.members[k0].addr);
        }
    }
    let k = r1.member_index_of(mv.addr);
    assert(0 <= k < r1.members.len() && r1.members[k].addr == mv.addr) by {
        assert(r1.members[n].addr == mv.addr);
    }
    if k != n {
        assert(r0.members[k].addr == mv.addr);
        assert(r0.has_member(mv.addr));
    }
    assert(k == n);
}

/// After appending a board entry the session did not hold, other boards
/// resolve as before and the new board resolves to the appended record.
proof fn lemma_board_lookup_after_push(s0: SessionView, s1: SessionView, b: u16, info:
    BoardInfoView)
    requires
        forall|x: int, y: int|
            0 <= x < y < s0.boards.len() ==> s0.boards[x].0 != s0.boards[y].0,
        !s0.has_board(b),
        s1.boards == s0.boards.push((b, info)),
    ensures
        forall|b2: u16| b2 != b ==> #[trigger] s1.has_board(b2) == s0.has_board(b2),
        forall|b2: u16|
            s0.has_board(b2) && b2 != b ==> #[trigger] s1.board_info_of(b2) == s0.board_info_of(
                b2,
            ),
        s1.has_board(b),
        s1.board_info_of(b) == info,
{
    let n = s0.boards.len() as int;
    assert(s1.boards[n] == (b, info));
    assert forall|b2: u16| b2 != b implies #[trigger] s1.has_board(b2) == s0.has_board(b2) by {
        if s0.has_board(b2) {
            let i = s0.board_index_of(b2);
            assert(s1.boards[i].0 == b2);
        }
        if s1.has_board(b2) {
            let i = choose|i: int| 0 <= i < s1.boards.len() && s1.boards[i].0 == b2;
            assert(i != n);
            assert(s0.boards[i].0 == b2);
        }
    }
    assert forall|b2: u16|
        s0.has_board(b2) && b2 != b implies #[trigger] s1.board_info_of(b2) == s0.board_info_of(
        b2,
    ) by {
        let k0 = s0.board_index_of(b2);
        assert(0 <= k0 < n && s0.boards[k0].0 == b2);
        assert(s1.boards[k0].0 == b2);
        assert(s1.has_board(b2));
        let k1 = s1.board_index_of(b2);
        assert(0 <= k1 < s1.boards.len() && s1.boards[k1].0 == b2);
        assert(k1 != n);
        assert(s0.boards[k1].0 == b2);
        if k0 < k1 {
            assert(s0.boards[k0].0 != s0.boards[k1].0);
        } else if k1 < k0 {
            assert(s0.boards[k1].0 != s0.boards[k0].0);
        }
    }
    let k = s1.board_index_of(b);
    assert(0 <= k < s1.boards.len() && s1.boards[k].0 == b) by {
        assert(s1.boards[n].0 == b);
    }
    if k != n {
        assert(s0.boards[k].0 == b);
        assert(s0.has_board(b));
    }
    assert(k == n);
}

/// A room that has just been created for board `b`.
pub open spec fn fresh_room(b: u16) -> RoomView {
    RoomView { board_id: b, members: Seq::empty(), used: Seq::new(256, |i: int| false) }
}

/// The join transition. A join by a connection that already holds the board
/// does nothing; a join into a full room does nothing; otherwise the room is
/// found or created, the lowest free id is assigned, both registries are
/// extended, and the effects are: publish `UserJoined`, fan it out to the
/// other members, publish `PresenceUpdate`, fan it out to every member
/// including the joiner.
pub open spec fn spec_join(
    m: ManagerView,
    addr: ConnId,
    b: u16,
    username: Seq<char>,
    color: Seq<u8>,
) -> (ManagerView, Seq<EffectView>) {
    if !m.has_session(addr) || m.session_of(addr).has_board(b) {
        (m, Seq::empty())
    } else {
        let r0 = if m.has_room(b) {
            m.room_of(b)
        } else {
            fresh_room(b)
        };
        if !r0.has_free_id() {
            (m, Seq::empty())
        } else {
            let id = r0.lowest_free() as u8;
            let mv = UserInfoView { addr, user_id: id, username, color };
            let r1 = RoomView {
                board_id: b,
                members: r0.members.push(mv),
                used: r0.used.update(id as int, true),
            };
            let rooms1 = if m.has_room(b) {
                m.rooms.update(m.room_index_of(b), r1)
            } else {
                m.rooms.push(r1)
            };
            let s0 = m.session_of(addr);
            let s1 = SessionView {
                addr,
                boards: s0.boards.push((b, BoardInfoView { user_id: id, username, color })),
            };
            let m1 = ManagerView {
                sessions: m.sessions.update(m.session_index_of(addr), s1),
                rooms: rooms1,
                instance_id: m.instance_id,
            };
            let uj = MessageView::UserJoined { board_id: b, user_id: id, username, color };
            let pu = MessageView::PresenceUpdate {
                board_id: b,
                count: (r1.members.len() % 256) as u8,
            };
            let effs = seq![EffectView::Publish { board_id: b, message: uj }] + spec_sends(
                r1.member_addrs(),
                uj,
                Some(addr),
            ) + seq![EffectView::Publish { board_id: b, message: pu }] + spec_sends(
                r1.member_addrs(),
                pu,
                None,
            );
            (m1, effs)
        }
    }
}

/// The state after a successful join is well-formed.
proof fn lemma_wf_after_join(
    m0: ManagerView,
    m1: ManagerView,
    addr: ConnId,
    b: u16,
    id: u8,
    username: Seq<char>,
    color: Seq<u8>,
    si: int,
)
    requires
        m0.wf(),
        0 <= si < m0.sessions.len(),
        m0.sessions[si].addr == addr,
        !m0.sessions[si].has_board(b),
        vstd::utf8::encode_utf8(username).len() <= 32,
        color.len() == 3,
        ({
            let r0 = if m0.has_room(b) {
                m0.room_of(b)
            } else {
                fresh_room(b)
            };
            let mv = UserInfoView { addr, user_id: id, username, color };
            let r1 = RoomView {
                board_id: b,
                members: r0.members.push(mv),
                used: r0.used.update(id as int, true),
            };
            let s1 = SessionView {
                addr,
                boards: m0.sessions[si].boards.push(
                    (b, BoardInfoView { user_id: id, username, color }),
                ),
            };
            &&& !r0.used[id as int]
            &&& m1.rooms == (if m0.has_room(b) {
                m0.rooms.update(m0.room_index_of(b), r1)
            } else {
                m0.rooms.push(r1)
            })
            &&& m1.sessions == m0.sessions.update(si, s1)
        }),
    ensures
        m1.wf(),
{
    let r0 = if m0.has_room(b) {
        m0.room_of(b)
    } else {
        fresh_room(b)
    };
    let mv = UserInfoView { addr, user_id: id, username, color };
    let r1 = RoomView {
        board_id: b,
        members: r0.members.push(mv),
        used: r0.used.update(id as int, true),
    };
    let s0 = m0.sessions[si];
    let s1 = SessionView {
        addr,
        boards: s0.boards.push((b, BoardInfoView { user_id: id, username, color })),
    };
    let ri: int = if m0.has_room(b) {
        m0.room_index_of(b)
    } else {
        m0.rooms.len() as int
    };
    lemma_unique_session_index(m0, addr, si);

    assert(!r0.has_member(addr)) by {
        if m0.has_room(b) && r0.has_member(addr) {
            let k = m0.room_index_of(b);
            assert(0 <= k < m0.rooms.len() && m0.rooms[k].board_id == b);
            let j = r0.member_index_of(addr);
            assert(0 <= j < r0.members.len() && r0.members[j].addr == addr);
            assert(m0.room_member_in_session(k, j));
            assert(m0.session_of(addr).has_board(b));
        }
    }
    assert(r0.wf()) by {
        if m0.has_room(b) {
            let k = m0.room_index_of(b);
            assert(0 <= k < m0.rooms.len() && m0.rooms[k].board_id == b);
        }
    }
    assert(r1.wf()) by {
        assert forall|i: int, j: int|
            0 <= i < j < r1.members.len() implies r1.members[i].user_id
            != r1.members[j].user_id by {
            if j == r1.members.len() - 1 {
                assert(r0.used[r0.members[i].user_id as int]);
            }
        }
        assert forall|i: int, j: int|
            0 <= i < j < r1.members.len() implies r1.members[i].addr != r1.members[j].addr by {
            if j == r1.members.len() - 1 {
                assert(!r0.has_member(addr) ==> r0.members[i].addr != addr);
            }
        }
        assert forall|i: int|
            0 <= i < r1.members.len() implies r1.used[#[trigger] r1.members[i].user_id as int] by {
            if i < r1.members.len() - 1 {
                assert(r0.used[r0.members[i].user_id as int]);
            }
        }
        assert(member_wire_valid(mv));
    }
    assert(s1.wf()) by {
        assert forall|i: int, j: int|
            0 <= i < j < s1.boards.len() implies s1.boards[i].0 != s1.boards[j].0 by {
            if j == s1.boards.len() - 1 {
                assert(!s0.has_board(b) ==> s0.boards[i].0 != b);
            }
        }
        assert(info_wire_valid(BoardInfoView { user_id: id, username, color }));
    }

    lemma_session_lookup_after_update(m0, m1, si);
    if m0.has_room(b) {
        lemma_room_lookup_after_update(m0, m1, ri);
        assert(m1.room_of(b) == r1);
    } else {
        lemma_room_lookup_after_push(m0, m1, r1);
        assert(m1.room_of(b) == r1);
    }
    lemma_member_lookup_after_push(r0, r1, mv);
    lemma_board_lookup_after_push(s0, s1, b, BoardInfoView { user_id: id, username, color });

    assert(forall|x: int, y: int|
        0 <= x < y < m1.sessions.len() ==> m1.sessions[x].addr != m1.sessions[y].addr);
    assert forall|x: int, y: int|
        0 <= x < y < m1.rooms.len() implies m1.rooms[x].board_id != m1.rooms[y].board_id by {
        if !m0.has_room(b) && y == m1.rooms.len() - 1 {
            assert(m1.rooms[x] == m0.rooms[x]);
            assert(m0.rooms[x].board_id != b);
        }
    }
    assert(forall|i: int| 0 <= i < m1.sessions.len() ==> (#[trigger] m1.sessions[i]).wf());
    assert forall|i: int| 0 <= i < m1.rooms.len() implies (#[trigger] m1.rooms[i]).wf() by {
        if i != ri {
            assert(m1.rooms[i] == m0.rooms[i]);
        }
    }
    assert forall|i: int|
        0 <= i < m1.rooms.len() implies (#[trigger] m1.rooms[i]).members.len() >= 1 by {
        if i != ri {
            assert(m1.rooms[i] == m0.rooms[i]);
        }
    }

    assert forall|i: int, j: int|
        0 <= i < m1.sessions.len() && 0 <= j < m1.sessions[i].boards.len()
        implies #[trigger] m1.session_board_in_room(i, j) by {
        let s = m1.sessions[i];
        let b2 = s.boards[j].0;
        if i == si && j == s.boards.len() - 1 {
            assert(s == s1);
            assert(b2 == b);
            assert(m1.room_of(b).member_of(addr) == mv);
        } else {
            assert(m1.sessions[i].addr == m0.sessions[i].addr);
            if i == si {
                assert(s == s1);
                assert(s.boards[j] == s0.boards[j]);
            } else {
                assert(s == m0.sessions[i]);
            }
            assert(m0.session_board_in_room(i, j));
            assert(m0.has_room(b2));
            if b2 == b {
                assert(m0.has_room(b));
                assert(m1.room_of(b) == r1);
                assert(r0 == m0.room_of(b));
                assert(r0.has_member(m0.sessions[i].addr));
                assert(m0.sessions[i].addr != addr) by {
                    if i == si {
                        assert(s0.boards[j].0 == b);
                        assert(s0.has_board(b));
                    } else {
                        if i < si {
                            assert(m0.sessions[i].addr != m0.sessions[si].addr);
                        } else {
                            assert(m0.sessions[si].addr != m0.sessions[i].addr);
                        }
                    }
                }
                assert(r1.member_of(m0.sessions[i].addr) == r0.member_of(m0.sessions[i].addr));
            } else {
                assert(m1.has_room(b2));
                assert(m1.room_of(b2) == m0.room_of(b2));
            }
        }
    }

    assert forall|i: int, j: int|
        0 <= i < m1.rooms.len() && 0 <= j < m1.rooms[i].members.len()
        implies #[trigger] m1.room_member_in_session(i, j) by {
        let r = m1.rooms[i];
        let c = r.members[j].addr;
        if i == ri && j == r.members.len() - 1 {
            assert(r == r1);
            assert(c == addr);
            assert(m1.session_of(addr) == s1);
            assert(s1.has_board(b));
        } else {
            if i == ri {
                assert(r == r1);
                assert(r.members[j] == r0.members[j]);
                if m0.has_room(b) {
                    assert(m0.rooms[ri] == r0);
                    assert(m0.room_member_in_session(ri, j));
                    assert(m0.session_of(c).has_board(b));
                } else {
                    assert(r0.members.len() == 0);
                }
            } else {
                assert(m1.rooms[i] == m0.rooms[i]);
                assert(m0.room_member_in_session(i, j));
                assert(m0.session_of(c).has_board(m0.rooms[i].board_id));
            }
            let bb = m1.rooms[i].board_id;
            assert(m0.has_session(c));
            assert(m0.session_of(c).has_board(bb));
            assert(m1.has_session(c));
            if c == addr {
                assert(m0.session_of(addr) == s0);
                assert(m1.session_of(c) == s1);
                let kk = s0.board_index_of(bb);
                assert(0 <= kk < s0.boards.len() && s0.boards[kk].0 == bb);
                assert(s1.boards[kk].0 == bb);
                assert(s1.has_board(bb));
            } else {
                assert(m1.session_of(c) == m0.session_of(c));
            }
        }
    }
}

/// Pushing a fresh, empty session keeps the manager well-formed.
proof fn lemma_wf_after_session_push(m0: ManagerView, m1: ManagerView, sv: SessionView)
    requires
        m0.wf(),
        !m0.has_session(sv.addr),
        sv.boards.len() == 0,
        m1.sessions == m0.sessions.push(sv),
        m1.rooms == m0.rooms,
    ensures
        m1.wf(),
{
    let n = m0.sessions.len();
    assert forall|i: int, j: int|
        0 <= i < j < m1.sessions.len() implies m1.sessions[i].addr != m1.sessions[j].addr by {
        if j < n {
        } else {
            assert(m1.sessions[i] == m0.sessions[i]);
            assert(m0.sessions[i].addr != sv.addr);
        }
    }
    assert forall|i: int| 0 <= i < m1.sessions.len() implies (#[trigger] m1.sessions[i]).wf() by {
        if i < n {
            assert(m1.sessions[i] == m0.sessions[i]);
        } else {
            assert(m1.sessions[i] == sv);
        }
    }
    assert forall|i: int, j: int|
        0 <= i < m1.sessions.len() && 0 <= j < m1.sessions[i].boards.len()
        implies #[trigger] m1.session_board_in_room(i, j) by {
        assert(i < n);
        assert(m1.sessions[i] == m0.sessions[i]);
        assert(m0.session_board_in_room(i, j));
        let b = m0.sessions[i].boards[j].0;
        lemma_lookup_same_rooms(m0, m1, b);
    }
    assert forall|i: int, j: int|
        0 <= i < m1.rooms.len() && 0 <= j < m1.rooms[i].members.len()
        implies #[trigger] m1.room_member_in_session(i, j) by {
        assert(m0.room_member_in_session(i, j));
        let c = m0.rooms[i].members[j].addr;
        let si = m0.session_index_of(c);
        assert(0 <= si < n && m0.sessions[si].addr == c);
        assert(m1.sessions[si].addr == c);
        lemma_unique_session_index(m1, c, si);
    }
}

/// Two managers with the same room sequence resolve a board alike.
proof fn lemma_lookup_same_rooms(m0: ManagerView, m1: ManagerView, b: u16)
    requires
        m1.rooms == m0.rooms,
    ensures
        m1.has_room(b) == m0.has_room(b),
        m1.room_index_of(b) == m0.room_index_of(b),
        m1.room_of(b) == m0.room_of(b),
{
}

/// In a manager whose rooms are uniquely keyed, a room found at index `i`
/// is the room the board resolves to.
proof fn lemma_unique_room_index(m: ManagerView, b: u16, i: int)
    requires
        forall|x: int, y: int|
            0 <= x < y < m.rooms.len() ==> m.rooms[x].board_id != m.rooms[y].board_id,
        0 <= i < m.rooms.len(),
        m.rooms[i].board_id == b,
    ensures
        m.has_room(b),
        m.room_index_of(b) == i,
        m.room_of(b) == m.rooms[i],
{
    let k = m.room_index_of(b);
    assert(0 <= k < m.rooms.len() && m.rooms[k].board_id == b);
    if k < i {
        assert(m.rooms[k].board_id != m.rooms[i].board_id);
    } else if k > i {
        assert(m.rooms[i].board_id != m.rooms[k].board_id);
    }
}

/// In a manager whose sessions are uniquely keyed, a session found at index
/// `i` is the session the connection resolves to.
proof fn lemma_unique_session_index(m: ManagerView, c: ConnId, i: int)
    requires
        forall|x: int, y: int|
            0 <= x < y < m.sessions.len() ==> m.sessions[x].addr != m.sessions[y].addr,
        0 <= i < m.sessions.len(),
        m.sessions[i].addr == c,
    ensures
        m.has_session(c),
        m.session_index_of(c) == i,
        m.session_of(c) == m.sessions[i],
{
    let k = m.session_index_of(c);
    assert(0 <= k < m.sessions.len() && m.sessions[k].addr == c);
    if k < i {
        assert(m.sessions[k].addr != m.sessions[i].addr);
    } else if k > i {
        assert(m.sessions[i].addr != m.sessions[k].addr);
    }
}

impl ConnectionManager {
    /// Let a connection join a board: allocate the lowest free short id,
    /// record the membership in both registries, and announce the newcomer —
    /// `UserJoined` to the board's other members and the bus, then
    /// `PresenceUpdate` to everyone in the room and the bus. A duplicate
    /// join and a join into a full room do nothing.
    #[verifier::rlimit(60)]
    fn handle_join(&mut self, addr: ConnId, board_id: u16, username: String) -> (r: Vec<Effect>)
        requires
            old(self)@.wf(),
            old(self)@.has_session(addr),
            vstd::utf8::encode_utf8(username@).len() <= 32,
        ensures
            final(self)@.wf(),
            exists|color: Seq<u8>|
                #[trigger] vivid_color(color) && (final(self)@, effects_view(r@)) == spec_join(
                    old(self)@,
                    addr,
                    board_id,
                    username@,
                    color,
                ),
    {
        let ghost m0 = self@;
        let ghost witness_color: Seq<u8> = seq![200u8, 0u8, 0u8];
        proof {
            assert(witness_color[0] >= 180 && (forall|j: int|
                0 <= j < 3 && j != 0 ==> witness_color[j] <= 150));
            assert(vivid_color(witness_color));
        }
        let si = match self.find_session(addr) {
            Some(i) => i,
            None => {
                proof {
                    assert(false);
                }
                return Vec::new();
            },
        };
        proof {
            lemma_unique_session_index(m0, addr, si as int);
            assert(self@.sessions[si as int] == self.sessions@[si as int]@);
        }
        if self.sessions[si].is_in_board(board_id) {
            let r: Vec<Effect> = Vec::new();
            proof {
                assert(m0.session_of(addr).has_board(board_id));
                assert(effects_view(r@) =~= Seq::<EffectView>::empty());
                assert(vivid_color(witness_color) && (final(self)@, effects_view(r@))
                    == spec_join(m0, addr, board_id, username@, witness_color));
            }
            return r;
        }
        let color = Self::generate_color();
        let found = self.find_room(board_id);
        let existing = found.is_some();
        let ghost vs0 = self.rooms@;
        let (mut room, vi): (Room, usize) = match found {
            Some(ri) => {
                proof {
                    lemma_unique_room_index(m0, board_id, ri as int);
                    assert(self.rooms@[ri as int]@ == m0.rooms[ri as int]);
                }
                (self.rooms.remove(ri), ri)
            },
            None => {
                let vi = self.rooms.len();
                (Room::new(board_id), vi)
            },
        };
        let ghost r0 = room@;
        proof {
            if existing {
                assert(r0 == m0.room_of(board_id));
                assert(r0.wf()) by {
                    let k = m0.room_index_of(board_id);
                    assert(0 <= k < m0.rooms.len() && m0.rooms[k].board_id == board_id);
                }
            } else {
                assert(r0 =~= fresh_room(board_id)) by {
                    assert(r0.members =~= fresh_room(board_id).members);
                    assert(r0.used =~= fresh_room(board_id).used);
                }
                assert(r0 == fresh_room(board_id));
            }
        }
        let assigned = room.assign_user_id();
        let id = match assigned {
            Some(id) => id,
            None => {
                // Only an existing room can be full; put it back untouched.
                proof {
                    assert(!r0.has_free_id());
                    if !existing {
                        assert(!r0.used[0]);
                        assert(false);
                    }
                }
                let ghost vs1 = self.rooms@;
                self.rooms.insert(vi, room);
                let r: Vec<Effect> = Vec::new();
                proof {
                    lemma_rooms_view_remove(vs0, vi as int);
                    lemma_rooms_view_insert(vs1, vi as int, room);
                    assert(room@ == m0.rooms[vi as int]);
                    lemma_remove_insert(m0.rooms, vi as int, room@);
                    assert(self@.rooms =~= m0.rooms);
                    assert(self@.sessions == m0.sessions);
                    assert(self@ == m0);
                    assert(effects_view(r@) =~= Seq::<EffectView>::empty());
                    assert(vivid_color(witness_color) && (final(self)@, effects_view(r@))
                        == spec_join(m0, addr, board_id, username@, witness_color));
                }
                return r;
            },
        };
        proof {
            // The fresh id is no current member's id, and the joiner is not
            // yet a member.
            assert forall|i: int|
                0 <= i < room@.members.len() implies (#[trigger] room@.members[i]).user_id
                != id by {
                assert(r0.used[room@.members[i].user_id as int]);
            }
            assert(!room@.has_member(addr)) by {
                if existing && r0.has_member(addr) {
                    let k = m0.room_index_of(board_id);
                    assert(0 <= k < m0.rooms.len() && m0.rooms[k].board_id == board_id);
                    let j = r0.member_index_of(addr);
                    assert(0 <= j < r0.members.len() && r0.members[j].addr == addr);
                    assert(m0.room_member_in_session(k, j));
                    assert(m0.session_of(addr).has_board(board_id));
                }
                if room@.has_member(addr) {
                    let j = room@.member_index_of(addr);
                    assert(0 <= j < r0.members.len() && r0.members[j].addr == addr);
                    assert(r0.has_member(addr));
                }
            }
        }
        room.add_user(addr, id, username.clone(), color);
        let count = room.user_count();
        let ghost r1 = room@;
        let ghost vs1 = self.rooms@;
        if existing {
            self.rooms.insert(vi, room);
        } else {
            self.rooms.push(room);
        }
        proof {
            if existing {
                lemma_rooms_view_remove(vs0, vi as int);
                lemma_rooms_view_insert(vs1, vi as int, room);
                lemma_remove_insert(m0.rooms, vi as int, r1);
                assert(self@.rooms == m0.rooms.update(vi as int, r1));
            } else {
                lemma_rooms_view_push(vs1, room);
                assert(self@.rooms == m0.rooms.push(r1));
            }
        }
        let ghost ss0 = self.sessions@;
        let mut sess = self.sessions.remove(si);
        proof {
            assert(sess@ == m0.sessions[si as int]);
        }
        sess.add_board(board_id, id, username.clone(), color);
        let ghost s1 = sess@;
        let ghost ss1 = self.sessions@;
        self.sessions.insert(si, sess);
        proof {
            lemma_sessions_view_remove(ss0, si as int);
            lemma_sessions_view_insert(ss1, si as int, sess);
            lemma_remove_insert(m0.sessions, si as int, s1);
            assert(self@.sessions == m0.sessions.update(si as int, s1));
            lemma_wf_after_join(
                m0,
                self@,
                addr,
                board_id,
                id,
                username@,
                color@,
                si as int,
            );
            // The updated board resolves to the updated room.
            if existing {
                lemma_room_lookup_after_update(m0, self@, vi as int);
            } else {
                lemma_room_lookup_after_push(m0, self@, r1);
            }
            assert(self@.room_of(board_id) == r1);
            assert(self@.has_room(board_id));
        }
        let uj = BinaryMessage::UserJoined { board_id, user_id: id, username, color };
        let mut out: Vec<Effect> = Vec::new();
        let e0 = Effect::Publish { board_id, message: uj.duplicate() };
        let ghost ge0 = e0;
        out.push(e0);
        proof {
            lemma_effects_view_push(Seq::<Effect>::empty(), ge0);
            assert(effects_view(Seq::<Effect>::empty()) =~= Seq::<EffectView>::empty());
        }
        let ghost acc1 = out@;
        let mut sends1 = self.broadcast_to_room(board_id, &uj, Some(addr));
        let ghost sv1 = sends1@;
        out.append(&mut sends1);
        proof {
            lemma_effects_view_concat(acc1, sv1);
        }
        let pu = BinaryMessage::PresenceUpdate { board_id, count: (count % 256) as u8 };
        let e2 = Effect::Publish { board_id, message: pu.duplicate() };
        let ghost ge2 = e2;
        let ghost acc2 = out@;
        out.push(e2);
        proof {
            lemma_effects_view_push(acc2, ge2);
        }
        let ghost acc3 = out@;
        let mut sends2 = self.broadcast_to_room(board_id, &pu, None);
        let ghost sv2 = sends2@;
        out.append(&mut sends2);
        proof {
            lemma_effects_view_concat(acc3, sv2);
            let ujv = MessageView::UserJoined {
                board_id,
                user_id: id,
                username: username@,
                color: color@,
            };
            let puv = MessageView::PresenceUpdate {
                board_id,
                count: (r1.members.len() % 256) as u8,
            };
            assert(uj@ == ujv);
            assert(pu@ == puv);
            assert(effects_view(out@) =~= seq![
                EffectView::Publish { board_id, message: ujv },
            ] + spec_sends(r1.member_addrs(), ujv, Some(addr)) + seq![
                EffectView::Publish { board_id, message: puv },
            ] + spec_sends(r1.member_addrs(), puv, None));
            assert(vivid_color(color@) && (final(self)@, effects_view(out@)) == spec_join(
                m0,
                addr,
                board_id,
                username@,
                color@,
            ));
        }
        out
    }
}

/// After removing the member at `idx`, other connections resolve as before
/// and the removed connection no longer resolves.
proof fn lemma_member_lookup_after_remove(r0: RoomView, r1: RoomView, idx: int)
    requires
        forall|x: int, y: int|
            0 <= x < y < r0.members.len() ==> r0.members[x].addr != r0.members[y].addr,
        0 <= idx < r0.members.len(),
        r1.members == r0.members.remove(idx),
    ensures
        forall|c: ConnId|
            c != r0.members[idx].addr ==> #[trigger] r1.has_member(c) == r0.has_member(c),
        forall|c: ConnId|
            r0.has_member(c) && c != r0.members[idx].addr ==> #[trigger] r1.member_of(c)
                == r0.member_of(c),
        !r1.has_member(r0.members[idx].addr),
{
    let a = r0.members[idx].addr;
    assert forall|c: ConnId| c != a implies #[trigger] r1.has_member(c) == r0.has_member(c) by {
        if r0.has_member(c) {
            let i = r0.member_index_of(c);
            assert(0 <= i < r0.members.len() && r0.members[i].addr == c);
            assert(i != idx);
            if i < idx {
                assert(r1.members[i].addr == c);
            } else {
                assert(r1.members[i - 1].addr == c);
            }
        }
        if r1.has_member(c) {
            let i = choose|i: int| 0 <= i < r1.members.len() && r1.members[i].addr == c;
            if i < idx {
                assert(r0.members[i].addr == c);
            } else {
                assert(r0.members[i + 1].addr == c);
            }
        }
    }
    assert forall|c: ConnId|
        r0.has_member(c) && c != a implies #[trigger] r1.member_of(c) == r0.member_of(c) by {
        let k0 = r0.member_index_of(c);
        assert(0 <= k0 < r0.members.len() && r0.members[k0].addr == c);
        assert(r1.has_member(c));
        let k1 = r1.member_index_of(c);
        assert(0 <= k1 < r1.members.len() && r1.members[k1].addr == c);
        let k1o: int = if k1 < idx {
            k1
        } else {
            k1 + 1
        };
        assert(r0.members[k1o].addr == c);
        if k0 < k1o {
            assert(r0.members[k0].addr != r0.members[k1o].addr);
        } else if k1o < k0 {
            assert(r0.members[k1o].addr != r0.members[k0].addr);
        }
        assert(r1.member_of(c) == r0.members[k1o]);
    }
    if r1.has_member(a) {
        let i = choose|i: int| 0 <= i < r1.members.len() && r1.members[i].addr == a;
        if i < idx {
            assert(r0.members[i].addr == a);
            assert(r0.members[i].addr != r0.members[idx].addr);
        } else {
            assert(r0.members[i + 1].addr == a);
            assert(r0.members[idx].addr != r0.members[i + 1].addr);
        }
    }
}

/// After removing the board entry at `idx`, other boards resolve as before
/// and the removed board no longer resolves.
proof fn lemma_board_lookup_after_remove(s0: SessionView, s1: SessionView, idx: int)
    requires
        forall|x: int, y: int| 0 <= x < y < s0.boards.len() ==> s0.boards[x].0 != s0.boards[y].0,
        0 <= idx < s0.boards.len(),
        s1.boards == s0.boards.remove(idx),
    ensures
        forall|b2: u16| b2 != s0.boards[idx].0 ==> #[trigger] s1.has_board(b2) == s0.has_board(b2),
        forall|b2: u16|
            s0.has_board(b2) && b2 != s0.boards[idx].0 ==> #[trigger] s1.board_info_of(b2)
                == s0.board_info_of(b2),
        !s1.has_board(s0.boards[idx].0),
{
    let b = s0.boards[idx].0;
    assert forall|b2: u16| b2 != b implies #[trigger] s1.has_board(b2) == s0.has_board(b2) by {
        if s0.has_board(b2) {
            let i = s0.board_index_of(b2);
            assert(0 <= i < s0.boards.len() && s0.boards[i].0 == b2);
            assert(i != idx);
            if i < idx {
                assert(s1.boards[i].0 == b2);
            } else {
                assert(s1.boards[i - 1].0 == b2);
            }
        }
        if s1.has_board(b2) {
            let i = choose|i: int| 0 <= i < s1.boards.len() && s1.boards[i].0 == b2;
            if i < idx {
                assert(s0.boards[i].0 == b2);
            } else {
                assert(s0.boards[i + 1].0 == b2);
            }
        }
    }
    assert forall|b2: u16|
        s0.has_board(b2) && b2 != b implies #[trigger] s1.board_info_of(b2) == s0.board_info_of(
        b2,
    ) by {
        let k0 = s0.board_index_of(b2);
        assert(0 <= k0 < s0.boards.len() && s0.boards[k0].0 == b2);
        assert(s1.has_board(b2));
        let k1 = s1.board_index_of(b2);
        assert(0 <= k1 < s1.boards.len() && s1.boards[k1].0 == b2);
        let k1o: int = if k1 < idx {
            k1
        } else {
            k1 + 1
        };
        assert(s0.boards[k1o].0 == b2);
        if k0 < k1o {
            assert(s0.boards[k0].0 != s0.boards[k1o].0);
        } else if k1o < k0 {
            assert(s0.boards[k1o].0 != s0.boards[k0].0);
        }
        assert(s1.board_info_of(b2) == s0.boards[k1o].1);
    }
    if s1.has_board(b) {
        let i = choose|i: int| 0 <= i < s1.boards.len() && s1.boards[i].0 == b;
        if i < idx {
            assert(s0.boards[i].0 == b);
            assert(s0.boards[i].0 != s0.boards[idx].0);
        } else {
            assert(s0.boards[i + 1].0 == b);
            assert(s0.boards[idx].0 != s0.boards[i + 1].0);
        }
    }
}

/// After removing the room at `ri`, other boards resolve as before and the
/// removed board no longer resolves.
proof fn lemma_room_lookup_after_remove(m0: ManagerView, m1: ManagerView, ri: int)
    requires
        forall|x: int, y: int|
            0 <= x < y < m0.rooms.len() ==> m0.rooms[x].board_id != m0.rooms[y].board_id,
        0 <= ri < m0.rooms.len(),
        m1.rooms == m0.rooms.remove(ri),
    ensures
        forall|b: u16|
            b != m0.rooms[ri].board_id ==> #[trigger] m1.has_room(b) == m0.has_room(b),
        forall|b: u16|
            m0.has_room(b) && b != m0.rooms[ri].board_id ==> #[trigger] m1.room_of(b)
                == m0.room_of(b),
        !m1.has_room(m0.rooms[ri].board_id),
{
    let bb = m0.rooms[ri].board_id;
    assert forall|b: u16| b != bb implies #[trigger] m1.has_room(b) == m0.has_room(b) by {
        if m0.has_room(b) {
            let i = m0.room_index_of(b);
            assert(0 <= i < m0.rooms.len() && m0.rooms[i].board_id == b);
            assert(i != ri);
            if i < ri {
                assert(m1.rooms[i].board_id == b);
            } else {
                assert(m1.rooms[i - 1].board_id == b);
            }
        }
        if m1.has_room(b) {
            let i = choose|i: int| 0 <= i < m1.rooms.len() && m1.rooms[i].board_id == b;
            if i < ri {
                assert(m0.rooms[i].board_id == b);
            } else {
                assert(m0.rooms[i + 1].board_id == b);
            }
        }
    }
    assert forall|b: u16|
        m0.has_room(b) && b != bb implies #[trigger] m1.room_of(b) == m0.room_of(b) by {
        let k0 = m0.room_index_of(b);
        assert(0 <= k0 < m0.rooms.len() && m0.rooms[k0].board_id == b);
        assert(m1.has_room(b));
        let k1 = m1.room_index_of(b);
        assert(0 <= k1 < m1.rooms.len() && m1.rooms[k1].board_id == b);
        let k1o: int = if k1 < ri {
            k1
        } else {
            k1 + 1
        };
        assert(m0.rooms[k1o].board_id == b);
        if k0 < k1o {
            assert(m0.rooms[k0].board_id != m0.rooms[k1o].board_id);
        } else if k1o < k0 {
            assert(m0.rooms[k1o].board_id != m0.rooms[k0].board_id);
        }
        assert(m1.room_of(b) == m0.rooms[k1o]);
    }
    if m1.has_room(bb) {
        let i = choose|i: int| 0 <= i < m1.rooms.len() && m1.rooms[i].board_id == bb;
        if i < ri {
            assert(m0.rooms[i].board_id == bb);
            assert(m0.rooms[i].board_id != m0.rooms[ri].board_id);
        } else {
            assert(m0.rooms[i + 1].board_id == bb);
            assert(m0.rooms[ri].board_id != m0.rooms[i + 1].board_id);
        }
    }
}

/// The leave transition. A connection that does not hold the board leaves
/// nothing; otherwise its membership is removed from both registries, the
/// short id returns to the pool, an empty room is deleted, and the effects
/// are: publish `UserLeft`, fan it out to the remaining members, and — when
/// members remain — publish and fan out the new `PresenceUpdate`.
pub open spec fn spec_leave(m: ManagerView, addr: ConnId, b: u16) -> (
    ManagerView,
    Seq<EffectView>,
) {
    if !m.has_session(addr) || !m.session_of(addr).has_board(b) {
        (m, Seq::empty())
    } else if !m.has_room(b) || !m.room_of(b).has_member(addr) {
        (m, Seq::empty())
    } else {
        let uid = m.session_of(addr).board_info_of(b).user_id;
        let r = m.room_of(b);
        let r1 = RoomView {
            board_id: b,
            members: r.members.remove(r.member_index_of(addr)),
            used: r.used.update(r.member_of(addr).user_id as int, false),
        };
        let s0 = m.session_of(addr);
        let s1 = SessionView { addr, boards: s0.boards.remove(s0.board_index_of(b)) };
        let remaining = r1.members.len();
        let rooms1 = if remaining == 0 {
            m.rooms.remove(m.room_index_of(b))
        } else {
            m.rooms.update(m.room_index_of(b), r1)
        };
        let m1 = ManagerView {
            sessions: m.sessions.update(m.session_index_of(addr), s1),
            rooms: rooms1,
            instance_id: m.instance_id,
        };
        let ul = MessageView::UserLeft { board_id: b, user_id: uid };
        let pu = MessageView::PresenceUpdate { board_id: b, count: (remaining % 256) as u8 };
        let effs = seq![EffectView::Publish { board_id: b, message: ul }] + spec_sends(
            r1.member_addrs(),
            ul,
            Some(addr),
        ) + (if remaining > 0 {
            seq![EffectView::Publish { board_id: b, message: pu }] + spec_sends(
                r1.member_addrs(),
                pu,
                None,
            )
        } else {
            Seq::empty()
        });
        (m1, effs)
    }
}

/// The state after a leave is well-formed.
proof fn lemma_wf_after_leave(m0: ManagerView, m1: ManagerView, addr: ConnId, b: u16, si: int)
    requires
        m0.wf(),
        0 <= si < m0.sessions.len(),
        m0.sessions[si].addr == addr,
        m0.sessions[si].has_board(b),
        m0.has_room(b),
        m0.room_of(b).has_member(addr),
        ({
            let r = m0.room_of(b);
            let r1 = RoomView {
                board_id: b,
                members: r.members.remove(r.member_index_of(addr)),
                used: r.used.update(r.member_of(addr).user_id as int, false),
            };
            let s0 = m0.sessions[si];
            let s1 = SessionView { addr, boards: s0.boards.remove(s0.board_index_of(b)) };
            &&& m1.rooms == (if r1.members.len() == 0 {
                m0.rooms.remove(m0.room_index_of(b))
            } else {
                m0.rooms.update(m0.room_index_of(b), r1)
            })
            &&& m1.sessions == m0.sessions.update(si, s1)
        }),
    ensures
        m1.wf(),
{
    let r = m0.room_of(b);
    let midx = r.member_index_of(addr);
    let r1 = RoomView {
        board_id: b,
        members: r.members.remove(midx),
        used: r.used.update(r.member_of(addr).user_id as int, false),
    };
    let s0 = m0.sessions[si];
    let bidx = s0.board_index_of(b);
    let s1 = SessionView { addr, boards: s0.boards.remove(bidx) };
    let ri = m0.room_index_of(b);
    let gone = r1.members.len() == 0;
    lemma_unique_session_index(m0, addr, si);
    assert(0 <= ri < m0.rooms.len() && m0.rooms[ri].board_id == b);
    assert(r.wf());
    assert(s0.wf());
    assert(0 <= midx < r.members.len() && r.members[midx].addr == addr);
    assert(0 <= bidx < s0.boards.len() && s0.boards[bidx].0 == b);

    assert(r1.wf()) by {
        assert forall|i: int|
            0 <= i < r1.members.len() implies r1.used[#[trigger] r1.members[i].user_id as int] by {
            let io: int = if i < midx {
                i
            } else {
                i + 1
            };
            assert(r1.members[i] == r.members[io]);
            assert(r.used[r.members[io].user_id as int]);
            if io < midx {
                assert(r.members[io].user_id != r.members[midx].user_id);
            } else if io > midx {
                assert(r.members[midx].user_id != r.members[io].user_id);
            }
            assert(r.member_of(addr) == r.members[midx]);
        }
        assert forall|i: int, j: int|
            0 <= i < j < r1.members.len() implies r1.members[i].addr != r1.members[j].addr by {
            let io: int = if i < midx {
                i
            } else {
                i + 1
            };
            let jo: int = if j < midx {
                j
            } else {
                j + 1
            };
            assert(r1.members[i] == r.members[io]);
            assert(r1.members[j] == r.members[jo]);
        }
        assert forall|i: int, j: int|
            0 <= i < j < r1.members.len() implies r1.members[i].user_id
            != r1.members[j].user_id by {
            let io: int = if i < midx {
                i
            } else {
                i + 1
            };
            let jo: int = if j < midx {
                j
            } else {
                j + 1
            };
            assert(r1.members[i] == r.members[io]);
            assert(r1.members[j] == r.members[jo]);
        }
        assert forall|i: int|
            0 <= i < r1.members.len() implies member_wire_valid(#[trigger] r1.members[i]) by {
            let io: int = if i < midx {
                i
            } else {
                i + 1
            };
            assert(r1.members[i] == r.members[io]);
        }
    }
    assert(s1.wf()) by {
        assert forall|i: int, j: int|
            0 <= i < j < s1.boards.len() implies s1.boards[i].0 != s1.boards[j].0 by {
            let io: int = if i < bidx {
                i
            } else {
                i + 1
            };
            let jo: int = if j < bidx {
                j
            } else {
                j + 1
            };
            assert(s1.boards[i] == s0.boards[io]);
            assert(s1.boards[j] == s0.boards[jo]);
        }
        assert forall|i: int|
            0 <= i < s1.boards.len() implies info_wire_valid(#[trigger] s1.boards[i].1) by {
            let io: int = if i < bidx {
                i
            } else {
                i + 1
            };
            assert(s1.boards[i] == s0.boards[io]);
        }
    }

    lemma_session_lookup_after_update(m0, m1, si);
    lemma_board_lookup_after_remove(s0, s1, bidx);
    lemma_member_lookup_after_remove(r, r1, midx);
    if gone {
        lemma_room_lookup_after_remove(m0, m1, ri);
    } else {
        lemma_room_lookup_after_update(m0, m1, ri);
        assert(m1.room_of(b) == r1);
    }

    assert(forall|x: int, y: int|
        0 <= x < y < m1.sessions.len() ==> m1.sessions[x].addr != m1.sessions[y].addr);
    assert forall|x: int, y: int|
        0 <= x < y < m1.rooms.len() implies m1.rooms[x].board_id != m1.rooms[y].board_id by {
        if gone {
            let xo: int = if x < ri {
                x
            } else {
                x + 1
            };
            let yo: int = if y < ri {
                y
            } else {
                y + 1
            };
            assert(m1.rooms[x] == m0.rooms[xo]);
            assert(m1.rooms[y] == m0.rooms[yo]);
        }
    }
    assert(forall|i: int| 0 <= i < m1.sessions.len() ==> (#[trigger] m1.sessions[i]).wf());
    assert forall|i: int| 0 <= i < m1.rooms.len() implies (#[trigger] m1.rooms[i]).wf()
        && (#[trigger] m1.rooms[i]).members.len() >= 1 by {
        if gone {
            let io: int = if i < ri {
                i
            } else {
                i + 1
            };
            assert(m1.rooms[i] == m0.rooms[io]);
        } else {
            if i != ri {
                assert(m1.rooms[i] == m0.rooms[i]);
            } else {
                assert(m1.rooms[i] == r1);
            }
        }
    }

    // Session entries still point at live memberships.
    assert forall|i: int, j: int|
        0 <= i < m1.sessions.len() && 0 <= j < m1.sessions[i].boards.len()
        implies #[trigger] m1.session_board_in_room(i, j) by {
        let s = m1.sessions[i];
        let b2 = s.boards[j].0;
        let jo: int = if i == si {
            if j < bidx {
                j
            } else {
                j + 1
            }
        } else {
            j
        };
        assert(s.boards[j] == m0.sessions[i].boards[jo]);
        assert(m0.session_board_in_room(i, jo));
        assert(m0.has_room(b2));
        assert(m1.sessions[i].addr == m0.sessions[i].addr);
        let c = m0.sessions[i].addr;
        if b2 == b {
            // The session holding this entry is not the leaver.
            assert(c != addr) by {
                if i == si {
                    assert(s0.boards[jo].0 == b);
                    if jo < bidx {
                        assert(s0.boards[jo].0 != s0.boards[bidx].0);
                    } else if jo > bidx {
                        assert(s0.boards[bidx].0 != s0.boards[jo].0);
                    }
                    assert(jo == bidx);
                    assert(j == bidx || j + 1 == jo);
                    assert(false);
                } else {
                    if i < si {
                        assert(m0.sessions[i].addr != m0.sessions[si].addr);
                    } else {
                        assert(m0.sessions[si].addr != m0.sessions[i].addr);
                    }
                }
            }
            assert(r.has_member(c));
            assert(r1.has_member(c));
            assert(!gone);
            assert(m1.has_room(b));
            assert(m1.room_of(b) == r1);
            assert(r1.member_of(c) == r.member_of(c));
        } else {
            assert(m1.has_room(b2));
            assert(m1.room_of(b2) == m0.room_of(b2));
        }
    }

    // Room members still have matching session entries.
    assert forall|i: int, j: int|
        0 <= i < m1.rooms.len() && 0 <= j < m1.rooms[i].members.len()
        implies #[trigger] m1.room_member_in_session(i, j) by {
        let rm = m1.rooms[i];
        let c = rm.members[j].addr;
        let bb = rm.board_id;
        let io: int = if gone {
            if i < ri {
                i
            } else {
                i + 1
            }
        } else {
            i
        };
        if !gone && i == ri {
            // The shrunk room: surviving members were members before.
            let jo: int = if j < midx {
                j
            } else {
                j + 1
            };
            assert(rm == r1);
            assert(rm.members[j] == r.members[jo]);
            assert(m0.room_member_in_session(ri, jo));
            assert(m0.session_of(c).has_board(b));
            assert(c != addr) by {
                if jo < midx {
                    assert(r.members[jo].addr != r.members[midx].addr);
                } else if jo > midx {
                    assert(r.members[midx].addr != r.members[jo].addr);
                }
            }
            assert(m1.has_session(c));
            assert(m1.session_of(c) == m0.session_of(c));
        } else {
            assert(m1.rooms[i] == m0.rooms[io]);
            assert(m0.room_member_in_session(io, j));
            assert(m0.session_of(c).has_board(bb));
            assert(m1.has_session(c));
            if c == addr {
                assert(m0.session_of(addr) == s0);
                assert(m1.session_of(c) == s1);
                assert(bb != b) by {
                    if gone {
                        if io != ri {
                            if io < ri {
                                assert(m0.rooms[io].board_id != m0.rooms[ri].board_id);
                            } else {
                                assert(m0.rooms[ri].board_id != m0.rooms[io].board_id);
                            }
                        }
                        assert(io != ri);
                    } else {
                        assert(i != ri);
                        if i < ri {
                            assert(m0.rooms[i].board_id != m0.rooms[ri].board_id);
                        } else {
                            assert(m0.rooms[ri].board_id != m0.rooms[i].board_id);
                        }
                    }
                }
                assert(s1.has_board(bb));
            } else {
                assert(m1.session_of(c) == m0.session_of(c));
            }
        }
    }
}

impl ConnectionManager {
    /// Take a connection out of a board: release its short id, delete the
    /// room if it empties, and announce the departure — `UserLeft` to the
    /// remaining members and the bus, then `PresenceUpdate` while members
    /// remain. A connection that does not hold the board leaves nothing.
    fn handle_leave_internal(&mut self, addr: ConnId, board_id: u16) -> (r: Vec<Effect>)
        requires
            old(self)@.wf(),
        ensures
            final(self)@.wf(),
            (final(self)@, effects_view(r@)) == spec_leave(old(self)@, addr, board_id),
    {
        let ghost m0 = self@;
        let si = match self.find_session(addr) {
            Some(i) => i,
            None => {
                let r: Vec<Effect> = Vec::new();
                proof {
                    assert(effects_view(r@) =~= Seq::<EffectView>::empty());
                }
                return r;
            },
        };
        proof {
            lemma_unique_session_index(m0, addr, si as int);
            assert(self@.sessions[si as int] == self.sessions@[si as int]@);
        }
        let uid = match self.sessions[si].get_board_info(board_id) {
            Some(info) => info.user_id,
            None => {
                let r: Vec<Effect> = Vec::new();
                proof {
                    assert(!m0.session_of(addr).has_board(board_id));
                    assert(effects_view(r@) =~= Seq::<EffectView>::empty());
                }
                return r;
            },
        };
        let ri = match self.find_room(board_id) {
            Some(i) => i,
            None => {
                proof {
                    let j = m0.sessions[si as int].board_index_of(board_id);
                    assert(m0.session_board_in_room(si as int, j));
                    assert(false);
                }
                return Vec::new();
            },
        };
        proof {
            lemma_unique_room_index(m0, board_id, ri as int);
            assert(self.rooms@[ri as int]@ == m0.rooms[ri as int]);
            let j = m0.sessions[si as int].board_index_of(board_id);
            assert(m0.session_board_in_room(si as int, j));
            assert(m0.room_of(board_id).has_member(addr));
        }
        let ghost vs0 = self.rooms@;
        let mut room = self.rooms.remove(ri);
        proof {
            assert(room@ == m0.room_of(board_id));
            assert(room@.wf());
        }
        room.remove_user(addr);
        let count = room.user_count();
        let ghost r1 = room@;
        let ghost vs1 = self.rooms@;
        if count > 0 {
            self.rooms.insert(ri, room);
        }
        proof {
            lemma_rooms_view_remove(vs0, ri as int);
            if count > 0 {
                lemma_rooms_view_insert(vs1, ri as int, room);
                lemma_remove_insert(m0.rooms, ri as int, r1);
                assert(self@.rooms == m0.rooms.update(ri as int, r1));
            } else {
                assert(self@.rooms == m0.rooms.remove(ri as int));
            }
        }
        let ghost ss0 = self.sessions@;
        let mut sess = self.sessions.remove(si);
        proof {
            assert(sess@ == m0.sessions[si as int]);
        }
        sess.remove_board(board_id);
        let ghost s1 = sess@;
        let ghost ss1 = self.sessions@;
        self.sessions.insert(si, sess);
        proof {
            lemma_sessions_view_remove(ss0, si as int);
            lemma_sessions_view_insert(ss1, si as int, sess);
            lemma_remove_insert(m0.sessions, si as int, s1);
            assert(self@.sessions == m0.sessions.update(si as int, s1));
            lemma_wf_after_leave(m0, self@, addr, board_id, si as int);
            if count > 0 {
                lemma_room_lookup_after_update(m0, self@, ri as int);
                assert(self@.room_of(board_id) == r1);
            } else {
                lemma_room_lookup_after_remove(m0, self@, ri as int);
                assert(!self@.has_room(board_id));
                assert(r1.member_addrs() =~= Seq::<ConnId>::empty());
                assert(spec_sends(r1.member_addrs(), MessageView::UserLeft {
                    board_id,
                    user_id: uid,
                }, Some(addr)) == Seq::<EffectView>::empty());
            }
        }
        let ul = BinaryMessage::UserLeft { board_id, user_id: uid };
        let mut out: Vec<Effect> = Vec::new();
        let e0 = Effect::Publish { board_id, message: ul.duplicate() };
        let ghost ge0 = e0;
        out.push(e0);
        proof {
            lemma_effects_view_push(Seq::<Effect>::empty(), ge0);
            assert(effects_view(Seq::<Effect>::empty()) =~= Seq::<EffectView>::empty());
        }
        let ghost acc1 = out@;
        let mut sends1 = self.broadcast_to_room(board_id, &ul, Some(addr));
        let ghost sv1 = sends1@;
        out.append(&mut sends1);
        proof {
            lemma_effects_view_concat(acc1, sv1);
        }
        if count > 0 {
            let pu = BinaryMessage::PresenceUpdate { board_id, count: (count % 256) as u8 };
            let e2 = Effect::Publish { board_id, message: pu.duplicate() };
            let ghost ge2 = e2;
            let ghost acc2 = out@;
            out.push(e2);
            proof {
                lemma_effects_view_push(acc2, ge2);
            }
            let ghost acc3 = out@;
            let mut sends2 = self.broadcast_to_room(board_id, &pu, None);
            let ghost sv2 = sends2@;
            out.append(&mut sends2);
            proof {
                lemma_effects_view_concat(acc3, sv2);
            }
        }
        proof {
            let ulv = MessageView::UserLeft { board_id, user_id: uid };
            let puv = MessageView::PresenceUpdate {
                board_id,
                count: (r1.members.len() % 256) as u8,
            };
            assert(ul@ == ulv);
            if count > 0 {
                assert(effects_view(out@) =~= seq![
                    EffectView::Publish { board_id, message: ulv },
                ] + spec_sends(r1.member_addrs(), ulv, Some(addr)) + (seq![
                    EffectView::Publish { board_id, message: puv },
                ] + spec_sends(r1.member_addrs(), puv, None)));
            } else {
                assert(effects_view(out@) =~= seq![
                    EffectView::Publish { board_id, message: ulv },
                ] + spec_sends(r1.member_addrs(), ulv, Some(addr)) + Seq::<EffectView>::empty());
            }
            assert((final(self)@, effects_view(out@)) == spec_leave(m0, addr, board_id));
        }
        out
    }
}

/// Leaving several boards in turn, accumulating the effects.
pub open spec fn spec_leave_all(m: ManagerView, addr: ConnId, boards: Seq<u16>) -> (
    ManagerView,
    Seq<EffectView>,
)
    decreases boards.len(),
{
    if boards.len() == 0 {
        (m, Seq::empty())
    } else {
        let step = spec_leave(m, addr, boards[0]);
        let rest = spec_leave_all(step.0, addr, boards.drop_first());
        (rest.0, step.1 + rest.1)
    }
}

/// Leaving one more board composes on the right.
proof fn lemma_leave_all_push(m: ManagerView, addr: ConnId, boards: Seq<u16>, x: u16)
    ensures
        spec_leave_all(m, addr, boards.push(x)) == ({
            let first = spec_leave_all(m, addr, boards);
            let last = spec_leave(first.0, addr, x);
            (last.0, first.1 + last.1)
        }),
    decreases boards.len(),
{
    if boards.len() == 0 {
        let step = spec_leave(m, addr, x);
        assert(boards.push(x)[0] == x);
        assert(boards.push(x).drop_first() =~= Seq::<u16>::empty());
        assert(spec_leave_all(step.0, addr, Seq::<u16>::empty()) == (
            step.0,
            Seq::<EffectView>::empty(),
        ));
        assert(step.1 + Seq::<EffectView>::empty() =~= step.1);
        assert(Seq::<EffectView>::empty() + step.1 =~= step.1);
    } else {
        assert(boards.push(x)[0] == boards[0]);
        assert(boards.push(x).drop_first() =~= boards.drop_first().push(x));
        let step = spec_leave(m, addr, boards[0]);
        lemma_leave_all_push(step.0, addr, boards.drop_first(), x);
        let first_rest = spec_leave_all(step.0, addr, boards.drop_first());
        let last = spec_leave(first_rest.0, addr, x);
        assert(step.1 + (first_rest.1 + last.1) =~= (step.1 + first_rest.1) + last.1);
    }
}

/// The disconnect transition: leave every board the session still holds, in
/// the session's order, then drop the session itself.
pub open spec fn spec_disconnect(m: ManagerView, addr: ConnId) -> (ManagerView, Seq<EffectView>) {
    if !m.has_session(addr) {
        (m, Seq::empty())
    } else {
        let folded = spec_leave_all(m, addr, m.session_of(addr).board_ids());
        let m1 = folded.0;
        let m2 = ManagerView {
            sessions: m1.sessions.remove(m1.session_index_of(addr)),
            rooms: m1.rooms,
            instance_id: m1.instance_id,
        };
        (m2, folded.1)
    }
}

/// One leave taken from the front of a session's board list: the session
/// survives, holding the remaining boards.
proof fn lemma_leave_step(m: ManagerView, addr: ConnId, b: u16)
    requires
        m.wf(),
        m.has_session(addr),
        m.session_of(addr).boards.len() > 0,
        m.session_of(addr).boards[0].0 == b,
    ensures
        spec_leave(m, addr, b).0.has_session(addr),
        spec_leave(m, addr, b).0.session_of(addr).boards == m.session_of(
            addr,
        ).boards.drop_first(),
    decreases 0int,
{
    let si = m.session_index_of(addr);
    assert(0 <= si < m.sessions.len() && m.sessions[si].addr == addr);
    let s0 = m.session_of(addr);
    assert(s0.has_board(b)) by {
        assert(s0.boards[0].0 == b);
    }
    assert(m.session_board_in_room(si, 0));
    assert(m.has_room(b) && m.room_of(b).has_member(addr));
    let bidx = s0.board_index_of(b);
    assert(0 <= bidx < s0.boards.len() && s0.boards[bidx].0 == b);
    assert(s0.wf());
    if 0 < bidx {
        assert(s0.boards[0].0 != s0.boards[bidx].0);
    }
    assert(bidx == 0);
    let s1 = SessionView { addr, boards: s0.boards.remove(0) };
    assert(s0.boards.remove(0) =~= s0.boards.drop_first());
    let m1 = spec_leave(m, addr, b).0;
    assert(m1.sessions == m.sessions.update(si, s1));
    lemma_session_lookup_after_update(m, m1, si);
    assert(m1.session_of(addr) == s1);
}

impl ConnectionManager {
    /// Tear a connection down: leave every board its session still holds —
    /// emitting the same announcements an explicit leave would — and then
    /// forget the session.
    pub fn disconnect(&mut self, addr: ConnId) -> (r: Vec<Effect>)
        requires
            old(self)@.wf(),
        ensures
            final(self)@.wf(),
            (final(self)@, effects_view(r@)) == spec_disconnect(old(self)@, addr),
    {
        let ghost m0 = self@;
        let si = match self.find_session(addr) {
            Some(i) => i,
            None => {
                let r: Vec<Effect> = Vec::new();
                proof {
                    assert(effects_view(r@) =~= Seq::<EffectView>::empty());
                }
                return r;
            },
        };
        proof {
            lemma_unique_session_index(m0, addr, si as int);
            assert(self@.sessions[si as int] == self.sessions@[si as int]@);
        }
        let ids = self.sessions[si].board_ids();
        let ghost idseq = ids@;
        let mut out: Vec<Effect> = Vec::new();
        let n = ids.len();
        proof {
            assert(idseq.take(0) =~= Seq::<u16>::empty());
            assert(effects_view(out@) =~= Seq::<EffectView>::empty());
            assert(idseq.skip(0) =~= idseq);
        }
        for i in 0..n
            invariant
                n == idseq.len(),
                ids@ == idseq,
                self@.wf(),
                self@.has_session(addr),
                spec_leave_all(m0, addr, idseq.take(i as int)) == (self@, effects_view(out@)),
                self@.session_of(addr).board_ids() == idseq.skip(i as int),
        {
            let ghost mi = self@;
            let ghost s_i = mi.session_of(addr);
            proof {
                assert(s_i.board_ids().len() == s_i.boards.len());
                assert(s_i.boards.len() == idseq.len() - i);
                assert(s_i.board_ids()[0] == idseq.skip(i as int)[0]);
                assert(s_i.boards[0].0 == s_i.board_ids()[0]);
                assert(s_i.boards[0].0 == idseq[i as int]);
                lemma_leave_step(mi, addr, idseq[i as int]);
            }
            let mut effs = self.handle_leave_internal(addr, ids[i]);
            let ghost ev = effs@;
            let ghost acc = out@;
            out.append(&mut effs);
            proof {
                lemma_effects_view_concat(acc, ev);
                lemma_leave_all_push(m0, addr, idseq.take(i as int), idseq[i as int]);
                assert(idseq.take(i as int + 1) =~= idseq.take(i as int).push(idseq[i as int]));
                let s_next = self@.session_of(addr);
                assert(s_next.boards == s_i.boards.drop_first());
                assert forall|k: int|
                    0 <= k < s_next.board_ids().len() implies s_next.board_ids()[k] == idseq.skip(
                    i as int + 1,
                )[k] by {
                    assert(s_next.board_ids()[k] == s_next.boards[k].0);
                    assert(s_next.boards[k] == s_i.boards[k + 1]);
                    assert(s_i.board_ids()[k + 1] == s_i.boards[k + 1].0);
                    assert(s_i.board_ids()[k + 1] == idseq.skip(i as int)[k + 1]);
                }
                assert(s_next.board_ids() =~= idseq.skip(i as int + 1));
            }
        }
        proof {
            assert(idseq.take(n as int) =~= idseq);
            assert(idseq.skip(n as int) =~= Seq::<u16>::empty());
        }
        let ghost m1 = self@;
        let si2 = match self.find_session(addr) {
            Some(i) => i,
            None => {
                proof {
                    assert(false);
                }
                return out;
            },
        };
        proof {
            lemma_unique_session_index(m1, addr, si2 as int);
        }
        let ghost ss0 = self.sessions@;
        let removed = self.sessions.remove(si2);
        proof {
            lemma_sessions_view_remove(ss0, si2 as int);
            assert(self@.sessions == m1.sessions.remove(m1.session_index_of(addr)));
            assert(self@.rooms == m1.rooms);
            // The departed session holds no boards, so no room still lists it.
            assert(m1.session_of(addr).boards.len() == 0) by {
                assert(m1.session_of(addr).board_ids().len() == 0);
            }
            lemma_wf_after_session_remove(m1, self@, si2 as int);
            assert((final(self)@, effects_view(out@)) == spec_disconnect(m0, addr));
        }
        out
    }
}

/// Removing a session that holds no boards keeps the manager well-formed.
proof fn lemma_wf_after_session_remove(m0: ManagerView, m1: ManagerView, si: int)
    requires
        m0.wf(),
        0 <= si < m0.sessions.len(),
        m0.sessions[si].boards.len() == 0,
        m1.sessions == m0.sessions.remove(si),
        m1.rooms == m0.rooms,
    ensures
        m1.wf(),
{
    let a = m0.sessions[si].addr;
    assert forall|x: int, y: int|
        0 <= x < y < m1.sessions.len() implies m1.sessions[x].addr != m1.sessions[y].addr by {
        let xo: int = if x < si {
            x
        } else {
            x + 1
        };
        let yo: int = if y < si {
            y
        } else {
            y + 1
        };
        assert(m1.sessions[x] == m0.sessions[xo]);
        assert(m1.sessions[y] == m0.sessions[yo]);
    }
    assert forall|i: int| 0 <= i < m1.sessions.len() implies (#[trigger] m1.sessions[i]).wf() by {
        let io: int = if i < si {
            i
        } else {
            i + 1
        };
        assert(m1.sessions[i] == m0.sessions[io]);
    }
    assert forall|i: int, j: int|
        0 <= i < m1.sessions.len() && 0 <= j < m1.sessions[i].boards.len()
        implies #[trigger] m1.session_board_in_room(i, j) by {
        let io: int = if i < si {
            i
        } else {
            i + 1
        };
        assert(m1.sessions[i] == m0.sessions[io]);
        assert(m0.session_board_in_room(io, j));
        let b = m0.sessions[io].boards[j].0;
        lemma_lookup_same_rooms(m0, m1, b);
    }
    assert forall|i: int, j: int|
        0 <= i < m1.rooms.len() && 0 <= j < m1.rooms[i].members.len()
        implies #[trigger] m1.room_member_in_session(i, j) by {
        assert(m0.room_member_in_session(i, j));
        let c = m0.rooms[i].members[j].addr;
        let k = m0.session_index_of(c);
        assert(0 <= k < m0.sessions.len() && m0.sessions[k].addr == c);
        // The removed session held no boards, so it is not this member's.
        assert(c != a) by {
            if c == a {
                if k < si {
                    assert(m0.sessions[k].addr != m0.sessions[si].addr);
                } else if si < k {
                    assert(m0.sessions[si].addr != m0.sessions[k].addr);
                }
                assert(k == si);
                assert(m0.session_of(c) == m0.sessions[si]);
                assert(m0.session_of(c).has_board(m0.rooms[i].board_id));
            }
        }
        let ko: int = if k < si {
            k
        } else {
            k - 1
        };
        assert(k != si);
        assert(m1.sessions[ko] == m0.sessions[k]);
        assert(m1.has_session(c)) by {
            assert(m1.sessions[ko].addr == c);
        }
        let k1 = m1.session_index_of(c);
        assert(0 <= k1 < m1.sessions.len() && m1.sessions[k1].addr == c);
        if k1 < ko {
            assert(m1.sessions[k1].addr != m1.sessions[ko].addr);
        } else if ko < k1 {
            assert(m1.sessions[ko].addr != m1.sessions[k1].addr);
        }
        assert(m1.session_of(c) == m0.session_of(c)) by {
            assert(m0.session_of(c) == m0.sessions[k]);
        }
    }
}

/// The effects of one inbound frame: join, leave, cursor update and
/// heartbeat as their own transitions; server-to-client tags sent by a
/// client are dropped.
pub open spec fn spec_handle(m: ManagerView, addr: ConnId, msg: MessageView, color: Seq<u8>) -> (
    ManagerView,
    Seq<EffectView>,
) {
    match msg {
        MessageView::Join { board_id, username } => spec_join(m, addr, board_id, username, color),
        MessageView::Leave { board_id } => spec_leave(m, addr, board_id),
        MessageView::CursorUpdate { board_id, x, y } => (
            m,
            spec_cursor_effects(m, addr, board_id, x, y),
        ),
        MessageView::Heartbeat => (
            m,
            seq![EffectView::Send { to: addr, message: MessageView::Heartbeat }],
        ),
        _ => (m, Seq::empty()),
    }
}

impl ConnectionManager {
    /// Route one inbound frame from a registered connection. Join picks a
    /// random vivid colour; everything else is deterministic in the state
    /// and the frame.
    pub fn handle_message(&mut self, addr: ConnId, msg: BinaryMessage) -> (r: Vec<Effect>)
        requires
            old(self)@.wf(),
            old(self)@.has_session(addr),
            crate::codec::wire_valid(msg@),
        ensures
            final(self)@.wf(),
            exists|color: Seq<u8>|
                #[trigger] vivid_color(color) && (final(self)@, effects_view(r@)) == spec_handle(
                    old(self)@,
                    addr,
                    msg@,
                    color,
                ),
    {
        let ghost m0 = self@;
        let ghost witness_color: Seq<u8> = seq![200u8, 0u8, 0u8];
        proof {
            assert(witness_color[0] >= 180 && (forall|j: int|
                0 <= j < 3 && j != 0 ==> witness_color[j] <= 150));
            assert(vivid_color(witness_color));
        }
        match msg {
            BinaryMessage::Join { board_id, username } => self.handle_join(
                addr,
                board_id,
                username,
            ),
            BinaryMessage::Leave { board_id } => {
                let r = self.handle_leave_internal(addr, board_id);
                proof {
                    assert(vivid_color(witness_color) && (final(self)@, effects_view(r@))
                        == spec_handle(m0, addr, msg@, witness_color));
                }
                r
            },
            BinaryMessage::CursorUpdate { board_id, x, y } => {
                let r = self.handle_cursor_update(addr, board_id, x, y);
                proof {
                    assert(vivid_color(witness_color) && (final(self)@, effects_view(r@))
                        == spec_handle(m0, addr, msg@, witness_color));
                }
                r
            },
            BinaryMessage::Heartbeat => {
                let r = self.handle_heartbeat(addr);
                proof {
                    assert(vivid_color(witness_color) && (final(self)@, effects_view(r@))
                        == spec_handle(m0, addr, msg@, witness_color));
                }
                r
            },
            _ => {
                let r: Vec<Effect> = Vec::new();
                proof {
                    assert(effects_view(r@) =~= Seq::<EffectView>::empty());
                    assert(vivid_color(witness_color) && (final(self)@, effects_view(r@))
                        == spec_handle(m0, addr, msg@, witness_color));
                }
                r
            },
        }
    }
}

/// The board a frame concerns, if any.
pub open spec fn message_board(msg: MessageView) -> Option<u16> {
    match msg {
        MessageView::CursorUpdate { board_id, .. } => Some(board_id),
        MessageView::CursorBroadcast { board_id, .. } => Some(board_id),
        MessageView::Join { board_id, .. } => Some(board_id),
        MessageView::Leave { board_id } => Some(board_id),
        MessageView::UserJoined { board_id, .. } => Some(board_id),
        MessageView::UserLeft { board_id, .. } => Some(board_id),
        MessageView::PresenceUpdate { board_id, .. } => Some(board_id),
        MessageView::Heartbeat => None,
    }
}

/// The local fan-out a bus envelope causes: nothing when it carries this
/// instance's own identity, nothing when its payload does not decode or is
/// not a server-to-client frame, else the frame goes to every local member
/// of its board.
pub open spec fn spec_bus_deliver(
    m: ManagerView,
    envelope_id: Seq<char>,
    payload: Seq<u8>,
) -> Seq<EffectView> {
    if envelope_id == m.instance_id {
        Seq::empty()
    } else {
        match crate::codec::spec_decode(payload) {
            Ok(msg) => match msg {
                MessageView::UserJoined { board_id, .. } => spec_broadcast(m, board_id, msg, None),
                MessageView::UserLeft { board_id, .. } => spec_broadcast(m, board_id, msg, None),
                MessageView::CursorBroadcast { board_id, .. } => spec_broadcast(
                    m,
                    board_id,
                    msg,
                    None,
                ),
                MessageView::PresenceUpdate { board_id, .. } => spec_broadcast(
                    m,
                    board_id,
                    msg,
                    None,
                ),
                _ => Seq::empty(),
            },
            Err(_) => Seq::empty(),
        }
    }
}

impl ConnectionManager {
    /// Deliver a bus envelope locally. An envelope tagged with this
    /// instance's own identity is dropped whole — the no-echo rule — and
    /// only the four server-to-client frame kinds are fanned out.
    pub fn handle_redis_message(&self, envelope: &crate::bus::RedisMessage) -> (r: Vec<Effect>)
        requires
            self@.wf(),
        ensures
            effects_view(r@) == spec_bus_deliver(self@, envelope.instance_id@, envelope.payload@),
            envelope.instance_id@ == self@.instance_id ==> r@ == Seq::<Effect>::empty(),
    {
        if self.instance_id == envelope.instance_id {
            let r: Vec<Effect> = Vec::new();
            proof {
                assert(r@ =~= Seq::<Effect>::empty());
                assert(effects_view(r@) =~= Seq::<EffectView>::empty());
            }
            return r;
        }
        let msg = match envelope.get_binary_message() {
            Ok(msg) => msg,
            Err(_) => {
                let r: Vec<Effect> = Vec::new();
                proof {
                    assert(effects_view(r@) =~= Seq::<EffectView>::empty());
                }
                return r;
            },
        };
        let board = match &msg {
            BinaryMessage::UserJoined { board_id, .. } => Some(*board_id),
            BinaryMessage::UserLeft { board_id, .. } => Some(*board_id),
            BinaryMessage::CursorBroadcast { board_id, .. } => Some(*board_id),
            BinaryMessage::PresenceUpdate { board_id, .. } => Some(*board_id),
            _ => None,
        };
        match board {
            Some(b) => self.broadcast_to_room(b, &msg, None),
            None => {
                let r: Vec<Effect> = Vec::new();
                proof {
                    assert(effects_view(r@) =~= Seq::<EffectView>::empty());
                }
                r
            },
        }
    }
}

/// A listed connection is a member's connection.
proof fn lemma_member_addrs_contains(r: RoomView, c: ConnId)
    ensures
        r.member_addrs().contains(c) == r.has_member(c),
{
    if r.member_addrs().contains(c) {
        let k = choose|k: int| 0 <= k < r.member_addrs().len() && r.member_addrs()[k] == c;
        assert(r.members[k].addr == c);
    }
    if r.has_member(c) {
        let k = r.member_index_of(c);
        assert(0 <= k < r.members.len() && r.members[k].addr == c);
        assert(r.member_addrs()[k] == c);
    }
}

/// A session's boards are exactly the boards whose rooms list its
/// connection: the two registries never drift apart. The multiset of a
/// session's board ids equals the set of boards whose room holds the
/// connection, taken as a multiset.
pub proof fn lemma_session_matches_rooms(m: ManagerView, si: int)
    requires
        m.wf(),
        0 <= si < m.sessions.len(),
    ensures
        m.sessions[si].board_ids().no_duplicates(),
        forall|b: u16|
            #[trigger] m.sessions[si].board_ids().contains(b) == m.is_member(
                b,
                m.sessions[si].addr,
            ),
        forall|b: u16|
            #[trigger] m.sessions[si].board_ids().to_multiset().count(b) == (
            if m.is_member(b, m.sessions[si].addr) {
                1nat
            } else {
                0nat
            }),
{
    let s = m.sessions[si];
    lemma_unique_session_index(m, s.addr, si);
    assert forall|i: int, j: int|
        0 <= i < j < s.board_ids().len() implies s.board_ids()[i] != s.board_ids()[j] by {
        assert(s.board_ids()[i] == s.boards[i].0);
        assert(s.board_ids()[j] == s.boards[j].0);
    }
    assert(s.board_ids().no_duplicates());
    assert forall|b: u16|
        #[trigger] s.board_ids().contains(b) == m.is_member(b, s.addr) by {
        if s.board_ids().contains(b) {
            let k = choose|k: int| 0 <= k < s.board_ids().len() && s.board_ids()[k] == b;
            assert(s.boards[k].0 == b);
            assert(m.session_board_in_room(si, k));
            assert(m.is_member(b, s.addr));
        }
        if m.is_member(b, s.addr) {
            let ri = m.room_index_of(b);
            assert(0 <= ri < m.rooms.len() && m.rooms[ri].board_id == b);
            let j = m.room_of(b).member_index_of(s.addr);
            assert(0 <= j < m.rooms[ri].members.len() && m.rooms[ri].members[j].addr == s.addr);
            assert(m.room_member_in_session(ri, j));
            assert(m.session_of(s.addr).has_board(b));
            let k = s.board_index_of(b);
            assert(0 <= k < s.boards.len() && s.boards[k].0 == b);
            assert(s.board_ids()[k] == b);
        }
    }
    broadcast use vstd::multiset::group_multiset_axioms;
    broadcast use vstd::seq_lib::group_to_multiset_ensures;

    let ids = s.board_ids();
    let ms = ids.to_multiset();
    ids.lemma_multiset_has_no_duplicates();
    assert forall|b: u16| #[trigger] ms.count(b) == (if m.is_member(b, s.addr) {
        1nat
    } else {
        0nat
    }) by {
        if ids.contains(b) {
            assert(ms.count(b) == 1);
            assert(m.is_member(b, s.addr));
        } else {
            assert(ms.count(b) == 0);
            assert(!m.is_member(b, s.addr));
        }
    }
}

/// Leaving a board ends the membership: afterwards the connection is not a
/// member of that board's room.
pub proof fn lemma_leave_removes_membership(m: ManagerView, addr: ConnId, b: u16)
    requires
        m.wf(),
    ensures
        !spec_leave(m, addr, b).0.is_member(b, addr),
{
    let m1 = spec_leave(m, addr, b).0;
    if !m.has_session(addr) || !m.session_of(addr).has_board(b) {
        assert(m1 == m);
        if m.is_member(b, addr) {
            let ri = m.room_index_of(b);
            assert(0 <= ri < m.rooms.len() && m.rooms[ri].board_id == b);
            let j = m.room_of(b).member_index_of(addr);
            assert(0 <= j < m.rooms[ri].members.len() && m.rooms[ri].members[j].addr == addr);
            assert(m.room_member_in_session(ri, j));
            assert(m.has_session(addr) && m.session_of(addr).has_board(b));
        }
    } else if !m.has_room(b) || !m.room_of(b).has_member(addr) {
        assert(m1 == m);
    } else {
        let r = m.room_of(b);
        let ri = m.room_index_of(b);
        assert(0 <= ri < m.rooms.len() && m.rooms[ri].board_id == b);
        assert(r.wf());
        let midx = r.member_index_of(addr);
        assert(0 <= midx < r.members.len() && r.members[midx].addr == addr);
        let r1 = RoomView {
            board_id: b,
            members: r.members.remove(midx),
            used: r.used.update(r.member_of(addr).user_id as int, false),
        };
        if r1.members.len() == 0 {
            lemma_room_lookup_after_remove(m, m1, ri);
            assert(!m1.has_room(b));
        } else {
            lemma_room_lookup_after_update(m, m1, ri);
            assert(m1.room_of(b) == r1);
            lemma_member_lookup_after_remove(r, r1, midx);
            assert(!r1.has_member(addr));
        }
    }
}

/// A connection that is not a member of a board receives nothing when any
/// other connection's frame is handled: every send either goes to someone
/// else or concerns another board. In particular, once a member has left a
/// room, frames of that room no longer reach it.
pub proof fn lemma_no_frames_to_non_member(
    m: ManagerView,
    bystander: ConnId,
    b: u16,
    actor: ConnId,
    msg: MessageView,
    color: Seq<u8>,
)
    requires
        m.wf(),
        !m.is_member(b, bystander),
        actor != bystander,
    ensures
        forall|k: int|
            0 <= k < spec_handle(m, actor, msg, color).1.len() ==> ((#[trigger] spec_handle(
                m,
                actor,
                msg,
                color,
            ).1[k]) matches EffectView::Send { to, message } ==> (to == bystander
                ==> message_board(message) != Some(b))),
{
    let effs = spec_handle(m, actor, msg, color).1;
    match msg {
        MessageView::Join { board_id, username } => {
            if m.has_session(actor) && !m.session_of(actor).has_board(board_id) {
                let r0 = if m.has_room(board_id) {
                    m.room_of(board_id)
                } else {
                    fresh_room(board_id)
                };
                if r0.has_free_id() {
                    let id = r0.lowest_free() as u8;
                    let mv = UserInfoView { addr: actor, user_id: id, username, color };
                    let r1 = RoomView {
                        board_id,
                        members: r0.members.push(mv),
                        used: r0.used.update(id as int, true),
                    };
                    let uj = MessageView::UserJoined {
                        board_id,
                        user_id: id,
                        username,
                        color,
                    };
                    let pu = MessageView::PresenceUpdate {
                        board_id,
                        count: (r1.members.len() % 256) as u8,
                    };
                    lemma_sends_targets(r1.member_addrs(), uj, Some(actor));
                    lemma_sends_targets(r1.member_addrs(), pu, None);
                    if board_id == b {
                        assert(!r1.has_member(bystander)) by {
                            if r1.has_member(bystander) {
                                let k = r1.member_index_of(bystander);
                                assert(0 <= k < r1.members.len());
                                assert(r1.members[k].addr == bystander);
                                if k < r1.members.len() - 1 {
                                    assert(r0.members[k].addr == bystander);
                                    assert(r0.has_member(bystander));
                                    assert(m.has_room(b)) by {
                                        if !m.has_room(b) {
                                            assert(r0.members.len() == 0);
                                        }
                                    }
                                }
                            }
                        }
                        lemma_member_addrs_contains(r1, bystander);
                        assert(!r1.member_addrs().contains(bystander));
                    }
                }
            }
        },
        MessageView::Leave { board_id } => {
            if m.has_session(actor) && m.session_of(actor).has_board(board_id) && m.has_room(
                board_id,
            ) && m.room_of(board_id).has_member(actor) {
                let r = m.room_of(board_id);
                let r1 = RoomView {
                    board_id,
                    members: r.members.remove(r.member_index_of(actor)),
                    used: r.used.update(r.member_of(actor).user_id as int, false),
                };
                let uid = m.session_of(actor).board_info_of(board_id).user_id;
                let ul = MessageView::UserLeft { board_id, user_id: uid };
                let pu = MessageView::PresenceUpdate {
                    board_id,
                    count: (r1.members.len() % 256) as u8,
                };
                lemma_sends_targets(r1.member_addrs(), ul, Some(actor));
                lemma_sends_targets(r1.member_addrs(), pu, None);
                if board_id == b {
                    assert(!r1.has_member(bystander)) by {
                        if r1.has_member(bystander) {
                            let k = r1.member_index_of(bystander);
                            let midx = r.member_index_of(actor);
                            let ko: int = if k < midx {
                                k
                            } else {
                                k + 1
                            };
                            assert(r1.members[k] == r.members[ko]);
                            assert(r.members[ko].addr == bystander);
                            assert(r.has_member(bystander));
                        }
                    }
                    lemma_member_addrs_contains(r1, bystander);
                    assert(!r1.member_addrs().contains(bystander));
                }
            }
        },
        MessageView::CursorUpdate { board_id, x, y } => {
            if m.has_session(actor) && m.session_of(actor).has_board(board_id) {
                let uid = m.session_of(actor).board_info_of(board_id).user_id;
                let cb = MessageView::CursorBroadcast { board_id, user_id: uid, x, y };
                if m.has_room(board_id) {
                    lemma_sends_targets(m.room_of(board_id).member_addrs(), cb, Some(actor));
                    if board_id == b {
                        lemma_member_addrs_contains(m.room_of(b), bystander);
                        assert(!m.room_of(b).member_addrs().contains(bystander));
                    }
                }
            }
        },
        _ => {},
    }
}

/// How many `UserJoined` announcements a sequence of effects publishes.
pub open spec fn count_user_joined(effs: Seq<EffectView>) -> int
    decreases effs.len(),
{
    if effs.len() == 0 {
        0
    } else {
        let head: int = if effs[0] matches EffectView::Publish {
            message: MessageView::UserJoined { .. },
            ..
        } {
            1
        } else {
            0
        };
        head + count_user_joined(effs.drop_first())
    }
}

/// Counting splits over concatenation.
proof fn lemma_count_uj_concat(s1: Seq<EffectView>, s2: Seq<EffectView>)
    ensures
        count_user_joined(s1 + s2) == count_user_joined(s1) + count_user_joined(s2),
    decreases s1.len(),
{
    if s1.len() == 0 {
        assert(s1 + s2 =~= s2);
    } else {
        assert((s1 + s2).drop_first() =~= s1.drop_first() + s2);
        assert((s1 + s2)[0] == s1[0]);
        lemma_count_uj_concat(s1.drop_first(), s2);
    }
}

/// A fan-out publishes nothing.
proof fn lemma_count_uj_sends_zero(addrs: Seq<ConnId>, msg: MessageView, exclude: Option<ConnId>)
    ensures
        count_user_joined(spec_sends(addrs, msg, exclude)) == 0,
    decreases addrs.len(),
{
    if addrs.len() == 0 {
    } else {
        lemma_count_uj_sends_zero(addrs.drop_first(), msg, exclude);
        let rest = spec_sends(addrs.drop_first(), msg, exclude);
        if exclude matches Some(c) && addrs[0] == c {
        } else {
            let one = seq![EffectView::Send { to: addrs[0], message: msg }];
            lemma_count_uj_concat(one, rest);
            assert(count_user_joined(one) == 0) by {
                assert(one.drop_first() =~= Seq::<EffectView>::empty());
                assert(count_user_joined(Seq::<EffectView>::empty()) == 0);
                assert(!(one[0] matches EffectView::Publish {
                    message: MessageView::UserJoined { .. },
                    ..
                }));
            }
        }
    }
}

/// Two joins of the same connection into the same board announce the
/// newcomer exactly once: the first join publishes one `UserJoined` when it
/// takes effect, and the second join changes nothing and emits nothing.
#[verifier::rlimit(60)]
pub proof fn lemma_join_idempotent(
    m: ManagerView,
    addr: ConnId,
    b: u16,
    u1: Seq<char>,
    c1: Seq<u8>,
    u2: Seq<char>,
    c2: Seq<u8>,
)
    requires
        m.wf(),
        m.has_session(addr),
    ensures
        ({
            let first = spec_join(m, addr, b, u1, c1);
            spec_join(first.0, addr, b, u2, c2) == (first.0, Seq::<EffectView>::empty())
        }),
        ({
            let first = spec_join(m, addr, b, u1, c1);
            count_user_joined(first.1) == if !m.session_of(addr).has_board(b) && (if m.has_room(b) {
                m.room_of(b)
            } else {
                fresh_room(b)
            }).has_free_id() {
                1int
            } else {
                0int
            }
        }),
{
    let si = m.session_index_of(addr);
    assert(0 <= si < m.sessions.len() && m.sessions[si].addr == addr);
    let first = spec_join(m, addr, b, u1, c1);
    if m.session_of(addr).has_board(b) {
        assert(first == (m, Seq::<EffectView>::empty()));
        assert(count_user_joined(first.1) == 0);
        assert(spec_join(first.0, addr, b, u2, c2) == (first.0, Seq::<EffectView>::empty()));
    } else {
        let r0 = if m.has_room(b) {
            m.room_of(b)
        } else {
            fresh_room(b)
        };
        if !r0.has_free_id() {
            assert(first == (m, Seq::<EffectView>::empty()));
            assert(count_user_joined(first.1) == 0);
            assert(spec_join(first.0, addr, b, u2, c2) == (first.0, Seq::<EffectView>::empty()));
        } else {
            let id = r0.lowest_free() as u8;
            let mv = UserInfoView { addr, user_id: id, username: u1, color: c1 };
            let r1 = RoomView {
                board_id: b,
                members: r0.members.push(mv),
                used: r0.used.update(id as int, true),
            };
            let s0 = m.session_of(addr);
            let s1 = SessionView {
                addr,
                boards: s0.boards.push((b, BoardInfoView { user_id: id, username: u1, color: c1 })),
            };
            let m1 = first.0;
            assert(m1.sessions == m.sessions.update(si, s1));
            lemma_session_lookup_after_update(m, m1, si);
            assert(m1.session_of(addr) == s1);
            assert(s1.has_board(b)) by {
                assert(s1.boards[s1.boards.len() - 1].0 == b);
            }
            assert(m1.has_session(addr));
            assert(spec_join(m1, addr, b, u2, c2) == (m1, Seq::<EffectView>::empty()));
            // Exactly one UserJoined is published.
            let uj = MessageView::UserJoined { board_id: b, user_id: id, username: u1, color: c1 };
            let pu = MessageView::PresenceUpdate {
                board_id: b,
                count: (r1.members.len() % 256) as u8,
            };
            let e0 = seq![EffectView::Publish { board_id: b, message: uj }];
            let sj = spec_sends(r1.member_addrs(), uj, Some(addr));
            let e2 = seq![EffectView::Publish { board_id: b, message: pu }];
            let sp = spec_sends(r1.member_addrs(), pu, None);
            assert(first.1 == e0 + sj + e2 + sp);
            lemma_count_uj_concat(e0 + sj + e2, sp);
            lemma_count_uj_concat(e0 + sj, e2);
            lemma_count_uj_concat(e0, sj);
            lemma_count_uj_sends_zero(r1.member_addrs(), uj, Some(addr));
            lemma_count_uj_sends_zero(r1.member_addrs(), pu, None);
            assert(count_user_joined(e0) == 1) by {
                assert(e0.drop_first() =~= Seq::<EffectView>::empty());
                assert(count_user_joined(Seq::<EffectView>::empty()) == 0);
                assert(e0[0] matches EffectView::Publish {
                    message: MessageView::UserJoined { .. },
                    ..
                });
            }
            assert(count_user_joined(e2) == 0) by {
                assert(e2.drop_first() =~= Seq::<EffectView>::empty());
                assert(count_user_joined(Seq::<EffectView>::empty()) == 0);
                assert(!(e2[0] matches EffectView::Publish {
                    message: MessageView::UserJoined { .. },
                    ..
                }));
            }
        }
    }
}


/// The leave transition preserves well-formedness.
pub proof fn lemma_leave_preserves_wf(m: ManagerView, addr: ConnId, b: u16)
    requires
        m.wf(),
    ensures
        spec_leave(m, addr, b).0.wf(),
{
    if !m.has_session(addr) || !m.session_of(addr).has_board(b) {
    } else if !m.has_room(b) || !m.room_of(b).has_member(addr) {
    } else {
        let si = m.session_index_of(addr);
        assert(0 <= si < m.sessions.len() && m.sessions[si].addr == addr);
        lemma_wf_after_leave(m, spec_leave(m, addr, b).0, addr, b, si);
    }
}

/// Once a member has left a room, no later frame of that room reaches it:
/// whatever any other connection does next, every send to the departed
/// member concerns some other board.
pub proof fn lemma_left_member_hears_nothing(
    m: ManagerView,
    leaver: ConnId,
    b: u16,
    actor: ConnId,
    msg: MessageView,
    color: Seq<u8>,
)
    requires
        m.wf(),
        actor != leaver,
    ensures
        ({
            let after = spec_leave(m, leaver, b).0;
            forall|k: int|
                0 <= k < spec_handle(after, actor, msg, color).1.len() ==> ((
                #[trigger] spec_handle(after, actor, msg, color).1[k]) matches EffectView::Send {
                    to,
                    message,
                } ==> (to == leaver ==> message_board(message) != Some(b)))
        }),
{
    let after = spec_leave(m, leaver, b).0;
    lemma_leave_preserves_wf(m, leaver, b);
    lemma_leave_removes_membership(m, leaver, b);
    lemma_no_frames_to_non_member(after, leaver, b, actor, msg, color);
}


/// The join transition preserves well-formedness.
pub proof fn lemma_join_preserves_wf(
    m: ManagerView,
    addr: ConnId,
    b: u16,
    username: Seq<char>,
    color: Seq<u8>,
)
    requires
        m.wf(),
        vstd::utf8::encode_utf8(username).len() <= 32,
        color.len() == 3,
    ensures
        spec_join(m, addr, b, username, color).0.wf(),
{
    if !m.has_session(addr) || m.session_of(addr).has_board(b) {
    } else {
        let r0 = if m.has_room(b) {
            m.room_of(b)
        } else {
            fresh_room(b)
        };
        if r0.has_free_id() {
            crate::room::lemma_lowest_free_is_least(r0);
            let si = m.session_index_of(addr);
            assert(0 <= si < m.sessions.len() && m.sessions[si].addr == addr);
            lemma_wf_after_join(
                m,
                spec_join(m, addr, b, username, color).0,
                addr,
                b,
                r0.lowest_free() as u8,
                username,
                color,
                si,
            );
        }
    }
}

} // verus!
