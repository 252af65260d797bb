//! Per-connection session registry: which boards a connection has joined,
//! and under which short id, display name and cursor colour.
//!
//! A session's view is an association sequence from board id to
//! [`BoardInfoView`]; well-formedness keeps the board keys unique and every
//! stored username inside the wire limit.

use vstd::prelude::*;
use vstd::utf8::encode_utf8;

verus! {

/// Opaque identity of a connection. The transport layer picks the value;
/// the registries only compare it.
pub type ConnId = u64;

/// A connection's standing in one board.
#[derive(Debug, Clone)]
pub struct BoardInfo {
    /// Room-local short id, used on the wire instead of the username.
    pub user_id: u8,
    /// Display name, at most 32 UTF-8 bytes.
    pub username: String,
    /// Cursor colour as RGB.
    pub color: [u8; 3],
}

/// Mathematical image of a [`BoardInfo`].
pub struct BoardInfoView {
    pub user_id: u8,
    pub username: Seq<char>,
    pub color: Seq<u8>,
}

impl View for BoardInfo {
    type V = BoardInfoView;

    open spec fn view(&self) -> BoardInfoView {
        BoardInfoView { user_id: self.user_id, username: self.username@, color: self.color@ }
    }
}

impl BoardInfo {
    /// A copy with the same view.
    pub fn duplicate(&self) -> (r: Self)
        ensures
            r@ == self@,
    {
        let c: [u8; 3] = [self.color[0], self.color[1], self.color[2]];
        proof {
            assert(c@ =~= self.color@);
        }
        BoardInfo { user_id: self.user_id, username: self.username.clone(), color: c }
    }
}

/// Whether a membership record fits the wire format.
pub open spec fn info_wire_valid(info: BoardInfoView) -> bool {
    encode_utf8(info.username).len() <= 32 && info.color.len() == 3
}

/// Mathematical image of a [`Session`].
pub struct SessionView {
    pub addr: ConnId,
    pub boards: Seq<(u16, BoardInfoView)>,
}

impl SessionView {
    /// Whether the session holds board `b`.
    pub open spec fn has_board(self, b: u16) -> bool {
        exists|i: int| 0 <= i < self.boards.len() && self.boards[i].0 == b
    }

    /// Index of board `b` in the association sequence.
    pub open spec fn board_index_of(self, b: u16) -> int {
        choose|i: int| 0 <= i < self.boards.len() && self.boards[i].0 == b
    }

    /// The membership record stored for board `b`.
    pub open spec fn board_info_of(self, b: u16) -> BoardInfoView {
        self.boards[self.board_index_of(b)].1
    }

    /// The board ids the session holds, in insertion order.
    pub open spec fn board_ids(self) -> Seq<u16> {
        self.boards.map_values(|p: (u16, BoardInfoView)| p.0)
    }

    /// Board keys are unique and every record fits the wire format.
    pub open spec fn wf(self) -> bool {
        &&& forall|i: int, j: int|
            0 <= i < j < self.boards.len() ==> self.boards[i].0 != self.boards[j].0
        &&& forall|i: int| 0 <= i < self.boards.len() ==> info_wire_valid(#[trigger] self.boards[i].1)
    }
}

/// The per-connection registry entry: the boards this connection has joined.
#[derive(Debug, Clone)]
pub struct Session {
    addr: ConnId,
    boards: Vec<(u16, BoardInfo)>,
}

impl View for Session {
    type V = SessionView;

    closed spec fn view(&self) -> SessionView {
        SessionView {
            addr: self.addr,
            boards: self.boards@.map_values(|p: (u16, BoardInfo)| (p.0, p.1@)),
        }
    }
}

impl Session {
    /// A fresh session for a connection, holding no boards.
    pub fn new(addr: ConnId) -> (r: Self)
        ensures
            r@.addr == addr,
            r@.boards == Seq::<(u16, BoardInfoView)>::empty(),
            r@.wf(),
    {
        let r = Session { addr, boards: Vec::new() };
        proof {
            assert(r@.boards =~= Seq::<(u16, BoardInfoView)>::empty());
        }
        r
    }

    /// The connection this session belongs to.
    pub fn addr(&self) -> (r: ConnId)
        ensures
            r == self@.addr,
    {
        self.addr
    }

    /// Record membership in a new board.
    pub fn add_board(&mut self, board_id: u16, user_id: u8, username: String, color: [u8; 3])
        requires
            old(self)@.wf(),
            !old(self)@.has_board(board_id),
            encode_utf8(username@).len() <= 32,
        ensures
            final(self)@.addr == old(self)@.addr,
            final(self)@.boards == old(self)@.boards.push(
                (board_id, BoardInfoView { user_id, username: username@, color: color@ }),
            ),
            final(self)@.wf(),
    {
        let info = BoardInfo { user_id, username, color };
        let ghost iv = info@;
        self.boards.push((board_id, info));
        proof {
            assert(self@.boards =~= old(self)@.boards.push((board_id, iv)));
            assert(iv.color.len() == 3);
            assert forall|i: int, j: int|
                0 <= i < j < self@.boards.len() implies self@.boards[i].0 != self@.boards[j].0 by {
                if j < self@.boards.len() - 1 {
                } else {
                    assert(old(self)@.boards[i].0 != board_id);
                }
            }
        }
    }

    /// Index of board `b` in the backing vector, if any.
    fn find_board(&self, board_id: u16) -> (r: Option<usize>)
        ensures
            (r is Some) == self@.has_board(board_id),
            r matches Some(i) ==> 0 <= i < self@.boards.len() && self@.boards[i as int].0
                == board_id,
    {
        let n = self.boards.len();
        for i in 0..n
            invariant
                n == self.boards.len(),
                forall|j: int| 0 <= j < i ==> self@.boards[j].0 != board_id,
        {
            if self.boards[i].0 == board_id {
                proof {
                    assert(self@.boards[i as int].0 == board_id);
                }
                return Some(i);
            }
        }
        None
    }

    /// Forget membership in a board; a board the session does not hold is
    /// left as it is.
    pub fn remove_board(&mut self, board_id: u16)
        requires
            old(self)@.wf(),
        ensures
            final(self)@.addr == old(self)@.addr,
            final(self)@.wf(),
            old(self)@.has_board(board_id) ==> final(self)@.boards == old(
                self,
            )@.boards.remove(old(self)@.board_index_of(board_id)),
            !old(self)@.has_board(board_id) ==> final(self)@.boards == old(self)@.boards,
    {
        match self.find_board(board_id) {
            Some(i) => {
                let ghost oldv = self@.boards;
                self.boards.remove(i);
                proof {
                    let k = old(self)@.board_index_of(board_id);
                    assert(0 <= k < oldv.len() && oldv[k].0 == board_id);
                    assert(k == i as int);
                    assert(self@.boards =~= oldv.remove(i as int));
                }
            },
            None => {
                proof {
                    assert(self@.boards =~= old(self)@.boards);
                }
            },
        }
    }

    /// The membership record for a board the session holds.
    pub fn get_board_info(&self, board_id: u16) -> (r: Option<&BoardInfo>)
        requires
            self@.wf(),
        ensures
            (r is Some) == self@.has_board(board_id),
            r matches Some(info) ==> info@ == self@.board_info_of(board_id),
    {
        match self.find_board(board_id) {
            Some(i) => {
                let entry = &self.boards[i];
                proof {
                    let k = self@.board_index_of(board_id);
                    assert(0 <= k < self@.boards.len() && self@.boards[k].0 == board_id);
                    assert(k == i as int);
                }
                Some(&entry.1)
            },
            None => None,
        }
    }

    /// All board ids the session holds, in insertion order.
    pub fn board_ids(&self) -> (r: Vec<u16>)
        ensures
            r@ == self@.board_ids(),
    {
        let n = self.boards.len();
        let mut out: Vec<u16> = Vec::new();
        for i in 0..n
            invariant
                n == self.boards.len(),
                out@ == self@.board_ids().take(i as int),
        {
            out.push(self.boards[i].0);
            proof {
                assert(out@ =~= self@.board_ids().take(i as int + 1));
            }
        }
        proof {
            assert(self@.board_ids().take(n as int) =~= self@.board_ids());
        }
        out
    }

    /// Whether the session holds board `b`.
    pub fn is_in_board(&self, board_id: u16) -> (r: bool)
        ensures
            r == self@.has_board(board_id),
    {
        self.find_board(board_id).is_some()
    }

    /// How many boards the session holds.
    pub fn board_count(&self) -> (r: usize)
        ensures
            r == self@.boards.len(),
    {
        self.boards.len()
    }
}

} // verus!
