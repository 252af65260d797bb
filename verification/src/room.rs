//! Per-board room: the members present on this instance and the short-id
//! allocator that hands out room-local ids from `0..=255`.
//!
//! The allocator is a 256-entry occupancy table; assigning takes the lowest
//! free id and releasing returns it. [`lemma_id_sets_partition`] shows that
//! at any time the assigned and free id sets are disjoint and together cover
//! all 256 ids.

use crate::session::ConnId;
use vstd::prelude::*;
use vstd::utf8::encode_utf8;

verus! {

/// A member of a room: connection, short id, display name, colour.
#[derive(Debug, Clone)]
pub struct UserInfo {
    /// The member's connection.
    pub addr: ConnId,
    /// Room-local short id.
    pub user_id: u8,
    /// Display name, at most 32 UTF-8 bytes.
    pub username: String,
    /// Cursor colour as RGB.
    pub color: [u8; 3],
}

/// Mathematical image of a [`UserInfo`].
pub struct UserInfoView {
    pub addr: ConnId,
    pub user_id: u8,
    pub username: Seq<char>,
    pub color: Seq<u8>,
}

impl View for UserInfo {
    type V = UserInfoView;

    open spec fn view(&self) -> UserInfoView {
        UserInfoView {
            addr: self.addr,
            user_id: self.user_id,
            username: self.username@,
            color: self.color@,
        }
    }
}

impl UserInfo {
    /// A copy with the same view.
    pub fn duplicate(&self) -> (r: Self)
        ensures
            r@ == self@,
    {
        let c: [u8; 3] = [self.color[0], self.color[1], self.color[2]];
        proof {
            assert(c@ =~= self.color@);
        }
        UserInfo {
            addr: self.addr,
            user_id: self.user_id,
            username: self.username.clone(),
            color: c,
        }
    }
}

/// Whether a member record fits the wire format.
pub open spec fn member_wire_valid(m: UserInfoView) -> bool {
    encode_utf8(m.username).len() <= 32 && m.color.len() == 3
}

/// The views of a sequence of member records.
pub open spec fn members_view(s: Seq<UserInfo>) -> Seq<UserInfoView> {
    s.map_values(|m: UserInfo| m@)
}

/// Mathematical image of a [`Room`].
pub struct RoomView {
    pub board_id: u16,
    /// Members in arrival order.
    pub members: Seq<UserInfoView>,
    /// Occupancy of each short id: `used[i]` means id `i` is assigned.
    pub used: Seq<bool>,
}

impl RoomView {
    /// Whether connection `c` is a member.
    pub open spec fn has_member(self, c: ConnId) -> bool {
        exists|i: int| 0 <= i < self.members.len() && self.members[i].addr == c
    }

    /// Index of connection `c` in the member sequence.
    pub open spec fn member_index_of(self, c: ConnId) -> int {
        choose|i: int| 0 <= i < self.members.len() && self.members[i].addr == c
    }

    /// The member record of connection `c`.
    pub open spec fn member_of(self, c: ConnId) -> UserInfoView {
        self.members[self.member_index_of(c)]
    }

    /// The members' connections, in arrival order.
    pub open spec fn member_addrs(self) -> Seq<ConnId> {
        self.members.map_values(|m: UserInfoView| m.addr)
    }

    /// Whether some short id is still free.
    pub open spec fn has_free_id(self) -> bool {
        exists|i: int| 0 <= i < self.used.len() && !self.used[i]
    }

    /// The lowest free short id.
    pub open spec fn lowest_free(self) -> int {
        choose|i: int|
            0 <= i < self.used.len() && !self.used[i] && (forall|j: int|
                0 <= j < i ==> self.used[j])
    }

    /// The set of assigned short ids.
    pub open spec fn assigned_ids(self) -> Set<int> {
        Set::new(|i: int| 0 <= i < 256 && self.used[i])
    }

    /// The set of free short ids.
    pub open spec fn free_ids(self) -> Set<int> {
        Set::new(|i: int| 0 <= i < 256 && !self.used[i])
    }

    /// The occupancy table covers exactly `0..=255`, members are unique by
    /// connection and by short id, every member's id is assigned, and every
    /// record fits the wire format.
    pub open spec fn wf(self) -> bool {
        &&& self.used.len() == 256
        &&& forall|i: int, j: int|
            0 <= i < j < self.members.len() ==> self.members[i].addr != self.members[j].addr
        &&& forall|i: int, j: int|
            0 <= i < j < self.members.len() ==> self.members[i].user_id != self.members[j].user_id
        &&& forall|i: int|
            0 <= i < self.members.len() ==> self.used[#[trigger] self.members[i].user_id as int]
        &&& forall|i: int| 0 <= i < self.members.len() ==> member_wire_valid(
            #[trigger] self.members[i],
        )
    }
}

/// Assigned and free ids over the first `n` entries of the occupancy table
/// partition `0..n`.
proof fn lemma_partition_card_prefix(used: Seq<bool>, n: int)
    requires
        0 <= n <= used.len(),
    ensures
        Set::new(|i: int| 0 <= i < n && used[i]).finite(),
        Set::new(|i: int| 0 <= i < n && !used[i]).finite(),
        Set::new(|i: int| 0 <= i < n && used[i]).len() + Set::new(
            |i: int| 0 <= i < n && !used[i],
        ).len() == n,
    decreases n,
{
    broadcast use vstd::set::axiom_set_insert_len;

    let a_n = Set::new(|i: int| 0 <= i < n && used[i]);
    let f_n = Set::new(|i: int| 0 <= i < n && !used[i]);
    if n == 0 {
        assert(a_n =~= Set::<int>::empty());
        assert(f_n =~= Set::<int>::empty());
    } else {
        lemma_partition_card_prefix(used, n - 1);
        let a_p = Set::new(|i: int| 0 <= i < n - 1 && used[i]);
        let f_p = Set::new(|i: int| 0 <= i < n - 1 && !used[i]);
        if used[n - 1] {
            assert(a_n =~= a_p.insert(n - 1));
            assert(f_n =~= f_p);
        } else {
            assert(a_n =~= a_p);
            assert(f_n =~= f_p.insert(n - 1));
        }
    }
}

/// At any time a room's assigned and free short-id sets are disjoint and
/// their sizes add up to 256.
pub proof fn lemma_id_sets_partition(r: RoomView)
    requires
        r.wf(),
    ensures
        r.assigned_ids().intersect(r.free_ids()) == Set::<int>::empty(),
        r.assigned_ids().len() + r.free_ids().len() == 256,
        r.assigned_ids().finite(),
        r.free_ids().finite(),
{
    assert(r.assigned_ids().intersect(r.free_ids()) =~= Set::<int>::empty());
    lemma_partition_card_prefix(r.used, 256);
    assert(r.assigned_ids() =~= Set::new(|i: int| 0 <= i < 256 && r.used[i]));
    assert(r.free_ids() =~= Set::new(|i: int| 0 <= i < 256 && !r.used[i]));
}

/// Some free id exists, so a lowest one exists and `lowest_free` denotes
/// it: a free id below which everything is assigned.
pub proof fn lemma_lowest_free_is_least(r: RoomView)
    requires
        r.has_free_id(),
    ensures
        0 <= r.lowest_free() < r.used.len(),
        !r.used[r.lowest_free()],
        forall|j: int| 0 <= j < r.lowest_free() ==> r.used[j],
{
    let w = choose|i: int| 0 <= i < r.used.len() && !r.used[i];
    lemma_min_free_exists(r.used, w);
    let lf = r.lowest_free();
    assert(0 <= lf < r.used.len() && !r.used[lf] && (forall|j: int| 0 <= j < lf ==> r.used[j]));
}

/// Below any free index there is a least free index.
proof fn lemma_min_free_exists(used: Seq<bool>, w: int)
    requires
        0 <= w < used.len(),
        !used[w],
    ensures
        exists|k: int|
            0 <= k < used.len() && !used[k] && (forall|j: int| 0 <= j < k ==> used[j]),
    decreases w,
{
    if forall|j: int| 0 <= j < w ==> used[j] {
        assert(0 <= w < used.len() && !used[w] && (forall|j: int| 0 <= j < w ==> used[j]));
    } else {
        let v = choose|j: int| 0 <= j < w && !used[j];
        lemma_min_free_exists(used, v);
    }
}

/// The membership bag for one board on this instance.
#[derive(Debug)]
pub struct Room {
    board_id: u16,
    members: Vec<UserInfo>,
    used_ids: Vec<bool>,
}

impl View for Room {
    type V = RoomView;

    closed spec fn view(&self) -> RoomView {
        RoomView {
            board_id: self.board_id,
            members: members_view(self.members@),
            used: self.used_ids@,
        }
    }
}

impl Room {
    /// A fresh room: no members, all 256 short ids free.
    pub fn new(board_id: u16) -> (r: Self)
        ensures
            r@.board_id == board_id,
            r@.members == Seq::<UserInfoView>::empty(),
            r@.used == Seq::new(256, |i: int| false),
            r@.wf(),
    {
        let r = Room { board_id, members: Vec::new(), used_ids: vec![false; 256] };
        proof {
            assert(r@.members =~= Seq::<UserInfoView>::empty());
            assert(r@.used =~= Seq::new(256, |i: int| false));
        }
        r
    }

    /// The board this room belongs to.
    pub fn board_id(&self) -> (r: u16)
        ensures
            r == self@.board_id,
    {
        self.board_id
    }

    /// Assign the lowest free short id, or report exhaustion.
    pub fn assign_user_id(&mut self) -> (r: Option<u8>)
        requires
            old(self)@.wf(),
        ensures
            final(self)@.board_id == old(self)@.board_id,
            final(self)@.members == old(self)@.members,
            (r is Some) == old(self)@.has_free_id(),
            r matches Some(id) ==> id == old(self)@.lowest_free() && !old(self)@.used[id as int]
                && final(self)@.used == old(self)@.used.update(id as int, true),
            r is None ==> final(self)@.used == old(self)@.used,
            final(self)@.wf(),
    {
        let n = self.used_ids.len();
        for i in 0..n
            invariant
                n == 256,
                self == old(self),
                self@.wf(),
                forall|j: int| 0 <= j < i ==> self@.used[j],
        {
            if !self.used_ids[i] {
                self.used_ids[i] = true;
                proof {
                    let id = i as int;
                    assert(old(self)@.used[id] == false);
                    let w = old(self)@.lowest_free();
                    assert(0 <= w < 256 && !old(self)@.used[w] && (forall|j: int|
                        0 <= j < w ==> old(self)@.used[j])) by {
                        assert(0 <= id < old(self)@.used.len() && !old(self)@.used[id] && (
                        forall|j: int| 0 <= j < id ==> old(self)@.used[j]));
                    }
                    assert(w == id);
                    assert(self@.used =~= old(self)@.used.update(id, true));
                    assert(self@.members =~= old(self)@.members);
                }
                return Some(i as u8);
            }
        }
        proof {
            assert(forall|j: int| 0 <= j < 256 ==> old(self)@.used[j]);
            assert(self@.used =~= old(self)@.used);
        }
        None
    }

    /// Return a short id to the free pool.
    fn release_user_id(&mut self, id: u8)
        requires
            old(self)@.used.len() == 256,
        ensures
            final(self)@.board_id == old(self)@.board_id,
            final(self)@.members == old(self)@.members,
            final(self)@.used == old(self)@.used.update(id as int, false),
    {
        self.used_ids[id as usize] = false;
        proof {
            assert(self@.members =~= old(self)@.members);
            assert(self@.used =~= old(self)@.used.update(id as int, false));
        }
    }

    /// Record a member that was just assigned a fresh short id.
    pub fn add_user(&mut self, addr: ConnId, user_id: u8, username: String, color: [u8; 3])
        requires
            old(self)@.wf(),
            !old(self)@.has_member(addr),
            old(self)@.used[user_id as int],
            forall|i: int|
                0 <= i < old(self)@.members.len() ==> (#[trigger] old(
                    self,
                )@.members[i]).user_id != user_id,
            encode_utf8(username@).len() <= 32,
        ensures
            final(self)@.board_id == old(self)@.board_id,
            final(self)@.used == old(self)@.used,
            final(self)@.members == old(self)@.members.push(
                UserInfoView { addr, user_id, username: username@, color: color@ },
            ),
            final(self)@.wf(),
    {
        let info = UserInfo { addr, user_id, username, color };
        let ghost iv = info@;
        self.members.push(info);
        proof {
            assert(self@.members =~= old(self)@.members.push(iv));
            assert(self@.used =~= old(self)@.used);
            assert(iv.color.len() == 3);
            let m = self@.members;
            assert forall|i: int, j: int| 0 <= i < j < m.len() implies m[i].addr != m[j].addr by {
                if j == m.len() - 1 {
                    assert(!old(self)@.has_member(addr) ==> old(self)@.members[i].addr != addr);
                }
            }
            assert forall|i: int, j: int|
                0 <= i < j < m.len() implies m[i].user_id != m[j].user_id by {}
        }
    }

    /// Index of connection `c` in the member vector, if present.
    fn find_member(&self, addr: ConnId) -> (r: Option<usize>)
        ensures
            (r is Some) == self@.has_member(addr),
            r matches Some(i) ==> 0 <= i < self@.members.len() && self@.members[i as int].addr
                == addr,
    {
        let n = self.members.len();
        for i in 0..n
            invariant
                n == self.members.len(),
                forall|j: int| 0 <= j < i ==> self@.members[j].addr != addr,
        {
            if self.members[i].addr == addr {
                proof {
                    assert(self@.members[i as int].addr == addr);
                }
                return Some(i);
            }
        }
        None
    }

    /// Remove a member and return its short id to the pool; an absent
    /// connection leaves the room unchanged.
    pub fn remove_user(&mut self, addr: ConnId)
        requires
            old(self)@.wf(),
        ensures
            final(self)@.board_id == old(self)@.board_id,
            final(self)@.wf(),
            old(self)@.has_member(addr) ==> final(self)@.members == old(self)@.members.remove(
                old(self)@.member_index_of(addr),
            ) && final(self)@.used == old(self)@.used.update(
                old(self)@.member_of(addr).user_id as int,
                false,
            ),
            !old(self)@.has_member(addr) ==> final(self)@ == old(self)@,
    {
        match self.find_member(addr) {
            Some(i) => {
                let ghost oldroom = self@;
                let uid = self.members[i].user_id;
                self.members.remove(i);
                proof {
                    let k = oldroom.member_index_of(addr);
                    assert(0 <= k < oldroom.members.len() && oldroom.members[k].addr == addr);
                    assert(k == i as int);
                    assert(self@.members =~= oldroom.members.remove(i as int));
                }
                self.release_user_id(uid);
                proof {
                    let m = self@.members;
                    let omem = oldroom.members;
                    assert forall|x: int|
                        0 <= x < m.len() implies self@.used[#[trigger] m[x].user_id as int] by {
                        let y: int = if x < i as int {
                            x
                        } else {
                            x + 1
                        };
                        assert(m[x] == omem[y]);
                        assert(oldroom.used[m[x].user_id as int]);
                        if y < i as int {
                            assert(omem[y].user_id != omem[i as int].user_id);
                        } else if y > i as int {
                            assert(omem[i as int].user_id != omem[y].user_id);
                        }
                    }
                }
            },
            None => {
                proof {
                    assert(self@.members =~= old(self)@.members);
                    assert(self@.used =~= old(self)@.used);
                }
            },
        }
    }

    /// The record of a member, if the connection is one.
    pub fn get_user(&self, addr: ConnId) -> (r: Option<&UserInfo>)
        requires
            self@.wf(),
        ensures
            (r is Some) == self@.has_member(addr),
            r matches Some(info) ==> info@ == self@.member_of(addr),
    {
        match self.find_member(addr) {
            Some(i) => {
                proof {
                    let k = self@.member_index_of(addr);
                    assert(0 <= k < self@.members.len() && self@.members[k].addr == addr);
                    assert(k == i as int);
                }
                Some(&self.members[i])
            },
            None => None,
        }
    }

    /// The members' connections, in arrival order.
    pub fn user_addresses(&self) -> (r: Vec<ConnId>)
        ensures
            r@ == self@.member_addrs(),
    {
        let n = self.members.len();
        let mut out: Vec<ConnId> = Vec::new();
        for i in 0..n
            invariant
                n == self.members.len(),
                out@ == self@.member_addrs().take(i as int),
        {
            out.push(self.members[i].addr);
            proof {
                assert(out@ =~= self@.member_addrs().take(i as int + 1));
            }
        }
        proof {
            assert(self@.member_addrs().take(n as int) =~= self@.member_addrs());
        }
        out
    }

    /// Copies of all member records, in arrival order.
    pub fn users(&self) -> (r: Vec<UserInfo>)
        ensures
            members_view(r@) == self@.members,
    {
        let n = self.members.len();
        let mut out: Vec<UserInfo> = Vec::new();
        for i in 0..n
            invariant
                n == self.members.len(),
                members_view(out@) == self@.members.take(i as int),
        {
            let ghost prev = out@;
            let copy = self.members[i].duplicate();
            proof {
                assert(self@.members[i as int] == self.members@[i as int]@);
            }
            out.push(copy);
            proof {
                assert(members_view(prev).len() == prev.len());
                assert(prev.len() == i as int);
                assert(out@ == prev.push(copy));
                assert forall|k: int|
                    0 <= k < out@.len() implies members_view(out@)[k] == self@.members.take(
                    i as int + 1,
                )[k] by {
                    assert(members_view(out@)[k] == out@[k]@);
                    if k < i as int {
                        assert(members_view(prev)[k] == self@.members.take(i as int)[k]);
                        assert(out@[k] == prev[k]);
                        assert(out@[k]@ == members_view(prev)[k]);
                    } else {
                        assert(out@[k] == copy);
                    }
                }
                assert(members_view(out@) =~= self@.members.take(i as int + 1));
            }
        }
        proof {
            assert(self@.members.take(n as int) =~= self@.members);
        }
        out
    }

    /// How many members the room has.
    pub fn user_count(&self) -> (r: usize)
        ensures
            r == self@.members.len(),
    {
        self.members.len()
    }

    /// Whether the room has no members.
    pub fn is_empty(&self) -> (r: bool)
        ensures
            r == (self@.members.len() == 0),
    {
        self.members.is_empty()
    }

    /// Whether a connection is a member.
    pub fn contains_user(&self, addr: ConnId) -> (r: bool)
        ensures
            r == self@.has_member(addr),
    {
        self.find_member(addr).is_some()
    }

    /// How many short ids are still free.
    pub fn available_id_count(&self) -> (r: usize)
        requires
            self@.wf(),
        ensures
            r == self@.free_ids().len(),
    {
        let n = self.used_ids.len();
        let mut count: usize = 0;
        proof {
            assert(Set::new(|j: int| 0 <= j < 0 && !self@.used[j]) =~= Set::<int>::empty());
        }
        for i in 0..n
            invariant
                n == 256,
                self@.wf(),
                count == Set::new(|j: int| 0 <= j < i && !self@.used[j]).len(),
                Set::new(|j: int| 0 <= j < i && !self@.used[j]).finite(),
                count <= i,
        {
            broadcast use vstd::set::axiom_set_insert_len;

            let ghost pre = Set::new(|j: int| 0 <= j < i && !self@.used[j]);
            if !self.used_ids[i] {
                count += 1;
                proof {
                    assert(Set::new(|j: int| 0 <= j < i + 1 && !self@.used[j]) =~= pre.insert(
                        i as int,
                    ));
                }
            } else {
                proof {
                    assert(Set::new(|j: int| 0 <= j < i + 1 && !self@.used[j]) =~= pre);
                }
            }
        }
        proof {
            assert(Set::new(|j: int| 0 <= j < 256 && !self@.used[j]) =~= self@.free_ids());
        }
        count
    }
}

} // verus!
