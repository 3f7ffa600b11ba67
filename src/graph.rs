use vstd::prelude::*;

use crate::model::{GraphModel, RoomId, RoomModel, UserId, UserModel};

verus! {

struct Room {
    name: String,
    members: Vec<UserId>,
    handles: u64,
    live: bool,
}

struct User {
    name: String,
    rooms: Vec<RoomId>,
    handles: u64,
    live: bool,
}

impl View for Room {
    type V = RoomModel;

    closed spec fn view(&self) -> RoomModel {
        RoomModel {
            name: self.name@,
            members: self.members@,
            handles: self.handles as nat,
            live: self.live,
        }
    }
}

impl View for User {
    type V = UserModel;

    closed spec fn view(&self) -> UserModel {
        UserModel {
            name: self.name@,
            rooms: self.rooms@,
            handles: self.handles as nat,
            live: self.live,
        }
    }
}

/// Why an operation on the graph was refused; the graph is then unchanged.
#[derive(Clone, Copy, PartialEq, Eq, Structural, Debug)]
pub enum GraphError {
    /// The room handle names no room of this graph.
    UnknownRoom,
    /// The user handle names no user of this graph.
    UnknownUser,
    /// The room has already been destroyed.
    RoomDestroyed,
    /// The user has already been destroyed.
    UserDestroyed,
    /// A user must belong to at least one room.
    NoRooms,
    /// No outside handle to the room is left to release.
    NoHandle,
    /// A reference count would overflow.
    TooManyHandles,
}

/// What releasing a user reference destroyed.
pub struct Released {
    /// The released reference was the user's last, so the user is gone.
    pub user_destroyed: bool,
    /// The rooms that died with the user, each once.
    pub rooms_destroyed: Vec<RoomId>,
}

/// Rooms and users, with owning user-to-room references and non-owning
/// room-to-user references.
pub struct Graph {
    rooms: Vec<Room>,
    users: Vec<User>,
}

impl View for Graph {
    type V = GraphModel;

    closed spec fn view(&self) -> GraphModel {
        GraphModel {
            rooms: self.rooms@.map_values(|r: Room| r@),
            users: self.users@.map_values(|u: User| u@),
        }
    }
}

spec fn live_in(users: Seq<User>, v: UserId) -> bool {
    v.0 < users.len() && users[v.0 as int].live
}

/// The entries of `members` that resolve to a live user of `users`, in order.
fn live_entries(members: &Vec<UserId>, users: &Vec<User>) -> (r: Vec<UserId>)
    ensures
        r@ == members@.filter(|v: UserId| live_in(users@, v)),
{
    let mut out: Vec<UserId> = Vec::new();
    let mut i: usize = 0;
    while i < members.len()
        invariant
            i <= members@.len(),
            out@ == members@.take(i as int).filter(|v: UserId| live_in(users@, v)),
        decreases members@.len() - i,
    {
        let v = members[i];
        proof {
            assert(members@.take(i + 1) =~= members@.take(i as int).push(v));
            members@.take(i as int).lemma_filter_push(v, |v: UserId| live_in(users@, v));
        }
        if v.0 < users.len() && users[v.0].live {
            out.push(v);
        }
        i = i + 1;
    }
    assert(members@.take(members@.len() as int) =~= members@);
    out
}

impl Graph {
    pub open spec fn wf(&self) -> bool {
        self@.wf()
    }

    /// An empty graph.
    pub fn new() -> (g: Graph)
        ensures
            g.wf(),
            g@ == GraphModel::empty(),
    {
        let g = Graph { rooms: Vec::new(), users: Vec::new() };
        assert(g@.rooms =~= seq![]);
        assert(g@.users =~= seq![]);
        g
    }

    /// Creates a live room with no users; the returned handle is its one outside owner.
    pub fn add_room(&mut self, name: String) -> (r: Result<RoomId, GraphError>)
        requires
            old(self).wf(),
        ensures
            final(self).wf(),
            old(self)@.rooms.len() < usize::MAX ==> r == Ok::<RoomId, GraphError>(
                RoomId(old(self)@.rooms.len() as usize),
            ) && final(self)@ == old(self)@.add_room(name@),
            old(self)@.rooms.len() == usize::MAX ==> r == Err::<RoomId, GraphError>(
                GraphError::TooManyHandles,
            ) && final(self)@ == old(self)@,
    {
        if self.rooms.len() == usize::MAX {
            return Err(GraphError::TooManyHandles);
        }
        let id = RoomId(self.rooms.len());
        let ghost before = self@;
        self.rooms.push(Room { name, members: Vec::new(), handles: 1, live: true });
        assert(self@.rooms =~= before.add_room(name@).rooms);
        assert(self@.users =~= before.users);
        proof {
            crate::model::lemma_add_room_wf(before, name@);
        }
        Ok(id)
    }

    /// Takes another outside owning reference to room `r`.
    pub fn retain_room(&mut self, r: RoomId) -> (res: Result<(), GraphError>)
        requires
            old(self).wf(),
        ensures
            final(self).wf(),
            !old(self)@.has_room(r) ==> res == Err::<(), GraphError>(GraphError::UnknownRoom),
            old(self)@.has_room(r) && !old(self)@.room(r).live ==> res == Err::<(), GraphError>(
                GraphError::RoomDestroyed,
            ),
            old(self)@.has_room(r) && old(self)@.room(r).live && old(self)@.room(r).handles
                == u64::MAX ==> res == Err::<(), GraphError>(GraphError::TooManyHandles),
            res is Err ==> final(self)@ == old(self)@,
            old(self)@.has_room(r) && old(self)@.room(r).live && old(self)@.room(r).handles
                < u64::MAX ==> res is Ok && final(self)@ == old(self)@.retain_room(r),
    {
        if r.0 >= self.rooms.len() {
            return Err(GraphError::UnknownRoom);
        }
        if !self.rooms[r.0].live {
            return Err(GraphError::RoomDestroyed);
        }
        if self.rooms[r.0].handles == u64::MAX {
            return Err(GraphError::TooManyHandles);
        }
        let ghost before = self@;
        self.rooms[r.0].handles = self.rooms[r.0].handles + 1;
        assert(self@.rooms =~= before.retain_room(r).rooms);
        assert(self@.users =~= before.users);
        proof {
            crate::model::lemma_retain_room_wf(before, r);
        }
        Ok(())
    }

    /// Drops one outside owning reference to room `r`. Returns whether the room
    /// died, which happens when no handle and no live user keeps it.
    pub fn release_room(&mut self, r: RoomId) -> (res: Result<bool, GraphError>)
        requires
            old(self).wf(),
        ensures
            final(self).wf(),
            !old(self)@.has_room(r) ==> res == Err::<bool, GraphError>(GraphError::UnknownRoom),
            old(self)@.has_room(r) && !old(self)@.room(r).live ==> res == Err::<bool, GraphError>(
                GraphError::RoomDestroyed,
            ),
            old(self)@.has_room(r) && old(self)@.room(r).live && old(self)@.room(r).handles == 0
                ==> res == Err::<bool, GraphError>(GraphError::NoHandle),
            res is Err ==> final(self)@ == old(self)@,
            old(self)@.has_room(r) && old(self)@.room(r).live && old(self)@.room(r).handles > 0
                ==> res == Ok::<bool, GraphError>(!final(self)@.room(r).live) && final(self)@
                == old(self)@.release_room(r),
    {
        if r.0 >= self.rooms.len() {
            return Err(GraphError::UnknownRoom);
        }
        if !self.rooms[r.0].live {
            return Err(GraphError::RoomDestroyed);
        }
        if self.rooms[r.0].handles == 0 {
            return Err(GraphError::NoHandle);
        }
        let ghost before = self@;
        proof {
            crate::model::lemma_owned_iff_members(before, r);
        }
        let handles = self.rooms[r.0].handles - 1;
        let live = handles > 0 || self.rooms[r.0].members.len() > 0;
        self.rooms[r.0].handles = handles;
        self.rooms[r.0].live = live;
        assert(self@.rooms =~= before.release_room(r).rooms);
        assert(self@.users =~= before.users);
        proof {
            crate::model::lemma_release_room_wf(before, r);
        }
        Ok(!live)
    }

    /// Creates a live user owning `rooms` (at least one, each live) and
    /// registers a back-reference to it, once, in each of those rooms. The
    /// returned handle is the user's one owning reference.
    pub fn add_user(&mut self, name: String, rooms: Vec<RoomId>) -> (res: Result<
        UserId,
        GraphError,
    >)
        requires
            old(self).wf(),
        ensures
            final(self).wf(),
            rooms@.len() == 0 ==> res == Err::<UserId, GraphError>(GraphError::NoRooms),
            rooms@.len() > 0 && (exists|i: int|
                0 <= i < rooms@.len() && !old(self)@.has_room(#[trigger] rooms@[i])) ==> res
                == Err::<UserId, GraphError>(GraphError::UnknownRoom),
            rooms@.len() > 0 && (forall|i: int|
                0 <= i < rooms@.len() ==> old(self)@.has_room(#[trigger] rooms@[i])) && (exists|
                i: int,
            |
                0 <= i < rooms@.len() && !old(self)@.room(#[trigger] rooms@[i]).live) ==> res
                == Err::<UserId, GraphError>(GraphError::RoomDestroyed),
            rooms@.len() > 0 && (forall|i: int|
                0 <= i < rooms@.len() ==> old(self)@.has_room(#[trigger] rooms@[i]) && old(
                    self,
                )@.room(rooms@[i]).live) && old(self)@.users.len() == usize::MAX ==> res == Err::<
                UserId,
                GraphError,
            >(GraphError::TooManyHandles),
            res is Err ==> final(self)@ == old(self)@,
            rooms@.len() > 0 && (forall|i: int|
                0 <= i < rooms@.len() ==> old(self)@.has_room(#[trigger] rooms@[i]) && old(
                    self,
                )@.room(rooms@[i]).live) && old(self)@.users.len() < usize::MAX ==> res
                == Ok::<UserId, GraphError>(old(self)@.next_user()) && final(self)@ == old(
                self,
            )@.add_user(name@, rooms@),
    {
        if rooms.len() == 0 {
            return Err(GraphError::NoRooms);
        }
        let mut j: usize = 0;
        while j < rooms.len()
            invariant
                self.wf(),
                j <= rooms@.len(),
                forall|i: int| 0 <= i < j ==> self@.has_room(#[trigger] rooms@[i]),
            decreases rooms@.len() - j,
        {
            if rooms[j].0 >= self.rooms.len() {
                return Err(GraphError::UnknownRoom);
            }
            j = j + 1;
        }
        let mut j: usize = 0;
        while j < rooms.len()
            invariant
                self.wf(),
                j <= rooms@.len(),
                forall|i: int| 0 <= i < rooms@.len() ==> self@.has_room(#[trigger] rooms@[i]),
                forall|i: int| 0 <= i < j ==> self@.room(#[trigger] rooms@[i]).live,
            decreases rooms@.len() - j,
        {
            if !self.rooms[rooms[j].0].live {
                return Err(GraphError::RoomDestroyed);
            }
            j = j + 1;
        }
        if self.users.len() == usize::MAX {
            return Err(GraphError::TooManyHandles);
        }
        let ghost before = self@;
        let u = UserId(self.users.len());
        let mut j: usize = 0;
        while j < rooms.len()
            invariant
                before.wf(),
                u == before.next_user(),
                j <= rooms@.len(),
                forall|i: int| 0 <= i < rooms@.len() ==> before.has_room(#[trigger] rooms@[i]),
                self@.users == before.users,
                self@.rooms.len() == before.rooms.len(),
                forall|i: int|
                    0 <= i < before.rooms.len() ==> #[trigger] self@.rooms[i] == (if rooms@.take(
                        j as int,
                    ).contains(RoomId(i as usize)) {
                        RoomModel { members: before.rooms[i].members.push(u), ..before.rooms[i] }
                    } else {
                        before.rooms[i]
                    }),
            decreases rooms@.len() - j,
        {
            let r = rooms[j];
            let n = self.rooms[r.0].members.len();
            let fresh = n == 0 || self.rooms[r.0].members[n - 1].0 != u.0;
            proof {
                let ri = r.0 as int;
                assert(RoomId(ri as usize) == r);
                assert(rooms@.take(j + 1) =~= rooms@.take(j as int).push(r));
                if rooms@.take(j as int).contains(r) {
                    assert(self@.rooms[ri].members.last() == u);
                    assert(!fresh);
                } else {
                    assert(self@.rooms[ri] == before.rooms[ri]);
                    if n > 0 {
                        assert(before.owns(before.room(r).members[n - 1], r));
                    }
                    assert(fresh);
                }
            }
            let ghost mid = self@;
            if fresh {
                self.rooms[r.0].members.push(u);
            }
            proof {
                assert forall|i: int| 0 <= i < before.rooms.len() implies #[trigger] self@.rooms[i]
                    == (if rooms@.take(j + 1).contains(RoomId(i as usize)) {
                    RoomModel { members: before.rooms[i].members.push(u), ..before.rooms[i] }
                } else {
                    before.rooms[i]
                }) by {
                    let x = RoomId(i as usize);
                    assert(mid.rooms[i] == (if rooms@.take(j as int).contains(x) {
                        RoomModel { members: before.rooms[i].members.push(u), ..before.rooms[i] }
                    } else {
                        before.rooms[i]
                    }));
                    if x != r {
                        assert(i != r.0);
                        assert(self@.rooms[i] == mid.rooms[i]);
                        let t0 = rooms@.take(j as int);
                        let t1 = rooms@.take(j + 1);
                        if t1.contains(x) {
                            let k = choose|k: int| 0 <= k < t1.len() && #[trigger] t1[k] == x;
                            assert(t0[k] == x);
                        }
                        if t0.contains(x) {
                            let k = choose|k: int| 0 <= k < t0.len() && #[trigger] t0[k] == x;
                            assert(t1[k] == x);
                        }
                    } else {
                        assert(rooms@.take(j + 1)[j as int] == x);
                    }
                }
            }
            j = j + 1;
        }
        self.users.push(User { name, rooms, handles: 1, live: true });
        proof {
            let target = before.add_user(name@, rooms@);
            assert(rooms@.take(rooms@.len() as int) =~= rooms@);
            assert(self@.users =~= target.users);
            assert(self@.rooms =~= target.rooms);
            crate::model::lemma_add_user_wf(before, name@, rooms@);
        }
        Ok(u)
    }

    /// Takes another owning reference to user `u`.
    pub fn retain_user(&mut self, u: UserId) -> (res: Result<(), GraphError>)
        requires
            old(self).wf(),
        ensures
            final(self).wf(),
            !old(self)@.has_user(u) ==> res == Err::<(), GraphError>(GraphError::UnknownUser),
            old(self)@.has_user(u) && !old(self)@.user(u).live ==> res == Err::<(), GraphError>(
                GraphError::UserDestroyed,
            ),
            old(self)@.has_user(u) && old(self)@.user(u).live && old(self)@.user(u).handles
                == u64::MAX ==> res == Err::<(), GraphError>(GraphError::TooManyHandles),
            res is Err ==> final(self)@ == old(self)@,
            old(self)@.has_user(u) && old(self)@.user(u).live && old(self)@.user(u).handles
                < u64::MAX ==> res is Ok && final(self)@ == old(self)@.retain_user(u),
    {
        if u.0 >= self.users.len() {
            return Err(GraphError::UnknownUser);
        }
        if !self.users[u.0].live {
            return Err(GraphError::UserDestroyed);
        }
        if self.users[u.0].handles == u64::MAX {
            return Err(GraphError::TooManyHandles);
        }
        let ghost before = self@;
        self.users[u.0].handles = self.users[u.0].handles + 1;
        assert(self@.users =~= before.retain_user(u).users);
        assert(self@.rooms =~= before.rooms);
        proof {
            crate::model::lemma_retain_user_wf(before, u);
        }
        Ok(())
    }

    /// Drops one owning reference to user `u`. The last one destroys the user:
    /// every room it belonged to is swept of back-references that no longer
    /// resolve, then the user's own references to those rooms are released,
    /// which destroys each room that nothing else keeps alive.
    pub fn release_user(&mut self, u: UserId) -> (res: Result<Released, GraphError>)
        requires
            old(self).wf(),
        ensures
            final(self).wf(),
            !old(self)@.has_user(u) ==> res is Err && res->Err_0 == GraphError::UnknownUser,
            old(self)@.has_user(u) && !old(self)@.user(u).live ==> res is Err && res->Err_0
                == GraphError::UserDestroyed,
            res is Err ==> final(self)@ == old(self)@,
            old(self)@.has_user(u) && old(self)@.user(u).live ==> {
                &&& res is Ok
                &&& final(self)@ == old(self)@.release_user(u)
                &&& res->Ok_0.user_destroyed == (old(self)@.user(u).handles == 1)
                &&& res->Ok_0.rooms_destroyed@.no_duplicates()
                &&& forall|r: RoomId|
                    res->Ok_0.rooms_destroyed@.contains(r) <==> old(self)@.has_room(r) && old(
                        self,
                    )@.room(r).live && !final(self)@.room(r).live
            },
    {
        if u.0 >= self.users.len() {
            return Err(GraphError::UnknownUser);
        }
        if !self.users[u.0].live {
            return Err(GraphError::UserDestroyed);
        }
        let ghost before = self@;
        proof {
            crate::model::lemma_release_user_wf(before, u);
        }
        if self.users[u.0].handles > 1 {
            self.users[u.0].handles = self.users[u.0].handles - 1;
            assert(self@.users =~= before.release_user(u).users);
            assert(self@.rooms =~= before.rooms);
            return Ok(Released { user_destroyed: false, rooms_destroyed: Vec::new() });
        }
        let ghost target = before.destroy_user(u);
        let ghost held = before.user(u).rooms;
        proof {
            crate::model::lemma_destroy_user_wf(before, u);
        }
        self.users[u.0].handles = 0;
        self.users[u.0].live = false;
        assert(self@.users =~= target.users);
        let mut destroyed: Vec<RoomId> = Vec::new();
        let mut j: usize = 0;
        while j < self.users[u.0].rooms.len()
            invariant
                before.wf(),
                target.wf(),
                before.has_user(u),
                target == before.destroy_user(u),
                held == before.user(u).rooms,
                forall|i: int| 0 <= i < held.len() ==> before.has_room(#[trigger] held[i]),
                forall|r: RoomId| #[trigger]
                    before.has_room(r) ==> target.room(r).live == (before.room(r).live && (
                    target.room(r).handles > 0 || target.room(r).members.len() > 0)),
                u.0 < self.users@.len(),
                self.users@[u.0 as int].rooms@ == held,
                self@.users == target.users,
                self@.rooms.len() == before.rooms.len(),
                0 <= j <= held.len(),
                forall|i: int|
                    0 <= i < before.rooms.len() ==> #[trigger] self@.rooms[i] == (if held.take(
                        j as int,
                    ).contains(RoomId(i as usize)) {
                        target.rooms[i]
                    } else {
                        before.rooms[i]
                    }),
                destroyed@.no_duplicates(),
                forall|r: RoomId|
                    #[trigger] destroyed@.contains(r) <==> before.has_room(r) && held.take(
                        j as int,
                    ).contains(r) && before.room(r).live && !target.room(r).live,
            decreases held.len() - j,
        {
            let r = self.users[u.0].rooms[j];
            let ghost ri = r.0 as int;
            let ghost t0 = held.take(j as int);
            let ghost t1 = held.take(j + 1);
            let ghost done = t0.contains(r);
            proof {
                assert(held[j as int] == r);
                assert(before.has_room(r));
                assert(RoomId(ri as usize) == r);
                assert(t1 =~= t0.push(r));
            }
            let kept = live_entries(&self.rooms[r.0].members, &self.users);
            proof {
                let cur = self@.rooms[ri].members;
                let keep = |v: UserId| live_in(self.users@, v);
                let m0 = before.room(r).members;
                if done {
                    assert(cur == m0.filter(crate::model::other_than(u)));
                    assert forall|i: int| 0 <= i < cur.len() implies #[trigger] keep(cur[i]) by {
                        assert(target.owns(target.room(r).members[i], r));
                    }
                    crate::model::lemma_filter_keeps_all(cur, keep);
                } else {
                    assert(cur == m0);
                    assert forall|i: int| 0 <= i < m0.len() implies #[trigger] keep(m0[i])
                        == crate::model::other_than(u)(m0[i]) by {
                        let v = m0[i];
                        assert(before.owns(v, r));
                        assert(self@.users[v.0 as int] == self.users@[v.0 as int]@);
                        if v != u {
                            assert(target.users[v.0 as int] == before.users[v.0 as int]);
                        }
                    }
                    crate::model::lemma_filter_agree(m0, keep, crate::model::other_than(u));
                }
                assert(kept@ == target.room(r).members);
            }
            let empty = kept.len() == 0;
            let was_live = self.rooms[r.0].live;
            let now_live = was_live && (self.rooms[r.0].handles > 0 || !empty);
            let ghost mid = self@;
            self.rooms[r.0].members = kept;
            self.rooms[r.0].live = now_live;
            proof {
                assert(self@.rooms[ri] == target.rooms[ri]);
            }
            let ghost d0 = destroyed@;
            proof {
                if done {
                    assert(was_live == target.room(r).live);
                    assert(now_live == was_live);
                } else {
                    assert(was_live == before.room(r).live);
                    assert(now_live == target.room(r).live);
                    assert(!d0.contains(r));
                }
            }
            if was_live && !now_live {
                destroyed.push(r);
            }
            proof {
                assert forall|x: RoomId| #[trigger] destroyed@.contains(x) <==> (d0.contains(x) || (x
                    == r && was_live && !now_live)) by {
                    if destroyed@.contains(x) {
                        let k = choose|k: int| 0 <= k < destroyed@.len() && destroyed@[k] == x;
                        if k < d0.len() {
                            assert(d0[k] == x);
                        }
                    }
                    if d0.contains(x) {
                        let k = choose|k: int| 0 <= k < d0.len() && d0[k] == x;
                        assert(destroyed@[k] == x);
                    }
                    if x == r && was_live && !now_live {
                        assert(destroyed@[d0.len() as int] == x);
                    }
                }
            }
            proof {
                assert forall|i: int| 0 <= i < before.rooms.len() implies #[trigger] self@.rooms[i]
                    == (if t1.contains(RoomId(i as usize)) {
                    target.rooms[i]
                } else {
                    before.rooms[i]
                }) by {
                    let x = RoomId(i as usize);
                    assert(mid.rooms[i] == (if t0.contains(x) {
                        target.rooms[i]
                    } else {
                        before.rooms[i]
                    }));
                    if x != r {
                        assert(i != ri);
                        if t1.contains(x) {
                            let k = choose|k: int| 0 <= k < t1.len() && #[trigger] t1[k] == x;
                            assert(t0[k] == x);
                        }
                        if t0.contains(x) {
                            let k = choose|k: int| 0 <= k < t0.len() && #[trigger] t0[k] == x;
                            assert(t1[k] == x);
                        }
                    } else {
                        assert(t1[j as int] == x);
                    }
                }
                assert forall|x: RoomId|
                    #[trigger] destroyed@.contains(x) <==> before.has_room(x) && t1.contains(x)
                        && before.room(x).live && !target.room(x).live by {
                    if x != r {
                        if t1.contains(x) {
                            let k = choose|k: int| 0 <= k < t1.len() && #[trigger] t1[k] == x;
                            assert(t0[k] == x);
                        }
                        if t0.contains(x) {
                            let k = choose|k: int| 0 <= k < t0.len() && #[trigger] t0[k] == x;
                            assert(t1[k] == x);
                        }
                    } else {
                        assert(t1[j as int] == x);
                    }
                }
            }
            j = j + 1;
        }
        proof {
            assert(held.take(held.len() as int) =~= held);
            assert forall|i: int| 0 <= i < before.rooms.len() implies #[trigger] self@.rooms[i]
                == target.rooms[i] by {
                let x = RoomId(i as usize);
                if !held.contains(x) {
                    assert(before.has_room(x));
                    assert(x.0 as int == i);
                    assert forall|k: int| 0 <= k < before.room(x).members.len() implies #[trigger] before.room(x).members[k] != u by {
                        assert(before.owns(before.room(x).members[k], x));
                    }
                    crate::model::lemma_filter_keeps_all(before.room(x).members, crate::model::other_than(u));
                    if before.room(x).live && before.room(x).handles == 0 {
                        let w = choose|w: UserId| before.owns(w, x);
                        assert(before.room(x).members.contains(w));
                    }
                }
            }
            assert(self@.rooms =~= target.rooms);
            assert(self@ == before.release_user(u));
        }
        Ok(Released { user_destroyed: true, rooms_destroyed: destroyed })
    }

    /// The live users of room `r`, read through its back-references and
    /// skipping those that no longer resolve.
    pub fn users_in_room(&self, r: RoomId) -> (res: Result<Vec<UserId>, GraphError>)
        requires
            self.wf(),
        ensures
            !self@.has_room(r) ==> res == Err::<Vec<UserId>, GraphError>(GraphError::UnknownRoom),
            self@.has_room(r) && !self@.room(r).live ==> res == Err::<Vec<UserId>, GraphError>(
                GraphError::RoomDestroyed,
            ),
            self@.has_room(r) && self@.room(r).live ==> res is Ok && res->Ok_0@ == self@.enumerate(
                r,
            ),
    {
        if r.0 >= self.rooms.len() {
            return Err(GraphError::UnknownRoom);
        }
        if !self.rooms[r.0].live {
            return Err(GraphError::RoomDestroyed);
        }
        let out = live_entries(&self.rooms[r.0].members, &self.users);
        let ghost m = self@;
        assert(out@ == m.enumerate(r)) by {
            let by_slot = |v: UserId| live_in(self.users@, v);
            let by_model = |v: UserId| m.resolves(v);
            assert(by_slot =~= by_model);
        }
        Ok(out)
    }

    /// The name of room `r`, if the graph has that room.
    pub fn room_name(&self, r: RoomId) -> (res: Option<&String>)
        ensures
            self@.has_room(r) ==> res is Some && res->Some_0@ == self@.room(r).name,
            !self@.has_room(r) ==> res is None,
    {
        if r.0 < self.rooms.len() {
            Some(&self.rooms[r.0].name)
        } else {
            None
        }
    }

    /// The name of user `u`, if the graph has that user.
    pub fn user_name(&self, u: UserId) -> (res: Option<&String>)
        ensures
            self@.has_user(u) ==> res is Some && res->Some_0@ == self@.user(u).name,
            !self@.has_user(u) ==> res is None,
    {
        if u.0 < self.users.len() {
            Some(&self.users[u.0].name)
        } else {
            None
        }
    }

    /// The rooms that user `u` holds owning references to, if the graph has that user.
    pub fn user_rooms(&self, u: UserId) -> (res: Option<&Vec<RoomId>>)
        ensures
            self@.has_user(u) ==> res is Some && res->Some_0@ == self@.user(u).rooms,
            !self@.has_user(u) ==> res is None,
    {
        if u.0 < self.users.len() {
            Some(&self.users[u.0].rooms)
        } else {
            None
        }
    }

    /// Whether `r` names a room of the graph that has not been destroyed.
    pub fn room_is_live(&self, r: RoomId) -> (res: bool)
        ensures
            res == (self@.has_room(r) && self@.room(r).live),
    {
        r.0 < self.rooms.len() && self.rooms[r.0].live
    }

    /// Whether `u` names a user of the graph that has not been destroyed.
    pub fn user_is_live(&self, u: UserId) -> (res: bool)
        ensures
            res == self@.resolves(u),
    {
        u.0 < self.users.len() && self.users[u.0].live
    }
}

} // verus!
