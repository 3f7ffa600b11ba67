use vstd::prelude::*;

verus! {

/// Handle of a room: its index in the graph's arena of rooms.
#[derive(Clone, Copy, PartialEq, Eq, Structural, Debug, Hash)]
pub struct RoomId(pub usize);

/// Handle of a user: its index in the graph's arena of users.
#[derive(Clone, Copy, PartialEq, Eq, Structural, Debug, Hash)]
pub struct UserId(pub usize);

/// Abstract state of one room.
pub struct RoomModel {
    pub name: Seq<char>,
    /// Non-owning back-references to the users present, in order of arrival.
    pub members: Seq<UserId>,
    /// Owning references held outside the graph (by whoever created or cloned a handle).
    pub handles: nat,
    pub live: bool,
}

/// Abstract state of one user.
pub struct UserModel {
    pub name: Seq<char>,
    /// Owning references to the rooms the user belongs to.
    pub rooms: Seq<RoomId>,
    /// Owning references to the user itself.
    pub handles: nat,
    pub live: bool,
}

/// Abstract state of a whole room/user graph. Slots are never reused, so an
/// index names the same entity for the graph's whole lifetime.
pub struct GraphModel {
    pub rooms: Seq<RoomModel>,
    pub users: Seq<UserModel>,
}

/// Holds of every user handle but `u`.
pub open spec fn other_than(u: UserId) -> spec_fn(UserId) -> bool {
    |v: UserId| v != u
}

impl GraphModel {
    pub open spec fn has_room(self, r: RoomId) -> bool {
        r.0 < self.rooms.len()
    }

    pub open spec fn has_user(self, u: UserId) -> bool {
        u.0 < self.users.len()
    }

    pub open spec fn room(self, r: RoomId) -> RoomModel {
        self.rooms[r.0 as int]
    }

    pub open spec fn user(self, u: UserId) -> UserModel {
        self.users[u.0 as int]
    }

    /// A back-reference to `u` resolves to a live user.
    pub open spec fn resolves(self, u: UserId) -> bool {
        self.has_user(u) && self.user(u).live
    }

    /// The live user `u` holds an owning reference to room `r`.
    pub open spec fn owns(self, u: UserId, r: RoomId) -> bool {
        self.resolves(u) && self.user(u).rooms.contains(r)
    }

    /// Some live user keeps room `r` alive.
    pub open spec fn owned(self, r: RoomId) -> bool {
        exists|u: UserId| #[trigger] self.owns(u, r)
    }

    /// What enumerating room `r` yields: its back-references that still resolve.
    pub open spec fn enumerate(self, r: RoomId) -> Seq<UserId> {
        self.room(r).members.filter(|u: UserId| self.resolves(u))
    }

    pub open spec fn wf(self) -> bool {
        &&& self.rooms.len() <= usize::MAX
        &&& self.users.len() <= usize::MAX
        // every owning reference of a user names a room of the graph
        &&& forall|u: UserId, i: int|
            self.has_user(u) && 0 <= i < self.user(u).rooms.len() ==> self.has_room(
                #[trigger] self.user(u).rooms[i],
            )
        // every back-reference resolves, to a user that owns the room
        &&& forall|r: RoomId, i: int|
            self.has_room(r) && 0 <= i < self.room(r).members.len() ==> self.owns(
                #[trigger] self.room(r).members[i],
                r,
            )
        // a user lives exactly while someone holds a reference to it
        &&& forall|u: UserId| #[trigger]
            self.has_user(u) ==> (self.user(u).live <==> self.user(u).handles > 0)
        // a room lives exactly while a handle or a live user keeps it
        &&& forall|r: RoomId| #[trigger]
            self.has_room(r) ==> (self.room(r).live <==> (self.room(r).handles > 0 || self.owned(r)))
        // every live user is registered in each room it owns
        &&& forall|u: UserId, r: RoomId| #[trigger]
            self.owns(u, r) ==> self.room(r).members.contains(u)
    }

    pub open spec fn empty() -> GraphModel {
        GraphModel { rooms: seq![], users: seq![] }
    }

    pub open spec fn add_room(self, name: Seq<char>) -> GraphModel {
        GraphModel {
            rooms: self.rooms.push(RoomModel { name, members: seq![], handles: 1, live: true }),
            users: self.users,
        }
    }

    pub open spec fn retain_room(self, r: RoomId) -> GraphModel {
        let room = self.room(r);
        GraphModel {
            rooms: self.rooms.update(r.0 as int, RoomModel { handles: room.handles + 1, ..room }),
            users: self.users,
        }
    }

    /// Drops one outside handle; the room dies when neither a handle nor a live user is left.
    pub open spec fn release_room(self, r: RoomId) -> GraphModel {
        let room = self.room(r);
        let handles = (room.handles - 1) as nat;
        GraphModel {
            rooms: self.rooms.update(
                r.0 as int,
                RoomModel { handles, live: handles > 0 || self.owned(r), ..room },
            ),
            users: self.users,
        }
    }

    pub open spec fn next_user(self) -> UserId {
        UserId(self.users.len() as usize)
    }

    /// Adds a live user owning `rooms`, registered once in each of them.
    pub open spec fn add_user(self, name: Seq<char>, rooms: Seq<RoomId>) -> GraphModel {
        let u = self.next_user();
        GraphModel {
            rooms: self.rooms.map(
                |i: int, room: RoomModel|
                    if rooms.contains(RoomId(i as usize)) {
                        RoomModel { members: room.members.push(u), ..room }
                    } else {
                        room
                    },
            ),
            users: self.users.push(UserModel { name, rooms, handles: 1, live: true }),
        }
    }

    pub open spec fn retain_user(self, u: UserId) -> GraphModel {
        let user = self.user(u);
        GraphModel {
            rooms: self.rooms,
            users: self.users.update(u.0 as int, UserModel { handles: user.handles + 1, ..user }),
        }
    }

    /// Drops one reference to `u`; the last one destroys the user.
    pub open spec fn release_user(self, u: UserId) -> GraphModel {
        let user = self.user(u);
        if user.handles > 1 {
            GraphModel {
                rooms: self.rooms,
                users: self.users.update(
                    u.0 as int,
                    UserModel { handles: (user.handles - 1) as nat, ..user },
                ),
            }
        } else {
            self.destroy_user(u)
        }
    }

    /// The users once `u` is dead, before any room is touched.
    pub open spec fn users_without(self, u: UserId) -> Seq<UserModel> {
        self.users.update(u.0 as int, UserModel { handles: 0, live: false, ..self.user(u) })
    }

    /// Destroying `u`: every room forgets it, and each room that only `u` kept alive dies.
    pub open spec fn destroy_user(self, u: UserId) -> GraphModel {
        let users = self.users_without(u);
        let mid = GraphModel { rooms: self.rooms, users };
        GraphModel {
            rooms: self.rooms.map(
                |i: int, room: RoomModel|
                    RoomModel {
                        members: room.members.filter(other_than(u)),
                        live: room.live && (room.handles > 0 || mid.owned(RoomId(i as usize))),
                        ..room
                    },
            ),
            users,
        }
    }
}

/// Adding a room keeps the graph well formed.
pub proof fn lemma_add_room_wf(m: GraphModel, name: Seq<char>)
    requires
        m.wf(),
        m.rooms.len() < usize::MAX,
    ensures
        m.add_room(name).wf(),
{
    let n = m.add_room(name);
    assert forall|u: UserId, r: RoomId| n.owns(u, r) <==> m.owns(u, r) by {}
    assert forall|r: RoomId| n.owned(r) <==> m.owned(r) by {
        if n.owned(r) {
            let w = choose|w: UserId| n.owns(w, r);
            assert(m.owns(w, r));
        }
        if m.owned(r) {
            let w = choose|w: UserId| m.owns(w, r);
            assert(n.owns(w, r));
        }
    }
    assert forall|r: RoomId, i: int|
        n.has_room(r) && 0 <= i < n.room(r).members.len() implies n.owns(
        #[trigger] n.room(r).members[i],
        r,
    ) by {
        assert(m.owns(m.room(r).members[i], r));
    }
    assert forall|u: UserId, i: int|
        n.has_user(u) && 0 <= i < n.user(u).rooms.len() implies n.has_room(
        #[trigger] n.user(u).rooms[i],
    ) by {
        assert(m.has_room(m.user(u).rooms[i]));
    }
    assert forall|u: UserId, r: RoomId| #[trigger] n.owns(u, r) implies n.room(r).members.contains(u) by {
        assert(m.owns(u, r));
        assert(m.has_room(r));
    }
    assert forall|r: RoomId| #[trigger] n.has_room(r) implies (n.room(r).live <==> (n.room(r).handles
        > 0 || n.owned(r))) by {
        if r.0 < m.rooms.len() {
            assert(m.has_room(r));
            assert(n.room(r) == m.room(r));
        }
    }
    assert forall|u: UserId| #[trigger] n.has_user(u) implies (n.user(u).live <==> n.user(u).handles
        > 0) by {
        assert(m.has_user(u));
    }
}

/// A change of the rooms' counts and liveness alone, consistent with who owns
/// them, keeps the graph well formed.
proof fn lemma_recount_rooms_wf(m: GraphModel, n: GraphModel)
    requires
        m.wf(),
        n.users == m.users,
        n.rooms.len() == m.rooms.len(),
        forall|r: RoomId| #[trigger] n.has_room(r) ==> n.room(r).members == m.room(r).members,
        forall|r: RoomId| #[trigger]
            n.has_room(r) ==> (n.room(r).live <==> (n.room(r).handles > 0 || m.owned(r))),
    ensures
        n.wf(),
{
    assert forall|u: UserId, r: RoomId| n.owns(u, r) <==> m.owns(u, r) by {}
    assert forall|r: RoomId| n.owned(r) <==> m.owned(r) by {
        if n.owned(r) {
            let w = choose|w: UserId| n.owns(w, r);
            assert(m.owns(w, r));
        }
        if m.owned(r) {
            let w = choose|w: UserId| m.owns(w, r);
            assert(n.owns(w, r));
        }
    }
    assert forall|r: RoomId, i: int|
        n.has_room(r) && 0 <= i < n.room(r).members.len() implies n.owns(
        #[trigger] n.room(r).members[i],
        r,
    ) by {
        assert(m.owns(m.room(r).members[i], r));
    }
    assert forall|u: UserId, r: RoomId| #[trigger] n.owns(u, r) implies n.room(r).members.contains(u) by {
        assert(m.owns(u, r));
        assert(m.has_room(r));
        assert(n.has_room(r));
    }
    assert forall|u: UserId, i: int|
        n.has_user(u) && 0 <= i < n.user(u).rooms.len() implies n.has_room(
        #[trigger] n.user(u).rooms[i],
    ) by {
        assert(m.has_room(m.user(u).rooms[i]));
    }
    assert forall|u: UserId| #[trigger] n.has_user(u) implies (n.user(u).live <==> n.user(u).handles
        > 0) by {
        assert(m.has_user(u));
    }
}

/// Taking another outside handle to a live room keeps the graph well formed.
pub proof fn lemma_retain_room_wf(m: GraphModel, r: RoomId)
    requires
        m.wf(),
        m.has_room(r),
        m.room(r).live,
    ensures
        m.retain_room(r).wf(),
{
    let n = m.retain_room(r);
    assert forall|x: RoomId| #[trigger] n.has_room(x) implies n.room(x).members == m.room(x).members
        && (n.room(x).live <==> (n.room(x).handles > 0 || m.owned(x))) by {
        assert(m.has_room(x));
    }
    lemma_recount_rooms_wf(m, n);
}

/// Dropping an outside handle of a live room keeps the graph well formed.
pub proof fn lemma_release_room_wf(m: GraphModel, r: RoomId)
    requires
        m.wf(),
        m.has_room(r),
        m.room(r).handles > 0,
    ensures
        m.release_room(r).wf(),
{
    let n = m.release_room(r);
    assert forall|x: RoomId| #[trigger] n.has_room(x) implies n.room(x).members == m.room(x).members
        && (n.room(x).live <==> (n.room(x).handles > 0 || m.owned(x))) by {
        assert(m.has_room(x));
    }
    lemma_recount_rooms_wf(m, n);
}

/// In a well-formed graph a room is kept by a live user exactly when its list
/// of back-references is not empty.
pub proof fn lemma_owned_iff_members(m: GraphModel, r: RoomId)
    requires
        m.wf(),
        m.has_room(r),
    ensures
        m.owned(r) <==> m.room(r).members.len() > 0,
{
    if m.room(r).members.len() > 0 {
        assert(m.owns(m.room(r).members[0], r));
    }
    if m.owned(r) {
        let w = choose|w: UserId| m.owns(w, r);
        assert(m.room(r).members.contains(w));
    }
}

/// Adding a user that owns live rooms of the graph keeps the graph well formed.
pub proof fn lemma_add_user_wf(m: GraphModel, name: Seq<char>, rooms: Seq<RoomId>)
    requires
        m.wf(),
        m.users.len() < usize::MAX,
        forall|i: int| 0 <= i < rooms.len() ==> m.has_room(#[trigger] rooms[i]) && m.room(
            rooms[i],
        ).live,
    ensures
        m.add_user(name, rooms).wf(),
{
    let n = m.add_user(name, rooms);
    let u = m.next_user();
    assert forall|r: RoomId| #[trigger] n.has_room(r) implies n.room(r) == (if rooms.contains(r) {
        RoomModel { members: m.room(r).members.push(u), ..m.room(r) }
    } else {
        m.room(r)
    }) by {
        assert(RoomId(r.0 as int as usize) == r);
    }
    assert forall|v: UserId, r: RoomId| #[trigger]
        n.owns(v, r) <==> (m.owns(v, r) || (v == u && rooms.contains(r))) by {
        if v != u && n.has_user(v) {
            assert(v.0 < m.users.len());
            assert(n.user(v) == m.user(v));
        }
    }
    assert forall|u2: UserId, i: int|
        n.has_user(u2) && 0 <= i < n.user(u2).rooms.len() implies n.has_room(
        #[trigger] n.user(u2).rooms[i],
    ) by {
        if u2.0 < m.users.len() {
            assert(m.has_room(m.user(u2).rooms[i]));
        } else {
            assert(m.has_room(rooms[i]));
        }
    }
    assert forall|r: RoomId, i: int|
        n.has_room(r) && 0 <= i < n.room(r).members.len() implies n.owns(
        #[trigger] n.room(r).members[i],
        r,
    ) by {
        if i < m.room(r).members.len() {
            assert(m.owns(m.room(r).members[i], r));
        }
    }
    assert forall|v: UserId| #[trigger] n.has_user(v) implies (n.user(v).live <==> n.user(v).handles
        > 0) by {
        if v.0 < m.users.len() {
            assert(m.has_user(v));
        }
    }
    assert forall|r: RoomId| #[trigger] n.has_room(r) implies (n.room(r).live <==> (n.room(r).handles
        > 0 || n.owned(r))) by {
        assert(m.has_room(r));
        if n.owned(r) {
            let w = choose|w: UserId| n.owns(w, r);
            if m.owns(w, r) {
                assert(m.owned(r));
            } else {
                let k = choose|k: int| 0 <= k < rooms.len() && rooms[k] == r;
                assert(m.room(rooms[k]).live);
            }
        }
        if m.owned(r) {
            let w = choose|w: UserId| m.owns(w, r);
            assert(n.owns(w, r));
        }
    }
    assert forall|v: UserId, r: RoomId| #[trigger] n.owns(v, r) implies n.room(r).members.contains(v) by {
        if v == u {
            let k = choose|k: int| 0 <= k < rooms.len() && rooms[k] == r;
            assert(m.has_room(rooms[k]));
            assert(n.room(r).members[m.room(r).members.len() as int] == u);
        } else {
            assert(m.owns(v, r));
            assert(m.has_room(r));
            let k = choose|k: int| 0 <= k < m.room(r).members.len() && m.room(r).members[k] == v;
            assert(n.room(r).members[k] == v);
        }
    }
}

/// Filtering by two predicates that agree on every element gives the same sequence.
pub(crate) proof fn lemma_filter_agree(s: Seq<UserId>, p: spec_fn(UserId) -> bool, q: spec_fn(UserId) -> bool)
    requires
        forall|i: int| 0 <= i < s.len() ==> p(#[trigger] s[i]) == q(s[i]),
    ensures
        s.filter(p) == s.filter(q),
    decreases s.len(),
{
    reveal(Seq::filter);
    if s.len() > 0 {
        let t = s.drop_last();
        assert forall|i: int| 0 <= i < t.len() implies p(#[trigger] t[i]) == q(t[i]) by {
            assert(t[i] == s[i]);
        }
        lemma_filter_agree(t, p, q);
        assert(p(s[s.len() - 1]) == q(s[s.len() - 1]));
    }
}

/// Filtering by a predicate that holds of every element changes nothing.
pub(crate) proof fn lemma_filter_keeps_all(s: Seq<UserId>, p: spec_fn(UserId) -> bool)
    requires
        forall|i: int| 0 <= i < s.len() ==> p(#[trigger] s[i]),
    ensures
        s.filter(p) == s,
    decreases s.len(),
{
    reveal(Seq::filter);
    if s.len() > 0 {
        let t = s.drop_last();
        assert forall|i: int| 0 <= i < t.len() implies p(#[trigger] t[i]) by {
            assert(t[i] == s[i]);
        }
        lemma_filter_keeps_all(t, p);
        assert(p(s[s.len() - 1]));
        assert(t.push(s.last()) =~= s);
    }
}

/// Destroying a live user keeps the graph well formed; afterwards a room
/// lives exactly if it lived before and still has a handle or a back-reference.
pub proof fn lemma_destroy_user_wf(m: GraphModel, u: UserId)
    requires
        m.wf(),
        m.has_user(u),
    ensures
        m.destroy_user(u).wf(),
        forall|r: RoomId| #[trigger]
            m.has_room(r) ==> m.destroy_user(u).room(r).live == (m.room(r).live && (
            m.destroy_user(u).room(r).handles > 0 || m.destroy_user(u).room(r).members.len() > 0)),
{
    broadcast use vstd::seq_lib::group_filter_ensures;

    let n = m.destroy_user(u);
    let mid = GraphModel { rooms: m.rooms, users: m.users_without(u) };
    assert forall|r: RoomId| #[trigger] n.has_room(r) implies n.room(r) == (RoomModel {
        members: m.room(r).members.filter(other_than(u)),
        live: m.room(r).live && (m.room(r).handles > 0 || mid.owned(r)),
        ..m.room(r)
    }) by {
        assert(RoomId(r.0 as int as usize) == r);
    }
    assert forall|v: UserId, r: RoomId| #[trigger]
        n.owns(v, r) <==> (m.owns(v, r) && v != u) by {
        if v != u && n.has_user(v) {
            assert(n.user(v) == m.user(v));
        }
    }
    assert forall|r: RoomId| n.owned(r) <==> mid.owned(r) by {
        if n.owned(r) {
            let w = choose|w: UserId| n.owns(w, r);
            assert(mid.owns(w, r));
        }
        if mid.owned(r) {
            let w = choose|w: UserId| mid.owns(w, r);
            assert(n.owns(w, r));
        }
    }
    assert forall|u2: UserId, i: int|
        n.has_user(u2) && 0 <= i < n.user(u2).rooms.len() implies n.has_room(
        #[trigger] n.user(u2).rooms[i],
    ) by {
        assert(m.has_room(m.user(u2).rooms[i]));
    }
    assert forall|r: RoomId, i: int|
        n.has_room(r) && 0 <= i < n.room(r).members.len() implies n.owns(
        #[trigger] n.room(r).members[i],
        r,
    ) by {
        let p = other_than(u);
        let x = n.room(r).members[i];
        assert(m.room(r).members.filter(p).contains(x));
        m.room(r).members.lemma_filter_contains_rev(p, x);
        let k = choose|k: int| 0 <= k < m.room(r).members.len() && m.room(r).members[k] == x;
        assert(m.owns(m.room(r).members[k], r));
    }
    assert forall|v: UserId| #[trigger] n.has_user(v) implies (n.user(v).live <==> n.user(v).handles
        > 0) by {
        assert(m.has_user(v));
    }
    assert forall|v: UserId, r: RoomId| #[trigger] n.owns(v, r) implies n.room(r).members.contains(v) by {
        assert(m.owns(v, r));
        assert(m.has_room(r));
        let k = choose|k: int| 0 <= k < m.room(r).members.len() && m.room(r).members[k] == v;
        m.room(r).members.lemma_filter_contains(other_than(u), k);
    }
    assert forall|r: RoomId| #[trigger] n.has_room(r) implies (n.room(r).live <==> (n.room(r).handles
        > 0 || n.owned(r))) by {
        assert(m.has_room(r));
        if mid.owned(r) {
            let w = choose|w: UserId| mid.owns(w, r);
            assert(m.owns(w, r));
        }
    }
    assert forall|r: RoomId| #[trigger] m.has_room(r) implies n.room(r).live == (m.room(r).live && (
    n.room(r).handles > 0 || n.room(r).members.len() > 0)) by {
        assert(n.has_room(r));
        lemma_owned_iff_members(n, r);
    }
}

/// Changing the count of a live user's references, without reaching zero,
/// keeps the graph well formed.
proof fn lemma_recount_user_wf(m: GraphModel, u: UserId, handles: nat)
    requires
        m.wf(),
        m.has_user(u),
        m.user(u).live,
        handles > 0,
    ensures
        (GraphModel {
            rooms: m.rooms,
            users: m.users.update(u.0 as int, UserModel { handles, ..m.user(u) }),
        }).wf(),
{
    let n = GraphModel {
        rooms: m.rooms,
        users: m.users.update(u.0 as int, UserModel { handles, ..m.user(u) }),
    };
    assert forall|v: UserId, r: RoomId| n.owns(v, r) <==> m.owns(v, r) by {
        if v != u && n.has_user(v) {
            assert(n.user(v) == m.user(v));
        }
    }
    assert forall|r: RoomId| n.owned(r) <==> m.owned(r) by {
        if n.owned(r) {
            let w = choose|w: UserId| n.owns(w, r);
            assert(m.owns(w, r));
        }
        if m.owned(r) {
            let w = choose|w: UserId| m.owns(w, r);
            assert(n.owns(w, r));
        }
    }
    assert forall|u2: UserId, i: int|
        n.has_user(u2) && 0 <= i < n.user(u2).rooms.len() implies n.has_room(
        #[trigger] n.user(u2).rooms[i],
    ) by {
        assert(m.has_room(m.user(u2).rooms[i]));
    }
    assert forall|r: RoomId, i: int|
        n.has_room(r) && 0 <= i < n.room(r).members.len() implies n.owns(
        #[trigger] n.room(r).members[i],
        r,
    ) by {
        assert(m.owns(m.room(r).members[i], r));
    }
    assert forall|v: UserId| #[trigger] n.has_user(v) implies (n.user(v).live <==> n.user(v).handles
        > 0) by {
        assert(m.has_user(v));
    }
    assert forall|r: RoomId| #[trigger] n.has_room(r) implies (n.room(r).live <==> (n.room(r).handles
        > 0 || n.owned(r))) by {
        assert(m.has_room(r));
    }
    assert forall|v: UserId, r: RoomId| #[trigger] n.owns(v, r) implies n.room(r).members.contains(v) by {
        assert(m.owns(v, r));
    }
}

/// Taking another reference to a live user keeps the graph well formed.
pub proof fn lemma_retain_user_wf(m: GraphModel, u: UserId)
    requires
        m.wf(),
        m.has_user(u),
        m.user(u).live,
    ensures
        m.retain_user(u).wf(),
{
    lemma_recount_user_wf(m, u, m.user(u).handles + 1);
}

/// Dropping a reference to a live user keeps the graph well formed.
pub proof fn lemma_release_user_wf(m: GraphModel, u: UserId)
    requires
        m.wf(),
        m.has_user(u),
        m.user(u).live,
    ensures
        m.release_user(u).wf(),
{
    if m.user(u).handles > 1 {
        lemma_recount_user_wf(m, u, (m.user(u).handles - 1) as nat);
    } else {
        lemma_destroy_user_wf(m, u);
    }
}

} // verus!
