//! Properties of the room/user graph that hold across operations, stated over
//! the abstract model that every operation of `Graph` is specified against.
use vstd::prelude::*;

use crate::model::{other_than, GraphModel, RoomId, UserId};

verus! {

/// No dangling use: in any graph reachable by the graph's operations (they all
/// keep it well formed), enumerating a room yields only live users, and
/// exactly the live users that own the room.
pub proof fn lemma_enumeration_yields_live_users(m: GraphModel, r: RoomId)
    requires
        m.wf(),
        m.has_room(r),
    ensures
        forall|i: int| 0 <= i < m.enumerate(r).len() ==> m.resolves(#[trigger] m.enumerate(r)[i]),
        forall|u: UserId| #[trigger] m.enumerate(r).contains(u) <==> m.owns(u, r),
        m.enumerate(r) == m.room(r).members,
{
    broadcast use vstd::seq_lib::group_filter_ensures;

    let members = m.room(r).members;
    assert forall|i: int| 0 <= i < members.len() implies (|u: UserId| m.resolves(u))(
        #[trigger] members[i],
    ) by {
        assert(m.owns(members[i], r));
    }
    crate::model::lemma_filter_keeps_all(members, |u: UserId| m.resolves(u));
    assert forall|u: UserId| #[trigger] m.enumerate(r).contains(u) <==> m.owns(u, r) by {
        if m.enumerate(r).contains(u) {
            let k = choose|k: int| 0 <= k < members.len() && members[k] == u;
            assert(m.owns(members[k], r));
        }
    }
}

/// Idempotent enumeration: resolving the users an enumeration yielded once
/// more, with no change in between, keeps every one of them, in order.
pub proof fn lemma_enumeration_idempotent(m: GraphModel, r: RoomId)
    ensures
        m.enumerate(r).filter(|u: UserId| m.resolves(u)) == m.enumerate(r),
{
    broadcast use vstd::seq_lib::group_filter_ensures;

    let e = m.enumerate(r);
    assert forall|i: int| 0 <= i < e.len() implies (|u: UserId| m.resolves(u))(#[trigger] e[i]) by {}
    crate::model::lemma_filter_keeps_all(e, |u: UserId| m.resolves(u));
}

/// No premature room death: while a live user owns a room, the room is live,
/// and neither dropping an outside handle to it nor releasing any other user
/// destroys it or takes the ownership away.
pub proof fn lemma_owned_room_survives(m: GraphModel, u: UserId, r: RoomId, v: UserId)
    requires
        m.wf(),
        m.owns(u, r),
        m.has_user(v),
        m.user(v).live,
        v != u,
    ensures
        m.room(r).live,
        m.room(r).handles > 0 ==> m.release_room(r).room(r).live,
        m.room(r).handles > 0 ==> m.release_room(r).owns(u, r),
        m.release_user(v).room(r).live,
        m.release_user(v).owns(u, r),
{
    assert(m.user(u).rooms.contains(r));
    let k = choose|k: int| 0 <= k < m.user(u).rooms.len() && m.user(u).rooms[k] == r;
    assert(m.has_room(m.user(u).rooms[k]));
    let n = m.release_user(v);
    crate::model::lemma_release_user_wf(m, v);
    assert(n.user(u) == m.user(u));
    assert(n.owns(u, r));
    assert(n.has_room(r));
}

/// Eventual prune: once its last reference is released, a user appears in no
/// room's list of back-references and in no room's enumeration.
pub proof fn lemma_destroyed_user_pruned(m: GraphModel, u: UserId, r: RoomId)
    requires
        m.wf(),
        m.has_user(u),
        m.user(u).live,
        m.user(u).handles == 1,
        m.has_room(r),
    ensures
        !m.release_user(u).room(r).members.contains(u),
        !m.release_user(u).enumerate(r).contains(u),
{
    broadcast use vstd::seq_lib::group_filter_ensures;

    let n = m.release_user(u);
    crate::model::lemma_release_user_wf(m, u);
    assert(n.room(r).members == m.room(r).members.filter(other_than(u)));
    if n.room(r).members.contains(u) {
        let k = choose|k: int| 0 <= k < n.room(r).members.len() && n.room(r).members[k] == u;
        assert(other_than(u)(n.room(r).members[k]));
    }
    lemma_enumeration_yields_live_users(n, r);
}

/// Multi-owner independence: destroying a user that owns two rooms sweeps
/// each of them, and what each room keeps depends on that room's own list alone.
pub proof fn lemma_two_rooms_swept_independently(
    m: GraphModel,
    u: UserId,
    r1: RoomId,
    r2: RoomId,
)
    requires
        m.wf(),
        m.owns(u, r1),
        m.owns(u, r2),
        m.user(u).handles == 1,
    ensures
        m.release_user(u).room(r1).members == m.room(r1).members.filter(other_than(u)),
        m.release_user(u).room(r2).members == m.room(r2).members.filter(other_than(u)),
        !m.release_user(u).enumerate(r1).contains(u),
        !m.release_user(u).enumerate(r2).contains(u),
{
    let k1 = choose|k: int| 0 <= k < m.user(u).rooms.len() && m.user(u).rooms[k] == r1;
    assert(m.has_room(m.user(u).rooms[k1]));
    let k2 = choose|k: int| 0 <= k < m.user(u).rooms.len() && m.user(u).rooms[k] == r2;
    assert(m.has_room(m.user(u).rooms[k2]));
    lemma_destroyed_user_pruned(m, u, r1);
    lemma_destroyed_user_pruned(m, u, r2);
}

} // verus!
