use chatroom::{Graph, GraphError, RoomId, UserId};

#[test]
fn enumeration_never_yields_destroyed_users() {
    let mut g = Graph::new();
    let a = g.add_room("a".to_string()).unwrap();
    let b = g.add_room("b".to_string()).unwrap();
    let u1 = g.add_user("u1".to_string(), vec![a, b]).unwrap();
    let u2 = g.add_user("u2".to_string(), vec![b]).unwrap();
    let u3 = g.add_user("u3".to_string(), vec![a]).unwrap();
    g.release_user(u2).unwrap();
    let u4 = g.add_user("u4".to_string(), vec![b, a]).unwrap();
    g.release_user(u1).unwrap();
    for r in [a, b] {
        for u in g.users_in_room(r).unwrap() {
            assert!(g.user_is_live(u));
        }
    }
    assert_eq!(g.users_in_room(a).unwrap(), vec![u3, u4]);
    assert_eq!(g.users_in_room(b).unwrap(), vec![u4]);
}

#[test]
fn owned_room_survives_other_owners() {
    let mut g = Graph::new();
    let r = g.add_room("r".to_string()).unwrap();
    let keeper = g.add_user("keeper".to_string(), vec![r]).unwrap();
    let other = g.add_user("other".to_string(), vec![r]).unwrap();
    assert_eq!(g.release_room(r), Ok(false));
    let released = g.release_user(other).unwrap();
    assert!(released.rooms_destroyed.is_empty());
    assert!(g.room_is_live(r));
    assert_eq!(g.users_in_room(r).unwrap(), vec![keeper]);
}

#[test]
fn destroyed_user_is_pruned_everywhere() {
    let mut g = Graph::new();
    let a = g.add_room("a".to_string()).unwrap();
    let b = g.add_room("b".to_string()).unwrap();
    let c = g.add_room("c".to_string()).unwrap();
    let gone = g.add_user("gone".to_string(), vec![a, b, c]).unwrap();
    let stays = g.add_user("stays".to_string(), vec![b]).unwrap();
    g.release_user(gone).unwrap();
    assert!(!g.user_is_live(gone));
    assert_eq!(g.users_in_room(a).unwrap(), Vec::<UserId>::new());
    assert_eq!(g.users_in_room(b).unwrap(), vec![stays]);
    assert_eq!(g.users_in_room(c).unwrap(), Vec::<UserId>::new());
}

#[test]
fn enumeration_is_repeatable() {
    let mut g = Graph::new();
    let r = g.add_room("r".to_string()).unwrap();
    g.add_user("x".to_string(), vec![r]).unwrap();
    g.add_user("y".to_string(), vec![r]).unwrap();
    let first = g.users_in_room(r).unwrap();
    let second = g.users_in_room(r).unwrap();
    assert_eq!(first, second);
    assert_eq!(first.len(), 2);
}

#[test]
fn two_rooms_swept_independently() {
    let mut g = Graph::new();
    let r1 = g.add_room("r1".to_string()).unwrap();
    let r2 = g.add_room("r2".to_string()).unwrap();
    let before = g.add_user("before".to_string(), vec![r1]).unwrap();
    let both = g.add_user("both".to_string(), vec![r1, r2]).unwrap();
    let after = g.add_user("after".to_string(), vec![r2]).unwrap();
    g.release_user(both).unwrap();
    assert_eq!(g.users_in_room(r1).unwrap(), vec![before]);
    assert_eq!(g.users_in_room(r2).unwrap(), vec![after]);
}

#[test]
fn extra_user_reference_delays_destruction() {
    let mut g = Graph::new();
    let r = g.add_room("r".to_string()).unwrap();
    let u = g.add_user("u".to_string(), vec![r]).unwrap();
    assert_eq!(g.retain_user(u), Ok(()));
    let first = g.release_user(u).unwrap();
    assert!(!first.user_destroyed);
    assert_eq!(g.users_in_room(r).unwrap(), vec![u]);
    let second = g.release_user(u).unwrap();
    assert!(second.user_destroyed);
    assert_eq!(g.users_in_room(r).unwrap(), Vec::<UserId>::new());
}

#[test]
fn extra_room_handle_delays_destruction() {
    let mut g = Graph::new();
    let r = g.add_room("r".to_string()).unwrap();
    assert_eq!(g.retain_room(r), Ok(()));
    assert_eq!(g.release_room(r), Ok(false));
    assert!(g.room_is_live(r));
    assert_eq!(g.release_room(r), Ok(true));
    assert!(!g.room_is_live(r));
}

#[test]
fn repeated_room_registers_once() {
    let mut g = Graph::new();
    let r = g.add_room("r".to_string()).unwrap();
    let u = g.add_user("u".to_string(), vec![r, r]).unwrap();
    assert_eq!(g.users_in_room(r).unwrap(), vec![u]);
    assert_eq!(g.user_rooms(u).unwrap().len(), 2);
    assert_eq!(g.release_room(r), Ok(false));
    let released = g.release_user(u).unwrap();
    assert_eq!(released.rooms_destroyed, vec![r]);
}

#[test]
fn new_room_is_empty() {
    let mut g = Graph::new();
    let r = g.add_room("quiet".to_string()).unwrap();
    assert_eq!(r, RoomId(0));
    assert_eq!(g.users_in_room(r).unwrap(), Vec::<UserId>::new());
    assert_eq!(g.room_name(r).unwrap(), "quiet");
}

#[test]
fn errors_for_each_refusal() {
    let mut g = Graph::new();
    let r = g.add_room("r".to_string()).unwrap();
    assert_eq!(g.users_in_room(RoomId(7)), Err(GraphError::UnknownRoom));
    assert_eq!(g.add_user("x".to_string(), vec![]), Err(GraphError::NoRooms));
    assert_eq!(
        g.add_user("x".to_string(), vec![r, RoomId(3)]),
        Err(GraphError::UnknownRoom)
    );
    assert_eq!(g.release_user(UserId(0)).err(), Some(GraphError::UnknownUser));
    assert_eq!(g.retain_user(UserId(0)), Err(GraphError::UnknownUser));
    assert_eq!(g.retain_room(RoomId(9)), Err(GraphError::UnknownRoom));

    let u = g.add_user("u".to_string(), vec![r]).unwrap();
    assert_eq!(g.release_room(r), Ok(false));
    assert_eq!(g.release_room(r), Err(GraphError::NoHandle));
    g.release_user(u).unwrap();
    assert_eq!(g.release_user(u).err(), Some(GraphError::UserDestroyed));
    assert_eq!(g.retain_user(u), Err(GraphError::UserDestroyed));
    assert_eq!(g.release_room(r), Err(GraphError::RoomDestroyed));
    assert_eq!(g.retain_room(r), Err(GraphError::RoomDestroyed));
    assert_eq!(
        g.add_user("late".to_string(), vec![r]),
        Err(GraphError::RoomDestroyed)
    );
    assert!(g.room_name(RoomId(5)).is_none());
    assert!(g.user_name(UserId(5)).is_none());
    assert!(g.user_rooms(UserId(5)).is_none());
}
