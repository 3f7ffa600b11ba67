use chatroom::{Graph, GraphError, RoomId, UserId};

fn names(g: &Graph, users: &[UserId]) -> Vec<String> {
    users
        .iter()
        .map(|u| g.user_name(*u).unwrap().clone())
        .collect()
}

#[test]
fn two_users_one_leaves() {
    let mut g = Graph::new();
    let rust = g.add_room("rust".to_string()).unwrap();
    let mike = g.add_user("mike".to_string(), vec![rust]).unwrap();
    let ovidiu = g.add_user("ovidiu".to_string(), vec![rust]).unwrap();

    let listed = g.users_in_room(rust).unwrap();
    assert_eq!(listed, vec![mike, ovidiu]);
    assert_eq!(names(&g, &listed), vec!["mike", "ovidiu"]);

    let released = g.release_user(ovidiu).unwrap();
    assert!(released.user_destroyed);
    assert!(released.rooms_destroyed.is_empty());
    let listed = g.users_in_room(rust).unwrap();
    assert_eq!(names(&g, &listed), vec!["mike"]);
}

#[test]
fn one_user_two_rooms() {
    let mut g = Graph::new();
    let rust = g.add_room("rust".to_string()).unwrap();
    let fosdem = g.add_room("fosdem".to_string()).unwrap();
    let mike = g.add_user("mike".to_string(), vec![rust, fosdem]).unwrap();

    assert_eq!(g.users_in_room(rust).unwrap(), vec![mike]);
    assert_eq!(g.users_in_room(fosdem).unwrap(), vec![mike]);

    let released = g.release_user(mike).unwrap();
    assert!(released.user_destroyed);
    // both rooms still have their outside handles
    assert!(released.rooms_destroyed.is_empty());
    assert_eq!(g.users_in_room(rust).unwrap(), Vec::<UserId>::new());
    assert_eq!(g.users_in_room(fosdem).unwrap(), Vec::<UserId>::new());
}

#[test]
fn room_kept_alive_by_its_user() {
    let mut g = Graph::new();
    let rust = g.add_room("rust".to_string()).unwrap();
    let mike = g.add_user("mike".to_string(), vec![rust]).unwrap();

    assert_eq!(g.release_room(rust), Ok(false));
    assert!(g.room_is_live(rust));
    let via_mike: RoomId = g.user_rooms(mike).unwrap()[0];
    assert_eq!(g.room_name(via_mike).unwrap(), "rust");
    assert_eq!(g.users_in_room(via_mike).unwrap(), vec![mike]);

    let released = g.release_user(mike).unwrap();
    assert!(released.user_destroyed);
    assert_eq!(released.rooms_destroyed, vec![rust]);
    assert!(!g.room_is_live(rust));
    assert_eq!(g.users_in_room(rust), Err(GraphError::RoomDestroyed));
}

#[test]
fn two_rooms_emptied_then_released() {
    let mut g = Graph::new();
    let rust = g.add_room("rust".to_string()).unwrap();
    let fosdem = g.add_room("fosdem".to_string()).unwrap();
    let mike = g.add_user("mike".to_string(), vec![rust, fosdem]).unwrap();
    let ovidiu = g.add_user("ovidiu".to_string(), vec![rust]).unwrap();

    assert_eq!(g.users_in_room(rust).unwrap(), vec![mike, ovidiu]);
    assert_eq!(g.users_in_room(fosdem).unwrap(), vec![mike]);
    g.release_user(mike).unwrap();
    assert_eq!(g.users_in_room(rust).unwrap(), vec![ovidiu]);
    assert_eq!(g.users_in_room(fosdem).unwrap(), Vec::<UserId>::new());
    g.release_user(ovidiu).unwrap();
    assert_eq!(g.users_in_room(rust).unwrap(), Vec::<UserId>::new());
    assert_eq!(g.users_in_room(fosdem).unwrap(), Vec::<UserId>::new());

    assert_eq!(g.release_room(fosdem), Ok(true));
    assert_eq!(g.release_room(rust), Ok(true));
    assert!(!g.room_is_live(rust));
    assert!(!g.room_is_live(fosdem));
}
