//! A graph of chat rooms and their users in which users own the rooms they
//! belong to and rooms refer back to their users without owning them. Rooms
//! and users live in arenas; a back-reference is an index checked for liveness
//! whenever it is read, and destroying a user prunes the rooms it was in.
pub mod graph;
pub mod laws;
pub mod model;

pub use graph::{Graph, GraphError, Released};
pub use model::{GraphModel, RoomId, RoomModel, UserId, UserModel};
