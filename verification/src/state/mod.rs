pub mod map_state;
pub mod room_state;

pub use map_state::{Decal, MapObject, MapState, Token, Wall};
pub use room_state::{Action, ChatMessage, RoomState};
