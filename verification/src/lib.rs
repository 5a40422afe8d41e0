//! Room coordination, room directory and peer-side packet logic for a
//! UDP hole-punching game network, with their contracts proved by Verus.

pub mod clock;
pub mod coordinator;
pub mod crypto;
pub mod json;
pub mod main_server;
pub mod peer;
pub mod str_map;
