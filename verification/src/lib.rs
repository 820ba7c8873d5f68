pub mod color;
pub mod grid;
pub mod board;
pub mod stones;
pub mod game;
pub mod text;
pub mod coords;
pub mod tokens;
pub mod floats;
pub mod analysis;
pub mod error;
pub mod profile;
pub mod store;
pub mod engine;
pub mod session;
pub mod transport;
pub mod local_keys;
pub mod plugin;
pub mod liberties;
