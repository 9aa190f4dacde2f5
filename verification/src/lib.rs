//! A multiplayer snake game on a torus: the world simulation, the wire
//! format of its messages, reliable delivery over datagrams, and the roles
//! that the nodes of a game play.
//!
//! Nothing in this library does I/O or reads a clock. The nodes are state
//! machines: they are handed the messages that came in and the time, and
//! hand back the datagrams that are to be sent.

// The game: the board, the snakes, the food.
pub mod base;
pub mod world;
pub mod grid;
pub mod bodies;
pub mod tick;
pub mod food;
pub mod count;
pub mod update;
pub mod spawn;
pub mod roles;
pub mod snapshot;

// The messages and their wire format.
pub mod message;
pub mod wire;
pub mod format;
pub mod codec;

// Delivery, and the nodes of a game.
pub mod channel;
pub mod peers;
pub mod server;
pub mod rounds;
pub mod client;
pub mod succession;
pub mod join;
pub mod discovery;

// What the user interface shares with the game.
pub mod ring;
pub mod input;
pub mod text;

mod random;
