//! Replicated game-world bookkeeping for a small client/server multiplayer
//! game: the local entity store with the diffs it produces, the message queues
//! between the game loop and the network side, and the server's routing rules.

pub mod engine;
pub mod network;
pub mod world;
