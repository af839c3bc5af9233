//! Reconstruction of per-player behavioural sequences from a game server's
//! delta-encoded event log.
//!
//! The library replays a chronological stream of chunks (ticks, input
//! changes, position changes, joins and leaves, network messages, console
//! commands), materialises explicit per-tick state for every player, and
//! carves the stream into per-player sequences.  Completed sequences are
//! converted into named columns, trimmed of AFK stretches, cut to a fixed
//! length, and accounted for in a batch exporter that assigns stable player
//! identifiers.

pub mod assoc;
pub mod export;
pub mod extractor;
pub mod names;
pub mod parser;
pub mod preprocess;
pub mod tick;
