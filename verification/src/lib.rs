//! The rules of a small networked arena: the queues, the wire format, the server's slot table
//! and simulation schedule, and the client's prediction, reconciliation and drawing.

pub mod client;
pub mod laws;
pub mod little_endian;
pub mod pacing;
pub mod packet;
pub mod player;
pub mod protocol;
pub mod ring_buffer;
pub mod screen;
pub mod server;
