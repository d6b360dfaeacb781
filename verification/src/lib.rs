//! A server core for a text-based pixel-drawing network protocol.
//!
//! Clients set and read single pixels of a shared canvas by sending short
//! ASCII commands over TCP. This library holds the verified core: the canvas
//! storage, the command scanner that turns a byte buffer into pixel
//! operations, the executor that carries those operations out against the
//! canvas and renders the protocol replies, and the per-connection session
//! that manages fragmented command data across successive socket reads.
//! Listening, socket I/O and the peripheral collaborators (video sink,
//! statistics) live outside the library.

pub mod execute;
pub mod framebuffer;
pub mod laws;
pub mod parser;
pub mod session;

pub use framebuffer::FrameBuffer;
pub use parser::{parse_command, Command, ParserState};
pub use session::Session;
