//! Client-side logic of a line-oriented, password-authenticated remote console
//! protocol: reassembly of received bytes into lines, and the session state
//! machine that gates all line traffic behind the authentication handshake.
//!
//! Nothing in this crate performs I/O. The transport hands over the bytes it
//! received and is handed the bytes it has to write.

pub mod econ;
pub mod lines;
pub mod raw;
pub mod text;
