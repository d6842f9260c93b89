//! Remote-control client core for Yamaha digital mixing consoles.
//!
//! The console speaks a newline-delimited ASCII protocol over TCP. This
//! crate holds the verified protocol engine: the line codec (command
//! formatting, response classification, quoted-label reassembly, integer
//! coding), the bounded connection-pool state machine, and the stepped
//! fade-ramp computation. Socket I/O and task scheduling live outside the
//! library and drive these functions.

pub mod ascii;
pub mod codec;
pub mod domain;
pub mod error;
pub mod mixer;
pub mod pool;

pub use domain::LabelColor;
pub use domain::SceneList;
pub use error::Error;
pub use mixer::TFMixer;
pub use pool::AcquireAction;
pub use pool::ConnectionPool;
