//! Error taxonomy of the protocol engine.
//!
//! Every public operation returns a typed success value or one of these
//! variants; nothing panics and nothing substitutes a default on a decode
//! failure. Messages are carried as raw ASCII/UTF-8 bytes, matching the
//! wire format the engine works in.

use vstd::prelude::*;

verus! {

/// Errors that originate from the mixer-control engine.
#[derive(Debug)]
pub enum Error {
    /// A connect, read or write failure, or the reader task's queue
    /// closing unexpectedly. Fatal to the connection involved: the
    /// connection must be discarded, never returned to the pool.
    NetworkError(Vec<u8>),
    /// A malformed address at construction time; fatal to that call only.
    AddrParseError(Vec<u8>),
    /// The console replied `ERROR`, or a reply line did not match the
    /// expected `OK`/`ERROR` framing. Carries the remote message where
    /// available.
    RCPError(Vec<u8>),
    /// An `OK` reply whose payload could not be decoded as an integer.
    /// Kept distinct from [`Error::RCPError`] so callers can tell
    /// "console rejected the request" from "we could not understand an
    /// accepted reply".
    RCPParseError(Vec<u8>),
    /// An `OK` reply whose payload is not a recognized label color.
    LabelColorParseError(Vec<u8>),
    /// A string that names no scene list.
    SceneListParseError(Vec<u8>),
}

} // verus!
