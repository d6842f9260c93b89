//! Byte-level view of ASCII string constants.
//!
//! The wire protocol is plain ASCII, so the codec works on byte
//! sequences throughout. The fixed protocol words (verbs, parameter
//! paths, color names) are written as string literals and turned into
//! byte vectors here; `bytes_of` is the specification-level image of
//! that conversion.

use vstd::prelude::*;
use vstd::string::*;

verus! {

/// The bytes of an ASCII character sequence, one byte per character.
pub open spec fn bytes_of(s: Seq<char>) -> Seq<u8> {
    Seq::new(s.len(), |i: int| s[i] as u8)
}

/// The bytes of an ASCII string slice.
pub fn ascii_bytes(s: &str) -> (v: Vec<u8>)
    requires
        s.is_ascii(),
    ensures
        v@ == bytes_of(s@),
{
    proof {
        broadcast use vstd::string::is_ascii_spec_bytes;
    }
    let v = s.as_bytes_vec();
    proof {
        assert(v@ =~= bytes_of(s@));
    }
    v
}

} // verus!
