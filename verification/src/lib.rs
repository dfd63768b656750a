//! TCP connection bonding: aggregate N parallel reliable flows between one
//! client and one server into a single logical, ordered byte stream.
//!
//! The verified core consists of the framed wire codec (every frame a
//! 4-byte length prefix and at most `FRAGMENT_SIZE` payload bytes), the
//! reader and writer rotation state machine with its residue tracking,
//! and the server-side session table that groups member flows by
//! correlation ID.
//! The socket and readiness plumbing around the core lives outside the
//! library and drives it through the step interface.

use vstd::prelude::*;

pub mod codec;
pub mod laws;
pub mod session;
pub mod stream;
pub mod wire;

verus! {

/// Upper bound on the payload of one frame: a longer write is split into
/// length-prefixed frames of at most this many bytes, laid out on
/// consecutive members. Both peers must agree on this value.
pub const FRAGMENT_SIZE: usize = 8192;

} // verus!
