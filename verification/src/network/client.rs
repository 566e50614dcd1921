//! The client's side of the network.

use vstd::prelude::*;

use super::StreamID;

verus! {

/// The tag of a client's one connection, to the server.
pub const CLIENT_STREAM_TAG: StreamID = 1337;

} // verus!
