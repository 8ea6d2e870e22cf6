//! An iterative DNS resolver core: a bit-exact wire codec for DNS messages
//! (including compressed names) and the referral-following resolution state
//! machine, with the network left to the caller.

pub mod buffer;
pub mod bytebuf;
pub mod codec;
pub mod name;
pub mod resolver;
pub mod solver;
pub mod types;

use vstd::prelude::*;

verus! {

/// Hard bound on resolution recursion depth.
pub const MAX_DEPTH: u32 = 20;

/// The well-known A-root server, as a big-endian IPv4 address.
pub const ROOT_SERVER_V4: u32 = 0xC6290004;

} // verus!
