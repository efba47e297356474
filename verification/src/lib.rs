//! A Kademlia distributed hash table: 256-bit identifiers under the XOR
//! metric, a k-bucket routing table, request/response correlation, the
//! request handler and the iterative lookup, all as verified state
//! transitions that a transport layer drives.

use vstd::prelude::*;

pub mod assoc;
pub mod key;
pub mod lookup;
pub mod network;
pub mod node;
pub mod order;
pub mod protocol;
pub mod routing;
pub mod store;
pub mod text;

verus! {

/// Bytes in a key: 256 bits.
pub const KEY_LEN: usize = 32;

/// One bucket for each bit of a key.
pub const N_BUCKETS: usize = KEY_LEN * 8;

/// Capacity of a bucket, and the number of peers a value is stored on.
pub const K_PARAM: usize = 20;

/// Largest payload that fits in one datagram.
pub const BUF_SIZE: usize = 4096 * 2;

/// Milliseconds after which an unanswered request counts as failed.
pub const TIMEOUT: u64 = 5000;

/// Requests that a lookup keeps in flight at once.
pub const ALPHA: usize = 3;

} // verus!
