//! Simulation constants shared by flow assignment, ideal completion times and
//! the normalization of delays.

use vstd::prelude::*;

verus! {

/// The largest payload of a packet, in bytes.
pub const SZ_PKTMAX: u64 = 1000;

/// The size of a packet header, in bytes.
pub const SZ_PKTHDR: u64 = 48;

/// The size of an acknowledgement, in bytes.
pub const SZ_ACK: u64 = 60;

} // verus!
