use vstd::prelude::*;

verus! {

/// Number of bytes taken by the checksum at the front of a datagram.
pub const CRC32_SIZE: usize = 4;

/// Number of bytes taken by the fragment header: four for the sequence
/// id, one for the fragment id, one for the fragment total.
pub const FRAG_HEADER_SIZE: usize = 4 + 1 + 1;

/// Largest datagram this library emits. 1280 payload bytes plus the ten
/// bytes of checksum and header stay below the usual path MTU.
pub const MAX_UDP_MESSAGE_SIZE: usize = 1024 + 256 + CRC32_SIZE + FRAG_HEADER_SIZE;

/// Largest payload a single fragment carries.
pub const MAX_FRAGMENT_MESSAGE_SIZE: usize = MAX_UDP_MESSAGE_SIZE - CRC32_SIZE - FRAG_HEADER_SIZE;

/// Largest number of fragments one message may be split into; one
/// acknowledgement bit per fragment then fits a 64-bit word.
pub const MAX_FRAGMENTS_IN_MESSAGE: usize = 64;

/// Milliseconds a connection worker sleeps between two polls.
pub const POLL_INTERVAL: u32 = 10;

/// Number of polls after which a pending connection attempt is given up.
pub const CONNECT_ABANDON_TOTAL_ITERATIONS: u32 = 10_000 / 10;

} // verus!
