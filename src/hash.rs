//! Ring positions of textual endpoint identifiers.

use vstd::prelude::*;

verus! {

/// Size of the ring space: a position is the low 24 bits of a 64-bit digest.
pub const RING_SIZE: u32 = 0x100_0000;

/// The 64-bit xxHash (seed 0) of a string, as fed through `str`'s `Hash` impl.
pub uninterp spec fn xxh64_of_str(s: Seq<char>) -> u64;

/// The ring position of an endpoint: its digest truncated to 24 bits.
pub open spec fn ring_position(ip: Seq<char>) -> u32 {
    (xxh64_of_str(ip) % (RING_SIZE as u64)) as u32
}

/// Relies on `twox_hash::XxHash64::with_seed(0)` with `Hasher::finish`, fed
/// through `str`'s `Hash` impl: the digest depends on the text alone.
#[verifier::external_body]
fn xxhash64_of(s: &str) -> (r: u64)
    ensures
        r == xxh64_of_str(s@),
{
    let mut hasher = twox_hash::XxHash64::with_seed(0);
    std::hash::Hash::hash(s, &mut hasher);
    std::hash::Hasher::finish(&hasher)
}

/// Maps an endpoint identifier to its position on the ring, in `[0, 2^24)`.
/// The result is a function of the text alone.
pub fn ip_to_hash(ip: &str) -> (r: u32)
    ensures
        r == ring_position(ip@),
        r < RING_SIZE,
{
    let digest = xxhash64_of(ip);
    let masked: u64 = digest & 0x00FF_FFFF;
    proof {
        assert(digest & 0x00FF_FFFFu64 == digest % 0x100_0000u64) by (bit_vector);
    }
    masked as u32
}

} // verus!
