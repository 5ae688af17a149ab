//! Deterministic allocation of per-host channel labels.
//!
//! A host's label must be a pure function of its name, so that every
//! replica computes the same label without coordination: a multiplicative
//! rolling hash of the name's UTF-8 bytes (seed 0, multiplier 31, 32-bit
//! wrapping arithmetic), mapped into the label range reserved for hosts.
//! The range has only `HOST_LABEL_SLOTS` slots, so two distinct host
//! names may collide; the host registry detects that at bind time.

use vstd::prelude::*;
use vstd::wrapping::u32_specs;

verus! {

/// First label of the range reserved for derived per-host labels.
pub const HOST_LABEL_BASE: u32 = 2000;

/// Number of label slots in the reserved per-host range.
pub const HOST_LABEL_SLOTS: u32 = 1000;

/// Rolling hash of a byte string: seed 0, each step multiplies by 31 and
/// adds the next byte, wrapping at 32 bits.
pub open spec fn host_hash(bytes: Seq<u8>) -> u32
    decreases bytes.len(),
{
    if bytes.len() == 0 {
        0u32
    } else {
        u32_specs::wrapping_add(
            u32_specs::wrapping_mul(host_hash(bytes.drop_last()), 31u32),
            bytes.last() as u32,
        )
    }
}

/// The channel label derived for a host name, given as its UTF-8 bytes.
pub open spec fn derived_label(bytes: Seq<u8>) -> u32 {
    (HOST_LABEL_BASE + host_hash(bytes) % HOST_LABEL_SLOTS) as u32
}

/// Whether a label lies in the range reserved for derived host labels.
pub open spec fn is_host_label(label: u32) -> bool {
    HOST_LABEL_BASE <= label < HOST_LABEL_BASE + HOST_LABEL_SLOTS
}

/// Computes the rolling hash of a host name's bytes.
pub fn hash_host_bytes(bytes: &Vec<u8>) -> (h: u32)
    ensures
        h == host_hash(bytes@),
{
    let mut h: u32 = 0;
    let mut i: usize = 0;
    while i < bytes.len()
        invariant
            i <= bytes@.len(),
            h == host_hash(bytes@.take(i as int)),
        decreases bytes@.len() - i,
    {
        h = h.wrapping_mul(31).wrapping_add(bytes[i] as u32);
        proof {
            assert(bytes@.take(i + 1int).drop_last() =~= bytes@.take(i as int));
            assert(bytes@.take(i + 1int).last() == bytes@[i as int]);
        }
        i = i + 1;
    }
    proof {
        assert(bytes@.take(bytes@.len() as int) =~= bytes@);
    }
    h
}

/// Derives the channel label for a host name, given as its UTF-8 bytes.
pub fn derive_label_bytes(bytes: &Vec<u8>) -> (label: u32)
    ensures
        label == derived_label(bytes@),
        is_host_label(label),
{
    let h = hash_host_bytes(bytes);
    HOST_LABEL_BASE + h % HOST_LABEL_SLOTS
}

} // verus!
