use vstd::prelude::*;

verus! {

/// One step of the EDID mixing hash: `acc << 6` plus `acc << 16` plus the
/// byte, minus `acc`, all modulo 2^32.
pub open spec fn edid_step(acc: u32, byte: u8) -> u32 {
    ((acc * 64 + acc * 65536 + byte - acc) % 0x1_0000_0000) as u32
}

/// The identity of a monitor whose EDID block is `bytes`.
pub open spec fn edid_hash(bytes: Seq<u8>) -> u32
    decreases bytes.len(),
{
    if bytes.len() == 0 {
        0
    } else {
        edid_step(edid_hash(bytes.drop_last()), bytes.last())
    }
}

/// Hashes an EDID block into a monitor identity. Zero is never a valid
/// identity: see `resolve_monitor_id`.
pub fn make_id_from_edid(edid_bytes: &[u8]) -> (r: u32)
    ensures
        r == edid_hash(edid_bytes@),
{
    let mut digest: u32 = 0;
    let mut i: usize = 0;
    while i < edid_bytes.len()
        invariant
            i <= edid_bytes@.len(),
            digest == edid_hash(edid_bytes@.subrange(0, i as int)),
        decreases edid_bytes@.len() - i,
    {
        let byte = edid_bytes[i];
        assert(edid_bytes@.subrange(0, i + 1).drop_last() =~= edid_bytes@.subrange(0, i as int));
        let mixed: u64 = (digest as u64) * 65599 + (byte as u64);
        digest = (mixed % 0x1_0000_0000) as u32;
        i = i + 1;
    }
    assert(edid_bytes@.subrange(0, i as int) =~= edid_bytes@);
    digest
}

/// The identity is a function of the EDID bytes alone, and the empty block
/// hashes to the reserved identity zero.
pub proof fn identity_is_deterministic(a: Seq<u8>, b: Seq<u8>)
    requires
        a =~= b,
    ensures
        edid_hash(a) == edid_hash(b),
        edid_hash(Seq::<u8>::empty()) == 0,
{
}

} // verus!
