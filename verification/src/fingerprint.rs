//! The fingerprint by which records are assigned to workers.

use vstd::prelude::*;
use std::hash::Hasher;

verus! {

/// The FNV-1a hash of a sequence of bytes, in 64 bits: from the offset
/// basis, each byte is mixed in by exclusive or and the result multiplied
/// by the FNV prime, modulo two to the 64.
pub open spec fn fnv1a(bytes: Seq<u8>) -> u64
    decreases bytes.len(),
{
    if bytes.len() == 0 {
        0xcbf29ce484222325
    } else {
        (((fnv1a(bytes.drop_last()) ^ (bytes.last() as u64)) as int * 0x100000001b3) % 0x1_0000_0000_0000_0000) as u64
    }
}

/// The `n` low bytes of `x`, the lowest first.
pub open spec fn le_bytes(x: nat, n: nat) -> Seq<u8>
    decreases n,
{
    if n == 0 {
        Seq::empty()
    } else {
        seq![(x % 256) as u8] + le_bytes(x / 256, (n - 1) as nat)
    }
}

/// Feeds `bytes` to a new `fnv::FnvHasher` (`FnvHasher::default`, then
/// `Hasher::write`) and returns what `Hasher::finish` gives. The contract
/// claims that this is the FNV-1a hash of the bytes: the hasher starts at
/// the offset basis, and `write` takes the bytes in order, each by
/// exclusive or followed by a wrapping multiplication with the prime.
#[verifier::external_body]
fn fnv_bytes(bytes: &[u8]) -> (hash: u64)
    ensures
        hash == fnv1a(bytes@),
{
    let mut hasher = fnv::FnvHasher::default();
    hasher.write(bytes);
    hasher.finish()
}

/// The fingerprint of a record: the FNV-1a hash of its eight bytes, the
/// lowest first.
pub fn fnv_hash(element: u64) -> (hash: u64)
    ensures
        hash == fnv1a(le_bytes(element as nat, 8)),
{
    let mut bytes: Vec<u8> = Vec::new();
    let mut rest: u64 = element;
    let mut i: usize = 0;
    assert(bytes@ + le_bytes(rest as nat, 8) =~= le_bytes(element as nat, 8));
    while i < 8
        invariant
            i <= 8,
            bytes@ + le_bytes(rest as nat, (8 - i) as nat) == le_bytes(element as nat, 8),
        decreases 8 - i,
    {
        let ghost before = bytes@;
        let ghost tail = le_bytes(rest as nat / 256, (8 - i - 1) as nat);
        bytes.push((rest % 256) as u8);
        assert(bytes@ + tail =~= before + (seq![(rest as nat % 256) as u8] + tail));
        rest = rest / 256;
        i = i + 1;
    }
    assert(bytes@ + Seq::<u8>::empty() =~= bytes@);
    fnv_bytes(bytes.as_slice())
}

} // verus!
