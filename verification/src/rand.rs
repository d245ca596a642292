//! Seeding of the per-processor random number generators: each processor
//! gets the master seed with its number mixed into the first eight bytes.
use vstd::prelude::*;
use crate::exec::{le64, u64_bytes};

verus! {

/// The seed of the generator of processor `cpu`: `master` with its first
/// eight bytes XORed with the little-endian bytes of `cpu`.
pub fn cpu_seed(master: &[u8; 32], cpu: u64) -> (r: [u8; 32])
    ensures
        forall|i: int| 0 <= i < 8 ==> r@[i] == (#[trigger] master@[i]) ^ le64(cpu)[i],
        forall|i: int| 8 <= i < 32 ==> r@[i] == master@[i],
{
    let mut seed = *master;
    let b = u64_bytes(cpu);
    assert(b@.len() == 8);
    let mut i: usize = 0;
    while i < 8
        invariant
            i <= 8,
            b@ == le64(cpu),
            b@.len() == 8,
            seed@.len() == 32,
            forall|k: int| 0 <= k < i ==> seed@[k] == (#[trigger] master@[k]) ^ le64(cpu)[k],
            forall|k: int| i <= k < 32 ==> seed@[k] == master@[k],
        decreases 8 - i,
    {
        seed[i] = seed[i] ^ b[i];
        i = i + 1;
    }
    seed
}

} // verus!
