//! The allocation pattern of the kernel-heap benchmark: a linear
//! congruential sequence of seeds picks the slot to refill and the size of
//! each mixed-size allocation.
use vstd::prelude::*;

verus! {

/// Rounds of fixed-size allocation.
pub const FIXED_ROUNDS: usize = 8_192;
/// Rounds of mixed-size allocation.
pub const MIXED_ROUNDS: usize = 16_384;
/// Allocations kept alive during the mixed rounds.
pub const LIVE_SLOTS: usize = 128;
/// Allocations alive at once in a batch round.
pub const BATCH_LIVE: usize = 64;
/// Batch rounds.
pub const BATCH_ROUNDS: usize = 256;
/// First seed of the mixed rounds.
pub const FIRST_SEED: usize = 0x1234_5678;

/// The base sizes of mixed allocations.
pub open spec fn mixed_base(i: int) -> int {
    if i == 0 { 16 } else if i == 1 { 32 } else if i == 2 { 64 } else if i == 3 { 128 } else if i == 4 { 512 } else { 2048 }
}

/// The seed after `seed`.
pub fn next_seed(seed: usize) -> (r: usize)
    ensures
        r == (seed as int * 1_664_525 + 1_013_904_223) % (usize::MAX as int + 1),
{
    let a = seed.wrapping_mul(1_664_525);
    let r = a.wrapping_add(1_013_904_223);
    proof {
        let m = usize::MAX as int + 1;
        assert(a == (seed as int * 1_664_525) % m);
        assert(r == (a + 1_013_904_223) % m);
        assert((((seed as int * 1_664_525) % m) + 1_013_904_223) % m == (seed as int * 1_664_525 + 1_013_904_223) % m) by {
            vstd::arithmetic::div_mod::lemma_add_mod_noop(seed as int * 1_664_525, 1_013_904_223, m);
            vstd::arithmetic::div_mod::lemma_small_mod(1_013_904_223nat, m as nat);
        }
    }
    r
}

/// The slot a mixed round refills.
pub fn mixed_slot(seed: usize) -> (r: usize)
    ensures
        r == seed % LIVE_SLOTS,
        r < LIVE_SLOTS,
        r == seed % 128,
{
    seed % LIVE_SLOTS
}

/// The size a mixed round allocates: a base size chosen by bits 8 and up of
/// the seed, plus the low four bits.
pub fn mixed_size(seed: usize) -> (r: usize)
    ensures
        r == mixed_base(((seed / 256) % 6) as int) + seed % 16,
        r == seq![16int, 32, 64, 128, 512, 2048][((seed >> 8) % 6) as int] + (seed & 0x0f),
{
    let sizes: [usize; 6] = [16, 32, 64, 128, 512, 2048];
    let i = (seed >> 8) % 6;
    let low = seed & 0x0f;
    assert(seed >> 8 == seed / 256) by (bit_vector);
    assert(seed & 0x0f == seed % 16) by (bit_vector);
    proof {
        lemma_mixed_size_table(seed);
    }
    sizes[i] + low
}

/// A mixed allocation's size is one of 16, 32, 64, 128, 512 and 2048
/// bytes, picked by bits 8 and up of the seed taken modulo 6, plus the
/// seed's low four bits.
pub proof fn lemma_mixed_size_table(seed: usize)
    ensures
        mixed_base(((seed / 256) % 6) as int) + seed % 16 == seq![16int, 32, 64, 128, 512, 2048][((seed >> 8) % 6) as int]
            + (seed & 0x0f),
{
    assert(seed >> 8 == seed / 256) by (bit_vector);
    assert(seed & 0x0f == seed % 16) by (bit_vector);
    let i = ((seed >> 8) % 6) as int;
    let t = seq![16int, 32, 64, 128, 512, 2048];
    assert(t[0] == 16 && t[1] == 32 && t[2] == 64 && t[3] == 128 && t[4] == 512 && t[5] == 2048);
}

} // verus!
