//! Key material: the Murmur3 64-bit finalizer, the chained round-key
//! schedule and the per-window key.

use vstd::prelude::*;

verus! {

/// Number of Feistel rounds, one key each.
pub const N_ROUNDS: usize = 8;

/// The odd Weyl constant added between two finalizer steps of the schedule.
pub const GOLDEN: u64 = 0x9E3779B97F4A7C15;

/// First multiplier of the Murmur3 finalizer.
pub const FMIX_C1: u64 = 0xFF51AFD7ED558CCD;

/// Second multiplier of the Murmur3 finalizer.
pub const FMIX_C2: u64 = 0xC4CEB9FE1A85EC53;

/// The Murmur3 64-bit finalizer `H`: three xor-shifts by 33 around two
/// multiplications modulo 2^64.
pub open spec fn fmix64_spec(k: u64) -> u64 {
    let k1 = k ^ (k >> 33u64);
    let k2 = k1.wrapping_mul(FMIX_C1);
    let k3 = k2 ^ (k2 >> 33u64);
    let k4 = k3.wrapping_mul(FMIX_C2);
    k4 ^ (k4 >> 33u64)
}

/// The chained schedule state: `S_0 = H(secret)`, `S_i = H(S_{i-1} + golden mod 2^64)`.
pub open spec fn schedule_state(secret: u64, i: nat) -> u64
    decreases i,
{
    if i == 0 {
        fmix64_spec(secret)
    } else {
        fmix64_spec(schedule_state(secret, (i - 1) as nat).wrapping_add(GOLDEN))
    }
}

/// The round keys `K_i = S_i mod 24` for `i = 1..=8`, in the order the rounds use them.
pub open spec fn round_keys_spec(secret: u64) -> Seq<int> {
    Seq::new(N_ROUNDS as nat, |i: int| (schedule_state(secret, (i + 1) as nat) % 24) as int)
}

/// The key of one time window: the finalizer applied to the secret xor the
/// window index's two's-complement bits.
pub open spec fn generation_key_spec(secret: u64, generation: i64) -> u64 {
    fmix64_spec(secret ^ (generation as u64))
}

/// The Murmur3 64-bit finalizer.
pub fn fmix64(k: u64) -> (r: u64)
    ensures
        r == fmix64_spec(k),
{
    let k1 = k ^ (k >> 33u64);
    let k2 = k1.wrapping_mul(FMIX_C1);
    let k3 = k2 ^ (k2 >> 33u64);
    let k4 = k3.wrapping_mul(FMIX_C2);
    k4 ^ (k4 >> 33u64)
}

/// Derives the eight round keys, each in `0..24`, from the secret.
pub fn key_schedule_from_secret(secret: u64) -> (keys: [i64; 8])
    ensures
        keys@.map_values(|k: i64| k as int) == round_keys_spec(secret),
        forall|i: int| 0 <= i < 8 ==> 0 <= #[trigger] keys[i] < 24,
{
    let mut state = fmix64(secret);
    let mut keys = [0i64; 8];
    let mut i: usize = 0;
    while i < N_ROUNDS
        invariant
            i <= N_ROUNDS,
            state == schedule_state(secret, i as nat),
            forall|j: int|
                0 <= j < i ==> #[trigger] keys[j] as int == (schedule_state(secret, (j + 1) as nat)
                    % 24) as int,
        decreases N_ROUNDS - i,
    {
        state = fmix64(state.wrapping_add(GOLDEN));
        keys[i] = (state % 24) as i64;
        i = i + 1;
    }
    assert(keys@.map_values(|k: i64| k as int) =~= round_keys_spec(secret));
    keys
}

/// The key of the given time window.
pub fn generation_key(secret: u64, generation: i64) -> (key: u64)
    ensures
        key == generation_key_spec(secret, generation),
{
    fmix64(secret ^ (generation as u64))
}

/// Undoes the finalizer: each xor-shift by 33 is its own inverse on 64 bits,
/// and each multiplier has an inverse modulo 2^64.
pub open spec fn fmix64_inverse_spec(h: u64) -> u64 {
    let k4 = h ^ (h >> 33u64);
    let k3 = k4.wrapping_mul(0x9CB4B2F8129337DB);
    let k2 = k3 ^ (k3 >> 33u64);
    let k1 = k2.wrapping_mul(0x4F74430C22A54005);
    k1 ^ (k1 >> 33u64)
}

proof fn lemma_xorshift_undo(x: u64)
    ensures
        (x ^ (x >> 33u64)) ^ ((x ^ (x >> 33u64)) >> 33u64) == x,
{
    assert((x ^ (x >> 33u64)) ^ ((x ^ (x >> 33u64)) >> 33u64) == x) by (bit_vector);
}

proof fn lemma_mul_undo(x: u64, c: u64, inv: u64)
    requires
        (c as int * inv as int) % 0x1_0000_0000_0000_0000 == 1,
    ensures
        x.wrapping_mul(c).wrapping_mul(inv) == x,
{
    let m: int = 0x1_0000_0000_0000_0000;
    let xc = (x as int * c as int) % m;
    assert(x.wrapping_mul(c) as int == xc);
    vstd::arithmetic::div_mod::lemma_mul_mod_noop_left(x as int * c as int, inv as int, m);
    vstd::arithmetic::mul::lemma_mul_is_associative(x as int, c as int, inv as int);
    vstd::arithmetic::div_mod::lemma_mul_mod_noop_right(x as int, c as int * inv as int, m);
    vstd::arithmetic::div_mod::lemma_small_mod(x as nat, m as nat);
}

/// `fmix64_inverse_spec` undoes the finalizer.
pub proof fn lemma_fmix64_inverse(k: u64)
    ensures
        fmix64_inverse_spec(fmix64_spec(k)) == k,
{
    let k1 = k ^ (k >> 33u64);
    let k2 = k1.wrapping_mul(FMIX_C1);
    let k3 = k2 ^ (k2 >> 33u64);
    let k4 = k3.wrapping_mul(FMIX_C2);
    lemma_xorshift_undo(k4);
    assert((0xC4CEB9FE1A85EC53int * 0x9CB4B2F8129337DBint) % 0x1_0000_0000_0000_0000 == 1);
    lemma_mul_undo(k3, FMIX_C2, 0x9CB4B2F8129337DB);
    lemma_xorshift_undo(k2);
    assert((0xFF51AFD7ED558CCDint * 0x4F74430C22A54005int) % 0x1_0000_0000_0000_0000 == 1);
    lemma_mul_undo(k1, FMIX_C1, 0x4F74430C22A54005);
    lemma_xorshift_undo(k);
}

/// The finalizer is a bijection of `u64`: distinct inputs give distinct outputs.
pub proof fn lemma_fmix64_injective(a: u64, b: u64)
    ensures
        a != b ==> fmix64_spec(a) != fmix64_spec(b),
{
    lemma_fmix64_inverse(a);
    lemma_fmix64_inverse(b);
}

/// Distinct windows get distinct keys, for every secret.
pub proof fn lemma_generation_keys_distinct(secret: u64, g1: i64, g2: i64)
    ensures
        g1 != g2 ==> generation_key_spec(secret, g1) != generation_key_spec(secret, g2),
{
    let a = g1 as u64;
    let b = g2 as u64;
    assert(g1 != g2 ==> a != b) by (bit_vector)
        requires
            a == g1 as u64,
            b == g2 as u64,
    ;
    assert(a != b ==> secret ^ a != secret ^ b) by (bit_vector);
    lemma_fmix64_injective(secret ^ a, secret ^ b);
}

} // verus!
