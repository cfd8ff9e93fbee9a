use vstd::prelude::*;

verus! {

/// The lattice hash behind the terrain noise and the atlas detail pattern:
/// a few rounds of wrapping multiply / add and xor-shift over the column
/// coordinates and the seed.
pub open spec fn spec_hash2(x: i32, z: i32, seed: u32) -> u32 {
    let h0 = seed ^ 0x9E37_79B9u32;
    let h1 = vstd::wrapping::u32_specs::wrapping_add(
        h0,
        vstd::wrapping::u32_specs::wrapping_mul(x as u32, 0x85EB_CA6Bu32),
    );
    let h2 = h1 ^ (h1 >> 13u32);
    let h3 = vstd::wrapping::u32_specs::wrapping_add(
        h2,
        vstd::wrapping::u32_specs::wrapping_mul(z as u32, 0xC2B2_AE35u32),
    );
    let h4 = h3 ^ (h3 >> 16u32);
    let h5 = vstd::wrapping::u32_specs::wrapping_mul(h4, 0x27D4_EB2Fu32);
    h5 ^ (h5 >> 15u32)
}

/// Deterministic lattice hash of a column `(x, z)` under `seed`.
pub fn hash2(x: i32, z: i32, seed: u32) -> (h: u32)
    ensures
        h == spec_hash2(x, z, seed),
{
    let mut h: u32 = seed ^ 0x9E37_79B9u32;
    h = h.wrapping_add((x as u32).wrapping_mul(0x85EB_CA6Bu32));
    h = h ^ (h >> 13u32);
    h = h.wrapping_add((z as u32).wrapping_mul(0xC2B2_AE35u32));
    h = h ^ (h >> 16u32);
    h = h.wrapping_mul(0x27D4_EB2Fu32);
    h = h ^ (h >> 15u32);
    h
}

proof fn lemma_add_cancel(p: u32, q: u32, p2: u32, q2: u32)
    ensures
        p == p2 && vstd::wrapping::u32_specs::wrapping_add(p, q) == vstd::wrapping::u32_specs::wrapping_add(
            p2,
            q2,
        ) ==> q == q2,
        q == q2 && vstd::wrapping::u32_specs::wrapping_add(p, q) == vstd::wrapping::u32_specs::wrapping_add(
            p2,
            q2,
        ) ==> p == p2,
{
}

proof fn lemma_mul_odd_injective(a: u32, b: u32)
    ensures
        vstd::wrapping::u32_specs::wrapping_mul(a, 0x85EB_CA6Bu32) == vstd::wrapping::u32_specs::wrapping_mul(
            b,
            0x85EB_CA6Bu32,
        ) ==> a == b,
        vstd::wrapping::u32_specs::wrapping_mul(a, 0xC2B2_AE35u32) == vstd::wrapping::u32_specs::wrapping_mul(
            b,
            0xC2B2_AE35u32,
        ) ==> a == b,
        vstd::wrapping::u32_specs::wrapping_mul(a, 0x27D4_EB2Fu32) == vstd::wrapping::u32_specs::wrapping_mul(
            b,
            0x27D4_EB2Fu32,
        ) ==> a == b,
{
    assert((a * 0x85EB_CA6Bu32) % 0x1_0000_0000 == (b * 0x85EB_CA6Bu32) % 0x1_0000_0000 ==> a == b)
        by (bit_vector);
    assert((a * 0xC2B2_AE35u32) % 0x1_0000_0000 == (b * 0xC2B2_AE35u32) % 0x1_0000_0000 ==> a == b)
        by (bit_vector);
    assert((a * 0x27D4_EB2Fu32) % 0x1_0000_0000 == (b * 0x27D4_EB2Fu32) % 0x1_0000_0000 ==> a == b)
        by (bit_vector);
}

proof fn lemma_xorshift_injective(a: u32, b: u32)
    ensures
        a ^ (a >> 13u32) == b ^ (b >> 13u32) ==> a == b,
        a ^ (a >> 15u32) == b ^ (b >> 15u32) ==> a == b,
        a ^ (a >> 16u32) == b ^ (b >> 16u32) ==> a == b,
        a ^ 0x9E37_79B9u32 == b ^ 0x9E37_79B9u32 ==> a == b,
{
    assert(a ^ (a >> 13u32) == b ^ (b >> 13u32) ==> a == b) by (bit_vector);
    assert(a ^ (a >> 15u32) == b ^ (b >> 15u32) ==> a == b) by (bit_vector);
    assert(a ^ (a >> 16u32) == b ^ (b >> 16u32) ==> a == b) by (bit_vector);
    assert(a ^ 0x9E37_79B9u32 == b ^ 0x9E37_79B9u32 ==> a == b) by (bit_vector);
}

proof fn lemma_cast_injective(a: i32, b: i32)
    ensures
        a as u32 == b as u32 ==> a == b,
{
    assert(a as u32 == b as u32 ==> a == b) by (bit_vector);
}

spec fn hash_mid(seed: u32, x: i32, z: i32) -> u32 {
    let h1 = vstd::wrapping::u32_specs::wrapping_add(
        seed ^ 0x9E37_79B9u32,
        vstd::wrapping::u32_specs::wrapping_mul(x as u32, 0x85EB_CA6Bu32),
    );
    vstd::wrapping::u32_specs::wrapping_add(
        h1 ^ (h1 >> 13u32),
        vstd::wrapping::u32_specs::wrapping_mul(z as u32, 0xC2B2_AE35u32),
    )
}

spec fn hash_tail(t: u32) -> u32 {
    let h4 = t ^ (t >> 16u32);
    let h5 = vstd::wrapping::u32_specs::wrapping_mul(h4, 0x27D4_EB2Fu32);
    h5 ^ (h5 >> 15u32)
}

proof fn lemma_tail_injective(t1: u32, t2: u32)
    ensures
        hash_tail(t1) == hash_tail(t2) ==> t1 == t2,
{
    let a4 = t1 ^ (t1 >> 16u32);
    let b4 = t2 ^ (t2 >> 16u32);
    let a5 = vstd::wrapping::u32_specs::wrapping_mul(a4, 0x27D4_EB2Fu32);
    let b5 = vstd::wrapping::u32_specs::wrapping_mul(b4, 0x27D4_EB2Fu32);
    lemma_xorshift_injective(a5, b5);
    lemma_mul_odd_injective(a4, b4);
    lemma_xorshift_injective(t1, t2);
}

proof fn lemma_mid_injective(s1: u32, a1: i32, c1: i32, s2: u32, a2: i32, c2: i32)
    requires
        hash_mid(s1, a1, c1) == hash_mid(s2, a2, c2),
        (s1 == s2 && c1 == c2) || (s1 == s2 && a1 == a2) || (a1 == a2 && c1 == c2),
    ensures
        s1 == s2 && a1 == a2 && c1 == c2,
{
    let b1 = vstd::wrapping::u32_specs::wrapping_add(
        s1 ^ 0x9E37_79B9u32,
        vstd::wrapping::u32_specs::wrapping_mul(a1 as u32, 0x85EB_CA6Bu32),
    );
    let b2 = vstd::wrapping::u32_specs::wrapping_add(
        s2 ^ 0x9E37_79B9u32,
        vstd::wrapping::u32_specs::wrapping_mul(a2 as u32, 0x85EB_CA6Bu32),
    );
    let m1 = vstd::wrapping::u32_specs::wrapping_mul(c1 as u32, 0xC2B2_AE35u32);
    let m2 = vstd::wrapping::u32_specs::wrapping_mul(c2 as u32, 0xC2B2_AE35u32);
    lemma_add_cancel(b1 ^ (b1 >> 13u32), m1, b2 ^ (b2 >> 13u32), m2);
    if s1 == s2 && a1 == a2 {
        lemma_mul_odd_injective(c1 as u32, c2 as u32);
        lemma_cast_injective(c1, c2);
    } else {
        lemma_xorshift_injective(b1, b2);
        lemma_add_cancel(
            s1 ^ 0x9E37_79B9u32,
            vstd::wrapping::u32_specs::wrapping_mul(a1 as u32, 0x85EB_CA6Bu32),
            s2 ^ 0x9E37_79B9u32,
            vstd::wrapping::u32_specs::wrapping_mul(a2 as u32, 0x85EB_CA6Bu32),
        );
        lemma_mul_odd_injective(a1 as u32, a2 as u32);
        lemma_cast_injective(a1, a2);
        lemma_xorshift_injective(s1, s2);
    }
}

/// The hash tells apart columns that differ in one coordinate, and seeds:
/// with the other two inputs fixed, it is injective in `x`, in `z` and in
/// `seed` (every round is a bijection of `u32`).
pub proof fn lemma_hash2_injective(x: i32, z: i32, seed: u32, x2: i32, z2: i32, seed2: u32)
    ensures
        spec_hash2(x, z, seed) == spec_hash2(x2, z, seed) ==> x == x2,
        spec_hash2(x, z, seed) == spec_hash2(x, z2, seed) ==> z == z2,
        spec_hash2(x, z, seed) == spec_hash2(x, z, seed2) ==> seed == seed2,
{
    assert(spec_hash2(x, z, seed) == hash_tail(hash_mid(seed, x, z)));
    assert(spec_hash2(x2, z, seed) == hash_tail(hash_mid(seed, x2, z)));
    assert(spec_hash2(x, z2, seed) == hash_tail(hash_mid(seed, x, z2)));
    assert(spec_hash2(x, z, seed2) == hash_tail(hash_mid(seed2, x, z)));
    if spec_hash2(x, z, seed) == spec_hash2(x2, z, seed) {
        lemma_tail_injective(hash_mid(seed, x, z), hash_mid(seed, x2, z));
        lemma_mid_injective(seed, x, z, seed, x2, z);
    }
    if spec_hash2(x, z, seed) == spec_hash2(x, z2, seed) {
        lemma_tail_injective(hash_mid(seed, x, z), hash_mid(seed, x, z2));
        lemma_mid_injective(seed, x, z, seed, x, z2);
    }
    if spec_hash2(x, z, seed) == spec_hash2(x, z, seed2) {
        lemma_tail_injective(hash_mid(seed, x, z), hash_mid(seed2, x, z));
        lemma_mid_injective(seed, x, z, seed2, x, z);
    }
}

} // verus!
