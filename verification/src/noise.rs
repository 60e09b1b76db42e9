use vstd::prelude::*;

verus! {

/// The integer hash behind the bed's texture noise: the coordinates and the
/// seed are mixed by multiplication and xor-shift modulo 2^32 (the
/// coordinates first reduced to 32 bits), and bits 8 to 23 are kept.
pub open spec fn coord_hash_spec(x: usize, y: usize, seed: u32) -> u32 {
    let n0 = ((x as u32).wrapping_mul(374_761_393u32) ^ (y as u32).wrapping_mul(668_265_263u32)) ^ seed;
    let n1 = (n0 ^ (n0 >> 13u32)).wrapping_mul(1_274_126_177u32);
    (n1 >> 8u32) & 0xffffu32
}

/// Hashes a pixel position and a seed to a value in `0..=0xffff`.
pub fn coord_hash(x: usize, y: usize, seed: u32) -> (r: u32)
    ensures
        r == coord_hash_spec(x, y, seed),
        r <= 0xffff,
{
    let mut n = (x as u32).wrapping_mul(374_761_393u32) ^ (y as u32).wrapping_mul(668_265_263u32) ^ seed;
    n = (n ^ (n >> 13u32)).wrapping_mul(1_274_126_177u32);
    let r = (n >> 8u32) & 0xffffu32;
    assert(r <= 0xffff) by (bit_vector)
        requires
            r == (n >> 8u32) & 0xffffu32,
    ;
    r
}

} // verus!
