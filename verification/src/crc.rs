//! The checksum that ZIP keeps of every file.

use vstd::prelude::*;

verus! {

/// One step of the division by the CRC-32 polynomial, lowest bit first.
pub open spec fn crc_bit(c: u32) -> u32 {
    if c & 1 == 1 {
        (c >> 1) ^ 0xEDB8_8320
    } else {
        c >> 1
    }
}

/// `n` steps of the division.
pub open spec fn crc_bits(c: u32, n: nat) -> u32
    decreases n,
{
    if n == 0 {
        c
    } else {
        crc_bits(crc_bit(c), (n - 1) as nat)
    }
}

/// The remainder after all bytes of `data`, starting from all ones.
pub open spec fn crc_register(data: Seq<u8>) -> u32
    decreases data.len(),
{
    if data.len() == 0 {
        0xFFFF_FFFF
    } else {
        crc_bits(crc_register(data.drop_last()) ^ (data.last() as u32), 8)
    }
}

/// CRC-32 (IEEE) of `data`.
pub open spec fn crc32(data: Seq<u8>) -> u32 {
    crc_register(data) ^ 0xFFFF_FFFF
}

/// `crc32fast::Hasher` over the whole of `data`: its CRC-32 (IEEE).
#[verifier::external_body]
pub(crate) fn crc32_of(data: &[u8]) -> (crc: u32)
    ensures
        crc == crc32(data@),
{
    let mut hasher = crc32fast::Hasher::new();
    hasher.update(data);
    hasher.finalize()
}

/// The checksum of nothing is zero, and one more byte takes the checksum on by
/// eight steps of the division by the polynomial `0xEDB88320`, whatever came
/// before.
pub proof fn law_crc32_byte_by_byte(data: Seq<u8>, b: u8)
    ensures
        crc32(Seq::empty()) == 0,
        ({
            let step = |c: u32|
                if c & 1 == 1 {
                    (c >> 1) ^ 0xEDB8_8320u32
                } else {
                    c >> 1
                };
            let c = crc32(data) ^ 0xFFFF_FFFFu32 ^ (b as u32);
            crc32(data.push(b)) == step(step(step(step(step(step(step(step(c)))))))) ^ 0xFFFF_FFFFu32
        }),
{
    assert(0xFFFF_FFFFu32 ^ 0xFFFF_FFFFu32 == 0) by (bit_vector);
    let r = crc_register(data);
    assert(r ^ 0xFFFF_FFFFu32 ^ 0xFFFF_FFFFu32 == r) by (bit_vector);
    assert(data.push(b).drop_last() =~= data);
    reveal_with_fuel(crc_bits, 9);
}

} // verus!
