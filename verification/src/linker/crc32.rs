//! The container checksum: CRC-32 (IEEE 802.3, reflected, polynomial
//! `0xEDB88320`, initial value and final xor `0xFFFFFFFF`).

use vstd::prelude::*;

verus! {

/// The reflected CRC-32 polynomial.
pub const POLY: u32 = 0xEDB8_8320;

/// One shift-register step: shift right, folding in the polynomial when the
/// bit shifted out is set.
pub open spec fn crc_step(c: u32) -> u32 {
    if c & 1 == 1 { (c >> 1) ^ POLY } else { c >> 1 }
}

/// `n` register steps.
pub open spec fn crc_steps(c: u32, n: nat) -> u32
    decreases n,
{
    if n == 0 { c } else { crc_steps(crc_step(c), (n - 1) as nat) }
}

/// The register after absorbing one byte.
pub open spec fn crc_byte(c: u32, b: u8) -> u32 {
    crc_steps(c ^ (b as u32), 8)
}

/// The register after absorbing every byte of `data`, starting from `c`.
pub open spec fn crc_fold(c: u32, data: Seq<u8>) -> u32
    decreases data.len(),
{
    if data.len() == 0 { c } else { crc_byte(crc_fold(c, data.drop_last()), data.last()) }
}

/// CRC-32 of `data`.
pub open spec fn spec_crc32(data: Seq<u8>) -> u32 {
    !crc_fold(0xFFFF_FFFFu32, data)
}

/// CRC-32 of `data` (the checksum every container and content address uses).
pub fn crc32(data: &[u8]) -> (r: u32)
    ensures
        r == spec_crc32(data@),
{
    let mut c: u32 = 0xFFFF_FFFF;
    let mut i: usize = 0;
    while i < data.len()
        invariant
            i <= data@.len(),
            c == crc_fold(0xFFFF_FFFFu32, data@.take(i as int)),
        decreases data@.len() - i,
    {
        let ghost before = c;
        c = c ^ (data[i] as u32);
        let mut k: u32 = 0;
        while k < 8
            invariant
                k <= 8,
                crc_steps(c, (8 - k) as nat) == crc_byte(before, data@[i as int]),
            decreases 8 - k,
        {
            if c & 1 == 1 {
                c = (c >> 1) ^ POLY;
            } else {
                c = c >> 1;
            }
            k = k + 1;
        }
        assert(data@.take(i + 1).drop_last() =~= data@.take(i as int));
        i = i + 1;
    }
    assert(data@.take(data@.len() as int) =~= data@);
    !c
}

} // verus!
