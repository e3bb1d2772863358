//! The CRC-16 used by the HDLC-style frame check sequence (RFC 1662 FCS-16).
//!
//! The checksum is run bit by bit, least significant bit first, with the
//! reflected polynomial `0x8408`. A received frame is valid when the
//! checksum over its stored bytes (control byte, payload and the two
//! appended FCS bytes), seeded with `0x00FF`, equals the residual `0xF0B8`.

use vstd::prelude::*;

verus! {

/// One bit step of the checksum: fold the low bit of `b` into `f`.
pub open spec fn crc16_round(f: u16, b: u16) -> u16 {
    if (f ^ b) & 1 == 1 {
        (f >> 1) ^ 0x8408
    } else {
        f >> 1
    }
}

/// Fold one byte into the running checksum, least significant bit first.
pub open spec fn crc16_byte(f: u16, b: u8) -> u16 {
    let x = b as u16;
    crc16_round(
        crc16_round(
            crc16_round(
                crc16_round(
                    crc16_round(
                        crc16_round(crc16_round(crc16_round(f, x), x >> 1), x >> 2),
                        x >> 3,
                    ),
                    x >> 4,
                ),
                x >> 5,
            ),
            x >> 6,
        ),
        x >> 7,
    )
}

/// The checksum of `s`, seeded with `f`.
pub open spec fn crc16_spec(f: u16, s: Seq<u8>) -> u16
    decreases s.len(),
{
    if s.len() == 0 {
        f
    } else {
        crc16_byte(crc16_spec(f, s.drop_last()), s.last())
    }
}

/// Folding one more byte extends the checksum by one `crc16_byte` step.
pub proof fn lemma_crc16_spec_push(f: u16, s: Seq<u8>, b: u8)
    ensures
        crc16_spec(f, s.push(b)) == crc16_byte(crc16_spec(f, s), b),
{
    assert(s.push(b).drop_last() =~= s);
}

/// The checksum of a concatenation is the checksum of the second part
/// seeded with the checksum of the first.
pub proof fn lemma_crc16_spec_append(f: u16, a: Seq<u8>, b: Seq<u8>)
    ensures
        crc16_spec(f, a + b) == crc16_spec(crc16_spec(f, a), b),
    decreases b.len(),
{
    if b.len() == 0 {
        assert(a + b =~= a);
    } else {
        lemma_crc16_spec_append(f, a, b.drop_last());
        assert((a + b).drop_last() =~= a + b.drop_last());
        assert((a + b).last() == b.last());
    }
}

/// Seeding with `0xFFFF` and folding in the frame's address byte `0xFF`
/// yields the seed `0x00FF` used over the stored bytes.
pub proof fn lemma_crc16_address_seed()
    ensures
        crc16_byte(0xFFFF, 0xFF) == 0x00FF,
{
    assert(crc16_byte(0xFFFF, 0xFF) == 0x00FF) by (bit_vector);
}

/// Appending the complemented checksum (low byte first) to any byte
/// sequence drives the checksum to the fixed residual `0xF0B8`.
pub proof fn lemma_crc16_residual(f: u16)
    ensures
        crc16_byte(crc16_byte(f, !f as u8), (!f >> 8) as u8) == 0xF0B8,
{
    let u: u16 = f >> 8;
    assert(u <= 0xFF) by (bit_vector)
        requires
            u == f >> 8,
    ;
    assert(crc16_byte(f, !f as u8) == (f >> 8) ^ 0x0F78) by (bit_vector);
    assert((!f >> 8) as u8 == !u as u8) by (bit_vector)
        requires
            u == f >> 8,
    ;
    assert(crc16_byte(u ^ 0x0F78, !u as u8) == 0xF0B8) by (bit_vector)
        requires
            u <= 0xFF,
    ;
}

/// Fold one byte into the running checksum.
pub fn crc16_byte_step(f: u16, b: u8) -> (r: u16)
    ensures
        r == crc16_byte(f, b),
{
    let x: u16 = b as u16;
    let f0: u16 = if (f ^ x) & 1 == 1 { (f >> 1) ^ 0x8408 } else { f >> 1 };
    let f1: u16 = if (f0 ^ (x >> 1)) & 1 == 1 { (f0 >> 1) ^ 0x8408 } else { f0 >> 1 };
    let f2: u16 = if (f1 ^ (x >> 2)) & 1 == 1 { (f1 >> 1) ^ 0x8408 } else { f1 >> 1 };
    let f3: u16 = if (f2 ^ (x >> 3)) & 1 == 1 { (f2 >> 1) ^ 0x8408 } else { f2 >> 1 };
    let f4: u16 = if (f3 ^ (x >> 4)) & 1 == 1 { (f3 >> 1) ^ 0x8408 } else { f3 >> 1 };
    let f5: u16 = if (f4 ^ (x >> 5)) & 1 == 1 { (f4 >> 1) ^ 0x8408 } else { f4 >> 1 };
    let f6: u16 = if (f5 ^ (x >> 6)) & 1 == 1 { (f5 >> 1) ^ 0x8408 } else { f5 >> 1 };
    let f7: u16 = if (f6 ^ (x >> 7)) & 1 == 1 { (f6 >> 1) ^ 0x8408 } else { f6 >> 1 };
    f7
}

/// The streaming CRC-16 over `data`, seeded with `init`.
pub fn crc16(init: u16, data: &[u8]) -> (r: u16)
    ensures
        r == crc16_spec(init, data@),
{
    let mut fcs: u16 = init;
    let mut i: usize = 0;
    while i < data.len()
        invariant
            i <= data@.len(),
            fcs == crc16_spec(init, data@.take(i as int)),
        decreases data@.len() - i,
    {
        let b = data[i];
        fcs = crc16_byte_step(fcs, b);
        proof {
            assert(data@.take(i + 1).drop_last() =~= data@.take(i as int));
            assert(data@.take(i + 1).last() == data@[i as int]);
        }
        i = i + 1;
    }
    proof {
        assert(data@.take(data@.len() as int) =~= data@);
    }
    fcs
}

} // verus!
