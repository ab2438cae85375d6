//! A `std::hash::Hasher` that computes CRC-32 checksums with the `crc32fast`
//! crate, and the `std::hash::BuildHasher` that makes such hashers.
//!
//! The checksum is the one of IEEE 802.3: the remainder of a division by the
//! polynomial `04c11db7`, bits in reverse, with all bits of the register set
//! at the start and turned at the end.

use std::hash::BuildHasher;
use std::hash::Hasher;
use vstd::prelude::*;

verus! {

/// The hasher of `crc32fast`. Nothing is known of what is inside but what
/// the functions below say.
#[verifier::external_type_specification]
#[verifier::external_body]
pub struct ExCrcState(crc32fast::Hasher);

/// The bytes that a `crc32fast::Hasher` has been given since it was made, in
/// the order in which it got them.
pub uninterp spec fn hashed_bytes(state: crc32fast::Hasher) -> Seq<u8>;

/// The polynomial of CRC-32, with its bits in reverse.
pub const POLYNOMIAL: u32 = 0xedb8_8320;

/// One step of the division by the polynomial: the register moves by one
/// bit, and the polynomial is taken off where a 1 leaves it.
pub open spec fn crc_bit_step(register: u32) -> u32 {
    if register & 1 == 1 {
        (register >> 1) ^ POLYNOMIAL
    } else {
        register >> 1
    }
}

/// The register after one more byte: the byte is laid over the lowest bits,
/// and eight steps follow.
pub open spec fn crc_byte_step(register: u32, byte: u8) -> u32 {
    crc_bit_step(
        crc_bit_step(
            crc_bit_step(
                crc_bit_step(
                    crc_bit_step(crc_bit_step(crc_bit_step(crc_bit_step(register ^ (byte as u32))))),
                ),
            ),
        ),
    )
}

/// The register after a sequence of bytes.
pub open spec fn crc_register(register: u32, bytes: Seq<u8>) -> u32
    decreases bytes.len(),
{
    if bytes.len() == 0 {
        register
    } else {
        crc_byte_step(crc_register(register, bytes.drop_last()), bytes.last())
    }
}

/// The CRC-32 checksum of a sequence of bytes: the register starts with all
/// bits set, and the checksum is the register with every bit turned.
pub open spec fn crc32_checksum(bytes: Seq<u8>) -> u32 {
    crc_register(0xffff_ffff, bytes) ^ 0xffff_ffff
}

/// `crc32fast::Hasher::new`. Trusted: a new hasher has been given no bytes.
pub assume_specification[ crc32fast::Hasher::new ]() -> (state: crc32fast::Hasher)
    ensures
        hashed_bytes(state) == Seq::<u8>::empty(),
;

/// `crc32fast::Hasher::update`. Trusted: it takes the bytes of the slice in,
/// behind those that the hasher has already been given. The hasher counts
/// its bytes in a `u64`, which the count must fit.
pub assume_specification[ crc32fast::Hasher::update ](state: &mut crc32fast::Hasher, buf: &[u8])
    requires
        hashed_bytes(*old(state)).len() + buf@.len() <= u64::MAX,
    ensures
        hashed_bytes(*final(state)) == hashed_bytes(*old(state)) + buf@,
;

/// `crc32fast::Hasher`'s `std::hash::Hasher::finish`. Trusted: it returns
/// the CRC-32 checksum, as [`crc32_checksum`] states it, of the bytes that
/// the hasher has been given, widened to a `u64`.
pub assume_specification[ <crc32fast::Hasher as Hasher>::finish ](
    state: &crc32fast::Hasher,
) -> (sum: u64)
    ensures
        sum == crc32_checksum(hashed_bytes(*state)),
;

/// Wrapper around `crc32fast::Hasher` which implements `std::hash::Hasher`.
pub struct CRC32Hasher {
    hasher: crc32fast::Hasher,
}

impl View for CRC32Hasher {
    type V = Seq<u8>;

    /// The bytes written so far.
    closed spec fn view(&self) -> Seq<u8> {
        hashed_bytes(self.hasher)
    }
}

impl CRC32Hasher {
    fn new() -> (hasher: Self)
        ensures
            hasher@ == Seq::<u8>::empty(),
    {
        Self { hasher: crc32fast::Hasher::new() }
    }
}

impl Hasher for CRC32Hasher {
    /// The checksum of all bytes written so far.
    fn finish(&self) -> (sum: u64)
        ensures
            sum == crc32_checksum(self@),
    {
        self.hasher.finish()
    }

    /// Writes the bytes behind those written so far.
    fn write(&mut self, bytes: &[u8])
        requires
            old(self)@.len() + bytes@.len() <= u64::MAX,
        ensures
            final(self)@ == old(self)@ + bytes@,
    {
        self.hasher.update(bytes)
    }
}

/// `std::hash::BuildHasher` that builds `CRC32Hasher`s.
#[derive(Clone)]
pub struct CRC32BuildHasher;

impl BuildHasher for CRC32BuildHasher {
    type Hasher = CRC32Hasher;

    /// A hasher to which nothing has been written yet.
    fn build_hasher(&self) -> (hasher: CRC32Hasher)
        ensures
            hasher@ == Seq::<u8>::empty(),
    {
        CRC32Hasher::new()
    }
}

/// The bytes of the text `123456789`, by which checksums are told apart.
pub open spec fn check_bytes() -> Seq<u8> {
    seq![0x31u8, 0x32u8, 0x33u8, 0x34u8, 0x35u8, 0x36u8, 0x37u8, 0x38u8, 0x39u8]
}

/// The checksum of no bytes is 0.
pub proof fn lemma_checksum_of_nothing()
    ensures
        crc32_checksum(Seq::empty()) == 0,
{
    assert(0xffff_ffffu32 ^ 0xffff_ffffu32 == 0) by (bit_vector);
}

/// The checksum of the text `123456789` is `cbf43926`.
pub proof fn lemma_checksum_of_check_bytes()
    ensures
        crc32_checksum(check_bytes()) == 0xcbf4_3926,
{
    let bytes = check_bytes();
    lemma_check_byte_steps();
    assert(crc_register(0xffff_ffff, bytes.take(0)) == 0xffff_ffff);
    assert(bytes.take(1).drop_last() =~= bytes.take(0));
    assert(bytes.take(1).last() == 0x31);
    assert(crc_register(0xffff_ffff, bytes.take(1)) == 0x7c23_1048);
    assert(bytes.take(2).drop_last() =~= bytes.take(1));
    assert(bytes.take(2).last() == 0x32);
    assert(crc_register(0xffff_ffff, bytes.take(2)) == 0xb0ac_bb32);
    assert(bytes.take(3).drop_last() =~= bytes.take(2));
    assert(bytes.take(3).last() == 0x33);
    assert(crc_register(0xffff_ffff, bytes.take(3)) == 0x77b7_9c2d);
    assert(bytes.take(4).drop_last() =~= bytes.take(3));
    assert(bytes.take(4).last() == 0x34);
    assert(crc_register(0xffff_ffff, bytes.take(4)) == 0x641c_1f5c);
    assert(bytes.take(5).drop_last() =~= bytes.take(4));
    assert(bytes.take(5).last() == 0x35);
    assert(crc_register(0xffff_ffff, bytes.take(5)) == 0x340a_c5e3);
    assert(bytes.take(6).drop_last() =~= bytes.take(5));
    assert(bytes.take(6).last() == 0x36);
    assert(crc_register(0xffff_ffff, bytes.take(6)) == 0xf68d_2c9e);
    assert(bytes.take(7).drop_last() =~= bytes.take(6));
    assert(bytes.take(7).last() == 0x37);
    assert(crc_register(0xffff_ffff, bytes.take(7)) == 0xaffc_9660);
    assert(bytes.take(8).drop_last() =~= bytes.take(7));
    assert(bytes.take(8).last() == 0x38);
    assert(crc_register(0xffff_ffff, bytes.take(8)) == 0x651f_2550);
    assert(bytes.take(9).drop_last() =~= bytes.take(8));
    assert(bytes.take(9).last() == 0x39);
    assert(crc_register(0xffff_ffff, bytes.take(9)) == 0x340b_c6d9);
    assert(bytes.take(9) =~= bytes);
    assert(0x340b_c6d9u32 ^ 0xffff_ffffu32 == 0xcbf4_3926u32) by (bit_vector);
}

/// The registers that the bytes of `123456789` go through, one by one.
proof fn lemma_check_byte_steps()
    ensures
        crc_byte_step(0xffff_ffff, 0x31) == 0x7c23_1048,
        crc_byte_step(0x7c23_1048, 0x32) == 0xb0ac_bb32,
        crc_byte_step(0xb0ac_bb32, 0x33) == 0x77b7_9c2d,
        crc_byte_step(0x77b7_9c2d, 0x34) == 0x641c_1f5c,
        crc_byte_step(0x641c_1f5c, 0x35) == 0x340a_c5e3,
        crc_byte_step(0x340a_c5e3, 0x36) == 0xf68d_2c9e,
        crc_byte_step(0xf68d_2c9e, 0x37) == 0xaffc_9660,
        crc_byte_step(0xaffc_9660, 0x38) == 0x651f_2550,
        crc_byte_step(0x651f_2550, 0x39) == 0x340b_c6d9,
{
    assert(crc_byte_step(0xffff_ffff, 0x31) == 0x7c23_1048) by {
        let r0: u32 = 0xffff_ffffu32 ^ 0x31u32;
        let r1: u32 = crc_bit_step(r0);
        let r2: u32 = crc_bit_step(r1);
        let r3: u32 = crc_bit_step(r2);
        let r4: u32 = crc_bit_step(r3);
        let r5: u32 = crc_bit_step(r4);
        let r6: u32 = crc_bit_step(r5);
        let r7: u32 = crc_bit_step(r6);
        let r8: u32 = crc_bit_step(r7);
        assert(r8 == 0x7c23_1048u32) by (bit_vector)
            requires
                r0 == 0xffff_ffffu32 ^ 0x31u32,
                r1 == if r0 & 1 == 1 { (r0 >> 1) ^ 0xedb8_8320u32 } else { r0 >> 1 },
                r2 == if r1 & 1 == 1 { (r1 >> 1) ^ 0xedb8_8320u32 } else { r1 >> 1 },
                r3 == if r2 & 1 == 1 { (r2 >> 1) ^ 0xedb8_8320u32 } else { r2 >> 1 },
                r4 == if r3 & 1 == 1 { (r3 >> 1) ^ 0xedb8_8320u32 } else { r3 >> 1 },
                r5 == if r4 & 1 == 1 { (r4 >> 1) ^ 0xedb8_8320u32 } else { r4 >> 1 },
                r6 == if r5 & 1 == 1 { (r5 >> 1) ^ 0xedb8_8320u32 } else { r5 >> 1 },
                r7 == if r6 & 1 == 1 { (r6 >> 1) ^ 0xedb8_8320u32 } else { r6 >> 1 },
                r8 == if r7 & 1 == 1 { (r7 >> 1) ^ 0xedb8_8320u32 } else { r7 >> 1 },
        ;
    }
    assert(crc_byte_step(0x7c23_1048, 0x32) == 0xb0ac_bb32) by {
        let r0: u32 = 0x7c23_1048u32 ^ 0x32u32;
        let r1: u32 = crc_bit_step(r0);
        let r2: u32 = crc_bit_step(r1);
        let r3: u32 = crc_bit_step(r2);
        let r4: u32 = crc_bit_step(r3);
        let r5: u32 = crc_bit_step(r4);
        let r6: u32 = crc_bit_step(r5);
        let r7: u32 = crc_bit_step(r6);
        let r8: u32 = crc_bit_step(r7);
        assert(r8 == 0xb0ac_bb32u32) by (bit_vector)
            requires
                r0 == 0x7c23_1048u32 ^ 0x32u32,
                r1 == if r0 & 1 == 1 { (r0 >> 1) ^ 0xedb8_8320u32 } else { r0 >> 1 },
                r2 == if r1 & 1 == 1 { (r1 >> 1) ^ 0xedb8_8320u32 } else { r1 >> 1 },
                r3 == if r2 & 1 == 1 { (r2 >> 1) ^ 0xedb8_8320u32 } else { r2 >> 1 },
                r4 == if r3 & 1 == 1 { (r3 >> 1) ^ 0xedb8_8320u32 } else { r3 >> 1 },
                r5 == if r4 & 1 == 1 { (r4 >> 1) ^ 0xedb8_8320u32 } else { r4 >> 1 },
                r6 == if r5 & 1 == 1 { (r5 >> 1) ^ 0xedb8_8320u32 } else { r5 >> 1 },
                r7 == if r6 & 1 == 1 { (r6 >> 1) ^ 0xedb8_8320u32 } else { r6 >> 1 },
                r8 == if r7 & 1 == 1 { (r7 >> 1) ^ 0xedb8_8320u32 } else { r7 >> 1 },
        ;
    }
    assert(crc_byte_step(0xb0ac_bb32, 0x33) == 0x77b7_9c2d) by {
        let r0: u32 = 0xb0ac_bb32u32 ^ 0x33u32;
        let r1: u32 = crc_bit_step(r0);
        let r2: u32 = crc_bit_step(r1);
        let r3: u32 = crc_bit_step(r2);
        let r4: u32 = crc_bit_step(r3);
        let r5: u32 = crc_bit_step(r4);
        let r6: u32 = crc_bit_step(r5);
        let r7: u32 = crc_bit_step(r6);
        let r8: u32 = crc_bit_step(r7);
        assert(r8 == 0x77b7_9c2du32) by (bit_vector)
            requires
                r0 == 0xb0ac_bb32u32 ^ 0x33u32,
                r1 == if r0 & 1 == 1 { (r0 >> 1) ^ 0xedb8_8320u32 } else { r0 >> 1 },
                r2 == if r1 & 1 == 1 { (r1 >> 1) ^ 0xedb8_8320u32 } else { r1 >> 1 },
                r3 == if r2 & 1 == 1 { (r2 >> 1) ^ 0xedb8_8320u32 } else { r2 >> 1 },
                r4 == if r3 & 1 == 1 { (r3 >> 1) ^ 0xedb8_8320u32 } else { r3 >> 1 },
                r5 == if r4 & 1 == 1 { (r4 >> 1) ^ 0xedb8_8320u32 } else { r4 >> 1 },
                r6 == if r5 & 1 == 1 { (r5 >> 1) ^ 0xedb8_8320u32 } else { r5 >> 1 },
                r7 == if r6 & 1 == 1 { (r6 >> 1) ^ 0xedb8_8320u32 } else { r6 >> 1 },
                r8 == if r7 & 1 == 1 { (r7 >> 1) ^ 0xedb8_8320u32 } else { r7 >> 1 },
        ;
    }
    assert(crc_byte_step(0x77b7_9c2d, 0x34) == 0x641c_1f5c) by {
        let r0: u32 = 0x77b7_9c2du32 ^ 0x34u32;
        let r1: u32 = crc_bit_step(r0);
        let r2: u32 = crc_bit_step(r1);
        let r3: u32 = crc_bit_step(r2);
        let r4: u32 = crc_bit_step(r3);
        let r5: u32 = crc_bit_step(r4);
        let r6: u32 = crc_bit_step(r5);
        let r7: u32 = crc_bit_step(r6);
        let r8: u32 = crc_bit_step(r7);
        assert(r8 == 0x641c_1f5cu32) by (bit_vector)
            requires
                r0 == 0x77b7_9c2du32 ^ 0x34u32,
                r1 == if r0 & 1 == 1 { (r0 >> 1) ^ 0xedb8_8320u32 } else { r0 >> 1 },
                r2 == if r1 & 1 == 1 { (r1 >> 1) ^ 0xedb8_8320u32 } else { r1 >> 1 },
                r3 == if r2 & 1 == 1 { (r2 >> 1) ^ 0xedb8_8320u32 } else { r2 >> 1 },
                r4 == if r3 & 1 == 1 { (r3 >> 1) ^ 0xedb8_8320u32 } else { r3 >> 1 },
                r5 == if r4 & 1 == 1 { (r4 >> 1) ^ 0xedb8_8320u32 } else { r4 >> 1 },
                r6 == if r5 & 1 == 1 { (r5 >> 1) ^ 0xedb8_8320u32 } else { r5 >> 1 },
                r7 == if r6 & 1 == 1 { (r6 >> 1) ^ 0xedb8_8320u32 } else { r6 >> 1 },
                r8 == if r7 & 1 == 1 { (r7 >> 1) ^ 0xedb8_8320u32 } else { r7 >> 1 },
        ;
    }
    assert(crc_byte_step(0x641c_1f5c, 0x35) == 0x340a_c5e3) by {
        let r0: u32 = 0x641c_1f5cu32 ^ 0x35u32;
        let r1: u32 = crc_bit_step(r0);
        let r2: u32 = crc_bit_step(r1);
        let r3: u32 = crc_bit_step(r2);
        let r4: u32 = crc_bit_step(r3);
        let r5: u32 = crc_bit_step(r4);
        let r6: u32 = crc_bit_step(r5);
        let r7: u32 = crc_bit_step(r6);
        let r8: u32 = crc_bit_step(r7);
        assert(r8 == 0x340a_c5e3u32) by (bit_vector)
            requires
                r0 == 0x641c_1f5cu32 ^ 0x35u32,
                r1 == if r0 & 1 == 1 { (r0 >> 1) ^ 0xedb8_8320u32 } else { r0 >> 1 },
                r2 == if r1 & 1 == 1 { (r1 >> 1) ^ 0xedb8_8320u32 } else { r1 >> 1 },
                r3 == if r2 & 1 == 1 { (r2 >> 1) ^ 0xedb8_8320u32 } else { r2 >> 1 },
                r4 == if r3 & 1 == 1 { (r3 >> 1) ^ 0xedb8_8320u32 } else { r3 >> 1 },
                r5 == if r4 & 1 == 1 { (r4 >> 1) ^ 0xedb8_8320u32 } else { r4 >> 1 },
                r6 == if r5 & 1 == 1 { (r5 >> 1) ^ 0xedb8_8320u32 } else { r5 >> 1 },
                r7 == if r6 & 1 == 1 { (r6 >> 1) ^ 0xedb8_8320u32 } else { r6 >> 1 },
                r8 == if r7 & 1 == 1 { (r7 >> 1) ^ 0xedb8_8320u32 } else { r7 >> 1 },
        ;
    }
    assert(crc_byte_step(0x340a_c5e3, 0x36) == 0xf68d_2c9e) by {
        let r0: u32 = 0x340a_c5e3u32 ^ 0x36u32;
        let r1: u32 = crc_bit_step(r0);
        let r2: u32 = crc_bit_step(r1);
        let r3: u32 = crc_bit_step(r2);
        let r4: u32 = crc_bit_step(r3);
        let r5: u32 = crc_bit_step(r4);
        let r6: u32 = crc_bit_step(r5);
        let r7: u32 = crc_bit_step(r6);
        let r8: u32 = crc_bit_step(r7);
        assert(r8 == 0xf68d_2c9eu32) by (bit_vector)
            requires
                r0 == 0x340a_c5e3u32 ^ 0x36u32,
                r1 == if r0 & 1 == 1 { (r0 >> 1) ^ 0xedb8_8320u32 } else { r0 >> 1 },
                r2 == if r1 & 1 == 1 { (r1 >> 1) ^ 0xedb8_8320u32 } else { r1 >> 1 },
                r3 == if r2 & 1 == 1 { (r2 >> 1) ^ 0xedb8_8320u32 } else { r2 >> 1 },
                r4 == if r3 & 1 == 1 { (r3 >> 1) ^ 0xedb8_8320u32 } else { r3 >> 1 },
                r5 == if r4 & 1 == 1 { (r4 >> 1) ^ 0xedb8_8320u32 } else { r4 >> 1 },
                r6 == if r5 & 1 == 1 { (r5 >> 1) ^ 0xedb8_8320u32 } else { r5 >> 1 },
                r7 == if r6 & 1 == 1 { (r6 >> 1) ^ 0xedb8_8320u32 } else { r6 >> 1 },
                r8 == if r7 & 1 == 1 { (r7 >> 1) ^ 0xedb8_8320u32 } else { r7 >> 1 },
        ;
    }
    assert(crc_byte_step(0xf68d_2c9e, 0x37) == 0xaffc_9660) by {
        let r0: u32 = 0xf68d_2c9eu32 ^ 0x37u32;
        let r1: u32 = crc_bit_step(r0);
        let r2: u32 = crc_bit_step(r1);
        let r3: u32 = crc_bit_step(r2);
        let r4: u32 = crc_bit_step(r3);
        let r5: u32 = crc_bit_step(r4);
        let r6: u32 = crc_bit_step(r5);
        let r7: u32 = crc_bit_step(r6);
        let r8: u32 = crc_bit_step(r7);
        assert(r8 == 0xaffc_9660u32) by (bit_vector)
            requires
                r0 == 0xf68d_2c9eu32 ^ 0x37u32,
                r1 == if r0 & 1 == 1 { (r0 >> 1) ^ 0xedb8_8320u32 } else { r0 >> 1 },
                r2 == if r1 & 1 == 1 { (r1 >> 1) ^ 0xedb8_8320u32 } else { r1 >> 1 },
                r3 == if r2 & 1 == 1 { (r2 >> 1) ^ 0xedb8_8320u32 } else { r2 >> 1 },
                r4 == if r3 & 1 == 1 { (r3 >> 1) ^ 0xedb8_8320u32 } else { r3 >> 1 },
                r5 == if r4 & 1 == 1 { (r4 >> 1) ^ 0xedb8_8320u32 } else { r4 >> 1 },
                r6 == if r5 & 1 == 1 { (r5 >> 1) ^ 0xedb8_8320u32 } else { r5 >> 1 },
                r7 == if r6 & 1 == 1 { (r6 >> 1) ^ 0xedb8_8320u32 } else { r6 >> 1 },
                r8 == if r7 & 1 == 1 { (r7 >> 1) ^ 0xedb8_8320u32 } else { r7 >> 1 },
        ;
    }
    assert(crc_byte_step(0xaffc_9660, 0x38) == 0x651f_2550) by {
        let r0: u32 = 0xaffc_9660u32 ^ 0x38u32;
        let r1: u32 = crc_bit_step(r0);
        let r2: u32 = crc_bit_step(r1);
        let r3: u32 = crc_bit_step(r2);
        let r4: u32 = crc_bit_step(r3);
        let r5: u32 = crc_bit_step(r4);
        let r6: u32 = crc_bit_step(r5);
        let r7: u32 = crc_bit_step(r6);
        let r8: u32 = crc_bit_step(r7);
        assert(r8 == 0x651f_2550u32) by (bit_vector)
            requires
                r0 == 0xaffc_9660u32 ^ 0x38u32,
                r1 == if r0 & 1 == 1 { (r0 >> 1) ^ 0xedb8_8320u32 } else { r0 >> 1 },
                r2 == if r1 & 1 == 1 { (r1 >> 1) ^ 0xedb8_8320u32 } else { r1 >> 1 },
                r3 == if r2 & 1 == 1 { (r2 >> 1) ^ 0xedb8_8320u32 } else { r2 >> 1 },
                r4 == if r3 & 1 == 1 { (r3 >> 1) ^ 0xedb8_8320u32 } else { r3 >> 1 },
                r5 == if r4 & 1 == 1 { (r4 >> 1) ^ 0xedb8_8320u32 } else { r4 >> 1 },
                r6 == if r5 & 1 == 1 { (r5 >> 1) ^ 0xedb8_8320u32 } else { r5 >> 1 },
                r7 == if r6 & 1 == 1 { (r6 >> 1) ^ 0xedb8_8320u32 } else { r6 >> 1 },
                r8 == if r7 & 1 == 1 { (r7 >> 1) ^ 0xedb8_8320u32 } else { r7 >> 1 },
        ;
    }
    assert(crc_byte_step(0x651f_2550, 0x39) == 0x340b_c6d9) by {
        let r0: u32 = 0x651f_2550u32 ^ 0x39u32;
        let r1: u32 = crc_bit_step(r0);
        let r2: u32 = crc_bit_step(r1);
        let r3: u32 = crc_bit_step(r2);
        let r4: u32 = crc_bit_step(r3);
        let r5: u32 = crc_bit_step(r4);
        let r6: u32 = crc_bit_step(r5);
        let r7: u32 = crc_bit_step(r6);
        let r8: u32 = crc_bit_step(r7);
        assert(r8 == 0x340b_c6d9u32) by (bit_vector)
            requires
                r0 == 0x651f_2550u32 ^ 0x39u32,
                r1 == if r0 & 1 == 1 { (r0 >> 1) ^ 0xedb8_8320u32 } else { r0 >> 1 },
                r2 == if r1 & 1 == 1 { (r1 >> 1) ^ 0xedb8_8320u32 } else { r1 >> 1 },
                r3 == if r2 & 1 == 1 { (r2 >> 1) ^ 0xedb8_8320u32 } else { r2 >> 1 },
                r4 == if r3 & 1 == 1 { (r3 >> 1) ^ 0xedb8_8320u32 } else { r3 >> 1 },
                r5 == if r4 & 1 == 1 { (r4 >> 1) ^ 0xedb8_8320u32 } else { r4 >> 1 },
                r6 == if r5 & 1 == 1 { (r5 >> 1) ^ 0xedb8_8320u32 } else { r5 >> 1 },
                r7 == if r6 & 1 == 1 { (r6 >> 1) ^ 0xedb8_8320u32 } else { r6 >> 1 },
                r8 == if r7 & 1 == 1 { (r7 >> 1) ^ 0xedb8_8320u32 } else { r7 >> 1 },
        ;
    }
}

} // verus!
