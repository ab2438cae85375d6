use lzjd_batch::crc32::CRC32BuildHasher;
use malwaredb_lzjd::LZDict;
use std::hash::{BuildHasher, Hasher};

#[test]
fn checksum_of_check_string() {
    let mut hasher = CRC32BuildHasher.build_hasher();
    hasher.write(b"123456789");
    assert_eq!(hasher.finish(), 0xcbf4_3926);
}

#[test]
fn checksum_of_nothing_is_zero() {
    let hasher = CRC32BuildHasher.build_hasher();
    assert_eq!(hasher.finish(), 0);
}

#[test]
fn writes_add_up() {
    let mut whole = CRC32BuildHasher.build_hasher();
    whole.write(b"hello world");
    let mut parts = CRC32BuildHasher.build_hasher();
    parts.write(b"hello");
    parts.write(b"");
    parts.write(b" world");
    assert_eq!(whole.finish(), parts.finish());
    assert_eq!(whole.finish(), u64::from(crc32fast::hash(b"hello world")));
}

#[test]
fn finish_leaves_the_hasher_as_it_is() {
    let mut hasher = CRC32BuildHasher.build_hasher();
    hasher.write(b"abc");
    let first = hasher.finish();
    assert_eq!(hasher.finish(), first);
    hasher.write(b"def");
    assert_eq!(hasher.finish(), u64::from(crc32fast::hash(b"abcdef")));
}

#[test]
fn each_built_hasher_starts_anew() {
    let builder = CRC32BuildHasher;
    let mut first = builder.build_hasher();
    first.write(b"some bytes");
    let second = builder.clone().build_hasher();
    assert_eq!(second.finish(), 0);
}

#[test]
fn digests_built_with_the_hasher() {
    let builder = CRC32BuildHasher;
    let a = LZDict::from_bytes_stream(b"bitsandpieces".iter().cloned(), &builder);
    let b = LZDict::from_bytes_stream(b"doctestbits".iter().cloned(), &builder);
    assert_eq!(a.dist(&b), 0.5714285714285714);
}

fn by_definition(bytes: &[u8]) -> u32 {
    let mut register: u32 = 0xffff_ffff;
    for byte in bytes {
        register ^= u32::from(*byte);
        for _ in 0..8 {
            register = if register & 1 == 1 {
                (register >> 1) ^ 0xedb8_8320
            } else {
                register >> 1
            };
        }
    }
    register ^ 0xffff_ffff
}

#[test]
fn checksum_is_the_remainder_of_the_division() {
    let mut state: u64 = 0x2545_f491_4f6c_dd1d;
    for length in 0..600usize {
        let mut bytes = Vec::with_capacity(length);
        for _ in 0..length {
            state = state
                .wrapping_mul(6364136223846793005)
                .wrapping_add(1442695040888963407);
            bytes.push((state >> 56) as u8);
        }
        let mut whole = CRC32BuildHasher.build_hasher();
        whole.write(&bytes);
        assert_eq!(whole.finish(), u64::from(by_definition(&bytes)));
        let mut parts = CRC32BuildHasher.build_hasher();
        let (first, second) = bytes.split_at(length / 3);
        parts.write(first);
        parts.write(second);
        assert_eq!(parts.finish(), u64::from(by_definition(&bytes)));
    }
    assert_eq!(by_definition(b"123456789"), 0xcbf4_3926);
    assert_eq!(by_definition(b""), 0);
}
