//! Known-answer vectors for the CRC-64/NVME digest.

use crc64fast_nvme::Digest;

#[test]
fn test_standard_vectors() {
    let zeros_4096: Vec<u8> = vec![0u8; 4096];
    let ones_4096: Vec<u8> = vec![255u8; 4096];
    let zeros_32: Vec<u8> = vec![0u8; 32];
    let ones_32: Vec<u8> = vec![255u8; 32];
    let ascending: Vec<u8> = (0u8..32).collect();
    let zeros_1024: Vec<u8> = vec![0u8; 1024];
    let cases: Vec<(&[u8], u64)> = vec![
        (&zeros_4096, 0x6482d367eb22b64e),
        (&ones_4096, 0xc0ddba7302eca3ac),
        (b"123456789", 0xae8b14860a799888),
        (b"", 0),
        (b"@", 0x2808afa9582aa47),
        (b"1\x97", 0xb4af0ae0feb08e0f),
        (b"M\"\xdf", 0x85d7cd041a2a8a5d),
        (b"l\xcd\x13\xd7", 0x1860820ea79b0fa3),
        (&zeros_32, 0xcf3473434d4ecf3b),
        (&ones_32, 0xa0a06974c34d63c4),
        (
            b"\x00\x01\x02\x03\x04\x05\x06\x07\x08\x09\x0A\x0B\x0C\x0D\x0E\x0F\x10\x11\x12\x13\x14\x15\x16\x17\x18\x19\x1A\x1B\x1C\x1D\x1E\x1F",
            0xb9d9d4a8492cbd7f,
        ),
        (&ascending, 0xb9d9d4a8492cbd7f),
        (&zeros_1024, 0x691bb2b09be5498a),
        (b"hello world!", 0xd9160d1fa8e418e3),
    ];

    for (input, result) in cases {
        let mut hasher = Digest::new();
        hasher.write(input);
        assert_eq!(hasher.sum64(), result, "test case {:x?}", input);
    }
}

#[test]
fn test_table_backend_vectors() {
    let cases: Vec<(&[u8], u64)> = vec![
        (b"", 0),
        (b"123456789", 0xae8b14860a799888),
        (b"hello world!", 0xd9160d1fa8e418e3),
    ];
    for (input, result) in cases {
        let mut hasher = Digest::new_table();
        hasher.write(input);
        assert_eq!(hasher.sum64(), result, "table case {:x?}", input);
    }
}

#[test]
fn test_fresh_digest_sums_to_zero() {
    let digest = Digest::new();
    assert_eq!(digest.sum64(), 0);
    let table = Digest::new_table();
    assert_eq!(table.sum64(), 0);
    let default: Digest = Default::default();
    assert_eq!(default.sum64(), 0);
}

#[test]
fn test_empty_write_is_a_no_op() {
    let mut digest = Digest::new();
    digest.write(b"");
    assert_eq!(digest.sum64(), 0);
    digest.write(b"123456789");
    let before = digest.sum64();
    digest.write(b"");
    assert_eq!(digest.sum64(), before);
}

#[test]
fn test_long_div_step() {
    // one long-division step of the generator polynomial model, top bit clear
    assert_eq!(crc64fast_nvme::long_div_step(1), 2);
    // top bit set: shift and fold the polynomial back in
    assert_eq!(
        crc64fast_nvme::long_div_step(0x8000_0000_0000_0000),
        0xAD93_D235_94C9_3659
    );
}

#[test]
fn test_incremental_update() {
    let mut digest = Digest::new();
    for byte in "hello world!".bytes() {
        digest.write(&[byte]);
    }
    assert_eq!(digest.sum64(), 0xd9160d1fa8e418e3, "Incremental update failed");
}

#[test]
fn test_binary_data() {
    let mut digest = Digest::new();
    digest.write(&[0u8, 1, 2, 3, 0, 4, 5, 0, 6]);
    digest.write(&[7u8, 8, 9]);
    assert_ne!(digest.sum64(), 0, "Binary data should produce non-zero CRC");
}
