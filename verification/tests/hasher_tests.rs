use difftool::hasher::hash_chunk;
use difftool::hex::to_hex;

#[test]
fn hex_of_bytes() {
    assert_eq!(to_hex(&[]), "");
    assert_eq!(to_hex(&[0x00]), "00");
    assert_eq!(to_hex(&[0x0f, 0xf0]), "0ff0");
    assert_eq!(to_hex(&[0xde, 0xad, 0xbe, 0xef]), "deadbeef");
    assert_eq!(to_hex(&[0x01, 0x23, 0x45, 0x67, 0x89, 0xab, 0xcd, 0xef]), "0123456789abcdef");
    assert_eq!(to_hex(&[0xff, 0x10, 0x9a]), "ff109a");
}

#[test]
fn hex_of_every_byte() {
    for byte in 0..=255u8 {
        assert_eq!(to_hex(&[byte]), format!("{:02x}", byte));
    }
}

#[test]
fn digest_of_nothing() {
    assert_eq!(
        hash_chunk(&[]),
        "af1349b9f5f9a1a6a0404dea36dcc9499bcb25c9adc112b7cc9a93cae41f3262"
    );
}

#[test]
fn digest_is_that_of_blake3() {
    let inputs: [&[u8]; 4] = [b"", b"abc", b"hello world", &[0u8; 70_000]];
    for input in inputs {
        assert_eq!(hash_chunk(input), blake3::hash(input).to_hex().to_string());
    }
}

#[test]
fn digest_is_lowercase_hex_of_fixed_length() {
    let inputs: [&[u8]; 3] = [b"", b"a", b"The quick brown fox jumps over the lazy dog"];
    for input in inputs {
        let digest = hash_chunk(input);
        assert_eq!(digest.len(), 64);
        assert!(digest.chars().all(|c| matches!(c, '0'..='9' | 'a'..='f')));
    }
}

#[test]
fn equal_chunks_have_equal_digests() {
    let chunk = vec![42u8; 5000];
    let copy = chunk.clone();
    assert_eq!(hash_chunk(&chunk), hash_chunk(&copy));
    assert_eq!(hash_chunk(&chunk), hash_chunk(&chunk));
}

#[test]
fn one_flipped_bit_changes_the_digest() {
    let chunk: Vec<u8> = (0..4096u32).map(|i| (i % 251) as u8).collect();
    let digest = hash_chunk(&chunk);
    for (at, bit) in [(0usize, 0u8), (1, 7), (2048, 3), (4095, 5)] {
        let mut flipped = chunk.clone();
        flipped[at] ^= 1 << bit;
        assert_ne!(hash_chunk(&flipped), digest);
    }
}

#[test]
fn digest_is_not_the_input() {
    let input = b"0123456789abcdef0123456789abcdef0123456789abcdef0123456789abcdef";
    assert_ne!(hash_chunk(input).as_bytes(), input);
}
