use arith_coder::coder::{decode, encode, Encoder, EOF_SYMBOL};

fn roundtrip(buf: &Vec<u8>) -> Vec<u8> {
    let encoded = encode(buf);
    decode(&encoded)
}

#[test]
fn test_coder_vec() {
    let mut buf: Vec<u8> = Vec::new();
    for i in 0..1024 {
        buf.push((i % 255) as u8);
    }

    let encoded = encode(&buf);
    let buf2 = decode(&encoded);

    assert!(buf == buf2);
}

#[test]
fn test_roundtrip_empty() {
    let buf: Vec<u8> = Vec::new();
    let encoded = encode(&buf);
    assert!(encoded.len() >= 1);
    let decoded = decode(&encoded);
    assert!(decoded.is_empty());
}

// The exact stream for the empty input: eight `1` bits from coding EOF,
// then the flush pair `01`, padded with zeros.
#[test]
fn test_encode_empty_exact() {
    let buf: Vec<u8> = Vec::new();
    assert_eq!(encode(&buf), vec![0xFF, 0x40]);
}

#[test]
fn test_roundtrip_single_byte() {
    let buf: Vec<u8> = vec![0x41];
    assert_eq!(roundtrip(&buf), buf);
}

#[test]
fn test_roundtrip_all_zero() {
    let buf: Vec<u8> = vec![0u8; 10_000];
    let encoded = encode(&buf);
    // a run of one symbol compresses far below its plain size
    assert!(encoded.len() < buf.len() / 4);
    assert_eq!(decode(&encoded), buf);
}

#[test]
fn test_roundtrip_eof_like_bytes() {
    let buf: Vec<u8> = vec![0xFF; 1_000];
    assert_eq!(roundtrip(&buf), buf);
}

#[test]
fn test_roundtrip_random_blob() {
    // 64 KiB of pseudo-random bytes from a fixed linear-congruential seed
    let mut state: u64 = 0x1234_5678_9abc_def0;
    let mut buf: Vec<u8> = Vec::with_capacity(65536);
    for _ in 0..65536 {
        state = state.wrapping_mul(6364136223846793005).wrapping_add(1442695040888963407);
        buf.push((state >> 56) as u8);
    }
    let encoded = encode(&buf);
    assert_eq!(decode(&encoded), buf);
    // random data is incompressible: no more than a small constant is saved
    assert!(encoded.len() + 256 >= buf.len());
}

#[test]
fn test_encode_deterministic() {
    let mut buf: Vec<u8> = Vec::new();
    for i in 0..4096 {
        buf.push((i * 7 % 256) as u8);
    }
    let first = encode(&buf);
    let second = encode(&buf);
    assert!(first == second);
}

#[test]
fn test_encode_len_bound() {
    for n in [0usize, 1, 2, 100, 1000] {
        let buf: Vec<u8> = (0..n).map(|i| (i % 256) as u8).collect();
        let encoded = encode(&buf);
        assert!(encoded.len() <= 4 * buf.len() + 5);
        assert!(encoded.len() >= 1);
    }
}

#[test]
fn test_decode_truncated_stream() {
    let mut buf: Vec<u8> = Vec::new();
    for i in 0..2000 {
        buf.push((i % 251) as u8);
    }
    let mut encoded = encode(&buf);
    encoded.truncate(encoded.len() / 2);
    // a truncated stream decodes to some prefix-like garbage, without
    // panicking and without unbounded output
    let decoded = decode(&encoded);
    assert!(decoded.len() <= buf.len() + 4 * encoded.len() + 1024);
}

#[test]
fn test_incremental_encoder_matches() {
    let buf: Vec<u8> = (0..512usize).map(|i| (i % 253) as u8).collect();
    let mut enc = Encoder::new();
    for b in &buf {
        enc.push_symbol(*b as u32);
    }
    enc.push_symbol(EOF_SYMBOL);
    enc.finish();
    // the incremental surface produces the same stream as the one-shot call
    // (the encoder is a function of its input)
    let whole = encode(&buf);
    assert!(enc.into_bytes() == whole);
}
