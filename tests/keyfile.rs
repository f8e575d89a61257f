use radix_spline::keyfile::decode_keys;

fn encode(keys: &[u64], count: u64) -> Vec<u8> {
    let mut bytes = count.to_le_bytes().to_vec();
    for k in keys {
        bytes.extend_from_slice(&k.to_le_bytes());
    }
    bytes
}

#[test]
fn decode_round_trip() {
    let keys = vec![0u64, 1, 258, u64::MAX, 0x0102_0304_0506_0708];
    let bytes = encode(&keys, keys.len() as u64);
    assert_eq!(decode_keys(&bytes), Some(keys));
}

#[test]
fn decode_little_endian() {
    let bytes: Vec<u8> = vec![1, 0, 0, 0, 0, 0, 0, 0, 0x08, 0x07, 0x06, 0x05, 0x04, 0x03, 0x02, 0x01];
    assert_eq!(decode_keys(&bytes), Some(vec![0x0102_0304_0506_0708u64]));
}

#[test]
fn decode_ignores_trailing_bytes() {
    let mut bytes = encode(&[5, 6], 2);
    bytes.extend_from_slice(&[9, 9, 9]);
    assert_eq!(decode_keys(&bytes), Some(vec![5, 6]));
}

#[test]
fn decode_rejects_short_input() {
    assert_eq!(decode_keys(&[1, 2, 3]), None);
    let bytes = encode(&[5, 6], 3);
    assert_eq!(decode_keys(&bytes), None);
    assert_eq!(decode_keys(&encode(&[], 0)), Some(vec![]));
}
