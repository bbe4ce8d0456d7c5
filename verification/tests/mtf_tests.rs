use bzip2_rs::mtf::{decode, encode, Decoder, Encoder, Table};

fn pseudo_random_bytes(seed: u32, len: usize, alphabet: u32) -> Vec<u8> {
    let mut state: u32 = seed.wrapping_mul(2246822519).wrapping_add(3266489917);
    let mut out = Vec::with_capacity(len);
    for _ in 0..len {
        state = state.wrapping_mul(1664525).wrapping_add(1013904223);
        out.push(((state >> 16) % alphabet) as u8);
    }
    out
}

fn drain_encoder(data: &[u8]) -> Vec<u8> {
    let mut enc = Encoder::new(data.iter().cloned());
    let mut out = Vec::new();
    while let Some(distance) = enc.next() {
        out.push(distance);
    }
    out
}

fn drain_decoder(data: &[u8]) -> Vec<u8> {
    let mut dec = Decoder::new(data.iter().cloned());
    let mut out = Vec::new();
    while let Some(byte) = dec.next() {
        out.push(byte);
    }
    out
}

#[test]
fn test_1() {
    let case = b"bananaaa";
    let expected = vec![b'b', b'a' + 1, b'n', 1, 1, 1, 0, 0];

    assert_eq!(encode(case), expected);
}

#[test]
fn decode_of_banana_distances() {
    assert_eq!(decode(&[98, 98, 110, 1, 1, 1, 0, 0]), b"bananaaa".to_vec());
}

#[test]
fn mtf_of_nothing() {
    assert_eq!(encode(b""), Vec::<u8>::new());
    assert_eq!(decode(b""), Vec::<u8>::new());
}

#[test]
fn first_byte_is_its_own_value() {
    for b in 0..=255u8 {
        assert_eq!(encode(&[b]), vec![b]);
        assert_eq!(decode(&[b]), vec![b]);
    }
}

#[test]
fn repeated_byte_gives_zeros() {
    assert_eq!(encode(&[200, 200, 200, 200]), vec![200, 0, 0, 0]);
}

#[test]
fn byte_behind_the_front_keeps_its_place() {
    // 3 moves to the front; 5 stood behind it and stays at index 5, while 1
    // stood before it and is now at index 2.
    assert_eq!(encode(&[3, 5, 1]), vec![3, 5, 3]);
}

#[test]
fn test_roundtrip() {
    for seed in 0..80u32 {
        for &alphabet in [1u32, 2, 10, 256].iter() {
            let data = pseudo_random_bytes(seed, (seed as usize * 13) % 300, alphabet);
            let encoded = encode(&data);
            let decoded = decode(&encoded);
            assert_eq!(decoded, data);
        }
    }
}

#[test]
fn mtf_round_trip_the_other_way() {
    for seed in 0..40u32 {
        let distances = pseudo_random_bytes(seed, 200, 256);
        assert_eq!(encode(&decode(&distances)), distances);
    }
}

#[test]
fn test_encode_iter() {
    for seed in 0..40u32 {
        let data = pseudo_random_bytes(seed, (seed as usize * 9) % 200, 7);
        assert_eq!(drain_encoder(&data), encode(&data));
    }
}

#[test]
fn test_decode_iter() {
    for seed in 0..40u32 {
        let data = encode(&pseudo_random_bytes(seed, (seed as usize * 9) % 200, 7));
        assert_eq!(drain_decoder(&data), decode(&data));
    }
}

#[test]
fn encoder_of_empty_source_gives_none() {
    let mut enc = Encoder::new(std::iter::empty::<u8>());
    assert_eq!(enc.next(), None);
    assert_eq!(enc.next(), None);
    let mut dec = Decoder::new(std::iter::empty::<u8>());
    assert_eq!(dec.next(), None);
}

#[test]
fn table_steps_one_symbol_at_a_time() {
    let mut table = Table::new();
    assert_eq!(table.encode(b'b'), 98);
    assert_eq!(table.encode(b'a'), 98);
    assert_eq!(table.encode(b'n'), 110);
    assert_eq!(table.encode(b'a'), 1);

    let mut table = Table::new();
    assert_eq!(table.decode(98), b'b');
    assert_eq!(table.decode(98), b'a');
    assert_eq!(table.decode(110), b'n');
    assert_eq!(table.decode(1), b'a');
    assert_eq!(table.decode(0), b'a');
}

#[test]
fn last_byte_value_moves_from_the_back() {
    let mut table = Table::new();
    assert_eq!(table.encode(255), 255);
    assert_eq!(table.encode(0), 1);
    assert_eq!(table.encode(254), 255);
}
