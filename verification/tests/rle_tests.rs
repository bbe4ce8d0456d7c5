use bzip2_rs::rle::{initial_decode, initial_encode, Encoder};

fn pseudo_random_runs(seed: u32, runs: usize, alphabet: u32, longest: u32) -> Vec<u8> {
    let mut state: u32 = seed.wrapping_mul(747796405).wrapping_add(2891336453);
    let mut out = Vec::new();
    for _ in 0..runs {
        state = state.wrapping_mul(1664525).wrapping_add(1013904223);
        let byte = ((state >> 16) % alphabet) as u8;
        state = state.wrapping_mul(1664525).wrapping_add(1013904223);
        let len = 1 + (state >> 16) % longest;
        for _ in 0..len {
            out.push(byte);
        }
    }
    out
}

#[test]
fn eight_equal_bytes() {
    let block = b"aaaaaaaa";
    let encoded = initial_encode(block);
    assert_eq!(encoded, vec![b'a', b'a', b'a', b'a', 4]);
    assert_eq!(initial_decode(&encoded), block.to_vec());
}

#[test]
fn four_equal_bytes_at_end_of_stream_are_literals() {
    assert_eq!(initial_decode(&[b'a', b'a', b'a', b'a']), vec![b'a'; 4]);
    assert_eq!(initial_decode(&[b'x', b'a', b'a', b'a', b'a']), vec![b'x', b'a', b'a', b'a', b'a']);
}

#[test]
fn four_equal_bytes_with_zero_count() {
    assert_eq!(initial_decode(&[b'a', b'a', b'a', b'a', 0]), vec![b'a'; 4]);
    assert_eq!(initial_encode(b"aaaa"), vec![b'a', b'a', b'a', b'a', 0]);
}

#[test]
fn empty_input_both_ways() {
    assert_eq!(initial_encode(b""), Vec::<u8>::new());
    assert_eq!(initial_decode(b""), Vec::<u8>::new());
}

#[test]
fn input_without_repeats_passes_unchanged() {
    let block = b"abcdefghij".to_vec();
    assert_eq!(initial_encode(&block), block);
    assert_eq!(initial_decode(&block), block);
}

#[test]
fn short_runs_are_literals() {
    assert_eq!(initial_encode(b"a"), b"a".to_vec());
    assert_eq!(initial_encode(b"aa"), b"aa".to_vec());
    assert_eq!(initial_encode(b"aaa"), b"aaa".to_vec());
    assert_eq!(initial_encode(b"aabbbc"), b"aabbbc".to_vec());
    assert_eq!(initial_decode(b"aabbbc"), b"aabbbc".to_vec());
}

#[test]
fn run_lengths_around_the_limits() {
    for &len in [1usize, 2, 3, 4, 5, 6, 254, 255, 256, 257, 258, 259, 260, 300, 510, 511, 600].iter() {
        let block = vec![b'z'; len];
        let encoded = initial_encode(&block);
        assert_eq!(initial_decode(&encoded), block);
    }
}

#[test]
fn run_of_255_is_one_unit() {
    let block = vec![9u8; 255];
    assert_eq!(initial_encode(&block), vec![9, 9, 9, 9, 251]);
}

#[test]
fn run_of_256_is_a_unit_and_a_literal() {
    let block = vec![9u8; 256];
    assert_eq!(initial_encode(&block), vec![9, 9, 9, 9, 251, 9]);
}

#[test]
fn run_of_259_is_two_units() {
    let block = vec![9u8; 259];
    assert_eq!(initial_encode(&block), vec![9, 9, 9, 9, 251, 9, 9, 9, 9, 0]);
    assert_eq!(initial_decode(&[9, 9, 9, 9, 251, 9, 9, 9, 9, 0]), block);
}

#[test]
fn decode_run_with_count() {
    assert_eq!(initial_decode(&[5, 5, 5, 5, 3, 6]), vec![5, 5, 5, 5, 5, 5, 5, 6]);
    assert_eq!(initial_decode(&[5, 5, 5, 5, 255]), vec![5u8; 259]);
}

#[test]
fn count_byte_equal_to_run_byte() {
    // A run of eight bytes of value 4 is four of them and the count 4.
    let block = vec![4u8; 8];
    assert_eq!(initial_encode(&block), vec![4, 4, 4, 4, 4]);
    assert_eq!(initial_decode(&[4, 4, 4, 4, 4]), block);
}

#[test]
fn test_initial_rle() {
    for seed in 0..80u32 {
        for &alphabet in [1u32, 2, 3, 256].iter() {
            let data = pseudo_random_runs(seed, 1 + (seed as usize % 25), alphabet, 9);
            let buffer = initial_encode(&data);
            let decoded = initial_decode(&buffer);
            assert_eq!(decoded, data);
        }
    }
}

#[test]
fn rle_round_trip_with_long_runs() {
    for seed in 0..20u32 {
        let data = pseudo_random_runs(seed, 12, 2, 700);
        assert_eq!(initial_decode(&initial_encode(&data)), data);
    }
}

#[test]
fn encoder_with_room_writes_the_whole_encoding() {
    let data = b"aaaaaaaabbbcdddddddddd".to_vec();
    let mut enc = Encoder::new(1000);
    let read = enc.encode(&data);
    assert_eq!(read, data.len());
    let block = enc.finish();
    assert_eq!(block, initial_encode(&data));
    assert_eq!(initial_decode(&block), data);
}

#[test]
fn encoder_takes_input_in_slices() {
    let data = pseudo_random_runs(5, 40, 3, 12);
    let mut enc = Encoder::new(100_000);
    let mut taken = 0;
    for chunk in data.chunks(7) {
        taken += enc.encode(chunk);
    }
    assert_eq!(taken, data.len());
    assert_eq!(enc.finish(), initial_encode(&data));
}

#[test]
fn encoder_run_split_over_two_calls() {
    let mut enc = Encoder::new(100);
    assert_eq!(enc.encode(b"aaa"), 3);
    assert_eq!(enc.encode(b"aaaaab"), 6);
    assert_eq!(enc.finish(), vec![b'a', b'a', b'a', b'a', 4, b'b']);
}

#[test]
fn encoder_stops_at_capacity() {
    // Each byte differs from the one before, so each byte taken writes out
    // the byte before it: with room for 3, the fifth byte is not taken.
    let data = b"abcdefgh";
    let mut enc = Encoder::new(3);
    let read = enc.encode(data);
    assert_eq!(read, 4);
    assert_eq!(enc.encode(&data[read..]), 0);
    let block = enc.finish();
    assert_eq!(block, b"abcd".to_vec());
    assert_eq!(initial_decode(&block), data[..read].to_vec());
}

#[test]
fn encoder_with_no_room_takes_nothing() {
    let mut enc = Encoder::new(0);
    assert_eq!(enc.encode(b"abc"), 0);
    assert!(enc.is_empty());
    assert_eq!(enc.finish(), Vec::<u8>::new());
}

#[test]
fn encoder_is_empty_until_it_takes_a_byte() {
    let mut enc = Encoder::new(10);
    assert!(enc.is_empty());
    assert_eq!(enc.encode(b""), 0);
    assert!(enc.is_empty());
    assert_eq!(enc.encode(b"q"), 1);
    assert!(!enc.is_empty());
    assert_eq!(enc.finish(), b"q".to_vec());
}

#[test]
fn encoder_may_pass_capacity_by_one_unit() {
    // The run of a's is held back while b..d are taken; room runs out only
    // after a unit has been written.
    let mut enc = Encoder::new(1);
    let read = enc.encode(b"aaaaaabbbbbb");
    assert_eq!(read, 7);
    assert_eq!(enc.finish(), vec![b'a', b'a', b'a', b'a', 2, b'b']);
}

#[test]
fn encoder_decodes_to_the_prefix_it_took() {
    for seed in 0..60u32 {
        for &capacity in [0usize, 1, 2, 5, 17, 64].iter() {
            let data = pseudo_random_runs(seed, 30, 3, 8);
            let mut enc = Encoder::new(capacity);
            let read = enc.encode(&data);
            assert!(read <= data.len());
            let block = enc.finish();
            assert_eq!(initial_decode(&block), data[..read].to_vec());
            assert_eq!(block, initial_encode(&data[..read]));
        }
    }
}

#[test]
fn encoder_cuts_runs_at_255() {
    let data = vec![1u8; 600];
    let mut enc = Encoder::new(1000);
    assert_eq!(enc.encode(&data), 600);
    assert_eq!(enc.finish(), vec![1, 1, 1, 1, 251, 1, 1, 1, 1, 251, 1, 1, 1, 1, 86]);
}
