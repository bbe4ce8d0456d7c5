use bzip2_rs::{bwt, bwt_ref, histogram, ibwt, ibwt_ref, matrix_sort, naive_matrix_sort, sorted};

/// A small deterministic generator, so that the same blocks are tried on
/// every run.
fn pseudo_random_block(seed: u32, len: usize, alphabet: u32) -> Vec<u8> {
    let mut state: u32 = seed.wrapping_mul(2654435761).wrapping_add(12345);
    let mut out = Vec::with_capacity(len);
    for _ in 0..len {
        state = state.wrapping_mul(1664525).wrapping_add(1013904223);
        out.push(((state >> 16) % alphabet) as u8);
    }
    out
}

fn counts_by_hand(data: &[u8]) -> [u32; 256] {
    let mut counts = [0u32; 256];
    for b in data {
        counts[*b as usize] += 1;
    }
    counts
}

/// All rotations written out and sorted by the standard library.
fn rotations_by_std(data: &[u8]) -> Vec<Vec<u8>> {
    let n = data.len();
    let mut rows: Vec<Vec<u8>> = (0..n)
        .map(|i| data[i..].iter().chain(data[..i].iter()).cloned().collect())
        .collect();
    rows.sort();
    rows
}

fn rotation_at(data: &[u8], offset: u32) -> Vec<u8> {
    let i = offset as usize;
    data[i..].iter().chain(data[..i].iter()).cloned().collect()
}

#[test]
fn bwt_of_banana() {
    let (column, primary) = bwt(b"banana");
    assert_eq!(column, b"nnbaaa".to_vec());
    assert_eq!(primary, 3);
}

#[test]
fn banana_round_trip() {
    let (column, primary) = bwt(b"banana");
    assert_eq!(ibwt(&column, primary), b"banana".to_vec());
}

#[test]
fn ibwt_of_banana_column() {
    assert_eq!(ibwt(b"nnbaaa", 3), b"banana".to_vec());
}

#[test]
fn ibwt_from_another_row_gives_a_rotation() {
    // Row 0 of the sorted rotations of "banana" holds "abanan".
    assert_eq!(ibwt(b"nnbaaa", 0), b"abanan".to_vec());
}

#[test]
fn bwt_of_empty_block() {
    let (column, primary) = bwt(b"");
    assert_eq!(column, Vec::<u8>::new());
    assert_eq!(primary, 0);
}

#[test]
fn ibwt_of_empty_column() {
    assert_eq!(ibwt(b"", 0), Vec::<u8>::new());
    assert_eq!(ibwt(b"", 7), Vec::<u8>::new());
}

#[test]
fn bwt_of_single_byte() {
    let (column, primary) = bwt(b"x");
    assert_eq!(column, b"x".to_vec());
    assert_eq!(primary, 0);
    assert_eq!(ibwt(&column, primary), b"x".to_vec());
}

#[test]
fn bwt_round_trip_identical_bytes() {
    for len in 1..40usize {
        let block = vec![b'a'; len];
        let (column, primary) = bwt(&block);
        assert_eq!(column, block);
        assert!((primary as usize) < len);
        assert_eq!(ibwt(&column, primary), block);
    }
}

#[test]
fn ibwt_of_identical_bytes_from_every_row() {
    let block = vec![7u8; 12];
    for row in 0..12u32 {
        assert_eq!(ibwt(&block, row), block);
    }
}

#[test]
fn bwt_round_trip_periodic_blocks() {
    let units: [&[u8]; 4] = [b"ab", b"abc", b"aab", b"zyxw"];
    for unit in units.iter() {
        for times in 1..12usize {
            let block: Vec<u8> = unit.iter().cloned().cycle().take(unit.len() * times).collect();
            let (column, primary) = bwt(&block);
            assert_eq!(column.len(), block.len());
            assert_eq!(ibwt(&column, primary), block);
        }
    }
}

#[test]
fn periodic_block_inverts_from_every_row_that_holds_it() {
    let block = b"abababab".to_vec();
    let (column, _) = bwt(&block);
    let rows = rotations_by_std(&block);
    for (row, text) in rows.iter().enumerate() {
        assert_eq!(&ibwt(&column, row as u32), text);
    }
}

#[test]
fn bwt_round_trip_every_byte_value() {
    let ascending: Vec<u8> = (0..=255u8).collect();
    let (column, primary) = bwt(&ascending);
    assert_eq!(ibwt(&column, primary), ascending);

    let descending: Vec<u8> = (0..=255u8).rev().collect();
    let (column, primary) = bwt(&descending);
    assert_eq!(ibwt(&column, primary), descending);

    let twice: Vec<u8> = ascending.iter().chain(ascending.iter()).cloned().collect();
    let (column, primary) = bwt(&twice);
    assert_eq!(ibwt(&column, primary), twice);
}

#[test]
fn bwt_round_trip_generated_blocks() {
    for seed in 0..60u32 {
        for &alphabet in [1u32, 2, 3, 16, 256].iter() {
            let len = (seed as usize * 7) % 97;
            let block = pseudo_random_block(seed, len, alphabet);
            let (column, primary) = bwt(&block);
            assert_eq!(column.len(), block.len());
            assert_eq!(ibwt(&column, primary), block);
        }
    }
}

#[test]
fn bwt_column_is_last_column_of_sorted_rotations() {
    for seed in 0..40u32 {
        let block = pseudo_random_block(seed, 5 + (seed as usize % 50), 3);
        let rows = rotations_by_std(&block);
        let expected: Vec<u8> = rows.iter().map(|row| row[row.len() - 1]).collect();
        let (column, primary) = bwt(&block);
        assert_eq!(column, expected);
        assert_eq!(rows[primary as usize], block);
    }
}

#[test]
fn bwt_round_trip_long_block() {
    let block = pseudo_random_block(99, 5000, 4);
    let (column, primary) = bwt(&block);
    assert_eq!(ibwt(&column, primary), block);
}

#[test]
fn matrix_sort_of_banana() {
    assert_eq!(matrix_sort(b"banana"), vec![5, 3, 1, 0, 4, 2]);
    assert_eq!(naive_matrix_sort(b"banana"), vec![5, 3, 1, 0, 4, 2]);
}

#[test]
fn matrix_sort_of_empty_block() {
    assert_eq!(matrix_sort(b""), Vec::<u32>::new());
    assert_eq!(naive_matrix_sort(b""), Vec::<u32>::new());
}

#[test]
fn matrix_sort_is_a_sorted_permutation() {
    for seed in 0..40u32 {
        for &alphabet in [1u32, 2, 5, 256].iter() {
            let block = pseudo_random_block(seed, 1 + (seed as usize * 3) % 80, alphabet);
            let order = matrix_sort(&block);
            let mut seen = vec![false; block.len()];
            for &offset in order.iter() {
                assert!(!seen[offset as usize]);
                seen[offset as usize] = true;
            }
            assert_eq!(order.len(), block.len());
            let rows: Vec<Vec<u8>> = order.iter().map(|&o| rotation_at(&block, o)).collect();
            assert_eq!(rows, rotations_by_std(&block));
        }
    }
}

#[test]
fn test_multi_key_quicksort() {
    for seed in 0..60u32 {
        for &alphabet in [1u32, 2, 4, 256].iter() {
            let data = pseudo_random_block(seed, 1 + (seed as usize * 5) % 120, alphabet);
            let test_data: Vec<u8> =
                matrix_sort(&data).into_iter().map(|e| data[e as usize]).collect();
            let reference_data: Vec<u8> =
                naive_matrix_sort(&data).into_iter().map(|e| data[e as usize]).collect();
            assert_eq!(test_data, reference_data);
        }
    }
}

#[test]
fn sorters_agree_on_whole_rotations() {
    let block = b"abcabcabcabcabcabcabcabcabc".to_vec();
    let production = matrix_sort(&block);
    let reference = naive_matrix_sort(&block);
    for k in 0..block.len() {
        assert_eq!(rotation_at(&block, production[k]), rotation_at(&block, reference[k]));
    }
}

#[test]
fn counting_sort() {
    for seed in 0..60u32 {
        for &alphabet in [1u32, 2, 7, 256].iter() {
            let data = pseudo_random_block(seed, (seed as usize * 11) % 150, alphabet);
            let counts = counts_by_hand(&data);
            let c_sorted = sorted(&data, &counts);
            let mut std_sorted = data.to_owned();
            std_sorted.sort_unstable();
            assert_eq!(c_sorted, std_sorted);
        }
    }
}

#[test]
fn counting_sort_exact_value() {
    let data = b"banana";
    let counts = counts_by_hand(data);
    assert_eq!(sorted(data, &counts), b"aaabnn".to_vec());
}

#[test]
fn counting_sort_of_nothing() {
    let counts = [0u32; 256];
    assert_eq!(sorted(b"", &counts), Vec::<u8>::new());
}

#[test]
fn histogram_counts_each_byte() {
    let counts = histogram(b"banana");
    assert_eq!(counts[b'a' as usize], 3);
    assert_eq!(counts[b'b' as usize], 1);
    assert_eq!(counts[b'n' as usize], 2);
    assert_eq!(counts.iter().sum::<u32>(), 6);
    assert_eq!(histogram(b""), [0u32; 256]);
    for seed in 0..20u32 {
        let data = pseudo_random_block(seed, 200, 256);
        assert_eq!(histogram(&data), counts_by_hand(&data));
    }
}

#[test]
fn counting_sort_from_library_histogram() {
    let data = pseudo_random_block(3, 500, 256);
    let mut expected = data.clone();
    expected.sort();
    assert_eq!(sorted(&data, &histogram(&data)), expected);
}

#[test]
fn bwt_ref_of_banana() {
    assert_eq!(bwt_ref(b"banana"), (b"nnbaaa".to_vec(), 3));
    assert_eq!(ibwt_ref(b"nnbaaa", 3), b"banana".to_vec());
}

#[test]
fn bwt_ref_of_empty_block() {
    assert_eq!(bwt_ref(b""), (Vec::<u8>::new(), 0));
    assert_eq!(ibwt_ref(b"", 0), Vec::<u8>::new());
}

#[test]
fn bwt_ref_names_the_first_row_of_a_periodic_block() {
    // The sorted rotations of "abab" are abab, abab, baba, baba.
    assert_eq!(bwt_ref(b"abab"), (b"bbaa".to_vec(), 0));
    let (column, primary) = bwt(b"abab");
    assert_eq!(column, b"bbaa".to_vec());
    assert!(primary < 2);
}

#[test]
fn bwt_reference_round_trip() {
    for seed in 0..40u32 {
        for &alphabet in [1u32, 2, 3, 256].iter() {
            let data = pseudo_random_block(seed, (seed as usize * 3) % 40, alphabet);
            let (column, idx) = bwt_ref(&data);
            assert_eq!(ibwt_ref(&column, idx), data);
        }
    }
}

#[test]
fn bwt_round_trip() {
    for seed in 0..40u32 {
        for &alphabet in [1u32, 2, 3, 256].iter() {
            let data = pseudo_random_block(seed, (seed as usize * 5) % 200, alphabet);
            let (column, idx) = bwt(&data);
            let out = ibwt(&column, idx);
            assert_eq!(out, data);
        }
    }
}

#[test]
fn test_bwt() {
    for seed in 0..40u32 {
        for &alphabet in [1u32, 2, 3, 256].iter() {
            let data = pseudo_random_block(seed, (seed as usize * 3) % 40, alphabet);
            let (column, idx) = bwt(&data);
            assert_eq!(ibwt_ref(&column, idx), data);
        }
    }
}

#[test]
fn test_ibwt() {
    for seed in 0..40u32 {
        for &alphabet in [1u32, 2, 3, 256].iter() {
            let data = pseudo_random_block(seed, (seed as usize * 3) % 40, alphabet);
            let (column, idx) = bwt_ref(&data);
            assert_eq!(ibwt(&column, idx), data);
        }
    }
}

#[test]
fn both_transforms_give_one_column() {
    for seed in 0..40u32 {
        let data = pseudo_random_block(seed, 1 + (seed as usize * 3) % 40, 3);
        let (column, primary) = bwt(&data);
        let (column_ref, primary_ref) = bwt_ref(&data);
        assert_eq!(column, column_ref);
        assert!(primary_ref <= primary);
    }
}

#[test]
fn long_run_of_equal_bytes_round_trip() {
    let mut block = vec![b'q'; 3000];
    block.push(b'a');
    block.extend(vec![b'q'; 500]);
    let (column, primary) = bwt(&block);
    assert_eq!(ibwt(&column, primary), block);
    let order = matrix_sort(&block);
    assert_eq!(order[0], 3000);
}
