use sparse_rulers::combinatorics::binomial;
use sparse_rulers::completeness::is_complete;
use sparse_rulers::lower_bound::get_num_segments_lower_bound;
use sparse_rulers::ranking::{
    calculate_rank, calculate_total_space, can_rank, can_unrank, unrank,
};
use sparse_rulers::symmetry::is_canonical;

#[test]
fn test_is_canonical() {
    // [1, 1, 3, 6] is canonical
    assert!(is_canonical(&[1, 1, 3, 6]));
    // [1, 1, 6, 3] is a reflection, NOT canonical (it should be [1, 1, 3, 6])
    assert!(!is_canonical(&[1, 1, 6, 3]));
    // [1, 3, 6, 1] is a rotation, NOT canonical
    assert!(!is_canonical(&[1, 3, 6, 1]));

    // Symmetric rulers should be canonical if they are the lexicographical minimum
    assert!(is_canonical(&[1, 1, 2, 2])); // n=4, L=6
    assert!(!is_canonical(&[1, 2, 2, 1])); // [1, 1, 2, 2] is smaller
    assert!(is_canonical(&[1, 2, 1, 2])); // n=4, L=6

    // Test with multiple 1s
    assert!(is_canonical(&[1, 1, 2, 1, 1, 3]));
    assert!(!is_canonical(&[1, 1, 3, 1, 1, 2])); // Reflection is smaller
}

#[test]
fn test_binomial() {
    assert_eq!(binomial(5, 2) as f64, 10.0);
    assert_eq!(binomial(10, 5) as f64, 252.0);
    assert_eq!(binomial(10, 0) as f64, 1.0);
    assert_eq!(binomial(10, 10) as f64, 1.0);
}

#[test]
fn test_is_complete() {
    let length = 6;
    let u64_blocks = length >> 6;
    let bit_shift = length & 63;
    let final_mask = (1u64 << (length & 63)) - 1;

    // Length 6, 3 segments: [1, 2, 3] is a ruler for length 6
    assert!(is_complete(&[1, 2, 3], u64_blocks, bit_shift, final_mask));

    // Length 6, [2, 2, 2] is not complete
    assert!(!is_complete(&[2, 2, 2], u64_blocks, bit_shift, final_mask));

    let length = 13;
    let u64_blocks = length >> 6;
    let bit_shift = length & 63;
    let final_mask = (1u64 << (length & 63)) - 1;
    // L=13, k=4 ruler: [1, 3, 2, 7]
    // Marks: 0, 1, 4, 6.
    // Diff 1-0=1, 4-0=4, 6-0=6, 4-1=3, 6-1=5, 6-4=2.
    // Modular diffs: 0-6=7, 0-4=9, 0-1=12, 1-6=8, 4-6=11, 1-4=10.
    // All present!
    assert!(is_complete(
        &[1, 3, 2, 7],
        u64_blocks,
        bit_shift,
        final_mask
    ));
}

#[test]
fn test_rank_unrank() {
    let length = 10;
    let num_segments = 4;
    let segments = vec![1, 2, 3, 4];
    let rank = calculate_rank(length, num_segments, &segments);
    let unranked = unrank(length, num_segments, rank);
    assert_eq!(segments, unranked);

    let length = 20;
    let num_segments = 6;
    let segments = vec![1, 1, 1, 1, 1, 15];
    let rank = calculate_rank(length, num_segments, &segments);
    let unranked = unrank(length, num_segments, rank);
    assert_eq!(segments, unranked);
}

#[test]
fn test_get_num_segments_lower_bound() {
    assert_eq!(get_num_segments_lower_bound(6), 3);
    assert_eq!(get_num_segments_lower_bound(13), 4);
    assert_eq!(get_num_segments_lower_bound(31), 6);
}

/// What `is_complete` takes for a length.
fn parameters(length: usize) -> (usize, usize, u64) {
    let bits = length % 64;
    let mask = if bits > 0 { (1u64 << bits) - 1 } else { 0 };
    (length / 64, bits, mask)
}

fn complete(segments: &[u8]) -> bool {
    let length: usize = segments.iter().map(|&s| s as usize).sum();
    let (blocks, shift, mask) = parameters(length);
    is_complete(segments, blocks, shift, mask)
}

/// Completeness by its definition.
fn complete_by_sums(segments: &[u8]) -> bool {
    let n = segments.len();
    let length: usize = segments.iter().map(|&s| s as usize).sum();
    (1..length).all(|d| {
        (0..n).any(|i| {
            (1..=n).any(|m| (0..m).map(|k| segments[(i + k) % n] as usize).sum::<usize>() == d)
        })
    })
}

/// Appends all ways to go on from `prefix` with `parts` positive parts of `rest`.
fn fill(prefix: &mut Vec<u8>, rest: u8, parts: u8, all: &mut Vec<Vec<u8>>) {
    if parts == 1 {
        prefix.push(rest);
        all.push(prefix.clone());
        prefix.pop();
        return;
    }
    for v in 1..=(rest - (parts - 1)) {
        prefix.push(v);
        fill(prefix, rest - v, parts - 1, all);
        prefix.pop();
    }
}

/// All rulers of a length with a first segment of 1, in dictionary order.
fn all_rulers(length: u8, num_segments: u8) -> Vec<Vec<u8>> {
    let mut all = Vec::new();
    if num_segments >= 2 && length >= num_segments {
        fill(&mut vec![1], length - 1, num_segments - 1, &mut all);
    }
    all
}

fn least_image(segments: &[u8]) -> Vec<u8> {
    let n = segments.len();
    let mut images = Vec::new();
    for i in 0..n {
        images.push((0..n).map(|j| segments[(i + j) % n]).collect::<Vec<u8>>());
        images.push((0..n).map(|j| segments[(i + n - j) % n]).collect::<Vec<u8>>());
    }
    images.into_iter().min().unwrap()
}

#[test]
fn canonical_means_least_image() {
    for (length, n) in [(2, 2), (7, 3), (9, 4), (10, 5), (11, 6)] {
        for ruler in all_rulers(length, n) {
            assert_eq!(is_canonical(&ruler), least_image(&ruler) == ruler, "{:?}", ruler);
        }
    }
}

#[test]
fn canonical_without_unit_segments() {
    assert!(is_canonical(&[]));
    assert!(is_canonical(&[5]));
    // No image starts with a segment of length 1, so none is compared.
    assert!(is_canonical(&[3, 2, 2]));
    assert!(!is_canonical(&[3, 1, 2]));
}

#[test]
fn completeness_agrees_with_its_definition() {
    for (length, n) in [(2, 2), (3, 2), (6, 3), (7, 3), (8, 4), (13, 4), (12, 5)] {
        for ruler in all_rulers(length, n) {
            assert_eq!(complete(&ruler), complete_by_sums(&ruler), "{:?}", ruler);
        }
    }
}

#[test]
fn completeness_across_words() {
    // One segment of length 1 each: every distance.
    assert!(complete(&[1; 64]));
    assert!(complete(&[1; 65]));
    assert!(complete(&[1; 130]));
    assert!(complete(&[1; 255]));
    assert!(complete(&[1; 256]));
    // Ones up to 15, then steps of 15.
    let mut ruler = vec![1u8; 15];
    ruler.extend_from_slice(&[15; 7]);
    assert!(complete(&ruler));
    assert!(complete_by_sums(&ruler));
    let gap = [1u8, 100, 99];
    assert!(!complete(&gap));
    assert!(!complete_by_sums(&gap));
    assert!(!complete(&[128, 127]));
    assert!(complete(&[1]));
}

#[test]
fn completeness_with_foreign_parameters() {
    // A turn of 0 leaves only the distances between marks going up.
    assert!(is_complete(&[1, 1, 1], 0, 0, 0b111));
    assert!(!is_complete(&[1, 1, 1], 0, 0, 0b1111));
    // A turn of 3 bits, asked for distance 2 alone.
    assert!(is_complete(&[1, 5], 0, 3, 0b100));
    assert!(!is_complete(&[2, 9], 0, 8, 0b1000));
}

#[test]
fn binomial_saturates() {
    assert_eq!(binomial(3, 5), 0);
    assert_eq!(binomial(0, 0), 1);
    assert_eq!(binomial(253, 15), 557855866809479623908600);
    assert_eq!(binomial(128, 64), 23951146041928082866135587776380551750);
    assert_eq!(binomial(253, 126), u128::MAX);
    assert_eq!(binomial(u64::MAX, 1), u64::MAX as u128);
    assert_eq!(binomial(u64::MAX, u64::MAX - 1), u64::MAX as u128);
    assert_eq!(binomial(u64::MAX, 3), u128::MAX);
}

#[test]
fn total_space_counts_rulers() {
    for (length, n) in [(0, 0), (5, 1), (1, 2), (2, 2), (3, 5), (9, 2), (9, 4), (12, 7)] {
        assert_eq!(
            calculate_total_space(length, n),
            all_rulers(length, n).len() as u64
        );
    }
    assert_eq!(calculate_total_space(10, 4), 28);
    assert_eq!(calculate_total_space(255, 17), u64::MAX);
}

#[test]
fn ranks_follow_the_dictionary() {
    for (length, n) in [(7, 2), (8, 3), (10, 4), (12, 6)] {
        for (rank, ruler) in all_rulers(length, n).iter().enumerate() {
            assert_eq!(calculate_rank(length, n, ruler), rank as u64);
            assert_eq!(&unrank(length, n, rank as u64), ruler);
        }
    }
    // After seven rulers [1, 1, ..] come [1, 2, 1, 6] and [1, 2, 2, 5].
    assert_eq!(calculate_rank(10, 4, &[1, 2, 3, 4]), 9);
}

#[test]
fn ranks_at_the_edges() {
    assert_eq!(calculate_rank(9, 1, &[]), 0);
    assert_eq!(calculate_rank(9, 2, &[1]), 0);
    assert_eq!(calculate_rank(255, 60, &[4; 60]), u64::MAX);
    assert_eq!(unrank(9, 1, 5), vec![8]);
    assert_eq!(unrank(9, 2, 5), vec![1, 8]);
    assert_eq!(unrank(9, 3, 7), vec![1, 8, 0]);
    assert_eq!(unrank(9, 3, 6), vec![1, 7, 1]);
    let far = unrank(255, 17, u64::MAX);
    assert_eq!(far.len(), 17);
    assert_eq!(far.iter().map(|&s| s as u32).sum::<u32>(), 255);
    assert_eq!(calculate_rank(255, 17, &far), u64::MAX);
}

#[test]
fn rankable_and_unrankable() {
    assert!(can_rank(10, 4, &[1, 2, 3, 4]));
    assert!(can_rank(0, 1, &[]));
    assert!(!can_rank(0, 2, &[1]));
    assert!(!can_rank(10, 4, &[1, 0, 3, 6]));
    assert!(!can_rank(10, 4, &[1, 5, 5]));
    assert!(can_rank(10, 4, &[1, 5, 4]));
    assert!(!can_rank(10, 4, &[1, 5]));
    assert!(can_unrank(10, 4, 27));
    assert!(!can_unrank(10, 4, 28));
    assert!(can_unrank(10, 3, 1000));
    assert!(!can_unrank(1, 3, 0));
    assert!(!can_unrank(0, 2, 0));
    assert!(!can_unrank(5, 0, 0));
    assert!(can_unrank(255, 17, u64::MAX));
}

#[test]
fn lower_bound_is_sound() {
    assert_eq!(get_num_segments_lower_bound(0), 0);
    assert_eq!(get_num_segments_lower_bound(1), 1);
    assert_eq!(get_num_segments_lower_bound(2), 2);
    assert_eq!(get_num_segments_lower_bound(3), 2);
    assert_eq!(get_num_segments_lower_bound(4), 3);
    assert_eq!(get_num_segments_lower_bound(255), 17);
    for length in 1..=255u8 {
        let formula = (((length as f64 * 4.0 - 3.0).sqrt() + 1.0) / 2.0).ceil() as u8;
        assert_eq!(get_num_segments_lower_bound(length), formula);
    }
    for length in 2..=9 {
        for n in 2..get_num_segments_lower_bound(length) {
            assert!(all_rulers(length, n).iter().all(|r| !complete_by_sums(r)));
        }
    }
}
