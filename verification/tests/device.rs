use sparse_rulers::combinatorics::binomial_u64;
use sparse_rulers::gpu::{
    binomial_table, binomial_table_bytes, collect_ranks, counter_reset_bytes, decode_ranks,
    dispatch_size, DecodeError, GpuConfig, GpuRange, GpuStep, SearchParams,
};
use sparse_rulers::ranking::{calculate_rank, calculate_total_space, unrank};
use sparse_rulers::sorting::sort_rulers;

#[test]
fn configurations() {
    let config = |length| {
        let c = GpuConfig::for_length(length);
        (c.steps_per_thread, c.threads_per_batch)
    };
    assert_eq!(config(0), (1024, 131072));
    assert_eq!(config(69), (1024, 131072));
    assert_eq!(config(70), (128, 1048576));
    assert_eq!(config(109), (128, 1048576));
    assert_eq!(config(110), (128, 2097152));
}

#[test]
fn table_of_coefficients() {
    let table = binomial_table();
    assert_eq!(table.len(), 256 * 33);
    assert_eq!(table[5 * 33 + 2], 10);
    assert_eq!(table[10 * 33 + 5], 252);
    assert_eq!(table[3 * 33 + 7], 0);
    assert_eq!(table[255 * 33 + 32], u64::MAX);
    assert_eq!(binomial_u64(66, 33), 7219428434016265740);
    assert_eq!(binomial_u64(68, 34), u64::MAX);
    let bytes = binomial_table_bytes();
    assert_eq!(bytes.len(), 256 * 33 * 8);
    for (i, chunk) in bytes.chunks(8).enumerate() {
        assert_eq!(u64::from_ne_bytes(chunk.try_into().unwrap()), table[i]);
    }
}

#[test]
fn parameters_as_bytes() {
    let params = SearchParams {
        length: 1,
        num_segments: 2,
        batch_size: 3,
        start_rank_low: 0x01020304,
        start_rank_high: 5,
        steps_per_thread: 6,
        _padding: [7, 8],
    };
    let words: Vec<u32> = params
        .to_bytes()
        .chunks(4)
        .map(|c| u32::from_ne_bytes(c.try_into().unwrap()))
        .collect();
    assert_eq!(words, vec![1, 2, 3, 0x01020304, 5, 6, 7, 8]);
    assert_eq!(counter_reset_bytes(), vec![0, 0, 0, 0]);
}

#[test]
fn dispatches() {
    assert_eq!(dispatch_size(0, 256), (0, 1, 1));
    assert_eq!(dispatch_size(1, 256), (1, 1, 1));
    assert_eq!(dispatch_size(131072, 256), (512, 1, 1));
    assert_eq!(dispatch_size(65535, 1), (65535, 1, 1));
    assert_eq!(dispatch_size(65536, 1), (65535, 2, 1));
    assert_eq!(dispatch_size(u32::MAX, 1), (65535, 65537, 1));
    for (batch, group) in [(1, 64), (131072, 256), (2097152, 32), (2097152, 7), (70000, 1)] {
        let (x, y, z) = dispatch_size(batch, group);
        assert!(x as u64 * y as u64 * z as u64 * group as u64 >= batch as u64);
    }
}

#[test]
fn reported_ranks_are_sorted() {
    assert_eq!(collect_ranks(&[5, 3, 5, 1, 9, 9], 6, 6), vec![1, 3, 5, 9]);
    assert_eq!(collect_ranks(&[5, 3, 5, 1, 9, 9], 2, 6), vec![3, 5]);
    assert_eq!(collect_ranks(&[5, 3, 5, 1, 9, 9], 100, 3), vec![3, 5]);
    assert_eq!(collect_ranks(&[], 4, 0), Vec::<u64>::new());
}

#[test]
fn answers_are_read() {
    // Memory of integers is aligned for them.
    let count = [3u32];
    let ranks = [70u64, 1 << 40, 70, 9];
    let counter = bytemuck::cast_slice::<u32, u8>(&count);
    let results = bytemuck::cast_slice::<u64, u8>(&ranks);
    assert_eq!(decode_ranks(counter, results, 4), Ok(vec![70, 1 << 40]));
    assert_eq!(decode_ranks(counter, results, 1), Ok(vec![70]));
    let words = [3u32, 0];
    let bytes = bytemuck::cast_slice::<u32, u8>(&words);
    assert_eq!(decode_ranks(&bytes[..6], results, 4), Err(DecodeError::Counter));
    assert_eq!(decode_ranks(counter, &results[..30], 3), Err(DecodeError::Results));
}

fn submitted(step: GpuStep) -> SearchParams {
    match step {
        GpuStep::Submit(params) => params,
        _ => panic!("no batch is submitted"),
    }
}

#[test]
fn batches_of_a_range() {
    let full = 2048u64 * 131072;
    let start = (1u64 << 32) + 5;
    let mut range = GpuRange::new(255, 17, start, start + full + 5000);
    let params = submitted(range.next(true));
    assert_eq!((params.length, params.num_segments), (255, 17));
    assert_eq!((params.start_rank_high, params.start_rank_low), (1, 5));
    assert_eq!((params.batch_size, params.steps_per_thread), (131072, 2048));
    assert_eq!(params._padding, [0, 0]);
    let params = submitted(range.next(true));
    assert_eq!(params.start_rank_low as u64, 5 + full);
    assert_eq!(params.batch_size, 3);
    assert!(matches!(range.next(true), GpuStep::Wait));
    assert_eq!(range.absorb(&vec![]), full);
    assert!(matches!(range.next(true), GpuStep::Wait));
    assert_eq!(range.absorb(&vec![]), 5000);
    assert!(matches!(range.next(true), GpuStep::Stop));
    assert_eq!(range.finish(), (vec![], full + 5000, true));
}

#[test]
fn interrupted_range() {
    let full = 2048u64 * 131072;
    let mut range = GpuRange::new(255, 17, 0, 10 * full);
    submitted(range.next(true));
    submitted(range.next(true));
    // Once the flag is cleared one more answer is taken.
    assert!(matches!(range.next(false), GpuStep::Wait));
    range.absorb(&vec![]);
    assert!(matches!(range.next(false), GpuStep::Stop));
    // The batch that is still in flight is not counted.
    assert_eq!(range.finish(), (vec![], full, false));

    // A range that is submitted to its end is drained.
    let mut range = GpuRange::new(255, 17, 0, 10);
    submitted(range.next(true));
    assert!(matches!(range.next(false), GpuStep::Wait));
    range.absorb(&vec![]);
    assert!(matches!(range.next(false), GpuStep::Stop));
    assert_eq!(range.finish(), (vec![], 10, true));

    let mut range = GpuRange::new(255, 17, 0, 10);
    assert!(matches!(range.next(false), GpuStep::Stop));
}

#[test]
fn reported_ranks_become_rulers() {
    let total = calculate_total_space(13, 4);
    let mut range = GpuRange::new(13, 4, 0, total);
    submitted(range.next(true));
    // Both canonical solutions, one of them twice and out of order, and a reflection.
    let a = calculate_rank(13, 4, &[1, 2, 6, 4]);
    let b = calculate_rank(13, 4, &[1, 3, 2, 7]);
    let c = calculate_rank(13, 4, &[1, 7, 2, 3]);
    assert_eq!(unrank(13, 4, c), vec![1, 7, 2, 3]);
    assert_eq!(range.absorb(&vec![b, c, a, b]), total);
    assert_eq!(range.found_rulers().len(), 3);
    assert_eq!(
        range.finish(),
        (vec![vec![1, 2, 6, 4], vec![1, 3, 2, 7]], total, true)
    );
}

#[test]
fn rulers_are_sorted() {
    let rulers = vec![vec![1, 2], vec![1], vec![3, 0], vec![1, 2], vec![], vec![1, 1, 9]];
    let mut expected = rulers.clone();
    expected.sort();
    expected.dedup();
    assert_eq!(sort_rulers(rulers), expected);
}
