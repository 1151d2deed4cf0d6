use std::sync::atomic::{AtomicBool, AtomicU64, Ordering};
use std::sync::Mutex;

use sparse_rulers::range_search::{search_range, RangeContext, RangeSearch};
use sparse_rulers::ranking::{calculate_total_space, unrank};
use sparse_rulers::session::{
    checkpoint_due, process_search_results, total_evaluations, SearchSession,
};
use sparse_rulers::clock::ClockTime;
use sparse_rulers::state::{SearchStatus, SearchTiming, State};
use sparse_rulers::symmetry::is_canonical;

struct Shared {
    interrupt: AtomicBool,
    eval_counter: AtomicU64,
    found_counter: AtomicU64,
    latest_ruler: Mutex<Option<Vec<u8>>>,
}

impl Shared {
    fn new(running: bool) -> Self {
        Shared {
            interrupt: AtomicBool::new(running),
            eval_counter: AtomicU64::new(0),
            found_counter: AtomicU64::new(0),
            latest_ruler: Mutex::new(None),
        }
    }

    fn context(&self, length: u8, num_segments: u8) -> RangeContext<'_> {
        RangeContext {
            length,
            num_segments,
            interrupt: &self.interrupt,
            eval_counter: &self.eval_counter,
            found_counter: &self.found_counter,
            latest_ruler: &self.latest_ruler,
        }
    }
}

fn no_time() -> SearchTiming {
    SearchTiming {
        base_clock_time: ClockTime::zero(),
        base_cpu_time: ClockTime::zero(),
        clock_elapsed: ClockTime::zero(),
        cpu_elapsed: ClockTime::zero(),
    }
}

fn complete_by_sums(segments: &[u8]) -> bool {
    let n = segments.len();
    let length: usize = segments.iter().map(|&s| s as usize).sum();
    (1..length).all(|d| {
        (0..n).any(|i| {
            (1..=n).any(|m| (0..m).map(|k| segments[(i + k) % n] as usize).sum::<usize>() == d)
        })
    })
}

fn solutions(length: u8, num_segments: u8, from: u64, to: u64) -> Vec<Vec<u8>> {
    (from..to)
        .map(|rank| unrank(length, num_segments, rank))
        .filter(|r| is_canonical(r) && complete_by_sums(r))
        .collect()
}

#[test]
fn whole_space_of_thirteen() {
    let shared = Shared::new(true);
    let total = calculate_total_space(13, 4);
    assert_eq!(total, 55);
    let (found, _, completed) = search_range(&shared.context(13, 4), 0, total);
    assert!(completed);
    // The perfect difference sets modulo 13.
    assert_eq!(found, vec![vec![1, 2, 6, 4], vec![1, 3, 2, 7]]);
    assert_eq!(shared.found_counter.load(Ordering::Relaxed), 2);
    assert_eq!(*shared.latest_ruler.lock().unwrap(), Some(vec![1, 3, 2, 7]));
}

#[test]
fn ranges_agree_with_single_decisions() {
    for (length, n) in [(2, 2), (3, 2), (7, 3), (9, 4), (11, 5), (12, 6)] {
        let total = calculate_total_space(length, n);
        for from in 0..total {
            for to in [from, from + 1, from + 2, (from + total) / 2 + 1, total] {
                if to > total {
                    continue;
                }
                let shared = Shared::new(true);
                let (found, evaluations, completed) =
                    search_range(&shared.context(length, n), from, to);
                assert!(completed);
                assert_eq!(found, solutions(length, n, from, to));
                assert_eq!(shared.eval_counter.load(Ordering::Relaxed), evaluations);
                assert_eq!(evaluations, to - from);
            }
        }
    }
}

#[test]
fn range_that_ends_inside_a_skip() {
    // [1, 3, 1, 5], [1, 3, 2, 4], [1, 3, 3, 3], [1, 3, 4, 2], [1, 3, 5, 1]
    assert_eq!(unrank(10, 4, 13), vec![1, 3, 1, 5]);
    let shared = Shared::new(true);
    let (_, evaluations, completed) = search_range(&shared.context(10, 4), 16, 17);
    assert!(completed);
    assert_eq!(evaluations, 1);
    let (_, evaluations, completed) = search_range(&shared.context(10, 4), 16, 18);
    assert!(completed);
    assert_eq!(evaluations, 2);
    assert_eq!(shared.eval_counter.load(Ordering::Relaxed), 3);

    // [1, 1, 4], [1, 2, 3], [1, 3, 2]
    let (found, evaluations, completed) = search_range(&shared.context(6, 3), 0, 3);
    assert_eq!((found, evaluations, completed), (vec![vec![1, 2, 3]], 3, true));
}

#[test]
fn empty_ranges_are_completed() {
    let shared = Shared::new(false);
    for (length, n, from, to) in [(10, 4, 27, 27), (10, 3, 100, 50), (9, 2, 5, 5), (9, 1, 3, 0)] {
        let (found, evaluations, completed) = search_range(&shared.context(length, n), from, to);
        assert_eq!((found, evaluations, completed), (vec![], 0, true));
    }
}

#[test]
fn range_beyond_the_space_is_not_completed() {
    let shared = Shared::new(true);
    let (found, evaluations, completed) = search_range(&shared.context(7, 3), 0, 100);
    assert!(!completed);
    assert_eq!(evaluations, 5);
    assert_eq!(found, solutions(7, 3, 0, 5));
    let (found, evaluations, completed) = search_range(&shared.context(3, 2), 0, 2);
    assert_eq!((found, evaluations, completed), (vec![vec![1, 2]], 1, false));
}

#[test]
fn interrupted_search() {
    let shared = Shared::new(false);
    let (found, evaluations, completed) = search_range(&shared.context(13, 4), 0, 55);
    assert_eq!((found, evaluations, completed), (vec![], 0, false));
    // Nothing to search: nothing to interrupt.
    let (found, evaluations, completed) = search_range(&shared.context(13, 4), 9, 9);
    assert_eq!((found, evaluations, completed), (vec![], 0, true));
}

#[test]
fn interrupt_is_noticed_at_the_interval() {
    let total = calculate_total_space(30, 6);
    let mut search = RangeSearch::new(30, 6, 0, total);
    search.advance(true);
    while !search.is_over() {
        search.advance(false);
    }
    let (found, evaluations, completed) = search.finish();
    assert!(!completed);
    assert!(evaluations > 0);
    assert_eq!(evaluations % 1024, 0);
    assert_eq!(found, solutions(30, 6, 0, evaluations));
}

#[test]
fn adjoining_ranges_concatenate() {
    let shared = Shared::new(true);
    let total = calculate_total_space(12, 5);
    let (all, _, _) = search_range(&shared.context(12, 5), 0, total);
    let (mut first, _, _) = search_range(&shared.context(12, 5), 0, 77);
    let (second, _, _) = search_range(&shared.context(12, 5), 77, total);
    first.extend(second);
    assert_eq!(first, all);
}

#[test]
fn every_complete_ruler_is_found_once() {
    let shared = Shared::new(true);
    let total = calculate_total_space(8, 4);
    let (found, _, _) = search_range(&shared.context(8, 4), 0, total);
    // All circular rulers of length 8 with 4 segments, whatever their first segment.
    for a in 1..=5u8 {
        for b in 1..=5u8 {
            for c in 1..=5u8 {
                if a + b + c >= 8 {
                    continue;
                }
                let ruler = [a, b, c, 8 - a - b - c];
                if !complete_by_sums(&ruler) {
                    continue;
                }
                let images: Vec<Vec<u8>> = (0..4)
                    .flat_map(|i| {
                        [
                            (0..4).map(|j| ruler[(i + j) % 4]).collect::<Vec<u8>>(),
                            (0..4).map(|j| ruler[(i + 4 - j) % 4]).collect::<Vec<u8>>(),
                        ]
                    })
                    .collect();
                assert_eq!(found.iter().filter(|r| images.contains(r)).count(), 1);
            }
        }
    }
}

#[test]
fn results_up_to_the_first_interrupted_chunk() {
    let results = || {
        vec![
            (vec![vec![1, 1]], 10, true),
            (vec![vec![1, 2]], 10, true),
            (vec![vec![1, 3]], 4, false),
            (vec![vec![1, 4]], 10, true),
        ]
    };
    let mut found = vec![vec![9]];
    let mark = process_search_results(&mut found, results(), 1000, 1035, 10);
    assert_eq!(mark, (1020, false));
    assert_eq!(found, vec![vec![9], vec![1, 1], vec![1, 2], vec![1, 3]]);

    let mut found = vec![];
    let mut all = results();
    all[2].2 = true;
    let mark = process_search_results(&mut found, all, 1000, 1035, 10);
    assert_eq!(mark, (1035, true));
    assert_eq!(found.len(), 4);

    let mut found = vec![];
    assert_eq!(process_search_results(&mut found, vec![], 5, 5, 10), (5, true));
}

#[test]
fn session_searches_on_threads() {
    let mut state = State::new("test".to_string());
    let mut session: SearchSession = state.begin_search(13, 4).unwrap();
    assert_eq!(session.total_space, 55);
    assert_eq!(session.start_rank, 0);
    let shared = Shared::new(true);
    assert!(session.goes_on(true));
    session.search_batch(&shared.context(13, 4));
    assert!(session.status == SearchStatus::Finished);
    assert_eq!((session.current_rank, session.evaluated), (55, 55));
    assert_eq!(session.found_rulers, vec![vec![1, 2, 6, 4], vec![1, 3, 2, 7]]);
    assert!(!session.goes_on(true));
    assert!(session.status == SearchStatus::Finished);
}

#[test]
fn batch_of_several_chunks_is_interrupted() {
    let mut state = State::new("test".to_string());
    let mut session = state.begin_search(60, 9).unwrap();
    assert_eq!(session.total_space, 300_674_088);
    let shared = Shared::new(false);
    session.search_batch_on(&shared.context(60, 9), 1);
    assert!(session.status == SearchStatus::Interrupted);
    assert_eq!(session.current_rank, 0);
}

#[test]
fn session_is_interrupted() {
    let mut state = State::new("test".to_string());
    let mut session = state.begin_search(13, 4).unwrap();
    assert!(!session.goes_on(false));
    assert!(session.status == SearchStatus::Interrupted);

    let mut session = state.begin_search(13, 4).unwrap();
    let shared = Shared::new(false);
    session.search_batch_on(&shared.context(13, 4), 1);
    assert!(session.status == SearchStatus::Interrupted);
    assert_eq!((session.current_rank, session.evaluated), (0, 0));
    assert!(session.found_rulers.is_empty());
    assert!(!session.goes_on(true));
}

#[test]
fn session_takes_over_gpu_chunks() {
    let mut state = State::new("test".to_string());
    let mut session = state.begin_search(60, 9).unwrap();
    assert_eq!(session.gpu_chunk_end(), 100_000_000);
    session.absorb_gpu_chunk(vec![vec![1]], 100_000_000, true);
    assert_eq!(session.evaluated, 100_000_000);
    assert_eq!(session.current_rank, 100_000_000);
    assert!(session.goes_on(true));
    session.absorb_gpu_chunk(vec![vec![2]], 7, false);
    assert_eq!(session.evaluated, 100_000_007);
    // The chunk was not completed: the mark stays at its start.
    assert_eq!(session.current_rank, 100_000_000);
    assert_eq!(session.found_rulers, vec![vec![1], vec![2]]);
    assert!(session.status == SearchStatus::Interrupted);
    assert!(!session.goes_on(true));
}

#[test]
fn interrupted_gpu_search_loses_nothing() {
    let (length, n) = (13, 4);
    let mut state = State::new("test".to_string());
    let mut session = state.begin_search(length, n).unwrap();
    // The only chunk is interrupted after its first ruler.
    session.absorb_gpu_chunk(vec![vec![1, 2, 6, 4]], 30, false);
    assert!(session.status == SearchStatus::Interrupted);
    assert_eq!(session.current_rank, 0);
    state.finalize_solution(
        length,
        n,
        session.current_rank,
        session.evaluated,
        session.found_rulers,
        &no_time(),
        session.status,
    );
    let mut resumed = state.begin_search(length, n).unwrap();
    assert_eq!(state.total_rulers_evaluated, 30);
    assert_eq!((resumed.current_rank, resumed.evaluated), (0, 0));
    assert_eq!(resumed.gpu_chunk_end(), 55);
    resumed.absorb_gpu_chunk(vec![vec![1, 2, 6, 4], vec![1, 3, 2, 7]], 55, true);
    assert_eq!(resumed.evaluated, 55);
    assert!(resumed.status == SearchStatus::Finished);
    assert_eq!(resumed.current_rank, 55);
    // Every solution, and nothing else.
    let all = solutions(length, n, 0, 55);
    assert!(all.iter().all(|r| resumed.found_rulers.contains(r)));
    assert!(resumed.found_rulers.iter().all(|r| all.contains(r)));
}

#[test]
fn checkpoints_every_ten_seconds() {
    assert!(!checkpoint_due(&ClockTime::new(9, 999_999_999)));
    assert!(checkpoint_due(&ClockTime::new(10, 0)));
    assert!(checkpoint_due(&ClockTime::new(11, 5)));
}

#[test]
fn interrupted_and_resumed_search_loses_nothing() {
    let (length, n) = (20, 6);
    let total = calculate_total_space(length, n);
    assert_eq!(total, 3060);
    let mut state = State::new("test".to_string());
    let mut session = state.begin_search(length, n).unwrap();

    // The first chunk is completed, the second one interrupted halfway, the third never started.
    let chunk = 1100;
    let shared = Shared::new(true);
    let first = search_range(&shared.context(length, n), 0, chunk);
    let mut search = RangeSearch::new(length, n, chunk, 2 * chunk);
    search.advance(true);
    while !search.is_over() {
        search.advance(false);
    }
    let mut second = search.finish();
    second.2 = false;
    let second_evaluated = second.1;
    let third = (vec![], 0, false);
    let results = vec![first, second, third];
    session.evaluated += total_evaluations(&results);
    assert_eq!(session.evaluated, chunk + second_evaluated);
    let (mark, completed) = process_search_results(
        &mut session.found_rulers,
        results,
        0,
        total,
        chunk,
    );
    assert_eq!((mark, completed), (chunk, false));

    state.finalize_solution(
        length,
        n,
        mark,
        session.evaluated,
        session.found_rulers,
        &no_time(),
        SearchStatus::Interrupted,
    );
    let mut resumed = state.begin_search(length, n).unwrap();
    assert_eq!(resumed.current_rank, chunk);
    while resumed.goes_on(true) {
        resumed.search_batch_on(&shared.context(length, n), 3);
    }
    assert_eq!((resumed.current_rank, resumed.evaluated), (total, total));
    let all = solutions(length, n, 0, total);
    assert!(!all.is_empty());
    for ruler in &all {
        assert!(resumed.found_rulers.contains(ruler));
    }
    assert!(resumed.found_rulers.iter().all(|r| all.contains(r)));
}

#[test]
fn flag_that_stays_set_never_stops_a_search() {
    let mut search = RangeSearch::new(20, 6, 100, 3060);
    while !search.is_over() {
        search.advance(true);
    }
    let (found, evaluations, completed) = search.finish();
    assert!(completed);
    assert_eq!(evaluations, 2960);
    assert_eq!(found, solutions(20, 6, 100, 3060));
}

#[test]
fn evaluations_of_all_chunks_count() {
    let results = vec![
        (vec![], 10, true),
        (vec![vec![1, 2]], 4, false),
        (vec![], 10, true),
    ];
    assert_eq!(total_evaluations(&results), 24);
    assert_eq!(total_evaluations(&vec![]), 0);
}
