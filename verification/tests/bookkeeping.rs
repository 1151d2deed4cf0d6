use std::sync::atomic::{AtomicBool, AtomicU64};
use std::sync::Mutex;

use sparse_rulers::campaign::Campaign;
use sparse_rulers::clock::ClockTime;
use sparse_rulers::format::{counted, default_version, group_thousands, CompactArrayFormatter};
use sparse_rulers::range_search::RangeContext;
use sparse_rulers::state::{SearchStatus, SearchTiming, Solution, State};

fn solution(completed: bool, found: u64, evaluated: u64, secs: u64) -> Solution {
    Solution {
        completed,
        lower_bound_num_segments: 3,
        num_segments: 4,
        rulers: vec![],
        checkpoint_ruler: None,
        rulers_found: found,
        total_rulers_evaluated: evaluated,
        total_clock_time: ClockTime::new(secs, 600_000_000),
        total_cpu_time: ClockTime::new(2 * secs, 1),
    }
}

fn no_time() -> SearchTiming {
    SearchTiming {
        base_clock_time: ClockTime::zero(),
        base_cpu_time: ClockTime::zero(),
        clock_elapsed: ClockTime::zero(),
        cpu_elapsed: ClockTime::zero(),
    }
}

#[test]
fn clock_times_carry() {
    let sum = ClockTime::new(1, 600_000_000).plus(ClockTime::new(2, 600_000_000));
    assert_eq!((sum.secs(), sum.subsec_nanos()), (4, 200_000_000));
    assert_eq!(sum.as_nanos(), 4_200_000_000);
    let sum = ClockTime::new(1, 400_000_000).plus(ClockTime::new(2, 599_999_999));
    assert_eq!((sum.secs(), sum.subsec_nanos()), (3, 999_999_999));
    assert!(sum.at_least(&ClockTime::new(3, 999_999_999)));
    assert!(!sum.at_least(&ClockTime::new(4, 0)));
}

#[test]
fn totals_are_sums() {
    let mut state = State::new("v".to_string());
    state.solutions.insert(0, solution(false, 1, 10, 1));
    state.solutions.insert(7, solution(true, 2, 20, 2));
    state.solutions.insert(255, solution(true, 3, 30, 3));
    state.total_rulers_found = 99;
    assert!(state.can_recalculate());
    state.recalculate_global_metrics();
    assert_eq!(state.total_rulers_found, 6);
    assert_eq!(state.total_rulers_evaluated, 60);
    assert_eq!(state.lengths_solved, 2);
    assert_eq!(state.total_clock_time, ClockTime::new(7, 800_000_000));
    assert_eq!(state.total_cpu_time, ClockTime::new(12, 3));
}

#[test]
fn totals_out_of_range_are_noticed() {
    let mut state = State::new("v".to_string());
    state.solutions.insert(1, solution(false, u64::MAX, 0, 0));
    assert!(state.can_recalculate());
    state.solutions.insert(2, solution(false, 1, 0, 0));
    assert!(!state.can_recalculate());
    assert!(state.can_record(1, 5, 7, &no_time()));
    assert!(!state.can_record(1, 5, u64::MAX, &no_time()));
    assert!(!state.can_record(3, 5, 7, &no_time()));
    let endless = SearchTiming {
        base_clock_time: ClockTime::new(u64::MAX, 999_999_999),
        clock_elapsed: ClockTime::new(0, 1),
        ..no_time()
    };
    assert!(!state.can_record(1, 5, 7, &endless));
}

#[test]
fn new_solution_is_prepared() {
    let mut state = State::new("v".to_string());
    let (rank, rulers, clock, cpu) = state.initialize_solution(31, 8);
    assert_eq!((rank, rulers.len()), (0, 0));
    assert_eq!((clock, cpu), (ClockTime::zero(), ClockTime::zero()));
    let made = &state.solutions[&31];
    assert_eq!((made.lower_bound_num_segments, made.num_segments), (6, 8));
    assert!(!made.completed);
}

#[test]
fn known_solution_is_taken_up() {
    let mut state = State::new("v".to_string());
    let mut known = solution(false, 1, 17, 5);
    known.rulers = vec![vec![1, 2, 3, 4]];
    state.solutions.insert(10, known);
    // Without a checkpoint the count of evaluations is the rank.
    let (rank, rulers, clock, _) = state.initialize_solution(10, 4);
    assert_eq!(rank, 17);
    assert_eq!(rulers, vec![vec![1, 2, 3, 4]]);
    assert_eq!(clock, ClockTime::new(5, 600_000_000));
    assert!(state.solutions[&10].rulers.is_empty());

    // Another number of segments starts over.
    let (rank, _, _, _) = state.initialize_solution(10, 5);
    assert_eq!(rank, 0);
    assert_eq!(state.solutions[&10].num_segments, 5);
    assert_eq!(state.solutions[&10].total_rulers_evaluated, 0);

    // A completed one keeps its number of segments.
    state.solutions.insert(11, solution(true, 1, 17, 5));
    let (rank, _, _, _) = state.initialize_solution(11, 6);
    assert_eq!((rank, state.solutions[&11].num_segments), (17, 4));
}

#[test]
fn checkpoint_is_resumed() {
    let mut state = State::new("v".to_string());
    state.solutions.insert(10, solution(false, 0, 0, 5));
    let timing = SearchTiming {
        base_clock_time: ClockTime::new(5, 0),
        clock_elapsed: ClockTime::new(1, 2),
        ..no_time()
    };
    let rulers = vec![vec![1, 1, 3, 5]];
    let (found, time) = state.save_checkpoint(10, 4, 9, 12, &rulers, &timing);
    assert_eq!((found, time), (1, ClockTime::new(6, 2)));
    assert_eq!(state.solutions[&10].checkpoint_ruler, Some(vec![1, 2, 3, 4]));
    assert_eq!(state.solutions[&10].rulers, rulers);
    assert_eq!(state.total_rulers_evaluated, 12);
    assert_eq!(state.total_clock_time, ClockTime::new(6, 2));
    assert!(state.can_begin_search(10, 4));
    let session = state.begin_search(10, 4).unwrap();
    assert_eq!(session.start_rank, 9);
    assert_eq!(session.found_rulers, rulers);
    assert_eq!(session.base_clock_time, ClockTime::new(6, 2));
}

#[test]
fn bad_checkpoint_is_noticed() {
    let mut state = State::new("v".to_string());
    let mut known = solution(false, 0, 0, 0);
    known.checkpoint_ruler = Some(vec![1, 9, 9, 9]);
    state.solutions.insert(10, known);
    assert!(!state.can_begin_search(10, 4));
    // With another number of segments the checkpoint is dropped.
    assert!(state.can_begin_search(10, 5));
}

#[test]
fn outcomes_are_recorded() {
    let mut state = State::new("v".to_string());
    state.begin_search(10, 4);
    state.finalize_solution(
        10,
        4,
        27,
        27,
        vec![vec![1, 2, 3, 4]],
        &no_time(),
        SearchStatus::Interrupted,
    );
    assert_eq!(state.solutions[&10].checkpoint_ruler, Some(vec![1, 7, 1, 1]));
    assert_eq!(state.total_rulers_found, 1);
    state.finalize_solution(10, 4, 28, 28, vec![], &no_time(), SearchStatus::Finished);
    assert_eq!(state.solutions[&10].checkpoint_ruler, None);
    assert_eq!((state.total_rulers_found, state.total_rulers_evaluated), (0, 28));
}

#[test]
fn unit_length_is_known() {
    let mut state = State::new("v".to_string());
    assert!(state.can_begin_search(1, 1));
    assert!(state.begin_search(1, 1).is_none());
    assert!(state.is_completed(1));
    assert_eq!(state.solutions[&1].rulers, vec![vec![1]]);
    assert_eq!((state.lengths_solved, state.total_rulers_found), (1, 1));
    let mut known = solution(false, 0, 0, 4);
    known.checkpoint_ruler = Some(vec![1]);
    state.solutions.insert(1, known);
    assert!(state.begin_search(1, 1).is_none());
    assert_eq!(state.solutions[&1].num_segments, 4);
    assert_eq!(state.solutions[&1].checkpoint_ruler, Some(vec![1]));
    assert_eq!(state.total_clock_time, ClockTime::new(4, 600_000_000));
}

#[test]
fn start_lengths() {
    let mut state = State::new("v".to_string());
    assert_eq!(state.start_length(9), 9);
    assert_eq!(state.start_length(0), 1);
    state.solutions.insert(1, solution(true, 0, 0, 0));
    state.solutions.insert(2, solution(true, 0, 0, 0));
    state.solutions.insert(3, solution(false, 0, 0, 0));
    assert_eq!(state.start_length(0), 3);
    assert_eq!(state.first_num_segments(3), 4);
    assert_eq!(state.first_num_segments(13), 4);
}

#[test]
fn campaign_finds_minimal_rulers() {
    let mut state = State::new("v".to_string());
    state.solutions.insert(5, solution(true, 0, 0, 0));
    let interrupt = AtomicBool::new(true);
    let eval_counter = AtomicU64::new(0);
    let found_counter = AtomicU64::new(0);
    let latest_ruler = Mutex::new(None);
    let mut campaign = Campaign::new(1, 13);
    let mut minimal = Vec::new();
    while let Some((length, num_segments)) = campaign.next_search(&state, true) {
        if let Some(mut session) = state.begin_search(length, num_segments) {
            let ctx = RangeContext {
                length,
                num_segments,
                interrupt: &interrupt,
                eval_counter: &eval_counter,
                found_counter: &found_counter,
                latest_ruler: &latest_ruler,
            };
            while session.goes_on(true) {
                session.search_batch_on(&ctx, 2);
            }
            assert_eq!(session.evaluated, session.total_space);
            state.finalize_solution(
                length,
                num_segments,
                session.current_rank,
                session.evaluated,
                session.found_rulers,
                &no_time(),
                session.status,
            );
        }
        assert!(state.can_complete(length));
        if let Some(conclusion) = campaign.search_finished(&mut state) {
            let solved = &state.solutions[&length];
            assert!(solved.completed);
            assert_eq!(solved.num_segments, num_segments);
            assert_eq!(conclusion.found, solved.rulers.len() as u64);
            if length == 13 {
                assert_eq!(solved.rulers, vec![vec![1, 2, 6, 4], vec![1, 3, 2, 7]]);
            }
            minimal.push((length, conclusion.num_segments));
        }
    }
    assert_eq!(
        minimal,
        vec![
            (1, 1),
            (2, 2),
            (3, 2),
            (4, 3),
            (6, 3),
            (7, 3),
            (8, 4),
            (9, 4),
            (10, 4),
            (11, 4),
            (12, 4),
            (13, 4)
        ]
    );
    assert_eq!(state.lengths_solved, 13);
    assert_eq!(campaign.next_search(&state, true), None);
}

#[test]
fn campaign_tries_more_segments() {
    let mut state = State::new("v".to_string());
    let mut campaign = Campaign::new(14, 14);
    assert_eq!(campaign.next_search(&state, false), None);
    assert_eq!(campaign.next_search(&state, true), Some((14, 5)));
    state.initialize_solution(14, 5);
    assert!(campaign.search_finished(&mut state).is_none());
    assert_eq!(campaign.next_search(&state, true), Some((14, 6)));
    assert!(!state.is_completed(14));
}

#[test]
fn arrays_inside_arrays_are_compact() {
    let mut layout = CompactArrayFormatter::new();
    assert_eq!(layout.begin_array(), None);
    assert_eq!(layout.begin_array_value(true), None);
    assert_eq!(layout.begin_array(), Some("["));
    assert_eq!(layout.begin_array_value(true), Some(""));
    assert_eq!(layout.end_array_value(), Some(""));
    assert_eq!(layout.begin_array_value(false), Some(", "));
    assert_eq!(layout.open_arrays(), 2);
    assert_eq!(layout.end_array(), Some("]"));
    assert_eq!(layout.end_array_value(), None);
    assert_eq!(layout.end_array(), None);
    assert_eq!(layout.open_arrays(), 0);
}

#[test]
fn numbers_in_groups() {
    let text = |n: u64| group_thousands(n).into_iter().collect::<String>();
    assert_eq!(text(0), "0");
    assert_eq!(text(999), "999");
    assert_eq!(text(1000), "1,000");
    assert_eq!(text(12345), "12,345");
    assert_eq!(text(1234567), "1,234,567");
    assert_eq!(text(u64::MAX), "18,446,744,073,709,551,615");
}

#[test]
fn words_and_versions() {
    assert_eq!(default_version(), "0.0.0");
    assert_eq!(counted(1, "ruler", "rulers"), "ruler");
    assert_eq!(counted(0, "ruler", "rulers"), "rulers");
    assert_eq!(counted(2, "ruler", "rulers"), "rulers");
}
