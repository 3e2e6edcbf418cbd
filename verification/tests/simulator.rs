use bankers::{draw_request, is_satisfied, simulate_turn, take_turn, Rejection, SystemState, Turn};
use rand::rngs::StdRng;
use rand::SeedableRng;

fn textbook() -> SystemState {
    SystemState::new(
        vec![3, 3, 2],
        vec![vec![7, 5, 3], vec![3, 2, 2], vec![9, 0, 2], vec![2, 2, 2], vec![4, 3, 3]],
        vec![vec![0, 1, 0], vec![2, 0, 0], vec![3, 0, 2], vec![2, 1, 1], vec![0, 0, 2]],
    )
    .unwrap()
}

#[test]
fn drawn_request_stays_within_need() {
    let state = textbook();
    let mut rng = StdRng::seed_from_u64(7);
    for _ in 0..200 {
        for p in 0..state.process_count() {
            let request = draw_request(&state, p, &mut rng);
            assert_eq!(request.len(), 3);
            for r in 0..3 {
                assert!(0 <= request[r] && request[r] <= state.need()[p][r]);
            }
        }
    }
}

#[test]
fn drawn_request_is_not_always_the_whole_need() {
    let state = SystemState::new(vec![0], vec![vec![1_000_000]], vec![vec![0]]).unwrap();
    let mut rng = StdRng::seed_from_u64(11);
    let mut below = false;
    for _ in 0..64 {
        let request = draw_request(&state, 0, &mut rng);
        assert!(0 <= request[0] && request[0] <= 1_000_000);
        if request[0] < 1_000_000 {
            below = true;
        }
    }
    assert!(below);
}

#[test]
fn drawn_request_for_no_need_is_empty() {
    let state = SystemState::new(vec![1], vec![vec![2]], vec![vec![2]]).unwrap();
    let mut rng = StdRng::seed_from_u64(3);
    assert_eq!(draw_request(&state, 0, &mut rng), vec![0]);
}

#[test]
fn same_seed_draws_the_same_requests() {
    let state = textbook();
    let mut first = StdRng::seed_from_u64(99);
    let mut second = StdRng::seed_from_u64(99);
    for p in 0..5 {
        assert_eq!(draw_request(&state, p, &mut first), draw_request(&state, p, &mut second));
    }
}

#[test]
fn turn_with_full_request_completes_the_process() {
    let mut state = SystemState::new(vec![2], vec![vec![2]], vec![vec![0]]).unwrap();
    assert!(!is_satisfied(&state, 0));
    assert_eq!(take_turn(&mut state, 0, &[2]), Turn::Completed);
    assert_eq!(state.available(), &vec![2]);
    assert_eq!(state.allocated(), &vec![vec![0]]);
    assert_eq!(state.need(), &vec![vec![2]]);
    assert_eq!(state.completed_process(), &vec![true]);
}

#[test]
fn turn_with_partial_request_is_granted() {
    let mut state = textbook();
    assert_eq!(take_turn(&mut state, 1, &[1, 0, 2]), Turn::Granted);
    assert_eq!(state.need()[1], vec![0, 2, 0]);
    assert_eq!(state.completed_process(), &vec![false; 5]);
    assert_eq!(take_turn(&mut state, 1, &[0, 2, 0]), Turn::Completed);
    assert_eq!(state.available(), &vec![5, 3, 2]);
    assert_eq!(state.completed_process(), &vec![false, true, false, false, false]);
}

#[test]
fn denied_turn_changes_nothing() {
    let mut state = textbook();
    assert_eq!(take_turn(&mut state, 0, &[3, 3, 2]), Turn::Denied(Rejection::Unsafe));
    assert_eq!(take_turn(&mut state, 0, &[0, 5, 0]), Turn::Denied(Rejection::ExceedsNeed));
    assert_eq!(take_turn(&mut state, 0, &[0, 4, 0]), Turn::Denied(Rejection::ExceedsAvailable));
    assert_eq!(state.available(), &vec![3, 3, 2]);
    assert_eq!(state.need()[0], vec![7, 4, 3]);
    assert_eq!(state.allocated()[0], vec![0, 1, 0]);
}

#[test]
fn simulated_turns_run_every_process_to_completion() {
    let mut state = textbook();
    let mut rng = StdRng::seed_from_u64(2024);
    let mut turns = 0;
    while state.completed_process().iter().any(|done| !done) {
        for p in 0..state.process_count() {
            if state.completed_process()[p] {
                continue;
            }
            let need_before = state.need()[p].clone();
            let (request, turn) = simulate_turn(&mut state, p, &mut rng);
            for r in 0..3 {
                assert!(0 <= request[r] && request[r] <= need_before[r]);
            }
            match turn {
                Turn::Completed => assert!(state.completed_process()[p]),
                Turn::Granted => {
                    for r in 0..3 {
                        assert_eq!(state.need()[p][r], need_before[r] - request[r]);
                    }
                }
                Turn::Denied(_) => assert_eq!(state.need()[p], need_before),
            }
        }
        turns += 1;
        assert!(turns < 100_000);
    }
    assert_eq!(state.available(), &vec![10, 5, 7]);
    assert_eq!(state.completed_process(), &vec![true; 5]);
}
