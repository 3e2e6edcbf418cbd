use bankers::{
    find_completion_order, release_resource, request_resource, safe_check, try_request,
    MalformedInput, Rejection, SystemState,
};

fn textbook() -> SystemState {
    SystemState::new(
        vec![3, 3, 2],
        vec![vec![7, 5, 3], vec![3, 2, 2], vec![9, 0, 2], vec![2, 2, 2], vec![4, 3, 3]],
        vec![vec![0, 1, 0], vec![2, 0, 0], vec![3, 0, 2], vec![2, 1, 1], vec![0, 0, 2]],
    )
    .unwrap()
}

fn column_total(state: &SystemState, r: usize) -> i64 {
    let mut sum = state.available()[r] as i64;
    for row in state.allocated() {
        sum += row[r] as i64;
    }
    sum
}

#[test]
fn new_derives_need_and_marks_nobody_finished() {
    let state = textbook();
    assert_eq!(state.resource_count(), 3);
    assert_eq!(state.process_count(), 5);
    assert_eq!(state.available(), &vec![3, 3, 2]);
    assert_eq!(
        state.need(),
        &vec![vec![7, 4, 3], vec![1, 2, 2], vec![6, 0, 0], vec![0, 1, 1], vec![4, 3, 1]]
    );
    assert_eq!(state.completed_process(), &vec![false; 5]);
}

#[test]
fn single_process_takes_everything_and_finishes() {
    let mut state = SystemState::new(vec![2], vec![vec![2]], vec![vec![0]]).unwrap();
    assert!(request_resource(&mut state, 0, &[2]));
    assert_eq!(state.available(), &vec![0]);
    assert_eq!(state.need(), &vec![vec![0]]);
    assert_eq!(state.allocated(), &vec![vec![2]]);
    release_resource(&mut state, 0);
    assert_eq!(state.available(), &vec![2]);
    assert_eq!(state.allocated(), &vec![vec![0]]);
    assert_eq!(state.need(), &vec![vec![2]]);
    assert_eq!(state.completed_process(), &vec![true]);
}

#[test]
fn single_process_with_five_resource_types_finishes() {
    let mut state = SystemState::new(vec![2; 5], vec![vec![2; 5]], vec![vec![0; 5]]).unwrap();
    assert!(request_resource(&mut state, 0, &[2, 2, 2, 2, 2]));
    assert_eq!(state.available(), &vec![0; 5]);
    assert_eq!(state.need(), &vec![vec![0; 5]]);
    release_resource(&mut state, 0);
    assert_eq!(state.available(), &vec![2; 5]);
    assert_eq!(state.completed_process(), &vec![true]);
}

#[test]
fn release_before_the_need_is_met_keeps_the_totals() {
    let mut state = textbook();
    release_resource(&mut state, 2);
    assert_eq!(state.available(), &vec![6, 3, 4]);
    assert_eq!(state.allocated()[2], vec![0, 0, 0]);
    assert_eq!(state.need()[2], vec![9, 0, 2]);
    assert_eq!(state.completed_process(), &vec![false, false, true, false, false]);
    assert_eq!((0..3).map(|r| column_total(&state, r)).collect::<Vec<i64>>(), vec![10, 5, 7]);
    assert!(safe_check(&state));
    assert_eq!(find_completion_order(&state), Some(vec![1, 3, 0, 4]));
}

#[test]
fn textbook_state_is_safe() {
    let state = textbook();
    assert!(safe_check(&state));
}

#[test]
fn textbook_order_takes_the_lowest_process_each_pass() {
    let state = textbook();
    assert_eq!(find_completion_order(&state), Some(vec![1, 3, 0, 2, 4]));
}

#[test]
fn safe_check_gives_the_same_answer_twice() {
    let state = textbook();
    let first = safe_check(&state);
    let second = safe_check(&state);
    assert_eq!(first, second);
    assert_eq!(find_completion_order(&state), find_completion_order(&state));
    assert_eq!(state.available(), &vec![3, 3, 2]);
    assert_eq!(state.allocated()[0], vec![0, 1, 0]);
    assert_eq!(state.completed_process(), &vec![false; 5]);
}

#[test]
fn request_that_starves_everyone_is_denied_and_rolled_back() {
    let mut state = textbook();
    let before = state.clone();
    assert!(!request_resource(&mut state, 0, &[3, 3, 2]));
    assert_eq!(state.available(), before.available());
    assert_eq!(state.allocated(), before.allocated());
    assert_eq!(state.need(), before.need());
    assert_eq!(state.max(), before.max());
    assert_eq!(state.completed_process(), before.completed_process());
}

#[test]
fn textbook_second_request_is_unsafe() {
    let mut state = textbook();
    assert_eq!(try_request(&mut state, 1, &[1, 0, 2]), Ok(()));
    assert_eq!(state.available(), &vec![2, 3, 0]);
    assert_eq!(state.allocated()[1], vec![3, 0, 2]);
    assert_eq!(state.need()[1], vec![0, 2, 0]);
    let before = state.clone();
    assert_eq!(try_request(&mut state, 0, &[0, 2, 0]), Err(Rejection::Unsafe));
    assert_eq!(state.available(), before.available());
    assert_eq!(state.allocated(), before.allocated());
    assert_eq!(state.need(), before.need());
}

#[test]
fn request_above_need_never_touches_available() {
    let mut state = textbook();
    assert_eq!(try_request(&mut state, 1, &[0, 3, 0]), Err(Rejection::ExceedsNeed));
    assert_eq!(state.available(), &vec![3, 3, 2]);
    assert!(!request_resource(&mut state, 3, &[1, 0, 0]));
    assert_eq!(state.available(), &vec![3, 3, 2]);
    assert_eq!(state.allocated()[3], vec![2, 1, 1]);
}

#[test]
fn need_is_looked_at_before_what_is_free() {
    let mut state = textbook();
    assert_eq!(try_request(&mut state, 3, &[4, 0, 0]), Err(Rejection::ExceedsNeed));
}

#[test]
fn request_above_what_is_free_is_denied() {
    let mut state = textbook();
    assert_eq!(try_request(&mut state, 0, &[4, 0, 0]), Err(Rejection::ExceedsAvailable));
    assert_eq!(state.available(), &vec![3, 3, 2]);
    assert_eq!(state.need()[0], vec![7, 4, 3]);
}

#[test]
fn empty_request_is_granted_in_a_safe_state() {
    let mut state = textbook();
    assert_eq!(try_request(&mut state, 2, &[0, 0, 0]), Ok(()));
    assert_eq!(state.available(), &vec![3, 3, 2]);
    assert_eq!(state.need()[2], vec![6, 0, 0]);
}

#[test]
fn granted_request_leaves_a_safe_state() {
    let mut state = textbook();
    assert!(request_resource(&mut state, 1, &[1, 0, 2]));
    assert!(safe_check(&state));
    assert!(request_resource(&mut state, 3, &[0, 1, 0]));
    assert!(safe_check(&state));
}

#[test]
fn granted_request_lowers_need_and_never_raises_it() {
    let mut state = textbook();
    let before = state.need()[1].clone();
    assert!(request_resource(&mut state, 1, &[1, 0, 2]));
    let after = state.need()[1].clone();
    assert!(after.iter().zip(&before).all(|(a, b)| a <= b));
    assert!(after.iter().zip(&before).any(|(a, b)| a < b));
    assert_eq!(after, vec![0, 2, 0]);
}

#[test]
fn totals_are_conserved_by_requests_and_releases() {
    let mut state = textbook();
    let totals: Vec<i64> = (0..3).map(|r| column_total(&state, r)).collect();
    assert_eq!(totals, vec![10, 5, 7]);
    assert!(request_resource(&mut state, 1, &[1, 0, 2]));
    assert_eq!((0..3).map(|r| column_total(&state, r)).collect::<Vec<i64>>(), totals);
    assert!(!request_resource(&mut state, 0, &[0, 2, 0]));
    assert_eq!((0..3).map(|r| column_total(&state, r)).collect::<Vec<i64>>(), totals);
    assert!(request_resource(&mut state, 1, &[0, 2, 0]));
    release_resource(&mut state, 1);
    assert_eq!((0..3).map(|r| column_total(&state, r)).collect::<Vec<i64>>(), totals);
    assert_eq!(state.available(), &vec![5, 3, 2]);
}

#[test]
fn release_resets_need_to_max_and_marks_the_process() {
    let mut state = textbook();
    assert!(request_resource(&mut state, 3, &[0, 1, 1]));
    assert_eq!(state.need()[3], vec![0, 0, 0]);
    release_resource(&mut state, 3);
    assert_eq!(state.available(), &vec![5, 4, 3]);
    assert_eq!(state.allocated()[3], vec![0, 0, 0]);
    assert_eq!(state.need()[3], vec![2, 2, 2]);
    assert_eq!(state.completed_process(), &vec![false, false, false, true, false]);
}

#[test]
fn finished_process_no_longer_counts_for_safety() {
    let mut state = SystemState::new(
        vec![1],
        vec![vec![3], vec![2]],
        vec![vec![2], vec![0]],
    )
    .unwrap();
    assert!(request_resource(&mut state, 0, &[1]));
    release_resource(&mut state, 0);
    assert_eq!(state.need()[0], vec![3]);
    assert!(safe_check(&state));
    assert_eq!(find_completion_order(&state), Some(vec![1]));
}

#[test]
fn unsafe_state_has_no_completion_order() {
    let state = SystemState::new(
        vec![1],
        vec![vec![4], vec![4]],
        vec![vec![2], vec![2]],
    )
    .unwrap();
    assert!(!safe_check(&state));
    assert_eq!(find_completion_order(&state), None);
}

#[test]
fn nothing_is_granted_in_an_unsafe_state() {
    let mut state = SystemState::new(
        vec![1],
        vec![vec![4], vec![4]],
        vec![vec![2], vec![2]],
    )
    .unwrap();
    assert_eq!(try_request(&mut state, 0, &[0]), Err(Rejection::Unsafe));
    assert_eq!(try_request(&mut state, 0, &[1]), Err(Rejection::Unsafe));
    assert_eq!(state.available(), &vec![1]);
}

#[test]
fn description_without_resources_or_processes_is_malformed() {
    assert_eq!(SystemState::new(vec![], vec![vec![]], vec![vec![]]).err(), Some(MalformedInput));
    assert_eq!(SystemState::new(vec![1], vec![], vec![]).err(), Some(MalformedInput));
}

#[test]
fn description_with_a_length_mismatch_is_malformed() {
    assert!(SystemState::new(vec![1, 1], vec![vec![1]], vec![vec![0, 0]]).is_err());
    assert!(SystemState::new(vec![1, 1], vec![vec![1, 1]], vec![vec![0]]).is_err());
    assert!(SystemState::new(vec![1], vec![vec![1], vec![1]], vec![vec![0]]).is_err());
    assert!(SystemState::new(vec![1], vec![vec![1]], vec![vec![0], vec![0]]).is_err());
}

#[test]
fn description_with_a_negative_amount_is_malformed() {
    assert!(SystemState::new(vec![-1], vec![vec![1]], vec![vec![0]]).is_err());
    assert!(SystemState::new(vec![1], vec![vec![1]], vec![vec![-1]]).is_err());
    assert!(SystemState::new(vec![1], vec![vec![-1]], vec![vec![-1]]).is_err());
}

#[test]
fn description_that_holds_more_than_the_maximum_is_malformed() {
    assert!(SystemState::new(vec![1], vec![vec![1]], vec![vec![2]]).is_err());
}

#[test]
fn description_whose_total_overflows_is_malformed() {
    let big = i32::MAX;
    assert!(SystemState::new(vec![1], vec![vec![big]], vec![vec![big]]).is_err());
    assert!(SystemState::new(vec![0], vec![vec![big], vec![1]], vec![vec![big], vec![1]]).is_err());
    let state = SystemState::new(vec![0], vec![vec![big]], vec![vec![big]]).unwrap();
    assert_eq!(state.need(), &vec![vec![0]]);
}
