use binary_merge::log_ops::log_merge;
use binary_merge::log_ops::shortcut_log_merge;
use binary_merge::log_ops::MergeCall;
use binary_merge::log_ops::MergeEvent;

#[test]
fn trace_of_the_scenario_inputs() {
    let a: Vec<u64> = vec![1, 3, 5, 7];
    let b: Vec<u64> = vec![3, 4, 5, 9];
    let (events, _calls) = log_merge(&a, &b);
    assert_eq!(
        events,
        vec![
            MergeEvent::FromA(1),
            MergeEvent::Collision(3),
            MergeEvent::FromB(4),
            MergeEvent::Collision(5),
            MergeEvent::FromA(7),
            MergeEvent::FromB(9),
        ]
    );
}

#[test]
fn self_merge_fires_collision_once_per_element() {
    let a: Vec<u64> = vec![1, 3, 5, 7];
    let (events, calls) = log_merge(&a, &a);
    assert_eq!(
        events,
        vec![
            MergeEvent::Collision(1),
            MergeEvent::Collision(3),
            MergeEvent::Collision(5),
            MergeEvent::Collision(7),
        ]
    );
    assert_eq!(calls, vec![MergeCall::Collision; 4]);
}

#[test]
fn empty_first_input_is_one_from_b_call() {
    let e: Vec<u64> = vec![];
    let b: Vec<u64> = vec![1, 2, 3];
    let (events, calls) = log_merge(&e, &b);
    assert_eq!(calls, vec![MergeCall::FromB(3)]);
    assert_eq!(
        events,
        vec![MergeEvent::FromB(1), MergeEvent::FromB(2), MergeEvent::FromB(3)]
    );
}

#[test]
fn empty_second_input_is_one_from_a_call() {
    let a: Vec<u64> = vec![4, 5];
    let e: Vec<u64> = vec![];
    let (events, calls) = log_merge(&a, &e);
    assert_eq!(calls, vec![MergeCall::FromA(2)]);
    assert_eq!(events, vec![MergeEvent::FromA(4), MergeEvent::FromA(5)]);
}

#[test]
fn both_empty_fires_no_callback() {
    let e: Vec<u64> = vec![];
    let (events, calls) = log_merge(&e, &e);
    assert!(events.is_empty());
    assert!(calls.is_empty());
}

#[test]
fn shortcut_stops_right_after_first_collision() {
    let a: Vec<u64> = vec![1, 3, 5, 7];
    let b: Vec<u64> = vec![3, 4, 5, 9];
    let (events, _calls) = shortcut_log_merge(&a, &b);
    assert_eq!(events, vec![MergeEvent::FromA(1), MergeEvent::Collision(3)]);
}

#[test]
fn shortcut_on_disjoint_inputs_runs_to_completion() {
    let a: Vec<u64> = vec![1, 3, 5];
    let b: Vec<u64> = vec![2, 4, 6];
    let (events, _calls) = shortcut_log_merge(&a, &b);
    let (full, _full_calls) = log_merge(&a, &b);
    assert_eq!(events, full);
}

#[test]
fn shortcut_with_immediate_collision_records_only_it() {
    let a: Vec<u64> = vec![2, 9];
    let b: Vec<u64> = vec![2, 5];
    let (events, _calls) = shortcut_log_merge(&a, &b);
    assert_eq!(events, vec![MergeEvent::Collision(2)]);
}
