use sort_service::sort::algorithm::Algorithm;
use sort_service::sort::step::StepAction;
use sort_service::sort::{Data, Sort, SortError, CAP};

fn all_algorithms() -> Vec<Algorithm> {
    vec![Algorithm::Bubble, Algorithm::Merge, Algorithm::Insertion, Algorithm::Selection]
}

fn is_sorted(values: &[i64]) -> bool {
    values.windows(2).all(|w| w[0] <= w[1])
}

fn is_permutation(a: &[i64], b: &[i64]) -> bool {
    let mut x = a.to_vec();
    let mut y = b.to_vec();
    x.sort_unstable();
    y.sort_unstable();
    x == y
}

#[test]
fn empty_input_is_returned_unchanged_without_steps() {
    for algorithm in all_algorithms() {
        let (values, steps) = algorithm.run(vec![]);
        assert_eq!(values, Vec::<i64>::new());
        assert!(steps.is_empty());
    }
}

#[test]
fn singleton_input_is_returned_unchanged_without_steps() {
    for algorithm in all_algorithms() {
        let (values, steps) = algorithm.run(vec![42]);
        assert_eq!(values, vec![42]);
        assert!(steps.is_empty());
    }
}

#[test]
fn every_algorithm_sorts_a_permutation_of_the_input() {
    let inputs: Vec<Vec<i64>> = vec![
        vec![3, 1, 2],
        vec![5, 3, 8, 1],
        vec![2, 1, 2, 1],
        vec![-4, 7, 0, -4, 3],
        vec![10, 9, 8, 7, 6, 5, 4, 3, 2, 1],
        vec![1, 2, 3, 4, 5],
    ];
    for algorithm in all_algorithms() {
        for input in &inputs {
            let (values, _) = algorithm.run(input.clone());
            assert!(is_sorted(&values), "{algorithm:?} left {values:?} unsorted");
            assert!(is_permutation(input, &values), "{algorithm:?} lost values");
        }
    }
}

#[test]
fn sorted_input_yields_no_swap_steps() {
    let sorted: Vec<i64> = vec![1, 2, 3, 4];
    for algorithm in [Algorithm::Bubble, Algorithm::Insertion, Algorithm::Selection] {
        let (values, steps) = algorithm.run(sorted.clone());
        assert_eq!(values, sorted);
        assert!(steps.is_empty(), "{algorithm:?} recorded steps on sorted input");
    }
}

#[test]
fn merge_trace_length_depends_only_on_input_length() {
    let (_, steps_sorted) = Algorithm::Merge.run(vec![1, 2, 3, 4]);
    let (_, steps_mixed) = Algorithm::Merge.run(vec![9, -1, 4, 4]);
    assert!(!steps_sorted.is_empty());
    assert_eq!(steps_sorted.len(), steps_mixed.len());
    // One split per call on more than one element plus one merge step per
    // appended element: 3 splits and 2 + 2 + 4 appends for four elements.
    assert_eq!(steps_sorted.len(), 11);
}

#[test]
fn quadratic_algorithms_respect_the_step_bound() {
    let input: Vec<i64> = vec![10, 9, 8, 7, 6, 5, 4, 3, 2, 1];
    let n = input.len();
    for algorithm in [Algorithm::Bubble, Algorithm::Insertion] {
        let (_, steps) = algorithm.run(input.clone());
        assert!(steps.len() <= n * (n - 1) / 2);
    }
    let (_, steps) = Algorithm::Selection.run(input.clone());
    assert!(steps.len() <= n);
}

#[test]
fn reversed_input_needs_the_full_quadratic_step_count() {
    let (values, steps) = Algorithm::Insertion.run(vec![5, 4, 3, 2, 1]);
    assert_eq!(values, vec![1, 2, 3, 4, 5]);
    assert_eq!(steps.len(), 10);
}

#[test]
fn bubble_scenario_records_swaps_ending_in_the_result() {
    let (values, steps) = Algorithm::Bubble.run(vec![3, 1, 2]);
    assert_eq!(values, vec![1, 2, 3]);
    assert!(!steps.is_empty());
    match steps.last().unwrap() {
        StepAction::Swap { snapshot, .. } => assert_eq!(snapshot, &vec![1, 2, 3]),
        other => panic!("expected a swap step, found {other:?}"),
    }
}

#[test]
fn bubble_scenario_full_trace() {
    let (values, steps) = Algorithm::Bubble.run(vec![3, 1, 2]);
    assert_eq!(values, vec![1, 2, 3]);
    assert_eq!(
        steps,
        vec![
            StepAction::Swap { from: 0, to: 1, snapshot: vec![1, 3, 2] },
            StepAction::Swap { from: 1, to: 2, snapshot: vec![1, 2, 3] },
        ]
    );
}

#[test]
fn merge_scenario_splits_then_merges_incrementally() {
    let (values, steps) = Algorithm::Merge.run(vec![5, 3, 8, 1]);
    assert_eq!(values, vec![1, 3, 5, 8]);
    assert_eq!(
        steps,
        vec![
            StepAction::Split { left: vec![5, 3], right: vec![8, 1] },
            StepAction::Split { left: vec![5], right: vec![3] },
            StepAction::Merge { merged: vec![3] },
            StepAction::Merge { merged: vec![3, 5] },
            StepAction::Split { left: vec![8], right: vec![1] },
            StepAction::Merge { merged: vec![1] },
            StepAction::Merge { merged: vec![1, 8] },
            StepAction::Merge { merged: vec![1] },
            StepAction::Merge { merged: vec![1, 3] },
            StepAction::Merge { merged: vec![1, 3, 5] },
            StepAction::Merge { merged: vec![1, 3, 5, 8] },
        ]
    );
}

#[test]
fn selection_scenario_one_swap_per_misplaced_minimum() {
    let (values, steps) = Algorithm::Selection.run(vec![3, 1, 2]);
    assert_eq!(values, vec![1, 2, 3]);
    assert_eq!(
        steps,
        vec![
            StepAction::Swap { from: 0, to: 1, snapshot: vec![1, 3, 2] },
            StepAction::Swap { from: 1, to: 2, snapshot: vec![1, 2, 3] },
        ]
    );
}

#[test]
fn oversized_request_is_refused_naming_the_cap() {
    let values: Vec<i64> = (1..=21).collect();
    assert_eq!(values.len(), 21);
    let request = Sort::create(Data { values }, None);
    match request.response() {
        Err(SortError::TooManyValues { cap, len }) => {
            assert_eq!(cap, 20);
            assert_eq!(len, 21);
        }
        other => panic!("expected the validation error, found {other:?}"),
    }
}

#[test]
fn oversized_request_error_message_mentions_the_cap() {
    let error = SortError::TooManyValues { cap: CAP, len: 21 };
    let message = error.message();
    assert!(message.contains("20"));
    assert_eq!(message, "The number of values must be fewer than 20");
}

#[test]
fn request_at_the_cap_is_served() {
    let values: Vec<i64> = (1..=20).rev().collect();
    let request = Sort::create(Data { values }, Some(Algorithm::Merge));
    let result = request.response().expect("twenty values are within the cap");
    let expected: Vec<i64> = (1..=20).collect();
    assert_eq!(result.values, expected);
    assert!(!result.steps.is_empty());
}

#[test]
fn unknown_algorithm_tag_is_rejected_before_any_sorting() {
    assert_eq!(Algorithm::parse("quicksort"), None);
    assert_eq!(SortError::UnknownAlgorithm.message(), "Unknown sorting algorithm");
}

#[test]
fn known_algorithm_tags_parse_to_their_algorithms() {
    assert_eq!(Algorithm::parse("bubble"), Some(Algorithm::Bubble));
    assert_eq!(Algorithm::parse("merge"), Some(Algorithm::Merge));
    assert_eq!(Algorithm::parse("insertion"), Some(Algorithm::Insertion));
    assert_eq!(Algorithm::parse("selection"), Some(Algorithm::Selection));
    assert_eq!(Algorithm::parse("Bubble"), None);
    assert_eq!(Algorithm::parse(""), None);
}

#[test]
fn request_without_algorithm_defaults_to_bubble() {
    let request = Sort::create(Data { values: vec![2, 1] }, None);
    assert_eq!(request.algorithm, Algorithm::Bubble);
    let request = Sort::create(Data { values: vec![2, 1] }, Some(Algorithm::Selection));
    assert_eq!(request.algorithm, Algorithm::Selection);
}

#[test]
fn default_request_sorts_the_demonstration_buffer() {
    let request = Sort::default();
    assert_eq!(request.data.values, vec![10, 9, 8, 7, 6, 5, 4, 3, 2, 1]);
    assert_eq!(request.algorithm, Algorithm::Bubble);
    let result = request.response().expect("the demonstration buffer is within the cap");
    assert_eq!(result.values, vec![1, 2, 3, 4, 5, 6, 7, 8, 9, 10]);
    assert_eq!(result.steps.len(), 45);
}

#[test]
fn equal_values_are_already_sorted() {
    for algorithm in [Algorithm::Bubble, Algorithm::Insertion, Algorithm::Selection] {
        let (values, steps) = algorithm.run(vec![5, 5, 5]);
        assert_eq!(values, vec![5, 5, 5]);
        assert!(steps.is_empty(), "{algorithm:?} exchanged equal values");
    }
    let (values, steps) = Algorithm::Merge.run(vec![5, 5, 5]);
    assert_eq!(values, vec![5, 5, 5]);
    assert_eq!(steps.len(), 7);
}

#[test]
fn two_elements_out_of_order_need_one_swap() {
    for algorithm in [Algorithm::Bubble, Algorithm::Insertion, Algorithm::Selection] {
        let (values, steps) = algorithm.run(vec![9, -3]);
        assert_eq!(values, vec![-3, 9]);
        assert_eq!(steps.len(), 1, "{algorithm:?} took more than one exchange");
    }
}

#[test]
fn extreme_values_sort_without_overflow() {
    for algorithm in all_algorithms() {
        let (values, _) = algorithm.run(vec![0, i64::MAX, i64::MIN]);
        assert_eq!(values, vec![i64::MIN, 0, i64::MAX]);
    }
}

#[test]
fn multibyte_tags_are_not_recognised() {
    assert_eq!(Algorithm::parse("b\u{00fc}bble"), None);
    assert_eq!(Algorithm::parse("merge "), None);
}

#[test]
fn step_explanations_name_values_and_indices() {
    let (_, steps) = Algorithm::Bubble.run(vec![3, 1, 2]);
    assert_eq!(steps[0].explanation(), "Swap 3 (index: 1) with 1 (index: 0)");
    let (_, steps) = Algorithm::Merge.run(vec![5, 3, 8, 1]);
    assert_eq!(steps[0].explanation(), "Split the list in two");
    assert_eq!(steps[2].explanation(), "Merge 3 into the result");
    let (_, steps) = Algorithm::Insertion.run(vec![1, -7]);
    assert_eq!(steps[0].explanation(), "Swap -7 (index: 0) with 1 (index: 1)");
}

#[test]
fn swap_snapshots_replay_the_whole_sort() {
    let input: Vec<i64> = vec![7, -2, 7, 0, 3, -5];
    for algorithm in [Algorithm::Bubble, Algorithm::Insertion, Algorithm::Selection] {
        let (values, steps) = algorithm.run(input.clone());
        let mut state = input.clone();
        for step in &steps {
            match step {
                StepAction::Swap { from, to, snapshot } => {
                    match algorithm {
                        Algorithm::Bubble => assert_eq!(*to, *from + 1),
                        Algorithm::Insertion => assert_eq!(*from, *to + 1),
                        Algorithm::Selection => assert!(*from < *to),
                        Algorithm::Merge => unreachable!(),
                    }
                    state.swap(*from, *to);
                    assert_eq!(&state, snapshot, "{algorithm:?} snapshot diverged");
                }
                other => panic!("{algorithm:?} recorded a non-swap step {other:?}"),
            }
        }
        assert_eq!(state, values);
    }
}
