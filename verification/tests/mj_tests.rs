use majority_judgement_rust::error::PollError;
use majority_judgement_rust::median::{compute_majority_values, median_grade};
use majority_judgement_rust::rank::{check_poll_length, majority_judgment};
use majority_judgement_rust::tally::{compute_frequency_of_grades, group_by};

#[test]
fn calling_check_poll_length() {
    let poll_data: Vec<(String, Vec<u8>)> = vec![
        ("Chips".to_string(), vec![0, 1, 0, 2, 1, 2, 2, 3, 2, 3]),
        ("Pizza".to_string(), vec![0, 0, 3, 0, 2, 0, 3, 1, 2, 3]),
    ];
    let _ = check_poll_length(&poll_data);
}

#[test]
fn calling_majority_judgment() {
    let poll_data: Vec<(String, Vec<u8>)> = vec![
        ("Bread".to_string(), vec![0, 1, 2, 1, 1, 2, 1, 2, 2, 3]),
        ("Chips".to_string(), vec![0, 1, 0, 2, 1, 2, 2, 3, 2, 3]),
        ("Pasta".to_string(), vec![0, 1, 0, 1, 2, 1, 3, 2, 3, 3]),
        ("Pizza".to_string(), vec![0, 0, 3, 0, 2, 0, 3, 1, 2, 3]),
    ];
    let result = majority_judgment(&poll_data).unwrap();
    assert_eq!(
        result,
        vec![
            ("Chips".to_string(), 0),
            ("Pasta".to_string(), 1),
            ("Bread".to_string(), 2),
            ("Pizza".to_string(), 3),
        ]
    );
}

#[test]
fn calling_compute_majority_values() {
    let grades: Vec<u8> = vec![0, 0, 3, 0, 2, 0, 3, 1, 2, 3, 3, 3, 3, 3, 2, 1, 7, 8];
    let result = compute_majority_values(grades).unwrap();
    assert_eq!(
        result,
        vec![2, 3, 2, 3, 2, 3, 1, 3, 1, 3, 0, 3, 0, 3, 0, 7, 0, 8]
    );
}

#[test]
fn calling_compute_frequency_of_grades() {
    let grades: Vec<u8> = vec![0, 0, 3, 0, 2, 0, 3, 1, 2, 3, 3, 3, 3, 3, 2, 1, 7, 8];
    let result = compute_frequency_of_grades(grades);
    let expected: Vec<(u8, u32)> = vec![(0, 4), (1, 2), (2, 3), (3, 7), (7, 1), (8, 1)];
    assert_eq!(result, expected);
}

#[test]
fn calling_group_by() {
    let grades: Vec<u8> = vec![0, 0, 0, 0, 1, 1, 2, 2, 2, 3, 3, 3, 3, 3, 3, 3, 7, 8];
    let result = group_by(grades);
    let expected: Vec<Vec<u8>> = vec![
        vec![0, 0, 0, 0],
        vec![1, 1],
        vec![2, 2, 2],
        vec![3, 3, 3, 3, 3, 3, 3],
        vec![7],
        vec![8],
    ];
    assert_eq!(result, expected);
}

// These counts (out of 100 votes) build cumulative-fraction profiles that
// reach 0.5 at position 5; the median search must select position 5.
#[test]
fn median_grade_selects_first_half_point() {
    let values: Vec<u32> = vec![0, 10, 10, 10, 10, 10, 1, 1, 8, 10, 10, 10, 10];
    assert_eq!(median_grade(&values, 100), 5);

    let values: Vec<u32> = vec![0, 10, 10, 10, 10, 10, 1, 1, 8, 10, 10, 10, 9, 1];
    assert_eq!(median_grade(&values, 100), 5);
}

// A profile that only reaches the halfway mark at its last position selects
// that last position.
#[test]
fn median_grade_selects_last_position() {
    let values: Vec<u32> = vec![0, 10, 10, 10, 10, 1, 2, 2, 5, 50];
    assert_eq!(median_grade(&values, 100), 8);
}

// Ballots of differing lengths must be rejected outright, with no partial
// ranking.
#[test]
fn unequal_ballot_lengths_rejected() {
    let poll_data: Vec<(String, Vec<u8>)> = vec![
        ("Chips".to_string(), vec![0, 3, 2, 3, 1]),
        ("Pizza".to_string(), vec![0, 2, 3]),
    ];
    assert_eq!(
        check_poll_length(&poll_data),
        Err(PollError::UnequalBallotLengths)
    );
    assert_eq!(
        majority_judgment(&poll_data),
        Err(PollError::UnequalBallotLengths)
    );
}

// An empty ballot has no median: the extractor itself fails fast.
#[test]
fn empty_ballot_fails_median_extraction() {
    let grades: Vec<u8> = vec![];
    assert_eq!(compute_majority_values(grades), Err(PollError::EmptyBallotSet));
}

// Empty ballots leave the median undefined and must be rejected.
#[test]
fn empty_ballots_rejected() {
    let poll_data: Vec<(String, Vec<u8>)> = vec![
        ("Chips".to_string(), vec![]),
        ("Pizza".to_string(), vec![]),
    ];
    assert_eq!(majority_judgment(&poll_data), Err(PollError::EmptyBallotSet));
}

// The median sequence depends only on which grades were cast, not on the
// order the ballot lists them.
#[test]
fn median_sequence_ignores_ballot_order() {
    let a = compute_majority_values(vec![0, 0, 3, 0, 2, 0, 3, 1, 2, 3]).unwrap();
    let b = compute_majority_values(vec![3, 3, 3, 2, 2, 1, 0, 0, 0, 0]).unwrap();
    assert_eq!(a, b);
}

// One median per vote, for every candidate.
#[test]
fn median_sequence_has_one_entry_per_vote() {
    assert_eq!(compute_majority_values(vec![2]).unwrap().len(), 1);
    assert_eq!(compute_majority_values(vec![1, 3]).unwrap().len(), 2);
    assert_eq!(compute_majority_values(vec![0, 1, 2, 3, 2, 1, 0]).unwrap().len(), 7);
}

// The tally counts sum to the ballot length and list each grade that occurs.
#[test]
fn tally_counts_sum_to_ballot_length() {
    let grades: Vec<u8> = vec![5, 5, 1, 255, 0, 5, 1];
    let tally = compute_frequency_of_grades(grades);
    assert_eq!(tally, vec![(0, 1), (1, 2), (5, 3), (255, 1)]);
    let total: u32 = tally.iter().map(|e| e.1).sum();
    assert_eq!(total, 7);
}

// Ranks are 0, 1, ..., N-1, each exactly once, best candidate first.
#[test]
fn ranking_is_complete_and_contiguous() {
    let poll_data: Vec<(String, Vec<u8>)> = vec![
        ("low".to_string(), vec![0, 0, 0]),
        ("mid".to_string(), vec![1, 1, 1]),
        ("top".to_string(), vec![2, 2, 2]),
    ];
    let result = majority_judgment(&poll_data).unwrap();
    assert_eq!(result.len(), 3);
    assert_eq!(result[0], ("top".to_string(), 0));
    assert_eq!(result[1], ("mid".to_string(), 1));
    assert_eq!(result[2], ("low".to_string(), 2));
}

// Candidates with identical ballots tie; the tie falls to input order.
#[test]
fn identical_ballots_keep_input_order() {
    let poll_data: Vec<(String, Vec<u8>)> = vec![
        ("first".to_string(), vec![1, 2, 3]),
        ("second".to_string(), vec![3, 2, 1]),
        ("zebra".to_string(), vec![3, 3, 3]),
    ];
    let result = majority_judgment(&poll_data).unwrap();
    assert_eq!(result[0], ("zebra".to_string(), 0));
    assert_eq!(result[1], ("first".to_string(), 1));
    assert_eq!(result[2], ("second".to_string(), 2));
}

// A single candidate is always ranked 0.
#[test]
fn single_candidate_ranks_zero() {
    let poll_data: Vec<(String, Vec<u8>)> = vec![("only".to_string(), vec![0, 3, 1])];
    let result = majority_judgment(&poll_data).unwrap();
    assert_eq!(result, vec![("only".to_string(), 0)]);
}
