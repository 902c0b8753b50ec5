use bricks::sequences::{
    all_zero, compute_successive_diffs, differences, extrapolate_left, extrapolate_right,
    number_seq, part1, part2, predict_next_value, predict_prior_value,
};

#[test]
fn test_differences() {
    for (input, expected) in [
        (vec![0, 3, 6, 9, 12, 15], vec![3, 3, 3, 3, 3]),
        (vec![10, 13, 16, 21, 30, 45, 68], vec![3, 3, 5, 9, 15, 23]),
    ] {
        assert_eq!(differences(&input), expected);
    }
}

#[test]
fn test_compute_successive_diffs() {
    assert_eq!(
        compute_successive_diffs(vec![10, 13, 16, 21, 30, 45, 68]),
        vec![
            vec![10, 13, 16, 21, 30, 45, 68],
            vec![3, 3, 5, 9, 15, 23],
            vec![0, 2, 4, 6, 8],
            vec![2, 2, 2, 2],
            vec![0, 0, 0]
        ]
    );
}

#[test]
fn test_extrapolate_right() {
    assert_eq!(
        extrapolate_right(vec![
            vec![10, 13, 16, 21, 30, 45],
            vec![3, 3, 5, 9, 15],
            vec![0, 2, 4, 6],
            vec![2, 2, 2],
            vec![0, 0]
        ],),
        vec![
            vec![10, 13, 16, 21, 30, 45, 68],
            vec![3, 3, 5, 9, 15, 23],
            vec![0, 2, 4, 6, 8],
            vec![2, 2, 2, 2],
            vec![0, 0, 0]
        ]
    );
}

#[test]
fn test_predict_next_value() {
    assert_eq!(predict_next_value(vec![10, 13, 16, 21, 30, 45]), 68);
}

#[test]
fn main_test_part1() {
    assert_eq!(
        part1(vec![
            vec![0, 3, 6, 9, 12, 15],
            vec![1, 3, 6, 10, 15, 21],
            vec![10, 13, 16, 21, 30, 45]
        ]),
        114
    );
}

#[test]
fn test_extrapolate_left() {
    assert_eq!(
        extrapolate_left(vec![
            vec![10, 13, 16, 21, 30, 45],
            vec![3, 3, 5, 9, 15],
            vec![0, 2, 4, 6],
            vec![2, 2, 2],
            vec![0, 0]
        ],),
        vec![
            vec![5, 10, 13, 16, 21, 30, 45],
            vec![5, 3, 3, 5, 9, 15],
            vec![-2, 0, 2, 4, 6],
            vec![2, 2, 2, 2],
            vec![0, 0, 0]
        ]
    );
}

#[test]
fn test_predict_prior_value() {
    assert_eq!(predict_prior_value(vec![10, 13, 16, 21, 30, 45]), 5);
    assert_eq!(predict_prior_value(vec![0, 3, 6, 9, 12, 15]), -3);
}

#[test]
fn main_test_part2() {
    assert_eq!(
        part2(vec![
            vec![0, 3, 6, 9, 12, 15],
            vec![1, 3, 6, 10, 15, 21],
            vec![10, 13, 16, 21, 30, 45]
        ]),
        2
    );
}

#[test]
fn test_number_seq() {
    assert_eq!(
        number_seq("10 13 16 21 30 45"),
        vec![10, 13, 16, 21, 30, 45]
    );
}

#[test]
fn number_seq_handles_signs_and_spacing() {
    assert_eq!(number_seq("  -4\t+7  0 "), vec![-4, 7, 0]);
    assert_eq!(number_seq(""), Vec::<i32>::new());
}

#[test]
fn zero_rows() {
    assert!(all_zero(&[0, 0, 0]));
    assert!(all_zero(&[]));
    assert!(!all_zero(&[0, 1]));
}

#[test]
fn constant_sequence_extends_itself() {
    assert_eq!(compute_successive_diffs(vec![7, 7, 7]), vec![vec![7, 7, 7], vec![0, 0]]);
    assert_eq!(predict_next_value(vec![7, 7, 7]), 7);
    assert_eq!(predict_prior_value(vec![7, 7, 7]), 7);
}
