use bricks::races::{count_ways_to_win, exact_win_region, parse_input, solve, win, Part};

fn get_example() -> &'static str {
    "Time:      7  15   30\nDistance:  9  40  200\n"
}

#[test]
fn test_exact_win_region() {
    assert_eq!(exact_win_region(7, 9), (2, 5));
    assert_eq!(exact_win_region(15, 40), (4, 11));
    assert_eq!(exact_win_region(30, 200), (11, 19));
}

#[test]
fn test_count_ways_to_win() {
    assert_eq!(count_ways_to_win(7, 9), 4);
    assert_eq!(count_ways_to_win(15, 40), 8);
    assert_eq!(count_ways_to_win(30, 200), 9);
}

#[test]
fn test_parse_input() {
    assert_eq!(
        parse_input(get_example(), &Part::One),
        vec![(7, 9), (15, 40), (30, 200)]
    );
    assert_eq!(
        parse_input(get_example(), &Part::Two),
        vec![(71530, 940200)]
    );
}

#[test]
fn races_part1() {
    let part1_times_records = parse_input(get_example(), &Part::One);
    assert_eq!(solve(&part1_times_records), 288);
}

#[test]
fn test_part2() {
    let part2_times_records = parse_input(get_example(), &Part::Two);
    assert_eq!(solve(&part2_times_records), 71503);
}

#[test]
fn winning_holds() {
    assert!(!win(0, 7, 9));
    assert!(!win(1, 7, 9));
    assert!(win(2, 7, 9));
    assert!(win(5, 7, 9));
    assert!(!win(6, 7, 9));
    assert!(!win(7, 7, 9));
}

#[test]
fn narrow_race_has_one_way() {
    assert_eq!(exact_win_region(2, 0), (1, 1));
    assert_eq!(count_ways_to_win(2, 0), 1);
}
