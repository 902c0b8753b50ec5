use bricks::calibration::{first_and_last, first_and_last_p1, part1};

#[test]
fn test_digit_extraction() {
    assert!(first_and_last_p1("").is_err());
    assert!(first_and_last_p1("foo").is_err());
    assert_eq!(first_and_last_p1("12"), Ok((1, 2)));
    assert_eq!(first_and_last_p1("3"), Ok((3, 3)));
    assert_eq!(first_and_last_p1("f6o9o"), Ok((6, 9)));
}

#[test]
fn first_and_last_of_values() {
    assert!(first_and_last(&[]).is_err());
    assert_eq!(first_and_last(&[4]), Ok((4, 4)));
    assert_eq!(first_and_last(&[4, 0, 7]), Ok((4, 7)));
}

#[test]
fn calibration_total() {

    let example = "1abc2\npqr3stu8vwx\na1b2c3d4e5f\ntreb7uchet\n";
    assert_eq!(part1(example), Ok(142));
    assert!(part1("12\nnodigits\n").is_err());
}
