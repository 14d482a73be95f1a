use advent_solvers::calibration::{puzzle1, puzzle2, read_letter_digit};

fn lines(text: &str) -> Vec<String> {
    text.lines().map(|l| l.to_owned()).collect()
}

#[test]
fn day1_puzzle1_test() {
    let test_input = lines("1abc2\npqr3stu8vwx\na1b2c3d4e5f\ntreb7uchet\n");

    assert_eq!(puzzle1(&test_input), Some(142))
}

#[test]
fn day1_puzzle2_test() {
    let test_input = lines(
        "two1nine\neightwothree\nabcone2threexyz\nxtwone3four\n4nineeightseven2\nzoneight234\n7pqrstsixteen\n",
    );
    assert_eq!(puzzle2(&test_input), Some(281))
}

#[test]
fn spelled_digits_are_read_at_the_end() {
    assert_eq!(read_letter_digit("xone"), Some(1));
    assert_eq!(read_letter_digit("abcnine"), Some(9));
    assert_eq!(read_letter_digit("eightwo"), Some(2));
    assert_eq!(read_letter_digit("onex"), None);
    assert_eq!(read_letter_digit(""), None);
}

#[test]
fn single_digit_counts_twice() {
    assert_eq!(puzzle1(&lines("treb7uchet")), Some(77));
    assert_eq!(puzzle2(&lines("sevenx")), Some(77));
}

#[test]
fn line_without_digit_has_no_value() {
    assert_eq!(puzzle1(&lines("12\nabc")), None);
    assert_eq!(puzzle2(&lines("12\nabc")), None);
    assert_eq!(puzzle1(&lines("one")), None);
    assert_eq!(puzzle1(&vec![]), Some(0));
}
