use advent_solvers::boat_race::{count_wins, fold_to_one_time, parse_next_line, puzzle1, puzzle2};

const EXAMPLE: &str = "Time:      7  15   30
Distance:  9  40  200
";

fn read_example() -> (Vec<u32>, Vec<u32>) {
    let mut lines = EXAMPLE.lines();
    let race_times = parse_next_line(lines.next().unwrap()).unwrap();
    let record_times = parse_next_line(lines.next().unwrap()).unwrap();
    (race_times, record_times)
}

#[test]
fn day6_puzzle1_test() {
    let (race_times, record_times) = read_example();

    assert_eq!(puzzle1(&race_times, &record_times), Some(288))
}

#[test]
fn day6_puzzle2_test() {
    let (race_times, record_times) = read_example();

    assert_eq!(puzzle2(&race_times, &record_times), Some(71503))
}

#[test]
fn race_lines_are_read() {
    assert_eq!(read_example(), (vec![7, 15, 30], vec![9, 40, 200]));
    assert_eq!(parse_next_line("Time 7 15"), None);
    assert_eq!(parse_next_line("Time: 7 x"), None);
    assert_eq!(parse_next_line("Time: 4294967296"), None);
    assert_eq!(parse_next_line("Time:"), Some(vec![]));
}

#[test]
fn wins_of_each_example_race() {
    assert_eq!(count_wins(7, 9), 4);
    assert_eq!(count_wins(15, 40), 8);
    assert_eq!(count_wins(30, 200), 9);
    assert_eq!(count_wins(0, 0), 0);
}

#[test]
fn times_are_joined_digit_by_digit() {
    assert_eq!(fold_to_one_time(&vec![7, 15, 30]), Some(71530));
    assert_eq!(fold_to_one_time(&vec![9, 40, 200]), Some(940200));
    assert_eq!(fold_to_one_time(&vec![0, 5]), Some(5));
    assert_eq!(fold_to_one_time(&vec![10, 0]), Some(100));
    assert_eq!(fold_to_one_time(&vec![]), None);
    assert_eq!(fold_to_one_time(&vec![u32::MAX, u32::MAX, u32::MAX]), None);
}

#[test]
fn races_without_partner_are_dropped() {
    assert_eq!(puzzle1(&vec![7, 15], &vec![9]), Some(4));
    assert_eq!(puzzle1(&vec![], &vec![9]), None);
}
