use advent_solvers::schematic::{
    add_number_part, add_valid_numbers, check_if_adjacent, get_gear_ratio, puzzle1, puzzle2,
    read_row, read_schematic, schematic_ok, EnginePart, EnginePartType,
};

const EXAMPLE: &str = "467..114..
...*......
..35..633.
......#...
617*......
.....+.58.
..592.....
......755.
...$.*....
.664.598..
";

fn read_example() -> Vec<Vec<EnginePart>> {
    let lines: Vec<String> = EXAMPLE.lines().map(|l| l.to_owned()).collect();
    read_schematic(&lines).unwrap()
}

fn describe(row: &[EnginePart]) -> Vec<(String, usize, usize)> {
    row.iter()
        .map(|p| {
            let what = match &p.part_type {
                EnginePartType::Number(n) => n.clone(),
                EnginePartType::Part(c) => c.to_string(),
            };
            (what, p.row, p.start_index)
        })
        .collect()
}

#[test]
fn day3_puzzle1_test() {
    let test_input = read_example();

    assert_eq!(puzzle1(&test_input), Some(4361))
}

#[test]
fn day3_puzzle2_test() {
    let test_input = read_example();

    assert_eq!(puzzle2(&test_input), Some(467835));
}

#[test]
fn row_parts_are_placed() {
    let row = read_row("617*......", 4);
    assert_eq!(describe(&row), vec![("617".to_string(), 4, 0), ("*".to_string(), 4, 3)]);
    let row = read_row("..12", 0);
    assert_eq!(describe(&row), vec![("12".to_string(), 0, 2)]);
    assert!(read_row("....", 1).is_empty());
}

#[test]
fn number_buffer_is_flushed_once() {
    let mut row: Vec<EnginePart> = Vec::new();
    let mut buffer = String::from("58");
    add_number_part(&mut row, &mut buffer, 5, 7);
    assert!(buffer.is_empty());
    assert_eq!(describe(&row), vec![("58".to_string(), 5, 7)]);
    add_number_part(&mut row, &mut buffer, 5, 9);
    assert_eq!(row.len(), 1);
}

#[test]
fn adjacency_looks_at_three_rows() {
    let s = read_example();
    let number = |r: usize, k: usize| match &s[r][k].part_type {
        EnginePartType::Number(n) => n.clone(),
        EnginePartType::Part(_) => panic!("not a number"),
    };
    assert!(check_if_adjacent(&s, &s[0][0], &number(0, 0)));
    assert!(!check_if_adjacent(&s, &s[0][1], &number(0, 1)));
    assert!(!check_if_adjacent(&s, &s[5][1], &number(5, 1)));
    assert!(check_if_adjacent(&s, &s[9][0], &number(9, 0)));
}

#[test]
fn gears_need_exactly_two_numbers() {
    let s = read_example();
    assert_eq!(get_gear_ratio(&s, &s[1][0]), Some(16345));
    assert_eq!(get_gear_ratio(&s, &s[4][1]), None);
    assert_eq!(get_gear_ratio(&s, &s[8][1]), Some(451490));
    let mut near = Vec::new();
    add_valid_numbers(&s[2], &mut near, 2, 4);
    assert_eq!(near, vec!["35".to_string()]);
}

#[test]
fn oversized_number_is_refused() {
    let lines = vec!["99999999999*".to_string()];
    assert!(read_schematic(&lines).is_none());
    let ok = vec!["1*".to_string()];
    let s = read_schematic(&ok).unwrap();
    assert!(schematic_ok(&s));
    assert_eq!(puzzle1(&s), Some(1));
    assert_eq!(puzzle2(&s), Some(0));
}
