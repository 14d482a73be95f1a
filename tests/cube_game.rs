use advent_solvers::cube_game::{parse_game, parse_round, puzzle1, puzzle2, Game, Round};

const EXAMPLE: &str = "Game 1: 3 blue, 4 red; 1 red, 2 green, 6 blue; 2 green
Game 2: 1 blue, 2 green; 3 green, 4 blue, 1 red; 1 green, 1 blue
Game 3: 8 green, 6 blue, 20 red; 5 blue, 4 red, 13 green; 5 green, 1 red
Game 4: 1 green, 3 red, 6 blue; 3 green, 6 red; 3 green, 15 blue, 14 red
Game 5: 6 red, 1 blue, 3 green; 2 blue, 1 red, 2 green
";

fn read_example() -> Vec<Game> {
    EXAMPLE.lines().map(|l| parse_game(l).unwrap()).collect()
}

fn round(red: u32, green: u32, blue: u32) -> Round {
    Round { red, blue, green }
}

#[test]
fn day2_puzzle1_test() {
    let test_input = read_example();

    assert_eq!(puzzle1(&test_input), Some(8))
}

#[test]
fn day2_puzzle2_test() {
    let test_input = read_example();

    assert_eq!(puzzle2(&test_input), Some(2286))
}

#[test]
fn rounds_are_added_up_by_colour() {
    assert_eq!(parse_round(" 3 blue, 4 red"), Some(round(4, 0, 3)));
    assert_eq!(parse_round("1 red, 2 green, 6 blue"), Some(round(1, 2, 6)));
    assert_eq!(parse_round("2 blue, 3 blue"), Some(round(0, 0, 5)));
    assert_eq!(parse_round("7 purple"), Some(round(7, 0, 0)));
    assert_eq!(parse_round("blue"), None);
    assert_eq!(parse_round("x blue"), None);
    assert_eq!(parse_round(""), None);
    assert_eq!(parse_round("4294967295 red, 1 red"), None);
}

#[test]
fn game_line_gives_id_and_rounds() {
    let g = parse_game("Game 12: 3 blue; 2 green").unwrap();
    assert_eq!(g.id, 12);
    assert_eq!(g.rounds, vec![round(0, 0, 3), round(0, 2, 0)]);
    assert!(parse_game("Game 12 3 blue").is_none());
    assert!(parse_game("Game: 3 blue").is_none());
    assert!(parse_game("Game 1: 3 blue;").is_none());
}

#[test]
fn impossible_games_are_left_out() {
    let games = read_example();
    let ids: Vec<u32> = games.iter().map(|g| g.id).collect();
    assert_eq!(ids, vec![1, 2, 3, 4, 5]);
    let only_third = vec![read_example().remove(2)];
    assert_eq!(puzzle1(&only_third), Some(0));
    assert_eq!(puzzle2(&only_third), Some(1560));
}

#[test]
fn empty_list_sums_to_zero() {
    assert_eq!(puzzle1(&vec![]), Some(0));
    assert_eq!(puzzle2(&vec![]), Some(0));
}

#[test]
fn game_without_a_colour_has_no_power() {
    let g = Game { id: 1, rounds: vec![round(4_000_000_000, 4_000_000_000, 0)] };
    assert_eq!(puzzle2(&vec![g]), Some(0));
    let big = Game { id: 1, rounds: vec![round(70_000, 70_000, 1)] };
    assert_eq!(puzzle2(&vec![big]), None);
}
