use advent_solvers::scratchcards::{build_card, count_card_wins, parse_card, puzzle1, puzzle2};

const EXAMPLE: &str = "Card 1: 41 48 83 86 17 | 83 86  6 31 17  9 48 53
Card 2: 13 32 20 16 61 | 61 30 68 82 17 32 24 19
Card 3:  1 21 53 59 44 | 69 82 63 72 16 21 14  1
Card 4: 41 92 73 84 69 | 59 84 76 51 58  5 54 83
Card 5: 87 83 26 28 32 | 88 30 70 12 93 22 82 36
Card 6: 31 18 13 56 72 | 74 77 10 23 35 67 36 11
";

fn read_example() -> Vec<(Vec<String>, Vec<String>)> {
    EXAMPLE.lines().map(|l| parse_card(l).unwrap()).collect()
}

fn words(ws: &[&str]) -> Vec<String> {
    ws.iter().map(|w| w.to_string()).collect()
}

#[test]
fn day4_puzzle1_test() {
    let test_input = read_example();

    assert_eq!(puzzle1(&test_input), Some(13));
}

#[test]
fn day4_puzzle2_test() {
    let test_input = read_example();

    assert_eq!(puzzle2(&test_input), Some(30));
}

#[test]
fn card_line_is_split_at_the_bar() {
    let (winners, card) = parse_card("Card   3:  1 21 | 69  1").unwrap();
    assert_eq!(winners, words(&["1", "21"]));
    assert_eq!(card, words(&["69", "1"]));
    assert_eq!(parse_card("Card 3: 1 21 69 1"), None);
    assert_eq!(parse_card("Cart 3: 1 | 2"), None);
    assert_eq!(parse_card("Card x: 1 | 2"), None);
}

#[test]
fn card_numbers_are_words() {
    assert_eq!(build_card("  83 86  6 31 "), words(&["83", "86", "6", "31"]));
    assert_eq!(build_card(""), Vec::<String>::new());
    assert_eq!(build_card("7"), words(&["7"]));
}

#[test]
fn wins_of_example_cards() {
    let cards = read_example();
    let wins: Vec<u64> = cards.iter().map(|(w, c)| count_card_wins(w, c)).collect();
    assert_eq!(wins, vec![4, 2, 2, 1, 0, 0]);
}

#[test]
fn many_wins_overflow_points() {
    let numbers: Vec<String> = (0..70).map(|n: u32| n.to_string()).collect();
    assert_eq!(puzzle1(&vec![(numbers.clone(), numbers.clone())]), None);
    let some: Vec<String> = (0..64).map(|n: u32| n.to_string()).collect();
    assert_eq!(puzzle1(&vec![(some.clone(), some)]), Some(1u64 << 63));
}

#[test]
fn cards_without_wins_count_once() {
    let card = (words(&["1"]), words(&["2"]));
    assert_eq!(puzzle2(&vec![card.clone(), card.clone(), card]), Some(3));
    assert_eq!(puzzle2(&vec![]), Some(0));
}
