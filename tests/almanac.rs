use advent_solvers::pipeline::{get_seed_location, locate_range, lowest_location_in, puzzle1, puzzle2, Almanac, MapperType};
use advent_solvers::interval::Interval;
use advent_solvers::parse::{parse_almanac, parse_numbers, ParseError};
use advent_solvers::remap::remap_interval;
use advent_solvers::rules::{next_step, Rule};

const EXAMPLE: &str = "seeds: 79 14 55 13

seed-to-soil map:
50 98 2
52 50 48

soil-to-fertilizer map:
0 15 37
37 52 2
39 0 15

fertilizer-to-water map:
49 53 8
0 11 42
42 0 7
57 7 4

water-to-light map:
88 18 7
18 25 70

light-to-temperature map:
45 77 23
81 45 19
68 64 13

temperature-to-humidity map:
0 69 1
1 0 69

humidity-to-location map:
60 56 37
56 93 4
";

fn example() -> Almanac {
    parse_almanac(EXAMPLE).expect("the example almanac is well formed")
}

fn two_rules() -> Vec<Rule> {
    vec![Rule::new(10, 100, 5), Rule::new(15, 200, 5)]
}

#[test]
fn day5_puzzle1_test() {
    let test_input = example();

    assert_eq!(puzzle1(&test_input), Some(35))
}

#[test]
fn day5_puzzle2_test() {
    let test_input = example();

    assert_eq!(puzzle2(&test_input), Some(46))
}

#[test]
fn example_is_read_into_seven_stages() {
    let a = example();
    assert_eq!(a.seeds, vec![79, 14, 55, 13]);
    assert_eq!(a.stages.len(), 7);
    assert_eq!(a.stages[MapperType::SeedSoil.index()], vec![Rule::new(98, 50, 2), Rule::new(50, 52, 48)]);
    assert_eq!(a.stages[MapperType::HumidityLocation.index()], vec![Rule::new(56, 60, 37), Rule::new(93, 56, 4)]);
    assert_eq!(a.stages[MapperType::TemperatureHumidity.index()].len(), 2);
}

#[test]
fn seed_locations_of_example() {
    let a = example();
    assert_eq!(get_seed_location(&a, 79), 82);
    assert_eq!(get_seed_location(&a, 14), 43);
    assert_eq!(get_seed_location(&a, 55), 86);
    assert_eq!(get_seed_location(&a, 13), 35);
}

#[test]
fn seed_79_is_not_moved_by_first_stage() {
    let a = example();
    assert_eq!(next_step(&a.stages[0], 79), 81);
    assert_eq!(next_step(&a.stages[0], 99), 51);
}

#[test]
fn value_outside_every_rule_is_unchanged() {
    let rules = two_rules();
    assert_eq!(next_step(&rules, 3), 3);
    assert_eq!(next_step(&rules, 25), 25);
    assert_eq!(next_step(&Vec::new(), 42), 42);
}

#[test]
fn value_inside_rule_is_shifted() {
    let rules = two_rules();
    assert_eq!(next_step(&rules, 12), 102);
    assert_eq!(next_step(&rules, 17), 202);
}

#[test]
fn rule_is_half_open() {
    let rules = vec![Rule::new(10, 100, 5)];
    assert_eq!(next_step(&rules, 10), 100);
    assert_eq!(next_step(&rules, 14), 104);
    assert_eq!(next_step(&rules, 15), 15);
    assert_eq!(next_step(&rules, 9), 9);
}

#[test]
fn first_matching_rule_decides() {
    let rules = vec![Rule::new(10, 100, 5), Rule::new(12, 500, 5)];
    assert_eq!(next_step(&rules, 13), 103);
    assert_eq!(next_step(&rules, 16), 504);
}

#[test]
fn interval_over_two_rules_and_a_gap_splits_in_three() {
    let out = remap_interval(&two_rules(), Interval::new(12, 10));
    assert_eq!(out, vec![Interval::new(102, 3), Interval::new(200, 5), Interval::new(20, 2)]);
    let total: u64 = out.iter().map(|iv| iv.len).sum();
    assert_eq!(total, 10);
}

#[test]
fn interval_lengths_are_conserved() {
    let out = remap_interval(&two_rules(), Interval::new(0, 40));
    assert_eq!(out, vec![
        Interval::new(0, 10),
        Interval::new(100, 5),
        Interval::new(200, 5),
        Interval::new(20, 20),
    ]);
    let total: u64 = out.iter().map(|iv| iv.len).sum();
    assert_eq!(total, 40);
}

#[test]
fn interval_inside_one_rule_is_shifted_whole() {
    let out = remap_interval(&two_rules(), Interval::new(11, 3));
    assert_eq!(out, vec![Interval::new(101, 3)]);
}

#[test]
fn interval_without_rules_is_unchanged() {
    let out = remap_interval(&Vec::new(), Interval::new(7, 1_000_000_000));
    assert_eq!(out, vec![Interval::new(7, 1_000_000_000)]);
}

#[test]
fn single_value_interval_agrees_with_scalar_chain() {
    let a = example();
    for seed in [0u64, 13, 14, 55, 79, 97, 98, 99, 100] {
        let out = locate_range(&a, Interval::new(seed, 1));
        assert_eq!(out, vec![Interval::new(get_seed_location(&a, seed), 1)]);
    }
}

#[test]
fn lowest_location_in_range_matches_enumeration() {
    let a = example();
    let iv = Interval::new(79, 14);
    let brute = (79..93).map(|s| get_seed_location(&a, s)).min().unwrap();
    assert_eq!(lowest_location_in(&a, iv), brute);
    let out = locate_range(&a, iv);
    let total: u64 = out.iter().map(|iv| iv.len).sum();
    assert_eq!(total, 14);
}

#[test]
fn puzzle1_without_seeds_is_none() {
    let mut a = example();
    a.seeds = vec![];
    assert_eq!(puzzle1(&a), None);
    assert_eq!(puzzle2(&a), None);
}

#[test]
fn puzzle2_needs_pairs_of_nonempty_ranges() {
    let mut a = example();
    a.seeds = vec![79, 14, 55];
    assert_eq!(puzzle2(&a), None);
    a.seeds = vec![79, 0];
    assert_eq!(puzzle2(&a), None);
    a.seeds = vec![u64::MAX, 2];
    assert_eq!(puzzle2(&a), None);
    a.seeds = vec![82, 1];
    assert_eq!(puzzle2(&a), Some(46));
}

#[test]
fn huge_range_is_handled_by_splitting() {
    let mut a = example();
    a.seeds = vec![0, 4_000_000_000];
    assert_eq!(puzzle2(&a), Some(0));
}

#[test]
fn almanac_new_checks_shape() {
    let stages: Vec<Vec<Rule>> = (0..7).map(|_| Vec::new()).collect();
    assert!(Almanac::new(vec![1], stages.clone()).is_some());
    assert!(Almanac::new(vec![1], stages[..6].to_vec()).is_none());
    let mut bad = stages.clone();
    bad[3] = vec![Rule::new(u64::MAX, 0, 2)];
    assert!(Almanac::new(vec![1], bad).is_none());
}

#[test]
fn numbers_are_read_from_a_line() {
    let chars: Vec<char> = " 12  7\t300 ".chars().collect();
    assert_eq!(parse_numbers(&chars, 0, chars.len()), Some(vec![12, 7, 300]));
    let chars: Vec<char> = "12 x".chars().collect();
    assert_eq!(parse_numbers(&chars, 0, chars.len()), None);
    let chars: Vec<char> = "18446744073709551615 18446744073709551616".chars().collect();
    assert_eq!(parse_numbers(&chars, 0, 20), Some(vec![u64::MAX]));
    assert_eq!(parse_numbers(&chars, 0, chars.len()), None);
}

#[test]
fn malformed_almanac_is_refused() {
    let bad = |from: &str, to: &str| parse_almanac(&EXAMPLE.replace(from, to)).err();
    assert_eq!(bad("52 50 48", "52 5x 48"), Some(ParseError::BadLine));
    assert_eq!(bad("52 50 48", "52 50"), Some(ParseError::BadLine));
    assert_eq!(bad("50 98 2", "50 18446744073709551615 2"), Some(ParseError::BadLine));
    assert_eq!(bad("seed-to-soil map:\n", ""), Some(ParseError::BadLine));
    assert_eq!(bad("seeds: 79 14 55 13", ""), Some(ParseError::MissingSeeds));
    assert_eq!(
        bad("water-to-light map:", ""),
        Some(ParseError::MissingSection(MapperType::WaterLight))
    );
}

#[test]
fn overlapping_rules_are_refused() {
    assert_eq!(
        parse_almanac(&EXAMPLE.replace("52 50 48", "52 50 48\n0 60 5")).err(),
        Some(ParseError::OverlappingRules(MapperType::SeedSoil))
    );
    assert_eq!(
        parse_almanac(&EXAMPLE.replace("56 93 4", "56 93 4\n0 96 4")).err(),
        Some(ParseError::OverlappingRules(MapperType::HumidityLocation))
    );
}

#[test]
fn crlf_text_is_read_like_lf() {
    let a = parse_almanac(&EXAMPLE.replace('\n', "\r\n")).expect("well formed");
    assert_eq!(puzzle1(&a), Some(35));
    assert_eq!(a.stages, example().stages);
}
