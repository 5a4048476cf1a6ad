use aoc::day1::Day1;
use aoc::day2::{Command, CommandKind, Day2};
use aoc::day3::{filter_values, rate_bits, Day3, FilterPredicate};
use aoc::puzzle::{parse_i64, parse_usize, SolveError};

fn lines(text: &[&str]) -> Vec<String> {
    text.iter().map(|s| s.to_string()).collect()
}

#[test]
fn sonar_sweep_sample() {
    let input = lines(&["199", "200", "208", "210", "200", "207", "240", "269", "260", "263"]);
    assert_eq!(Day1.part_1(&input), 7);
    assert_eq!(Day1.part_2(&input), Ok(5));
}

#[test]
fn sonar_sweep_skips_unreadable_lines() {
    let input = lines(&["3", "x", "1", "", "2", "+4"]);
    assert_eq!(Day1.part_1(&input), 2);
    assert_eq!(Day1.part_1(&lines(&[])), 0);
    assert_eq!(Day1.part_2(&lines(&["1", "2"])), Ok(0));
}

#[test]
fn sonar_sweep_window_overflow() {
    let big = usize::MAX.to_string();
    let input = vec![big.clone(), big.clone(), big];
    assert_eq!(Day1.part_2(&input), Err(SolveError::Overflow));
}

#[test]
fn dive_sample() {
    let input = lines(&["forward 5", "down 5", "forward 8", "up 3", "down 8", "forward 2"]);
    assert_eq!(Day2.part_1(&input), Ok(150));
    assert_eq!(Day2.part_2(&input), Ok(900));
}

#[test]
fn dive_rejects_unknown_command() {
    let input = lines(&["forward 5", "sideways 2"]);
    assert_eq!(Day2.part_1(&input), Err(SolveError::Malformed));
    assert_eq!(Day2.part_2(&input), Err(SolveError::Malformed));
}

#[test]
fn dive_overflow() {
    let input = lines(&["forward 9223372036854775807", "forward 1"]);
    assert_eq!(Day2.part_1(&input), Err(SolveError::Overflow));
    let input = lines(&["down 4294967296", "forward 4294967296", "forward 4294967296"]);
    assert_eq!(Day2.part_2(&input), Err(SolveError::Overflow));
}

#[test]
fn command_parsing() {
    assert_eq!(
        Command::parse("up 3"),
        Some(Command { kind: CommandKind::Up, amount: 3 })
    );
    assert_eq!(
        Command::parse("down -2"),
        Some(Command { kind: CommandKind::Down, amount: -2 })
    );
    assert_eq!(Command::parse("forward"), None);
    assert_eq!(Command::parse("up x"), None);
}

#[test]
fn binary_diagnostic_sample() {
    let input = lines(&[
        "00100", "11110", "10110", "10111", "10101", "01111", "00111", "11100", "10000", "11001",
        "00010", "01010",
    ]);
    assert_eq!(Day3.part_1(&input), Ok(198));
    assert_eq!(Day3.part_2(&input), Ok((23, 10, 230)));
}

#[test]
fn binary_diagnostic_errors() {
    assert_eq!(Day3.part_1(&lines(&[])), Err(SolveError::EmptyInput));
    assert_eq!(Day3.part_1(&lines(&["101", "12"])), Err(SolveError::Malformed));
    assert_eq!(Day3.part_1(&lines(&["101", "10"])), Err(SolveError::Malformed));
    assert_eq!(Day3.part_2(&lines(&["", ""])), Err(SolveError::Malformed));
    assert_eq!(Day3.part_2(&lines(&["10", "10"])), Err(SolveError::NoAnswer));
}

#[test]
fn rating_bits_and_filtering() {
    let values = vec![vec![0u8, 1], vec![1, 1], vec![1, 0]];
    assert_eq!(rate_bits(&values, 0), (1, 2));
    assert_eq!(rate_bits(&values, 1), (1, 2));
    assert_eq!(
        filter_values(&values, (1, 2), 0, FilterPredicate::Max),
        vec![vec![1, 1], vec![1, 0]]
    );
    assert_eq!(filter_values(&values, (1, 2), 0, FilterPredicate::Min), vec![vec![0, 1]]);
    assert_eq!(
        filter_values(&values, (1, 1), 1, FilterPredicate::Max),
        vec![vec![0, 1], vec![1, 1]]
    );
    assert_eq!(filter_values(&values, (1, 1), 1, FilterPredicate::Min), vec![vec![1, 0]]);
}

#[test]
fn number_parsing() {
    assert_eq!(parse_usize("42"), Some(42));
    assert_eq!(parse_usize("+7"), Some(7));
    assert_eq!(parse_usize("-7"), None);
    assert_eq!(parse_usize(""), None);
    assert_eq!(parse_usize(" 1"), None);
    assert_eq!(parse_usize("18446744073709551616"), None);
    assert_eq!(parse_i64("-9223372036854775808"), Some(i64::MIN));
    assert_eq!(parse_i64("9223372036854775808"), None);
    assert_eq!(parse_i64("+12"), Some(12));
    assert_eq!(parse_i64("-"), None);
}

#[test]
fn titles_and_inputs() {
    assert_eq!(Day1.title(), "Sonar Sweep");
    assert_eq!(Day2.title(), "Dive!");
    assert_eq!(Day3.title(), "Binary Diagnostic");
    assert_eq!(Day3.inputs(), vec!["inputs/day3/small.txt", "inputs/day3/real.txt"]);
}
