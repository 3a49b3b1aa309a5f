use puzzles::day1;
use puzzles::day2;
use puzzles::day3;
use puzzles::day4;
use puzzles::day5;
use puzzles::day6;

const DAY1_EXAMPLE: &str = "1000\n2000\n3000\n\n4000\n\n5000\n6000\n\n7000\n8000\n9000\n\n10000\n";

#[test]
fn day1_challenge1_example() {
    let max = day1::run_challenge1(DAY1_EXAMPLE).unwrap();
    assert_eq!(max, 24000);
}

#[test]
fn day1_challenge2_example() {
    let top3 = day1::run_challenge2(DAY1_EXAMPLE).unwrap();
    assert_eq!(top3, 45000);
}

#[test]
fn day1_rejects_double_blank() {
    assert_eq!(day1::run_challenge1("1\n\n\n2\n"), Err(day1::Error::Parse(2)));
}

#[test]
fn day1_rejects_empty_input() {
    assert_eq!(day1::run_challenge1(""), Err(day1::Error::Parse(0)));
}

const DAY2_EXAMPLE: &str = "A Y\nB X\nC Z\n";

#[test]
fn day2_challenge1_example() {
    let score = day2::run_challenge1(DAY2_EXAMPLE).unwrap();
    assert_eq!(score, 15);
}

#[test]
fn day2_challenge2_example() {
    let score = day2::run_challenge2(DAY2_EXAMPLE).unwrap();
    assert_eq!(score, 12);
}

#[test]
fn day2_rejects_bad_column() {
    assert_eq!(day2::run_challenge1("A Q\n"), Err(day2::Error::Parse(0)));
}

const DAY3_EXAMPLE: &str = "vJrwpWtwJgWrhcsFMMfFFhFp\njqHRNqRjqzjGDLGLrsFMfFZSrLrFZsSL\nPmmdzqPrVvPwwTWBwg\nwMqvLMZHhHMvwLHjbvcjnnSBnvTQFn\nttgJtRGJQctTZtZT\nCrZsJsPPZsGzwwsLwLmpwMDw\n";

#[test]
fn day3_challenge1_example() {
    let score = day3::run_challenge1(DAY3_EXAMPLE).unwrap();
    assert_eq!(score, 157);
}

#[test]
fn day3_challenge2_example() {
    let score = day3::run_challenge2(DAY3_EXAMPLE).unwrap();
    assert_eq!(score, 70);
}

#[test]
fn day3_priority_bounds() {
    assert_eq!(day3::Item { id: 'a' }.priority(), 1);
    assert_eq!(day3::Item { id: 'z' }.priority(), 26);
    assert_eq!(day3::Item { id: 'A' }.priority(), 27);
    assert_eq!(day3::Item { id: 'Z' }.priority(), 52);
}

#[test]
fn day3_no_common_item() {
    let chars: Vec<char> = "abcd".chars().collect();
    let sack = day3::Rucksack::parse(&chars).unwrap();
    match sack.common() {
        Err(day3::Error::InvalidRuckSack(_, day3::CommonElementError::NoCommonItem)) => {}
        other => panic!("unexpected result {:?}", other),
    }
}

const DAY4_EXAMPLE: &str = "2-4,6-8\n2-3,4-5\n5-7,7-9\n2-8,3-7\n6-6,4-6\n2-6,4-8\n";

#[test]
fn day4_challenge1_example() {
    let score = day4::run_challenge1(DAY4_EXAMPLE).unwrap();
    assert_eq!(score, 2);
}

#[test]
fn day4_challenge2_example() {
    let score = day4::run_challenge2(DAY4_EXAMPLE).unwrap();
    assert_eq!(score, 4);
}

#[test]
fn day4_rejects_missing_comma() {
    assert_eq!(day4::run_challenge1("2-4\n"), Err(day4::Error::Parse(0)));
}

const DAY5_EXAMPLE: &str = "    [D]    \n[N] [C]    \n[Z] [M] [P]\n 1   2   3 \n\nmove 1 from 2 to 1\nmove 3 from 1 to 3\nmove 2 from 2 to 1\nmove 1 from 1 to 2\n";

#[test]
fn day5_challenge1_example() {
    let result = day5::run_challenge1(DAY5_EXAMPLE).unwrap();
    assert_eq!(result, "CMZ");
}

#[test]
fn day5_challenge2_example() {
    let result = day5::run_challenge2(DAY5_EXAMPLE).unwrap();
    assert_eq!(result, "MCD");
}

#[test]
fn day5_rejects_bad_cell() {
    match day5::run_challenge1("[N) [C]    \n 1   2\n\nmove 1 from 1 to 2\n") {
        Err(day5::Error::InvalidCrate(t)) => assert_eq!(t, "[N) "),
        other => panic!("unexpected result {:?}", other),
    }
}

#[test]
fn day5_rejects_bad_move() {
    match day5::run_challenge1("[A]\n 1 \n\nshift 1 from 1 to 1\n") {
        Err(day5::Error::InvalidMove(t)) => assert_eq!(t, "shift 1 from 1 to 1"),
        other => panic!("unexpected result {:?}", other),
    }
}

#[test]
fn day5_move_found_anywhere_in_line() {
    let result = day5::run_challenge1("[A] [B]\n 1   2 \n\nxx move 1 from 1 to 2 yy\n").unwrap();
    assert_eq!(result, "A");
}

#[test]
fn day5_impossible_move() {
    match day5::run_challenge1("[A] [B]\n 1   2 \n\nmove 2 from 1 to 2\n") {
        Err(day5::Error::ImpossibleToApplyAction(stack, _)) => assert_eq!(stack, vec!['A']),
        other => panic!("unexpected result {:?}", other),
    }
}

const DAY6_EXAMPLE: &str = "mjqjpqmgbljsphdztnvjfqwrcgsmlb\nbvwbjplbgvbhsrlpgdmjqwftvncz\nnppdvjthqldpwncqszvftbrmjlhg\nnznrnfrfntjfmvfwmzdfjlvtqnbhcprsg\nzcfzfwzzqfrljwzlrfnpqdbhtmscgvjw\n";

#[test]
fn day6_challenge1_example() {
    let result = day6::run_challenge1(DAY6_EXAMPLE).unwrap();
    assert_eq!(result, vec![7, 5, 6, 10, 11]);
}

#[test]
fn day6_challenge2_example() {
    let result = day6::run_challenge2(DAY6_EXAMPLE).unwrap();
    assert_eq!(result, vec![19, 23, 23, 29, 26]);
}

#[test]
fn day6_no_marker() {
    match day6::run_challenge1("aaaaaa\n") {
        Err(day6::Error::NoPacketStart(t)) => assert_eq!(t, "aaaaaa"),
        other => panic!("unexpected result {:?}", other),
    }
}
