use puzzles::day10;
use puzzles::day11;
use puzzles::day12;
use puzzles::day7;
use puzzles::day8;
use puzzles::day9;

const DAY7_EXAMPLE: &str = "$ cd /\n$ ls\ndir a\n14848514 b.txt\n8504156 c.dat\ndir d\n$ cd a\n$ ls\ndir e\n29116 f\n2557 g\n62596 h.lst\n$ cd e\n$ ls\n584 i\n$ cd ..\n$ cd ..\n$ cd d\n$ ls\n4060174 j\n8033020 d.log\n5626152 d.ext\n7214296 k\n";

#[test]
fn day7_challenge1_example() {
    let sum = day7::run_challenge1(DAY7_EXAMPLE).unwrap();
    assert_eq!(sum, 95437);
}

#[test]
fn day7_challenge2_example() {
    let size = day7::run_challenge2(DAY7_EXAMPLE).unwrap();
    assert_eq!(size, 24933642);
}

#[test]
fn day7_relisting_changes_nothing() {
    let twice = "$ cd /\n$ ls\ndir a\n100 b.txt\n$ ls\ndir a\n100 b.txt\n$ cd a\n$ ls\n7 c\n$ ls\n7 c\n";
    let once = "$ cd /\n$ ls\ndir a\n100 b.txt\n$ cd a\n$ ls\n7 c\n";
    assert_eq!(
        day7::run_challenge1(twice).unwrap(),
        day7::run_challenge1(once).unwrap()
    );
}

#[test]
fn day7_rejects_bad_line() {
    assert_eq!(day7::run_challenge1("$ mv a b\n"), Err(day7::Error::Parse(0)));
}

const DAY8_EXAMPLE: &str = "30373\n25512\n65332\n33549\n35390\n";

#[test]
fn day8_challenge1_example() {
    let sum = day8::run_challenge1(DAY8_EXAMPLE).unwrap();
    assert_eq!(sum, 21);
}

#[test]
fn day8_challenge2_example() {
    let size = day8::run_challenge2(DAY8_EXAMPLE).unwrap();
    assert_eq!(size, 8);
}

#[test]
fn day8_rejects_ragged_grid() {
    assert_eq!(
        day8::run_challenge1("123\n12\n"),
        Err(day8::Error::InvalidTreeLines)
    );
}

#[test]
fn day8_rejects_empty_input() {
    assert_eq!(day8::run_challenge1(""), Err(day8::Error::EmptyInput));
}

#[test]
fn day8_rejects_nondigit() {
    assert_eq!(
        day8::run_challenge1("12\n1x\n"),
        Err(day8::Error::InvalidNumber('x'))
    );
}

const DAY9_EXAMPLE: &str = "R 4\nU 4\nL 3\nD 1\nR 4\nD 1\nL 5\nR 2\n";
const DAY9_EXAMPLE2: &str = "R 5\nU 8\nL 8\nD 3\nR 17\nD 10\nL 25\nU 20\n";

#[test]
fn day9_challenge1_example() {
    let result = day9::run_challenge1(DAY9_EXAMPLE).unwrap();
    assert_eq!(result.len(), 13);
}

#[test]
fn day9_challenge2_example() {
    let result = day9::run_challenge2(DAY9_EXAMPLE).unwrap();
    assert_eq!(result.len(), 1);
}

#[test]
fn challenge2_example2() {
    let result = day9::run_challenge2(DAY9_EXAMPLE2).unwrap();
    assert_eq!(result.len(), 36);
}

#[test]
fn day9_rejects_bad_direction() {
    assert_eq!(day9::run_challenge1("X 3\n"), Err(day9::Error::Parse(0)));
}

const DAY10_EXAMPLE: &str = "addx 15\naddx -11\naddx 6\naddx -3\naddx 5\naddx -1\naddx -8\naddx 13\naddx 4\nnoop\naddx -1\naddx 5\naddx -1\naddx 5\naddx -1\naddx 5\naddx -1\naddx 5\naddx -1\naddx -35\naddx 1\naddx 24\naddx -19\naddx 1\naddx 16\naddx -11\nnoop\nnoop\naddx 21\naddx -15\nnoop\nnoop\naddx -3\naddx 9\naddx 1\naddx -3\naddx 8\naddx 1\naddx 5\nnoop\nnoop\nnoop\nnoop\nnoop\naddx -36\nnoop\naddx 1\naddx 7\nnoop\nnoop\nnoop\naddx 2\naddx 6\nnoop\nnoop\nnoop\nnoop\nnoop\naddx 1\nnoop\nnoop\naddx 7\naddx 1\nnoop\naddx -13\naddx 13\naddx 7\nnoop\naddx 1\naddx -33\nnoop\nnoop\nnoop\naddx 2\nnoop\nnoop\nnoop\naddx 8\nnoop\naddx -1\naddx 2\naddx 1\nnoop\naddx 17\naddx -9\naddx 1\naddx 1\naddx -3\naddx 11\nnoop\nnoop\naddx 1\nnoop\naddx 1\nnoop\nnoop\naddx -13\naddx -19\naddx 1\naddx 3\naddx 26\naddx -30\naddx 12\naddx -1\naddx 3\naddx 1\nnoop\nnoop\nnoop\naddx -9\naddx 18\naddx 1\naddx 2\nnoop\nnoop\naddx 9\nnoop\nnoop\nnoop\naddx -1\naddx 2\naddx -37\naddx 1\naddx 3\nnoop\naddx 15\naddx -21\naddx 22\naddx -6\naddx 1\nnoop\naddx 2\naddx 1\nnoop\naddx -10\nnoop\nnoop\naddx 20\naddx 1\naddx 2\naddx 2\naddx -6\naddx -11\nnoop\nnoop\nnoop\n";

#[test]
fn day10_challenge1_example() {
    let result = day10::run_challenge1(DAY10_EXAMPLE).unwrap();
    assert_eq!(result, 13140);
}

#[test]
fn day10_challenge2_example() {
    let result = day10::run_challenge2(DAY10_EXAMPLE).unwrap();
    println!("{}", result.render());
}

#[test]
fn day10_screen_drawing() {
    let machine = day10::run_challenge2(DAY10_EXAMPLE).unwrap();
    let picture = machine.render();
    let first_line = picture.lines().next().unwrap();
    assert_eq!(first_line, "##..##..##..##..##..##..##..##..##..##..");
}

#[test]
fn day10_rejects_bad_instruction() {
    assert_eq!(day10::run_challenge1("jump 3\n"), Err(day10::Error::Parse(0)));
}

const DAY11_EXAMPLE: &str = "Monkey 0:\n  Starting items: 79, 98\n  Operation: new = old * 19\n  Test: divisible by 23\n    If true: throw to monkey 2\n    If false: throw to monkey 3\n\nMonkey 1:\n  Starting items: 54, 65, 75, 74\n  Operation: new = old + 6\n  Test: divisible by 19\n    If true: throw to monkey 2\n    If false: throw to monkey 0\n\nMonkey 2:\n  Starting items: 79, 60, 97\n  Operation: new = old * old\n  Test: divisible by 13\n    If true: throw to monkey 1\n    If false: throw to monkey 3\n\nMonkey 3:\n  Starting items: 74\n  Operation: new = old + 3\n  Test: divisible by 17\n    If true: throw to monkey 0\n    If false: throw to monkey 1\n";

#[test]
fn day11_challenge1_example() {
    let result = day11::run_challenge1(DAY11_EXAMPLE).unwrap();
    assert_eq!(result, 10605);
}

#[test]
fn day11_challenge2_example() {
    let result = day11::run_challenge2(DAY11_EXAMPLE).unwrap();
    assert_eq!(result, 2713310158);
}

#[test]
fn day11_rejects_bad_block() {
    assert_eq!(
        day11::run_challenge1("Monkey 0:\n  Starting items: 1\n"),
        Err(day11::Error::Parse(2))
    );
}

const DAY12_EXAMPLE: &str = "Sabqponm\nabcryxxl\naccszExk\nacctuvwj\nabdefghi\n";

#[test]
fn day12_challenge1_example() {
    let result = day12::run_challenge1(DAY12_EXAMPLE).unwrap();
    assert_eq!(result.len() - 1, 31);
}

#[test]
fn day12_challenge2_example() {
    let result = day12::run_challenge2(DAY12_EXAMPLE).unwrap();
    assert_eq!(result.len() - 1, 29);
}

#[test]
fn day12_rejects_ragged_grid() {
    assert_eq!(
        day12::run_challenge1("ab\na\n"),
        Err(day12::Error::InvalidLineSize)
    );
}

#[test]
fn day12_rejects_empty_input() {
    assert_eq!(day12::run_challenge1(""), Err(day12::Error::EmptyInput));
}

#[test]
fn day12_no_start() {
    assert_eq!(
        day12::run_challenge1("abc\nabE\n"),
        Err(day12::Error::NoStartFound)
    );
}

#[test]
fn day12_no_path() {
    assert_eq!(
        day12::run_challenge1("Sza\nzzE\n"),
        Err(day12::Error::NoPathFound)
    );
}

#[test]
fn day12_straight_line_is_optimal() {
    let path = day12::run_challenge1("SabcdefghijklmnopqrstuvwxyzE\n").unwrap();
    assert_eq!(path.len() - 1, 27);
}
