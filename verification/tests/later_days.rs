use advent::day03;
use advent::day05;
use advent::day07;
use advent::day08;
use advent::day07::{Case, Op};

const INPUT03: &'static str = r#"
xmul(2,4)%&mul[3,7]!@^do_not_mul(5,5)+mul(32,64]then(mul(11,8)mul(8,5))
    "#;

#[test]
fn day03_test_star_one() {
    assert_eq!(day03::star_one(INPUT03), 161);
}

#[test]
fn day03_test_star_two() {
    assert_eq!(
        day03::star_two("xmul(2,4)&mul[3,7]!^don't()_mul(5,5)+mul(32,64](mul(11,8)undo()?mul(8,5))"),
        48
    );
}

#[test]
fn day03_whitespace_and_toggles() {
    assert_eq!(day03::star_one("mul(2, 3)mul(4 ,5)"), 26);
    assert_eq!(day03::star_two("don't()mul(2,3)"), 0);
    assert_eq!(day03::star_two("don't()do()mul(2,3)"), 6);
    assert_eq!(day03::star_one("mul(,3)mul(2,)mul(2,3"), 0);
}

const INPUT05: &'static str = r#"
47|53
97|13
97|61
97|47
75|29
61|13
75|53
29|13
97|29
53|29
61|53
97|53
61|29
47|13
75|47
97|75
47|61
75|61
47|29
75|13
53|13

75,47,61,53,29
97,61,53,29,13
75,29,13
75,97,47,61,53
61,13,29
97,13,75,29,47"#;

#[test]
fn day05_test_star_one() {
    assert_eq!(day05::star_one(INPUT05), 143);
}

#[test]
fn day05_test_star_two() {
    assert_eq!(day05::star_two(INPUT05), 123);
}

const INPUT07: &'static str = r#"
190: 10 19
3267: 81 40 27
83: 17 5
156: 15 6
7290: 6 8 6 15
161011: 16 10 13
192: 17 8 14
21037: 9 7 18 13
292: 11 6 16 20
"#;

#[test]
fn day07_test_star_one() {
    assert_eq!(day07::star_one(INPUT07), 3749);
}

#[test]
fn day07_test_star_two() {
    assert_eq!(day07::star_two(INPUT07), 11387);
}

#[test]
fn test_is_correct() {
    let case = Case {
        expected: 190,
        values: vec![10, 19],
    };

    assert!(case.is_correct(&vec![Op::Mul]));

    let case = Case {
        expected: 3267,
        values: vec![81, 40, 27],
    };

    assert!(case.is_correct(&vec![Op::Add, Op::Mul]));

    let case = Case {
        expected: 156,
        values: vec![15, 6],
    };

    assert!(case.is_correct(&vec![Op::Concat]));

    let case = Case {
        expected: 12345,
        values: vec![12, 345],
    };

    assert!(case.is_correct(&vec![Op::Concat]));

    let case = Case {
        expected: 192,
        values: vec![17, 8, 14],
    };

    assert!(case.is_correct(&vec![Op::Concat, Op::Add]));

    let case = Case {
        expected: 7290,
        values: vec![6, 8, 6, 15],
    };

    assert!(case.is_correct(&vec![Op::Mul, Op::Concat, Op::Mul]));
}

const INPUT08: &'static str = r#"
............
........0...
.....0......
.......0....
....0.......
......A.....
............
............
........A...
.........A..
............
............
"#;

#[test]
fn day08_test_star_one() {
    assert_eq!(day08::star_one(INPUT08), 14);
}

#[test]
fn day08_test_star_two() {
    assert_eq!(day08::star_two(INPUT08), 34);
}

#[test]
fn day08_two_antennas() {
    // Two antennas of one frequency cast exactly two mirror antinodes.
    assert_eq!(day08::star_one("..........\n...a......\n......a...\n.........."), 2);
    // The whole-ray count also includes the antennas themselves.
    assert_eq!(day08::star_two("..........\n...a......\n......a...\n.........."), 4);
}
