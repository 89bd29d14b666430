use advent::day01;
use advent::day02;
use advent::day04;

const INPUT01: &'static str = r#"
3   4
4   3
2   5
1   3
3   9
3   3
    "#;

#[test]
fn day01_test_star_one() {
    assert_eq!(day01::star_one(INPUT01), 11);
}

#[test]
fn day01_test_star_two() {
    assert_eq!(day01::star_two(INPUT01), 31);
}

#[test]
fn day01_single_pair() {
    assert_eq!(day01::star_one("10 3"), 7);
    assert_eq!(day01::star_two("5 5"), 5);
}

const INPUT02: &'static str = r#"
7 6 4 2 1
1 2 7 8 9
9 7 6 2 1
1 3 2 4 5
8 6 4 4 1
1 3 6 7 9
81 1 2 3 4
    "#;

#[test]
fn day02_test_star_one() {
    assert_eq!(day02::star_one(INPUT02), 2);
}

#[test]
fn day02_test_star_two() {
    assert_eq!(day02::star_two(INPUT02), 5)
}

#[test]
fn test_star_two_fails() {
    assert_eq!(
        day02::star_two(
            r#"
1 2 7 8 9
9 7 6 2 1
        "#
        ),
        0
    )
}

#[test]
fn test_star_two_false_negatives() {
    assert_eq!(
        day02::star_two(
            r#"
1 2 3 4 5 10
48 46 47 49 51 54 56
1 1 2 3 4 5
1 2 3 4 5 5
5 1 2 3 4 5
1 4 3 2 1
1 6 7 8 9
1 2 3 4 3
9 8 7 6 7
7 10 8 10 11
29 28 27 25 26 25 22 20
        "#
        ),
        11
    )
}

#[test]
fn day02_valid_with_mask() {
    // 1 9 2 3 is unsafe as given but safe once the 9 is removed.
    assert!(!day02::valid(&vec![1, 9, 2, 3], None));
    assert!(day02::valid(&vec![1, 9, 2, 3], Some(1)));
}

const INPUT04: &'static str = r#"
....XXMAS.
.SAMXMS...
...S..A...
..A.A.MS.X
XMASAMX.MM
X.....XA.A
S.S.S.S.SS
.A.A.A.A.A
..M.M.M.MM
.X.X.XMASX
"#;

const INPUT04B: &'static str = r#"
.M.S......
..A..MSMS.
.M.S.MAA..
..A.ASMSM.
.M.S.M....
..........
S.S.S.S.S.
.A.A.A.A..
M.M.M.M.M.
..........
"#;

#[test]
fn day04_test_star_one() {
    assert_eq!(day04::star_one(INPUT04), 18);
}

#[test]
fn day04_test_star_two() {
    assert_eq!(day04::star_two(INPUT04B), 9);
}

#[test]
fn day04_tiny_grids() {
    assert_eq!(day04::star_one("XMAS"), 1);
    assert_eq!(day04::star_one("SAMX"), 1);
    assert_eq!(day04::star_one("X\nM\nA\nS"), 1);
    assert_eq!(day04::star_two("M.S\n.A.\nM.S"), 1);
    assert_eq!(day04::star_two("M.M\n.A.\nS.S"), 1);
}

#[test]
fn day01_negative_values() {
    assert_eq!(day01::star_one("-3 5\n2 -3"), 3);
    assert_eq!(day01::star_two("-3 5\n2 -3"), -3);
}
