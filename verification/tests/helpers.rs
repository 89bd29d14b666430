use advent::parse_custom_separated;
use advent::parse_lines;
use advent::parse_whitespace_separated;

#[test]
fn parse_lines_numbers() {
    assert_eq!(parse_lines("3\n-14\n  25  \n\n7"), vec![3, -14, 25, 7]);
}

#[test]
fn parse_whitespace_separated_numbers() {
    assert_eq!(parse_whitespace_separated(" 1 2\t3\n-4 "), vec![1, 2, 3, -4]);
}

#[test]
fn parse_custom_separated_numbers() {
    assert_eq!(parse_custom_separated("1;2; 3 ;;4", ";"), vec![1, 2, 3, 4]);
    assert_eq!(parse_custom_separated("10<>20<>30", "<>"), vec![10, 20, 30]);
}
