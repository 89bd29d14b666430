use advent::day06::{star_one, star_two, Grid, ParseError, Pos, Step};

const INPUT: &'static str = r#"
....#.....
.........#
..........
..#.......
.......#..
..........
.#..^.....
........#.
#.........
......#...
"#;

#[test]
fn day06_test_star_one() {
    assert_eq!(star_one(INPUT), 41);
}

#[test]
fn day06_test_star_two() {
    assert_eq!(star_two(INPUT), 6);
}

#[test]
fn exits_after_one_step_at_edge() {
    // The agent starts on the top row heading up: one step leaves the grid
    // and exactly one position was visited.
    let mut g = Grid::parse("^..").unwrap();
    let visited = g.run_until_stuck_or_out_of_bounds().unwrap();
    assert_eq!(visited.len(), 1);
    assert_eq!(star_one("^.."), 1);
    assert_eq!(star_one("^"), 1);
}

#[test]
fn surrounded_agent_loops() {
    // The agent is walled in on all four sides: it rotates through the four
    // headings in place and the fifth state repeats the first.
    let looping = ".#.\n#^#\n.#.";
    let mut g = Grid::parse(looping).unwrap();
    assert!(g.run_until_stuck_or_out_of_bounds().is_none());
}

#[test]
fn single_tick_kinds() {
    let mut g = Grid::parse("#\n^").unwrap();
    // An obstruction ahead rotates the agent in place.
    assert_eq!(g.tick(), Step::Rotated);
    // Then the right edge is one step away.
    assert_eq!(g.tick(), Step::Exited);
    assert!(g.guard_location().is_none());
}

#[test]
fn obstruct_rejects_agent_position() {
    let mut g = Grid::parse(".^.").unwrap();
    let start = g.guard_location().unwrap();
    assert!(!g.obstruct(start));
    assert!(g.obstruct(Pos { x: 0, y: 0 }));
}

#[test]
fn parse_errors() {
    assert!(matches!(Grid::parse("..^\n..!"), Err(ParseError::UnknownCharacter)));
    assert!(matches!(Grid::parse("..^\n...."), Err(ParseError::RaggedRows)));
    assert!(matches!(Grid::parse(""), Err(ParseError::NoAgent)));
    assert!(matches!(Grid::parse("...\n.#."), Err(ParseError::NoAgent)));
    assert!(matches!(Grid::parse("^.^"), Err(ParseError::MultipleAgents)));
}

#[test]
fn out_of_bounds_checks() {
    let g = Grid::parse("^..\n...").unwrap();
    assert!(g.out_of_bounds(-1, 0));
    assert!(g.out_of_bounds(0, -1));
    assert!(g.out_of_bounds(3, 0));
    assert!(g.out_of_bounds(0, 2));
    assert!(!g.out_of_bounds(2, 1));
}
