//! A grid-traversal simulator with cycle detection, and an exhaustive search
//! over single-cell mutations that asks which of them make the walk loop.
//!
//! The grid is a rectangle of cells, each empty or obstructed, with a single
//! agent that starts on a marked cell heading up.  One `tick` either moves
//! the agent one cell along its heading, rotates it 90 degrees clockwise in
//! front of an obstruction, or drops it off the edge of the grid.  A run
//! halts when the agent leaves the grid or when an agent state (position and
//! heading) repeats, which pins the walk in a cycle forever.
use vstd::prelude::*;

use crate::text;

verus! {

/// One grid cell.  The agent is not a cell: it is tracked separately, so the
/// cells never change during a run.
#[derive(Clone, Copy, PartialEq, Eq, Structural, Debug)]
pub enum Cell {
    Empty,
    Obstruction,
}

/// A 0-indexed coordinate pair: `x` grows rightward, `y` grows downward.
#[derive(Clone, Copy, PartialEq, Eq, Structural, Debug, Hash)]
pub struct Pos {
    pub x: usize,
    pub y: usize,
}

/// The agent's heading, ordered for a 90-degree clockwise rotation.
#[derive(Clone, Copy, PartialEq, Eq, Structural, Debug)]
pub enum Heading {
    Up,
    Right,
    Down,
    Left,
}

/// The unit of cycle detection: a position together with a heading.
#[derive(Clone, Copy, PartialEq, Eq, Structural, Debug)]
pub struct AgentState {
    pub pos: Pos,
    pub heading: Heading,
}

/// What a single `tick` did.
#[derive(Clone, Copy, PartialEq, Eq, Structural, Debug)]
pub enum Step {
    Moved,
    Rotated,
    Exited,
}

/// Why a grid failed to parse.
#[derive(Clone, Copy, PartialEq, Eq, Structural, Debug)]
pub enum ParseError {
    UnknownCharacter,
    RaggedRows,
    NoAgent,
    MultipleAgents,
}

/// The grid: a rectangle of cells plus the agent's current state, `None`
/// once the agent has left the grid.
pub struct Grid {
    pub cells: Vec<Vec<Cell>>,
    pub agent: Option<AgentState>,
}

/// The views of a vector of cell rows.
pub open spec fn cell_rows(cells: Seq<Vec<Cell>>) -> Seq<Seq<Cell>> {
    cells.map_values(|v: Vec<Cell>| v@)
}

/// A non-degenerate rectangle: at least one row, at least one column, and
/// every row of the same length.
pub open spec fn rows_wf(rows: Seq<Seq<Cell>>) -> bool {
    &&& rows.len() > 0
    &&& rows[0].len() > 0
    &&& forall|y: int| 0 <= y < rows.len() ==> #[trigger] rows[y].len() == rows[0].len()
}

pub open spec fn grid_width(rows: Seq<Seq<Cell>>) -> int {
    rows[0].len() as int
}

pub open spec fn grid_height(rows: Seq<Seq<Cell>>) -> int {
    rows.len() as int
}

/// A position is in bounds iff both coordinates are below the grid's extent.
pub open spec fn pos_in(rows: Seq<Seq<Cell>>, p: Pos) -> bool {
    p.x < grid_width(rows) && p.y < grid_height(rows)
}

pub open spec fn state_in(rows: Seq<Seq<Cell>>, s: AgentState) -> bool {
    pos_in(rows, s.pos)
}

impl Grid {
    pub open spec fn rows(&self) -> Seq<Seq<Cell>> {
        cell_rows(self.cells@)
    }

    pub open spec fn wf(&self) -> bool {
        &&& rows_wf(self.rows())
        &&& (self.agent matches Some(s) ==> state_in(self.rows(), s))
    }
}

/// The heading after a 90-degree clockwise rotation.
pub open spec fn rotated_right(h: Heading) -> Heading {
    match h {
        Heading::Up => Heading::Right,
        Heading::Right => Heading::Down,
        Heading::Down => Heading::Left,
        Heading::Left => Heading::Up,
    }
}

/// The x coordinate one step along the heading, as a mathematical integer.
pub open spec fn ahead_x(s: AgentState) -> int {
    match s.heading {
        Heading::Left => s.pos.x - 1,
        Heading::Right => s.pos.x + 1,
        _ => s.pos.x as int,
    }
}

/// The y coordinate one step along the heading, as a mathematical integer.
pub open spec fn ahead_y(s: AgentState) -> int {
    match s.heading {
        Heading::Up => s.pos.y - 1,
        Heading::Down => s.pos.y + 1,
        _ => s.pos.y as int,
    }
}

/// The agent state after one tick: `None` when the cell ahead lies outside
/// the grid, a rotation in place in front of an obstruction, and otherwise a
/// move one cell along the heading.
pub open spec fn next_state(rows: Seq<Seq<Cell>>, s: AgentState) -> Option<AgentState> {
    let nx = ahead_x(s);
    let ny = ahead_y(s);
    if !(0 <= nx < grid_width(rows) && 0 <= ny < grid_height(rows)) {
        None
    } else if rows[ny][nx] is Obstruction {
        Some(AgentState { pos: s.pos, heading: rotated_right(s.heading) })
    } else {
        Some(AgentState { pos: Pos { x: nx as usize, y: ny as usize }, heading: s.heading })
    }
}

/// What one tick from `s` does, as a step verdict.
pub open spec fn step_kind(rows: Seq<Seq<Cell>>, s: AgentState) -> Step {
    let nx = ahead_x(s);
    let ny = ahead_y(s);
    if !(0 <= nx < grid_width(rows) && 0 <= ny < grid_height(rows)) {
        Step::Exited
    } else if rows[ny][nx] is Obstruction {
        Step::Rotated
    } else {
        Step::Moved
    }
}

/// The agent state after `n` ticks from `s0`, or `None` once it has exited.
pub open spec fn nth_state(rows: Seq<Seq<Cell>>, s0: AgentState, n: nat) -> Option<AgentState>
    decreases n,
{
    if n == 0 {
        Some(s0)
    } else {
        match nth_state(rows, s0, (n - 1) as nat) {
            None => None,
            Some(s) => next_state(rows, s),
        }
    }
}

/// The run from `s0` eventually leaves the grid.
pub open spec fn run_exits(rows: Seq<Seq<Cell>>, s0: AgentState) -> bool {
    exists|n: nat| nth_state(rows, s0, n) is None
}

/// The run from `s0` passes through position `p` at some point.
pub open spec fn visits_pos(rows: Seq<Seq<Cell>>, s0: AgentState, p: Pos) -> bool {
    exists|n: nat| (#[trigger] nth_state(rows, s0, n)) matches Some(s) && s.pos == p
}

/// The set of distinct positions the run from `s0` passes through.
pub open spec fn visited_set(rows: Seq<Seq<Cell>>, s0: AgentState) -> Set<Pos> {
    Set::new(|p: Pos| visits_pos(rows, s0, p))
}

/// A recognised grid character.
pub open spec fn known_char(c: char) -> bool {
    c == '.' || c == '#' || c == '^'
}

pub open spec fn all_known(lines: Seq<Seq<char>>) -> bool {
    forall|y: int, x: int|
        0 <= y < lines.len() && 0 <= x < lines[y].len() ==> known_char(#[trigger] lines[y][x])
}

pub open spec fn rectangular(lines: Seq<Seq<char>>) -> bool {
    forall|y: int| 0 <= y < lines.len() ==> #[trigger] lines[y].len() == lines[0].len()
}

/// An agent marker stands at line `y`, column `x`.
pub open spec fn caret_at(lines: Seq<Seq<char>>, y: int, x: int) -> bool {
    0 <= y < lines.len() && 0 <= x < lines[y].len() && lines[y][x] == '^'
}

pub open spec fn has_agent(lines: Seq<Seq<char>>) -> bool {
    exists|y: int, x: int| caret_at(lines, y, x)
}

pub open spec fn multiple_agents(lines: Seq<Seq<char>>) -> bool {
    exists|y1: int, x1: int, y2: int, x2: int|
        caret_at(lines, y1, x1) && caret_at(lines, y2, x2) && (y1 != y2 || x1 != x2)
}

/// The text parses iff its trimmed non-empty lines are rectangular, use only
/// recognised characters, and carry exactly one agent marker.
pub open spec fn parse_ok(s: Seq<char>) -> bool {
    let lines = text::clean_lines(s);
    &&& lines.len() > 0
    &&& all_known(lines)
    &&& rectangular(lines)
    &&& has_agent(lines)
    &&& !multiple_agents(lines)
}

/// The error reported for text that does not parse, in order of precedence.
pub open spec fn parse_err(s: Seq<char>) -> ParseError {
    let lines = text::clean_lines(s);
    if !all_known(lines) {
        ParseError::UnknownCharacter
    } else if !rectangular(lines) {
        ParseError::RaggedRows
    } else if !has_agent(lines) {
        ParseError::NoAgent
    } else {
        ParseError::MultipleAgents
    }
}

/// The cells denoted by one line of text: `#` is an obstruction, everything
/// else (the empty marker and the agent marker) is an empty cell.
pub open spec fn row_cells(line: Seq<char>) -> Seq<Cell> {
    line.map_values(|c: char| if c == '#' { Cell::Obstruction } else { Cell::Empty })
}

/// The cell rows denoted by the text.
pub open spec fn grid_rows(s: Seq<char>) -> Seq<Seq<Cell>> {
    text::clean_lines(s).map_values(|l: Seq<char>| row_cells(l))
}

/// The agent's starting state: on the (unique) marked cell, heading up.
pub open spec fn start_state(s: Seq<char>) -> AgentState {
    let lines = text::clean_lines(s);
    let yx = choose|y: int, x: int| caret_at(lines, y, x);
    AgentState { pos: Pos { x: yx.1 as usize, y: yx.0 as usize }, heading: Heading::Up }
}

impl Grid {
    /// Parses a rectangular block of text into a grid.
    pub fn parse(input: &str) -> (r: Result<Grid, ParseError>)
        ensures
            parse_ok(input@) <==> r is Ok,
            r matches Ok(g) ==> {
                &&& g.wf()
                &&& g.rows() == grid_rows(input@)
                &&& g.agent == Some(start_state(input@))
            },
            r matches Err(e) ==> e == parse_err(input@),
    {
        let cs = text::chars_of(input);
        let lines = text::clean_lines_of(&cs);
        let ghost sl = text::clean_lines(input@);
        proof {
            assert(text::views(lines@) == sl);
        }
        let n = lines.len();
        if n == 0 {
            proof {
                assert(!has_agent(sl));
            }
            return Err(ParseError::NoAgent);
        }
        // First pass: every character must be recognised.
        let mut y: usize = 0;
        while y < n
            invariant
                y <= n,
                n == lines.len(),
                sl == text::clean_lines(input@),
                text::views(lines@) == sl,
                forall|y2: int, x2: int|
                    0 <= y2 < y && 0 <= x2 < sl[y2].len() ==> known_char(#[trigger] sl[y2][x2]),
            decreases n - y,
        {
            let row = &lines[y];
            let m = row.len();
            proof {
                assert(row@ == sl[y as int]);
            }
            let mut x: usize = 0;
            while x < m
                invariant
                    x <= m,
                    y < n,
                    n == sl.len(),
                    sl == text::clean_lines(input@),
                    row@ == sl[y as int],
                    m == row@.len(),
                    forall|x2: int| 0 <= x2 < x ==> known_char(#[trigger] sl[y as int][x2]),
                decreases m - x,
            {
                let c = row[x];
                if !(c == '.' || c == '#' || c == '^') {
                    proof {
                        assert(!known_char(sl[y as int][x as int]));
                        assert(!all_known(sl));
                    }
                    return Err(ParseError::UnknownCharacter);
                }
                x += 1;
            }
            y += 1;
        }
        proof {
            assert(all_known(sl));
        }
        // Second pass: every line must be as long as the first.
        let w = lines[0].len();
        let mut y: usize = 1;
        while y < n
            invariant
                1 <= y <= n,
                n == lines.len(),
                w == sl[0].len(),
                sl == text::clean_lines(input@),
                text::views(lines@) == sl,
                all_known(sl),
                forall|y2: int| 0 <= y2 < y ==> #[trigger] sl[y2].len() == sl[0].len(),
            decreases n - y,
        {
            if lines[y].len() != w {
                proof {
                    assert(sl[y as int].len() != sl[0].len());
                    assert(!rectangular(sl));
                }
                return Err(ParseError::RaggedRows);
            }
            y += 1;
        }
        proof {
            assert(rectangular(sl));
        }
        // Third pass: exactly one agent marker.
        let mut found: Option<Pos> = None;
        let mut y: usize = 0;
        while y < n
            invariant
                y <= n,
                n == lines.len(),
                sl == text::clean_lines(input@),
                text::views(lines@) == sl,
                all_known(sl),
                rectangular(sl),
                found is None ==> forall|y2: int, x2: int|
                    0 <= y2 < y && 0 <= x2 < sl[y2].len() ==> !(#[trigger] sl[y2][x2] == '^'),
                found matches Some(p) ==> {
                    &&& caret_at(sl, p.y as int, p.x as int)
                    &&& p.y < y
                    &&& forall|y2: int, x2: int|
                        0 <= y2 < y && 0 <= x2 < sl[y2].len() && #[trigger] sl[y2][x2] == '^'
                            ==> y2 == p.y as int && x2 == p.x as int
                },
            decreases n - y,
        {
            let row = &lines[y];
            let m = row.len();
            proof {
                assert(row@ == sl[y as int]);
            }
            let mut x: usize = 0;
            while x < m
                invariant
                    x <= m,
                    y < n,
                    n == sl.len(),
                    sl == text::clean_lines(input@),
                    row@ == sl[y as int],
                    m == row@.len(),
                    all_known(sl),
                    rectangular(sl),
                    found is None ==> forall|y2: int, x2: int|
                        0 <= y2 < y && 0 <= x2 < sl[y2].len() ==> !(#[trigger] sl[y2][x2] == '^'),
                    found is None ==> forall|x2: int| 0 <= x2 < x ==> !(#[trigger] sl[y as int][x2]
                        == '^'),
                    found matches Some(p) ==> {
                        &&& caret_at(sl, p.y as int, p.x as int)
                        &&& (p.y < y || (p.y == y && p.x < x))
                        &&& forall|y2: int, x2: int|
                            0 <= y2 < y && 0 <= x2 < sl[y2].len() && #[trigger] sl[y2][x2] == '^'
                                ==> y2 == p.y as int && x2 == p.x as int
                        &&& forall|x2: int|
                            0 <= x2 < x && #[trigger] sl[y as int][x2] == '^' ==> y as int
                                == p.y as int && x2 == p.x as int
                    },
                decreases m - x,
            {
                let c = row[x];
                if c == '^' {
                    match found {
                        None => {
                            found = Some(Pos { x, y });
                        },
                        Some(p) => {
                            proof {
                                assert(caret_at(sl, p.y as int, p.x as int));
                                assert(caret_at(sl, y as int, x as int));
                                assert(multiple_agents(sl));
                            }
                            return Err(ParseError::MultipleAgents);
                        },
                    }
                }
                x += 1;
            }
            y += 1;
        }
        let start = match found {
            None => {
                proof {
                    assert(!has_agent(sl));
                }
                return Err(ParseError::NoAgent);
            },
            Some(p) => p,
        };
        proof {
            assert(caret_at(sl, start.y as int, start.x as int));
            assert(!multiple_agents(sl));
            assert(parse_ok(input@));
        }
        // Build the cell rows.
        let mut cells: Vec<Vec<Cell>> = Vec::new();
        let mut y: usize = 0;
        while y < n
            invariant
                y <= n,
                n == lines.len(),
                text::views(lines@) == sl,
                cells@.len() == y,
                forall|y2: int| 0 <= y2 < y ==> #[trigger] cells@[y2]@ == row_cells(sl[y2]),
            decreases n - y,
        {
            let row = &lines[y];
            let m = row.len();
            proof {
                assert(row@ == sl[y as int]);
            }
            let mut out: Vec<Cell> = Vec::new();
            let mut x: usize = 0;
            while x < m
                invariant
                    x <= m,
                    y < n,
                    n == sl.len(),
                    row@ == sl[y as int],
                    m == row@.len(),
                    out@.len() == x,
                    forall|x2: int| 0 <= x2 < x ==> out@[x2] == row_cells(sl[y as int])[x2],
                decreases m - x,
            {
                let c = row[x];
                if c == '#' {
                    out.push(Cell::Obstruction);
                } else {
                    out.push(Cell::Empty);
                }
                x += 1;
            }
            proof {
                assert(out@ =~= row_cells(sl[y as int]));
            }
            cells.push(out);
            y += 1;
        }
        let g = Grid { cells, agent: Some(AgentState { pos: start, heading: Heading::Up }) };
        proof {
            assert(g.rows() =~= grid_rows(input@));
            text::lemma_keep_nonempty_all_nonempty(text::trim_each(text::split_char(input@, '\n')));
            assert(sl[0].len() > 0);
            assert(rows_wf(g.rows()));
            let yx = choose|y: int, x: int| caret_at(sl, y, x);
            assert(caret_at(sl, yx.0, yx.1));
            assert(yx.0 == start.y as int && yx.1 == start.x as int);
            assert(g.agent == Some(start_state(input@)));
            assert(pos_in(g.rows(), start));
        }
        Ok(g)
    }
}

/// An index for each heading, used to embed agent states into integers.
pub open spec fn heading_idx(h: Heading) -> int {
    match h {
        Heading::Up => 0,
        Heading::Right => 1,
        Heading::Down => 2,
        Heading::Left => 3,
    }
}

/// An injective embedding of in-bounds agent states into `[0, 4*w*h)`.
pub open spec fn state_code(rows: Seq<Seq<Cell>>, s: AgentState) -> int {
    (s.pos.y * grid_width(rows) + s.pos.x) * 4 + heading_idx(s.heading)
}

proof fn lemma_state_code_injective(rows: Seq<Seq<Cell>>, s1: AgentState, s2: AgentState)
    requires
        rows_wf(rows),
        state_in(rows, s1),
        state_in(rows, s2),
        state_code(rows, s1) == state_code(rows, s2),
    ensures
        s1 == s2,
{
    let w = grid_width(rows);
    let a = s1.pos.y * w + s1.pos.x;
    let b = s2.pos.y * w + s2.pos.x;
    assert(a == b && heading_idx(s1.heading) == heading_idx(s2.heading));
    assert(s1.pos.y == s2.pos.y && s1.pos.x == s2.pos.x) by (nonlinear_arith)
        requires
            s1.pos.y * w + s1.pos.x == s2.pos.y * w + s2.pos.x,
            0 <= s1.pos.x < w,
            0 <= s2.pos.x < w,
            s1.pos.y >= 0,
            s2.pos.y >= 0,
    ;
    assert(s1.heading == s2.heading);
}

proof fn lemma_state_code_range(rows: Seq<Seq<Cell>>, s: AgentState)
    requires
        rows_wf(rows),
        state_in(rows, s),
    ensures
        0 <= state_code(rows, s) < 4 * grid_width(rows) * grid_height(rows),
{
    let w = grid_width(rows);
    let h = grid_height(rows);
    assert(0 <= s.pos.y * w + s.pos.x < w * h) by (nonlinear_arith)
        requires
            0 <= s.pos.x < w,
            0 <= s.pos.y < h,
    ;
    assert((s.pos.y * w + s.pos.x) * 4 + heading_idx(s.heading) < 4 * w * h) by (nonlinear_arith)
        requires
            0 <= s.pos.y * w + s.pos.x < w * h,
            0 <= heading_idx(s.heading) < 4,
    ;
}

/// Pigeonhole: a repetition-free collection of in-bounds agent states has at
/// most `4 * width * height` members.
pub proof fn lemma_states_bound(rows: Seq<Seq<Cell>>, states: Seq<AgentState>)
    requires
        rows_wf(rows),
        states.no_duplicates(),
        forall|k: int| 0 <= k < states.len() ==> state_in(rows, #[trigger] states[k]),
    ensures
        states.len() <= 4 * grid_width(rows) * grid_height(rows),
{
    let w = grid_width(rows);
    let h = grid_height(rows);
    let codes = states.map_values(|s: AgentState| state_code(rows, s));
    assert(codes.no_duplicates()) by {
        assert forall|i: int, j: int|
            0 <= i < codes.len() && 0 <= j < codes.len() && i != j implies codes[i] != codes[j] by {
            if codes[i] == codes[j] {
                lemma_state_code_injective(rows, states[i], states[j]);
            }
        }
    }
    codes.unique_seq_to_set();
    let range = vstd::set_lib::set_int_range(0, 4 * w * h);
    assert(codes.to_set().subset_of(range)) by {
        assert forall|c: int| codes.to_set().contains(c) implies range.contains(c) by {
            let k = choose|k: int| 0 <= k < codes.len() && codes[k] == c;
            lemma_state_code_range(rows, states[k]);
        }
    }
    vstd::set_lib::lemma_int_range(0, 4 * w * h);
    vstd::set_lib::lemma_len_subset(codes.to_set(), range);
}

/// Once the agent has left the grid it stays out: the trace is `None` from
/// the first exit on.
pub proof fn lemma_none_stays(rows: Seq<Seq<Cell>>, s0: AgentState, m: nat, n: nat)
    requires
        nth_state(rows, s0, m) is None,
        m <= n,
    ensures
        nth_state(rows, s0, n) is None,
    decreases n - m,
{
    if n > m {
        lemma_none_stays(rows, s0, m, (n - 1) as nat);
    }
}

/// The trace from step `i` onward is the trace started at the state reached
/// at step `i`.
pub proof fn lemma_trace_shift(
    rows: Seq<Seq<Cell>>,
    s0: AgentState,
    mid: AgentState,
    i: nat,
    t: nat,
)
    requires
        nth_state(rows, s0, i) == Some(mid),
    ensures
        nth_state(rows, s0, (i + t) as nat) == nth_state(rows, mid, t),
    decreases t,
{
    if t > 0 {
        lemma_trace_shift(rows, s0, mid, i, (t - 1) as nat);
    }
}

/// A repeated state pins the walk in a cycle: the trace is `Some` at every
/// step, so the run never exits.
pub proof fn lemma_cycle_runs_forever(
    rows: Seq<Seq<Cell>>,
    s0: AgentState,
    i: nat,
    j: nat,
    n: nat,
)
    requires
        i < j,
        nth_state(rows, s0, i) is Some,
        nth_state(rows, s0, i) == nth_state(rows, s0, j),
    ensures
        nth_state(rows, s0, n) is Some,
    decreases n,
{
    if n <= j {
        if nth_state(rows, s0, n) is None {
            lemma_none_stays(rows, s0, n, j);
        }
    } else {
        let mid = nth_state(rows, s0, i)->0;
        lemma_trace_shift(rows, s0, mid, i, (n - j) as nat);
        lemma_trace_shift(rows, s0, mid, j, (n - j) as nat);
        assert(i + (n - j) < n);
        lemma_cycle_runs_forever(rows, s0, i, j, (i + n - j) as nat);
    }
}

/// Every state the trace reaches lies inside the grid.
pub proof fn lemma_nth_in_bounds(rows: Seq<Seq<Cell>>, s0: AgentState, n: nat)
    requires
        rows_wf(rows),
        state_in(rows, s0),
        nth_state(rows, s0, n) is Some,
    ensures
        state_in(rows, nth_state(rows, s0, n)->0),
    decreases n,
{
    if n > 0 {
        assert(nth_state(rows, s0, (n - 1) as nat) is Some);
        lemma_nth_in_bounds(rows, s0, (n - 1) as nat);
    }
}

/// The agent never revisits a (position, heading) state before exiting or
/// repeating: every repetition-free prefix of the trace holds at most
/// `4 * width * height` states, so the visited set is bounded by that count.
pub proof fn lemma_trace_prefix_bound(rows: Seq<Seq<Cell>>, s0: AgentState, n: nat)
    requires
        rows_wf(rows),
        state_in(rows, s0),
        forall|k: nat| k < n ==> (#[trigger] nth_state(rows, s0, k)) is Some,
        forall|k1: nat, k2: nat|
            k1 < k2 < n ==> #[trigger] nth_state(rows, s0, k1) != #[trigger] nth_state(
                rows,
                s0,
                k2,
            ),
    ensures
        n <= 4 * grid_width(rows) * grid_height(rows),
{
    let sts = Seq::new(n, |k: int| nth_state(rows, s0, k as nat)->0);
    assert forall|k: int| 0 <= k < sts.len() implies state_in(rows, #[trigger] sts[k]) by {
        assert(nth_state(rows, s0, k as nat) is Some);
        lemma_nth_in_bounds(rows, s0, k as nat);
    }
    assert(sts.no_duplicates()) by {
        assert forall|i: int, j: int|
            0 <= i < sts.len() && 0 <= j < sts.len() && i != j implies sts[i] != sts[j] by {
            let a = if i < j {
                i
            } else {
                j
            };
            let b = if i < j {
                j
            } else {
                i
            };
            assert(nth_state(rows, s0, a as nat) != nth_state(rows, s0, b as nat));
            assert(nth_state(rows, s0, a as nat) is Some);
            assert(nth_state(rows, s0, b as nat) is Some);
        }
    }
    lemma_states_bound(rows, sts);
}

/// Determinism: grids with the same cells and the same agent produce the
/// same classification and the same visited positions, so parsing identical
/// text twice reproduces both results.
pub proof fn lemma_run_deterministic(g1: Grid, g2: Grid)
    requires
        g1.rows() == g2.rows(),
        g1.agent == g2.agent,
        g1.agent is Some,
    ensures
        run_exits(g1.rows(), g1.agent->0) == run_exits(g2.rows(), g2.agent->0),
        visited_set(g1.rows(), g1.agent->0) == visited_set(g2.rows(), g2.agent->0),
{
}

impl Grid {
    /// The agent's current position, `None` once it has left the grid.
    pub fn guard_location(&self) -> (r: Option<Pos>)
        ensures
            r == (match self.agent {
                Some(s) => Some(s.pos),
                None => None::<Pos>,
            }),
    {
        match self.agent {
            Some(s) => Some(s.pos),
            None => None,
        }
    }

    /// Whether the integer coordinates lie outside the grid.
    pub fn out_of_bounds(&self, x: i64, y: i64) -> (r: bool)
        requires
            self.wf(),
        ensures
            r == !(0 <= x < grid_width(self.rows()) && 0 <= y < grid_height(self.rows())),
    {
        if x < 0 || y < 0 {
            return true;
        }
        let h = self.cells.len();
        let w = self.cells[0].len();
        proof {
            assert(self.rows()[0] == self.cells@[0]@);
            assert(grid_width(self.rows()) == w as int);
            assert(grid_height(self.rows()) == h as int);
        }
        let r = (x as u64) >= (w as u64) || (y as u64) >= (h as u64);
        proof {
            assert((x as u64) as int == x as int);
            assert((y as u64) as int == y as int);
            assert((w as u64) as int == w as int);
            assert((h as u64) as int == h as int);
        }
        r
    }

    /// An independent copy of the grid.
    pub fn duplicate(&self) -> (g: Grid)
        ensures
            g.rows() == self.rows(),
            g.agent == self.agent,
    {
        let n = self.cells.len();
        let mut cells: Vec<Vec<Cell>> = Vec::new();
        let mut y: usize = 0;
        while y < n
            invariant
                y <= n,
                n == self.cells.len(),
                cells@.len() == y,
                forall|y2: int| 0 <= y2 < y ==> #[trigger] cells@[y2]@ == self.rows()[y2],
            decreases n - y,
        {
            let row = &self.cells[y];
            let m = row.len();
            let mut out: Vec<Cell> = Vec::new();
            let mut x: usize = 0;
            while x < m
                invariant
                    x <= m,
                    m == row@.len(),
                    out@ =~= row@.take(x as int),
                decreases m - x,
            {
                out.push(row[x]);
                x += 1;
            }
            proof {
                assert(out@ =~= row@);
                assert(self.rows()[y as int] == row@);
            }
            cells.push(out);
            y += 1;
        }
        let g = Grid { cells, agent: self.agent };
        proof {
            assert(g.rows() =~= self.rows());
        }
        g
    }

    /// Promotes the cell at `at` to an obstruction, unless the agent itself
    /// stands there, in which case nothing changes and `false` comes back.
    pub fn obstruct(&mut self, at: Pos) -> (r: bool)
        requires
            old(self).wf(),
            old(self).agent is Some,
            pos_in(old(self).rows(), at),
        ensures
            final(self).wf(),
            final(self).agent == old(self).agent,
            r == (at != old(self).agent->0.pos),
            r ==> final(self).rows() == obstructed(old(self).rows(), at),
            !r ==> final(self).rows() == old(self).rows(),
    {
        let guard = match self.agent {
            Some(s) => s,
            None => {
                proof {
                    assert(false);
                }
                return false;
            },
        };
        if at.x == guard.pos.x && at.y == guard.pos.y {
            return false;
        }
        let row = &self.cells[at.y];
        let m = row.len();
        proof {
            assert(row@ == old(self).rows()[at.y as int]);
            assert(old(self).rows()[at.y as int].len() == old(self).rows()[0].len());
        }
        let mut out: Vec<Cell> = Vec::new();
        let mut x: usize = 0;
        while x < m
            invariant
                x <= m,
                row@ == old(self).rows()[at.y as int],
                m == row@.len(),
                at.x < m,
                out@.len() == x,
                forall|x2: int|
                    0 <= x2 < x ==> #[trigger] out@[x2] == (if x2 == at.x as int {
                        Cell::Obstruction
                    } else {
                        row@[x2]
                    }),
            decreases m - x,
        {
            if x == at.x {
                out.push(Cell::Obstruction);
            } else {
                out.push(row[x]);
            }
            x += 1;
        }
        proof {
            assert(out@ =~= old(self).rows()[at.y as int].update(at.x as int, Cell::Obstruction));
        }
        self.cells[at.y] = out;
        proof {
            let newr = self.rows();
            let oldr = old(self).rows();
            assert(newr =~= obstructed(oldr, at));
            assert forall|y2: int| 0 <= y2 < newr.len() implies #[trigger] newr[y2].len()
                == newr[0].len() by {
                assert(oldr[y2].len() == oldr[0].len());
                assert(oldr[0].len() == oldr[0].len());
            }
            assert(rows_wf(newr));
        }
        true
    }

    /// Advances the simulation by one step: moves the agent one cell along
    /// its heading, rotates it clockwise in front of an obstruction, or
    /// clears it once the cell ahead lies outside the grid.
    pub fn tick(&mut self) -> (r: Step)
        requires
            old(self).wf(),
            old(self).agent is Some,
        ensures
            final(self).wf(),
            final(self).rows() == old(self).rows(),
            final(self).agent == next_state(old(self).rows(), old(self).agent->0),
            r == step_kind(old(self).rows(), old(self).agent->0),
    {
        let st = match self.agent {
            Some(s) => s,
            None => {
                proof {
                    assert(false);
                }
                return Step::Exited;
            },
        };
        let h = self.cells.len();
        let w = self.cells[0].len();
        let mut exited = false;
        let mut nx: usize = 0;
        let mut ny: usize = 0;
        match st.heading {
            Heading::Up => {
                if st.pos.y == 0 {
                    exited = true;
                } else {
                    nx = st.pos.x;
                    ny = st.pos.y - 1;
                }
            },
            Heading::Down => {
                if st.pos.y + 1 >= h {
                    exited = true;
                } else {
                    nx = st.pos.x;
                    ny = st.pos.y + 1;
                }
            },
            Heading::Left => {
                if st.pos.x == 0 {
                    exited = true;
                } else {
                    nx = st.pos.x - 1;
                    ny = st.pos.y;
                }
            },
            Heading::Right => {
                if st.pos.x + 1 >= w {
                    exited = true;
                } else {
                    nx = st.pos.x + 1;
                    ny = st.pos.y;
                }
            },
        }
        if exited {
            self.agent = None;
            return Step::Exited;
        }
        proof {
            assert(nx as int == ahead_x(st) && ny as int == ahead_y(st));
        }
        let row = &self.cells[ny];
        let is_blocked = match row[nx] {
            Cell::Obstruction => true,
            Cell::Empty => false,
        };
        if is_blocked {
            let turned = match st.heading {
                Heading::Up => Heading::Right,
                Heading::Right => Heading::Down,
                Heading::Down => Heading::Left,
                Heading::Left => Heading::Up,
            };
            self.agent = Some(AgentState { pos: st.pos, heading: turned });
            Step::Rotated
        } else {
            self.agent = Some(AgentState { pos: Pos { x: nx, y: ny }, heading: st.heading });
            Step::Moved
        }
    }

    /// Drives `tick` until the agent either leaves the grid or revisits an
    /// agent state.  Returns the distinct positions visited on exit, or
    /// `None` when a state repeated, which pins the walk in a cycle forever.
    pub fn run_until_stuck_or_out_of_bounds(&mut self) -> (r: Option<Vec<Pos>>)
        requires
            old(self).wf(),
            old(self).agent is Some,
        ensures
            final(self).wf(),
            final(self).rows() == old(self).rows(),
            r is Some <==> run_exits(old(self).rows(), old(self).agent->0),
            r matches Some(v) ==> {
                &&& final(self).agent is None
                &&& v@.no_duplicates()
                &&& v@.to_set() == visited_set(old(self).rows(), old(self).agent->0)
                &&& v@.len() == visited_set(old(self).rows(), old(self).agent->0).len()
            },
            r is None ==> final(self).agent is Some,
    {
        let ghost rows = self.rows();
        let ghost s0 = self.agent->0;
        let mut states: Vec<AgentState> = Vec::new();
        loop
            invariant
                self.wf(),
                rows_wf(rows),
                state_in(rows, s0),
                self.rows() == rows,
                rows == old(self).rows(),
                old(self).agent is Some,
                s0 == old(self).agent->0,
                states@.no_duplicates(),
                states@.len() <= 4 * grid_width(rows) * grid_height(rows),
                forall|k: int|
                    0 <= k < states@.len() ==> nth_state(rows, s0, k as nat) == Some(
                        #[trigger] states@[k],
                    ),
                forall|k: int| 0 <= k < states@.len() ==> state_in(rows, #[trigger] states@[k]),
                self.agent == nth_state(rows, s0, states@.len() as nat),
            decreases 4 * grid_width(rows) * grid_height(rows) - states@.len(),
        {
            let a = self.agent;
            match a {
                None => {
                    proof {
                        assert(nth_state(rows, s0, states@.len() as nat) is None);
                    }
                    let v = distinct_positions(&states);
                    proof {
                        let m = states@.len();
                        assert forall|p: Pos|
                            v@.to_set().contains(p) == visited_set(rows, s0).contains(p) by {
                            if v@.to_set().contains(p) {
                                let k = choose|k: int|
                                    0 <= k < states@.len() && states@[k].pos == p;
                                assert(nth_state(rows, s0, k as nat) matches Some(s) && s.pos
                                    == p);
                                assert(visits_pos(rows, s0, p));
                            }
                            if visited_set(rows, s0).contains(p) {
                                let n = choose|n: nat|
                                    (#[trigger] nth_state(rows, s0, n)) matches Some(s) && s.pos
                                        == p;
                                if n >= m {
                                    lemma_none_stays(rows, s0, m as nat, n);
                                    assert(false);
                                }
                                assert(states@[n as int].pos == p);
                                assert(v@.contains(p));
                            }
                        }
                        assert(v@.to_set() =~= visited_set(rows, s0));
                        v@.unique_seq_to_set();
                    }
                    return Some(v);
                },
                Some(st) => {
                    if contains_state(&states, st) {
                        proof {
                            let k = choose|k: int|
                                0 <= k < states@.len() && states@[k] == st;
                            assert(nth_state(rows, s0, k as nat) == Some(st));
                            assert(nth_state(rows, s0, states@.len() as nat) == Some(st));
                            assert forall|n: nat| nth_state(rows, s0, n) is Some by {
                                lemma_cycle_runs_forever(
                                    rows,
                                    s0,
                                    k as nat,
                                    states@.len() as nat,
                                    n,
                                );
                            }
                            assert(!run_exits(rows, s0));
                        }
                        return None;
                    }
                    let ghost old_states = states@;
                    states.push(st);
                    proof {
                        assert forall|i: int, j: int|
                            0 <= i < states@.len() && 0 <= j < states@.len() && i
                                != j implies states@[i] != states@[j] by {
                            if i < old_states.len() && j < old_states.len() {
                                assert(old_states[i] == states@[i] && old_states[j] == states@[j]);
                            } else if j == old_states.len() {
                                assert(!old_states.contains(st));
                                assert(states@[i] == old_states[i]);
                            } else {
                                assert(!old_states.contains(st));
                                assert(states@[j] == old_states[j]);
                            }
                        }
                        assert(states@.no_duplicates());
                        lemma_states_bound(rows, states@);
                    }
                    self.tick();
                    proof {
                        assert(nth_state(rows, s0, states@.len() as nat) == next_state(rows, st));
                    }
                },
            }
        }
    }
}

/// Whether the collection already holds this agent state.
fn contains_state(states: &Vec<AgentState>, st: AgentState) -> (r: bool)
    ensures
        r == states@.contains(st),
{
    let mut i: usize = 0;
    while i < states.len()
        invariant
            i <= states@.len(),
            forall|k: int| 0 <= k < i ==> states@[k] != st,
        decreases states@.len() - i,
    {
        if states[i] == st {
            return true;
        }
        i += 1;
    }
    false
}

/// Whether the collection already holds this position.
fn contains_pos(ps: &Vec<Pos>, p: Pos) -> (r: bool)
    ensures
        r == ps@.contains(p),
{
    let mut i: usize = 0;
    while i < ps.len()
        invariant
            i <= ps@.len(),
            forall|k: int| 0 <= k < i ==> ps@[k] != p,
        decreases ps@.len() - i,
    {
        if ps[i] == p {
            return true;
        }
        i += 1;
    }
    false
}

/// The distinct positions of a collection of agent states, in first-seen
/// order.
fn distinct_positions(states: &Vec<AgentState>) -> (r: Vec<Pos>)
    ensures
        r@.no_duplicates(),
        forall|p: Pos|
            r@.contains(p) <==> exists|k: int| 0 <= k < states@.len() && (#[trigger] states@[k]).pos
                == p,
{
    broadcast use vstd::seq_lib::lemma_seq_contains_after_push;

    let mut r: Vec<Pos> = Vec::new();
    let mut i: usize = 0;
    while i < states.len()
        invariant
            i <= states@.len(),
            r@.no_duplicates(),
            forall|p: Pos| #[trigger] r@.contains(p) ==> exists|k: int|
                0 <= k < i && (#[trigger] states@[k]).pos == p,
            forall|k: int| 0 <= k < i ==> r@.contains((#[trigger] states@[k]).pos),
        decreases states@.len() - i,
    {
        let p = states[i].pos;
        let ghost old_r = r@;
        if !contains_pos(&r, p) {
            r.push(p);
            proof {
                assert(r@ == old_r.push(p));
                assert(r@.contains(p)) by {
                    assert(r@[old_r.len() as int] == p);
                }
                assert forall|iu: int, ju: int|
                    0 <= iu < r@.len() && 0 <= ju < r@.len() && iu != ju implies r@[iu]
                    != r@[ju] by {
                    if iu < old_r.len() && ju < old_r.len() {
                        assert(old_r[iu] == r@[iu] && old_r[ju] == r@[ju]);
                    } else if ju == old_r.len() {
                        assert(r@[iu] == old_r[iu]);
                        assert(old_r.contains(old_r[iu]));
                    } else {
                        assert(r@[ju] == old_r[ju]);
                        assert(old_r.contains(old_r[ju]));
                    }
                }
                assert forall|q: Pos| #[trigger] r@.contains(q) implies exists|k: int|
                    0 <= k < i + 1 && (#[trigger] states@[k]).pos == q by {
                    if q == p {
                        assert(states@[i as int].pos == q);
                    } else {
                        assert(old_r.contains(q));
                    }
                }
                assert forall|k: int| 0 <= k < i + 1 implies r@.contains(
                    (#[trigger] states@[k]).pos,
                ) by {
                    if k < i {
                        assert(old_r.contains(states@[k].pos));
                        let idx = choose|idx: int|
                            0 <= idx < old_r.len() && old_r[idx] == states@[k].pos;
                        assert(r@[idx] == states@[k].pos);
                        assert(r@.contains(states@[k].pos));
                    } else {
                        assert(states@[k].pos == p);
                    }
                }
            }
        } else {
            proof {
                assert forall|k: int| 0 <= k < i + 1 implies r@.contains(
                    (#[trigger] states@[k]).pos,
                ) by {
                    if k == i {
                        assert(states@[k].pos == p);
                    }
                }
                assert forall|q: Pos| #[trigger] r@.contains(q) implies exists|k: int|
                    0 <= k < i + 1 && (#[trigger] states@[k]).pos == q by {
                    let k = choose|k: int| 0 <= k < i && (#[trigger] states@[k]).pos == q;
                    assert(0 <= k < i + 1 && states@[k].pos == q);
                }
            }
        }
        i += 1;
    }
    proof {
        assert forall|p: Pos|
            r@.contains(p) == (exists|k: int|
                0 <= k < states@.len() && (#[trigger] states@[k]).pos == p) by {
            if exists|k: int| 0 <= k < states@.len() && (#[trigger] states@[k]).pos == p {
                let k = choose|k: int|
                    0 <= k < states@.len() && (#[trigger] states@[k]).pos == p;
                assert(r@.contains(states@[k].pos));
            }
        }
    }
    r
}

/// The rows with the cell at `p` promoted to an obstruction.
pub open spec fn obstructed(rows: Seq<Seq<Cell>>, p: Pos) -> Seq<Seq<Cell>> {
    rows.update(p.y as int, rows[p.y as int].update(p.x as int, Cell::Obstruction))
}

/// A visited position is blocking when it is not the agent's own start and
/// obstructing it makes the run loop instead of exiting.
pub open spec fn blocks(rows: Seq<Seq<Cell>>, s0: AgentState, p: Pos) -> bool {
    p != s0.pos && !run_exits(obstructed(rows, p), s0)
}

/// The candidate positions whose obstruction makes the run loop: by
/// construction a subset of the visited positions, never the start itself.
pub open spec fn blocking_set(rows: Seq<Seq<Cell>>, s0: AgentState) -> Set<Pos> {
    visited_set(rows, s0).filter(|p: Pos| blocks(rows, s0, p))
}

/// How many of the candidates in `ps` are blocking.
pub open spec fn count_blocking(rows: Seq<Seq<Cell>>, s0: AgentState, ps: Seq<Pos>) -> int
    decreases ps.len(),
{
    if ps.len() == 0 {
        0
    } else {
        count_blocking(rows, s0, ps.drop_last()) + if blocks(rows, s0, ps.last()) {
            1int
        } else {
            0int
        }
    }
}

/// Counting blocking candidates in a repetition-free list counts the
/// blocking members of its set.
pub proof fn lemma_count_matches_card(rows: Seq<Seq<Cell>>, s0: AgentState, ps: Seq<Pos>)
    requires
        ps.no_duplicates(),
    ensures
        count_blocking(rows, s0, ps) == Set::new(
            |p: Pos| ps.contains(p) && blocks(rows, s0, p),
        ).len(),
        Set::new(|p: Pos| ps.contains(p) && blocks(rows, s0, p)).finite(),
    decreases ps.len(),
{
    let full = Set::new(|p: Pos| ps.contains(p) && blocks(rows, s0, p));
    if ps.len() == 0 {
        assert(full =~= Set::<Pos>::empty());
    } else {
        let pre = ps.drop_last();
        let q = ps.last();
        assert(pre.no_duplicates());
        lemma_count_matches_card(rows, s0, pre);
        let part = Set::new(|p: Pos| pre.contains(p) && blocks(rows, s0, p));
        assert(!pre.contains(q));
        assert forall|p: Pos| ps.contains(p) == (pre.contains(p) || p == q) by {
            if ps.contains(p) {
                let k = choose|k: int| 0 <= k < ps.len() && ps[k] == p;
                if k < pre.len() {
                    assert(pre[k] == p);
                }
            }
            if pre.contains(p) {
                let k = choose|k: int| 0 <= k < pre.len() && pre[k] == p;
                assert(ps[k] == p);
            }
            if p == q {
                assert(ps[ps.len() - 1] == p);
            }
        }
        if blocks(rows, s0, q) {
            assert(full =~= part.insert(q));
            assert(!part.contains(q));
        } else {
            assert(full =~= part);
        }
    }
}

/// The mutation count is invariant under reordering of the candidates: any
/// two repetition-free arrangements of the same candidate set give the same
/// count.
pub proof fn lemma_count_reorder(
    rows: Seq<Seq<Cell>>,
    s0: AgentState,
    ps1: Seq<Pos>,
    ps2: Seq<Pos>,
)
    requires
        ps1.no_duplicates(),
        ps2.no_duplicates(),
        ps1.to_set() == ps2.to_set(),
    ensures
        count_blocking(rows, s0, ps1) == count_blocking(rows, s0, ps2),
{
    lemma_count_matches_card(rows, s0, ps1);
    lemma_count_matches_card(rows, s0, ps2);
    assert forall|p: Pos| ps1.contains(p) == ps2.contains(p) by {
        assert(ps1.to_set().contains(p) == ps1.contains(p));
        assert(ps2.to_set().contains(p) == ps2.contains(p));
        assert(ps1.to_set().contains(p) == ps2.to_set().contains(p));
    }
    assert(Set::new(|p: Pos| ps1.contains(p) && blocks(rows, s0, p)) =~= Set::new(
        |p: Pos| ps2.contains(p) && blocks(rows, s0, p),
    ));
}

/// The mutation search never counts the agent's own starting position.
pub proof fn lemma_start_not_counted(rows: Seq<Seq<Cell>>, s0: AgentState)
    ensures
        !blocking_set(rows, s0).contains(s0.pos),
{
}

/// The number of distinct positions the unmodified run visits before it
/// leaves the grid.
pub fn star_one(input: &str) -> (r: usize)
    requires
        parse_ok(input@),
        run_exits(grid_rows(input@), start_state(input@)),
    ensures
        r == visited_set(grid_rows(input@), start_state(input@)).len(),
{
    let parsed = Grid::parse(input);
    let mut g = match parsed {
        Ok(g) => g,
        Err(_) => {
            proof {
                assert(false);
            }
            return 0;
        },
    };
    let res = g.run_until_stuck_or_out_of_bounds();
    match res {
        Some(v) => v.len(),
        None => {
            proof {
                assert(false);
            }
            0
        },
    }
}

/// How many single-cell obstructions, chosen among the positions the
/// unmodified run visits, make the run loop instead of exiting.
pub fn star_two(input: &str) -> (r: usize)
    requires
        parse_ok(input@),
        run_exits(grid_rows(input@), start_state(input@)),
    ensures
        r == blocking_set(grid_rows(input@), start_state(input@)).len(),
{
    let parsed = Grid::parse(input);
    let base = match parsed {
        Ok(g) => g,
        Err(_) => {
            proof {
                assert(false);
            }
            return 0;
        },
    };
    let ghost rows = base.rows();
    let ghost s0 = base.agent->0;
    let mut probe = base.duplicate();
    let res = probe.run_until_stuck_or_out_of_bounds();
    let v = match res {
        Some(v) => v,
        None => {
            proof {
                assert(false);
            }
            return 0;
        },
    };
    proof {
        assert forall|k: int| 0 <= k < v@.len() implies pos_in(rows, #[trigger] v@[k]) by {
            assert(v@.to_set().contains(v@[k]));
            assert(visits_pos(rows, s0, v@[k]));
            let n = choose|n: nat|
                (#[trigger] nth_state(rows, s0, n)) matches Some(s) && s.pos == v@[k];
            lemma_nth_in_bounds(rows, s0, n);
        }
    }
    let mut count: usize = 0;
    let mut i: usize = 0;
    proof {
        assert(v@.take(0) =~= Seq::<Pos>::empty());
    }
    while i < v.len()
        invariant
            i <= v@.len(),
            count <= i,
            base.wf(),
            base.rows() == rows,
            base.agent is Some,
            s0 == base.agent->0,
            rows == grid_rows(input@),
            s0 == start_state(input@),
            forall|k: int| 0 <= k < v@.len() ==> pos_in(rows, #[trigger] v@[k]),
            count == count_blocking(rows, s0, v@.take(i as int)),
        decreases v@.len() - i,
    {
        let p = v[i];
        let mut g2 = base.duplicate();
        let mut looped = false;
        if g2.obstruct(p) {
            let outcome = g2.run_until_stuck_or_out_of_bounds();
            if outcome.is_none() {
                looped = true;
            }
            proof {
                assert(g2.rows() == obstructed(rows, p));
                assert(looped == !run_exits(obstructed(rows, p), s0));
                assert(looped == blocks(rows, s0, p));
            }
        } else {
            proof {
                assert(p == s0.pos);
                assert(!blocks(rows, s0, p));
            }
        }
        proof {
            let u = v@.take(i as int + 1);
            assert(u.drop_last() =~= v@.take(i as int));
            assert(u.last() == v@[i as int]);
        }
        if looped {
            count += 1;
        }
        i += 1;
    }
    proof {
        assert(v@.take(v@.len() as int) =~= v@);
        lemma_count_matches_card(rows, s0, v@);
        assert(Set::new(|p: Pos| v@.contains(p) && blocks(rows, s0, p)) =~= blocking_set(
            rows,
            s0,
        )) by {
            assert forall|p: Pos| v@.contains(p) == visited_set(rows, s0).contains(p) by {
                assert(v@.to_set().contains(p) == v@.contains(p));
            }
        }
    }
    count
}

} // verus!
