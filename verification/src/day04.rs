//! A word-search grid: counting every straight spelling of one word in the
//! eight directions, and counting crossed diagonal spellings around a
//! shared centre.
use vstd::prelude::*;

use crate::text;

verus! {

/// The character `c` stands at line `y`, column `x` of the grid.
pub open spec fn char_at_ok(g: Seq<Seq<char>>, y: int, x: int, c: char) -> bool {
    0 <= y < g.len() && 0 <= x < g[y].len() && g[y][x] == c
}

/// The x step of direction `d` (eight compass directions).
pub open spec fn dx_of(d: int) -> int {
    if d == 0 {
        1
    } else if d == 1 {
        -1
    } else if d == 2 {
        0
    } else if d == 3 {
        0
    } else if d == 4 {
        1
    } else if d == 5 {
        1
    } else if d == 6 {
        -1
    } else {
        -1
    }
}

/// The y step of direction `d`.
pub open spec fn dy_of(d: int) -> int {
    if d == 0 {
        0
    } else if d == 1 {
        0
    } else if d == 2 {
        1
    } else if d == 3 {
        -1
    } else if d == 4 {
        1
    } else if d == 5 {
        -1
    } else if d == 6 {
        1
    } else {
        -1
    }
}

/// The word is spelled starting at `(y, x)` along direction `d`.
pub open spec fn xmas_at(g: Seq<Seq<char>>, y: int, x: int, d: int) -> bool {
    &&& char_at_ok(g, y, x, 'X')
    &&& char_at_ok(g, y + dy_of(d), x + dx_of(d), 'M')
    &&& char_at_ok(g, y + 2 * dy_of(d), x + 2 * dx_of(d), 'A')
    &&& char_at_ok(g, y + 3 * dy_of(d), x + 3 * dx_of(d), 'S')
}

/// How many of the first `d` directions spell the word at `(y, x)`.
pub open spec fn count_dirs(g: Seq<Seq<char>>, y: int, x: int, d: int) -> int
    decreases d,
{
    if d <= 0 {
        0
    } else {
        count_dirs(g, y, x, d - 1) + if xmas_at(g, y, x, d - 1) {
            1int
        } else {
            0int
        }
    }
}

/// The spellings found in row `y`, at columns below `x`, all directions.
pub open spec fn count_row(g: Seq<Seq<char>>, y: int, x: int) -> int
    decreases x,
{
    if x <= 0 {
        0
    } else {
        count_row(g, y, x - 1) + count_dirs(g, y, x - 1, 8)
    }
}

/// The spellings found in the rows below `y`.
pub open spec fn count_upto(g: Seq<Seq<char>>, y: int) -> int
    decreases y,
{
    if y <= 0 {
        0
    } else {
        count_upto(g, y - 1) + count_row(g, y - 1, g[y - 1].len() as int)
    }
}

/// Every straight spelling of the word in the grid, over all starting cells
/// and all eight directions.
pub open spec fn xmas_count(g: Seq<Seq<char>>) -> int {
    count_upto(g, g.len() as int)
}

/// A diagonal `M`-`A`-`S` ray starting at `(y, x)` with step `(sy, sx)`.
pub open spec fn mas_ray(g: Seq<Seq<char>>, y: int, x: int, sy: int, sx: int) -> bool {
    &&& char_at_ok(g, y, x, 'M')
    &&& char_at_ok(g, y + sy, x + sx, 'A')
    &&& char_at_ok(g, y + 2 * sy, x + 2 * sx, 'S')
}

/// The number of the four diagonal rays through centre `(y, x)` that spell
/// the word.
pub open spec fn cross_rays(g: Seq<Seq<char>>, y: int, x: int) -> int {
    (if mas_ray(g, y - 1, x - 1, 1, 1) {
        1int
    } else {
        0int
    }) + (if mas_ray(g, y - 1, x + 1, 1, -1) {
        1int
    } else {
        0int
    }) + (if mas_ray(g, y + 1, x + 1, -1, -1) {
        1int
    } else {
        0int
    }) + (if mas_ray(g, y + 1, x - 1, -1, 1) {
        1int
    } else {
        0int
    })
}

/// A crossed spelling: exactly two of the four diagonal rays through the
/// centre spell the word.
pub open spec fn cross_at(g: Seq<Seq<char>>, y: int, x: int) -> bool {
    cross_rays(g, y, x) == 2
}

/// The crossed spellings centred in row `y` below column `x`.
pub open spec fn cross_row(g: Seq<Seq<char>>, y: int, x: int) -> int
    decreases x,
{
    if x <= 0 {
        0
    } else {
        cross_row(g, y, x - 1) + if cross_at(g, y, x - 1) {
            1int
        } else {
            0int
        }
    }
}

/// The crossed spellings centred in the rows below `y`.
pub open spec fn cross_upto(g: Seq<Seq<char>>, y: int) -> int
    decreases y,
{
    if y <= 0 {
        0
    } else {
        cross_upto(g, y - 1) + cross_row(g, y - 1, g[y - 1].len() as int)
    }
}

/// Every crossed spelling in the grid.
pub open spec fn cross_count(g: Seq<Seq<char>>) -> int {
    cross_upto(g, g.len() as int)
}

proof fn lemma_count_dirs_bounds(g: Seq<Seq<char>>, y: int, x: int, d: int)
    ensures
        0 <= count_dirs(g, y, x, d) <= (if d >= 0 {
            d
        } else {
            0
        }),
    decreases d,
{
    if d > 0 {
        lemma_count_dirs_bounds(g, y, x, d - 1);
    }
}

proof fn lemma_count_dirs_monotone(g: Seq<Seq<char>>, y: int, x: int, d1: int, d2: int)
    requires
        d1 <= d2,
    ensures
        count_dirs(g, y, x, d1) <= count_dirs(g, y, x, d2),
    decreases d2 - d1,
{
    if d1 < d2 {
        lemma_count_dirs_monotone(g, y, x, d1, d2 - 1);
    }
}

proof fn lemma_count_row_monotone(g: Seq<Seq<char>>, y: int, x1: int, x2: int)
    requires
        x1 <= x2,
    ensures
        count_row(g, y, x1) <= count_row(g, y, x2),
        count_row(g, y, x1) >= 0,
    decreases x2 - x1, x1,
{
    if x1 < x2 {
        lemma_count_row_monotone(g, y, x1, x2 - 1);
        lemma_count_dirs_bounds(g, y, x2 - 1, 8);
    } else if x1 > 0 {
        lemma_count_row_monotone(g, y, x1 - 1, x1 - 1);
        lemma_count_dirs_bounds(g, y, x1 - 1, 8);
    }
}

proof fn lemma_count_upto_monotone(g: Seq<Seq<char>>, y1: int, y2: int)
    requires
        y1 <= y2,
    ensures
        count_upto(g, y1) <= count_upto(g, y2),
        count_upto(g, y1) >= 0,
    decreases y2 - y1, y1,
{
    if y1 < y2 {
        lemma_count_upto_monotone(g, y1, y2 - 1);
        lemma_count_row_monotone(g, y2 - 1, 0, g[y2 - 1].len() as int);
    } else if y1 > 0 {
        lemma_count_upto_monotone(g, y1 - 1, y1 - 1);
        lemma_count_row_monotone(g, y1 - 1, 0, g[y1 - 1].len() as int);
    }
}

proof fn lemma_cross_row_monotone(g: Seq<Seq<char>>, y: int, x1: int, x2: int)
    requires
        x1 <= x2,
    ensures
        cross_row(g, y, x1) <= cross_row(g, y, x2),
        cross_row(g, y, x1) >= 0,
    decreases x2 - x1, x1,
{
    if x1 < x2 {
        lemma_cross_row_monotone(g, y, x1, x2 - 1);
    } else if x1 > 0 {
        lemma_cross_row_monotone(g, y, x1 - 1, x1 - 1);
    }
}

proof fn lemma_cross_upto_monotone(g: Seq<Seq<char>>, y1: int, y2: int)
    requires
        y1 <= y2,
    ensures
        cross_upto(g, y1) <= cross_upto(g, y2),
        cross_upto(g, y1) >= 0,
    decreases y2 - y1, y1,
{
    if y1 < y2 {
        lemma_cross_upto_monotone(g, y1, y2 - 1);
        lemma_cross_row_monotone(g, y2 - 1, 0, g[y2 - 1].len() as int);
    } else if y1 > 0 {
        lemma_cross_upto_monotone(g, y1 - 1, y1 - 1);
        lemma_cross_row_monotone(g, y1 - 1, 0, g[y1 - 1].len() as int);
    }
}

/// Whether character `c` stands at the (possibly out-of-range) coordinates.
fn char_is(
    lines: &Vec<Vec<char>>,
    Ghost(sl): Ghost<Seq<Seq<char>>>,
    y: i128,
    x: i128,
    c: char,
) -> (r: bool)
    requires
        text::views(lines@) == sl,
    ensures
        r == char_at_ok(sl, y as int, x as int, c),
{
    if y < 0 || x < 0 {
        return false;
    }
    if y >= lines.len() as i128 {
        return false;
    }
    let yy = y as usize;
    let row = &lines[yy];
    proof {
        assert(row@ == sl[y as int]);
    }
    if x >= row.len() as i128 {
        return false;
    }
    let xx = x as usize;
    row[xx] == c
}

/// Whether the word is spelled at `(y, x)` along direction `d`.
fn xmas_check(
    lines: &Vec<Vec<char>>,
    Ghost(sl): Ghost<Seq<Seq<char>>>,
    y: usize,
    x: usize,
    d: usize,
) -> (r: bool)
    requires
        text::views(lines@) == sl,
        d < 8,
    ensures
        r == xmas_at(sl, y as int, x as int, d as int),
{
    let (sx, sy): (i128, i128) = match d {
        0 => (1, 0),
        1 => (-1, 0),
        2 => (0, 1),
        3 => (0, -1),
        4 => (1, 1),
        5 => (1, -1),
        6 => (-1, 1),
        _ => (-1, -1),
    };
    proof {
        assert(sx as int == dx_of(d as int) && sy as int == dy_of(d as int));
    }
    let yy = y as i128;
    let xx = x as i128;
    char_is(lines, Ghost(sl), yy, xx, 'X') && char_is(lines, Ghost(sl), yy + sy, xx + sx, 'M')
        && char_is(lines, Ghost(sl), yy + 2 * sy, xx + 2 * sx, 'A') && char_is(
        lines,
        Ghost(sl),
        yy + 3 * sy,
        xx + 3 * sx,
        'S',
    )
}

/// Counts every straight spelling of the word, over all cells and all eight
/// directions.
pub fn star_one(input: &str) -> (r: usize)
    requires
        xmas_count(text::clean_lines(input@)) <= usize::MAX,
    ensures
        r as int == xmas_count(text::clean_lines(input@)),
{
    let cs = text::chars_of(input);
    let lines = text::clean_lines_of(&cs);
    let ghost sl = text::clean_lines(input@);
    let n = lines.len();
    let mut count: usize = 0;
    let mut y: usize = 0;
    while y < n
        invariant
            y <= n,
            n == lines.len(),
            sl == text::clean_lines(input@),
            text::views(lines@) == sl,
            xmas_count(sl) <= usize::MAX,
            count as int == count_upto(sl, y as int),
        decreases n - y,
    {
        let m = lines[y].len();
        proof {
            assert(lines@[y as int]@ == sl[y as int]);
        }
        let mut x: usize = 0;
        while x < m
            invariant
                x <= m,
                y < n,
                n == lines.len(),
                sl == text::clean_lines(input@),
                text::views(lines@) == sl,
                m == sl[y as int].len(),
                xmas_count(sl) <= usize::MAX,
                count as int == count_upto(sl, y as int) + count_row(sl, y as int, x as int),
            decreases m - x,
        {
            let mut d: usize = 0;
            while d < 8
                invariant
                    d <= 8,
                    y < n,
                    x < m,
                    n == lines.len(),
                    sl == text::clean_lines(input@),
                    text::views(lines@) == sl,
                    m == sl[y as int].len(),
                    xmas_count(sl) <= usize::MAX,
                    count as int == count_upto(sl, y as int) + count_row(sl, y as int, x as int)
                        + count_dirs(sl, y as int, x as int, d as int),
                decreases 8 - d,
            {
                let hit = xmas_check(&lines, Ghost(sl), y, x, d);
                proof {
                    lemma_count_upto_monotone(sl, y as int + 1, sl.len() as int);
                    lemma_count_upto_monotone(sl, y as int, y as int);
                    lemma_count_row_monotone(sl, y as int, x as int + 1, sl[y as int].len() as int);
                    lemma_count_dirs_bounds(sl, y as int, x as int, d as int + 1);
                    lemma_count_dirs_bounds(sl, y as int, x as int, 8);
                    lemma_count_dirs_monotone(sl, y as int, x as int, d as int + 1, 8);
                    assert(count_upto(sl, y as int + 1) == count_upto(sl, y as int) + count_row(
                        sl,
                        y as int,
                        sl[y as int].len() as int,
                    ));
                    assert(count_row(sl, y as int, x as int + 1) == count_row(sl, y as int, x as int)
                        + count_dirs(sl, y as int, x as int, 8));
                }
                if hit {
                    count += 1;
                }
                d += 1;
            }
            x += 1;
        }
        proof {
            assert(count_upto(sl, y as int + 1) == count_upto(sl, y as int) + count_row(
                sl,
                y as int,
                sl[y as int].len() as int,
            ));
        }
        y += 1;
    }
    count
}

/// Counts every crossed spelling: centres where exactly two diagonal rays
/// spell the word.
pub fn star_two(input: &str) -> (r: usize)
    requires
        cross_count(text::clean_lines(input@)) <= usize::MAX,
    ensures
        r as int == cross_count(text::clean_lines(input@)),
{
    let cs = text::chars_of(input);
    let lines = text::clean_lines_of(&cs);
    let ghost sl = text::clean_lines(input@);
    let n = lines.len();
    let mut count: usize = 0;
    let mut y: usize = 0;
    while y < n
        invariant
            y <= n,
            n == lines.len(),
            sl == text::clean_lines(input@),
            text::views(lines@) == sl,
            cross_count(sl) <= usize::MAX,
            count as int == cross_upto(sl, y as int),
        decreases n - y,
    {
        let m = lines[y].len();
        proof {
            assert(lines@[y as int]@ == sl[y as int]);
        }
        let mut x: usize = 0;
        while x < m
            invariant
                x <= m,
                y < n,
                n == lines.len(),
                sl == text::clean_lines(input@),
                text::views(lines@) == sl,
                m == sl[y as int].len(),
                cross_count(sl) <= usize::MAX,
                count as int == cross_upto(sl, y as int) + cross_row(sl, y as int, x as int),
            decreases m - x,
        {
            let yy = y as i128;
            let xx = x as i128;
            let b1 = char_is(&lines, Ghost(sl), yy - 1, xx - 1, 'M') && char_is(
                &lines,
                Ghost(sl),
                yy,
                xx,
                'A',
            ) && char_is(&lines, Ghost(sl), yy + 1, xx + 1, 'S');
            let b2 = char_is(&lines, Ghost(sl), yy - 1, xx + 1, 'M') && char_is(
                &lines,
                Ghost(sl),
                yy,
                xx,
                'A',
            ) && char_is(&lines, Ghost(sl), yy + 1, xx - 1, 'S');
            let b3 = char_is(&lines, Ghost(sl), yy + 1, xx + 1, 'M') && char_is(
                &lines,
                Ghost(sl),
                yy,
                xx,
                'A',
            ) && char_is(&lines, Ghost(sl), yy - 1, xx - 1, 'S');
            let b4 = char_is(&lines, Ghost(sl), yy + 1, xx - 1, 'M') && char_is(
                &lines,
                Ghost(sl),
                yy,
                xx,
                'A',
            ) && char_is(&lines, Ghost(sl), yy - 1, xx + 1, 'S');
            let mut rays: usize = 0;
            if b1 {
                rays += 1;
            }
            if b2 {
                rays += 1;
            }
            if b3 {
                rays += 1;
            }
            if b4 {
                rays += 1;
            }
            proof {
                assert(b1 == mas_ray(sl, y as int - 1, x as int - 1, 1, 1));
                assert(b2 == mas_ray(sl, y as int - 1, x as int + 1, 1, -1));
                assert(b3 == mas_ray(sl, y as int + 1, x as int + 1, -1, -1));
                assert(b4 == mas_ray(sl, y as int + 1, x as int - 1, -1, 1));
                assert((rays == 2) == cross_at(sl, y as int, x as int));
                lemma_cross_upto_monotone(sl, y as int + 1, sl.len() as int);
                lemma_cross_upto_monotone(sl, y as int, y as int);
                lemma_cross_row_monotone(sl, y as int, x as int + 1, sl[y as int].len() as int);
                assert(cross_upto(sl, y as int + 1) == cross_upto(sl, y as int) + cross_row(
                    sl,
                    y as int,
                    sl[y as int].len() as int,
                ));
                assert(cross_row(sl, y as int, x as int + 1) == cross_row(sl, y as int, x as int)
                    + (if cross_at(sl, y as int, x as int) {
                    1int
                } else {
                    0int
                }));
            }
            if rays == 2 {
                count += 1;
            }
            x += 1;
        }
        proof {
            assert(cross_upto(sl, y as int + 1) == cross_upto(sl, y as int) + cross_row(
                sl,
                y as int,
                sl[y as int].len() as int,
            ));
        }
        y += 1;
    }
    count
}

} // verus!
