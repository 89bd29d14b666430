//! Antennas on a grid, marked by frequency characters.  Every ordered pair
//! of same-frequency antennas casts antinodes along the line through the
//! pair; the puzzle counts the distinct in-bounds antinodes, once for the
//! single mirror point per pair and once for the whole ray.
use vstd::prelude::*;

use crate::text;

verus! {

/// The antennas of one line, scanned left to right: every cell that is not
/// the empty marker, as `(x, y, frequency)`.
pub open spec fn row_ants(line: Seq<char>, y: int) -> Seq<(int, int, char)>
    decreases line.len(),
{
    if line.len() == 0 {
        Seq::empty()
    } else {
        row_ants(line.drop_last(), y) + if line.last() != '.' {
            seq![(line.len() - 1, y, line.last())]
        } else {
            Seq::empty()
        }
    }
}

/// The antennas of the first `n` lines, scanned row-major.
pub open spec fn ants_upto(lines: Seq<Seq<char>>, n: int) -> Seq<(int, int, char)>
    decreases n,
{
    if n <= 0 {
        Seq::empty()
    } else {
        ants_upto(lines, n - 1) + row_ants(lines[n - 1], n - 1)
    }
}

/// Every antenna of the grid.
pub open spec fn ants_of(lines: Seq<Seq<char>>) -> Seq<(int, int, char)> {
    ants_upto(lines, lines.len() as int)
}

/// The largest column index over all lines.
pub open spec fn max_x(lines: Seq<Seq<char>>) -> int
    decreases lines.len(),
{
    if lines.len() == 0 {
        0
    } else {
        let m = max_x(lines.drop_last());
        let w = lines.last().len() - 1;
        if w > m {
            w
        } else {
            m
        }
    }
}

/// The largest row index.
pub open spec fn max_y(lines: Seq<Seq<char>>) -> int {
    if lines.len() == 0 {
        0
    } else {
        lines.len() - 1
    }
}

/// Which ray points count: the single mirror point per pair under a limit
/// of one, or every point of the ray including the antenna itself.
pub open spec fn k_ok(limit: Option<u64>, k: int) -> bool {
    match limit {
        None => k >= 0,
        Some(l) => 1 <= k <= l,
    }
}

/// Antenna pair `(i, j)` casts an antinode at `p`, `k` steps beyond
/// antenna `i` along the line from antenna `j`.
pub open spec fn hit(
    ants: Seq<(int, int, char)>,
    maxx: int,
    maxy: int,
    i: int,
    j: int,
    k: int,
    p: (int, int),
    limit: Option<u64>,
) -> bool {
    &&& 0 <= i < ants.len()
    &&& 0 <= j < ants.len()
    &&& i != j
    &&& ants[i].2 == ants[j].2
    &&& k_ok(limit, k)
    &&& p.0 == ants[i].0 + k * (ants[i].0 - ants[j].0)
    &&& p.1 == ants[i].1 + k * (ants[i].1 - ants[j].1)
    &&& 0 <= p.0 <= maxx
    &&& 0 <= p.1 <= maxy
}

/// The distinct in-bounds antinodes cast by all same-frequency pairs.
pub open spec fn antinode_set(
    ants: Seq<(int, int, char)>,
    maxx: int,
    maxy: int,
    limit: Option<u64>,
) -> Set<(int, int)> {
    Set::new(|p: (int, int)| exists|i: int, j: int, k: int| hit(ants, maxx, maxy, i, j, k, p, limit))
}

/// The values of the antenna vector.
pub open spec fn aview(s: Seq<(i64, i64, char)>) -> Seq<(int, int, char)> {
    s.map_values(|a: (i64, i64, char)| (a.0 as int, a.1 as int, a.2))
}

/// The values of the antinode vector.
pub open spec fn pview(s: Seq<(i64, i64)>) -> Seq<(int, int)> {
    s.map_values(|p: (i64, i64)| (p.0 as int, p.1 as int))
}

/// The grid: its extent and its antennas in row-major order.
pub struct Grid {
    pub maxx: i64,
    pub maxy: i64,
    pub ants: Vec<(i64, i64, char)>,
}

impl Grid {
    /// Coordinates bounded by a comfortable margin, antennas in bounds, and
    /// no two antennas on the same cell.
    pub open spec fn wf(&self) -> bool {
        &&& 0 <= self.maxx <= 0x8000_0000
        &&& 0 <= self.maxy <= 0x8000_0000
        &&& (forall|i: int|
            0 <= i < self.ants@.len() ==> {
                let a = #[trigger] aview(self.ants@)[i];
                0 <= a.0 <= self.maxx && 0 <= a.1 <= self.maxy
            })
        &&& (forall|i: int, j: int|
            0 <= i < self.ants@.len() && 0 <= j < self.ants@.len() && i != j ==> !((
            #[trigger] aview(self.ants@)[i]).0 == (#[trigger] aview(self.ants@)[j]).0 && aview(
                self.ants@,
            )[i].1 == aview(self.ants@)[j].1))
    }

    /// Whether the coordinates lie on the grid.
    pub fn in_bounds(&self, x: i64, y: i64) -> (r: bool)
        ensures
            r == (0 <= x <= self.maxx && 0 <= y <= self.maxy),
    {
        0 <= x && x <= self.maxx && 0 <= y && y <= self.maxy
    }
}

/// The `k`-th point beyond `(ax, ay)` on the ray away from `(bx, by)`.
pub fn anti_node(ax: i64, ay: i64, bx: i64, by: i64, k: u64) -> (r: (i64, i64))
    requires
        -0x8000_0000 <= ax <= 0x8000_0000,
        -0x8000_0000 <= ay <= 0x8000_0000,
        -0x8000_0000 <= bx <= 0x8000_0000,
        -0x8000_0000 <= by <= 0x8000_0000,
        k <= 0x2000_0000,
    ensures
        r.0 as int == ax + k * (ax - bx),
        r.1 as int == ay + k * (ay - by),
{
    let dx: i64 = ax - bx;
    let dy: i64 = ay - by;
    proof {
        assert((k as int) * (dx as int) <= 0x2000_0000i64 * 0x1_0000_0000i64
            && (k as int) * (dx as int) >= -(0x2000_0000i64 * 0x1_0000_0000i64)
            && (k as int) * (dy as int) <= 0x2000_0000i64 * 0x1_0000_0000i64
            && (k as int) * (dy as int) >= -(0x2000_0000i64 * 0x1_0000_0000i64))
            by (nonlinear_arith)
            requires
                0 <= k <= 0x2000_0000,
                -0x1_0000_0000i64 <= dx <= 0x1_0000_0000i64,
                -0x1_0000_0000i64 <= dy <= 0x1_0000_0000i64,
        ;
    }
    let px: i64 = ((ax as i128) + (k as i128) * (dx as i128)) as i64;
    let py: i64 = ((ay as i128) + (k as i128) * (dy as i128)) as i64;
    proof {
        assert((ax as i128) + (k as i128) * (dx as i128) == ax + k * (dx as int));
        assert((ay as i128) + (k as i128) * (dy as i128) == ay + k * (dy as int));
        assert(-(0x7FFF_FFFF_FFFF_FFFFi128) <= (ax as i128) + (k as i128) * (dx as i128)
            <= 0x7FFF_FFFF_FFFF_FFFFi128);
        assert(-(0x7FFF_FFFF_FFFF_FFFFi128) <= (ay as i128) + (k as i128) * (dy as i128)
            <= 0x7FFF_FFFF_FFFF_FFFFi128);
    }
    (px, py)
}

/// A ray point in bounds pins every earlier ray point in bounds: each
/// coordinate moves monotonically along the ray.
proof fn lemma_ray_prefix(a: int, d: int, m: int, k: int, k2: int)
    requires
        0 <= a <= m,
        0 <= a + k * d <= m,
        0 <= k2 <= k,
    ensures
        0 <= a + k2 * d <= m,
{
    if d >= 0 {
        assert(k2 * d <= k * d && 0 <= k2 * d) by (nonlinear_arith)
            requires
                0 <= k2 <= k,
                d >= 0,
        ;
    } else {
        assert(k * d <= k2 * d && k2 * d <= 0) by (nonlinear_arith)
            requires
                0 <= k2 <= k,
                d < 0,
        ;
    }
}

/// A ray with a non-zero step leaves the grid after at most `m` steps.
proof fn lemma_ray_bound(a: int, d: int, m: int, k: int)
    requires
        0 <= a <= m,
        0 <= a + k * d <= m,
        d != 0,
        k >= 0,
    ensures
        k <= m,
{
    if d >= 1 {
        assert(k <= k * d) by (nonlinear_arith)
            requires
                k >= 0,
                d >= 1,
        ;
    } else {
        assert(k <= k * (-d)) by (nonlinear_arith)
            requires
                k >= 0,
                -d >= 1,
        ;
        assert(k * (-d) == -(k * d)) by (nonlinear_arith);
    }
}

/// Whether the collection already holds this point.
fn contains_pt(ps: &Vec<(i64, i64)>, p: (i64, i64)) -> (r: bool)
    ensures
        r == pview(ps@).contains((p.0 as int, p.1 as int)),
{
    let mut i: usize = 0;
    while i < ps.len()
        invariant
            i <= ps@.len(),
            forall|k: int| 0 <= k < i ==> #[trigger] pview(ps@)[k] != (p.0 as int, p.1 as int),
        decreases ps@.len() - i,
    {
        let q = ps[i];
        proof {
            assert(pview(ps@)[i as int] == (ps@[i as int].0 as int, ps@[i as int].1 as int));
        }
        if q.0 == p.0 && q.1 == p.1 {
            proof {
                assert(pview(ps@)[i as int] == (p.0 as int, p.1 as int));
            }
            return true;
        }
        i += 1;
    }
    false
}

impl Grid {
    /// The distinct in-bounds antinodes over all same-frequency antenna
    /// pairs: with `Some(l)`, the first `l` points beyond each pair member;
    /// with `None`, the whole ray from each pair member outward.
    #[verifier::rlimit(80)]
    pub fn unique_antinodes(&self, limit: Option<u64>) -> (r: Vec<(i64, i64)>)
        requires
            self.wf(),
        ensures
            pview(r@).no_duplicates(),
            pview(r@).to_set() == antinode_set(aview(self.ants@), self.maxx as int, self.maxy as int, limit),
    {
        broadcast use vstd::seq_lib::lemma_seq_contains_after_push;

        let ghost ants = aview(self.ants@);
        let ghost mx = self.maxx as int;
        let ghost my = self.maxy as int;
        let n = self.ants.len();
        let mut out: Vec<(i64, i64)> = Vec::new();
        let mut i: usize = 0;
        while i < n
            invariant
                i <= n,
                n == self.ants@.len(),
                self.wf(),
                ants == aview(self.ants@),
                mx == self.maxx as int,
                my == self.maxy as int,
                pview(out@).no_duplicates(),
                forall|p: (int, int)| #[trigger] pview(out@).contains(p) ==> exists|i2: int, j2: int, k2: int|
                    hit(ants, mx, my, i2, j2, k2, p, limit) && i2 < i as int,
                forall|i2: int, j2: int, k2: int, p: (int, int)|
                    #[trigger] hit(ants, mx, my, i2, j2, k2, p, limit) && i2 < i as int ==> pview(
                        out@,
                    ).contains(p),
            decreases n - i,
        {
            let mut j: usize = 0;
            while j < n
                invariant
                    i < n,
                    j <= n,
                    n == self.ants@.len(),
                    self.wf(),
                    ants == aview(self.ants@),
                    mx == self.maxx as int,
                    my == self.maxy as int,
                    pview(out@).no_duplicates(),
                    forall|p: (int, int)| #[trigger] pview(out@).contains(p) ==> exists|i2: int, j2: int, k2: int|
                        hit(ants, mx, my, i2, j2, k2, p, limit) && (i2 < i as int || (i2 == i as int
                            && j2 <= j as int)),
                    forall|i2: int, j2: int, k2: int, p: (int, int)|
                        #[trigger] hit(ants, mx, my, i2, j2, k2, p, limit) && (i2 < i as int || (i2
                            == i as int && j2 < j as int)) ==> pview(out@).contains(p),
                decreases n - j,
            {
                let a = self.ants[i];
                let b = self.ants[j];
                proof {
                    assert(ants[i as int] == (a.0 as int, a.1 as int, a.2));
                    assert(ants[j as int] == (b.0 as int, b.1 as int, b.2));
                }
                if i != j && a.2 == b.2 {
                    let dx: i64 = a.0 - b.0;
                    let dy: i64 = a.1 - b.1;
                    proof {
                        assert(!(ants[i as int].0 == ants[j as int].0 && ants[i as int].1
                            == ants[j as int].1));
                        assert(dx != 0 || dy != 0);
                    }
                    let start: u64 = match limit {
                        None => 0,
                        Some(_) => 1,
                    };
                    let mut k: u64 = start;
                    let first = anti_node(a.0, a.1, b.0, b.1, start);
                    let mut px = first.0;
                    let mut py = first.1;
                    loop
                        invariant_except_break
                            i < n,
                            j < n,
                            i != j,
                            n == self.ants@.len(),
                            self.wf(),
                            ants == aview(self.ants@),
                            ants[i as int].2 == ants[j as int].2,
                            mx == self.maxx as int,
                            my == self.maxy as int,
                            a.0 as int == ants[i as int].0,
                            a.1 as int == ants[i as int].1,
                            b.0 as int == ants[j as int].0,
                            b.1 as int == ants[j as int].1,
                            dx as int == ants[i as int].0 - ants[j as int].0,
                            dy as int == ants[i as int].1 - ants[j as int].1,
                            dx != 0 || dy != 0,
                            start as int == (match limit {
                                None => 0int,
                                Some(_) => 1int,
                            }),
                            start <= k,
                            px as int == a.0 + (k as int) * (dx as int),
                            py as int == a.1 + (k as int) * (dy as int),
                            k > start ==> k - 1 <= mx + my,
                            pview(out@).no_duplicates(),
                            forall|p: (int, int)| #[trigger] pview(out@).contains(p)
                                ==> exists|i2: int, j2: int, k2: int|
                                hit(ants, mx, my, i2, j2, k2, p, limit) && (i2 < i as int || (i2
                                    == i as int && j2 <= j as int)),
                            forall|i2: int, j2: int, k2: int, p: (int, int)|
                                #[trigger] hit(ants, mx, my, i2, j2, k2, p, limit) && (i2
                                    < i as int || (i2 == i as int && j2 < j as int)) ==> pview(
                                    out@,
                                ).contains(p),
                            forall|k2: int, p: (int, int)|
                                #[trigger] hit(ants, mx, my, i as int, j as int, k2, p, limit)
                                    && k2 < k as int ==> pview(out@).contains(p),
                        ensures
                            pview(out@).no_duplicates(),
                            forall|p: (int, int)| #[trigger] pview(out@).contains(p)
                                ==> exists|i2: int, j2: int, k2: int|
                                hit(ants, mx, my, i2, j2, k2, p, limit) && (i2 < i as int || (i2
                                    == i as int && j2 <= j as int)),
                            forall|i2: int, j2: int, k2: int, p: (int, int)|
                                #[trigger] hit(ants, mx, my, i2, j2, k2, p, limit) && (i2
                                    < i as int || (i2 == i as int && j2 <= j as int)) ==> pview(
                                    out@,
                                ).contains(p),
                        decreases mx + my + 2 - k,
                    {
                        let still = match limit {
                            None => true,
                            Some(l) => k <= l,
                        };
                        if !(still && self.in_bounds(px, py)) {
                            proof {
                                assert forall|i2: int, j2: int, k2: int, p: (int, int)|
                                    #[trigger] hit(ants, mx, my, i2, j2, k2, p, limit) && (i2
                                        < i as int || (i2 == i as int && j2 <= j as int)) implies
                                    pview(out@).contains(p) by {
                                    if i2 == i as int && j2 == j as int {
                                        if k2 >= k as int {
                                            // The current point left the grid or the limit, so
                                            // no later ray point can hit.
                                            let p0 = ants[i as int].0 + k2 * (ants[i as int].0
                                                - ants[j as int].0);
                                            let p1 = ants[i as int].1 + k2 * (ants[i as int].1
                                                - ants[j as int].1);
                                            if still {
                                                assert(!(0 <= px as int <= mx && 0 <= py as int
                                                    <= my));
                                                lemma_ray_prefix(
                                                    ants[i as int].0,
                                                    dx as int,
                                                    mx,
                                                    k2,
                                                    k as int,
                                                );
                                                lemma_ray_prefix(
                                                    ants[i as int].1,
                                                    dy as int,
                                                    my,
                                                    k2,
                                                    k as int,
                                                );
                                                assert(false);
                                            } else {
                                                assert(false);
                                            }
                                        }
                                    }
                                }
                            }
                            break ;
                        }
                        // Record the current ray point.
                        let p = (px, py);
                        let ghost old_out = out@;
                        if !contains_pt(&out, p) {
                            out.push(p);
                            proof {
                                assert(pview(out@) =~= pview(old_out).push(
                                    (p.0 as int, p.1 as int),
                                ));
                                assert forall|q: (int, int)| pview(old_out).contains(q)
                                    implies #[trigger] pview(out@).contains(q) by {
                                    let idx = choose|idx: int|
                                        0 <= idx < pview(old_out).len() && pview(old_out)[idx]
                                            == q;
                                    assert(pview(out@)[idx] == q);
                                }
                                assert forall|iu: int, ju: int|
                                    0 <= iu < pview(out@).len() && 0 <= ju < pview(out@).len()
                                        && iu != ju implies pview(out@)[iu] != pview(out@)[ju] by {
                                    if iu < pview(old_out).len() && ju < pview(old_out).len() {
                                        assert(pview(old_out)[iu] == pview(out@)[iu] && pview(
                                            old_out,
                                        )[ju] == pview(out@)[ju]);
                                    } else if ju == pview(old_out).len() {
                                        assert(pview(out@)[iu] == pview(old_out)[iu]);
                                        assert(pview(old_out).contains(pview(old_out)[iu]));
                                    } else {
                                        assert(pview(out@)[ju] == pview(old_out)[ju]);
                                        assert(pview(old_out).contains(pview(old_out)[ju]));
                                    }
                                }
                            }
                        }
                        proof {
                            assert(pview(out@).contains((px as int, py as int))) by {
                                if old_out == out@ {
                                } else {
                                    assert(pview(out@)[pview(out@).len() - 1] == (
                                        px as int,
                                        py as int,
                                    ));
                                }
                            }
                            assert(hit(
                                ants,
                                mx,
                                my,
                                i as int,
                                j as int,
                                k as int,
                                (px as int, py as int),
                                limit,
                            ));
                            assert forall|q: (int, int)| #[trigger] pview(out@).contains(q)
                                implies exists|i2: int, j2: int, k2: int|
                                hit(ants, mx, my, i2, j2, k2, q, limit) && (i2 < i as int || (i2
                                    == i as int && j2 <= j as int)) by {
                                if pview(old_out).contains(q) {
                                } else {
                                    assert(q == (px as int, py as int));
                                    assert(hit(
                                        ants,
                                        mx,
                                        my,
                                        i as int,
                                        j as int,
                                        k as int,
                                        q,
                                        limit,
                                    ));
                                }
                            }
                            // Termination: a ray point in bounds bounds k.
                            if dx != 0 {
                                lemma_ray_bound(ants[i as int].0, dx as int, mx, k as int);
                            } else {
                                lemma_ray_bound(ants[i as int].1, dy as int, my, k as int);
                            }
                            assert(k as int <= mx + my);
                        }
                        let nxt_x = px + dx;
                        let nxt_y = py + dy;
                        proof {
                            assert((k as int + 1) * (dx as int) == (k as int) * (dx as int) + (
                            dx as int)) by (nonlinear_arith);
                            assert((k as int + 1) * (dy as int) == (k as int) * (dy as int) + (
                            dy as int)) by (nonlinear_arith);
                        }
                        px = nxt_x;
                        py = nxt_y;
                        k = k + 1;
                    }
                }
                proof {
                    if !(i != j && ants[i as int].2 == ants[j as int].2) {
                        assert forall|i2: int, j2: int, k2: int, p: (int, int)|
                            #[trigger] hit(ants, mx, my, i2, j2, k2, p, limit) && (i2 < i as int
                                || (i2 == i as int && j2 <= j as int)) implies pview(
                            out@,
                        ).contains(p) by {}
                    }
                }
                j += 1;
            }
            i += 1;
        }
        proof {
            assert forall|p: (int, int)|
                pview(out@).to_set().contains(p) == antinode_set(ants, mx, my, limit).contains(
                    p,
                ) by {
                if antinode_set(ants, mx, my, limit).contains(p) {
                    let (i2, j2, k2) = choose|i2: int, j2: int, k2: int|
                        hit(ants, mx, my, i2, j2, k2, p, limit);
                    assert(i2 < n as int);
                    assert(pview(out@).contains(p));
                }
            }
            assert(pview(out@).to_set() =~= antinode_set(ants, mx, my, limit));
        }
        out
    }
}

/// Bounds small enough that ray arithmetic stays well inside the machine
/// words.
pub open spec fn day08_ok(s: Seq<char>) -> bool {
    let lines = text::clean_lines(s);
    lines.len() <= 0x8000_0000 && forall|i: int|
        0 <= i < lines.len() ==> (#[trigger] lines[i]).len() <= 0x8000_0000
}

proof fn lemma_row_ants_props(line: Seq<char>, y: int)
    ensures
        forall|t: int|
            0 <= t < row_ants(line, y).len() ==> (#[trigger] row_ants(line, y)[t]).1 == y && 0
                <= row_ants(line, y)[t].0 < line.len(),
        forall|t1: int, t2: int|
            0 <= t1 < t2 < row_ants(line, y).len() ==> (#[trigger] row_ants(line, y)[t1]).0 < (
            #[trigger] row_ants(line, y)[t2]).0,
    decreases line.len(),
{
    if line.len() > 0 {
        lemma_row_ants_props(line.drop_last(), y);
        let pre = row_ants(line.drop_last(), y);
        assert(forall|t: int|
            0 <= t < pre.len() ==> #[trigger] row_ants(line, y)[t] == pre[t]);
    }
}

proof fn lemma_ants_upto_props(lines: Seq<Seq<char>>, n: int)
    requires
        n <= lines.len(),
    ensures
        forall|t: int|
            0 <= t < ants_upto(lines, n).len() ==> {
                let a = #[trigger] ants_upto(lines, n)[t];
                0 <= a.1 < n && 0 <= a.0 < lines[a.1].len()
            },
        forall|t1: int, t2: int|
            0 <= t1 < t2 < ants_upto(lines, n).len() ==> {
                let a1 = #[trigger] ants_upto(lines, n)[t1];
                let a2 = #[trigger] ants_upto(lines, n)[t2];
                a1.1 < a2.1 || (a1.1 == a2.1 && a1.0 < a2.0)
            },
    decreases n,
{
    if n > 0 {
        lemma_ants_upto_props(lines, n - 1);
        lemma_row_ants_props(lines[n - 1], n - 1);
        let pre = ants_upto(lines, n - 1);
        let row = row_ants(lines[n - 1], n - 1);
        assert(forall|t: int|
            0 <= t < pre.len() ==> #[trigger] ants_upto(lines, n)[t] == pre[t]);
        assert(forall|t: int|
            pre.len() <= t < ants_upto(lines, n).len() ==> #[trigger] ants_upto(lines, n)[t]
                == row[t - pre.len()]);
    }
}

proof fn lemma_max_x_ge(lines: Seq<Seq<char>>, i: int)
    requires
        0 <= i < lines.len(),
    ensures
        max_x(lines) >= lines[i].len() - 1,
        max_x(lines) >= 0,
    decreases lines.len(),
{
    if lines.len() > 0 {
        if i == lines.len() - 1 {
            if lines.len() > 1 {
                lemma_max_x_ge(lines.drop_last(), 0);
            }
        } else {
            lemma_max_x_ge(lines.drop_last(), i);
            assert(lines.drop_last()[i] == lines[i]);
        }
    }
}

/// Parses the grid: its extent and its antennas.
pub fn parse(input: &str) -> (g: Grid)
    requires
        day08_ok(input@),
    ensures
        g.wf(),
        aview(g.ants@) == ants_of(text::clean_lines(input@)),
        g.maxx as int == max_x(text::clean_lines(input@)),
        g.maxy as int == max_y(text::clean_lines(input@)),
{
    let cs = text::chars_of(input);
    let lines = text::clean_lines_of(&cs);
    let ghost sl = text::clean_lines(input@);
    let n = lines.len();
    let mut ants: Vec<(i64, i64, char)> = Vec::new();
    let mut maxx: i64 = 0;
    let mut y: usize = 0;
    while y < n
        invariant
            y <= n,
            n == lines.len(),
            sl == text::clean_lines(input@),
            day08_ok(input@),
            text::views(lines@) == sl,
            aview(ants@) == ants_upto(sl, y as int),
            maxx as int == max_x(sl.take(y as int)),
            0 <= maxx <= 0x8000_0000,
        decreases n - y,
    {
        let row = &lines[y];
        let m = row.len();
        proof {
            assert(row@ == sl[y as int]);
            assert(sl[y as int].len() <= 0x8000_0000);
        }
        if m >= 1 && (m - 1) as i64 > maxx {
            maxx = (m - 1) as i64;
        }
        proof {
            let pfx = sl.take(y as int + 1);
            assert(pfx.drop_last() =~= sl.take(y as int));
            assert(pfx.last() == sl[y as int]);
            if m >= 1 && (m - 1) as int > max_x(sl.take(y as int)) {
                assert(maxx as int == max_x(pfx));
            } else {
                assert(maxx as int == max_x(pfx));
            }
        }
        let mut x: usize = 0;
        while x < m
            invariant
                x <= m,
                y < n,
                n == lines.len(),
                sl == text::clean_lines(input@),
                row@ == sl[y as int],
                m == row@.len(),
                m <= 0x8000_0000,
                n <= 0x8000_0000,
                aview(ants@) == ants_upto(sl, y as int) + row_ants(sl[y as int].take(x as int), y as int),
            decreases m - x,
        {
            let c = row[x];
            proof {
                let cur = sl[y as int].take(x as int);
                let nxt = sl[y as int].take(x as int + 1);
                assert(nxt.drop_last() =~= cur);
                assert(nxt.last() == sl[y as int][x as int]);
            }
            if c != '.' {
                let ghost old_ants = ants@;
                ants.push((x as i64, y as i64, c));
                proof {
                    let cur = sl[y as int].take(x as int);
                    assert(aview(ants@) =~= aview(old_ants).push(
                        (x as int, y as int, sl[y as int][x as int]),
                    ));
                    assert(row_ants(sl[y as int].take(x as int + 1), y as int) =~= row_ants(
                        cur,
                        y as int,
                    ) + seq![(x as int, y as int, sl[y as int][x as int])]);
                    assert(aview(ants@) =~= ants_upto(sl, y as int) + row_ants(
                        sl[y as int].take(x as int + 1),
                        y as int,
                    ));
                }
            } else {
                proof {
                    assert(row_ants(sl[y as int].take(x as int + 1), y as int) =~= row_ants(
                        sl[y as int].take(x as int),
                        y as int,
                    ));
                }
            }
            x += 1;
        }
        proof {
            assert(sl[y as int].take(m as int) =~= sl[y as int]);
            assert(ants_upto(sl, y as int + 1) == ants_upto(sl, y as int) + row_ants(
                sl[y as int],
                y as int,
            ));
        }
        y += 1;
    }
    let maxy: i64 = if n >= 1 {
        (n - 1) as i64
    } else {
        0
    };
    proof {
        assert(sl.take(n as int) =~= sl);
        lemma_ants_upto_props(sl, n as int);
        assert forall|t: int| 0 <= t < aview(ants@).len() implies {
            let a = #[trigger] aview(ants@)[t];
            0 <= a.0 <= maxx as int && 0 <= a.1 <= maxy as int
        } by {
            let a = aview(ants@)[t];
            assert(0 <= a.1 < n as int && 0 <= a.0 < sl[a.1].len());
            lemma_max_x_ge(sl, a.1);
        }
        assert forall|t1: int, t2: int|
            0 <= t1 < aview(ants@).len() && 0 <= t2 < aview(ants@).len() && t1 != t2 implies !((
        #[trigger] aview(ants@)[t1]).0 == (#[trigger] aview(ants@)[t2]).0 && aview(ants@)[t1].1
            == aview(ants@)[t2].1) by {
            if t1 < t2 {
                assert(aview(ants@)[t1].1 < aview(ants@)[t2].1 || (aview(ants@)[t1].1 == aview(
                    ants@,
                )[t2].1 && aview(ants@)[t1].0 < aview(ants@)[t2].0));
            } else {
                assert(aview(ants@)[t2].1 < aview(ants@)[t1].1 || (aview(ants@)[t2].1 == aview(
                    ants@,
                )[t1].1 && aview(ants@)[t2].0 < aview(ants@)[t1].0));
            }
        }
    }
    Grid { maxx, maxy, ants }
}

/// The distinct in-bounds antinodes, one mirror point per ordered pair.
pub fn star_one(input: &str) -> (r: usize)
    requires
        day08_ok(input@),
    ensures
        r as int == antinode_set(
            ants_of(text::clean_lines(input@)),
            max_x(text::clean_lines(input@)),
            max_y(text::clean_lines(input@)),
            Some(1u64),
        ).len(),
{
    let g = parse(input);
    let nodes = g.unique_antinodes(Some(1));
    proof {
        pview(nodes@).unique_seq_to_set();
    }
    nodes.len()
}

/// The distinct in-bounds antinodes over whole rays.
pub fn star_two(input: &str) -> (r: usize)
    requires
        day08_ok(input@),
    ensures
        r as int == antinode_set(
            ants_of(text::clean_lines(input@)),
            max_x(text::clean_lines(input@)),
            max_y(text::clean_lines(input@)),
            None,
        ).len(),
{
    let g = parse(input);
    let nodes = g.unique_antinodes(None);
    proof {
        pview(nodes@).unique_seq_to_set();
    }
    nodes.len()
}

} // verus!
