//! Reports of numbers, one per line: a report is safe when its values move
//! strictly in one direction with steps of one to three.  The second part
//! also accepts reports that become safe after removing a single value.
use vstd::prelude::*;

use crate::text;

verus! {

/// The numbers of one report line.
pub open spec fn report_of(line: Seq<char>) -> Seq<int> {
    text::ws_tokens(line).map_values(|t: Seq<char>| text::int_val(t))
}

/// Every whitespace-separated token of every line is an integer in `i64`
/// range.
pub open spec fn reports_ok(s: Seq<char>) -> bool {
    let lines = text::clean_lines(s);
    forall|i: int, j: int|
        0 <= i < lines.len() && 0 <= j < text::ws_tokens(#[trigger] lines[i]).len() ==> {
            let t = #[trigger] text::ws_tokens(lines[i])[j];
            text::is_int_token(t) && i64::MIN <= text::int_val(t) <= i64::MAX
        }
}

/// Every step goes down by one to three.
pub open spec fn all_steps_down(t: Seq<int>) -> bool {
    forall|i: int| #![trigger t[i]] 0 <= i < t.len() - 1 ==> 1 <= t[i] - t[i + 1] <= 3
}

/// Every step goes up by one to three.
pub open spec fn all_steps_up(t: Seq<int>) -> bool {
    forall|i: int| #![trigger t[i]] 0 <= i < t.len() - 1 ==> 1 <= t[i + 1] - t[i] <= 3
}

/// A safe report moves strictly in one direction with steps of one to
/// three.
pub open spec fn safe(t: Seq<int>) -> bool {
    all_steps_down(t) || all_steps_up(t)
}

/// The report with the value at `ig` (when given and in range) removed.
pub open spec fn masked(t: Seq<int>, ig: Option<int>) -> Seq<int> {
    match ig {
        None => t,
        Some(i) => if 0 <= i < t.len() {
            t.remove(i)
        } else {
            t
        },
    }
}

/// A report that is safe as given, or becomes safe after removing one
/// value.
pub open spec fn damped_safe(t: Seq<int>) -> bool {
    safe(t) || exists|i: int| 0 <= i < t.len() && safe(#[trigger] t.remove(i))
}

/// How many of the lines' reports satisfy `safe`.
pub open spec fn count_safe(lines: Seq<Seq<char>>) -> int
    decreases lines.len(),
{
    if lines.len() == 0 {
        0
    } else {
        count_safe(lines.drop_last()) + if safe(report_of(lines.last())) {
            1int
        } else {
            0int
        }
    }
}

/// How many of the lines' reports satisfy `damped_safe`.
pub open spec fn count_damped(lines: Seq<Seq<char>>) -> int
    decreases lines.len(),
{
    if lines.len() == 0 {
        0
    } else {
        count_damped(lines.drop_last()) + if damped_safe(report_of(lines.last())) {
            1int
        } else {
            0int
        }
    }
}

/// The values of a vector of machine integers.
pub open spec fn int_view(s: Seq<i64>) -> Seq<int> {
    s.map_values(|a: i64| a as int)
}

/// Whether the report is safe.
fn safe_exec(t: &Vec<i64>) -> (r: bool)
    ensures
        r == safe(int_view(t@)),
{
    let n = t.len();
    let mut down = true;
    let mut up = true;
    let mut i: usize = 0;
    while i < n && i + 1 < n
        invariant
            i <= n,
            i < n || i == 0,
            n == t@.len(),
            down == (forall|k: int|
                #![trigger int_view(t@)[k]]
                0 <= k < i ==> 1 <= int_view(t@)[k] - int_view(t@)[k + 1] <= 3),
            up == (forall|k: int|
                #![trigger int_view(t@)[k]]
                0 <= k < i ==> 1 <= int_view(t@)[k + 1] - int_view(t@)[k] <= 3),
        decreases n - i,
    {
        let d: i128 = (t[i] as i128) - (t[i + 1] as i128);
        proof {
            assert(int_view(t@)[i as int] == t@[i as int] as int);
            assert(int_view(t@)[i as int + 1] == t@[i as int + 1] as int);
        }
        if !(1 <= d && d <= 3) {
            down = false;
        }
        if !(-3 <= d && d <= -1) {
            up = false;
        }
        i += 1;
    }
    proof {
        if n > 0 {
            assert(i + 1 >= n);
            assert(int_view(t@).len() - 1 <= i);
        }
        assert(down == all_steps_down(int_view(t@)));
        assert(up == all_steps_up(int_view(t@)));
    }
    down || up
}

/// Whether the report, with the value at `ignored_idx` removed when given,
/// is safe.
pub fn valid(values: &Vec<i64>, ignored_idx: Option<usize>) -> (r: bool)
    ensures
        r == safe(
            masked(
                int_view(values@),
                match ignored_idx {
                    Some(i) => Some(i as int),
                    None => None::<int>,
                },
            ),
        ),
{
    let mut kept: Vec<i64> = Vec::new();
    let n = values.len();
    let mut i: usize = 0;
    while i < n
        invariant
            i <= n,
            n == values@.len(),
            kept@ =~= (match ignored_idx {
                Some(ig) => if (ig as int) < i {
                    values@.take(i as int).remove(ig as int)
                } else {
                    values@.take(i as int)
                },
                None => values@.take(i as int),
            }),
        decreases n - i,
    {
        let skip = match ignored_idx {
            Some(ig) => i == ig,
            None => false,
        };
        if !skip {
            kept.push(values[i]);
        }
        proof {
            let pre = values@.take(i as int);
            let nxt = values@.take(i as int + 1);
            assert(nxt =~= pre.push(values@[i as int]));
            match ignored_idx {
                Some(ig) => {
                    if (ig as int) < i {
                        assert(nxt.remove(ig as int) =~= pre.remove(ig as int).push(
                            values@[i as int],
                        ));
                    } else if ig == i {
                        assert(nxt.remove(ig as int) =~= pre);
                    }
                },
                None => {},
            }
        }
        i += 1;
    }
    proof {
        assert(values@.take(n as int) =~= values@);
        match ignored_idx {
            Some(ig) => {
                if (ig as int) < n {
                    assert(int_view(kept@) =~= int_view(values@).remove(ig as int));
                } else {
                    assert(int_view(kept@) =~= int_view(values@));
                }
            },
            None => {
                assert(int_view(kept@) =~= int_view(values@));
            },
        }
    }
    safe_exec(&kept)
}

/// Parses one line's report.
fn parse_report(line: &Vec<char>, Ghost(spec_line): Ghost<Seq<char>>) -> (r: Vec<i64>)
    requires
        line@ == spec_line,
        forall|j: int|
            0 <= j < text::ws_tokens(spec_line).len() ==> text::is_int_token(
                #[trigger] text::ws_tokens(spec_line)[j],
            ) && i64::MIN <= text::int_val(text::ws_tokens(spec_line)[j]) <= i64::MAX,
    ensures
        int_view(r@) == report_of(spec_line),
{
    let toks = text::tokens_of(line);
    let m = toks.len();
    let mut out: Vec<i64> = Vec::new();
    let mut j: usize = 0;
    while j < m
        invariant
            j <= m,
            m == toks@.len(),
            text::views(toks@) == text::ws_tokens(spec_line),
            forall|k: int|
                0 <= k < text::ws_tokens(spec_line).len() ==> text::is_int_token(
                    #[trigger] text::ws_tokens(spec_line)[k],
                ) && i64::MIN <= text::int_val(text::ws_tokens(spec_line)[k]) <= i64::MAX,
            out@.len() == j,
            forall|k: int|
                0 <= k < j ==> #[trigger] out@[k] as int == text::int_val(
                    text::ws_tokens(spec_line)[k],
                ),
        decreases m - j,
    {
        proof {
            assert(toks@[j as int]@ == text::ws_tokens(spec_line)[j as int]);
        }
        let v = text::parse_i64(&toks[j]);
        out.push(v);
        j += 1;
    }
    proof {
        assert(int_view(out@) =~= report_of(spec_line));
    }
    out
}

/// How many reports are safe as given.
pub fn star_one(input: &str) -> (r: usize)
    requires
        reports_ok(input@),
    ensures
        r as int == count_safe(text::clean_lines(input@)),
{
    let cs = text::chars_of(input);
    let lines = text::clean_lines_of(&cs);
    let ghost sl = text::clean_lines(input@);
    let n = lines.len();
    let mut count: usize = 0;
    proof {
        assert(sl.take(0) =~= Seq::<Seq<char>>::empty());
    }
    let mut i: usize = 0;
    while i < n
        invariant
            i <= n,
            n == lines.len(),
            sl == text::clean_lines(input@),
            reports_ok(input@),
            text::views(lines@) == sl,
            count <= i,
            count as int == count_safe(sl.take(i as int)),
        decreases n - i,
    {
        proof {
            assert(lines@[i as int]@ == sl[i as int]);
        }
        let report = parse_report(&lines[i], Ghost(sl[i as int]));
        let ok = safe_exec(&report);
        proof {
            assert(sl.take(i as int + 1).drop_last() =~= sl.take(i as int));
            assert(sl.take(i as int + 1).last() == sl[i as int]);
        }
        if ok {
            count += 1;
        }
        i += 1;
    }
    proof {
        assert(sl.take(n as int) =~= sl);
    }
    count
}

/// How many reports are safe as given or after removing one value.
pub fn star_two(input: &str) -> (r: usize)
    requires
        reports_ok(input@),
    ensures
        r as int == count_damped(text::clean_lines(input@)),
{
    let cs = text::chars_of(input);
    let lines = text::clean_lines_of(&cs);
    let ghost sl = text::clean_lines(input@);
    let n = lines.len();
    let mut count: usize = 0;
    proof {
        assert(sl.take(0) =~= Seq::<Seq<char>>::empty());
    }
    let mut i: usize = 0;
    while i < n
        invariant
            i <= n,
            n == lines.len(),
            sl == text::clean_lines(input@),
            reports_ok(input@),
            text::views(lines@) == sl,
            count <= i,
            count as int == count_damped(sl.take(i as int)),
        decreases n - i,
    {
        proof {
            assert(lines@[i as int]@ == sl[i as int]);
        }
        let report = parse_report(&lines[i], Ghost(sl[i as int]));
        let ghost t = report_of(sl[i as int]);
        let mut ok = safe_exec(&report);
        if !ok {
            let m = report.len();
            let mut j: usize = 0;
            while j < m && !ok
                invariant
                    j <= m,
                    m == report@.len(),
                    int_view(report@) == t,
                    ok ==> damped_safe(t),
                    !ok ==> forall|k: int| 0 <= k < j ==> !safe(#[trigger] t.remove(k)),
                decreases m - j + (if ok {
                    0int
                } else {
                    1int
                }),
            {
                let dropped = valid(&report, Some(j));
                if dropped {
                    ok = true;
                    proof {
                        assert(safe(t.remove(j as int)));
                    }
                } else {
                    j += 1;
                }
            }
            proof {
                if !ok {
                    assert(!damped_safe(t)) by {
                        assert(forall|k: int| 0 <= k < t.len() ==> !safe(#[trigger] t.remove(k)));
                    }
                }
            }
        }
        proof {
            assert(sl.take(i as int + 1).drop_last() =~= sl.take(i as int));
            assert(sl.take(i as int + 1).last() == sl[i as int]);
        }
        if ok {
            count += 1;
        }
        i += 1;
    }
    proof {
        assert(sl.take(n as int) =~= sl);
    }
    count
}

} // verus!
