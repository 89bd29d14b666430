//! Two columns of numbers: the total distance between the sorted columns,
//! and a similarity score weighting each left value by its multiplicity on
//! the right.
use vstd::prelude::*;

use crate::text;

verus! {

/// The absolute difference of two integers.
pub open spec fn dist(a: int, b: int) -> int {
    if a >= b {
        a - b
    } else {
        b - a
    }
}

/// `x` inserted in front of the first element it does not exceed.
pub open spec fn insert_sorted(x: int, s: Seq<int>) -> Seq<int>
    decreases s.len(),
{
    if s.len() == 0 {
        seq![x]
    } else if x <= s[0] {
        seq![x] + s
    } else {
        seq![s[0]] + insert_sorted(x, s.drop_first())
    }
}

/// The sequence sorted ascending by repeated insertion.
pub open spec fn sort_ints(s: Seq<int>) -> Seq<int>
    decreases s.len(),
{
    if s.len() == 0 {
        Seq::empty()
    } else {
        insert_sorted(s.last(), sort_ints(s.drop_last()))
    }
}

/// The values of a vector of machine integers.
pub open spec fn int_view(s: Seq<i64>) -> Seq<int> {
    s.map_values(|a: i64| a as int)
}

/// The sum of pairwise distances of two equally long columns.
pub open spec fn sum_dist(a: Seq<int>, b: Seq<int>) -> int
    decreases a.len(),
{
    if a.len() == 0 || b.len() == 0 {
        0
    } else {
        sum_dist(a.drop_last(), b.drop_last()) + dist(a.last(), b.last())
    }
}

/// How many elements of `s` equal `x`.
pub open spec fn count_eq(s: Seq<int>, x: int) -> int
    decreases s.len(),
{
    if s.len() == 0 {
        0
    } else {
        count_eq(s.drop_last(), x) + if s.last() == x {
            1int
        } else {
            0int
        }
    }
}

/// The similarity score: each left value weighted by its multiplicity in
/// the right column.
pub open spec fn similarity(a: Seq<int>, b: Seq<int>) -> int
    decreases a.len(),
{
    if a.len() == 0 {
        0
    } else {
        similarity(a.drop_last(), b) + a.last() * count_eq(b, a.last())
    }
}

/// The first whitespace-separated number of each line.
pub open spec fn first_col(lines: Seq<Seq<char>>) -> Seq<int> {
    lines.map_values(|l: Seq<char>| text::int_val(text::ws_tokens(l)[0]))
}

/// The second whitespace-separated number of each line.
pub open spec fn second_col(lines: Seq<Seq<char>>) -> Seq<int> {
    lines.map_values(|l: Seq<char>| text::int_val(text::ws_tokens(l)[1]))
}

/// Every line carries at least two whitespace-separated integer tokens, each
/// in `i64` range.
pub open spec fn cols_ok(s: Seq<char>) -> bool {
    let lines = text::clean_lines(s);
    forall|i: int|
        0 <= i < lines.len() ==> {
            let toks = text::ws_tokens(#[trigger] lines[i]);
            &&& toks.len() >= 2
            &&& text::is_int_token(toks[0])
            &&& text::is_int_token(toks[1])
            &&& i64::MIN <= text::int_val(toks[0]) <= i64::MAX
            &&& i64::MIN <= text::int_val(toks[1]) <= i64::MAX
        }
}

proof fn lemma_sum_dist_bounds(a: Seq<int>, b: Seq<int>, k: int)
    requires
        0 <= k <= a.len(),
        a.len() == b.len(),
    ensures
        0 <= sum_dist(a.take(k), b.take(k)) <= sum_dist(a, b),
    decreases a.len() - k,
{
    if k == a.len() {
        assert(a.take(k) =~= a);
        assert(b.take(k) =~= b);
        lemma_sum_dist_nonneg(a, b);
    } else {
        lemma_sum_dist_bounds(a, b, k + 1);
        lemma_sum_dist_nonneg(a.take(k), b.take(k));
        assert(a.take(k + 1).drop_last() =~= a.take(k));
        assert(b.take(k + 1).drop_last() =~= b.take(k));
        assert(sum_dist(a.take(k + 1), b.take(k + 1)) == sum_dist(a.take(k), b.take(k)) + dist(
            a[k],
            b[k],
        ));
    }
}

proof fn lemma_sum_dist_nonneg(a: Seq<int>, b: Seq<int>)
    ensures
        sum_dist(a, b) >= 0,
    decreases a.len(),
{
    if a.len() > 0 && b.len() > 0 {
        lemma_sum_dist_nonneg(a.drop_last(), b.drop_last());
    }
}

/// Unwinding `insert_sorted` past a prefix of elements smaller than `x`.
proof fn lemma_insert_at(x: int, s: Seq<int>, i: int)
    requires
        0 <= i <= s.len(),
        forall|k: int| 0 <= k < i ==> s[k] < x,
        i == s.len() || x <= s[i],
    ensures
        insert_sorted(x, s) == s.take(i) + seq![x] + s.skip(i),
    decreases i,
{
    if i == 0 {
        if s.len() == 0 {
            assert(s.take(0) + seq![x] + s.skip(0) =~= seq![x]);
        } else {
            assert(s.take(0) + seq![x] + s.skip(0) =~= seq![x] + s);
        }
    } else {
        let t = s.drop_first();
        assert(forall|k: int| 0 <= k < i - 1 ==> t[k] == s[k + 1] && s[k + 1] < x);
        lemma_insert_at(x, t, i - 1);
        assert(insert_sorted(x, s) == seq![s[0]] + insert_sorted(x, t));
        assert(seq![s[0]] + (t.take(i - 1) + seq![x] + t.skip(i - 1)) =~= s.take(i) + seq![x]
            + s.skip(i));
    }
}

/// Inserts `x` in front of the first element it does not exceed.
fn insert_exec(x: i64, v: &Vec<i64>) -> (r: Vec<i64>)
    ensures
        int_view(r@) == insert_sorted(x as int, int_view(v@)),
{
    let n = v.len();
    let mut out: Vec<i64> = Vec::new();
    let mut i: usize = 0;
    while i < n && v[i] < x
        invariant
            i <= n,
            n == v@.len(),
            out@ =~= v@.take(i as int),
            forall|k: int| 0 <= k < i ==> v@[k] < x,
        decreases n - i,
    {
        out.push(v[i]);
        i += 1;
    }
    let ghost split = i as int;
    out.push(x);
    let mut j: usize = i;
    while j < n
        invariant
            i <= j <= n,
            n == v@.len(),
            split == i as int,
            out@ =~= v@.take(split) + seq![x] + v@.subrange(split, j as int),
        decreases n - j,
    {
        out.push(v[j]);
        proof {
            assert(out@ =~= v@.take(split) + seq![x] + v@.subrange(split, j as int + 1));
        }
        j += 1;
    }
    proof {
        let sv = int_view(v@);
        assert(forall|k: int| 0 <= k < sv.len() ==> sv[k] == v@[k] as int);
        lemma_insert_at(x as int, sv, split);
        assert(out@ =~= v@.take(split) + seq![x] + v@.skip(split));
        assert(int_view(out@) =~= sv.take(split) + seq![x as int] + sv.skip(split));
    }
    out
}

/// Sorts the numbers ascending.
fn sort_exec(v: &Vec<i64>) -> (r: Vec<i64>)
    ensures
        int_view(r@) == sort_ints(int_view(v@)),
{
    let n = v.len();
    let mut acc: Vec<i64> = Vec::new();
    let mut i: usize = 0;
    proof {
        assert(int_view(v@.take(0)) =~= Seq::<int>::empty());
        assert(int_view(acc@) =~= sort_ints(int_view(v@.take(0))));
    }
    while i < n
        invariant
            i <= n,
            n == v@.len(),
            int_view(acc@) == sort_ints(int_view(v@.take(i as int))),
        decreases n - i,
    {
        acc = insert_exec(v[i], &acc);
        proof {
            let u = int_view(v@.take(i as int + 1));
            assert(u.drop_last() =~= int_view(v@.take(i as int)));
            assert(u.last() == v@[i as int] as int);
        }
        i += 1;
    }
    proof {
        assert(v@.take(n as int) =~= v@);
    }
    acc
}

/// The first two numbers of each line, as two columns.
fn parse_cols(input: &str) -> (r: (Vec<i64>, Vec<i64>))
    requires
        cols_ok(input@),
    ensures
        int_view(r.0@) == first_col(text::clean_lines(input@)),
        int_view(r.1@) == second_col(text::clean_lines(input@)),
{
    let cs = text::chars_of(input);
    let lines = text::clean_lines_of(&cs);
    let ghost sl = text::clean_lines(input@);
    let n = lines.len();
    let mut a: Vec<i64> = Vec::new();
    let mut b: Vec<i64> = Vec::new();
    let mut i: usize = 0;
    while i < n
        invariant
            i <= n,
            n == lines.len(),
            sl == text::clean_lines(input@),
            cols_ok(input@),
            text::views(lines@) == sl,
            a@.len() == i,
            b@.len() == i,
            forall|k: int| 0 <= k < i ==> #[trigger] a@[k] as int == first_col(sl)[k],
            forall|k: int| 0 <= k < i ==> #[trigger] b@[k] as int == second_col(sl)[k],
        decreases n - i,
    {
        let toks = text::tokens_of(&lines[i]);
        proof {
            assert(lines[i as int]@ == sl[i as int]);
            assert(text::views(toks@) == text::ws_tokens(sl[i as int]));
            assert(toks@[0]@ == text::ws_tokens(sl[i as int])[0]);
            assert(toks@[1]@ == text::ws_tokens(sl[i as int])[1]);
        }
        let x = text::parse_i64(&toks[0]);
        let y = text::parse_i64(&toks[1]);
        a.push(x);
        b.push(y);
        i += 1;
    }
    proof {
        assert(int_view(a@) =~= first_col(sl));
        assert(int_view(b@) =~= second_col(sl));
    }
    (a, b)
}

/// The total distance: both columns sorted ascending, then the absolute
/// differences of the aligned pairs summed.
pub fn star_one(input: &str) -> (r: u64)
    requires
        cols_ok(input@),
        sum_dist(
            sort_ints(first_col(text::clean_lines(input@))),
            sort_ints(second_col(text::clean_lines(input@))),
        ) <= u64::MAX,
    ensures
        r as int == sum_dist(
            sort_ints(first_col(text::clean_lines(input@))),
            sort_ints(second_col(text::clean_lines(input@))),
        ),
{
    let ghost sl = text::clean_lines(input@);
    let cols = parse_cols(input);
    let f = sort_exec(&cols.0);
    let s = sort_exec(&cols.1);
    let ghost fa = sort_ints(first_col(sl));
    let ghost fb = sort_ints(second_col(sl));
    proof {
        lemma_sort_same_len(first_col(sl));
        lemma_sort_same_len(second_col(sl));
        assert(fa.len() == fb.len());
    }
    let n = f.len();
    let mut total: u64 = 0;
    proof {
        assert(fa.take(0) =~= Seq::<int>::empty());
        assert(fb.take(0) =~= Seq::<int>::empty());
    }
    let mut i: usize = 0;
    while i < n
        invariant
            i <= n,
            n == f@.len(),
            n == s@.len(),
            int_view(f@) == fa,
            int_view(s@) == fb,
            fa.len() == fb.len(),
            sum_dist(fa, fb) <= u64::MAX,
            total as int == sum_dist(fa.take(i as int), fb.take(i as int)),
        decreases n - i,
    {
        let x = f[i];
        let y = s[i];
        let d: u64 = if x >= y {
            ((x as i128) - (y as i128)) as u64
        } else {
            ((y as i128) - (x as i128)) as u64
        };
        proof {
            assert(fa[i as int] == x as int && fb[i as int] == y as int);
            assert(d as int == dist(fa[i as int], fb[i as int]));
            assert(fa.take(i as int + 1).drop_last() =~= fa.take(i as int));
            assert(fb.take(i as int + 1).drop_last() =~= fb.take(i as int));
            lemma_sum_dist_bounds(fa, fb, i as int + 1);
        }
        total = total + d;
        i += 1;
    }
    proof {
        assert(fa.take(n as int) =~= fa);
        assert(fb.take(n as int) =~= fb);
    }
    total
}

/// Sorting keeps the length.
proof fn lemma_sort_same_len(s: Seq<int>)
    ensures
        sort_ints(s).len() == s.len(),
    decreases s.len(),
{
    if s.len() > 0 {
        lemma_sort_same_len(s.drop_last());
        lemma_insert_len(s.last(), sort_ints(s.drop_last()));
    }
}

proof fn lemma_insert_len(x: int, s: Seq<int>)
    ensures
        insert_sorted(x, s).len() == s.len() + 1,
    decreases s.len(),
{
    if s.len() > 0 && !(x <= s[0]) {
        lemma_insert_len(x, s.drop_first());
    }
}

/// The similarity score: each left value times how often it occurs on the
/// right, summed.
pub fn star_two(input: &str) -> (r: i64)
    requires
        cols_ok(input@),
        forall|k: int|
            0 <= k <= first_col(text::clean_lines(input@)).len() ==> i64::MIN <= #[trigger] similarity(
                first_col(text::clean_lines(input@)).take(k),
                second_col(text::clean_lines(input@)),
            ) <= i64::MAX,
    ensures
        r as int == similarity(
            first_col(text::clean_lines(input@)),
            second_col(text::clean_lines(input@)),
        ),
{
    let ghost sl = text::clean_lines(input@);
    let ghost fa = first_col(sl);
    let ghost fb = second_col(sl);
    let cols = parse_cols(input);
    let f = cols.0;
    let s = cols.1;
    let n = f.len();
    let mut total: i64 = 0;
    proof {
        assert(fa.take(0) =~= Seq::<int>::empty());
    }
    let mut i: usize = 0;
    while i < n
        invariant
            i <= n,
            n == f@.len(),
            int_view(f@) == fa,
            int_view(s@) == fb,
            forall|k: int|
                0 <= k <= fa.len() ==> i64::MIN <= #[trigger] similarity(fa.take(k), fb)
                    <= i64::MAX,
            total as int == similarity(fa.take(i as int), fb),
        decreases n - i,
    {
        let x = f[i];
        let m = s.len();
        let mut cnt: u64 = 0;
        proof {
            assert(fb.take(0) =~= Seq::<int>::empty());
        }
        let mut j: usize = 0;
        while j < m
            invariant
                j <= m,
                m == s@.len(),
                int_view(s@) == fb,
                cnt <= j,
                cnt as int == count_eq(fb.take(j as int), x as int),
            decreases m - j,
        {
            proof {
                assert(fb.take(j as int + 1).drop_last() =~= fb.take(j as int));
                assert(fb.take(j as int + 1).last() == s@[j as int] as int);
            }
            if s[j] == x {
                cnt = cnt + 1;
            }
            j += 1;
        }
        proof {
            assert(fb.take(m as int) =~= fb);
        }
        proof {
            assert((x as i128) * (cnt as i128) <= i64::MAX * (u64::MAX as i128) && (x as i128) * (
            cnt as i128) >= (i64::MIN as i128) * (u64::MAX as i128)) by (nonlinear_arith)
                requires
                    i64::MIN <= x as i128 <= i64::MAX,
                    0 <= cnt as i128 <= u64::MAX as i128,
            ;
        }
        let term: i128 = (x as i128) * (cnt as i128);
        proof {
            assert(fa[i as int] == x as int);
            assert(term as int == fa[i as int] * count_eq(fb, fa[i as int])) by (nonlinear_arith)
                requires
                    term as int == (x as int) * (cnt as int),
                    fa[i as int] == x as int,
                    cnt as int == count_eq(fb, fa[i as int]),
            ;
            assert(fa.take(i as int + 1).drop_last() =~= fa.take(i as int));
            assert(fa.take(i as int + 1).last() == fa[i as int]);
            assert(i64::MIN <= similarity(fa.take(i as int + 1), fb) <= i64::MAX);
        }
        total = ((total as i128) + term) as i64;
        i += 1;
    }
    proof {
        assert(fa.take(n as int) =~= fa);
    }
    total
}

} // verus!
