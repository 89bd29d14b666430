//! Page-ordering rules and updates.  A rule `a|b` demands that page `a`
//! print before page `b`.  The first part sums the middle pages of the
//! updates that respect the rules; the second reorders the offending
//! updates by the rules and sums their middle pages instead.
use vstd::prelude::*;

use crate::text;

verus! {

/// The raw line pieces of the input.
pub open spec fn nl_pieces(s: Seq<char>) -> Seq<Seq<char>> {
    text::split_char(s, '\n')
}

/// Piece `i` separates the two sections: an empty piece strictly between
/// two others, which is where the text held a blank line.
pub open spec fn sep_at(s: Seq<char>, i: int) -> bool {
    1 <= i <= nl_pieces(s).len() - 2 && nl_pieces(s)[i].len() == 0
}

/// The first section separator.
pub open spec fn sep_idx(s: Seq<char>) -> int {
    choose|i: int| sep_at(s, i) && forall|j: int| 1 <= j < i ==> !sep_at(s, j)
}

/// The trimmed, non-empty rule lines (before the separator).
pub open spec fn rules_lines(s: Seq<char>) -> Seq<Seq<char>> {
    text::keep_nonempty(text::trim_each(nl_pieces(s).take(sep_idx(s))))
}

/// The trimmed, non-empty update lines (after the separator).
pub open spec fn update_lines(s: Seq<char>) -> Seq<Seq<char>> {
    text::keep_nonempty(text::trim_each(nl_pieces(s).skip(sep_idx(s) + 1)))
}

/// The column of the first rule delimiter in a rule line.
pub open spec fn bar_idx(line: Seq<char>) -> int {
    choose|k: int|
        0 <= k < line.len() && line[k] == '|' && forall|j: int| 0 <= j < k ==> line[j] != '|'
}

/// The ordered page pair a rule line demands.
pub open spec fn rule_of(line: Seq<char>) -> (int, int) {
    (text::digits_val(line.take(bar_idx(line))), text::digits_val(line.skip(bar_idx(line) + 1)))
}

pub open spec fn rules_of(s: Seq<char>) -> Seq<(int, int)> {
    rules_lines(s).map_values(|l: Seq<char>| rule_of(l))
}

/// The pages of one update line.
pub open spec fn update_of(line: Seq<char>) -> Seq<int> {
    text::split_char(line, ',').map_values(|p: Seq<char>| text::digits_val(p))
}

pub open spec fn updates_of(s: Seq<char>) -> Seq<Seq<int>> {
    update_lines(s).map_values(|l: Seq<char>| update_of(l))
}

/// Some rule demands `a` before `b`.
pub open spec fn has_rule(rs: Seq<(int, int)>, a: int, b: int) -> bool {
    exists|k: int| 0 <= k < rs.len() && rs[k] == (a, b)
}

/// Some rule constrains page `a` on its left side.
pub open spec fn has_key(rs: Seq<(int, int)>, a: int) -> bool {
    exists|k: int| 0 <= k < rs.len() && (#[trigger] rs[k]).0 == a
}

/// An update respects the rules: whenever a page with rules precedes
/// another, a rule allows that order, and no rule demands the reverse.
pub open spec fn update_valid(rs: Seq<(int, int)>, u: Seq<int>) -> bool {
    forall|i: int, j: int|
        0 <= i < j < u.len() ==> ((has_key(rs, #[trigger] u[i]) ==> has_rule(rs, u[i], #[trigger] u[j]))
            && !has_rule(rs, u[j], u[i]))
}

/// The middle page of an update.
pub open spec fn middle(u: Seq<int>) -> int {
    u[u.len() as int / 2]
}

/// `x` inserted in front of the first page it must precede.
pub open spec fn insert_by(rs: Seq<(int, int)>, x: int, s: Seq<int>) -> Seq<int>
    decreases s.len(),
{
    if s.len() == 0 {
        seq![x]
    } else if has_rule(rs, x, s[0]) {
        seq![x] + s
    } else {
        seq![s[0]] + insert_by(rs, x, s.drop_first())
    }
}

/// An update reordered by repeated rule-driven insertion.
pub open spec fn sort_by_rules(rs: Seq<(int, int)>, s: Seq<int>) -> Seq<int>
    decreases s.len(),
{
    if s.len() == 0 {
        Seq::empty()
    } else {
        insert_by(rs, s.last(), sort_by_rules(rs, s.drop_last()))
    }
}

/// The sum of the middle pages of the valid updates.
pub open spec fn sum_valid(rs: Seq<(int, int)>, us: Seq<Seq<int>>) -> int
    decreases us.len(),
{
    if us.len() == 0 {
        0
    } else {
        sum_valid(rs, us.drop_last()) + if update_valid(rs, us.last()) {
            middle(us.last())
        } else {
            0int
        }
    }
}

/// The sum of the middle pages of the invalid updates after reordering.
pub open spec fn sum_fixed(rs: Seq<(int, int)>, us: Seq<Seq<int>>) -> int
    decreases us.len(),
{
    if us.len() == 0 {
        0
    } else {
        sum_fixed(rs, us.drop_last()) + if !update_valid(rs, us.last()) {
            middle(sort_by_rules(rs, us.last()))
        } else {
            0int
        }
    }
}

/// The input splits into a rule section and an update section, every rule
/// line is `a|b` with decimal pages, and every update line is a comma list
/// of decimal pages; the sums fit the machine word.
pub open spec fn day05_ok(s: Seq<char>) -> bool {
    &&& exists|i: int| sep_at(s, i)
    &&& (forall|i: int|
        0 <= i < rules_lines(s).len() ==> {
            let l = #[trigger] rules_lines(s)[i];
            let k = bar_idx(l);
            &&& exists|k2: int| 0 <= k2 < l.len() && l[k2] == '|'
            &&& 0 <= k < l.len() && l[k] == '|'
            &&& k >= 1
            &&& text::all_digits(l.take(k))
            &&& l.len() - k - 1 >= 1
            &&& text::all_digits(l.skip(k + 1))
            &&& 0 <= text::digits_val(l.take(k)) <= u64::MAX
            &&& 0 <= text::digits_val(l.skip(k + 1)) <= u64::MAX
        })
    &&& (forall|i: int|
        0 <= i < updates_of(s).len() ==> {
            let u = #[trigger] updates_of(s)[i];
            u.len() >= 1 && forall|j: int| 0 <= j < u.len() ==> 0 <= #[trigger] u[j] <= u64::MAX
        })
    &&& (forall|i: int, j: int|
        0 <= i < update_lines(s).len() && 0 <= j < text::split_char(
            #[trigger] update_lines(s)[i],
            ',',
        ).len() ==> {
            let p = #[trigger] text::split_char(update_lines(s)[i], ',')[j];
            p.len() >= 1 && text::all_digits(p)
        })
    &&& 0 <= sum_valid(rules_of(s), updates_of(s)) <= u64::MAX
    &&& 0 <= sum_fixed(rules_of(s), updates_of(s)) <= u64::MAX
}

/// Pages of a reordered update all come from the update itself.
proof fn lemma_insert_by_members(rs: Seq<(int, int)>, x: int, s: Seq<int>)
    ensures
        forall|i: int|
            0 <= i < insert_by(rs, x, s).len() ==> #[trigger] insert_by(rs, x, s)[i] == x
                || s.contains(insert_by(rs, x, s)[i]),
        insert_by(rs, x, s).len() == s.len() + 1,
    decreases s.len(),
{
    if s.len() > 0 && !has_rule(rs, x, s[0]) {
        lemma_insert_by_members(rs, x, s.drop_first());
        assert forall|i: int|
            0 <= i < insert_by(rs, x, s).len() implies #[trigger] insert_by(rs, x, s)[i] == x
            || s.contains(insert_by(rs, x, s)[i]) by {
            if i == 0 {
                assert(s[0] == insert_by(rs, x, s)[0]);
            } else {
                let t = insert_by(rs, x, s.drop_first());
                assert(insert_by(rs, x, s)[i] == t[i - 1]);
                if t[i - 1] != x {
                    let k = choose|k: int|
                        0 <= k < s.drop_first().len() && s.drop_first()[k] == t[i - 1];
                    assert(s[k + 1] == t[i - 1]);
                }
            }
        }
    }
}

proof fn lemma_sort_members(rs: Seq<(int, int)>, s: Seq<int>)
    ensures
        forall|i: int|
            0 <= i < sort_by_rules(rs, s).len() ==> s.contains(
                #[trigger] sort_by_rules(rs, s)[i],
            ),
        sort_by_rules(rs, s).len() == s.len(),
    decreases s.len(),
{
    if s.len() > 0 {
        lemma_sort_members(rs, s.drop_last());
        lemma_insert_by_members(rs, s.last(), sort_by_rules(rs, s.drop_last()));
        assert forall|i: int|
            0 <= i < sort_by_rules(rs, s).len() implies s.contains(
            #[trigger] sort_by_rules(rs, s)[i],
        ) by {
            let v = sort_by_rules(rs, s)[i];
            if v == s.last() {
                assert(s[s.len() - 1] == v);
            } else {
                assert(sort_by_rules(rs, s.drop_last()).contains(v));
                let k = choose|k: int|
                    0 <= k < sort_by_rules(rs, s.drop_last()).len() && sort_by_rules(
                        rs,
                        s.drop_last(),
                    )[k] == v;
                assert(s.drop_last().contains(sort_by_rules(rs, s.drop_last())[k]));
                let k2 = choose|k2: int|
                    0 <= k2 < s.drop_last().len() && s.drop_last()[k2] == v;
                assert(s[k2] == v);
            }
        }
    }
}

proof fn lemma_middle_nonneg(rs: Seq<(int, int)>, u: Seq<int>)
    requires
        u.len() >= 1,
        forall|j: int| 0 <= j < u.len() ==> 0 <= #[trigger] u[j],
    ensures
        middle(u) >= 0,
        sort_by_rules(rs, u).len() == u.len(),
        middle(sort_by_rules(rs, u)) >= 0,
{
    lemma_sort_members(rs, u);
    let m = sort_by_rules(rs, u)[u.len() as int / 2];
    assert(u.contains(m));
    let k = choose|k: int| 0 <= k < u.len() && u[k] == m;
    assert(u[k] >= 0);
}

proof fn lemma_sum_valid_bounds(rs: Seq<(int, int)>, us: Seq<Seq<int>>, k: int)
    requires
        0 <= k <= us.len(),
        forall|i: int|
            0 <= i < us.len() ==> (#[trigger] us[i]).len() >= 1 && forall|j: int|
                0 <= j < us[i].len() ==> 0 <= #[trigger] us[i][j],
    ensures
        0 <= sum_valid(rs, us.take(k)) <= sum_valid(rs, us),
        0 <= sum_fixed(rs, us.take(k)) <= sum_fixed(rs, us),
    decreases us.len() - k,
{
    if k == us.len() {
        assert(us.take(k) =~= us);
        lemma_sums_nonneg(rs, us);
    } else {
        lemma_sum_valid_bounds(rs, us, k + 1);
        lemma_sums_nonneg(rs, us.take(k));
        assert(us.take(k + 1).drop_last() =~= us.take(k));
        assert(us.take(k + 1).last() == us[k]);
        lemma_middle_nonneg(rs, us[k]);
    }
}

proof fn lemma_sums_nonneg(rs: Seq<(int, int)>, us: Seq<Seq<int>>)
    requires
        forall|i: int|
            0 <= i < us.len() ==> (#[trigger] us[i]).len() >= 1 && forall|j: int|
                0 <= j < us[i].len() ==> 0 <= #[trigger] us[i][j],
    ensures
        sum_valid(rs, us) >= 0,
        sum_fixed(rs, us) >= 0,
    decreases us.len(),
{
    if us.len() > 0 {
        assert(forall|i: int|
            0 <= i < us.drop_last().len() ==> #[trigger] us.drop_last()[i] == us[i]);
        lemma_sums_nonneg(rs, us.drop_last());
        lemma_middle_nonneg(rs, us.last());
    }
}

/// The values of a vector of machine integers.
pub open spec fn page_view(s: Seq<u64>) -> Seq<int> {
    s.map_values(|a: u64| a as int)
}

pub open spec fn rules_view(s: Seq<(u64, u64)>) -> Seq<(int, int)> {
    s.map_values(|p: (u64, u64)| (p.0 as int, p.1 as int))
}

/// Whether some rule demands `a` before `b`.
fn has_rule_exec(rules: &Vec<(u64, u64)>, a: u64, b: u64) -> (r: bool)
    ensures
        r == has_rule(rules_view(rules@), a as int, b as int),
{
    let n = rules.len();
    let mut i: usize = 0;
    while i < n
        invariant
            i <= n,
            n == rules@.len(),
            forall|k: int| 0 <= k < i ==> rules_view(rules@)[k] != (a as int, b as int),
        decreases n - i,
    {
        let p = rules[i];
        proof {
            assert(rules_view(rules@)[i as int] == (rules@[i as int].0 as int, rules@[i as int].1
                as int));
        }
        if p.0 == a && p.1 == b {
            proof {
                assert(rules_view(rules@)[i as int] == (a as int, b as int));
            }
            return true;
        }
        i += 1;
    }
    false
}

/// Whether some rule constrains `a` on its left side.
fn has_key_exec(rules: &Vec<(u64, u64)>, a: u64) -> (r: bool)
    ensures
        r == has_key(rules_view(rules@), a as int),
{
    let n = rules.len();
    let mut i: usize = 0;
    while i < n
        invariant
            i <= n,
            n == rules@.len(),
            forall|k: int| 0 <= k < i ==> (#[trigger] rules_view(rules@)[k]).0 != a as int,
        decreases n - i,
    {
        let p = rules[i];
        proof {
            assert(rules_view(rules@)[i as int] == (rules@[i as int].0 as int, rules@[i as int].1
                as int));
        }
        if p.0 == a {
            return true;
        }
        i += 1;
    }
    false
}

/// Whether the update respects the rules.
fn validate(rules: &Vec<(u64, u64)>, update: &Vec<u64>) -> (r: bool)
    ensures
        r == update_valid(rules_view(rules@), page_view(update@)),
{
    let ghost rs = rules_view(rules@);
    let ghost u = page_view(update@);
    let n = update.len();
    let mut i: usize = 0;
    while i < n
        invariant
            i <= n,
            n == update@.len(),
            rs == rules_view(rules@),
            u == page_view(update@),
            forall|i2: int, j2: int|
                0 <= i2 < j2 < u.len() && i2 < i ==> ((has_key(rs, #[trigger] u[i2]) ==> has_rule(
                    rs,
                    u[i2],
                    #[trigger] u[j2],
                )) && !has_rule(rs, u[j2], u[i2])),
        decreases n - i,
    {
        let mut j: usize = i + 1;
        while j < n
            invariant
                i < j <= n || (j == i + 1 && j > n),
                i < n,
                n == update@.len(),
                rs == rules_view(rules@),
                u == page_view(update@),
                forall|j2: int|
                    i < j2 < j ==> ((has_key(rs, u[i as int]) ==> has_rule(
                        rs,
                        u[i as int],
                        #[trigger] u[j2],
                    )) && !has_rule(rs, u[j2], u[i as int])),
            decreases n - j,
        {
            proof {
                assert(u[i as int] == update@[i as int] as int);
                assert(u[j as int] == update@[j as int] as int);
            }
            let key_i = has_key_exec(rules, update[i]);
            if key_i {
                if !has_rule_exec(rules, update[i], update[j]) {
                    return false;
                }
            }
            if has_rule_exec(rules, update[j], update[i]) {
                return false;
            }
            j += 1;
        }
        i += 1;
    }
    true
}

/// Unwinding `insert_by` past a prefix of pages that `x` need not precede.
proof fn lemma_insert_by_at(rs: Seq<(int, int)>, x: int, s: Seq<int>, i: int)
    requires
        0 <= i <= s.len(),
        forall|k: int| 0 <= k < i ==> !has_rule(rs, x, #[trigger] s[k]),
        i == s.len() || has_rule(rs, x, s[i]),
    ensures
        insert_by(rs, x, s) == s.take(i) + seq![x] + s.skip(i),
    decreases i,
{
    if i == 0 {
        if s.len() == 0 {
            assert(s.take(0) + seq![x] + s.skip(0) =~= seq![x]);
        } else {
            assert(s.take(0) + seq![x] + s.skip(0) =~= seq![x] + s);
        }
    } else {
        let t = s.drop_first();
        assert(forall|k: int|
            0 <= k < i - 1 ==> #[trigger] t[k] == s[k + 1] && !has_rule(rs, x, s[k + 1]));
        assert(!has_rule(rs, x, s[0]));
        lemma_insert_by_at(rs, x, t, i - 1);
        assert(seq![s[0]] + (t.take(i - 1) + seq![x] + t.skip(i - 1)) =~= s.take(i) + seq![x]
            + s.skip(i));
    }
}

/// Inserts `x` in front of the first page it must precede.
fn insert_by_exec(rules: &Vec<(u64, u64)>, x: u64, v: &Vec<u64>) -> (r: Vec<u64>)
    ensures
        page_view(r@) == insert_by(rules_view(rules@), x as int, page_view(v@)),
{
    let ghost rs = rules_view(rules@);
    let n = v.len();
    let mut out: Vec<u64> = Vec::new();
    let mut i: usize = 0;
    let mut placed = false;
    while i < n && !placed
        invariant
            i <= n,
            n == v@.len(),
            rs == rules_view(rules@),
            !placed ==> out@ =~= v@.take(i as int),
            !placed ==> forall|k: int| 0 <= k < i ==> !has_rule(rs, x as int, #[trigger] page_view(
                v@,
            )[k]),
            placed ==> 1 <= i <= n && has_rule(rs, x as int, page_view(v@)[i as int - 1])
                && (forall|k: int|
                0 <= k < i - 1 ==> !has_rule(rs, x as int, #[trigger] page_view(v@)[k])) && out@
                =~= v@.take(i as int - 1).push(x),
        decreases n - i + (if placed {
            0int
        } else {
            1int
        }),
    {
        proof {
            assert(page_view(v@)[i as int] == v@[i as int] as int);
        }
        if has_rule_exec(rules, x, v[i]) {
            out.push(x);
            placed = true;
        } else {
            out.push(v[i]);
        }
        i += 1;
    }
    if !placed {
        out.push(x);
        proof {
            assert(v@.take(n as int) =~= v@);
            lemma_insert_by_at(rs, x as int, page_view(v@), n as int);
            assert(page_view(v@).take(n as int) =~= page_view(v@));
            assert(page_view(v@).skip(n as int) =~= Seq::<int>::empty());
            assert(out@ =~= v@.push(x));
            assert(page_view(out@) =~= page_view(v@).take(n as int) + seq![x as int] + page_view(
                v@,
            ).skip(n as int));
        }
        return out;
    }
    let split = i - 1;
    let mut j: usize = split;
    while j < n
        invariant
            split <= j <= n,
            split < i <= n,
            n == v@.len(),
            out@ =~= v@.take(split as int).push(x) + v@.subrange(split as int, j as int),
        decreases n - j,
    {
        out.push(v[j]);
        proof {
            assert(out@ =~= v@.take(split as int).push(x) + v@.subrange(split as int, j as int
                + 1));
        }
        j += 1;
    }
    proof {
        lemma_insert_by_at(rs, x as int, page_view(v@), split as int);
        assert(out@ =~= v@.take(split as int).push(x) + v@.skip(split as int));
        assert(page_view(out@) =~= page_view(v@).take(split as int) + seq![x as int] + page_view(
            v@,
        ).skip(split as int));
    }
    out
}

/// Reorders the update by the rules.
fn sort_exec(rules: &Vec<(u64, u64)>, v: &Vec<u64>) -> (r: Vec<u64>)
    ensures
        page_view(r@) == sort_by_rules(rules_view(rules@), page_view(v@)),
{
    let ghost rs = rules_view(rules@);
    let n = v.len();
    let mut acc: Vec<u64> = Vec::new();
    let mut i: usize = 0;
    proof {
        assert(page_view(v@.take(0)) =~= Seq::<int>::empty());
        assert(page_view(acc@) =~= sort_by_rules(rs, page_view(v@.take(0))));
    }
    while i < n
        invariant
            i <= n,
            n == v@.len(),
            rs == rules_view(rules@),
            page_view(acc@) == sort_by_rules(rs, page_view(v@.take(i as int))),
        decreases n - i,
    {
        acc = insert_by_exec(rules, v[i], &acc);
        proof {
            let u = page_view(v@.take(i as int + 1));
            assert(u.drop_last() =~= page_view(v@.take(i as int)));
            assert(u.last() == v@[i as int] as int);
        }
        i += 1;
    }
    proof {
        assert(v@.take(n as int) =~= v@);
    }
    acc
}

/// Parses the two sections: the rules and the updates.
#[verifier::rlimit(80)]
fn parse(input: &str) -> (r: (Vec<(u64, u64)>, Vec<Vec<u64>>))
    requires
        day05_ok(input@),
    ensures
        rules_view(r.0@) == rules_of(input@),
        r.1@.len() == updates_of(input@).len(),
        forall|i: int|
            0 <= i < r.1@.len() ==> page_view(#[trigger] r.1@[i]@) == updates_of(input@)[i],
{
    let cs = text::chars_of(input);
    let pieces = text::split_by(&cs, '\n');
    let ghost ps = nl_pieces(input@);
    let n = pieces.len();
    // Find the first separating blank piece.
    let mut sep: usize = 1;
    proof {
        let w = choose|i: int| sep_at(input@, i);
        assert(ps.len() >= 3);
    }
    while sep < n && !(sep + 1 < n && pieces[sep].len() == 0)
        invariant
            1 <= sep <= n,
            n == pieces.len(),
            ps == nl_pieces(input@),
            text::views(pieces@) == ps,
            day05_ok(input@),
            forall|j: int| 1 <= j < sep ==> !sep_at(input@, j),
        decreases n - sep,
    {
        proof {
            assert(pieces@[sep as int]@ == ps[sep as int]);
        }
        sep += 1;
    }
    proof {
        let w = choose|i: int| sep_at(input@, i);
        if sep >= n || !(sep + 1 < n && pieces@[sep as int]@.len() == 0) {
            assert(!sep_at(input@, w));
            assert(false);
        }
        assert(pieces@[sep as int]@ == ps[sep as int]);
        assert(sep_at(input@, sep as int));
        let si = sep_idx(input@);
        assert(sep_at(input@, si) && forall|j: int| 1 <= j < si ==> !sep_at(input@, j)) by {
            assert(sep_at(input@, sep as int) && forall|j: int|
                1 <= j < sep as int ==> !sep_at(input@, j));
        }
        assert(si == sep as int);
    }
    // Split the pieces into the two sections.
    let mut front: Vec<Vec<char>> = Vec::new();
    let mut i: usize = 0;
    while i < sep
        invariant
            i <= sep,
            sep < n,
            n == pieces.len(),
            text::views(pieces@) == ps,
            text::views(front@) =~= ps.take(sep as int).take(i as int),
        decreases sep - i,
    {
        let mut piece: Vec<char> = Vec::new();
        let row = &pieces[i];
        let m = row.len();
        let mut c: usize = 0;
        while c < m
            invariant
                c <= m,
                m == row@.len(),
                piece@ =~= row@.take(c as int),
            decreases m - c,
        {
            piece.push(row[c]);
            c += 1;
        }
        proof {
            assert(piece@ =~= row@);
            assert(row@ == ps[i as int]);
            assert(ps.take(sep as int)[i as int] == ps[i as int]);
            assert(text::views(front@.push(piece)) =~= text::views(front@).push(piece@));
        }
        front.push(piece);
        i += 1;
    }
    let mut back: Vec<Vec<char>> = Vec::new();
    let mut i: usize = sep + 1;
    while i < n
        invariant
            sep + 1 <= i <= n,
            n == pieces.len(),
            text::views(pieces@) == ps,
            text::views(back@) =~= ps.skip(sep as int + 1).take(i as int - sep - 1),
        decreases n - i,
    {
        let mut piece: Vec<char> = Vec::new();
        let row = &pieces[i];
        let m = row.len();
        let mut c: usize = 0;
        while c < m
            invariant
                c <= m,
                m == row@.len(),
                piece@ =~= row@.take(c as int),
            decreases m - c,
        {
            piece.push(row[c]);
            c += 1;
        }
        proof {
            assert(piece@ =~= row@);
            assert(row@ == ps[i as int]);
            assert(ps.skip(sep as int + 1)[i as int - sep - 1] == ps[i as int]);
            assert(text::views(back@.push(piece)) =~= text::views(back@).push(piece@));
        }
        back.push(piece);
        i += 1;
    }
    proof {
        assert(ps.take(sep as int).take(sep as int) =~= ps.take(sep as int));
        assert(ps.skip(sep as int + 1).take(n as int - sep - 1) =~= ps.skip(sep as int + 1));
    }
    let rl = text::filter_trim(&front, Ghost(ps.take(sep as int)));
    let ul = text::filter_trim(&back, Ghost(ps.skip(sep as int + 1)));
    // Parse the rules.
    let ghost rls = rules_lines(input@);
    let mut rules: Vec<(u64, u64)> = Vec::new();
    let nr = rl.len();
    let mut i: usize = 0;
    while i < nr
        invariant
            i <= nr,
            nr == rl.len(),
            rls == rules_lines(input@),
            day05_ok(input@),
            text::views(rl@) == rls,
            rules@.len() == i,
            forall|k: int| 0 <= k < i ==> #[trigger] rules_view(rules@)[k] == rules_of(input@)[k],
        decreases nr - i,
    {
        let line = &rl[i];
        proof {
            assert(line@ == rls[i as int]);
        }
        let m = line.len();
        let mut k: usize = 0;
        while k < m && !(line[k] == '|')
            invariant
                k <= m,
                m == line@.len(),
                forall|j: int| 0 <= j < k ==> line@[j] != '|',
            decreases m - k,
        {
            k += 1;
        }
        proof {
            let l = rls[i as int];
            let bk = bar_idx(l);
            assert(0 <= bk < l.len() && l[bk] == '|');
            if k >= m {
                assert(l[bk] == '|');
                assert(false);
            }
            assert(l[k as int] == '|' && forall|j: int| 0 <= j < k ==> l[j] != '|');
            if bk < k as int {
                assert(l[bk] != '|');
                assert(false);
            }
            if bk > k as int {
                assert(forall|j: int| 0 <= j < bk ==> l[j] != '|');
                assert(l[k as int] != '|');
                assert(false);
            }
            assert(bk == k as int);
        }
        let mut left: Vec<char> = Vec::new();
        let mut c: usize = 0;
        while c < k
            invariant
                c <= k,
                k < m,
                m == line@.len(),
                left@ =~= line@.take(c as int),
            decreases k - c,
        {
            left.push(line[c]);
            c += 1;
        }
        let mut right: Vec<char> = Vec::new();
        let mut c: usize = k + 1;
        while c < m
            invariant
                k + 1 <= c <= m,
                m == line@.len(),
                right@ =~= line@.subrange(k as int + 1, c as int),
            decreases m - c,
        {
            right.push(line[c]);
            c += 1;
        }
        proof {
            assert(left@ =~= rls[i as int].take(k as int));
            assert(right@ =~= rls[i as int].skip(k as int + 1));
        }
        let a = text::parse_u64(&left);
        let b = text::parse_u64(&right);
        let ghost old_rules = rules@;
        rules.push((a, b));
        proof {
            let l = rls[i as int];
            assert(bar_idx(l) == k as int);
            assert(a as int == text::digits_val(l.take(k as int)));
            assert(b as int == text::digits_val(l.skip(k as int + 1)));
            assert(rule_of(l) == (a as int, b as int));
            assert(rules_view(rules@)[i as int] == (a as int, b as int));
            assert(rules_of(input@)[i as int] == rule_of(l));
            assert(forall|k2: int|
                0 <= k2 < i ==> rules@[k2] == old_rules[k2] && #[trigger] rules_view(rules@)[k2]
                    == rules_view(old_rules)[k2]);
        }
        i += 1;
    }
    proof {
        assert(rules_view(rules@) =~= rules_of(input@));
    }
    // Parse the updates.
    let ghost uls = update_lines(input@);
    let mut updates: Vec<Vec<u64>> = Vec::new();
    let nu = ul.len();
    let mut i: usize = 0;
    while i < nu
        invariant
            i <= nu,
            nu == ul.len(),
            uls == update_lines(input@),
            day05_ok(input@),
            text::views(ul@) == uls,
            updates@.len() == i,
            forall|k: int|
                0 <= k < i ==> page_view(#[trigger] updates@[k]@) == updates_of(input@)[k],
        decreases nu - i,
    {
        let line = &ul[i];
        proof {
            assert(line@ == uls[i as int]);
        }
        let parts = text::split_by(line, ',');
        let ghost specs = text::split_char(uls[i as int], ',');
        let np = parts.len();
        let mut pages: Vec<u64> = Vec::new();
        let mut j: usize = 0;
        while j < np
            invariant
                j <= np,
                np == parts.len(),
                day05_ok(input@),
                uls == update_lines(input@),
                0 <= i < uls.len(),
                specs == text::split_char(uls[i as int], ','),
                text::views(parts@) == specs,
                pages@.len() == j,
                forall|k: int|
                    0 <= k < j ==> #[trigger] pages@[k] as int == text::digits_val(specs[k]),
            decreases np - j,
        {
            proof {
                assert(parts@[j as int]@ == specs[j as int]);
                assert(specs[j as int].len() >= 1 && text::all_digits(specs[j as int]));
                assert(updates_of(input@)[i as int] == update_of(uls[i as int]));
                assert(update_of(uls[i as int])[j as int] == text::digits_val(specs[j as int]));
                assert(0 <= update_of(uls[i as int])[j as int] <= u64::MAX);
            }
            let v = text::parse_u64(&parts[j]);
            pages.push(v);
            j += 1;
        }
        proof {
            assert(page_view(pages@) =~= update_of(uls[i as int]));
        }
        updates.push(pages);
        i += 1;
    }
    (rules, updates)
}

/// Sums the middle pages of the updates that respect the rules.
#[verifier::rlimit(80)]
pub fn star_one(input: &str) -> (r: u64)
    requires
        day05_ok(input@),
    ensures
        r as int == sum_valid(rules_of(input@), updates_of(input@)),
{
    let ghost rs = rules_of(input@);
    let ghost us = updates_of(input@);
    let parsed = parse(input);
    let rules = parsed.0;
    let updates = parsed.1;
    let n = updates.len();
    let mut total: u64 = 0;
    proof {
        assert(us.take(0) =~= Seq::<Seq<int>>::empty());
    }
    let mut i: usize = 0;
    while i < n
        invariant
            i <= n,
            n == updates@.len(),
            n == us.len(),
            rs == rules_of(input@),
            us == updates_of(input@),
            day05_ok(input@),
            rules_view(rules@) == rs,
            forall|k: int| 0 <= k < n ==> page_view(#[trigger] updates@[k]@) == us[k],
            total as int == sum_valid(rs, us.take(i as int)),
        decreases n - i,
    {
        let u = &updates[i];
        proof {
            assert(page_view(u@) == us[i as int]);
            assert(us[i as int].len() >= 1);
        }
        let ok = validate(&rules, u);
        proof {
            assert(us.take(i as int + 1).drop_last() =~= us.take(i as int));
            assert(us.take(i as int + 1).last() == us[i as int]);
            lemma_sum_valid_bounds(rs, us, i as int + 1);
            lemma_sum_valid_bounds(rs, us, i as int);
            assert(page_view(u@)[u@.len() as int / 2] == u@[u@.len() as int / 2] as int);
        }
        if ok {
            let mid = u[u.len() / 2];
            total = total + mid;
        }
        i += 1;
    }
    proof {
        assert(us.take(n as int) =~= us);
    }
    total
}

/// Reorders the updates that break the rules and sums their middle pages.
#[verifier::rlimit(80)]
pub fn star_two(input: &str) -> (r: u64)
    requires
        day05_ok(input@),
    ensures
        r as int == sum_fixed(rules_of(input@), updates_of(input@)),
{
    let ghost rs = rules_of(input@);
    let ghost us = updates_of(input@);
    let parsed = parse(input);
    let rules = parsed.0;
    let updates = parsed.1;
    let n = updates.len();
    let mut total: u64 = 0;
    proof {
        assert(us.take(0) =~= Seq::<Seq<int>>::empty());
    }
    let mut i: usize = 0;
    while i < n
        invariant
            i <= n,
            n == updates@.len(),
            n == us.len(),
            rs == rules_of(input@),
            us == updates_of(input@),
            day05_ok(input@),
            rules_view(rules@) == rs,
            forall|k: int| 0 <= k < n ==> page_view(#[trigger] updates@[k]@) == us[k],
            total as int == sum_fixed(rs, us.take(i as int)),
        decreases n - i,
    {
        let u = &updates[i];
        proof {
            assert(page_view(u@) == us[i as int]);
            assert(us[i as int].len() >= 1);
        }
        let ok = validate(&rules, u);
        proof {
            assert(us.take(i as int + 1).drop_last() =~= us.take(i as int));
            assert(us.take(i as int + 1).last() == us[i as int]);
            lemma_sum_valid_bounds(rs, us, i as int + 1);
            lemma_sum_valid_bounds(rs, us, i as int);
        }
        if !ok {
            let sorted = sort_exec(&rules, u);
            proof {
                lemma_sort_members(rs, page_view(u@));
                assert(sorted@.len() == u@.len());
                assert(page_view(sorted@)[sorted@.len() as int / 2] == sorted@[sorted@.len() as int
                    / 2] as int);
                assert(middle(sort_by_rules(rs, us[i as int])) == page_view(sorted@)[page_view(
                    sorted@,
                ).len() as int / 2]);
            }
            let mid = sorted[sorted.len() / 2];
            total = total + mid;
        }
        i += 1;
    }
    proof {
        assert(us.take(n as int) =~= us);
    }
    total
}

} // verus!
