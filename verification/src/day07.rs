//! Calibration equations: each line gives a target and a list of values.
//! Operators are applied strictly left to right between the values; a line
//! counts when some choice of operators reaches the target.  The first part
//! allows addition and multiplication, the second also digit concatenation.
use vstd::prelude::*;

use crate::text;

verus! {

/// An operator between two adjacent values.
#[derive(Clone, Copy, PartialEq, Eq, Structural, Debug)]
pub enum Op {
    Add,
    Mul,
    Concat,
}

/// How many decimal digits a positive value has.
pub open spec fn num_digits(v: int) -> int
    decreases v,
{
    if v < 10 {
        1
    } else {
        1 + num_digits(v / 10)
    }
}

pub open spec fn pow10(d: int) -> int
    decreases d,
{
    if d <= 0 {
        1
    } else {
        10 * pow10(d - 1)
    }
}

/// The concatenation of the decimal digits of `v` after those of `a`.
pub open spec fn concat_val(a: int, v: int) -> int {
    a * pow10(num_digits(v)) + v
}

/// One operator applied to the running value and the next value.
pub open spec fn apply_op(acc: int, v: int, op: Op) -> int {
    match op {
        Op::Add => acc + v,
        Op::Mul => acc * v,
        Op::Concat => concat_val(acc, v),
    }
}

/// Some choice of operators over the values from position `i` on takes the
/// running value `acc` to `target`.  With `concat` false only addition and
/// multiplication may be chosen.
pub open spec fn reachable(vals: Seq<int>, i: int, acc: int, target: int, concat: bool) -> bool
    decreases vals.len() - i,
{
    if i < 0 || i >= vals.len() {
        acc == target
    } else {
        ||| reachable(vals, i + 1, acc + vals[i], target, concat)
        ||| reachable(vals, i + 1, acc * vals[i], target, concat)
        ||| (concat && reachable(vals, i + 1, concat_val(acc, vals[i]), target, concat))
    }
}

/// The whole line is solvable: starting from its first value, some operator
/// choice reaches the target.
pub open spec fn solvable(target: int, vals: Seq<int>, concat: bool) -> bool {
    vals.len() >= 1 && reachable(vals, 1, vals[0], target, concat)
}

/// The column of the first separator in a line.
pub open spec fn colon_idx(line: Seq<char>) -> int {
    choose|k: int|
        0 <= k < line.len() && line[k] == ':' && forall|j: int| 0 <= j < k ==> line[j] != ':'
}

/// The target value of a line.
pub open spec fn line_target(line: Seq<char>) -> int {
    text::digits_val(line.take(colon_idx(line)))
}

/// The values of a line.
pub open spec fn line_vals(line: Seq<char>) -> Seq<int> {
    text::ws_tokens(line.skip(colon_idx(line) + 1)).map_values(
        |t: Seq<char>| text::digits_val(t),
    )
}

/// The sum of the targets of the solvable lines.
pub open spec fn calib_sum(lines: Seq<Seq<char>>, concat: bool) -> int
    decreases lines.len(),
{
    if lines.len() == 0 {
        0
    } else {
        calib_sum(lines.drop_last(), concat) + if solvable(
            line_target(lines.last()),
            line_vals(lines.last()),
            concat,
        ) {
            line_target(lines.last())
        } else {
            0int
        }
    }
}

/// Every line is `target: v1 v2 ...` with decimal numbers in range, every
/// value at least one, and both possible sums fit the machine word.
pub open spec fn day07_ok(s: Seq<char>) -> bool {
    let lines = text::clean_lines(s);
    &&& (forall|i: int|
        0 <= i < lines.len() ==> {
            let l = #[trigger] lines[i];
            let k = colon_idx(l);
            &&& exists|k2: int| 0 <= k2 < l.len() && l[k2] == ':'
            &&& 0 <= k < l.len() && l[k] == ':'
            &&& k >= 1
            &&& text::all_digits(l.take(k))
            &&& 0 <= text::digits_val(l.take(k)) <= u64::MAX
            &&& k + 1 < l.len() && l[k + 1] == ' '
            &&& line_vals(l).len() >= 1
        })
    &&& (forall|i: int, j: int|
        0 <= i < lines.len() && 0 <= j < text::ws_tokens(
            (#[trigger] lines[i]).skip(colon_idx(lines[i]) + 1),
        ).len() ==> {
            let t = #[trigger] text::ws_tokens(lines[i].skip(colon_idx(lines[i]) + 1))[j];
            t.len() >= 1 && text::all_digits(t) && 1 <= text::digits_val(t) <= u64::MAX
        })
    &&& 0 <= calib_sum(lines, false) <= u64::MAX
    &&& 0 <= calib_sum(lines, true) <= u64::MAX
}

proof fn lemma_pow10_pos(d: int)
    ensures
        pow10(d) >= 1,
    decreases d,
{
    if d > 0 {
        lemma_pow10_pos(d - 1);
    }
}

proof fn lemma_num_digits_pos(v: int)
    ensures
        num_digits(v) >= 1,
    decreases v,
{
    if v >= 10 {
        lemma_num_digits_pos(v / 10);
    }
}

/// Ten to the digit count of `v` is at most ten times `v`.
proof fn lemma_pow10_digits(v: int)
    requires
        v >= 1,
    ensures
        pow10(num_digits(v)) <= 10 * v,
        pow10(num_digits(v)) >= 10,
    decreases v,
{
    if v < 10 {
        assert(num_digits(v) == 1);
        assert(pow10(0) == 1);
        assert(pow10(1) == 10);
    } else {
        lemma_pow10_digits(v / 10);
        assert(10 * (v / 10) <= v);
        assert(pow10(num_digits(v)) == 10 * pow10(num_digits(v / 10)));
    }
}

/// Once the running value exceeds the target it can never come back: every
/// operator is non-decreasing when all values are at least one.
proof fn lemma_overshoot(vals: Seq<int>, i: int, acc: int, target: int, concat: bool)
    requires
        forall|k: int| 0 <= k < vals.len() ==> #[trigger] vals[k] >= 1,
        acc > target,
        acc >= 1,
    ensures
        !reachable(vals, i, acc, target, concat),
    decreases vals.len() - i,
{
    if 0 <= i < vals.len() {
        let v = vals[i];
        assert(acc * v >= acc) by (nonlinear_arith)
            requires
                acc >= 1,
                v >= 1,
        ;
        lemma_num_digits_pos(v);
        lemma_pow10_pos(num_digits(v));
        assert(acc * pow10(num_digits(v)) >= acc) by (nonlinear_arith)
            requires
                acc >= 1,
                pow10(num_digits(v)) >= 1,
        ;
        assert(concat_val(acc, v) >= acc + 1);
        lemma_overshoot(vals, i + 1, acc + v, target, concat);
        lemma_overshoot(vals, i + 1, acc * v, target, concat);
        lemma_overshoot(vals, i + 1, concat_val(acc, v), target, concat);
    }
}

/// The number of decimal digits of a positive value.
fn digits_exec(v: u64) -> (d: u32)
    requires
        v >= 1,
    ensures
        d as int == num_digits(v as int),
        pow10(d as int) <= 10 * (v as int),
        1 <= d <= 20,
    decreases v,
{
    if v < 10 {
        proof {
            lemma_pow10_digits(v as int);
        }
        1
    } else {
        let sub = digits_exec(v / 10);
        proof {
            lemma_pow10_digits(v as int);
            lemma_num_digits_pos((v / 10) as int);
            if sub >= 20 {
                lemma_pow10_digits((v / 10) as int);
                assert(pow10(20) <= pow10(sub as int)) by {
                    lemma_pow10_mono(20, sub as int);
                }
                assert(pow10(20) == 100000000000000000000int) by {
                    reveal_with_fuel(pow10, 21);
                }
                assert(false);
            }
        }
        1 + sub
    }
}

proof fn lemma_pow10_mono(d1: int, d2: int)
    requires
        0 <= d1 <= d2,
    ensures
        pow10(d1) <= pow10(d2),
    decreases d2 - d1,
{
    if d1 < d2 {
        lemma_pow10_mono(d1, d2 - 1);
        lemma_pow10_pos(d2 - 1);
    }
}

/// Ten to the `d`-th power.
fn pow10_exec(d: u32) -> (r: u128)
    requires
        d <= 20,
    ensures
        r as int == pow10(d as int),
        r <= 100000000000000000000u128,
    decreases d,
{
    proof {
        lemma_pow10_mono(d as int, 20);
        assert(pow10(20) == 100000000000000000000int) by {
            reveal_with_fuel(pow10, 21);
        }
        lemma_pow10_pos(d as int);
    }
    if d == 0 {
        1
    } else {
        let sub = pow10_exec(d - 1);
        proof {
            lemma_pow10_mono(d as int - 1, 20);
        }
        10 * sub
    }
}

/// Whether some operator choice reaches the target from `acc`.
fn search(vals: &Vec<u64>, i: usize, acc: u64, target: u64, concat: bool) -> (r: bool)
    requires
        i <= vals@.len(),
        acc >= 1,
        forall|k: int| 0 <= k < vals@.len() ==> 1 <= #[trigger] vals@[k],
    ensures
        r == reachable(
            vals@.map_values(|a: u64| a as int),
            i as int,
            acc as int,
            target as int,
            concat,
        ),
    decreases vals@.len() - i,
{
    let ghost vs = vals@.map_values(|a: u64| a as int);
    if i == vals.len() {
        return acc == target;
    }
    let v = vals[i];
    proof {
        assert(vs[i as int] == vals@[i as int] as int);
    }
    // Addition.
    let a1: u128 = (acc as u128) + (v as u128);
    let ok1 = if a1 <= target as u128 {
        search(vals, i + 1, a1 as u64, target, concat)
    } else {
        proof {
            lemma_overshoot(vs, i as int + 1, acc + vals@[i as int], target as int, concat);
        }
        false
    };
    if ok1 {
        return true;
    }
    // Multiplication.
    proof {
        assert((acc as int) * (v as int) <= 0xFFFF_FFFF_FFFF_FFFFu128 * 0xFFFF_FFFF_FFFF_FFFFu128)
            by (nonlinear_arith)
            requires
                0 <= acc as int <= 0xFFFF_FFFF_FFFF_FFFFu128,
                0 <= v as int <= 0xFFFF_FFFF_FFFF_FFFFu128,
        ;
        assert(acc * vals@[i as int] >= 1) by (nonlinear_arith)
            requires
                acc >= 1,
                vals@[i as int] >= 1,
        ;
    }
    let a2: u128 = (acc as u128) * (v as u128);
    let ok2 = if a2 <= target as u128 {
        search(vals, i + 1, a2 as u64, target, concat)
    } else {
        proof {
            lemma_overshoot(vs, i as int + 1, acc * vals@[i as int], target as int, concat);
        }
        false
    };
    if ok2 {
        return true;
    }
    // Concatenation.
    if concat {
        let d = digits_exec(v);
        let p = pow10_exec(d);
        proof {
            lemma_pow10_pos(d as int);
            assert(p >= 1);
            assert(p as int <= 10 * (v as int));
        }
        let limit: u128 = (target as u128) / p;
        if (acc as u128) > limit {
            proof {
                let a = acc as int;
                let t = target as int;
                let pp = p as int;
                assert(limit as int == t / pp);
                vstd::arithmetic::div_mod::lemma_fundamental_div_mod(t, pp);
                assert(t == pp * (t / pp) + t % pp);
                vstd::arithmetic::div_mod::lemma_mod_bound(t, pp);
                assert(a >= t / pp + 1);
                assert(a * pp >= (t / pp + 1) * pp) by (nonlinear_arith)
                    requires
                        a >= t / pp + 1,
                        pp >= 1,
                ;
                assert((t / pp + 1) * pp == pp * (t / pp) + pp) by (nonlinear_arith);
                assert(a * pp > t);
                lemma_num_digits_pos(vs[i as int]);
                assert(concat_val(acc as int, vs[i as int]) > t);
                assert(concat_val(acc as int, vs[i as int]) >= 1);
                lemma_overshoot(
                    vs,
                    i as int + 1,
                    concat_val(acc as int, vs[i as int]),
                    target as int,
                    concat,
                );
            }
            return false;
        }
        proof {
            let a = acc as int;
            let t = target as int;
            let pp = p as int;
            assert(a <= t / pp);
            vstd::arithmetic::div_mod::lemma_fundamental_div_mod(t, pp);
            vstd::arithmetic::div_mod::lemma_mod_bound(t, pp);
            assert(a * pp <= (t / pp) * pp) by (nonlinear_arith)
                requires
                    a <= t / pp,
                    pp >= 1,
            ;
            assert((t / pp) * pp == pp * (t / pp)) by (nonlinear_arith);
            assert(a * pp <= t);
        }
        let big: u128 = (acc as u128) * p;
        let a3: u128 = big + (v as u128);
        proof {
            assert(a3 as int == concat_val(acc as int, vs[i as int]));
        }
        let ok3 = if a3 <= target as u128 {
            search(vals, i + 1, a3 as u64, target, concat)
        } else {
            proof {
                lemma_overshoot(
                    vs,
                    i as int + 1,
                    concat_val(acc as int, vs[i as int]),
                    target as int,
                    concat,
                );
            }
            false
        };
        if ok3 {
            return true;
        }
    }
    false
}

/// One calibration line: the target and its values.
pub struct Case {
    pub expected: u64,
    pub values: Vec<u64>,
}

/// The running value after applying the first `k` operators.
pub open spec fn eval_upto(vals: Seq<int>, ops: Seq<Op>, k: int) -> int
    decreases k,
{
    if k <= 0 {
        vals[0]
    } else {
        apply_op(eval_upto(vals, ops, k - 1), vals[k], ops[k - 1])
    }
}

/// The value of the whole chain: operators applied left to right, pairing
/// each operator with the next value until either runs out.
pub open spec fn eval_ops(vals: Seq<int>, ops: Seq<Op>) -> int {
    eval_upto(
        vals,
        ops,
        if vals.len() - 1 <= ops.len() {
            vals.len() - 1
        } else {
            ops.len() as int
        },
    )
}

/// Every intermediate value of the chain is in machine range.
pub open spec fn eval_fits(vals: Seq<int>, ops: Seq<Op>) -> bool {
    forall|k: int|
        0 <= k <= (if vals.len() - 1 <= ops.len() {
            vals.len() - 1
        } else {
            ops.len() as int
        }) ==> 0 <= #[trigger] eval_upto(vals, ops, k) <= u64::MAX
}

impl Case {
    pub open spec fn vals(&self) -> Seq<int> {
        self.values@.map_values(|a: u64| a as int)
    }

    /// The chain's value for the given operators.
    pub fn eval(&self, ops: &Vec<Op>) -> (r: u64)
        requires
            self.values@.len() >= 1,
            forall|k: int| 0 <= k < self.values@.len() ==> 1 <= #[trigger] self.values@[k],
            eval_fits(self.vals(), ops@),
        ensures
            r as int == eval_ops(self.vals(), ops@),
    {
        let ghost vs = self.vals();
        let mut acc = self.values[0];
        let n = self.values.len();
        let m = ops.len();
        let count = if n - 1 <= m {
            n - 1
        } else {
            m
        };
        proof {
            assert(count as int == (if vs.len() - 1 <= ops@.len() {
                vs.len() - 1
            } else {
                ops@.len() as int
            }));
            assert(vs[0] == self.values@[0] as int);
            assert(eval_upto(vs, ops@, 0) == vs[0]);
        }
        let mut k: usize = 0;
        while k < count
            invariant
                k <= count,
                count < n,
                count <= m,
                n == self.values@.len(),
                m == ops@.len(),
                vs == self.vals(),
                forall|k2: int| 0 <= k2 < self.values@.len() ==> 1 <= #[trigger] self.values@[k2],
                eval_fits(vs, ops@),
                count as int == (if vs.len() - 1 <= ops@.len() {
                    vs.len() - 1
                } else {
                    ops@.len() as int
                }),
                acc as int == eval_upto(vs, ops@, k as int),
            decreases count - k,
        {
            let v = self.values[k + 1];
            let op = ops[k];
            proof {
                assert(vs[k as int + 1] == self.values@[k as int + 1] as int);
                assert(eval_upto(vs, ops@, k as int + 1) == apply_op(
                    eval_upto(vs, ops@, k as int),
                    vs[k as int + 1],
                    ops@[k as int],
                ));
                assert(0 <= eval_upto(vs, ops@, k as int + 1) <= u64::MAX);
            }
            match op {
                Op::Add => {
                    let wide: u128 = (acc as u128) + (v as u128);
                    acc = wide as u64;
                },
                Op::Mul => {
                    let wide: u128 = (acc as u128) * (v as u128);
                    proof {
                        assert((acc as u128) * (v as u128) == (acc as int) * (v as int))
                            by (nonlinear_arith)
                            requires
                                acc as u128 == acc as int,
                                v as u128 == v as int,
                                0 <= acc as int,
                                0 <= v as int,
                        ;
                    }
                    acc = wide as u64;
                },
                Op::Concat => {
                    let d = digits_exec(v);
                    let p = pow10_exec(d);
                    let wide: u128 = (acc as u128) * (p as u128) + (v as u128);
                    proof {
                        assert((acc as u128) * (p as u128) == (acc as int) * (p as int))
                            by (nonlinear_arith)
                            requires
                                acc as u128 == acc as int,
                                p as u128 == p as int,
                                0 <= acc as int,
                                0 <= p as int,
                                acc as int <= 0xFFFF_FFFF_FFFF_FFFFi128,
                                p as int <= 100000000000000000000i128,
                        ;
                        assert(wide as int == concat_val(acc as int, v as int));
                    }
                    acc = wide as u64;
                },
            }
            k += 1;
        }
        acc
    }

    /// Whether the chain's value equals the expected target.
    pub fn is_correct(&self, ops: &Vec<Op>) -> (r: bool)
        requires
            self.values@.len() >= 1,
            forall|k: int| 0 <= k < self.values@.len() ==> 1 <= #[trigger] self.values@[k],
            eval_fits(self.vals(), ops@),
        ensures
            r == (eval_ops(self.vals(), ops@) == self.expected as int),
    {
        let value = self.eval(ops);
        value == self.expected
    }
}

proof fn lemma_calib_bounds(lines: Seq<Seq<char>>, concat: bool, k: int)
    requires
        0 <= k <= lines.len(),
        forall|i: int| 0 <= i < lines.len() ==> line_target(#[trigger] lines[i]) >= 0,
    ensures
        0 <= calib_sum(lines.take(k), concat) <= calib_sum(lines, concat),
    decreases lines.len() - k,
{
    if k == lines.len() {
        assert(lines.take(k) =~= lines);
        lemma_calib_nonneg(lines, concat);
    } else {
        lemma_calib_bounds(lines, concat, k + 1);
        assert(forall|i: int|
            0 <= i < lines.take(k).len() ==> #[trigger] lines.take(k)[i] == lines[i]);
        lemma_calib_nonneg(lines.take(k), concat);
        assert(lines.take(k + 1).drop_last() =~= lines.take(k));
        assert(lines.take(k + 1).last() == lines[k]);
    }
}

proof fn lemma_calib_nonneg(lines: Seq<Seq<char>>, concat: bool)
    requires
        forall|i: int| 0 <= i < lines.len() ==> line_target(#[trigger] lines[i]) >= 0,
    ensures
        calib_sum(lines, concat) >= 0,
    decreases lines.len(),
{
    if lines.len() > 0 {
        assert(forall|i: int|
            0 <= i < lines.drop_last().len() ==> #[trigger] lines.drop_last()[i] == lines[i]);
        lemma_calib_nonneg(lines.drop_last(), concat);
    }
}

/// Parses one line into its target and values.
fn parse_case(line: &Vec<char>, Ghost(spec_line): Ghost<Seq<char>>) -> (r: Case)
    requires
        line@ == spec_line,
        ({
            let k = colon_idx(spec_line);
            &&& exists|k2: int| 0 <= k2 < spec_line.len() && spec_line[k2] == ':'
            &&& 0 <= k < spec_line.len() && spec_line[k] == ':'
            &&& k >= 1
            &&& text::all_digits(spec_line.take(k))
            &&& 0 <= text::digits_val(spec_line.take(k)) <= u64::MAX
        }),
        forall|j: int|
            0 <= j < text::ws_tokens(spec_line.skip(colon_idx(spec_line) + 1)).len() ==> {
                let t = #[trigger] text::ws_tokens(spec_line.skip(colon_idx(spec_line) + 1))[j];
                t.len() >= 1 && text::all_digits(t) && 1 <= text::digits_val(t) <= u64::MAX
            },
    ensures
        r.expected as int == line_target(spec_line),
        r.vals() == line_vals(spec_line),
        forall|k: int| 0 <= k < r.values@.len() ==> 1 <= #[trigger] r.values@[k],
{
    let m = line.len();
    let mut k: usize = 0;
    while k < m && !(line[k] == ':')
        invariant
            k <= m,
            m == line@.len(),
            forall|j: int| 0 <= j < k ==> line@[j] != ':',
        decreases m - k,
    {
        k += 1;
    }
    proof {
        let ci = colon_idx(spec_line);
        if k >= m {
            assert(spec_line[ci] == ':');
            assert(false);
        }
        if ci < k as int {
            assert(spec_line[ci] != ':');
            assert(false);
        }
        if ci > k as int {
            assert(forall|j: int| 0 <= j < ci ==> spec_line[j] != ':');
            assert(spec_line[k as int] != ':');
            assert(false);
        }
        assert(ci == k as int);
    }
    let mut head: Vec<char> = Vec::new();
    let mut c: usize = 0;
    while c < k
        invariant
            c <= k,
            k < m,
            m == line@.len(),
            head@ =~= line@.take(c as int),
        decreases k - c,
    {
        head.push(line[c]);
        c += 1;
    }
    proof {
        assert(head@ =~= spec_line.take(k as int));
    }
    let expected = text::parse_u64(&head);
    let mut tail: Vec<char> = Vec::new();
    let mut c: usize = k + 1;
    while c < m
        invariant
            k + 1 <= c <= m,
            m == line@.len(),
            tail@ =~= line@.subrange(k as int + 1, c as int),
        decreases m - c,
    {
        tail.push(line[c]);
        c += 1;
    }
    proof {
        assert(tail@ =~= spec_line.skip(k as int + 1));
    }
    let toks = text::tokens_of(&tail);
    let ghost spec_toks = text::ws_tokens(spec_line.skip(k as int + 1));
    let nt = toks.len();
    let mut values: Vec<u64> = Vec::new();
    let mut j: usize = 0;
    while j < nt
        invariant
            j <= nt,
            nt == toks.len(),
            text::views(toks@) == spec_toks,
            forall|j2: int|
                0 <= j2 < spec_toks.len() ==> {
                    let t = #[trigger] spec_toks[j2];
                    t.len() >= 1 && text::all_digits(t) && 1 <= text::digits_val(t) <= u64::MAX
                },
            values@.len() == j,
            forall|j2: int|
                0 <= j2 < j ==> 1 <= #[trigger] values@[j2] && values@[j2] as int
                    == text::digits_val(spec_toks[j2]),
        decreases nt - j,
    {
        proof {
            assert(toks@[j as int]@ == spec_toks[j as int]);
        }
        let v = text::parse_u64(&toks[j]);
        values.push(v);
        j += 1;
    }
    let case = Case { expected, values };
    proof {
        assert(case.vals() =~= line_vals(spec_line));
    }
    case
}

/// Sums the targets of the lines solvable with addition and multiplication.
pub fn star_one(input: &str) -> (r: u64)
    requires
        day07_ok(input@),
    ensures
        r as int == calib_sum(text::clean_lines(input@), false),
{
    solve(input, false)
}

/// Sums the targets of the lines solvable with addition, multiplication and
/// concatenation.
pub fn star_two(input: &str) -> (r: u64)
    requires
        day07_ok(input@),
    ensures
        r as int == calib_sum(text::clean_lines(input@), true),
{
    solve(input, true)
}

#[verifier::rlimit(80)]
fn solve(input: &str, concat: bool) -> (r: u64)
    requires
        day07_ok(input@),
    ensures
        r as int == calib_sum(text::clean_lines(input@), concat),
{
    let cs = text::chars_of(input);
    let lines = text::clean_lines_of(&cs);
    let ghost sl = text::clean_lines(input@);
    let n = lines.len();
    let mut total: u64 = 0;
    proof {
        assert(sl.take(0) =~= Seq::<Seq<char>>::empty());
        assert forall|i: int| 0 <= i < sl.len() implies line_target(#[trigger] sl[i]) >= 0 by {
            text::lemma_digits_val_nonneg(sl[i].take(colon_idx(sl[i])));
        }
    }
    let mut i: usize = 0;
    while i < n
        invariant
            i <= n,
            n == lines.len(),
            sl == text::clean_lines(input@),
            day07_ok(input@),
            text::views(lines@) == sl,
            forall|i2: int| 0 <= i2 < sl.len() ==> line_target(#[trigger] sl[i2]) >= 0,
            total as int == calib_sum(sl.take(i as int), concat),
        decreases n - i,
    {
        proof {
            assert(lines@[i as int]@ == sl[i as int]);
        }
        let case = parse_case(&lines[i], Ghost(sl[i as int]));
        proof {
            assert(line_vals(sl[i as int]).len() >= 1);
            assert(case.values@.len() == case.vals().len());
            assert(case.vals()[0] == case.values@[0] as int);
        }
        let hitit = search(&case.values, 1, case.values[0], case.expected, concat);
        proof {
            assert(hitit == solvable(case.expected as int, case.vals(), concat));
            assert(sl.take(i as int + 1).drop_last() =~= sl.take(i as int));
            assert(sl.take(i as int + 1).last() == sl[i as int]);
            lemma_calib_bounds(sl, concat, i as int + 1);
            lemma_calib_bounds(sl, concat, i as int);
        }
        if hitit {
            total = total + case.expected;
        }
        i += 1;
    }
    proof {
        assert(sl.take(n as int) =~= sl);
    }
    total
}

} // verus!
