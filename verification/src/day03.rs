//! Corrupted memory scanning: summing every well-formed product
//! instruction `mul(a,b)` in the text, and honouring `do()` / `don't()`
//! toggles that enable and disable the products that follow them.
use vstd::prelude::*;

use crate::text;

verus! {

/// The length of the run of decimal digits at the front of `s`.
pub open spec fn digit_run(s: Seq<char>) -> int
    decreases s.len(),
{
    if s.len() > 0 && text::is_digit(s[0]) {
        1 + digit_run(s.drop_first())
    } else {
        0
    }
}

/// The length of the run of whitespace at the front of `s`.
pub open spec fn ws_run(s: Seq<char>) -> int
    decreases s.len(),
{
    if s.len() > 0 && text::is_any_ws(s[0]) {
        1 + ws_run(s.drop_first())
    } else {
        0
    }
}

/// A product instruction starts at the front of `s`: the opening keyword,
/// a digit run, optional whitespace, a comma, optional whitespace, a digit
/// run, and the closing parenthesis.
pub open spec fn mul_at(s: Seq<char>) -> bool {
    let t = s.skip(4);
    let d1 = digit_run(t);
    let t2 = t.skip(d1);
    let w1 = ws_run(t2);
    let t3 = t2.skip(w1);
    let t4 = t3.skip(1);
    let w2 = ws_run(t4);
    let t5 = t4.skip(w2);
    let d2 = digit_run(t5);
    &&& s.len() >= 4
    &&& s[0] == 'm' && s[1] == 'u' && s[2] == 'l' && s[3] == '('
    &&& d1 >= 1
    &&& 0 <= w1
    &&& t3.len() >= 1 && t3[0] == ','
    &&& 0 <= w2
    &&& d2 >= 1
    &&& t5.len() > d2 && t5[d2] == ')'
    &&& 4 + d1 + w1 + 1 + w2 + d2 + 1 <= s.len()
}

/// The first operand of the product instruction at the front of `s`.
pub open spec fn mul_a(s: Seq<char>) -> int {
    let t = s.skip(4);
    text::digits_val(t.take(digit_run(t)))
}

/// The second operand.
pub open spec fn mul_b(s: Seq<char>) -> int {
    let t = s.skip(4);
    let d1 = digit_run(t);
    let t2 = t.skip(d1);
    let w1 = ws_run(t2);
    let t4 = t2.skip(w1).skip(1);
    let w2 = ws_run(t4);
    let t5 = t4.skip(w2);
    text::digits_val(t5.take(digit_run(t5)))
}

/// The number of characters the product instruction spans.
pub open spec fn mul_len(s: Seq<char>) -> int {
    let t = s.skip(4);
    let d1 = digit_run(t);
    let t2 = t.skip(d1);
    let w1 = ws_run(t2);
    let t4 = t2.skip(w1).skip(1);
    let w2 = ws_run(t4);
    let d2 = digit_run(t4.skip(w2));
    4 + d1 + w1 + 1 + w2 + d2 + 1
}

/// A disabling toggle starts at the front of `s`.
pub open spec fn dont_at(s: Seq<char>) -> bool {
    s.len() >= 7 && s[0] == 'd' && s[1] == 'o' && s[2] == 'n' && s[3] == '\'' && s[4] == 't'
        && s[5] == '(' && s[6] == ')'
}

/// An enabling toggle starts at the front of `s`.
pub open spec fn do_at(s: Seq<char>) -> bool {
    s.len() >= 4 && s[0] == 'd' && s[1] == 'o' && s[2] == '(' && s[3] == ')'
}

/// The sum of all products: scanning left to right, each instruction is
/// consumed where it matches, and everything else is skipped a character at
/// a time.
pub open spec fn scan_all(s: Seq<char>) -> int
    decreases s.len(),
{
    if s.len() == 0 {
        0
    } else if mul_at(s) {
        mul_a(s) * mul_b(s) + scan_all(s.skip(mul_len(s)))
    } else {
        scan_all(s.drop_first())
    }
}

/// The sum of the enabled products: a disabling toggle silences the
/// products that follow until an enabling toggle, and disabled products are
/// still consumed whole.
pub open spec fn scan_toggled(s: Seq<char>, active: bool) -> int
    decreases s.len(),
{
    if s.len() == 0 {
        0
    } else if dont_at(s) {
        scan_toggled(s.skip(7), false)
    } else if do_at(s) {
        scan_toggled(s.skip(4), true)
    } else if mul_at(s) {
        (if active {
            mul_a(s) * mul_b(s)
        } else {
            0int
        }) + scan_toggled(s.skip(mul_len(s)), active)
    } else {
        scan_toggled(s.drop_first(), active)
    }
}

/// Every operand along the plain scan fits the machine word.
pub open spec fn muls_ok(s: Seq<char>) -> bool
    decreases s.len(),
{
    if s.len() == 0 {
        true
    } else if mul_at(s) {
        &&& 0 <= mul_a(s) <= u64::MAX
        &&& 0 <= mul_b(s) <= u64::MAX
        &&& muls_ok(s.skip(mul_len(s)))
    } else {
        muls_ok(s.drop_first())
    }
}

/// Every operand along the toggled scan fits the machine word.
pub open spec fn muls_ok_toggled(s: Seq<char>) -> bool
    decreases s.len(),
{
    if s.len() == 0 {
        true
    } else if dont_at(s) {
        muls_ok_toggled(s.skip(7))
    } else if do_at(s) {
        muls_ok_toggled(s.skip(4))
    } else if mul_at(s) {
        &&& 0 <= mul_a(s) <= u64::MAX
        &&& 0 <= mul_b(s) <= u64::MAX
        &&& muls_ok_toggled(s.skip(mul_len(s)))
    } else {
        muls_ok_toggled(s.drop_first())
    }
}

/// Operands in range and both sums in range.
pub open spec fn day03_ok(s: Seq<char>) -> bool {
    &&& muls_ok(s)
    &&& muls_ok_toggled(s)
    &&& 0 <= scan_all(s) <= i64::MAX
    &&& 0 <= scan_toggled(s, true) <= i64::MAX
}

proof fn lemma_digits_nonneg(s: Seq<char>)
    ensures
        text::digits_val(s.take(digit_run(s))) >= 0,
    decreases s.len(),
{
    if s.len() > 0 && text::is_digit(s[0]) {
        lemma_run_digits_all(s);
        let k = digit_run(s);
        assert(forall|i: int| 0 <= i < k ==> s.take(k)[i] == s[i]);
        assert(text::all_digits(s.take(k)));
        text::lemma_digits_val_nonneg(s.take(k));
    } else {
        assert(s.take(0) =~= Seq::<char>::empty());
    }
}

/// The digit run really is made of digits.
proof fn lemma_run_digits_all(s: Seq<char>)
    ensures
        digit_run(s) >= 0,
        digit_run(s) <= s.len(),
        forall|i: int| 0 <= i < digit_run(s) ==> text::is_digit(#[trigger] s[i]),
    decreases s.len(),
{
    if s.len() > 0 && text::is_digit(s[0]) {
        lemma_run_digits_all(s.drop_first());
        assert(forall|i: int|
            1 <= i < digit_run(s) ==> s[i] == s.drop_first()[i - 1] && text::is_digit(
                #[trigger] s[i],
            ));
    }
}

proof fn lemma_mul_product_nonneg(s: Seq<char>)
    requires
        mul_at(s),
    ensures
        mul_a(s) >= 0,
        mul_b(s) >= 0,
        mul_a(s) * mul_b(s) >= 0,
{
    lemma_digits_nonneg(s.skip(4));
    let t = s.skip(4);
    let d1 = digit_run(t);
    let t2 = t.skip(d1);
    let w1 = ws_run(t2);
    let t4 = t2.skip(w1).skip(1);
    let w2 = ws_run(t4);
    let t5 = t4.skip(w2);
    lemma_digits_nonneg(t5);
    assert(mul_a(s) * mul_b(s) >= 0) by (nonlinear_arith)
        requires
            mul_a(s) >= 0,
            mul_b(s) >= 0,
    ;
}

proof fn lemma_scan_all_nonneg(s: Seq<char>)
    ensures
        scan_all(s) >= 0,
    decreases s.len(),
{
    if s.len() > 0 {
        if mul_at(s) {
            lemma_mul_product_nonneg(s);
            lemma_scan_all_nonneg(s.skip(mul_len(s)));
        } else {
            lemma_scan_all_nonneg(s.drop_first());
        }
    }
}

proof fn lemma_scan_toggled_nonneg(s: Seq<char>, active: bool)
    ensures
        scan_toggled(s, active) >= 0,
    decreases s.len(),
{
    if s.len() > 0 {
        if dont_at(s) {
            lemma_scan_toggled_nonneg(s.skip(7), false);
        } else if do_at(s) {
            lemma_scan_toggled_nonneg(s.skip(4), true);
        } else if mul_at(s) {
            lemma_mul_product_nonneg(s);
            lemma_scan_toggled_nonneg(s.skip(mul_len(s)), active);
        } else {
            lemma_scan_toggled_nonneg(s.drop_first(), active);
        }
    }
}

/// Whether `c` is a decimal digit.
fn is_digit_char(c: char) -> (r: bool)
    ensures
        r == text::is_digit(c),
{
    let u = c as u32;
    48 <= u && u <= 57
}

/// Whether `c` is whitespace.
fn is_ws_char(c: char) -> (r: bool)
    ensures
        r == text::is_any_ws(c),
{
    c == ' ' || c == '\t' || c == '\r' || c == '\n'
}

/// The end of the run of decimal digits starting at `from`.
fn run_digits(cs: &Vec<char>, from: usize) -> (r: usize)
    requires
        from <= cs@.len(),
    ensures
        r as int == digit_run(cs@.skip(from as int)),
        from + r <= cs@.len(),
{
    let n = cs.len();
    let mut j = from;
    while j < n && is_digit_char(cs[j])
        invariant
            from <= j <= n,
            n == cs@.len(),
            digit_run(cs@.skip(from as int)) == (j - from) + digit_run(cs@.skip(j as int)),
        decreases n - j,
    {
        proof {
            let rem = cs@.skip(j as int);
            assert(rem[0] == cs@[j as int]);
            assert(text::is_digit(rem[0]));
            assert(rem.drop_first() =~= cs@.skip(j as int + 1));
        }
        j += 1;
    }
    proof {
        let rem = cs@.skip(j as int);
        if rem.len() > 0 {
            assert(rem[0] == cs@[j as int]);
        }
        assert(digit_run(rem) == 0);
    }
    j - from
}

/// The end of the run of whitespace starting at `from`.
fn run_ws(cs: &Vec<char>, from: usize) -> (r: usize)
    requires
        from <= cs@.len(),
    ensures
        r as int == ws_run(cs@.skip(from as int)),
        from + r <= cs@.len(),
{
    let n = cs.len();
    let mut j = from;
    while j < n && is_ws_char(cs[j])
        invariant
            from <= j <= n,
            n == cs@.len(),
            ws_run(cs@.skip(from as int)) == (j - from) + ws_run(cs@.skip(j as int)),
        decreases n - j,
    {
        proof {
            let rem = cs@.skip(j as int);
            assert(rem[0] == cs@[j as int]);
            assert(text::is_any_ws(rem[0]));
            assert(rem.drop_first() =~= cs@.skip(j as int + 1));
        }
        j += 1;
    }
    proof {
        let rem = cs@.skip(j as int);
        if rem.len() > 0 {
            assert(rem[0] == cs@[j as int]);
        }
        assert(ws_run(rem) == 0);
    }
    j - from
}

/// Tries to read a product instruction starting at `i`; on success hands
/// back the two operands and the length consumed.
#[verifier::rlimit(80)]
fn match_mul(cs: &Vec<char>, i: usize) -> (r: Option<(u64, u64, usize)>)
    requires
        i <= cs@.len(),
        mul_at(cs@.skip(i as int)) ==> 0 <= mul_a(cs@.skip(i as int)) <= u64::MAX && 0 <= mul_b(
            cs@.skip(i as int),
        ) <= u64::MAX,
    ensures
        r is Some <==> mul_at(cs@.skip(i as int)),
        r matches Some(m) ==> {
            &&& m.0 as int == mul_a(cs@.skip(i as int))
            &&& m.1 as int == mul_b(cs@.skip(i as int))
            &&& m.2 as int == mul_len(cs@.skip(i as int))
            &&& 7 <= m.2
            &&& i + m.2 <= cs@.len()
        },
{
    let ghost s = cs@.skip(i as int);
    let n = cs.len();
    proof {
        assert(forall|k: int| 0 <= k < s.len() ==> #[trigger] s[k] == cs@[i + k]);
    }
    if !(n - i >= 4 && cs[i] == 'm' && cs[i + 1] == 'u' && cs[i + 2] == 'l' && cs[i + 3] == '(') {
        return None;
    }
    let ghost t = s.skip(4);
    proof {
        assert(t =~= cs@.skip(i as int + 4));
    }
    let d1 = run_digits(cs, i + 4);
    if d1 == 0 {
        return None;
    }
    let ghost t2 = t.skip(d1 as int);
    proof {
        assert(t2 =~= cs@.skip(i as int + 4 + d1 as int));
    }
    let w1 = run_ws(cs, i + 4 + d1);
    let p1 = i + 4 + d1 + w1;
    let ghost t3 = t2.skip(w1 as int);
    proof {
        assert(t3 =~= cs@.skip(p1 as int));
    }
    if !(p1 < n && cs[p1] == ',') {
        proof {
            if t3.len() >= 1 {
                assert(t3[0] == cs@[p1 as int]);
            }
        }
        return None;
    }
    proof {
        assert(t3[0] == cs@[p1 as int]);
    }
    let ghost t4 = t3.skip(1);
    proof {
        assert(t4 =~= cs@.skip(p1 as int + 1));
    }
    let w2 = run_ws(cs, p1 + 1);
    let p2 = p1 + 1 + w2;
    let ghost t5 = t4.skip(w2 as int);
    proof {
        assert(t5 =~= cs@.skip(p2 as int));
    }
    let d2 = run_digits(cs, p2);
    if d2 == 0 {
        return None;
    }
    let p3 = p2 + d2;
    if !(p3 < n && cs[p3] == ')') {
        proof {
            if t5.len() > d2 {
                assert(t5[d2 as int] == cs@[p3 as int]);
            }
        }
        return None;
    }
    proof {
        assert(t5[d2 as int] == cs@[p3 as int]);
        assert(mul_at(s));
    }
    // Parse the two operands.
    let mut left: Vec<char> = Vec::new();
    let stop1 = i + 4 + d1;
    let mut c: usize = i + 4;
    while c < stop1
        invariant
            i + 4 <= c <= stop1,
            stop1 == i + 4 + d1,
            stop1 <= cs@.len(),
            left@ =~= cs@.subrange(i as int + 4, c as int),
        decreases stop1 - c,
    {
        left.push(cs[c]);
        c += 1;
    }
    proof {
        assert(left@ =~= t.take(d1 as int));
        lemma_run_digits_all(t);
        assert(forall|k: int| 0 <= k < d1 ==> t.take(d1 as int)[k] == t[k]);
        assert(text::all_digits(left@));
    }
    let a = text::parse_u64(&left);
    let mut right: Vec<char> = Vec::new();
    let mut c: usize = p2;
    while c < p3
        invariant
            p2 <= c <= p3,
            p3 <= cs@.len(),
            right@ =~= cs@.subrange(p2 as int, c as int),
        decreases p3 - c,
    {
        right.push(cs[c]);
        c += 1;
    }
    proof {
        assert(right@ =~= t5.take(d2 as int));
        lemma_run_digits_all(t5);
        assert(forall|k: int| 0 <= k < d2 ==> t5.take(d2 as int)[k] == t5[k]);
        assert(text::all_digits(right@));
    }
    let b = text::parse_u64(&right);
    proof {
        assert(a as int == mul_a(s));
        assert(b as int == mul_b(s));
        assert((p3 + 1 - i) as int == mul_len(s));
    }
    Some((a, b, p3 + 1 - i))
}

/// Sums every product instruction in the text.
#[verifier::rlimit(80)]
pub fn star_one(input: &str) -> (r: i64)
    requires
        day03_ok(input@),
    ensures
        r as int == scan_all(input@),
{
    let cs = text::chars_of(input);
    let ghost s = input@;
    let n = cs.len();
    let mut total: i64 = 0;
    let mut i: usize = 0;
    proof {
        assert(s.skip(0) =~= s);
    }
    while i < n
        invariant
            i <= n,
            n == cs@.len(),
            cs@ == s,
            muls_ok(s.skip(i as int)),
            0 <= scan_all(s) <= i64::MAX,
            total as int == scan_all(s) - scan_all(s.skip(i as int)),
            total >= 0,
        decreases n - i,
    {
        let ghost rem = s.skip(i as int);
        proof {
            assert(rem.len() > 0);
        }
        let hit = match_mul(&cs, i);
        match hit {
            Some(m) => {
                let (a, b, l) = m;
                proof {
                    assert(scan_all(rem) == mul_a(rem) * mul_b(rem) + scan_all(
                        rem.skip(mul_len(rem)),
                    ));
                    assert(rem.skip(mul_len(rem)) =~= s.skip(i as int + l as int));
                    lemma_mul_product_nonneg(rem);
                    lemma_scan_all_nonneg(s.skip(i as int + l as int));
                    lemma_scan_all_nonneg(rem);
                    assert((a as int) * (b as int) == mul_a(rem) * mul_b(rem));
                    assert((a as int) * (b as int) <= 0xFFFF_FFFF_FFFF_FFFFu128
                        * 0xFFFF_FFFF_FFFF_FFFFu128) by (nonlinear_arith)
                        requires
                            0 <= a as int <= 0xFFFF_FFFF_FFFF_FFFFu128,
                            0 <= b as int <= 0xFFFF_FFFF_FFFF_FFFFu128,
                    ;
                    assert(muls_ok(rem.skip(mul_len(rem))));
                }
                let prod: i128 = (a as i128) * (b as i128);
                proof {
                    assert(prod as int == mul_a(rem) * mul_b(rem));
                    assert(total + prod == scan_all(s) - scan_all(s.skip(i as int + l as int)));
                    assert(total + prod <= scan_all(s));
                }
                total = total + (prod as i64);
                i = i + l;
            },
            None => {
                proof {
                    assert(rem.drop_first() =~= s.skip(i as int + 1));
                    assert(scan_all(rem) == scan_all(s.skip(i as int + 1)));
                    assert(muls_ok(s.skip(i as int + 1)));
                }
                i += 1;
            },
        }
    }
    proof {
        assert(s.skip(n as int) =~= Seq::<char>::empty());
        assert(scan_all(Seq::<char>::empty()) == 0);
    }
    total
}

/// Sums the enabled product instructions, honouring the toggles.
#[verifier::rlimit(80)]
pub fn star_two(input: &str) -> (r: i64)
    requires
        day03_ok(input@),
    ensures
        r as int == scan_toggled(input@, true),
{
    let cs = text::chars_of(input);
    let ghost s = input@;
    let n = cs.len();
    let mut total: i64 = 0;
    let mut active = true;
    let mut i: usize = 0;
    proof {
        assert(s.skip(0) =~= s);
    }
    while i < n
        invariant
            i <= n,
            n == cs@.len(),
            cs@ == s,
            muls_ok_toggled(s.skip(i as int)),
            0 <= scan_toggled(s, true) <= i64::MAX,
            total as int == scan_toggled(s, true) - scan_toggled(s.skip(i as int), active),
            total >= 0,
        decreases n - i,
    {
        let ghost rem = s.skip(i as int);
        proof {
            assert(rem.len() > 0);
            assert(forall|k: int| 0 <= k < rem.len() ==> #[trigger] rem[k] == cs@[i + k]);
        }
        let is_dont = n - i >= 7 && cs[i] == 'd' && cs[i + 1] == 'o' && cs[i + 2] == 'n' && cs[i
            + 3] == '\'' && cs[i + 4] == 't' && cs[i + 5] == '(' && cs[i + 6] == ')';
        proof {
            assert(is_dont == dont_at(rem));
        }
        if is_dont {
            proof {
                assert(rem.skip(7) =~= s.skip(i as int + 7));
                lemma_scan_toggled_nonneg(s.skip(i as int + 7), false);
            }
            active = false;
            i += 7;
            continue ;
        }
        let is_do = n - i >= 4 && cs[i] == 'd' && cs[i + 1] == 'o' && cs[i + 2] == '(' && cs[i + 3]
            == ')';
        proof {
            assert(is_do == do_at(rem));
        }
        if is_do {
            proof {
                assert(rem.skip(4) =~= s.skip(i as int + 4));
                lemma_scan_toggled_nonneg(s.skip(i as int + 4), true);
            }
            active = true;
            i += 4;
            continue ;
        }
        let hit = match_mul(&cs, i);
        match hit {
            Some(m) => {
                let (a, b, l) = m;
                proof {
                    assert(scan_toggled(rem, active) == (if active {
                        mul_a(rem) * mul_b(rem)
                    } else {
                        0int
                    }) + scan_toggled(rem.skip(mul_len(rem)), active));
                    assert(rem.skip(mul_len(rem)) =~= s.skip(i as int + l as int));
                    lemma_mul_product_nonneg(rem);
                    lemma_scan_toggled_nonneg(s.skip(i as int + l as int), active);
                    assert((a as int) * (b as int) == mul_a(rem) * mul_b(rem));
                    assert((a as int) * (b as int) <= 0xFFFF_FFFF_FFFF_FFFFu128
                        * 0xFFFF_FFFF_FFFF_FFFFu128) by (nonlinear_arith)
                        requires
                            0 <= a as int <= 0xFFFF_FFFF_FFFF_FFFFu128,
                            0 <= b as int <= 0xFFFF_FFFF_FFFF_FFFFu128,
                    ;
                    assert(muls_ok_toggled(rem.skip(mul_len(rem))));
                }
                if active {
                    let prod: i128 = (a as i128) * (b as i128);
                    proof {
                        assert(prod as int == mul_a(rem) * mul_b(rem));
                        assert(total + prod == scan_toggled(s, true) - scan_toggled(
                            s.skip(i as int + l as int),
                            active,
                        ));
                        assert(total + prod <= scan_toggled(s, true));
                    }
                    total = total + (prod as i64);
                }
                i = i + l;
            },
            None => {
                proof {
                    assert(rem.drop_first() =~= s.skip(i as int + 1));
                    assert(scan_toggled(rem, active) == scan_toggled(
                        s.skip(i as int + 1),
                        active,
                    ));
                    assert(muls_ok_toggled(s.skip(i as int + 1)));
                }
                i += 1;
            },
        }
    }
    proof {
        assert(s.skip(n as int) =~= Seq::<char>::empty());
        assert(scan_toggled(Seq::<char>::empty(), active) == 0);
    }
    total
}

} // verus!
