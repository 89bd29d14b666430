//! Character-level parsing utilities shared by the puzzle modules.
//!
//! The executable functions work on `Vec<char>` and are specified against
//! spec-level functions over `Seq<char>`: splitting on a separator,
//! whitespace trimming and tokenising, and decimal number parsing.
use vstd::prelude::*;
use vstd::string::StrSliceExecFns;

verus! {

/// Whitespace that may surround content within a line.
pub open spec fn is_line_ws(c: char) -> bool {
    c == ' ' || c == '\t' || c == '\r'
}

/// Whitespace including the line separator itself.
pub open spec fn is_any_ws(c: char) -> bool {
    is_line_ws(c) || c == '\n'
}

/// The pieces of `s` delimited by `sep`; a string with no separator is one
/// piece, and every separator starts a new (possibly empty) piece.
pub open spec fn split_char(s: Seq<char>, sep: char) -> Seq<Seq<char>>
    decreases s.len(),
{
    if s.len() == 0 {
        seq![Seq::<char>::empty()]
    } else {
        let rest = split_char(s.drop_first(), sep);
        if s[0] == sep {
            seq![Seq::<char>::empty()] + rest
        } else {
            seq![seq![s[0]] + rest[0]] + rest.drop_first()
        }
    }
}

/// The pieces of `s` delimited by any whitespace character.
pub open spec fn split_ws(s: Seq<char>) -> Seq<Seq<char>>
    decreases s.len(),
{
    if s.len() == 0 {
        seq![Seq::<char>::empty()]
    } else {
        let rest = split_ws(s.drop_first());
        if is_any_ws(s[0]) {
            seq![Seq::<char>::empty()] + rest
        } else {
            seq![seq![s[0]] + rest[0]] + rest.drop_first()
        }
    }
}

pub proof fn lemma_split_char_len(s: Seq<char>, sep: char)
    ensures
        split_char(s, sep).len() >= 1,
    decreases s.len(),
{
    if s.len() > 0 {
        lemma_split_char_len(s.drop_first(), sep);
    }
}

pub proof fn lemma_split_ws_len(s: Seq<char>)
    ensures
        split_ws(s).len() >= 1,
    decreases s.len(),
{
    if s.len() > 0 {
        lemma_split_ws_len(s.drop_first());
    }
}

/// `s` with leading whitespace removed.
pub open spec fn trim_front(s: Seq<char>) -> Seq<char>
    decreases s.len(),
{
    if s.len() > 0 && is_line_ws(s[0]) {
        trim_front(s.drop_first())
    } else {
        s
    }
}

/// `s` with trailing whitespace removed.
pub open spec fn trim_back(s: Seq<char>) -> Seq<char>
    decreases s.len(),
{
    if s.len() > 0 && is_line_ws(s.last()) {
        trim_back(s.drop_last())
    } else {
        s
    }
}

/// `s` with whitespace removed from both ends.
pub open spec fn trimmed(s: Seq<char>) -> Seq<char> {
    trim_back(trim_front(s))
}

/// Every element of `ss`, trimmed.
pub open spec fn trim_each(ss: Seq<Seq<char>>) -> Seq<Seq<char>>
    decreases ss.len(),
{
    if ss.len() == 0 {
        Seq::empty()
    } else {
        seq![trimmed(ss[0])] + trim_each(ss.drop_first())
    }
}

/// The elements of `ss` that are not empty, in order.
pub open spec fn keep_nonempty(ss: Seq<Seq<char>>) -> Seq<Seq<char>>
    decreases ss.len(),
{
    if ss.len() == 0 {
        Seq::empty()
    } else if ss[0].len() == 0 {
        keep_nonempty(ss.drop_first())
    } else {
        seq![ss[0]] + keep_nonempty(ss.drop_first())
    }
}

/// The trimmed, non-empty lines of `s`, in order.
pub open spec fn clean_lines(s: Seq<char>) -> Seq<Seq<char>> {
    keep_nonempty(trim_each(split_char(s, '\n')))
}

/// The maximal non-whitespace runs of `s`, in order.
pub open spec fn ws_tokens(s: Seq<char>) -> Seq<Seq<char>> {
    keep_nonempty(split_ws(s))
}

/// The views of a vector of character vectors.
pub open spec fn views(ss: Seq<Vec<char>>) -> Seq<Seq<char>> {
    ss.map_values(|v: Vec<char>| v@)
}

pub proof fn lemma_trim_each_concat(a: Seq<Seq<char>>, b: Seq<Seq<char>>)
    ensures
        trim_each(a + b) == trim_each(a) + trim_each(b),
    decreases a.len(),
{
    if a.len() == 0 {
        assert(a + b =~= b);
        assert(trim_each(a) + trim_each(b) =~= trim_each(b));
    } else {
        lemma_trim_each_concat(a.drop_first(), b);
        assert((a + b).drop_first() =~= a.drop_first() + b);
        assert(seq![trimmed(a[0])] + (trim_each(a.drop_first()) + trim_each(b)) =~= (seq![
            trimmed(a[0]),
        ] + trim_each(a.drop_first())) + trim_each(b));
    }
}

pub proof fn lemma_keep_nonempty_concat(a: Seq<Seq<char>>, b: Seq<Seq<char>>)
    ensures
        keep_nonempty(a + b) == keep_nonempty(a) + keep_nonempty(b),
    decreases a.len(),
{
    if a.len() == 0 {
        assert(a + b =~= b);
        assert(keep_nonempty(a) + keep_nonempty(b) =~= keep_nonempty(b));
    } else {
        lemma_keep_nonempty_concat(a.drop_first(), b);
        assert((a + b).drop_first() =~= a.drop_first() + b);
        if a[0].len() != 0 {
            assert(seq![a[0]] + (keep_nonempty(a.drop_first()) + keep_nonempty(b)) =~= (seq![a[0]]
                + keep_nonempty(a.drop_first())) + keep_nonempty(b));
        }
    }
}

/// Every piece kept by `keep_nonempty` is non-empty.
pub proof fn lemma_keep_nonempty_all_nonempty(ss: Seq<Seq<char>>)
    ensures
        forall|i: int| 0 <= i < keep_nonempty(ss).len() ==> #[trigger] keep_nonempty(ss)[i].len()
            > 0,
    decreases ss.len(),
{
    if ss.len() > 0 {
        lemma_keep_nonempty_all_nonempty(ss.drop_first());
        let rest = keep_nonempty(ss.drop_first());
        if ss[0].len() != 0 {
            assert(forall|i: int|
                1 <= i < keep_nonempty(ss).len() ==> #[trigger] keep_nonempty(ss)[i] == rest[i
                    - 1]);
        }
    }
}

/// The characters of `s` as a vector.
pub fn chars_of(s: &str) -> (r: Vec<char>)
    ensures
        r@ == s@,
{
    let n = s.unicode_len();
    let mut r: Vec<char> = Vec::new();
    let mut i: usize = 0;
    while i < n
        invariant
            i <= n,
            n == s@.len(),
            r@ == s@.take(i as int),
        decreases n - i,
    {
        let c = s.get_char(i);
        r.push(c);
        i += 1;
        assert(r@ =~= s@.take(i as int));
    }
    assert(r@ =~= s@);
    r
}

/// A piece under construction glued onto the front of the pieces to come.
pub open spec fn glue(cur: Seq<char>, ss: Seq<Seq<char>>) -> Seq<Seq<char>> {
    seq![cur + ss[0]] + ss.drop_first()
}

/// Splits `s` at every occurrence of `sep`.
pub fn split_by(s: &Vec<char>, sep: char) -> (r: Vec<Vec<char>>)
    ensures
        views(r@) == split_char(s@, sep),
{
    let ghost whole = s@;
    let mut done: Vec<Vec<char>> = Vec::new();
    let mut cur: Vec<char> = Vec::new();
    let mut i: usize = 0;
    proof {
        lemma_split_char_len(whole, sep);
        assert(whole.skip(0) =~= whole);
        assert(glue(cur@, split_char(whole, sep)) =~= split_char(whole, sep));
    }
    while i < s.len()
        invariant
            i <= s.len(),
            whole == s@,
            views(done@) + glue(cur@, split_char(whole.skip(i as int), sep)) == split_char(
                whole,
                sep,
            ),
        decreases s.len() - i,
    {
        let ghost rem = whole.skip(i as int);
        proof {
            assert(rem.len() > 0);
            assert(rem[0] == whole[i as int]);
            assert(rem.drop_first() =~= whole.skip(i as int + 1));
            lemma_split_char_len(rem.drop_first(), sep);
        }
        let c = s[i];
        if c == sep {
            proof {
                let rest = split_char(rem.drop_first(), sep);
                assert(split_char(rem, sep) == seq![Seq::<char>::empty()] + rest);
                assert((seq![Seq::<char>::empty()] + rest)[0] =~= Seq::<char>::empty());
                assert((seq![Seq::<char>::empty()] + rest).drop_first() =~= rest);
                assert(glue(cur@, split_char(rem, sep)) =~= seq![cur@] + rest);
                assert(views(done@.push(cur)) =~= views(done@).push(cur@));
                assert(glue(Seq::<char>::empty(), rest) =~= rest);
                assert(views(done@.push(cur)) + glue(Seq::<char>::empty(), rest) =~= views(done@)
                    + (seq![cur@] + rest));
            }
            done.push(cur);
            cur = Vec::new();
        } else {
            proof {
                let rest = split_char(rem.drop_first(), sep);
                assert(split_char(rem, sep) == seq![seq![rem[0]] + rest[0]] + rest.drop_first());
                assert((seq![seq![rem[0]] + rest[0]] + rest.drop_first())[0] == seq![rem[0]]
                    + rest[0]);
                assert((seq![seq![rem[0]] + rest[0]] + rest.drop_first()).drop_first()
                    =~= rest.drop_first());
                assert(cur@ + (seq![rem[0]] + rest[0]) =~= (cur@.push(rem[0])) + rest[0]);
                assert(glue(cur@, split_char(rem, sep)) =~= glue(cur@.push(rem[0]), rest));
            }
            cur.push(c);
        }
        i += 1;
    }
    proof {
        assert(whole.skip(i as int) =~= Seq::<char>::empty());
        assert(split_char(whole.skip(i as int), sep) == seq![Seq::<char>::empty()]);
        assert(glue(cur@, seq![Seq::<char>::empty()]) =~= seq![cur@]);
        assert(views(done@.push(cur)) =~= views(done@) + seq![cur@]);
    }
    done.push(cur);
    done
}

/// Splits `s` at every whitespace character.
pub fn split_by_ws(s: &Vec<char>) -> (r: Vec<Vec<char>>)
    ensures
        views(r@) == split_ws(s@),
{
    let ghost whole = s@;
    let mut done: Vec<Vec<char>> = Vec::new();
    let mut cur: Vec<char> = Vec::new();
    let mut i: usize = 0;
    proof {
        lemma_split_ws_len(whole);
        assert(whole.skip(0) =~= whole);
        assert(glue(cur@, split_ws(whole)) =~= split_ws(whole));
    }
    while i < s.len()
        invariant
            i <= s.len(),
            whole == s@,
            views(done@) + glue(cur@, split_ws(whole.skip(i as int))) == split_ws(whole),
        decreases s.len() - i,
    {
        let ghost rem = whole.skip(i as int);
        proof {
            assert(rem.len() > 0);
            assert(rem[0] == whole[i as int]);
            assert(rem.drop_first() =~= whole.skip(i as int + 1));
            lemma_split_ws_len(rem.drop_first());
        }
        let c = s[i];
        if c == ' ' || c == '\t' || c == '\r' || c == '\n' {
            proof {
                let rest = split_ws(rem.drop_first());
                assert(split_ws(rem) == seq![Seq::<char>::empty()] + rest);
                assert((seq![Seq::<char>::empty()] + rest)[0] =~= Seq::<char>::empty());
                assert((seq![Seq::<char>::empty()] + rest).drop_first() =~= rest);
                assert(glue(cur@, split_ws(rem)) =~= seq![cur@] + rest);
                assert(views(done@.push(cur)) =~= views(done@).push(cur@));
                assert(glue(Seq::<char>::empty(), rest) =~= rest);
                assert(views(done@.push(cur)) + glue(Seq::<char>::empty(), rest) =~= views(done@)
                    + (seq![cur@] + rest));
            }
            done.push(cur);
            cur = Vec::new();
        } else {
            proof {
                let rest = split_ws(rem.drop_first());
                assert(split_ws(rem) == seq![seq![rem[0]] + rest[0]] + rest.drop_first());
                assert((seq![seq![rem[0]] + rest[0]] + rest.drop_first())[0] == seq![rem[0]]
                    + rest[0]);
                assert((seq![seq![rem[0]] + rest[0]] + rest.drop_first()).drop_first()
                    =~= rest.drop_first());
                assert(cur@ + (seq![rem[0]] + rest[0]) =~= (cur@.push(rem[0])) + rest[0]);
                assert(glue(cur@, split_ws(rem)) =~= glue(cur@.push(rem[0]), rest));
            }
            cur.push(c);
        }
        i += 1;
    }
    proof {
        assert(whole.skip(i as int) =~= Seq::<char>::empty());
        assert(split_ws(whole.skip(i as int)) == seq![Seq::<char>::empty()]);
        assert(glue(cur@, seq![Seq::<char>::empty()]) =~= seq![cur@]);
        assert(views(done@.push(cur)) =~= views(done@) + seq![cur@]);
    }
    done.push(cur);
    done
}

/// The pieces of `s` delimited by the string `sep`: scanning left to
/// right, each occurrence of `sep` ends a piece, and occurrences never
/// overlap.  An empty separator never splits.
pub open spec fn split_str(s: Seq<char>, sep: Seq<char>) -> Seq<Seq<char>>
    decreases s.len(),
{
    if sep.len() == 0 {
        seq![s]
    } else if s.len() == 0 {
        seq![Seq::<char>::empty()]
    } else if s.len() >= sep.len() && s.take(sep.len() as int) == sep {
        seq![Seq::<char>::empty()] + split_str(s.skip(sep.len() as int), sep)
    } else {
        let rest = split_str(s.drop_first(), sep);
        seq![seq![s[0]] + rest[0]] + rest.drop_first()
    }
}

pub proof fn lemma_split_str_len(s: Seq<char>, sep: Seq<char>)
    ensures
        split_str(s, sep).len() >= 1,
    decreases s.len(),
{
    if sep.len() == 0 || s.len() == 0 {
    } else if s.len() >= sep.len() && s.take(sep.len() as int) == sep {
        lemma_split_str_len(s.skip(sep.len() as int), sep);
    } else {
        lemma_split_str_len(s.drop_first(), sep);
    }
}

/// Whether `sep` occurs in `s` at position `i`.
fn matches_at(s: &Vec<char>, i: usize, sep: &Vec<char>) -> (r: bool)
    requires
        i <= s@.len(),
    ensures
        r == (s@.len() - i >= sep@.len() && s@.skip(i as int).take(sep@.len() as int) == sep@),
{
    let n = s.len();
    let m = sep.len();
    if n - i < m {
        return false;
    }
    let mut j: usize = 0;
    while j < m
        invariant
            j <= m,
            m == sep@.len(),
            i + m <= n,
            n == s@.len(),
            forall|k: int| 0 <= k < j ==> s@[i + k] == sep@[k],
        decreases m - j,
    {
        if s[i + j] != sep[j] {
            proof {
                assert(s@.skip(i as int).take(sep@.len() as int)[j as int] == s@[i as int
                    + j as int]);
            }
            return false;
        }
        j += 1;
    }
    proof {
        assert(s@.skip(i as int).take(sep@.len() as int) =~= sep@);
    }
    true
}

/// Splits `s` at every occurrence of the string `sep`.
pub fn split_by_str(s: &Vec<char>, sep: &Vec<char>) -> (r: Vec<Vec<char>>)
    requires
        sep@.len() >= 1,
    ensures
        views(r@) == split_str(s@, sep@),
{
    let ghost whole = s@;
    let ghost sp = sep@;
    let mut done: Vec<Vec<char>> = Vec::new();
    let mut cur: Vec<char> = Vec::new();
    let mut i: usize = 0;
    proof {
        lemma_split_str_len(whole, sp);
        assert(whole.skip(0) =~= whole);
        assert(glue(cur@, split_str(whole, sp)) =~= split_str(whole, sp));
    }
    while i < s.len()
        invariant
            i <= s.len(),
            whole == s@,
            sp == sep@,
            sp.len() >= 1,
            views(done@) + glue(cur@, split_str(whole.skip(i as int), sp)) == split_str(
                whole,
                sp,
            ),
        decreases s.len() - i,
    {
        let ghost rem = whole.skip(i as int);
        proof {
            assert(rem.len() > 0);
            assert(rem[0] == whole[i as int]);
            assert(rem.drop_first() =~= whole.skip(i as int + 1));
        }
        let hit = matches_at(s, i, sep);
        if hit {
            proof {
                assert(rem.take(sp.len() as int) =~= whole.skip(i as int).take(sp.len() as int));
                assert(rem.skip(sp.len() as int) =~= whole.skip(i as int + sp.len() as int));
                let rest = split_str(rem.skip(sp.len() as int), sp);
                lemma_split_str_len(rem.skip(sp.len() as int), sp);
                assert(split_str(rem, sp) == seq![Seq::<char>::empty()] + rest);
                assert((seq![Seq::<char>::empty()] + rest)[0] =~= Seq::<char>::empty());
                assert((seq![Seq::<char>::empty()] + rest).drop_first() =~= rest);
                assert(glue(cur@, split_str(rem, sp)) =~= seq![cur@] + rest);
                assert(views(done@.push(cur)) =~= views(done@).push(cur@));
                assert(glue(Seq::<char>::empty(), rest) =~= rest);
                assert(views(done@.push(cur)) + glue(Seq::<char>::empty(), rest) =~= views(done@)
                    + (seq![cur@] + rest));
            }
            done.push(cur);
            cur = Vec::new();
            i += sep.len();
        } else {
            proof {
                let rest = split_str(rem.drop_first(), sp);
                lemma_split_str_len(rem.drop_first(), sp);
                assert(split_str(rem, sp) == seq![seq![rem[0]] + rest[0]] + rest.drop_first());
                assert((seq![seq![rem[0]] + rest[0]] + rest.drop_first())[0] == seq![rem[0]]
                    + rest[0]);
                assert((seq![seq![rem[0]] + rest[0]] + rest.drop_first()).drop_first()
                    =~= rest.drop_first());
                assert(cur@ + (seq![rem[0]] + rest[0]) =~= (cur@.push(rem[0])) + rest[0]);
                assert(glue(cur@, split_str(rem, sp)) =~= glue(cur@.push(rem[0]), rest));
            }
            cur.push(s[i]);
            i += 1;
        }
    }
    proof {
        assert(whole.skip(i as int) =~= Seq::<char>::empty());
        assert(split_str(whole.skip(i as int), sp) == seq![Seq::<char>::empty()]);
        assert(glue(cur@, seq![Seq::<char>::empty()]) =~= seq![cur@]);
        assert(views(done@.push(cur)) =~= views(done@) + seq![cur@]);
    }
    done.push(cur);
    done
}

/// Removes whitespace from both ends of `s`.
pub fn trim(s: &Vec<char>) -> (r: Vec<char>)
    ensures
        r@ == trimmed(s@),
{
    let mut a: usize = 0;
    proof {
        assert(s@.skip(0) =~= s@);
    }
    while a < s.len() && (s[a] == ' ' || s[a] == '\t' || s[a] == '\r')
        invariant
            a <= s.len(),
            trim_front(s@) == trim_front(s@.skip(a as int)),
        decreases s.len() - a,
    {
        proof {
            let rem = s@.skip(a as int);
            assert(rem[0] == s@[a as int]);
            assert(rem.drop_first() =~= s@.skip(a as int + 1));
        }
        a += 1;
    }
    proof {
        let rem = s@.skip(a as int);
        if rem.len() > 0 {
            assert(rem[0] == s@[a as int]);
        }
        assert(trim_front(rem) == rem);
    }
    let ghost t = s@.skip(a as int);
    let mut b: usize = s.len() - a;
    proof {
        assert(t.take(b as int) =~= t);
    }
    while b > 0 && (s[a + b - 1] == ' ' || s[a + b - 1] == '\t' || s[a + b - 1] == '\r')
        invariant
            a <= s.len(),
            b <= s@.len() - a,
            t == s@.skip(a as int),
            trim_back(t) == trim_back(t.take(b as int)),
        decreases b,
    {
        proof {
            let u = t.take(b as int);
            assert(u.last() == s@[a + b - 1]);
            assert(u.drop_last() =~= t.take(b as int - 1));
        }
        b -= 1;
    }
    proof {
        let u = t.take(b as int);
        if u.len() > 0 {
            assert(u.last() == s@[a + b - 1]);
        }
        assert(trim_back(u) == u);
    }
    let n = s.len();
    let mut r: Vec<char> = Vec::new();
    let mut j: usize = 0;
    while j < b
        invariant
            j <= b,
            a + b <= n,
            n == s@.len(),
            r@ =~= s@.subrange(a as int, a as int + j as int),
        decreases b - j,
    {
        r.push(s[a + j]);
        j += 1;
    }
    proof {
        assert(r@ =~= t.take(b as int));
    }
    r
}

/// The trimmed, non-empty lines of `s`.
pub fn clean_lines_of(s: &Vec<char>) -> (r: Vec<Vec<char>>)
    ensures
        views(r@) == clean_lines(s@),
{
    let pieces = split_by(s, '\n');
    filter_trim(&pieces, Ghost(split_char(s@, '\n')))
}

/// The maximal non-whitespace runs of `s`.
pub fn tokens_of(s: &Vec<char>) -> (r: Vec<Vec<char>>)
    ensures
        views(r@) == ws_tokens(s@),
{
    let pieces = split_by_ws(s);
    let r = filter_trim(&pieces, Ghost(split_ws(s@)));
    proof {
        lemma_ws_pieces_trimmed(s@);
    }
    r
}

/// Pieces produced by whitespace splitting contain no whitespace, so
/// trimming them changes nothing.
proof fn lemma_ws_pieces_trimmed(s: Seq<char>)
    ensures
        keep_nonempty(trim_each(split_ws(s))) == keep_nonempty(split_ws(s)),
{
    lemma_split_ws_no_ws(s);
    lemma_trim_each_id(split_ws(s));
}

proof fn lemma_split_ws_no_ws(s: Seq<char>)
    ensures
        forall|k: int, j: int|
            0 <= k < split_ws(s).len() && 0 <= j < split_ws(s)[k].len() ==> !is_line_ws(
                #[trigger] split_ws(s)[k][j],
            ),
    decreases s.len(),
{
    if s.len() > 0 {
        lemma_split_ws_no_ws(s.drop_first());
        let rest = split_ws(s.drop_first());
        lemma_split_ws_len(s.drop_first());
        if !is_any_ws(s[0]) {
            assert forall|k: int, j: int|
                0 <= k < split_ws(s).len() && 0 <= j < split_ws(s)[k].len() implies !is_line_ws(
                split_ws(s)[k][j],
            ) by {
                if k == 0 {
                    if j > 0 {
                        assert(split_ws(s)[0][j] == rest[0][j - 1]);
                    }
                } else {
                    assert(split_ws(s)[k] == rest.drop_first()[k - 1]);
                    assert(rest.drop_first()[k - 1] == rest[k]);
                }
            }
        }
    }
}

proof fn lemma_trim_each_id(ss: Seq<Seq<char>>)
    requires
        forall|k: int, j: int|
            0 <= k < ss.len() && 0 <= j < ss[k].len() ==> !is_line_ws(#[trigger] ss[k][j]),
    ensures
        trim_each(ss) == ss,
    decreases ss.len(),
{
    if ss.len() > 0 {
        assert(forall|k: int, j: int|
            0 <= k < ss.drop_first().len() && 0 <= j < ss.drop_first()[k].len() ==> ss.drop_first()[k]
                == ss[k + 1] && !is_line_ws(#[trigger] ss.drop_first()[k][j]));
        lemma_trim_each_id(ss.drop_first());
        assert(trim_front(ss[0]) == ss[0]);
        assert(trim_back(ss[0]) == ss[0]);
        assert(trim_each(ss) =~= ss);
    }
}

/// Trims every piece and keeps the non-empty results.
pub(crate) fn filter_trim(pieces: &Vec<Vec<char>>, spec_pieces: Ghost<Seq<Seq<char>>>) -> (r: Vec<Vec<char>>)
    requires
        views(pieces@) == spec_pieces@,
    ensures
        views(r@) == keep_nonempty(trim_each(spec_pieces@)),
{
    let mut r: Vec<Vec<char>> = Vec::new();
    let mut i: usize = 0;
    proof {
        assert(spec_pieces@.take(0) =~= Seq::<Seq<char>>::empty());
        assert(views(r@) =~= keep_nonempty(trim_each(spec_pieces@.take(0))));
    }
    while i < pieces.len()
        invariant
            i <= pieces.len(),
            views(pieces@) == spec_pieces@,
            views(r@) == keep_nonempty(trim_each(spec_pieces@.take(i as int))),
        decreases pieces.len() - i,
    {
        let t = trim(&pieces[i]);
        proof {
            let pfx = spec_pieces@.take(i as int);
            let one = seq![spec_pieces@[i as int]];
            assert(spec_pieces@.take(i as int + 1) =~= pfx + one);
            lemma_trim_each_concat(pfx, one);
            lemma_keep_nonempty_concat(trim_each(pfx), trim_each(one));
            assert(one.drop_first() =~= Seq::<Seq<char>>::empty());
            assert(trim_each(Seq::<Seq<char>>::empty()) == Seq::<Seq<char>>::empty());
            assert(trimmed(spec_pieces@[i as int]) == t@);
            assert(trim_each(one) =~= seq![t@]);
            assert(seq![t@].drop_first() =~= Seq::<Seq<char>>::empty());
            assert(keep_nonempty(Seq::<Seq<char>>::empty()) == Seq::<Seq<char>>::empty());
            if t@.len() == 0 {
                assert(keep_nonempty(seq![t@]) =~= Seq::<Seq<char>>::empty());
                assert(views(r@) =~= keep_nonempty(trim_each(spec_pieces@.take(i as int + 1))));
            } else {
                assert(keep_nonempty(seq![t@]) =~= seq![t@]);
                assert(views(r@.push(t)) =~= views(r@) + seq![t@]);
            }
        }
        if t.len() > 0 {
            r.push(t);
        }
        i += 1;
    }
    proof {
        assert(spec_pieces@.take(i as int) =~= spec_pieces@);
    }
    r
}

/// A decimal digit.
pub open spec fn is_digit(c: char) -> bool {
    '0' <= c && c <= '9'
}

pub open spec fn digit_val(c: char) -> int {
    c as int - '0' as int
}

pub open spec fn all_digits(s: Seq<char>) -> bool {
    forall|i: int| 0 <= i < s.len() ==> is_digit(#[trigger] s[i])
}

/// The value of a string of decimal digits.
pub open spec fn digits_val(s: Seq<char>) -> int
    decreases s.len(),
{
    if s.len() == 0 {
        0
    } else {
        digits_val(s.drop_last()) * 10 + digit_val(s.last())
    }
}

/// A signed decimal integer: an optional minus sign followed by digits.
pub open spec fn is_int_token(s: Seq<char>) -> bool {
    if s.len() > 0 && s[0] == '-' {
        s.len() >= 2 && all_digits(s.skip(1))
    } else {
        s.len() >= 1 && all_digits(s)
    }
}

/// The value of a signed decimal integer token.
pub open spec fn int_val(s: Seq<char>) -> int {
    if s.len() > 0 && s[0] == '-' {
        -digits_val(s.skip(1))
    } else {
        digits_val(s)
    }
}

/// Every element of `ss` is an integer token whose value fits in `i64`.
pub open spec fn all_int_tokens(ss: Seq<Seq<char>>) -> bool {
    forall|i: int|
        0 <= i < ss.len() ==> is_int_token(#[trigger] ss[i]) && i64::MIN <= int_val(ss[i])
            <= i64::MAX
}

pub proof fn lemma_digits_val_nonneg(s: Seq<char>)
    requires
        all_digits(s),
    ensures
        digits_val(s) >= 0,
    decreases s.len(),
{
    if s.len() > 0 {
        assert(forall|i: int| 0 <= i < s.drop_last().len() ==> s.drop_last()[i] == s[i]);
        lemma_digits_val_nonneg(s.drop_last());
    }
}

pub proof fn lemma_digits_val_take_monotone(s: Seq<char>, k: int)
    requires
        all_digits(s),
        0 <= k <= s.len(),
    ensures
        digits_val(s.take(k)) <= digits_val(s),
        digits_val(s.take(k)) >= 0,
    decreases s.len() - k,
{
    assert(forall|i: int| 0 <= i < k ==> s.take(k)[i] == s[i]);
    lemma_digits_val_nonneg(s.take(k));
    if k < s.len() {
        lemma_digits_val_take_monotone(s, k + 1);
        let u = s.take(k + 1);
        assert(u.drop_last() =~= s.take(k));
        assert(u.last() == s[k]);
        assert(digits_val(s.take(k + 1)) == digits_val(s.take(k)) * 10 + digit_val(s[k]));
        assert(digits_val(s.take(k)) * 10 >= digits_val(s.take(k))) by {
            lemma_digits_val_nonneg(s.take(k));
        }
    } else {
        assert(s.take(k) =~= s);
    }
}

/// Parses a string of decimal digits as a `u64`.
pub fn parse_u64(s: &Vec<char>) -> (r: u64)
    requires
        s@.len() >= 1,
        all_digits(s@),
        digits_val(s@) <= u64::MAX,
    ensures
        r as int == digits_val(s@),
{
    let mut acc: u64 = 0;
    let mut i: usize = 0;
    proof {
        assert(s@.take(0) =~= Seq::<char>::empty());
    }
    while i < s.len()
        invariant
            i <= s@.len(),
            all_digits(s@),
            digits_val(s@) <= u64::MAX,
            acc as int == digits_val(s@.take(i as int)),
        decreases s@.len() - i,
    {
        let c = s[i];
        proof {
            let u = s@.take(i as int + 1);
            assert(u.drop_last() =~= s@.take(i as int));
            assert(u.last() == s@[i as int]);
            lemma_digits_val_take_monotone(s@, i as int + 1);
        }
        let d = (c as u32) - 48;
        acc = acc * 10 + (d as u64);
        i += 1;
    }
    proof {
        assert(s@.take(i as int) =~= s@);
    }
    acc
}

/// Parses a signed decimal integer token as an `i64`.
pub fn parse_i64(s: &Vec<char>) -> (r: i64)
    requires
        is_int_token(s@),
        i64::MIN <= int_val(s@) <= i64::MAX,
    ensures
        r as int == int_val(s@),
{
    if s[0] == '-' {
        let mut digits: Vec<char> = Vec::new();
        let mut i: usize = 1;
        while i < s.len()
            invariant
                1 <= i <= s@.len(),
                digits@ =~= s@.subrange(1, i as int),
            decreases s@.len() - i,
        {
            digits.push(s[i]);
            i += 1;
        }
        proof {
            assert(digits@ =~= s@.skip(1));
            lemma_digits_val_nonneg(s@.skip(1));
        }
        let m = parse_u64(&digits);
        proof {
            assert(m as int == digits_val(s@.skip(1)));
            assert(int_val(s@) == -(m as int));
        }
        if m == 0 {
            0
        } else {
            // int_val(s@) == -m >= i64::MIN, so m - 1 <= i64::MAX
            let neg = -((m - 1) as i64) - 1;
            neg
        }
    } else {
        let r = parse_u64(s);
        r as i64
    }
}

/// Parses every token as an `i64`.
pub fn parse_all(tokens: &Vec<Vec<char>>) -> (r: Vec<i64>)
    requires
        all_int_tokens(views(tokens@)),
    ensures
        r@.len() == tokens@.len(),
        forall|i: int| 0 <= i < r@.len() ==> r@[i] as int == int_val(views(tokens@)[i]),
{
    let mut r: Vec<i64> = Vec::new();
    let mut i: usize = 0;
    while i < tokens.len()
        invariant
            i <= tokens@.len(),
            all_int_tokens(views(tokens@)),
            r@.len() == i,
            forall|k: int| 0 <= k < i ==> r@[k] as int == int_val(views(tokens@)[k]),
        decreases tokens@.len() - i,
    {
        assert(views(tokens@)[i as int] == tokens@[i as int]@);
        let v = parse_i64(&tokens[i]);
        r.push(v);
        i += 1;
    }
    r
}

} // verus!
