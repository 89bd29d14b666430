//! Verified solvers for a collection of small text puzzles.
//!
//! Each `day` module exposes two entry points, `star_one` and `star_two`,
//! that take the puzzle's raw text input and return a number.  The heart of
//! the crate is `day06`: a grid-traversal simulator with cycle detection and
//! an exhaustive search over single-cell mutations.
use vstd::prelude::*;

pub mod day01;
pub mod day02;
pub mod day03;
pub mod day04;
pub mod day05;
pub mod day06;
pub mod day07;
pub mod day08;
pub mod text;

verus! {

/// Splits `input` into trimmed, non-empty lines and parses each one as a
/// signed decimal integer.
pub fn parse_lines(input: &str) -> (r: Vec<i64>)
    requires
        text::all_int_tokens(text::clean_lines(input@)),
    ensures
        r@.len() == text::clean_lines(input@).len(),
        forall|i: int|
            0 <= i < r@.len() ==> r@[i] as int == text::int_val(text::clean_lines(input@)[i]),
{
    let cs = text::chars_of(input);
    let lines = text::clean_lines_of(&cs);
    text::parse_all(&lines)
}

/// Splits `input` at every whitespace character and parses each token as a
/// signed decimal integer.
pub fn parse_whitespace_separated(input: &str) -> (r: Vec<i64>)
    requires
        text::all_int_tokens(text::ws_tokens(input@)),
    ensures
        r@.len() == text::ws_tokens(input@).len(),
        forall|i: int|
            0 <= i < r@.len() ==> r@[i] as int == text::int_val(text::ws_tokens(input@)[i]),
{
    let cs = text::chars_of(input);
    let tokens = text::tokens_of(&cs);
    text::parse_all(&tokens)
}

/// The trimmed, non-empty pieces of `input` delimited by `separator`.
pub open spec fn custom_tokens(s: Seq<char>, sep: Seq<char>) -> Seq<Seq<char>> {
    text::keep_nonempty(text::trim_each(text::split_str(s, sep)))
}

/// Splits `input` at every occurrence of `separator` and parses each
/// trimmed, non-empty piece as a signed decimal integer.
pub fn parse_custom_separated(input: &str, separator: &str) -> (r: Vec<i64>)
    requires
        separator@.len() >= 1,
        text::all_int_tokens(custom_tokens(input@, separator@)),
    ensures
        r@.len() == custom_tokens(input@, separator@).len(),
        forall|i: int|
            0 <= i < r@.len() ==> r@[i] as int == text::int_val(
                custom_tokens(input@, separator@)[i],
            ),
{
    let cs = text::chars_of(input);
    let seps = text::chars_of(separator);
    let pieces = text::split_by_str(&cs, &seps);
    let tokens = text::filter_trim(&pieces, Ghost(text::split_str(input@, separator@)));
    text::parse_all(&tokens)
}

} // verus!
