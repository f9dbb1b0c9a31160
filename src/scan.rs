//! Position scanners over the characters of a line.
use vstd::prelude::*;
use crate::text::{alphanumeric, is_alnum, is_ascii_digit, is_ws, white_space};

verus! {

/// A character of a word: a letter or digit, or `_`.
pub open spec fn word_char(c: char) -> bool {
    alphanumeric(c) || c == '_'
}

/// The end of the whitespace run of `t` that starts at `i`.
pub open spec fn ws_end(t: Seq<char>, i: int) -> int
    decreases t.len() - i,
{
    if 0 <= i < t.len() && white_space(t[i]) {
        ws_end(t, i + 1)
    } else {
        i
    }
}

/// The end of the run of non-whitespace characters of `t` that starts at `i`.
pub open spec fn nonws_end(t: Seq<char>, i: int) -> int
    decreases t.len() - i,
{
    if 0 <= i < t.len() && !white_space(t[i]) {
        nonws_end(t, i + 1)
    } else {
        i
    }
}

/// The end of the run of word characters of `t` that starts at `i`.
pub open spec fn word_end(t: Seq<char>, i: int) -> int
    decreases t.len() - i,
{
    if 0 <= i < t.len() && word_char(t[i]) {
        word_end(t, i + 1)
    } else {
        i
    }
}

/// The end of the run of ASCII digits of `t` that starts at `i`.
pub open spec fn digit_end(t: Seq<char>, i: int) -> int
    decreases t.len() - i,
{
    if 0 <= i < t.len() && is_ascii_digit(t[i]) {
        digit_end(t, i + 1)
    } else {
        i
    }
}

/// The first position from `i` on where `t` holds `c`, or the length of `t`.
pub open spec fn find_from(t: Seq<char>, i: int, c: char) -> int
    decreases t.len() - i,
{
    if 0 <= i < t.len() && t[i] != c {
        find_from(t, i + 1, c)
    } else {
        i
    }
}

/// The end of the whitespace run from `i`.
pub fn skip_ws(t: &Vec<char>, i: usize) -> (r: usize)
    requires
        i <= t@.len(),
    ensures
        r == ws_end(t@, i as int),
        i <= r <= t@.len(),
{
    let mut j = i;
    while j < t.len() && is_ws(t[j])
        invariant
            i <= j <= t@.len(),
            ws_end(t@, i as int) == ws_end(t@, j as int),
        decreases t@.len() - j,
    {
        j = j + 1;
    }
    j
}

/// The end of the run of non-whitespace characters from `i`.
pub fn skip_nonws(t: &Vec<char>, i: usize) -> (r: usize)
    requires
        i <= t@.len(),
    ensures
        r == nonws_end(t@, i as int),
        i <= r <= t@.len(),
{
    let mut j = i;
    while j < t.len() && !is_ws(t[j])
        invariant
            i <= j <= t@.len(),
            nonws_end(t@, i as int) == nonws_end(t@, j as int),
        decreases t@.len() - j,
    {
        j = j + 1;
    }
    j
}

/// Whether `c` is a word character.
pub fn is_word(c: char) -> (r: bool)
    ensures
        r == word_char(c),
{
    c == '_' || is_alnum(c)
}

/// The end of the run of word characters from `i`.
pub fn skip_word(t: &Vec<char>, i: usize) -> (r: usize)
    requires
        i <= t@.len(),
    ensures
        r == word_end(t@, i as int),
        i <= r <= t@.len(),
{
    let mut j = i;
    while j < t.len() && is_word(t[j])
        invariant
            i <= j <= t@.len(),
            word_end(t@, i as int) == word_end(t@, j as int),
        decreases t@.len() - j,
    {
        j = j + 1;
    }
    j
}

/// Whether `c` is an ASCII digit.
pub fn is_digit(c: char) -> (r: bool)
    ensures
        r == is_ascii_digit(c),
{
    '0' <= c && c <= '9'
}

/// The end of the run of ASCII digits from `i`.
pub fn skip_digits(t: &Vec<char>, i: usize) -> (r: usize)
    requires
        i <= t@.len(),
    ensures
        r == digit_end(t@, i as int),
        i <= r <= t@.len(),
{
    let mut j = i;
    while j < t.len() && is_digit(t[j])
        invariant
            i <= j <= t@.len(),
            digit_end(t@, i as int) == digit_end(t@, j as int),
        decreases t@.len() - j,
    {
        j = j + 1;
    }
    j
}

/// The first position from `i` on that holds `c`, or the length.
pub fn find_char(t: &Vec<char>, i: usize, c: char) -> (r: usize)
    requires
        i <= t@.len(),
    ensures
        r == find_from(t@, i as int, c),
        i <= r <= t@.len(),
{
    let mut j = i;
    while j < t.len() && t[j] != c
        invariant
            i <= j <= t@.len(),
            find_from(t@, i as int, c) == find_from(t@, j as int, c),
        decreases t@.len() - j,
    {
        j = j + 1;
    }
    j
}

} // verus!
