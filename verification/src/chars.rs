//! Character-level utilities shared by the interpolation engine and the
//! definitions parsers: conversion between `&str` and `Vec<char>`, a
//! first-occurrence search for a single character, and newline counting.

use vstd::prelude::*;
use vstd::string::StrSliceExecFns;

verus! {

/// Index of the first occurrence of `ch` in `s` at or after `from`,
/// or `None` if there is none.
pub open spec fn find_char(s: Seq<char>, from: int, ch: char) -> Option<int>
    decreases s.len() - from,
{
    if from >= s.len() {
        None
    } else if s[from] == ch {
        Some(from)
    } else {
        find_char(s, from + 1, ch)
    }
}

/// What `find_char` returns: the least index of `ch` at or after `from`,
/// if there is one.
pub proof fn lemma_find_char(s: Seq<char>, from: int, ch: char)
    requires
        0 <= from,
    ensures
        match find_char(s, from, ch) {
            Some(i) => from <= i < s.len() && s[i] == ch && (forall|j: int|
                from <= j < i ==> s[j] != ch),
            None => forall|j: int| from <= j < s.len() ==> s[j] != ch,
        },
    decreases s.len() - from,
{
    if from >= s.len() {
    } else if s[from] == ch {
    } else {
        lemma_find_char(s, from + 1, ch);
    }
}

/// Bounds of a successful `find_char`, with no demand on `from`.
pub proof fn lemma_find_char_bounds(s: Seq<char>, from: int, ch: char)
    ensures
        (match find_char(s, from, ch) {
            Some(i) => from <= i < s.len(),
            None => true,
        }),
    decreases s.len() - from,
{
    if from >= s.len() {
    } else if s[from] == ch {
    } else {
        lemma_find_char_bounds(s, from + 1, ch);
    }
}

/// If `ch` stands at `at` and nowhere earlier in `[from, at)`, then
/// `find_char` finds exactly `at`.
pub proof fn lemma_find_char_at(s: Seq<char>, from: int, at: int, ch: char)
    requires
        0 <= from <= at < s.len(),
        s[at] == ch,
        forall|j: int| from <= j < at ==> s[j] != ch,
    ensures
        find_char(s, from, ch) == Some(at),
    decreases at - from,
{
    if from == at {
    } else {
        lemma_find_char_at(s, from + 1, at, ch);
    }
}

/// Executable first-occurrence search over a `Vec<char>`.
pub fn find_char_exec(v: &Vec<char>, from: usize, ch: char) -> (r: Option<usize>)
    ensures
        match r {
            Some(i) => Some(i as int) == find_char(v@, from as int, ch) && from <= i < v@.len(),
            None => find_char(v@, from as int, ch) is None,
        },
{
    let n = v.len();
    let mut i = from;
    while i < n
        invariant
            n == v@.len(),
            from <= i,
            find_char(v@, from as int, ch) == find_char(v@, i as int, ch),
        decreases n - i,
    {
        if v[i] == ch {
            return Some(i);
        }
        i = i + 1;
    }
    None
}

/// The characters of `s`, as a vector.
pub fn str_to_chars(s: &str) -> (v: Vec<char>)
    ensures
        v@ == s@,
{
    let n = s.unicode_len();
    let mut v: Vec<char> = Vec::new();
    let mut i: usize = 0;
    while i < n
        invariant
            n == s@.len(),
            i <= n,
            v@ == s@.subrange(0, i as int),
        decreases n - i,
    {
        v.push(s.get_char(i));
        i = i + 1;
        proof {
            assert(v@ =~= s@.subrange(0, i as int));
        }
    }
    proof {
        assert(v@ =~= s@);
    }
    v
}

/// Relies on `String::push`: appends the given character to the end of
/// the string.
#[verifier::external_body]
pub(crate) fn push_char(s: &mut String, c: char)
    ensures
        final(s)@ == old(s)@.push(c),
{
    s.push(c);
}

/// How many newline characters `s` holds.
pub open spec fn newline_count(s: Seq<char>) -> nat
    decreases s.len(),
{
    if s.len() == 0 {
        0
    } else {
        newline_count(s.drop_last()) + (if s.last() == '\n' {
            1nat
        } else {
            0nat
        })
    }
}

/// Newlines in `v[0..to]`, counted executably.
pub fn newline_count_exec(v: &Vec<char>, to: usize) -> (n: usize)
    requires
        to <= v@.len(),
    ensures
        n == newline_count(v@.subrange(0, to as int)),
{
    let mut n: usize = 0;
    let mut i: usize = 0;
    while i < to
        invariant
            i <= to <= v@.len(),
            n <= i,
            n == newline_count(v@.subrange(0, i as int)),
        decreases to - i,
    {
        proof {
            assert(v@.subrange(0, i + 1).drop_last() =~= v@.subrange(0, i as int));
            assert(v@.subrange(0, i + 1).last() == v@[i as int]);
        }
        if v[i] == '\n' {
            n = n + 1;
        }
        i = i + 1;
    }
    n
}

} // verus!
