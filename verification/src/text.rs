//! Helpers over characters and strings: conversion between `&str` and
//! character vectors, and searching for a character.

use vstd::prelude::*;
use vstd::string::StrSliceExecFns;

verus! {

/// The characters of `s`, in order.
pub fn chars_of(s: &str) -> (r: Vec<char>)
    ensures
        r@ == s@,
{
    let n = s.unicode_len();
    let mut v: Vec<char> = Vec::new();
    let mut i: usize = 0;
    while i < n
        invariant
            i <= n,
            n == s@.len(),
            v@ == s@.take(i as int),
        decreases n - i,
    {
        let c = s.get_char(i);
        v.push(c);
        i = i + 1;
        proof {
            assert(v@ =~= s@.take(i as int));
        }
    }
    proof {
        assert(v@ =~= s@);
    }
    v
}

/// Relies on `String::push`: appends exactly one character at the end.
#[verifier::external_body]
pub(crate) fn string_push(s: &mut String, c: char)
    ensures
        final(s)@ == old(s)@.push(c),
{
    s.push(c);
}

/// Appends a single space to `s`.
pub fn string_push_str_space(s: &mut String)
    ensures
        final(s)@ == old(s)@ + seq![' '],
{
    string_push(s, ' ');
    proof {
        assert(s@ =~= old(s)@ + seq![' ']);
    }
}

/// The string holding the single character `c`.
pub fn string_of_char(c: char) -> (r: String)
    ensures
        r@ == seq![c],
{
    let mut s = String::new();
    string_push(&mut s, c);
    proof {
        assert(s@ =~= seq![c]);
    }
    s
}

/// The string holding the characters `v[from..to]`, in order.
pub fn string_of_range(v: &Vec<char>, from: usize, to: usize) -> (r: String)
    requires
        from <= to,
        to <= v@.len(),
    ensures
        r@ == v@.subrange(from as int, to as int),
{
    let mut s = String::new();
    let mut i: usize = from;
    while i < to
        invariant
            from <= i <= to,
            to <= v@.len(),
            s@ == v@.subrange(from as int, i as int),
        decreases to - i,
    {
        string_push(&mut s, v[i]);
        i = i + 1;
        proof {
            assert(s@ =~= v@.subrange(from as int, i as int));
        }
    }
    s
}

/// The string holding all of `v`, in order.
pub fn string_of_chars(v: &Vec<char>) -> (r: String)
    ensures
        r@ == v@,
{
    let r = string_of_range(v, 0, v.len());
    proof {
        assert(v@.subrange(0, v@.len() as int) =~= v@);
    }
    r
}

/// The character of a single decimal digit.
pub open spec fn digit_char(d: nat) -> char {
    ((48 + d) as u8) as char
}

/// The decimal digits of `n`, most significant first.
pub open spec fn spec_digits(n: nat) -> Seq<char>
    decreases n,
{
    if n < 10 {
        seq![digit_char(n)]
    } else {
        spec_digits(n / 10).push(digit_char(n % 10))
    }
}

/// The decimal representation of `n`.
pub fn usize_to_string(n: usize) -> (r: String)
    ensures
        r@ == spec_digits(n as nat),
    decreases n,
{
    let d = (n % 10) as u8;
    let c = (48 + d) as char;
    proof {
        assert(c == digit_char((n % 10) as nat));
    }
    if n < 10 {
        string_of_char(c)
    } else {
        let mut s = usize_to_string(n / 10);
        string_push(&mut s, c);
        s
    }
}

/// The four whitespace characters the lexer knows.
pub open spec fn is_space(c: char) -> bool {
    c == ' ' || c == '\t' || c == '\n' || c == '\r'
}

/// `s` with leading whitespace removed.
pub open spec fn trim_front(s: Seq<char>) -> Seq<char>
    decreases s.len(),
{
    if s.len() > 0 && is_space(s[0]) {
        trim_front(s.drop_first())
    } else {
        s
    }
}

/// `s` with trailing whitespace removed.
pub open spec fn trim_back(s: Seq<char>) -> Seq<char>
    decreases s.len(),
{
    if s.len() > 0 && is_space(s.last()) {
        trim_back(s.drop_last())
    } else {
        s
    }
}

/// `s` with leading and trailing whitespace removed.
pub open spec fn trim_chars(s: Seq<char>) -> Seq<char> {
    trim_back(trim_front(s))
}

/// Whether `c` is one of the four whitespace characters.
pub fn is_space_char(c: char) -> (r: bool)
    ensures
        r == is_space(c),
{
    c == ' ' || c == '\t' || c == '\n' || c == '\r'
}

/// The string holding `v[from..to]` with leading and trailing whitespace
/// removed.
pub fn trim_range(v: &Vec<char>, from: usize, to: usize) -> (r: String)
    requires
        from <= to,
        to <= v@.len(),
    ensures
        r@ == trim_chars(v@.subrange(from as int, to as int)),
{
    let mut lo: usize = from;
    while lo < to && is_space_char(v[lo])
        invariant
            from <= lo <= to,
            to <= v@.len(),
            trim_front(v@.subrange(from as int, to as int)) == trim_front(
                v@.subrange(lo as int, to as int),
            ),
        decreases to - lo,
    {
        proof {
            let s = v@.subrange(lo as int, to as int);
            assert(s[0] == v@[lo as int]);
            assert(s.drop_first() =~= v@.subrange(lo as int + 1, to as int));
        }
        lo = lo + 1;
    }
    proof {
        assert(trim_front(v@.subrange(from as int, to as int)) == v@.subrange(
            lo as int,
            to as int,
        )) by {
            let s = v@.subrange(lo as int, to as int);
            if s.len() > 0 {
                assert(s[0] == v@[lo as int]);
            }
        }
    }
    let mut hi: usize = to;
    while hi > lo && is_space_char(v[hi - 1])
        invariant
            lo <= hi <= to,
            to <= v@.len(),
            trim_back(v@.subrange(lo as int, to as int)) == trim_back(
                v@.subrange(lo as int, hi as int),
            ),
        decreases hi,
    {
        proof {
            let s = v@.subrange(lo as int, hi as int);
            assert(s.last() == v@[hi - 1]);
            assert(s.drop_last() =~= v@.subrange(lo as int, hi as int - 1));
        }
        hi = hi - 1;
    }
    proof {
        assert(trim_back(v@.subrange(lo as int, to as int)) == v@.subrange(lo as int, hi as int))
            by {
            let s = v@.subrange(lo as int, hi as int);
            if s.len() > 0 {
                assert(s.last() == v@[hi - 1]);
            }
        }
    }
    string_of_range(v, lo, hi)
}

/// The least index `j >= i` with `s[j] == c`, if any.
pub open spec fn find_from(s: Seq<char>, c: char, i: int) -> Option<int>
    decreases s.len() - i,
{
    if i < 0 || i >= s.len() {
        None
    } else if s[i] == c {
        Some(i)
    } else {
        find_from(s, c, i + 1)
    }
}

/// Searching a suffix finds the same occurrence, shifted by the offset.
pub proof fn lemma_find_shift(s: Seq<char>, c: char, p: int, i: int)
    requires
        0 <= p <= s.len(),
        0 <= i,
    ensures
        match find_from(s, c, p + i) {
            Some(j) => find_from(s.skip(p), c, i) == Some(j - p),
            None => find_from(s.skip(p), c, i) is None,
        },
    decreases s.len() - (p + i),
{
    let t = s.skip(p);
    if p + i >= s.len() {
    } else {
        assert(t[i] == s[p + i]);
        if s[p + i] == c {
        } else {
            lemma_find_shift(s, c, p, i + 1);
        }
    }
}

/// Finds the least index `j >= from` with `v[j] == c`, if any.
pub fn find_char(v: &Vec<char>, c: char, from: usize) -> (r: Option<usize>)
    ensures
        match r {
            Some(j) => from <= j < v@.len() && find_from(v@, c, from as int) == Some(j as int),
            None => find_from(v@, c, from as int) is None,
        },
{
    let mut i: usize = from;
    while i < v.len()
        invariant
            from <= i,
            find_from(v@, c, from as int) == find_from(v@, c, i as int),
        decreases v.len() - i,
    {
        if v[i] == c {
            return Some(i);
        }
        i = i + 1;
    }
    None
}

} // verus!
