//! The rule-file format: newline-delimited records.
//!
//! Lines beginning with `%%` and blank lines are ignored.  Every other
//! line is split on whitespace; the final word, with surrounding quote
//! characters trimmed, is the token name, and the preceding words,
//! rejoined with single spaces, form the regex pattern.  A non-ignored
//! line with no words at all has no token name and is malformed.

use vstd::prelude::*;
use vstd::string::StringExecFns;

use crate::text::find_char;
use crate::text::find_from;
use crate::text::is_space;
use crate::text::is_space_char;
use crate::text::lemma_find_shift;
use crate::text::string_of_range;

verus! {

/// A line with its trailing carriage return removed.
pub open spec fn strip_cr(line: Seq<char>) -> Seq<char> {
    if line.len() > 0 && line.last() == '\r' {
        line.drop_last()
    } else {
        line
    }
}

/// The lines of `s`: the segments between newline characters, each with
/// a trailing carriage return removed.
pub open spec fn split_lines(s: Seq<char>) -> Seq<Seq<char>>
    decreases s.len(),
{
    match find_from(s, '\n', 0) {
        Option::None => seq![strip_cr(s)],
        Option::Some(j) => if 0 <= j < s.len() {
            seq![strip_cr(s.subrange(0, j))] + split_lines(s.skip(j + 1))
        } else {
            seq![strip_cr(s)]
        },
    }
}

/// Whether a line is ignored: blank, or a `%%` section marker.
pub open spec fn ignored_line(line: Seq<char>) -> bool {
    line.len() == 0 || (line.len() >= 2 && line[0] == '%' && line[1] == '%')
}

/// The least index `j >= i` of a whitespace character, or the length.
pub open spec fn find_space(s: Seq<char>, i: int) -> int
    decreases s.len() - i,
{
    if i < 0 || i >= s.len() {
        s.len() as int
    } else if is_space(s[i]) {
        i
    } else {
        find_space(s, i + 1)
    }
}

/// The whitespace-separated words of a line, in order.
pub open spec fn split_words(line: Seq<char>) -> Seq<Seq<char>>
    decreases line.len(),
{
    if line.len() == 0 {
        Seq::empty()
    } else if is_space(line[0]) {
        split_words(line.skip(1))
    } else {
        let j = find_space(line, 1);
        if 1 <= j <= line.len() {
            seq![line.subrange(0, j)] + split_words(line.skip(j))
        } else {
            seq![line]
        }
    }
}

/// The concatenation of a space and each word, in order.
pub open spec fn join_tail(ws: Seq<Seq<char>>) -> Seq<char>
    decreases ws.len(),
{
    if ws.len() == 0 {
        Seq::empty()
    } else {
        seq![' '] + ws[0] + join_tail(ws.skip(1))
    }
}

/// The words joined with single spaces.
pub open spec fn join_words(ws: Seq<Seq<char>>) -> Seq<char> {
    if ws.len() == 0 {
        Seq::empty()
    } else {
        ws[0] + join_tail(ws.skip(1))
    }
}

/// A word with every leading and trailing quote character removed.
pub open spec fn trim_quotes(s: Seq<char>) -> Seq<char>
    decreases s.len(),
{
    if s.len() > 0 && s[0] == '"' {
        trim_quotes(s.skip(1))
    } else if s.len() > 0 && s.last() == '"' {
        trim_quotes(s.drop_last())
    } else {
        s
    }
}

/// The (pattern, token name) pair a non-ignored line defines.
pub open spec fn line_rule(line: Seq<char>) -> (Seq<char>, Seq<char>) {
    let ws = split_words(line);
    (join_words(ws.take(ws.len() - 1)), trim_quotes(ws.last()))
}

/// Whether every line is ignored or carries at least one word.
pub open spec fn lines_ok(lines: Seq<Seq<char>>) -> bool {
    forall|k: int|
        0 <= k < lines.len() ==> (ignored_line(#[trigger] lines[k]) || split_words(
            lines[k],
        ).len() >= 1)
}

/// Whether the whole rule text is well formed.
pub open spec fn rules_ok(s: Seq<char>) -> bool {
    lines_ok(split_lines(s))
}

/// The rules of a sequence of lines, in order, skipping ignored lines.
pub open spec fn rules_of_lines(lines: Seq<Seq<char>>) -> Seq<(Seq<char>, Seq<char>)>
    decreases lines.len(),
{
    if lines.len() == 0 {
        Seq::empty()
    } else {
        let rest = rules_of_lines(lines.skip(1));
        if ignored_line(lines[0]) || split_words(lines[0]).len() == 0 {
            rest
        } else {
            seq![line_rule(lines[0])] + rest
        }
    }
}

/// The rules of a whole rule text, in file order.
pub open spec fn spec_rules(s: Seq<char>) -> Seq<(Seq<char>, Seq<char>)> {
    rules_of_lines(split_lines(s))
}

/// The sub-vector `v[from..to]`.
pub fn sub_chars(v: &Vec<char>, from: usize, to: usize) -> (r: Vec<char>)
    requires
        from <= to,
        to <= v@.len(),
    ensures
        r@ == v@.subrange(from as int, to as int),
{
    let mut r: Vec<char> = Vec::new();
    let mut i: usize = from;
    while i < to
        invariant
            from <= i <= to,
            to <= v@.len(),
            r@ == v@.subrange(from as int, i as int),
        decreases to - i,
    {
        r.push(v[i]);
        i = i + 1;
        proof {
            assert(r@ =~= v@.subrange(from as int, i as int));
        }
    }
    r
}

/// The view of each line vector, in order.
pub open spec fn lines_view(ls: Seq<Vec<char>>) -> Seq<Seq<char>> {
    ls.map_values(|l: Vec<char>| l@)
}

/// Splits the text into lines, stripping one trailing carriage return
/// from each.
pub fn ex_lines(v: &Vec<char>) -> (r: Vec<Vec<char>>)
    ensures
        lines_view(r@) == split_lines(v@),
{
    let mut r: Vec<Vec<char>> = Vec::new();
    let mut pos: usize = 0;
    let mut done = false;
    let n = v.len();
    proof {
        assert(n == v@.len());
    }
    proof {
        assert(v@.skip(0) =~= v@);
        assert(lines_view(r@) =~= Seq::<Seq<char>>::empty());
    }
    while !done
        invariant
            n == v@.len(),
            pos <= v@.len(),
            split_lines(v@) == lines_view(r@) + (if done {
                Seq::<Seq<char>>::empty()
            } else {
                split_lines(v@.skip(pos as int))
            }),
        decreases v@.len() - pos, (if done { 0int } else { 1int }),
    {
        let ghost rest = v@.skip(pos as int);
        match find_char(v, '\n', pos) {
            Some(j) => {
                proof {
                    lemma_find_shift(v@, '\n', pos as int, 0);
                    assert(find_from(rest, '\n', 0) == Some(j - pos as int));
                    assert(rest.subrange(0, j - pos as int) =~= v@.subrange(pos as int, j as int));
                    assert(rest.skip(j - pos as int + 1) =~= v@.skip(j as int + 1));
                }
                let mut end = j;
                if end > pos && v[end - 1] == '\r' {
                    end = end - 1;
                }
                proof {
                    assert(strip_cr(v@.subrange(pos as int, j as int)) =~= v@.subrange(
                        pos as int,
                        end as int,
                    ));
                }
                let line = sub_chars(v, pos, end);
                let ghost rv_pre = lines_view(r@);
                r.push(line);
                proof {
                    assert(lines_view(r@) =~= rv_pre + seq![v@.subrange(pos as int, end as int)]);
                }
                pos = j + 1;
            },
            None => {
                proof {
                    lemma_find_shift(v@, '\n', pos as int, 0);
                    assert(find_from(rest, '\n', 0) is None);
                    assert(split_lines(rest) == seq![strip_cr(rest)]);
                }
                let mut end = v.len();
                if end > pos && v[end - 1] == '\r' {
                    end = end - 1;
                }
                proof {
                    assert(rest =~= v@.subrange(pos as int, v@.len() as int));
                    assert(strip_cr(rest) =~= v@.subrange(pos as int, end as int));
                }
                let line = sub_chars(v, pos, end);
                let ghost rv_pre = lines_view(r@);
                r.push(line);
                proof {
                    assert(lines_view(r@) =~= rv_pre + seq![v@.subrange(pos as int, end as int)]);
                }
                done = true;
            },
        }
    }
    proof {
        assert(split_lines(v@) =~= lines_view(r@));
    }
    r
}

/// Whether the line is ignored: blank or a `%%` marker.
pub fn ex_ignored(line: &Vec<char>) -> (r: bool)
    ensures
        r == ignored_line(line@),
{
    line.len() == 0 || (line.len() >= 2 && line[0] == '%' && line[1] == '%')
}

/// Splits a line into its whitespace-separated words.
pub fn ex_words(line: &Vec<char>) -> (r: Vec<Vec<char>>)
    ensures
        lines_view(r@) == split_words(line@),
{
    let mut r: Vec<Vec<char>> = Vec::new();
    let mut pos: usize = 0;
    proof {
        assert(line@.skip(0) =~= line@);
        assert(lines_view(r@) =~= Seq::<Seq<char>>::empty());
    }
    while pos < line.len()
        invariant
            pos <= line@.len(),
            split_words(line@) == lines_view(r@) + split_words(line@.skip(pos as int)),
        decreases line@.len() - pos,
    {
        let ghost rest = line@.skip(pos as int);
        proof {
            assert(rest[0] == line@[pos as int]);
            assert(rest.skip(1) =~= line@.skip(pos as int + 1));
        }
        if is_space_char(line[pos]) {
            pos = pos + 1;
        } else {
            let mut wend = pos + 1;
            while wend < line.len() && !is_space_char(line[wend])
                invariant
                    pos < wend <= line@.len(),
                    rest == line@.skip(pos as int),
                    !is_space(rest[0]),
                    find_space(rest, 1) == find_space(rest, wend - pos as int),
                    forall|k: int| pos < k < wend ==> !is_space(line@[k]),
                decreases line@.len() - wend,
            {
                proof {
                    assert(rest[wend - pos as int] == line@[wend as int]);
                }
                wend = wend + 1;
            }
            proof {
                if wend < line@.len() {
                    assert(rest[wend - pos as int] == line@[wend as int]);
                    assert(find_space(rest, wend - pos as int) == wend - pos as int);
                } else {
                    assert(find_space(rest, wend - pos as int) == rest.len() as int);
                }
                assert(rest.subrange(0, wend - pos as int) =~= line@.subrange(
                    pos as int,
                    wend as int,
                ));
                assert(rest.skip(wend - pos as int) =~= line@.skip(wend as int));
            }
            let word = sub_chars(line, pos, wend);
            let ghost rv_pre = lines_view(r@);
            r.push(word);
            proof {
                assert(lines_view(r@) =~= rv_pre + seq![line@.subrange(pos as int, wend as int)]);
            }
            pos = wend;
        }
    }
    proof {
        assert(line@.skip(pos as int) =~= Seq::<char>::empty());
        assert(split_words(line@) =~= lines_view(r@));
    }
    r
}

/// The word as a string, with leading and trailing quote characters
/// removed.
pub fn ex_trim_quotes(w: &Vec<char>) -> (r: String)
    ensures
        r@ == trim_quotes(w@),
{
    let mut lo: usize = 0;
    let mut hi: usize = w.len();
    proof {
        assert(w@.subrange(0, w@.len() as int) =~= w@);
    }
    while lo < hi && w[lo] == '"'
        invariant
            lo <= hi <= w@.len(),
            trim_quotes(w@) == trim_quotes(w@.subrange(lo as int, hi as int)),
        decreases hi - lo,
    {
        proof {
            let s = w@.subrange(lo as int, hi as int);
            assert(s[0] == w@[lo as int]);
            assert(s.skip(1) =~= w@.subrange(lo as int + 1, hi as int));
        }
        lo = lo + 1;
    }
    while hi > lo && w[hi - 1] == '"'
        invariant
            lo <= hi <= w@.len(),
            trim_quotes(w@) == trim_quotes(w@.subrange(lo as int, hi as int)),
            hi > lo ==> w@[lo as int] != '"',
        decreases hi,
    {
        proof {
            let s = w@.subrange(lo as int, hi as int);
            assert(s[0] == w@[lo as int]);
            assert(s.last() == w@[hi - 1]);
            assert(s.drop_last() =~= w@.subrange(lo as int, hi as int - 1));
        }
        hi = hi - 1;
    }
    proof {
        let s = w@.subrange(lo as int, hi as int);
        if s.len() > 0 {
            assert(s[0] == w@[lo as int]);
            assert(s.last() == w@[hi - 1]);
        }
        assert(trim_quotes(s) == s);
    }
    string_of_range(w, lo, hi)
}

/// The words `ws[0..n-1]` joined with single spaces, as a string.
pub fn ex_join(ws: &Vec<Vec<char>>, n: usize) -> (r: String)
    requires
        n <= ws@.len(),
    ensures
        r@ == join_words(lines_view(ws@).take(n as int)),
{
    let ghost wsv = lines_view(ws@).take(n as int);
    if n == 0 {
        let r = String::new();
        proof {
            assert(r@ =~= join_words(wsv));
        }
        return r;
    }
    let mut s = crate::text::string_of_chars(&ws[0]);
    let mut k: usize = 1;
    proof {
        assert(wsv[0] == ws@[0]@);
        assert(wsv.skip(1) =~= lines_view(ws@).subrange(1, n as int));
    }
    while k < n
        invariant
            1 <= k <= n,
            n <= ws@.len(),
            wsv == lines_view(ws@).take(n as int),
            join_words(wsv) == s@ + join_tail(lines_view(ws@).subrange(k as int, n as int)),
        decreases n - k,
    {
        let ghost tail = lines_view(ws@).subrange(k as int, n as int);
        proof {
            assert(tail[0] == ws@[k as int]@);
            assert(tail.skip(1) =~= lines_view(ws@).subrange(k as int + 1, n as int));
        }
        crate::text::string_push_str_space(&mut s);
        let wk = crate::text::string_of_chars(&ws[k]);
        s.append(wk.as_str());
        k = k + 1;
        proof {
            assert(join_words(wsv) =~= s@ + join_tail(
                lines_view(ws@).subrange(k as int, n as int),
            ));
        }
    }
    proof {
        assert(lines_view(ws@).subrange(n as int, n as int) =~= Seq::<Seq<char>>::empty());
        assert(join_words(wsv) =~= s@);
    }
    s
}

} // verus!
