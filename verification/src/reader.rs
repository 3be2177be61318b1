//! Tokenizing of line-oriented numeric listings.
//!
//! A listing is a sequence of lines.  The first line is a header and is
//! dropped unconditionally; every later line contributes the first
//! whitespace-delimited token it holds, if it holds any.  Whether a token
//! then reads as a number is the caller's business: the reader is lenient
//! by design and a line without a usable token simply contributes nothing.

use vstd::prelude::*;

verus! {

/// Whether a character counts as whitespace when splitting a line into
/// tokens: the Unicode white-space property, as `char::is_whitespace`
/// decides it.
pub uninterp spec fn is_unicode_ws(c: char) -> bool;

/// Relies on `char::is_whitespace`: whether the character has the Unicode
/// white-space property, a function of the character alone.
pub assume_specification[ char::is_whitespace ](c: char) -> (r: bool)
    ensures
        r == is_unicode_ws(c),
;

/// The least position of `line` at or after `from` holding a
/// non-whitespace character, or the line's length when there is none.
pub open spec fn next_nonws(line: Seq<char>, from: int) -> int
    decreases line.len() - from,
{
    if from < 0 || from >= line.len() {
        line.len() as int
    } else if !is_unicode_ws(line[from]) {
        from
    } else {
        next_nonws(line, from + 1)
    }
}

/// The least position of `line` at or after `from` holding a whitespace
/// character, or the line's length when there is none.
pub open spec fn next_ws(line: Seq<char>, from: int) -> int
    decreases line.len() - from,
{
    if from < 0 || from >= line.len() {
        line.len() as int
    } else if is_unicode_ws(line[from]) {
        from
    } else {
        next_ws(line, from + 1)
    }
}

/// The first whitespace-delimited token of the line: the maximal run of
/// non-whitespace characters beginning at the first non-whitespace
/// position, or nothing when the line is empty or all whitespace.
pub open spec fn first_token_spec(line: Seq<char>) -> Option<Seq<char>> {
    let a = next_nonws(line, 0);
    if a == line.len() {
        None
    } else {
        Some(line.subrange(a, next_ws(line, a)))
    }
}

/// The first whitespace-delimited token of `line`, exactly as
/// `first_token_spec` states it.
pub fn first_token(line: &Vec<char>) -> (r: Option<Vec<char>>)
    ensures
        match r {
            Some(t) => first_token_spec(line@) == Some(t@),
            None => first_token_spec(line@) is None,
        },
{
    let n = line.len();
    let mut a: usize = 0;
    while a < n && line[a].is_whitespace()
        invariant
            a <= n,
            n == line@.len(),
            next_nonws(line@, 0) == next_nonws(line@, a as int),
        decreases n - a,
    {
        a += 1;
    }
    if a == n {
        return None;
    }
    let mut b: usize = a;
    let mut t: Vec<char> = Vec::new();
    while b < n && !line[b].is_whitespace()
        invariant
            a <= b <= n,
            n == line@.len(),
            next_ws(line@, a as int) == next_ws(line@, b as int),
            t@ == line@.subrange(a as int, b as int),
        decreases n - b,
    {
        t.push(line[b]);
        proof {
            assert(line@.subrange(a as int, b as int + 1) =~= line@.subrange(
                a as int,
                b as int,
            ).push(line@[b as int]));
        }
        b += 1;
    }
    proof {
        assert(next_nonws(line@, a as int) == a as int);
        assert(next_ws(line@, b as int) == b as int);
    }
    Some(t)
}

/// The tokens a listing contributes: the first line is dropped as a
/// header, and every later line contributes its first token, if any.
pub open spec fn tokens_spec(lines: Seq<Seq<char>>) -> Seq<Seq<char>>
    decreases lines.len(),
{
    if lines.len() == 0 {
        Seq::<Seq<char>>::empty()
    } else {
        tokens_spec(lines.drop_last()) + (if lines.len() >= 2 {
            match first_token_spec(lines.last()) {
                Some(t) => seq![t],
                None => Seq::<Seq<char>>::empty(),
            }
        } else {
            Seq::<Seq<char>>::empty()
        })
    }
}

/// The first tokens of every line after the header, in line order,
/// exactly as `tokens_spec` states them.
pub fn extract_tokens(lines: &Vec<Vec<char>>) -> (r: Vec<Vec<char>>)
    ensures
        r.deep_view() == tokens_spec(lines.deep_view()),
{
    let mut r: Vec<Vec<char>> = Vec::new();
    if lines.len() == 0 {
        proof {
            assert(r.deep_view() =~= tokens_spec(lines.deep_view()));
        }
        return r;
    }
    let mut i: usize = 1;
    proof {
        assert(lines.deep_view().take(1).drop_last() =~= Seq::<Seq<char>>::empty());
        assert(tokens_spec(Seq::<Seq<char>>::empty()) == Seq::<Seq<char>>::empty());
        assert(tokens_spec(lines.deep_view().take(1)) =~= Seq::<Seq<char>>::empty());
        assert(r.deep_view() =~= Seq::<Seq<char>>::empty());
    }
    while i < lines.len()
        invariant
            1 <= i <= lines@.len(),
            lines.deep_view().len() == lines@.len(),
            r.deep_view() == tokens_spec(lines.deep_view().take(i as int)),
        decreases lines@.len() - i,
    {
        let ghost prev = r.deep_view();
        let ghost dv = lines.deep_view();
        let tok = first_token(&lines[i]);
        proof {
            assert(dv[i as int] == lines@[i as int].deep_view());
            assert(lines@[i as int].deep_view() =~= lines@[i as int]@);
            assert(dv.take(i as int + 1).drop_last() =~= dv.take(i as int));
            assert(dv.take(i as int + 1).last() == dv[i as int]);
        }
        match tok {
            Some(t) => {
                proof {
                    assert(t.deep_view() =~= t@);
                }
                r.push(t);
                proof {
                    assert(r.deep_view() =~= prev.push(t@));
                    assert(prev.push(t@) =~= prev + seq![t@]);
                }
            },
            None => {
                proof {
                    assert(prev + Seq::<Seq<char>>::empty() =~= prev);
                }
            },
        }
        i += 1;
    }
    proof {
        assert(lines.deep_view().take(i as int) =~= lines.deep_view());
    }
    r
}

} // verus!
