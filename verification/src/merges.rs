//! Parsing the merge-rank source: a version/header line to skip, then one
//! space-separated symbol pair per line, line order defining rank (the first
//! pair has rank 0), stopping at the first blank line.

use crate::engine::view_merges;
use crate::errors::TokenizerError;
use vstd::prelude::*;
use vstd::string::StrSliceExecFns;

verus! {

/// Index of the first occurrence of `c` at or after `i`, or the length.
pub open spec fn char_pos(s: Seq<char>, i: int, c: char) -> int
    decreases s.len() - i,
{
    if i < 0 || i >= s.len() {
        s.len() as int
    } else if s[i] == c {
        i
    } else {
        char_pos(s, i + 1, c)
    }
}

proof fn lemma_char_pos_bounds(s: Seq<char>, i: int, c: char)
    requires
        0 <= i <= s.len(),
    ensures
        i <= char_pos(s, i, c) <= s.len(),
    decreases s.len() - i,
{
    if i < s.len() && s[i] != c {
        lemma_char_pos_bounds(s, i + 1, c);
    }
}

/// The pair a merge line holds: the text up to the first space, then the
/// text from there to the second space or the end; `None` when the line has
/// no space at all.
pub open spec fn split_pair(line: Seq<char>) -> Option<(Seq<char>, Seq<char>)> {
    let p1 = char_pos(line, 0, ' ');
    if p1 >= line.len() {
        None
    } else {
        let p2 = char_pos(line, p1 + 1, ' ');
        Some((line.subrange(0, p1), line.subrange(p1 + 1, p2)))
    }
}

/// The pairs of the lines from `i` (a line start) on, stopping at a blank
/// line or the end; `None` when a line cannot be split.
pub open spec fn merges_from(s: Seq<char>, i: int) -> Option<Seq<(Seq<char>, Seq<char>)>>
    decreases s.len() - i + 1,
{
    if i < 0 || i >= s.len() {
        Some(Seq::empty())
    } else {
        let e = char_pos(s, i, '\n');
        if e <= i || e > s.len() {
            Some(Seq::empty())
        } else {
            match split_pair(s.subrange(i, e)) {
                Option::None => None,
                Option::Some(p) => match merges_from(s, e + 1) {
                    Option::None => None,
                    Option::Some(r) => Some(seq![p] + r),
                },
            }
        }
    }
}

/// What parsing the merge source yields: skip the header line, then the
/// pairs in line order.
pub open spec fn spec_parse_merges(s: Seq<char>) -> Option<Seq<(Seq<char>, Seq<char>)>> {
    let e0 = char_pos(s, 0, '\n');
    if e0 >= s.len() {
        Some(Seq::empty())
    } else {
        merges_from(s, e0 + 1)
    }
}

spec fn opt_app(
    p: Seq<(Seq<char>, Seq<char>)>,
    o: Option<Seq<(Seq<char>, Seq<char>)>>,
) -> Option<Seq<(Seq<char>, Seq<char>)>> {
    match o {
        Option::None => None,
        Option::Some(q) => Some(p + q),
    }
}

fn char_pos_exec(ts: &str, i: usize, c: char, n: usize) -> (r: usize)
    requires
        n == ts@.len(),
        i <= n,
    ensures
        r == char_pos(ts@, i as int, c),
        i <= r <= n,
{
    proof {
        lemma_char_pos_bounds(ts@, i as int, c);
    }
    let mut j = i;
    while j < n
        invariant
            i <= j <= n,
            n == ts@.len(),
            char_pos(ts@, i as int, c) == char_pos(ts@, j as int, c),
        ensures
            i <= j <= n,
            char_pos(ts@, i as int, c) == j,
        decreases n - j,
    {
        if ts.get_char(j) == c {
            break ;
        }
        j = j + 1;
    }
    j
}

/// Parse a merge-rank source into its list of pairs, in rank order.  Fails
/// exactly when some line before the first blank line has no space.
pub fn parse_merges(data: &str) -> (r: Result<Vec<(String, String)>, TokenizerError>)
    ensures
        r matches Ok(ms) ==> spec_parse_merges(data@) == Some(view_merges(ms@)),
        r is Err ==> spec_parse_merges(data@) is None && r == Err::<
            Vec<(String, String)>,
            TokenizerError,
        >(TokenizerError::MalformedVocabularyData),
{
    let ghost s = data@;
    let n = data.unicode_len();
    let e0 = char_pos_exec(data, 0, '\n', n);
    let mut out: Vec<(String, String)> = Vec::new();
    if e0 >= n {
        proof {
            assert(view_merges(out@) =~= Seq::<(Seq<char>, Seq<char>)>::empty());
        }
        return Ok(out);
    }
    let mut i = e0 + 1;
    while i < n
        invariant
            i <= n,
            n == s.len(),
            s == data@,
            e0 < n,
            spec_parse_merges(s) == opt_app(view_merges(out@), merges_from(s, i as int)),
        decreases n - i,
    {
        let e = char_pos_exec(data, i, '\n', n);
        if e == i {
            proof {
                assert(merges_from(s, i as int) == Some(Seq::<(Seq<char>, Seq<char>)>::empty()));
                assert(view_merges(out@) + Seq::<(Seq<char>, Seq<char>)>::empty() =~= view_merges(
                    out@,
                ));
            }
            return Ok(out);
        }
        let line = data.substring_char(i, e);
        let ln = e - i;
        let p1 = char_pos_exec(line, 0, ' ', ln);
        if p1 >= ln {
            proof {
                assert(split_pair(s.subrange(i as int, e as int)) is None);
                assert(merges_from(s, i as int) is None);
            }
            return Err(TokenizerError::MalformedVocabularyData);
        }
        let p2 = char_pos_exec(line, p1 + 1, ' ', ln);
        let left = line.substring_char(0, p1).to_owned();
        let right = line.substring_char(p1 + 1, p2).to_owned();
        proof {
            assert(split_pair(s.subrange(i as int, e as int)) == Some((left@, right@)));
            assert(merges_from(s, i as int) == match merges_from(s, e as int + 1) {
                Option::None => Option::<Seq<(Seq<char>, Seq<char>)>>::None,
                Option::Some(r) => Some(seq![(left@, right@)] + r),
            });
            assert(view_merges(out@.push((left, right))) =~= view_merges(out@).push(
                (left@, right@),
            ));
            match merges_from(s, e as int + 1) {
                Option::None => {},
                Option::Some(r) => {
                    assert(view_merges(out@) + (seq![(left@, right@)] + r) =~= view_merges(
                        out@,
                    ).push((left@, right@)) + r);
                },
            }
            if e == n {
                assert(merges_from(s, e as int + 1) == Some(
                    Seq::<(Seq<char>, Seq<char>)>::empty(),
                ));
                assert(merges_from(s, n as int) == Some(Seq::<(Seq<char>, Seq<char>)>::empty()));
            }
        }
        out.push((left, right));
        if e < n {
            i = e + 1;
        } else {
            i = n;
        }
    }
    proof {
        assert(merges_from(s, i as int) == Some(Seq::<(Seq<char>, Seq<char>)>::empty()));
        assert(view_merges(out@) + Seq::<(Seq<char>, Seq<char>)>::empty() =~= view_merges(out@));
    }
    Ok(out)
}

} // verus!
