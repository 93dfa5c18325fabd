//! The pre-tokenizer: splits raw text into chunks before any merging.
//!
//! The grammar, applied left to right with the earliest alternative winning
//! and greedy runs: an English contraction suffix (`'s`, `'t`, `'re`, `'ve`,
//! `'m`, `'ll`, `'d`); an optional single leading space followed by a run of
//! letters; the same for digits; the same for characters that are neither
//! whitespace, letters nor digits; or a run of whitespace.  Every character
//! belongs to some alternative, so the chunks tile the input exactly.

use crate::words::{concat_all, view_strs};
use vstd::prelude::*;
use vstd::string::StrSliceExecFns;

verus! {

/// Whether the character is a Unicode letter.
pub uninterp spec fn is_letter(c: char) -> bool;

/// Whether the character is a Unicode numeric character.
pub uninterp spec fn is_digit(c: char) -> bool;

/// Whether the character is Unicode whitespace.
pub uninterp spec fn is_white(c: char) -> bool;

/// Relies on char::is_alphabetic: whether the character is a Unicode letter;
/// the result depends on the character alone.
#[verifier::external_body]
fn char_is_letter(c: char) -> (r: bool)
    ensures
        r == is_letter(c),
{
    c.is_alphabetic()
}

/// Relies on char::is_numeric: whether the character is a Unicode numeric
/// character; the result depends on the character alone.
#[verifier::external_body]
fn char_is_digit(c: char) -> (r: bool)
    ensures
        r == is_digit(c),
{
    c.is_numeric()
}

/// Relies on char::is_whitespace: whether the character is Unicode
/// whitespace; the result depends on the character alone.
#[verifier::external_body]
fn char_is_white(c: char) -> (r: bool)
    ensures
        r == is_white(c),
{
    c.is_whitespace()
}

/// Neither whitespace nor letter nor digit.
pub open spec fn is_other(c: char) -> bool {
    !is_white(c) && !is_letter(c) && !is_digit(c)
}

/// The four character classes whose runs form chunks.
#[derive(Clone, Copy)]
pub enum CharClass {
    Letter,
    Digit,
    Other,
    White,
}

pub open spec fn in_class(c: char, k: CharClass) -> bool {
    match k {
        CharClass::Letter => is_letter(c),
        CharClass::Digit => is_digit(c),
        CharClass::Other => is_other(c),
        CharClass::White => is_white(c),
    }
}

fn class_test(c: char, k: CharClass) -> (r: bool)
    ensures
        r == in_class(c, k),
{
    match k {
        CharClass::Letter => char_is_letter(c),
        CharClass::Digit => char_is_digit(c),
        CharClass::Other => !char_is_white(c) && !char_is_letter(c) && !char_is_digit(c),
        CharClass::White => char_is_white(c),
    }
}

/// Length of the maximal run of class `k` starting at index `i`.
pub open spec fn run_len(s: Seq<char>, i: int, k: CharClass) -> int
    decreases s.len() - i,
{
    if i < 0 || i >= s.len() || !in_class(s[i], k) {
        0
    } else {
        1 + run_len(s, i + 1, k)
    }
}

proof fn lemma_run_len_bounds(s: Seq<char>, i: int, k: CharClass)
    requires
        0 <= i <= s.len(),
    ensures
        0 <= run_len(s, i, k) <= s.len() - i,
        i < s.len() && in_class(s[i], k) ==> run_len(s, i, k) >= 1,
    decreases s.len() - i,
{
    if i < s.len() && in_class(s[i], k) {
        lemma_run_len_bounds(s, i + 1, k);
    }
}

/// Length of the contraction suffix starting at `i`, or 0 if none starts
/// there.
pub open spec fn contraction_len_at(s: Seq<char>, i: int) -> int {
    if 0 <= i && i + 1 < s.len() && s[i] == '\'' && (s[i + 1] == 's' || s[i + 1] == 't' || s[i + 1]
        == 'm' || s[i + 1] == 'd') {
        2
    } else if 0 <= i && i + 2 < s.len() && s[i] == '\'' && ((s[i + 1] == 'r' && s[i + 2] == 'e') || (
    s[i + 1] == 'v' && s[i + 2] == 'e') || (s[i + 1] == 'l' && s[i + 2] == 'l')) {
        3
    } else {
        0
    }
}

/// Length of the chunk that starts at index `i`.
pub open spec fn next_chunk_len_at(s: Seq<char>, i: int) -> int
    recommends
        0 <= i < s.len(),
{
    let cl = contraction_len_at(s, i);
    if cl > 0 {
        cl
    } else {
        let off: int = if s[i] == ' ' && i + 1 < s.len() {
            1
        } else {
            0
        };
        if i + off < s.len() && is_letter(s[i + off]) {
            off + run_len(s, i + off, CharClass::Letter)
        } else if i + off < s.len() && is_digit(s[i + off]) {
            off + run_len(s, i + off, CharClass::Digit)
        } else if i + off < s.len() && is_other(s[i + off]) {
            off + run_len(s, i + off, CharClass::Other)
        } else if is_white(s[i]) {
            run_len(s, i, CharClass::White)
        } else {
            1
        }
    }
}

proof fn lemma_next_chunk_bounds(s: Seq<char>, i: int)
    requires
        0 <= i < s.len(),
    ensures
        1 <= next_chunk_len_at(s, i) <= s.len() - i,
{
    lemma_run_len_bounds(s, i, CharClass::White);
    if contraction_len_at(s, i) == 0 {
        let off: int = if s[i] == ' ' && i + 1 < s.len() {
            1
        } else {
            0
        };
        lemma_run_len_bounds(s, i + off, CharClass::Letter);
        lemma_run_len_bounds(s, i + off, CharClass::Digit);
        lemma_run_len_bounds(s, i + off, CharClass::Other);
    }
}

/// The chunks of `s` from index `i` on.
pub open spec fn seg_from(s: Seq<char>, i: int) -> Seq<Seq<char>>
    decreases s.len() - i,
{
    if i < 0 || i >= s.len() {
        Seq::empty()
    } else {
        let l = next_chunk_len_at(s, i);
        if 1 <= l && l <= s.len() - i {
            seq![s.subrange(i, i + l)] + seg_from(s, i + l)
        } else {
            seq![s.subrange(i, s.len() as int)]
        }
    }
}

/// The chunks of `s`, in order.
pub open spec fn spec_segment(s: Seq<char>) -> Seq<Seq<char>> {
    seg_from(s, 0)
}

proof fn lemma_seg_from_concat(s: Seq<char>, i: int)
    requires
        0 <= i <= s.len(),
    ensures
        concat_all(seg_from(s, i)) == s.subrange(i, s.len() as int),
    decreases s.len() - i,
{
    if i == s.len() {
        assert(concat_all(seg_from(s, i)) =~= s.subrange(i, s.len() as int));
    } else {
        let l = next_chunk_len_at(s, i);
        if 1 <= l && l <= s.len() - i {
            lemma_seg_from_concat(s, i + l);
            let rest = seg_from(s, i + l);
            crate::words::lemma_concat_cons(s.subrange(i, i + l), rest);
            assert(s.subrange(i, i + l) + s.subrange(i + l, s.len() as int) =~= s.subrange(
                i,
                s.len() as int,
            ));
        } else {
            let tail = s.subrange(i, s.len() as int);
            crate::words::lemma_concat_cons(tail, Seq::empty());
            assert(seq![tail] + Seq::<Seq<char>>::empty() =~= seq![tail]);
            assert(tail + concat_all(Seq::empty()) =~= tail);
        }
    }
}

/// The chunks tile the input: their concatenation is the whole text.
pub proof fn lemma_segment_concat(s: Seq<char>)
    ensures
        concat_all(spec_segment(s)) == s,
{
    lemma_seg_from_concat(s, 0);
    assert(s.subrange(0, s.len() as int) =~= s);
}

fn run_exec(text: &str, start: usize, k: CharClass, n: usize) -> (r: usize)
    requires
        n == text@.len(),
        start <= n,
    ensures
        r == run_len(text@, start as int, k),
        start + r <= n,
{
    proof {
        lemma_run_len_bounds(text@, start as int, k);
    }
    let mut j = start;
    while j < n
        invariant
            start <= j <= n,
            n == text@.len(),
            run_len(text@, start as int, k) == j - start + run_len(text@, j as int, k),
        ensures
            start <= j <= n,
            run_len(text@, start as int, k) == j - start,
        decreases n - j,
    {
        let c = text.get_char(j);
        if !class_test(c, k) {
            break ;
        }
        proof {
            lemma_run_len_bounds(text@, j as int + 1, k);
        }
        j = j + 1;
    }
    j - start
}

fn contraction_exec(text: &str, i: usize, n: usize) -> (r: usize)
    requires
        n == text@.len(),
        i < n,
    ensures
        r == contraction_len_at(text@, i as int),
{
    if i + 1 < n {
        let c0 = text.get_char(i);
        if c0 == '\'' {
            let c1 = text.get_char(i + 1);
            if c1 == 's' || c1 == 't' || c1 == 'm' || c1 == 'd' {
                return 2;
            }
            if i + 2 < n {
                let c2 = text.get_char(i + 2);
                if (c1 == 'r' && c2 == 'e') || (c1 == 'v' && c2 == 'e') || (c1 == 'l' && c2 == 'l')
                {
                    return 3;
                }
            }
        }
    }
    0
}

fn next_chunk_exec(text: &str, i: usize, n: usize) -> (r: usize)
    requires
        n == text@.len(),
        i < n,
    ensures
        r == next_chunk_len_at(text@, i as int),
        1 <= r,
        i + r <= n,
{
    proof {
        lemma_next_chunk_bounds(text@, i as int);
    }
    let cl = contraction_exec(text, i, n);
    if cl > 0 {
        return cl;
    }
    let c0 = text.get_char(i);
    let off: usize = if c0 == ' ' && i + 1 < n {
        1
    } else {
        0
    };
    let c = text.get_char(i + off);
    if char_is_letter(c) {
        return off + run_exec(text, i + off, CharClass::Letter, n);
    }
    if char_is_digit(c) {
        return off + run_exec(text, i + off, CharClass::Digit, n);
    }
    if class_test(c, CharClass::Other) {
        return off + run_exec(text, i + off, CharClass::Other, n);
    }
    if char_is_white(c0) {
        return run_exec(text, i, CharClass::White, n);
    }
    1
}

/// Split `text` into its chunks: a finite, order-preserving tiling of the
/// input into non-empty pieces.
pub fn segment(text: &str) -> (chunks: Vec<String>)
    ensures
        view_strs(chunks@) == spec_segment(text@),
        concat_all(view_strs(chunks@)) == text@,
        forall|j: int| 0 <= j < chunks@.len() ==> #[trigger] view_strs(chunks@)[j].len() > 0,
{
    proof {
        lemma_segment_concat(text@);
    }
    let n = text.unicode_len();
    let mut chunks: Vec<String> = Vec::new();
    let mut i: usize = 0;
    while i < n
        invariant
            i <= n,
            n == text@.len(),
            spec_segment(text@) == view_strs(chunks@) + seg_from(text@, i as int),
            forall|j: int| 0 <= j < chunks@.len() ==> #[trigger] view_strs(chunks@)[j].len() > 0,
        decreases n - i,
    {
        let l = next_chunk_exec(text, i, n);
        let piece: String = text.substring_char(i, i + l).to_owned();
        proof {
            let s = text@;
            let ii = i as int;
            let ll = l as int;
            assert(seg_from(s, ii) == seq![s.subrange(ii, ii + ll)] + seg_from(s, ii + ll));
            assert(view_strs(chunks@.push(piece)) =~= view_strs(chunks@).push(piece@));
            assert(view_strs(chunks@).push(piece@) + seg_from(s, ii + ll) =~= view_strs(chunks@)
                + seg_from(s, ii));
        }
        chunks.push(piece);
        i = i + l;
    }
    proof {
        assert(view_strs(chunks@) + seg_from(text@, i as int) =~= view_strs(chunks@));
    }
    chunks
}

} // verus!
