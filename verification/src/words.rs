//! Shared specification helpers for sequences of symbol strings.

use vstd::prelude::*;

verus! {

/// The character sequences of a sequence of strings.
pub open spec fn view_strs(ss: Seq<String>) -> Seq<Seq<char>> {
    ss.map_values(|s: String| s@)
}

/// Concatenation of all members of `ws`.
pub open spec fn concat_all(ws: Seq<Seq<char>>) -> Seq<char>
    decreases ws.len(),
{
    if ws.len() == 0 {
        Seq::empty()
    } else {
        ws[0] + concat_all(ws.drop_first())
    }
}

/// Concatenation peels off a leading singleton.
pub proof fn lemma_concat_cons(x: Seq<char>, r: Seq<Seq<char>>)
    ensures
        concat_all(seq![x] + r) == x + concat_all(r),
{
    assert((seq![x] + r).drop_first() =~= r);
    assert((seq![x] + r)[0] == x);
}

/// The word a chunk starts from: one single-character string per character.
pub open spec fn word_of(t: Seq<char>) -> Seq<Seq<char>> {
    Seq::new(t.len(), |i: int| seq![t[i]])
}

/// The members of `ws` joined with single spaces.
pub open spec fn join_spaces(ws: Seq<Seq<char>>) -> Seq<char>
    decreases ws.len(),
{
    if ws.len() == 0 {
        Seq::empty()
    } else if ws.len() == 1 {
        ws[0]
    } else {
        ws[0] + seq![' '] + join_spaces(ws.drop_first())
    }
}

/// Joining after appending one member appends a space and that member.
pub proof fn lemma_join_push(ws: Seq<Seq<char>>, x: Seq<char>)
    ensures
        join_spaces(ws.push(x)) == if ws.len() == 0 {
            x
        } else {
            join_spaces(ws) + seq![' '] + x
        },
    decreases ws.len(),
{
    if ws.len() == 0 {
        assert(ws.push(x).len() == 1);
        assert(ws.push(x)[0] == x);
    } else if ws.len() == 1 {
        assert(ws.push(x).drop_first() =~= seq![x]);
        assert(join_spaces(seq![x]) == x);
        assert(ws.push(x)[0] == ws[0]);
    } else {
        lemma_join_push(ws.drop_first(), x);
        assert(ws.push(x).drop_first() =~= ws.drop_first().push(x));
        assert(ws.push(x)[0] == ws[0]);
        assert(ws[0] + seq![' '] + (join_spaces(ws.drop_first()) + seq![' '] + x) =~= (ws[0]
            + seq![' '] + join_spaces(ws.drop_first())) + seq![' '] + x);
    }
}

/// Splitting a chunk into single-character strings preserves its content.
pub proof fn lemma_concat_word_of(t: Seq<char>)
    ensures
        concat_all(word_of(t)) == t,
    decreases t.len(),
{
    if t.len() == 0 {
        assert(concat_all(word_of(t)) =~= t);
    } else {
        lemma_concat_word_of(t.drop_first());
        assert(word_of(t).drop_first() =~= word_of(t.drop_first()));
        assert(seq![t[0]] + t.drop_first() =~= t);
    }
}

} // verus!
