//! The vocabulary table: subword strings paired with token ids, looked up in
//! both directions.  A well-formed table is injective both ways.

use vstd::prelude::*;

verus! {

/// The mathematical view of a vocabulary: each entry as a character sequence
/// and its id.
pub open spec fn view_vocab(v: Seq<(String, u64)>) -> Seq<(Seq<char>, u64)> {
    v.map_values(|e: (String, u64)| (e.0@, e.1))
}

/// The id of the first entry at or after `i` whose string is `s`.
pub open spec fn token_id_from(v: Seq<(Seq<char>, u64)>, s: Seq<char>, i: int) -> Option<u64>
    decreases v.len() - i,
{
    if i < 0 || i >= v.len() {
        None
    } else if v[i].0 == s {
        Some(v[i].1)
    } else {
        token_id_from(v, s, i + 1)
    }
}

/// The id recorded for the string `s`, if any.
pub open spec fn token_id_of(v: Seq<(Seq<char>, u64)>, s: Seq<char>) -> Option<u64> {
    token_id_from(v, s, 0)
}

/// The string of the first entry at or after `i` whose id is `id`.
pub open spec fn string_of_id_from(v: Seq<(Seq<char>, u64)>, id: u64, i: int) -> Option<Seq<char>>
    decreases v.len() - i,
{
    if i < 0 || i >= v.len() {
        None
    } else if v[i].1 == id {
        Some(v[i].0)
    } else {
        string_of_id_from(v, id, i + 1)
    }
}

/// The string recorded for the id `id`, if any.
pub open spec fn string_of_id(v: Seq<(Seq<char>, u64)>, id: u64) -> Option<Seq<char>> {
    string_of_id_from(v, id, 0)
}

/// A well-formed vocabulary maps distinct strings to distinct ids: both
/// directions are injective.
pub open spec fn vocab_wf(v: Seq<(Seq<char>, u64)>) -> bool {
    forall|i: int, j: int|
        0 <= i < j < v.len() ==> (#[trigger] v[i]).0 != (#[trigger] v[j]).0 && v[i].1 != v[j].1
}

proof fn lemma_token_id_member(v: Seq<(Seq<char>, u64)>, s: Seq<char>, i: int)
    requires
        0 <= i,
        token_id_from(v, s, i) is Some,
    ensures
        exists|j: int|
            i <= j < v.len() && (#[trigger] v[j]).0 == s && Some(v[j].1) == token_id_from(v, s, i),
    decreases v.len() - i,
{
    if i < v.len() && v[i].0 != s {
        lemma_token_id_member(v, s, i + 1);
    }
}

proof fn lemma_vocab_inverse_from(v: Seq<(Seq<char>, u64)>, s: Seq<char>, id: u64, i: int)
    requires
        vocab_wf(v),
        0 <= i,
        token_id_from(v, s, i) == Some(id),
    ensures
        string_of_id_from(v, id, i) == Some(s),
    decreases v.len() - i,
{
    if i < v.len() {
        if v[i].0 == s {
        } else {
            lemma_token_id_member(v, s, i + 1);
            let j = choose|j: int|
                i + 1 <= j < v.len() && (#[trigger] v[j]).0 == s && Some(v[j].1) == token_id_from(
                    v,
                    s,
                    i + 1,
                );
            assert(v[i].1 != v[j].1);
            lemma_vocab_inverse_from(v, s, id, i + 1);
        }
    }
}

/// In a well-formed vocabulary, looking up the id found for a string gives
/// that string back.
pub proof fn lemma_vocab_inverse(v: Seq<(Seq<char>, u64)>, s: Seq<char>, id: u64)
    requires
        vocab_wf(v),
        token_id_of(v, s) == Some(id),
    ensures
        string_of_id(v, id) == Some(s),
{
    lemma_vocab_inverse_from(v, s, id, 0);
}

/// The id recorded for the string `s`, if any.
pub fn lookup_id(vocab: &Vec<(String, u64)>, s: &String) -> (r: Option<u64>)
    ensures
        r == token_id_of(view_vocab(vocab@), s@),
{
    let mut i: usize = 0;
    while i < vocab.len()
        invariant
            i <= vocab@.len(),
            token_id_of(view_vocab(vocab@), s@) == token_id_from(view_vocab(vocab@), s@, i as int),
        decreases vocab@.len() - i,
    {
        let e = &vocab[i];
        if e.0 == *s {
            return Some(e.1);
        }
        i = i + 1;
    }
    None
}

/// The string recorded for the id `id`, if any.
pub fn lookup_string(vocab: &Vec<(String, u64)>, id: u64) -> (r: Option<String>)
    ensures
        r matches Some(t) ==> string_of_id(view_vocab(vocab@), id) == Some(t@),
        r is None ==> string_of_id(view_vocab(vocab@), id) is None,
{
    let mut i: usize = 0;
    while i < vocab.len()
        invariant
            i <= vocab@.len(),
            string_of_id(view_vocab(vocab@), id) == string_of_id_from(
                view_vocab(vocab@),
                id,
                i as int,
            ),
        decreases vocab@.len() - i,
    {
        let e = &vocab[i];
        if e.1 == id {
            return Some(e.0.clone());
        }
        i = i + 1;
    }
    None
}

/// Whether the table is injective in both directions.
pub fn check_vocab(vocab: &Vec<(String, u64)>) -> (r: bool)
    ensures
        r == vocab_wf(view_vocab(vocab@)),
{
    let ghost vv = view_vocab(vocab@);
    let n = vocab.len();
    let mut i: usize = 0;
    while i < n
        invariant
            i <= n,
            n == vocab@.len(),
            vv == view_vocab(vocab@),
            forall|a: int, b: int|
                0 <= a < b < n && a < i ==> (#[trigger] vv[a]).0 != (#[trigger] vv[b]).0 && vv[a].1
                    != vv[b].1,
        decreases n - i,
    {
        let mut j: usize = i + 1;
        while j < n
            invariant
                i < j <= n,
                i < n,
                n == vocab@.len(),
                vv == view_vocab(vocab@),
                forall|a: int, b: int|
                    0 <= a < b < n && a < i ==> (#[trigger] vv[a]).0 != (#[trigger] vv[b]).0 && vv[
                        a
                    ].1 != vv[b].1,
                forall|b: int|
                    i < b < j ==> (#[trigger] vv[b]).0 != vv[i as int].0 && vv[b].1 != vv[i as int].1,
            decreases n - j,
        {
            let dup_str = vocab[i].0 == vocab[j].0;
            let dup_id = vocab[i].1 == vocab[j].1;
            if dup_str || dup_id {
                proof {
                    assert(vv[i as int].0 == vocab@[i as int].0@ && vv[i as int].1 == vocab@[
                        i as int
                    ].1);
                    assert(vv[j as int].0 == vocab@[j as int].0@ && vv[j as int].1 == vocab@[
                        j as int
                    ].1);
                    assert(!vocab_wf(vv));
                }
                return false;
            }
            j = j + 1;
        }
        i = i + 1;
    }
    true
}

} // verus!
