//! The BPE merge engine: repeatedly rewrites a word, merging every
//! non-overlapping occurrence of the adjacent pair with the lowest rank,
//! until no pair in the word is ranked.

use crate::words::{concat_all, lemma_concat_cons, view_strs};
use vstd::prelude::*;
use vstd::string::StringExecFns;

verus! {

/// The mathematical view of the merge list: pairs in rank order.
pub open spec fn view_merges(ms: Seq<(String, String)>) -> Seq<(Seq<char>, Seq<char>)> {
    ms.map_values(|e: (String, String)| (e.0@, e.1@))
}

/// The rank of pair `(a, b)`: the first index at or after `i` holding it.
pub open spec fn pair_rank_from(
    ms: Seq<(Seq<char>, Seq<char>)>,
    a: Seq<char>,
    b: Seq<char>,
    i: int,
) -> Option<int>
    decreases ms.len() - i,
{
    if i < 0 || i >= ms.len() {
        None
    } else if ms[i].0 == a && ms[i].1 == b {
        Some(i)
    } else {
        pair_rank_from(ms, a, b, i + 1)
    }
}

/// The rank of pair `(a, b)`, if it was trained.
pub open spec fn pair_rank(ms: Seq<(Seq<char>, Seq<char>)>, a: Seq<char>, b: Seq<char>) -> Option<
    int,
> {
    pair_rank_from(ms, a, b, 0)
}

/// A ranked pair really stands in the merge list at its rank.
pub proof fn lemma_pair_rank_member(
    ms: Seq<(Seq<char>, Seq<char>)>,
    a: Seq<char>,
    b: Seq<char>,
    i: int,
)
    requires
        0 <= i,
    ensures
        pair_rank_from(ms, a, b, i) matches Some(r) ==> i <= r < ms.len() && ms[r].0 == a && ms[r].1
            == b,
    decreases ms.len() - i,
{
    if i < ms.len() && !(ms[i].0 == a && ms[i].1 == b) {
        lemma_pair_rank_member(ms, a, b, i + 1);
    }
}

/// The rank of the pair adjacent at position `j` of the word.
pub open spec fn adj_rank(w: Seq<Seq<char>>, ms: Seq<(Seq<char>, Seq<char>)>, j: int) -> Option<
    int,
> {
    pair_rank(ms, w[j], w[j + 1])
}

/// The best adjacency among the first `n`: the one of lowest rank, the
/// earliest on a tie, as a pair of its position and its rank.
pub open spec fn best_upto(w: Seq<Seq<char>>, ms: Seq<(Seq<char>, Seq<char>)>, n: int) -> Option<
    (int, int),
>
    decreases n,
{
    if n <= 0 {
        None
    } else {
        let prev = best_upto(w, ms, n - 1);
        let rj = adj_rank(w, ms, n - 1);
        match prev {
            Option::None => match rj {
                Option::None => None,
                Option::Some(r) => Some((n - 1, r)),
            },
            Option::Some((k, rk)) => match rj {
                Option::None => Some((k, rk)),
                Option::Some(r) => if r < rk {
                    Some((n - 1, r))
                } else {
                    Some((k, rk))
                },
            },
        }
    }
}

/// What a best adjacency means: it is in range and carries its own rank, and
/// if there is none, no adjacency is ranked.
pub proof fn lemma_best_upto_props(w: Seq<Seq<char>>, ms: Seq<(Seq<char>, Seq<char>)>, n: int)
    ensures
        best_upto(w, ms, n) matches Some((j, r)) ==> 0 <= j < n && adj_rank(w, ms, j) == Some(r),
        best_upto(w, ms, n) is None ==> forall|j: int| 0 <= j < n ==> adj_rank(w, ms, j) is None,
    decreases n,
{
    if n > 0 {
        lemma_best_upto_props(w, ms, n - 1);
    }
}

/// One left-to-right merge pass over the word from position `i` on: every
/// occurrence of `a` immediately followed by `b` becomes one symbol `a + b`,
/// scanning resumes after it; all other symbols are copied through.
pub open spec fn merge_from(w: Seq<Seq<char>>, a: Seq<char>, b: Seq<char>, i: int) -> Seq<
    Seq<char>,
>
    decreases w.len() - i,
{
    if i < 0 || i >= w.len() {
        Seq::empty()
    } else if i + 1 < w.len() && w[i] == a && w[i + 1] == b {
        seq![a + b] + merge_from(w, a, b, i + 2)
    } else {
        seq![w[i]] + merge_from(w, a, b, i + 1)
    }
}

/// A merge pass never lengthens the word.
pub proof fn lemma_merge_from_len(w: Seq<Seq<char>>, a: Seq<char>, b: Seq<char>, i: int)
    requires
        0 <= i <= w.len(),
    ensures
        merge_from(w, a, b, i).len() <= w.len() - i,
    decreases w.len() - i,
{
    if i < w.len() {
        if i + 1 < w.len() && w[i] == a && w[i + 1] == b {
            lemma_merge_from_len(w, a, b, i + 2);
        } else {
            lemma_merge_from_len(w, a, b, i + 1);
        }
    }
}

/// If the pair occurs somewhere, the pass strictly shrinks the word.
pub proof fn lemma_merge_from_shrink(w: Seq<Seq<char>>, a: Seq<char>, b: Seq<char>, i: int)
    requires
        0 <= i,
        exists|j: int| i <= j && j + 1 < w.len() && #[trigger] w[j] == a && w[j + 1] == b,
    ensures
        merge_from(w, a, b, i).len() < w.len() - i,
    decreases w.len() - i,
{
    let j = choose|j: int| i <= j && j + 1 < w.len() && #[trigger] w[j] == a && w[j + 1] == b;
    if i + 1 < w.len() && w[i] == a && w[i + 1] == b {
        lemma_merge_from_len(w, a, b, i + 2);
    } else {
        assert(i + 1 <= j);
        lemma_merge_from_shrink(w, a, b, i + 1);
    }
}

/// A merge pass preserves the concatenated content of the word.
pub proof fn lemma_merge_from_concat(w: Seq<Seq<char>>, a: Seq<char>, b: Seq<char>, i: int)
    requires
        0 <= i <= w.len(),
    ensures
        concat_all(merge_from(w, a, b, i)) == concat_all(w.skip(i)),
    decreases w.len() - i,
{
    if i == w.len() {
        assert(concat_all(merge_from(w, a, b, i)) =~= concat_all(w.skip(i)));
        assert(w.skip(i) =~= Seq::<Seq<char>>::empty());
    } else if i + 1 < w.len() && w[i] == a && w[i + 1] == b {
        lemma_merge_from_concat(w, a, b, i + 2);
        lemma_concat_cons(a + b, merge_from(w, a, b, i + 2));
        assert(concat_all(merge_from(w, a, b, i)) == (a + b) + concat_all(w.skip(i + 2)));
        assert(w.skip(i).drop_first() =~= w.skip(i + 1));
        assert(w.skip(i + 1).drop_first() =~= w.skip(i + 2));
        assert(w.skip(i)[0] == w[i]);
        assert(w.skip(i + 1)[0] == w[i + 1]);
        assert(concat_all(w.skip(i + 1)) == w[i + 1] + concat_all(w.skip(i + 2)));
        assert(concat_all(w.skip(i)) == w[i] + (w[i + 1] + concat_all(w.skip(i + 2))));
        assert((a + b) + concat_all(w.skip(i + 2)) =~= a + (b + concat_all(w.skip(i + 2))));
    } else {
        lemma_merge_from_concat(w, a, b, i + 1);
        lemma_concat_cons(w[i], merge_from(w, a, b, i + 1));
        assert(concat_all(merge_from(w, a, b, i)) == w[i] + concat_all(w.skip(i + 1)));
        assert(w.skip(i).drop_first() =~= w.skip(i + 1));
        assert(w.skip(i)[0] == w[i]);
        assert(concat_all(w.skip(i)) == w[i] + concat_all(w.skip(i + 1)));
    }
}

/// The full merge loop: while at least one adjacent pair is ranked, merge
/// the lowest-ranked pair everywhere in one pass, then repeat.
pub open spec fn bpe_steps(w: Seq<Seq<char>>, ms: Seq<(Seq<char>, Seq<char>)>) -> Seq<Seq<char>>
    decreases w.len(),
{
    if w.len() < 2 {
        w
    } else {
        match best_upto(w, ms, w.len() - 1) {
            Option::None => w,
            Option::Some((j, r)) => {
                let w2 = merge_from(w, w[j], w[j + 1], 0);
                if w2.len() < w.len() {
                    bpe_steps(w2, ms)
                } else {
                    w2
                }
            },
        }
    }
}

/// When a best pair exists, the pass at it strictly shrinks the word.
pub proof fn lemma_bpe_step_shrinks(w: Seq<Seq<char>>, ms: Seq<(Seq<char>, Seq<char>)>)
    requires
        w.len() >= 2,
        best_upto(w, ms, w.len() - 1) is Some,
    ensures
        ({
            let jr = best_upto(w, ms, w.len() - 1);
            jr matches Some((j, r)) ==> merge_from(w, w[j], w[j + 1], 0).len() < w.len()
        }),
{
    lemma_best_upto_props(w, ms, w.len() - 1);
    if let Some((j, r)) = best_upto(w, ms, w.len() - 1) {
        lemma_pair_rank_member(ms, w[j], w[j + 1], 0);
        assert(0 <= j && j + 1 < w.len() && w[j] == w[j] && w[j + 1] == w[j + 1]);
        lemma_merge_from_shrink(w, w[j], w[j + 1], 0);
    }
}

/// The merge loop preserves the concatenated content of the word.
pub proof fn lemma_bpe_steps_concat(w: Seq<Seq<char>>, ms: Seq<(Seq<char>, Seq<char>)>)
    ensures
        concat_all(bpe_steps(w, ms)) == concat_all(w),
    decreases w.len(),
{
    if w.len() >= 2 {
        if let Some((j, r)) = best_upto(w, ms, w.len() - 1) {
            let w2 = merge_from(w, w[j], w[j + 1], 0);
            lemma_merge_from_concat(w, w[j], w[j + 1], 0);
            assert(w.skip(0) =~= w);
            if w2.len() < w.len() {
                lemma_bpe_steps_concat(w2, ms);
            }
        }
    }
}

/// The distinct-adjacent-pairs list of a word: the pair at each position, in
/// order of position.
pub fn get_pairs(word: &Vec<String>) -> (pairs: Vec<(String, String)>)
    requires
        word@.len() >= 1,
    ensures
        pairs@.len() == word@.len() - 1,
        forall|j: int|
            0 <= j < pairs@.len() ==> (#[trigger] pairs@[j]).0@ == view_strs(word@)[j]
                && pairs@[j].1@ == view_strs(word@)[j + 1],
{
    let n = word.len();
    let mut pairs: Vec<(String, String)> = Vec::new();
    let mut j: usize = 0;
    while j < n - 1
        invariant
            word@.len() >= 1,
            n == word@.len(),
            j <= word@.len() - 1,
            pairs@.len() == j,
            forall|k: int|
                0 <= k < j ==> (#[trigger] pairs@[k]).0@ == view_strs(word@)[k] && pairs@[k].1@
                    == view_strs(word@)[k + 1],
        decreases word@.len() - j,
    {
        pairs.push((word[j].clone(), word[j + 1].clone()));
        j = j + 1;
    }
    pairs
}

/// The trained rank of the pair `(a, b)`, if any.
fn rank_of(merges: &Vec<(String, String)>, a: &String, b: &String) -> (r: Option<usize>)
    ensures
        r matches Some(k) ==> pair_rank(view_merges(merges@), a@, b@) == Some(k as int),
        r is None ==> pair_rank(view_merges(merges@), a@, b@) is None,
{
    let mut i: usize = 0;
    while i < merges.len()
        invariant
            i <= merges@.len(),
            pair_rank(view_merges(merges@), a@, b@) == pair_rank_from(
                view_merges(merges@),
                a@,
                b@,
                i as int,
            ),
        decreases merges@.len() - i,
    {
        let e = &merges[i];
        if e.0 == *a && e.1 == *b {
            return Some(i);
        }
        i = i + 1;
    }
    None
}

/// The position and rank of the lowest-ranked adjacent pair of the word, the
/// earliest position on a tie.
pub(crate) fn find_best(
    word: &Vec<String>,
    pairs: &Vec<(String, String)>,
    merges: &Vec<(String, String)>,
) -> (r: Option<(usize, usize)>)
    requires
        word@.len() >= 1,
        pairs@.len() == word@.len() - 1,
        forall|j: int|
            0 <= j < pairs@.len() ==> (#[trigger] pairs@[j]).0@ == view_strs(word@)[j]
                && pairs@[j].1@ == view_strs(word@)[j + 1],
    ensures
        r matches Some((j, rk)) ==> best_upto(view_strs(word@), view_merges(merges@), word@.len()
            - 1) == Some((j as int, rk as int)),
        r is None ==> best_upto(view_strs(word@), view_merges(merges@), word@.len() - 1) is None,
{
    let ghost w = view_strs(word@);
    let ghost mms = view_merges(merges@);
    let mut best: Option<(usize, usize)> = None;
    let mut j: usize = 0;
    while j < pairs.len()
        invariant
            j <= pairs@.len(),
            pairs@.len() == word@.len() - 1,
            w == view_strs(word@),
            mms == view_merges(merges@),
            forall|k: int|
                0 <= k < pairs@.len() ==> (#[trigger] pairs@[k]).0@ == w[k] && pairs@[k].1@ == w[k
                    + 1],
            best matches Some((bj, br)) ==> best_upto(w, mms, j as int) == Some(
                (bj as int, br as int),
            ),
            best is None ==> best_upto(w, mms, j as int) is None,
        decreases pairs@.len() - j,
    {
        let e = &pairs[j];
        let rj = rank_of(merges, &e.0, &e.1);
        proof {
            assert(adj_rank(w, mms, j as int) == pair_rank(mms, e.0@, e.1@));
        }
        match rj {
            None => {},
            Some(rk) => {
                match best {
                    None => {
                        best = Some((j, rk));
                    },
                    Some((bj, br)) => {
                        if rk < br {
                            best = Some((j, rk));
                        }
                    },
                }
            },
        }
        j = j + 1;
    }
    best
}

/// One merge pass of the pair standing at position `j` of the word.
pub(crate) fn merge_exec(word: &Vec<String>, j: usize) -> (out: Vec<String>)
    requires
        j + 1 < word@.len(),
    ensures
        view_strs(out@) == merge_from(
            view_strs(word@),
            view_strs(word@)[j as int],
            view_strs(word@)[j as int + 1],
            0,
        ),
{
    let ghost w = view_strs(word@);
    let n = word.len();
    let a: String = word[j].clone();
    let b: String = word[j + 1].clone();
    let mut out: Vec<String> = Vec::new();
    let mut i: usize = 0;
    while i < word.len()
        invariant
            i <= word@.len(),
            w == view_strs(word@),
            a@ == w[j as int],
            b@ == w[j as int + 1],
            merge_from(w, a@, b@, 0) == view_strs(out@) + merge_from(w, a@, b@, i as int),
        decreases word@.len() - i,
    {
        if i + 1 < word.len() && word[i] == a && word[i + 1] == b {
            let merged = word[i].clone().concat(word[i + 1].as_str());
            proof {
                assert(view_strs(out@.push(merged)) =~= view_strs(out@).push(merged@));
                assert(view_strs(out@).push(merged@) + merge_from(w, a@, b@, i as int + 2)
                    =~= view_strs(out@) + (seq![a@ + b@] + merge_from(w, a@, b@, i as int + 2)));
            }
            out.push(merged);
            i = i + 2;
        } else {
            let copied = word[i].clone();
            proof {
                assert(view_strs(out@.push(copied)) =~= view_strs(out@).push(copied@));
                assert(view_strs(out@).push(copied@) + merge_from(w, a@, b@, i as int + 1)
                    =~= view_strs(out@) + (seq![w[i as int]] + merge_from(w, a@, b@, i as int + 1)));
            }
            out.push(copied);
            i = i + 1;
        }
    }
    proof {
        assert(view_strs(out@) + merge_from(w, a@, b@, i as int) =~= view_strs(out@));
    }
    out
}

} // verus!
