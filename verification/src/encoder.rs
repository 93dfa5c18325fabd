//! The tokenizer itself: immutable byte-symbol, vocabulary and merge-rank
//! tables, a growing memoization cache, and the encode / decode operations.

use crate::bytemap::{byte_of_char, symbol_char, to_byte, to_symbol};
use crate::engine::{
    bpe_steps, find_best, get_pairs, lemma_best_upto_props, lemma_bpe_step_shrinks, merge_exec,
    view_merges,
};
use crate::errors::TokenizerError;
use crate::segment::{segment, spec_segment};
use crate::strutil::{push_char, string_from_utf8};
use crate::vocab::{
    check_vocab, lookup_id, lookup_string, string_of_id, token_id_of, view_vocab, vocab_wf,
};
use crate::words::{join_spaces, lemma_join_push, view_strs, word_of};
use vstd::prelude::*;
use vstd::string::{StrSliceExecFns, StringExecFns};
use vstd::utf8::{decode_utf8, encode_utf8, valid_utf8};

verus! {

/// The symbol string a chunk's UTF-8 bytes map to.
pub open spec fn syms_of_bytes(bs: Seq<u8>) -> Seq<char> {
    bs.map_values(|b: u8| symbol_char(b))
}

/// The mathematical view of the cache: chunk strings paired with the final
/// word the merge engine produced for them.
pub open spec fn view_cache(c: Seq<(String, Vec<String>)>) -> Seq<(Seq<char>, Seq<Seq<char>>)> {
    c.map_values(|e: (String, Vec<String>)| (e.0@, view_strs(e.1@)))
}

/// The token ids of the word members from position `i` on; members without a
/// vocabulary entry are dropped.
pub open spec fn ids_from(w: Seq<Seq<char>>, i: int, v: Seq<(Seq<char>, u64)>) -> Seq<u64>
    decreases w.len() - i,
{
    if i < 0 || i >= w.len() {
        Seq::empty()
    } else {
        match token_id_of(v, w[i]) {
            Option::Some(id) => seq![id] + ids_from(w, i + 1, v),
            Option::None => ids_from(w, i + 1, v),
        }
    }
}

/// The token ids of one chunk: remap its UTF-8 bytes to symbols, run the
/// merge engine, look each final subword up.
pub open spec fn encode_chunk(
    chunk: Seq<char>,
    v: Seq<(Seq<char>, u64)>,
    ms: Seq<(Seq<char>, Seq<char>)>,
) -> Seq<u64> {
    ids_from(bpe_steps(word_of(syms_of_bytes(encode_utf8(chunk))), ms), 0, v)
}

/// The token ids of the chunks from position `i` on, concatenated in order.
pub open spec fn enc_from(
    chunks: Seq<Seq<char>>,
    i: int,
    v: Seq<(Seq<char>, u64)>,
    ms: Seq<(Seq<char>, Seq<char>)>,
) -> Seq<u64>
    decreases chunks.len() - i,
{
    if i < 0 || i >= chunks.len() {
        Seq::empty()
    } else {
        encode_chunk(chunks[i], v, ms) + enc_from(chunks, i + 1, v, ms)
    }
}

/// What encoding returns: the ids of every chunk of the text, in order.
pub open spec fn spec_encode(
    text: Seq<char>,
    v: Seq<(Seq<char>, u64)>,
    ms: Seq<(Seq<char>, Seq<char>)>,
) -> Seq<u64> {
    enc_from(spec_segment(text), 0, v, ms)
}

/// The concatenated vocabulary strings of the ids from position `i` on;
/// `None` as soon as one id has no entry.
pub open spec fn text_of_from(ids: Seq<u64>, i: int, v: Seq<(Seq<char>, u64)>) -> Option<Seq<char>>
    decreases ids.len() - i,
{
    if i < 0 || i >= ids.len() {
        Some(Seq::empty())
    } else {
        match string_of_id(v, ids[i]) {
            Option::None => None,
            Option::Some(s) => match text_of_from(ids, i + 1, v) {
                Option::None => None,
                Option::Some(rest) => Some(s + rest),
            },
        }
    }
}

/// The bytes of the symbol characters from position `i` on; `None` as soon
/// as one character lies outside the byte mapper's image.
pub open spec fn bytes_of_from(t: Seq<char>, i: int) -> Option<Seq<u8>>
    decreases t.len() - i,
{
    if i < 0 || i >= t.len() {
        Some(Seq::empty())
    } else {
        match byte_of_char(t[i]) {
            Option::None => None,
            Option::Some(b) => match bytes_of_from(t, i + 1) {
                Option::None => None,
                Option::Some(rest) => Some(seq![b] + rest),
            },
        }
    }
}

/// What decoding returns: the text whose remapped bytes spell the ids'
/// vocabulary strings, or the first applicable error.  Decoding is strict:
/// reconstructed bytes that are not valid UTF-8 are an error.
pub open spec fn spec_decode(ids: Seq<u64>, v: Seq<(Seq<char>, u64)>) -> Result<
    Seq<char>,
    TokenizerError,
> {
    match text_of_from(ids, 0, v) {
        Option::None => Result::Err(TokenizerError::UnknownTokenId),
        Option::Some(t) => match bytes_of_from(t, 0) {
            Option::None => Result::Err(TokenizerError::InvalidSymbol),
            Option::Some(bs) => if valid_utf8(bs) {
                Result::Ok(decode_utf8(bs))
            } else {
                Result::Err(TokenizerError::InvalidUtf8)
            },
        },
    }
}

spec fn opt_prepend(p: Seq<char>, o: Option<Seq<char>>) -> Option<Seq<char>> {
    match o {
        Option::None => None,
        Option::Some(q) => Some(p + q),
    }
}

spec fn opt_prepend_bytes(p: Seq<u8>, o: Option<Seq<u8>>) -> Option<Seq<u8>> {
    match o {
        Option::None => None,
        Option::Some(q) => Some(p + q),
    }
}

/// A byte-level BPE tokenizer.
///
/// The symbol, vocabulary and merge-rank tables are fixed at construction;
/// the memoization cache grows on encode-path misses, is never evicted, and
/// is owned by this instance alone: callers that share a tokenizer across
/// threads must synchronize it themselves, or give each thread its own.
pub struct Encoder {
    syms: Vec<char>,
    vocab: Vec<(String, u64)>,
    merges: Vec<(String, String)>,
    cache: Vec<(String, Vec<String>)>,
}

fn cache_get(cache: &Vec<(String, Vec<String>)>, token: &String) -> (r: Option<Vec<String>>)
    ensures
        r matches Some(w) ==> exists|k: int|
            0 <= k < view_cache(cache@).len() && #[trigger] view_cache(cache@)[k] == (
            token@,
            view_strs(w@),
            ),
        r is None ==> forall|k: int|
            0 <= k < view_cache(cache@).len() ==> (#[trigger] view_cache(cache@)[k]).0 != token@,
{
    let mut i: usize = 0;
    while i < cache.len()
        invariant
            i <= cache@.len(),
            forall|k: int|
                0 <= k < i ==> (#[trigger] view_cache(cache@)[k]).0 != token@,
        decreases cache@.len() - i,
    {
        let e = &cache[i];
        if e.0 == *token {
            let w = clone_word(&e.1);
            proof {
                assert(view_cache(cache@)[i as int] == (token@, view_strs(w@)));
            }
            return Some(w);
        }
        i = i + 1;
    }
    None
}

fn clone_word(w: &Vec<String>) -> (r: Vec<String>)
    ensures
        view_strs(r@) == view_strs(w@),
{
    let mut r: Vec<String> = Vec::new();
    let mut i: usize = 0;
    while i < w.len()
        invariant
            i <= w@.len(),
            r@.len() == i,
            forall|k: int| 0 <= k < i ==> (#[trigger] r@[k])@ == w@[k]@,
        decreases w@.len() - i,
    {
        r.push(w[i].clone());
        i = i + 1;
    }
    proof {
        assert(view_strs(r@) =~= view_strs(w@));
    }
    r
}

fn ids_exec(vocab: &Vec<(String, u64)>, word: &Vec<String>) -> (r: Vec<u64>)
    ensures
        r@ == ids_from(view_strs(word@), 0, view_vocab(vocab@)),
{
    let ghost wv = view_strs(word@);
    let ghost vv = view_vocab(vocab@);
    let mut r: Vec<u64> = Vec::new();
    let mut i: usize = 0;
    while i < word.len()
        invariant
            i <= word@.len(),
            wv == view_strs(word@),
            vv == view_vocab(vocab@),
            ids_from(wv, 0, vv) == r@ + ids_from(wv, i as int, vv),
        decreases word@.len() - i,
    {
        match lookup_id(vocab, &word[i]) {
            Some(id) => {
                proof {
                    assert(r@ + (seq![id] + ids_from(wv, i as int + 1, vv)) =~= r@.push(id)
                        + ids_from(wv, i as int + 1, vv));
                }
                r.push(id);
            },
            None => {},
        }
        i = i + 1;
    }
    proof {
        assert(r@ + ids_from(wv, i as int, vv) =~= r@);
    }
    r
}

fn join_word(word: &Vec<String>) -> (r: String)
    ensures
        r@ == join_spaces(view_strs(word@)),
{
    let ghost wv = view_strs(word@);
    let mut out = String::new();
    let mut i: usize = 0;
    while i < word.len()
        invariant
            i <= word@.len(),
            wv == view_strs(word@),
            out@ == join_spaces(wv.take(i as int)),
        decreases word@.len() - i,
    {
        proof {
            reveal_strlit(" ");
            lemma_join_push(wv.take(i as int), wv[i as int]);
            assert(wv.take(i as int).push(wv[i as int]) =~= wv.take(i as int + 1));
            assert(" "@ =~= seq![' ']);
        }
        if i > 0 {
            out.append(" ");
        }
        out.append(word[i].as_str());
        i = i + 1;
    }
    proof {
        assert(wv.take(wv.len() as int) =~= wv);
    }
    out
}

impl Encoder {
    /// The mathematical view of the vocabulary table.
    pub closed spec fn vocab_view(self) -> Seq<(Seq<char>, u64)> {
        view_vocab(self.vocab@)
    }

    /// The mathematical view of the merge list, in rank order.
    pub closed spec fn merges_view(self) -> Seq<(Seq<char>, Seq<char>)> {
        view_merges(self.merges@)
    }

    /// The mathematical view of the memoization cache.
    pub closed spec fn cache_view(self) -> Seq<(Seq<char>, Seq<Seq<char>>)> {
        view_cache(self.cache@)
    }

    /// Well-formedness: the symbol table is the fixed byte bijection, the
    /// vocabulary is injective both ways, and every cache entry holds exactly
    /// what the merge engine produces for its key.
    pub closed spec fn wf(self) -> bool {
        &&& self.syms@.len() == 256
        &&& (forall|b: int| 0 <= b < 256 ==> self.syms@[b] == symbol_char(b as u8))
        &&& vocab_wf(self.vocab_view())
        &&& (forall|k: int|
            0 <= k < self.cache_view().len() ==> (#[trigger] self.cache_view()[k]).1 == bpe_steps(
                word_of(self.cache_view()[k].0),
                self.merges_view(),
            ))
    }

    /// Build a tokenizer from a vocabulary (subword string, token id) table
    /// and a merge list in rank order (rank 0 first).  Fails exactly when the
    /// vocabulary is not injective in both directions.
    pub fn new(vocab: Vec<(String, u64)>, merges: Vec<(String, String)>) -> (r: Result<
        Encoder,
        TokenizerError,
    >)
        ensures
            r is Ok <==> vocab_wf(view_vocab(vocab@)),
            r matches Ok(e) ==> e.wf() && e.vocab_view() == view_vocab(vocab@) && e.merges_view()
                == view_merges(merges@) && e.cache_view().len() == 0,
            r matches Err(err) ==> err == TokenizerError::MalformedVocabularyData,
    {
        if !check_vocab(&vocab) {
            return Err(TokenizerError::MalformedVocabularyData);
        }
        let mut syms: Vec<char> = Vec::new();
        let mut b: usize = 0;
        while b < 256
            invariant
                b <= 256,
                syms@.len() == b,
                forall|k: int| 0 <= k < b ==> syms@[k] == symbol_char(k as u8),
            decreases 256 - b,
        {
            syms.push(to_symbol(b as u8));
            b = b + 1;
        }
        let e = Encoder { syms, vocab, merges, cache: Vec::new() };
        proof {
            assert(e.cache_view() =~= Seq::<(Seq<char>, Seq<Seq<char>>)>::empty());
        }
        Ok(e)
    }

    /// The merge engine with memoization, returning the final word.  On a
    /// cache hit the merge loop does not run and the tokenizer is unchanged;
    /// on a miss the result is computed and cached (single-symbol chunks are
    /// terminal and not cached, as they admit no merge).
    fn bpe_word(&mut self, token: &String) -> (word: Vec<String>)
        requires
            old(self).wf(),
        ensures
            final(self).wf(),
            final(self).vocab_view() == old(self).vocab_view(),
            final(self).merges_view() == old(self).merges_view(),
            view_strs(word@) == bpe_steps(word_of(token@), old(self).merges_view()),
            (exists|k: int|
                0 <= k < old(self).cache_view().len() && (#[trigger] old(self).cache_view()[k]).0
                    == token@) ==> final(self).cache_view() == old(self).cache_view(),
            final(self).cache_view() == old(self).cache_view() || final(self).cache_view() == old(
                self,
            ).cache_view().push((token@, bpe_steps(word_of(token@), old(self).merges_view()))),
    {
        let ghost mms = view_merges(self.merges@);
        match cache_get(&self.cache, token) {
            Some(w) => {
                proof {
                    let k = choose|k: int|
                        0 <= k < view_cache(self.cache@).len() && #[trigger] view_cache(
                            self.cache@,
                        )[k] == (token@, view_strs(w@));
                }
                return w;
            },
            None => {},
        }
        let ts = token.as_str();
        let tn = ts.unicode_len();
        let mut word: Vec<String> = Vec::new();
        let mut i: usize = 0;
        while i < tn
            invariant
                i <= tn,
                tn == token@.len(),
                ts@ == token@,
                word@.len() == i,
                forall|k: int| 0 <= k < i ==> (#[trigger] word@[k])@ == seq![token@[k]],
            decreases tn - i,
        {
            let c = ts.get_char(i);
            let mut s1 = String::new();
            push_char(&mut s1, c);
            word.push(s1);
            i = i + 1;
        }
        proof {
            assert(view_strs(word@) =~= word_of(token@));
        }
        if word.len() < 2 {
            return word;
        }
        loop
            invariant
                self.wf(),
                self == old(self),
                mms == view_merges(self.merges@),
                word@.len() >= 1,
                bpe_steps(word_of(token@), mms) == bpe_steps(view_strs(word@), mms),
            ensures
                view_strs(word@) == bpe_steps(word_of(token@), mms),
            decreases word@.len(),
        {
            let ghost wv = view_strs(word@);
            if word.len() < 2 {
                break ;
            }
            let pairs = get_pairs(&word);
            match find_best(&word, &pairs, &self.merges) {
                None => {
                    proof {
                        assert(bpe_steps(wv, mms) == wv);
                    }
                    break ;
                },
                Some((j, _rk)) => {
                    proof {
                        lemma_best_upto_props(wv, mms, wv.len() - 1);
                        lemma_bpe_step_shrinks(wv, mms);
                    }
                    let new_word = merge_exec(&word, j);
                    proof {
                        assert(bpe_steps(wv, mms) == bpe_steps(view_strs(new_word@), mms));
                    }
                    word = new_word;
                },
            }
        }
        let stored = clone_word(&word);
        let ghost old_cache = view_cache(self.cache@);
        self.cache.push((token.clone(), stored));
        proof {
            assert(view_cache(self.cache@) =~= old_cache.push(
                (token@, bpe_steps(word_of(token@), mms)),
            ));
        }
        word
    }

    /// The BPE merge engine on one byte-remapped chunk: the final subword
    /// symbols joined by single spaces.  Memoized: a second call on the same
    /// chunk answers from the cache and leaves the tokenizer unchanged, and
    /// the result is a pure function of the chunk and the merge table.
    pub fn bpe(&mut self, token: String) -> (r: String)
        requires
            old(self).wf(),
        ensures
            final(self).wf(),
            final(self).vocab_view() == old(self).vocab_view(),
            final(self).merges_view() == old(self).merges_view(),
            r@ == join_spaces(bpe_steps(word_of(token@), old(self).merges_view())),
            (exists|k: int|
                0 <= k < old(self).cache_view().len() && (#[trigger] old(self).cache_view()[k]).0
                    == token@) ==> final(self).cache_view() == old(self).cache_view(),
            final(self).cache_view() == old(self).cache_view() || final(self).cache_view() == old(
                self,
            ).cache_view().push((token@, bpe_steps(word_of(token@), old(self).merges_view()))),
    {
        let word = self.bpe_word(&token);
        join_word(&word)
    }

    /// Encode text into token ids: split it into chunks, remap each chunk's
    /// UTF-8 bytes to symbols, merge, and look the final subwords up in the
    /// vocabulary.  A subword with no vocabulary entry is silently dropped.
    /// The result is a pure function of the text and the two tables, which
    /// the call leaves unchanged.
    pub fn encode(&mut self, text: String) -> (r: Vec<u64>)
        requires
            old(self).wf(),
        ensures
            final(self).wf(),
            final(self).vocab_view() == old(self).vocab_view(),
            final(self).merges_view() == old(self).merges_view(),
            r@ == spec_encode(text@, old(self).vocab_view(), old(self).merges_view()),
    {
        let ghost vv = view_vocab(self.vocab@);
        let ghost mms = view_merges(self.merges@);
        let ghost segv = spec_segment(text@);
        let chunks = segment(text.as_str());
        let mut out: Vec<u64> = Vec::new();
        let mut ci: usize = 0;
        while ci < chunks.len()
            invariant
                ci <= chunks@.len(),
                view_strs(chunks@) == segv,
                segv == spec_segment(text@),
                self.wf(),
                view_vocab(self.vocab@) == vv,
                view_merges(self.merges@) == mms,
                spec_encode(text@, vv, mms) == out@ + enc_from(segv, ci as int, vv, mms),
            decreases chunks@.len() - ci,
        {
            let ghost chunk_view = segv[ci as int];
            let mut token = String::new();
            {
                let cs = chunks[ci].as_str();
                let bs = cs.as_bytes();
                let bn = bs.len();
                let mut k: usize = 0;
                while k < bn
                    invariant
                        k <= bn,
                        bn == bs@.len(),
                        bs@ == encode_utf8(chunk_view),
                        self.wf(),
                        token@ == syms_of_bytes(bs@.take(k as int)),
                    decreases bn - k,
                {
                    let byte = bs[k];
                    let c = self.syms[byte as usize];
                    proof {
                        assert(bs@.take(k as int).push(byte) =~= bs@.take(k as int + 1));
                        assert(syms_of_bytes(bs@.take(k as int)).push(symbol_char(byte))
                            =~= syms_of_bytes(bs@.take(k as int + 1)));
                    }
                    push_char(&mut token, c);
                    k = k + 1;
                }
                proof {
                    assert(bs@.take(bn as int) =~= bs@);
                }
            }
            proof {
                assert(token@ == syms_of_bytes(encode_utf8(chunk_view)));
            }
            let word = self.bpe_word(&token);
            let mut chunk_ids = ids_exec(&self.vocab, &word);
            proof {
                assert(chunk_ids@ == encode_chunk(chunk_view, vv, mms));
                assert(enc_from(segv, ci as int, vv, mms) == encode_chunk(chunk_view, vv, mms)
                    + enc_from(segv, ci as int + 1, vv, mms));
                assert(out@ + (chunk_ids@ + enc_from(segv, ci as int + 1, vv, mms)) =~= (out@
                    + chunk_ids@) + enc_from(segv, ci as int + 1, vv, mms));
            }
            out.append(&mut chunk_ids);
            ci = ci + 1;
        }
        proof {
            assert(out@ + enc_from(segv, ci as int, vv, mms) =~= out@);
        }
        out
    }

    /// Decode token ids back into text: look every id up (failing with
    /// `UnknownTokenId` on a miss), concatenate the vocabulary strings, map
    /// every symbol character back to its byte (failing with
    /// `InvalidSymbol`), and read the bytes as UTF-8 (failing with
    /// `InvalidUtf8`; decoding is strict, not lossy).
    pub fn decode(&self, tokens: Vec<u64>) -> (r: Result<String, TokenizerError>)
        requires
            self.wf(),
        ensures
            r matches Ok(s) ==> spec_decode(tokens@, self.vocab_view()) matches Ok(t) && t == s@,
            r matches Err(err) ==> spec_decode(tokens@, self.vocab_view()) matches Err(err2)
                && err2 == err,
    {
        let ghost vv = view_vocab(self.vocab@);
        let n = tokens.len();
        let mut text = String::new();
        let mut i: usize = 0;
        while i < n
            invariant
                i <= n,
                n == tokens@.len(),
                vv == view_vocab(self.vocab@),
                text_of_from(tokens@, 0, vv) == opt_prepend(text@, text_of_from(tokens@, i as int, vv)),
            decreases n - i,
        {
            match lookup_string(&self.vocab, tokens[i]) {
                None => {
                    return Err(TokenizerError::UnknownTokenId);
                },
                Some(t) => {
                    proof {
                        let rest = text_of_from(tokens@, i as int + 1, vv);
                        if rest is Some {
                            assert(text@ + (t@ + rest->0) =~= (text@ + t@) + rest->0);
                        }
                    }
                    text.append(t.as_str());
                },
            }
            i = i + 1;
        }
        proof {
            assert(text_of_from(tokens@, 0, vv) == Some(text@ + Seq::<char>::empty()));
            assert(text@ + Seq::<char>::empty() =~= text@);
        }
        let ghost tv = text@;
        let ts = text.as_str();
        let m = ts.unicode_len();
        let mut bytes: Vec<u8> = Vec::new();
        let mut k: usize = 0;
        while k < m
            invariant
                k <= m,
                m == tv.len(),
                ts@ == tv,
                vv == view_vocab(self.vocab@),
                text_of_from(tokens@, 0, vv) == Some(tv),
                bytes_of_from(tv, 0) == opt_prepend_bytes(bytes@, bytes_of_from(tv, k as int)),
            decreases m - k,
        {
            let c = ts.get_char(k);
            match to_byte(c) {
                Err(_) => {
                    proof {
                        assert(byte_of_char(tv[k as int]) is None);
                        assert(bytes_of_from(tv, k as int) is None);
                        assert(bytes_of_from(tv, 0) is None);
                        assert(text_of_from(tokens@, 0, vv) == Some(tv));
                        assert(spec_decode(tokens@, vv) matches Err(e2) && e2
                            == TokenizerError::InvalidSymbol);
                    }
                    return Err(TokenizerError::InvalidSymbol);
                },
                Ok(bb) => {
                    proof {
                        let rest = bytes_of_from(tv, k as int + 1);
                        if rest is Some {
                            assert(bytes@ + (seq![bb] + rest->0) =~= bytes@.push(bb) + rest->0);
                        }
                    }
                    bytes.push(bb);
                },
            }
            k = k + 1;
        }
        proof {
            assert(bytes_of_from(tv, 0) == Some(bytes@ + Seq::<u8>::empty()));
            assert(bytes@ + Seq::<u8>::empty() =~= bytes@);
        }
        let ghost bseq = bytes@;
        match string_from_utf8(bytes) {
            None => Err(TokenizerError::InvalidUtf8),
            Some(s) => Ok(s),
        }
    }
}

} // verus!
