//! The round-trip law: decoding an encoding gives the original text back,
//! whenever the vocabulary can represent every byte symbol and every merge
//! result.

use crate::bytemap::{lemma_byte_of_symbol, symbol_char};
use crate::encoder::{
    bytes_of_from, enc_from, encode_chunk, ids_from, spec_decode, spec_encode, syms_of_bytes,
    text_of_from,
};
use crate::engine::{
    best_upto, bpe_steps, lemma_best_upto_props, lemma_bpe_step_shrinks, lemma_bpe_steps_concat,
    lemma_pair_rank_member, merge_from,
};
use crate::errors::TokenizerError;
use crate::segment::{lemma_segment_concat, spec_segment};
use crate::vocab::{lemma_vocab_inverse, string_of_id, token_id_of, vocab_wf};
use crate::words::{concat_all, lemma_concat_word_of, word_of};
use vstd::prelude::*;
use vstd::utf8::{encode_utf8, encode_utf8_decode_utf8, encode_utf8_valid_utf8};

verus! {

/// Every member of the word from position `i` on has a vocabulary entry.
pub open spec fn all_known(w: Seq<Seq<char>>, i: int, v: Seq<(Seq<char>, u64)>) -> bool {
    forall|k: int| i <= k < w.len() ==> token_id_of(v, #[trigger] w[k]) is Some
}

/// Every single byte symbol has a vocabulary entry.
pub open spec fn bytes_covered(v: Seq<(Seq<char>, u64)>) -> bool {
    forall|b: u8| token_id_of(v, seq![#[trigger] symbol_char(b)]) is Some
}

/// The result of every trained merge has a vocabulary entry.
pub open spec fn merges_covered(ms: Seq<(Seq<char>, Seq<char>)>, v: Seq<(Seq<char>, u64)>) -> bool {
    forall|j: int| 0 <= j < ms.len() ==> token_id_of(v, (#[trigger] ms[j]).0 + ms[j].1) is Some
}

proof fn lemma_merge_from_known(
    w: Seq<Seq<char>>,
    a: Seq<char>,
    b: Seq<char>,
    i: int,
    v: Seq<(Seq<char>, u64)>,
)
    requires
        0 <= i,
        all_known(w, i, v),
        token_id_of(v, a + b) is Some,
    ensures
        all_known(merge_from(w, a, b, i), 0, v),
    decreases w.len() - i,
{
    if i >= w.len() {
    } else if i + 1 < w.len() && w[i] == a && w[i + 1] == b {
        lemma_merge_from_known(w, a, b, i + 2, v);
        let out = merge_from(w, a, b, i);
        let rest = merge_from(w, a, b, i + 2);
        assert forall|k: int| 0 <= k < out.len() implies token_id_of(v, #[trigger] out[k]) is Some
        by {
            if k == 0 {
                assert(out[0] == a + b);
            } else {
                assert(out[k] == rest[k - 1]);
            }
        }
    } else {
        lemma_merge_from_known(w, a, b, i + 1, v);
        let out = merge_from(w, a, b, i);
        let rest = merge_from(w, a, b, i + 1);
        assert forall|k: int| 0 <= k < out.len() implies token_id_of(v, #[trigger] out[k]) is Some
        by {
            if k == 0 {
                assert(out[0] == w[i]);
            } else {
                assert(out[k] == rest[k - 1]);
            }
        }
    }
}

proof fn lemma_bpe_steps_known(
    w: Seq<Seq<char>>,
    ms: Seq<(Seq<char>, Seq<char>)>,
    v: Seq<(Seq<char>, u64)>,
)
    requires
        all_known(w, 0, v),
        merges_covered(ms, v),
    ensures
        all_known(bpe_steps(w, ms), 0, v),
    decreases w.len(),
{
    if w.len() >= 2 {
        lemma_best_upto_props(w, ms, w.len() - 1);
        if let Some((j, r)) = best_upto(w, ms, w.len() - 1) {
            lemma_pair_rank_member(ms, w[j], w[j + 1], 0);
            assert(token_id_of(v, w[j] + w[j + 1]) is Some);
            lemma_merge_from_known(w, w[j], w[j + 1], 0, v);
            lemma_bpe_step_shrinks(w, ms);
            let w2 = merge_from(w, w[j], w[j + 1], 0);
            if w2.len() < w.len() {
                lemma_bpe_steps_known(w2, ms, v);
            }
        }
    }
}

proof fn lemma_text_of_skip(ids: Seq<u64>, i: int, v: Seq<(Seq<char>, u64)>)
    requires
        0 <= i <= ids.len(),
    ensures
        text_of_from(ids, i, v) == text_of_from(ids.skip(i), 0, v),
    decreases ids.len() - i, i,
{
    if i == ids.len() {
        assert(ids.skip(i) =~= Seq::<u64>::empty());
    } else if i == 0 {
        assert(ids.skip(0) =~= ids);
    } else {
        let s = ids.skip(i);
        assert(s[0] == ids[i]);
        lemma_text_of_skip(ids, i + 1, v);
        lemma_text_of_skip(s, 1, v);
        assert(s.skip(1) =~= ids.skip(i + 1));
    }
}

proof fn lemma_bytes_of_skip(t: Seq<char>, i: int)
    requires
        0 <= i <= t.len(),
    ensures
        bytes_of_from(t, i) == bytes_of_from(t.skip(i), 0),
    decreases t.len() - i, i,
{
    if i == t.len() {
        assert(t.skip(i) =~= Seq::<char>::empty());
    } else if i == 0 {
        assert(t.skip(0) =~= t);
    } else {
        let s = t.skip(i);
        assert(s[0] == t[i]);
        lemma_bytes_of_skip(t, i + 1);
        lemma_bytes_of_skip(s, 1);
        assert(s.skip(1) =~= t.skip(i + 1));
    }
}

proof fn lemma_text_of_append(ids1: Seq<u64>, ids2: Seq<u64>, v: Seq<(Seq<char>, u64)>)
    ensures
        text_of_from(ids1 + ids2, 0, v) == match (text_of_from(ids1, 0, v), text_of_from(
            ids2,
            0,
            v,
        )) {
            (Option::Some(a), Option::Some(b)) => Option::Some(a + b),
            _ => Option::<Seq<char>>::None,
        },
    decreases ids1.len(),
{
    let s = ids1 + ids2;
    if ids1.len() == 0 {
        assert(s =~= ids2);
        match text_of_from(ids2, 0, v) {
            Option::Some(bb) => {
                assert(Seq::<char>::empty() + bb =~= bb);
            },
            Option::None => {},
        }
    } else {
        assert(s[0] == ids1[0]);
        lemma_text_of_skip(s, 1, v);
        lemma_text_of_skip(ids1, 1, v);
        assert(s.skip(1) =~= ids1.skip(1) + ids2);
        lemma_text_of_append(ids1.skip(1), ids2, v);
        match string_of_id(v, ids1[0]) {
            Option::None => {},
            Option::Some(h) => {
                match (text_of_from(ids1.skip(1), 0, v), text_of_from(ids2, 0, v)) {
                    (Option::Some(a), Option::Some(b)) => {
                        assert(h + (a + b) =~= (h + a) + b);
                    },
                    _ => {},
                }
            },
        }
    }
}

proof fn lemma_bytes_of_syms(bs: Seq<u8>)
    ensures
        bytes_of_from(syms_of_bytes(bs), 0) == Some(bs),
    decreases bs.len(),
{
    let t = syms_of_bytes(bs);
    if bs.len() == 0 {
        assert(Seq::<u8>::empty() =~= bs);
    } else {
        assert(t[0] == symbol_char(bs[0]));
        lemma_byte_of_symbol(bs[0]);
        lemma_bytes_of_skip(t, 1);
        assert(t.skip(1) =~= syms_of_bytes(bs.skip(1)));
        lemma_bytes_of_syms(bs.skip(1));
        assert(seq![bs[0]] + bs.skip(1) =~= bs);
    }
}

proof fn lemma_word_ids_text(w: Seq<Seq<char>>, i: int, v: Seq<(Seq<char>, u64)>)
    requires
        0 <= i <= w.len(),
        vocab_wf(v),
        all_known(w, i, v),
    ensures
        text_of_from(ids_from(w, i, v), 0, v) == Some(concat_all(w.skip(i))),
    decreases w.len() - i,
{
    if i == w.len() {
        assert(w.skip(i) =~= Seq::<Seq<char>>::empty());
    } else {
        let id = token_id_of(v, w[i]);
        assert(id is Some);
        lemma_vocab_inverse(v, w[i], id->0);
        lemma_word_ids_text(w, i + 1, v);
        let ids = ids_from(w, i, v);
        let rest = ids_from(w, i + 1, v);
        assert(ids == seq![id->0] + rest);
        assert(ids[0] == id->0);
        lemma_text_of_skip(ids, 1, v);
        assert(ids.skip(1) =~= rest);
        assert(w.skip(i)[0] == w[i]);
        assert(w.skip(i).drop_first() =~= w.skip(i + 1));
        assert(concat_all(w.skip(i)) == w[i] + concat_all(w.skip(i + 1)));
    }
}

proof fn lemma_encode_utf8_concat(a: Seq<char>, b: Seq<char>)
    ensures
        encode_utf8(a + b) == encode_utf8(a) + encode_utf8(b),
    decreases a.len(),
{
    if a.len() == 0 {
        assert(a + b =~= b);
        assert(encode_utf8(a) + encode_utf8(b) =~= encode_utf8(b));
    } else {
        assert((a + b)[0] == a[0]);
        assert((a + b).drop_first() =~= a.drop_first() + b);
        lemma_encode_utf8_concat(a.drop_first(), b);
        assert(vstd::utf8::encode_scalar(a[0] as u32) + (encode_utf8(a.drop_first())
            + encode_utf8(b)) =~= (vstd::utf8::encode_scalar(a[0] as u32) + encode_utf8(
            a.drop_first(),
        )) + encode_utf8(b));
    }
}

proof fn lemma_chunk_word_known(chunk: Seq<char>, v: Seq<(Seq<char>, u64)>)
    requires
        bytes_covered(v),
    ensures
        all_known(word_of(syms_of_bytes(encode_utf8(chunk))), 0, v),
{
    let token = syms_of_bytes(encode_utf8(chunk));
    let w = word_of(token);
    assert forall|k: int| 0 <= k < w.len() implies token_id_of(v, #[trigger] w[k]) is Some by {
        assert(w[k] == seq![token[k]]);
        assert(token[k] == symbol_char(encode_utf8(chunk)[k]));
    }
}

proof fn lemma_enc_text(
    chunks: Seq<Seq<char>>,
    i: int,
    v: Seq<(Seq<char>, u64)>,
    ms: Seq<(Seq<char>, Seq<char>)>,
)
    requires
        0 <= i <= chunks.len(),
        vocab_wf(v),
        bytes_covered(v),
        merges_covered(ms, v),
    ensures
        text_of_from(enc_from(chunks, i, v, ms), 0, v) == Some(
            syms_of_bytes(encode_utf8(concat_all(chunks.skip(i)))),
        ),
    decreases chunks.len() - i,
{
    if i == chunks.len() {
        assert(chunks.skip(i) =~= Seq::<Seq<char>>::empty());
        assert(encode_utf8(concat_all(chunks.skip(i))) =~= Seq::<u8>::empty());
        assert(syms_of_bytes(Seq::<u8>::empty()) =~= Seq::<char>::empty());
    } else {
        let chunk = chunks[i];
        let token = syms_of_bytes(encode_utf8(chunk));
        let w0 = word_of(token);
        let wf = bpe_steps(w0, ms);
        lemma_chunk_word_known(chunk, v);
        lemma_bpe_steps_known(w0, ms, v);
        lemma_word_ids_text(wf, 0, v);
        assert(wf.skip(0) =~= wf);
        lemma_bpe_steps_concat(w0, ms);
        lemma_concat_word_of(token);
        assert(text_of_from(encode_chunk(chunk, v, ms), 0, v) == Some(token));
        lemma_enc_text(chunks, i + 1, v, ms);
        lemma_text_of_append(encode_chunk(chunk, v, ms), enc_from(chunks, i + 1, v, ms), v);
        let tail_text = syms_of_bytes(encode_utf8(concat_all(chunks.skip(i + 1))));
        assert(text_of_from(enc_from(chunks, i, v, ms), 0, v) == Some(token + tail_text));
        lemma_encode_utf8_concat(chunk, concat_all(chunks.skip(i + 1)));
        assert(chunks.skip(i)[0] == chunks[i]);
        assert(chunks.skip(i).drop_first() =~= chunks.skip(i + 1));
        assert(concat_all(chunks.skip(i)) == chunk + concat_all(chunks.skip(i + 1)));
        assert(token + tail_text =~= syms_of_bytes(
            encode_utf8(chunk) + encode_utf8(concat_all(chunks.skip(i + 1))),
        ));
    }
}

/// The round-trip law: for any text, if the vocabulary has an entry for
/// every single byte symbol and for the result of every trained merge, and
/// is injective in both directions, then decoding the encoding of the text
/// gives exactly the text back.
pub proof fn lemma_round_trip(
    text: Seq<char>,
    v: Seq<(Seq<char>, u64)>,
    ms: Seq<(Seq<char>, Seq<char>)>,
)
    requires
        vocab_wf(v),
        bytes_covered(v),
        merges_covered(ms, v),
    ensures
        spec_decode(spec_encode(text, v, ms), v) == Result::<Seq<char>, TokenizerError>::Ok(text),
{
    let segv = spec_segment(text);
    lemma_enc_text(segv, 0, v, ms);
    assert(segv.skip(0) =~= segv);
    lemma_segment_concat(text);
    assert(text_of_from(spec_encode(text, v, ms), 0, v) == Some(syms_of_bytes(encode_utf8(text))));
    lemma_bytes_of_syms(encode_utf8(text));
    encode_utf8_valid_utf8(text);
    encode_utf8_decode_utf8(text);
}

} // verus!
