//! Properties of the tokenizer that span its operations: what decoding gives
//! back of an encoding, that words encode independently, that ids of the
//! unknown token are dropped when decoding, that characters never seen in
//! training encode to the unknown token, that training is deterministic, bounded by the number of
//! merges asked for and lays its vocabulary out in a fixed order, and that a
//! tokenizer rebuilt from its listings behaves as the one listed.

use vstd::prelude::*;
use crate::bpe::{
    alphabet, apply_merges, corpus_words, decode_text, encode_text, encode_word, encode_words,
    eow, ids_in_range, initial_pieces, joined_pieces, last_index_of, learned_merges,
    merge_pieces, replace_eow, token_id, trained_vocab, unk, word_pieces,
};
use crate::text::{is_ws, split_ws, trim, trim_end, trim_start, words_from};
use crate::tokenizer::BpeTokenizer;
use crate::bpe::{
    best_pair, has_pair, is_best_pair, lemma_alphabet_is, lemma_occurs_pair_count,
    lemma_outranks_irreflexive, lemma_outranks_transitive, lemma_pair_count_occurs, merge_all,
    occurs_at, outranks, pair_count, strictly_sorted, count_before, count_in_word,
};

verus! {

/// `s` holds `p` at position `i`.
pub open spec fn holds_at(s: Seq<char>, p: Seq<char>, i: int) -> bool {
    0 <= i && i + p.len() <= s.len() && s.subrange(i, i + p.len()) == p
}

/// `s` holds `p` somewhere.
pub open spec fn holds(s: Seq<char>, p: Seq<char>) -> bool {
    exists|i: int| #[trigger] holds_at(s, p, i)
}

/// `s` holds the end-of-word marker `</w>` somewhere.
pub open spec fn holds_eow(s: Seq<char>) -> bool {
    holds(s, eow())
}

/// `<unk>` is not among the pieces that `merges` make of word `w`.
pub open spec fn pieces_avoid_unk(merges: Seq<(Seq<char>, Seq<char>)>, w: Seq<char>) -> bool {
    !apply_merges(initial_pieces(w), merges).contains(unk())
}

/// Every word of `text` can come back from decoding: it holds no `</w>`, and
/// none of the pieces that `merges` make of it is `<unk>`.
pub open spec fn words_survive(merges: Seq<(Seq<char>, Seq<char>)>, text: Seq<char>) -> bool {
    forall|k: int|
        0 <= k < split_ws(text).len() ==> !holds_eow(#[trigger] split_ws(text)[k])
            && pieces_avoid_unk(merges, split_ws(text)[k])
}

/// Words joined by single spaces.
pub open spec fn join_words(ws: Seq<Seq<char>>) -> Seq<char>
    decreases ws.len(),
{
    if ws.len() == 0 {
        seq![]
    } else if ws.len() == 1 {
        ws[0]
    } else {
        ws[0] + seq![' '] + join_words(ws.drop_first())
    }
}

/// Every piece of `p` is in `vocab`.
pub open spec fn all_known(vocab: Seq<Seq<char>>, p: Seq<Seq<char>>) -> bool {
    forall|i: int| 0 <= i < p.len() ==> vocab.contains(#[trigger] p[i])
}

/// Each word followed by `</w>`, all concatenated.
pub open spec fn blocks(ws: Seq<Seq<char>>) -> Seq<char>
    decreases ws.len(),
{
    if ws.len() == 0 {
        seq![]
    } else {
        blocks(ws.drop_last()) + (ws.last() + eow())
    }
}

/// Each word followed by a space, all concatenated.
pub open spec fn spaced(ws: Seq<Seq<char>>) -> Seq<char>
    decreases ws.len(),
{
    if ws.len() == 0 {
        seq![]
    } else {
        ws[0] + seq![' '] + spaced(ws.drop_first())
    }
}

proof fn lemma_flatten_concat(x: Seq<Seq<char>>, y: Seq<Seq<char>>)
    ensures
        (x + y).flatten() == x.flatten() + y.flatten(),
    decreases x.len(),
{
    if x.len() == 0 {
        assert(x + y =~= y);
        assert(x.flatten() + y.flatten() =~= y.flatten());
    } else {
        assert((x + y).drop_first() =~= x.drop_first() + y);
        lemma_flatten_concat(x.drop_first(), y);
        assert((x + y)[0] == x[0]);
        assert((x + y).flatten() =~= x[0] + (x.drop_first() + y).flatten());
        assert(x.flatten() + y.flatten() =~= x[0] + (x.drop_first().flatten() + y.flatten()));
    }
}

proof fn lemma_flatten_single(q: Seq<char>)
    ensures
        seq![q].flatten() == q,
{
    seq![q].lemma_flatten_one_element();
}

proof fn lemma_merge_props(p: Seq<Seq<char>>, a: Seq<char>, b: Seq<char>)
    ensures
        merge_pieces(p, a, b).flatten() == p.flatten(),
    decreases p.len(),
{
    if p.len() >= 2 {
        if p[0] == a && p[1] == b {
            let rest = p.skip(2);
            lemma_merge_props(rest, a, b);
            let r = merge_pieces(rest, a, b);
            let m = a + b;
            assert(merge_pieces(p, a, b) == seq![m] + r);
            lemma_flatten_concat(seq![m], r);
            lemma_flatten_single(m);
            assert(p =~= seq![a] + (seq![b] + rest));
            lemma_flatten_concat(seq![a], seq![b] + rest);
            lemma_flatten_concat(seq![b], rest);
            lemma_flatten_single(a);
            lemma_flatten_single(b);
        } else {
            let rest = p.drop_first();
            lemma_merge_props(rest, a, b);
            let r = merge_pieces(rest, a, b);
            assert(merge_pieces(p, a, b) == seq![p[0]] + r);
            lemma_flatten_concat(seq![p[0]], r);
            lemma_flatten_single(p[0]);
            assert(p =~= seq![p[0]] + rest);
            lemma_flatten_concat(seq![p[0]], rest);
        }
    }
}

proof fn lemma_merge_known(vocab: Seq<Seq<char>>, p: Seq<Seq<char>>, a: Seq<char>, b: Seq<char>)
    requires
        all_known(vocab, p),
        vocab.contains(a + b),
    ensures
        all_known(vocab, merge_pieces(p, a, b)),
    decreases p.len(),
{
    if p.len() >= 2 {
        if p[0] == a && p[1] == b {
            let rest = p.skip(2);
            assert forall|i: int| 0 <= i < rest.len() implies vocab.contains(#[trigger] rest[i]) by {
                assert(rest[i] == p[i + 2]);
            }
            lemma_merge_known(vocab, rest, a, b);
            let res = seq![a + b] + merge_pieces(rest, a, b);
            assert forall|i: int| 0 <= i < res.len() implies vocab.contains(#[trigger] res[i]) by {
                if i > 0 {
                    assert(res[i] == merge_pieces(rest, a, b)[i - 1]);
                }
            }
        } else {
            let rest = p.drop_first();
            assert forall|i: int| 0 <= i < rest.len() implies vocab.contains(#[trigger] rest[i]) by {
                assert(rest[i] == p[i + 1]);
            }
            lemma_merge_known(vocab, rest, a, b);
            let res = seq![p[0]] + merge_pieces(rest, a, b);
            assert(vocab.contains(p[0]));
            assert forall|i: int| 0 <= i < res.len() implies vocab.contains(#[trigger] res[i]) by {
                if i > 0 {
                    assert(res[i] == merge_pieces(rest, a, b)[i - 1]);
                }
            }
        }
    }
}

proof fn lemma_apply_props(
    vocab: Seq<Seq<char>>,
    p: Seq<Seq<char>>,
    merges: Seq<(Seq<char>, Seq<char>)>,
)
    requires
        all_known(vocab, p),
        forall|k: int| 0 <= k < merges.len() ==> vocab.contains(#[trigger] merges[k].0 + merges[k].1),
    ensures
        all_known(vocab, apply_merges(p, merges)),
        apply_merges(p, merges).flatten() == p.flatten(),
    decreases merges.len(),
{
    if merges.len() > 0 {
        let (a, b) = (merges[0].0, merges[0].1);
        lemma_merge_props(p, a, b);
        assert(vocab.contains(merges[0].0 + merges[0].1));
        lemma_merge_known(vocab, p, a, b);
        let rest = merges.drop_first();
        assert forall|k: int| 0 <= k < rest.len() implies vocab.contains(
            #[trigger] rest[k].0 + rest[k].1,
        ) by {
            assert(rest[k] == merges[k + 1]);
        }
        lemma_apply_props(vocab, merge_pieces(p, a, b), rest);
    }
}

proof fn lemma_flatten_singles(w: Seq<char>)
    ensures
        w.map_values(|c: char| seq![c]).flatten() == w,
    decreases w.len(),
{
    if w.len() > 0 {
        let s = w.map_values(|c: char| seq![c]);
        assert(s.drop_first() =~= w.drop_first().map_values(|c: char| seq![c]));
        lemma_flatten_singles(w.drop_first());
        assert(s.flatten() =~= seq![w[0]] + w.drop_first());
        assert(w =~= seq![w[0]] + w.drop_first());
    } else {
        assert(w.map_values(|c: char| seq![c]) =~= Seq::<Seq<char>>::empty());
        assert(w =~= Seq::<char>::empty());
    }
}

proof fn lemma_initial_props(vocab: Seq<Seq<char>>, w: Seq<char>)
    requires
        vocab.contains(eow()),
        forall|j: int| 0 <= j < w.len() ==> vocab.contains(seq![#[trigger] w[j]]),
    ensures
        all_known(vocab, initial_pieces(w)),
        initial_pieces(w).flatten() == w + eow(),
{
    let p = initial_pieces(w);
    let s = w.map_values(|c: char| seq![c]);
    assert(p == s.push(eow()));
    assert forall|i: int| 0 <= i < p.len() implies vocab.contains(#[trigger] p[i]) by {
        if i < p.len() - 1 {
            assert(p[i] == seq![w[i]]);
        }
    }
    s.lemma_flatten_push(eow());
    lemma_flatten_singles(w);
}

/// Where `q` is in `vocab`, its id is an index holding `q`.
proof fn lemma_token_id_known(vocab: Seq<Seq<char>>, q: Seq<char>, unk_id: usize)
    requires
        vocab.contains(q),
        vocab.len() <= usize::MAX,
    ensures
        token_id(vocab, q, unk_id) < vocab.len(),
        vocab[token_id(vocab, q, unk_id) as int] == q,
    decreases vocab.len(),
{
    let i = last_index_of(vocab, q);
    assert(0 <= i < vocab.len() && vocab[i] == q) by {
        lemma_last_index_of(vocab, q);
    }
}

proof fn lemma_last_index_of(vocab: Seq<Seq<char>>, q: Seq<char>)
    requires
        vocab.contains(q),
    ensures
        0 <= last_index_of(vocab, q) < vocab.len(),
        vocab[last_index_of(vocab, q)] == q,
    decreases vocab.len(),
{
    if vocab.last() != q {
        let j = choose|j: int| 0 <= j < vocab.len() && vocab[j] == q;
        assert(vocab.drop_last()[j] == q);
        lemma_last_index_of(vocab.drop_last(), q);
    }
}

proof fn lemma_joined_concat(vocab: Seq<Seq<char>>, x: Seq<usize>, y: Seq<usize>)
    ensures
        joined_pieces(vocab, x + y) == joined_pieces(vocab, x) + joined_pieces(vocab, y),
    decreases y.len(),
{
    if y.len() == 0 {
        assert(x + y =~= x);
        assert(joined_pieces(vocab, x) + joined_pieces(vocab, y) =~= joined_pieces(vocab, x));
    } else {
        assert((x + y).drop_last() =~= x + y.drop_last());
        lemma_joined_concat(vocab, x, y.drop_last());
    }
}

proof fn lemma_joined_pieces_of(vocab: Seq<Seq<char>>, p: Seq<Seq<char>>, unk_id: usize)
    requires
        all_known(vocab, p),
        forall|i: int| 0 <= i < p.len() ==> #[trigger] p[i] != unk(),
        vocab.len() <= usize::MAX,
    ensures
        ids_in_range(vocab.len(), p.map_values(|q: Seq<char>| token_id(vocab, q, unk_id))),
        joined_pieces(vocab, p.map_values(|q: Seq<char>| token_id(vocab, q, unk_id)))
            == p.flatten_alt(),
    decreases p.len(),
{
    let ids = p.map_values(|q: Seq<char>| token_id(vocab, q, unk_id));
    if p.len() > 0 {
        let pd = p.drop_last();
        assert(ids.drop_last() =~= pd.map_values(|q: Seq<char>| token_id(vocab, q, unk_id)));
        assert forall|i: int| 0 <= i < pd.len() implies vocab.contains(#[trigger] pd[i]) by {
            assert(pd[i] == p[i]);
        }
        assert forall|i: int| 0 <= i < pd.len() implies #[trigger] pd[i] != unk() by {
            assert(pd[i] == p[i]);
        }
        lemma_joined_pieces_of(vocab, pd, unk_id);
        assert(vocab.contains(p[p.len() - 1]));
        lemma_token_id_known(vocab, p.last(), unk_id);
        assert(ids.last() == token_id(vocab, p.last(), unk_id));
        assert(p.last() != unk());
        assert forall|i: int| 0 <= i < ids.len() implies ids[i] < vocab.len() by {
            if i < ids.len() - 1 {
                assert(ids[i] == ids.drop_last()[i]);
            }
        }
    } else {
        assert(ids =~= Seq::<usize>::empty());
    }
}

/// The pieces of one encoded word decode to the word followed by `</w>`.
proof fn lemma_word_decodes(
    vocab: Seq<Seq<char>>,
    merges: Seq<(Seq<char>, Seq<char>)>,
    unk_id: usize,
    w: Seq<char>,
)
    requires
        pieces_avoid_unk(merges, w),
        vocab.contains(eow()),
        vocab.len() <= usize::MAX,
        forall|j: int| 0 <= j < w.len() ==> vocab.contains(seq![#[trigger] w[j]]),
        forall|k: int| 0 <= k < merges.len() ==> vocab.contains(#[trigger] merges[k].0 + merges[k].1),
    ensures
        ids_in_range(vocab.len(), encode_word(vocab, merges, unk_id, w)),
        joined_pieces(vocab, encode_word(vocab, merges, unk_id, w)) == w + eow(),
{
    lemma_initial_props(vocab, w);
    let p = apply_merges(initial_pieces(w), merges);
    lemma_apply_props(vocab, initial_pieces(w), merges);
    assert forall|i: int| 0 <= i < p.len() implies #[trigger] p[i] != unk() by {
        if p[i] == unk() {
            assert(p.contains(unk()));
        }
    }
    lemma_joined_pieces_of(vocab, p, unk_id);
    p.lemma_flatten_and_flatten_alt_are_equivalent();
}

/// Conditions on a word for it to come back from decoding.
pub open spec fn word_ok(
    vocab: Seq<Seq<char>>,
    merges: Seq<(Seq<char>, Seq<char>)>,
    w: Seq<char>,
) -> bool {
    &&& w.len() > 0
    &&& !holds_eow(w)
    &&& pieces_avoid_unk(merges, w)
    &&& forall|j: int| 0 <= j < w.len() ==> !is_ws(#[trigger] w[j])
    &&& forall|j: int| 0 <= j < w.len() ==> vocab.contains(seq![#[trigger] w[j]])
}

proof fn lemma_words_decode(
    vocab: Seq<Seq<char>>,
    merges: Seq<(Seq<char>, Seq<char>)>,
    unk_id: usize,
    ws: Seq<Seq<char>>,
)
    requires
        forall|k: int| 0 <= k < ws.len() ==> word_ok(vocab, merges, #[trigger] ws[k]),
        vocab.contains(eow()),
        vocab.len() <= usize::MAX,
        forall|k: int| 0 <= k < merges.len() ==> vocab.contains(#[trigger] merges[k].0 + merges[k].1),
    ensures
        ids_in_range(vocab.len(), encode_words(vocab, merges, unk_id, ws)),
        joined_pieces(vocab, encode_words(vocab, merges, unk_id, ws)) == blocks(ws),
    decreases ws.len(),
{
    if ws.len() > 0 {
        let d = ws.drop_last();
        assert forall|k: int| 0 <= k < d.len() implies word_ok(vocab, merges, #[trigger] d[k]) by {
            assert(d[k] == ws[k]);
        }
        lemma_words_decode(vocab, merges, unk_id, d);
        assert(word_ok(vocab, merges, ws[ws.len() - 1]));
        lemma_word_decodes(vocab, merges, unk_id, ws.last());
        lemma_joined_concat(
            vocab,
            encode_words(vocab, merges, unk_id, d),
            encode_word(vocab, merges, unk_id, ws.last()),
        );
        let x = encode_words(vocab, merges, unk_id, d);
        let y = encode_word(vocab, merges, unk_id, ws.last());
        assert forall|i: int| 0 <= i < (x + y).len() implies (x + y)[i] < vocab.len() by {
            if i < x.len() {
                assert((x + y)[i] == x[i]);
            } else {
                assert((x + y)[i] == y[i - x.len()]);
            }
        }
    } else {
        assert(encode_words(vocab, merges, unk_id, ws) =~= Seq::<usize>::empty());
    }
}

proof fn lemma_blocks_front(ws: Seq<Seq<char>>)
    requires
        ws.len() > 0,
    ensures
        blocks(ws) == (ws[0] + eow()) + blocks(ws.drop_first()),
    decreases ws.len(),
{
    if ws.len() == 1 {
        assert(ws.drop_last() =~= Seq::<Seq<char>>::empty());
        assert(ws.drop_first() =~= Seq::<Seq<char>>::empty());
        assert(blocks(ws) =~= (ws[0] + eow()) + blocks(ws.drop_first()));
    } else {
        lemma_blocks_front(ws.drop_last());
        assert(ws.drop_last().drop_first() =~= ws.drop_first().drop_last());
        assert(ws.drop_first().last() == ws.last());
        assert(blocks(ws) =~= (ws[0] + eow()) + blocks(ws.drop_first()));
    }
}

proof fn lemma_replace_block(w: Seq<char>, rest: Seq<char>)
    requires
        !holds_eow(w),
    ensures
        replace_eow(w + eow() + rest) == w + seq![' '] + replace_eow(rest),
    decreases w.len(),
{
    let s = w + eow() + rest;
    if w.len() == 0 {
        assert(s.take(4) =~= eow());
        assert(s.skip(4) =~= rest);
        assert(w + seq![' '] + replace_eow(rest) =~= seq![' '] + replace_eow(rest));
    } else {
        if w.len() >= 4 {
            assert(s.take(4) =~= w.subrange(0, 4));
            assert(!holds_at(w, eow(), 0));
        } else {
            // The window starting in `w` ends inside `</w>`, before its `>`.
            assert(s.take(4)[3] == eow()[3 - w.len()]);
            assert(eow()[3 - w.len()] != '>');
            assert(eow()[3] == '>');
        }
        assert(s.take(4) != eow());
        assert(s.drop_first() =~= w.drop_first() + eow() + rest);
        assert(!holds_eow(w.drop_first())) by {
            if holds_eow(w.drop_first()) {
                let i = choose|i: int| #[trigger] holds_at(w.drop_first(), eow(), i);
                assert(w.subrange(i + 1, i + 5) =~= w.drop_first().subrange(i, i + 4));
                assert(holds_at(w, eow(), i + 1));
            }
        }
        lemma_replace_block(w.drop_first(), rest);
        assert(w + seq![' '] + replace_eow(rest) =~= seq![w[0]] + (w.drop_first() + seq![' ']
            + replace_eow(rest)));
    }
}

proof fn lemma_replace_blocks(ws: Seq<Seq<char>>)
    requires
        forall|k: int| 0 <= k < ws.len() ==> !holds_eow(#[trigger] ws[k]),
    ensures
        replace_eow(blocks(ws)) == spaced(ws),
    decreases ws.len(),
{
    if ws.len() > 0 {
        lemma_blocks_front(ws);
        let d = ws.drop_first();
        assert forall|k: int| 0 <= k < d.len() implies !holds_eow(#[trigger] d[k]) by {
            assert(d[k] == ws[k + 1]);
        }
        lemma_replace_blocks(d);
        assert(!holds_eow(ws[0]));
        lemma_replace_block(ws[0], blocks(d));
        assert((ws[0] + eow()) + blocks(d) =~= ws[0] + eow() + blocks(d));
    } else {
        assert(blocks(ws) =~= Seq::<char>::empty());
    }
}

proof fn lemma_spaced_join(ws: Seq<Seq<char>>)
    requires
        ws.len() > 0,
        forall|k: int| 0 <= k < ws.len() ==> (#[trigger] ws[k]).len() > 0,
    ensures
        spaced(ws) == join_words(ws) + seq![' '],
        join_words(ws).len() > 0,
        join_words(ws)[0] == ws[0][0],
        join_words(ws).last() == ws.last().last(),
    decreases ws.len(),
{
    if ws.len() == 1 {
        assert(ws.drop_first() =~= Seq::<Seq<char>>::empty());
        assert(spaced(ws.drop_first()) =~= Seq::<char>::empty());
        assert(spaced(ws) =~= join_words(ws) + seq![' ']);
    } else {
        let d = ws.drop_first();
        assert forall|k: int| 0 <= k < d.len() implies (#[trigger] d[k]).len() > 0 by {
            assert(d[k] == ws[k + 1]);
        }
        lemma_spaced_join(d);
        assert(spaced(ws) =~= join_words(ws) + seq![' ']);
        assert(d.last() == ws.last());
        assert(ws[0].len() > 0);
    }
}

proof fn lemma_trim_spaced(ws: Seq<Seq<char>>)
    requires
        forall|k: int| 0 <= k < ws.len() ==> (#[trigger] ws[k]).len() > 0,
        forall|k: int, j: int|
            0 <= k < ws.len() && 0 <= j < ws[k].len() ==> !is_ws(#[trigger] ws[k][j]),
    ensures
        trim(spaced(ws)) == join_words(ws),
{
    if ws.len() == 0 {
        assert(spaced(ws) =~= Seq::<char>::empty());
    } else {
        lemma_spaced_join(ws);
        let j = join_words(ws);
        let s = spaced(ws);
        assert(s[0] == j[0]);
        assert(!is_ws(ws[0][0]));
        assert(trim_start(s) == s);
        assert(s.last() == ' ');
        assert(is_ws(' '));
        assert(s.drop_last() =~= j);
        assert(!is_ws(ws.last()[ws.last().len() - 1]));
        assert(!is_ws(j.last()));
        assert(trim_end(j) == j);
    }
}

/// The words of `words_from(s, cur)` are non-empty, free of whitespace, and
/// made of characters of `s` and `cur`.
proof fn lemma_words_from_props(s: Seq<char>, cur: Seq<char>)
    requires
        forall|j: int| 0 <= j < cur.len() ==> !is_ws(#[trigger] cur[j]),
    ensures
        forall|k: int| 0 <= k < words_from(s, cur).len() ==> (#[trigger] words_from(s, cur)[k]).len() > 0,
        forall|k: int, j: int|
            0 <= k < words_from(s, cur).len() && 0 <= j < words_from(s, cur)[k].len() ==> {
                let c = #[trigger] words_from(s, cur)[k][j];
                &&& !is_ws(c)
                &&& (s.contains(c) || cur.contains(c))
            },
    decreases s.len(),
{
    let w = words_from(s, cur);
    let head: Seq<Seq<char>> = if cur.len() > 0 {
        seq![cur]
    } else {
        seq![]
    };
    if s.len() == 0 {
        assert forall|k: int, j: int| 0 <= k < w.len() && 0 <= j < w[k].len() implies ({
            let c = #[trigger] w[k][j];
            &&& !is_ws(c)
            &&& (s.contains(c) || cur.contains(c))
        }) by {
            assert(w[k] == cur);
        }
    } else if is_ws(s[0]) {
        let t = s.drop_first();
        lemma_words_from_props(t, seq![]);
        let r = words_from(t, seq![]);
        assert(w == head + r);
        assert forall|k: int| 0 <= k < w.len() implies (#[trigger] w[k]).len() > 0 by {
            if k >= head.len() {
                assert(w[k] == r[k - head.len()]);
            }
        }
        assert forall|k: int, j: int| 0 <= k < w.len() && 0 <= j < w[k].len() implies ({
            let c = #[trigger] w[k][j];
            &&& !is_ws(c)
            &&& (s.contains(c) || cur.contains(c))
        }) by {
            if k >= head.len() {
                assert(w[k] == r[k - head.len()]);
                let c = w[k][j];
                assert(r[k - head.len()][j] == c);
                if t.contains(c) {
                    let i = choose|i: int| 0 <= i < t.len() && t[i] == c;
                    assert(s[i + 1] == c);
                }
            } else {
                assert(w[k] == cur);
            }
        }
    } else {
        let t = s.drop_first();
        let c2 = cur.push(s[0]);
        assert forall|j: int| 0 <= j < c2.len() implies !is_ws(#[trigger] c2[j]) by {
            if j < cur.len() {
                assert(c2[j] == cur[j]);
            }
        }
        lemma_words_from_props(t, c2);
        assert(w == words_from(t, c2));
        assert forall|k: int, j: int| 0 <= k < w.len() && 0 <= j < w[k].len() implies ({
            let c = #[trigger] w[k][j];
            &&& !is_ws(c)
            &&& (s.contains(c) || cur.contains(c))
        }) by {
            let c = w[k][j];
            assert(words_from(t, c2)[k][j] == c);
            if t.contains(c) {
                let i = choose|i: int| 0 <= i < t.len() && t[i] == c;
                assert(s[i + 1] == c);
            } else {
                assert(c2.contains(c));
                let i = choose|i: int| 0 <= i < c2.len() && c2[i] == c;
                if i < cur.len() {
                    assert(cur[i] == c);
                } else {
                    assert(s[0] == c);
                }
            }
        }
    }
}

/// Decoding the encoding of a text gives back its words joined by single
/// spaces, provided every character of the text has a one-character entry in
/// the vocabulary, `</w>` and every merge's concatenation are in the
/// vocabulary, no word of the text holds `</w>`, and no piece that the
/// merges make of a word is `<unk>`.
pub proof fn law_decode_encode(
    vocab: Seq<Seq<char>>,
    merges: Seq<(Seq<char>, Seq<char>)>,
    unk_id: usize,
    text: Seq<char>,
)
    requires
        vocab.len() <= usize::MAX,
        words_survive(merges, text),
        vocab.contains(eow()),
        forall|i: int| 0 <= i < text.len() && !is_ws(text[i]) ==> vocab.contains(seq![#[trigger] text[i]]),
        forall|k: int| 0 <= k < merges.len() ==> vocab.contains(#[trigger] merges[k].0 + merges[k].1),
    ensures
        ids_in_range(vocab.len(), encode_text(vocab, merges, unk_id, text)),
        decode_text(vocab, encode_text(vocab, merges, unk_id, text)) == join_words(split_ws(text)),
{
    let ws = split_ws(text);
    lemma_words_from_props(text, seq![]);
    assert forall|k: int| 0 <= k < ws.len() implies word_ok(vocab, merges, #[trigger] ws[k]) by {
        let w = ws[k];
        assert(!holds_eow(split_ws(text)[k]));
        assert forall|j: int| 0 <= j < w.len() implies vocab.contains(seq![#[trigger] w[j]]) by {
            let c = ws[k][j];
            assert(text.contains(c) || Seq::<char>::empty().contains(c));
            let i = choose|i: int| 0 <= i < text.len() && text[i] == c;
            assert(!is_ws(c));
        }
    }
    lemma_words_decode(vocab, merges, unk_id, ws);
    assert forall|k: int| 0 <= k < ws.len() implies !holds_eow(#[trigger] ws[k]) by {
        assert(word_ok(vocab, merges, ws[k]));
    }
    lemma_replace_blocks(ws);
    assert forall|k: int, j: int| 0 <= k < ws.len() && 0 <= j < ws[k].len() implies !is_ws(
        #[trigger] ws[k][j],
    ) by {
        assert(word_ok(vocab, merges, ws[k]));
    }
    lemma_trim_spaced(ws);
}

/// `c` inserted into the strictly sorted `s`, unless already there.
pub open spec fn insert_char(s: Seq<char>, c: char) -> Seq<char>
    decreases s.len(),
{
    if s.len() == 0 {
        seq![c]
    } else if c == s[0] {
        s
    } else if (c as int) < (s[0] as int) {
        seq![c] + s
    } else {
        seq![s[0]] + insert_char(s.drop_first(), c)
    }
}

/// The characters of `t`, sorted, once each.
pub open spec fn sorted_listing(t: Seq<char>) -> Seq<char>
    decreases t.len(),
{
    if t.len() == 0 {
        seq![]
    } else {
        insert_char(sorted_listing(t.drop_last()), t.last())
    }
}

proof fn lemma_insert_char(s: Seq<char>, c: char)
    requires
        strictly_sorted(s),
    ensures
        strictly_sorted(insert_char(s, c)),
        forall|x: char| #[trigger] insert_char(s, c).contains(x) <==> (s.contains(x) || x == c),
    decreases s.len(),
{
    let r = insert_char(s, c);
    if s.len() == 0 {
        assert(r[0] == c);
    } else if c == s[0] {
        assert(s.contains(s[0]));
    } else if (c as int) < (s[0] as int) {
        assert forall|x: char| #[trigger] r.contains(x) <==> (s.contains(x) || x == c) by {
            if r.contains(x) {
                let i = choose|i: int| 0 <= i < r.len() && r[i] == x;
                if i > 0 {
                    assert(s[i - 1] == x);
                }
            }
            if s.contains(x) {
                let i = choose|i: int| 0 <= i < s.len() && s[i] == x;
                assert(r[i + 1] == x);
            }
            if x == c {
                assert(r[0] == x);
            }
        }
        assert forall|i: int, j: int| 0 <= i < j < r.len() implies (r[i] as int) < (
        r[j] as int) by {
            if i > 0 {
                assert(r[i] == s[i - 1] && r[j] == s[j - 1]);
            } else {
                assert(r[j] == s[j - 1]);
            }
        }
    } else {
        let t = s.drop_first();
        assert(strictly_sorted(t)) by {
            assert forall|i: int, j: int| 0 <= i < j < t.len() implies (t[i] as int) < (
            t[j] as int) by {
                assert(t[i] == s[i + 1] && t[j] == s[j + 1]);
            }
        }
        lemma_insert_char(t, c);
        let q = insert_char(t, c);
        assert(r == seq![s[0]] + q);
        assert forall|x: char| #[trigger] r.contains(x) <==> (s.contains(x) || x == c) by {
            if r.contains(x) {
                let i = choose|i: int| 0 <= i < r.len() && r[i] == x;
                if i > 0 {
                    assert(q[i - 1] == x);
                    assert(q.contains(x));
                    if t.contains(x) {
                        let k = choose|k: int| 0 <= k < t.len() && t[k] == x;
                        assert(s[k + 1] == x);
                    }
                } else {
                    assert(s[0] == x);
                }
            }
            if s.contains(x) {
                let i = choose|i: int| 0 <= i < s.len() && s[i] == x;
                if i > 0 {
                    assert(t[i - 1] == x);
                    assert(t.contains(x));
                    assert(q.contains(x));
                    let k = choose|k: int| 0 <= k < q.len() && q[k] == x;
                    assert(r[k + 1] == x);
                } else {
                    assert(r[0] == x);
                }
            }
            if x == c {
                assert(q.contains(c));
                let k = choose|k: int| 0 <= k < q.len() && q[k] == c;
                assert(r[k + 1] == x);
            }
        }
        assert forall|i: int, j: int| 0 <= i < j < r.len() implies (r[i] as int) < (
        r[j] as int) by {
            if i > 0 {
                assert(r[i] == q[i - 1] && r[j] == q[j - 1]);
            } else {
                assert(r[j] == q[j - 1]);
                assert(q.contains(q[j - 1]));
                if t.contains(q[j - 1]) {
                    let k = choose|k: int| 0 <= k < t.len() && t[k] == q[j - 1];
                    assert(s[k + 1] == q[j - 1]);
                }
            }
        }
    }
}

proof fn lemma_sorted_listing(t: Seq<char>)
    ensures
        strictly_sorted(sorted_listing(t)),
        forall|x: char| #[trigger] sorted_listing(t).contains(x) <==> t.contains(x),
    decreases t.len(),
{
    if t.len() > 0 {
        lemma_sorted_listing(t.drop_last());
        lemma_insert_char(sorted_listing(t.drop_last()), t.last());
        assert forall|x: char| #[trigger] sorted_listing(t).contains(x) <==> t.contains(x) by {
            if t.drop_last().contains(x) {
                let k = choose|k: int| 0 <= k < t.drop_last().len() && t.drop_last()[k] == x;
                assert(t[k] == x);
            }
            if t.contains(x) {
                let k = choose|k: int| 0 <= k < t.len() && t[k] == x;
                if k < t.len() - 1 {
                    assert(t.drop_last()[k] == x);
                }
            }
        }
    }
}

/// The alphabet of a corpus lists exactly its characters, in increasing order.
pub proof fn lemma_alphabet_lists(words: Seq<Seq<char>>)
    ensures
        strictly_sorted(alphabet(words)),
        forall|c: char| #[trigger]
            alphabet(words).contains(c) <==> words.flatten_alt().contains(c),
{
    lemma_sorted_listing(words.flatten_alt());
    lemma_alphabet_is(words, sorted_listing(words.flatten_alt()));
}

/// After training on a corpus, decoding the encoding of a text gives back
/// its words joined by single spaces, provided its characters all occur in
/// the corpus, no word of it holds `</w>`, and no piece that the learned
/// merges make of a word is `<unk>`.
pub proof fn law_trained_roundtrip(lines: Seq<Seq<char>>, num_merges: nat, text: Seq<char>)
    requires
        trained_vocab(
            alphabet(corpus_words(lines)),
            learned_merges(word_pieces(corpus_words(lines)), num_merges),
        ).len() <= usize::MAX,
        words_survive(learned_merges(word_pieces(corpus_words(lines)), num_merges), text),
        forall|i: int|
            0 <= i < text.len() && !is_ws(text[i]) ==> corpus_words(
                lines,
            ).flatten_alt().contains(#[trigger] text[i]),
    ensures
        ({
            let words = corpus_words(lines);
            let merges = learned_merges(word_pieces(words), num_merges);
            let vocab = trained_vocab(alphabet(words), merges);
            &&& ids_in_range(vocab.len(), encode_text(vocab, merges, 0, text))
            &&& decode_text(vocab, encode_text(vocab, merges, 0, text)) == join_words(
                split_ws(text),
            )
        }),
{
    let words = corpus_words(lines);
    let merges = learned_merges(word_pieces(words), num_merges);
    let alpha = alphabet(words);
    let vocab = trained_vocab(alpha, merges);
    let singles = alpha.map_values(|c: char| seq![c]);
    let concats = merges.map_values(|m: (Seq<char>, Seq<char>)| m.0 + m.1);
    assert(vocab == seq![unk(), eow()] + singles + concats);
    lemma_alphabet_lists(words);
    assert(vocab[1] == eow());
    assert(vocab.contains(eow()));
    assert forall|i: int| 0 <= i < text.len() && !is_ws(text[i]) implies vocab.contains(
        seq![#[trigger] text[i]],
    ) by {
        let c = text[i];
        assert(alpha.contains(c));
        let k = choose|k: int| 0 <= k < alpha.len() && alpha[k] == c;
        assert(vocab[2 + k] == singles[k]);
    }
    assert forall|k: int| 0 <= k < merges.len() implies vocab.contains(
        #[trigger] merges[k].0 + merges[k].1,
    ) by {
        assert(vocab[2 + alpha.len() + k] == concats[k]);
    }
    law_decode_encode(vocab, merges, 0, text);
}


// ---------------------------------------------------------------------------
// Unknown characters
// ---------------------------------------------------------------------------
/// Where the `j`-th character of `cur` ends up among the words of
/// `words_from(s, cur)`.
proof fn lemma_cur_char_word(s: Seq<char>, cur: Seq<char>, j: int) -> (kt: (int, int))
    requires
        0 <= j < cur.len(),
    ensures
        0 <= kt.0 < words_from(s, cur).len(),
        0 <= kt.1 < words_from(s, cur)[kt.0].len(),
        words_from(s, cur)[kt.0][kt.1] == cur[j],
    decreases s.len(),
{
    if s.len() == 0 {
        assert(words_from(s, cur) == seq![cur]);
        (0, j)
    } else if is_ws(s[0]) {
        assert(words_from(s, cur) == seq![cur] + words_from(s.drop_first(), seq![]));
        assert(words_from(s, cur)[0] == cur);
        (0, j)
    } else {
        let c2 = cur.push(s[0]);
        assert(c2[j] == cur[j]);
        lemma_cur_char_word(s.drop_first(), c2, j)
    }
}

/// Where the non-whitespace character `s[i]` ends up among the words of
/// `words_from(s, cur)`.
proof fn lemma_char_word(s: Seq<char>, cur: Seq<char>, i: int) -> (kt: (int, int))
    requires
        0 <= i < s.len(),
        !is_ws(s[i]),
    ensures
        0 <= kt.0 < words_from(s, cur).len(),
        0 <= kt.1 < words_from(s, cur)[kt.0].len(),
        words_from(s, cur)[kt.0][kt.1] == s[i],
    decreases s.len(),
{
    let rest = s.drop_first();
    if is_ws(s[0]) {
        let head: Seq<Seq<char>> = if cur.len() > 0 {
            seq![cur]
        } else {
            seq![]
        };
        assert(words_from(s, cur) == head + words_from(rest, seq![]));
        assert(rest[i - 1] == s[i]);
        let (k, t) = lemma_char_word(rest, seq![], i - 1);
        assert(words_from(s, cur)[k + head.len()] == words_from(rest, seq![])[k]);
        (k + head.len(), t)
    } else {
        let c2 = cur.push(s[0]);
        assert(words_from(s, cur) == words_from(rest, c2));
        if i == 0 {
            assert(c2[cur.len() as int] == s[0]);
            lemma_cur_char_word(rest, c2, cur.len() as int)
        } else {
            assert(rest[i - 1] == s[i]);
            lemma_char_word(rest, c2, i - 1)
        }
    }
}

proof fn lemma_merge_keeps(p: Seq<Seq<char>>, a: Seq<char>, b: Seq<char>, q: Seq<char>)
    requires
        p.contains(q),
        q != a,
        q != b,
    ensures
        merge_pieces(p, a, b).contains(q),
    decreases p.len(),
{
    if p.len() >= 2 {
        let idx = choose|idx: int| 0 <= idx < p.len() && p[idx] == q;
        if p[0] == a && p[1] == b {
            let rest = p.skip(2);
            assert(idx >= 2);
            assert(rest[idx - 2] == q);
            lemma_merge_keeps(rest, a, b, q);
            let r = merge_pieces(rest, a, b);
            let k = choose|k: int| 0 <= k < r.len() && r[k] == q;
            assert((seq![a + b] + r)[k + 1] == q);
        } else if idx == 0 {
            assert((seq![p[0]] + merge_pieces(p.drop_first(), a, b))[0] == q);
        } else {
            let rest = p.drop_first();
            assert(rest[idx - 1] == q);
            lemma_merge_keeps(rest, a, b, q);
            let r = merge_pieces(rest, a, b);
            let k = choose|k: int| 0 <= k < r.len() && r[k] == q;
            assert((seq![p[0]] + r)[k + 1] == q);
        }
    }
}

proof fn lemma_apply_keeps(p: Seq<Seq<char>>, merges: Seq<(Seq<char>, Seq<char>)>, q: Seq<char>)
    requires
        p.contains(q),
        forall|k: int| 0 <= k < merges.len() ==> (#[trigger] merges[k]).0 != q && merges[k].1 != q,
    ensures
        apply_merges(p, merges).contains(q),
    decreases merges.len(),
{
    if merges.len() > 0 {
        assert(merges[0].0 != q && merges[0].1 != q);
        lemma_merge_keeps(p, merges[0].0, merges[0].1, q);
        let rest = merges.drop_first();
        assert forall|k: int| 0 <= k < rest.len() implies (#[trigger] rest[k]).0 != q && rest[k].1
            != q by {
            assert(rest[k] == merges[k + 1]);
        }
        lemma_apply_keeps(merge_pieces(p, merges[0].0, merges[0].1), rest, q);
    }
}

proof fn lemma_last_index_absent(vocab: Seq<Seq<char>>, q: Seq<char>)
    requires
        !vocab.contains(q),
    ensures
        last_index_of(vocab, q) == -1,
    decreases vocab.len(),
{
    if vocab.len() > 0 {
        assert(vocab[vocab.len() - 1] != q);
        assert(!vocab.drop_last().contains(q)) by {
            if vocab.drop_last().contains(q) {
                let k = choose|k: int| 0 <= k < vocab.drop_last().len() && vocab.drop_last()[k] == q;
                assert(vocab[k] == q);
            }
        }
        lemma_last_index_absent(vocab.drop_last(), q);
    }
}

proof fn lemma_encode_words_contains(
    vocab: Seq<Seq<char>>,
    merges: Seq<(Seq<char>, Seq<char>)>,
    unk_id: usize,
    ws: Seq<Seq<char>>,
    k: int,
)
    requires
        0 <= k < ws.len(),
        encode_word(vocab, merges, unk_id, ws[k]).contains(unk_id),
    ensures
        encode_words(vocab, merges, unk_id, ws).contains(unk_id),
    decreases ws.len(),
{
    let x = encode_words(vocab, merges, unk_id, ws.drop_last());
    let y = encode_word(vocab, merges, unk_id, ws.last());
    if k == ws.len() - 1 {
        let t = choose|t: int| 0 <= t < y.len() && y[t] == unk_id;
        assert((x + y)[x.len() + t] == unk_id);
    } else {
        assert(ws.drop_last()[k] == ws[k]);
        lemma_encode_words_contains(vocab, merges, unk_id, ws.drop_last(), k);
        let t = choose|t: int| 0 <= t < x.len() && x[t] == unk_id;
        assert((x + y)[t] == unk_id);
    }
}

/// A character whose one-character piece is neither in the vocabulary nor
/// part of any merge encodes to the unknown id.
pub proof fn law_unknown_char_encodes_to_unk(
    vocab: Seq<Seq<char>>,
    merges: Seq<(Seq<char>, Seq<char>)>,
    unk_id: usize,
    text: Seq<char>,
    i: int,
)
    requires
        0 <= i < text.len(),
        !is_ws(text[i]),
        !vocab.contains(seq![text[i]]),
        forall|k: int|
            0 <= k < merges.len() ==> (#[trigger] merges[k]).0 != seq![text[i]] && merges[k].1
                != seq![text[i]],
    ensures
        encode_text(vocab, merges, unk_id, text).contains(unk_id),
{
    let q = seq![text[i]];
    let ws = split_ws(text);
    let (k, t) = lemma_char_word(text, seq![], i);
    let w = ws[k];
    let init = initial_pieces(w);
    assert(init[t] == q);
    lemma_apply_keeps(init, merges, q);
    let p = apply_merges(init, merges);
    let j = choose|j: int| 0 <= j < p.len() && p[j] == q;
    lemma_last_index_absent(vocab, q);
    let ids = encode_word(vocab, merges, unk_id, w);
    assert(ids[j] == token_id(vocab, q, unk_id));
    assert(ids[j] == unk_id);
    lemma_encode_words_contains(vocab, merges, unk_id, ws, k);
}

// ---------------------------------------------------------------------------
// Training only ever merges pieces it has seen
// ---------------------------------------------------------------------------
/// The best pair among the positions from `(i, j)` on, scanning words in
/// order and positions within each word in order.
pub open spec fn best_from(ws: Seq<Seq<Seq<char>>>, i: int, j: int) -> Option<(Seq<char>, Seq<char>)>
    decreases ws.len() - i, if 0 <= i < ws.len() {
        ws[i].len() - j
    } else {
        0
    },
{
    if i < 0 || i >= ws.len() {
        None
    } else if j < 0 || j + 1 >= ws[i].len() {
        best_from(ws, i + 1, 0)
    } else {
        let here = (ws[i][j], ws[i][j + 1]);
        match best_from(ws, i, j + 1) {
            None => Some(here),
            Some(r) => if outranks(ws, here.0, here.1, r.0, r.1) {
                Some(here)
            } else {
                Some(r)
            },
        }
    }
}

/// A position at or after `(i, j)` in scanning order.
pub open spec fn at_or_after(i: int, j: int, i2: int, j2: int) -> bool {
    i2 > i || (i2 == i && j2 >= j)
}

/// `(i, j)` is a position where a pair stands.
pub open spec fn position(ws: Seq<Seq<Seq<char>>>, i: int, j: int) -> bool {
    0 <= i < ws.len() && 0 <= j && j + 1 < ws[i].len()
}

proof fn lemma_best_from(ws: Seq<Seq<Seq<char>>>, i: int, j: int) -> (pos: (int, int))
    requires
        0 <= i,
        0 <= j,
    ensures
        best_from(ws, i, j) is None ==> forall|i2: int, j2: int|
            #[trigger] position(ws, i2, j2) ==> !at_or_after(i, j, i2, j2),
        best_from(ws, i, j) is Some ==> {
            let p = best_from(ws, i, j)->0;
            &&& 0 <= pos.0 < ws.len()
            &&& occurs_at(ws[pos.0], pos.1, p.0, p.1)
            &&& forall|i2: int, j2: int|
                #[trigger] position(ws, i2, j2) && at_or_after(i, j, i2, j2) ==> !outranks(
                    ws,
                    ws[i2][j2],
                    ws[i2][j2 + 1],
                    p.0,
                    p.1,
                )
        },
    decreases ws.len() - i, if 0 <= i < ws.len() {
        ws[i].len() - j
    } else {
        0
    },
{
    if i >= ws.len() {
        (0, 0)
    } else if j + 1 >= ws[i].len() {
        lemma_best_from(ws, i + 1, 0)
    } else {
        let rpos = lemma_best_from(ws, i, j + 1);
        let here = (ws[i][j], ws[i][j + 1]);
        assert(occurs_at(ws[i], j, here.0, here.1));
        lemma_outranks_irreflexive(ws, here.0, here.1);
        match best_from(ws, i, j + 1) {
            None => {
                (i, j)
            },
            Some(r) => {
                if outranks(ws, here.0, here.1, r.0, r.1) {
                    assert forall|i2: int, j2: int|
                        #[trigger] position(ws, i2, j2) && at_or_after(i, j, i2, j2) implies !outranks(
                        ws,
                        ws[i2][j2],
                        ws[i2][j2 + 1],
                        here.0,
                        here.1,
                    ) by {
                        if !(i2 == i && j2 == j) && outranks(
                            ws,
                            ws[i2][j2],
                            ws[i2][j2 + 1],
                            here.0,
                            here.1,
                        ) {
                            lemma_outranks_transitive(
                                ws,
                                ws[i2][j2],
                                ws[i2][j2 + 1],
                                here.0,
                                here.1,
                                r.0,
                                r.1,
                            );
                        }
                    }
                    (i, j)
                } else {
                    rpos
                }
            },
        }
    }
}

/// When some word has two pieces, a best pair exists.
pub proof fn lemma_best_pair_exists(ws: Seq<Seq<Seq<char>>>)
    requires
        has_pair(ws),
    ensures
        is_best_pair(ws, best_pair(ws).0, best_pair(ws).1),
{
    let pos = lemma_best_from(ws, 0, 0);
    let i = choose|i: int| 0 <= i < ws.len() && #[trigger] ws[i].len() >= 2;
    assert(position(ws, i, 0));
    let p = best_from(ws, 0, 0)->0;
    lemma_occurs_pair_count(ws, p.0, p.1, pos.0, pos.1);
    assert forall|c: Seq<char>, d: Seq<char>|
        #![trigger pair_count(ws, c, d)]
        pair_count(ws, c, d) > 0 implies !outranks(ws, c, d, p.0, p.1) by {
        lemma_pair_count_occurs(ws, c, d);
        let (i3, j3) = choose|i3: int, j3: int| 0 <= i3 < ws.len() && occurs_at(ws[i3], j3, c, d);
        assert(position(ws, i3, j3));
        assert(ws[i3][j3] == c);
    }
    assert(is_best_pair(ws, p.0, p.1));
    crate::bpe::lemma_best_pair_is(ws, p.0, p.1);
}

/// A piece as training produces it: non-empty, and a one-character piece
/// holds a character of `chars`.
pub open spec fn piece_from(q: Seq<char>, chars: Seq<char>) -> bool {
    q.len() > 0 && (q.len() == 1 ==> chars.contains(q[0]))
}

/// Every piece of every word is as training produces it.
pub open spec fn pieces_from(ws: Seq<Seq<Seq<char>>>, chars: Seq<char>) -> bool {
    forall|i: int, j: int|
        0 <= i < ws.len() && 0 <= j < ws[i].len() ==> piece_from(#[trigger] ws[i][j], chars)
}

proof fn lemma_merge_pieces_from(p: Seq<Seq<char>>, a: Seq<char>, b: Seq<char>, chars: Seq<char>)
    requires
        forall|j: int| 0 <= j < p.len() ==> piece_from(#[trigger] p[j], chars),
    ensures
        forall|j: int|
            0 <= j < merge_pieces(p, a, b).len() ==> piece_from(
                #[trigger] merge_pieces(p, a, b)[j],
                chars,
            ),
    decreases p.len(),
{
    if p.len() >= 2 {
        if p[0] == a && p[1] == b {
            let rest = p.skip(2);
            assert forall|j: int| 0 <= j < rest.len() implies piece_from(#[trigger] rest[j], chars) by {
                assert(rest[j] == p[j + 2]);
            }
            lemma_merge_pieces_from(rest, a, b, chars);
            let r = merge_pieces(rest, a, b);
            let res = seq![a + b] + r;
            assert(piece_from(p[0], chars) && piece_from(p[1], chars));
            assert forall|j: int| 0 <= j < res.len() implies piece_from(#[trigger] res[j], chars) by {
                if j > 0 {
                    assert(res[j] == r[j - 1]);
                }
            }
        } else {
            let rest = p.drop_first();
            assert forall|j: int| 0 <= j < rest.len() implies piece_from(#[trigger] rest[j], chars) by {
                assert(rest[j] == p[j + 1]);
            }
            lemma_merge_pieces_from(rest, a, b, chars);
            let r = merge_pieces(rest, a, b);
            let res = seq![p[0]] + r;
            assert(piece_from(p[0], chars));
            assert forall|j: int| 0 <= j < res.len() implies piece_from(#[trigger] res[j], chars) by {
                if j > 0 {
                    assert(res[j] == r[j - 1]);
                }
            }
        }
    }
}

proof fn lemma_learned_pieces_from(ws: Seq<Seq<Seq<char>>>, n: nat, chars: Seq<char>)
    requires
        pieces_from(ws, chars),
    ensures
        forall|k: int|
            0 <= k < learned_merges(ws, n).len() ==> piece_from(
                #[trigger] learned_merges(ws, n)[k].0,
                chars,
            ) && piece_from(learned_merges(ws, n)[k].1, chars),
    decreases n,
{
    if n > 0 && has_pair(ws) {
        let p = best_pair(ws);
        lemma_best_pair_exists(ws);
        lemma_pair_count_occurs(ws, p.0, p.1);
        let (i, j) = choose|i: int, j: int| 0 <= i < ws.len() && occurs_at(ws[i], j, p.0, p.1);
        assert(ws[i][j] == p.0 && ws[i][j + 1] == p.1);
        let next = merge_all(ws, p.0, p.1);
        assert forall|i2: int, j2: int| 0 <= i2 < next.len() && 0 <= j2 < next[i2].len() implies piece_from(
            #[trigger] next[i2][j2],
            chars,
        ) by {
            assert forall|t: int| 0 <= t < ws[i2].len() implies piece_from(#[trigger] ws[i2][t], chars) by {}
            lemma_merge_pieces_from(ws[i2], p.0, p.1, chars);
        }
        lemma_learned_pieces_from(next, (n - 1) as nat, chars);
        let lm = learned_merges(ws, n);
        assert(lm == seq![p] + learned_merges(next, (n - 1) as nat));
        assert forall|k: int| 0 <= k < lm.len() implies piece_from(#[trigger] lm[k].0, chars)
            && piece_from(lm[k].1, chars) by {
            if k > 0 {
                assert(lm[k] == learned_merges(next, (n - 1) as nat)[k - 1]);
            }
        }
    }
}

proof fn lemma_flatten_alt_has(words: Seq<Seq<char>>, i: int, j: int)
    requires
        0 <= i < words.len(),
        0 <= j < words[i].len(),
    ensures
        words.flatten_alt().contains(words[i][j]),
    decreases words.len(),
{
    let d = words.drop_last();
    if i == words.len() - 1 {
        let f = words.flatten_alt();
        assert(f == d.flatten_alt() + words.last());
        assert(f[d.flatten_alt().len() + j] == words[i][j]);
    } else {
        assert(d[i] == words[i]);
        lemma_flatten_alt_has(d, i, j);
        let k = choose|k: int| 0 <= k < d.flatten_alt().len() && d.flatten_alt()[k] == words[i][j];
        assert(words.flatten_alt()[k] == words[i][j]);
    }
}

/// After training on a corpus, a character that does not occur in the corpus
/// encodes to the unknown id 0.
pub proof fn law_trained_unknown_char(lines: Seq<Seq<char>>, num_merges: nat, text: Seq<char>, i: int)
    requires
        0 <= i < text.len(),
        !is_ws(text[i]),
        !corpus_words(lines).flatten_alt().contains(text[i]),
    ensures
        ({
            let words = corpus_words(lines);
            let merges = learned_merges(word_pieces(words), num_merges);
            let vocab = trained_vocab(alphabet(words), merges);
            encode_text(vocab, merges, 0, text).contains(0)
        }),
{
    let words = corpus_words(lines);
    let chars = words.flatten_alt();
    let wp = word_pieces(words);
    let merges = learned_merges(wp, num_merges);
    let alpha = alphabet(words);
    let vocab = trained_vocab(alpha, merges);
    let c = text[i];
    let q = seq![c];
    assert(pieces_from(wp, chars)) by {
        assert forall|a: int, b: int| 0 <= a < wp.len() && 0 <= b < wp[a].len() implies piece_from(
            #[trigger] wp[a][b],
            chars,
        ) by {
            let w = words[a];
            assert(wp[a] == initial_pieces(w));
            if b < w.len() {
                assert(wp[a][b] == seq![w[b]]);
                lemma_flatten_alt_has(words, a, b);
            } else {
                assert(wp[a][b] == eow());
            }
        }
    }
    lemma_learned_pieces_from(wp, num_merges, chars);
    assert forall|k: int| 0 <= k < merges.len() implies (#[trigger] merges[k]).0 != q
        && merges[k].1 != q by {
        assert(piece_from(learned_merges(wp, num_merges)[k].0, chars));
        assert(piece_from(merges[k].0, chars) && piece_from(merges[k].1, chars));
        if merges[k].0 == q {
            assert(merges[k].0[0] == c);
        }
        if merges[k].1 == q {
            assert(merges[k].1[0] == c);
        }
    }
    lemma_alphabet_lists(words);
    let singles = alpha.map_values(|x: char| seq![x]);
    let concats = merges.map_values(|m: (Seq<char>, Seq<char>)| m.0 + m.1);
    assert(vocab == seq![unk(), eow()] + singles + concats);
    assert(!vocab.contains(q)) by {
        if vocab.contains(q) {
            let k = choose|k: int| 0 <= k < vocab.len() && vocab[k] == q;
            if k == 0 {
                assert(vocab[0] == unk());
                assert(unk().len() == 5);
            } else if k == 1 {
                assert(vocab[1] == eow());
                assert(eow().len() == 4);
            } else if k < 2 + alpha.len() {
                assert(vocab[k] == singles[k - 2]);
                assert(singles[k - 2] == seq![alpha[k - 2]]);
                assert(seq![alpha[k - 2]][0] == c);
                assert(alpha.contains(c));
            } else {
                let m = merges[k - 2 - alpha.len()];
                assert(vocab[k] == concats[k - 2 - alpha.len()]);
                assert(piece_from(m.0, chars) && piece_from(m.1, chars));
                assert((m.0 + m.1).len() >= 2);
            }
        }
    }
    law_unknown_char_encodes_to_unk(vocab, merges, 0, text, i);
}


/// Training learns at most the number of merges asked for.
pub proof fn law_merges_at_most(ws: Seq<Seq<Seq<char>>>, n: nat)
    ensures
        learned_merges(ws, n).len() <= n,
    decreases n,
{
    if n > 0 && has_pair(ws) {
        let p = best_pair(ws);
        law_merges_at_most(merge_all(ws, p.0, p.1), (n - 1) as nat);
    }
}

/// The trained vocabulary holds `<unk>`, `</w>`, one entry per alphabet
/// character and one per learned merge, with `<unk>` at id 0.
pub proof fn law_trained_vocab_layout(alpha: Seq<char>, merges: Seq<(Seq<char>, Seq<char>)>)
    ensures
        trained_vocab(alpha, merges).len() == 2 + alpha.len() + merges.len(),
        trained_vocab(alpha, merges)[0] == unk(),
        trained_vocab(alpha, merges)[1] == eow(),
{
}

/// Training is deterministic: two tokenizers that training left in the state
/// it owes for the same corpus lines and number of merges (whatever each
/// held before) hold the same vocabulary, merge table and unknown id.
pub proof fn law_training_is_deterministic(
    lines: Seq<Seq<char>>,
    num_merges: nat,
    t1: BpeTokenizer,
    t2: BpeTokenizer,
)
    requires
        ({
            let words = corpus_words(lines);
            let merges = learned_merges(word_pieces(words), num_merges);
            &&& t1.merge_seq() == merges
            &&& t1.vocab_seq() == trained_vocab(alphabet(words), merges)
            &&& t1.unk_index() == 0
            &&& t2.merge_seq() == merges
            &&& t2.vocab_seq() == trained_vocab(alphabet(words), merges)
            &&& t2.unk_index() == 0
        }),
    ensures
        t1.vocab_seq() == t2.vocab_seq(),
        t1.merge_seq() == t2.merge_seq(),
        t1.unk_index() == t2.unk_index(),
        forall|text: Seq<char>|
            #[trigger] encode_text(t1.vocab_seq(), t1.merge_seq(), t1.unk_index(), text)
                == encode_text(t2.vocab_seq(), t2.merge_seq(), t2.unk_index(), text),
{
}

/// A tokenizer rebuilt from the listings of another's vocabulary and merge
/// table (what `vocab_strings`, `merge_strings` and `from_parts` hand over
/// when a tokenizer is persisted and loaded again) encodes and decodes every
/// input exactly as the other does.
pub proof fn law_rebuilt_tokenizer_agrees(
    t: BpeTokenizer,
    vocab: Seq<String>,
    merges: Seq<(String, String)>,
    r: BpeTokenizer,
)
    requires
        t.unk_index() == 0,
        vocab.map_values(|s: String| s@) == t.vocab_seq(),
        merges.map_values(|m: (String, String)| (m.0@, m.1@)) == t.merge_seq(),
        r.vocab_seq() == vocab.map_values(|s: String| s@),
        r.merge_seq() == merges.map_values(|m: (String, String)| (m.0@, m.1@)),
        r.unk_index() == 0,
    ensures
        forall|text: Seq<char>|
            #[trigger] encode_text(r.vocab_seq(), r.merge_seq(), r.unk_index(), text)
                == encode_text(t.vocab_seq(), t.merge_seq(), t.unk_index(), text),
        forall|ids: Seq<usize>|
            #[trigger] decode_text(r.vocab_seq(), ids) == decode_text(t.vocab_seq(), ids),
        forall|ids: Seq<usize>|
            #[trigger] ids_in_range(r.vocab_seq().len(), ids) == ids_in_range(
                t.vocab_seq().len(),
                ids,
            ),
{
}

// ---------------------------------------------------------------------------
// Words encode independently
// ---------------------------------------------------------------------------
proof fn lemma_words_from_split(s: Seq<char>, c: char, t: Seq<char>, cur: Seq<char>)
    requires
        is_ws(c),
    ensures
        words_from(s + seq![c] + t, cur) == words_from(s, cur) + words_from(t, seq![]),
    decreases s.len(),
{
    let head: Seq<Seq<char>> = if cur.len() > 0 {
        seq![cur]
    } else {
        seq![]
    };
    let x = s + seq![c] + t;
    if s.len() == 0 {
        assert(x[0] == c);
        assert(x.drop_first() =~= t);
        assert(words_from(x, cur) == head + words_from(t, seq![]));
        assert(words_from(s, cur) == head);
    } else {
        assert(x[0] == s[0]);
        assert(x.drop_first() =~= s.drop_first() + seq![c] + t);
        if is_ws(s[0]) {
            lemma_words_from_split(s.drop_first(), c, t, seq![]);
            assert(words_from(x, cur) == head + words_from(x.drop_first(), seq![]));
            assert(words_from(s, cur) == head + words_from(s.drop_first(), seq![]));
            assert(head + (words_from(s.drop_first(), seq![]) + words_from(t, seq![])) =~= (head
                + words_from(s.drop_first(), seq![])) + words_from(t, seq![]));
        } else {
            lemma_words_from_split(s.drop_first(), c, t, cur.push(s[0]));
        }
    }
}

proof fn lemma_encode_words_concat(
    vocab: Seq<Seq<char>>,
    merges: Seq<(Seq<char>, Seq<char>)>,
    unk_id: usize,
    x: Seq<Seq<char>>,
    y: Seq<Seq<char>>,
)
    ensures
        encode_words(vocab, merges, unk_id, x + y) == encode_words(vocab, merges, unk_id, x)
            + encode_words(vocab, merges, unk_id, y),
    decreases y.len(),
{
    if y.len() == 0 {
        assert(x + y =~= x);
        assert(encode_words(vocab, merges, unk_id, y) =~= Seq::<usize>::empty());
        assert(encode_words(vocab, merges, unk_id, x) + encode_words(vocab, merges, unk_id, y)
            =~= encode_words(vocab, merges, unk_id, x));
    } else {
        assert((x + y).drop_last() =~= x + y.drop_last());
        assert((x + y).last() == y.last());
        lemma_encode_words_concat(vocab, merges, unk_id, x, y.drop_last());
        let ex = encode_words(vocab, merges, unk_id, x);
        let ey = encode_words(vocab, merges, unk_id, y.drop_last());
        let w = encode_word(vocab, merges, unk_id, y.last());
        assert((ex + ey) + w =~= ex + (ey + w));
    }
}

/// Words are encoded independently: the encoding of two texts joined by a
/// whitespace character is the encoding of the first followed by the
/// encoding of the second.
pub proof fn law_words_encode_independently(
    vocab: Seq<Seq<char>>,
    merges: Seq<(Seq<char>, Seq<char>)>,
    unk_id: usize,
    s: Seq<char>,
    c: char,
    t: Seq<char>,
)
    requires
        is_ws(c),
    ensures
        encode_text(vocab, merges, unk_id, s + seq![c] + t) == encode_text(vocab, merges, unk_id, s)
            + encode_text(vocab, merges, unk_id, t),
{
    lemma_words_from_split(s, c, t, seq![]);
    lemma_encode_words_concat(vocab, merges, unk_id, split_ws(s), split_ws(t));
}

// ---------------------------------------------------------------------------
// Unknown ids are dropped
// ---------------------------------------------------------------------------
proof fn lemma_joined_filter(vocab: Seq<Seq<char>>, ids: Seq<usize>, u: usize)
    requires
        u < vocab.len(),
        vocab[u as int] == unk(),
    ensures
        joined_pieces(vocab, ids) == joined_pieces(vocab, ids.filter(|i: usize| i != u)),
    decreases ids.len(),
{
    reveal(Seq::filter);
    if ids.len() > 0 {
        let f = ids.drop_last().filter(|i: usize| i != u);
        lemma_joined_filter(vocab, ids.drop_last(), u);
        if ids.last() != u {
            assert(ids.filter(|i: usize| i != u) == f.push(ids.last()));
            assert(f.push(ids.last()).drop_last() =~= f);
        } else {
            assert(ids.filter(|i: usize| i != u) == f);
        }
    }
}

/// Ids of the unknown token are dropped, never printed: where the entry at
/// `unk_id` is `<unk>`, decoding gives the same text with those ids removed.
pub proof fn law_unknown_ids_are_dropped(vocab: Seq<Seq<char>>, ids: Seq<usize>, unk_id: usize)
    requires
        unk_id < vocab.len(),
        vocab[unk_id as int] == unk(),
    ensures
        decode_text(vocab, ids) == decode_text(vocab, ids.filter(|i: usize| i != unk_id)),
{
    lemma_joined_filter(vocab, ids, unk_id);
}

// ---------------------------------------------------------------------------
// Texts free of markers
// ---------------------------------------------------------------------------
/// Where `x` stands in `y` from position `a`, what `x` holds, `y` holds.
proof fn lemma_holds_within(x: Seq<char>, y: Seq<char>, a: int, p: Seq<char>)
    requires
        holds(x, p),
        0 <= a,
        a + x.len() <= y.len(),
        y.subrange(a, a + x.len()) == x,
    ensures
        holds(y, p),
{
    let i = choose|i: int| #[trigger] holds_at(x, p, i);
    assert(y.subrange(a + i, a + i + p.len()) =~= x.subrange(i, i + p.len()));
    assert(holds_at(y, p, a + i));
}

/// What a word of `words_from(s, cur)` holds, `cur + s` holds.
proof fn lemma_word_holds(s: Seq<char>, cur: Seq<char>, p: Seq<char>, k: int)
    requires
        0 <= k < words_from(s, cur).len(),
        holds(words_from(s, cur)[k], p),
    ensures
        holds(cur + s, p),
    decreases s.len(),
{
    let head: Seq<Seq<char>> = if cur.len() > 0 {
        seq![cur]
    } else {
        seq![]
    };
    let y = cur + s;
    if s.len() == 0 {
        assert(words_from(s, cur) == head);
        assert(words_from(s, cur)[k] == cur);
        assert(y.subrange(0, cur.len() as int) =~= cur);
        lemma_holds_within(cur, y, 0, p);
    } else if is_ws(s[0]) {
        let rest = words_from(s.drop_first(), seq![]);
        assert(words_from(s, cur) == head + rest);
        if k < head.len() {
            assert(words_from(s, cur)[k] == cur);
            assert(y.subrange(0, cur.len() as int) =~= cur);
            lemma_holds_within(cur, y, 0, p);
        } else {
            assert(words_from(s, cur)[k] == rest[k - head.len()]);
            lemma_word_holds(s.drop_first(), seq![], p, k - head.len());
            let t = s.drop_first();
            assert(Seq::<char>::empty() + t =~= t);
            let a: int = cur.len() as int + 1;
            assert(y.subrange(a, a + t.len()) =~= t);
            lemma_holds_within(t, y, a, p);
        }
    } else {
        lemma_word_holds(s.drop_first(), cur.push(s[0]), p, k);
        assert(cur.push(s[0]) + s.drop_first() =~= y);
    }
}

/// The last of the pieces `p` ends with `</w>`.
pub open spec fn ends_in_eow(p: Seq<Seq<char>>) -> bool {
    &&& p.len() >= 1
    &&& p.last().len() >= 4
    &&& p.last().skip(p.last().len() - 4) == eow()
}

proof fn lemma_merge_ends_in_eow(p: Seq<Seq<char>>, a: Seq<char>, b: Seq<char>)
    requires
        ends_in_eow(p),
    ensures
        ends_in_eow(merge_pieces(p, a, b)),
    decreases p.len(),
{
    if p.len() >= 2 {
        if p[0] == a && p[1] == b {
            let rest = p.skip(2);
            let r = merge_pieces(rest, a, b);
            assert(merge_pieces(p, a, b) == seq![a + b] + r);
            if p.len() == 2 {
                assert(rest.len() == 0);
                assert(r == rest);
                assert(b == p.last());
                let m = a + b;
                assert(m.skip(m.len() - 4) =~= b.skip(b.len() - 4));
                assert(seq![a + b] + r =~= seq![m]);
            } else {
                assert(rest.last() == p.last());
                lemma_merge_ends_in_eow(rest, a, b);
                assert((seq![a + b] + r).last() == r.last());
            }
        } else {
            let rest = p.drop_first();
            let r = merge_pieces(rest, a, b);
            assert(merge_pieces(p, a, b) == seq![p[0]] + r);
            assert(rest.last() == p.last());
            lemma_merge_ends_in_eow(rest, a, b);
            assert((seq![p[0]] + r).last() == r.last());
        }
    }
}

proof fn lemma_apply_shape(p: Seq<Seq<char>>, merges: Seq<(Seq<char>, Seq<char>)>)
    requires
        ends_in_eow(p),
    ensures
        ends_in_eow(apply_merges(p, merges)),
        apply_merges(p, merges).flatten() == p.flatten(),
    decreases merges.len(),
{
    if merges.len() > 0 {
        lemma_merge_ends_in_eow(p, merges[0].0, merges[0].1);
        lemma_merge_props(p, merges[0].0, merges[0].1);
        lemma_apply_shape(merge_pieces(p, merges[0].0, merges[0].1), merges.drop_first());
    }
}

/// A word that holds no `<unk>` is never cut into a `<unk>` piece.
proof fn lemma_pieces_avoid_unk(merges: Seq<(Seq<char>, Seq<char>)>, w: Seq<char>)
    requires
        !holds(w, unk()),
    ensures
        pieces_avoid_unk(merges, w),
{
    let q = initial_pieces(w);
    let singles = w.map_values(|c: char| seq![c]);
    assert(q == singles.push(eow()));
    singles.lemma_flatten_push(eow());
    lemma_flatten_singles(w);
    assert(q.last() == eow());
    assert(eow().skip(0) =~= eow());
    lemma_apply_shape(q, merges);
    let p = apply_merges(q, merges);
    let f = p.flatten();
    assert(f == w + eow());
    if p.contains(unk()) {
        let i = choose|i: int| 0 <= i < p.len() && p[i] == unk();
        if i == p.len() - 1 {
            assert(p.last().skip(1)[0] == 'u');
            assert(eow()[0] == '<');
        } else {
            let pre = p.take(i);
            let post = p.skip(i + 1);
            assert(p =~= pre + (seq![p[i]] + post));
            lemma_flatten_concat(pre, seq![p[i]] + post);
            lemma_flatten_concat(seq![p[i]], post);
            lemma_flatten_single(p[i]);
            assert(post =~= post.drop_last().push(p.last()));
            post.drop_last().lemma_flatten_push(p.last());
            let o: int = pre.flatten().len() as int;
            assert(f == pre.flatten() + (unk() + post.flatten()));
            assert(post.flatten().len() >= 4);
            assert(o + 5 <= w.len());
            assert(w.subrange(o, o + 5) =~= f.subrange(o, o + 5));
            assert(f.subrange(o, o + 5) =~= unk());
            assert(holds_at(w, unk(), o));
        }
    }
}

/// After training on a corpus, decoding the encoding of a text gives back
/// its words joined by single spaces, provided its characters all occur in
/// the corpus and it holds neither `</w>` nor `<unk>`.
pub proof fn law_trained_roundtrip_plain_text(lines: Seq<Seq<char>>, num_merges: nat, text: Seq<char>)
    requires
        trained_vocab(
            alphabet(corpus_words(lines)),
            learned_merges(word_pieces(corpus_words(lines)), num_merges),
        ).len() <= usize::MAX,
        !holds(text, eow()),
        !holds(text, unk()),
        forall|i: int|
            0 <= i < text.len() && !is_ws(text[i]) ==> corpus_words(
                lines,
            ).flatten_alt().contains(#[trigger] text[i]),
    ensures
        ({
            let words = corpus_words(lines);
            let merges = learned_merges(word_pieces(words), num_merges);
            let vocab = trained_vocab(alphabet(words), merges);
            &&& ids_in_range(vocab.len(), encode_text(vocab, merges, 0, text))
            &&& decode_text(vocab, encode_text(vocab, merges, 0, text)) == join_words(
                split_ws(text),
            )
        }),
{
    let merges = learned_merges(word_pieces(corpus_words(lines)), num_merges);
    let ws = split_ws(text);
    assert(Seq::<char>::empty() + text =~= text);
    assert forall|k: int| 0 <= k < ws.len() implies !holds_eow(#[trigger] ws[k])
        && pieces_avoid_unk(merges, ws[k]) by {
        if holds(ws[k], eow()) {
            lemma_word_holds(text, seq![], eow(), k);
        }
        if holds(ws[k], unk()) {
            lemma_word_holds(text, seq![], unk(), k);
        }
        lemma_pieces_avoid_unk(merges, ws[k]);
    }
    law_trained_roundtrip(lines, num_merges, text);
}

// ---------------------------------------------------------------------------
// Vocabulary size after training
// ---------------------------------------------------------------------------
proof fn lemma_corpus_words_nonempty(lines: Seq<Seq<char>>)
    ensures
        forall|k: int|
            0 <= k < corpus_words(lines).len() ==> (#[trigger] corpus_words(lines)[k]).len() > 0,
    decreases lines.len(),
{
    if lines.len() > 0 {
        lemma_corpus_words_nonempty(lines.drop_last());
        lemma_words_from_props(lines.last(), seq![]);
        let a = corpus_words(lines.drop_last());
        let b = split_ws(lines.last());
        assert(corpus_words(lines) == a + b);
        assert forall|k: int| 0 <= k < (a + b).len() implies (#[trigger] (a + b)[k]).len() > 0 by {
            if k >= a.len() {
                assert((a + b)[k] == b[k - a.len()]);
            } else {
                assert((a + b)[k] == a[k]);
            }
        }
    }
}

/// A corpus with at least one word trains a vocabulary of `<unk>`, `</w>`,
/// at least one character and one entry per learned merge.
pub proof fn law_trained_vocab_size(lines: Seq<Seq<char>>, num_merges: nat)
    requires
        corpus_words(lines).len() > 0,
    ensures
        ({
            let words = corpus_words(lines);
            let merges = learned_merges(word_pieces(words), num_merges);
            &&& alphabet(words).len() >= 1
            &&& trained_vocab(alphabet(words), merges).len() >= 3 + merges.len()
            &&& trained_vocab(alphabet(words), merges)[0] == unk()
        }),
{
    let words = corpus_words(lines);
    lemma_corpus_words_nonempty(lines);
    lemma_alphabet_lists(words);
    assert(words[0].len() > 0);
    lemma_flatten_alt_has(words, 0, 0);
    let c = words[0][0];
    assert(alphabet(words).contains(c));
    law_trained_vocab_layout(alphabet(words), learned_merges(word_pieces(words), num_merges));
}

// ---------------------------------------------------------------------------
// Pair counts
// ---------------------------------------------------------------------------
proof fn lemma_count_before_front(p: Seq<Seq<char>>, a: Seq<char>, b: Seq<char>, k: int)
    requires
        1 <= k <= p.len(),
    ensures
        count_before(p, a, b, k) == count_before(p.drop_first(), a, b, k - 1) + (if p[0] == a
            && p[1] == b && p.len() >= 2 {
            1nat
        } else {
            0nat
        }),
    decreases k,
{
    if k > 1 {
        lemma_count_before_front(p, a, b, k - 1);
        assert(occurs_at(p, k - 1, a, b) == occurs_at(p.drop_first(), k - 2, a, b));
    } else {
        assert(count_before(p.drop_first(), a, b, 0) == 0);
        assert(count_before(p, a, b, 0) == 0);
    }
}

/// A pair's count is the number of places where it stands adjacently, over
/// all words, overlaps included: no words count nothing, a word adds its
/// own count to the others', a word of fewer than two pieces counts
/// nothing, and a longer word counts one for its first two pieces when they
/// are the pair, plus the count of the rest of the word.
pub proof fn law_pair_count_counts_occurrences(
    ws: Seq<Seq<Seq<char>>>,
    p: Seq<Seq<char>>,
    a: Seq<char>,
    b: Seq<char>,
)
    ensures
        pair_count(Seq::<Seq<Seq<char>>>::empty(), a, b) == 0,
        pair_count(ws.push(p), a, b) == pair_count(ws, a, b) + pair_count(seq![p], a, b),
        p.len() < 2 ==> pair_count(seq![p], a, b) == 0,
        p.len() >= 2 ==> pair_count(seq![p], a, b) == pair_count(seq![p.drop_first()], a, b) + (
        if p[0] == a && p[1] == b {
            1nat
        } else {
            0nat
        }),
{
    assert(ws.push(p).drop_last() =~= ws);
    assert(ws.push(p).last() == p);
    assert(seq![p].drop_last() =~= Seq::<Seq<Seq<char>>>::empty());
    assert(seq![p].last() == p);
    assert(pair_count(Seq::<Seq<Seq<char>>>::empty(), a, b) == 0);
    assert(pair_count(seq![p], a, b) == count_in_word(p, a, b));
    if p.len() < 2 {
        if p.len() == 1 {
            assert(!occurs_at(p, 0, a, b));
            assert(count_before(p, a, b, 0) == 0);
        }
    } else {
        let q = p.drop_first();
        assert(seq![q].drop_last() =~= Seq::<Seq<Seq<char>>>::empty());
        assert(seq![q].last() == q);
        assert(pair_count(seq![q], a, b) == count_in_word(q, a, b));
        lemma_count_before_front(p, a, b, p.len() as int);
    }
}

// ---------------------------------------------------------------------------
// Replaying merges
// ---------------------------------------------------------------------------
/// Replaying two merge tables one after the other is replaying them joined:
/// every merge is tried in order, whether or not an earlier one changed
/// anything.
pub proof fn law_apply_merges_composes(
    p: Seq<Seq<char>>,
    m1: Seq<(Seq<char>, Seq<char>)>,
    m2: Seq<(Seq<char>, Seq<char>)>,
)
    ensures
        apply_merges(p, m1 + m2) == apply_merges(apply_merges(p, m1), m2),
    decreases m1.len(),
{
    if m1.len() == 0 {
        assert(m1 + m2 =~= m2);
    } else {
        assert((m1 + m2)[0] == m1[0]);
        assert((m1 + m2).drop_first() =~= m1.drop_first() + m2);
        law_apply_merges_composes(merge_pieces(p, m1[0].0, m1[0].1), m1.drop_first(), m2);
    }
}

/// The pieces of every word after at most `n` training rounds on `ws`.
pub open spec fn trained_pieces(ws: Seq<Seq<Seq<char>>>, n: nat) -> Seq<Seq<Seq<char>>>
    decreases n,
{
    if n == 0 || !has_pair(ws) {
        ws
    } else {
        let p = best_pair(ws);
        trained_pieces(merge_all(ws, p.0, p.1), (n - 1) as nat)
    }
}

/// Replaying the learned merges on a word of the training corpus gives the
/// pieces that training left it as.
pub proof fn law_replay_matches_training(ws: Seq<Seq<Seq<char>>>, n: nat, i: int)
    requires
        0 <= i < ws.len(),
    ensures
        trained_pieces(ws, n).len() == ws.len(),
        apply_merges(ws[i], learned_merges(ws, n)) == trained_pieces(ws, n)[i],
    decreases n,
{
    if n == 0 || !has_pair(ws) {
        assert(learned_merges(ws, n) =~= Seq::<(Seq<char>, Seq<char>)>::empty());
    } else {
        let p = best_pair(ws);
        let rest = learned_merges(merge_all(ws, p.0, p.1), (n - 1) as nat);
        let m = learned_merges(ws, n);
        assert(m == seq![p] + rest);
        assert(m[0] == p);
        assert(m.drop_first() =~= rest);
        assert(merge_all(ws, p.0, p.1)[i] == merge_pieces(ws[i], p.0, p.1));
        law_replay_matches_training(merge_all(ws, p.0, p.1), (n - 1) as nat, i);
    }
}

} // verus!
