//! The mathematical model of byte-pair encoding: pieces, merges, pair
//! counts, the deterministic choice of the next merge, encoding and
//! decoding, all over `Seq<char>`.

use vstd::prelude::*;
use crate::text::{decimal, is_ws, split_ws, trim, words_from};

verus! {

/// End-of-word marker `</w>` suffixed to every word.
pub open spec fn eow() -> Seq<char> {
    seq!['<', '/', 'w', '>']
}

/// Unknown token `<unk>`.
pub open spec fn unk() -> Seq<char> {
    seq!['<', 'u', 'n', 'k', '>']
}

/// A word as pieces before any merge: one piece per character, then `</w>`.
pub open spec fn initial_pieces(w: Seq<char>) -> Seq<Seq<char>> {
    w.map_values(|c: char| seq![c]).push(eow())
}

/// Rewrite every occurrence of the adjacent pair `(a, b)` into the single
/// piece `a + b`, scanning left to right without overlaps.
pub open spec fn merge_pieces(p: Seq<Seq<char>>, a: Seq<char>, b: Seq<char>) -> Seq<Seq<char>>
    decreases p.len(),
{
    if p.len() < 2 {
        p
    } else if p[0] == a && p[1] == b {
        seq![a + b] + merge_pieces(p.skip(2), a, b)
    } else {
        seq![p[0]] + merge_pieces(p.drop_first(), a, b)
    }
}

/// Replay the merges in learned order.
pub open spec fn apply_merges(p: Seq<Seq<char>>, merges: Seq<(Seq<char>, Seq<char>)>) -> Seq<
    Seq<char>,
>
    decreases merges.len(),
{
    if merges.len() == 0 {
        p
    } else {
        apply_merges(merge_pieces(p, merges[0].0, merges[0].1), merges.drop_first())
    }
}

/// The last index at which `p` occurs in `vocab`, or -1.
pub open spec fn last_index_of(vocab: Seq<Seq<char>>, p: Seq<char>) -> int
    decreases vocab.len(),
{
    if vocab.len() == 0 {
        -1
    } else if vocab.last() == p {
        vocab.len() - 1
    } else {
        last_index_of(vocab.drop_last(), p)
    }
}

/// The id of piece `p`: its last index in the vocabulary, else `unk_id`.
pub open spec fn token_id(vocab: Seq<Seq<char>>, p: Seq<char>, unk_id: usize) -> usize {
    let i = last_index_of(vocab, p);
    if i >= 0 {
        i as usize
    } else {
        unk_id
    }
}

/// The ids of one word.
pub open spec fn encode_word(
    vocab: Seq<Seq<char>>,
    merges: Seq<(Seq<char>, Seq<char>)>,
    unk_id: usize,
    w: Seq<char>,
) -> Seq<usize> {
    apply_merges(initial_pieces(w), merges).map_values(|p: Seq<char>| token_id(vocab, p, unk_id))
}

/// The ids of a sequence of words, word after word.
pub open spec fn encode_words(
    vocab: Seq<Seq<char>>,
    merges: Seq<(Seq<char>, Seq<char>)>,
    unk_id: usize,
    ws: Seq<Seq<char>>,
) -> Seq<usize>
    decreases ws.len(),
{
    if ws.len() == 0 {
        seq![]
    } else {
        encode_words(vocab, merges, unk_id, ws.drop_last()) + encode_word(
            vocab,
            merges,
            unk_id,
            ws.last(),
        )
    }
}

/// The ids of a text: the ids of its whitespace-separated words.
pub open spec fn encode_text(
    vocab: Seq<Seq<char>>,
    merges: Seq<(Seq<char>, Seq<char>)>,
    unk_id: usize,
    text: Seq<char>,
) -> Seq<usize> {
    encode_words(vocab, merges, unk_id, split_ws(text))
}

/// The pieces of `ids` concatenated, `<unk>` pieces left out.
pub open spec fn joined_pieces(vocab: Seq<Seq<char>>, ids: Seq<usize>) -> Seq<char>
    decreases ids.len(),
{
    if ids.len() == 0 {
        seq![]
    } else {
        let p = vocab[ids.last() as int];
        joined_pieces(vocab, ids.drop_last()) + (if p == unk() {
            seq![]
        } else {
            p
        })
    }
}

/// Every `</w>` replaced by a space, matches taken left to right
/// (what splitting on `</w>` and joining with `" "` gives).
pub open spec fn replace_eow(s: Seq<char>) -> Seq<char>
    decreases s.len(),
{
    if s.len() == 0 {
        s
    } else if s.len() >= 4 && s.take(4) == eow() {
        seq![' '] + replace_eow(s.skip(4))
    } else {
        seq![s[0]] + replace_eow(s.drop_first())
    }
}

/// The text that `ids` decode to.
pub open spec fn decode_text(vocab: Seq<Seq<char>>, ids: Seq<usize>) -> Seq<char> {
    trim(replace_eow(joined_pieces(vocab, ids)))
}

/// Whether every id names an entry of the vocabulary.
pub open spec fn ids_in_range(vocab_len: nat, ids: Seq<usize>) -> bool {
    forall|i: int| 0 <= i < ids.len() ==> ids[i] < vocab_len
}

/// The message of the error for an out-of-range id.
pub open spec fn bad_id_message(id: usize, vocab_len: usize) -> Seq<char> {
    "token id "@ + decimal(id as nat) + " out of vocab "@ + decimal(vocab_len as nat)
}

// ---------------------------------------------------------------------------
// Training
// ---------------------------------------------------------------------------
/// The characters of every line.
pub open spec fn line_views(corpus: Seq<&str>) -> Seq<Seq<char>> {
    corpus.map_values(|s: &str| s@)
}

/// All words of a corpus, line after line.
pub open spec fn corpus_words(lines: Seq<Seq<char>>) -> Seq<Seq<char>>
    decreases lines.len(),
{
    if lines.len() == 0 {
        seq![]
    } else {
        corpus_words(lines.drop_last()) + split_ws(lines.last())
    }
}

/// Total number of characters over all lines.
pub open spec fn total_chars(lines: Seq<Seq<char>>) -> nat
    decreases lines.len(),
{
    if lines.len() == 0 {
        0
    } else {
        total_chars(lines.drop_last()) + lines.last().len()
    }
}

/// Every word as initial pieces.
pub open spec fn word_pieces(words: Seq<Seq<char>>) -> Seq<Seq<Seq<char>>> {
    words.map_values(|w: Seq<char>| initial_pieces(w))
}

/// Total number of pieces over all words.
pub open spec fn total_pieces(ws: Seq<Seq<Seq<char>>>) -> nat
    decreases ws.len(),
{
    if ws.len() == 0 {
        0
    } else {
        total_pieces(ws.drop_last()) + ws.last().len()
    }
}

/// Whether `(a, b)` stands at positions `j, j + 1` of `p`.
pub open spec fn occurs_at(p: Seq<Seq<char>>, j: int, a: Seq<char>, b: Seq<char>) -> bool {
    0 <= j && j + 1 < p.len() && p[j] == a && p[j + 1] == b
}

/// Occurrences of `(a, b)` starting before position `k` of `p`.
pub open spec fn count_before(p: Seq<Seq<char>>, a: Seq<char>, b: Seq<char>, k: int) -> nat
    decreases k,
{
    if k <= 0 {
        0
    } else {
        count_before(p, a, b, k - 1) + (if occurs_at(p, k - 1, a, b) {
            1nat
        } else {
            0nat
        })
    }
}

/// How often `(a, b)` occurs adjacently in `p` (overlaps counted).
pub open spec fn count_in_word(p: Seq<Seq<char>>, a: Seq<char>, b: Seq<char>) -> nat {
    count_before(p, a, b, p.len() as int)
}

/// How often `(a, b)` occurs adjacently over all words.
pub open spec fn pair_count(ws: Seq<Seq<Seq<char>>>, a: Seq<char>, b: Seq<char>) -> nat
    decreases ws.len(),
{
    if ws.len() == 0 {
        0
    } else {
        pair_count(ws.drop_last(), a, b) + count_in_word(ws.last(), a, b)
    }
}

/// Whether some word has two or more pieces, so that a pair can merge.
pub open spec fn has_pair(ws: Seq<Seq<Seq<char>>>) -> bool {
    exists|i: int| 0 <= i < ws.len() && #[trigger] ws[i].len() >= 2
}

/// Lexicographic order of strings by code point (the order of `String`).
pub open spec fn seq_lt(a: Seq<char>, b: Seq<char>) -> bool
    decreases a.len(),
{
    if a.len() == 0 {
        b.len() > 0
    } else if b.len() == 0 {
        false
    } else if a[0] != b[0] {
        (a[0] as int) < (b[0] as int)
    } else {
        seq_lt(a.drop_first(), b.drop_first())
    }
}

/// Lexicographic order of pairs of strings.
pub open spec fn pair_lt(a: Seq<char>, b: Seq<char>, c: Seq<char>, d: Seq<char>) -> bool {
    seq_lt(a, c) || (a == c && seq_lt(b, d))
}

/// `(a, b)` is preferred to `(c, d)`: more frequent, or as frequent and
/// lexicographically smaller.
pub open spec fn outranks(
    ws: Seq<Seq<Seq<char>>>,
    a: Seq<char>,
    b: Seq<char>,
    c: Seq<char>,
    d: Seq<char>,
) -> bool {
    pair_count(ws, a, b) > pair_count(ws, c, d) || (pair_count(ws, a, b) == pair_count(ws, c, d)
        && pair_lt(a, b, c, d))
}

/// `(a, b)` occurs and no occurring pair outranks it.
pub open spec fn is_best_pair(ws: Seq<Seq<Seq<char>>>, a: Seq<char>, b: Seq<char>) -> bool {
    &&& pair_count(ws, a, b) > 0
    &&& forall|c: Seq<char>, d: Seq<char>|
        #![trigger pair_count(ws, c, d)]
        pair_count(ws, c, d) > 0 ==> !outranks(ws, c, d, a, b)
}

/// The pair that the next training round merges.
pub open spec fn best_pair(ws: Seq<Seq<Seq<char>>>) -> (Seq<char>, Seq<char>) {
    choose|p: (Seq<char>, Seq<char>)| is_best_pair(ws, p.0, p.1)
}

/// Every word with `(a, b)` merged.
pub open spec fn merge_all(ws: Seq<Seq<Seq<char>>>, a: Seq<char>, b: Seq<char>) -> Seq<
    Seq<Seq<char>>,
> {
    ws.map_values(|p: Seq<Seq<char>>| merge_pieces(p, a, b))
}

/// The merges that at most `n` training rounds learn from `ws`: each round
/// merges the best pair, and training stops early when no word has two
/// pieces left.
pub open spec fn learned_merges(ws: Seq<Seq<Seq<char>>>, n: nat) -> Seq<(Seq<char>, Seq<char>)>
    decreases n,
{
    if n == 0 || !has_pair(ws) {
        seq![]
    } else {
        let p = best_pair(ws);
        seq![p] + learned_merges(merge_all(ws, p.0, p.1), (n - 1) as nat)
    }
}

/// Strictly increasing by code point.
pub open spec fn strictly_sorted(s: Seq<char>) -> bool {
    forall|i: int, j: int| 0 <= i < j < s.len() ==> (s[i] as int) < (s[j] as int)
}

/// Every character of `words`, once each, in increasing order.
pub open spec fn alphabet(words: Seq<Seq<char>>) -> Seq<char> {
    choose|s: Seq<char>|
        strictly_sorted(s) && forall|c: char| #[trigger]
            s.contains(c) <==> words.flatten_alt().contains(c)
}

/// The vocabulary after training: `<unk>`, `</w>`, the alphabet as
/// one-character pieces, then each learned merge's concatenation.
pub open spec fn trained_vocab(
    alpha: Seq<char>,
    merges: Seq<(Seq<char>, Seq<char>)>,
) -> Seq<Seq<char>> {
    seq![unk(), eow()] + alpha.map_values(|c: char| seq![c]) + merges.map_values(
        |m: (Seq<char>, Seq<char>)| m.0 + m.1,
    )
}

// ---------------------------------------------------------------------------
// Lemmas
// ---------------------------------------------------------------------------
pub proof fn lemma_seq_lt_irreflexive(a: Seq<char>)
    ensures
        !seq_lt(a, a),
    decreases a.len(),
{
    if a.len() > 0 {
        lemma_seq_lt_irreflexive(a.drop_first());
    }
}

pub proof fn lemma_seq_lt_transitive(a: Seq<char>, b: Seq<char>, c: Seq<char>)
    requires
        seq_lt(a, b),
        seq_lt(b, c),
    ensures
        seq_lt(a, c),
    decreases a.len(),
{
    if a.len() > 0 && b.len() > 0 && c.len() > 0 {
        if a[0] == b[0] && b[0] == c[0] {
            lemma_seq_lt_transitive(a.drop_first(), b.drop_first(), c.drop_first());
        }
    }
}

pub proof fn lemma_seq_lt_total(a: Seq<char>, b: Seq<char>)
    ensures
        seq_lt(a, b) || seq_lt(b, a) || a == b,
    decreases a.len(),
{
    if a.len() == 0 {
        if b.len() == 0 {
            assert(a =~= b);
        }
    } else if b.len() > 0 && a[0] == b[0] {
        lemma_seq_lt_total(a.drop_first(), b.drop_first());
        if a.drop_first() == b.drop_first() {
            assert(a =~= seq![a[0]] + a.drop_first());
            assert(b =~= seq![b[0]] + b.drop_first());
        }
    } else if b.len() > 0 {
        assert((a[0] as int) != (b[0] as int));
    }
}

pub proof fn lemma_outranks_irreflexive(ws: Seq<Seq<Seq<char>>>, a: Seq<char>, b: Seq<char>)
    ensures
        !outranks(ws, a, b, a, b),
{
    lemma_seq_lt_irreflexive(a);
    lemma_seq_lt_irreflexive(b);
}

pub proof fn lemma_outranks_transitive(
    ws: Seq<Seq<Seq<char>>>,
    a: Seq<char>,
    b: Seq<char>,
    c: Seq<char>,
    d: Seq<char>,
    e: Seq<char>,
    f: Seq<char>,
)
    requires
        outranks(ws, a, b, c, d),
        outranks(ws, c, d, e, f),
    ensures
        outranks(ws, a, b, e, f),
{
    if pair_count(ws, a, b) == pair_count(ws, c, d) && pair_count(ws, c, d) == pair_count(
        ws,
        e,
        f,
    ) {
        if seq_lt(a, c) && seq_lt(c, e) {
            lemma_seq_lt_transitive(a, c, e);
        } else if seq_lt(a, c) {
        } else if seq_lt(c, e) {
        } else {
            lemma_seq_lt_transitive(b, d, f);
        }
    }
}

pub proof fn lemma_outranks_total(
    ws: Seq<Seq<Seq<char>>>,
    a: Seq<char>,
    b: Seq<char>,
    c: Seq<char>,
    d: Seq<char>,
)
    ensures
        outranks(ws, a, b, c, d) || outranks(ws, c, d, a, b) || (a == c && b == d),
{
    lemma_seq_lt_total(a, c);
    lemma_seq_lt_total(b, d);
}

/// At most one pair is best.
pub proof fn lemma_best_pair_unique(
    ws: Seq<Seq<Seq<char>>>,
    a: Seq<char>,
    b: Seq<char>,
    c: Seq<char>,
    d: Seq<char>,
)
    requires
        is_best_pair(ws, a, b),
        is_best_pair(ws, c, d),
    ensures
        a == c && b == d,
{
    assert(pair_count(ws, c, d) > 0);
    assert(pair_count(ws, a, b) > 0);
    lemma_outranks_total(ws, a, b, c, d);
}

/// The chosen best pair is the one that any search finds.
pub proof fn lemma_best_pair_is(ws: Seq<Seq<Seq<char>>>, a: Seq<char>, b: Seq<char>)
    requires
        is_best_pair(ws, a, b),
    ensures
        best_pair(ws) == (a, b),
{
    let p = best_pair(ws);
    assert(is_best_pair(ws, (a, b).0, (a, b).1));
    lemma_best_pair_unique(ws, a, b, p.0, p.1);
}

/// Two strictly increasing sequences with the same elements are equal.
pub proof fn lemma_sorted_unique(s: Seq<char>, t: Seq<char>)
    requires
        strictly_sorted(s),
        strictly_sorted(t),
        forall|c: char| #[trigger] s.contains(c) <==> t.contains(c),
    ensures
        s == t,
    decreases s.len(),
{
    if s.len() == 0 {
        if t.len() > 0 {
            assert(t.contains(t[0]));
            assert(s.contains(t[0]));
            assert(false);
        }
        assert(s =~= t);
    } else {
        assert(s.contains(s[0]));
        assert(t.len() > 0);
        assert(t.contains(s[0]));
        assert(t.contains(t[0]));
        assert(s.contains(t[0]));
        let k = choose|k: int| 0 <= k < t.len() && t[k] == s[0];
        let m = choose|m: int| 0 <= m < s.len() && s[m] == t[0];
        if k > 0 {
            assert((t[0] as int) < (t[k] as int));
            if m > 0 {
                assert((s[0] as int) < (s[m] as int));
            }
            assert(false);
        }
        let s1 = s.drop_first();
        let t1 = t.drop_first();
        assert forall|c: char| #[trigger] s1.contains(c) <==> t1.contains(c) by {
            if s1.contains(c) {
                let i = choose|i: int| 0 <= i < s1.len() && s1[i] == c;
                assert(s[i + 1] == c);
                assert(s.contains(c));
                assert(t.contains(c));
                let j = choose|j: int| 0 <= j < t.len() && t[j] == c;
                if j == 0 {
                    assert((s[0] as int) < (s[i + 1] as int));
                    assert(false);
                }
                assert(t1[j - 1] == c);
            }
            if t1.contains(c) {
                let i = choose|i: int| 0 <= i < t1.len() && t1[i] == c;
                assert(t[i + 1] == c);
                assert(t.contains(c));
                assert(s.contains(c));
                let j = choose|j: int| 0 <= j < s.len() && s[j] == c;
                if j == 0 {
                    assert((t[0] as int) < (t[i + 1] as int));
                    assert(false);
                }
                assert(s1[j - 1] == c);
            }
        }
        lemma_sorted_unique(s1, t1);
        assert(s =~= seq![s[0]] + s1);
        assert(t =~= seq![t[0]] + t1);
    }
}

/// The alphabet is whatever strictly sorted listing of the characters is found.
pub proof fn lemma_alphabet_is(words: Seq<Seq<char>>, s: Seq<char>)
    requires
        strictly_sorted(s),
        forall|c: char| #[trigger] s.contains(c) <==> words.flatten_alt().contains(c),
    ensures
        alphabet(words) == s,
{
    let a = alphabet(words);
    assert(strictly_sorted(a) && forall|c: char| #[trigger]
        a.contains(c) <==> words.flatten_alt().contains(c));
    lemma_sorted_unique(a, s);
}

pub proof fn lemma_count_before_bound(p: Seq<Seq<char>>, a: Seq<char>, b: Seq<char>, k: int)
    ensures
        count_before(p, a, b, k) <= if k < 0 {
            0
        } else {
            k
        },
    decreases k,
{
    if k > 0 {
        lemma_count_before_bound(p, a, b, k - 1);
    }
}

pub proof fn lemma_pair_count_bound(ws: Seq<Seq<Seq<char>>>, a: Seq<char>, b: Seq<char>)
    ensures
        pair_count(ws, a, b) <= total_pieces(ws),
    decreases ws.len(),
{
    if ws.len() > 0 {
        lemma_pair_count_bound(ws.drop_last(), a, b);
        lemma_count_before_bound(ws.last(), a, b, ws.last().len() as int);
    }
}

pub proof fn lemma_total_pieces_prefix(ws: Seq<Seq<Seq<char>>>, i: int)
    requires
        0 <= i <= ws.len(),
    ensures
        total_pieces(ws.take(i)) <= total_pieces(ws),
    decreases ws.len() - i,
{
    if i < ws.len() {
        lemma_total_pieces_prefix(ws, i + 1);
        assert(ws.take(i + 1).drop_last() =~= ws.take(i));
    } else {
        assert(ws.take(i) =~= ws);
    }
}

/// A positive count has an occurrence behind it.
pub proof fn lemma_count_before_occurs(p: Seq<Seq<char>>, a: Seq<char>, b: Seq<char>, k: int)
    requires
        count_before(p, a, b, k) > 0,
    ensures
        exists|j: int| 0 <= j < k && occurs_at(p, j, a, b),
    decreases k,
{
    if k > 0 && !occurs_at(p, k - 1, a, b) {
        lemma_count_before_occurs(p, a, b, k - 1);
    }
}

pub proof fn lemma_pair_count_occurs(ws: Seq<Seq<Seq<char>>>, a: Seq<char>, b: Seq<char>)
    requires
        pair_count(ws, a, b) > 0,
    ensures
        exists|i: int, j: int| 0 <= i < ws.len() && occurs_at(ws[i], j, a, b),
    decreases ws.len(),
{
    if count_in_word(ws.last(), a, b) > 0 {
        lemma_count_before_occurs(ws.last(), a, b, ws.last().len() as int);
        let j = choose|j: int| 0 <= j < ws.last().len() && occurs_at(ws.last(), j, a, b);
        assert(occurs_at(ws[ws.len() - 1], j, a, b));
    } else {
        lemma_pair_count_occurs(ws.drop_last(), a, b);
        let (i, j) = choose|i: int, j: int|
            0 <= i < ws.drop_last().len() && occurs_at(ws.drop_last()[i], j, a, b);
        assert(occurs_at(ws[i], j, a, b));
    }
}

/// An occurrence makes the count positive.
pub proof fn lemma_occurs_count_before(p: Seq<Seq<char>>, a: Seq<char>, b: Seq<char>, j: int, k: int)
    requires
        occurs_at(p, j, a, b),
        j < k,
    ensures
        count_before(p, a, b, k) > 0,
    decreases k,
{
    if k - 1 != j {
        lemma_occurs_count_before(p, a, b, j, k - 1);
    }
}

pub proof fn lemma_occurs_pair_count(ws: Seq<Seq<Seq<char>>>, a: Seq<char>, b: Seq<char>, i: int, j: int)
    requires
        0 <= i < ws.len(),
        occurs_at(ws[i], j, a, b),
    ensures
        pair_count(ws, a, b) > 0,
    decreases ws.len(),
{
    if i == ws.len() - 1 {
        lemma_occurs_count_before(ws[i], a, b, j, ws[i].len() as int);
    } else {
        assert(ws.drop_last()[i] == ws[i]);
        lemma_occurs_pair_count(ws.drop_last(), a, b, i, j);
    }
}


pub proof fn lemma_merge_len(p: Seq<Seq<char>>, a: Seq<char>, b: Seq<char>)
    ensures
        merge_pieces(p, a, b).len() <= p.len(),
    decreases p.len(),
{
    if p.len() >= 2 {
        if p[0] == a && p[1] == b {
            lemma_merge_len(p.skip(2), a, b);
        } else {
            lemma_merge_len(p.drop_first(), a, b);
        }
    }
}

pub proof fn lemma_merge_all_total(ws: Seq<Seq<Seq<char>>>, a: Seq<char>, b: Seq<char>)
    ensures
        total_pieces(merge_all(ws, a, b)) <= total_pieces(ws),
    decreases ws.len(),
{
    if ws.len() > 0 {
        assert(merge_all(ws, a, b).drop_last() =~= merge_all(ws.drop_last(), a, b));
        lemma_merge_all_total(ws.drop_last(), a, b);
        lemma_merge_len(ws.last(), a, b);
    }
}

pub proof fn lemma_total_pieces_concat(x: Seq<Seq<Seq<char>>>, y: Seq<Seq<Seq<char>>>)
    ensures
        total_pieces(x + y) == total_pieces(x) + total_pieces(y),
    decreases y.len(),
{
    if y.len() > 0 {
        assert((x + y).drop_last() =~= x + y.drop_last());
        lemma_total_pieces_concat(x, y.drop_last());
    } else {
        assert(x + y =~= x);
    }
}

pub proof fn lemma_word_pieces_concat(x: Seq<Seq<char>>, y: Seq<Seq<char>>)
    ensures
        word_pieces(x + y) == word_pieces(x) + word_pieces(y),
        total_pieces(word_pieces(x + y)) == total_pieces(word_pieces(x)) + total_pieces(
            word_pieces(y),
        ),
{
    assert(word_pieces(x + y) =~= word_pieces(x) + word_pieces(y));
    lemma_total_pieces_concat(word_pieces(x), word_pieces(y));
}

pub proof fn lemma_single_word_total(w: Seq<char>)
    ensures
        total_pieces(word_pieces(seq![w])) == w.len() + 1,
{
    let wp = word_pieces(seq![w]);
    assert(wp.len() == 1);
    assert(wp.last() == initial_pieces(w));
    assert(initial_pieces(w).len() == w.len() + 1);
    assert(wp.drop_last() =~= Seq::<Seq<Seq<char>>>::empty());
    assert(total_pieces(wp.drop_last()) == 0);
}

pub proof fn lemma_words_from_total(s: Seq<char>, cur: Seq<char>)
    ensures
        total_pieces(word_pieces(words_from(s, cur))) <= 2 * s.len() + 2 * cur.len(),
    decreases s.len(),
{
    let head: Seq<Seq<char>> = if cur.len() > 0 {
        seq![cur]
    } else {
        seq![]
    };
    if cur.len() > 0 {
        lemma_single_word_total(cur);
    } else {
        assert(word_pieces(head) =~= Seq::<Seq<Seq<char>>>::empty());
    }
    if s.len() == 0 {
    } else if is_ws(s[0]) {
        lemma_words_from_total(s.drop_first(), seq![]);
        lemma_word_pieces_concat(head, words_from(s.drop_first(), seq![]));
    } else {
        lemma_words_from_total(s.drop_first(), cur.push(s[0]));
    }
}

pub proof fn lemma_corpus_total(lines: Seq<Seq<char>>)
    ensures
        total_pieces(word_pieces(corpus_words(lines))) <= 2 * total_chars(lines),
    decreases lines.len(),
{
    if lines.len() > 0 {
        lemma_corpus_total(lines.drop_last());
        lemma_words_from_total(lines.last(), seq![]);
        lemma_word_pieces_concat(corpus_words(lines.drop_last()), split_ws(lines.last()));
    }
}

} // verus!
