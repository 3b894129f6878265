//! Trainable byte-pair tokenizer, Unicode-aware.
//!
//! `BpeTokenizer::train` learns merges from a corpus: words start as
//! characters plus an end-of-word marker, and the most frequent adjacent pair
//! merges each round (ties broken lexicographically, so training is fully
//! deterministic). Encoding replays the merges in learned order; decoding
//! concatenates pieces and restores word boundaries.

use vstd::prelude::*;
use crate::bpe::{
    alphabet, corpus_words, learned_merges, lemma_alphabet_is, lemma_best_pair_is,
    lemma_corpus_total, lemma_merge_all_total, line_views, total_chars, trained_vocab,
    word_pieces, count_before, has_pair, is_best_pair, lemma_count_before_bound, lemma_occurs_pair_count,
    lemma_outranks_irreflexive, lemma_outranks_transitive, lemma_pair_count_bound,
    lemma_pair_count_occurs, lemma_total_pieces_prefix, merge_all, occurs_at, outranks,
    pair_count, pair_lt, seq_lt, strictly_sorted, total_pieces, apply_merges, bad_id_message, decode_text, encode_text, encode_words, eow, ids_in_range,
    initial_pieces, joined_pieces, last_index_of, merge_pieces, replace_eow, token_id, unk,
};
use crate::error::AetherError;
use crate::laws::law_trained_vocab_size;
use crate::text::{
    append_chars, chars_of, concat_chars, copy_chars, decimal, decimal_chars, same_chars, seqs_of,
    split_whitespace, split_ws, string_of, trim_chars,
};

verus! {

/// End-of-word marker suffixed to every word.
pub const EOW: &'static str = "</w>";

/// Unknown token for characters never seen in training.
pub const UNK: &'static str = "<unk>";

/// The views of a sequence of merges.
pub open spec fn pairs_of(m: Seq<(Vec<char>, Vec<char>)>) -> Seq<(Seq<char>, Seq<char>)> {
    m.map_values(|x: (Vec<char>, Vec<char>)| (x.0@, x.1@))
}

/// The views of a sequence of words held as pieces.
pub open spec fn words_of(ws: Seq<Vec<Vec<char>>>) -> Seq<Seq<Seq<char>>> {
    ws.map_values(|w: Vec<Vec<char>>| seqs_of(w@))
}

/// Byte-pair tokenizer with a learned merge table.
#[derive(Debug, Clone)]
pub struct BpeTokenizer {
    vocab: Vec<Vec<char>>,
    merges: Vec<(Vec<char>, Vec<char>)>,
    unk_id: usize,
}

/// The characters of `</w>`.
pub fn eow_chars() -> (r: Vec<char>)
    ensures
        r@ == eow(),
{
    let r = chars_of(EOW);
    proof {
        reveal_strlit("</w>");
    }
    assert(r@ =~= eow());
    r
}

/// The characters of `<unk>`.
pub fn unk_chars() -> (r: Vec<char>)
    ensures
        r@ == unk(),
{
    let r = chars_of(UNK);
    proof {
        reveal_strlit("<unk>");
    }
    assert(r@ =~= unk());
    r
}

/// A word as initial pieces: one per character, then `</w>`.
fn initial_word(w: &Vec<char>) -> (r: Vec<Vec<char>>)
    ensures
        seqs_of(r@) == initial_pieces(w@),
{
    let mut r: Vec<Vec<char>> = Vec::new();
    let mut i: usize = 0;
    while i < w.len()
        invariant
            i <= w.len(),
            seqs_of(r@) == w@.take(i as int).map_values(|c: char| seq![c]),
        decreases w.len() - i,
    {
        let mut piece: Vec<char> = Vec::new();
        piece.push(w[i]);
        assert(piece@ =~= seq![w@[i as int]]);
        let ghost old_r = seqs_of(r@);
        r.push(piece);
        assert(seqs_of(r@) =~= old_r.push(seq![w@[i as int]]));
        i = i + 1;
        assert(seqs_of(r@) =~= w@.take(i as int).map_values(|c: char| seq![c]));
    }
    r.push(eow_chars());
    assert(w@.take(w.len() as int) =~= w@);
    assert(seqs_of(r@) =~= initial_pieces(w@));
    r
}

/// Merge every left-to-right occurrence of `(a, b)` in `p`.
fn merge_word(p: &Vec<Vec<char>>, a: &Vec<char>, b: &Vec<char>) -> (r: Vec<Vec<char>>)
    ensures
        seqs_of(r@) == merge_pieces(seqs_of(p@), a@, b@),
{
    let ghost w = seqs_of(p@);
    let n = p.len();
    let mut out: Vec<Vec<char>> = Vec::new();
    let mut i: usize = 0;
    assert(w.skip(0) =~= w);
    while i < n
        invariant
            i <= n,
            n == p.len(),
            w == seqs_of(p@),
            merge_pieces(w, a@, b@) == seqs_of(out@) + merge_pieces(w.skip(i as int), a@, b@),
        decreases n - i,
    {
        let ghost old_out = seqs_of(out@);
        if i + 1 < n && same_chars(&p[i], a) && same_chars(&p[i + 1], b) {
            let merged = concat_chars(a, b);
            out.push(merged);
            assert(w.skip(i as int).skip(2) =~= w.skip(i + 2));
            assert(seqs_of(out@) =~= old_out + seq![a@ + b@]);
            i = i + 2;
        } else {
            let piece = copy_chars(&p[i]);
            out.push(piece);
            assert(w.skip(i as int).drop_first() =~= w.skip(i + 1));
            assert(seqs_of(out@) =~= old_out + seq![w[i as int]]);
            if i + 1 >= n {
                assert(w.skip(i as int) =~= seq![w[i as int]]);
                assert(w.skip(i + 1).len() == 0);
            }
            i = i + 1;
        }
    }
    assert(w.skip(i as int).len() == 0);
    assert(seqs_of(out@) + merge_pieces(w.skip(i as int), a@, b@) =~= seqs_of(out@));
    out
}

/// Every `</w>` of `s` replaced by a space.
fn replace_eow_chars(s: &Vec<char>) -> (r: Vec<char>)
    ensures
        r@ == replace_eow(s@),
{
    let n = s.len();
    let mut out: Vec<char> = Vec::new();
    let mut i: usize = 0;
    assert(s@.skip(0) =~= s@);
    while i < n
        invariant
            i <= n,
            n == s.len(),
            replace_eow(s@) == out@ + replace_eow(s@.skip(i as int)),
        decreases n - i,
    {
        let ghost t = s@.skip(i as int);
        let ghost old_out = out@;
        if n - i >= 4 && s[i] == '<' && s[i + 1] == '/' && s[i + 2] == 'w' && s[i + 3] == '>' {
            assert(t.take(4) =~= eow());
            assert(t.skip(4) =~= s@.skip(i + 4));
            out.push(' ');
            assert(out@ =~= old_out + seq![' ']);
            i = i + 4;
        } else {
            proof {
                if t.len() >= 4 && t.take(4) == eow() {
                    assert(t.take(4)[0] == '<' && t.take(4)[1] == '/' && t.take(4)[2] == 'w'
                        && t.take(4)[3] == '>');
                    assert(false);
                }
            }
            assert(t.drop_first() =~= s@.skip(i + 1));
            out.push(s[i]);
            assert(out@ =~= old_out + seq![s@[i as int]]);
            i = i + 1;
        }
    }
    assert(s@.skip(i as int).len() == 0);
    assert(out@ + replace_eow(s@.skip(i as int)) =~= out@);
    out
}

/// Whether `a` sorts strictly before `b`.
fn seq_less(a: &Vec<char>, b: &Vec<char>) -> (r: bool)
    ensures
        r == seq_lt(a@, b@),
{
    let mut k: usize = 0;
    assert(a@.skip(0) =~= a@);
    assert(b@.skip(0) =~= b@);
    loop
        invariant
            k <= a.len(),
            k <= b.len(),
            seq_lt(a@, b@) == seq_lt(a@.skip(k as int), b@.skip(k as int)),
        decreases a.len() - k,
    {
        if k == a.len() {
            return k < b.len();
        }
        if k == b.len() {
            return false;
        }
        assert(a@.skip(k as int)[0] == a@[k as int]);
        assert(b@.skip(k as int)[0] == b@[k as int]);
        if a[k] != b[k] {
            return a[k] < b[k];
        }
        assert(a@.skip(k as int).drop_first() =~= a@.skip(k + 1));
        assert(b@.skip(k as int).drop_first() =~= b@.skip(k + 1));
        k = k + 1;
    }
}

/// Whether the pair `(a, b)` sorts strictly before `(c, d)`.
fn pair_less(a: &Vec<char>, b: &Vec<char>, c: &Vec<char>, d: &Vec<char>) -> (r: bool)
    ensures
        r == pair_lt(a@, b@, c@, d@),
{
    seq_less(a, c) || (same_chars(a, c) && seq_less(b, d))
}

/// How often `(a, b)` occurs adjacently over all words.
fn count_pair(words: &Vec<Vec<Vec<char>>>, a: &Vec<char>, b: &Vec<char>) -> (r: usize)
    requires
        total_pieces(words_of(words@)) <= usize::MAX,
    ensures
        r == pair_count(words_of(words@), a@, b@),
{
    let ghost ws = words_of(words@);
    let mut cnt: usize = 0;
    let mut i: usize = 0;
    while i < words.len()
        invariant
            i <= words.len(),
            ws == words_of(words@),
            total_pieces(ws) <= usize::MAX,
            cnt == pair_count(ws.take(i as int), a@, b@),
        decreases words.len() - i,
    {
        let w = &words[i];
        let ghost p = ws[i as int];
        assert(p == seqs_of(w@));
        let mut cw: usize = 0;
        let mut j: usize = 0;
        while j < w.len()
            invariant
                j <= w.len(),
                p == seqs_of(w@),
                cw == count_before(p, a@, b@, j as int),
            decreases w.len() - j,
        {
            proof {
                lemma_count_before_bound(p, a@, b@, j as int);
            }
            if j + 1 < w.len() && same_chars(&w[j], a) && same_chars(&w[j + 1], b) {
                cw = cw + 1;
            }
            j = j + 1;
        }
        proof {
            assert(ws.take(i + 1).drop_last() =~= ws.take(i as int));
            assert(ws.take(i + 1).last() == p);
            lemma_pair_count_bound(ws.take(i + 1), a@, b@);
            lemma_total_pieces_prefix(ws, i + 1);
        }
        cnt = cnt + cw;
        i = i + 1;
    }
    assert(ws.take(i as int) =~= ws);
    cnt
}

/// No pair seen at a position before `(i, j)` outranks `(a, b)`.
pub open spec fn none_before_outranks(
    ws: Seq<Seq<Seq<char>>>,
    i: int,
    j: int,
    a: Seq<char>,
    b: Seq<char>,
) -> bool {
    forall|i2: int, j2: int|
        #![trigger ws[i2][j2]]
        (0 <= i2 < i || (i2 == i && j2 < j)) && 0 <= j2 && j2 + 1 < ws[i2].len() ==> !outranks(
            ws,
            ws[i2][j2],
            ws[i2][j2 + 1],
            a,
            b,
        )
}

/// The pair that the next training round merges, if any pair is left.
fn find_best(words: &Vec<Vec<Vec<char>>>) -> (r: Option<(Vec<char>, Vec<char>)>)
    requires
        total_pieces(words_of(words@)) <= usize::MAX,
    ensures
        match r {
            None => !has_pair(words_of(words@)),
            Some(p) => is_best_pair(words_of(words@), p.0@, p.1@),
        },
{
    let ghost ws = words_of(words@);
    let mut best: Option<(Vec<char>, Vec<char>)> = None;
    let mut best_count: usize = 0;
    let mut i: usize = 0;
    while i < words.len()
        invariant
            i <= words.len(),
            ws == words_of(words@),
            total_pieces(ws) <= usize::MAX,
            best is None ==> forall|i2: int| 0 <= i2 < i ==> #[trigger] ws[i2].len() < 2,
            best matches Some(p) ==> best_count == pair_count(ws, p.0@, p.1@) && best_count > 0
                && none_before_outranks(ws, i as int, 0, p.0@, p.1@),
        decreases words.len() - i,
    {
        let w = &words[i];
        let ghost p = ws[i as int];
        assert(p == seqs_of(w@));
        let mut j: usize = 0;
        while w.len() > 1 && j < w.len() - 1
            invariant
                i < words.len(),
                j <= w.len(),
                ws == words_of(words@),
                p == ws[i as int],
                p == seqs_of(w@),
                total_pieces(ws) <= usize::MAX,
                best is None ==> j == 0 && forall|i2: int| 0 <= i2 < i ==> #[trigger] ws[i2].len()
                    < 2,
                best matches Some(q) ==> best_count == pair_count(ws, q.0@, q.1@) && best_count
                    > 0 && none_before_outranks(ws, i as int, j as int, q.0@, q.1@),
            decreases w.len() - j,
        {
            let cnt = count_pair(words, &w[j], &w[j + 1]);
            proof {
                assert(occurs_at(p, j as int, p[j as int], p[j + 1]));
                lemma_occurs_pair_count(ws, p[j as int], p[j + 1], i as int, j as int);
            }
            let better = match &best {
                None => true,
                Some(q) => cnt > best_count || (cnt == best_count && pair_less(
                    &w[j],
                    &w[j + 1],
                    &q.0,
                    &q.1,
                )),
            };
            if better {
                let ghost old_best = best;
                let cand = (copy_chars(&w[j]), copy_chars(&w[j + 1]));
                proof {
                    let c = p[j as int];
                    let d = p[j + 1];
                    lemma_outranks_irreflexive(ws, c, d);
                    if old_best is Some {
                        let q = old_best->0;
                        assert forall|i2: int, j2: int|
                            #![trigger ws[i2][j2]]
                            (0 <= i2 < i || (i2 == i && j2 < j + 1)) && 0 <= j2 && j2 + 1
                                < ws[i2].len() implies !outranks(
                            ws,
                            ws[i2][j2],
                            ws[i2][j2 + 1],
                            c,
                            d,
                        ) by {
                            if i2 == i && j2 == j {
                            } else if outranks(ws, ws[i2][j2], ws[i2][j2 + 1], c, d) {
                                lemma_outranks_transitive(
                                    ws,
                                    ws[i2][j2],
                                    ws[i2][j2 + 1],
                                    c,
                                    d,
                                    q.0@,
                                    q.1@,
                                );
                            }
                        }
                    }
                }
                best = Some(cand);
                best_count = cnt;
            } else {
                proof {
                    let q = best->0;
                    assert(!outranks(ws, p[j as int], p[j + 1], q.0@, q.1@));
                    assert forall|i2: int, j2: int|
                        #![trigger ws[i2][j2]]
                        (0 <= i2 < i || (i2 == i && j2 < j + 1)) && 0 <= j2 && j2 + 1
                            < ws[i2].len() implies !outranks(
                        ws,
                        ws[i2][j2],
                        ws[i2][j2 + 1],
                        q.0@,
                        q.1@,
                    ) by {
                        if i2 == i && j2 == j {
                        }
                    }
                }
            }
            j = j + 1;
        }
        proof {
            if best is None {
                assert(w.len() < 2);
            }
        }
        i = i + 1;
    }
    proof {
        if best is Some {
            let q = best->0;
            assert forall|c: Seq<char>, d: Seq<char>|
                #![trigger pair_count(ws, c, d)]
                pair_count(ws, c, d) > 0 implies !outranks(ws, c, d, q.0@, q.1@) by {
                lemma_pair_count_occurs(ws, c, d);
                let (i2, j2) = choose|i2: int, j2: int|
                    0 <= i2 < ws.len() && occurs_at(ws[i2], j2, c, d);
                assert(ws[i2][j2] == c);
            }
        } else {
            assert forall|i2: int| 0 <= i2 < ws.len() implies #[trigger] ws[i2].len() < 2 by {}
        }
    }
    best
}

/// Every word with `(a, b)` merged.
fn merge_words(words: &Vec<Vec<Vec<char>>>, a: &Vec<char>, b: &Vec<char>) -> (r: Vec<
    Vec<Vec<char>>,
>)
    ensures
        words_of(r@) == merge_all(words_of(words@), a@, b@),
{
    let ghost ws = words_of(words@);
    let mut out: Vec<Vec<Vec<char>>> = Vec::new();
    let mut i: usize = 0;
    while i < words.len()
        invariant
            i <= words.len(),
            ws == words_of(words@),
            words_of(out@) == merge_all(ws.take(i as int), a@, b@),
        decreases words.len() - i,
    {
        let m = merge_word(&words[i], a, b);
        let ghost old_out = words_of(out@);
        assert(ws[i as int] == seqs_of(words@[i as int]@));
        out.push(m);
        assert(words_of(out@) =~= old_out.push(merge_pieces(ws[i as int], a@, b@)));
        assert(merge_all(ws.take(i + 1), a@, b@) =~= merge_all(ws.take(i as int), a@, b@).push(
            merge_pieces(ws[i as int], a@, b@),
        ));
        i = i + 1;
        assert(words_of(out@) =~= merge_all(ws.take(i as int), a@, b@));
    }
    assert(ws.take(i as int) =~= ws);
    out
}

/// Insert `c` into a strictly sorted vector unless it is already there.
fn insert_sorted(v: &mut Vec<char>, c: char)
    requires
        strictly_sorted(old(v)@),
    ensures
        strictly_sorted(final(v)@),
        forall|x: char| #[trigger] final(v)@.contains(x) <==> (old(v)@.contains(x) || x == c),
{
    let mut k: usize = 0;
    while k < v.len() && v[k] < c
        invariant
            k <= v.len(),
            v@ == old(v)@,
            forall|t: int| 0 <= t < k ==> (v@[t] as int) < (c as int),
        decreases v.len() - k,
    {
        k = k + 1;
    }
    if k < v.len() && v[k] == c {
        assert(v@.contains(c));
        return;
    }
    let ghost before = v@;
    v.insert(k, c);
    proof {
        assert(v@ =~= before.take(k as int).push(c) + before.skip(k as int));
        assert forall|i: int, j: int| 0 <= i < j < v@.len() implies (v@[i] as int) < (
        v@[j] as int) by {
            if k < before.len() {
                assert((c as int) < (before[k as int] as int));
            }
            if i < k && j > k {
                assert(v@[j] == before[j - 1]);
            }
        }
        assert forall|x: char| #[trigger] v@.contains(x) <==> (before.contains(x) || x == c) by {
            if v@.contains(x) {
                let i = choose|i: int| 0 <= i < v@.len() && v@[i] == x;
                if i < k {
                    assert(before[i] == x);
                } else if i > k {
                    assert(before[i - 1] == x);
                }
            }
            if before.contains(x) {
                let i = choose|i: int| 0 <= i < before.len() && before[i] == x;
                if i < k {
                    assert(v@[i] == x);
                } else {
                    assert(v@[i + 1] == x);
                }
            }
            if x == c {
                assert(v@[k as int] == c);
            }
        }
    }
}

impl BpeTokenizer {
    /// The vocabulary, indexed by token id.
    pub closed spec fn vocab_seq(&self) -> Seq<Seq<char>> {
        seqs_of(self.vocab@)
    }

    /// The learned merges, in learned order.
    pub closed spec fn merge_seq(&self) -> Seq<(Seq<char>, Seq<char>)> {
        pairs_of(self.merges@)
    }

    /// The id given to pieces outside the vocabulary.
    pub closed spec fn unk_index(&self) -> usize {
        self.unk_id
    }

    /// The layout that `new` gives and `train` keeps: unknown id 0 with
    /// `<unk>` at index 0, and either `<unk>` alone with no merges, or at
    /// least `<unk>`, `</w>`, one character and one entry per merge.
    pub open spec fn standard_layout(&self) -> bool {
        &&& self.unk_index() == 0
        &&& self.vocab_seq().len() >= 1
        &&& self.vocab_seq()[0] == unk()
        &&& (self.vocab_seq().len() == 1 && self.merge_seq().len() == 0)
            || self.vocab_seq().len() >= 3 + self.merge_seq().len()
    }

    /// Empty tokenizer (only `<unk>` known).
    pub fn new() -> (r: BpeTokenizer)
        ensures
            r.vocab_seq() == seq![unk()],
            r.merge_seq() == Seq::<(Seq<char>, Seq<char>)>::empty(),
            r.unk_index() == 0,
            r.standard_layout(),
    {
        let mut vocab: Vec<Vec<char>> = Vec::new();
        vocab.push(unk_chars());
        let r = BpeTokenizer { vocab, merges: Vec::new(), unk_id: 0 };
        assert(r.vocab_seq() =~= seq![unk()]);
        assert(r.merge_seq() =~= Seq::<(Seq<char>, Seq<char>)>::empty());
        r
    }

    /// Learn up to `num_merges` merges from `corpus`.
    pub fn train(&mut self, corpus: &[&str], num_merges: usize) -> (r: Result<(), AetherError>)
        requires
            2 * total_chars(line_views(corpus@)) <= usize::MAX,
        ensures
            match r {
                Ok(()) => {
                    let words = corpus_words(line_views(corpus@));
                    let merges = learned_merges(word_pieces(words), num_merges as nat);
                    &&& corpus@.len() > 0
                    &&& words.len() > 0
                    &&& final(self).merge_seq() == merges
                    &&& final(self).vocab_seq() == trained_vocab(alphabet(words), merges)
                    &&& final(self).unk_index() == 0
                    &&& final(self).vocab_seq()[0] == unk()
                    &&& final(self).vocab_seq().len() >= 3 + final(self).merge_seq().len()
                },
                Err(e) => {
                    &&& *final(self) == *old(self)
                    &&& e matches AetherError::EmptyInput(m)
                    &&& if corpus@.len() == 0 {
                        m@ == "bpe train got empty corpus"@
                    } else {
                        &&& corpus_words(line_views(corpus@)).len() == 0
                        &&& m@ == "bpe train found no words"@
                    }
                },
            },
            old(self).standard_layout() ==> final(self).standard_layout(),
    {
        let ghost lines = line_views(corpus@);
        if corpus.len() == 0 {
            return Err(AetherError::EmptyInput(String::from_str("bpe train got empty corpus")));
        }
        // Split into words.
        let mut all: Vec<Vec<char>> = Vec::new();
        let mut k: usize = 0;
        while k < corpus.len()
            invariant
                k <= corpus.len(),
                lines == line_views(corpus@),
                seqs_of(all@) == corpus_words(lines.take(k as int)),
            decreases corpus.len() - k,
        {
            let cs = chars_of(corpus[k]);
            let ws = split_whitespace(&cs);
            let ghost base = seqs_of(all@);
            let mut t: usize = 0;
            while t < ws.len()
                invariant
                    t <= ws.len(),
                    seqs_of(all@) == base + seqs_of(ws@).take(t as int),
                decreases ws.len() - t,
            {
                let ghost old_all = seqs_of(all@);
                let piece = copy_chars(&ws[t]);
                all.push(piece);
                assert(seqs_of(all@) =~= old_all.push(seqs_of(ws@)[t as int]));
                t = t + 1;
                assert(seqs_of(all@) =~= base + seqs_of(ws@).take(t as int));
            }
            assert(seqs_of(ws@).take(t as int) =~= seqs_of(ws@));
            assert(lines.take(k + 1).drop_last() =~= lines.take(k as int));
            assert(lines.take(k + 1).last() == corpus@[k as int]@);
            k = k + 1;
        }
        assert(lines.take(k as int) =~= lines);
        let ghost cw = seqs_of(all@);
        if all.len() == 0 {
            return Err(AetherError::EmptyInput(String::from_str("bpe train found no words")));
        }
        // Base alphabet: every character, sorted, once.

        let mut flat: Vec<char> = Vec::new();
        let mut i: usize = 0;
        while i < all.len()
            invariant
                i <= all.len(),
                cw == seqs_of(all@),
                flat@ == cw.take(i as int).flatten_alt(),
            decreases all.len() - i,
        {
            append_chars(&mut flat, &all[i]);
            assert(cw.take(i + 1).drop_last() =~= cw.take(i as int));
            i = i + 1;
        }
        assert(cw.take(i as int) =~= cw);
        let mut alpha: Vec<char> = Vec::new();
        let mut j: usize = 0;
        while j < flat.len()
            invariant
                j <= flat.len(),
                strictly_sorted(alpha@),
                forall|x: char| #[trigger] alpha@.contains(x) <==> flat@.take(j as int).contains(x),
            decreases flat.len() - j,
        {
            insert_sorted(&mut alpha, flat[j]);
            proof {
                assert forall|x: char| #[trigger]
                    flat@.take(j + 1).contains(x) <==> (flat@.take(j as int).contains(x) || x
                        == flat@[j as int]) by {
                    if flat@.take(j + 1).contains(x) {
                        let t = choose|t: int| 0 <= t < j + 1 && #[trigger] flat@.take(j + 1)[t] == x;
                        if t < j {
                            assert(flat@.take(j as int)[t] == x);
                        }
                    }
                    if flat@.take(j as int).contains(x) {
                        let t = choose|t: int| 0 <= t < j && #[trigger] flat@.take(j as int)[t] == x;
                        assert(flat@.take(j + 1)[t] == x);
                    }
                    if x == flat@[j as int] {
                        assert(flat@.take(j + 1)[j as int] == x);
                    }
                }
            }
            j = j + 1;
        }
        assert(flat@.take(j as int) =~= flat@);
        proof {
            lemma_alphabet_is(cw, alpha@);
        }
        // Every word as initial pieces.
        let mut words: Vec<Vec<Vec<char>>> = Vec::new();
        let mut i: usize = 0;
        while i < all.len()
            invariant
                i <= all.len(),
                cw == seqs_of(all@),
                words_of(words@) == word_pieces(cw.take(i as int)),
            decreases all.len() - i,
        {
            let ghost old_w = words_of(words@);
            words.push(initial_word(&all[i]));
            assert(words_of(words@) =~= old_w.push(initial_pieces(cw[i as int])));
            assert(word_pieces(cw.take(i + 1)) =~= word_pieces(cw.take(i as int)).push(
                initial_pieces(cw[i as int]),
            ));
            i = i + 1;
        }
        assert(cw.take(i as int) =~= cw);
        let ghost wp = word_pieces(cw);
        proof {
            lemma_corpus_total(lines);
        }
        // Training rounds.
        let mut merges: Vec<(Vec<char>, Vec<char>)> = Vec::new();
        let mut round: usize = 0;
        assert(pairs_of(merges@) =~= Seq::<(Seq<char>, Seq<char>)>::empty());
        assert(pairs_of(merges@) + learned_merges(wp, num_merges as nat) =~= learned_merges(
            wp,
            num_merges as nat,
        ));
        while round < num_merges
            invariant
                round <= num_merges,
                total_pieces(words_of(words@)) <= usize::MAX,
                pairs_of(merges@) + learned_merges(
                    words_of(words@),
                    (num_merges - round) as nat,
                ) == learned_merges(wp, num_merges as nat),
            decreases num_merges - round,
        {
            let ghost cur = words_of(words@);
            let ghost rem = (num_merges - round) as nat;
            match find_best(&words) {
                None => {
                    assert(learned_merges(cur, rem) =~= Seq::<(Seq<char>, Seq<char>)>::empty());
                    assert(learned_merges(cur, 0) =~= Seq::<(Seq<char>, Seq<char>)>::empty());
                    round = num_merges;
                },
                Some(p) => {
                    let ghost pv = (p.0@, p.1@);
                    proof {
                        lemma_best_pair_is(cur, p.0@, p.1@);
                        assert(has_pair(cur)) by {
                            lemma_pair_count_occurs(cur, p.0@, p.1@);
                        }
                        lemma_merge_all_total(cur, p.0@, p.1@);
                    }
                    let new_words = merge_words(&words, &p.0, &p.1);
                    let ghost old_m = pairs_of(merges@);
                    merges.push(p);
                    assert(pairs_of(merges@) =~= old_m.push(pv));
                    words = new_words;
                    round = round + 1;
                    assert(learned_merges(cur, rem) == seq![pv] + learned_merges(
                        words_of(words@),
                        (num_merges - round) as nat,
                    ));
                    assert(pairs_of(merges@) + learned_merges(
                        words_of(words@),
                        (num_merges - round) as nat,
                    ) =~= old_m + learned_merges(cur, rem));
                },
            }
        }
        assert(learned_merges(words_of(words@), 0) =~= Seq::<(Seq<char>, Seq<char>)>::empty());
        assert(pairs_of(merges@) =~= learned_merges(wp, num_merges as nat));
        // Vocabulary: <unk>, </w>, alphabet, merged pieces.
        let mut vocab: Vec<Vec<char>> = Vec::new();
        vocab.push(unk_chars());
        vocab.push(eow_chars());
        let ghost head = seq![unk(), eow()];
        assert(seqs_of(vocab@) =~= head);
        let mut t: usize = 0;
        while t < alpha.len()
            invariant
                t <= alpha.len(),
                seqs_of(vocab@) == head + alpha@.take(t as int).map_values(|c: char| seq![c]),
            decreases alpha.len() - t,
        {
            let mut piece: Vec<char> = Vec::new();
            piece.push(alpha[t]);
            assert(piece@ =~= seq![alpha@[t as int]]);
            let ghost old_v = seqs_of(vocab@);
            vocab.push(piece);
            assert(seqs_of(vocab@) =~= old_v.push(seq![alpha@[t as int]]));
            t = t + 1;
            assert(seqs_of(vocab@) =~= head + alpha@.take(t as int).map_values(|c: char| seq![c]));
        }
        assert(alpha@.take(t as int) =~= alpha@);
        let ghost head2 = seqs_of(vocab@);
        let ghost mv = pairs_of(merges@);
        let mut t: usize = 0;
        while t < merges.len()
            invariant
                t <= merges.len(),
                mv == pairs_of(merges@),
                seqs_of(vocab@) == head2 + mv.take(t as int).map_values(
                    |m: (Seq<char>, Seq<char>)| m.0 + m.1,
                ),
            decreases merges.len() - t,
        {
            let piece = concat_chars(&merges[t].0, &merges[t].1);
            let ghost old_v = seqs_of(vocab@);
            assert(mv[t as int] == (merges@[t as int].0@, merges@[t as int].1@));
            vocab.push(piece);
            assert(seqs_of(vocab@) =~= old_v.push(mv[t as int].0 + mv[t as int].1));
            t = t + 1;
            assert(seqs_of(vocab@) =~= head2 + mv.take(t as int).map_values(
                |m: (Seq<char>, Seq<char>)| m.0 + m.1,
            ));
        }
        assert(mv.take(t as int) =~= mv);
        self.vocab = vocab;
        self.merges = merges;
        self.unk_id = 0;
        assert(self.vocab_seq() =~= trained_vocab(alpha@, mv));
        proof {
            law_trained_vocab_size(lines, num_merges as nat);
        }
        Ok(())
    }

    /// The id of piece `p`.
    fn lookup(&self, p: &Vec<char>) -> (r: usize)
        ensures
            r == token_id(self.vocab_seq(), p@, self.unk_index()),
    {
        let ghost v = self.vocab_seq();
        let mut k: usize = self.vocab.len();
        assert(v.take(k as int) =~= v);
        while k > 0
            invariant
                k <= self.vocab.len(),
                v == self.vocab_seq(),
                last_index_of(v, p@) == last_index_of(v.take(k as int), p@),
            decreases k,
        {
            assert(v.take(k as int).drop_last() =~= v.take(k - 1));
            if same_chars(&self.vocab[k - 1], p) {
                return k - 1;
            }
            k = k - 1;
        }
        self.unk_id
    }

    /// Encode text into token ids (unknown chars become `<unk>`).
    pub fn encode(&self, text: &str) -> (r: Vec<usize>)
        ensures
            r@ == encode_text(self.vocab_seq(), self.merge_seq(), self.unk_index(), text@),
    {
        let ghost vv = self.vocab_seq();
        let ghost mm = self.merge_seq();
        let ghost u = self.unk_index();
        let chars = chars_of(text);
        let words = split_whitespace(&chars);
        let ghost ws = seqs_of(words@);
        let mut ids: Vec<usize> = Vec::new();
        let mut k: usize = 0;
        while k < words.len()
            invariant
                k <= words.len(),
                ws == seqs_of(words@),
                ws == split_ws(text@),
                vv == self.vocab_seq(),
                mm == self.merge_seq(),
                u == self.unk_index(),
                ids@ == encode_words(vv, mm, u, ws.take(k as int)),
            decreases words.len() - k,
        {
            let mut pieces = initial_word(&words[k]);
            let mut m: usize = 0;
            assert(mm.skip(0) =~= mm);
            while m < self.merges.len()
                invariant
                    m <= self.merges.len(),
                    mm == self.merge_seq(),
                    apply_merges(initial_pieces(ws[k as int]), mm) == apply_merges(
                        seqs_of(pieces@),
                        mm.skip(m as int),
                    ),
                decreases self.merges.len() - m,
            {
                assert(mm.skip(m as int).drop_first() =~= mm.skip(m + 1));
                assert(mm.skip(m as int)[0] == mm[m as int]);
                pieces = merge_word(&pieces, &self.merges[m].0, &self.merges[m].1);
                m = m + 1;
            }
            assert(mm.skip(m as int).len() == 0);
            let ghost pv = seqs_of(pieces@);
            assert(pv == apply_merges(initial_pieces(ws[k as int]), mm));
            let ghost base = ids@;
            let mut t: usize = 0;
            while t < pieces.len()
                invariant
                    t <= pieces.len(),
                    pv == seqs_of(pieces@),
                    vv == self.vocab_seq(),
                    u == self.unk_index(),
                    ids@ == base + pv.take(t as int).map_values(
                        |p: Seq<char>| token_id(vv, p, u),
                    ),
                decreases pieces.len() - t,
            {
                let id = self.lookup(&pieces[t]);
                ids.push(id);
                t = t + 1;
                assert(ids@ =~= base + pv.take(t as int).map_values(
                    |p: Seq<char>| token_id(vv, p, u),
                ));
            }
            assert(pv.take(t as int) =~= pv);
            assert(ws.take(k + 1).drop_last() =~= ws.take(k as int));
            k = k + 1;
        }
        assert(ws.take(k as int) =~= ws);
        ids
    }

    /// Decode ids back to text.
    pub fn decode(&self, ids: &[usize]) -> (r: Result<String, AetherError>)
        ensures
            match r {
                Ok(s) => ids_in_range(self.vocab_seq().len(), ids@) && s@ == decode_text(
                    self.vocab_seq(),
                    ids@,
                ),
                Err(e) => exists|k: int|
                    #![trigger ids@[k]]
                    {
                        &&& 0 <= k < ids@.len()
                        &&& ids@[k] >= self.vocab_seq().len()
                        &&& ids_in_range(self.vocab_seq().len(), ids@.take(k))
                        &&& e matches AetherError::Vocab(m)
                        &&& m@ == bad_id_message(ids@[k], self.vocab_seq().len() as usize)
                    },
            },
    {
        let ghost vv = self.vocab_seq();
        let unk_piece = unk_chars();
        let mut raw: Vec<char> = Vec::new();
        let mut k: usize = 0;
        while k < ids.len()
            invariant
                k <= ids.len(),
                vv == self.vocab_seq(),
                unk_piece@ == unk(),
                ids_in_range(vv.len(), ids@.take(k as int)),
                raw@ == joined_pieces(vv, ids@.take(k as int)),
            decreases ids.len() - k,
        {
            let id = ids[k];
            if id >= self.vocab.len() {
                let mut msg = chars_of("token id ");
                append_chars(&mut msg, &decimal_chars(id));
                append_chars(&mut msg, &chars_of(" out of vocab "));
                append_chars(&mut msg, &decimal_chars(self.vocab.len()));
                let text = string_of(&msg);
                let e = AetherError::Vocab(text);
                assert(ids@[k as int] >= vv.len());
                return Err(e);
            }
            assert(ids@.take(k + 1).drop_last() =~= ids@.take(k as int));
            assert(ids@.take(k + 1).last() == id);
            if !same_chars(&self.vocab[id], &unk_piece) {
                append_chars(&mut raw, &self.vocab[id]);
            } else {
                assert(raw@ =~= raw@ + Seq::<char>::empty());
            }
            k = k + 1;
            assert(ids_in_range(vv.len(), ids@.take(k as int)));
        }
        assert(ids@.take(k as int) =~= ids@);
        let replaced = replace_eow_chars(&raw);
        let trimmed = trim_chars(&replaced);
        Ok(string_of(&trimmed))
    }

    /// Vocabulary size (includes `<unk>`).
    pub fn vocab_size(&self) -> (r: usize)
        ensures
            r == self.vocab_seq().len(),
    {
        self.vocab.len()
    }

    /// Number of learned merges.
    pub fn num_merges(&self) -> (r: usize)
        ensures
            r == self.merge_seq().len(),
    {
        self.merges.len()
    }

    /// Id of the unknown token.
    pub fn unk_id(&self) -> (r: usize)
        ensures
            r == self.unk_index(),
    {
        self.unk_id
    }

    /// A tokenizer holding exactly the given vocabulary and merge table
    /// (how a persisted tokenizer is rebuilt); `<unk>` keeps id 0.
    pub fn from_parts(vocab: Vec<String>, merges: Vec<(String, String)>) -> (r: BpeTokenizer)
        ensures
            r.vocab_seq() == vocab@.map_values(|s: String| s@),
            r.merge_seq() == merges@.map_values(|m: (String, String)| (m.0@, m.1@)),
            r.unk_index() == 0,
    {
        let mut v: Vec<Vec<char>> = Vec::new();
        let mut i: usize = 0;
        while i < vocab.len()
            invariant
                i <= vocab.len(),
                seqs_of(v@) == vocab@.take(i as int).map_values(|s: String| s@),
            decreases vocab.len() - i,
        {
            let ghost old_v = seqs_of(v@);
            let x = chars_of(vocab[i].as_str());
            v.push(x);
            assert(seqs_of(v@) =~= old_v.push(vocab@[i as int]@));
            i = i + 1;
            assert(seqs_of(v@) =~= vocab@.take(i as int).map_values(|s: String| s@));
        }
        let mut m: Vec<(Vec<char>, Vec<char>)> = Vec::new();
        let mut i: usize = 0;
        while i < merges.len()
            invariant
                i <= merges.len(),
                pairs_of(m@) == merges@.take(i as int).map_values(
                    |m: (String, String)| (m.0@, m.1@),
                ),
            decreases merges.len() - i,
        {
            let a = chars_of(merges[i].0.as_str());
            let b = chars_of(merges[i].1.as_str());
            let ghost old_m = pairs_of(m@);
            m.push((a, b));
            assert(pairs_of(m@) =~= old_m.push((merges@[i as int].0@, merges@[i as int].1@)));
            i = i + 1;
            assert(pairs_of(m@) =~= merges@.take(i as int).map_values(
                |m: (String, String)| (m.0@, m.1@),
            ));
        }
        assert(vocab@.take(vocab.len() as int) =~= vocab@);
        assert(merges@.take(merges.len() as int) =~= merges@);
        BpeTokenizer { vocab: v, merges: m, unk_id: 0 }
    }

    /// The vocabulary as strings, indexed by token id.
    pub fn vocab_strings(&self) -> (r: Vec<String>)
        ensures
            r@.map_values(|s: String| s@) == self.vocab_seq(),
    {
        let mut r: Vec<String> = Vec::new();
        let mut i: usize = 0;
        while i < self.vocab.len()
            invariant
                i <= self.vocab.len(),
                r@.map_values(|s: String| s@) == self.vocab_seq().take(i as int),
            decreases self.vocab.len() - i,
        {
            let ghost old_r = r@.map_values(|s: String| s@);
            let x = string_of(&self.vocab[i]);
            r.push(x);
            assert(r@.map_values(|s: String| s@) =~= old_r.push(self.vocab@[i as int]@));
            i = i + 1;
            assert(r@.map_values(|s: String| s@) =~= self.vocab_seq().take(i as int));
        }
        assert(self.vocab_seq().take(i as int) =~= self.vocab_seq());
        r
    }

    /// The merge table as pairs of strings, in learned order.
    pub fn merge_strings(&self) -> (r: Vec<(String, String)>)
        ensures
            r@.map_values(|m: (String, String)| (m.0@, m.1@)) == self.merge_seq(),
    {
        let mut r: Vec<(String, String)> = Vec::new();
        let mut i: usize = 0;
        while i < self.merges.len()
            invariant
                i <= self.merges.len(),
                r@.map_values(|m: (String, String)| (m.0@, m.1@)) == self.merge_seq().take(
                    i as int,
                ),
            decreases self.merges.len() - i,
        {
            let a = string_of(&self.merges[i].0);
            let b = string_of(&self.merges[i].1);
            let ghost old_r = r@.map_values(|m: (String, String)| (m.0@, m.1@));
            r.push((a, b));
            assert(r@.map_values(|m: (String, String)| (m.0@, m.1@)) =~= old_r.push(
                (self.merges@[i as int].0@, self.merges@[i as int].1@),
            ));
            i = i + 1;
            assert(r@.map_values(|m: (String, String)| (m.0@, m.1@)) =~= self.merge_seq().take(
                i as int,
            ));
        }
        assert(self.merge_seq().take(i as int) =~= self.merge_seq());
        r
    }
}

impl Default for BpeTokenizer {
    /// Empty tokenizer (only `<unk>` known).
    fn default() -> (r: BpeTokenizer)
        ensures
            r.vocab_seq() == seq![unk()],
            r.merge_seq() == Seq::<(Seq<char>, Seq<char>)>::empty(),
            r.unk_index() == 0,
    {
        BpeTokenizer::new()
    }
}

} // verus!
