use aether::error::AetherError;
use aether::tokenizer::BpeTokenizer;

fn corpus() -> Vec<&'static str> {
    vec![
        "hello world hello",
        "hello there world",
        "world of hello worlds",
    ]
}

#[test]
fn learns_merges_and_roundtrips() {
    let mut tok = BpeTokenizer::new();
    tok.train(&corpus(), 20).unwrap();
    assert!(tok.num_merges() > 0);
    for line in corpus() {
        let ids = tok.encode(line);
        assert!(!ids.is_empty());
        assert_eq!(tok.decode(&ids).unwrap(), line);
    }
}

#[test]
fn training_is_deterministic() {
    let mut a = BpeTokenizer::new();
    let mut b = BpeTokenizer::new();
    a.train(&corpus(), 15).unwrap();
    b.train(&corpus(), 15).unwrap();
    let probe = "hello worlds";
    assert_eq!(a.encode(probe), b.encode(probe));
}

#[test]
fn unknown_chars_map_to_unk() {
    let mut tok = BpeTokenizer::new();
    tok.train(&corpus(), 10).unwrap();
    let ids = tok.encode("hello zzz");
    assert!(ids.contains(&tok.unk_id()));
}

#[test]
fn rejects_empty_corpus_and_bad_ids() {
    let mut tok = BpeTokenizer::new();
    assert!(tok.train(&[], 5).is_err());
    assert!(tok.decode(&[9999]).is_err());
}

#[test]
fn new_tokenizer_knows_only_unk() {
    let tok = BpeTokenizer::new();
    assert_eq!(tok.vocab_size(), 1);
    assert_eq!(tok.num_merges(), 0);
    assert_eq!(tok.unk_id(), 0);
    assert_eq!(tok.vocab_strings(), vec!["<unk>".to_string()]);
    let d = BpeTokenizer::default();
    assert_eq!(d.vocab_size(), 1);
    // Every character is unknown before training.
    assert_eq!(tok.encode("ab c"), vec![0, 0, 0, 0, 0]);
}

#[test]
fn vocabulary_layout_after_training() {
    let mut tok = BpeTokenizer::new();
    tok.train(&["ab ab", "ba"], 2).unwrap();
    let vocab = tok.vocab_strings();
    // <unk>, </w>, sorted alphabet, then one entry per merge.
    assert_eq!(&vocab[..4], &["<unk>", "</w>", "a", "b"]);
    assert_eq!(vocab.len(), 4 + tok.num_merges());
    // Pairs: (a,b) x2, (b,</w>) x2, (b,a) x1, (a,</w>) x1.
    // (a,b) and (b,</w>) tie on count; "a" < "b" so (a,b) merges first.
    let merges = tok.merge_strings();
    assert_eq!(merges[0], ("a".to_string(), "b".to_string()));
    assert_eq!(vocab[4], "ab");
    // Then "ab</w>" occurs twice.
    assert_eq!(merges[1], ("ab".to_string(), "</w>".to_string()));
    assert_eq!(vocab[5], "ab</w>");
    assert_eq!(tok.encode("ab"), vec![5]);
    assert_eq!(tok.encode("ba"), vec![3, 2, 1]);
}

#[test]
fn training_stops_when_nothing_merges() {
    let mut tok = BpeTokenizer::new();
    tok.train(&["a"], 10).unwrap();
    // The only word is [a, </w>]; one merge joins it, then nothing is left.
    assert_eq!(tok.num_merges(), 1);
    assert_eq!(tok.vocab_strings(), vec!["<unk>", "</w>", "a", "a</w>"]);
}

#[test]
fn blank_corpus_has_no_words() {
    let mut tok = BpeTokenizer::new();
    let err = tok.train(&["   ", "\t"], 5).unwrap_err();
    assert_eq!(err.to_string(), "empty input: bpe train found no words");
    assert_eq!(tok.vocab_size(), 1);
    let err = tok.train(&[], 5).unwrap_err();
    assert_eq!(err.to_string(), "empty input: bpe train got empty corpus");
}

#[test]
fn decode_reports_first_bad_id() {
    let mut tok = BpeTokenizer::new();
    tok.train(&corpus(), 5).unwrap();
    let n = tok.vocab_size();
    match tok.decode(&[2, 9999, 12345]) {
        Err(AetherError::Vocab(m)) => assert_eq!(m, format!("token id 9999 out of vocab {n}")),
        other => panic!("unexpected {other:?}"),
    }
}

#[test]
fn decode_skips_unk_and_normalises_spaces() {
    let mut tok = BpeTokenizer::new();
    tok.train(&corpus(), 20).unwrap();
    let ids = tok.encode("  hello \t  world  ");
    assert_eq!(tok.decode(&ids).unwrap(), "hello world");
    let ids = tok.encode("hezzo");
    assert_eq!(tok.decode(&ids).unwrap(), "heo");
    assert_eq!(tok.decode(&[]).unwrap(), "");
}

#[test]
fn parts_roundtrip_preserves_encoding() {
    let mut tok = BpeTokenizer::new();
    tok.train(&corpus(), 12).unwrap();
    let back = BpeTokenizer::from_parts(tok.vocab_strings(), tok.merge_strings());
    assert_eq!(back.encode("hello world"), tok.encode("hello world"));
    assert_eq!(back.vocab_size(), tok.vocab_size());
    assert_eq!(back.num_merges(), tok.num_merges());
    assert_eq!(back.unk_id(), 0);
}

#[test]
fn unicode_text_roundtrips() {
    let mut tok = BpeTokenizer::new();
    tok.train(&["héllo wörld", "héllo"], 8).unwrap();
    let ids = tok.encode("wörld héllo");
    assert_eq!(tok.decode(&ids).unwrap(), "wörld héllo");
    // U+3000 ideographic space separates words too.
    let ids = tok.encode("héllo\u{3000}wörld");
    assert_eq!(tok.decode(&ids).unwrap(), "héllo wörld");
}

#[test]
fn markup_characters_roundtrip_unless_a_word_holds_the_end_marker() {
    let corpus = vec!["a<b x>y </p> w/", "<unk> a</w>b"];
    let mut tok = BpeTokenizer::new();
    tok.train(&corpus, 0).unwrap();
    // No merges: every word is its characters, none of them `<unk>`.
    for text in ["a<b", "x>y </p>", "</w w>", "<unk>"] {
        assert_eq!(tok.decode(&tok.encode(text)).unwrap(), text);
    }
    // A word holding the end-of-word marker is split at it.
    assert_eq!(tok.decode(&tok.encode("a</w>b")).unwrap(), "a b");
}

#[test]
fn a_learned_unk_piece_is_dropped_from_decoding() {
    let corpus = vec!["<unk> <unk> <unk>"];
    let mut tok = BpeTokenizer::new();
    // Merges `<u`, `<un`, `<unk`, `<unk>`: the word becomes the pieces
    // `<unk>` and `</w>`, and the first reads as the unknown token.
    tok.train(&corpus, 4).unwrap();
    assert_eq!(tok.num_merges(), 4);
    let ids = tok.encode("<unk>");
    assert_eq!(ids, vec![10, 1]);
    assert_eq!(tok.decode(&ids).unwrap(), "");
    // One merge more joins the marker too, and the word comes back.
    let mut tok = BpeTokenizer::new();
    tok.train(&corpus, 5).unwrap();
    assert_eq!(tok.decode(&tok.encode("<unk>")).unwrap(), "<unk>");
}

#[test]
fn words_encode_independently() {
    let mut tok = BpeTokenizer::new();
    tok.train(&corpus(), 20).unwrap();
    let s = "hello wor";
    let t = "there  worlds";
    let mut both = tok.encode(s);
    both.extend(tok.encode(t));
    assert_eq!(tok.encode(&format!("{s} {t}")), both);
    assert_eq!(tok.encode(&format!("{s}\t{t}")), both);
}

#[test]
fn unknown_ids_are_dropped_from_decoding() {
    let mut tok = BpeTokenizer::new();
    tok.train(&corpus(), 20).unwrap();
    let ids = tok.encode("hello zz world");
    assert!(ids.contains(&tok.unk_id()));
    let kept: Vec<usize> = ids.iter().copied().filter(|&i| i != tok.unk_id()).collect();
    assert_eq!(tok.decode(&ids).unwrap(), tok.decode(&kept).unwrap());
    // The unknown word's end marker stays, so two spaces remain.
    assert_eq!(tok.decode(&ids).unwrap(), "hello  world");
}

#[test]
fn layout_holds_over_new_and_train() {
    let mut tok = BpeTokenizer::new();
    assert_eq!((tok.vocab_size(), tok.unk_id()), (1, 0));
    assert!(tok.train(&[], 5).is_err());
    assert_eq!((tok.vocab_size(), tok.num_merges(), tok.unk_id()), (1, 0, 0));
    tok.train(&["ab ab"], 5).unwrap();
    assert!(tok.vocab_size() >= 3 + tok.num_merges());
    assert!(tok.train(&["   "], 5).is_err());
    assert!(tok.vocab_size() >= 3 + tok.num_merges());
    assert_eq!(tok.unk_id(), 0);
    assert_eq!(tok.vocab_strings()[0], "<unk>");
}
