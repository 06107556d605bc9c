use bpe_vocab::vocab::Vocab;
use bpe_vocab::tokenizer::Tokenizer;

fn syms(s: &str) -> Vec<u32> {
    s.chars().map(|c| c as u32).collect()
}

fn tok_str(t: &[u32]) -> String {
    t.iter().map(|&c| char::from_u32(c).unwrap()).collect()
}

fn spans_to_string(word: &[u32], spans: &[(usize, usize)]) -> String {
    spans
        .iter()
        .map(|&(a, b)| tok_str(&word[a..b]))
        .collect::<Vec<_>>()
        .join(" ")
}

fn concat_spans(word: &[u32], spans: &[(usize, usize)]) -> Vec<u32> {
    let mut out = Vec::new();
    for &(a, b) in spans {
        out.extend_from_slice(&word[a..b]);
    }
    out
}

fn trained(corpus: &[&str], rounds: usize, min_freq: usize) -> Vocab {
    let mut vocab = Vocab::new(corpus.iter().map(|w| syms(w)).collect());
    for _ in 0..rounds {
        let _ = vocab.merge(min_freq);
    }
    vocab
}

fn token_strings(vocab: &Vocab) -> Vec<String> {
    vocab.tokens().iter().map(|t| tok_str(t)).collect()
}

#[test]
fn case01() {
    let data = syms("ABCDCDABCDCDE");
    let mut vocab = Vocab::new(vec![data.clone()]);
    for _ in 0..4 {
        let _ = vocab.merge(1);
    }

    let tokenizer = vocab.build();

    let spans = tokenizer.tokenize(&data);
    let tokenized = spans_to_string(&data, &spans);
    assert_eq!(concat_spans(&data, &spans), data);
    assert_eq!(tokenized, "ABCD CD ABCD CD E");
}

#[test]
fn seed_round_admits_unigrams() {
    let vocab = trained(&["ABCA", "CBD"], 1, 1);
    // Every distinct symbol, in order of first occurrence, exactly once.
    assert_eq!(token_strings(&vocab), vec!["A", "B", "C", "D"]);
}

#[test]
fn seed_round_fails_on_empty_corpus() {
    let mut vocab = Vocab::new(vec![]);
    assert_eq!(vocab.merge(1), Err(()));
    assert!(vocab.tokens().is_empty());
}

#[test]
fn empty_words_are_dropped() {
    let vocab = trained(&["", "AB", ""], 1, 1);
    assert_eq!(token_strings(&vocab), vec!["A", "B"]);
}

#[test]
fn merge_fails_below_min_freq() {
    // After seeding, every pair of "ABC" occurs once; min_freq 2 stops.
    let mut vocab = Vocab::new(vec![syms("ABC")]);
    assert_eq!(vocab.merge(2), Ok(())); // seed round always succeeds
    assert_eq!(vocab.merge(2), Err(()));
    assert_eq!(token_strings(&vocab), vec!["A", "B", "C"]);
}

#[test]
fn concrete_scenario_rounds() {
    let word = "ABCDCDABCDCDE";
    // Round 1 (seed): the five distinct symbols.
    let v1 = trained(&[word], 1, 1);
    assert_eq!(token_strings(&v1), vec!["A", "B", "C", "D", "E"]);
    // Round 2: (C, D) is the unique maximum with frequency 4.
    let v2 = trained(&[word], 2, 1);
    assert_eq!(token_strings(&v2), vec!["A", "B", "C", "D", "E", "CD"]);
    // Round 3: (A,B), (B,CD) and (CD,CD) tie at frequency 2; the
    // lexicographically smallest concatenation "AB" wins.
    let v3 = trained(&[word], 3, 1);
    assert_eq!(token_strings(&v3), vec!["A", "B", "C", "D", "E", "CD", "AB"]);
    // Round 4: (AB,CD) and (CD,CD) tie at 2; "ABCD" < "CDCD".
    let v4 = trained(&[word], 4, 1);
    assert_eq!(
        token_strings(&v4),
        vec!["A", "B", "C", "D", "E", "CD", "AB", "ABCD"],
    );
    // Tokenizing the original word reproduces it exactly.
    let tokenizer = v4.build();
    let data = syms(word);
    let spans = tokenizer.tokenize(&data);
    assert_eq!(concat_spans(&data, &spans), data);
    assert_eq!(spans, vec![(0, 4), (4, 6), (6, 10), (10, 12), (12, 13)]);
}

#[test]
fn vocabulary_growth_is_monotonic() {
    let word = "ABCDCDABCDCDE";
    let mut vocab = Vocab::new(vec![syms(word)]);
    assert_eq!(vocab.merge(1), Ok(()));
    let distinct = vocab.tokens().len();
    assert_eq!(distinct, 5);
    let mut previous = token_strings(&vocab);
    for k in 1..=3 {
        assert_eq!(vocab.merge(1), Ok(()));
        let now = token_strings(&vocab);
        // Exactly one token is gained per successful round, and the
        // earlier tokens stay, in place.
        assert_eq!(now.len(), distinct + k);
        assert_eq!(&now[..previous.len()], &previous[..]);
        previous = now;
    }
}

#[test]
fn training_is_deterministic() {
    let corpus = ["ABABAB", "BABA", "ABBA"];
    let a = trained(&corpus, 5, 1);
    let b = trained(&corpus, 5, 1);
    assert_eq!(token_strings(&a), token_strings(&b));
    let ta = a.build();
    let tb = b.build();
    let probe = syms("ABBABAB");
    assert_eq!(ta.tokenize(&probe), tb.tokenize(&probe));
}

#[test]
fn tokenize_is_lossless() {
    let vocab = trained(&["ABCDCDABCDCDE"], 4, 1);
    let tokenizer = vocab.build();
    for input in ["", "A", "ABCD", "DCBA", "XYZXYZ", "ABCDCDABCDCDEABCD"] {
        let data = syms(input);
        let spans = tokenizer.tokenize(&data);
        assert_eq!(concat_spans(&data, &spans), data);
    }
}

#[test]
fn retokenization_is_idempotent() {
    let vocab = trained(&["ABCDCDABCDCDE"], 4, 1);
    let tokenizer = vocab.build();
    let data = syms("CDABXCDE");
    let spans = tokenizer.tokenize(&data);
    let rebuilt = concat_spans(&data, &spans);
    let again = tokenizer.tokenize(&rebuilt);
    assert_eq!(again, spans);
}

#[test]
fn unseen_symbol_becomes_unit_span() {
    // Trained without 'Z'; tokenizing a word holding 'Z' must not fail
    // and must emit 'Z' as a span of length 1.
    let vocab = trained(&["ABAB"], 3, 1);
    let tokenizer = vocab.build();
    let data = syms("ABZAB");
    let spans = tokenizer.tokenize(&data);
    assert_eq!(concat_spans(&data, &spans), data);
    assert!(spans.contains(&(2, 3)));
    assert_eq!(spans_to_string(&data, &spans), "AB Z AB");
}

#[test]
fn snapshot_is_independent_of_later_training() {
    let word = "ABCDCDABCDCDE";
    let mut vocab = Vocab::new(vec![syms(word)]);
    let _ = vocab.merge(1);
    let _ = vocab.merge(1);
    let snapshot: Tokenizer = vocab.build();
    let data = syms(word);
    let before = snapshot.tokenize(&data);
    // Further merges must not change what the earlier snapshot does.
    let _ = vocab.merge(1);
    let _ = vocab.merge(1);
    let after = snapshot.tokenize(&data);
    assert_eq!(before, after);
    // The new snapshot does segment differently.
    let newer = vocab.build();
    assert_ne!(newer.tokenize(&data), before);
}

#[test]
fn tokens_view_matches_vocabulary() {
    let vocab = trained(&["AAB"], 2, 1);
    let tokens = vocab.tokens();
    assert_eq!(tokens.len(), 3);
    assert_eq!(tok_str(&tokens[2]), "AA");
}

#[test]
fn corpus_size_counts_symbols() {
    let vocab = Vocab::new(vec![syms("ABCD"), syms(""), syms("EF")]);
    assert_eq!(vocab.corpus_size(), Some(6));
}
