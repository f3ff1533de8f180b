use promptly::{
    corpus_text, decode_key, encode_key, load, preprocess_text, save, train_from_corpus,
    CorpusError, Interner, MarkovChain, ModelError, SavedModel, SavedState, Settings,
};

#[test]
fn interner_assigns_dense_ids_in_first_seen_order() {
    let mut interner = Interner::new();
    assert_eq!(interner.get_or_intern("cat"), 0);
    assert_eq!(interner.get_or_intern("dog"), 1);
    assert_eq!(interner.get_or_intern("cat"), 0);
    assert_eq!(interner.len(), 2);
    assert_eq!(interner.resolve(1), Some("dog"));
    assert_eq!(interner.resolve(2), None);
    assert_eq!(interner.lookup("dog"), Some(1));
    assert_eq!(interner.lookup("cow"), None);
}

#[test]
fn interner_handles_many_words() {
    let mut interner = Interner::new();
    for i in 0..500 {
        assert_eq!(interner.get_or_intern(&format!("w{i}")), i);
    }
    for i in 0..500 {
        assert_eq!(interner.lookup(&format!("w{i}")), Some(i));
    }
}

#[test]
fn key_codec_writes_decimal_joined_by_underscores() {
    assert_eq!(encode_key(&[1, 23, 456]), "1_23_456");
    assert_eq!(encode_key(&[0]), "0");
    assert_eq!(encode_key(&[]), "");
    assert_eq!(encode_key(&[usize::MAX, 10]), format!("{}_10", usize::MAX));
}

#[test]
fn key_codec_round_trips() {
    for key in [vec![0], vec![5, 0, 12], vec![usize::MAX, 1, 1000000], vec![9, 9, 9, 9]] {
        assert_eq!(decode_key(&encode_key(&key)), Some(key));
    }
}

#[test]
fn key_codec_rejects_malformed_text() {
    assert_eq!(decode_key(""), None);
    assert_eq!(decode_key("1__2"), None);
    assert_eq!(decode_key("_1"), None);
    assert_eq!(decode_key("1_"), None);
    assert_eq!(decode_key("a_1"), None);
    assert_eq!(decode_key("1 2"), None);
    assert_eq!(decode_key("-1"), None);
    assert_eq!(decode_key(&format!("{}0", usize::MAX)), None);
    assert_eq!(decode_key("007_1"), Some(vec![7, 1]));
}

fn trained() -> MarkovChain {
    let mut chain = MarkovChain::new(2);
    chain.train("the cat sat on the mat the cat ran");
    chain
}

#[test]
fn saving_then_loading_gives_the_same_chain() {
    let chain = trained();
    let saved = save(&chain);
    assert_eq!(saved.order, 2);
    assert_eq!(saved.interner_words, vec!["the", "cat", "sat", "on", "mat", "ran"]);
    assert_eq!(saved.states.len(), chain.state_count());
    assert_eq!(saved.states[0].key, "0_1");
    let loaded = load(&saved).unwrap();
    assert_eq!(loaded.order(), chain.order());
    assert_eq!(loaded.interner().words(), chain.interner().words());
    assert_eq!(loaded.state_count(), chain.state_count());
    for i in 0..chain.state_count() {
        let (k1, n1) = chain.row(i);
        let (k2, n2) = loaded.row(i);
        assert_eq!(k1, k2);
        assert_eq!(n1.next_words(), n2.next_words());
        assert_eq!(n1.counts(), n2.counts());
        assert_eq!(n1.cumulative(), n2.cumulative());
    }
}

fn model(order: usize, words: &[&str], states: Vec<(&str, Vec<usize>, Vec<usize>)>) -> SavedModel {
    SavedModel {
        order,
        interner_words: words.iter().map(|w| w.to_string()).collect(),
        states: states
            .into_iter()
            .map(|(key, next_words, counts)| SavedState { key: key.to_string(), next_words, counts })
            .collect(),
    }
}

#[test]
fn loading_recomputes_running_totals() {
    let m = model(1, &["a", "b", "c"], vec![("0", vec![1, 2], vec![3, 2]), ("1", vec![0], vec![1])]);
    let chain = load(&m).unwrap();
    let (key, node) = chain.row(0);
    assert_eq!(key, &vec![0]);
    assert_eq!(node.cumulative(), &vec![3, 5]);
    assert_eq!(chain.transition_weight(&[0], 2), Some((2, 5)));
}

#[test]
fn loading_rejects_malformed_models() {
    let bad = [
        model(0, &["a"], vec![]),
        model(1, &["a", "a"], vec![]),
        model(1, &["a", "b"], vec![("x", vec![1], vec![1])]),
        model(1, &["a", "b"], vec![("0_1", vec![1], vec![1])]),
        model(1, &["a", "b"], vec![("5", vec![1], vec![1])]),
        model(1, &["a", "b"], vec![("0", vec![1], vec![1]), ("00", vec![1], vec![1])]),
        model(1, &["a", "b"], vec![("0", vec![1, 0], vec![1])]),
        model(1, &["a", "b"], vec![("0", vec![1], vec![0])]),
        model(1, &["a", "b"], vec![("0", vec![1, 1], vec![1, 1])]),
        model(1, &["a", "b"], vec![("0", vec![7], vec![1])]),
        model(1, &["a", "b"], vec![("0", vec![0, 1], vec![usize::MAX, 1])]),
    ];
    for m in bad.iter() {
        assert_eq!(load(m).err(), Some(ModelError::InvalidFormat));
    }
    assert!(load(&model(2, &["a"], vec![])).is_ok());
}

#[test]
fn preprocessing_normalises_text() {
    assert_eq!(
        preprocess_text("Hello, World!  It's a WELL-known\tfact.\n"),
        "hello world it's a well-known fact"
    );
    assert_eq!(preprocess_text("   "), "");
    assert_eq!(preprocess_text("ÀB Ç"), "àb ç");
}

#[test]
fn corpus_bytes_must_be_utf8() {
    assert_eq!(corpus_text(b"some text".to_vec()), Ok("some text".to_string()));
    assert_eq!(corpus_text(vec![0xff, 0xfe]), Err(CorpusError::InvalidEncoding));
}

#[test]
fn training_from_corpus_text_normalises_first() {
    let chain = train_from_corpus("A b. A, c!", 1);
    assert_eq!(chain.order(), 1);
    assert_eq!(chain.interner().words(), &vec!["a".to_string(), "b".to_string(), "c".to_string()]);
    assert_eq!(chain.transition_weight(&[0], 1), Some((1, 2)));
    assert_eq!(chain.transition_weight(&[0], 2), Some((1, 2)));
}

#[test]
fn default_settings() {
    let s = Settings::default();
    assert_eq!(s.defaults.order, 2);
    assert_eq!(s.defaults.max_words, 100);
    assert_eq!(s.defaults.corpus, "corpora/default.txt");
    assert!(s.model.auto_save);
    assert!(!s.model.compression);
    assert_eq!(s.model.format, "json");
    assert_eq!(s.logging.level, "info");
    assert_eq!(s.logging.file, None);
}

#[test]
fn whitespace_matches_std_for_every_char() {
    for u in 0..=0x10FFFFu32 {
        if let Some(c) = char::from_u32(u) {
            assert_eq!(promptly::text::char_is_space(c), c.is_whitespace(), "at U+{u:04X}");
        }
    }
}

#[test]
fn splitting_and_joining_words() {
    let words = promptly::text::split_words("  alpha\u{3000}beta\n\tgamma  ");
    assert_eq!(words, vec!["alpha", "beta", "gamma"]);
    assert_eq!(promptly::text::join_words(&words), "alpha beta gamma");
    assert!(promptly::text::split_words(" \u{85} ").is_empty());
}
