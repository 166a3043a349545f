use ryazon::chain::MarkovChain;
use ryazon::corpus::{corpus_texts, CorpusDoc, CorpusItem};
use ryazon::errors::RyazonError;
use ryazon::options::{
    GenerationOptions, RyazonArgs, TrainingOptions, DEFAULT_ITERATIONS, DEFAULT_MAX_WORDS,
    DEFAULT_MIN_WORDS, DEFAULT_ORDER,
};

fn topts(order: u8) -> TrainingOptions {
    TrainingOptions {
        order,
        path: String::new(),
        remove_urls: false,
        remove_punctuation: false,
        add_punctuation: None,
    }
}

fn state(words: &[&str]) -> Vec<String> {
    words.iter().map(|w| w.to_string()).collect()
}

#[test]
fn training_builds_nonempty_table() {
    let mut chain = MarkovChain::new(topts(2));
    assert!(chain.is_empty());
    chain.train(&vec!["the quick brown fox jumps".to_string()], &topts(2));
    assert!(!chain.is_empty());
}

#[test]
fn every_state_has_order_words() {
    let mut chain = MarkovChain::new(topts(2));
    chain.train(&vec!["a b c a b d".to_string()], &topts(2));
    let states = chain.all_states();
    assert!(!states.is_empty());
    for st in states.iter() {
        assert_eq!(st.len(), 2);
    }
}

#[test]
fn too_short_corpus_trains_nothing() {
    let mut chain = MarkovChain::new(topts(2));
    chain.train(&vec!["a b".to_string()], &topts(2));
    assert!(chain.is_empty());
}

#[test]
fn counts_are_exact_observation_counts() {
    let mut chain = MarkovChain::new(topts(2));
    // Tokens become `a b c a b d.` (a period closes the stream), so the
    // windows are (a b)->c, (b c)->a, (c a)->b, (a b)->d.
    chain.train(&vec!["a b c a b d".to_string()], &topts(2));
    let dist = chain.lookup(&state(&["a", "b"])).expect("state (a b) recorded");
    let total: usize = dist.iter().map(|wc| wc.count).sum();
    assert_eq!(total, 2);
    for wc in dist.iter() {
        assert!(wc.word == "c" || wc.word == "d.");
        assert_eq!(wc.count, 1);
    }
    let dist_bc = chain.lookup(&state(&["b", "c"])).expect("state (b c) recorded");
    assert_eq!(dist_bc.len(), 1);
    assert_eq!(dist_bc[0].word, "a");
    assert_eq!(dist_bc[0].count, 1);
    assert!(chain.lookup(&state(&["x", "y"])).is_none());
    assert_eq!(chain.all_states().len(), 3);
}

#[test]
fn repeated_windows_increment_counts() {
    let mut chain = MarkovChain::new(topts(1));
    chain.add_text("x a x a x b");
    // Windows of order 1: (x)->a, (a)->x, (x)->a, (a)->x, (x)->b.
    // The final token gains a period: b -> b.
    let dist = chain.lookup(&state(&["x"])).expect("state (x) recorded");
    let mut count_a = 0;
    let mut count_b = 0;
    for wc in dist.iter() {
        if wc.word == "a" {
            count_a = wc.count;
        }
        if wc.word == "b." {
            count_b = wc.count;
        }
    }
    assert_eq!(count_a, 2);
    assert_eq!(count_b, 1);
}

#[test]
fn record_creates_and_increments() {
    let mut chain = MarkovChain::new(topts(1));
    chain.record(state(&["x"]), "a".to_string());
    chain.record(state(&["x"]), "a".to_string());
    chain.record(state(&["x"]), "b".to_string());
    let dist = chain.lookup(&state(&["x"])).expect("state (x) recorded");
    let total: usize = dist.iter().map(|wc| wc.count).sum();
    assert_eq!(total, 3);
}

#[test]
fn training_lowercases_tokens() {
    let mut chain = MarkovChain::new(topts(2));
    chain.train(&vec!["A B C A B C".to_string()], &topts(2));
    assert!(chain.lookup(&state(&["a", "b"])).is_some());
    assert!(chain.lookup(&state(&["A", "B"])).is_none());
}

#[test]
fn remove_urls_drops_links() {
    let mut opts = topts(2);
    opts.remove_urls = true;
    let mut chain = MarkovChain::new(opts.clone());
    chain.train(
        &vec!["go http://example.com now and www.site.org later".to_string()],
        &opts,
    );
    // After the filter the stream is `go now and later.`
    assert!(chain.lookup(&state(&["go", "now"])).is_some());
    assert!(chain.lookup(&state(&["now", "and"])).is_some());
}

#[test]
fn remove_punctuation_strips_tokens() {
    let mut opts = topts(2);
    opts.remove_punctuation = true;
    let mut chain = MarkovChain::new(opts.clone());
    chain.train(&vec!["Hello, world! yes".to_string()], &opts);
    // After stripping, the stream is `hello world yes.`
    let dist = chain.lookup(&state(&["hello", "world"])).expect("stripped state");
    assert_eq!(dist[0].word, "yes.");
}

#[test]
fn add_punctuation_closes_each_text() {
    let mut opts = topts(2);
    opts.add_punctuation = Some("!".to_string());
    let mut chain = MarkovChain::new(opts.clone());
    chain.train(&vec!["a b c".to_string()], &opts);
    let dist = chain.lookup(&state(&["a", "b"])).expect("state (a b)");
    assert_eq!(dist[0].word, "c!");
    assert_eq!(dist[0].count, 1);
}

#[test]
fn add_punctuation_skips_text_emptied_by_url_filter() {
    let mut opts = topts(2);
    opts.remove_urls = true;
    opts.add_punctuation = Some("!".to_string());
    let mut chain = MarkovChain::new(opts.clone());
    // The first text consists of links only, so after filtering there
    // is no last word to punctuate; the text contributes nothing.
    chain.train(
        &vec!["http://a.com www.b.org".to_string(), "x y z".to_string()],
        &opts,
    );
    let dist = chain.lookup(&state(&["x", "y"])).expect("second text trained");
    assert_eq!(dist[0].word, "z!");
}

#[test]
fn add_punctuation_skips_word_emptied_by_punctuation_strip() {
    let mut opts = topts(1);
    opts.remove_punctuation = true;
    opts.add_punctuation = Some("!".to_string());
    let mut chain = MarkovChain::new(opts.clone());
    // The last token is pure punctuation and strips to an empty word,
    // so there is no final character to inspect; nothing is appended
    // and the stream is `ab cd <empty>`, which re-tokenizes as `ab cd.`.
    chain.train(&vec!["ab cd !!".to_string()], &opts);
    let dist = chain.lookup(&state(&["ab"])).expect("state (ab) trained");
    assert_eq!(dist[0].word, "cd.");
}

#[test]
fn whitespace_only_texts_are_skipped() {
    let mut chain = MarkovChain::new(topts(2));
    chain.train(&vec!["   ".to_string(), "a b c".to_string()], &topts(2));
    assert!(chain.lookup(&state(&["a", "b"])).is_some());
}

#[test]
fn windows_span_text_boundaries() {
    let mut chain = MarkovChain::new(topts(2));
    chain.train(&vec!["a b".to_string(), "c d".to_string()], &topts(2));
    // The corpus is folded as one stream `a b c d.`, so a state window
    // crosses the boundary between the two texts.
    assert!(chain.lookup(&state(&["b", "c"])).is_some());
}

#[test]
fn corpus_single_text_resolves_to_singleton() {
    let r = corpus_texts(CorpusDoc::Text("x y".to_string())).expect("single text accepted");
    assert_eq!(r, vec!["x y".to_string()]);
}

#[test]
fn corpus_list_keeps_texts_in_order() {
    let doc = CorpusDoc::List(vec![
        CorpusItem::Text("one".to_string()),
        CorpusItem::Other,
        CorpusItem::Text("two".to_string()),
    ]);
    let r = corpus_texts(doc).expect("list accepted");
    assert_eq!(r, vec!["one".to_string(), "two".to_string()]);
}

#[test]
fn corpus_keyed_keeps_texts_in_order() {
    let doc = CorpusDoc::Keyed(vec![
        CorpusItem::Text("alpha".to_string()),
        CorpusItem::Text("beta".to_string()),
        CorpusItem::Other,
    ]);
    let r = corpus_texts(doc).expect("keyed accepted");
    assert_eq!(r, vec!["alpha".to_string(), "beta".to_string()]);
}

#[test]
fn corpus_unsupported_shape_is_rejected() {
    let r = corpus_texts(CorpusDoc::Unsupported);
    assert!(matches!(r, Err(RyazonError::IoError(_))));
}

#[test]
fn error_messages() {
    assert_eq!(RyazonError::NoPath.message(), "no path provided");
    assert_eq!(RyazonError::EmptyChain.message(), "the chain is empty");
    assert_eq!(
        RyazonError::MaxMinWords.message(),
        "max words must be greater than min words"
    );
    assert_eq!(
        RyazonError::TerminatorNotFound("oops".to_string()).message(),
        "terminator not found: oops"
    );
    assert_eq!(RyazonError::IoError("bad".to_string()).message(), "io error: bad");
}

#[test]
fn generation_options_new_keeps_fields() {
    let o = GenerationOptions::new(Some("s".to_string()), Some(".".to_string()), 7, 2, 4);
    assert_eq!(o.seed, Some("s".to_string()));
    assert_eq!(o.terminator, Some(".".to_string()));
    assert_eq!(o.max_words, 7);
    assert_eq!(o.min_words, 2);
    assert_eq!(o.iterations, 4);
}

#[test]
fn options_from_args_apply_defaults() {
    let args = RyazonArgs {
        texts_path: "corpus.json".to_string(),
        output_path: None,
        order: None,
        seed: Some("hello".to_string()),
        max_words: None,
        min_words: None,
        terminator: None,
        remove_urls: true,
        remove_punctuation: false,
        add_punctuation: None,
        iterations: None,
    };
    let t = TrainingOptions::from(args.clone());
    assert_eq!(t.order, DEFAULT_ORDER);
    assert_eq!(t.path, "corpus.json");
    assert!(t.remove_urls);
    let g = GenerationOptions::from(args);
    assert_eq!(g.seed, Some("hello".to_string()));
    assert_eq!(g.max_words, DEFAULT_MAX_WORDS);
    assert_eq!(g.min_words, DEFAULT_MIN_WORDS);
    assert_eq!(g.iterations, DEFAULT_ITERATIONS);
}

#[test]
fn options_from_args_keep_explicit_values() {
    let args = RyazonArgs {
        texts_path: "p".to_string(),
        output_path: Some("o".to_string()),
        order: Some(3),
        seed: None,
        max_words: Some(11),
        min_words: Some(4),
        terminator: Some(".".to_string()),
        remove_urls: false,
        remove_punctuation: true,
        add_punctuation: Some("!".to_string()),
        iterations: Some(9),
    };
    let t = TrainingOptions::from(args.clone());
    assert_eq!(t.order, 3);
    assert!(t.remove_punctuation);
    assert_eq!(t.add_punctuation, Some("!".to_string()));
    let g = GenerationOptions::from(args);
    assert_eq!(g.max_words, 11);
    assert_eq!(g.min_words, 4);
    assert_eq!(g.terminator, Some(".".to_string()));
    assert_eq!(g.iterations, 9);
}

#[test]
fn default_options() {
    let t = TrainingOptions::default();
    assert_eq!(t.order, DEFAULT_ORDER);
    assert!(t.remove_urls);
    assert!(!t.remove_punctuation);
    assert!(t.add_punctuation.is_none());
    let g = GenerationOptions::default();
    assert_eq!(g.seed, Some("default_seed".to_string()));
    assert!(g.terminator.is_none());
    assert_eq!(g.max_words, DEFAULT_MAX_WORDS);
    assert_eq!(g.min_words, DEFAULT_MIN_WORDS);
    assert_eq!(g.iterations, DEFAULT_ITERATIONS);
}
