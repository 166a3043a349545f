use ryazon::chain::{pick_weighted, MarkovChain, WordCount};
use ryazon::errors::{RyazonError, RyazonOutput};
use ryazon::options::{GenerationOptions, TrainingOptions, TERMINATOR_RETRY_LIMIT};

fn topts(order: u8) -> TrainingOptions {
    TrainingOptions {
        order,
        path: String::new(),
        remove_urls: false,
        remove_punctuation: false,
        add_punctuation: None,
    }
}

fn gopts(
    seed: Option<&str>,
    terminator: Option<&str>,
    max_words: usize,
    min_words: usize,
    iterations: u16,
) -> GenerationOptions {
    GenerationOptions::new(
        seed.map(|s| s.to_string()),
        terminator.map(|s| s.to_string()),
        max_words,
        min_words,
        iterations,
    )
}

fn state(words: &[&str]) -> Vec<String> {
    words.iter().map(|w| w.to_string()).collect()
}

#[test]
fn empty_chain_generation_fails() {
    let mut chain = MarkovChain::new(topts(2));
    chain.train(&vec!["".to_string()], &topts(2));
    assert!(chain.is_empty());
    let r = chain.generate(&gopts(None, None, 20, 1, 1));
    assert!(matches!(r, Err(RyazonError::EmptyChain)));
}

#[test]
fn empty_chain_run_records_empty_chain_errors() {
    let chain = MarkovChain::new(topts(2));
    let out = chain.run(&gopts(None, None, 20, 1, 2)).expect("bounds valid");
    assert_eq!(out.len(), 2);
    for o in out.iter() {
        assert!(matches!(o, RyazonOutput::Error(RyazonError::EmptyChain)));
    }
}

#[test]
fn generation_without_terminator_succeeds_within_bounds() {
    let mut chain = MarkovChain::new(topts(2));
    chain.train(&vec!["a b a b a b a".to_string()], &topts(2));
    for _ in 0..50 {
        let text = chain.generate(&gopts(None, None, 10, 1, 1)).expect("no terminator required");
        let n = text.split_whitespace().count();
        assert!(2 <= n && n <= 10, "length {} out of bounds in {:?}", n, text);
    }
}

#[test]
fn generated_words_follow_recorded_transitions() {
    let mut chain = MarkovChain::new(topts(1));
    chain.train(&vec!["a b c a b c".to_string()], &topts(1));
    for _ in 0..50 {
        let text = chain.generate(&gopts(None, None, 8, 1, 1)).expect("no terminator required");
        let words: Vec<&str> = text.split_whitespace().collect();
        for pair in words.windows(2) {
            let dist = chain
                .lookup(&state(&[pair[0]]))
                .expect("every generated word is a recorded state here");
            assert!(
                dist.iter().any(|wc| wc.word == pair[1]),
                "transition {:?} -> {:?} was never recorded",
                pair[0],
                pair[1]
            );
        }
    }
}

#[test]
fn satisfiable_terminator_is_reached() {
    let mut chain = MarkovChain::new(topts(2));
    chain.train(&vec!["a b c. a b d. a b c.".to_string()], &topts(2));
    let text = chain
        .generate_with_retry(&gopts(None, Some("."), 20, 1, 1))
        .expect("every third word ends the sentence");
    let last = text.split_whitespace().last().expect("result non-empty");
    assert!(last.ends_with('.'), "last word {:?} lacks terminator", last);
}

#[test]
fn unreachable_terminator_fails_after_retries() {
    let mut chain = MarkovChain::new(topts(2));
    chain.train(&vec!["a b c a b c".to_string()], &topts(2));
    let r = chain.generate_with_retry(&gopts(None, Some("z"), 10, 1, 1));
    match r {
        Err(RyazonError::TerminatorNotFound(msg)) => {
            assert_eq!(msg, "terminator 'z' not found in generated text");
        }
        other => panic!("expected a terminator failure, got {:?}", other),
    }
}

#[test]
fn unreachable_terminator_uses_every_retry() {
    let mut chain = MarkovChain::new(topts(2));
    chain.train(&vec!["a b c a b c".to_string()], &topts(2));
    let (r, attempts) = chain.generate_counting_retries(&gopts(None, Some("z"), 10, 1, 1));
    assert!(matches!(r, Err(RyazonError::TerminatorNotFound(_))));
    assert_eq!(attempts, TERMINATOR_RETRY_LIMIT);
}

#[test]
fn max_below_min_is_rejected_before_any_work() {
    let mut chain = MarkovChain::new(topts(2));
    chain.train(&vec!["a b c a b c".to_string()], &topts(2));
    let r = chain.run(&gopts(None, None, 1, 5, 1));
    assert!(matches!(r, Err(RyazonError::MaxMinWords)));
    // Rejected even on a chain that was never trained.
    let empty = MarkovChain::new(topts(2));
    let r2 = empty.run(&gopts(None, Some("."), 1, 5, 3));
    assert!(matches!(r2, Err(RyazonError::MaxMinWords)));
}

#[test]
fn seeding_is_case_insensitive() {
    let mut chain = MarkovChain::new(topts(2));
    chain.train(&vec!["The Cat sat".to_string()], &topts(2));
    let lower = chain.generate(&gopts(Some("the"), None, 10, 1, 1)).expect("seeded walk");
    let upper = chain.generate(&gopts(Some("THE"), None, 10, 1, 1)).expect("seeded walk");
    assert_eq!(lower, upper);
    assert!(lower.starts_with("the cat"));
}

#[test]
fn seed_matches_first_word_of_state() {
    let mut chain = MarkovChain::new(topts(2));
    chain.train(&vec!["red green blue red green yellow".to_string()], &topts(2));
    for _ in 0..20 {
        let text = chain.generate(&gopts(Some("red"), None, 10, 1, 1)).expect("seeded walk");
        assert!(text.starts_with("red "), "walk {:?} ignores the seed", text);
    }
}

#[test]
fn contained_seed_falls_back_to_containing_states() {
    let mut chain = MarkovChain::new(topts(2));
    // The states are (a b), (b c) and (c d); the word `d` starts no
    // state, so the seed falls back to the one state containing it.
    chain.train(&vec!["a b c d e".to_string()], &topts(2));
    let text = chain.generate(&gopts(Some("d"), None, 10, 1, 1)).expect("seeded walk");
    assert_eq!(text, "c d e.");
}

#[test]
fn unknown_seed_falls_back_to_random_state() {
    let mut chain = MarkovChain::new(topts(2));
    chain.train(&vec!["a b c a b c".to_string()], &topts(2));
    let r = chain.generate(&gopts(Some("missing"), None, 10, 1, 1));
    assert!(r.is_ok());
}

#[test]
fn multi_iteration_run_returns_one_result_per_iteration() {
    let mut chain = MarkovChain::new(topts(2));
    chain.train(&vec!["a b c a b c".to_string()], &topts(2));
    let out = chain.run(&gopts(None, None, 10, 1, 3)).expect("bounds valid");
    assert_eq!(out.len(), 3);
    for o in out.iter() {
        assert!(matches!(o, RyazonOutput::Success(_)));
    }
}

#[test]
fn weighted_sampling_follows_recorded_ratios() {
    let mut chain = MarkovChain::new(topts(1));
    chain.record(state(&["x"]), "a".to_string());
    chain.record(state(&["x"]), "a".to_string());
    chain.record(state(&["x"]), "a".to_string());
    chain.record(state(&["x"]), "b".to_string());
    let opts = gopts(None, None, 2, 1, 1);
    let mut count_a: u32 = 0;
    let mut count_b: u32 = 0;
    let trials: u32 = 4000;
    for _ in 0..trials {
        let text = chain.generate(&opts).expect("no terminator required");
        match text.as_str() {
            "x a" => count_a += 1,
            "x b" => count_b += 1,
            other => panic!("unexpected sample {:?}", other),
        }
    }
    // Expected split 3000 : 1000; allow a generous tolerance far beyond
    // any plausible random fluctuation.
    assert!(
        (2600..=3400).contains(&count_a),
        "count for the 3-weight word was {} of {}",
        count_a,
        trials
    );
    assert_eq!(count_a + count_b, trials);
}

#[test]
fn weighted_pick_is_exact_over_all_draws() {
    let dist = vec![
        WordCount { word: "a".to_string(), count: 3 },
        WordCount { word: "b".to_string(), count: 1 },
    ];
    // Enumerating every possible draw value shows the exact 3:1 split.
    let picks: Vec<String> = (0..4).map(|r| pick_weighted(&dist, r)).collect();
    assert_eq!(picks, vec!["a", "a", "a", "b"]);
}

#[test]
fn min_words_delays_terminator_check() {
    let mut chain = MarkovChain::new(topts(1));
    // Every transition ends a sentence, so the walk stops as soon as
    // the terminator check is allowed to fire.
    chain.record(state(&["a."]), "a.".to_string());
    let text = chain
        .generate_with_retry(&gopts(Some("a."), Some("."), 10, 4, 1))
        .expect("terminator reachable");
    let n = text.split_whitespace().count();
    assert!(n >= 4, "terminator honored before min_words in {:?}", text);
}
