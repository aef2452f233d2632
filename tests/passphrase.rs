use markov_passphrase::{
    clean_word, create_transition_matrix, generate, generate_passphrase, markov_chain,
    markov_chain_with_choices, tokenize, PassphraseError,
};

fn words(list: &[&str]) -> Vec<String> {
    list.iter().map(|w| w.to_string()).collect()
}

fn s(w: &str) -> String {
    w.to_string()
}

#[test]
fn clean_word_keeps_letters_in_lower_case() {
    assert_eq!(clean_word("Hello,"), "hello");
    assert_eq!(clean_word("don't"), "dont");
    assert_eq!(clean_word("MiXeD123Case"), "mixedcase");
}

#[test]
fn clean_word_drops_everything_else() {
    assert_eq!(clean_word("123!?"), "");
    assert_eq!(clean_word(""), "");
    assert_eq!(clean_word("Àbc é"), "bc");
}

#[test]
fn clean_word_is_idempotent() {
    for w in ["Hello,", "A-b-C", "42", "", "naïve", "UPPER"] {
        let once = clean_word(w);
        assert_eq!(clean_word(&once), once);
    }
}

#[test]
fn clean_word_output_is_lower_ascii() {
    let out = clean_word("Zebra-9 QUICK_fox!");
    assert_eq!(out, "zebraquickfox");
    assert!(out.chars().all(|c| c.is_ascii_lowercase()));
}

#[test]
fn tokenize_splits_on_white_space_and_keeps_empty_tokens() {
    let t = tokenize("  The cat\tsat,\n 42  on\u{a0}Mat ");
    assert_eq!(t, words(&["the", "cat", "sat", "", "on", "mat"]));
}

#[test]
fn tokenize_empty_and_blank_text() {
    assert!(tokenize("").is_empty());
    assert!(tokenize(" \t\n ").is_empty());
}

#[test]
fn model_of_concrete_scenario() {
    let model = create_transition_matrix(words(&["the", "cat", "sat", "on", "the", "mat"]));
    assert_eq!(model.len(), 4);
    assert_eq!(model.successors(&s("the"), &s("cat")), Some(&words(&["sat"])));
    assert_eq!(model.successors(&s("cat"), &s("sat")), Some(&words(&["on"])));
    assert_eq!(model.successors(&s("sat"), &s("on")), Some(&words(&["the"])));
    assert_eq!(model.successors(&s("on"), &s("the")), Some(&words(&["mat"])));
    assert_eq!(model.successors(&s("the"), &s("mat")), None);
    assert_eq!(model.successors(&s("cat"), &s("the")), None);
}

#[test]
fn model_keeps_duplicate_successors_in_order() {
    let model = create_transition_matrix(words(&["a", "b", "c", "a", "b", "d", "a", "b", "c"]));
    assert_eq!(model.successors(&s("a"), &s("b")), Some(&words(&["c", "d", "c"])));
    assert_eq!(model.len(), 5);
}

#[test]
fn model_records_every_window() {
    let corpus = words(&["x", "y", "x", "y", "z", "", "x", "y"]);
    let model = create_transition_matrix(corpus.clone());
    for k in 0..corpus.len() - 2 {
        let next = model.successors(&corpus[k], &corpus[k + 1]).expect("context recorded");
        assert!(next.contains(&corpus[k + 2]));
    }
    assert!(model.len() <= corpus.len() - 2);
}

#[test]
fn model_of_short_corpus_is_empty() {
    assert_eq!(create_transition_matrix(words(&[])).len(), 0);
    assert_eq!(create_transition_matrix(words(&["a", "b"])).len(), 0);
}

#[test]
fn model_of_three_tokens_has_one_context() {
    let model = create_transition_matrix(words(&["one", "two", "three"]));
    assert_eq!(model.len(), 1);
    assert_eq!(model.successors(&s("one"), &s("two")), Some(&words(&["three"])));
}

#[test]
fn walk_with_forced_choices_on_concrete_scenario() {
    let model = create_transition_matrix(words(&["the", "cat", "sat", "on", "the", "mat"]));
    let out = markov_chain_with_choices(&model, 4, s("cat"), s("sat"), &vec![0, 0, 0]);
    assert_eq!(out, words(&["sat", "on", "the", "mat"]));
}

#[test]
fn walk_stops_emitting_at_dead_end() {
    let model = create_transition_matrix(words(&["the", "cat", "sat", "on", "the", "mat"]));
    let out = markov_chain_with_choices(&model, 7, s("cat"), s("sat"), &vec![0; 6]);
    assert_eq!(out, words(&["sat", "on", "the", "mat"]));
}

#[test]
fn walk_choice_picks_successor_by_index() {
    let model = create_transition_matrix(words(&["a", "b", "c", "a", "b", "d"]));
    let first = markov_chain_with_choices(&model, 2, s("a"), s("b"), &vec![0]);
    let second = markov_chain_with_choices(&model, 2, s("a"), s("b"), &vec![1]);
    let wrapped = markov_chain_with_choices(&model, 2, s("a"), s("b"), &vec![3]);
    assert_eq!(first, words(&["b", "c"]));
    assert_eq!(second, words(&["b", "d"]));
    assert_eq!(wrapped, words(&["b", "d"]));
}

#[test]
fn walk_of_length_one_is_the_seed() {
    let model = create_transition_matrix(words(&["the", "cat", "sat", "on", "the", "mat"]));
    assert_eq!(markov_chain(&model, 1, s("cat"), s("sat")), words(&["sat"]));
    assert_eq!(markov_chain_with_choices(&model, 1, s("cat"), s("sat"), &vec![]), words(&["sat"]));
}

#[test]
fn random_walk_follows_the_only_path() {
    let model = create_transition_matrix(words(&["the", "cat", "sat", "on", "the", "mat"]));
    assert_eq!(markov_chain(&model, 4, s("cat"), s("sat")), words(&["sat", "on", "the", "mat"]));
    assert_eq!(markov_chain(&model, 9, s("cat"), s("sat")), words(&["sat", "on", "the", "mat"]));
}

#[test]
fn random_walk_emits_recorded_successors() {
    let corpus = words(&["a", "b", "c", "a", "b", "d", "b", "c", "a", "b", "c"]);
    let model = create_transition_matrix(corpus);
    for _ in 0..20 {
        let out = markov_chain(&model, 6, s("a"), s("b"));
        assert!(!out.is_empty() && out.len() <= 6);
        assert_eq!(out[0], "b");
        let mut prev = s("a");
        for j in 1..out.len() {
            let next = model.successors(&prev, &out[j - 1]).expect("recorded context");
            assert!(next.contains(&out[j]));
            prev = out[j - 1].clone();
        }
    }
}

#[test]
fn generate_rejects_zero_length() {
    let corpus = words(&["the", "cat", "sat", "on", "the", "mat"]);
    assert_eq!(generate_passphrase(corpus, 0), Err(PassphraseError::InvalidLength));
    assert_eq!(generate_passphrase(words(&["a"]), 0), Err(PassphraseError::InvalidLength));
}

#[test]
fn generate_rejects_short_corpus() {
    assert_eq!(generate_passphrase(words(&["the", "cat"]), 3), Err(PassphraseError::InsufficientCorpus));
    assert_eq!(generate_passphrase(words(&[]), 1), Err(PassphraseError::InsufficientCorpus));
}

#[test]
fn generate_on_three_tokens_starts_at_first_window() {
    let corpus = words(&["The", "cat!", "Sat"]);
    assert_eq!(generate_passphrase(corpus.clone(), 1), Ok(words(&["sat"])));
    assert_eq!(generate_passphrase(corpus, 3), Ok(words(&["sat"])));
}

#[test]
fn generate_normalizes_and_stays_in_bounds() {
    let corpus = words(&["The", "cat", "SAT", "on", "the", "mat."]);
    for _ in 0..20 {
        let out = generate_passphrase(corpus.clone(), 4).expect("valid input");
        assert!(!out.is_empty() && out.len() <= 4);
        let starts = [words(&["sat", "on", "the", "mat"]), words(&["on", "the", "mat"]), words(&["the", "mat"])];
        assert!(starts.contains(&out));
    }
}

#[test]
fn generate_from_model_reports_errors() {
    let corpus = words(&["the", "cat"]);
    let model = create_transition_matrix(corpus.clone());
    assert_eq!(generate(&model, &corpus, 2), Err(PassphraseError::InsufficientCorpus));
    assert_eq!(generate(&model, &corpus, 0), Err(PassphraseError::InvalidLength));
}

#[test]
fn generate_from_model_starts_before_last_three() {
    let corpus = words(&["a", "b", "c", "d", "e", "f", "g"]);
    let model = create_transition_matrix(corpus.clone());
    for _ in 0..30 {
        let out = generate(&model, &corpus, 1).expect("valid input");
        assert_eq!(out.len(), 1);
        assert!(["c", "d", "e", "f"].contains(&out[0].as_str()));
    }
}

#[test]
fn generate_from_model_of_three_tokens() {
    let corpus = words(&["x", "y", "z"]);
    let model = create_transition_matrix(corpus.clone());
    assert_eq!(generate(&model, &corpus, 5), Ok(words(&["z"])));
}
