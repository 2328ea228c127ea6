use speedys_markov_chain::chain::CompletionStep;
use speedys_markov_chain::{join_words, ChainError, MarkovChain, SavedChain};

fn strings(words: &[&str]) -> Vec<String> {
    words.iter().map(|w| w.to_string()).collect()
}

fn row<'a>(chain: &'a MarkovChain, state: &[&str]) -> Option<&'a Vec<String>> {
    let key = strings(state);
    chain.state_map.iter().find(|t| t.state == key).map(|t| &t.successors)
}

fn cat_dog_chain(seed: u64) -> MarkovChain {
    let mut chain = MarkovChain::with_seed(seed);
    chain.train(strings(&["The cat sat.", "The dog ran."]), 1).unwrap();
    chain
}

#[test]
fn train_builds_the_expected_table() {
    let chain = cat_dog_chain(1);
    assert_eq!(chain.state_map.len(), 3);
    assert_eq!(row(&chain, &["The"]), Some(&strings(&["cat", "dog"])));
    assert_eq!(row(&chain, &["cat"]), Some(&strings(&["sat."])));
    assert_eq!(row(&chain, &["dog"]), Some(&strings(&["ran."])));
    assert_eq!(row(&chain, &["sat."]), None);
    assert_eq!(chain.state_size(), 1);
}

#[test]
fn start_states_are_the_capitalised_ones() {
    let chain = cat_dog_chain(2);
    assert_eq!(chain.start_states(), vec![strings(&["The"])]);
}

#[test]
fn generate_three_starts_at_the_capitalised_state() {
    for seed in 0..20u64 {
        let mut chain = cat_dog_chain(seed);
        let out = chain.generate(3).unwrap();
        let words: Vec<&str> = out.split(' ').collect();
        assert_eq!(words.len(), 3);
        assert_eq!(words[0], "The");
        assert!(words[1] == "cat" || words[1] == "dog");
    }
}

#[test]
fn generate_draws_both_successors_over_many_seeds() {
    let mut seen_cat = false;
    let mut seen_dog = false;
    for seed in 0..64u64 {
        let mut chain = cat_dog_chain(seed);
        let out = chain.generate(2).unwrap();
        if out == "The cat" {
            seen_cat = true;
        }
        if out == "The dog" {
            seen_dog = true;
        }
    }
    assert!(seen_cat && seen_dog);
}

#[test]
fn advance_on_unknown_state_has_no_successor() {
    let mut chain = cat_dog_chain(3);
    assert_eq!(chain.advance(&strings(&["sat."])), None);
}

#[test]
fn advance_returns_a_recorded_successor() {
    for seed in 0..20u64 {
        let mut chain = cat_dog_chain(seed);
        let next = chain.advance(&strings(&["The"])).unwrap();
        assert!(next == "cat" || next == "dog");
        assert_eq!(chain.advance(&strings(&["cat"])), Some("sat.".to_string()));
    }
}

#[test]
fn successor_at_indexes_the_recorded_list() {
    let chain = cat_dog_chain(4);
    assert_eq!(chain.successor_at(&strings(&["The"]), 0), Some("cat".to_string()));
    assert_eq!(chain.successor_at(&strings(&["The"]), 1), Some("dog".to_string()));
    assert_eq!(chain.successor_at(&strings(&["The"]), 2), None);
    assert_eq!(chain.successor_at(&strings(&["cow"]), 0), None);
    assert_eq!(chain.successor_count(&strings(&["The"])), 2);
    assert_eq!(chain.successor_count(&strings(&["cow"])), 0);
}

#[test]
fn generate_zero_is_empty() {
    let mut chain = cat_dog_chain(5);
    assert_eq!(chain.generate(0), Ok(String::new()));
}

#[test]
fn generate_on_untrained_chain_is_empty() {
    let mut chain = MarkovChain::with_seed(6);
    assert_eq!(chain.generate(5), Ok(String::new()));
}

#[test]
fn generate_without_start_state_is_an_error() {
    let mut chain = MarkovChain::with_seed(7);
    chain.train(strings(&["the cat sat", "a dog ran"]), 1).unwrap();
    assert_eq!(chain.generate(4), Err(ChainError::NoStartState));
}

#[test]
fn generate_ends_sentences_at_terminal_states() {
    let mut chain = MarkovChain::with_seed(8);
    chain.train(strings(&["Hello there"]), 1).unwrap();
    // "Hello" -> "there", and "there" has no successor.
    assert_eq!(chain.generate(4).unwrap(), "Hello there. Hello there.");
    assert_eq!(chain.generate(3).unwrap(), "Hello there. Hello");
}

#[test]
fn generate_with_two_token_states() {
    let mut chain = MarkovChain::with_seed(9);
    chain.train(strings(&["A b c d"]), 2).unwrap();
    assert_eq!(row(&chain, &["A", "b"]), Some(&strings(&["c"])));
    assert_eq!(row(&chain, &["b", "c"]), Some(&strings(&["d"])));
    assert_eq!(chain.generate(4).unwrap(), "A b c d.");
    assert_eq!(chain.generate(5).unwrap(), "A b c d. A");
}

#[test]
fn retraining_with_another_size_is_refused() {
    let mut chain = cat_dog_chain(10);
    let before = chain.state_map.len();
    assert_eq!(
        chain.train(strings(&["The cow ate grass"]), 2),
        Err(ChainError::InconsistentRetraining)
    );
    assert_eq!(chain.state_map.len(), before);
    assert_eq!(chain.state_size(), 1);
}

#[test]
fn training_is_additive() {
    let mut twice = MarkovChain::with_seed(11);
    twice.train(strings(&["The cat sat.", "The cat ran."]), 1).unwrap();
    twice.train(strings(&["A cat sat."]), 1).unwrap();
    let mut once = MarkovChain::with_seed(11);
    once.train(strings(&["The cat sat.", "The cat ran.", "A cat sat."]), 1).unwrap();
    assert_eq!(twice.state_map.len(), once.state_map.len());
    for t in once.state_map.iter() {
        let words: Vec<&str> = t.state.iter().map(|w| w.as_str()).collect();
        assert_eq!(row(&twice, &words), Some(&t.successors));
    }
    assert_eq!(row(&once, &["cat"]), Some(&strings(&["sat.", "ran.", "sat."])));
}

#[test]
fn training_splits_on_any_whitespace() {
    let mut chain = MarkovChain::with_seed(12);
    chain.train(strings(&["  The\tcat \n sat  "]), 1).unwrap();
    assert_eq!(row(&chain, &["The"]), Some(&strings(&["cat"])));
    assert_eq!(row(&chain, &["cat"]), Some(&strings(&["sat"])));
}

#[test]
fn short_sentences_add_nothing() {
    let mut chain = MarkovChain::with_seed(13);
    chain.train(strings(&["One two", "Three"]), 2).unwrap();
    assert!(chain.state_map.is_empty());
    assert_eq!(chain.state_size(), 2);
}

#[test]
fn complete_with_short_seed_is_empty() {
    let mut chain = MarkovChain::with_seed(14);
    chain.train(strings(&["The big cat sat."]), 2).unwrap();
    assert_eq!(chain.complete("The".to_string(), 0), Ok(String::new()));
    assert_eq!(chain.complete("The".to_string(), 50), Ok(String::new()));
    assert_eq!(chain.complete(String::new(), 3), Ok(String::new()));
}

#[test]
fn complete_on_untrained_chain_is_empty() {
    let mut chain = MarkovChain::with_seed(15);
    assert_eq!(chain.complete("The cat".to_string(), 3), Ok(String::new()));
}

#[test]
fn complete_continues_the_seed() {
    let mut chain = MarkovChain::with_seed(16);
    chain.train(strings(&["The big cat sat."]), 1).unwrap();
    assert_eq!(chain.complete("I saw The".to_string(), 0).unwrap(), "I saw The big cat sat..");
}

#[test]
fn complete_restarts_until_min_len() {
    let mut chain = MarkovChain::with_seed(17);
    chain.train(strings(&["Go home"]), 1).unwrap();
    assert_eq!(chain.complete("Go".to_string(), 3).unwrap(), "Go home. Go home.");
}

#[test]
fn complete_without_start_state_is_an_error() {
    let mut chain = MarkovChain::with_seed(18);
    chain.train(strings(&["go home"]), 1).unwrap();
    assert_eq!(chain.complete("go".to_string(), 5), Err(ChainError::NoStartState));
}

#[test]
fn complete_on_a_cycle_gives_up() {
    let mut chain = MarkovChain::with_seed(19);
    chain.train(strings(&["A b A b"]), 1).unwrap();
    assert_eq!(chain.complete("A".to_string(), 1), Err(ChainError::WalkTooLong));
}

#[test]
fn save_then_load_keeps_the_table() {
    let chain = cat_dog_chain(20);
    let saved = chain.to_saved();
    assert_eq!(saved.state_size, 1);
    assert_eq!(saved.state_map[0], ("The".to_string(), strings(&["cat", "dog"])));
    let loaded = MarkovChain::from_saved(&saved).unwrap();
    assert_eq!(loaded.state_size(), chain.state_size());
    assert_eq!(loaded.state_map.len(), chain.state_map.len());
    for (a, b) in loaded.state_map.iter().zip(chain.state_map.iter()) {
        assert_eq!(a.state, b.state);
        assert_eq!(a.successors, b.successors);
    }
}

#[test]
fn saved_keys_join_tokens_with_spaces() {
    let mut chain = MarkovChain::with_seed(21);
    chain.train(strings(&["A b c"]), 2).unwrap();
    let saved = chain.to_saved();
    assert_eq!(saved.state_map, vec![("A b".to_string(), strings(&["c"]))]);
    let loaded = MarkovChain::from_saved(&saved).unwrap();
    assert_eq!(loaded.state_map[0].state, strings(&["A", "b"]));
}

#[test]
fn invalid_saved_tables_are_refused() {
    let wrong_width = SavedChain { state_map: vec![("A b".to_string(), strings(&["c"]))], state_size: 1 };
    assert_eq!(MarkovChain::from_saved(&wrong_width).err(), Some(ChainError::InvalidSaved));
    let no_successor = SavedChain { state_map: vec![("A".to_string(), vec![])], state_size: 1 };
    assert_eq!(MarkovChain::from_saved(&no_successor).err(), Some(ChainError::InvalidSaved));
    let twice = SavedChain {
        state_map: vec![("A".to_string(), strings(&["b"])), ("A".to_string(), strings(&["c"]))],
        state_size: 1,
    };
    assert_eq!(MarkovChain::from_saved(&twice).err(), Some(ChainError::InvalidSaved));
    let untrained_rows = SavedChain { state_map: vec![("A".to_string(), strings(&["b"]))], state_size: 0 };
    assert_eq!(MarkovChain::from_saved(&untrained_rows).err(), Some(ChainError::InvalidSaved));
    let empty = SavedChain { state_map: vec![], state_size: 0 };
    assert!(MarkovChain::from_saved(&empty).is_ok());
}

#[test]
fn join_words_uses_single_spaces() {
    assert_eq!(join_words(&strings(&["a", "bc", "d"])), "a bc d");
    assert_eq!(join_words(&strings(&["solo"])), "solo");
    assert_eq!(join_words(&Vec::new()), "");
}

#[test]
fn new_chain_is_untrained() {
    let mut chain = MarkovChain::new();
    assert_eq!(chain.state_size(), 0);
    assert!(chain.state_map.is_empty());
    assert_eq!(chain.pick_start_state(), Err(ChainError::NoStartState));
}

#[test]
fn generate_one_is_the_start_token() {
    for seed in 0..10u64 {
        let mut chain = cat_dog_chain(seed);
        assert_eq!(chain.generate(1).unwrap(), "The");
    }
}

#[test]
fn complete_keeps_the_head_and_follows_the_seed_state() {
    let mut chain = cat_dog_chain(30);
    assert_eq!(chain.complete("A cat".to_string(), 0).unwrap(), "A cat sat..");
    for seed in 0..20u64 {
        let mut chain = cat_dog_chain(seed);
        let out = chain.complete("The".to_string(), 0).unwrap();
        assert!(out == "The cat sat.." || out == "The dog ran..");
    }
}

#[test]
fn complete_stops_at_first_sentence_end_without_start_states() {
    let mut chain = MarkovChain::with_seed(31);
    chain.train(strings(&["go home"]), 1).unwrap();
    assert_eq!(chain.complete("we go".to_string(), 2).unwrap(), "we go home.");
}

#[test]
fn completion_step_moves_on_known_state() {
    let chain = cat_dog_chain(32);
    let mut emitted = strings(&["A"]);
    match chain.completion_step(&strings(&["The"]), &mut emitted, 3, 0) {
        CompletionStep::Moved(next) => assert_eq!(next, strings(&["dog"])),
        _ => panic!("expected a move"),
    }
    assert_eq!(emitted, strings(&["A", "The"]));
}

#[test]
fn completion_step_ends_sentence_on_unknown_state() {
    let chain = cat_dog_chain(33);
    let mut emitted = strings(&["A"]);
    assert!(matches!(chain.completion_step(&strings(&["sat."]), &mut emitted, 0, 2), CompletionStep::Stopped));
    assert_eq!(emitted, strings(&["A", "sat.."]));
    let mut short = Vec::new();
    assert!(matches!(chain.completion_step(&strings(&["ran."]), &mut short, 0, 5), CompletionStep::Restart));
    assert_eq!(short, strings(&["ran.."]));
}
