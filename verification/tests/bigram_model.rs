use autocomplete::bigram_model::BigramTrainer;
use autocomplete::error::ModelError;

fn get_score(trainer: &BigramTrainer, word1: &str, word2: &str) -> u32 {
    let inner_trainer = trainer.get_trainer(word1).unwrap();

    inner_trainer.debug_get_word_score(word2).unwrap().clone()
}

fn has_pair(trainer: &BigramTrainer, word1: &str, word2: &str) -> bool {
    match trainer.get_trainer(word1) {
        Some(inner) => inner.debug_get_word_score(word2).is_some(),
        None => false,
    }
}

#[test]
fn bigram_model_test_from_str() {
    let mut model = BigramTrainer::new();

    model.train_str("there once was a man from dundee");
    let prev_word = model.prev_word().cloned();
    assert_eq!("dundee", prev_word.unwrap());

    model.train_str("joe was a happy man");
    let prev_word = model.prev_word().cloned();
    assert_eq!("man", prev_word.unwrap());

    model.train_str("happy happy happy");

    assert_eq!(1, get_score(&model, "there", "once"));
    assert_eq!(1, get_score(&model, "dundee", "joe"));
    assert_eq!(2, get_score(&model, "happy", "happy"));
}

#[test]
fn bigram_predicts_next_word_after_happy() {
    let mut model = BigramTrainer::new();
    model.train_str("there once was a man from dundee");
    model.train_str("joe was a happy man");
    model.train_str("happy happy happy");

    let predictor = model.finalize();
    let prediction = predictor.predict("happy", "happy").unwrap();

    assert_eq!(prediction.len(), 1);
    assert_eq!(prediction[0].word, "happy");
    assert_eq!(prediction[0].score, 2);

    let after_happy = predictor.predict("happy", "m").unwrap();
    assert_eq!(after_happy.len(), 1);
    assert_eq!(after_happy[0].word, "man");
    assert_eq!(after_happy[0].score, 1);
}

#[test]
fn bigram_first_word_of_a_training_is_only_context() {
    let mut model = BigramTrainer::new();
    assert!(model.prev_word().is_none());

    model.train_vec(vec!["alpha"]);

    assert_eq!("alpha", model.prev_word().unwrap());
    assert!(model.get_trainer("alpha").is_none());

    model.train_vec(vec!["beta", "alpha"]);

    assert_eq!(1, get_score(&model, "alpha", "beta"));
    assert_eq!(1, get_score(&model, "beta", "alpha"));
    assert!(!has_pair(&model, "alpha", "alpha"));
    assert_eq!("alpha", model.prev_word().unwrap());
}

#[test]
fn bigram_counts_carry_across_calls() {
    let mut split = BigramTrainer::new();
    split.train_str("a b c");
    split.train_str("d e");

    let mut joined = BigramTrainer::new();
    joined.train_str("a b c d e");

    for (first, second) in [("a", "b"), ("b", "c"), ("c", "d"), ("d", "e")] {
        assert_eq!(1, get_score(&split, first, second));
        assert_eq!(1, get_score(&joined, first, second));
    }
    assert!(split.get_trainer("e").is_none());
    assert!(joined.get_trainer("e").is_none());
    assert_eq!(split.prev_word(), joined.prev_word());
    assert_eq!(split.finalize().to_file(), joined.finalize().to_file());
}

#[test]
fn bigram_empty_tokens_are_passed_over() {
    let mut model = BigramTrainer::new();

    model.train_vec(vec!["", "one", "", "", "two", ""]);

    assert_eq!(1, get_score(&model, "one", "two"));
    assert!(!has_pair(&model, "one", ""));
    assert!(model.get_trainer("").is_none());
    assert_eq!("two", model.prev_word().unwrap());

    model.train_str("  ");
    assert_eq!("two", model.prev_word().unwrap());

    model.train_str(" three");
    assert_eq!(1, get_score(&model, "two", "three"));
}

#[test]
fn bigram_training_on_nothing_changes_nothing() {
    let mut model = BigramTrainer::new();

    model.train_vec(Vec::new());
    assert!(model.prev_word().is_none());

    model.train_str("");
    assert!(model.prev_word().is_none());
    assert_eq!(model.finalize().to_file(), "");
}

#[test]
fn bigram_unseen_first_word_gives_no_prediction() {
    let mut model = BigramTrainer::new();
    model.train_str("red apple red anchor red apple");
    let predictor = model.finalize();

    assert_eq!(predictor.predict("green", "a").unwrap().len(), 0);
    assert_eq!(predictor.predict("green", "").unwrap().len(), 0);
    assert!(predictor.get_simplemodel("green").is_none());
    assert!(predictor.get_simplemodel("red").is_some());
}

#[test]
fn bigram_empty_prefix_is_refused_behind_a_known_word() {
    let mut model = BigramTrainer::new();
    model.train_str("red apple red anchor red apple");
    let predictor = model.finalize();

    assert_eq!(predictor.predict("red", ""), Err(ModelError::InvalidInput));
}

#[test]
fn bigram_prediction_is_ranked() {
    let mut model = BigramTrainer::new();
    model.train_str("red apple red anchor red apple red ant red anchor red bee");
    let predictor = model.finalize();

    let prediction = predictor.predict("red", "a").unwrap();

    let words: Vec<&str> = prediction.iter().map(|e| e.word.as_str()).collect();
    let scores: Vec<u32> = prediction.iter().map(|e| e.score).collect();
    assert_eq!(words, vec!["anchor", "apple", "ant"]);
    assert_eq!(scores, vec![2, 2, 1]);
}

#[test]
fn bigram_file_lists_pairs_in_order() {
    let mut model = BigramTrainer::new();
    model.train_str("b a b c a c b a");
    let predictor = model.finalize();

    assert_eq!(predictor.to_file(), "a b,1\na c,1\nb a,2\nb c,1\nc a,1\nc b,1\n");
}
