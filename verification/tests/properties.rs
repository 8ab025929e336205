use autocomplete::error::ModelError;
use autocomplete::predictionentry::PredictionEntry;
use autocomplete::simplemodel::{SimpleWordPredictor, SimpleWordTrainer};

const PASSAGE: &str = "anybody can become angry that is easy but to be \
angry with the right person and to the right degree \
and at the right time and for the right purpose \
and in the right way that is not within everybody's \
power and is not easy";

fn trained(text: &str) -> SimpleWordPredictor {
    let mut model = SimpleWordTrainer::new();
    model.train_str(text);
    model.finalize()
}

fn pairs(prediction: &Vec<PredictionEntry>) -> Vec<(String, u32)> {
    prediction.iter().map(|e| (e.word.clone(), e.score)).collect()
}

fn pair(word: &str, score: u32) -> (String, u32) {
    (String::from(word), score)
}

#[test]
fn scores_are_occurrence_counts_across_calls() {
    let mut model = SimpleWordTrainer::new();
    model.train_str("to be or not to be");
    model.train_vec(vec!["be", "", "be", "quick"]);
    model.train_word("to");
    model.train_word("");

    assert_eq!(3, *model.debug_get_word_score("to").unwrap());
    assert_eq!(4, *model.debug_get_word_score("be").unwrap());
    assert_eq!(1, *model.debug_get_word_score("or").unwrap());
    assert_eq!(1, *model.debug_get_word_score("not").unwrap());
    assert_eq!(1, *model.debug_get_word_score("quick").unwrap());
    assert!(model.debug_get_word_score("").is_none());
    assert!(model.debug_get_word_score("b").is_none());

    let records = model.finalize().to_record_form();
    assert_eq!(
        records,
        vec![pair("be", 4), pair("not", 1), pair("or", 1), pair("quick", 1), pair("to", 3)]
    );
}

#[test]
fn empty_pieces_of_a_line_are_not_words() {
    let mut model = SimpleWordTrainer::new();
    model.train_str("  one   two  one ");

    assert!(model.debug_get_word_score("").is_none());
    assert_eq!(2, *model.debug_get_word_score("one").unwrap());
    assert_eq!(1, *model.debug_get_word_score("two").unwrap());
    assert_eq!(model.finalize().to_record_form().len(), 2);
}

#[test]
fn top_prediction_for_the_passage_is_and() {
    let expected = PASSAGE.split(' ').filter(|w| *w == "and").count() as u32;
    assert_eq!(expected, 5);

    let prediction = trained(PASSAGE).predict("a").unwrap();

    assert_eq!(prediction[0].word, "and");
    assert_eq!(prediction[0].score, expected);
    assert_eq!(
        pairs(&prediction),
        vec![pair("and", 5), pair("angry", 2), pair("anybody", 1), pair("at", 1)]
    );
}

#[test]
fn prediction_holds_at_most_ten_entries_with_the_prefix() {
    let text = "pa pb pc pd pe pf pg ph pi pj pk pl pm pn po q pa ab";
    let predictor = trained(text);

    let prediction = predictor.predict("p").unwrap();

    assert_eq!(prediction.len(), 10);
    for entry in &prediction {
        assert!(entry.word.starts_with("p"));
    }
    let words: Vec<&str> = prediction.iter().map(|e| e.word.as_str()).collect();
    assert_eq!(words, vec!["pa", "pb", "pc", "pd", "pe", "pf", "pg", "ph", "pi", "pj"]);
    assert_eq!(prediction[0].score, 2);
    assert_eq!(prediction[1].score, 1);
}

#[test]
fn late_words_with_high_scores_displace_early_ones() {
    let text = "pa pb pc pd pe pf pg ph pi pj pk pl pm pn po pz pz pz po po pn";
    let prediction = trained(text).predict("p").unwrap();

    assert_eq!(
        pairs(&prediction),
        vec![
            pair("po", 3),
            pair("pz", 3),
            pair("pn", 2),
            pair("pa", 1),
            pair("pb", 1),
            pair("pc", 1),
            pair("pd", 1),
            pair("pe", 1),
            pair("pf", 1),
            pair("pg", 1),
        ]
    );
}

#[test]
fn prediction_is_sorted_by_score_and_ties_stay_in_lexical_order() {
    let text = "cat car cab cat car can cap cat cow";
    let prediction = trained(text).predict("ca").unwrap();

    assert_eq!(
        pairs(&prediction),
        vec![pair("cat", 3), pair("car", 2), pair("cab", 1), pair("can", 1), pair("cap", 1)]
    );
    for i in 1..prediction.len() {
        let (a, b) = (&prediction[i - 1], &prediction[i]);
        assert!(a.score > b.score || (a.score == b.score && a.word < b.word));
    }
}

#[test]
fn prefix_may_be_longer_than_one_letter() {
    let predictor = trained("the then there these those this that than");

    assert_eq!(
        pairs(&predictor.predict("the").unwrap()),
        vec![pair("the", 1), pair("then", 1), pair("there", 1), pair("these", 1)]
    );
    assert_eq!(pairs(&predictor.predict("there").unwrap()), vec![pair("there", 1)]);
    assert_eq!(predictor.predict("thereafter").unwrap().len(), 0);
    assert_eq!(predictor.predict("tz").unwrap().len(), 0);
}

#[test]
fn prefix_with_an_unknown_first_letter_gives_nothing() {
    let predictor = trained("alpha beta gamma");

    assert_eq!(predictor.predict("z").unwrap().len(), 0);
    assert_eq!(predictor.predict("A").unwrap().len(), 0);
}

#[test]
fn empty_prefix_is_invalid_input() {
    let predictor = trained("alpha beta gamma");

    assert_eq!(predictor.predict(""), Err(ModelError::InvalidInput));
    assert_eq!(trained("").predict(""), Err(ModelError::InvalidInput));
}

#[test]
fn untrained_model_predicts_nothing() {
    let predictor = SimpleWordTrainer::new().finalize();

    assert_eq!(predictor.predict("a").unwrap().len(), 0);
    assert_eq!(predictor.to_record_form().len(), 0);
    assert_eq!(predictor.to_file(), "");
}

#[test]
fn words_beyond_ascii_are_ordered_by_code_point() {
    let predictor = trained("zebra \u{e9}t\u{e9} \u{e9}cole apple \u{e9}t\u{e9} Zulu");

    let records = predictor.to_record_form();
    let words: Vec<&str> = records.iter().map(|r| r.0.as_str()).collect();
    assert_eq!(words, vec!["Zulu", "apple", "zebra", "\u{e9}cole", "\u{e9}t\u{e9}"]);

    assert_eq!(
        pairs(&predictor.predict("\u{e9}").unwrap()),
        vec![pair("\u{e9}t\u{e9}", 2), pair("\u{e9}cole", 1)]
    );
}

#[test]
fn record_form_round_trip_keeps_every_prediction() {
    let predictor = trained(PASSAGE);
    let rebuilt = SimpleWordPredictor::from_record_form(predictor.to_record_form()).unwrap();

    assert_eq!(rebuilt.to_record_form(), predictor.to_record_form());
    for prefix in ["a", "an", "and", "t", "th", "the", "r", "e", "everybody's", "x", "w"] {
        assert_eq!(
            pairs(&rebuilt.predict(prefix).unwrap()),
            pairs(&predictor.predict(prefix).unwrap())
        );
    }
}

#[test]
fn record_form_need_not_be_sorted() {
    let records = vec![pair("pear", 2), pair("apple", 7), pair("plum", 2), pair("fig", 1)];
    let predictor = SimpleWordPredictor::from_record_form(records).unwrap();

    assert_eq!(
        predictor.to_record_form(),
        vec![pair("apple", 7), pair("fig", 1), pair("pear", 2), pair("plum", 2)]
    );
    assert_eq!(
        pairs(&predictor.predict("p").unwrap()),
        vec![pair("pear", 2), pair("plum", 2)]
    );
}

#[test]
fn record_form_with_an_empty_word_is_a_format_error() {
    let empty_word = vec![pair("apple", 1), pair("", 2)];
    assert_eq!(
        SimpleWordPredictor::from_record_form(empty_word).err(),
        Some(ModelError::FormatError)
    );

    let only_empty = vec![pair("", 0)];
    assert_eq!(
        SimpleWordPredictor::from_record_form(only_empty).err(),
        Some(ModelError::FormatError)
    );

    assert!(SimpleWordPredictor::from_record_form(Vec::new()).is_ok());
}

#[test]
fn record_form_keeps_a_score_of_zero() {
    let records = vec![pair("apple", 0), pair("ant", 3), pair("axe", 0)];
    let predictor = SimpleWordPredictor::from_record_form(records).unwrap();

    assert_eq!(
        predictor.to_record_form(),
        vec![pair("ant", 3), pair("apple", 0), pair("axe", 0)]
    );
    assert_eq!(
        pairs(&predictor.predict("a").unwrap()),
        vec![pair("ant", 3), pair("apple", 0), pair("axe", 0)]
    );
}

#[test]
fn record_form_keeps_every_record_for_a_word() {
    let records = vec![pair("fig", 2), pair("apple", 1), pair("fig", 7), pair("apple", 3)];
    let predictor = SimpleWordPredictor::from_record_form(records).unwrap();

    assert_eq!(
        predictor.to_record_form(),
        vec![pair("apple", 1), pair("apple", 3), pair("fig", 2), pair("fig", 7)]
    );
    assert_eq!(
        pairs(&predictor.predict("a").unwrap()),
        vec![pair("apple", 3), pair("apple", 1)]
    );
    assert_eq!(pairs(&predictor.predict("fi").unwrap()), vec![pair("fig", 7), pair("fig", 2)]);

    let same = vec![pair("fig", 2), pair("fig", 2), pair("fig", 2)];
    let predictor = SimpleWordPredictor::from_record_form(same).unwrap();
    assert_eq!(
        pairs(&predictor.predict("f").unwrap()),
        vec![pair("fig", 2), pair("fig", 2), pair("fig", 2)]
    );
}

#[test]
fn counts_do_not_depend_on_the_order_of_the_tokens() {
    let mut one = SimpleWordTrainer::new();
    one.train_vec(vec!["b", "a", "", "b", "c", "a", "b"]);
    let mut other = SimpleWordTrainer::new();
    other.train_vec(vec!["a", "a", "b", "b", "b", "", "c"]);
    let mut parts = SimpleWordTrainer::new();
    parts.train_vec(vec!["c", "b"]);
    parts.train_vec(vec!["b", "a", "b", "a"]);

    let expected = vec![pair("a", 2), pair("b", 3), pair("c", 1)];
    assert_eq!(one.finalize().to_record_form(), expected);
    assert_eq!(other.finalize().to_record_form(), expected);
    assert_eq!(parts.finalize().to_record_form(), expected);
}

#[test]
fn entries_are_compared_by_their_words() {
    let one = PredictionEntry { word: String::from("and"), score: 4 };
    let other = PredictionEntry { word: String::from("and"), score: 5 };
    let third = PredictionEntry { word: String::from("ant"), score: 4 };

    assert_eq!(one, other);
    assert_ne!(one, third);

    let copy = other.clone();
    assert_eq!(copy.word, "and");
    assert_eq!(copy.score, 5);
}

#[test]
fn entries_are_ordered_by_their_words() {
    let and = PredictionEntry { word: String::from("and"), score: 1 };
    let angry = PredictionEntry { word: String::from("angry"), score: 9 };
    let again = PredictionEntry { word: String::from("and"), score: 7 };

    assert!(and < angry);
    assert!(angry > and);
    assert!(!(angry < and));
    assert!(and <= again);
    assert!(and >= again);
    assert!(!(and < again));
    assert_eq!(and.partial_cmp(&angry), Some(std::cmp::Ordering::Less));
    assert_eq!(angry.partial_cmp(&and), Some(std::cmp::Ordering::Greater));
    assert_eq!(and.partial_cmp(&again), Some(std::cmp::Ordering::Equal));
}
