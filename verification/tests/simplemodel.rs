use autocomplete::predictionentry::PredictionEntry;
use autocomplete::simplemodel::SimpleWordTrainer;

const PASSAGE: &str = "anybody can become angry that is easy but to be \
angry with the right person and to the right degree \
and at the right time and for the right purpose \
and in the right way that is not within everybody's \
power and is not easy";

#[test]
fn test_debug() {
    let model = SimpleWordTrainer::from_str("world domination is my profession hello hello");

    assert_eq!(&1, model.debug_get_word_score("world").unwrap());
}

#[test]
fn simplemodel_test_from_str() {
    let model = SimpleWordTrainer::from_str("world domination is my profession hello hello");

    assert_eq!(1, *model.debug_get_word_score("world").unwrap());
    assert_eq!(2, *model.debug_get_word_score("hello").unwrap());
}

#[test]
fn simplemodel_test_from_vec() {
    let model = SimpleWordTrainer::from_vec(&vec!["rabbit", "rabbit", "hare"]);

    assert_eq!(1, *model.debug_get_word_score("hare").unwrap());
    assert_eq!(2, *model.debug_get_word_score("rabbit").unwrap());
}

#[test]
fn simplemodel_test_train_str() {
    let mut model = SimpleWordTrainer::new();

    model.train_str("hello hello hello there there");

    assert_eq!(3, *model.debug_get_word_score("hello").unwrap());
    assert_eq!(2, *model.debug_get_word_score("there").unwrap());
}

#[test]
fn simplemodel_test_train_vec() {
    let mut model = SimpleWordTrainer::new();

    model.train_vec(vec!["hello", "hello", "hello", "what", "is", "this"]);

    assert_eq!(3, *model.debug_get_word_score("hello").unwrap());
    assert_eq!(1, *model.debug_get_word_score("what").unwrap());
}

#[test]
fn simplemodel_test_finalize() {
    let mut model = SimpleWordTrainer::new();

    model.train_str(PASSAGE);

    let predictor = model.finalize();
    let records = predictor.to_record_form();

    assert_eq!(records[0].0, "and");
    assert_eq!(records[0].1, 5);
}

#[test]
fn simplemodel_test_predict() {
    let mut model = SimpleWordTrainer::new();

    model.train_str(PASSAGE);

    let predictor = model.finalize();
    let prediction = predictor.predict("a").unwrap();

    assert_eq!(prediction[0], PredictionEntry { word: String::from("and"), score: 4 });
}
