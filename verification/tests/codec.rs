use autocomplete::codec::{format_record, parse_record, push_decimal, push_pair, push_record};
use autocomplete::error::ModelError;
use autocomplete::lexicon::Lexicon;
use autocomplete::ranking::sorted_order;
use autocomplete::simplemodel::{SimpleWordPredictor, SimpleWordTrainer};
use autocomplete::text::{
    as_tokens, first_char, is_blank_char, split_text, split_words, starts_with, trim_blanks,
    word_less,
};

fn pair(word: &str, score: u32) -> (String, u32) {
    (String::from(word), score)
}

#[test]
fn record_lines_are_word_comma_score() {
    assert_eq!(format_record("and", 5), "and,5");
    assert_eq!(format_record("x", 0), "x,0");
    assert_eq!(format_record("everybody's", 4294967295), "everybody's,4294967295");
    assert_eq!(format_record("\u{e9}t\u{e9}", 120), "\u{e9}t\u{e9},120");
}

#[test]
fn decimal_digits_are_appended() {
    let mut out = String::from("n=");
    push_decimal(&mut out, 0);
    push_decimal(&mut out, 7);
    push_decimal(&mut out, 10);
    push_decimal(&mut out, 905);
    assert_eq!(out, "n=0710905");
}

#[test]
fn records_and_pairs_are_appended_with_a_line_end() {
    let mut out = String::new();
    push_record(&mut out, "and", 5);
    push_pair(&mut out, "red", "apple", 12);
    assert_eq!(out, "and,5\nred apple,12\n");
}

#[test]
fn record_lines_are_read_back() {
    assert_eq!(parse_record("and,5"), Ok(pair("and", 5)));
    assert_eq!(parse_record("x,0"), Ok(pair("x", 0)));
    assert_eq!(parse_record("x,007"), Ok(pair("x", 7)));
    assert_eq!(parse_record("happy man,3"), Ok(pair("happy man", 3)));
    assert_eq!(parse_record("big,4294967295"), Ok(pair("big", 4294967295)));
    assert_eq!(parse_record(&format_record("angry", 2)), Ok(pair("angry", 2)));
}

#[test]
fn malformed_record_lines_are_format_errors() {
    for line in [
        "",
        "and",
        "and 5",
        ",5",
        "and,",
        "and,five",
        "and,5x",
        "and,-5",
        "and,+5",
        "and, 5",
        "and,5 ",
        "and,5,6",
        "and,,5",
        "and,5\n",
        "big,4294967296",
        "big,99999999999999999999999",
    ] {
        assert_eq!(parse_record(line), Err(ModelError::FormatError), "line {:?}", line);
    }
}

#[test]
fn saved_file_holds_one_line_for_each_entry() {
    let mut model = SimpleWordTrainer::new();
    model.train_str("to be or not to be");
    let predictor = model.finalize();

    assert_eq!(predictor.to_file(), "be,2\nnot,1\nor,1\nto,2\n");
}

#[test]
fn saved_file_is_read_back() {
    let mut model = SimpleWordTrainer::new();
    model.train_str("to be or not to be that is the question");
    let predictor = model.finalize();

    let rebuilt = SimpleWordPredictor::from_file(&predictor.to_file()).unwrap();

    assert_eq!(rebuilt.to_record_form(), predictor.to_record_form());
    assert_eq!(rebuilt.to_file(), predictor.to_file());
}

#[test]
fn file_lines_may_come_in_any_order_and_end_without_a_line_end() {
    let predictor = SimpleWordPredictor::from_file("pear,2\napple,7\nfig,1").unwrap();

    assert_eq!(predictor.to_record_form(), vec![pair("apple", 7), pair("fig", 1), pair("pear", 2)]);
    assert!(SimpleWordPredictor::from_file("").unwrap().to_record_form().is_empty());
    assert_eq!(
        SimpleWordPredictor::from_file("apple,1\r\nfig,2\r\n").unwrap().to_record_form(),
        vec![pair("apple", 1), pair("fig", 2)]
    );
}

#[test]
fn malformed_files_are_format_errors() {
    for contents in [
        "a\n",
        "a,x\n",
        ",3\n",
        "apple,1\n\nfig,2\n",
        "apple,1\nfig\n",
        "apple,1\nfig,two\n",
        "apple,1\n,2\n",
        "apple,1\n  ,2\n",
        "apple,1\nfig, 2\n",
        "apple,1\nfig,2,3\n",
        "apple,1\nfig,4294967296\n",
        "apple,1\n\n",
        "\n",
        "  \n",
    ] {
        assert_eq!(
            SimpleWordPredictor::from_file(contents).err(),
            Some(ModelError::FormatError),
            "contents {:?}",
            contents
        );
    }
}

#[test]
fn file_may_hold_a_score_of_zero_and_a_word_twice() {
    let predictor = SimpleWordPredictor::from_file("a,0\n").unwrap();
    assert_eq!(predictor.to_record_form(), vec![pair("a", 0)]);

    let predictor = SimpleWordPredictor::from_file("a,1\na,2\n").unwrap();
    assert_eq!(predictor.to_record_form(), vec![pair("a", 1), pair("a", 2)]);

    let predictor = SimpleWordPredictor::from_file("b,4\na,1\nb,0\na,2\n").unwrap();
    assert_eq!(
        predictor.to_record_form(),
        vec![pair("a", 1), pair("a", 2), pair("b", 4), pair("b", 0)]
    );
    assert_eq!(predictor.to_file(), "a,1\na,2\nb,4\nb,0\n");
}

#[test]
fn blanks_around_a_line_are_dropped() {
    let predictor =
        SimpleWordPredictor::from_file("apple,1 \r\n\t fig,2\r\n  pear tree,3  ").unwrap();

    assert_eq!(
        predictor.to_record_form(),
        vec![pair("apple", 1), pair("fig", 2), pair("pear tree", 3)]
    );
}

#[test]
fn blanks_are_the_white_space_characters() {
    for code in 0..=0x10ffffu32 {
        if let Some(c) = char::from_u32(code) {
            assert_eq!(is_blank_char(c), c.is_whitespace(), "code point {:x}", code);
        }
    }
}

#[test]
fn texts_are_trimmed_at_both_ends() {
    assert_eq!(trim_blanks("  and  "), "and");
    assert_eq!(trim_blanks("and"), "and");
    assert_eq!(trim_blanks(""), "");
    assert_eq!(trim_blanks(" \t\r\n"), "");
    assert_eq!(trim_blanks("\u{3000}a b\u{a0}"), "a b");
    assert_eq!(trim_blanks("x "), "x");
    assert_eq!(trim_blanks(" x"), "x");
    assert_eq!(trim_blanks("\u{e9}t\u{e9} ,5\n"), "\u{e9}t\u{e9} ,5");

    for text in ["", " ", "a", " a", "a ", " a b ", "\n\na\tb\n", "\u{2003}\u{e9}\u{2003}"] {
        assert_eq!(trim_blanks(text), text.trim(), "text {:?}", text);
    }
}

#[test]
fn string_slices_are_taken_in_order() {
    let pieces = vec![String::from("one"), String::new(), String::from("two")];
    assert_eq!(as_tokens(&pieces), vec!["one", "", "two"]);
    assert!(as_tokens(&Vec::new()).is_empty());
}

#[test]
fn lines_are_split_at_every_space() {
    assert_eq!(split_words("a b"), vec!["a", "b"]);
    assert_eq!(split_words("a  b"), vec!["a", "", "b"]);
    assert_eq!(split_words(" a b "), vec!["", "a", "b", ""]);
    assert_eq!(split_words(""), vec![""]);
    assert_eq!(split_words(" "), vec!["", ""]);
    assert_eq!(split_words("one\ttwo three"), vec!["one\ttwo", "three"]);
    assert_eq!(split_text("a,b,,c", ','), vec!["a", "b", "", "c"]);

    for line in ["", " ", "a  b", " lead and trail ", "x"] {
        let expected: Vec<&str> = line.split(' ').collect();
        assert_eq!(split_words(line), expected);
    }
}

#[test]
fn words_are_compared_in_lexical_order() {
    assert!(word_less("and", "angry"));
    assert!(!word_less("angry", "and"));
    assert!(word_less("an", "and"));
    assert!(!word_less("and", "an"));
    assert!(!word_less("and", "and"));
    assert!(word_less("", "a"));
    assert!(!word_less("", ""));
    assert!(!word_less("a", ""));
    assert!(word_less("Zulu", "apple"));
    assert!(word_less("zebra", "\u{e9}cole"));
    assert!(word_less("\u{e9}", "\u{1f600}"));

    let words = ["", "a", "A", "ab", "b", "\u{e9}", "zz", "z", "\u{10000}", "\u{ffff}"];
    for a in words {
        for b in words {
            assert_eq!(word_less(a, b), a < b, "{:?} {:?}", a, b);
        }
    }
}

#[test]
fn prefixes_are_recognised() {
    assert!(starts_with("angry", "an"));
    assert!(starts_with("angry", "angry"));
    assert!(starts_with("angry", ""));
    assert!(!starts_with("an", "angry"));
    assert!(!starts_with("angry", "ar"));
    assert!(!starts_with("", "a"));
    assert!(starts_with("\u{e9}t\u{e9}", "\u{e9}t"));
}

#[test]
fn first_characters_are_found() {
    assert_eq!(first_char("angry"), Some('a'));
    assert_eq!(first_char("\u{e9}t\u{e9}"), Some('\u{e9}'));
    assert_eq!(first_char(""), None);
}

#[test]
fn sorted_order_is_lexical_and_stable() {
    let words: Vec<String> =
        ["pear", "apple", "fig", "apple", "", "pear", "app"].iter().map(|w| String::from(*w)).collect();

    assert_eq!(sorted_order(&words), vec![4, 6, 1, 3, 2, 0, 5]);
    assert_eq!(sorted_order(&Vec::new()), Vec::<usize>::new());
    assert_eq!(sorted_order(&vec![String::from("one")]), vec![0]);
}

#[test]
fn lexicon_numbers_words_in_order_of_arrival() {
    let mut lexicon = Lexicon::new();
    assert_eq!(lexicon.len(), 0);
    assert_eq!(lexicon.find("pear"), None);

    assert_eq!(lexicon.push(String::from("pear")), 0);
    assert_eq!(lexicon.push(String::from("apple")), 1);

    assert_eq!(lexicon.len(), 2);
    assert_eq!(lexicon.find("pear"), Some(0));
    assert_eq!(lexicon.find("apple"), Some(1));
    assert_eq!(lexicon.find("fig"), None);
    assert_eq!(lexicon.word(1), "apple");
    assert_eq!(lexicon.words(), &vec![String::from("pear"), String::from("apple")]);
}
