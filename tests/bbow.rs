use bbow::Bbow;
use bbow::text::{has_uppercase, is_word, trim_punctuation};

#[test]
fn test_is_word() {
    assert_eq!(is_word("word"), true);
    assert_eq!(is_word("Bigword"), true);
    assert_eq!(is_word("REALLYBIGWORD"), true);
    assert_eq!(is_word("withUnicodƹ"), true);
    assert_eq!(is_word("not-a-word"), false);
    assert_eq!(is_word("n0taword"), false);
    assert_eq!(is_word("notaword!"), false);
    assert_eq!(is_word(""), false);
}

#[test]
fn test_has_uppercase() {
    assert_eq!(has_uppercase("Bigword"), true);
    assert_eq!(has_uppercase("REALLYBIGWORD"), true);
    assert_eq!(has_uppercase("withUnicodƹ"), true);
    assert_eq!(has_uppercase("word"), false);
    assert_eq!(has_uppercase("w"), false);
    assert_eq!(has_uppercase("!"), false);
    assert_eq!(has_uppercase(""), false);
}

#[test]
fn test_trim_punctuation() {
    assert_eq!(trim_punctuation("word!"), "word");
    assert_eq!(trim_punctuation("word?"), "word");
    assert_eq!(trim_punctuation(".word"), "word");
    assert_eq!(trim_punctuation("word."), "word");
    assert_eq!(trim_punctuation("¡word"), "word");
    assert_eq!(trim_punctuation("unicodƐ"), "unicodƐ");
}

#[test]
fn trim_punctuation_edges() {
    assert_eq!(trim_punctuation(""), "");
    assert_eq!(trim_punctuation("?!."), "");
    assert_eq!(trim_punctuation(".word."), "word");
    assert_eq!(trim_punctuation("?word"), "word");
    assert_eq!(trim_punctuation("12ab-cd34"), "ab-cd");
    assert_eq!(trim_punctuation("«untïl»"), "untïl");
}

#[test]
fn new_bag_is_empty() {
    let bag = Bbow::new();
    assert!(bag.is_empty());
    assert_eq!(bag.len(), 0);
    assert_eq!(bag.count(), 0);
    assert!(bag.words().is_empty());
    let bag = Bbow::default();
    assert!(bag.is_empty());
}

#[test]
fn empty_and_blank_texts_add_nothing() {
    let bag = Bbow::new().extend_from_text("").extend_from_text("   \t\n  ");
    assert!(bag.is_empty());
    assert_eq!(bag.count(), 0);
    let bag = Bbow::new().extend_from_text("!!! 123 -- ... don't");
    assert!(bag.is_empty());
    assert_eq!(bag.count(), 0);
}

#[test]
fn hello_world() {
    let bag = Bbow::new().extend_from_text("Hello world.");
    assert_eq!(2, bag.len());
    assert_eq!(1, bag.match_count("hello"));
    assert_eq!(0, bag.match_count("Hello"));
    assert!(!bag.is_empty());
}

#[test]
fn example_it_aint_over() {
    let bag = Bbow::new().extend_from_text("It ain't over untïl it ain't, over.");
    assert_eq!(bag.count(), 5);
    assert_eq!(bag.len(), 3);
    assert_eq!(bag.match_count("it"), 2);
    assert_eq!(bag.match_count("over"), 2);
    assert_eq!(bag.match_count("untïl"), 1);
    assert_eq!(bag.match_count("ain't"), 0);
    assert_eq!(bag.match_count("ain"), 0);
    assert_eq!(bag.words(), vec!["it".to_string(), "over".to_string(), "untïl".to_string()]);
}

#[test]
fn example_b_banana() {
    let bag = Bbow::new().extend_from_text("b b b-banana b");
    assert_eq!(bag.match_count("b"), 3);
    assert_eq!(bag.match_count("banana"), 0);
    assert_eq!(bag.match_count("b-banana"), 0);
    assert_eq!(bag.count(), 3);
    assert_eq!(bag.len(), 1);
}

#[test]
fn example_cant_stop() {
    let bag = Bbow::new().extend_from_text("Can't stop this! Stop!");
    assert_eq!(bag.count(), 3);
    assert_eq!(bag.len(), 2);
    assert_eq!(bag.match_count("stop"), 2);
    assert_eq!(bag.match_count("this"), 1);
    assert_eq!(bag.match_count("can't"), 0);
    assert_eq!(bag.words(), vec!["stop".to_string(), "this".to_string()]);
}

#[test]
fn case_forms_share_one_key() {
    let bag = Bbow::new().extend_from_text("Word word WORD WoRd");
    assert_eq!(bag.len(), 1);
    assert_eq!(bag.count(), 4);
    assert_eq!(bag.match_count("word"), 4);
    assert_eq!(bag.words(), vec!["word".to_string()]);
}

#[test]
fn non_ascii_uppercase_is_lowercased() {
    let bag = Bbow::new().extend_from_text("ÉCOLE école Straße STRASSE");
    assert_eq!(bag.match_count("école"), 2);
    assert_eq!(bag.match_count("straße"), 1);
    assert_eq!(bag.match_count("strasse"), 1);
    assert_eq!(bag.len(), 3);
}

#[test]
fn boundary_punctuation_only_is_stripped() {
    let bag = Bbow::new().extend_from_text("word! ?word ¡word .word.");
    assert_eq!(bag.match_count("word"), 4);
    assert_eq!(bag.len(), 1);
    let bag = Bbow::new().extend_from_text("not-a-word n0taword don't");
    assert_eq!(bag.count(), 0);
    assert_eq!(bag.match_count("not"), 0);
    assert_eq!(bag.match_count("n"), 0);
    assert_eq!(bag.match_count("don"), 0);
}

#[test]
fn unicode_letters_are_kept() {
    let bag = Bbow::new().extend_from_text("untïl Untïl 日本 ωμέγα");
    assert_eq!(bag.match_count("untïl"), 2);
    assert_eq!(bag.match_count("日本"), 1);
    assert_eq!(bag.match_count("ωμέγα"), 1);
    assert_eq!(bag.len(), 3);
}

#[test]
fn unseen_or_malformed_keyword_counts_zero() {
    let bag = Bbow::new().extend_from_text("alpha beta");
    assert_eq!(bag.match_count("gamma"), 0);
    assert_eq!(bag.match_count(""), 0);
    assert_eq!(bag.match_count("Alpha"), 0);
    assert_eq!(bag.match_count("al-pha"), 0);
    assert_eq!(bag.match_count("alpha!"), 0);
    assert_eq!(bag.match_count("alpha"), 1);
}

#[test]
fn count_is_number_of_accepted_tokens() {
    let bag = Bbow::new().extend_from_text("  one, two;   three4 (four) fi-ve 6 six  ");
    assert_eq!(bag.count(), 5);
    assert_eq!(bag.len(), 5);
    assert_eq!(bag.match_count("three"), 1);
    assert_eq!(bag.match_count("fi"), 0);
}

#[test]
fn distinct_at_most_total() {
    let bag = Bbow::new().extend_from_text("a b c");
    assert_eq!(bag.len(), bag.count());
    let bag = Bbow::new().extend_from_text("a b A c");
    assert!(bag.len() < bag.count());
    assert_eq!(bag.len(), 3);
    assert_eq!(bag.count(), 4);
}

#[test]
fn ingesting_twice_doubles_counts() {
    let text = "The cat saw the other cat. Fin!";
    let once = Bbow::new().extend_from_text(text);
    let twice = once.clone().extend_from_text(text);
    assert_eq!(twice.len(), once.len());
    assert_eq!(twice.count(), 2 * once.count());
    for w in once.words() {
        assert_eq!(twice.match_count(&w), 2 * once.match_count(&w));
    }
    assert_eq!(twice.match_count("the"), 4);
    assert_eq!(twice.match_count("cat"), 4);
}

#[test]
fn chained_texts_accumulate() {
    let bag = Bbow::new()
        .extend_from_text("red green")
        .extend_from_text("Green blue")
        .extend_from_text("RED");
    assert_eq!(bag.match_count("red"), 2);
    assert_eq!(bag.match_count("green"), 2);
    assert_eq!(bag.match_count("blue"), 1);
    assert_eq!(bag.count(), 5);
    assert_eq!(bag.len(), 3);
}

#[test]
fn words_are_in_code_point_order() {
    let bag = Bbow::new().extend_from_text("zeta Alpha beta älpha alp b ab");
    assert_eq!(
        bag.words(),
        vec![
            "ab".to_string(),
            "alp".to_string(),
            "alpha".to_string(),
            "b".to_string(),
            "beta".to_string(),
            "zeta".to_string(),
            "älpha".to_string(),
        ]
    );
}

#[test]
fn whitespace_kinds_all_split() {
    let bag = Bbow::new().extend_from_text("one\ttwo\nthree\u{00a0}four\u{3000}five\r\nsix");
    assert_eq!(bag.count(), 6);
    assert_eq!(bag.match_count("four"), 1);
    assert_eq!(bag.match_count("five"), 1);
}

#[test]
fn still_empty_after_texts_without_words() {
    let bag = Bbow::new().extend_from_text("42 -- ?!").extend_from_text("x-y");
    assert!(bag.is_empty());
    let bag = bag.extend_from_text("z");
    assert!(!bag.is_empty());
}
