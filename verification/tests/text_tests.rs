use hey::text::{clone_texts, same_texts, split_words};
use hey::thesaurus::{add_default_synonyms, Thesaurus};

fn strings(words: &[&str]) -> Vec<String> {
    words.iter().map(|w| w.to_string()).collect()
}

#[test]
fn split_at_single_spaces() {
    assert_eq!(split_words("E WORD(+) B"), strings(&["E", "WORD(+)", "B"]));
}

#[test]
fn split_without_space_is_one_piece() {
    assert_eq!(split_words("B"), strings(&["B"]));
    assert_eq!(split_words(""), strings(&[""]));
}

#[test]
fn split_keeps_empty_pieces() {
    assert_eq!(split_words("a  b"), strings(&["a", "", "b"]));
    assert_eq!(split_words(" a "), strings(&["", "a", ""]));
}

#[test]
fn split_counts_characters_not_bytes() {
    assert_eq!(split_words("é ü"), strings(&["é", "ü"]));
}

#[test]
fn same_texts_compares_every_string() {
    assert!(same_texts(&strings(&["a", "b"]), &strings(&["a", "b"])));
    assert!(!same_texts(&strings(&["a", "b"]), &strings(&["a", "c"])));
    assert!(!same_texts(&strings(&["a"]), &strings(&["a", "b"])));
    assert_eq!(clone_texts(&strings(&["a", "b"])), strings(&["a", "b"]));
}

#[test]
fn thesaurus_knows_what_it_was_given() {
    let mut thesaurus = Thesaurus::new();
    thesaurus.add_synonyms("called", vec!["named"]);
    assert!(thesaurus.is_synonym("called", "named"));
    assert!(!thesaurus.is_synonym("called", "known"));
    assert!(!thesaurus.is_synonym("named", "called"));
    assert_eq!(thesaurus.get_synonyms("called"), &strings(&["named"]));
}

#[test]
fn later_synonyms_replace_earlier_ones() {
    let mut thesaurus = Thesaurus::new();
    thesaurus.add_synonyms("create", vec!["make"]);
    thesaurus.add_synonyms("called", vec!["named"]);
    thesaurus.add_synonyms("create", vec!["build", "form"]);
    assert!(!thesaurus.is_synonym("create", "make"));
    assert!(thesaurus.is_synonym("create", "form"));
    assert_eq!(thesaurus.get_synonyms("create"), &strings(&["build", "form"]));
    assert_eq!(thesaurus.get_synonyms("called"), &strings(&["named"]));
}

#[test]
fn default_synonyms_are_added() {
    let mut thesaurus = Thesaurus::new();
    add_default_synonyms(&mut thesaurus);
    assert!(thesaurus.is_synonym("called", "named"));
    assert!(thesaurus.is_synonym("create", "set up"));
    assert!(thesaurus.is_synonym("create", "spawn"));
    assert_eq!(thesaurus.get_synonyms("create").len(), 14);
    assert_eq!(thesaurus.get_synonyms("create")[0], "construct");
}

#[test]
fn first_matching_line_is_found() {
    let lines = strings(&["01/01/25 10:00 milk", "02/01/25 11:00 eggs", "01/01/25 10:00 milk"]);
    assert_eq!(hey::selection::position_of(&lines, "02/01/25 11:00 eggs"), Some(1));
    assert_eq!(hey::selection::position_of(&lines, "01/01/25 10:00 milk"), Some(0));
    assert_eq!(hey::selection::position_of(&lines, "bread"), None);
    assert_eq!(hey::selection::position_of(&Vec::new(), "bread"), None);
}
