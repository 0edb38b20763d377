use hey::tokenizer::{Token, TokenDefinition, Tokenizer};

fn pairs(tokens: &[Token]) -> Vec<(String, String)> {
    tokens.iter().map(|t| (t.name.clone(), t.value.clone())).collect()
}

fn pair(name: &str, value: &str) -> (String, String) {
    (name.to_string(), value.to_string())
}

fn command_tokenizer() -> Tokenizer {
    Tokenizer::new(vec![
        TokenDefinition::new("CLI", vec!["hey"]),
        TokenDefinition::new("COMMAND", vec!["remind", "note", "add"]),
        TokenDefinition::new("SUBJECT", vec!["me", "us"]),
        TokenDefinition::new_with_regex("TIME", "^[0-9]{1,2}(am|pm)$"),
        TokenDefinition::new("WORD", vec!["*"]),
    ])
    .expect("one wildcard")
}

#[test]
fn words_are_named_by_their_kind() {
    let tokens = command_tokenizer().tokenize("hey remind me").expect("all words are known");
    assert_eq!(
        pairs(&tokens),
        vec![pair("CLI", "hey"), pair("COMMAND", "remind"), pair("SUBJECT", "me")]
    );
}

#[test]
fn unknown_words_go_to_the_wildcard() {
    let tokens = command_tokenizer().tokenize("remind me pasta").expect("a wildcard takes the rest");
    assert_eq!(
        pairs(&tokens),
        vec![pair("COMMAND", "remind"), pair("SUBJECT", "me"), pair("WORD", "pasta")]
    );
}

#[test]
fn pattern_decides_for_regex_kinds() {
    let tokenizer = command_tokenizer();
    let tokens = tokenizer.tokenize("5pm 55 12am").expect("a wildcard takes the rest");
    assert_eq!(pairs(&tokens), vec![pair("TIME", "5pm"), pair("WORD", "55"), pair("TIME", "12am")]);
}

#[test]
fn pattern_is_not_handed_back_as_the_answer() {
    let tokenizer = Tokenizer::new(vec![TokenDefinition::new_with_regex("NUMBER", "^[0-9]+$")])
        .expect("no wildcard");
    assert_eq!(tokenizer.hits("42"), vec![true]);
    assert_eq!(tokenizer.hits("^[0-9]+$"), vec![false]);
    assert_eq!(tokenizer.hits("x"), vec![false]);
}

#[test]
fn broken_pattern_matches_nothing() {
    let tokenizer = Tokenizer::new(vec![TokenDefinition::new_with_regex("BROKEN", "foo(bar")])
        .expect("no wildcard");
    assert_eq!(tokenizer.hits("foo(bar"), vec![false]);
    assert!(tokenizer.tokenize("foo(bar").is_none());
}

#[test]
fn empty_text_has_no_tokens() {
    assert!(command_tokenizer().tokenize("").is_none());
}

#[test]
fn unknown_word_without_wildcard_fails() {
    let tokenizer = Tokenizer::new(vec![TokenDefinition::new("CLI", vec!["hey"])]).expect("no wildcard");
    assert!(tokenizer.tokenize("hey you").is_none());
    assert_eq!(pairs(&tokenizer.tokenize("hey hey").expect("known")), vec![pair("CLI", "hey"), pair("CLI", "hey")]);
}

#[test]
fn word_of_two_kinds_gives_two_tokens() {
    let tokenizer = Tokenizer::new(vec![
        TokenDefinition::new("KEYWORD", vec!["to", "at"]),
        TokenDefinition::new("SHORT", vec!["to", "in"]),
    ])
    .expect("no wildcard");
    let tokens = tokenizer.tokenize("to in").expect("known");
    assert_eq!(pairs(&tokens), vec![pair("KEYWORD", "to"), pair("SHORT", "to"), pair("SHORT", "in")]);
}

#[test]
fn double_space_gives_an_empty_word() {
    let tokens = command_tokenizer().tokenize("hey  me").expect("a wildcard takes the rest");
    assert_eq!(pairs(&tokens), vec![pair("CLI", "hey"), pair("WORD", ""), pair("SUBJECT", "me")]);
}

#[test]
fn star_itself_is_a_word_of_the_wildcard_kind() {
    let tokens = command_tokenizer().tokenize("*").expect("the star is in the list");
    assert_eq!(pairs(&tokens), vec![pair("WORD", "*")]);
}

#[test]
fn second_wildcard_is_refused() {
    assert!(Tokenizer::new(vec![
        TokenDefinition::new("WORD", vec!["*"]),
        TokenDefinition::new("OTHER", vec!["x", "*"]),
    ])
    .is_none());
    assert!(Tokenizer::new(vec![TokenDefinition::new("WORD", vec!["*", "*"])]).is_none());
    assert!(Tokenizer::new(Vec::new()).is_some());
}

#[test]
fn tokens_for_follows_the_hits() {
    let tokenizer = command_tokenizer();
    let marked = tokenizer
        .tokens_for("x", &vec![false, true, false, true, false])
        .expect("two kinds are marked");
    assert_eq!(pairs(&marked), vec![pair("COMMAND", "x"), pair("TIME", "x")]);
    let none = tokenizer
        .tokens_for("x", &vec![false, false, false, false, false])
        .expect("the wildcard applies");
    assert_eq!(pairs(&none), vec![pair("WORD", "x")]);
    let bare = Tokenizer::new(vec![TokenDefinition::new("CLI", vec!["hey"])]).expect("no wildcard");
    assert!(bare.tokens_for("x", &vec![false]).is_none());
}
