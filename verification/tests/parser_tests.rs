use hey::parse_table::ParseTableError;
use hey::parser::{Node, ParseError, Parser, Rule, Symbol};
use hey::tokenizer::Token;

fn rule(name: &str, right: &str) -> Rule {
    Rule::new(name.to_string(), right.to_string())
}

fn word(value: &str) -> Token {
    Token { name: "WORD".to_string(), value: value.to_string() }
}

fn token(name: &str, value: &str) -> Token {
    Token { name: name.to_string(), value: value.to_string() }
}

fn show(symbol: &Symbol) -> String {
    match symbol {
        Symbol::Terminal(token) => format!("{}({})", token.name, token.value),
        Symbol::NonTerminal(node) => show_node(node),
    }
}

fn show_node(node: &Node) -> String {
    let inner: Vec<String> = node.children.iter().map(show).collect();
    format!("{}[{}]", node.name, inner.join(" "))
}

fn parser_of(rules: Vec<Rule>) -> Parser {
    Parser::new(rules).expect("a grammar with rules")
}

fn arithmetic() -> Parser {
    parser_of(vec![
        rule("E", "E WORD(*) B"),
        rule("E", "E WORD(+) B"),
        rule("E", "B"),
        rule("B", "WORD(0)"),
        rule("B", "WORD(1)"),
    ])
}

#[test]
fn arithmetic_is_left_associated() {
    let parser = arithmetic();
    let input = vec![word("1"), word("*"), word("0"), word("+"), word("1")];
    let tree = parser.parse(input).expect("the sentence is in the grammar");
    assert_eq!(
        show_node(&tree),
        "E[E[E[B[WORD(1)]] WORD(*) B[WORD(0)]] WORD(+) B[WORD(1)]]"
    );
    assert_eq!(tree.name, "E");
    assert_eq!(tree.children.len(), 3);
}

#[test]
fn single_digit_reduces_to_start() {
    let parser = arithmetic();
    let tree = parser.parse(vec![word("0")]).expect("a digit is a sentence");
    assert_eq!(show_node(&tree), "E[B[WORD(0)]]");
}

#[test]
fn empty_input_is_unexpected_end() {
    let parser = arithmetic();
    match parser.parse(Vec::new()) {
        Err(ParseError::UnexpectedEndOfInput(stack)) => assert!(stack.is_empty()),
        other => panic!("expected the end-of-input error, got {:?}", other),
    }
}

#[test]
fn unknown_token_is_reported() {
    let parser = arithmetic();
    match parser.parse(vec![token("NUMBER", "7")]) {
        Err(ParseError::UnexpectedToken(found)) => {
            assert_eq!(found.name, "NUMBER");
            assert_eq!(found.value, "7");
        }
        other => panic!("expected the token error, got {:?}", other),
    }
}

#[test]
fn unknown_token_after_valid_prefix_is_reported() {
    let parser = arithmetic();
    match parser.parse(vec![word("1"), token("COMMAND", "remind"), word("0")]) {
        Err(ParseError::UnexpectedToken(found)) => {
            assert_eq!(found.name, "COMMAND");
            assert_eq!(found.value, "remind");
        }
        other => panic!("expected the token error, got {:?}", other),
    }
}

#[test]
fn wrong_value_is_unexpected_token() {
    let parser = arithmetic();
    match parser.parse(vec![word("2")]) {
        Err(ParseError::UnexpectedToken(found)) => assert_eq!(found.value, "2"),
        other => panic!("expected the token error, got {:?}", other),
    }
}

#[test]
fn dangling_operator_is_unexpected_end() {
    let parser = arithmetic();
    match parser.parse(vec![word("1"), word("+")]) {
        Err(ParseError::UnexpectedEndOfInput(stack)) => {
            let shown: Vec<String> = stack.iter().map(show).collect();
            assert_eq!(shown, vec!["E[B[WORD(1)]]".to_string(), "WORD(+)".to_string()]);
        }
        other => panic!("expected the end-of-input error, got {:?}", other),
    }
}

#[test]
fn bare_specifier_takes_any_value() {
    let parser = parser_of(vec![rule("S", "COMMAND SUBJECT"), ]);
    let tree = parser
        .parse(vec![token("COMMAND", "remind"), token("SUBJECT", "me")])
        .expect("bare specifiers take any value");
    assert_eq!(show_node(&tree), "S[COMMAND(remind) SUBJECT(me)]");
}

#[test]
fn valued_specifier_is_preferred_to_bare() {
    let parser = parser_of(vec![
        rule("S", "R"),
        rule("S", "C"),
        rule("R", "COMMAND(remind) SUBJECT"),
        rule("C", "COMMAND SUBJECT"),
    ]);
    let exact = parser
        .parse(vec![token("COMMAND", "remind"), token("SUBJECT", "me")])
        .expect("the exact specifier applies");
    assert_eq!(show_node(&exact), "S[R[COMMAND(remind) SUBJECT(me)]]");
    let other = parser
        .parse(vec![token("COMMAND", "create"), token("SUBJECT", "me")])
        .expect("the bare specifier applies");
    assert_eq!(show_node(&other), "S[C[COMMAND(create) SUBJECT(me)]]");
}

#[test]
fn valued_specifier_rejects_other_value() {
    let parser = parser_of(vec![rule("S", "COMMAND(remind)")]);
    assert!(parser.parse(vec![token("COMMAND", "remind")]).is_ok());
    match parser.parse(vec![token("COMMAND", "create")]) {
        Err(ParseError::UnexpectedToken(found)) => assert_eq!(found.value, "create"),
        other => panic!("expected the token error, got {:?}", other),
    }
}

#[test]
fn sentences_of_the_grammar_reduce_to_start() {
    let parser = parser_of(vec![
        rule("S", "CLI C"),
        rule("C", "COMMAND(remind) SUBJECT KEYWORD(to) CONTENT"),
        rule("C", "COMMAND(note) CONTENT"),
        rule("CONTENT", "CONTENT WORD"),
        rule("CONTENT", "WORD"),
    ]);
    let remind = vec![
        token("CLI", "hey"),
        token("COMMAND", "remind"),
        token("SUBJECT", "me"),
        token("KEYWORD", "to"),
        token("WORD", "eat"),
        token("WORD", "pasta"),
    ];
    let tree = parser.parse(remind).expect("a sentence of the grammar");
    assert_eq!(tree.name, "S");
    assert_eq!(
        show_node(&tree),
        "S[CLI(hey) C[COMMAND(remind) SUBJECT(me) KEYWORD(to) CONTENT[CONTENT[WORD(eat)] WORD(pasta)]]]"
    );
    let note = vec![token("CLI", "hey"), token("COMMAND", "note"), token("WORD", "milk")];
    let tree = parser.parse(note).expect("a sentence of the grammar");
    assert_eq!(show_node(&tree), "S[CLI(hey) C[COMMAND(note) CONTENT[WORD(milk)]]]");
}

#[test]
fn cyclic_unit_rules_end_in_an_error() {
    let parser = parser_of(vec![rule("A", "B"), rule("B", "A"), rule("B", "WORD")]);
    match parser.parse(vec![word("x")]) {
        Err(ParseError::UnexpectedEndOfInput(stack)) => {
            assert_eq!(stack.len(), 1);
            assert!(matches!(stack[0], Symbol::NonTerminal(_)));
        }
        other => panic!("expected the end-of-input error, got {:?}", other),
    }
    match parser.parse(vec![word("x"), token("NUMBER", "1")]) {
        Err(ParseError::UnexpectedToken(found)) => assert_eq!(found.name, "NUMBER"),
        other => panic!("expected the token error, got {:?}", other),
    }
}

#[test]
fn chain_of_unit_rules_without_cycle_is_parsed() {
    let parser = parser_of(vec![
        rule("A", "B"),
        rule("B", "C"),
        rule("C", "D"),
        rule("D", "WORD"),
    ]);
    let tree = parser.parse(vec![word("x")]).expect("a chain is no cycle");
    assert_eq!(show_node(&tree), "A[B[C[D[WORD(x)]]]]");
}

#[test]
fn input_that_stops_short_of_a_sentence_leaves_one_nonterminal() {
    let parser = parser_of(vec![rule("S", "A WORD(y)"), rule("A", "WORD(x)")]);
    let whole = parser.parse(vec![word("x"), word("y")]).expect("a sentence");
    assert_eq!(show_node(&whole), "S[A[WORD(x)] WORD(y)]");
    let part = parser.parse(vec![word("x")]).expect("one nonterminal is left");
    assert_eq!(show_node(&part), "A[WORD(x)]");
}

#[test]
fn tokens_left_on_the_stack_are_reported() {
    let parser = parser_of(vec![rule("S", "WORD(a) WORD(b) WORD(c)")]);
    match parser.parse(vec![word("a"), word("b")]) {
        Err(ParseError::UnexpectedEndOfInput(stack)) => {
            let shown: Vec<String> = stack.iter().map(show).collect();
            assert_eq!(shown, vec!["WORD(a)".to_string(), "WORD(b)".to_string()]);
        }
        other => panic!("expected the end-of-input error, got {:?}", other),
    }
    match parser.parse(vec![word("a")]) {
        Err(ParseError::UnexpectedEndOfInput(stack)) => {
            assert_eq!(stack.len(), 1);
            assert!(matches!(stack[0], Symbol::Terminal(_)));
        }
        other => panic!("expected the end-of-input error, got {:?}", other),
    }
}

#[test]
fn token_after_a_whole_sentence_is_unexpected() {
    let parser = arithmetic();
    match parser.parse(vec![word("1"), word("0")]) {
        Err(ParseError::UnexpectedToken(found)) => assert_eq!(found.value, "0"),
        other => panic!("expected the token error, got {:?}", other),
    }
}

#[test]
fn rule_text_is_split_at_spaces() {
    let parser = parser_of(vec![rule("S", "a  b")]);
    let tree = parser
        .parse(vec![token("a", "1"), token("", "2"), token("b", "3")])
        .expect("the empty specifier stands between the spaces");
    assert_eq!(show_node(&tree), "S[a(1) (2) b(3)]");
}

#[test]
fn no_rules_is_refused() {
    match Parser::new(Vec::new()) {
        Err(e) => assert_eq!(e, ParseTableError::NoRulesSpecified),
        Ok(_) => panic!("a grammar without rules has no parser"),
    }
}

#[test]
fn new_accepts_a_grammar() {
    let parser = Parser::new(vec![rule("S", "WORD")]).expect("one rule is a grammar");
    let tree = parser.parse(vec![word("x")]).expect("the word is a sentence");
    assert_eq!(show_node(&tree), "S[WORD(x)]");
}

#[test]
fn token_matches_bare_and_own_valued_specifier() {
    let remind = Symbol::Terminal(token("COMMAND", "remind"));
    assert!(remind.matches("COMMAND"));
    assert!(remind.matches("COMMAND(remind)"));
    let create = Symbol::Terminal(token("COMMAND", "create"));
    assert!(create.matches("COMMAND"));
    assert!(!create.matches("COMMAND(remind)"));
    assert!(!create.matches("SUBJECT"));
}

#[test]
fn nonterminal_matches_its_name_only() {
    let node = Symbol::NonTerminal(Node { name: "E".to_string(), children: Vec::new() });
    assert!(node.matches("E"));
    assert!(!node.matches("E()"));
    assert!(!node.matches("B"));
}

#[test]
fn parser_follows_the_table_of_its_grammar() {
    let parser = arithmetic();
    assert_eq!(parser.table().state_count(), 9);
    let first = parser.table().set(0).expect("state 0").rules();
    assert_eq!(first[0].left(), "StartNode");
    assert_eq!(first[0].right(), &vec!["E".to_string(), "$".to_string()]);
}
