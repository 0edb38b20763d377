use hey::parse_table::{Action, ItemSet, ParseTable, ParseTableError, TableRule};

fn rule(left: &str, right: &[&str]) -> TableRule {
    TableRule::new(left.to_string(), right.iter().map(|s| s.to_string()).collect())
}

fn build(rules: Vec<TableRule>) -> ParseTable {
    ParseTable::new(rules).expect("a grammar with rules that have symbols")
}

fn arithmetic() -> ParseTable {
    build(vec![
        rule("E", &["E", "WORD(*)", "B"]),
        rule("E", &["E", "WORD(+)", "B"]),
        rule("E", &["B"]),
        rule("B", &["WORD(0)"]),
        rule("B", &["WORD(1)"]),
    ])
}

fn shift(table: &ParseTable, state: usize, symbol: &str) -> usize {
    match table.get_action(state, symbol) {
        Action::Shift(target) => target,
        Action::Reduce(_) => panic!("state {} reduces on {}", state, symbol),
        Action::Error(e) => panic!("state {} has no action on {}: {:?}", state, symbol, e),
    }
}

#[test]
fn new_rule_starts_at_the_front() {
    let r = rule("E", &["E", "WORD(+)", "B"]);
    assert_eq!(r.left(), "E");
    assert_eq!(r.right_len(), 3);
    assert_eq!(r.next_symbol_index(), 0);
    assert_eq!(r.next_set_index(), None);
    assert!(r.is_kernel_rule());
    assert!(r.can_advance());
    assert!(r.can_expand());
    assert!(!r.is_reducable());
    assert!(r.matches_lookahead("E"));
    assert!(!r.matches_lookahead("B"));
}

#[test]
fn advancing_moves_the_dot() {
    let r = rule("B", &["WORD(0)"]);
    let moved = r.clone_and_advance();
    assert_eq!(moved.next_symbol_index(), 1);
    assert!(moved.is_kernel_rule());
    assert!(moved.is_reducable());
    assert!(!moved.can_advance());
    assert!(!moved.can_expand());
    assert!(!moved.matches_lookahead("WORD(0)"));
}

#[test]
fn expanded_copy_is_not_kernel() {
    let r = rule("B", &["WORD(0)"]);
    let copy = r.clone_as_expanded_rule();
    assert!(!copy.is_kernel_rule());
    assert_eq!(copy.next_symbol_index(), 0);
    assert_eq!(copy.right(), r.right());
    assert!(copy != r);
    assert!(r.clone() == r);
}

#[test]
fn end_mark_cannot_be_advanced_past() {
    let r = rule("StartNode", &["E", "$"]);
    let moved = r.clone_and_advance();
    assert!(moved.can_expand());
    assert!(!moved.can_advance());
    assert!(moved.matches_lookahead("$"));
}

#[test]
fn same_kernel_ignores_order_and_closure_items() {
    let a = rule("E", &["E", "WORD(+)", "B"]).clone_and_advance();
    let b = rule("E", &["E", "WORD(*)", "B"]).clone_and_advance();
    let extra = rule("B", &["WORD(0)"]).clone_as_expanded_rule();
    let one = ItemSet::new(3, vec![a.clone(), b.clone(), extra]);
    let two = ItemSet::new(7, vec![b.clone(), a.clone()]);
    assert!(one.is_same_kernel(&two));
    assert!(two.is_same_kernel(&one));
}

#[test]
fn larger_kernel_is_another_kernel() {
    let a = rule("E", &["E", "WORD(+)", "B"]).clone_and_advance();
    let b = rule("E", &["E", "WORD(*)", "B"]).clone_and_advance();
    let small = ItemSet::new(0, vec![a.clone()]);
    let large = ItemSet::new(1, vec![a.clone(), b.clone()]);
    assert!(!small.is_same_kernel(&large));
    assert!(!large.is_same_kernel(&small));
    let padded = ItemSet::new(2, vec![a.clone(), b.clone_as_expanded_rule(), b.clone_as_expanded_rule()]);
    assert!(padded.is_same_kernel(&small));
    assert!(!padded.is_same_kernel(&large));
}

#[test]
fn different_dots_are_different_kernels() {
    let a = rule("E", &["E", "WORD(+)", "B"]);
    let one = ItemSet::new(0, vec![a.clone()]);
    let two = ItemSet::new(1, vec![a.clone_and_advance()]);
    assert!(!one.is_same_kernel(&two));
    assert_eq!(one.index(), 0);
    assert_eq!(two.rules().len(), 1);
}

#[test]
fn arithmetic_table_has_nine_states() {
    let table = arithmetic();
    assert_eq!(table.state_count(), 9);
    let first = table.set(0).expect("state 0");
    assert_eq!(first.index(), 0);
    assert_eq!(first.rules().len(), 6);
    assert_eq!(first.rules()[0].left(), "StartNode");
    assert!(first.rules()[0].is_kernel_rule());
    assert!(!first.rules()[1].is_kernel_rule());
    assert!(table.set(9).is_none());
}

#[test]
fn states_are_numbered_breadth_first() {
    let table = arithmetic();
    assert_eq!(shift(&table, 0, "E"), 1);
    assert_eq!(shift(&table, 0, "B"), 2);
    assert_eq!(shift(&table, 0, "WORD(0)"), 3);
    assert_eq!(shift(&table, 0, "WORD(1)"), 4);
    assert_eq!(shift(&table, 1, "WORD(*)"), 5);
    assert_eq!(shift(&table, 1, "WORD(+)"), 6);
    assert_eq!(shift(&table, 5, "B"), 7);
    assert_eq!(shift(&table, 6, "B"), 8);
}

#[test]
fn equal_kernels_are_merged() {
    let table = arithmetic();
    assert_eq!(shift(&table, 5, "WORD(0)"), 3);
    assert_eq!(shift(&table, 5, "WORD(1)"), 4);
    assert_eq!(shift(&table, 6, "WORD(0)"), 3);
    assert_eq!(shift(&table, 6, "WORD(1)"), 4);
    for i in 0..table.state_count() {
        for j in (i + 1)..table.state_count() {
            let a = table.set(i).expect("state");
            let b = table.set(j).expect("state");
            assert!(!a.is_same_kernel(b), "states {} and {} share a kernel", i, j);
        }
    }
}

#[test]
fn reduction_is_offered_where_no_shift_applies() {
    let table = arithmetic();
    match table.get_action(3, "WORD(+)") {
        Action::Reduce(rule) => {
            assert_eq!(rule.left(), "B");
            assert_eq!(rule.right(), &vec!["WORD(0)".to_string()]);
            assert!(rule.is_reducable());
        }
        _ => panic!("state 3 reduces"),
    }
    match table.get_action(3, "$") {
        Action::Reduce(rule) => assert_eq!(rule.left(), "B"),
        _ => panic!("state 3 reduces at the end of the input"),
    }
}

#[test]
fn unknown_symbol_is_an_error() {
    let table = arithmetic();
    match table.get_action(0, "NUMBER") {
        Action::Error(e) => assert_eq!(e, ParseTableError::InvalidSymbolForSet),
        _ => panic!("state 0 has nothing for NUMBER"),
    }
    match table.get_action(1, "$") {
        Action::Error(e) => assert_eq!(e, ParseTableError::InvalidSymbolForSet),
        _ => panic!("the end mark is never shifted"),
    }
}

#[test]
fn unknown_state_is_an_error() {
    let table = arithmetic();
    match table.get_action(9, "E") {
        Action::Error(e) => assert_eq!(e, ParseTableError::InvalidSetIndex),
        _ => panic!("the table has no state 9"),
    }
}

#[test]
fn rule_declared_first_wins_against_the_order_of_closure() {
    let table = build(vec![
        rule("S", &["B"]),
        rule("S", &["A"]),
        rule("A", &["WORD"]),
        rule("B", &["WORD"]),
    ]);
    let after_word = shift(&table, 0, "WORD");
    assert_eq!(after_word, 4);
    let items = table.set(after_word).expect("the state after WORD").rules();
    assert_eq!(items.len(), 2);
    assert_eq!(items[0].left(), "B");
    assert_eq!(items[1].left(), "A");
    match table.get_action(after_word, "$") {
        Action::Reduce(rule) => {
            assert_eq!(rule.left(), "A");
            assert_eq!(rule.right(), &vec!["WORD".to_string()]);
        }
        _ => panic!("the state after WORD reduces"),
    }
}

#[test]
fn rule_declared_first_wins_where_closure_agrees() {
    let table = build(vec![
        rule("S", &["A"]),
        rule("S", &["B"]),
        rule("B", &["x"]),
        rule("A", &["x"]),
    ]);
    let after_x = shift(&table, 0, "x");
    let items = table.set(after_x).expect("the state after x").rules();
    assert_eq!(items.len(), 2);
    assert_eq!(items[0].left(), "A");
    assert_eq!(items[1].left(), "B");
    match table.get_action(after_x, "$") {
        Action::Reduce(rule) => assert_eq!(rule.left(), "B"),
        _ => panic!("the state after x reduces"),
    }
}

#[test]
fn repeated_rule_counts_where_it_stands_first() {
    let table = build(vec![
        rule("S", &["A"]),
        rule("A", &["x"]),
        rule("A", &["x"]),
        rule("S", &["x"]),
    ]);
    let after_x = shift(&table, 0, "x");
    let items = table.set(after_x).expect("the state after x").rules();
    assert_eq!(items.len(), 2);
    assert_eq!(items[0].left(), "S");
    match table.get_action(after_x, "$") {
        Action::Reduce(rule) => assert_eq!(rule.left(), "A"),
        _ => panic!("the state after x reduces"),
    }
}

#[test]
fn empty_grammar_is_refused() {
    match ParseTable::new(Vec::new()) {
        Err(e) => assert_eq!(e, ParseTableError::NoRulesSpecified),
        Ok(_) => panic!("no rules, no table"),
    }
}

#[test]
fn empty_right_hand_side_is_refused() {
    match ParseTable::new(vec![rule("S", &["A"]), rule("A", &[])]) {
        Err(e) => assert_eq!(e, ParseTableError::InvalidTableRule),
        Ok(_) => panic!("a rule without symbols has no table"),
    }
}

#[test]
fn recursive_grammar_terminates() {
    let table = ParseTable::new(vec![
        rule("S", &["S", "S"]),
        rule("S", &["(", "S", ")"]),
        rule("S", &["x"]),
    ])
    .expect("a valid grammar");
    assert!(table.state_count() > 0);
    assert!(table.state_count() < 64);
}

#[test]
fn table_is_listed_state_by_state() {
    let table = build(vec![rule("S", &["x"])]);
    let expected = "\nSet 0:\n  StartNode -> * S $  (S1)  (Kernel: true)\n  S -> * x  (S2)  (Kernel: false)\n\
                    \nSet 1:\n  StartNode ->  S* $  (S99999)  (Kernel: true)\n\
                    \nSet 2:\n  S ->  x*  (S99999)  (Kernel: true)\n";
    assert_eq!(hey::listing::table_text(&table), expected);
}

#[test]
fn numbers_are_written_in_decimal() {
    assert_eq!(hey::listing::decimal_text(0), "0");
    assert_eq!(hey::listing::decimal_text(7), "7");
    assert_eq!(hey::listing::decimal_text(10), "10");
    assert_eq!(hey::listing::decimal_text(99999), "99999");
    assert_eq!(hey::listing::decimal_text(1234567890), "1234567890");
}

#[test]
fn kernel_items_keep_the_order_of_their_sources() {
    let table = arithmetic();
    let after_e = table.set(1).expect("state 1").rules();
    assert_eq!(after_e.len(), 3);
    assert_eq!(after_e[0].left(), "StartNode");
    assert_eq!(after_e[1].right()[1], "WORD(*)");
    assert_eq!(after_e[2].right()[1], "WORD(+)");
    for item in after_e {
        assert!(item.is_kernel_rule());
        assert_eq!(item.next_symbol_index(), 1);
    }
    assert_eq!(after_e[0].next_set_index(), None);
    assert_eq!(after_e[1].next_set_index(), Some(5));
    assert_eq!(after_e[2].next_set_index(), Some(6));
}

#[test]
fn closure_items_follow_the_order_of_the_grammar() {
    let table = arithmetic();
    let first = table.set(0).expect("state 0").rules();
    let shown: Vec<String> =
        first.iter().map(|r| format!("{} -> {}", r.left(), r.right().join(" "))).collect();
    assert_eq!(
        shown,
        vec![
            "StartNode -> E $",
            "E -> E WORD(*) B",
            "E -> E WORD(+) B",
            "E -> B",
            "B -> WORD(0)",
            "B -> WORD(1)",
        ]
    );
    assert_eq!(first[1].next_set_index(), Some(1));
    assert_eq!(first[2].next_set_index(), Some(1));
    assert_eq!(first[0].next_set_index(), Some(1));
}

#[test]
fn every_state_but_the_first_is_a_target() {
    let table = arithmetic();
    let mut reached = vec![false; table.state_count()];
    for s in 0..table.state_count() {
        for item in table.set(s).expect("state").rules() {
            if let Some(target) = item.next_set_index() {
                assert!(target < table.state_count());
                reached[target] = true;
            }
        }
    }
    assert!(!reached[0]);
    assert!(reached[1..].iter().all(|r| *r));
}

#[test]
fn state_that_leads_to_itself_is_not_built_twice() {
    let table = build(vec![rule("S", &["a", "S"]), rule("S", &["b"])]);
    let after_a = shift(&table, 0, "a");
    assert_eq!(shift(&table, after_a, "a"), after_a);
    let after_b = shift(&table, 0, "b");
    assert_eq!(shift(&table, after_a, "b"), after_b);
    assert_eq!(table.state_count(), 5);
}

#[test]
fn bare_and_valued_specifiers_are_different_symbols() {
    let table = build(vec![
        rule("S", &["COMMAND", "x"]),
        rule("S", &["COMMAND(remind)", "y"]),
    ]);
    let bare = shift(&table, 0, "COMMAND");
    let valued = shift(&table, 0, "COMMAND(remind)");
    assert!(bare != valued);
    assert_eq!(table.set(bare).expect("state").rules().len(), 1);
    assert_eq!(table.set(valued).expect("state").rules().len(), 1);
    match table.get_action(0, "COMMAND(create)") {
        Action::Error(e) => assert_eq!(e, ParseTableError::InvalidSymbolForSet),
        _ => panic!("the table knows no COMMAND(create)"),
    }
}

#[test]
fn items_that_expect_one_symbol_share_their_target() {
    let table = arithmetic();
    for s in 0..table.state_count() {
        let items = table.set(s).expect("state").rules();
        for a in items {
            for b in items {
                if a.can_advance() && b.next_symbol_index() < b.right_len() {
                    let symbol = &a.right()[a.next_symbol_index()];
                    if b.matches_lookahead(symbol) {
                        assert!(a.next_set_index().is_some());
                        assert_eq!(a.next_set_index(), b.next_set_index());
                    }
                }
            }
        }
    }
}

#[test]
fn each_state_and_symbol_has_one_action() {
    let table = arithmetic();
    let symbols = ["E", "B", "WORD(0)", "WORD(1)", "WORD(*)", "WORD(+)", "$", "WORD"];
    for s in 0..table.state_count() {
        let reducible = table.set(s).expect("state").rules().iter().any(|r| r.is_reducable());
        for symbol in symbols {
            let shifts =
                table.set(s).expect("state").rules().iter().any(|r| {
                    r.matches_lookahead(symbol) && r.next_set_index().is_some()
                });
            match table.get_action(s, symbol) {
                Action::Shift(_) => assert!(shifts),
                Action::Reduce(_) => assert!(!shifts && reducible),
                Action::Error(e) => {
                    assert!(!shifts && !reducible);
                    assert_eq!(e, ParseTableError::InvalidSymbolForSet);
                }
            }
        }
    }
}

#[test]
fn earlier_rule_wins_whatever_its_length() {
    let table = build(vec![
        rule("S", &["x", "A"]),
        rule("A", &["y"]),
        rule("S", &["x", "y"]),
    ]);
    let after_x = shift(&table, 0, "x");
    let after_y = shift(&table, after_x, "y");
    let items = table.set(after_y).expect("state").rules();
    assert_eq!(items.len(), 2);
    assert_eq!(items[0].left(), "S");
    assert_eq!(items[1].left(), "A");
    match table.get_action(after_y, "$") {
        Action::Reduce(rule) => assert_eq!(rule.left(), "A"),
        _ => panic!("the state reduces"),
    }
    let other = build(vec![
        rule("S", &["x", "A"]),
        rule("S", &["x", "y"]),
        rule("A", &["y"]),
    ]);
    let after_x = shift(&other, 0, "x");
    let after_y = shift(&other, after_x, "y");
    match other.get_action(after_y, "$") {
        Action::Reduce(rule) => assert_eq!(rule.left(), "S"),
        _ => panic!("the state reduces"),
    }
}

#[test]
fn two_tables_of_one_grammar_are_equal() {
    let one = arithmetic();
    let two = arithmetic();
    assert_eq!(one.state_count(), two.state_count());
    for s in 0..one.state_count() {
        let a = one.set(s).expect("state").rules();
        let b = two.set(s).expect("state").rules();
        assert_eq!(a.len(), b.len());
        for (x, y) in a.iter().zip(b.iter()) {
            assert!(x == y);
        }
    }
}

#[test]
fn arithmetic_table_has_no_conflict() {
    let table = arithmetic();
    for s in 0..table.state_count() {
        let items = table.set(s).expect("state").rules();
        if items.iter().any(|r| r.is_reducable()) {
            assert_eq!(items.len(), 1, "state {} mixes a reduction with other items", s);
        }
    }
}
