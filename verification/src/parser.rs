//! The shift-reduce executor: it drives a list of tokens through the
//! table of a grammar and builds the parse tree.

use crate::automaton::{
    augmented, end_mark, finished, from_grammar, is_automaton, Item, justified, kernel_of, kernels,
    lemma_no_reducible, reduction_of, TableView, valid_grammar,
};
use crate::derivation::{derives, fringe, lemma_parse_sound};
use crate::parse_table::{
    Action, action_of, ActionView, first_shift, items_of, ParseTable, ParseTableError, TableRule,
};
use crate::text::{lemma_pieces_nonempty, split_spaces, split_words};
use crate::tokenizer::{Token, tokens_of, TokenView};
use vstd::prelude::*;
use vstd::string::StringExecFns;

verus! {

/// A parse tree: a token, or the name of a rule above the trees of its
/// right-hand side.
pub enum Tree {
    /// A token of the input.
    Leaf(TokenView),
    /// A nonterminal with what it was reduced from.
    Branch(Seq<char>, Seq<Tree>),
}

/// A node of the parse tree: the nonterminal that was reduced to and what
/// it was reduced from.
#[derive(Debug)]
pub struct Node {
    /// The left-hand side of the rule.
    pub name: String,
    /// What stood for the right-hand side of the rule, in order.
    pub children: Vec<Symbol>,
}

/// What the stack of the executor holds.
#[derive(Debug)]
pub enum Symbol {
    /// A reduced nonterminal.
    NonTerminal(Node),
    /// A token that was shifted.
    Terminal(Token),
}

/// The tree that a stack symbol stands for.
pub open spec fn tree_of(symbol: Symbol) -> Tree
    decreases symbol,
{
    match symbol {
        Symbol::Terminal(token) => Tree::Leaf(token@),
        Symbol::NonTerminal(node) => Tree::Branch(
            node.name@,
            Seq::new(
                node.children@.len(),
                |i: int|
                    if 0 <= i < node.children@.len() {
                        tree_of(node.children@[i])
                    } else {
                        arbitrary()
                    },
            ),
        ),
    }
}

impl View for Symbol {
    type V = Tree;

    open spec fn view(&self) -> Tree {
        tree_of(*self)
    }
}

/// The tree of a node has the node's name above the trees of its children.
pub proof fn lemma_node_tree(node: Node)
    ensures
        Symbol::NonTerminal(node)@ == Tree::Branch(node.name@, trees_of(node.children@)),
{
    let tree = Symbol::NonTerminal(node)@;
    assert(tree is Branch);
    assert(tree->Branch_1.len() == node.children@.len());
    assert(tree->Branch_1 =~= trees_of(node.children@));
}

/// Whether a tree stands for the symbol specifier: a token does for its
/// name and for its name with its value in brackets, a nonterminal for its
/// name.
pub open spec fn fits(tree: Tree, specifier: Seq<char>) -> bool {
    match tree {
        Tree::Leaf(token) => specifier == token.name || specifier == valued(token),
        Tree::Branch(name, _) => specifier == name,
    }
}

/// A token fits its bare name and its name with its own value, and not
/// its name with another value.
pub proof fn lemma_valued_is_more_specific(token: TokenView, other: Seq<char>)
    requires
        other != token.value,
    ensures
        fits(Tree::Leaf(token), token.name),
        fits(Tree::Leaf(token), valued(token)),
        fits(Tree::Leaf(TokenView { name: token.name, value: other }), token.name),
        !fits(Tree::Leaf(TokenView { name: token.name, value: other }), valued(token)),
{
    reveal_strlit("(");
    reveal_strlit(")");
    let twin = TokenView { name: token.name, value: other };
    let a = valued(token);
    let b = valued(twin);
    assert(a.len() == token.name.len() + 1 + token.value.len() + 1);
    assert(b.len() == token.name.len() + 1 + other.len() + 1);
    if a == b {
        assert(token.value.len() == other.len());
        assert forall|i: int| 0 <= i < other.len() implies token.value[i] == other[i] by {
            assert(a[token.name.len() + 1 + i] == token.value[i]);
            assert(b[token.name.len() + 1 + i] == other[i]);
        }
        assert(token.value =~= other);
    }
}

/// The trees of a list of stack symbols, in order.
pub open spec fn trees_of(stack: Seq<Symbol>) -> Seq<Tree> {
    stack.map_values(|s: Symbol| s@)
}

/// Why a parse failed: the view of `ParseError`.
pub enum ParseErrorView {
    /// The token could not be taken.
    UnexpectedToken(TokenView),
    /// The input ended and the stack, given here, is not one tree.
    UnexpectedEndOfInput(Seq<Tree>),
}

/// Why a parse failed.
#[derive(Debug)]
pub enum ParseError {
    /// The token could neither be shifted nor reduced before.
    UnexpectedToken(Token),
    /// The input ended while the stack, given here from the bottom, was
    /// not a single nonterminal.
    UnexpectedEndOfInput(Vec<Symbol>),
}

impl View for ParseError {
    type V = ParseErrorView;

    open spec fn view(&self) -> ParseErrorView {
        match self {
            ParseError::UnexpectedToken(token) => ParseErrorView::UnexpectedToken(token@),
            ParseError::UnexpectedEndOfInput(stack) => ParseErrorView::UnexpectedEndOfInput(
                trees_of(stack@),
            ),
        }
    }
}

/// The specifier `NAME(value)` that names a token exactly.
pub open spec fn valued(token: TokenView) -> Seq<char> {
    token.name + "("@ + token.value + ")"@
}

/// Where the executor stands: the trees built so far, the states passed
/// (one more than trees), the number of tokens taken, and how many
/// reductions of a single symbol may still follow each other.
pub struct Config {
    /// The trees built so far, the latest last.
    pub stack: Seq<Tree>,
    /// The state below the stack and the state after each tree.
    pub states: Seq<nat>,
    /// How many tokens were taken.
    pub pos: nat,
    /// How many reductions of a single symbol may follow each other.
    pub budget: nat,
}

/// What the executor does next.
pub enum Step {
    /// Take the token and go to the state.
    Shift(nat),
    /// Reduce by the rule.
    Reduce(Item),
    /// Neither is possible.
    Stop,
}

/// The next step. A token is first looked up as `NAME(value)`, then as
/// `NAME`: a shift over either is taken, the exact one first; without a
/// shift, the state's reduction; without that, a stop. At the end of the
/// input only a reduction is possible.
pub open spec fn decide_at(t: TableView, tokens: Seq<TokenView>, state: int, pos: nat) -> Step {
    if pos < tokens.len() {
        let token = tokens[pos as int];
        match action_of(t, state, valued(token)) {
            ActionView::Shift(j) => Step::Shift(j),
            _ => match action_of(t, state, token.name) {
                ActionView::Shift(j) => Step::Shift(j),
                ActionView::Reduce(rule) => Step::Reduce(rule),
                ActionView::Error(_) => Step::Stop,
            },
        }
    } else {
        match action_of(t, state, end_mark()) {
            ActionView::Reduce(rule) => Step::Reduce(rule),
            _ => Step::Stop,
        }
    }
}

/// The next step of the executor at `c`.
pub open spec fn decide(t: TableView, tokens: Seq<TokenView>, c: Config) -> Step {
    decide_at(t, tokens, c.states.last() as int, c.pos)
}

/// The executor after the token at `c.pos` was shifted to state `j`.
pub open spec fn shifted(t: TableView, tokens: Seq<TokenView>, c: Config, j: nat) -> Config {
    Config {
        stack: c.stack.push(Tree::Leaf(tokens[c.pos as int])),
        states: c.states.push(j),
        pos: c.pos + 1,
        budget: t.states.len(),
    }
}

/// The executor after a reduction by `rule`: as many trees as the rule has
/// symbols leave the stack and become the children of a new tree under the
/// rule's name; the state that was below them leads over that name to the
/// next state. There is no such step where the rule is empty, the stack is
/// too short, the state below has no shift over the name, or more
/// reductions of a single symbol have followed each other than the table
/// has states: such a chain repeats a state and would not end.
pub open spec fn reduced(t: TableView, c: Config, rule: Item) -> Option<Config> {
    let k = rule.right.len();
    if k == 0 || c.stack.len() < k || (k == 1 && c.budget == 0) {
        None
    } else {
        let below = c.states.take(c.states.len() - k);
        match action_of(t, below.last() as int, rule.left) {
            ActionView::Shift(j) => Some(
                Config {
                    stack: c.stack.take(c.stack.len() - k).push(
                        Tree::Branch(rule.left, c.stack.skip(c.stack.len() - k)),
                    ),
                    states: below.push(j),
                    pos: c.pos,
                    budget: if k == 1 {
                        (c.budget - 1) as nat
                    } else {
                        t.states.len()
                    },
                },
            ),
            _ => None,
        }
    }
}

/// The error of a parse that cannot go on: the token that is next, or,
/// at the end of the input, the stack.
pub open spec fn failure(tokens: Seq<TokenView>, c: Config) -> ParseErrorView {
    if c.pos < tokens.len() {
        ParseErrorView::UnexpectedToken(tokens[c.pos as int])
    } else {
        ParseErrorView::UnexpectedEndOfInput(c.stack)
    }
}

/// The result of a parse that has stopped: the tree, where the input is
/// used up and the stack is a single nonterminal; else the error.
pub open spec fn verdict(tokens: Seq<TokenView>, c: Config) -> Result<Tree, ParseErrorView> {
    if c.pos >= tokens.len() && c.stack.len() == 1 && c.stack[0] is Branch {
        Ok(c.stack[0])
    } else {
        Err(failure(tokens, c))
    }
}

/// The result of the parse that goes on from `c`.
pub open spec fn run(t: TableView, tokens: Seq<TokenView>, c: Config) -> Result<
    Tree,
    ParseErrorView,
>
    decreases tokens.len() - c.pos, c.stack.len(), c.budget,
{
    if c.states.len() != c.stack.len() + 1 {
        Err(failure(tokens, c))
    } else {
        match decide(t, tokens, c) {
            Step::Shift(j) => if c.pos < tokens.len() {
                run(t, tokens, shifted(t, tokens, c, j))
            } else {
                Err(failure(tokens, c))
            },
            Step::Reduce(rule) => match reduced(t, c, rule) {
                Some(next) => run(t, tokens, next),
                None => Err(failure(tokens, c)),
            },
            Step::Stop => verdict(tokens, c),
        }
    }
}

/// Where every parse starts: nothing built, state 0.
pub open spec fn initial(t: TableView) -> Config {
    Config { stack: Seq::empty(), states: seq![0nat], pos: 0, budget: t.states.len() }
}

/// The result of parsing `tokens` with table `t`.
pub open spec fn parse_of(t: TableView, tokens: Seq<TokenView>) -> Result<Tree, ParseErrorView> {
    run(t, tokens, initial(t))
}

/// A rule as a grammar author writes it: views of `Rule`.
pub struct RuleView {
    /// The nonterminal that the rule produces.
    pub name: Seq<char>,
    /// The symbol specifiers of the right-hand side, with a space between
    /// each two.
    pub rule: Seq<char>,
}

/// A rule as a grammar author writes it: a name and the symbol specifiers
/// of the right-hand side, with a space between each two.
pub struct Rule {
    name: String,
    rule: String,
}

impl View for Rule {
    type V = RuleView;

    closed spec fn view(&self) -> RuleView {
        RuleView { name: self.name@, rule: self.rule@ }
    }
}

impl Rule {
    /// The rule `name -> rule`.
    pub fn new(name: String, rule: String) -> (r: Self)
        ensures
            r@ == (RuleView { name: name@, rule: rule@ }),
    {
        Rule { name: name, rule: rule }
    }
}

/// The rule of the table that a written rule stands for.
pub open spec fn item_of(rule: RuleView) -> Item {
    Item::fresh(rule.name, split_spaces(rule.rule))
}

/// The rules of the table that a written grammar stands for.
pub open spec fn grammar_of(rules: Seq<Rule>) -> Seq<Item> {
    rules.map_values(|r: Rule| item_of(r@))
}

/// The next step of the executor as it is run.
enum Move<'a> {
    Shift(usize),
    Reduce(&'a TableRule),
    Stop,
}

impl<'a> View for Move<'a> {
    type V = Step;

    closed spec fn view(&self) -> Step {
        match self {
            Move::Shift(j) => Step::Shift(*j as nat),
            Move::Reduce(rule) => Step::Reduce(rule@),
            Move::Stop => Step::Stop,
        }
    }
}

/// The specifier `NAME(value)` of a token.
fn valued_symbol(token: &Token) -> (s: String)
    ensures
        s@ == valued(token@),
{
    let mut s = token.name.clone();
    s.append("(");
    s.append(token.value.as_str());
    s.append(")");
    s
}

impl Symbol {
    /// Whether the symbol stands for `specifier`: a token does for `NAME`
    /// and for `NAME(value)` with its own name and value; a nonterminal
    /// for its name.
    pub fn matches(&self, specifier: &str) -> (r: bool)
        ensures
            r == fits(self@, specifier@),
    {
        let wanted = specifier.to_owned();
        match self {
            Symbol::Terminal(token) => token.name == wanted || valued_symbol(token) == wanted,
            Symbol::NonTerminal(node) => {
                proof {
                    lemma_node_tree(*node);
                }
                node.name == wanted
            },
        }
    }
}

/// The states of a list as numbers.
pub open spec fn numbers_of(states: Seq<usize>) -> Seq<nat> {
    states.map_values(|s: usize| s as nat)
}

/// A parser for one grammar.
pub struct Parser {
    parse_table: ParseTable,
}

impl View for Parser {
    type V = TableView;

    closed spec fn view(&self) -> TableView {
        self.parse_table@
    }
}

impl Parser {
    /// The table of a parser is the automaton of its grammar.
    #[verifier::type_invariant]
    spec fn holds_automaton(self) -> bool {
        is_automaton(self.parse_table@)
    }

    /// The table rules of one written rule.
    fn adapt_rule(rule: Rule) -> (r: Vec<TableRule>)
        ensures
            items_of(r@) == seq![item_of(rule@)],
    {
        let mut out: Vec<TableRule> = Vec::new();
        let right = split_words(rule.rule.as_str());
        out.push(TableRule::new(rule.name, right));
        assert(items_of(out@) =~= seq![item_of(rule@)]);
        out
    }

    /// The table rules of a written grammar, in order.
    fn transform_rules(rules: Vec<Rule>) -> (r: Vec<TableRule>)
        ensures
            items_of(r@) == grammar_of(rules@),
    {
        let ghost given = rules@;
        let mut table_rules: Vec<TableRule> = Vec::new();
        assert(given.take(0) =~= Seq::<Rule>::empty());
        for rule in it: rules
            invariant
                it.seq() == given,
                items_of(table_rules@) == grammar_of(given.take(it.index() as int)),
        {
            let ghost done = it.index() as int;
            let ghost before = items_of(table_rules@);
            let mut adapted = Self::adapt_rule(rule);
            let ghost piece = items_of(adapted@);
            table_rules.append(&mut adapted);
            proof {
                assert(items_of(table_rules@) =~= before + piece);
                assert(grammar_of(given.take(done + 1)) =~= grammar_of(given.take(done)) + seq![
                    item_of(given[done]@),
                ]);
            }
        }
        assert(given.take(given.len() as int) =~= given);
        table_rules
    }

    /// A parser for the grammar `rules`, whose first rule is the start
    /// rule; `NoRulesSpecified` where there is no rule.
    pub fn new(rules: Vec<Rule>) -> (r: Result<Self, ParseTableError>)
        ensures
            match r {
                Ok(parser) => rules@.len() > 0 && parser@.rules == augmented(grammar_of(rules@))
                    && is_automaton(parser@),
                Err(e) => rules@.len() == 0 && e == ParseTableError::NoRulesSpecified,
            },
    {
        proof {
            if rules@.len() > 0 {
                lemma_written_grammar(rules@);
            }
        }
        match ParseTable::new(Self::transform_rules(rules)) {
            Ok(parse_table) => Ok(Parser { parse_table }),
            Err(e) => Err(e),
        }
    }

    /// The table that the parser follows.
    pub fn table(&self) -> (r: &ParseTable)
        ensures
            r@ == self@,
            is_automaton(r@),
    {
        proof {
            use_type_invariant(self);
        }
        &self.parse_table
    }

    /// Parses `input`: the executor starts in state 0 with an empty stack
    /// and follows the table until it stops. The result is the tree that
    /// is left, where the input is used up and the stack holds a single
    /// nonterminal; `UnexpectedToken` with the token at which no step was
    /// possible; or `UnexpectedEndOfInput` with the stack, where the input
    /// is used up and the stack is not a single nonterminal. A tree that
    /// is returned is built by the rules of the grammar, and its tokens
    /// are the input.
    pub fn parse(&self, input: Vec<Token>) -> (r: Result<Node, ParseError>)
        ensures
            is_automaton(self@),
            match r {
                Ok(node) => parse_of(self@, tokens_of(input@)) == Ok::<Tree, ParseErrorView>(
                    Symbol::NonTerminal(node)@,
                ),
                Err(e) => parse_of(self@, tokens_of(input@)) == Err::<Tree, ParseErrorView>(e@),
            },
            input@.len() == 0 ==> (r matches Err(ParseError::UnexpectedEndOfInput(stack))
                && stack@.len() == 0),
            r matches Ok(node) ==> derives(self@.rules, Symbol::NonTerminal(node)@) && fringe(
                Symbol::NonTerminal(node)@,
            ) == tokens_of(input@),
    {
        proof {
            use_type_invariant(self);
            if input@.len() == 0 {
                assert(tokens_of(input@) =~= Seq::<TokenView>::empty());
                lemma_empty_input(self@);
            }
            lemma_parse_sound(self@, tokens_of(input@));
        }
        let ghost t = self@;
        let ghost tokens = tokens_of(input@);
        let count = self.parse_table.state_count();
        let mut stack: Vec<Symbol> = Vec::new();
        let mut states: Vec<usize> = Vec::new();
        states.push(0);
        let mut pos: usize = 0;
        let mut budget: usize = count;
        assert(numbers_of(states@) =~= seq![0nat]);
        assert(trees_of(stack@) =~= Seq::<Tree>::empty());
        loop
            invariant
                t == self@,
                is_automaton(t),
                input@.len() == 0 ==> parse_of(t, tokens) == Err::<Tree, ParseErrorView>(
                    ParseErrorView::UnexpectedEndOfInput(Seq::empty()),
                ),
                parse_of(t, tokens) matches Ok(tree) ==> derives(t.rules, tree) && fringe(tree)
                    == tokens,
                tokens == tokens_of(input@),
                count == t.states.len(),
                pos <= input@.len(),
                states@.len() == stack@.len() + 1,
                run(
                    t,
                    tokens,
                    Config {
                        stack: trees_of(stack@),
                        states: numbers_of(states@),
                        pos: pos as nat,
                        budget: budget as nat,
                    },
                ) == parse_of(t, tokens),
            decreases input@.len() - pos, stack@.len(), budget,
        {
            let ghost c = Config {
                stack: trees_of(stack@),
                states: numbers_of(states@),
                pos: pos as nat,
                budget: budget as nat,
            };
            let state = states[states.len() - 1];
            assert(c.states.last() == state as nat);
            match self.next_move(&input, state, pos) {
                Move::Shift(j) => {
                    if pos < input.len() {
                        let token = input[pos].clone();
                        assert(token@ == tokens[pos as int]);
                        stack.push(Symbol::Terminal(token));
                        states.push(j);
                        pos += 1;
                        budget = count;
                        proof {
                            let next = shifted(t, tokens, c, j as nat);
                            assert(trees_of(stack@) =~= next.stack);
                            assert(numbers_of(states@) =~= next.states);
                        }
                    } else {
                        return Err(ParseError::UnexpectedEndOfInput(stack));
                    }
                },
                Move::Reduce(rule) => {
                    let k = rule.right_len();
                    if k == 0 || stack.len() < k || (k == 1 && budget == 0) {
                        return Err(Self::failure_at(&input, pos, stack));
                    }
                    let below = states[states.len() - 1 - k];
                    assert(c.states.take(c.states.len() - k).last() == below as nat);
                    match self.parse_table.action_for(below, rule.left()) {
                        Action::Shift(j) => {
                            let ghost old_stack = stack@;
                            let ghost old_states = states@;
                            let children = stack.split_off(stack.len() - k);
                            states.truncate(states.len() - k);
                            let node = Symbol::NonTerminal(
                                Node { name: rule.left().clone(), children },
                            );
                            proof {
                                let cut = old_stack.len() - k;
                                assert(children@ =~= old_stack.subrange(
                                    cut,
                                    old_stack.len() as int,
                                ));
                                lemma_node_tree(node->NonTerminal_0);
                                assert(trees_of(children@) =~= c.stack.skip(cut));
                            }
                            stack.push(node);
                            states.push(j);
                            if k == 1 {
                                budget = budget - 1;
                            } else {
                                budget = count;
                            }
                            proof {
                                let next = reduced(t, c, rule@)->0;
                                assert(trees_of(stack@) =~= next.stack);
                                assert(numbers_of(states@) =~= next.states);
                            }
                        },
                        _ => {
                            return Err(Self::failure_at(&input, pos, stack));
                        },
                    }
                },
                Move::Stop => {
                    if pos >= input.len() && stack.len() == 1 {
                        match stack.pop() {
                            Some(Symbol::NonTerminal(node)) => {
                                return Ok(node);
                            },
                            Some(other) => {
                                let mut rest: Vec<Symbol> = Vec::new();
                                rest.push(other);
                                assert(trees_of(rest@) =~= c.stack);
                                return Err(ParseError::UnexpectedEndOfInput(rest));
                            },
                            None => {
                                return Err(ParseError::UnexpectedEndOfInput(stack));
                            },
                        }
                    }
                    return Err(Self::failure_at(&input, pos, stack));
                },
            }
        }
    }

    /// The error of a parse that cannot go on with `pos` tokens taken.
    fn failure_at(input: &Vec<Token>, pos: usize, stack: Vec<Symbol>) -> (e: ParseError)
        requires
            pos <= input@.len(),
        ensures
            e@ == failure(
                tokens_of(input@),
                Config { stack: trees_of(stack@), states: Seq::empty(), pos: pos as nat, budget: 0 },
            ),
    {
        if pos < input.len() {
            ParseError::UnexpectedToken(input[pos].clone())
        } else {
            ParseError::UnexpectedEndOfInput(stack)
        }
    }

    /// The next step at `state` with `pos` tokens taken.
    fn next_move(&self, input: &Vec<Token>, state: usize, pos: usize) -> (m: Move<'_>)
        requires
            pos <= input@.len(),
        ensures
            m@ == decide_at(self@, tokens_of(input@), state as int, pos as nat),
    {
        if pos < input.len() {
            let token = &input[pos];
            assert(tokens_of(input@)[pos as int] == token@);
            let exact = valued_symbol(token);
            match self.parse_table.action_for(state, &exact) {
                Action::Shift(j) => Move::Shift(j),
                _ => match self.parse_table.action_for(state, &token.name) {
                    Action::Shift(j) => Move::Shift(j),
                    Action::Reduce(rule) => Move::Reduce(rule),
                    Action::Error(_) => Move::Stop,
                },
            }
        } else {
            let end = "$".to_owned();
            match self.parse_table.action_for(state, &end) {
                Action::Reduce(rule) => Move::Reduce(rule),
                _ => Move::Stop,
            }
        }
    }
}

/// Every written rule has a symbol on its right-hand side.
pub proof fn lemma_written_grammar(rules: Seq<Rule>)
    requires
        rules.len() > 0,
    ensures
        valid_grammar(grammar_of(rules)),
{
    assert forall|r: int| 0 <= r < grammar_of(rules).len() implies (#[trigger] grammar_of(
        rules,
    )[r]).right.len() > 0 by {
        lemma_pieces_nonempty(rules[r]@.rule, 0, 0);
    }
}

/// In an automaton no item of state 0 has its dot at the end.
pub proof fn lemma_start_state(t: TableView)
    requires
        is_automaton(t),
    ensures
        reduction_of(t.rules, t.states[0]) is None,
        !t.reductions.contains_key(0),
{
    let items = t.states[0];
    assert(finished(t.rules, t.states[0], kernels(t.states)));
    assert forall|q: int| 0 <= q < items.len() implies !(#[trigger] items[q]).is_reducible() by {
        assert(from_grammar(t.rules, items[q]));
        let r = choose|r: int|
            0 <= r < t.rules.len() && (#[trigger] t.rules[r]).left == items[q].left
                && t.rules[r].right == items[q].right;
        assert(t.rules[r].right.len() > 0);
        if items[q].kernel {
            assert(kernel_of(items).contains(items[q].key()));
            assert(items[q].key() == t.rules.last());
        } else {
            assert(justified(t.rules, items, q));
        }
    }
    lemma_no_reducible(t.rules, items);
}

/// Parsing nothing fails at the end of the input, with an empty stack.
pub proof fn lemma_empty_input(t: TableView)
    requires
        is_automaton(t),
    ensures
        parse_of(t, Seq::empty()) == Err::<Tree, ParseErrorView>(
            ParseErrorView::UnexpectedEndOfInput(Seq::empty()),
        ),
{
    lemma_start_state(t);
    let c = initial(t);
    let tokens = Seq::<TokenView>::empty();
    assert(c.states.last() == 0);
    assert(decide(t, tokens, c) == Step::Stop);
}

/// No rule of the grammar has `token` on its right-hand side, neither by
/// its name nor by its name and value.
pub open spec fn unknown_to(rules: Seq<Item>, token: TokenView) -> bool {
    forall|r: int, k: int|
        0 <= r < rules.len() && 0 <= k < rules[r].right.len() ==> #[trigger] rules[r].right[k]
            != token.name && rules[r].right[k] != valued(token)
}

/// No state of an automaton shifts a symbol that no rule has.
pub proof fn lemma_no_shift(t: TableView, state: int, symbol: Seq<char>)
    requires
        is_automaton(t),
        forall|r: int, k: int|
            0 <= r < t.rules.len() && 0 <= k < t.rules[r].right.len() ==> #[trigger] t.rules[r].right[k]
                != symbol,
    ensures
        !(action_of(t, state, symbol) is Shift),
{
    if 0 <= state < t.states.len() {
        let items = t.states[state];
        if exists|q: int| first_shift(items, symbol, q) {
            let q = choose|q: int| first_shift(items, symbol, q);
            assert(finished(t.rules, t.states[state], kernels(t.states)));
            assert(from_grammar(t.rules, items[q]));
            let r = choose|r: int|
                0 <= r < t.rules.len() && (#[trigger] t.rules[r]).left == items[q].left
                    && t.rules[r].right == items[q].right;
            assert(t.rules[r].right[items[q].dot as int] == symbol);
        }
    }
}

/// A parse that has not yet taken token `i`, which no rule knows, fails
/// with a token at or before `i`.
pub proof fn lemma_run_stops_at_unknown(t: TableView, tokens: Seq<TokenView>, c: Config, i: int)
    requires
        is_automaton(t),
        0 <= i < tokens.len(),
        c.pos <= i,
        unknown_to(t.rules, tokens[i]),
    ensures
        run(t, tokens, c) matches Err(ParseErrorView::UnexpectedToken(found)) && exists|j: int|
            c.pos <= j <= i && tokens[j] == found,
    decreases tokens.len() - c.pos, c.stack.len(), c.budget,
{
    if c.states.len() != c.stack.len() + 1 {
        assert(tokens[c.pos as int] == tokens[c.pos as int]);
    } else {
        match decide(t, tokens, c) {
            Step::Shift(j) => {
                if c.pos == i {
                    lemma_no_shift(t, c.states.last() as int, valued(tokens[i]));
                    lemma_no_shift(t, c.states.last() as int, tokens[i].name);
                    assert(false);
                } else {
                    lemma_run_stops_at_unknown(t, tokens, shifted(t, tokens, c, j), i);
                }
            },
            Step::Reduce(rule) => match reduced(t, c, rule) {
                Some(next) => {
                    lemma_run_stops_at_unknown(t, tokens, next, i);
                },
                None => {
                    assert(tokens[c.pos as int] == tokens[c.pos as int]);
                },
            },
            Step::Stop => {
                assert(tokens[c.pos as int] == tokens[c.pos as int]);
            },
        }
    }
}

/// Where the input holds a token that no rule of the grammar knows, the
/// parse fails with `UnexpectedToken`: with that token, or with one before
/// it. Where it is the first token, it is the one reported.
pub proof fn lemma_unknown_token(t: TableView, tokens: Seq<TokenView>, i: int)
    requires
        is_automaton(t),
        0 <= i < tokens.len(),
        unknown_to(t.rules, tokens[i]),
    ensures
        parse_of(t, tokens) matches Err(ParseErrorView::UnexpectedToken(found)) && exists|j: int|
            0 <= j <= i && tokens[j] == found,
        i == 0 ==> parse_of(t, tokens) == Err::<Tree, ParseErrorView>(
            ParseErrorView::UnexpectedToken(tokens[0]),
        ),
{
    lemma_run_stops_at_unknown(t, tokens, initial(t), i);
}

} // verus!
