//! What a successful parse is worth: the tree it returns is built by the
//! rules of the grammar and reads the input, token by token.

use crate::automaton::{
    end_mark, finished, from_grammar, is_automaton, Item, justified, kernel_of, kernels, linked,
    reduction_of, successors, TableView, wins,
};
use crate::parse_table::{action_of, ActionView, first_shift, shift_of};
use crate::parser::{
    Config, decide, fits, initial, parse_of, reduced, run, shifted, Step, Tree, valued,
};
use crate::tokenizer::TokenView;
use vstd::prelude::*;

verus! {

/// The trees stand for the symbols of the right-hand side, one for one.
pub open spec fn rule_fits(right: Seq<Seq<char>>, kids: Seq<Tree>) -> bool {
    &&& right.len() == kids.len()
    &&& forall|i: int| 0 <= i < kids.len() ==> fits(#[trigger] kids[i], right[i])
}

/// Some rule of the grammar produces `name` from symbols that `kids` stand
/// for.
pub open spec fn instance_of(rules: Seq<Item>, name: Seq<char>, kids: Seq<Tree>) -> bool {
    exists|r: int|
        0 <= r < rules.len() && (#[trigger] rules[r]).left == name && rule_fits(
            rules[r].right,
            kids,
        )
}

/// Every nonterminal of the tree is produced by a rule of the grammar from
/// what stands below it.
pub open spec fn derives(rules: Seq<Item>, tree: Tree) -> bool
    decreases tree,
{
    match tree {
        Tree::Leaf(_) => true,
        Tree::Branch(name, kids) => {
            &&& instance_of(rules, name, kids)
            &&& forall|i: int| 0 <= i < kids.len() ==> derives(rules, #[trigger] kids[i])
        },
    }
}

/// The tokens of a tree, from left to right.
pub open spec fn fringe(tree: Tree) -> Seq<TokenView>
    decreases tree,
{
    match tree {
        Tree::Leaf(token) => seq![token],
        Tree::Branch(_, kids) => fringe_all(kids),
    }
}

/// The tokens of a list of trees, from left to right.
pub open spec fn fringe_all(trees: Seq<Tree>) -> Seq<TokenView>
    decreases trees,
{
    if trees.len() == 0 {
        Seq::empty()
    } else {
        fringe_all(trees.drop_last()) + fringe(trees.last())
    }
}

/// The tokens of a list of trees with one more tree behind.
pub proof fn lemma_fringe_push(trees: Seq<Tree>, tree: Tree)
    ensures
        fringe_all(trees.push(tree)) == fringe_all(trees) + fringe(tree),
{
    let all = trees.push(tree);
    assert(all.drop_last() =~= trees);
    assert(all.last() == tree);
    assert(fringe_all(all) == fringe_all(all.drop_last()) + fringe(all.last()));
}

/// The tokens of two lists of trees, one after the other.
pub proof fn lemma_fringe_concat(a: Seq<Tree>, b: Seq<Tree>)
    ensures
        fringe_all(a + b) == fringe_all(a) + fringe_all(b),
    decreases b.len(),
{
    if b.len() == 0 {
        assert(a + b =~= a);
        assert(fringe_all(a) + fringe_all(b) =~= fringe_all(a));
    } else {
        assert((a + b).drop_last() =~= a + b.drop_last());
        assert((a + b).last() == b.last());
        lemma_fringe_concat(a, b.drop_last());
        assert((fringe_all(a) + fringe_all(b.drop_last())) + fringe(b.last()) =~= fringe_all(a) + (
        fringe_all(b.drop_last()) + fringe(b.last())));
    }
}

/// The tree leads from state `from` to state `to`: the state has a shift
/// to `to` over a symbol that the tree stands for.
pub open spec fn step_ok(t: TableView, from: nat, tree: Tree, to: nat) -> bool {
    &&& from < t.states.len()
    &&& exists|x: Seq<char>| fits(tree, x) && #[trigger] shift_of(t.states[from as int], x) == Some(to)
}

/// The states of the executor are those that its trees lead through from
/// state 0.
pub open spec fn on_path(t: TableView, c: Config) -> bool {
    &&& c.states.len() == c.stack.len() + 1
    &&& c.states[0] == 0
    &&& forall|i: int|
        0 <= i < c.stack.len() ==> #[trigger] step_ok(t, c.states[i], c.stack[i], c.states[i + 1])
}

/// The executor has built, by rules of the grammar, trees that read the
/// tokens taken so far, and stands in the state that they lead to.
pub open spec fn sound(t: TableView, tokens: Seq<TokenView>, c: Config) -> bool {
    &&& on_path(t, c)
    &&& c.pos <= tokens.len()
    &&& forall|i: int| 0 <= i < c.stack.len() ==> derives(t.rules, #[trigger] c.stack[i])
    &&& fringe_all(c.stack) == tokens.take(c.pos as int)
}

/// In an automaton, a shift over a symbol leads to the state whose kernel
/// is made of the items that expect the symbol.
pub proof fn lemma_shift_target(t: TableView, s: int, x: Seq<char>, to: nat)
    requires
        is_automaton(t),
        0 <= s < t.states.len(),
        shift_of(t.states[s], x) == Some(to),
    ensures
        to < t.states.len(),
        kernel_of(t.states[to as int]) == successors(t.states[s], x),
        x != end_mark(),
{
    let items = t.states[s];
    let q = choose|q: int| first_shift(items, x, q);
    assert(finished(t.rules, t.states[s], kernels(t.states)));
    assert(linked(items, kernels(t.states), q));
    assert(kernels(t.states)[to as int] == kernel_of(t.states[to as int]));
}

/// In an automaton, the symbols before the dot of an item of the state
/// that the executor stands in are those that the trees on top of the
/// stack stand for.
pub proof fn lemma_item_on_path(t: TableView, c: Config, n: int, q: int)
    requires
        is_automaton(t),
        on_path(t, c),
        0 <= n <= c.stack.len(),
        c.states[n] < t.states.len(),
        0 <= q < t.states[c.states[n] as int].len(),
    ensures
        ({
            let item = t.states[c.states[n] as int][q];
            &&& item.dot <= n
            &&& forall|m: int|
                0 <= m < item.dot ==> fits(c.stack[n - item.dot + m], #[trigger] item.right[m])
        }),
    decreases n,
{
    let s = c.states[n] as int;
    let items = t.states[s];
    let item = items[q];
    assert(finished(t.rules, t.states[s], kernels(t.states)));
    if item.dot > 0 {
        assert(justified(t.rules, items, q));
        assert(item.kernel);
        assert(kernel_of(items).contains(item.key()));
        if n == 0 {
            assert(item.key() == t.rules.last());
            assert(false);
        } else {
            assert(step_ok(t, c.states[n - 1], c.stack[n - 1], c.states[n - 1 + 1]));
            let prev = c.states[n - 1] as int;
            let x = choose|x: Seq<char>|
                fits(c.stack[n - 1], x) && #[trigger] shift_of(t.states[prev], x) == Some(
                    c.states[n],
                );
            lemma_shift_target(t, prev, x, c.states[n]);
            assert(successors(t.states[prev], x).contains(item.key()));
            let i = choose|i: int|
                0 <= i < t.states[prev].len() && (#[trigger] t.states[prev][i]).expects(x)
                    && t.states[prev][i].advance() == item.key();
            lemma_item_on_path(t, c, n - 1, i);
            let before = t.states[prev][i];
            assert(before.dot + 1 == item.dot);
            assert(before.right == item.right);
            assert forall|m: int| 0 <= m < item.dot implies fits(
                c.stack[n - item.dot + m],
                #[trigger] item.right[m],
            ) by {
                if m < before.dot {
                    assert(fits(c.stack[(n - 1) - before.dot + m], before.right[m]));
                    assert((n - 1) - before.dot + m == n - item.dot + m);
                } else {
                    assert(item.right[m] == x);
                }
            }
        }
    }
}

/// A shift keeps the executor sound.
pub proof fn lemma_shift_sound(t: TableView, tokens: Seq<TokenView>, c: Config, j: nat)
    requires
        is_automaton(t),
        sound(t, tokens, c),
        c.pos < tokens.len(),
        decide(t, tokens, c) == Step::Shift(j),
    ensures
        sound(t, tokens, shifted(t, tokens, c, j)),
{
    let next = shifted(t, tokens, c, j);
    let token = tokens[c.pos as int];
    let leaf = Tree::Leaf(token);
    let state = c.states.last();
    let n = c.stack.len() as int;
    assert(state < t.states.len());
    assert(step_ok(t, state, leaf, j)) by {
        if action_of(t, state as int, valued(token)) is Shift {
            assert(fits(leaf, valued(token)));
            assert(shift_of(t.states[state as int], valued(token)) == Some(j));
        } else {
            assert(fits(leaf, token.name));
            assert(shift_of(t.states[state as int], token.name) == Some(j));
        }
    }
    assert forall|i: int| 0 <= i < next.stack.len() implies #[trigger] step_ok(
        t,
        next.states[i],
        next.stack[i],
        next.states[i + 1],
    ) by {
        if i < n {
            assert(step_ok(t, c.states[i], c.stack[i], c.states[i + 1]));
        }
    }
    assert forall|i: int| 0 <= i < next.stack.len() implies derives(
        t.rules,
        #[trigger] next.stack[i],
    ) by {
        if i < n {
            assert(derives(t.rules, c.stack[i]));
        }
    }
    lemma_fringe_push(c.stack, leaf);
    assert(fringe(leaf) == seq![token]);
    assert(tokens.take(c.pos as int + 1) =~= tokens.take(c.pos as int) + seq![token]);
}

/// In an automaton, a sound executor that is told to reduce finds the
/// trees of the rule on top of its stack.
pub proof fn lemma_reduction_fits(t: TableView, tokens: Seq<TokenView>, c: Config, rule: Item)
    requires
        is_automaton(t),
        sound(t, tokens, c),
        decide(t, tokens, c) == Step::Reduce(rule),
    ensures
        rule.right.len() > 0,
        rule.right.len() <= c.stack.len(),
        rule_fits(rule.right, c.stack.skip(c.stack.len() - rule.right.len())),
        instance_of(t.rules, rule.left, c.stack.skip(c.stack.len() - rule.right.len())),
{
    let state = c.states.last() as int;
    let n = c.stack.len() as int;
    assert(0 <= state < t.states.len() && t.reductions.contains_key(state) && t.reductions[state]
        == rule);
    let items = t.states[state];
    assert(reduction_of(t.rules, items) == Some(rule));
    let f = choose|f: int| wins(t.rules, items, f);
    assert(items[f] == rule);
    lemma_item_on_path(t, c, n, f);
    assert(finished(t.rules, t.states[state], kernels(t.states)));
    assert(from_grammar(t.rules, rule));
    let r = choose|r: int|
        0 <= r < t.rules.len() && (#[trigger] t.rules[r]).left == rule.left && t.rules[r].right
            == rule.right;
    assert(t.rules[r].right.len() > 0);
    let k = rule.right.len() as int;
    let kids = c.stack.skip(n - k);
    assert forall|i: int| 0 <= i < kids.len() implies fits(#[trigger] kids[i], rule.right[i]) by {
        assert(fits(c.stack[n - rule.dot + i], rule.right[i]));
    }
    assert(rule_fits(t.rules[r].right, kids));
}

/// A reduction keeps the executor sound.
pub proof fn lemma_reduce_sound(
    t: TableView,
    tokens: Seq<TokenView>,
    c: Config,
    rule: Item,
    next: Config,
)
    requires
        is_automaton(t),
        sound(t, tokens, c),
        decide(t, tokens, c) == Step::Reduce(rule),
        reduced(t, c, rule) == Some(next),
    ensures
        sound(t, tokens, next),
{
    lemma_reduction_fits(t, tokens, c, rule);
    let n = c.stack.len() as int;
    let k = rule.right.len() as int;
    let kept = c.stack.take(n - k);
    let kids = c.stack.skip(n - k);
    let branch = Tree::Branch(rule.left, kids);
    let below = c.states.take(c.states.len() - k);
    let j = next.states.last();
    assert(next.stack == kept.push(branch));
    assert(next.states == below.push(j));
    assert(action_of(t, below.last() as int, rule.left) == ActionView::Shift(j));
    assert(step_ok(t, below.last(), branch, j)) by {
        assert(fits(branch, rule.left));
        assert(shift_of(t.states[below.last() as int], rule.left) == Some(j));
    }
    assert forall|i: int| 0 <= i < next.stack.len() implies #[trigger] step_ok(
        t,
        next.states[i],
        next.stack[i],
        next.states[i + 1],
    ) by {
        if i < n - k {
            assert(step_ok(t, c.states[i], c.stack[i], c.states[i + 1]));
        }
    }
    assert(derives(t.rules, branch)) by {
        assert forall|i: int| 0 <= i < kids.len() implies derives(t.rules, #[trigger] kids[i]) by {
            assert(derives(t.rules, c.stack[n - k + i]));
        }
    }
    assert forall|i: int| 0 <= i < next.stack.len() implies derives(
        t.rules,
        #[trigger] next.stack[i],
    ) by {
        if i < n - k {
            assert(derives(t.rules, c.stack[i]));
        }
    }
    assert(fringe_all(next.stack) == fringe_all(c.stack)) by {
        lemma_fringe_push(kept, branch);
        assert(fringe(branch) == fringe_all(kids));
        assert(kept + kids =~= c.stack);
        lemma_fringe_concat(kept, kids);
    }
}

/// From a sound executor, a parse that succeeds returns a tree that is
/// built by the rules of the grammar and reads the whole input.
pub proof fn lemma_run_sound(t: TableView, tokens: Seq<TokenView>, c: Config)
    requires
        is_automaton(t),
        sound(t, tokens, c),
    ensures
        run(t, tokens, c) matches Ok(tree) ==> tree is Branch && derives(t.rules, tree) && fringe(
            tree,
        ) == tokens,
    decreases tokens.len() - c.pos, c.stack.len(), c.budget,
{
    match decide(t, tokens, c) {
        Step::Shift(j) => {
            if c.pos < tokens.len() {
                lemma_shift_sound(t, tokens, c, j);
                lemma_run_sound(t, tokens, shifted(t, tokens, c, j));
            }
        },
        Step::Reduce(rule) => match reduced(t, c, rule) {
            Some(next) => {
                lemma_reduce_sound(t, tokens, c, rule, next);
                lemma_run_sound(t, tokens, next);
            },
            None => {},
        },
        Step::Stop => {
            if c.pos >= tokens.len() && c.stack.len() == 1 && c.stack[0] is Branch {
                assert(derives(t.rules, c.stack[0]));
                assert(c.stack =~= Seq::<Tree>::empty().push(c.stack[0]));
                lemma_fringe_push(Seq::<Tree>::empty(), c.stack[0]);
                assert(fringe_all(Seq::<Tree>::empty()) =~= Seq::<TokenView>::empty());
                assert(fringe_all(c.stack) =~= fringe(c.stack[0]));
                assert(tokens.take(c.pos as int) =~= tokens);
            }
        },
    }
}

/// A parse that succeeds returns a tree under a nonterminal, in which
/// every nonterminal stands above trees that fit the right-hand side of
/// one of its rules, and whose tokens, read from left to right, are the
/// input.
pub proof fn lemma_parse_sound(t: TableView, tokens: Seq<TokenView>)
    requires
        is_automaton(t),
    ensures
        parse_of(t, tokens) matches Ok(tree) ==> tree is Branch && derives(t.rules, tree)
            && fringe(tree) == tokens,
{
    let c = initial(t);
    assert(fringe_all(c.stack) =~= tokens.take(0));
    lemma_run_sound(t, tokens, c);
}

/// Where an item that expects a symbol has a target, the state has a
/// shift over the symbol.
pub proof fn lemma_some_shift(items: Seq<Item>, symbol: Seq<char>, q: int)
    requires
        0 <= q < items.len(),
        items[q].expects(symbol),
        items[q].target is Some,
    ensures
        shift_of(items, symbol) is Some,
    decreases q,
{
    if exists|k: int|
        0 <= k < q && (#[trigger] items[k]).expects(symbol) && items[k].target is Some {
        let k = choose|k: int|
            0 <= k < q && (#[trigger] items[k]).expects(symbol) && items[k].target is Some;
        lemma_some_shift(items, symbol, k);
    } else {
        assert(first_shift(items, symbol, q));
        let w = choose|w: int| first_shift(items, symbol, w);
        assert(items[w].target is Some);
    }
}

} // verus!
