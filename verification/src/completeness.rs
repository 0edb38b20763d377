//! Sentences are parsed: where the table of a grammar has no conflict, a
//! list of tokens that a tree of the grammar reads is parsed to that tree.

use crate::automaton::{
    advanced, discovered, end_mark, finished, has_closure_item, is_automaton, Item, justified,
    kernel_keys, kernel_of, kernels, lemma_no_reducible, lemma_wins, linked, reached, served,
    successors, TableView, wins,
};
use crate::closure::lemma_distinct_indices_bounded;
use crate::derivation::{
    derives, fringe, fringe_all, instance_of, lemma_fringe_concat, lemma_fringe_push,
    lemma_shift_target, lemma_some_shift, rule_fits,
};
use crate::determinacy::lemma_kernel_in_front;
use crate::parse_table::{action_of, ActionView, first_shift, shift_of};
use crate::parser::{
    Config, decide, fits, initial, parse_of, ParseErrorView, reduced, run, shifted, Step, Tree,
    valued,
};
use crate::tokenizer::TokenView;
use vstd::prelude::*;

verus! {

/// No state has a conflict: a state that holds an item with its dot at
/// the end holds nothing else.
pub open spec fn conflict_free(t: TableView) -> bool {
    forall|s: int, q: int|
        0 <= s < t.states.len() && 0 <= q < t.states[s].len() && (
        #[trigger] t.states[s][q]).is_reducible() ==> t.states[s].len() == 1
}

/// No state has a shift both over the name of the token and over its name
/// with its value.
pub open spec fn plain(t: TableView, token: TokenView) -> bool {
    forall|s: int|
        0 <= s < t.states.len() ==> !(shift_of(#[trigger] t.states[s], valued(token)) is Some
            && shift_of(t.states[s], token.name) is Some)
}

/// The end mark stands in no rule of the grammar but the added one.
pub open spec fn proper(t: TableView) -> bool {
    forall|r: int|
        0 <= r < t.rules.len() - 1 ==> (#[trigger] t.rules[r]).left != end_mark() && forall|k: int|
            0 <= k < t.rules[r].right.len() ==> #[trigger] t.rules[r].right[k] != end_mark()
}

/// Position `p` holds the first item that expects `symbol`.
pub open spec fn first_expecting(items: Seq<Item>, symbol: Seq<char>, p: int) -> bool {
    &&& 0 <= p < items.len()
    &&& items[p].expects(symbol)
    &&& forall|k: int| 0 <= k < p ==> !(#[trigger] items[k]).expects(symbol)
}

/// The reductions of a single symbol that led the executor to where it
/// stands: the state below the top of its stack has shifts over the
/// symbols of `chain`, the last of them to the state on top; the first
/// items that expect these symbols stand at `places`, each before the one
/// before; and the executor may go on with as many such reductions as the
/// table has states, less those it has made.
pub open spec fn chained(
    t: TableView,
    c: Config,
    chain: Seq<Seq<char>>,
    places: Seq<int>,
) -> bool {
    let below = c.states[c.states.len() - 2];
    let items = t.states[below as int];
    &&& c.states.len() >= 2
    &&& below < t.states.len()
    &&& chain.len() >= 1
    &&& places.len() == chain.len()
    &&& c.budget + chain.len() == t.states.len() + 1
    &&& forall|i: int|
        0 <= i < chain.len() ==> first_expecting(items, #[trigger] chain[i], places[i]) && chain[i]
            != end_mark()
    &&& forall|i: int, j: int|
        0 <= i < j < chain.len() ==> #[trigger] places[i] > #[trigger] places[j]
    &&& shift_of(items, chain.last()) == Some(c.states.last())
}

/// The `count` tokens from position `from` on.
pub open spec fn range_of(tokens: Seq<TokenView>, from: nat, count: nat) -> Seq<TokenView> {
    tokens.subrange(from as int, from + count as int)
}

/// The table and the tokens are such that every sentence is parsed.
pub open spec fn fit_for(t: TableView, tokens: Seq<TokenView>) -> bool {
    &&& is_automaton(t)
    &&& conflict_free(t)
    &&& proper(t)
    &&& forall|i: int| 0 <= i < tokens.len() ==> plain(t, #[trigger] tokens[i])
}

/// The tokens of a single tree, as a list of trees.
pub proof fn lemma_fringe_one(tree: Tree)
    ensures
        fringe_all(seq![tree]) == fringe(tree),
{
    lemma_fringe_push(Seq::empty(), tree);
    assert(Seq::<Tree>::empty().push(tree) =~= seq![tree]);
    assert(fringe_all(Seq::<Tree>::empty()) =~= Seq::<TokenView>::empty());
    assert(Seq::<TokenView>::empty() + fringe(tree) =~= fringe(tree));
}

/// The tokens of a list of trees are those of its first tree and then
/// those of the rest.
pub proof fn lemma_fringe_first(kids: Seq<Tree>, i: int)
    requires
        0 <= i < kids.len(),
    ensures
        fringe_all(kids.skip(i)) == fringe(kids[i]) + fringe_all(kids.skip(i + 1)),
{
    assert(kids.skip(i) =~= seq![kids[i]] + kids.skip(i + 1));
    lemma_fringe_concat(seq![kids[i]], kids.skip(i + 1));
    lemma_fringe_one(kids[i]);
}

/// An item whose dot can move has a shift over the symbol behind the dot,
/// in an automaton.
pub proof fn lemma_item_shifts(t: TableView, s: int, q: int)
    requires
        is_automaton(t),
        0 <= s < t.states.len(),
        0 <= q < t.states[s].len(),
        t.states[s][q].can_advance(),
    ensures
        shift_of(t.states[s], t.states[s][q].next_symbol()) is Some,
{
    assert(finished(t.rules, t.states[s], kernels(t.states)));
    assert(linked(t.states[s], kernels(t.states), q));
    lemma_some_shift(t.states[s], t.states[s][q].next_symbol(), q);
}

/// A token that stands for the symbol behind the dot of an item is
/// shifted.
pub proof fn lemma_token_is_shifted(t: TableView, tokens: Seq<TokenView>, c: Config, q: int)
    requires
        fit_for(t, tokens),
        c.states.len() == c.stack.len() + 1,
        c.states.last() < t.states.len(),
        c.pos < tokens.len(),
        0 <= q < t.states[c.states.last() as int].len(),
        t.states[c.states.last() as int][q].can_advance(),
        fits(Tree::Leaf(tokens[c.pos as int]), t.states[c.states.last() as int][q].next_symbol()),
    ensures
        shift_of(
            t.states[c.states.last() as int],
            t.states[c.states.last() as int][q].next_symbol(),
        ) matches Some(j) && decide(t, tokens, c) == Step::Shift(j) && run(t, tokens, c) == run(
            t,
            tokens,
            shifted(t, tokens, c, j),
        ),
{
    let s = c.states.last() as int;
    let token = tokens[c.pos as int];
    let x = t.states[s][q].next_symbol();
    lemma_item_shifts(t, s, q);
    assert(plain(t, tokens[c.pos as int]));
    if x == valued(token) {
    } else {
        assert(x == token.name);
        assert(!(shift_of(t.states[s], valued(token)) is Some));
    }
}

/// A state that holds one item, with its dot at the end, tells the
/// executor to reduce by it, whatever comes next.
pub proof fn lemma_single_item_reduces(t: TableView, tokens: Seq<TokenView>, c: Config)
    requires
        is_automaton(t),
        c.states.last() < t.states.len(),
        t.states[c.states.last() as int].len() == 1,
        t.states[c.states.last() as int][0].is_reducible(),
    ensures
        decide(t, tokens, c) == Step::Reduce(t.states[c.states.last() as int][0]),
{
    let s = c.states.last() as int;
    let items = t.states[s];
    assert(wins(t.rules, items, 0));
    lemma_wins(t.rules, items, 0);
    assert(t.reductions.contains_key(s) && t.reductions[s] == items[0]);
    assert forall|x: Seq<char>| #[trigger] shift_of(items, x) is None by {
        if exists|w: int| first_shift(items, x, w) {
            let w = choose|w: int| first_shift(items, x, w);
            assert(w == 0);
        }
    }
    if c.pos < tokens.len() {
        let token = tokens[c.pos as int];
        assert(shift_of(items, valued(token)) is None);
        assert(shift_of(items, token.name) is None);
    } else {
        assert(shift_of(items, end_mark()) is None);
    }
}

/// Where an item expects a symbol, some item is the first to do so.
pub proof fn lemma_first_expecting(items: Seq<Item>, symbol: Seq<char>, p: int) -> (first: int)
    requires
        0 <= p < items.len(),
        items[p].expects(symbol),
    ensures
        first <= p,
        first_expecting(items, symbol, first),
    decreases p,
{
    if exists|k: int| 0 <= k < p && (#[trigger] items[k]).expects(symbol) {
        let k = choose|k: int| 0 <= k < p && (#[trigger] items[k]).expects(symbol);
        lemma_first_expecting(items, symbol, k)
    } else {
        p
    }
}

/// What a symbol leads to has its dot behind a symbol.
pub proof fn lemma_advanced_dots(items: Seq<Item>, symbol: Seq<char>, n: int)
    requires
        n <= items.len(),
    ensures
        forall|k: int|
            0 <= k < advanced(items, symbol, n).len() ==> (#[trigger] advanced(
                items,
                symbol,
                n,
            )[k]).dot >= 1,
    decreases n,
{
    if n > 0 {
        lemma_advanced_dots(items, symbol, n - 1);
        let less = advanced(items, symbol, n - 1);
        let all = advanced(items, symbol, n);
        assert forall|k: int| 0 <= k < all.len() implies (#[trigger] all[k]).dot >= 1 by {
            if k < less.len() {
                assert(all[k] == less[k]);
            }
        }
    }
}

/// In an automaton, a kernel item with its dot in front is the start item.
pub proof fn lemma_kernel_dot_in_front(t: TableView, s: int, p: int)
    requires
        is_automaton(t),
        0 <= s < t.states.len(),
        0 <= p < t.states[s].len(),
        t.states[s][p].kernel,
        t.states[s][p].dot == 0,
    ensures
        t.states[s][p].key() == t.rules.last(),
{
    let items = t.states[s];
    assert(finished(t.rules, t.states[s], kernels(t.states)));
    if s == 0 {
        assert(kernel_of(items).contains(items[p].key()));
    } else {
        assert(reached(t.states, s));
        let (e, q) = choose|e: int, q: int| #[trigger] discovered(t.states, s, e, q);
        lemma_kernel_in_front(items, items.len() as int);
        let keys = kernel_keys(items, items.len() as int);
        assert(p < keys.len());
        assert(keys[p] == items[p].key());
        lemma_advanced_dots(t.states[e], t.states[e][q].next_symbol(), t.states[e].len() as int);
        assert(advanced(t.states[e], t.states[e][q].next_symbol(), t.states[e].len() as int)[p].dot
            >= 1);
        assert(false);
    }
}

/// A chain of reductions of a single symbol holds no more symbols than
/// the table has states: the executor may go on.
pub proof fn lemma_chain_bounded(t: TableView, c: Config, chain: Seq<Seq<char>>, places: Seq<int>)
    requires
        is_automaton(t),
        chained(t, c, chain, places),
    ensures
        chain.len() <= t.states.len(),
        c.budget >= 1,
{
    let below = c.states[c.states.len() - 2] as int;
    let items = t.states[below];
    let targets = Seq::new(chain.len(), |i: int| shift_of(items, chain[i])->0 as int);
    assert(finished(t.rules, t.states[below], kernels(t.states)));
    assert forall|i: int| 0 <= i < targets.len() implies 0 <= #[trigger] targets[i]
        < t.states.len() && shift_of(items, chain[i]) is Some by {
        assert(first_expecting(items, chain[i], places[i]));
        lemma_item_shifts(t, below, places[i]);
        lemma_shift_target(t, below, chain[i], shift_of(items, chain[i])->0);
    }
    assert forall|i: int, j: int|
        0 <= i < targets.len() && 0 <= j < targets.len() && i != j implies targets[i]
        != targets[j] by {
        if targets[i] == targets[j] {
            assert(0 <= targets[i] < t.states.len() && shift_of(items, chain[i]) is Some);
            assert(0 <= targets[j] < t.states.len() && shift_of(items, chain[j]) is Some);
            let to = shift_of(items, chain[i])->0;
            lemma_shift_target(t, below, chain[i], to);
            lemma_shift_target(t, below, chain[j], to);
            assert(first_expecting(items, chain[i], places[i]));
            assert(first_expecting(items, chain[j], places[j]));
            let moved = items[places[i]].advance();
            assert(successors(items, chain[i]).contains(moved));
            assert(successors(items, chain[j]).contains(moved));
            let w = choose|w: int|
                0 <= w < items.len() && (#[trigger] items[w]).expects(chain[j]) && items[w].advance()
                    == moved;
            assert(items[w].right[items[w].dot as int] == chain[j]);
            assert(chain[i] == chain[j]);
            if places[i] < places[j] {
                assert(!items[places[i]].expects(chain[j]));
            } else if places[j] < places[i] {
                assert(!items[places[j]].expects(chain[i]));
            }
            if i < j {
                assert(places[i] > places[j]);
            } else {
                assert(places[j] > places[i]);
            }
        }
    }
    assert(targets.no_duplicates());
    lemma_distinct_indices_bounded(targets, t.states.len() as int);
}

/// The chain that starts where the executor has taken a tree over
/// `symbol` from the state that is now below the top.
pub proof fn lemma_chain_starts(t: TableView, c: Config, q: int, symbol: Seq<char>) -> (place: int)
    requires
        is_automaton(t),
        c.states.len() >= 2,
        c.states[c.states.len() - 2] < t.states.len(),
        0 <= q < t.states[c.states[c.states.len() - 2] as int].len(),
        t.states[c.states[c.states.len() - 2] as int][q].expects(symbol),
        symbol != end_mark(),
        shift_of(t.states[c.states[c.states.len() - 2] as int], symbol) == Some(c.states.last()),
        c.budget == t.states.len(),
    ensures
        chained(t, c, seq![symbol], seq![place]),
{
    let items = t.states[c.states[c.states.len() - 2] as int];
    let place = lemma_first_expecting(items, symbol, q);
    place
}

/// The executor that has the first `i` children of a nonterminal on its
/// stack, and stands in a state with the item of the rule with its dot
/// behind them, goes on to have all children on its stack and to stand in
/// a state with that item with its dot at the end, at the position that
/// is returned, with the chain of reductions that led there.
pub proof fn lemma_walk_kids(
    t: TableView,
    tokens: Seq<TokenView>,
    c: Config,
    q: int,
    kids: Seq<Tree>,
    i: int,
) -> (end: (Config, int, Seq<Seq<char>>, Seq<int>))
    requires
        fit_for(t, tokens),
        c.states.len() == c.stack.len() + 1,
        c.states.last() < t.states.len(),
        0 <= q < t.states[c.states.last() as int].len(),
        0 <= i <= kids.len(),
        t.states[c.states.last() as int][q].dot == i,
        rule_fits(t.states[c.states.last() as int][q].right, kids),
        forall|m: int|
            0 <= m < kids.len() ==> #[trigger] t.states[c.states.last() as int][q].right[m]
                != end_mark(),
        forall|m: int| 0 <= m < kids.len() ==> derives(t.rules.drop_last(), #[trigger] kids[m]),
        c.pos + fringe_all(kids.skip(i)).len() <= tokens.len(),
        range_of(tokens, c.pos, fringe_all(kids.skip(i)).len()) == fringe_all(kids.skip(i)),
    ensures
        run(t, tokens, c) == run(t, tokens, end.0),
        end.0.stack == c.stack + kids.skip(i),
        end.0.states.len() == end.0.stack.len() + 1,
        end.0.states.take(c.states.len() as int) == c.states,
        end.0.pos == c.pos + fringe_all(kids.skip(i)).len(),
        end.0.states.last() < t.states.len(),
        0 <= end.1 < t.states[end.0.states.last() as int].len(),
        t.states[end.0.states.last() as int][end.1].left == t.states[c.states.last() as int][q].left,
        t.states[end.0.states.last() as int][end.1].right == t.states[c.states.last() as int][q].right,
        t.states[end.0.states.last() as int][end.1].dot == kids.len(),
        i < kids.len() ==> chained(t, end.0, end.2, end.3) && end.2.last()
            == t.states[c.states.last() as int][q].right[kids.len() - 1],
        i == kids.len() ==> end.0 == c,
    decreases kids, kids.len() - i,
{
    let s = c.states.last() as int;
    let items = t.states[s];
    let item = items[q];
    if i == kids.len() {
        assert(kids.skip(i) =~= Seq::<Tree>::empty());
        assert(c.stack + kids.skip(i) =~= c.stack);
        assert(c.states.take(c.states.len() as int) =~= c.states);
        (c, q, Seq::empty(), Seq::empty())
    } else {
        let kid = kids[i];
        let x = item.next_symbol();
        assert(x == item.right[i]);
        assert(fits(kid, x));
        lemma_fringe_first(kids, i);
        let here = fringe(kid);
        let rest = fringe_all(kids.skip(i + 1));
        let all = fringe_all(kids.skip(i));
        assert(range_of(tokens, c.pos, here.len()) =~= here) by {
            assert forall|m: int| 0 <= m < here.len() implies range_of(tokens, c.pos, here.len())[m]
                == here[m] by {
                assert(range_of(tokens, c.pos, all.len())[m] == all[m]);
            }
        }
        let (mid, chain, places) = lemma_walk(t, tokens, c, q, kid);
        let to = mid.states.last();
        lemma_shift_target(t, s, x, to);
        assert(successors(items, x).contains(item.advance()));
        let next = t.states[to as int];
        let w = choose|w: int|
            0 <= w < next.len() && (#[trigger] next[w]).kernel && next[w].key() == item.advance();
        assert(range_of(tokens, mid.pos, rest.len()) =~= rest) by {
            assert forall|m: int| 0 <= m < rest.len() implies range_of(tokens, mid.pos, rest.len())[m]
                == rest[m] by {
                assert(range_of(tokens, c.pos, all.len())[here.len() + m] == all[here.len() + m]);
            }
        }
        let end = lemma_walk_kids(t, tokens, mid, w, kids, i + 1);
        assert(end.0.stack =~= c.stack + kids.skip(i)) by {
            assert(kids.skip(i) =~= seq![kid] + kids.skip(i + 1));
        }
        assert(end.0.states.take(c.states.len() as int) =~= c.states) by {
            assert(end.0.states.take(mid.states.len() as int) == mid.states);
            assert forall|m: int| 0 <= m < c.states.len() implies end.0.states.take(
                c.states.len() as int,
            )[m] == c.states[m] by {
                assert(end.0.states.take(mid.states.len() as int)[m] == mid.states[m]);
            }
        }
        if i + 1 == kids.len() {
            (end.0, end.1, chain, places)
        } else {
            end
        }
    }
}

/// A chain of reductions of a single symbol goes on: where the state on
/// top holds nothing but the rule `name -> child` with its dot at the end,
/// for the last symbol `child` of the chain, the executor that has reduced
/// by it stands at the end of the chain with `name` behind it.
pub proof fn lemma_chain_goes_on(
    t: TableView,
    top: Config,
    next: Config,
    chain: Seq<Seq<char>>,
    places: Seq<int>,
    name: Seq<char>,
) -> (place: int)
    requires
        is_automaton(t),
        chained(t, top, chain, places),
        t.states[top.states.last() as int].len() == 1,
        t.states[top.states.last() as int][0].left == name,
        t.states[top.states.last() as int][0].right.len() == 1,
        t.states[top.states.last() as int][0].dot == 1,
        name != end_mark(),
        next.states.len() >= 2,
        next.states[next.states.len() - 2] == top.states[top.states.len() - 2],
        shift_of(t.states[top.states[top.states.len() - 2] as int], name) == Some(
            next.states.last(),
        ),
        next.budget + 1 == top.budget,
    ensures
        chained(t, next, chain.push(name), places.push(place)),
{
    let s = top.states[top.states.len() - 2] as int;
    let items = t.states[s];
    let child = chain.last();
    let first = places.last();
    let last = top.states.last() as int;
    assert(first_expecting(items, chain[chain.len() - 1], places[chain.len() - 1]));
    lemma_shift_target(t, s, child, top.states.last());
    assert(successors(items, child).contains(items[first].advance()));
    let only = t.states[last];
    let u = choose|u: int|
        0 <= u < only.len() && (#[trigger] only[u]).kernel && only[u].key()
            == items[first].advance();
    assert(u == 0);
    assert(items[first].left == name && items[first].right.len() == 1);
    assert(items[first].dot == 0);
    if items[first].kernel {
        lemma_kernel_dot_in_front(t, s, first);
        assert(false);
    }
    assert(finished(t.rules, t.states[s], kernels(t.states)));
    assert(justified(t.rules, items, first));
    let caller = choose|caller: int|
        0 <= caller < first && (#[trigger] items[caller]).expects(items[first].left);
    let place = lemma_first_expecting(items, name, caller);
    let longer = chain.push(name);
    let more = places.push(place);
    assert forall|a: int| 0 <= a < longer.len() implies first_expecting(
        items,
        #[trigger] longer[a],
        more[a],
    ) && longer[a] != end_mark() by {
        if a < chain.len() {
            assert(first_expecting(items, chain[a], places[a]));
        }
    }
    assert forall|a: int, b: int| 0 <= a < b < longer.len() implies #[trigger] more[a]
        > #[trigger] more[b] by {
        if b < chain.len() {
            assert(places[a] > places[b]);
        } else if a < chain.len() - 1 {
            assert(places[a] > places[chain.len() - 1]);
        }
    }
    place
}

/// The executor that has the children of a nonterminal on its stack, and
/// stands in a state that holds nothing but the rule with its dot at the
/// end, reduces by the rule and shifts over its name from the state that
/// was below the children.
pub proof fn lemma_branch_is_reduced(
    t: TableView,
    tokens: Seq<TokenView>,
    c: Config,
    top: Config,
    q: int,
    name: Seq<char>,
    kids: Seq<Tree>,
) -> (next: Config)
    requires
        fit_for(t, tokens),
        c.states.len() == c.stack.len() + 1,
        c.states.last() < t.states.len(),
        0 <= q < t.states[c.states.last() as int].len(),
        t.states[c.states.last() as int][q].can_advance(),
        t.states[c.states.last() as int][q].next_symbol() == name,
        kids.len() >= 1,
        top.stack == c.stack + kids,
        top.states.len() == top.stack.len() + 1,
        top.states.take(c.states.len() as int) == c.states,
        top.states.last() < t.states.len(),
        t.states[top.states.last() as int].len() == 1,
        t.states[top.states.last() as int][0].left == name,
        t.states[top.states.last() as int][0].right.len() == kids.len(),
        t.states[top.states.last() as int][0].dot == kids.len(),
        kids.len() == 1 ==> top.budget >= 1,
    ensures
        run(t, tokens, top) == run(t, tokens, next),
        next.stack == c.stack.push(Tree::Branch(name, kids)),
        shift_of(t.states[c.states.last() as int], name) == Some(next.states.last()),
        next.states == c.states.push(next.states.last()),
        next.pos == top.pos,
        kids.len() == 1 ==> next.budget + 1 == top.budget,
        kids.len() != 1 ==> next.budget == t.states.len(),
{
    let s = c.states.last() as int;
    let items = t.states[s];
    let k = kids.len() as int;
    let last = top.states.last() as int;
    let rule = t.states[last][0];
    lemma_single_item_reduces(t, tokens, top);
    let below = top.states.take(top.states.len() - k);
    assert(below =~= c.states);
    lemma_item_shifts(t, s, q);
    let j = shift_of(items, name)->0;
    assert(action_of(t, below.last() as int, rule.left) == ActionView::Shift(j));
    let next = reduced(t, top, rule)->0;
    assert(top.stack.take(top.stack.len() - k) =~= c.stack);
    assert(top.stack.skip(top.stack.len() - k) =~= kids);
    next
}

/// The executor that stands in a state with an item whose dot is before a
/// symbol, and has before it the tokens of a tree of the grammar that
/// stands for the symbol, goes on to have the tree on its stack and to
/// stand in the state that the symbol leads to. The chain of reductions
/// of a single symbol that led there is returned.
pub proof fn lemma_walk(
    t: TableView,
    tokens: Seq<TokenView>,
    c: Config,
    q: int,
    tree: Tree,
) -> (end: (Config, Seq<Seq<char>>, Seq<int>))
    requires
        fit_for(t, tokens),
        c.states.len() == c.stack.len() + 1,
        c.states.last() < t.states.len(),
        0 <= q < t.states[c.states.last() as int].len(),
        t.states[c.states.last() as int][q].can_advance(),
        fits(tree, t.states[c.states.last() as int][q].next_symbol()),
        derives(t.rules.drop_last(), tree),
        c.pos + fringe(tree).len() <= tokens.len(),
        range_of(tokens, c.pos, fringe(tree).len()) == fringe(tree),
    ensures
        run(t, tokens, c) == run(t, tokens, end.0),
        end.0.stack == c.stack.push(tree),
        shift_of(
            t.states[c.states.last() as int],
            t.states[c.states.last() as int][q].next_symbol(),
        ) == Some(end.0.states.last()),
        end.0.states == c.states.push(end.0.states.last()),
        end.0.pos == c.pos + fringe(tree).len(),
        chained(t, end.0, end.1, end.2),
        end.1.last() == t.states[c.states.last() as int][q].next_symbol(),
    decreases tree, 0int,
{
    let s = c.states.last() as int;
    let items = t.states[s];
    let x = items[q].next_symbol();
    match tree {
        Tree::Leaf(token) => {
            assert(fringe(tree) =~= seq![token]);
            assert(range_of(tokens, c.pos, 1)[0] == token);
            lemma_token_is_shifted(t, tokens, c, q);
            let j = shift_of(items, x)->0;
            let after = shifted(t, tokens, c, j);
            let place = lemma_chain_starts(t, after, q, x);
            (after, seq![x], seq![place])
        },
        Tree::Branch(name, kids) => {
            assert(x == name);
            let o = lemma_rule_is_called(t, s, q, name, kids);
            assert(kids.skip(0) =~= kids);
            let (top, w, chain, places) = lemma_walk_kids(t, tokens, c, o, kids, 0);
            let last = top.states.last() as int;
            assert(t.states[last][w].is_reducible());
            assert(t.states[last].len() == 1);
            if kids.len() == 1 {
                lemma_chain_bounded(t, top, chain, places);
            }
            let next = lemma_branch_is_reduced(t, tokens, c, top, q, name, kids);
            assert(top.states.len() == c.states.len() + kids.len());
            if kids.len() == 1 {
                assert(top.states.take(c.states.len() as int)[c.states.len() - 1]
                    == c.states[c.states.len() - 1]);
                assert(top.states[top.states.len() - 2] == c.states.last());
                assert(next.states[next.states.len() - 2] == c.states.last());
                assert(chain.last() == items[o].right[0]);
                let place = lemma_chain_goes_on(t, top, next, chain, places, name);
                (next, chain.push(name), places.push(place))
            } else {
                assert(next.states[next.states.len() - 2] == c.states.last());
                let place = lemma_chain_starts(t, next, q, name);
                (next, seq![name], seq![place])
            }
        },
    }
}

/// The state that expects a nonterminal holds, for a tree under that
/// nonterminal, the rule of the tree with its dot in front, at the
/// position that is returned.
pub proof fn lemma_rule_is_called(
    t: TableView,
    s: int,
    q: int,
    name: Seq<char>,
    kids: Seq<Tree>,
) -> (o: int)
    requires
        is_automaton(t),
        proper(t),
        0 <= s < t.states.len(),
        0 <= q < t.states[s].len(),
        t.states[s][q].expects(name),
        derives(t.rules.drop_last(), Tree::Branch(name, kids)),
    ensures
        0 <= o < t.states[s].len(),
        t.states[s][o].left == name,
        t.states[s][o].dot == 0,
        t.states[s][o].right.len() >= 1,
        rule_fits(t.states[s][o].right, kids),
        forall|m: int| 0 <= m < kids.len() ==> #[trigger] t.states[s][o].right[m] != end_mark(),
        forall|m: int| 0 <= m < kids.len() ==> derives(t.rules.drop_last(), #[trigger] kids[m]),
        name != end_mark(),
{
    let items = t.states[s];
    assert(instance_of(t.rules.drop_last(), name, kids));
    let user = t.rules.drop_last();
    let r = choose|r: int|
        0 <= r < user.len() && (#[trigger] user[r]).left == name && rule_fits(user[r].right, kids);
    assert(user[r] == t.rules[r]);
    assert(finished(t.rules, t.states[s], kernels(t.states)));
    assert(served(t.rules, items, q));
    assert(items[q].expects(t.rules[r].left));
    assert(has_closure_item(items, t.rules[r]));
    let o = choose|o: int|
        0 <= o < items.len() && !(#[trigger] items[o]).kernel && items[o].key()
            == t.rules[r].closure_item().key();
    assert(items[o].right == t.rules[r].right && items[o].left == name);
    assert(t.rules[r].right.len() > 0);
    assert forall|m: int| 0 <= m < kids.len() implies #[trigger] items[o].right[m]
        != end_mark() by {
        assert(t.rules[r].right[m] != end_mark());
    }
    o
}

/// Where the table of a grammar has no conflict, no state treats a token
/// of the input in two ways, and the end mark stands in no rule, a list
/// of tokens that a tree of the grammar under the start nonterminal reads
/// is parsed to that tree.
pub proof fn lemma_sentence_is_parsed(t: TableView, tokens: Seq<TokenView>, tree: Tree)
    requires
        fit_for(t, tokens),
        tree matches Tree::Branch(name, _) && name == t.rules[0].left,
        derives(t.rules.drop_last(), tree),
        fringe(tree) == tokens,
    ensures
        parse_of(t, tokens) == Ok::<Tree, ParseErrorView>(tree),
{
    let c = initial(t);
    let items = t.states[0];
    let start = t.rules.last();
    assert(kernel_of(items).contains(start));
    let q = choose|q: int|
        0 <= q < items.len() && (#[trigger] items[q]).kernel && items[q].key() == start;
    assert(items[q].next_symbol() == t.rules[0].left);
    assert(t.rules[0].left != end_mark());
    assert(range_of(tokens, 0, tokens.len()) =~= tokens);
    let (after, chain, places) = lemma_walk(t, tokens, c, q, tree);
    let to = after.states.last() as int;
    lemma_shift_target(t, 0, t.rules[0].left, after.states.last());
    let last = t.states[to];
    assert(successors(items, t.rules[0].left).contains(items[q].advance()));
    let w = choose|w: int|
        0 <= w < last.len() && (#[trigger] last[w]).kernel && last[w].key() == items[q].advance();
    assert(!last[w].is_reducible());
    assert forall|k: int| 0 <= k < last.len() implies !(#[trigger] last[k]).is_reducible() by {
        if last[k].is_reducible() {
            assert(t.states[to][k].is_reducible());
            assert(last.len() == 1);
        }
    }
    lemma_no_reducible(t.rules, last);
    assert(!t.reductions.contains_key(to));
    assert(finished(t.rules, t.states[to], kernels(t.states)));
    assert(shift_of(last, end_mark()) is None) by {
        if exists|k: int| first_shift(last, end_mark(), k) {
            let k = choose|k: int| first_shift(last, end_mark(), k);
            assert(linked(last, kernels(t.states), k));
        }
    }
    assert(decide(t, tokens, after) == Step::Stop);
    assert(after.stack =~= seq![tree]);
}

} // verus!
