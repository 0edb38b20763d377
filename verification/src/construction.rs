//! How the automaton is built, state by state, and why the building
//! ends: the proofs behind the construction of a table.

use crate::automaton::{
    advanced, all_from_grammar, before, discovered, end_mark, finished, from_grammar, is_automaton,
    Item, kernel_keys, kernel_of, kernels, lemma_met_once, linked, met_at, reached, reductions_of,
    start_rule, successors, TableView,
};
use crate::closure::{
    lemma_advanced_is_kernel, lemma_same_shape_advanced, lemma_same_shape_kernel_keys,
    lemma_same_shape_successors, same_shape,
};
use crate::finite::{lemma_distinct_subsets_bounded, subsets};
use vstd::prelude::*;
use vstd::set_lib::{lemma_int_range, lemma_set_union_finite_iff, set_int_range};

verus! {

/// Rule `rule` with its dot at `d`, as a key.
pub open spec fn at_dot(rule: Item, d: int) -> Item {
    Item { left: rule.left, right: rule.right, dot: d as nat, target: None, kernel: true }
}

/// The keys of one rule: a dot at each position.
pub open spec fn rule_keys(rule: Item) -> Set<Item> {
    set_int_range(0, rule.right.len() as int + 1).map(|d: int| at_dot(rule, d))
}

/// All keys that items of the grammar can have.
pub open spec fn universe(rules: Seq<Item>) -> Set<Item>
    decreases rules.len(),
{
    if rules.len() == 0 {
        Set::empty()
    } else {
        universe(rules.drop_last()).union(rule_keys(rules.last()))
    }
}

/// A grammar has finitely many keys.
pub proof fn lemma_universe_finite(rules: Seq<Item>)
    ensures
        universe(rules).finite(),
    decreases rules.len(),
{
    if rules.len() > 0 {
        lemma_universe_finite(rules.drop_last());
        let rule = rules.last();
        lemma_int_range(0, rule.right.len() as int + 1);
        set_int_range(0, rule.right.len() as int + 1).lemma_map_finite(|d: int| at_dot(rule, d));
        lemma_set_union_finite_iff(universe(rules.drop_last()), rule_keys(rule));
    }
}

/// Every item of the grammar has its key in the universe.
pub proof fn lemma_universe_contains(rules: Seq<Item>, item: Item)
    requires
        from_grammar(rules, item),
    ensures
        universe(rules).contains(item.key()),
    decreases rules.len(),
{
    let r = choose|r: int|
        0 <= r < rules.len() && (#[trigger] rules[r]).left == item.left && rules[r].right
            == item.right;
    if r == rules.len() - 1 {
        let rule = rules.last();
        let d = item.dot as int;
        assert(set_int_range(0, rule.right.len() as int + 1).contains(d));
        assert(item.key() == at_dot(rule, d));
        assert(rule_keys(rule).contains(item.key()));
    } else {
        assert(rules.drop_last()[r] == rules[r]);
        lemma_universe_contains(rules.drop_last(), item);
    }
}

/// A state that waits to be completed: kernel items without targets.
pub open spec fn pending(rules: Seq<Item>, items: Seq<Item>) -> bool {
    &&& items.len() > 0
    &&& all_from_grammar(rules, items)
    &&& forall|q: int| 0 <= q < items.len() ==> (#[trigger] items[q]).kernel && items[q].target is None
}

/// The automaton while it is built: the states before `next` are complete,
/// the others wait; no two states have the same kernel.
#[verifier::opaque]
pub open spec fn building(rules: Seq<Item>, states: Seq<Seq<Item>>, next: int) -> bool {
    &&& 0 <= next <= states.len()
    &&& states.len() >= 1
    &&& rules.len() >= 1
    &&& kernels(states).no_duplicates()
    &&& forall|s: int| 0 <= s < next ==> finished(rules, #[trigger] states[s], kernels(states))
    &&& forall|s: int| next <= s < states.len() ==> pending(rules, #[trigger] states[s])
}

/// A transition stays in order when states are added behind.
pub proof fn lemma_linked_extend(
    items: Seq<Item>,
    before: Seq<Set<Item>>,
    after: Seq<Set<Item>>,
    p: int,
)
    requires
        linked(items, before, p),
        before.len() <= after.len(),
        forall|t: int| 0 <= t < before.len() ==> #[trigger] after[t] == before[t],
    ensures
        linked(items, after, p),
{
    if items[p].can_advance() {
        let t = items[p].target->0 as int;
        assert(after[t] == before[t]);
    }
}

/// The start item alone is a state that waits, and its kernel is the
/// added rule.
pub proof fn lemma_start_item_waits(rules: Seq<Item>)
    requires
        rules.len() >= 1,
        rules.last().key() == rules.last(),
        rules.last().well_formed(),
    ensures
        pending(rules, seq![rules.last()]),
        kernel_of(seq![rules.last()]) == set![rules.last()],
{
    let start = rules.last();
    let first = seq![start];
    assert(first[0] == start);
    assert(from_grammar(rules, start)) by {
        assert(rules[rules.len() - 1].left == start.left);
    }
    assert forall|c: Item| kernel_of(first).contains(c) <==> set![start].contains(c) by {
        if kernel_of(first).contains(c) {
            let i = choose|i: int|
                0 <= i < first.len() && (#[trigger] first[i]).kernel && first[i].key() == c;
            assert(i == 0);
        }
        if c == start {
            assert(first[0].kernel && first[0].key() == c);
        }
    }
    assert(kernel_of(first) =~= set![start]);
}

/// The automaton that holds one state, waiting.
pub proof fn lemma_building_start(rules: Seq<Item>, first: Seq<Item>)
    requires
        rules.len() >= 1,
        pending(rules, first),
    ensures
        building(rules, seq![first], 0),
{
    reveal(building);
    let states = seq![first];
    assert(kernels(states).len() == 1);
    assert(pending(rules, states[0]));
}

/// A new waiting state whose kernel no state has may be added behind.
pub proof fn lemma_building_push(
    rules: Seq<Item>,
    states: Seq<Seq<Item>>,
    next: int,
    added: Seq<Item>,
)
    requires
        building(rules, states, next),
        pending(rules, added),
        forall|j: int| 0 <= j < states.len() ==> kernel_of(#[trigger] states[j]) != kernel_of(added),
    ensures
        building(rules, states.push(added), next),
{
    reveal(building);
    let after = states.push(added);
    assert(after[0] == states[0]);
    assert(kernels(after) =~= kernels(states).push(kernel_of(added)));
    assert forall|i: int, j: int|
        0 <= i < kernels(after).len() && 0 <= j < kernels(after).len() && i != j implies kernels(
        after,
    )[i] != kernels(after)[j] by {
        if i < states.len() && j < states.len() {
            assert(kernels(states)[i] != kernels(states)[j]);
        } else if i < states.len() {
            assert(kernel_of(states[i]) != kernel_of(added));
        } else {
            assert(kernel_of(states[j]) != kernel_of(added));
        }
    }
    assert forall|s: int| 0 <= s < next implies finished(
        rules,
        #[trigger] after[s],
        kernels(after),
    ) by {
        assert(after[s] == states[s]);
        assert(finished(rules, states[s], kernels(states)));
        assert forall|p: int| 0 <= p < after[s].len() implies #[trigger] linked(
            after[s],
            kernels(after),
            p,
        ) by {
            assert(linked(states[s], kernels(states), p));
            lemma_linked_extend(states[s], kernels(states), kernels(after), p);
        }
    }
    assert forall|s: int| next <= s < after.len() implies pending(rules, #[trigger] after[s]) by {
        if s < states.len() {
            assert(after[s] == states[s]);
        }
    }
}

/// The next waiting state may be replaced by its closure with transitions.
pub proof fn lemma_building_finish(
    rules: Seq<Item>,
    states: Seq<Seq<Item>>,
    next: int,
    closed: Seq<Item>,
)
    requires
        building(rules, states, next),
        next < states.len(),
        kernel_of(closed) == kernel_of(states[next]),
        finished(rules, closed, kernels(states)),
    ensures
        building(rules, states.update(next, closed), next + 1),
        kernels(states.update(next, closed)) == kernels(states),
{
    reveal(building);
    let after = states.update(next, closed);
    assert(kernels(after) =~= kernels(states));
    assert forall|s: int| 0 <= s < next + 1 implies finished(
        rules,
        #[trigger] after[s],
        kernels(after),
    ) by {
        if s < next {
            assert(after[s] == states[s]);
        }
    }
    assert forall|s: int| next + 1 <= s < after.len() implies pending(rules, #[trigger] after[s]) by {
        assert(after[s] == states[s]);
    }
}

/// Every kernel of an automaton under construction is a set of keys of
/// the grammar.
pub proof fn lemma_building_kernels(rules: Seq<Item>, states: Seq<Seq<Item>>, next: int)
    requires
        building(rules, states, next),
    ensures
        forall|s: int|
            0 <= s < states.len() ==> (#[trigger] kernels(states)[s]).subset_of(universe(rules)),
{
    reveal(building);
    assert forall|s: int| 0 <= s < states.len() implies (#[trigger] kernels(states)[s]).subset_of(
        universe(rules),
    ) by {
        let items = states[s];
        assert(all_from_grammar(rules, items)) by {
            if s < next {
                assert(finished(rules, states[s], kernels(states)));
            } else {
                assert(pending(rules, states[s]));
            }
        }
        assert forall|c: Item| kernel_of(items).contains(c) implies universe(rules).contains(c) by {
            let i = choose|i: int|
                0 <= i < items.len() && (#[trigger] items[i]).kernel && items[i].key() == c;
            assert(from_grammar(rules, items[i]));
            lemma_universe_contains(rules, items[i]);
        }
    }
}

/// An automaton under construction has no more states than the keys of the
/// grammar have subsets.
pub proof fn lemma_building_bounded(rules: Seq<Item>, states: Seq<Seq<Item>>, next: int)
    requires
        building(rules, states, next),
    ensures
        subsets(universe(rules)).finite(),
        states.len() <= subsets(universe(rules)).len(),
{
    lemma_building_kernels(rules, states, next);
    lemma_universe_finite(rules);
    assert(kernels(states).no_duplicates()) by {
        reveal(building);
    }
    lemma_distinct_subsets_bounded(universe(rules), kernels(states));
}

/// A transition stays in order when targets of the state change
/// elsewhere and states are added behind.
pub proof fn lemma_relink(
    before: Seq<Item>,
    after: Seq<Item>,
    old_kernels: Seq<Set<Item>>,
    new_kernels: Seq<Set<Item>>,
    q: int,
)
    requires
        same_shape(before, after),
        0 <= q < before.len(),
        after[q].target == before[q].target,
        linked(before, old_kernels, q),
        old_kernels.len() <= new_kernels.len(),
        forall|t: int| 0 <= t < old_kernels.len() ==> #[trigger] new_kernels[t] == old_kernels[t],
    ensures
        linked(after, new_kernels, q),
{
    assert(before[q].key() == after[q].key());
    if before[q].can_advance() {
        lemma_same_shape_successors(before, after, before[q].next_symbol());
        let t = before[q].target->0 as int;
        assert(new_kernels[t] == old_kernels[t]);
    }
}

/// An item that expects `symbol` is in order once it points at the state
/// whose kernel is the successors over `symbol`.
pub proof fn lemma_link_new(
    before: Seq<Item>,
    after: Seq<Item>,
    kernels: Seq<Set<Item>>,
    q: int,
    symbol: Seq<char>,
    target: nat,
)
    requires
        same_shape(before, after),
        0 <= q < before.len(),
        before[q].expects(symbol),
        symbol != end_mark(),
        after[q].target == Some(target),
        target < kernels.len(),
        kernels[target as int] == successors(before, symbol),
    ensures
        linked(after, kernels, q),
{
    assert(before[q].key() == after[q].key());
    lemma_same_shape_successors(before, after, symbol);
}

/// What is reached from rules of the grammar is a rule of the grammar.
pub proof fn lemma_successor_from_grammar(
    rules: Seq<Item>,
    items: Seq<Item>,
    symbol: Seq<char>,
    c: Item,
)
    requires
        all_from_grammar(rules, items),
        successors(items, symbol).contains(c),
    ensures
        from_grammar(rules, c),
        c.kernel,
        c.target is None,
        c.key() == c,
{
    let i = choose|i: int|
        0 <= i < items.len() && (#[trigger] items[i]).expects(symbol) && items[i].advance() == c;
    assert(from_grammar(rules, items[i]));
    let r = choose|r: int|
        0 <= r < rules.len() && (#[trigger] rules[r]).left == items[i].left && rules[r].right
            == items[i].right;
    assert(rules[r].left == c.left && rules[r].right == c.right);
}

/// Every target of the state is below `bound`.
pub open spec fn aims_below(items: Seq<Item>, bound: int) -> bool {
    forall|q: int|
        0 <= q < items.len() ==> match (#[trigger] items[q]).target {
            Some(t) => t < bound,
            None => true,
        }
}

/// The states are numbered in the order in which they are met: state `j`
/// at item `origin[j].1` of state `origin[j].0`, each later than the one
/// before, and all before item `p` of state `s`.
#[verifier::opaque]
pub open spec fn charted(
    states: Seq<Seq<Item>>,
    origin: Seq<(int, int)>,
    s: int,
    p: int,
) -> bool {
    &&& origin.len() == states.len()
    &&& forall|j: int|
        1 <= j < states.len() ==> #[trigger] discovered(states, j, origin[j].0, origin[j].1)
    &&& forall|i: int, j: int|
        1 <= i < j < states.len() ==> before(
            (#[trigger] origin[i]).0,
            origin[i].1,
            (#[trigger] origin[j]).0,
            origin[j].1,
        )
    &&& forall|j: int|
        1 <= j < states.len() ==> before((#[trigger] origin[j]).0, origin[j].1, s, p)
    &&& forall|e: int| 0 <= e < states.len() ==> aims_below(#[trigger] states[e], states.len() as int)
}

/// `after` is `before` with every item that expects `symbol` pointed at
/// `target`.
pub open spec fn retargeted(
    before: Seq<Item>,
    after: Seq<Item>,
    symbol: Seq<char>,
    target: nat,
) -> bool {
    &&& same_shape(before, after)
    &&& forall|q: int|
        0 <= q < before.len() ==> (#[trigger] after[q]).target == (if before[q].expects(symbol) {
            Some(target)
        } else {
            before[q].target
        })
}

/// The items that expect the same symbol have the same target.
pub open spec fn grouped(items: Seq<Item>) -> bool {
    forall|q: int, w: int|
        0 <= q < items.len() && 0 <= w < items.len() && (#[trigger] items[q]).can_expand() && (
        #[trigger] items[w]).expects(items[q].next_symbol()) ==> items[w].target == items[q].target
}

/// Pointing all items that expect a symbol at one state keeps the items
/// grouped.
pub proof fn lemma_grouped_retarget(
    before: Seq<Item>,
    after: Seq<Item>,
    symbol: Seq<char>,
    target: nat,
)
    requires
        grouped(before),
        retargeted(before, after, symbol, target),
    ensures
        grouped(after),
{
    assert forall|q: int, w: int|
        0 <= q < after.len() && 0 <= w < after.len() && (#[trigger] after[q]).can_expand() && (
        #[trigger] after[w]).expects(after[q].next_symbol()) implies after[w].target
        == after[q].target by {
        assert(before[q].key() == after[q].key());
        assert(before[w].key() == after[w].key());
        assert(before[q].can_expand() && before[w].expects(before[q].next_symbol()));
    }
}

/// The one state with the start item is charted.
pub proof fn lemma_chart_start(first: Seq<Item>)
    requires
        aims_below(first, 1),
    ensures
        charted(seq![first], seq![(0int, 0int)], 0, 0),
{
    reveal(charted);
}

/// What was met before item `p` of state `s` was met before the next item
/// and before the next state.
pub proof fn lemma_chart_skip(states: Seq<Seq<Item>>, origin: Seq<(int, int)>, s: int, p: int)
    requires
        charted(states, origin, s, p),
        0 <= p,
    ensures
        charted(states, origin, s, p + 1),
        charted(states, origin, s + 1, 0),
{
    reveal(charted);
    assert forall|j: int| 1 <= j < states.len() implies before(
        (#[trigger] origin[j]).0,
        origin[j].1,
        s,
        p + 1,
    ) && before(origin[j].0, origin[j].1, s + 1, 0) by {
        assert(before(origin[j].0, origin[j].1, s, p));
    }
}

/// Closing the state that is next keeps the chart: it adds no kernel item
/// and no target.
pub proof fn lemma_chart_close(
    states: Seq<Seq<Item>>,
    origin: Seq<(int, int)>,
    next: int,
    closed: Seq<Item>,
)
    requires
        charted(states, origin, next, 0),
        0 <= next < states.len(),
        kernel_keys(closed, closed.len() as int) == kernel_keys(
            states[next],
            states[next].len() as int,
        ),
        forall|q: int| 0 <= q < closed.len() ==> (#[trigger] closed[q]).target is None,
    ensures
        charted(states.update(next, closed), origin, next, 0),
{
    reveal(charted);
    let after = states.update(next, closed);
    assert forall|j: int| 1 <= j < after.len() implies #[trigger] discovered(
        after,
        j,
        origin[j].0,
        origin[j].1,
    ) by {
        let s = origin[j].0;
        let p = origin[j].1;
        assert(discovered(states, j, s, p));
        assert(before(origin[j].0, origin[j].1, next, 0));
        assert(s < next);
        assert(after[s] == states[s]);
        assert forall|e: int, q: int| 0 <= e < s && 0 <= q < after[e].len() implies (
        #[trigger] after[e][q]).target != Some(j as nat) by {
            assert(after[e] == states[e]);
        }
        if j != next {
            assert(after[j] == states[j]);
        }
    }
    assert forall|e: int| 0 <= e < after.len() implies aims_below(
        #[trigger] after[e],
        after.len() as int,
    ) by {
        if e != next {
            assert(after[e] == states[e]);
            assert(aims_below(states[e], states.len() as int));
        }
    }
}

/// Pointing the items of the state that is next, which expect `symbol`,
/// at a state that is there keeps the chart, where the first of these
/// items is item `p`.
pub proof fn lemma_chart_found(
    states: Seq<Seq<Item>>,
    origin: Seq<(int, int)>,
    next: int,
    p: int,
    symbol: Seq<char>,
    after_items: Seq<Item>,
    target: nat,
)
    requires
        charted(states, origin, next, p),
        0 <= next < states.len(),
        0 <= p < states[next].len(),
        target < states.len(),
        forall|q: int| 0 <= q < p ==> !(#[trigger] states[next][q]).expects(symbol),
        retargeted(states[next], after_items, symbol, target),
    ensures
        charted(states.update(next, after_items), origin, next, p + 1),
{
    reveal(charted);
    let items = states[next];
    let after = states.update(next, after_items);
    assert forall|j: int| 1 <= j < after.len() implies #[trigger] discovered(
        after,
        j,
        origin[j].0,
        origin[j].1,
    ) by {
        lemma_chart_keeps(states, origin, next, p, symbol, after_items, target, j);
    }
    assert forall|j: int| 1 <= j < states.len() implies before(
        (#[trigger] origin[j]).0,
        origin[j].1,
        next,
        p + 1,
    ) by {
        assert(before(origin[j].0, origin[j].1, next, p));
    }
    assert forall|e: int| 0 <= e < after.len() implies aims_below(
        #[trigger] after[e],
        after.len() as int,
    ) by {
        assert(aims_below(states[e], states.len() as int));
        if e == next {
            assert forall|q: int| 0 <= q < after_items.len() implies match (
            #[trigger] after_items[q]).target {
                Some(t) => t < after.len(),
                None => true,
            } by {
                assert(items[q].key() == after_items[q].key());
            }
        } else {
            assert(after[e] == states[e]);
        }
    }
}

/// A state that was met before item `p` of the state that is next stays
/// met where it was, when items of that state that expect `symbol`, none
/// of them before item `p`, are pointed elsewhere.
pub proof fn lemma_chart_keeps(
    states: Seq<Seq<Item>>,
    origin: Seq<(int, int)>,
    next: int,
    p: int,
    symbol: Seq<char>,
    after_items: Seq<Item>,
    target: nat,
    j: int,
)
    requires
        charted(states, origin, next, p),
        0 <= next < states.len(),
        0 <= p < states[next].len(),
        forall|q: int| 0 <= q < p ==> !(#[trigger] states[next][q]).expects(symbol),
        retargeted(states[next], after_items, symbol, target),
        1 <= j < states.len(),
    ensures
        discovered(states.update(next, after_items), j, origin[j].0, origin[j].1),
{
    reveal(charted);
    let items = states[next];
    let after = states.update(next, after_items);
    let s = origin[j].0;
    let l = origin[j].1;
    assert(discovered(states, j, s, l));
    assert(before(origin[j].0, origin[j].1, next, p));
    assert forall|e: int, q: int| 0 <= e < s && 0 <= q < after[e].len() implies (
    #[trigger] after[e][q]).target != Some(j as nat) by {
        assert(after[e] == states[e]);
    }
    if s == next {
        assert(l < p);
        assert forall|q: int| 0 <= q <= l implies (#[trigger] after[s][q]).target
            == states[s][q].target by {
            assert(!items[q].expects(symbol));
        }
        assert(items[l].key() == after_items[l].key());
        lemma_same_shape_advanced(items, after_items, items[l].next_symbol(), items.len() as int);
    } else {
        assert(after[s] == states[s]);
    }
    if j == next {
        lemma_same_shape_kernel_keys(items, after_items, items.len() as int);
    } else {
        assert(after[j] == states[j]);
    }
}

/// Pointing the items of the state that is next, which expect `symbol`,
/// at a new state behind the others, made of these items moved over the
/// symbol, keeps the chart, where the first of these items is item `p`:
/// the new state is met there.
pub proof fn lemma_chart_new(
    states: Seq<Seq<Item>>,
    origin: Seq<(int, int)>,
    next: int,
    p: int,
    symbol: Seq<char>,
    after_items: Seq<Item>,
    added: Seq<Item>,
)
    requires
        charted(states, origin, next, p),
        0 <= next < states.len(),
        0 <= p < states[next].len(),
        states[next][p].expects(symbol),
        forall|q: int| 0 <= q < p ==> !(#[trigger] states[next][q]).expects(symbol),
        retargeted(states[next], after_items, symbol, states.len()),
        added == advanced(states[next], symbol, states[next].len() as int),
    ensures
        charted(
            states.update(next, after_items).push(added),
            origin.push((next, p)),
            next,
            p + 1,
        ),
{
    let items = states[next];
    let fresh = states.len() as int;
    let middle = states.update(next, after_items);
    let after = middle.push(added);
    let more = origin.push((next, p));
    assert(origin.len() == states.len()) by {
        reveal(charted);
    }
    assert forall|j: int| 1 <= j < after.len() implies #[trigger] discovered(
        after,
        j,
        more[j].0,
        more[j].1,
    ) by {
        if j < fresh {
            assert(more[j] == origin[j]);
            lemma_chart_keeps(states, origin, next, p, symbol, after_items, states.len(), j);
            lemma_discovered_push(middle, added, j, origin[j].0, origin[j].1);
        } else {
            reveal(charted);
            assert(after[next] == after_items);
            assert(after[fresh] == added);
            assert(items[p].key() == after_items[p].key());
            assert forall|q: int| 0 <= q < p implies (#[trigger] after[next][q]).target != Some(
                fresh as nat,
            ) by {
                assert(aims_below(states[next], fresh));
                assert(!items[q].expects(symbol));
                assert(after_items[q].target == items[q].target);
            }
            assert forall|e: int, q: int| 0 <= e < next && 0 <= q < after[e].len() implies (
            #[trigger] after[e][q]).target != Some(fresh as nat) by {
                assert(after[e] == states[e]);
                assert(aims_below(states[e], fresh));
            }
            lemma_advanced_is_kernel(items, symbol, items.len() as int);
            lemma_same_shape_advanced(items, after_items, symbol, items.len() as int);
        }
    }
    reveal(charted);
    assert forall|i: int, j: int| 1 <= i < j < after.len() implies before(
        (#[trigger] more[i]).0,
        more[i].1,
        (#[trigger] more[j]).0,
        more[j].1,
    ) by {
        if j < fresh {
            assert(before(origin[i].0, origin[i].1, origin[j].0, origin[j].1));
        } else {
            assert(before(origin[i].0, origin[i].1, next, p));
        }
    }
    assert forall|j: int| 1 <= j < after.len() implies before(
        (#[trigger] more[j]).0,
        more[j].1,
        next,
        p + 1,
    ) by {
        if j < fresh {
            assert(before(origin[j].0, origin[j].1, next, p));
        }
    }
    assert forall|e: int| 0 <= e < after.len() implies aims_below(
        #[trigger] after[e],
        after.len() as int,
    ) by {
        if e == fresh {
            lemma_advanced_is_kernel(items, symbol, items.len() as int);
        } else if e == next {
            assert(aims_below(states[e], states.len() as int));
            assert forall|q: int| 0 <= q < after_items.len() implies match (
            #[trigger] after_items[q]).target {
                Some(t) => t < after.len(),
                None => true,
            } by {
                assert(items[q].key() == after_items[q].key());
            }
        } else {
            assert(after[e] == states[e]);
            assert(aims_below(states[e], states.len() as int));
        }
    }
}

/// A state that is met stays met where it was when a state is put behind
/// the others.
pub proof fn lemma_discovered_push(
    states: Seq<Seq<Item>>,
    added: Seq<Item>,
    j: int,
    s: int,
    p: int,
)
    requires
        discovered(states, j, s, p),
        j < states.len(),
    ensures
        discovered(states.push(added), j, s, p),
{
    let after = states.push(added);
    assert(after[s] == states[s]);
    assert(after[j] == states[j]);
    assert forall|e: int, q: int| 0 <= e < s && 0 <= q < after[e].len() implies (
    #[trigger] after[e][q]).target != Some(j as nat) by {
        assert(after[e] == states[e]);
    }
}

/// In a chart of all states, each state but the first is met at an
/// earlier state, and later than the states before it.
pub proof fn lemma_chart_done(states: Seq<Seq<Item>>, origin: Seq<(int, int)>, s: int, p: int)
    requires
        charted(states, origin, s, p),
    ensures
        forall|j: int| 1 <= j < states.len() ==> #[trigger] reached(states, j),
        forall|i: int, j: int, s: int, p: int, e: int, q: int|
            #![trigger met_at(states, i, s, p), met_at(states, j, e, q)]
            1 <= i < j < states.len() && met_at(states, i, s, p) && met_at(states, j, e, q)
                ==> before(s, p, e, q),
{
    reveal(charted);
    assert forall|j: int| 1 <= j < states.len() implies #[trigger] reached(states, j) by {
        assert(discovered(states, j, origin[j].0, origin[j].1));
    }
    assert forall|i: int, j: int, s: int, p: int, e: int, q: int|
        #![trigger met_at(states, i, s, p), met_at(states, j, e, q)]
        1 <= i < j < states.len() && met_at(states, i, s, p) && met_at(
            states,
            j,
            e,
            q,
        ) implies before(s, p, e, q) by {
        assert(discovered(states, i, origin[i].0, origin[i].1));
        assert(discovered(states, j, origin[j].0, origin[j].1));
        lemma_met_once(states, i, s, p, origin[i].0, origin[i].1);
        lemma_met_once(states, j, e, q, origin[j].0, origin[j].1);
        assert(before(origin[i].0, origin[i].1, origin[j].0, origin[j].1));
    }
}

/// An automaton under construction in which no state waits, with its
/// chart, is the automaton of its grammar.
pub proof fn lemma_building_done(t: TableView, origin: Seq<(int, int)>)
    requires
        building(t.rules, t.states, t.states.len() as int),
        charted(t.states, origin, t.states.len() as int, 0),
        t.rules.len() >= 2,
        t.rules.last() == start_rule(t.rules[0].left),
        forall|r: int| 0 <= r < t.rules.len() ==> (#[trigger] t.rules[r]).right.len() > 0,
        kernel_of(t.states[0]) == set![t.rules.last()],
        kernel_keys(t.states[0], t.states[0].len() as int) == seq![t.rules.last()],
        t.numbers == Seq::new(t.states.len(), |i: int| i as nat),
        t.reductions == reductions_of(t.rules, t.states),
    ensures
        is_automaton(t),
{
    lemma_chart_done(t.states, origin, t.states.len() as int, 0);
    reveal(building);
}

} // verus!
