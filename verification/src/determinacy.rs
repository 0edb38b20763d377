//! A grammar has one automaton: what a table must be to be the automaton
//! of its grammar leaves nothing open.

use crate::automaton::{
    apart, before, called_for, comes_from, discovered, finished, first_caller, first_source,
    has_closure_item, is_automaton, is_closure, Item, justified, kernel_first, kernel_keys,
    kernels, linked, met_at, ordered, reached, served, TableView,
};
use crate::closure::{
    lemma_same_shape_advanced, lemma_same_shape_kernel, lemma_same_shape_successors, same_shape,
};
use vstd::prelude::*;

verus! {

/// The first `n` items of the two lists are the same but for their
/// targets.
pub open spec fn agree(c: Seq<Item>, d: Seq<Item>, n: int) -> bool {
    &&& 0 <= n <= c.len()
    &&& n <= d.len()
    &&& forall|q: int|
        0 <= q < n ==> (#[trigger] c[q]).key() == d[q].key() && c[q].kernel == d[q].kernel
}

/// Where the kernel items stand in front, the keys of the kernel are the
/// keys of the items in front, and the items behind are no kernel items.
pub proof fn lemma_kernel_in_front(items: Seq<Item>, n: int)
    requires
        kernel_first(items),
        0 <= n <= items.len(),
    ensures
        kernel_keys(items, n).len() <= n,
        forall|i: int|
            0 <= i < kernel_keys(items, n).len() ==> (#[trigger] items[i]).kernel && kernel_keys(
                items,
                n,
            )[i] == items[i].key(),
        forall|i: int| kernel_keys(items, n).len() <= i < n ==> !(#[trigger] items[i]).kernel,
    decreases n,
{
    if n > 0 {
        lemma_kernel_in_front(items, n - 1);
        let less = kernel_keys(items, n - 1);
        if items[n - 1].kernel {
            assert forall|i: int| 0 <= i < n - 1 implies (#[trigger] items[i]).kernel by {
                assert(items[n - 1].kernel);
            }
            if less.len() < n - 1 {
                assert(!items[less.len() as int].kernel);
                assert(false);
            }
        }
    }
}

/// An item that closure added has a first caller and a first rule.
pub proof fn lemma_comes_from_somewhere(rules: Seq<Item>, items: Seq<Item>, q: int) -> (place: (
    int,
    int,
))
    requires
        0 <= q < items.len(),
        !items[q].kernel,
        justified(rules, items, q),
    ensures
        comes_from(rules, items, q, place.0, place.1),
{
    let i0 = choose|i: int| 0 <= i < q && (#[trigger] items[i]).expects(items[q].left);
    let r0 = choose|r: int|
        0 <= r < rules.len() && items[q].key() == (#[trigger] rules[r]).closure_item().key();
    assert(called_for(items, q));
    let i = lemma_first_caller(items, q, i0);
    let r = lemma_first_source(rules, items[q], r0);
    (i, r)
}

/// Where an item calls for another, some item is the first to do so.
pub proof fn lemma_first_caller(items: Seq<Item>, q: int, i: int) -> (first: int)
    requires
        0 <= i < q,
        items[i].expects(items[q].left),
    ensures
        first <= i,
        first_caller(items, q, first),
    decreases i,
{
    if exists|k: int| 0 <= k < i && (#[trigger] items[k]).expects(items[q].left) {
        let k = choose|k: int| 0 <= k < i && (#[trigger] items[k]).expects(items[q].left);
        lemma_first_caller(items, q, k)
    } else {
        i
    }
}

/// Where an item is the closure item of a rule, some rule is the first
/// that it is the closure item of.
pub proof fn lemma_first_source(rules: Seq<Item>, item: Item, r: int) -> (first: int)
    requires
        0 <= r < rules.len(),
        rules[r].closure_item().key() == item.key(),
    ensures
        first <= r,
        first_source(rules, item, first),
    decreases r,
{
    if exists|k: int| 0 <= k < r && (#[trigger] rules[k]).closure_item().key() == item.key() {
        let k = choose|k: int|
            0 <= k < r && (#[trigger] rules[k]).closure_item().key() == item.key();
        lemma_first_source(rules, item, k)
    } else {
        r
    }
}

/// The first caller of an item is found among the items before it: two
/// lists that agree up to `n` have it in common for items with the same
/// left-hand side, where it lies before `n`.
pub proof fn lemma_same_first_caller(
    c: Seq<Item>,
    d: Seq<Item>,
    n: int,
    q: int,
    w: int,
    i: int,
)
    requires
        agree(c, d, n),
        n <= q < c.len(),
        n <= w < d.len(),
        c[q].left == d[w].left,
        first_caller(c, q, i),
        i < n,
    ensures
        first_caller(d, w, i),
{
    assert(c[i].key() == d[i].key());
    assert forall|k: int| 0 <= k < i implies !(#[trigger] d[k]).expects(d[w].left) by {
        assert(c[k].key() == d[k].key());
        assert(!c[k].expects(c[q].left));
    }
}

/// Two closures under the same rules that agree up to `n`, behind their
/// kernel items, agree on item `n` where one of them has it.
pub proof fn lemma_next_item_determined(rules: Seq<Item>, c: Seq<Item>, d: Seq<Item>, n: int)
    requires
        is_closure(rules, c),
        is_closure(rules, d),
        agree(c, d, n),
        n < c.len(),
        !c[n].kernel,
        forall|q: int| n <= q < d.len() ==> !(#[trigger] d[q]).kernel,
    ensures
        agree(c, d, n + 1),
{
    assert(justified(rules, c, n));
    let (i, r) = lemma_comes_from_somewhere(rules, c, n);
    assert(c[i].key() == d[i].key());
    assert(served(rules, d, i));
    assert(d[i].expects(rules[r].left));
    assert(has_closure_item(d, rules[r]));
    let w = choose|w: int|
        0 <= w < d.len() && !(#[trigger] d[w]).kernel && d[w].key() == rules[r].closure_item().key();
    if w < n {
        assert(c[w].key() == d[w].key() && c[w].kernel == d[w].kernel);
        assert(apart(c, w, n));
        assert(false);
    }
    if d[n].key() != c[n].key() {
        assert(w > n);
        assert(justified(rules, d, n));
        let (j, s) = lemma_comes_from_somewhere(rules, d, n);
        assert(c[j].key() == d[j].key());
        assert(served(rules, c, j));
        assert(c[j].expects(rules[s].left));
        assert(has_closure_item(c, rules[s]));
        let v = choose|v: int|
            0 <= v < c.len() && !(#[trigger] c[v]).kernel && c[v].key()
                == rules[s].closure_item().key();
        if v < n {
            assert(c[v].key() == d[v].key() && c[v].kernel == d[v].kernel);
            assert(apart(d, v, n));
            assert(false);
        }
        assert(v > n);
        // in c: item n comes from (i, r), item v from (j, s)
        assert(agree(d, c, n));
        lemma_same_first_caller(d, c, n, n, v, j);
        assert(first_source(rules, c[v], s));
        assert(comes_from(rules, c, v, j, s));
        assert(ordered(rules, c, n, v));
        assert(before(i, r, j, s));
        // in d: item n comes from (j, s), item w from (i, r)
        lemma_same_first_caller(c, d, n, n, w, i);
        assert(first_source(rules, d[w], r));
        assert(comes_from(rules, d, w, i, r));
        assert(ordered(rules, d, n, w));
        assert(before(j, s, i, r));
        assert(false);
    }
}

/// Two closures under the same rules that agree up to `n`, behind their
/// kernel items, are the same but for their targets.
pub proof fn lemma_closures_agree(rules: Seq<Item>, c: Seq<Item>, d: Seq<Item>, n: int)
    requires
        is_closure(rules, c),
        is_closure(rules, d),
        agree(c, d, n),
        forall|q: int| n <= q < c.len() ==> !(#[trigger] c[q]).kernel,
        forall|q: int| n <= q < d.len() ==> !(#[trigger] d[q]).kernel,
    ensures
        same_shape(c, d),
    decreases c.len() + d.len() - n,
{
    if n < c.len() {
        lemma_next_item_determined(rules, c, d, n);
        lemma_closures_agree(rules, c, d, n + 1);
    } else if n < d.len() {
        assert(agree(d, c, n));
        lemma_next_item_determined(rules, d, c, n);
        assert(false);
    }
}

/// Two closures under the same rules with the same kernel items in the
/// same order are the same but for their targets.
pub proof fn lemma_closure_determined(rules: Seq<Item>, c: Seq<Item>, d: Seq<Item>)
    requires
        is_closure(rules, c),
        is_closure(rules, d),
        kernel_keys(c, c.len() as int) == kernel_keys(d, d.len() as int),
    ensures
        same_shape(c, d),
{
    lemma_kernel_in_front(c, c.len() as int);
    lemma_kernel_in_front(d, d.len() as int);
    let n = kernel_keys(c, c.len() as int).len() as int;
    lemma_closures_agree(rules, c, d, n);
}

/// The first `n` states of the two tables are the same but for the
/// targets of their items.
pub open spec fn states_agree(a: TableView, b: TableView, n: int) -> bool {
    &&& 0 <= n <= a.states.len()
    &&& n <= b.states.len()
    &&& forall|i: int| 0 <= i < n ==> same_shape(#[trigger] a.states[i], b.states[i])
}

/// In two automata of one grammar whose first `n` states agree, an item
/// of one of these states has the same target in both, or in both a
/// target that is not among these states.
pub proof fn lemma_targets_agree(a: TableView, b: TableView, n: int, s: int, p: int)
    requires
        is_automaton(a),
        is_automaton(b),
        a.rules == b.rules,
        states_agree(a, b, n),
        0 <= s < n,
        0 <= p < a.states[s].len(),
    ensures
        a.states[s][p].target == b.states[s][p].target || (a.states[s][p].target matches Some(x)
            && b.states[s][p].target matches Some(y) && x >= n && y >= n),
        a.states[s][p].target matches Some(x) ==> x < a.states.len(),
        b.states[s][p].target matches Some(y) ==> y < b.states.len(),
{
    let c = a.states[s];
    let d = b.states[s];
    assert(same_shape(a.states[s], b.states[s]));
    assert(c[p].key() == d[p].key());
    assert(finished(a.rules, a.states[s], kernels(a.states)));
    assert(finished(b.rules, b.states[s], kernels(b.states)));
    assert(linked(c, kernels(a.states), p));
    assert(linked(d, kernels(b.states), p));
    if c[p].can_advance() {
        let x = c[p].target->0 as int;
        let y = d[p].target->0 as int;
        lemma_same_shape_successors(c, d, c[p].next_symbol());
        assert(kernels(a.states)[x] == kernels(b.states)[y]);
        if x < n {
            assert(same_shape(a.states[x], b.states[x]));
            lemma_same_shape_kernel(a.states[x], b.states[x]);
            assert(kernels(b.states)[x] == kernels(b.states)[y]);
        } else if y < n {
            assert(same_shape(a.states[y], b.states[y]));
            lemma_same_shape_kernel(a.states[y], b.states[y]);
            assert(kernels(a.states)[y] == kernels(a.states)[x]);
        }
    }
}

/// An item that points at a state stands at or behind the place where
/// the state is met first.
pub proof fn lemma_met_first(states: Seq<Seq<Item>>, j: int, s: int, p: int, e: int, q: int)
    requires
        met_at(states, j, s, p),
        0 <= e < states.len(),
        0 <= q < states[e].len(),
        states[e][q].target == Some(j as nat),
    ensures
        s == e && p == q || before(s, p, e, q),
{
    if e < s {
        assert(states[e][q].target != Some(j as nat));
    } else if e == s && q < p {
        assert(states[s][q].target != Some(j as nat));
    }
}

/// In two automata of one grammar whose first `n` states agree, state `n`
/// is met first at the same place.
pub proof fn lemma_met_at_same_place(
    a: TableView,
    b: TableView,
    n: int,
    s: int,
    p: int,
    e: int,
    q: int,
)
    requires
        is_automaton(a),
        is_automaton(b),
        a.rules == b.rules,
        states_agree(a, b, n),
        1 <= n < a.states.len(),
        n < b.states.len(),
        discovered(a.states, n, s, p),
        discovered(b.states, n, e, q),
    ensures
        s == e,
        p == q,
{
    assert(same_shape(a.states[s], b.states[s]));
    assert(same_shape(a.states[e], b.states[e]));
    lemma_targets_agree(a, b, n, s, p);
    lemma_targets_agree(a, b, n, e, q);
    let y = b.states[s][p].target->0 as int;
    let x = a.states[e][q].target->0 as int;
    if y > n {
        // in b, state y is met no later than at (s, p), and state n before it
        assert(reached(b.states, y));
        let (ey, qy) = choose|ey: int, qy: int| #[trigger] discovered(b.states, y, ey, qy);
        lemma_met_first(b.states, y, ey, qy, s, p);
        assert(met_at(b.states, n, e, q) && met_at(b.states, y, ey, qy));
        assert(before(e, q, ey, qy));
        assert(before(e, q, s, p));
        if x == n {
            lemma_met_first(a.states, n, s, p, e, q);
            assert(false);
        } else {
            assert(reached(a.states, x));
            let (sx, px) = choose|sx: int, px: int| #[trigger] discovered(a.states, x, sx, px);
            lemma_met_first(a.states, x, sx, px, e, q);
            assert(met_at(a.states, n, s, p) && met_at(a.states, x, sx, px));
            assert(before(s, p, sx, px));
            assert(false);
        }
    }
    assert(y == n);
    if x > n {
        assert(reached(a.states, x));
        let (sx, px) = choose|sx: int, px: int| #[trigger] discovered(a.states, x, sx, px);
        lemma_met_first(a.states, x, sx, px, e, q);
        assert(met_at(a.states, n, s, p) && met_at(a.states, x, sx, px));
        assert(before(s, p, sx, px));
        assert(before(s, p, e, q));
        lemma_met_first(b.states, n, e, q, s, p);
        assert(false);
    }
    assert(x == n);
    lemma_met_first(a.states, n, s, p, e, q);
    lemma_met_first(b.states, n, e, q, s, p);
}

/// In two automata of one grammar whose first `n` states agree, one has
/// a state `n` where the other has, and they agree on it.
pub proof fn lemma_next_state_determined(a: TableView, b: TableView, n: int)
    requires
        is_automaton(a),
        is_automaton(b),
        a.rules == b.rules,
        states_agree(a, b, n),
        n < a.states.len(),
    ensures
        states_agree(a, b, n + 1),
{
    assert(finished(a.rules, a.states[n], kernels(a.states)));
    if n == 0 {
        assert(finished(b.rules, b.states[0], kernels(b.states)));
        lemma_closure_determined(a.rules, a.states[0], b.states[0]);
    } else {
        assert(reached(a.states, n));
        let (s, p) = choose|s: int, p: int| #[trigger] discovered(a.states, n, s, p);
        lemma_targets_agree(a, b, n, s, p);
        // the other table has the state as well: the item points at it
        assert(n < b.states.len());
        assert(finished(b.rules, b.states[n], kernels(b.states)));
        assert(reached(b.states, n));
        let (e, q) = choose|e: int, q: int| #[trigger] discovered(b.states, n, e, q);
        lemma_met_at_same_place(a, b, n, s, p, e, q);
        let c = a.states[s];
        let d = b.states[s];
        assert(same_shape(a.states[s], b.states[s]));
        assert(c[p].key() == d[p].key());
        lemma_same_shape_advanced(c, d, c[p].next_symbol(), c.len() as int);
        lemma_closure_determined(a.rules, a.states[n], b.states[n]);
    }
    assert forall|i: int| 0 <= i < n + 1 implies same_shape(
        #[trigger] a.states[i],
        b.states[i],
    ) by {
        if i < n {
            assert(same_shape(a.states[i], b.states[i]));
        }
    }
}

/// Two lists that are the same but for targets are so in either order.
pub proof fn lemma_same_shape_turned(c: Seq<Item>, d: Seq<Item>)
    requires
        same_shape(c, d),
    ensures
        same_shape(d, c),
{
    assert forall|q: int| 0 <= q < d.len() implies (#[trigger] d[q]).key() == c[q].key()
        && d[q].kernel == c[q].kernel by {
        assert(c[q].key() == d[q].key());
    }
}

/// Two automata of one grammar whose first `n` states agree have the
/// same number of states, and agree on all of them.
pub proof fn lemma_states_determined(a: TableView, b: TableView, n: int)
    requires
        is_automaton(a),
        is_automaton(b),
        a.rules == b.rules,
        states_agree(a, b, n),
    ensures
        a.states.len() == b.states.len(),
        states_agree(a, b, a.states.len() as int),
    decreases a.states.len() + b.states.len() - n,
{
    if n < a.states.len() {
        lemma_next_state_determined(a, b, n);
        lemma_states_determined(a, b, n + 1);
    } else if n < b.states.len() {
        assert(states_agree(b, a, n)) by {
            assert forall|i: int| 0 <= i < n implies same_shape(
                #[trigger] b.states[i],
                a.states[i],
            ) by {
                assert(same_shape(a.states[i], b.states[i]));
                lemma_same_shape_turned(a.states[i], b.states[i]);
            }
        }
        lemma_next_state_determined(b, a, n);
        assert(false);
    }
}

/// A grammar has one automaton: two tables that are automata of the same
/// rules are the same table, state for state and item for item.
pub proof fn lemma_automaton_determined(a: TableView, b: TableView)
    requires
        is_automaton(a),
        is_automaton(b),
        a.rules == b.rules,
    ensures
        a == b,
{
    lemma_states_determined(a, b, 0);
    let n = a.states.len() as int;
    assert forall|s: int| 0 <= s < n implies #[trigger] a.states[s] == b.states[s] by {
        assert(same_shape(a.states[s], b.states[s]));
        assert forall|p: int| 0 <= p < a.states[s].len() implies #[trigger] a.states[s][p]
            == b.states[s][p] by {
            lemma_targets_agree(a, b, n, s, p);
            assert(a.states[s][p].key() == b.states[s][p].key());
        }
        assert(a.states[s] =~= b.states[s]);
    }
    assert(a.states =~= b.states);
    assert(a.numbers =~= b.numbers);
}

} // verus!
