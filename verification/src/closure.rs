//! How a closure is built, item by item, and why the result is the
//! closure: the proofs behind the closing of a state.

use crate::automaton::{
    advanced, all_from_grammar, apart, before, called_for, comes_from, from_grammar,
    has_closure_item, is_closure, Item, justified, kernel_keys, kernel_of, ordered, served,
    successors,
};
use vstd::prelude::*;
use vstd::set_lib::{lemma_int_range, lemma_len_subset, set_int_range};

verus! {

/// The two lists hold the same items but for their targets.
pub open spec fn same_shape(a: Seq<Item>, b: Seq<Item>) -> bool {
    &&& a.len() == b.len()
    &&& forall|q: int|
        0 <= q < a.len() ==> (#[trigger] a[q]).key() == b[q].key() && a[q].kernel == b[q].kernel
}

/// Targets play no part in the kernel of a state.
pub proof fn lemma_same_shape_kernel(a: Seq<Item>, b: Seq<Item>)
    requires
        same_shape(a, b),
    ensures
        kernel_of(a) == kernel_of(b),
{
    assert forall|c: Item| kernel_of(a).contains(c) <==> kernel_of(b).contains(c) by {
        if kernel_of(a).contains(c) {
            let i = choose|i: int| 0 <= i < a.len() && (#[trigger] a[i]).kernel && a[i].key() == c;
            assert(b[i].kernel && b[i].key() == c);
        }
        if kernel_of(b).contains(c) {
            let i = choose|i: int| 0 <= i < b.len() && (#[trigger] b[i]).kernel && b[i].key() == c;
            assert(a[i].kernel && a[i].key() == c);
        }
    }
    assert(kernel_of(a) =~= kernel_of(b));
}

/// Targets play no part in the successors of a state.
pub proof fn lemma_same_shape_successors(a: Seq<Item>, b: Seq<Item>, symbol: Seq<char>)
    requires
        same_shape(a, b),
    ensures
        successors(a, symbol) == successors(b, symbol),
{
    assert forall|c: Item| successors(a, symbol).contains(c) <==> successors(b, symbol).contains(
        c,
    ) by {
        if successors(a, symbol).contains(c) {
            let i = choose|i: int|
                0 <= i < a.len() && (#[trigger] a[i]).expects(symbol) && a[i].advance() == c;
            assert(a[i].key() == b[i].key());
            assert(b[i].expects(symbol) && b[i].advance() == c);
        }
        if successors(b, symbol).contains(c) {
            let i = choose|i: int|
                0 <= i < b.len() && (#[trigger] b[i]).expects(symbol) && b[i].advance() == c;
            assert(a[i].key() == b[i].key());
            assert(a[i].expects(symbol) && a[i].advance() == c);
        }
    }
    assert(successors(a, symbol) =~= successors(b, symbol));
}

/// Targets play no part in whether a rule has its closure item.
proof fn lemma_same_shape_has(a: Seq<Item>, b: Seq<Item>, rule: Item)
    requires
        same_shape(a, b),
        has_closure_item(a, rule),
    ensures
        has_closure_item(b, rule),
{
    let q = choose|q: int|
        0 <= q < a.len() && !(#[trigger] a[q]).kernel && a[q].key() == rule.closure_item().key();
    assert(!b[q].kernel && b[q].key() == rule.closure_item().key());
}

/// Targets play no part in closure.
pub proof fn lemma_same_shape_closure(rules: Seq<Item>, a: Seq<Item>, b: Seq<Item>)
    requires
        same_shape(a, b),
        is_closure(rules, a),
    ensures
        is_closure(rules, b),
{
    assert forall|i: int| 0 <= i < b.len() implies #[trigger] served(rules, b, i) by {
        assert(served(rules, a, i));
        assert(a[i].key() == b[i].key());
        assert forall|r: int|
            0 <= r < rules.len() && b[i].expects((#[trigger] rules[r]).left) implies has_closure_item(
            b,
            rules[r],
        ) by {
            assert(a[i].expects(rules[r].left));
            lemma_same_shape_has(a, b, rules[r]);
        }
    }
    assert forall|q: int| 0 <= q < b.len() implies #[trigger] justified(rules, b, q) by {
        assert(justified(rules, a, q));
        assert(a[q].key() == b[q].key() && a[q].kernel == b[q].kernel);
        if !b[q].kernel {
            let r = choose|r: int|
                0 <= r < rules.len() && a[q].key() == (#[trigger] rules[r]).closure_item().key();
            assert(b[q].key() == rules[r].closure_item().key());
            let i = choose|i: int| 0 <= i < q && (#[trigger] a[i]).expects(a[q].left);
            assert(a[i].key() == b[i].key());
            assert(b[i].expects(b[q].left));
        }
    }
    assert forall|p: int, q: int| 0 <= p < q < b.len() implies #[trigger] apart(b, p, q) by {
        assert(apart(a, p, q));
        assert(a[p].key() == b[p].key() && a[p].kernel == b[p].kernel);
        assert(a[q].key() == b[q].key() && a[q].kernel == b[q].kernel);
    }
    assert forall|p: int, q: int| 0 <= p < q < b.len() && (#[trigger] b[q]).kernel implies (
    #[trigger] b[p]).kernel by {
        assert(a[q].kernel == b[q].kernel);
        assert(a[p].kernel == b[p].kernel);
    }
    assert forall|p: int, q: int| 0 <= p < q < b.len() implies #[trigger] ordered(
        rules,
        b,
        p,
        q,
    ) by {
        assert(ordered(rules, a, p, q));
        assert(a[p].key() == b[p].key() && a[p].kernel == b[p].kernel);
        assert(a[q].key() == b[q].key() && a[q].kernel == b[q].kernel);
        if !b[p].kernel && !b[q].kernel {
            assert forall|i: int, r: int, j: int, s: int|
                #![trigger comes_from(rules, b, p, i, r), comes_from(rules, b, q, j, s)]
                comes_from(rules, b, p, i, r) && comes_from(rules, b, q, j, s) implies before(
                i,
                r,
                j,
                s,
            ) by {
                lemma_same_shape_comes_from(rules, b, a, p, i, r);
                lemma_same_shape_comes_from(rules, b, a, q, j, s);
            }
        }
    }
}

/// Targets play no part in where a closure item comes from.
pub proof fn lemma_same_shape_comes_from(
    rules: Seq<Item>,
    a: Seq<Item>,
    b: Seq<Item>,
    q: int,
    i: int,
    r: int,
)
    requires
        same_shape(a, b),
        0 <= q < a.len(),
        comes_from(rules, a, q, i, r),
    ensures
        comes_from(rules, b, q, i, r),
{
    assert(a[q].key() == b[q].key());
    assert(a[i].key() == b[i].key());
    assert forall|k: int| 0 <= k < i implies !(#[trigger] b[k]).expects(b[q].left) by {
        assert(a[k].key() == b[k].key());
        assert(!a[k].expects(a[q].left));
    }
}

/// Targets play no part in whether an item is a rule of the grammar.
pub proof fn lemma_same_key_from_grammar(rules: Seq<Item>, a: Item, b: Item)
    requires
        a.key() == b.key(),
        from_grammar(rules, a),
    ensures
        from_grammar(rules, b),
{
    let r = choose|r: int|
        0 <= r < rules.len() && (#[trigger] rules[r]).left == a.left && rules[r].right == a.right;
    assert(rules[r].left == b.left && rules[r].right == b.right);
}

/// A closure under construction: `given` in front, then one closure item
/// for each rule index in `picks`, each called for by an earlier item, and
/// none repeating an item that closure added before it.
#[verifier::opaque]
pub open spec fn closing(
    rules: Seq<Item>,
    given: Seq<Item>,
    items: Seq<Item>,
    picks: Seq<int>,
) -> bool {
    &&& given.len() <= items.len()
    &&& items.subrange(0, given.len() as int) == given
    &&& picks.len() == items.len() - given.len()
    &&& forall|k: int|
        0 <= k < picks.len() ==> 0 <= #[trigger] picks[k] < rules.len() && items[given.len() + k]
            == rules[picks[k]].closure_item()
    &&& forall|q: int| given.len() <= q < items.len() ==> #[trigger] called_for(items, q)
    &&& forall|a: int, b: int|
        0 <= a < b < items.len() && given.len() <= b ==> #[trigger] apart(items, a, b)
}

/// The order of a closure under construction: the added item `k` comes
/// from caller `callers[k]` and rule `picks[k]`, and these grow from each
/// added item to the next.
#[verifier::opaque]
pub open spec fn closing_order(
    rules: Seq<Item>,
    start: int,
    items: Seq<Item>,
    callers: Seq<int>,
    picks: Seq<int>,
) -> bool {
    &&& callers.len() == picks.len()
    &&& picks.len() == items.len() - start
    &&& forall|k: int|
        0 <= k < picks.len() ==> #[trigger] comes_from(rules, items, start + k, callers[k], picks[k])
    &&& forall|k: int, m: int|
        0 <= k < m < picks.len() ==> before(
            #[trigger] callers[k],
            picks[k],
            #[trigger] callers[m],
            picks[m],
        )
}

/// Every added item came from before caller `p` with rule `r`.
pub open spec fn progress(callers: Seq<int>, picks: Seq<int>, p: int, r: int) -> bool {
    forall|k: int| 0 <= k < callers.len() ==> before(#[trigger] callers[k], picks[k], p, r)
}

/// Before anything is added, the order holds.
pub proof fn lemma_order_start(rules: Seq<Item>, given: Seq<Item>)
    ensures
        closing_order(rules, given.len() as int, given, Seq::empty(), Seq::empty()),
        progress(Seq::empty(), Seq::empty(), 0, 0),
{
    reveal(closing_order);
}

/// What came from before one rule came from before the next rule, and
/// from before the next caller.
pub proof fn lemma_progress(callers: Seq<int>, picks: Seq<int>, p: int, r: int)
    requires
        progress(callers, picks, p, r),
        0 <= r,
    ensures
        progress(callers, picks, p, r + 1),
        progress(callers, picks, p + 1, 0),
{
    assert forall|k: int| 0 <= k < callers.len() implies before(
        #[trigger] callers[k],
        picks[k],
        p,
        r + 1,
    ) && before(callers[k], picks[k], p + 1, 0) by {
        assert(before(callers[k], picks[k], p, r));
    }
}

/// The closure item that is added for rule `r` on behalf of item `p`
/// comes from there, and behind all that was added before.
pub proof fn lemma_order_push(
    rules: Seq<Item>,
    start: int,
    items: Seq<Item>,
    callers: Seq<int>,
    picks: Seq<int>,
    p: int,
    r: int,
)
    requires
        closing_order(rules, start, items, callers, picks),
        progress(callers, picks, p, r),
        0 <= start <= items.len(),
        0 <= p < items.len(),
        0 <= r < rules.len(),
        items[p].expects(rules[r].left),
        !has_closure_item(items, rules[r]),
        forall|i: int| 0 <= i < p ==> #[trigger] served(rules, items, i),
        forall|k: int|
            0 <= k < r && (#[trigger] rules[k]).left == rules[r].left ==> has_closure_item(
                items,
                rules[k],
            ),
    ensures
        closing_order(
            rules,
            start,
            items.push(rules[r].closure_item()),
            callers.push(p),
            picks.push(r),
        ),
        progress(callers.push(p), picks.push(r), p, r + 1),
{
    reveal(closing_order);
    let added = rules[r].closure_item();
    let after = items.push(added);
    let last = items.len() as int;
    let more_callers = callers.push(p);
    let more_picks = picks.push(r);
    assert forall|k: int| 0 <= k < more_picks.len() implies #[trigger] comes_from(
        rules,
        after,
        start + k,
        more_callers[k],
        more_picks[k],
    ) by {
        if k < picks.len() {
            let q = start + k;
            assert(comes_from(rules, items, q, callers[k], picks[k]));
            assert(after[q] == items[q]);
            assert(after[callers[k]] == items[callers[k]]);
            assert forall|m: int| 0 <= m < callers[k] implies !(#[trigger] after[m]).expects(
                after[q].left,
            ) by {
                assert(after[m] == items[m]);
            }
        } else {
            assert(after[last] == added);
            assert(after[p] == items[p]);
            assert forall|m: int| 0 <= m < p implies !(#[trigger] after[m]).expects(
                added.left,
            ) by {
                assert(after[m] == items[m]);
                if items[m].expects(rules[r].left) {
                    assert(served(rules, items, m));
                }
            }
            assert forall|m: int| 0 <= m < r implies (#[trigger] rules[m]).closure_item().key()
                != added.key() by {
                if rules[m].closure_item().key() == added.key() {
                    assert(rules[m].left == rules[r].left);
                    assert(has_closure_item(items, rules[m]));
                    let w = choose|w: int|
                        0 <= w < items.len() && !(#[trigger] items[w]).kernel && items[w].key()
                            == rules[m].closure_item().key();
                    assert(!items[w].kernel && items[w].key() == rules[r].closure_item().key());
                }
            }
        }
    }
    assert forall|k: int, m: int| 0 <= k < m < more_picks.len() implies before(
        #[trigger] more_callers[k],
        more_picks[k],
        #[trigger] more_callers[m],
        more_picks[m],
    ) by {
        if m < picks.len() {
            assert(before(callers[k], picks[k], callers[m], picks[m]));
        } else {
            assert(before(callers[k], picks[k], p, r));
        }
    }
    assert forall|k: int| 0 <= k < more_callers.len() implies before(
        #[trigger] more_callers[k],
        more_picks[k],
        p,
        r + 1,
    ) by {
        if k < callers.len() {
            assert(before(callers[k], picks[k], p, r));
        }
    }
}

/// A closure item has one first caller and one first rule.
pub proof fn lemma_comes_from_once(
    rules: Seq<Item>,
    items: Seq<Item>,
    q: int,
    i: int,
    r: int,
    j: int,
    s: int,
)
    requires
        comes_from(rules, items, q, i, r),
        comes_from(rules, items, q, j, s),
    ensures
        i == j,
        r == s,
{
    if i < j {
        assert(!items[i].expects(items[q].left));
    } else if j < i {
        assert(!items[j].expects(items[q].left));
    }
    if r < s {
        assert(rules[r].closure_item().key() != items[q].key());
    } else if s < r {
        assert(rules[s].closure_item().key() != items[q].key());
    }
}

/// In a closure under construction the added items stand in order.
pub proof fn lemma_order_done(
    rules: Seq<Item>,
    start: int,
    items: Seq<Item>,
    callers: Seq<int>,
    picks: Seq<int>,
)
    requires
        closing_order(rules, start, items, callers, picks),
        0 <= start <= items.len(),
    ensures
        forall|a: int, b: int|
            start <= a < b < items.len() ==> #[trigger] ordered(rules, items, a, b),
{
    reveal(closing_order);
    assert forall|a: int, b: int| start <= a < b < items.len() implies #[trigger] ordered(
        rules,
        items,
        a,
        b,
    ) by {
        if a >= start {
            let ka = a - start;
            let kb = b - start;
            assert(comes_from(rules, items, start + ka, callers[ka], picks[ka]));
            assert(comes_from(rules, items, start + kb, callers[kb], picks[kb]));
            assert(before(callers[ka], picks[ka], callers[kb], picks[kb]));
            assert forall|i: int, r: int, j: int, s: int|
                #![trigger comes_from(rules, items, a, i, r), comes_from(rules, items, b, j, s)]
                comes_from(rules, items, a, i, r) && comes_from(
                    rules,
                    items,
                    b,
                    j,
                    s,
                ) implies before(i, r, j, s) by {
                lemma_comes_from_once(rules, items, a, i, r, callers[ka], picks[ka]);
                lemma_comes_from_once(rules, items, b, j, s, callers[kb], picks[kb]);
            }
        }
    }
}

/// The given items alone are a closure under construction.
pub proof fn lemma_closing_start(rules: Seq<Item>, given: Seq<Item>)
    ensures
        closing(rules, given, given, Seq::empty()),
{
    reveal(closing);
    assert(given.subrange(0, given.len() as int) =~= given);
}

/// Indices below `bound` without repetition are at most `bound` many.
pub proof fn lemma_distinct_indices_bounded(picks: Seq<int>, bound: int)
    requires
        0 <= bound,
        picks.no_duplicates(),
        forall|k: int| 0 <= k < picks.len() ==> 0 <= #[trigger] picks[k] < bound,
    ensures
        picks.len() <= bound,
{
    if picks.len() > 0 {
        assert(0 <= picks[0] < bound);
        picks.unique_seq_to_set();
        lemma_int_range(0, bound);
        assert(picks.to_set().subset_of(set_int_range(0, bound))) by {
            assert forall|x: int| picks.to_set().contains(x) implies set_int_range(
                0,
                bound,
            ).contains(x) by {
                let k = choose|k: int| 0 <= k < picks.len() && picks[k] == x;
                assert(0 <= picks[k] < bound);
            }
        }
        lemma_len_subset(picks.to_set(), set_int_range(0, bound));
    }
}

/// A closure under construction has at most one added item for each rule,
/// and its kernel items are the given ones.
pub proof fn lemma_closing_bounded(
    rules: Seq<Item>,
    given: Seq<Item>,
    items: Seq<Item>,
    picks: Seq<int>,
)
    requires
        closing(rules, given, items, picks),
    ensures
        given.len() <= items.len() <= given.len() + rules.len(),
{
    reveal(closing);
    assert forall|i: int, j: int|
        0 <= i < picks.len() && 0 <= j < picks.len() && i != j implies picks[i] != picks[j] by {
        if picks[i] == picks[j] {
            assert(items[given.len() + i] == rules[picks[i]].closure_item());
            assert(items[given.len() + j] == rules[picks[j]].closure_item());
            if i < j {
                assert(apart(items, given.len() + i, given.len() + j));
            } else {
                assert(apart(items, given.len() + j, given.len() + i));
            }
        }
    }
    assert(picks.no_duplicates());
    lemma_distinct_indices_bounded(picks, rules.len() as int);
}

/// Adding an item keeps the closure items that are there.
pub proof fn lemma_push_keeps_has(items: Seq<Item>, added: Item, rule: Item)
    requires
        has_closure_item(items, rule),
    ensures
        has_closure_item(items.push(added), rule),
{
    let q = choose|q: int|
        0 <= q < items.len() && !(#[trigger] items[q]).kernel && items[q].key()
            == rule.closure_item().key();
    assert(items.push(added)[q] == items[q]);
}

/// Adding an item keeps the items served that were served.
pub proof fn lemma_push_keeps_served(rules: Seq<Item>, items: Seq<Item>, added: Item, i: int)
    requires
        0 <= i < items.len(),
        served(rules, items, i),
    ensures
        served(rules, items.push(added), i),
{
    let after = items.push(added);
    assert(after[i] == items[i]);
    assert forall|r: int|
        0 <= r < rules.len() && after[i].expects((#[trigger] rules[r]).left) implies has_closure_item(
        after,
        rules[r],
    ) by {
        lemma_push_keeps_has(items, added, rules[r]);
    }
}

/// Adding the closure item of a rule that an item calls for, and that is
/// not there yet, keeps a closure under construction.
pub proof fn lemma_closing_push(
    rules: Seq<Item>,
    given: Seq<Item>,
    items: Seq<Item>,
    picks: Seq<int>,
    p: int,
    r: int,
)
    requires
        closing(rules, given, items, picks),
        0 <= p < items.len(),
        0 <= r < rules.len(),
        items[p].expects(rules[r].left),
        !has_closure_item(items, rules[r]),
    ensures
        closing(rules, given, items.push(rules[r].closure_item()), picks.push(r)),
        has_closure_item(items.push(rules[r].closure_item()), rules[r]),
{
    reveal(closing);
    let added = rules[r].closure_item();
    let after = items.push(added);
    let more = picks.push(r);
    let last = items.len() as int;
    assert(after.subrange(0, given.len() as int) =~= items.subrange(0, given.len() as int));
    assert forall|k: int| 0 <= k < more.len() implies 0 <= #[trigger] more[k] < rules.len()
        && after[given.len() + k] == rules[more[k]].closure_item() by {
        if k < picks.len() {
            assert(more[k] == picks[k]);
            assert(after[given.len() + k] == items[given.len() + k]);
        }
    }
    assert forall|q: int| given.len() <= q < after.len() implies #[trigger] called_for(
        after,
        q,
    ) by {
        if q < last {
            assert(called_for(items, q));
            let i = choose|i: int| 0 <= i < q && (#[trigger] items[i]).expects(items[q].left);
            assert(after[i] == items[i]);
            assert(after[i].expects(after[q].left));
        } else {
            assert(after[p] == items[p]);
            assert(after[p].expects(after[q].left));
        }
    }
    assert forall|a: int, b: int|
        0 <= a < b < after.len() && given.len() <= b implies #[trigger] apart(after, a, b) by {
        assert(after[a] == items[a]);
        if b < last {
            assert(after[b] == items[b]);
            assert(apart(items, a, b));
        } else if !items[a].kernel && items[a].key() == added.key() {
            assert(has_closure_item(items, rules[r]));
        }
    }
    assert(!after[last].kernel && after[last].key() == rules[r].closure_item().key());
}

/// What closure has added to the given items: items with their dot in
/// front, no kernel items, without target, each the closure item of a rule
/// that an earlier item calls for, none repeating another item that
/// closure added; the kernel is as it was.
pub proof fn lemma_closing_added(
    rules: Seq<Item>,
    given: Seq<Item>,
    items: Seq<Item>,
    picks: Seq<int>,
)
    requires
        closing(rules, given, items, picks),
    ensures
        given.len() <= items.len(),
        items.subrange(0, given.len() as int) == given,
        kernel_of(items) == kernel_of(given),
        forall|q: int|
            given.len() <= q < items.len() ==> (#[trigger] items[q]).dot == 0 && items[q].target is None
                && !items[q].kernel,
        forall|q: int| given.len() <= q < items.len() ==> #[trigger] justified(rules, items, q),
        forall|p: int, q: int|
            0 <= p < q < items.len() && given.len() <= q ==> #[trigger] apart(items, p, q),
{
    reveal(closing);
    assert forall|q: int| 0 <= q < given.len() implies #[trigger] items[q] == given[q] by {
        assert(items[q] == items.subrange(0, given.len() as int)[q]);
    }
    assert forall|q: int| given.len() <= q < items.len() implies (#[trigger] items[q]).dot == 0
        && items[q].target is None && !items[q].kernel by {
        let k = q - given.len();
        assert(items[given.len() + k] == rules[picks[k]].closure_item());
    }
    assert forall|q: int| given.len() <= q < items.len() implies #[trigger] justified(
        rules,
        items,
        q,
    ) by {
        let k = q - given.len();
        assert(items[given.len() + k] == rules[picks[k]].closure_item());
        assert(called_for(items, q));
    }
    assert forall|c: Item| kernel_of(items).contains(c) <==> kernel_of(given).contains(c) by {
        if kernel_of(items).contains(c) {
            let i = choose|i: int|
                0 <= i < items.len() && (#[trigger] items[i]).kernel && items[i].key() == c;
            assert(i < given.len());
            assert(items[i] == given[i]);
            assert(given[i].kernel && given[i].key() == c);
        }
        if kernel_of(given).contains(c) {
            let i = choose|i: int|
                0 <= i < given.len() && (#[trigger] given[i]).kernel && given[i].key() == c;
            assert(items[i] == given[i]);
            assert(items[i].kernel && items[i].key() == c);
        }
    }
    assert(kernel_of(items) =~= kernel_of(given));
}

/// A closure under construction from kernel items, in which every item is
/// served, is a closure.
pub proof fn lemma_closing_done(
    rules: Seq<Item>,
    given: Seq<Item>,
    items: Seq<Item>,
    picks: Seq<int>,
)
    requires
        closing(rules, given, items, picks),
        forall|q: int| 0 <= q < given.len() ==> (#[trigger] given[q]).kernel,
        forall|i: int| 0 <= i < items.len() ==> #[trigger] served(rules, items, i),
        forall|a: int, b: int|
            given.len() <= a < b < items.len() ==> #[trigger] ordered(rules, items, a, b),
    ensures
        is_closure(rules, items),
{
    lemma_closing_added(rules, given, items, picks);
    assert forall|q: int| 0 <= q < given.len() implies (#[trigger] items[q]).kernel by {
        assert(items[q] == items.subrange(0, given.len() as int)[q]);
    }
    assert forall|q: int| 0 <= q < items.len() implies #[trigger] justified(rules, items, q) by {
        if q >= given.len() {
            assert(justified(rules, items, q));
        }
    }
    assert forall|p: int, q: int| 0 <= p < q < items.len() implies #[trigger] apart(
        items,
        p,
        q,
    ) by {
        if q >= given.len() {
            assert(apart(items, p, q));
        }
    }
    assert forall|p: int, q: int| 0 <= p < q < items.len() implies #[trigger] ordered(
        rules,
        items,
        p,
        q,
    ) by {
        if p >= given.len() {
            assert(ordered(rules, items, p, q));
        }
    }
}

/// In a closure whose kernel items are rules of the grammar, every item
/// is one.
pub proof fn lemma_closure_from_grammar(rules: Seq<Item>, items: Seq<Item>)
    requires
        is_closure(rules, items),
        forall|q: int|
            0 <= q < items.len() && (#[trigger] items[q]).kernel ==> from_grammar(rules, items[q]),
    ensures
        all_from_grammar(rules, items),
{
    assert forall|q: int| 0 <= q < items.len() implies from_grammar(rules, #[trigger] items[q]) by {
        if !items[q].kernel {
            assert(justified(rules, items, q));
            let r = choose|r: int|
                0 <= r < rules.len() && items[q].key() == (#[trigger] rules[r]).closure_item().key();
            assert(rules[r].left == items[q].left && rules[r].right == items[q].right);
            assert(items[q].dot == 0);
        }
    }
}

/// Targets play no part in what a symbol leads to.
pub proof fn lemma_same_shape_advanced(a: Seq<Item>, b: Seq<Item>, symbol: Seq<char>, n: int)
    requires
        same_shape(a, b),
        n <= a.len(),
    ensures
        advanced(a, symbol, n) == advanced(b, symbol, n),
    decreases n,
{
    if n > 0 {
        lemma_same_shape_advanced(a, b, symbol, n - 1);
        assert(a[n - 1].key() == b[n - 1].key());
    }
}

/// Targets play no part in the keys of the kernel.
pub proof fn lemma_same_shape_kernel_keys(a: Seq<Item>, b: Seq<Item>, n: int)
    requires
        same_shape(a, b),
        n <= a.len(),
    ensures
        kernel_keys(a, n) == kernel_keys(b, n),
    decreases n,
{
    if n > 0 {
        lemma_same_shape_kernel_keys(a, b, n - 1);
        assert(a[n - 1].key() == b[n - 1].key());
    }
}

/// The keys of the kernel depend on the items that are looked at.
pub proof fn lemma_kernel_keys_prefix(a: Seq<Item>, b: Seq<Item>, n: int)
    requires
        n <= a.len(),
        n <= b.len(),
        forall|q: int| 0 <= q < n ==> #[trigger] a[q] == b[q],
    ensures
        kernel_keys(a, n) == kernel_keys(b, n),
    decreases n,
{
    if n > 0 {
        lemma_kernel_keys_prefix(a, b, n - 1);
        assert(a[n - 1] == b[n - 1]);
    }
}

/// Items added by closure add nothing to the keys of the kernel.
pub proof fn lemma_kernel_keys_tail(items: Seq<Item>, n: int, m: int)
    requires
        0 <= n <= m <= items.len(),
        forall|q: int| n <= q < m ==> !(#[trigger] items[q]).kernel,
    ensures
        kernel_keys(items, m) == kernel_keys(items, n),
    decreases m - n,
{
    if n < m {
        lemma_kernel_keys_tail(items, n, m - 1);
        assert(!items[m - 1].kernel);
    }
}

/// What a symbol leads to is made of kernel items without targets, and is
/// its own list of keys.
pub proof fn lemma_advanced_is_kernel(items: Seq<Item>, symbol: Seq<char>, n: int)
    requires
        n <= items.len(),
    ensures
        forall|k: int|
            0 <= k < advanced(items, symbol, n).len() ==> (#[trigger] advanced(
                items,
                symbol,
                n,
            )[k]).kernel && advanced(items, symbol, n)[k].target is None && successors(
                items,
                symbol,
            ).contains(advanced(items, symbol, n)[k]),
        kernel_keys(advanced(items, symbol, n), advanced(items, symbol, n).len() as int)
            == advanced(items, symbol, n),
        forall|i: int|
            0 <= i < n && (#[trigger] items[i]).expects(symbol) ==> advanced(
                items,
                symbol,
                n,
            ).contains(items[i].advance()),
    decreases n,
{
    if n > 0 {
        lemma_advanced_is_kernel(items, symbol, n - 1);
        let less = advanced(items, symbol, n - 1);
        let all = advanced(items, symbol, n);
        if items[n - 1].expects(symbol) {
            let added = items[n - 1].advance();
            assert(all == less.push(added));
            assert(successors(items, symbol).contains(added));
            assert forall|k: int| 0 <= k < all.len() implies (#[trigger] all[k]).kernel
                && all[k].target is None && successors(items, symbol).contains(all[k]) by {
                if k < less.len() {
                    assert(all[k] == less[k]);
                }
            }
            lemma_kernel_keys_prefix(all, less, less.len() as int);
            assert(kernel_keys(all, all.len() as int) == kernel_keys(all, less.len() as int).push(
                added.key(),
            ));
            assert forall|i: int| 0 <= i < n && (#[trigger] items[i]).expects(
                symbol,
            ) implies all.contains(items[i].advance()) by {
                if i < n - 1 {
                    let k = choose|k: int| 0 <= k < less.len() && less[k] == items[i].advance();
                    assert(all[k] == less[k]);
                } else {
                    assert(all[less.len() as int] == added);
                }
            }
        }
    }
}

/// What a symbol leads to, as a list, has the successors as its kernel.
pub proof fn lemma_advanced_kernel(items: Seq<Item>, symbol: Seq<char>)
    ensures
        kernel_of(advanced(items, symbol, items.len() as int)) == successors(items, symbol),
{
    let all = advanced(items, symbol, items.len() as int);
    lemma_advanced_is_kernel(items, symbol, items.len() as int);
    assert forall|c: Item| kernel_of(all).contains(c) <==> successors(items, symbol).contains(
        c,
    ) by {
        if kernel_of(all).contains(c) {
            let k = choose|k: int| 0 <= k < all.len() && (#[trigger] all[k]).kernel && all[k].key() == c;
            assert(successors(items, symbol).contains(all[k]));
            let i = choose|i: int|
                0 <= i < items.len() && (#[trigger] items[i]).expects(symbol) && items[i].advance()
                    == all[k];
            assert(all[k].key() == all[k]);
        }
        if successors(items, symbol).contains(c) {
            let i = choose|i: int|
                0 <= i < items.len() && (#[trigger] items[i]).expects(symbol) && items[i].advance()
                    == c;
            assert(all.contains(items[i].advance()));
            let k = choose|k: int| 0 <= k < all.len() && all[k] == c;
            assert(all[k].kernel && all[k].key() == c);
        }
    }
    assert(kernel_of(all) =~= successors(items, symbol));
}

} // verus!
