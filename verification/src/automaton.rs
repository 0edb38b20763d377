//! The mathematical model of the automaton: dotted rules, kernels,
//! closure, successor states, and what makes a table the automaton of its
//! grammar.

use vstd::prelude::*;

verus! {

/// A grammar rule with a dot in its right-hand side, as a state of the
/// automaton holds it.
pub struct Item {
    /// The nonterminal that the rule produces.
    pub left: Seq<char>,
    /// The symbol specifiers that the rule consumes, in order.
    pub right: Seq<Seq<char>>,
    /// How many symbols of `right` lie before the dot.
    pub dot: nat,
    /// The state reached by moving the dot over the next symbol, once known.
    pub target: Option<nat>,
    /// Whether the item came from a shift (or is the start item), as opposed
    /// to closure.
    pub kernel: bool,
}

/// The specifier that marks the end of the input.
pub open spec fn end_mark() -> Seq<char> {
    "$"@
}

/// The left-hand side of the rule that is added in front of the grammar.
pub open spec fn start_name() -> Seq<char> {
    "StartNode"@
}

impl Item {
    /// A rule as it is written down: dot at the front, kernel, no target.
    pub open spec fn fresh(left: Seq<char>, right: Seq<Seq<char>>) -> Item {
        Item { left, right, dot: 0, target: None, kernel: true }
    }

    /// The dot lies inside or at the end of the right-hand side.
    pub open spec fn well_formed(self) -> bool {
        self.dot <= self.right.len()
    }

    /// A symbol follows the dot.
    pub open spec fn can_expand(self) -> bool {
        self.dot < self.right.len()
    }

    /// A symbol other than the end mark follows the dot.
    pub open spec fn can_advance(self) -> bool {
        self.dot < self.right.len() && self.right[self.dot as int] != end_mark()
    }

    /// The dot has reached the end of the right-hand side.
    pub open spec fn is_reducible(self) -> bool {
        self.dot == self.right.len()
    }

    /// The symbol that follows the dot is `symbol`, compared literally.
    pub open spec fn expects(self, symbol: Seq<char>) -> bool {
        self.dot < self.right.len() && self.right[self.dot as int] == symbol
    }

    /// The symbol that follows the dot; meaningful where `can_expand` holds.
    pub open spec fn next_symbol(self) -> Seq<char> {
        self.right[self.dot as int]
    }

    /// The item without its bookkeeping: what two items are compared by.
    pub open spec fn key(self) -> Item {
        Item { left: self.left, right: self.right, dot: self.dot, target: None, kernel: true }
    }

    /// The item with its dot moved over one symbol: a kernel item without
    /// target.
    pub open spec fn advance(self) -> Item {
        Item {
            left: self.left,
            right: self.right,
            dot: self.dot + 1,
            target: None,
            kernel: true,
        }
    }

    /// The same item marked as added by closure.
    pub open spec fn expanded(self) -> Item {
        Item {
            left: self.left,
            right: self.right,
            dot: self.dot,
            target: self.target,
            kernel: false,
        }
    }

    /// The item that closure adds for this rule: dot at the front, not
    /// kernel, no target.
    pub open spec fn closure_item(self) -> Item {
        Item { left: self.left, right: self.right, dot: 0, target: None, kernel: false }
    }

    /// The same item pointing at state `target`.
    pub open spec fn with_target(self, target: Option<nat>) -> Item {
        Item {
            left: self.left,
            right: self.right,
            dot: self.dot,
            target,
            kernel: self.kernel,
        }
    }
}

/// The rule `StartNode -> start $` that is added to every grammar.
pub open spec fn start_rule(start: Seq<char>) -> Item {
    Item::fresh(start_name(), seq![start, end_mark()])
}

/// The keys of the kernel items of a state.
pub open spec fn kernel_of(items: Seq<Item>) -> Set<Item> {
    Set::new(
        |c: Item|
            exists|i: int|
                0 <= i < items.len() && (#[trigger] items[i]).kernel && items[i].key() == c,
    )
}

/// Two states have the same kernel: the automaton treats them as one state.
pub open spec fn same_kernel(a: Seq<Item>, b: Seq<Item>) -> bool {
    kernel_of(a) == kernel_of(b)
}

/// The kernel of the state reached from `items` over `symbol`: every item
/// that expects `symbol`, with its dot moved over it.
pub open spec fn successors(items: Seq<Item>, symbol: Seq<char>) -> Set<Item> {
    Set::new(
        |c: Item|
            exists|i: int|
                0 <= i < items.len() && (#[trigger] items[i]).expects(symbol) && items[i].advance()
                    == c,
    )
}

/// Some item of `items` was added by closure for `rule`.
pub open spec fn has_closure_item(items: Seq<Item>, rule: Item) -> bool {
    exists|q: int|
        0 <= q < items.len() && !(#[trigger] items[q]).kernel && items[q].key()
            == rule.closure_item().key()
}

/// Every rule for the symbol after the dot of item `i` has its closure
/// item in `items`.
pub open spec fn served(rules: Seq<Item>, items: Seq<Item>, i: int) -> bool {
    forall|r: int|
        0 <= r < rules.len() && items[i].expects((#[trigger] rules[r]).left) ==> has_closure_item(
            items,
            rules[r],
        )
}

/// An item before position `q` has its dot before the left-hand side of
/// the item at `q`.
pub open spec fn called_for(items: Seq<Item>, q: int) -> bool {
    exists|i: int| 0 <= i < q && (#[trigger] items[i]).expects(items[q].left)
}

/// The item at `q` is a kernel item, or it is the closure item of a rule
/// of the grammar that an earlier item calls for.
pub open spec fn justified(rules: Seq<Item>, items: Seq<Item>, q: int) -> bool {
    items[q].kernel || {
        &&& exists|r: int|
            0 <= r < rules.len() && items[q].key() == (#[trigger] rules[r]).closure_item().key()
        &&& called_for(items, q)
    }
}

/// The items at `p` and `q` do not repeat each other: one of them is a
/// kernel item, or they differ in rule or dot.
pub open spec fn apart(items: Seq<Item>, p: int, q: int) -> bool {
    items[p].kernel || items[q].kernel || items[p].key() != items[q].key()
}

/// Item `i` is the first that calls for the item at `q`: the first with
/// its dot before that item's left-hand side.
pub open spec fn first_caller(items: Seq<Item>, q: int, i: int) -> bool {
    &&& 0 <= i < q
    &&& items[i].expects(items[q].left)
    &&& forall|k: int| 0 <= k < i ==> !(#[trigger] items[k]).expects(items[q].left)
}

/// Rule `r` is the first rule of the grammar that `item` is the closure
/// item of.
pub open spec fn first_source(rules: Seq<Item>, item: Item, r: int) -> bool {
    &&& 0 <= r < rules.len()
    &&& rules[r].closure_item().key() == item.key()
    &&& forall|k: int| 0 <= k < r ==> (#[trigger] rules[k]).closure_item().key() != item.key()
}

/// The item at `q` was called for first by item `i` and stands for rule
/// `r`.
pub open spec fn comes_from(rules: Seq<Item>, items: Seq<Item>, q: int, i: int, r: int) -> bool {
    first_caller(items, q, i) && first_source(rules, items[q], r)
}

/// Caller `i` with rule `r` comes before caller `j` with rule `s`.
pub open spec fn before(i: int, r: int, j: int, s: int) -> bool {
    i < j || (i == j && r < s)
}

/// The items at `a` and `b` stand in the order in which closure meets
/// them: by the item that calls first for them, and under one caller by
/// their rules' places in the grammar. Kernel items are not held to this.
pub open spec fn ordered(rules: Seq<Item>, items: Seq<Item>, a: int, b: int) -> bool {
    items[a].kernel || items[b].kernel || forall|i: int, r: int, j: int, s: int|
        #![trigger comes_from(rules, items, a, i, r), comes_from(rules, items, b, j, s)]
        comes_from(rules, items, a, i, r) && comes_from(rules, items, b, j, s) ==> before(
            i,
            r,
            j,
            s,
        )
}

/// The kernel items stand in front of the items that closure added.
pub open spec fn kernel_first(items: Seq<Item>) -> bool {
    forall|p: int, q: int|
        0 <= p < q < items.len() && (#[trigger] items[q]).kernel ==> (#[trigger] items[p]).kernel
}

/// `items` is the closure of its kernel under `rules`: for every item with
/// its dot before a symbol, each rule for that symbol is present with its
/// dot at the front, once; nothing else was added; the kernel items stand
/// in front; and behind them the added items stand in the order in which
/// they were called for.
pub open spec fn is_closure(rules: Seq<Item>, items: Seq<Item>) -> bool {
    &&& forall|i: int| 0 <= i < items.len() ==> #[trigger] served(rules, items, i)
    &&& forall|q: int| 0 <= q < items.len() ==> #[trigger] justified(rules, items, q)
    &&& forall|p: int, q: int| 0 <= p < q < items.len() ==> #[trigger] apart(items, p, q)
    &&& forall|p: int, q: int| 0 <= p < q < items.len() ==> #[trigger] ordered(rules, items, p, q)
    &&& kernel_first(items)
}

/// The item is a rule of the grammar with its dot inside or at the end.
pub open spec fn from_grammar(rules: Seq<Item>, item: Item) -> bool {
    &&& item.well_formed()
    &&& exists|r: int|
        0 <= r < rules.len() && (#[trigger] rules[r]).left == item.left && rules[r].right
            == item.right
}

/// The kernel of each state.
pub open spec fn kernels(states: Seq<Seq<Item>>) -> Seq<Set<Item>> {
    states.map_values(|items: Seq<Item>| kernel_of(items))
}

/// Item `p` has its transition: where its dot can move, its target is the
/// state whose kernel is made of all items of `items` that expect the same
/// symbol, each moved over it; where it cannot, it has no target.
pub open spec fn linked(items: Seq<Item>, kernels: Seq<Set<Item>>, p: int) -> bool {
    if items[p].can_advance() {
        match items[p].target {
            Some(t) => t < kernels.len() && kernels[t as int] == successors(
                items,
                items[p].next_symbol(),
            ),
            None => false,
        }
    } else {
        items[p].target is None
    }
}

/// Every item of the state has its transition.
pub open spec fn all_linked(items: Seq<Item>, kernels: Seq<Set<Item>>) -> bool {
    forall|p: int| 0 <= p < items.len() ==> #[trigger] linked(items, kernels, p)
}

/// Every item of the state is a rule of the grammar.
pub open spec fn all_from_grammar(rules: Seq<Item>, items: Seq<Item>) -> bool {
    forall|q: int| 0 <= q < items.len() ==> from_grammar(rules, #[trigger] items[q])
}

/// A state that is complete: closed, with its transitions.
pub open spec fn finished(rules: Seq<Item>, items: Seq<Item>, kernels: Seq<Set<Item>>) -> bool {
    &&& is_closure(rules, items)
    &&& all_linked(items, kernels)
    &&& all_from_grammar(rules, items)
}

/// The rule has the sides of the item: it is the rule that the item is a
/// place in.
pub open spec fn same_rule(rule: Item, item: Item) -> bool {
    rule.left == item.left && rule.right == item.right
}

/// `r` is where the rule of the item is declared: the place of the first
/// rule of the grammar with the sides of the item, or the number of rules
/// where the grammar has no such rule.
pub open spec fn is_rank(rules: Seq<Item>, item: Item, r: int) -> bool {
    &&& 0 <= r <= rules.len()
    &&& r < rules.len() ==> same_rule(rules[r], item)
    &&& forall|k: int| 0 <= k < r ==> !same_rule(#[trigger] rules[k], item)
}

/// Where the rule of the item is declared in the grammar.
pub open spec fn rank(rules: Seq<Item>, item: Item) -> int {
    choose|r: int| is_rank(rules, item, r)
}

/// Among the first `n` rules, the place where the rule of the item is
/// declared, or `n`.
pub proof fn lemma_rank_among(rules: Seq<Item>, item: Item, n: int) -> (r: int)
    requires
        0 <= n <= rules.len(),
    ensures
        0 <= r <= n,
        r < n ==> same_rule(rules[r], item),
        forall|k: int| 0 <= k < r ==> !same_rule(#[trigger] rules[k], item),
    decreases n,
{
    if n == 0 {
        0
    } else {
        let r = lemma_rank_among(rules, item, n - 1);
        if r < n - 1 {
            r
        } else if same_rule(rules[n - 1], item) {
            n - 1
        } else {
            n
        }
    }
}

/// Every item has one place where its rule is declared.
pub proof fn lemma_rank(rules: Seq<Item>, item: Item)
    ensures
        is_rank(rules, item, rank(rules, item)),
{
    let r = lemma_rank_among(rules, item, rules.len() as int);
    assert(is_rank(rules, item, r));
}

/// The place where the rule of an item is declared is its rank.
pub proof fn lemma_rank_is(rules: Seq<Item>, item: Item, r: int)
    requires
        is_rank(rules, item, r),
    ensures
        rank(rules, item) == r,
{
    let c = rank(rules, item);
    if c < r {
        assert(!same_rule(rules[c], item));
    } else if r < c {
        assert(!same_rule(rules[r], item));
    }
}

/// Item `q` comes before item `k` where a state reduces: its rule is
/// declared earlier in the grammar, or it is the same rule and the item
/// does not stand behind the other.
pub open spec fn precedes(rules: Seq<Item>, items: Seq<Item>, q: int, k: int) -> bool {
    rank(rules, items[q]) < rank(rules, items[k]) || (rank(rules, items[q]) == rank(
        rules,
        items[k],
    ) && q <= k)
}

/// Among the first `n` items, item `q` is the one to reduce by: its dot is
/// at the end, and of all such items its rule is declared first in the
/// grammar.
pub open spec fn wins_among(rules: Seq<Item>, items: Seq<Item>, n: int, q: int) -> bool {
    &&& 0 <= q < n
    &&& items[q].is_reducible()
    &&& forall|k: int|
        0 <= k < n && (#[trigger] items[k]).is_reducible() ==> precedes(rules, items, q, k)
}

/// Item `q` is the one that the state reduces by: its dot is at the end,
/// and of all such items of the state its rule is declared first in the
/// grammar.
pub open spec fn wins(rules: Seq<Item>, items: Seq<Item>, q: int) -> bool {
    wins_among(rules, items, items.len() as int, q)
}

/// The reduction of a state: of its items whose dot is at the end, the one
/// whose rule is declared first in the grammar, whatever the order of the
/// items in the state; none where no item has its dot at the end.
pub open spec fn reduction_of(rules: Seq<Item>, items: Seq<Item>) -> Option<Item> {
    if exists|q: int| wins(rules, items, q) {
        Some(items[choose|q: int| wins(rules, items, q)])
    } else {
        None
    }
}

/// At most one item is the one to reduce by.
pub proof fn lemma_wins(rules: Seq<Item>, items: Seq<Item>, q: int)
    requires
        wins(rules, items, q),
    ensures
        reduction_of(rules, items) == Some(items[q]),
{
    let c = choose|c: int| wins(rules, items, c);
    assert(precedes(rules, items, q, c));
    assert(precedes(rules, items, c, q));
}

/// A state without an item whose dot is at the end has no reduction.
pub proof fn lemma_no_reducible(rules: Seq<Item>, items: Seq<Item>)
    requires
        forall|k: int| 0 <= k < items.len() ==> !(#[trigger] items[k]).is_reducible(),
    ensures
        reduction_of(rules, items) is None,
{
}

/// Where one of the first `n` items has its dot at the end, one of them
/// is the one to reduce by.
pub proof fn lemma_some_wins(rules: Seq<Item>, items: Seq<Item>, n: int, p: int) -> (w: int)
    requires
        0 <= p < n <= items.len(),
        items[p].is_reducible(),
    ensures
        wins_among(rules, items, n, w),
    decreases n,
{
    let last = n - 1;
    if exists|k: int| 0 <= k < last && (#[trigger] items[k]).is_reducible() {
        let k = choose|k: int| 0 <= k < last && (#[trigger] items[k]).is_reducible();
        let w = lemma_some_wins(rules, items, last, k);
        if items[last].is_reducible() && rank(rules, items[last]) < rank(rules, items[w]) {
            assert forall|j: int| 0 <= j < n && (#[trigger] items[j]).is_reducible() implies precedes(
                rules,
                items,
                last,
                j,
            ) by {
                if j < last {
                    assert(precedes(rules, items, w, j));
                }
            }
            last
        } else {
            assert forall|j: int| 0 <= j < n && (#[trigger] items[j]).is_reducible() implies precedes(
                rules,
                items,
                w,
                j,
            ) by {
                if j < last {
                    assert(precedes(rules, items, w, j));
                }
            }
            w
        }
    } else {
        assert(p == last);
        last
    }
}

/// The reductions of all states, by state number.
pub open spec fn reductions_of(rules: Seq<Item>, states: Seq<Seq<Item>>) -> Map<int, Item> {
    Map::new(
        |s: int| 0 <= s < states.len() && reduction_of(rules, states[s]) is Some,
        |s: int| reduction_of(rules, states[s])->0,
    )
}

/// A table: the grammar with the added rule at its end, the states, and
/// the reduction of each state that has one.
pub struct TableView {
    /// The rules of the grammar, the added start rule last.
    pub rules: Seq<Item>,
    /// The number that each state carries.
    pub numbers: Seq<nat>,
    /// The items of each state.
    pub states: Seq<Seq<Item>>,
    /// The reduction of each state that has one.
    pub reductions: Map<int, Item>,
}

/// A grammar that a table can be built from: it has a rule, and every
/// rule has a symbol on its right-hand side.
pub open spec fn valid_grammar(rules: Seq<Item>) -> bool {
    &&& rules.len() > 0
    &&& forall|r: int| 0 <= r < rules.len() ==> (#[trigger] rules[r]).right.len() > 0
}

/// The grammar with the rule `StartNode -> start $` added at its end,
/// where `start` is the left-hand side of the first rule.
pub open spec fn augmented(rules: Seq<Item>) -> Seq<Item> {
    rules.push(start_rule(rules[0].left))
}

/// In an automaton, the items of a state that expect the same symbol
/// point at the same state: there is one shift for each symbol.
pub proof fn lemma_one_shift(t: TableView, s: int, p: int, q: int)
    requires
        is_automaton(t),
        0 <= s < t.states.len(),
        0 <= p < t.states[s].len(),
        0 <= q < t.states[s].len(),
        t.states[s][p].can_advance(),
        t.states[s][q].expects(t.states[s][p].next_symbol()),
    ensures
        t.states[s][p].target is Some,
        t.states[s][q].target == t.states[s][p].target,
{
    let items = t.states[s];
    assert(finished(t.rules, t.states[s], kernels(t.states)));
    assert(linked(items, kernels(t.states), p));
    assert(linked(items, kernels(t.states), q));
    let a = items[p].target->0 as int;
    let b = items[q].target->0 as int;
    assert(kernels(t.states)[a] == kernels(t.states)[b]);
}

/// No two states of an automaton have the same kernel.
pub proof fn lemma_distinct_kernels(t: TableView, i: int, j: int)
    requires
        is_automaton(t),
        0 <= i < t.states.len(),
        0 <= j < t.states.len(),
        i != j,
    ensures
        !same_kernel(t.states[i], t.states[j]),
{
    assert(kernels(t.states)[i] != kernels(t.states)[j]);
}

/// Where items of a state have their dots at the end, the state reduces
/// by the one whose rule is declared first in the grammar: no such item
/// has a rule that is declared before the rule of the reduction, in
/// whatever order the items stand in the state.
pub proof fn lemma_declared_first_reduces(t: TableView, s: int, p: int)
    requires
        is_automaton(t),
        0 <= s < t.states.len(),
        0 <= p < t.states[s].len(),
        t.states[s][p].is_reducible(),
    ensures
        t.reductions.contains_key(s),
        t.reductions[s].is_reducible(),
        t.states[s].contains(t.reductions[s]),
        rank(t.rules, t.reductions[s]) <= rank(t.rules, t.states[s][p]),
{
    let items = t.states[s];
    let w = lemma_some_wins(t.rules, items, items.len() as int, p);
    lemma_wins(t.rules, items, w);
    assert(precedes(t.rules, items, w, p));
}

/// Of two items of a state with their dots at the end, the state does not
/// reduce by the one whose rule is declared later in the grammar.
pub proof fn lemma_later_rule_loses(t: TableView, s: int, p: int, q: int)
    requires
        is_automaton(t),
        0 <= s < t.states.len(),
        0 <= p < t.states[s].len(),
        0 <= q < t.states[s].len(),
        t.states[s][p].is_reducible(),
        t.states[s][q].is_reducible(),
        rank(t.rules, t.states[s][p]) < rank(t.rules, t.states[s][q]),
    ensures
        t.reductions.contains_key(s),
        !same_rule(t.reductions[s], t.states[s][q]),
{
    lemma_declared_first_reduces(t, s, p);
    let won = t.reductions[s];
    if same_rule(won, t.states[s][q]) {
        lemma_rank(t.rules, won);
        lemma_rank(t.rules, t.states[s][q]);
        let a = rank(t.rules, won);
        let b = rank(t.rules, t.states[s][q]);
        assert(is_rank(t.rules, t.states[s][q], a)) by {
            assert forall|k: int| 0 <= k < a implies !same_rule(
                #[trigger] t.rules[k],
                t.states[s][q],
            ) by {
                assert(!same_rule(t.rules[k], won));
            }
        }
        lemma_rank_is(t.rules, t.states[s][q], a);
    }
}

/// The items among the first `n` of `items` that expect `symbol`, each
/// with its dot moved over it, in their order.
pub open spec fn advanced(items: Seq<Item>, symbol: Seq<char>, n: int) -> Seq<Item>
    decreases n,
{
    if n <= 0 {
        Seq::empty()
    } else if items[n - 1].expects(symbol) {
        advanced(items, symbol, n - 1).push(items[n - 1].advance())
    } else {
        advanced(items, symbol, n - 1)
    }
}

/// The keys of the kernel items among the first `n` of `items`, in their
/// order.
pub open spec fn kernel_keys(items: Seq<Item>, n: int) -> Seq<Item>
    decreases n,
{
    if n <= 0 {
        Seq::empty()
    } else if items[n - 1].kernel {
        kernel_keys(items, n - 1).push(items[n - 1].key())
    } else {
        kernel_keys(items, n - 1)
    }
}

/// State `j` is met first at item `p` of state `s`: that item points at
/// it, and no item before it, in that state or in a state before.
pub open spec fn met_at(states: Seq<Seq<Item>>, j: int, s: int, p: int) -> bool {
    &&& 0 <= s < states.len()
    &&& 0 <= p < states[s].len()
    &&& states[s][p].target == Some(j as nat)
    &&& forall|q: int| 0 <= q < p ==> (#[trigger] states[s][q]).target != Some(j as nat)
    &&& forall|e: int, q: int|
        0 <= e < s && 0 <= q < states[e].len() ==> (#[trigger] states[e][q]).target != Some(
            j as nat,
        )
}

/// State `j` is met first at item `p` of an earlier state `s`, and its
/// kernel items are the items of `s` that expect the same symbol as item
/// `p`, moved over it, in their order.
pub open spec fn discovered(states: Seq<Seq<Item>>, j: int, s: int, p: int) -> bool {
    &&& met_at(states, j, s, p)
    &&& s < j
    &&& kernel_keys(states[j], states[j].len() as int) == advanced(
        states[s],
        states[s][p].next_symbol(),
        states[s].len() as int,
    )
}

/// The table is the automaton of its grammar: state 0 starts from the
/// added rule; every state is the closure of its kernel; every item whose
/// dot can move points at the state whose kernel is made of the items that
/// expect the same symbol, moved over it; no two states have the same
/// kernel; each state but the first is met first at an item of an earlier
/// state, has its kernel items in the order of the items it was made of
/// there, and is met later than the states before it; and each state's
/// reduction is, of its items whose dot is at the end, the one whose rule
/// is declared first in the grammar.
pub open spec fn is_automaton(t: TableView) -> bool {
    &&& t.rules.len() >= 2
    &&& t.rules.last() == start_rule(t.rules[0].left)
    &&& forall|r: int| 0 <= r < t.rules.len() ==> (#[trigger] t.rules[r]).right.len() > 0
    &&& t.states.len() >= 1
    &&& t.numbers == Seq::new(t.states.len(), |i: int| i as nat)
    &&& kernel_of(t.states[0]) == set![t.rules.last()]
    &&& kernel_keys(t.states[0], t.states[0].len() as int) == seq![t.rules.last()]
    &&& kernels(t.states).no_duplicates()
    &&& forall|s: int|
        0 <= s < t.states.len() ==> finished(t.rules, #[trigger] t.states[s], kernels(t.states))
    &&& forall|j: int| 1 <= j < t.states.len() ==> #[trigger] reached(t.states, j)
    &&& forall|i: int, j: int, s: int, p: int, e: int, q: int|
        #![trigger met_at(t.states, i, s, p), met_at(t.states, j, e, q)]
        1 <= i < j < t.states.len() && met_at(t.states, i, s, p) && met_at(t.states, j, e, q)
            ==> before(s, p, e, q)
    &&& t.reductions == reductions_of(t.rules, t.states)
}

/// State `j` is met first at an item of an earlier state, which its
/// kernel comes from.
pub open spec fn reached(states: Seq<Seq<Item>>, j: int) -> bool {
    exists|s: int, p: int| #[trigger] discovered(states, j, s, p)
}

/// A state is met first at one place.
pub proof fn lemma_met_once(states: Seq<Seq<Item>>, j: int, s: int, p: int, e: int, q: int)
    requires
        met_at(states, j, s, p),
        met_at(states, j, e, q),
    ensures
        s == e,
        p == q,
{
    if s < e {
        assert(states[s][p].target != Some(j as nat));
    } else if e < s {
        assert(states[e][q].target != Some(j as nat));
    } else if p < q {
        assert(states[s][p].target != Some(j as nat));
    } else if q < p {
        assert(states[s][q].target != Some(j as nat));
    }
}

} // verus!
