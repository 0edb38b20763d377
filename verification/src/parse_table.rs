//! The automaton builder: dotted rules, states, and the action table.

use crate::automaton::{
    advanced, all_from_grammar, all_linked, apart, augmented, end_mark, from_grammar,
    has_closure_item, is_automaton, is_closure, Item, justified, kernel_keys, kernel_of, kernels,
    lemma_no_reducible, lemma_rank_is, lemma_wins, linked, ordered, precedes, rank, reduction_of,
    reductions_of, same_kernel, same_rule, served, start_rule, successors, TableView,
    valid_grammar, wins, wins_among,
};
use crate::closure::{
    closing, closing_order, lemma_advanced_is_kernel, lemma_advanced_kernel, lemma_closing_added,
    lemma_closing_bounded, lemma_closing_done, lemma_closing_push, lemma_closing_start,
    lemma_closure_from_grammar, lemma_kernel_keys_prefix, lemma_kernel_keys_tail, lemma_order_done,
    lemma_order_push, lemma_order_start, lemma_progress, lemma_push_keeps_has,
    lemma_push_keeps_served, lemma_same_key_from_grammar, lemma_same_shape_closure,
    lemma_same_shape_kernel, lemma_same_shape_kernel_keys, progress, same_shape,
};
use crate::construction::{
    building, charted, grouped, lemma_building_bounded, lemma_building_done, lemma_building_finish,
    lemma_building_push, lemma_building_start, lemma_chart_close, lemma_chart_found,
    lemma_chart_new, lemma_chart_skip, lemma_chart_start, lemma_grouped_retarget, lemma_link_new,
    lemma_relink, lemma_start_item_waits, lemma_successor_from_grammar, pending, retargeted,
    universe,
};
use crate::finite::subsets;
use crate::text::{clone_texts, same_texts, texts};
use std::collections::HashMap;
use vstd::prelude::*;
use vstd::std_specs::cmp::PartialEqSpecImpl;

verus! {

/// What can go wrong when a table is built or queried.
#[derive(Debug, Clone, Copy, PartialEq, Eq, Structural)]
pub enum ParseTableError {
    /// The grammar has no rule.
    NoRulesSpecified,
    /// A rule has no symbol on its right-hand side.
    InvalidTableRule,
    /// The state has neither a shift over the symbol nor a reduction.
    InvalidSymbolForSet,
    /// The table has no state of that index.
    InvalidSetIndex,
}

/// A grammar rule with the position that the automaton has reached in it.
#[derive(Debug)]
pub struct TableRule {
    left: String,
    right: Vec<String>,
    next_symbol_index: usize,
    next_set_index: Option<usize>,
    is_kernel_rule: bool,
}

impl View for TableRule {
    type V = Item;

    closed spec fn view(&self) -> Item {
        Item {
            left: self.left@,
            right: texts(self.right@),
            dot: self.next_symbol_index as nat,
            target: match self.next_set_index {
                Some(t) => Some(t as nat),
                None => None,
            },
            kernel: self.is_kernel_rule,
        }
    }
}

impl Clone for TableRule {
    fn clone(&self) -> (r: Self)
        ensures
            r@ == self@,
    {
        TableRule {
            left: self.left.clone(),
            right: clone_texts(&self.right),
            next_symbol_index: self.next_symbol_index,
            next_set_index: self.next_set_index,
            is_kernel_rule: self.is_kernel_rule,
        }
    }
}

impl PartialEq for TableRule {
    fn eq(&self, other: &Self) -> (r: bool) {
        self.left == other.left && same_texts(&self.right, &other.right)
            && self.next_symbol_index == other.next_symbol_index && self.next_set_index
            == other.next_set_index && self.is_kernel_rule == other.is_kernel_rule
    }
}

impl PartialEqSpecImpl for TableRule {
    open spec fn obeys_eq_spec() -> bool {
        true
    }

    open spec fn eq_spec(&self, other: &Self) -> bool {
        self@ == other@
    }
}

impl TableRule {
    /// A rule as it is written down: the dot in front of the first symbol.
    pub fn new(left: String, right: Vec<String>) -> (r: Self)
        ensures
            r@ == Item::fresh(left@, texts(right@)),
    {
        TableRule {
            left: left,
            right: right,
            next_symbol_index: 0,
            next_set_index: None,
            is_kernel_rule: true,
        }
    }

    /// A copy with the dot moved over the next symbol, as the kernel item
    /// of a successor state.
    pub fn clone_and_advance(&self) -> (r: TableRule)
        requires
            self@.dot < usize::MAX,
        ensures
            r@ == self@.advance(),
    {
        let mut new_rule = self.clone();
        new_rule.next_symbol_index = self.next_symbol_index + 1;
        new_rule.next_set_index = None;
        new_rule.is_kernel_rule = true;
        return new_rule
    }

    /// A copy marked as added by closure.
    pub fn clone_as_expanded_rule(&self) -> (r: TableRule)
        ensures
            r@ == self@.expanded(),
    {
        let mut new_rule = self.clone();
        new_rule.is_kernel_rule = false;
        return new_rule
    }

    /// Whether the dot can move: a symbol other than `$` follows it.
    pub fn can_advance(&self) -> (r: bool)
        ensures
            r == self@.can_advance(),
    {
        if self.next_symbol_index < self.right.len() {
            let end = "$".to_owned();
            assert(self@.right[self@.dot as int] == self.right@[self.next_symbol_index as int]@);
            self.right[self.next_symbol_index] != end
        } else {
            false
        }
    }

    /// Whether a symbol follows the dot.
    pub fn can_expand(&self) -> (r: bool)
        ensures
            r == self@.can_expand(),
    {
        self.next_symbol_index < self.right.len()
    }

    /// Whether the dot has reached the end of the right-hand side.
    pub fn is_reducable(&self) -> (r: bool)
        ensures
            r == self@.is_reducible(),
    {
        self.next_symbol_index == self.right.len()
    }

    /// Whether the symbol after the dot is `lookahead`, compared literally.
    pub fn matches_lookahead(&self, lookahead: &str) -> (r: bool)
        ensures
            r == self@.expects(lookahead@),
    {
        let wanted = lookahead.to_owned();
        self.expects_symbol(&wanted)
    }

    /// The left-hand side of the rule.
    pub fn left(&self) -> (r: &String)
        ensures
            r@ == self@.left,
    {
        &self.left
    }

    /// The symbols of the right-hand side of the rule.
    pub fn right(&self) -> (r: &Vec<String>)
        ensures
            texts(r@) == self@.right,
    {
        &self.right
    }

    /// How many symbols lie before the dot.
    pub fn next_symbol_index(&self) -> (r: usize)
        ensures
            r == self@.dot,
    {
        self.next_symbol_index
    }

    /// The state that the symbol after the dot leads to, once known.
    pub fn next_set_index(&self) -> (r: Option<usize>)
        ensures
            match r {
                Some(t) => self@.target == Some(t as nat),
                None => self@.target is None,
            },
    {
        self.next_set_index
    }

    /// Whether the item came from a shift or is the start item.
    pub fn is_kernel_rule(&self) -> (r: bool)
        ensures
            r == self@.kernel,
    {
        self.is_kernel_rule
    }

    /// The number of symbols on the right-hand side of the rule.
    pub fn right_len(&self) -> (r: usize)
        ensures
            r == self@.right.len(),
    {
        self.right.len()
    }

    /// `matches_lookahead` for a symbol that is already owned.
    pub(crate) fn expects_symbol(&self, symbol: &String) -> (r: bool)
        ensures
            r == self@.expects(symbol@),
            r ==> self@.dot < usize::MAX,
    {
        if self.next_symbol_index < self.right.len() {
            assert(self@.right[self@.dot as int] == self.right@[self.next_symbol_index as int]@);
            self.right[self.next_symbol_index] == *symbol
        } else {
            false
        }
    }
}

/// The items of a list of rules, in order.
pub open spec fn items_of(rules: Seq<TableRule>) -> Seq<Item> {
    rules.map_values(|r: TableRule| r@)
}

/// Whether two items are the same rule at the same dot.
fn same_key(a: &TableRule, b: &TableRule) -> (r: bool)
    ensures
        r == (a@.key() == b@.key()),
{
    a.left == b.left && a.next_symbol_index == b.next_symbol_index && same_texts(
        &a.right,
        &b.right,
    )
}

/// Whether `rule` occurs among the kernel items of `rules`.
fn kernel_has(rules: &Vec<TableRule>, rule: &TableRule) -> (r: bool)
    ensures
        r == kernel_of(items_of(rules@)).contains(rule@.key()),
{
    let ghost items = items_of(rules@);
    let mut i: usize = 0;
    while i < rules.len()
        invariant
            i <= rules.len(),
            items == items_of(rules@),
            forall|j: int| 0 <= j < i ==> !((#[trigger] items[j]).kernel && items[j].key() == rule@.key()),
        decreases rules.len() - i,
    {
        if rules[i].is_kernel_rule && same_key(&rules[i], rule) {
            assert(items[i as int].kernel && items[i as int].key() == rule@.key());
            return true;
        }
        i += 1;
    }
    false
}

/// Whether every kernel item of `a` is a kernel item of `b`.
fn kernel_within(a: &Vec<TableRule>, b: &Vec<TableRule>) -> (r: bool)
    ensures
        r == kernel_of(items_of(a@)).subset_of(kernel_of(items_of(b@))),
{
    let ghost items = items_of(a@);
    let ghost kb = kernel_of(items_of(b@));
    let mut i: usize = 0;
    while i < a.len()
        invariant
            i <= a.len(),
            items == items_of(a@),
            kb == kernel_of(items_of(b@)),
            forall|j: int| 0 <= j < i && (#[trigger] items[j]).kernel ==> kb.contains(items[j].key()),
        decreases a.len() - i,
    {
        if a[i].is_kernel_rule && !kernel_has(b, &a[i]) {
            assert(items[i as int].kernel);
            assert(kernel_of(items).contains(items[i as int].key()));
            return false;
        }
        i += 1;
    }
    true
}

/// A state of the automaton: its number and its items, kernel first.
#[derive(Debug)]
pub struct ItemSet {
    index: usize,
    rules: Vec<TableRule>,
}

impl View for ItemSet {
    type V = Seq<Item>;

    closed spec fn view(&self) -> Seq<Item> {
        items_of(self.rules@)
    }
}

impl ItemSet {
    /// The number of the state.
    pub closed spec fn number(&self) -> nat {
        self.index as nat
    }

    /// A state with the given number and items.
    pub fn new(index: usize, rules: Vec<TableRule>) -> (r: Self)
        ensures
            r@ == items_of(rules@),
            r.number() == index,
    {
        ItemSet { index, rules }
    }

    /// The number of the state.
    pub fn index(&self) -> (r: usize)
        ensures
            r == self.number(),
    {
        self.index
    }

    /// The items of the state.
    pub fn rules(&self) -> (r: &Vec<TableRule>)
        ensures
            items_of(r@) == self@,
    {
        &self.rules
    }

    /// Whether the two states have the same kernel items, as sets: the
    /// order of the items, their targets and the items added by closure do
    /// not count.
    pub fn is_same_kernel(&self, other: &ItemSet) -> (r: bool)
        ensures
            r == same_kernel(self@, other@),
    {
        let r = kernel_within(&self.rules, &other.rules) && kernel_within(
            &other.rules,
            &self.rules,
        );
        proof {
            if r {
                assert(kernel_of(self@) =~= kernel_of(other@));
            }
        }
        r
    }
}

/// Whether the closure item of `rule` is among `items`.
fn has_closure_rule(items: &Vec<TableRule>, rule: &TableRule) -> (r: bool)
    ensures
        r == has_closure_item(items_of(items@), rule@),
{
    let ghost its = items_of(items@);
    let mut q: usize = 0;
    while q < items.len()
        invariant
            q <= items.len(),
            its == items_of(items@),
            forall|j: int|
                0 <= j < q ==> !(!(#[trigger] its[j]).kernel && its[j].key()
                    == rule@.closure_item().key()),
        decreases items.len() - q,
    {
        let it = &items[q];
        if !it.is_kernel_rule && it.next_symbol_index == 0 && it.left == rule.left && same_texts(
            &it.right,
            &rule.right,
        ) {
            assert(!its[q as int].kernel && its[q as int].key() == rule@.closure_item().key());
            return true;
        }
        q += 1;
    }
    false
}

/// The items of `items` that expect `symbol`, each with its dot moved over
/// it, in their order: the kernel of the state that `symbol` leads to.
fn advance_all(items: &Vec<TableRule>, symbol: &String) -> (out: Vec<TableRule>)
    ensures
        items_of(out@) == advanced(items_of(items@), symbol@, items@.len() as int),
{
    let ghost its = items_of(items@);
    let mut out: Vec<TableRule> = Vec::new();
    let mut q: usize = 0;
    assert(items_of(out@) =~= advanced(its, symbol@, 0));
    while q < items.len()
        invariant
            q <= items@.len(),
            its == items_of(items@),
            items_of(out@) == advanced(its, symbol@, q as int),
        decreases items@.len() - q,
    {
        assert(its[q as int] == items@[q as int]@);
        if items[q].expects_symbol(symbol) {
            let ghost before = items_of(out@);
            let moved = items[q].clone_and_advance();
            out.push(moved);
            assert(items_of(out@) =~= before.push(its[q as int].advance()));
        }
        q += 1;
    }
    out
}

/// Points every item of `items` that expects `symbol` at state `target`.
fn assign_target(items: &mut Vec<TableRule>, symbol: &String, target: usize)
    ensures
        retargeted(items_of(old(items)@), items_of(final(items)@), symbol@, target as nat),
{
    let ghost given = items_of(items@);
    let mut q: usize = 0;
    while q < items.len()
        invariant
            q <= items@.len(),
            items@.len() == given.len(),
            same_shape(given, items_of(items@)),
            forall|i: int|
                0 <= i < q ==> (#[trigger] items_of(items@)[i]).target == (if given[i].expects(
                    symbol@,
                ) {
                    Some(target as nat)
                } else {
                    given[i].target
                }),
            forall|i: int| q <= i < given.len() ==> #[trigger] items_of(items@)[i] == given[i],
        decreases items@.len() - q,
    {
        if items[q].expects_symbol(symbol) {
            let ghost before = items_of(items@);
            assert(before[q as int] == given[q as int]);
            items[q].next_set_index = Some(target);
            proof {
                let after = items_of(items@);
                assert(after =~= before.update(
                    q as int,
                    before[q as int].with_target(Some(target as nat)),
                ));
                assert forall|i: int| 0 <= i < given.len() implies (#[trigger] given[i]).key()
                    == after[i].key() && given[i].kernel == after[i].kernel by {
                    assert(given[i].key() == before[i].key());
                }
            }
        } else {
            assert(items_of(items@)[q as int] == given[q as int]);
        }
        q += 1;
    }
}

/// The items of each state of a list, in order.
pub open spec fn states_of(sets: Seq<ItemSet>) -> Seq<Seq<Item>> {
    sets.map_values(|s: ItemSet| s@)
}

/// Each state of the list carries its position as its number.
pub open spec fn numbered(sets: Seq<ItemSet>) -> bool {
    forall|j: int| 0 <= j < sets.len() ==> (#[trigger] sets[j]).number() == j
}

/// The reductions of a table, by state number.
pub open spec fn entries_of(m: Map<usize, TableRule>) -> Map<int, Item> {
    Map::new(
        |s: int| 0 <= s <= usize::MAX && m.contains_key(s as usize),
        |s: int| m[s as usize]@,
    )
}

/// The first state of `sets` with the kernel of `wanted`, if there is one.
fn find_set(sets: &Vec<ItemSet>, wanted: &ItemSet) -> (r: Option<usize>)
    ensures
        match r {
            Some(j) => j < sets@.len() && same_kernel(states_of(sets@)[j as int], wanted@),
            None => forall|j: int|
                0 <= j < sets@.len() ==> !same_kernel(#[trigger] states_of(sets@)[j], wanted@),
        },
{
    let mut j: usize = 0;
    while j < sets.len()
        invariant
            j <= sets@.len(),
            forall|i: int| 0 <= i < j ==> !same_kernel(#[trigger] states_of(sets@)[i], wanted@),
        decreases sets@.len() - j,
    {
        if sets[j].is_same_kernel(wanted) {
            return Some(j);
        }
        j += 1;
    }
    None
}

/// The action table of a grammar.
pub struct ParseTable {
    rules: Vec<TableRule>,
    sets: Vec<ItemSet>,
    possible_reductions: HashMap<usize, TableRule>,
}

impl View for ParseTable {
    type V = TableView;

    closed spec fn view(&self) -> TableView {
        TableView {
            rules: items_of(self.rules@),
            numbers: self.sets@.map_values(|s: ItemSet| s.number()),
            states: states_of(self.sets@),
            reductions: entries_of(self.possible_reductions@),
        }
    }
}

impl ParseTable {
    /// The closure of a state: the items are kept in front, and behind
    /// them stands, once, each rule that some item calls for and that
    /// closure has not yet added, with its dot in front, in the order in
    /// which they are called for. A state of kernel items becomes the
    /// closure of its kernel; a state that is closed stays as it is.
    fn expand_set(&self, set: ItemSet) -> (full: ItemSet)
        ensures
            full.number() == set.number(),
            full@.len() >= set@.len(),
            full@.subrange(0, set@.len() as int) == set@,
            kernel_of(full@) == kernel_of(set@),
            forall|i: int| 0 <= i < full@.len() ==> #[trigger] served(self@.rules, full@, i),
            forall|q: int|
                set@.len() <= q < full@.len() ==> (#[trigger] full@[q]).dot == 0
                    && full@[q].target is None && !full@[q].kernel,
            forall|q: int|
                set@.len() <= q < full@.len() ==> #[trigger] justified(self@.rules, full@, q),
            forall|p: int, q: int|
                0 <= p < q < full@.len() && set@.len() <= q ==> #[trigger] apart(full@, p, q),
            forall|p: int, q: int|
                set@.len() <= p < q < full@.len() ==> #[trigger] ordered(self@.rules, full@, p, q),
            (forall|q: int| 0 <= q < set@.len() ==> (#[trigger] set@[q]).kernel) ==> is_closure(
                self@.rules,
                full@,
            ),
            is_closure(self@.rules, set@) ==> full@ == set@,
    {
        let rules = &self.rules;
        let index = set.index;
        let ghost grammar = items_of(rules@);
        let ghost given = set@;
        let count = set.rules.len();
        let mut items = set.rules;
        let ghost mut picks: Seq<int> = Seq::empty();
        let ghost mut callers: Seq<int> = Seq::empty();
        let mut p: usize = 0;
        proof {
            lemma_closing_start(grammar, given);
            lemma_order_start(grammar, given);
        }
        while p < items.len()
            invariant
                grammar == items_of(rules@),
                count == given.len(),
                p <= items@.len(),
                closing(grammar, given, items_of(items@), picks),
                closing_order(grammar, count as int, items_of(items@), callers, picks),
                progress(callers, picks, p as int, 0),
                forall|i: int| 0 <= i < p ==> #[trigger] served(grammar, items_of(items@), i),
                is_closure(grammar, given) ==> items_of(items@) == given,
            decreases count + rules@.len() - p,
        {
            proof {
                lemma_closing_bounded(grammar, given, items_of(items@), picks);
            }
            if items[p].can_expand() {
                let wanted = items[p].right[items[p].next_symbol_index].clone();
                assert(items_of(items@)[p as int].expects(wanted@));
                let mut r: usize = 0;
                while r < rules.len()
                    invariant
                        grammar == items_of(rules@),
                        count == given.len(),
                        p < items@.len(),
                        r <= rules@.len(),
                        items_of(items@)[p as int].expects(wanted@),
                        closing(grammar, given, items_of(items@), picks),
                        closing_order(grammar, count as int, items_of(items@), callers, picks),
                        progress(callers, picks, p as int, r as int),
                        forall|i: int| 0 <= i < p ==> #[trigger] served(grammar, items_of(items@), i),
                        is_closure(grammar, given) ==> items_of(items@) == given,
                        forall|k: int|
                            0 <= k < r && (#[trigger] grammar[k]).left == wanted@ ==> has_closure_item(
                                items_of(items@),
                                grammar[k],
                            ),
                    decreases rules@.len() - r,
                {
                    if rules[r].left == wanted && !has_closure_rule(&items, &rules[r]) {
                        let ghost before = items_of(items@);
                        proof {
                            if is_closure(grammar, given) {
                                assert(served(grammar, given, p as int));
                                assert(given[p as int].expects(grammar[r as int].left));
                                assert(false);
                            }
                        }
                        let added = TableRule {
                            left: rules[r].left.clone(),
                            right: clone_texts(&rules[r].right),
                            next_symbol_index: 0,
                            next_set_index: None,
                            is_kernel_rule: false,
                        };
                        assert(added@ == grammar[r as int].closure_item());
                        items.push(added);
                        proof {
                            let after = items_of(items@);
                            assert(after =~= before.push(grammar[r as int].closure_item()));
                            lemma_closing_bounded(grammar, given, before, picks);
                            lemma_closing_push(grammar, given, before, picks, p as int, r as int);
                            lemma_order_push(
                                grammar,
                                count as int,
                                before,
                                callers,
                                picks,
                                p as int,
                                r as int,
                            );
                            picks = picks.push(r as int);
                            callers = callers.push(p as int);
                            assert forall|i: int| 0 <= i < p implies #[trigger] served(
                                grammar,
                                after,
                                i,
                            ) by {
                                lemma_push_keeps_served(grammar, before, added@, i);
                            }
                            assert forall|k: int|
                                0 <= k < r && (#[trigger] grammar[k]).left
                                    == wanted@ implies has_closure_item(after, grammar[k]) by {
                                lemma_push_keeps_has(before, added@, grammar[k]);
                            }
                            assert(after[p as int] == before[p as int]);
                        }
                    } else {
                        proof {
                            lemma_progress(callers, picks, p as int, r as int);
                        }
                    }
                    r += 1;
                }
                assert(served(grammar, items_of(items@), p as int));
                proof {
                    lemma_progress(callers, picks, p as int, r as int);
                }
            } else {
                assert(served(grammar, items_of(items@), p as int));
                proof {
                    lemma_progress(callers, picks, p as int, 0);
                }
            }
            p += 1;
        }
        proof {
            lemma_closing_bounded(grammar, given, items_of(items@), picks);
            lemma_closing_added(grammar, given, items_of(items@), picks);
            lemma_order_done(grammar, count as int, items_of(items@), callers, picks);
            if forall|q: int| 0 <= q < given.len() ==> (#[trigger] given[q]).kernel {
                lemma_closing_done(grammar, given, items_of(items@), picks);
            }
        }
        ItemSet { index, rules: items }
    }

    /// Gives each item of `set` whose dot can move its target: the state
    /// whose kernel is made of the items that expect the same symbol. Such
    /// a state is looked up among the states that exist, the one under
    /// construction and those that wait; where none has that kernel, a new
    /// state is put behind the others.
    fn get_advanced_sets(
        &mut self,
        set: &mut ItemSet,
        Ghost(next): Ghost<int>,
        Ghost(origin): Ghost<Seq<(int, int)>>,
    ) -> (met: Ghost<Seq<(int, int)>>)
        requires
            numbered(old(self).sets@),
            building(old(self)@.rules, old(self)@.states, next),
            0 <= next < old(self)@.states.len(),
            charted(old(self)@.states.update(next, old(set)@), origin, next, 0),
            all_from_grammar(old(self)@.rules, old(set)@),
            forall|q: int| 0 <= q < old(set)@.len() ==> (#[trigger] old(set)@[q]).target is None,
        ensures
            final(self).rules == old(self).rules,
            final(self).possible_reductions == old(self).possible_reductions,
            numbered(final(self).sets@),
            building(final(self)@.rules, final(self)@.states, next),
            final(self)@.states.len() >= old(self)@.states.len(),
            forall|j: int|
                0 <= j < old(self)@.states.len() ==> #[trigger] final(self)@.states[j] == old(
                    self,
                )@.states[j],
            same_shape(old(set)@, final(set)@),
            final(set).number() == old(set).number(),
            all_linked(final(set)@, kernels(final(self)@.states)),
            charted(
                final(self)@.states.update(next, final(set)@),
                met@,
                next,
                final(set)@.len() as int,
            ),
    {
        let ghost grammar = self@.rules;
        let ghost given = set@;
        let ghost first_states = self@.states;
        let ghost mut met = origin;
        let count = set.rules.len();
        let mut p: usize = 0;
        while p < count
            invariant
                p <= count,
                count == given.len(),
                count == set@.len(),
                self@.rules == grammar,
                self.rules == old(self).rules,
                self.possible_reductions == old(self).possible_reductions,
                numbered(self.sets@),
                building(grammar, self@.states, next),
                0 <= next < first_states.len(),
                self@.states.len() >= first_states.len(),
                forall|j: int|
                    0 <= j < first_states.len() ==> #[trigger] self@.states[j] == first_states[j],
                same_shape(given, set@),
                set.number() == old(set).number(),
                all_from_grammar(grammar, given),
                grouped(set@),
                charted(self@.states.update(next, set@), met, next, p as int),
                forall|q: int|
                    0 <= q < count ==> (#[trigger] set@[q]).target is None || linked(
                        set@,
                        kernels(self@.states),
                        q,
                    ),
                forall|q: int| 0 <= q < p ==> #[trigger] linked(set@, kernels(self@.states), q),
            decreases count - p,
        {
            assert(set@[p as int] == set.rules@[p as int]@);
            let ghost items = set@;
            let ghost states = self@.states;
            let ghost shown = states.update(next, items);
            if set.rules[p].can_advance() && set.rules[p].next_set_index.is_none() {
                let symbol = set.rules[p].right[set.rules[p].next_symbol_index].clone();
                assert(items[p as int].expects(symbol@));
                assert(symbol@ != end_mark());
                let candidate = ItemSet {
                    index: self.sets.len(),
                    rules: advance_all(&set.rules, &symbol),
                };
                proof {
                    lemma_advanced_is_kernel(items, symbol@, items.len() as int);
                    lemma_advanced_kernel(items, symbol@);
                    assert(all_from_grammar(grammar, items)) by {
                        assert forall|q: int| 0 <= q < items.len() implies from_grammar(
                            grammar,
                            #[trigger] items[q],
                        ) by {
                            assert(given[q].key() == items[q].key());
                            lemma_same_key_from_grammar(grammar, given[q], items[q]);
                        }
                    }
                    assert forall|k: int| 0 <= k < candidate@.len() implies from_grammar(
                        grammar,
                        #[trigger] candidate@[k],
                    ) && candidate@[k].kernel && candidate@[k].target is None by {
                        lemma_successor_from_grammar(grammar, items, symbol@, candidate@[k]);
                    }
                    assert(candidate@.contains(items[p as int].advance()));
                    assert(pending(grammar, candidate@));
                    assert forall|q: int| 0 <= q < p implies !(#[trigger] items[q]).expects(
                        symbol@,
                    ) by {
                        assert(linked(items, kernels(states), q));
                    }
                }
                let found = find_set(&self.sets, &candidate);
                let target = match found {
                    Some(j) => j,
                    None => {
                        let fresh = self.sets.len();
                        proof {
                            lemma_building_push(grammar, states, next, candidate@);
                            assert(states_of(self.sets@.push(candidate)) =~= states.push(
                                candidate@,
                            ));
                        }
                        self.sets.push(candidate);
                        fresh
                    },
                };
                let ghost now = self@.states;
                assert(target < now.len() && kernels(now)[target as int] == successors(
                    items,
                    symbol@,
                ));
                assert(forall|t: int|
                    0 <= t < kernels(states).len() ==> #[trigger] kernels(now)[t] == kernels(
                        states,
                    )[t]);
                assign_target(&mut set.rules, &symbol, target);
                proof {
                    let after = set@;
                    assert(same_shape(given, after)) by {
                        assert forall|q: int| 0 <= q < given.len() implies (
                        #[trigger] given[q]).key() == after[q].key() && given[q].kernel
                            == after[q].kernel by {
                            assert(given[q].key() == items[q].key());
                            assert(items[q].key() == after[q].key());
                        }
                    }
                    lemma_grouped_retarget(items, after, symbol@, target as nat);
                    if found is Some {
                        lemma_chart_found(
                            shown,
                            met,
                            next,
                            p as int,
                            symbol@,
                            after,
                            target as nat,
                        );
                        assert(now.update(next, after) =~= shown.update(next, after));
                    } else {
                        lemma_chart_new(
                            shown,
                            met,
                            next,
                            p as int,
                            symbol@,
                            after,
                            advanced(items, symbol@, items.len() as int),
                        );
                        assert(now.update(next, after) =~= shown.update(next, after).push(
                            advanced(items, symbol@, items.len() as int),
                        ));
                        met = met.push((next, p as int));
                    }
                    assert forall|q: int| 0 <= q < count implies (#[trigger] after[q]).target is None
                        || linked(after, kernels(now), q) by {
                        if items[q].expects(symbol@) {
                            lemma_link_new(items, after, kernels(now), q, symbol@, target as nat);
                        } else if items[q].target is Some {
                            lemma_relink(items, after, kernels(states), kernels(now), q);
                        }
                    }
                    assert forall|q: int| 0 <= q < p + 1 implies #[trigger] linked(
                        after,
                        kernels(now),
                        q,
                    ) by {
                        if items[q].expects(symbol@) {
                            lemma_link_new(items, after, kernels(now), q, symbol@, target as nat);
                        } else {
                            assert(linked(items, kernels(states), q));
                            lemma_relink(items, after, kernels(states), kernels(now), q);
                        }
                    }
                }
            } else {
                assert(linked(set@, kernels(self@.states), p as int));
                proof {
                    lemma_chart_skip(shown, met, next, p as int);
                }
            }
            p += 1;
        }
        Ghost(met)
    }
}

/// A copy of a list of items.
fn clone_rules(rules: &Vec<TableRule>) -> (out: Vec<TableRule>)
    ensures
        items_of(out@) == items_of(rules@),
{
    let mut out: Vec<TableRule> = Vec::new();
    let mut i: usize = 0;
    while i < rules.len()
        invariant
            i <= rules@.len(),
            out@.len() == i,
            forall|j: int| 0 <= j < i ==> #[trigger] out@[j]@ == rules@[j]@,
        decreases rules@.len() - i,
    {
        out.push(rules[i].clone());
        i += 1;
    }
    assert(items_of(out@) =~= items_of(rules@));
    out
}

/// Where the rule of `item` is declared in `grammar`: the position of the
/// first rule with its sides, or the number of rules where there is none.
fn rule_rank(grammar: &Vec<TableRule>, item: &TableRule) -> (r: usize)
    ensures
        r == rank(items_of(grammar@), item@),
{
    let ghost rules = items_of(grammar@);
    let mut r: usize = 0;
    while r < grammar.len()
        invariant
            r <= grammar@.len(),
            rules == items_of(grammar@),
            forall|k: int| 0 <= k < r ==> !same_rule(#[trigger] rules[k], item@),
        decreases grammar@.len() - r,
    {
        assert(rules[r as int] == grammar@[r as int]@);
        if grammar[r].left == item.left && same_texts(&grammar[r].right, &item.right) {
            proof {
                lemma_rank_is(rules, item@, r as int);
            }
            return r;
        }
        r += 1;
    }
    proof {
        lemma_rank_is(rules, item@, r as int);
    }
    r
}

/// The position of the item to reduce by: of the items whose dot is at the
/// end, the one whose rule is declared first in `grammar`; none where no
/// item has its dot at the end.
fn find_reducible(grammar: &Vec<TableRule>, rules: &Vec<TableRule>) -> (r: Option<usize>)
    ensures
        match r {
            Some(q) => wins(items_of(grammar@), items_of(rules@), q as int),
            None => reduction_of(items_of(grammar@), items_of(rules@)) is None,
        },
{
    let ghost declared = items_of(grammar@);
    let ghost items = items_of(rules@);
    let mut best: Option<usize> = None;
    let mut best_rank: usize = 0;
    let mut i: usize = 0;
    while i < rules.len()
        invariant
            i <= rules@.len(),
            declared == items_of(grammar@),
            items == items_of(rules@),
            match best {
                Some(q) => wins_among(declared, items, i as int, q as int) && best_rank == rank(
                    declared,
                    items[q as int],
                ),
                None => forall|k: int| 0 <= k < i ==> !(#[trigger] items[k]).is_reducible(),
            },
        decreases rules@.len() - i,
    {
        assert(items[i as int] == rules@[i as int]@);
        if rules[i].is_reducable() {
            let here = rule_rank(grammar, &rules[i]);
            match best {
                Some(q) => {
                    if here < best_rank {
                        assert forall|k: int|
                            0 <= k < i + 1 && (#[trigger] items[k]).is_reducible() implies precedes(
                            declared,
                            items,
                            i as int,
                            k,
                        ) by {
                            if k < i {
                                assert(precedes(declared, items, q as int, k));
                            }
                        }
                        best = Some(i);
                        best_rank = here;
                    } else {
                        assert forall|k: int|
                            0 <= k < i + 1 && (#[trigger] items[k]).is_reducible() implies precedes(
                            declared,
                            items,
                            q as int,
                            k,
                        ) by {
                            if k < i {
                                assert(precedes(declared, items, q as int, k));
                            }
                        }
                    }
                },
                None => {
                    best = Some(i);
                    best_rank = here;
                },
            }
        } else {
            match best {
                Some(q) => {
                    assert forall|k: int|
                        0 <= k < i + 1 && (#[trigger] items[k]).is_reducible() implies precedes(
                        declared,
                        items,
                        q as int,
                        k,
                    ) by {
                        assert(precedes(declared, items, q as int, k));
                    }
                },
                None => {},
            }
        }
        i += 1;
    }
    proof {
        if best is None {
            lemma_no_reducible(declared, items);
        }
    }
    best
}

/// What a table answers: the view of `Action`.
pub enum ActionView {
    /// Take the symbol and go to the state.
    Shift(nat),
    /// Replace the right-hand side of the rule by its left-hand side.
    Reduce(Item),
    /// Neither.
    Error(ParseTableError),
}

/// What a table answers for a state and a symbol.
pub enum Action<'a> {
    /// Take the symbol and go to the state.
    Shift(usize),
    /// Replace the right-hand side of the rule by its left-hand side.
    Reduce(&'a TableRule),
    /// Neither.
    Error(ParseTableError),
}

impl<'a> View for Action<'a> {
    type V = ActionView;

    open spec fn view(&self) -> ActionView {
        match self {
            Action::Shift(t) => ActionView::Shift(*t as nat),
            Action::Reduce(rule) => ActionView::Reduce(rule@),
            Action::Error(e) => ActionView::Error(*e),
        }
    }
}

/// Position `q` holds the first item that expects `symbol` and has a
/// target.
pub open spec fn first_shift(items: Seq<Item>, symbol: Seq<char>, q: int) -> bool {
    &&& 0 <= q < items.len()
    &&& items[q].expects(symbol)
    &&& items[q].target is Some
    &&& forall|k: int|
        0 <= k < q ==> !((#[trigger] items[k]).expects(symbol) && items[k].target is Some)
}

/// The state that `symbol` leads to: the target of the first item that
/// expects `symbol` and has one. An item with its dot before `$` has none.
pub open spec fn shift_of(items: Seq<Item>, symbol: Seq<char>) -> Option<nat> {
    if exists|q: int| first_shift(items, symbol, q) {
        items[choose|q: int| first_shift(items, symbol, q)].target
    } else {
        None
    }
}

/// The action of a table for a state and a symbol: the shift where the
/// state has one over the symbol; else the state's reduction, which is by
/// the rule declared first in the grammar among its items whose dot is at
/// the end; else an error.
pub open spec fn action_of(t: TableView, state: int, symbol: Seq<char>) -> ActionView {
    if !(0 <= state < t.states.len()) {
        ActionView::Error(ParseTableError::InvalidSetIndex)
    } else if shift_of(t.states[state], symbol) is Some {
        ActionView::Shift(shift_of(t.states[state], symbol)->0)
    } else if t.reductions.contains_key(state) {
        ActionView::Reduce(t.reductions[state])
    } else {
        ActionView::Error(ParseTableError::InvalidSymbolForSet)
    }
}

/// At most one position holds the first shift.
proof fn lemma_first_shift(items: Seq<Item>, symbol: Seq<char>, q: int)
    requires
        first_shift(items, symbol, q),
    ensures
        shift_of(items, symbol) == items[q].target,
{
    let c = choose|c: int| first_shift(items, symbol, c);
    if c < q {
        assert(!(items[c].expects(symbol) && items[c].target is Some));
    } else if q < c {
        assert(!(items[q].expects(symbol) && items[q].target is Some));
    }
}

impl ParseTable {
    /// Puts the rule `StartNode -> start $` behind the rules of the
    /// grammar, where `start` is the left-hand side of the first rule, and
    /// returns it.
    fn add_start_rule(&mut self) -> (r: Result<TableRule, ParseTableError>)
        ensures
            final(self).sets == old(self).sets,
            final(self).possible_reductions == old(self).possible_reductions,
            match r {
                Ok(rule) => old(self)@.rules.len() > 0 && final(self)@.rules == augmented(
                    old(self)@.rules,
                ) && rule@ == start_rule(old(self)@.rules[0].left),
                Err(e) => e == ParseTableError::NoRulesSpecified && old(self)@.rules.len() == 0
                    && final(self).rules == old(self).rules,
            },
    {
        if self.rules.len() == 0 {
            return Err(ParseTableError::NoRulesSpecified);
        }
        let ghost given = items_of(self.rules@);
        let mut right: Vec<String> = Vec::new();
        right.push(self.rules[0].left.clone());
        right.push("$".to_owned());
        assert(texts(right@) =~= seq![given[0].left, end_mark()]);
        let rule = TableRule::new("StartNode".to_owned(), right);
        self.rules.push(rule.clone());
        assert(items_of(self.rules@) =~= augmented(given));
        Ok(rule)
    }

    /// Records for each state its reduction: of its items whose dot is at
    /// the end, the one whose rule is declared first in the grammar. The
    /// other items with their dots at the end are passed over in silence.
    fn populate_reductions(&mut self)
        requires
            old(self).possible_reductions@ == Map::<usize, TableRule>::empty(),
        ensures
            final(self).rules == old(self).rules,
            final(self).sets == old(self).sets,
            final(self)@.reductions == reductions_of(final(self)@.rules, final(self)@.states),
    {
        broadcast use vstd::std_specs::hash::group_hash_axioms;

        let ghost states = self@.states;
        let ghost grammar = self@.rules;
        let mut s: usize = 0;
        while s < self.sets.len()
            invariant
                s <= self.sets@.len(),
                self.rules == old(self).rules,
                self.sets == old(self).sets,
                states == states_of(self.sets@),
                grammar == items_of(self.rules@),
                forall|k: usize| self.possible_reductions@.contains_key(k) ==> k < s,
                forall|k: usize|
                    k < s ==> (#[trigger] self.possible_reductions@.contains_key(k)
                        <==> reduction_of(grammar, states[k as int]) is Some),
                forall|k: usize|
                    k < s && #[trigger] self.possible_reductions@.contains_key(k)
                        ==> self.possible_reductions@[k]@ == reduction_of(
                        grammar,
                        states[k as int],
                    )->0,
            decreases self.sets@.len() - s,
        {
            assert(states[s as int] == items_of(self.sets@[s as int].rules@));
            match find_reducible(&self.rules, &self.sets[s].rules) {
                Some(q) => {
                    let rule = self.sets[s].rules[q].clone();
                    proof {
                        lemma_wins(grammar, states[s as int], q as int);
                    }
                    self.possible_reductions.insert(s, rule);
                },
                None => {},
            }
            s += 1;
        }
        assert(entries_of(self.possible_reductions@) =~= reductions_of(grammar, states));
    }

    /// Builds the states of the automaton, breadth first from the state of
    /// the added start rule, and then the reductions. Where the grammar is
    /// refused, the table is left as it was.
    fn construct(&mut self) -> (r: Result<(), ParseTableError>)
        requires
            old(self).sets@.len() == 0,
            old(self).possible_reductions@ == Map::<usize, TableRule>::empty(),
        ensures
            match r {
                Ok(()) => valid_grammar(old(self)@.rules) && final(self)@.rules == augmented(
                    old(self)@.rules,
                ) && is_automaton(final(self)@),
                Err(e) => *final(self) == *old(self) && if old(self)@.rules.len() == 0 {
                    e == ParseTableError::NoRulesSpecified
                } else {
                    e == ParseTableError::InvalidTableRule && !valid_grammar(old(self)@.rules)
                },
            },
    {
        let ghost input = self@.rules;
        if self.rules.len() == 0 {
            return Err(ParseTableError::NoRulesSpecified);
        }
        let mut r: usize = 0;
        while r < self.rules.len()
            invariant
                r <= self.rules@.len(),
                *self == *old(self),
                input == self@.rules,
                input.len() == self.rules@.len(),
                forall|k: int| 0 <= k < r ==> (#[trigger] input[k]).right.len() > 0,
            decreases self.rules@.len() - r,
        {
            assert(input[r as int] == self.rules@[r as int]@);
            if self.rules[r].right.len() == 0 {
                assert(input[r as int].right.len() == 0);
                return Err(ParseTableError::InvalidTableRule);
            }
            r += 1;
        }
        assert(valid_grammar(input));
        let start = match self.add_start_rule() {
            Ok(rule) => rule,
            Err(e) => {
                return Err(e);
            },
        };
        let ghost grammar = self@.rules;
        assert forall|k: int| 0 <= k < grammar.len() implies (#[trigger] grammar[k]).right.len()
            > 0 by {
            if k < input.len() {
                assert(grammar[k] == input[k]);
            } else {
                assert(grammar[k] == start_rule(input[0].left));
            }
        }
        let mut first: Vec<TableRule> = Vec::new();
        first.push(start);
        self.sets.push(ItemSet { index: 0, rules: first });
        let ghost mut origin: Seq<(int, int)> = seq![(0int, 0int)];
        proof {
            assert(self@.states[0] =~= seq![grammar.last()]);
            assert(self@.states =~= seq![seq![grammar.last()]]);
            lemma_start_item_waits(grammar);
            lemma_building_start(grammar, seq![grammar.last()]);
            lemma_chart_start(seq![grammar.last()]);
            assert(kernel_keys(seq![grammar.last()], 0) =~= Seq::<Item>::empty());
            assert(grammar.last().kernel && grammar.last().key() == grammar.last());
            assert(kernel_keys(seq![grammar.last()], 1) =~= seq![grammar.last()]);
        }
        let mut next: usize = 0;
        while next < self.sets.len()
            invariant
                next <= self.sets@.len(),
                self@.rules == grammar,
                self.possible_reductions@ == Map::<usize, TableRule>::empty(),
                numbered(self.sets@),
                building(grammar, self@.states, next as int),
                charted(self@.states, origin, next as int, 0),
                self@.states.len() >= 1,
                grammar.len() >= 2,
                kernel_of(self@.states[0]) == set![grammar.last()],
                kernel_keys(self@.states[0], self@.states[0].len() as int) == seq![grammar.last()],
            decreases
                    subsets(universe(grammar)).len() - self@.states.len(),
                    self@.states.len() - next,
        {
            let ghost before = self@.states;
            proof {
                lemma_building_bounded(grammar, before, next as int);
                reveal(building);
                assert(pending(grammar, before[next as int]));
            }
            let kernel = clone_rules(&self.sets[next].rules);
            assert(items_of(kernel@) == before[next as int]);
            let mut full = self.expand_set(ItemSet { index: next, rules: kernel });
            let ghost closed = full@;
            proof {
                assert forall|q: int| 0 <= q < closed.len() implies (
                #[trigger] closed[q]).target is None && (closed[q].kernel ==> from_grammar(
                    grammar,
                    closed[q],
                )) by {
                    if q < before[next as int].len() {
                        assert(closed[q] == closed.subrange(0, before[next as int].len() as int)[q]);
                        assert(from_grammar(grammar, before[next as int][q]));
                    }
                }
                lemma_closure_from_grammar(grammar, closed);
                let given = before[next as int];
                lemma_kernel_keys_prefix(closed, given, given.len() as int);
                lemma_kernel_keys_tail(closed, given.len() as int, closed.len() as int);
                lemma_chart_close(before, origin, next as int, closed);
            }
            let met = self.get_advanced_sets(&mut full, Ghost(next as int), Ghost(origin));
            proof {
                let states = self@.states;
                origin = met@;
                lemma_chart_skip(
                    states.update(next as int, full@),
                    origin,
                    next as int,
                    full@.len() as int,
                );
                lemma_same_shape_kernel_keys(closed, full@, closed.len() as int);
                assert(states[0] == before[0]);
                lemma_same_shape_closure(grammar, closed, full@);
                lemma_same_shape_kernel(closed, full@);
                assert(all_from_grammar(grammar, full@)) by {
                    assert forall|q: int| 0 <= q < full@.len() implies from_grammar(
                        grammar,
                        #[trigger] full@[q],
                    ) by {
                        assert(closed[q].key() == full@[q].key());
                        lemma_same_key_from_grammar(grammar, closed[q], full@[q]);
                    }
                }
                assert(states[next as int] == before[next as int]);
                lemma_building_finish(grammar, states, next as int, full@);
                assert(states_of(self.sets@.update(next as int, full)) =~= states.update(
                    next as int,
                    full@,
                ));
                lemma_building_bounded(grammar, states.update(next as int, full@), next + 1);
            }
            self.sets[next] = full;
            next += 1;
        }
        self.populate_reductions();
        proof {
            assert(self@.numbers =~= Seq::new(self@.states.len(), |i: int| i as nat));
            lemma_building_done(self@, origin);
        }
        Ok(())
    }

    /// The table of a grammar whose first rule is its start rule, or the
    /// reason why the grammar has none: `NoRulesSpecified` where it has no
    /// rule, `InvalidTableRule` where a rule has nothing on its right-hand
    /// side.
    pub fn new(rules: Vec<TableRule>) -> (r: Result<Self, ParseTableError>)
        ensures
            match r {
                Ok(table) => valid_grammar(items_of(rules@)) && table@.rules == augmented(
                    items_of(rules@),
                ) && is_automaton(table@),
                Err(e) => if rules@.len() == 0 {
                    e == ParseTableError::NoRulesSpecified
                } else {
                    e == ParseTableError::InvalidTableRule && !valid_grammar(items_of(rules@))
                },
            },
    {
        let mut parse_table = ParseTable {
            rules: rules,
            sets: Vec::new(),
            possible_reductions: HashMap::new(),
        };
        match parse_table.construct() {
            Ok(()) => Ok(parse_table),
            Err(e) => Err(e),
        }
    }

    /// The action for state `set_index` and `symbol`: the shift over
    /// `symbol` where an item of the state expects it; else the state's
    /// reduction, by the rule declared first in the grammar among those
    /// that the state could reduce by; else `InvalidSymbolForSet`. A state
    /// that the table has not gives `InvalidSetIndex`.
    pub fn get_action(&self, set_index: usize, symbol: &str) -> (r: Action<'_>)
        ensures
            r@ == action_of(self@, set_index as int, symbol@),
    {
        let wanted = symbol.to_owned();
        self.action_for(set_index, &wanted)
    }

    /// The state of number `set_index`, if the table has it.
    pub fn set(&self, set_index: usize) -> (r: Option<&ItemSet>)
        ensures
            match r {
                Some(set) => set_index < self@.states.len() && set@ == self@.states[set_index as int]
                    && set.number() == self@.numbers[set_index as int],
                None => set_index >= self@.states.len(),
            },
    {
        if set_index < self.sets.len() {
            Some(&self.sets[set_index])
        } else {
            None
        }
    }

    /// The number of states of the table.
    pub fn state_count(&self) -> (r: usize)
        ensures
            r == self@.states.len(),
    {
        self.sets.len()
    }

    /// `get_action` for a symbol that is already owned.
    pub(crate) fn action_for(&self, set_index: usize, symbol: &String) -> (r: Action<'_>)
        ensures
            r@ == action_of(self@, set_index as int, symbol@),
    {
        broadcast use vstd::std_specs::hash::group_hash_axioms;

        if set_index < self.sets.len() {
            let set = &self.sets[set_index];
            let ghost items = self@.states[set_index as int];
            let mut q: usize = 0;
            while q < set.rules.len()
                invariant
                    q <= set.rules@.len(),
                    set_index < self.sets@.len(),
                    items == self@.states[set_index as int],
                    items == items_of(set.rules@),
                    forall|k: int|
                        0 <= k < q ==> !((#[trigger] items[k]).expects(symbol@)
                            && items[k].target is Some),
                decreases set.rules@.len() - q,
            {
                let rule = &set.rules[q];
                assert(items[q as int] == rule@);
                if rule.expects_symbol(symbol) {
                    match rule.next_set_index {
                        Some(target) => {
                            proof {
                                lemma_first_shift(items, symbol@, q as int);
                            }
                            return Action::Shift(target);
                        },
                        None => {},
                    }
                }
                q += 1;
            }
            assert(shift_of(items, symbol@) is None);
            match self.possible_reductions.get(&set_index) {
                Some(rule) => Action::Reduce(rule),
                None => Action::Error(ParseTableError::InvalidSymbolForSet),
            }
        } else {
            Action::Error(ParseTableError::InvalidSetIndex)
        }
    }
}

} // verus!
