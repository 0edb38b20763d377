//! A table written out as text, state by state, for reading.

use crate::automaton::{Item, TableView};
use crate::parse_table::{items_of, ItemSet, ParseTable, TableRule};
use crate::text::texts;
use vstd::prelude::*;
use vstd::string::StringExecFns;

verus! {

/// The digit `d` as text.
pub open spec fn digit_text(d: nat) -> Seq<char> {
    if d == 0 {
        "0"@
    } else if d == 1 {
        "1"@
    } else if d == 2 {
        "2"@
    } else if d == 3 {
        "3"@
    } else if d == 4 {
        "4"@
    } else if d == 5 {
        "5"@
    } else if d == 6 {
        "6"@
    } else if d == 7 {
        "7"@
    } else if d == 8 {
        "8"@
    } else {
        "9"@
    }
}

/// The number `n` in decimal digits.
pub open spec fn decimal(n: nat) -> Seq<char>
    decreases n,
{
    if n < 10 {
        digit_text(n)
    } else {
        decimal(n / 10) + digit_text(n % 10)
    }
}

/// The number that is written where an item has no target.
pub open spec fn no_target() -> nat {
    99999
}

/// The first `n` symbols of the right-hand side, a space before each, and
/// `*` before the one that follows the dot.
pub open spec fn right_text(item: Item, n: int) -> Seq<char>
    decreases n,
{
    if n <= 0 {
        Seq::empty()
    } else {
        right_text(item, n - 1) + (if item.dot == n - 1 {
            "*"@
        } else {
            Seq::empty()
        }) + " "@ + item.right[n - 1]
    }
}

/// The line of an item: `  LEFT -> ` and the right-hand side with `*` at
/// the dot, then the target as `(S7)`, or `(S99999)` without one, and
/// whether it is a kernel item.
pub open spec fn item_text(item: Item) -> Seq<char> {
    "  "@ + item.left + " -> "@ + right_text(item, item.right.len() as int) + (if item.dot
        < item.right.len() {
        Seq::empty()
    } else {
        "*"@
    }) + "  (S"@ + decimal(
        match item.target {
            Some(t) => t,
            None => no_target(),
        },
    ) + ")"@ + "  (Kernel: "@ + (if item.kernel {
        "true"@
    } else {
        "false"@
    }) + ")"@ + "\n"@
}

/// The lines of the first `n` items.
pub open spec fn items_text(items: Seq<Item>, n: int) -> Seq<char>
    decreases n,
{
    if n <= 0 {
        Seq::empty()
    } else {
        items_text(items, n - 1) + item_text(items[n - 1])
    }
}

/// The text of a state: an empty line, `Set N:`, and the lines of its
/// items.
pub open spec fn state_text(number: nat, items: Seq<Item>) -> Seq<char> {
    "\n"@ + "Set "@ + decimal(number) + ":"@ + "\n"@ + items_text(items, items.len() as int)
}

/// The text of the first `n` states.
pub open spec fn states_text(t: TableView, n: int) -> Seq<char>
    decreases n,
{
    if n <= 0 {
        Seq::empty()
    } else {
        states_text(t, n - 1) + state_text(t.numbers[n - 1], t.states[n - 1])
    }
}

/// The digit `d` as text.
fn digit_str(d: usize) -> (r: &'static str)
    requires
        d < 10,
    ensures
        r@ == digit_text(d as nat),
{
    if d == 0 {
        "0"
    } else if d == 1 {
        "1"
    } else if d == 2 {
        "2"
    } else if d == 3 {
        "3"
    } else if d == 4 {
        "4"
    } else if d == 5 {
        "5"
    } else if d == 6 {
        "6"
    } else if d == 7 {
        "7"
    } else if d == 8 {
        "8"
    } else {
        "9"
    }
}

/// The number `n` in decimal digits.
pub fn decimal_text(n: usize) -> (r: String)
    ensures
        r@ == decimal(n as nat),
    decreases n,
{
    if n < 10 {
        digit_str(n).to_owned()
    } else {
        let mut text = decimal_text(n / 10);
        text.append(digit_str(n % 10));
        text
    }
}

/// The line of an item.
fn rule_text(rule: &TableRule) -> (r: String)
    ensures
        r@ == item_text(rule@),
{
    let mut line = "  ".to_owned();
    line.append(rule.left().as_str());
    line.append(" -> ");
    let right = rule.right();
    let dot = rule.next_symbol_index();
    let ghost head = line@;
    let mut i: usize = 0;
    assert(line@ =~= head + right_text(rule@, 0));
    while i < right.len()
        invariant
            i <= right@.len(),
            texts(right@) == rule@.right,
            dot == rule@.dot,
            line@ == head + right_text(rule@, i as int),
        decreases right@.len() - i,
    {
        let ghost before = line@;
        if dot == i {
            line.append("*");
        }
        line.append(" ");
        line.append(right[i].as_str());
        assert(texts(right@)[i as int] == right@[i as int]@);
        assert(line@ =~= head + right_text(rule@, i + 1));
        i += 1;
    }
    if dot >= right.len() {
        line.append("*");
    }
    line.append("  (S");
    let target = match rule.next_set_index() {
        Some(t) => t,
        None => 99999,
    };
    line.append(decimal_text(target).as_str());
    line.append(")");
    line.append("  (Kernel: ");
    if rule.is_kernel_rule() {
        line.append("true");
    } else {
        line.append("false");
    }
    line.append(")");
    line.append("\n");
    assert(line@ =~= item_text(rule@));
    line
}

/// The text of a state.
fn set_text(set: &ItemSet) -> (r: String)
    ensures
        r@ == state_text(set.number(), set@),
{
    let mut text = "\n".to_owned();
    text.append("Set ");
    text.append(decimal_text(set.index()).as_str());
    text.append(":");
    text.append("\n");
    let rules = set.rules();
    let ghost head = text@;
    let mut i: usize = 0;
    assert(text@ =~= head + items_text(set@, 0));
    while i < rules.len()
        invariant
            i <= rules@.len(),
            items_of(rules@) == set@,
            text@ == head + items_text(set@, i as int),
        decreases rules@.len() - i,
    {
        assert(set@[i as int] == rules@[i as int]@);
        text.append(rule_text(&rules[i]).as_str());
        assert(text@ =~= head + items_text(set@, i + 1));
        i += 1;
    }
    assert(text@ =~= state_text(set.number(), set@));
    text
}

/// The table as text: for each state an empty line, `Set N:` and a line
/// for each item, with `*` at the dot, the target and the kernel mark.
pub fn table_text(table: &ParseTable) -> (r: String)
    ensures
        r@ == states_text(table@, table@.states.len() as int),
{
    let mut text = String::new();
    let mut i: usize = 0;
    assert(text@ =~= states_text(table@, 0));
    while i < table.state_count()
        invariant
            i <= table@.states.len(),
            text@ == states_text(table@, i as int),
        decreases table@.states.len() - i,
    {
        match table.set(i) {
            Some(set) => {
                text.append(set_text(set).as_str());
            },
            None => {},
        }
        i += 1;
    }
    text
}

} // verus!
