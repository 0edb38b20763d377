//! Finding the line that was picked from a list.

use vstd::prelude::*;

verus! {

/// The characters of every line, in order.
pub open spec fn lines_of(lines: Seq<String>) -> Seq<Seq<char>> {
    lines.map_values(|s: String| s@)
}

/// Position `i` holds the first line that reads `selection`.
pub open spec fn first_match(lines: Seq<Seq<char>>, selection: Seq<char>, i: int) -> bool {
    &&& 0 <= i < lines.len()
    &&& lines[i] == selection
    &&& forall|k: int| 0 <= k < i ==> #[trigger] lines[k] != selection
}

/// The position of the first line that reads `selection`, if one does.
pub fn position_of(lines: &Vec<String>, selection: &str) -> (r: Option<usize>)
    ensures
        match r {
            Some(i) => first_match(lines_of(lines@), selection@, i as int),
            None => !lines_of(lines@).contains(selection@),
        },
{
    let wanted = selection.to_owned();
    let mut i: usize = 0;
    while i < lines.len()
        invariant
            i <= lines@.len(),
            wanted@ == selection@,
            forall|k: int| 0 <= k < i ==> #[trigger] lines_of(lines@)[k] != selection@,
        decreases lines@.len() - i,
    {
        if lines[i] == wanted {
            return Some(i);
        }
        i += 1;
    }
    None
}

} // verus!
