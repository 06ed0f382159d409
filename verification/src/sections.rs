//! The fold-out sections of a settings tab: at most one is open at a time.

use vstd::prelude::*;

verus! {

/// The sections after the one at `i` is clicked: it flips, every other closes.
pub open spec fn toggled(open: Seq<bool>, i: int) -> Seq<bool> {
    Seq::new(open.len(), |j: int| j == i && !open[i])
}

/// No two sections are open.
pub open spec fn at_most_one_open(open: Seq<bool>) -> bool {
    forall|j: int, k: int| 0 <= j < open.len() && 0 <= k < open.len() && open[j] && open[k] ==> j == k
}

/// Clicks the header of section `i`.
pub fn toggle_section(open: [bool; 4], i: usize) -> (r: [bool; 4])
    requires
        i < 4,
    ensures
        r@ == toggled(open@, i as int),
{
    let state = !open[i];
    let mut r = [false, false, false, false];
    r[i] = state;
    proof { assert(r@ =~= toggled(open@, i as int)); }
    r
}

/// Whatever was open before, after a click at most one section is open.
pub proof fn law_toggle_leaves_at_most_one_open(open: Seq<bool>, i: int)
    requires
        0 <= i < open.len(),
    ensures
        at_most_one_open(toggled(open, i)),
{
}

/// Clicking the same header twice leaves that section as it was and every
/// other one closed.
pub proof fn law_toggle_twice(open: Seq<bool>, i: int)
    requires
        0 <= i < open.len(),
    ensures
        toggled(toggled(open, i), i) == Seq::new(open.len(), |j: int| j == i && open[i]),
{
    assert(toggled(toggled(open, i), i) =~= Seq::new(open.len(), |j: int| j == i && open[i]));
}

} // verus!
