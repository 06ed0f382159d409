//! The lines of a configuration file: which of them a setting is read
//! from, and how an edit changes them.

use vstd::prelude::*;
use crate::edits::{ConfigEdit, EditView, refindable};
use crate::text::{contains, has_substring, string_views, to_chars};

verus! {

broadcast use vstd::string::group_string_axioms;

/// The lines that hold `p`, in order: those a setting is read from.
pub open spec fn holding(lines: Seq<Seq<char>>, p: Seq<char>) -> Seq<Seq<char>>
    decreases lines.len(),
{
    if lines.len() == 0 {
        seq![]
    } else {
        let prev = holding(lines.drop_last(), p);
        if contains(lines.last(), p) {
            prev.push(lines.last())
        } else {
            prev
        }
    }
}

/// The lines that do not hold `p`, in order.
pub open spec fn without(lines: Seq<Seq<char>>, p: Seq<char>) -> Seq<Seq<char>>
    decreases lines.len(),
{
    if lines.len() == 0 {
        seq![]
    } else {
        let prev = without(lines.drop_last(), p);
        if contains(lines.last(), p) {
            prev
        } else {
            prev.push(lines.last())
        }
    }
}

/// `lines` with every line that holds `p` replaced by `line`.
pub open spec fn updated(lines: Seq<Seq<char>>, p: Seq<char>, line: Seq<char>) -> Seq<Seq<char>> {
    Seq::new(lines.len(), |i: int| if contains(lines[i], p) { line } else { lines[i] })
}

/// The index of the first line that holds `p`, if one does.
pub open spec fn first_holding(lines: Seq<Seq<char>>, p: Seq<char>) -> Option<int>
    decreases lines.len(),
{
    if lines.len() == 0 {
        None
    } else if contains(lines[0], p) {
        Some(0)
    } else {
        match first_holding(lines.drop_first(), p) {
            Some(i) => Some(i + 1),
            None => None,
        }
    }
}

/// `lines` with `line` inserted after the first line that holds `anchor`,
/// or added at the end when none does.
pub open spec fn inserted(lines: Seq<Seq<char>>, anchor: Seq<char>, line: Seq<char>) -> Seq<Seq<char>> {
    match first_holding(lines, anchor) {
        Some(i) => lines.insert(i + 1, line),
        None => lines.push(line),
    }
}

/// The lines of a file after the edit `e` of that file.
pub open spec fn edited(lines: Seq<Seq<char>>, e: EditView) -> Seq<Seq<char>> {
    match e {
        EditView::Write(_, anchor, line) => inserted(lines, anchor, line),
        EditView::Update(_, p, line) => updated(lines, p, line),
        EditView::Remove(_, p) => without(lines, p),
    }
}

/// What `first_holding` finds: the first line that holds `p`.
pub proof fn lemma_first_holding(lines: Seq<Seq<char>>, p: Seq<char>)
    ensures
        match first_holding(lines, p) {
            Some(i) => 0 <= i < lines.len() && contains(lines[i], p) && forall|k: int|
                0 <= k < i ==> !contains(#[trigger] lines[k], p),
            None => forall|k: int| 0 <= k < lines.len() ==> !contains(#[trigger] lines[k], p),
        },
    decreases lines.len(),
{
    if lines.len() > 0 && !contains(lines[0], p) {
        let rest = lines.drop_first();
        lemma_first_holding(rest, p);
        match first_holding(rest, p) {
            Some(i) => {
                assert forall|k: int| 0 <= k < i + 1 implies !contains(#[trigger] lines[k], p) by {
                    if k > 0 {
                        assert(lines[k] == rest[k - 1]);
                    }
                }
            },
            None => {
                assert forall|k: int| 0 <= k < lines.len() implies !contains(#[trigger] lines[k], p) by {
                    if k > 0 {
                        assert(lines[k] == rest[k - 1]);
                    }
                }
            },
        }
    }
}

fn holds(line: &String, p: &str) -> (b: bool)
    ensures
        b == contains(line@, p@),
{
    has_substring(&to_chars(line.as_str()), p)
}

/// The lines that hold `pattern`, in order.
pub fn read_matching(lines: &Vec<String>, pattern: &str) -> (r: Vec<String>)
    ensures
        string_views(r@) == holding(string_views(lines@), pattern@),
{
    let ghost all = string_views(lines@);
    let mut r: Vec<String> = Vec::new();
    let mut i: usize = 0;
    proof { assert(all.take(0) =~= Seq::<Seq<char>>::empty()); }
    while i < lines.len()
        invariant
            i <= lines.len(),
            all == string_views(lines@),
            string_views(r@) == holding(all.take(i as int), pattern@),
        decreases lines.len() - i,
    {
        proof {
            assert(all.take(i + 1).drop_last() =~= all.take(i as int));
            assert(all.take(i + 1).last() == lines@[i as int]@);
        }
        if holds(&lines[i], pattern) {
            let ghost before = string_views(r@);
            let l = lines[i].clone();
            r.push(l);
            proof { assert(string_views(r@) =~= before.push(lines@[i as int]@)); }
        }
        i += 1;
    }
    proof { assert(all.take(lines.len() as int) =~= all); }
    r
}

/// The lines without those that hold `pattern`, in order.
pub fn remove_lines(lines: &Vec<String>, pattern: &str) -> (r: Vec<String>)
    ensures
        string_views(r@) == without(string_views(lines@), pattern@),
{
    let ghost all = string_views(lines@);
    let mut r: Vec<String> = Vec::new();
    let mut i: usize = 0;
    proof { assert(all.take(0) =~= Seq::<Seq<char>>::empty()); }
    while i < lines.len()
        invariant
            i <= lines.len(),
            all == string_views(lines@),
            string_views(r@) == without(all.take(i as int), pattern@),
        decreases lines.len() - i,
    {
        proof {
            assert(all.take(i + 1).drop_last() =~= all.take(i as int));
            assert(all.take(i + 1).last() == lines@[i as int]@);
        }
        if !holds(&lines[i], pattern) {
            let ghost before = string_views(r@);
            let l = lines[i].clone();
            r.push(l);
            proof { assert(string_views(r@) =~= before.push(lines@[i as int]@)); }
        }
        i += 1;
    }
    proof { assert(all.take(lines.len() as int) =~= all); }
    r
}

/// The lines with every line that holds `pattern` replaced by `line`.
pub fn update_lines(lines: &Vec<String>, pattern: &str, line: &str) -> (r: Vec<String>)
    ensures
        string_views(r@) == updated(string_views(lines@), pattern@, line@),
{
    let ghost want = updated(string_views(lines@), pattern@, line@);
    let mut r: Vec<String> = Vec::new();
    let mut i: usize = 0;
    while i < lines.len()
        invariant
            i <= lines.len(),
            r@.len() == i,
            want == updated(string_views(lines@), pattern@, line@),
            forall|k: int| 0 <= k < i ==> #[trigger] r@[k]@ == want[k],
        decreases lines.len() - i,
    {
        let l = if holds(&lines[i], pattern) {
            line.to_owned()
        } else {
            lines[i].clone()
        };
        let ghost before = r@;
        r.push(l);
        proof {
            assert forall|k: int| 0 <= k < i + 1 implies #[trigger] r@[k]@ == want[k] by {
                if k < i {
                    assert(r@[k] == before[k]);
                }
            }
        }
        i += 1;
    }
    proof { assert(string_views(r@) =~= want); }
    r
}

/// The index of the first line that holds `anchor`.
fn first_index(lines: &Vec<String>, anchor: &str) -> (r: Option<usize>)
    ensures
        match r {
            Some(i) => first_holding(string_views(lines@), anchor@) == Some(i as int),
            None => first_holding(string_views(lines@), anchor@) is None,
        },
{
    let ghost all = string_views(lines@);
    let mut i: usize = 0;
    while i < lines.len()
        invariant
            i <= lines.len(),
            all == string_views(lines@),
            forall|k: int| 0 <= k < i ==> !contains(#[trigger] all[k], anchor@),
        decreases lines.len() - i,
    {
        if holds(&lines[i], anchor) {
            proof {
                assert(all[i as int] == lines@[i as int]@);
                lemma_first_holding(all, anchor@);
                match first_holding(all, anchor@) {
                    Some(j) => {
                        if j < i {
                            assert(!contains(all[j], anchor@));
                        } else if j > i {
                            assert(!contains(all[i as int], anchor@));
                        }
                    },
                    None => {
                        assert(!contains(all[i as int], anchor@));
                    },
                }
            }
            return Some(i);
        }
        proof { assert(all[i as int] == lines@[i as int]@); }
        i += 1;
    }
    proof {
        lemma_first_holding(all, anchor@);
        match first_holding(all, anchor@) {
            Some(j) => {
                assert(!contains(all[j], anchor@));
            },
            None => {},
        }
    }
    None
}

/// The lines with `line` inserted after the first line that holds
/// `anchor`, or added at the end when none does.
pub fn insert_line(lines: &Vec<String>, anchor: &str, line: &str) -> (r: Vec<String>)
    ensures
        string_views(r@) == inserted(string_views(lines@), anchor@, line@),
{
    let mut r: Vec<String> = Vec::new();
    let mut i: usize = 0;
    while i < lines.len()
        invariant
            i <= lines.len(),
            string_views(r@) == string_views(lines@).take(i as int),
        decreases lines.len() - i,
    {
        let ghost before = string_views(r@);
        let l = lines[i].clone();
        r.push(l);
        proof {
            assert(string_views(r@) =~= before.push(lines@[i as int]@));
            assert(string_views(lines@).take(i + 1) =~= string_views(lines@).take(i as int).push(
                lines@[i as int]@,
            ));
        }
        i += 1;
    }
    proof { assert(string_views(lines@).take(lines.len() as int) =~= string_views(lines@)); }
    let ghost copied = string_views(r@);
    proof { lemma_first_holding(string_views(lines@), anchor@); }
    match first_index(lines, anchor) {
        Some(k) => {
            r.insert(k + 1, line.to_owned());
            proof { assert(string_views(r@) =~= copied.insert(k + 1, line@)); }
        },
        None => {
            r.push(line.to_owned());
            proof { assert(string_views(r@) =~= copied.push(line@)); }
        },
    }
    r
}

/// The lines of a file after `edit`, one of that file's edits.
pub fn apply_edit(lines: &Vec<String>, edit: &ConfigEdit) -> (r: Vec<String>)
    ensures
        string_views(r@) == edited(string_views(lines@), edit@),
{
    match edit {
        ConfigEdit::Write { anchor, line, .. } => insert_line(lines, anchor.as_str(), line.as_str()),
        ConfigEdit::Update { pattern, line, .. } => update_lines(lines, pattern.as_str(), line.as_str()),
        ConfigEdit::Remove { pattern, .. } => remove_lines(lines, pattern.as_str()),
    }
}

/// After an update whose line holds its pattern, the setting reads back
/// as that line: every line found by the pattern is the new line, and there
/// are as many as before.
pub proof fn law_update_reads_back(lines: Seq<Seq<char>>, e: EditView)
    requires
        e is Update,
        refindable(e),
    ensures
        e matches EditView::Update(_, p, line) && holding(edited(lines, e), p) == Seq::new(
            holding(lines, p).len(),
            |i: int| line,
        ),
    decreases lines.len(),
{
    if let EditView::Update(_, p, line) = e {
        if lines.len() == 0 {
            assert(updated(lines, p, line) =~= Seq::<Seq<char>>::empty());
            assert(Seq::new(0, |i: int| line) =~= Seq::<Seq<char>>::empty());
        } else {
            let prev = lines.drop_last();
            law_update_reads_back(prev, e);
            let u = updated(lines, p, line);
            assert(u.drop_last() =~= updated(prev, p, line));
            if contains(lines.last(), p) {
                assert(u.last() == line);
                assert(Seq::new(holding(lines, p).len(), |i: int| line) =~= Seq::new(
                    holding(prev, p).len(),
                    |i: int| line,
                ).push(line));
            } else {
                assert(u.last() == lines.last());
            }
        }
    }
}

/// After a removal no line holds the pattern, and every other line stays.
pub proof fn law_remove_reads_nothing(lines: Seq<Seq<char>>, p: Seq<char>)
    ensures
        holding(without(lines, p), p) == Seq::<Seq<char>>::empty(),
        without(lines, p).len() + holding(lines, p).len() == lines.len(),
    decreases lines.len(),
{
    if lines.len() > 0 {
        law_remove_reads_nothing(lines.drop_last(), p);
        let w = without(lines, p);
        if !contains(lines.last(), p) {
            assert(w.drop_last() =~= without(lines.drop_last(), p));
        }
    } else {
        assert(without(lines, p) =~= Seq::<Seq<char>>::empty());
    }
}

/// A written line is in the file afterwards, one line more than before.
pub proof fn law_write_adds_line(lines: Seq<Seq<char>>, anchor: Seq<char>, line: Seq<char>)
    ensures
        inserted(lines, anchor, line).len() == lines.len() + 1,
        inserted(lines, anchor, line).contains(line),
{
    lemma_first_holding(lines, anchor);
    match first_holding(lines, anchor) {
        Some(i) => {
            assert(inserted(lines, anchor, line)[i + 1] == line);
        },
        None => {
            assert(inserted(lines, anchor, line)[lines.len() as int] == line);
        },
    }
}

} // verus!
