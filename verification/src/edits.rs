//! Edits of the configuration files, as the panel asks for them.

use vstd::prelude::*;
use crate::text::{contains, opt_view};

verus! {

/// One edit of a configuration file. `file` is the path of the file below
/// the configuration directory, `None` for the panel's own file.
#[derive(Debug, Clone, PartialEq, Eq)]
pub enum ConfigEdit {
    /// Insert `line` after the line that holds `anchor`.
    Write { file: Option<String>, anchor: String, line: String },
    /// Replace the line that holds `pattern` by `line`.
    Update { file: Option<String>, pattern: String, line: String },
    /// Delete the line that holds `pattern`.
    Remove { file: Option<String>, pattern: String },
}

/// An edit as character sequences.
pub enum EditView {
    Write(Option<Seq<char>>, Seq<char>, Seq<char>),
    Update(Option<Seq<char>>, Seq<char>, Seq<char>),
    Remove(Option<Seq<char>>, Seq<char>),
}

impl View for ConfigEdit {
    type V = EditView;

    open spec fn view(&self) -> EditView {
        match self {
            ConfigEdit::Write { file, anchor, line } => EditView::Write(opt_view(*file), anchor@, line@),
            ConfigEdit::Update { file, pattern, line } => EditView::Update(opt_view(*file), pattern@, line@),
            ConfigEdit::Remove { file, pattern } => EditView::Remove(opt_view(*file), pattern@),
        }
    }
}

/// The views of a sequence of edits.
pub open spec fn edit_views(v: Seq<ConfigEdit>) -> Seq<EditView> {
    v.map_values(|e: ConfigEdit| e@)
}

/// An update whose line holds the pattern it looks for: once made, the
/// same setting can be updated again, since its new line is found.
pub open spec fn refindable(e: EditView) -> bool {
    match e {
        EditView::Update(_, pattern, line) => contains(line, pattern),
        _ => true,
    }
}

} // verus!
