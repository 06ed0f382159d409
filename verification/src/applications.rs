//! The applications settings: keybinds, programs started with the session
//! and the default application of each kind of file.

use vstd::prelude::*;
use crate::edits::{ConfigEdit, EditView, edit_views, refindable};
use crate::region::{
    compositor_file, law_setting_reads_back, quoted, quoted_setting, quoted_setting_spec, quoted_value,
};
use crate::text::is_space;
use crate::text::{
    before, contains, from_chars, has_prefix, has_substring, lit, piece, push_all, push_str,
    split, starts_with, string_views, to_chars, words, words_of, words_scan, lemma_contains_middle,
    lemma_split_at_sep, lemma_split_no_sep, lemma_split_first_no_sep, lemma_split_before, lemma_words_scan_blank, lemma_words_scan_prefix,
    lemma_words_scan_space, lemma_words_scan_word,
};

verus! {

broadcast use vstd::string::group_string_axioms;

/// The row of the defaults table that a MIME type key belongs to, by the
/// prefix it starts with.
pub open spec fn default_slot(key: Seq<char>) -> Option<int> {
    if starts_with(key, "x-scheme-handler/https"@) {
        Some(0)
    } else if starts_with(key, "inode/directory"@) {
        Some(1)
    } else if starts_with(key, "x-scheme-handler/mailto"@) {
        Some(2)
    } else if starts_with(key, "video/mp4"@) {
        Some(3)
    } else if starts_with(key, "audio/mp3"@) {
        Some(4)
    } else if starts_with(key, "text/plain"@) {
        Some(5)
    } else if starts_with(key, "image/png"@) {
        Some(6)
    } else if starts_with(key, "application/pdf"@) {
        Some(7)
    } else {
        None
    }
}

/// The row of the defaults table for a key.
pub fn default_slot_of(key: &Vec<char>) -> (r: Option<usize>)
    ensures
        match r {
            Some(k) => default_slot(key@) == Some(k as int),
            None => default_slot(key@) is None,
        },
{
    if has_prefix(key, "x-scheme-handler/https") {
        Some(0)
    } else if has_prefix(key, "inode/directory") {
        Some(1)
    } else if has_prefix(key, "x-scheme-handler/mailto") {
        Some(2)
    } else if has_prefix(key, "video/mp4") {
        Some(3)
    } else if has_prefix(key, "audio/mp3") {
        Some(4)
    } else if has_prefix(key, "text/plain") {
        Some(5)
    } else if has_prefix(key, "image/png") {
        Some(6)
    } else if has_prefix(key, "application/pdf") {
        Some(7)
    } else {
        None
    }
}

/// The key of a `key=value` line: the text before the first `=`.
pub open spec fn mime_key(line: Seq<char>) -> Seq<char> {
    split(line, "="@)[0]
}

/// The value of a `key=value` line: the text between the first and the
/// second `=`, empty when there is no `=`.
pub open spec fn mime_value(line: Seq<char>) -> Seq<char> {
    let ps = split(line, "="@);
    if ps.len() > 1 {
        ps[1]
    } else {
        Seq::<char>::empty()
    }
}

/// How a value is shown: the text before its first `.desktop`.
pub open spec fn shown_value(value: Seq<char>) -> Seq<char> {
    split(value, ".desktop"@)[0]
}

/// The table of default applications after reading the lines of the MIME
/// list in order: eight rows of a value and the way it is shown, a later
/// line overwriting the row of an earlier one.
pub open spec fn defaults_table(lines: Seq<Seq<char>>) -> Seq<(Seq<char>, Seq<char>)>
    decreases lines.len(),
{
    if lines.len() == 0 {
        Seq::new(8, |i: int| (Seq::<char>::empty(), Seq::<char>::empty()))
    } else {
        let prev = defaults_table(lines.drop_last());
        let line = lines.last();
        match default_slot(mime_key(line)) {
            Some(k) => prev.update(k, (mime_value(line), shown_value(mime_value(line)))),
            None => prev,
        }
    }
}

proof fn lemma_defaults_table_len(lines: Seq<Seq<char>>)
    ensures
        defaults_table(lines).len() == 8,
    decreases lines.len(),
{
    if lines.len() > 0 {
        lemma_defaults_table_len(lines.drop_last());
    }
}

/// The views of the rows of a defaults table.
pub open spec fn row_views(rows: Seq<(String, String)>) -> Seq<(Seq<char>, Seq<char>)> {
    rows.map_values(|r: (String, String)| (r.0@, r.1@))
}

/// The table of default applications that the lines of the MIME list give.
pub fn default_apps(lines: &Vec<String>) -> (r: Vec<(String, String)>)
    ensures
        row_views(r@) == defaults_table(string_views(lines@)),
        r@.len() == 8,
{
    let mut rows: Vec<(String, String)> = Vec::new();
    let mut k: usize = 0;
    while k < 8
        invariant
            k <= 8,
            rows@.len() == k,
            forall|j: int| 0 <= j < k ==> #[trigger] rows@[j].0@ == Seq::<char>::empty()
                && rows@[j].1@ == Seq::<char>::empty(),
        decreases 8 - k,
    {
        let a = String::new();
        let b = String::new();
        let ghost before = rows@;
        rows.push((a, b));
        proof {
            assert forall|j: int| 0 <= j < k + 1 implies #[trigger] rows@[j].0@ == Seq::<char>::empty()
                && rows@[j].1@ == Seq::<char>::empty() by {
                if j < k {
                    assert(rows@[j] == before[j]);
                }
            }
        }
        k += 1;
    }
    proof {
        assert(string_views(lines@).take(0) =~= Seq::<Seq<char>>::empty());
        assert(row_views(rows@) =~= defaults_table(Seq::<Seq<char>>::empty()));
    }
    let mut i: usize = 0;
    while i < lines.len()
        invariant
            i <= lines.len(),
            row_views(rows@) == defaults_table(string_views(lines@).take(i as int)),
            rows@.len() == 8,
        decreases lines.len() - i,
    {
        let ghost taken = string_views(lines@).take(i + 1);
        proof {
            assert(taken.drop_last() =~= string_views(lines@).take(i as int));
            assert(taken.last() == lines@[i as int]@);
            lemma_defaults_table_len(taken.drop_last());
        }
        let line = to_chars(lines[i].as_str());
        let key = before(&line, "=");
        let value = match piece(&line, "=", 1) {
            Some(v) => v,
            None => Vec::new(),
        };
        let shown = before(&value, ".desktop");
        proof {
            assert(key@ == mime_key(line@));
            assert(value@ =~= mime_value(line@));
        }
        match default_slot_of(&key) {
            Some(k) => {
                let ghost before_rows = rows@;
                rows.set(k, (from_chars(&value), from_chars(&shown)));
                proof {
                    assert(row_views(rows@) =~= row_views(before_rows).update(
                        k as int,
                        (mime_value(line@), shown_value(mime_value(line@))),
                    ));
                }
            },
            None => {},
        }
        i += 1;
    }
    proof { assert(string_views(lines@).take(lines.len() as int) =~= string_views(lines@)); }
    rows
}

/// The shortcut and the command shown for a keybind line: its first word,
/// and the text between its first `{` and the next `}`.
pub open spec fn keybind_row_spec(line: Seq<char>) -> (Seq<char>, Seq<char>) {
    let first = if words(line).len() > 0 { words(line)[0] } else { Seq::<char>::empty() };
    let ps = split(line, "{"@);
    let inside = if ps.len() > 1 { split(ps[1], "}"@)[0] } else { Seq::<char>::empty() };
    (first, inside)
}

/// The shortcut and the command of a keybind line.
pub fn keybind_row(line: &str) -> (r: (String, String))
    ensures
        (r.0@, r.1@) == keybind_row_spec(line@),
{
    let s = to_chars(line);
    let ws = words_of(&s);
    let first = if ws.len() > 0 { from_chars(&ws[0]) } else { String::new() };
    let inside = match piece(&s, "{", 1) {
        Some(p) => from_chars(&before(&p, "}")),
        None => String::new(),
    };
    (first, inside)
}

/// The keybind line for a shortcut and the command it runs.
pub open spec fn keybind_line(shortcut: Seq<char>, command: Seq<char>) -> Seq<char> {
    "    "@ + shortcut + " { "@ + command + " } // keybind"@
}

/// The edit that adds a keybind to the `binds` block, or nothing when the
/// shortcut or the command is empty.
pub fn keybind_edit(shortcut: &str, command: &str) -> (r: Option<ConfigEdit>)
    ensures
        match r {
            Some(e) => shortcut@.len() > 0 && command@.len() > 0 && e@ == EditView::Write(
                Some("niri/config.kdl"@),
                "binds"@,
                keybind_line(shortcut@, command@),
            ),
            None => shortcut@.len() == 0 || command@.len() == 0,
        },
{
    if shortcut.is_empty() || command.is_empty() {
        return None;
    }
    let mut v = to_chars("    ");
    push_str(&mut v, shortcut);
    push_str(&mut v, " { ");
    push_str(&mut v, command);
    push_str(&mut v, " } // keybind");
    Some(ConfigEdit::Write { file: Some(compositor_file()), anchor: "binds".to_owned(), line: from_chars(&v) })
}

/// The edit that deletes the keybind whose shortcut is `shortcut`.
pub fn keybind_removal(shortcut: &str) -> (e: ConfigEdit)
    ensures
        e@ == EditView::Remove(Some("niri/config.kdl"@), shortcut@ + " {"@),
{
    let mut v = to_chars(shortcut);
    push_str(&mut v, " {");
    ConfigEdit::Remove { file: Some(compositor_file()), pattern: from_chars(&v) }
}

/// The question asked before deleting a keybind.
pub fn keybind_prompt(shortcut: &str) -> (r: String)
    ensures
        r@ == "Delete keybind: "@ + shortcut@ + "?"@,
{
    let mut v = to_chars("Delete keybind: ");
    push_str(&mut v, shortcut);
    push_str(&mut v, "?");
    from_chars(&v)
}

/// The program shown for a startup line: its quoted text, empty when it has
/// none.
pub open spec fn startup_row_spec(line: Seq<char>) -> Seq<char> {
    match quoted(line) {
        Some(p) => split(p, "\""@)[0],
        None => Seq::<char>::empty(),
    }
}

/// The program of a startup line.
pub fn startup_row(line: &str) -> (r: String)
    ensures
        r@ == startup_row_spec(line@),
{
    match quoted_value(line) {
        Some(p) => {
            let pc = to_chars(p.as_str());
            from_chars(&before(&pc, "\""))
        },
        None => String::new(),
    }
}

/// The line that starts `program` with the session.
pub fn startup_line(program: &str) -> (r: String)
    ensures
        r@ == quoted_setting_spec("spawn-at-startup"@, program@),
{
    quoted_setting("spawn-at-startup", program)
}

/// The edit that adds a program to those started with the session, or
/// nothing for an empty one.
pub fn startup_edit(program: &str) -> (r: Option<ConfigEdit>)
    ensures
        match r {
            Some(e) => program@.len() > 0 && e@ == EditView::Write(
                Some("niri/config.kdl"@),
                "// startups"@,
                quoted_setting_spec("spawn-at-startup"@, program@),
            ),
            None => program@.len() == 0,
        },
{
    if program.is_empty() {
        return None;
    }
    Some(ConfigEdit::Write {
        file: Some(compositor_file()),
        anchor: "// startups".to_owned(),
        line: startup_line(program),
    })
}

/// The edit that deletes the startup line of `program`.
pub fn startup_removal(program: &str) -> (e: ConfigEdit)
    ensures
        e@ == EditView::Remove(
            Some("niri/config.kdl"@),
            quoted_setting_spec("spawn-at-startup"@, program@),
        ),
{
    ConfigEdit::Remove { file: Some(compositor_file()), pattern: startup_line(program) }
}

/// The question asked before deleting a startup line.
pub fn startup_prompt(line: &str) -> (r: String)
    ensures
        r@ == "Delete startup: "@ + line@ + "?"@,
{
    let mut v = to_chars("Delete startup: ");
    push_str(&mut v, line);
    push_str(&mut v, "?");
    from_chars(&v)
}

/// The MIME text that a field of the defaults form stands for.
pub open spec fn default_link_spec(field: Seq<char>) -> Option<Seq<char>> {
    if field == "browser"@ {
        Some("x-scheme-handler/http"@)
    } else if field == "manager"@ {
        Some("inode/directory"@)
    } else if field == "mail"@ {
        Some("x-scheme-handler/mailto"@)
    } else if field == "video"@ {
        Some("video/"@)
    } else if field == "audio"@ {
        Some("audio/"@)
    } else if field == "text"@ {
        Some("text/"@)
    } else if field == "image"@ {
        Some("image/"@)
    } else if field == "pdf"@ {
        Some("application/pdf"@)
    } else {
        None
    }
}

/// Whether two strings are equal.
fn same(a: &str, b: &str) -> (r: bool)
    ensures
        r == (a@ == b@),
{
    let x = a.to_owned();
    let y = b.to_owned();
    x == y
}

/// The MIME text of a field of the defaults form.
pub fn default_link(field: &str) -> (r: Option<String>)
    ensures
        opt_view_eq(r, default_link_spec(field@)),
{
    if same(field, "browser") {
        Some("x-scheme-handler/http".to_owned())
    } else if same(field, "manager") {
        Some("inode/directory".to_owned())
    } else if same(field, "mail") {
        Some("x-scheme-handler/mailto".to_owned())
    } else if same(field, "video") {
        Some("video/".to_owned())
    } else if same(field, "audio") {
        Some("audio/".to_owned())
    } else if same(field, "text") {
        Some("text/".to_owned())
    } else if same(field, "image") {
        Some("image/".to_owned())
    } else if same(field, "pdf") {
        Some("application/pdf".to_owned())
    } else {
        None
    }
}

/// `r` is the optional string whose view is `v`.
pub open spec fn opt_view_eq(r: Option<String>, v: Option<Seq<char>>) -> bool {
    crate::text::opt_view(r) == v
}

/// The edit that points the MIME list line `line` at the application `app`.
pub open spec fn default_change(line: Seq<char>, app: Seq<char>) -> EditView {
    let key = mime_key(line) + "="@;
    EditView::Update(Some("mimeapps.list"@), key, key + app + ".desktop;"@)
}

/// The edits that make `app` the default of every line of the MIME list
/// that holds `link`, in the order of the list.
pub open spec fn default_changes_spec(lines: Seq<Seq<char>>, link: Seq<char>, app: Seq<char>) -> Seq<
    EditView,
>
    decreases lines.len(),
{
    if lines.len() == 0 {
        seq![]
    } else {
        let prev = default_changes_spec(lines.drop_last(), link, app);
        if contains(lines.last(), link) {
            prev.push(default_change(lines.last(), app))
        } else {
            prev
        }
    }
}

/// The edits that a filled field of the defaults form asks for, given the
/// lines the MIME list holds: none for an empty value or an unknown field.
pub open spec fn form_field_changes(lines: Seq<Seq<char>>, field: Seq<char>, app: Seq<char>) -> Seq<
    EditView,
> {
    if app.len() == 0 {
        seq![]
    } else {
        match default_link_spec(field) {
            Some(link) => default_changes_spec(lines, link, app),
            None => seq![],
        }
    }
}

/// The edits for one field of the defaults form.
pub fn default_changes(lines: &Vec<String>, field: &str, app: &str) -> (r: Vec<ConfigEdit>)
    ensures
        edit_views(r@) == form_field_changes(string_views(lines@), field@, app@),
{
    let mut r: Vec<ConfigEdit> = Vec::new();
    if app.is_empty() {
        proof { assert(edit_views(r@) =~= Seq::<EditView>::empty()); }
        return r;
    }
    let link = match default_link(field) {
        Some(l) => l,
        None => {
            proof { assert(edit_views(r@) =~= Seq::<EditView>::empty()); }
            return r;
        },
    };
    let lc = to_chars(link.as_str());
    let mut i: usize = 0;
    proof {
        assert(string_views(lines@).take(0) =~= Seq::<Seq<char>>::empty());
        assert(edit_views(r@) =~= Seq::<EditView>::empty());
    }
    while i < lines.len()
        invariant
            i <= lines.len(),
            lc@ == link@,
            default_link_spec(field@) == Some(link@),
            edit_views(r@) == default_changes_spec(string_views(lines@).take(i as int), link@, app@),
        decreases lines.len() - i,
    {
        let ghost taken = string_views(lines@).take(i + 1);
        proof {
            assert(taken.drop_last() =~= string_views(lines@).take(i as int));
            assert(taken.last() == lines@[i as int]@);
        }
        let line = to_chars(lines[i].as_str());
        if crate::text::contains_chars(&line, &lc) {
            let mut key = before(&line, "=");
            push_str(&mut key, "=");
            let mut new_line = key.clone();
            push_str(&mut new_line, app);
            push_str(&mut new_line, ".desktop;");
            let ghost before_r = r@;
            let e = ConfigEdit::Update {
                file: Some("mimeapps.list".to_owned()),
                pattern: from_chars(&key),
                line: from_chars(&new_line),
            };
            proof { assert(e@ == default_change(line@, app@)); }
            r.push(e);
            proof { assert(edit_views(r@) =~= edit_views(before_r).push(default_change(line@, app@))); }
        }
        i += 1;
    }
    proof { assert(string_views(lines@).take(lines.len() as int) =~= string_views(lines@)); }
    r
}

/// A keybind line shows, read back, the shortcut it was written with and
/// the command between the spaces of its braces, when the shortcut is a
/// single word without `{` and the command holds no brace.
pub proof fn law_keybind_reads_back(shortcut: Seq<char>, command: Seq<char>)
    requires
        shortcut.len() > 0,
        forall|k: int| 0 <= k < shortcut.len() ==> !is_space(#[trigger] shortcut[k]) && shortcut[k] != '{',
        forall|k: int| 0 <= k < command.len() ==> #[trigger] command[k] != '{' && command[k] != '}',
    ensures
        keybind_row_spec(keybind_line(shortcut, command)) == (shortcut, " "@ + command + " "@),
{
    reveal_strlit("    ");
    reveal_strlit(" { ");
    reveal_strlit(" } // keybind");
    reveal_strlit(" ");
    reveal_strlit("{");
    reveal_strlit("}");
    let indent = seq![' ', ' ', ' ', ' '];
    let tail = seq![' ', '}', ' ', '/', '/', ' ', 'k', 'e', 'y', 'b', 'i', 'n', 'd'];
    assert("    "@ =~= indent);
    assert(" { "@ =~= seq![' ', '{', ' ']);
    assert(" } // keybind"@ =~= tail);
    assert(" "@ =~= seq![' ']);
    assert("{"@ =~= seq!['{']);
    assert("}"@ =~= seq!['}']);
    let line = keybind_line(shortcut, command);
    // The first word is the shortcut.
    let x = indent + shortcut + seq![' '];
    let rest = seq!['{', ' '] + command + tail;
    assert(line =~= x + rest);
    lemma_words_scan_blank(indent);
    lemma_words_scan_word(indent, shortcut);
    assert(Seq::<char>::empty() + shortcut =~= shortcut);
    lemma_words_scan_space(indent + shortcut, ' ');
    assert((indent + shortcut).push(' ') =~= x);
    assert(words_scan(x).0 =~= seq![shortcut]);
    lemma_words_scan_prefix(x, rest);
    assert(words(line)[0] == shortcut);
    // The text inside the braces is the command with a space on each side.
    let a = indent + shortcut + seq![' '];
    let b = seq![' '] + command + tail;
    assert(line =~= a + seq!['{'] + b);
    assert(!a.contains('{')) by {
        if a.contains('{') {
            let k = choose|k: int| 0 <= k < a.len() && a[k] == '{';
            if 4 <= k < 4 + shortcut.len() {
                assert(shortcut[k - 4] == '{');
            }
        }
    }
    lemma_split_at_sep(a, b, '{');
    assert(!b.contains('{')) by {
        if b.contains('{') {
            let k = choose|k: int| 0 <= k < b.len() && b[k] == '{';
            if 1 <= k < 1 + command.len() {
                assert(command[k - 1] == '{');
            }
        }
    }
    lemma_split_no_sep(b, '{');
    let inner = seq![' '] + command + seq![' '];
    let after = seq![' ', '/', '/', ' ', 'k', 'e', 'y', 'b', 'i', 'n', 'd'];
    assert(b =~= inner + seq!['}'] + after);
    assert(!inner.contains('}')) by {
        if inner.contains('}') {
            let k = choose|k: int| 0 <= k < inner.len() && inner[k] == '}';
            if 1 <= k < 1 + command.len() {
                assert(command[k - 1] == '}');
            }
        }
    }
    lemma_split_at_sep(inner, after, '}');
    assert(" "@ + command + " "@ =~= inner);
}

/// The pattern by which a keybind is deleted occurs in the line that added
/// it, so the deletion finds that line.
pub proof fn law_keybind_removal_finds_line(shortcut: Seq<char>, command: Seq<char>)
    ensures
        contains(keybind_line(shortcut, command), shortcut + " {"@),
{
    reveal_strlit(" { ");
    reveal_strlit(" {");
    reveal_strlit(" ");
    assert(" { "@ =~= " {"@ + " "@);
    let line = keybind_line(shortcut, command);
    assert(line =~= "    "@ + (shortcut + " {"@) + (" "@ + command + " } // keybind"@));
    lemma_contains_middle("    "@, shortcut + " {"@, " "@ + command + " } // keybind"@);
}

/// A startup line shows, read back, the program it was written with, when
/// the program holds no double quote.
pub proof fn law_startup_reads_back(program: Seq<char>)
    requires
        !program.contains('"'),
    ensures
        startup_row_spec(quoted_setting_spec("spawn-at-startup"@, program)) == program,
{
    reveal_strlit("spawn-at-startup");
    reveal_strlit("\"");
    let key = seq!['s', 'p', 'a', 'w', 'n', '-', 'a', 't', '-', 's', 't', 'a', 'r', 't', 'u', 'p'];
    assert("spawn-at-startup"@ =~= key);
    assert("\""@ =~= seq!['"']);
    assert(!key.contains('"')) by {
        if key.contains('"') {
            let k = choose|k: int| 0 <= k < key.len() && key[k] == '"';
            assert(key[k] != '"');
        }
    }
    law_setting_reads_back(key, program);
    lemma_split_no_sep(program, '"');
}

/// Deleting a startup row as it is shown deletes the line that added it:
/// the removal looks for that very line, when the program holds no double
/// quote.
pub proof fn law_startup_removal_finds_line(program: Seq<char>)
    requires
        !program.contains('"'),
    ensures
        ({
            let line = quoted_setting_spec("spawn-at-startup"@, program);
            quoted_setting_spec("spawn-at-startup"@, startup_row_spec(line)) == line
        }),
{
    law_startup_reads_back(program);
}

/// No `.desktop` begins inside `app` in the value `app.desktop;` that the
/// panel saves for it.
pub open spec fn desktop_free(app: Seq<char>) -> bool {
    forall|i: int| 0 <= i < app.len() ==> !#[trigger] starts_with((app + ".desktop;"@).skip(i), ".desktop"@)
}

/// A default application set in the MIME list reads back from the new line
/// under the same key, with the saved value, shown as the application's
/// name: for an application name without `=` in which no `.desktop` begins.
pub proof fn law_default_reads_back(line: Seq<char>, app: Seq<char>)
    requires
        !app.contains('='),
        desktop_free(app),
    ensures
        default_change(line, app) matches EditView::Update(_, _, new) && {
            &&& mime_key(new) == mime_key(line)
            &&& mime_value(new) == app + ".desktop;"@
            &&& shown_value(mime_value(new)) == app
        },
{
    reveal_strlit("=");
    reveal_strlit(".desktop;");
    reveal_strlit(".desktop");
    let eq = seq!['='];
    assert("="@ =~= eq);
    let key = mime_key(line);
    let value = app + ".desktop;"@;
    let new = key + "="@ + app + ".desktop;"@;
    lemma_split_first_no_sep(line, '=');
    assert(new =~= key + eq + value);
    lemma_split_at_sep(key, value, '=');
    assert(!value.contains('=')) by {
        if value.contains('=') {
            let k = choose|k: int| 0 <= k < value.len() && value[k] == '=';
            if k < app.len() {
                assert(app[k] == '=');
            } else {
                assert(".desktop;"@[k - app.len()] == '=');
            }
        }
    }
    lemma_split_no_sep(value, '=');
    assert(split(new, "="@) =~= seq![key, value]);
    let semi = seq![';'];
    assert(value =~= app + ".desktop"@ + semi);
    lemma_split_before(app, ".desktop"@, semi);
}

/// Each field of the defaults form stands for a MIME prefix of its own:
/// the form's fields and their prefixes are the eight below, and no two
/// fields share a prefix, so filling one field never rewrites the default of
/// another kind of file.
pub proof fn law_form_fields_apart(a: Seq<char>, b: Seq<char>)
    ensures
        default_link_spec(a) is Some && default_link_spec(a) == default_link_spec(b) ==> a == b,
        default_link_spec("browser"@) == Some("x-scheme-handler/http"@),
        default_link_spec("manager"@) == Some("inode/directory"@),
        default_link_spec("mail"@) == Some("x-scheme-handler/mailto"@),
        default_link_spec("video"@) == Some("video/"@),
        default_link_spec("audio"@) == Some("audio/"@),
        default_link_spec("text"@) == Some("text/"@),
        default_link_spec("image"@) == Some("image/"@),
        default_link_spec("pdf"@) == Some("application/pdf"@),
{
    reveal_strlit("browser");
    reveal_strlit("manager");
    reveal_strlit("mail");
    reveal_strlit("video");
    reveal_strlit("audio");
    reveal_strlit("text");
    reveal_strlit("image");
    reveal_strlit("pdf");
    reveal_strlit("x-scheme-handler/http");
    reveal_strlit("inode/directory");
    reveal_strlit("x-scheme-handler/mailto");
    reveal_strlit("video/");
    reveal_strlit("audio/");
    reveal_strlit("text/");
    reveal_strlit("image/");
    reveal_strlit("application/pdf");
    assert("browser"@[0] == 'b' && "manager"@[0] == 'm' && "mail"@.len() == 4 && "manager"@.len() == 7);
    assert("video"@[0] == 'v' && "audio"@[0] == 'a' && "text"@[0] == 't' && "image"@[0] == 'i'
        && "pdf"@[0] == 'p');
    if default_link_spec(a) is Some && default_link_spec(a) == default_link_spec(b) {
        let pa = default_link_spec(a)->0;
        assert(pa.len() == default_link_spec(b)->0.len());
        assert(pa[0] == default_link_spec(b)->0[0]);
        assert(pa[1] == default_link_spec(b)->0[1]);
        assert(pa.last() == default_link_spec(b)->0.last());
    }
}

/// The edits for a MIME prefix each rewrite a line of the list that holds
/// the prefix: the edit looks for that line's `key=` and points it at the
/// application; there is one edit for each such line, in order.
pub proof fn law_default_edits_hold_prefix(lines: Seq<Seq<char>>, link: Seq<char>, app: Seq<char>)
    ensures
        forall|k: int|
            0 <= k < default_changes_spec(lines, link, app).len() ==> exists|j: int|
                0 <= j < lines.len() && contains(#[trigger] lines[j], link)
                    && #[trigger] default_changes_spec(lines, link, app)[k] == EditView::Update(
                    Some("mimeapps.list"@),
                    mime_key(lines[j]) + "="@,
                    mime_key(lines[j]) + "="@ + app + ".desktop;"@,
                ),
        default_changes_spec(lines, link, app).len() <= lines.len(),
    decreases lines.len(),
{
    if lines.len() > 0 {
        let prev = lines.drop_last();
        law_default_edits_hold_prefix(prev, link, app);
        let cs = default_changes_spec(lines, link, app);
        let ps = default_changes_spec(prev, link, app);
        assert forall|k: int| 0 <= k < cs.len() implies exists|j: int|
            0 <= j < lines.len() && contains(#[trigger] lines[j], link) && #[trigger] cs[k]
                == EditView::Update(
                Some("mimeapps.list"@),
                mime_key(lines[j]) + "="@,
                mime_key(lines[j]) + "="@ + app + ".desktop;"@,
            ) by {
            if k < ps.len() {
                assert(cs[k] == ps[k]);
                let j = choose|j: int|
                    0 <= j < prev.len() && contains(#[trigger] prev[j], link) && #[trigger] ps[k]
                        == EditView::Update(
                        Some("mimeapps.list"@),
                        mime_key(prev[j]) + "="@,
                        mime_key(prev[j]) + "="@ + app + ".desktop;"@,
                    );
                assert(lines[j] == prev[j]);
            } else {
                let j = lines.len() - 1;
                assert(lines[j] == lines.last());
                assert(cs[k] == default_change(lines.last(), app));
            }
        }
    }
}

/// A default application set in the MIME list can be set again: the new
/// line holds the `key=` the next update looks for.
pub proof fn law_default_change_refindable(line: Seq<char>, app: Seq<char>)
    ensures
        refindable(default_change(line, app)),
{
    let key = mime_key(line) + "="@;
    let e = Seq::<char>::empty();
    assert(key + app + ".desktop;"@ =~= e + key + (app + ".desktop;"@));
    lemma_contains_middle(e, key, app + ".desktop;"@);
}

} // verus!
