//! The appearance settings: font, icon and cursor themes, window layout
//! options, corner radius, animations and shaders.

use vstd::prelude::*;
use crate::edits::{ConfigEdit, EditView, edit_views, refindable};
use crate::numbers::{all_digits, digits_value, is_digit, parse_bool, parse_u32, parsed_bool, parsed_u32};
use crate::region::{compositor_file, quoted_setting, quoted_setting_spec};
use crate::std_calls::{ascii_upper, lossy_text, to_uppercase, utf8_lossy};
use crate::text::is_space;
use crate::text::{
    before, chars_eq, from_chars, lines, lines_of, piece, push_all, push_str, replace_all, replace_chars,
    split, string_views, to_chars, trim, trim_chars, views, lemma_split_at_sep, lemma_split_no_sep,
    lemma_trim_start_blank, lemma_contains_middle, lemma_split_before, lemma_split_whole, starts_with, contains,
};

verus! {

broadcast use vstd::string::group_string_axioms;

/// The font family of the fontconfig `edit` line: the text after its first
/// `<string>` and before the next `</string>`, empty when it has none.
pub open spec fn font_of_line(line: Seq<char>) -> Seq<char> {
    let ps = split(line, "<string>"@);
    if ps.len() > 1 {
        split(ps[1], "</string>"@)[0]
    } else {
        Seq::<char>::empty()
    }
}

/// The font family that the fontconfig `edit` line assigns.
pub fn font_from_config(line: &str) -> (r: String)
    ensures
        r@ == font_of_line(line@),
{
    let s = to_chars(line);
    match piece(&s, "<string>", 1) {
        Some(p) => from_chars(&before(&p, "</string>")),
        None => String::new(),
    }
}

/// The fontconfig line that assigns the font family `family`.
pub open spec fn font_line(family: Seq<char>) -> Seq<char> {
    "<edit name=\"family\" mode=\"assign\" binding=\"strong\"><string>"@ + family
        + "</string></edit>"@
}

/// The edit that makes `family` the system font.
pub fn font_edit(family: &str) -> (e: ConfigEdit)
    ensures
        e@ == EditView::Update(Some("fontconfig/fonts.conf"@), "edit"@, font_line(family@)),
{
    let mut v = to_chars("<edit name=\"family\" mode=\"assign\" binding=\"strong\"><string>");
    push_str(&mut v, family);
    push_str(&mut v, "</string></edit>");
    ConfigEdit::Update {
        file: Some("fontconfig/fonts.conf".to_owned()),
        pattern: "edit".to_owned(),
        line: from_chars(&v),
    }
}

/// A font family chosen in the panel reads back, from the fontconfig line
/// saved for it, as that family: for every family name that holds neither
/// `<string>` nor `</string>`.
pub proof fn law_font_reads_back(family: Seq<char>)
    requires
        !contains(family, "<string>"@),
        !contains(family, "</string>"@),
    ensures
        font_of_line(font_line(family)) == family,
{
    let front = "<edit name=\"family\" mode=\"assign\" binding=\"strong\"><string>"@;
    let back = "</string></edit>"@;
    let open = "<string>"@;
    let close = "</string>"@;
    reveal_strlit("<edit name=\"family\" mode=\"assign\" binding=\"strong\"><string>");
    reveal_strlit("</string></edit>");
    reveal_strlit("<string>");
    reveal_strlit("</string>");
    let head = front.take(front.len() - 8);
    let rest = family + back;
    let line = font_line(family);
    assert(front =~= head + open);
    assert(line =~= head + open + rest);
    // No `<string>` starts inside the head of the line.
    assert forall|i: int| 0 <= i < head.len() implies !#[trigger] starts_with(
        (head + open + rest).skip(i),
        open,
    ) by {
        let t = (head + open + rest).skip(i);
        if i == 0 {
            assert(t[1] == 'e');
        } else {
            assert(t[0] == head[i]);
            assert(head[i] != '<');
        }
    }
    lemma_split_before(head, open, rest);
    // Nor inside the family and the closing tags after it.
    assert forall|i: int| 0 <= i <= rest.len() implies !#[trigger] starts_with(rest.skip(i), open) by {
        let t = rest.skip(i);
        if i < family.len() {
            if starts_with(t, open) {
                if i + 8 <= family.len() {
                    assert(starts_with(family.skip(i), open)) by {
                        assert forall|k: int| 0 <= k < open.len() implies #[trigger] family.skip(i)[k]
                            == open[k] by {
                            assert(t[k] == family.skip(i)[k]);
                        }
                    }
                } else {
                    let j = family.len() - i;
                    assert(t[j] == back[0]);
                    assert(open[j] != '<');
                }
            }
        } else if i + 8 <= rest.len() {
            let j = i - family.len();
            assert(0 <= j <= 8);
            assert(t[0] == back[j]);
            assert(t[1] == back[j + 1]);
            assert(back[j] != '<' || back[j + 1] != 's');
        }
    }
    lemma_split_whole(rest, open);
    assert(split(line, open)[1] == rest);
    let end = "</edit>"@;
    reveal_strlit("</edit>");
    assert(rest =~= family + close + end);
    assert forall|i: int| 0 <= i < family.len() implies !#[trigger] starts_with(
        (family + close + end).skip(i),
        close,
    ) by {
        let t = (family + close + end).skip(i);
        if starts_with(t, close) {
            if i + 9 <= family.len() {
                assert(starts_with(family.skip(i), close)) by {
                    assert forall|k: int| 0 <= k < close.len() implies #[trigger] family.skip(i)[k]
                        == close[k] by {
                        assert(t[k] == family.skip(i)[k]);
                    }
                }
            } else {
                let j = family.len() - i;
                assert(t[j] == close[0]);
                assert(close[j] != '<');
            }
        }
    }
    lemma_split_before(family, close, end);
}

/// The themes found among the entries of the icon directory: those that
/// have cursors, or those that do not, in order.
pub open spec fn themes_with(entries: Seq<(Seq<char>, bool)>, cursors: bool) -> Seq<Seq<char>>
    decreases entries.len(),
{
    if entries.len() == 0 {
        seq![]
    } else {
        let prev = themes_with(entries.drop_last(), cursors);
        if entries.last().1 == cursors {
            prev.push(entries.last().0)
        } else {
            prev
        }
    }
}

/// The views of theme-directory entries: a name and whether it has cursors.
pub open spec fn entry_views(v: Seq<(String, bool)>) -> Seq<(Seq<char>, bool)> {
    v.map_values(|e: (String, bool)| (e.0@, e.1))
}

/// The icon themes and the cursor themes among the entries of the icon
/// directory.
pub fn split_themes(entries: &Vec<(String, bool)>) -> (r: (Vec<String>, Vec<String>))
    ensures
        string_views(r.0@) == themes_with(entry_views(entries@), false),
        string_views(r.1@) == themes_with(entry_views(entries@), true),
{
    let mut icons: Vec<String> = Vec::new();
    let mut cursors: Vec<String> = Vec::new();
    let mut i: usize = 0;
    proof { assert(entry_views(entries@).take(0) =~= Seq::<(Seq<char>, bool)>::empty()); }
    while i < entries.len()
        invariant
            i <= entries.len(),
            string_views(icons@) == themes_with(entry_views(entries@).take(i as int), false),
            string_views(cursors@) == themes_with(entry_views(entries@).take(i as int), true),
        decreases entries.len() - i,
    {
        let ghost taken = entry_views(entries@).take(i + 1);
        proof {
            assert(taken.drop_last() =~= entry_views(entries@).take(i as int));
            assert(taken.last() == (entries@[i as int].0@, entries@[i as int].1));
        }
        let name = entries[i].0.clone();
        let ghost nv = name@;
        if entries[i].1 {
            let ghost before = string_views(cursors@);
            cursors.push(name);
            proof { assert(string_views(cursors@) =~= before.push(nv)); }
        } else {
            let ghost before = string_views(icons@);
            icons.push(name);
            proof { assert(string_views(icons@) =~= before.push(nv)); }
        }
        i += 1;
    }
    proof { assert(entry_views(entries@).take(entries.len() as int) =~= entry_views(entries@)); }
    (icons, cursors)
}

/// The value `gsettings get` printed: the text, trimmed, without its quotes.
pub open spec fn gsettings_text(stdout: Seq<u8>) -> Seq<char> {
    replace_all(trim(lossy_text(stdout)), seq!['\''], Seq::<char>::empty())
}

/// The value `gsettings get` printed.
pub fn gsettings_value(stdout: &[u8]) -> (r: String)
    ensures
        r@ == gsettings_text(stdout@),
        vstd::utf8::valid_utf8(stdout@) ==> r@ == replace_all(
            trim(vstd::utf8::decode_utf8(stdout@)),
            seq!['\''],
            Seq::<char>::empty(),
        ),
{
    let text = utf8_lossy(stdout);
    let t = trim_chars(&to_chars(text.as_str()));
    let q = vec!['\''];
    let empty: Vec<char> = Vec::new();
    proof {
        assert(q@ =~= seq!['\'']);
        assert(empty@ =~= Seq::<char>::empty());
    }
    from_chars(&replace_chars(&t, &q, &empty))
}

/// The ASCII digits of `s`, in order.
pub open spec fn digits_in(s: Seq<char>) -> Seq<char>
    decreases s.len(),
{
    if s.len() == 0 {
        seq![]
    } else if is_digit(s.last()) {
        digits_in(s.drop_last()).push(s.last())
    } else {
        digits_in(s.drop_last())
    }
}

/// The cursor size `gsettings get` printed: the number its digits write,
/// 24 when they write none that fits.
pub open spec fn cursor_size_spec(stdout: Seq<u8>) -> u32 {
    match parsed_u32(digits_in(lossy_text(stdout))) {
        Some(v) => v,
        None => 24,
    }
}

/// The cursor size `gsettings get` printed.
pub fn cursor_size_from(stdout: &[u8]) -> (r: u32)
    ensures
        r == cursor_size_spec(stdout@),
        vstd::utf8::valid_utf8(stdout@) ==> r == (match parsed_u32(
            digits_in(vstd::utf8::decode_utf8(stdout@)),
        ) {
            Some(v) => v,
            None => 24,
        }),
{
    let text = to_chars(utf8_lossy(stdout).as_str());
    let mut d: Vec<char> = Vec::new();
    let mut i: usize = 0;
    proof { assert(text@.take(0) =~= Seq::<char>::empty()); }
    while i < text.len()
        invariant
            i <= text.len(),
            d@ == digits_in(text@.take(i as int)),
        decreases text.len() - i,
    {
        proof {
            assert(text@.take(i + 1).drop_last() =~= text@.take(i as int));
            assert(text@.take(i + 1).last() == text@[i as int]);
        }
        let c = text[i];
        let cu = c as u32;
        if 48 <= cu && cu <= 57 {
            d.push(c);
        }
        i += 1;
    }
    proof { assert(text@.take(text.len() as int) =~= text@); }
    match parse_u32(&d) {
        Some(v) => v,
        None => 24,
    }
}

/// The fields of a line, split at single spaces.
pub open spec fn fields(line: Seq<char>) -> Seq<Seq<char>> {
    split(line, " "@)
}

/// Whether the cursor trail is on, from the line of the terminal settings:
/// its third space-separated field read as `true` or `false`, off otherwise.
pub fn cursor_trail_from(line: &str) -> (r: bool)
    requires
        fields(line@).len() > 2,
    ensures
        r == (match parsed_bool(fields(line@)[2]) {
            Some(b) => b,
            None => false,
        }),
{
    let s = to_chars(line);
    match piece(&s, " ", 2) {
        Some(p) => match parse_bool(&p) {
            Some(b) => b,
            None => false,
        },
        None => false,
    }
}

/// A number setting of the compositor from its line: the second field of the
/// trimmed line read as a number, `default` when it is none.
pub open spec fn number_setting_spec(line: Seq<char>, default: u32) -> u32 {
    let fs = fields(trim(line));
    let f = if fs.len() > 1 { fs[1] } else { Seq::<char>::empty() };
    match parsed_u32(f) {
        Some(v) => v,
        None => default,
    }
}

/// A number setting of the compositor (gaps, corner radius, animation time).
pub fn number_setting(line: &str, default: u32) -> (r: u32)
    ensures
        r == number_setting_spec(line@, default),
{
    let t = trim_chars(&to_chars(line));
    let f = match piece(&t, " ", 1) {
        Some(p) => p,
        None => Vec::new(),
    };
    proof {
        if fields(trim(line@)).len() <= 1 {
            assert(f@ =~= Seq::<char>::empty());
        }
    }
    match parse_u32(&f) {
        Some(v) => v,
        None => default,
    }
}

/// The shader in use, from the compositor line that opens it: the fifth
/// field of the trimmed line, `default` when there is none.
pub fn shader_from(line: &str) -> (r: String)
    ensures
        r@ == (if fields(trim(line@)).len() > 4 {
            fields(trim(line@))[4]
        } else {
            "default"@
        }),
{
    let t = trim_chars(&to_chars(line));
    match piece(&t, " ", 4) {
        Some(p) => from_chars(&p),
        None => "default".to_owned(),
    }
}

/// What a number field of the compositor settings saves: the number typed,
/// or zero (written `0`) when what was typed is no number.
pub open spec fn number_input_spec(input: Seq<char>) -> (u32, Seq<char>) {
    match parsed_u32(input) {
        Some(v) => (v, input),
        None => (0, "0"@),
    }
}

/// The value kept and the edit made when `input` is typed into a number
/// field whose compositor line holds `pattern` and starts with `prefix`.
pub fn number_input(input: &str, pattern: &str, prefix: &str) -> (r: (u32, ConfigEdit))
    ensures
        r.0 == number_input_spec(input@).0,
        r.1@ == EditView::Update(
            Some("niri/config.kdl"@),
            pattern@,
            prefix@ + number_input_spec(input@).1,
        ),
{
    let (value, text) = match parse_u32(&to_chars(input)) {
        Some(v) => (v, input.to_owned()),
        None => (0, "0".to_owned()),
    };
    let mut v = to_chars(prefix);
    push_str(&mut v, text.as_str());
    (value, ConfigEdit::Update { file: Some(compositor_file()), pattern: pattern.to_owned(), line: from_chars(&v) })
}

/// A number typed into a number field reads back, from the line that was
/// saved for it, as the value the field kept: for every input, and for any
/// indentation and setting name without whitespace.
pub proof fn law_number_reads_back(indent: Seq<char>, key: Seq<char>, input: Seq<char>, default: u32)
    requires
        forall|k: int| 0 <= k < indent.len() ==> #[trigger] indent[k] == ' ',
        key.len() > 0,
        forall|k: int| 0 <= k < key.len() ==> !is_space(#[trigger] key[k]),
    ensures
        number_setting_spec(indent + key + " "@ + number_input_spec(input).1, default)
            == number_input_spec(input).0,
{
    reveal_strlit(" ");
    reveal_strlit("0");
    assert(" "@ =~= seq![' ']);
    let t = number_input_spec(input).1;
    // The saved text is not empty, holds no whitespace, and ends with a digit.
    assert(t.len() > 0 && forall|k: int| 0 <= k < t.len() ==> !is_space(#[trigger] t[k])
        && is_digit(t.last())) by {
        match parsed_u32(input) {
            Some(v) => {
                let d = if input.len() > 0 && input[0] == '+' { input.drop_first() } else { input };
                assert(d.len() > 0 && all_digits(d));
                assert forall|k: int| 0 <= k < t.len() implies !is_space(#[trigger] t[k]) by {
                    if input.len() > 0 && input[0] == '+' {
                        if k > 0 {
                            assert(d[k - 1] == t[k]);
                            assert(is_digit(d[k - 1]));
                        }
                    } else {
                        assert(is_digit(d[k]));
                    }
                }
                assert(d.last() == t.last());
                assert(is_digit(d[d.len() - 1]));
            },
            None => {
                assert(t == "0"@);
            },
        }
    }
    let rest = key + seq![' '] + t;
    assert(indent + key + " "@ + t =~= indent + rest);
    assert(forall|k: int| 0 <= k < indent.len() ==> is_space(#[trigger] indent[k]));
    assert(!is_space(rest[0])) by {
        assert(rest[0] == key[0]);
    }
    lemma_trim_start_blank(indent, rest);
    assert(rest.last() == t.last());
    assert(trim(indent + rest) == rest);
    assert(!key.contains(' ')) by {
        if key.contains(' ') {
            let k = choose|k: int| 0 <= k < key.len() && key[k] == ' ';
            assert(!is_space(key[k]));
        }
    }
    assert(!t.contains(' ')) by {
        if t.contains(' ') {
            let k = choose|k: int| 0 <= k < t.len() && t[k] == ' ';
            assert(!is_space(t[k]));
        }
    }
    lemma_split_at_sep(key, t, ' ');
    lemma_split_no_sep(t, ' ');
    assert(fields(rest) =~= seq![key, t]);
    match parsed_u32(input) {
        Some(v) => {},
        None => {
            assert(t =~= seq!['0']);
            assert(all_digits(t));
            assert(t.drop_last() =~= Seq::<char>::empty());
            assert(digits_value(t.drop_last()) == 0);
            assert(t.last() == '0');
            assert(('0' as u32) == 48);
            assert(digits_value(t) == 0);
        },
    }
}

/// The cursor size kept when `input` is typed: the number, zero otherwise.
pub open spec fn typed_cursor_size(input: Seq<char>) -> u32 {
    match parsed_u32(input) {
        Some(v) => v,
        None => 0,
    }
}

/// The cursor size kept, and the edits of the shell profile in `home` and of
/// the compositor settings, when `input` is typed as the cursor size.
pub fn cursor_size_input(home: &str, input: &str) -> (r: (u32, Vec<ConfigEdit>))
    ensures
        r.0 == typed_cursor_size(input@),
        edit_views(r.1@) == seq![
            EditView::Update(Some(home@ + "/.bash_profile"@), "XCURSOR_SIZE"@, "export XCURSOR_SIZE="@ + input@),
            EditView::Update(Some("niri/config.kdl"@), "xcursor-size"@, "    xcursor-size "@ + input@),
        ],
{
    let size = match parse_u32(&to_chars(input)) {
        Some(v) => v,
        None => 0,
    };
    let mut profile = to_chars(home);
    push_str(&mut profile, "/.bash_profile");
    let mut l1 = to_chars("export XCURSOR_SIZE=");
    push_str(&mut l1, input);
    let mut l2 = to_chars("    xcursor-size ");
    push_str(&mut l2, input);
    let e1 = ConfigEdit::Update { file: Some(from_chars(&profile)), pattern: "XCURSOR_SIZE".to_owned(), line: from_chars(&l1) };
    let e2 = ConfigEdit::Update { file: Some(compositor_file()), pattern: "xcursor-size".to_owned(), line: from_chars(&l2) };
    let ghost v1 = e1@;
    let ghost v2 = e2@;
    let r = vec![e1, e2];
    proof { assert(edit_views(r@) =~= seq![v1, v2]); }
    (size, r)
}

/// The edits of the shell profile in `home` and of the compositor settings
/// when the cursor theme `theme` is chosen.
pub fn cursor_theme_edits(home: &str, theme: &str) -> (r: Vec<ConfigEdit>)
    ensures
        edit_views(r@) == seq![
            EditView::Update(Some(home@ + "/.bash_profile"@), "XCURSOR_THEME"@, "export XCURSOR_THEME=\""@ + theme@ + "\""@),
            EditView::Update(Some("niri/config.kdl"@), "xcursor-theme"@, "    "@ + quoted_setting_spec("xcursor-theme"@, theme@)),
        ],
{
    let mut profile = to_chars(home);
    push_str(&mut profile, "/.bash_profile");
    let mut l1 = to_chars("export XCURSOR_THEME=\"");
    push_str(&mut l1, theme);
    push_str(&mut l1, "\"");
    let mut l2 = to_chars("    ");
    push_str(&mut l2, quoted_setting("xcursor-theme", theme).as_str());
    let e1 = ConfigEdit::Update { file: Some(from_chars(&profile)), pattern: "XCURSOR_THEME".to_owned(), line: from_chars(&l1) };
    let e2 = ConfigEdit::Update { file: Some(compositor_file()), pattern: "xcursor-theme".to_owned(), line: from_chars(&l2) };
    let ghost v1 = e1@;
    let ghost v2 = e2@;
    let r = vec![e1, e2];
    proof { assert(edit_views(r@) =~= seq![v1, v2]); }
    r
}

/// The layout switches of the compositor settings.
#[derive(Debug, Clone, Copy, PartialEq, Eq)]
pub enum LayoutOption {
    CenterFocusedColumn,
    CenterSingleColumn,
    EmptyWorkspaceAbove,
}

/// The line a layout switch writes when it is turned on.
pub open spec fn option_line(o: LayoutOption) -> Seq<char> {
    match o {
        LayoutOption::CenterFocusedColumn => "    center-focused-column \"always\""@,
        LayoutOption::CenterSingleColumn => "    always-center-single-column"@,
        LayoutOption::EmptyWorkspaceAbove => "    empty-workspace-above-first"@,
    }
}

/// The text by which the line of a layout switch is found.
pub open spec fn option_key(o: LayoutOption) -> Seq<char> {
    match o {
        LayoutOption::CenterFocusedColumn => "center-focused-column"@,
        LayoutOption::CenterSingleColumn => "always-center-single-column"@,
        LayoutOption::EmptyWorkspaceAbove => "empty-workspace-above-first"@,
    }
}

/// Clicking a layout switch that is `on`: it flips; turned on, its line is
/// written in the `layout` block, turned off, its line is removed.
pub fn layout_toggle(o: LayoutOption, on: bool) -> (r: (bool, ConfigEdit))
    ensures
        r.0 == !on,
        !on ==> r.1@ == EditView::Write(Some("niri/config.kdl"@), "layout {"@, option_line(o)),
        on ==> r.1@ == EditView::Remove(Some("niri/config.kdl"@), option_key(o)),
{
    let (line, key) = match o {
        LayoutOption::CenterFocusedColumn => ("    center-focused-column \"always\"", "center-focused-column"),
        LayoutOption::CenterSingleColumn => ("    always-center-single-column", "always-center-single-column"),
        LayoutOption::EmptyWorkspaceAbove => ("    empty-workspace-above-first", "empty-workspace-above-first"),
    };
    if !on {
        (true, ConfigEdit::Write { file: Some(compositor_file()), anchor: "layout {".to_owned(), line: line.to_owned() })
    } else {
        (false, ConfigEdit::Remove { file: Some(compositor_file()), pattern: key.to_owned() })
    }
}

/// Clicking the shadow switch that is `on`: it flips and its line says so.
pub fn shadow_toggle(on: bool) -> (r: (bool, ConfigEdit))
    ensures
        r.0 == !on,
        r.1@ == EditView::Update(
            Some("niri/config.kdl"@),
            "// shadow"@,
            if !on { "        on // shadow"@ } else { "        off // shadow"@ },
        ),
{
    let line = if !on { "        on // shadow" } else { "        off // shadow" };
    (!on, ConfigEdit::Update { file: Some(compositor_file()), pattern: "// shadow".to_owned(), line: line.to_owned() })
}

/// Clicking the cursor trail switch that is `on`: it flips and the terminal
/// settings say so.
pub fn cursor_trail_toggle(on: bool) -> (r: (bool, ConfigEdit))
    ensures
        r.0 == !on,
        r.1@ == EditView::Update(
            Some("rio/config.toml"@),
            "trail-cursor"@,
            if !on { "trail-cursor = true"@ } else { "trail-cursor = false"@ },
        ),
{
    let line = if !on { "trail-cursor = true" } else { "trail-cursor = false" };
    (!on, ConfigEdit::Update { file: Some("rio/config.toml".to_owned()), pattern: "trail-cursor".to_owned(), line: line.to_owned() })
}

/// A name with its first character, which must be ASCII (the byte the name
/// is cut at), in upper case.
pub open spec fn capitalized(name: Seq<char>) -> Seq<char> {
    seq![ascii_upper(name[0])] + name.skip(1)
}

/// A name with its first character in upper case.
pub fn capitalize(name: &str) -> (r: String)
    requires
        name@.len() > 0,
        (name@[0] as u32) < 128,
    ensures
        r@ == capitalized(name@),
{
    let s = to_chars(name);
    let one = vec![s[0]];
    proof { assert(one@ =~= name@.take(1)); }
    let first = from_chars(&one);
    let mut v = to_chars(to_uppercase(first.as_str()).as_str());
    proof {
        assert(first@[0] == name@[0]);
        assert(v@ =~= seq![ascii_upper(name@[0])]);
    }
    let mut i: usize = 1;
    let ghost up = v@;
    while i < s.len()
        invariant
            1 <= i <= s.len(),
            s@ == name@,
            v@ == up + s@.subrange(1, i as int),
        decreases s.len() - i,
    {
        v.push(s[i]);
        i += 1;
        proof { assert(v@ =~= up + s@.subrange(1, i as int)); }
    }
    proof { assert(s@.subrange(1, s.len() as int) =~= name@.skip(1)); }
    from_chars(&v)
}

/// How an icon theme is shown: capitalized, with its dashes as spaces.
pub fn icon_display(name: &str) -> (r: String)
    requires
        name@.len() > 0,
        (name@[0] as u32) < 128,
    ensures
        r@ == replace_all(capitalized(name@), seq!['-'], seq![' ']),
{
    let c = capitalize(name);
    let d = vec!['-'];
    let sp = vec![' '];
    proof {
        assert(d@ =~= seq!['-']);
        assert(sp@ =~= seq![' ']);
    }
    from_chars(&replace_chars(&to_chars(c.as_str()), &d, &sp))
}

/// How a cursor theme is shown: its dashes as spaces.
pub fn cursor_display(name: &str) -> (r: String)
    ensures
        r@ == replace_all(name@, seq!['-'], seq![' ']),
{
    let d = vec!['-'];
    let sp = vec![' '];
    proof {
        assert(d@ =~= seq!['-']);
        assert(sp@ =~= seq![' ']);
    }
    from_chars(&replace_chars(&to_chars(name), &d, &sp))
}

/// How a shader is shown: capitalized.
pub fn shader_display(name: &str) -> (r: String)
    requires
        name@.len() > 0,
        (name@[0] as u32) < 128,
    ensures
        r@ == capitalized(name@),
{
    capitalize(name)
}

/// The edits made when the shader `shader` is chosen: the marked shader
/// lines are removed, then the opening, closing and end lines are set,
/// commented out for `default`.
pub open spec fn shader_edits_spec(shader: Seq<char>) -> Seq<EditView> {
    let f = Some("niri/config.kdl"@);
    if shader == "default"@ {
        seq![
            EditView::Remove(f, "// marked_shader"@),
            EditView::Update(f, "// open"@, "        // custom-shader r\" // open default"@),
            EditView::Update(f, "// close"@, "        // custom-shader r\" // close default"@),
            EditView::Update(f, "// end"@, "        // \" // end"@),
        ]
    } else {
        seq![
            EditView::Remove(f, "// marked_shader"@),
            EditView::Update(f, "// open"@, "        custom-shader r\" // open "@ + shader),
            EditView::Update(f, "// close"@, "        custom-shader r\" // close "@ + shader),
            EditView::Update(f, "// end"@, "        \" // end"@),
        ]
    }
}

fn update_niri(pattern: &str, line: Vec<char>) -> (e: ConfigEdit)
    ensures
        e@ == EditView::Update(Some("niri/config.kdl"@), pattern@, line@),
{
    ConfigEdit::Update { file: Some(compositor_file()), pattern: pattern.to_owned(), line: from_chars(&line) }
}

/// The edits made when a shader is chosen, and whether its sources are to
/// be written next (for every shader but `default`).
pub fn shader_edits(shader: &str) -> (r: (Vec<ConfigEdit>, bool))
    ensures
        edit_views(r.0@) == shader_edits_spec(shader@),
        r.1 == (shader@ != "default"@),
{
    let is_default = shader.to_owned() == "default".to_owned();
    let e0 = ConfigEdit::Remove { file: Some(compositor_file()), pattern: "// marked_shader".to_owned() };
    let (e1, e2, e3) = if is_default {
        (
            update_niri("// open", to_chars("        // custom-shader r\" // open default")),
            update_niri("// close", to_chars("        // custom-shader r\" // close default")),
            update_niri("// end", to_chars("        // \" // end")),
        )
    } else {
        let mut l1 = to_chars("        custom-shader r\" // open ");
        push_str(&mut l1, shader);
        let mut l2 = to_chars("        custom-shader r\" // close ");
        push_str(&mut l2, shader);
        (update_niri("// open", l1), update_niri("// close", l2), update_niri("// end", to_chars("        \" // end")))
    };
    let ghost vs = seq![e0@, e1@, e2@, e3@];
    let r = vec![e0, e1, e2, e3];
    proof { assert(edit_views(r@) =~= vs); }
    (r, !is_default)
}

/// `s` without the line feeds at its start and end.
pub open spec fn trim_newlines(s: Seq<char>) -> Seq<char>
    decreases s.len(),
{
    if s.len() > 0 && s[0] == '\n' {
        trim_newlines(s.drop_first())
    } else if s.len() > 0 && s.last() == '\n' {
        trim_newlines(s.drop_last())
    } else {
        s
    }
}

/// The lines joined with line feeds between them, each followed by the
/// shader marker.
pub open spec fn marked_block(ls: Seq<Seq<char>>) -> Seq<char>
    decreases ls.len(),
{
    if ls.len() == 0 {
        seq![]
    } else if ls.len() == 1 {
        ls[0] + " // marked_shader"@
    } else {
        marked_block(ls.drop_last()) + seq!['\n'] + ls.last() + " // marked_shader"@
    }
}

/// The shader source made ready to be written in the compositor settings:
/// without its outer line feeds, each line marked.
pub open spec fn shader_block_spec(source: Seq<char>) -> Seq<char> {
    marked_block(lines(trim_newlines(source)))
}

/// The shader source, marked line by line.
pub fn shader_block(source: &str) -> (r: String)
    ensures
        r@ == shader_block_spec(source@),
{
    let s = to_chars(source);
    let mut a: usize = 0;
    let mut b: usize = s.len();
    proof { assert(s@.subrange(0, s.len() as int) =~= s@); }
    while a < b && (s[a] == '\n' || s[b - 1] == '\n')
        invariant
            a <= b <= s.len(),
            trim_newlines(s@) == trim_newlines(s@.subrange(a as int, b as int)),
        decreases b - a,
    {
        let ghost t = s@.subrange(a as int, b as int);
        if s[a] == '\n' {
            proof { assert(t.drop_first() =~= s@.subrange(a + 1, b as int)); }
            a += 1;
        } else {
            proof { assert(t.drop_last() =~= s@.subrange(a as int, b - 1)); }
            b -= 1;
        }
    }
    let mut t: Vec<char> = Vec::new();
    let mut k: usize = a;
    while k < b
        invariant
            a <= k <= b <= s.len(),
            t@ == s@.subrange(a as int, k as int),
        decreases b - k,
    {
        t.push(s[k]);
        k += 1;
        proof { assert(t@ =~= s@.subrange(a as int, k as int)); }
    }
    proof { assert(trim_newlines(t@) == t@); }
    let ls = lines_of(&t);
    let mut out: Vec<char> = Vec::new();
    for i in 0..ls.len()
        invariant
            views(ls@) == lines(trim_newlines(source@)),
            out@ == marked_block(views(ls@).take(i as int)),
    {
        proof { assert(views(ls@).take(i + 1).drop_last() =~= views(ls@).take(i as int)); }
        if i > 0 {
            out.push('\n');
        }
        push_all(&mut out, &ls[i]);
        push_str(&mut out, " // marked_shader");
        proof {
            assert(views(ls@).take(i + 1).last() == ls@[i as int]@);
            if i == 0 {
                assert(out@ =~= marked_block(views(ls@).take(1)));
            } else {
                assert(out@ =~= marked_block(views(ls@).take(i + 1)));
            }
        }
    }
    proof { assert(views(ls@).take(ls.len() as int) =~= views(ls@)); }
    from_chars(&out)
}

/// The edits that write the marked opening and closing shader sources
/// after their marker lines.
pub fn shader_source_edits(open_source: &str, close_source: &str) -> (r: Vec<ConfigEdit>)
    ensures
        edit_views(r@) == seq![
            EditView::Write(Some("niri/config.kdl"@), "// open"@, shader_block_spec(open_source@)),
            EditView::Write(Some("niri/config.kdl"@), "// close"@, shader_block_spec(close_source@)),
        ],
{
    let e1 = ConfigEdit::Write { file: Some(compositor_file()), anchor: "// open".to_owned(), line: shader_block(open_source) };
    let e2 = ConfigEdit::Write { file: Some(compositor_file()), anchor: "// close".to_owned(), line: shader_block(close_source) };
    let ghost vs = seq![e1@, e2@];
    let r = vec![e1, e2];
    proof { assert(edit_views(r@) =~= vs); }
    r
}

/// `a` comes before `b` in the order of `String`: character by character,
/// a proper prefix first.
pub open spec fn lex_lt(a: Seq<char>, b: Seq<char>) -> bool
    decreases a.len(),
{
    if a.len() == 0 {
        b.len() > 0
    } else if b.len() == 0 {
        false
    } else if a[0] != b[0] {
        (a[0] as u32) < (b[0] as u32)
    } else {
        lex_lt(a.drop_first(), b.drop_first())
    }
}

/// Each name comes before the next, so none is there twice.
pub open spec fn strictly_sorted(v: Seq<Seq<char>>) -> bool {
    forall|i: int, j: int| 0 <= i < j < v.len() ==> lex_lt(#[trigger] v[i], #[trigger] v[j])
}

proof fn lemma_lex_irreflexive(a: Seq<char>)
    ensures
        !lex_lt(a, a),
    decreases a.len(),
{
    if a.len() > 0 {
        lemma_lex_irreflexive(a.drop_first());
    }
}

proof fn lemma_lex_total(a: Seq<char>, b: Seq<char>)
    ensures
        a == b || lex_lt(a, b) || lex_lt(b, a),
        !(lex_lt(a, b) && lex_lt(b, a)),
    decreases a.len(),
{
    if a.len() > 0 && b.len() > 0 {
        if a[0] == b[0] {
            lemma_lex_total(a.drop_first(), b.drop_first());
            if a.drop_first() == b.drop_first() {
                assert(a =~= seq![a[0]] + a.drop_first());
                assert(b =~= seq![b[0]] + b.drop_first());
            }
        } else {
            vstd::utf8::char_is_scalar(a[0]);
            assert((a[0] as u32) != (b[0] as u32)) by {
                if (a[0] as u32) == (b[0] as u32) {
                    vstd::utf8::char_u32_cast(a[0], a[0] as u32);
                    vstd::utf8::char_u32_cast(b[0], b[0] as u32);
                }
            }
        }
    } else if a.len() == 0 && b.len() == 0 {
        assert(a =~= b);
    }
}

proof fn lemma_lex_transitive(a: Seq<char>, b: Seq<char>, c: Seq<char>)
    requires
        lex_lt(a, b),
        lex_lt(b, c),
    ensures
        lex_lt(a, c),
    decreases a.len(),
{
    if a.len() > 0 && b.len() > 0 && c.len() > 0 {
        if a[0] == b[0] && b[0] == c[0] {
            lemma_lex_transitive(a.drop_first(), b.drop_first(), c.drop_first());
        }
    }
}

/// Whether `a` comes before `b` in the order of `String`.
pub fn lex_less(a: &Vec<char>, b: &Vec<char>) -> (r: bool)
    ensures
        r == lex_lt(a@, b@),
{
    let mut i: usize = 0;
    proof {
        assert(a@.skip(0) =~= a@);
        assert(b@.skip(0) =~= b@);
    }
    while i < a.len() && i < b.len() && a[i] == b[i]
        invariant
            i <= a.len(),
            i <= b.len(),
            lex_lt(a@, b@) == lex_lt(a@.skip(i as int), b@.skip(i as int)),
        decreases a.len() - i,
    {
        proof {
            assert(a@.skip(i as int).drop_first() =~= a@.skip(i + 1));
            assert(b@.skip(i as int).drop_first() =~= b@.skip(i + 1));
        }
        i += 1;
    }
    if i == a.len() {
        i < b.len()
    } else if i == b.len() {
        false
    } else {
        (a[i] as u32) < (b[i] as u32)
    }
}

/// The font families sorted in the order of `String`, each once.
pub fn sorted_families(names: &Vec<String>) -> (r: Vec<String>)
    ensures
        strictly_sorted(string_views(r@)),
        forall|x: Seq<char>| string_views(r@).contains(x) <==> string_views(names@).contains(x),
{
    let mut r: Vec<String> = Vec::new();
    let mut rc: Vec<Vec<char>> = Vec::new();
    let mut i: usize = 0;
    while i < names.len()
        invariant
            i <= names.len(),
            string_views(r@) == views(rc@),
            strictly_sorted(views(rc@)),
            forall|x: Seq<char>| views(rc@).contains(x) <==> string_views(names@).take(i as int).contains(x),
        decreases names.len() - i,
    {
        let name = to_chars(names[i].as_str());
        let ghost nv = name@;
        let ghost rv = views(rc@);
        let ghost t0 = string_views(names@).take(i as int);
        let ghost t1 = string_views(names@).take(i + 1);
        let mut p: usize = 0;
        while p < rc.len() && lex_less(&rc[p], &name)
            invariant
                p <= rc.len(),
                rv == views(rc@),
                name@ == nv,
                forall|k: int| 0 <= k < p ==> lex_lt(#[trigger] rv[k], nv),
            decreases rc.len() - p,
        {
            proof { assert(rv[p as int] == rc@[p as int]@); }
            p += 1;
        }
        proof {
            assert(t1 =~= t0.push(nv));
            if p < rc.len() {
                assert(rv[p as int] == rc@[p as int]@);
                assert(!lex_lt(rv[p as int], nv));
                lemma_lex_total(rv[p as int], nv);
            }
        }
        let dup = p < rc.len() && chars_eq(&rc[p], &name);
        if dup {
            proof {
                assert(rv[p as int] == nv);
                assert forall|x: Seq<char>| rv.contains(x) <==> t1.contains(x) by {
                    if x == nv {
                        assert(rv[p as int] == x);
                    }
                    if t1.contains(x) && x != nv {
                        let k = choose|k: int| 0 <= k < t1.len() && t1[k] == x;
                        assert(t0[k] == x);
                    }
                }
            }
        } else {
            proof {
                if p < rc.len() {
                    assert(rv[p as int] != nv);
                    assert(lex_lt(nv, rv[p as int]));
                }
            }
            let ghost sv = string_views(r@);
            r.insert(p, names[i].clone());
            rc.insert(p, name);
            proof {
                let nrv = views(rc@);
                assert(nrv =~= rv.insert(p as int, nv));
                assert(string_views(r@) =~= sv.insert(p as int, names@[i as int]@));
                assert forall|a: int, b: int| 0 <= a < b < nrv.len() implies lex_lt(
                    #[trigger] nrv[a],
                    #[trigger] nrv[b],
                ) by {
                    if b < p {
                        assert(nrv[a] == rv[a] && nrv[b] == rv[b]);
                    } else if b == p {
                        assert(nrv[a] == rv[a]);
                    } else if a == p {
                        assert(nrv[b] == rv[b - 1]);
                        if b - 1 > p {
                            assert(lex_lt(rv[p as int], rv[b - 1]));
                            lemma_lex_transitive(nv, rv[p as int], rv[b - 1]);
                        }
                    } else if a < p {
                        assert(nrv[a] == rv[a] && nrv[b] == rv[b - 1]);
                        assert(lex_lt(rv[a], nv));
                        lemma_lex_transitive(rv[a], nv, rv[p as int]);
                        if b - 1 > p {
                            assert(lex_lt(rv[p as int], rv[b - 1]));
                            lemma_lex_transitive(rv[a], rv[p as int], rv[b - 1]);
                        }
                    } else {
                        assert(nrv[a] == rv[a - 1] && nrv[b] == rv[b - 1]);
                    }
                }
                assert forall|x: Seq<char>| nrv.contains(x) <==> t1.contains(x) by {
                    if nrv.contains(x) {
                        let k = choose|k: int| 0 <= k < nrv.len() && nrv[k] == x;
                        if k == p {
                            assert(t1[i as int] == x);
                        } else {
                            if k < p {
                                assert(rv[k] == x);
                            } else {
                                assert(rv[k - 1] == x);
                            }
                            assert(rv.contains(x));
                            assert(t0.contains(x));
                            let m = choose|m: int| 0 <= m < t0.len() && t0[m] == x;
                            assert(t1[m] == x);
                        }
                    }
                    if t1.contains(x) {
                        if x == nv {
                            assert(nrv[p as int] == x);
                        } else {
                            let k = choose|k: int| 0 <= k < t1.len() && t1[k] == x;
                            assert(t0[k] == x);
                            assert(rv.contains(x));
                            let m = choose|m: int| 0 <= m < rv.len() && rv[m] == x;
                            if m < p {
                                assert(nrv[m] == x);
                            } else {
                                assert(nrv[m + 1] == x);
                            }
                        }
                    }
                }
            }
        }
        i += 1;
    }
    proof { assert(string_views(names@).take(names.len() as int) =~= string_views(names@)); }
    r
}

/// The fields of a shader line `custom-shader r" // <w4> <shader>`,
/// indented by eight spaces, once trimmed.
proof fn lemma_shader_line_fields(w4: Seq<char>, shader: Seq<char>)
    requires
        w4.len() > 0,
        !w4.contains(' '),
        shader.len() > 0,
        forall|k: int| 0 <= k < shader.len() ==> !is_space(#[trigger] shader[k]),
    ensures
        ({
            let line = seq![' ', ' ', ' ', ' ', ' ', ' ', ' ', ' '] + seq![
                'c',
                'u',
                's',
                't',
                'o',
                'm',
                '-',
                's',
                'h',
                'a',
                'd',
                'e',
                'r',
            ] + seq![' '] + seq!['r', '"'] + seq![' '] + seq!['/', '/'] + seq![' '] + w4 + seq![' ']
                + shader;
            fields(trim(line)) == seq![
                seq!['c', 'u', 's', 't', 'o', 'm', '-', 's', 'h', 'a', 'd', 'e', 'r'],
                seq!['r', '"'],
                seq!['/', '/'],
                w4,
                shader,
            ]
        }),
{
    reveal_strlit(" ");
    let indent = seq![' ', ' ', ' ', ' ', ' ', ' ', ' ', ' '];
    let w1 = seq!['c', 'u', 's', 't', 'o', 'm', '-', 's', 'h', 'a', 'd', 'e', 'r'];
    let w2 = seq!['r', '"'];
    let w3 = seq!['/', '/'];
    let sp = seq![' '];
    assert(" "@ =~= sp);
    let rest = w1 + sp + (w2 + sp + (w3 + sp + (w4 + sp + shader)));
    let line = indent + w1 + sp + w2 + sp + w3 + sp + w4 + sp + shader;
    assert(line =~= indent + rest);
    assert forall|k: int| 0 <= k < indent.len() implies is_space(#[trigger] indent[k]) by {
        assert(indent[k] == ' ');
    }
    assert(!is_space(rest[0]));
    lemma_trim_start_blank(indent, rest);
    assert(rest.last() == shader.last());
    assert(!is_space(shader[shader.len() - 1]));
    assert(trim(line) == rest);
    assert(!shader.contains(' ')) by {
        if shader.contains(' ') {
            let k = choose|k: int| 0 <= k < shader.len() && shader[k] == ' ';
            assert(!is_space(shader[k]));
        }
    }
    assert(!w1.contains(' ')) by {
        if w1.contains(' ') {
            let k = choose|k: int| 0 <= k < w1.len() && w1[k] == ' ';
            assert(w1[k] != ' ');
        }
    }
    assert(!w2.contains(' ')) by {
        if w2.contains(' ') {
            let k = choose|k: int| 0 <= k < w2.len() && w2[k] == ' ';
            assert(w2[k] != ' ');
        }
    }
    assert(!w3.contains(' ')) by {
        if w3.contains(' ') {
            let k = choose|k: int| 0 <= k < w3.len() && w3[k] == ' ';
            assert(w3[k] != ' ');
        }
    }
    lemma_split_no_sep(shader, ' ');
    lemma_split_at_sep(w4, shader, ' ');
    lemma_split_at_sep(w3, w4 + sp + shader, ' ');
    lemma_split_at_sep(w2, w3 + sp + (w4 + sp + shader), ' ');
    lemma_split_at_sep(w1, w2 + sp + (w3 + sp + (w4 + sp + shader)), ' ');
    assert(fields(rest) =~= seq![w1, w2, w3, w4, shader]);
}

/// The shader read back from the opening line that choosing it wrote is
/// that shader, for a name without whitespace other than `default` (whose
/// commented-out line reads back as `open`); the opening line is marked
/// `open` and the closing line `close`, each followed by the shader.
pub proof fn law_shader_reads_back(shader: Seq<char>)
    requires
        shader.len() > 0,
        forall|k: int| 0 <= k < shader.len() ==> !is_space(#[trigger] shader[k]),
        shader != "default"@,
    ensures
        shader_edits_spec(shader)[1] matches EditView::Update(_, _, line) && fields(trim(line)).len() > 4
            && fields(trim(line))[3] == "open"@ && fields(trim(line))[4] == shader,
        shader_edits_spec(shader)[2] matches EditView::Update(_, _, line) && fields(trim(line)).len() > 4
            && fields(trim(line))[3] == "close"@ && fields(trim(line))[4] == shader,
{
    reveal_strlit("        custom-shader r\" // open ");
    reveal_strlit("        custom-shader r\" // close ");
    reveal_strlit("open");
    reveal_strlit("close");
    let indent = seq![' ', ' ', ' ', ' ', ' ', ' ', ' ', ' '];
    let w1 = seq!['c', 'u', 's', 't', 'o', 'm', '-', 's', 'h', 'a', 'd', 'e', 'r'];
    let w2 = seq!['r', '"'];
    let w3 = seq!['/', '/'];
    let sp = seq![' '];
    let open = seq!['o', 'p', 'e', 'n'];
    let close = seq!['c', 'l', 'o', 's', 'e'];
    assert("open"@ =~= open);
    assert("close"@ =~= close);
    assert(!open.contains(' ')) by {
        if open.contains(' ') {
            let k = choose|k: int| 0 <= k < open.len() && open[k] == ' ';
            assert(open[k] != ' ');
        }
    }
    assert(!close.contains(' ')) by {
        if close.contains(' ') {
            let k = choose|k: int| 0 <= k < close.len() && close[k] == ' ';
            assert(close[k] != ' ');
        }
    }
    lemma_shader_line_fields(open, shader);
    lemma_shader_line_fields(close, shader);
    assert("        custom-shader r\" // open "@ + shader =~= indent + w1 + sp + w2 + sp + w3 + sp + open + sp
        + shader);
    assert("        custom-shader r\" // close "@ + shader =~= indent + w1 + sp + w2 + sp + w3 + sp + close
        + sp + shader);
}

/// Every line that choosing a shader updates holds the marker it is found
/// by (`// open`, `// close`, `// end`), for every shader, so the next
/// choice finds these lines again.
pub proof fn law_shader_edits_refindable(shader: Seq<char>)
    ensures
        forall|k: int| 0 <= k < shader_edits_spec(shader).len() ==> refindable(
            #[trigger] shader_edits_spec(shader)[k],
        ),
        shader_edits_spec(shader).len() == 4,
        shader_edits_spec(shader)[0] == EditView::Remove(Some("niri/config.kdl"@), "// marked_shader"@),
        shader_edits_spec(shader)[1] matches EditView::Update(_, p, _) && p == "// open"@,
        shader_edits_spec(shader)[2] matches EditView::Update(_, p, _) && p == "// close"@,
        shader_edits_spec(shader)[3] matches EditView::Update(_, p, _) && p == "// end"@,
{
    reveal_strlit("// open");
    reveal_strlit("// close");
    reveal_strlit("// end");
    reveal_strlit("        // custom-shader r\" // open default");
    reveal_strlit("        // custom-shader r\" // close default");
    reveal_strlit("        // \" // end");
    reveal_strlit("        custom-shader r\" // open ");
    reveal_strlit("        custom-shader r\" // close ");
    reveal_strlit("        \" // end");
    let es = shader_edits_spec(shader);
    let e = Seq::<char>::empty();
    if shader == "default"@ {
        let l1 = "        // custom-shader r\" // open default"@;
        assert(l1 =~= l1.take(28) + "// open"@ + l1.skip(35));
        lemma_contains_middle(l1.take(28), "// open"@, l1.skip(35));
        let l2 = "        // custom-shader r\" // close default"@;
        assert(l2 =~= l2.take(28) + "// close"@ + l2.skip(36));
        lemma_contains_middle(l2.take(28), "// close"@, l2.skip(36));
        let l3 = "        // \" // end"@;
        assert(l3 =~= l3.take(13) + "// end"@ + e);
        lemma_contains_middle(l3.take(13), "// end"@, e);
    } else {
        let l1 = "        custom-shader r\" // open "@ + shader;
        assert(l1 =~= l1.take(25) + "// open"@ + l1.skip(32));
        lemma_contains_middle(l1.take(25), "// open"@, l1.skip(32));
        let l2 = "        custom-shader r\" // close "@ + shader;
        assert(l2 =~= l2.take(25) + "// close"@ + l2.skip(33));
        lemma_contains_middle(l2.take(25), "// close"@, l2.skip(33));
        let l3 = "        \" // end"@;
        assert(l3 =~= l3.take(10) + "// end"@ + e);
        lemma_contains_middle(l3.take(10), "// end"@, e);
    }
    assert forall|k: int| 0 <= k < es.len() implies refindable(#[trigger] es[k]) by {}
}

/// The cursor trail read back from the line its switch wrote is the state
/// the switch turned to.
pub proof fn law_trail_reads_back(on: bool)
    ensures
        ({
            let line = if !on { "trail-cursor = true"@ } else { "trail-cursor = false"@ };
            fields(line).len() > 2 && parsed_bool(fields(line)[2]) == Some(!on)
        }),
{
    reveal_strlit("trail-cursor = true");
    reveal_strlit("trail-cursor = false");
    reveal_strlit(" ");
    let sp = seq![' '];
    assert(" "@ =~= sp);
    let w1 = seq!['t', 'r', 'a', 'i', 'l', '-', 'c', 'u', 'r', 's', 'o', 'r'];
    let w2 = seq!['='];
    let v = if !on { seq!['t', 'r', 'u', 'e'] } else { seq!['f', 'a', 'l', 's', 'e'] };
    let line = if !on { "trail-cursor = true"@ } else { "trail-cursor = false"@ };
    assert(line =~= w1 + sp + (w2 + sp + v));
    assert(!w1.contains(' ')) by {
        if w1.contains(' ') {
            let k = choose|k: int| 0 <= k < w1.len() && w1[k] == ' ';
            assert(w1[k] != ' ');
        }
    }
    assert(!w2.contains(' ')) by {
        if w2.contains(' ') {
            let k = choose|k: int| 0 <= k < w2.len() && w2[k] == ' ';
            assert(w2[k] != ' ');
        }
    }
    assert(!v.contains(' ')) by {
        if v.contains(' ') {
            let k = choose|k: int| 0 <= k < v.len() && v[k] == ' ';
            assert(v[k] != ' ');
        }
    }
    lemma_split_no_sep(v, ' ');
    lemma_split_at_sep(w2, v, ' ');
    lemma_split_at_sep(w1, w2 + sp + v, ' ');
    assert(fields(line) =~= seq![w1, w2, v]);
}

/// The shadow read back from the line its switch wrote (the shadow is on
/// when a line holds `on // shadow`) is the state the switch turned to, and
/// that line holds the `// shadow` by which the next click finds it.
pub proof fn law_shadow_reads_back(on: bool)
    ensures
        ({
            let line = if !on { "        on // shadow"@ } else { "        off // shadow"@ };
            &&& contains(line, "on // shadow"@) == !on
            &&& contains(line, "// shadow"@)
        }),
{
    reveal_strlit("        on // shadow");
    reveal_strlit("        off // shadow");
    reveal_strlit("on // shadow");
    reveal_strlit("// shadow");
    let p = "on // shadow"@;
    if !on {
        let line = "        on // shadow"@;
        assert(line =~= Seq::new(8, |i: int| ' ') + p + Seq::<char>::empty());
        lemma_contains_middle(Seq::new(8, |i: int| ' '), p, Seq::<char>::empty());
        assert(line =~= line.take(11) + "// shadow"@ + Seq::<char>::empty());
        lemma_contains_middle(line.take(11), "// shadow"@, Seq::<char>::empty());
    } else {
        let line = "        off // shadow"@;
        assert(line =~= line.take(12) + "// shadow"@ + Seq::<char>::empty());
        lemma_contains_middle(line.take(12), "// shadow"@, Seq::<char>::empty());
        assert forall|i: int| 0 <= i <= line.len() implies !#[trigger] starts_with(line.skip(i), p) by {
            if i + p.len() <= line.len() {
                if i == 8 {
                    assert(line.skip(i)[1] == 'f');
                } else {
                    assert(line.skip(i)[0] != 'o');
                }
            }
        }
    }
}

/// The line a layout switch writes when it is turned on holds the text by
/// which it is read back and by which turning it off removes it.
pub proof fn law_layout_switch_refindable(o: LayoutOption)
    ensures
        contains(option_line(o), option_key(o)),
{
    reveal_strlit("    center-focused-column \"always\"");
    reveal_strlit("    always-center-single-column");
    reveal_strlit("    empty-workspace-above-first");
    reveal_strlit("center-focused-column");
    reveal_strlit("always-center-single-column");
    reveal_strlit("empty-workspace-above-first");
    let line = option_line(o);
    let key = option_key(o);
    let end = line.skip(4 + key.len() as int);
    assert(line =~= line.take(4) + key + end);
    lemma_contains_middle(line.take(4), key, end);
}

/// `p` occurs nowhere in `s`, since at every place where it would fit one
/// of its first two characters differs.
proof fn lemma_absent(s: Seq<char>, p: Seq<char>)
    requires
        p.len() >= 2,
        forall|i: int| 0 <= i && i + p.len() <= s.len() ==> #[trigger] s[i] != p[0] || s[i + 1] != p[1],
    ensures
        !contains(s, p),
{
    assert forall|i: int| 0 <= i <= s.len() implies !#[trigger] starts_with(s.skip(i), p) by {
        if i + p.len() <= s.len() {
            assert(s.skip(i)[0] == s[i]);
            assert(s.skip(i)[1] == s[i + 1]);
        }
    }
}

/// Each layout switch writes and removes a line of its own: the line one
/// switch writes holds the text by which another switch finds its line only
/// when they are the same switch, so no switch ever reads or removes the
/// line of another. The text of each is the name of its niri option.
pub proof fn law_layout_switches_apart(a: LayoutOption, b: LayoutOption)
    ensures
        contains(option_line(b), option_key(a)) <==> a == b,
        option_key(a) == option_key(b) ==> a == b,
        option_key(LayoutOption::CenterFocusedColumn) == "center-focused-column"@,
        option_key(LayoutOption::CenterSingleColumn) == "always-center-single-column"@,
        option_key(LayoutOption::EmptyWorkspaceAbove) == "empty-workspace-above-first"@,
{
    reveal_strlit("    center-focused-column \"always\"");
    reveal_strlit("    always-center-single-column");
    reveal_strlit("    empty-workspace-above-first");
    reveal_strlit("center-focused-column");
    reveal_strlit("always-center-single-column");
    reveal_strlit("empty-workspace-above-first");
    law_layout_switch_refindable(a);
    law_layout_switch_refindable(b);
    if a != b {
        let line = option_line(b);
        let key = option_key(a);
        assert forall|i: int| 0 <= i && i + key.len() <= line.len() implies #[trigger] line[i] != key[0]
            || line[i + 1] != key[1] by {
            if i == 5 {
                assert(line[i + 1] != key[1]);
            } else {
                assert(line[i] != key[0]);
            }
        }
        lemma_absent(line, key);
    }
}

/// A number field whose line starts with an indentation, the setting name
/// it is found by and a space, can be saved again: the saved line holds the
/// name.
pub proof fn law_number_update_refindable(indent: Seq<char>, key: Seq<char>, input: Seq<char>)
    ensures
        refindable(EditView::Update(
            Some("niri/config.kdl"@),
            key,
            indent + key + " "@ + number_input_spec(input).1,
        )),
{
    let t = number_input_spec(input).1;
    assert(indent + key + " "@ + t =~= indent + key + (" "@ + t));
    lemma_contains_middle(indent, key, " "@ + t);
}

} // verus!
