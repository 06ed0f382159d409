//! The region settings: time zone, system language and keyboard layout.

use vstd::prelude::*;
use crate::edits::{ConfigEdit, EditView, refindable};
use crate::std_calls::{
    language_name, lookup_language_name, lossy_text, to_uppercase, uppercase, utf8_lossy,
};
use crate::text::{
    byte_len_is_2_or_3, contains, contains_chars, starts_with, lemma_split_at_sep, lemma_contains_middle, from_chars, lines, lines_of, lit, opt_view, push_str, split,
    split_chars, starts_at, string_views, to_chars, to_strings, views, words, words_of,
    lemma_split_len,
};

verus! {

broadcast use vstd::string::group_string_axioms;

/// The text between the first and the second double quote of `line`, or
/// after the first one when there is no second (`split('"').nth(1)`).
pub open spec fn quoted(line: Seq<char>) -> Option<Seq<char>> {
    let ps = split(line, seq!['"']);
    if ps.len() > 1 {
        Some(ps[1])
    } else {
        None
    }
}

/// The quoted value of a configuration line, if it has one.
pub fn quoted_value(line: &str) -> (r: Option<String>)
    ensures
        opt_view(r) == quoted(line@),
{
    let s = to_chars(line);
    let q = vec!['"'];
    proof { assert(q@ =~= seq!['"']); }
    let ps = split_chars(&s, &q);
    if ps.len() > 1 {
        Some(from_chars(&ps[1]))
    } else {
        None
    }
}

/// The quoted value of `line`, or `default` when it has none.
pub fn quoted_or(line: &str, default: &str) -> (r: String)
    ensures
        r@ == (match quoted(line@) {
            Some(v) => v,
            None => default@,
        }),
{
    match quoted_value(line) {
        Some(v) => v,
        None => default.to_owned(),
    }
}

/// The value a setting has in the lines the configuration holds for it:
/// `if_missing` when there is no such line, else the quoted value of the
/// first one, or `if_unquoted` when it has none.
pub fn configured_value(conf: &Vec<String>, if_missing: &str, if_unquoted: &str) -> (r: String)
    ensures
        r@ == (if conf@.len() == 0 {
            if_missing@
        } else {
            match quoted(conf@[0]@) {
                Some(v) => v,
                None => if_unquoted@,
            }
        }),
{
    if conf.len() == 0 {
        if_missing.to_owned()
    } else {
        quoted_or(conf[0].as_str(), if_unquoted)
    }
}

/// The line `key "value"`.
pub open spec fn quoted_setting_spec(key: Seq<char>, value: Seq<char>) -> Seq<char> {
    key + seq![' ', '"'] + value + seq!['"']
}

/// The configuration line that sets `key` to `value`.
pub fn quoted_setting(key: &str, value: &str) -> (r: String)
    ensures
        r@ == quoted_setting_spec(key@, value@),
{
    let mut v = to_chars(key);
    v.push(' ');
    v.push('"');
    push_str(&mut v, value);
    v.push('"');
    proof { assert(v@ =~= quoted_setting_spec(key@, value@)); }
    from_chars(&v)
}

/// A setting written by `quoted_setting` reads back as the value it was
/// given, when neither the key nor the value holds a double quote.
pub proof fn law_setting_reads_back(key: Seq<char>, value: Seq<char>)
    requires
        !key.contains('"'),
        !value.contains('"'),
    ensures
        quoted(quoted_setting_spec(key, value)) == Some(value),
{
    let k1 = key + seq![' '];
    assert(!k1.contains('"')) by {
        if k1.contains('"') {
            let i = choose|i: int| 0 <= i < k1.len() && k1[i] == '"';
            if i < key.len() {
                assert(key[i] == '"');
            }
        }
    }
    let line = quoted_setting_spec(key, value);
    assert(line =~= k1 + seq!['"'] + (value + seq!['"'] + Seq::<char>::empty()));
    lemma_split_at_sep(k1, value + seq!['"'] + Seq::<char>::empty(), '"');
    lemma_split_at_sep(value, Seq::<char>::empty(), '"');
    lemma_split_len(Seq::<char>::empty(), seq!['"']);
}

/// The keyboard layout written by `layout_edit` reads back, as the quoted
/// value of its line, as the layout chosen, when that holds no double quote.
pub proof fn law_layout_reads_back(value: Seq<char>)
    requires
        !value.contains('"'),
    ensures
        quoted("             layout \""@ + value + seq!['"']) == Some(value),
{
    reveal_strlit("             layout \"");
    let head = "             layout \""@.drop_last();
    assert(!head.contains('"')) by {
        if head.contains('"') {
            let k = choose|k: int| 0 <= k < head.len() && head[k] == '"';
            assert("             layout \""@[k] == '"');
        }
    }
    let rest = value + seq!['"'] + Seq::<char>::empty();
    assert("             layout \""@ + value + seq!['"'] =~= head + seq!['"'] + rest);
    lemma_split_at_sep(head, rest, '"');
    lemma_split_at_sep(value, Seq::<char>::empty(), '"');
    lemma_split_len(Seq::<char>::empty(), seq!['"']);
}

/// How a setting of the panel's own file is saved: written as a new line
/// when the file holds none for `key`, else the existing line is replaced.
pub open spec fn setting_edit_spec(absent: bool, key: Seq<char>, value: Seq<char>) -> EditView {
    if absent {
        EditView::Write(None, Seq::<char>::empty(), quoted_setting_spec(key, value))
    } else {
        EditView::Update(None, key, quoted_setting_spec(key, value))
    }
}

/// The edit that saves `key = value`, given the lines the file holds for `key`.
pub fn setting_edit(existing: &Vec<String>, key: &str, value: &str) -> (e: ConfigEdit)
    ensures
        e@ == setting_edit_spec(existing@.len() == 0, key@, value@),
{
    let line = quoted_setting(key, value);
    if existing.len() == 0 {
        ConfigEdit::Write { file: None, anchor: String::new(), line }
    } else {
        ConfigEdit::Update { file: None, pattern: key.to_owned(), line }
    }
}

/// The file of the compositor settings.
pub fn compositor_file() -> (r: String)
    ensures
        r@ == "niri/config.kdl"@,
{
    "niri/config.kdl".to_owned()
}

/// The edit that sets the keyboard layout in the compositor settings.
pub fn layout_edit(value: &str) -> (e: ConfigEdit)
    ensures
        e@ == EditView::Update(
            Some("niri/config.kdl"@),
            "layout \""@,
            "             layout \""@ + value@ + seq!['"'],
        ),
{
    let mut v = to_chars("             layout \"");
    push_str(&mut v, value);
    v.push('"');
    proof { assert(v@ =~= "             layout \""@ + value@ + seq!['"']); }
    ConfigEdit::Update {
        file: Some(compositor_file()),
        pattern: "layout \"".to_owned(),
        line: from_chars(&v),
    }
}

/// The locale id of a line of the list of supported locales: its first
/// word, `en_US.UTF-8` when it has none.
pub fn locale_id(selection: &str) -> (r: String)
    ensures
        r@ == (if words(selection@).len() > 0 {
            words(selection@)[0]
        } else {
            "en_US.UTF-8"@
        }),
{
    let s = to_chars(selection);
    let ws = words_of(&s);
    if ws.len() > 0 {
        from_chars(&ws[0])
    } else {
        "en_US.UTF-8".to_owned()
    }
}

/// The shell command that makes `selection` the generated locale beside
/// `en_US.UTF-8 UTF-8`.
pub fn locale_gen_script(selection: &str) -> (r: String)
    ensures
        r@ == "echo -e 'en_US.UTF-8 UTF-8\n"@ + selection@ + "' | sudo tee /etc/locale.gen"@,
{
    let mut v = to_chars("echo -e 'en_US.UTF-8 UTF-8\n");
    push_str(&mut v, selection);
    push_str(&mut v, "' | sudo tee /etc/locale.gen");
    from_chars(&v)
}

/// The `LANG=` assignment for a locale id.
pub fn lang_assignment(id: &str) -> (r: String)
    ensures
        r@ == "LANG="@ + id@,
{
    let mut v = to_chars("LANG=");
    push_str(&mut v, id);
    from_chars(&v)
}

/// The language code and the country code of a supported-locale line, or
/// nothing for the lines the language list leaves out: those with an `@`,
/// those without `.UTF-8`, `C.UTF-8` itself, and those whose language code
/// is not two or three bytes long.
pub open spec fn locale_parts(entry: Seq<char>) -> Option<(Seq<char>, Seq<char>)> {
    if contains(entry, seq!['@']) || !contains(entry, ".UTF-8"@) || entry == "C.UTF-8"@ {
        None
    } else {
        let ps = split(entry, seq!['_']);
        let lang = ps[0];
        let country = if ps.len() > 1 {
            split(ps[1], seq!['.'])[0]
        } else {
            Seq::<char>::empty()
        };
        let n = vstd::utf8::encode_utf8(lang).len();
        if n == 2 || n == 3 {
            Some((lang, country))
        } else {
            None
        }
    }
}

/// The language and country codes of a supported-locale line.
pub fn locale_parts_of(entry: &str) -> (r: Option<(String, String)>)
    ensures
        match r {
            Some((l, c)) => locale_parts(entry@) == Some((l@, c@)),
            None => locale_parts(entry@) is None,
        },
{
    let s = to_chars(entry);
    let at = vec!['@'];
    let utf8 = lit(".UTF-8");
    let c_utf8 = lit("C.UTF-8");
    proof { assert(at@ =~= seq!['@']); }
    let is_c = s.len() == c_utf8.len() && starts_at(&s, &c_utf8, 0);
    proof {
        assert(s@.skip(0) =~= s@);
        if is_c {
            assert(s@ =~= c_utf8@);
        }
    }
    if contains_chars(&s, &at) || !contains_chars(&s, &utf8) || is_c {
        return None;
    }
    proof {
        assert(!contains(s@, seq!['@']));
        assert(contains(s@, ".UTF-8"@));
        if s@ == "C.UTF-8"@ {
            assert(s.len() == c_utf8.len());
            assert(starts_with(s@.skip(0), c_utf8@));
        }
        assert(s@ != "C.UTF-8"@);
    }
    let us = vec!['_'];
    let dot = vec!['.'];
    proof {
        assert(us@ =~= seq!['_']);
        assert(dot@ =~= seq!['.']);
        lemma_split_len(s@, us@);
    }
    let ps = split_chars(&s, &us);
    let lang = from_chars(&ps[0]);
    let country = if ps.len() > 1 {
        let cs = split_chars(&ps[1], &dot);
        proof { lemma_split_len(ps[1]@, dot@); }
        from_chars(&cs[0])
    } else {
        String::new()
    };
    proof {
        assert(lang@ == split(s@, seq!['_'])[0]);
        if ps.len() > 1 {
            assert(ps[1]@ == split(s@, seq!['_'])[1]);
        }
        assert(country@ == (if split(s@, seq!['_']).len() > 1 {
            split(split(s@, seq!['_'])[1], seq!['.'])[0]
        } else {
            Seq::<char>::empty()
        }));
    }
    if byte_len_is_2_or_3(&ps[0]) {
        Some((lang, country))
    } else {
        None
    }
}

/// The label of a language in the language list: its name, followed by the
/// country code in brackets when there is one.
pub open spec fn language_label_spec(name: Seq<char>, country: Seq<char>) -> Seq<char> {
    if country.len() > 0 {
        name + seq![' ', '('] + country + seq![')']
    } else {
        name
    }
}

/// The label of a language, given its name and country code.
pub fn language_label(name: &str, country: &str) -> (r: String)
    ensures
        r@ == language_label_spec(name@, country@),
{
    let mut v = to_chars(name);
    if !country.is_empty() {
        v.push(' ');
        v.push('(');
        push_str(&mut v, country);
        v.push(')');
    }
    proof {
        if country@.len() > 0 {
            assert(v@ =~= language_label_spec(name@, country@));
        }
    }
    from_chars(&v)
}

/// The name shown for a language code: its ISO 639 reference name, or the
/// code in upper case when the table does not know it.
pub open spec fn language_display_name(code: Seq<char>) -> Seq<char> {
    match language_name(code) {
        Some(n) => n,
        None => uppercase(code),
    }
}

/// The label shown for a supported-locale line, or nothing for the lines
/// that the language list leaves out.
pub fn language_option(entry: &str) -> (r: Option<String>)
    ensures
        opt_view(r) == (match locale_parts(entry@) {
            Some((l, c)) => Some(language_label_spec(language_display_name(l), c)),
            None => None,
        }),
{
    match locale_parts_of(entry) {
        None => None,
        Some((lang, country)) => {
            let name = match lookup_language_name(lang.as_str()) {
                Some(n) => n,
                None => to_uppercase(lang.as_str()),
            };
            Some(language_label(name.as_str(), country.as_str()))
        },
    }
}

/// The lines of what a command printed, read as text the way
/// `String::from_utf8_lossy` reads it.
pub fn output_lines(stdout: &[u8]) -> (r: Vec<String>)
    ensures
        string_views(r@) == lines(lossy_text(stdout@)),
        vstd::utf8::valid_utf8(stdout@) ==> string_views(r@) == lines(vstd::utf8::decode_utf8(stdout@)),
{
    let text = utf8_lossy(stdout);
    let cs = to_chars(text.as_str());
    let ls = lines_of(&cs);
    let r = to_strings(&ls);
    proof { assert(string_views(r@) =~= views(ls@)); }
    r
}

/// A setting saved in the panel's file, and the keyboard layout, can be
/// saved again: their lines hold what the next update looks for.
pub proof fn law_region_updates_refindable(key: Seq<char>, value: Seq<char>)
    ensures
        refindable(setting_edit_spec(false, key, value)),
        refindable(EditView::Update(
            Some("niri/config.kdl"@),
            "layout \""@,
            "             layout \""@ + value + seq!['"'],
        )),
{
    reveal_strlit("             layout \"");
    reveal_strlit("layout \"");
    let e = Seq::<char>::empty();
    assert(quoted_setting_spec(key, value) =~= e + key + (seq![' ', '"'] + value + seq!['"']));
    lemma_contains_middle(e, key, seq![' ', '"'] + value + seq!['"']);
    let spaces = Seq::new(13, |i: int| ' ');
    assert("             layout \""@ =~= spaces + "layout \""@);
    assert("             layout \""@ + value + seq!['"'] =~= spaces + "layout \""@ + (value + seq!['"']));
    lemma_contains_middle(spaces, "layout \""@, value + seq!['"']);
}

} // verus!
