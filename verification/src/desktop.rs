//! The desktop settings: where the screens stand and what mode, scale and
//! transform they use, and the columns of the dashboard.

use vstd::prelude::*;
use crate::edits::{ConfigEdit, EditView, edit_views, refindable};
use crate::numbers::{
    decimal, format_i32, law_i32_reads_back, lemma_decimal_chars, is_digit, parse_i32, parse_usize,
    parsed_i32, parsed_usize,
};
use crate::text::is_space;
use crate::region::compositor_file;
use crate::text::{
    from_chars, has_substring, contains, string_views, push_all, push_str, replace_all, replace_chars, to_chars,
    trim, trim_chars, views, words, words_of, words_scan, trim_start, trim_end, starts_with,
    lemma_contains_middle, lemma_words_scan_blank, lemma_words_scan_word, lemma_words_scan_space, lemma_replace_absent,
};

verus! {

broadcast use vstd::string::group_string_axioms;

/// The transforms a screen can have.
pub fn transforms() -> (r: Vec<String>)
    ensures
        string_views(r@) == seq![
            "normal"@,
            "90"@,
            "180"@,
            "270"@,
            "flipped"@,
            "flipped-90"@,
            "flipped-180"@,
            "flipped-270"@,
        ],
{
    let r = vec![
        "normal".to_owned(),
        "90".to_owned(),
        "180".to_owned(),
        "270".to_owned(),
        "flipped".to_owned(),
        "flipped-90".to_owned(),
        "flipped-180".to_owned(),
        "flipped-270".to_owned(),
    ];
    proof {
        assert(string_views(r@) =~= seq![
            "normal"@,
            "90"@,
            "180"@,
            "270"@,
            "flipped"@,
            "flipped-90"@,
            "flipped-180"@,
            "flipped-270"@,
        ]);
    }
    r
}

/// Whether the transform option `option` is shown as the one a screen has.
pub fn transform_selected(current: &str, option: &str) -> (b: bool)
    ensures
        b == contains(current@, option@),
{
    has_substring(&to_chars(current), option)
}

/// Where a screen stands.
#[derive(Debug, Clone, PartialEq, Eq)]
pub struct ScreenPosition {
    pub id: String,
    pub x: i32,
    pub y: i32,
}

/// The marker that ends the compositor line of a setting of a screen.
pub open spec fn screen_marker(setting: Seq<char>, id: Seq<char>) -> Seq<char> {
    "// "@ + setting + " "@ + id
}

/// The compositor line that puts screen `id` at `x`, `y`.
pub open spec fn position_line(id: Seq<char>, x: int, y: int) -> Seq<char> {
    "    position x="@ + decimal(x) + " y="@ + decimal(y) + " "@ + screen_marker("position"@, id)
}

/// The edit that puts screen `id` at `x`, `y`.
pub open spec fn position_edit_spec(id: Seq<char>, x: int, y: int) -> EditView {
    EditView::Update(Some("niri/config.kdl"@), screen_marker("position"@, id), position_line(id, x, y))
}

fn marker(setting: &str, id: &str) -> (r: Vec<char>)
    ensures
        r@ == screen_marker(setting@, id@),
{
    let mut v = to_chars("// ");
    push_str(&mut v, setting);
    push_str(&mut v, " ");
    push_str(&mut v, id);
    v
}

/// The edit that puts screen `id` at `x`, `y`.
pub fn position_edit(id: &str, x: i32, y: i32) -> (e: ConfigEdit)
    ensures
        e@ == position_edit_spec(id@, x as int, y as int),
{
    let m = marker("position", id);
    let mut v = to_chars("    position x=");
    push_all(&mut v, &format_i32(x));
    push_str(&mut v, " y=");
    push_all(&mut v, &format_i32(y));
    push_str(&mut v, " ");
    push_all(&mut v, &m);
    ConfigEdit::Update { file: Some(compositor_file()), pattern: from_chars(&m), line: from_chars(&v) }
}

/// The views of a sequence of screen positions.
pub open spec fn position_views(v: Seq<ScreenPosition>) -> Seq<(Seq<char>, int, int)> {
    v.map_values(|p: ScreenPosition| (p.id@, p.x as int, p.y as int))
}

/// The edits made when the screen `dragged` is let go: for every screen in
/// order, the position line of `dragged` is set to that screen's place.
pub open spec fn release_edits_spec(screens: Seq<(Seq<char>, int, int)>, dragged: Seq<char>) -> Seq<
    EditView,
> {
    Seq::new(screens.len(), |i: int| position_edit_spec(dragged, screens[i].1, screens[i].2))
}

/// The edits made when the screen `dragged` is let go.
pub fn release_edits(screens: &Vec<ScreenPosition>, dragged: &str) -> (r: Vec<ConfigEdit>)
    ensures
        edit_views(r@) == release_edits_spec(position_views(screens@), dragged@),
{
    let mut r: Vec<ConfigEdit> = Vec::new();
    for i in 0..screens.len()
        invariant
            edit_views(r@) == release_edits_spec(position_views(screens@), dragged@).take(i as int),
    {
        let e = position_edit(dragged, screens[i].x, screens[i].y);
        let ghost before = edit_views(r@);
        let ghost ev = e@;
        r.push(e);
        proof {
            assert(edit_views(r@) =~= before.push(ev));
            assert(edit_views(r@) =~= release_edits_spec(position_views(screens@), dragged@).take(
                i + 1,
            ));
        }
    }
    proof {
        assert(release_edits_spec(position_views(screens@), dragged@).take(screens.len() as int)
            =~= release_edits_spec(position_views(screens@), dragged@));
    }
    r
}

/// How many of the screens are named `id`.
pub open spec fn count_named(screens: Seq<(Seq<char>, int, int)>, id: Seq<char>) -> nat
    decreases screens.len(),
{
    if screens.len() == 0 {
        0
    } else {
        count_named(screens.drop_last(), id) + if screens.last().0 == id { 1nat } else { 0nat }
    }
}

/// Moves every screen named `id` back to the origin, and gives the edits
/// that save it, one for each such screen in order.
pub fn reset_screen(screens: &mut Vec<ScreenPosition>, id: &str) -> (r: Vec<ConfigEdit>)
    ensures
        final(screens)@.len() == old(screens)@.len(),
        forall|i: int|
            0 <= i < old(screens)@.len() ==> #[trigger] position_views(final(screens)@)[i] == (if old(
                screens,
            )@[i].id@ == id@ {
                (id@, 0int, 0int)
            } else {
                position_views(old(screens)@)[i]
            }),
        edit_views(r@) == Seq::new(
            count_named(position_views(old(screens)@), id@),
            |i: int| position_edit_spec(id@, 0, 0),
        ),
{
    let ghost start = position_views(screens@);
    let mut r: Vec<ConfigEdit> = Vec::new();
    let idv = id.to_owned();
    let mut i: usize = 0;
    proof {
        assert(start.take(0) =~= Seq::<(Seq<char>, int, int)>::empty());
        assert(edit_views(r@) =~= Seq::new(0, |k: int| position_edit_spec(id@, 0, 0)));
    }
    while i < screens.len()
        invariant
            i <= screens@.len(),
            screens@.len() == start.len(),
            idv@ == id@,
            forall|k: int| 0 <= k < screens@.len() ==> #[trigger] position_views(screens@)[k] == (
            if k < i && start[k].0 == id@ {
                (id@, 0int, 0int)
            } else {
                start[k]
            }),
            edit_views(r@) == Seq::new(
                count_named(start.take(i as int), id@),
                |k: int| position_edit_spec(id@, 0, 0),
            ),
        decreases screens@.len() - i,
    {
        proof {
            assert(start.take(i + 1).drop_last() =~= start.take(i as int));
            assert(start.take(i + 1) =~= start.take(i as int).push(start[i as int]));
            assert(position_views(screens@)[i as int] == start[i as int]);
        }
        if screens[i].id == idv {
            let ghost before_s = screens@;
            screens.set(i, ScreenPosition { id: idv.clone(), x: 0, y: 0 });
            let e = position_edit(id, 0, 0);
            let ghost before = edit_views(r@);
            let ghost ev = e@;
            r.push(e);
            proof {
                assert(start[i as int].0 == id@);
                assert(start.take(i + 1).last() == start[i as int]);
                assert(count_named(start.take(i + 1), id@) == count_named(start.take(i as int), id@) + 1);
                assert(edit_views(r@) =~= before.push(ev));
                assert(edit_views(r@) =~= Seq::new(
                    count_named(start.take(i + 1), id@),
                    |k: int| position_edit_spec(id@, 0, 0),
                ));
                assert forall|k: int| 0 <= k < screens@.len() implies #[trigger] position_views(
                    screens@,
                )[k] == (if k < i + 1 && start[k].0 == id@ {
                    (id@, 0int, 0int)
                } else {
                    start[k]
                }) by {
                    if k != i {
                        assert(screens@[k] == before_s[k]);
                        assert(position_views(before_s)[k] == position_views(screens@)[k]);
                    }
                }
            }
        } else {
            proof {
                assert(start[i as int].0 != id@);
                assert(start.take(i + 1).last() == start[i as int]);
                assert(edit_views(r@) =~= Seq::new(
                    count_named(start.take(i + 1), id@),
                    |k: int| position_edit_spec(id@, 0, 0),
                ));
            }
        }
        i += 1;
    }
    proof { assert(start.take(screens@.len() as int) =~= start); }
    r
}

/// The edit that gives screen `id` the mode `mode`.
pub fn mode_edit(id: &str, mode: &str) -> (e: ConfigEdit)
    ensures
        e@ == EditView::Update(
            Some("niri/config.kdl"@),
            screen_marker("mode"@, id@),
            "    mode \""@ + mode@ + "\" "@ + screen_marker("mode"@, id@),
        ),
{
    let m = marker("mode", id);
    let mut v = to_chars("    mode \"");
    push_str(&mut v, mode);
    push_str(&mut v, "\" ");
    push_all(&mut v, &m);
    ConfigEdit::Update { file: Some(compositor_file()), pattern: from_chars(&m), line: from_chars(&v) }
}

/// The edit that gives screen `id` the scale written `scale`.
pub fn scale_edit(id: &str, scale: &str) -> (e: ConfigEdit)
    ensures
        e@ == EditView::Update(
            Some("niri/config.kdl"@),
            screen_marker("scale"@, id@),
            "    scale "@ + scale@ + " "@ + screen_marker("scale"@, id@),
        ),
{
    let m = marker("scale", id);
    let mut v = to_chars("    scale ");
    push_str(&mut v, scale);
    push_str(&mut v, " ");
    push_all(&mut v, &m);
    ConfigEdit::Update { file: Some(compositor_file()), pattern: from_chars(&m), line: from_chars(&v) }
}

/// The edit that gives screen `id` the transform `transform`.
pub fn transform_edit(id: &str, transform: &str) -> (e: ConfigEdit)
    ensures
        e@ == EditView::Update(
            Some("niri/config.kdl"@),
            screen_marker("transform"@, id@),
            "    transform \""@ + transform@ + "\" "@ + screen_marker("transform"@, id@),
        ),
{
    let m = marker("transform", id);
    let mut v = to_chars("    transform \"");
    push_str(&mut v, transform);
    push_str(&mut v, "\" ");
    push_all(&mut v, &m);
    ConfigEdit::Update { file: Some(compositor_file()), pattern: from_chars(&m), line: from_chars(&v) }
}

/// A setting of a screen chosen from a list: its mode or its transform.
#[derive(Debug, Clone, Copy, PartialEq, Eq)]
pub enum ScreenChoice {
    Mode,
    Transform,
}

/// The edit that gives screen `id` the value `value` of the setting `c`.
pub open spec fn choice_edit_spec(c: ScreenChoice, id: Seq<char>, value: Seq<char>) -> EditView {
    match c {
        ScreenChoice::Mode => EditView::Update(
            Some("niri/config.kdl"@),
            screen_marker("mode"@, id),
            "    mode \""@ + value + "\" "@ + screen_marker("mode"@, id),
        ),
        ScreenChoice::Transform => EditView::Update(
            Some("niri/config.kdl"@),
            screen_marker("transform"@, id),
            "    transform \""@ + value + "\" "@ + screen_marker("transform"@, id),
        ),
    }
}

/// A screen and the value it has of a chosen setting.
#[derive(Debug, Clone, PartialEq, Eq)]
pub struct ScreenValue {
    pub id: String,
    pub value: String,
}

/// The views of a sequence of screen values.
pub open spec fn value_views(v: Seq<ScreenValue>) -> Seq<(Seq<char>, Seq<char>)> {
    v.map_values(|s: ScreenValue| (s.id@, s.value@))
}

/// How many of the screens are named `id`.
pub open spec fn count_with_id(screens: Seq<(Seq<char>, Seq<char>)>, id: Seq<char>) -> nat
    decreases screens.len(),
{
    if screens.len() == 0 {
        0
    } else {
        count_with_id(screens.drop_last(), id) + if screens.last().0 == id { 1nat } else { 0nat }
    }
}

/// Gives every screen named `id` the value `value` of the setting `c`, and
/// gives the edits that save it, one for each such screen in order.
pub fn choose_screen_value(screens: &mut Vec<ScreenValue>, c: ScreenChoice, id: &str, value: &str) -> (r: Vec<
    ConfigEdit,
>)
    ensures
        final(screens)@.len() == old(screens)@.len(),
        forall|i: int|
            0 <= i < old(screens)@.len() ==> #[trigger] value_views(final(screens)@)[i] == (if old(
                screens,
            )@[i].id@ == id@ {
                (id@, value@)
            } else {
                value_views(old(screens)@)[i]
            }),
        edit_views(r@) == Seq::new(
            count_with_id(value_views(old(screens)@), id@),
            |i: int| choice_edit_spec(c, id@, value@),
        ),
{
    let ghost start = value_views(screens@);
    let mut r: Vec<ConfigEdit> = Vec::new();
    let idv = id.to_owned();
    let mut i: usize = 0;
    proof {
        assert(start.take(0) =~= Seq::<(Seq<char>, Seq<char>)>::empty());
        assert(edit_views(r@) =~= Seq::new(0, |k: int| choice_edit_spec(c, id@, value@)));
    }
    while i < screens.len()
        invariant
            i <= screens@.len(),
            screens@.len() == start.len(),
            idv@ == id@,
            forall|k: int| 0 <= k < screens@.len() ==> #[trigger] value_views(screens@)[k] == (
            if k < i && start[k].0 == id@ {
                (id@, value@)
            } else {
                start[k]
            }),
            edit_views(r@) == Seq::new(
                count_with_id(start.take(i as int), id@),
                |k: int| choice_edit_spec(c, id@, value@),
            ),
        decreases screens@.len() - i,
    {
        proof {
            assert(start.take(i + 1).drop_last() =~= start.take(i as int));
            assert(value_views(screens@)[i as int] == start[i as int]);
        }
        if screens[i].id == idv {
            let ghost before_s = screens@;
            screens.set(i, ScreenValue { id: idv.clone(), value: value.to_owned() });
            let e = match c {
                ScreenChoice::Mode => mode_edit(id, value),
                ScreenChoice::Transform => transform_edit(id, value),
            };
            let ghost before = edit_views(r@);
            let ghost ev = e@;
            r.push(e);
            proof {
                assert(start[i as int].0 == id@);
                assert(start.take(i + 1).last() == start[i as int]);
                assert(count_with_id(start.take(i + 1), id@) == count_with_id(start.take(i as int), id@) + 1);
                assert(edit_views(r@) =~= before.push(ev));
                assert(edit_views(r@) =~= Seq::new(
                    count_with_id(start.take(i + 1), id@),
                    |k: int| choice_edit_spec(c, id@, value@),
                ));
                assert forall|k: int| 0 <= k < screens@.len() implies #[trigger] value_views(
                    screens@,
                )[k] == (if k < i + 1 && start[k].0 == id@ {
                    (id@, value@)
                } else {
                    start[k]
                }) by {
                    if k != i {
                        assert(screens@[k] == before_s[k]);
                        assert(value_views(before_s)[k] == value_views(screens@)[k]);
                    }
                }
            }
        } else {
            proof {
                assert(start[i as int].0 != id@);
                assert(start.take(i + 1).last() == start[i as int]);
                assert(edit_views(r@) =~= Seq::new(
                    count_with_id(start.take(i + 1), id@),
                    |k: int| choice_edit_spec(c, id@, value@),
                ));
            }
        }
        i += 1;
    }
    proof { assert(start.take(screens@.len() as int) =~= start); }
    r
}

/// The number of rows of each dashboard column, read from the words after
/// `dashboard` on its line; a word that is no number counts as one row.
pub open spec fn columns_of_line(line: Seq<char>) -> Seq<i32> {
    let ws = words(replace_all(trim(line), "dashboard"@, Seq::<char>::empty()));
    Seq::new(
        ws.len(),
        |i: int|
            match parsed_i32(ws[i]) {
                Some(v) => v,
                None => 1i32,
            },
    )
}

/// The dashboard columns the configuration holds: none when it has no
/// dashboard line.
pub fn dashboard_columns(conf: &Vec<String>) -> (r: Vec<i32>)
    ensures
        r@ == (if conf@.len() == 0 {
            Seq::<i32>::empty()
        } else {
            columns_of_line(conf@[0]@)
        }),
{
    let mut r: Vec<i32> = Vec::new();
    if conf.len() == 0 {
        return r;
    }
    let line = to_chars(conf[0].as_str());
    let t = trim_chars(&line);
    let p = to_chars("dashboard");
    proof {
        reveal_strlit("dashboard");
    }
    let empty: Vec<char> = Vec::new();
    let stripped = replace_chars(&t, &p, &empty);
    let ws = words_of(&stripped);
    let ghost want = columns_of_line(conf@[0]@);
    for i in 0..ws.len()
        invariant
            views(ws@) == words(replace_all(trim(conf@[0]@), "dashboard"@, Seq::<char>::empty())),
            want == columns_of_line(conf@[0]@),
            r@ == want.take(i as int),
    {
        let v = match parse_i32(&ws[i]) {
            Some(v) => v,
            None => 1,
        };
        proof { assert(ws@[i as int]@ == views(ws@)[i as int]); }
        r.push(v);
        proof { assert(r@ =~= want.take(i + 1)); }
    }
    proof { assert(want.take(ws.len() as int) =~= want); }
    r
}

/// The column counts written with a space between them (`join(" ")`).
pub open spec fn spaced(cols: Seq<i32>) -> Seq<char>
    decreases cols.len(),
{
    if cols.len() == 0 {
        Seq::<char>::empty()
    } else if cols.len() == 1 {
        decimal(cols[0] as int)
    } else {
        spaced(cols.drop_last()) + " "@ + decimal(cols.last() as int)
    }
}

/// The dashboard line that holds the columns `cols`.
pub open spec fn dashboard_line_spec(cols: Seq<i32>) -> Seq<char> {
    "dashboard "@ + spaced(cols)
}

/// The dashboard line for the columns `cols`.
pub fn dashboard_line(cols: &Vec<i32>) -> (r: String)
    ensures
        r@ == dashboard_line_spec(cols@),
{
    let mut v: Vec<char> = Vec::new();
    for i in 0..cols.len()
        invariant
            v@ == spaced(cols@.take(i as int)),
    {
        proof { assert(cols@.take(i + 1).drop_last() =~= cols@.take(i as int)); }
        if i > 0 {
            push_str(&mut v, " ");
        }
        push_all(&mut v, &format_i32(cols[i]));
        proof {
            if i == 0 {
                assert(v@ =~= spaced(cols@.take(1)));
            } else {
                assert(v@ =~= spaced(cols@.take(i + 1)));
            }
        }
    }
    proof { assert(cols@.take(cols.len() as int) =~= cols@); }
    let mut line = to_chars("dashboard ");
    push_all(&mut line, &v);
    from_chars(&line)
}

/// The columns after asking for `count` of them: the last ones dropped, or
/// new columns of one row added; nothing changes when the number asked for
/// is above five (what is not a number asks for none).
pub open spec fn resized_columns(cols: Seq<i32>, count: Seq<char>) -> Option<Seq<i32>> {
    let n: int = match parsed_usize(count) {
        Some(v) => v as int,
        None => 0,
    };
    if n > 5 {
        None
    } else if cols.len() < n {
        Some(cols + Seq::new((n - cols.len()) as nat, |i: int| 1i32))
    } else {
        Some(cols.take(n))
    }
}

/// The columns after asking for `count` of them.
pub fn resize_columns(cols: &Vec<i32>, count: &str) -> (r: Option<Vec<i32>>)
    ensures
        match r {
            Some(v) => resized_columns(cols@, count@) == Some(v@),
            None => resized_columns(cols@, count@) is None,
        },
{
    let n: usize = match parse_usize(&to_chars(count)) {
        Some(v) => v,
        None => 0,
    };
    if n > 5 {
        return None;
    }
    let mut v = cols.clone();
    proof { assert(v@ =~= cols@); }
    if v.len() < n {
        while v.len() < n
            invariant
                n <= 5,
                cols@.len() <= v@.len() <= n,
                v@ == cols@ + Seq::new((v@.len() - cols@.len()) as nat, |i: int| 1i32),
            decreases n - v.len(),
        {
            v.push(1);
            proof {
                assert(v@ =~= cols@ + Seq::new((v@.len() - cols@.len()) as nat, |i: int| 1i32));
            }
        }
    } else {
        v.truncate(n);
        proof { assert(v@ =~= cols@.take(n as int)); }
    }
    Some(v)
}

/// The columns after column `i` is given the rows written `rows`; nothing
/// changes when that is above five (what is not a number gives none).
pub open spec fn set_column_spec(cols: Seq<i32>, i: int, rows: Seq<char>) -> Option<Seq<i32>> {
    let n: i32 = match parsed_i32(rows) {
        Some(v) => v,
        None => 0i32,
    };
    if n > 5 {
        None
    } else {
        Some(cols.update(i, n))
    }
}

/// The columns after column `i` is given `rows` rows.
pub fn set_column(cols: &Vec<i32>, i: usize, rows: &str) -> (r: Option<Vec<i32>>)
    requires
        i < cols@.len(),
    ensures
        match r {
            Some(v) => set_column_spec(cols@, i as int, rows@) == Some(v@),
            None => set_column_spec(cols@, i as int, rows@) is None,
        },
{
    let n: i32 = match parse_i32(&to_chars(rows)) {
        Some(v) => v,
        None => 0,
    };
    if n > 5 {
        return None;
    }
    let mut v = cols.clone();
    proof { assert(v@ =~= cols@); }
    v.set(i, n);
    Some(v)
}

/// The edit that saves the dashboard columns, made only when the
/// configuration has a dashboard line.
pub fn columns_edit(dashboard_on: bool, cols: &Vec<i32>) -> (r: Option<ConfigEdit>)
    ensures
        match r {
            Some(e) => dashboard_on && e@ == EditView::Update(None, "dashboard"@, dashboard_line_spec(cols@)),
            None => !dashboard_on,
        },
{
    if dashboard_on {
        Some(ConfigEdit::Update { file: None, pattern: "dashboard".to_owned(), line: dashboard_line(cols) })
    } else {
        None
    }
}

/// The dashboard switch: it turns on when the configuration has no dashboard
/// line, writing one with the columns; otherwise it turns off and the line
/// is removed.
pub fn dashboard_toggle(line_absent: bool, cols: &Vec<i32>) -> (r: (bool, ConfigEdit))
    ensures
        r.0 == line_absent,
        line_absent ==> r.1@ == EditView::Write(None, Seq::<char>::empty(), dashboard_line_spec(cols@)),
        !line_absent ==> r.1@ == EditView::Remove(None, "dashboard"@),
{
    if line_absent {
        (true, ConfigEdit::Write { file: None, anchor: String::new(), line: dashboard_line(cols) })
    } else {
        (false, ConfigEdit::Remove { file: None, pattern: "dashboard".to_owned() })
    }
}

/// The written column counts.
pub open spec fn written_columns(cols: Seq<i32>) -> Seq<Seq<char>> {
    Seq::new(cols.len(), |i: int| decimal(cols[i] as int))
}

proof fn lemma_decimal_not_space(n: int)
    ensures
        forall|k: int| 0 <= k < decimal(n).len() ==> !is_space(#[trigger] decimal(n)[k]) && decimal(
            n,
        )[k] != 'd',
        decimal(n).len() > 0,
        !is_space(decimal(n).last()),
{
    lemma_decimal_chars(n);
    assert forall|k: int| 0 <= k < decimal(n).len() implies !is_space(#[trigger] decimal(n)[k])
        && decimal(n)[k] != 'd' by {
        assert(is_digit(decimal(n)[k]) || decimal(n)[k] == '-');
    }
}

proof fn lemma_spaced_chars(cols: Seq<i32>)
    ensures
        forall|k: int| 0 <= k < spaced(cols).len() ==> #[trigger] spaced(cols)[k] != 'd',
        cols.len() > 0 ==> spaced(cols).len() > 0 && !is_space(spaced(cols).last()),
    decreases cols.len(),
{
    reveal_strlit(" ");
    if cols.len() == 1 {
        lemma_decimal_not_space(cols[0] as int);
    } else if cols.len() > 1 {
        lemma_spaced_chars(cols.drop_last());
        lemma_decimal_not_space(cols.last() as int);
        let a = spaced(cols.drop_last());
        let b = decimal(cols.last() as int);
        assert forall|k: int| 0 <= k < spaced(cols).len() implies #[trigger] spaced(cols)[k] != 'd' by {
            if k < a.len() {
                assert(spaced(cols)[k] == a[k]);
            } else if k > a.len() {
                assert(spaced(cols)[k] == b[k - a.len() - 1]);
            }
        }
        assert(spaced(cols).last() == b.last());
    }
}

proof fn lemma_words_spaced(cols: Seq<i32>)
    requires
        cols.len() > 0,
    ensures
        words_scan(seq![' '] + spaced(cols)) == (
            written_columns(cols.drop_last()),
            decimal(cols.last() as int),
        ),
    decreases cols.len(),
{
    reveal_strlit(" ");
    assert(" "@ =~= seq![' ']);
    let last = decimal(cols.last() as int);
    lemma_decimal_not_space(cols.last() as int);
    if cols.len() == 1 {
        lemma_words_scan_blank(seq![' ']);
        lemma_words_scan_word(seq![' '], last);
        assert(written_columns(cols.drop_last()) =~= Seq::<Seq<char>>::empty());
        assert(Seq::<char>::empty() + last =~= last);
    } else {
        let init = cols.drop_last();
        lemma_words_spaced(init);
        lemma_decimal_not_space(init.last() as int);
        let x0 = seq![' '] + spaced(init);
        let x1 = x0.push(' ');
        lemma_words_scan_space(x0, ' ');
        assert(written_columns(init.drop_last()).push(decimal(init.last() as int)) =~= written_columns(
            init,
        ));
        lemma_words_scan_word(x1, last);
        assert(seq![' '] + spaced(cols) =~= x1 + last);
        assert(Seq::<char>::empty() + last =~= last);
    }
}

/// The dashboard line written for some columns reads back as those columns.
pub proof fn law_dashboard_reads_back(cols: Seq<i32>)
    ensures
        columns_of_line(dashboard_line_spec(cols)) == cols,
{
    reveal_strlit("dashboard ");
    reveal_strlit("dashboard");
    reveal_strlit(" ");
    let line = dashboard_line_spec(cols);
    let word = "dashboard"@;
    let rest = if cols.len() > 0 { seq![' '] + spaced(cols) } else { Seq::<char>::empty() };
    lemma_spaced_chars(cols);
    assert("dashboard "@ =~= word + seq![' ']);
    assert(!is_space(line[0]));
    assert(trim_start(line) == line);
    if cols.len() > 0 {
        assert(line =~= word + rest);
        assert(line.last() == spaced(cols).last());
        assert(trim_end(line) == line);
    } else {
        assert(spaced(cols) =~= Seq::<char>::empty());
        assert(line =~= word + seq![' ']);
        assert(line.drop_last() =~= word);
        assert(is_space(line.last()));
        assert(trim_end(word) == word);
        assert(trim_end(line) == word);
        assert(word + rest =~= word);
    }
    assert(trim(line) == word + rest);
    // Replacing `dashboard` leaves the counts.
    assert(starts_with(word + rest, word));
    assert((word + rest).skip(word.len() as int) =~= rest);
    assert forall|k: int| 0 <= k < rest.len() implies #[trigger] rest[k] != word[0] by {
        if k > 0 {
            assert(rest[k] == spaced(cols)[k - 1]);
        }
    }
    lemma_replace_absent(rest, word, Seq::<char>::empty());
    assert(replace_all(word + rest, word, Seq::<char>::empty()) == Seq::<char>::empty() + rest);
    assert(Seq::<char>::empty() + rest =~= rest);
    // The words are the written counts, which read back as the counts.
    let ws = words(rest);
    if cols.len() > 0 {
        lemma_words_spaced(cols);
        assert(ws =~= written_columns(cols));
    } else {
        assert(ws =~= Seq::<Seq<char>>::empty());
    }
    assert forall|i: int| 0 <= i < cols.len() implies parsed_i32(ws[i]) == Some(cols[i]) by {
        law_i32_reads_back(cols[i]);
    }
    assert(columns_of_line(line) =~= cols);
}

/// The lines written for a screen, and the dashboard line, hold what the
/// next update of the same setting looks for.
pub proof fn law_screen_updates_refindable(
    id: Seq<char>,
    x: int,
    y: int,
    mode: Seq<char>,
    scale: Seq<char>,
    transform: Seq<char>,
    cols: Seq<i32>,
)
    ensures
        refindable(position_edit_spec(id, x, y)),
        refindable(EditView::Update(
            Some("niri/config.kdl"@),
            screen_marker("mode"@, id),
            "    mode \""@ + mode + "\" "@ + screen_marker("mode"@, id),
        )),
        refindable(EditView::Update(
            Some("niri/config.kdl"@),
            screen_marker("scale"@, id),
            "    scale "@ + scale + " "@ + screen_marker("scale"@, id),
        )),
        refindable(EditView::Update(
            Some("niri/config.kdl"@),
            screen_marker("transform"@, id),
            "    transform \""@ + transform + "\" "@ + screen_marker("transform"@, id),
        )),
        refindable(EditView::Update(None, "dashboard"@, dashboard_line_spec(cols))),
{
    let e = Seq::<char>::empty();
    let pm = screen_marker("position"@, id);
    let pl = "    position x="@ + decimal(x) + " y="@ + decimal(y) + " "@;
    assert(position_line(id, x, y) =~= pl + pm + e);
    lemma_contains_middle(pl, pm, e);
    let mm = screen_marker("mode"@, id);
    let ml = "    mode \""@ + mode + "\" "@;
    assert(ml + mm =~= ml + mm + e);
    lemma_contains_middle(ml, mm, e);
    let sm = screen_marker("scale"@, id);
    let sl = "    scale "@ + scale + " "@;
    assert(sl + sm =~= sl + sm + e);
    lemma_contains_middle(sl, sm, e);
    let tm = screen_marker("transform"@, id);
    let tl = "    transform \""@ + transform + "\" "@;
    assert(tl + tm =~= tl + tm + e);
    lemma_contains_middle(tl, tm, e);
    reveal_strlit("dashboard ");
    reveal_strlit("dashboard");
    assert(dashboard_line_spec(cols) =~= e + "dashboard"@ + (seq![' '] + spaced(cols)));
    lemma_contains_middle(e, "dashboard"@, seq![' '] + spaced(cols));
}

} // verus!
