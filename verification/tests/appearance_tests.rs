use haremal_ctrl::appearance::{
    capitalize, cursor_display, cursor_size_from, cursor_size_input, cursor_theme_edits,
    cursor_trail_from, cursor_trail_toggle, font_edit, font_from_config, gsettings_value,
    icon_display, layout_toggle, number_input, number_setting, shader_block, shader_display,
    shader_edits, shader_from, shader_source_edits, shadow_toggle, sorted_families, split_themes,
    LayoutOption,
};
use haremal_ctrl::edits::ConfigEdit;

fn niri() -> Option<String> {
    Some("niri/config.kdl".to_string())
}

fn upd(file: Option<String>, pattern: &str, line: &str) -> ConfigEdit {
    ConfigEdit::Update { file, pattern: pattern.to_string(), line: line.to_string() }
}

#[test]
fn font_read_and_written() {
    let line = "<edit name=\"family\" mode=\"assign\" binding=\"strong\"><string>Noto Sans</string></edit>";
    assert_eq!(font_from_config(line), "Noto Sans");
    assert_eq!(font_from_config("<edit>"), "");
    assert_eq!(font_edit("Noto Sans"), upd(Some("fontconfig/fonts.conf".to_string()), "edit", line));
}

#[test]
fn font_reads_back() {
    for family in ["Noto Sans", "", "JetBrains Mono NL", "Ünïcode Sérif", "a/b>c", "a<b", "x</str", "<strong>"] {
        match font_edit(family) {
            ConfigEdit::Update { line, .. } => assert_eq!(font_from_config(&line), family),
            _ => panic!("not an update"),
        }
    }
}

#[test]
fn families_sorted_once_each() {
    let names: Vec<String> = ["Noto Sans", "DejaVu Sans", "Noto Sans", "Ångström", "B", "a"]
        .iter()
        .map(|s| s.to_string())
        .collect();
    let mut expected = names.clone();
    expected.sort();
    expected.dedup();
    assert_eq!(sorted_families(&names), expected);
    assert!(sorted_families(&Vec::new()).is_empty());
}

#[test]
fn themes_split_by_cursors() {
    let entries = vec![
        ("Adwaita".to_string(), true),
        ("Papirus".to_string(), false),
        ("Bibata".to_string(), true),
        ("hicolor".to_string(), false),
    ];
    let (icons, cursors) = split_themes(&entries);
    assert_eq!(icons, vec!["Papirus", "hicolor"]);
    assert_eq!(cursors, vec!["Adwaita", "Bibata"]);
}

#[test]
fn gsettings_outputs() {
    assert_eq!(gsettings_value(b"'Papirus-Dark'\n"), "Papirus-Dark");
    assert_eq!(gsettings_value(b"\xff'x'"), "\u{fffd}x");
    assert_eq!(cursor_size_from(b"32\n"), 32);
    assert_eq!(cursor_size_from(b"uint32 48\n"), 3248);
    assert_eq!(cursor_size_from(b"\n"), 24);
    assert_eq!(cursor_size_from(b"99999999999"), 24);
}

#[test]
fn compositor_numbers() {
    assert_eq!(number_setting("    gaps 8", 16), 8);
    assert_eq!(number_setting("    gaps", 16), 16);
    assert_eq!(number_setting("gaps  8", 16), 16);
    assert_eq!(number_setting("    geometry-corner-radius x", 12), 12);
    assert_eq!(cursor_trail_from("trail-cursor = true"), true);
    assert_eq!(cursor_trail_from("trail-cursor = yes"), false);
    assert_eq!(shader_from("        custom-shader r\" // open glitch"), "glitch");
    assert_eq!(shader_from("        // custom-shader r\" // open default"), "open");
    assert_eq!(shader_from("x"), "default");
}

#[test]
fn number_inputs_read_back() {
    let (v, e) = number_input("24", "gaps", "    gaps ");
    assert_eq!(v, 24);
    assert_eq!(e, upd(niri(), "gaps", "    gaps 24"));
    let (v, e) = number_input("abc", "duration-ms", "        duration-ms ");
    assert_eq!(v, 0);
    assert_eq!(e, upd(niri(), "duration-ms", "        duration-ms 0"));
    for input in ["7", "+9", "x", "", "4294967296"] {
        let (v, e) = number_input(input, "gaps", "    gaps ");
        if let ConfigEdit::Update { line, .. } = e {
            assert_eq!(number_setting(&line, 16), v);
        } else {
            panic!("not an update");
        }
    }
}

#[test]
fn cursor_edits() {
    let (size, edits) = cursor_size_input("/home/u", "32");
    assert_eq!(size, 32);
    assert_eq!(
        edits,
        vec![
            upd(Some("/home/u/.bash_profile".to_string()), "XCURSOR_SIZE", "export XCURSOR_SIZE=32"),
            upd(niri(), "xcursor-size", "    xcursor-size 32"),
        ]
    );
    assert_eq!(cursor_size_input("/h", "big").0, 0);
    assert_eq!(
        cursor_theme_edits("/home/u", "Bibata"),
        vec![
            upd(Some("/home/u/.bash_profile".to_string()), "XCURSOR_THEME", "export XCURSOR_THEME=\"Bibata\""),
            upd(niri(), "xcursor-theme", "    xcursor-theme \"Bibata\""),
        ]
    );
}

#[test]
fn switches() {
    assert_eq!(
        layout_toggle(LayoutOption::CenterFocusedColumn, false),
        (true, ConfigEdit::Write {
            file: niri(),
            anchor: "layout {".to_string(),
            line: "    center-focused-column \"always\"".to_string()
        })
    );
    assert_eq!(
        layout_toggle(LayoutOption::EmptyWorkspaceAbove, true),
        (false, ConfigEdit::Remove { file: niri(), pattern: "empty-workspace-above-first".to_string() })
    );
    assert_eq!(shadow_toggle(false), (true, upd(niri(), "// shadow", "        on // shadow")));
    assert_eq!(shadow_toggle(true), (false, upd(niri(), "// shadow", "        off // shadow")));
    let (on, e) = cursor_trail_toggle(false);
    assert!(on);
    assert_eq!(e, upd(Some("rio/config.toml".to_string()), "trail-cursor", "trail-cursor = true"));
    if let ConfigEdit::Update { line, .. } = e {
        assert_eq!(cursor_trail_from(&line), on);
    }
}

#[test]
fn switch_lines_read_back() {
    for was_on in [false, true] {
        match shadow_toggle(was_on) {
            (now_on, ConfigEdit::Update { pattern, line, .. }) => {
                assert_eq!(line.contains("on // shadow"), now_on);
                assert!(line.contains(pattern.as_str()));
            }
            _ => panic!("not an update"),
        }
    }
    for o in [LayoutOption::CenterFocusedColumn, LayoutOption::CenterSingleColumn, LayoutOption::EmptyWorkspaceAbove] {
        let written = layout_toggle(o, false);
        let removed = layout_toggle(o, true);
        match (written, removed) {
            ((true, ConfigEdit::Write { line, .. }), (false, ConfigEdit::Remove { pattern, .. })) => {
                assert!(line.contains(pattern.as_str()))
            }
            _ => panic!("unexpected edits"),
        }
    }
}

#[test]
fn display_names() {
    assert_eq!(capitalize("papirus"), "Papirus");
    assert_eq!(icon_display("papirus-dark"), "Papirus dark");
    assert_eq!(icon_display("-x"), " x");
    assert_eq!(cursor_display("bibata-modern-ice"), "bibata modern ice");
    assert_eq!(shader_display("glitch"), "Glitch");
    assert_eq!(capitalize("Adwaita"), "Adwaita");
    assert_eq!(capitalize("1st-theme"), "1st-theme");
    assert_eq!(capitalize("zé"), "Zé");
    assert_eq!(shader_display("ßx"[2..].to_string().as_str()), "X");
}

#[test]
fn shader_choice() {
    let (edits, load) = shader_edits("default");
    assert!(!load);
    assert_eq!(
        edits,
        vec![
            ConfigEdit::Remove { file: niri(), pattern: "// marked_shader".to_string() },
            upd(niri(), "// open", "        // custom-shader r\" // open default"),
            upd(niri(), "// close", "        // custom-shader r\" // close default"),
            upd(niri(), "// end", "        // \" // end"),
        ]
    );
    let (edits, load) = shader_edits("glitch");
    assert!(load);
    assert_eq!(edits[1], upd(niri(), "// open", "        custom-shader r\" // open glitch"));
    assert_eq!(edits[3], upd(niri(), "// end", "        \" // end"));
    if let ConfigEdit::Update { line, .. } = &edits[1] {
        assert_eq!(shader_from(line), "glitch");
    }
}

#[test]
fn shader_sources_marked() {
    assert_eq!(shader_block("\n\nvec4 a;\nreturn a;\n\n"), "vec4 a; // marked_shader\nreturn a; // marked_shader");
    assert_eq!(shader_block(""), "");
    assert_eq!(shader_block("x\r\ny"), "x // marked_shader\ny // marked_shader");
    let edits = shader_source_edits("a", "b");
    assert_eq!(
        edits,
        vec![
            ConfigEdit::Write { file: niri(), anchor: "// open".to_string(), line: "a // marked_shader".to_string() },
            ConfigEdit::Write { file: niri(), anchor: "// close".to_string(), line: "b // marked_shader".to_string() },
        ]
    );
}
