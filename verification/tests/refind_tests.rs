use haremal_ctrl::applications::{
    default_apps, default_changes, keybind_edit, keybind_removal, startup_edit, startup_removal, startup_row,
};
use haremal_ctrl::appearance::number_input;
use haremal_ctrl::desktop::{columns_edit, mode_edit, position_edit, scale_edit, transform_edit};
use haremal_ctrl::edits::ConfigEdit;
use haremal_ctrl::region::{layout_edit, quoted_or, setting_edit};

fn finds_itself(e: &ConfigEdit) -> bool {
    match e {
        ConfigEdit::Update { pattern, line, .. } => line.contains(pattern.as_str()),
        _ => true,
    }
}

#[test]
fn region_updates_find_their_lines() {
    let existing = vec!["timezone \"UTC\"".to_string()];
    assert!(finds_itself(&setting_edit(&existing, "timezone", "Europe/Berlin")));
    assert!(finds_itself(&setting_edit(&existing, "language", "")));
    assert!(finds_itself(&layout_edit("de")));
}

#[test]
fn screen_updates_find_their_lines() {
    assert!(finds_itself(&position_edit("DP-1", -1920, 0)));
    assert!(finds_itself(&mode_edit("DP-1", "2560x1440@144.000")));
    assert!(finds_itself(&scale_edit("eDP-1", "1.25")));
    assert!(finds_itself(&transform_edit("HDMI-A-1", "90")));
    match columns_edit(true, &vec![320, -5, 0]) {
        Some(e) => assert!(finds_itself(&e)),
        None => panic!("no dashboard edit"),
    }
}

#[test]
fn default_changes_find_their_lines() {
    let lines = vec![
        "[Default Applications]".to_string(),
        "text/html=firefox.desktop;".to_string(),
        "x-scheme-handler/http=firefox.desktop;".to_string(),
    ];
    let edits = default_changes(&lines, "browser", "chromium");
    assert!(!edits.is_empty());
    for e in edits.iter() {
        assert!(finds_itself(e));
    }
}

#[test]
fn number_updates_find_their_lines() {
    for input in ["12", "abc", ""] {
        let (_, e) = number_input(input, "gaps", "    gaps ");
        assert!(finds_itself(&e));
    }
}

#[test]
fn keybind_removal_finds_the_added_line() {
    let added = keybind_edit("Mod+T", "spawn \"alacritty\";");
    let removal = keybind_removal("Mod+T");
    match (added, removal) {
        (Some(ConfigEdit::Write { line, .. }), ConfigEdit::Remove { pattern, .. }) => {
            assert!(line.contains(pattern.as_str()))
        }
        _ => panic!("unexpected edits"),
    }
}

#[test]
fn startup_removal_finds_the_added_line() {
    for program in ["waybar", "swaybg -i ~/wall.png", "a b c"] {
        let added = startup_edit(program);
        match added {
            Some(ConfigEdit::Write { line, .. }) => {
                let shown = startup_row(&line);
                assert_eq!(shown, program);
                match startup_removal(&shown) {
                    ConfigEdit::Remove { pattern, .. } => assert_eq!(pattern, line),
                    _ => panic!("not a removal"),
                }
            }
            _ => panic!("not a write"),
        }
    }
}

#[test]
fn layout_reads_back() {
    for layout in ["de", "us", "fr(bepo)"] {
        match layout_edit(layout) {
            ConfigEdit::Update { line, .. } => assert_eq!(quoted_or(&line, "us"), layout),
            _ => panic!("not an update"),
        }
    }
}

#[test]
fn default_reads_back() {
    let lines = vec![
        "[Default Applications]".to_string(),
        "x-scheme-handler/https=firefox.desktop;".to_string(),
    ];
    let edits = default_changes(&lines, "browser", "org.chromium.Chromium");
    assert_eq!(edits.len(), 1);
    match &edits[0] {
        ConfigEdit::Update { line, .. } => {
            let table = default_apps(&vec![line.clone()]);
            assert_eq!(
                table[0],
                ("org.chromium.Chromium.desktop;".to_string(), "org.chromium.Chromium".to_string())
            );
        }
        _ => panic!("not an update"),
    }
}
