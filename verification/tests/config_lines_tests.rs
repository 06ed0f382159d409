use haremal_ctrl::config_lines::{apply_edit, insert_line, read_matching, remove_lines, update_lines};
use haremal_ctrl::edits::ConfigEdit;
use haremal_ctrl::region::setting_edit;

fn ls(v: &[&str]) -> Vec<String> {
    v.iter().map(|s| s.to_string()).collect()
}

#[test]
fn reading_finds_the_lines_holding_the_pattern() {
    let lines = ls(&["layout {", "    gaps 16", "}", "// gaps note"]);
    assert_eq!(read_matching(&lines, "gaps"), ls(&["    gaps 16", "// gaps note"]));
    assert!(read_matching(&lines, "shadow").is_empty());
    assert_eq!(read_matching(&lines, ""), lines);
}

#[test]
fn updating_replaces_each_line_holding_the_pattern() {
    let lines = ls(&["a gaps 1", "b", "c gaps 2"]);
    assert_eq!(update_lines(&lines, "gaps", "    gaps 8"), ls(&["    gaps 8", "b", "    gaps 8"]));
    assert_eq!(update_lines(&lines, "none", "x"), lines);
}

#[test]
fn writing_inserts_after_the_first_anchor() {
    let lines = ls(&["binds {", "}", "binds {"]);
    assert_eq!(insert_line(&lines, "binds", "    Mod+T { spawn \"a\"; }"), ls(&["binds {", "    Mod+T { spawn \"a\"; }", "}", "binds {"]));
    assert_eq!(insert_line(&lines, "none", "x"), ls(&["binds {", "}", "binds {", "x"]));
    assert_eq!(insert_line(&Vec::new(), "", "timezone \"UTC\""), ls(&["timezone \"UTC\""]));
    assert_eq!(insert_line(&ls(&["a", "b"]), "", "c"), ls(&["a", "c", "b"]));
}

#[test]
fn removing_drops_the_lines_holding_the_pattern() {
    let lines = ls(&["dashboard 1 2", "timezone \"UTC\"", "dashboard"]);
    let kept = remove_lines(&lines, "dashboard");
    assert_eq!(kept, ls(&["timezone \"UTC\""]));
    assert!(read_matching(&kept, "dashboard").is_empty());
}

#[test]
fn a_saved_setting_reads_back() {
    let lines = ls(&["timezone \"UTC\"", "language \"en_US.UTF-8 UTF-8\""]);
    let e = setting_edit(&read_matching(&lines, "timezone"), "timezone", "Europe/Paris");
    let after = apply_edit(&lines, &e);
    assert_eq!(read_matching(&after, "timezone"), ls(&["timezone \"Europe/Paris\""]));
    let e = setting_edit(&Vec::new(), "dashboard", "x");
    assert!(matches!(e, ConfigEdit::Write { .. }));
    let after = apply_edit(&ls(&[]), &e);
    assert_eq!(after.len(), 1);
    let e = ConfigEdit::Remove { file: None, pattern: "timezone".to_string() };
    assert!(read_matching(&apply_edit(&lines, &e), "timezone").is_empty());
}
