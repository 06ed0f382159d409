use haremal_ctrl::desktop::{
    choose_screen_value, columns_edit, dashboard_columns, dashboard_line, dashboard_toggle, mode_edit, position_edit,
    release_edits, reset_screen, resize_columns, scale_edit, set_column, transform_edit,
    transform_selected, transforms, ScreenChoice, ScreenPosition, ScreenValue,
};
use haremal_ctrl::edits::ConfigEdit;

fn niri() -> Option<String> {
    Some("niri/config.kdl".to_string())
}

fn screen(id: &str, x: i32, y: i32) -> ScreenPosition {
    ScreenPosition { id: id.to_string(), x, y }
}

#[test]
fn screen_lines() {
    assert_eq!(
        position_edit("DP-1", -1920, 0),
        ConfigEdit::Update {
            file: niri(),
            pattern: "// position DP-1".to_string(),
            line: "    position x=-1920 y=0 // position DP-1".to_string()
        }
    );
    assert_eq!(
        mode_edit("HDMI-A-1", "1920x1080@60.000"),
        ConfigEdit::Update {
            file: niri(),
            pattern: "// mode HDMI-A-1".to_string(),
            line: "    mode \"1920x1080@60.000\" // mode HDMI-A-1".to_string()
        }
    );
    assert_eq!(
        scale_edit("eDP-1", "1.5"),
        ConfigEdit::Update {
            file: niri(),
            pattern: "// scale eDP-1".to_string(),
            line: "    scale 1.5 // scale eDP-1".to_string()
        }
    );
    assert_eq!(
        transform_edit("eDP-1", "flipped-90"),
        ConfigEdit::Update {
            file: niri(),
            pattern: "// transform eDP-1".to_string(),
            line: "    transform \"flipped-90\" // transform eDP-1".to_string()
        }
    );
}

#[test]
fn releasing_a_screen_writes_each_place_under_its_marker() {
    let screens = vec![screen("A", 10, 20), screen("B", -5, 7)];
    assert_eq!(
        release_edits(&screens, "B"),
        vec![
            ConfigEdit::Update {
                file: niri(),
                pattern: "// position B".to_string(),
                line: "    position x=10 y=20 // position B".to_string()
            },
            ConfigEdit::Update {
                file: niri(),
                pattern: "// position B".to_string(),
                line: "    position x=-5 y=7 // position B".to_string()
            },
        ]
    );
}

#[test]
fn reset_moves_the_screen_home() {
    let mut screens = vec![screen("A", 10, 20), screen("B", -5, 7)];
    let edits = reset_screen(&mut screens, "B");
    assert_eq!(screens, vec![screen("A", 10, 20), screen("B", 0, 0)]);
    assert_eq!(edits, vec![position_edit("B", 0, 0)]);
    let edits = reset_screen(&mut screens, "C");
    assert!(edits.is_empty());
}

#[test]
fn choosing_a_mode_or_transform_sets_the_named_screen() {
    let sv = |id: &str, v: &str| ScreenValue { id: id.to_string(), value: v.to_string() };
    let mut screens = vec![sv("DP-1", "1920x1080@60.000"), sv("HDMI-A-1", "1280x720@60.000")];
    let edits = choose_screen_value(&mut screens, ScreenChoice::Mode, "DP-1", "2560x1440@144.000");
    assert_eq!(screens, vec![sv("DP-1", "2560x1440@144.000"), sv("HDMI-A-1", "1280x720@60.000")]);
    assert_eq!(edits, vec![mode_edit("DP-1", "2560x1440@144.000")]);
    let mut screens = vec![sv("A", "normal"), sv("B", "normal")];
    let edits = choose_screen_value(&mut screens, ScreenChoice::Transform, "B", "90");
    assert_eq!(screens, vec![sv("A", "normal"), sv("B", "90")]);
    assert_eq!(edits, vec![transform_edit("B", "90")]);
    assert!(choose_screen_value(&mut screens, ScreenChoice::Mode, "C", "x").is_empty());
    assert_eq!(screens, vec![sv("A", "normal"), sv("B", "90")]);
}

#[test]
fn transform_options() {
    assert_eq!(transforms().len(), 8);
    assert!(transform_selected("flipped-90", "90"));
    assert!(transform_selected("flipped-90", "flipped"));
    assert!(!transform_selected("normal", "180"));
}

#[test]
fn dashboard_columns_read_and_written() {
    assert!(dashboard_columns(&Vec::new()).is_empty());
    assert_eq!(dashboard_columns(&vec!["  dashboard 2 x 3 ".to_string()]), vec![2, 1, 3]);
    assert_eq!(dashboard_columns(&vec!["dashboard".to_string()]), Vec::<i32>::new());
    assert_eq!(dashboard_line(&vec![2, 1, 3]), "dashboard 2 1 3");
    assert_eq!(dashboard_line(&Vec::new()), "dashboard ");
    for cols in [vec![], vec![4], vec![1, -2, 5], vec![0, 0]] {
        assert_eq!(dashboard_columns(&vec![dashboard_line(&cols)]), cols);
    }
}

#[test]
fn dashboard_inputs() {
    assert_eq!(resize_columns(&vec![2, 3], "4"), Some(vec![2, 3, 1, 1]));
    assert_eq!(resize_columns(&vec![2, 3, 4], "1"), Some(vec![2]));
    assert_eq!(resize_columns(&vec![2, 3], "6"), None);
    assert_eq!(resize_columns(&vec![2, 3], "abc"), Some(vec![]));
    assert_eq!(set_column(&vec![2, 3], 1, "5"), Some(vec![2, 5]));
    assert_eq!(set_column(&vec![2, 3], 0, "9"), None);
    assert_eq!(set_column(&vec![2, 3], 0, "-4"), Some(vec![-4, 3]));
    assert_eq!(set_column(&vec![2, 3], 0, ""), Some(vec![0, 3]));
    assert_eq!(
        columns_edit(true, &vec![1, 2]),
        Some(ConfigEdit::Update { file: None, pattern: "dashboard".to_string(), line: "dashboard 1 2".to_string() })
    );
    assert_eq!(columns_edit(false, &vec![1, 2]), None);
    assert_eq!(
        dashboard_toggle(true, &vec![3]),
        (true, ConfigEdit::Write { file: None, anchor: String::new(), line: "dashboard 3".to_string() })
    );
    assert_eq!(
        dashboard_toggle(false, &vec![3]),
        (false, ConfigEdit::Remove { file: None, pattern: "dashboard".to_string() })
    );
}
