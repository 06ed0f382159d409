use haremal_ctrl::edits::ConfigEdit;
use haremal_ctrl::region::{
    configured_value, lang_assignment, language_label, language_option, layout_edit, locale_gen_script,
    locale_id, locale_parts_of, output_lines, quoted_or, quoted_setting, quoted_value, setting_edit,
};

#[test]
fn quoted_value_is_the_second_piece() {
    assert_eq!(quoted_value("timezone \"Europe/Paris\""), Some("Europe/Paris".to_string()));
    assert_eq!(quoted_value("a \"b"), Some("b".to_string()));
    assert_eq!(quoted_value("no quotes"), None);
    assert_eq!(quoted_or("layout \"de\"", "us"), "de");
    assert_eq!(quoted_or("layout", "us"), "us");
}

#[test]
fn timezone_defaults() {
    let none: Vec<String> = Vec::new();
    assert_eq!(configured_value(&none, "America/New_York", "America/New_York"), "America/New_York");
    let set = vec!["timezone \"Asia/Tokyo\"".to_string()];
    assert_eq!(configured_value(&set, "America/New_York", "America/New_York"), "Asia/Tokyo");
}

#[test]
fn language_defaults_differ() {
    let none: Vec<String> = Vec::new();
    assert_eq!(configured_value(&none, "en_US.UTF-8 UTF-8", "English (US)"), "en_US.UTF-8 UTF-8");
    let unquoted = vec!["language de".to_string()];
    assert_eq!(configured_value(&unquoted, "en_US.UTF-8 UTF-8", "English (US)"), "English (US)");
}

#[test]
fn setting_written_then_read_back() {
    let line = quoted_setting("timezone", "Europe/Berlin");
    assert_eq!(line, "timezone \"Europe/Berlin\"");
    assert_eq!(configured_value(&vec![line], "x", "y"), "Europe/Berlin");
}

#[test]
fn setting_edit_writes_or_updates() {
    let none: Vec<String> = Vec::new();
    assert_eq!(
        setting_edit(&none, "timezone", "UTC"),
        ConfigEdit::Write { file: None, anchor: String::new(), line: "timezone \"UTC\"".to_string() }
    );
    let some = vec!["timezone \"Asia/Tokyo\"".to_string()];
    assert_eq!(
        setting_edit(&some, "language", "de_DE.UTF-8 UTF-8"),
        ConfigEdit::Update {
            file: None,
            pattern: "language".to_string(),
            line: "language \"de_DE.UTF-8 UTF-8\"".to_string()
        }
    );
}

#[test]
fn layout_edit_line() {
    assert_eq!(
        layout_edit("de"),
        ConfigEdit::Update {
            file: Some("niri/config.kdl".to_string()),
            pattern: "layout \"".to_string(),
            line: "             layout \"de\"".to_string()
        }
    );
}

#[test]
fn locale_commands() {
    assert_eq!(locale_id("de_DE.UTF-8 UTF-8"), "de_DE.UTF-8");
    assert_eq!(locale_id(""), "en_US.UTF-8");
    assert_eq!(locale_id(" \t"), "en_US.UTF-8");
    assert_eq!(
        locale_gen_script("de_DE.UTF-8 UTF-8"),
        "echo -e 'en_US.UTF-8 UTF-8\nde_DE.UTF-8 UTF-8' | sudo tee /etc/locale.gen"
    );
    assert_eq!(lang_assignment("de_DE.UTF-8"), "LANG=de_DE.UTF-8");
}

#[test]
fn language_labels() {
    assert_eq!(language_option("en_US.UTF-8 UTF-8"), Some("English (US)".to_string()));
    assert_eq!(language_option("de_DE.UTF-8 UTF-8"), Some("German (DE)".to_string()));
    assert_eq!(language_option("aar.UTF-8 UTF-8"), None);
    assert_eq!(language_option("aa_DJ.UTF-8 UTF-8"), Some("Afar (DJ)".to_string()));
    assert_eq!(language_option("xx_YY.UTF-8 UTF-8"), Some("XX (YY)".to_string()));
    assert_eq!(language_option("sr_RS.UTF-8@latin UTF-8"), None);
    assert_eq!(language_option("en_US ISO-8859-1"), None);
    assert_eq!(language_option("C.UTF-8"), None);
    assert_eq!(language_option("C.UTF-8 UTF-8"), None);
    assert_eq!(language_option("ast_ES.UTF-8 UTF-8"), Some("Asturian (ES)".to_string()));
    assert_eq!(language_label("French", ""), "French");
}

#[test]
fn locale_parts_split() {
    assert_eq!(locale_parts_of("fr_CA.UTF-8 UTF-8"), Some(("fr".to_string(), "CA".to_string())));
    assert_eq!(locale_parts_of("eo.UTF-8 UTF-8"), None);
    assert_eq!(locale_parts_of("é_X.UTF-8"), Some(("é".to_string(), "X".to_string())));
    assert_eq!(locale_parts_of("ééé_X.UTF-8"), None);
}

#[test]
fn command_output_lines() {
    assert_eq!(output_lines(b"Europe/Paris\nAsia/Tokyo\n"), vec!["Europe/Paris", "Asia/Tokyo"]);
    assert_eq!(output_lines(b"us\r\nde"), vec!["us", "de"]);
    assert_eq!(output_lines(b"a\xffb"), vec!["a\u{fffd}b"]);
    assert_eq!(output_lines(b""), Vec::<String>::new());
}
