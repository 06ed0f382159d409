use haremal_ctrl::applications::{
    default_apps, default_changes, default_link, keybind_edit, keybind_prompt, keybind_removal,
    keybind_row, startup_edit, startup_line, startup_prompt, startup_removal, startup_row,
};
use haremal_ctrl::edits::ConfigEdit;
use haremal_ctrl::sections::toggle_section;

fn niri() -> Option<String> {
    Some("niri/config.kdl".to_string())
}

#[test]
fn sections_open_one_at_a_time() {
    let s = toggle_section([false, true, false, false], 2);
    assert_eq!(s, [false, false, true, false]);
    let s = toggle_section(s, 2);
    assert_eq!(s, [false, false, false, false]);
    let s = toggle_section([true, true, true, true], 0);
    assert_eq!(s, [false, false, false, false]);
    assert_eq!(toggle_section(toggle_section([true, false, false, false], 3), 3), [false, false, false, false]);
}

#[test]
fn defaults_table_from_mime_list() {
    let lines = vec![
        "[Default Applications]".to_string(),
        "x-scheme-handler/https=firefox.desktop".to_string(),
        "inode/directory=thunar.desktop;".to_string(),
        "video/mp4=mpv.desktop=extra".to_string(),
        "text/plain".to_string(),
        "application/pdf=zathura.desktop".to_string(),
        "x-scheme-handler/https=brave.desktop".to_string(),
    ];
    let t = default_apps(&lines);
    assert_eq!(t.len(), 8);
    assert_eq!(t[0], ("brave.desktop".to_string(), "brave".to_string()));
    assert_eq!(t[1], ("thunar.desktop;".to_string(), "thunar".to_string()));
    assert_eq!(t[2], (String::new(), String::new()));
    assert_eq!(t[3], ("mpv.desktop".to_string(), "mpv".to_string()));
    assert_eq!(t[5], (String::new(), String::new()));
    assert_eq!(t[7], ("zathura.desktop".to_string(), "zathura".to_string()));
    assert_eq!(default_apps(&Vec::new()).len(), 8);
}

#[test]
fn keybind_rows() {
    assert_eq!(
        keybind_row("    Mod+T { spawn \"alacritty\"; } // keybind"),
        ("Mod+T".to_string(), " spawn \"alacritty\"; ".to_string())
    );
    assert_eq!(keybind_row(""), (String::new(), String::new()));
    assert_eq!(keybind_row("Mod+Q {close-window;"), ("Mod+Q".to_string(), "close-window;".to_string()));
}

#[test]
fn keybind_written_then_read_back() {
    let e = keybind_edit("Mod+E", "spawn \"thunar\";").unwrap();
    let line = match &e {
        ConfigEdit::Write { file, anchor, line } => {
            assert_eq!(file, &niri());
            assert_eq!(anchor, "binds");
            line.clone()
        },
        _ => panic!("not a write"),
    };
    assert_eq!(line, "    Mod+E { spawn \"thunar\"; } // keybind");
    assert_eq!(keybind_row(&line), ("Mod+E".to_string(), " spawn \"thunar\"; ".to_string()));
    assert_eq!(keybind_edit("", "x"), None);
    assert_eq!(keybind_edit("Mod+X", ""), None);
    let removal = keybind_removal("Mod+E");
    assert_eq!(removal, ConfigEdit::Remove { file: niri(), pattern: "Mod+E {".to_string() });
    assert!(line.contains("Mod+E {"));
    assert_eq!(keybind_prompt("Mod+E"), "Delete keybind: Mod+E?");
}

#[test]
fn startups() {
    assert_eq!(startup_row("spawn-at-startup \"waybar\""), "waybar");
    assert_eq!(startup_row("spawn-at-startup waybar"), "");
    assert_eq!(startup_line("mako"), "spawn-at-startup \"mako\"");
    assert_eq!(startup_row(&startup_line("mako")), "mako");
    assert_eq!(
        startup_edit("mako"),
        Some(ConfigEdit::Write {
            file: niri(),
            anchor: "// startups".to_string(),
            line: "spawn-at-startup \"mako\"".to_string()
        })
    );
    assert_eq!(startup_edit(""), None);
    assert_eq!(
        startup_removal("mako"),
        ConfigEdit::Remove { file: niri(), pattern: "spawn-at-startup \"mako\"".to_string() }
    );
    assert_eq!(startup_prompt("spawn-at-startup \"mako\""), "Delete startup: spawn-at-startup \"mako\"?");
}

#[test]
fn default_form_fields() {
    assert_eq!(default_link("browser"), Some("x-scheme-handler/http".to_string()));
    assert_eq!(default_link("pdf"), Some("application/pdf".to_string()));
    assert_eq!(default_link("other"), None);
    let lines = vec![
        "x-scheme-handler/http=firefox.desktop".to_string(),
        "text/plain=gedit.desktop".to_string(),
        "x-scheme-handler/https=firefox.desktop".to_string(),
    ];
    let changes = default_changes(&lines, "browser", "brave");
    assert_eq!(
        changes,
        vec![
            ConfigEdit::Update {
                file: Some("mimeapps.list".to_string()),
                pattern: "x-scheme-handler/http=".to_string(),
                line: "x-scheme-handler/http=brave.desktop;".to_string()
            },
            ConfigEdit::Update {
                file: Some("mimeapps.list".to_string()),
                pattern: "x-scheme-handler/https=".to_string(),
                line: "x-scheme-handler/https=brave.desktop;".to_string()
            },
        ]
    );
    assert!(default_changes(&lines, "browser", "").is_empty());
    assert!(default_changes(&lines, "nothing", "brave").is_empty());
    assert_eq!(default_changes(&lines, "text", "mousepad").len(), 1);
}
