use haremal_ctrl::update::{initial_state, step, UpdateAction, UpdateEvent};

#[test]
fn a_full_update() {
    let s = initial_state();
    assert!(!s.updating);
    assert_eq!(s.message, "");
    assert_eq!(s.console, "Loading...");
    let (s, a) = step(s, UpdateEvent::SystemInfo(b"OS: Arch".to_vec()));
    assert_eq!(a, UpdateAction::Nothing);
    assert_eq!(s.console, "OS: Arch");
    let (s, a) = step(s, UpdateEvent::Start);
    assert_eq!(a, UpdateAction::CleanCache);
    assert!(s.updating);
    assert_eq!(s.message, "Updating...");
    assert_eq!(s.console, "--- Cleaning Cache ---\n");
    let (s, a) = step(s, UpdateEvent::Start);
    assert_eq!(a, UpdateAction::Nothing);
    assert!(s.updating);
    let (s, _) = step(s, UpdateEvent::Output("removed 3 packages".to_string()));
    let (s, a) = step(s, UpdateEvent::CleanFinished);
    assert_eq!(a, UpdateAction::UpdateSystem);
    let (s, _) = step(s, UpdateEvent::Output("done".to_string()));
    assert_eq!(
        s.console,
        "--- Cleaning Cache ---\nremoved 3 packages\n\n--- Updating System ---\ndone\n"
    );
    let (s, a) = step(s, UpdateEvent::Finished(true));
    assert_eq!(a, UpdateAction::Nothing);
    assert!(!s.updating);
    assert_eq!(s.message, "Up to date");
    let (s, _) = step(s, UpdateEvent::Finished(false));
    assert_eq!(s.message, "Something went wrong. Try again");
}

#[test]
fn invalid_system_info_is_ignored() {
    let (s, _) = step(initial_state(), UpdateEvent::SystemInfo(vec![0x66, 0xff]));
    assert_eq!(s.console, "Loading...");
}
