use haremal_ctrl::devices::{
    clean_name, device_list, is_system_device, pairing_prompt, removal_prompt, unique_names,
    BluetoothDevice, DeviceRow,
};

fn bt(alias: Option<&str>, address: &str, connected: bool, paired: bool) -> BluetoothDevice {
    BluetoothDevice { alias: alias.map(|a| a.to_string()), address: address.to_string(), connected, paired }
}

#[test]
fn names_are_cleaned() {
    assert_eq!(clean_name("USB\\x20Optical\\x20Mouse"), "USB Optical Mouse");
    assert_eq!(clean_name("plain"), "plain");
}

#[test]
fn system_devices() {
    assert!(is_system_device("xHCI Host Controller"));
    assert!(is_system_device("3.0 Root Hub"));
    assert!(is_system_device("0123"));
    assert!(is_system_device("٣٤"));
    assert!(is_system_device(""));
    assert!(!is_system_device("USB Keyboard"));
    assert!(!is_system_device("12a"));
}

#[test]
fn table_is_ordered_by_attachment() {
    let raws = vec![
        "Keyboard".to_string(),
        "xHCI\\x20Host\\x20Controller".to_string(),
        "".to_string(),
        "USB\\x20Mouse".to_string(),
        "1234".to_string(),
    ];
    let ds = vec![
        bt(None, "AA:BB", false, false),
        bt(Some("Phone"), "CC:DD", false, true),
        bt(Some("Buds"), "EE:FF", true, true),
        bt(Some("Watch"), "11:22", false, true),
    ];
    let rows = device_list(&raws, &ds);
    assert_eq!(
        rows,
        vec![
            DeviceRow::Wired("Keyboard".to_string()),
            DeviceRow::Wired("USB Mouse".to_string()),
            DeviceRow::Connected(2, "Buds".to_string()),
            DeviceRow::Paired(1, "Phone".to_string()),
            DeviceRow::Paired(3, "Watch".to_string()),
            DeviceRow::Nearby(0, "AA:BB".to_string()),
        ]
    );
    assert!(device_list(&Vec::new(), &Vec::new()).is_empty());
}

#[test]
fn wired_names_once_each() {
    let names = vec!["a".to_string(), "b".to_string(), "a".to_string(), "c".to_string(), "b".to_string()];
    assert_eq!(unique_names(&names), vec!["a", "b", "c"]);
    assert!(unique_names(&Vec::new()).is_empty());
}

#[test]
fn prompts() {
    assert_eq!(removal_prompt("Phone"), "Remove this device: Phone?");
    assert_eq!(pairing_prompt("AA:BB"), "Pair this device: AA:BB?");
}
