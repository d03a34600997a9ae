use bluevein::bluetooth::{BluetoothDevice, ClassicKeys, CsrkKey, LeKeys, LeLongTermKey};
use bluevein::info::InfoSections;
use bluevein::linux::{linux_address_type, missing_record_reason, reverse_irk, LinuxBluetoothManager, RemovalStep};

fn bond() -> BluetoothDevice {
    BluetoothDevice {
        mac_address: "D0:11:22:33:44:55".into(),
        name: None,
        pending_deletion: None,
        classic: None,
        le: Some(LeKeys {
            address_type: Some("random".into()),
            irk: Some("000102030405060708090A0B0C0D0E0F".into()),
            irk_encoding: Some("windows".into()),
            ltk: Some(LeLongTermKey {
                key: "AA".repeat(16),
                authenticated: Some(2),
                enc_size: Some(16),
                ediv: Some(0),
                rand: Some(0),
            }),
            ..Default::default()
        }),
    }
}

#[test]
fn arbitrary_devices_are_importable_without_mac_allowlist() {
    for mac in ["D0:11:22:33:44:55", "F1:AA:BB:CC:DD:EE", "C2:00:00:00:00:01"] {
        let mut d = bond();
        d.mac_address = mac.into();
        assert!(missing_record_reason(&d).is_none());
    }
    let mut d = bond();
    d.mac_address = "00:11:22:33:44:55".into();
    assert!(missing_record_reason(&d).is_some());
    d.le.as_mut().unwrap().address_type = Some("public".into());
    assert!(missing_record_reason(&d).is_none());
}

#[test]
fn incomplete_or_ambiguous_security_data_is_not_guessed() {
    let mut d = bond();
    d.le.as_mut().unwrap().ltk.as_mut().unwrap().authenticated = None;
    assert!(missing_record_reason(&d).unwrap().contains("metadata"));
    let mut d = bond();
    d.le.as_mut().unwrap().irk_encoding = None;
    assert!(missing_record_reason(&d).unwrap().contains("byte order"));
    let mut d = bond();
    d.le.as_mut().unwrap().ltk = None;
    assert!(missing_record_reason(&d).unwrap().contains("bonding key"));
}

#[test]
fn address_type_and_irk_use_platform_format_not_device_identity() {
    assert_eq!(linux_address_type("random").unwrap(), "static");
    assert_eq!(linux_address_type("static").unwrap(), "static");
    assert_eq!(linux_address_type("public").unwrap(), "public");
    assert!(linux_address_type("unknown").is_err());
    let key = "000102030405060708090A0B0C0D0E0F";
    assert_eq!(reverse_irk(key).unwrap(), "0F0E0D0C0B0A09080706050403020100");
    assert_eq!(reverse_irk(&reverse_irk(key).unwrap()).unwrap(), key);
}

#[test]
fn real_bluez_files_round_trip_keys_types_and_preserve_unrelated_settings() {
    for (i, auth) in [0u8, 1, 2, 3].into_iter().enumerate() {
        let mut d = bond();
        d.mac_address = format!("D0:11:22:33:44:{i:02X}");
        d.le.as_mut().unwrap().ltk.as_mut().unwrap().authenticated = Some(auth);
        if auth < 2 {
            let key = d.le.as_mut().unwrap().ltk.as_mut().unwrap();
            key.ediv = Some(456);
            key.rand = Some(987654321);
        }
        let content = LinuxBluetoothManager::device_file_content(None, &d).unwrap();
        assert!(content.contains("AddressType=static"));
        assert!(content.contains("Trusted=true"));
        assert_eq!(LinuxBluetoothManager::parse_device_content(&content, &d.mac_address).unwrap(), d);
        let edited = format!("{content}\n[Custom]\nKeep=value\n");
        let rewritten = LinuxBluetoothManager::device_file_content(Some(&edited), &d).unwrap();
        assert!(rewritten.contains("Keep=value"));
        assert_eq!(LinuxBluetoothManager::parse_device_content(&rewritten, &d.mac_address).unwrap(), d);
    }
}

#[test]
fn shared_name_updates_bluez_name_without_erasing_local_alias() {
    let mut device = bond();
    device.name = Some("MX Keys".into());
    let content = LinuxBluetoothManager::device_file_content(None, &device).unwrap();
    assert_eq!(LinuxBluetoothManager::parse_device_content(&content, &device.mac_address).unwrap().name, device.name);
    let edited = content.replace("Name=MX Keys", "Name=Old MX\nAlias=Desk keyboard");
    let manager = LinuxBluetoothManager::new().unwrap();
    assert!(manager.needs_update(
        &LinuxBluetoothManager::parse_device_content(&edited, &device.mac_address).unwrap(),
        &device
    ));
    let rewritten = LinuxBluetoothManager::device_file_content(Some(&edited), &device).unwrap();
    assert!(rewritten.contains("Name=MX Keys"));
    assert!(rewritten.contains("Alias=Desk keyboard"));
}

#[test]
fn user_alias_is_exported_when_bluez_never_stored_a_name() {
    let device = bond();
    let content = LinuxBluetoothManager::device_file_content(None, &device).unwrap();
    assert!(!content.contains("Name="));
    let aliased = content.replace("[General]\n", "[General]\nAlias=Desk keyboard\n");
    let parsed = LinuxBluetoothManager::parse_device_content(&aliased, &device.mac_address).unwrap();
    assert_eq!(parsed.name.as_deref(), Some("Desk keyboard"));
    let named = aliased.replace("[General]\n", "[General]\nName=MX Keys\n");
    assert_eq!(
        LinuxBluetoothManager::parse_device_content(&named, &device.mac_address).unwrap().name.as_deref(),
        Some("MX Keys")
    );
}

#[test]
fn new_record_of_an_unimportable_bond_is_refused_before_writing() {
    let mut d = bond();
    d.le.as_mut().unwrap().ltk = None;
    assert_eq!(LinuxBluetoothManager::device_file_content(None, &d).unwrap_err(), "no LE bonding key");
    // An existing record is updated even when a fresh import would be refused.
    let existing = "[General]\nName=Old\n";
    assert!(LinuxBluetoothManager::device_file_content(Some(existing), &d).is_ok());
}

#[test]
fn classic_and_signature_keys_round_trip_through_the_info_file() {
    let mut d = bond();
    d.mac_address = "C4:11:22:33:44:55".into();
    d.classic = Some(ClassicKeys { link_key: "0123456789ABCDEF0123456789ABCDEF".into(), key_type: 8, pin_length: 6 });
    let le = d.le.as_mut().unwrap();
    le.csrk_local = Some(CsrkKey { key: "11".repeat(16), counter: 42, authenticated: true });
    le.csrk_remote = Some(CsrkKey { key: "22".repeat(16), counter: 0, authenticated: false });
    le.peripheral_ltk = le.ltk.clone();
    let content = LinuxBluetoothManager::device_file_content(None, &d).unwrap();
    assert!(content.contains("SupportedTechnologies=BR/EDR;LE;"));
    assert!(content.contains("Key=0F0E0D0C0B0A09080706050403020100"));
    assert_eq!(LinuxBluetoothManager::parse_device_content(&content, &d.mac_address).unwrap(), d);
}

#[test]
fn info_file_parsing_follows_bluez_rules() {
    let sections = LinuxBluetoothManager::parse_info_file(
        "# comment\nstray=ignored\n[General]\n  Name = Desk  \nName=Second\n[]\n[LinkKey]\nKey=AB=CD\n",
    );
    assert_eq!(sections.get("General", "Name").map(String::as_str), Some("Second"));
    assert_eq!(sections.get("LinkKey", "Key").map(String::as_str), Some("AB=CD"));
    assert!(sections.has_section(""));
    assert!(sections.get("", "stray").is_none());
    let mut fresh = InfoSections::new();
    fresh.set("General", "Name".into(), "Pad".into());
    assert_eq!(fresh.render(), "[General]\nName=Pad\n\n");
}

#[test]
fn parse_reports_a_record_without_keys() {
    assert_eq!(
        LinuxBluetoothManager::parse_device_content("[General]\nName=Nothing\n", "AA:BB:CC:DD:EE:FF").unwrap_err(),
        "No keys found for device AA:BB:CC:DD:EE:FF"
    );
    // A malformed key is left out rather than guessed.
    let parsed = LinuxBluetoothManager::parse_device_content(
        "[LinkKey]\nKey=XYZ\n[General]\nAddressType=public\n",
        "aa:bb:cc:dd:ee:ff",
    );
    assert!(parsed.is_err());
}

#[test]
fn linux_policies_keep_local_names_and_refuse_untagged_irks() {
    let manager = LinuxBluetoothManager::new().unwrap();
    let mut local = bond();
    local.name = Some("Desk keyboard".into());
    let shared = bond();
    assert!(!manager.needs_update(&local, &shared));
    let mut renamed = bond();
    renamed.name = Some("MX Keys".into());
    assert!(manager.needs_update(&local, &renamed));
    let mut untagged = bond();
    untagged.le.as_mut().unwrap().irk_encoding = None;
    assert_eq!(
        manager.update_reason(&local, &untagged).unwrap(),
        "unverified legacy IRK encoding; export from updated source OS first"
    );
    assert!(manager.update_reason(&local, &shared).is_none());
    assert_eq!(manager.platform_id(), "linux");
}

#[test]
fn import_batches_stop_and_start_bluez_once() {
    let mut manager = LinuxBluetoothManager::new().unwrap();
    assert!(manager.stop_needed());
    assert_eq!(manager.record_stop(false).unwrap_err(), "Could not stop Bluetooth before import");
    assert!(manager.stop_needed());
    manager.record_stop(true).unwrap();
    assert!(!manager.stop_needed());
    assert_eq!(manager.record_start(false).unwrap_err(), "Bluetooth batch activation failed");
    manager.record_start(true).unwrap();
    assert!(manager.stop_needed());
}

#[test]
fn bluez_paths_and_store_entries() {
    assert_eq!(
        LinuxBluetoothManager::get_device_info_path("00:11:22:33:44:55", "aa:bb:cc:dd:ee:ff"),
        "/var/lib/bluetooth/00:11:22:33:44:55/AA:BB:CC:DD:EE:FF/info"
    );
    assert!(LinuxBluetoothManager::is_address_entry("AA:BB:CC:DD:EE:FF"));
    assert!(!LinuxBluetoothManager::is_address_entry("settings"));
    assert!(!LinuxBluetoothManager::is_address_entry("AABBCCDDEEFF12345"));
}

#[test]
fn store_entries_are_measured_in_bytes() {
    assert!(!LinuxBluetoothManager::is_address_entry("AA:BB:CC:DD:EE:F\u{e9}"));
    assert!(LinuxBluetoothManager::is_address_entry("AA:BB:CC:DD:EE:\u{e9}"));
}

#[test]
fn bluez_removal_finds_adapter_objects_and_retries_only_transient_refusals() {
    let tree = "/org\n  /org/bluez\n    /org/bluez/hci0\n      /org/bluez/hci0/dev_AA_BB\n    /org/bluez/hci1\n";
    assert_eq!(LinuxBluetoothManager::bluez_adapter_paths(tree), vec!["/org/bluez/hci0", "/org/bluez/hci1"]);
    assert_eq!(
        LinuxBluetoothManager::bluez_device_path("/org/bluez/hci0", "aa:bb:cc:dd:ee:ff"),
        "/org/bluez/hci0/dev_AA_BB_CC_DD_EE_FF"
    );
    assert!(LinuxBluetoothManager::output_names_adapter("s \"00:11:22:33:44:55\"\n", "00:11:22:33:44:55"));
    assert!(!LinuxBluetoothManager::output_names_adapter("s \"00:11:22:33:44:56\"\n", "00:11:22:33:44:55"));
    assert!(matches!(LinuxBluetoothManager::removal_step(true, true, 0, "", "X"), RemovalStep::Done));
    assert!(matches!(LinuxBluetoothManager::removal_step(false, false, 0, "", "X"), RemovalStep::Done));
    assert!(matches!(
        LinuxBluetoothManager::removal_step(false, true, 2, "Resource Not Ready", "X"),
        RemovalStep::Retry
    ));
    match LinuxBluetoothManager::removal_step(false, true, 6, " org.bluez.Error.NotReady \n", "AA") {
        RemovalStep::Failed(m) => assert_eq!(m, "BlueZ refused to remove AA: org.bluez.Error.NotReady"),
        _ => panic!("the last attempt must fail"),
    }
    assert!(matches!(
        LinuxBluetoothManager::removal_step(false, true, 0, "Does Not Exist", "AA"),
        RemovalStep::Failed(_)
    ));
}

#[test]
fn rewriting_a_bond_over_its_own_file_changes_nothing() {
    let d = bond();
    let content = LinuxBluetoothManager::device_file_content(None, &d).unwrap();
    let again = LinuxBluetoothManager::device_file_content(Some(&content), &d).unwrap();
    assert_eq!(again, content);
    assert_eq!(LinuxBluetoothManager::parse_device_content(&again, &d.mac_address).unwrap(), d);
}

#[test]
fn a_bond_written_over_unmanaged_settings_reads_back() {
    let d = bond();
    let text = LinuxBluetoothManager::device_file_content(Some("[Custom]\nKeep=value\n"), &d).unwrap();
    assert!(text.contains("[Custom]\nKeep=value\n"));
    assert!(!text.contains("Trusted=true"));
    assert_eq!(LinuxBluetoothManager::parse_device_content(&text, &d.mac_address).unwrap(), d);
}
