use bluevein::bluetooth::{
    mac_to_windows_format, windows_format_to_mac, BluetoothDevice, CsrkKey, LeKeys, LeLongTermKey,
};
use bluevein::config::BlueVeinConfig;
use bluevein::windows::{
    check_le_import, choose_le_storage, classic_from_registry, classic_registry_value, keep_address, keep_device,
    le_from_registry, le_location, le_write_plan, location_address_type, matching_storage, migrate_alias,
    parse_hex_u64, registry_adapters, registry_device_addresses, registry_projection, windows_device,
    windows_ltk_type, LeRecordKeys, LeRegistryRecord, RegistryValue, WindowsBluetoothManager,
};

fn key() -> LeLongTermKey {
    LeLongTermKey { key: "11".repeat(16), authenticated: Some(1), enc_size: Some(16), ediv: Some(0), rand: Some(0) }
}

fn empty_record() -> LeRegistryRecord {
    LeRegistryRecord {
        ltk: None,
        authenticated: None,
        key_length: None,
        ediv: None,
        erand: None,
        auth_req: None,
        irk: None,
        csrk: None,
        csrk_inbound: None,
    }
}

#[test]
fn untagged_conflicting_irk_cannot_overwrite_live_windows_bond() {
    let manager = WindowsBluetoothManager::new();
    let mut local = BluetoothDevice::le_with_ltk("AA:BB:CC:DD:EE:FF".into(), key());
    local.le.as_mut().unwrap().irk = Some("22".repeat(16));
    local.le.as_mut().unwrap().irk_encoding = Some("windows".into());
    let mut shared = local.clone();
    shared.le.as_mut().unwrap().irk = Some("33".repeat(16));
    shared.le.as_mut().unwrap().irk_encoding = None;
    assert!(manager.update_reason(&local, &shared).is_some());
    shared.le.as_mut().unwrap().irk_encoding = Some("windows".into());
    assert!(manager.update_reason(&local, &shared).is_none());
}

#[test]
fn hexadecimal_case_is_not_a_key_change() {
    let mut lower = BluetoothDevice::le_with_ltk("AA:BB:CC:DD:EE:FF".into(), key());
    let le = lower.le.as_mut().unwrap();
    le.ltk.as_mut().unwrap().key = "ab".repeat(16);
    le.irk = Some("cd".repeat(16));
    let upper = registry_projection(&lower);
    assert_eq!(registry_projection(&lower), registry_projection(&upper));
}

#[test]
fn le_rekey_does_not_downgrade_unchanged_classic_metadata() {
    let manager = WindowsBluetoothManager::new();
    let mut local = BluetoothDevice::classic("AA:BB:CC:DD:EE:FF".into(), "ab".repeat(16));
    let mut shared = local.clone();
    shared.classic.as_mut().unwrap().key_type = 8;
    shared.classic.as_mut().unwrap().pin_length = 6;
    let exported = manager.prepare_local_export(&local, &shared);
    assert_eq!(exported.classic.unwrap().key_type, 8);
    local.classic.as_mut().unwrap().link_key = "cd".repeat(16);
    assert_eq!(manager.prepare_local_export(&local, &shared).classic.unwrap().key_type, 4);
}

#[test]
fn local_sc_rekey_replaces_stale_shared_peripheral_key() {
    let manager = WindowsBluetoothManager::new();
    let mut local = BluetoothDevice::le_with_ltk("12:34:56:78:9A:BC".into(), key());
    let mut shared = local.clone();
    shared.le.as_mut().unwrap().peripheral_ltk = Some(key());
    for security_type in [2, 3] {
        let ltk = local.le.as_mut().unwrap().ltk.as_mut().unwrap();
        ltk.key = "77".repeat(16);
        ltk.authenticated = Some(security_type);
        let prepared = manager.prepare_local_export(&local, &shared);
        let result = shared.merge_with(&prepared);
        let le = result.le.unwrap();
        assert_eq!(le.peripheral_ltk, le.ltk);
        assert_eq!(le.ltk.unwrap().key, "77".repeat(16));
    }
    local.le.as_mut().unwrap().ltk.as_mut().unwrap().authenticated = Some(1);
    let result = shared.merge_with(&manager.prepare_local_export(&local, &shared));
    assert_eq!(result.le.unwrap().peripheral_ltk, shared.le.unwrap().peripheral_ltk);
}

#[test]
fn sc_security_type_is_not_inferred_from_requested_mitm() {
    assert_eq!(windows_ltk_type(None, Some(0x2d), Some(0), Some(0)), 2);
    assert_eq!(windows_ltk_type(Some(1), Some(0x2d), Some(0), Some(0)), 3);
    assert_eq!(windows_ltk_type(Some(1), Some(0x05), Some(7), Some(9)), 1);
    assert_eq!(windows_ltk_type(None, None, Some(0), Some(0)), 0);
}

#[test]
fn iphone_irk_only_does_not_reimport_linux_metadata() {
    let current = BluetoothDevice {
        mac_address: "AA:BB:CC:DD:EE:FF".into(),
        name: None,
        pending_deletion: None,
        classic: None,
        le: Some(LeKeys { irk: Some("22".repeat(16)), ..Default::default() }),
    };
    let mut desired = current.clone();
    desired.le.as_mut().unwrap().peripheral_ltk = Some(key());
    assert_eq!(registry_projection(&current), registry_projection(&desired));
    assert!(desired.le.as_ref().unwrap().peripheral_ltk.is_some());
}

#[test]
fn real_ltk_and_irk_changes_still_require_import() {
    let current = BluetoothDevice::le_with_ltk("AA:BB:CC:DD:EE:FF".into(), key());
    let mut desired = current.clone();
    desired.le.as_mut().unwrap().ltk.as_mut().unwrap().key = "33".repeat(16);
    assert_ne!(registry_projection(&current), registry_projection(&desired));
    let mut desired = current.clone();
    desired.le.as_mut().unwrap().irk = Some("22".repeat(16));
    assert_ne!(registry_projection(&current), registry_projection(&desired));
}

#[test]
fn peripheral_key_alone_is_not_a_windows_ltk() {
    let mut device = BluetoothDevice::le_with_ltk("AA:BB:CC:DD:EE:FF".into(), key());
    let le = device.le.as_mut().unwrap();
    le.peripheral_ltk = le.ltk.take();
    assert!(registry_projection(&device).le.is_none());
}

/// Applies the values of a plan to a record, as the registry would hold them.
fn apply(record: &mut LeRegistryRecord, plan: &bluevein::windows::WritePlan) -> Option<(u64, u32)> {
    let mut address = None;
    let mut kind = None;
    for w in &plan.writes {
        match (w.name.as_str(), &w.value) {
            ("LTK", RegistryValue::Binary(b)) => record.ltk = Some(b.clone()),
            ("IRK", RegistryValue::Binary(b)) => record.irk = Some(b.clone()),
            ("CSRK", RegistryValue::Binary(b)) => record.csrk = Some(b.clone()),
            ("CSRKInbound", RegistryValue::Binary(b)) => record.csrk_inbound = Some(b.clone()),
            ("Authenticated", RegistryValue::Dword(d)) => record.authenticated = Some(*d),
            ("KeyLength", RegistryValue::Dword(d)) => record.key_length = Some(*d),
            ("EDIV", RegistryValue::Dword(d)) => record.ediv = Some(*d),
            ("AuthReq", RegistryValue::Dword(d)) => record.auth_req = Some(*d),
            ("ERand", RegistryValue::Qword(q)) => record.erand = Some(*q),
            ("Address", RegistryValue::Qword(q)) => address = Some(*q),
            ("AddressType", RegistryValue::Dword(d)) => kind = Some(*d),
            _ => panic!("unexpected registry value {}", w.name),
        }
    }
    address.zip(kind)
}

#[test]
fn windows_registry_round_trip_converges_without_touching_system_bonds() {
    let manager = WindowsBluetoothManager::new();
    let mut desired = BluetoothDevice::le_with_ltk("AA:BB:CC:DD:EE:FF".into(), key());
    let le = desired.le.as_mut().unwrap();
    le.irk = Some("22".repeat(16));
    le.peripheral_ltk = Some(key());
    le.address_type = Some("public".into());
    le.csrk_local = Some(CsrkKey { key: "33".repeat(16), counter: 100, authenticated: true });
    check_le_import(desired.le.as_ref().unwrap()).unwrap();
    let plan = le_write_plan(desired.le.as_ref().unwrap(), &desired.mac_address, None);
    assert!(plan.error.is_none());
    let mut record = empty_record();
    let (address, kind) = apply(&mut record, &plan).unwrap();
    assert_eq!(address, 0xAABBCCDDEEFF);
    let location = le_location("aabbccddeeff", Some(address), Some(kind)).unwrap();
    assert_eq!(location.identity, "AA:BB:CC:DD:EE:FF");
    let le = le_from_registry(&record, location.address_type.clone());
    let actual = windows_device(&location.identity, None, le).unwrap();
    assert!(!manager.needs_update(&actual, &desired));
    assert_eq!(actual.le.as_ref().unwrap().ltk, desired.le.as_ref().unwrap().ltk);
    assert!(actual.le.as_ref().unwrap().peripheral_ltk.is_none());
}

#[test]
fn write_plan_sets_secure_connections_flags_and_stops_at_invalid_keys() {
    let mut le = LeKeys { ltk: Some(key()), ..Default::default() };
    le.ltk.as_mut().unwrap().authenticated = Some(3);
    let plan = le_write_plan(&le, "AA:BB:CC:DD:EE:FF", Some(0x21));
    let values: Vec<(&str, &RegistryValue)> = plan.writes.iter().map(|w| (w.name.as_str(), &w.value)).collect();
    assert!(matches!(values[1], ("Authenticated", RegistryValue::Dword(1))));
    assert!(matches!(values[2], ("AuthReq", RegistryValue::Dword(0x2d))));
    le.irk = Some("xyz".into());
    let plan = le_write_plan(&le, "AA:BB:CC:DD:EE:FF", None);
    assert_eq!(plan.error.as_deref(), Some("Invalid IRK key: expected 32 hexadecimal characters"));
    assert_eq!(plan.writes.len(), 6);
    le.irk = None;
    le.address_type = Some("static".into());
    let plan = le_write_plan(&le, "AA:BB:CC:DD:EE:FF", None);
    assert_eq!(plan.error.as_deref(), Some("Unsupported LE address type"));
    assert!(plan.writes.is_empty());
    le.ltk.as_mut().unwrap().authenticated = Some(4);
    assert_eq!(check_le_import(&le).unwrap_err(), "Unsupported LTK security type for Windows");
}

#[test]
fn registry_reads_keep_only_whole_keys() {
    let classic = classic_from_registry(&[0xab; 16]).unwrap();
    assert_eq!(classic.link_key, "AB".repeat(16));
    assert_eq!((classic.key_type, classic.pin_length), (4, 0));
    assert!(classic_from_registry(&[0xab; 15]).is_none());
    let mut record = empty_record();
    record.irk = Some(vec![0x0f; 16]);
    record.csrk = Some(vec![1; 3]);
    let le = le_from_registry(&record, Some("random".into())).unwrap();
    assert_eq!(le.irk.as_deref(), Some("0F".repeat(16).as_str()));
    assert_eq!(le.irk_encoding.as_deref(), Some("windows"));
    assert!(le.csrk_local.is_none());
    assert!(le_from_registry(&empty_record(), Some("public".into())).is_none());
    assert_eq!(classic_registry_value(&bluevein::bluetooth::ClassicKeys::new("0A".repeat(16))).unwrap(), vec![0x0a; 16]);
    assert!(classic_registry_value(&bluevein::bluetooth::ClassicKeys::new("0A".into())).is_err());
}

#[test]
fn rpa_registry_record_exports_under_identity_and_imports_to_same_storage() {
    let alias = le_location("412233445566", Some(0x123456789abc), Some(0)).unwrap();
    assert_eq!(alias.identity, "12:34:56:78:9A:BC");
    assert_eq!(alias.address_type.as_deref(), Some("public"));
    let shadow = le_location("123456789abc", None, None).unwrap();
    let locations = vec![alias, shadow];
    assert_eq!(matching_storage(&locations, "12:34:56:78:9a:bc"), vec!["412233445566", "123456789abc"]);
    let candidates = vec![
        LeRecordKeys { storage: "412233445566".into(), ltk: Some(vec![0x11; 16]), irk: Some(vec![0x22; 16]) },
        LeRecordKeys { storage: "123456789abc".into(), ltk: None, irk: Some(vec![0x99; 16]) },
    ];
    assert_eq!(choose_le_storage(&candidates).unwrap().as_deref(), Some("412233445566"));
    assert_eq!(location_address_type(&locations, "412233445566").as_deref(), Some("public"));
    assert_eq!(registry_device_addresses(&vec![], &locations), vec!["12:34:56:78:9A:BC"]);
}

#[test]
fn conflicting_complete_identity_bonds_refuse_reads_and_imports() {
    let candidates = vec![
        LeRecordKeys { storage: "412233445566".into(), ltk: Some(vec![0x11; 16]), irk: None },
        LeRecordKeys { storage: "123456789abc".into(), ltk: Some(vec![0x88; 16]), irk: None },
    ];
    assert_eq!(
        choose_le_storage(&candidates).unwrap_err(),
        "Conflicting Windows LE records for one identity; refusing to choose a bond"
    );
    let same = vec![
        LeRecordKeys { storage: "bb".into(), ltk: Some(vec![1; 16]), irk: None },
        LeRecordKeys { storage: "AA".into(), ltk: Some(vec![1; 16]), irk: None },
    ];
    assert_eq!(choose_le_storage(&same).unwrap().as_deref(), Some("AA"));
    assert_eq!(choose_le_storage(&vec![]).unwrap(), None);
}

#[test]
fn identity_addresses_must_be_static_and_in_range() {
    assert_eq!(le_location("x", Some(0), None).unwrap_err(), "Invalid Windows LE identity address");
    assert_eq!(le_location("x", Some(1 << 48), None).unwrap_err(), "Invalid Windows LE identity address");
    assert_eq!(
        le_location("x", Some(0x4122_3344_5566), Some(1)).unwrap_err(),
        "Windows LE identity is a temporary random address"
    );
    assert_eq!(le_location("x", Some(1), Some(2)).unwrap_err(), "Unsupported Windows LE identity address type");
    assert_eq!(le_location("x", Some(0xC122_3344_5566), Some(1)).unwrap().identity, "C1:22:33:44:55:66");
}

fn live_bond() -> BluetoothDevice {
    let mut live = BluetoothDevice::le_with_ltk("12:34:56:78:9A:BC".into(), key());
    live.le.as_mut().unwrap().ltk.as_mut().unwrap().authenticated = Some(2);
    live.le.as_mut().unwrap().irk = Some("22".repeat(16));
    live.le.as_mut().unwrap().irk_encoding = Some("windows".into());
    live.le.as_mut().unwrap().address_type = Some("public".into());
    live
}

#[test]
fn migration_moves_verified_alias_keys_and_replaces_stale_sc_role_key() {
    let adapter = "00:11:22:33:44:55";
    let mut config = BlueVeinConfig::new();
    let mut alias = BluetoothDevice::le_with_ltk("41:22:33:44:55:66".into(), key());
    alias.le.as_mut().unwrap().irk = Some("22".repeat(16));
    config.update_device(adapter.into(), alias);
    let mut old = BluetoothDevice::classic("12:34:56:78:9A:BC".into(), "44".repeat(16));
    let mut old_key = key();
    old_key.key = "99".repeat(16);
    old_key.authenticated = Some(2);
    old.le = Some(LeKeys { peripheral_ltk: Some(old_key), irk: Some("99".repeat(16)), ..Default::default() });
    config.update_device(adapter.into(), old);
    let other = BluetoothDevice::classic("AA:BB:CC:DD:EE:FF".into(), "55".repeat(16));
    config.update_device(adapter.into(), other.clone());
    let live = live_bond();
    migrate_alias(&mut config, adapter, "41:22:33:44:55:66", "12:34:56:78:9A:BC", &live).unwrap();
    assert!(config.get_device(adapter, "41:22:33:44:55:66").is_none());
    let result = config.get_device(adapter, "12:34:56:78:9A:BC").unwrap();
    let le = result.le.as_ref().unwrap();
    assert_eq!(le.ltk, le.peripheral_ltk);
    assert_eq!(le.ltk.as_ref().unwrap().authenticated, Some(2));
    assert_eq!(result.classic.as_ref().unwrap().link_key, "44".repeat(16));
    assert_eq!(config.get_device(adapter, &other.mac_address), Some(&other));
    let once = config.clone();
    migrate_alias(&mut config, adapter, "41:22:33:44:55:66", "12:34:56:78:9A:BC", &live).unwrap();
    assert_eq!(once, config);
}

#[test]
fn migration_rejects_unverified_alias_without_changing_shared_config() {
    let adapter = "00:11:22:33:44:55";
    let mut config = BlueVeinConfig::new();
    let mut alias = BluetoothDevice::le_with_ltk("41:22:33:44:55:66".into(), key());
    alias.le.as_mut().unwrap().irk = Some("88".repeat(16));
    config.update_device(adapter.into(), alias);
    let before = config.clone();
    assert_eq!(
        migrate_alias(&mut config, adapter, "41:22:33:44:55:66", "12:34:56:78:9A:BC", &live_bond()).unwrap_err(),
        "Legacy EFI alias differs from the live Windows bond; refusing automatic migration"
    );
    assert_eq!(before, config);
}

#[test]
fn registry_names_and_addresses() {
    assert_eq!(mac_to_windows_format("12:34:56:78:9A:BC"), "123456789abc");
    assert_eq!(windows_format_to_mac("123456789abc"), "12:34:56:78:9A:BC");
    assert_eq!(parse_hex_u64("123456789abc").unwrap(), 0x1234_5678_9abc);
    assert_eq!(parse_hex_u64("").unwrap_err(), "cannot parse integer from empty string");
    assert_eq!(parse_hex_u64("12g").unwrap_err(), "invalid digit found in string");
    assert_eq!(parse_hex_u64("1ffffffffffffffff").unwrap_err(), "number too large to fit in target type");
    assert_eq!(parse_hex_u64("+ff").unwrap(), 255);
    let names = vec!["001122334455".to_string(), "Settings".to_string()];
    assert_eq!(registry_adapters(&names), vec!["00:11:22:33:44:55"]);
    let values = vec!["aabbccddeeff".to_string(), "001122334455".to_string(), "AABBCCDDEEFF".to_string()];
    assert_eq!(registry_device_addresses(&values, &vec![]), vec!["00:11:22:33:44:55", "AA:BB:CC:DD:EE:FF"]);
    assert_eq!(
        keep_address(vec!["00:11:22:33:44:55".into(), "AA:BB:CC:DD:EE:FF".into()], "aa:bb:cc:dd:ee:ff"),
        vec!["AA:BB:CC:DD:EE:FF"]
    );
    let kept = keep_device(vec![live_bond(), BluetoothDevice::classic("X".into(), "11".repeat(16))], "12:34:56:78:9a:bc");
    assert_eq!(kept.len(), 1);
    assert_eq!(windows_device("aa:bb", None, None).unwrap_err(), "Device aa:bb not found");
}
