use bluevein::bluetooth::{BluetoothDevice, ClassicKeys, CsrkKey, LeKeys, LeLongTermKey};
use bluevein::config::BlueVeinConfig;
use bluevein::migrate::migrate_local_records;
use bluevein::sync::{check_read_back, import_candidates, missing_bonds, merge_devices, plan_export, plan_shared_config, SyncError};
use bluevein::efi::EfiError;

fn ltk(key: &str) -> LeLongTermKey {
    LeLongTermKey { key: key.repeat(16), authenticated: Some(1), enc_size: Some(16), ediv: Some(0), rand: Some(0) }
}

fn with_csrk(key: &str, counter: u32, authenticated: bool) -> BluetoothDevice {
    let mut d = BluetoothDevice::le_with_ltk("phone".into(), ltk("11"));
    d.le.as_mut().unwrap().csrk_local = Some(CsrkKey { key: key.repeat(16), counter, authenticated });
    d
}

#[test]
fn merge_keeps_the_larger_signature_counter_of_the_same_key() {
    let merged = merge_devices(&with_csrk("aa", 7, false), &with_csrk("aa", 3, true));
    let csrk = merged.le.unwrap().csrk_local.unwrap();
    assert_eq!((csrk.counter, csrk.authenticated), (7, true));
    let merged = merge_devices(&with_csrk("aa", 7, false), &with_csrk("bb", 3, false));
    assert_eq!(merged.le.unwrap().csrk_local.unwrap().key, "bb".repeat(16));
}

#[test]
fn merging_identical_records_and_repeated_imports_change_nothing() {
    let d = with_csrk("aa", 9, true);
    assert_eq!(merge_devices(&d, &d), d);
    let local = with_csrk("aa", 2, false);
    let mut shared = with_csrk("aa", 5, true);
    shared.classic = Some(ClassicKeys::new("cc".repeat(16)));
    let once = merge_devices(&local, &shared);
    assert_eq!(merge_devices(&once, &shared), once);
}

#[test]
fn exported_local_keys_survive_the_next_import() {
    let mut local = BluetoothDevice::le_with_ltk("phone".into(), ltk("22"));
    local.le.as_mut().unwrap().csrk_local = Some(CsrkKey { key: "aa".repeat(16), counter: 4, authenticated: false });
    let mut shared = BluetoothDevice::le_with_ltk("phone".into(), ltk("11"));
    shared.le.as_mut().unwrap().address_type = Some("public".into());
    shared.le.as_mut().unwrap().csrk_local = Some(CsrkKey { key: "aa".repeat(16), counter: 8, authenticated: true });
    let exported = merge_devices(&shared, &local);
    assert_eq!(exported.le.as_ref().unwrap().ltk, local.le.as_ref().unwrap().ltk);
    assert_eq!(exported.le.as_ref().unwrap().address_type.as_deref(), Some("public"));
    assert_eq!(exported.le.as_ref().unwrap().csrk_local.as_ref().unwrap().counter, 8);
    assert_eq!(merge_devices(&local, &exported), exported);
}

#[test]
fn shared_plan_adds_new_local_devices_and_keeps_shared_only_ones() {
    let mut shared = BlueVeinConfig::new();
    let kept = BluetoothDevice::classic("kept".into(), "11".repeat(16));
    shared.update_device("adapter".into(), kept.clone());
    let mut local = BlueVeinConfig::new();
    let new = BluetoothDevice::classic("new".into(), "22".repeat(16));
    local.update_device("adapter".into(), new.clone());
    let planned = plan_shared_config(&shared, &local);
    assert_eq!(planned.get_device("adapter", "kept"), Some(&kept));
    assert_eq!(planned.get_device("adapter", "new"), Some(&new));
    let unchanged = plan_shared_config(&planned, &local);
    assert!(bluevein::config::same_config(&unchanged, &planned));
}

#[test]
fn imports_only_touch_devices_bonded_locally() {
    let shared = vec![
        BluetoothDevice::classic("here".into(), "11".repeat(16)),
        BluetoothDevice::classic("elsewhere".into(), "22".repeat(16)),
    ];
    let local = vec![BluetoothDevice::classic("here".into(), "33".repeat(16))];
    let candidates = import_candidates(&shared, &local);
    assert_eq!(candidates.len(), 1);
    assert_eq!(candidates[0].current, local[0]);
    assert_eq!(candidates[0].desired.classic.as_ref().unwrap().link_key, "11".repeat(16));
}

#[test]
fn exporting_an_identical_record_plans_no_write() {
    let mut config = BlueVeinConfig::new();
    let d = BluetoothDevice::classic("phone".into(), "11".repeat(16));
    config.update_device("adapter".into(), d.clone());
    assert!(plan_export(&config, "adapter", &d).is_none());
    let changed = BluetoothDevice::classic("phone".into(), "22".repeat(16));
    let updated = plan_export(&config, "adapter", &changed).unwrap();
    assert_eq!(updated.get_device("adapter", "phone"), Some(&changed));
}

#[test]
fn migration_tags_proven_irk_order_and_renames_static_addresses() {
    let mut config = BlueVeinConfig::new();
    let mut shared = BluetoothDevice::le_with_ltk("phone".into(), ltk("11"));
    shared.le.as_mut().unwrap().irk = Some("ab".repeat(16));
    shared.le.as_mut().unwrap().address_type = Some("static".into());
    config.update_device("adapter".into(), shared.clone());
    let mut other = shared.clone();
    other.mac_address = "watch".into();
    other.le.as_mut().unwrap().irk = Some("cd".repeat(16));
    config.update_device("adapter".into(), other.clone());
    let mut local = shared.clone();
    local.le.as_mut().unwrap().irk = Some("AB".repeat(16));
    let mut watch = other.clone();
    watch.le.as_mut().unwrap().irk = Some("ef".repeat(16));
    migrate_local_records(&mut config, "adapter", &vec![local.clone(), watch.clone()], true);
    let le = config.get_device("adapter", "phone").unwrap().le.as_ref().unwrap();
    assert_eq!(le.irk_encoding.as_deref(), Some("windows"));
    assert_eq!(le.address_type.as_deref(), Some("random"));
    let le = config.get_device("adapter", "watch").unwrap().le.as_ref().unwrap();
    assert!(le.irk_encoding.is_none());
    assert_eq!(le.address_type.as_deref(), Some("random"));
    let once = config.clone();
    migrate_local_records(&mut config, "adapter", &vec![local, watch], true);
    assert_eq!(once, config);
}

#[test]
fn sync_errors_describe_their_cause() {
    assert_eq!(SyncError::Local("adapter gone".into()).message(), "adapter gone");
    assert_eq!(SyncError::Efi(EfiError::NotFound).message(), "Configuration file not found on EFI partition");
    let _ = LeKeys::default();
}

#[test]
fn a_write_counts_only_when_it_reads_back_equal() {
    let mut written = BlueVeinConfig::new();
    written.update_device("adapter".into(), BluetoothDevice::classic("phone".into(), "22".repeat(16)));
    assert_eq!(check_read_back(&written, Ok(written.clone())), Ok(()));
    assert_eq!(
        check_read_back(&written, Ok(BlueVeinConfig::new())),
        Err(SyncError::Efi(EfiError::WriteError(
            "EFI config read-back does not match the written configuration".into()
        )))
    );
    assert_eq!(check_read_back(&written, Err(EfiError::NotFound)), Err(SyncError::Efi(EfiError::NotFound)));
}

#[test]
fn missing_bonds_are_the_shared_records_without_a_local_one() {
    let phone = BluetoothDevice::le_with_ltk("phone".into(), ltk("11"));
    let watch = BluetoothDevice::classic("watch".into(), "22".repeat(16));
    let missing = missing_bonds(&vec![phone.clone(), watch.clone()], &vec![phone.clone()]);
    assert_eq!(missing, vec![watch.clone()]);
    assert!(missing_bonds(&vec![phone.clone()], &vec![phone]).is_empty());
}
