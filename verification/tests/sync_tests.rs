use bluevein::bluetooth::{BluetoothDevice, BluetoothManager, LeKeys, LeLongTermKey};
use bluevein::config::BlueVeinConfig;
use bluevein::efi::{ConfigStore, EfiError};
use bluevein::monitor::Snapshot;
use bluevein::sync::{PollFailure, SyncError, SyncManager};
use std::collections::HashMap;
use std::sync::{Arc, Mutex};

struct State {
    local: HashMap<String, BluetoothDevice>,
    shared: BlueVeinConfig,
    local_writes: usize,
    shared_writes: usize,
    fail_local_read: bool,
    fail_local_write: bool,
    drop_shared_writes: bool,
    fail_read_after_write: bool,
    import_missing: bool,
    refuse_updates: bool,
    pending_calls: usize,
}

impl Default for State {
    fn default() -> Self {
        State {
            local: HashMap::new(),
            shared: BlueVeinConfig::new(),
            local_writes: 0,
            shared_writes: 0,
            fail_local_read: false,
            fail_local_write: false,
            drop_shared_writes: false,
            fail_read_after_write: false,
            import_missing: false,
            refuse_updates: false,
            pending_calls: 0,
        }
    }
}

struct Backend(Arc<Mutex<State>>);

impl BluetoothManager for Backend {
    fn get_adapters(&self) -> Result<Vec<String>, String> {
        Ok(vec!["adapter".into()])
    }
    fn get_devices(&self, _: &str) -> Result<Vec<BluetoothDevice>, String> {
        let state = self.0.lock().unwrap();
        if state.fail_local_read {
            return Err("simulated unreadable registry".into());
        }
        Ok(state.local.values().cloned().collect())
    }
    fn get_device(&self, _: &str, mac: &str) -> Result<BluetoothDevice, String> {
        self.0.lock().unwrap().local.get(mac).cloned().ok_or_else(|| "missing".to_string())
    }
    fn set_device(&mut self, _: &str, device: &BluetoothDevice) -> Result<(), String> {
        let mut state = self.0.lock().unwrap();
        if state.fail_local_write {
            return Err("simulated failed registry write".into());
        }
        state.local.insert(device.mac_address.clone(), device.clone());
        state.local_writes += 1;
        Ok(())
    }
    fn remove_device(&mut self, _: &str, _: &str) -> Result<(), String> {
        Ok(())
    }
    fn update_reason(&self, _: &BluetoothDevice, _: &BluetoothDevice) -> Option<String> {
        self.0.lock().unwrap().refuse_updates.then(|| "simulated unverifiable key".to_string())
    }
    fn apply_pending(&mut self) -> Result<(), String> {
        self.0.lock().unwrap().pending_calls += 1;
        Ok(())
    }
    fn import_missing_reason(&self, _: &BluetoothDevice) -> Option<String> {
        (!self.0.lock().unwrap().import_missing).then(|| "simulated platform without enrollment".to_string())
    }
}

struct Store(Arc<Mutex<State>>);

impl ConfigStore for Store {
    fn read(&self) -> Result<BlueVeinConfig, EfiError> {
        let state = self.0.lock().unwrap();
        if state.fail_read_after_write && state.shared_writes > 0 {
            return Err(EfiError::ReadError("simulated unreadable read-back".into()));
        }
        Ok(state.shared.clone())
    }
    fn write(&mut self, config: &BlueVeinConfig) -> Result<(), EfiError> {
        let mut state = self.0.lock().unwrap();
        if !state.drop_shared_writes {
            state.shared = config.clone();
        }
        state.shared_writes += 1;
        Ok(())
    }
    fn display_name(&self) -> &str {
        "test memory"
    }
}

fn device(key: &str) -> BluetoothDevice {
    BluetoothDevice::le_with_ltk(
        "phone".into(),
        LeLongTermKey { key: key.repeat(16), authenticated: Some(1), enc_size: Some(16), ediv: Some(0), rand: Some(0) },
    )
}

fn setup(local: BluetoothDevice, shared: BluetoothDevice) -> (SyncManager<Backend, Store>, Arc<Mutex<State>>) {
    let mut state = State::default();
    state.local.insert(local.mac_address.clone(), local);
    state.shared.update_device("adapter".into(), shared);
    let state = Arc::new(Mutex::new(state));
    (SyncManager::new(Backend(state.clone()), Store(state.clone())), state)
}

#[test]
fn preview_uses_import_plan_without_writing_local_or_shared_keys() {
    let (mut sync, state) = setup(device("11"), device("22"));
    let before = state.lock().unwrap().shared.clone();
    sync.preview_bidirectional().unwrap();
    let state = state.lock().unwrap();
    assert_eq!(state.local.get("phone"), Some(&device("11")));
    assert_eq!(state.shared, before);
    assert_eq!(state.local_writes, 0);
    assert_eq!(state.shared_writes, 0);
}

#[test]
fn failed_local_read_does_not_publish_a_partial_shared_state() {
    let (mut sync, state) = setup(device("11"), device("22"));
    state.lock().unwrap().fail_local_read = true;
    assert!(sync.sync_bidirectional().is_err());
    let state = state.lock().unwrap();
    assert_eq!(state.shared_writes, 0);
    assert_eq!(state.local_writes, 0);
}

#[test]
fn failed_local_import_is_not_published_as_a_successful_merge() {
    let (mut sync, state) = setup(device("11"), device("22"));
    state.lock().unwrap().fail_local_write = true;
    assert!(sync.sync_bidirectional().is_err());
    let state = state.lock().unwrap();
    assert_eq!(state.shared_writes, 0);
    assert_eq!(state.local_writes, 0);
    assert_eq!(state.local.get("phone"), Some(&device("11")));
}

#[test]
fn unchanged_startup_and_notifications_do_not_write_efi() {
    let (mut sync, state) = setup(device("11"), device("11"));
    sync.sync_bidirectional().unwrap();
    sync.handle_device_change("adapter", "phone").unwrap();
    sync.check_efi_changes().unwrap();
    let state = state.lock().unwrap();
    assert_eq!(state.shared_writes, 0);
    assert_eq!(state.local_writes, 0);
}

#[test]
fn local_rekey_is_exported_and_is_not_reverted_by_next_import() {
    let (mut sync, state) = setup(device("22"), device("11"));
    sync.handle_device_change("adapter", "phone").unwrap();
    sync.check_efi_changes().unwrap();
    let state = state.lock().unwrap();
    assert_eq!(state.shared.get_device("adapter", "phone"), Some(&device("22")));
    assert_eq!(state.local_writes, 0);
    assert_eq!(state.shared_writes, 1);
}

#[test]
fn local_export_preserves_other_platform_fields_and_other_devices() {
    let mut shared = device("11");
    shared.le.as_mut().unwrap().peripheral_ltk = shared.le.as_ref().unwrap().ltk.clone();
    shared.le.as_mut().unwrap().address_type = Some("public".into());
    let (mut sync, state) = setup(device("22"), shared.clone());
    let mut other = device("33");
    other.mac_address = "headphones".into();
    state.lock().unwrap().shared.update_device("adapter".into(), other.clone());
    sync.handle_device_change("adapter", "phone").unwrap();
    let state = state.lock().unwrap();
    let exported = state.shared.get_device("adapter", "phone").unwrap().le.as_ref().unwrap();
    assert_eq!(exported.ltk, device("22").le.unwrap().ltk);
    assert_eq!(exported.peripheral_ltk, shared.le.unwrap().peripheral_ltk);
    assert_eq!(exported.address_type.as_deref(), Some("public"));
    assert_eq!(state.shared.get_device("adapter", "headphones"), Some(&other));
}

#[test]
fn startup_exports_missing_ltk_for_existing_irk_only_shared_device() {
    let mut local = device("22");
    local.le.as_mut().unwrap().irk = Some("33".repeat(16));
    let shared = BluetoothDevice {
        mac_address: "phone".into(),
        name: None,
        pending_deletion: None,
        classic: None,
        le: Some(LeKeys { irk: Some("33".repeat(16)), ..Default::default() }),
    };
    let (mut sync, state) = setup(local.clone(), shared);
    sync.sync_bidirectional().unwrap();
    let state = state.lock().unwrap();
    assert_eq!(state.shared.get_device("adapter", "phone"), Some(&local));
    assert_eq!(state.shared_writes, 1);
    assert_eq!(state.local_writes, 0);
}

fn snapshot_of(device: BluetoothDevice) -> Snapshot {
    let mut s = Snapshot::new();
    s.insert("adapter".into(), device);
    s
}

#[test]
fn poll_exports_a_new_pairing_and_imports_only_when_due() {
    let (mut sync, state) = setup(device("33"), device("22"));
    let outcome = sync.poll(&snapshot_of(device("11")), 5).unwrap();
    assert!(!outcome.imported);
    assert!(outcome.failures.is_empty());
    assert_eq!(outcome.next, Some(snapshot_of(device("33"))));
    assert_eq!(state.lock().unwrap().shared.get_device("adapter", "phone"), Some(&device("33")));
    let outcome = sync.poll(&snapshot_of(device("33")), 30).unwrap();
    assert!(outcome.imported);
    assert_eq!(outcome.next, Some(snapshot_of(device("33"))));
    assert_eq!(state.lock().unwrap().local_writes, 0);
}

#[test]
fn poll_keeps_the_reference_and_defers_import_after_a_failed_export() {
    let (mut sync, state) = setup(device("33"), device("22"));
    // A record that the backend cannot read back by its address fails its export.
    state.lock().unwrap().local.insert("lost".into(), BluetoothDevice::classic("renamed".into(), "77".repeat(16)));
    let outcome = sync.poll(&snapshot_of(device("33")), 60).unwrap();
    assert!(outcome.next.is_none());
    assert!(!outcome.imported);
    assert_eq!(outcome.failures.len(), 1);
    assert!(matches!(outcome.failures[0], PollFailure::Export(_)));
    assert_eq!(state.lock().unwrap().local_writes, 0);
}

#[test]
fn poll_reports_an_unreadable_local_store_without_exporting() {
    let (mut sync, state) = setup(device("33"), device("22"));
    state.lock().unwrap().fail_local_read = true;
    let outcome = sync.poll(&snapshot_of(device("11")), 60).unwrap();
    assert!(outcome.next.is_none());
    assert!(!outcome.imported);
    assert_eq!(outcome.failures.len(), 1);
    assert!(matches!(outcome.failures[0], PollFailure::Snapshot(_)));
    assert_eq!(state.lock().unwrap().shared_writes, 0);
}

#[test]
fn dropped_efi_write_fails_the_export_and_defers_the_import() {
    let (mut sync, state) = setup(device("22"), device("11"));
    state.lock().unwrap().drop_shared_writes = true;
    assert_eq!(
        sync.handle_device_change("adapter", "phone"),
        Err(SyncError::Efi(EfiError::WriteError(
            "EFI config read-back does not match the written configuration".into()
        )))
    );
    let outcome = sync.poll(&snapshot_of(device("11")), 60).unwrap();
    assert!(outcome.next.is_none());
    assert!(!outcome.imported);
    assert_eq!(state.lock().unwrap().local.get("phone"), Some(&device("22")));
}

#[test]
fn unreadable_efi_read_back_fails_the_synchronization() {
    let (mut sync, state) = setup(device("22"), device("11"));
    state.lock().unwrap().fail_read_after_write = true;
    assert_eq!(
        sync.sync_to_efi(),
        Err(SyncError::Efi(EfiError::ReadError("simulated unreadable read-back".into())))
    );
    assert_eq!(state.lock().unwrap().shared_writes, 1);
}

#[test]
fn efi_only_repair_refuses_a_plan_that_updates_local_keys() {
    let (mut sync, state) = setup(device("11"), device("22"));
    assert_eq!(
        sync.repair_shared_only(),
        Err(SyncError::Local(
            "EFI-only repair would update the local keys of phone: refusing the plan".into()
        ))
    );
    let state = state.lock().unwrap();
    assert_eq!(state.shared_writes, 0);
    assert_eq!(state.local_writes, 0);
}

#[test]
fn efi_only_repair_writes_the_shared_record_without_local_writes() {
    let mut local = device("22");
    local.le.as_mut().unwrap().irk = Some("33".repeat(16));
    let shared = BluetoothDevice {
        mac_address: "phone".into(),
        name: None,
        pending_deletion: None,
        classic: None,
        le: Some(LeKeys { irk: Some("33".repeat(16)), ..Default::default() }),
    };
    let (mut sync, state) = setup(local.clone(), shared);
    sync.repair_shared_only().unwrap();
    let state = state.lock().unwrap();
    assert_eq!(state.shared.get_device("adapter", "phone"), Some(&local));
    assert_eq!(state.shared_writes, 1);
    assert_eq!(state.local_writes, 0);
}

fn watch() -> BluetoothDevice {
    BluetoothDevice::classic("watch".into(), "44".repeat(16))
}

#[test]
fn startup_imports_a_missing_bond_where_the_platform_can_create_it() {
    let (mut sync, state) = setup(device("11"), device("11"));
    state.lock().unwrap().shared.update_device("adapter".into(), watch());
    state.lock().unwrap().import_missing = true;
    sync.sync_bidirectional().unwrap();
    let state = state.lock().unwrap();
    assert_eq!(state.local.get("watch"), Some(&watch()));
    assert_eq!(state.local_writes, 1);
    assert_eq!(state.shared_writes, 0);
}

#[test]
fn a_missing_bond_stays_shared_where_the_platform_cannot_create_it() {
    let (mut sync, state) = setup(device("11"), device("11"));
    state.lock().unwrap().shared.update_device("adapter".into(), watch());
    sync.sync_bidirectional().unwrap();
    let state = state.lock().unwrap();
    assert!(state.local.get("watch").is_none());
    assert_eq!(state.shared.get_device("adapter", "watch"), Some(&watch()));
    assert_eq!(state.local_writes, 0);
    assert_eq!(state.shared_writes, 0);
}

#[test]
fn missing_bonds_are_imported_for_an_adapter_without_local_devices() {
    let (mut sync, state) = setup(device("11"), watch());
    {
        let mut state = state.lock().unwrap();
        state.local.clear();
        state.import_missing = true;
    }
    sync.preview_bidirectional().unwrap();
    assert_eq!(state.lock().unwrap().local_writes, 0);
    sync.sync_bidirectional().unwrap();
    let state = state.lock().unwrap();
    assert_eq!(state.local.get("watch"), Some(&watch()));
    assert_eq!(state.shared_writes, 0);
}

#[test]
fn an_update_the_platform_refuses_is_skipped() {
    let (mut sync, state) = setup(device("11"), device("22"));
    state.lock().unwrap().refuse_updates = true;
    sync.sync_bidirectional().unwrap();
    sync.check_efi_changes().unwrap();
    let state = state.lock().unwrap();
    assert_eq!(state.local.get("phone"), Some(&device("11")));
    assert_eq!(state.local_writes, 0);
    assert_eq!(state.shared.get_device("adapter", "phone"), Some(&device("22")));
}

#[test]
fn an_import_batch_is_completed_once_also_after_a_failure() {
    let (mut sync, state) = setup(device("11"), device("22"));
    sync.sync_bidirectional().unwrap();
    assert_eq!(state.lock().unwrap().local_writes, 1);
    assert_eq!(state.lock().unwrap().pending_calls, 1);
    let (mut sync, state) = setup(device("11"), device("22"));
    state.lock().unwrap().fail_local_write = true;
    assert!(sync.sync_bidirectional().is_err());
    assert_eq!(state.lock().unwrap().pending_calls, 1);
    let (mut sync, state) = setup(device("11"), device("11"));
    sync.sync_bidirectional().unwrap();
    assert_eq!(state.lock().unwrap().pending_calls, 0);
}

#[test]
fn sync_from_efi_writes_every_shared_record_and_ignores_failures() {
    let (mut sync, state) = setup(device("11"), device("22"));
    state.lock().unwrap().shared.update_device("adapter".into(), BluetoothDevice::classic("watch".into(), "44".repeat(16)));
    sync.sync_from_efi().unwrap();
    assert_eq!(state.lock().unwrap().local_writes, 2);
    assert_eq!(state.lock().unwrap().shared_writes, 0);
    state.lock().unwrap().fail_local_write = true;
    sync.sync_from_efi().unwrap();
}

#[test]
fn poll_reports_each_exported_pair_once() {
    let (mut sync, _state) = setup(device("33"), device("22"));
    let outcome = sync.poll(&snapshot_of(device("11")), 5).unwrap();
    assert_eq!(outcome.exported, vec![("adapter".to_string(), "phone".to_string())]);
    let outcome = sync.poll(&snapshot_of(device("33")), 5).unwrap();
    assert!(outcome.exported.is_empty());
    assert_eq!(outcome.next, Some(snapshot_of(device("33"))));
}
