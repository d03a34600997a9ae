use bluevein::bluetooth::{BluetoothDevice, ClassicKeys, LeKeys, LeLongTermKey};
use bluevein::monitor::{changed_devices, Snapshot};

fn device(key: &str) -> BluetoothDevice {
    BluetoothDevice::le_with_ltk(
        "AA:BB:CC:DD:EE:FF".into(),
        LeLongTermKey { key: key.repeat(16), authenticated: Some(1), enc_size: Some(16), ediv: Some(0), rand: Some(0) },
    )
}

fn snapshot_of(device: BluetoothDevice) -> Snapshot {
    let mut snapshot = Snapshot::new();
    snapshot.insert("00:11:22:33:44:55".into(), device);
    snapshot
}

fn snapshot(key: &str) -> Snapshot {
    snapshot_of(device(key))
}

#[test]
fn detects_le_only_pairing_and_rekey_without_classic_changes() {
    let old = snapshot("11");
    assert_eq!(changed_devices(&Snapshot::new(), &old).len(), 1);
    assert_eq!(changed_devices(&old, &snapshot("22")).len(), 1);
    assert!(changed_devices(&old, &old).is_empty());
}

#[test]
fn detects_irk_change_with_unchanged_classic_key() {
    let mut base = device("11");
    base.classic = Some(ClassicKeys::new("33".repeat(16)));
    base.le = Some(LeKeys { irk: Some("44".repeat(16)), ..Default::default() });
    let mut changed = base.clone();
    changed.le.as_mut().unwrap().irk = Some("55".repeat(16));
    let old = snapshot_of(base);
    let new = snapshot_of(changed);
    assert_eq!(changed_devices(&old, &new).len(), 1);
}
