//! Synchronization of the local bonds with the shared configuration.
use vstd::prelude::*;
use crate::bluetooth::{
    opt_view, merge_view, BluetoothDevice, BluetoothManager, CsrkKey, CsrkView, DeviceView, LeKeys,
    LeKeysView, clone_opt_csrk,
};
use crate::config::{
    adapter_devices, adapters_view, clone_devices, config_device, devices_view, find_device,
    lemma_adapters_view_push, lemma_devices_view_empty, lemma_devices_view_push, put_device,
    BlueVeinConfig, ConfigMap, DeviceMap,
};
use crate::efi::{spec_efi_message, ConfigStore, EfiError};
use crate::monitor::{
    changed_devices, pair_key, spec_changed, tick_action, Snapshot, SnapshotKey, TickAction, IMPORT_INTERVAL_SECS,
};
use crate::text::{chars_of, push_chars, string_from};
use crate::record::Recorder;

verus! {

/// Signature keys of a merge: the same key keeps the larger counter (no rollback, so
/// no replay) and either authentication; a different key comes from the shared side.
pub open spec fn merge_csrk(local: Option<CsrkView>, shared: Option<CsrkView>) -> Option<CsrkView> {
    match (local, shared) {
        (Some(l), Some(s)) => if l.key == s.key {
            Some(
                CsrkView {
                    key: l.key,
                    counter: if l.counter >= s.counter {
                        l.counter
                    } else {
                        s.counter
                    },
                    authenticated: l.authenticated || s.authenticated,
                },
            )
        } else {
            Some(s)
        },
        (Some(l), None) => Some(l),
        (None, s) => s,
    }
}

pub open spec fn csrk_local_of(le: Option<LeKeysView>) -> Option<CsrkView> {
    match le {
        Some(l) => l.csrk_local,
        None => None,
    }
}

pub open spec fn csrk_remote_of(le: Option<LeKeysView>) -> Option<CsrkView> {
    match le {
        Some(l) => l.csrk_remote,
        None => None,
    }
}

/// The record `local` overlaid with `shared` (`merge_view`), with signature keys
/// combined by `merge_csrk`.
pub open spec fn merge_devices_view(local: DeviceView, shared: DeviceView) -> DeviceView {
    let m = merge_view(local, shared);
    match m.le {
        Some(le) => DeviceView {
            le: Some(
                LeKeysView {
                    csrk_local: merge_csrk(csrk_local_of(local.le), csrk_local_of(shared.le)),
                    csrk_remote: merge_csrk(csrk_remote_of(local.le), csrk_remote_of(shared.le)),
                    ..le
                },
            ),
            ..m
        },
        None => m,
    }
}

fn merge_csrk_exec(local: &Option<CsrkKey>, shared: &Option<CsrkKey>) -> (r: Option<CsrkKey>)
    ensures
        opt_view(r) == merge_csrk(opt_view(*local), opt_view(*shared)),
{
    match (local, shared) {
        (Some(l), Some(s)) => {
            if l.key == s.key {
                Some(
                    CsrkKey {
                        key: l.key.clone(),
                        counter: if l.counter >= s.counter {
                            l.counter
                        } else {
                            s.counter
                        },
                        authenticated: l.authenticated || s.authenticated,
                    },
                )
            } else {
                Some(s.clone())
            }
        },
        (Some(l), None) => Some(l.clone()),
        (None, Some(s)) => Some(s.clone()),
        (None, None) => None,
    }
}

fn csrk_local_exec(le: &Option<LeKeys>) -> (r: Option<CsrkKey>)
    ensures
        opt_view(r) == csrk_local_of(opt_view(*le)),
{
    match le {
        Some(l) => clone_opt_csrk(&l.csrk_local),
        None => None,
    }
}

fn csrk_remote_exec(le: &Option<LeKeys>) -> (r: Option<CsrkKey>)
    ensures
        opt_view(r) == csrk_remote_of(opt_view(*le)),
{
    match le {
        Some(l) => clone_opt_csrk(&l.csrk_remote),
        None => None,
    }
}

/// Merges the local record `system_device` with the shared `efi_device`, keeping the
/// keys of both transports of a dual-mode device. Signature keys with the same key
/// keep the larger counter: Windows does not persist it, and a lower counter would
/// let a peer replay signed packets.
pub fn merge_devices(system_device: &BluetoothDevice, efi_device: &BluetoothDevice) -> (r:
    BluetoothDevice)
    ensures
        r@ == merge_devices_view(system_device@, efi_device@),
{
    let merged = system_device.merge_with(efi_device);
    let le = match merged.le {
        Some(le) => Some(
            LeKeys {
                ltk: le.ltk,
                peripheral_ltk: le.peripheral_ltk,
                irk: le.irk,
                irk_encoding: le.irk_encoding,
                csrk_local: merge_csrk_exec(
                    &csrk_local_exec(&system_device.le),
                    &csrk_local_exec(&efi_device.le),
                ),
                csrk_remote: merge_csrk_exec(
                    &csrk_remote_exec(&system_device.le),
                    &csrk_remote_exec(&efi_device.le),
                ),
                address_type: le.address_type,
            },
        ),
        None => None,
    };
    BluetoothDevice {
        mac_address: merged.mac_address,
        name: merged.name,
        pending_deletion: merged.pending_deletion,
        classic: merged.classic,
        le,
    }
}

/// Whether the Classic or LE keys of two records differ.
pub fn devices_differ(dev1: &BluetoothDevice, dev2: &BluetoothDevice) -> (r: bool)
    ensures
        r == (dev1@.classic != dev2@.classic || dev1@.le != dev2@.le),
{
    dev1.keys_differ(dev2)
}


/// The devices of one adapter after synchronization: every local record merged with
/// the shared one of the same address, local records missing from the shared side
/// added as they are, shared records missing locally kept as they are.
pub open spec fn overlay_devices(shared: DeviceMap, local: DeviceMap) -> DeviceMap {
    Map::new(
        |k: Seq<char>| shared.contains_key(k) || local.contains_key(k),
        |k: Seq<char>|
            if local.contains_key(k) {
                if shared.contains_key(k) {
                    merge_devices_view(local[k], shared[k])
                } else {
                    local[k]
                }
            } else {
                shared[k]
            },
    )
}

/// The shared configuration after synchronization with the local adapters `local`:
/// adapters known locally get `overlay_devices`, the others stay as they are.
pub open spec fn overlay_config(shared: ConfigMap, local: ConfigMap) -> ConfigMap {
    Map::new(
        |a: Seq<char>| shared.contains_key(a) || local.contains_key(a),
        |a: Seq<char>|
            if local.contains_key(a) {
                overlay_devices(adapter_devices(shared, a), local[a])
            } else {
                shared[a]
            },
    )
}

proof fn lemma_overlay_devices_insert(shared: DeviceMap, local: DeviceMap, k: Seq<char>, d: DeviceView)
    ensures
        overlay_devices(shared, local.insert(k, d)) == overlay_devices(shared, local).insert(
            k,
            if shared.contains_key(k) {
                merge_devices_view(d, shared[k])
            } else {
                d
            },
        ),
{
    assert(overlay_devices(shared, local.insert(k, d)) =~= overlay_devices(shared, local).insert(
        k,
        if shared.contains_key(k) {
            merge_devices_view(d, shared[k])
        } else {
            d
        },
    ));
}

proof fn lemma_overlay_config_insert(shared: ConfigMap, local: ConfigMap, a: Seq<char>, d: DeviceMap)
    ensures
        overlay_config(shared, local.insert(a, d)) == overlay_config(shared, local).insert(
            a,
            overlay_devices(adapter_devices(shared, a), d),
        ),
{
    assert(overlay_config(shared, local.insert(a, d)) =~= overlay_config(shared, local).insert(
        a,
        overlay_devices(adapter_devices(shared, a), d),
    ));
}


/// Whether `r` carries every key of `local`: the same Classic key and LE fields, and
/// signature keys with the same key and a counter that did not go down.
pub open spec fn keeps_local_keys(local: DeviceView, r: DeviceView) -> bool {
    &&& local.classic is Some ==> r.classic == local.classic
    &&& local.le matches Some(l) ==> {
        &&& r.le matches Some(x)
        &&& l.ltk is Some ==> r.le.unwrap().ltk == l.ltk
        &&& l.peripheral_ltk is Some ==> r.le.unwrap().peripheral_ltk == l.peripheral_ltk
        &&& l.irk is Some ==> r.le.unwrap().irk == l.irk
        &&& l.irk_encoding is Some ==> r.le.unwrap().irk_encoding == l.irk_encoding
        &&& l.address_type is Some ==> r.le.unwrap().address_type == l.address_type
        &&& l.csrk_local matches Some(c) ==> (r.le.unwrap().csrk_local matches Some(y) && y.key == c.key
            && y.counter >= c.counter)
        &&& l.csrk_remote matches Some(c) ==> (r.le.unwrap().csrk_remote matches Some(y) && y.key == c.key
            && y.counter >= c.counter)
    }
}

/// Merging a local record with a shared one never drops the keys of a transport that
/// only one of them has: the LE keys of a dual-mode device survive a shared record
/// without an LE part, and the other way round; the Classic key likewise, the shared
/// one winning when both have one.
pub proof fn lemma_merge_devices_keeps_parts(local: DeviceView, shared: DeviceView)
    ensures
        shared.le is None ==> merge_devices_view(local, shared).le == local.le,
        local.le is None ==> merge_devices_view(local, shared).le == shared.le,
        (local.le is Some || shared.le is Some) ==> merge_devices_view(local, shared).le is Some,
        shared.classic is None ==> merge_devices_view(local, shared).classic == local.classic,
        shared.classic is Some ==> merge_devices_view(local, shared).classic == shared.classic,
{
    crate::bluetooth::lemma_merge_keeps_parts(local, shared);
    match (local.le, shared.le) {
        (Some(l), None) => {
            assert(merge_csrk(l.csrk_local, None) == l.csrk_local);
            assert(merge_csrk(l.csrk_remote, None) == l.csrk_remote);
        },
        (None, Some(x)) => {
            assert(merge_csrk(None, x.csrk_local) == x.csrk_local);
            assert(merge_csrk(None, x.csrk_remote) == x.csrk_remote);
        },
        _ => {},
    }
}

/// Merging a record with an identical record changes nothing.
pub proof fn lemma_merge_identical(d: DeviceView)
    ensures
        merge_devices_view(d, d) == d,
{
    match d.le {
        Some(le) => {
            assert(merge_csrk(le.csrk_local, le.csrk_local) == le.csrk_local);
            assert(merge_csrk(le.csrk_remote, le.csrk_remote) == le.csrk_remote);
        },
        None => {},
    }
}

/// Whether both signature keys are present and equal, and `m` holds that key with a
/// counter no lower than either.
pub open spec fn no_rollback(a: Option<CsrkView>, b: Option<CsrkView>, m: Option<CsrkView>) -> bool {
    (a matches Some(x) && b matches Some(y) && x.key == y.key) ==> (m matches Some(z) && z.key == a.unwrap().key
        && z.counter >= a.unwrap().counter && z.counter >= b.unwrap().counter)
}

/// A merge never rolls a signature counter back: when both records hold the same
/// signature key, the merged record holds it with a counter no lower than either.
pub proof fn lemma_merge_no_counter_rollback(local: DeviceView, shared: DeviceView)
    ensures
        no_rollback(
            csrk_local_of(local.le),
            csrk_local_of(shared.le),
            csrk_local_of(merge_devices_view(local, shared).le),
        ),
        no_rollback(
            csrk_remote_of(local.le),
            csrk_remote_of(shared.le),
            csrk_remote_of(merge_devices_view(local, shared).le),
        ),
{
}

/// Importing the same shared record twice: the second merge changes nothing.
pub proof fn lemma_import_idempotent(local: DeviceView, shared: DeviceView)
    ensures
        merge_devices_view(merge_devices_view(local, shared), shared) == merge_devices_view(local, shared),
{
}

/// A local change exported to the shared configuration (`exported`, the shared record
/// overlaid with the local one) carries every local key, and the next import of it
/// into the same local record computes exactly `exported`: a local re-key is never
/// reverted by the following import.
pub proof fn lemma_export_not_reverted(local: DeviceView, shared: DeviceView)
    requires
        local.mac_address == shared.mac_address,
    ensures
        keeps_local_keys(local, merge_devices_view(shared, local)),
        merge_devices_view(local, merge_devices_view(shared, local)) == merge_devices_view(shared, local),
{
}

/// When every local record of every local adapter is already the shared record, the
/// planned shared configuration is the shared one: an unchanged state writes nothing.
pub proof fn lemma_unchanged_state_is_fixed_point(shared: ConfigMap, local: ConfigMap)
    requires
        forall|a: Seq<char>| #[trigger] local.contains_key(a) ==> shared.contains_key(a),
        forall|a: Seq<char>, k: Seq<char>|
            local.contains_key(a) && #[trigger] local[a].contains_key(k) ==> config_device(shared, a, k)
                == Some(local[a][k]),
    ensures
        overlay_config(shared, local) == shared,
{
    assert forall|a: Seq<char>| local.contains_key(a) implies #[trigger] overlay_devices(
        adapter_devices(shared, a),
        local[a],
    ) == shared[a] by {
        assert forall|k: Seq<char>| local[a].contains_key(k) implies merge_devices_view(
            #[trigger] local[a][k],
            shared[a][k],
        ) == shared[a][k] by {
            assert(config_device(shared, a, k) == Some(local[a][k]));
            lemma_merge_identical(shared[a][k]);
        }
        assert(overlay_devices(adapter_devices(shared, a), local[a]) =~= shared[a]);
    }
    assert(overlay_config(shared, local) =~= shared);
}

/// The device list of one adapter after synchronization (`overlay_devices`).
pub fn overlay_device_list(shared: &Vec<BluetoothDevice>, local: &Vec<BluetoothDevice>) -> (r: Vec<
    BluetoothDevice,
>)
    ensures
        devices_view(r@) == overlay_devices(devices_view(shared@), devices_view(local@)),
{
    let mut r = clone_devices(shared);
    proof {
        lemma_devices_view_empty(local@.take(0));
        assert(overlay_devices(devices_view(shared@), DeviceMap::empty()) =~= devices_view(shared@));
    }
    let mut j: usize = 0;
    while j < local.len()
        invariant
            j <= local.len(),
            devices_view(r@) == overlay_devices(devices_view(shared@), devices_view(local@.take(j as int))),
        decreases local.len() - j,
    {
        let d = &local[j];
        let rec = match find_device(shared, d.mac_address.as_str()) {
            Some(i) => merge_devices(d, &shared[i]),
            None => d.clone(),
        };
        proof {
            crate::config::lemma_last_index_bounds(shared@, crate::config::device_key(), d.mac_address@);
            lemma_devices_view_push(local@.take(j as int), *d);
            assert(local@.take(j + 1) =~= local@.take(j as int).push(*d));
            lemma_overlay_devices_insert(devices_view(shared@), devices_view(local@.take(j as int)), d.mac_address@, d@);
        }
        put_device(&mut r, rec);
        j = j + 1;
    }
    assert(local@.take(local.len() as int) =~= local@);
    r
}

/// The shared configuration after synchronization with the local state `local`
/// (`overlay_config`).
pub fn plan_shared_config(shared: &BlueVeinConfig, local: &BlueVeinConfig) -> (r: BlueVeinConfig)
    ensures
        r@ == overlay_config(shared@, local@),
{
    let mut r = shared.clone();
    proof {
        crate::config::lemma_adapters_view_empty(local.adapters@.take(0));
        assert(overlay_config(shared@, ConfigMap::empty()) =~= shared@);
    }
    let mut i: usize = 0;
    while i < local.adapters.len()
        invariant
            i <= local.adapters.len(),
            r@ == overlay_config(shared@, adapters_view(local.adapters@.take(i as int))),
        decreases local.adapters.len() - i,
    {
        let entry = &local.adapters[i];
        let base = match shared.get_adapter_devices(entry.mac_address.as_str()) {
            Some(v) => clone_devices(v),
            None => {
                let v: Vec<BluetoothDevice> = Vec::new();
                proof {
                    lemma_devices_view_empty(v@);
                }
                v
            },
        };
        assert(devices_view(base@) == adapter_devices(shared@, entry.mac_address@));
        let merged = overlay_device_list(&base, &entry.devices);
        proof {
            lemma_adapters_view_push(local.adapters@.take(i as int), *entry);
            assert(local.adapters@.take(i + 1) =~= local.adapters@.take(i as int).push(*entry));
            lemma_overlay_config_insert(
                shared@,
                adapters_view(local.adapters@.take(i as int)),
                entry.mac_address@,
                devices_view(entry.devices@),
            );
        }
        r.set_adapter_devices(entry.mac_address.clone(), merged);
        i = i + 1;
    }
    assert(local.adapters@.take(local.adapters.len() as int) =~= local.adapters@);
    r
}


/// A local record and what synchronization would make of it.
#[derive(Debug, PartialEq, Eq)]
pub struct ImportCandidate {
    pub current: BluetoothDevice,
    pub desired: BluetoothDevice,
}

pub open spec fn candidate_views(c: Seq<ImportCandidate>) -> Seq<(DeviceView, DeviceView)> {
    c.map_values(|x: ImportCandidate| (x.current@, x.desired@))
}

/// For each shared record, in order, whose device exists locally: the local record and
/// its merge with the shared one. Shared records without a local bond are left to
/// `missing_plan`.
pub open spec fn import_plan(shared: Seq<BluetoothDevice>, local: DeviceMap) -> Seq<
    (DeviceView, DeviceView),
>
    decreases shared.len(),
{
    if shared.len() == 0 {
        Seq::empty()
    } else {
        let prev = import_plan(shared.drop_last(), local);
        let k = shared.last().mac_address@;
        if local.contains_key(k) {
            prev.push((local[k], merge_devices_view(local[k], shared.last()@)))
        } else {
            prev
        }
    }
}

/// The shared records, in order, whose device has no local record: the candidates for
/// importing a missing bond.
pub open spec fn missing_plan(shared: Seq<BluetoothDevice>, local: DeviceMap) -> Seq<DeviceView>
    decreases shared.len(),
{
    if shared.len() == 0 {
        Seq::empty()
    } else {
        let prev = missing_plan(shared.drop_last(), local);
        if local.contains_key(shared.last().mac_address@) {
            prev
        } else {
            prev.push(shared.last()@)
        }
    }
}

/// The views of a list of records, in order.
pub open spec fn record_views(v: Seq<BluetoothDevice>) -> Seq<DeviceView> {
    v.map_values(|d: BluetoothDevice| d@)
}

/// The shared records of one adapter without a local record (`missing_plan`).
pub fn missing_bonds(shared: &Vec<BluetoothDevice>, local: &Vec<BluetoothDevice>) -> (r: Vec<BluetoothDevice>)
    ensures
        record_views(r@) == missing_plan(shared@, devices_view(local@)),
{
    let mut r: Vec<BluetoothDevice> = Vec::new();
    let mut i: usize = 0;
    while i < shared.len()
        invariant
            i <= shared.len(),
            record_views(r@) == missing_plan(shared@.take(i as int), devices_view(local@)),
        decreases shared.len() - i,
    {
        let d = &shared[i];
        proof {
            assert(shared@.take(i + 1).drop_last() =~= shared@.take(i as int));
            assert(shared@.take(i + 1).last() == *d);
            crate::config::lemma_last_index_bounds(local@, crate::config::device_key(), d.mac_address@);
        }
        if find_device(local, d.mac_address.as_str()).is_none() {
            let ghost before = r@;
            r.push(d.clone());
            assert(record_views(r@) =~= record_views(before).push(d@));
        }
        i = i + 1;
    }
    assert(shared@.take(shared.len() as int) =~= shared@);
    r
}

/// The local records of one adapter that the shared records `shared` may update
/// (`import_plan`).
pub fn import_candidates(shared: &Vec<BluetoothDevice>, local: &Vec<BluetoothDevice>) -> (r: Vec<
    ImportCandidate,
>)
    ensures
        candidate_views(r@) == import_plan(shared@, devices_view(local@)),
{
    let mut r: Vec<ImportCandidate> = Vec::new();
    let mut i: usize = 0;
    while i < shared.len()
        invariant
            i <= shared.len(),
            candidate_views(r@) == import_plan(shared@.take(i as int), devices_view(local@)),
        decreases shared.len() - i,
    {
        let d = &shared[i];
        proof {
            assert(shared@.take(i + 1).drop_last() =~= shared@.take(i as int));
            assert(shared@.take(i + 1).last() == *d);
            crate::config::lemma_last_index_bounds(local@, crate::config::device_key(), d.mac_address@);
        }
        match find_device(local, d.mac_address.as_str()) {
            Some(j) => {
                let c = ImportCandidate { current: local[j].clone(), desired: merge_devices(&local[j], d) };
                r.push(c);
                assert(candidate_views(r@) =~= candidate_views(r@.drop_last()).push((c.current@, c.desired@)));
                assert(r@.drop_last() =~= r@.take(r@.len() - 1));
            },
            None => {},
        }
        proof {
            if r@.len() > 0 {
                assert(r@.drop_last().len() == r@.len() - 1);
            }
        }
        i = i + 1;
    }
    assert(shared@.take(shared.len() as int) =~= shared@);
    r
}

/// The configuration after exporting the local record `exported` of adapter
/// `adapter_mac`, or `None` when the configuration already holds exactly that record.
/// Other devices and adapters are kept.
pub fn plan_export(config: &BlueVeinConfig, adapter_mac: &str, exported: &BluetoothDevice) -> (r:
    Option<BlueVeinConfig>)
    ensures
        r is None <==> config_device(config@, adapter_mac@, exported.mac_address@) == Some(exported@),
        r matches Some(c) ==> c@ == config@.insert(
            adapter_mac@,
            adapter_devices(config@, adapter_mac@).insert(exported.mac_address@, exported@),
        ),
{
    match config.get_device(adapter_mac, exported.mac_address.as_str()) {
        Some(d) => {
            if d.same(exported) {
                return None;
            }
        },
        None => {},
    }
    let mut c = config.clone();
    c.update_device(string_from(adapter_mac), exported.clone());
    Some(c)
}

/// Why a synchronization step failed.
#[derive(Debug, PartialEq, Eq)]
pub enum SyncError {
    /// The shared store failed.
    Efi(EfiError),
    /// The local Bluetooth stack failed.
    Local(String),
}

/// The human-readable description of a synchronization error.
pub open spec fn spec_sync_message(e: SyncError) -> Seq<char> {
    match e {
        SyncError::Efi(x) => spec_efi_message(x),
        SyncError::Local(m) => m@,
    }
}

impl SyncError {
    /// The human-readable description of the error (`spec_sync_message`).
    pub fn message(&self) -> (r: String)
        ensures
            r@ == spec_sync_message(*self),
    {
        match self {
            SyncError::Efi(e) => e.message(),
            SyncError::Local(m) => m.clone(),
        }
    }
}

/// `"{prefix} {subject}: {detail}"`.
fn describe(prefix: &str, subject: &str, detail: &str) -> (r: String)
    ensures
        r@ == prefix@ + " "@ + subject@ + ": "@ + detail@,
{
    let mut r = string_from(prefix);
    push_chars(&mut r, chars_of(" ").as_slice());
    push_chars(&mut r, chars_of(subject).as_slice());
    push_chars(&mut r, chars_of(": ").as_slice());
    push_chars(&mut r, chars_of(detail).as_slice());
    r
}

/// The message of a configuration that did not read back as written.
pub open spec fn read_back_mismatch() -> Seq<char> {
    "EFI config read-back does not match the written configuration"@
}

/// Checks a written configuration against what the store gives back afterwards,
/// `read_back`: a write counts only when the complete configuration reads back equal.
/// An unreadable or missing read-back is its error; a different one is a write error.
pub fn check_read_back(written: &BlueVeinConfig, read_back: Result<BlueVeinConfig, EfiError>) -> (r: Result<
    (),
    SyncError,
>)
    ensures
        read_back matches Ok(c) && c@ == written@ ==> r is Ok,
        read_back matches Ok(c) && c@ != written@ ==> (r matches Err(SyncError::Efi(EfiError::WriteError(m)))
            && m@ == read_back_mismatch()),
        read_back matches Err(e) ==> r == Err::<(), SyncError>(SyncError::Efi(e)),
{
    match read_back {
        Ok(c) => {
            if crate::config::same_config(&c, written) {
                Ok(())
            } else {
                Err(SyncError::Efi(EfiError::WriteError(string_from(
                    "EFI config read-back does not match the written configuration",
                ))))
            }
        },
        Err(e) => Err(SyncError::Efi(e)),
    }
}

/// A failure met by one poll of the monitor; the poll goes on where it can.
#[derive(Debug, PartialEq, Eq)]
pub enum PollFailure {
    /// Reading the local records failed; nothing was exported.
    Snapshot(SyncError),
    /// Exporting one local change failed.
    Export(SyncError),
    /// Importing the shared configuration failed.
    Import(SyncError),
}

/// What one poll of the monitor did.
#[derive(Debug, PartialEq, Eq)]
pub struct PollOutcome {
    /// The new reference snapshot; `None` keeps the previous one.
    pub next: Option<Snapshot>,
    /// Whether the shared configuration was imported.
    pub imported: bool,
    /// The failures met, in order.
    pub failures: Vec<PollFailure>,
    /// The (adapter, device) pairs whose local change it exported, in order.
    pub exported: Vec<(String, String)>,
}

/// How a bidirectional synchronization carries out its plan.
enum SyncMode {
    /// Update the local bonds and the shared configuration.
    Apply,
    /// Write nothing.
    Preview,
    /// Write only the shared configuration; refuse a plan that updates local bonds.
    SharedOnly,
}

/// One call that a synchronizer made on its backend or its store, with what it gave.
pub enum SyncCall {
    /// `ConfigStore::read`.
    Read(Result<BlueVeinConfig, EfiError>),
    /// `ConfigStore::write` of a configuration, and whether it succeeded.
    Write(ConfigMap, bool),
    /// `BluetoothManager::migrate_shared_config`: the configuration it left, and whether
    /// it succeeded.
    Migrate(BlueVeinConfig, bool),
    /// `BluetoothManager::get_adapters`.
    Adapters(Result<Seq<Seq<char>>, Seq<char>>),
    /// `BluetoothManager::get_devices` of an adapter.
    Devices(Seq<char>, Result<Seq<BluetoothDevice>, Seq<char>>),
    /// `BluetoothManager::get_device` of an adapter and an address.
    Device(Seq<char>, Seq<char>, Result<DeviceView, Seq<char>>),
    /// `BluetoothManager::prepare_local_export`, and the record it gave.
    Prepare(DeviceView),
    /// The platform's verdict on writing a record to an adapter: for a local bond,
    /// `needs_update` and no `update_reason`; for a missing bond, no
    /// `import_missing_reason`.
    Gate(Seq<char>, DeviceView, bool),
    /// `BluetoothManager::set_device`, and whether it succeeded.
    SetDevice(Seq<char>, DeviceView, bool),
    /// `BluetoothManager::apply_pending`, and whether it succeeded.
    Pending(bool),
}

/// The texts of a list of names.
pub open spec fn names_of(v: Seq<String>) -> Seq<Seq<char>> {
    v.map_values(|s: String| s@)
}

pub open spec fn names_result(r: Result<Vec<String>, String>) -> Result<Seq<Seq<char>>, Seq<char>> {
    match r {
        Ok(v) => Ok(names_of(v@)),
        Err(e) => Err(e@),
    }
}

pub open spec fn records_result(r: Result<Vec<BluetoothDevice>, String>) -> Result<Seq<BluetoothDevice>, Seq<char>> {
    match r {
        Ok(v) => Ok(v@),
        Err(e) => Err(e@),
    }
}

pub open spec fn record_result(r: Result<BluetoothDevice, String>) -> Result<DeviceView, Seq<char>> {
    match r {
        Ok(d) => Ok(d@),
        Err(e) => Err(e@),
    }
}

broadcast use crate::config::lemma_push_drop_last;

/// The local writes among the calls, in order: the adapter and the record.
pub open spec fn local_writes(t: Seq<SyncCall>) -> Seq<(Seq<char>, DeviceView)>
    decreases t.len(),
{
    if t.len() == 0 {
        Seq::empty()
    } else {
        let p = local_writes(t.drop_last());
        match t.last() {
            SyncCall::SetDevice(a, d, _) => p.push((a, d)),
            _ => p,
        }
    }
}

/// The local writes that the platform allowed, in order.
pub open spec fn allowed_writes(t: Seq<SyncCall>) -> Seq<(Seq<char>, DeviceView)>
    decreases t.len(),
{
    if t.len() == 0 {
        Seq::empty()
    } else {
        let p = allowed_writes(t.drop_last());
        match t.last() {
            SyncCall::Gate(a, d, true) => p.push((a, d)),
            _ => p,
        }
    }
}

/// The configurations written to the store, in order.
pub open spec fn shared_writes(t: Seq<SyncCall>) -> Seq<ConfigMap>
    decreases t.len(),
{
    if t.len() == 0 {
        Seq::empty()
    } else {
        let p = shared_writes(t.drop_last());
        match t.last() {
            SyncCall::Write(c, _) => p.push(c),
            _ => p,
        }
    }
}

/// Whether reading the local state failed: migration, the adapters, or the devices of
/// an adapter.
pub open spec fn read_failed(t: Seq<SyncCall>) -> bool
    decreases t.len(),
{
    t.len() > 0 && (read_failed(t.drop_last()) || match t.last() {
        SyncCall::Migrate(_, ok) => !ok,
        SyncCall::Adapters(Err(_)) => true,
        SyncCall::Devices(_, Err(_)) => true,
        _ => false,
    })
}

/// Whether a local write failed.
pub open spec fn set_failed(t: Seq<SyncCall>) -> bool
    decreases t.len(),
{
    t.len() > 0 && (set_failed(t.drop_last()) || t.last() matches SyncCall::SetDevice(_, _, false))
}

/// Whether the calls include a migration.
pub open spec fn has_migration(t: Seq<SyncCall>) -> bool
    decreases t.len(),
{
    t.len() > 0 && (has_migration(t.drop_last()) || t.last() is Migrate)
}

/// `c` after the migrations among the calls: what the last of them left.
pub open spec fn migrated(t: Seq<SyncCall>, c: ConfigMap) -> ConfigMap
    decreases t.len(),
{
    if t.len() == 0 {
        c
    } else {
        match t.last() {
            SyncCall::Migrate(m, _) => m@,
            _ => migrated(t.drop_last(), c),
        }
    }
}

/// `base` with the devices of every adapter that the calls read with at least one
/// device, in order.
pub open spec fn local_over(base: ConfigMap, t: Seq<SyncCall>) -> ConfigMap
    decreases t.len(),
{
    if t.len() == 0 {
        base
    } else {
        let p = local_over(base, t.drop_last());
        match t.last() {
            SyncCall::Devices(a, Ok(ds)) => if ds.len() > 0 {
                p.insert(a, devices_view(ds))
            } else {
                p
            },
            _ => p,
        }
    }
}

/// The local adapters and their devices, as read by the calls.
pub open spec fn local_config(t: Seq<SyncCall>) -> ConfigMap {
    local_over(ConfigMap::empty(), t)
}

/// The shared configuration that a bidirectional synchronization plans from its calls:
/// the migrated shared configuration overlaid with the local records
/// (`overlay_config`), or the local records when there was no shared configuration.
pub open spec fn planned_config(t: Seq<SyncCall>) -> ConfigMap {
    if t.len() == 0 {
        local_config(t)
    } else {
        match t[0] {
            SyncCall::Read(Ok(c)) => overlay_config(migrated(t, c@), local_config(t)),
            _ => local_config(t),
        }
    }
}

/// Whether the calls include a successful write that the store gave back equal.
pub open spec fn write_confirmed(t: Seq<SyncCall>) -> bool
    decreases t.len(),
{
    t.len() >= 2 && (write_confirmed(t.drop_last()) || (t[t.len() - 2] matches SyncCall::Write(w, true)
        && t.last() matches SyncCall::Read(Ok(c)) && c@ == w))
}

/// The verdicts asked of the platform, in order: the adapter and the record.
pub open spec fn gates(t: Seq<SyncCall>) -> Seq<(Seq<char>, DeviceView)>
    decreases t.len(),
{
    if t.len() == 0 {
        Seq::empty()
    } else {
        let p = gates(t.drop_last());
        match t.last() {
            SyncCall::Gate(a, d, _) => p.push((a, d)),
            _ => p,
        }
    }
}

/// The desired record of each pair of `p`, with the adapter `a`.
pub open spec fn tag_desired(a: Seq<char>, p: Seq<(DeviceView, DeviceView)>) -> Seq<(Seq<char>, DeviceView)> {
    p.map_values(|x: (DeviceView, DeviceView)| (a, x.1))
}

/// Each record of `p`, with the adapter `a`.
pub open spec fn tag_records(a: Seq<char>, p: Seq<DeviceView>) -> Seq<(Seq<char>, DeviceView)> {
    p.map_values(|d: DeviceView| (a, d))
}

/// The local devices of adapter `a` in `l`; none when `l` has no such adapter.
pub open spec fn local_devices(l: ConfigMap, a: Seq<char>) -> DeviceMap {
    if l.contains_key(a) {
        l[a]
    } else {
        Map::empty()
    }
}

/// What a bidirectional synchronization asks the platform about adapter `a`, in order:
/// each local record that the shared records of `e` would update (`import_plan`), then
/// each shared record without a local bond (`missing_plan`).
pub open spec fn adapter_gates(e: BlueVeinConfig, l: ConfigMap, a: Seq<char>) -> Seq<(Seq<char>, DeviceView)> {
    tag_desired(a, import_plan(adapter_records(e, a), local_devices(l, a))) + tag_records(
        a,
        missing_plan(adapter_records(e, a), local_devices(l, a)),
    )
}

/// `adapter_gates` of each adapter of `names`, adapter by adapter.
pub open spec fn gate_plan(e: BlueVeinConfig, l: ConfigMap, names: Seq<Seq<char>>) -> Seq<(Seq<char>, DeviceView)>
    decreases names.len(),
{
    if names.len() == 0 {
        Seq::empty()
    } else {
        gate_plan(e, l, names.drop_last()) + adapter_gates(e, l, names.last())
    }
}

/// The verdicts that a bidirectional synchronization plans from its calls: with a
/// shared configuration read and migrated and the adapters listed, `gate_plan` of the
/// migrated configuration, the local records and the adapters; otherwise none.
pub open spec fn sync_gates(t: Seq<SyncCall>) -> Seq<(Seq<char>, DeviceView)> {
    if t.len() > 2 && t[0] matches SyncCall::Read(Ok(_)) {
        match (t[1], t[2]) {
            (SyncCall::Migrate(e, true), SyncCall::Adapters(Ok(names))) => gate_plan(e, local_config(t), names),
            _ => Seq::empty(),
        }
    } else {
        Seq::empty()
    }
}

/// A prefix of `adapter_gates` of the adapter at `i`, after the plan of the adapters
/// before it, is a prefix of the whole plan.
proof fn lemma_gate_plan_prefix(
    e: BlueVeinConfig,
    l: ConfigMap,
    names: Seq<Seq<char>>,
    i: int,
    x: Seq<(Seq<char>, DeviceView)>,
)
    requires
        0 <= i < names.len(),
        x.is_prefix_of(adapter_gates(e, l, names[i])),
    ensures
        (gate_plan(e, l, names.take(i)) + x).is_prefix_of(gate_plan(e, l, names)),
    decreases names.len(),
{
    let head = gate_plan(e, l, names.drop_last());
    let whole = gate_plan(e, l, names);
    if i == names.len() - 1 {
        assert(names.drop_last() =~= names.take(i));
        assert(whole == head + adapter_gates(e, l, names.last()));
        assert((head + x) =~= whole.subrange(0, (head + x).len() as int));
    } else {
        lemma_gate_plan_prefix(e, l, names.drop_last(), i, x);
        assert(names.drop_last().take(i) =~= names.take(i));
        let y = gate_plan(e, l, names.take(i)) + x;
        assert(y =~= head.subrange(0, y.len() as int));
        assert(whole == head + adapter_gates(e, l, names.last()));
        assert(y =~= whole.subrange(0, y.len() as int));
    }
}

/// The adapters whose devices the calls read, in order.
pub open spec fn device_reads(t: Seq<SyncCall>) -> Seq<Seq<char>>
    decreases t.len(),
{
    if t.len() == 0 {
        Seq::empty()
    } else {
        let p = device_reads(t.drop_last());
        match t.last() {
            SyncCall::Devices(a, _) => p.push(a),
            _ => p,
        }
    }
}

/// The adapters that the calls listed: those of the last successful listing.
pub open spec fn adapters_listed(t: Seq<SyncCall>) -> Seq<Seq<char>>
    decreases t.len(),
{
    if t.len() == 0 {
        Seq::empty()
    } else {
        match t.last() {
            SyncCall::Adapters(Ok(n)) => n,
            _ => adapters_listed(t.drop_last()),
        }
    }
}

/// The adapters of `names` that `c` holds records of, in order.
pub open spec fn shared_adapters(c: BlueVeinConfig, names: Seq<Seq<char>>) -> Seq<Seq<char>>
    decreases names.len(),
{
    if names.len() == 0 {
        Seq::empty()
    } else {
        let p = shared_adapters(c, names.drop_last());
        if c@.contains_key(names.last()) {
            p.push(names.last())
        } else {
            p
        }
    }
}

/// What an import of the shared configuration `c` asks the platform about, from its
/// calls: after each read of the devices of an adapter, each local record that the
/// shared records of that adapter would update (`import_plan`), in order.
pub open spec fn import_gates(c: BlueVeinConfig, t: Seq<SyncCall>) -> Seq<(Seq<char>, DeviceView)>
    decreases t.len(),
{
    if t.len() == 0 {
        Seq::empty()
    } else {
        let p = import_gates(c, t.drop_last());
        match t.last() {
            SyncCall::Devices(a, Ok(ds)) => p + tag_desired(a, import_plan(adapter_records(c, a), devices_view(ds))),
            _ => p,
        }
    }
}

/// The shared adapters among the first `k` names come first among all of them.
proof fn lemma_shared_adapters_prefix(c: BlueVeinConfig, names: Seq<Seq<char>>, k: int)
    requires
        0 <= k <= names.len(),
    ensures
        shared_adapters(c, names.take(k)).is_prefix_of(shared_adapters(c, names)),
    decreases names.len(),
{
    if k < names.len() {
        lemma_shared_adapters_prefix(c, names.drop_last(), k);
        assert(names.drop_last().take(k) =~= names.take(k));
    } else {
        assert(names.take(k) =~= names);
    }
}

/// Whether the call `e`, when it read the local devices of adapter `a`, gave `d` for
/// address `m` or no record of it.
pub open spec fn read_gives(e: SyncCall, a: Seq<char>, m: Seq<char>, d: DeviceView) -> bool {
    match e {
        SyncCall::Devices(b, Ok(ds)) => b == a && devices_view(ds).contains_key(m) ==> devices_view(ds)[m] == d,
        _ => true,
    }
}

/// Each record that `import_plan` desires for address `m` is the export
/// `merge_devices_view(s, d)` of the local record `d`, when every shared record of `m` is
/// that export and the local record of `m`, if any, is `d`.
proof fn lemma_import_plan_keeps_export(shared: Seq<BluetoothDevice>, ds: Seq<BluetoothDevice>, m: Seq<char>, d: DeviceView, s: DeviceView)
    requires
        d.mac_address == m,
        s.mac_address == m,
        devices_view(ds).contains_key(m) ==> devices_view(ds)[m] == d,
        forall|j: int| 0 <= j < shared.len() && (#[trigger] shared[j]).mac_address@ == m ==> shared[j]@
            == merge_devices_view(s, d),
    ensures
        forall|i: int|
            0 <= i < import_plan(shared, devices_view(ds)).len() && (#[trigger] import_plan(shared, devices_view(ds))[i]).1.mac_address
                == m ==> import_plan(shared, devices_view(ds))[i].1 == merge_devices_view(s, d),
    decreases shared.len(),
{
    if shared.len() > 0 {
        let prev = shared.drop_last();
        assert forall|j: int| 0 <= j < prev.len() && (#[trigger] prev[j]).mac_address@ == m implies prev[j]@
            == merge_devices_view(s, d) by {
            assert(prev[j] == shared[j]);
        }
        lemma_import_plan_keeps_export(prev, ds, m, d, s);
        let k = shared.last().mac_address@;
        crate::config::lemma_last_index_bounds(ds, crate::config::device_key(), k);
        lemma_export_not_reverted(d, s);
        let plan = import_plan(shared, devices_view(ds));
        let before = import_plan(prev, devices_view(ds));
        assert forall|i: int| 0 <= i < plan.len() && (#[trigger] plan[i]).1.mac_address == m implies plan[i].1
            == merge_devices_view(s, d) by {
            if i < before.len() {
                assert(plan[i] == before[i]);
            } else {
                assert(devices_view(ds)[k].mac_address == k);
                assert(shared[shared.len() - 1] == shared.last());
            }
        }
    }
}

/// The same for the verdicts of an import of `c` planned from the calls `t`, on adapter
/// `a`, when every read of the local devices of `a` gives `d` for `m` (or no record).
proof fn lemma_import_gates_keep_export(c: BlueVeinConfig, t: Seq<SyncCall>, a: Seq<char>, m: Seq<char>, d: DeviceView, s: DeviceView)
    requires
        d.mac_address == m,
        s.mac_address == m,
        forall|j: int|
            0 <= j < adapter_records(c, a).len() && (#[trigger] adapter_records(c, a)[j]).mac_address@ == m
                ==> adapter_records(c, a)[j]@ == merge_devices_view(s, d),
        forall|i: int| 0 <= i < t.len() ==> read_gives(#[trigger] t[i], a, m, d),
    ensures
        forall|i: int|
            0 <= i < import_gates(c, t).len() && (#[trigger] import_gates(c, t)[i]).0 == a && import_gates(c, t)[i].1.mac_address
                == m ==> import_gates(c, t)[i].1 == merge_devices_view(s, d),
    decreases t.len(),
{
    if t.len() > 0 {
        let p = t.drop_last();
        assert forall|i: int| 0 <= i < p.len() implies read_gives(#[trigger] p[i], a, m, d) by {
            assert(p[i] == t[i]);
        }
        lemma_import_gates_keep_export(c, p, a, m, d, s);
        let g = import_gates(c, t);
        let before = import_gates(c, p);
        match t.last() {
            SyncCall::Devices(b, Ok(ds)) => {
                assert(t[t.len() - 1] == t.last());
                let plan = import_plan(adapter_records(c, b), devices_view(ds));
                if b == a {
                    lemma_import_plan_keeps_export(adapter_records(c, a), ds, m, d, s);
                }
                assert forall|i: int| 0 <= i < g.len() && (#[trigger] g[i]).0 == a && g[i].1.mac_address == m implies g[i].1
                    == merge_devices_view(s, d) by {
                    if i < before.len() {
                        assert(g[i] == before[i]);
                    } else {
                        assert(g[i] == tag_desired(b, plan)[i - before.len()]);
                        assert(g[i] == (b, plan[i - before.len()].1));
                    }
                }
            },
            _ => {},
        }
    }
}

/// A local re-key exported to the shared configuration is not reverted by the next
/// import: when the configuration `c` that an import reads holds, for address `m` on
/// adapter `a`, only the export `merge_devices_view(s, d)` of the local record `d` over a
/// shared record `s` (what `handle_device_change` writes when the platform exports the
/// local record as it is), and every read of the local devices of `a` gives `d` for
/// `m`, every record that the import asks to write for `m` on `a` is that export, and it
/// carries every local key of `d`.
pub proof fn lemma_import_keeps_exported_keys(c: BlueVeinConfig, t: Seq<SyncCall>, a: Seq<char>, m: Seq<char>, d: DeviceView, s: DeviceView)
    requires
        gates(t).is_prefix_of(import_gates(c, t)),
        d.mac_address == m,
        s.mac_address == m,
        forall|j: int|
            0 <= j < adapter_records(c, a).len() && (#[trigger] adapter_records(c, a)[j]).mac_address@ == m
                ==> adapter_records(c, a)[j]@ == merge_devices_view(s, d),
        forall|i: int| 0 <= i < t.len() ==> read_gives(#[trigger] t[i], a, m, d),
    ensures
        forall|i: int|
            0 <= i < gates(t).len() && (#[trigger] gates(t)[i]).0 == a && gates(t)[i].1.mac_address == m ==> gates(t)[i].1
                == merge_devices_view(s, d) && keeps_local_keys(d, gates(t)[i].1),
{
    lemma_import_gates_keep_export(c, t, a, m, d, s);
    lemma_export_not_reverted(d, s);
    assert forall|i: int| 0 <= i < gates(t).len() && (#[trigger] gates(t)[i]).0 == a && gates(t)[i].1.mac_address == m implies gates(t)[i].1
        == merge_devices_view(s, d) && keeps_local_keys(d, gates(t)[i].1) by {
        assert(gates(t)[i] == import_gates(c, t)[i]);
    }
}

/// The verdicts asked so far, when they are those of the adapters before the one at
/// `i` and a prefix `x` of that adapter's, are a prefix of the planned ones.
proof fn lemma_gates_prefix(t: Seq<SyncCall>, e: BlueVeinConfig, names: Seq<Seq<char>>, i: int, x: Seq<(Seq<char>, DeviceView)>)
    requires
        t.len() > 2,
        t[0] matches SyncCall::Read(Ok(_)),
        t[1] == SyncCall::Migrate(e, true),
        t[2] == SyncCall::Adapters(Ok(names)),
        0 <= i < names.len(),
        x.is_prefix_of(adapter_gates(e, local_config(t), names[i])),
        gates(t) == gate_plan(e, local_config(t), names.take(i)) + x,
    ensures
        gates(t).is_prefix_of(sync_gates(t)),
{
    lemma_gate_plan_prefix(e, local_config(t), names, i, x);
}

/// Whether none of the calls completes a batch of local writes (`apply_pending`).
pub open spec fn no_pending(t: Seq<SyncCall>) -> bool {
    forall|k: int| 0 <= k < t.len() ==> !(#[trigger] t[k] is Pending)
}

/// Whether the call `e`, after the calls `t`, reads back equal what the last of them
/// wrote.
pub open spec fn confirms(t: Seq<SyncCall>, e: SyncCall) -> bool {
    t.len() > 0 && (t.last() matches SyncCall::Write(w, true) && e matches SyncCall::Read(Ok(c)) && c@ == w)
}

/// Whether the calls wrote the store once and it did not give the configuration back
/// equal.
pub open spec fn write_unconfirmed(t: Seq<SyncCall>) -> bool {
    shared_writes(t).len() == 1 && !write_confirmed(t)
}

/// Without a write of the store, nothing is confirmed.
proof fn lemma_unwritten_unconfirmed(t: Seq<SyncCall>)
    requires
        shared_writes(t).len() == 0,
    ensures
        !write_confirmed(t),
    decreases t.len(),
{
    if t.len() > 0 {
        lemma_unwritten_unconfirmed(t.drop_last());
        if t.len() >= 2 {
            assert(t.drop_last().last() == t[t.len() - 2]);
        }
    }
}

/// Whether an export (`handle_device_change`) with the calls `t` succeeded: the local
/// record and the shared configuration were read, and a write read back equal.
pub open spec fn export_ok(t: Seq<SyncCall>) -> bool {
    &&& !(t[0] matches SyncCall::Device(_, _, Err(_)))
    &&& !store_unreadable(t.drop_first())
    &&& !write_unconfirmed(t)
}

/// Whether an import (`check_efi_changes`) with the calls `t` succeeded.
pub open spec fn import_ok(t: Seq<SyncCall>) -> bool {
    &&& !store_unreadable(t)
    &&& !read_failed(t)
    &&& !set_failed(t)
    &&& !(t.last() matches SyncCall::Pending(false))
}

/// The (adapter, device) pair whose local record an export with the calls `t` looked up.
pub open spec fn export_key(t: Seq<SyncCall>) -> SnapshotKey {
    (t[0]->Device_0, t[0]->Device_1)
}

/// Whether the exports `ex` cover the changes `ch`: each looks up a changed pair first,
/// every changed pair once.
pub open spec fn exports_match(ex: Seq<Seq<SyncCall>>, ch: Set<SnapshotKey>) -> bool {
    &&& forall|i: int| 0 <= i < ex.len() ==> (#[trigger] ex[i]).len() > 0 && ex[i][0] is Device && ch.contains(
        export_key(ex[i]),
    )
    &&& forall|k: SnapshotKey| #[trigger] ch.contains(k) ==> exists|i: int| 0 <= i < ex.len() && export_key(ex[i]) == k
    &&& forall|i: int, j: int| 0 <= i < j < ex.len() ==> export_key(ex[i]) != export_key(ex[j])
}

/// The number of the exports `ex` that failed.
pub open spec fn count_failed(ex: Seq<Seq<SyncCall>>) -> nat
    decreases ex.len(),
{
    if ex.len() == 0 {
        0
    } else {
        count_failed(ex.drop_last()) + if export_ok(ex.last()) {
            0nat
        } else {
            1nat
        }
    }
}

/// A poll whose snapshot failed: nothing exported or imported, one failure.
pub open spec fn poll_snapshot_failed(o: PollOutcome) -> bool {
    &&& o.next is None && !o.imported && o.exported.len() == 0
    &&& o.failures.len() == 1 && o.failures@[0] is Snapshot
}

/// What a poll with the operations `p` did when it returned `o` after a successful
/// snapshot `p[0]`: it exported each change since `previous` (`exports_match`), once;
/// its first failures are exactly the failed exports; after a failed export it stops,
/// keeping `previous`; otherwise the snapshot becomes the reference, and when an import
/// is due it imports and takes a fresh snapshot, which becomes the reference instead.
pub open spec fn poll_done(p: Seq<Seq<SyncCall>>, o: PollOutcome, previous: Map<SnapshotKey, DeviceView>, secs: u64) -> bool {
    let n = o.exported.len() as int;
    let ex = p.subrange(1, n + 1);
    let k = count_failed(ex);
    &&& p.len() > n
    &&& exports_match(ex, spec_changed(previous, snapshot_calls(p[0])))
    &&& forall|i: int| 0 <= i < n ==> pair_key(#[trigger] o.exported@[i]) == export_key(ex[i])
    &&& o.failures.len() >= k
    &&& forall|i: int| 0 <= i < o.failures.len() ==> (#[trigger] o.failures@[i] is Export <==> i < k)
    &&& k > 0 ==> (p.len() == n + 1 && o.next is None && !o.imported && o.failures.len() == k)
    &&& (k == 0 && secs < IMPORT_INTERVAL_SECS) ==> (p.len() == n + 1 && !o.imported && o.failures.len() == 0
        && o.next is Some && o.next.unwrap()@ == snapshot_calls(p[0]))
    &&& (k == 0 && secs >= IMPORT_INTERVAL_SECS) ==> {
        &&& p.len() == n + 3 && p[n + 1].len() > 0 && p[n + 1][0] is Read
        &&& p[n + 2].len() > 0 && p[n + 2][0] is Adapters && !read_failed(p[n + 2])
        &&& o.imported && o.next is Some && o.next.unwrap()@ == snapshot_calls(p[n + 2])
        &&& o.failures.len() <= 1 && (o.failures.len() == 0 <==> import_ok(p[n + 1]))
        &&& o.failures.len() == 1 ==> o.failures@[0] is Import
    }
}

/// A poll with the operations `p` that failed: every change since `previous` was
/// exported, the import was due and made, and the fresh snapshot after it failed.
pub open spec fn poll_failed(p: Seq<Seq<SyncCall>>, previous: Map<SnapshotKey, DeviceView>, secs: u64) -> bool {
    let n = p.len() - 3;
    let ex = p.subrange(1, n + 1);
    &&& secs >= IMPORT_INTERVAL_SECS && p.len() >= 3
    &&& p[0].len() > 0 && p[0][0] is Adapters && !read_failed(p[0])
    &&& exports_match(ex, spec_changed(previous, snapshot_calls(p[0])))
    &&& count_failed(ex) == 0
    &&& p[n + 1].len() > 0 && p[n + 1][0] is Read
    &&& p[n + 2].len() > 0 && p[n + 2][0] is Adapters && read_failed(p[n + 2])
}

/// `s` with `x` added, from `k` on, is `s` from `k` on with `x` added.
proof fn lemma_skip_push(s: Seq<Seq<SyncCall>>, x: Seq<SyncCall>, k: int)
    requires
        0 <= k <= s.len(),
    ensures
        s.push(x).skip(k) == s.skip(k).push(x),
{
    assert(s.push(x).skip(k) =~= s.skip(k).push(x));
}

/// Whether the first call read the store and it failed other than by a missing file.
pub open spec fn store_unreadable(t: Seq<SyncCall>) -> bool {
    t.len() > 0 && (t[0] matches SyncCall::Read(Err(e)) && !(e is NotFound))
}

/// What a bidirectional synchronization did, read off its calls `t` and its result
/// `r`; `local` and `shared` tell whether it may write the local bonds and the store.
/// - It first reads the store; a store it cannot read fails it before the backend is
///   used. A shared configuration is then migrated, and the adapters are listed;
///   without one nothing is migrated or imported.
/// - It fails only for one of the reasons below.
/// - It reads the devices of the listed adapters in order, and of all of them when it
///   succeeds.
/// - A failed read of the local state fails it with no write; a failed local write
///   fails it with no shared write.
/// - It asks the platform about the records of `sync_gates`, in order, and about all of
///   them when it succeeds.
/// - Allowed to write locally, it writes exactly the records the platform allowed, and
///   then completes the batch (`apply_pending`) once, as its last call, also after a
///   failure; a failure there fails it. Without local writes it never does. Allowed to
///   write only the store, a record the platform allows fails it.
/// - It writes the store at most once, with `planned_config`, and, when it succeeds and
///   may write the store, exactly when that differs from what it read; a success after a
///   write means the store gave the configuration back equal.
/// - Allowed to write nothing, it fails exactly when reading failed.
pub open spec fn sync_outcome(t: Seq<SyncCall>, r: Result<(), SyncError>, local: bool, shared: bool) -> bool {
    &&& t.len() > 0 && t[0] is Read
    &&& t[0] matches SyncCall::Read(Ok(_)) ==> (t.len() > 1 && t[1] is Migrate && (t[1] matches SyncCall::Migrate(
        _,
        true,
    ) ==> (t.len() > 2 && t[2] is Adapters)))
    &&& (t[0] matches SyncCall::Read(Err(e)) && e is NotFound) ==> (t.len() > 1 && t[1] is Adapters)
    &&& r is Err ==> (store_unreadable(t) || read_failed(t) || set_failed(t) || write_unconfirmed(t) || (!local
        && shared && allowed_writes(t).len() > 0) || t.last() matches SyncCall::Pending(false))
    &&& store_unreadable(t) ==> (t.len() == 1 && r == Err::<(), SyncError>(SyncError::Efi(t[0]->Read_0->Err_0)))
    &&& (t[0] matches SyncCall::Read(Err(e)) && e is NotFound) ==> (!has_migration(t) && local_writes(t).len() == 0)
    &&& !local ==> local_writes(t).len() == 0
    &&& !shared ==> shared_writes(t).len() == 0
    &&& read_failed(t) ==> (r is Err && local_writes(t).len() == 0 && shared_writes(t).len() == 0)
    &&& set_failed(t) ==> (r is Err && shared_writes(t).len() == 0)
    &&& local ==> local_writes(t) == allowed_writes(t)
    &&& device_reads(t).is_prefix_of(adapters_listed(t))
    &&& r is Ok ==> device_reads(t) == adapters_listed(t)
    &&& gates(t).is_prefix_of(sync_gates(t))
    &&& r is Ok ==> gates(t) == sync_gates(t)
    &&& (!local && shared && allowed_writes(t).len() > 0) ==> r is Err
    &&& shared_writes(t).len() <= 1
    &&& shared_writes(t).len() == 1 ==> shared_writes(t)[0] == planned_config(t)
    &&& (r is Ok && shared) ==> (shared_writes(t).len() == 1 <==> !(t[0] matches SyncCall::Read(Ok(c)) && c@
        == planned_config(t)))
    &&& (r is Ok && shared_writes(t).len() == 1) ==> write_confirmed(t)
    &&& (local && local_writes(t).len() > 0) ==> t.last() is Pending
    &&& no_pending(t.drop_last())
    &&& local_writes(t).len() == 0 ==> no_pending(t)
    &&& t.last() matches SyncCall::Pending(false) ==> r is Err
    &&& (!local && !shared) ==> (r is Err <==> (store_unreadable(t) || read_failed(t)))
}

/// An unchanged state writes nothing: when a synchronization succeeds, its migration
/// left the shared configuration `c` it read as it was, and every local record of every
/// local adapter is already the shared one, it did not write the store.
pub proof fn lemma_unchanged_sync_writes_nothing(t: Seq<SyncCall>, r: Result<(), SyncError>, c: BlueVeinConfig)
    requires
        sync_outcome(t, r, true, true),
        r is Ok,
        t[0] == SyncCall::Read(Ok(c)),
        migrated(t, c@) == c@,
        forall|a: Seq<char>| #[trigger] local_config(t).contains_key(a) ==> c@.contains_key(a),
        forall|a: Seq<char>, k: Seq<char>|
            local_config(t).contains_key(a) && #[trigger] local_config(t)[a].contains_key(k) ==> config_device(
                c@,
                a,
                k,
            ) == Some(local_config(t)[a][k]),
    ensures
        shared_writes(t).len() == 0,
{
    lemma_unchanged_state_is_fixed_point(c@, local_config(t));
}

/// `u` is `t` with the call `e` added, and what that does to each account of the calls.
pub open spec fn step(t: Seq<SyncCall>, e: SyncCall, u: Seq<SyncCall>) -> bool {
    &&& u == t.push(e)
    &&& local_writes(u) == match e {
        SyncCall::SetDevice(a, d, _) => local_writes(t).push((a, d)),
        _ => local_writes(t),
    }
    &&& allowed_writes(u) == match e {
        SyncCall::Gate(a, d, true) => allowed_writes(t).push((a, d)),
        _ => allowed_writes(t),
    }
    &&& shared_writes(u) == match e {
        SyncCall::Write(c, _) => shared_writes(t).push(c),
        _ => shared_writes(t),
    }
    &&& read_failed(u) == (read_failed(t) || match e {
        SyncCall::Migrate(_, ok) => !ok,
        SyncCall::Adapters(Err(_)) => true,
        SyncCall::Devices(_, Err(_)) => true,
        _ => false,
    })
    &&& set_failed(u) == (set_failed(t) || e matches SyncCall::SetDevice(_, _, false))
    &&& has_migration(u) == (has_migration(t) || e is Migrate)
    &&& forall|c: ConfigMap| #[trigger] migrated(u, c) == match e {
        SyncCall::Migrate(m, _) => m@,
        _ => migrated(t, c),
    }
    &&& gates(u) == match e {
        SyncCall::Gate(a, d, _) => gates(t).push((a, d)),
        _ => gates(t),
    }
    &&& device_reads(u) == match e {
        SyncCall::Devices(a, _) => device_reads(t).push(a),
        _ => device_reads(t),
    }
    &&& adapters_listed(u) == match e {
        SyncCall::Adapters(Ok(n)) => n,
        _ => adapters_listed(t),
    }
    &&& forall|c: BlueVeinConfig| #[trigger] import_gates(c, u) == match e {
        SyncCall::Devices(a, Ok(ds)) => import_gates(c, t) + tag_desired(
            a,
            import_plan(adapter_records(c, a), devices_view(ds)),
        ),
        _ => import_gates(c, t),
    }
    &&& forall|b: ConfigMap| #[trigger] local_over(b, u) == match e {
        SyncCall::Devices(a, Ok(ds)) => if ds.len() > 0 {
            local_over(b, t).insert(a, devices_view(ds))
        } else {
            local_over(b, t)
        },
        _ => local_over(b, t),
    }
    &&& snapshot_calls(u) == match e {
        SyncCall::Devices(a, Ok(ds)) => snapshot_insert(snapshot_calls(t), a, ds),
        _ => snapshot_calls(t),
    }
    &&& forall|a: Seq<char>, m: Seq<char>| #[trigger] listed(u, a, m) == (listed(t, a, m) || (e matches SyncCall::Devices(
        b,
        Ok(ds),
    ) && b == a && devices_view(ds).contains_key(m)))
    &&& write_confirmed(u) == (write_confirmed(t) || confirms(t, e))
}

proof fn lemma_step(t: Seq<SyncCall>, e: SyncCall)
    ensures
        step(t, e, t.push(e)),
{
    let u = t.push(e);
    assert(u.drop_last() == t);
    assert forall|c: ConfigMap| #[trigger] migrated(u, c) == match e {
        SyncCall::Migrate(m, _) => m@,
        _ => migrated(t, c),
    } by {}
    assert forall|b: ConfigMap| #[trigger] local_over(b, u) == match e {
        SyncCall::Devices(a, Ok(ds)) => if ds.len() > 0 {
            local_over(b, t).insert(a, devices_view(ds))
        } else {
            local_over(b, t)
        },
        _ => local_over(b, t),
    } by {}
    assert forall|c: BlueVeinConfig| #[trigger] import_gates(c, u) == match e {
        SyncCall::Devices(a, Ok(ds)) => import_gates(c, t) + tag_desired(
            a,
            import_plan(adapter_records(c, a), devices_view(ds)),
        ),
        _ => import_gates(c, t),
    } by {}
    assert forall|a: Seq<char>, m: Seq<char>| #[trigger] listed(u, a, m) == (listed(t, a, m) || (e matches SyncCall::Devices(
        b,
        Ok(ds),
    ) && b == a && devices_view(ds).contains_key(m))) by {}
}

/// The device records of adapter `a` in `c`, as `get_adapter_devices` gives them.
pub open spec fn adapter_records(c: BlueVeinConfig, a: Seq<char>) -> Seq<BluetoothDevice> {
    let i = crate::config::last_index(c.adapters@, crate::config::adapter_key(), a);
    if i >= 0 {
        c.adapters@[i].devices@
    } else {
        Seq::empty()
    }
}

/// Writing each of `ds` to adapter `a`, in order.
pub open spec fn record_writes(a: Seq<char>, ds: Seq<BluetoothDevice>) -> Seq<(Seq<char>, DeviceView)> {
    ds.map_values(|d: BluetoothDevice| (a, d@))
}

/// The local writes of `sync_from_efi`: every record of `c` of each adapter of
/// `adapters`, adapter by adapter.
pub open spec fn from_efi_writes(c: BlueVeinConfig, adapters: Seq<Seq<char>>) -> Seq<(Seq<char>, DeviceView)>
    decreases adapters.len(),
{
    if adapters.len() == 0 {
        Seq::empty()
    } else {
        from_efi_writes(c, adapters.drop_last()) + record_writes(
            adapters.last(),
            adapter_records(c, adapters.last()),
        )
    }
}

/// The configuration that `sync_to_efi` writes: the one read (or none) with the devices
/// of every local adapter that has any.
pub open spec fn to_efi_config(t: Seq<SyncCall>) -> ConfigMap {
    if t.len() == 0 {
        local_over(ConfigMap::empty(), t)
    } else {
        match t[0] {
            SyncCall::Read(Ok(c)) => local_over(c@, t),
            _ => local_over(ConfigMap::empty(), t),
        }
    }
}

/// `m` with the records `ds` of adapter `a`, in order.
pub open spec fn snapshot_insert(m: Map<SnapshotKey, DeviceView>, a: Seq<char>, ds: Seq<BluetoothDevice>) -> Map<
    SnapshotKey,
    DeviceView,
>
    decreases ds.len(),
{
    if ds.len() == 0 {
        m
    } else {
        snapshot_insert(m, a, ds.drop_last()).insert((a, ds.last().mac_address@), ds.last()@)
    }
}

/// The local records that the calls read, by adapter and address.
pub open spec fn snapshot_calls(t: Seq<SyncCall>) -> Map<SnapshotKey, DeviceView>
    decreases t.len(),
{
    if t.len() == 0 {
        Map::empty()
    } else {
        let p = snapshot_calls(t.drop_last());
        match t.last() {
            SyncCall::Devices(a, Ok(ds)) => snapshot_insert(p, a, ds),
            _ => p,
        }
    }
}

/// The record that `handle_device_change` exports for the local record `d`, read when
/// the shared configuration was `base`: merged over the shared record with the
/// platform's export form `prepared` of it, or `d` itself when there is no shared one.
pub open spec fn exported_record(base: ConfigMap, a: Seq<char>, d: DeviceView, prepared: DeviceView) -> DeviceView {
    match config_device(base, a, d.mac_address) {
        Some(s) => merge_devices_view(s, prepared),
        None => d,
    }
}

/// The configuration that exporting `e` to adapter `a` of `base` writes, if any.
pub open spec fn export_write(base: ConfigMap, a: Seq<char>, e: DeviceView) -> Seq<ConfigMap> {
    if config_device(base, a, e.mac_address) == Some(e) {
        Seq::empty()
    } else {
        seq![base.insert(a, adapter_devices(base, a).insert(e.mac_address, e))]
    }
}

/// Whether the calls read a local record of address `m` on adapter `a`.
pub open spec fn listed(t: Seq<SyncCall>, a: Seq<char>, m: Seq<char>) -> bool
    decreases t.len(),
{
    t.len() > 0 && (listed(t.drop_last(), a, m) || (t.last() matches SyncCall::Devices(b, Ok(ds)) && b == a
        && devices_view(ds).contains_key(m)))
}

/// The configuration that `handle_device_change` writes, read off its calls: the export
/// of the local record read first (`export_write`), over the shared configuration read
/// next (none when missing), with the platform's export form of it.
pub open spec fn change_write(t: Seq<SyncCall>, a: Seq<char>) -> Seq<ConfigMap> {
    let d = t[0]->Device_2->Ok_0;
    let base = match t[1] {
        SyncCall::Read(Ok(c)) => c@,
        _ => ConfigMap::empty(),
    };
    let p = if t.len() > 2 {
        match t[2] {
            SyncCall::Prepare(x) => x,
            _ => d,
        }
    } else {
        d
    };
    export_write(base, a, exported_record(base, a, d, p))
}

/// The records that an import may write are local ones: each desired record of
/// `import_plan` has the address of a local record.
proof fn lemma_import_plan_local(shared: Seq<BluetoothDevice>, local: Seq<BluetoothDevice>)
    ensures
        forall|i: int|
            0 <= i < import_plan(shared, devices_view(local)).len() ==> devices_view(local).contains_key(
                (#[trigger] import_plan(shared, devices_view(local))[i]).1.mac_address,
            ),
    decreases shared.len(),
{
    if shared.len() > 0 {
        lemma_import_plan_local(shared.drop_last(), local);
        let k = shared.last().mac_address@;
        crate::config::lemma_last_index_bounds(local, crate::config::device_key(), k);
        let prev = import_plan(shared.drop_last(), devices_view(local));
        let plan = import_plan(shared, devices_view(local));
        assert forall|i: int| 0 <= i < plan.len() implies devices_view(local).contains_key(
            (#[trigger] plan[i]).1.mac_address,
        ) by {
            if i < prev.len() {
                assert(plan[i] == prev[i]);
            } else {
                assert(devices_view(local)[k].mac_address == k);
            }
        }
    }
}
/// Keeps the local Bluetooth bonds and the shared configuration in step.
pub struct SyncManager<B, S> {
    /// The local stack and the shared store, with the record of the calls made on them.
    pub rec: Recorder<B, S>,
}

impl<B: BluetoothManager, S: ConfigStore> SyncManager<B, S> {
    /// The calls of the current operation, in order, with what they gave.
    pub open spec fn calls(&self) -> Seq<SyncCall> {
        self.rec.op_calls()
    }

    /// The operations performed since `prev`, each by its calls, in order.
    pub open spec fn ops_since(self, prev: Self) -> Seq<Seq<SyncCall>> {
        self.rec.done_ops().push(self.calls()).skip(prev.rec.done_ops().len() + 1int)
    }

    /// `self` is `prev` after exactly one operation: every earlier call is kept, and the
    /// operation's own calls are `calls()`.
    pub open spec fn one_op(self, prev: Self) -> bool {
        &&& self.rec.base() == prev.rec.history()
        &&& self.rec.done_ops() == prev.rec.done_ops().push(prev.calls())
    }

    /// A synchronizer of the local stack `bt_manager` with the shared `store`.
    pub fn new(bt_manager: B, store: S) -> (r: Self)
        ensures
            r.rec.backend() == bt_manager,
            r.rec.shared_store() == store,
            r.rec.history().len() == 0,
    {
        SyncManager { rec: Recorder::new(bt_manager, store) }
    }

    /// A synchronizer of the local stack `bt_manager` with the default shared store
    /// (the auto-detected EFI partition).
    pub fn with_default_efi(bt_manager: B) -> (r: Self) where S: Default
        ensures
            r.rec.backend() == bt_manager,
            r.rec.history().len() == 0,
    {
        SyncManager { rec: Recorder::new(bt_manager, S::default()) }
    }

    /// Completes a batch of local writes (`apply_pending`), as its own operation.
    pub fn apply_pending(&mut self) -> (r: Result<(), String>)
        ensures
            final(self).rec.history() == old(self).rec.history().push(SyncCall::Pending(r is Ok)),
            final(self).rec.shared_store() == old(self).rec.shared_store(),
    {
        self.rec.begin();
        let r = self.rec.pending();
        assert(self.rec.history() =~= old(self).rec.history().push(SyncCall::Pending(r is Ok)));
        r
    }

    fn read_store(&mut self) -> (r: Result<BlueVeinConfig, EfiError>)
        ensures
            step(old(self).calls(), SyncCall::Read(r), final(self).calls()),
            final(self).rec.base() == old(self).rec.base(),
            final(self).rec.done_ops() == old(self).rec.done_ops(),
            final(self).rec.backend() == old(self).rec.backend(),
            final(self).rec.shared_store() == old(self).rec.shared_store(),
    {
        let ghost t = self.calls();
        let r = self.rec.read();
        proof {
            lemma_step(t, SyncCall::Read(r));
        }
        r
    }

    fn write_store(&mut self, config: &BlueVeinConfig) -> (r: Result<(), EfiError>)
        ensures
            step(old(self).calls(), SyncCall::Write(config@, r is Ok), final(self).calls()),
            final(self).rec.base() == old(self).rec.base(),
            final(self).rec.done_ops() == old(self).rec.done_ops(),
            final(self).rec.backend() == old(self).rec.backend(),
    {
        let ghost t = self.calls();
        let r = self.rec.write(config);
        proof {
            lemma_step(t, SyncCall::Write(config@, r is Ok));
        }
        r
    }

    fn migrate(&mut self, config: &mut BlueVeinConfig) -> (r: Result<(), String>)
        ensures
            step(old(self).calls(), SyncCall::Migrate(*final(config), r is Ok), final(self).calls()),
            final(self).rec.base() == old(self).rec.base(),
            final(self).rec.done_ops() == old(self).rec.done_ops(),
            final(self).rec.backend() == old(self).rec.backend(),
            final(self).rec.shared_store() == old(self).rec.shared_store(),
    {
        let ghost t = self.calls();
        let r = self.rec.migrate(config);
        proof {
            lemma_step(t, SyncCall::Migrate(*config, r is Ok));
        }
        r
    }

    fn adapters(&mut self) -> (r: Result<Vec<String>, String>)
        ensures
            step(old(self).calls(), SyncCall::Adapters(names_result(r)), final(self).calls()),
            final(self).rec.base() == old(self).rec.base(),
            final(self).rec.done_ops() == old(self).rec.done_ops(),
            final(self).rec.backend() == old(self).rec.backend(),
            final(self).rec.shared_store() == old(self).rec.shared_store(),
    {
        let ghost t = self.calls();
        let r = self.rec.adapters();
        proof {
            lemma_step(t, SyncCall::Adapters(names_result(r)));
        }
        r
    }

    fn devices(&mut self, adapter: &str) -> (r: Result<Vec<BluetoothDevice>, String>)
        ensures
            step(old(self).calls(), SyncCall::Devices(adapter@, records_result(r)), final(self).calls()),
            final(self).rec.base() == old(self).rec.base(),
            final(self).rec.done_ops() == old(self).rec.done_ops(),
            final(self).rec.backend() == old(self).rec.backend(),
            final(self).rec.shared_store() == old(self).rec.shared_store(),
    {
        let ghost t = self.calls();
        let r = self.rec.devices(adapter);
        proof {
            lemma_step(t, SyncCall::Devices(adapter@, records_result(r)));
        }
        r
    }

    fn device(&mut self, adapter: &str, mac: &str) -> (r: Result<BluetoothDevice, String>)
        ensures
            step(old(self).calls(), SyncCall::Device(adapter@, mac@, record_result(r)), final(self).calls()),
            final(self).rec.base() == old(self).rec.base(),
            final(self).rec.done_ops() == old(self).rec.done_ops(),
            final(self).rec.backend() == old(self).rec.backend(),
            final(self).rec.shared_store() == old(self).rec.shared_store(),
    {
        let ghost t = self.calls();
        let r = self.rec.device(adapter, mac);
        proof {
            lemma_step(t, SyncCall::Device(adapter@, mac@, record_result(r)));
        }
        r
    }

    fn prepare(&mut self, local: &BluetoothDevice, shared: &BluetoothDevice) -> (r: BluetoothDevice)
        ensures
            step(old(self).calls(), SyncCall::Prepare(r@), final(self).calls()),
            final(self).rec.base() == old(self).rec.base(),
            final(self).rec.done_ops() == old(self).rec.done_ops(),
            final(self).rec.backend() == old(self).rec.backend(),
            final(self).rec.shared_store() == old(self).rec.shared_store(),
    {
        let ghost t = self.calls();
        let r = self.rec.prepare(local, shared);
        proof {
            lemma_step(t, SyncCall::Prepare(r@));
        }
        r
    }

    fn update_gate(&mut self, adapter: &str, current: &BluetoothDevice, desired: &BluetoothDevice) -> (r: bool)
        ensures
            step(old(self).calls(), SyncCall::Gate(adapter@, desired@, r), final(self).calls()),
            final(self).rec.base() == old(self).rec.base(),
            final(self).rec.done_ops() == old(self).rec.done_ops(),
            final(self).rec.backend() == old(self).rec.backend(),
            final(self).rec.shared_store() == old(self).rec.shared_store(),
    {
        let ghost t = self.calls();
        let r = self.rec.update_gate(adapter, current, desired);
        proof {
            lemma_step(t, SyncCall::Gate(adapter@, desired@, r));
        }
        r
    }

    fn missing_gate(&mut self, adapter: &str, device: &BluetoothDevice) -> (r: bool)
        ensures
            step(old(self).calls(), SyncCall::Gate(adapter@, device@, r), final(self).calls()),
            final(self).rec.base() == old(self).rec.base(),
            final(self).rec.done_ops() == old(self).rec.done_ops(),
            final(self).rec.backend() == old(self).rec.backend(),
            final(self).rec.shared_store() == old(self).rec.shared_store(),
    {
        let ghost t = self.calls();
        let r = self.rec.missing_gate(adapter, device);
        proof {
            lemma_step(t, SyncCall::Gate(adapter@, device@, r));
        }
        r
    }

    fn set(&mut self, adapter: &str, device: &BluetoothDevice) -> (r: Result<(), String>)
        ensures
            step(old(self).calls(), SyncCall::SetDevice(adapter@, device@, r is Ok), final(self).calls()),
            final(self).rec.base() == old(self).rec.base(),
            final(self).rec.done_ops() == old(self).rec.done_ops(),
            final(self).rec.shared_store() == old(self).rec.shared_store(),
    {
        let ghost t = self.calls();
        let r = self.rec.set(adapter, device);
        proof {
            lemma_step(t, SyncCall::SetDevice(adapter@, device@, r is Ok));
        }
        r
    }

    fn pending(&mut self) -> (r: Result<(), String>)
        ensures
            step(old(self).calls(), SyncCall::Pending(r is Ok), final(self).calls()),
            final(self).rec.base() == old(self).rec.base(),
            final(self).rec.done_ops() == old(self).rec.done_ops(),
            final(self).rec.shared_store() == old(self).rec.shared_store(),
    {
        let ghost t = self.calls();
        let r = self.rec.pending();
        proof {
            lemma_step(t, SyncCall::Pending(r is Ok));
        }
        r
    }

    /// Writes `config` to the shared store and reads it back (`check_read_back`).
    fn write_shared(&mut self, config: &BlueVeinConfig) -> (r: Result<(), SyncError>)
        ensures
            final(self).rec.base() == old(self).rec.base(),
            final(self).rec.done_ops() == old(self).rec.done_ops(),
            final(self).rec.backend() == old(self).rec.backend(),
            !(r matches Err(SyncError::Local(_))),
            final(self).calls().len() > old(self).calls().len(),
            forall|i: int| 0 <= i < old(self).calls().len() ==> final(self).calls()[i] == old(self).calls()[i],
            shared_writes(final(self).calls()) == shared_writes(old(self).calls()).push(config@),
            local_writes(final(self).calls()) == local_writes(old(self).calls()),
            allowed_writes(final(self).calls()) == allowed_writes(old(self).calls()),
            gates(final(self).calls()) == gates(old(self).calls()),
            device_reads(final(self).calls()) == device_reads(old(self).calls()),
            adapters_listed(final(self).calls()) == adapters_listed(old(self).calls()),
            read_failed(final(self).calls()) == read_failed(old(self).calls()),
            set_failed(final(self).calls()) == set_failed(old(self).calls()),
            has_migration(final(self).calls()) == has_migration(old(self).calls()),
            forall|c: ConfigMap| #[trigger] migrated(final(self).calls(), c) == migrated(old(self).calls(), c),
            forall|b: ConfigMap| #[trigger] local_over(b, final(self).calls()) == local_over(b, old(self).calls()),
            r is Ok ==> write_confirmed(final(self).calls()),
            !write_confirmed(old(self).calls()) ==> (r is Ok <==> write_confirmed(final(self).calls())),
            no_pending(old(self).calls()) ==> no_pending(final(self).calls()),
    {
        let ghost t0 = self.calls();
        match self.write_store(config) {
            Ok(()) => {
                let back = self.read_store();
                proof {
                    let t1 = t0.push(SyncCall::Write(config@, true));
                    assert(self.calls() == t1.push(SyncCall::Read(back)));
                    assert(self.calls().drop_last() == t1);
                    assert(t1.drop_last() == t0);
                    assert(shared_writes(t1) == shared_writes(t0).push(config@));
                    assert(local_writes(t1) == local_writes(t0));
                    assert(allowed_writes(t1) == allowed_writes(t0));
                    assert(gates(t1) == gates(t0));
                    assert(device_reads(t1) == device_reads(t0));
                    assert(adapters_listed(t1) == adapters_listed(t0));
                    assert(read_failed(t1) == read_failed(t0));
                    assert(set_failed(t1) == set_failed(t0));
                    assert(has_migration(t1) == has_migration(t0));
                    assert forall|c: ConfigMap| #[trigger] migrated(self.calls(), c) == migrated(t0, c) by {
                        assert(migrated(self.calls(), c) == migrated(t1, c));
                    }
                    assert forall|b: ConfigMap| #[trigger] local_over(b, self.calls()) == local_over(b, t0) by {
                        assert(local_over(b, self.calls()) == local_over(b, t1));
                    }
                    assert(self.calls()[self.calls().len() - 2] == SyncCall::Write(config@, true));
                }
                check_read_back(config, back)
            },
            Err(e) => {
                proof {
                    assert(self.calls().drop_last() == t0);
                }
                Err(SyncError::Efi(e))
            },
        }
    }

    /// Bidirectional synchronization, for the adapters of this machine: shared records
    /// of local devices are merged into the local bonds, unless the platform gives a
    /// reason not to (`update_reason`); shared records without a local bond are imported
    /// where the platform can create the bond (`import_missing_reason`) and kept in any
    /// case; local devices missing from the shared configuration are added to it; the
    /// shared configuration is written only when it changes, and must read back equal;
    /// after local writes the batch is completed (`apply_pending`), also after a
    /// failure. What it did is `sync_outcome` of its calls.
    pub fn sync_bidirectional(&mut self) -> (r: Result<(), SyncError>)
        ensures
            final(self).one_op(*old(self)),
            sync_outcome(final(self).calls(), r, true, true),
    {
        self.sync_bidirectional_mode(SyncMode::Apply)
    }

    /// Plans a bidirectional synchronization and writes nothing, locally or shared: it
    /// fails exactly when reading the store or the local state fails.
    pub fn preview_bidirectional(&mut self) -> (r: Result<(), SyncError>)
        ensures
            final(self).one_op(*old(self)),
            sync_outcome(final(self).calls(), r, false, false),
            final(self).rec.backend() == old(self).rec.backend(),
            final(self).rec.shared_store() == old(self).rec.shared_store(),
    {
        self.sync_bidirectional_mode(SyncMode::Preview)
    }

    /// Plans a bidirectional synchronization and writes only the shared configuration:
    /// a plan that would update a local bond is refused before anything is written.
    pub fn repair_shared_only(&mut self) -> (r: Result<(), SyncError>)
        ensures
            final(self).one_op(*old(self)),
            sync_outcome(final(self).calls(), r, false, true),
            final(self).rec.backend() == old(self).rec.backend(),
    {
        self.sync_bidirectional_mode(SyncMode::SharedOnly)
    }

    fn sync_bidirectional_mode(&mut self, mode: SyncMode) -> (r: Result<(), SyncError>)
        ensures
            final(self).one_op(*old(self)),
            sync_outcome(final(self).calls(), r, mode is Apply, !(mode is Preview)),
            !(mode is Apply) ==> final(self).rec.backend() == old(self).rec.backend(),
            mode is Preview ==> final(self).rec.shared_store() == old(self).rec.shared_store(),
    {
        self.rec.begin();
        let (r, wrote) = self.plan_and_apply(mode);
        if wrote {
            let ghost t0 = self.calls();
            let done = self.pending();
            proof {
                assert(self.calls().drop_last() == t0);
                assert forall|c: ConfigMap| #[trigger] migrated(self.calls(), c) == migrated(t0, c) by {}
                assert forall|b: ConfigMap| #[trigger] local_over(b, self.calls()) == local_over(b, t0) by {}
                if write_confirmed(t0) {
                    assert(write_confirmed(self.calls()));
                }
            }
            match r {
                Ok(()) => match done {
                    Ok(()) => Ok(()),
                    Err(e) => Err(SyncError::Local(e)),
                },
                Err(e) => Err(e),
            }
        } else {
            r
        }
    }

    /// The planning and writing of a bidirectional synchronization, from no calls; the
    /// flag tells whether it wrote locally.
    fn plan_and_apply(&mut self, mode: SyncMode) -> (r: (Result<(), SyncError>, bool))
        requires
            old(self).calls().len() == 0,
        ensures
            final(self).rec.base() == old(self).rec.base(),
            final(self).rec.done_ops() == old(self).rec.done_ops(),
            ({
                let t = final(self).calls();
                let local = mode is Apply;
                let shared = !(mode is Preview);
                &&& t.len() > 0 && t[0] is Read
                &&& t[0] matches SyncCall::Read(Ok(_)) ==> (t.len() > 1 && t[1] is Migrate && (t[1] matches SyncCall::Migrate(
                    _,
                    true,
                ) ==> (t.len() > 2 && t[2] is Adapters)))
                &&& (t[0] matches SyncCall::Read(Err(e)) && e is NotFound) ==> (t.len() > 1 && t[1] is Adapters)
                &&& r.0 is Err ==> (store_unreadable(t) || read_failed(t) || set_failed(t) || write_unconfirmed(t) || (!local
                    && shared && allowed_writes(t).len() > 0))
                &&& store_unreadable(t) ==> (t.len() == 1 && r.0 == Err::<(), SyncError>(SyncError::Efi(t[0]->Read_0->Err_0)))
                &&& (t[0] matches SyncCall::Read(Err(e)) && e is NotFound) ==> (!has_migration(t) && local_writes(t).len() == 0)
                &&& !local ==> local_writes(t).len() == 0
                &&& !shared ==> shared_writes(t).len() == 0
                &&& read_failed(t) ==> (r.0 is Err && local_writes(t).len() == 0 && shared_writes(t).len() == 0)
                &&& set_failed(t) ==> (r.0 is Err && shared_writes(t).len() == 0)
                &&& local ==> local_writes(t) == allowed_writes(t)
                &&& device_reads(t).is_prefix_of(adapters_listed(t))
                &&& r.0 is Ok ==> device_reads(t) == adapters_listed(t)
                &&& gates(t).is_prefix_of(sync_gates(t))
                &&& r.0 is Ok ==> gates(t) == sync_gates(t)
                &&& (!local && shared && allowed_writes(t).len() > 0) ==> r.0 is Err
                &&& shared_writes(t).len() <= 1
                &&& shared_writes(t).len() == 1 ==> shared_writes(t)[0] == planned_config(t)
                &&& (r.0 is Ok && shared) ==> (shared_writes(t).len() == 1 <==> !(t[0] matches SyncCall::Read(Ok(c)) && c@
                    == planned_config(t)))
                &&& (r.0 is Ok && shared_writes(t).len() == 1) ==> write_confirmed(t)
                &&& no_pending(t)
                &&& (!local && !shared) ==> (r.0 is Err <==> (store_unreadable(t) || read_failed(t)))
                &&& r.1 == (local_writes(t).len() > 0)
                &&& store_unreadable(t) ==> !r.1
            }),
            !(mode is Apply) ==> final(self).rec.backend() == old(self).rec.backend(),
            mode is Preview ==> final(self).rec.shared_store() == old(self).rec.shared_store(),
    {
        let ghost rb = self.rec.base();
        let ghost rd = self.rec.done_ops();
        let read = self.read_store();
        let ghost read0 = read;
        let ghost t0 = self.calls();
        proof {
            assert(t0.drop_last() =~= Seq::<SyncCall>::empty());
            assert(t0[0] == SyncCall::Read(read0));
        }
        let found: Option<BlueVeinConfig> = match read {
            Ok(config) => Some(config),
            Err(EfiError::NotFound) => None,
            Err(e) => {
                return (Err(SyncError::Efi(e)), false);
            },
        };
        let shared_before = match &found {
            Some(c) => Some(c.clone()),
            None => None,
        };
        let mut efi_config: Option<BlueVeinConfig> = None;
        match found {
            Some(mut config) => {
                match self.migrate(&mut config) {
                    Ok(()) => {},
                    Err(e) => {
                        return (Err(SyncError::Local(e)), false);
                    },
                }
                efi_config = Some(config);
            },
            None => {},
        }
        let listed = self.adapters();
        let ghost listed0 = listed;
        let adapters = match listed {
            Ok(adapters) => adapters,
            Err(e) => {
                return (Err(SyncError::Local(e)), false);
            },
        };
        let ghost names = names_of(adapters@);
        let mut system_config = BlueVeinConfig::new();
        let mut i: usize = 0;
        while i < adapters.len()
            invariant
                self.rec.base() == rb,
                self.rec.done_ops() == rd,
                rb == old(self).rec.base(),
                rd == old(self).rec.done_ops(),
                i <= adapters.len(),
                self.calls().len() > 0,
                self.calls()[0] == SyncCall::Read(read0),
                !store_unreadable(self.calls()),
                system_config@ == local_config(self.calls()),
                read0 matches Ok(c0) ==> (efi_config matches Some(c) && c@ == migrated(self.calls(), c0@)
                    && has_migration(self.calls())),
                read0 matches Ok(c0) ==> (shared_before matches Some(b) && b@ == c0@),
                read0 is Err ==> (efi_config is None && shared_before is None && !has_migration(self.calls())),
                read0 is Err ==> (self.calls().len() > 1 && self.calls()[1] is Adapters),
                read0 is Ok ==> (efi_config matches Some(c) && self.calls().len() > 2 && self.calls()[1]
                    == SyncCall::Migrate(c, true) && self.calls()[2] == SyncCall::Adapters(Ok(names))),
                names == names_of(adapters@),
                names.len() == adapters.len(),
                adapters_listed(self.calls()) == names,
                device_reads(self.calls()) == names.take(i as int),
                local_writes(self.calls()).len() == 0,
                allowed_writes(self.calls()).len() == 0,
                gates(self.calls()).len() == 0,
                shared_writes(self.calls()).len() == 0,
                !read_failed(self.calls()),
                !set_failed(self.calls()),
                no_pending(self.calls()),
                self.rec.backend() == old(self).rec.backend(),
                self.rec.shared_store() == old(self).rec.shared_store(),
            decreases adapters.len() - i,
        {
            proof {
                assert(names.take(i + 1) =~= names.take(i as int).push(adapters@[i as int]@));
                assert(names.take(i + 1) =~= names.subrange(0, i + 1));
            }
            match self.devices(adapters[i].as_str()) {
                Ok(devices) => {
                    if devices.len() > 0 {
                        system_config.set_adapter_devices(adapters[i].clone(), devices);
                    }
                },
                Err(e) => {
                    return (
                        Err(SyncError::Local(describe("Failed to read adapter", adapters[i].as_str(), e.as_str()))),
                        false,
                    );
                },
            }
            i = i + 1;
        }
        proof {
            assert(names.take(adapters.len() as int) =~= names);
        }
        let mut wrote = false;
        if let Some(efi_cfg) = &efi_config {
            let mut i: usize = 0;
            while i < adapters.len()
                invariant
                    self.rec.base() == rb,
                    self.rec.done_ops() == rd,
                    rb == old(self).rec.base(),
                    rd == old(self).rec.done_ops(),
                    i <= adapters.len(),
                    efi_config matches Some(c) && c == *efi_cfg,
                    self.calls().len() > 2,
                    self.calls()[0] == SyncCall::Read(read0),
                    read0 is Ok,
                    self.calls()[1] == SyncCall::Migrate(*efi_cfg, true),
                    self.calls()[2] == SyncCall::Adapters(Ok(names)),
                    names == names_of(adapters@),
                    adapters_listed(self.calls()) == names,
                    device_reads(self.calls()) == names,
                    system_config@ == local_config(self.calls()),
                    read0 matches Ok(c0) ==> efi_cfg@ == migrated(self.calls(), c0@),
                    has_migration(self.calls()),
                    shared_writes(self.calls()).len() == 0,
                    !read_failed(self.calls()),
                    !set_failed(self.calls()),
                    no_pending(self.calls()),
                    mode is Apply ==> local_writes(self.calls()) == allowed_writes(self.calls()),
                    !(mode is Apply) ==> local_writes(self.calls()).len() == 0,
                    mode is SharedOnly ==> allowed_writes(self.calls()).len() == 0,
                    gates(self.calls()) == gate_plan(*efi_cfg, system_config@, names.take(i as int)),
                    wrote == (local_writes(self.calls()).len() > 0),
                    self.rec.shared_store() == old(self).rec.shared_store(),
                    !(mode is Apply) ==> self.rec.backend() == old(self).rec.backend(),
                decreases adapters.len() - i,
            {
                let adapter = adapters[i].as_str();
                let no_devices: Vec<BluetoothDevice> = Vec::new();
                let system_devices = match system_config.get_adapter_devices(adapter) {
                    Some(v) => v,
                    None => &no_devices,
                };
                let ghost e = *efi_cfg;
                let ghost l = system_config@;
                let ghost base = gate_plan(e, l, names.take(i as int));
                proof {
                    lemma_devices_view_empty(no_devices@);
                    assert(devices_view(system_devices@) == local_devices(l, adapter@));
                    assert(names[i as int] == adapter@);
                    assert(names.take(i + 1).drop_last() =~= names.take(i as int));
                }
                match efi_cfg.get_adapter_devices(adapter) {
                    Some(efi_devices) => {
                        assert(efi_devices@ == adapter_records(e, adapter@));
                        let candidates = import_candidates(efi_devices, system_devices);
                        let ghost cv = candidate_views(candidates@);
                        let mut j: usize = 0;
                        while j < candidates.len()
                            invariant
                                self.rec.base() == rb,
                                self.rec.done_ops() == rd,
                                rb == old(self).rec.base(),
                                rd == old(self).rec.done_ops(),
                                j <= candidates.len(),
                                i < adapters.len(),
                                names.len() == adapters.len(),
                                cv == candidate_views(candidates@),
                                cv == import_plan(adapter_records(e, adapter@), local_devices(l, adapter@)),
                                names[i as int] == adapter@,
                                e == *efi_cfg,
                                l == system_config@,
                                base == gate_plan(e, l, names.take(i as int)),
                                gates(self.calls()) == base + tag_desired(adapter@, cv.take(j as int)),
                                self.calls().len() > 2,
                                self.calls()[0] == SyncCall::Read(read0),
                                read0 is Ok,
                                self.calls()[1] == SyncCall::Migrate(e, true),
                                self.calls()[2] == SyncCall::Adapters(Ok(names)),
                                adapters_listed(self.calls()) == names,
                                device_reads(self.calls()) == names,
                                system_config@ == local_config(self.calls()),
                                read0 matches Ok(c0) ==> efi_cfg@ == migrated(self.calls(), c0@),
                                has_migration(self.calls()),
                                shared_writes(self.calls()).len() == 0,
                                !read_failed(self.calls()),
                                !set_failed(self.calls()),
                                no_pending(self.calls()),
                                mode is Apply ==> local_writes(self.calls()) == allowed_writes(self.calls()),
                                !(mode is Apply) ==> local_writes(self.calls()).len() == 0,
                                mode is SharedOnly ==> allowed_writes(self.calls()).len() == 0,
                                wrote == (local_writes(self.calls()).len() > 0),
                                self.rec.shared_store() == old(self).rec.shared_store(),
                                !(mode is Apply) ==> self.rec.backend() == old(self).rec.backend(),
                            decreases candidates.len() - j,
                        {
                            let c = &candidates[j];
                            // A plan the platform cannot apply safely is skipped, not
                            // guessed: the shared record stays for diagnosis.
                            let allowed = self.update_gate(adapter, &c.current, &c.desired);
                            let ghost x = tag_desired(adapter@, cv.take(j + 1));
                            proof {
                                assert(cv[j as int] == (c.current@, c.desired@));
                                assert(x =~= tag_desired(adapter@, cv.take(j as int)).push((adapter@, c.desired@)));
                                assert(gates(self.calls()) =~= base + x);
                                assert(x =~= adapter_gates(e, l, names[i as int]).subrange(0, x.len() as int));
                            }
                            if allowed {
                                match mode {
                                    SyncMode::Apply => {
                                        let written = self.set(adapter, &c.desired);
                                        wrote = true;
                                        match written {
                                            Ok(()) => {},
                                            Err(e) => {
                                                proof {
                                                    lemma_gates_prefix(self.calls(), *efi_cfg, names, i as int, x);
                                                }
                                                return (
                                                    Err(SyncError::Local(describe(
                                                        "Failed to update device",
                                                        c.desired.mac_address.as_str(),
                                                        e.as_str(),
                                                    ))),
                                                    true,
                                                );
                                            },
                                        }
                                    },
                                    SyncMode::Preview => {},
                                    SyncMode::SharedOnly => {
                                        proof {
                                            lemma_gates_prefix(self.calls(), *efi_cfg, names, i as int, x);
                                        }
                                        return (
                                            Err(SyncError::Local(describe(
                                                "EFI-only repair would update the local keys of",
                                                c.desired.mac_address.as_str(),
                                                "refusing the plan",
                                            ))),
                                            false,
                                        );
                                    },
                                }
                            }
                            j = j + 1;
                        }
                        // Complete bonds missing locally are imported where the
                        // platform can create them; the others stay shared.
                        let missing = missing_bonds(efi_devices, system_devices);
                        let ghost mv = record_views(missing@);
                        proof {
                            assert(cv.take(candidates.len() as int) =~= cv);
                        }
                        let mut j: usize = 0;
                        while j < missing.len()
                            invariant
                                self.rec.base() == rb,
                                self.rec.done_ops() == rd,
                                rb == old(self).rec.base(),
                                rd == old(self).rec.done_ops(),
                                j <= missing.len(),
                                i < adapters.len(),
                                names.len() == adapters.len(),
                                mv == record_views(missing@),
                                mv == missing_plan(adapter_records(e, adapter@), local_devices(l, adapter@)),
                                cv == import_plan(adapter_records(e, adapter@), local_devices(l, adapter@)),
                                names[i as int] == adapter@,
                                e == *efi_cfg,
                                l == system_config@,
                                base == gate_plan(e, l, names.take(i as int)),
                                gates(self.calls()) == base + tag_desired(adapter@, cv) + tag_records(adapter@, mv.take(j as int)),
                                self.calls().len() > 2,
                                self.calls()[0] == SyncCall::Read(read0),
                                read0 is Ok,
                                self.calls()[1] == SyncCall::Migrate(e, true),
                                self.calls()[2] == SyncCall::Adapters(Ok(names)),
                                adapters_listed(self.calls()) == names,
                                device_reads(self.calls()) == names,
                                system_config@ == local_config(self.calls()),
                                read0 matches Ok(c0) ==> efi_cfg@ == migrated(self.calls(), c0@),
                                has_migration(self.calls()),
                                shared_writes(self.calls()).len() == 0,
                                !read_failed(self.calls()),
                                !set_failed(self.calls()),
                                no_pending(self.calls()),
                                mode is Apply ==> local_writes(self.calls()) == allowed_writes(self.calls()),
                                !(mode is Apply) ==> local_writes(self.calls()).len() == 0,
                                mode is SharedOnly ==> allowed_writes(self.calls()).len() == 0,
                                wrote == (local_writes(self.calls()).len() > 0),
                                self.rec.shared_store() == old(self).rec.shared_store(),
                                !(mode is Apply) ==> self.rec.backend() == old(self).rec.backend(),
                            decreases missing.len() - j,
                        {
                            let d = &missing[j];
                            let allowed = self.missing_gate(adapter, d);
                            let ghost x = tag_desired(adapter@, cv) + tag_records(adapter@, mv.take(j + 1));
                            proof {
                                assert(mv[j as int] == d@);
                                assert(tag_records(adapter@, mv.take(j + 1)) =~= tag_records(adapter@, mv.take(j as int)).push((adapter@, d@)));
                                assert(gates(self.calls()) =~= base + x);
                                assert(x =~= adapter_gates(e, l, names[i as int]).subrange(0, x.len() as int));
                            }
                            if allowed {
                                match mode {
                                    SyncMode::Apply => {
                                        let written = self.set(adapter, d);
                                        wrote = true;
                                        match written {
                                            Ok(()) => {},
                                            Err(e) => {
                                                proof {
                                                    lemma_gates_prefix(self.calls(), *efi_cfg, names, i as int, x);
                                                }
                                                return (
                                                    Err(SyncError::Local(describe(
                                                        "Failed to import device",
                                                        d.mac_address.as_str(),
                                                        e.as_str(),
                                                    ))),
                                                    true,
                                                );
                                            },
                                        }
                                    },
                                    SyncMode::Preview => {},
                                    SyncMode::SharedOnly => {
                                        proof {
                                            lemma_gates_prefix(self.calls(), *efi_cfg, names, i as int, x);
                                        }
                                        return (
                                            Err(SyncError::Local(describe(
                                                "EFI-only repair would import the local keys of",
                                                d.mac_address.as_str(),
                                                "refusing the plan",
                                            ))),
                                            false,
                                        );
                                    },
                                }
                            }
                            j = j + 1;
                        }
                        proof {
                            assert(mv.take(missing.len() as int) =~= mv);
                            assert(gates(self.calls()) =~= gate_plan(e, l, names.take(i + 1)));
                        }
                    },
                    None => {
                        proof {
                            assert(adapter_records(e, adapter@) =~= Seq::<BluetoothDevice>::empty());
                            assert(adapter_gates(e, l, adapter@) =~= Seq::empty());
                            assert(gates(self.calls()) =~= gate_plan(e, l, names.take(i + 1)));
                        }
                    },
                }
                i = i + 1;
            }
            proof {
                assert(names.take(adapters.len() as int) =~= names);
            }
        }
        let final_config = match efi_config {
            Some(efi_cfg) => plan_shared_config(&efi_cfg, &system_config),
            None => system_config,
        };
        assert(final_config@ == planned_config(self.calls()));
        if let Some(o) = &shared_before {
            if crate::config::same_config(o, &final_config) {
                return (Ok(()), wrote);
            }
        }
        proof {
            lemma_unwritten_unconfirmed(self.calls());
        }
        match mode {
            SyncMode::Preview => (Ok(()), wrote),
            _ => (self.write_shared(&final_config), wrote),
        }
    }

    /// Writes every shared record of a local adapter to the local stack; failures of
    /// single devices are skipped, and after local writes the batch is completed once
    /// (`apply_pending`), as the last call. The shared store is only read.
    pub fn sync_from_efi(&mut self) -> (r: Result<(), SyncError>)
        ensures
            final(self).one_op(*old(self)),
            final(self).rec.shared_store() == old(self).rec.shared_store(),
            ({
                let t = final(self).calls();
                &&& t.len() > 0 && t[0] is Read
                &&& t[0] matches SyncCall::Read(Err(e)) ==> t.len() == 1 && (e is NotFound ==> r is Ok) && (!(e
                    is NotFound) ==> r == Err::<(), SyncError>(SyncError::Efi(e)))
                &&& t[0] matches SyncCall::Read(Ok(c)) ==> t.len() > 1 && t[1] is Adapters && (t[1] matches SyncCall::Adapters(Err(
                    m,
                )) ==> (t.len() == 2 && (r matches Err(SyncError::Local(x)) && x@ == m))) && (t[1] matches SyncCall::Adapters(
                    Ok(a),
                ) ==> local_writes(t) == from_efi_writes(c, a) && (r is Ok <==> !(t.last() matches SyncCall::Pending(
                    false,
                ))))
                &&& shared_writes(t).len() == 0
                &&& local_writes(t).len() > 0 ==> t.last() is Pending
                &&& no_pending(t.drop_last())
                &&& local_writes(t).len() == 0 ==> no_pending(t)
            }),
    {
        self.rec.begin();
        let ghost rb = self.rec.base();
        let ghost rd = self.rec.done_ops();
        let read = self.read_store();
        let ghost read0 = read;
        let config = match read {
            Ok(config) => config,
            Err(EfiError::NotFound) => {
                return Ok(());
            },
            Err(e) => {
                return Err(SyncError::Efi(e));
            },
        };
        let listed = self.adapters();
        let ghost t1 = self.calls();
        let adapters = match listed {
            Ok(adapters) => adapters,
            Err(e) => {
                return Err(SyncError::Local(e));
            },
        };
        let ghost names = adapters@.map_values(|s: String| s@);
        assert(names.take(0) =~= Seq::<Seq<char>>::empty());
        let mut wrote = false;
        let mut i: usize = 0;
        while i < adapters.len()
            invariant
                self.rec.base() == rb,
                self.rec.done_ops() == rd,
                rb == old(self).rec.history(),
                rd == old(self).rec.done_ops().push(old(self).calls()),
                i <= adapters.len(),
                names == adapters@.map_values(|s: String| s@),
                read0 == Ok::<BlueVeinConfig, EfiError>(config),
                self.calls().len() >= 2,
                self.calls()[0] == SyncCall::Read(read0),
                self.calls()[1] == SyncCall::Adapters(Ok(names)),
                local_writes(self.calls()) == from_efi_writes(config, names.take(i as int)),
                shared_writes(self.calls()).len() == 0,
                wrote == (local_writes(self.calls()).len() > 0),
                no_pending(self.calls()),
                self.rec.shared_store() == old(self).rec.shared_store(),
            decreases adapters.len() - i,
        {
            let adapter = adapters[i].as_str();
            let ghost before = local_writes(self.calls());
            let ghost records = adapter_records(config, names[i as int]);
            proof {
                assert(names.take(i + 1).drop_last() =~= names.take(i as int));
                assert(names.take(i + 1).last() == names[i as int]);
                assert(names[i as int] == adapter@);
                crate::config::lemma_last_index_bounds(config.adapters@, crate::config::adapter_key(), adapter@);
            }
            if let Some(devices) = config.get_adapter_devices(adapter) {
                assert(devices@ == records);
                let mut j: usize = 0;
                assert(records.take(0) =~= Seq::<BluetoothDevice>::empty());
                while j < devices.len()
                    invariant
                        self.rec.base() == rb,
                        self.rec.done_ops() == rd,
                        rb == old(self).rec.history(),
                        rd == old(self).rec.done_ops().push(old(self).calls()),
                        j <= devices.len(),
                        devices@ == records,
                        adapter@ == names[i as int],
                        self.calls().len() >= 2,
                        self.calls()[0] == SyncCall::Read(read0),
                        self.calls()[1] == SyncCall::Adapters(Ok(names)),
                        local_writes(self.calls()) == before + record_writes(adapter@, records.take(j as int)),
                        shared_writes(self.calls()).len() == 0,
                        wrote == (local_writes(self.calls()).len() > 0),
                        no_pending(self.calls()),
                        self.rec.shared_store() == old(self).rec.shared_store(),
                    decreases devices.len() - j,
                {
                    let _ = self.set(adapter, &devices[j]);
                    wrote = true;
                    assert(records.take(j + 1) =~= records.take(j as int).push(records[j as int]));
                    assert(record_writes(adapter@, records.take(j + 1)) =~= record_writes(adapter@, records.take(j as int)).push(
                        (adapter@, devices@[j as int]@),
                    ));
                    j = j + 1;
                }
                assert(records.take(devices.len() as int) =~= records);
            } else {
                assert(records =~= Seq::<BluetoothDevice>::empty());
                assert(record_writes(adapter@, records) =~= Seq::<(Seq<char>, DeviceView)>::empty());
            }
            i = i + 1;
        }
        assert(names.take(adapters.len() as int) =~= names);
        if wrote {
            let ghost t2 = self.calls();
            let done = self.pending();
            assert(self.calls().drop_last() == t2);
            match done {
                Ok(()) => Ok(()),
                Err(e) => Err(SyncError::Local(e)),
            }
        } else {
            Ok(())
        }
    }

    /// Replaces the shared devices of every local adapter with bonds with the local
    /// records, and writes the result, which must read back equal. A local failure
    /// never reaches the shared store; no local bond is written.
    pub fn sync_to_efi(&mut self) -> (r: Result<(), SyncError>)
        ensures
            final(self).one_op(*old(self)),
            final(self).rec.backend() == old(self).rec.backend(),
            ({
                let t = final(self).calls();
                &&& t.len() > 0 && t[0] is Read
                &&& store_unreadable(t) ==> (t.len() == 1 && r == Err::<(), SyncError>(SyncError::Efi(t[0]->Read_0->Err_0)))
                &&& read_failed(t) ==> (r is Err && shared_writes(t).len() == 0)
                &&& local_writes(t).len() == 0
                &&& device_reads(t).is_prefix_of(adapters_listed(t))
                &&& shared_writes(t).len() == 1 ==> device_reads(t) == adapters_listed(t)
                &&& (!store_unreadable(t) && !read_failed(t)) <==> shared_writes(t).len() == 1
                &&& shared_writes(t).len() == 1 ==> shared_writes(t)[0] == to_efi_config(t)
                &&& r is Ok ==> (shared_writes(t).len() == 1 && write_confirmed(t))
                &&& !store_unreadable(t) ==> (t.len() > 1 && t[1] is Adapters)
                &&& r is Err ==> (store_unreadable(t) || read_failed(t) || write_unconfirmed(t))
            }),
    {
        self.rec.begin();
        let ghost rb = self.rec.base();
        let ghost rd = self.rec.done_ops();
        let read = self.read_store();
        let ghost read0 = read;
        let mut config = match read {
            Ok(config) => config,
            Err(EfiError::NotFound) => BlueVeinConfig::new(),
            Err(e) => {
                return Err(SyncError::Efi(e));
            },
        };
        let adapters = match self.adapters() {
            Ok(adapters) => adapters,
            Err(e) => {
                return Err(SyncError::Local(e));
            },
        };
        let mut i: usize = 0;
        while i < adapters.len()
            invariant
                self.rec.base() == rb,
                self.rec.done_ops() == rd,
                rb == old(self).rec.history(),
                rd == old(self).rec.done_ops().push(old(self).calls()),
                i <= adapters.len(),
                self.calls().len() > 0,
                self.calls()[0] == SyncCall::Read(read0),
                !store_unreadable(self.calls()),
                config@ == to_efi_config(self.calls()),
                self.calls().len() > 1 && self.calls()[1] is Adapters,
                adapters_listed(self.calls()) == names_of(adapters@),
                device_reads(self.calls()) == names_of(adapters@).take(i as int),
                local_writes(self.calls()).len() == 0,
                shared_writes(self.calls()).len() == 0,
                !read_failed(self.calls()),
                no_pending(self.calls()),
                self.rec.backend() == old(self).rec.backend(),
            decreases adapters.len() - i,
        {
            proof {
                let names = names_of(adapters@);
                assert(names.take(i + 1) =~= names.take(i as int).push(adapters@[i as int]@));
                assert(names.take(i + 1) =~= names.subrange(0, i + 1));
            }
            let devices = match self.devices(adapters[i].as_str()) {
                Ok(devices) => devices,
                Err(e) => {
                    return Err(SyncError::Local(e));
                },
            };
            if devices.len() > 0 {
                config.set_adapter_devices(adapters[i].clone(), devices);
            }
            i = i + 1;
        }
        proof {
            assert(names_of(adapters@).take(adapters.len() as int) =~= names_of(adapters@));
            lemma_unwritten_unconfirmed(self.calls());
        }
        self.write_shared(&config)
    }

    /// The complete local records, LE-only devices included (`snapshot_calls` of the
    /// calls); a failed read of the backend fails it.
    pub fn local_snapshot(&mut self) -> (r: Result<Snapshot, SyncError>)
        ensures
            final(self).one_op(*old(self)),
            final(self).rec.backend() == old(self).rec.backend(),
            final(self).rec.shared_store() == old(self).rec.shared_store(),
            ({
                let t = final(self).calls();
                &&& t.len() > 0 && t[0] is Adapters
                &&& t[0] matches SyncCall::Adapters(Err(m)) ==> (t.len() == 1 && (r matches Err(SyncError::Local(x)) && x@
                    == m))
                &&& r is Err <==> read_failed(t)
                &&& device_reads(t).is_prefix_of(adapters_listed(t))
                &&& r is Ok ==> device_reads(t) == adapters_listed(t)
                &&& r matches Ok(s) ==> s@ == snapshot_calls(t)
                &&& local_writes(t).len() == 0 && shared_writes(t).len() == 0
            }),
    {
        self.rec.begin();
        let ghost rb = self.rec.base();
        let ghost rd = self.rec.done_ops();
        let mut snapshot = Snapshot::new();
        let adapters = match self.adapters() {
            Ok(adapters) => adapters,
            Err(e) => {
                return Err(SyncError::Local(e));
            },
        };
        let mut i: usize = 0;
        while i < adapters.len()
            invariant
                self.rec.base() == rb,
                self.rec.done_ops() == rd,
                rb == old(self).rec.history(),
                rd == old(self).rec.done_ops().push(old(self).calls()),
                i <= adapters.len(),
                self.calls().len() > 0,
                self.calls()[0] is Adapters,
                !(self.calls()[0] matches SyncCall::Adapters(Err(_))),
                adapters_listed(self.calls()) == names_of(adapters@),
                device_reads(self.calls()) == names_of(adapters@).take(i as int),
                snapshot@ == snapshot_calls(self.calls()),
                !read_failed(self.calls()),
                local_writes(self.calls()).len() == 0,
                shared_writes(self.calls()).len() == 0,
                self.rec.backend() == old(self).rec.backend(),
                self.rec.shared_store() == old(self).rec.shared_store(),
            decreases adapters.len() - i,
        {
            proof {
                let names = names_of(adapters@);
                assert(names.take(i + 1) =~= names.take(i as int).push(adapters@[i as int]@));
                assert(names.take(i + 1) =~= names.subrange(0, i + 1));
            }
            let devices = match self.devices(adapters[i].as_str()) {
                Ok(devices) => devices,
                Err(e) => {
                    return Err(SyncError::Local(e));
                },
            };
            let ghost base = snapshot@;
            let mut j: usize = 0;
            while j < devices.len()
                invariant
                    self.rec.base() == rb,
                    self.rec.done_ops() == rd,
                    rb == old(self).rec.history(),
                    rd == old(self).rec.done_ops().push(old(self).calls()),
                    j <= devices.len(),
                    i < adapters.len(),
                    snapshot@ == snapshot_insert(base, adapters@[i as int]@, devices@.take(j as int)),
                decreases devices.len() - j,
            {
                snapshot.insert(adapters[i].clone(), devices[j].clone());
                assert(devices@.take(j + 1).drop_last() =~= devices@.take(j as int));
                j = j + 1;
            }
            assert(devices@.take(devices.len() as int) =~= devices@);
            i = i + 1;
        }
        proof {
            assert(names_of(adapters@).take(adapters.len() as int) =~= names_of(adapters@));
        }
        Ok(snapshot)
    }

    /// Exports a local pairing or key change of `device_mac` on `adapter_mac` to the
    /// shared configuration: the local keys win for the fields they carry, the other
    /// fields and the other devices are kept, and an unchanged record is not written
    /// (`change_write`). A written configuration must read back equal. Local keys are
    /// never written.
    pub fn handle_device_change(&mut self, adapter_mac: &str, device_mac: &str) -> (r: Result<
        (),
        SyncError,
    >)
        ensures
            final(self).one_op(*old(self)),
            final(self).rec.backend() == old(self).rec.backend(),
            ({
                let t = final(self).calls();
                &&& t.len() > 0 && (t[0] matches SyncCall::Device(a, m, _) && a == adapter_mac@ && m == device_mac@)
                &&& t[0] matches SyncCall::Device(_, _, Err(e)) ==> (t.len() == 1 && (r matches Err(SyncError::Local(x))
                    && x@ == e))
                &&& t[0] matches SyncCall::Device(_, _, Ok(_)) ==> (t.len() > 1 && t[1] is Read)
                &&& t[0] matches SyncCall::Device(_, _, Ok(_)) ==> (t[1] matches SyncCall::Read(Err(e)) ==> (!(e is NotFound)
                    ==> (t.len() == 2 && r == Err::<(), SyncError>(SyncError::Efi(e)))))
                &&& (t[0] matches SyncCall::Device(_, _, Ok(_)) && !(t[1] matches SyncCall::Read(Err(e)) && !(e is NotFound)))
                    ==> shared_writes(t) == change_write(t, adapter_mac@)
                &&& local_writes(t).len() == 0
                &&& r is Ok ==> (shared_writes(t).len() == 0 || write_confirmed(t))
                &&& !(r matches Err(SyncError::Local(_))) || shared_writes(t).len() == 0
                &&& (t[0] matches SyncCall::Device(a, _, Ok(d)) && t[1] matches SyncCall::Read(Ok(c)) && config_device(
                    c@,
                    a,
                    d.mac_address,
                ) is Some) ==> (t.len() > 2 && t[2] is Prepare)
                &&& r is Err ==> (t[0] matches SyncCall::Device(_, _, Err(_)) || store_unreadable(t.drop_first())
                    || write_unconfirmed(t))
                &&& r is Ok <==> export_ok(t)
            }),
    {
        self.rec.begin();
        let fetched = self.device(adapter_mac, device_mac);
        let device = match fetched {
            Ok(device) => device,
            Err(e) => {
                return Err(SyncError::Local(e));
            },
        };
        let read = self.read_store();
        let ghost t1 = self.calls();
        proof {
            assert(t1.drop_last().drop_last() =~= Seq::<SyncCall>::empty());
            assert(t1[0] == t1.drop_last()[0]);
        }
        let config = match read {
            Ok(config) => config,
            Err(EfiError::NotFound) => BlueVeinConfig::new(),
            Err(e) => {
                return Err(SyncError::Efi(e));
            },
        };
        let exported = match config.get_device(adapter_mac, device.mac_address.as_str()) {
            Some(shared) => {
                let prepared = self.prepare(&device, shared);
                merge_devices(shared, &prepared)
            },
            None => device,
        };
        let ghost t2 = self.calls();
        assert(t2[0] == t1[0] && t2[1] == t1[1]);
        assert(shared_writes(t2).len() == 0 && local_writes(t2).len() == 0);
        assert(change_write(t2, adapter_mac@) == export_write(config@, adapter_mac@, exported@));
        match plan_export(&config, adapter_mac, &exported) {
            None => Ok(()),
            Some(updated) => self.write_shared(&updated),
        }
    }

    /// A local unpairing leaves the shared configuration alone: the device may still
    /// be paired on the other OS, and a new pairing here is exported anyway.
    pub fn handle_device_removal(&mut self, adapter_mac: &str, device_mac: &str) -> (r: Result<
        (),
        SyncError,
    >)
        ensures
            r is Ok,
            *final(self) == *old(self),
    {
        Ok(())
    }

    /// One poll of the monitor. Exports every local change since `previous` (LE-only
    /// pairings and rekeys included), each by `handle_device_change`. When every export
    /// succeeded, the new snapshot becomes the reference, and once
    /// `IMPORT_INTERVAL_SECS` have passed since the last import the shared configuration
    /// is imported and a fresh snapshot taken, so that imported writes are not mistaken
    /// for local pairings. A failed export keeps `previous`, so that the change is
    /// exported again, and defers the import, which could overwrite the unexported key.
    /// Only the fresh snapshot after an import fails the poll; other failures are
    /// reported in the outcome. What it did is read off the operations it performed
    /// (`ops_since`): a snapshot, the exports, and, when due, an import and a snapshot.
    pub fn poll(&mut self, previous: &Snapshot, secs_since_import: u64) -> (r: Result<PollOutcome, SyncError>)
        ensures
            ({
                let p = final(self).ops_since(*old(self));
                &&& p.len() > 0 && p[0].len() > 0 && p[0][0] is Adapters
                &&& read_failed(p[0]) ==> (p.len() == 1 && r is Ok && poll_snapshot_failed(r->Ok_0))
                &&& (r is Ok && !read_failed(p[0])) ==> poll_done(p, r->Ok_0, previous@, secs_since_import)
                &&& r is Err ==> poll_failed(p, previous@, secs_since_import)
            }),
    {
        let ghost start = *self;
        let current = match self.local_snapshot() {
            Ok(s) => s,
            Err(e) => {
                let failures = vec![PollFailure::Snapshot(e)];
                proof {
                    lemma_skip_push(start.rec.done_ops().push(start.calls()), self.calls(), start.rec.done_ops().len() + 1int);
                    assert(start.rec.done_ops().push(start.calls()).skip(start.rec.done_ops().len() + 1int) =~= Seq::<Seq<SyncCall>>::empty());
                }
                return Ok(PollOutcome { next: None, imported: false, failures, exported: Vec::new() });
            },
        };
        let ghost snap = self.calls();
        proof {
            lemma_skip_push(start.rec.done_ops().push(start.calls()), self.calls(), start.rec.done_ops().len() + 1int);
            assert(start.rec.done_ops().push(start.calls()).skip(start.rec.done_ops().len() + 1int) =~= Seq::<Seq<SyncCall>>::empty());
            assert(self.ops_since(start) =~= seq![snap]);
        }
        let changed = changed_devices(previous, &current);
        let ghost ch = spec_changed(previous@, current@);
        let mut failures: Vec<PollFailure> = Vec::new();
        let mut exported: Vec<(String, String)> = Vec::new();
        let ghost mut ex: Seq<Seq<SyncCall>> = Seq::empty();
        let mut i: usize = 0;
        while i < changed.len()
            invariant
                i <= changed.len(),
                current@ == snapshot_calls(snap),
                !read_failed(snap),
                snap.len() > 0 && snap[0] is Adapters,
                self.ops_since(start) == seq![snap] + ex,
                self.rec.done_ops().len() >= start.rec.done_ops().len() + 1,
                ex.len() == i,
                exported@.len() == i,
                forall|j: int| 0 <= j < i ==> (#[trigger] ex[j]).len() > 0 && ex[j][0] is Device && export_key(ex[j])
                    == pair_key(changed@[j]),
                forall|j: int| 0 <= j < i ==> #[trigger] exported@[j] == changed@[j],
                failures.len() == count_failed(ex),
                forall|j: int| 0 <= j < failures.len() ==> #[trigger] failures[j] is Export,
            decreases changed.len() - i,
        {
            let ghost before = *self;
            let done = self.handle_device_change(changed[i].0.as_str(), changed[i].1.as_str());
            proof {
                lemma_skip_push(before.rec.done_ops().push(before.calls()), self.calls(), start.rec.done_ops().len() + 1int);
                assert(ex.push(self.calls()).drop_last() =~= ex);
            }
            match done {
                Ok(()) => {},
                Err(e) => {
                    failures.push(PollFailure::Export(e));
                },
            }
            exported.push((changed[i].0.clone(), changed[i].1.clone()));
            proof {
                ex = ex.push(self.calls());
                assert(self.ops_since(start) =~= seq![snap] + ex);
            }
            i = i + 1;
        }
        let ghost n = ex.len() as int;
        proof {
            let p = self.ops_since(start);
            assert(p.subrange(1, n + 1) =~= ex);
            assert forall|k: SnapshotKey| #[trigger] ch.contains(k) implies exists|j: int| 0 <= j < ex.len() && export_key(ex[j]) == k by {
                let j = choose|j: int| 0 <= j < changed@.len() && pair_key(changed@[j]) == k;
                assert(export_key(ex[j]) == k);
            }
            assert forall|j: int| 0 <= j < ex.len() implies (#[trigger] ex[j]).len() > 0 && ex[j][0] is Device && ch.contains(export_key(ex[j])) by {
                assert(ch.contains(pair_key(changed@[j])));
            }
            assert forall|a: int, b: int| 0 <= a < b < ex.len() implies export_key(ex[a]) != export_key(ex[b]) by {
                assert(pair_key(changed@[a]) != pair_key(changed@[b]));
            }
            assert(exports_match(ex, ch));
        }
        match tick_action(failures.len() == 0, secs_since_import) {
            TickAction::Retry => Ok(PollOutcome { next: None, imported: false, failures, exported }),
            TickAction::Advance => {
                Ok(PollOutcome { next: Some(current), imported: false, failures, exported })
            },
            TickAction::AdvanceAndImport => {
                let ghost b1 = *self;
                let imported = self.check_efi_changes();
                proof {
                    lemma_skip_push(b1.rec.done_ops().push(b1.calls()), self.calls(), start.rec.done_ops().len() + 1int);
                }
                let ghost imp = self.calls();
                match imported {
                    Ok(()) => {},
                    Err(e) => {
                        failures.push(PollFailure::Import(e));
                    },
                }
                let ghost b2 = *self;
                let fresh = self.local_snapshot();
                proof {
                    lemma_skip_push(b2.rec.done_ops().push(b2.calls()), self.calls(), start.rec.done_ops().len() + 1int);
                    let p = self.ops_since(start);
                    assert(p =~= seq![snap] + ex + seq![imp, self.calls()]);
                    assert(p.subrange(1, n + 1) =~= ex);
                    assert(p[n + 1] == imp);
                }
                let fresh = fresh?;
                Ok(PollOutcome { next: Some(fresh), imported: true, failures, exported })
            },
        }
    }

    /// Imports changes that the other OS made to the shared configuration, for devices
    /// bonded locally only (`listed`) and unless the platform gives a reason not to
    /// (`update_reason`): it reads the devices of each listed adapter that has shared
    /// records and asks about the records of `import_gates`, in order. No bond is
    /// created, the shared store is only read, and after local writes the batch is
    /// completed once (`apply_pending`), as the last call.
    pub fn check_efi_changes(&mut self) -> (r: Result<(), SyncError>)
        ensures
            final(self).one_op(*old(self)),
            final(self).rec.shared_store() == old(self).rec.shared_store(),
            ({
                let t = final(self).calls();
                &&& t.len() > 0 && t[0] is Read
                &&& t[0] matches SyncCall::Read(Err(e)) ==> (t.len() == 1 && (e is NotFound ==> r is Ok) && (!(e
                    is NotFound) ==> r == Err::<(), SyncError>(SyncError::Efi(e))))
                &&& shared_writes(t).len() == 0
                &&& local_writes(t) == allowed_writes(t)
                &&& forall|i: int|
                    0 <= i < allowed_writes(t).len() ==> listed(
                        t,
                        (#[trigger] allowed_writes(t)[i]).0,
                        allowed_writes(t)[i].1.mac_address,
                    )
                &&& read_failed(t) ==> r is Err
                &&& set_failed(t) ==> r is Err
                &&& local_writes(t).len() > 0 ==> t.last() is Pending
                &&& no_pending(t.drop_last())
                &&& local_writes(t).len() == 0 ==> no_pending(t)
                &&& r is Err ==> (store_unreadable(t) || read_failed(t) || set_failed(t) || t.last() matches SyncCall::Pending(
                    false,
                ))
                &&& r is Ok <==> import_ok(t)
                &&& t.last() matches SyncCall::Pending(false) ==> r is Err
                &&& t[0] matches SyncCall::Read(Ok(c)) ==> (t.len() > 1 && t[1] is Adapters && (t[1] matches SyncCall::Adapters(
                    Ok(names),
                ) ==> (device_reads(t).is_prefix_of(shared_adapters(c, names)) && gates(t).is_prefix_of(
                    import_gates(c, t),
                ) && (r is Ok ==> (device_reads(t) == shared_adapters(c, names) && gates(t) == import_gates(c, t))))))
            }),
    {
        self.rec.begin();
        let (r, wrote) = self.import_changes();
        if wrote {
            let ghost t0 = self.calls();
            let done = self.pending();
            proof {
                assert(self.calls().drop_last() == t0);
                assert forall|i: int| 0 <= i < allowed_writes(self.calls()).len() implies listed(
                    self.calls(),
                    (#[trigger] allowed_writes(self.calls())[i]).0,
                    allowed_writes(self.calls())[i].1.mac_address,
                ) by {
                    assert(allowed_writes(self.calls())[i] == allowed_writes(t0)[i]);
                }
            }
            match r {
                Ok(()) => match done {
                    Ok(()) => Ok(()),
                    Err(e) => Err(SyncError::Local(e)),
                },
                Err(e) => Err(e),
            }
        } else {
            r
        }
    }

    fn import_changes(&mut self) -> (r: (Result<(), SyncError>, bool))
        requires
            old(self).calls().len() == 0,
        ensures
            final(self).rec.base() == old(self).rec.base(),
            final(self).rec.done_ops() == old(self).rec.done_ops(),
            final(self).rec.shared_store() == old(self).rec.shared_store(),
            ({
                let t = final(self).calls();
                &&& t.len() > 0 && t[0] is Read
                &&& t[0] matches SyncCall::Read(Err(e)) ==> (t.len() == 1 && (e is NotFound ==> r.0 is Ok) && (!(e
                    is NotFound) ==> r.0 == Err::<(), SyncError>(SyncError::Efi(e))))
                &&& shared_writes(t).len() == 0
                &&& local_writes(t) == allowed_writes(t)
                &&& forall|i: int|
                    0 <= i < allowed_writes(t).len() ==> listed(
                        t,
                        (#[trigger] allowed_writes(t)[i]).0,
                        allowed_writes(t)[i].1.mac_address,
                    )
                &&& read_failed(t) ==> r.0 is Err
                &&& set_failed(t) ==> r.0 is Err
                &&& no_pending(t)
                &&& r.1 == (local_writes(t).len() > 0)
                &&& t[0] matches SyncCall::Read(Err(_)) ==> !r.1
                &&& r.0 is Err ==> (store_unreadable(t) || read_failed(t) || set_failed(t))
                &&& t[0] matches SyncCall::Read(Ok(c)) ==> (t.len() > 1 && t[1] is Adapters && (t[1] matches SyncCall::Adapters(
                    Ok(names),
                ) ==> (device_reads(t).is_prefix_of(shared_adapters(c, names)) && gates(t).is_prefix_of(
                    import_gates(c, t),
                ) && (r.0 is Ok ==> (device_reads(t) == shared_adapters(c, names) && gates(t) == import_gates(c, t))))))
            }),
    {
        let ghost rb = self.rec.base();
        let ghost rd = self.rec.done_ops();
        let read = self.read_store();
        let config = match read {
            Ok(config) => config,
            Err(EfiError::NotFound) => {
                return (Ok(()), false);
            },
            Err(e) => {
                return (Err(SyncError::Efi(e)), false);
            },
        };
        let adapters = match self.adapters() {
            Ok(adapters) => adapters,
            Err(e) => {
                return (Err(SyncError::Local(e)), false);
            },
        };
        let ghost t1 = self.calls();
        let ghost names = names_of(adapters@);
        proof {
            assert(t1.drop_last().drop_last() =~= Seq::<SyncCall>::empty());
        }
        let mut wrote = false;
        let mut i: usize = 0;
        while i < adapters.len()
            invariant
                self.rec.base() == rb,
                self.rec.done_ops() == rd,
                rb == old(self).rec.base(),
                rd == old(self).rec.done_ops(),
                i <= adapters.len(),
                self.calls().len() >= 2,
                self.calls()[0] == t1[0],
                self.calls()[1] == t1[1],
                t1[0] == SyncCall::Read(Ok(config)),
                t1[1] == SyncCall::Adapters(Ok(names)),
                names == names_of(adapters@),
                names.len() == adapters.len(),
                device_reads(self.calls()) == shared_adapters(config, names.take(i as int)),
                gates(self.calls()) == import_gates(config, self.calls()),
                shared_writes(self.calls()).len() == 0,
                local_writes(self.calls()) == allowed_writes(self.calls()),
                forall|k: int|
                    0 <= k < allowed_writes(self.calls()).len() ==> listed(
                        self.calls(),
                        (#[trigger] allowed_writes(self.calls())[k]).0,
                        allowed_writes(self.calls())[k].1.mac_address,
                    ),
                !read_failed(self.calls()),
                !set_failed(self.calls()),
                no_pending(self.calls()),
                wrote == (local_writes(self.calls()).len() > 0),
                self.rec.shared_store() == old(self).rec.shared_store(),
            decreases adapters.len() - i,
        {
            let adapter = adapters[i].as_str();
            proof {
                assert(names[i as int] == adapter@);
                assert(names.take(i + 1).drop_last() =~= names.take(i as int));
                lemma_shared_adapters_prefix(config, names, i + 1);
            }
            if let Some(efi_devices) = config.get_adapter_devices(adapter) {
                let system_devices = match self.devices(adapter) {
                    Ok(devices) => devices,
                    Err(e) => {
                        return (Err(SyncError::Local(e)), wrote);
                    },
                };
                let ghost t2 = self.calls();
                let ghost g0 = gates(t2);
                let ghost cv = import_plan(efi_devices@, devices_view(system_devices@));
                proof {
                    assert(efi_devices@ == adapter_records(config, adapter@));
                    assert forall|m: Seq<char>| devices_view(system_devices@).contains_key(m) implies listed(t2, adapter@, m) by {
                        assert(t2.last() == SyncCall::Devices(adapter@, Ok(system_devices@)));
                    }
                    assert forall|k: int| 0 <= k < allowed_writes(t2).len() implies listed(
                        t2,
                        (#[trigger] allowed_writes(t2)[k]).0,
                        allowed_writes(t2)[k].1.mac_address,
                    ) by {
                        assert(allowed_writes(t2)[k] == allowed_writes(t2.drop_last())[k]);
                    }
                    assert(import_gates(config, t2) == g0 + tag_desired(adapter@, cv));
                    assert(cv.take(0) =~= Seq::<(DeviceView, DeviceView)>::empty());
                    assert(g0 =~= g0 + tag_desired(adapter@, cv.take(0)));
                }
                let candidates = import_candidates(efi_devices, &system_devices);
                proof {
                    lemma_import_plan_local(efi_devices@, system_devices@);
                }
                let mut j: usize = 0;
                while j < candidates.len()
                    invariant
                        self.rec.base() == rb,
                        self.rec.done_ops() == rd,
                        rb == old(self).rec.base(),
                        rd == old(self).rec.done_ops(),
                        j <= candidates.len(),
                        candidate_views(candidates@) == import_plan(efi_devices@, devices_view(system_devices@)),
                        cv == candidate_views(candidates@),
                        forall|m: Seq<char>| devices_view(system_devices@).contains_key(m) ==> #[trigger] listed(
                            self.calls(),
                            adapter@,
                            m,
                        ),
                        forall|k: int| 0 <= k < import_plan(efi_devices@, devices_view(system_devices@)).len()
                            ==> devices_view(system_devices@).contains_key(
                            (#[trigger] import_plan(efi_devices@, devices_view(system_devices@))[k]).1.mac_address,
                        ),
                        self.calls().len() >= 2,
                        self.calls()[0] == t1[0],
                        self.calls()[1] == t1[1],
                        t1[0] == SyncCall::Read(Ok(config)),
                        t1[1] == SyncCall::Adapters(Ok(names)),
                        device_reads(self.calls()) == shared_adapters(config, names.take(i + 1)),
                        shared_adapters(config, names.take(i + 1)).is_prefix_of(shared_adapters(config, names)),
                        import_gates(config, self.calls()) == g0 + tag_desired(adapter@, cv),
                        gates(self.calls()) == g0 + tag_desired(adapter@, cv.take(j as int)),
                        shared_writes(self.calls()).len() == 0,
                        local_writes(self.calls()) == allowed_writes(self.calls()),
                        forall|k: int|
                            0 <= k < allowed_writes(self.calls()).len() ==> listed(
                                self.calls(),
                                (#[trigger] allowed_writes(self.calls())[k]).0,
                                allowed_writes(self.calls())[k].1.mac_address,
                            ),
                        !read_failed(self.calls()),
                        !set_failed(self.calls()),
                        no_pending(self.calls()),
                        wrote == (local_writes(self.calls()).len() > 0),
                        self.rec.shared_store() == old(self).rec.shared_store(),
                    decreases candidates.len() - j,
                {
                    let c = &candidates[j];
                    let ghost t3 = self.calls();
                    proof {
                        assert(candidate_views(candidates@)[j as int] == (c.current@, c.desired@));
                        assert(devices_view(system_devices@).contains_key(c.desired@.mac_address));
                        assert(listed(t3, adapter@, c.desired@.mac_address));
                    }
                    let allowed = self.update_gate(adapter, &c.current, &c.desired);
                    proof {
                        let t4 = self.calls();
                        assert(t4.drop_last() == t3);
                        assert(tag_desired(adapter@, cv.take(j + 1)) =~= tag_desired(adapter@, cv.take(j as int)).push(
                            (adapter@, c.desired@),
                        ));
                        assert(gates(t4) =~= g0 + tag_desired(adapter@, cv.take(j + 1)));
                        assert forall|m: Seq<char>| devices_view(system_devices@).contains_key(m) implies #[trigger] listed(
                            t4,
                            adapter@,
                            m,
                        ) by {
                            assert(listed(t3, adapter@, m));
                        }
                        assert forall|k: int| 0 <= k < allowed_writes(t4).len() implies listed(
                            t4,
                            (#[trigger] allowed_writes(t4)[k]).0,
                            allowed_writes(t4)[k].1.mac_address,
                        ) by {
                            if k < allowed_writes(t3).len() {
                                assert(allowed_writes(t4)[k] == allowed_writes(t3)[k]);
                                assert(listed(t3, allowed_writes(t3)[k].0, allowed_writes(t3)[k].1.mac_address));
                            }
                        }
                    }
                    if allowed {
                        let ghost t5 = self.calls();
                        let written = self.set(adapter, &c.desired);
                        wrote = true;
                        proof {
                            let t6 = self.calls();
                            assert(t6.drop_last() == t5);
                            assert forall|m: Seq<char>| devices_view(system_devices@).contains_key(m) implies #[trigger] listed(
                                t6,
                                adapter@,
                                m,
                            ) by {
                                assert(listed(t5, adapter@, m));
                            }
                            assert forall|k: int| 0 <= k < allowed_writes(t6).len() implies listed(
                                t6,
                                (#[trigger] allowed_writes(t6)[k]).0,
                                allowed_writes(t6)[k].1.mac_address,
                            ) by {
                                assert(allowed_writes(t6)[k] == allowed_writes(t5)[k]);
                                assert(listed(t5, allowed_writes(t5)[k].0, allowed_writes(t5)[k].1.mac_address));
                            }
                        }
                        match written {
                            Ok(()) => {},
                            Err(e) => {
                                proof {
                                    let x = g0 + tag_desired(adapter@, cv.take(j + 1));
                                    let whole = g0 + tag_desired(adapter@, cv);
                                    assert(gates(self.calls()) == x);
                                    assert(import_gates(config, self.calls()) == whole);
                                    assert(x.len() <= whole.len());
                                    assert(x =~= whole.subrange(0, x.len() as int));
                                    assert(self.calls()[1] == SyncCall::Adapters(Ok(names)));
                                    assert(device_reads(self.calls()).is_prefix_of(shared_adapters(config, names)));
                                }
                                return (Err(SyncError::Local(e)), true);
                            },
                        }
                    }
                    j = j + 1;
                }
                proof {
                    assert(cv.take(candidates.len() as int) =~= cv);
                }
            }
            i = i + 1;
        }
        proof {
            assert(names.take(adapters.len() as int) =~= names);
        }
        (Ok(()), wrote)
    }
}

} // verus!
