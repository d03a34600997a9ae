//! Bringing shared records written by earlier versions up to date, using the local
//! bonds as the evidence.
use vstd::prelude::*;
use crate::bluetooth::{BluetoothDevice, DeviceView, LeKeys, LeKeysView};
use crate::config::{adapter_devices, config_device, BlueVeinConfig, ConfigMap};
use crate::text::{eq_ignore_case, eq_ignore_case_exec, str_eq, string_from};

verus! {

/// An untagged shared IRK that equals the local canonical IRK (up to case) is in the
/// local byte order, `windows`; any other shared IRK is left untagged.
pub open spec fn spec_tag_irk_encoding(local: LeKeysView, shared: LeKeysView) -> LeKeysView {
    if shared.irk_encoding is None && shared.irk is Some && local.irk is Some && eq_ignore_case(
        local.irk.unwrap(),
        shared.irk.unwrap(),
    ) {
        LeKeysView { irk_encoding: Some("windows"@), ..shared }
    } else {
        shared
    }
}

/// The shared LE record after migration against the local one; with
/// `static_to_random`, the legacy address type `static` becomes `random`.
pub open spec fn spec_migrated_le(local: LeKeysView, shared: LeKeysView, static_to_random: bool) -> LeKeysView {
    let tagged = spec_tag_irk_encoding(local, shared);
    if static_to_random && tagged.address_type == Some("static"@) {
        LeKeysView { address_type: Some("random"@), ..tagged }
    } else {
        tagged
    }
}

/// The shared record after migration against the local record of the same device:
/// only the LE part changes, and only when both records have one.
pub open spec fn spec_migrated_record(local: DeviceView, shared: DeviceView, static_to_random: bool) -> DeviceView {
    match (local.le, shared.le) {
        (Some(a), Some(b)) => DeviceView { le: Some(spec_migrated_le(a, b, static_to_random)), ..shared },
        _ => shared,
    }
}

/// The configuration after migrating, in order, the shared record of each local bond
/// of `adapter` that the configuration holds.
pub open spec fn spec_migrate_locals(
    c: ConfigMap,
    adapter: Seq<char>,
    locals: Seq<DeviceView>,
    static_to_random: bool,
) -> ConfigMap
    decreases locals.len(),
{
    if locals.len() == 0 {
        c
    } else {
        let before = spec_migrate_locals(c, adapter, locals.drop_last(), static_to_random);
        let local = locals.last();
        match config_device(before, adapter, local.mac_address) {
            Some(shared) => before.insert(
                adapter,
                adapter_devices(before, adapter).insert(
                    local.mac_address,
                    spec_migrated_record(local, shared, static_to_random),
                ),
            ),
            None => before,
        }
    }
}

/// Whether migrating `r` against `local` changes nothing.
pub open spec fn settled(local: DeviceView, r: DeviceView, static_to_random: bool) -> bool {
    spec_migrated_record(local, r, static_to_random) == r
}

/// Whether every record of `adapter` that `c` holds for a bond of `locals` is settled
/// against it.
pub open spec fn all_settled(c: ConfigMap, adapter: Seq<char>, locals: Seq<DeviceView>, static_to_random: bool) -> bool {
    forall|j: int|
        0 <= j < locals.len() ==> (#[trigger] config_device(c, adapter, locals[j].mac_address) matches Some(
            r,
        ) ==> settled(locals[j], r, static_to_random))
}

/// A migrated record is settled against the bond it was migrated with, and migrating
/// it against another bond keeps it settled against every bond it was settled with.
proof fn lemma_migrated_settles(l1: DeviceView, l2: DeviceView, r: DeviceView, static_to_random: bool)
    ensures
        settled(l2, spec_migrated_record(l2, r, static_to_random), static_to_random),
        settled(l1, r, static_to_random) ==> settled(
            l1,
            spec_migrated_record(l2, r, static_to_random),
            static_to_random,
        ),
{
}

/// Migrating a configuration whose records are all settled changes nothing.
proof fn lemma_settled_fixed(c: ConfigMap, adapter: Seq<char>, locals: Seq<DeviceView>, static_to_random: bool)
    requires
        all_settled(c, adapter, locals, static_to_random),
    ensures
        spec_migrate_locals(c, adapter, locals, static_to_random) == c,
    decreases locals.len(),
{
    if locals.len() > 0 {
        let l0 = locals.drop_last();
        assert forall|j: int| 0 <= j < l0.len() implies (#[trigger] config_device(c, adapter, l0[j].mac_address)
            matches Some(r) ==> settled(l0[j], r, static_to_random)) by {
            assert(l0[j] == locals[j]);
        }
        lemma_settled_fixed(c, adapter, l0, static_to_random);
        let local = locals.last();
        assert(local == locals[locals.len() - 1]);
        if let Some(shared) = config_device(c, adapter, local.mac_address) {
            assert(adapter_devices(c, adapter).insert(local.mac_address, shared) =~= c[adapter]);
            assert(c.insert(adapter, c[adapter]) =~= c);
        }
    }
}

/// After a migration, every record of a local bond is settled against it.
proof fn lemma_migrate_settles(c: ConfigMap, adapter: Seq<char>, locals: Seq<DeviceView>, static_to_random: bool)
    ensures
        all_settled(spec_migrate_locals(c, adapter, locals, static_to_random), adapter, locals, static_to_random),
    decreases locals.len(),
{
    if locals.len() > 0 {
        let l0 = locals.drop_last();
        lemma_migrate_settles(c, adapter, l0, static_to_random);
        let before = spec_migrate_locals(c, adapter, l0, static_to_random);
        let after = spec_migrate_locals(c, adapter, locals, static_to_random);
        let local = locals.last();
        assert forall|j: int| 0 <= j < locals.len() implies (#[trigger] config_device(
            after,
            adapter,
            locals[j].mac_address,
        ) matches Some(r) ==> settled(locals[j], r, static_to_random)) by {
            let m = locals[j].mac_address;
            if let Some(shared) = config_device(before, adapter, local.mac_address) {
                lemma_migrated_settles(locals[j], local, shared, static_to_random);
                if m != local.mac_address {
                    assert(config_device(after, adapter, m) == config_device(before, adapter, m));
                    assert(l0[j] == locals[j]);
                } else if j < locals.len() - 1 {
                    assert(l0[j] == locals[j]);
                }
            } else if j < locals.len() - 1 {
                assert(l0[j] == locals[j]);
            }
        }
    }
}

/// Migrating a configuration twice against the same local bonds is the same as once.
pub proof fn lemma_migrate_locals_idempotent(
    c: ConfigMap,
    adapter: Seq<char>,
    locals: Seq<DeviceView>,
    static_to_random: bool,
)
    ensures
        ({
            let once = spec_migrate_locals(c, adapter, locals, static_to_random);
            spec_migrate_locals(once, adapter, locals, static_to_random) == once
        }),
{
    lemma_migrate_settles(c, adapter, locals, static_to_random);
    lemma_settled_fixed(spec_migrate_locals(c, adapter, locals, static_to_random), adapter, locals, static_to_random);
}

/// The views of a list of records.
pub open spec fn device_views(v: Seq<BluetoothDevice>) -> Seq<DeviceView> {
    v.map_values(|d: BluetoothDevice| d@)
}

fn migrated_le(local: &LeKeys, shared: &mut LeKeys, static_to_random: bool)
    ensures
        final(shared)@ == spec_migrated_le(local@, old(shared)@, static_to_random),
{
    let matching = match (&local.irk, &shared.irk) {
        (Some(a), Some(b)) => eq_ignore_case_exec(a.as_str(), b.as_str()),
        _ => false,
    };
    if shared.irk_encoding.is_none() && matching {
        shared.irk_encoding = Some(string_from("windows"));
    }
    if static_to_random {
        let legacy = match &shared.address_type {
            Some(t) => str_eq(t.as_str(), "static"),
            None => false,
        };
        if legacy {
            shared.address_type = Some(string_from("random"));
        }
    }
}

/// Migrates, in order, the shared record of each bond in `locals` (the local bonds
/// of `adapter`) that the configuration holds (`spec_migrate_locals`).
pub fn migrate_local_records(
    config: &mut BlueVeinConfig,
    adapter: &str,
    locals: &Vec<BluetoothDevice>,
    static_to_random: bool,
)
    ensures
        final(config)@ == spec_migrate_locals(old(config)@, adapter@, device_views(locals@), static_to_random),
{
    let mut i: usize = 0;
    while i < locals.len()
        invariant
            i <= locals.len(),
            config@ == spec_migrate_locals(
                old(config)@,
                adapter@,
                device_views(locals@.take(i as int)),
                static_to_random,
            ),
        decreases locals.len() - i,
    {
        let local = &locals[i];
        proof {
            assert(device_views(locals@.take(i + 1)).drop_last() =~= device_views(locals@.take(i as int)));
            assert(device_views(locals@.take(i + 1)).last() == local@);
        }
        let found = match config.get_device(adapter, local.mac_address.as_str()) {
            Some(shared) => Some(shared.clone()),
            None => None,
        };
        match found {
            Some(mut record) => {
                if local.le.is_some() && record.le.is_some() {
                    let mut le = record.le.take().unwrap();
                    migrated_le(local.le.as_ref().unwrap(), &mut le, static_to_random);
                    record.le = Some(le);
                }
                config.update_device(string_from(adapter), record);
            },
            None => {},
        }
        i = i + 1;
    }
    assert(locals@.take(locals.len() as int) =~= locals@);
}

} // verus!
