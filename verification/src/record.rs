//! A platform backend and a shared store, with the record of every call made on them.
use vstd::prelude::*;
use crate::bluetooth::{BluetoothDevice, BluetoothManager};
use crate::config::BlueVeinConfig;
use crate::efi::{ConfigStore, EfiError};
use crate::sync::{names_result, record_result, records_result, SyncCall};

verus! {

/// A backend and a store, with every call made on them, in order, and what it gave.
/// The record grows only by the calls themselves: nothing outside this module writes
/// it, so what it holds was done. An operation starts with `begin`; its own calls are
/// `op_calls`, those before it `base`, and the calls of each earlier operation, in
/// order, `done_ops`.
pub struct Recorder<B, S> {
    bt_manager: B,
    store: S,
    before: Ghost<Seq<SyncCall>>,
    current: Ghost<Seq<SyncCall>>,
    done: Ghost<Seq<Seq<SyncCall>>>,
}

impl<B: BluetoothManager, S: ConfigStore> Recorder<B, S> {
    /// The platform backend.
    pub closed spec fn backend(&self) -> B {
        self.bt_manager
    }

    /// The shared store.
    pub closed spec fn shared_store(&self) -> S {
        self.store
    }

    /// The calls before the current operation.
    pub closed spec fn base(&self) -> Seq<SyncCall> {
        self.before@
    }

    /// The calls of the current operation, in order.
    pub closed spec fn op_calls(&self) -> Seq<SyncCall> {
        self.current@
    }

    /// The calls of each operation before the current one, in order.
    pub closed spec fn done_ops(&self) -> Seq<Seq<SyncCall>> {
        self.done@
    }

    /// Every call made, in order.
    pub open spec fn history(&self) -> Seq<SyncCall> {
        self.base() + self.op_calls()
    }

    /// `self` after one more call `e`: the same base, `e` added to the operation.
    pub open spec fn records(self, prev: Self, e: SyncCall) -> bool {
        &&& self.base() == prev.base()
        &&& self.done_ops() == prev.done_ops()
        &&& self.op_calls() == prev.op_calls().push(e)
    }

    /// A record of `bt_manager` and `store` with no calls.
    pub fn new(bt_manager: B, store: S) -> (r: Self)
        ensures
            r.backend() == bt_manager,
            r.shared_store() == store,
            r.base() == Seq::<SyncCall>::empty(),
            r.op_calls() == Seq::<SyncCall>::empty(),
            r.done_ops() == Seq::<Seq<SyncCall>>::empty(),
    {
        Recorder {
            bt_manager,
            store,
            before: Ghost(Seq::empty()),
            current: Ghost(Seq::empty()),
            done: Ghost(Seq::empty()),
        }
    }

    /// Starts an operation: every call so far becomes the base.
    pub fn begin(&mut self)
        ensures
            final(self).base() == old(self).history(),
            final(self).op_calls() == Seq::<SyncCall>::empty(),
            final(self).done_ops() == old(self).done_ops().push(old(self).op_calls()),
            final(self).backend() == old(self).backend(),
            final(self).shared_store() == old(self).shared_store(),
    {
        self.done = Ghost(self.done@.push(self.current@));
        self.before = Ghost(self.before@ + self.current@);
        self.current = Ghost(Seq::empty());
    }

    /// `ConfigStore::read`.
    pub fn read(&mut self) -> (r: Result<BlueVeinConfig, EfiError>)
        ensures
            final(self).records(*old(self), SyncCall::Read(r)),
            final(self).backend() == old(self).backend(),
            final(self).shared_store() == old(self).shared_store(),
    {
        let r = self.store.read();
        self.current = Ghost(self.current@.push(SyncCall::Read(r)));
        r
    }

    /// `ConfigStore::write`.
    pub fn write(&mut self, config: &BlueVeinConfig) -> (r: Result<(), EfiError>)
        ensures
            final(self).records(*old(self), SyncCall::Write(config@, r is Ok)),
            final(self).backend() == old(self).backend(),
    {
        let r = self.store.write(config);
        self.current = Ghost(self.current@.push(SyncCall::Write(config@, r is Ok)));
        r
    }

    /// `BluetoothManager::migrate_shared_config`.
    pub fn migrate(&mut self, config: &mut BlueVeinConfig) -> (r: Result<(), String>)
        ensures
            final(self).records(*old(self), SyncCall::Migrate(*final(config), r is Ok)),
            final(self).backend() == old(self).backend(),
            final(self).shared_store() == old(self).shared_store(),
    {
        let r = self.bt_manager.migrate_shared_config(config);
        self.current = Ghost(self.current@.push(SyncCall::Migrate(*config, r is Ok)));
        r
    }

    /// `BluetoothManager::get_adapters`.
    pub fn adapters(&mut self) -> (r: Result<Vec<String>, String>)
        ensures
            final(self).records(*old(self), SyncCall::Adapters(names_result(r))),
            final(self).backend() == old(self).backend(),
            final(self).shared_store() == old(self).shared_store(),
    {
        let r = self.bt_manager.get_adapters();
        self.current = Ghost(self.current@.push(SyncCall::Adapters(names_result(r))));
        r
    }

    /// `BluetoothManager::get_devices` of `adapter`.
    pub fn devices(&mut self, adapter: &str) -> (r: Result<Vec<BluetoothDevice>, String>)
        ensures
            final(self).records(*old(self), SyncCall::Devices(adapter@, records_result(r))),
            final(self).backend() == old(self).backend(),
            final(self).shared_store() == old(self).shared_store(),
    {
        let r = self.bt_manager.get_devices(adapter);
        self.current = Ghost(self.current@.push(SyncCall::Devices(adapter@, records_result(r))));
        r
    }

    /// `BluetoothManager::get_device` of `adapter` and `mac`.
    pub fn device(&mut self, adapter: &str, mac: &str) -> (r: Result<BluetoothDevice, String>)
        ensures
            final(self).records(*old(self), SyncCall::Device(adapter@, mac@, record_result(r))),
            final(self).backend() == old(self).backend(),
            final(self).shared_store() == old(self).shared_store(),
    {
        let r = self.bt_manager.get_device(adapter, mac);
        self.current = Ghost(self.current@.push(SyncCall::Device(adapter@, mac@, record_result(r))));
        r
    }

    /// `BluetoothManager::prepare_local_export` of `local` next to `shared`.
    pub fn prepare(&mut self, local: &BluetoothDevice, shared: &BluetoothDevice) -> (r: BluetoothDevice)
        ensures
            final(self).records(*old(self), SyncCall::Prepare(r@)),
            final(self).backend() == old(self).backend(),
            final(self).shared_store() == old(self).shared_store(),
    {
        let r = self.bt_manager.prepare_local_export(local, shared);
        self.current = Ghost(self.current@.push(SyncCall::Prepare(r@)));
        r
    }

    /// Whether the platform lets the local record `current` of `adapter` become
    /// `desired`: `needs_update`, and no `update_reason`.
    pub fn update_gate(&mut self, adapter: &str, current: &BluetoothDevice, desired: &BluetoothDevice) -> (r: bool)
        ensures
            final(self).records(*old(self), SyncCall::Gate(adapter@, desired@, r)),
            final(self).backend() == old(self).backend(),
            final(self).shared_store() == old(self).shared_store(),
    {
        let r = self.bt_manager.needs_update(current, desired) && self.bt_manager.update_reason(
            current,
            desired,
        ).is_none();
        self.current = Ghost(self.current@.push(SyncCall::Gate(adapter@, desired@, r)));
        r
    }

    /// Whether the platform can create the missing bond `device` on `adapter`: no
    /// `import_missing_reason`.
    pub fn missing_gate(&mut self, adapter: &str, device: &BluetoothDevice) -> (r: bool)
        ensures
            final(self).records(*old(self), SyncCall::Gate(adapter@, device@, r)),
            final(self).backend() == old(self).backend(),
            final(self).shared_store() == old(self).shared_store(),
    {
        let r = self.bt_manager.import_missing_reason(device).is_none();
        self.current = Ghost(self.current@.push(SyncCall::Gate(adapter@, device@, r)));
        r
    }

    /// `BluetoothManager::set_device` of `device` on `adapter`.
    pub fn set(&mut self, adapter: &str, device: &BluetoothDevice) -> (r: Result<(), String>)
        ensures
            final(self).records(*old(self), SyncCall::SetDevice(adapter@, device@, r is Ok)),
            final(self).shared_store() == old(self).shared_store(),
    {
        let r = self.bt_manager.set_device(adapter, device);
        self.current = Ghost(self.current@.push(SyncCall::SetDevice(adapter@, device@, r is Ok)));
        r
    }

    /// `BluetoothManager::apply_pending`.
    pub fn pending(&mut self) -> (r: Result<(), String>)
        ensures
            final(self).records(*old(self), SyncCall::Pending(r is Ok)),
            final(self).shared_store() == old(self).shared_store(),
    {
        let r = self.bt_manager.apply_pending();
        self.current = Ghost(self.current@.push(SyncCall::Pending(r is Ok)));
        r
    }
}

} // verus!
