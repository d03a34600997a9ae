//! Detection of local bond changes between two snapshots.
use vstd::prelude::*;
use crate::bluetooth::{BluetoothDevice, DeviceView};
use crate::config::{last_index, lemma_last_index_bounds, lemma_last_index_push};
use crate::text::str_eq;

verus! {

/// One local bond and the adapter that holds it.
#[derive(Debug, PartialEq, Eq)]
pub struct SnapshotEntry {
    pub adapter: String,
    pub device: BluetoothDevice,
}

/// The complete local records at one moment, keyed by (adapter, device address); a
/// later entry for the same key supersedes an earlier one.
#[derive(Debug, PartialEq, Eq)]
pub struct Snapshot {
    pub entries: Vec<SnapshotEntry>,
}

pub type SnapshotKey = (Seq<char>, Seq<char>);

/// The key named by an (adapter, device) pair.
pub open spec fn pair_key(p: (String, String)) -> SnapshotKey {
    (p.0@, p.1@)
}

pub open spec fn entry_key() -> spec_fn(SnapshotEntry) -> SnapshotKey {
    |e: SnapshotEntry| (e.adapter@, e.device.mac_address@)
}

pub open spec fn snapshot_view(s: Seq<SnapshotEntry>) -> Map<SnapshotKey, DeviceView> {
    Map::new(
        |k: SnapshotKey| last_index(s, entry_key(), k) >= 0,
        |k: SnapshotKey| s[last_index(s, entry_key(), k)].device@,
    )
}

impl View for Snapshot {
    type V = Map<SnapshotKey, DeviceView>;

    open spec fn view(&self) -> Map<SnapshotKey, DeviceView> {
        snapshot_view(self.entries@)
    }
}

/// Keys whose record is new or different in `new`.
pub open spec fn spec_changed(old: Map<SnapshotKey, DeviceView>, new: Map<SnapshotKey, DeviceView>) -> Set<
    SnapshotKey,
> {
    Set::new(|k: SnapshotKey| new.contains_key(k) && !(old.contains_key(k) && old[k] == new[k]))
}

fn find_entry(entries: &Vec<SnapshotEntry>, adapter: &str, mac: &str) -> (r: Option<usize>)
    ensures
        match r {
            Some(i) => i as int == last_index(entries@, entry_key(), (adapter@, mac@)) && i
                < entries.len(),
            None => last_index(entries@, entry_key(), (adapter@, mac@)) == -1,
        },
{
    let ghost k = (adapter@, mac@);
    let mut i: usize = entries.len();
    while i > 0
        invariant
            i <= entries.len(),
            k == (adapter@, mac@),
            forall|j: int| i <= j < entries.len() ==> entry_key()(entries@[j]) != k,
        decreases i,
    {
        if str_eq(entries[i - 1].adapter.as_str(), adapter) && str_eq(
            entries[i - 1].device.mac_address.as_str(),
            mac,
        ) {
            proof {
                lemma_last_index_bounds(entries@, entry_key(), k);
                let e = entries@[i - 1];
                assert(e.adapter@ == adapter@);
                assert(e.device.mac_address@ == mac@);
                assert(entry_key()(e) == (e.adapter@, e.device.mac_address@));
                assert(entry_key()(entries@[i - 1]) == k);
            }
            return Some(i - 1);
        }
        i = i - 1;
    }
    proof {
        lemma_last_index_bounds(entries@, entry_key(), k);
        let li = last_index(entries@, entry_key(), k);
        if li >= 0 {
            assert(entry_key()(entries@[li]) == k);
        }
    }
    None
}

impl Snapshot {
    /// An empty snapshot.
    pub fn new() -> (r: Self)
        ensures
            r@ == Map::<SnapshotKey, DeviceView>::empty(),
    {
        let r = Snapshot { entries: Vec::new() };
        assert(r@ =~= Map::<SnapshotKey, DeviceView>::empty());
        r
    }

    /// Records `device` as held by `adapter`.
    pub fn insert(&mut self, adapter: String, device: BluetoothDevice)
        ensures
            final(self)@ == old(self)@.insert((adapter@, device.mac_address@), device@),
    {
        let e = SnapshotEntry { adapter, device };
        let ghost s = self.entries@;
        self.entries.push(e);
        proof {
            assert(self.entries@ == s.push(e));
            assert forall|q: SnapshotKey| true implies last_index(s.push(e), entry_key(), q) == if entry_key()(e) == q {
                s.len() as int
            } else {
                last_index(s, entry_key(), q)
            } by {
                lemma_last_index_push(s, entry_key(), e, q);
            }
            assert forall|q: SnapshotKey| last_index(s, entry_key(), q) >= 0 implies #[trigger] s.push(e)[last_index(s, entry_key(), q)] == s[last_index(s, entry_key(), q)] by {
                lemma_last_index_bounds(s, entry_key(), q);
            }
            assert(self@ =~= old(self)@.insert((e.adapter@, e.device.mac_address@), e.device@));
        }
    }

    /// The record of `mac` on `adapter`, if present.
    pub fn get(&self, adapter: &str, mac: &str) -> (r: Option<&BluetoothDevice>)
        ensures
            match r {
                Some(d) => self@.contains_key((adapter@, mac@)) && self@[(adapter@, mac@)] == d@,
                None => !self@.contains_key((adapter@, mac@)),
            },
    {
        match find_entry(&self.entries, adapter, mac) {
            Some(i) => Some(&self.entries[i].device),
            None => None,
        }
    }
}

/// The (adapter, device) keys whose local record is new or changed between two
/// snapshots, each once: LE-only pairings and LE rekeys count as changes.
pub fn changed_devices(old: &Snapshot, new: &Snapshot) -> (r: Vec<(String, String)>)
    ensures
        forall|i: int|
            0 <= i < r@.len() ==> spec_changed(old@, new@).contains(
                #[trigger] pair_key(r@[i]),
            ),
        forall|k: SnapshotKey|
            #[trigger] spec_changed(old@, new@).contains(k) ==> exists|i: int|
                0 <= i < r@.len() && pair_key(r@[i]) == k,
        forall|i: int, j: int|
            0 <= i < j < r@.len() ==> pair_key(r@[i]) != pair_key(r@[j]),
{
    let mut r: Vec<(String, String)> = Vec::new();
    let mut i: usize = 0;
    while i < new.entries.len()
        invariant
            i <= new.entries.len(),
            forall|t: int|
                0 <= t < r@.len() ==> spec_changed(old@, new@).contains(#[trigger] pair_key(r@[t])),
            forall|t: int|
                0 <= t < r@.len() ==> last_index(new.entries@, entry_key(), #[trigger] pair_key(r@[t])) < i,
            forall|j: int|
                0 <= j < i && last_index(new.entries@, entry_key(), entry_key()(new.entries@[j]))
                    == j && spec_changed(old@, new@).contains(#[trigger] entry_key()(new.entries@[j]))
                    ==> exists|t: int| 0 <= t < r@.len() && pair_key(r@[t]) == entry_key()(new.entries@[j]),
            forall|a: int, b: int|
                0 <= a < b < r@.len() ==> pair_key(r@[a]) != pair_key(r@[b]),
        decreases new.entries.len() - i,
    {
        let e = &new.entries[i];
        let ghost k = entry_key()(*e);
        let last = find_entry(&new.entries, e.adapter.as_str(), e.device.mac_address.as_str());
        proof {
            lemma_last_index_bounds(new.entries@, entry_key(), k);
        }
        let is_last = match last {
            Some(j) => j == i,
            None => false,
        };
        let ghost r_old = r@;
        if is_last {
            let differs = match old.get(e.adapter.as_str(), e.device.mac_address.as_str()) {
                Some(d) => !d.same(&e.device),
                None => true,
            };
            if differs {
                proof {
                    assert(new@.contains_key(k));
                    assert(new@[k] == e.device@);
                    assert(spec_changed(old@, new@).contains(k));
                }
                r.push((e.adapter.clone(), e.device.mac_address.clone()));
                proof {
                    assert(pair_key(r@[r@.len() - 1]) == k);
                    assert forall|t: int| 0 <= t < r@.len() implies last_index(new.entries@, entry_key(), #[trigger] pair_key(r@[t])) < i + 1 by {
                        if t < r@.len() - 1 {
                            assert(r@[t] == r_old[t]);
                        }
                    }
                    assert forall|a: int, b: int| 0 <= a < b < r@.len() implies pair_key(r@[a]) != pair_key(r@[b]) by {
                        if b == r@.len() - 1 {
                            assert(r@[a] == r_old[a]);
                            assert(last_index(new.entries@, entry_key(), pair_key(r_old[a])) < i);
                        } else {
                            assert(r@[a] == r_old[a]);
                            assert(r@[b] == r_old[b]);
                        }
                    }
                    assert forall|j: int|
                        0 <= j < i + 1 && last_index(new.entries@, entry_key(), entry_key()(new.entries@[j]))
                            == j && spec_changed(old@, new@).contains(#[trigger] entry_key()(new.entries@[j]))
                        implies exists|t: int| 0 <= t < r@.len() && pair_key(r@[t]) == entry_key()(new.entries@[j]) by {
                        if j == i {
                            assert(pair_key(r@[r@.len() - 1]) == entry_key()(new.entries@[j]));
                        } else {
                            let t = choose|t: int| 0 <= t < r_old.len() && pair_key(r_old[t]) == entry_key()(new.entries@[j]);
                            assert(r@[t] == r_old[t]);
                        }
                    }
                }
            } else {
                proof {
                    assert(!spec_changed(old@, new@).contains(k));
                }
            }
        }
        i = i + 1;
    }
    proof {
        assert forall|k: SnapshotKey| #[trigger] spec_changed(old@, new@).contains(k) implies exists|t: int|
            0 <= t < r@.len() && pair_key(r@[t]) == k by {
            lemma_last_index_bounds(new.entries@, entry_key(), k);
            let j = last_index(new.entries@, entry_key(), k);
            assert(entry_key()(new.entries@[j]) == k);
        }
    }
    r
}


/// Seconds between two imports of the shared configuration by the monitor.
pub const IMPORT_INTERVAL_SECS: u64 = 30;

/// What the monitor does after exporting the changes of one poll.
#[derive(Debug, PartialEq, Eq)]
pub enum TickAction {
    /// An export failed: keep the previous snapshot so that the change is exported
    /// again, and do not import (an import could overwrite the unexported key).
    Retry,
    /// Take the new snapshot as the reference.
    Advance,
    /// Take the new snapshot, import the shared configuration, then take a fresh
    /// snapshot so that imported writes are not mistaken for local pairings.
    AdvanceAndImport,
}

/// The decision of one poll of the monitor: whether every change was exported, and
/// how long ago the last import was.
pub fn tick_action(all_exported: bool, secs_since_import: u64) -> (r: TickAction)
    ensures
        !all_exported ==> r == TickAction::Retry,
        all_exported && secs_since_import < IMPORT_INTERVAL_SECS ==> r == TickAction::Advance,
        all_exported && secs_since_import >= IMPORT_INTERVAL_SECS ==> r == TickAction::AdvanceAndImport,
{
    if !all_exported {
        TickAction::Retry
    } else if secs_since_import >= IMPORT_INTERVAL_SECS {
        TickAction::AdvanceAndImport
    } else {
        TickAction::Advance
    }
}

} // verus!
