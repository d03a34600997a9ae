//! The shared configuration: bonds grouped by adapter.
use vstd::prelude::*;
use crate::bluetooth::{BluetoothDevice, DeviceView};
use crate::text::str_eq;

verus! {

/// The bonds of one adapter; a later record for the same device address supersedes an
/// earlier one.
#[derive(Debug, PartialEq, Eq)]
pub struct AdapterConfig {
    pub mac_address: String,
    pub devices: Vec<BluetoothDevice>,
}

/// The shared configuration stored on the EFI partition.
#[derive(Debug, PartialEq, Eq)]
pub struct BlueVeinConfig {
    pub adapters: Vec<AdapterConfig>,
}

/// The devices of an adapter, by address.
pub type DeviceMap = Map<Seq<char>, DeviceView>;

/// The whole configuration: adapter address to its devices.
pub type ConfigMap = Map<Seq<char>, DeviceMap>;

/// The index of the last element of `s` whose key is `k`, or -1.
pub open spec fn last_index<A, K>(s: Seq<A>, key: spec_fn(A) -> K, k: K) -> int
    decreases s.len(),
{
    if s.len() == 0 {
        -1
    } else if key(s.last()) == k {
        s.len() - 1
    } else {
        last_index(s.drop_last(), key, k)
    }
}

pub open spec fn device_key() -> spec_fn(BluetoothDevice) -> Seq<char> {
    |d: BluetoothDevice| d.mac_address@
}

pub open spec fn adapter_key() -> spec_fn(AdapterConfig) -> Seq<char> {
    |a: AdapterConfig| a.mac_address@
}

/// Device records by address; the last record of an address is the one that counts.
pub open spec fn devices_view(s: Seq<BluetoothDevice>) -> DeviceMap {
    Map::new(
        |k: Seq<char>| last_index(s, device_key(), k) >= 0,
        |k: Seq<char>| s[last_index(s, device_key(), k)]@,
    )
}

/// Adapters by address; the last entry of an address is the one that counts.
pub open spec fn adapters_view(s: Seq<AdapterConfig>) -> ConfigMap {
    Map::new(
        |k: Seq<char>| last_index(s, adapter_key(), k) >= 0,
        |k: Seq<char>| devices_view(s[last_index(s, adapter_key(), k)].devices@),
    )
}

impl View for BlueVeinConfig {
    type V = ConfigMap;

    open spec fn view(&self) -> ConfigMap {
        adapters_view(self.adapters@)
    }
}

/// The device `mac` of adapter `adapter`, if the configuration holds one.
pub open spec fn config_device(c: ConfigMap, adapter: Seq<char>, mac: Seq<char>) -> Option<
    DeviceView,
> {
    if c.contains_key(adapter) && c[adapter].contains_key(mac) {
        Some(c[adapter][mac])
    } else {
        None
    }
}

/// The devices of `adapter`, empty when the configuration has none.
pub open spec fn adapter_devices(c: ConfigMap, adapter: Seq<char>) -> DeviceMap {
    if c.contains_key(adapter) {
        c[adapter]
    } else {
        Map::empty()
    }
}

/// Dropping the element just pushed gives the sequence back.
pub broadcast proof fn lemma_push_drop_last<A>(t: Seq<A>, e: A)
    ensures
        #[trigger] t.push(e).drop_last() == t,
{
    assert(t.push(e).drop_last() =~= t);
}

pub proof fn lemma_last_index_bounds<A, K>(s: Seq<A>, key: spec_fn(A) -> K, k: K)
    ensures
        -1 <= last_index(s, key, k) < s.len(),
        last_index(s, key, k) >= 0 ==> key(s[last_index(s, key, k)]) == k,
        last_index(s, key, k) == -1 ==> forall|i: int| 0 <= i < s.len() ==> key(s[i]) != k,
        forall|i: int| last_index(s, key, k) < i < s.len() ==> key(s[i]) != k,
    decreases s.len(),
{
    if s.len() > 0 {
        lemma_last_index_bounds(s.drop_last(), key, k);
        if key(s.last()) != k {
            assert forall|i: int| last_index(s, key, k) < i < s.len() implies key(s[i]) != k by {
                if i < s.len() - 1 {
                    assert(s[i] == s.drop_last()[i]);
                }
            }
            if last_index(s, key, k) >= 0 {
                assert(s[last_index(s, key, k)] == s.drop_last()[last_index(s, key, k)]);
            }
            assert forall|i: int| 0 <= i < s.len() && last_index(s, key, k) == -1 implies key(s[i])
                != k by {
                if i < s.len() - 1 {
                    assert(s[i] == s.drop_last()[i]);
                }
            }
        }
    }
}

pub proof fn lemma_last_index_push<A, K>(s: Seq<A>, key: spec_fn(A) -> K, x: A, k: K)
    ensures
        last_index(s.push(x), key, k) == if key(x) == k {
            s.len() as int
        } else {
            last_index(s, key, k)
        },
{
    assert(s.push(x).drop_last() =~= s);
}

/// `last_index` depends only on the keys.
pub proof fn lemma_last_index_same_keys<A, K>(
    s1: Seq<A>,
    s2: Seq<A>,
    key: spec_fn(A) -> K,
    k: K,
)
    requires
        s1.len() == s2.len(),
        forall|i: int| 0 <= i < s1.len() ==> key(#[trigger] s1[i]) == key(s2[i]),
    ensures
        last_index(s1, key, k) == last_index(s2, key, k),
    decreases s1.len(),
{
    if s1.len() > 0 {
        assert(key(s1[s1.len() - 1]) == key(s2[s2.len() - 1]));
        assert forall|i: int| 0 <= i < s1.drop_last().len() implies key(
            #[trigger] s1.drop_last()[i],
        ) == key(s2.drop_last()[i]) by {
            assert(s1.drop_last()[i] == s1[i]);
            assert(s2.drop_last()[i] == s2[i]);
        }
        lemma_last_index_same_keys(s1.drop_last(), s2.drop_last(), key, k);
    }
}

/// The index of the record for `mac` that counts, if any.
pub fn find_device(devices: &Vec<BluetoothDevice>, mac: &str) -> (r: Option<usize>)
    ensures
        match r {
            Some(i) => i as int == last_index(devices@, device_key(), mac@) && i < devices.len(),
            None => last_index(devices@, device_key(), mac@) == -1,
        },
{
    let mut i: usize = devices.len();
    while i > 0
        invariant
            i <= devices.len(),
            forall|j: int| i <= j < devices.len() ==> devices@[j].mac_address@ != mac@,
        decreases i,
    {
        if str_eq(devices[i - 1].mac_address.as_str(), mac) {
            proof {
                lemma_last_index_bounds(devices@, device_key(), mac@);
                let li = last_index(devices@, device_key(), mac@);
                if li != i - 1 {
                    assert(device_key()(devices@[i - 1]) == mac@);
                }
            }
            return Some(i - 1);
        }
        i = i - 1;
    }
    proof {
        lemma_last_index_bounds(devices@, device_key(), mac@);
        let li = last_index(devices@, device_key(), mac@);
        if li >= 0 {
            assert(device_key()(devices@[li]) == mac@);
        }
    }
    None
}

/// The index of the entry for adapter `mac` that counts, if any.
pub fn find_adapter(adapters: &Vec<AdapterConfig>, mac: &str) -> (r: Option<usize>)
    ensures
        match r {
            Some(i) => i as int == last_index(adapters@, adapter_key(), mac@) && i < adapters.len(),
            None => last_index(adapters@, adapter_key(), mac@) == -1,
        },
{
    let mut i: usize = adapters.len();
    while i > 0
        invariant
            i <= adapters.len(),
            forall|j: int| i <= j < adapters.len() ==> adapters@[j].mac_address@ != mac@,
        decreases i,
    {
        if str_eq(adapters[i - 1].mac_address.as_str(), mac) {
            proof {
                lemma_last_index_bounds(adapters@, adapter_key(), mac@);
                let li = last_index(adapters@, adapter_key(), mac@);
                if li != i - 1 {
                    assert(adapter_key()(adapters@[i - 1]) == mac@);
                }
            }
            return Some(i - 1);
        }
        i = i - 1;
    }
    proof {
        lemma_last_index_bounds(adapters@, adapter_key(), mac@);
        let li = last_index(adapters@, adapter_key(), mac@);
        if li >= 0 {
            assert(adapter_key()(adapters@[li]) == mac@);
        }
    }
    None
}

/// Sets the record of `device.mac_address`, replacing the one that counted.
pub fn put_device(devices: &mut Vec<BluetoothDevice>, device: BluetoothDevice)
    ensures
        devices_view(final(devices)@) == devices_view(old(devices)@).insert(
            device.mac_address@,
            device@,
        ),
{
    let ghost k = device.mac_address@;
    let ghost dv = device@;
    match find_device(devices, device.mac_address.as_str()) {
        Some(i) => {
            let ghost s0 = devices@;
            devices.set(i, device);
            proof {
                assert forall|j: int| 0 <= j < devices@.len() implies device_key()(
                    #[trigger] devices@[j],
                ) == device_key()(s0[j]) by {
                    if j == i {
                        lemma_last_index_bounds(s0, device_key(), k);
                    }
                }
                assert forall|q: Seq<char>| true implies last_index(devices@, device_key(), q)
                    == last_index(s0, device_key(), q) by {
                    lemma_last_index_same_keys(devices@, s0, device_key(), q);
                }
                assert forall|q: Seq<char>| #[trigger] last_index(s0, device_key(), q) >= 0 && q != k
                    implies devices@[last_index(s0, device_key(), q)] == s0[last_index(s0, device_key(), q)] by {
                    lemma_last_index_bounds(s0, device_key(), q);
                    lemma_last_index_bounds(s0, device_key(), k);
                }
                assert(devices@[i as int] == device);
                assert(devices_view(devices@) =~= devices_view(s0).insert(k, dv));
            }
        },
        None => {
            let ghost s0 = devices@;
            devices.push(device);
            proof {
                assert forall|q: Seq<char>| true implies last_index(devices@, device_key(), q) == if q
                    == k {
                    s0.len() as int
                } else {
                    last_index(s0, device_key(), q)
                } by {
                    lemma_last_index_push(s0, device_key(), dv_dev(devices@, s0.len() as int), q);
                    assert(devices@ == s0.push(devices@[s0.len() as int]));
                }
                assert forall|q: Seq<char>| last_index(s0, device_key(), q) >= 0 implies #[trigger] devices@[last_index(s0, device_key(), q)] == s0[last_index(s0, device_key(), q)] by {
                    lemma_last_index_bounds(s0, device_key(), q);
                }
                assert(devices_view(devices@) =~= devices_view(s0).insert(k, dv));
            }
        },
    }
}

spec fn dv_dev(s: Seq<BluetoothDevice>, i: int) -> BluetoothDevice {
    s[i]
}


/// Sets the entry of `adapter` to hold `devices`, replacing the one that counted.
pub fn put_adapter(adapters: &mut Vec<AdapterConfig>, entry: AdapterConfig)
    ensures
        adapters_view(final(adapters)@) == adapters_view(old(adapters)@).insert(
            entry.mac_address@,
            devices_view(entry.devices@),
        ),
{
    let ghost k = entry.mac_address@;
    let ghost dv = devices_view(entry.devices@);
    let ghost s0 = adapters@;
    match find_adapter(adapters, entry.mac_address.as_str()) {
        Some(i) => {
            adapters.set(i, entry);
            proof {
                lemma_last_index_bounds(s0, adapter_key(), k);
                assert forall|j: int| 0 <= j < adapters@.len() implies adapter_key()(
                    #[trigger] adapters@[j],
                ) == adapter_key()(s0[j]) by {}
                assert forall|q: Seq<char>| true implies last_index(adapters@, adapter_key(), q)
                    == last_index(s0, adapter_key(), q) by {
                    lemma_last_index_same_keys(adapters@, s0, adapter_key(), q);
                }
                assert forall|q: Seq<char>| #[trigger] last_index(s0, adapter_key(), q) >= 0 && q
                    != k implies adapters@[last_index(s0, adapter_key(), q)] == s0[last_index(
                    s0,
                    adapter_key(),
                    q,
                )] by {
                    lemma_last_index_bounds(s0, adapter_key(), q);
                }
                assert(adapters_view(adapters@) =~= adapters_view(s0).insert(k, dv));
            }
        },
        None => {
            adapters.push(entry);
            proof {
                assert forall|q: Seq<char>| true implies last_index(adapters@, adapter_key(), q)
                    == if q == k {
                    s0.len() as int
                } else {
                    last_index(s0, adapter_key(), q)
                } by {
                    assert(adapters@ == s0.push(adapters@[s0.len() as int]));
                    lemma_last_index_push(s0, adapter_key(), adapters@[s0.len() as int], q);
                }
                assert forall|q: Seq<char>| last_index(s0, adapter_key(), q) >= 0 implies #[trigger] adapters@[last_index(s0, adapter_key(), q)] == s0[last_index(s0, adapter_key(), q)] by {
                    lemma_last_index_bounds(s0, adapter_key(), q);
                }
                assert(adapters_view(adapters@) =~= adapters_view(s0).insert(k, dv));
            }
        },
    }
}

/// A copy of a device list.
pub fn clone_devices(v: &Vec<BluetoothDevice>) -> (r: Vec<BluetoothDevice>)
    ensures
        r@ == v@,
{
    let mut r: Vec<BluetoothDevice> = Vec::new();
    let mut i: usize = 0;
    while i < v.len()
        invariant
            i <= v.len(),
            r@ == v@.take(i as int),
        decreases v.len() - i,
    {
        r.push(v[i].clone());
        assert(r@ =~= v@.take(i + 1));
        i = i + 1;
    }
    assert(v@.take(v.len() as int) =~= v@);
    r
}

impl Clone for AdapterConfig {
    fn clone(&self) -> (r: Self)
        ensures
            r.mac_address == self.mac_address,
            r.devices@ == self.devices@,
    {
        AdapterConfig { mac_address: self.mac_address.clone(), devices: clone_devices(&self.devices) }
    }
}

impl Clone for BlueVeinConfig {
    fn clone(&self) -> (r: Self)
        ensures
            r@ == self@,
    {
        let mut adapters: Vec<AdapterConfig> = Vec::new();
        let mut i: usize = 0;
        while i < self.adapters.len()
            invariant
                i <= self.adapters.len(),
                adapters@.len() == i,
                forall|j: int|
                    0 <= j < i ==> (#[trigger] adapters@[j]).mac_address == self.adapters@[j].mac_address
                        && adapters@[j].devices@ == self.adapters@[j].devices@,
            decreases self.adapters.len() - i,
        {
            adapters.push(self.adapters[i].clone());
            i = i + 1;
        }
        let r = BlueVeinConfig { adapters };
        proof {
            assert forall|j: int| 0 <= j < r.adapters@.len() implies adapter_key()(#[trigger] r.adapters@[j]) == adapter_key()(self.adapters@[j]) by {}
            assert forall|q: Seq<char>| true implies last_index(r.adapters@, adapter_key(), q) == last_index(self.adapters@, adapter_key(), q) by {
                lemma_last_index_same_keys(r.adapters@, self.adapters@, adapter_key(), q);
            }
            assert forall|q: Seq<char>| #[trigger] r@.contains_key(q) implies r@[q] == self@[q] by {
                lemma_last_index_bounds(r.adapters@, adapter_key(), q);
                let j = last_index(r.adapters@, adapter_key(), q);
                assert(r.adapters@[j].devices@ == self.adapters@[j].devices@);
            }
            assert(r@ =~= self@);
        }
        r
    }
}

/// Whether two device lists hold the same records by address.
pub fn devices_same(a: &Vec<BluetoothDevice>, b: &Vec<BluetoothDevice>) -> (r: bool)
    ensures
        r == (devices_view(a@) == devices_view(b@)),
{
    let mut i: usize = 0;
    while i < a.len()
        invariant
            i <= a.len(),
            forall|j: int|
                0 <= j < i ==> #[trigger] devices_view(b@).contains_key(a@[j].mac_address@)
                    && devices_view(b@)[a@[j].mac_address@] == devices_view(a@)[a@[j].mac_address@],
        decreases a.len() - i,
    {
        let ghost k = a@[i as int].mac_address@;
        let ia = find_device(a, a[i].mac_address.as_str());
        let ib = find_device(b, a[i].mac_address.as_str());
        proof {
            lemma_last_index_bounds(a@, device_key(), k);
            lemma_last_index_bounds(b@, device_key(), k);
        }
        proof {
            assert(device_key()(a@[i as int]) == k);
            assert(devices_view(a@).contains_key(k));
        }
        match (ia, ib) {
            (Some(x), Some(y)) => {
                if !a[x].same(&b[y]) {
                    proof {
                        assert(devices_view(a@)[k] != devices_view(b@)[k]);
                    }
                    return false;
                }
                assert(devices_view(b@).contains_key(k) && devices_view(b@)[k] == devices_view(a@)[k]);
                assert forall|j: int|
                    0 <= j < i + 1 implies #[trigger] devices_view(b@).contains_key(a@[j].mac_address@)
                        && devices_view(b@)[a@[j].mac_address@] == devices_view(a@)[a@[j].mac_address@] by {
                    if j == i {
                        assert(a@[j].mac_address@ == k);
                    }
                }
            },
            _ => {
                proof {
                    assert(!devices_view(b@).contains_key(k));
                }
                return false;
            },
        }
        i = i + 1;
    }
    let mut i: usize = 0;
    while i < b.len()
        invariant
            i <= b.len(),
            forall|j: int| 0 <= j < i ==> #[trigger] devices_view(a@).contains_key(b@[j].mac_address@),
        decreases b.len() - i,
    {
        let ghost k = b@[i as int].mac_address@;
        proof {
            lemma_last_index_bounds(a@, device_key(), k);
        }
        if find_device(a, b[i].mac_address.as_str()).is_none() {
            proof {
                lemma_last_index_bounds(b@, device_key(), k);
                assert(device_key()(b@[i as int]) == k);
                assert(devices_view(b@).contains_key(k));
                assert(!devices_view(a@).contains_key(k));
            }
            return false;
        }
        i = i + 1;
    }
    proof {
        assert forall|k: Seq<char>| #[trigger] devices_view(a@).contains_key(k) implies devices_view(b@).contains_key(k) && devices_view(b@)[k] == devices_view(a@)[k] by {
            lemma_last_index_bounds(a@, device_key(), k);
            let j = last_index(a@, device_key(), k);
            assert(a@[j].mac_address@ == k);
        }
        assert forall|k: Seq<char>| #[trigger] devices_view(b@).contains_key(k) implies devices_view(a@).contains_key(k) by {
            lemma_last_index_bounds(b@, device_key(), k);
            let j = last_index(b@, device_key(), k);
            assert(b@[j].mac_address@ == k);
        }
        assert(devices_view(a@) =~= devices_view(b@));
    }
    true
}

impl BlueVeinConfig {
    /// An empty configuration.
    pub fn new() -> (r: Self)
        ensures
            r@ == ConfigMap::empty(),
    {
        let r = BlueVeinConfig { adapters: Vec::new() };
        assert(r@ =~= ConfigMap::empty());
        r
    }

    /// The device records of `adapter_mac`, if the configuration has that adapter.
    pub fn get_adapter_devices(&self, adapter_mac: &str) -> (r: Option<&Vec<BluetoothDevice>>)
        ensures
            r is Some == self@.contains_key(adapter_mac@),
            r matches Some(v) ==> devices_view(v@) == self@[adapter_mac@],
            r matches Some(v) ==> v@ == self.adapters@[last_index(self.adapters@, adapter_key(), adapter_mac@)].devices@,
    {
        match find_adapter(&self.adapters, adapter_mac) {
            Some(i) => Some(&self.adapters[i].devices),
            None => None,
        }
    }

    /// The record of `device_mac` under `adapter_mac`, if present.
    pub fn get_device(&self, adapter_mac: &str, device_mac: &str) -> (r: Option<&BluetoothDevice>)
        ensures
            match r {
                Some(d) => config_device(self@, adapter_mac@, device_mac@) == Some(d@)
                    && d.mac_address@ == device_mac@,
                None => config_device(self@, adapter_mac@, device_mac@) is None,
            },
    {
        match find_adapter(&self.adapters, adapter_mac) {
            Some(i) => {
                let devices = &self.adapters[i].devices;
                match find_device(devices, device_mac) {
                    Some(j) => {
                        proof {
                            lemma_last_index_bounds(devices@, device_key(), device_mac@);
                        }
                        Some(&devices[j])
                    },
                    None => None,
                }
            },
            None => None,
        }
    }

    /// Replaces the devices of `adapter_mac` with `devices` (a later record of an
    /// address supersedes an earlier one).
    pub fn set_adapter_devices(&mut self, adapter_mac: String, devices: Vec<BluetoothDevice>)
        ensures
            final(self)@ == old(self)@.insert(adapter_mac@, devices_view(devices@)),
    {
        put_adapter(&mut self.adapters, AdapterConfig { mac_address: adapter_mac, devices });
    }

    /// Inserts or replaces the record of `device.mac_address` under `adapter_mac`,
    /// creating the adapter entry if needed.
    pub fn update_device(&mut self, adapter_mac: String, device: BluetoothDevice)
        ensures
            final(self)@ == old(self)@.insert(
                adapter_mac@,
                adapter_devices(old(self)@, adapter_mac@).insert(device.mac_address@, device@),
            ),
    {
        let mut devices = match find_adapter(&self.adapters, adapter_mac.as_str()) {
            Some(i) => clone_devices(&self.adapters[i].devices),
            None => {
                let v: Vec<BluetoothDevice> = Vec::new();
                assert(devices_view(v@) =~= DeviceMap::empty());
                v
            },
        };
        put_device(&mut devices, device);
        put_adapter(&mut self.adapters, AdapterConfig { mac_address: adapter_mac, devices });
    }

    /// Removes the record of `device_mac` under `adapter_mac`, if any.
    pub fn remove_device(&mut self, adapter_mac: &str, device_mac: &str)
        ensures
            final(self)@ == if old(self)@.contains_key(adapter_mac@) {
                old(self)@.insert(adapter_mac@, old(self)@[adapter_mac@].remove(device_mac@))
            } else {
                old(self)@
            },
    {
        match find_adapter(&self.adapters, adapter_mac) {
            Some(i) => {
                let old_devices = &self.adapters[i].devices;
                let mut kept: Vec<BluetoothDevice> = Vec::new();
                let mut j: usize = 0;
                while j < old_devices.len()
                    invariant
                        j <= old_devices.len(),
                        devices_view(kept@) == devices_view(old_devices@.take(j as int)).remove(
                            device_mac@,
                        ),
                    decreases old_devices.len() - j,
                {
                    let ghost pre = old_devices@.take(j as int);
                    let ghost x = old_devices@[j as int];
                    assert(old_devices@.take(j + 1) =~= pre.push(x));
                    proof {
                        assert forall|q: Seq<char>| true implies last_index(pre.push(x), device_key(), q) == if x.mac_address@ == q { pre.len() as int } else { last_index(pre, device_key(), q) } by {
                            lemma_last_index_push(pre, device_key(), x, q);
                        }
                        assert forall|q: Seq<char>| last_index(pre, device_key(), q) >= 0 implies #[trigger] pre.push(x)[last_index(pre, device_key(), q)] == pre[last_index(pre, device_key(), q)] by {
                            lemma_last_index_bounds(pre, device_key(), q);
                        }
                        assert(devices_view(pre.push(x)) =~= devices_view(pre).insert(x.mac_address@, x@));
                    }
                    if !str_eq(old_devices[j].mac_address.as_str(), device_mac) {
                        put_device(&mut kept, old_devices[j].clone());
                        assert(devices_view(kept@) =~= devices_view(pre.push(x)).remove(device_mac@));
                    } else {
                        assert(devices_view(kept@) =~= devices_view(pre.push(x)).remove(device_mac@));
                    }
                    j = j + 1;
                }
                assert(old_devices@.take(old_devices.len() as int) =~= old_devices@);
                let name = self.adapters[i].mac_address.clone();
                put_adapter(&mut self.adapters, AdapterConfig { mac_address: name, devices: kept });
                proof {
                    lemma_last_index_bounds(old(self).adapters@, adapter_key(), adapter_mac@);
                }
            },
            None => {},
        }
    }
}

/// `==` on configurations, by content.
pub fn same_config(a: &BlueVeinConfig, b: &BlueVeinConfig) -> (r: bool)
    ensures
        r == (a@ == b@),
{
    let mut i: usize = 0;
    while i < a.adapters.len()
        invariant
            i <= a.adapters.len(),
            forall|j: int|
                0 <= j < i ==> #[trigger] b@.contains_key(a.adapters@[j].mac_address@)
                    && b@[a.adapters@[j].mac_address@] == a@[a.adapters@[j].mac_address@],
        decreases a.adapters.len() - i,
    {
        let ghost k = a.adapters@[i as int].mac_address@;
        proof {
            lemma_last_index_bounds(a.adapters@, adapter_key(), k);
            lemma_last_index_bounds(b.adapters@, adapter_key(), k);
        }
        let name = a.adapters[i].mac_address.as_str();
        proof {
            assert(adapter_key()(a.adapters@[i as int]) == k);
            assert(a@.contains_key(k));
        }
        match (a.get_adapter_devices(name), b.get_adapter_devices(name)) {
            (Some(x), Some(y)) => {
                if !devices_same(x, y) {
                    proof {
                        assert(a@[k] != b@[k]);
                    }
                    return false;
                }
                assert(name@ == k);
                assert(b@.contains_key(k) && b@[k] == a@[k]);
                assert forall|j: int|
                    0 <= j < i + 1 implies #[trigger] b@.contains_key(a.adapters@[j].mac_address@)
                        && b@[a.adapters@[j].mac_address@] == a@[a.adapters@[j].mac_address@] by {
                    if j == i {
                        assert(a.adapters@[j].mac_address@ == k);
                    }
                }
            },
            _ => {
                proof {
                    assert(!b@.contains_key(k));
                }
                return false;
            },
        }
        i = i + 1;
    }
    let mut i: usize = 0;
    while i < b.adapters.len()
        invariant
            i <= b.adapters.len(),
            forall|j: int| 0 <= j < i ==> #[trigger] a@.contains_key(b.adapters@[j].mac_address@),
        decreases b.adapters.len() - i,
    {
        let ghost k = b.adapters@[i as int].mac_address@;
        proof {
            lemma_last_index_bounds(a.adapters@, adapter_key(), k);
            lemma_last_index_bounds(b.adapters@, adapter_key(), k);
        }
        if a.get_adapter_devices(b.adapters[i].mac_address.as_str()).is_none() {
            proof {
                assert(adapter_key()(b.adapters@[i as int]) == k);
                assert(b@.contains_key(k));
            }
            return false;
        }
        i = i + 1;
    }
    proof {
        assert forall|k: Seq<char>| #[trigger] a@.contains_key(k) implies b@.contains_key(k) && b@[k] == a@[k] by {
            lemma_last_index_bounds(a.adapters@, adapter_key(), k);
            let j = last_index(a.adapters@, adapter_key(), k);
            assert(a.adapters@[j].mac_address@ == k);
        }
        assert forall|k: Seq<char>| #[trigger] b@.contains_key(k) implies a@.contains_key(k) by {
            lemma_last_index_bounds(b.adapters@, adapter_key(), k);
            let j = last_index(b.adapters@, adapter_key(), k);
            assert(b.adapters@[j].mac_address@ == k);
        }
        assert(a@ =~= b@);
    }
    true
}


/// Appending a record makes it the one that counts for its address.
pub proof fn lemma_devices_view_push(s: Seq<BluetoothDevice>, x: BluetoothDevice)
    ensures
        devices_view(s.push(x)) == devices_view(s).insert(x.mac_address@, x@),
{
    assert forall|q: Seq<char>| true implies last_index(s.push(x), device_key(), q) == if x.mac_address@
        == q {
        s.len() as int
    } else {
        last_index(s, device_key(), q)
    } by {
        lemma_last_index_push(s, device_key(), x, q);
    }
    assert forall|q: Seq<char>| last_index(s, device_key(), q) >= 0 implies #[trigger] s.push(x)[last_index(s, device_key(), q)] == s[last_index(s, device_key(), q)] by {
        lemma_last_index_bounds(s, device_key(), q);
    }
    assert(devices_view(s.push(x)) =~= devices_view(s).insert(x.mac_address@, x@));
}

/// Appending an adapter entry makes it the one that counts for its address.
pub proof fn lemma_adapters_view_push(s: Seq<AdapterConfig>, x: AdapterConfig)
    ensures
        adapters_view(s.push(x)) == adapters_view(s).insert(x.mac_address@, devices_view(x.devices@)),
{
    assert forall|q: Seq<char>| true implies last_index(s.push(x), adapter_key(), q) == if x.mac_address@
        == q {
        s.len() as int
    } else {
        last_index(s, adapter_key(), q)
    } by {
        lemma_last_index_push(s, adapter_key(), x, q);
    }
    assert forall|q: Seq<char>| last_index(s, adapter_key(), q) >= 0 implies #[trigger] s.push(x)[last_index(s, adapter_key(), q)] == s[last_index(s, adapter_key(), q)] by {
        lemma_last_index_bounds(s, adapter_key(), q);
    }
    assert(adapters_view(s.push(x)) =~= adapters_view(s).insert(x.mac_address@, devices_view(x.devices@)));
}

pub proof fn lemma_devices_view_empty(s: Seq<BluetoothDevice>)
    requires
        s.len() == 0,
    ensures
        devices_view(s) == DeviceMap::empty(),
{
    assert(devices_view(s) =~= DeviceMap::empty());
}

pub proof fn lemma_adapters_view_empty(s: Seq<AdapterConfig>)
    requires
        s.len() == 0,
    ensures
        adapters_view(s) == ConfigMap::empty(),
{
    assert(adapters_view(s) =~= ConfigMap::empty());
}

} // verus!
