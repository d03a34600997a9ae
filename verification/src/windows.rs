//! The Windows Bluetooth store (`BTHPORT\Parameters\Keys` in the registry): how a
//! bond is read from and written to its values, and the rules for comparing,
//! exporting and migrating bonds there. The registry access itself is left to the
//! caller, which hands over and receives plain values.
use vstd::prelude::*;
use crate::bluetooth::{
    opt_view, spec_authenticated_or_default, BluetoothDevice, ClassicKeys, ClassicKeysView, CsrkKey,
    CsrkView, DeviceView, LeKeys, LeKeysView, LeLongTermKey, LtkView,
};
use crate::bluetooth::{
    invalid_key_message, is_valid_mac_hex, spec_is_valid_mac_hex, spec_mac_to_windows_format, spec_windows_format_to_mac, valid_key_text,
    mac_to_windows_format, normalize_mac, validate_bluetooth_key, windows_format_to_mac,
};
use crate::config::{adapter_devices, config_device, BlueVeinConfig, ConfigMap};
use crate::migrate::{device_views, migrate_local_records, spec_migrate_locals};
use crate::sync::merge_devices_view;
use crate::codec::{
    hex_bytes, hex_decode, hex_digit, hex_encode_upper, hex_upper_text, hex_val, lemma_hex_bytes_of_text,
    lemma_text_of_hex_bytes,
};
use crate::linux::hex_digit_value;
use crate::linux::opt_seq;
use crate::text::{
    char_from_ascii, chars_of, push_chars, eq_ignore_case, is_hex_digit, is_hex_digit_exec, eq_ignore_case_exec, str_eq, string_from, string_of, upper, upper_string,
};

verus! {

/// The BlueZ key type of an LTK read from the registry. Windows stores the
/// authenticated (MITM) bit in `Authenticated` and marks Secure Connections in the
/// `AuthReq` flags (`0x08`); an SC key also has EDIV and Rand zero. A requested MITM
/// flag in `AuthReq` is not taken as proof of authenticated pairing.
pub open spec fn spec_windows_ltk_type(
    authenticated: Option<u8>,
    auth_req: Option<u32>,
    ediv: Option<u16>,
    rand: Option<u64>,
) -> u8 {
    let a = spec_authenticated_or_default(authenticated);
    let secure = (auth_req matches Some(f) && f & 0x08 != 0) && ediv == Some(0u16) && rand == Some(
        0u64,
    );
    (a & 1) | if secure || a & 2 != 0 {
        2
    } else {
        0
    }
}

/// The BlueZ key type of an LTK read from the registry (`spec_windows_ltk_type`).
pub fn windows_ltk_type(
    authenticated: Option<u8>,
    auth_req: Option<u32>,
    ediv: Option<u16>,
    rand: Option<u64>,
) -> (r: u8)
    ensures
        r == spec_windows_ltk_type(authenticated, auth_req, ediv, rand),
{
    let a = match authenticated {
        Some(v) => v,
        None => 0,
    };
    let requested_sc = match auth_req {
        Some(f) => f & 0x08 != 0,
        None => false,
    };
    let zero_ediv = match ediv {
        Some(e) => e == 0,
        None => false,
    };
    let zero_rand = match rand {
        Some(x) => x == 0,
        None => false,
    };
    let secure = requested_sc && zero_ediv && zero_rand;
    (a & 1) | if secure || a & 2 != 0 {
        2
    } else {
        0
    }
}

/// An LTK as it reads back from the registry: upper-case key, key type always set.
pub open spec fn projected_ltk(k: LtkView) -> LtkView {
    LtkView { key: upper(k.key), authenticated: Some(spec_authenticated_or_default(k.authenticated)), ..k }
}

/// A CSRK as it reads back from the registry, which keeps neither counter nor flag.
pub open spec fn projected_csrk(c: CsrkView) -> CsrkView {
    CsrkView { key: upper(c.key), counter: 0, authenticated: false }
}

/// The LE part of a bond as it reads back from the registry: no peripheral-role LTK,
/// no IRK byte-order tag, and nothing at all without an LTK, IRK or CSRK.
pub open spec fn projected_le(le: LeKeysView) -> Option<LeKeysView> {
    if le.ltk is None && le.irk is None && le.csrk_local is None && le.csrk_remote is None {
        None
    } else {
        Some(
            LeKeysView {
                ltk: match le.ltk {
                    Some(k) => Some(projected_ltk(k)),
                    None => None,
                },
                peripheral_ltk: None,
                irk: match le.irk {
                    Some(k) => Some(upper(k)),
                    None => None,
                },
                irk_encoding: None,
                csrk_local: match le.csrk_local {
                    Some(c) => Some(projected_csrk(c)),
                    None => None,
                },
                csrk_remote: match le.csrk_remote {
                    Some(c) => Some(projected_csrk(c)),
                    None => None,
                },
                address_type: le.address_type,
            },
        )
    }
}

/// The values of a bond that survive a write to the registry and a read back: key
/// text in upper case, the default Classic key type and PIN length, and neither name
/// nor deletion marker.
pub open spec fn spec_registry_projection(d: DeviceView) -> DeviceView {
    DeviceView {
        mac_address: d.mac_address,
        name: None,
        pending_deletion: None,
        classic: match d.classic {
            Some(c) => Some(ClassicKeysView { link_key: upper(c.link_key), key_type: 4, pin_length: 0 }),
            None => None,
        },
        le: match d.le {
            Some(le) => projected_le(le),
            None => None,
        },
    }
}

fn projected_ltk_exec(k: &LeLongTermKey) -> (r: LeLongTermKey)
    ensures
        r@ == projected_ltk(k@),
{
    LeLongTermKey {
        key: upper_string(k.key.as_str()),
        authenticated: Some(k.authenticated_or_default()),
        enc_size: k.enc_size,
        ediv: k.ediv,
        rand: k.rand,
    }
}

fn projected_csrk_exec(c: &Option<CsrkKey>) -> (r: Option<CsrkKey>)
    ensures
        opt_view(r) == match opt_view(*c) {
            Some(x) => Some(projected_csrk(x)),
            None => None,
        },
{
    match c {
        Some(c) => Some(CsrkKey { key: upper_string(c.key.as_str()), counter: 0, authenticated: false }),
        None => None,
    }
}

/// The values of `device` that survive a registry round trip (`spec_registry_projection`).
pub fn registry_projection(device: &BluetoothDevice) -> (r: BluetoothDevice)
    ensures
        r@ == spec_registry_projection(device@),
{
    let classic = match &device.classic {
        Some(c) => Some(ClassicKeys { link_key: upper_string(c.link_key.as_str()), key_type: 4, pin_length: 0 }),
        None => None,
    };
    let le = match &device.le {
        Some(le) => {
            if le.ltk.is_none() && le.irk.is_none() && le.csrk_local.is_none() && le.csrk_remote.is_none() {
                None
            } else {
                Some(
                    LeKeys {
                        ltk: match &le.ltk {
                            Some(k) => Some(projected_ltk_exec(k)),
                            None => None,
                        },
                        peripheral_ltk: None,
                        irk: match &le.irk {
                            Some(k) => Some(upper_string(k.as_str())),
                            None => None,
                        },
                        irk_encoding: None,
                        csrk_local: projected_csrk_exec(&le.csrk_local),
                        csrk_remote: projected_csrk_exec(&le.csrk_remote),
                        address_type: crate::bluetooth::clone_opt_string(&le.address_type),
                    },
                )
            }
        },
        None => None,
    };
    BluetoothDevice {
        mac_address: device.mac_address.clone(),
        name: None,
        pending_deletion: None,
        classic,
        le,
    }
}

/// The local record `local` as exported next to the shared record `shared`. Windows
/// does not keep the Classic key type and PIN length, so an unchanged link key keeps
/// the shared ones. A Secure Connections LTK serves both roles, so it also replaces
/// a shared peripheral-role key.
pub open spec fn spec_windows_export(local: DeviceView, shared: DeviceView) -> DeviceView {
    let classic = match (local.classic, shared.classic) {
        (Some(l), Some(s)) => if eq_ignore_case(l.link_key, s.link_key) {
            Some(ClassicKeysView { key_type: s.key_type, pin_length: s.pin_length, ..l })
        } else {
            local.classic
        },
        _ => local.classic,
    };
    let le = match (local.le, shared.le) {
        (Some(l), Some(s)) => if l.ltk matches Some(k) && (k.authenticated == Some(2u8)
            || k.authenticated == Some(3u8)) && s.peripheral_ltk is Some {
            Some(LeKeysView { peripheral_ltk: l.ltk, ..l })
        } else {
            local.le
        },
        _ => local.le,
    };
    DeviceView { classic, le, ..local }
}

/// Why the shared record `desired` must not replace the live Windows bond `current`:
/// a different IRK whose byte order was never verified.
pub open spec fn spec_windows_update_reason(current: DeviceView, desired: DeviceView) -> Option<
    Seq<char>,
> {
    match (current.le, desired.le) {
        (Some(l), Some(s)) => if l.irk is Some && s.irk is Some && !eq_ignore_case(
            l.irk.unwrap(),
            s.irk.unwrap(),
        ) && s.irk_encoding != Some("windows"@) {
            Some("conflicting legacy IRK encoding; preserving live Windows bond"@)
        } else {
            None
        },
        _ => None,
    }
}


/// The key text of a registry binary value: upper-case hexadecimal, when the value
/// has the sixteen bytes of a 128-bit key.
pub open spec fn registry_key_text(b: Seq<u8>) -> Option<Seq<char>> {
    if b.len() == 16 {
        Some(hex_upper_text(b))
    } else {
        None
    }
}

/// The key text of a registry binary value (`registry_key_text`).
fn key_from_registry(bytes: &[u8]) -> (r: Option<String>)
    ensures
        opt_seq(r) == registry_key_text(bytes@),
{
    let text = hex_encode_upper(bytes);
    proof {
        lemma_hex_bytes_of_text(bytes@);
    }
    match validate_bluetooth_key(text.as_str(), "registry") {
        Ok(()) => Some(text),
        Err(_) => None,
    }
}

fn opt_key_from_registry(bytes: &Option<Vec<u8>>) -> (r: Option<String>)
    ensures
        opt_seq(r) == match bytes {
            Some(b) => registry_key_text(b@),
            None => None,
        },
{
    match bytes {
        Some(b) => key_from_registry(b.as_slice()),
        None => None,
    }
}

/// The Classic bond stored as the registry value `bytes`: its link key with the
/// default key type and PIN length, when the value is a 128-bit key.
pub open spec fn spec_classic_from_registry(bytes: Seq<u8>) -> Option<ClassicKeysView> {
    match registry_key_text(bytes) {
        Some(k) => Some(ClassicKeysView { link_key: k, key_type: 4, pin_length: 0 }),
        None => None,
    }
}

/// The Classic bond of a device value of the registry (`spec_classic_from_registry`).
pub fn classic_from_registry(bytes: &[u8]) -> (r: Option<ClassicKeys>)
    ensures
        opt_view(r) == spec_classic_from_registry(bytes@),
{
    match key_from_registry(bytes) {
        Some(k) => Some(ClassicKeys::new(k)),
        None => None,
    }
}

/// The values of an LE bond record in the registry that BlueVein reads; `None`
/// where the value is absent.
#[derive(Debug)]
pub struct LeRegistryRecord {
    pub ltk: Option<Vec<u8>>,
    pub authenticated: Option<u32>,
    pub key_length: Option<u32>,
    pub ediv: Option<u32>,
    pub erand: Option<u64>,
    pub auth_req: Option<u32>,
    pub irk: Option<Vec<u8>>,
    pub csrk: Option<Vec<u8>>,
    pub csrk_inbound: Option<Vec<u8>>,
}

pub open spec fn opt_bytes(o: Option<Vec<u8>>) -> Option<Seq<u8>> {
    match o {
        Some(b) => Some(b@),
        None => None,
    }
}

pub open spec fn opt_key_text(o: Option<Seq<u8>>) -> Option<Seq<char>> {
    match o {
        Some(b) => registry_key_text(b),
        None => None,
    }
}

/// The values of an LE record, as plain values.
pub struct LeRegistryRecordView {
    pub ltk: Option<Seq<u8>>,
    pub authenticated: Option<u32>,
    pub key_length: Option<u32>,
    pub ediv: Option<u32>,
    pub erand: Option<u64>,
    pub auth_req: Option<u32>,
    pub irk: Option<Seq<u8>>,
    pub csrk: Option<Seq<u8>>,
    pub csrk_inbound: Option<Seq<u8>>,
}

impl View for LeRegistryRecord {
    type V = LeRegistryRecordView;

    open spec fn view(&self) -> LeRegistryRecordView {
        LeRegistryRecordView {
            ltk: opt_bytes(self.ltk),
            authenticated: self.authenticated,
            key_length: self.key_length,
            ediv: self.ediv,
            erand: self.erand,
            auth_req: self.auth_req,
            irk: opt_bytes(self.irk),
            csrk: opt_bytes(self.csrk),
            csrk_inbound: opt_bytes(self.csrk_inbound),
        }
    }
}

/// A registry DWORD stored into a narrower field keeps its low bits.
pub open spec fn low_u8(v: Option<u32>) -> Option<u8> {
    match v {
        Some(x) => Some((x % 256) as u8),
        None => None,
    }
}

pub open spec fn low_u16(v: Option<u32>) -> Option<u16> {
    match v {
        Some(x) => Some((x % 65536) as u16),
        None => None,
    }
}

/// The LTK of a registry record: the key, when it is a 128-bit key, with its
/// metadata and the key type of `spec_windows_ltk_type`.
pub open spec fn spec_ltk_from_registry(r: LeRegistryRecordView) -> Option<LtkView> {
    match opt_key_text(r.ltk) {
        Some(k) => Some(
            LtkView {
                key: k,
                authenticated: Some(
                    spec_windows_ltk_type(low_u8(r.authenticated), r.auth_req, low_u16(r.ediv), r.erand),
                ),
                enc_size: low_u8(r.key_length),
                ediv: low_u16(r.ediv),
                rand: r.erand,
            },
        ),
        None => None,
    }
}

/// A CSRK from the registry, which stores neither counter nor flag.
pub open spec fn csrk_from_text(k: Option<Seq<char>>) -> Option<CsrkView> {
    match k {
        Some(t) => Some(CsrkView { key: t, counter: 0, authenticated: false }),
        None => None,
    }
}

/// The LE bond of a registry record whose identity address type is `address_type`:
/// `None` unless it holds a valid LTK, IRK or CSRK. A registry IRK is in `windows`
/// byte order.
pub open spec fn spec_le_from_registry(r: LeRegistryRecordView, address_type: Option<Seq<char>>) -> Option<
    LeKeysView,
> {
    let ltk = spec_ltk_from_registry(r);
    let irk = opt_key_text(r.irk);
    let csrk_local = csrk_from_text(opt_key_text(r.csrk));
    let csrk_remote = csrk_from_text(opt_key_text(r.csrk_inbound));
    if ltk is None && irk is None && csrk_local is None && csrk_remote is None {
        None
    } else {
        Some(
            LeKeysView {
                ltk,
                peripheral_ltk: None,
                irk,
                irk_encoding: if irk is Some {
                    Some("windows"@)
                } else {
                    None
                },
                csrk_local,
                csrk_remote,
                address_type,
            },
        )
    }
}

fn opt_low_u8(v: Option<u32>) -> (r: Option<u8>)
    ensures
        r == low_u8(v),
{
    match v {
        Some(x) => Some((x % 256) as u8),
        None => None,
    }
}

fn opt_low_u16(v: Option<u32>) -> (r: Option<u16>)
    ensures
        r == low_u16(v),
{
    match v {
        Some(x) => Some((x % 65536) as u16),
        None => None,
    }
}

fn csrk_from_registry(bytes: &Option<Vec<u8>>) -> (r: Option<CsrkKey>)
    ensures
        opt_view(r) == csrk_from_text(opt_key_text(opt_bytes(*bytes))),
{
    match opt_key_from_registry(bytes) {
        Some(k) => Some(CsrkKey::new(k)),
        None => None,
    }
}

/// The LE bond of a registry record (`spec_le_from_registry`).
pub fn le_from_registry(record: &LeRegistryRecord, address_type: Option<String>) -> (r: Option<LeKeys>)
    ensures
        opt_view(r) == spec_le_from_registry(record@, opt_view(address_type)),
{
    let ltk = match opt_key_from_registry(&record.ltk) {
        Some(key) => {
            let authenticated = opt_low_u8(record.authenticated);
            let enc_size = opt_low_u8(record.key_length);
            let ediv = opt_low_u16(record.ediv);
            let rand = record.erand;
            let key_type = windows_ltk_type(authenticated, record.auth_req, ediv, rand);
            Some(LeLongTermKey { key, authenticated: Some(key_type), enc_size, ediv, rand })
        },
        None => None,
    };
    let irk = opt_key_from_registry(&record.irk);
    let csrk_local = csrk_from_registry(&record.csrk);
    let csrk_remote = csrk_from_registry(&record.csrk_inbound);
    if ltk.is_none() && irk.is_none() && csrk_local.is_none() && csrk_remote.is_none() {
        return None;
    }
    let irk_encoding = if irk.is_some() {
        Some(string_from("windows"))
    } else {
        None
    };
    Some(
        LeKeys {
            ltk,
            peripheral_ltk: None,
            irk,
            irk_encoding,
            csrk_local,
            csrk_remote,
            address_type,
        },
    )
}


/// The `width` lowest hexadecimal digits of `n`, upper case, most significant first
/// (`format!("{:012X}", n)` for `width` 12 and `n` below 2^48).
pub open spec fn hex_digits(n: nat, width: nat) -> Seq<char>
    decreases width,
{
    if width == 0 {
        Seq::empty()
    } else {
        hex_digits(n / 16, (width - 1) as nat).push(hex_digit(n % 16))
    }
}

fn hex_digit_exec(d: u64) -> (c: char)
    requires
        d < 16,
    ensures
        c == hex_digit(d as nat),
{
    if d < 10 {
        char_from_ascii((d + 48) as u32)
    } else {
        char_from_ascii((d - 10 + 65) as u32)
    }
}

fn hex_text(n: u64, width: usize) -> (r: Vec<char>)
    ensures
        r@ == hex_digits(n as nat, width as nat),
    decreases width,
{
    if width == 0 {
        Vec::new()
    } else {
        let mut v = hex_text(n / 16, width - 1);
        v.push(hex_digit_exec(n % 16));
        v
    }
}

/// Where an LE bond is stored in the registry (`storage`, the name of its key), the
/// identity address of the peer, and the identity address type when recorded.
#[derive(Debug)]
pub struct LeLocation {
    pub storage: String,
    pub identity: String,
    pub address_type: Option<String>,
}

pub struct LeLocationView {
    pub storage: Seq<char>,
    pub identity: Seq<char>,
    pub address_type: Option<Seq<char>>,
}

impl View for LeLocation {
    type V = LeLocationView;

    open spec fn view(&self) -> LeLocationView {
        LeLocationView {
            storage: self.storage@,
            identity: self.identity@,
            address_type: opt_view(self.address_type),
        }
    }
}

/// The largest 48-bit address.
pub open spec fn max_address() -> nat {
    0xFFFF_FFFF_FFFF
}

/// The lowest static random address: both top bits of the 48-bit address set.
pub open spec fn min_static_random() -> nat {
    0xC000_0000_0000
}

/// The location of the LE record stored under key `storage`, given its `Address` and
/// `AddressType` values. Windows may file a bond under its pairing-time resolvable
/// address; `Address`/`AddressType` then name the identity that the keys belong to.
/// Address type 0 is `public`, 1 `random`; an identity must be a nonzero 48-bit
/// address, and a random one must be static.
pub open spec fn spec_le_location(storage: Seq<char>, address: Option<u64>, address_type: Option<u32>) -> Result<
    LeLocationView,
    Seq<char>,
> {
    let kind: Result<Option<Seq<char>>, Seq<char>> = match address_type {
        Some(t) => if t == 0 {
            Ok(Some("public"@))
        } else if t == 1 {
            Ok(Some("random"@))
        } else {
            Err("Unsupported Windows LE identity address type"@)
        },
        None => Ok(None),
    };
    match kind {
        Err(e) => Err(e),
        Ok(at) => match address {
            Some(a) => if a == 0 || a > max_address() {
                Err("Invalid Windows LE identity address"@)
            } else if at == Some("random"@) && a < min_static_random() {
                Err("Windows LE identity is a temporary random address"@)
            } else {
                Ok(
                    LeLocationView {
                        storage,
                        identity: spec_windows_format_to_mac(hex_digits(a as nat, 12)),
                        address_type: at,
                    },
                )
            },
            None => Ok(
                LeLocationView { storage, identity: spec_windows_format_to_mac(storage), address_type: at },
            ),
        },
    }
}

/// The location of an LE record (`spec_le_location`).
pub fn le_location(storage: &str, address: Option<u64>, address_type: Option<u32>) -> (r: Result<
    LeLocation,
    String,
>)
    ensures
        match spec_le_location(storage@, address, address_type) {
            Ok(l) => r matches Ok(x) && x@ == l,
            Err(e) => r matches Err(x) && x@ == e,
        },
{
    let kind = match address_type {
        Some(t) => if t == 0 {
            Some(string_from("public"))
        } else if t == 1 {
            Some(string_from("random"))
        } else {
            return Err(string_from("Unsupported Windows LE identity address type"));
        },
        None => None,
    };
    let random = match &kind {
        Some(k) => str_eq(k.as_str(), "random"),
        None => false,
    };
    let identity = match address {
        Some(a) => {
            if a == 0 || a > 0xFFFF_FFFF_FFFF {
                return Err(string_from("Invalid Windows LE identity address"));
            }
            if random && a < 0xC000_0000_0000 {
                return Err(string_from("Windows LE identity is a temporary random address"));
            }
            let digits = hex_text(a, 12);
            windows_format_to_mac(string_of(digits.as_slice()).as_str())
        },
        None => windows_format_to_mac(storage),
    };
    Ok(LeLocation { storage: string_from(storage), identity, address_type: kind })
}

/// The address type recorded for the location stored under `storage` (compared
/// without regard to case), from the first such location.
pub open spec fn spec_location_address_type(locations: Seq<LeLocationView>, storage: Seq<char>) -> Option<
    Seq<char>,
>
    decreases locations.len(),
{
    if locations.len() == 0 {
        None
    } else if eq_ignore_case(locations[0].storage, storage) {
        locations[0].address_type
    } else {
        spec_location_address_type(locations.drop_first(), storage)
    }
}

pub open spec fn location_views(v: Seq<LeLocation>) -> Seq<LeLocationView> {
    v.map_values(|l: LeLocation| l@)
}

/// The address type of the record stored under `storage` (`spec_location_address_type`).
pub fn location_address_type(locations: &Vec<LeLocation>, storage: &str) -> (r: Option<String>)
    ensures
        opt_view(r) == spec_location_address_type(location_views(locations@), storage@),
{
    let mut i: usize = 0;
    assert(location_views(locations@).skip(0) =~= location_views(locations@));
    while i < locations.len()
        invariant
            i <= locations.len(),
            spec_location_address_type(location_views(locations@), storage@)
                == spec_location_address_type(location_views(locations@).skip(i as int), storage@),
        decreases locations.len() - i,
    {
        let ghost rest = location_views(locations@).skip(i as int);
        assert(rest[0] == locations@[i as int]@);
        assert(rest.drop_first() =~= location_views(locations@).skip(i + 1));
        if eq_ignore_case_exec(locations[i].storage.as_str(), storage) {
            return crate::bluetooth::clone_opt_string(&locations[i].address_type);
        }
        i = i + 1;
    }
    None
}

/// The storage names of the locations of the peer `identity` (case-insensitive), in
/// order.
pub open spec fn spec_matching_storage(locations: Seq<LeLocationView>, identity: Seq<char>) -> Seq<
    Seq<char>,
>
    decreases locations.len(),
{
    if locations.len() == 0 {
        Seq::empty()
    } else {
        let before = spec_matching_storage(locations.drop_last(), identity);
        if locations.last().identity == upper(identity) {
            before.push(locations.last().storage)
        } else {
            before
        }
    }
}

pub open spec fn string_views(v: Seq<String>) -> Seq<Seq<char>> {
    v.map_values(|s: String| s@)
}

/// The storage names of the records of `identity` (`spec_matching_storage`).
pub fn matching_storage(locations: &Vec<LeLocation>, identity: &str) -> (r: Vec<String>)
    ensures
        string_views(r@) == spec_matching_storage(location_views(locations@), identity@),
{
    let wanted = upper_string(identity);
    let mut r: Vec<String> = Vec::new();
    let mut i: usize = 0;
    while i < locations.len()
        invariant
            i <= locations.len(),
            wanted@ == upper(identity@),
            string_views(r@) == spec_matching_storage(location_views(locations@.take(i as int)), identity@),
        decreases locations.len() - i,
    {
        proof {
            assert(location_views(locations@.take(i + 1)).drop_last() =~= location_views(locations@.take(i as int)));
            assert(location_views(locations@.take(i + 1)).last() == locations@[i as int]@);
        }
        if locations[i].identity == wanted {
            let ghost before = r@;
            r.push(locations[i].storage.clone());
            assert(string_views(r@) =~= string_views(before).push(locations@[i as int].storage@));
        }
        i = i + 1;
    }
    assert(locations@.take(locations.len() as int) =~= locations@);
    r
}

/// The key material of one candidate record of an identity.
#[derive(Debug)]
pub struct LeRecordKeys {
    pub storage: String,
    pub ltk: Option<Vec<u8>>,
    pub irk: Option<Vec<u8>>,
}

pub struct LeRecordKeysView {
    pub storage: Seq<char>,
    pub ltk: Option<Seq<u8>>,
    pub irk: Option<Seq<u8>>,
}

impl View for LeRecordKeys {
    type V = LeRecordKeysView;

    open spec fn view(&self) -> LeRecordKeysView {
        LeRecordKeysView { storage: self.storage@, ltk: opt_bytes(self.ltk), irk: opt_bytes(self.irk) }
    }
}

/// `a` sorts before `b` (`String` order: by characters, a prefix first).
pub open spec fn text_less(a: Seq<char>, b: Seq<char>) -> bool
    decreases a.len(),
{
    if a.len() == 0 {
        b.len() > 0
    } else if b.len() == 0 {
        false
    } else if a[0] != b[0] {
        a[0] < b[0]
    } else {
        text_less(a.drop_first(), b.drop_first())
    }
}

/// The index of the first record whose upper-case storage name sorts lowest.
pub open spec fn first_lowest(c: Seq<LeRecordKeysView>) -> int
    decreases c.len(),
{
    if c.len() <= 1 {
        0
    } else {
        let m = first_lowest(c.drop_last());
        if text_less(upper(c.last().storage), upper(c[m].storage)) {
            c.len() - 1
        } else {
            m
        }
    }
}

/// The records that count: those with an LTK when any has one (a complete bond wins
/// over a stale IRK-only record), else all.
pub open spec fn complete_records(c: Seq<LeRecordKeysView>) -> Seq<LeRecordKeysView> {
    if exists|i: int| 0 <= i < c.len() && (#[trigger] c[i]).ltk is Some {
        c.filter(has_ltk())
    } else {
        c
    }
}

/// Whether a candidate record holds an LTK.
pub open spec fn has_ltk() -> spec_fn(LeRecordKeysView) -> bool {
    |x: LeRecordKeysView| x.ltk is Some
}

/// The records that count among the first `i` (see `complete_records`).
pub open spec fn pool_prefix(c: Seq<LeRecordKeysView>, i: int, any: bool) -> Seq<LeRecordKeysView> {
    if any {
        c.take(i).filter(has_ltk())
    } else {
        c.take(i)
    }
}

/// Whether some record of `p` differs in key material from the first.
pub open spec fn records_conflict(p: Seq<LeRecordKeysView>) -> bool {
    exists|j: int| 0 <= j < p.len() && ((#[trigger] p[j]).ltk != p[0].ltk || p[j].irk != p[0].irk)
}

/// Which record of one identity holds its bond: among `complete_records`, all must
/// carry the same LTK and IRK (else BlueVein refuses to choose); then the one whose
/// storage name sorts first without regard to case, or none without candidates.
pub open spec fn spec_choose_le_storage(c: Seq<LeRecordKeysView>) -> Result<Option<Seq<char>>, Seq<char>> {
    let pool = complete_records(c);
    if pool.len() == 0 {
        Ok(None)
    } else if records_conflict(pool) {
        Err("Conflicting Windows LE records for one identity; refusing to choose a bond"@)
    } else {
        Ok(Some(pool[first_lowest(pool)].storage))
    }
}


pub open spec fn record_views(v: Seq<LeRecordKeys>) -> Seq<LeRecordKeysView> {
    v.map_values(|x: LeRecordKeys| x@)
}

/// `==` on optional byte strings, by content.
fn opt_bytes_eq(a: &Option<Vec<u8>>, b: &Option<Vec<u8>>) -> (r: bool)
    ensures
        r == (opt_bytes(*a) == opt_bytes(*b)),
{
    match (a, b) {
        (Some(x), Some(y)) => {
            if x.len() != y.len() {
                return false;
            }
            let mut i: usize = 0;
            while i < x.len()
                invariant
                    i <= x.len(),
                    x.len() == y.len(),
                    opt_bytes(*a) == Some(x@),
                    opt_bytes(*b) == Some(y@),
                    forall|j: int| 0 <= j < i ==> x@[j] == y@[j],
                decreases x.len() - i,
            {
                if x[i] != y[i] {
                    assert(x@[i as int] != y@[i as int]);
                    assert(x@ != y@);
                    return false;
                }
                i = i + 1;
            }
            assert(x@ =~= y@);
            true
        },
        (None, None) => true,
        _ => false,
    }
}

/// `text_less` on character slices.
fn text_less_exec(a: &[char], b: &[char]) -> (r: bool)
    ensures
        r == text_less(a@, b@),
{
    let mut k: usize = 0;
    assert(a@.skip(0) =~= a@ && b@.skip(0) =~= b@);
    while k < a.len() && k < b.len() && a[k] == b[k]
        invariant
            k <= a.len(),
            k <= b.len(),
            text_less(a@, b@) == text_less(a@.skip(k as int), b@.skip(k as int)),
        decreases a.len() - k,
    {
        proof {
            let (sa, sb) = (a@.skip(k as int), b@.skip(k as int));
            assert(sa.drop_first() =~= a@.skip(k + 1));
            assert(sb.drop_first() =~= b@.skip(k + 1));
        }
        k = k + 1;
    }
    if k == a.len() {
        k < b.len()
    } else if k == b.len() {
        false
    } else {
        a[k] < b[k]
    }
}

proof fn lemma_first_lowest_bounds(c: Seq<LeRecordKeysView>)
    requires
        c.len() > 0,
    ensures
        0 <= first_lowest(c) < c.len(),
    decreases c.len(),
{
    if c.len() > 1 {
        lemma_first_lowest_bounds(c.drop_last());
    }
}

/// The storage of the bond of one identity among its candidate records
/// (`spec_choose_le_storage`).
pub fn choose_le_storage(candidates: &Vec<LeRecordKeys>) -> (r: Result<Option<String>, String>)
    ensures
        match spec_choose_le_storage(record_views(candidates@)) {
            Ok(o) => r matches Ok(x) && opt_view(x) == o,
            Err(e) => r matches Err(x) && x@ == e,
        },
{
    let ghost cv = record_views(candidates@);
    let mut any = false;
    let mut i: usize = 0;
    while i < candidates.len()
        invariant
            i <= candidates.len(),
            cv == record_views(candidates@),
            any == exists|j: int| 0 <= j < i && (#[trigger] cv[j]).ltk is Some,
        decreases candidates.len() - i,
    {
        if candidates[i].ltk.is_some() {
            any = true;
            assert(cv[i as int].ltk is Some);
        }
        i = i + 1;
    }
    let ghost pool = complete_records(cv);
    let mut first: Option<usize> = None;
    let mut best: usize = 0;
    let mut conflict = false;
    let mut i: usize = 0;
    while i < candidates.len()
        invariant
            i <= candidates.len(),
            cv == record_views(candidates@),
            any == exists|j: int| 0 <= j < cv.len() && (#[trigger] cv[j]).ltk is Some,
            first is None <==> pool_prefix(cv, i as int, any).len() == 0,
            first matches Some(f) ==> f < i && cv[f as int] == pool_prefix(cv, i as int, any)[0],
            pool_prefix(cv, i as int, any).len() > 0 ==> best < i && cv[best as int] == pool_prefix(
                cv,
                i as int,
                any,
            )[first_lowest(pool_prefix(cv, i as int, any))],
            conflict == records_conflict(pool_prefix(cv, i as int, any)),
        decreases candidates.len() - i,
    {
        let ghost p = pool_prefix(cv, i as int, any);
        let ghost x = cv[i as int];
        proof {
            if p.len() > 0 {
                lemma_first_lowest_bounds(p);
            }
        }
        proof {
            assert(cv.take(i + 1).drop_last() =~= cv.take(i as int));
            assert(cv.take(i + 1).last() == x);
        }
        let c = &candidates[i];
        if !any || c.ltk.is_some() {
            let ghost q = p.push(x);
            proof {
                reveal(Seq::filter);
                if any {
                    assert(has_ltk()(x));
                    assert(cv.take(i + 1).filter(has_ltk()) == q);
                } else {
                    assert(cv.take(i + 1) =~= q);
                }
                assert(q.drop_last() =~= p);
            }
            match first {
                None => {
                    first = Some(i);
                    best = i;
                    proof {
                        assert(q.len() == 1);
                        assert(first_lowest(q) == 0);
                    }
                },
                Some(f) => {
                    let f_ltk = &candidates[f].ltk;
                    let f_irk = &candidates[f].irk;
                    if !opt_bytes_eq(&c.ltk, f_ltk) || !opt_bytes_eq(&c.irk, f_irk) {
                        conflict = true;
                        assert(q[q.len() - 1] == x);
                    }
                    let bu = upper_string(candidates[best].storage.as_str());
                    let cu = upper_string(c.storage.as_str());
                    let bc = chars_of(bu.as_str());
                    let cc = chars_of(cu.as_str());
                    if text_less_exec(cc.as_slice(), bc.as_slice()) {
                        best = i;
                    }
                    proof {
                        lemma_first_lowest_bounds(p);
                        assert(q.len() > 1);
                        assert(q.last() == x);
                        assert(q[first_lowest(p)] == p[first_lowest(p)]);
                    }
                },
            }
            proof {
                lemma_first_lowest_bounds(q);
                assert forall|j: int| 0 <= j < p.len() implies #[trigger] q[j] == p[j] by {}
                assert(q[0] == cv[first.unwrap() as int]);
            }
        } else {
            proof {
                reveal(Seq::filter);
                assert(!has_ltk()(x));
                assert(cv.take(i + 1).filter(has_ltk()) == p);
            }
        }
        i = i + 1;
    }
    proof {
        assert(cv.take(cv.len() as int) =~= cv);
        if !any {
            assert(pool == cv);
        }
    }
    match first {
        None => Ok(None),
        Some(_) => {
            if conflict {
                Err(string_from("Conflicting Windows LE records for one identity; refusing to choose a bond"))
            } else {
                Ok(Some(candidates[best].storage.clone()))
            }
        },
    }
}


/// What `u64::from_str_radix(s, 16)` reads after its sign: hexadecimal digits from
/// the left into `acc`, failing on the first non-digit or when the value would
/// exceed `u64::MAX`.
pub open spec fn hex_accumulate(s: Seq<char>, acc: nat) -> Result<nat, Seq<char>>
    decreases s.len(),
{
    if s.len() == 0 {
        Ok(acc)
    } else if !is_hex_digit(s[0]) {
        Err("invalid digit found in string"@)
    } else if acc * 16 + hex_val(s[0]) > u64::MAX {
        Err("number too large to fit in target type"@)
    } else {
        hex_accumulate(s.drop_first(), acc * 16 + hex_val(s[0]))
    }
}

/// `u64::from_str_radix(s, 16)`, with the texts of its errors: an optional `+`, then
/// at least one hexadecimal digit.
pub open spec fn spec_parse_hex_u64(s: Seq<char>) -> Result<nat, Seq<char>> {
    if s.len() == 0 {
        Err("cannot parse integer from empty string"@)
    } else if s == seq!['+'] {
        Err("invalid digit found in string"@)
    } else if s[0] == '+' {
        hex_accumulate(s.drop_first(), 0)
    } else {
        hex_accumulate(s, 0)
    }
}

/// `u64::from_str_radix(s, 16)` (`spec_parse_hex_u64`).
pub fn parse_hex_u64(s: &str) -> (r: Result<u64, String>)
    ensures
        match spec_parse_hex_u64(s@) {
            Ok(n) => r matches Ok(x) && x as nat == n,
            Err(e) => r matches Err(x) && x@ == e,
        },
{
    let v = chars_of(s);
    if v.len() == 0 {
        return Err(string_from("cannot parse integer from empty string"));
    }
    if v.len() == 1 && v[0] == '+' {
        assert(v@ =~= seq!['+']);
        return Err(string_from("invalid digit found in string"));
    }
    proof {
        if v@.len() == 1 {
            assert(v@ != seq!['+']);
        }
    }
    let start: usize = if v[0] == '+' {
        1
    } else {
        0
    };
    let ghost body = v@.skip(start as int);
    proof {
        if start == 1 {
            assert(body =~= v@.drop_first());
        } else {
            assert(body =~= v@);
        }
    }
    assert(spec_parse_hex_u64(s@) == hex_accumulate(body, 0));
    let mut acc: u64 = 0;
    let mut i: usize = start;
    while i < v.len()
        invariant
            start <= i <= v.len(),
            body == v@.skip(start as int),
            spec_parse_hex_u64(s@) == hex_accumulate(body, 0),
            hex_accumulate(body, 0) == hex_accumulate(v@.skip(i as int), acc as nat),
        decreases v.len() - i,
    {
        let c = v[i];
        let ghost rest = v@.skip(i as int);
        assert(rest[0] == c);
        assert(rest.drop_first() =~= v@.skip(i + 1));
        if !is_hex_digit_exec(c) {
            return Err(string_from("invalid digit found in string"));
        }
        let d = hex_digit_value(c);
        match acc.checked_mul(16) {
            Some(m) => match m.checked_add(d as u64) {
                Some(n) => {
                    acc = n;
                },
                None => {
                    return Err(string_from("number too large to fit in target type"));
                },
            },
            None => {
                return Err(string_from("number too large to fit in target type"));
            },
        }
        i = i + 1;
    }
    assert(v@.skip(v.len() as int) =~= Seq::<char>::empty());
    Ok(acc)
}

/// A value BlueVein writes into the registry.
#[derive(Debug)]
pub enum RegistryValue {
    Binary(Vec<u8>),
    Dword(u32),
    Qword(u64),
}

pub enum RegistryValueView {
    Binary(Seq<u8>),
    Dword(u32),
    Qword(u64),
}

impl View for RegistryValue {
    type V = RegistryValueView;

    open spec fn view(&self) -> RegistryValueView {
        match self {
            RegistryValue::Binary(b) => RegistryValueView::Binary(b@),
            RegistryValue::Dword(d) => RegistryValueView::Dword(*d),
            RegistryValue::Qword(q) => RegistryValueView::Qword(*q),
        }
    }
}

/// One value to set in a device key.
#[derive(Debug)]
pub struct RegistryWrite {
    pub name: String,
    pub value: RegistryValue,
}

pub struct RegistryWriteView {
    pub name: Seq<char>,
    pub value: RegistryValueView,
}

impl View for RegistryWrite {
    type V = RegistryWriteView;

    open spec fn view(&self) -> RegistryWriteView {
        RegistryWriteView { name: self.name@, value: self.value@ }
    }
}

/// The values to set, in order, and the error that stops the write after them.
#[derive(Debug)]
pub struct WritePlan {
    pub writes: Vec<RegistryWrite>,
    pub error: Option<String>,
}

pub struct PlanView {
    pub writes: Seq<RegistryWriteView>,
    pub error: Option<Seq<char>>,
}

impl View for WritePlan {
    type V = PlanView;

    open spec fn view(&self) -> PlanView {
        PlanView { writes: self.writes@.map_values(|w: RegistryWrite| w@), error: opt_view(self.error) }
    }
}

pub open spec fn no_writes() -> PlanView {
    PlanView { writes: Seq::empty(), error: None }
}

pub open spec fn failed(e: Seq<char>) -> PlanView {
    PlanView { writes: Seq::empty(), error: Some(e) }
}

/// Plan `a`, then plan `b` unless `a` stopped on an error.
pub open spec fn then(a: PlanView, b: PlanView) -> PlanView {
    if a.error is Some {
        a
    } else {
        PlanView { writes: a.writes + b.writes, error: b.error }
    }
}

pub open spec fn binary(name: Seq<char>, b: Seq<u8>) -> RegistryWriteView {
    RegistryWriteView { name, value: RegistryValueView::Binary(b) }
}

pub open spec fn dword(name: Seq<char>, d: u32) -> RegistryWriteView {
    RegistryWriteView { name, value: RegistryValueView::Dword(d) }
}

pub open spec fn qword(name: Seq<char>, q: u64) -> RegistryWriteView {
    RegistryWriteView { name, value: RegistryValueView::Qword(q) }
}

/// The identity address of the peer: `Address` and `AddressType` (0 public, 1
/// random), when the bond records an address type.
pub open spec fn address_plan(le: LeKeysView, mac: Seq<char>) -> PlanView {
    match le.address_type {
        None => no_writes(),
        Some(t) => if t == "public"@ || t == "random"@ {
            match spec_parse_hex_u64(spec_mac_to_windows_format(mac)) {
                Ok(a) => PlanView {
                    writes: seq![
                        qword("Address"@, a as u64),
                        dword(
                            "AddressType"@,
                            if t == "public"@ {
                                0u32
                            } else {
                                1u32
                            },
                        ),
                    ],
                    error: None,
                },
                Err(e) => failed(e),
            }
        } else {
            failed("Unsupported LE address type"@)
        },
    }
}

/// The new `AuthReq` flags: the Secure Connections (`0x08`) and MITM (`0x04`) bits
/// follow the key type, the other bits stay (1, bonding, when there was no value).
pub open spec fn auth_req_value(old: Option<u32>, key_type: u8) -> u32 {
    let base: u32 = match old {
        Some(v) => v,
        None => 1,
    };
    (base & !0x0cu32) | (if key_type & 2 != 0 {
        0x08u32
    } else {
        0u32
    }) | (if key_type & 1 != 0 {
        0x04u32
    } else {
        0u32
    })
}

/// The LTK values: the key, then `Authenticated` (the MITM bit of the key type),
/// `AuthReq`, and `KeyLength`, `EDIV`, `ERand` where known. Windows has no key type
/// above 3.
pub open spec fn ltk_plan(k: Option<LtkView>, auth_req: Option<u32>) -> PlanView {
    match k {
        None => no_writes(),
        Some(k) => if !valid_key_text(k.key) {
            failed(invalid_key_message("LTK"@))
        } else {
            let kt = spec_authenticated_or_default(k.authenticated);
            let key = seq![binary("LTK"@, hex_bytes(k.key))];
            if kt > 3 {
                PlanView { writes: key, error: Some("Unsupported LTK security type for Windows"@) }
            } else {
                let enc: Seq<RegistryWriteView> = match k.enc_size {
                    Some(e) => seq![dword("KeyLength"@, e as u32)],
                    None => Seq::empty(),
                };
                let ediv: Seq<RegistryWriteView> = match k.ediv {
                    Some(e) => seq![dword("EDIV"@, e as u32)],
                    None => Seq::empty(),
                };
                let rand: Seq<RegistryWriteView> = match k.rand {
                    Some(x) => seq![qword("ERand"@, x)],
                    None => Seq::empty(),
                };
                PlanView {
                    writes: key + seq![
                        dword("Authenticated"@, (kt & 1) as u32),
                        dword("AuthReq"@, auth_req_value(auth_req, kt)),
                    ] + enc + ediv + rand,
                    error: None,
                }
            }
        },
    }
}

/// A key stored as a binary value `value_name`; `key_name` names it in the error.
pub open spec fn key_plan(k: Option<Seq<char>>, value_name: Seq<char>, key_name: Seq<char>) -> PlanView {
    match k {
        None => no_writes(),
        Some(t) => if valid_key_text(t) {
            PlanView { writes: seq![binary(value_name, hex_bytes(t))], error: None }
        } else {
            failed(invalid_key_message(key_name))
        },
    }
}

pub open spec fn csrk_key(c: Option<CsrkView>) -> Option<Seq<char>> {
    match c {
        Some(c) => Some(c.key),
        None => None,
    }
}

/// The registry values of the LE bond `le` of device `mac`, given the current
/// `AuthReq` of its record: identity address, LTK, IRK, local CSRK (`CSRK`) and
/// remote CSRK (`CSRKInbound`), in this order, up to the first error.
pub open spec fn spec_le_write_plan(le: LeKeysView, mac: Seq<char>, auth_req: Option<u32>) -> PlanView {
    then(
        then(
            then(then(address_plan(le, mac), ltk_plan(le.ltk, auth_req)), key_plan(le.irk, "IRK"@, "IRK"@)),
            key_plan(csrk_key(le.csrk_local), "CSRK"@, "CSRK (Local)"@),
        ),
        key_plan(csrk_key(le.csrk_remote), "CSRKInbound"@, "CSRK (Remote)"@),
    )
}

/// Why an LE bond cannot be written to the registry at all, checked before the
/// registry is touched: an invalid LTK or an LTK key type above 3.
pub open spec fn spec_check_le_import(le: LeKeysView) -> Result<(), Seq<char>> {
    match le.ltk {
        Some(k) => if !valid_key_text(k.key) {
            Err(invalid_key_message("LTK"@))
        } else if spec_authenticated_or_default(k.authenticated) > 3 {
            Err("Unsupported LTK security type for Windows"@)
        } else {
            Ok(())
        },
        None => Ok(()),
    }
}

/// The check made before an LE bond is written (`spec_check_le_import`).
pub fn check_le_import(le: &LeKeys) -> (r: Result<(), String>)
    ensures
        match spec_check_le_import(le@) {
            Ok(()) => r is Ok,
            Err(e) => r matches Err(x) && x@ == e,
        },
{
    if let Some(k) = &le.ltk {
        validate_bluetooth_key(k.key.as_str(), "LTK")?;
        if k.authenticated_or_default() > 3 {
            return Err(string_from("Unsupported LTK security type for Windows"));
        }
    }
    Ok(())
}

fn write_of(name: &str, value: RegistryValue) -> (r: RegistryWrite)
    ensures
        r@ == (RegistryWriteView { name: name@, value: value@ }),
{
    RegistryWrite { name: string_from(name), value }
}

/// The bytes of a key already checked to be 32 hexadecimal digits.
fn key_bytes(key: &str) -> (r: Vec<u8>)
    requires
        valid_key_text(key@),
    ensures
        r@ == hex_bytes(key@),
{
    match hex_decode(key) {
        Ok(b) => b,
        Err(_) => {
            assert(false);
            Vec::new()
        },
    }
}

/// Appends `part` to `plan` (`then`); whether it stopped on an error.
fn append_plan(plan: &mut WritePlan, part: WritePlan) -> (stopped: bool)
    requires
        old(plan).error is None,
    ensures
        final(plan)@ == then(old(plan)@, part@),
        stopped == final(plan).error.is_some(),
{
    let WritePlan { writes, error } = part;
    let mut writes = writes;
    let ghost pw = plan.writes@;
    let ghost ow = writes@;
    plan.writes.append(&mut writes);
    plan.error = error;
    proof {
        assert(plan@.writes =~= pw.map_values(|w: RegistryWrite| w@) + ow.map_values(
            |w: RegistryWrite| w@,
        ));
    }
    plan.error.is_some()
}


fn empty_plan() -> (r: WritePlan)
    ensures
        r@ == no_writes(),
{
    let r = WritePlan { writes: Vec::new(), error: None };
    assert(r@.writes =~= Seq::<RegistryWriteView>::empty());
    r
}

fn failed_plan(e: String) -> (r: WritePlan)
    ensures
        r@ == failed(e@),
{
    let r = WritePlan { writes: Vec::new(), error: Some(e) };
    assert(r@.writes =~= Seq::<RegistryWriteView>::empty());
    r
}

fn push_write(plan: &mut WritePlan, name: &str, value: RegistryValue)
    ensures
        final(plan)@ == (PlanView {
            writes: old(plan)@.writes.push(RegistryWriteView { name: name@, value: value@ }),
            error: old(plan)@.error,
        }),
{
    let ghost before = plan.writes@;
    let w = write_of(name, value);
    plan.writes.push(w);
    assert(plan@.writes =~= before.map_values(|w: RegistryWrite| w@).push(w@));
}

fn address_part(le: &LeKeys, mac: &str) -> (r: WritePlan)
    ensures
        r@ == address_plan(le@, mac@),
{
    match &le.address_type {
        None => empty_plan(),
        Some(t) => {
            let public = str_eq(t.as_str(), "public");
            let random = str_eq(t.as_str(), "random");
            if !public && !random {
                return failed_plan(string_from("Unsupported LE address type"));
            }
            let text = mac_to_windows_format(mac);
            match parse_hex_u64(text.as_str()) {
                Ok(a) => {
                    let mut plan = empty_plan();
                    push_write(&mut plan, "Address", RegistryValue::Qword(a));
                    let kind: u32 = if public {
                        0
                    } else {
                        1
                    };
                    push_write(&mut plan, "AddressType", RegistryValue::Dword(kind));
                    assert(plan@.writes =~= seq![
                        qword("Address"@, a),
                        dword("AddressType"@, kind),
                    ]);
                    plan
                },
                Err(e) => failed_plan(e),
            }
        },
    }
}

/// The new `AuthReq` flags (`auth_req_value`).
fn auth_req_flags(old: Option<u32>, key_type: u8) -> (r: u32)
    ensures
        r == auth_req_value(old, key_type),
{
    let base: u32 = match old {
        Some(v) => v,
        None => 1,
    };
    (base & !0x0cu32) | (if key_type & 2 != 0 {
        0x08u32
    } else {
        0u32
    }) | (if key_type & 1 != 0 {
        0x04u32
    } else {
        0u32
    })
}

fn ltk_part(k: &Option<LeLongTermKey>, auth_req: Option<u32>) -> (r: WritePlan)
    ensures
        r@ == ltk_plan(opt_view(*k), auth_req),
{
    match k {
        None => empty_plan(),
        Some(k) => {
            if let Err(e) = validate_bluetooth_key(k.key.as_str(), "LTK") {
                return failed_plan(e);
            }
            let mut plan = empty_plan();
            push_write(&mut plan, "LTK", RegistryValue::Binary(key_bytes(k.key.as_str())));
            let kt = k.authenticated_or_default();
            if kt > 3 {
                plan.error = Some(string_from("Unsupported LTK security type for Windows"));
                return plan;
            }
            push_write(&mut plan, "Authenticated", RegistryValue::Dword((kt & 1) as u32));
            push_write(&mut plan, "AuthReq", RegistryValue::Dword(auth_req_flags(auth_req, kt)));
            let ghost head = plan@.writes;
            assert(head =~= seq![binary("LTK"@, hex_bytes(k.key@))] + seq![
                dword("Authenticated"@, (kt & 1) as u32),
                dword("AuthReq"@, auth_req_value(auth_req, kt)),
            ]);
            if let Some(e) = k.enc_size {
                push_write(&mut plan, "KeyLength", RegistryValue::Dword(e as u32));
            }
            let ghost with_enc = plan@.writes;
            if let Some(e) = k.ediv {
                push_write(&mut plan, "EDIV", RegistryValue::Dword(e as u32));
            }
            let ghost with_ediv = plan@.writes;
            if let Some(x) = k.rand {
                push_write(&mut plan, "ERand", RegistryValue::Qword(x));
            }
            proof {
                let enc: Seq<RegistryWriteView> = match k.enc_size {
                    Some(e) => seq![dword("KeyLength"@, e as u32)],
                    None => Seq::empty(),
                };
                let ediv: Seq<RegistryWriteView> = match k.ediv {
                    Some(e) => seq![dword("EDIV"@, e as u32)],
                    None => Seq::empty(),
                };
                let rand: Seq<RegistryWriteView> = match k.rand {
                    Some(x) => seq![qword("ERand"@, x)],
                    None => Seq::empty(),
                };
                assert(with_enc =~= head + enc);
                assert(with_ediv =~= head + enc + ediv);
                assert(plan@.writes =~= head + enc + ediv + rand);
            }
            plan
        },
    }
}

fn key_part(k: &Option<String>, value_name: &str, key_name: &str) -> (r: WritePlan)
    ensures
        r@ == key_plan(opt_view(*k), value_name@, key_name@),
{
    match k {
        None => empty_plan(),
        Some(t) => {
            if let Err(e) = validate_bluetooth_key(t.as_str(), key_name) {
                return failed_plan(e);
            }
            let mut plan = empty_plan();
            push_write(&mut plan, value_name, RegistryValue::Binary(key_bytes(t.as_str())));
            plan
        },
    }
}

fn csrk_key_exec(c: &Option<CsrkKey>) -> (r: Option<String>)
    ensures
        opt_view(r) == csrk_key(opt_view(*c)),
{
    match c {
        Some(c) => Some(c.key.clone()),
        None => None,
    }
}

/// The registry values of an LE bond (`spec_le_write_plan`); `auth_req` is the
/// current `AuthReq` of the record, if it has one.
pub fn le_write_plan(le: &LeKeys, device_mac: &str, auth_req: Option<u32>) -> (r: WritePlan)
    ensures
        r@ == spec_le_write_plan(le@, device_mac@, auth_req),
{
    let mut plan = address_part(le, device_mac);
    if plan.error.is_some() {
        return plan;
    }
    if append_plan(&mut plan, ltk_part(&le.ltk, auth_req)) {
        return plan;
    }
    if append_plan(&mut plan, key_part(&le.irk, "IRK", "IRK")) {
        return plan;
    }
    if append_plan(&mut plan, key_part(&csrk_key_exec(&le.csrk_local), "CSRK", "CSRK (Local)")) {
        return plan;
    }
    append_plan(&mut plan, key_part(&csrk_key_exec(&le.csrk_remote), "CSRKInbound", "CSRK (Remote)"));
    plan
}

/// The registry value of a Classic bond: the bytes of its link key, which must be
/// 32 hexadecimal digits.
pub fn classic_registry_value(classic: &ClassicKeys) -> (r: Result<Vec<u8>, String>)
    ensures
        valid_key_text(classic.link_key@) ==> (r matches Ok(b) && b@ == hex_bytes(classic.link_key@)),
        !valid_key_text(classic.link_key@) ==> (r matches Err(e) && e@ == invalid_key_message(
            "LinkKey"@,
        )),
{
    validate_bluetooth_key(classic.link_key.as_str(), "LinkKey")?;
    Ok(key_bytes(classic.link_key.as_str()))
}


/// The same LTK in the shared alias and the live bond: key (up to case), EDIV, Rand
/// and encryption size.
pub open spec fn same_migrated_ltk(a: Option<LtkView>, b: Option<LtkView>) -> bool {
    match (a, b) {
        (Some(x), Some(y)) => eq_ignore_case(x.key, y.key) && x.ediv == y.ediv && x.rand == y.rand
            && x.enc_size == y.enc_size,
        _ => false,
    }
}

/// The same IRK (up to case) in the shared alias and the live bond.
pub open spec fn same_migrated_irk(a: Option<Seq<char>>, b: Option<Seq<char>>) -> bool {
    match (a, b) {
        (Some(x), Some(y)) => eq_ignore_case(x, y),
        _ => false,
    }
}

/// The LE part of the migrated record: the live bond; a peripheral-role key of the
/// shared record is replaced by a Secure Connections LTK (one key serves both roles),
/// kept when it is the live legacy key, and otherwise a conflict.
pub open spec fn migrated_alias_le(live: LeKeysView, previous_peripheral: Option<LtkView>) -> Result<
    LeKeysView,
    Seq<char>,
> {
    match previous_peripheral {
        None => Ok(live),
        Some(old) => match live.ltk {
            None => Err("Missing LTK"@),
            Some(ltk) => if ltk.authenticated == Some(2u8) || ltk.authenticated == Some(3u8) {
                Ok(LeKeysView { peripheral_ltk: Some(ltk), ..live })
            } else if eq_ignore_case(old.key, ltk.key) {
                Ok(LeKeysView { peripheral_ltk: Some(old), ..live })
            } else {
                Err("Legacy role-specific LTK conflict requires explicit resolution"@)
            },
        },
    }
}

/// Moving the shared record of `alias` (the storage address under which Windows
/// filed an LE bond) to the peer's `identity`, given the live bond `current` of that
/// identity. Only a verified alias moves: its LTK and IRK must be those of the live
/// bond. The record of the identity (or else the live bond) receives the live LE keys
/// and, when it has none, the live Classic key; the alias record is removed. Nothing
/// happens when the alias is the identity or the configuration has no alias record.
pub open spec fn spec_migrate_alias(
    c: ConfigMap,
    adapter: Seq<char>,
    alias: Seq<char>,
    identity: Seq<char>,
    current: DeviceView,
) -> Result<ConfigMap, Seq<char>> {
    if alias == identity {
        Ok(c)
    } else {
        match config_device(c, adapter, alias) {
            None => Ok(c),
            Some(old_alias) => match current.le {
                None => Err("Missing live LE bond during identity migration"@),
                Some(live) => match old_alias.le {
                    None => Err("Legacy alias has no LE bond"@),
                    Some(old_le) => if !same_migrated_ltk(old_le.ltk, live.ltk) || !same_migrated_irk(
                        old_le.irk,
                        live.irk,
                    ) {
                        Err("Legacy EFI alias differs from the live Windows bond; refusing automatic migration"@)
                    } else {
                        let canonical = match config_device(c, adapter, identity) {
                            Some(d) => d,
                            None => current,
                        };
                        let previous = match canonical.le {
                            Some(le) => le.peripheral_ltk,
                            None => None,
                        };
                        match migrated_alias_le(live, previous) {
                            Err(e) => Err(e),
                            Ok(new_le) => {
                                let updated = DeviceView {
                                    mac_address: identity,
                                    le: Some(new_le),
                                    classic: if canonical.classic is None {
                                        current.classic
                                    } else {
                                        canonical.classic
                                    },
                                    ..canonical
                                };
                                let moved = c.insert(
                                    adapter,
                                    adapter_devices(c, adapter).insert(identity, updated),
                                );
                                Ok(moved.insert(adapter, moved[adapter].remove(alias)))
                            },
                        }
                    },
                },
            },
        }
    }
}

fn same_migrated_ltk_exec(a: &Option<LeLongTermKey>, b: &Option<LeLongTermKey>) -> (r: bool)
    ensures
        r == same_migrated_ltk(opt_view(*a), opt_view(*b)),
{
    match (a, b) {
        (Some(x), Some(y)) => eq_ignore_case_exec(x.key.as_str(), y.key.as_str()) && x.ediv == y.ediv
            && x.rand == y.rand && x.enc_size == y.enc_size,
        _ => false,
    }
}

fn same_migrated_irk_exec(a: &Option<String>, b: &Option<String>) -> (r: bool)
    ensures
        r == same_migrated_irk(opt_view(*a), opt_view(*b)),
{
    match (a, b) {
        (Some(x), Some(y)) => eq_ignore_case_exec(x.as_str(), y.as_str()),
        _ => false,
    }
}

/// Moves a verified alias record to its identity (`spec_migrate_alias`); on an error
/// the configuration is unchanged.
pub fn migrate_alias(
    config: &mut BlueVeinConfig,
    adapter: &str,
    alias: &str,
    identity: &str,
    current: &BluetoothDevice,
) -> (r: Result<(), String>)
    ensures
        match spec_migrate_alias(old(config)@, adapter@, alias@, identity@, current@) {
            Ok(c) => r is Ok && final(config)@ == c,
            Err(e) => r matches Err(x) && x@ == e && final(config)@ == old(config)@,
        },
{
    if str_eq(alias, identity) {
        return Ok(());
    }
    let old_alias = match config.get_device(adapter, alias) {
        Some(d) => d.clone(),
        None => {
            return Ok(());
        },
    };
    let live = match &current.le {
        Some(le) => le,
        None => {
            return Err(string_from("Missing live LE bond during identity migration"));
        },
    };
    let old_le = match &old_alias.le {
        Some(le) => le,
        None => {
            return Err(string_from("Legacy alias has no LE bond"));
        },
    };
    if !same_migrated_ltk_exec(&old_le.ltk, &live.ltk) || !same_migrated_irk_exec(&old_le.irk, &live.irk) {
        return Err(
            string_from(
                "Legacy EFI alias differs from the live Windows bond; refusing automatic migration",
            ),
        );
    }
    let mut canonical = match config.get_device(adapter, identity) {
        Some(d) => d.clone(),
        None => current.clone(),
    };
    let previous = match &canonical.le {
        Some(le) => crate::bluetooth::clone_opt_ltk(&le.peripheral_ltk),
        None => None,
    };
    let mut new_le = live.clone();
    match previous {
        None => {},
        Some(old) => {
            let ltk = match &live.ltk {
                Some(k) => k,
                None => {
                    return Err(string_from("Missing LTK"));
                },
            };
            let sc = match ltk.authenticated {
                Some(a) => a == 2 || a == 3,
                None => false,
            };
            if sc {
                new_le.peripheral_ltk = Some(ltk.clone());
            } else if eq_ignore_case_exec(old.key.as_str(), ltk.key.as_str()) {
                new_le.peripheral_ltk = Some(old);
            } else {
                return Err(string_from("Legacy role-specific LTK conflict requires explicit resolution"));
            }
        },
    }
    canonical.mac_address = string_from(identity);
    canonical.le = Some(new_le);
    if canonical.classic.is_none() {
        canonical.classic = match &current.classic {
            Some(c) => Some(c.clone()),
            None => None,
        };
    }
    config.update_device(string_from(adapter), canonical);
    config.remove_device(adapter, alias);
    Ok(())
}

/// The bond of `device_mac` from what the registry holds for it; an error when it
/// holds neither a Classic nor an LE bond.
pub fn windows_device(device_mac: &str, classic: Option<ClassicKeys>, le: Option<LeKeys>) -> (r: Result<
    BluetoothDevice,
    String,
>)
    ensures
        classic is None && le is None ==> (r matches Err(e) && e@ == "Device "@ + device_mac@
            + " not found"@),
        classic is Some || le is Some ==> (r matches Ok(d) && d@ == (DeviceView {
            mac_address: upper(device_mac@),
            name: None,
            pending_deletion: None,
            classic: opt_view(classic),
            le: opt_view(le),
        })),
{
    if classic.is_none() && le.is_none() {
        let mut msg = string_from("Device ");
        push_chars(&mut msg, chars_of(device_mac).as_slice());
        push_chars(&mut msg, chars_of(" not found").as_slice());
        return Err(msg);
    }
    Ok(BluetoothDevice { mac_address: normalize_mac(device_mac), name: None, pending_deletion: None, classic, le })
}


proof fn lemma_text_less_irreflexive(a: Seq<char>)
    ensures
        !text_less(a, a),
    decreases a.len(),
{
    if a.len() > 0 {
        lemma_text_less_irreflexive(a.drop_first());
    }
}

proof fn lemma_text_less_transitive(a: Seq<char>, b: Seq<char>, c: Seq<char>)
    requires
        text_less(a, b),
        text_less(b, c),
    ensures
        text_less(a, c),
    decreases a.len(),
{
    if a.len() > 0 && b.len() > 0 && c.len() > 0 && a[0] == b[0] && b[0] == c[0] {
        lemma_text_less_transitive(a.drop_first(), b.drop_first(), c.drop_first());
    }
}

proof fn lemma_text_less_total(a: Seq<char>, b: Seq<char>)
    requires
        a != b,
    ensures
        text_less(a, b) || text_less(b, a),
    decreases a.len(),
{
    if a.len() == 0 || b.len() == 0 {
        if a.len() == 0 && b.len() == 0 {
            assert(a =~= b);
        }
    } else if a[0] == b[0] {
        if a.drop_first() == b.drop_first() {
            assert(a =~= seq![a[0]] + a.drop_first());
            assert(b =~= seq![b[0]] + b.drop_first());
        }
        lemma_text_less_total(a.drop_first(), b.drop_first());
        assert(text_less(a, b) == text_less(a.drop_first(), b.drop_first()));
        assert(text_less(b, a) == text_less(b.drop_first(), a.drop_first()));
    } else {
        assert(a[0] < b[0] || b[0] < a[0]);
    }
}

/// Strictly increasing in `String` order, so without repetition.
pub open spec fn sorted_texts(s: Seq<Seq<char>>) -> bool {
    forall|i: int, j: int| 0 <= i < j < s.len() ==> text_less(#[trigger] s[i], #[trigger] s[j])
}

/// Adds `x` to an ordered set of addresses kept as a sorted vector.
fn insert_sorted(v: &mut Vec<String>, x: String)
    requires
        sorted_texts(string_views(old(v)@)),
    ensures
        sorted_texts(string_views(final(v)@)),
        string_views(final(v)@).to_set() == string_views(old(v)@).to_set().insert(x@),
{
    let ghost s0 = string_views(v@);
    let xc = chars_of(x.as_str());
    let mut k: usize = 0;
    let mut stop = false;
    while k < v.len() && !stop
        invariant
            k <= v.len(),
            v@ == old(v)@,
            s0 == string_views(v@),
            xc@ == x@,
            forall|j: int| 0 <= j < k ==> text_less(#[trigger] s0[j], x@),
            stop ==> k < v.len() && !text_less(s0[k as int], x@),
        decreases v.len() - k + if stop { 0int } else { 1int },
    {
        let vc = chars_of(v[k].as_str());
        if !text_less_exec(vc.as_slice(), xc.as_slice()) {
            stop = true;
        } else {
            k = k + 1;
        }
    }
    if k < v.len() && v[k] == x {
        proof {
            assert(s0[k as int] == x@);
            assert(s0.to_set().insert(x@) =~= s0.to_set());
        }
        return;
    }
    let ghost before = v@;
    v.insert(k, x);
    proof {
        let s1 = string_views(v@);
        assert(s1 =~= s0.take(k as int).push(x@) + s0.skip(k as int));
        if k < s0.len() {
            assert(s0[k as int] != x@);
            assert(!text_less(s0[k as int], x@));
            lemma_text_less_total(s0[k as int], x@);
        }
        assert forall|i: int, j: int| 0 <= i < j < s1.len() implies text_less(#[trigger] s1[i], #[trigger] s1[j]) by {
            if j < k {
            } else if j == k {
            } else if i == k {
                lemma_text_less_transitive_chain(s0, k as int, j - 1);
                if j - 1 > k {
                    lemma_text_less_transitive(x@, s0[k as int], s0[j - 1]);
                }
            } else if i < k {
                if j - 1 >= k as int {
                    assert(text_less(s0[i], x@));
                    if j - 1 == k as int {
                        lemma_text_less_transitive(s0[i], x@, s0[k as int]);
                    } else {
                        assert(text_less(s0[i], s0[j - 1]));
                    }
                }
            } else {
                assert(s1[i] == s0[i - 1] && s1[j] == s0[j - 1]);
            }
        }
        assert forall|y: Seq<char>| s1.to_set().contains(y) <==> s0.to_set().insert(x@).contains(y) by {
            if s1.to_set().contains(y) {
                let t = choose|t: int| 0 <= t < s1.len() && s1[t] == y;
                if t < k {
                    assert(s0[t] == y);
                } else if t > k {
                    assert(s0[t - 1] == y);
                }
            }
            if s0.to_set().contains(y) {
                let t = choose|t: int| 0 <= t < s0.len() && s0[t] == y;
                if t < k {
                    assert(s1[t] == y);
                } else {
                    assert(s1[t + 1] == y);
                }
            }
            if y == x@ {
                assert(s1[k as int] == y);
            }
        }
        assert(s1.to_set() =~= s0.to_set().insert(x@));
    }
}

proof fn lemma_text_less_transitive_chain(s: Seq<Seq<char>>, i: int, j: int)
    requires
        sorted_texts(s),
        0 <= i <= j < s.len(),
    ensures
        i < j ==> text_less(s[i], s[j]),
{
}


/// The MAC addresses named by registry keys or values, in order: names of twelve
/// hexadecimal digits, converted; other names are skipped.
pub open spec fn registry_addresses(names: Seq<Seq<char>>) -> Seq<Seq<char>>
    decreases names.len(),
{
    if names.len() == 0 {
        Seq::empty()
    } else {
        let before = registry_addresses(names.drop_last());
        if spec_is_valid_mac_hex(names.last()) {
            before.push(spec_windows_format_to_mac(names.last()))
        } else {
            before
        }
    }
}

/// The adapters of the registry store: its subkeys named by an address
/// (`registry_addresses`).
pub fn registry_adapters(names: &Vec<String>) -> (r: Vec<String>)
    ensures
        string_views(r@) == registry_addresses(string_views(names@)),
{
    let mut r: Vec<String> = Vec::new();
    let mut i: usize = 0;
    while i < names.len()
        invariant
            i <= names.len(),
            string_views(r@) == registry_addresses(string_views(names@.take(i as int))),
        decreases names.len() - i,
    {
        proof {
            assert(string_views(names@.take(i + 1)).drop_last() =~= string_views(names@.take(i as int)));
            assert(string_views(names@.take(i + 1)).last() == names@[i as int]@);
        }
        if is_valid_mac_hex(names[i].as_str()) {
            let ghost before = r@;
            r.push(windows_format_to_mac(names[i].as_str()));
            assert(string_views(r@) =~= string_views(before).push(r@.last()@));
        }
        i = i + 1;
    }
    assert(names@.take(names.len() as int) =~= names@);
    r
}

/// The devices of an adapter: the addresses of its Classic values (`value_names`)
/// and the identities of its LE records, each once, in `String` order.
pub fn registry_device_addresses(value_names: &Vec<String>, locations: &Vec<LeLocation>) -> (r: Vec<
    String,
>)
    ensures
        sorted_texts(string_views(r@)),
        string_views(r@).to_set() == registry_addresses(string_views(value_names@)).to_set()
            + location_views(locations@).map_values(|l: LeLocationView| l.identity).to_set(),
{
    let classic = registry_adapters(value_names);
    let mut r: Vec<String> = Vec::new();
    let ghost a = string_views(classic@);
    let ghost b = location_views(locations@).map_values(|l: LeLocationView| l.identity);
    proof {
        assert(string_views(r@).to_set() =~= Set::<Seq<char>>::empty());
        assert(a.take(0).to_set() =~= Set::<Seq<char>>::empty());
    }
    let mut i: usize = 0;
    while i < classic.len()
        invariant
            i <= classic.len(),
            a == string_views(classic@),
            sorted_texts(string_views(r@)),
            string_views(r@).to_set() == a.take(i as int).to_set(),
        decreases classic.len() - i,
    {
        insert_sorted(&mut r, classic[i].clone());
        proof {
            assert(a.take(i + 1) =~= a.take(i as int).push(a[i as int]));
            a.take(i as int).lemma_push_to_set_commute(a[i as int]);
        }
        i = i + 1;
    }
    assert(a.take(classic.len() as int) =~= a);
    let mut j: usize = 0;
    assert(b.take(0).to_set() =~= Set::<Seq<char>>::empty());
    while j < locations.len()
        invariant
            j <= locations.len(),
            b == location_views(locations@).map_values(|l: LeLocationView| l.identity),
            sorted_texts(string_views(r@)),
            string_views(r@).to_set() == a.to_set() + b.take(j as int).to_set(),
        decreases locations.len() - j,
    {
        insert_sorted(&mut r, locations[j].identity.clone());
        proof {
            assert(b[j as int] == locations@[j as int].identity@);
            assert(b.take(j + 1) =~= b.take(j as int).push(b[j as int]));
            b.take(j as int).lemma_push_to_set_commute(b[j as int]);
            assert(a.to_set() + b.take(j + 1).to_set() =~= (a.to_set() + b.take(j as int).to_set()).insert(
                b[j as int],
            ));
        }
        j = j + 1;
    }
    assert(b.take(locations.len() as int) =~= b);
    r
}

/// The addresses equal to the canonical form of `filter`.
pub fn keep_address(addresses: Vec<String>, filter: &str) -> (r: Vec<String>)
    ensures
        string_views(r@) == string_views(addresses@).filter(|a: Seq<char>| a == upper(filter@)),
{
    let wanted = normalize_mac(filter);
    let mut r: Vec<String> = Vec::new();
    let mut i: usize = 0;
    proof {
        reveal(Seq::filter);
    }
    while i < addresses.len()
        invariant
            i <= addresses.len(),
            wanted@ == upper(filter@),
            string_views(r@) == string_views(addresses@.take(i as int)).filter(
                |a: Seq<char>| a == upper(filter@),
            ),
        decreases addresses.len() - i,
    {
        proof {
            reveal(Seq::filter);
            assert(string_views(addresses@.take(i + 1)).drop_last() =~= string_views(addresses@.take(i as int)));
            assert(string_views(addresses@.take(i + 1)).last() == addresses@[i as int]@);
        }
        if addresses[i] == wanted {
            let ghost before = r@;
            r.push(addresses[i].clone());
            assert(string_views(r@) =~= string_views(before).push(addresses@[i as int]@));
        }
        i = i + 1;
    }
    assert(addresses@.take(addresses.len() as int) =~= addresses@);
    r
}


/// The bonds whose address is the canonical form of `filter`.
pub fn keep_device(devices: Vec<BluetoothDevice>, filter: &str) -> (r: Vec<BluetoothDevice>)
    ensures
        r@ == devices@.filter(|d: BluetoothDevice| d.mac_address@ == upper(filter@)),
{
    let wanted = normalize_mac(filter);
    let mut r: Vec<BluetoothDevice> = Vec::new();
    let mut i: usize = 0;
    while i < devices.len()
        invariant
            i <= devices.len(),
            wanted@ == upper(filter@),
            r@ == devices@.take(i as int).filter(|d: BluetoothDevice| d.mac_address@ == upper(filter@)),
        decreases devices.len() - i,
    {
        proof {
            reveal(Seq::filter);
            assert(devices@.take(i + 1).drop_last() =~= devices@.take(i as int));
        }
        if devices[i].mac_address == wanted {
            r.push(devices[i].clone());
        }
        i = i + 1;
    }
    assert(devices@.take(devices.len() as int) =~= devices@);
    r
}


proof fn lemma_upper_idempotent(s: Seq<char>)
    ensures
        upper(upper(s)) == upper(s),
{
    assert(upper(upper(s)) =~= upper(s));
}

/// A record read back from the registry reads back the same: the projection is
/// idempotent, so text case alone is never a key change.
pub proof fn lemma_projection_idempotent(d: DeviceView)
    ensures
        spec_registry_projection(spec_registry_projection(d)) == spec_registry_projection(d),
{
    match d.classic {
        Some(c) => lemma_upper_idempotent(c.link_key),
        None => {},
    }
    match d.le {
        Some(le) => {
            match le.ltk {
                Some(k) => lemma_upper_idempotent(k.key),
                None => {},
            }
            match le.irk {
                Some(k) => lemma_upper_idempotent(k),
                None => {},
            }
            match le.csrk_local {
                Some(c) => lemma_upper_idempotent(c.key),
                None => {},
            }
            match le.csrk_remote {
                Some(c) => lemma_upper_idempotent(c.key),
                None => {},
            }
        },
        None => {},
    }
}

/// The key texts of a bond in upper case, everything else kept.
pub open spec fn case_folded(d: DeviceView) -> DeviceView {
    DeviceView {
        classic: match d.classic {
            Some(c) => Some(ClassicKeysView { link_key: upper(c.link_key), ..c }),
            None => None,
        },
        le: match d.le {
            Some(le) => Some(
                LeKeysView {
                    ltk: match le.ltk {
                        Some(k) => Some(LtkView { key: upper(k.key), ..k }),
                        None => None,
                    },
                    peripheral_ltk: match le.peripheral_ltk {
                        Some(k) => Some(LtkView { key: upper(k.key), ..k }),
                        None => None,
                    },
                    irk: match le.irk {
                        Some(k) => Some(upper(k)),
                        None => None,
                    },
                    csrk_local: match le.csrk_local {
                        Some(c) => Some(CsrkView { key: upper(c.key), ..c }),
                        None => None,
                    },
                    csrk_remote: match le.csrk_remote {
                        Some(c) => Some(CsrkView { key: upper(c.key), ..c }),
                        None => None,
                    },
                    ..le
                },
            ),
            None => None,
        },
        ..d
    }
}

/// The registry projection of a bond is that of its key texts in upper case.
proof fn lemma_projection_of_folded(d: DeviceView)
    ensures
        spec_registry_projection(case_folded(d)) == spec_registry_projection(d),
{
    lemma_projection_idempotent(d);
    match d.classic {
        Some(c) => lemma_upper_idempotent(c.link_key),
        None => {},
    }
    match d.le {
        Some(le) => {
            match le.ltk {
                Some(k) => lemma_upper_idempotent(k.key),
                None => {},
            }
            match le.irk {
                Some(k) => lemma_upper_idempotent(k),
                None => {},
            }
            match le.csrk_local {
                Some(c) => lemma_upper_idempotent(c.key),
                None => {},
            }
            match le.csrk_remote {
                Some(c) => lemma_upper_idempotent(c.key),
                None => {},
            }
        },
        None => {},
    }
}

/// Hexadecimal case is not a key change on Windows: two bonds that differ only in the
/// case of their key texts have the same registry projection.
pub proof fn lemma_projection_ignores_case(a: DeviceView, b: DeviceView)
    requires
        case_folded(a) == case_folded(b),
    ensures
        spec_registry_projection(a) == spec_registry_projection(b),
{
    lemma_projection_of_folded(a);
    lemma_projection_of_folded(b);
}

/// A Secure Connections re-key on Windows replaces a stale shared peripheral-role
/// key: after the export is merged into the shared record, both roles carry the new
/// LTK. A legacy key leaves the shared peripheral key alone.
pub proof fn lemma_sc_rekey_replaces_peripheral(local: DeviceView, shared: DeviceView)
    requires
        local.le matches Some(l) && l.ltk is Some,
        shared.le matches Some(s) && s.peripheral_ltk is Some,
    ensures
        ({
            let k = local.le.unwrap().ltk.unwrap();
            let merged = merge_devices_view(shared, spec_windows_export(local, shared)).le.unwrap();
            &&& (k.authenticated == Some(2u8) || k.authenticated == Some(3u8)) ==> merged.ltk == Some(k)
                && merged.peripheral_ltk == Some(k)
            &&& !(k.authenticated == Some(2u8) || k.authenticated == Some(3u8))
                && local.le.unwrap().peripheral_ltk is None ==> merged.peripheral_ltk
                == shared.le.unwrap().peripheral_ltk
        }),
{
}

/// Migrating an alias is done once: after a successful migration the alias record is
/// gone, and migrating again changes nothing.
pub proof fn lemma_migrate_alias_once(
    c: ConfigMap,
    adapter: Seq<char>,
    alias: Seq<char>,
    identity: Seq<char>,
    current: DeviceView,
)
    requires
        spec_migrate_alias(c, adapter, alias, identity, current) is Ok,
    ensures
        ({
            let once = spec_migrate_alias(c, adapter, alias, identity, current)->Ok_0;
            spec_migrate_alias(once, adapter, alias, identity, current) == Ok::<ConfigMap, Seq<char>>(once)
        }),
{
}


/// A record without values.
pub open spec fn empty_record() -> LeRegistryRecordView {
    LeRegistryRecordView {
        ltk: None,
        authenticated: None,
        key_length: None,
        ediv: None,
        erand: None,
        auth_req: None,
        irk: None,
        csrk: None,
        csrk_inbound: None,
    }
}

/// The bond values of a record after setting value `w`; other values (such as the
/// identity address) do not change them.
pub open spec fn apply_write(r: LeRegistryRecordView, w: RegistryWriteView) -> LeRegistryRecordView {
    match w.value {
        RegistryValueView::Binary(b) => if w.name == "LTK"@ {
            LeRegistryRecordView { ltk: Some(b), ..r }
        } else if w.name == "IRK"@ {
            LeRegistryRecordView { irk: Some(b), ..r }
        } else if w.name == "CSRK"@ {
            LeRegistryRecordView { csrk: Some(b), ..r }
        } else if w.name == "CSRKInbound"@ {
            LeRegistryRecordView { csrk_inbound: Some(b), ..r }
        } else {
            r
        },
        RegistryValueView::Dword(d) => if w.name == "Authenticated"@ {
            LeRegistryRecordView { authenticated: Some(d), ..r }
        } else if w.name == "KeyLength"@ {
            LeRegistryRecordView { key_length: Some(d), ..r }
        } else if w.name == "EDIV"@ {
            LeRegistryRecordView { ediv: Some(d), ..r }
        } else if w.name == "AuthReq"@ {
            LeRegistryRecordView { auth_req: Some(d), ..r }
        } else {
            r
        },
        RegistryValueView::Qword(q) => if w.name == "ERand"@ {
            LeRegistryRecordView { erand: Some(q), ..r }
        } else {
            r
        },
    }
}

/// The record after setting the values `ws` in order.
pub open spec fn apply_writes(r: LeRegistryRecordView, ws: Seq<RegistryWriteView>) -> LeRegistryRecordView
    decreases ws.len(),
{
    if ws.len() == 0 {
        r
    } else {
        apply_write(apply_writes(r, ws.drop_last()), ws.last())
    }
}

proof fn lemma_apply_one(r: LeRegistryRecordView, w: RegistryWriteView)
    ensures
        apply_writes(r, seq![w]) == apply_write(r, w),
{
    assert(seq![w].drop_last() =~= Seq::<RegistryWriteView>::empty());
    assert(apply_writes(r, Seq::<RegistryWriteView>::empty()) == r);
    assert(seq![w].last() == w);
}

proof fn lemma_apply_two(r: LeRegistryRecordView, w1: RegistryWriteView, w2: RegistryWriteView)
    ensures
        apply_writes(r, seq![w1, w2]) == apply_write(apply_write(r, w1), w2),
{
    assert(seq![w1, w2] =~= seq![w1] + seq![w2]);
    lemma_apply_concat(r, seq![w1], seq![w2]);
    lemma_apply_one(r, w1);
    lemma_apply_one(apply_write(r, w1), w2);
}

proof fn lemma_apply_concat(r: LeRegistryRecordView, a: Seq<RegistryWriteView>, b: Seq<RegistryWriteView>)
    ensures
        apply_writes(r, a + b) == apply_writes(apply_writes(r, a), b),
    decreases b.len(),
{
    if b.len() == 0 {
        assert(a + b =~= a);
    } else {
        assert((a + b).drop_last() =~= a + b.drop_last());
        assert((a + b).last() == b.last());
        lemma_apply_concat(r, a, b.drop_last());
    }
}

/// The Secure Connections metadata that Windows keeps: an SC key (type 2 or 3) has
/// EDIV and Rand zero.
pub open spec fn sc_metadata(le: LeKeysView) -> bool {
    match le.ltk {
        Some(k) => spec_authenticated_or_default(k.authenticated) >= 2 ==> k.ediv == Some(0u16) && k.rand
            == Some(0u64),
        None => true,
    }
}

proof fn lemma_key_type_bits(kt: u8)
    requires
        kt <= 3,
    ensures
        (kt & 1) < 2,
        ((kt & 1) & 1) == kt & 1,
        ((kt & 1) & 2) == 0,
        (auth_req_value(None, kt) & 0x08 != 0) == (kt & 2 != 0),
        (kt & 2 != 0) == (kt >= 2),
        ((kt & 1) | if kt & 2 != 0 {
            2u8
        } else {
            0u8
        }) == kt,
{
    assert((kt & 1) < 2) by (bit_vector);
    assert(((kt & 1) & 1) == kt & 1) by (bit_vector);
    assert(((kt & 1) & 2) == 0) by (bit_vector);
    assert(kt <= 3 ==> (kt & 2 != 0) == (kt >= 2)) by (bit_vector);
    assert(kt <= 3 ==> ((kt & 1) | if kt & 2 != 0 {
        2u8
    } else {
        0u8
    }) == kt) by (bit_vector);
    assert((((1u32 & !0x0cu32) | (if kt & 2 != 0 {
        0x08u32
    } else {
        0u32
    }) | (if kt & 1 != 0 {
        0x04u32
    } else {
        0u32
    })) & 0x08 != 0) == (kt & 2 != 0)) by (bit_vector);
}

proof fn lemma_write_names()
    ensures
        "LTK"@ != "IRK"@,
        "LTK"@ != "CSRK"@,
        "LTK"@ != "CSRKInbound"@,
        "IRK"@ != "CSRK"@,
        "IRK"@ != "CSRKInbound"@,
        "CSRK"@ != "CSRKInbound"@,
        "Authenticated"@ != "KeyLength"@,
        "Authenticated"@ != "EDIV"@,
        "Authenticated"@ != "AuthReq"@,
        "KeyLength"@ != "EDIV"@,
        "KeyLength"@ != "AuthReq"@,
        "EDIV"@ != "AuthReq"@,
        "Address"@ != "ERand"@,
        "AddressType"@ != "Authenticated"@,
        "AddressType"@ != "KeyLength"@,
        "AddressType"@ != "EDIV"@,
        "AddressType"@ != "AuthReq"@,
{
    reveal_strlit("LTK");
    reveal_strlit("IRK");
    reveal_strlit("CSRK");
    reveal_strlit("CSRKInbound");
    reveal_strlit("Authenticated");
    reveal_strlit("KeyLength");
    reveal_strlit("EDIV");
    reveal_strlit("AuthReq");
    reveal_strlit("Address");
    reveal_strlit("ERand");
    reveal_strlit("AddressType");
    assert("LTK"@[0] != "IRK"@[0]);
    assert("LTK"@.len() != "CSRK"@.len());
    assert("LTK"@.len() != "CSRKInbound"@.len());
    assert("IRK"@.len() != "CSRK"@.len());
    assert("IRK"@.len() != "CSRKInbound"@.len());
    assert("CSRK"@.len() != "CSRKInbound"@.len());
    assert("Authenticated"@.len() != "KeyLength"@.len());
    assert("Authenticated"@.len() != "EDIV"@.len());
    assert("Authenticated"@.len() != "AuthReq"@.len());
    assert("KeyLength"@.len() != "EDIV"@.len());
    assert("KeyLength"@.len() != "AuthReq"@.len());
    assert("EDIV"@.len() != "AuthReq"@.len());
    assert("Address"@.len() != "ERand"@.len());
    assert("AddressType"@.len() != "Authenticated"@.len());
    assert("AddressType"@.len() != "KeyLength"@.len());
    assert("AddressType"@.len() != "EDIV"@.len());
    assert("AddressType"@.len() != "AuthReq"@.len());
}

/// The bytes of a valid key read back as its text in upper case.
proof fn lemma_key_bytes_text(k: Seq<char>)
    requires
        valid_key_text(k),
    ensures
        registry_key_text(hex_bytes(k)) == Some(upper(k)),
{
    lemma_text_of_hex_bytes(k);
}


/// The LTK values of a plan, written to a new record, read back as the projected LTK.
proof fn lemma_ltk_record(le: LeKeysView, l: PlanView)
    requires
        l == ltk_plan(le.ltk, None),
        l.error is None,
        sc_metadata(le),
    ensures
        ({
            let rl = apply_writes(empty_record(), l.writes);
            &&& rl.irk is None && rl.csrk is None && rl.csrk_inbound is None
            &&& match le.ltk {
                Some(k) => spec_ltk_from_registry(rl) == Some(projected_ltk(k)),
                None => rl == empty_record(),
            }
        }),
{
    lemma_write_names();
    let ra = empty_record();
    let rl = apply_writes(ra, l.writes);
    if let Some(k) = le.ltk {
        let kt = spec_authenticated_or_default(k.authenticated);
        assert(kt <= 3);
        lemma_key_type_bits(kt);
        lemma_key_bytes_text(k.key);
        let head = seq![binary("LTK"@, hex_bytes(k.key))] + seq![
            dword("Authenticated"@, (kt & 1) as u32),
            dword("AuthReq"@, auth_req_value(None, kt)),
        ];
        let enc: Seq<RegistryWriteView> = match k.enc_size {
            Some(x) => seq![dword("KeyLength"@, x as u32)],
            None => Seq::empty(),
        };
        let ediv: Seq<RegistryWriteView> = match k.ediv {
            Some(x) => seq![dword("EDIV"@, x as u32)],
            None => Seq::empty(),
        };
        let rand: Seq<RegistryWriteView> = match k.rand {
            Some(x) => seq![qword("ERand"@, x)],
            None => Seq::empty(),
        };
        assert(l.writes == head + enc + ediv + rand);
        lemma_apply_concat(ra, head + enc + ediv, rand);
        lemma_apply_concat(ra, head + enc, ediv);
        lemma_apply_concat(ra, head, enc);
        let rh = apply_writes(ra, head);
        let w1 = binary("LTK"@, hex_bytes(k.key));
        let w2 = dword("Authenticated"@, (kt & 1) as u32);
        let w3 = dword("AuthReq"@, auth_req_value(None, kt));
        assert(head =~= seq![w1] + seq![w2, w3]);
        lemma_apply_concat(ra, seq![w1], seq![w2, w3]);
        lemma_apply_one(ra, w1);
        lemma_apply_two(apply_write(ra, w1), w2, w3);
        assert(rh.ltk == Some(hex_bytes(k.key)));
        assert(rh.authenticated == Some((kt & 1) as u32));
        assert(rh.auth_req == Some(auth_req_value(None, kt)));
        let re = apply_writes(rh, enc);
        if let Some(x) = k.enc_size {
            lemma_apply_one(rh, dword("KeyLength"@, x as u32));
        } else {
            assert(re == rh);
        }
        let rd = apply_writes(re, ediv);
        if let Some(x) = k.ediv {
            lemma_apply_one(re, dword("EDIV"@, x as u32));
        } else {
            assert(rd == re);
        }
        if let Some(x) = k.rand {
            lemma_apply_one(rd, qword("ERand"@, x));
        } else {
            assert(apply_writes(rd, rand) == rd);
        }
        assert(rl.ltk == Some(hex_bytes(k.key)));
        assert(rl.authenticated == Some((kt & 1) as u32));
        assert(rl.auth_req == Some(auth_req_value(None, kt)));
        assert(rl.key_length == match k.enc_size {
            Some(x) => Some(x as u32),
            None => None::<u32>,
        });
        assert(rl.ediv == match k.ediv {
            Some(x) => Some(x as u32),
            None => None::<u32>,
        });
        assert(rl.erand == k.rand);
        assert(rl.irk is None && rl.csrk is None && rl.csrk_inbound is None);
        assert(low_u8(rl.authenticated) == Some(kt & 1));
        assert(low_u16(rl.ediv) == k.ediv);
        assert(low_u8(rl.key_length) == k.enc_size);
        assert(((((kt & 1) as u32) % 256) as u8) == kt & 1);
        assert(low_u8(rl.authenticated) == Some(kt & 1));
        if kt >= 2 {
            assert(k.ediv == Some(0u16) && k.rand == Some(0u64));
        }
        assert(spec_windows_ltk_type(low_u8(rl.authenticated), rl.auth_req, low_u16(rl.ediv), rl.erand) == kt);
        lemma_upper_idempotent(k.key);
    } else {
        assert(l.writes =~= Seq::<RegistryWriteView>::empty());
        assert(rl == ra);
    }
}

/// The projection of an LE bond read from the registry, if any.
pub open spec fn projected_read(back: Option<LeKeysView>) -> Option<LeKeysView> {
    match back {
        Some(l) => projected_le(l),
        None => None,
    }
}

/// A bond that Windows accepts (its write plan has no error) and whose Secure
/// Connections metadata is consistent (`sc_metadata`) converges: written to a new
/// registry record and read back, it has the projection it was written with, so it
/// needs no further update.
pub proof fn lemma_registry_round_trip(le: LeKeysView, mac: Seq<char>)
    requires
        spec_le_write_plan(le, mac, None).error is None,
        sc_metadata(le),
    ensures
        ({
            let r = apply_writes(empty_record(), spec_le_write_plan(le, mac, None).writes);
            projected_read(spec_le_from_registry(r, le.address_type)) == projected_le(le)
        }),
{
    lemma_write_names();
    reveal_strlit("Address");
    reveal_strlit("AddressType");
    let a = address_plan(le, mac);
    let l = ltk_plan(le.ltk, None);
    let i = key_plan(le.irk, "IRK"@, "IRK"@);
    let c1 = key_plan(csrk_key(le.csrk_local), "CSRK"@, "CSRK (Local)"@);
    let c2 = key_plan(csrk_key(le.csrk_remote), "CSRKInbound"@, "CSRK (Remote)"@);
    let ws = a.writes + l.writes + i.writes + c1.writes + c2.writes;
    assert(spec_le_write_plan(le, mac, None).writes == ws);
    let e = empty_record();
    lemma_apply_concat(e, a.writes + l.writes + i.writes + c1.writes, c2.writes);
    lemma_apply_concat(e, a.writes + l.writes + i.writes, c1.writes);
    lemma_apply_concat(e, a.writes + l.writes, i.writes);
    lemma_apply_concat(e, a.writes, l.writes);
    let ra = apply_writes(e, a.writes);
    if le.address_type is Some {
        lemma_apply_two(e, a.writes[0], a.writes[1]);
        assert(a.writes =~= seq![a.writes[0], a.writes[1]]);
        assert(ra == e);
    } else {
        assert(a.writes =~= Seq::<RegistryWriteView>::empty());
        assert(ra == e);
    }
    let rl = apply_writes(ra, l.writes);
    lemma_ltk_record(le, l);
    let ri = apply_writes(rl, i.writes);
    if let Some(k) = le.irk {
        lemma_key_bytes_text(k);
        lemma_upper_idempotent(k);
        lemma_apply_one(rl, binary("IRK"@, hex_bytes(k)));
        assert(ri.irk == Some(hex_bytes(k)));
    } else {
        assert(ri == rl);
    }
    let rc1 = apply_writes(ri, c1.writes);
    if let Some(c) = le.csrk_local {
        lemma_key_bytes_text(c.key);
        lemma_upper_idempotent(c.key);
        lemma_apply_one(ri, binary("CSRK"@, hex_bytes(c.key)));
    } else {
        assert(rc1 == ri);
    }
    let rc2 = apply_writes(rc1, c2.writes);
    if let Some(c) = le.csrk_remote {
        lemma_key_bytes_text(c.key);
        lemma_upper_idempotent(c.key);
        lemma_apply_one(rc1, binary("CSRKInbound"@, hex_bytes(c.key)));
    } else {
        assert(rc2 == rc1);
    }
    if let Some(k) = le.ltk {
        lemma_upper_idempotent(k.key);
    }
}

/// The registry-backed Bluetooth store of Windows.
#[derive(Debug)]
pub struct WindowsBluetoothManager {}

impl WindowsBluetoothManager {
    /// A manager of the registry store.
    pub fn new() -> (r: Self) {
        WindowsBluetoothManager {  }
    }

    /// Tags the shared IRKs of the registry bonds `locals` of `adapter` that are proven
    /// to be in local (`windows`) byte order.
    pub fn tag_adapter(&self, config: &mut BlueVeinConfig, adapter: &str, locals: &Vec<BluetoothDevice>)
        ensures
            final(config)@ == spec_migrate_locals(old(config)@, adapter@, device_views(locals@), false),
    {
        migrate_local_records(config, adapter, locals, false);
    }

    /// Whether writing `desired` changes what the registry holds for `current`: their
    /// projections differ.
    pub fn needs_update(&self, current: &BluetoothDevice, desired: &BluetoothDevice) -> (r: bool)
        ensures
            r == (spec_registry_projection(current@) != spec_registry_projection(desired@)),
    {
        !registry_projection(current).same(&registry_projection(desired))
    }

    /// The local record as it should be exported (`spec_windows_export`).
    pub fn prepare_local_export(&self, local: &BluetoothDevice, shared: &BluetoothDevice) -> (r: BluetoothDevice)
        ensures
            r@ == spec_windows_export(local@, shared@),
    {
        let mut result = local.clone();
        match (&local.classic, &shared.classic) {
            (Some(l), Some(s)) => {
                if eq_ignore_case_exec(l.link_key.as_str(), s.link_key.as_str()) {
                    result.classic = Some(
                        ClassicKeys { link_key: l.link_key.clone(), key_type: s.key_type, pin_length: s.pin_length },
                    );
                }
            },
            _ => {},
        }
        match (&local.le, &shared.le) {
            (Some(l), Some(s)) => {
                match &l.ltk {
                    Some(k) => {
                        let sc = match k.authenticated {
                            Some(a) => a == 2 || a == 3,
                            None => false,
                        };
                        if sc && s.peripheral_ltk.is_some() {
                            let mut le = l.clone();
                            le.peripheral_ltk = Some(k.clone());
                            result.le = Some(le);
                        }
                    },
                    None => {},
                }
            },
            _ => {},
        }
        result
    }

    /// Why `desired` must not replace the live bond `current` (`spec_windows_update_reason`).
    pub fn update_reason(&self, current: &BluetoothDevice, desired: &BluetoothDevice) -> (r: Option<
        String,
    >)
        ensures
            opt_seq(r) == spec_windows_update_reason(current@, desired@),
    {
        match (&current.le, &desired.le) {
            (Some(l), Some(s)) => {
                match (&l.irk, &s.irk) {
                    (Some(a), Some(b)) => {
                        let windows = match &s.irk_encoding {
                            Some(e) => str_eq(e.as_str(), "windows"),
                            None => false,
                        };
                        if !eq_ignore_case_exec(a.as_str(), b.as_str()) && !windows {
                            return Some(
                                string_from("conflicting legacy IRK encoding; preserving live Windows bond"),
                            );
                        }
                        None
                    },
                    _ => None,
                }
            },
            _ => None,
        }
    }
}

} // verus!
