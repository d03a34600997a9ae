//! Bonding records shared between the operating systems, and the interface of a
//! platform Bluetooth backend.
use vstd::prelude::*;
use crate::config::BlueVeinConfig;
use crate::text::{
    all_hex, all_hex_exec, chars_of, eq_ignore_case, is_ws, lower, lower_chars, push_chars, string_from,
    string_of, strip_colons, strip_colons_exec, trim, trim_bounds, upper, upper_char, upper_chars,
    upper_string,
};

verus! {

/// Classic (BR/EDR) link key of a bond.
#[derive(Debug, PartialEq, Eq)]
pub struct ClassicKeys {
    pub link_key: String,
    pub key_type: u8,
    pub pin_length: u8,
}

/// LE long term key with its security metadata.
#[derive(Debug, PartialEq, Eq)]
pub struct LeLongTermKey {
    pub key: String,
    /// BlueZ MGMT key type: 0/1 legacy, 2/3 Secure Connections (odd: authenticated).
    pub authenticated: Option<u8>,
    pub enc_size: Option<u8>,
    pub ediv: Option<u16>,
    pub rand: Option<u64>,
}

/// Connection signature resolving key.
#[derive(Debug, PartialEq, Eq)]
pub struct CsrkKey {
    pub key: String,
    pub counter: u32,
    pub authenticated: bool,
}

/// The LE part of a bond.
#[derive(Debug, PartialEq, Eq)]
pub struct LeKeys {
    pub ltk: Option<LeLongTermKey>,
    pub peripheral_ltk: Option<LeLongTermKey>,
    pub irk: Option<String>,
    /// Byte order of `irk`; `windows` is the only known format.
    pub irk_encoding: Option<String>,
    pub csrk_local: Option<CsrkKey>,
    pub csrk_remote: Option<CsrkKey>,
    /// `public` or `random` (static random) identity address.
    pub address_type: Option<String>,
}

/// One bonded peer as stored in the shared configuration.
#[derive(Debug, PartialEq, Eq)]
pub struct BluetoothDevice {
    pub mac_address: String,
    pub name: Option<String>,
    /// Source OS of a pending deletion marker.
    pub pending_deletion: Option<String>,
    pub classic: Option<ClassicKeys>,
    pub le: Option<LeKeys>,
}

pub struct ClassicKeysView {
    pub link_key: Seq<char>,
    pub key_type: u8,
    pub pin_length: u8,
}

pub struct LtkView {
    pub key: Seq<char>,
    pub authenticated: Option<u8>,
    pub enc_size: Option<u8>,
    pub ediv: Option<u16>,
    pub rand: Option<u64>,
}

pub struct CsrkView {
    pub key: Seq<char>,
    pub counter: u32,
    pub authenticated: bool,
}

pub struct LeKeysView {
    pub ltk: Option<LtkView>,
    pub peripheral_ltk: Option<LtkView>,
    pub irk: Option<Seq<char>>,
    pub irk_encoding: Option<Seq<char>>,
    pub csrk_local: Option<CsrkView>,
    pub csrk_remote: Option<CsrkView>,
    pub address_type: Option<Seq<char>>,
}

pub struct DeviceView {
    pub mac_address: Seq<char>,
    pub name: Option<Seq<char>>,
    pub pending_deletion: Option<Seq<char>>,
    pub classic: Option<ClassicKeysView>,
    pub le: Option<LeKeysView>,
}

impl View for ClassicKeys {
    type V = ClassicKeysView;

    open spec fn view(&self) -> ClassicKeysView {
        ClassicKeysView { link_key: self.link_key@, key_type: self.key_type, pin_length: self.pin_length }
    }
}

impl View for LeLongTermKey {
    type V = LtkView;

    open spec fn view(&self) -> LtkView {
        LtkView {
            key: self.key@,
            authenticated: self.authenticated,
            enc_size: self.enc_size,
            ediv: self.ediv,
            rand: self.rand,
        }
    }
}

impl View for CsrkKey {
    type V = CsrkView;

    open spec fn view(&self) -> CsrkView {
        CsrkView { key: self.key@, counter: self.counter, authenticated: self.authenticated }
    }
}

/// The view of an optional value.
pub open spec fn opt_view<T: View>(o: Option<T>) -> Option<T::V> {
    match o {
        Some(x) => Some(x@),
        None => None,
    }
}

impl View for LeKeys {
    type V = LeKeysView;

    open spec fn view(&self) -> LeKeysView {
        LeKeysView {
            ltk: opt_view(self.ltk),
            peripheral_ltk: opt_view(self.peripheral_ltk),
            irk: opt_view(self.irk),
            irk_encoding: opt_view(self.irk_encoding),
            csrk_local: opt_view(self.csrk_local),
            csrk_remote: opt_view(self.csrk_remote),
            address_type: opt_view(self.address_type),
        }
    }
}

impl View for BluetoothDevice {
    type V = DeviceView;

    open spec fn view(&self) -> DeviceView {
        DeviceView {
            mac_address: self.mac_address@,
            name: opt_view(self.name),
            pending_deletion: opt_view(self.pending_deletion),
            classic: opt_view(self.classic),
            le: opt_view(self.le),
        }
    }
}

/// A copy of an optional string.
pub fn clone_opt_string(o: &Option<String>) -> (r: Option<String>)
    ensures
        r == *o,
{
    match o {
        Some(s) => Some(s.clone()),
        None => None,
    }
}

impl Clone for ClassicKeys {
    fn clone(&self) -> (r: Self)
        ensures
            r == *self,
    {
        ClassicKeys { link_key: self.link_key.clone(), key_type: self.key_type, pin_length: self.pin_length }
    }
}

impl Clone for LeLongTermKey {
    fn clone(&self) -> (r: Self)
        ensures
            r == *self,
    {
        LeLongTermKey {
            key: self.key.clone(),
            authenticated: self.authenticated,
            enc_size: self.enc_size,
            ediv: self.ediv,
            rand: self.rand,
        }
    }
}

impl Clone for CsrkKey {
    fn clone(&self) -> (r: Self)
        ensures
            r == *self,
    {
        CsrkKey { key: self.key.clone(), counter: self.counter, authenticated: self.authenticated }
    }
}


/// A copy of an optional long term key.
pub fn clone_opt_ltk(o: &Option<LeLongTermKey>) -> (r: Option<LeLongTermKey>)
    ensures
        r == *o,
{
    match o {
        Some(k) => Some(k.clone()),
        None => None,
    }
}

/// A copy of an optional signature key.
pub fn clone_opt_csrk(o: &Option<CsrkKey>) -> (r: Option<CsrkKey>)
    ensures
        r == *o,
{
    match o {
        Some(k) => Some(k.clone()),
        None => None,
    }
}

impl Clone for LeKeys {
    fn clone(&self) -> (r: Self)
        ensures
            r == *self,
    {
        LeKeys {
            ltk: clone_opt_ltk(&self.ltk),
            peripheral_ltk: clone_opt_ltk(&self.peripheral_ltk),
            irk: clone_opt_string(&self.irk),
            irk_encoding: clone_opt_string(&self.irk_encoding),
            csrk_local: clone_opt_csrk(&self.csrk_local),
            csrk_remote: clone_opt_csrk(&self.csrk_remote),
            address_type: clone_opt_string(&self.address_type),
        }
    }
}

impl Clone for BluetoothDevice {
    fn clone(&self) -> (r: Self)
        ensures
            r == *self,
    {
        BluetoothDevice {
            mac_address: self.mac_address.clone(),
            name: clone_opt_string(&self.name),
            pending_deletion: clone_opt_string(&self.pending_deletion),
            classic: match &self.classic {
                Some(c) => Some(c.clone()),
                None => None,
            },
            le: match &self.le {
                Some(l) => Some(l.clone()),
                None => None,
            },
        }
    }
}

impl Default for LeKeys {
    fn default() -> (r: Self)
        ensures
            r.ltk is None && r.peripheral_ltk is None && r.irk is None && r.irk_encoding is None
                && r.csrk_local is None && r.csrk_remote is None && r.address_type is None,
    {
        LeKeys {
            ltk: None,
            peripheral_ltk: None,
            irk: None,
            irk_encoding: None,
            csrk_local: None,
            csrk_remote: None,
            address_type: None,
        }
    }
}


/// `==` on optional strings, by content.
pub fn opt_string_eq(a: &Option<String>, b: &Option<String>) -> (r: bool)
    ensures
        r == (opt_view(*a) == opt_view(*b)),
{
    match (a, b) {
        (Some(x), Some(y)) => *x == *y,
        (None, None) => true,
        _ => false,
    }
}

fn opt_u8_eq(a: Option<u8>, b: Option<u8>) -> (r: bool)
    ensures
        r == (a == b),
{
    match (a, b) {
        (Some(x), Some(y)) => x == y,
        (None, None) => true,
        _ => false,
    }
}

fn opt_u16_eq(a: Option<u16>, b: Option<u16>) -> (r: bool)
    ensures
        r == (a == b),
{
    match (a, b) {
        (Some(x), Some(y)) => x == y,
        (None, None) => true,
        _ => false,
    }
}

fn opt_u64_eq(a: Option<u64>, b: Option<u64>) -> (r: bool)
    ensures
        r == (a == b),
{
    match (a, b) {
        (Some(x), Some(y)) => x == y,
        (None, None) => true,
        _ => false,
    }
}

impl ClassicKeys {
    /// A link key with the default BlueZ key type and no PIN length.
    pub fn new(link_key: String) -> (r: Self)
        ensures
            r.link_key == link_key,
            r.key_type == 4,
            r.pin_length == 0,
    {
        ClassicKeys { link_key, key_type: 4, pin_length: 0 }
    }

    /// Content equality.
    pub fn same(&self, other: &Self) -> (r: bool)
        ensures
            r == (self@ == other@),
    {
        self.link_key == other.link_key && self.key_type == other.key_type && self.pin_length
            == other.pin_length
    }
}

impl LeLongTermKey {
    /// The recorded key type, or legacy unauthenticated (0) when unknown.
    pub fn authenticated_or_default(&self) -> (r: u8)
        ensures
            r == spec_authenticated_or_default(self.authenticated),
    {
        match self.authenticated {
            Some(v) => v,
            None => 0,
        }
    }

    /// Content equality.
    pub fn same(&self, other: &Self) -> (r: bool)
        ensures
            r == (self@ == other@),
    {
        self.key == other.key && opt_u8_eq(self.authenticated, other.authenticated) && opt_u8_eq(
            self.enc_size,
            other.enc_size,
        ) && opt_u16_eq(self.ediv, other.ediv) && opt_u64_eq(self.rand, other.rand)
    }
}

pub open spec fn spec_authenticated_or_default(a: Option<u8>) -> u8 {
    match a {
        Some(v) => v,
        None => 0,
    }
}

impl CsrkKey {
    /// A signature key with a zero counter, not authenticated.
    pub fn new(key: String) -> (r: Self)
        ensures
            r.key == key,
            r.counter == 0,
            !r.authenticated,
    {
        CsrkKey { key, counter: 0, authenticated: false }
    }

    /// Content equality.
    pub fn same(&self, other: &Self) -> (r: bool)
        ensures
            r == (self@ == other@),
    {
        self.key == other.key && self.counter == other.counter && self.authenticated
            == other.authenticated
    }
}

/// Content equality of optional long term keys.
pub fn opt_ltk_eq(a: &Option<LeLongTermKey>, b: &Option<LeLongTermKey>) -> (r: bool)
    ensures
        r == (opt_view(*a) == opt_view(*b)),
{
    match (a, b) {
        (Some(x), Some(y)) => x.same(y),
        (None, None) => true,
        _ => false,
    }
}

/// Content equality of optional signature keys.
pub fn opt_csrk_eq(a: &Option<CsrkKey>, b: &Option<CsrkKey>) -> (r: bool)
    ensures
        r == (opt_view(*a) == opt_view(*b)),
{
    match (a, b) {
        (Some(x), Some(y)) => x.same(y),
        (None, None) => true,
        _ => false,
    }
}

impl LeKeys {
    /// Content equality.
    pub fn same(&self, other: &Self) -> (r: bool)
        ensures
            r == (self@ == other@),
    {
        opt_ltk_eq(&self.ltk, &other.ltk) && opt_ltk_eq(&self.peripheral_ltk, &other.peripheral_ltk)
            && opt_string_eq(&self.irk, &other.irk) && opt_string_eq(
            &self.irk_encoding,
            &other.irk_encoding,
        ) && opt_csrk_eq(&self.csrk_local, &other.csrk_local) && opt_csrk_eq(
            &self.csrk_remote,
            &other.csrk_remote,
        ) && opt_string_eq(&self.address_type, &other.address_type)
    }
}

/// Content equality of optional classic keys.
pub fn opt_classic_eq(a: &Option<ClassicKeys>, b: &Option<ClassicKeys>) -> (r: bool)
    ensures
        r == (opt_view(*a) == opt_view(*b)),
{
    match (a, b) {
        (Some(x), Some(y)) => x.same(y),
        (None, None) => true,
        _ => false,
    }
}

/// Content equality of optional LE keys.
pub fn opt_le_eq(a: &Option<LeKeys>, b: &Option<LeKeys>) -> (r: bool)
    ensures
        r == (opt_view(*a) == opt_view(*b)),
{
    match (a, b) {
        (Some(x), Some(y)) => x.same(y),
        (None, None) => true,
        _ => false,
    }
}

/// A bond carries key material: a link key, or an LE key other than address metadata.
pub open spec fn spec_has_keys(d: DeviceView) -> bool {
    ||| d.classic is Some
    ||| d.le matches Some(le) && (le.ltk is Some || le.peripheral_ltk is Some || le.irk is Some
        || le.csrk_local is Some || le.csrk_remote is Some)
}

/// The second value where it is present, else the first.
pub open spec fn prefer<T>(first: Option<T>, second: Option<T>) -> Option<T> {
    match second {
        Some(x) => Some(x),
        None => first,
    }
}

/// LE keys of `a` overlaid with those present in `b`.
pub open spec fn merge_le_view(a: Option<LeKeysView>, b: Option<LeKeysView>) -> Option<LeKeysView> {
    match (a, b) {
        (Some(x), Some(y)) => Some(
            LeKeysView {
                ltk: prefer(x.ltk, y.ltk),
                peripheral_ltk: prefer(x.peripheral_ltk, y.peripheral_ltk),
                irk: prefer(x.irk, y.irk),
                irk_encoding: prefer(x.irk_encoding, y.irk_encoding),
                csrk_local: prefer(x.csrk_local, y.csrk_local),
                csrk_remote: prefer(x.csrk_remote, y.csrk_remote),
                address_type: prefer(x.address_type, y.address_type),
            },
        ),
        (Some(x), None) => Some(x),
        (None, y) => y,
    }
}

/// Merging never loses a transport: a Classic or LE part that only one record has is
/// kept as it is, a part that both have is present in the merge, and the Classic key
/// of the second record, when it has one, is the one kept.
pub proof fn lemma_merge_keeps_parts(a: DeviceView, b: DeviceView)
    ensures
        b.le is None ==> merge_view(a, b).le == a.le,
        a.le is None ==> merge_view(a, b).le == b.le,
        (a.le is Some || b.le is Some) ==> merge_view(a, b).le is Some,
        b.classic is None ==> merge_view(a, b).classic == a.classic,
        b.classic is Some ==> merge_view(a, b).classic == b.classic,
        merge_view(a, b).mac_address == a.mac_address,
{
}

/// The record `a` overlaid with every field present in `b`; the address stays `a`'s.
pub open spec fn merge_view(a: DeviceView, b: DeviceView) -> DeviceView {
    DeviceView {
        mac_address: a.mac_address,
        name: prefer(a.name, b.name),
        pending_deletion: prefer(a.pending_deletion, b.pending_deletion),
        classic: prefer(a.classic, b.classic),
        le: merge_le_view(a.le, b.le),
    }
}

fn prefer_string(first: &Option<String>, second: &Option<String>) -> (r: Option<String>)
    ensures
        opt_view(r) == prefer(opt_view(*first), opt_view(*second)),
{
    match second {
        Some(s) => Some(s.clone()),
        None => clone_opt_string(first),
    }
}

fn prefer_ltk(first: &Option<LeLongTermKey>, second: &Option<LeLongTermKey>) -> (r: Option<
    LeLongTermKey,
>)
    ensures
        opt_view(r) == prefer(opt_view(*first), opt_view(*second)),
{
    match second {
        Some(s) => Some(s.clone()),
        None => clone_opt_ltk(first),
    }
}

fn prefer_csrk(first: &Option<CsrkKey>, second: &Option<CsrkKey>) -> (r: Option<CsrkKey>)
    ensures
        opt_view(r) == prefer(opt_view(*first), opt_view(*second)),
{
    match second {
        Some(s) => Some(s.clone()),
        None => clone_opt_csrk(first),
    }
}

impl BluetoothDevice {
    /// An LE-only bond holding one long term key.
    pub fn le_with_ltk(mac_address: String, ltk: LeLongTermKey) -> (r: Self)
        ensures
            r.mac_address == mac_address,
            r.name is None && r.pending_deletion is None && r.classic is None,
            r.le matches Some(le) && le.ltk == Some(ltk) && le.peripheral_ltk is None && le.irk is None
                && le.irk_encoding is None && le.csrk_local is None && le.csrk_remote is None
                && le.address_type is None,
    {
        let mut le = LeKeys::default();
        le.ltk = Some(ltk);
        BluetoothDevice { mac_address, name: None, pending_deletion: None, classic: None, le: Some(le) }
    }

    /// A Classic-only bond with a default link key type.
    pub fn classic(mac_address: String, link_key: String) -> (r: Self)
        ensures
            r.mac_address == mac_address,
            r.name is None && r.pending_deletion is None && r.le is None,
            r.classic matches Some(c) && c.link_key == link_key && c.key_type == 4 && c.pin_length
                == 0,
    {
        BluetoothDevice {
            mac_address,
            name: None,
            pending_deletion: None,
            classic: Some(ClassicKeys::new(link_key)),
            le: None,
        }
    }

    /// Whether the record carries any key material.
    pub fn has_keys(&self) -> (r: bool)
        ensures
            r == spec_has_keys(self@),
    {
        if self.classic.is_some() {
            return true;
        }
        match &self.le {
            Some(le) => le.ltk.is_some() || le.peripheral_ltk.is_some() || le.irk.is_some()
                || le.csrk_local.is_some() || le.csrk_remote.is_some(),
            None => false,
        }
    }

    /// Content equality of the whole record.
    pub fn same(&self, other: &Self) -> (r: bool)
        ensures
            r == (self@ == other@),
    {
        self.mac_address == other.mac_address && opt_string_eq(&self.name, &other.name)
            && opt_string_eq(&self.pending_deletion, &other.pending_deletion) && opt_classic_eq(
            &self.classic,
            &other.classic,
        ) && opt_le_eq(&self.le, &other.le)
    }

    /// Whether the Classic or LE keys of two records differ.
    pub fn keys_differ(&self, other: &Self) -> (r: bool)
        ensures
            r == (self@.classic != other@.classic || self@.le != other@.le),
    {
        !opt_classic_eq(&self.classic, &other.classic) || !opt_le_eq(&self.le, &other.le)
    }

    /// This record with every field that `other` carries taken from `other`; dual-mode
    /// devices keep the keys of both transports.
    pub fn merge_with(&self, other: &BluetoothDevice) -> (r: BluetoothDevice)
        ensures
            r@ == merge_view(self@, other@),
    {
        let classic = match &other.classic {
            Some(c) => Some(c.clone()),
            None => match &self.classic {
                Some(c) => Some(c.clone()),
                None => None,
            },
        };
        let le = match (&self.le, &other.le) {
            (Some(x), Some(y)) => Some(
                LeKeys {
                    ltk: prefer_ltk(&x.ltk, &y.ltk),
                    peripheral_ltk: prefer_ltk(&x.peripheral_ltk, &y.peripheral_ltk),
                    irk: prefer_string(&x.irk, &y.irk),
                    irk_encoding: prefer_string(&x.irk_encoding, &y.irk_encoding),
                    csrk_local: prefer_csrk(&x.csrk_local, &y.csrk_local),
                    csrk_remote: prefer_csrk(&x.csrk_remote, &y.csrk_remote),
                    address_type: prefer_string(&x.address_type, &y.address_type),
                },
            ),
            (Some(x), None) => Some(x.clone()),
            (None, Some(y)) => Some(y.clone()),
            (None, None) => None,
        };
        BluetoothDevice {
            mac_address: self.mac_address.clone(),
            name: prefer_string(&self.name, &other.name),
            pending_deletion: prefer_string(&self.pending_deletion, &other.pending_deletion),
            classic,
            le,
        }
    }
}

/// A 128-bit key written as 32 hexadecimal digits.
pub open spec fn valid_key_text(key: Seq<char>) -> bool {
    key.len() == 32 && all_hex(key)
}

/// The error for a malformed key named `key_name`.
pub open spec fn invalid_key_message(key_name: Seq<char>) -> Seq<char> {
    "Invalid "@ + key_name + " key: expected 32 hexadecimal characters"@
}

/// Checks that `key` is a 128-bit key in hexadecimal; the error names `key_name`.
pub fn validate_bluetooth_key(key: &str, key_name: &str) -> (r: Result<(), String>)
    ensures
        r is Ok <==> valid_key_text(key@),
        r matches Err(m) ==> m@ == invalid_key_message(key_name@),
{
    let v = chars_of(key);
    if v.len() == 32 && all_hex_exec(v.as_slice()) {
        Ok(())
    } else {
        let mut msg = string_from("Invalid ");
        let name = chars_of(key_name);
        push_chars(&mut msg, name.as_slice());
        let tail = chars_of(" key: expected 32 hexadecimal characters");
        push_chars(&mut msg, tail.as_slice());
        Err(msg)
    }
}

/// The canonical (upper-case) form of a MAC address.
pub fn normalize_mac(mac: &str) -> (r: String)
    ensures
        r@ == upper(mac@),
{
    upper_string(mac)
}

/// A MAC address in registry form: twelve hexadecimal digits.
pub open spec fn spec_is_valid_mac_hex(s: Seq<char>) -> bool {
    s.len() == 12 && all_hex(s)
}

/// Whether `s` is a MAC address in registry form.
pub fn is_valid_mac_hex(s: &str) -> (r: bool)
    ensures
        r == spec_is_valid_mac_hex(s@),
{
    let v = chars_of(s);
    v.len() == 12 && all_hex_exec(v.as_slice())
}

/// A character of an address with `-` and `:` separators identified, case-folded.
pub open spec fn address_char(c: char) -> char {
    if c == '-' {
        ':'
    } else {
        upper_char(c)
    }
}

/// A device name worth keeping: not blank, and not merely the device address.
pub open spec fn spec_useful_device_name(name: Seq<char>, mac: Seq<char>) -> bool {
    trim(name).len() > 0 && name.map_values(|c: char| address_char(c)) != mac.map_values(
        |c: char| address_char(c),
    )
}

/// Whether `name` is worth storing for the device `mac`.
pub fn useful_device_name(name: &str, mac: &str) -> (r: bool)
    ensures
        r == spec_useful_device_name(name@, mac@),
{
    let n = chars_of(name);
    let (i, j) = trim_bounds(n.as_slice());
    if i == j {
        return false;
    }
    assert(trim(name@).len() > 0);
    let m = chars_of(mac);
    if n.len() != m.len() {
        proof {
            assert(n@.map_values(|c: char| address_char(c)).len() != m@.map_values(
                |c: char| address_char(c),
            ).len());
        }
        return true;
    }
    let mut k: usize = 0;
    while k < n.len()
        invariant
            k <= n.len(),
            n.len() == m.len(),
            n@ == name@,
            m@ == mac@,
            trim(name@).len() > 0,
            forall|t: int| 0 <= t < k ==> address_char(n@[t]) == address_char(m@[t]),
        decreases n.len() - k,
    {
        let a = n[k];
        let b = m[k];
        let fa = if a == '-' { ':' } else { crate::text::upper_char_exec(a) };
        let fb = if b == '-' { ':' } else { crate::text::upper_char_exec(b) };
        if fa != fb {
            proof {
                assert(n@.map_values(|c: char| address_char(c))[k as int] != m@.map_values(
                    |c: char| address_char(c),
                )[k as int]);
            }
            return true;
        }
        k = k + 1;
    }
    assert(n@.map_values(|c: char| address_char(c)) =~= m@.map_values(|c: char| address_char(c)));
    false
}



/// The registry form of a MAC address: no `:` separators, lower case.
pub open spec fn spec_mac_to_windows_format(mac: Seq<char>) -> Seq<char> {
    lower(strip_colons(mac))
}

/// `s` split into pairs of characters joined by `:` (the last piece may be single).
pub open spec fn colon_pairs(s: Seq<char>) -> Seq<char>
    decreases s.len(),
{
    if s.len() == 0 {
        s
    } else if s.len() > 1 && (s.len() - 1) % 2 == 0 {
        colon_pairs(s.drop_last()) + seq![':', s.last()]
    } else {
        colon_pairs(s.drop_last()).push(s.last())
    }
}

/// A MAC address from its registry form: upper case, `:` between the byte pairs.
pub open spec fn spec_windows_format_to_mac(s: Seq<char>) -> Seq<char> {
    colon_pairs(upper(s))
}

/// The registry form of a MAC address (`spec_mac_to_windows_format`).
pub fn mac_to_windows_format(mac: &str) -> (r: String)
    ensures
        r@ == spec_mac_to_windows_format(mac@),
{
    let v = chars_of(mac);
    let stripped = strip_colons_exec(v.as_slice());
    let lowered = lower_chars(stripped.as_slice());
    string_of(lowered.as_slice())
}

/// A MAC address from its registry form (`spec_windows_format_to_mac`).
pub fn windows_format_to_mac(s: &str) -> (r: String)
    ensures
        r@ == spec_windows_format_to_mac(s@),
{
    let v = chars_of(s);
    let u = upper_chars(v.as_slice());
    let mut out: Vec<char> = Vec::new();
    let mut i: usize = 0;
    while i < u.len()
        invariant
            i <= u.len(),
            out@ == colon_pairs(u@.take(i as int)),
        decreases u.len() - i,
    {
        proof {
            let t = u@.take(i + 1);
            assert(t.drop_last() =~= u@.take(i as int));
            assert(t.last() == u@[i as int]);
        }
        if i > 0 && i % 2 == 0 {
            out.push(':');
            out.push(u[i]);
            assert(out@ =~= colon_pairs(u@.take(i as int)) + seq![':', u@[i as int]]);
        } else {
            out.push(u[i]);
        }
        i = i + 1;
    }
    assert(u@.take(u.len() as int) =~= u@);
    string_of(out.as_slice())
}

/// A platform Bluetooth stack holding the local bonds. The synchronizer is written
/// against this interface; each operating system provides an implementation.
pub trait BluetoothManager {
    /// The adapters of this machine.
    fn get_adapters(&self) -> Result<Vec<String>, String>;

    /// The bonds of one adapter.
    fn get_devices(&self, adapter_mac: &str) -> Result<Vec<BluetoothDevice>, String>;

    /// One bond.
    fn get_device(&self, adapter_mac: &str, device_mac: &str) -> Result<BluetoothDevice, String>;

    /// Writes one bond to the local stack.
    fn set_device(&mut self, adapter_mac: &str, device: &BluetoothDevice) -> Result<(), String>;

    /// Removes one bond from the local stack.
    fn remove_device(&mut self, adapter_mac: &str, device_mac: &str) -> Result<(), String>;

    /// A short name of the platform.
    fn platform_id(&self) -> (r: &'static str)
        default_ensures
            r@ == "generic"@,
    {
        "generic"
    }

    /// Whether writing `desired` would change the local record `current`.
    fn needs_update(&self, current: &BluetoothDevice, desired: &BluetoothDevice) -> (r: bool)
        default_ensures
            r == (current@.classic != desired@.classic || current@.le != desired@.le),
    {
        current.keys_differ(desired)
    }

    /// Brings a shared configuration written by older versions up to date.
    fn migrate_shared_config(&self, config: &mut BlueVeinConfig) -> (r: Result<(), String>)
        default_ensures
            r is Ok,
            *final(config) == *old(config),
    {
        Ok(())
    }

    /// Why `desired` must not replace `current`, if it must not.
    fn update_reason(&self, current: &BluetoothDevice, desired: &BluetoothDevice) -> (r: Option<String>)
        default_ensures
            r is None,
    {
        None
    }

    /// Why a shared record missing locally cannot be imported, if it cannot. By
    /// default a platform imports no missing bond: it needs a bond made locally.
    fn import_missing_reason(&self, device: &BluetoothDevice) -> (r: Option<String>)
        default_ensures
            r matches Some(m) && m@ == "no local bond; pair the device on this OS first"@,
    {
        Some(string_from("no local bond; pair the device on this OS first"))
    }

    /// Completes writes deferred by `set_device`.
    fn apply_pending(&mut self) -> (r: Result<(), String>)
        default_ensures
            r is Ok,
    {
        Ok(())
    }

    /// The local record `local` as it should be exported next to the shared `shared`.
    fn prepare_local_export(&self, local: &BluetoothDevice, shared: &BluetoothDevice) -> (r: BluetoothDevice)
        default_ensures
            r@ == local@,
    {
        local.clone()
    }
}

} // verus!
