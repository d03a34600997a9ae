//! The BlueZ storage format of `/var/lib/bluetooth`: paths, `info` files and the
//! rules for importing a shared bond into it.
use vstd::prelude::*;
use vstd::string::StringSliceAdditionalSpecFns;
use crate::bluetooth::{
    invalid_key_message, normalize_mac, spec_is_valid_mac_hex, validate_bluetooth_key,
    valid_key_text, BluetoothDevice, DeviceView, LeKeysView, LtkView,
};
use crate::codec::{
    hex_bytes, hex_decode, hex_encode_upper, hex_upper_text, hex_val, lemma_hex_bytes_of_text,
    lemma_text_of_hex_bytes,
};
use crate::text::{
    all_hex, chars_of, eq_ignore_case, eq_ignore_case_exec, is_hex_digit, is_hex_digit_exec,
    parse_unsigned, parse_unsigned_exec, push_chars, str_eq, string_from, upper, decimal,
    bool_text, push_decimal, push_bool, strip_colons, strip_colons_exec, lemma_strip_colons_len,
    string_of, trim, trim_chars, lemma_parse_decimal,
};
use crate::efi::{split_fields, tokens};
use crate::info::{
    info_sections_ok, info_text, lemma_decimal_plain, lemma_render_parse, lemma_hex_plain, lemma_plain_entry,
    lemma_plain_word_text, plain_word, split_lines, text_lines, info_value, opt_view_str, render_sections, sections_view, spec_parse_info, section_or_empty, InfoSection,
    InfoSections, SectionMap,
};
use crate::config::BlueVeinConfig;
use crate::migrate::{device_views, migrate_local_records, spec_migrate_locals};
use crate::bluetooth::{
    opt_string_eq, spec_has_keys, spec_useful_device_name, useful_device_name, ClassicKeys, ClassicKeysView,
    CsrkKey, CsrkView, LeKeys, LeLongTermKey,
};

verus! {

/// The BlueZ key store of this machine.
#[derive(Debug)]
pub struct LinuxBluetoothManager {
    /// Bluetooth was stopped for a batch of imports and must be started again.
    pub pending: bool,
}

impl LinuxBluetoothManager {
    /// A manager with no import batch in progress.
    pub fn new() -> (r: Result<Self, String>)
        ensures
            r matches Ok(m) && !m.pending,
    {
        Ok(LinuxBluetoothManager { pending: false })
    }

    /// The BlueZ directory of an adapter.
    pub fn get_adapter_info_path(adapter_mac: &str) -> (r: String)
        ensures
            r@ == "/var/lib/bluetooth"@ + seq!['/'] + upper(adapter_mac@),
    {
        let mut r = string_from("/var/lib/bluetooth");
        push_chars(&mut r, &['/']);
        let m = normalize_mac(adapter_mac);
        push_chars(&mut r, chars_of(m.as_str()).as_slice());
        r
    }

    /// The BlueZ `info` file of a bonded device.
    pub fn get_device_info_path(adapter_mac: &str, device_mac: &str) -> (r: String)
        ensures
            r@ == "/var/lib/bluetooth"@ + seq!['/'] + upper(adapter_mac@) + seq!['/'] + upper(
                device_mac@,
            ) + "/info"@,
    {
        let mut r = Self::get_adapter_info_path(adapter_mac);
        push_chars(&mut r, &['/']);
        let m = normalize_mac(device_mac);
        push_chars(&mut r, chars_of(m.as_str()).as_slice());
        push_chars(&mut r, chars_of("/info").as_slice());
        r
    }
}

/// An IRK with its byte order reversed (BlueZ stores IRKs reversed relative to the
/// shared `windows` order), in upper case.
pub open spec fn spec_reverse_irk(key: Seq<char>) -> Seq<char> {
    hex_upper_text(hex_bytes(key).reverse())
}

/// Reverses the byte order of a 128-bit IRK.
pub fn reverse_irk(key: &str) -> (r: Result<String, String>)
    ensures
        r is Ok <==> valid_key_text(key@),
        r matches Ok(s) ==> s@ == spec_reverse_irk(key@),
        r matches Err(m) ==> m@ == invalid_key_message("IRK"@),
{
    validate_bluetooth_key(key, "IRK")?;
    let bytes = match hex_decode(key) {
        Ok(bytes) => bytes,
        Err(_) => {
            proof {
                assert(key@.len() % 2 == 0);
            }
            return Err(string_from("invalid hexadecimal key"));
        },
    };
    let mut reversed: Vec<u8> = Vec::new();
    let mut i: usize = bytes.len();
    while i > 0
        invariant
            i <= bytes.len(),
            reversed@.len() == bytes.len() - i,
            forall|j: int| 0 <= j < reversed@.len() ==> reversed@[j] == bytes@[bytes.len() - 1 - j],
        decreases i,
    {
        reversed.push(bytes[i - 1]);
        i = i - 1;
    }
    assert(reversed@ =~= bytes@.reverse());
    Ok(hex_encode_upper(reversed.as_slice()))
}

/// Reversing an IRK twice gives it back, in upper case; the result is a key again.
pub proof fn lemma_reverse_irk_involution(key: Seq<char>)
    requires
        valid_key_text(key),
    ensures
        valid_key_text(spec_reverse_irk(key)),
        spec_reverse_irk(spec_reverse_irk(key)) == upper(key),
{
    let b = hex_bytes(key);
    lemma_hex_bytes_of_text(b.reverse());
    assert(b.reverse().reverse() =~= b);
    lemma_text_of_hex_bytes(key);
}

/// The BlueZ `AddressType` of a shared identity address type.
pub open spec fn spec_linux_address_type(value: Seq<char>) -> Option<Seq<char>> {
    if value == "public"@ {
        Some("public"@)
    } else if value == "random"@ || value == "static"@ {
        Some("static"@)
    } else {
        None
    }
}

/// Maps a shared identity address type to BlueZ's on-disk name: `random` is written
/// `static`, public stays public.
pub fn linux_address_type(value: &str) -> (r: Result<&'static str, String>)
    ensures
        match r {
            Ok(t) => spec_linux_address_type(value@) == Some(t@),
            Err(m) => spec_linux_address_type(value@) is None && m@
                == "Unsupported LE identity address type"@,
        },
{
    if str_eq(value, "public") {
        Ok("public")
    } else if str_eq(value, "random") || str_eq(value, "static") {
        Ok("static")
    } else {
        Err(string_from("Unsupported LE identity address type"))
    }
}


/// Metadata that a BlueZ long term key needs: a known key type, an encryption size
/// BlueZ accepts, EDIV and Rand.
pub open spec fn complete_ltk(k: LtkView) -> bool {
    &&& k.authenticated matches Some(a) && a <= 3
    &&& k.enc_size matches Some(e) && 7 <= e <= 16
    &&& k.ediv is Some
    &&& k.rand is Some
}

/// The first problem of the long term keys `keys` (in order).
pub open spec fn ltk_reason(keys: Seq<LtkView>) -> Option<Seq<char>>
    decreases keys.len(),
{
    if keys.len() == 0 {
        None
    } else if !valid_key_text(keys[0].key) {
        Some(invalid_key_message("LTK"@))
    } else if !complete_ltk(keys[0]) {
        Some("incomplete LE security metadata"@)
    } else {
        ltk_reason(keys.drop_first())
    }
}

/// The long term keys of an LE bond, central role first.
pub open spec fn present_ltks(le: LeKeysView) -> Seq<LtkView> {
    let a = match le.ltk {
        Some(k) => seq![k],
        None => Seq::empty(),
    };
    let b = match le.peripheral_ltk {
        Some(k) => seq![k],
        None => Seq::empty(),
    };
    a + b
}

/// Why the LE part of a bond for `mac` cannot be imported into BlueZ, if it cannot.
pub open spec fn le_import_reason(mac: Seq<char>, le: LeKeysView) -> Option<Seq<char>> {
    match le.address_type {
        None => Some("missing LE address type"@),
        Some(t) => if spec_linux_address_type(t) is None {
            Some("Unsupported LE identity address type"@)
        } else if t != "public"@ && !(is_hex_digit(mac[0]) && is_hex_digit(mac[1])) {
            Some("invalid digit found in string"@)
        } else if t != "public"@ && hex_val(mac[0]) * 16 + hex_val(mac[1]) < 192 {
            Some("temporary LE address is not an identity"@)
        } else if le.ltk is None && le.peripheral_ltk is None {
            Some("no LE bonding key"@)
        } else if ltk_reason(present_ltks(le)) is Some {
            ltk_reason(present_ltks(le))
        } else {
            match le.irk {
                Some(irk) => if !valid_key_text(irk) {
                    Some(invalid_key_message("IRK"@))
                } else if le.irk_encoding != Some("windows"@) {
                    Some("legacy IRK byte order is unverified; export from the updated source OS"@)
                } else {
                    None
                },
                None => None,
            }
        },
    }
}

/// Why a shared record missing locally cannot be imported into BlueZ, if it cannot:
/// it needs a device identity, valid keys, a public or static-random identity address,
/// a complete long term key and a known IRK byte order.
pub open spec fn spec_missing_record_reason(d: DeviceView) -> Option<Seq<char>> {
    if !spec_is_valid_mac_hex(strip_colons(d.mac_address)) {
        Some("invalid device identity"@)
    } else if d.classic matches Some(c) && !valid_key_text(c.link_key) {
        Some(invalid_key_message("LinkKey"@))
    } else if d.le is Some && le_import_reason(d.mac_address, d.le.unwrap()) is Some {
        le_import_reason(d.mac_address, d.le.unwrap())
    } else if d.classic is None && d.le is None {
        Some("no bonding keys"@)
    } else {
        None
    }
}

/// A complete Classic bond can be imported into BlueZ: a record with a valid address,
/// a valid link key and no LE part has no reason against its import.
pub proof fn lemma_classic_bond_importable(d: DeviceView)
    requires
        spec_is_valid_mac_hex(strip_colons(d.mac_address)),
        d.classic matches Some(c) && valid_key_text(c.link_key),
        d.le is None,
    ensures
        spec_missing_record_reason(d) is None,
{
}

/// Only a record without any key is refused for having none: with a valid address
/// and valid keys, a Classic part or an LE part that BlueZ accepts suffices, and a
/// record with neither part is refused.
pub proof fn lemma_import_needs_some_keys(d: DeviceView)
    ensures
        (d.classic is None && d.le is None) ==> spec_missing_record_reason(d) is Some,
        (spec_is_valid_mac_hex(strip_colons(d.mac_address)) && (d.classic matches Some(c) ==> valid_key_text(
            c.link_key,
        )) && (d.le matches Some(le) ==> le_import_reason(d.mac_address, le) is None) && (d.classic is Some
            || d.le is Some)) ==> spec_missing_record_reason(d) is None,
{
}

fn ltk_check(k: &crate::bluetooth::LeLongTermKey) -> (r: Option<String>)
    ensures
        opt_seq(r) == ltk_reason(seq![k@]),
{
    proof {
        assert(seq![k@].drop_first() =~= Seq::<LtkView>::empty());
        assert(ltk_reason(Seq::<LtkView>::empty()) is None);
    }
    match validate_bluetooth_key(k.key.as_str(), "LTK") {
        Err(m) => {
            return Some(m);
        },
        Ok(()) => {},
    }
    let complete = match (k.authenticated, k.enc_size) {
        (Some(a), Some(e)) => a <= 3 && 7 <= e && e <= 16 && k.ediv.is_some() && k.rand.is_some(),
        _ => false,
    };
    if !complete {
        return Some(string_from("incomplete LE security metadata"));
    }
    None
}

/// The view of an optional string.
pub open spec fn opt_seq(o: Option<String>) -> Option<Seq<char>> {
    match o {
        Some(s) => Some(s@),
        None => None,
    }
}

proof fn lemma_ltk_reason_concat(a: Seq<LtkView>, b: Seq<LtkView>)
    requires
        a.len() <= 1,
    ensures
        ltk_reason(a + b) == if ltk_reason(a) is Some {
            ltk_reason(a)
        } else {
            ltk_reason(b)
        },
{
    assert(ltk_reason(Seq::<LtkView>::empty()) is None);
    if a.len() == 1 {
        assert((a + b).drop_first() =~= b);
        assert((a + b)[0] == a[0]);
        assert(a.drop_first() =~= Seq::<LtkView>::empty());
    } else {
        assert(a + b =~= b);
    }
}

/// Why the shared record `device` cannot be imported into BlueZ (see
/// `spec_missing_record_reason`), or `None` when it can.
pub fn missing_record_reason(device: &BluetoothDevice) -> (r: Option<String>)
    ensures
        opt_seq(r) == spec_missing_record_reason(device@),
{
    let mac = chars_of(device.mac_address.as_str());
    let hex = strip_colons_exec(mac.as_slice());
    if !(hex.len() == 12 && crate::text::all_hex_exec(hex.as_slice())) {
        return Some(string_from("invalid device identity"));
    }
    if let Some(classic) = &device.classic {
        if let Err(m) = validate_bluetooth_key(classic.link_key.as_str(), "LinkKey") {
            return Some(m);
        }
    }
    if let Some(le) = &device.le {
        let address_type = match &le.address_type {
            Some(t) => t,
            None => {
                return Some(string_from("missing LE address type"));
            },
        };
        if let Err(m) = linux_address_type(address_type.as_str()) {
            return Some(m);
        }
        if !str_eq(address_type.as_str(), "public") {
            proof {
                lemma_strip_colons_len(mac@);
            }
            if !(is_hex_digit_exec(mac[0]) && is_hex_digit_exec(mac[1])) {
                return Some(string_from("invalid digit found in string"));
            }
            let high = hex_digit_value(mac[0]);
            let low = hex_digit_value(mac[1]);
            if high * 16 + low < 192 {
                return Some(string_from("temporary LE address is not an identity"));
            }
        }
        if le.ltk.is_none() && le.peripheral_ltk.is_none() {
            return Some(string_from("no LE bonding key"));
        }
        let ghost first = match le@.ltk {
            Some(k) => seq![k],
            None => Seq::<LtkView>::empty(),
        };
        let ghost second = match le@.peripheral_ltk {
            Some(k) => seq![k],
            None => Seq::<LtkView>::empty(),
        };
        proof {
            lemma_ltk_reason_concat(first, second);
            lemma_ltk_reason_concat(second, Seq::<LtkView>::empty());
            assert(second + Seq::<LtkView>::empty() =~= second);
        }
        if let Some(k) = &le.ltk {
            if let Some(m) = ltk_check(k) {
                return Some(m);
            }
        }
        if let Some(k) = &le.peripheral_ltk {
            if let Some(m) = ltk_check(k) {
                return Some(m);
            }
        }
        if let Some(irk) = &le.irk {
            if let Err(m) = validate_bluetooth_key(irk.as_str(), "IRK") {
                return Some(m);
            }
            let windows = match &le.irk_encoding {
                Some(e) => str_eq(e.as_str(), "windows"),
                None => false,
            };
            if !windows {
                return Some(
                    string_from(
                        "legacy IRK byte order is unverified; export from the updated source OS",
                    ),
                );
            }
        }
    }
    if device.classic.is_none() && device.le.is_none() {
        return Some(string_from("no bonding keys"));
    }
    None
}


/// The value of a hexadecimal digit.
pub fn hex_digit_value(c: char) -> (r: u32)
    requires
        is_hex_digit(c),
    ensures
        r as nat == hex_val(c),
        r < 16,
{
    if '0' <= c && c <= '9' {
        (c as u32) - ('0' as u32)
    } else if 'a' <= c && c <= 'f' {
        (c as u32) - ('a' as u32) + 10
    } else {
        (c as u32) - ('A' as u32) + 10
    }
}


/// `str::parse` of an optional value into an unsigned type whose largest value is `max`.
pub open spec fn parse_opt(v: Option<Seq<char>>, max: nat) -> Option<nat> {
    match v {
        Some(t) => parse_unsigned(t, max),
        None => None,
    }
}

pub open spec fn opt_u8(n: Option<nat>) -> Option<u8> {
    match n {
        Some(x) => Some(x as u8),
        None => None,
    }
}

pub open spec fn opt_u16(n: Option<nat>) -> Option<u16> {
    match n {
        Some(x) => Some(x as u16),
        None => None,
    }
}

pub open spec fn opt_u64(n: Option<nat>) -> Option<u64> {
    match n {
        Some(x) => Some(x as u64),
        None => None,
    }
}

/// A valid key of section `sec`, if any.
pub open spec fn section_key(s: SectionMap, sec: Seq<char>) -> Option<Seq<char>> {
    match info_value(s, sec, "Key"@) {
        Some(k) => if valid_key_text(k) {
            Some(k)
        } else {
            None
        },
        None => None,
    }
}

/// The Classic link key of an `info` file: `Type` defaults to 4, `PINLength` to 0.
pub open spec fn parsed_classic(s: SectionMap) -> Option<ClassicKeysView> {
    match section_key(s, "LinkKey"@) {
        Some(k) => Some(
            ClassicKeysView {
                link_key: k,
                key_type: match parse_opt(info_value(s, "LinkKey"@, "Type"@), 255) {
                    Some(t) => t as u8,
                    None => 4,
                },
                pin_length: match parse_opt(info_value(s, "LinkKey"@, "PINLength"@), 255) {
                    Some(t) => t as u8,
                    None => 0,
                },
            },
        ),
        None => None,
    }
}

/// The Classic key of an `info` file: the key type is the decimal value of the
/// `[LinkKey]` entry `Type`, and the PIN length that of `PINLength`.
pub proof fn lemma_parsed_link_key_fields(s: SectionMap, mac: Seq<char>, k: Seq<char>, t: nat, p: nat)
    requires
        info_value(s, "LinkKey"@, "Key"@) == Some(k),
        valid_key_text(k),
        t < 256,
        p < 256,
        info_value(s, "LinkKey"@, "Type"@) == Some(decimal(t)),
        info_value(s, "LinkKey"@, "PINLength"@) == Some(decimal(p)),
    ensures
        parsed_device(s, mac).classic == Some(ClassicKeysView { link_key: k, key_type: t as u8, pin_length: p as u8 }),
{
    lemma_parse_decimal(t, 255);
    lemma_parse_decimal(p, 255);
}

/// A long term key of section `sec`, with whatever metadata parses.
pub open spec fn parsed_ltk(s: SectionMap, sec: Seq<char>) -> Option<LtkView> {
    match section_key(s, sec) {
        Some(k) => Some(
            LtkView {
                key: k,
                authenticated: opt_u8(parse_opt(info_value(s, sec, "Authenticated"@), 255)),
                enc_size: opt_u8(parse_opt(info_value(s, sec, "EncSize"@), 255)),
                ediv: opt_u16(parse_opt(info_value(s, sec, "EDiv"@), 65535)),
                rand: opt_u64(parse_opt(info_value(s, sec, "Rand"@), 0xffff_ffff_ffff_ffff)),
            },
        ),
        None => None,
    }
}

/// A signature key of section `sec`: `Counter` defaults to 0, `Authenticated` is
/// `true` in any case.
pub open spec fn parsed_csrk(s: SectionMap, sec: Seq<char>) -> Option<CsrkView> {
    match section_key(s, sec) {
        Some(k) => Some(
            CsrkView {
                key: k,
                counter: match parse_opt(info_value(s, sec, "Counter"@), 0xffff_ffff) {
                    Some(c) => c as u32,
                    None => 0,
                },
                authenticated: match info_value(s, sec, "Authenticated"@) {
                    Some(a) => eq_ignore_case(a, "true"@),
                    None => false,
                },
            },
        ),
        None => None,
    }
}

/// The IRK of an `info` file in the shared byte order.
pub open spec fn parsed_irk(s: SectionMap) -> Option<Seq<char>> {
    match section_key(s, "IdentityResolvingKey"@) {
        Some(k) => Some(spec_reverse_irk(k)),
        None => None,
    }
}

/// The shared identity address type: BlueZ's `static` is `random`.
pub open spec fn parsed_address_type(s: SectionMap) -> Option<Seq<char>> {
    match info_value(s, "General"@, "AddressType"@) {
        Some(t) => if t == "static"@ {
            Some("random"@)
        } else {
            Some(t)
        },
        None => None,
    }
}

/// The reported `Name`, else the user's `Alias`, when it is a useful name.
pub open spec fn parsed_name(s: SectionMap, mac: Seq<char>) -> Option<Seq<char>> {
    let n = match info_value(s, "General"@, "Name"@) {
        Some(n) => Some(n),
        None => info_value(s, "General"@, "Alias"@),
    };
    match n {
        Some(x) => if spec_useful_device_name(x, mac) {
            Some(x)
        } else {
            None
        },
        None => None,
    }
}

/// Whether an `info` file holds any LE data.
pub open spec fn parsed_has_le(s: SectionMap) -> bool {
    ||| parsed_ltk(s, "LongTermKey"@) is Some
    ||| parsed_ltk(s, "PeripheralLongTermKey"@) is Some
    ||| parsed_irk(s) is Some
    ||| parsed_csrk(s, "LocalSignatureKey"@) is Some
    ||| parsed_csrk(s, "RemoteSignatureKey"@) is Some
    ||| parsed_address_type(s) is Some
}

/// The record described by the sections of the `info` file of device `mac`.
/// Invalid keys are left out.
pub open spec fn parsed_device(s: SectionMap, mac: Seq<char>) -> DeviceView {
    DeviceView {
        mac_address: upper(mac),
        name: parsed_name(s, mac),
        pending_deletion: None,
        classic: parsed_classic(s),
        le: if parsed_has_le(s) {
            Some(
                LeKeysView {
                    ltk: parsed_ltk(s, "LongTermKey"@),
                    peripheral_ltk: parsed_ltk(s, "PeripheralLongTermKey"@),
                    irk: parsed_irk(s),
                    irk_encoding: if parsed_irk(s) is Some {
                        Some("windows"@)
                    } else {
                        None
                    },
                    csrk_local: parsed_csrk(s, "LocalSignatureKey"@),
                    csrk_remote: parsed_csrk(s, "RemoteSignatureKey"@),
                    address_type: parsed_address_type(s),
                },
            )
        } else {
            None
        },
    }
}

fn parse_field(v: Option<&String>, max: u64) -> (r: Option<u64>)
    ensures
        match r {
            Some(x) => parse_opt(opt_view_str(v), max as nat) == Some(x as nat) && x <= max,
            None => parse_opt(opt_view_str(v), max as nat) is None,
        },
{
    match v {
        Some(t) => {
            let c = chars_of(t.as_str());
            let r = parse_unsigned_exec(c.as_slice(), max);
            proof {
                if let Some(x) = r {
                    assert(parse_unsigned(c@, max as nat) == Some(x as nat));
                }
            }
            r
        },
        None => None,
    }
}

fn read_key(sections: &InfoSections, sec: &str) -> (r: Option<String>)
    ensures
        opt_seq(r) == section_key(sections@, sec@),
{
    proof {
        reveal_strlit("Key");
    }
    match sections.get(sec, "Key") {
        Some(k) => {
            match validate_bluetooth_key(k.as_str(), sec) {
                Ok(()) => Some(k.clone()),
                Err(_) => None,
            }
        },
        None => None,
    }
}

fn read_ltk(sections: &InfoSections, sec: &str) -> (r: Option<LeLongTermKey>)
    ensures
        crate::bluetooth::opt_view(r) == parsed_ltk(sections@, sec@),
{
    match read_key(sections, sec) {
        Some(key) => {
            let authenticated = match parse_field(sections.get(sec, "Authenticated"), 255) {
                Some(x) => Some(x as u8),
                None => None,
            };
            let enc_size = match parse_field(sections.get(sec, "EncSize"), 255) {
                Some(x) => Some(x as u8),
                None => None,
            };
            let ediv = match parse_field(sections.get(sec, "EDiv"), 65535) {
                Some(x) => Some(x as u16),
                None => None,
            };
            let rand = parse_field(sections.get(sec, "Rand"), 0xffff_ffff_ffff_ffff);
            Some(LeLongTermKey { key, authenticated, enc_size, ediv, rand })
        },
        None => None,
    }
}

fn read_csrk(sections: &InfoSections, sec: &str) -> (r: Option<CsrkKey>)
    ensures
        crate::bluetooth::opt_view(r) == parsed_csrk(sections@, sec@),
{
    match read_key(sections, sec) {
        Some(key) => {
            let counter = match parse_field(sections.get(sec, "Counter"), 0xffff_ffff) {
                Some(x) => x as u32,
                None => 0,
            };
            let authenticated = match sections.get(sec, "Authenticated") {
                Some(a) => eq_ignore_case_exec(a.as_str(), "true"),
                None => false,
            };
            Some(CsrkKey { key, counter, authenticated })
        },
        None => None,
    }
}

impl LinuxBluetoothManager {
    /// Parses the sections of an `info` file into sections (see `InfoSections::parse`).
    pub fn parse_info_file(content: &str) -> (r: InfoSections)
        ensures
            r@ == spec_parse_info(content@),
    {
        InfoSections::parse(content)
    }

    /// The record of device `device_mac` described by the `info` file `content`
    /// (`parsed_device`); an error when it holds no key material.
    pub fn parse_device_content(content: &str, device_mac: &str) -> (r: Result<
        BluetoothDevice,
        String,
    >)
        ensures
            r is Ok <==> spec_has_keys(parsed_device(spec_parse_info(content@), device_mac@)),
            r matches Ok(d) ==> d@ == parsed_device(spec_parse_info(content@), device_mac@),
            r matches Err(e) ==> e@ == "No keys found for device "@ + device_mac@,
    {
        let sections = Self::parse_info_file(content);
        let ghost s = sections@;
        let classic = match read_key(&sections, "LinkKey") {
            Some(key) => {
                let key_type = match parse_field(sections.get("LinkKey", "Type"), 255) {
                    Some(x) => x as u8,
                    None => 4,
                };
                let pin_length = match parse_field(sections.get("LinkKey", "PINLength"), 255) {
                    Some(x) => x as u8,
                    None => 0,
                };
                Some(ClassicKeys { link_key: key, key_type, pin_length })
            },
            None => None,
        };
        let ltk = read_ltk(&sections, "LongTermKey");
        let peripheral_ltk = read_ltk(&sections, "PeripheralLongTermKey");
        let irk = match read_key(&sections, "IdentityResolvingKey") {
            Some(key) => match reverse_irk(key.as_str()) {
                Ok(r) => Some(r),
                Err(_) => None,
            },
            None => None,
        };
        let irk_encoding = if irk.is_some() {
            Some(string_from("windows"))
        } else {
            None
        };
        let csrk_local = read_csrk(&sections, "LocalSignatureKey");
        let csrk_remote = read_csrk(&sections, "RemoteSignatureKey");
        let address_type = match sections.get("General", "AddressType") {
            Some(t) => if str_eq(t.as_str(), "static") {
                Some(string_from("random"))
            } else {
                Some(t.clone())
            },
            None => None,
        };
        let name_value = match sections.get("General", "Name") {
            Some(n) => Some(n),
            None => sections.get("General", "Alias"),
        };
        let name = match name_value {
            Some(n) => if useful_device_name(n.as_str(), device_mac) {
                Some(n.clone())
            } else {
                None
            },
            None => None,
        };
        let has_le = ltk.is_some() || peripheral_ltk.is_some() || irk.is_some() || csrk_local.is_some()
            || csrk_remote.is_some() || address_type.is_some();
        let le = if has_le {
            Some(
                LeKeys {
                    ltk,
                    peripheral_ltk,
                    irk,
                    irk_encoding,
                    csrk_local,
                    csrk_remote,
                    address_type,
                },
            )
        } else {
            None
        };
        let device = BluetoothDevice {
            mac_address: normalize_mac(device_mac),
            name,
            pending_deletion: None,
            classic,
            le,
        };
        proof {
            assert(device@ == parsed_device(s, device_mac@));
        }
        if !device.has_keys() {
            let mut msg = string_from("No keys found for device ");
            push_chars(&mut msg, chars_of(device_mac).as_slice());
            assert(msg@ =~= "No keys found for device "@ + device_mac@);
            return Err(msg);
        }
        Ok(device)
    }
}


/// `m` with `key` of section `sec` set to `val`.
pub open spec fn set_value(m: SectionMap, sec: Seq<char>, key: Seq<char>, val: Seq<char>) -> SectionMap {
    m.insert(sec, section_or_empty(m, sec).insert(key, val))
}

/// `m` with `key` of section `sec` set to `val` when there is one.
pub open spec fn set_opt(m: SectionMap, sec: Seq<char>, key: Seq<char>, val: Option<Seq<char>>) -> SectionMap {
    match val {
        Some(v) => set_value(m, sec, key, v),
        None => m,
    }
}

pub open spec fn opt_decimal_u8(v: Option<u8>) -> Option<Seq<char>> {
    match v {
        Some(x) => Some(decimal(x as nat)),
        None => None,
    }
}

pub open spec fn opt_decimal_u16(v: Option<u16>) -> Option<Seq<char>> {
    match v {
        Some(x) => Some(decimal(x as nat)),
        None => None,
    }
}

pub open spec fn opt_decimal_u64(v: Option<u64>) -> Option<Seq<char>> {
    match v {
        Some(x) => Some(decimal(x as nat)),
        None => None,
    }
}

/// The `SupportedTechnologies` of a new bond.
pub open spec fn supported_technologies(d: DeviceView) -> Seq<char> {
    if d.classic is Some && d.le is Some {
        "BR/EDR;LE;"@
    } else if d.classic is Some {
        "BR/EDR;"@
    } else {
        "LE;"@
    }
}

/// `[General]` of a written bond: a new bond is trusted and declares its transports;
/// a useful name is stored.
pub open spec fn with_general(m: SectionMap, creating: bool, d: DeviceView) -> SectionMap {
    let m1 = if creating {
        set_value(
            set_value(m, "General"@, "Trusted"@, "true"@),
            "General"@,
            "SupportedTechnologies"@,
            supported_technologies(d),
        )
    } else {
        m
    };
    match d.name {
        Some(n) => if spec_useful_device_name(n, d.mac_address) {
            set_value(m1, "General"@, "Name"@, n)
        } else {
            m1
        },
        None => m1,
    }
}

/// `[LinkKey]` of a written bond.
pub open spec fn with_classic(m: SectionMap, d: DeviceView) -> Result<SectionMap, Seq<char>> {
    match d.classic {
        Some(c) => if !valid_key_text(c.link_key) {
            Err(invalid_key_message("LinkKey"@))
        } else {
            Ok(
                set_value(
                    set_value(
                        set_value(m, "LinkKey"@, "Key"@, c.link_key),
                        "LinkKey"@,
                        "Type"@,
                        decimal(c.key_type as nat),
                    ),
                    "LinkKey"@,
                    "PINLength"@,
                    decimal(c.pin_length as nat),
                ),
            )
        },
        None => Ok(m),
    }
}

/// A long term key section of a written bond; unknown key types are written as 0.
pub open spec fn with_ltk(m: SectionMap, sec: Seq<char>, key_name: Seq<char>, k: Option<LtkView>) -> Result<
    SectionMap,
    Seq<char>,
> {
    match k {
        Some(k) => if !valid_key_text(k.key) {
            Err(invalid_key_message(key_name))
        } else {
            Ok(
                set_opt(
                    set_opt(
                        set_opt(
                            set_value(
                                set_value(m, sec, "Key"@, k.key),
                                sec,
                                "Authenticated"@,
                                decimal(
                                    crate::bluetooth::spec_authenticated_or_default(
                                        k.authenticated,
                                    ) as nat,
                                ),
                            ),
                            sec,
                            "EncSize"@,
                            opt_decimal_u8(k.enc_size),
                        ),
                        sec,
                        "EDiv"@,
                        opt_decimal_u16(k.ediv),
                    ),
                    sec,
                    "Rand"@,
                    opt_decimal_u64(k.rand),
                ),
            )
        },
        None => Ok(m),
    }
}

/// `[IdentityResolvingKey]` of a written bond: BlueZ byte order, from a key whose
/// shared byte order is known.
pub open spec fn with_irk(m: SectionMap, le: LeKeysView) -> Result<SectionMap, Seq<char>> {
    match le.irk {
        Some(irk) => if !valid_key_text(irk) {
            Err(invalid_key_message("IRK"@))
        } else if le.irk_encoding == Some("windows"@) {
            Ok(set_value(m, "IdentityResolvingKey"@, "Key"@, spec_reverse_irk(irk)))
        } else if le.irk_encoding is None {
            Err("Legacy IRK encoding must be verified before import"@)
        } else {
            Err("Unsupported IRK encoding"@)
        },
        None => Ok(m),
    }
}

/// A signature key section of a written bond.
pub open spec fn with_csrk(m: SectionMap, sec: Seq<char>, key_name: Seq<char>, c: Option<CsrkView>) -> Result<
    SectionMap,
    Seq<char>,
> {
    match c {
        Some(c) => if !valid_key_text(c.key) {
            Err(invalid_key_message(key_name))
        } else {
            Ok(
                set_value(
                    set_value(
                        set_value(m, sec, "Key"@, c.key),
                        sec,
                        "Counter"@,
                        decimal(c.counter as nat),
                    ),
                    sec,
                    "Authenticated"@,
                    bool_text(c.authenticated),
                ),
            )
        },
        None => Ok(m),
    }
}

/// `AddressType` of a written bond, in BlueZ's naming.
pub open spec fn with_address_type(m: SectionMap, le: LeKeysView) -> Result<SectionMap, Seq<char>> {
    match le.address_type {
        Some(t) => match spec_linux_address_type(t) {
            Some(v) => Ok(set_value(m, "General"@, "AddressType"@, v)),
            None => Err("Unsupported LE identity address type"@),
        },
        None => Ok(m),
    }
}

/// The LE sections of a written bond, in order.
pub open spec fn with_le(m: SectionMap, le: LeKeysView) -> Result<SectionMap, Seq<char>> {
    match with_ltk(m, "LongTermKey"@, "LTK"@, le.ltk) {
        Err(e) => Err(e),
        Ok(m1) => match with_ltk(m1, "PeripheralLongTermKey"@, "PeripheralLTK"@, le.peripheral_ltk) {
            Err(e) => Err(e),
            Ok(m2) => match with_irk(m2, le) {
                Err(e) => Err(e),
                Ok(m3) => match with_csrk(m3, "LocalSignatureKey"@, "CSRK (Local)"@, le.csrk_local) {
                    Err(e) => Err(e),
                    Ok(m4) => match with_csrk(
                        m4,
                        "RemoteSignatureKey"@,
                        "CSRK (Remote)"@,
                        le.csrk_remote,
                    ) {
                        Err(e) => Err(e),
                        Ok(m5) => with_address_type(m5, le),
                    },
                },
            },
        },
    }
}

/// The sections of the `info` file after writing bond `d` over the sections `existing`
/// (`creating`: there was no file). A new bond must be importable
/// (`spec_missing_record_reason`); fields that BlueVein does not manage are kept.
pub open spec fn spec_device_sections(existing: SectionMap, creating: bool, d: DeviceView) -> Result<
    SectionMap,
    Seq<char>,
> {
    if creating && spec_missing_record_reason(d) is Some {
        Err(spec_missing_record_reason(d).unwrap())
    } else {
        match with_classic(with_general(existing, creating, d), d) {
            Err(e) => Err(e),
            Ok(m) => match d.le {
                Some(le) => with_le(m, le),
                None => Ok(m),
            },
        }
    }
}

fn decimal_string(n: u64) -> (r: String)
    ensures
        r@ == decimal(n as nat),
{
    let mut r = String::new();
    push_decimal(&mut r, n);
    assert(r@ =~= decimal(n as nat));
    r
}

fn set_text(sections: &mut InfoSections, sec: &str, key: &str, val: String)
    ensures
        final(sections)@ == set_value(old(sections)@, sec@, key@, val@),
        info_sections_ok(old(sections).sections@) && plain_word(sec@) && plain_word(key@) && info_text(val@)
            ==> info_sections_ok(final(sections).sections@),
{
    let k = string_from(key);
    proof {
        if plain_word(sec@) && plain_word(key@) && info_text(val@) {
            lemma_plain_word_text(sec@);
            lemma_plain_entry(k, val);
        }
    }
    sections.set(sec, k, val);
}

/// The value of a number is plain text.
proof fn lemma_decimal_text(n: nat)
    ensures
        info_text(decimal(n)),
{
    lemma_decimal_plain(n);
    lemma_plain_word_text(decimal(n));
}

/// A valid key is plain text.
proof fn lemma_key_text(k: Seq<char>)
    requires
        valid_key_text(k),
    ensures
        info_text(k),
{
    lemma_hex_plain(k);
    lemma_plain_word_text(k);
}

/// The literal words that writing a bond uses are plain.
proof fn lemma_literals_plain()
    ensures
        plain_word("General"@),
        plain_word("LinkKey"@),
        plain_word("IdentityResolvingKey"@),
        plain_word("Trusted"@),
        plain_word("SupportedTechnologies"@),
        plain_word("Name"@),
        plain_word("AddressType"@),
        plain_word("Key"@),
        plain_word("Type"@),
        plain_word("PINLength"@),
        plain_word("Authenticated"@),
        plain_word("EncSize"@),
        plain_word("EDiv"@),
        plain_word("Rand"@),
        plain_word("Counter"@),
        plain_word("LongTermKey"@),
        plain_word("PeripheralLongTermKey"@),
        plain_word("LocalSignatureKey"@),
        plain_word("RemoteSignatureKey"@),
        plain_word("true"@),
        plain_word("false"@),
        plain_word("BR/EDR;LE;"@),
        plain_word("BR/EDR;"@),
        plain_word("LE;"@),
        plain_word("public"@),
        plain_word("static"@),
{
    reveal_strlit("General");
    reveal_strlit("LinkKey");
    reveal_strlit("IdentityResolvingKey");
    reveal_strlit("Trusted");
    reveal_strlit("SupportedTechnologies");
    reveal_strlit("Name");
    reveal_strlit("AddressType");
    reveal_strlit("Key");
    reveal_strlit("Type");
    reveal_strlit("PINLength");
    reveal_strlit("Authenticated");
    reveal_strlit("EncSize");
    reveal_strlit("EDiv");
    reveal_strlit("Rand");
    reveal_strlit("Counter");
    reveal_strlit("LongTermKey");
    reveal_strlit("PeripheralLongTermKey");
    reveal_strlit("LocalSignatureKey");
    reveal_strlit("RemoteSignatureKey");
    reveal_strlit("true");
    reveal_strlit("false");
    reveal_strlit("BR/EDR;LE;");
    reveal_strlit("BR/EDR;");
    reveal_strlit("LE;");
    reveal_strlit("public");
    reveal_strlit("static");
}

fn write_ltk(sections: &mut InfoSections, sec: &str, key_name: &str, k: &Option<LeLongTermKey>) -> (r: Result<(), String>)
    ensures
        match with_ltk(old(sections)@, sec@, key_name@, crate::bluetooth::opt_view(*k)) {
            Ok(m) => r is Ok && final(sections)@ == m,
            Err(e) => r matches Err(x) && x@ == e,
        },
        info_sections_ok(old(sections).sections@) && plain_word(sec@) && r is Ok ==> info_sections_ok(
            final(sections).sections@,
        ),
{
    proof {
        lemma_literals_plain();
    }
    match k {
        Some(k) => {
            validate_bluetooth_key(k.key.as_str(), key_name)?;
            proof {
                lemma_key_text(k.key@);
                lemma_decimal_text(crate::bluetooth::spec_authenticated_or_default(k.authenticated) as nat);
            }
            set_text(sections, sec, "Key", k.key.clone());
            set_text(sections, sec, "Authenticated", decimal_string(k.authenticated_or_default() as u64));
            if let Some(e) = k.enc_size {
                proof {
                    lemma_decimal_text(e as nat);
                }
                set_text(sections, sec, "EncSize", decimal_string(e as u64));
            }
            if let Some(e) = k.ediv {
                proof {
                    lemma_decimal_text(e as nat);
                }
                set_text(sections, sec, "EDiv", decimal_string(e as u64));
            }
            if let Some(e) = k.rand {
                proof {
                    lemma_decimal_text(e as nat);
                }
                set_text(sections, sec, "Rand", decimal_string(e));
            }
            Ok(())
        },
        None => Ok(()),
    }
}

fn write_csrk(sections: &mut InfoSections, sec: &str, key_name: &str, c: &Option<CsrkKey>) -> (r: Result<(), String>)
    ensures
        match with_csrk(old(sections)@, sec@, key_name@, crate::bluetooth::opt_view(*c)) {
            Ok(m) => r is Ok && final(sections)@ == m,
            Err(e) => r matches Err(x) && x@ == e,
        },
        info_sections_ok(old(sections).sections@) && plain_word(sec@) && r is Ok ==> info_sections_ok(
            final(sections).sections@,
        ),
{
    proof {
        lemma_literals_plain();
    }
    match c {
        Some(c) => {
            validate_bluetooth_key(c.key.as_str(), key_name)?;
            proof {
                lemma_key_text(c.key@);
                lemma_decimal_text(c.counter as nat);
                lemma_plain_word_text("true"@);
                lemma_plain_word_text("false"@);
                reveal_strlit("true");
                reveal_strlit("false");
                assert(bool_text(true) =~= "true"@);
                assert(bool_text(false) =~= "false"@);
            }
            set_text(sections, sec, "Key", c.key.clone());
            set_text(sections, sec, "Counter", decimal_string(c.counter as u64));
            let mut a = String::new();
            push_bool(&mut a, c.authenticated);
            assert(a@ =~= bool_text(c.authenticated));
            set_text(sections, sec, "Authenticated", a);
            Ok(())
        },
        None => Ok(()),
    }
}

impl LinuxBluetoothManager {
    /// The sections of the `info` file after writing `device` over `existing`
    /// (`spec_device_sections`); `creating` tells that there was no file yet.
    pub fn device_file_sections(existing: InfoSections, creating: bool, device: &BluetoothDevice) -> (r: Result<
        InfoSections,
        String,
    >)
        ensures
            match spec_device_sections(existing@, creating, device@) {
                Ok(m) => r matches Ok(s) && s@ == m,
                Err(e) => r matches Err(x) && x@ == e,
            },
            info_sections_ok(existing.sections@) && name_renders(device@) ==> (r matches Ok(s)
                ==> info_sections_ok(s.sections@)),
    {
        proof {
            lemma_literals_plain();
        }
        if creating {
            if let Some(reason) = missing_record_reason(device) {
                return Err(reason);
            }
        }
        let mut sections = existing;
        if creating {
            set_text(&mut sections, "General", "Trusted", string_from("true"));
            let tech = if device.classic.is_some() && device.le.is_some() {
                "BR/EDR;LE;"
            } else if device.classic.is_some() {
                "BR/EDR;"
            } else {
                "LE;"
            };
            set_text(&mut sections, "General", "SupportedTechnologies", string_from(tech));
        }
        if let Some(name) = &device.name {
            if useful_device_name(name.as_str(), device.mac_address.as_str()) {
                set_text(&mut sections, "General", "Name", name.clone());
            }
        }
        if let Some(classic) = &device.classic {
            validate_bluetooth_key(classic.link_key.as_str(), "LinkKey")?;
            proof {
                lemma_key_text(classic.link_key@);
                lemma_decimal_text(classic.key_type as nat);
                lemma_decimal_text(classic.pin_length as nat);
            }
            set_text(&mut sections, "LinkKey", "Key", classic.link_key.clone());
            set_text(&mut sections, "LinkKey", "Type", decimal_string(classic.key_type as u64));
            set_text(&mut sections, "LinkKey", "PINLength", decimal_string(classic.pin_length as u64));
        }
        if let Some(le) = &device.le {
            write_ltk(&mut sections, "LongTermKey", "LTK", &le.ltk)?;
            write_ltk(&mut sections, "PeripheralLongTermKey", "PeripheralLTK", &le.peripheral_ltk)?;
            if let Some(irk) = &le.irk {
                validate_bluetooth_key(irk.as_str(), "IRK")?;
                let windows = match &le.irk_encoding {
                    Some(e) => str_eq(e.as_str(), "windows"),
                    None => false,
                };
                if windows {
                    let reversed = reverse_irk(irk.as_str())?;
                    proof {
                        lemma_reverse_irk_involution(irk@);
                        lemma_key_text(reversed@);
                    }
                    set_text(&mut sections, "IdentityResolvingKey", "Key", reversed);
                } else if le.irk_encoding.is_none() {
                    return Err(string_from("Legacy IRK encoding must be verified before import"));
                } else {
                    return Err(string_from("Unsupported IRK encoding"));
                }
            }
            write_csrk(&mut sections, "LocalSignatureKey", "CSRK (Local)", &le.csrk_local)?;
            write_csrk(&mut sections, "RemoteSignatureKey", "CSRK (Remote)", &le.csrk_remote)?;
            if let Some(t) = &le.address_type {
                let v = linux_address_type(t.as_str())?;
                proof {
                    lemma_plain_word_text("public"@);
                    lemma_plain_word_text("static"@);
                }
                set_text(&mut sections, "General", "AddressType", string_from(v));
            }
        }
        Ok(sections)
    }
}



/// The entries of an `info` file that writing a bond may set; BlueZ and the user own
/// all others (such as a local `Alias`).
pub open spec fn managed_entry(sec: Seq<char>, key: Seq<char>) -> bool {
    ||| sec == "General"@ && (key == "Trusted"@ || key == "SupportedTechnologies"@ || key == "Name"@
        || key == "AddressType"@)
    ||| sec == "LinkKey"@ && (key == "Key"@ || key == "Type"@ || key == "PINLength"@)
    ||| (sec == "LongTermKey"@ || sec == "PeripheralLongTermKey"@) && (key == "Key"@ || key
        == "Authenticated"@ || key == "EncSize"@ || key == "EDiv"@ || key == "Rand"@)
    ||| sec == "IdentityResolvingKey"@ && key == "Key"@
    ||| (sec == "LocalSignatureKey"@ || sec == "RemoteSignatureKey"@) && (key == "Key"@ || key
        == "Counter"@ || key == "Authenticated"@)
}

/// `b` holds the same unmanaged entries as `a`.
pub open spec fn unmanaged_kept(a: SectionMap, b: SectionMap) -> bool {
    forall|sec: Seq<char>, key: Seq<char>|
        !managed_entry(sec, key) ==> #[trigger] info_value(b, sec, key) == info_value(a, sec, key)
}

proof fn lemma_set_managed(m: SectionMap, sec: Seq<char>, key: Seq<char>, v: Seq<char>)
    requires
        managed_entry(sec, key),
    ensures
        unmanaged_kept(m, set_value(m, sec, key, v)),
{
    assert forall|s2: Seq<char>, k2: Seq<char>| !managed_entry(s2, k2) implies #[trigger] info_value(
        set_value(m, sec, key, v),
        s2,
        k2,
    ) == info_value(m, s2, k2) by {
        assert(!(s2 == sec && k2 == key));
    }
}

proof fn lemma_set_opt_managed(m: SectionMap, sec: Seq<char>, key: Seq<char>, v: Option<Seq<char>>)
    requires
        managed_entry(sec, key),
    ensures
        unmanaged_kept(m, set_opt(m, sec, key, v)),
{
    if let Some(x) = v {
        lemma_set_managed(m, sec, key, x);
    }
}

proof fn lemma_ltk_kept(m: SectionMap, sec: Seq<char>, key_name: Seq<char>, k: Option<LtkView>)
    requires
        sec == "LongTermKey"@ || sec == "PeripheralLongTermKey"@,
        with_ltk(m, sec, key_name, k) is Ok,
    ensures
        unmanaged_kept(m, with_ltk(m, sec, key_name, k)->Ok_0),
{
    if let Some(k) = k {
        let m1 = set_value(m, sec, "Key"@, k.key);
        let m2 = set_value(
            m1,
            sec,
            "Authenticated"@,
            decimal(crate::bluetooth::spec_authenticated_or_default(k.authenticated) as nat),
        );
        let m3 = set_opt(m2, sec, "EncSize"@, opt_decimal_u8(k.enc_size));
        let m4 = set_opt(m3, sec, "EDiv"@, opt_decimal_u16(k.ediv));
        lemma_set_managed(m, sec, "Key"@, k.key);
        lemma_set_managed(
            m1,
            sec,
            "Authenticated"@,
            decimal(crate::bluetooth::spec_authenticated_or_default(k.authenticated) as nat),
        );
        lemma_set_opt_managed(m2, sec, "EncSize"@, opt_decimal_u8(k.enc_size));
        lemma_set_opt_managed(m3, sec, "EDiv"@, opt_decimal_u16(k.ediv));
        lemma_set_opt_managed(m4, sec, "Rand"@, opt_decimal_u64(k.rand));
    }
}

proof fn lemma_csrk_kept(m: SectionMap, sec: Seq<char>, key_name: Seq<char>, c: Option<CsrkView>)
    requires
        sec == "LocalSignatureKey"@ || sec == "RemoteSignatureKey"@,
        with_csrk(m, sec, key_name, c) is Ok,
    ensures
        unmanaged_kept(m, with_csrk(m, sec, key_name, c)->Ok_0),
{
    if let Some(c) = c {
        let m1 = set_value(m, sec, "Key"@, c.key);
        let m2 = set_value(m1, sec, "Counter"@, decimal(c.counter as nat));
        lemma_set_managed(m, sec, "Key"@, c.key);
        lemma_set_managed(m1, sec, "Counter"@, decimal(c.counter as nat));
        lemma_set_managed(m2, sec, "Authenticated"@, bool_text(c.authenticated));
    }
}

/// Writing a bond keeps every entry it does not manage (`managed_entry`): unrelated
/// sections, and entries such as a local `Alias`, survive unchanged.
pub proof fn lemma_unmanaged_entries_kept(existing: SectionMap, creating: bool, d: DeviceView)
    requires
        spec_device_sections(existing, creating, d) is Ok,
    ensures
        unmanaged_kept(existing, spec_device_sections(existing, creating, d)->Ok_0),
{
    let m0 = if creating {
        set_value(
            set_value(existing, "General"@, "Trusted"@, "true"@),
            "General"@,
            "SupportedTechnologies"@,
            supported_technologies(d),
        )
    } else {
        existing
    };
    if creating {
        let t = set_value(existing, "General"@, "Trusted"@, "true"@);
        lemma_set_managed(existing, "General"@, "Trusted"@, "true"@);
        lemma_set_managed(t, "General"@, "SupportedTechnologies"@, supported_technologies(d));
    }
    let g = with_general(existing, creating, d);
    if let Some(n) = d.name {
        if spec_useful_device_name(n, d.mac_address) {
            lemma_set_managed(m0, "General"@, "Name"@, n);
        }
    }
    assert(unmanaged_kept(existing, g));
    let c = with_classic(g, d)->Ok_0;
    if let Some(k) = d.classic {
        let c1 = set_value(g, "LinkKey"@, "Key"@, k.link_key);
        let c2 = set_value(c1, "LinkKey"@, "Type"@, decimal(k.key_type as nat));
        lemma_set_managed(g, "LinkKey"@, "Key"@, k.link_key);
        lemma_set_managed(c1, "LinkKey"@, "Type"@, decimal(k.key_type as nat));
        lemma_set_managed(c2, "LinkKey"@, "PINLength"@, decimal(k.pin_length as nat));
    }
    assert(unmanaged_kept(existing, c));
    if let Some(le) = d.le {
        let m1 = with_ltk(c, "LongTermKey"@, "LTK"@, le.ltk)->Ok_0;
        lemma_ltk_kept(c, "LongTermKey"@, "LTK"@, le.ltk);
        let m2 = with_ltk(m1, "PeripheralLongTermKey"@, "PeripheralLTK"@, le.peripheral_ltk)->Ok_0;
        lemma_ltk_kept(m1, "PeripheralLongTermKey"@, "PeripheralLTK"@, le.peripheral_ltk);
        let m3 = with_irk(m2, le)->Ok_0;
        if let Some(irk) = le.irk {
            lemma_set_managed(m2, "IdentityResolvingKey"@, "Key"@, spec_reverse_irk(irk));
        }
        let m4 = with_csrk(m3, "LocalSignatureKey"@, "CSRK (Local)"@, le.csrk_local)->Ok_0;
        lemma_csrk_kept(m3, "LocalSignatureKey"@, "CSRK (Local)"@, le.csrk_local);
        let m5 = with_csrk(m4, "RemoteSignatureKey"@, "CSRK (Remote)"@, le.csrk_remote)->Ok_0;
        lemma_csrk_kept(m4, "RemoteSignatureKey"@, "CSRK (Remote)"@, le.csrk_remote);
        if let Some(t) = le.address_type {
            if let Some(v) = spec_linux_address_type(t) {
                lemma_set_managed(m5, "General"@, "AddressType"@, v);
            }
        }
    }
}


/// Section `sec` has no entry.
pub open spec fn fresh_section(m: SectionMap, sec: Seq<char>) -> bool {
    forall|k: Seq<char>| #[trigger] info_value(m, sec, k) is None
}

/// `b` differs from `a` at most in section `sec`.
pub open spec fn only_section_changed(a: SectionMap, b: SectionMap, sec: Seq<char>) -> bool {
    forall|s2: Seq<char>, k: Seq<char>| s2 != sec ==> #[trigger] info_value(b, s2, k) == info_value(a, s2, k)
}

proof fn lemma_set_value_lookup(m: SectionMap, sec: Seq<char>, key: Seq<char>, v: Seq<char>)
    ensures
        forall|s2: Seq<char>, k2: Seq<char>| #[trigger] info_value(set_value(m, sec, key, v), s2, k2) == if s2
            == sec && k2 == key {
            Some(v)
        } else {
            info_value(m, s2, k2)
        },
{
}

proof fn lemma_set_opt_lookup(m: SectionMap, sec: Seq<char>, key: Seq<char>, v: Option<Seq<char>>)
    ensures
        forall|s2: Seq<char>, k2: Seq<char>| #[trigger] info_value(set_opt(m, sec, key, v), s2, k2) == if s2
            == sec && k2 == key && v is Some {
            v
        } else {
            info_value(m, s2, k2)
        },
{
    if let Some(x) = v {
        lemma_set_value_lookup(m, sec, key, x);
    }
}

proof fn lemma_literal_keys()
    ensures
        "Key"@ != "Authenticated"@,
        "Key"@ != "EncSize"@,
        "Key"@ != "EDiv"@,
        "Key"@ != "Rand"@,
        "Key"@ != "Counter"@,
        "Key"@ != "Type"@,
        "Key"@ != "PINLength"@,
        "Authenticated"@ != "EncSize"@,
        "Authenticated"@ != "EDiv"@,
        "Authenticated"@ != "Rand"@,
        "Authenticated"@ != "Counter"@,
        "EncSize"@ != "EDiv"@,
        "EncSize"@ != "Rand"@,
        "EDiv"@ != "Rand"@,
        "Type"@ != "PINLength"@,
        "Name"@ != "Trusted"@,
        "Name"@ != "SupportedTechnologies"@,
        "Name"@ != "AddressType"@,
        "Alias"@ != "Trusted"@,
        "Alias"@ != "SupportedTechnologies"@,
        "Alias"@ != "Name"@,
        "Alias"@ != "AddressType"@,
        "AddressType"@ != "Trusted"@,
        "AddressType"@ != "SupportedTechnologies"@,
        "true"@ != "false"@,
        "static"@ != "public"@,
        "random"@ != "public"@,
        "random"@ != "static"@,
        "windows"@ != "public"@,
{
    reveal_strlit("Key");
    reveal_strlit("Authenticated");
    reveal_strlit("EncSize");
    reveal_strlit("EDiv");
    reveal_strlit("Rand");
    reveal_strlit("Counter");
    reveal_strlit("Type");
    reveal_strlit("PINLength");
    reveal_strlit("Name");
    reveal_strlit("Alias");
    reveal_strlit("Trusted");
    reveal_strlit("SupportedTechnologies");
    reveal_strlit("AddressType");
    reveal_strlit("true");
    reveal_strlit("false");
    reveal_strlit("static");
    reveal_strlit("public");
    reveal_strlit("random");
    reveal_strlit("windows");
    assert("Key"@.len() != "Authenticated"@.len());
    assert("Key"@.len() != "EncSize"@.len());
    assert("Key"@.len() != "EDiv"@.len());
    assert("Key"@.len() != "Rand"@.len());
    assert("Key"@.len() != "Counter"@.len());
    assert("Key"@.len() != "Type"@.len());
    assert("Key"@.len() != "PINLength"@.len());
    assert("Authenticated"@.len() != "EncSize"@.len());
    assert("Authenticated"@.len() != "EDiv"@.len());
    assert("Authenticated"@.len() != "Rand"@.len());
    assert("Authenticated"@.len() != "Counter"@.len());
    assert("EncSize"@.len() != "EDiv"@.len());
    assert("EncSize"@.len() != "Rand"@.len());
    assert("EDiv"@[0] != "Rand"@[0]);
    assert("Type"@.len() != "PINLength"@.len());
    assert("Name"@.len() != "Trusted"@.len());
    assert("Name"@.len() != "SupportedTechnologies"@.len());
    assert("Name"@.len() != "AddressType"@.len());
    assert("Alias"@.len() != "Trusted"@.len());
    assert("Alias"@.len() != "SupportedTechnologies"@.len());
    assert("Alias"@.len() != "Name"@.len());
    assert("Alias"@.len() != "AddressType"@.len());
    assert("AddressType"@.len() != "Trusted"@.len());
    assert("AddressType"@.len() != "SupportedTechnologies"@.len());
    assert("true"@.len() != "false"@.len());
    assert("static"@[0] != "public"@[0]);
    assert("random"@[0] != "public"@[0]);
    assert("random"@[0] != "static"@[0]);
    assert("windows"@.len() != "public"@.len());
}

proof fn lemma_literal_sections()
    ensures
        "General"@ != "LinkKey"@,
        "General"@ != "LongTermKey"@,
        "General"@ != "PeripheralLongTermKey"@,
        "General"@ != "IdentityResolvingKey"@,
        "General"@ != "LocalSignatureKey"@,
        "General"@ != "RemoteSignatureKey"@,
        "LinkKey"@ != "LongTermKey"@,
        "LinkKey"@ != "PeripheralLongTermKey"@,
        "LinkKey"@ != "IdentityResolvingKey"@,
        "LinkKey"@ != "LocalSignatureKey"@,
        "LinkKey"@ != "RemoteSignatureKey"@,
        "LongTermKey"@ != "PeripheralLongTermKey"@,
        "LongTermKey"@ != "IdentityResolvingKey"@,
        "LongTermKey"@ != "LocalSignatureKey"@,
        "LongTermKey"@ != "RemoteSignatureKey"@,
        "PeripheralLongTermKey"@ != "IdentityResolvingKey"@,
        "PeripheralLongTermKey"@ != "LocalSignatureKey"@,
        "PeripheralLongTermKey"@ != "RemoteSignatureKey"@,
        "IdentityResolvingKey"@ != "LocalSignatureKey"@,
        "IdentityResolvingKey"@ != "RemoteSignatureKey"@,
        "LocalSignatureKey"@ != "RemoteSignatureKey"@,
{
    reveal_strlit("General");
    reveal_strlit("LinkKey");
    reveal_strlit("LongTermKey");
    reveal_strlit("PeripheralLongTermKey");
    reveal_strlit("IdentityResolvingKey");
    reveal_strlit("LocalSignatureKey");
    reveal_strlit("RemoteSignatureKey");
    assert("General"@[0] != "LinkKey"@[0]);
    assert("General"@.len() != "LongTermKey"@.len());
    assert("General"@.len() != "PeripheralLongTermKey"@.len());
    assert("General"@.len() != "IdentityResolvingKey"@.len());
    assert("General"@.len() != "LocalSignatureKey"@.len());
    assert("General"@.len() != "RemoteSignatureKey"@.len());
    assert("LinkKey"@.len() != "LongTermKey"@.len());
    assert("LinkKey"@.len() != "PeripheralLongTermKey"@.len());
    assert("LinkKey"@.len() != "IdentityResolvingKey"@.len());
    assert("LinkKey"@.len() != "LocalSignatureKey"@.len());
    assert("LinkKey"@.len() != "RemoteSignatureKey"@.len());
    assert("LongTermKey"@.len() != "PeripheralLongTermKey"@.len());
    assert("LongTermKey"@.len() != "IdentityResolvingKey"@.len());
    assert("LongTermKey"@.len() != "LocalSignatureKey"@.len());
    assert("LongTermKey"@.len() != "RemoteSignatureKey"@.len());
    assert("PeripheralLongTermKey"@.len() != "IdentityResolvingKey"@.len());
    assert("PeripheralLongTermKey"@.len() != "LocalSignatureKey"@.len());
    assert("PeripheralLongTermKey"@.len() != "RemoteSignatureKey"@.len());
    assert("IdentityResolvingKey"@.len() != "LocalSignatureKey"@.len());
    assert("IdentityResolvingKey"@.len() != "RemoteSignatureKey"@.len());
    assert("LocalSignatureKey"@.len() != "RemoteSignatureKey"@.len());
}

proof fn lemma_ltk_written(m: SectionMap, sec: Seq<char>, key_name: Seq<char>, k: Option<LtkView>)
    requires
        k matches Some(x) ==> valid_key_text(x.key) && complete_ltk(x),
        fresh_section(m, sec),
    ensures
        with_ltk(m, sec, key_name, k) is Ok,
        only_section_changed(m, with_ltk(m, sec, key_name, k)->Ok_0, sec),
        parsed_ltk(with_ltk(m, sec, key_name, k)->Ok_0, sec) == k,
{
    lemma_literal_keys();
    if let Some(x) = k {
        let a = crate::bluetooth::spec_authenticated_or_default(x.authenticated);
        let m1 = set_value(m, sec, "Key"@, x.key);
        let m2 = set_value(m1, sec, "Authenticated"@, decimal(a as nat));
        let m3 = set_opt(m2, sec, "EncSize"@, opt_decimal_u8(x.enc_size));
        let m4 = set_opt(m3, sec, "EDiv"@, opt_decimal_u16(x.ediv));
        let m5 = set_opt(m4, sec, "Rand"@, opt_decimal_u64(x.rand));
        lemma_set_value_lookup(m, sec, "Key"@, x.key);
        lemma_set_value_lookup(m1, sec, "Authenticated"@, decimal(a as nat));
        lemma_set_opt_lookup(m2, sec, "EncSize"@, opt_decimal_u8(x.enc_size));
        lemma_set_opt_lookup(m3, sec, "EDiv"@, opt_decimal_u16(x.ediv));
        lemma_set_opt_lookup(m4, sec, "Rand"@, opt_decimal_u64(x.rand));
        lemma_parse_decimal(a as nat, 255);
        lemma_parse_decimal(x.enc_size.unwrap() as nat, 255);
        lemma_parse_decimal(x.ediv.unwrap() as nat, 65535);
        lemma_parse_decimal(x.rand.unwrap() as nat, 0xffff_ffff_ffff_ffff);
        assert(info_value(m5, sec, "Key"@) == Some(x.key));
        assert(info_value(m5, sec, "Authenticated"@) == Some(decimal(a as nat)));
        assert(info_value(m5, sec, "EncSize"@) == Some(decimal(x.enc_size.unwrap() as nat)));
        assert(info_value(m5, sec, "EDiv"@) == Some(decimal(x.ediv.unwrap() as nat)));
        assert(info_value(m5, sec, "Rand"@) == Some(decimal(x.rand.unwrap() as nat)));
    } else {
        assert(info_value(m, sec, "Key"@) is None);
    }
}

proof fn lemma_csrk_written(m: SectionMap, sec: Seq<char>, key_name: Seq<char>, c: Option<CsrkView>)
    requires
        c matches Some(x) ==> valid_key_text(x.key),
        fresh_section(m, sec),
    ensures
        with_csrk(m, sec, key_name, c) is Ok,
        only_section_changed(m, with_csrk(m, sec, key_name, c)->Ok_0, sec),
        parsed_csrk(with_csrk(m, sec, key_name, c)->Ok_0, sec) == c,
{
    lemma_literal_keys();
    if let Some(x) = c {
        let m1 = set_value(m, sec, "Key"@, x.key);
        let m2 = set_value(m1, sec, "Counter"@, decimal(x.counter as nat));
        let m3 = set_value(m2, sec, "Authenticated"@, bool_text(x.authenticated));
        lemma_set_value_lookup(m, sec, "Key"@, x.key);
        lemma_set_value_lookup(m1, sec, "Counter"@, decimal(x.counter as nat));
        lemma_set_value_lookup(m2, sec, "Authenticated"@, bool_text(x.authenticated));
        lemma_parse_decimal(x.counter as nat, 0xffff_ffff);
        reveal_strlit("true");
        assert(upper(bool_text(true)) =~= upper("true"@));
        assert(upper(bool_text(false)).len() != upper("true"@).len());
        assert(info_value(m3, sec, "Key"@) == Some(x.key));
        assert(info_value(m3, sec, "Counter"@) == Some(decimal(x.counter as nat)));
        assert(info_value(m3, sec, "Authenticated"@) == Some(bool_text(x.authenticated)));
    } else {
        assert(info_value(m, sec, "Key"@) is None);
    }
}

/// A bond in the form in which BlueZ storage keeps it exactly: upper-case address and
/// IRK, no deletion marker, a name only when BlueZ stores it (a useful one), no IRK
/// byte-order tag without an IRK, the identity address type in shared naming
/// (`public` or `random`), and valid signature keys.
pub open spec fn bluez_exact(d: DeviceView) -> bool {
    &&& d.mac_address == upper(d.mac_address)
    &&& d.pending_deletion is None
    &&& (d.name matches Some(n) ==> spec_useful_device_name(n, d.mac_address))
    &&& (d.le matches Some(le) ==> {
        &&& (le.irk matches Some(k) ==> k == upper(k))
        &&& (le.irk is None ==> le.irk_encoding is None)
        &&& le.address_type != Some("static"@)
        &&& (le.csrk_local matches Some(c) ==> valid_key_text(c.key))
        &&& (le.csrk_remote matches Some(c) ==> valid_key_text(c.key))
    })
}

proof fn lemma_le_written(c: SectionMap, d: DeviceView)
    requires
        d.le is Some,
        spec_missing_record_reason(d) is None,
        bluez_exact(d),
        fresh_section(c, "LongTermKey"@),
        fresh_section(c, "PeripheralLongTermKey"@),
        fresh_section(c, "IdentityResolvingKey"@),
        fresh_section(c, "LocalSignatureKey"@),
        fresh_section(c, "RemoteSignatureKey"@),
        info_value(c, "General"@, "AddressType"@) is None,
    ensures
        with_le(c, d.le.unwrap()) is Ok,
        ({
            let f = with_le(c, d.le.unwrap())->Ok_0;
            &&& parsed_ltk(f, "LongTermKey"@) == d.le.unwrap().ltk
            &&& parsed_ltk(f, "PeripheralLongTermKey"@) == d.le.unwrap().peripheral_ltk
            &&& parsed_irk(f) == d.le.unwrap().irk
            &&& parsed_csrk(f, "LocalSignatureKey"@) == d.le.unwrap().csrk_local
            &&& parsed_csrk(f, "RemoteSignatureKey"@) == d.le.unwrap().csrk_remote
            &&& parsed_address_type(f) == d.le.unwrap().address_type
            &&& parsed_address_type(f) is Some
            &&& forall|k: Seq<char>| #[trigger] info_value(f, "LinkKey"@, k) == info_value(c, "LinkKey"@, k)
            &&& forall|k: Seq<char>| k != "AddressType"@ ==> #[trigger] info_value(f, "General"@, k)
                == info_value(c, "General"@, k)
        }),
{
    lemma_literal_sections();
    lemma_literal_keys();
    let le = d.le.unwrap();
    let ks = present_ltks(le);
    if let Some(k) = le.ltk {
        assert(ks[0] == k);
        assert(ltk_reason(ks) is None);
    }
    if let Some(k) = le.peripheral_ltk {
        let i = if le.ltk is Some { 1int } else { 0int };
        assert(ks[i] == k);
        assert(ltk_reason(ks) is None);
        lemma_ltk_reason_index(ks, i);
    }
    if let Some(k) = le.ltk {
        lemma_ltk_reason_index(ks, 0);
    }
    lemma_ltk_written(c, "LongTermKey"@, "LTK"@, le.ltk);
    let m1 = with_ltk(c, "LongTermKey"@, "LTK"@, le.ltk)->Ok_0;
    lemma_ltk_written(m1, "PeripheralLongTermKey"@, "PeripheralLTK"@, le.peripheral_ltk);
    let m2 = with_ltk(m1, "PeripheralLongTermKey"@, "PeripheralLTK"@, le.peripheral_ltk)->Ok_0;
    let m3 = with_irk(m2, le)->Ok_0;
    if let Some(irk) = le.irk {
        lemma_reverse_irk_involution(irk);
        lemma_set_value_lookup(m2, "IdentityResolvingKey"@, "Key"@, spec_reverse_irk(irk));
        assert(info_value(m3, "IdentityResolvingKey"@, "Key"@) == Some(spec_reverse_irk(irk)));
    } else {
        assert(info_value(m3, "IdentityResolvingKey"@, "Key"@) is None);
    }
    lemma_csrk_written(m3, "LocalSignatureKey"@, "CSRK (Local)"@, le.csrk_local);
    let m4 = with_csrk(m3, "LocalSignatureKey"@, "CSRK (Local)"@, le.csrk_local)->Ok_0;
    lemma_csrk_written(m4, "RemoteSignatureKey"@, "CSRK (Remote)"@, le.csrk_remote);
    let m5 = with_csrk(m4, "RemoteSignatureKey"@, "CSRK (Remote)"@, le.csrk_remote)->Ok_0;
    let t = le.address_type.unwrap();
    let v = spec_linux_address_type(t).unwrap();
    lemma_set_value_lookup(m5, "General"@, "AddressType"@, v);
    let f = set_value(m5, "General"@, "AddressType"@, v);
    assert(info_value(f, "General"@, "AddressType"@) == Some(v));
    assert(parsed_ltk(f, "LongTermKey"@) == parsed_ltk(m1, "LongTermKey"@));
    assert(parsed_ltk(f, "PeripheralLongTermKey"@) == parsed_ltk(m2, "PeripheralLongTermKey"@));
    assert(parsed_csrk(f, "LocalSignatureKey"@) == parsed_csrk(m4, "LocalSignatureKey"@));
    assert(parsed_csrk(f, "RemoteSignatureKey"@) == parsed_csrk(m5, "RemoteSignatureKey"@));
    assert(info_value(f, "IdentityResolvingKey"@, "Key"@) == info_value(m3, "IdentityResolvingKey"@, "Key"@));
}

proof fn lemma_ltk_reason_index(ks: Seq<LtkView>, i: int)
    requires
        ltk_reason(ks) is None,
        0 <= i < ks.len(),
    ensures
        valid_key_text(ks[i].key),
        complete_ltk(ks[i]),
    decreases ks.len(),
{
    if i > 0 {
        assert(ks.drop_first()[i - 1] == ks[i]);
        lemma_ltk_reason_index(ks.drop_first(), i - 1);
    }
}

/// Sections that hold no setting that BlueVein manages: no key section of a bond and
/// no `Name`, `Alias` or `AddressType` in `[General]` (a new file holds none at all).
pub open spec fn unmanaged_only(m: SectionMap) -> bool {
    &&& fresh_section(m, "LinkKey"@)
    &&& fresh_section(m, "LongTermKey"@)
    &&& fresh_section(m, "PeripheralLongTermKey"@)
    &&& fresh_section(m, "IdentityResolvingKey"@)
    &&& fresh_section(m, "LocalSignatureKey"@)
    &&& fresh_section(m, "RemoteSignatureKey"@)
    &&& info_value(m, "General"@, "Name"@) is None
    &&& info_value(m, "General"@, "Alias"@) is None
    &&& info_value(m, "General"@, "AddressType"@) is None
}

/// A bond that BlueZ can import (`spec_missing_record_reason`), given in the form that
/// its storage keeps exactly (`bluez_exact`), reads back unchanged from the `info`
/// sections written for it over a file that holds only settings BlueVein does not
/// manage (`unmanaged_only`, such as a new file): writing the bond and parsing the file
/// round-trips.
pub proof fn lemma_bluez_round_trip(existing: SectionMap, creating: bool, d: DeviceView)
    requires
        spec_missing_record_reason(d) is None,
        bluez_exact(d),
        unmanaged_only(existing),
    ensures
        spec_device_sections(existing, creating, d) is Ok,
        parsed_device(spec_device_sections(existing, creating, d)->Ok_0, d.mac_address) == d,
{
    lemma_literal_sections();
    lemma_literal_keys();
    let e = existing;
    let m0 = if creating {
        set_value(
            set_value(e, "General"@, "Trusted"@, "true"@),
            "General"@,
            "SupportedTechnologies"@,
            supported_technologies(d),
        )
    } else {
        e
    };
    lemma_set_value_lookup(e, "General"@, "Trusted"@, "true"@);
    lemma_set_value_lookup(set_value(e, "General"@, "Trusted"@, "true"@), "General"@, "SupportedTechnologies"@, supported_technologies(d));
    let g = with_general(e, creating, d);
    if let Some(n) = d.name {
        lemma_set_value_lookup(m0, "General"@, "Name"@, n);
        assert(info_value(g, "General"@, "Name"@) == Some(n));
    } else {
        assert(info_value(g, "General"@, "Name"@) is None);
    }
    assert(info_value(g, "General"@, "Alias"@) is None);
    assert(info_value(g, "General"@, "AddressType"@) is None);
    let c = with_classic(g, d)->Ok_0;
    if let Some(k) = d.classic {
        let c1 = set_value(g, "LinkKey"@, "Key"@, k.link_key);
        let c2 = set_value(c1, "LinkKey"@, "Type"@, decimal(k.key_type as nat));
        lemma_set_value_lookup(g, "LinkKey"@, "Key"@, k.link_key);
        lemma_set_value_lookup(c1, "LinkKey"@, "Type"@, decimal(k.key_type as nat));
        lemma_set_value_lookup(c2, "LinkKey"@, "PINLength"@, decimal(k.pin_length as nat));
        lemma_parse_decimal(k.key_type as nat, 255);
        lemma_parse_decimal(k.pin_length as nat, 255);
        assert(parsed_classic(c) == d.classic);
    } else {
        assert(info_value(c, "LinkKey"@, "Key"@) is None);
    }
    assert(fresh_section(c, "LongTermKey"@));
    assert(fresh_section(c, "PeripheralLongTermKey"@));
    assert(fresh_section(c, "IdentityResolvingKey"@));
    assert(fresh_section(c, "LocalSignatureKey"@));
    assert(fresh_section(c, "RemoteSignatureKey"@));
    let f = spec_device_sections(e, creating, d)->Ok_0;
    if let Some(le) = d.le {
        lemma_le_written(c, d);
        assert(parsed_classic(f) == parsed_classic(c));
        assert(parsed_name(f, d.mac_address) == parsed_name(c, d.mac_address));
        if le.irk is Some {
            assert(le.irk_encoding == Some("windows"@));
        }
    } else {
        assert(f == c);
        assert(parsed_ltk(f, "LongTermKey"@) is None);
        assert(parsed_ltk(f, "PeripheralLongTermKey"@) is None);
        assert(parsed_irk(f) is None);
        assert(parsed_csrk(f, "LocalSignatureKey"@) is None);
        assert(parsed_csrk(f, "RemoteSignatureKey"@) is None);
        assert(parsed_address_type(f) is None);
    }
}

proof fn lemma_set_value_noop(m: SectionMap, sec: Seq<char>, key: Seq<char>, v: Seq<char>)
    requires
        info_value(m, sec, key) == Some(v),
    ensures
        set_value(m, sec, key, v) == m,
{
    assert(section_or_empty(m, sec).insert(key, v) =~= m[sec]);
    assert(m.insert(sec, m[sec]) =~= m);
}

proof fn lemma_set_opt_noop(m: SectionMap, sec: Seq<char>, key: Seq<char>, v: Option<Seq<char>>)
    requires
        v matches Some(x) ==> info_value(m, sec, key) == Some(x),
    ensures
        set_opt(m, sec, key, v) == m,
{
    if let Some(x) = v {
        lemma_set_value_noop(m, sec, key, x);
    }
}

/// `b` differs from `a` at most in `key` of section `sec`.
spec fn only_entry_changed(a: SectionMap, b: SectionMap, sec: Seq<char>, key: Seq<char>) -> bool {
    forall|s2: Seq<char>, k: Seq<char>| !(s2 == sec && k == key) ==> #[trigger] info_value(b, s2, k)
        == info_value(a, s2, k)
}

/// `t` holds the name that writing `d` stores.
spec fn name_holds(t: SectionMap, d: DeviceView) -> bool {
    d.name matches Some(n) ==> (spec_useful_device_name(n, d.mac_address) ==> info_value(
        t,
        "General"@,
        "Name"@,
    ) == Some(n))
}

/// `t` holds the `[LinkKey]` entries that writing `d` stores.
spec fn classic_holds(t: SectionMap, d: DeviceView) -> bool {
    d.classic matches Some(c) ==> {
        &&& info_value(t, "LinkKey"@, "Key"@) == Some(c.link_key)
        &&& info_value(t, "LinkKey"@, "Type"@) == Some(decimal(c.key_type as nat))
        &&& info_value(t, "LinkKey"@, "PINLength"@) == Some(decimal(c.pin_length as nat))
    }
}

/// `t` holds the entries of section `sec` that writing the long term key `k` stores.
spec fn ltk_holds(t: SectionMap, sec: Seq<char>, k: Option<LtkView>) -> bool {
    k matches Some(x) ==> {
        &&& info_value(t, sec, "Key"@) == Some(x.key)
        &&& info_value(t, sec, "Authenticated"@) == Some(
            decimal(crate::bluetooth::spec_authenticated_or_default(x.authenticated) as nat),
        )
        &&& (opt_decimal_u8(x.enc_size) matches Some(v) ==> info_value(t, sec, "EncSize"@) == Some(v))
        &&& (opt_decimal_u16(x.ediv) matches Some(v) ==> info_value(t, sec, "EDiv"@) == Some(v))
        &&& (opt_decimal_u64(x.rand) matches Some(v) ==> info_value(t, sec, "Rand"@) == Some(v))
    }
}

/// `t` holds the IRK entry that writing `le` stores.
spec fn irk_holds(t: SectionMap, le: LeKeysView) -> bool {
    le.irk matches Some(i) ==> info_value(t, "IdentityResolvingKey"@, "Key"@) == Some(spec_reverse_irk(i))
}

/// `t` holds the entries of section `sec` that writing the signature key `c` stores.
spec fn csrk_holds(t: SectionMap, sec: Seq<char>, c: Option<CsrkView>) -> bool {
    c matches Some(x) ==> {
        &&& info_value(t, sec, "Key"@) == Some(x.key)
        &&& info_value(t, sec, "Counter"@) == Some(decimal(x.counter as nat))
        &&& info_value(t, sec, "Authenticated"@) == Some(bool_text(x.authenticated))
    }
}

/// `t` holds the address type that writing `le` stores.
spec fn address_type_holds(t: SectionMap, le: LeKeysView) -> bool {
    le.address_type matches Some(a) ==> (spec_linux_address_type(a) matches Some(v) ==> info_value(
        t,
        "General"@,
        "AddressType"@,
    ) == Some(v))
}

proof fn lemma_general_rewrite(m: SectionMap, creating: bool, t: SectionMap, d: DeviceView)
    ensures
        name_holds(with_general(m, creating, d), d),
        only_section_changed(m, with_general(m, creating, d), "General"@),
        name_holds(t, d) ==> with_general(t, false, d) == t,
{
    lemma_literal_keys();
    let m0 = set_value(m, "General"@, "Trusted"@, "true"@);
    lemma_set_value_lookup(m, "General"@, "Trusted"@, "true"@);
    lemma_set_value_lookup(m0, "General"@, "SupportedTechnologies"@, supported_technologies(d));
    let m1 = if creating {
        set_value(m0, "General"@, "SupportedTechnologies"@, supported_technologies(d))
    } else {
        m
    };
    if let Some(n) = d.name {
        lemma_set_value_lookup(m1, "General"@, "Name"@, n);
        if spec_useful_device_name(n, d.mac_address) && name_holds(t, d) {
            lemma_set_value_noop(t, "General"@, "Name"@, n);
        }
    }
}

proof fn lemma_classic_rewrite(m: SectionMap, t: SectionMap, d: DeviceView)
    requires
        with_classic(m, d) is Ok,
    ensures
        classic_holds(with_classic(m, d)->Ok_0, d),
        only_section_changed(m, with_classic(m, d)->Ok_0, "LinkKey"@),
        classic_holds(t, d) ==> with_classic(t, d) == Ok::<SectionMap, Seq<char>>(t),
{
    lemma_literal_keys();
    if let Some(c) = d.classic {
        let m1 = set_value(m, "LinkKey"@, "Key"@, c.link_key);
        let m2 = set_value(m1, "LinkKey"@, "Type"@, decimal(c.key_type as nat));
        lemma_set_value_lookup(m, "LinkKey"@, "Key"@, c.link_key);
        lemma_set_value_lookup(m1, "LinkKey"@, "Type"@, decimal(c.key_type as nat));
        lemma_set_value_lookup(m2, "LinkKey"@, "PINLength"@, decimal(c.pin_length as nat));
        if classic_holds(t, d) {
            lemma_set_value_noop(t, "LinkKey"@, "Key"@, c.link_key);
            lemma_set_value_noop(t, "LinkKey"@, "Type"@, decimal(c.key_type as nat));
            lemma_set_value_noop(t, "LinkKey"@, "PINLength"@, decimal(c.pin_length as nat));
        }
    }
}

proof fn lemma_ltk_rewrite(m: SectionMap, t: SectionMap, sec: Seq<char>, key_name: Seq<char>, k: Option<LtkView>)
    requires
        with_ltk(m, sec, key_name, k) is Ok,
    ensures
        ltk_holds(with_ltk(m, sec, key_name, k)->Ok_0, sec, k),
        only_section_changed(m, with_ltk(m, sec, key_name, k)->Ok_0, sec),
        ltk_holds(t, sec, k) ==> with_ltk(t, sec, key_name, k) == Ok::<SectionMap, Seq<char>>(t),
{
    lemma_literal_keys();
    if let Some(x) = k {
        let a = decimal(crate::bluetooth::spec_authenticated_or_default(x.authenticated) as nat);
        let m1 = set_value(m, sec, "Key"@, x.key);
        let m2 = set_value(m1, sec, "Authenticated"@, a);
        let m3 = set_opt(m2, sec, "EncSize"@, opt_decimal_u8(x.enc_size));
        let m4 = set_opt(m3, sec, "EDiv"@, opt_decimal_u16(x.ediv));
        lemma_set_value_lookup(m, sec, "Key"@, x.key);
        lemma_set_value_lookup(m1, sec, "Authenticated"@, a);
        lemma_set_opt_lookup(m2, sec, "EncSize"@, opt_decimal_u8(x.enc_size));
        lemma_set_opt_lookup(m3, sec, "EDiv"@, opt_decimal_u16(x.ediv));
        lemma_set_opt_lookup(m4, sec, "Rand"@, opt_decimal_u64(x.rand));
        if ltk_holds(t, sec, k) {
            lemma_set_value_noop(t, sec, "Key"@, x.key);
            lemma_set_value_noop(t, sec, "Authenticated"@, a);
            lemma_set_opt_noop(t, sec, "EncSize"@, opt_decimal_u8(x.enc_size));
            lemma_set_opt_noop(t, sec, "EDiv"@, opt_decimal_u16(x.ediv));
            lemma_set_opt_noop(t, sec, "Rand"@, opt_decimal_u64(x.rand));
        }
    }
}

proof fn lemma_irk_rewrite(m: SectionMap, t: SectionMap, le: LeKeysView)
    requires
        with_irk(m, le) is Ok,
    ensures
        irk_holds(with_irk(m, le)->Ok_0, le),
        only_section_changed(m, with_irk(m, le)->Ok_0, "IdentityResolvingKey"@),
        irk_holds(t, le) ==> with_irk(t, le) == Ok::<SectionMap, Seq<char>>(t),
{
    if let Some(i) = le.irk {
        lemma_set_value_lookup(m, "IdentityResolvingKey"@, "Key"@, spec_reverse_irk(i));
        if irk_holds(t, le) {
            lemma_set_value_noop(t, "IdentityResolvingKey"@, "Key"@, spec_reverse_irk(i));
        }
    }
}

proof fn lemma_csrk_rewrite(m: SectionMap, t: SectionMap, sec: Seq<char>, key_name: Seq<char>, c: Option<CsrkView>)
    requires
        with_csrk(m, sec, key_name, c) is Ok,
    ensures
        csrk_holds(with_csrk(m, sec, key_name, c)->Ok_0, sec, c),
        only_section_changed(m, with_csrk(m, sec, key_name, c)->Ok_0, sec),
        csrk_holds(t, sec, c) ==> with_csrk(t, sec, key_name, c) == Ok::<SectionMap, Seq<char>>(t),
{
    lemma_literal_keys();
    if let Some(x) = c {
        let m1 = set_value(m, sec, "Key"@, x.key);
        let m2 = set_value(m1, sec, "Counter"@, decimal(x.counter as nat));
        lemma_set_value_lookup(m, sec, "Key"@, x.key);
        lemma_set_value_lookup(m1, sec, "Counter"@, decimal(x.counter as nat));
        lemma_set_value_lookup(m2, sec, "Authenticated"@, bool_text(x.authenticated));
        if csrk_holds(t, sec, c) {
            lemma_set_value_noop(t, sec, "Key"@, x.key);
            lemma_set_value_noop(t, sec, "Counter"@, decimal(x.counter as nat));
            lemma_set_value_noop(t, sec, "Authenticated"@, bool_text(x.authenticated));
        }
    }
}

proof fn lemma_address_type_rewrite(m: SectionMap, t: SectionMap, le: LeKeysView)
    requires
        with_address_type(m, le) is Ok,
    ensures
        address_type_holds(with_address_type(m, le)->Ok_0, le),
        only_entry_changed(m, with_address_type(m, le)->Ok_0, "General"@, "AddressType"@),
        address_type_holds(t, le) ==> with_address_type(t, le) == Ok::<SectionMap, Seq<char>>(t),
{
    if let Some(a) = le.address_type {
        if let Some(v) = spec_linux_address_type(a) {
            lemma_set_value_lookup(m, "General"@, "AddressType"@, v);
            if address_type_holds(t, le) {
                lemma_set_value_noop(t, "General"@, "AddressType"@, v);
            }
        }
    }
}

/// Writing a bond over the `info` sections that writing it produced changes nothing:
/// Writing a Classic bond stores its key under `[LinkKey]` `Key`, its key type under
/// `Type` and its PIN length under `PINLength`, in decimal.
pub proof fn lemma_written_link_key_entries(existing: SectionMap, creating: bool, d: DeviceView)
    requires
        spec_device_sections(existing, creating, d) is Ok,
        d.classic is Some,
    ensures
        ({
            let t = spec_device_sections(existing, creating, d)->Ok_0;
            let c = d.classic.unwrap();
            &&& info_value(t, "LinkKey"@, "Key"@) == Some(c.link_key)
            &&& info_value(t, "LinkKey"@, "Type"@) == Some(decimal(c.key_type as nat))
            &&& info_value(t, "LinkKey"@, "PINLength"@) == Some(decimal(c.pin_length as nat))
        }),
{
    lemma_literal_sections();
    lemma_literal_keys();
    let s = spec_device_sections(existing, creating, d)->Ok_0;
    let g = with_general(existing, creating, d);
    let c = with_classic(g, d)->Ok_0;
    lemma_classic_rewrite(g, g, d);
    if let Some(le) = d.le {
        let m1 = with_ltk(c, "LongTermKey"@, "LTK"@, le.ltk)->Ok_0;
        let m2 = with_ltk(m1, "PeripheralLongTermKey"@, "PeripheralLTK"@, le.peripheral_ltk)->Ok_0;
        let m3 = with_irk(m2, le)->Ok_0;
        let m4 = with_csrk(m3, "LocalSignatureKey"@, "CSRK (Local)"@, le.csrk_local)->Ok_0;
        let m5 = with_csrk(m4, "RemoteSignatureKey"@, "CSRK (Remote)"@, le.csrk_remote)->Ok_0;
        lemma_ltk_rewrite(c, c, "LongTermKey"@, "LTK"@, le.ltk);
        lemma_ltk_rewrite(m1, m1, "PeripheralLongTermKey"@, "PeripheralLTK"@, le.peripheral_ltk);
        lemma_irk_rewrite(m2, m2, le);
        lemma_csrk_rewrite(m3, m3, "LocalSignatureKey"@, "CSRK (Local)"@, le.csrk_local);
        lemma_csrk_rewrite(m4, m4, "RemoteSignatureKey"@, "CSRK (Remote)"@, le.csrk_remote);
        lemma_address_type_rewrite(m5, m5, le);
        assert(s == with_address_type(m5, le)->Ok_0);
    }
    assert(classic_holds(s, d));
}

/// importing the same bond again leaves its file as it is.
pub proof fn lemma_bluez_rewrite_idempotent(existing: SectionMap, creating: bool, d: DeviceView)
    requires
        spec_device_sections(existing, creating, d) is Ok,
    ensures
        ({
            let once = spec_device_sections(existing, creating, d)->Ok_0;
            spec_device_sections(once, false, d) == Ok::<SectionMap, Seq<char>>(once)
        }),
{
    lemma_literal_sections();
    lemma_literal_keys();
    let s = spec_device_sections(existing, creating, d)->Ok_0;
    let g = with_general(existing, creating, d);
    let c = with_classic(g, d)->Ok_0;
    // What the first write stores, section by section.
    lemma_general_rewrite(existing, creating, g, d);
    lemma_classic_rewrite(g, g, d);
    assert(name_holds(c, d));
    if let Some(le) = d.le {
        let m1 = with_ltk(c, "LongTermKey"@, "LTK"@, le.ltk)->Ok_0;
        let m2 = with_ltk(m1, "PeripheralLongTermKey"@, "PeripheralLTK"@, le.peripheral_ltk)->Ok_0;
        let m3 = with_irk(m2, le)->Ok_0;
        let m4 = with_csrk(m3, "LocalSignatureKey"@, "CSRK (Local)"@, le.csrk_local)->Ok_0;
        let m5 = with_csrk(m4, "RemoteSignatureKey"@, "CSRK (Remote)"@, le.csrk_remote)->Ok_0;
        lemma_ltk_rewrite(c, c, "LongTermKey"@, "LTK"@, le.ltk);
        lemma_ltk_rewrite(m1, m1, "PeripheralLongTermKey"@, "PeripheralLTK"@, le.peripheral_ltk);
        lemma_irk_rewrite(m2, m2, le);
        lemma_csrk_rewrite(m3, m3, "LocalSignatureKey"@, "CSRK (Local)"@, le.csrk_local);
        lemma_csrk_rewrite(m4, m4, "RemoteSignatureKey"@, "CSRK (Remote)"@, le.csrk_remote);
        lemma_address_type_rewrite(m5, m5, le);
        assert(s == with_address_type(m5, le)->Ok_0);
        assert(name_holds(s, d));
        assert(classic_holds(s, d));
        assert(ltk_holds(s, "LongTermKey"@, le.ltk));
        assert(ltk_holds(s, "PeripheralLongTermKey"@, le.peripheral_ltk));
        assert(irk_holds(s, le));
        assert(csrk_holds(s, "LocalSignatureKey"@, le.csrk_local));
        assert(csrk_holds(s, "RemoteSignatureKey"@, le.csrk_remote));
        // The second write stores nothing new.
        lemma_general_rewrite(s, false, s, d);
        lemma_classic_rewrite(g, s, d);
        lemma_ltk_rewrite(c, s, "LongTermKey"@, "LTK"@, le.ltk);
        lemma_ltk_rewrite(m1, s, "PeripheralLongTermKey"@, "PeripheralLTK"@, le.peripheral_ltk);
        lemma_irk_rewrite(m2, s, le);
        lemma_csrk_rewrite(m3, s, "LocalSignatureKey"@, "CSRK (Local)"@, le.csrk_local);
        lemma_csrk_rewrite(m4, s, "RemoteSignatureKey"@, "CSRK (Remote)"@, le.csrk_remote);
        lemma_address_type_rewrite(m5, s, le);
    } else {
        assert(s == c);
        lemma_general_rewrite(s, false, s, d);
        lemma_classic_rewrite(g, s, d);
    }
}

/// The name of a bond reads back from an `info` file as written: one line without
/// surrounding whitespace.
pub open spec fn name_renders(d: DeviceView) -> bool {
    d.name matches Some(n) ==> info_text(n)
}

/// The sections that an `info` file holds before a write: those of its text, or none
/// when there is no file.
pub open spec fn existing_sections(existing: Option<Seq<char>>) -> SectionMap {
    match existing {
        Some(t) => spec_parse_info(t),
        None => SectionMap::empty(),
    }
}

impl LinuxBluetoothManager {
    /// The new text of the `info` file of `device`, written over the current text
    /// `existing` (`None`: no file yet): the sections of `spec_device_sections`, one
    /// `[name]` line per section followed by its `key=value` lines.
    pub fn device_file_content(existing: Option<&str>, device: &BluetoothDevice) -> (r: Result<
        String,
        String,
    >)
        ensures
            match spec_device_sections(
                existing_sections(opt_str_view(existing)),
                existing is None,
                device@,
            ) {
                Ok(m) => r matches Ok(t) && exists|s: Seq<InfoSection>|
                    sections_view(s) == m && t@ == render_sections(s),
                Err(e) => r matches Err(x) && x@ == e,
            },
            name_renders(device@) ==> (r matches Ok(t) ==> spec_parse_info(t@) == spec_device_sections(
                existing_sections(opt_str_view(existing)),
                existing is None,
                device@,
            )->Ok_0),
    {
        let base = match existing {
            Some(t) => InfoSections::parse(t),
            None => InfoSections::new(),
        };
        let sections = Self::device_file_sections(base, existing.is_none(), device)?;
        let text = sections.render();
        proof {
            assert(sections_view(sections.sections@) == sections@);
            if name_renders(device@) {
                lemma_render_parse(sections.sections@);
            }
        }
        Ok(text)
    }
}

/// The view of an optional string slice.
pub open spec fn opt_str_view(o: Option<&str>) -> Option<Seq<char>> {
    match o {
        Some(s) => Some(s@),
        None => None,
    }
}


/// Whether writing the shared record `desired` changes the BlueZ record `current`:
/// the address or keys differ, or `desired` carries a useful name that BlueZ does not
/// have yet. A missing or useless shared name never erases a local one.
pub open spec fn spec_linux_needs_update(current: DeviceView, desired: DeviceView) -> bool {
    ||| current.mac_address != desired.mac_address
    ||| current.classic != desired.classic
    ||| current.le != desired.le
    ||| (desired.name matches Some(n) && spec_useful_device_name(n, desired.mac_address)
        && current.name != desired.name)
}

/// Every change of address or keys is written to BlueZ: records that differ in the
/// address, the Classic key or any LE key need an update, and a record never needs
/// one to become itself.
pub proof fn lemma_key_change_needs_update(current: DeviceView, desired: DeviceView)
    ensures
        (current.mac_address != desired.mac_address || current.classic != desired.classic || current.le
            != desired.le) ==> spec_linux_needs_update(current, desired),
        !spec_linux_needs_update(desired, desired),
{
}

/// Why BlueZ must keep its record instead of `desired`: an IRK whose byte order was
/// never verified.
pub open spec fn spec_linux_update_reason(desired: DeviceView) -> Option<Seq<char>> {
    if desired.le matches Some(le) && le.irk is Some && le.irk_encoding != Some("windows"@) {
        Some("unverified legacy IRK encoding; export from updated source OS first"@)
    } else {
        None
    }
}

impl LinuxBluetoothManager {
    /// The name of this backend.
    pub fn platform_id(&self) -> (r: &'static str)
        ensures
            r@ == "linux"@,
    {
        "linux"
    }

    /// Whether `desired` must be written over `current` (`spec_linux_needs_update`).
    pub fn needs_update(&self, current: &BluetoothDevice, desired: &BluetoothDevice) -> (r: bool)
        ensures
            r == spec_linux_needs_update(current@, desired@),
    {
        if current.mac_address != desired.mac_address || current.keys_differ(desired) {
            return true;
        }
        match &desired.name {
            Some(n) => useful_device_name(n.as_str(), desired.mac_address.as_str())
                && !opt_string_eq(&current.name, &desired.name),
            None => false,
        }
    }

    /// Why `desired` must not replace the BlueZ record (`spec_linux_update_reason`).
    pub fn update_reason(&self, current: &BluetoothDevice, desired: &BluetoothDevice) -> (r: Option<String>)
        ensures
            opt_seq(r) == spec_linux_update_reason(desired@),
    {
        match &desired.le {
            Some(le) => {
                let windows = match &le.irk_encoding {
                    Some(e) => str_eq(e.as_str(), "windows"),
                    None => false,
                };
                if le.irk.is_some() && !windows {
                    Some(string_from("unverified legacy IRK encoding; export from updated source OS first"))
                } else {
                    None
                }
            },
            None => None,
        }
    }

    /// Why a shared record missing here cannot be imported (`spec_missing_record_reason`).
    pub fn import_missing_reason(&self, device: &BluetoothDevice) -> (r: Option<String>)
        ensures
            opt_seq(r) == spec_missing_record_reason(device@),
    {
        missing_record_reason(device)
    }

    /// Migrates the shared records of the BlueZ bonds `locals` of `adapter`: an IRK
    /// proven to be in local byte order is tagged `windows`, and the legacy address
    /// type `static` becomes `random`.
    pub fn migrate_adapter(&self, config: &mut BlueVeinConfig, adapter: &str, locals: &Vec<BluetoothDevice>)
        ensures
            final(config)@ == spec_migrate_locals(old(config)@, adapter@, device_views(locals@), true),
    {
        migrate_local_records(config, adapter, locals, true);
    }

    /// Whether BlueZ must be stopped before the next import: it is not stopped for a
    /// batch yet.
    pub fn stop_needed(&self) -> (r: bool)
        ensures
            r == !self.pending,
    {
        !self.pending
    }

    /// Records the outcome of stopping BlueZ before a batch of imports.
    pub fn record_stop(&mut self, stopped: bool) -> (r: Result<(), String>)
        ensures
            stopped ==> r is Ok && final(self).pending,
            !stopped ==> (r matches Err(e) && e@ == "Could not stop Bluetooth before import"@)
                && final(self).pending == old(self).pending,
    {
        if stopped {
            self.pending = true;
            Ok(())
        } else {
            Err(string_from("Could not stop Bluetooth before import"))
        }
    }

    /// Records the outcome of starting BlueZ again after a batch.
    pub fn record_start(&mut self, started: bool) -> (r: Result<(), String>)
        ensures
            started ==> r is Ok && !final(self).pending,
            !started ==> (r matches Err(e) && e@ == "Bluetooth batch activation failed"@)
                && final(self).pending == old(self).pending,
    {
        if started {
            self.pending = false;
            Ok(())
        } else {
            Err(string_from("Bluetooth batch activation failed"))
        }
    }

    /// Whether a directory entry of the BlueZ store names an adapter or device: an
    /// address of seventeen bytes with `:` separators.
    pub fn is_address_entry(name: &str) -> (r: bool)
        ensures
            r == (vstd::utf8::encode_utf8(name@).len() == 17 && name@.contains(':')),
    {
        if name.as_bytes().len() != 17 {
            return false;
        }
        assert(name.spec_bytes() == vstd::utf8::encode_utf8(name@));
        let v = chars_of(name);
        let mut i: usize = 0;
        while i < v.len()
            invariant
                i <= v.len(),
                v@ == name@,
                vstd::utf8::encode_utf8(name@).len() == 17,
                forall|j: int| 0 <= j < i ==> v@[j] != ':',
            decreases v.len() - i,
        {
            if v[i] == ':' {
                assert(name@[i as int] == ':');
                return true;
            }
            i = i + 1;
        }
        false
    }
}


/// A D-Bus object path of a BlueZ adapter: `/org/bluez/hci…` without a further `/`.
pub open spec fn is_adapter_object(p: Seq<char>) -> bool {
    p.len() >= 14 && p.take(14) == "/org/bluez/hci"@ && !p.skip(11).contains('/')
}

/// The adapter objects listed in `busctl tree org.bluez` output, in order: the last
/// field of each line, when it is an adapter object.
pub open spec fn adapter_objects(lines: Seq<Seq<char>>) -> Seq<Seq<char>>
    decreases lines.len(),
{
    if lines.len() == 0 {
        Seq::empty()
    } else {
        let before = adapter_objects(lines.drop_last());
        let t = tokens(lines.last());
        if t.len() > 0 && is_adapter_object(t.last()) {
            before.push(t.last())
        } else {
            before
        }
    }
}

fn is_adapter_object_exec(p: &[char]) -> (r: bool)
    ensures
        r == is_adapter_object(p@),
{
    let prefix = chars_of("/org/bluez/hci");
    if p.len() < 14 {
        return false;
    }
    let head = crate::text::slice_range(p, 0, 14);
    assert(head@ =~= p@.take(14));
    if !crate::text::chars_eq(head.as_slice(), prefix.as_slice()) {
        return false;
    }
    let mut i: usize = 11;
    while i < p.len()
        invariant
            11 <= i <= p.len(),
            forall|j: int| 11 <= j < i ==> p@[j] != '/',
        decreases p.len() - i,
    {
        if p[i] == '/' {
            assert(p@.skip(11)[i - 11] == '/');
            return false;
        }
        i = i + 1;
    }
    assert forall|j: int| 0 <= j < p@.skip(11).len() implies p@.skip(11)[j] != '/' by {
        assert(p@.skip(11)[j] == p@[j + 11]);
    }
    true
}

impl LinuxBluetoothManager {
    /// The BlueZ adapter objects listed by `busctl tree org.bluez` (`adapter_objects`
    /// of its lines).
    pub fn bluez_adapter_paths(tree: &str) -> (r: Vec<String>)
        ensures
            r@.map_values(|s: String| s@) == adapter_objects(split_lines(tree@)),
    {
        let lines = text_lines(tree);
        let ghost lv = lines@.map_values(|l: Vec<char>| l@);
        let mut r: Vec<String> = Vec::new();
        let mut i: usize = 0;
        while i < lines.len()
            invariant
                i <= lines.len(),
                lv == lines@.map_values(|l: Vec<char>| l@),
                lv == split_lines(tree@),
                r@.map_values(|s: String| s@) == adapter_objects(lv.take(i as int)),
            decreases lines.len() - i,
        {
            proof {
                assert(lv.take(i + 1).drop_last() =~= lv.take(i as int));
                assert(lv.take(i + 1).last() == lines@[i as int]@);
            }
            let line = string_of(lines[i].as_slice());
            let fields = split_fields(line.as_str());
            if fields.len() > 0 {
                let last = &fields[fields.len() - 1];
                proof {
                    assert(fields@.map_values(|t: Vec<char>| t@).last() == last@);
                }
                if is_adapter_object_exec(last.as_slice()) {
                    let ghost before = r@.map_values(|s: String| s@);
                    r.push(string_of(last.as_slice()));
                    assert(r@.map_values(|s: String| s@) =~= before.push(last@));
                }
            }
            i = i + 1;
        }
        assert(lv.take(lines.len() as int) =~= lv);
        r
    }

    /// The D-Bus object of a device under an adapter object: `dev_` and the address in
    /// upper case with `_` separators.
    pub fn bluez_device_path(adapter_path: &str, device_mac: &str) -> (r: String)
        ensures
            r@ == adapter_path@ + "/dev_"@ + upper(device_mac@).map_values(
                |c: char| if c == ':' { '_' } else { c },
            ),
    {
        let mut r = string_from(adapter_path);
        push_chars(&mut r, chars_of("/dev_").as_slice());
        let m = normalize_mac(device_mac);
        let v = chars_of(m.as_str());
        let mut out: Vec<char> = Vec::new();
        let mut i: usize = 0;
        while i < v.len()
            invariant
                i <= v.len(),
                out@ == v@.take(i as int).map_values(|c: char| if c == ':' { '_' } else { c }),
            decreases v.len() - i,
        {
            let c = if v[i] == ':' {
                '_'
            } else {
                v[i]
            };
            out.push(c);
            assert(out@ =~= v@.take(i + 1).map_values(|c: char| if c == ':' { '_' } else { c }));
            i = i + 1;
        }
        assert(v@.take(v.len() as int) =~= v@);
        push_chars(&mut r, out.as_slice());
        r
    }

    /// Whether `busctl get-property … Address` output names the adapter `adapter_mac`
    /// (in canonical form).
    pub fn output_names_adapter(output: &str, adapter_mac: &str) -> (r: bool)
        ensures
            r == contains_text(output@, upper(adapter_mac@)),
    {
        let hay = chars_of(output);
        let m = normalize_mac(adapter_mac);
        let needle = chars_of(m.as_str());
        find_text(hay.as_slice(), needle.as_slice())
    }
}

/// Whether `needle` occurs in `hay`.
pub open spec fn contains_text(hay: Seq<char>, needle: Seq<char>) -> bool {
    exists|i: int| 0 <= i && i + needle.len() <= hay.len() && #[trigger] hay.subrange(i, i + needle.len()) == needle
}

fn find_text(hay: &[char], needle: &[char]) -> (r: bool)
    ensures
        r == contains_text(hay@, needle@),
{
    if needle.len() == 0 {
        assert(hay@.subrange(0, 0 + needle@.len() as int) =~= needle@);
        return true;
    }
    let mut i: usize = 0;
    while i < hay.len()
        invariant
            i <= hay.len(),
            needle.len() > 0,
            forall|j: int| 0 <= j < i && j + needle.len() <= hay.len() ==> #[trigger] hay@.subrange(
                j,
                j + needle.len(),
            ) != needle@,
        decreases hay.len() - i,
    {
        if needle.len() <= hay.len() - i {
            let piece = crate::text::slice_range(hay, i, i + needle.len());
            if crate::text::chars_eq(piece.as_slice(), needle) {
                assert(hay@.subrange(i as int, i + needle.len()) == needle@);
                return true;
            }
        }
        i = i + 1;
    }
    false
}

/// What to do after a `RemoveDevice` call: done when it succeeded or the record is
/// already gone; retry a transient "not ready" refusal; else fail.
#[derive(Debug)]
pub enum RemovalStep {
    Done,
    Retry,
    Failed(String),
}

/// Whether BlueZ refused only because it is not ready yet.
pub open spec fn transient_refusal(error: Seq<char>) -> bool {
    contains_text(error, "Resource Not Ready"@) || contains_text(error, "NotReady"@)
}

impl LinuxBluetoothManager {
    /// The next step of removing `device_mac` after attempt `attempt` (from 0; seven
    /// in all): the call `succeeded`, the record `still_stored` on disk, and the text
    /// BlueZ wrote to standard error.
    pub fn removal_step(
        succeeded: bool,
        still_stored: bool,
        attempt: u32,
        error: &str,
        device_mac: &str,
    ) -> (r: RemovalStep)
        ensures
            succeeded || !still_stored ==> r is Done,
            !succeeded && still_stored && transient_refusal(error@) && attempt < 6 ==> r is Retry,
            !succeeded && still_stored && !(transient_refusal(error@) && attempt < 6) ==> (r matches RemovalStep::Failed(m)
                && m@ == "BlueZ refused to remove "@ + device_mac@ + ": "@ + trim(error@)),
    {
        if succeeded || !still_stored {
            return RemovalStep::Done;
        }
        let e = chars_of(error);
        let transient = find_text(e.as_slice(), chars_of("Resource Not Ready").as_slice())
            || find_text(e.as_slice(), chars_of("NotReady").as_slice());
        if transient && attempt < 6 {
            return RemovalStep::Retry;
        }
        let mut msg = string_from("BlueZ refused to remove ");
        push_chars(&mut msg, chars_of(device_mac).as_slice());
        push_chars(&mut msg, chars_of(": ").as_slice());
        push_chars(&mut msg, trim_chars(e.as_slice()).as_slice());
        RemovalStep::Failed(msg)
    }
}

} // verus!
