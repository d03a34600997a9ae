//! The shared store on the EFI system partition.
use vstd::prelude::*;
use crate::config::BlueVeinConfig;
use crate::text::{
    chars_eq, chars_of, is_ws, is_ws_exec, push_chars, str_eq, string_from, string_of, trim, trim_chars,
};

verus! {

/// Why the shared configuration could not be read or written.
#[derive(Debug, PartialEq, Eq)]
pub enum EfiError {
    NotFound,
    ReadError(String),
    WriteError(String),
    ParseError(String),
}

/// The human-readable description of an error.
pub open spec fn spec_efi_message(e: EfiError) -> Seq<char> {
    match e {
        EfiError::NotFound => "Configuration file not found on EFI partition"@,
        EfiError::ReadError(m) => "Failed to read from EFI: "@ + m@,
        EfiError::WriteError(m) => "Failed to write to EFI: "@ + m@,
        EfiError::ParseError(m) => "Failed to parse config: "@ + m@,
    }
}

impl EfiError {
    /// The human-readable description of the error (`spec_efi_message`).
    pub fn message(&self) -> (r: String)
        ensures
            r@ == spec_efi_message(*self),
    {
        let (prefix, detail) = match self {
            EfiError::NotFound => {
                return string_from("Configuration file not found on EFI partition");
            },
            EfiError::ReadError(msg) => ("Failed to read from EFI: ", msg),
            EfiError::WriteError(msg) => ("Failed to write to EFI: ", msg),
            EfiError::ParseError(msg) => ("Failed to parse config: ", msg),
        };
        let mut r = string_from(prefix);
        let d = chars_of(detail.as_str());
        push_chars(&mut r, d.as_slice());
        r
    }
}

/// The EFI device holding the shared configuration; empty means auto-detected.
#[derive(Debug, PartialEq, Eq)]
pub struct EfiContext {
    pub device: String,
}

/// The name under which a device path is shown.
pub open spec fn spec_display_name(device: Seq<char>) -> Seq<char> {
    if device.len() == 0 {
        seq!['a', 'u', 't', 'o', '-', 'd', 'e', 't', 'e', 'c', 't', 'e', 'd']
    } else {
        device
    }
}

impl EfiContext {
    /// A context for the given device path.
    pub fn new(device: String) -> (r: Self)
        ensures
            r.device == device,
    {
        EfiContext { device }
    }

    /// The device path, or `auto-detected` when none was given.
    pub fn display_name(&self) -> (r: &str)
        ensures
            r@ == spec_display_name(self.device@),
    {
        if self.device.as_str().is_empty() {
            let r = "auto-detected";
            proof {
                reveal_strlit("auto-detected");
            }
            assert(r@ =~= spec_display_name(self.device@));
            r
        } else {
            self.device.as_str()
        }
    }
}

impl Default for EfiContext {
    fn default() -> (r: Self)
        ensures
            r.device@ == Seq::<char>::empty(),
    {
        EfiContext { device: String::new() }
    }
}


/// The state of the scan for the end of the JSON document: nesting depth of
/// objects and arrays, inside a string, after a backslash in a string.
pub struct JsonScan {
    pub depth: nat,
    pub in_str: bool,
    pub esc: bool,
}

pub open spec fn json_start() -> JsonScan {
    JsonScan { depth: 0, in_str: false, esc: false }
}

/// Whether byte `b` in state `s` closes the outermost object or array.
pub open spec fn json_closes(s: JsonScan, b: u8) -> bool {
    !s.esc && !s.in_str && (b == 0x7du8 || b == 0x5du8) && s.depth == 1
}

/// The scan state after byte `b`.
pub open spec fn json_step(s: JsonScan, b: u8) -> JsonScan {
    if s.esc {
        JsonScan { esc: false, ..s }
    } else if s.in_str {
        if b == 0x22u8 {
            JsonScan { in_str: false, ..s }
        } else if b == 0x5cu8 {
            JsonScan { esc: true, ..s }
        } else {
            s
        }
    } else if b == 0x7bu8 || b == 0x5bu8 {
        JsonScan { depth: s.depth + 1, ..s }
    } else if (b == 0x7du8 || b == 0x5du8) && s.depth > 0 {
        JsonScan { depth: (s.depth - 1) as nat, ..s }
    } else if b == 0x22u8 {
        JsonScan { in_str: true, ..s }
    } else {
        s
    }
}

/// The scan state after the bytes `data`.
pub open spec fn json_scan(data: Seq<u8>) -> JsonScan
    decreases data.len(),
{
    if data.len() == 0 {
        json_start()
    } else {
        json_step(json_scan(data.drop_last()), data.last())
    }
}

/// The index of the byte that first closes the outermost object or array, or -1.
pub open spec fn json_first_close(data: Seq<u8>) -> int
    decreases data.len(),
{
    if data.len() == 0 {
        -1
    } else if json_first_close(data.drop_last()) >= 0 {
        json_first_close(data.drop_last())
    } else if json_closes(json_scan(data.drop_last()), data.last()) {
        data.len() - 1
    } else {
        -1
    }
}

/// The length of the JSON document at the start of `data`: up to the bracket that
/// closes its outermost object or array (brackets inside strings do not count), or
/// all of `data` when it never closes. Bytes after it are padding of the raw file.
pub open spec fn spec_find_json_end(data: Seq<u8>) -> nat {
    if json_first_close(data) >= 0 {
        (json_first_close(data) + 1) as nat
    } else {
        data.len()
    }
}

/// The length of the JSON document at the start of `data` (`spec_find_json_end`).
pub fn find_json_end(data: &[u8]) -> (r: usize)
    ensures
        r == spec_find_json_end(data@),
        r <= data@.len(),
{
    let mut depth: usize = 0;
    let mut in_str = false;
    let mut esc = false;
    let mut i: usize = 0;
    while i < data.len()
        invariant
            i <= data.len(),
            depth <= i,
            (JsonScan { depth: depth as nat, in_str, esc }) == json_scan(data@.take(i as int)),
            json_first_close(data@.take(i as int)) == -1,
        decreases data.len() - i,
    {
        let b = data[i];
        proof {
            assert(data@.take(i + 1).drop_last() =~= data@.take(i as int));
            assert(data@.take(i + 1).last() == b);
        }
        if esc {
            esc = false;
        } else if in_str {
            if b == 0x22 {
                in_str = false;
            } else if b == 0x5c {
                esc = true;
            }
        } else if b == 0x7b || b == 0x5b {
            depth = depth + 1;
        } else if (b == 0x7d || b == 0x5d) && depth > 0 {
            depth = depth - 1;
            if depth == 0 {
                proof {
                    assert(json_first_close(data@.take(i + 1)) == i);
                    assert(data@.take(i + 1).take(i + 1) =~= data@.take(i + 1));
                    lemma_first_close_prefix(data@, i + 1);
                }
                return i + 1;
            }
        } else if b == 0x22 {
            in_str = true;
        }
        i = i + 1;
    }
    assert(data@.take(data.len() as int) =~= data@);
    data.len()
}

/// A close found in a prefix is the first close of the whole.
proof fn lemma_first_close_prefix(data: Seq<u8>, n: int)
    requires
        0 <= n <= data.len(),
        json_first_close(data.take(n)) >= 0,
    ensures
        json_first_close(data) == json_first_close(data.take(n)),
    decreases data.len() - n,
{
    if n < data.len() {
        assert(data.take(n + 1).drop_last() =~= data.take(n));
        assert(json_first_close(data.take(n + 1)) == json_first_close(data.take(n)));
        lemma_first_close_prefix(data, n + 1);
    } else {
        assert(data.take(n) =~= data);
    }
}

/// The text of the configuration file as read from the raw partition, `data`: the
/// JSON document at its start (`spec_find_json_end`), which must be UTF-8.
pub open spec fn spec_config_text(data: Seq<u8>) -> Result<Seq<char>, Seq<char>> {
    match utf8_decode(data.take(spec_find_json_end(data) as int)) {
        Ok(t) => Ok(t),
        Err(m) => Err("Invalid UTF-8 in config file: "@ + m),
    }
}

/// The scan of `data + pad` agrees with that of `data` up to the length of `data`.
proof fn lemma_json_prefix(data: Seq<u8>, pad: Seq<u8>, k: int)
    requires
        0 <= k <= data.len(),
    ensures
        (data + pad).take(k) == data.take(k),
{
    assert((data + pad).take(k) =~= data.take(k));
}

/// Where the first close lies, up to a prefix: `json_first_close` of a prefix of
/// `data` that holds it is the same.
proof fn lemma_json_first_close_prefix(data: Seq<u8>, k: int)
    requires
        json_first_close(data.take(k)) >= 0,
        0 <= k <= data.len(),
    ensures
        json_first_close(data) == json_first_close(data.take(k)),
    decreases data.len() - k,
{
    if k < data.len() {
        assert(data.take(k + 1).drop_last() =~= data.take(k));
        assert(json_first_close(data.take(k + 1)) == json_first_close(data.take(k)));
        lemma_json_first_close_prefix(data, k + 1);
    } else {
        assert(data.take(k) =~= data);
    }
}

/// The extent's last byte closes the outermost object or array: when `data` closes,
/// the extent ends with a `}` or `]` at which the scan, outside any string, goes back
/// to depth zero, and padding after it changes nothing.
pub proof fn lemma_json_end_closes(data: Seq<u8>, pad: Seq<u8>)
    requires
        json_first_close(data) >= 0,
    ensures
        0 < spec_find_json_end(data) <= data.len(),
        data[spec_find_json_end(data) - 1] == 0x7du8 || data[spec_find_json_end(data) - 1] == 0x5du8,
        json_scan(data.take(spec_find_json_end(data) as int)).depth == 0,
        !json_scan(data.take(spec_find_json_end(data) as int)).in_str,
        spec_find_json_end(data + pad) == spec_find_json_end(data),
    decreases data.len(),
{
    let d = data.drop_last();
    if json_first_close(d) >= 0 {
        lemma_json_end_closes(d, pad);
        let e = spec_find_json_end(d) as int;
        assert(data.take(e) =~= d.take(e));
        assert(data[e - 1] == d[e - 1]);
    } else {
        assert(data.take(data.len() as int) =~= data);
        assert(json_closes(json_scan(d), data.last()));
    }
    let e = spec_find_json_end(data) as int;
    lemma_json_prefix(data, pad, e);
    assert((data + pad).take(data.len() as int) =~= data);
    lemma_json_first_close_prefix(data + pad, data.len() as int);
}

/// The configuration text of a raw file (`spec_config_text`); a failed decoding is
/// a parse error.
pub fn config_text(data: Vec<u8>) -> (r: Result<String, EfiError>)
    ensures
        match spec_config_text(data@) {
            Ok(t) => r matches Ok(s) && s@ == t,
            Err(m) => r matches Err(EfiError::ParseError(x)) && x@ == m,
        },
        (r is Ok) == vstd::utf8::valid_utf8(data@.take(spec_find_json_end(data@) as int)),
        r matches Ok(s) ==> s@ == vstd::utf8::decode_utf8(data@.take(spec_find_json_end(data@) as int)),
{
    let end = find_json_end(data.as_slice());
    let mut data = data;
    data.truncate(end);
    decoded_config_text(decode_utf8(data))
}

/// The configuration text from the decoding of its bytes (`Err`: the description of
/// the invalid sequence): the text, or a parse error that names the invalid sequence.
pub fn decoded_config_text(decoded: Result<String, String>) -> (r: Result<String, EfiError>)
    ensures
        decoded matches Ok(t) ==> r matches Ok(s) && s@ == t@,
        decoded matches Err(m) ==> r matches Err(EfiError::ParseError(x)) && x@
            == "Invalid UTF-8 in config file: "@ + m@,
{
    match decoded {
        Ok(s) => Ok(s),
        Err(m) => {
            let mut msg = string_from("Invalid UTF-8 in config file: ");
            push_chars(&mut msg, chars_of(m.as_str()).as_slice());
            Err(EfiError::ParseError(msg))
        },
    }
}

/// What `String::from_utf8` gives for `bytes`: the text, or the description of the
/// first invalid sequence.
pub uninterp spec fn utf8_decode(bytes: Seq<u8>) -> Result<Seq<char>, Seq<char>>;

/// `String::from_utf8`: the text of UTF-8 bytes, or the display text of its
/// `FromUtf8Error`; both are `utf8_decode` of the bytes. It succeeds exactly on valid
/// UTF-8 (`vstd::utf8::valid_utf8`), with the text that the bytes encode.
#[verifier::external_body]
fn decode_utf8(bytes: Vec<u8>) -> (r: Result<String, String>)
    ensures
        (r is Ok) == vstd::utf8::valid_utf8(bytes@),
        r matches Ok(s) ==> s@ == vstd::utf8::decode_utf8(bytes@),
        match utf8_decode(bytes@) {
            Ok(t) => r matches Ok(s) && s@ == t,
            Err(m) => r matches Err(e) && e@ == m,
        },
{
    match String::from_utf8(bytes) {
        Ok(s) => Ok(s),
        Err(e) => Err(e.to_string()),
    }
}


/// The whitespace-separated fields of a line (`str::split_whitespace`).
pub open spec fn tokens(s: Seq<char>) -> Seq<Seq<char>>
    decreases s.len(),
{
    if s.len() == 0 {
        Seq::empty()
    } else {
        let t = tokens(s.drop_last());
        if is_ws(s.last()) {
            t
        } else if s.len() > 1 && !is_ws(s[s.len() - 2]) && t.len() > 0 {
            t.update(t.len() - 1, t.last().push(s.last()))
        } else {
            t.push(seq![s.last()])
        }
    }
}

/// The fields of a line, in order (`tokens`).
pub fn split_fields(line: &str) -> (r: Vec<Vec<char>>)
    ensures
        r@.map_values(|t: Vec<char>| t@) == tokens(line@),
{
    let v = chars_of(line);
    let mut r: Vec<Vec<char>> = Vec::new();
    let mut i: usize = 0;
    while i < v.len()
        invariant
            i <= v.len(),
            v@ == line@,
            r@.map_values(|t: Vec<char>| t@) == tokens(v@.take(i as int)),
        decreases v.len() - i,
    {
        let c = v[i];
        let ghost before = r@.map_values(|t: Vec<char>| t@);
        proof {
            assert(v@.take(i + 1).drop_last() =~= v@.take(i as int));
            assert(v@.take(i + 1).last() == c);
            if i > 0 {
                assert(v@.take(i + 1)[i - 1] == v@[i - 1]);
            }
        }
        if is_ws_exec(c) {
        } else if i > 0 && !is_ws_exec(v[i - 1]) && r.len() > 0 {
            let last = r.len() - 1;
            let mut t = r.pop().unwrap();
            t.push(c);
            r.push(t);
            assert(r@.map_values(|t: Vec<char>| t@) =~= before.update(
                before.len() - 1,
                before.last().push(c),
            ));
        } else {
            let mut t: Vec<char> = Vec::new();
            t.push(c);
            r.push(t);
            assert(r@.map_values(|t: Vec<char>| t@) =~= before.push(seq![c]));
        }
        i = i + 1;
    }
    assert(v@.take(v.len() as int) =~= v@);
    r
}

/// A line of the kernel's mount table: source device, mount point, file system.
#[derive(Debug)]
pub struct MountEntry {
    pub source: String,
    pub target: String,
    pub fs_type: String,
}

/// The first three fields of a mount table line, when it has them.
pub open spec fn spec_mount_entry(line: Seq<char>) -> Option<(Seq<char>, Seq<char>, Seq<char>)> {
    let t = tokens(line);
    if t.len() >= 3 {
        Some((t[0], t[1], t[2]))
    } else {
        None
    }
}

/// Reads a line of `/proc/self/mounts` (`spec_mount_entry`).
pub fn mount_entry(line: &str) -> (r: Option<MountEntry>)
    ensures
        match spec_mount_entry(line@) {
            Some((a, b, c)) => r matches Some(e) && e.source@ == a && e.target@ == b && e.fs_type@ == c,
            None => r is None,
        },
{
    let f = split_fields(line);
    if f.len() < 3 {
        return None;
    }
    proof {
        assert(f@.map_values(|t: Vec<char>| t@)[0] == f@[0]@);
        assert(f@.map_values(|t: Vec<char>| t@)[1] == f@[1]@);
        assert(f@.map_values(|t: Vec<char>| t@)[2] == f@[2]@);
    }
    Some(
        MountEntry {
            source: string_of(f[0].as_slice()),
            target: string_of(f[1].as_slice()),
            fs_type: string_of(f[2].as_slice()),
        },
    )
}

/// The mount of the requested EFI device: usable when it is a FAT (`vfat`) file
/// system with an `EFI` directory (`efi_dir`); otherwise an error naming the mount
/// point.
pub fn check_efi_mount(entry: &MountEntry, efi_dir: bool) -> (r: Result<String, String>)
    ensures
        entry.fs_type@ == "vfat"@ && efi_dir ==> (r matches Ok(t) && t@ == entry.target@),
        !(entry.fs_type@ == "vfat"@ && efi_dir) ==> (r matches Err(e) && e@ == "EFI device is mounted at "@
            + entry.target@ + " without a usable EFI directory"@),
{
    if str_eq(entry.fs_type.as_str(), "vfat") && efi_dir {
        return Ok(entry.target.clone());
    }
    let mut msg = string_from("EFI device is mounted at ");
    push_chars(&mut msg, chars_of(entry.target.as_str()).as_slice());
    push_chars(&mut msg, chars_of(" without a usable EFI directory").as_slice());
    Err(msg)
}

/// Whether a candidate mount point holds the EFI partition: `findmnt` reports a
/// `vfat` file system (`fs_type_output`, surrounding whitespace ignored) and it has an
/// `EFI` directory.
pub fn is_efi_mount(fs_type_output: &str, efi_dir: bool) -> (r: bool)
    ensures
        r == (trim(fs_type_output@) == "vfat"@ && efi_dir),
{
    let t = trim_chars(chars_of(fs_type_output).as_slice());
    let v = chars_of("vfat");
    chars_eq(t.as_slice(), v.as_slice()) && efi_dir
}

/// Where the shared configuration lives. The synchronizer is written against this
/// interface so that it can run on any store.
pub trait ConfigStore {
    fn read(&self) -> Result<BlueVeinConfig, EfiError>;

    fn write(&mut self, config: &BlueVeinConfig) -> Result<(), EfiError>;

    fn display_name(&self) -> &str;
}

} // verus!
