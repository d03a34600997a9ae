use bluevein::efi::{
    check_efi_mount, config_text, decoded_config_text, find_json_end, is_efi_mount, mount_entry, split_fields, EfiContext, EfiError,
};

#[test]
fn json_end_ignores_brackets_in_strings_and_trailing_padding() {
    let data = br#"{"a":"}]\"{","b":[1,{}]}  garbage}"#;
    let end = find_json_end(data);
    assert_eq!(&data[..end], br#"{"a":"}]\"{","b":[1,{}]}"#);
    assert_eq!(find_json_end(b"{\"open\": [1, 2"), 14);
    assert_eq!(find_json_end(b""), 0);
    assert_eq!(find_json_end(b"} {}"), 4);
    assert_eq!(find_json_end(b"[]\0\0\0"), 2);
}

#[test]
fn raw_config_text_is_truncated_and_must_be_utf8() {
    let mut data = b"{\"adapters\":{}}".to_vec();
    data.extend_from_slice(&[0, 0, 0xff]);
    assert_eq!(config_text(data).unwrap(), "{\"adapters\":{}}");
    match config_text(vec![b'{', 0xff, b'}']) {
        Err(EfiError::ParseError(m)) => {
            assert_eq!(m, "Invalid UTF-8 in config file: invalid utf-8 sequence of 1 bytes from index 1")
        },
        other => panic!("expected a parse error, got {:?}", other),
    }
}

#[test]
fn mount_table_lines_and_efi_mounts() {
    let e = mount_entry("/dev/nvme0n1p1 /boot/efi vfat rw,relatime 0 0").unwrap();
    assert_eq!((e.source.as_str(), e.target.as_str(), e.fs_type.as_str()), ("/dev/nvme0n1p1", "/boot/efi", "vfat"));
    assert!(mount_entry("only two").is_none());
    assert_eq!(check_efi_mount(&e, true).unwrap(), "/boot/efi");
    assert_eq!(
        check_efi_mount(&e, false).unwrap_err(),
        "EFI device is mounted at /boot/efi without a usable EFI directory"
    );
    assert!(is_efi_mount(" vfat\n", true));
    assert!(!is_efi_mount("ext4\n", true));
    assert!(!is_efi_mount("vfat", false));
    let fields = split_fields("  a\tbb  c ");
    assert_eq!(fields.len(), 3);
    assert_eq!(fields[1], vec!['b', 'b']);
}

#[test]
fn efi_errors_and_context_describe_themselves() {
    assert_eq!(EfiError::NotFound.message(), "Configuration file not found on EFI partition");
    assert_eq!(EfiError::ReadError("x".into()).message(), "Failed to read from EFI: x");
    assert_eq!(EfiError::WriteError("y".into()).message(), "Failed to write to EFI: y");
    assert_eq!(EfiError::ParseError("z".into()).message(), "Failed to parse config: z");
    assert_eq!(EfiContext::default().display_name(), "auto-detected");
    assert_eq!(EfiContext::new("/dev/sda1".into()).display_name(), "/dev/sda1");
}

#[test]
fn decoded_config_text_names_the_invalid_sequence() {
    assert_eq!(decoded_config_text(Ok("{}".into())).unwrap(), "{}");
    assert_eq!(
        decoded_config_text(Err("bad byte".into())),
        Err(EfiError::ParseError("Invalid UTF-8 in config file: bad byte".into()))
    );
}
