use memdump::error::Error;
use memdump::error::FieldName;
use memdump::memory::parse_region;
use memdump::memory::Device;
use memdump::memory::Memory;
use memdump::memory::PermissionBits;
use memdump::memory::Permissions;
use memdump::memory::Region;

fn perms_of(bits: &[PermissionBits]) -> Permissions {
    let mut p = Permissions::new();
    for b in bits {
        p.add(*b);
    }
    p
}

#[test]
fn test_parse_region_with_file() {
    let region_with_file = "559213685000-5592136ff000 r--p 00000000 fe:01 1462190                    /usr/bin/nvim";
    let region = Region {
        start: 0x559213685000,
        end: 0x5592136ff000,
        perms: perms_of(&[PermissionBits::Read, PermissionBits::Private]),
        offset: 0,
        dev: Device {
            major: 0xfe,
            minor: 0x01,
        },
        inode: 1462190,
        file: Some("/usr/bin/nvim".into()),
    };
    let parsed_region = match parse_region(region_with_file) {
        Ok(region) => region,
        Err(e) => {
            panic!("{}", e.message());
        }
    };
    assert_eq!(region, parsed_region);
}

#[test]
fn test_parse_region_without_file() {
    let region_with_file = "559213ad7000-559213af0000 rw-s 0000d000 00:00 0 ";
    let region = Region {
        start: 0x559213ad7000,
        end: 0x559213af0000,
        perms: perms_of(&[
            PermissionBits::Read,
            PermissionBits::Write,
            PermissionBits::Shared,
        ]),
        offset: 0xd000,
        dev: Device {
            major: 0x0,
            minor: 0x0,
        },
        inode: 0,
        file: None,
    };
    let parsed_region = match parse_region(region_with_file) {
        Ok(region) => region,
        Err(e) => {
            panic!("{}", e.message());
        }
    };
    assert_eq!(region, parsed_region);
}

#[test]
fn parsed_fields_and_flags() {
    let r = parse_region("559213685000-5592136ff000 r--p 00000000 fe:01 1462190   /usr/bin/nvim")
        .unwrap();
    assert_eq!(r.start, 0x559213685000);
    assert_eq!(r.end, 0x5592136ff000);
    assert!(r.perms.has_perm(PermissionBits::Read));
    assert!(!r.perms.has_perm(PermissionBits::Write));
    assert!(!r.perms.has_perm(PermissionBits::Exec));
    assert!(r.perms.has_perm(PermissionBits::Private));
    assert!(!r.perms.has_perm(PermissionBits::Shared));
    assert_eq!(r.offset, 0);
    assert_eq!(r.dev, Device { major: 0xfe, minor: 0x01 });
    assert_eq!(r.inode, 1462190);
    assert_eq!(r.file(), Some("/usr/bin/nvim"));
    assert_eq!(r.filename(), Some("nvim"));
    assert_eq!(r.size(), 0x5592136ff000 - 0x559213685000);
}

#[test]
fn render_canonical() {
    let r = parse_region("559213685000-5592136ff000 r--p 00000000 fe:01 1462190   /usr/bin/nvim")
        .unwrap();
    assert_eq!(
        r.render(),
        "559213685000-5592136ff000_r--p-_+0_fe:01_164fae_nvim"
    );
}

#[test]
fn render_without_file_pads_device() {
    let r = parse_region("559213ad7000-559213af0000 rw-s 0000d000 00:00 0 ").unwrap();
    assert_eq!(r.render(), "559213ad7000-559213af0000_rw--s_+d000_00:00_0");
}

#[test]
fn permissions_parse_positions() {
    let cases: &[(&str, &str, &str)] = &[
        ("q--p", "permissions-read", "q"),
        ("rq-p", "permissions-write", "q"),
        ("rwqp", "permissions-exec", "q"),
        ("rwxq", "permissions-private/shared", "q"),
    ];
    for (input, field, value) in cases {
        match Permissions::parse(input) {
            Err(Error::MalformedRegionField { field: f, value: v }) => {
                assert_eq!(&f.name(), field);
                assert_eq!(&v, value);
            }
            other => panic!("expected malformed field for {:?}, got {:?}", input, other),
        }
    }
}

#[test]
fn permissions_too_short() {
    match Permissions::parse("rw") {
        Err(Error::MalformedRegionField { field, value }) => {
            assert_eq!(field, FieldName::Permissions);
            assert_eq!(field.name(), "permissions");
            assert_eq!(value, "rw");
        }
        other => panic!("expected malformed permissions, got {:?}", other),
    }
}

#[test]
fn permissions_field_in_record() {
    match parse_region("0-1000 rwxq 0 00:00 0") {
        Err(Error::MalformedRegionField { field, value }) => {
            assert_eq!(field, FieldName::PermissionsPrivateShared);
            assert_eq!(value, "q");
        }
        other => panic!("expected malformed permissions, got {:?}", other),
    }
}

#[test]
fn missing_fields_in_order() {
    let cases: &[(&str, FieldName)] = &[
        ("", FieldName::StartEnd),
        ("   ", FieldName::StartEnd),
        ("0-1000", FieldName::Permissions),
        ("0-1000 r--p", FieldName::Offset),
        ("0-1000 r--p 00", FieldName::Device),
        ("0-1000 r--p 00 fe:01", FieldName::Inode),
    ];
    for (input, field) in cases {
        match parse_region(input) {
            Err(Error::MissingRegionField(f)) => assert_eq!(&f, field),
            other => panic!("expected missing field for {:?}, got {:?}", input, other),
        }
    }
}

#[test]
fn start_end_must_have_dash() {
    match parse_region("1000 r--p 0 00:00 0") {
        Err(Error::MalformedRegionField { field, value }) => {
            assert_eq!(field, FieldName::StartEnd);
            assert_eq!(value, "1000");
        }
        other => panic!("expected malformed start-end, got {:?}", other),
    }
}

#[test]
fn start_not_below_end_rejected() {
    match parse_region("1000-1000 r--p 0 00:00 0") {
        Err(Error::MalformedRegionField { field, .. }) => {
            assert_eq!(field, FieldName::StartEnd);
        }
        other => panic!("expected malformed start-end, got {:?}", other),
    }
    assert!(matches!(
        parse_region("2000-1000 r--p 0 00:00 0"),
        Err(Error::MalformedRegionField { .. })
    ));
}

#[test]
fn numeric_failures_are_parse_int_errors() {
    match parse_region("0-10zz r--p 0 00:00 0") {
        Err(Error::ParseIntError(v)) => assert_eq!(v, "10zz"),
        other => panic!("expected integer error, got {:?}", other),
    }
    // 17 hex digits overflow a 64-bit address
    assert!(matches!(
        parse_region("0-fffffffffffffffff r--p 0 00:00 0"),
        Err(Error::ParseIntError(_))
    ));
    // a device byte above 0xff overflows
    assert!(matches!(
        parse_region("0-1000 r--p 0 1fe:01 0"),
        Err(Error::ParseIntError(_))
    ));
    // the inode field is decimal
    assert!(matches!(
        parse_region("0-1000 r--p 0 00:00 1f"),
        Err(Error::ParseIntError(_))
    ));
}

#[test]
fn leading_plus_accepted_in_numbers() {
    let r = parse_region("0-1000 r--p +d000 00:00 +12").unwrap();
    assert_eq!(r.offset, 0xd000);
    assert_eq!(r.inode, 12);
}

#[test]
fn device_without_colon_is_malformed() {
    match parse_region("0-1000 r--p 0 fe01 0") {
        Err(Error::MalformedRegionField { field, value }) => {
            assert_eq!(field, FieldName::Device);
            assert_eq!(field.name(), "device");
            assert_eq!(value, "fe01");
        }
        other => panic!("expected malformed device, got {:?}", other),
    }
}

#[test]
fn device_splits_on_rightmost_colon() {
    // the split happens at the last colon, so the major half keeps the
    // earlier colon and fails as a number, not as a missing colon
    match parse_region("0-1000 r--p 0 fe:01:02 0") {
        Err(Error::ParseIntError(v)) => assert_eq!(v, "fe:01"),
        other => panic!("expected integer error on major half, got {:?}", other),
    }
}

#[test]
fn file_keeps_interior_spaces() {
    let r = parse_region("0-1000 r--p 0 00:00 0 /tmp/with space/file").unwrap();
    assert_eq!(r.file(), Some("/tmp/with space/file"));
    assert_eq!(r.filename(), Some("file"));
}

#[test]
fn filename_edge_cases() {
    let mk = |file: &str| Region {
        start: 0,
        end: 0x1000,
        perms: perms_of(&[PermissionBits::Read, PermissionBits::Private]),
        offset: 0,
        dev: Device { major: 0, minor: 0 },
        inode: 0,
        file: Some(file.into()),
    };
    assert_eq!(mk("/usr/bin/nvim").filename(), Some("nvim"));
    assert_eq!(mk("/usr/bin/").filename(), Some("bin"));
    assert_eq!(mk("[heap]").filename(), Some("[heap]"));
    assert_eq!(mk("/").filename(), None);
    assert_eq!(mk("///").filename(), None);
    let none = Region { file: None, ..mk("x") };
    assert_eq!(none.filename(), None);
}

#[test]
fn memory_from_maps_parses_all_lines() {
    let maps = "559213685000-5592136ff000 r--p 00000000 fe:01 1462190 /usr/bin/nvim\n\
                559213ad7000-559213af0000 rw-s 0000d000 00:00 0\n";
    let m = Memory::from_maps(42, maps).unwrap();
    assert_eq!(m.pid(), 42);
    assert_eq!(m.regions().len(), 2);
    assert_eq!(m.regions()[0].file(), Some("/usr/bin/nvim"));
    assert_eq!(m.regions()[1].start, 0x559213ad7000);
}

#[test]
fn memory_from_maps_fails_on_first_bad_line() {
    let maps = "0-1000 r--p 0 00:00 0\nnot a region at all\n1000-2000 r--p 0 00:00 0";
    match Memory::from_maps(1, maps) {
        Err(Error::MalformedRegionField { field, .. }) => {
            assert_eq!(field, FieldName::StartEnd);
        }
        other => panic!("expected malformed line to abort the load, got {:?}", other),
    }
}

#[test]
fn memory_from_maps_handles_crlf_and_empty_input() {
    let m = Memory::from_maps(7, "0-1000 r--p 0 00:00 0\r\n").unwrap();
    assert_eq!(m.regions().len(), 1);
    let empty = Memory::from_maps(7, "").unwrap();
    assert_eq!(empty.regions().len(), 0);
}

#[test]
fn find_region_by_range() {
    let maps = "0-1000 r--p 0 00:00 0\n1000-2000 rw-p 0 00:00 0";
    let m = Memory::from_maps(1, maps).unwrap();
    let r = m.find_region(0x1000, 0x2000).unwrap();
    assert!(r.perms.has_perm(PermissionBits::Write));
    match m.find_region(0x5000, 0x6000) {
        Err(Error::RegionNotFound { start, end }) => {
            assert_eq!(start, 0x5000);
            assert_eq!(end, 0x6000);
        }
        other => panic!("expected region not found, got {:?}", other),
    }
}

#[test]
fn error_messages() {
    assert_eq!(
        Error::MissingRegionField(FieldName::Device).message(),
        "Missing device field in region"
    );
    assert_eq!(
        Error::MalformedRegionField {
            field: FieldName::StartEnd,
            value: "oops".into()
        }
        .message(),
        "Malformed field start-end in region: \"oops\""
    );
    assert_eq!(
        Error::RegionNotFound { start: 0x10, end: 0x20 }.message(),
        "Region mapped with 0x10..0x20 not found"
    );
    assert_eq!(Error::Ptrace(3).message(), "ptrace error: os error 3");
    assert_eq!(Error::IO(None).message(), "I/O error");
    assert_eq!(Error::IO(Some(-2)).message(), "I/O error: os error -2");
    assert_eq!(Error::ParseIntError("xy".into()).message(), "invalid integer xy");
}

#[test]
fn permission_bit_symbols() {
    assert_eq!(PermissionBits::Read.symbol(), 'r');
    assert_eq!(PermissionBits::Write.symbol(), 'w');
    assert_eq!(PermissionBits::Exec.symbol(), 'e');
    assert_eq!(PermissionBits::Private.symbol(), 'p');
    assert_eq!(PermissionBits::Shared.symbol(), 's');
}
