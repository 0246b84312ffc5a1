use junkyard::clock::SystemTime;
use junkyard::error::ErrorKind;
use junkyard::platform::windows::path::{has_nul, wide_path};
use junkyard::platform::windows::shell::{
    check_parsing_name, is_legacy_file_name, is_reserved_device_name, shell_path, FileTime,
    FileTimeParts, FindItem, ItemError, NameFault, FILE_TIME_TICKS_PER_SECOND,
    MAX_SHELL_FILE_NAME_CODE_UNITS, UNIX_EPOCH_FILE_TIME_TICKS,
};

fn wide(text: &str) -> Vec<u16> {
    text.encode_utf16().collect()
}

/// Two paths are the same on Windows when they differ in the case of the drive's letter alone.
fn same_path(left: &[u16], right: &[u16]) -> bool {
    let drive = |path: &[u16]| {
        char::from_u32(u32::from(path[0])).map(|letter| letter.to_ascii_uppercase())
    };

    drive(left) == drive(right) && left[1..] == right[1..]
}

fn assert_shell_path(path: &str, expected: &str) {
    let found = shell_path(&wide(path)).unwrap();

    assert!(same_path(&found, &wide(expected)), "{path}");
}

#[test]
fn test_shell_path_converts_verbatim_disk_path() {
    assert_shell_path(r"\\?\C:\foo\bar", r"C:\foo\bar");
    assert_shell_path(r"\\?\Z:\foo\bar", r"Z:\foo\bar");
    assert_shell_path(r"\\?\c:\foo", r"c:\foo");
    assert_shell_path(r"\\?\Z:\🧪\📦", r"Z:\🧪\📦");
}

#[test]
fn test_shell_path_rejects_unsafe_verbatim_paths() {
    for path in [
        r"\\?\C:\foo\.\bar",
        r"\\?\C:\foo\..\bar",
        r"\\?\C:\foo/bar",
        r"\\?\c\foo",
        r"\\?\c:foo",
        r"\\?\cc:foo",
        r"\\?\c:foo\bar",
        r"\\?\UNC\server\share\foo",
        r"\\.\C:\notdisk",
        r"\\?\GLOBALROOT\Device\ImDisk0\path\to\file.txt",
    ] {
        assert!(shell_path(&wide(path)).is_none(), "{path}");
    }
}

#[test]
fn test_shell_path_rejects_invalid_legacy_file_names() {
    for path in [
        r"\\?\C:\CON",
        r"\\?\C:\COM1.txt",
        r"\\?\C:\nul.tar.gz",
        r"\\?\C:\file.",
        r"\\?\C:\file ",
        r"\\?\C:\foo\bad:name",
        r#"\\?\C:\foo\bad"name"#,
        r"\\?\C:\foo\bad<name",
        r"\\?\C:\foo\bad>name",
        r"\\?\C:\foo\bad|name",
        r"\\?\C:\foo\bad?name",
        r"\\?\C:\foo\bad*name",
        "\\\\?\\C:\\foo\\bad\u{1f}name",
    ] {
        assert!(shell_path(&wide(path)).is_none(), "{path}");
    }
}

#[test]
fn test_shell_path_checks_legacy_path_length_with_nul() {
    let file_name = "m".repeat(MAX_SHELL_FILE_NAME_CODE_UNITS - 1);
    let allowed_path = format!(r"\\?\C:\a\{file_name}");
    let expected_path = format!(r"C:\a\{file_name}");

    assert_eq!(shell_path(&wide(&allowed_path)), Some(wide(&expected_path)));

    let too_long_file_name = "m".repeat(MAX_SHELL_FILE_NAME_CODE_UNITS);
    let too_long_path = format!(r"\\?\C:\a\{too_long_file_name}");

    assert!(shell_path(&wide(&too_long_path)).is_none());
}

#[test]
fn test_file_time_from_windows() {
    let file_time = FileTime::from_windows(FileTimeParts { low: 0x89ab_cdef, high: 0x0123_4567 });

    assert_eq!(file_time.0, 0x0123_4567_89ab_cdef);
}

#[test]
fn test_file_time_converts_nt_epoch() {
    let system_time = FileTime(0).to_system_time();

    assert_eq!(
        system_time,
        SystemTime {
            before_epoch: true,
            seconds: UNIX_EPOCH_FILE_TIME_TICKS / FILE_TIME_TICKS_PER_SECOND,
            nanoseconds: 0,
        }
    );
}

#[test]
fn test_file_time_converts_unix_epoch() {
    let system_time = FileTime(UNIX_EPOCH_FILE_TIME_TICKS).to_system_time();

    assert_eq!(system_time, SystemTime { before_epoch: false, seconds: 0, nanoseconds: 0 });
}

#[test]
fn test_file_time_converts_before_and_after_unix_epoch() {
    let before = FileTime(UNIX_EPOCH_FILE_TIME_TICKS - 1).to_system_time();
    let after = FileTime(UNIX_EPOCH_FILE_TIME_TICKS + 1).to_system_time();

    assert_eq!(before, SystemTime { before_epoch: true, seconds: 0, nanoseconds: 100 });
    assert_eq!(after, SystemTime { before_epoch: false, seconds: 0, nanoseconds: 100 });
}

#[test]
fn test_file_time_preserves_subsecond_precision() {
    let file_time = FileTime(UNIX_EPOCH_FILE_TIME_TICKS + FILE_TIME_TICKS_PER_SECOND + 5);

    assert_eq!(
        file_time.to_system_time(),
        SystemTime { before_epoch: false, seconds: 1, nanoseconds: 500 }
    );
}

#[test]
fn test_shell_path_keeps_the_root_and_drops_empty_names() {
    assert_eq!(shell_path(&wide(r"\\?\C:\")), Some(wide(r"C:\")));
    assert_eq!(shell_path(&wide(r"\\?\c:/a\\b\")), Some(wide(r"C:\a\b")));
    assert_eq!(shell_path(&wide(r"\\?\C:")), None);
    assert_eq!(shell_path(&wide("")), None);
}

#[test]
fn test_device_names() {
    for name in ["AUX", "con", "Nul.txt", "PRN  .gz", "COM9", "com²", "LPT¹.a.b", "Lpt³ "] {
        assert!(is_reserved_device_name(&wide(name)), "{name}");
    }
    for name in ["lpt0.", "COM", "COM10", "LPT⁴", "AUXI", "", ".con", " con"] {
        assert!(!is_reserved_device_name(&wide(name)), "{name}");
    }
}

#[test]
fn test_legacy_names_are_text() {
    assert!(is_legacy_file_name(&[0x61, 0xd83e, 0xddea]));
    assert!(!is_legacy_file_name(&[0x61, 0xd83e]));
    assert!(!is_legacy_file_name(&[0xddea, 0x61]));
    assert!(!is_legacy_file_name(&[0xd83e, 0xd83e, 0xddea]));
    assert!(!is_legacy_file_name(&[]));
    assert!(is_legacy_file_name(&wide(&"m".repeat(MAX_SHELL_FILE_NAME_CODE_UNITS))));
    assert!(!is_legacy_file_name(&wide(&"m".repeat(MAX_SHELL_FILE_NAME_CODE_UNITS + 1))));
}

#[test]
fn test_wide_path_ends_in_nul() {
    assert_eq!(wide_path(&[0x61, 0x62]).unwrap(), vec![0x61, 0x62, 0]);
    assert!(!has_nul(&[0x61, 0x62]));

    let error = wide_path(&[0x61, 0, 0x62]).unwrap_err();

    assert_eq!(error.kind, ErrorKind::InvalidInput);
    assert_eq!(error.code, None);
    assert_eq!(error.message, "string contains an interior NUL");
}

#[test]
fn test_parsing_names_are_checked() {
    assert_eq!(check_parsing_name(&[]), Err(NameFault::Empty));
    assert_eq!(check_parsing_name(&[0x61]), Err(NameFault::NotTerminated));
    assert_eq!(check_parsing_name(&[0x61, 0, 0]), Err(NameFault::InteriorNul));
    assert_eq!(check_parsing_name(&[0x61, 0]), Ok(()));
    assert_eq!(NameFault::Empty.to_text(), "Shell parsing name was empty");
    assert_eq!(NameFault::NotTerminated.to_text(), "Shell parsing name was not NUL-terminated");
    assert_eq!(NameFault::InteriorNul.to_text(), "Shell parsing name contained an interior NUL");
}

#[test]
fn test_find_item_tries_the_path_itself_second() {
    let path = wide(r"\\?\c:\foo");
    let search = FindItem::start(path.clone()).unwrap();

    assert_eq!(search.parsing_name(), wide("C:\\foo\0"));
    assert_eq!(check_parsing_name(search.parsing_name()), Ok(()));

    let search = search.refused("no such file").unwrap();

    assert_eq!(search.parsing_name(), wide("\\\\?\\c:\\foo\0"));

    let Err(ItemError::Platform { path: refused, message }) = search.refused("access denied")
    else {
        panic!("the search is over");
    };

    assert_eq!(refused, path);
    assert_eq!(
        message,
        r"Failed to create Windows shell item for \\?\c:\foo: no such file; access denied"
    );
}

#[test]
fn test_find_item_without_a_compatible_path() {
    let path = vec![0x43, 0x3a, 0x5c, 0xd800];
    let search = FindItem::start(path.clone()).unwrap();

    assert_eq!(search.parsing_name(), [0x43, 0x3a, 0x5c, 0xd800, 0]);

    let Err(ItemError::Platform { message, .. }) = search.refused("access denied") else {
        panic!("the search is over");
    };

    assert_eq!(
        message,
        "Failed to create Windows shell item for C:\\\u{fffd}: access denied"
    );

    let Err(ItemError::Io { path, source }) = FindItem::start(vec![0x43, 0, 0x3a]) else {
        panic!("the path holds a NUL");
    };

    assert_eq!(path, vec![0x43, 0, 0x3a]);
    assert_eq!(source.message, "string contains an interior NUL");
}

#[test]
fn test_file_times_keep_their_order() {
    let times: Vec<SystemTime> = [
        0,
        UNIX_EPOCH_FILE_TIME_TICKS - 1,
        UNIX_EPOCH_FILE_TIME_TICKS,
        UNIX_EPOCH_FILE_TIME_TICKS + FILE_TIME_TICKS_PER_SECOND,
        u64::MAX,
    ]
    .into_iter()
    .map(|ticks| FileTime(ticks).to_system_time())
    .collect();
    let nanoseconds: Vec<i128> = times
        .iter()
        .map(|time| {
            let distance = i128::from(time.seconds) * 1_000_000_000 + i128::from(time.nanoseconds);
            if time.before_epoch {
                -distance
            } else {
                distance
            }
        })
        .collect();

    assert!(nanoseconds.windows(2).all(|pair| pair[0] < pair[1]));
    assert_eq!(
        nanoseconds[4],
        (i128::from(u64::MAX) - i128::from(UNIX_EPOCH_FILE_TIME_TICKS)) * 100
    );
}
