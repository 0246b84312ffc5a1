use junkyard::clock::{LocalTime, SystemTime};
use junkyard::error::{ErrorKind, IoError};
use junkyard::path::PathBuf;
use junkyard::platform::linux::mount::{
    decode_mount_info_path, parse_mount_info, MountInfo, MountParseError, MountPoint, Mounts,
};
use junkyard::platform::linux::directory_size::DirectorySizeCache;
use junkyard::platform::linux::location::{ExternalTrashPath, HomeTrashPath, TrashLocation};
use junkyard::platform::linux::trash_info::{
    next_collision_index, percent_encode_path, trash_info_contents,
};
use junkyard::text::{bytes_equal, push_decimal, push_padded_decimal, push_signed_decimal};
use junkyard::{Error, Trash, TrashItem};

fn path(text: &str) -> PathBuf {
    PathBuf::from_slice(text.as_bytes())
}

fn mount_info(text: &str) -> MountInfo {
    MountInfo { mount_point: MountPoint(path(text)) }
}

#[test]
fn test_parse_mount_info() {
    let bytes = b"36 35 98:0 / / rw,relatime - ext4 /dev/root rw\n\
        37 36 8:1 / /home rw,nosuid - ext4 /dev/sda1 rw\n";
    let entries = parse_mount_info(bytes).unwrap();

    assert_eq!(entries, vec![mount_info("/"), mount_info("/home")]);
}

#[test]
fn test_parse_mount_info_decodes_path_escapes() {
    let bytes = b"37 36 8:1 / /media/USB\\040Drive rw - ext4 /dev/sda1 rw";
    let entries = parse_mount_info(bytes).unwrap();

    assert_eq!(entries, vec![mount_info("/media/USB Drive")]);
}

#[test]
fn test_parse_mount_info_preserves_invalid_utf8() {
    let bytes = b"37 36 8:1 / /media/camera-\\377card rw - ext4 /dev/sda1 rw";
    let entries = parse_mount_info(bytes).unwrap();

    assert_eq!(
        entries,
        vec![MountInfo {
            mount_point: MountPoint(PathBuf::from_bytes(b"/media/camera-\xffcard".to_vec())),
        }]
    );
}

#[test]
fn test_parse_mount_info_rejects_invalid_path_escape() {
    let bytes = b"37 36 8:1 / /media/invalid\\999path rw - ext4 /dev/sda1 rw";
    let error = parse_mount_info(bytes).unwrap_err();

    assert_eq!(error, MountParseError::InvalidPathEscape);
}

#[test]
fn test_find_mount_point_uses_longest_match() {
    let mounts =
        Mounts::new(vec![mount_info("/home"), mount_info("/"), mount_info("/home/user")]);

    let mount_point = mounts.find_mount_point(&path("/home/user/Downloads/file.txt")).unwrap();

    assert_eq!(mount_point.as_path(), &path("/home/user"));
}

#[test]
fn test_find_mount_point_does_not_match_partial_component() {
    let mounts = Mounts::new(vec![mount_info("/"), mount_info("/media/user/External")]);

    let mount_point = mounts.find_mount_point(&path("/media/user/ExternalSSD/file.txt")).unwrap();

    assert_eq!(mount_point.as_path(), &path("/"));
}

#[test]
fn test_find_mount_point_without_match() {
    let mounts = Mounts::new(vec![mount_info("/media")]);

    assert!(mounts.find_mount_point(&path("/home/user")).is_none());
}

#[test]
fn test_decode_mount_info_path() {
    let decode = |field: &[u8]| decode_mount_info_path(field).map(PathBuf::into_bytes);

    assert_eq!(decode(b"/a\\134b\\011"), Some(b"/a\\b\t".to_vec()));
    assert_eq!(decode(b"/plain"), Some(b"/plain".to_vec()));
    assert_eq!(decode(b"/a\\04"), None);
    assert_eq!(decode(b"/a\\400"), None);
    assert_eq!(decode(b"/a\\"), None);
}

fn check_percent_encode_path() {
    let encoded = percent_encode_path(&path("/home/user/Downloads/CPU usage %.log"));

    assert_eq!(encoded, "/home/user/Downloads/CPU%20usage%20%25.log");
}

#[test]
fn linux_test_percent_encode_path() {
    check_percent_encode_path();
}

#[test]
fn trash_info_test_percent_encode_path() {
    check_percent_encode_path();
}

fn check_percent_encode_path_preserves_invalid_utf8() {
    let encoded = percent_encode_path(&PathBuf::from_bytes(b"/tmp/invalid-\xff.txt".to_vec()));

    assert_eq!(encoded, "/tmp/invalid-%FF.txt");
}

#[test]
fn linux_test_percent_encode_path_preserves_invalid_utf8() {
    check_percent_encode_path_preserves_invalid_utf8();
}

#[test]
fn trash_info_test_percent_encode_path_preserves_invalid_utf8() {
    check_percent_encode_path_preserves_invalid_utf8();
}

fn check_trash_info_contents() {
    let discarded_at = LocalTime::new(1_779_555_000, 0, 0).unwrap();
    let contents = trash_info_contents(&path("/home/user/Downloads/clip 01.mp4"), &discarded_at);

    assert_eq!(
        contents,
        "[Trash Info]\nPath=/home/user/Downloads/clip%2001.mp4\nDeletionDate=2026-05-23T16:50:00\n"
    );
}

#[test]
fn linux_test_trash_info_contents() {
    check_trash_info_contents();
}

#[test]
fn trash_info_test_trash_info_contents() {
    check_trash_info_contents();
}

#[test]
fn test_trash_info_contents_in_another_time_zone() {
    for (seconds, offset, date) in [
        (1_779_555_000, 7_200, "2026-05-23T18:50:00"),
        (1_779_555_000, -61_200, "2026-05-22T23:50:00"),
        (-1, 0, "1969-12-31T23:59:59"),
        (951_782_400, 0, "2000-02-29T00:00:00"),
        (-62_167_219_200, 0, "0000-01-01T00:00:00"),
        (-62_198_755_200, 0, "-001-01-01T00:00:00"),
    ] {
        let time = LocalTime::new(seconds, 0, offset).unwrap();

        assert_eq!(
            trash_info_contents(&path("a"), &time),
            format!("[Trash Info]\nPath=a\nDeletionDate={date}\n")
        );
    }
}

#[test]
fn test_local_times_have_a_range() {
    assert!(LocalTime::new(0, 1_000_000_000, 0).is_none());
    assert!(LocalTime::new(253_402_300_800, 0, 0).is_none());
    assert!(LocalTime::new(253_402_300_799, 0, 1).is_none());
    assert!(LocalTime::new(253_402_300_799, 999_999_999, 0).is_some());
    assert!(LocalTime::new(0, 0, 93_600).is_none());

    let time = LocalTime::new(-2, 250_000_000, 0).unwrap().to_system_time();

    assert!(time.before_epoch);
    assert_eq!(time.seconds, 1);
    assert_eq!(time.nanoseconds, 750_000_000);
}

#[test]
fn test_paths_are_compared_by_their_components() {
    assert_eq!(path("/a//b/."), path("/a/b"));
    assert_ne!(path("/a/b"), path("a/b"));
    assert_ne!(path("./a"), path("a"));
    assert_eq!(path("/a/b").parent(), Some(path("/a")));
    assert_eq!(path("/").parent(), None);
    assert_eq!(path("a").parent(), Some(path("")));
    assert_eq!(path("/a/..").file_name(), None);
    assert_eq!(path("/a/b/").file_name(), Some(b"b".to_vec()));
    assert_eq!(path("/a").join(b"/b"), path("/b"));
    assert_eq!(path("/a/").join(b"b").as_bytes(), b"/a/b");
    assert_eq!(path("/a/b/c").strip_prefix(&path("/a")), Some(path("b/c")));
    assert_eq!(path("/ab").strip_prefix(&path("/a")), None);
    assert!(path("/a/b").starts_with(&path("/a/")));
    assert!(!path("/ab").starts_with(&path("/a")));
    assert!(path("/a/../b").has_parent_component());
}

#[test]
fn test_every_byte_can_be_decoded() {
    let bytes: Vec<u8> = (0..=255).collect();
    let encoded = percent_encode_path(&PathBuf::from_bytes(bytes.clone()));
    let mut decoded: Vec<u8> = Vec::new();
    let mut left = encoded.as_bytes();
    while let [first, rest @ ..] = left {
        if *first == b'%' {
            let digits = String::from_utf8(rest[..2].to_vec()).unwrap();
            decoded.push(u8::from_str_radix(&digits, 16).unwrap());
            left = &rest[2..];
        } else {
            decoded.push(*first);
            left = rest;
        }
    }

    assert_eq!(decoded, bytes);
    assert!(encoded.bytes().all(|byte| byte.is_ascii_alphanumeric()
        || b"/%-_.!~*'()".contains(&byte)));
}

#[test]
fn test_encoded_lines_stay_apart() {
    let name = percent_encode_path(&path("two words\nand a line"));

    assert_eq!(
        DirectorySizeCache::contents(Some("1 2 two\n"), 3, 4, &name),
        "1 2 two\n3 4 two%20words%0Aand%20a%20line\n"
    );
}

#[test]
fn test_error_texts() {
    let odd = PathBuf::from_bytes(b"/odd-\xff".to_vec());
    let source = IoError::new(ErrorKind::NotFound, "no such entry");

    assert_eq!(source.kind, ErrorKind::NotFound);
    assert_eq!(source.code, None);
    assert_eq!(source.message, "no such entry");
    assert_eq!(Error::EmptyPath.to_text(), "Path is empty");
    assert_eq!(
        Error::TargetedRoot { path: odd.clone() }.to_text(),
        "Cannot move filesystem root to trash: /odd-\u{fffd}"
    );
    assert_eq!(
        Error::Io { path: path("/caf\u{e9}"), source }.to_text(),
        "I/O failure for path: /caf\u{e9}"
    );
    assert_eq!(
        Error::Platform { path: path("/a"), message: "no room".to_string() }.to_text(),
        "Trash operation failed for /a: no room"
    );
}

#[test]
fn test_trash_items() {
    let time = SystemTime { before_epoch: false, seconds: 5, nanoseconds: 6 };
    let item = TrashItem::new(
        b"/Trash/info/a.trashinfo".to_vec(),
        b"a".to_vec(),
        path("/home/user"),
        time,
    );
    let copy = item.clone();

    assert_eq!(copy.id(), b"/Trash/info/a.trashinfo");
    assert_eq!(copy.original_name(), b"a");
    assert_eq!(copy.original_parent().as_bytes(), b"/home/user");
    assert_eq!(copy.original_path().as_bytes(), b"/home/user/a");
    assert_eq!(copy.discarded_at(), time);
    assert_eq!(format!("{:?}", Trash::new()), "Trash");
}

#[test]
fn test_joining_undoes_stripping() {
    for (whole, base) in [
        ("/media/usb//Photos/./image.jpg", "/media/usb/"),
        ("/media/usb", "/media/usb"),
        ("/a/b", "/"),
        ("a/b/c", "a"),
    ] {
        let rest = path(whole).strip_prefix(&path(base)).unwrap();

        assert!(!rest.is_absolute());
        assert_eq!(path(base).join(rest.as_bytes()), path(whole));
    }
}

#[test]
fn test_names_and_parents_make_up_paths() {
    for text in ["/a/b", "/a", "a", "a/./b//", "../a"] {
        let name = path(text).file_name().unwrap();
        let above = path(text).parent().unwrap();

        assert_eq!(above.join(&name), path(text));
        assert_eq!(above.join(&name).file_name(), Some(name));
    }
}

#[test]
fn test_external_trash_lies_below_the_mount_point() {
    let trash = ExternalTrashPath::new(&path("/media/usb"), 7, None);
    let location = TrashLocation::External {
        path: trash,
        mount_point: MountPoint(path("/media/usb")),
    };

    assert_eq!(
        location,
        TrashLocation::External {
            path: ExternalTrashPath {
                path: path("/media/usb/.Trash-7"),
                fallback_path: None,
            },
            mount_point: MountPoint(path("/media/usb")),
        }
    );

    let original = location.trash_info_path(&path("/media/usb/a/b")).unwrap();

    assert_eq!(original.as_bytes(), b"a/b");
    assert!(matches!(
        location.trash_info_path(&path("/media/usb")),
        Err(Error::Platform { .. })
    ));
}

#[test]
fn test_relative_data_home_is_ignored() {
    let with = HomeTrashPath::resolve(Some(b"share"), Some(b"/home/user")).unwrap();
    let without = HomeTrashPath::resolve(None, Some(b"/home/user")).unwrap();

    assert_eq!(with, without);
    assert_eq!(with.as_path().as_bytes(), b"/home/user/.local/share/Trash");
}

#[test]
fn test_mount_table_faults() {
    assert_eq!(parse_mount_info(b"1 2 3 4 /a rw"), Err(MountParseError::MissingSeparator));
    assert_eq!(parse_mount_info(b"1 2 3 4 - ext4"), Err(MountParseError::MissingMountPoint));
    assert_eq!(parse_mount_info(b"\n\n"), Ok(Vec::new()));
}

#[test]
fn test_collision_indexes_end() {
    assert_eq!(next_collision_index(0, &path("/a")).unwrap(), 1);

    let error = next_collision_index(usize::MAX, &path("/a")).unwrap_err();

    assert_eq!(
        error.to_text(),
        "Trash operation failed for /a: Could not find available trash name for /a"
    );
}

#[test]
fn test_numbers() {
    let mut bytes = Vec::new();
    push_decimal(&mut bytes, u64::MAX);
    bytes.push(b' ');
    push_signed_decimal(&mut bytes, i64::MIN);
    bytes.push(b' ');
    push_padded_decimal(&mut bytes, 7, 4);

    assert!(bytes_equal(&bytes, b"18446744073709551615 -9223372036854775808 0007"));
    assert!(!bytes_equal(&bytes, b"18446744073709551615"));
}
