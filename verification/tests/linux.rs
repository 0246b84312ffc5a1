//! Runs the operations on a filesystem in memory.

use std::collections::BTreeMap;

use junkyard::clock::LocalTime;
use junkyard::discard::{DiscardTarget, ResolveTarget, ResolveTargets};
use junkyard::error::{ErrorKind, IoError};
use junkyard::machine::{Environment, Machine, Metadata, Reply, Request, Step};
use junkyard::path::PathBuf;
use junkyard::platform::linux::directory_size::DirectorySizeCache;
use junkyard::platform::linux::disk_usage::STAT_BLOCK_SIZE;
use junkyard::platform::linux::location::{
    ExternalTrashPath, HomeTrashPath, ResolveLocation, TrashLocation,
};
use junkyard::platform::linux::mount::{MountInfo, MountPoint, Mounts};
use junkyard::platform::linux::payload::{MovePayload, PayloadKind};
use junkyard::platform::linux::permission::{EnsurePermission, OWNER_RWX_MODE};
use junkyard::platform::linux::prepare::{PreparePlain, TrashDirectory};
use junkyard::platform::linux::trash_info::{ReserveEntry, ReservedTrashEntry};
use junkyard::platform::linux::DiscardItem;
use junkyard::platform::macos;
use junkyard::{discard, discard_all, Error, Trash, TrashItem, TrashItems};

const WORLD_RWX_STICKY_MODE: u32 = 0o1777;
const WORLD_RWX_MODE: u32 = 0o0777;
const OWNER_RWX_WORLD_RX_MODE: u32 = 0o755;
const OWNER_RX_MODE: u32 = 0o500;
const PERMISSION_BITS_MASK: u32 = 0o777;

const USER: u32 = 1000;
const ROOT_MOUNT: &str = "36 35 98:0 / / rw,relatime - ext4 /dev/root rw\n";

#[derive(Clone, Debug, PartialEq)]
enum Kind {
    Directory,
    File(Vec<u8>),
    Link(String),
}

#[derive(Clone, Debug)]
struct Node {
    kind: Kind,
    mode: u32,
    uid: u32,
    ino: u64,
    blocks: u64,
    mtime: i64,
}

struct Disk {
    nodes: BTreeMap<String, Node>,
    inodes: u64,
    user: u32,
    xdg_data_home: Option<String>,
    home: Option<String>,
    time: Option<LocalTime>,
    listings: Vec<Vec<String>>,
    created: Option<String>,
    requests: Vec<String>,
    faults: Vec<(String, ErrorKind)>,
}

fn failure(kind: ErrorKind, message: &str) -> IoError {
    IoError { kind, code: None, message: message.to_string() }
}

fn text(path: &PathBuf) -> String {
    String::from_utf8(path.as_bytes().to_vec()).unwrap()
}

fn path(text: &str) -> PathBuf {
    PathBuf::from_slice(text.as_bytes())
}

fn mount_point(text: &str) -> MountPoint {
    MountPoint(path(text))
}

fn above(path: &str) -> String {
    match path.rfind('/') {
        Some(end) => path[..end].to_string(),
        None => String::new(),
    }
}

fn last_name(path: &str) -> String {
    match path.rfind('/') {
        Some(end) => path[end + 1..].to_string(),
        None => path.to_string(),
    }
}

fn local_time(seconds: i64) -> LocalTime {
    LocalTime::new(seconds, 0, 0).unwrap()
}

impl Disk {
    /// A disk with a home directory, a mount table and a directory for tests.
    fn new() -> Self {
        let mut disk = Disk {
            nodes: BTreeMap::new(),
            inodes: 0,
            user: USER,
            xdg_data_home: None,
            home: Some("/home/user".to_string()),
            time: Some(local_time(1_779_555_000)),
            listings: Vec::new(),
            created: None,
            requests: Vec::new(),
            faults: Vec::new(),
        };
        disk.add("", Kind::Directory);
        disk.write("/proc/self/mountinfo", ROOT_MOUNT);
        disk.create_dir_all("/home/user");
        disk.create_dir_all("/tmp/test");
        disk
    }

    fn add(&mut self, path: &str, kind: Kind) {
        self.inodes += 1;
        let blocks = 8 * self.inodes;
        let node = Node {
            kind,
            mode: OWNER_RWX_WORLD_RX_MODE,
            uid: self.user,
            ino: self.inodes,
            blocks,
            mtime: 1_000 + self.inodes as i64,
        };
        self.nodes.insert(path.to_string(), node);
    }

    fn create_dir_all(&mut self, path: &str) {
        let mut whole = String::new();
        for name in path.split('/').filter(|name| !name.is_empty()) {
            whole = format!("{whole}/{name}");
            if !self.nodes.contains_key(&whole) {
                self.add(&whole, Kind::Directory);
            }
        }
    }

    fn write(&mut self, path: &str, contents: &str) {
        self.create_dir_all(&above(path));
        self.add(path, Kind::File(contents.as_bytes().to_vec()));
    }

    fn link(&mut self, target: &str, path: &str) {
        self.add(path, Kind::Link(target.to_string()));
    }

    fn set_mode(&mut self, path: &str, mode: u32) {
        self.nodes.get_mut(path).unwrap().mode = mode;
    }

    fn holds(&self, path: &str) -> bool {
        self.nodes.contains_key(path)
    }

    fn is_dir(&self, path: &str) -> bool {
        matches!(self.nodes.get(path), Some(Node { kind: Kind::Directory, .. }))
    }

    fn mode(&self, path: &str) -> u32 {
        self.nodes[path].mode & PERMISSION_BITS_MASK
    }

    fn contents(&self, path: &str) -> String {
        match &self.nodes[path].kind {
            Kind::File(bytes) => String::from_utf8(bytes.clone()).unwrap(),
            other => panic!("{path} is {other:?}"),
        }
    }

    /// The request that starts with these words fails.
    fn fault(&mut self, request: &str, kind: ErrorKind) {
        self.faults.push((request.to_string(), kind));
    }

    /// The path with its symbolic links resolved, that of its last name only if `follow` says so.
    fn locate(&self, path: &str, follow: bool) -> Result<String, IoError> {
        let mut real = String::new();
        let names: Vec<&str> =
            path.split('/').filter(|name| !name.is_empty() && *name != ".").collect();
        for (i, name) in names.iter().enumerate() {
            if *name == ".." {
                real = above(&real);
                continue;
            }
            let next = format!("{real}/{name}");
            let is_last = i + 1 == names.len();
            match self.nodes.get(&next).map(|node| &node.kind) {
                None => return Err(failure(ErrorKind::NotFound, "no such entry")),
                Some(Kind::Link(target)) if follow || !is_last => {
                    real = self.locate(target, true)?;
                }
                Some(Kind::File(_)) if !is_last => {
                    return Err(failure(ErrorKind::Other, "not a directory"));
                }
                Some(_) => real = next,
            }
        }
        Ok(real)
    }

    /// Where an entry with this path would be.
    fn place(&self, path: &str) -> Result<String, IoError> {
        let directory = self.locate(&above(path), true)?;
        if !self.is_dir(&directory) {
            return Err(failure(ErrorKind::Other, "not a directory"));
        }
        Ok(format!("{directory}/{}", last_name(path)))
    }

    fn metadata(&self, path: &str, follow: bool) -> Result<Metadata, IoError> {
        let node = &self.nodes[&self.locate(path, follow)?];
        Ok(Metadata {
            is_dir: node.kind == Kind::Directory,
            is_symlink: matches!(node.kind, Kind::Link(_)),
            mode: node.mode,
            uid: node.uid,
            dev: 1,
            ino: node.ino,
            blocks: node.blocks,
            mtime: node.mtime,
        })
    }

    fn children(&self, path: &str) -> Vec<String> {
        self.nodes
            .keys()
            .filter(|key| key.len() > path.len() && above(key) == path)
            .cloned()
            .collect()
    }

    fn create(&mut self, path: &str, kind: Kind) -> Result<Reply, IoError> {
        let place = self.place(path)?;
        if self.holds(&place) {
            return Err(failure(ErrorKind::AlreadyExists, "entry exists"));
        }
        if matches!(kind, Kind::File(_)) {
            self.created = Some(place.clone());
        }
        self.add(&place, kind);
        Ok(Reply::Done)
    }

    fn rename(&mut self, from: &str, to: &str) -> Result<Reply, IoError> {
        let from = self.locate(from, false)?;
        let to = self.place(to)?;
        if self.is_dir(&to) && (!self.is_dir(&from) || !self.children(&to).is_empty()) {
            return Err(failure(ErrorKind::Other, "is a directory"));
        }
        let moved: Vec<String> = self
            .nodes
            .keys()
            .filter(|key| **key == from || key.starts_with(&format!("{from}/")))
            .cloned()
            .collect();
        for key in moved {
            let node = self.nodes.remove(&key).unwrap();
            self.nodes.insert(format!("{to}{}", &key[from.len()..]), node);
        }
        Ok(Reply::Done)
    }

    fn describe(request: &Request) -> String {
        match request {
            Request::CurrentDir => "current-dir".to_string(),
            Request::Canonicalize { path } => format!("canonicalize {}", text(path)),
            Request::SymlinkMetadata { path } => format!("symlink-metadata {}", text(path)),
            Request::Metadata { path } => format!("metadata {}", text(path)),
            Request::CreateDir { path } => format!("create-dir {}", text(path)),
            Request::CreateDirAll { path } => format!("create-dir-all {}", text(path)),
            Request::SetMode { path, mode } => format!("set-mode {} {mode:o}", text(path)),
            Request::CreateFile { path } => format!("create-file {}", text(path)),
            Request::WriteFile { path, .. } => format!("write-file {}", text(path)),
            Request::Rename { from, to } => format!("rename {} {}", text(from), text(to)),
            Request::RemoveFile { path } => format!("remove-file {}", text(path)),
            Request::RemoveDir { path } => format!("remove-dir {}", text(path)),
            Request::ReadFile { path } => format!("read-file {}", text(path)),
            Request::ReadText { path } => format!("read-text {}", text(path)),
            Request::OpenDir { path } => format!("open-dir {}", text(path)),
            Request::NextEntry => "next-entry".to_string(),
            Request::CheckAccess { path } => format!("check-access {}", text(path)),
            Request::EffectiveUser => "effective-user".to_string(),
            Request::ProcessId => "process-id".to_string(),
            Request::Environment => "environment".to_string(),
            Request::LocalTime => "local-time".to_string(),
            Request::SystemTime => "system-time".to_string(),
            Request::MoveToTrash { .. } => "move-to-trash".to_string(),
        }
    }

    fn perform(&mut self, request: Request) -> Result<Reply, IoError> {
        let described = Self::describe(&request);
        self.requests.push(described.clone());
        if let Some(i) = self.faults.iter().position(|(start, _)| described.starts_with(start)) {
            let (_, kind) = self.faults.remove(i);
            return Err(failure(kind, "injected"));
        }
        match request {
            Request::CurrentDir => Ok(Reply::Path(path("/tmp/test"))),
            Request::Canonicalize { path: asked } => {
                let real = self.locate(&text(&asked), true)?;
                Ok(Reply::Path(path(if real.is_empty() { "/" } else { &real })))
            }
            Request::SymlinkMetadata { path } => {
                Ok(Reply::Metadata(self.metadata(&text(&path), false)?))
            }
            Request::Metadata { path } => Ok(Reply::Metadata(self.metadata(&text(&path), true)?)),
            Request::CreateDir { path } => self.create(&text(&path), Kind::Directory),
            Request::CreateDirAll { path } => {
                let mut whole = String::new();
                for name in text(&path).split('/').filter(|name| !name.is_empty()) {
                    whole = format!("{whole}/{name}");
                    match self.metadata(&whole, true) {
                        Ok(metadata) if metadata.is_dir => {}
                        Ok(_) => return Err(failure(ErrorKind::AlreadyExists, "entry exists")),
                        Err(_) => {
                            self.create(&whole, Kind::Directory)?;
                        }
                    }
                }
                Ok(Reply::Done)
            }
            Request::SetMode { path, mode } => {
                let real = self.locate(&text(&path), true)?;
                self.set_mode(&real, mode);
                Ok(Reply::Done)
            }
            Request::CreateFile { path } => self.create(&text(&path), Kind::File(Vec::new())),
            Request::WriteFile { path: asked, contents } => {
                let created = self.created.take().unwrap();
                assert_eq!(last_name(&created), last_name(&text(&asked)));
                self.nodes.get_mut(&created).unwrap().kind = Kind::File(contents.into_bytes());
                Ok(Reply::Done)
            }
            Request::Rename { from, to } => self.rename(&text(&from), &text(&to)),
            Request::RemoveFile { path } => {
                let real = self.locate(&text(&path), false)?;
                if self.is_dir(&real) {
                    return Err(failure(ErrorKind::Other, "is a directory"));
                }
                self.nodes.remove(&real);
                Ok(Reply::Done)
            }
            Request::RemoveDir { path } => {
                let real = self.locate(&text(&path), false)?;
                if !self.is_dir(&real) || !self.children(&real).is_empty() {
                    return Err(failure(ErrorKind::Other, "not an empty directory"));
                }
                self.nodes.remove(&real);
                Ok(Reply::Done)
            }
            Request::ReadFile { path } => {
                let real = self.locate(&text(&path), true)?;
                Ok(Reply::Bytes(self.contents(&real).into_bytes()))
            }
            Request::ReadText { path } => {
                let real = self.locate(&text(&path), true)?;
                if self.is_dir(&real) {
                    return Err(failure(ErrorKind::Other, "is a directory"));
                }
                Ok(Reply::Text(self.contents(&real)))
            }
            Request::OpenDir { path } => {
                let real = self.locate(&text(&path), true)?;
                let mut listing = self.children(&real);
                listing.reverse();
                self.listings.push(listing);
                Ok(Reply::Done)
            }
            Request::NextEntry => match self.listings.last_mut().unwrap().pop() {
                Some(entry) => Ok(Reply::Entry(Some(path(&entry)))),
                None => {
                    self.listings.pop();
                    Ok(Reply::Entry(None))
                }
            },
            Request::CheckAccess { path } => {
                let real = self.locate(&text(&path), true)?;
                if self.user != 0 && self.nodes[&real].mode & 0o300 != 0o300 {
                    return Err(failure(ErrorKind::PermissionDenied, "permission denied"));
                }
                Ok(Reply::Done)
            }
            Request::EffectiveUser => Ok(Reply::User(self.user)),
            Request::ProcessId => Ok(Reply::Process(4242)),
            Request::Environment => Ok(Reply::Environment(Environment {
                user_id: self.user,
                xdg_data_home: self.xdg_data_home.clone().map(String::into_bytes),
                home: self.home.clone().map(String::into_bytes),
            })),
            Request::LocalTime => match self.time {
                Some(time) => Ok(Reply::Time(time)),
                None => Err(failure(ErrorKind::Other, "the time zone is not known")),
            },
            other => panic!("{other:?} belongs to another system"),
        }
    }

    /// Runs an operation to its end.
    fn run<M: Machine>(
        &mut self,
        started: Step<M, Result<M::Output, Error>>,
    ) -> Result<M::Output, Error> {
        let mut step = started;
        loop {
            match step {
                Step::Finish(result) => return result,
                Step::Continue(machine) => {
                    let reply = match self.perform(machine.request()) {
                        Ok(reply) => reply,
                        Err(error) => Reply::Failed(error),
                    };
                    step = machine.step(reply);
                }
            }
        }
    }

    fn resolve(&mut self, path: &str) -> DiscardTarget {
        let machine = ResolveTarget::start(PathBuf::from_slice(path.as_bytes())).unwrap();
        self.run(Step::Continue(machine)).unwrap()
    }

    fn discard(&mut self, path: &str) -> Result<TrashItem, Error> {
        self.run(Trash::new().discard(PathBuf::from_slice(path.as_bytes())))
    }

    fn discard_all(&mut self, paths: &[&str]) -> Result<TrashItems, Error> {
        let paths = paths.iter().map(|path| PathBuf::from_slice(path.as_bytes())).collect();
        self.run(Trash::new().discard_all(paths))
    }

    /// Requests that change what the disk holds.
    fn changes(&self) -> Vec<&String> {
        self.requests
            .iter()
            .filter(|request| {
                ["create", "set-mode", "write", "rename", "remove"]
                    .iter()
                    .any(|start| request.starts_with(start))
            })
            .collect()
    }
}

fn trash_directory(path: &str) -> TrashDirectory {
    TrashDirectory::new(PathBuf::from_slice(path.as_bytes()))
}

fn home_location(trash: &str, mount: &str) -> TrashLocation {
    TrashLocation::Home { path: HomeTrashPath(path(trash)), mount_point: mount_point(mount) }
}

fn external_location(trash: &str, fallback: Option<&str>, mount: &str) -> TrashLocation {
    TrashLocation::External {
        path: ExternalTrashPath { path: path(trash), fallback_path: fallback.map(path) },
        mount_point: mount_point(mount),
    }
}

// Where the trash is.

fn check_home_trash_path() {
    for (xdg_data_home, home, expected) in [
        (
            Some("/home/user/.local/share"),
            Some("/home/user"),
            "/home/user/.local/share/Trash",
        ),
        (Some(".local/share"), Some("/home/user"), "/home/user/.local/share/Trash"),
        (None, Some("/home/user"), "/home/user/.local/share/Trash"),
    ] {
        let home_trash =
            HomeTrashPath::resolve(xdg_data_home.map(str::as_bytes), home.map(str::as_bytes))
                .unwrap();

        assert_eq!(home_trash.as_path(), &path(expected));
    }

    for (xdg_data_home, home) in [(None, Some("home/user")), (None, None)] {
        let xdg_data_home: Option<&str> = xdg_data_home;
        let home: Option<&str> = home;
        let error =
            HomeTrashPath::resolve(xdg_data_home.map(str::as_bytes), home.map(str::as_bytes))
                .unwrap_err();

        assert!(matches!(error, Error::Platform { .. }));
    }
}

#[test]
fn linux_test_home_trash_path() {
    check_home_trash_path();
}

#[test]
fn location_test_home_trash_path() {
    check_home_trash_path();
}

fn check_home_trash_path_is_canonicalized() {
    let mut disk = Disk::new();
    disk.create_dir_all("/tmp/test/directory");
    disk.link("/tmp/test/directory", "/tmp/test/directory-link");

    let trash = HomeTrashPath(path("/tmp/test/directory-link/.local/share/Trash"));
    let canonical = disk.run(Step::Continue(trash.canonicalize_existing_parent())).unwrap();

    assert_eq!(canonical.as_path(), &path("/tmp/test/directory/.local/share/Trash"));
}

#[test]
fn test_canonicalize_nearest_existing_parent() {
    check_home_trash_path_is_canonicalized();
}

#[test]
fn test_home_trash_path_canonicalizes_existing_parent() {
    check_home_trash_path_is_canonicalized();
}

#[test]
fn test_home_trash_path_without_existing_parent() {
    let mut disk = Disk::new();
    disk.fault("canonicalize /a/b", ErrorKind::NotFound);
    disk.fault("canonicalize /a", ErrorKind::NotFound);
    disk.fault("canonicalize /", ErrorKind::NotFound);
    let trash = HomeTrashPath(path("/a/b"));
    let error = disk.run(Step::Continue(trash.canonicalize_existing_parent())).unwrap_err();

    assert_eq!(
        error.to_text(),
        "Trash operation failed for /a/b: Path has no existing parent: /a/b"
    );
    assert_eq!(disk.requests, ["canonicalize /a/b", "canonicalize /a", "canonicalize /"]);

    disk.fault("canonicalize /a/b", ErrorKind::PermissionDenied);
    let trash = HomeTrashPath(path("/a/b"));
    let error = disk.run(Step::Continue(trash.canonicalize_existing_parent())).unwrap_err();

    assert!(matches!(
        error,
        Error::Io { source, .. } if source.kind == ErrorKind::PermissionDenied
    ));
}

fn external_trash_path(disk: &Disk, top_dir: &str) -> ExternalTrashPath {
    let shared = disk.metadata(&format!("{top_dir}/.Trash"), false).ok();
    ExternalTrashPath::new(&path(top_dir), USER, shared)
}

fn check_external_trash_path_without_shared_trash() {
    let mut disk = Disk::new();
    let top_dir = "/tmp/test/media/missing-usb";
    disk.create_dir_all(top_dir);

    assert_eq!(
        external_trash_path(&disk, top_dir),
        ExternalTrashPath {
            path: path("/tmp/test/media/missing-usb/.Trash-1000"),
            fallback_path: None,
        }
    );
}

#[test]
fn linux_test_external_trash_path_without_shared_trash() {
    check_external_trash_path_without_shared_trash();
}

#[test]
fn location_test_external_trash_path_without_shared_trash() {
    check_external_trash_path_without_shared_trash();
}

fn check_external_trash_path_with_valid_shared_trash() {
    let mut disk = Disk::new();
    let top_dir = "/tmp/test/media/usb";
    disk.create_dir_all("/tmp/test/media/usb/.Trash");
    disk.set_mode("/tmp/test/media/usb/.Trash", WORLD_RWX_STICKY_MODE);

    assert_eq!(
        external_trash_path(&disk, top_dir),
        ExternalTrashPath {
            path: path("/tmp/test/media/usb/.Trash/1000"),
            fallback_path: Some(path("/tmp/test/media/usb/.Trash-1000")),
        }
    );
}

#[test]
fn linux_test_external_trash_path_with_valid_shared_trash() {
    check_external_trash_path_with_valid_shared_trash();
}

#[test]
fn location_test_external_trash_path_with_valid_shared_trash() {
    check_external_trash_path_with_valid_shared_trash();
}

fn check_external_trash_path_ignores_symlink_shared_trash() {
    let mut disk = Disk::new();
    let top_dir = "/tmp/test/media/usb";
    disk.create_dir_all(top_dir);
    disk.create_dir_all("/tmp/test/target-usb");
    disk.link("/tmp/test/target-usb", "/tmp/test/media/usb/.Trash");

    assert_eq!(
        external_trash_path(&disk, top_dir),
        ExternalTrashPath { path: path("/tmp/test/media/usb/.Trash-1000"), fallback_path: None }
    );
}

#[test]
fn linux_test_external_trash_path_ignores_symlink_shared_trash() {
    check_external_trash_path_ignores_symlink_shared_trash();
}

#[test]
fn location_test_external_trash_path_ignores_symlink_shared_trash() {
    check_external_trash_path_ignores_symlink_shared_trash();
}

fn check_external_trash_path_ignores_non_sticky_shared_trash() {
    let mut disk = Disk::new();
    let top_dir = "/tmp/test/media/usb";
    disk.create_dir_all("/tmp/test/media/usb/.Trash");
    disk.set_mode("/tmp/test/media/usb/.Trash", WORLD_RWX_MODE);

    assert_eq!(
        external_trash_path(&disk, top_dir),
        ExternalTrashPath { path: path("/tmp/test/media/usb/.Trash-1000"), fallback_path: None }
    );
}

#[test]
fn linux_test_external_trash_path_ignores_non_sticky_shared_trash() {
    check_external_trash_path_ignores_non_sticky_shared_trash();
}

#[test]
fn location_test_external_trash_path_ignores_non_sticky_shared_trash() {
    check_external_trash_path_ignores_non_sticky_shared_trash();
}

fn check_select_trash_location() {
    let mut disk = Disk::new();
    disk.create_dir_all("/tmp/test/home");
    disk.create_dir_all("/tmp/test/media/usb");
    let home_trash = HomeTrashPath(path("/tmp/test/home/user/.local/share/Trash"));
    let mounts = Mounts::new(vec![
        MountInfo { mount_point: mount_point("/tmp/test") },
        MountInfo { mount_point: mount_point("/tmp/test/home") },
        MountInfo { mount_point: mount_point("/tmp/test/media/usb") },
    ]);

    let location = disk
        .run(TrashLocation::select(
            &path("/tmp/test/home/user/file.txt"),
            &mounts,
            &home_trash,
            USER,
        ))
        .unwrap();

    assert_eq!(
        location,
        TrashLocation::Home {
            path: home_trash.clone(),
            mount_point: mount_point("/tmp/test/home"),
        }
    );

    let error = disk
        .run(TrashLocation::select(&path("/tmp/test/home"), &mounts, &home_trash, USER))
        .unwrap_err();

    assert!(matches!(error, Error::TargetedRoot { .. }));

    let location = disk
        .run(TrashLocation::select(
            &path("/tmp/test/media/usb/file.txt"),
            &mounts,
            &home_trash,
            USER,
        ))
        .unwrap();

    assert_eq!(
        location,
        TrashLocation::External {
            path: ExternalTrashPath {
                path: path("/tmp/test/media/usb/.Trash-1000"),
                fallback_path: None,
            },
            mount_point: mount_point("/tmp/test/media/usb"),
        }
    );

    let error = disk
        .run(TrashLocation::select(&path("/tmp/test/media/usb"), &mounts, &home_trash, USER))
        .unwrap_err();

    assert!(matches!(error, Error::TargetedRoot { .. }));
}

#[test]
fn linux_test_select_trash_location() {
    check_select_trash_location();
}

#[test]
fn location_test_select_trash_location() {
    check_select_trash_location();
}

#[test]
fn test_select_needs_a_mount_point() {
    let mut disk = Disk::new();
    let mounts = Mounts::new(vec![MountInfo { mount_point: mount_point("/media") }]);
    let home_trash = HomeTrashPath(path("/home/user/.local/share/Trash"));
    let error = disk
        .run(TrashLocation::select(&path("/home/user/file.txt"), &mounts, &home_trash, USER))
        .unwrap_err();

    assert!(matches!(error, Error::Platform { .. }));
}

fn check_trash_info_path(image: &str) {
    let home_location = home_location("/home/user/.local/share/Trash", "/home");
    let external_location = external_location("/media/usb/.Trash-1000", None, "/media/usb");

    let home_original_location =
        home_location.trash_info_path(&path("/home/user/Downloads/file.txt")).unwrap();
    let external_original_location =
        external_location.trash_info_path(&path(&format!("/media/usb/Photos/{image}"))).unwrap();
    let invalid_parent_component_error = external_location
        .trash_info_path(&path(&format!("/media/usb/Photos/../{image}")))
        .unwrap_err();

    assert_eq!(home_original_location, path("/home/user/Downloads/file.txt"));
    assert_eq!(external_original_location, path(&format!("Photos/{image}")));
    assert!(matches!(invalid_parent_component_error, Error::Platform { .. }));
}

#[test]
fn linux_test_trash_info_path() {
    check_trash_info_path("image.png");
}

#[test]
fn location_test_trash_info_path() {
    check_trash_info_path("image.jpg");
}

#[test]
fn test_trash_info_path_outside_the_mount_point() {
    let location = external_location("/media/usb/.Trash-1000", None, "/media/usb");
    let error = location.trash_info_path(&path("/media/other/file.txt")).unwrap_err();

    assert!(matches!(error, Error::Platform { .. }));
}

// The directories of the trash.

fn prepare(disk: &mut Disk, location: &TrashLocation) -> Result<TrashDirectory, Error> {
    disk.run(location.prepare())
}

fn check_prepare_home_trash_location() {
    let mut disk = Disk::new();
    let home_trash = "/tmp/test/home/user/.local/share/Trash";
    let location = home_location(home_trash, "/tmp/test");

    let trash_dir = prepare(&mut disk, &location).unwrap();

    assert_eq!(trash_dir, trash_directory(home_trash));
    assert_eq!(trash_dir.path, path(home_trash));
    assert_eq!(trash_dir.files, path(&format!("{home_trash}/files")));
    assert_eq!(trash_dir.info, path(&format!("{home_trash}/info")));
    assert!(disk.is_dir(&format!("{home_trash}/files")));
    assert!(disk.is_dir(&format!("{home_trash}/info")));
    assert_eq!(disk.mode(home_trash), OWNER_RWX_MODE);
    assert_eq!(disk.mode(&format!("{home_trash}/files")), OWNER_RWX_MODE);
    assert_eq!(disk.mode(&format!("{home_trash}/info")), OWNER_RWX_MODE);
}

#[test]
fn linux_test_prepare_home_trash_location() {
    check_prepare_home_trash_location();
}

#[test]
fn location_test_prepare_home_trash_location() {
    check_prepare_home_trash_location();
}

fn check_prepare_home_trash_location_keeps_permissions() {
    let mut disk = Disk::new();
    let home_trash = "/tmp/test/home/user/.local/share/Trash";
    let location = home_location(home_trash, "/tmp/test");
    disk.create_dir_all(home_trash);
    disk.set_mode(home_trash, OWNER_RWX_WORLD_RX_MODE);

    let trash_dir = prepare(&mut disk, &location).unwrap();

    assert_eq!(trash_dir, trash_directory(home_trash));
    assert_eq!(disk.mode(home_trash), OWNER_RWX_WORLD_RX_MODE);
    assert_eq!(disk.mode(&format!("{home_trash}/files")), OWNER_RWX_MODE);
    assert_eq!(disk.mode(&format!("{home_trash}/info")), OWNER_RWX_MODE);
}

#[test]
fn linux_test_prepare_home_trash_location_does_not_change_existing_directory_permissions() {
    check_prepare_home_trash_location_keeps_permissions();
}

#[test]
fn location_test_prepare_home_trash_location_does_not_change_existing_directory_permissions() {
    check_prepare_home_trash_location_keeps_permissions();
}

#[test]
fn test_prepare_home_trash_location_with_directory_symlink() {
    let mut disk = Disk::new();
    let home_trash = "/tmp/test/home/user/.local/share/Trash";
    let location = home_location(home_trash, "/tmp/test");
    disk.create_dir_all("/tmp/test/home/user/.local/share");
    disk.create_dir_all("/tmp/test/linked-trash");
    disk.link("/tmp/test/linked-trash", home_trash);

    let trash_dir = prepare(&mut disk, &location).unwrap();

    assert_eq!(trash_dir, trash_directory(home_trash));
    assert!(disk.is_dir("/tmp/test/linked-trash/files"));
    assert!(disk.is_dir("/tmp/test/linked-trash/info"));
}

#[test]
fn test_prepare_home_trash_location_at_a_file() {
    let mut disk = Disk::new();
    let home_trash = "/tmp/test/home/user/.local/share/Trash";
    disk.write(home_trash, "no directory");

    let error = prepare(&mut disk, &home_location(home_trash, "/tmp/test")).unwrap_err();

    assert!(matches!(
        error,
        Error::Io { source, .. } if source.kind == ErrorKind::AlreadyExists
            || source.kind == ErrorKind::Other
    ));
}

fn check_prepare_external_trash_location() {
    let mut disk = Disk::new();
    let external_trash = "/tmp/test/media/usb/.Trash-1000";
    let location = external_location(external_trash, None, "/tmp/test/media/usb");
    disk.create_dir_all("/tmp/test/media/usb");

    let trash_dir = prepare(&mut disk, &location).unwrap();

    assert_eq!(trash_dir, trash_directory(external_trash));
    assert!(disk.is_dir("/tmp/test/media/usb/.Trash-1000/files"));
    assert!(disk.is_dir("/tmp/test/media/usb/.Trash-1000/info"));
}

#[test]
fn linux_test_prepare_external_trash_location() {
    check_prepare_external_trash_location();
}

#[test]
fn location_test_prepare_external_trash_location() {
    check_prepare_external_trash_location();
}

fn shared_location() -> TrashLocation {
    external_location(
        "/tmp/test/media/usb/.Trash/1000",
        Some("/tmp/test/media/usb/.Trash-1000"),
        "/tmp/test/media/usb",
    )
}

fn check_prepare_shared_external_trash_location() {
    let mut disk = Disk::new();
    disk.create_dir_all("/tmp/test/media/usb/.Trash");
    disk.set_mode("/tmp/test/media/usb/.Trash", WORLD_RWX_STICKY_MODE);

    let trash_dir = prepare(&mut disk, &shared_location()).unwrap();

    assert_eq!(trash_dir, trash_directory("/tmp/test/media/usb/.Trash/1000"));
    assert!(disk.is_dir("/tmp/test/media/usb/.Trash/1000/files"));
    assert!(disk.is_dir("/tmp/test/media/usb/.Trash/1000/info"));
    assert!(!disk.holds("/tmp/test/media/usb/.Trash-1000"));
}

#[test]
fn linux_test_prepare_shared_external_trash_location() {
    check_prepare_shared_external_trash_location();
}

#[test]
fn location_test_prepare_shared_external_trash_location() {
    check_prepare_shared_external_trash_location();
}

fn check_prepare_shared_external_trash_location_with_fallback() {
    let mut disk = Disk::new();
    disk.create_dir_all("/tmp/test/media/usb/.Trash");
    disk.set_mode("/tmp/test/media/usb/.Trash", WORLD_RWX_STICKY_MODE);
    disk.write("/tmp/test/media/usb/.Trash/1000", "file instead of directory");

    let trash_dir = prepare(&mut disk, &shared_location()).unwrap();

    assert_eq!(trash_dir, trash_directory("/tmp/test/media/usb/.Trash-1000"));
    assert!(disk.is_dir("/tmp/test/media/usb/.Trash-1000/files"));
    assert!(disk.is_dir("/tmp/test/media/usb/.Trash-1000/info"));
}

#[test]
fn linux_test_prepare_shared_external_trash_location_with_fallback() {
    check_prepare_shared_external_trash_location_with_fallback();
}

#[test]
fn location_test_prepare_shared_external_trash_location_with_fallback() {
    check_prepare_shared_external_trash_location_with_fallback();
}

fn check_prepare_shared_external_trash_location_with_missing_parent() {
    let mut disk = Disk::new();

    let trash_dir = prepare(&mut disk, &shared_location()).unwrap();

    assert_eq!(trash_dir, trash_directory("/tmp/test/media/usb/.Trash-1000"));
    assert!(disk.is_dir("/tmp/test/media/usb/.Trash-1000/files"));
    assert!(disk.is_dir("/tmp/test/media/usb/.Trash-1000/info"));
    assert!(!disk.holds("/tmp/test/media/usb/.Trash"));
}

#[test]
fn linux_test_prepare_shared_external_trash_location_with_missing_parent() {
    check_prepare_shared_external_trash_location_with_missing_parent();
}

#[test]
fn location_test_prepare_shared_external_trash_location_with_missing_parent() {
    check_prepare_shared_external_trash_location_with_missing_parent();
}

// The file about an item.

fn reserve(
    disk: &mut Disk,
    location: &TrashLocation,
    trash_dir: &TrashDirectory,
    original_path: &str,
) -> Result<ReservedTrashEntry, Error> {
    disk.run(ReserveEntry::start(
        location,
        trash_dir,
        &path(original_path),
        &local_time(1_779_555_000),
    ))
}

fn prepared_trash(disk: &mut Disk) -> TrashDirectory {
    disk.run(Step::Continue(PreparePlain::start(path("/tmp/test/Trash")))).unwrap()
}

fn check_duplicate_trash_info(original_path: &str) {
    let mut disk = Disk::new();
    let trash_dir = prepared_trash(&mut disk);
    let location = home_location("/tmp/test/Trash", "/home");

    let first = reserve(&mut disk, &location, &trash_dir, original_path).unwrap();
    let second = reserve(&mut disk, &location, &trash_dir, original_path).unwrap();

    assert_eq!(
        first,
        ReservedTrashEntry {
            name: b"file.txt".to_vec(),
            file: path("/tmp/test/Trash/files/file.txt"),
            info: path("/tmp/test/Trash/info/file.txt.trashinfo"),
        }
    );
    assert_eq!(
        second,
        ReservedTrashEntry {
            name: b"file.txt.1".to_vec(),
            file: path("/tmp/test/Trash/files/file.txt.1"),
            info: path("/tmp/test/Trash/info/file.txt.1.trashinfo"),
        }
    );
    assert!(!disk.holds("/tmp/test/Trash/files/file.txt"));
    assert!(!disk.holds("/tmp/test/Trash/files/file.txt.1"));

    let expected =
        format!("[Trash Info]\nPath={original_path}\nDeletionDate=2026-05-23T16:50:00\n");

    assert_eq!(disk.contents("/tmp/test/Trash/info/file.txt.trashinfo"), expected);
    assert_eq!(disk.contents("/tmp/test/Trash/info/file.txt.1.trashinfo"), expected);
}

#[test]
fn test_create_trash_info_with_duplicates() {
    check_duplicate_trash_info("/home/user/file.txt");
}

#[test]
fn test_create_trash_info_with_duplicate_trashinfo() {
    check_duplicate_trash_info("/home/user/Downloads/file.txt");
}

#[test]
fn test_create_trash_info_with_duplicate_payload() {
    let mut disk = Disk::new();
    let trash_dir = prepared_trash(&mut disk);
    let location = home_location("/tmp/test/Trash", "/home");
    disk.write("/tmp/test/Trash/files/file.txt", "existing");

    let item =
        reserve(&mut disk, &location, &trash_dir, "/home/user/Downloads/file.txt").unwrap();

    assert_eq!(
        item,
        ReservedTrashEntry {
            name: b"file.txt.1".to_vec(),
            file: path("/tmp/test/Trash/files/file.txt.1"),
            info: path("/tmp/test/Trash/info/file.txt.1.trashinfo"),
        }
    );
    assert!(!disk.holds("/tmp/test/Trash/files/file.txt.1"));
    assert_eq!(
        disk.contents("/tmp/test/Trash/info/file.txt.1.trashinfo"),
        "[Trash Info]\nPath=/home/user/Downloads/file.txt\nDeletionDate=2026-05-23T16:50:00\n"
    );
}

fn check_create_trash_info_with_external_location() {
    let mut disk = Disk::new();
    let trash_dir = prepared_trash(&mut disk);
    let location = external_location("/tmp/test/Trash", None, "/media/usb");

    reserve(&mut disk, &location, &trash_dir, "/media/usb/Downloads/file.txt").unwrap();

    assert_eq!(
        disk.contents("/tmp/test/Trash/info/file.txt.trashinfo"),
        "[Trash Info]\nPath=Downloads/file.txt\nDeletionDate=2026-05-23T16:50:00\n"
    );
}

#[test]
fn linux_test_create_trash_info_with_external_location() {
    check_create_trash_info_with_external_location();
}

#[test]
fn trash_info_test_create_trash_info_with_external_location() {
    check_create_trash_info_with_external_location();
}

#[test]
fn test_failed_trash_info_is_removed() {
    let mut disk = Disk::new();
    let trash_dir = prepared_trash(&mut disk);
    let location = home_location("/tmp/test/Trash", "/home");
    disk.fault("write-file", ErrorKind::Other);

    let error = reserve(&mut disk, &location, &trash_dir, "/home/user/file.txt").unwrap_err();

    assert!(matches!(error, Error::Io { source, .. } if source.message == "injected"));
    assert!(!disk.holds("/tmp/test/Trash/info/file.txt.trashinfo"));

    let error = reserve(&mut disk, &location, &trash_dir, "/").unwrap_err();

    assert!(matches!(error, Error::TargetedRoot { .. }));
}

// Permission.

fn ensure_discard_permission(disk: &mut Disk, file: &str) -> Result<(), Error> {
    disk.run(EnsurePermission::start(path(file)))
}

#[test]
fn test_ensure_discard_permission() {
    let mut disk = Disk::new();
    let file = "/tmp/test/directory/file.txt";
    disk.write(file, "contents");

    ensure_discard_permission(&mut disk, file).unwrap();

    assert!(disk.user != 0, "unwritable parent rejection requires non-root user");

    disk.set_mode("/tmp/test/directory", OWNER_RX_MODE);
    assert_eq!(disk.mode("/tmp/test/directory"), OWNER_RX_MODE);
    let error = ensure_discard_permission(&mut disk, file).unwrap_err();

    assert!(matches!(
        error,
        Error::Io { source, .. } if source.kind == ErrorKind::PermissionDenied
    ));

    disk.set_mode("/tmp/test/directory", OWNER_RWX_MODE);
    assert_eq!(disk.mode("/tmp/test/directory"), OWNER_RWX_MODE);
    ensure_discard_permission(&mut disk, file).unwrap();
}

#[test]
fn test_ensure_discard_permission_with_sticky_parent() {
    let mut disk = Disk::new();
    let file = "/tmp/test/directory/file.txt";
    disk.write(file, "contents");
    disk.set_mode("/tmp/test/directory", WORLD_RWX_STICKY_MODE);

    ensure_discard_permission(&mut disk, file).unwrap();
}

#[test]
fn test_sticky_parent_protects_entries_of_others() {
    let mut disk = Disk::new();
    let file = "/tmp/test/directory/file.txt";
    disk.write(file, "contents");
    disk.set_mode("/tmp/test/directory", WORLD_RWX_STICKY_MODE);
    disk.user = 1001;

    let error = ensure_discard_permission(&mut disk, file).unwrap_err();

    assert!(matches!(
        error,
        Error::Io { source, .. } if source.kind == ErrorKind::PermissionDenied
            && source.message == "sticky parent directory prevents deleting path"
    ));

    disk.nodes.get_mut(file).unwrap().uid = 1001;
    ensure_discard_permission(&mut disk, file).unwrap();

    disk.nodes.get_mut(file).unwrap().uid = 7;
    disk.nodes.get_mut("/tmp/test/directory").unwrap().uid = 1001;
    ensure_discard_permission(&mut disk, file).unwrap();

    disk.nodes.get_mut("/tmp/test/directory").unwrap().uid = 7;
    disk.user = 0;
    ensure_discard_permission(&mut disk, file).unwrap();

    assert!(matches!(
        ensure_discard_permission(&mut disk, "/"),
        Err(Error::TargetedRoot { .. })
    ));
}

// Moving an item.

#[test]
fn test_moved_payload_replaces_nothing() {
    let mut disk = Disk::new();
    disk.write("/tmp/test/file.txt", "new");
    disk.write("/tmp/test/Trash/files/file.txt", "old");
    let machine =
        MovePayload::start(path("/tmp/test/file.txt"), path("/tmp/test/Trash/files/file.txt"));
    let error = disk.run(Step::Continue(machine)).unwrap_err();

    assert!(matches!(
        error,
        Error::Io { source, .. } if source.kind == ErrorKind::AlreadyExists
    ));
    assert_eq!(disk.contents("/tmp/test/file.txt"), "new");
    assert_eq!(disk.contents("/tmp/test/Trash/files/file.txt"), "old");
}

#[test]
fn test_moved_payload_kinds() {
    let mut disk = Disk::new();
    disk.create_dir_all("/tmp/test/Trash/files");
    disk.create_dir_all("/tmp/test/directory");
    disk.link("/tmp/test/directory", "/tmp/test/link");

    for (from, to, kind) in [
        ("/tmp/test/link", "/tmp/test/Trash/files/link", PayloadKind::File),
        ("/tmp/test/directory", "/tmp/test/Trash/files/directory", PayloadKind::Directory),
    ] {
        let machine = MovePayload::start(path(from), path(to));

        assert_eq!(disk.run(Step::Continue(machine)).unwrap(), kind);
        assert!(!disk.holds(from));
        assert!(disk.holds(to));
    }
}

#[test]
fn test_failed_move_leaves_nothing_behind() {
    let mut disk = Disk::new();
    disk.create_dir_all("/tmp/test/Trash/files");
    disk.write("/tmp/test/file.txt", "junk");
    disk.fault("rename", ErrorKind::Other);
    let machine =
        MovePayload::start(path("/tmp/test/file.txt"), path("/tmp/test/Trash/files/file.txt"));
    let error = disk.run(Step::Continue(machine)).unwrap_err();

    assert!(matches!(error, Error::Io { path: moved, .. } if moved == path("/tmp/test/file.txt")));
    assert!(disk.holds("/tmp/test/file.txt"));
    assert!(!disk.holds("/tmp/test/Trash/files/file.txt"));

    disk.fault("rename", ErrorKind::Other);
    disk.fault("remove-file", ErrorKind::PermissionDenied);
    let machine =
        MovePayload::start(path("/tmp/test/file.txt"), path("/tmp/test/Trash/files/file.txt"));
    let error = disk.run(Step::Continue(machine)).unwrap_err();

    assert!(matches!(
        error,
        Error::Io { source, .. } if source.kind == ErrorKind::PermissionDenied
    ));
}

// The sizes file.

#[test]
fn test_cache_contents_replaces_existing_entry() {
    let contents = DirectorySizeCache::contents(
        Some("2048 1 Other\n1024 2 Camera\n"),
        4096,
        1_779_555_000,
        "Camera",
    );

    assert_eq!(contents, "2048 1 Other\n4096 1779555000 Camera\n");
}

#[test]
fn test_cache_contents_of_no_file() {
    assert_eq!(DirectorySizeCache::contents(None, 4096, -1, "Camera"), "4096 -1 Camera\n");
    assert_eq!(
        DirectorySizeCache::contents(Some("1 2 a\r\n\n3\t4\tCamera x\n5 6"), 0, 0, "Camera"),
        "1 2 a\n\n5 6\n0 0 Camera\n"
    );
}

fn disk_usage(disk: &mut Disk, file: &str) -> Result<u64, Error> {
    let entry = ReservedTrashEntry {
        name: b"project".to_vec(),
        file: path(file),
        info: path("/tmp/test/project.trashinfo"),
    };
    disk.run(Step::Continue(DirectorySizeCache::disk_usage(&entry)))
}

#[test]
fn test_disk_usage_does_not_follow_directory_symlinks() {
    let mut disk = Disk::new();
    disk.create_dir_all("/tmp/test/project");
    disk.create_dir_all("/tmp/test/shared");
    disk.write("/tmp/test/shared/LICENSE", "license text");
    disk.link("/tmp/test/shared", "/tmp/test/project/shared-link");

    let size = disk_usage(&mut disk, "/tmp/test/project").unwrap();
    let expected_size = (disk.nodes["/tmp/test/project"].blocks
        + disk.nodes["/tmp/test/project/shared-link"].blocks)
        * STAT_BLOCK_SIZE;

    assert_eq!(size, expected_size);
}

#[test]
fn test_disk_usage_counts_an_entry_once() {
    let mut disk = Disk::new();
    disk.write("/tmp/test/project/src/a", "a");
    disk.write("/tmp/test/project/b", "b");
    let shared = disk.nodes["/tmp/test/project/src/a"].clone();
    disk.nodes.insert("/tmp/test/project/z".to_string(), shared);

    let size = disk_usage(&mut disk, "/tmp/test/project").unwrap();
    let blocks: u64 = ["", "/src", "/src/a", "/b"]
        .iter()
        .map(|name| disk.nodes[&format!("/tmp/test/project{name}")].blocks)
        .sum();

    assert_eq!(size, blocks * STAT_BLOCK_SIZE);
}

#[test]
fn test_disk_usage_overflow() {
    let mut disk = Disk::new();
    disk.write("/tmp/test/project/a", "a");
    disk.nodes.get_mut("/tmp/test/project/a").unwrap().blocks = u64::MAX / STAT_BLOCK_SIZE;

    assert!(matches!(
        disk_usage(&mut disk, "/tmp/test/project"),
        Err(Error::Platform { .. })
    ));

    disk.nodes.get_mut("/tmp/test/project/a").unwrap().blocks = u64::MAX;

    assert!(matches!(
        disk_usage(&mut disk, "/tmp/test/project"),
        Err(Error::Platform { .. })
    ));
}

#[test]
fn test_cache_is_replaced_whole() {
    let mut disk = Disk::new();
    disk.write("/tmp/test/Trash/directorysizes", "1 2 Other\n");
    disk.write("/tmp/test/Trash/.directorysizes.4242.0.tmp", "left behind");
    let cache = DirectorySizeCache::new(&trash_directory("/tmp/test/Trash"));

    disk.run(cache.write("3 4 Camera\n".to_string())).unwrap();

    assert_eq!(disk.contents("/tmp/test/Trash/directorysizes"), "3 4 Camera\n");
    assert_eq!(disk.contents("/tmp/test/Trash/.directorysizes.4242.0.tmp"), "left behind");
    assert!(!disk.holds("/tmp/test/Trash/.directorysizes.4242.1.tmp"));

    for fault in ["write-file", "rename"] {
        disk.fault(fault, ErrorKind::Other);
        let error = disk.run(cache.write("5 6 Camera\n".to_string())).unwrap_err();

        assert!(matches!(error, Error::Io { source, .. } if source.message == "injected"));
        assert_eq!(disk.contents("/tmp/test/Trash/directorysizes"), "3 4 Camera\n");
        assert!(!disk.holds("/tmp/test/Trash/.directorysizes.4242.1.tmp"));
    }

    let rootless = DirectorySizeCache { path: path("/") };

    assert!(matches!(
        disk.run(rootless.write(String::new())),
        Err(Error::Platform { .. })
    ));
}

// The whole operation.

#[test]
fn test_discard_inner_updates_directory_size_cache() {
    let mut disk = Disk::new();
    let location = home_location("/tmp/test/Trash", "/tmp/test");
    disk.write("/tmp/test/Downloads/Camera/DSC_00001.jpg", "image bytes");

    let target = disk.resolve("/tmp/test/Downloads/Camera");
    let trashed_item = disk.run(DiscardItem::start(location, target)).unwrap();
    let contents = disk.contents("/tmp/test/Trash/directorysizes");
    let mut fields = contents.split_ascii_whitespace();
    let size = fields.next().unwrap().parse::<u64>().unwrap();
    let mtime = fields.next().unwrap().parse::<i64>().unwrap();
    let name = fields.next().unwrap();
    let info = String::from_utf8(trashed_item.id().to_vec()).unwrap();
    let info_mtime = disk.nodes[&info].mtime;

    assert_eq!(size, disk_usage(&mut disk, "/tmp/test/Trash/files/Camera").unwrap());
    assert_eq!(mtime, info_mtime);
    assert_eq!(name, "Camera");
    assert_eq!(fields.next(), None);
}

#[test]
fn test_discard_inner_succeeds_if_directory_size_cache_fails() {
    let mut disk = Disk::new();
    let location = home_location("/tmp/test/Trash", "/tmp/test");
    disk.create_dir_all("/tmp/test/Downloads/Camera");
    disk.create_dir_all("/tmp/test/Trash/directorysizes");

    let target = disk.resolve("/tmp/test/Downloads/Camera");
    let trashed_item = disk.run(DiscardItem::start(location, target)).unwrap();

    assert_eq!(trashed_item.original_name(), b"Camera");
    assert!(!disk.holds("/tmp/test/Downloads/Camera"));
    assert!(disk.is_dir("/tmp/test/Trash/directorysizes"));
}

#[test]
fn test_discard_file() {
    let mut disk = Disk::new();
    disk.write("/tmp/test/file.txt", "junk");

    let trashed_item = disk.discard("/tmp/test/file.txt").unwrap();

    assert_eq!(trashed_item.original_name(), b"file.txt");
    assert_eq!(trashed_item.original_path(), path("/tmp/test/file.txt"));
    assert!(!disk.holds("/tmp/test/file.txt"));
    assert_eq!(trashed_item.id(), b"/home/user/.local/share/Trash/info/file.txt.trashinfo");
    assert_eq!(trashed_item.discarded_at(), local_time(1_779_555_000).to_system_time());
    assert_eq!(disk.contents("/home/user/.local/share/Trash/files/file.txt"), "junk");
    assert_eq!(
        disk.contents("/home/user/.local/share/Trash/info/file.txt.trashinfo"),
        "[Trash Info]\nPath=/tmp/test/file.txt\nDeletionDate=2026-05-23T16:50:00\n"
    );
}

#[test]
fn test_discard_relative_path() {
    let mut disk = Disk::new();
    disk.write("/tmp/test/file.txt", "junk");

    let item = disk.run(discard(path("file.txt"))).unwrap();

    assert_eq!(item.original_name(), b"file.txt");
    assert_eq!(item.original_parent(), &path("/tmp/test"));
    assert!(!disk.holds("/tmp/test/file.txt"));

    disk.fault("current-dir", ErrorKind::NotFound);
    let error = disk.run(discard(path("other.txt"))).unwrap_err();

    assert_eq!(error.to_text(), "I/O failure for path: other.txt");
}

#[test]
fn test_discard_path_without_a_name() {
    let mut disk = Disk::new();
    disk.create_dir_all("/tmp/test/directory/inner");

    let item = disk.discard("/tmp/test/directory/inner/..").unwrap();

    assert_eq!(item.original_path(), path("/tmp/test/directory"));
    assert!(!disk.holds("/tmp/test/directory"));
}

#[test]
fn test_discard_file_name_with_special_chars() {
    let mut disk = Disk::new();
    let file_name = r#"quote" percent% plus+ comma, backslash\ café 日本語.txt"#;
    let file = format!("/tmp/test/{file_name}");
    disk.write(&file, "junk");

    let trashed_item = disk.discard(&file).unwrap();

    assert_eq!(trashed_item.original_name(), file_name.as_bytes());
    assert_eq!(trashed_item.original_path(), path(&file));
    assert!(!disk.holds(&file));
    assert_eq!(
        disk.contents(&String::from_utf8(trashed_item.id().to_vec()).unwrap()),
        "[Trash Info]\nPath=/tmp/test/quote%22%20percent%25%20plus%2B%20comma%2C%20backslash%5C\
         %20caf%C3%A9%20%E6%97%A5%E6%9C%AC%E8%AA%9E.txt\nDeletionDate=2026-05-23T16:50:00\n"
    );
}

#[test]
fn test_discard_files_with_same_name() {
    let mut disk = Disk::new();
    disk.write("/tmp/test/first/file.txt", "first");
    disk.write("/tmp/test/second/file.txt", "second");

    let first_item = disk.discard("/tmp/test/first/file.txt").unwrap();
    let second_item = disk.discard("/tmp/test/second/file.txt").unwrap();

    assert_eq!(first_item.original_name(), b"file.txt");
    assert_eq!(second_item.original_name(), b"file.txt");
    assert_ne!(first_item.id(), second_item.id());
    assert!(!disk.holds("/tmp/test/first/file.txt"));
    assert!(!disk.holds("/tmp/test/second/file.txt"));
    assert_eq!(disk.contents("/home/user/.local/share/Trash/files/file.txt"), "first");
    assert_eq!(disk.contents("/home/user/.local/share/Trash/files/file.txt.1"), "second");
}

#[test]
fn test_discard_file_with_parent_symlink() {
    let mut disk = Disk::new();
    disk.create_dir_all("/tmp/test/directory");
    disk.write("/tmp/test/file.txt", "content");
    disk.link("/tmp/test/directory", "/tmp/test/directory-link");
    disk.link("/tmp/test/file.txt", "/tmp/test/directory/file-link.txt");

    let trashed_item = disk.discard("/tmp/test/directory-link/file-link.txt").unwrap();

    assert_eq!(trashed_item.original_parent(), &path("/tmp/test/directory"));
    assert_eq!(trashed_item.original_path(), path("/tmp/test/directory/file-link.txt"));
    assert!(!disk.holds("/tmp/test/directory/file-link.txt"));
    assert!(disk.holds("/tmp/test/file.txt"));
}

#[test]
fn test_discard_broken_symlink() {
    let mut disk = Disk::new();
    disk.link("/tmp/test/missing.txt", "/tmp/test/file-link.txt");

    let trashed_item = disk.discard("/tmp/test/file-link.txt").unwrap();

    assert_eq!(trashed_item.original_name(), b"file-link.txt");
    assert_eq!(trashed_item.original_path(), path("/tmp/test/file-link.txt"));
    assert!(!disk.holds("/tmp/test/file-link.txt"));
    assert!(!disk.holds("/tmp/test/missing.txt"));
}

#[test]
fn test_discard_directory() {
    let mut disk = Disk::new();
    disk.write("/tmp/test/directory/file.txt", "junk");

    let trashed_item = disk.discard("/tmp/test/directory").unwrap();

    assert_eq!(trashed_item.original_name(), b"directory");
    assert_eq!(trashed_item.original_path(), path("/tmp/test/directory"));
    assert!(!disk.holds("/tmp/test/directory"));
    assert_eq!(disk.contents("/home/user/.local/share/Trash/files/directory/file.txt"), "junk");
}

#[test]
fn test_discard_on_another_filesystem() {
    let mut disk = Disk::new();
    let table = format!("{ROOT_MOUNT}37 36 8:1 / /media/usb rw - ext4 /dev/sda1 rw\n");
    disk.write("/proc/self/mountinfo", &table);
    disk.write("/media/usb/Photos/image.png", "image");

    let item = disk.discard("/media/usb/Photos/image.png").unwrap();

    assert_eq!(item.id(), b"/media/usb/.Trash-1000/info/image.png.trashinfo");
    assert_eq!(
        disk.contents("/media/usb/.Trash-1000/info/image.png.trashinfo"),
        "[Trash Info]\nPath=Photos/image.png\nDeletionDate=2026-05-23T16:50:00\n"
    );
    assert_eq!(disk.contents("/media/usb/.Trash-1000/files/image.png"), "image");
}

#[test]
fn test_discard_all() {
    let mut disk = Disk::new();
    disk.write("/tmp/test/first.txt", "first");
    disk.write("/tmp/test/second.txt", "second");
    disk.write("/tmp/test/third.txt", "third");
    disk.write("/tmp/test/directory/fourth.txt", "fourth");

    let trashed_items = disk
        .discard_all(&["/tmp/test/first.txt", "/tmp/test/second.txt", "/tmp/test/directory"])
        .unwrap()
        .items;

    assert_eq!(trashed_items.len(), 3);
    assert!(!disk.holds("/tmp/test/first.txt"));
    assert!(!disk.holds("/tmp/test/second.txt"));
    assert!(disk.holds("/tmp/test/third.txt"));
    assert!(!disk.holds("/tmp/test/directory"));
    assert_eq!(trashed_items[0].original_name(), b"first.txt");
    assert_eq!(trashed_items[1].original_name(), b"second.txt");
    assert_eq!(trashed_items[2].original_name(), b"directory");
}

#[test]
fn test_discard_all_of_nothing() {
    let mut disk = Disk::new();

    assert_eq!(disk.run(discard_all(Vec::new())).unwrap().items.len(), 0);
    assert!(disk.requests.is_empty());
}

#[test]
fn test_discard_empty_path() {
    let mut disk = Disk::new();
    let result = disk.discard("");

    assert!(matches!(result, Err(Error::EmptyPath)));
    assert_eq!(result.unwrap_err().to_text(), "Path is empty");
}

#[test]
fn test_discard_all_with_invalid_path_aborts() {
    let mut disk = Disk::new();
    disk.write("/tmp/test/first.txt", "first");
    disk.write("/tmp/test/second.txt", "second");

    let result = disk.discard_all(&["/tmp/test/first.txt", "", "/tmp/test/second.txt"]);

    assert!(matches!(result, Err(Error::EmptyPath)));
    assert!(disk.holds("/tmp/test/first.txt"));
    assert!(disk.holds("/tmp/test/second.txt"));

    let result = disk.discard_all(&["/tmp/test/first.txt", "/", "/tmp/test/second.txt"]);

    assert!(matches!(result, Err(Error::TargetedRoot { .. })));
    assert!(disk.holds("/tmp/test/first.txt"));
    assert!(disk.holds("/tmp/test/second.txt"));
    assert!(disk.changes().is_empty());
}

#[test]
fn test_discard_all_stops_at_a_failure() {
    let mut disk = Disk::new();
    disk.write("/tmp/test/first.txt", "first");
    disk.write("/tmp/test/third.txt", "third");

    let result = disk.discard_all(&[
        "/tmp/test/first.txt",
        "/tmp/test/missing.txt",
        "/tmp/test/third.txt",
    ]);

    assert!(matches!(
        result,
        Err(Error::Io { source, .. }) if source.kind == ErrorKind::NotFound
    ));
    assert!(!disk.holds("/tmp/test/first.txt"));
    assert!(disk.holds("/tmp/test/third.txt"));
}

#[test]
fn test_resolve_targets_in_order() {
    let mut disk = Disk::new();
    disk.create_dir_all("/tmp/test/directory");
    disk.link("/tmp/test/directory", "/tmp/test/link");

    let found = disk
        .run(ResolveTargets::start(vec![path("/tmp/test/link/a"), path("b")]))
        .unwrap()
        .targets;

    assert_eq!(found.len(), 2);
    assert_eq!(found[0].path, path("/tmp/test/directory/a"));
    assert_eq!(found[0].original_parent, path("/tmp/test/directory"));
    assert_eq!(found[1].path, path("/tmp/test/b"));
    assert_eq!(found[1].original_name, b"b");
}

#[test]
fn test_discard_root_path() {
    let mut disk = Disk::new();
    let result = disk.discard("/");

    assert!(matches!(result, Err(Error::TargetedRoot { .. })));
    assert_eq!(result.unwrap_err().to_text(), "Cannot move filesystem root to trash: /");
}

#[test]
fn test_discard_without_local_time() {
    let mut disk = Disk::new();
    disk.write("/tmp/test/file.txt", "junk");
    disk.time = None;

    let error = disk.discard("/tmp/test/file.txt").unwrap_err();

    assert_eq!(
        error.to_text(),
        "Trash operation failed for /tmp/test/file.txt: Failed to get local time: the time zone \
         is not known"
    );
    assert!(disk.holds("/tmp/test/file.txt"));
}

#[test]
fn test_discard_without_mount_table() {
    let mut disk = Disk::new();
    disk.write("/tmp/test/file.txt", "junk");
    disk.fault("read-file", ErrorKind::PermissionDenied);

    assert!(matches!(
        disk.discard("/tmp/test/file.txt"),
        Err(Error::Io { source, .. }) if source.kind == ErrorKind::PermissionDenied
    ));

    disk.write("/proc/self/mountinfo", "36 35 98:0 /\n");

    assert!(matches!(disk.discard("/tmp/test/file.txt"), Err(Error::Platform { .. })));
    assert!(disk.changes().is_empty());
}

#[test]
fn test_failed_discard_withdraws_the_trash_info() {
    let mut disk = Disk::new();
    disk.write("/tmp/test/file.txt", "junk");
    disk.fault("rename /tmp/test/file.txt", ErrorKind::Other);

    assert!(matches!(disk.discard("/tmp/test/file.txt"), Err(Error::Io { .. })));
    assert!(disk.holds("/tmp/test/file.txt"));
    assert!(!disk.holds("/home/user/.local/share/Trash/files/file.txt"));
    assert!(!disk.holds("/home/user/.local/share/Trash/info/file.txt.trashinfo"));

    disk.fault("rename /tmp/test/file.txt", ErrorKind::Other);
    disk.fault(
        "remove-file /home/user/.local/share/Trash/info/file.txt.trashinfo",
        ErrorKind::PermissionDenied,
    );
    let error = disk.discard("/tmp/test/file.txt").unwrap_err();

    assert!(matches!(
        error,
        Error::Io { source, .. } if source.kind == ErrorKind::PermissionDenied
    ));
}

#[test]
fn test_discard_looks_for_another_name_if_the_first_is_taken_meanwhile() {
    let mut disk = Disk::new();
    disk.write("/tmp/test/file.txt", "junk");
    disk.fault(
        "create-file /home/user/.local/share/Trash/files/file.txt",
        ErrorKind::AlreadyExists,
    );

    let item = disk.discard("/tmp/test/file.txt").unwrap();

    assert_eq!(item.id(), b"/home/user/.local/share/Trash/info/file.txt.trashinfo");
    assert_eq!(
        disk.requests
            .iter()
            .filter(|request| request.starts_with("create-file") && request.contains("/info/"))
            .count(),
        2
    );
}

#[test]
fn test_resolve_location_of_a_path() {
    let mut disk = Disk::new();
    disk.xdg_data_home = Some("/data".to_string());
    let location =
        disk.run(Step::Continue(ResolveLocation::start(path("/tmp/test/file.txt")))).unwrap();

    assert_eq!(location, home_location("/data/Trash", "/"));

    disk.xdg_data_home = None;
    disk.home = None;
    let error =
        disk.run(Step::Continue(ResolveLocation::start(path("/tmp/test/file.txt")))).unwrap_err();

    assert!(matches!(error, Error::Platform { .. }));
}

// The file manager of macOS.

fn target(file: &str) -> DiscardTarget {
    DiscardTarget {
        path: path(file),
        original_name: last_name(file).into_bytes(),
        original_parent: path(&above(file)),
    }
}

#[test]
fn test_file_manager_is_asked() {
    let disk = Disk::new();
    let metadata = disk.metadata("/tmp/test", false).unwrap();
    let machine = macos::Discard::start(target("/tmp/test")).unwrap();
    let Step::Continue(machine) = machine.step(Reply::Metadata(metadata)) else {
        panic!("the file manager is asked next");
    };

    assert!(matches!(
        machine.request(),
        Request::MoveToTrash { representation, is_dir: true } if representation == b"/tmp/test\0"
    ));

    let Step::Continue(machine) = machine.step(Reply::Trashed(Some(b"/.Trash/test".to_vec())))
    else {
        panic!("the time is asked next");
    };
    let now = local_time(-1).to_system_time();
    let Step::Finish(Ok(item)) = machine.step(Reply::SystemTime(now)) else {
        panic!("the item is in the trash");
    };

    assert_eq!(item.id(), b"/.Trash/test");
    assert_eq!(item.original_path(), path("/tmp/test"));
    assert_eq!(item.discarded_at(), now);
}

#[test]
fn test_file_manager_failures() {
    let disk = Disk::new();
    let metadata = disk.metadata("/tmp/test", false).unwrap();
    let Err(Error::Io { source, .. }) = macos::Discard::start(target("/tmp/a\0b")) else {
        panic!("the path holds a NUL");
    };

    assert_eq!(source.kind, ErrorKind::InvalidInput);
    assert_eq!(source.message, "nul byte found in provided data at position: 6");

    for (reply, expected) in [
        (
            Reply::Trashed(None),
            "Trash operation failed for /tmp/test: File manager did not return a trashed item \
             URL for /tmp/test",
        ),
        (
            Reply::Failed(failure(ErrorKind::Other, "no")),
            "Trash operation failed for /tmp/test: File manager rejected /tmp/test: no",
        ),
    ] {
        let machine = macos::Discard::start(target("/tmp/test")).unwrap();
        let Step::Continue(machine) = machine.step(Reply::Metadata(metadata)) else {
            panic!("the file manager is asked next");
        };
        let Step::Finish(Err(error)) = machine.step(reply) else {
            panic!("the operation is over");
        };

        assert_eq!(error.to_text(), expected);
    }
}

/// Runs the file manager on items, which it moves to numbered places until it rejects one.
fn run_file_manager(
    files: &[&str],
    rejected: Option<&str>,
) -> (Vec<Vec<u8>>, Result<TrashItems, Error>) {
    let disk = Disk::new();
    let mut asked = Vec::new();
    let mut step = macos::DiscardAll::start(files.iter().map(|file| target(file)).collect());
    loop {
        let machine = match step {
            Step::Finish(result) => return (asked, result),
            Step::Continue(machine) => machine,
        };
        let reply = match machine.request() {
            Request::SymlinkMetadata { .. } => {
                Reply::Metadata(disk.metadata("/tmp/test", false).unwrap())
            }
            Request::MoveToTrash { representation, .. } => {
                let id = format!("/.Trash/{}", asked.len());
                asked.push(representation[..representation.len() - 1].to_vec());
                if rejected.map(str::as_bytes) == asked.last().map(Vec::as_slice) {
                    Reply::Failed(failure(ErrorKind::Other, "no"))
                } else {
                    Reply::Trashed(Some(id.into_bytes()))
                }
            }
            Request::SystemTime => {
                Reply::SystemTime(local_time(asked.len() as i64).to_system_time())
            }
            request => panic!("{request:?}"),
        };
        step = machine.step(reply);
    }
}

#[test]
fn test_file_manager_moves_items_in_order() {
    let (asked, result) = run_file_manager(&["/tmp/a", "/tmp/b", "/tmp/c"], None);
    let items = result.unwrap().items;

    assert_eq!(asked, [b"/tmp/a", b"/tmp/b", b"/tmp/c"]);
    assert_eq!(items.len(), 3);
    for (i, name) in ["a", "b", "c"].iter().enumerate() {
        assert_eq!(items[i].id(), format!("/.Trash/{i}").as_bytes());
        assert_eq!(items[i].original_name(), name.as_bytes());
        assert_eq!(items[i].discarded_at(), local_time(i as i64 + 1).to_system_time());
    }

    let (asked, result) = run_file_manager(&[], None);

    assert!(asked.is_empty());
    assert!(result.unwrap().items.is_empty());
}

#[test]
fn test_file_manager_stops_at_a_failure() {
    let files = ["/tmp/a", "/tmp/b", "/tmp/c"];
    let (asked, result) = run_file_manager(&files, Some("/tmp/b"));

    assert_eq!(asked, [b"/tmp/a", b"/tmp/b"]);
    assert_eq!(
        result.unwrap_err().to_text(),
        "Trash operation failed for /tmp/b: File manager rejected /tmp/b: no"
    );

    let (asked, result) = run_file_manager(&["/tmp/a", "/tmp/\0", "/tmp/c"], None);

    assert_eq!(asked, [b"/tmp/a"]);
    assert!(matches!(
        result,
        Err(Error::Io { source, .. }) if source.kind == ErrorKind::InvalidInput
    ));
}

/// A reply that answers another request than this one.
fn other_reply(request: &Request) -> Reply {
    match request {
        Request::EffectiveUser => Reply::Process(7),
        _ => Reply::User(7),
    }
}

#[test]
fn test_another_sort_of_reply_changes_nothing() {
    let mut disk = Disk::new();
    disk.write("/tmp/test/directory/file.txt", "junk");
    let mut step = Trash::new().discard(path("/tmp/test/directory"));
    let item = loop {
        let machine = match step {
            Step::Finish(result) => break result.unwrap(),
            Step::Continue(machine) => machine,
        };
        let before = Disk::describe(&machine.request());
        let unfit = other_reply(&machine.request());
        let Step::Continue(machine) = machine.step(unfit) else {
            panic!("the answer is still owed");
        };

        assert_eq!(Disk::describe(&machine.request()), before);

        let reply = match disk.perform(machine.request()) {
            Ok(reply) => reply,
            Err(error) => Reply::Failed(error),
        };
        step = machine.step(reply);
    };

    assert_eq!(item.original_path(), path("/tmp/test/directory"));
    assert!(!disk.holds("/tmp/test/directory"));
}

#[test]
fn test_nothing_changes_without_permission() {
    let mut disk = Disk::new();
    disk.write("/tmp/test/directory/file.txt", "junk");
    disk.set_mode("/tmp/test/directory", OWNER_RX_MODE);

    assert!(matches!(
        disk.discard("/tmp/test/directory/file.txt"),
        Err(Error::Io { source, .. }) if source.kind == ErrorKind::PermissionDenied
    ));
    assert!(disk.changes().is_empty());
}

#[test]
fn test_discard_in_a_shared_trash() {
    let mut disk = Disk::new();
    let table = format!("{ROOT_MOUNT}37 36 8:1 / /media/usb\\040stick rw - ext4 /dev/sda1 rw\n");
    disk.write("/proc/self/mountinfo", &table);
    disk.write("/media/usb stick/image.png", "image");
    disk.create_dir_all("/media/usb stick/.Trash");
    disk.set_mode("/media/usb stick/.Trash", WORLD_RWX_STICKY_MODE);

    let item = disk.discard("/media/usb stick/image.png").unwrap();

    assert_eq!(item.id(), b"/media/usb stick/.Trash/1000/info/image.png.trashinfo");

    disk.write("/media/usb stick/image.png", "image");
    disk.fault("create-dir /media/usb stick/.Trash/1000", ErrorKind::PermissionDenied);
    let item = disk.discard("/media/usb stick/image.png").unwrap();

    assert_eq!(item.id(), b"/media/usb stick/.Trash-1000/info/image.png.trashinfo");

    assert!(matches!(
        disk.discard("/media/usb stick"),
        Err(Error::TargetedRoot { path: refused }) if refused == path("/media/usb stick")
    ));
}

#[test]
fn test_moves_are_prepared() {
    let mut disk = Disk::new();
    disk.write("/tmp/test/directory/file.txt", "junk");
    disk.discard("/tmp/test/directory").unwrap();
    let trash = "/home/user/.local/share/Trash";
    let position = |request: String| {
        disk.requests.iter().position(|made| *made == request).unwrap()
    };
    let written = position(format!("write-file {trash}/info/directory.trashinfo"));
    let placed = position(format!("create-dir {trash}/files/directory"));
    let moved = position(format!("rename /tmp/test/directory {trash}/files/directory"));

    assert!(written < placed);
    assert!(placed < moved);
    assert!(!disk.requests.iter().any(|made| made.starts_with("remove")));
}

#[test]
fn test_only_own_entries_are_changed() {
    let trash = "/home/user/.local/share/Trash";
    for (fault, kind) in [
        ("", ErrorKind::Other),
        ("write-file", ErrorKind::Other),
        ("rename /tmp", ErrorKind::Other),
        ("rename /home", ErrorKind::Other),
        ("create-dir /home/user/.local/share/Trash/files/directory", ErrorKind::AlreadyExists),
    ] {
        let mut disk = Disk::new();
        disk.write("/tmp/test/directory/file.txt", "junk");
        if !fault.is_empty() {
            disk.fault(fault, kind);
        }
        let is_discarded = disk.discard("/tmp/test/directory").is_ok();

        assert_eq!(is_discarded, !matches!(fault, "write-file" | "rename /tmp"));
        for (i, request) in disk.requests.iter().enumerate() {
            let words: Vec<&str> = request.split(' ').collect();
            let created = |path: &str| {
                disk.requests[..i].iter().any(|made| {
                    *made == format!("create-file {path}") || *made == format!("create-dir {path}")
                })
            };
            match words[0] {
                "write-file" | "set-mode" | "remove-file" | "remove-dir" => {
                    assert!(created(words[1]), "{request}");
                }
                "rename" if words[2] == format!("{trash}/directorysizes") => {
                    assert!(created(words[1]), "{request}");
                }
                "rename" => {
                    assert_eq!(words[1], "/tmp/test/directory");
                    assert!(created(words[2]), "{request}");
                }
                _ => {}
            }
        }
    }
}

#[test]
fn test_second_item_spares_the_first() {
    let mut disk = Disk::new();
    disk.write("/tmp/test/first/file.txt", "first");
    disk.write("/tmp/test/second/file.txt", "second");
    let first = disk.discard("/tmp/test/first/file.txt").unwrap();
    let info = String::from_utf8(first.id().to_vec()).unwrap();
    let about_first = disk.contents(&info);
    let place = "/home/user/.local/share/Trash/files/file.txt";
    let made = disk.requests.len();
    let second = disk.discard("/tmp/test/second/file.txt").unwrap();

    assert_ne!(first.id(), second.id());
    assert_eq!(disk.contents(place), "first");
    assert_eq!(disk.contents(&info), about_first);
    for request in &disk.requests[made..] {
        for word in request.split(' ').skip(1) {
            let is_looked_at = request.starts_with("symlink-metadata");

            assert!(is_looked_at || (word != place && word != info), "{request}");
        }
    }
}

#[test]
fn test_resolving_again_changes_nothing() {
    let mut disk = Disk::new();
    disk.create_dir_all("/tmp/test/directory/inner");
    disk.link("/tmp/test/directory", "/tmp/test/link");
    for file in ["link/inner", "/tmp/test/link/missing", "link", "link/inner/.."] {
        let found = disk.resolve(file);
        let again = disk.resolve(&text(&found.path));

        assert!(found.path.is_absolute());
        assert_eq!(found.path, found.original_parent.join(&found.original_name));
        assert_eq!(again.path, found.path);
        assert_eq!(again.original_name, found.original_name);
        assert_eq!(again.original_parent, found.original_parent);
    }
    assert_eq!(disk.resolve("link/inner/..").path, path("/tmp/test/directory"));
    assert_eq!(disk.resolve("link").path, path("/tmp/test/link"));
}

#[test]
fn test_nothing_changes_if_the_last_path_cannot_be_resolved() {
    let mut disk = Disk::new();
    disk.write("/tmp/test/first.txt", "first");
    let result = disk.discard_all(&["/tmp/test/first.txt", "/tmp/missing/file.txt"]);

    assert!(matches!(
        result,
        Err(Error::Io { path: failed, .. }) if failed == path("/tmp/missing")
    ));
    assert!(disk.holds("/tmp/test/first.txt"));
    assert!(disk.changes().is_empty());

    let result = disk.discard("/tmp/missing/file.txt");

    assert!(matches!(
        result,
        Err(Error::Io { path: failed, .. }) if failed == path("/tmp/missing")
    ));
    assert!(disk.changes().is_empty());
}

#[test]
fn test_new_directories_of_the_home_trash_are_restricted() {
    let mut disk = Disk::new();
    let location = home_location("/tmp/test/home/user/Trash", "/tmp/test");
    prepare(&mut disk, &location).unwrap();

    for directory in [
        "/tmp/test/home",
        "/tmp/test/home/user",
        "/tmp/test/home/user/Trash",
        "/tmp/test/home/user/Trash/files",
        "/tmp/test/home/user/Trash/info",
    ] {
        let made = format!("set-mode {directory} 700");

        assert_eq!(disk.requests.iter().filter(|request| **request == made).count(), 1);
        assert_eq!(disk.mode(directory), OWNER_RWX_MODE);
    }
    assert_eq!(disk.mode("/tmp/test"), OWNER_RWX_WORLD_RX_MODE);
}

#[test]
fn test_longest_existing_directory_is_resolved() {
    let mut disk = Disk::new();
    disk.create_dir_all("/tmp/test/directory/inner");
    disk.link("/tmp/test/directory", "/tmp/test/link");
    let trash = HomeTrashPath(path("/tmp/test/link/inner/share/Trash"));
    let found = disk.run(Step::Continue(trash.canonicalize_existing_parent())).unwrap();

    assert_eq!(found.as_path(), &path("/tmp/test/directory/inner/share/Trash"));
    assert_eq!(
        disk.requests,
        [
            "canonicalize /tmp/test/link/inner/share/Trash",
            "canonicalize /tmp/test/link/inner/share",
            "canonicalize /tmp/test/link/inner",
        ]
    );
}

#[test]
fn test_cache_contents_with_carriage_returns() {
    let existing = "1 2 a\r\r\n3 4 Camera\r\n5 6 b\r";
    let once = DirectorySizeCache::contents(Some(existing), 7, 8, "Camera");
    let twice = DirectorySizeCache::contents(Some(once.as_str()), 9, 10, "Camera");

    assert_eq!(once, "1 2 a\r\n5 6 b\r\n7 8 Camera\n");
    assert_eq!(twice, "1 2 a\n5 6 b\n9 10 Camera\n");
    assert_eq!(DirectorySizeCache::contents(Some("3 4 Camera\r"), 7, 8, "Camera"), "7 8 Camera\n");
}

#[test]
fn test_failed_discard_moves_nothing() {
    for fault in ["write-file", "create-file", "create-dir", "rename", "local-time"] {
        let mut disk = Disk::new();
        disk.write("/tmp/test/file.txt", "junk");
        disk.write("/tmp/test/other.txt", "other");
        disk.fault(fault, ErrorKind::Other);

        assert!(disk.discard_all(&["/tmp/test/file.txt", "/tmp/test/other.txt"]).is_err());
        assert_eq!(disk.contents("/tmp/test/file.txt"), "junk");
        assert_eq!(disk.contents("/tmp/test/other.txt"), "other");
    }
}

#[test]
fn test_reservation_takes_the_least_free_number() {
    let trash = "/home/user/.local/share/Trash";
    for (taken, expected) in [
        (vec!["files/file.txt", "files/file.txt.2"], "file.txt.1"),
        (vec!["info/file.txt.trashinfo", "files/file.txt.1"], "file.txt.2"),
        (vec!["files/file.txt.1"], "file.txt"),
    ] {
        let mut disk = Disk::new();
        disk.write("/tmp/test/file.txt", "junk");
        for name in taken {
            disk.write(&format!("{trash}/{name}"), "taken");
        }
        let item = disk.discard("/tmp/test/file.txt").unwrap();

        assert_eq!(item.id(), format!("{trash}/info/{expected}.trashinfo").as_bytes());
        assert_eq!(disk.contents(&format!("{trash}/files/{expected}")), "junk");
    }
}

#[test]
fn test_discarded_items_are_gone() {
    let mut disk = Disk::new();
    for name in ["directorysizes", ".directorysizes.7.0.tmp"] {
        let directory = format!("/tmp/test/{name}");
        disk.write(&format!("{directory}/file.txt"), "junk");
        disk.discard(&directory).unwrap();

        assert!(!disk.holds(&directory));
        assert!(disk.is_dir(&format!("/home/user/.local/share/Trash/files/{name}")));
    }
}
