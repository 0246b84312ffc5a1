//! Where the trash for an item is.

use vstd::prelude::*;

use crate::error::{self, Error, ErrorKind, ErrorView, IoError, IoErrorView};
use crate::machine::{
    self, EnvironmentView, Exchange, Machine, Metadata, Reply, ReplyView, Request, RequestView,
    Stage, Step,
};
use crate::path::{self, PathBuf};
use crate::platform::linux::mount::{self, MountPoint, Mounts};
use crate::platform::linux::permission::{self, has_sticky_bit};
use crate::platform::linux::prepare::{
    self, PrepareHome, PrepareHomeView, PreparePlain, PrepareTrash, PrepareTrashView,
    TrashDirectory, TrashDirectoryView,
};
use crate::text::{self, push_decimal, to_ascii_bytes, to_lossy_text};

verus! {

/// The path of the user's own trash.
#[derive(Debug, PartialEq, Eq)]
pub struct HomeTrashPath(pub PathBuf);

impl View for HomeTrashPath {
    type V = Seq<u8>;

    open spec fn view(&self) -> Seq<u8> {
        self.0@
    }
}

impl Clone for HomeTrashPath {
    fn clone(&self) -> (copy: Self)
        ensures
            copy@ == self@,
    {
        HomeTrashPath(self.0.clone())
    }
}

/// The path of the user's own trash: in the directory for the user's data, where that is set to
/// an absolute path, and else below the user's home directory.
pub open spec fn home_trash(xdg_data_home: Option<Seq<u8>>, home: Option<Seq<u8>>) -> Result<
    Seq<u8>,
    ErrorView,
> {
    if xdg_data_home is Some && path::is_absolute(xdg_data_home->0) {
        Ok(path::join(xdg_data_home->0, text::ascii_bytes("Trash"@)))
    } else if home is Some && path::is_absolute(home->0) {
        Ok(path::join(home->0, text::ascii_bytes(".local/share/Trash"@)))
    } else {
        Err(
            ErrorView::Platform {
                path: Seq::empty(),
                message: "No absolute XDG_DATA_HOME or HOME is available"@,
            },
        )
    }
}

/// What an optional slice of bytes says.
pub open spec fn slice_view(bytes: Option<&[u8]>) -> Option<Seq<u8>> {
    match bytes {
        Some(bytes) => Some(bytes@),
        None => None,
    }
}

impl HomeTrashPath {
    /// The path of the user's own trash, from the values of `XDG_DATA_HOME` and `HOME`.
    pub fn resolve(xdg_data_home: Option<&[u8]>, home: Option<&[u8]>) -> (trash: Result<
        Self,
        Error,
    >)
        ensures
            error::result_view(trash) == home_trash(slice_view(xdg_data_home), slice_view(home)),
    {
        if let Some(xdg_data_home) = xdg_data_home {
            let base = PathBuf::from_slice(xdg_data_home);
            if base.is_absolute() {
                return Ok(HomeTrashPath(base.join(to_ascii_bytes("Trash").as_slice())));
            }
        }
        if let Some(home) = home {
            let base = PathBuf::from_slice(home);
            if base.is_absolute() {
                let below = to_ascii_bytes(".local/share/Trash");
                return Ok(HomeTrashPath(base.join(below.as_slice())));
            }
        }
        let path = PathBuf::from_bytes(Vec::new());
        assert(path@ =~= Seq::<u8>::empty());
        Err(
            Error::Platform {
                path,
                message: "No absolute XDG_DATA_HOME or HOME is available".to_owned(),
            },
        )
    }

    /// The path.
    pub fn as_path(&self) -> (path: &PathBuf)
        ensures
            path@ == self@,
    {
        &self.0
    }

    /// Starts to create the directories of the trash.
    pub fn prepare(&self) -> (machine: PrepareTrash)
        ensures
            machine@ == PrepareTrashView::Home(
                PrepareHomeView::at(prepare::trash_at(self@), prepare::Part::Whole),
            ),
    {
        PrepareTrash::Home(PrepareHome::start(self.0.clone()))
    }
}

/// The path of a trash on another filesystem than the user's own trash.
#[derive(Debug, PartialEq, Eq)]
pub struct ExternalTrashPath {
    /// The path of the trash.
    pub path: PathBuf,
    /// The path of the trash to use if that one cannot be had.
    pub fallback_path: Option<PathBuf>,
}

/// What an [`ExternalTrashPath`] says.
pub struct ExternalTrashPathView {
    pub path: Seq<u8>,
    pub fallback_path: Option<Seq<u8>>,
}

impl View for ExternalTrashPath {
    type V = ExternalTrashPathView;

    open spec fn view(&self) -> ExternalTrashPathView {
        ExternalTrashPathView {
            path: self.path@,
            fallback_path: match self.fallback_path {
                Some(fallback) => Some(fallback@),
                None => None,
            },
        }
    }
}

/// The directory at the top of a filesystem in which users share a trash.
pub open spec fn shared_trash(top_dir: Seq<u8>) -> Seq<u8> {
    path::join(top_dir, text::ascii_bytes(".Trash"@))
}

/// The trash that a user has at the top of a filesystem.
pub open spec fn own_trash(top_dir: Seq<u8>, user_id: u32) -> Seq<u8> {
    path::join(top_dir, text::ascii_bytes(".Trash-"@) + text::decimal(user_id as nat))
}

/// The entry can be the directory in which users share a trash.
pub open spec fn is_valid_shared_trash(metadata: Metadata) -> bool {
    metadata.is_dir && !metadata.is_symlink && permission::is_sticky(metadata)
}

/// The trash of a user on a filesystem, given what is known of the directory that its users
/// share. Where that can be used, the user's trash is in there, and the user's own at the top of
/// the filesystem is the fallback; else that one is the trash.
pub open spec fn external_trash(
    top_dir: Seq<u8>,
    user_id: u32,
    shared: Option<Metadata>,
) -> ExternalTrashPathView {
    if shared is Some && is_valid_shared_trash(shared->0) {
        ExternalTrashPathView {
            path: path::join(shared_trash(top_dir), text::decimal(user_id as nat)),
            fallback_path: Some(own_trash(top_dir, user_id)),
        }
    } else {
        ExternalTrashPathView { path: own_trash(top_dir, user_id), fallback_path: None }
    }
}

/// How the directories of a trash on another filesystem are prepared.
pub open spec fn external_prepare(trash: ExternalTrashPathView) -> Step<
    PrepareTrashView,
    Result<TrashDirectoryView, ErrorView>,
> {
    match trash.fallback_path {
        Some(fallback) => prepare::or_fallback(prepare::prepare_shared(trash.path), fallback),
        None => Step::Continue(PrepareTrashView::Plain(prepare::prepare_plain(trash.path))),
    }
}

impl ExternalTrashPath {
    /// The trash of a user on the filesystem at `top_dir`, given what is known of the directory
    /// that its users share.
    pub fn new(top_dir: &PathBuf, user_id: u32, shared: Option<Metadata>) -> (trash: Self)
        ensures
            trash@ == external_trash(top_dir@, user_id, shared),
    {
        let mut name = to_ascii_bytes(".Trash-");
        push_decimal(&mut name, user_id as u64);
        let own = top_dir.join(name.as_slice());
        if let Some(metadata) = shared {
            if metadata.is_dir && !metadata.is_symlink && has_sticky_bit(&metadata) {
                let mut number: Vec<u8> = Vec::new();
                push_decimal(&mut number, user_id as u64);
                assert(number@ =~= text::decimal(user_id as nat));
                let path = top_dir.join(to_ascii_bytes(".Trash").as_slice()).join(
                    number.as_slice(),
                );
                return ExternalTrashPath { path, fallback_path: Some(own) };
            }
        }
        ExternalTrashPath { path: own, fallback_path: None }
    }

    /// Starts to create the directories of the trash.
    pub fn prepare(&self) -> (step: Step<PrepareTrash, Result<TrashDirectory, Error>>)
        ensures
            machine::step_view(step) == external_prepare(self@),
    {
        match &self.fallback_path {
            Some(fallback) => PrepareTrash::start_shared(self.path.clone(), fallback.clone()),
            None => Step::Continue(PrepareTrash::Plain(PreparePlain::start(self.path.clone()))),
        }
    }
}

/// The trash that an item goes to.
#[derive(Debug, PartialEq, Eq)]
#[allow(inconsistent_fields)]
pub enum TrashLocation {
    /// The user's own trash.
    Home { path: HomeTrashPath, mount_point: MountPoint },
    /// A trash on the filesystem that holds the item.
    External { path: ExternalTrashPath, mount_point: MountPoint },
}

/// What a [`TrashLocation`] says.
#[allow(inconsistent_fields)]
pub enum TrashLocationView {
    Home { path: Seq<u8>, mount_point: Seq<u8> },
    External { path: ExternalTrashPathView, mount_point: Seq<u8> },
}

impl View for TrashLocation {
    type V = TrashLocationView;

    open spec fn view(&self) -> TrashLocationView {
        match self {
            TrashLocation::Home { path, mount_point } => TrashLocationView::Home {
                path: path@,
                mount_point: mount_point@,
            },
            TrashLocation::External { path, mount_point } => TrashLocationView::External {
                path: path@,
                mount_point: mount_point@,
            },
        }
    }
}

/// Where an item was, as its trash has it: with its full path in the user's own trash, and else
/// relative to the mount point.
pub open spec fn original_location(location: TrashLocationView, path: Seq<u8>) -> Result<
    Seq<u8>,
    ErrorView,
> {
    match location {
        TrashLocationView::Home { .. } => Ok(path),
        TrashLocationView::External { mount_point, .. } => match path::strip_prefix(
            path,
            mount_point,
        ) {
            None => Err(
                ErrorView::Platform {
                    path,
                    message: "Failed to make "@ + text::lossy_text(path) + " relative to "@
                        + text::lossy_text(mount_point) + ": prefix not found"@,
                },
            ),
            Some(rest) => if rest.len() == 0 {
                Err(
                    ErrorView::Platform {
                        path,
                        message: "Trash info original location is empty for "@ + text::lossy_text(
                            path,
                        ),
                    },
                )
            } else if path::names(rest).contains(seq![path::DOT, path::DOT]) {
                Err(
                    ErrorView::Platform {
                        path,
                        message: "Trash info path must not contain '..': "@ + text::lossy_text(
                            rest,
                        ),
                    },
                )
            } else {
                Ok(rest)
            },
        },
    }
}

/// How the directories of the trash at a location are prepared.
pub open spec fn location_prepare(location: TrashLocationView) -> Step<
    PrepareTrashView,
    Result<TrashDirectoryView, ErrorView>,
> {
    match location {
        TrashLocationView::Home { path, .. } => Step::Continue(
            PrepareTrashView::Home(
                PrepareHomeView::at(prepare::trash_at(path), prepare::Part::Whole),
            ),
        ),
        TrashLocationView::External { path, .. } => external_prepare(path),
    }
}

/// No mount point holds the path.
pub open spec fn no_mount_point(path: Seq<u8>) -> ErrorView {
    ErrorView::Platform {
        path,
        message: "No mount point found for "@ + text::lossy_text(path),
    }
}

fn no_mount_point_for(path: &PathBuf) -> (error: Error)
    ensures
        error@ == no_mount_point(path@),
{
    let message = "No mount point found for ".to_owned().concat(
        to_lossy_text(path.as_bytes()).as_str(),
    );
    Error::Platform { path: path.clone(), message }
}

/// The trash for an item: the user's own, where that is on the filesystem that holds the item,
/// and else one on that filesystem. A mount point itself cannot be discarded.
pub open spec fn select_location(
    path: Seq<u8>,
    mounts: Seq<Seq<u8>>,
    home_trash: Seq<u8>,
    user_id: u32,
) -> Step<ResolveLocationView, Result<TrashLocationView, ErrorView>> {
    match mount::first_mount_of(mounts, path) {
        None => Step::Finish(Err(no_mount_point(path))),
        Some(mount_point) => if path::components(path) == path::components(mount_point) {
            Step::Finish(Err(ErrorView::TargetedRoot { path }))
        } else {
            match mount::first_mount_of(mounts, home_trash) {
                None => Step::Finish(Err(no_mount_point(home_trash))),
                Some(home_mount) => if path::components(mount_point) == path::components(
                    home_mount,
                ) {
                    Step::Finish(Ok(TrashLocationView::Home { path: home_trash, mount_point }))
                } else {
                    Step::Continue(ResolveLocationView::Shared { user_id, mount_point })
                },
            }
        },
    }
}

impl TrashLocation {
    /// The trash for an item. Where it is not the user's own, the directory that the users of the
    /// item's filesystem share is looked at next.
    pub fn select(
        path: &PathBuf,
        mounts: &Mounts,
        home_trash: &HomeTrashPath,
        user_id: u32,
    ) -> (step: Step<ResolveLocation, Result<TrashLocation, Error>>)
        ensures
            machine::step_view(step) == select_location(path@, mounts@, home_trash@, user_id),
    {
        match mounts.find_mount_point(path) {
            None => Step::Finish(Err(no_mount_point_for(path))),
            Some(mount_point) => {
                if path.same_components(mount_point.as_path()) {
                    return Step::Finish(Err(Error::TargetedRoot { path: path.clone() }));
                }
                match mounts.find_mount_point(home_trash.as_path()) {
                    None => Step::Finish(Err(no_mount_point_for(home_trash.as_path()))),
                    Some(home_mount) => {
                        if mount_point.as_path().same_components(home_mount.as_path()) {
                            Step::Finish(
                                Ok(TrashLocation::Home { path: home_trash.clone(), mount_point }),
                            )
                        } else {
                            Step::Continue(ResolveLocation::Shared { user_id, mount_point })
                        }
                    },
                }
            },
        }
    }

    /// Starts to create the directories of the trash.
    pub fn prepare(&self) -> (step: Step<PrepareTrash, Result<TrashDirectory, Error>>)
        ensures
            machine::step_view(step) == location_prepare(self@),
    {
        match self {
            TrashLocation::Home { path, .. } => Step::Continue(path.prepare()),
            TrashLocation::External { path, .. } => path.prepare(),
        }
    }

    /// Where an item was, as its trash has it.
    pub fn trash_info_path(&self, path: &PathBuf) -> (original: Result<PathBuf, Error>)
        ensures
            error::result_view(original) == original_location(self@, path@),
    {
        match self {
            TrashLocation::Home { .. } => Ok(path.clone()),
            TrashLocation::External { mount_point, .. } => {
                match path.strip_prefix(mount_point.as_path()) {
                    None => {
                        let message = "Failed to make ".to_owned().concat(
                            to_lossy_text(path.as_bytes()).as_str(),
                        ).concat(" relative to ").concat(
                            to_lossy_text(mount_point.as_path().as_bytes()).as_str(),
                        ).concat(": prefix not found");
                        Err(Error::Platform { path: path.clone(), message })
                    },
                    Some(rest) => {
                        if rest.is_empty() {
                            let message =
                                "Trash info original location is empty for ".to_owned().concat(
                                to_lossy_text(path.as_bytes()).as_str(),
                            );
                            Err(Error::Platform { path: path.clone(), message })
                        } else if rest.has_parent_component() {
                            let message =
                                "Trash info path must not contain '..': ".to_owned().concat(
                                to_lossy_text(rest.as_bytes()).as_str(),
                            );
                            Err(Error::Platform { path: path.clone(), message })
                        } else {
                            Ok(rest)
                        }
                    },
                }
            },
        }
    }
}

/// Finds out which trash an item goes to.
#[derive(Debug)]
pub enum ResolveLocation {
    /// The mount points are needed.
    Mounts { path: PathBuf },
    /// The user and the user's directories are needed.
    Environment { path: PathBuf, mounts: Mounts },
    /// The path of the user's own trash is resolved.
    Home { path: PathBuf, mounts: Mounts, user_id: u32, machine: ResolveHome },
    /// The directory that the users of the item's filesystem share is looked at.
    Shared { user_id: u32, mount_point: MountPoint },
}

/// What a [`ResolveLocation`] waits for.
pub enum ResolveLocationView {
    Mounts { path: Seq<u8> },
    Environment { path: Seq<u8>, mounts: Seq<Seq<u8>> },
    Home { path: Seq<u8>, mounts: Seq<Seq<u8>>, user_id: u32, machine: ResolveHomeView },
    Shared { user_id: u32, mount_point: Seq<u8> },
}

impl View for ResolveLocation {
    type V = ResolveLocationView;

    open spec fn view(&self) -> ResolveLocationView {
        match self {
            ResolveLocation::Mounts { path } => ResolveLocationView::Mounts { path: path@ },
            ResolveLocation::Environment { path, mounts } => ResolveLocationView::Environment {
                path: path@,
                mounts: mounts@,
            },
            ResolveLocation::Home { path, mounts, user_id, machine } => {
                ResolveLocationView::Home {
                    path: path@,
                    mounts: mounts@,
                    user_id: *user_id,
                    machine: machine@,
                }
            },
            ResolveLocation::Shared { user_id, mount_point } => ResolveLocationView::Shared {
                user_id: *user_id,
                mount_point: mount_point@,
            },
        }
    }
}

/// What comes of the mount table.
pub open spec fn with_mounts(
    path: Seq<u8>,
    contents: Result<Seq<u8>, error::IoErrorView>,
) -> Step<ResolveLocationView, Result<TrashLocationView, ErrorView>> {
    match mount::mounts_read(contents) {
        Ok(mounts) => Step::Continue(ResolveLocationView::Environment { path, mounts }),
        Err(error) => Step::Finish(Err(error)),
    }
}

/// What comes of the user's directories.
pub open spec fn with_environment(
    path: Seq<u8>,
    mounts: Seq<Seq<u8>>,
    environment: EnvironmentView,
) -> Step<ResolveLocationView, Result<TrashLocationView, ErrorView>> {
    match home_trash(environment.xdg_data_home, environment.home) {
        Ok(trash) => Step::Continue(
            ResolveLocationView::Home {
                path,
                mounts,
                user_id: environment.user_id,
                machine: ResolveHomeView { trash, ancestor: trash },
            },
        ),
        Err(error) => Step::Finish(Err(error)),
    }
}

/// The path of the user's own trash, with the symbolic links of an existing ancestor resolved.
pub open spec fn resolved_home(trash: Seq<u8>, ancestor: Seq<u8>, resolved: Seq<u8>) -> Result<
    Seq<u8>,
    ErrorView,
> {
    match path::strip_prefix(trash, ancestor) {
        Some(rest) => Ok(path::join(resolved, rest)),
        None => Err(
            ErrorView::Platform {
                path: trash,
                message: "Failed to resolve "@ + text::lossy_text(trash) + ": prefix not found"@,
            },
        ),
    }
}

impl HomeTrashPath {
    /// The path of the trash, with the symbolic links of an existing ancestor resolved.
    fn resolve_below(&self, ancestor: &PathBuf, resolved: PathBuf) -> (trash: Result<
        HomeTrashPath,
        Error,
    >)
        ensures
            error::result_view(trash) == resolved_home(self@, ancestor@, resolved@),
    {
        match self.0.strip_prefix(ancestor) {
            Some(rest) => Ok(HomeTrashPath(resolved.join(rest.as_bytes()))),
            None => {
                let message = "Failed to resolve ".to_owned().concat(
                    to_lossy_text(self.0.as_bytes()).as_str(),
                ).concat(": prefix not found");
                Err(Error::Platform { path: self.0.clone(), message })
            },
        }
    }
}

/// No directory above the path of the user's own trash exists.
pub open spec fn no_existing_parent(trash: Seq<u8>) -> ErrorView {
    ErrorView::Platform {
        path: trash,
        message: "Path has no existing parent: "@ + text::lossy_text(trash),
    }
}

/// Resolves the symbolic links in the path of the user's own trash: those of the nearest
/// directory on it that exists.
#[derive(Debug)]
pub struct ResolveHome {
    trash: HomeTrashPath,
    ancestor: PathBuf,
}

/// What a [`ResolveHome`] has come to.
pub struct ResolveHomeView {
    /// The path of the trash.
    pub trash: Seq<u8>,
    /// The directory on the path that is tried.
    pub ancestor: Seq<u8>,
}

impl View for ResolveHome {
    type V = ResolveHomeView;

    closed spec fn view(&self) -> ResolveHomeView {
        ResolveHomeView { trash: self.trash@, ancestor: self.ancestor@ }
    }
}

impl HomeTrashPath {
    /// Starts to resolve the symbolic links in the path.
    pub fn canonicalize_existing_parent(self) -> (machine: ResolveHome)
        ensures
            machine@ == (ResolveHomeView { trash: self@, ancestor: self@ }),
    {
        let ancestor = self.0.clone();
        ResolveHome { trash: self, ancestor }
    }
}

impl Machine for ResolveHome {
    type Output = HomeTrashPath;

    open spec fn pending(state: ResolveHomeView) -> RequestView {
        RequestView::Canonicalize { path: state.ancestor }
    }

    open spec fn next(state: ResolveHomeView, reply: ReplyView) -> Step<
        ResolveHomeView,
        Result<Seq<u8>, ErrorView>,
    > {
        match reply {
            ReplyView::Path(resolved) => Step::Finish(
                resolved_home(state.trash, state.ancestor, resolved),
            ),
            ReplyView::Failed(source) => if source.kind != ErrorKind::NotFound {
                Step::Finish(Err(ErrorView::Io { path: state.ancestor, source }))
            } else {
                match path::parent(state.ancestor) {
                    Some(above) => Step::Continue(ResolveHomeView { ancestor: above, ..state }),
                    None => Step::Finish(Err(no_existing_parent(state.trash))),
                }
            },
            _ => Step::Continue(state),
        }
    }

    proof fn other_replies_change_nothing(state: ResolveHomeView, reply: ReplyView) {
    }

    fn request(&self) -> (request: Request) {
        Request::Canonicalize { path: self.ancestor.clone() }
    }

    fn step(self, reply: Reply) -> (step: Step<Self, Result<HomeTrashPath, Error>>) {
        match reply {
            Reply::Path(resolved) => Step::Finish(
                self.trash.resolve_below(&self.ancestor, resolved),
            ),
            Reply::Failed(source) => {
                if source.kind != ErrorKind::NotFound {
                    return Step::Finish(Err(Error::Io { path: self.ancestor, source }));
                }
                match self.ancestor.parent() {
                    Some(above) => Step::Continue(ResolveHome { ancestor: above, ..self }),
                    None => {
                        let message = "Path has no existing parent: ".to_owned().concat(
                            to_lossy_text(self.trash.0.as_bytes()).as_str(),
                        );
                        Step::Finish(Err(Error::Platform { path: self.trash.0, message }))
                    },
                }
            },
            _ => Step::Continue(self),
        }
    }
}

impl ResolveLocation {
    /// Starts to find out which trash an item goes to.
    pub fn start(path: PathBuf) -> (machine: Self)
        ensures
            machine@ == (ResolveLocationView::Mounts { path: path@ }),
    {
        ResolveLocation::Mounts { path }
    }

    fn with_mounts(path: PathBuf, contents: Result<Vec<u8>, IoError>) -> (step: Step<
        Self,
        Result<TrashLocation, Error>,
    >)
        ensures
            machine::step_view(step) == with_mounts(
                path@,
                match contents {
                    Ok(contents) => Ok(contents@),
                    Err(source) => Err(source@),
                },
            ),
    {
        match Mounts::read(contents) {
            Ok(mounts) => Step::Continue(ResolveLocation::Environment { path, mounts }),
            Err(error) => Step::Finish(Err(error)),
        }
    }

    fn external(user_id: u32, mount_point: MountPoint, shared: Option<Metadata>) -> (step: Step<
        Self,
        Result<TrashLocation, Error>,
    >)
        ensures
            machine::step_view(step) == Step::<
                ResolveLocationView,
                Result<TrashLocationView, ErrorView>,
            >::Finish(
                Ok(
                    TrashLocationView::External {
                        path: external_trash(mount_point@, user_id, shared),
                        mount_point: mount_point@,
                    },
                ),
            ),
    {
        let path = ExternalTrashPath::new(mount_point.as_path(), user_id, shared);
        Step::Finish(Ok(TrashLocation::External { path, mount_point }))
    }
}

impl Machine for ResolveLocation {
    type Output = TrashLocation;

    open spec fn pending(state: ResolveLocationView) -> RequestView {
        match state {
            ResolveLocationView::Mounts { .. } => RequestView::ReadFile {
                path: mount::mount_info_path(),
            },
            ResolveLocationView::Environment { .. } => RequestView::Environment,
            ResolveLocationView::Home { machine, .. } => ResolveHome::pending(machine),
            ResolveLocationView::Shared { mount_point, .. } => RequestView::SymlinkMetadata {
                path: shared_trash(mount_point),
            },
        }
    }

    open spec fn next(state: ResolveLocationView, reply: ReplyView) -> Step<
        ResolveLocationView,
        Result<TrashLocationView, ErrorView>,
    > {
        match (state, reply) {
            (ResolveLocationView::Mounts { path }, ReplyView::Bytes(contents)) => with_mounts(
                path,
                Ok(contents),
            ),
            (ResolveLocationView::Mounts { path }, ReplyView::Failed(source)) => with_mounts(
                path,
                Err(source),
            ),
            (
                ResolveLocationView::Environment { path, mounts },
                ReplyView::Environment(environment),
            ) => with_environment(path, mounts, environment),
            (ResolveLocationView::Home { path, mounts, user_id, machine }, reply) => {
                match ResolveHome::next(machine, reply) {
                    Step::Continue(machine) => Step::Continue(
                        ResolveLocationView::Home { path, mounts, user_id, machine },
                    ),
                    Step::Finish(Ok(home_trash)) => select_location(
                        path,
                        mounts,
                        home_trash,
                        user_id,
                    ),
                    Step::Finish(Err(error)) => Step::Finish(Err(error)),
                }
            },
            (
                ResolveLocationView::Shared { user_id, mount_point },
                ReplyView::Metadata(metadata),
            ) => Step::Finish(
                Ok(
                    TrashLocationView::External {
                        path: external_trash(mount_point, user_id, Some(metadata)),
                        mount_point,
                    },
                ),
            ),
            (ResolveLocationView::Shared { user_id, mount_point }, ReplyView::Failed(_)) => {
                Step::Finish(
                    Ok(
                        TrashLocationView::External {
                            path: external_trash(mount_point, user_id, None),
                            mount_point,
                        },
                    ),
                )
            },
            _ => Step::Continue(state),
        }
    }

    proof fn other_replies_change_nothing(state: ResolveLocationView, reply: ReplyView) {
        if let ResolveLocationView::Home { machine, .. } = state {
            ResolveHome::other_replies_change_nothing(machine, reply);
        }
    }

    fn request(&self) -> (request: Request) {
        match self {
            ResolveLocation::Mounts { .. } => Request::ReadFile {
                path: PathBuf::from_bytes(to_ascii_bytes("/proc/self/mountinfo")),
            },
            ResolveLocation::Environment { .. } => Request::Environment,
            ResolveLocation::Home { machine, .. } => machine.request(),
            ResolveLocation::Shared { mount_point, .. } => Request::SymlinkMetadata {
                path: mount_point.as_path().join(to_ascii_bytes(".Trash").as_slice()),
            },
        }
    }

    fn step(self, reply: Reply) -> (step: Step<Self, Result<TrashLocation, Error>>) {
        match (self, reply) {
            (ResolveLocation::Mounts { path }, Reply::Bytes(contents)) => Self::with_mounts(
                path,
                Ok(contents),
            ),
            (ResolveLocation::Mounts { path }, Reply::Failed(source)) => Self::with_mounts(
                path,
                Err(source),
            ),
            (
                ResolveLocation::Environment { path, mounts },
                Reply::Environment(environment),
            ) => {
                let xdg_data_home = match &environment.xdg_data_home {
                    Some(bytes) => Some(bytes.as_slice()),
                    None => None,
                };
                let home = match &environment.home {
                    Some(bytes) => Some(bytes.as_slice()),
                    None => None,
                };
                match HomeTrashPath::resolve(xdg_data_home, home) {
                    Ok(trash) => {
                        let machine = trash.canonicalize_existing_parent();
                        let user_id = environment.user_id;
                        Step::Continue(ResolveLocation::Home { path, mounts, user_id, machine })
                    },
                    Err(error) => Step::Finish(Err(error)),
                }
            },
            (ResolveLocation::Home { path, mounts, user_id, machine }, reply) => {
                match machine.step(reply) {
                    Step::Continue(machine) => Step::Continue(
                        ResolveLocation::Home { path, mounts, user_id, machine },
                    ),
                    Step::Finish(Ok(home_trash)) => TrashLocation::select(
                        &path,
                        &mounts,
                        &home_trash,
                        user_id,
                    ),
                    Step::Finish(Err(error)) => Step::Finish(Err(error)),
                }
            },
            (ResolveLocation::Shared { user_id, mount_point }, Reply::Metadata(metadata)) => {
                Self::external(user_id, mount_point, Some(metadata))
            },
            (ResolveLocation::Shared { user_id, mount_point }, Reply::Failed(_)) => {
                Self::external(user_id, mount_point, None)
            },
            (machine, _) => Step::Continue(machine),
        }
    }
}

/// The path of the user's own trash is absolute, whatever the user has set.
pub proof fn home_trash_is_absolute(xdg_data_home: Option<Seq<u8>>, home: Option<Seq<u8>>)
    ensures
        home_trash(xdg_data_home, home) matches Ok(trash) ==> path::is_absolute(trash),
{
    reveal_strlit("Trash");
    reveal_strlit(".local/share/Trash");
}

/// A directory for the user's data that is not set to an absolute path is ignored.
pub proof fn relative_data_home_is_ignored(xdg_data_home: Seq<u8>, home: Option<Seq<u8>>)
    requires
        !path::is_absolute(xdg_data_home),
    ensures
        home_trash(Some(xdg_data_home), home) == home_trash(None, home),
{
}

/// Where an item was on another filesystem is told relative to the mount point and without `..`:
/// joined to the mount point, it names the item again.
pub proof fn original_locations_lead_back(
    trash: ExternalTrashPathView,
    mount_point: Seq<u8>,
    path: Seq<u8>,
)
    requires
        path::components(mount_point).len() > 0,
    ensures
        original_location(
            TrashLocationView::External { path: trash, mount_point },
            path,
        ) matches Ok(original) ==> {
            &&& original.len() > 0
            &&& !path::is_absolute(original)
            &&& !path::names(original).contains(seq![path::DOT, path::DOT])
            &&& path::components(path::join(mount_point, original)) == path::components(path)
        },
{
    path::stripping_a_prefix_is_undone_by_joining(path, mount_point);
}

proof fn lemma_trash_names(user_id: u32)
    ensures
        path::is_entry_name(text::ascii_bytes(".Trash"@)),
        path::is_entry_name(text::decimal(user_id as nat)),
        path::is_entry_name(text::ascii_bytes(".Trash-"@) + text::decimal(user_id as nat)),
{
    reveal_strlit(".Trash");
    reveal_strlit(".Trash-");
    text::lemma_decimal_digits(user_id as nat);
    let shared = text::ascii_bytes(".Trash"@);
    let digits = text::decimal(user_id as nat);
    let own = text::ascii_bytes(".Trash-"@) + digits;
    assert(shared.len() == 6 && own.len() > 7);
    assert(digits[0] != path::DOT);
    assert(!own.contains(path::SEPARATOR)) by {
        if own.contains(path::SEPARATOR) {
            let i = choose|i: int| 0 <= i < own.len() && own[i] == path::SEPARATOR;
            assert(i >= 7);
            assert(own[i] == digits[i - 7]);
        }
    }
    assert(!path::is_dots(digits)) by {
        if digits == seq![path::DOT] || digits == seq![path::DOT, path::DOT] {
            assert(digits[0] == path::DOT);
        }
    }
}

/// A trash on another filesystem lies below the mount point, and so does the one to fall back to.
pub proof fn external_trash_lies_below_the_mount_point(
    top_dir: Seq<u8>,
    user_id: u32,
    shared: Option<Metadata>,
)
    ensures
        ({
            let trash = external_trash(top_dir, user_id, shared);
            &&& path::starts_with(trash.path, top_dir)
            &&& trash.path.len() > 0
            &&& trash.fallback_path matches Some(fallback) ==> path::starts_with(fallback, top_dir)
        }),
{
    lemma_trash_names(user_id);
    let shared_name = text::ascii_bytes(".Trash"@);
    let digits = text::decimal(user_id as nat);
    let own_name = text::ascii_bytes(".Trash-"@) + digits;
    path::a_joined_name_is_the_file_name(top_dir, own_name);
    path::a_joined_name_is_the_file_name(top_dir, shared_name);
    path::a_joined_name_is_the_file_name(path::join(top_dir, shared_name), digits);
    let top = path::components(top_dir);
    let own = path::components(path::join(top_dir, own_name));
    assert(own.subrange(0, top.len() as int) =~= top);
    let inner = path::components(path::join(path::join(top_dir, shared_name), digits));
    assert(inner.subrange(0, top.len() as int) =~= top);
}

/// The path of the user's own trash, resolved: what follows the directory that was resolved is
/// kept.
pub open spec fn is_resolved_below(
    past: Seq<Exchange>,
    trash: Seq<u8>,
    ancestor: Seq<u8>,
    resolved: Seq<u8>,
) -> bool {
    exists|base: Seq<u8>| #[trigger]
        past.contains(
            machine::exchange(
                RequestView::Canonicalize { path: ancestor },
                ReplyView::Path(base),
            ),
        ) && path::strip_prefix(trash, ancestor) is Some && resolved == path::join(
            base,
            path::strip_prefix(trash, ancestor)->0,
        )
}

/// The path at depth 0, its parent at depth 1, the parent of that at depth 2, and so on.
pub open spec fn ancestor_at(path: Seq<u8>, depth: nat) -> Option<Seq<u8>>
    decreases depth,
{
    if depth == 0 {
        Some(path)
    } else {
        match ancestor_at(path, (depth - 1) as nat) {
            Some(below) => path::parent(below),
            None => None,
        }
    }
}

/// The path was found not to exist.
pub open spec fn is_missing(past: Seq<Exchange>, path: Seq<u8>) -> bool {
    exists|source: IoErrorView|
        source.kind == ErrorKind::NotFound && #[trigger] past.contains(
            machine::exchange(RequestView::Canonicalize { path }, ReplyView::Failed(source)),
        )
}

/// The path, and the first of those above it, were all found not to exist.
#[verifier::opaque]
pub open spec fn are_missing(past: Seq<Exchange>, path: Seq<u8>, depth: nat) -> bool {
    forall|above: nat|
        above < depth ==> (#[trigger] ancestor_at(path, above) matches Some(ancestor)
            && is_missing(past, ancestor))
}

/// The directory at this depth was resolved, and what follows it on the path was kept. All that are
/// longer were found not to exist.
pub open spec fn is_resolved_at(
    past: Seq<Exchange>,
    trash: Seq<u8>,
    depth: nat,
    resolved: Seq<u8>,
) -> bool {
    &&& are_missing(past, trash, depth)
    &&& ancestor_at(trash, depth) matches Some(ancestor) && path::starts_with(trash, ancestor)
        && is_resolved_below(past, trash, ancestor, resolved)
}

/// Resolving the directory at this depth failed for another reason than that it does not exist. All
/// that are longer were found not to exist.
pub open spec fn is_unresolved_at(
    past: Seq<Exchange>,
    trash: Seq<u8>,
    depth: nat,
    path: Seq<u8>,
    source: IoErrorView,
) -> bool {
    &&& are_missing(past, trash, depth)
    &&& ancestor_at(trash, depth) == Some(path)
    &&& source.kind != ErrorKind::NotFound
    &&& past.contains(
        machine::exchange(RequestView::Canonicalize { path }, ReplyView::Failed(source)),
    )
}

/// The longest directory on the path that exists was resolved, and what follows it was kept.
pub open spec fn is_resolved(past: Seq<Exchange>, trash: Seq<u8>, resolved: Seq<u8>) -> bool {
    exists|depth: nat| is_resolved_at(past, trash, depth, resolved)
}

/// Resolving the longest directory on the path that may exist failed.
pub open spec fn is_unresolved(
    past: Seq<Exchange>,
    trash: Seq<u8>,
    path: Seq<u8>,
    source: IoErrorView,
) -> bool {
    exists|depth: nat| is_unresolved_at(past, trash, depth, path, source)
}

/// None of the directories on the path exists.
pub open spec fn all_are_missing(past: Seq<Exchange>, trash: Seq<u8>, depth: nat) -> bool {
    &&& are_missing(past, trash, depth)
    &&& ancestor_at(trash, depth) is None
}

/// How the resolution of the path of the user's own trash ends.
pub open spec fn is_home_result(
    past: Seq<Exchange>,
    trash: Seq<u8>,
    result: Result<Seq<u8>, ErrorView>,
) -> bool {
    match result {
        Ok(resolved) => is_resolved(past, trash, resolved),
        Err(ErrorView::Io { path, source }) => is_unresolved(past, trash, path, source),
        Err(ErrorView::Platform { path, message }) => path == trash && message
            == "Path has no existing parent: "@ + text::lossy_text(trash) && exists|depth: nat|
            all_are_missing(past, trash, depth),
        Err(_) => false,
    }
}

spec fn is_tried_at(past: Seq<Exchange>, trash: Seq<u8>, depth: nat, ancestor: Seq<u8>) -> bool {
    &&& are_missing(past, trash, depth)
    &&& ancestor_at(trash, depth) == Some(ancestor)
}

spec fn home_holds(trash: Seq<u8>, stage: Stage<ResolveHome>, past: Seq<Exchange>) -> bool {
    match stage {
        Step::Continue(state) => {
            &&& state.trash == trash
            &&& path::starts_with(trash, state.ancestor)
            &&& exists|depth: nat| is_tried_at(past, trash, depth, state.ancestor)
        },
        Step::Finish(result) => is_home_result(past, trash, result),
    }
}

proof fn lemma_still_missing(past: Seq<Exchange>, last: Exchange, path: Seq<u8>, depth: nat)
    requires
        are_missing(past, path, depth),
    ensures
        are_missing(past.push(last), path, depth),
{
    reveal(are_missing);
    let more = past.push(last);
    machine::lemma_past_grows(past, last);
    assert forall|above: nat| above < depth implies (
    #[trigger] ancestor_at(path, above) matches Some(ancestor) && is_missing(more, ancestor)) by {
        let ancestor = ancestor_at(path, above)->0;
        let source = choose|source: IoErrorView|
            source.kind == ErrorKind::NotFound && #[trigger] past.contains(
                machine::exchange(
                    RequestView::Canonicalize { path: ancestor },
                    ReplyView::Failed(source),
                ),
            );
        assert(more.contains(
            machine::exchange(
                RequestView::Canonicalize { path: ancestor },
                ReplyView::Failed(source),
            ),
        ));
    }
}

proof fn lemma_home_step(
    trash: Seq<u8>,
    state: ResolveHomeView,
    past: Seq<Exchange>,
    reply: ReplyView,
)
    requires
        home_holds(trash, Step::Continue(state), past),
    ensures
        home_holds(
            trash,
            ResolveHome::next(state, reply),
            past.push(machine::exchange(ResolveHome::pending(state), reply)),
        ),
{
    let last = machine::exchange(ResolveHome::pending(state), reply);
    let more = past.push(last);
    let depth = choose|depth: nat| is_tried_at(past, trash, depth, state.ancestor);
    machine::lemma_past_grows(past, last);
    lemma_still_missing(past, last, trash, depth);
    match reply {
        ReplyView::Path(base) => {
            assert(path::strip_prefix(trash, state.ancestor) is Some);
            let resolved = path::join(base, path::strip_prefix(trash, state.ancestor)->0);
            assert(is_resolved_below(more, trash, state.ancestor, resolved));
            assert(is_resolved_at(more, trash, depth, resolved));
        },
        ReplyView::Failed(source) => {
            if source.kind != ErrorKind::NotFound {
                assert(is_unresolved_at(more, trash, depth, state.ancestor, source));
            } else {
                let next = depth + 1;
                assert(is_missing(more, state.ancestor));
                assert(ancestor_at(trash, next) == path::parent(state.ancestor));
                assert(are_missing(more, trash, next)) by {
                    reveal(are_missing);
                }
                path::parent_has_all_components_but_the_last(state.ancestor);
                match path::parent(state.ancestor) {
                    Some(above) => {
                        let all = path::components(trash);
                        let fewer = path::components(above);
                        assert(all.subrange(0, fewer.len() as int) =~= fewer);
                        assert(is_tried_at(more, trash, next, above));
                    },
                    None => {
                        assert(all_are_missing(more, trash, next));
                    },
                }
            }
        },
        _ => {
            assert(is_tried_at(more, trash, depth, state.ancestor));
        },
    }
}

/// Resolving the path of the user's own trash resolves the longest directory on that path that
/// exists, as those below it were all found not to exist, and keeps what follows it. It fails only
/// where resolving that directory fails for another reason than that it does not exist, or where
/// all directories on the path were found not to exist.
pub proof fn home_trash_is_resolved_below_the_longest_directory_on_its_path(
    trash: Seq<u8>,
    replies: Seq<ReplyView>,
    result: Result<Seq<u8>, ErrorView>,
)
    requires
        machine::after::<ResolveHome>(
            Step::Continue(ResolveHomeView { trash, ancestor: trash }),
            replies,
        ) == Step::<ResolveHomeView, Result<Seq<u8>, ErrorView>>::Finish(result),
    ensures
        is_home_result(
            machine::history::<ResolveHome>(
                Step::Continue(ResolveHomeView { trash, ancestor: trash }),
                replies,
            ),
            trash,
            result,
        ),
{
    let start = Step::Continue(ResolveHomeView { trash, ancestor: trash });
    let holds = |stage: Stage<ResolveHome>, past: Seq<Exchange>| home_holds(trash, stage, past);
    assert(path::starts_with(trash, trash)) by {
        let all = path::components(trash);
        assert(all.subrange(0, all.len() as int) =~= all);
    }
    assert(is_tried_at(Seq::empty(), trash, 0, trash)) by {
        reveal(are_missing);
    }
    assert(holds(start, Seq::empty()));
    assert forall|state: ResolveHomeView, past: Seq<Exchange>, reply: ReplyView|
        #![trigger holds(Step::Continue(state), past), ResolveHome::next(state, reply)]
        holds(Step::Continue(state), past) implies holds(
        ResolveHome::next(state, reply),
        past.push(machine::exchange(ResolveHome::pending(state), reply)),
    ) by {
        lemma_home_step(trash, state, past, reply);
    }
    machine::lemma_invariant::<ResolveHome>(start, replies, holds);
}

/// The mount points were read from the system's table.
pub open spec fn are_mounts(past: Seq<Exchange>, mounts: Seq<Seq<u8>>) -> bool {
    exists|contents: Seq<u8>| #[trigger]
        past.contains(
            machine::exchange(
                RequestView::ReadFile { path: mount::mount_info_path() },
                ReplyView::Bytes(contents),
            ),
        ) && mount::mounts_read(Ok(contents)) == Ok::<Seq<Seq<u8>>, ErrorView>(mounts)
}

/// The trash is on the filesystem that holds the item, and the item is not that filesystem's mount
/// point.
pub open spec fn is_trash_for(
    item: Seq<u8>,
    mounts: Seq<Seq<u8>>,
    location: TrashLocationView,
) -> bool {
    match location {
        TrashLocationView::Home { path, mount_point } => {
            &&& mount::first_mount_of(mounts, item) == Some(mount_point)
            &&& path::components(item) != path::components(mount_point)
            &&& mount::first_mount_of(mounts, path) matches Some(home_mount) && path::components(
                home_mount,
            ) == path::components(mount_point)
        },
        TrashLocationView::External { path, mount_point } => {
            &&& mount::first_mount_of(mounts, item) == Some(mount_point)
            &&& path::components(item) != path::components(mount_point)
            &&& path::starts_with(path.path, mount_point)
            &&& path.fallback_path matches Some(fallback) ==> path::starts_with(
                fallback,
                mount_point,
            )
        },
    }
}

/// The name of an entry, as a component.
pub open spec fn named(name: Seq<char>) -> path::Component {
    path::Component::Name(text::ascii_bytes(name))
}

/// The path is that of the user's own trash: `Trash` in the directory for the user's data, where
/// that is set to an absolute path, and else `.local/share/Trash` below the home directory.
pub open spec fn is_home_trash(environment: EnvironmentView, trash: Seq<u8>) -> bool {
    if environment.xdg_data_home is Some && path::is_absolute(environment.xdg_data_home->0) {
        path::components(trash) == path::components(environment.xdg_data_home->0).push(
            named("Trash"@),
        )
    } else {
        &&& environment.home is Some
        &&& path::is_absolute(environment.home->0)
        &&& path::components(trash) == path::components(environment.home->0).push(
            named(".local"@),
        ).push(named("share"@)).push(named("Trash"@))
    }
}

/// There is a path of the user's own trash exactly where one of the two directories is set to an
/// absolute path, and it is the one that is meant.
pub proof fn home_trash_is_below_a_directory_of_the_user(environment: EnvironmentView)
    ensures
        home_trash(environment.xdg_data_home, environment.home) matches Ok(trash)
            ==> is_home_trash(environment, trash),
        home_trash(environment.xdg_data_home, environment.home) matches Err(error) ==> error == (
        ErrorView::Platform {
            path: Seq::empty(),
            message: "No absolute XDG_DATA_HOME or HOME is available"@,
        }),
        home_trash(environment.xdg_data_home, environment.home) is Err <==> {
            &&& environment.xdg_data_home is Some ==> !path::is_absolute(
                environment.xdg_data_home->0,
            )
            &&& environment.home is Some ==> !path::is_absolute(environment.home->0)
        },
{
    reveal_strlit("Trash");
    reveal_strlit(".local");
    reveal_strlit("share");
    reveal_strlit(".local/share/Trash");
    let last = text::ascii_bytes("Trash"@);
    let first = text::ascii_bytes(".local"@);
    let second = text::ascii_bytes("share"@);
    let below = text::ascii_bytes(".local/share/Trash"@);
    assert(last.len() == 5 && first.len() == 6 && second.len() == 5);
    lemma_is_entry_name(last);
    lemma_is_entry_name(first);
    lemma_is_entry_name(second);
    if environment.xdg_data_home is Some && path::is_absolute(environment.xdg_data_home->0) {
        path::a_joined_name_is_the_file_name(environment.xdg_data_home->0, last);
    } else if environment.home is Some && path::is_absolute(environment.home->0) {
        let home = environment.home->0;
        path::a_joined_name_is_the_file_name(home, first);
        path::a_joined_name_is_the_file_name(path::join(home, first), second);
        path::a_joined_name_is_the_file_name(path::join(path::join(home, first), second), last);
        assert(path::join(home, below) =~= path::join(
            path::join(path::join(home, first), second),
            last,
        ));
    }
}

proof fn lemma_is_entry_name(name: Seq<u8>)
    requires
        name.len() > 2,
        forall|i: int| 0 <= i < name.len() ==> #[trigger] name[i] != path::SEPARATOR,
    ensures
        path::is_entry_name(name),
{
}

/// The entry can be the directory in which users share a trash: it is a directory, no symbolic
/// link, and keeps users from removing each other's entries.
pub open spec fn is_fit_to_share(metadata: Metadata) -> bool {
    metadata.is_dir && !metadata.is_symlink && metadata.mode & 0o1000 != 0
}

/// The user's own trash at the top of a filesystem has the user's number in its name.
pub open spec fn is_own_trash(top_dir: Seq<u8>, user_id: u32, trash: Seq<u8>) -> bool {
    exists|digits: Seq<u8>| #[trigger]
        writes(digits, user_id) && path::components(trash) == path::components(top_dir).push(
            path::Component::Name(text::ascii_bytes(".Trash-"@) + digits),
        )
}

/// The user's trash in the directory that users share has the user's number for a name.
pub open spec fn is_trash_in_shared(top_dir: Seq<u8>, user_id: u32, trash: Seq<u8>) -> bool {
    exists|digits: Seq<u8>| #[trigger]
        writes(digits, user_id) && path::components(trash) == path::components(top_dir).push(
            named(".Trash"@),
        ).push(path::Component::Name(digits))
}

/// The digits write the number, with no needless zero in front.
pub open spec fn writes(digits: Seq<u8>, number: u32) -> bool {
    &&& digits.len() > 0
    &&& text::are_digits(digits)
    &&& digits.len() > 1 ==> digits[0] != 0x30
    &&& text::decimal_value(digits) == number
}

/// On another filesystem, a user's trash is in the directory that users share, where that is fit,
/// and then the user's own at the top of the filesystem is the one to fall back to. Else that one
/// is the trash, and there is no other.
pub proof fn external_trash_is_shared_where_that_is_fit(
    top_dir: Seq<u8>,
    user_id: u32,
    shared: Option<Metadata>,
)
    ensures
        ({
            let trash = external_trash(top_dir, user_id, shared);
            if shared is Some && is_fit_to_share(shared->0) {
                &&& is_trash_in_shared(top_dir, user_id, trash.path)
                &&& trash.fallback_path is Some
                &&& is_own_trash(top_dir, user_id, trash.fallback_path->0)
            } else {
                &&& is_own_trash(top_dir, user_id, trash.path)
                &&& trash.fallback_path is None
            }
        }),
        path::components(shared_trash(top_dir)) == path::components(top_dir).push(
            named(".Trash"@),
        ),
{
    lemma_trash_names(user_id);
    let shared_name = text::ascii_bytes(".Trash"@);
    let digits = text::decimal(user_id as nat);
    text::decimals_are_read_back(user_id as nat);
    assert(writes(digits, user_id));
    path::a_joined_name_is_the_file_name(top_dir, text::ascii_bytes(".Trash-"@) + digits);
    path::a_joined_name_is_the_file_name(top_dir, shared_name);
    path::a_joined_name_is_the_file_name(path::join(top_dir, shared_name), digits);
}

/// The user's own trash, as the system told of the user's directories, with the links on its path
/// resolved.
pub open spec fn is_resolved_home(
    past: Seq<Exchange>,
    environment: EnvironmentView,
    home: Seq<u8>,
) -> bool {
    exists|trash: Seq<u8>| #[trigger]
        is_home_trash(environment, trash) && is_resolved(past, trash, home)
}

/// The answer tells that the directory that users share is fit.
pub open spec fn is_fit_answer(reply: ReplyView) -> bool {
    reply matches ReplyView::Metadata(metadata) && is_fit_to_share(metadata)
}

/// The system was asked for the directory that users of the filesystem share, and gave this answer.
pub open spec fn is_shared_answer(
    past: Seq<Exchange>,
    mount_point: Seq<u8>,
    reply: ReplyView,
) -> bool {
    &&& reply is Metadata || reply is Failed
    &&& past.contains(
        machine::exchange(RequestView::SymlinkMetadata { path: shared_trash(mount_point) }, reply),
    )
}

/// The trash is the one that the item goes to, by what the system told of the user, of the user's
/// directories, and of the directory that users of the filesystem share.
pub open spec fn is_chosen_for(
    past: Seq<Exchange>,
    mounts: Seq<Seq<u8>>,
    environment: EnvironmentView,
    home: Seq<u8>,
    location: TrashLocationView,
) -> bool {
    &&& past.contains(
        machine::exchange(RequestView::Environment, ReplyView::Environment(environment)),
    )
    &&& is_resolved_home(past, environment, home)
    &&& match location {
        TrashLocationView::Home { path, .. } => path == home,
        TrashLocationView::External { path, mount_point } => {
            &&& mount::first_mount_of(mounts, home) matches Some(home_mount) && path::components(
                home_mount,
            ) != path::components(mount_point)
            &&& if path.fallback_path is Some {
                &&& is_told_of_shared(past, mount_point, true)
                &&& is_trash_in_shared(mount_point, environment.user_id, path.path)
                &&& is_own_trash(mount_point, environment.user_id, path.fallback_path->0)
            } else {
                &&& is_told_of_shared(past, mount_point, false)
                &&& is_own_trash(mount_point, environment.user_id, path.path)
            }
        },
    }
}

/// The system told whether the directory that users of the filesystem share is fit.
pub open spec fn is_told_of_shared(
    past: Seq<Exchange>,
    mount_point: Seq<u8>,
    is_fit: bool,
) -> bool {
    exists|reply: ReplyView| #[trigger]
        is_shared_answer(past, mount_point, reply) && is_fit_answer(reply) == is_fit
}

/// The mounts, the user's directories and the user's own trash are known, by which the trash for an
/// item is chosen.
pub open spec fn is_chosen(
    past: Seq<Exchange>,
    item: Seq<u8>,
    location: TrashLocationView,
) -> bool {
    exists|mounts: Seq<Seq<u8>>, environment: EnvironmentView, home: Seq<u8>|
        are_mounts(past, mounts) && is_trash_for(item, mounts, location) && #[trigger]
            is_chosen_for(past, mounts, environment, home, location)
}

/// Why there is no trash for an item: the system failed, the mount table is unreadable or empty,
/// the user has no directory, no directory on the path of the user's own trash exists, no mount
/// point holds the item or that trash, or the item is a mount point.
pub open spec fn is_location_fault(past: Seq<Exchange>, item: Seq<u8>, error: ErrorView) -> bool {
    ||| is_mount_fault(past, error)
    ||| exists|environment: EnvironmentView| #[trigger] is_user_fault(past, environment, error)
    ||| exists|mounts: Seq<Seq<u8>>, environment: EnvironmentView, home: Seq<u8>| #[trigger]
        is_choice_fault(past, item, mounts, environment, home, error)
}

/// The mount table could not be read, or lists no mount point.
pub open spec fn is_mount_fault(past: Seq<Exchange>, error: ErrorView) -> bool {
    ||| error matches ErrorView::Io { path, source } && past.contains(
        machine::exchange(RequestView::ReadFile { path }, ReplyView::Failed(source)),
    )
    ||| exists|contents: Seq<u8>| #[trigger]
        past.contains(
            machine::exchange(
                RequestView::ReadFile { path: mount::mount_info_path() },
                ReplyView::Bytes(contents),
            ),
        ) && mount::mounts_read(Ok(contents)) == Err::<Seq<Seq<u8>>, ErrorView>(error)
}

/// The user has no directory for a trash, or its path could not be resolved.
pub open spec fn is_user_fault(
    past: Seq<Exchange>,
    environment: EnvironmentView,
    error: ErrorView,
) -> bool {
    &&& past.contains(
        machine::exchange(RequestView::Environment, ReplyView::Environment(environment)),
    )
    &&& match home_trash(environment.xdg_data_home, environment.home) {
        Err(fault) => error == fault,
        Ok(trash) => is_home_result(past, trash, Err(error)),
    }
}

/// No mount point holds the item or the user's own trash, or the item is a mount point.
pub open spec fn is_choice_fault(
    past: Seq<Exchange>,
    item: Seq<u8>,
    mounts: Seq<Seq<u8>>,
    environment: EnvironmentView,
    home: Seq<u8>,
    error: ErrorView,
) -> bool {
    &&& are_mounts(past, mounts)
    &&& past.contains(
        machine::exchange(RequestView::Environment, ReplyView::Environment(environment)),
    )
    &&& is_resolved_home(past, environment, home)
    &&& match error {
        ErrorView::TargetedRoot { path } => path == item && (mount::first_mount_of(
            mounts,
            item,
        ) matches Some(mount_point) && path::components(item) == path::components(mount_point)),
        ErrorView::Platform { path, message } => (path == item || path == home)
            && mount::first_mount_of(mounts, path) is None && message
            == "No mount point found for "@ + text::lossy_text(path),
        _ => false,
    }
}

/// What holds while the trash for an item is chosen.
pub closed spec fn choice_holds(
    item: Seq<u8>,
    stage: Stage<ResolveLocation>,
    past: Seq<Exchange>,
) -> bool {
    match stage {
        Step::Continue(ResolveLocationView::Mounts { path }) => path == item,
        Step::Continue(ResolveLocationView::Environment { path, mounts }) => path == item
            && are_mounts(past, mounts),
        Step::Continue(ResolveLocationView::Home { path, mounts, user_id, machine }) => {
            &&& path == item
            &&& are_mounts(past, mounts)
            &&& home_holds(machine.trash, Step::Continue(machine), past)
            &&& is_user_known(past, user_id, machine.trash)
        },
        Step::Continue(ResolveLocationView::Shared { user_id, mount_point }) => is_shared_next(
            past,
            item,
            user_id,
            mount_point,
        ),
        Step::Finish(Ok(location)) => is_chosen(past, item, location),
        Step::Finish(Err(error)) => is_location_fault(past, item, error),
    }
}

/// The user and the path of the user's own trash are known.
spec fn is_user_known(past: Seq<Exchange>, user_id: u32, trash: Seq<u8>) -> bool {
    exists|environment: EnvironmentView| #[trigger]
        is_environment(past, environment) && environment.user_id == user_id && home_trash(
            environment.xdg_data_home,
            environment.home,
        ) == Ok::<Seq<u8>, ErrorView>(trash)
}

spec fn is_environment(past: Seq<Exchange>, environment: EnvironmentView) -> bool {
    past.contains(
        machine::exchange(RequestView::Environment, ReplyView::Environment(environment)),
    )
}

/// The trash is on another filesystem than the user's own.
spec fn is_shared_next(
    past: Seq<Exchange>,
    item: Seq<u8>,
    user_id: u32,
    mount_point: Seq<u8>,
) -> bool {
    exists|mounts: Seq<Seq<u8>>, environment: EnvironmentView, home: Seq<u8>| #[trigger]
        is_on_another(past, item, mounts, environment, home, user_id, mount_point)
}

spec fn is_on_another(
    past: Seq<Exchange>,
    item: Seq<u8>,
    mounts: Seq<Seq<u8>>,
    environment: EnvironmentView,
    home: Seq<u8>,
    user_id: u32,
    mount_point: Seq<u8>,
) -> bool {
    &&& are_mounts(past, mounts)
    &&& mount::first_mount_of(mounts, item) == Some(mount_point)
    &&& path::components(item) != path::components(mount_point)
    &&& is_environment(past, environment)
    &&& environment.user_id == user_id
    &&& is_resolved_home(past, environment, home)
    &&& mount::first_mount_of(mounts, home) matches Some(home_mount) && path::components(home_mount)
        != path::components(mount_point)
}

proof fn lemma_resolved_stays(past: Seq<Exchange>, last: Exchange, trash: Seq<u8>, home: Seq<u8>)
    requires
        is_resolved(past, trash, home),
    ensures
        is_resolved(past.push(last), trash, home),
{
    let more = past.push(last);
    machine::lemma_past_grows(past, last);
    let depth = choose|depth: nat| is_resolved_at(past, trash, depth, home);
    lemma_still_missing(past, last, trash, depth);
    let ancestor = ancestor_at(trash, depth)->0;
    let base = choose|base: Seq<u8>| #[trigger]
        past.contains(
            machine::exchange(
                RequestView::Canonicalize { path: ancestor },
                ReplyView::Path(base),
            ),
        ) && path::strip_prefix(trash, ancestor) is Some && home == path::join(
            base,
            path::strip_prefix(trash, ancestor)->0,
        );
    assert(more.contains(
        machine::exchange(RequestView::Canonicalize { path: ancestor }, ReplyView::Path(base)),
    ));
    assert(is_resolved_below(more, trash, ancestor, home));
    assert(is_resolved_at(more, trash, depth, home));
}

proof fn lemma_still_on_another(
    past: Seq<Exchange>,
    last: Exchange,
    item: Seq<u8>,
    user_id: u32,
    mount_point: Seq<u8>,
)
    requires
        is_shared_next(past, item, user_id, mount_point),
    ensures
        is_shared_next(past.push(last), item, user_id, mount_point),
{
    let more = past.push(last);
    machine::lemma_past_grows(past, last);
    let (mounts, environment, home) = choose|
        mounts: Seq<Seq<u8>>,
        environment: EnvironmentView,
        home: Seq<u8>,
    | #[trigger]
        is_on_another(past, item, mounts, environment, home, user_id, mount_point);
    let trash = choose|trash: Seq<u8>| #[trigger]
        is_home_trash(environment, trash) && is_resolved(past, trash, home);
    lemma_resolved_stays(past, last, trash, home);
    assert(is_home_trash(environment, trash));
    assert(is_on_another(more, item, mounts, environment, home, user_id, mount_point));
}

proof fn lemma_shared_chosen(
    past: Seq<Exchange>,
    item: Seq<u8>,
    user_id: u32,
    mount_point: Seq<u8>,
    reply: ReplyView,
)
    requires
        is_shared_next(past, item, user_id, mount_point),
        is_shared_answer(past, mount_point, reply),
    ensures
        ({
            let shared = if let ReplyView::Metadata(metadata) = reply {
                Some(metadata)
            } else {
                None
            };
            is_chosen(
                past,
                item,
                TrashLocationView::External {
                    path: external_trash(mount_point, user_id, shared),
                    mount_point,
                },
            )
        }),
{
    let shared = if let ReplyView::Metadata(metadata) = reply {
        Some(metadata)
    } else {
        None
    };
    let (mounts, environment, home) = choose|
        mounts: Seq<Seq<u8>>,
        environment: EnvironmentView,
        home: Seq<u8>,
    | #[trigger]
        is_on_another(past, item, mounts, environment, home, user_id, mount_point);
    external_trash_lies_below_the_mount_point(mount_point, user_id, shared);
    external_trash_is_shared_where_that_is_fit(mount_point, user_id, shared);
    assert(is_told_of_shared(past, mount_point, is_fit_answer(reply)));
    let location = TrashLocationView::External {
        path: external_trash(mount_point, user_id, shared),
        mount_point,
    };
    assert(is_trash_for(item, mounts, location));
    assert(is_chosen_for(past, mounts, environment, home, location));
}

/// The user's own trash is resolved, and the choice is made.
proof fn lemma_selected(
    past: Seq<Exchange>,
    item: Seq<u8>,
    mounts: Seq<Seq<u8>>,
    user_id: u32,
    trash: Seq<u8>,
    home: Seq<u8>,
)
    requires
        are_mounts(past, mounts),
        is_user_known(past, user_id, trash),
        is_resolved(past, trash, home),
    ensures
        choice_holds(item, select_location(item, mounts, home, user_id), past),
{
    let environment = choose|environment: EnvironmentView| #[trigger]
        is_environment(past, environment) && environment.user_id == user_id && home_trash(
            environment.xdg_data_home,
            environment.home,
        ) == Ok::<Seq<u8>, ErrorView>(trash);
    home_trash_is_below_a_directory_of_the_user(environment);
    assert(is_home_trash(environment, trash));
    assert(is_resolved_home(past, environment, home));
    match select_location(item, mounts, home, user_id) {
        Step::Finish(Ok(location)) => {
            assert(is_trash_for(item, mounts, location));
            assert(is_chosen_for(past, mounts, environment, home, location));
        },
        Step::Finish(Err(error)) => {
            assert(is_choice_fault(past, item, mounts, environment, home, error));
        },
        Step::Continue(ResolveLocationView::Shared { mount_point, .. }) => {
            assert(is_on_another(past, item, mounts, environment, home, user_id, mount_point));
        },
        _ => {},
    }
}

/// Choosing a trash keeps to what holds of it.
pub proof fn lemma_choice_step(
    item: Seq<u8>,
    state: ResolveLocationView,
    past: Seq<Exchange>,
    reply: ReplyView,
)
    requires
        choice_holds(item, Step::Continue(state), past),
    ensures
        choice_holds(
            item,
            ResolveLocation::next(state, reply),
            past.push(machine::exchange(ResolveLocation::pending(state), reply)),
        ),
{
    let last = machine::exchange(ResolveLocation::pending(state), reply);
    let more = past.push(last);
    machine::lemma_past_grows(past, last);
    assert forall|mounts: Seq<Seq<u8>>| #[trigger] are_mounts(past, mounts) implies are_mounts(
        more,
        mounts,
    ) by {}
    match state {
        ResolveLocationView::Mounts { path } => {
            match reply {
                ReplyView::Bytes(contents) => {
                    assert(more.contains(
                        machine::exchange(
                            RequestView::ReadFile { path: mount::mount_info_path() },
                            ReplyView::Bytes(contents),
                        ),
                    ));
                    match mount::mounts_read(Ok(contents)) {
                        Ok(mounts) => {
                            assert(are_mounts(more, mounts));
                        },
                        Err(error) => {
                            assert(is_mount_fault(more, error));
                        },
                    }
                },
                _ => {},
            }
        },
        ResolveLocationView::Environment { path, mounts } => {
            match reply {
                ReplyView::Environment(environment) => {
                    assert(is_environment(more, environment));
                    match home_trash(environment.xdg_data_home, environment.home) {
                        Ok(trash) => {
                            assert(is_user_known(more, environment.user_id, trash));
                            lemma_home_starts(more, trash);
                        },
                        Err(error) => {
                            assert(is_user_fault(more, environment, error));
                        },
                    }
                },
                _ => {},
            }
        },
        ResolveLocationView::Home { path, mounts, user_id, machine } => {
            lemma_home_step(machine.trash, machine, past, reply);
            let environment = choose|environment: EnvironmentView| #[trigger]
                is_environment(past, environment) && environment.user_id == user_id && home_trash(
                    environment.xdg_data_home,
                    environment.home,
                ) == Ok::<Seq<u8>, ErrorView>(machine.trash);
            assert(is_environment(more, environment));
            assert(is_user_known(more, user_id, machine.trash));
            match ResolveHome::next(machine, reply) {
                Step::Finish(Ok(home)) => {
                    lemma_selected(more, item, mounts, user_id, machine.trash, home);
                },
                Step::Finish(Err(error)) => {
                    assert(is_user_fault(more, environment, error));
                },
                Step::Continue(_) => {},
            }
        },
        ResolveLocationView::Shared { user_id, mount_point } => {
            lemma_still_on_another(past, last, item, user_id, mount_point);
            if reply is Metadata || reply is Failed {
                assert(is_shared_answer(more, mount_point, reply));
                lemma_shared_chosen(more, item, user_id, mount_point, reply);
            }
        },
    }
}

proof fn lemma_home_starts(past: Seq<Exchange>, trash: Seq<u8>)
    ensures
        home_holds(trash, Step::Continue(ResolveHomeView { trash, ancestor: trash }), past),
{
    assert(path::starts_with(trash, trash)) by {
        let all = path::components(trash);
        assert(all.subrange(0, all.len() as int) =~= all);
    }
    let depth: nat = 0;
    let state = ResolveHomeView { trash, ancestor: trash };
    assert(is_tried_at(past, trash, depth, state.ancestor)) by {
        reveal(are_missing);
    }
}

/// What holds of choosing a trash holds when that starts, and gives the trash, or the reason why
/// there is none, when it ends.
pub proof fn lemma_choice_starts(
    item: Seq<u8>,
    past: Seq<Exchange>,
    result: Result<TrashLocationView, ErrorView>,
)
    ensures
        choice_holds(item, Step::Continue(ResolveLocationView::Mounts { path: item }), past),
        choice_holds(item, Step::Finish(result), past) ==> match result {
            Ok(location) => is_chosen(past, item, location),
            Err(error) => is_location_fault(past, item, error),
        },
{
}

proof fn lemma_choice(item: Seq<u8>, replies: Seq<ReplyView>)
    ensures
        choice_holds(
            item,
            machine::after::<ResolveLocation>(
                Step::Continue(ResolveLocationView::Mounts { path: item }),
                replies,
            ),
            machine::history::<ResolveLocation>(
                Step::Continue(ResolveLocationView::Mounts { path: item }),
                replies,
            ),
        ),
{
    let start = Step::Continue(ResolveLocationView::Mounts { path: item });
    let holds = |stage: Stage<ResolveLocation>, past: Seq<Exchange>|
        choice_holds(item, stage, past);
    assert(holds(start, Seq::empty()));
    assert forall|state: ResolveLocationView, past: Seq<Exchange>, reply: ReplyView|
        #![trigger holds(Step::Continue(state), past), ResolveLocation::next(state, reply)]
        holds(Step::Continue(state), past) implies holds(
        ResolveLocation::next(state, reply),
        past.push(machine::exchange(ResolveLocation::pending(state), reply)),
    ) by {
        lemma_choice_step(item, state, past, reply);
    }
    machine::lemma_invariant::<ResolveLocation>(start, replies, holds);
}

/// What a trash was chosen by stays known.
pub proof fn lemma_chosen_stays(
    past: Seq<Exchange>,
    last: Exchange,
    item: Seq<u8>,
    location: TrashLocationView,
)
    requires
        is_chosen(past, item, location),
    ensures
        is_chosen(past.push(last), item, location),
{
    let more = past.push(last);
    machine::lemma_past_grows(past, last);
    let (mounts, environment, home) = choose|
        mounts: Seq<Seq<u8>>,
        environment: EnvironmentView,
        home: Seq<u8>,
    |
        are_mounts(past, mounts) && is_trash_for(item, mounts, location) && #[trigger]
            is_chosen_for(past, mounts, environment, home, location);
    assert(are_mounts(more, mounts));
    let trash = choose|trash: Seq<u8>| #[trigger]
        is_home_trash(environment, trash) && is_resolved(past, trash, home);
    lemma_resolved_stays(past, last, trash, home);
    assert(is_home_trash(environment, trash));
    assert(is_resolved_home(more, environment, home));
    if let TrashLocationView::External { path, mount_point } = location {
        let is_fit = path.fallback_path is Some;
        let reply = choose|reply: ReplyView| #[trigger]
            is_shared_answer(past, mount_point, reply) && is_fit_answer(reply) == is_fit;
        assert(is_shared_answer(more, mount_point, reply));
        assert(is_told_of_shared(more, mount_point, is_fit));
    }
    assert(is_chosen_for(more, mounts, environment, home, location));
}

/// The trash that is found for an item follows from what the system told: it is the user's own,
/// with the links on its path resolved, where that is on the filesystem that holds the item. Else
/// it is below the mount point of that filesystem, in the directory that users share where that is
/// fit, and has the user's number in its name.
pub proof fn trash_is_chosen_by_what_the_system_told(
    item: Seq<u8>,
    replies: Seq<ReplyView>,
    location: TrashLocationView,
)
    requires
        machine::after::<ResolveLocation>(
            Step::Continue(ResolveLocationView::Mounts { path: item }),
            replies,
        ) == Step::<ResolveLocationView, Result<TrashLocationView, ErrorView>>::Finish(
            Ok(location),
        ),
    ensures
        is_chosen(
            machine::history::<ResolveLocation>(
                Step::Continue(ResolveLocationView::Mounts { path: item }),
                replies,
            ),
            item,
            location,
        ),
{
    lemma_choice(item, replies);
}

/// There is no trash for an item only for a reason that the system told.
pub proof fn missing_trash_has_a_reason(
    item: Seq<u8>,
    replies: Seq<ReplyView>,
    error: ErrorView,
)
    requires
        machine::after::<ResolveLocation>(
            Step::Continue(ResolveLocationView::Mounts { path: item }),
            replies,
        ) == Step::<ResolveLocationView, Result<TrashLocationView, ErrorView>>::Finish(
            Err(error),
        ),
    ensures
        is_location_fault(
            machine::history::<ResolveLocation>(
                Step::Continue(ResolveLocationView::Mounts { path: item }),
                replies,
            ),
            item,
            error,
        ),
{
    lemma_choice(item, replies);
}

/// It is known that the mount point holds the item, and is not the item itself.
pub open spec fn is_known_mount(past: Seq<Exchange>, item: Seq<u8>, mount_point: Seq<u8>) -> bool {
    exists|mounts: Seq<Seq<u8>>| #[trigger]
        are_mounts(past, mounts) && mount::first_mount_of(mounts, item) == Some(mount_point)
            && path::components(item) != path::components(mount_point)
}

/// What holds while the trash for an item is looked for.
pub open spec fn location_holds(
    item: Seq<u8>,
    stage: Stage<ResolveLocation>,
    past: Seq<Exchange>,
) -> bool {
    match stage {
        Step::Continue(ResolveLocationView::Mounts { path }) => path == item,
        Step::Continue(ResolveLocationView::Environment { path, mounts }) => path == item
            && are_mounts(past, mounts),
        Step::Continue(ResolveLocationView::Home { path, mounts, .. }) => path == item
            && are_mounts(past, mounts),
        Step::Continue(ResolveLocationView::Shared { mount_point, .. }) => is_known_mount(
            past,
            item,
            mount_point,
        ),
        Step::Finish(Ok(location)) => exists|mounts: Seq<Seq<u8>>| #[trigger]
            are_mounts(past, mounts) && is_trash_for(item, mounts, location),
        Step::Finish(Err(_)) => true,
    }
}

/// Looking for the trash keeps to what holds of it.
pub proof fn lemma_location_step(
    item: Seq<u8>,
    state: ResolveLocationView,
    past: Seq<Exchange>,
    reply: ReplyView,
)
    requires
        location_holds(item, Step::Continue(state), past),
    ensures
        location_holds(
            item,
            ResolveLocation::next(state, reply),
            past.push(machine::exchange(ResolveLocation::pending(state), reply)),
        ),
{
    let last = machine::exchange(ResolveLocation::pending(state), reply);
    let more = past.push(last);
    machine::lemma_past_grows(past, last);
    assert forall|mounts: Seq<Seq<u8>>| #[trigger] are_mounts(past, mounts) implies are_mounts(
        more,
        mounts,
    ) by {}
    match (state, reply) {
        (ResolveLocationView::Mounts { .. }, ReplyView::Bytes(contents)) => {
            if let Ok(mounts) = mount::mounts_read(Ok(contents)) {
                assert(are_mounts(more, mounts));
            }
        },
        (ResolveLocationView::Home { mounts, .. }, _) => {
            assert(are_mounts(more, mounts));
        },
        (ResolveLocationView::Shared { user_id, mount_point }, _) => {
            let mounts = choose|mounts: Seq<Seq<u8>>| #[trigger]
                are_mounts(past, mounts) && mount::first_mount_of(mounts, item) == Some(mount_point)
                    && path::components(item) != path::components(mount_point);
            assert(are_mounts(more, mounts));
            external_trash_lies_below_the_mount_point(mount_point, user_id, None);
            if let ReplyView::Metadata(metadata) = reply {
                external_trash_lies_below_the_mount_point(mount_point, user_id, Some(metadata));
            }
        },
        _ => {},
    }
}

/// The trash that is found for an item is on the filesystem that holds the item: the user's own
/// trash where that is on the same filesystem, and else one below the mount point. A mount point
/// itself has no trash.
pub proof fn trash_is_on_the_filesystem_of_the_item(
    item: Seq<u8>,
    replies: Seq<ReplyView>,
    location: TrashLocationView,
)
    requires
        machine::after::<ResolveLocation>(
            Step::Continue(ResolveLocationView::Mounts { path: item }),
            replies,
        ) == Step::<ResolveLocationView, Result<TrashLocationView, ErrorView>>::Finish(
            Ok(location),
        ),
    ensures
        exists|mounts: Seq<Seq<u8>>| #[trigger]
            are_mounts(
                machine::history::<ResolveLocation>(
                    Step::Continue(ResolveLocationView::Mounts { path: item }),
                    replies,
                ),
                mounts,
            ) && is_trash_for(item, mounts, location),
{
    let start = Step::Continue(ResolveLocationView::Mounts { path: item });
    let holds = |stage: Stage<ResolveLocation>, past: Seq<Exchange>|
        location_holds(item, stage, past);
    assert(holds(start, Seq::empty()));
    assert forall|state: ResolveLocationView, past: Seq<Exchange>, reply: ReplyView|
        #![trigger holds(Step::Continue(state), past), ResolveLocation::next(state, reply)]
        holds(Step::Continue(state), past) implies holds(
        ResolveLocation::next(state, reply),
        past.push(machine::exchange(ResolveLocation::pending(state), reply)),
    ) by {
        lemma_location_step(item, state, past, reply);
    }
    machine::lemma_invariant::<ResolveLocation>(start, replies, holds);
}

/// Where an item was is told by its full path in the user's own trash. On another filesystem it is
/// told exactly where the item is below the mount point, with no `..` on the way, and then by all
/// that follows the mount point. The error names the item, and its message tells which of the two
/// is not so.
pub proof fn original_locations_are_told(location: TrashLocationView, path: Seq<u8>)
    requires
        location matches TrashLocationView::External { mount_point, .. } ==> path::components(
            mount_point,
        ).len() > 0,
    ensures
        location is Home ==> original_location(location, path) == Ok::<Seq<u8>, ErrorView>(path),
        location matches TrashLocationView::External { mount_point, .. } ==> {
            let top = path::components(mount_point);
            let all = path::components(path);
            let below = all.skip(top.len() as int);
            &&& original_location(location, path) is Ok <==> {
                &&& top.len() < all.len()
                &&& all.take(top.len() as int) == top
                &&& !below.contains(path::Component::Name(seq![0x2eu8, 0x2eu8]))
            }
            &&& original_location(location, path) matches Ok(original) ==> path::components(
                original,
            ) == below
            &&& original_location(location, path) matches Err(error) ==> {
                error matches ErrorView::Platform { path: failed, message } && failed == path
                    && if !(top.len() <= all.len() && all.take(top.len() as int) == top) {
                    message == "Failed to make "@ + text::lossy_text(path) + " relative to "@
                        + text::lossy_text(mount_point) + ": prefix not found"@
                } else if top.len() == all.len() {
                    message == "Trash info original location is empty for "@ + text::lossy_text(
                        path,
                    )
                } else {
                    exists|rest: Seq<u8>|
                        path::components(rest) == below && message
                            == "Trash info path must not contain '..': "@
                            + #[trigger] text::lossy_text(rest)
                }
            }
        },
{
    if let TrashLocationView::External { mount_point, .. } = location {
        let top = path::components(mount_point);
        let all = path::components(path);
        path::paths_start_with_whole_components(path, mount_point);
        path::stripping_a_prefix_is_undone_by_joining(path, mount_point);
        if path::starts_with(path, mount_point) {
            path::stripped_paths_keep_the_other_components(path, mount_point);
            let rest = path::strip_prefix(path, mount_point)->0;
            let dots = seq![0x2eu8, 0x2eu8];
            let below = path::components(rest);
            assert(below =~= path::names(rest).map_values(
                |name: Seq<u8>| path::Component::Name(name),
            ));
            if path::names(rest).contains(dots) {
                let i = choose|i: int|
                    0 <= i < path::names(rest).len() && path::names(rest)[i] == dots;
                assert(below[i] == path::Component::Name(dots));
            }
            if below.contains(path::Component::Name(dots)) {
                let i = choose|i: int|
                    0 <= i < below.len() && below[i] == path::Component::Name(dots);
                assert(path::names(rest)[i] == dots);
            }
            if all.len() == top.len() {
                assert(all.take(top.len() as int) =~= all);
            }
        }
    }
}

/// Every answer leads on.
pub proof fn home_answers_lead_on(state: ResolveHomeView, reply: ReplyView)
    requires
        machine::fits(ResolveHome::pending(state), reply),
    ensures
        ResolveHome::next(state, reply) matches Step::Continue(next) ==> next != state,
{
    path::parent_has_all_components_but_the_last(state.ancestor);
}

/// Every answer leads on.
pub proof fn answers_lead_on(state: ResolveLocationView, reply: ReplyView)
    requires
        machine::fits(ResolveLocation::pending(state), reply),
    ensures
        ResolveLocation::next(state, reply) matches Step::Continue(next) ==> next != state,
{
    if let ResolveLocationView::Home { machine, .. } = state {
        home_answers_lead_on(machine, reply);
    }
}

} // verus!
