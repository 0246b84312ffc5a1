//! Bringing the directories of a trash into being.

use vstd::prelude::*;

use crate::error::{self, Error, ErrorKind, ErrorView, IoError};
use crate::machine::{
    self, Exchange, Machine, Metadata, Reply, ReplyView, Request, RequestView, Stage, Step,
};
use crate::path::{self, PathBuf};
use crate::platform::linux::permission::{self, has_sticky_bit, OWNER_RWX_MODE};
use crate::text::{self, to_ascii_bytes, to_lossy_text};

verus! {

/// The directories of a trash.
#[derive(Debug, PartialEq, Eq)]
pub struct TrashDirectory {
    /// The trash itself.
    pub path: PathBuf,
    /// The directory that holds the discarded items.
    pub files: PathBuf,
    /// The directory that holds what is known of the items.
    pub info: PathBuf,
}

/// What a [`TrashDirectory`] says.
pub struct TrashDirectoryView {
    pub path: Seq<u8>,
    pub files: Seq<u8>,
    pub info: Seq<u8>,
}

impl View for TrashDirectory {
    type V = TrashDirectoryView;

    open spec fn view(&self) -> TrashDirectoryView {
        TrashDirectoryView { path: self.path@, files: self.files@, info: self.info@ }
    }
}

/// The directories of the trash at a path.
pub open spec fn trash_at(path: Seq<u8>) -> TrashDirectoryView {
    TrashDirectoryView {
        path,
        files: path::join(path, text::ascii_bytes("files"@)),
        info: path::join(path, text::ascii_bytes("info"@)),
    }
}

/// One of the directories of a trash, in the order in which they are prepared.
#[derive(Clone, Copy, Debug, PartialEq, Eq, Structural)]
pub enum Part {
    /// The trash itself.
    Whole,
    /// The directory that holds the discarded items.
    Files,
    /// The directory that holds what is known of the items.
    Info,
}

impl Part {
    /// The part that is prepared after this one.
    pub open spec fn following(self) -> Option<Part> {
        match self {
            Part::Whole => Some(Part::Files),
            Part::Files => Some(Part::Info),
            Part::Info => None,
        }
    }

    fn advance(self) -> (part: Option<Part>)
        ensures
            part == self.following(),
    {
        match self {
            Part::Whole => Some(Part::Files),
            Part::Files => Some(Part::Info),
            Part::Info => None,
        }
    }
}

impl TrashDirectoryView {
    /// The path of one of the directories.
    pub open spec fn part(self, part: Part) -> Seq<u8> {
        match part {
            Part::Whole => self.path,
            Part::Files => self.files,
            Part::Info => self.info,
        }
    }
}

impl TrashDirectory {
    /// The directories of the trash at a path.
    pub fn new(path: PathBuf) -> (directory: Self)
        ensures
            directory@ == trash_at(path@),
    {
        let files = path.join(to_ascii_bytes("files").as_slice());
        let info = path.join(to_ascii_bytes("info").as_slice());
        TrashDirectory { path, files, info }
    }

    fn part(&self, part: Part) -> (path: PathBuf)
        ensures
            path@ == self@.part(part),
    {
        match part {
            Part::Whole => self.path.clone(),
            Part::Files => self.files.clone(),
            Part::Info => self.info.clone(),
        }
    }
}

impl Clone for TrashDirectory {
    fn clone(&self) -> (copy: Self)
        ensures
            copy@ == self@,
    {
        TrashDirectory {
            path: self.path.clone(),
            files: self.files.clone(),
            info: self.info.clone(),
        }
    }
}

/// The failure of a directory's creation: something else has the path.
pub open spec fn not_a_directory() -> error::IoErrorView {
    error::own_failure(ErrorKind::AlreadyExists, "path exists but is not a directory"@)
}

/// The failure of a directory's creation: a symbolic link has the path.
pub open spec fn is_a_symlink() -> error::IoErrorView {
    error::own_failure(ErrorKind::AlreadyExists, "path exists but is a symlink"@)
}

/// Creates the directories of a trash, and the directories above it that are missing.
#[derive(Debug)]
pub struct PreparePlain {
    directory: TrashDirectory,
    part: Part,
}

/// What a [`PreparePlain`] has come to.
pub struct PreparePlainView {
    pub directory: TrashDirectoryView,
    pub part: Part,
}

impl View for PreparePlain {
    type V = PreparePlainView;

    closed spec fn view(&self) -> PreparePlainView {
        PreparePlainView { directory: self.directory@, part: self.part }
    }
}

/// How the preparation of the trash at a path starts.
pub open spec fn prepare_plain(path: Seq<u8>) -> PreparePlainView {
    PreparePlainView { directory: trash_at(path), part: Part::Whole }
}

impl PreparePlain {
    /// Starts to create the directories of the trash at a path.
    pub fn start(path: PathBuf) -> (machine: Self)
        ensures
            machine@ == prepare_plain(path@),
    {
        PreparePlain { directory: TrashDirectory::new(path), part: Part::Whole }
    }
}

impl Machine for PreparePlain {
    type Output = TrashDirectory;

    open spec fn pending(state: PreparePlainView) -> RequestView {
        RequestView::CreateDirAll { path: state.directory.part(state.part) }
    }

    open spec fn next(state: PreparePlainView, reply: ReplyView) -> Step<
        PreparePlainView,
        Result<TrashDirectoryView, ErrorView>,
    > {
        match reply {
            ReplyView::Done => match state.part.following() {
                Some(part) => Step::Continue(
                    PreparePlainView { directory: state.directory, part },
                ),
                None => Step::Finish(Ok(state.directory)),
            },
            ReplyView::Failed(source) => Step::Finish(
                Err(ErrorView::Io { path: state.directory.part(state.part), source }),
            ),
            _ => Step::Continue(state),
        }
    }

    proof fn other_replies_change_nothing(state: PreparePlainView, reply: ReplyView) {
    }

    fn request(&self) -> (request: Request) {
        Request::CreateDirAll { path: self.directory.part(self.part) }
    }

    fn step(self, reply: Reply) -> (step: Step<Self, Result<TrashDirectory, Error>>) {
        match reply {
            Reply::Done => match self.part.advance() {
                Some(part) => Step::Continue(PreparePlain { directory: self.directory, part }),
                None => Step::Finish(Ok(self.directory)),
            },
            Reply::Failed(source) => Step::Finish(
                Err(Error::Io { path: self.directory.part(self.part), source }),
            ),
            _ => Step::Continue(self),
        }
    }
}

/// What a [`PrepareHome`] waits for.
#[derive(Clone, Copy, Debug, PartialEq, Eq, Structural)]
pub enum HomePhase {
    /// The directory is created for the first time.
    Create,
    /// The directory is created again, with the one above it in place.
    CreateAgain,
    /// Something has the path: it has to be a directory.
    Inspect,
    /// The new directory is made its owner's alone.
    Restrict,
}

/// Creates the directories of a user's own trash, and those above it that are missing. What it
/// creates is its owner's alone; what is there already stays as it is.
#[derive(Debug)]
pub struct PrepareHome {
    directory: TrashDirectory,
    part: Part,
    waiting: Vec<PathBuf>,
    current: PathBuf,
    phase: HomePhase,
}

/// What a [`PrepareHome`] has come to.
pub struct PrepareHomeView {
    /// The directories of the trash.
    pub directory: TrashDirectoryView,
    /// The one that is being prepared.
    pub part: Part,
    /// The directories below the current one that wait for it.
    pub waiting: Seq<Seq<u8>>,
    /// The directory that is created now.
    pub current: Seq<u8>,
    /// What the machine waits for.
    pub phase: HomePhase,
}

impl View for PrepareHome {
    type V = PrepareHomeView;

    closed spec fn view(&self) -> PrepareHomeView {
        PrepareHomeView {
            directory: self.directory@,
            part: self.part,
            waiting: path::path_bytes(self.waiting@),
            current: self.current@,
            phase: self.phase,
        }
    }
}

impl PrepareHomeView {
    /// The preparation goes on with one of the trash's directories.
    pub open spec fn at(directory: TrashDirectoryView, part: Part) -> Self {
        PrepareHomeView {
            directory,
            part,
            waiting: Seq::empty(),
            current: directory.part(part),
            phase: HomePhase::Create,
        }
    }

    /// The same directory, with another thing to wait for.
    pub open spec fn with_phase(self, phase: HomePhase) -> Self {
        PrepareHomeView { phase, ..self }
    }

    /// The current directory is in place: the one below it is next, or the next of the trash's.
    pub open spec fn in_place(self) -> Step<Self, Result<TrashDirectoryView, ErrorView>> {
        if self.waiting.len() > 0 {
            Step::Continue(
                PrepareHomeView {
                    waiting: self.waiting.drop_last(),
                    current: self.waiting.last(),
                    phase: HomePhase::CreateAgain,
                    ..self
                },
            )
        } else {
            match self.part.following() {
                Some(part) => Step::Continue(Self::at(self.directory, part)),
                None => Step::Finish(Ok(self.directory)),
            }
        }
    }

    /// The directory above the current one is missing: it is created first.
    pub open spec fn climb(self) -> Step<Self, Result<TrashDirectoryView, ErrorView>> {
        match path::parent(self.current) {
            Some(above) => Step::Continue(
                PrepareHomeView {
                    waiting: self.waiting.push(self.current),
                    current: above,
                    phase: HomePhase::Create,
                    ..self
                },
            ),
            None => Step::Finish(
                Err(
                    ErrorView::Platform {
                        path: self.current,
                        message: "Path has no parent: "@ + text::lossy_text(self.current),
                    },
                ),
            ),
        }
    }
}

impl PrepareHome {
    /// Starts to create the directories of the user's trash at a path.
    pub fn start(path: PathBuf) -> (machine: Self)
        ensures
            machine@ == PrepareHomeView::at(trash_at(path@), Part::Whole),
    {
        Self::at(TrashDirectory::new(path), Part::Whole)
    }

    fn at(directory: TrashDirectory, part: Part) -> (machine: Self)
        ensures
            machine@ == PrepareHomeView::at(directory@, part),
    {
        let current = directory.part(part);
        let waiting: Vec<PathBuf> = Vec::new();
        assert(path::path_bytes(waiting@) =~= Seq::<Seq<u8>>::empty());
        PrepareHome { directory, part, waiting, current, phase: HomePhase::Create }
    }

    fn with_phase(self, phase: HomePhase) -> (machine: Self)
        ensures
            machine@ == self@.with_phase(phase),
    {
        PrepareHome { phase, ..self }
    }

    fn in_place(self) -> (step: Step<Self, Result<TrashDirectory, Error>>)
        ensures
            machine::step_view(step) == self@.in_place(),
    {
        let mut waiting = self.waiting;
        let ghost before = waiting@;
        match waiting.pop() {
            Some(current) => {
                assert(path::path_bytes(waiting@) =~= path::path_bytes(before).drop_last());
                Step::Continue(
                    PrepareHome {
                        directory: self.directory,
                        part: self.part,
                        waiting,
                        current,
                        phase: HomePhase::CreateAgain,
                    },
                )
            },
            None => match self.part.advance() {
                Some(part) => Step::Continue(Self::at(self.directory, part)),
                None => Step::Finish(Ok(self.directory)),
            },
        }
    }

    fn climb(self) -> (step: Step<Self, Result<TrashDirectory, Error>>)
        ensures
            machine::step_view(step) == self@.climb(),
    {
        match self.current.parent() {
            Some(above) => {
                let mut waiting = self.waiting;
                let ghost before = waiting@;
                waiting.push(self.current);
                assert(path::path_bytes(waiting@) =~= path::path_bytes(before).push(self.current@));
                Step::Continue(
                    PrepareHome {
                        directory: self.directory,
                        part: self.part,
                        waiting,
                        current: above,
                        phase: HomePhase::Create,
                    },
                )
            },
            None => {
                let message = "Path has no parent: ".to_owned().concat(
                    to_lossy_text(self.current.as_bytes()).as_str(),
                );
                Step::Finish(Err(Error::Platform { path: self.current, message }))
            },
        }
    }
}

impl Machine for PrepareHome {
    type Output = TrashDirectory;

    open spec fn pending(state: PrepareHomeView) -> RequestView {
        match state.phase {
            HomePhase::Create | HomePhase::CreateAgain => RequestView::CreateDir {
                path: state.current,
            },
            HomePhase::Inspect => RequestView::Metadata { path: state.current },
            HomePhase::Restrict => RequestView::SetMode {
                path: state.current,
                mode: OWNER_RWX_MODE,
            },
        }
    }

    open spec fn next(state: PrepareHomeView, reply: ReplyView) -> Step<
        PrepareHomeView,
        Result<TrashDirectoryView, ErrorView>,
    > {
        match (state.phase, reply) {
            (HomePhase::Create, ReplyView::Done) | (
                HomePhase::CreateAgain,
                ReplyView::Done,
            ) => Step::Continue(state.with_phase(HomePhase::Restrict)),
            (HomePhase::Restrict, ReplyView::Done) => state.in_place(),
            (HomePhase::Inspect, ReplyView::Metadata(metadata)) => if metadata.is_dir {
                state.in_place()
            } else {
                Step::Finish(
                    Err(ErrorView::Io { path: state.current, source: not_a_directory() }),
                )
            },
            (phase, ReplyView::Failed(source)) => if (phase == HomePhase::Create || phase
                == HomePhase::CreateAgain) && source.kind == ErrorKind::AlreadyExists {
                Step::Continue(state.with_phase(HomePhase::Inspect))
            } else if phase == HomePhase::Create && source.kind == ErrorKind::NotFound {
                state.climb()
            } else {
                Step::Finish(Err(ErrorView::Io { path: state.current, source }))
            },
            _ => Step::Continue(state),
        }
    }

    proof fn other_replies_change_nothing(state: PrepareHomeView, reply: ReplyView) {
    }

    fn request(&self) -> (request: Request) {
        match self.phase {
            HomePhase::Create | HomePhase::CreateAgain => Request::CreateDir {
                path: self.current.clone(),
            },
            HomePhase::Inspect => Request::Metadata { path: self.current.clone() },
            HomePhase::Restrict => Request::SetMode {
                path: self.current.clone(),
                mode: OWNER_RWX_MODE,
            },
        }
    }

    fn step(self, reply: Reply) -> (step: Step<Self, Result<TrashDirectory, Error>>) {
        match (self.phase, reply) {
            (HomePhase::Create, Reply::Done) => Step::Continue(
                self.with_phase(HomePhase::Restrict),
            ),
            (HomePhase::CreateAgain, Reply::Done) => Step::Continue(
                self.with_phase(HomePhase::Restrict),
            ),
            (HomePhase::Restrict, Reply::Done) => self.in_place(),
            (HomePhase::Inspect, Reply::Metadata(metadata)) => {
                if metadata.is_dir {
                    self.in_place()
                } else {
                    let source = IoError::new(
                        ErrorKind::AlreadyExists,
                        "path exists but is not a directory",
                    );
                    Step::Finish(Err(Error::Io { path: self.current, source }))
                }
            },
            (phase, Reply::Failed(source)) => {
                if (phase == HomePhase::Create || phase == HomePhase::CreateAgain) && source.kind
                    == ErrorKind::AlreadyExists {
                    Step::Continue(self.with_phase(HomePhase::Inspect))
                } else if phase == HomePhase::Create && source.kind == ErrorKind::NotFound {
                    self.climb()
                } else {
                    Step::Finish(Err(Error::Io { path: self.current, source }))
                }
            },
            _ => Step::Continue(self),
        }
    }
}

/// What a [`PrepareShared`] waits for.
#[derive(Clone, Copy, Debug, PartialEq, Eq, Structural)]
pub enum SharedPhase {
    /// The directory that all users share is looked at.
    Parent,
    /// One of the trash's directories is created.
    Create(Part),
    /// Something has the path of that directory: it has to be a directory.
    Inspect(Part),
}

/// Creates the directories of a user's trash inside the directory that all users of a filesystem
/// share. That one has to exist, to be no symbolic link, and to keep users from removing each
/// other's entries.
#[derive(Debug)]
pub struct PrepareShared {
    shared: PathBuf,
    directory: TrashDirectory,
    phase: SharedPhase,
}

/// What a [`PrepareShared`] has come to.
pub struct PrepareSharedView {
    /// The directory that all users share.
    pub shared: Seq<u8>,
    /// The directories of the trash.
    pub directory: TrashDirectoryView,
    /// What the machine waits for.
    pub phase: SharedPhase,
}

impl View for PrepareShared {
    type V = PrepareSharedView;

    closed spec fn view(&self) -> PrepareSharedView {
        PrepareSharedView {
            shared: self.shared@,
            directory: self.directory@,
            phase: self.phase,
        }
    }
}

/// How the preparation of the trash at a path inside a shared directory starts.
pub open spec fn prepare_shared(path: Seq<u8>) -> Step<
    PrepareSharedView,
    Result<TrashDirectoryView, ErrorView>,
> {
    match path::parent(path) {
        Some(shared) => Step::Continue(
            PrepareSharedView { shared, directory: trash_at(path), phase: SharedPhase::Parent },
        ),
        None => Step::Finish(
            Err(
                ErrorView::Platform {
                    path,
                    message: "Shared trash path has no parent: "@ + text::lossy_text(path),
                },
            ),
        ),
    }
}

/// What is wrong with the directory that all users share.
pub open spec fn shared_fault(metadata: Metadata) -> Option<Seq<char>> {
    if metadata.is_symlink {
        Some("Shared trash path is a symlink: "@)
    } else if !metadata.is_dir {
        Some("Shared trash path is not a directory: "@)
    } else if !permission::is_sticky(metadata) {
        Some("Shared trash directory is missing sticky bit: "@)
    } else {
        None
    }
}

impl PrepareSharedView {
    /// The same trash, with another thing to wait for.
    pub open spec fn with_phase(self, phase: SharedPhase) -> Self {
        PrepareSharedView { phase, ..self }
    }

    /// One of the trash's directories is in place.
    pub open spec fn in_place(self, part: Part) -> Step<
        Self,
        Result<TrashDirectoryView, ErrorView>,
    > {
        match part.following() {
            Some(part) => Step::Continue(self.with_phase(SharedPhase::Create(part))),
            None => Step::Finish(Ok(self.directory)),
        }
    }
}

impl PrepareShared {
    /// Starts to create the directories of the trash at a path inside a shared directory.
    pub fn start(path: PathBuf) -> (step: Step<Self, Result<TrashDirectory, Error>>)
        ensures
            machine::step_view(step) == prepare_shared(path@),
    {
        match path.parent() {
            Some(shared) => Step::Continue(
                PrepareShared {
                    shared,
                    directory: TrashDirectory::new(path),
                    phase: SharedPhase::Parent,
                },
            ),
            None => {
                let message = "Shared trash path has no parent: ".to_owned().concat(
                    to_lossy_text(path.as_bytes()).as_str(),
                );
                Step::Finish(Err(Error::Platform { path, message }))
            },
        }
    }

    fn with_phase(self, phase: SharedPhase) -> (machine: Self)
        ensures
            machine@ == self@.with_phase(phase),
    {
        PrepareShared { phase, ..self }
    }

    fn in_place(self, part: Part) -> (step: Step<Self, Result<TrashDirectory, Error>>)
        ensures
            machine::step_view(step) == self@.in_place(part),
    {
        match part.advance() {
            Some(part) => Step::Continue(self.with_phase(SharedPhase::Create(part))),
            None => Step::Finish(Ok(self.directory)),
        }
    }
}

fn find_shared_fault(metadata: &Metadata) -> (fault: Option<String>)
    ensures
        match fault {
            Some(fault) => shared_fault(*metadata) == Some(fault@),
            None => shared_fault(*metadata) is None,
        },
{
    if metadata.is_symlink {
        Some("Shared trash path is a symlink: ".to_owned())
    } else if !metadata.is_dir {
        Some("Shared trash path is not a directory: ".to_owned())
    } else if !has_sticky_bit(metadata) {
        Some("Shared trash directory is missing sticky bit: ".to_owned())
    } else {
        None
    }
}

impl Machine for PrepareShared {
    type Output = TrashDirectory;

    open spec fn pending(state: PrepareSharedView) -> RequestView {
        match state.phase {
            SharedPhase::Parent => RequestView::SymlinkMetadata { path: state.shared },
            SharedPhase::Create(part) => RequestView::CreateDir {
                path: state.directory.part(part),
            },
            SharedPhase::Inspect(part) => RequestView::SymlinkMetadata {
                path: state.directory.part(part),
            },
        }
    }

    open spec fn next(state: PrepareSharedView, reply: ReplyView) -> Step<
        PrepareSharedView,
        Result<TrashDirectoryView, ErrorView>,
    > {
        match (state.phase, reply) {
            (SharedPhase::Parent, ReplyView::Metadata(metadata)) => match shared_fault(metadata) {
                Some(fault) => Step::Finish(
                    Err(
                        ErrorView::Platform {
                            path: state.shared,
                            message: fault + text::lossy_text(state.shared),
                        },
                    ),
                ),
                None => Step::Continue(state.with_phase(SharedPhase::Create(Part::Whole))),
            },
            (SharedPhase::Parent, ReplyView::Failed(source)) => Step::Finish(
                Err(ErrorView::Io { path: state.shared, source }),
            ),
            (SharedPhase::Create(part), ReplyView::Done) => state.in_place(part),
            (SharedPhase::Create(part), ReplyView::Failed(source)) => if source.kind
                == ErrorKind::AlreadyExists {
                Step::Continue(state.with_phase(SharedPhase::Inspect(part)))
            } else {
                Step::Finish(Err(ErrorView::Io { path: state.directory.part(part), source }))
            },
            (SharedPhase::Inspect(part), ReplyView::Metadata(metadata)) => {
                let path = state.directory.part(part);
                if metadata.is_symlink {
                    Step::Finish(Err(ErrorView::Io { path, source: is_a_symlink() }))
                } else if !metadata.is_dir {
                    Step::Finish(Err(ErrorView::Io { path, source: not_a_directory() }))
                } else {
                    state.in_place(part)
                }
            },
            (SharedPhase::Inspect(part), ReplyView::Failed(source)) => Step::Finish(
                Err(ErrorView::Io { path: state.directory.part(part), source }),
            ),
            _ => Step::Continue(state),
        }
    }

    proof fn other_replies_change_nothing(state: PrepareSharedView, reply: ReplyView) {
    }

    fn request(&self) -> (request: Request) {
        match self.phase {
            SharedPhase::Parent => Request::SymlinkMetadata { path: self.shared.clone() },
            SharedPhase::Create(part) => Request::CreateDir { path: self.directory.part(part) },
            SharedPhase::Inspect(part) => Request::SymlinkMetadata {
                path: self.directory.part(part),
            },
        }
    }

    fn step(self, reply: Reply) -> (step: Step<Self, Result<TrashDirectory, Error>>) {
        match (self.phase, reply) {
            (SharedPhase::Parent, Reply::Metadata(metadata)) => match find_shared_fault(&metadata) {
                Some(fault) => {
                    let message = fault.concat(to_lossy_text(self.shared.as_bytes()).as_str());
                    Step::Finish(Err(Error::Platform { path: self.shared, message }))
                },
                None => Step::Continue(self.with_phase(SharedPhase::Create(Part::Whole))),
            },
            (SharedPhase::Parent, Reply::Failed(source)) => Step::Finish(
                Err(Error::Io { path: self.shared, source }),
            ),
            (SharedPhase::Create(part), Reply::Done) => self.in_place(part),
            (SharedPhase::Create(part), Reply::Failed(source)) => {
                if source.kind == ErrorKind::AlreadyExists {
                    Step::Continue(self.with_phase(SharedPhase::Inspect(part)))
                } else {
                    Step::Finish(Err(Error::Io { path: self.directory.part(part), source }))
                }
            },
            (SharedPhase::Inspect(part), Reply::Metadata(metadata)) => {
                let path = self.directory.part(part);
                if metadata.is_symlink {
                    let source = IoError::new(
                        ErrorKind::AlreadyExists,
                        "path exists but is a symlink",
                    );
                    Step::Finish(Err(Error::Io { path, source }))
                } else if !metadata.is_dir {
                    let source = IoError::new(
                        ErrorKind::AlreadyExists,
                        "path exists but is not a directory",
                    );
                    Step::Finish(Err(Error::Io { path, source }))
                } else {
                    self.in_place(part)
                }
            },
            (SharedPhase::Inspect(part), Reply::Failed(source)) => Step::Finish(
                Err(Error::Io { path: self.directory.part(part), source }),
            ),
            _ => Step::Continue(self),
        }
    }
}

/// Creates the directories of the trash that an item goes to.
#[derive(Debug)]
pub enum PrepareTrash {
    /// The user's own trash.
    Home(PrepareHome),
    /// A trash inside a shared directory, with another one to go to if it cannot be had.
    Shared { machine: PrepareShared, fallback: PathBuf },
    /// A trash that the user has on another filesystem.
    Plain(PreparePlain),
}

/// What a [`PrepareTrash`] has come to.
pub enum PrepareTrashView {
    Home(PrepareHomeView),
    Shared { machine: PrepareSharedView, fallback: Seq<u8> },
    Plain(PreparePlainView),
}

impl View for PrepareTrash {
    type V = PrepareTrashView;

    open spec fn view(&self) -> PrepareTrashView {
        match self {
            PrepareTrash::Home(machine) => PrepareTrashView::Home(machine@),
            PrepareTrash::Shared { machine, fallback } => PrepareTrashView::Shared {
                machine: machine@,
                fallback: fallback@,
            },
            PrepareTrash::Plain(machine) => PrepareTrashView::Plain(machine@),
        }
    }
}

/// What comes of the preparation inside a shared directory: where it fails, the fallback is
/// prepared instead.
pub open spec fn or_fallback(
    step: Step<PrepareSharedView, Result<TrashDirectoryView, ErrorView>>,
    fallback: Seq<u8>,
) -> Step<PrepareTrashView, Result<TrashDirectoryView, ErrorView>> {
    match step {
        Step::Continue(machine) => Step::Continue(PrepareTrashView::Shared { machine, fallback }),
        Step::Finish(Ok(directory)) => Step::Finish(Ok(directory)),
        Step::Finish(Err(_)) => Step::Continue(PrepareTrashView::Plain(prepare_plain(fallback))),
    }
}

impl PrepareTrash {
    /// Starts to prepare the trash at a path inside a shared directory, or else the fallback.
    pub fn start_shared(path: PathBuf, fallback: PathBuf) -> (step: Step<
        Self,
        Result<TrashDirectory, Error>,
    >)
        ensures
            machine::step_view(step) == or_fallback(prepare_shared(path@), fallback@),
    {
        Self::or_fallback(PrepareShared::start(path), fallback)
    }

    fn or_fallback(
        step: Step<PrepareShared, Result<TrashDirectory, Error>>,
        fallback: PathBuf,
    ) -> (wrapped: Step<Self, Result<TrashDirectory, Error>>)
        ensures
            machine::step_view(wrapped) == or_fallback(machine::step_view(step), fallback@),
    {
        match step {
            Step::Continue(machine) => Step::Continue(PrepareTrash::Shared { machine, fallback }),
            Step::Finish(Ok(directory)) => Step::Finish(Ok(directory)),
            Step::Finish(Err(_)) => Step::Continue(
                PrepareTrash::Plain(PreparePlain::start(fallback)),
            ),
        }
    }
}

impl Machine for PrepareTrash {
    type Output = TrashDirectory;

    open spec fn pending(state: PrepareTrashView) -> RequestView {
        match state {
            PrepareTrashView::Home(machine) => PrepareHome::pending(machine),
            PrepareTrashView::Shared { machine, .. } => PrepareShared::pending(machine),
            PrepareTrashView::Plain(machine) => PreparePlain::pending(machine),
        }
    }

    open spec fn next(state: PrepareTrashView, reply: ReplyView) -> Step<
        PrepareTrashView,
        Result<TrashDirectoryView, ErrorView>,
    > {
        match state {
            PrepareTrashView::Home(machine) => match PrepareHome::next(machine, reply) {
                Step::Continue(machine) => Step::Continue(PrepareTrashView::Home(machine)),
                Step::Finish(result) => Step::Finish(result),
            },
            PrepareTrashView::Shared { machine, fallback } => or_fallback(
                PrepareShared::next(machine, reply),
                fallback,
            ),
            PrepareTrashView::Plain(machine) => match PreparePlain::next(machine, reply) {
                Step::Continue(machine) => Step::Continue(PrepareTrashView::Plain(machine)),
                Step::Finish(result) => Step::Finish(result),
            },
        }
    }

    proof fn other_replies_change_nothing(state: PrepareTrashView, reply: ReplyView) {
        match state {
            PrepareTrashView::Home(machine) => {
                PrepareHome::other_replies_change_nothing(machine, reply);
            },
            PrepareTrashView::Shared { machine, .. } => {
                PrepareShared::other_replies_change_nothing(machine, reply);
            },
            PrepareTrashView::Plain(machine) => {
                PreparePlain::other_replies_change_nothing(machine, reply);
            },
        }
    }

    fn request(&self) -> (request: Request) {
        match self {
            PrepareTrash::Home(machine) => machine.request(),
            PrepareTrash::Shared { machine, .. } => machine.request(),
            PrepareTrash::Plain(machine) => machine.request(),
        }
    }

    fn step(self, reply: Reply) -> (step: Step<Self, Result<TrashDirectory, Error>>) {
        match self {
            PrepareTrash::Home(machine) => match machine.step(reply) {
                Step::Continue(machine) => Step::Continue(PrepareTrash::Home(machine)),
                Step::Finish(result) => Step::Finish(result),
            },
            PrepareTrash::Shared { machine, fallback } => Self::or_fallback(
                machine.step(reply),
                fallback,
            ),
            PrepareTrash::Plain(machine) => match machine.step(reply) {
                Step::Continue(machine) => Step::Continue(PrepareTrash::Plain(machine)),
                Step::Finish(result) => Step::Finish(result),
            },
        }
    }
}

/// Every entry whose permission bits were set is a directory that had been created before, and it
/// was made its owner's alone.
pub open spec fn only_new_directories_are_restricted(past: Seq<Exchange>) -> bool {
    forall|i: int|
        0 <= i < past.len() ==> (#[trigger] past[i].request matches RequestView::SetMode {
            path,
            mode,
        } ==> mode == 0o700 && machine::was_done(
            past.take(i),
            RequestView::CreateDir { path },
        ))
}

/// The directory that was created at `i` has been made its owner's alone since.
pub open spec fn is_restricted_after(past: Seq<Exchange>, i: int, path: Seq<u8>) -> bool {
    exists|j: int|
        i < j < past.len() && #[trigger] past[j] == machine::exchange(
            RequestView::SetMode { path, mode: 0o700 },
            ReplyView::Done,
        )
}

/// Of the directories that were created, all but the one at this path have been made their
/// owner's alone.
pub open spec fn all_are_restricted_but(past: Seq<Exchange>, current: Option<Seq<u8>>) -> bool {
    forall|i: int|
        0 <= i < past.len() ==> (#[trigger] past[i] matches Exchange {
            request: RequestView::CreateDir { path },
            reply: ReplyView::Done,
        } ==> current == Some(path) || is_restricted_after(past, i, path))
}

/// The directories that were created have been made their owner's alone.
pub open spec fn new_directories_are_restricted(past: Seq<Exchange>) -> bool {
    all_are_restricted_but(past, None)
}

proof fn lemma_all_are_restricted_but(
    past: Seq<Exchange>,
    last: Exchange,
    current: Option<Seq<u8>>,
    next: Option<Seq<u8>>,
)
    requires
        all_are_restricted_but(past, current),
        last matches Exchange {
            request: RequestView::CreateDir { path },
            reply: ReplyView::Done,
        } ==> next == Some(path),
        current matches Some(path) ==> next == Some(path) || last == machine::exchange(
            RequestView::SetMode { path, mode: 0o700 },
            ReplyView::Done,
        ),
    ensures
        all_are_restricted_but(past.push(last), next),
{
    let more = past.push(last);
    assert forall|i: int| 0 <= i < more.len() implies (#[trigger] more[i] matches Exchange {
        request: RequestView::CreateDir { path },
        reply: ReplyView::Done,
    } ==> next == Some(path) || is_restricted_after(more, i, path)) by {
        if i < past.len() {
            assert(more[i] == past[i]);
            if let RequestView::CreateDir { path } = past[i].request {
                if is_restricted_after(past, i, path) {
                    let j = choose|j: int|
                        i < j < past.len() && #[trigger] past[j] == machine::exchange(
                            RequestView::SetMode { path, mode: 0o700 },
                            ReplyView::Done,
                        );
                    assert(more[j] == past[j]);
                }
                assert(more[past.len() as int] == last);
            }
        }
    }
}

/// The path was found to be a directory, or one was created there.
pub open spec fn is_directory(past: Seq<Exchange>, path: Seq<u8>) -> bool {
    ||| machine::was_done(past, RequestView::CreateDir { path })
    ||| exists|metadata: Metadata|
        metadata.is_dir && #[trigger] past.contains(
            machine::exchange(RequestView::Metadata { path }, ReplyView::Metadata(metadata)),
        )
}

/// All directories of the trash before the part are in place.
spec fn parts_before(past: Seq<Exchange>, directory: TrashDirectoryView, part: Part) -> bool {
    match part {
        Part::Whole => true,
        Part::Files => is_directory(past, directory.path),
        Part::Info => is_directory(past, directory.path) && is_directory(past, directory.files),
    }
}

/// The path was found to be no directory, or a symbolic link.
pub open spec fn is_no_directory(past: Seq<Exchange>, path: Seq<u8>) -> bool {
    exists|request: RequestView, metadata: Metadata|
        (!metadata.is_dir || metadata.is_symlink) && (request == (RequestView::Metadata { path })
            || request == (RequestView::SymlinkMetadata { path })) && #[trigger] past.contains(
            machine::exchange(request, ReplyView::Metadata(metadata)),
        )
}

/// The failure is that something else has the path of a directory, and no operating system call
/// reported it.
pub open spec fn tells_of_another_entry(source: error::IoErrorView) -> bool {
    &&& source.kind == ErrorKind::AlreadyExists
    &&& source.code is None
    &&& source.message == "path exists but is not a directory"@
}

/// The system failed, something else has the path of a directory, or a directory that is missing
/// has no parent.
pub open spec fn is_preparation_fault(past: Seq<Exchange>, error: ErrorView) -> bool {
    match error {
        ErrorView::Io { path, source } => machine::has_failed(past, path, source) || (
        tells_of_another_entry(source) && is_no_directory(past, path)),
        ErrorView::Platform { path, message } => path::parent(path) is None && is_without_parent(
            past,
            path,
        ) && message == "Path has no parent: "@ + text::lossy_text(path),
        _ => false,
    }
}

/// The directory could not be created, because the one above it is missing.
pub open spec fn is_without_parent(past: Seq<Exchange>, path: Seq<u8>) -> bool {
    exists|source: error::IoErrorView|
        source.kind == ErrorKind::NotFound && #[trigger] past.contains(
            machine::exchange(RequestView::CreateDir { path }, ReplyView::Failed(source)),
        )
}

/// What went wrong stays known.
pub proof fn lemma_faults(past: Seq<Exchange>, last: Exchange)
    ensures
        forall|path: Seq<u8>, source: error::IoErrorView| #[trigger]
            machine::has_failed(past, path, source) ==> machine::has_failed(
                past.push(last),
                path,
                source,
            ),
        forall|path: Seq<u8>| #[trigger]
            is_no_directory(past, path) ==> is_no_directory(past.push(last), path),
        forall|path: Seq<u8>| #[trigger]
            is_without_parent(past, path) ==> is_without_parent(past.push(last), path),
        forall|path: Seq<u8>, source: error::IoErrorView|
            last.reply == ReplyView::Failed(source) && machine::is_about(last.request, path)
                && !machine::is_expected(last.request, source.kind)
                ==> #[trigger] machine::has_failed(past.push(last), path, source),
        last matches Exchange {
            request: RequestView::Metadata { path },
            reply: ReplyView::Metadata(metadata),
        } ==> (!metadata.is_dir || metadata.is_symlink ==> is_no_directory(past.push(last), path)),
        last matches Exchange {
            request: RequestView::SymlinkMetadata { path },
            reply: ReplyView::Metadata(metadata),
        } ==> (!metadata.is_dir || metadata.is_symlink ==> is_no_directory(past.push(last), path)),
{
    let more = past.push(last);
    machine::lemma_past_grows(past, last);
    machine::lemma_failures_stay(past, last);
    assert forall|path: Seq<u8>| #[trigger] is_no_directory(past, path) implies is_no_directory(
        more,
        path,
    ) by {
        let (request, metadata) = choose|request: RequestView, metadata: Metadata|
            (!metadata.is_dir || metadata.is_symlink) && (request == (RequestView::Metadata {
                path,
            }) || request == (RequestView::SymlinkMetadata { path })) && #[trigger] past.contains(
                machine::exchange(request, ReplyView::Metadata(metadata)),
            );
        assert(more.contains(machine::exchange(request, ReplyView::Metadata(metadata))));
    }
    assert forall|path: Seq<u8>| #[trigger] is_without_parent(
        past,
        path,
    ) implies is_without_parent(more, path) by {
        let source = choose|source: error::IoErrorView|
            source.kind == ErrorKind::NotFound && #[trigger] past.contains(
                machine::exchange(RequestView::CreateDir { path }, ReplyView::Failed(source)),
            );
        assert(more.contains(
            machine::exchange(RequestView::CreateDir { path }, ReplyView::Failed(source)),
        ));
    }
    match last.reply {
        ReplyView::Metadata(metadata) => {
            assert(more.contains(machine::exchange(last.request, ReplyView::Metadata(metadata))));
        },
        _ => {},
    }
}

/// The directory above the path is in place.
pub open spec fn is_parent_in_place(past: Seq<Exchange>, path: Seq<u8>) -> bool {
    path::parent(path) matches Some(above) && is_directory(past, above)
}

/// A directory that could not be created, because the one above it is missing, is given up only
/// where that one was in place before.
pub open spec fn is_given_up_rightly(past: Seq<Exchange>, error: ErrorView) -> bool {
    error matches ErrorView::Io { path, source } ==> (source.kind == ErrorKind::NotFound
        && past.len() > 0 && past.last().request is CreateDir ==> is_parent_in_place(past, path))
}

impl PrepareHomeView {
    /// Each directory that waits is waiting for the one above it.
    spec fn waits_for_parents(self) -> bool {
        forall|k: int|
            0 <= k < self.waiting.len() ==> path::parent(#[trigger] self.waiting[k]) == Some(
                if k + 1 < self.waiting.len() {
                    self.waiting[k + 1]
                } else {
                    self.current
                },
            )
    }

    /// The directory that was created and not made its owner's alone yet.
    spec fn unrestricted(self) -> Option<Seq<u8>> {
        if self.phase == HomePhase::Restrict {
            Some(self.current)
        } else {
            None
        }
    }
}

spec fn home_holds(
    directory: TrashDirectoryView,
    stage: Stage<PrepareHome>,
    past: Seq<Exchange>,
) -> bool {
    &&& only_new_directories_are_restricted(past)
    &&& match stage {
        Step::Continue(state) => {
            &&& state.directory == directory
            &&& parts_before(past, directory, state.part)
            &&& all_are_restricted_but(past, state.unrestricted())
            &&& state.waits_for_parents()
            &&& state.phase == HomePhase::CreateAgain ==> is_parent_in_place(past, state.current)
            &&& state.phase == HomePhase::Restrict ==> machine::was_done(
                past,
                RequestView::CreateDir { path: state.current },
            )
            &&& if state.waiting.len() == 0 {
                state.current == directory.part(state.part)
            } else {
                state.waiting[0] == directory.part(state.part)
            }
        },
        Step::Finish(Ok(prepared)) => {
            &&& prepared == directory
            &&& new_directories_are_restricted(past)
            &&& is_directory(past, directory.path)
            &&& is_directory(past, directory.files)
            &&& is_directory(past, directory.info)
        },
        Step::Finish(Err(error)) => is_preparation_fault(past, error) && is_given_up_rightly(
            past,
            error,
        ),
    }
}

proof fn lemma_restricted(past: Seq<Exchange>, last: Exchange)
    requires
        only_new_directories_are_restricted(past),
        last.request matches RequestView::SetMode { path, mode } ==> mode == 0o700
            && machine::was_done(past, RequestView::CreateDir { path }),
    ensures
        only_new_directories_are_restricted(past.push(last)),
{
    let more = past.push(last);
    assert forall|i: int| 0 <= i < more.len() implies (
    #[trigger] more[i].request matches RequestView::SetMode { path, mode } ==> mode
        == 0o700 && machine::was_done(
        more.take(i),
        RequestView::CreateDir { path },
    )) by {
        assert(more.take(i) =~= past.take(i));
        if i < past.len() {
            assert(more[i] == past[i]);
        } else {
            assert(past.take(i) =~= past);
        }
    }
}

proof fn lemma_waiting(state: PrepareHomeView, past: Seq<Exchange>, reply: ReplyView)
    requires
        state.waits_for_parents(),
        state.phase == HomePhase::CreateAgain ==> is_parent_in_place(past, state.current),
        state.phase == HomePhase::Restrict ==> machine::was_done(
            past,
            RequestView::CreateDir { path: state.current },
        ),
    ensures
        ({
            let more = past.push(machine::exchange(PrepareHome::pending(state), reply));
            match PrepareHome::next(state, reply) {
                Step::Continue(next) => {
                    &&& next.waits_for_parents()
                    &&& next.phase == HomePhase::CreateAgain ==> is_parent_in_place(
                        more,
                        next.current,
                    )
                },
                Step::Finish(Err(error)) => is_given_up_rightly(more, error),
                Step::Finish(Ok(_)) => true,
            }
        }),
{
    let last = machine::exchange(PrepareHome::pending(state), reply);
    let more = past.push(last);
    machine::lemma_past_grows(past, last);
    lemma_directories_stay(past, last);
    assert(more.last() == last);
    if state.waiting.len() > 0 {
        assert(path::parent(state.waiting[state.waiting.len() - 1]) == Some(state.current));
    }
    match (state.phase, reply) {
        (HomePhase::Restrict, ReplyView::Done) => {
            assert(is_directory(more, state.current));
        },
        (HomePhase::Inspect, ReplyView::Metadata(metadata)) => {
            if metadata.is_dir {
                assert(more.contains(
                    machine::exchange(
                        RequestView::Metadata { path: state.current },
                        ReplyView::Metadata(metadata),
                    ),
                ));
                assert(is_directory(more, state.current));
            }
        },
        _ => {},
    }
    if let Step::Continue(next) = PrepareHome::next(state, reply) {
        assert forall|k: int| 0 <= k < next.waiting.len() implies path::parent(
            #[trigger] next.waiting[k],
        ) == Some(
            if k + 1 < next.waiting.len() {
                next.waiting[k + 1]
            } else {
                next.current
            },
        ) by {
            if k < state.waiting.len() {
                assert(path::parent(state.waiting[k]) is Some);
                assert(next.waiting[k] == state.waiting[k]);
            }
        }
    }
}

/// Preparing the user's own trash fails for a reason.
proof fn lemma_home_fault(state: PrepareHomeView, past: Seq<Exchange>, reply: ReplyView)
    ensures
        PrepareHome::next(state, reply) matches Step::Finish(Err(error)) ==> is_preparation_fault(
            past.push(machine::exchange(PrepareHome::pending(state), reply)),
            error,
        ),
{
    let last = machine::exchange(PrepareHome::pending(state), reply);
    lemma_faults(past, last);
    machine::lemma_past_grows(past, last);
    if let ReplyView::Failed(source) = reply {
        assert(past.push(last).contains(
            machine::exchange(last.request, ReplyView::Failed(source)),
        ));
    }
}

proof fn lemma_home_step(
    directory: TrashDirectoryView,
    state: PrepareHomeView,
    past: Seq<Exchange>,
    reply: ReplyView,
)
    requires
        home_holds(directory, Step::Continue(state), past),
    ensures
        home_holds(
            directory,
            PrepareHome::next(state, reply),
            past.push(machine::exchange(PrepareHome::pending(state), reply)),
        ),
{
    let last = machine::exchange(PrepareHome::pending(state), reply);
    let more = past.push(last);
    machine::lemma_past_grows(past, last);
    lemma_restricted(past, last);
    lemma_home_fault(state, past, reply);
    lemma_directories_stay(past, last);
    lemma_waiting(state, past, reply);
    let current = state.unrestricted();
    match PrepareHome::next(state, reply) {
        Step::Continue(next) => {
            lemma_all_are_restricted_but(past, last, current, next.unrestricted());
        },
        Step::Finish(Ok(_)) => lemma_all_are_restricted_but(past, last, current, None),
        Step::Finish(Err(_)) => {},
    }
    assert(is_directory(past, directory.path) ==> is_directory(more, directory.path));
    assert(is_directory(past, directory.files) ==> is_directory(more, directory.files));
    match (state.phase, reply) {
        (HomePhase::Restrict, ReplyView::Done) => {
            assert(is_directory(more, state.current));
        },
        (HomePhase::Inspect, ReplyView::Metadata(metadata)) => {
            if metadata.is_dir {
                assert(is_directory(more, state.current));
            }
        },
        _ => {},
    }
}

proof fn lemma_home(path: Seq<u8>, replies: Seq<ReplyView>)
    ensures
        ({
            let start = Step::Continue(PrepareHomeView::at(trash_at(path), Part::Whole));
            home_holds(
                trash_at(path),
                machine::after::<PrepareHome>(start, replies),
                machine::history::<PrepareHome>(start, replies),
            )
        }),
{
    let directory = trash_at(path);
    let start = Step::Continue(PrepareHomeView::at(directory, Part::Whole));
    let holds = |stage: Stage<PrepareHome>, past: Seq<Exchange>| home_holds(directory, stage, past);
    assert(holds(start, Seq::empty()));
    assert forall|state: PrepareHomeView, past: Seq<Exchange>, reply: ReplyView|
        #![trigger holds(Step::Continue(state), past), PrepareHome::next(state, reply)]
        holds(Step::Continue(state), past) implies holds(
        PrepareHome::next(state, reply),
        past.push(machine::exchange(PrepareHome::pending(state), reply)),
    ) by {
        lemma_home_step(directory, state, past, reply);
    }
    machine::lemma_invariant::<PrepareHome>(start, replies, holds);
}

/// Preparing the user's own trash sets the permission bits of no directory that was there before:
/// only directories that it has created are made their owner's alone.
pub proof fn existing_directories_keep_their_permissions(path: Seq<u8>, replies: Seq<ReplyView>)
    ensures
        only_new_directories_are_restricted(
            machine::history::<PrepareHome>(
                Step::Continue(PrepareHomeView::at(trash_at(path), Part::Whole)),
                replies,
            ),
        ),
{
    lemma_home(path, replies);
}

/// When the user's own trash is prepared, its three directories are in place, and each directory
/// that was created for that has been made its owner's alone.
pub proof fn prepared_home_trash_is_in_place(
    path: Seq<u8>,
    replies: Seq<ReplyView>,
    prepared: TrashDirectoryView,
)
    requires
        machine::after::<PrepareHome>(
            Step::Continue(PrepareHomeView::at(trash_at(path), Part::Whole)),
            replies,
        ) == Step::<PrepareHomeView, Result<TrashDirectoryView, ErrorView>>::Finish(Ok(prepared)),
    ensures
        ({
            let past = machine::history::<PrepareHome>(
                Step::Continue(PrepareHomeView::at(trash_at(path), Part::Whole)),
                replies,
            );
            &&& prepared == trash_at(path)
            &&& new_directories_are_restricted(past)
            &&& is_directory(past, prepared.path)
            &&& is_directory(past, prepared.files)
            &&& is_directory(past, prepared.info)
        }),
{
    lemma_home(path, replies);
}

/// The directory was found to be one that users can share a trash in.
pub open spec fn is_shared_directory(past: Seq<Exchange>, shared: Seq<u8>) -> bool {
    exists|metadata: Metadata|
        shared_fault(metadata) is None && #[trigger] past.contains(
            machine::exchange(
                RequestView::SymlinkMetadata { path: shared },
                ReplyView::Metadata(metadata),
            ),
        )
}

spec fn fallback_holds(
    path: Seq<u8>,
    fallback: Seq<u8>,
    stage: Stage<PrepareTrash>,
    past: Seq<Exchange>,
) -> bool {
    match stage {
        Step::Continue(PrepareTrashView::Shared { machine, fallback: other }) => {
            &&& other == fallback
            &&& machine.directory == trash_at(path)
            &&& path::parent(path) == Some(machine.shared)
            &&& machine.phase == SharedPhase::Parent || is_shared_directory(past, machine.shared)
        },
        Step::Continue(PrepareTrashView::Plain(machine)) => machine.directory == trash_at(fallback),
        Step::Continue(PrepareTrashView::Home(_)) => false,
        Step::Finish(Ok(prepared)) => {
            ||| prepared == trash_at(fallback)
            ||| prepared == trash_at(path) && path::parent(path) is Some && is_shared_directory(
                past,
                path::parent(path)->0,
            )
        },
        Step::Finish(Err(_)) => true,
    }
}

/// A trash inside a shared directory is used only where that directory was found fit for it;
/// else the trash to fall back to is used.
pub proof fn shared_trash_or_fallback_is_prepared(
    path: Seq<u8>,
    fallback: Seq<u8>,
    replies: Seq<ReplyView>,
    prepared: TrashDirectoryView,
)
    requires
        machine::after::<PrepareTrash>(or_fallback(prepare_shared(path), fallback), replies)
            == Step::<PrepareTrashView, Result<TrashDirectoryView, ErrorView>>::Finish(
            Ok(prepared),
        ),
    ensures
        ({
            let past = machine::history::<PrepareTrash>(
                or_fallback(prepare_shared(path), fallback),
                replies,
            );
            ||| prepared == trash_at(fallback)
            ||| prepared == trash_at(path) && path::parent(path) is Some && is_shared_directory(
                past,
                path::parent(path)->0,
            )
        }),
{
    let start = or_fallback(prepare_shared(path), fallback);
    let holds = |stage: Stage<PrepareTrash>, past: Seq<Exchange>|
        fallback_holds(path, fallback, stage, past);
    assert(holds(start, Seq::empty()));
    assert forall|state: PrepareTrashView, past: Seq<Exchange>, reply: ReplyView|
        #![trigger holds(Step::Continue(state), past), PrepareTrash::next(state, reply)]
        holds(Step::Continue(state), past) implies holds(
        PrepareTrash::next(state, reply),
        past.push(machine::exchange(PrepareTrash::pending(state), reply)),
    ) by {
        let last = machine::exchange(PrepareTrash::pending(state), reply);
        machine::lemma_past_grows(past, last);
        if let PrepareTrashView::Shared { machine, .. } = state {
            if is_shared_directory(past, machine.shared) {
                assert(is_shared_directory(past.push(last), machine.shared));
            }
        }
    }
    machine::lemma_invariant::<PrepareTrash>(start, replies, holds);
}

/// The three directories of a trash: the trash itself, `files` in it, and `info` in it.
pub proof fn directories_are_in_the_trash(path: Seq<u8>)
    ensures
        trash_at(path).path == path,
        path::components(trash_at(path).files) == path::components(path).push(
            path::Component::Name(text::ascii_bytes("files"@)),
        ),
        path::components(trash_at(path).info) == path::components(path).push(
            path::Component::Name(text::ascii_bytes("info"@)),
        ),
{
    reveal_strlit("files");
    reveal_strlit("info");
    let files = text::ascii_bytes("files"@);
    let info = text::ascii_bytes("info"@);
    assert(files.len() == 5 && info.len() == 4);
    assert(path::is_entry_name(files));
    assert(path::is_entry_name(info));
    path::a_joined_name_is_the_file_name(path, files);
    path::a_joined_name_is_the_file_name(path, info);
}

/// Preparing the user's own trash fails only for a reason: the system failed, something else has
/// the path of a directory, or a directory that is missing has no parent.
pub proof fn failed_home_preparation_has_a_reason(
    path: Seq<u8>,
    replies: Seq<ReplyView>,
    error: ErrorView,
)
    requires
        machine::after::<PrepareHome>(
            Step::Continue(PrepareHomeView::at(trash_at(path), Part::Whole)),
            replies,
        ) == Step::<PrepareHomeView, Result<TrashDirectoryView, ErrorView>>::Finish(Err(error)),
    ensures
        is_preparation_fault(
            machine::history::<PrepareHome>(
                Step::Continue(PrepareHomeView::at(trash_at(path), Part::Whole)),
                replies,
            ),
            error,
        ),
        is_given_up_rightly(
            machine::history::<PrepareHome>(
                Step::Continue(PrepareHomeView::at(trash_at(path), Part::Whole)),
                replies,
            ),
            error,
        ),
{
    lemma_home(path, replies);
}

/// The directory was created, with those above it that were missing.
pub open spec fn is_made(past: Seq<Exchange>, path: Seq<u8>) -> bool {
    machine::was_done(past, RequestView::CreateDirAll { path })
}

/// The directory was created, or it was found to be one, and no symbolic link.
pub open spec fn is_real_directory(past: Seq<Exchange>, path: Seq<u8>) -> bool {
    ||| machine::was_done(past, RequestView::CreateDir { path })
    ||| exists|metadata: Metadata|
        metadata.is_dir && !metadata.is_symlink && #[trigger] past.contains(
            machine::exchange(
                RequestView::SymlinkMetadata { path },
                ReplyView::Metadata(metadata),
            ),
        )
}

/// The directory was found to be a directory, no symbolic link, and to keep users from removing
/// each other's entries.
pub open spec fn is_fit_to_share(past: Seq<Exchange>, shared: Seq<u8>) -> bool {
    exists|metadata: Metadata|
        metadata.is_dir && !metadata.is_symlink && metadata.mode & 0o1000 != 0
            && #[trigger] past.contains(
            machine::exchange(
                RequestView::SymlinkMetadata { path: shared },
                ReplyView::Metadata(metadata),
            ),
        )
}

/// The directory was found to be none, or a symbolic link, or not to keep users from removing each
/// other's entries.
pub open spec fn is_unfit_to_share(past: Seq<Exchange>, shared: Seq<u8>) -> bool {
    exists|metadata: Metadata|
        !(metadata.is_dir && !metadata.is_symlink && metadata.mode & 0o1000 != 0)
            && #[trigger] past.contains(
            machine::exchange(
                RequestView::SymlinkMetadata { path: shared },
                ReplyView::Metadata(metadata),
            ),
        )
}

/// The system failed at something that is about the path.
pub open spec fn is_failing(past: Seq<Exchange>, path: Seq<u8>) -> bool {
    exists|source: error::IoErrorView| #[trigger] machine::has_failed(past, path, source)
}

/// The trash at a path inside a shared directory cannot be had: the path has no parent, that is
/// unfit, the system failed, or something else has the path of one of the trash's directories.
pub open spec fn is_unusable(past: Seq<Exchange>, path: Seq<u8>) -> bool {
    ||| path::parent(path) is None
    ||| path::parent(path) is Some && is_unfit_to_share(past, path::parent(path)->0)
    ||| path::parent(path) is Some && is_failing(past, path::parent(path)->0)
    ||| is_failing(past, trash_at(path).path)
    ||| is_failing(past, trash_at(path).files)
    ||| is_failing(past, trash_at(path).info)
    ||| is_no_directory(past, trash_at(path).path)
    ||| is_no_directory(past, trash_at(path).files)
    ||| is_no_directory(past, trash_at(path).info)
}

spec fn real_parts_before(
    past: Seq<Exchange>,
    directory: TrashDirectoryView,
    part: Part,
) -> bool {
    match part {
        Part::Whole => true,
        Part::Files => is_real_directory(past, directory.path),
        Part::Info => is_real_directory(past, directory.path) && is_real_directory(
            past,
            directory.files,
        ),
    }
}

spec fn made_parts_before(
    past: Seq<Exchange>,
    directory: TrashDirectoryView,
    part: Part,
) -> bool {
    match part {
        Part::Whole => true,
        Part::Files => is_made(past, directory.path),
        Part::Info => is_made(past, directory.path) && is_made(past, directory.files),
    }
}

/// The trash at the path inside a shared directory is in place.
pub open spec fn is_shared_trash_in_place(past: Seq<Exchange>, path: Seq<u8>) -> bool {
    &&& path::parent(path) is Some
    &&& is_fit_to_share(past, path::parent(path)->0)
    &&& is_real_directory(past, trash_at(path).path)
    &&& is_real_directory(past, trash_at(path).files)
    &&& is_real_directory(past, trash_at(path).info)
}

/// The trash at the path, which the user has on another filesystem, is in place.
pub open spec fn is_plain_trash_in_place(past: Seq<Exchange>, path: Seq<u8>) -> bool {
    &&& is_made(past, trash_at(path).path)
    &&& is_made(past, trash_at(path).files)
    &&& is_made(past, trash_at(path).info)
}

spec fn external_holds(
    path: Seq<u8>,
    fallback: Option<Seq<u8>>,
    stage: Stage<PrepareTrash>,
    past: Seq<Exchange>,
) -> bool {
    match stage {
        Step::Continue(PrepareTrashView::Shared { machine, fallback: other }) => {
            &&& fallback == Some(other)
            &&& machine.directory == trash_at(path)
            &&& path::parent(path) == Some(machine.shared)
            &&& match machine.phase {
                SharedPhase::Parent => true,
                SharedPhase::Create(part) => is_fit_to_share(past, machine.shared)
                    && real_parts_before(past, machine.directory, part),
                SharedPhase::Inspect(part) => is_fit_to_share(past, machine.shared)
                    && real_parts_before(past, machine.directory, part),
            }
        },
        Step::Continue(PrepareTrashView::Plain(machine)) => {
            &&& made_parts_before(past, machine.directory, machine.part)
            &&& match fallback {
                Some(fallback) => machine.directory == trash_at(fallback) && is_unusable(
                    past,
                    path,
                ),
                None => machine.directory == trash_at(path),
            }
        },
        Step::Continue(PrepareTrashView::Home(_)) => false,
        Step::Finish(Ok(prepared)) => match fallback {
            Some(fallback) => {
                ||| prepared == trash_at(path) && is_shared_trash_in_place(past, path)
                ||| prepared == trash_at(fallback) && is_plain_trash_in_place(past, fallback)
                    && is_unusable(past, path)
            },
            None => prepared == trash_at(path) && is_plain_trash_in_place(past, path),
        },
        Step::Finish(Err(error)) => {
            &&& error matches ErrorView::Io { path: failed, source } && machine::has_failed(
                past,
                failed,
                source,
            )
            &&& fallback is Some ==> is_unusable(past, path)
        },
    }
}

proof fn lemma_external_grows(past: Seq<Exchange>, last: Exchange)
    ensures
        forall|path: Seq<u8>| #[trigger]
            is_made(past, path) ==> is_made(past.push(last), path),
        forall|path: Seq<u8>| #[trigger]
            is_real_directory(past, path) ==> is_real_directory(past.push(last), path),
        forall|path: Seq<u8>| #[trigger]
            is_fit_to_share(past, path) ==> is_fit_to_share(past.push(last), path),
        forall|path: Seq<u8>| #[trigger]
            is_unusable(past, path) ==> is_unusable(past.push(last), path),
{
    let more = past.push(last);
    machine::lemma_past_grows(past, last);
    lemma_faults(past, last);
    assert forall|path: Seq<u8>, metadata: Metadata| #[trigger]
        past.contains(
            machine::exchange(
                RequestView::SymlinkMetadata { path },
                ReplyView::Metadata(metadata),
            ),
        ) implies more.contains(
        machine::exchange(RequestView::SymlinkMetadata { path }, ReplyView::Metadata(metadata)),
    ) by {}
    assert forall|path: Seq<u8>| #[trigger] is_fit_to_share(past, path) implies is_fit_to_share(
        more,
        path,
    ) by {
        let metadata = choose|metadata: Metadata|
            metadata.is_dir && !metadata.is_symlink && metadata.mode & 0o1000 != 0
                && #[trigger] past.contains(
                machine::exchange(
                    RequestView::SymlinkMetadata { path },
                    ReplyView::Metadata(metadata),
                ),
            );
        assert(more.contains(
            machine::exchange(
                RequestView::SymlinkMetadata { path },
                ReplyView::Metadata(metadata),
            ),
        ));
    }
    assert forall|path: Seq<u8>| #[trigger] is_unfit_to_share(past, path) implies is_unfit_to_share(
        more,
        path,
    ) by {
        let metadata = choose|metadata: Metadata|
            !(metadata.is_dir && !metadata.is_symlink && metadata.mode & 0o1000 != 0)
                && #[trigger] past.contains(
                machine::exchange(
                    RequestView::SymlinkMetadata { path },
                    ReplyView::Metadata(metadata),
                ),
            );
        assert(more.contains(
            machine::exchange(
                RequestView::SymlinkMetadata { path },
                ReplyView::Metadata(metadata),
            ),
        ));
    }
    assert forall|path: Seq<u8>| #[trigger] is_real_directory(past, path) implies is_real_directory(
        more,
        path,
    ) by {
        if !machine::was_done(past, RequestView::CreateDir { path }) {
            let metadata = choose|metadata: Metadata|
                metadata.is_dir && !metadata.is_symlink && #[trigger] past.contains(
                    machine::exchange(
                        RequestView::SymlinkMetadata { path },
                        ReplyView::Metadata(metadata),
                    ),
                );
            assert(more.contains(
                machine::exchange(
                    RequestView::SymlinkMetadata { path },
                    ReplyView::Metadata(metadata),
                ),
            ));
        }
    }
    assert forall|path: Seq<u8>| #[trigger] is_unusable(past, path) implies is_unusable(
        more,
        path,
    ) by {
        assert forall|failing: Seq<u8>| #[trigger] is_failing(past, failing) implies is_failing(
            more,
            failing,
        ) by {
            let source = choose|source: error::IoErrorView| #[trigger]
                machine::has_failed(past, failing, source);
            assert(machine::has_failed(more, failing, source));
        }
    }
}

proof fn lemma_external_step(
    path: Seq<u8>,
    fallback: Option<Seq<u8>>,
    state: PrepareTrashView,
    past: Seq<Exchange>,
    reply: ReplyView,
)
    requires
        external_holds(path, fallback, Step::Continue(state), past),
    ensures
        external_holds(
            path,
            fallback,
            PrepareTrash::next(state, reply),
            past.push(machine::exchange(PrepareTrash::pending(state), reply)),
        ),
{
    let last = machine::exchange(PrepareTrash::pending(state), reply);
    let more = past.push(last);
    machine::lemma_past_grows(past, last);
    lemma_faults(past, last);
    lemma_external_grows(past, last);
    match state {
        PrepareTrashView::Shared { machine, .. } => {
            match (machine.phase, reply) {
                (SharedPhase::Parent, ReplyView::Metadata(metadata)) => {
                    assert(more.contains(
                        machine::exchange(
                            RequestView::SymlinkMetadata { path: machine.shared },
                            ReplyView::Metadata(metadata),
                        ),
                    ));
                    if shared_fault(metadata) is None {
                        assert(is_fit_to_share(more, machine.shared));
                    } else {
                        assert(is_unfit_to_share(more, machine.shared));
                        assert(is_unusable(more, path));
                    }
                },
                (SharedPhase::Create(part), ReplyView::Done) => {
                    assert(is_real_directory(more, machine.directory.part(part)));
                },
                (SharedPhase::Inspect(part), ReplyView::Metadata(metadata)) => {
                    assert(more.contains(
                        machine::exchange(
                            RequestView::SymlinkMetadata { path: machine.directory.part(part) },
                            ReplyView::Metadata(metadata),
                        ),
                    ));
                    if metadata.is_dir && !metadata.is_symlink {
                        assert(is_real_directory(more, machine.directory.part(part)));
                    } else {
                        assert(is_no_directory(more, machine.directory.part(part)));
                        assert(is_unusable(more, path));
                    }
                },
                (phase, ReplyView::Failed(source)) => {
                    if !(phase is Create && source.kind == ErrorKind::AlreadyExists) {
                        let asked = match phase {
                            SharedPhase::Parent => machine.shared,
                            SharedPhase::Create(part) => machine.directory.part(part),
                            SharedPhase::Inspect(part) => machine.directory.part(part),
                        };
                        assert(machine::has_failed(more, asked, source));
                        assert(is_failing(more, asked));
                        assert(is_unusable(more, path));
                    }
                },
                _ => {},
            }
        },
        PrepareTrashView::Plain(machine) => {
            if reply is Done {
                assert(is_made(more, machine.directory.part(machine.part)));
            }
            if let ReplyView::Failed(source) = reply {
                assert(machine::has_failed(more, machine.directory.part(machine.part), source));
            }
        },
        PrepareTrashView::Home(_) => {},
    }
}

proof fn lemma_external(
    path: Seq<u8>,
    fallback: Option<Seq<u8>>,
    start: Stage<PrepareTrash>,
    replies: Seq<ReplyView>,
)
    requires
        external_holds(path, fallback, start, Seq::empty()),
    ensures
        external_holds(
            path,
            fallback,
            machine::after::<PrepareTrash>(start, replies),
            machine::history::<PrepareTrash>(start, replies),
        ),
{
    let holds = |stage: Stage<PrepareTrash>, past: Seq<Exchange>|
        external_holds(path, fallback, stage, past);
    assert(holds(start, Seq::empty()));
    assert forall|state: PrepareTrashView, past: Seq<Exchange>, reply: ReplyView|
        #![trigger holds(Step::Continue(state), past), PrepareTrash::next(state, reply)]
        holds(Step::Continue(state), past) implies holds(
        PrepareTrash::next(state, reply),
        past.push(machine::exchange(PrepareTrash::pending(state), reply)),
    ) by {
        lemma_external_step(path, fallback, state, past, reply);
    }
    machine::lemma_invariant::<PrepareTrash>(start, replies, holds);
}

/// A trash inside a shared directory is prepared where that is fit, and then its three directories
/// are in place and no symbolic links. The trash to fall back to is prepared only where the other
/// one cannot be had, and then its directories were created.
pub proof fn prepared_shared_trash_is_in_place(
    path: Seq<u8>,
    fallback: Seq<u8>,
    replies: Seq<ReplyView>,
    result: Result<TrashDirectoryView, ErrorView>,
)
    requires
        machine::after::<PrepareTrash>(or_fallback(prepare_shared(path), fallback), replies)
            == Step::<PrepareTrashView, Result<TrashDirectoryView, ErrorView>>::Finish(result),
    ensures
        ({
            let past = machine::history::<PrepareTrash>(
                or_fallback(prepare_shared(path), fallback),
                replies,
            );
            match result {
                Ok(prepared) => {
                    ||| prepared == trash_at(path) && is_shared_trash_in_place(past, path)
                    ||| prepared == trash_at(fallback) && is_plain_trash_in_place(past, fallback)
                        && is_unusable(past, path)
                },
                Err(error) => {
                    &&& error matches ErrorView::Io { path: failed, source }
                        && machine::has_failed(past, failed, source)
                    &&& is_unusable(past, path)
                },
            }
        }),
{
    lemma_external(path, Some(fallback), or_fallback(prepare_shared(path), fallback), replies);
}

/// A trash that the user has on another filesystem is prepared by creating its three directories,
/// and that fails only where the system fails.
pub proof fn prepared_plain_trash_is_in_place(
    path: Seq<u8>,
    replies: Seq<ReplyView>,
    result: Result<TrashDirectoryView, ErrorView>,
)
    requires
        machine::after::<PrepareTrash>(
            Step::Continue(PrepareTrashView::Plain(prepare_plain(path))),
            replies,
        ) == Step::<PrepareTrashView, Result<TrashDirectoryView, ErrorView>>::Finish(result),
    ensures
        ({
            let past = machine::history::<PrepareTrash>(
                Step::Continue(PrepareTrashView::Plain(prepare_plain(path))),
                replies,
            );
            match result {
                Ok(prepared) => prepared == trash_at(path) && is_plain_trash_in_place(past, path),
                Err(error) => error matches ErrorView::Io { path: failed, source }
                    && machine::has_failed(past, failed, source),
            }
        }),
{
    lemma_external(
        path,
        None,
        Step::Continue(PrepareTrashView::Plain(prepare_plain(path))),
        replies,
    );
}

/// The three directories of the user's own trash are in place.
pub open spec fn is_home_trash_in_place(past: Seq<Exchange>, path: Seq<u8>) -> bool {
    &&& is_directory(past, trash_at(path).path)
    &&& is_directory(past, trash_at(path).files)
    &&& is_directory(past, trash_at(path).info)
}

/// The directories are those of the trash that was to be prepared, and they are in place.
pub open spec fn is_prepared(
    past: Seq<Exchange>,
    is_home: bool,
    path: Seq<u8>,
    fallback: Option<Seq<u8>>,
    prepared: TrashDirectoryView,
) -> bool {
    if is_home {
        prepared == trash_at(path) && is_home_trash_in_place(past, path)
    } else if fallback is Some {
        ||| prepared == trash_at(path) && is_shared_trash_in_place(past, path)
        ||| prepared == trash_at(fallback->0) && is_plain_trash_in_place(past, fallback->0)
            && is_unusable(past, path)
    } else {
        prepared == trash_at(path) && is_plain_trash_in_place(past, path)
    }
}

/// What was prepared stays so.
pub proof fn lemma_still_prepared(
    past: Seq<Exchange>,
    last: Exchange,
    is_home: bool,
    path: Seq<u8>,
    fallback: Option<Seq<u8>>,
    prepared: TrashDirectoryView,
)
    requires
        is_prepared(past, is_home, path, fallback, prepared),
    ensures
        is_prepared(past.push(last), is_home, path, fallback, prepared),
{
    lemma_external_grows(past, last);
    lemma_directories_stay(past, last);
}

proof fn lemma_directories_stay(past: Seq<Exchange>, last: Exchange)
    ensures
        forall|path: Seq<u8>| #[trigger]
            is_directory(past, path) ==> is_directory(past.push(last), path),
{
    let more = past.push(last);
    machine::lemma_past_grows(past, last);
    assert forall|path: Seq<u8>| #[trigger] is_directory(past, path) implies is_directory(
        more,
        path,
    ) by {
        if !machine::was_done(past, RequestView::CreateDir { path }) {
            let metadata = choose|metadata: Metadata|
                metadata.is_dir && #[trigger] past.contains(
                    machine::exchange(
                        RequestView::Metadata { path },
                        ReplyView::Metadata(metadata),
                    ),
                );
            assert(more.contains(
                machine::exchange(RequestView::Metadata { path }, ReplyView::Metadata(metadata)),
            ));
        }
    }
}

/// What holds while a trash is prepared.
pub closed spec fn placing_holds(
    is_home: bool,
    path: Seq<u8>,
    fallback: Option<Seq<u8>>,
    stage: Stage<PrepareTrash>,
    past: Seq<Exchange>,
) -> bool {
    if is_home {
        match stage {
            Step::Continue(PrepareTrashView::Home(state)) => {
                &&& state.directory == trash_at(path)
                &&& parts_before(past, state.directory, state.part)
                &&& state.phase == HomePhase::Restrict ==> machine::was_done(
                    past,
                    RequestView::CreateDir { path: state.current },
                )
                &&& if state.waiting.len() == 0 {
                    state.current == state.directory.part(state.part)
                } else {
                    state.waiting[0] == state.directory.part(state.part)
                }
            },
            Step::Continue(_) => false,
            Step::Finish(Ok(prepared)) => is_prepared(past, is_home, path, fallback, prepared),
            Step::Finish(Err(error)) => is_preparation_fault(past, error),
        }
    } else {
        external_holds(path, fallback, stage, past)
    }
}

/// What holds of preparing a trash holds when that starts, whatever came before, and gives the
/// directories when it ends.
pub proof fn lemma_placing_starts(
    path: Seq<u8>,
    fallback: Seq<u8>,
    past: Seq<Exchange>,
    is_home: bool,
    other: Option<Seq<u8>>,
    result: Result<TrashDirectoryView, ErrorView>,
)
    ensures
        placing_holds(
            true,
            path,
            None,
            Step::Continue(
                PrepareTrashView::Home(PrepareHomeView::at(trash_at(path), Part::Whole)),
            ),
            past,
        ),
        placing_holds(
            false,
            path,
            Some(fallback),
            or_fallback(prepare_shared(path), fallback),
            past,
        ),
        placing_holds(
            false,
            path,
            None,
            Step::Continue(PrepareTrashView::Plain(prepare_plain(path))),
            past,
        ),
        placing_holds(is_home, path, other, Step::Finish(result), past) ==> match result {
            Ok(prepared) => is_prepared(past, is_home, path, other, prepared),
            Err(error) => is_preparation_fault(past, error),
        },
{
}

/// Preparing a trash keeps to what holds of it.
pub proof fn lemma_placing_step(
    is_home: bool,
    path: Seq<u8>,
    fallback: Option<Seq<u8>>,
    state: PrepareTrashView,
    past: Seq<Exchange>,
    reply: ReplyView,
)
    requires
        placing_holds(is_home, path, fallback, Step::Continue(state), past),
    ensures
        placing_holds(
            is_home,
            path,
            fallback,
            PrepareTrash::next(state, reply),
            past.push(machine::exchange(PrepareTrash::pending(state), reply)),
        ),
{
    if is_home {
        if let PrepareTrashView::Home(machine) = state {
            lemma_home_placing_step(path, fallback, machine, past, reply);
        }
    } else {
        lemma_external_step(path, fallback, state, past, reply);
    }
}

proof fn lemma_home_placing_step(
    path: Seq<u8>,
    fallback: Option<Seq<u8>>,
    state: PrepareHomeView,
    past: Seq<Exchange>,
    reply: ReplyView,
)
    requires
        placing_holds(true, path, fallback, Step::Continue(PrepareTrashView::Home(state)), past),
    ensures
        placing_holds(
            true,
            path,
            fallback,
            PrepareTrash::next(PrepareTrashView::Home(state), reply),
            past.push(machine::exchange(PrepareHome::pending(state), reply)),
        ),
{
    let last = machine::exchange(PrepareHome::pending(state), reply);
    let more = past.push(last);
    machine::lemma_past_grows(past, last);
    lemma_directories_stay(past, last);
    lemma_home_fault(state, past, reply);
    match (state.phase, reply) {
        (HomePhase::Restrict, ReplyView::Done) => {
            assert(is_directory(more, state.current));
        },
        (HomePhase::Inspect, ReplyView::Metadata(metadata)) => {
            if metadata.is_dir {
                assert(more.contains(
                    machine::exchange(
                        RequestView::Metadata { path: state.current },
                        ReplyView::Metadata(metadata),
                    ),
                ));
                assert(is_directory(more, state.current));
            }
        },
        _ => {},
    }
}

/// Every answer leads on.
pub proof fn plain_answers_lead_on(state: PreparePlainView, reply: ReplyView)
    requires
        machine::fits(PreparePlain::pending(state), reply),
    ensures
        PreparePlain::next(state, reply) matches Step::Continue(next) ==> next != state,
{
}

/// Every answer leads on.
pub proof fn home_answers_lead_on(state: PrepareHomeView, reply: ReplyView)
    requires
        machine::fits(PrepareHome::pending(state), reply),
    ensures
        PrepareHome::next(state, reply) matches Step::Continue(next) ==> next != state,
{
    path::parent_has_all_components_but_the_last(state.current);
    match PrepareHome::next(state, reply) {
        Step::Continue(next) => {
            if next == state {
                assert(state.waiting.len() == next.waiting.len());
            }
        },
        Step::Finish(_) => {},
    }
}

/// Every answer leads on.
pub proof fn shared_answers_lead_on(state: PrepareSharedView, reply: ReplyView)
    requires
        machine::fits(PrepareShared::pending(state), reply),
    ensures
        PrepareShared::next(state, reply) matches Step::Continue(next) ==> next != state,
{
}

/// Every answer leads on.
pub proof fn answers_lead_on(state: PrepareTrashView, reply: ReplyView)
    requires
        machine::fits(PrepareTrash::pending(state), reply),
    ensures
        PrepareTrash::next(state, reply) matches Step::Continue(next) ==> next != state,
{
    match state {
        PrepareTrashView::Home(machine) => home_answers_lead_on(machine, reply),
        PrepareTrashView::Shared { machine, .. } => shared_answers_lead_on(machine, reply),
        PrepareTrashView::Plain(machine) => plain_answers_lead_on(machine, reply),
    }
}

} // verus!
