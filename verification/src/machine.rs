//! Operations that alternate decisions with requests to the operating system.
//!
//! An operation is a machine: it asks one thing at a time, and the answer decides what it asks
//! next or how it ends. Whoever runs the machine performs the requests.

use vstd::prelude::*;

use crate::clock::{LocalTime, SystemTime};
use crate::error::{self, Error, ErrorKind, ErrorView, IoError, IoErrorView};
use crate::path::PathBuf;

verus! {

/// What the machines read of a filesystem entry.
#[derive(Clone, Copy, Debug, PartialEq, Eq, Structural)]
pub struct Metadata {
    /// The entry is a directory.
    pub is_dir: bool,
    /// The entry is a symbolic link.
    pub is_symlink: bool,
    /// The permission bits.
    pub mode: u32,
    /// The user that owns the entry.
    pub uid: u32,
    /// The device that holds the entry.
    pub dev: u64,
    /// The number of the entry on its device.
    pub ino: u64,
    /// How many blocks of disk space the entry takes.
    pub blocks: u64,
    /// When the entry was last modified, in seconds.
    pub mtime: i64,
}

/// The user, and the directories that the user has set.
#[derive(Debug)]
pub struct Environment {
    /// The number of the user.
    pub user_id: u32,
    /// The value of `XDG_DATA_HOME`.
    pub xdg_data_home: Option<Vec<u8>>,
    /// The value of `HOME`.
    pub home: Option<Vec<u8>>,
}

/// What an [`Environment`] says.
pub struct EnvironmentView {
    pub user_id: u32,
    pub xdg_data_home: Option<Seq<u8>>,
    pub home: Option<Seq<u8>>,
}

/// What an optional byte string says.
pub open spec fn bytes_view(bytes: Option<Vec<u8>>) -> Option<Seq<u8>> {
    match bytes {
        Some(bytes) => Some(bytes@),
        None => None,
    }
}

impl View for Environment {
    type V = EnvironmentView;

    open spec fn view(&self) -> EnvironmentView {
        EnvironmentView {
            user_id: self.user_id,
            xdg_data_home: bytes_view(self.xdg_data_home),
            home: bytes_view(self.home),
        }
    }
}

/// A request to the operating system.
#[derive(Debug)]
pub enum Request {
    /// The current directory.
    CurrentDir,
    /// The path with every symbolic link resolved.
    Canonicalize { path: PathBuf },
    /// What the entry is; a symbolic link is described itself.
    SymlinkMetadata { path: PathBuf },
    /// What the entry is; symbolic links are followed.
    Metadata { path: PathBuf },
    /// Create a directory that does not exist yet, in one that does.
    CreateDir { path: PathBuf },
    /// Create a directory, and the directories above it that are missing.
    CreateDirAll { path: PathBuf },
    /// Give an entry these permission bits.
    SetMode { path: PathBuf, mode: u32 },
    /// Create a file that does not exist yet, and keep it open.
    CreateFile { path: PathBuf },
    /// Write a text to the file that was created last, and close the file.
    WriteFile { path: PathBuf, contents: String },
    /// Give an entry another path.
    Rename { from: PathBuf, to: PathBuf },
    /// Remove an entry that is no directory.
    RemoveFile { path: PathBuf },
    /// Remove an empty directory.
    RemoveDir { path: PathBuf },
    /// The bytes of a file.
    ReadFile { path: PathBuf },
    /// The text of a file.
    ReadText { path: PathBuf },
    /// Start to list a directory, inside the listings that are under way.
    OpenDir { path: PathBuf },
    /// The next entry of the directory that was opened last; at its end the listing is over.
    NextEntry,
    /// Make sure that the user may create and remove entries of a directory.
    CheckAccess { path: PathBuf },
    /// The user whose rights count.
    EffectiveUser,
    /// The number of this process.
    ProcessId,
    /// The user and the directories that the user has set.
    Environment,
    /// The time, in the local time zone.
    LocalTime,
    /// The time of the system clock.
    SystemTime,
    /// Let the file manager move an item to its trash; a NUL ends the representation of its path.
    MoveToTrash { representation: Vec<u8>, is_dir: bool },
}

/// What a [`Request`] asks.
pub enum RequestView {
    CurrentDir,
    Canonicalize { path: Seq<u8> },
    SymlinkMetadata { path: Seq<u8> },
    Metadata { path: Seq<u8> },
    CreateDir { path: Seq<u8> },
    CreateDirAll { path: Seq<u8> },
    SetMode { path: Seq<u8>, mode: u32 },
    CreateFile { path: Seq<u8> },
    WriteFile { path: Seq<u8>, contents: Seq<char> },
    Rename { from: Seq<u8>, to: Seq<u8> },
    RemoveFile { path: Seq<u8> },
    RemoveDir { path: Seq<u8> },
    ReadFile { path: Seq<u8> },
    ReadText { path: Seq<u8> },
    OpenDir { path: Seq<u8> },
    NextEntry,
    CheckAccess { path: Seq<u8> },
    EffectiveUser,
    ProcessId,
    Environment,
    LocalTime,
    SystemTime,
    MoveToTrash { representation: Seq<u8>, is_dir: bool },
}

impl View for Request {
    type V = RequestView;

    open spec fn view(&self) -> RequestView {
        match self {
            Request::CurrentDir => RequestView::CurrentDir,
            Request::Canonicalize { path } => RequestView::Canonicalize { path: path@ },
            Request::SymlinkMetadata { path } => RequestView::SymlinkMetadata { path: path@ },
            Request::Metadata { path } => RequestView::Metadata { path: path@ },
            Request::CreateDir { path } => RequestView::CreateDir { path: path@ },
            Request::CreateDirAll { path } => RequestView::CreateDirAll { path: path@ },
            Request::SetMode { path, mode } => RequestView::SetMode { path: path@, mode: *mode },
            Request::CreateFile { path } => RequestView::CreateFile { path: path@ },
            Request::WriteFile { path, contents } => RequestView::WriteFile {
                path: path@,
                contents: contents@,
            },
            Request::Rename { from, to } => RequestView::Rename { from: from@, to: to@ },
            Request::RemoveFile { path } => RequestView::RemoveFile { path: path@ },
            Request::RemoveDir { path } => RequestView::RemoveDir { path: path@ },
            Request::ReadFile { path } => RequestView::ReadFile { path: path@ },
            Request::ReadText { path } => RequestView::ReadText { path: path@ },
            Request::OpenDir { path } => RequestView::OpenDir { path: path@ },
            Request::NextEntry => RequestView::NextEntry,
            Request::CheckAccess { path } => RequestView::CheckAccess { path: path@ },
            Request::EffectiveUser => RequestView::EffectiveUser,
            Request::ProcessId => RequestView::ProcessId,
            Request::Environment => RequestView::Environment,
            Request::LocalTime => RequestView::LocalTime,
            Request::SystemTime => RequestView::SystemTime,
            Request::MoveToTrash { representation, is_dir } => RequestView::MoveToTrash {
                representation: representation@,
                is_dir: *is_dir,
            },
        }
    }
}

impl RequestView {
    /// Carrying out the request changes what the filesystem holds.
    pub open spec fn changes_files(self) -> bool {
        ||| self is CreateDir
        ||| self is CreateDirAll
        ||| self is SetMode
        ||| self is CreateFile
        ||| self is WriteFile
        ||| self is Rename
        ||| self is RemoveFile
        ||| self is RemoveDir
        ||| self is MoveToTrash
    }
}

/// The answer to a [`Request`].
#[derive(Debug)]
pub enum Reply {
    /// The request was carried out.
    Done,
    /// The path that was asked for.
    Path(PathBuf),
    /// What the entry is.
    Metadata(Metadata),
    /// The bytes of the file.
    Bytes(Vec<u8>),
    /// The text of the file.
    Text(String),
    /// The path of the directory's next entry, or nothing at its end.
    Entry(Option<PathBuf>),
    /// The number of the user.
    User(u32),
    /// The number of the process.
    Process(u32),
    /// The user and the directories that the user has set.
    Environment(Environment),
    /// The time, in the local time zone.
    Time(LocalTime),
    /// The time of the system clock.
    SystemTime(SystemTime),
    /// The path that the item has in the trash, where the file manager tells it.
    Trashed(Option<Vec<u8>>),
    /// The request failed.
    Failed(IoError),
}

/// What a [`Reply`] says.
pub enum ReplyView {
    Done,
    Path(Seq<u8>),
    Metadata(Metadata),
    Bytes(Seq<u8>),
    Text(Seq<char>),
    Entry(Option<Seq<u8>>),
    User(u32),
    Process(u32),
    Environment(EnvironmentView),
    Time(LocalTime),
    SystemTime(SystemTime),
    Trashed(Option<Seq<u8>>),
    Failed(IoErrorView),
}

impl View for Reply {
    type V = ReplyView;

    open spec fn view(&self) -> ReplyView {
        match self {
            Reply::Done => ReplyView::Done,
            Reply::Path(path) => ReplyView::Path(path@),
            Reply::Metadata(metadata) => ReplyView::Metadata(*metadata),
            Reply::Bytes(bytes) => ReplyView::Bytes(bytes@),
            Reply::Text(text) => ReplyView::Text(text@),
            Reply::Entry(Some(path)) => ReplyView::Entry(Some(path@)),
            Reply::Entry(None) => ReplyView::Entry(None),
            Reply::User(user) => ReplyView::User(*user),
            Reply::Process(process) => ReplyView::Process(*process),
            Reply::Environment(environment) => ReplyView::Environment(environment@),
            Reply::Time(time) => ReplyView::Time(*time),
            Reply::SystemTime(time) => ReplyView::SystemTime(*time),
            Reply::Trashed(path) => ReplyView::Trashed(bytes_view(*path)),
            Reply::Failed(error) => ReplyView::Failed(error@),
        }
    }
}

/// The reply is of the sort that answers the request. The requests for the user, the process and
/// the environment and for the time of the system clock cannot fail.
pub open spec fn fits(request: RequestView, reply: ReplyView) -> bool {
    match request {
        RequestView::CurrentDir => reply is Path || reply is Failed,
        RequestView::Canonicalize { .. } => reply is Path || reply is Failed,
        RequestView::SymlinkMetadata { .. } => reply is Metadata || reply is Failed,
        RequestView::Metadata { .. } => reply is Metadata || reply is Failed,
        RequestView::ReadFile { .. } => reply is Bytes || reply is Failed,
        RequestView::ReadText { .. } => reply is Text || reply is Failed,
        RequestView::NextEntry => reply is Entry || reply is Failed,
        RequestView::EffectiveUser => reply is User,
        RequestView::ProcessId => reply is Process,
        RequestView::Environment => reply is Environment,
        RequestView::LocalTime => reply is Time || reply is Failed,
        RequestView::SystemTime => reply is SystemTime,
        RequestView::MoveToTrash { .. } => reply is Trashed || reply is Failed,
        _ => reply is Done || reply is Failed,
    }
}

/// What becomes of a machine: it goes on, or it has ended with a result.
#[derive(Debug)]
pub enum Step<M, T> {
    /// The machine waits for the answer to its next request.
    Continue(M),
    /// The operation is over.
    Finish(T),
}

/// An operation that asks the operating system one thing at a time.
pub trait Machine: Sized + View {
    /// What the operation gives back when it succeeds.
    type Output: View;

    /// The request that the machine waits for an answer to.
    spec fn pending(state: Self::V) -> RequestView;

    /// What becomes of the machine with this answer.
    spec fn next(state: Self::V, reply: ReplyView) -> Step<
        Self::V,
        Result<<Self::Output as View>::V, ErrorView>,
    >;

    /// The request that the machine waits for an answer to.
    fn request(&self) -> (request: Request)
        ensures
            request@ == Self::pending(self@),
    ;

    /// A reply of another sort than was asked for leaves the machine as it is.
    proof fn other_replies_change_nothing(state: Self::V, reply: ReplyView)
        requires
            !fits(Self::pending(state), reply),
        ensures
            Self::next(state, reply) == Stage::<Self>::Continue(state),
    ;

    /// Takes the answer to the pending request. A reply of another sort than was asked for
    /// leaves the machine as it is.
    fn step(self, reply: Reply) -> (step: Step<Self, Result<Self::Output, Error>>)
        ensures
            step_view(step) == Self::next(self@, reply@),
    ;
}

/// What a step says: the view of the machine or of its result.
pub open spec fn step_view<M: View, T: View>(step: Step<M, Result<T, Error>>) -> Step<
    M::V,
    Result<T::V, ErrorView>,
> {
    match step {
        Step::Continue(machine) => Step::Continue(machine@),
        Step::Finish(result) => Step::Finish(error::result_view(result)),
    }
}

/// What a machine has come to: a state or a result.
pub type Stage<M> = Step<
    <M as View>::V,
    Result<<<M as Machine>::Output as View>::V, ErrorView>,
>;

/// A request, and the answer to it.
pub struct Exchange {
    /// What was asked.
    pub request: RequestView,
    /// What was answered.
    pub reply: ReplyView,
}

/// What a machine comes to with these answers.
pub open spec fn after<M: Machine>(start: Stage<M>, replies: Seq<ReplyView>) -> Stage<M>
    decreases replies.len(),
{
    if replies.len() == 0 {
        start
    } else {
        match after::<M>(start, replies.drop_last()) {
            Step::Continue(state) => M::next(state, replies.last()),
            Step::Finish(result) => Step::Finish(result),
        }
    }
}

/// What a machine asks on the way, with the answers that it gets.
pub open spec fn history<M: Machine>(start: Stage<M>, replies: Seq<ReplyView>) -> Seq<Exchange>
    decreases replies.len(),
{
    if replies.len() == 0 {
        Seq::empty()
    } else {
        let before = history::<M>(start, replies.drop_last());
        match after::<M>(start, replies.drop_last()) {
            Step::Continue(state) => before.push(
                Exchange { request: M::pending(state), reply: replies.last() },
            ),
            Step::Finish(_) => before,
        }
    }
}

/// The exchange with this request and this answer.
pub open spec fn exchange(request: RequestView, reply: ReplyView) -> Exchange {
    Exchange { request, reply }
}

/// The request was carried out.
pub open spec fn was_done(past: Seq<Exchange>, request: RequestView) -> bool {
    past.contains(exchange(request, ReplyView::Done))
}

/// What was exchanged stays known.
pub proof fn lemma_past_grows(past: Seq<Exchange>, last: Exchange)
    ensures
        past.push(last).contains(last),
        forall|known: Exchange| #[trigger]
            past.contains(known) ==> past.push(last).contains(known),
        forall|request: RequestView| #[trigger]
            was_done(past, request) ==> was_done(past.push(last), request),
        forall|request: RequestView|
            last == exchange(request, ReplyView::Done) ==> #[trigger] was_done(
                past.push(last),
                request,
            ),
{
    let more = past.push(last);
    assert(more[past.len() as int] == last);
    assert forall|known: Exchange| #[trigger] past.contains(known) implies more.contains(known) by {
        let i = choose|i: int| 0 <= i < past.len() && past[i] == known;
        assert(more[i] == known);
    }
    assert forall|request: RequestView| #[trigger] was_done(past, request) implies was_done(
        more,
        request,
    ) by {
        assert(past.contains(exchange(request, ReplyView::Done)));
    }
}

/// What holds when a machine starts, and is kept by each of its steps, holds after all answers.
pub proof fn lemma_invariant<M: Machine>(
    start: Stage<M>,
    replies: Seq<ReplyView>,
    holds: spec_fn(Stage<M>, Seq<Exchange>) -> bool,
)
    requires
        holds(start, Seq::empty()),
        forall|state: M::V, past: Seq<Exchange>, reply: ReplyView|
            #![trigger holds(Step::Continue(state), past), M::next(state, reply)]
            holds(Step::Continue(state), past) ==> holds(
                M::next(state, reply),
                past.push(exchange(M::pending(state), reply)),
            ),
    ensures
        holds(after::<M>(start, replies), history::<M>(start, replies)),
    decreases replies.len(),
{
    if replies.len() > 0 {
        lemma_invariant::<M>(start, replies.drop_last(), holds);
        let before = after::<M>(start, replies.drop_last());
        match before {
            Step::Continue(state) => {
                assert(holds(Step::Continue(state), history::<M>(start, replies.drop_last())));
                assert(M::next(state, replies.last()) == after::<M>(start, replies));
            },
            Step::Finish(_) => {},
        }
    }
}

/// The failure is one that a machine has to reckon with: something that is to be created is there
/// already, or something that is to be removed is gone.
pub open spec fn is_expected(request: RequestView, kind: ErrorKind) -> bool {
    ||| (request is CreateFile || request is CreateDir) && kind == ErrorKind::AlreadyExists
    ||| (request is RemoveFile || request is RemoveDir) && kind == ErrorKind::NotFound
}

/// The request is about what is at the path. One to move something is about what it moves.
pub open spec fn is_about(request: RequestView, path: Seq<u8>) -> bool {
    match request {
        RequestView::Canonicalize { path: asked } => asked == path,
        RequestView::SymlinkMetadata { path: asked } => asked == path,
        RequestView::Metadata { path: asked } => asked == path,
        RequestView::CreateDir { path: asked } => asked == path,
        RequestView::CreateDirAll { path: asked } => asked == path,
        RequestView::SetMode { path: asked, .. } => asked == path,
        RequestView::CreateFile { path: asked } => asked == path,
        RequestView::WriteFile { path: asked, .. } => asked == path,
        RequestView::Rename { from, .. } => from == path,
        RequestView::RemoveFile { path: asked } => asked == path,
        RequestView::RemoveDir { path: asked } => asked == path,
        RequestView::ReadFile { path: asked } => asked == path,
        RequestView::ReadText { path: asked } => asked == path,
        RequestView::OpenDir { path: asked } => asked == path,
        RequestView::CheckAccess { path: asked } => asked == path,
        _ => false,
    }
}

/// The system failed at something that is about the path, in a way that was not to be expected.
pub open spec fn has_failed(past: Seq<Exchange>, path: Seq<u8>, source: IoErrorView) -> bool {
    exists|request: RequestView| #[trigger]
        past.contains(exchange(request, ReplyView::Failed(source))) && is_about(request, path)
            && !is_expected(request, source.kind)
}

/// A failure stays known.
pub proof fn lemma_failures_stay(past: Seq<Exchange>, last: Exchange)
    ensures
        forall|path: Seq<u8>, source: IoErrorView| #[trigger]
            has_failed(past, path, source) ==> has_failed(past.push(last), path, source),
        forall|path: Seq<u8>, source: IoErrorView|
            last.reply == ReplyView::Failed(source) && is_about(last.request, path) && !is_expected(
                last.request,
                source.kind,
            ) ==> #[trigger] has_failed(past.push(last), path, source),
{
    let more = past.push(last);
    lemma_past_grows(past, last);
    assert forall|path: Seq<u8>, source: IoErrorView| #[trigger]
        has_failed(past, path, source) implies has_failed(more, path, source) by {
        let request = choose|request: RequestView| #[trigger]
            past.contains(exchange(request, ReplyView::Failed(source))) && is_about(request, path)
                && !is_expected(request, source.kind);
        assert(more.contains(exchange(request, ReplyView::Failed(source))));
    }
    if let ReplyView::Failed(source) = last.reply {
        assert(more.contains(exchange(last.request, ReplyView::Failed(source))));
    }
}

} // verus!
