//! Moving an item to the place in a trash that is kept for it.

use vstd::prelude::*;

use crate::error::{Error, ErrorKind, ErrorView, IoError, IoErrorView};
use crate::machine::{
    self, Exchange, Machine, Metadata, Reply, ReplyView, Request, RequestView, Stage, Step,
};
use crate::path::PathBuf;

verus! {

/// What kind of item is moved.
#[derive(Clone, Copy, Debug, PartialEq, Eq, Structural)]
pub enum PayloadKind {
    /// Anything but a directory; a symbolic link is no directory.
    File,
    /// A directory.
    Directory,
}

impl View for PayloadKind {
    type V = PayloadKind;

    open spec fn view(&self) -> PayloadKind {
        *self
    }
}

/// The kind of an entry, from whether it is a directory.
pub open spec fn kind_of(is_dir: bool) -> PayloadKind {
    if is_dir {
        PayloadKind::Directory
    } else {
        PayloadKind::File
    }
}

/// Moves an item to a path that nothing has. An empty entry is created there first, so that
/// nothing that is there already is replaced; where the move fails, that entry is removed again.
#[derive(Debug)]
pub enum MovePayload {
    /// What the item is.
    Inspect { path: PathBuf, trash_path: PathBuf },
    /// An empty entry is created where the item goes.
    Place { path: PathBuf, trash_path: PathBuf, kind: PayloadKind },
    /// The item is moved.
    Move { path: PathBuf, trash_path: PathBuf, kind: PayloadKind },
    /// The empty entry is removed, because the item could not be moved.
    CleanUp { path: PathBuf, trash_path: PathBuf, kind: PayloadKind, source: IoError },
}

/// What a [`MovePayload`] waits for.
pub enum MovePayloadView {
    Inspect { path: Seq<u8>, trash_path: Seq<u8> },
    Place { path: Seq<u8>, trash_path: Seq<u8>, kind: PayloadKind },
    Move { path: Seq<u8>, trash_path: Seq<u8>, kind: PayloadKind },
    CleanUp { path: Seq<u8>, trash_path: Seq<u8>, kind: PayloadKind, source: IoErrorView },
}

impl View for MovePayload {
    type V = MovePayloadView;

    open spec fn view(&self) -> MovePayloadView {
        match self {
            MovePayload::Inspect { path, trash_path } => MovePayloadView::Inspect {
                path: path@,
                trash_path: trash_path@,
            },
            MovePayload::Place { path, trash_path, kind } => MovePayloadView::Place {
                path: path@,
                trash_path: trash_path@,
                kind: *kind,
            },
            MovePayload::Move { path, trash_path, kind } => MovePayloadView::Move {
                path: path@,
                trash_path: trash_path@,
                kind: *kind,
            },
            MovePayload::CleanUp { path, trash_path, kind, source } => MovePayloadView::CleanUp {
                path: path@,
                trash_path: trash_path@,
                kind: *kind,
                source: source@,
            },
        }
    }
}

impl MovePayload {
    /// Starts to move the item at `path` to `trash_path`.
    pub fn start(path: PathBuf, trash_path: PathBuf) -> (machine: Self)
        ensures
            machine@ == (MovePayloadView::Inspect { path: path@, trash_path: trash_path@ }),
    {
        MovePayload::Inspect { path, trash_path }
    }
}

impl Machine for MovePayload {
    type Output = PayloadKind;

    open spec fn pending(state: MovePayloadView) -> RequestView {
        match state {
            MovePayloadView::Inspect { path, .. } => RequestView::SymlinkMetadata { path },
            MovePayloadView::Place { trash_path, kind, .. } => match kind {
                PayloadKind::File => RequestView::CreateFile { path: trash_path },
                PayloadKind::Directory => RequestView::CreateDir { path: trash_path },
            },
            MovePayloadView::Move { path, trash_path, .. } => RequestView::Rename {
                from: path,
                to: trash_path,
            },
            MovePayloadView::CleanUp { trash_path, kind, .. } => match kind {
                PayloadKind::File => RequestView::RemoveFile { path: trash_path },
                PayloadKind::Directory => RequestView::RemoveDir { path: trash_path },
            },
        }
    }

    open spec fn next(state: MovePayloadView, reply: ReplyView) -> Step<
        MovePayloadView,
        Result<PayloadKind, ErrorView>,
    > {
        match (state, reply) {
            (MovePayloadView::Inspect { path, trash_path }, ReplyView::Metadata(metadata)) => {
                Step::Continue(
                    MovePayloadView::Place { path, trash_path, kind: kind_of(metadata.is_dir) },
                )
            },
            (MovePayloadView::Inspect { path, .. }, ReplyView::Failed(source)) => Step::Finish(
                Err(ErrorView::Io { path, source }),
            ),
            (MovePayloadView::Place { path, trash_path, kind }, ReplyView::Done) => Step::Continue(
                MovePayloadView::Move { path, trash_path, kind },
            ),
            (MovePayloadView::Place { trash_path, .. }, ReplyView::Failed(source)) => Step::Finish(
                Err(ErrorView::Io { path: trash_path, source }),
            ),
            (MovePayloadView::Move { kind, .. }, ReplyView::Done) => Step::Finish(Ok(kind)),
            (MovePayloadView::Move { path, trash_path, kind }, ReplyView::Failed(source)) => {
                Step::Continue(MovePayloadView::CleanUp { path, trash_path, kind, source })
            },
            (MovePayloadView::CleanUp { path, source, .. }, ReplyView::Done) => Step::Finish(
                Err(ErrorView::Io { path, source }),
            ),
            (
                MovePayloadView::CleanUp { path, trash_path, source, .. },
                ReplyView::Failed(cleanup),
            ) => if cleanup.kind == ErrorKind::NotFound {
                Step::Finish(Err(ErrorView::Io { path, source }))
            } else {
                Step::Finish(Err(ErrorView::Io { path: trash_path, source: cleanup }))
            },
            _ => Step::Continue(state),
        }
    }

    proof fn other_replies_change_nothing(state: MovePayloadView, reply: ReplyView) {
    }

    fn request(&self) -> (request: Request) {
        match self {
            MovePayload::Inspect { path, .. } => Request::SymlinkMetadata { path: path.clone() },
            MovePayload::Place { trash_path, kind, .. } => match kind {
                PayloadKind::File => Request::CreateFile { path: trash_path.clone() },
                PayloadKind::Directory => Request::CreateDir { path: trash_path.clone() },
            },
            MovePayload::Move { path, trash_path, .. } => Request::Rename {
                from: path.clone(),
                to: trash_path.clone(),
            },
            MovePayload::CleanUp { trash_path, kind, .. } => match kind {
                PayloadKind::File => Request::RemoveFile { path: trash_path.clone() },
                PayloadKind::Directory => Request::RemoveDir { path: trash_path.clone() },
            },
        }
    }

    fn step(self, reply: Reply) -> (step: Step<Self, Result<PayloadKind, Error>>) {
        match (self, reply) {
            (MovePayload::Inspect { path, trash_path }, Reply::Metadata(metadata)) => {
                let kind = if metadata.is_dir {
                    PayloadKind::Directory
                } else {
                    PayloadKind::File
                };
                Step::Continue(MovePayload::Place { path, trash_path, kind })
            },
            (MovePayload::Inspect { path, .. }, Reply::Failed(source)) => Step::Finish(
                Err(Error::Io { path, source }),
            ),
            (MovePayload::Place { path, trash_path, kind }, Reply::Done) => Step::Continue(
                MovePayload::Move { path, trash_path, kind },
            ),
            (MovePayload::Place { trash_path, .. }, Reply::Failed(source)) => Step::Finish(
                Err(Error::Io { path: trash_path, source }),
            ),
            (MovePayload::Move { kind, .. }, Reply::Done) => Step::Finish(Ok(kind)),
            (MovePayload::Move { path, trash_path, kind }, Reply::Failed(source)) => {
                Step::Continue(MovePayload::CleanUp { path, trash_path, kind, source })
            },
            (MovePayload::CleanUp { path, source, .. }, Reply::Done) => Step::Finish(
                Err(Error::Io { path, source }),
            ),
            (MovePayload::CleanUp { path, trash_path, source, .. }, Reply::Failed(cleanup)) => {
                if cleanup.kind == ErrorKind::NotFound {
                    Step::Finish(Err(Error::Io { path, source }))
                } else {
                    Step::Finish(Err(Error::Io { path: trash_path, source: cleanup }))
                }
            },
            (machine, _) => Step::Continue(machine),
        }
    }
}

/// The request was made, whatever came of it.
pub open spec fn was_asked(past: Seq<Exchange>, request: RequestView) -> bool {
    exists|i: int| 0 <= i < past.len() && #[trigger] past[i].request == request
}

/// The empty entry at the path, if one was created, has been removed, or at least that was tried.
pub open spec fn placeholder_is_removed(past: Seq<Exchange>, path: Seq<u8>) -> bool {
    &&& machine::was_done(past, RequestView::CreateFile { path }) ==> was_asked(
        past,
        RequestView::RemoveFile { path },
    )
    &&& machine::was_done(past, RequestView::CreateDir { path }) ==> was_asked(
        past,
        RequestView::RemoveDir { path },
    )
}

/// The system told what the item is: a directory, or anything else.
pub open spec fn is_kind_of(past: Seq<Exchange>, item: Seq<u8>, kind: PayloadKind) -> bool {
    exists|metadata: Metadata|
        (kind == PayloadKind::Directory <==> metadata.is_dir) && #[trigger] past.contains(
            machine::exchange(
                RequestView::SymlinkMetadata { path: item },
                ReplyView::Metadata(metadata),
            ),
        )
}

/// The request looks at the item, creates or removes an empty entry at the place, or moves the item
/// there.
pub open spec fn is_about_move(request: RequestView, item: Seq<u8>, place: Seq<u8>) -> bool {
    match request {
        RequestView::SymlinkMetadata { path } => path == item,
        RequestView::Rename { from, to } => from == item && to == place,
        RequestView::CreateFile { path } => path == place,
        RequestView::CreateDir { path } => path == place,
        RequestView::RemoveFile { path } => path == place,
        RequestView::RemoveDir { path } => path == place,
        _ => false,
    }
}

/// The system failed at looking at the item, at creating or removing the empty entry at the place,
/// or at moving the item there, and that is about the path.
pub open spec fn is_move_failure(
    past: Seq<Exchange>,
    item: Seq<u8>,
    place: Seq<u8>,
    path: Seq<u8>,
    source: IoErrorView,
) -> bool {
    exists|request: RequestView| #[trigger]
        past.contains(machine::exchange(request, ReplyView::Failed(source))) && is_about_move(
            request,
            item,
            place,
        ) && machine::is_about(request, path) && !((request is RemoveFile
            || request is RemoveDir) && source.kind == ErrorKind::NotFound)
}

/// The error tells what the system failed at.
pub open spec fn is_move_fault(
    past: Seq<Exchange>,
    item: Seq<u8>,
    place: Seq<u8>,
    error: ErrorView,
) -> bool {
    error matches ErrorView::Io { path, source } && is_move_failure(
        past,
        item,
        place,
        path,
        source,
    )
}

proof fn lemma_kind_stays(past: Seq<Exchange>, last: Exchange, item: Seq<u8>, place: Seq<u8>)
    ensures
        forall|kind: PayloadKind| #[trigger]
            is_kind_of(past, item, kind) ==> is_kind_of(past.push(last), item, kind),
        forall|path: Seq<u8>, source: IoErrorView| #[trigger]
            is_move_failure(past, item, place, path, source) ==> is_move_failure(
                past.push(last),
                item,
                place,
                path,
                source,
            ),
{
    let more = past.push(last);
    machine::lemma_past_grows(past, last);
    assert forall|kind: PayloadKind| #[trigger] is_kind_of(past, item, kind) implies is_kind_of(
        more,
        item,
        kind,
    ) by {
        let metadata = choose|metadata: Metadata|
            (kind == PayloadKind::Directory <==> metadata.is_dir) && #[trigger] past.contains(
                machine::exchange(
                    RequestView::SymlinkMetadata { path: item },
                    ReplyView::Metadata(metadata),
                ),
            );
        assert(more.contains(
            machine::exchange(
                RequestView::SymlinkMetadata { path: item },
                ReplyView::Metadata(metadata),
            ),
        ));
    }
}

spec fn move_holds(
    item: Seq<u8>,
    place: Seq<u8>,
    stage: Stage<MovePayload>,
    past: Seq<Exchange>,
) -> bool {
    let file = machine::was_done(past, RequestView::CreateFile { path: place });
    let directory = machine::was_done(past, RequestView::CreateDir { path: place });
    match stage {
        Step::Continue(MovePayloadView::Inspect { path, trash_path }) => {
            &&& path == item
            &&& trash_path == place
            &&& !file && !directory
        },
        Step::Continue(MovePayloadView::Place { path, trash_path, kind }) => {
            &&& path == item
            &&& trash_path == place
            &&& is_kind_of(past, item, kind)
            &&& !file && !directory
        },
        Step::Continue(MovePayloadView::Move { path, trash_path, kind }) => {
            &&& path == item
            &&& trash_path == place
            &&& is_kind_of(past, item, kind)
            &&& file == (kind == PayloadKind::File)
            &&& directory == (kind == PayloadKind::Directory)
        },
        Step::Continue(MovePayloadView::CleanUp { path, trash_path, kind, source }) => {
            &&& path == item
            &&& trash_path == place
            &&& is_move_failure(past, item, place, item, source)
            &&& file == (kind == PayloadKind::File)
            &&& directory == (kind == PayloadKind::Directory)
        },
        Step::Finish(Ok(kind)) => {
            &&& is_kind_of(past, item, kind)
            &&& file == (kind == PayloadKind::File)
            &&& directory == (kind == PayloadKind::Directory)
            &&& machine::was_done(past, RequestView::Rename { from: item, to: place })
        },
        Step::Finish(Err(error)) => placeholder_is_removed(past, place) && is_move_fault(
            past,
            item,
            place,
            error,
        ),
    }
}

proof fn lemma_move(item: Seq<u8>, place: Seq<u8>, replies: Seq<ReplyView>)
    ensures
        ({
            let start = Step::Continue(
                MovePayloadView::Inspect { path: item, trash_path: place },
            );
            move_holds(
                item,
                place,
                machine::after::<MovePayload>(start, replies),
                machine::history::<MovePayload>(start, replies),
            )
        }),
{
    let start = Step::Continue(MovePayloadView::Inspect { path: item, trash_path: place });
    let holds = |stage: Stage<MovePayload>, past: Seq<Exchange>|
        move_holds(item, place, stage, past);
    assert(holds(start, Seq::empty()));
    assert forall|state: MovePayloadView, past: Seq<Exchange>, reply: ReplyView|
        #![trigger holds(Step::Continue(state), past), MovePayload::next(state, reply)]
        holds(Step::Continue(state), past) implies holds(
        MovePayload::next(state, reply),
        past.push(machine::exchange(MovePayload::pending(state), reply)),
    ) by {
        let last = machine::exchange(MovePayload::pending(state), reply);
        let more = past.push(last);
        machine::lemma_past_grows(past, last);
        assert(more[past.len() as int].request == last.request);
        assert(was_asked(more, last.request));
        lemma_nothing_else_is_done(past, last, RequestView::CreateFile { path: place });
        lemma_nothing_else_is_done(past, last, RequestView::CreateDir { path: place });
        lemma_kind_stays(past, last, item, place);
        match (state, reply) {
            (MovePayloadView::Inspect { .. }, ReplyView::Metadata(metadata)) => {
                assert(more.contains(
                    machine::exchange(
                        RequestView::SymlinkMetadata { path: item },
                        ReplyView::Metadata(metadata),
                    ),
                ));
                assert(is_kind_of(more, item, kind_of(metadata.is_dir)));
            },
            (_, ReplyView::Failed(source)) => {
                assert(more.contains(machine::exchange(last.request, ReplyView::Failed(source))));
                if state !is CleanUp || source.kind != ErrorKind::NotFound {
                    let asked = if state is Inspect || state is Move {
                        item
                    } else {
                        place
                    };
                    assert(is_move_failure(more, item, place, asked, source));
                }
            },
            _ => {},
        }
    }
    machine::lemma_invariant::<MovePayload>(start, replies, holds);
}

proof fn lemma_nothing_else_is_done(past: Seq<Exchange>, last: Exchange, request: RequestView)
    ensures
        machine::was_done(past.push(last), request) ==> machine::was_done(past, request) || last
            == machine::exchange(request, ReplyView::Done),
{
    let more = past.push(last);
    let done = machine::exchange(request, ReplyView::Done);
    if machine::was_done(more, request) && last != done {
        let i = choose|i: int| 0 <= i < more.len() && more[i] == done;
        assert(past[i] == done);
    }
}

/// When an item could not be moved, the empty entry that was created for it has been removed
/// again, or at least that was tried, and the error tells what the system failed at.
pub proof fn failed_moves_remove_the_placeholder(
    item: Seq<u8>,
    place: Seq<u8>,
    replies: Seq<ReplyView>,
    error: ErrorView,
)
    requires
        machine::after::<MovePayload>(
            Step::Continue(MovePayloadView::Inspect { path: item, trash_path: place }),
            replies,
        ) == Step::<MovePayloadView, Result<PayloadKind, ErrorView>>::Finish(Err(error)),
    ensures
        placeholder_is_removed(
            machine::history::<MovePayload>(
                Step::Continue(MovePayloadView::Inspect { path: item, trash_path: place }),
                replies,
            ),
            place,
        ),
        is_move_fault(
            machine::history::<MovePayload>(
                Step::Continue(MovePayloadView::Inspect { path: item, trash_path: place }),
                replies,
            ),
            item,
            place,
            error,
        ),
{
    lemma_move(item, place, replies);
}

/// When an item was moved, it replaced an empty entry of its own kind that had been created for
/// it.
pub proof fn moved_items_replace_their_placeholder(
    item: Seq<u8>,
    place: Seq<u8>,
    replies: Seq<ReplyView>,
    kind: PayloadKind,
)
    requires
        machine::after::<MovePayload>(
            Step::Continue(MovePayloadView::Inspect { path: item, trash_path: place }),
            replies,
        ) == Step::<MovePayloadView, Result<PayloadKind, ErrorView>>::Finish(Ok(kind)),
    ensures
        ({
            let past = machine::history::<MovePayload>(
                Step::Continue(MovePayloadView::Inspect { path: item, trash_path: place }),
                replies,
            );
            &&& is_kind_of(past, item, kind)
            &&& machine::was_done(past, RequestView::Rename { from: item, to: place })
            &&& kind == PayloadKind::File ==> machine::was_done(
                past,
                RequestView::CreateFile { path: place },
            )
            &&& kind == PayloadKind::Directory ==> machine::was_done(
                past,
                RequestView::CreateDir { path: place },
            )
        }),
{
    lemma_move(item, place, replies);
}

/// Every answer leads on.
pub proof fn answers_lead_on(state: MovePayloadView, reply: ReplyView)
    requires
        machine::fits(MovePayload::pending(state), reply),
    ensures
        MovePayload::next(state, reply) matches Step::Continue(next) ==> next != state,
{
}

} // verus!
