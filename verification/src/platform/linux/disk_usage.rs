//! The disk space that an entry takes.

use std::collections::HashSet;
use vstd::prelude::*;

use crate::error::{Error, ErrorView};
use crate::machine::{
    self, Exchange, Machine, Metadata, Reply, ReplyView, Request, RequestView, Stage, Step,
};
use crate::path::PathBuf;
use crate::text::{self, to_lossy_text};

verus! {

/// How many bytes a block of disk space has.
pub const STAT_BLOCK_SIZE: u64 = 512;

/// The number that an entry has among all entries of all devices.
pub open spec fn file_key(dev: u64, ino: u64) -> u128 {
    (dev * 0x1_0000_0000_0000_0000 + ino) as u128
}

/// The sizes in a directory do not fit.
pub open spec fn size_overflow(path: Seq<u8>) -> ErrorView {
    ErrorView::Platform {
        path,
        message: "Directory size overflow for "@ + text::lossy_text(path),
    }
}

fn size_overflow_at(path: PathBuf) -> (error: Error)
    ensures
        error@ == size_overflow(path@),
{
    let message = "Directory size overflow for ".to_owned().concat(
        to_lossy_text(path.as_bytes()).as_str(),
    );
    Error::Platform { path, message }
}

/// A directory that is being measured, with what it takes as far as that is known.
#[derive(Debug)]
pub struct OpenDirectory {
    path: PathBuf,
    size: u64,
}

/// What an [`OpenDirectory`] says.
pub struct OpenDirectoryView {
    pub path: Seq<u8>,
    pub size: u64,
}

impl View for OpenDirectory {
    type V = OpenDirectoryView;

    closed spec fn view(&self) -> OpenDirectoryView {
        OpenDirectoryView { path: self.path@, size: self.size }
    }
}

/// What a [`DiskUsage`] waits for.
#[derive(Debug)]
pub enum UsagePhase {
    /// What an entry is.
    Inspect { path: PathBuf },
    /// A directory is opened.
    Open { path: PathBuf, size: u64 },
    /// The next entry of the innermost open directory.
    Next,
}

/// What a [`UsagePhase`] says.
pub enum UsagePhaseView {
    Inspect { path: Seq<u8> },
    Open { path: Seq<u8>, size: u64 },
    Next,
}

impl View for UsagePhase {
    type V = UsagePhaseView;

    open spec fn view(&self) -> UsagePhaseView {
        match self {
            UsagePhase::Inspect { path } => UsagePhaseView::Inspect { path: path@ },
            UsagePhase::Open { path, size } => UsagePhaseView::Open { path: path@, size: *size },
            UsagePhase::Next => UsagePhaseView::Next,
        }
    }
}

/// Measures the disk space that an entry takes, with all that is below it. An entry that comes up
/// again under another name counts once, and symbolic links are not followed.
#[derive(Debug)]
pub struct DiskUsage {
    open: Vec<OpenDirectory>,
    visited: HashSet<u128>,
    phase: UsagePhase,
}

/// What a [`DiskUsage`] has come to.
pub struct DiskUsageView {
    /// The open directories, the innermost last.
    pub open: Seq<OpenDirectoryView>,
    /// The entries that have been counted.
    pub visited: Set<u128>,
    /// What the machine waits for.
    pub phase: UsagePhaseView,
}

/// What the open directories say.
pub open spec fn open_views(open: Seq<OpenDirectory>) -> Seq<OpenDirectoryView> {
    open.map_values(|directory: OpenDirectory| directory@)
}

impl View for DiskUsage {
    type V = DiskUsageView;

    closed spec fn view(&self) -> DiskUsageView {
        DiskUsageView {
            open: open_views(self.open@),
            visited: self.visited@,
            phase: self.phase@,
        }
    }
}

/// How the measuring of an entry starts.
pub open spec fn usage_start(path: Seq<u8>) -> DiskUsageView {
    DiskUsageView {
        open: Seq::empty(),
        visited: Set::empty(),
        phase: UsagePhaseView::Inspect { path },
    }
}

impl DiskUsageView {
    /// The same measuring, with another thing to wait for.
    pub open spec fn with_phase(self, phase: UsagePhaseView) -> Self {
        DiskUsageView { phase, ..self }
    }

    /// What an entry takes is known: it is added to the directory that holds it.
    pub open spec fn measured(self, size: u64) -> Step<Self, Result<u64, ErrorView>> {
        if self.open.len() == 0 {
            Step::Finish(Ok(size))
        } else {
            let directory = self.open.last();
            if directory.size + size > u64::MAX {
                Step::Finish(Err(size_overflow(directory.path)))
            } else {
                let grown = OpenDirectoryView {
                    path: directory.path,
                    size: (directory.size + size) as u64,
                };
                Step::Continue(
                    DiskUsageView {
                        open: self.open.drop_last().push(grown),
                        phase: UsagePhaseView::Next,
                        ..self
                    },
                )
            }
        }
    }

    /// What an entry is has become known.
    pub open spec fn inspected(self, path: Seq<u8>, metadata: Metadata) -> Step<
        Self,
        Result<u64, ErrorView>,
    > {
        let key = file_key(metadata.dev, metadata.ino);
        if self.visited.contains(key) {
            self.measured(0)
        } else if metadata.blocks * STAT_BLOCK_SIZE > u64::MAX {
            Step::Finish(Err(size_overflow(path)))
        } else {
            let size = (metadata.blocks * STAT_BLOCK_SIZE) as u64;
            let counted = DiskUsageView { visited: self.visited.insert(key), ..self };
            if metadata.is_dir {
                Step::Continue(counted.with_phase(UsagePhaseView::Open { path, size }))
            } else {
                counted.measured(size)
            }
        }
    }
}

impl DiskUsage {
    /// Starts to measure an entry.
    pub fn start(path: PathBuf) -> (machine: Self)
        ensures
            machine@ == usage_start(path@),
    {
        let open: Vec<OpenDirectory> = Vec::new();
        assert(open_views(open@) =~= Seq::<OpenDirectoryView>::empty());
        DiskUsage { open, visited: HashSet::new(), phase: UsagePhase::Inspect { path } }
    }

    fn measured(self, size: u64) -> (step: Step<Self, Result<u64, Error>>)
        ensures
            machine::step_view(step) == self@.measured(size),
    {
        let mut open = self.open;
        let ghost before = open@;
        match open.pop() {
            None => Step::Finish(Ok(size)),
            Some(directory) => {
                assert(open_views(before).last() == directory@);
                match directory.size.checked_add(size) {
                    None => Step::Finish(Err(size_overflow_at(directory.path))),
                    Some(total) => {
                        let grown = OpenDirectory { path: directory.path, size: total };
                        open.push(grown);
                        assert(open_views(open@) =~= open_views(before).drop_last().push(grown@));
                        Step::Continue(
                            DiskUsage { open, visited: self.visited, phase: UsagePhase::Next },
                        )
                    },
                }
            },
        }
    }

    fn inspected(self, path: PathBuf, metadata: Metadata) -> (step: Step<
        Self,
        Result<u64, Error>,
    >)
        ensures
            machine::step_view(step) == self@.inspected(path@, metadata),
    {
        let key: u128 = metadata.dev as u128 * 0x1_0000_0000_0000_0000 + metadata.ino as u128;
        let mut visited = self.visited;
        if !visited.insert(key) {
            assert(visited@ =~= self.visited@);
            return (DiskUsage { open: self.open, visited, phase: self.phase }).measured(0);
        }
        match metadata.blocks.checked_mul(STAT_BLOCK_SIZE) {
            None => Step::Finish(Err(size_overflow_at(path))),
            Some(size) => {
                if metadata.is_dir {
                    Step::Continue(
                        DiskUsage {
                            open: self.open,
                            visited,
                            phase: UsagePhase::Open { path, size },
                        },
                    )
                } else {
                    (DiskUsage { open: self.open, visited, phase: self.phase }).measured(size)
                }
            },
        }
    }
}

impl Machine for DiskUsage {
    type Output = u64;

    open spec fn pending(state: DiskUsageView) -> RequestView {
        match state.phase {
            UsagePhaseView::Inspect { path } => RequestView::SymlinkMetadata { path },
            UsagePhaseView::Open { path, .. } => RequestView::OpenDir { path },
            UsagePhaseView::Next => RequestView::NextEntry,
        }
    }

    open spec fn next(state: DiskUsageView, reply: ReplyView) -> Step<
        DiskUsageView,
        Result<u64, ErrorView>,
    > {
        match (state.phase, reply) {
            (UsagePhaseView::Inspect { path }, ReplyView::Metadata(metadata)) => state.inspected(
                path,
                metadata,
            ),
            (UsagePhaseView::Inspect { path }, ReplyView::Failed(source)) => Step::Finish(
                Err(ErrorView::Io { path, source }),
            ),
            (UsagePhaseView::Open { path, size }, ReplyView::Done) => Step::Continue(
                DiskUsageView {
                    open: state.open.push(OpenDirectoryView { path, size }),
                    phase: UsagePhaseView::Next,
                    ..state
                },
            ),
            (UsagePhaseView::Open { path, .. }, ReplyView::Failed(source)) => Step::Finish(
                Err(ErrorView::Io { path, source }),
            ),
            (UsagePhaseView::Next, ReplyView::Entry(Some(path))) => Step::Continue(
                state.with_phase(UsagePhaseView::Inspect { path }),
            ),
            (UsagePhaseView::Next, ReplyView::Entry(None)) => if state.open.len() == 0 {
                Step::Continue(state)
            } else {
                (DiskUsageView { open: state.open.drop_last(), ..state }).measured(
                    state.open.last().size,
                )
            },
            (UsagePhaseView::Next, ReplyView::Failed(source)) => if state.open.len() == 0 {
                Step::Continue(state)
            } else {
                Step::Finish(Err(ErrorView::Io { path: state.open.last().path, source }))
            },
            _ => Step::Continue(state),
        }
    }

    proof fn other_replies_change_nothing(state: DiskUsageView, reply: ReplyView) {
    }

    fn request(&self) -> (request: Request) {
        match &self.phase {
            UsagePhase::Inspect { path } => Request::SymlinkMetadata { path: path.clone() },
            UsagePhase::Open { path, .. } => Request::OpenDir { path: path.clone() },
            UsagePhase::Next => Request::NextEntry,
        }
    }

    fn step(self, reply: Reply) -> (step: Step<Self, Result<u64, Error>>) {
        let ghost state = self@;
        let DiskUsage { open, visited, phase } = self;
        match (phase, reply) {
            (UsagePhase::Inspect { path }, Reply::Metadata(metadata)) => {
                let kept = path.clone();
                (DiskUsage { open, visited, phase: UsagePhase::Inspect { path: kept } }).inspected(
                    path,
                    metadata,
                )
            },
            (UsagePhase::Inspect { path }, Reply::Failed(source)) => Step::Finish(
                Err(Error::Io { path, source }),
            ),
            (UsagePhase::Open { path, size }, Reply::Done) => {
                let mut open = open;
                let ghost before = open@;
                let directory = OpenDirectory { path, size };
                open.push(directory);
                assert(open_views(open@) =~= open_views(before).push(directory@));
                Step::Continue(DiskUsage { open, visited, phase: UsagePhase::Next })
            },
            (UsagePhase::Open { path, .. }, Reply::Failed(source)) => Step::Finish(
                Err(Error::Io { path, source }),
            ),
            (UsagePhase::Next, Reply::Entry(Some(path))) => Step::Continue(
                DiskUsage { open, visited, phase: UsagePhase::Inspect { path } },
            ),
            (UsagePhase::Next, Reply::Entry(None)) => {
                let mut open = open;
                let ghost before = open@;
                match open.pop() {
                    None => Step::Continue(DiskUsage { open, visited, phase: UsagePhase::Next }),
                    Some(directory) => {
                        assert(open_views(before).last() == directory@);
                        assert(open_views(open@) =~= open_views(before).drop_last());
                        (DiskUsage { open, visited, phase: UsagePhase::Next }).measured(
                            directory.size,
                        )
                    },
                }
            },
            (UsagePhase::Next, Reply::Failed(source)) => {
                let mut open = open;
                let ghost before = open@;
                match open.pop() {
                    None => Step::Continue(DiskUsage { open, visited, phase: UsagePhase::Next }),
                    Some(directory) => {
                        assert(open_views(before).last() == directory@);
                        Step::Finish(Err(Error::Io { path: directory.path, source }))
                    },
                }
            },
            (phase, _) => Step::Continue(DiskUsage { open, visited, phase }),
        }
    }
}

/// The answers tell of the entry with this number on this device.
pub open spec fn is_seen(past: Seq<Exchange>, dev: u64, ino: u64) -> bool {
    exists|i: int|
        0 <= i < past.len() && (#[trigger] past[i] matches Exchange {
            request: RequestView::SymlinkMetadata { .. },
            reply: ReplyView::Metadata(metadata),
        } && metadata.dev == dev && metadata.ino == ino)
}

/// The entries that the answers tell of.
pub open spec fn entries_seen(past: Seq<Exchange>) -> Set<u128>
    decreases past.len(),
{
    if past.len() == 0 {
        Set::empty()
    } else {
        match past.last() {
            Exchange {
                request: RequestView::SymlinkMetadata { .. },
                reply: ReplyView::Metadata(metadata),
            } => entries_seen(past.drop_last()).insert(file_key(metadata.dev, metadata.ino)),
            _ => entries_seen(past.drop_last()),
        }
    }
}

/// Entries are told apart by their device and their number on it.
pub proof fn entries_are_told_apart(past: Seq<Exchange>, dev: u64, ino: u64)
    ensures
        entries_seen(past).contains(file_key(dev, ino)) <==> is_seen(past, dev, ino),
    decreases past.len(),
{
    if past.len() > 0 {
        let before = past.drop_last();
        entries_are_told_apart(before, dev, ino);
        lemma_seen(before, past.last(), dev, ino);
        assert(before.push(past.last()) =~= past);
    }
}

/// The disk space of the entries that the answers tell of, in bytes, each counted the first time
/// that it comes up. A block has 512 bytes.
pub open spec fn space_seen(past: Seq<Exchange>) -> int
    decreases past.len(),
{
    if past.len() == 0 {
        0
    } else {
        let before = past.drop_last();
        match past.last() {
            Exchange {
                request: RequestView::SymlinkMetadata { .. },
                reply: ReplyView::Metadata(metadata),
            } => if is_seen(before, metadata.dev, metadata.ino) {
                space_seen(before)
            } else {
                space_seen(before) + metadata.blocks * 512
            },
            _ => space_seen(before),
        }
    }
}

/// The entries that have been counted are those that the answers tell of.
spec fn visited_are_seen(visited: Set<u128>, past: Seq<Exchange>) -> bool {
    forall|dev: u64, ino: u64| #[trigger]
        visited.contains(file_key(dev, ino)) <==> is_seen(past, dev, ino)
}

proof fn lemma_seen(past: Seq<Exchange>, last: Exchange, dev: u64, ino: u64)
    ensures
        is_seen(past.push(last), dev, ino) == (is_seen(past, dev, ino) || (last matches Exchange {
            request: RequestView::SymlinkMetadata { .. },
            reply: ReplyView::Metadata(metadata),
        } && metadata.dev == dev && metadata.ino == ino)),
{
    let more = past.push(last);
    if is_seen(past, dev, ino) {
        let i = choose|i: int|
            0 <= i < past.len() && (#[trigger] past[i] matches Exchange {
                request: RequestView::SymlinkMetadata { .. },
                reply: ReplyView::Metadata(metadata),
            } && metadata.dev == dev && metadata.ino == ino);
        assert(more[i] == past[i]);
    }
    assert(more[past.len() as int] == last);
    if is_seen(more, dev, ino) {
        let i = choose|i: int|
            0 <= i < more.len() && (#[trigger] more[i] matches Exchange {
                request: RequestView::SymlinkMetadata { .. },
                reply: ReplyView::Metadata(metadata),
            } && metadata.dev == dev && metadata.ino == ino);
        if i < past.len() {
            assert(past[i] == more[i]);
        }
    }
}

proof fn lemma_visited(visited: Set<u128>, past: Seq<Exchange>, last: Exchange)
    requires
        visited_are_seen(visited, past),
    ensures
        last matches Exchange {
            request: RequestView::SymlinkMetadata { .. },
            reply: ReplyView::Metadata(metadata),
        } ==> visited_are_seen(
            visited.insert(file_key(metadata.dev, metadata.ino)),
            past.push(last),
        ),
        !(last.request is SymlinkMetadata && last.reply is Metadata) ==> visited_are_seen(
            visited,
            past.push(last),
        ),
{
    let more = past.push(last);
    match last {
        Exchange {
            request: RequestView::SymlinkMetadata { .. },
            reply: ReplyView::Metadata(metadata),
        } => {
            let key = file_key(metadata.dev, metadata.ino);
            assert forall|dev: u64, ino: u64| #[trigger]
                visited.insert(key).contains(file_key(dev, ino)) <==> is_seen(more, dev, ino) by {
                lemma_seen(past, last, dev, ino);
                assert(visited.contains(file_key(dev, ino)) <==> is_seen(past, dev, ino));
                assert(file_key(dev, ino) == key ==> dev == metadata.dev && ino == metadata.ino);
            }
        },
        _ => {
            assert forall|dev: u64, ino: u64| #[trigger]
                visited.contains(file_key(dev, ino)) <==> is_seen(more, dev, ino) by {
                lemma_seen(past, last, dev, ino);
            }
        },
    }
}

/// How many directories were opened.
pub open spec fn opened_count(past: Seq<Exchange>) -> int
    decreases past.len(),
{
    if past.len() == 0 {
        0
    } else {
        opened_count(past.drop_last()) + (if past.last().request is OpenDir && past.last().reply
            is Done {
            1int
        } else {
            0
        })
    }
}

/// How often the system said that there are no more entries.
pub open spec fn ended_count(past: Seq<Exchange>) -> int
    decreases past.len(),
{
    if past.len() == 0 {
        0
    } else {
        ended_count(past.drop_last()) + (if past.last() == machine::exchange(
            RequestView::NextEntry,
            ReplyView::Entry(None),
        ) {
            1int
        } else {
            0
        })
    }
}

/// The directory that was found at `i` was opened since.
pub open spec fn is_opened_after(past: Seq<Exchange>, i: int, path: Seq<u8>) -> bool {
    exists|j: int|
        i < j < past.len() && #[trigger] past[j] == machine::exchange(
            RequestView::OpenDir { path },
            ReplyView::Done,
        )
}

/// An entry that came up for the first time at `i` and is a directory was opened since, unless it
/// is this one.
pub open spec fn is_opened_where_new(past: Seq<Exchange>, i: int, but: Option<Seq<u8>>) -> bool {
    past[i] matches Exchange {
        request: RequestView::SymlinkMetadata { path },
        reply: ReplyView::Metadata(metadata),
    } ==> (metadata.is_dir && !is_seen(past.take(i), metadata.dev, metadata.ino) ==> but == Some(
        path,
    ) || is_opened_after(past, i, path))
}

/// Every entry that was found to be a directory, the first time that it came up, was opened since,
/// but perhaps this one.
pub open spec fn new_directories_are_opened(past: Seq<Exchange>, but: Option<Seq<u8>>) -> bool {
    forall|i: int| 0 <= i < past.len() ==> #[trigger] is_opened_where_new(past, i, but)
}

proof fn lemma_new_directories(
    past: Seq<Exchange>,
    last: Exchange,
    but: Option<Seq<u8>>,
    next: Option<Seq<u8>>,
)
    requires
        new_directories_are_opened(past, but),
        last matches Exchange {
            request: RequestView::SymlinkMetadata { path },
            reply: ReplyView::Metadata(metadata),
        } ==> (metadata.is_dir && !is_seen(past, metadata.dev, metadata.ino) ==> next == Some(
            path,
        )),
        but matches Some(path) ==> next == Some(path) || last == machine::exchange(
            RequestView::OpenDir { path },
            ReplyView::Done,
        ),
    ensures
        new_directories_are_opened(past.push(last), next),
{
    let more = past.push(last);
    assert(more[past.len() as int] == last);
    assert forall|i: int| 0 <= i < more.len() implies #[trigger] is_opened_where_new(
        more,
        i,
        next,
    ) by {
        assert(more.take(i) =~= past.take(i));
        if i < past.len() {
            assert(is_opened_where_new(past, i, but));
            assert(more[i] == past[i]);
            if let RequestView::SymlinkMetadata { path } = past[i].request {
                if is_opened_after(past, i, path) {
                    let j = choose|j: int|
                        i < j < past.len() && #[trigger] past[j] == machine::exchange(
                            RequestView::OpenDir { path },
                            ReplyView::Done,
                        );
                    assert(more[j] == past[j]);
                }
            }
        } else {
            assert(past.take(i) =~= past);
        }
    }
}

/// It is known that the path names a directory, and not a symbolic link to one.
pub open spec fn is_known_directory(past: Seq<Exchange>, path: Seq<u8>) -> bool {
    exists|metadata: Metadata|
        metadata.is_dir && #[trigger] past.contains(
            machine::exchange(
                RequestView::SymlinkMetadata { path },
                ReplyView::Metadata(metadata),
            ),
        )
}

/// Only directories were opened, and no symbolic link was followed.
pub open spec fn only_directories_are_opened(past: Seq<Exchange>) -> bool {
    forall|i: int|
        0 <= i < past.len() ==> (#[trigger] past[i].request matches RequestView::OpenDir { path }
            ==> is_known_directory(past.take(i), path))
}

/// The entry that was listed at `i` has been looked at since.
pub open spec fn is_inspected_after(past: Seq<Exchange>, i: int, path: Seq<u8>) -> bool {
    exists|j: int|
        i < j < past.len() && (#[trigger] past[j]).request == (RequestView::SymlinkMetadata {
            path,
        }) && past[j].reply is Metadata
}

/// Every entry that was listed has been looked at since, but perhaps this one.
pub open spec fn listed_entries_are_inspected(past: Seq<Exchange>, but: Option<Seq<u8>>) -> bool {
    forall|i: int|
        0 <= i < past.len() ==> (#[trigger] past[i] matches Exchange {
            request: RequestView::NextEntry,
            reply: ReplyView::Entry(Some(path)),
        } ==> but == Some(path) || is_inspected_after(past, i, path))
}

/// What the open directories take, as far as that is known.
spec fn open_size(open: Seq<OpenDirectoryView>) -> int
    decreases open.len(),
{
    if open.len() == 0 {
        0
    } else {
        open_size(open.drop_last()) + open.last().size
    }
}

/// The size is the disk space of the entry at the path and of all that is below it: it is that of
/// all entries that came up, each counted once, the first of them is the one at the path, and every
/// entry that was listed came up. Every directory that came up was opened and listed until the
/// system said that there are no more entries.
pub open spec fn is_size_of(past: Seq<Exchange>, path: Seq<u8>, size: u64) -> bool {
    &&& size == space_seen(past)
    &&& past.len() > 0
    &&& past[0].request == (RequestView::SymlinkMetadata { path })
    &&& listed_entries_are_inspected(past, None)
    &&& new_directories_are_opened(past, None)
    &&& opened_count(past) == ended_count(past)
}

/// What holds while an entry is measured.
pub closed spec fn usage_holds(
    start: Seq<u8>,
    stage: Stage<DiskUsage>,
    past: Seq<Exchange>,
) -> bool {
    &&& only_directories_are_opened(past)
    &&& past.len() > 0 ==> past[0].request == (RequestView::SymlinkMetadata { path: start })
    &&& match stage {
        Step::Continue(state) => {
            &&& past.len() == 0 ==> state.phase == (UsagePhaseView::Inspect { path: start })
            &&& visited_are_seen(state.visited, past)
            &&& state.open.len() == opened_count(past) - ended_count(past)
            &&& match state.phase {
                UsagePhaseView::Inspect { path } => {
                    &&& listed_entries_are_inspected(past, Some(path))
                    &&& new_directories_are_opened(past, None)
                    &&& open_size(state.open) == space_seen(past)
                },
                UsagePhaseView::Open { path, size } => {
                    &&& listed_entries_are_inspected(past, None)
                    &&& new_directories_are_opened(past, Some(path))
                    &&& is_known_directory(past, path)
                    &&& open_size(state.open) + size == space_seen(past)
                },
                UsagePhaseView::Next => {
                    &&& listed_entries_are_inspected(past, None)
                    &&& new_directories_are_opened(past, None)
                    &&& state.open.len() > 0
                    &&& open_size(state.open) == space_seen(past)
                },
            }
        },
        Step::Finish(Ok(size)) => is_size_of(past, start, size),
        Step::Finish(Err(error)) => is_usage_fault(past, error),
    }
}

/// The system failed, or the sizes do not fit.
pub open spec fn is_usage_fault(past: Seq<Exchange>, error: ErrorView) -> bool {
    match error {
        ErrorView::Io { path, source } => {
            &&& past.len() > 0
            &&& past.last().reply == ReplyView::Failed(source)
            &&& past.last().request matches RequestView::SymlinkMetadata { path: asked } ==> asked
                == path
            &&& past.last().request matches RequestView::OpenDir { path: asked } ==> asked == path
        },
        ErrorView::Platform { path, message } => space_seen(past) > u64::MAX && message
            == "Directory size overflow for "@ + text::lossy_text(path),
        _ => false,
    }
}

proof fn lemma_opened(past: Seq<Exchange>, last: Exchange)
    requires
        only_directories_are_opened(past),
        last.request matches RequestView::OpenDir { path } ==> is_known_directory(past, path),
    ensures
        only_directories_are_opened(past.push(last)),
{
    let more = past.push(last);
    assert forall|i: int| 0 <= i < more.len() implies (
    #[trigger] more[i].request matches RequestView::OpenDir { path } ==> is_known_directory(
        more.take(i),
        path,
    )) by {
        assert(more.take(i) =~= past.take(i));
        if i < past.len() {
            assert(more[i] == past[i]);
        } else {
            assert(past.take(i) =~= past);
        }
    }
}

proof fn lemma_inspected(
    past: Seq<Exchange>,
    last: Exchange,
    but: Option<Seq<u8>>,
    next: Option<Seq<u8>>,
)
    requires
        listed_entries_are_inspected(past, but),
        last.request is NextEntry ==> (last.reply matches ReplyView::Entry(Some(path)) ==> next
            == Some(path)),
        but matches Some(path) ==> next == Some(path) || last.request == (
        RequestView::SymlinkMetadata { path }) && last.reply is Metadata,
    ensures
        listed_entries_are_inspected(past.push(last), next),
{
    let more = past.push(last);
    assert(more[past.len() as int] == last);
    assert forall|i: int| 0 <= i < more.len() implies (#[trigger] more[i] matches Exchange {
        request: RequestView::NextEntry,
        reply: ReplyView::Entry(Some(path)),
    } ==> next == Some(path) || is_inspected_after(more, i, path)) by {
        if i < past.len() {
            assert(more[i] == past[i]);
            if let ReplyView::Entry(Some(path)) = past[i].reply {
                if is_inspected_after(past, i, path) {
                    let j = choose|j: int|
                        i < j < past.len() && (#[trigger] past[j]).request == (
                        RequestView::SymlinkMetadata { path }) && past[j].reply is Metadata;
                    assert(more[j] == past[j]);
                }
            }
        }
    }
}

proof fn lemma_open_size(open: Seq<OpenDirectoryView>)
    ensures
        open_size(open) >= 0,
    decreases open.len(),
{
    if open.len() > 0 {
        lemma_open_size(open.drop_last());
    }
}

proof fn lemma_measured(start: Seq<u8>, state: DiskUsageView, size: u64, past: Seq<Exchange>)
    requires
        past.len() > 0,
        past[0].request == (RequestView::SymlinkMetadata { path: start }),
        only_directories_are_opened(past),
        listed_entries_are_inspected(past, None),
        new_directories_are_opened(past, None),
        visited_are_seen(state.visited, past),
        state.open.len() == opened_count(past) - ended_count(past),
        open_size(state.open) + size == space_seen(past),
    ensures
        usage_holds(start, state.measured(size), past),
{
    if state.open.len() > 0 {
        let directory = state.open.last();
        let grown = OpenDirectoryView {
            path: directory.path,
            size: (directory.size + size) as u64,
        };
        let open = state.open.drop_last().push(grown);
        assert(open.drop_last() =~= state.open.drop_last());
        lemma_open_size(state.open.drop_last());
    }
}

/// Measuring keeps to what holds of it.
pub proof fn lemma_usage_step(
    start: Seq<u8>,
    state: DiskUsageView,
    past: Seq<Exchange>,
    reply: ReplyView,
)
    requires
        usage_holds(start, Step::Continue(state), past),
    ensures
        usage_holds(
            start,
            DiskUsage::next(state, reply),
            past.push(machine::exchange(DiskUsage::pending(state), reply)),
        ),
{
    let last = machine::exchange(DiskUsage::pending(state), reply);
    let more = past.push(last);
    assert(more.drop_last() =~= past);
    assert(more[0] == if past.len() > 0 {
        past[0]
    } else {
        last
    });
    machine::lemma_past_grows(past, last);
    lemma_opened(past, last);
    lemma_visited(state.visited, past, last);
    match (state.phase, reply) {
        (UsagePhaseView::Inspect { path }, ReplyView::Metadata(metadata)) => {
            let key = file_key(metadata.dev, metadata.ino);
            lemma_inspected(past, last, Some(path), None);
            assert(state.visited.contains(key) == is_seen(past, metadata.dev, metadata.ino));
            if state.visited.contains(key) {
                assert(state.visited.insert(key) =~= state.visited);
                lemma_new_directories(past, last, None, None);
                lemma_measured(start, state, 0, more);
            } else {
                lemma_open_size(state.open);
                if metadata.blocks * STAT_BLOCK_SIZE <= u64::MAX {
                    let size = (metadata.blocks * STAT_BLOCK_SIZE) as u64;
                    let counted = DiskUsageView { visited: state.visited.insert(key), ..state };
                    if metadata.is_dir {
                        assert(is_known_directory(more, path));
                        lemma_new_directories(past, last, None, Some(path));
                    } else {
                        lemma_new_directories(past, last, None, None);
                        lemma_measured(start, counted, size, more);
                    }
                }
            }
        },
        (UsagePhaseView::Inspect { path }, _) => {
            lemma_inspected(past, last, Some(path), Some(path));
            lemma_new_directories(past, last, None, None);
        },
        (UsagePhaseView::Open { path, size }, _) => {
            lemma_inspected(past, last, None, None);
            lemma_new_directories(past, last, Some(path), Some(path));
            if reply is Done {
                lemma_new_directories(past, last, Some(path), None);
            }
            let opened = state.open.push(OpenDirectoryView { path, size });
            assert(opened.drop_last() =~= state.open);
            assert(is_known_directory(more, path)) by {
                let metadata = choose|metadata: Metadata|
                    metadata.is_dir && #[trigger] past.contains(
                        machine::exchange(
                            RequestView::SymlinkMetadata { path },
                            ReplyView::Metadata(metadata),
                        ),
                    );
                assert(more.contains(
                    machine::exchange(
                        RequestView::SymlinkMetadata { path },
                        ReplyView::Metadata(metadata),
                    ),
                ));
            }
        },
        (UsagePhaseView::Next, ReplyView::Entry(Some(path))) => {
            lemma_inspected(past, last, None, Some(path));
            lemma_new_directories(past, last, None, None);
        },
        (UsagePhaseView::Next, ReplyView::Entry(None)) => {
            lemma_inspected(past, last, None, None);
            lemma_new_directories(past, last, None, None);
            lemma_measured(
                start,
                DiskUsageView { open: state.open.drop_last(), ..state },
                state.open.last().size,
                more,
            );
        },
        (UsagePhaseView::Next, _) => {
            lemma_inspected(past, last, None, None);
            lemma_new_directories(past, last, None, None);
        },
    }
}

/// What holds of measuring holds when it starts, and gives the size when it ends.
pub proof fn lemma_usage_start(
    path: Seq<u8>,
    past: Seq<Exchange>,
    result: Result<u64, ErrorView>,
)
    ensures
        usage_holds(path, Step::Continue(usage_start(path)), Seq::empty()),
        usage_holds(path, Step::Finish(result), past) ==> match result {
            Ok(size) => is_size_of(past, path, size),
            Err(error) => is_usage_fault(past, error),
        },
{
}

proof fn lemma_usage(path: Seq<u8>, replies: Seq<ReplyView>)
    ensures
        usage_holds(
            path,
            machine::after::<DiskUsage>(Step::Continue(usage_start(path)), replies),
            machine::history::<DiskUsage>(Step::Continue(usage_start(path)), replies),
        ),
{
    let start = Step::Continue(usage_start(path));
    let holds = |stage: Stage<DiskUsage>, past: Seq<Exchange>| usage_holds(path, stage, past);
    assert(holds(start, Seq::empty()));
    assert forall|state: DiskUsageView, past: Seq<Exchange>, reply: ReplyView|
        #![trigger holds(Step::Continue(state), past), DiskUsage::next(state, reply)]
        holds(Step::Continue(state), past) implies holds(
        DiskUsage::next(state, reply),
        past.push(machine::exchange(DiskUsage::pending(state), reply)),
    ) by {
        lemma_usage_step(path, state, past, reply);
    }
    machine::lemma_invariant::<DiskUsage>(start, replies, holds);
}

/// The size that is found is the disk space of all entries that came up, each counted once. The
/// first of them is the one at the path. Every entry that was listed came up, and every directory
/// that came up, at any depth, was opened and listed until the system said that there are no more
/// entries.
pub proof fn disk_usage_counts_each_entry_once(path: Seq<u8>, replies: Seq<ReplyView>, size: u64)
    requires
        machine::after::<DiskUsage>(Step::Continue(usage_start(path)), replies) == Step::<
            DiskUsageView,
            Result<u64, ErrorView>,
        >::Finish(Ok(size)),
    ensures
        ({
            let past = machine::history::<DiskUsage>(
                Step::Continue(usage_start(path)),
                replies,
            );
            &&& size == space_seen(past)
            &&& listed_entries_are_inspected(past, None)
            &&& is_size_of(past, path, size)
        }),
{
    lemma_usage(path, replies);
}

/// Measuring opens directories and follows no symbolic link.
pub proof fn disk_usage_follows_no_links(path: Seq<u8>, replies: Seq<ReplyView>)
    ensures
        only_directories_are_opened(
            machine::history::<DiskUsage>(Step::Continue(usage_start(path)), replies),
        ),
{
    lemma_usage(path, replies);
}

/// Measuring fails only where the system fails, or where the sizes do not fit.
pub proof fn failed_measuring_has_a_reason(
    path: Seq<u8>,
    replies: Seq<ReplyView>,
    error: ErrorView,
)
    requires
        machine::after::<DiskUsage>(Step::Continue(usage_start(path)), replies) == Step::<
            DiskUsageView,
            Result<u64, ErrorView>,
        >::Finish(Err(error)),
    ensures
        is_usage_fault(
            machine::history::<DiskUsage>(Step::Continue(usage_start(path)), replies),
            error,
        ),
{
    lemma_usage(path, replies);
}

/// Every answer leads on, while a directory is open.
pub proof fn answers_lead_on(state: DiskUsageView, reply: ReplyView)
    requires
        machine::fits(DiskUsage::pending(state), reply),
        state.phase is Next ==> state.open.len() > 0,
    ensures
        DiskUsage::next(state, reply) matches Step::Continue(next) ==> next != state,
{
    if state.phase is Next && state.open.len() > 0 {
        assert(state.open.drop_last().len() < state.open.len());
    }
}

} // verus!
