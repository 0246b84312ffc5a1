//! The trash of the macOS file manager.

use vstd::prelude::*;
use vstd::slice::slice_to_vec;

use crate::discard::{self, DiscardTarget, DiscardTargetView};
use crate::error::{self, Error, ErrorKind, ErrorView, IoError, IoErrorView};
use crate::machine::{
    self, Exchange, Machine, Metadata, Reply, ReplyView, Request, RequestView, Stage, Step,
};
use crate::path::PathBuf;
use crate::text::{self, push_ascii, push_decimal, to_lossy_text};
use crate::{TrashItem, TrashItemView, TrashItems};

verus! {

/// The byte that ends a path for the file manager.
pub const NUL: u8 = 0;

/// How many bytes precede the first NUL.
pub open spec fn bytes_before_nul(bytes: Seq<u8>) -> nat
    decreases bytes.len(),
{
    if bytes.len() == 0 || bytes[0] == NUL {
        0
    } else {
        1 + bytes_before_nul(bytes.skip(1))
    }
}

/// The path holds a NUL, so that it cannot be handed to the file manager.
pub open spec fn interior_nul(position: nat) -> IoErrorView {
    error::own_failure(
        ErrorKind::InvalidInput,
        "nul byte found in provided data at position: "@ + text::ascii_text(
            text::decimal(position),
        ),
    )
}

/// The path as the file manager takes it: with a NUL behind it, and none in it.
pub open spec fn file_representation(path: Seq<u8>) -> Result<Seq<u8>, ErrorView> {
    if path.contains(NUL) {
        Err(ErrorView::Io { path, source: interior_nul(bytes_before_nul(path)) })
    } else {
        Ok(path.push(NUL))
    }
}

/// What a representation, or the failure to make one, says.
pub open spec fn representation_view(representation: Result<Vec<u8>, Error>) -> Result<
    Seq<u8>,
    ErrorView,
> {
    match representation {
        Ok(bytes) => Ok(bytes@),
        Err(error) => Err(error@),
    }
}

/// The path as the file manager takes it: with a NUL behind it, and none in it.
pub fn to_file_representation(path: &PathBuf) -> (representation: Result<Vec<u8>, Error>)
    ensures
        representation_view(representation) == file_representation(path@),
{
    let bytes = path.as_bytes();
    let mut i: usize = 0;
    assert(path@.skip(0) =~= path@);
    while i < bytes.len()
        invariant
            i <= bytes@.len(),
            bytes@ == path@,
            forall|k: int| 0 <= k < i ==> path@[k] != NUL,
            bytes_before_nul(path@) == i + bytes_before_nul(path@.skip(i as int)),
        decreases bytes@.len() - i,
    {
        if bytes[i] == NUL {
            assert(path@[i as int] == NUL);
            let mut position: Vec<u8> = Vec::new();
            push_decimal(&mut position, i as u64);
            assert(position@ =~= text::decimal(i as nat));
            let mut message = "nul byte found in provided data at position: ".to_owned();
            push_ascii(&mut message, position.as_slice());
            let source = IoError { kind: ErrorKind::InvalidInput, code: None, message };
            return Err(Error::Io { path: path.clone(), source });
        }
        assert(path@.skip(i as int).skip(1) =~= path@.skip(i + 1));
        i = i + 1;
    }
    let mut representation = slice_to_vec(bytes);
    representation.push(NUL);
    Ok(representation)
}

/// Lets the file manager move an item to its trash.
#[derive(Debug)]
pub enum Discard {
    /// What the item is.
    Inspect { target: DiscardTarget, representation: Vec<u8> },
    /// The file manager moves the item.
    Move { target: DiscardTarget, representation: Vec<u8>, is_dir: bool },
    /// The time, once the item has been moved.
    Clock { target: DiscardTarget, id: Vec<u8> },
}

/// What a [`Discard`] waits for.
pub enum DiscardView {
    Inspect { target: DiscardTargetView, representation: Seq<u8> },
    Move { target: DiscardTargetView, representation: Seq<u8>, is_dir: bool },
    Clock { target: DiscardTargetView, id: Seq<u8> },
}

impl View for Discard {
    type V = DiscardView;

    open spec fn view(&self) -> DiscardView {
        match self {
            Discard::Inspect { target, representation } => DiscardView::Inspect {
                target: target@,
                representation: representation@,
            },
            Discard::Move { target, representation, is_dir } => DiscardView::Move {
                target: target@,
                representation: representation@,
                is_dir: *is_dir,
            },
            Discard::Clock { target, id } => DiscardView::Clock { target: target@, id: id@ },
        }
    }
}

/// How an item is moved to the trash.
pub open spec fn discard(target: DiscardTargetView) -> Result<DiscardView, ErrorView> {
    match file_representation(target.path) {
        Ok(representation) => Ok(DiscardView::Inspect { target, representation }),
        Err(error) => Err(error),
    }
}

/// The file manager did not move the item.
pub open spec fn rejected(path: Seq<u8>, reason: Seq<char>) -> ErrorView {
    ErrorView::Platform {
        path,
        message: "File manager rejected "@ + text::lossy_text(path) + ": "@ + reason,
    }
}

/// The file manager does not tell where the item is.
pub open spec fn no_trashed_url(path: Seq<u8>) -> ErrorView {
    ErrorView::Platform {
        path,
        message: "File manager did not return a trashed item URL for "@ + text::lossy_text(path),
    }
}

impl Discard {
    /// Starts to let the file manager move an item to its trash.
    pub fn start(target: DiscardTarget) -> (machine: Result<Self, Error>)
        ensures
            error::result_view(machine) == discard(target@),
    {
        match to_file_representation(&target.path) {
            Ok(representation) => Ok(Discard::Inspect { target, representation }),
            Err(error) => Err(error),
        }
    }
}

impl Machine for Discard {
    type Output = TrashItem;

    open spec fn pending(state: DiscardView) -> RequestView {
        match state {
            DiscardView::Inspect { target, .. } => RequestView::SymlinkMetadata {
                path: target.path,
            },
            DiscardView::Move { representation, is_dir, .. } => RequestView::MoveToTrash {
                representation,
                is_dir,
            },
            DiscardView::Clock { .. } => RequestView::SystemTime,
        }
    }

    open spec fn next(state: DiscardView, reply: ReplyView) -> Step<
        DiscardView,
        Result<TrashItemView, ErrorView>,
    > {
        match (state, reply) {
            (DiscardView::Inspect { target, representation }, ReplyView::Metadata(metadata)) => {
                Step::Continue(
                    DiscardView::Move { target, representation, is_dir: metadata.is_dir },
                )
            },
            (DiscardView::Inspect { target, .. }, ReplyView::Failed(source)) => Step::Finish(
                Err(ErrorView::Io { path: target.path, source }),
            ),
            (DiscardView::Move { target, .. }, ReplyView::Trashed(Some(id))) => Step::Continue(
                DiscardView::Clock { target, id },
            ),
            (DiscardView::Move { target, .. }, ReplyView::Trashed(None)) => Step::Finish(
                Err(no_trashed_url(target.path)),
            ),
            (DiscardView::Move { target, .. }, ReplyView::Failed(source)) => Step::Finish(
                Err(rejected(target.path, source.message)),
            ),
            (DiscardView::Clock { target, id }, ReplyView::SystemTime(time)) => Step::Finish(
                Ok(
                    TrashItemView {
                        id,
                        original_name: target.original_name,
                        original_parent: target.original_parent,
                        discarded_at: time,
                    },
                ),
            ),
            _ => Step::Continue(state),
        }
    }

    proof fn other_replies_change_nothing(state: DiscardView, reply: ReplyView) {
    }

    fn request(&self) -> (request: Request) {
        match self {
            Discard::Inspect { target, .. } => Request::SymlinkMetadata {
                path: target.path.clone(),
            },
            Discard::Move { representation, is_dir, .. } => Request::MoveToTrash {
                representation: slice_to_vec(representation.as_slice()),
                is_dir: *is_dir,
            },
            Discard::Clock { .. } => Request::SystemTime,
        }
    }

    fn step(self, reply: Reply) -> (step: Step<Self, Result<TrashItem, Error>>) {
        match (self, reply) {
            (Discard::Inspect { target, representation }, Reply::Metadata(metadata)) => {
                Step::Continue(Discard::Move { target, representation, is_dir: metadata.is_dir })
            },
            (Discard::Inspect { target, .. }, Reply::Failed(source)) => Step::Finish(
                Err(Error::Io { path: target.path, source }),
            ),
            (Discard::Move { target, .. }, Reply::Trashed(Some(id))) => Step::Continue(
                Discard::Clock { target, id },
            ),
            (Discard::Move { target, .. }, Reply::Trashed(None)) => {
                let shown = to_lossy_text(target.path.as_bytes());
                let message =
                    "File manager did not return a trashed item URL for ".to_owned().concat(
                    shown.as_str(),
                );
                Step::Finish(Err(Error::Platform { path: target.path, message }))
            },
            (Discard::Move { target, .. }, Reply::Failed(source)) => {
                let message = "File manager rejected ".to_owned().concat(
                    to_lossy_text(target.path.as_bytes()).as_str(),
                ).concat(": ").concat(source.message.as_str());
                Step::Finish(Err(Error::Platform { path: target.path, message }))
            },
            (Discard::Clock { target, id }, Reply::SystemTime(time)) => Step::Finish(
                Ok(TrashItem::new(id, target.original_name, target.original_parent, time)),
            ),
            (machine, _) => Step::Continue(machine),
        }
    }
}

/// Lets the file manager move items to its trash, one after the other.
#[derive(Debug)]
pub struct DiscardAll {
    targets: Vec<DiscardTarget>,
    items: Vec<TrashItem>,
    machine: Discard,
}

/// What a [`DiscardAll`] has come to.
pub struct DiscardAllView {
    /// All the items that are to be moved.
    pub targets: Seq<DiscardTargetView>,
    /// Those that are in the trash.
    pub items: Seq<TrashItemView>,
    /// The move of the next one.
    pub machine: DiscardView,
}

impl View for DiscardAll {
    type V = DiscardAllView;

    closed spec fn view(&self) -> DiscardAllView {
        DiscardAllView {
            targets: discard::target_views(self.targets@),
            items: crate::item_views(self.items@),
            machine: self.machine@,
        }
    }
}

/// How items are moved to the trash, when those before them are there.
pub open spec fn discard_rest(
    targets: Seq<DiscardTargetView>,
    items: Seq<TrashItemView>,
) -> Step<DiscardAllView, Result<Seq<TrashItemView>, ErrorView>> {
    if items.len() < targets.len() {
        match self::discard(targets[items.len() as int]) {
            Ok(machine) => Step::Continue(DiscardAllView { targets, items, machine }),
            Err(error) => Step::Finish(Err(error)),
        }
    } else {
        Step::Finish(Ok(items))
    }
}

/// How items are moved to the trash, one after the other.
pub open spec fn discard_all(targets: Seq<DiscardTargetView>) -> Step<
    DiscardAllView,
    Result<Seq<TrashItemView>, ErrorView>,
> {
    discard_rest(targets, seq![])
}

impl DiscardAll {
    /// Starts to let the file manager move items to its trash, one after the other.
    pub fn start(targets: Vec<DiscardTarget>) -> (step: Step<Self, Result<TrashItems, Error>>)
        ensures
            machine::step_view(step) == discard_all(discard::target_views(targets@)),
    {
        let items: Vec<TrashItem> = Vec::new();
        assert(crate::item_views(items@) =~= seq![]);
        Self::rest(targets, items)
    }

    fn rest(targets: Vec<DiscardTarget>, items: Vec<TrashItem>) -> (step: Step<
        Self,
        Result<TrashItems, Error>,
    >)
        ensures
            machine::step_view(step) == discard_rest(
                discard::target_views(targets@),
                crate::item_views(items@),
            ),
    {
        if items.len() < targets.len() {
            match Discard::start(targets[items.len()].clone()) {
                Ok(machine) => Step::Continue(DiscardAll { targets, items, machine }),
                Err(error) => Step::Finish(Err(error)),
            }
        } else {
            Step::Finish(Ok(TrashItems { items }))
        }
    }
}

impl Machine for DiscardAll {
    type Output = TrashItems;

    open spec fn pending(state: DiscardAllView) -> RequestView {
        Discard::pending(state.machine)
    }

    open spec fn next(state: DiscardAllView, reply: ReplyView) -> Step<
        DiscardAllView,
        Result<Seq<TrashItemView>, ErrorView>,
    > {
        match Discard::next(state.machine, reply) {
            Step::Continue(machine) => Step::Continue(DiscardAllView { machine, ..state }),
            Step::Finish(Ok(item)) => discard_rest(state.targets, state.items.push(item)),
            Step::Finish(Err(error)) => Step::Finish(Err(error)),
        }
    }

    proof fn other_replies_change_nothing(state: DiscardAllView, reply: ReplyView) {
        Discard::other_replies_change_nothing(state.machine, reply);
    }

    fn request(&self) -> (request: Request) {
        self.machine.request()
    }

    fn step(self, reply: Reply) -> (step: Step<Self, Result<TrashItems, Error>>) {
        let DiscardAll { targets, items, machine } = self;
        match machine.step(reply) {
            Step::Continue(machine) => Step::Continue(DiscardAll { targets, items, machine }),
            Step::Finish(Ok(item)) => {
                let mut items = items;
                let ghost before = items@;
                items.push(item);
                assert(crate::item_views(items@) =~= crate::item_views(before).push(item@));
                Self::rest(targets, items)
            },
            Step::Finish(Err(error)) => Step::Finish(Err(error)),
        }
    }
}

/// The file manager moved the item and told where it is.
pub open spec fn was_moved(past: Seq<Exchange>, path: Seq<u8>, id: Seq<u8>) -> bool {
    exists|is_dir: bool| #[trigger]
        past.contains(
            machine::exchange(
                RequestView::MoveToTrash { representation: path.push(NUL), is_dir },
                ReplyView::Trashed(Some(id)),
            ),
        )
}

/// The system told whether the item is a directory.
pub open spec fn is_kind_told(past: Seq<Exchange>, path: Seq<u8>, is_dir: bool) -> bool {
    exists|metadata: Metadata|
        metadata.is_dir == is_dir && #[trigger] past.contains(
            machine::exchange(
                RequestView::SymlinkMetadata { path },
                ReplyView::Metadata(metadata),
            ),
        )
}

/// The file manager was asked to move the item as what it is, with a NUL behind its path.
pub open spec fn moves_as_told(past: Seq<Exchange>, path: Seq<u8>) -> bool {
    forall|i: int|
        0 <= i < past.len() ==> (#[trigger] past[i].request matches RequestView::MoveToTrash {
            representation,
            is_dir,
        } ==> representation == path.push(0) && is_kind_told(past.take(i), path, is_dir))
}

/// Why an item could not be discarded: the system failed to tell about it, or the file manager
/// failed or did not tell where the item is.
pub open spec fn is_fault(past: Seq<Exchange>, path: Seq<u8>, error: ErrorView) -> bool {
    match error {
        ErrorView::Io { path: failed, source } => failed == path && past.contains(
            machine::exchange(RequestView::SymlinkMetadata { path }, ReplyView::Failed(source)),
        ),
        ErrorView::Platform { path: failed, message } => failed == path && past.len() > 0
            && past.last().request is MoveToTrash && match past.last().reply {
            ReplyView::Failed(source) => message == "File manager rejected "@ + text::lossy_text(
                path,
            ) + ": "@ + source.message,
            ReplyView::Trashed(None) => message
                == "File manager did not return a trashed item URL for "@ + text::lossy_text(path),
            _ => false,
        },
        _ => false,
    }
}

spec fn discard_holds(
    target: DiscardTargetView,
    stage: Stage<Discard>,
    past: Seq<Exchange>,
) -> bool {
    match stage {
        Step::Continue(DiscardView::Inspect { target: item, representation }) => item == target
            && representation == target.path.push(NUL),
        Step::Continue(DiscardView::Move { target: item, representation, is_dir }) => item
            == target && representation == target.path.push(NUL) && is_kind_told(
            past,
            target.path,
            is_dir,
        ),
        Step::Continue(DiscardView::Clock { target: item, id }) => item == target && was_moved(
            past,
            target.path,
            id,
        ),
        Step::Finish(Ok(item)) => {
            &&& is_item_of(past, target, item)
            &&& past.last() == machine::exchange(
                RequestView::SystemTime,
                ReplyView::SystemTime(item.discarded_at),
            )
        },
        Step::Finish(Err(error)) => is_fault(past, target.path, error),
    }
}

/// The file manager moved the item, and the description is that of the item.
pub open spec fn is_item_of(
    past: Seq<Exchange>,
    target: DiscardTargetView,
    item: TrashItemView,
) -> bool {
    &&& was_moved(past, target.path, item.id)
    &&& item.original_name == target.original_name
    &&& item.original_parent == target.original_parent
    &&& past.contains(
        machine::exchange(RequestView::SystemTime, ReplyView::SystemTime(item.discarded_at)),
    )
}

proof fn lemma_still_moved(past: Seq<Exchange>, last: Exchange, path: Seq<u8>, id: Seq<u8>)
    requires
        was_moved(past, path, id),
    ensures
        was_moved(past.push(last), path, id),
{
    machine::lemma_past_grows(past, last);
    let is_dir = choose|is_dir: bool| #[trigger]
        past.contains(
            machine::exchange(
                RequestView::MoveToTrash { representation: path.push(NUL), is_dir },
                ReplyView::Trashed(Some(id)),
            ),
        );
    assert(past.push(last).contains(
        machine::exchange(
            RequestView::MoveToTrash { representation: path.push(NUL), is_dir },
            ReplyView::Trashed(Some(id)),
        ),
    ));
}

proof fn lemma_discard_step(
    target: DiscardTargetView,
    state: DiscardView,
    past: Seq<Exchange>,
    reply: ReplyView,
)
    requires
        discard_holds(target, Step::Continue(state), past),
    ensures
        discard_holds(
            target,
            Discard::next(state, reply),
            past.push(machine::exchange(Discard::pending(state), reply)),
        ),
        Discard::pending(state) matches RequestView::MoveToTrash { representation, is_dir }
            ==> representation == target.path.push(NUL) && is_kind_told(past, target.path, is_dir),
{
    let last = machine::exchange(Discard::pending(state), reply);
    let more = past.push(last);
    machine::lemma_past_grows(past, last);
    assert(more.last() == last);
    match (state, reply) {
        (DiscardView::Inspect { .. }, ReplyView::Metadata(metadata)) => {
            assert(more.contains(
                machine::exchange(
                    RequestView::SymlinkMetadata { path: target.path },
                    ReplyView::Metadata(metadata),
                ),
            ));
            assert(is_kind_told(more, target.path, metadata.is_dir));
        },
        (DiscardView::Move { is_dir, .. }, ReplyView::Trashed(Some(id))) => {
            assert(was_moved(more, target.path, id));
        },
        (DiscardView::Move { is_dir, .. }, _) => {
            let metadata = choose|metadata: Metadata|
                metadata.is_dir == is_dir && #[trigger] past.contains(
                    machine::exchange(
                        RequestView::SymlinkMetadata { path: target.path },
                        ReplyView::Metadata(metadata),
                    ),
                );
            assert(more.contains(
                machine::exchange(
                    RequestView::SymlinkMetadata { path: target.path },
                    ReplyView::Metadata(metadata),
                ),
            ));
        },
        (DiscardView::Clock { id, .. }, _) => {
            lemma_still_moved(past, last, target.path, id);
        },
        _ => {},
    }
}

/// When an item has been discarded, the file manager has moved it, the identifier is the path
/// that it was given, and the time was taken after that.
pub proof fn discarded_items_were_moved_by_the_file_manager(
    target: DiscardTargetView,
    machine: DiscardView,
    replies: Seq<ReplyView>,
    item: TrashItemView,
)
    requires
        self::discard(target) == Ok::<DiscardView, ErrorView>(machine),
        machine::after::<Discard>(Step::Continue(machine), replies) == Step::<
            DiscardView,
            Result<TrashItemView, ErrorView>,
        >::Finish(Ok(item)),
    ensures
        ({
            let past = machine::history::<Discard>(Step::Continue(machine), replies);
            &&& is_item_of(past, target, item)
            &&& past.last() == machine::exchange(
                RequestView::SystemTime,
                ReplyView::SystemTime(item.discarded_at),
            )
        }),
{
    let start = Step::Continue(machine);
    let holds = |stage: Stage<Discard>, past: Seq<Exchange>| discard_holds(target, stage, past);
    assert(holds(start, Seq::empty()));
    assert forall|state: DiscardView, past: Seq<Exchange>, reply: ReplyView|
        #![trigger holds(Step::Continue(state), past), Discard::next(state, reply)]
        holds(Step::Continue(state), past) implies holds(
        Discard::next(state, reply),
        past.push(machine::exchange(Discard::pending(state), reply)),
    ) by {
        lemma_discard_step(target, state, past, reply);
    }
    machine::lemma_invariant::<Discard>(start, replies, holds);
}

proof fn lemma_discard(
    target: DiscardTargetView,
    machine: DiscardView,
    replies: Seq<ReplyView>,
)
    requires
        self::discard(target) == Ok::<DiscardView, ErrorView>(machine),
    ensures
        ({
            let past = machine::history::<Discard>(Step::Continue(machine), replies);
            &&& moves_as_told(past, target.path)
            &&& discard_holds(
                target,
                machine::after::<Discard>(Step::Continue(machine), replies),
                past,
            )
        }),
{
    let start = Step::Continue(machine);
    let holds = |stage: Stage<Discard>, past: Seq<Exchange>|
        moves_as_told(past, target.path) && discard_holds(target, stage, past);
    assert(holds(start, Seq::empty()));
    assert forall|state: DiscardView, past: Seq<Exchange>, reply: ReplyView|
        #![trigger holds(Step::Continue(state), past), Discard::next(state, reply)]
        holds(Step::Continue(state), past) implies holds(
        Discard::next(state, reply),
        past.push(machine::exchange(Discard::pending(state), reply)),
    ) by {
        lemma_discard_step(target, state, past, reply);
        let last = machine::exchange(Discard::pending(state), reply);
        let more = past.push(last);
        assert forall|i: int| 0 <= i < more.len() implies (
        #[trigger] more[i].request matches RequestView::MoveToTrash { representation, is_dir }
            ==> representation == target.path.push(0) && is_kind_told(
            more.take(i),
            target.path,
            is_dir,
        )) by {
            assert(more.take(i) =~= past.take(i));
            if i < past.len() {
                assert(more[i] == past[i]);
            } else {
                assert(past.take(i) =~= past);
            }
        }
    }
    machine::lemma_invariant::<Discard>(start, replies, holds);
}

/// The file manager is asked to move the item that is meant, as what the system told it to be.
pub proof fn items_are_moved_as_what_they_are(
    target: DiscardTargetView,
    machine: DiscardView,
    replies: Seq<ReplyView>,
)
    requires
        self::discard(target) == Ok::<DiscardView, ErrorView>(machine),
    ensures
        moves_as_told(
            machine::history::<Discard>(Step::Continue(machine), replies),
            target.path,
        ),
{
    lemma_discard(target, machine, replies);
}

/// An item cannot be discarded only for a reason: its path holds a NUL, the system failed to tell
/// about it, or the file manager failed or did not tell where the item is.
pub proof fn failed_discarding_has_a_reason(
    target: DiscardTargetView,
    machine: DiscardView,
    replies: Seq<ReplyView>,
    error: ErrorView,
)
    requires
        self::discard(target) == Ok::<DiscardView, ErrorView>(machine),
        machine::after::<Discard>(Step::Continue(machine), replies) == Step::<
            DiscardView,
            Result<TrashItemView, ErrorView>,
        >::Finish(Err(error)),
    ensures
        is_fault(
            machine::history::<Discard>(Step::Continue(machine), replies),
            target.path,
            error,
        ),
{
    lemma_discard(target, machine, replies);
}

/// An item can be handed to the file manager exactly where its path holds no NUL.
pub proof fn paths_without_nul_can_be_handed_over(target: DiscardTargetView)
    ensures
        self::discard(target) is Ok <==> !target.path.contains(0),
        self::discard(target) matches Err(error) ==> (error matches ErrorView::Io { path, source }
            && path == target.path && source.kind == ErrorKind::InvalidInput),
{
}

proof fn lemma_first_nul(bytes: Seq<u8>, position: nat)
    requires
        position < bytes.len(),
        bytes[position as int] == 0,
        forall|i: int| 0 <= i < position ==> #[trigger] bytes[i] != 0,
    ensures
        bytes_before_nul(bytes) == position,
    decreases position,
{
    if position > 0 {
        assert(bytes[0] != 0);
        let rest = bytes.skip(1);
        assert forall|i: int| 0 <= i < position - 1 implies #[trigger] rest[i] != 0 by {
            assert(rest[i] == bytes[i + 1]);
        }
        lemma_first_nul(rest, (position - 1) as nat);
    }
}

/// Where a path cannot be handed to the file manager, the message tells where its first NUL is.
pub proof fn the_first_nul_is_told(target: DiscardTargetView, position: nat)
    requires
        position < target.path.len(),
        target.path[position as int] == 0,
        forall|i: int| 0 <= i < position ==> #[trigger] target.path[i] != 0,
    ensures
        self::discard(target) matches Err(error) && (error matches ErrorView::Io { path, source }
            && path == target.path && source.code is None && source.message
            == "nul byte found in provided data at position: "@ + text::ascii_text(
            text::decimal(position),
        )),
{
    lemma_first_nul(target.path, position);
}

/// The file manager moved the first items, and the descriptions are those of these items.
pub open spec fn are_items_of(
    past: Seq<Exchange>,
    targets: Seq<DiscardTargetView>,
    items: Seq<TrashItemView>,
) -> bool {
    &&& items.len() <= targets.len()
    &&& forall|k: int| 0 <= k < items.len() ==> #[trigger] is_item_of(past, targets[k], items[k])
}

/// The representation is that of the path of one of the first items.
pub open spec fn is_among(
    targets: Seq<DiscardTargetView>,
    count: nat,
    representation: Seq<u8>,
) -> bool {
    exists|k: int| 0 <= k < count && representation == (#[trigger] targets[k]).path.push(NUL)
}

/// The file manager was asked to move the first items only.
pub open spec fn only_first_are_moved(
    past: Seq<Exchange>,
    targets: Seq<DiscardTargetView>,
    count: nat,
) -> bool {
    forall|i: int|
        0 <= i < past.len() ==> (#[trigger] past[i].request matches RequestView::MoveToTrash {
            representation,
            ..
        } ==> is_among(targets, count, representation))
}

/// The file manager moved the first items, and none of those behind the next one.
pub open spec fn are_moved_until(
    past: Seq<Exchange>,
    targets: Seq<DiscardTargetView>,
    items: Seq<TrashItemView>,
) -> bool {
    &&& items.len() < targets.len()
    &&& are_items_of(past, targets, items)
    &&& only_first_are_moved(past, targets, items.len() + 1)
}

/// The file manager moved the first items, and the next one could not be discarded, for a reason.
pub open spec fn is_stopped(
    past: Seq<Exchange>,
    targets: Seq<DiscardTargetView>,
    error: ErrorView,
) -> bool {
    exists|items: Seq<TrashItemView>| #[trigger]
        are_moved_until(past, targets, items) && (is_fault(
            past,
            targets[items.len() as int].path,
            error,
        ) || self::discard(targets[items.len() as int]) == Err::<DiscardView, ErrorView>(error))
}

spec fn all_hold(
    targets: Seq<DiscardTargetView>,
    stage: Stage<DiscardAll>,
    past: Seq<Exchange>,
) -> bool {
    match stage {
        Step::Continue(state) => {
            &&& state.targets == targets
            &&& are_moved_until(past, targets, state.items)
            &&& discard_holds(
                targets[state.items.len() as int],
                Step::Continue(state.machine),
                past,
            )
        },
        Step::Finish(Ok(items)) => items.len() == targets.len() && are_items_of(
            past,
            targets,
            items,
        ),
        Step::Finish(Err(error)) => is_stopped(past, targets, error),
    }
}

proof fn lemma_rest_holds(
    targets: Seq<DiscardTargetView>,
    items: Seq<TrashItemView>,
    past: Seq<Exchange>,
)
    requires
        are_items_of(past, targets, items),
        only_first_are_moved(past, targets, items.len()),
    ensures
        all_hold(targets, discard_rest(targets, items), past),
{
    if items.len() < targets.len() {
        assert forall|representation: Seq<u8>| #[trigger]
            is_among(targets, items.len(), representation) implies is_among(
            targets,
            items.len() + 1,
            representation,
        ) by {
            let k = choose|k: int|
                0 <= k < items.len() && representation == (#[trigger] targets[k]).path.push(NUL);
            assert(targets[k].path.push(NUL) == representation);
        }
        assert(are_moved_until(past, targets, items));
    }
}

proof fn lemma_all_step(
    targets: Seq<DiscardTargetView>,
    state: DiscardAllView,
    past: Seq<Exchange>,
    reply: ReplyView,
)
    requires
        all_hold(targets, Step::Continue(state), past),
    ensures
        all_hold(
            targets,
            DiscardAll::next(state, reply),
            past.push(machine::exchange(DiscardAll::pending(state), reply)),
        ),
{
    let last = machine::exchange(DiscardAll::pending(state), reply);
    let more = past.push(last);
    let target = targets[state.items.len() as int];
    let count = state.items.len() + 1;
    machine::lemma_past_grows(past, last);
    lemma_discard_step(target, state.machine, past, reply);
    assert forall|k: int| 0 <= k < state.items.len() implies #[trigger] is_item_of(
        more,
        targets[k],
        state.items[k],
    ) by {
        assert(is_item_of(past, targets[k], state.items[k]));
        lemma_still_moved(past, last, targets[k].path, state.items[k].id);
    }
    assert forall|i: int| 0 <= i < more.len() implies (
    #[trigger] more[i].request matches RequestView::MoveToTrash { representation, .. }
        ==> is_among(targets, count, representation)) by {
        if i < past.len() {
            assert(more[i] == past[i]);
        } else {
            assert(target == targets[state.items.len() as int]);
        }
    }
    assert(are_moved_until(more, targets, state.items));
    match Discard::next(state.machine, reply) {
        Step::Finish(Ok(item)) => {
            let items = state.items.push(item);
            assert forall|k: int| 0 <= k < items.len() implies #[trigger] is_item_of(
                more,
                targets[k],
                items[k],
            ) by {
                if k < state.items.len() {
                    assert(is_item_of(more, targets[k], state.items[k]));
                } else {
                    assert(more[past.len() as int] == last);
                }
            }
            lemma_rest_holds(targets, items, more);
        },
        _ => {},
    }
}

proof fn lemma_all(targets: Seq<DiscardTargetView>, replies: Seq<ReplyView>)
    ensures
        all_hold(
            targets,
            machine::after::<DiscardAll>(discard_all(targets), replies),
            machine::history::<DiscardAll>(discard_all(targets), replies),
        ),
{
    let start = discard_all(targets);
    let holds = |stage: Stage<DiscardAll>, past: Seq<Exchange>| all_hold(targets, stage, past);
    lemma_rest_holds(targets, Seq::empty(), Seq::empty());
    assert(holds(start, Seq::empty()));
    assert forall|state: DiscardAllView, past: Seq<Exchange>, reply: ReplyView|
        #![trigger holds(Step::Continue(state), past), DiscardAll::next(state, reply)]
        holds(Step::Continue(state), past) implies holds(
        DiscardAll::next(state, reply),
        past.push(machine::exchange(DiscardAll::pending(state), reply)),
    ) by {
        lemma_all_step(targets, state, past, reply);
    }
    machine::lemma_invariant::<DiscardAll>(start, replies, holds);
}

/// Discarding several items gives one description for each of them, in their order, and the file
/// manager has moved them all.
pub proof fn discarded_items_come_in_order(
    targets: Seq<DiscardTargetView>,
    replies: Seq<ReplyView>,
    items: Seq<TrashItemView>,
)
    requires
        machine::after::<DiscardAll>(discard_all(targets), replies) == Step::<
            DiscardAllView,
            Result<Seq<TrashItemView>, ErrorView>,
        >::Finish(Ok(items)),
    ensures
        items.len() == targets.len(),
        are_items_of(
            machine::history::<DiscardAll>(discard_all(targets), replies),
            targets,
            items,
        ),
{
    lemma_all(targets, replies);
}

/// When discarding several items fails, the file manager has moved those before the one that could
/// not be discarded, and was not asked to move any of those behind it.
pub proof fn failed_discarding_stops_at_the_failure(
    targets: Seq<DiscardTargetView>,
    replies: Seq<ReplyView>,
    error: ErrorView,
)
    requires
        machine::after::<DiscardAll>(discard_all(targets), replies) == Step::<
            DiscardAllView,
            Result<Seq<TrashItemView>, ErrorView>,
        >::Finish(Err(error)),
    ensures
        exists|items: Seq<TrashItemView>|
            are_moved_until(
                machine::history::<DiscardAll>(discard_all(targets), replies),
                targets,
                items,
            ),
{
    lemma_all(targets, replies);
}

/// Discarding several items fails only for a reason: one of them cannot be discarded.
pub proof fn failed_discarding_of_items_has_a_reason(
    targets: Seq<DiscardTargetView>,
    replies: Seq<ReplyView>,
    error: ErrorView,
)
    requires
        machine::after::<DiscardAll>(discard_all(targets), replies) == Step::<
            DiscardAllView,
            Result<Seq<TrashItemView>, ErrorView>,
        >::Finish(Err(error)),
    ensures
        is_stopped(
            machine::history::<DiscardAll>(discard_all(targets), replies),
            targets,
            error,
        ),
{
    lemma_all(targets, replies);
}

/// Every answer leads on.
pub proof fn answers_lead_on(state: DiscardView, reply: ReplyView)
    requires
        machine::fits(Discard::pending(state), reply),
    ensures
        Discard::next(state, reply) matches Step::Continue(next) ==> next != state,
{
}

} // verus!
