//! The trash of Freedesktop environments.

pub mod directory_size;
pub mod disk_usage;
pub mod location;
pub mod mount;
pub mod payload;
pub mod permission;
pub mod prepare;
pub mod trash_info;

use vstd::prelude::*;

use crate::clock::LocalTime;
use crate::discard::{self, DiscardTarget, DiscardTargetView};
use crate::error::{Error, ErrorKind, ErrorView};
use crate::machine::{self, Machine, Reply, ReplyView, Request, RequestView, Step};
use crate::{TrashItem, TrashItemView, TrashItems};
use directory_size::{DirectorySizeCache, UpdateCache, UpdateCacheView};
use location::{ResolveLocation, ResolveLocationView, TrashLocation, TrashLocationView};
use payload::{MovePayload, MovePayloadView, PayloadKind};
use permission::{EnsurePermission, EnsurePermissionView};
use prepare::{PrepareTrash, PrepareTrashView, TrashDirectory, TrashDirectoryView};
use trash_info::{ReserveEntry, ReserveEntryView, ReservedTrashEntry, ReservedTrashEntryView};

verus! {

/// An item, the trash that it goes to, and when.
#[derive(Debug)]
pub struct Move {
    /// The item.
    pub target: DiscardTarget,
    /// Which trash the item goes to.
    pub location: TrashLocation,
    /// The directories of the trash.
    pub directory: TrashDirectory,
    /// When the item is discarded.
    pub discarded_at: LocalTime,
}

/// What a [`Move`] says.
pub struct MoveView {
    pub target: DiscardTargetView,
    pub location: TrashLocationView,
    pub directory: TrashDirectoryView,
    pub discarded_at: LocalTime,
}

impl View for Move {
    type V = MoveView;

    open spec fn view(&self) -> MoveView {
        MoveView {
            target: self.target@,
            location: self.location@,
            directory: self.directory@,
            discarded_at: self.discarded_at,
        }
    }
}

/// Moves an item to the trash at a location.
#[derive(Debug)]
#[allow(inconsistent_fields)]
pub enum DiscardItem {
    /// The user has to be allowed to discard the item.
    Permit { target: DiscardTarget, location: TrashLocation, machine: EnsurePermission },
    /// The directories of the trash are created.
    Prepare { target: DiscardTarget, location: TrashLocation, machine: PrepareTrash },
    /// The time.
    Clock { target: DiscardTarget, location: TrashLocation, directory: TrashDirectory },
    /// A free name is found, and the file about the item is written.
    Reserve { item: Move, machine: ReserveEntry },
    /// The item is moved.
    Move { item: Move, entry: ReservedTrashEntry, machine: MovePayload },
    /// The file about the item is removed, because the item could not be moved.
    Withdraw { item: Move, entry: ReservedTrashEntry, error: Error },
    /// The size of the directory that was moved is noted.
    Measure { item: Move, entry: ReservedTrashEntry, machine: UpdateCache },
}

/// What a [`DiscardItem`] has come to.
#[allow(inconsistent_fields)]
pub enum DiscardItemView {
    Permit {
        target: DiscardTargetView,
        location: TrashLocationView,
        machine: EnsurePermissionView,
    },
    Prepare {
        target: DiscardTargetView,
        location: TrashLocationView,
        machine: PrepareTrashView,
    },
    Clock {
        target: DiscardTargetView,
        location: TrashLocationView,
        directory: TrashDirectoryView,
    },
    Reserve { item: MoveView, machine: ReserveEntryView },
    Move { item: MoveView, entry: ReservedTrashEntryView, machine: MovePayloadView },
    Withdraw { item: MoveView, entry: ReservedTrashEntryView, error: ErrorView },
    Measure { item: MoveView, entry: ReservedTrashEntryView, machine: UpdateCacheView },
}

impl View for DiscardItem {
    type V = DiscardItemView;

    open spec fn view(&self) -> DiscardItemView {
        match self {
            DiscardItem::Permit { target, location, machine } => DiscardItemView::Permit {
                target: target@,
                location: location@,
                machine: machine@,
            },
            DiscardItem::Prepare { target, location, machine } => DiscardItemView::Prepare {
                target: target@,
                location: location@,
                machine: machine@,
            },
            DiscardItem::Clock { target, location, directory } => DiscardItemView::Clock {
                target: target@,
                location: location@,
                directory: directory@,
            },
            DiscardItem::Reserve { item, machine } => DiscardItemView::Reserve {
                item: item@,
                machine: machine@,
            },
            DiscardItem::Move { item, entry, machine } => DiscardItemView::Move {
                item: item@,
                entry: entry@,
                machine: machine@,
            },
            DiscardItem::Withdraw { item, entry, error } => DiscardItemView::Withdraw {
                item: item@,
                entry: entry@,
                error: error@,
            },
            DiscardItem::Measure { item, entry, machine } => DiscardItemView::Measure {
                item: item@,
                entry: entry@,
                machine: machine@,
            },
        }
    }
}

impl MoveView {
    /// The description of the item once it is in the trash.
    pub open spec fn trashed(self, entry: ReservedTrashEntryView) -> TrashItemView {
        TrashItemView {
            id: entry.info,
            original_name: self.target.original_name,
            original_parent: self.target.original_parent,
            discarded_at: self.discarded_at.system_time(),
        }
    }

    /// A free name in the trash is looked for.
    pub open spec fn reserve(self) -> Step<DiscardItemView, Result<TrashItemView, ErrorView>> {
        self.reserving(
            trash_info::reserve_start(
                self.location,
                self.directory,
                self.target.path,
                self.discarded_at.civil(),
            ),
        )
    }

    /// What comes of the search for a free name: with one, the item is moved.
    pub open spec fn reserving(
        self,
        step: Step<ReserveEntryView, Result<ReservedTrashEntryView, ErrorView>>,
    ) -> Step<DiscardItemView, Result<TrashItemView, ErrorView>> {
        match step {
            Step::Continue(machine) => Step::Continue(
                DiscardItemView::Reserve { item: self, machine },
            ),
            Step::Finish(Ok(entry)) => Step::Continue(
                DiscardItemView::Move {
                    item: self,
                    entry,
                    machine: MovePayloadView::Inspect {
                        path: self.target.path,
                        trash_path: entry.file,
                    },
                },
            ),
            Step::Finish(Err(error)) => Step::Finish(Err(error)),
        }
    }

    /// What comes of the move: the size of a directory is noted, and where the item could not be
    /// moved, the file about it is removed.
    pub open spec fn moving(
        self,
        entry: ReservedTrashEntryView,
        step: Step<MovePayloadView, Result<PayloadKind, ErrorView>>,
    ) -> Step<DiscardItemView, Result<TrashItemView, ErrorView>> {
        match step {
            Step::Continue(machine) => Step::Continue(
                DiscardItemView::Move { item: self, entry, machine },
            ),
            Step::Finish(Ok(PayloadKind::File)) => Step::Finish(Ok(self.trashed(entry))),
            Step::Finish(Ok(PayloadKind::Directory)) => Step::Continue(
                DiscardItemView::Measure {
                    item: self,
                    entry,
                    machine: directory_size::update_start(self.directory.path, entry),
                },
            ),
            Step::Finish(Err(error)) => Step::Continue(
                DiscardItemView::Withdraw { item: self, entry, error },
            ),
        }
    }

    /// The file about the item is gone: where something else has taken the item's place in the
    /// trash, another place is looked for.
    pub open spec fn withdrawn(self, error: ErrorView) -> Step<
        DiscardItemView,
        Result<TrashItemView, ErrorView>,
    > {
        if is_taken(error) {
            self.reserve()
        } else {
            Step::Finish(Err(error))
        }
    }

    /// What comes of noting the size of a directory: the directory is in the trash already, so
    /// that a failure changes nothing.
    pub open spec fn measuring(
        self,
        entry: ReservedTrashEntryView,
        step: Step<UpdateCacheView, Result<(), ErrorView>>,
    ) -> Step<DiscardItemView, Result<TrashItemView, ErrorView>> {
        match step {
            Step::Continue(machine) => Step::Continue(
                DiscardItemView::Measure { item: self, entry, machine },
            ),
            Step::Finish(_) => Step::Finish(Ok(self.trashed(entry))),
        }
    }
}

/// Something has taken the item's place in the trash.
pub open spec fn is_taken(error: ErrorView) -> bool {
    error matches ErrorView::Io { source, .. } && source.kind == ErrorKind::AlreadyExists
}

/// What comes of the check that the user may discard the item.
pub open spec fn permitting(
    target: DiscardTargetView,
    location: TrashLocationView,
    step: Step<EnsurePermissionView, Result<(), ErrorView>>,
) -> Step<DiscardItemView, Result<TrashItemView, ErrorView>> {
    match step {
        Step::Continue(machine) => Step::Continue(
            DiscardItemView::Permit { target, location, machine },
        ),
        Step::Finish(Ok(_)) => preparing(target, location, location::location_prepare(location)),
        Step::Finish(Err(error)) => Step::Finish(Err(error)),
    }
}

/// What comes of the creation of the trash's directories.
pub open spec fn preparing(
    target: DiscardTargetView,
    location: TrashLocationView,
    step: Step<PrepareTrashView, Result<TrashDirectoryView, ErrorView>>,
) -> Step<DiscardItemView, Result<TrashItemView, ErrorView>> {
    match step {
        Step::Continue(machine) => Step::Continue(
            DiscardItemView::Prepare { target, location, machine },
        ),
        Step::Finish(Ok(directory)) => Step::Continue(
            DiscardItemView::Clock { target, location, directory },
        ),
        Step::Finish(Err(error)) => Step::Finish(Err(error)),
    }
}

/// How an item is moved to the trash at a location.
pub open spec fn discard_item(location: TrashLocationView, target: DiscardTargetView) -> Step<
    DiscardItemView,
    Result<TrashItemView, ErrorView>,
> {
    permitting(target, location, permission::permission_start(target.path))
}

/// The system does not tell the local time.
pub open spec fn no_local_time(path: Seq<u8>, reason: Seq<char>) -> ErrorView {
    ErrorView::Platform { path, message: "Failed to get local time: "@ + reason }
}

impl DiscardItem {
    /// Starts to move an item to the trash at a location.
    pub fn start(location: TrashLocation, target: DiscardTarget) -> (step: Step<
        Self,
        Result<TrashItem, Error>,
    >)
        ensures
            machine::step_view(step) == discard_item(location@, target@),
    {
        let permission = EnsurePermission::start(target.path.clone());
        Self::permitting(target, location, permission)
    }

    fn permitting(
        target: DiscardTarget,
        location: TrashLocation,
        step: Step<EnsurePermission, Result<(), Error>>,
    ) -> (next: Step<Self, Result<TrashItem, Error>>)
        ensures
            machine::step_view(next) == permitting(target@, location@, machine::step_view(step)),
    {
        match step {
            Step::Continue(machine) => Step::Continue(
                DiscardItem::Permit { target, location, machine },
            ),
            Step::Finish(Ok(_)) => {
                let preparation = location.prepare();
                Self::preparing(target, location, preparation)
            },
            Step::Finish(Err(error)) => Step::Finish(Err(error)),
        }
    }

    fn preparing(
        target: DiscardTarget,
        location: TrashLocation,
        step: Step<PrepareTrash, Result<TrashDirectory, Error>>,
    ) -> (next: Step<Self, Result<TrashItem, Error>>)
        ensures
            machine::step_view(next) == preparing(target@, location@, machine::step_view(step)),
    {
        match step {
            Step::Continue(machine) => Step::Continue(
                DiscardItem::Prepare { target, location, machine },
            ),
            Step::Finish(Ok(directory)) => Step::Continue(
                DiscardItem::Clock { target, location, directory },
            ),
            Step::Finish(Err(error)) => Step::Finish(Err(error)),
        }
    }
}

impl Move {
    fn trashed(self, entry: ReservedTrashEntry) -> (trashed: TrashItem)
        ensures
            trashed@ == self@.trashed(entry@),
    {
        TrashItem::new(
            entry.info.into_bytes(),
            self.target.original_name,
            self.target.original_parent,
            self.discarded_at.to_system_time(),
        )
    }

    fn reserve(self) -> (next: Step<DiscardItem, Result<TrashItem, Error>>)
        ensures
            machine::step_view(next) == self@.reserve(),
    {
        let reservation = ReserveEntry::start(
            &self.location,
            &self.directory,
            &self.target.path,
            &self.discarded_at,
        );
        self.reserving(reservation)
    }

    fn reserving(self, step: Step<ReserveEntry, Result<ReservedTrashEntry, Error>>) -> (next: Step<
        DiscardItem,
        Result<TrashItem, Error>,
    >)
        ensures
            machine::step_view(next) == self@.reserving(machine::step_view(step)),
    {
        match step {
            Step::Continue(machine) => Step::Continue(DiscardItem::Reserve { item: self, machine }),
            Step::Finish(Ok(entry)) => {
                let machine = MovePayload::start(self.target.path.clone(), entry.file.clone());
                Step::Continue(DiscardItem::Move { item: self, entry, machine })
            },
            Step::Finish(Err(error)) => Step::Finish(Err(error)),
        }
    }

    fn moving(
        self,
        entry: ReservedTrashEntry,
        step: Step<MovePayload, Result<PayloadKind, Error>>,
    ) -> (next: Step<DiscardItem, Result<TrashItem, Error>>)
        ensures
            machine::step_view(next) == self@.moving(entry@, machine::step_view(step)),
    {
        match step {
            Step::Continue(machine) => Step::Continue(
                DiscardItem::Move { item: self, entry, machine },
            ),
            Step::Finish(Ok(PayloadKind::File)) => Step::Finish(Ok(self.trashed(entry))),
            Step::Finish(Ok(PayloadKind::Directory)) => {
                let machine = DirectorySizeCache::new(&self.directory).update(entry.clone());
                Step::Continue(DiscardItem::Measure { item: self, entry, machine })
            },
            Step::Finish(Err(error)) => Step::Continue(
                DiscardItem::Withdraw { item: self, entry, error },
            ),
        }
    }

    fn withdrawn(self, error: Error) -> (next: Step<DiscardItem, Result<TrashItem, Error>>)
        ensures
            machine::step_view(next) == self@.withdrawn(error@),
    {
        let taken = match &error {
            Error::Io { source, .. } => source.kind == ErrorKind::AlreadyExists,
            _ => false,
        };
        if taken {
            self.reserve()
        } else {
            Step::Finish(Err(error))
        }
    }

    fn measuring(
        self,
        entry: ReservedTrashEntry,
        step: Step<UpdateCache, Result<(), Error>>,
    ) -> (next: Step<DiscardItem, Result<TrashItem, Error>>)
        ensures
            machine::step_view(next) == self@.measuring(entry@, machine::step_view(step)),
    {
        match step {
            Step::Continue(machine) => Step::Continue(
                DiscardItem::Measure { item: self, entry, machine },
            ),
            Step::Finish(_) => Step::Finish(Ok(self.trashed(entry))),
        }
    }
}

impl Machine for DiscardItem {
    type Output = TrashItem;

    open spec fn pending(state: DiscardItemView) -> RequestView {
        match state {
            DiscardItemView::Permit { machine, .. } => EnsurePermission::pending(machine),
            DiscardItemView::Prepare { machine, .. } => PrepareTrash::pending(machine),
            DiscardItemView::Clock { .. } => RequestView::LocalTime,
            DiscardItemView::Reserve { machine, .. } => ReserveEntry::pending(machine),
            DiscardItemView::Move { machine, .. } => MovePayload::pending(machine),
            DiscardItemView::Withdraw { entry, .. } => RequestView::RemoveFile {
                path: entry.info,
            },
            DiscardItemView::Measure { machine, .. } => UpdateCache::pending(machine),
        }
    }

    open spec fn next(state: DiscardItemView, reply: ReplyView) -> Step<
        DiscardItemView,
        Result<TrashItemView, ErrorView>,
    > {
        match (state, reply) {
            (DiscardItemView::Permit { target, location, machine }, reply) => permitting(
                target,
                location,
                EnsurePermission::next(machine, reply),
            ),
            (DiscardItemView::Prepare { target, location, machine }, reply) => preparing(
                target,
                location,
                PrepareTrash::next(machine, reply),
            ),
            (DiscardItemView::Clock { target, location, directory }, ReplyView::Time(time)) => {
                (MoveView { target, location, directory, discarded_at: time }).reserve()
            },
            (DiscardItemView::Clock { target, .. }, ReplyView::Failed(source)) => Step::Finish(
                Err(no_local_time(target.path, source.message)),
            ),
            (DiscardItemView::Reserve { item, machine }, reply) => item.reserving(
                ReserveEntry::next(machine, reply),
            ),
            (DiscardItemView::Move { item, entry, machine }, reply) => item.moving(
                entry,
                MovePayload::next(machine, reply),
            ),
            (DiscardItemView::Withdraw { item, error, .. }, ReplyView::Done) => item.withdrawn(
                error,
            ),
            (DiscardItemView::Withdraw { item, entry, error }, ReplyView::Failed(cleanup)) => {
                if cleanup.kind == ErrorKind::NotFound {
                    item.withdrawn(error)
                } else {
                    Step::Finish(Err(ErrorView::Io { path: entry.info, source: cleanup }))
                }
            },
            (DiscardItemView::Measure { item, entry, machine }, reply) => item.measuring(
                entry,
                UpdateCache::next(machine, reply),
            ),
            _ => Step::Continue(state),
        }
    }

    proof fn other_replies_change_nothing(state: DiscardItemView, reply: ReplyView) {
        match state {
            DiscardItemView::Permit { machine, .. } => {
                EnsurePermission::other_replies_change_nothing(machine, reply);
            },
            DiscardItemView::Prepare { machine, .. } => {
                PrepareTrash::other_replies_change_nothing(machine, reply);
            },
            DiscardItemView::Reserve { machine, .. } => {
                ReserveEntry::other_replies_change_nothing(machine, reply);
            },
            DiscardItemView::Move { machine, .. } => {
                MovePayload::other_replies_change_nothing(machine, reply);
            },
            DiscardItemView::Measure { machine, .. } => {
                UpdateCache::other_replies_change_nothing(machine, reply);
            },
            _ => {},
        }
    }

    fn request(&self) -> (request: Request) {
        match self {
            DiscardItem::Permit { machine, .. } => machine.request(),
            DiscardItem::Prepare { machine, .. } => machine.request(),
            DiscardItem::Clock { .. } => Request::LocalTime,
            DiscardItem::Reserve { machine, .. } => machine.request(),
            DiscardItem::Move { machine, .. } => machine.request(),
            DiscardItem::Withdraw { entry, .. } => Request::RemoveFile {
                path: entry.info.clone(),
            },
            DiscardItem::Measure { machine, .. } => machine.request(),
        }
    }

    fn step(self, reply: Reply) -> (step: Step<Self, Result<TrashItem, Error>>) {
        match (self, reply) {
            (DiscardItem::Permit { target, location, machine }, reply) => Self::permitting(
                target,
                location,
                machine.step(reply),
            ),
            (DiscardItem::Prepare { target, location, machine }, reply) => Self::preparing(
                target,
                location,
                machine.step(reply),
            ),
            (DiscardItem::Clock { target, location, directory }, Reply::Time(time)) => {
                (Move { target, location, directory, discarded_at: time }).reserve()
            },
            (DiscardItem::Clock { target, .. }, Reply::Failed(source)) => {
                let message = "Failed to get local time: ".to_owned().concat(
                    source.message.as_str(),
                );
                Step::Finish(Err(Error::Platform { path: target.path, message }))
            },
            (DiscardItem::Reserve { item, machine }, reply) => item.reserving(machine.step(reply)),
            (DiscardItem::Move { item, entry, machine }, reply) => item.moving(
                entry,
                machine.step(reply),
            ),
            (DiscardItem::Withdraw { item, error, .. }, Reply::Done) => item.withdrawn(error),
            (DiscardItem::Withdraw { item, entry, error }, Reply::Failed(cleanup)) => {
                if cleanup.kind == ErrorKind::NotFound {
                    item.withdrawn(error)
                } else {
                    Step::Finish(Err(Error::Io { path: entry.info, source: cleanup }))
                }
            },
            (DiscardItem::Measure { item, entry, machine }, reply) => item.measuring(
                entry,
                machine.step(reply),
            ),
            (machine, _) => Step::Continue(machine),
        }
    }
}

/// Moves an item to the trash of the filesystem that holds it.
#[derive(Debug)]
pub enum Discard {
    /// Which trash the item goes to.
    Locate { target: DiscardTarget, machine: ResolveLocation },
    /// The item is moved there.
    Discard(DiscardItem),
}

/// What a [`Discard`] has come to.
pub enum DiscardView {
    Locate { target: DiscardTargetView, machine: ResolveLocationView },
    Discard(DiscardItemView),
}

impl View for Discard {
    type V = DiscardView;

    open spec fn view(&self) -> DiscardView {
        match self {
            Discard::Locate { target, machine } => DiscardView::Locate {
                target: target@,
                machine: machine@,
            },
            Discard::Discard(machine) => DiscardView::Discard(machine@),
        }
    }
}

/// How an item is moved to the trash of the filesystem that holds it.
pub open spec fn discard(target: DiscardTargetView) -> DiscardView {
    DiscardView::Locate { target, machine: ResolveLocationView::Mounts { path: target.path } }
}

/// What comes of the move to the trash at a location.
pub open spec fn discarding(step: Step<DiscardItemView, Result<TrashItemView, ErrorView>>) -> Step<
    DiscardView,
    Result<TrashItemView, ErrorView>,
> {
    match step {
        Step::Continue(machine) => Step::Continue(DiscardView::Discard(machine)),
        Step::Finish(result) => Step::Finish(result),
    }
}

impl Discard {
    /// Starts to move an item to the trash of the filesystem that holds it.
    pub fn start(target: DiscardTarget) -> (machine: Self)
        ensures
            machine@ == self::discard(target@),
    {
        let machine = ResolveLocation::start(target.path.clone());
        Discard::Locate { target, machine }
    }

    fn discarding(step: Step<DiscardItem, Result<TrashItem, Error>>) -> (next: Step<
        Self,
        Result<TrashItem, Error>,
    >)
        ensures
            machine::step_view(next) == discarding(machine::step_view(step)),
    {
        match step {
            Step::Continue(machine) => Step::Continue(Discard::Discard(machine)),
            Step::Finish(result) => Step::Finish(result),
        }
    }
}

impl Machine for Discard {
    type Output = TrashItem;

    open spec fn pending(state: DiscardView) -> RequestView {
        match state {
            DiscardView::Locate { machine, .. } => ResolveLocation::pending(machine),
            DiscardView::Discard(machine) => DiscardItem::pending(machine),
        }
    }

    open spec fn next(state: DiscardView, reply: ReplyView) -> Step<
        DiscardView,
        Result<TrashItemView, ErrorView>,
    > {
        match state {
            DiscardView::Locate { target, machine } => match ResolveLocation::next(machine, reply) {
                Step::Continue(machine) => Step::Continue(DiscardView::Locate { target, machine }),
                Step::Finish(Ok(location)) => discarding(discard_item(location, target)),
                Step::Finish(Err(error)) => Step::Finish(Err(error)),
            },
            DiscardView::Discard(machine) => discarding(DiscardItem::next(machine, reply)),
        }
    }

    proof fn other_replies_change_nothing(state: DiscardView, reply: ReplyView) {
        match state {
            DiscardView::Locate { machine, .. } => {
                ResolveLocation::other_replies_change_nothing(machine, reply);
            },
            DiscardView::Discard(machine) => {
                DiscardItem::other_replies_change_nothing(machine, reply);
            },
        }
    }

    fn request(&self) -> (request: Request) {
        match self {
            Discard::Locate { machine, .. } => machine.request(),
            Discard::Discard(machine) => machine.request(),
        }
    }

    fn step(self, reply: Reply) -> (step: Step<Self, Result<TrashItem, Error>>) {
        match self {
            Discard::Locate { target, machine } => match machine.step(reply) {
                Step::Continue(machine) => Step::Continue(Discard::Locate { target, machine }),
                Step::Finish(Ok(location)) => Self::discarding(
                    DiscardItem::start(location, target),
                ),
                Step::Finish(Err(error)) => Step::Finish(Err(error)),
            },
            Discard::Discard(machine) => Self::discarding(machine.step(reply)),
        }
    }
}

/// Moves items to the trash, one after the other.
#[derive(Debug)]
pub struct DiscardAll {
    targets: Vec<DiscardTarget>,
    items: Vec<TrashItem>,
    machine: Discard,
}

/// What a [`DiscardAll`] has come to.
pub struct DiscardAllView {
    /// All the items that are to be moved.
    pub targets: Seq<DiscardTargetView>,
    /// Those that are in the trash.
    pub items: Seq<TrashItemView>,
    /// The move of the next one.
    pub machine: DiscardView,
}

impl View for DiscardAll {
    type V = DiscardAllView;

    closed spec fn view(&self) -> DiscardAllView {
        DiscardAllView {
            targets: discard::target_views(self.targets@),
            items: crate::item_views(self.items@),
            machine: self.machine@,
        }
    }
}

/// How items are moved to the trash, when those before them are there.
pub open spec fn discard_rest(
    targets: Seq<DiscardTargetView>,
    items: Seq<TrashItemView>,
) -> Step<DiscardAllView, Result<Seq<TrashItemView>, ErrorView>> {
    if items.len() < targets.len() {
        Step::Continue(
            DiscardAllView { targets, items, machine: self::discard(targets[items.len() as int]) },
        )
    } else {
        Step::Finish(Ok(items))
    }
}

/// How items are moved to the trash, one after the other.
pub open spec fn discard_all(targets: Seq<DiscardTargetView>) -> Step<
    DiscardAllView,
    Result<Seq<TrashItemView>, ErrorView>,
> {
    discard_rest(targets, seq![])
}

impl DiscardAll {
    /// Starts to move items to the trash, one after the other.
    pub fn start(targets: Vec<DiscardTarget>) -> (step: Step<Self, Result<TrashItems, Error>>)
        ensures
            machine::step_view(step) == discard_all(discard::target_views(targets@)),
    {
        let items: Vec<TrashItem> = Vec::new();
        assert(crate::item_views(items@) =~= seq![]);
        Self::rest(targets, items)
    }

    fn rest(targets: Vec<DiscardTarget>, items: Vec<TrashItem>) -> (step: Step<
        Self,
        Result<TrashItems, Error>,
    >)
        ensures
            machine::step_view(step) == discard_rest(
                discard::target_views(targets@),
                crate::item_views(items@),
            ),
    {
        if items.len() < targets.len() {
            let machine = Discard::start(targets[items.len()].clone());
            Step::Continue(DiscardAll { targets, items, machine })
        } else {
            Step::Finish(Ok(TrashItems { items }))
        }
    }
}

impl Machine for DiscardAll {
    type Output = TrashItems;

    open spec fn pending(state: DiscardAllView) -> RequestView {
        Discard::pending(state.machine)
    }

    open spec fn next(state: DiscardAllView, reply: ReplyView) -> Step<
        DiscardAllView,
        Result<Seq<TrashItemView>, ErrorView>,
    > {
        match Discard::next(state.machine, reply) {
            Step::Continue(machine) => Step::Continue(DiscardAllView { machine, ..state }),
            Step::Finish(Ok(item)) => discard_rest(state.targets, state.items.push(item)),
            Step::Finish(Err(error)) => Step::Finish(Err(error)),
        }
    }

    proof fn other_replies_change_nothing(state: DiscardAllView, reply: ReplyView) {
        Discard::other_replies_change_nothing(state.machine, reply);
    }

    fn request(&self) -> (request: Request) {
        self.machine.request()
    }

    fn step(self, reply: Reply) -> (step: Step<Self, Result<TrashItems, Error>>) {
        let DiscardAll { targets, items, machine } = self;
        match machine.step(reply) {
            Step::Continue(machine) => Step::Continue(DiscardAll { targets, items, machine }),
            Step::Finish(Ok(item)) => {
                let mut items = items;
                let ghost before = items@;
                items.push(item);
                assert(crate::item_views(items@) =~= crate::item_views(before).push(item@));
                Self::rest(targets, items)
            },
            Step::Finish(Err(error)) => Step::Finish(Err(error)),
        }
    }
}

} // verus!
