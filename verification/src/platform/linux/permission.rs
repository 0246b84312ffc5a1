//! Whether the user may discard an item.

use vstd::prelude::*;

use crate::error::{self, Error, ErrorKind, ErrorView, IoError, IoErrorView};
use crate::machine::{
    self, Exchange, Machine, Metadata, Reply, ReplyView, Request, RequestView, Stage, Step,
};
use crate::path::{self, PathBuf};

verus! {

/// The permission bit of a directory in which users can remove only their own entries.
pub const STICKY_BIT: u32 = 0o1000;

/// The permission bits of a directory that is its owner's alone.
pub const OWNER_RWX_MODE: u32 = 0o700;

/// Users can remove only their own entries from the directory.
pub open spec fn is_sticky(metadata: Metadata) -> bool {
    metadata.mode & STICKY_BIT != 0
}

/// Tells whether users can remove only their own entries from the directory.
pub fn has_sticky_bit(metadata: &Metadata) -> (sticky: bool)
    ensures
        sticky == is_sticky(*metadata),
{
    metadata.mode & STICKY_BIT != 0
}

/// The user may remove an entry from a directory in which users can remove only their own: the
/// user is the superuser, or owns the entry or the directory.
pub open spec fn may_remove_from_sticky(user: u32, owner: u32, directory_owner: u32) -> bool {
    user == 0 || user == owner || user == directory_owner
}

/// The entry belongs to another user, in a directory that protects it.
pub open spec fn protected_by_sticky() -> IoErrorView {
    error::own_failure(
        ErrorKind::PermissionDenied,
        "sticky parent directory prevents deleting path"@,
    )
}

/// Makes sure that the user may discard an item.
#[derive(Debug)]
pub enum EnsurePermission {
    /// What the item is.
    Item { path: PathBuf, parent: PathBuf },
    /// What the directory that holds the item is.
    Parent { path: PathBuf, parent: PathBuf, item: Metadata },
    /// Whether the user may remove entries of that directory.
    Access { path: PathBuf, parent: PathBuf, item: Metadata, directory: Metadata },
    /// The directory protects its entries: the user has to be known.
    User { path: PathBuf, owner: u32, directory_owner: u32 },
}

/// What an [`EnsurePermission`] waits for.
pub enum EnsurePermissionView {
    Item { path: Seq<u8>, parent: Seq<u8> },
    Parent { path: Seq<u8>, parent: Seq<u8>, item: Metadata },
    Access { path: Seq<u8>, parent: Seq<u8>, item: Metadata, directory: Metadata },
    User { path: Seq<u8>, owner: u32, directory_owner: u32 },
}

impl View for EnsurePermission {
    type V = EnsurePermissionView;

    open spec fn view(&self) -> EnsurePermissionView {
        match self {
            EnsurePermission::Item { path, parent } => EnsurePermissionView::Item {
                path: path@,
                parent: parent@,
            },
            EnsurePermission::Parent { path, parent, item } => EnsurePermissionView::Parent {
                path: path@,
                parent: parent@,
                item: *item,
            },
            EnsurePermission::Access { path, parent, item, directory } => {
                EnsurePermissionView::Access {
                    path: path@,
                    parent: parent@,
                    item: *item,
                    directory: *directory,
                }
            },
            EnsurePermission::User { path, owner, directory_owner } => EnsurePermissionView::User {
                path: path@,
                owner: *owner,
                directory_owner: *directory_owner,
            },
        }
    }
}

/// How the check of an item starts.
pub open spec fn permission_start(path: Seq<u8>) -> Step<
    EnsurePermissionView,
    Result<(), ErrorView>,
> {
    match path::parent(path) {
        Some(parent) => Step::Continue(EnsurePermissionView::Item { path, parent }),
        None => Step::Finish(Err(ErrorView::TargetedRoot { path })),
    }
}

impl EnsurePermission {
    /// Starts to make sure that the user may discard the item at a path.
    pub fn start(path: PathBuf) -> (step: Step<Self, Result<(), Error>>)
        ensures
            machine::step_view(step) == permission_start(path@),
    {
        match path.parent() {
            Some(parent) => Step::Continue(EnsurePermission::Item { path, parent }),
            None => Step::Finish(Err(Error::TargetedRoot { path })),
        }
    }
}

impl Machine for EnsurePermission {
    type Output = ();

    open spec fn pending(state: EnsurePermissionView) -> RequestView {
        match state {
            EnsurePermissionView::Item { path, .. } => RequestView::SymlinkMetadata { path },
            EnsurePermissionView::Parent { parent, .. } => RequestView::SymlinkMetadata {
                path: parent,
            },
            EnsurePermissionView::Access { parent, .. } => RequestView::CheckAccess {
                path: parent,
            },
            EnsurePermissionView::User { .. } => RequestView::EffectiveUser,
        }
    }

    open spec fn next(state: EnsurePermissionView, reply: ReplyView) -> Step<
        EnsurePermissionView,
        Result<(), ErrorView>,
    > {
        match (state, reply) {
            (EnsurePermissionView::Item { path, parent }, ReplyView::Metadata(item)) => {
                Step::Continue(EnsurePermissionView::Parent { path, parent, item })
            },
            (EnsurePermissionView::Item { path, .. }, ReplyView::Failed(source)) => Step::Finish(
                Err(ErrorView::Io { path, source }),
            ),
            (
                EnsurePermissionView::Parent { path, parent, item },
                ReplyView::Metadata(directory),
            ) => Step::Continue(EnsurePermissionView::Access { path, parent, item, directory }),
            (EnsurePermissionView::Parent { parent, .. }, ReplyView::Failed(source)) => {
                Step::Finish(Err(ErrorView::Io { path: parent, source }))
            },
            (EnsurePermissionView::Access { path, item, directory, .. }, ReplyView::Done) => {
                if is_sticky(directory) {
                    Step::Continue(
                        EnsurePermissionView::User {
                            path,
                            owner: item.uid,
                            directory_owner: directory.uid,
                        },
                    )
                } else {
                    Step::Finish(Ok(()))
                }
            },
            (EnsurePermissionView::Access { parent, .. }, ReplyView::Failed(source)) => {
                Step::Finish(Err(ErrorView::Io { path: parent, source }))
            },
            (
                EnsurePermissionView::User { path, owner, directory_owner },
                ReplyView::User(user),
            ) => if may_remove_from_sticky(user, owner, directory_owner) {
                Step::Finish(Ok(()))
            } else {
                Step::Finish(Err(ErrorView::Io { path, source: protected_by_sticky() }))
            },
            _ => Step::Continue(state),
        }
    }

    proof fn other_replies_change_nothing(state: EnsurePermissionView, reply: ReplyView) {
    }

    fn request(&self) -> (request: Request) {
        match self {
            EnsurePermission::Item { path, .. } => Request::SymlinkMetadata { path: path.clone() },
            EnsurePermission::Parent { parent, .. } => Request::SymlinkMetadata {
                path: parent.clone(),
            },
            EnsurePermission::Access { parent, .. } => Request::CheckAccess {
                path: parent.clone(),
            },
            EnsurePermission::User { .. } => Request::EffectiveUser,
        }
    }

    fn step(self, reply: Reply) -> (step: Step<Self, Result<(), Error>>) {
        match (self, reply) {
            (EnsurePermission::Item { path, parent }, Reply::Metadata(item)) => Step::Continue(
                EnsurePermission::Parent { path, parent, item },
            ),
            (EnsurePermission::Item { path, .. }, Reply::Failed(source)) => Step::Finish(
                Err(Error::Io { path, source }),
            ),
            (EnsurePermission::Parent { path, parent, item }, Reply::Metadata(directory)) => {
                Step::Continue(EnsurePermission::Access { path, parent, item, directory })
            },
            (EnsurePermission::Parent { parent, .. }, Reply::Failed(source)) => Step::Finish(
                Err(Error::Io { path: parent, source }),
            ),
            (EnsurePermission::Access { path, item, directory, .. }, Reply::Done) => {
                if has_sticky_bit(&directory) {
                    Step::Continue(
                        EnsurePermission::User {
                            path,
                            owner: item.uid,
                            directory_owner: directory.uid,
                        },
                    )
                } else {
                    Step::Finish(Ok(()))
                }
            },
            (EnsurePermission::Access { parent, .. }, Reply::Failed(source)) => Step::Finish(
                Err(Error::Io { path: parent, source }),
            ),
            (EnsurePermission::User { path, owner, directory_owner }, Reply::User(user)) => {
                if user == 0 || user == owner || user == directory_owner {
                    Step::Finish(Ok(()))
                } else {
                    let source = IoError::new(
                        ErrorKind::PermissionDenied,
                        "sticky parent directory prevents deleting path",
                    );
                    Step::Finish(Err(Error::Io { path, source }))
                }
            },
            (machine, _) => Step::Continue(machine),
        }
    }
}

/// The entry was found to be this, and not what a symbolic link leads to.
pub open spec fn is_known(past: Seq<Exchange>, path: Seq<u8>, metadata: Metadata) -> bool {
    past.contains(
        machine::exchange(RequestView::SymlinkMetadata { path }, ReplyView::Metadata(metadata)),
    )
}

/// The user may remove the item from the directory, as far as the directory protects the entries
/// of other users.
pub open spec fn is_unprotected(past: Seq<Exchange>, item: Metadata, directory: Metadata) -> bool {
    is_sticky(directory) ==> exists|user: u32|
        may_remove_from_sticky(user, item.uid, directory.uid) && #[trigger] past.contains(
            machine::exchange(RequestView::EffectiveUser, ReplyView::User(user)),
        )
}

/// The user was found to be allowed to discard the item at the path.
pub open spec fn may_discard(past: Seq<Exchange>, path: Seq<u8>, parent: Seq<u8>) -> bool {
    &&& machine::was_done(past, RequestView::CheckAccess { path: parent })
    &&& exists|item: Metadata, directory: Metadata| #[trigger]
        is_known(past, path, item) && #[trigger] is_known(past, parent, directory)
            && is_unprotected(past, item, directory)
}

/// The directory keeps users from removing each other's entries, and the user is neither the
/// superuser nor the owner of the item or of the directory.
pub open spec fn is_protected(
    past: Seq<Exchange>,
    item: Metadata,
    directory: Metadata,
    user: u32,
) -> bool {
    &&& directory.mode & 0o1000 != 0
    &&& user != 0
    &&& user != item.uid
    &&& user != directory.uid
    &&& past.contains(machine::exchange(RequestView::EffectiveUser, ReplyView::User(user)))
}

/// The item at the path belongs to another user, in a directory that protects it.
pub open spec fn is_of_another_user(past: Seq<Exchange>, path: Seq<u8>) -> bool {
    exists|item: Metadata, directory: Metadata, user: u32|
        path::parent(path) is Some && #[trigger] is_known(past, path, item) && is_known(
            past,
            path::parent(path)->0,
            directory,
        ) && #[trigger] is_protected(past, item, directory, user)
}

/// The failure is that the directory protects the item, and no operating system call reported it.
pub open spec fn tells_of_protection(source: IoErrorView) -> bool {
    &&& source.kind == ErrorKind::PermissionDenied
    &&& source.code is None
    &&& source.message == "sticky parent directory prevents deleting path"@
}

/// The user may not discard the item at the path: the path has no parent, the system failed to tell
/// about the item or its directory, or did not let the user change the directory, or the item
/// belongs to another user in a directory that protects it.
pub open spec fn is_refusal(past: Seq<Exchange>, path: Seq<u8>, error: ErrorView) -> bool {
    match error {
        ErrorView::TargetedRoot { path: root } => root == path && path::parent(path) is None,
        ErrorView::Io { path: failed, source } => {
            ||| is_failure_of(past, failed, source) && (failed == path || path::parent(path)
                == Some(failed))
            ||| failed == path && tells_of_protection(source) && is_of_another_user(past, path)
        },
        _ => false,
    }
}

/// The system failed to tell about the entry, or did not let the user change it.
pub open spec fn is_failure_of(past: Seq<Exchange>, path: Seq<u8>, source: IoErrorView) -> bool {
    ||| past.contains(
        machine::exchange(RequestView::SymlinkMetadata { path }, ReplyView::Failed(source)),
    )
    ||| past.contains(
        machine::exchange(RequestView::CheckAccess { path }, ReplyView::Failed(source)),
    )
}

/// What holds while it is made sure that the user may discard an item.
pub closed spec fn permission_holds(
    item: Seq<u8>,
    stage: Stage<EnsurePermission>,
    past: Seq<Exchange>,
) -> bool {
    match stage {
        Step::Continue(EnsurePermissionView::Item { path, parent }) => path == item
            && path::parent(item) == Some(parent),
        Step::Continue(EnsurePermissionView::Parent { path, parent, item: metadata }) => path
            == item && path::parent(item) == Some(parent) && is_known(past, item, metadata),
        Step::Continue(
            EnsurePermissionView::Access { path, parent, item: metadata, directory },
        ) => path == item && path::parent(item) == Some(parent) && is_known(past, item, metadata)
            && is_known(past, parent, directory),
        Step::Continue(EnsurePermissionView::User { path, owner, directory_owner }) => {
            &&& path == item
            &&& path::parent(item) is Some
            &&& machine::was_done(past, RequestView::CheckAccess { path: path::parent(item)->0 })
            &&& exists|metadata: Metadata, directory: Metadata| #[trigger]
                is_known(past, item, metadata) && #[trigger] is_known(
                    past,
                    path::parent(item)->0,
                    directory,
                ) && metadata.uid == owner && directory.uid == directory_owner && directory.mode
                    & 0o1000 != 0
        },
        Step::Finish(Ok(_)) => path::parent(item) is Some && may_discard(
            past,
            item,
            path::parent(item)->0,
        ),
        Step::Finish(Err(error)) => is_refusal(past, item, error),
    }
}

/// The check keeps to what holds of it.
pub proof fn lemma_permission_step(
    item: Seq<u8>,
    state: EnsurePermissionView,
    past: Seq<Exchange>,
    reply: ReplyView,
)
    requires
        permission_holds(item, Step::Continue(state), past),
    ensures
        permission_holds(
            item,
            EnsurePermission::next(state, reply),
            past.push(machine::exchange(EnsurePermission::pending(state), reply)),
        ),
{
    let last = machine::exchange(EnsurePermission::pending(state), reply);
    let more = past.push(last);
    machine::lemma_past_grows(past, last);
    match state {
        EnsurePermissionView::Access { parent, item: metadata, directory, .. } => {
            assert(is_known(more, item, metadata));
            assert(is_known(more, parent, directory));
        },
        EnsurePermissionView::User { owner, directory_owner, .. } => {
            let parent = path::parent(item)->0;
            let (metadata, directory) = choose|metadata: Metadata, directory: Metadata| #[trigger]
                is_known(past, item, metadata) && #[trigger] is_known(past, parent, directory)
                    && metadata.uid == owner && directory.uid == directory_owner && directory.mode
                    & 0o1000 != 0;
            assert(is_known(more, item, metadata));
            assert(is_known(more, parent, directory));
            if let ReplyView::User(user) = reply {
                if may_remove_from_sticky(user, owner, directory_owner) {
                    assert(is_unprotected(more, metadata, directory));
                } else {
                    assert(is_protected(more, metadata, directory, user));
                    assert(is_of_another_user(more, item));
                }
            }
        },
        _ => {},
    }
}

/// A user is found to be allowed to discard an item only where the system lets the user change
/// the directory that holds it, and where, if that directory protects the entries of other users,
/// the user is the superuser or owns the item or the directory.
pub proof fn permission_needs_access_and_ownership(path: Seq<u8>, replies: Seq<ReplyView>)
    requires
        machine::after::<EnsurePermission>(permission_start(path), replies) == Step::<
            EnsurePermissionView,
            Result<(), ErrorView>,
        >::Finish(Ok(())),
    ensures
        path::parent(path) matches Some(parent) && may_discard(
            machine::history::<EnsurePermission>(permission_start(path), replies),
            path,
            parent,
        ),
{
    lemma_permission(path, replies);
}

/// What holds of the check holds when it starts, whatever came before, and gives the reason when
/// it ends in a refusal.
pub proof fn lemma_permission_starts(path: Seq<u8>, past: Seq<Exchange>, error: ErrorView)
    ensures
        permission_holds(path, permission_start(path), past),
        permission_holds(path, Step::Finish(Err(error)), past) ==> is_refusal(past, path, error),
{
}

proof fn lemma_permission(path: Seq<u8>, replies: Seq<ReplyView>)
    ensures
        permission_holds(
            path,
            machine::after::<EnsurePermission>(permission_start(path), replies),
            machine::history::<EnsurePermission>(permission_start(path), replies),
        ),
{
    let start = permission_start(path);
    let holds = |stage: Stage<EnsurePermission>, past: Seq<Exchange>|
        permission_holds(path, stage, past);
    assert(holds(start, Seq::empty()));
    assert forall|state: EnsurePermissionView, past: Seq<Exchange>, reply: ReplyView|
        #![trigger holds(Step::Continue(state), past), EnsurePermission::next(state, reply)]
        holds(Step::Continue(state), past) implies holds(
        EnsurePermission::next(state, reply),
        past.push(machine::exchange(EnsurePermission::pending(state), reply)),
    ) by {
        lemma_permission_step(path, state, past, reply);
    }
    machine::lemma_invariant::<EnsurePermission>(start, replies, holds);
}

/// The user may remove the item from the directory: the directory does not keep users from removing
/// each other's entries, or the user is the superuser or owns the item or the directory.
pub open spec fn is_removable(past: Seq<Exchange>, item: Metadata, directory: Metadata) -> bool {
    ||| directory.mode & 0o1000 == 0
    ||| exists|user: u32|
        (user == 0 || user == item.uid || user == directory.uid) && #[trigger] past.contains(
            machine::exchange(RequestView::EffectiveUser, ReplyView::User(user)),
        )
}

/// Where a user was found to be allowed to discard an item, the system let the user change the
/// directory that holds it, and the user may remove the item from it.
pub proof fn allowed_items_are_removable(path: Seq<u8>, replies: Seq<ReplyView>)
    requires
        machine::after::<EnsurePermission>(permission_start(path), replies) == Step::<
            EnsurePermissionView,
            Result<(), ErrorView>,
        >::Finish(Ok(())),
    ensures
        ({
            let past = machine::history::<EnsurePermission>(permission_start(path), replies);
            path::parent(path) matches Some(parent) && past.contains(
                machine::exchange(RequestView::CheckAccess { path: parent }, ReplyView::Done),
            ) && exists|item: Metadata, directory: Metadata|
                #![trigger is_removable(past, item, directory)]
                is_known(past, path, item) && is_known(past, parent, directory) && is_removable(
                    past,
                    item,
                    directory,
                )
        }),
{
    lemma_permission(path, replies);
    let past = machine::history::<EnsurePermission>(permission_start(path), replies);
    let parent = path::parent(path)->0;
    let (item, directory) = choose|item: Metadata, directory: Metadata| #[trigger]
        is_known(past, path, item) && #[trigger] is_known(past, parent, directory)
            && is_unprotected(past, item, directory);
    assert(is_removable(past, item, directory));
}

/// A user is found not to be allowed to discard an item only for a reason: the path has no parent,
/// the system failed or did not let the user change the directory, or the item belongs to another
/// user in a directory that protects it.
pub proof fn refusals_have_a_reason(path: Seq<u8>, replies: Seq<ReplyView>, error: ErrorView)
    requires
        machine::after::<EnsurePermission>(permission_start(path), replies) == Step::<
            EnsurePermissionView,
            Result<(), ErrorView>,
        >::Finish(Err(error)),
    ensures
        is_refusal(
            machine::history::<EnsurePermission>(permission_start(path), replies),
            path,
            error,
        ),
{
    lemma_permission(path, replies);
}

/// That an item belongs to another user stays known.
pub proof fn lemma_protection_stays(past: Seq<Exchange>, last: Exchange, path: Seq<u8>)
    ensures
        is_of_another_user(past, path) ==> is_of_another_user(past.push(last), path),
{
    let more = past.push(last);
    machine::lemma_past_grows(past, last);
    if is_of_another_user(past, path) {
        let parent = path::parent(path)->0;
        let (item, directory, user) = choose|item: Metadata, directory: Metadata, user: u32|
            path::parent(path) is Some && #[trigger] is_known(past, path, item) && is_known(
                past,
                path::parent(path)->0,
                directory,
            ) && #[trigger] is_protected(past, item, directory, user);
        assert(is_known(more, path, item));
        assert(is_known(more, parent, directory));
        assert(is_protected(more, item, directory, user));
    }
}

/// Every answer leads on.
pub proof fn answers_lead_on(state: EnsurePermissionView, reply: ReplyView)
    requires
        machine::fits(EnsurePermission::pending(state), reply),
    ensures
        EnsurePermission::next(state, reply) matches Step::Continue(next) ==> next != state,
{
}

} // verus!
