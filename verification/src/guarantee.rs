//! What discarding guarantees, whatever the operating system answers.

use vstd::prelude::*;

use crate::clock::{self, LocalTime};
use crate::discard::{
    self, DiscardPath, DiscardPathView, DiscardPaths, DiscardPathsView, DiscardTargetView,
    ResolveTarget, ResolveTargetView, ResolveTargets, ResolveTargetsView,
};
use crate::error::{ErrorKind, ErrorView, IoErrorView};
use crate::machine::{self, Exchange, Machine, ReplyView, RequestView, Stage, Step};
use crate::path;
use crate::platform::linux::directory_size::{
    self, UpdateCache, UpdateCacheView, WriteCache, WriteCacheView, WritePhaseView,
};
use crate::platform::linux::location::{ResolveLocation, TrashLocationView};
use crate::platform::linux::payload::{MovePayload, MovePayloadView, PayloadKind};
use crate::platform::linux::permission::{self, EnsurePermission, EnsurePermissionView};
use crate::platform::linux::prepare::{
    HomePhase, PrepareTrash, PrepareTrashView, TrashDirectoryView,
};
use crate::platform::linux::trash_info::{
    self, ReserveEntry, ReserveEntryView, ReservePhaseView, ReservedTrashEntryView,
};
use crate::platform::linux::{
    self, location, prepare, Discard, DiscardAll, DiscardAllView, DiscardItem, DiscardItemView,
    DiscardView, MoveView,
};
use crate::text;
use crate::TrashItemView;

verus! {

/// The request takes away what is at the path, or moves something there.
pub open spec fn disturbs(request: RequestView, path: Seq<u8>) -> bool {
    match request {
        RequestView::Rename { from, to } => from == path || to == path,
        RequestView::RemoveFile { path: removed } => removed == path,
        RequestView::RemoveDir { path: removed } => removed == path,
        _ => false,
    }
}

/// What was at the path before the exchange is no longer there.
pub open spec fn supplants(exchange: Exchange, path: Seq<u8>) -> bool {
    exchange.reply is Done && disturbs(exchange.request, path)
}

/// What was at the path at `i` has stayed there since.
pub open spec fn stays_since(past: Seq<Exchange>, i: int, path: Seq<u8>) -> bool {
    forall|k: int| i < k < past.len() ==> !supplants(#[trigger] past[k], path)
}

/// What is at the path was created there on the way by this request, and has stayed there since.
pub open spec fn is_made_by(past: Seq<Exchange>, creation: RequestView, path: Seq<u8>) -> bool {
    exists|i: int|
        0 <= i < past.len() && #[trigger] past[i] == machine::exchange(creation, ReplyView::Done)
            && stays_since(past, i, path)
}

/// What is at the path is a file that was created there on the way.
pub open spec fn is_own_file(past: Seq<Exchange>, path: Seq<u8>) -> bool {
    is_made_by(past, RequestView::CreateFile { path }, path)
}

/// What is at the path is a directory that was created there on the way.
pub open spec fn is_own_directory(past: Seq<Exchange>, path: Seq<u8>) -> bool {
    is_made_by(past, RequestView::CreateDir { path }, path)
}

/// What is at the path was created there on the way.
pub open spec fn is_own(past: Seq<Exchange>, path: Seq<u8>) -> bool {
    is_own_file(past, path) || is_own_directory(past, path)
}

/// A file was written at the path.
pub open spec fn was_written(past: Seq<Exchange>, path: Seq<u8>) -> bool {
    exists|contents: Seq<char>|
        #[trigger] machine::was_done(past, RequestView::WriteFile { path, contents })
}

/// The path is that of a temporary file for the sizes file of the trash.
pub open spec fn is_temporary_of(trash: Seq<u8>, path: Seq<u8>) -> bool {
    path::parent(directory_size::cache_path(trash)) matches Some(directory)
        && directory_size::is_temporary(directory, path)
}

/// The path is that of a temporary file for the sizes file of some trash.
pub open spec fn is_sizes_temporary(path: Seq<u8>) -> bool {
    exists|trash: Seq<u8>| is_temporary_of(trash, path)
}

/// The path is that of the sizes file of a trash, and beside it is the temporary file.
pub open spec fn is_beside_sizes_file(temporary: Seq<u8>, path: Seq<u8>) -> bool {
    exists|trash: Seq<u8>|
        path == #[trigger] directory_size::cache_path(trash) && is_temporary_of(trash, temporary)
}

/// A temporary file, which was created and written on the way, takes the place of the sizes file
/// beside it.
pub open spec fn is_new_sizes_file(past: Seq<Exchange>, from: Seq<u8>, to: Seq<u8>) -> bool {
    &&& is_own_file(past, from)
    &&& was_written(past, from)
    &&& is_beside_sizes_file(from, to)
}

/// The request changes nothing but what was created on the way: it creates an entry where there
/// is none, writes, restricts or removes an entry of its own, moves something to the place of
/// such an entry, or replaces the sizes file by such an entry.
pub open spec fn is_safe(past: Seq<Exchange>, request: RequestView) -> bool {
    match request {
        RequestView::Rename { from, to } => is_own(past, to) || is_new_sizes_file(past, from, to),
        RequestView::WriteFile { path, .. } => is_own_file(past, path),
        RequestView::SetMode { path, .. } => is_own_directory(past, path),
        RequestView::RemoveFile { path } => is_own_file(past, path),
        RequestView::RemoveDir { path } => is_own_directory(past, path),
        RequestView::MoveToTrash { .. } => false,
        _ => true,
    }
}

/// Every request changed nothing but what had been created on the way, apart from the item that
/// was moved and the sizes file that was replaced.
#[verifier::opaque]
pub open spec fn changes_are_safe(past: Seq<Exchange>) -> bool {
    forall|i: int| 0 <= i < past.len() ==> is_safe(past.take(i), (#[trigger] past[i]).request)
}

/// The item at the path was moved.
pub open spec fn was_moved(past: Seq<Exchange>, item: Seq<u8>) -> bool {
    exists|to: Seq<u8>| #[trigger]
        machine::was_done(past, RequestView::Rename { from: item, to })
}

/// Nothing was moved.
pub open spec fn moves_nothing(past: Seq<Exchange>) -> bool {
    forall|item: Seq<u8>| !#[trigger] was_moved(past, item)
}

/// A move is that of the item, which has not been moved before, or it replaces the sizes file.
pub open spec fn is_move_of(
    past: Seq<Exchange>,
    item: Seq<u8>,
    from: Seq<u8>,
    to: Seq<u8>,
) -> bool {
    ||| from == item && !was_moved(past, item)
    ||| is_new_sizes_file(past, from, to)
}

/// Nothing but the item was moved, and that once, apart from new sizes files.
#[verifier::opaque]
pub open spec fn only_moves(past: Seq<Exchange>, item: Seq<u8>) -> bool {
    forall|i: int|
        0 <= i < past.len() ==> (#[trigger] past[i].request matches RequestView::Rename {
            from,
            to,
        } ==> is_move_of(past.take(i), item, from, to))
}

proof fn lemma_more(past: Seq<Exchange>, last: Exchange)
    ensures
        past.push(last).contains(last),
        forall|known: Exchange| #[trigger]
            past.contains(known) ==> past.push(last).contains(known),
        forall|request: RequestView| #[trigger]
            machine::was_done(past, request) ==> machine::was_done(past.push(last), request),
        forall|request: RequestView|
            last == machine::exchange(request, ReplyView::Done) ==> #[trigger] machine::was_done(
                past.push(last),
                request,
            ),
        forall|path: Seq<u8>| #[trigger]
            was_written(past, path) ==> was_written(past.push(last), path),
        forall|creation: RequestView, path: Seq<u8>| #[trigger]
            is_made_by(past, creation, path) && !supplants(last, path) ==> is_made_by(
                past.push(last),
                creation,
                path,
            ),
        forall|creation: RequestView, path: Seq<u8>|
            last == machine::exchange(creation, ReplyView::Done) ==> #[trigger] is_made_by(
                past.push(last),
                creation,
                path,
            ),
{
    let more = past.push(last);
    machine::lemma_past_grows(past, last);
    assert(more[past.len() as int] == last);
    assert forall|creation: RequestView, path: Seq<u8>| #[trigger]
        is_made_by(past, creation, path) && !supplants(last, path) implies is_made_by(
        more,
        creation,
        path,
    ) by {
        let i = choose|i: int|
            0 <= i < past.len() && #[trigger] past[i] == machine::exchange(
                creation,
                ReplyView::Done,
            ) && stays_since(past, i, path);
        assert(more[i] == past[i]);
        assert forall|k: int| i < k < more.len() implies !supplants(#[trigger] more[k], path) by {
            if k < past.len() {
                assert(more[k] == past[k]);
            }
        }
    }
    assert forall|creation: RequestView, path: Seq<u8>|
        last == machine::exchange(creation, ReplyView::Done) implies #[trigger] is_made_by(
        more,
        creation,
        path,
    ) by {
        assert(stays_since(more, past.len() as int, path));
    }
}

proof fn lemma_changes_stay_safe(past: Seq<Exchange>, last: Exchange)
    requires
        changes_are_safe(past),
        is_safe(past, last.request),
    ensures
        changes_are_safe(past.push(last)),
{
    reveal(changes_are_safe);
    let more = past.push(last);
    assert forall|i: int| 0 <= i < more.len() implies is_safe(
        more.take(i),
        (#[trigger] more[i]).request,
    ) by {
        assert(more.take(i) =~= past.take(i));
        if i < past.len() {
            assert(more[i] == past[i]);
        } else {
            assert(past.take(i) =~= past);
        }
    }
}

proof fn lemma_still_only_moves(past: Seq<Exchange>, last: Exchange, item: Seq<u8>)
    requires
        only_moves(past, item),
        last.request matches RequestView::Rename { from, to } ==> is_move_of(past, item, from, to),
    ensures
        only_moves(past.push(last), item),
{
    reveal(only_moves);
    let more = past.push(last);
    assert forall|i: int| 0 <= i < more.len() implies (
    #[trigger] more[i].request matches RequestView::Rename { from, to } ==> is_move_of(
        more.take(i),
        item,
        from,
        to,
    )) by {
        assert(more.take(i) =~= past.take(i));
        if i < past.len() {
            assert(more[i] == past[i]);
        } else {
            assert(past.take(i) =~= past);
        }
    }
}

proof fn lemma_still_unmoved(past: Seq<Exchange>, last: Exchange, item: Seq<u8>)
    requires
        !was_moved(past, item),
        last.request is Rename ==> last.reply !is Done,
    ensures
        !was_moved(past.push(last), item),
{
    let more = past.push(last);
    if was_moved(more, item) {
        let to = choose|to: Seq<u8>| #[trigger]
            machine::was_done(more, RequestView::Rename { from: item, to });
        let moved = machine::exchange(RequestView::Rename { from: item, to }, ReplyView::Done);
        let i = choose|i: int| 0 <= i < more.len() && more[i] == moved;
        assert(past[i] == moved);
        assert(machine::was_done(past, RequestView::Rename { from: item, to }));
    }
}

/// The user was found to be allowed to remove entries of the directory that holds the path.
pub open spec fn is_permitted(past: Seq<Exchange>, path: Seq<u8>) -> bool {
    path::parent(path) matches Some(parent) && machine::was_done(
        past,
        RequestView::CheckAccess { path: parent },
    )
}

/// Nothing was changed before the user was found to be allowed to discard the path.
pub open spec fn changes_are_permitted(past: Seq<Exchange>, path: Seq<u8>) -> bool {
    forall|i: int|
        0 <= i < past.len() && (#[trigger] past[i]).request.changes_files() ==> is_permitted(
            past.take(i),
            path,
        )
}

/// A file that was created at `i` has been removed since, or at least that was tried.
pub open spec fn is_removed_after(past: Seq<Exchange>, i: int, path: Seq<u8>) -> bool {
    exists|j: int|
        i < j < past.len() && #[trigger] past[j].request == (RequestView::RemoveFile { path })
}

/// Of the files that were created, those at other paths than these two have been removed since,
/// or at least that was tried.
pub open spec fn leaves_at_most(
    past: Seq<Exchange>,
    first: Option<Seq<u8>>,
    second: Option<Seq<u8>>,
) -> bool {
    forall|i: int|
        0 <= i < past.len() ==> (#[trigger] past[i] matches Exchange {
            request: RequestView::CreateFile { path },
            reply: ReplyView::Done,
        } ==> first == Some(path) || second == Some(path) || is_removed_after(past, i, path))
}

/// The files that were created have been removed since, or at least that was tried.
pub open spec fn leaves_no_file(past: Seq<Exchange>) -> bool {
    leaves_at_most(past, None, None)
}

proof fn lemma_changes_stay_permitted(past: Seq<Exchange>, last: Exchange, path: Seq<u8>)
    requires
        changes_are_permitted(past, path),
        last.request.changes_files() ==> is_permitted(past, path),
    ensures
        changes_are_permitted(past.push(last), path),
{
    let more = past.push(last);
    assert forall|i: int|
        0 <= i < more.len() && (#[trigger] more[i]).request.changes_files() implies is_permitted(
        more.take(i),
        path,
    ) by {
        assert(more.take(i) =~= past.take(i));
        if i < past.len() {
            assert(more[i] == past[i]);
        } else {
            assert(past.take(i) =~= past);
        }
    }
}

/// What is left after one more exchange: a file that it creates has to be among the two, and a
/// file that it removes need not be.
proof fn lemma_leaves(
    past: Seq<Exchange>,
    last: Exchange,
    first: Option<Seq<u8>>,
    second: Option<Seq<u8>>,
    next_first: Option<Seq<u8>>,
    next_second: Option<Seq<u8>>,
)
    requires
        leaves_at_most(past, first, second),
        last matches Exchange {
            request: RequestView::CreateFile { path },
            reply: ReplyView::Done,
        } ==> next_first == Some(path) || next_second == Some(path),
        first matches Some(path) ==> next_first == Some(path) || next_second == Some(path)
            || last.request == (RequestView::RemoveFile { path }),
        second matches Some(path) ==> next_first == Some(path) || next_second == Some(path)
            || last.request == (RequestView::RemoveFile { path }),
    ensures
        leaves_at_most(past.push(last), next_first, next_second),
{
    let more = past.push(last);
    assert forall|i: int| 0 <= i < more.len() implies (#[trigger] more[i] matches Exchange {
        request: RequestView::CreateFile { path },
        reply: ReplyView::Done,
    } ==> next_first == Some(path) || next_second == Some(path) || is_removed_after(
        more,
        i,
        path,
    )) by {
        if i < past.len() {
            assert(more[i] == past[i]);
            if let RequestView::CreateFile { path } = past[i].request {
                if is_removed_after(past, i, path) {
                    let j = choose|j: int|
                        i < j < past.len() && #[trigger] past[j].request == (
                        RequestView::RemoveFile { path });
                    assert(more[j] == past[j]);
                } else if last.request == (RequestView::RemoveFile { path }) {
                    assert(more[past.len() as int].request == last.request);
                }
            }
        }
    }
}

/// Nothing was asked for since `i` that would take away or replace what is at the path.
pub open spec fn is_kept_since(past: Seq<Exchange>, i: int, path: Seq<u8>) -> bool {
    forall|k: int| i < k < past.len() ==> !disturbs(#[trigger] past[k].request, path)
}

/// The file at the path was created at one point and written with these contents at another, and
/// it has been kept.
pub open spec fn is_written_at(
    past: Seq<Exchange>,
    path: Seq<u8>,
    contents: Seq<char>,
    created: int,
    written: int,
) -> bool {
    &&& 0 <= created < written < past.len()
    &&& past[created] == machine::exchange(RequestView::CreateFile { path }, ReplyView::Done)
    &&& past[written] == machine::exchange(
        RequestView::WriteFile { path, contents },
        ReplyView::Done,
    )
    &&& is_kept_since(past, created, path)
}

/// The request changes nothing, or nothing but the sizes file of the trash.
pub open spec fn is_about_sizes(trash: Seq<u8>, request: RequestView) -> bool {
    match request {
        RequestView::CreateFile { path } => is_temporary_of(trash, path),
        RequestView::WriteFile { path, .. } => is_temporary_of(trash, path),
        RequestView::RemoveFile { path } => is_temporary_of(trash, path),
        RequestView::Rename { from, to } => is_temporary_of(trash, from) && to
            == directory_size::cache_path(trash),
        request => !request.changes_files(),
    }
}

/// Only the sizes file of the trash was changed since `i`.
pub open spec fn only_sizes_change_since(past: Seq<Exchange>, trash: Seq<u8>, i: int) -> bool {
    forall|k: int| i < k < past.len() ==> is_about_sizes(trash, #[trigger] past[k].request)
}

/// The failure is one that ends the discarding of an item: a file could not be written, or one
/// could not be created, or the item could not be moved, for another reason than that something is
/// there already.
pub open spec fn is_hard(request: RequestView, kind: ErrorKind) -> bool {
    ||| request is WriteFile
    ||| (request is CreateFile || request is Rename) && kind != ErrorKind::AlreadyExists
}

/// No failure was passed over that ends the discarding of an item.
#[verifier::opaque]
pub open spec fn passes_over_nothing(past: Seq<Exchange>) -> bool {
    forall|i: int|
        0 <= i < past.len() ==> (#[trigger] past[i].reply matches ReplyView::Failed(source)
            ==> !is_hard(past[i].request, source.kind))
}

/// Something could not be removed because it is there, which makes no sense.
#[verifier::opaque]
pub open spec fn is_odd(past: Seq<Exchange>) -> bool {
    exists|i: int|
        0 <= i < past.len() && ((#[trigger] past[i]).request is RemoveFile || past[i].request
            is RemoveDir) && (past[i].reply matches ReplyView::Failed(source) && source.kind
            == ErrorKind::AlreadyExists)
}

proof fn lemma_passes_over(past: Seq<Exchange>, last: Exchange)
    ensures
        passes_over_nothing(past) && (last.reply matches ReplyView::Failed(source) ==> !is_hard(
            last.request,
            source.kind,
        )) ==> passes_over_nothing(past.push(last)),
        is_odd(past) ==> is_odd(past.push(last)),
        (last.request is RemoveFile || last.request is RemoveDir) && (
        last.reply matches ReplyView::Failed(source) && source.kind == ErrorKind::AlreadyExists)
            ==> is_odd(past.push(last)),
{
    reveal(passes_over_nothing);
    reveal(is_odd);
    let more = past.push(last);
    assert(more[past.len() as int] == last);
    if is_odd(past) {
        let i = choose|i: int|
            0 <= i < past.len() && ((#[trigger] past[i]).request is RemoveFile || past[i].request
                is RemoveDir) && (past[i].reply matches ReplyView::Failed(source) && source.kind
                == ErrorKind::AlreadyExists);
        assert(more[i] == past[i]);
    }
    if passes_over_nothing(past) && (last.reply matches ReplyView::Failed(source) ==> !is_hard(
        last.request,
        source.kind,
    )) {
        assert forall|i: int| 0 <= i < more.len() implies (
        #[trigger] more[i].reply matches ReplyView::Failed(source) ==> !is_hard(
            more[i].request,
            source.kind,
        )) by {
            if i < past.len() {
                assert(more[i] == past[i]);
            }
        }
    }
}

/// The item was moved at one point, and not before, and no failure was passed over before. Where it
/// is a directory, only the sizes file of the trash was changed after that, and else nothing
/// followed.
pub open spec fn is_moved_at(
    past: Seq<Exchange>,
    trash: Seq<u8>,
    from: Seq<u8>,
    to: Seq<u8>,
    moved: int,
) -> bool {
    &&& 0 <= moved < past.len()
    &&& past[moved] == machine::exchange(RequestView::Rename { from, to }, ReplyView::Done)
    &&& !was_moved(past.take(moved), from)
    &&& passes_over_nothing(past.take(moved)) || is_odd(past.take(moved))
    &&& only_sizes_change_since(past, trash, moved)
    &&& moved + 1 < past.len() ==> machine::was_done(past, RequestView::CreateDir { path: to })
}

/// The file at `entry.info` was created, written with these contents, and kept, and after that the
/// item was moved to `entry.file`.
#[verifier::opaque]
pub open spec fn is_described_then_moved(
    past: Seq<Exchange>,
    trash: Seq<u8>,
    entry: ReservedTrashEntryView,
    contents: Seq<char>,
    item: Seq<u8>,
) -> bool {
    exists|created: int, written: int, moved: int|
        #![trigger
            is_written_at(past, entry.info, contents, created, written),
            is_moved_at(past, trash, item, entry.file, moved)]
        written < moved && is_written_at(past, entry.info, contents, created, written)
            && is_moved_at(past, trash, item, entry.file, moved)
}

/// The item was moved to this place in the trash at this time, after the file about it had been
/// written there.
pub open spec fn is_discarded_as(
    past: Seq<Exchange>,
    target: DiscardTargetView,
    item: TrashItemView,
    discard: MoveView,
    entry: ReservedTrashEntryView,
) -> bool {
    &&& discard.target == target
    &&& item == discard.trashed(entry)
    &&& past.contains(
        machine::exchange(RequestView::LocalTime, ReplyView::Time(discard.discarded_at)),
    )
    &&& is_directory_of(discard.location, discard.directory)
    &&& is_in_place(past, discard.location, discard.directory)
    &&& is_place_of(discard, entry)
    &&& location::original_location(discard.location, target.path) matches Ok(original)
        && is_described_then_moved(
        past,
        discard.directory.path,
        entry,
        trash_info::info_text(original, discard.discarded_at.civil()),
        target.path,
    )
}

/// The item was moved to the trash at this location, after the file about it had been written
/// there.
pub open spec fn is_discarded_to(
    past: Seq<Exchange>,
    target: DiscardTargetView,
    location: TrashLocationView,
    item: TrashItemView,
) -> bool {
    exists|discard: MoveView, entry: ReservedTrashEntryView|
        discard.location == location && #[trigger] is_discarded_as(
            past,
            target,
            item,
            discard,
            entry,
        )
}

/// The item was moved to its place by the exchange before `start`.
pub open spec fn is_moved_before(
    past: Seq<Exchange>,
    item: Seq<u8>,
    entry: ReservedTrashEntryView,
    start: int,
) -> bool {
    &&& 0 < start <= past.len()
    &&& past[start - 1] == machine::exchange(
        RequestView::Rename { from: item, to: entry.file },
        ReplyView::Done,
    )
}

/// Since `start`, the size of the item was noted in the sizes file of the trash, or that failed.
pub open spec fn is_noted_since(
    past: Seq<Exchange>,
    trash: Seq<u8>,
    entry: ReservedTrashEntryView,
    start: int,
) -> bool {
    exists|result: Result<(), ErrorView>|
        directory_size::update_holds(
            directory_size::cache_path(trash),
            entry,
            Step::Finish(result),
            past.skip(start),
        )
}

/// Where the item took the place of a directory, which is to say that it is one, its size was noted
/// in the sizes file of the trash once it was there, or noting it failed.
#[verifier::opaque]
pub open spec fn is_size_noted(
    past: Seq<Exchange>,
    trash: Seq<u8>,
    item: Seq<u8>,
    entry: ReservedTrashEntryView,
) -> bool {
    exists|start: int| #[trigger]
        is_moved_before(past, item, entry, start) && (is_own_directory(
            past.take(start - 1),
            entry.file,
        ) && !is_own_file(past.take(start - 1), entry.file) ==> is_noted_since(
            past,
            trash,
            entry,
            start,
        ))
}

/// The item was moved to the trash at this location, and its size was noted there, if it is a
/// directory.
pub open spec fn is_noted_to(
    past: Seq<Exchange>,
    target: DiscardTargetView,
    location: TrashLocationView,
    item: TrashItemView,
) -> bool {
    exists|discard: MoveView, entry: ReservedTrashEntryView|
        discard.location == location && #[trigger] is_discarded_as(
            past,
            target,
            item,
            discard,
            entry,
        ) && is_size_noted(past, discard.directory.path, target.path, entry)
}

/// What holds while the size of an item is noted.
#[verifier::opaque]
spec fn noting_holds(
    past: Seq<Exchange>,
    trash: Seq<u8>,
    item: Seq<u8>,
    entry: ReservedTrashEntryView,
    machine: UpdateCacheView,
) -> bool {
    exists|start: int| #[trigger]
        is_moved_before(past, item, entry, start) && directory_size::update_holds(
            directory_size::cache_path(trash),
            entry,
            Step::Continue(machine),
            past.skip(start),
        )
}

proof fn lemma_noting_starts(
    past: Seq<Exchange>,
    trash: Seq<u8>,
    item: Seq<u8>,
    entry: ReservedTrashEntryView,
)
    requires
        past.len() > 0,
        past.last() == machine::exchange(
            RequestView::Rename { from: item, to: entry.file },
            ReplyView::Done,
        ),
    ensures
        noting_holds(past, trash, item, entry, directory_size::update_start(trash, entry)),
{
    reveal(noting_holds);
    let start = past.len() as int;
    assert(is_moved_before(past, item, entry, start));
    assert(past.skip(start) =~= Seq::empty());
    directory_size::lemma_update_starts(trash, entry);
}

proof fn lemma_noting_step(
    past: Seq<Exchange>,
    trash: Seq<u8>,
    item: Seq<u8>,
    entry: ReservedTrashEntryView,
    machine: UpdateCacheView,
    reply: ReplyView,
)
    requires
        noting_holds(past, trash, item, entry, machine),
    ensures
        ({
            let more = past.push(machine::exchange(UpdateCache::pending(machine), reply));
            match UpdateCache::next(machine, reply) {
                Step::Continue(next) => noting_holds(more, trash, item, entry, next),
                Step::Finish(_) => is_size_noted(more, trash, item, entry),
            }
        }),
{
    reveal(noting_holds);
    reveal(is_size_noted);
    let last = machine::exchange(UpdateCache::pending(machine), reply);
    let more = past.push(last);
    let cache = directory_size::cache_path(trash);
    let start = choose|start: int| #[trigger]
        is_moved_before(past, item, entry, start) && directory_size::update_holds(
            cache,
            entry,
            Step::Continue(machine),
            past.skip(start),
        );
    directory_size::lemma_update_step(cache, entry, machine, past.skip(start), reply);
    assert(more.skip(start) =~= past.skip(start).push(last));
    assert(is_moved_before(more, item, entry, start));
    if let Step::Finish(result) = UpdateCache::next(machine, reply) {
        assert(directory_size::update_holds(
            cache,
            entry,
            Step::Finish(result),
            more.skip(start),
        ));
        assert(is_noted_since(more, trash, entry, start));
    }
}

/// The item is no directory, so that nothing is noted.
proof fn lemma_nothing_to_note(
    past: Seq<Exchange>,
    trash: Seq<u8>,
    item: Seq<u8>,
    entry: ReservedTrashEntryView,
)
    requires
        is_own_file(past, entry.file),
    ensures
        is_size_noted(
            past.push(
                machine::exchange(
                    RequestView::Rename { from: item, to: entry.file },
                    ReplyView::Done,
                ),
            ),
            trash,
            item,
            entry,
        ),
{
    reveal(is_size_noted);
    let last = machine::exchange(
        RequestView::Rename { from: item, to: entry.file },
        ReplyView::Done,
    );
    let more = past.push(last);
    let start = more.len() as int;
    assert(is_moved_before(more, item, entry, start));
    assert(more.take(start - 1) =~= past);
}

/// The trash was found to be on the filesystem that holds the item, and it is the one that the item
/// goes to, by what the system told.
pub open spec fn is_known_trash(
    past: Seq<Exchange>,
    item: Seq<u8>,
    location: TrashLocationView,
) -> bool {
    &&& exists|mounts: Seq<Seq<u8>>| #[trigger]
        location::are_mounts(past, mounts) && location::is_trash_for(item, mounts, location)
    &&& location::is_chosen(past, item, location)
}

/// The item was moved to the trash on the filesystem that holds it, after the file about it had
/// been written there.
pub open spec fn is_discarded(
    past: Seq<Exchange>,
    target: DiscardTargetView,
    item: TrashItemView,
) -> bool {
    exists|location: TrashLocationView| #[trigger]
        is_known_trash(past, target.path, location) && is_discarded_to(
            past,
            target,
            location,
            item,
        )
}

/// The directories are those of the trash at the location, or of the one that it falls back to.
pub open spec fn is_directory_of(
    location: TrashLocationView,
    directory: TrashDirectoryView,
) -> bool {
    match location {
        TrashLocationView::Home { path, .. } => directory == prepare::trash_at(path),
        TrashLocationView::External { path, .. } => {
            ||| directory == prepare::trash_at(path.path)
            ||| path.fallback_path matches Some(fallback) && directory == prepare::trash_at(
                fallback,
            )
        },
    }
}

/// The directories of the trash at the location, or of the one that it falls back to, are in place.
#[verifier::opaque]
pub open spec fn is_in_place(
    past: Seq<Exchange>,
    location: TrashLocationView,
    directory: TrashDirectoryView,
) -> bool {
    match location {
        TrashLocationView::Home { path, .. } => prepare::is_prepared(
            past,
            true,
            path,
            None,
            directory,
        ),
        TrashLocationView::External { path, .. } => prepare::is_prepared(
            past,
            false,
            path.path,
            path.fallback_path,
            directory,
        ),
    }
}

proof fn lemma_still_in_place(
    past: Seq<Exchange>,
    last: Exchange,
    location: TrashLocationView,
    directory: TrashDirectoryView,
)
    requires
        is_in_place(past, location, directory),
    ensures
        is_in_place(past.push(last), location, directory),
{
    reveal(is_in_place);
    match location {
        TrashLocationView::Home { path, .. } => {
            prepare::lemma_still_prepared(past, last, true, path, None, directory);
        },
        TrashLocationView::External { path, .. } => {
            prepare::lemma_still_prepared(
                past,
                last,
                false,
                path.path,
                path.fallback_path,
                directory,
            );
        },
    }
}

/// What holds while the trash at the location is prepared.
#[verifier::opaque]
spec fn placing_holds(
    location: TrashLocationView,
    stage: Stage<PrepareTrash>,
    past: Seq<Exchange>,
) -> bool {
    match location {
        TrashLocationView::Home { path, .. } => prepare::placing_holds(
            true,
            path,
            None,
            stage,
            past,
        ),
        TrashLocationView::External { path, .. } => prepare::placing_holds(
            false,
            path.path,
            path.fallback_path,
            stage,
            past,
        ),
    }
}

proof fn lemma_placing_starts(location: TrashLocationView, past: Seq<Exchange>)
    ensures
        placing_holds(location, location::location_prepare(location), past),
{
    reveal(placing_holds);
    match location {
        TrashLocationView::Home { path, .. } => {
            prepare::lemma_placing_starts(path, path, past, true, None, Err(ErrorView::EmptyPath));
        },
        TrashLocationView::External { path, .. } => {
            let fallback = if let Some(fallback) = path.fallback_path {
                fallback
            } else {
                path.path
            };
            prepare::lemma_placing_starts(
                path.path,
                fallback,
                past,
                false,
                path.fallback_path,
                Err(ErrorView::EmptyPath),
            );
        },
    }
}

proof fn lemma_placing_step(
    location: TrashLocationView,
    machine: PrepareTrashView,
    past: Seq<Exchange>,
    reply: ReplyView,
)
    requires
        placing_holds(location, Step::Continue(machine), past),
    ensures
        ({
            let more = past.push(machine::exchange(PrepareTrash::pending(machine), reply));
            match PrepareTrash::next(machine, reply) {
                Step::Continue(next) => placing_holds(location, Step::Continue(next), more),
                Step::Finish(Ok(directory)) => is_in_place(more, location, directory),
                Step::Finish(Err(error)) => prepare::is_preparation_fault(more, error),
            }
        }),
{
    reveal(placing_holds);
    reveal(is_in_place);
    let more = past.push(machine::exchange(PrepareTrash::pending(machine), reply));
    let (is_home, path, fallback) = match location {
        TrashLocationView::Home { path, .. } => (true, path, None),
        TrashLocationView::External { path, .. } => (false, path.path, path.fallback_path),
    };
    prepare::lemma_placing_step(is_home, path, fallback, machine, past, reply);
    if let Step::Finish(result) = PrepareTrash::next(machine, reply) {
        prepare::lemma_placing_starts(path, path, more, is_home, fallback, result);
    }
}

/// Why an item could not be discarded: the system failed, the user may not remove the item,
/// something else has the path of one of the trash's directories, the system does not tell the
/// time, it cannot be told where the item was, or no name is free.
#[verifier::opaque]
pub open spec fn is_item_fault(
    past: Seq<Exchange>,
    target: DiscardTargetView,
    location: TrashLocationView,
    error: ErrorView,
) -> bool {
    match error {
        ErrorView::EmptyPath => false,
        ErrorView::TargetedRoot { path } => path == target.path && (path::parent(path) is None
            || path::file_name(path) is None),
        ErrorView::Io { path, source } => {
            ||| machine::has_failed(past, path, source)
            ||| path == target.path && permission::tells_of_protection(source)
                && permission::is_of_another_user(past, target.path)
            ||| prepare::tells_of_another_entry(source) && prepare::is_no_directory(past, path)
        },
        ErrorView::Platform { path, message } => {
            ||| path == target.path && is_time_unknown(past, message)
            ||| prepare::is_preparation_fault(past, error)
            ||| location::original_location(location, target.path) == Err::<Seq<u8>, ErrorView>(
                error,
            )
            ||| error == trash_info::no_free_name(target.path)
        },
    }
}

/// The system does not tell the local time, and the message tells why.
pub open spec fn is_time_unknown(past: Seq<Exchange>, message: Seq<char>) -> bool {
    exists|source: IoErrorView|
        message == "Failed to get local time: "@ + source.message && #[trigger] past.contains(
            machine::exchange(RequestView::LocalTime, ReplyView::Failed(source)),
        )
}

/// The system failed.
proof fn lemma_failed(
    past: Seq<Exchange>,
    target: DiscardTargetView,
    location: TrashLocationView,
    path: Seq<u8>,
    source: IoErrorView,
)
    requires
        machine::has_failed(past, path, source),
    ensures
        is_item_fault(past, target, location, ErrorView::Io { path, source }),
{
    reveal(is_item_fault);
}

proof fn lemma_refused(
    past: Seq<Exchange>,
    target: DiscardTargetView,
    location: TrashLocationView,
    error: ErrorView,
)
    requires
        permission::is_refusal(past, target.path, error),
    ensures
        is_item_fault(past, target, location, error),
{
    reveal(is_item_fault);
    if let ErrorView::Io { path, source } = error {
        if permission::is_failure_of(past, path, source) {
            let looked = machine::exchange(
                RequestView::SymlinkMetadata { path },
                ReplyView::Failed(source),
            );
            if past.contains(looked) {
                assert(machine::has_failed(past, path, source));
            } else {
                assert(past.contains(
                    machine::exchange(
                        RequestView::CheckAccess { path },
                        ReplyView::Failed(source),
                    ),
                ));
                assert(machine::has_failed(past, path, source));
            }
        }
    }
}

proof fn lemma_unprepared(
    past: Seq<Exchange>,
    target: DiscardTargetView,
    location: TrashLocationView,
    error: ErrorView,
)
    requires
        prepare::is_preparation_fault(past, error),
    ensures
        is_item_fault(past, target, location, error),
{
    reveal(is_item_fault);
}

spec fn preparation_holds(
    past: Seq<Exchange>,
    location: TrashLocationView,
    machine: PrepareTrashView,
) -> bool {
    match machine {
        PrepareTrashView::Home(machine) => {
            &&& is_directory_of(location, machine.directory)
            &&& machine.phase == HomePhase::Restrict ==> is_own_directory(past, machine.current)
        },
        PrepareTrashView::Shared { machine, fallback } => {
            &&& is_directory_of(location, machine.directory)
            &&& is_directory_of(location, prepare::trash_at(fallback))
        },
        PrepareTrashView::Plain(machine) => is_directory_of(location, machine.directory),
    }
}

/// The entry is a place for the item in the trash that it goes to.
pub open spec fn is_place_of(discard: MoveView, entry: ReservedTrashEntryView) -> bool {
    path::file_name(discard.target.path) matches Some(name) && is_entry_for(
        discard.directory,
        name,
        entry,
    )
}

/// The entry is a place for an item with this name in the trash.
pub open spec fn is_entry_for(
    directory: TrashDirectoryView,
    name: Seq<u8>,
    entry: ReservedTrashEntryView,
) -> bool {
    exists|index: nat| entry == #[trigger] trash_info::entry_at(directory, name, index)
}

/// The file at the path was written with these contents and has been kept.
spec fn is_written_and_kept(past: Seq<Exchange>, path: Seq<u8>, contents: Seq<char>) -> bool {
    exists|created: int, written: int| is_written_at(past, path, contents, created, written)
}

/// The file at the path was created and has been kept.
spec fn is_created_and_kept(past: Seq<Exchange>, path: Seq<u8>) -> bool {
    exists|i: int|
        0 <= i < past.len() && #[trigger] past[i] == machine::exchange(
            RequestView::CreateFile { path },
            ReplyView::Done,
        ) && is_kept_since(past, i, path)
}

/// The file about the item was written and has been kept.
spec fn is_described(
    past: Seq<Exchange>,
    discard: MoveView,
    entry: ReservedTrashEntryView,
) -> bool {
    &&& is_place_of(discard, entry)
    &&& location::original_location(discard.location, discard.target.path) matches Ok(original)
        && is_written_and_kept(
        past,
        entry.info,
        trash_info::info_text(original, discard.discarded_at.civil()),
    )
}

proof fn lemma_kept(past: Seq<Exchange>, last: Exchange, i: int, path: Seq<u8>)
    requires
        0 <= i,
        is_kept_since(past, i, path),
        !disturbs(last.request, path),
    ensures
        is_kept_since(past.push(last), i, path),
{
    let more = past.push(last);
    assert forall|k: int| i < k < more.len() implies !disturbs(
        #[trigger] more[k].request,
        path,
    ) by {
        if k < past.len() {
            assert(more[k] == past[k]);
        }
    }
}

proof fn lemma_created_and_kept(past: Seq<Exchange>, last: Exchange, path: Seq<u8>)
    requires
        !disturbs(last.request, path),
        is_created_and_kept(past, path) || last == machine::exchange(
            RequestView::CreateFile { path },
            ReplyView::Done,
        ),
    ensures
        is_created_and_kept(past.push(last), path),
{
    let more = past.push(last);
    if is_created_and_kept(past, path) {
        let i = choose|i: int|
            0 <= i < past.len() && #[trigger] past[i] == machine::exchange(
                RequestView::CreateFile { path },
                ReplyView::Done,
            ) && is_kept_since(past, i, path);
        assert(more[i] == past[i]);
        lemma_kept(past, last, i, path);
    } else {
        assert(more[past.len() as int] == last);
        assert(is_kept_since(more, past.len() as int, path));
    }
}

/// What was created and kept is there.
proof fn lemma_kept_is_own(past: Seq<Exchange>, path: Seq<u8>)
    requires
        is_created_and_kept(past, path),
    ensures
        is_own_file(past, path),
{
    let i = choose|i: int|
        0 <= i < past.len() && #[trigger] past[i] == machine::exchange(
            RequestView::CreateFile { path },
            ReplyView::Done,
        ) && is_kept_since(past, i, path);
    assert(stays_since(past, i, path));
}

proof fn lemma_written(past: Seq<Exchange>, path: Seq<u8>, contents: Seq<char>)
    requires
        is_created_and_kept(past, path),
    ensures
        is_written_and_kept(
            past.push(
                machine::exchange(RequestView::WriteFile { path, contents }, ReplyView::Done),
            ),
            path,
            contents,
        ),
{
    let last = machine::exchange(RequestView::WriteFile { path, contents }, ReplyView::Done);
    let more = past.push(last);
    let i = choose|i: int|
        0 <= i < past.len() && #[trigger] past[i] == machine::exchange(
            RequestView::CreateFile { path },
            ReplyView::Done,
        ) && is_kept_since(past, i, path);
    lemma_kept(past, last, i, path);
    assert(is_written_at(more, path, contents, i, past.len() as int));
}

proof fn lemma_still_written(
    past: Seq<Exchange>,
    last: Exchange,
    path: Seq<u8>,
    contents: Seq<char>,
    created: int,
    written: int,
)
    requires
        is_written_at(past, path, contents, created, written),
        !disturbs(last.request, path),
    ensures
        is_written_at(past.push(last), path, contents, created, written),
{
    lemma_kept(past, last, created, path);
}

proof fn lemma_still_described(
    past: Seq<Exchange>,
    last: Exchange,
    discard: MoveView,
    entry: ReservedTrashEntryView,
)
    requires
        is_described(past, discard, entry),
        !disturbs(last.request, entry.info),
    ensures
        is_described(past.push(last), discard, entry),
{
    if let Ok(original) = location::original_location(discard.location, discard.target.path) {
        let contents = trash_info::info_text(original, discard.discarded_at.civil());
        let (created, written) = choose|created: int, written: int|
            is_written_at(past, entry.info, contents, created, written);
        lemma_still_written(past, last, entry.info, contents, created, written);
    }
}

/// The file about an item is there.
proof fn lemma_description_is_own(
    past: Seq<Exchange>,
    discard: MoveView,
    entry: ReservedTrashEntryView,
)
    requires
        is_described(past, discard, entry),
    ensures
        is_own_file(past, entry.info),
{
    if let Ok(original) = location::original_location(discard.location, discard.target.path) {
        let contents = trash_info::info_text(original, discard.discarded_at.civil());
        let (created, written) = choose|created: int, written: int|
            is_written_at(past, entry.info, contents, created, written);
        assert(is_created_and_kept(past, entry.info));
        lemma_kept_is_own(past, entry.info);
    }
}

/// The file about an item is neither the item nor at its place in the trash, and it is neither the
/// sizes file of a trash nor a temporary file for that.
proof fn lemma_paths_differ(
    discard: MoveView,
    entry: ReservedTrashEntryView,
    trash: Seq<u8>,
    process: u32,
    number: usize,
)
    requires
        is_place_of(discard, entry),
    ensures
        entry.info != discard.target.path,
        entry.info != entry.file,
        entry.info != directory_size::cache_path(trash),
        entry.info != directory_size::temporary_file(trash, process, number),
{
    let name = path::file_name(discard.target.path)->0;
    let index = choose|index: nat|
        entry == #[trigger] trash_info::entry_at(discard.directory, name, index);
    reveal_strlit(".trashinfo");
    reveal_strlit("directorysizes");
    reveal_strlit(".tmp");
    path::a_file_name_belongs_to_the_parent(discard.target.path);
    trash_info::entries_lie_in_the_trash(discard.directory, name, index);
    assert((entry.name + text::ascii_bytes(".trashinfo"@)).len() > entry.name.len() >= name.len());
    assert(entry.info.last() == 0x6f);
    assert(directory_size::cache_path(trash).last() == 0x73);
    assert(directory_size::temporary_file(trash, process, number).last() == 0x70);
}

spec fn permission_holds(
    past: Seq<Exchange>,
    path: Seq<u8>,
    machine: EnsurePermissionView,
) -> bool {
    match machine {
        EnsurePermissionView::Item { parent, .. } => path::parent(path) == Some(parent),
        EnsurePermissionView::Parent { parent, .. } => path::parent(path) == Some(parent),
        EnsurePermissionView::Access { parent, .. } => path::parent(path) == Some(parent),
        EnsurePermissionView::User { .. } => is_permitted(past, path),
    }
}

spec fn reservation_holds(discard: MoveView, machine: ReserveEntryView) -> bool {
    &&& machine.directory == discard.directory
    &&& path::file_name(discard.target.path) == Some(machine.original_name)
    &&& location::original_location(discard.location, discard.target.path) matches Ok(original)
        && machine.contents == trash_info::info_text(original, discard.discarded_at.civil())
}

spec fn move_holds(
    past: Seq<Exchange>,
    discard: MoveView,
    entry: ReservedTrashEntryView,
    machine: MovePayloadView,
) -> bool {
    match machine {
        MovePayloadView::Inspect { path, trash_path } => path == discard.target.path && trash_path
            == entry.file,
        MovePayloadView::Place { path, trash_path, .. } => path == discard.target.path
            && trash_path == entry.file,
        MovePayloadView::Move { path, trash_path, kind } => path == discard.target.path
            && trash_path == entry.file && is_placed(past, kind, entry.file),
        MovePayloadView::CleanUp { path, trash_path, kind, .. } => path == discard.target.path
            && trash_path == entry.file && is_placed(past, kind, entry.file),
    }
}

/// An empty entry of the kind was created at the path and is still there.
spec fn is_placed(past: Seq<Exchange>, kind: PayloadKind, path: Seq<u8>) -> bool {
    match kind {
        PayloadKind::File => is_own_file(past, path),
        PayloadKind::Directory => is_own_directory(past, path),
    }
}

spec fn write_holds(past: Seq<Exchange>, machine: WriteCacheView) -> bool {
    match machine.phase {
        WritePhaseView::Process => true,
        WritePhaseView::Create { .. } => true,
        WritePhaseView::Write { process, index } => is_own_file(
            past,
            machine.temporary(process, index),
        ),
        WritePhaseView::Replace { process, index } => {
            &&& is_own_file(past, machine.temporary(process, index))
            &&& was_written(past, machine.temporary(process, index))
        },
        WritePhaseView::CleanUp { process, index, .. } => is_own_file(
            past,
            machine.temporary(process, index),
        ),
    }
}

/// The files that a move has created and not removed yet.
spec fn files_of_move(entry: ReservedTrashEntryView, machine: MovePayloadView) -> Option<Seq<u8>> {
    match machine {
        MovePayloadView::Move { kind: PayloadKind::File, .. } => Some(entry.file),
        MovePayloadView::CleanUp { kind: PayloadKind::File, .. } => Some(entry.file),
        _ => None,
    }
}

/// The state is not one that a failure leads to which ends the discarding.
spec fn is_smooth(state: DiscardItemView) -> bool {
    match state {
        DiscardItemView::Reserve { machine, .. } => machine.phase !is CleanUp,
        DiscardItemView::Move { machine, .. } => machine matches MovePayloadView::CleanUp {
            source,
            ..
        } ==> source.kind == ErrorKind::AlreadyExists,
        DiscardItemView::Withdraw { error, .. } => linux::is_taken(error),
        DiscardItemView::Measure { .. } => false,
        _ => true,
    }
}

/// What holds while an item is discarded.
spec fn item_holds(
    target: DiscardTargetView,
    location: TrashLocationView,
    stage: Stage<DiscardItem>,
    past: Seq<Exchange>,
) -> bool {
    &&& changes_are_safe(past)
    &&& only_moves(past, target.path)
    &&& changes_are_permitted(past, target.path)
    &&& match stage {
        Step::Continue(state) => {
            &&& state is Measure || moves_nothing(past)
            &&& is_smooth(state) ==> passes_over_nothing(past) || is_odd(past)
            &&& state_holds(target, location, state, past)
        },
        Step::Finish(Ok(item)) => is_discarded_to(past, target, location, item) && is_noted_to(
            past,
            target,
            location,
            item,
        ),
        Step::Finish(Err(error)) => leaves_no_file(past) && moves_nothing(past) && is_item_fault(
            past,
            target,
            location,
            error,
        ),
    }
}

spec fn discard_holds(
    target: DiscardTargetView,
    location: TrashLocationView,
    discard: MoveView,
    past: Seq<Exchange>,
) -> bool {
    &&& discard.target == target
    &&& discard.location == location
    &&& is_directory_of(location, discard.directory)
    &&& is_in_place(past, location, discard.directory)
    &&& is_permitted(past, target.path)
    &&& past.contains(
        machine::exchange(RequestView::LocalTime, ReplyView::Time(discard.discarded_at)),
    )
}

spec fn state_holds(
    target: DiscardTargetView,
    location: TrashLocationView,
    state: DiscardItemView,
    past: Seq<Exchange>,
) -> bool {
    match state {
        DiscardItemView::Permit { target: item, location: place, machine } => {
            &&& item == target
            &&& place == location
            &&& permission_holds(past, target.path, machine)
            &&& permission::permission_holds(target.path, Step::Continue(machine), past)
            &&& leaves_no_file(past)
        },
        DiscardItemView::Prepare { target: item, location: place, machine } => {
            &&& item == target
            &&& place == location
            &&& preparation_holds(past, location, machine)
            &&& placing_holds(location, Step::Continue(machine), past)
            &&& is_permitted(past, target.path)
            &&& leaves_no_file(past)
        },
        DiscardItemView::Clock { target: item, location: place, directory } => {
            &&& item == target
            &&& place == location
            &&& is_directory_of(location, directory)
            &&& is_in_place(past, location, directory)
            &&& is_permitted(past, target.path)
            &&& leaves_no_file(past)
        },
        DiscardItemView::Reserve { item, machine } => {
            &&& discard_holds(target, location, item, past)
            &&& reservation_holds(item, machine)
            &&& leaves_at_most(
                past,
                match machine.phase {
                    ReservePhaseView::Write => Some(machine.entry().info),
                    ReservePhaseView::CleanUp { .. } => Some(machine.entry().info),
                    _ => None,
                },
                None,
            )
            &&& machine.phase is Write ==> is_created_and_kept(past, machine.entry().info)
            &&& machine.phase is CleanUp ==> is_own_file(past, machine.entry().info)
            &&& machine.phase matches ReservePhaseView::CleanUp { source } ==> machine::has_failed(
                past,
                machine.entry().info,
                source,
            )
            &&& machine.original_path == target.path
        },
        DiscardItemView::Move { item, entry, machine } => {
            &&& discard_holds(target, location, item, past)
            &&& is_described(past, item, entry)
            &&& move_holds(past, item, entry, machine)
            &&& leaves_at_most(past, Some(entry.info), files_of_move(entry, machine))
            &&& machine matches MovePayloadView::CleanUp {
                path,
                source,
                ..
            } ==> machine::has_failed(
                past,
                path,
                source,
            ) || source.kind == ErrorKind::AlreadyExists
        },
        DiscardItemView::Withdraw { item, entry, error } => {
            &&& linux::is_taken(error) || is_item_fault(past, target, location, error)
            &&& discard_holds(target, location, item, past)
            &&& leaves_at_most(past, Some(entry.info), None)
            &&& is_own_file(past, entry.info)
        },
        DiscardItemView::Measure { item, entry, machine } => {
            &&& discard_holds(target, location, item, past)
            &&& is_discarded_as(past, target, item.trashed(entry), item, entry)
            &&& machine::was_done(past, RequestView::CreateDir { path: entry.file })
            &&& noting_holds(past, item.directory.path, target.path, entry, machine)
            &&& cache_holds(past, item.directory.path, machine)
        },
    }
}

/// One more exchange that is safe and permitted keeps what holds of all changes.
proof fn lemma_item_stays_safe(target: DiscardTargetView, past: Seq<Exchange>, last: Exchange)
    requires
        changes_are_safe(past),
        only_moves(past, target.path),
        changes_are_permitted(past, target.path),
        is_safe(past, last.request),
        last.request matches RequestView::Rename { from, to } ==> is_move_of(
            past,
            target.path,
            from,
            to,
        ),
        last.request.changes_files() ==> is_permitted(past, target.path),
    ensures
        changes_are_safe(past.push(last)),
        only_moves(past.push(last), target.path),
        changes_are_permitted(past.push(last), target.path),
        moves_nothing(past) && (last.request is Rename ==> last.reply !is Done) ==> moves_nothing(
            past.push(last),
        ),
        passes_over_nothing(past) && (last.reply matches ReplyView::Failed(source) ==> !is_hard(
            last.request,
            source.kind,
        )) ==> passes_over_nothing(past.push(last)),
        is_odd(past) ==> is_odd(past.push(last)),
        (last.request is RemoveFile || last.request is RemoveDir) && (
        last.reply matches ReplyView::Failed(source) && source.kind == ErrorKind::AlreadyExists)
            ==> is_odd(past.push(last)),
{
    lemma_changes_stay_safe(past, last);
    lemma_still_only_moves(past, last, target.path);
    lemma_changes_stay_permitted(past, last, target.path);
    lemma_passes_over(past, last);
    if moves_nothing(past) && (last.request is Rename ==> last.reply !is Done) {
        assert forall|item: Seq<u8>| !#[trigger] was_moved(past.push(last), item) by {
            lemma_still_unmoved(past, last, item);
        }
    }
}

proof fn lemma_permission_step(
    past: Seq<Exchange>,
    path: Seq<u8>,
    machine: EnsurePermissionView,
    reply: ReplyView,
)
    requires
        permission_holds(past, path, machine),
    ensures
        !EnsurePermission::pending(machine).changes_files(),
        ({
            let more = past.push(machine::exchange(EnsurePermission::pending(machine), reply));
            match EnsurePermission::next(machine, reply) {
                Step::Continue(next) => permission_holds(more, path, next),
                Step::Finish(Ok(_)) => is_permitted(more, path),
                Step::Finish(Err(_)) => true,
            }
        }),
{
    lemma_more(past, machine::exchange(EnsurePermission::pending(machine), reply));
}

proof fn lemma_permit_step(
    target: DiscardTargetView,
    location: TrashLocationView,
    state: DiscardItemView,
    past: Seq<Exchange>,
    reply: ReplyView,
)
    requires
        state is Permit,
        item_holds(target, location, Step::Continue(state), past),
    ensures
        item_holds(
            target,
            location,
            DiscardItem::next(state, reply),
            past.push(machine::exchange(DiscardItem::pending(state), reply)),
        ),
{
    let last = machine::exchange(DiscardItem::pending(state), reply);
    lemma_more(past, last);
    if let DiscardItemView::Permit { machine, .. } = state {
        let more = past.push(last);
        lemma_permission_step(past, target.path, machine, reply);
        permission::lemma_permission_step(target.path, machine, past, reply);
        match EnsurePermission::next(machine, reply) {
            Step::Finish(Ok(_)) => lemma_placing_starts(location, more),
            Step::Finish(Err(error)) => {
                permission::lemma_permission_starts(target.path, more, error);
                lemma_refused(more, target, location, error);
            },
            Step::Continue(_) => {},
        }
    }
    lemma_item_stays_safe(target, past, last);
    lemma_leaves(past, last, None, None, None, None);
}

proof fn lemma_prepare_step(
    target: DiscardTargetView,
    location: TrashLocationView,
    state: DiscardItemView,
    past: Seq<Exchange>,
    reply: ReplyView,
)
    requires
        state is Prepare,
        item_holds(target, location, Step::Continue(state), past),
    ensures
        item_holds(
            target,
            location,
            DiscardItem::next(state, reply),
            past.push(machine::exchange(DiscardItem::pending(state), reply)),
        ),
{
    let last = machine::exchange(DiscardItem::pending(state), reply);
    lemma_more(past, last);
    lemma_item_stays_safe(target, past, last);
    lemma_leaves(past, last, None, None, None, None);
    if let DiscardItemView::Prepare { machine, .. } = state {
        lemma_placing_step(location, machine, past, reply);
        if let Step::Finish(Err(error)) = PrepareTrash::next(machine, reply) {
            lemma_unprepared(past.push(last), target, location, error);
        }
    }
}

proof fn lemma_reserve(
    target: DiscardTargetView,
    location: TrashLocationView,
    discard: MoveView,
    past: Seq<Exchange>,
)
    requires
        changes_are_safe(past),
        only_moves(past, target.path),
        moves_nothing(past),
        passes_over_nothing(past) || is_odd(past),
        changes_are_permitted(past, target.path),
        discard_holds(target, location, discard, past),
        leaves_no_file(past),
    ensures
        item_holds(target, location, discard.reserve(), past),
{
    reveal(is_item_fault);
}

proof fn lemma_clock_step(
    target: DiscardTargetView,
    location: TrashLocationView,
    state: DiscardItemView,
    past: Seq<Exchange>,
    reply: ReplyView,
)
    requires
        state is Clock,
        item_holds(target, location, Step::Continue(state), past),
    ensures
        item_holds(
            target,
            location,
            DiscardItem::next(state, reply),
            past.push(machine::exchange(DiscardItem::pending(state), reply)),
        ),
{
    let last = machine::exchange(DiscardItem::pending(state), reply);
    lemma_more(past, last);
    lemma_item_stays_safe(target, past, last);
    lemma_leaves(past, last, None, None, None, None);
    if let DiscardItemView::Clock { directory, .. } = state {
        lemma_still_in_place(past, last, location, directory);
    }
    match (state, reply) {
        (DiscardItemView::Clock { .. }, ReplyView::Failed(source)) => {
            assert(past.push(last).contains(
                machine::exchange(RequestView::LocalTime, ReplyView::Failed(source)),
            ));
            assert(is_time_unknown(
                past.push(last),
                "Failed to get local time: "@ + source.message,
            ));
            reveal(is_item_fault);
        },
        (DiscardItemView::Clock { target, location, directory }, ReplyView::Time(time)) => {
            lemma_reserve(
                target,
                location,
                MoveView { target, location, directory, discarded_at: time },
                past.push(last),
            );
        },
        _ => {},
    }
}

proof fn lemma_place(discard: MoveView, name: Seq<u8>, index: nat)
    requires
        path::file_name(discard.target.path) == Some(name),
    ensures
        is_place_of(discard, trash_info::entry_at(discard.directory, name, index)),
{
}

proof fn lemma_reserve_step(
    target: DiscardTargetView,
    location: TrashLocationView,
    state: DiscardItemView,
    past: Seq<Exchange>,
    reply: ReplyView,
)
    requires
        state is Reserve,
        item_holds(target, location, Step::Continue(state), past),
    ensures
        item_holds(
            target,
            location,
            DiscardItem::next(state, reply),
            past.push(machine::exchange(DiscardItem::pending(state), reply)),
        ),
{
    let last = machine::exchange(DiscardItem::pending(state), reply);
    let more = past.push(last);
    lemma_more(past, last);
    machine::lemma_failures_stay(past, last);
    if let DiscardItemView::Reserve { item, machine } = state {
        lemma_still_in_place(past, last, location, item.directory);
        match ReserveEntry::next(machine, reply) {
            Step::Finish(Err(ErrorView::Io { path, source })) => {
                lemma_failed(more, target, location, path, source);
            },
            Step::Finish(Err(_)) => {
                reveal(is_item_fault);
            },
            _ => {},
        }
        let info = machine.entry().info;
        lemma_place(item, machine.original_name, machine.index as nat);
        match machine.phase {
            ReservePhaseView::Probe => {
                lemma_item_stays_safe(target, past, last);
                lemma_leaves(past, last, None, None, None, None);
            },
            ReservePhaseView::Create => {
                lemma_item_stays_safe(target, past, last);
                if reply is Done {
                    lemma_leaves(past, last, None, None, Some(info), None);
                    lemma_created_and_kept(past, last, info);
                } else {
                    lemma_leaves(past, last, None, None, None, None);
                }
            },
            ReservePhaseView::Write => {
                lemma_kept_is_own(past, info);
                lemma_item_stays_safe(target, past, last);
                lemma_leaves(past, last, Some(info), None, Some(info), None);
                lemma_created_and_kept(past, last, info);
                lemma_kept_is_own(more, info);
                if reply is Done {
                    lemma_written(past, info, machine.contents);
                }
            },
            ReservePhaseView::CleanUp { .. } => {
                lemma_item_stays_safe(target, past, last);
                lemma_leaves(past, last, Some(info), None, Some(info), None);
                lemma_leaves(past, last, Some(info), None, None, None);
            },
        }
    }
}

/// What is known of a discarding stays known.
proof fn lemma_still_discarding(
    target: DiscardTargetView,
    location: TrashLocationView,
    discard: MoveView,
    past: Seq<Exchange>,
    last: Exchange,
)
    requires
        discard_holds(target, location, discard, past),
    ensures
        discard_holds(target, location, discard, past.push(last)),
{
    lemma_more(past, last);
    lemma_still_in_place(past, last, location, discard.directory);
}

proof fn lemma_payload_step(
    past: Seq<Exchange>,
    discard: MoveView,
    entry: ReservedTrashEntryView,
    machine: MovePayloadView,
    reply: ReplyView,
)
    requires
        is_place_of(discard, entry),
        move_holds(past, discard, entry, machine),
    ensures
        is_safe(past, MovePayload::pending(machine)),
        !disturbs(MovePayload::pending(machine), entry.info),
        MovePayload::next(machine, reply) matches Step::Continue(next) ==> move_holds(
            past.push(machine::exchange(MovePayload::pending(machine), reply)),
            discard,
            entry,
            next,
        ),
{
    lemma_more(past, machine::exchange(MovePayload::pending(machine), reply));
    lemma_paths_differ(discard, entry, Seq::empty(), 0, 0);
}

proof fn lemma_move_fault(
    target: DiscardTargetView,
    location: TrashLocationView,
    machine: MovePayloadView,
    past: Seq<Exchange>,
    reply: ReplyView,
)
    requires
        machine matches MovePayloadView::CleanUp { path, source, .. } ==> machine::has_failed(
            past,
            path,
            source,
        ) || source.kind == ErrorKind::AlreadyExists,
    ensures
        MovePayload::next(machine, reply) matches Step::Finish(Err(error)) ==> linux::is_taken(
            error,
        ) || is_item_fault(
            past.push(machine::exchange(MovePayload::pending(machine), reply)),
            target,
            location,
            error,
        ),
{
    let last = machine::exchange(MovePayload::pending(machine), reply);
    machine::lemma_failures_stay(past, last);
    if let Step::Finish(Err(ErrorView::Io { path, source })) = MovePayload::next(machine, reply) {
        if source.kind != ErrorKind::AlreadyExists {
            lemma_failed(past.push(last), target, location, path, source);
        }
    }
}

proof fn lemma_move_step(
    target: DiscardTargetView,
    location: TrashLocationView,
    state: DiscardItemView,
    past: Seq<Exchange>,
    reply: ReplyView,
)
    requires
        state is Move,
        item_holds(target, location, Step::Continue(state), past),
    ensures
        item_holds(
            target,
            location,
            DiscardItem::next(state, reply),
            past.push(machine::exchange(DiscardItem::pending(state), reply)),
        ),
{
    let last = machine::exchange(DiscardItem::pending(state), reply);
    let more = past.push(last);
    if let DiscardItemView::Move { item, entry, machine } = state {
        let info = Some(entry.info);
        let before = files_of_move(entry, machine);
        lemma_payload_step(past, item, entry, machine, reply);
        lemma_item_stays_safe(target, past, last);
        lemma_still_discarding(target, location, item, past, last);
        match MovePayload::next(machine, reply) {
            Step::Continue(next) => {
                machine::lemma_failures_stay(past, last);
                lemma_still_described(past, last, item, entry);
                lemma_leaves(past, last, info, before, info, files_of_move(entry, next));
            },
            Step::Finish(Ok(kind)) => {
                lemma_described_then_moved(past, item, entry);
                if kind is Directory {
                    assert(machine::was_done(past, RequestView::CreateDir { path: entry.file }));
                    machine::lemma_past_grows(past, last);
                    lemma_noting_starts(more, item.directory.path, target.path, entry);
                } else {
                    lemma_nothing_to_note(past, item.directory.path, target.path, entry);
                }
            },
            Step::Finish(Err(error)) => {
                lemma_still_described(past, last, item, entry);
                lemma_leaves(past, last, info, before, info, None);
                lemma_description_is_own(more, item, entry);
                lemma_move_fault(target, location, machine, past, reply);
            },
        }
    }
}

proof fn lemma_described_then_moved(
    past: Seq<Exchange>,
    discard: MoveView,
    entry: ReservedTrashEntryView,
)
    requires
        is_directory_of(discard.location, discard.directory),
        is_in_place(past, discard.location, discard.directory),
        passes_over_nothing(past) || is_odd(past),
        is_described(past, discard, entry),
        !was_moved(past, discard.target.path),
        past.contains(
            machine::exchange(RequestView::LocalTime, ReplyView::Time(discard.discarded_at)),
        ),
    ensures
        is_discarded_as(
            past.push(
                machine::exchange(
                    RequestView::Rename { from: discard.target.path, to: entry.file },
                    ReplyView::Done,
                ),
            ),
            discard.target,
            discard.trashed(entry),
            discard,
            entry,
        ),
{
    reveal(is_described_then_moved);
    let last = machine::exchange(
        RequestView::Rename { from: discard.target.path, to: entry.file },
        ReplyView::Done,
    );
    let more = past.push(last);
    lemma_still_in_place(past, last, discard.location, discard.directory);
    lemma_more(past, last);
    if let Ok(original) = location::original_location(discard.location, discard.target.path) {
        let contents = trash_info::info_text(original, discard.discarded_at.civil());
        let (created, written) = choose|created: int, written: int|
            is_written_at(past, entry.info, contents, created, written);
        lemma_paths_differ(discard, entry, Seq::empty(), 0, 0);
        lemma_still_written(past, last, entry.info, contents, created, written);
        assert(more.take(past.len() as int) =~= past);
        assert(is_moved_at(
            more,
            discard.directory.path,
            discard.target.path,
            entry.file,
            past.len() as int,
        ));
    }
}

/// A reason stays one.
proof fn lemma_fault_stays(
    past: Seq<Exchange>,
    last: Exchange,
    target: DiscardTargetView,
    location: TrashLocationView,
    error: ErrorView,
)
    ensures
        is_item_fault(past, target, location, error) ==> is_item_fault(
            past.push(last),
            target,
            location,
            error,
        ),
{
    reveal(is_item_fault);
    machine::lemma_failures_stay(past, last);
    prepare::lemma_faults(past, last);
    permission::lemma_protection_stays(past, last, target.path);
    machine::lemma_past_grows(past, last);
    if let ErrorView::Platform { message, .. } = error {
        if is_time_unknown(past, message) {
            let source = choose|source: IoErrorView|
                message == "Failed to get local time: "@ + source.message
                    && #[trigger] past.contains(
                    machine::exchange(RequestView::LocalTime, ReplyView::Failed(source)),
                );
            assert(past.push(last).contains(
                machine::exchange(RequestView::LocalTime, ReplyView::Failed(source)),
            ));
        }
    }
}

proof fn lemma_withdraw_step(
    target: DiscardTargetView,
    location: TrashLocationView,
    state: DiscardItemView,
    past: Seq<Exchange>,
    reply: ReplyView,
)
    requires
        state is Withdraw,
        item_holds(target, location, Step::Continue(state), past),
    ensures
        item_holds(
            target,
            location,
            DiscardItem::next(state, reply),
            past.push(machine::exchange(DiscardItem::pending(state), reply)),
        ),
{
    let last = machine::exchange(DiscardItem::pending(state), reply);
    lemma_more(past, last);
    lemma_item_stays_safe(target, past, last);
    machine::lemma_failures_stay(past, last);
    if let DiscardItemView::Withdraw { item, entry, error } = state {
        lemma_still_in_place(past, last, location, item.directory);
        lemma_fault_stays(past, last, target, location, error);
        if let ReplyView::Failed(cleanup) = reply {
            if cleanup.kind != ErrorKind::NotFound {
                lemma_failed(past.push(last), target, location, entry.info, cleanup);
            }
        }
        lemma_leaves(past, last, Some(entry.info), None, Some(entry.info), None);
        lemma_leaves(past, last, Some(entry.info), None, None, None);
        if linux::is_taken(error) {
            lemma_reserve(target, location, item, past.push(last));
        }
    }
}

proof fn lemma_still_discarded(
    past: Seq<Exchange>,
    last: Exchange,
    target: DiscardTargetView,
    item: TrashItemView,
    discard: MoveView,
    entry: ReservedTrashEntryView,
)
    requires
        is_discarded_as(past, target, item, discard, entry),
        !disturbs(last.request, entry.info),
        is_about_sizes(discard.directory.path, last.request),
        machine::was_done(past, RequestView::CreateDir { path: entry.file }),
    ensures
        is_discarded_as(past.push(last), target, item, discard, entry),
{
    reveal(is_described_then_moved);
    let more = past.push(last);
    lemma_still_in_place(past, last, discard.location, discard.directory);
    lemma_more(past, last);
    if let Ok(original) = location::original_location(discard.location, target.path) {
        let contents = trash_info::info_text(original, discard.discarded_at.civil());
        let (created, written, moved) = choose|created: int, written: int, moved: int|
            #![trigger
                is_written_at(past, entry.info, contents, created, written),
                is_moved_at(past, discard.directory.path, target.path, entry.file, moved)]
            written < moved && is_written_at(past, entry.info, contents, created, written)
                && is_moved_at(past, discard.directory.path, target.path, entry.file, moved);
        lemma_still_written(past, last, entry.info, contents, created, written);
        assert(more.take(moved) =~= past.take(moved));
        assert forall|k: int| moved < k < more.len() implies is_about_sizes(
            discard.directory.path,
            #[trigger] more[k].request,
        ) by {
            if k < past.len() {
                assert(more[k] == past[k]);
            }
        }
        assert(is_moved_at(more, discard.directory.path, target.path, entry.file, moved));
    }
}

proof fn lemma_measure_step(
    target: DiscardTargetView,
    location: TrashLocationView,
    state: DiscardItemView,
    past: Seq<Exchange>,
    reply: ReplyView,
)
    requires
        state is Measure,
        item_holds(target, location, Step::Continue(state), past),
    ensures
        item_holds(
            target,
            location,
            DiscardItem::next(state, reply),
            past.push(machine::exchange(DiscardItem::pending(state), reply)),
        ),
{
    if let DiscardItemView::Measure { item, entry, machine } = state {
        let last = machine::exchange(UpdateCache::pending(machine), reply);
        lemma_cache_step(past, item.directory.path, machine, reply);
        lemma_cache_keeps_the_description(item, entry, past, machine);
        lemma_still_discarding(target, location, item, past, last);
        lemma_item_stays_safe(target, past, last);
        machine::lemma_past_grows(past, last);
        lemma_noting_step(past, item.directory.path, target.path, entry, machine, reply);
        lemma_still_discarded(past, last, target, item.trashed(entry), item, entry);
        assert(DiscardItem::next(state, reply) == item.measuring(
            entry,
            UpdateCache::next(machine, reply),
        ));
    }
}

proof fn lemma_cache_keeps_the_description(
    discard: MoveView,
    entry: ReservedTrashEntryView,
    past: Seq<Exchange>,
    machine: UpdateCacheView,
)
    requires
        is_place_of(discard, entry),
        cache_holds(past, discard.directory.path, machine),
    ensures
        !disturbs(UpdateCache::pending(machine), entry.info),
{
    lemma_paths_differ(discard, entry, discard.directory.path, 0, 0);
    if let UpdateCacheView::Write(machine) = machine {
        match machine.phase {
            WritePhaseView::Replace { process, index } => {
                lemma_paths_differ(discard, entry, machine.directory, process, index);
            },
            WritePhaseView::CleanUp { process, index, .. } => {
                lemma_paths_differ(discard, entry, machine.directory, process, index);
            },
            _ => {},
        }
    }
}

spec fn cache_holds(past: Seq<Exchange>, trash: Seq<u8>, machine: UpdateCacheView) -> bool {
    match machine {
        UpdateCacheView::Usage { cache, .. } => cache == directory_size::cache_path(trash),
        UpdateCacheView::Info { cache, .. } => cache == directory_size::cache_path(trash),
        UpdateCacheView::Read { cache, .. } => cache == directory_size::cache_path(trash),
        UpdateCacheView::Write(machine) => {
            &&& machine.cache == directory_size::cache_path(trash)
            &&& path::parent(machine.cache) == Some(machine.directory)
            &&& write_holds(past, machine)
        },
    }
}

proof fn lemma_cache_step(
    past: Seq<Exchange>,
    trash: Seq<u8>,
    machine: UpdateCacheView,
    reply: ReplyView,
)
    requires
        cache_holds(past, trash, machine),
    ensures
        is_safe(past, UpdateCache::pending(machine)),
        is_about_sizes(trash, UpdateCache::pending(machine)),
        UpdateCache::pending(machine) matches RequestView::Rename { from, to }
            ==> is_new_sizes_file(past, from, to),
        UpdateCache::next(machine, reply) matches Step::Continue(next) ==> cache_holds(
            past.push(machine::exchange(UpdateCache::pending(machine), reply)),
            trash,
            next,
        ),
{
    let last = machine::exchange(UpdateCache::pending(machine), reply);
    lemma_more(past, last);
    match machine {
        UpdateCacheView::Write(machine) => {
            assert(UpdateCache::pending(UpdateCacheView::Write(machine)) == WriteCache::pending(
                machine,
            ));
            match machine.phase {
                WritePhaseView::Process => {},
                WritePhaseView::Create { process, index } => {
                    lemma_beside_sizes_file(trash, machine, process, index);
                },
                WritePhaseView::Write { process, index } => {
                    lemma_beside_sizes_file(trash, machine, process, index);
                    if reply is Done {
                        assert(machine::was_done(
                            past.push(last),
                            RequestView::WriteFile {
                                path: machine.temporary(process, index),
                                contents: machine.contents,
                            },
                        ));
                    }
                },
                WritePhaseView::Replace { process, index } => {
                    lemma_beside_sizes_file(trash, machine, process, index);
                },
                WritePhaseView::CleanUp { process, index, .. } => {
                    lemma_beside_sizes_file(trash, machine, process, index);
                },
            }
        },
        _ => {},
    }
}

proof fn lemma_beside_sizes_file(
    trash: Seq<u8>,
    machine: WriteCacheView,
    process: u32,
    index: usize,
)
    requires
        machine.cache == directory_size::cache_path(trash),
        path::parent(machine.cache) == Some(machine.directory),
    ensures
        is_temporary_of(trash, machine.temporary(process, index)),
        is_beside_sizes_file(machine.temporary(process, index), machine.cache),
{
    assert(directory_size::is_temporary(machine.directory, machine.temporary(process, index)));
    assert(machine.cache == directory_size::cache_path(trash));
}

proof fn lemma_item_step(
    target: DiscardTargetView,
    location: TrashLocationView,
    state: DiscardItemView,
    past: Seq<Exchange>,
    reply: ReplyView,
)
    requires
        item_holds(target, location, Step::Continue(state), past),
    ensures
        item_holds(
            target,
            location,
            DiscardItem::next(state, reply),
            past.push(machine::exchange(DiscardItem::pending(state), reply)),
        ),
{
    match state {
        DiscardItemView::Permit { .. } => lemma_permit_step(target, location, state, past, reply),
        DiscardItemView::Prepare { .. } => lemma_prepare_step(target, location, state, past, reply),
        DiscardItemView::Clock { .. } => lemma_clock_step(target, location, state, past, reply),
        DiscardItemView::Reserve { .. } => lemma_reserve_step(target, location, state, past, reply),
        DiscardItemView::Move { .. } => lemma_move_step(target, location, state, past, reply),
        DiscardItemView::Withdraw { .. } => {
            lemma_withdraw_step(target, location, state, past, reply);
        },
        DiscardItemView::Measure { .. } => lemma_measure_step(target, location, state, past, reply),
    }
}

/// Nothing was changed.
pub open spec fn changes_nothing(past: Seq<Exchange>) -> bool {
    forall|i: int| 0 <= i < past.len() ==> !(#[trigger] past[i]).request.changes_files()
}

proof fn lemma_nothing_changed_is_safe(past: Seq<Exchange>)
    requires
        changes_nothing(past),
    ensures
        changes_are_safe(past),
        forall|item: Seq<u8>| #[trigger] only_moves(past, item),
        moves_nothing(past),
        passes_over_nothing(past),
{
    reveal(passes_over_nothing);
    reveal(changes_are_safe);
    reveal(only_moves);
    assert forall|item: Seq<u8>| !#[trigger] was_moved(past, item) by {
        if was_moved(past, item) {
            let to = choose|to: Seq<u8>| #[trigger]
                machine::was_done(past, RequestView::Rename { from: item, to });
            let moved = machine::exchange(RequestView::Rename { from: item, to }, ReplyView::Done);
            let i = choose|i: int| 0 <= i < past.len() && past[i] == moved;
            assert(past[i].request.changes_files());
        }
    }
}

/// The absolute path that a path stands for: itself, or what it is below the current directory.
pub open spec fn stands_for(past: Seq<Exchange>, path: Seq<u8>, whole: Seq<u8>) -> bool {
    if path::is_absolute(path) {
        whole == path
    } else {
        exists|base: Seq<u8>|
            whole == path::join(base, path) && #[trigger] past.contains(
                machine::exchange(RequestView::CurrentDir, ReplyView::Path(base)),
            )
    }
}

/// The item that an absolute path names. Where the path ends in a name, only the directory before
/// the name was resolved, so that the item is a symbolic link if the name is that of one.
pub open spec fn is_named_by(
    past: Seq<Exchange>,
    whole: Seq<u8>,
    target: DiscardTargetView,
) -> bool {
    match path::file_name(whole) {
        Some(name) => {
            &&& target.original_name == name
            &&& target.path == path::join(target.original_parent, name)
            &&& path::parent(whole) matches Some(parent) && past.contains(
                machine::exchange(
                    RequestView::Canonicalize { path: parent },
                    ReplyView::Path(target.original_parent),
                ),
            )
        },
        None => {
            &&& path::file_name(target.path) == Some(target.original_name)
            &&& path::parent(target.path) == Some(target.original_parent)
            &&& past.contains(
                machine::exchange(
                    RequestView::Canonicalize { path: whole },
                    ReplyView::Path(target.path),
                ),
            )
        },
    }
}

/// The item that a path names.
pub open spec fn is_target_of(
    past: Seq<Exchange>,
    path: Seq<u8>,
    target: DiscardTargetView,
) -> bool {
    exists|whole: Seq<u8>| #[trigger]
        stands_for(past, path, whole) && is_named_by(past, whole, target)
}

/// What was learned stays known.
proof fn lemma_still_target(
    past: Seq<Exchange>,
    more: Seq<Exchange>,
    path: Seq<u8>,
    target: DiscardTargetView,
)
    requires
        is_target_of(past, path, target),
        forall|known: Exchange| #[trigger] past.contains(known) ==> more.contains(known),
    ensures
        is_target_of(more, path, target),
{
    let whole = choose|whole: Seq<u8>| #[trigger]
        stands_for(past, path, whole) && is_named_by(past, whole, target);
    assert(stands_for(more, path, whole));
}

proof fn lemma_nothing_stays_changed(past: Seq<Exchange>, last: Exchange)
    requires
        changes_nothing(past),
        !last.request.changes_files(),
    ensures
        changes_nothing(past.push(last)),
{
    let more = past.push(last);
    assert forall|i: int| 0 <= i < more.len() implies !(
    #[trigger] more[i]).request.changes_files() by {
        if i < past.len() {
            assert(more[i] == past[i]);
        }
    }
}

spec fn resolve_holds(path: Seq<u8>, stage: Stage<ResolveTarget>, past: Seq<Exchange>) -> bool {
    match stage {
        Step::Continue(ResolveTargetView::Base { path: relative }) => relative == path
            && !path::is_absolute(path) && path.len() > 0,
        Step::Continue(ResolveTargetView::Whole { path: whole }) => path::file_name(whole) is None
            && stands_for(past, path, whole) && path.len() > 0,
        Step::Continue(ResolveTargetView::Parent { parent, name }) => path.len() > 0
            && exists|whole: Seq<u8>|
            #![trigger stands_for(past, path, whole)]
            stands_for(past, path, whole) && path::file_name(whole) == Some(name) && path::parent(
                whole,
            ) == Some(parent),
        Step::Finish(Ok(target)) => is_target_of(past, path, target),
        Step::Finish(Err(error)) => is_resolve_fault(past, path, error),
    }
}

proof fn lemma_resolve_step(
    path: Seq<u8>,
    state: ResolveTargetView,
    past: Seq<Exchange>,
    reply: ReplyView,
)
    requires
        resolve_holds(path, Step::Continue(state), past),
    ensures
        !ResolveTarget::pending(state).changes_files(),
        resolve_holds(
            path,
            ResolveTarget::next(state, reply),
            past.push(machine::exchange(ResolveTarget::pending(state), reply)),
        ),
{
    let last = machine::exchange(ResolveTarget::pending(state), reply);
    let more = past.push(last);
    machine::lemma_failures_stay(past, last);
    match (state, reply) {
        (ResolveTargetView::Base { path: relative }, ReplyView::Path(base)) => {
            path::a_file_name_belongs_to_the_parent(path::join(base, relative));
        },
        (ResolveTargetView::Whole { path: whole }, ReplyView::Path(resolved)) => {
            path::a_file_name_belongs_to_the_parent(resolved);
            machine::lemma_past_grows(past, last);
            assert(more.contains(
                machine::exchange(
                    RequestView::Canonicalize { path: whole },
                    ReplyView::Path(resolved),
                ),
            ));
        },
        _ => {},
    }
    lemma_more(past, last);
    match (state, reply) {
        (ResolveTargetView::Base { .. }, ReplyView::Path(base)) => {
            assert(stands_for(more, path, path::join(base, path)));
        },
        (ResolveTargetView::Whole { path: whole }, _) => {
            assert(stands_for(more, path, whole));
            assert(is_to_be_resolved(whole, whole));
        },
        (ResolveTargetView::Parent { parent, name }, _) => {
            let whole = choose|whole: Seq<u8>| #[trigger]
                stands_for(past, path, whole) && path::file_name(whole) == Some(name)
                    && path::parent(whole) == Some(parent);
            assert(stands_for(more, path, whole));
            assert(is_to_be_resolved(whole, parent));
        },
        _ => {},
    }
}

proof fn lemma_resolve_start(path: Seq<u8>, past: Seq<Exchange>)
    ensures
        discard::resolve_start(path) matches Ok(machine) ==> resolve_holds(
            path,
            Step::Continue(machine),
            past,
        ),
        discard::resolve_start(path) matches Err(error) ==> resolve_holds(
            path,
            Step::Finish(Err(error)),
            past,
        ),
{
    path::a_file_name_belongs_to_the_parent(path);
    if path::is_absolute(path) {
        assert(stands_for(past, path, path));
    }
}

/// The item was moved to the trash, and its size was noted there, if it is a directory.
pub open spec fn is_noted(
    past: Seq<Exchange>,
    target: DiscardTargetView,
    item: TrashItemView,
) -> bool {
    exists|location: TrashLocationView| #[trigger]
        is_known_trash(past, target.path, location) && is_noted_to(past, target, location, item)
}

/// Why an item could not be discarded: there is no trash for it, or it could not be moved there.
#[verifier::opaque]
pub open spec fn is_discard_fault(
    past: Seq<Exchange>,
    target: DiscardTargetView,
    error: ErrorView,
) -> bool {
    ||| location::is_location_fault(past, target.path, error)
    ||| exists|location: TrashLocationView| #[trigger]
        is_known_trash(past, target.path, location) && is_item_fault(past, target, location, error)
}

/// The path ends in no name, and the system resolved all of it to this one.
pub open spec fn is_resolved_to(past: Seq<Exchange>, path: Seq<u8>, resolved: Seq<u8>) -> bool {
    exists|whole: Seq<u8>| #[trigger]
        stands_for(past, path, whole) && path::file_name(whole) is None && past.contains(
            machine::exchange(
                RequestView::Canonicalize { path: whole },
                ReplyView::Path(resolved),
            ),
        )
}

/// What has to be resolved of an absolute path: the directory before the name that it ends in, or
/// all of it where it ends in none.
pub open spec fn is_to_be_resolved(whole: Seq<u8>, asked: Seq<u8>) -> bool {
    if path::file_name(whole) is Some {
        path::parent(whole) == Some(asked)
    } else {
        asked == whole
    }
}

/// The system failed to resolve what has to be resolved of the path, or to tell the directory
/// that a relative path starts from.
pub open spec fn is_unresolved(
    past: Seq<Exchange>,
    path: Seq<u8>,
    failed: Seq<u8>,
    source: IoErrorView,
) -> bool {
    ||| past.contains(
        machine::exchange(RequestView::Canonicalize { path: failed }, ReplyView::Failed(source)),
    ) && exists|whole: Seq<u8>| #[trigger]
        stands_for(past, path, whole) && is_to_be_resolved(whole, failed)
    ||| failed == path && !path::is_absolute(path) && past.contains(
        machine::exchange(RequestView::CurrentDir, ReplyView::Failed(source)),
    )
}

/// Why a path could not be resolved: it is empty, it names the root, or the system failed.
pub open spec fn is_resolve_fault(past: Seq<Exchange>, path: Seq<u8>, error: ErrorView) -> bool {
    match error {
        ErrorView::EmptyPath => path.len() == 0,
        ErrorView::TargetedRoot { path: root } => path::file_name(root) is None
            && is_resolved_to(past, path, root),
        ErrorView::Io { path: failed, source } => is_unresolved(past, path, failed, source),
        ErrorView::Platform { .. } => false,
    }
}

/// What holds while an item is discarded, from the choice of its trash on.
spec fn discarding_holds(
    target: DiscardTargetView,
    stage: Stage<Discard>,
    past: Seq<Exchange>,
) -> bool {
    match stage {
        Step::Continue(DiscardView::Locate { target: item, machine }) => {
            &&& item == target
            &&& changes_nothing(past)
            &&& location::location_holds(target.path, Step::Continue(machine), past)
            &&& location::choice_holds(target.path, Step::Continue(machine), past)
        },
        Step::Continue(DiscardView::Discard(state)) => exists|location: TrashLocationView|
            #![trigger is_known_trash(past, target.path, location)]
            is_known_trash(past, target.path, location) && item_holds(
                target,
                location,
                Step::Continue(state),
                past,
            ),
        Step::Finish(Ok(item)) => {
            &&& changes_are_safe(past)
            &&& only_moves(past, target.path)
            &&& changes_are_permitted(past, target.path)
            &&& is_discarded(past, target, item)
            &&& is_noted(past, target, item)
        },
        Step::Finish(Err(error)) => {
            &&& is_discard_fault(past, target, error)
            &&& changes_are_safe(past)
            &&& only_moves(past, target.path)
            &&& changes_are_permitted(past, target.path)
            &&& leaves_no_file(past)
            &&& moves_nothing(past)
        },
    }
}

proof fn lemma_still_known_trash(
    past: Seq<Exchange>,
    last: Exchange,
    item: Seq<u8>,
    location: TrashLocationView,
)
    requires
        is_known_trash(past, item, location),
    ensures
        is_known_trash(past.push(last), item, location),
{
    machine::lemma_past_grows(past, last);
    let mounts = choose|mounts: Seq<Seq<u8>>| #[trigger]
        location::are_mounts(past, mounts) && location::is_trash_for(item, mounts, location);
    assert(location::are_mounts(past.push(last), mounts));
    location::lemma_chosen_stays(past, last, item, location);
}

proof fn lemma_discard_fault(
    past: Seq<Exchange>,
    target: DiscardTargetView,
    location: TrashLocationView,
    error: ErrorView,
)
    ensures
        location::is_location_fault(past, target.path, error) ==> is_discard_fault(
            past,
            target,
            error,
        ),
        is_known_trash(past, target.path, location) && is_item_fault(
            past,
            target,
            location,
            error,
        ) ==> is_discard_fault(past, target, error),
{
    reveal(is_discard_fault);
}

proof fn lemma_discarding_starts(target: DiscardTargetView, past: Seq<Exchange>)
    requires
        changes_nothing(past),
    ensures
        discarding_holds(target, Step::Continue(linux::discard(target)), past),
{
    location::lemma_choice_starts(target.path, past, Err(ErrorView::EmptyPath));
}

proof fn lemma_discarding_step(
    target: DiscardTargetView,
    state: DiscardView,
    past: Seq<Exchange>,
    reply: ReplyView,
)
    requires
        discarding_holds(target, Step::Continue(state), past),
    ensures
        discarding_holds(
            target,
            Discard::next(state, reply),
            past.push(machine::exchange(Discard::pending(state), reply)),
        ),
{
    let last = machine::exchange(Discard::pending(state), reply);
    match state {
        DiscardView::Locate { machine, .. } => {
            lemma_nothing_stays_changed(past, last);
            lemma_nothing_changed_is_safe(past.push(last));
            location::lemma_location_step(target.path, machine, past, reply);
            location::lemma_choice_step(target.path, machine, past, reply);
            match ResolveLocation::next(machine, reply) {
                Step::Finish(Err(error)) => {
                    location::lemma_choice_starts(target.path, past.push(last), Err(error));
                    lemma_discard_fault(
                        past.push(last),
                        target,
                        TrashLocationView::Home { path: Seq::empty(), mount_point: Seq::empty() },
                        error,
                    );
                },
                Step::Finish(Ok(location)) => {
                    location::lemma_choice_starts(target.path, past.push(last), Ok(location));
                    assert(is_known_trash(past.push(last), target.path, location));
                    lemma_item_starts(target, location, past.push(last));
                    if let Step::Finish(Err(error)) = linux::discard_item(location, target) {
                        lemma_discard_fault(past.push(last), target, location, error);
                    }
                },
                _ => {},
            }
        },
        DiscardView::Discard(machine) => {
            let location = choose|location: TrashLocationView| #[trigger]
                is_known_trash(past, target.path, location) && item_holds(
                    target,
                    location,
                    Step::Continue(machine),
                    past,
                );
            lemma_item_step(target, location, machine, past, reply);
            lemma_still_known_trash(past, last, target.path, location);
            if let Step::Finish(Err(error)) = DiscardItem::next(machine, reply) {
                lemma_discard_fault(past.push(last), target, location, error);
            }
        },
    }
}

proof fn lemma_item_starts(
    target: DiscardTargetView,
    location: TrashLocationView,
    past: Seq<Exchange>,
)
    requires
        changes_nothing(past),
    ensures
        item_holds(target, location, linux::discard_item(location, target), past),
{
    lemma_nothing_changed_is_safe(past);
    match permission::permission_start(target.path) {
        Step::Finish(Err(error)) => {
            permission::lemma_permission_starts(target.path, past, error);
            lemma_refused(past, target, location, error);
        },
        _ => {
            permission::lemma_permission_starts(target.path, past, ErrorView::EmptyPath);
        },
    }
}

/// A change followed the resolution of the path and the check that the user may discard the item.
pub open spec fn is_prepared(past: Seq<Exchange>, path: Seq<u8>) -> bool {
    exists|target: DiscardTargetView| #[trigger]
        is_target_of(past, path, target) && is_permitted(past, target.path)
}

/// Every change followed the resolution of the path and the check that the user may discard the
/// item.
pub open spec fn changes_are_prepared(past: Seq<Exchange>, path: Seq<u8>) -> bool {
    forall|i: int|
        0 <= i < past.len() && (#[trigger] past[i]).request.changes_files() ==> is_prepared(
            past.take(i),
            path,
        )
}

/// Why a path could not be discarded: it could not be resolved, or the item that it names could not
/// be discarded.
pub open spec fn is_path_fault(past: Seq<Exchange>, path: Seq<u8>, error: ErrorView) -> bool {
    ||| is_resolve_fault(past, path, error)
    ||| exists|target: DiscardTargetView| #[trigger]
        is_target_of(past, path, target) && is_discard_fault(past, target, error)
}

spec fn path_holds(path: Seq<u8>, stage: Stage<DiscardPath>, past: Seq<Exchange>) -> bool {
    &&& changes_are_safe(past)
    &&& changes_are_prepared(past, path)
    &&& match stage {
        Step::Continue(DiscardPathView::Resolve(machine)) => changes_nothing(past)
            && resolve_holds(path, Step::Continue(machine), past),
        Step::Continue(DiscardPathView::Discard(machine)) => exists|target: DiscardTargetView|
            #![trigger is_target_of(past, path, target)]
            is_target_of(past, path, target) && discarding_holds(
                target,
                Step::Continue(machine),
                past,
            ),
        Step::Finish(Ok(item)) => exists|target: DiscardTargetView| #[trigger]
            is_target_of(past, path, target) && discarding_holds(
                target,
                Step::Finish(Ok(item)),
                past,
            ),
        Step::Finish(Err(error)) => {
            &&& leaves_no_file(past)
            &&& moves_nothing(past)
            &&& is_path_fault(past, path, error)
        },
    }
}

proof fn lemma_changes_stay_prepared(past: Seq<Exchange>, last: Exchange, path: Seq<u8>)
    requires
        changes_are_prepared(past, path),
        last.request.changes_files() ==> is_prepared(past, path),
    ensures
        changes_are_prepared(past.push(last), path),
{
    let more = past.push(last);
    assert forall|i: int|
        0 <= i < more.len() && (#[trigger] more[i]).request.changes_files() implies is_prepared(
        more.take(i),
        path,
    ) by {
        assert(more.take(i) =~= past.take(i));
        if i < past.len() {
            assert(more[i] == past[i]);
        } else {
            assert(past.take(i) =~= past);
        }
    }
}

/// What the last exchange changed was permitted.
proof fn lemma_last_is_permitted(past: Seq<Exchange>, last: Exchange, path: Seq<u8>)
    requires
        changes_are_permitted(past.push(last), path),
        last.request.changes_files(),
    ensures
        is_permitted(past, path),
{
    let more = past.push(last);
    assert(more[past.len() as int] == last);
    assert(more.take(past.len() as int) =~= past);
}

proof fn lemma_path_step(
    path: Seq<u8>,
    state: DiscardPathView,
    past: Seq<Exchange>,
    reply: ReplyView,
)
    requires
        path_holds(path, Step::Continue(state), past),
    ensures
        path_holds(
            path,
            DiscardPath::next(state, reply),
            past.push(machine::exchange(DiscardPath::pending(state), reply)),
        ),
{
    let last = machine::exchange(DiscardPath::pending(state), reply);
    let more = past.push(last);
    lemma_more(past, last);
    match state {
        DiscardPathView::Resolve(machine) => {
            lemma_resolve_step(path, machine, past, reply);
            lemma_nothing_stays_changed(past, last);
            lemma_nothing_changed_is_safe(more);
            lemma_changes_stay_prepared(past, last, path);
            if let Step::Finish(Ok(target)) = ResolveTarget::next(machine, reply) {
                lemma_discarding_starts(target, more);
            }
        },
        DiscardPathView::Discard(machine) => {
            let target = choose|target: DiscardTargetView| #[trigger]
                is_target_of(past, path, target) && discarding_holds(
                    target,
                    Step::Continue(machine),
                    past,
                );
            lemma_discarding_step(target, machine, past, reply);
            lemma_discarding_is_safe(target, Discard::next(machine, reply), more);
            lemma_still_target(past, more, path, target);
            lemma_discarding_is_permitted(target, machine, past, reply);
            lemma_changes_stay_prepared(past, last, path);
            if let Step::Finish(Err(error)) = Discard::next(machine, reply) {
                assert(is_path_fault(more, path, error));
            }
        },
    }
}

/// What is changed while an item is discarded is permitted.
proof fn lemma_discarding_is_permitted(
    target: DiscardTargetView,
    state: DiscardView,
    past: Seq<Exchange>,
    reply: ReplyView,
)
    requires
        discarding_holds(target, Step::Continue(state), past),
    ensures
        Discard::pending(state).changes_files() ==> is_permitted(past, target.path),
{
    let last = machine::exchange(Discard::pending(state), reply);
    match state {
        DiscardView::Locate { machine, .. } => {},
        DiscardView::Discard(machine) => {
            let location = choose|location: TrashLocationView| #[trigger]
                is_known_trash(past, target.path, location) && item_holds(
                    target,
                    location,
                    Step::Continue(machine),
                    past,
                );
            lemma_item_step(target, location, machine, past, reply);
            if last.request.changes_files() {
                lemma_last_is_permitted(past, last, target.path);
            }
        },
    }
}

proof fn lemma_path(path: Seq<u8>, replies: Seq<ReplyView>)
    ensures
        path_holds(
            path,
            machine::after::<DiscardPath>(discard::discard_path(path), replies),
            machine::history::<DiscardPath>(discard::discard_path(path), replies),
        ),
{
    let start = discard::discard_path(path);
    let holds = |stage: Stage<DiscardPath>, past: Seq<Exchange>| path_holds(path, stage, past);
    lemma_resolve_start(path, Seq::empty());
    lemma_nothing_changed_is_safe(Seq::empty());
    assert(holds(start, Seq::empty()));
    assert forall|state: DiscardPathView, past: Seq<Exchange>, reply: ReplyView|
        #![trigger holds(Step::Continue(state), past), DiscardPath::next(state, reply)]
        holds(Step::Continue(state), past) implies holds(
        DiscardPath::next(state, reply),
        past.push(machine::exchange(DiscardPath::pending(state), reply)),
    ) by {
        lemma_path_step(path, state, past, reply);
    }
    machine::lemma_invariant::<DiscardPath>(start, replies, holds);
}

/// When a path has been discarded, the item that it names has been moved to a trash on the
/// filesystem that holds it, and the description that is given back is that of this item: a file
/// about the item was written to the trash first and has been kept, the identifier is the path of
/// that file, and the time is the one that the file tells. The item was moved once, and nothing
/// else was moved but a new sizes file. Where the path ends in a name, the item itself was moved,
/// even if it is a symbolic link.
pub proof fn discarded_items_are_described_and_moved(
    path: Seq<u8>,
    replies: Seq<ReplyView>,
    item: TrashItemView,
)
    requires
        machine::after::<DiscardPath>(discard::discard_path(path), replies) == Step::<
            DiscardPathView,
            Result<TrashItemView, ErrorView>,
        >::Finish(Ok(item)),
    ensures
        ({
            let past = machine::history::<DiscardPath>(discard::discard_path(path), replies);
            exists|target: DiscardTargetView| #[trigger]
                is_target_of(past, path, target) && is_discarded(past, target, item)
                    && only_moves(past, target.path)
        }),
{
    lemma_path(path, replies);
}

/// What the trash at the location keeps of an item's path leads to the item: it is the path itself,
/// or, on another filesystem, what follows the mount point.
pub open spec fn leads_to(
    location: TrashLocationView,
    original: Seq<u8>,
    path: Seq<u8>,
) -> bool {
    match location {
        TrashLocationView::Home { .. } => original == path,
        TrashLocationView::External { mount_point, .. } => {
            path::components(mount_point).len() > 0 ==> {
                &&& original.len() > 0
                &&& !path::is_absolute(original)
                &&& path::components(path::join(mount_point, original)) == path::components(path)
            }
        },
    }
}

/// The time of the item is the one that the system told, to the nanosecond, and the file at the
/// item's identifier was written with the item's path and the date of that time.
pub open spec fn is_told(
    past: Seq<Exchange>,
    target: DiscardTargetView,
    item: TrashItemView,
    time: LocalTime,
) -> bool {
    &&& past.contains(machine::exchange(RequestView::LocalTime, ReplyView::Time(time)))
    &&& item.original_name == target.original_name
    &&& item.original_parent == target.original_parent
    &&& time.is_valid() ==> {
        &&& item.discarded_at.is_normal()
        &&& item.discarded_at.nanoseconds_since_epoch() == time.unix_seconds() * 1_000_000_000
            + time.nanosecond()
        &&& exists|location: TrashLocationView, original: Seq<u8>, contents: Seq<char>|
            #![trigger
                is_known_trash(past, target.path, location),
                trash_info::tells(contents, original, time.civil())]
            is_known_trash(past, target.path, location) && leads_to(
                location,
                original,
                target.path,
            ) && trash_info::tells(contents, original, time.civil()) && machine::was_done(
                past,
                RequestView::WriteFile { path: item.id, contents },
            )
    }
}

/// When a path has been discarded, the time of the item that is given back is the one that the
/// system told, the name and the directory are those of the item that the path names, and the file
/// at the item's identifier tells that path and the date of that time.
pub proof fn discarded_items_tell_the_time(
    path: Seq<u8>,
    replies: Seq<ReplyView>,
    item: TrashItemView,
)
    requires
        machine::after::<DiscardPath>(discard::discard_path(path), replies) == Step::<
            DiscardPathView,
            Result<TrashItemView, ErrorView>,
        >::Finish(Ok(item)),
    ensures
        ({
            let past = machine::history::<DiscardPath>(discard::discard_path(path), replies);
            exists|target: DiscardTargetView, time: LocalTime|
                #![trigger is_told(past, target, item, time)]
                is_target_of(past, path, target) && is_told(past, target, item, time)
        }),
{
    lemma_path(path, replies);
    let past = machine::history::<DiscardPath>(discard::discard_path(path), replies);
    let target = choose|target: DiscardTargetView| #[trigger]
        is_target_of(past, path, target) && discarding_holds(
            target,
            Step::Finish(Ok(item)),
            past,
        );
    lemma_told(past, target, item);
}

proof fn lemma_told(past: Seq<Exchange>, target: DiscardTargetView, item: TrashItemView)
    requires
        is_discarded(past, target, item),
    ensures
        exists|time: LocalTime| is_told(past, target, item, time),
{
    reveal(is_described_then_moved);
    let location = choose|location: TrashLocationView| #[trigger]
        is_known_trash(past, target.path, location) && is_discarded_to(
            past,
            target,
            location,
            item,
        );
    let (discard, entry) = choose|discard: MoveView, entry: ReservedTrashEntryView|
        discard.location == location && #[trigger] is_discarded_as(
            past,
            target,
            item,
            discard,
            entry,
        );
    let time = discard.discarded_at;
    let original = location::original_location(location, target.path)->Ok_0;
    let contents = trash_info::info_text(original, time.civil());
    let (created, written, moved) = choose|created: int, written: int, moved: int|
        #![trigger
            is_written_at(past, entry.info, contents, created, written),
            is_moved_at(past, discard.directory.path, target.path, entry.file, moved)]
        written < moved && is_written_at(past, entry.info, contents, created, written)
            && is_moved_at(past, discard.directory.path, target.path, entry.file, moved);
    assert(past[written] == machine::exchange(
        RequestView::WriteFile { path: item.id, contents },
        ReplyView::Done,
    ));
    assert(machine::was_done(past, RequestView::WriteFile { path: item.id, contents }));
    if let TrashLocationView::External { path: trash, mount_point } = location {
        if path::components(mount_point).len() > 0 {
            location::original_locations_lead_back(trash, mount_point, target.path);
        }
    }
    assert(leads_to(location, original, target.path));
    if time.is_valid() {
        clock::system_times_keep_the_nanoseconds(time);
        trash_info::written_information_is_read_back(original, time.civil());
        assert(trash_info::tells(contents, original, time.civil()));
    }
    assert(is_told(past, target, item, time));
}

/// The name and the directory that are given back for an item make up the path of the item that
/// was moved.
pub proof fn original_paths_name_the_moved_items(
    past: Seq<Exchange>,
    path: Seq<u8>,
    target: DiscardTargetView,
)
    requires
        is_target_of(past, path, target),
    ensures
        path::file_name(target.path) == Some(target.original_name),
        path::components(path::join(target.original_parent, target.original_name))
            == path::components(target.path),
{
    let whole = choose|whole: Seq<u8>| #[trigger]
        stands_for(past, path, whole) && is_named_by(past, whole, target);
    path::a_file_name_belongs_to_the_parent(whole);
    path::a_file_name_belongs_to_the_parent(target.path);
    if let Some(name) = path::file_name(whole) {
        path::a_joined_name_is_the_file_name(target.original_parent, name);
    }
}

/// How the resolution of a path starts.
pub open spec fn resolution(path: Seq<u8>) -> Stage<ResolveTarget> {
    match discard::resolve_start(path) {
        Ok(machine) => Step::Continue(machine),
        Err(error) => Step::Finish(Err(error)),
    }
}

proof fn lemma_resolution(path: Seq<u8>, replies: Seq<ReplyView>)
    ensures
        ({
            let past = machine::history::<ResolveTarget>(resolution(path), replies);
            &&& changes_nothing(past)
            &&& resolve_holds(
                path,
                machine::after::<ResolveTarget>(resolution(path), replies),
                past,
            )
        }),
{
    let start = resolution(path);
    let holds = |stage: Stage<ResolveTarget>, past: Seq<Exchange>|
        changes_nothing(past) && resolve_holds(path, stage, past);
    lemma_resolve_start(path, Seq::empty());
    assert(holds(start, Seq::empty()));
    assert forall|state: ResolveTargetView, past: Seq<Exchange>, reply: ReplyView|
        #![trigger holds(Step::Continue(state), past), ResolveTarget::next(state, reply)]
        holds(Step::Continue(state), past) implies holds(
        ResolveTarget::next(state, reply),
        past.push(machine::exchange(ResolveTarget::pending(state), reply)),
    ) by {
        lemma_resolve_step(path, state, past, reply);
        lemma_nothing_stays_changed(
            past,
            machine::exchange(ResolveTarget::pending(state), reply),
        );
    }
    machine::lemma_invariant::<ResolveTarget>(start, replies, holds);
}

/// Resolving what a path was resolved to gives the same item again: only the directory that was
/// found is resolved, and when that stays as it is, as that of a resolved path does, the name, the
/// directory and the path are those found before. The path is absolute, and it is that of the
/// name in the directory.
pub proof fn resolving_again_changes_nothing(
    path: Seq<u8>,
    replies: Seq<ReplyView>,
    target: DiscardTargetView,
)
    requires
        machine::after::<ResolveTarget>(resolution(path), replies) == Step::<
            ResolveTargetView,
            Result<DiscardTargetView, ErrorView>,
        >::Finish(Ok(target)),
        path::is_absolute(target.original_parent),
    ensures
        path::is_absolute(path) && path::file_name(path) is Some ==> target.path == path::join(
            target.original_parent,
            target.original_name,
        ),
        path::is_absolute(target.path),
        path::components(target.path) == path::components(
            path::join(target.original_parent, target.original_name),
        ),
        resolution(target.path) matches Step::Continue(again)
            && ResolveTarget::pending(again) matches RequestView::Canonicalize { path: parent }
            && path::components(parent) == path::components(target.original_parent),
        machine::after::<ResolveTarget>(
            resolution(target.path),
            seq![ReplyView::Path(target.original_parent)],
        ) matches Step::Finish(Ok(same)) && {
            &&& same.original_name == target.original_name
            &&& same.original_parent == target.original_parent
            &&& path::components(same.path) == path::components(target.path)
            &&& target.path == path::join(target.original_parent, target.original_name) ==> same
                == target
        },
{
    lemma_resolution(path, replies);
    let past = machine::history::<ResolveTarget>(resolution(path), replies);
    original_paths_name_the_moved_items(past, path, target);
    path::a_file_name_belongs_to_the_parent(target.path);
    path::parent_has_all_components_but_the_last(target.path);
    path::a_joined_name_is_the_file_name(target.original_parent, target.original_name);
    let joined = path::join(target.original_parent, target.original_name);
    path::parent_has_all_components_but_the_last(joined);
    assert(path::is_absolute(target.path)) by {
        let whole = choose|whole: Seq<u8>| #[trigger]
            stands_for(past, path, whole) && is_named_by(past, whole, target);
        if path::file_name(whole) is Some {
            assert(target.path[0] == target.original_parent[0]);
        } else {
            assert(target.path[0] == target.original_parent[0]);
        }
    }
    let above = path::parent(target.path)->0;
    assert(path::components(above) =~= path::components(joined).drop_last());
    let replies = seq![ReplyView::Path(target.original_parent)];
    assert(replies.drop_last() =~= Seq::empty());
    assert(machine::after::<ResolveTarget>(resolution(target.path), replies.drop_last())
        == resolution(target.path));
}

/// When the path that is to be discarded cannot be resolved, that error is given back, and nothing
/// was changed.
pub proof fn nothing_changes_when_a_path_cannot_be_resolved(
    path: Seq<u8>,
    replies: Seq<ReplyView>,
    error: ErrorView,
)
    requires
        machine::after::<ResolveTarget>(resolution(path), replies) == Step::<
            ResolveTargetView,
            Result<DiscardTargetView, ErrorView>,
        >::Finish(Err(error)),
    ensures
        machine::after::<DiscardPath>(discard::discard_path(path), replies) == Step::<
            DiscardPathView,
            Result<TrashItemView, ErrorView>,
        >::Finish(Err(error)),
        changes_nothing(machine::history::<DiscardPath>(discard::discard_path(path), replies)),
{
    lemma_path_is_resolved_first(path, replies);
    lemma_resolution(path, replies);
}

/// Until the path is resolved, discarding it is resolving it.
proof fn lemma_path_is_resolved_first(path: Seq<u8>, replies: Seq<ReplyView>)
    ensures
        ({
            let start = resolution(path);
            let whole = discard::discard_path(path);
            let same = machine::history::<DiscardPath>(whole, replies) == machine::history::<
                ResolveTarget,
            >(start, replies);
            match machine::after::<ResolveTarget>(start, replies) {
                Step::Continue(state) => {
                    &&& machine::after::<DiscardPath>(whole, replies) == Step::<
                        DiscardPathView,
                        Result<TrashItemView, ErrorView>,
                    >::Continue(DiscardPathView::Resolve(state))
                    &&& same
                },
                Step::Finish(Err(error)) => {
                    &&& machine::after::<DiscardPath>(whole, replies) == Step::<
                        DiscardPathView,
                        Result<TrashItemView, ErrorView>,
                    >::Finish(Err(error))
                    &&& same
                },
                Step::Finish(Ok(_)) => true,
            }
        }),
    decreases replies.len(),
{
    if replies.len() > 0 {
        lemma_path_is_resolved_first(path, replies.drop_last());
    }
}

/// Discarding a path replaces nothing. Something is moved only to a place at which an empty entry
/// was created on the way and is still there, and what else is moved is a temporary file that was
/// created and written on the way, which becomes the sizes file of a trash. Only files that were
/// created on the way are written or removed, and only directories that were created on the way
/// are restricted or removed.
pub proof fn discarding_replaces_nothing(path: Seq<u8>, replies: Seq<ReplyView>)
    ensures
        changes_are_safe(
            machine::history::<DiscardPath>(discard::discard_path(path), replies),
        ),
{
    lemma_path(path, replies);
}

/// When discarding a path fails, nothing was moved, so that the item is still where it was, and
/// each file that was created on the way has been removed, or at least that was tried.
pub proof fn failed_discarding_moves_nothing_and_leaves_no_file(
    path: Seq<u8>,
    replies: Seq<ReplyView>,
    error: ErrorView,
)
    requires
        machine::after::<DiscardPath>(discard::discard_path(path), replies) == Step::<
            DiscardPathView,
            Result<TrashItemView, ErrorView>,
        >::Finish(Err(error)),
    ensures
        leaves_no_file(machine::history::<DiscardPath>(discard::discard_path(path), replies)),
        moves_nothing(machine::history::<DiscardPath>(discard::discard_path(path), replies)),
{
    lemma_path(path, replies);
}

/// When a directory has been discarded, its size was noted in the sizes file of the trash, as it
/// was measured once the directory was there, or noting it failed. The directories of the trash
/// were in place before.
pub proof fn sizes_of_directories_are_noted(
    path: Seq<u8>,
    replies: Seq<ReplyView>,
    item: TrashItemView,
)
    requires
        machine::after::<DiscardPath>(discard::discard_path(path), replies) == Step::<
            DiscardPathView,
            Result<TrashItemView, ErrorView>,
        >::Finish(Ok(item)),
    ensures
        ({
            let past = machine::history::<DiscardPath>(discard::discard_path(path), replies);
            exists|target: DiscardTargetView| #[trigger]
                is_target_of(past, path, target) && is_noted(past, target, item)
        }),
{
    lemma_path(path, replies);
}

/// Discarding a path fails only for a reason: the path cannot be resolved, there is no trash for
/// the item, the user may not remove it, the system failed, or no name is free.
pub proof fn failed_discarding_has_a_reason(
    path: Seq<u8>,
    replies: Seq<ReplyView>,
    error: ErrorView,
)
    requires
        machine::after::<DiscardPath>(discard::discard_path(path), replies) == Step::<
            DiscardPathView,
            Result<TrashItemView, ErrorView>,
        >::Finish(Err(error)),
    ensures
        is_path_fault(
            machine::history::<DiscardPath>(discard::discard_path(path), replies),
            path,
            error,
        ),
{
    lemma_path(path, replies);
}

/// Discarding a path changes nothing before the path is resolved, and before the user is found to
/// be allowed to remove entries of the directory that holds the item.
pub proof fn changes_need_permission(path: Seq<u8>, replies: Seq<ReplyView>)
    ensures
        changes_are_prepared(
            machine::history::<DiscardPath>(discard::discard_path(path), replies),
            path,
        ),
{
    lemma_path(path, replies);
}

/// The part of the exchanges from one cut to the next moved one of the items to the trash, and
/// moved nothing else but new sizes files.
pub open spec fn is_discarded_in_part(
    past: Seq<Exchange>,
    cuts: Seq<int>,
    targets: Seq<DiscardTargetView>,
    items: Seq<TrashItemView>,
    k: int,
) -> bool {
    &&& 0 <= cuts[k] <= cuts[k + 1] <= past.len()
    &&& is_discarded(past.subrange(cuts[k], cuts[k + 1]), targets[k], items[k])
    &&& only_moves(past.subrange(cuts[k], cuts[k + 1]), targets[k].path)
}

/// The first items were moved to the trash, one in each part of the exchanges, in order.
pub open spec fn are_discarded(
    past: Seq<Exchange>,
    cuts: Seq<int>,
    targets: Seq<DiscardTargetView>,
    items: Seq<TrashItemView>,
) -> bool {
    &&& items.len() <= targets.len()
    &&& cuts.len() == items.len() + 1
    &&& cuts[0] == 0
    &&& 0 <= cuts.last() <= past.len()
    &&& forall|k: int|
        0 <= k < items.len() ==> #[trigger] is_discarded_in_part(past, cuts, targets, items, k)
}

proof fn lemma_still_discarded_in_parts(
    past: Seq<Exchange>,
    last: Exchange,
    cuts: Seq<int>,
    targets: Seq<DiscardTargetView>,
    items: Seq<TrashItemView>,
)
    requires
        are_discarded(past, cuts, targets, items),
    ensures
        are_discarded(past.push(last), cuts, targets, items),
{
    let more = past.push(last);
    assert forall|k: int| 0 <= k < items.len() implies #[trigger] is_discarded_in_part(
        more,
        cuts,
        targets,
        items,
        k,
    ) by {
        assert(is_discarded_in_part(past, cuts, targets, items, k));
        assert(more.subrange(cuts[k], cuts[k + 1]) =~= past.subrange(cuts[k], cuts[k + 1]));
    }
}

proof fn lemma_one_more_is_discarded(
    past: Seq<Exchange>,
    cuts: Seq<int>,
    targets: Seq<DiscardTargetView>,
    items: Seq<TrashItemView>,
    item: TrashItemView,
)
    requires
        are_discarded(past, cuts, targets, items),
        items.len() < targets.len(),
        is_discarded(past.skip(cuts.last()), targets[items.len() as int], item),
        only_moves(past.skip(cuts.last()), targets[items.len() as int].path),
    ensures
        are_discarded(past, cuts.push(past.len() as int), targets, items.push(item)),
{
    let all = items.push(item);
    let more = cuts.push(past.len() as int);
    assert forall|k: int| 0 <= k < all.len() implies #[trigger] is_discarded_in_part(
        past,
        more,
        targets,
        all,
        k,
    ) by {
        if k < items.len() {
            assert(is_discarded_in_part(past, cuts, targets, items, k));
        } else {
            assert(past.subrange(more[k], more[k + 1]) =~= past.skip(cuts.last()));
        }
    }
}

/// The path is that of one of the first targets.
pub open spec fn is_among(targets: Seq<DiscardTargetView>, count: nat, path: Seq<u8>) -> bool {
    exists|k: int| 0 <= k < count && #[trigger] targets[k].path == path
}

/// Nothing was moved but the first items, apart from new sizes files.
#[verifier::opaque]
pub open spec fn only_first_are_moved(
    past: Seq<Exchange>,
    targets: Seq<DiscardTargetView>,
    count: nat,
) -> bool {
    forall|i: int|
        0 <= i < past.len() ==> (#[trigger] past[i].request matches RequestView::Rename {
            from,
            to,
        } ==> is_among(targets, count, from) || is_new_sizes_file(past.take(i), from, to))
}

proof fn lemma_only_first_are_moved(
    past: Seq<Exchange>,
    last: Exchange,
    targets: Seq<DiscardTargetView>,
    count: nat,
)
    requires
        only_first_are_moved(past, targets, count),
        last.request matches RequestView::Rename { from, to } ==> is_among(targets, count, from)
            || is_new_sizes_file(past, from, to),
    ensures
        only_first_are_moved(past.push(last), targets, count),
{
    reveal(only_first_are_moved);
    let more = past.push(last);
    assert forall|i: int| 0 <= i < more.len() implies (
    #[trigger] more[i].request matches RequestView::Rename { from, to } ==> is_among(
        targets,
        count,
        from,
    ) || is_new_sizes_file(more.take(i), from, to)) by {
        assert(more.take(i) =~= past.take(i));
        if i < past.len() {
            assert(more[i] == past[i]);
        } else {
            assert(past.take(i) =~= past);
        }
    }
}

proof fn lemma_more_may_be_moved(
    past: Seq<Exchange>,
    targets: Seq<DiscardTargetView>,
    count: nat,
    more: nat,
)
    requires
        only_first_are_moved(past, targets, count),
        count <= more,
    ensures
        only_first_are_moved(past, targets, more),
{
    reveal(only_first_are_moved);
    assert forall|i: int| 0 <= i < past.len() implies (
    #[trigger] past[i].request matches RequestView::Rename { from, to } ==> is_among(
        targets,
        more,
        from,
    ) || is_new_sizes_file(past.take(i), from, to)) by {
        if let RequestView::Rename { from, .. } = past[i].request {
            if is_among(targets, count, from) {
                let k = choose|k: int| 0 <= k < count && #[trigger] targets[k].path == from;
                assert(targets[k].path == from);
            }
        }
    }
}

/// What is moved by the last exchange of an item is the item or a new sizes file.
proof fn lemma_last_move_is_of(past: Seq<Exchange>, last: Exchange, item: Seq<u8>)
    requires
        only_moves(past.push(last), item),
    ensures
        last.request matches RequestView::Rename { from, to } ==> is_move_of(past, item, from, to),
{
    reveal(only_moves);
    let more = past.push(last);
    assert(more[past.len() as int] == last);
    assert(more.take(past.len() as int) =~= past);
}

/// The first items were moved to the trash, one in each part of the exchanges, and discarding the
/// next one failed: it was not moved, the files that were created for it have been removed, or at
/// least that was tried, and none of the later items was moved. An item that is named twice may
/// have been moved when it came first.
pub open spec fn are_discarded_until(
    past: Seq<Exchange>,
    cuts: Seq<int>,
    targets: Seq<DiscardTargetView>,
    items: Seq<TrashItemView>,
) -> bool {
    &&& are_discarded(past, cuts, targets, items)
    &&& items.len() < targets.len()
    &&& leaves_no_file(past.skip(cuts.last()))
    &&& moves_nothing(past.skip(cuts.last()))
    &&& only_moves(past.skip(cuts.last()), targets[items.len() as int].path)
    &&& only_first_are_moved(past.take(cuts.last()), targets, items.len())
    &&& only_first_are_moved(past, targets, items.len() + 1)
    &&& forall|k: int|
        items.len() <= k < targets.len() && was_moved(past, (#[trigger] targets[k]).path)
            ==> is_among(targets, items.len(), targets[k].path) || is_sizes_temporary(
            targets[k].path,
        )
}

/// What was moved is one of the first items, or it was a temporary file.
proof fn lemma_moved_items_are_among_the_first(
    past: Seq<Exchange>,
    cut: int,
    targets: Seq<DiscardTargetView>,
    count: nat,
    item: Seq<u8>,
)
    requires
        0 <= cut <= past.len(),
        only_first_are_moved(past.take(cut), targets, count),
        moves_nothing(past.skip(cut)),
        was_moved(past, item),
    ensures
        is_among(targets, count, item) || is_sizes_temporary(item),
{
    reveal(only_first_are_moved);
    let to = choose|to: Seq<u8>| #[trigger]
        machine::was_done(past, RequestView::Rename { from: item, to });
    let moved = machine::exchange(RequestView::Rename { from: item, to }, ReplyView::Done);
    let i = choose|i: int| 0 <= i < past.len() && past[i] == moved;
    if i < cut {
        assert(past.take(cut)[i].request == moved.request);
    } else {
        assert(past.skip(cut)[i - cut] == moved);
        assert(machine::was_done(past.skip(cut), RequestView::Rename { from: item, to }));
        assert(was_moved(past.skip(cut), item));
    }
}

/// The first items were moved to the trash, and discarding the next one failed with this error, for
/// a reason.
pub open spec fn is_stopped(
    past: Seq<Exchange>,
    targets: Seq<DiscardTargetView>,
    error: ErrorView,
) -> bool {
    exists|cuts: Seq<int>, items: Seq<TrashItemView>| #[trigger]
        are_discarded_until(past, cuts, targets, items) && is_discard_fault(
            past.skip(cuts.last()),
            targets[items.len() as int],
            error,
        )
}

spec fn all_hold(
    targets: Seq<DiscardTargetView>,
    stage: Stage<DiscardAll>,
    past: Seq<Exchange>,
) -> bool {
    &&& changes_are_safe(past)
    &&& match stage {
        Step::Continue(state) => {
            &&& state.targets == targets
            &&& state.items.len() < targets.len()
            &&& only_first_are_moved(past, targets, state.items.len() + 1)
            &&& exists|cuts: Seq<int>| #[trigger]
                are_discarded(past, cuts, targets, state.items) && only_first_are_moved(
                    past.take(cuts.last()),
                    targets,
                    state.items.len(),
                ) && discarding_holds(
                    targets[state.items.len() as int],
                    Step::Continue(state.machine),
                    past.skip(cuts.last()),
                )
        },
        Step::Finish(Ok(items)) => {
            &&& items.len() == targets.len()
            &&& exists|cuts: Seq<int>| #[trigger] are_discarded(past, cuts, targets, items)
        },
        Step::Finish(Err(error)) => is_stopped(past, targets, error),
    }
}

proof fn lemma_discarding_is_safe(
    target: DiscardTargetView,
    stage: Stage<Discard>,
    past: Seq<Exchange>,
)
    requires
        discarding_holds(target, stage, past),
    ensures
        changes_are_safe(past),
        only_moves(past, target.path),
{
    match stage {
        Step::Continue(DiscardView::Locate { .. }) => lemma_nothing_changed_is_safe(past),
        _ => {},
    }
}

/// What was created in a part of the exchanges and is there after it was created in all of them.
proof fn lemma_made_in_part(past: Seq<Exchange>, start: int)
    requires
        0 <= start <= past.len(),
    ensures
        forall|creation: RequestView, path: Seq<u8>| #[trigger]
            is_made_by(past.skip(start), creation, path) ==> is_made_by(past, creation, path),
        forall|path: Seq<u8>| #[trigger]
            was_written(past.skip(start), path) ==> was_written(past, path),
{
    let part = past.skip(start);
    assert forall|creation: RequestView, path: Seq<u8>| #[trigger]
        is_made_by(part, creation, path) implies is_made_by(past, creation, path) by {
        let i = choose|i: int|
            0 <= i < part.len() && #[trigger] part[i] == machine::exchange(
                creation,
                ReplyView::Done,
            ) && stays_since(part, i, path);
        assert(past[start + i] == part[i]);
        assert forall|k: int| start + i < k < past.len() implies !supplants(
            #[trigger] past[k],
            path,
        ) by {
            assert(part[k - start] == past[k]);
        }
        assert(stays_since(past, start + i, path));
    }
    assert forall|path: Seq<u8>| #[trigger] was_written(part, path) implies was_written(
        past,
        path,
    ) by {
        let contents = choose|contents: Seq<char>| #[trigger]
            machine::was_done(part, RequestView::WriteFile { path, contents });
        let done = machine::exchange(RequestView::WriteFile { path, contents }, ReplyView::Done);
        let i = choose|i: int| 0 <= i < part.len() && part[i] == done;
        assert(past[start + i] == done);
        assert(machine::was_done(past, RequestView::WriteFile { path, contents }));
    }
}

/// What is safe after a part of the exchanges is safe after all of them.
proof fn lemma_safe_in_part(past: Seq<Exchange>, start: int, request: RequestView)
    requires
        0 <= start <= past.len(),
        is_safe(past.skip(start), request),
    ensures
        is_safe(past, request),
{
    lemma_made_in_part(past, start);
}

proof fn lemma_last_change_is_safe(past: Seq<Exchange>, last: Exchange)
    requires
        changes_are_safe(past.push(last)),
    ensures
        is_safe(past, last.request),
{
    reveal(changes_are_safe);
    let more = past.push(last);
    assert(more[past.len() as int] == last);
    assert(more.take(past.len() as int) =~= past);
}

/// The next item is taken up.
proof fn lemma_rest_holds(
    targets: Seq<DiscardTargetView>,
    items: Seq<TrashItemView>,
    past: Seq<Exchange>,
    cuts: Seq<int>,
)
    requires
        changes_are_safe(past),
        are_discarded(past, cuts, targets, items),
        only_first_are_moved(past, targets, items.len()),
        cuts.last() == past.len(),
    ensures
        all_hold(targets, linux::discard_rest(targets, items), past),
{
    assert(past.skip(cuts.last()) =~= Seq::empty());
    assert(past.take(cuts.last()) =~= past);
    lemma_nothing_changed_is_safe(Seq::empty());
    if items.len() < targets.len() {
        lemma_discarding_starts(targets[items.len() as int], Seq::empty());
    }
    lemma_more_may_be_moved(past, targets, items.len(), items.len() + 1);
}

proof fn lemma_all_step(
    targets: Seq<DiscardTargetView>,
    state: DiscardAllView,
    past: Seq<Exchange>,
    reply: ReplyView,
)
    requires
        all_hold(targets, Step::Continue(state), past),
    ensures
        all_hold(
            targets,
            DiscardAll::next(state, reply),
            past.push(machine::exchange(DiscardAll::pending(state), reply)),
        ),
{
    let last = machine::exchange(DiscardAll::pending(state), reply);
    let more = past.push(last);
    let target = targets[state.items.len() as int];
    let cuts = choose|cuts: Seq<int>| #[trigger]
        are_discarded(past, cuts, targets, state.items) && only_first_are_moved(
            past.take(cuts.last()),
            targets,
            state.items.len(),
        ) && discarding_holds(
            target,
            Step::Continue(state.machine),
            past.skip(cuts.last()),
        );
    let part = past.skip(cuts.last());
    assert(more.skip(cuts.last()) =~= part.push(last));
    assert(more.take(cuts.last()) =~= past.take(cuts.last()));
    lemma_discarding_step(target, state.machine, part, reply);
    let next = Discard::next(state.machine, reply);
    lemma_discarding_is_safe(target, next, part.push(last));
    lemma_last_change_is_safe(part, last);
    lemma_safe_in_part(past, cuts.last(), last.request);
    lemma_changes_stay_safe(past, last);
    lemma_last_move_is_of(part, last, target.path);
    lemma_made_in_part(past, cuts.last());
    assert(targets[state.items.len() as int].path == target.path);
    lemma_only_first_are_moved(past, last, targets, state.items.len() + 1);
    lemma_still_discarded_in_parts(past, last, cuts, targets, state.items);
    match next {
        Step::Finish(Ok(item)) => {
            lemma_one_more_is_discarded(more, cuts, targets, state.items, item);
            lemma_rest_holds(
                targets,
                state.items.push(item),
                more,
                cuts.push(more.len() as int),
            );
        },
        Step::Finish(Err(_)) => {
            assert forall|k: int|
                state.items.len() <= k < targets.len() && was_moved(
                    more,
                    (#[trigger] targets[k]).path,
                ) implies is_among(targets, state.items.len(), targets[k].path)
                || is_sizes_temporary(targets[k].path) by {
                lemma_moved_items_are_among_the_first(
                    more,
                    cuts.last(),
                    targets,
                    state.items.len(),
                    targets[k].path,
                );
            }
            assert(are_discarded_until(more, cuts, targets, state.items));
        },
        Step::Continue(_) => {},
    }
}

/// The items that the paths name.
pub open spec fn are_targets_of(
    past: Seq<Exchange>,
    paths: Seq<Seq<u8>>,
    targets: Seq<DiscardTargetView>,
) -> bool {
    &&& targets.len() == paths.len()
    &&& forall|k: int|
        0 <= k < paths.len() ==> #[trigger] is_target_of(past, paths[k], targets[k])
}

/// It is known which item the path names.
pub open spec fn is_resolved(past: Seq<Exchange>, path: Seq<u8>) -> bool {
    exists|target: DiscardTargetView| is_target_of(past, path, target)
}

/// It is known which items the paths name.
pub open spec fn are_resolved(past: Seq<Exchange>, paths: Seq<Seq<u8>>) -> bool {
    forall|k: int| 0 <= k < paths.len() ==> #[trigger] is_resolved(past, paths[k])
}

/// Nothing was changed before it was known which items all the paths name.
pub open spec fn changes_follow_resolution(past: Seq<Exchange>, paths: Seq<Seq<u8>>) -> bool {
    forall|i: int|
        0 <= i < past.len() && (#[trigger] past[i]).request.changes_files() ==> are_resolved(
            past.take(i),
            paths,
        )
}

spec fn targets_hold(
    paths: Seq<Seq<u8>>,
    stage: Stage<ResolveTargets>,
    past: Seq<Exchange>,
) -> bool {
    &&& changes_nothing(past)
    &&& match stage {
        Step::Continue(state) => {
            &&& state.paths == paths
            &&& state.targets.len() < paths.len()
            &&& are_targets_of(past, paths.take(state.targets.len() as int), state.targets)
            &&& resolve_holds(
                paths[state.targets.len() as int],
                Step::Continue(state.machine),
                past,
            )
        },
        Step::Finish(Ok(targets)) => are_targets_of(past, paths, targets),
        Step::Finish(Err(error)) => is_resolution_fault(past, paths, error),
    }
}

/// One of the paths could not be resolved.
pub open spec fn is_resolution_fault(
    past: Seq<Exchange>,
    paths: Seq<Seq<u8>>,
    error: ErrorView,
) -> bool {
    exists|k: int| 0 <= k < paths.len() && #[trigger] is_resolve_fault(past, paths[k], error)
}

proof fn lemma_resolve_rest(
    paths: Seq<Seq<u8>>,
    targets: Seq<DiscardTargetView>,
    past: Seq<Exchange>,
)
    requires
        changes_nothing(past),
        targets.len() <= paths.len(),
        are_targets_of(past, paths.take(targets.len() as int), targets),
    ensures
        targets_hold(paths, discard::resolve_rest(paths, targets), past),
{
    if targets.len() < paths.len() {
        lemma_resolve_start(paths[targets.len() as int], past);
    } else {
        assert(paths.take(targets.len() as int) =~= paths);
    }
}

proof fn lemma_targets_step(
    paths: Seq<Seq<u8>>,
    state: ResolveTargetsView,
    past: Seq<Exchange>,
    reply: ReplyView,
)
    requires
        targets_hold(paths, Step::Continue(state), past),
    ensures
        targets_hold(
            paths,
            ResolveTargets::next(state, reply),
            past.push(machine::exchange(ResolveTargets::pending(state), reply)),
        ),
{
    let last = machine::exchange(ResolveTargets::pending(state), reply);
    let more = past.push(last);
    let known = state.targets.len() as int;
    lemma_more(past, last);
    lemma_resolve_step(paths[known], state.machine, past, reply);
    lemma_nothing_stays_changed(past, last);
    assert forall|k: int| 0 <= k < known implies #[trigger] is_target_of(
        more,
        paths.take(known)[k],
        state.targets[k],
    ) by {
        assert(is_target_of(past, paths.take(known)[k], state.targets[k]));
        lemma_still_target(past, more, paths.take(known)[k], state.targets[k]);
    }
    match ResolveTarget::next(state.machine, reply) {
        Step::Finish(Ok(target)) => {
            let targets = state.targets.push(target);
            assert forall|k: int| 0 <= k < known + 1 implies #[trigger] is_target_of(
                more,
                paths.take(known + 1)[k],
                targets[k],
            ) by {
                if k < known {
                    assert(is_target_of(more, paths.take(known)[k], state.targets[k]));
                }
            }
            lemma_resolve_rest(paths, targets, more);
        },
        _ => {},
    }
}

/// The items that the paths name were moved to the trash, in the order of the paths, and nothing
/// was changed before it was known which items they are.
pub open spec fn are_discarded_in_order(
    past: Seq<Exchange>,
    paths: Seq<Seq<u8>>,
    items: Seq<TrashItemView>,
) -> bool {
    exists|start: int, cuts: Seq<int>, targets: Seq<DiscardTargetView>|
        0 <= start <= past.len() && are_targets_of(past.take(start), paths, targets)
            && changes_nothing(past.take(start)) && #[trigger] are_discarded(
            past.skip(start),
            cuts,
            targets,
            items,
        )
}

/// The error is that one of the paths could not be resolved, or that one of the items could not be
/// discarded, when those before it had been.
pub open spec fn is_paths_fault(
    past: Seq<Exchange>,
    paths: Seq<Seq<u8>>,
    error: ErrorView,
) -> bool {
    ||| is_resolution_fault(past, paths, error)
    ||| exists|start: int, targets: Seq<DiscardTargetView>|
        0 <= start <= past.len() && #[trigger] are_targets_of(past.take(start), paths, targets)
            && is_stopped(past.skip(start), targets, error)
}

/// Nothing was changed before it was known which items the paths name, and of these the first ones
/// were moved to the trash, in the order of the paths, up to one that could not be discarded.
pub open spec fn are_discarded_until_failure(past: Seq<Exchange>, paths: Seq<Seq<u8>>) -> bool {
    exists|
        start: int,
        cuts: Seq<int>,
        targets: Seq<DiscardTargetView>,
        items: Seq<TrashItemView>,
    |
        0 <= start <= past.len() && are_targets_of(past.take(start), paths, targets)
            && changes_nothing(past.take(start)) && #[trigger] are_discarded_until(
            past.skip(start),
            cuts,
            targets,
            items,
        )
}

spec fn items_hold(
    paths: Seq<Seq<u8>>,
    state: DiscardAllView,
    past: Seq<Exchange>,
    start: int,
) -> bool {
    &&& 0 <= start <= past.len()
    &&& are_targets_of(past.take(start), paths, state.targets)
    &&& changes_nothing(past.take(start))
    &&& all_hold(state.targets, Step::Continue(state), past.skip(start))
}

spec fn paths_hold(
    paths: Seq<Seq<u8>>,
    stage: Stage<DiscardPaths>,
    past: Seq<Exchange>,
) -> bool {
    &&& changes_are_safe(past)
    &&& changes_follow_resolution(past, paths)
    &&& match stage {
        Step::Continue(DiscardPathsView::Resolve(state)) => targets_hold(
            paths,
            Step::Continue(state),
            past,
        ),
        Step::Continue(DiscardPathsView::Discard(state)) => exists|start: int|
            items_hold(paths, state, past, start),
        Step::Finish(Ok(items)) => {
            &&& items.len() == paths.len()
            &&& are_discarded_in_order(past, paths, items)
        },
        Step::Finish(Err(error)) => {
            &&& changes_nothing(past) || are_discarded_until_failure(past, paths)
            &&& is_paths_fault(past, paths, error)
        },
    }
}

proof fn lemma_changes_still_follow(past: Seq<Exchange>, last: Exchange, paths: Seq<Seq<u8>>)
    requires
        changes_follow_resolution(past, paths),
        last.request.changes_files() ==> are_resolved(past, paths),
    ensures
        changes_follow_resolution(past.push(last), paths),
{
    let more = past.push(last);
    assert forall|i: int|
        0 <= i < more.len() && (#[trigger] more[i]).request.changes_files() implies are_resolved(
        more.take(i),
        paths,
    ) by {
        assert(more.take(i) =~= past.take(i));
        if i < past.len() {
            assert(more[i] == past[i]);
        } else {
            assert(past.take(i) =~= past);
        }
    }
}

/// The items are known, and the first one is taken up.
proof fn lemma_resolved(
    paths: Seq<Seq<u8>>,
    targets: Seq<DiscardTargetView>,
    past: Seq<Exchange>,
)
    requires
        changes_are_safe(past),
        changes_follow_resolution(past, paths),
        changes_nothing(past),
        are_targets_of(past, paths, targets),
    ensures
        paths_hold(paths, discard::discarding(linux::discard_all(targets)), past),
{
    let start = past.len() as int;
    let rest = past.skip(start);
    assert(past.take(start) =~= past);
    assert(rest =~= Seq::empty());
    lemma_nothing_changed_is_safe(rest);
    let cuts = seq![0int];
    assert(are_discarded(rest, cuts, targets, Seq::empty()));
    assert(only_first_are_moved(rest, targets, 0)) by {
        reveal(only_first_are_moved);
    }
    lemma_rest_holds(targets, Seq::empty(), rest, cuts);
    match linux::discard_all(targets) {
        Step::Continue(state) => {
            assert(items_hold(paths, state, past, start));
        },
        Step::Finish(_) => {},
    }
}

proof fn lemma_paths_step(
    paths: Seq<Seq<u8>>,
    state: DiscardPathsView,
    past: Seq<Exchange>,
    reply: ReplyView,
)
    requires
        paths_hold(paths, Step::Continue(state), past),
    ensures
        paths_hold(
            paths,
            DiscardPaths::next(state, reply),
            past.push(machine::exchange(DiscardPaths::pending(state), reply)),
        ),
{
    let last = machine::exchange(DiscardPaths::pending(state), reply);
    let more = past.push(last);
    match state {
        DiscardPathsView::Resolve(state) => {
            lemma_targets_step(paths, state, past, reply);
            lemma_nothing_changed_is_safe(more);
            assert(changes_follow_resolution(more, paths));
            match ResolveTargets::next(state, reply) {
                Step::Finish(Ok(targets)) => lemma_resolved(paths, targets, more),
                _ => {},
            }
        },
        DiscardPathsView::Discard(state) => {
            let start = choose|start: int| items_hold(paths, state, past, start);
            let rest = past.skip(start);
            lemma_all_step(state.targets, state, rest, reply);
            assert(more.skip(start) =~= rest.push(last));
            assert(more.take(start) =~= past.take(start));
            lemma_last_change_is_safe(rest, last);
            lemma_safe_in_part(past, start, last.request);
            lemma_changes_stay_safe(past, last);
            lemma_all_are_resolved(past, start, paths, state.targets);
            lemma_changes_still_follow(past, last, paths);
            match DiscardAll::next(state, reply) {
                Step::Continue(next) => {
                    assert(items_hold(paths, next, more, start));
                },
                _ => {},
            }
        },
    }
}

proof fn lemma_all_are_resolved(
    past: Seq<Exchange>,
    start: int,
    paths: Seq<Seq<u8>>,
    targets: Seq<DiscardTargetView>,
)
    requires
        0 <= start <= past.len(),
        are_targets_of(past.take(start), paths, targets),
    ensures
        are_resolved(past, paths),
{
    let first = past.take(start);
    assert forall|known: Exchange| #[trigger] first.contains(known) implies past.contains(
        known,
    ) by {
        let i = choose|i: int| 0 <= i < first.len() && first[i] == known;
        assert(past[i] == known);
    }
    assert forall|k: int| 0 <= k < paths.len() implies #[trigger] is_resolved(past, paths[k]) by {
        assert(is_target_of(first, paths[k], targets[k]));
        lemma_still_target(first, past, paths[k], targets[k]);
    }
}

proof fn lemma_paths(paths: Seq<Seq<u8>>, replies: Seq<ReplyView>)
    ensures
        paths_hold(
            paths,
            machine::after::<DiscardPaths>(discard::discard_paths(paths), replies),
            machine::history::<DiscardPaths>(discard::discard_paths(paths), replies),
        ),
{
    let start = discard::discard_paths(paths);
    let holds = |stage: Stage<DiscardPaths>, past: Seq<Exchange>| paths_hold(paths, stage, past);
    lemma_resolve_rest(paths, Seq::empty(), Seq::empty());
    lemma_nothing_changed_is_safe(Seq::empty());
    match discard::resolve_all(paths) {
        Step::Finish(Ok(targets)) => lemma_resolved(paths, targets, Seq::empty()),
        _ => {},
    }
    assert(holds(start, Seq::empty()));
    assert forall|state: DiscardPathsView, past: Seq<Exchange>, reply: ReplyView|
        #![trigger holds(Step::Continue(state), past), DiscardPaths::next(state, reply)]
        holds(Step::Continue(state), past) implies holds(
        DiscardPaths::next(state, reply),
        past.push(machine::exchange(DiscardPaths::pending(state), reply)),
    ) by {
        lemma_paths_step(paths, state, past, reply);
    }
    machine::lemma_invariant::<DiscardPaths>(start, replies, holds);
}

/// Until the paths are resolved, discarding them is resolving them.
proof fn lemma_paths_are_resolved_first(paths: Seq<Seq<u8>>, replies: Seq<ReplyView>)
    ensures
        ({
            let start = discard::resolve_all(paths);
            let whole = discard::discard_paths(paths);
            let same = machine::history::<DiscardPaths>(whole, replies) == machine::history::<
                ResolveTargets,
            >(start, replies);
            match machine::after::<ResolveTargets>(start, replies) {
                Step::Continue(state) => {
                    &&& machine::after::<DiscardPaths>(whole, replies) == Step::<
                        DiscardPathsView,
                        Result<Seq<TrashItemView>, ErrorView>,
                    >::Continue(DiscardPathsView::Resolve(state))
                    &&& same
                },
                Step::Finish(Err(error)) => {
                    &&& machine::after::<DiscardPaths>(whole, replies) == Step::<
                        DiscardPathsView,
                        Result<Seq<TrashItemView>, ErrorView>,
                    >::Finish(Err(error))
                    &&& same
                },
                Step::Finish(Ok(_)) => true,
            }
        }),
    decreases replies.len(),
{
    if replies.len() > 0 {
        lemma_paths_are_resolved_first(paths, replies.drop_last());
    }
}

proof fn lemma_targets(paths: Seq<Seq<u8>>, replies: Seq<ReplyView>)
    ensures
        targets_hold(
            paths,
            machine::after::<ResolveTargets>(discard::resolve_all(paths), replies),
            machine::history::<ResolveTargets>(discard::resolve_all(paths), replies),
        ),
{
    let start = discard::resolve_all(paths);
    let holds = |stage: Stage<ResolveTargets>, past: Seq<Exchange>|
        targets_hold(paths, stage, past);
    lemma_resolve_rest(paths, Seq::empty(), Seq::empty());
    assert(holds(start, Seq::empty()));
    assert forall|state: ResolveTargetsView, past: Seq<Exchange>, reply: ReplyView|
        #![trigger holds(Step::Continue(state), past), ResolveTargets::next(state, reply)]
        holds(Step::Continue(state), past) implies holds(
        ResolveTargets::next(state, reply),
        past.push(machine::exchange(ResolveTargets::pending(state), reply)),
    ) by {
        lemma_targets_step(paths, state, past, reply);
    }
    machine::lemma_invariant::<ResolveTargets>(start, replies, holds);
}

/// When one of the paths that are to be discarded cannot be resolved, that error is given back,
/// and nothing was changed: none of the items was moved, whichever path it is.
pub proof fn nothing_changes_when_paths_cannot_be_resolved(
    paths: Seq<Seq<u8>>,
    replies: Seq<ReplyView>,
    error: ErrorView,
)
    requires
        machine::after::<ResolveTargets>(discard::resolve_all(paths), replies) == Step::<
            ResolveTargetsView,
            Result<Seq<DiscardTargetView>, ErrorView>,
        >::Finish(Err(error)),
    ensures
        machine::after::<DiscardPaths>(discard::discard_paths(paths), replies) == Step::<
            DiscardPathsView,
            Result<Seq<TrashItemView>, ErrorView>,
        >::Finish(Err(error)),
        changes_nothing(machine::history::<DiscardPaths>(discard::discard_paths(paths), replies)),
{
    lemma_paths_are_resolved_first(paths, replies);
    lemma_targets(paths, replies);
}

/// All paths are resolved before any item is moved to the trash: nothing at all is changed before
/// it is known which items all the paths name.
pub proof fn paths_are_resolved_before_any_change(paths: Seq<Seq<u8>>, replies: Seq<ReplyView>)
    ensures
        changes_follow_resolution(
            machine::history::<DiscardPaths>(discard::discard_paths(paths), replies),
            paths,
        ),
{
    lemma_paths(paths, replies);
}

/// Discarding paths gives one item per path, in the order of the paths, and the items were moved
/// to the trash in that order.
pub proof fn items_come_in_the_order_of_the_paths(
    paths: Seq<Seq<u8>>,
    replies: Seq<ReplyView>,
    items: Seq<TrashItemView>,
)
    requires
        machine::after::<DiscardPaths>(discard::discard_paths(paths), replies) == Step::<
            DiscardPathsView,
            Result<Seq<TrashItemView>, ErrorView>,
        >::Finish(Ok(items)),
    ensures
        items.len() == paths.len(),
        are_discarded_in_order(
            machine::history::<DiscardPaths>(discard::discard_paths(paths), replies),
            paths,
            items,
        ),
{
    lemma_paths(paths, replies);
}

/// Discarding paths fails only for a reason: one of them cannot be resolved, or one of the items
/// cannot be discarded.
pub proof fn failed_discarding_of_paths_has_a_reason(
    paths: Seq<Seq<u8>>,
    replies: Seq<ReplyView>,
    error: ErrorView,
)
    requires
        machine::after::<DiscardPaths>(discard::discard_paths(paths), replies) == Step::<
            DiscardPathsView,
            Result<Seq<TrashItemView>, ErrorView>,
        >::Finish(Err(error)),
    ensures
        is_paths_fault(
            machine::history::<DiscardPaths>(discard::discard_paths(paths), replies),
            paths,
            error,
        ),
{
    lemma_paths(paths, replies);
}

/// When discarding paths fails, nothing was changed, or all paths had been resolved and the items
/// before the one that could not be discarded have been moved to the trash, each after the file
/// about it had been written there. The one that could not be discarded was not moved, and no file
/// is left that was created for it, unless removing it failed. None of the later items was moved.
pub proof fn failed_discarding_stops_at_the_failure(
    paths: Seq<Seq<u8>>,
    replies: Seq<ReplyView>,
    error: ErrorView,
)
    requires
        machine::after::<DiscardPaths>(discard::discard_paths(paths), replies) == Step::<
            DiscardPathsView,
            Result<Seq<TrashItemView>, ErrorView>,
        >::Finish(Err(error)),
    ensures
        ({
            let past = machine::history::<DiscardPaths>(discard::discard_paths(paths), replies);
            changes_nothing(past) || are_discarded_until_failure(past, paths)
        }),
{
    lemma_paths(paths, replies);
}

/// Discarding paths replaces nothing. Something is moved only to a place at which an empty entry
/// was created on the way and is still there, and what else is moved is a temporary file that was
/// created and written on the way, which becomes the sizes file of a trash. Only files that were
/// created on the way are written or removed, and only directories that were created on the way
/// are restricted or removed.
pub proof fn discarding_paths_replaces_nothing(paths: Seq<Seq<u8>>, replies: Seq<ReplyView>)
    ensures
        changes_are_safe(
            machine::history::<DiscardPaths>(discard::discard_paths(paths), replies),
        ),
{
    lemma_paths(paths, replies);
}

} // verus!
