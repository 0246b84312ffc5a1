//! What discarding leaves of the things that were there before it, among them the items that were
//! discarded earlier.

use vstd::prelude::*;

use crate::discard::{self, DiscardPath, DiscardPathView, DiscardTargetView};
use crate::error::ErrorView;
use crate::guarantee;
use crate::machine::{self, Exchange, ReplyView, RequestView, Step};
use crate::platform::linux::directory_size;
use crate::platform::linux::location::{self, TrashLocationView};
use crate::platform::linux::trash_info::{self, ReservedTrashEntryView};
use crate::platform::linux::MoveView;
use crate::TrashItemView;

verus! {

/// The exchange created an entry at the path.
pub open spec fn creates(exchange: Exchange, path: Seq<u8>) -> bool {
    ||| exchange == machine::exchange(RequestView::CreateFile { path }, ReplyView::Done)
    ||| exchange == machine::exchange(RequestView::CreateDir { path }, ReplyView::Done)
}

/// The exchange put something at the path.
pub open spec fn puts(exchange: Exchange, path: Seq<u8>) -> bool {
    creates(exchange, path) || (exchange matches Exchange {
        request: RequestView::Rename { to, .. },
        reply: ReplyView::Done,
    } && to == path)
}

/// The exchange took away what was at the path.
pub open spec fn takes(exchange: Exchange, path: Seq<u8>) -> bool {
    exchange.reply is Done && match exchange.request {
        RequestView::Rename { from, to } => from == path && to != path,
        RequestView::RemoveFile { path: removed } => removed == path,
        RequestView::RemoveDir { path: removed } => removed == path,
        _ => false,
    }
}

/// Nothing took away what is at the path since `i`.
pub open spec fn is_there_since(past: Seq<Exchange>, i: int, path: Seq<u8>) -> bool {
    forall|k: int| i < k < past.len() ==> !takes(#[trigger] past[k], path)
}

/// Something was put at the path, and it was not taken away since.
#[verifier::opaque]
pub open spec fn is_present(past: Seq<Exchange>, path: Seq<u8>) -> bool {
    exists|i: int|
        0 <= i < past.len() && puts(#[trigger] past[i], path) && is_there_since(past, i, path)
}

/// Files and directories were created only where nothing was known to be, as creating them asks
/// for an entry that is new.
#[verifier::opaque]
pub open spec fn creations_are_exclusive(past: Seq<Exchange>) -> bool {
    forall|i: int, path: Seq<u8>|
        0 <= i < past.len() && #[trigger] creates(past[i], path) ==> !is_present(
            past.take(i),
            path,
        )
}

/// The request concerns what is at the path.
pub open spec fn concerns(request: RequestView, path: Seq<u8>) -> bool {
    match request {
        RequestView::CreateFile { path: concerned } => concerned == path,
        RequestView::CreateDir { path: concerned } => concerned == path,
        RequestView::SetMode { path: concerned, .. } => concerned == path,
        RequestView::WriteFile { path: concerned, .. } => concerned == path,
        RequestView::RemoveFile { path: concerned } => concerned == path,
        RequestView::RemoveDir { path: concerned } => concerned == path,
        RequestView::Rename { from, to } => from == path || to == path,
        _ => false,
    }
}

/// An exchange changed nothing at the path, unless a new sizes file took the place of the one
/// there.
pub open spec fn is_spared_at(past: Seq<Exchange>, path: Seq<u8>, k: int) -> bool {
    past[k].reply is Done && concerns(past[k].request, path) ==> (
    past[k].request matches RequestView::Rename { from, to } && to == path
        && guarantee::is_new_sizes_file(past.take(k), from, to))
}

/// Nothing was changed at the path, unless it is that of a sizes file, which a new one replaced.
pub open spec fn is_spared(past: Seq<Exchange>, path: Seq<u8>) -> bool {
    forall|k: int| 0 <= k < past.len() ==> #[trigger] is_spared_at(past, path, k)
}

proof fn lemma_still_present(past: Seq<Exchange>, last: Exchange, path: Seq<u8>)
    requires
        is_present(past, path),
        !takes(last, path),
    ensures
        is_present(past.push(last), path),
{
    reveal(is_present);
    let more = past.push(last);
    let i = choose|i: int|
        0 <= i < past.len() && puts(#[trigger] past[i], path) && is_there_since(past, i, path);
    assert(more[i] == past[i]);
    assert forall|k: int| i < k < more.len() implies !takes(#[trigger] more[k], path) by {
        if k < past.len() {
            assert(more[k] == past[k]);
        }
    }
    assert(is_there_since(more, i, path));
}

/// What was created within one more exchange was created by it or before.
proof fn lemma_own_before(past: Seq<Exchange>, last: Exchange, path: Seq<u8>)
    requires
        guarantee::is_own(past.push(last), path),
        !creates(last, path),
    ensures
        guarantee::is_own(past, path),
        !guarantee::supplants(last, path),
{
    let more = past.push(last);
    let creation = if guarantee::is_own_file(more, path) {
        RequestView::CreateFile { path }
    } else {
        RequestView::CreateDir { path }
    };
    assert(guarantee::is_made_by(more, creation, path));
    let i = choose|i: int|
        0 <= i < more.len() && #[trigger] more[i] == machine::exchange(creation, ReplyView::Done)
            && guarantee::stays_since(more, i, path);
    assert(more[past.len() as int] == last);
    assert(past[i] == more[i]);
    assert forall|k: int| i < k < past.len() implies !guarantee::supplants(
        #[trigger] past[k],
        path,
    ) by {
        assert(more[k] == past[k]);
    }
    assert(guarantee::stays_since(past, i, path));
    assert(guarantee::is_made_by(past, creation, path));
}

/// What was moved within fewer exchanges was moved within more.
proof fn lemma_moved_before(past: Seq<Exchange>, fewer: int, more: int, item: Seq<u8>)
    requires
        0 <= fewer <= more <= past.len(),
        guarantee::was_moved(past.take(fewer), item),
    ensures
        guarantee::was_moved(past.take(more), item),
{
    let to = choose|to: Seq<u8>| #[trigger]
        machine::was_done(past.take(fewer), RequestView::Rename { from: item, to });
    let moved = machine::exchange(RequestView::Rename { from: item, to }, ReplyView::Done);
    let i = choose|i: int| 0 <= i < fewer && past.take(fewer)[i] == moved;
    assert(past.take(more)[i] == moved);
    assert(machine::was_done(past.take(more), RequestView::Rename { from: item, to }));
}

/// One more exchange takes away nothing that is not its own, unless it moves the item.
proof fn lemma_exchange_spares(past: Seq<Exchange>, item: Seq<u8>, path: Seq<u8>, n: int)
    requires
        guarantee::changes_are_safe(past),
        guarantee::only_moves(past, item),
        0 <= n < past.len(),
        !guarantee::is_own(past.take(n), path),
        !creates(past[n], path),
        path != item || guarantee::was_moved(past.take(n), item) || !guarantee::was_moved(
            past.take(n + 1),
            item,
        ),
    ensures
        !takes(past[n], path),
        is_spared_at(past, path, n),
{
    reveal(guarantee::changes_are_safe);
    reveal(guarantee::only_moves);
    let last = past[n];
    assert(guarantee::is_safe(past.take(n), last.request));
    if let RequestView::Rename { from, to } = last.request {
        assert(guarantee::is_move_of(past.take(n), item, from, to));
        if last.reply is Done && from == item {
            assert(past.take(n + 1)[n] == last);
            assert(machine::was_done(past.take(n + 1), RequestView::Rename { from: item, to }));
            assert(guarantee::was_moved(past.take(n + 1), item));
        }
    }
}

/// What is there while a path is discarded, and was not created for that, stays there.
proof fn lemma_stays_present(
    before: Seq<Exchange>,
    past: Seq<Exchange>,
    item: Seq<u8>,
    path: Seq<u8>,
    first: int,
    n: int,
)
    requires
        creations_are_exclusive(before + past),
        guarantee::changes_are_safe(past),
        guarantee::only_moves(past, item),
        0 <= first <= n <= past.len(),
        is_present(before + past.take(first), path),
        !guarantee::is_own(past.take(first), path),
        path != item || guarantee::was_moved(past.take(first), item) || !guarantee::was_moved(
            past.take(n),
            item,
        ),
    ensures
        is_present(before + past.take(n), path),
        !guarantee::is_own(past.take(n), path),
        n < past.len() ==> !creates(past[n], path),
    decreases n - first,
{
    reveal(creations_are_exclusive);
    let whole = before + past;
    if n > first {
        if guarantee::was_moved(past.take(n - 1), item) {
            lemma_moved_before(past, n - 1, n, item);
        }
        lemma_stays_present(before, past, item, path, first, n - 1);
        if guarantee::was_moved(past.take(first), item) {
            lemma_moved_before(past, first, n - 1, item);
        }
        let last = past[n - 1];
        lemma_exchange_spares(past, item, path, n - 1);
        lemma_still_present(before + past.take(n - 1), last, path);
        assert((before + past.take(n - 1)).push(last) =~= before + past.take(n));
        assert(past.take(n) =~= past.take(n - 1).push(last));
        if guarantee::is_own(past.take(n), path) {
            lemma_own_before(past.take(n - 1), last, path);
        }
    }
    if n < past.len() && creates(past[n], path) {
        assert(whole[before.len() + n] == past[n]);
        assert(whole.take(before.len() + n) =~= before + past.take(n));
    }
}

/// The file about a discarded item was created at this point, before anything was moved.
proof fn lemma_description(
    past: Seq<Exchange>,
    target: DiscardTargetView,
    item: TrashItemView,
) -> (result: (MoveView, ReservedTrashEntryView, int, int))
    requires
        guarantee::is_discarded(past, target, item),
    ensures
        ({
            let (discard, entry, created, moved) = result;
            &&& guarantee::is_discarded_as(past, target, item, discard, entry)
            &&& 0 <= created < moved
            &&& past[created] == machine::exchange(
                RequestView::CreateFile { path: item.id },
                ReplyView::Done,
            )
            &&& guarantee::is_kept_since(past, created, item.id)
            &&& guarantee::is_moved_at(
                past,
                discard.directory.path,
                target.path,
                entry.file,
                moved,
            )
        }),
{
    reveal(guarantee::is_described_then_moved);
    let location = choose|location: TrashLocationView| #[trigger]
        guarantee::is_known_trash(past, target.path, location) && guarantee::is_discarded_to(
            past,
            target,
            location,
            item,
        );
    let (discard, entry) = choose|discard: MoveView, entry: ReservedTrashEntryView|
        discard.location == location && #[trigger] guarantee::is_discarded_as(
            past,
            target,
            item,
            discard,
            entry,
        );
    let original = location::original_location(discard.location, target.path)->Ok_0;
    let contents = trash_info::info_text(original, discard.discarded_at.civil());
    let (created, written, moved) = choose|created: int, written: int, moved: int|
        #![trigger
            guarantee::is_written_at(past, entry.info, contents, created, written),
            guarantee::is_moved_at(past, discard.directory.path, target.path, entry.file, moved)]
        written < moved && guarantee::is_written_at(
            past,
            entry.info,
            contents,
            created,
            written,
        ) && guarantee::is_moved_at(
            past,
            discard.directory.path,
            target.path,
            entry.file,
            moved,
        );
    (discard, entry, created, moved)
}

/// The identifier of an item that is discarded is the path of nothing that was there before. So it
/// differs from those of all items that are in the trash already, whichever names they have.
pub proof fn identifiers_are_new(
    before: Seq<Exchange>,
    path: Seq<u8>,
    replies: Seq<ReplyView>,
    item: TrashItemView,
    present: Seq<u8>,
)
    requires
        machine::after::<DiscardPath>(discard::discard_path(path), replies) == Step::<
            DiscardPathView,
            Result<TrashItemView, ErrorView>,
        >::Finish(Ok(item)),
        creations_are_exclusive(
            before + machine::history::<DiscardPath>(discard::discard_path(path), replies),
        ),
        is_present(before, present),
    ensures
        item.id != present,
{
    let past = machine::history::<DiscardPath>(discard::discard_path(path), replies);
    guarantee::discarding_replaces_nothing(path, replies);
    guarantee::discarded_items_are_described_and_moved(path, replies, item);
    let target = choose|target: DiscardTargetView| #[trigger]
        guarantee::is_target_of(past, path, target) && guarantee::is_discarded(past, target, item)
            && guarantee::only_moves(past, target.path);
    let (discard, entry, created, moved) = lemma_description(past, target, item);
    if item.id == present {
        if guarantee::was_moved(past.take(created), target.path) {
            lemma_moved_before(past, created, moved, target.path);
        }
        assert(before + past.take(0) =~= before);
        lemma_nothing_is_own(past.take(0), present);
        lemma_stays_present(before, past, target.path, present, 0, created);
        assert(creates(past[created], present));
    }
}

proof fn lemma_nothing_is_own(past: Seq<Exchange>, path: Seq<u8>)
    requires
        past.len() == 0,
    ensures
        !guarantee::is_own(past, path),
{
}

/// What is there before, at another path than that of the item, is spared and stays there.
proof fn lemma_entry_is_spared(
    before: Seq<Exchange>,
    past: Seq<Exchange>,
    item: Seq<u8>,
    present: Seq<u8>,
)
    requires
        creations_are_exclusive(before + past),
        guarantee::changes_are_safe(past),
        guarantee::only_moves(past, item),
        is_present(before, present),
        item != present,
    ensures
        is_spared(past, present),
        is_present(before + past, present),
{
    assert(before + past.take(0) =~= before);
    lemma_nothing_is_own(past.take(0), present);
    assert forall|k: int| 0 <= k < past.len() implies #[trigger] is_spared_at(
        past,
        present,
        k,
    ) by {
        lemma_stays_present(before, past, item, present, 0, k);
        lemma_exchange_spares(past, item, present, k);
    }
    lemma_stays_present(before, past, item, present, 0, past.len() as int);
    assert(past.take(past.len() as int) =~= past);
}

/// Discarding a path changes nothing that was there before: what is at another path than that of
/// the item stays there, and it is neither written, restricted, removed nor moved, unless it is
/// the sizes file of a trash, which a new one replaces.
pub proof fn other_entries_are_spared(
    before: Seq<Exchange>,
    path: Seq<u8>,
    replies: Seq<ReplyView>,
    item: TrashItemView,
    present: Seq<u8>,
)
    requires
        machine::after::<DiscardPath>(discard::discard_path(path), replies) == Step::<
            DiscardPathView,
            Result<TrashItemView, ErrorView>,
        >::Finish(Ok(item)),
        creations_are_exclusive(
            before + machine::history::<DiscardPath>(discard::discard_path(path), replies),
        ),
        is_present(before, present),
    ensures
        ({
            let past = machine::history::<DiscardPath>(discard::discard_path(path), replies);
            exists|target: DiscardTargetView| #[trigger]
                guarantee::is_target_of(past, path, target) && (target.path != present ==> {
                    &&& is_spared(past, present)
                    &&& is_present(before + past, present)
                })
        }),
{
    let past = machine::history::<DiscardPath>(discard::discard_path(path), replies);
    guarantee::discarding_replaces_nothing(path, replies);
    guarantee::discarded_items_are_described_and_moved(path, replies, item);
    let target = choose|target: DiscardTargetView| #[trigger]
        guarantee::is_target_of(past, path, target) && guarantee::is_discarded(past, target, item)
            && guarantee::only_moves(past, target.path);
    if target.path != present {
        lemma_entry_is_spared(before, past, target.path, present);
    }
}

/// The item that the path names was moved to this place in the trash.
#[verifier::opaque]
pub open spec fn is_discarded_at(
    past: Seq<Exchange>,
    path: Seq<u8>,
    item: TrashItemView,
    place: Seq<u8>,
) -> bool {
    exists|target: DiscardTargetView, discard: MoveView, entry: ReservedTrashEntryView|
        #![trigger guarantee::is_discarded_as(past, target, item, discard, entry)]
        entry.file == place && guarantee::is_target_of(past, path, target)
            && guarantee::is_discarded_as(past, target, item, discard, entry)
}

proof fn lemma_description_is_present(
    before: Seq<Exchange>,
    past: Seq<Exchange>,
    info: Seq<u8>,
    created: int,
)
    requires
        0 <= created < past.len(),
        past[created] == machine::exchange(
            RequestView::CreateFile { path: info },
            ReplyView::Done,
        ),
        guarantee::is_kept_since(past, created, info),
    ensures
        is_present(before + past, info),
{
    reveal(is_present);
    let whole = before + past;
    let i = before.len() + created;
    assert(whole[i] == past[created]);
    assert forall|k: int| i < k < whole.len() implies !takes(#[trigger] whole[k], info) by {
        assert(whole[k] == past[k - before.len()]);
        assert(!guarantee::disturbs(past[k - before.len()].request, info));
    }
    assert(is_there_since(whole, i, info));
}

proof fn lemma_payload_is_present(
    before: Seq<Exchange>,
    past: Seq<Exchange>,
    item: Seq<u8>,
    place: Seq<u8>,
    moved: int,
)
    requires
        creations_are_exclusive(before + past),
        guarantee::changes_are_safe(past),
        guarantee::only_moves(past, item),
        0 <= moved < past.len(),
        past[moved] == machine::exchange(
            RequestView::Rename { from: item, to: place },
            ReplyView::Done,
        ),
    ensures
        is_present(before + past, place),
{
    reveal(is_present);
    let first = moved + 1;
    let start = before + past.take(first);
    let last = past[moved];
    assert(start[before.len() + moved] == last);
    assert(is_there_since(start, before.len() + moved, place));
    assert(is_present(start, place));
    assert(past.take(first) =~= past.take(moved).push(last));
    if guarantee::is_own(past.take(first), place) {
        lemma_own_before(past.take(moved), last, place);
    }
    assert(past.take(first)[moved] == last);
    assert(machine::was_done(past.take(first), RequestView::Rename { from: item, to: place }));
    assert(guarantee::was_moved(past.take(first), item));
    lemma_stays_present(before, past, item, place, first, past.len() as int);
    assert(past.take(past.len() as int) =~= past);
}

/// When an item has been discarded, it is at its place in the trash, and the file about it is
/// there too.
pub proof fn discarded_items_are_in_the_trash(
    before: Seq<Exchange>,
    path: Seq<u8>,
    replies: Seq<ReplyView>,
    item: TrashItemView,
)
    requires
        machine::after::<DiscardPath>(discard::discard_path(path), replies) == Step::<
            DiscardPathView,
            Result<TrashItemView, ErrorView>,
        >::Finish(Ok(item)),
        creations_are_exclusive(
            before + machine::history::<DiscardPath>(discard::discard_path(path), replies),
        ),
    ensures
        ({
            let past = machine::history::<DiscardPath>(discard::discard_path(path), replies);
            &&& is_present(before + past, item.id)
            &&& exists|place: Seq<u8>| #[trigger]
                is_discarded_at(past, path, item, place) && is_present(before + past, place)
        }),
{
    let past = machine::history::<DiscardPath>(discard::discard_path(path), replies);
    guarantee::discarding_replaces_nothing(path, replies);
    guarantee::discarded_items_are_described_and_moved(path, replies, item);
    let target = choose|target: DiscardTargetView| #[trigger]
        guarantee::is_target_of(past, path, target) && guarantee::is_discarded(past, target, item)
            && guarantee::only_moves(past, target.path);
    let (discard, entry, created, moved) = lemma_description(past, target, item);
    lemma_description_is_present(before, past, item.id, created);
    lemma_payload_is_present(before, past, target.path, entry.file, moved);
    assert(is_discarded_at(past, path, item, entry.file)) by {
        reveal(is_discarded_at);
    }
}

/// What was at the path was taken away, and nothing was put there since.
pub open spec fn is_gone(past: Seq<Exchange>, path: Seq<u8>) -> bool {
    exists|i: int|
        0 <= i < past.len() && takes(#[trigger] past[i], path) && is_vacant_since(past, i, path)
}

/// Nothing was put at the path since `i`.
pub open spec fn is_vacant_since(past: Seq<Exchange>, i: int, path: Seq<u8>) -> bool {
    forall|k: int| i < k < past.len() ==> !puts(#[trigger] past[k], path)
}

/// The item is a directory, and its path is that of the sizes file of the trash that it goes to, or
/// of a temporary file for it. So a file may be there when the size has been noted.
pub open spec fn is_for_sizes(
    past: Seq<Exchange>,
    discard: MoveView,
    entry: ReservedTrashEntryView,
) -> bool {
    &&& machine::was_done(past, RequestView::CreateDir { path: entry.file })
    &&& guarantee::is_temporary_of(discard.directory.path, discard.target.path)
        || discard.target.path == directory_size::cache_path(discard.directory.path)
}

/// When an item has been discarded, nothing is where it was, and the name and the directory that
/// are given back are those of the item. This is said of items that were not at their place in the
/// trash already, and of directories that were not where the trash has its sizes file.
pub proof fn discarded_items_are_gone(
    path: Seq<u8>,
    replies: Seq<ReplyView>,
    item: TrashItemView,
)
    requires
        machine::after::<DiscardPath>(discard::discard_path(path), replies) == Step::<
            DiscardPathView,
            Result<TrashItemView, ErrorView>,
        >::Finish(Ok(item)),
    ensures
        ({
            let past = machine::history::<DiscardPath>(discard::discard_path(path), replies);
            exists|
                target: DiscardTargetView,
                discard: MoveView,
                entry: ReservedTrashEntryView,
            |
                #![trigger guarantee::is_discarded_as(past, target, item, discard, entry)]
                guarantee::is_target_of(past, path, target) && guarantee::is_discarded_as(
                    past,
                    target,
                    item,
                    discard,
                    entry,
                ) && item.original_name == target.original_name && item.original_parent
                    == target.original_parent && (target.path != entry.file && !is_for_sizes(
                    past,
                    discard,
                    entry,
                ) ==> is_gone(past, target.path))
        }),
{
    let past = machine::history::<DiscardPath>(discard::discard_path(path), replies);
    guarantee::discarded_items_are_described_and_moved(path, replies, item);
    let target = choose|target: DiscardTargetView| #[trigger]
        guarantee::is_target_of(past, path, target) && guarantee::is_discarded(past, target, item)
            && guarantee::only_moves(past, target.path);
    lemma_gone(past, target, item);
}

proof fn lemma_gone(past: Seq<Exchange>, target: DiscardTargetView, item: TrashItemView)
    requires
        guarantee::is_discarded(past, target, item),
    ensures
        exists|discard: MoveView, entry: ReservedTrashEntryView|
            #![trigger guarantee::is_discarded_as(past, target, item, discard, entry)]
            guarantee::is_discarded_as(past, target, item, discard, entry) && item.original_name
                == target.original_name && item.original_parent == target.original_parent && (
            target.path != entry.file && !is_for_sizes(past, discard, entry) ==> is_gone(
                past,
                target.path,
            )),
{
    let (discard, entry, created, moved) = lemma_description(past, target, item);
    if target.path != entry.file && !is_for_sizes(past, discard, entry) {
        assert(takes(past[moved], target.path));
        assert forall|k: int| moved < k < past.len() implies !puts(
            #[trigger] past[k],
            target.path,
        ) by {
            assert(guarantee::is_about_sizes(discard.directory.path, past[k].request));
        }
        assert(is_vacant_since(past, moved, target.path));
    }
}

/// Nothing took away what is at the path.
pub open spec fn is_left_alone(past: Seq<Exchange>, path: Seq<u8>) -> bool {
    forall|k: int| 0 <= k < past.len() ==> !takes(#[trigger] past[k], path)
}

proof fn lemma_left_alone(past: Seq<Exchange>, more: Seq<Exchange>, path: Seq<u8>)
    requires
        is_present(past, path),
        is_left_alone(more, path),
    ensures
        is_present(past + more, path),
{
    reveal(is_present);
    let all = past + more;
    let i = choose|i: int|
        0 <= i < past.len() && puts(#[trigger] past[i], path) && is_there_since(past, i, path);
    assert(all[i] == past[i]);
    assert forall|k: int| i < k < all.len() implies !takes(#[trigger] all[k], path) by {
        if k < past.len() {
            assert(all[k] == past[k]);
        } else {
            assert(all[k] == more[k - past.len()]);
        }
    }
    assert(is_there_since(all, i, path));
}

proof fn lemma_first_creations_are_exclusive(past: Seq<Exchange>, more: Seq<Exchange>)
    requires
        creations_are_exclusive(past + more),
    ensures
        creations_are_exclusive(past),
{
    reveal(creations_are_exclusive);
    let all = past + more;
    assert forall|i: int, path: Seq<u8>|
        0 <= i < past.len() && #[trigger] creates(past[i], path) implies !is_present(
        past.take(i),
        path,
    ) by {
        assert(all[i] == past[i]);
        assert(creates(all[i], path));
        assert(all.take(i) =~= past.take(i));
    }
}

/// A second item was discarded, and where it was not the first one, at its place in the trash, the
/// first one is still there and was not changed.
#[verifier::opaque]
pub open spec fn payload_is_spared(
    first: Seq<Exchange>,
    between: Seq<Exchange>,
    second: Seq<Exchange>,
    second_path: Seq<u8>,
    place: Seq<u8>,
) -> bool {
    exists|target: DiscardTargetView| #[trigger]
        guarantee::is_target_of(second, second_path, target) && (is_left_alone(between, place)
            && target.path != place ==> {
            &&& is_spared(second, place)
            &&& is_present(first + between + second, place)
        })
}

/// Discarding the path with these answers exchanges this, and gives this item.
#[verifier::opaque]
spec fn gives(
    path: Seq<u8>,
    replies: Seq<ReplyView>,
    past: Seq<Exchange>,
    item: TrashItemView,
) -> bool {
    &&& machine::after::<DiscardPath>(discard::discard_path(path), replies) == Step::<
        DiscardPathView,
        Result<TrashItemView, ErrorView>,
    >::Finish(Ok(item))
    &&& past == machine::history::<DiscardPath>(discard::discard_path(path), replies)
}

proof fn lemma_in_the_trash(
    path: Seq<u8>,
    replies: Seq<ReplyView>,
    past: Seq<Exchange>,
    item: TrashItemView,
)
    requires
        gives(path, replies, past, item),
        creations_are_exclusive(past),
    ensures
        is_present(past, item.id),
        exists|place: Seq<u8>| #[trigger]
            is_discarded_at(past, path, item, place) && is_present(past, place),
{
    reveal(gives);
    let none = Seq::<Exchange>::empty();
    assert(none + past =~= past);
    discarded_items_are_in_the_trash(none, path, replies, item);
}

proof fn lemma_identifier_is_new(
    before: Seq<Exchange>,
    path: Seq<u8>,
    replies: Seq<ReplyView>,
    past: Seq<Exchange>,
    item: TrashItemView,
    present: Seq<u8>,
)
    requires
        gives(path, replies, past, item),
        creations_are_exclusive(before + past),
        is_present(before, present),
    ensures
        item.id != present,
{
    reveal(gives);
    identifiers_are_new(before, path, replies, item, present);
}

proof fn lemma_payload_is_spared(
    first: Seq<Exchange>,
    between: Seq<Exchange>,
    path: Seq<u8>,
    replies: Seq<ReplyView>,
    second: Seq<Exchange>,
    item: TrashItemView,
    place: Seq<u8>,
)
    requires
        gives(path, replies, second, item),
        creations_are_exclusive(first + between + second),
        is_present(first, place),
    ensures
        payload_is_spared(first, between, second, path, place),
{
    reveal(gives);
    reveal(payload_is_spared);
    if is_left_alone(between, place) {
        lemma_left_alone(first, between, place);
        other_entries_are_spared(first + between, path, replies, item, place);
    } else {
        guarantee::discarded_items_are_described_and_moved(path, replies, item);
    }
}

proof fn lemma_coexistence(
    first_path: Seq<u8>,
    first_replies: Seq<ReplyView>,
    first: Seq<Exchange>,
    first_item: TrashItemView,
    between: Seq<Exchange>,
    second_path: Seq<u8>,
    second_replies: Seq<ReplyView>,
    second: Seq<Exchange>,
    second_item: TrashItemView,
)
    requires
        gives(first_path, first_replies, first, first_item),
        gives(second_path, second_replies, second, second_item),
        creations_are_exclusive(first + between + second),
        is_left_alone(between, first_item.id),
    ensures
        first_item.id != second_item.id,
        exists|place: Seq<u8>| #[trigger]
            is_discarded_at(first, first_path, first_item, place) && payload_is_spared(
                first,
                between,
                second,
                second_path,
                place,
            ),
{
    let before = first + between;
    assert(before + second =~= first + (between + second));
    lemma_first_creations_are_exclusive(first, between + second);
    lemma_in_the_trash(first_path, first_replies, first, first_item);
    let place = choose|place: Seq<u8>| #[trigger]
        is_discarded_at(first, first_path, first_item, place) && is_present(first, place);
    lemma_left_alone(first, between, first_item.id);
    lemma_identifier_is_new(
        before,
        second_path,
        second_replies,
        second,
        second_item,
        first_item.id,
    );
    lemma_payload_is_spared(
        first,
        between,
        second_path,
        second_replies,
        second,
        second_item,
        place,
    );
}

/// Two items that are discarded one after the other get different identifiers, also when they have
/// the same name, and the first one is not changed by the second, as long as the first one and the
/// file about it are not taken out of the trash in between.
pub proof fn items_with_the_same_name_coexist(
    first_path: Seq<u8>,
    first_replies: Seq<ReplyView>,
    first_item: TrashItemView,
    between: Seq<Exchange>,
    second_path: Seq<u8>,
    second_replies: Seq<ReplyView>,
    second_item: TrashItemView,
)
    requires
        machine::after::<DiscardPath>(discard::discard_path(first_path), first_replies) == Step::<
            DiscardPathView,
            Result<TrashItemView, ErrorView>,
        >::Finish(Ok(first_item)),
        machine::after::<DiscardPath>(discard::discard_path(second_path), second_replies)
            == Step::<DiscardPathView, Result<TrashItemView, ErrorView>>::Finish(Ok(second_item)),
        creations_are_exclusive(
            machine::history::<DiscardPath>(discard::discard_path(first_path), first_replies)
                + between + machine::history::<DiscardPath>(
                discard::discard_path(second_path),
                second_replies,
            ),
        ),
        is_left_alone(between, first_item.id),
    ensures
        ({
            let first = machine::history::<DiscardPath>(
                discard::discard_path(first_path),
                first_replies,
            );
            let second = machine::history::<DiscardPath>(
                discard::discard_path(second_path),
                second_replies,
            );
            &&& first_item.id != second_item.id
            &&& exists|place: Seq<u8>| #[trigger]
                is_discarded_at(first, first_path, first_item, place) && payload_is_spared(
                    first,
                    between,
                    second,
                    second_path,
                    place,
                )
        }),
{
    let first = machine::history::<DiscardPath>(discard::discard_path(first_path), first_replies);
    let second = machine::history::<DiscardPath>(
        discard::discard_path(second_path),
        second_replies,
    );
    assert(gives(first_path, first_replies, first, first_item)) by {
        reveal(gives);
    }
    assert(gives(second_path, second_replies, second, second_item)) by {
        reveal(gives);
    }
    lemma_coexistence(
        first_path,
        first_replies,
        first,
        first_item,
        between,
        second_path,
        second_replies,
        second,
        second_item,
    );
}

} // verus!
