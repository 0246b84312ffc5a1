//! Cross-platform system trash.
//!
//! [`discard`] moves one path to the trash, [`discard_all`] several. Both start an operation that
//! asks the operating system for one thing at a time; see [`machine`].

pub mod clock;
pub mod coexistence;
pub mod discard;
pub mod error;
pub mod guarantee;
pub mod machine;
pub mod path;
pub mod platform;
pub mod text;

use vstd::prelude::*;
use vstd::slice::slice_to_vec;

pub use crate::error::Error;

use crate::clock::SystemTime;
use crate::discard::{DiscardPath, DiscardPaths};
use crate::machine::Step;
use crate::path::PathBuf;

verus! {

/// Describes an item moved to the system trash.
#[derive(Debug)]
pub struct TrashItem {
    id: Vec<u8>,
    original_name: Vec<u8>,
    original_parent: PathBuf,
    discarded_at: SystemTime,
}

/// What a [`TrashItem`] says.
pub struct TrashItemView {
    /// The identifier that the platform has for the item.
    pub id: Seq<u8>,
    /// The name that the item had.
    pub original_name: Seq<u8>,
    /// The directory that held the item.
    pub original_parent: Seq<u8>,
    /// When the item was moved to the trash.
    pub discarded_at: SystemTime,
}

impl View for TrashItem {
    type V = TrashItemView;

    closed spec fn view(&self) -> TrashItemView {
        TrashItemView {
            id: self.id@,
            original_name: self.original_name@,
            original_parent: self.original_parent@,
            discarded_at: self.discarded_at,
        }
    }
}

impl TrashItemView {
    /// The path that the item had.
    pub open spec fn original_path(self) -> Seq<u8> {
        path::join(self.original_parent, self.original_name)
    }
}

impl Clone for TrashItem {
    fn clone(&self) -> (copy: Self)
        ensures
            copy@ == self@,
    {
        TrashItem {
            id: slice_to_vec(self.id.as_slice()),
            original_name: slice_to_vec(self.original_name.as_slice()),
            original_parent: self.original_parent.clone(),
            discarded_at: self.discarded_at,
        }
    }
}

impl TrashItem {
    /// The item with this identifier, name, directory and time.
    #[must_use]
    pub fn new(
        id: Vec<u8>,
        original_name: Vec<u8>,
        original_parent: PathBuf,
        discarded_at: SystemTime,
    ) -> (item: Self)
        ensures
            item@ == (TrashItemView {
                id: id@,
                original_name: original_name@,
                original_parent: original_parent@,
                discarded_at,
            }),
    {
        TrashItem { id, original_name, original_parent, discarded_at }
    }

    /// Returns the platform-specific identifier for the trashed item.
    ///
    /// On Linux:
    ///
    /// - This is the absolute path to the `.trashinfo` file.
    /// - For example: `/home/me/.local/share/Trash/info/file.txt.trashinfo`.
    ///
    /// On macOS:
    ///
    /// - This is the path that the file manager gave the item.
    /// - For example: `/Users/me/.Trash/file.txt`.
    ///
    /// On Windows:
    ///
    /// - This is the recycled item path returned by the Shell.
    /// - For example: `C:\$Recycle.Bin\S-1-5-21-...\$RABC123.txt`.
    pub fn id(&self) -> (id: &[u8])
        ensures
            id@ == self@.id,
    {
        self.id.as_slice()
    }

    /// Returns the trashed item's original file name: for `/home/me/Downloads/file.txt`, this is
    /// `file.txt`.
    pub fn original_name(&self) -> (name: &[u8])
        ensures
            name@ == self@.original_name,
    {
        self.original_name.as_slice()
    }

    /// Returns the directory that originally contained the trashed item: for
    /// `/home/me/Downloads/file.txt`, this is `/home/me/Downloads`.
    ///
    /// On Linux and macOS, the symbolic links of the directory are resolved. On Windows, this is
    /// the original location recorded by the Shell.
    pub fn original_parent(&self) -> (parent: &PathBuf)
        ensures
            parent@ == self@.original_parent,
    {
        &self.original_parent
    }

    /// Returns the trashed item's original full path: the original name, joined to the original
    /// parent.
    #[must_use]
    pub fn original_path(&self) -> (path: PathBuf)
        ensures
            path@ == self@.original_path(),
    {
        self.original_parent.join(self.original_name.as_slice())
    }

    /// Returns the time at which the item was trashed.
    ///
    /// On Linux, this is the timestamp written to the `.trashinfo` file. On macOS and Windows, it
    /// is recorded after the system's operation has succeeded.
    #[must_use]
    pub fn discarded_at(&self) -> (time: SystemTime)
        ensures
            time == self@.discarded_at,
    {
        self.discarded_at
    }
}

/// Items moved to the system trash, in the order of the paths that were discarded.
#[derive(Debug)]
pub struct TrashItems {
    /// The items.
    pub items: Vec<TrashItem>,
}

/// What a sequence of items says.
pub open spec fn item_views(items: Seq<TrashItem>) -> Seq<TrashItemView> {
    Seq::new(items.len(), |i: int| items[i]@)
}

impl View for TrashItems {
    type V = Seq<TrashItemView>;

    open spec fn view(&self) -> Seq<TrashItemView> {
        item_views(self.items@)
    }
}

/// Provides access to system trash operations.
#[derive(Clone, Copy, Debug, Default)]
pub struct Trash;

impl Trash {
    /// Creates a trash handle.
    #[must_use]
    pub fn new() -> (trash: Self)
        ensures
            trash == Trash,
    {
        Trash
    }

    /// Moves a single path to the system trash.
    ///
    /// Symbolic links are moved as links; their targets are left in place.
    ///
    /// The operation ends in an error if the path cannot be resolved or moved to the system trash.
    pub fn discard(&self, path: PathBuf) -> (step: Step<DiscardPath, Result<TrashItem, Error>>)
        ensures
            machine::step_view(step) == discard::discard_path(path@),
    {
        DiscardPath::start(path)
    }

    /// Moves multiple paths to the system trash.
    ///
    /// The operation gives one [`TrashItem`] per path, in input order.
    ///
    /// Symbolic links are moved as links; their targets are left in place.
    ///
    /// All paths are resolved before any item is moved to the trash. If resolution
    /// fails, no items are moved. Once trashing begins, paths are processed in input
    /// order. If a later operation fails, earlier items may already be in the trash.
    ///
    /// The operation ends in an error if any path cannot be resolved or moved to the system trash.
    pub fn discard_all(&self, paths: Vec<PathBuf>) -> (step: Step<
        DiscardPaths,
        Result<TrashItems, Error>,
    >)
        ensures
            machine::step_view(step) == discard::discard_paths(path::path_bytes(paths@)),
    {
        DiscardPaths::start(paths)
    }
}

/// Moves a single path to the system trash, as [`Trash::discard`] does.
pub fn discard(path: PathBuf) -> (step: Step<DiscardPath, Result<TrashItem, Error>>)
    ensures
        machine::step_view(step) == discard::discard_path(path@),
{
    Trash::new().discard(path)
}

/// Moves multiple paths to the system trash, as [`Trash::discard_all`] does.
pub fn discard_all(paths: Vec<PathBuf>) -> (step: Step<DiscardPaths, Result<TrashItems, Error>>)
    ensures
        machine::step_view(step) == discard::discard_paths(path::path_bytes(paths@)),
{
    Trash::new().discard_all(paths)
}

/// The path that an item had is that of its name in its directory.
pub proof fn original_paths_have_name_and_parent(item: TrashItemView)
    requires
        path::is_entry_name(item.original_name),
    ensures
        path::file_name(item.original_path()) == Some(item.original_name),
        path::components(item.original_path()) == path::components(item.original_parent).push(
            path::Component::Name(item.original_name),
        ),
{
    path::a_joined_name_is_the_file_name(item.original_parent, item.original_name);
}

} // verus!
