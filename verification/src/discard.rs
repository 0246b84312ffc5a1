//! Discarding paths: finding out which items they name, and moving those to the trash.

use vstd::prelude::*;
use vstd::slice::slice_to_vec;

use crate::error::{self, Error, ErrorView};
use crate::machine::{self, Machine, Reply, ReplyView, Request, RequestView, Step};
use crate::path::{self, PathBuf};
use crate::platform::linux::{self, Discard, DiscardAll, DiscardAllView, DiscardView};
use crate::{TrashItem, TrashItemView, TrashItems};

verus! {

/// An item that is to be discarded, with its parent directory resolved.
#[derive(Debug)]
pub struct DiscardTarget {
    /// The item itself: a symbolic link stays one.
    pub path: PathBuf,
    /// The item's name.
    pub original_name: Vec<u8>,
    /// The directory that holds the item.
    pub original_parent: PathBuf,
}

/// What a [`DiscardTarget`] says.
pub struct DiscardTargetView {
    pub path: Seq<u8>,
    pub original_name: Seq<u8>,
    pub original_parent: Seq<u8>,
}

impl View for DiscardTarget {
    type V = DiscardTargetView;

    open spec fn view(&self) -> DiscardTargetView {
        DiscardTargetView {
            path: self.path@,
            original_name: self.original_name@,
            original_parent: self.original_parent@,
        }
    }
}

/// What a sequence of targets says.
pub open spec fn target_views(targets: Seq<DiscardTarget>) -> Seq<DiscardTargetView> {
    Seq::new(targets.len(), |i: int| targets[i]@)
}

impl Clone for DiscardTarget {
    fn clone(&self) -> (copy: Self)
        ensures
            copy@ == self@,
    {
        DiscardTarget {
            path: self.path.clone(),
            original_name: slice_to_vec(self.original_name.as_slice()),
            original_parent: self.original_parent.clone(),
        }
    }
}

/// Finds out which item a path names.
#[derive(Debug)]
pub enum ResolveTarget {
    /// The path is relative: the directory that it starts from is needed.
    Base { path: PathBuf },
    /// The path ends in no name, so that all of it has to be resolved.
    Whole { path: PathBuf },
    /// The path ends in a name: only the directory before it is resolved.
    Parent { parent: PathBuf, name: Vec<u8> },
}

/// What a [`ResolveTarget`] waits for.
pub enum ResolveTargetView {
    Base { path: Seq<u8> },
    Whole { path: Seq<u8> },
    Parent { parent: Seq<u8>, name: Seq<u8> },
}

impl View for ResolveTarget {
    type V = ResolveTargetView;

    open spec fn view(&self) -> ResolveTargetView {
        match self {
            ResolveTarget::Base { path } => ResolveTargetView::Base { path: path@ },
            ResolveTarget::Whole { path } => ResolveTargetView::Whole { path: path@ },
            ResolveTarget::Parent { parent, name } => ResolveTargetView::Parent {
                parent: parent@,
                name: name@,
            },
        }
    }
}

/// How the resolution of an absolute path starts.
pub open spec fn resolve_absolute(path: Seq<u8>) -> Result<ResolveTargetView, ErrorView> {
    match path::file_name(path) {
        None => Ok(ResolveTargetView::Whole { path }),
        Some(name) => match path::parent(path) {
            Some(above) => Ok(ResolveTargetView::Parent { parent: above, name }),
            None => Err(ErrorView::TargetedRoot { path }),
        },
    }
}

/// How the resolution of a path starts.
pub open spec fn resolve_start(path: Seq<u8>) -> Result<ResolveTargetView, ErrorView> {
    if path.len() == 0 {
        Err(ErrorView::EmptyPath)
    } else if path::is_absolute(path) {
        resolve_absolute(path)
    } else {
        Ok(ResolveTargetView::Base { path })
    }
}

/// The target that a fully resolved path names.
pub open spec fn whole_target(path: Seq<u8>) -> Result<DiscardTargetView, ErrorView> {
    match (path::parent(path), path::file_name(path)) {
        (Some(above), Some(name)) => Ok(
            DiscardTargetView { path, original_name: name, original_parent: above },
        ),
        _ => Err(ErrorView::TargetedRoot { path }),
    }
}

impl ResolveTarget {
    /// Starts to find out which item a path names.
    pub fn start(path: PathBuf) -> (machine: Result<Self, Error>)
        ensures
            error::result_view(machine) == resolve_start(path@),
    {
        if path.is_empty() {
            Err(Error::EmptyPath)
        } else if path.is_absolute() {
            Self::start_absolute(path)
        } else {
            Ok(ResolveTarget::Base { path })
        }
    }

    fn start_absolute(path: PathBuf) -> (machine: Result<Self, Error>)
        ensures
            error::result_view(machine) == resolve_absolute(path@),
    {
        match path.file_name() {
            None => Ok(ResolveTarget::Whole { path }),
            Some(name) => match path.parent() {
                Some(parent) => Ok(ResolveTarget::Parent { parent, name }),
                None => Err(Error::TargetedRoot { path }),
            },
        }
    }
}

impl Machine for ResolveTarget {
    type Output = DiscardTarget;

    open spec fn pending(state: ResolveTargetView) -> RequestView {
        match state {
            ResolveTargetView::Base { .. } => RequestView::CurrentDir,
            ResolveTargetView::Whole { path } => RequestView::Canonicalize { path },
            ResolveTargetView::Parent { parent, .. } => RequestView::Canonicalize { path: parent },
        }
    }

    open spec fn next(state: ResolveTargetView, reply: ReplyView) -> Step<
        ResolveTargetView,
        Result<DiscardTargetView, ErrorView>,
    > {
        match (state, reply) {
            (ResolveTargetView::Base { path }, ReplyView::Path(base)) => match resolve_absolute(
                path::join(base, path),
            ) {
                Ok(machine) => Step::Continue(machine),
                Err(error) => Step::Finish(Err(error)),
            },
            (ResolveTargetView::Base { path }, ReplyView::Failed(source)) => Step::Finish(
                Err(ErrorView::Io { path, source }),
            ),
            (ResolveTargetView::Whole { .. }, ReplyView::Path(resolved)) => Step::Finish(
                whole_target(resolved),
            ),
            (ResolveTargetView::Whole { path }, ReplyView::Failed(source)) => Step::Finish(
                Err(ErrorView::Io { path, source }),
            ),
            (ResolveTargetView::Parent { name, .. }, ReplyView::Path(resolved)) => Step::Finish(
                Ok(
                    DiscardTargetView {
                        path: path::join(resolved, name),
                        original_name: name,
                        original_parent: resolved,
                    },
                ),
            ),
            (ResolveTargetView::Parent { parent, .. }, ReplyView::Failed(source)) => Step::Finish(
                Err(ErrorView::Io { path: parent, source }),
            ),
            _ => Step::Continue(state),
        }
    }

    proof fn other_replies_change_nothing(state: ResolveTargetView, reply: ReplyView) {
    }

    fn request(&self) -> (request: Request) {
        match self {
            ResolveTarget::Base { .. } => Request::CurrentDir,
            ResolveTarget::Whole { path } => Request::Canonicalize { path: path.clone() },
            ResolveTarget::Parent { parent, .. } => Request::Canonicalize { path: parent.clone() },
        }
    }

    fn step(self, reply: Reply) -> (step: Step<Self, Result<DiscardTarget, Error>>) {
        match (self, reply) {
            (ResolveTarget::Base { path }, Reply::Path(base)) => match Self::start_absolute(
                base.join(path.as_bytes()),
            ) {
                Ok(machine) => Step::Continue(machine),
                Err(error) => Step::Finish(Err(error)),
            },
            (ResolveTarget::Base { path }, Reply::Failed(source)) => Step::Finish(
                Err(Error::Io { path, source }),
            ),
            (ResolveTarget::Whole { .. }, Reply::Path(path)) => {
                match (path.parent(), path.file_name()) {
                    (Some(original_parent), Some(original_name)) => Step::Finish(
                        Ok(DiscardTarget { path, original_name, original_parent }),
                    ),
                    _ => Step::Finish(Err(Error::TargetedRoot { path })),
                }
            },
            (ResolveTarget::Whole { path }, Reply::Failed(source)) => Step::Finish(
                Err(Error::Io { path, source }),
            ),
            (ResolveTarget::Parent { name, .. }, Reply::Path(resolved)) => Step::Finish(
                Ok(
                    DiscardTarget {
                        path: resolved.join(name.as_slice()),
                        original_name: name,
                        original_parent: resolved,
                    },
                ),
            ),
            (ResolveTarget::Parent { parent, .. }, Reply::Failed(source)) => Step::Finish(
                Err(Error::Io { path: parent, source }),
            ),
            (machine, _) => Step::Continue(machine),
        }
    }
}

/// Moves the item that a path names to the trash.
#[derive(Debug)]
pub enum DiscardPath {
    /// Which item the path names.
    Resolve(ResolveTarget),
    /// The item is moved.
    Discard(Discard),
}

/// What a [`DiscardPath`] has come to.
pub enum DiscardPathView {
    Resolve(ResolveTargetView),
    Discard(DiscardView),
}

impl View for DiscardPath {
    type V = DiscardPathView;

    open spec fn view(&self) -> DiscardPathView {
        match self {
            DiscardPath::Resolve(machine) => DiscardPathView::Resolve(machine@),
            DiscardPath::Discard(machine) => DiscardPathView::Discard(machine@),
        }
    }
}

/// How the item that a path names is moved to the trash.
pub open spec fn discard_path(path: Seq<u8>) -> Step<
    DiscardPathView,
    Result<TrashItemView, ErrorView>,
> {
    match resolve_start(path) {
        Ok(machine) => Step::Continue(DiscardPathView::Resolve(machine)),
        Err(error) => Step::Finish(Err(error)),
    }
}

impl DiscardPath {
    /// Starts to move the item that a path names to the trash.
    pub fn start(path: PathBuf) -> (step: Step<Self, Result<TrashItem, Error>>)
        ensures
            machine::step_view(step) == discard_path(path@),
    {
        match ResolveTarget::start(path) {
            Ok(machine) => Step::Continue(DiscardPath::Resolve(machine)),
            Err(error) => Step::Finish(Err(error)),
        }
    }
}

impl Machine for DiscardPath {
    type Output = TrashItem;

    open spec fn pending(state: DiscardPathView) -> RequestView {
        match state {
            DiscardPathView::Resolve(machine) => ResolveTarget::pending(machine),
            DiscardPathView::Discard(machine) => Discard::pending(machine),
        }
    }

    open spec fn next(state: DiscardPathView, reply: ReplyView) -> Step<
        DiscardPathView,
        Result<TrashItemView, ErrorView>,
    > {
        match state {
            DiscardPathView::Resolve(machine) => match ResolveTarget::next(machine, reply) {
                Step::Continue(machine) => Step::Continue(DiscardPathView::Resolve(machine)),
                Step::Finish(Ok(target)) => Step::Continue(
                    DiscardPathView::Discard(linux::discard(target)),
                ),
                Step::Finish(Err(error)) => Step::Finish(Err(error)),
            },
            DiscardPathView::Discard(machine) => match Discard::next(machine, reply) {
                Step::Continue(machine) => Step::Continue(DiscardPathView::Discard(machine)),
                Step::Finish(result) => Step::Finish(result),
            },
        }
    }

    proof fn other_replies_change_nothing(state: DiscardPathView, reply: ReplyView) {
        match state {
            DiscardPathView::Resolve(machine) => {
                ResolveTarget::other_replies_change_nothing(machine, reply);
            },
            DiscardPathView::Discard(machine) => {
                Discard::other_replies_change_nothing(machine, reply);
            },
        }
    }

    fn request(&self) -> (request: Request) {
        match self {
            DiscardPath::Resolve(machine) => machine.request(),
            DiscardPath::Discard(machine) => machine.request(),
        }
    }

    fn step(self, reply: Reply) -> (step: Step<Self, Result<TrashItem, Error>>) {
        match self {
            DiscardPath::Resolve(machine) => match machine.step(reply) {
                Step::Continue(machine) => Step::Continue(DiscardPath::Resolve(machine)),
                Step::Finish(Ok(target)) => Step::Continue(
                    DiscardPath::Discard(Discard::start(target)),
                ),
                Step::Finish(Err(error)) => Step::Finish(Err(error)),
            },
            DiscardPath::Discard(machine) => match machine.step(reply) {
                Step::Continue(machine) => Step::Continue(DiscardPath::Discard(machine)),
                Step::Finish(result) => Step::Finish(result),
            },
        }
    }
}

/// Finds out which items paths name.
#[derive(Debug)]
pub struct ResolveTargets {
    paths: Vec<PathBuf>,
    targets: Vec<DiscardTarget>,
    machine: ResolveTarget,
}

/// What a [`ResolveTargets`] has come to.
pub struct ResolveTargetsView {
    /// All the paths.
    pub paths: Seq<Seq<u8>>,
    /// The items that the first paths name.
    pub targets: Seq<DiscardTargetView>,
    /// The resolution of the next path.
    pub machine: ResolveTargetView,
}

impl View for ResolveTargets {
    type V = ResolveTargetsView;

    closed spec fn view(&self) -> ResolveTargetsView {
        ResolveTargetsView {
            paths: path::path_bytes(self.paths@),
            targets: target_views(self.targets@),
            machine: self.machine@,
        }
    }
}

/// Items that are to be discarded, in the order of the paths that name them.
#[derive(Debug)]
pub struct DiscardTargets {
    /// The items.
    pub targets: Vec<DiscardTarget>,
}

impl View for DiscardTargets {
    type V = Seq<DiscardTargetView>;

    open spec fn view(&self) -> Seq<DiscardTargetView> {
        target_views(self.targets@)
    }
}

/// How the paths are resolved, when it is known which items the first ones name.
pub open spec fn resolve_rest(paths: Seq<Seq<u8>>, targets: Seq<DiscardTargetView>) -> Step<
    ResolveTargetsView,
    Result<Seq<DiscardTargetView>, ErrorView>,
> {
    if targets.len() < paths.len() {
        match resolve_start(paths[targets.len() as int]) {
            Ok(machine) => Step::Continue(ResolveTargetsView { paths, targets, machine }),
            Err(error) => Step::Finish(Err(error)),
        }
    } else {
        Step::Finish(Ok(targets))
    }
}

/// How it is found out which items paths name.
pub open spec fn resolve_all(paths: Seq<Seq<u8>>) -> Step<
    ResolveTargetsView,
    Result<Seq<DiscardTargetView>, ErrorView>,
> {
    resolve_rest(paths, seq![])
}

impl ResolveTargets {
    /// Starts to find out which items paths name.
    pub fn start(paths: Vec<PathBuf>) -> (step: Step<Self, Result<DiscardTargets, Error>>)
        ensures
            machine::step_view(step) == resolve_all(path::path_bytes(paths@)),
    {
        let targets: Vec<DiscardTarget> = Vec::new();
        assert(target_views(targets@) =~= seq![]);
        Self::rest(paths, targets)
    }

    fn rest(paths: Vec<PathBuf>, targets: Vec<DiscardTarget>) -> (step: Step<
        Self,
        Result<DiscardTargets, Error>,
    >)
        ensures
            machine::step_view(step) == resolve_rest(
                path::path_bytes(paths@),
                target_views(targets@),
            ),
    {
        if targets.len() < paths.len() {
            match ResolveTarget::start(paths[targets.len()].clone()) {
                Ok(machine) => Step::Continue(ResolveTargets { paths, targets, machine }),
                Err(error) => Step::Finish(Err(error)),
            }
        } else {
            Step::Finish(Ok(DiscardTargets { targets }))
        }
    }
}

impl Machine for ResolveTargets {
    type Output = DiscardTargets;

    open spec fn pending(state: ResolveTargetsView) -> RequestView {
        ResolveTarget::pending(state.machine)
    }

    open spec fn next(state: ResolveTargetsView, reply: ReplyView) -> Step<
        ResolveTargetsView,
        Result<Seq<DiscardTargetView>, ErrorView>,
    > {
        match ResolveTarget::next(state.machine, reply) {
            Step::Continue(machine) => Step::Continue(ResolveTargetsView { machine, ..state }),
            Step::Finish(Ok(target)) => resolve_rest(state.paths, state.targets.push(target)),
            Step::Finish(Err(error)) => Step::Finish(Err(error)),
        }
    }

    proof fn other_replies_change_nothing(state: ResolveTargetsView, reply: ReplyView) {
        ResolveTarget::other_replies_change_nothing(state.machine, reply);
    }

    fn request(&self) -> (request: Request) {
        self.machine.request()
    }

    fn step(self, reply: Reply) -> (step: Step<Self, Result<DiscardTargets, Error>>) {
        let ResolveTargets { paths, targets, machine } = self;
        match machine.step(reply) {
            Step::Continue(machine) => Step::Continue(ResolveTargets { paths, targets, machine }),
            Step::Finish(Ok(target)) => {
                let mut targets = targets;
                let ghost before = targets@;
                targets.push(target);
                assert(target_views(targets@) =~= target_views(before).push(target@));
                Self::rest(paths, targets)
            },
            Step::Finish(Err(error)) => Step::Finish(Err(error)),
        }
    }
}

/// Moves the items that paths name to the trash: first it finds out which items all of them are,
/// and then it moves one after the other.
#[derive(Debug)]
pub enum DiscardPaths {
    /// Which items the paths name.
    Resolve(ResolveTargets),
    /// The items are moved.
    Discard(DiscardAll),
}

/// What a [`DiscardPaths`] has come to.
pub enum DiscardPathsView {
    Resolve(ResolveTargetsView),
    Discard(DiscardAllView),
}

impl View for DiscardPaths {
    type V = DiscardPathsView;

    open spec fn view(&self) -> DiscardPathsView {
        match self {
            DiscardPaths::Resolve(machine) => DiscardPathsView::Resolve(machine@),
            DiscardPaths::Discard(machine) => DiscardPathsView::Discard(machine@),
        }
    }
}

/// What comes of the resolution of the paths.
pub open spec fn resolving(
    step: Step<ResolveTargetsView, Result<Seq<DiscardTargetView>, ErrorView>>,
) -> Step<DiscardPathsView, Result<Seq<TrashItemView>, ErrorView>> {
    match step {
        Step::Continue(machine) => Step::Continue(DiscardPathsView::Resolve(machine)),
        Step::Finish(Ok(targets)) => discarding(linux::discard_all(targets)),
        Step::Finish(Err(error)) => Step::Finish(Err(error)),
    }
}

/// What comes of the move of the items.
pub open spec fn discarding(
    step: Step<DiscardAllView, Result<Seq<TrashItemView>, ErrorView>>,
) -> Step<DiscardPathsView, Result<Seq<TrashItemView>, ErrorView>> {
    match step {
        Step::Continue(machine) => Step::Continue(DiscardPathsView::Discard(machine)),
        Step::Finish(result) => Step::Finish(result),
    }
}

/// How the items that paths name are moved to the trash.
pub open spec fn discard_paths(paths: Seq<Seq<u8>>) -> Step<
    DiscardPathsView,
    Result<Seq<TrashItemView>, ErrorView>,
> {
    resolving(resolve_all(paths))
}

impl DiscardPaths {
    /// Starts to move the items that paths name to the trash.
    pub fn start(paths: Vec<PathBuf>) -> (step: Step<Self, Result<TrashItems, Error>>)
        ensures
            machine::step_view(step) == discard_paths(path::path_bytes(paths@)),
    {
        Self::resolving(ResolveTargets::start(paths))
    }

    fn resolving(step: Step<ResolveTargets, Result<DiscardTargets, Error>>) -> (next: Step<
        Self,
        Result<TrashItems, Error>,
    >)
        ensures
            machine::step_view(next) == resolving(machine::step_view(step)),
    {
        match step {
            Step::Continue(machine) => Step::Continue(DiscardPaths::Resolve(machine)),
            Step::Finish(Ok(found)) => Self::discarding(DiscardAll::start(found.targets)),
            Step::Finish(Err(error)) => Step::Finish(Err(error)),
        }
    }

    fn discarding(step: Step<DiscardAll, Result<TrashItems, Error>>) -> (next: Step<
        Self,
        Result<TrashItems, Error>,
    >)
        ensures
            machine::step_view(next) == discarding(machine::step_view(step)),
    {
        match step {
            Step::Continue(machine) => Step::Continue(DiscardPaths::Discard(machine)),
            Step::Finish(result) => Step::Finish(result),
        }
    }
}

impl Machine for DiscardPaths {
    type Output = TrashItems;

    open spec fn pending(state: DiscardPathsView) -> RequestView {
        match state {
            DiscardPathsView::Resolve(machine) => ResolveTargets::pending(machine),
            DiscardPathsView::Discard(machine) => DiscardAll::pending(machine),
        }
    }

    open spec fn next(state: DiscardPathsView, reply: ReplyView) -> Step<
        DiscardPathsView,
        Result<Seq<TrashItemView>, ErrorView>,
    > {
        match state {
            DiscardPathsView::Resolve(machine) => resolving(ResolveTargets::next(machine, reply)),
            DiscardPathsView::Discard(machine) => discarding(DiscardAll::next(machine, reply)),
        }
    }

    proof fn other_replies_change_nothing(state: DiscardPathsView, reply: ReplyView) {
        match state {
            DiscardPathsView::Resolve(machine) => {
                ResolveTargets::other_replies_change_nothing(machine, reply);
            },
            DiscardPathsView::Discard(machine) => {
                DiscardAll::other_replies_change_nothing(machine, reply);
            },
        }
    }

    fn request(&self) -> (request: Request) {
        match self {
            DiscardPaths::Resolve(machine) => machine.request(),
            DiscardPaths::Discard(machine) => machine.request(),
        }
    }

    fn step(self, reply: Reply) -> (step: Step<Self, Result<TrashItems, Error>>) {
        match self {
            DiscardPaths::Resolve(machine) => Self::resolving(machine.step(reply)),
            DiscardPaths::Discard(machine) => Self::discarding(machine.step(reply)),
        }
    }
}

/// Every answer leads on.
pub proof fn answers_lead_on(state: ResolveTargetView, reply: ReplyView)
    requires
        machine::fits(ResolveTarget::pending(state), reply),
    ensures
        ResolveTarget::next(state, reply) matches Step::Continue(next) ==> next != state,
{
}

} // verus!
