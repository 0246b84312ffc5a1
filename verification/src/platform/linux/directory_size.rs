//! The sizes of the discarded directories, which a trash keeps in a file.

use vstd::prelude::*;
use vstd::slice::slice_to_vec;

use crate::error::{Error, ErrorKind, ErrorView, IoError, IoErrorView};
use crate::machine::{
    self, Exchange, Machine, Metadata, Reply, ReplyView, Request, RequestView, Stage, Step,
};
use crate::path::{self, PathBuf};
use crate::platform::linux::disk_usage::{self, DiskUsage, DiskUsageView};
use crate::platform::linux::prepare::TrashDirectory;
use crate::platform::linux::trash_info::{
    self, next_collision_index, percent_encode_path, ReservedTrashEntry, ReservedTrashEntryView,
};
use crate::text::{
    self, fields_of, push_ascii, push_decimal, push_signed_decimal, split_items, to_ascii_bytes,
    to_lossy_text,
};

verus! {

/// The character ends a line.
pub open spec fn is_newline(character: char) -> bool {
    character == '\n'
}

/// The character is ASCII white space.
pub open spec fn is_space(character: char) -> bool {
    ||| character == ' '
    ||| character == '\t'
    ||| character == '\n'
    ||| character == '\x0c'
    ||| character == '\r'
}

/// The line without the carriage return that ends it.
pub open spec fn without_return(line: Seq<char>) -> Seq<char> {
    if line.len() > 0 && line.last() == '\r' {
        line.drop_last()
    } else {
        line
    }
}

/// The lines of a text, without what ends them: a newline, with a carriage return before it or
/// not. What follows the last newline is a line too, unless it is empty.
pub open spec fn lines(text: Seq<char>) -> Seq<Seq<char>> {
    let pieces = text::split(text, |character: char| is_newline(character));
    let ended = pieces.drop_last().map_values(|line: Seq<char>| without_return(line));
    if pieces.last().len() > 0 {
        ended.push(pieces.last())
    } else {
        ended
    }
}

/// The line is about the directory of this name, which is its third field.
pub open spec fn is_about(line: Seq<char>, name: Seq<char>) -> bool {
    let fields = text::fields(line, |character: char| is_space(character));
    fields.len() > 2 && fields[2] == name
}

/// The lines that are not about the directory of this name, each with a newline behind it.
pub open spec fn other_lines(lines: Seq<Seq<char>>, name: Seq<char>) -> Seq<char>
    decreases lines.len(),
{
    if lines.len() == 0 {
        Seq::empty()
    } else if is_about(lines.last(), name) {
        other_lines(lines.drop_last(), name)
    } else {
        other_lines(lines.drop_last(), name) + lines.last().push('\n')
    }
}

/// The line for a directory: its size, when it was discarded, and its name.
pub open spec fn size_line(size: u64, mtime: i64, name: Seq<char>) -> Seq<char> {
    text::ascii_text(text::decimal(size as nat)) + seq![' '] + text::ascii_text(
        text::signed_decimal(mtime as int),
    ) + seq![' '] + name + seq!['\n']
}

/// The sizes file with a directory's line put in: the lines about other directories stay, and a
/// line about this one is replaced by the new one at the end.
pub open spec fn sizes_with(existing: Option<Seq<char>>, size: u64, mtime: i64, name: Seq<char>)
    -> Seq<char> {
    match existing {
        Some(existing) => other_lines(lines(existing), name) + size_line(size, mtime, name),
        None => size_line(size, mtime, name),
    }
}

fn characters_of(text: &str) -> (characters: Vec<char>)
    ensures
        characters@ == text@,
{
    let mut characters: Vec<char> = Vec::new();
    for character in all: text.chars()
        invariant
            all.seq() == text@,
            characters@ =~= text@.take(all.index()),
    {
        characters.push(character);
    }
    assert(text@.take(text@.len() as int) =~= text@);
    characters
}

fn push_characters(text: &mut String, characters: &[char])
    ensures
        final(text)@ == old(text)@ + characters@,
{
    let mut i: usize = 0;
    while i < characters.len()
        invariant
            i <= characters@.len(),
            text@ =~= old(text)@ + characters@.take(i as int),
        decreases characters@.len() - i,
    {
        text.push(characters[i]);
        i = i + 1;
    }
    assert(characters@.take(characters@.len() as int) =~= characters@);
}

fn characters_equal(left: &[char], right: &[char]) -> (equal: bool)
    ensures
        equal == (left@ == right@),
{
    if left.len() != right.len() {
        return false;
    }
    let mut i: usize = 0;
    while i < left.len()
        invariant
            left@.len() == right@.len(),
            i <= left@.len(),
            forall|k: int| 0 <= k < i ==> left@[k] == right@[k],
        decreases left@.len() - i,
    {
        if left[i] != right[i] {
            return false;
        }
        i = i + 1;
    }
    assert(left@ =~= right@);
    true
}

fn line_is_about(line: &[char], name: &[char]) -> (about: bool)
    ensures
        about == is_about(line@, name@),
{
    let separates = |character: char| -> (space: bool)
        ensures
            space == is_space(character),
        {
            character == ' ' || character == '\t' || character == '\n' || character == '\x0c'
                || character == '\r'
        };
    let fields = fields_of(line, separates, Ghost(|character: char| is_space(character)));
    let ghost found = text::fields(line@, |character: char| is_space(character));
    assert(found == text::contents_of(fields@));
    fields.len() > 2 && characters_equal(fields[2].as_slice(), name)
}

fn lines_of(text: &[char]) -> (found: Vec<Vec<char>>)
    ensures
        text::contents_of(found@) == lines(text@),
{
    let separates = |character: char| -> (newline: bool)
        ensures
            newline == is_newline(character),
        { character == '\n' };
    let pieces = split_items(text, separates, Ghost(|character: char| is_newline(character)));
    let ghost all = text::split(text@, |character: char| is_newline(character));
    proof {
        text::lemma_split_is_not_empty(text@, |character: char| is_newline(character));
    }
    let last: usize = pieces.len() - 1;
    let mut found: Vec<Vec<char>> = Vec::new();
    let ghost ended = all.drop_last().map_values(|line: Seq<char>| without_return(line));
    let mut i: usize = 0;
    while i < last
        invariant
            i <= last,
            last == pieces@.len() - 1,
            all == text::contents_of(pieces@),
            ended == all.drop_last().map_values(|line: Seq<char>| without_return(line)),
            text::contents_of(found@) =~= ended.take(i as int),
        decreases last - i,
    {
        let mut line = slice_to_vec(pieces[i].as_slice());
        assert(line@ == all[i as int]);
        let ghost whole = line@;
        if line.len() > 0 && line[line.len() - 1] == '\r' {
            line.pop();
        }
        assert(line@ =~= without_return(whole));
        assert(line@ == ended[i as int]);
        let ghost before = text::contents_of(found@);
        found.push(line);
        assert(text::contents_of(found@) =~= before.push(line@));
        assert(ended.take(i + 1) =~= ended.take(i as int).push(ended[i as int]));
        i = i + 1;
    }
    assert(ended.take(ended.len() as int) =~= ended);
    assert(all.last() == pieces@[last as int]@);
    if pieces[last].len() > 0 {
        let line = slice_to_vec(pieces[last].as_slice());
        let ghost before = text::contents_of(found@);
        found.push(line);
        assert(text::contents_of(found@) =~= before.push(line@));
    }
    found
}

/// The sizes file of a trash.
#[derive(Debug)]
pub struct DirectorySizeCache {
    /// The path of the file.
    pub path: PathBuf,
}

/// The sizes file of the trash at a path.
pub open spec fn cache_path(trash: Seq<u8>) -> Seq<u8> {
    path::join(trash, text::ascii_bytes("directorysizes"@))
}

impl DirectorySizeCache {
    /// The sizes file of a trash.
    pub fn new(trash_dir: &TrashDirectory) -> (cache: Self)
        ensures
            cache.path@ == cache_path(trash_dir@.path),
    {
        DirectorySizeCache {
            path: trash_dir.path.join(to_ascii_bytes("directorysizes").as_slice()),
        }
    }

    /// The contents of the sizes file with a directory's line put in, given what the file holds.
    pub fn contents(existing: Option<&str>, size: u64, mtime: i64, name: &str) -> (contents: String)
        ensures
            contents@ == sizes_with(
                match existing {
                    Some(existing) => Some(existing@),
                    None => None,
                },
                size,
                mtime,
                name@,
            ),
    {
        let mut contents = String::new();
        let name_characters = characters_of(name);
        if let Some(existing) = existing {
            let characters = characters_of(existing);
            let found = lines_of(characters.as_slice());
            let ghost all = lines(existing@);
            let mut i: usize = 0;
            assert(contents@ =~= other_lines(all.take(0), name@));
            while i < found.len()
                invariant
                    i <= found@.len(),
                    all == text::contents_of(found@),
                    name_characters@ == name@,
                    contents@ == other_lines(all.take(i as int), name@),
                decreases found@.len() - i,
            {
                let line = found[i].as_slice();
                let ghost before = contents@;
                assert(all.take(i + 1).drop_last() =~= all.take(i as int));
                assert(all.take(i + 1).last() == line@);
                if !line_is_about(line, name_characters.as_slice()) {
                    push_characters(&mut contents, line);
                    contents.push('\n');
                    assert(contents@ =~= before + line@.push('\n'));
                }
                i = i + 1;
            }
            assert(all.take(all.len() as int) =~= all);
        }
        let ghost others = contents@;
        let mut size_digits: Vec<u8> = Vec::new();
        push_decimal(&mut size_digits, size);
        assert(size_digits@ =~= text::decimal(size as nat));
        let mut mtime_digits: Vec<u8> = Vec::new();
        push_signed_decimal(&mut mtime_digits, mtime);
        assert(mtime_digits@ =~= text::signed_decimal(mtime as int));
        push_ascii(&mut contents, size_digits.as_slice());
        contents.push(' ');
        push_ascii(&mut contents, mtime_digits.as_slice());
        contents.push(' ');
        contents.append(name);
        contents.push('\n');
        assert(contents@ =~= others + size_line(size, mtime, name@));
        contents
    }
}

/// What a [`WriteCache`] waits for.
#[derive(Debug)]
pub enum WritePhase {
    /// The number of the process, which is part of the temporary file's name.
    Process,
    /// The temporary file is created.
    Create { process: u32, index: usize },
    /// The temporary file is written.
    Write { process: u32, index: usize },
    /// The temporary file takes the place of the sizes file.
    Replace { process: u32, index: usize },
    /// The temporary file is removed, because something failed at `path`.
    CleanUp { process: u32, index: usize, path: PathBuf, source: IoError },
}

/// What a [`WritePhase`] says.
pub enum WritePhaseView {
    Process,
    Create { process: u32, index: usize },
    Write { process: u32, index: usize },
    Replace { process: u32, index: usize },
    CleanUp { process: u32, index: usize, path: Seq<u8>, source: IoErrorView },
}

impl View for WritePhase {
    type V = WritePhaseView;

    open spec fn view(&self) -> WritePhaseView {
        match self {
            WritePhase::Process => WritePhaseView::Process,
            WritePhase::Create { process, index } => WritePhaseView::Create {
                process: *process,
                index: *index,
            },
            WritePhase::Write { process, index } => WritePhaseView::Write {
                process: *process,
                index: *index,
            },
            WritePhase::Replace { process, index } => WritePhaseView::Replace {
                process: *process,
                index: *index,
            },
            WritePhase::CleanUp { process, index, path, source } => WritePhaseView::CleanUp {
                process: *process,
                index: *index,
                path: path@,
                source: source@,
            },
        }
    }
}

/// Writes the sizes file: a temporary file beside it is written and then takes its place, so that
/// the sizes file is never half written.
#[derive(Debug)]
pub struct WriteCache {
    cache: PathBuf,
    directory: PathBuf,
    contents: String,
    phase: WritePhase,
}

/// What a [`WriteCache`] has come to.
pub struct WriteCacheView {
    /// The path of the sizes file.
    pub cache: Seq<u8>,
    /// The directory that holds it.
    pub directory: Seq<u8>,
    /// What is written.
    pub contents: Seq<char>,
    /// What the machine waits for.
    pub phase: WritePhaseView,
}

impl View for WriteCache {
    type V = WriteCacheView;

    closed spec fn view(&self) -> WriteCacheView {
        WriteCacheView {
            cache: self.cache@,
            directory: self.directory@,
            contents: self.contents@,
            phase: self.phase@,
        }
    }
}

/// The temporary file in a directory, for a process and a number.
pub open spec fn temporary_file(directory: Seq<u8>, process: u32, index: usize) -> Seq<u8> {
    path::join(
        directory,
        text::ascii_bytes(".directorysizes."@) + text::decimal(process as nat) + seq![path::DOT]
            + text::decimal(index as nat) + text::ascii_bytes(".tmp"@),
    )
}

/// How the writing of the sizes file starts.
pub open spec fn write_start(cache: Seq<u8>, contents: Seq<char>) -> Step<
    WriteCacheView,
    Result<(), ErrorView>,
> {
    match path::parent(cache) {
        Some(directory) => Step::Continue(
            WriteCacheView { cache, directory, contents, phase: WritePhaseView::Process },
        ),
        None => Step::Finish(
            Err(
                ErrorView::Platform {
                    path: cache,
                    message: "Directory size cache path has no parent: "@ + text::lossy_text(
                        cache,
                    ),
                },
            ),
        ),
    }
}

impl WriteCacheView {
    /// The same writing, with another thing to wait for.
    pub open spec fn with_phase(self, phase: WritePhaseView) -> Self {
        WriteCacheView { phase, ..self }
    }

    /// The temporary file for a process and a number.
    pub open spec fn temporary(self, process: u32, index: usize) -> Seq<u8> {
        temporary_file(self.directory, process, index)
    }
}

impl WriteCache {
    fn with_phase(self, phase: WritePhase) -> (machine: Self)
        ensures
            machine@ == self@.with_phase(phase@),
    {
        WriteCache { phase, ..self }
    }

    fn temporary(&self, process: u32, index: usize) -> (path: PathBuf)
        ensures
            path@ == self@.temporary(process, index),
    {
        let mut name = to_ascii_bytes(".directorysizes.");
        push_decimal(&mut name, process as u64);
        name.push(path::DOT);
        push_decimal(&mut name, index as u64);
        let mut suffix = to_ascii_bytes(".tmp");
        name.append(&mut suffix);
        assert(name@ =~= text::ascii_bytes(".directorysizes."@) + text::decimal(process as nat)
            + seq![path::DOT] + text::decimal(index as nat) + text::ascii_bytes(".tmp"@));
        self.directory.join(name.as_slice())
    }
}

impl Machine for WriteCache {
    type Output = ();

    open spec fn pending(state: WriteCacheView) -> RequestView {
        match state.phase {
            WritePhaseView::Process => RequestView::ProcessId,
            WritePhaseView::Create { process, index } => RequestView::CreateFile {
                path: state.temporary(process, index),
            },
            WritePhaseView::Write { process, index } => RequestView::WriteFile {
                path: state.temporary(process, index),
                contents: state.contents,
            },
            WritePhaseView::Replace { process, index } => RequestView::Rename {
                from: state.temporary(process, index),
                to: state.cache,
            },
            WritePhaseView::CleanUp { process, index, .. } => RequestView::RemoveFile {
                path: state.temporary(process, index),
            },
        }
    }

    open spec fn next(state: WriteCacheView, reply: ReplyView) -> Step<
        WriteCacheView,
        Result<(), ErrorView>,
    > {
        match (state.phase, reply) {
            (WritePhaseView::Process, ReplyView::Process(process)) => Step::Continue(
                state.with_phase(WritePhaseView::Create { process, index: 0 }),
            ),
            (WritePhaseView::Create { process, index }, ReplyView::Done) => Step::Continue(
                state.with_phase(WritePhaseView::Write { process, index }),
            ),
            (WritePhaseView::Create { process, index }, ReplyView::Failed(source)) => {
                if source.kind != ErrorKind::AlreadyExists {
                    Step::Finish(
                        Err(ErrorView::Io { path: state.temporary(process, index), source }),
                    )
                } else if index == usize::MAX {
                    Step::Finish(Err(trash_info::no_free_name(state.cache)))
                } else {
                    Step::Continue(
                        state.with_phase(
                            WritePhaseView::Create { process, index: (index + 1) as usize },
                        ),
                    )
                }
            },
            (WritePhaseView::Write { process, index }, ReplyView::Done) => Step::Continue(
                state.with_phase(WritePhaseView::Replace { process, index }),
            ),
            (WritePhaseView::Write { process, index }, ReplyView::Failed(source)) => {
                let path = state.temporary(process, index);
                Step::Continue(
                    state.with_phase(WritePhaseView::CleanUp { process, index, path, source }),
                )
            },
            (WritePhaseView::Replace { .. }, ReplyView::Done) => Step::Finish(Ok(())),
            (WritePhaseView::Replace { process, index }, ReplyView::Failed(source)) => {
                let path = state.cache;
                Step::Continue(
                    state.with_phase(WritePhaseView::CleanUp { process, index, path, source }),
                )
            },
            (WritePhaseView::CleanUp { path, source, .. }, ReplyView::Done) => Step::Finish(
                Err(ErrorView::Io { path, source }),
            ),
            (
                WritePhaseView::CleanUp { process, index, path, source },
                ReplyView::Failed(cleanup),
            ) => if cleanup.kind == ErrorKind::NotFound {
                Step::Finish(Err(ErrorView::Io { path, source }))
            } else {
                Step::Finish(
                    Err(
                        ErrorView::Io {
                            path: state.temporary(process, index),
                            source: cleanup,
                        },
                    ),
                )
            },
            _ => Step::Continue(state),
        }
    }

    proof fn other_replies_change_nothing(state: WriteCacheView, reply: ReplyView) {
    }

    fn request(&self) -> (request: Request) {
        match &self.phase {
            WritePhase::Process => Request::ProcessId,
            WritePhase::Create { process, index } => Request::CreateFile {
                path: self.temporary(*process, *index),
            },
            WritePhase::Write { process, index } => Request::WriteFile {
                path: self.temporary(*process, *index),
                contents: self.contents.clone(),
            },
            WritePhase::Replace { process, index } => Request::Rename {
                from: self.temporary(*process, *index),
                to: self.cache.clone(),
            },
            WritePhase::CleanUp { process, index, .. } => Request::RemoveFile {
                path: self.temporary(*process, *index),
            },
        }
    }

    fn step(self, reply: Reply) -> (step: Step<Self, Result<(), Error>>) {
        match (&self.phase, reply) {
            (WritePhase::Process, Reply::Process(process)) => Step::Continue(
                self.with_phase(WritePhase::Create { process, index: 0 }),
            ),
            (WritePhase::Create { process, index }, Reply::Done) => {
                let (process, index) = (*process, *index);
                Step::Continue(self.with_phase(WritePhase::Write { process, index }))
            },
            (WritePhase::Create { process, index }, Reply::Failed(source)) => {
                let (process, index) = (*process, *index);
                if source.kind != ErrorKind::AlreadyExists {
                    return Step::Finish(
                        Err(Error::Io { path: self.temporary(process, index), source }),
                    );
                }
                match next_collision_index(index, &self.cache) {
                    Ok(index) => Step::Continue(
                        self.with_phase(WritePhase::Create { process, index }),
                    ),
                    Err(error) => Step::Finish(Err(error)),
                }
            },
            (WritePhase::Write { process, index }, Reply::Done) => {
                let (process, index) = (*process, *index);
                Step::Continue(self.with_phase(WritePhase::Replace { process, index }))
            },
            (WritePhase::Write { process, index }, Reply::Failed(source)) => {
                let (process, index) = (*process, *index);
                let path = self.temporary(process, index);
                Step::Continue(
                    self.with_phase(WritePhase::CleanUp { process, index, path, source }),
                )
            },
            (WritePhase::Replace { .. }, Reply::Done) => Step::Finish(Ok(())),
            (WritePhase::Replace { process, index }, Reply::Failed(source)) => {
                let (process, index) = (*process, *index);
                let path = self.cache.clone();
                Step::Continue(
                    self.with_phase(WritePhase::CleanUp { process, index, path, source }),
                )
            },
            (WritePhase::CleanUp { path, source, .. }, Reply::Done) => Step::Finish(
                Err(Error::Io { path: path.clone(), source: source.clone() }),
            ),
            (
                WritePhase::CleanUp { process, index, path, source },
                Reply::Failed(cleanup),
            ) => {
                if cleanup.kind == ErrorKind::NotFound {
                    Step::Finish(Err(Error::Io { path: path.clone(), source: source.clone() }))
                } else {
                    let temporary = self.temporary(*process, *index);
                    Step::Finish(Err(Error::Io { path: temporary, source: cleanup }))
                }
            },
            _ => Step::Continue(self),
        }
    }
}

/// Puts the line of a discarded directory into the sizes file.
#[derive(Debug)]
pub enum UpdateCache {
    /// The disk space that the directory takes.
    Usage { cache: PathBuf, entry: ReservedTrashEntry, machine: DiskUsage },
    /// When the directory was discarded, which is when the file about it was written.
    Info { cache: PathBuf, entry: ReservedTrashEntry, size: u64 },
    /// What the sizes file holds.
    Read { cache: PathBuf, entry: ReservedTrashEntry, size: u64, mtime: i64 },
    /// The sizes file is written.
    Write(WriteCache),
}

/// What an [`UpdateCache`] has come to.
pub enum UpdateCacheView {
    Usage { cache: Seq<u8>, entry: ReservedTrashEntryView, machine: DiskUsageView },
    Info { cache: Seq<u8>, entry: ReservedTrashEntryView, size: u64 },
    Read { cache: Seq<u8>, entry: ReservedTrashEntryView, size: u64, mtime: i64 },
    Write(WriteCacheView),
}

impl View for UpdateCache {
    type V = UpdateCacheView;

    open spec fn view(&self) -> UpdateCacheView {
        match self {
            UpdateCache::Usage { cache, entry, machine } => UpdateCacheView::Usage {
                cache: cache@,
                entry: entry@,
                machine: machine@,
            },
            UpdateCache::Info { cache, entry, size } => UpdateCacheView::Info {
                cache: cache@,
                entry: entry@,
                size: *size,
            },
            UpdateCache::Read { cache, entry, size, mtime } => UpdateCacheView::Read {
                cache: cache@,
                entry: entry@,
                size: *size,
                mtime: *mtime,
            },
            UpdateCache::Write(machine) => UpdateCacheView::Write(machine@),
        }
    }
}

/// How the line of a discarded directory is put into a sizes file.
pub open spec fn update_at(cache: Seq<u8>, entry: ReservedTrashEntryView) -> UpdateCacheView {
    UpdateCacheView::Usage { cache, entry, machine: disk_usage::usage_start(entry.file) }
}

/// How the line of a discarded directory is put into the sizes file of a trash.
pub open spec fn update_start(trash: Seq<u8>, entry: ReservedTrashEntryView) -> UpdateCacheView {
    update_at(cache_path(trash), entry)
}

/// What comes of a step of the writing.
pub open spec fn writing(step: Step<WriteCacheView, Result<(), ErrorView>>) -> Step<
    UpdateCacheView,
    Result<(), ErrorView>,
> {
    match step {
        Step::Continue(machine) => Step::Continue(UpdateCacheView::Write(machine)),
        Step::Finish(result) => Step::Finish(result),
    }
}

/// The sizes file is written with the line of a directory put into what it holds.
pub open spec fn write_sizes(
    cache: Seq<u8>,
    entry: ReservedTrashEntryView,
    size: u64,
    mtime: i64,
    existing: Option<Seq<char>>,
) -> Step<UpdateCacheView, Result<(), ErrorView>> {
    writing(
        write_start(
            cache,
            sizes_with(existing, size, mtime, trash_info::percent_encoded(entry.name)),
        ),
    )
}

impl DirectorySizeCache {
    /// Starts to write the sizes file.
    pub fn write(&self, contents: String) -> (step: Step<WriteCache, Result<(), Error>>)
        ensures
            machine::step_view(step) == write_start(self.path@, contents@),
    {
        match self.path.parent() {
            Some(directory) => Step::Continue(
                WriteCache {
                    cache: self.path.clone(),
                    directory,
                    contents,
                    phase: WritePhase::Process,
                },
            ),
            None => {
                let message = "Directory size cache path has no parent: ".to_owned().concat(
                    to_lossy_text(self.path.as_bytes()).as_str(),
                );
                Step::Finish(Err(Error::Platform { path: self.path.clone(), message }))
            },
        }
    }

    /// Starts to measure the item of an entry.
    pub fn disk_usage(entry: &ReservedTrashEntry) -> (machine: DiskUsage)
        ensures
            machine@ == disk_usage::usage_start(entry@.file),
    {
        DiskUsage::start(entry.file.clone())
    }

    /// Starts to put the line of a discarded directory into the sizes file.
    pub fn update(self, entry: ReservedTrashEntry) -> (machine: UpdateCache)
        ensures
            machine@ == update_at(self.path@, entry@),
    {
        let machine = Self::disk_usage(&entry);
        UpdateCache::Usage { cache: self.path, entry, machine }
    }
}

impl UpdateCache {
    fn writing(step: Step<WriteCache, Result<(), Error>>) -> (wrapped: Step<
        Self,
        Result<(), Error>,
    >)
        ensures
            machine::step_view(wrapped) == writing(machine::step_view(step)),
    {
        match step {
            Step::Continue(machine) => Step::Continue(UpdateCache::Write(machine)),
            Step::Finish(result) => Step::Finish(result),
        }
    }

    fn write_sizes(
        cache: PathBuf,
        entry: ReservedTrashEntry,
        size: u64,
        mtime: i64,
        existing: Option<&str>,
    ) -> (step: Step<Self, Result<(), Error>>)
        ensures
            machine::step_view(step) == write_sizes(
                cache@,
                entry@,
                size,
                mtime,
                match existing {
                    Some(existing) => Some(existing@),
                    None => None,
                },
            ),
    {
        let name = percent_encode_path(&PathBuf::from_bytes(entry.name));
        let contents = DirectorySizeCache::contents(existing, size, mtime, name.as_str());
        Self::writing((DirectorySizeCache { path: cache }).write(contents))
    }
}

impl Machine for UpdateCache {
    type Output = ();

    open spec fn pending(state: UpdateCacheView) -> RequestView {
        match state {
            UpdateCacheView::Usage { machine, .. } => DiskUsage::pending(machine),
            UpdateCacheView::Info { entry, .. } => RequestView::Metadata { path: entry.info },
            UpdateCacheView::Read { cache, .. } => RequestView::ReadText { path: cache },
            UpdateCacheView::Write(machine) => WriteCache::pending(machine),
        }
    }

    open spec fn next(state: UpdateCacheView, reply: ReplyView) -> Step<
        UpdateCacheView,
        Result<(), ErrorView>,
    > {
        match (state, reply) {
            (UpdateCacheView::Usage { cache, entry, machine }, reply) => match DiskUsage::next(
                machine,
                reply,
            ) {
                Step::Continue(machine) => Step::Continue(
                    UpdateCacheView::Usage { cache, entry, machine },
                ),
                Step::Finish(Ok(size)) => Step::Continue(
                    UpdateCacheView::Info { cache, entry, size },
                ),
                Step::Finish(Err(error)) => Step::Finish(Err(error)),
            },
            (UpdateCacheView::Info { cache, entry, size }, ReplyView::Metadata(metadata)) => {
                Step::Continue(
                    UpdateCacheView::Read { cache, entry, size, mtime: metadata.mtime },
                )
            },
            (UpdateCacheView::Info { entry, .. }, ReplyView::Failed(source)) => Step::Finish(
                Err(ErrorView::Io { path: entry.info, source }),
            ),
            (UpdateCacheView::Read { cache, entry, size, mtime }, ReplyView::Text(existing)) => {
                write_sizes(cache, entry, size, mtime, Some(existing))
            },
            (UpdateCacheView::Read { cache, entry, size, mtime }, ReplyView::Failed(source)) => {
                if source.kind == ErrorKind::NotFound {
                    write_sizes(cache, entry, size, mtime, None)
                } else {
                    Step::Finish(Err(ErrorView::Io { path: cache, source }))
                }
            },
            (UpdateCacheView::Write(machine), reply) => writing(WriteCache::next(machine, reply)),
            _ => Step::Continue(state),
        }
    }

    proof fn other_replies_change_nothing(state: UpdateCacheView, reply: ReplyView) {
        match state {
            UpdateCacheView::Usage { machine, .. } => {
                DiskUsage::other_replies_change_nothing(machine, reply);
            },
            UpdateCacheView::Write(machine) => {
                WriteCache::other_replies_change_nothing(machine, reply);
            },
            _ => {},
        }
    }

    fn request(&self) -> (request: Request) {
        match self {
            UpdateCache::Usage { machine, .. } => machine.request(),
            UpdateCache::Info { entry, .. } => Request::Metadata { path: entry.info.clone() },
            UpdateCache::Read { cache, .. } => Request::ReadText { path: cache.clone() },
            UpdateCache::Write(machine) => machine.request(),
        }
    }

    fn step(self, reply: Reply) -> (step: Step<Self, Result<(), Error>>) {
        match (self, reply) {
            (UpdateCache::Usage { cache, entry, machine }, reply) => match machine.step(reply) {
                Step::Continue(machine) => Step::Continue(
                    UpdateCache::Usage { cache, entry, machine },
                ),
                Step::Finish(Ok(size)) => Step::Continue(
                    UpdateCache::Info { cache, entry, size },
                ),
                Step::Finish(Err(error)) => Step::Finish(Err(error)),
            },
            (UpdateCache::Info { cache, entry, size }, Reply::Metadata(metadata)) => {
                Step::Continue(UpdateCache::Read { cache, entry, size, mtime: metadata.mtime })
            },
            (UpdateCache::Info { entry, .. }, Reply::Failed(source)) => Step::Finish(
                Err(Error::Io { path: entry.info, source }),
            ),
            (UpdateCache::Read { cache, entry, size, mtime }, Reply::Text(existing)) => {
                Self::write_sizes(cache, entry, size, mtime, Some(existing.as_str()))
            },
            (UpdateCache::Read { cache, entry, size, mtime }, Reply::Failed(source)) => {
                if source.kind == ErrorKind::NotFound {
                    Self::write_sizes(cache, entry, size, mtime, None)
                } else {
                    Step::Finish(Err(Error::Io { path: cache, source }))
                }
            },
            (UpdateCache::Write(machine), reply) => Self::writing(machine.step(reply)),
            (machine, _) => Step::Continue(machine),
        }
    }
}

/// The line for a directory, without the newline behind it.
pub open spec fn size_fields(size: u64, mtime: i64, name: Seq<char>) -> Seq<char> {
    text::ascii_text(text::decimal(size as nat)) + seq![' '] + text::ascii_text(
        text::signed_decimal(mtime as int),
    ) + seq![' '] + name
}

/// The name is not empty and holds no white space.
pub open spec fn is_one_field(name: Seq<char>) -> bool {
    &&& name.len() > 0
    &&& forall|i: int| 0 <= i < name.len() ==> !is_space(#[trigger] name[i])
}

/// An encoded name is a single field of a line.
pub proof fn encoded_names_are_fields(name: Seq<u8>)
    requires
        name.len() > 0,
    ensures
        is_one_field(trash_info::percent_encoded(name)),
{
    trash_info::encoding_is_plain(name);
    assert(trash_info::encoded_byte(name.last()).len() > 0);
}

proof fn lemma_numbers_are_fields(size: u64, mtime: i64)
    ensures
        is_one_field(text::ascii_text(text::decimal(size as nat))),
        is_one_field(text::ascii_text(text::signed_decimal(mtime as int))),
{
    text::lemma_decimal_digits(size as nat);
    text::lemma_decimal_digits(mtime as nat);
    text::lemma_decimal_digits((-mtime) as nat);
}

proof fn lemma_size_fields(size: u64, mtime: i64, name: Seq<char>)
    requires
        is_one_field(name),
    ensures
        is_about(size_fields(size, mtime, name), name),
{
    let separates = |character: char| is_space(character);
    let first = text::ascii_text(text::decimal(size as nat));
    let second = text::ascii_text(text::signed_decimal(mtime as int));
    let rest = second.push(' ') + name;
    lemma_numbers_are_fields(size, mtime);
    assert(size_fields(size, mtime, name) =~= first.push(' ') + rest);
    text::lemma_split_at_separator(first, ' ', rest, separates);
    text::lemma_split_at_separator(second, ' ', name, separates);
    text::lemma_split_of_one_piece(first, separates);
    text::lemma_split_of_one_piece(second, separates);
    text::lemma_split_of_one_piece(name, separates);
    let pieces = text::split(size_fields(size, mtime, name), separates);
    assert(pieces =~= seq![first, second, name]);
    assert(pieces.drop_last() =~= seq![first, second]);
    assert(pieces.drop_last().drop_last() =~= seq![first]);
    assert(pieces.drop_last().drop_last().drop_last() =~= Seq::empty());
    reveal_with_fuel(text::without_empty, 4);
    assert(text::without_empty(pieces) =~= seq![first, second, name]);
}

proof fn lemma_other_lines(all: Seq<Seq<char>>, name: Seq<char>, tail: Seq<char>)
    requires
        forall|k: int, i: int|
            0 <= k < all.len() && 0 <= i < all[k].len() ==> !is_newline(#[trigger] all[k][i]),
    ensures
        text::split(other_lines(all, name) + tail, |character: char| is_newline(character))
            == all.filter(|line: Seq<char>| !is_about(line, name)) + text::split(
            tail,
            |character: char| is_newline(character),
        ),
    decreases all.len(),
{
    let separates = |character: char| is_newline(character);
    let kept = |line: Seq<char>| !is_about(line, name);
    reveal(Seq::filter);
    if all.len() == 0 {
        assert(other_lines(all, name) + tail =~= tail);
        assert(all.filter(kept) + text::split(tail, separates) =~= text::split(tail, separates));
    } else {
        let line = all.last();
        let rest = all.drop_last();
        assert forall|k: int, i: int|
            0 <= k < rest.len() && 0 <= i < rest[k].len() implies !is_newline(
            #[trigger] rest[k][i],
        ) by {
            assert(rest[k] == all[k]);
            assert(!is_newline(all[k][i]));
        }
        if is_about(line, name) {
            lemma_other_lines(rest, name, tail);
        } else {
            let more = line.push('\n') + tail;
            lemma_other_lines(rest, name, more);
            assert(other_lines(all, name) + tail =~= other_lines(rest, name) + more);
            text::lemma_split_at_separator(line, '\n', tail, separates);
            assert forall|i: int| 0 <= i < line.len() implies !separates(#[trigger] line[i]) by {
                assert(!is_newline(all[all.len() - 1][i]));
            }
            text::lemma_split_of_one_piece(line, separates);
            assert(all.filter(kept) + text::split(tail, separates) =~= rest.filter(kept) + (seq![
                line,
            ] + text::split(tail, separates)));
        }
    }
}

proof fn lemma_lines_hold_no_newline(text: Seq<char>)
    ensures
        forall|k: int, i: int|
            0 <= k < lines(text).len() && 0 <= i < lines(text)[k].len() ==> !is_newline(
                #[trigger] lines(text)[k][i],
            ),
{
    let separates = |character: char| is_newline(character);
    let pieces = text::split(text, separates);
    text::lemma_split_is_not_empty(text, separates);
    text::lemma_pieces_hold_no_separator(text, separates);
    assert forall|k: int, i: int|
        0 <= k < lines(text).len() && 0 <= i < lines(text)[k].len() implies !is_newline(
        #[trigger] lines(text)[k][i],
    ) by {
        assert(lines(text)[k][i] == pieces[k][i]);
        assert(!separates(pieces[k][i]));
    }
}

/// No line ends in a carriage return that would be taken for a part of the line's end.
pub open spec fn lines_end_plainly(lines: Seq<Seq<char>>) -> bool {
    forall|k: int| 0 <= k < lines.len() ==> without_return(#[trigger] lines[k]) == lines[k]
}

proof fn lemma_filter_ends_plainly(all: Seq<Seq<char>>, kept: spec_fn(Seq<char>) -> bool)
    requires
        lines_end_plainly(all),
    ensures
        lines_end_plainly(all.filter(kept)),
    decreases all.len(),
{
    reveal(Seq::filter);
    if all.len() > 0 {
        let rest = all.drop_last();
        assert forall|k: int| 0 <= k < rest.len() implies without_return(#[trigger] rest[k])
            == rest[k] by {
            assert(rest[k] == all[k]);
        }
        lemma_filter_ends_plainly(rest, kept);
        assert(without_return(all[all.len() - 1]) == all[all.len() - 1]);
    }
}

proof fn lemma_line_is_one_piece(size: u64, mtime: i64, name: Seq<char>)
    requires
        is_one_field(name),
    ensures
        text::split(
            size_fields(size, mtime, name),
            |character: char| is_newline(character),
        ) == seq![size_fields(size, mtime, name)],
{
    let separates = |character: char| is_newline(character);
    let line = size_fields(size, mtime, name);
    let first = text::ascii_text(text::decimal(size as nat));
    let second = text::ascii_text(text::signed_decimal(mtime as int));
    lemma_numbers_are_fields(size, mtime);
    assert forall|i: int| 0 <= i < line.len() implies !separates(#[trigger] line[i]) by {
        let before_name = first.len() + 1 + second.len() + 1;
        if i < first.len() {
            assert(line[i] == first[i]);
            assert(!is_space(first[i]));
        } else if first.len() < i < first.len() + 1 + second.len() {
            assert(line[i] == second[i - first.len() - 1]);
            assert(!is_space(second[i - first.len() - 1]));
        } else if i >= before_name {
            assert(line[i] == name[i - before_name]);
            assert(!is_space(name[i - before_name]));
        }
    }
    text::lemma_split_of_one_piece(line, separates);
}

/// A carriage return at the end of a line is white space, so that it does not matter to what the
/// line is about.
proof fn lemma_return_does_not_matter(line: Seq<char>, name: Seq<char>)
    ensures
        is_about(without_return(line), name) == is_about(line, name),
{
    let separates = |character: char| is_space(character);
    if line.len() > 0 && line.last() == '\r' {
        let pieces = text::split(line, separates);
        assert(pieces == text::split(line.drop_last(), separates).push(Seq::empty()));
        assert(pieces.drop_last() =~= text::split(line.drop_last(), separates));
    }
}

proof fn lemma_kept_lines(all: Seq<Seq<char>>, name: Seq<char>)
    ensures
        ({
            let kept = all.filter(|line: Seq<char>| !is_about(line, name));
            forall|k: int| 0 <= k < kept.len() ==> !is_about(#[trigger] kept[k], name)
        }),
    decreases all.len(),
{
    reveal(Seq::filter);
    if all.len() > 0 {
        lemma_kept_lines(all.drop_last(), name);
    }
}

/// Putting a directory into the sizes file keeps the lines about other directories, in their
/// order, and leaves exactly one line about this directory, at the end. A newline ends each line,
/// and nothing else does. The other lines stay as they are, unless one ends in a carriage return,
/// which is then taken for a part of the line's end.
pub proof fn updated_sizes_keep_other_lines(
    existing: Seq<char>,
    size: u64,
    mtime: i64,
    name: Seq<char>,
)
    requires
        is_one_field(name),
    ensures
        ({
            let kept = lines(existing).filter(|line: Seq<char>| !is_about(line, name));
            let line = size_fields(size, mtime, name);
            let after = lines(sizes_with(Some(existing), size, mtime, name));
            &&& after == kept.map_values(|line: Seq<char>| without_return(line)).push(line)
            &&& lines_end_plainly(lines(existing)) ==> after == kept.push(line)
            &&& is_about(line, name)
            &&& forall|k: int| 0 <= k < kept.len() ==> !is_about(#[trigger] after[k], name)
            &&& text::split(
                sizes_with(Some(existing), size, mtime, name),
                |character: char| character == '\n',
            ) == kept.push(line).push(Seq::empty())
            &&& line.push('\n') == sizes_with(None, size, mtime, name)
        }),
{
    let separates = |character: char| is_newline(character);
    let all = lines(existing);
    let kept = all.filter(|line: Seq<char>| !is_about(line, name));
    let line = size_fields(size, mtime, name);
    let whole = sizes_with(Some(existing), size, mtime, name);
    lemma_size_fields(size, mtime, name);
    lemma_lines_hold_no_newline(existing);
    lemma_other_lines(all, name, size_line(size, mtime, name));
    assert(size_line(size, mtime, name) =~= line.push('\n') + Seq::<char>::empty());
    text::lemma_split_at_separator(line, '\n', Seq::empty(), separates);
    text::lemma_split_of_one_piece(Seq::<char>::empty(), separates);
    lemma_numbers_are_fields(size, mtime);
    lemma_line_is_one_piece(size, mtime, name);
    let pieces = text::split(whole, separates);
    assert(pieces =~= kept.push(line).push(Seq::empty()));
    assert(pieces.drop_last() =~= kept.push(line));
    assert(without_return(line) == line) by {
        assert(line.last() == name.last());
        assert(!is_space(name[name.len() - 1]));
    }
    let plainly = |character: char| character == '\n';
    assert(plainly =~= separates);
    assert(line.push('\n') =~= size_line(size, mtime, name));
    let after = kept.map_values(|line: Seq<char>| without_return(line)).push(line);
    assert(lines(whole) =~= after);
    if lines_end_plainly(all) {
        lemma_filter_ends_plainly(all, |line: Seq<char>| !is_about(line, name));
        assert(after =~= kept.push(line));
    }
    lemma_kept_lines(all, name);
    assert forall|k: int| 0 <= k < kept.len() implies !is_about(
        #[trigger] lines(whole)[k],
        name,
    ) by {
        assert(after[k] == without_return(kept[k]));
        lemma_return_does_not_matter(kept[k], name);
    }
}

/// The path is that of a temporary file in the directory.
pub open spec fn is_temporary(directory: Seq<u8>, path: Seq<u8>) -> bool {
    exists|process: u32, index: usize| path == #[trigger] temporary_file(directory, process, index)
}

/// The request concerns the sizes file only in that a temporary file, which holds all of the
/// contents, takes its place.
pub open spec fn spares_the_sizes_file(
    past: Seq<Exchange>,
    request: RequestView,
    directory: Seq<u8>,
    cache: Seq<u8>,
    contents: Seq<char>,
) -> bool {
    match request {
        RequestView::CreateFile { path } => is_temporary(directory, path),
        RequestView::WriteFile { path, contents: written } => is_temporary(directory, path)
            && written == contents,
        RequestView::RemoveFile { path } => is_temporary(directory, path),
        RequestView::Rename { from, to } => to == cache && is_temporary(directory, from)
            && machine::was_done(past, RequestView::WriteFile { path: from, contents }),
        request => !request.changes_files(),
    }
}

/// All requests concern the sizes file only in that a temporary file, which holds all of the
/// contents, takes its place.
pub open spec fn sizes_file_is_spared(
    past: Seq<Exchange>,
    directory: Seq<u8>,
    cache: Seq<u8>,
    contents: Seq<char>,
) -> bool {
    forall|i: int|
        0 <= i < past.len() ==> spares_the_sizes_file(
            past.take(i),
            (#[trigger] past[i]).request,
            directory,
            cache,
            contents,
        )
}

spec fn writing_holds(
    start: WriteCacheView,
    stage: Stage<WriteCache>,
    past: Seq<Exchange>,
) -> bool {
    &&& sizes_file_is_spared(past, start.directory, start.cache, start.contents)
    &&& match stage {
        Step::Continue(state) => {
            &&& state.directory == start.directory
            &&& state.cache == start.cache
            &&& state.contents == start.contents
            &&& state.phase matches WritePhaseView::Replace { process, index }
                ==> machine::was_done(
                past,
                RequestView::WriteFile {
                    path: start.temporary(process, index),
                    contents: start.contents,
                },
            )
        },
        Step::Finish(Ok(_)) => exists|process: u32, index: usize|
            #![trigger start.temporary(process, index)]
            machine::was_done(
                past,
                RequestView::Rename { from: start.temporary(process, index), to: start.cache },
            ),
        Step::Finish(Err(_)) => true,
    }
}

proof fn lemma_writing_step(
    start: WriteCacheView,
    state: WriteCacheView,
    past: Seq<Exchange>,
    reply: ReplyView,
)
    requires
        writing_holds(start, Step::Continue(state), past),
    ensures
        writing_holds(
            start,
            WriteCache::next(state, reply),
            past.push(machine::exchange(WriteCache::pending(state), reply)),
        ),
{
    let last = machine::exchange(WriteCache::pending(state), reply);
    let more = past.push(last);
    machine::lemma_past_grows(past, last);
    match state.phase {
        WritePhaseView::Create { process, index } => {
            assert(is_temporary(start.directory, start.temporary(process, index)));
        },
        WritePhaseView::Write { process, index } => {
            assert(is_temporary(start.directory, start.temporary(process, index)));
        },
        WritePhaseView::Replace { process, index } => {
            assert(is_temporary(start.directory, start.temporary(process, index)));
        },
        WritePhaseView::CleanUp { process, index, .. } => {
            assert(is_temporary(start.directory, start.temporary(process, index)));
        },
        WritePhaseView::Process => {},
    }
    assert forall|i: int| 0 <= i < more.len() implies spares_the_sizes_file(
        more.take(i),
        (#[trigger] more[i]).request,
        start.directory,
        start.cache,
        start.contents,
    ) by {
        assert(more.take(i) =~= past.take(i));
        if i < past.len() {
            assert(more[i] == past[i]);
        } else {
            assert(past.take(i) =~= past);
        }
    }
}

/// Writing the sizes file never leaves it half written: it is replaced by a temporary file beside
/// it that holds all of the contents, and when the writing succeeds, that has happened.
pub proof fn sizes_file_is_replaced_whole(
    cache: Seq<u8>,
    contents: Seq<char>,
    directory: Seq<u8>,
    replies: Seq<ReplyView>,
)
    requires
        path::parent(cache) == Some(directory),
    ensures
        ({
            let past = machine::history::<WriteCache>(write_start(cache, contents), replies);
            let stage = machine::after::<WriteCache>(write_start(cache, contents), replies);
            &&& sizes_file_is_spared(past, directory, cache, contents)
            &&& stage matches Step::Finish(Ok(_)) ==> exists|process: u32, index: usize|
                #![trigger temporary_file(directory, process, index)]
                machine::was_done(
                    past,
                    RequestView::Rename {
                        from: temporary_file(directory, process, index),
                        to: cache,
                    },
                )
        }),
{
    let start = WriteCacheView { cache, directory, contents, phase: WritePhaseView::Process };
    let holds = |stage: Stage<WriteCache>, past: Seq<Exchange>| writing_holds(start, stage, past);
    assert(holds(Step::Continue(start), Seq::empty()));
    assert forall|state: WriteCacheView, past: Seq<Exchange>, reply: ReplyView|
        #![trigger holds(Step::Continue(state), past), WriteCache::next(state, reply)]
        holds(Step::Continue(state), past) implies holds(
        WriteCache::next(state, reply),
        past.push(machine::exchange(WriteCache::pending(state), reply)),
    ) by {
        lemma_writing_step(start, state, past, reply);
    }
    machine::lemma_invariant::<WriteCache>(Step::Continue(start), replies, holds);
    let past = machine::history::<WriteCache>(Step::Continue(start), replies);
    if let Step::Finish(Ok(_)) = machine::after::<WriteCache>(Step::Continue(start), replies) {
        let (process, index) = choose|process: u32, index: usize|
            #![trigger start.temporary(process, index)]
            machine::was_done(
                past,
                RequestView::Rename { from: start.temporary(process, index), to: start.cache },
            );
        assert(temporary_file(directory, process, index) == start.temporary(process, index));
    }
}

/// The text of a line comes before what ends it: a newline, with a carriage return before it or
/// not. The last line may have no newline behind it, and then a carriage return belongs to it.
pub proof fn lines_come_one_by_one(line: Seq<char>, rest: Seq<char>)
    requires
        !line.contains('\n'),
    ensures
        line.len() == 0 ==> lines(line) == Seq::<Seq<char>>::empty(),
        line.len() > 0 ==> lines(line) == seq![line],
        lines(line.push('\n') + rest) == seq![line] + lines(rest) || (line.len() > 0
            && line.last() == '\r'),
        line.len() > 0 && line.last() == '\r' ==> lines(line.push('\n') + rest) == seq![
            line.drop_last(),
        ] + lines(rest),
{
    let separates = |character: char| is_newline(character);
    assert forall|i: int| 0 <= i < line.len() implies !separates(#[trigger] line[i]) by {
        assert(line.contains(line[i]));
    }
    text::lemma_split_of_one_piece(line, separates);
    text::lemma_split_at_separator(line, '\n', rest, separates);
    text::lemma_split_is_not_empty(rest, separates);
    let single = text::split(line, separates);
    assert(single.drop_last() =~= Seq::empty());
    let all = text::split(line.push('\n') + rest, separates);
    let others = text::split(rest, separates);
    assert(all =~= seq![line] + others);
    assert(all.last() == others.last());
    assert(all.drop_last() =~= seq![line] + others.drop_last());
    assert(lines(line.push('\n') + rest) =~= seq![without_return(line)] + lines(rest));
    if line.len() > 0 {
        assert(lines(line) =~= seq![line]);
    } else {
        assert(lines(line) =~= Seq::empty());
    }
}

/// The character is ASCII white space.
pub open spec fn is_white(character: char) -> bool {
    seq![' ', '\t', '\n', '\x0c', '\r'].contains(character)
}

/// A line is about the directory that its third field names, where fields are what stands between
/// white space.
pub proof fn lines_are_about_their_third_field(line: Seq<char>, name: Seq<char>)
    ensures
        ({
            let fields = text::fields(line, |character: char| is_white(character));
            is_about(line, name) <==> fields.len() > 2 && fields[2] == name
        }),
{
    let white = |character: char| is_white(character);
    let space = |character: char| is_space(character);
    let marks = seq![' ', '\t', '\n', '\x0c', '\r'];
    assert(marks[0] == ' ' && marks[1] == '\t' && marks[2] == '\n' && marks[3] == '\x0c' && marks[4]
        == '\r');
    assert forall|character: char| #[trigger] white(character) == space(character) by {
        if marks.contains(character) {
            let k = choose|k: int| 0 <= k < marks.len() && marks[k] == character;
            assert(0 <= k < 5);
        }
    }
    assert(white =~= space);
}

/// The line for a directory has three fields: the size in bytes and the time in seconds, in
/// decimal, and the name. A newline ends it.
pub proof fn size_lines_tell_size_and_time(size: u64, mtime: i64, name: Seq<char>)
    requires
        is_one_field(name),
    ensures
        ({
            let line = sizes_with(None, size, mtime, name);
            let fields = text::fields(line, |character: char| is_white(character));
            &&& line.last() == '\n'
            &&& !line.drop_last().contains('\n')
            &&& fields.len() == 3
            &&& line == fields[0].push(' ') + fields[1].push(' ') + fields[2].push('\n')
            &&& trash_info::number_of(fields[0]) == Some(size as int)
            &&& mtime >= 0 ==> trash_info::number_of(fields[1]) == Some(mtime as int)
            &&& mtime < 0 ==> fields[1][0] == '-' && trash_info::number_of(fields[1].skip(1))
                == Some(-mtime as int)
            &&& fields[2] == name
        }),
{
    let white = |character: char| is_white(character);
    let line = size_fields(size, mtime, name);
    let first = text::ascii_text(text::decimal(size as nat));
    let second = text::ascii_text(text::signed_decimal(mtime as int));
    let rest = second.push(' ') + name;
    let marks = seq![' ', '\t', '\n', '\x0c', '\r'];
    assert(marks[0] == ' ' && marks[1] == '\t' && marks[2] == '\n' && marks[3] == '\x0c' && marks[4]
        == '\r');
    assert forall|character: char| #[trigger] white(character) == is_space(character) by {
        if marks.contains(character) {
            let k = choose|k: int| 0 <= k < marks.len() && marks[k] == character;
            assert(0 <= k < 5);
        }
    }
    lemma_numbers_are_fields(size, mtime);
    assert(white(' '));
    assert(white('\n'));
    let whole = sizes_with(None, size, mtime, name);
    assert(line =~= first.push(' ') + rest);
    assert(whole =~= line.push('\n') + Seq::<char>::empty());
    assert(whole.drop_last() =~= line);
    text::fields_at_separator(line, '\n', Seq::empty(), white);
    text::fields_at_separator(first, ' ', rest, white);
    text::fields_at_separator(second, ' ', name, white);
    text::fields_of_one_piece(first, white);
    text::fields_of_one_piece(second, white);
    text::fields_of_one_piece(name, white);
    text::fields_of_one_piece(Seq::<char>::empty(), white);
    let fields = text::fields(whole, white);
    assert(fields =~= seq![first, second, name]);
    assert(whole =~= first.push(' ') + second.push(' ') + name.push('\n'));
    text::decimals_are_read_back(size as nat);
    trash_info::lemma_number_of(text::decimal(size as nat));
    text::signed_decimals_are_read_back(mtime as int);
    if mtime >= 0 {
        trash_info::lemma_number_of(text::signed_decimal(mtime as int));
    } else {
        let digits = text::signed_decimal(mtime as int).skip(1);
        trash_info::lemma_number_of(digits);
        assert(second.skip(1) =~= text::ascii_text(digits));
        assert(second[0] == '-');
    }
    lemma_line_is_one_piece(size, mtime, name);
    text::lemma_pieces_hold_no_separator(line, |character: char| is_newline(character));
    if line.contains('\n') {
        let i = choose|i: int| 0 <= i < line.len() && line[i] == '\n';
        let pieces = text::split(line, |character: char| is_newline(character));
        assert(!is_newline(pieces[0][i]));
    }
}

/// The system told when the file about the item was changed.
pub open spec fn is_time_told(past: Seq<Exchange>, info: Seq<u8>, mtime: i64) -> bool {
    exists|metadata: Metadata|
        metadata.mtime == mtime && #[trigger] past.contains(
            machine::exchange(
                RequestView::Metadata { path: info },
                ReplyView::Metadata(metadata),
            ),
        )
}

/// The system told what the sizes file holds, or that there is none.
pub open spec fn is_text_told(
    past: Seq<Exchange>,
    cache: Seq<u8>,
    existing: Option<Seq<char>>,
) -> bool {
    match existing {
        Some(existing) => past.contains(
            machine::exchange(RequestView::ReadText { path: cache }, ReplyView::Text(existing)),
        ),
        None => exists|source: IoErrorView|
            source.kind == ErrorKind::NotFound && #[trigger] past.contains(
                machine::exchange(
                    RequestView::ReadText { path: cache },
                    ReplyView::Failed(source),
                ),
            ),
    }
}

/// The item was measured in the first exchanges, and has this size.
pub open spec fn is_measured(past: Seq<Exchange>, file: Seq<u8>, size: u64) -> bool {
    exists|count: int|
        0 <= count <= past.len() && #[trigger] disk_usage::is_size_of(past.take(count), file, size)
}

/// The contents are what the sizes file held, with the line of the item put in: its size as it was
/// measured, the time of the file about it, and its encoded name.
pub open spec fn are_new_contents(
    past: Seq<Exchange>,
    cache: Seq<u8>,
    entry: ReservedTrashEntryView,
    contents: Seq<char>,
) -> bool {
    exists|size: u64, mtime: i64, existing: Option<Seq<char>>| #[trigger]
        is_put_in(past, cache, entry, contents, size, mtime, existing)
}

/// The contents are what the sizes file held, with this line of the item put in.
pub open spec fn is_put_in(
    past: Seq<Exchange>,
    cache: Seq<u8>,
    entry: ReservedTrashEntryView,
    contents: Seq<char>,
    size: u64,
    mtime: i64,
    existing: Option<Seq<char>>,
) -> bool {
    &&& is_measured(past, entry.file, size)
    &&& is_time_told(past, entry.info, mtime)
    &&& is_text_told(past, cache, existing)
    &&& contents == sizes_with(existing, size, mtime, trash_info::percent_encoded(entry.name))
}

/// The sizes file was replaced by a file that was written with the line of the item put in.
pub open spec fn is_noted(
    past: Seq<Exchange>,
    cache: Seq<u8>,
    entry: ReservedTrashEntryView,
) -> bool {
    exists|temporary: Seq<u8>, contents: Seq<char>| #[trigger]
        is_replaced(past, cache, temporary, contents) && are_new_contents(
            past,
            cache,
            entry,
            contents,
        )
}

/// The sizes file was replaced by a file that was written with these contents.
pub open spec fn is_replaced(
    past: Seq<Exchange>,
    cache: Seq<u8>,
    temporary: Seq<u8>,
    contents: Seq<char>,
) -> bool {
    &&& machine::was_done(past, RequestView::WriteFile { path: temporary, contents })
    &&& machine::was_done(past, RequestView::Rename { from: temporary, to: cache })
}

/// The path is the one to name when the request fails: the sizes file where a new one cannot take
/// its place, and else what the request is about. What is read of a directory names none itself.
pub open spec fn is_to_name(request: RequestView, path: Seq<u8>) -> bool {
    match request {
        RequestView::Rename { to, .. } => to == path,
        RequestView::NextEntry => true,
        _ => machine::is_about(request, path),
    }
}

/// The system failed at something, other than that there is no sizes file, that a temporary file is
/// there already, or that one that is to be removed is gone.
pub open spec fn has_failed(past: Seq<Exchange>, path: Seq<u8>, source: IoErrorView) -> bool {
    exists|request: RequestView| #[trigger]
        past.contains(machine::exchange(request, ReplyView::Failed(source))) && is_to_name(
            request,
            path,
        ) && !machine::is_expected(request, source.kind) && (request is ReadText ==> source.kind
            != ErrorKind::NotFound)
}

/// The size does not fit.
pub open spec fn is_too_large(past: Seq<Exchange>) -> bool {
    exists|count: int|
        0 <= count <= past.len() && #[trigger] disk_usage::space_seen(past.take(count)) > u64::MAX
}

/// A temporary file with the largest number is there already.
pub open spec fn is_last_taken(past: Seq<Exchange>, directory: Seq<u8>) -> bool {
    exists|process: u32, source: IoErrorView|
        source.kind == ErrorKind::AlreadyExists && #[trigger] past.contains(
            machine::exchange(
                RequestView::CreateFile { path: temporary_file(directory, process, usize::MAX) },
                ReplyView::Failed(source),
            ),
        )
}

/// Why the line of an item could not be put into the sizes file: the system failed, the size does
/// not fit, no name is free for a temporary file, or the sizes file has no parent.
pub open spec fn is_update_fault(past: Seq<Exchange>, cache: Seq<u8>, error: ErrorView) -> bool {
    match error {
        ErrorView::Io { path, source } => has_failed(past, path, source),
        ErrorView::Platform { path, message } => {
            ||| is_too_large(past) && message == "Directory size overflow for "@
                + text::lossy_text(path)
            ||| path == cache && message == "Could not find available trash name for "@
                + text::lossy_text(cache) && (path::parent(cache) matches Some(directory)
                && is_last_taken(past, directory))
            ||| path == cache && message == "Directory size cache path has no parent: "@
                + text::lossy_text(cache) && path::parent(cache) is None
        },
        _ => false,
    }
}

/// What holds while the line of an item is put into the sizes file.
pub open spec fn update_holds(
    cache: Seq<u8>,
    entry: ReservedTrashEntryView,
    stage: Stage<UpdateCache>,
    past: Seq<Exchange>,
) -> bool {
    match stage {
        Step::Continue(UpdateCacheView::Usage { cache: file, entry: item, machine }) => {
            &&& file == cache
            &&& item == entry
            &&& disk_usage::usage_holds(entry.file, Step::Continue(machine), past)
        },
        Step::Continue(UpdateCacheView::Info { cache: file, entry: item, size }) => {
            &&& file == cache
            &&& item == entry
            &&& is_measured(past, entry.file, size)
        },
        Step::Continue(UpdateCacheView::Read { cache: file, entry: item, size, mtime }) => {
            &&& file == cache
            &&& item == entry
            &&& is_measured(past, entry.file, size)
            &&& is_time_told(past, entry.info, mtime)
        },
        Step::Continue(UpdateCacheView::Write(machine)) => {
            &&& machine.cache == cache
            &&& path::parent(cache) == Some(machine.directory)
            &&& are_new_contents(past, cache, entry, machine.contents)
            &&& machine.phase matches WritePhaseView::Replace { process, index }
                ==> machine::was_done(
                past,
                RequestView::WriteFile {
                    path: machine.temporary(process, index),
                    contents: machine.contents,
                },
            )
            &&& machine.phase matches WritePhaseView::CleanUp { path, source, .. } ==> has_failed(
                past,
                path,
                source,
            )
        },
        Step::Finish(Ok(_)) => is_noted(past, cache, entry),
        Step::Finish(Err(error)) => is_update_fault(past, cache, error),
    }
}

proof fn lemma_told_stays(
    past: Seq<Exchange>,
    last: Exchange,
    cache: Seq<u8>,
    entry: ReservedTrashEntryView,
)
    ensures
        forall|size: u64| #[trigger]
            is_measured(past, entry.file, size) ==> is_measured(past.push(last), entry.file, size),
        forall|mtime: i64| #[trigger]
            is_time_told(past, entry.info, mtime) ==> is_time_told(
                past.push(last),
                entry.info,
                mtime,
            ),
        forall|contents: Seq<char>| #[trigger]
            are_new_contents(past, cache, entry, contents) ==> are_new_contents(
                past.push(last),
                cache,
                entry,
                contents,
            ),
        forall|path: Seq<u8>, source: IoErrorView| #[trigger]
            has_failed(past, path, source) ==> has_failed(past.push(last), path, source),
{
    let more = past.push(last);
    machine::lemma_past_grows(past, last);
    assert forall|size: u64| #[trigger] is_measured(past, entry.file, size) implies is_measured(
        more,
        entry.file,
        size,
    ) by {
        let count = choose|count: int|
            0 <= count <= past.len() && #[trigger] disk_usage::is_size_of(
                past.take(count),
                entry.file,
                size,
            );
        assert(more.take(count) =~= past.take(count));
    }
    assert forall|mtime: i64| #[trigger] is_time_told(past, entry.info, mtime) implies is_time_told(
        more,
        entry.info,
        mtime,
    ) by {
        let metadata = choose|metadata: Metadata|
            metadata.mtime == mtime && #[trigger] past.contains(
                machine::exchange(
                    RequestView::Metadata { path: entry.info },
                    ReplyView::Metadata(metadata),
                ),
            );
        assert(more.contains(
            machine::exchange(
                RequestView::Metadata { path: entry.info },
                ReplyView::Metadata(metadata),
            ),
        ));
    }
    assert forall|existing: Option<Seq<char>>| #[trigger]
        is_text_told(past, cache, existing) implies is_text_told(more, cache, existing) by {
        if existing is None {
            let source = choose|source: IoErrorView|
                source.kind == ErrorKind::NotFound && #[trigger] past.contains(
                    machine::exchange(
                        RequestView::ReadText { path: cache },
                        ReplyView::Failed(source),
                    ),
                );
            assert(more.contains(
                machine::exchange(
                    RequestView::ReadText { path: cache },
                    ReplyView::Failed(source),
                ),
            ));
        }
    }
    assert forall|contents: Seq<char>| #[trigger]
        are_new_contents(past, cache, entry, contents) implies are_new_contents(
        more,
        cache,
        entry,
        contents,
    ) by {
        let (size, mtime, existing) = choose|
            size: u64,
            mtime: i64,
            existing: Option<Seq<char>>,
        | #[trigger]
            is_put_in(past, cache, entry, contents, size, mtime, existing);
        assert(is_put_in(more, cache, entry, contents, size, mtime, existing));
    }
    assert forall|path: Seq<u8>, source: IoErrorView| #[trigger]
        has_failed(past, path, source) implies has_failed(more, path, source) by {
        let request = choose|request: RequestView| #[trigger]
            past.contains(machine::exchange(request, ReplyView::Failed(source)))
                && is_to_name(request, path) && !machine::is_expected(request, source.kind) && (
            request is ReadText ==> source.kind != ErrorKind::NotFound);
        assert(more.contains(machine::exchange(request, ReplyView::Failed(source))));
    }
}

proof fn lemma_sizes_written(
    past: Seq<Exchange>,
    cache: Seq<u8>,
    entry: ReservedTrashEntryView,
    size: u64,
    mtime: i64,
    existing: Option<Seq<char>>,
)
    requires
        is_measured(past, entry.file, size),
        is_time_told(past, entry.info, mtime),
        is_text_told(past, cache, existing),
    ensures
        update_holds(cache, entry, write_sizes(cache, entry, size, mtime, existing), past),
{
    let contents = sizes_with(existing, size, mtime, trash_info::percent_encoded(entry.name));
    assert(is_put_in(past, cache, entry, contents, size, mtime, existing));
}

/// Putting the line of an item into the sizes file keeps to what holds of it.
pub proof fn lemma_update_step(
    cache: Seq<u8>,
    entry: ReservedTrashEntryView,
    state: UpdateCacheView,
    past: Seq<Exchange>,
    reply: ReplyView,
)
    requires
        update_holds(cache, entry, Step::Continue(state), past),
    ensures
        update_holds(
            cache,
            entry,
            UpdateCache::next(state, reply),
            past.push(machine::exchange(UpdateCache::pending(state), reply)),
        ),
{
    let last = machine::exchange(UpdateCache::pending(state), reply);
    let more = past.push(last);
    machine::lemma_past_grows(past, last);
    lemma_told_stays(past, last, cache, entry);
    if let ReplyView::Failed(source) = reply {
        assert(more.contains(machine::exchange(last.request, ReplyView::Failed(source))));
        assert forall|path: Seq<u8>|
            is_to_name(last.request, path) && !machine::is_expected(last.request, source.kind) && (
            last.request is ReadText ==> source.kind != ErrorKind::NotFound) implies
            #[trigger] has_failed(more, path, source) by {
        }
    }
    match state {
        UpdateCacheView::Usage { machine, .. } => {
            disk_usage::lemma_usage_step(entry.file, machine, past, reply);
            match DiskUsage::next(machine, reply) {
                Step::Finish(result) => {
                    disk_usage::lemma_usage_start(entry.file, more, result);
                    match result {
                        Ok(size) => {
                            assert(more.take(more.len() as int) =~= more);
                            assert(is_measured(more, entry.file, size));
                        },
                        Err(ErrorView::Io { source, .. }) => {
                            assert(more.last() == last);
                            assert(reply == ReplyView::Failed(source));
                        },
                        Err(_) => {
                            assert(more.take(more.len() as int) =~= more);
                            assert(is_too_large(more));
                        },
                    }
                },
                Step::Continue(_) => {},
            }
        },
        UpdateCacheView::Info { .. } => {
            if let ReplyView::Metadata(metadata) = reply {
                assert(more.contains(
                    machine::exchange(
                        RequestView::Metadata { path: entry.info },
                        ReplyView::Metadata(metadata),
                    ),
                ));
                assert(is_time_told(more, entry.info, metadata.mtime));
            }
        },
        UpdateCacheView::Read { size, mtime, .. } => {
            match reply {
                ReplyView::Text(existing) => {
                    assert(is_text_told(more, cache, Some(existing)));
                    lemma_sizes_written(more, cache, entry, size, mtime, Some(existing));
                },
                ReplyView::Failed(source) => {
                    if source.kind == ErrorKind::NotFound {
                        assert(more.contains(
                            machine::exchange(
                                RequestView::ReadText { path: cache },
                                ReplyView::Failed(source),
                            ),
                        ));
                        assert(is_text_told(more, cache, None));
                        lemma_sizes_written(more, cache, entry, size, mtime, None);
                    }
                },
                _ => {},
            }
        },
        UpdateCacheView::Write(machine) => {
            match (machine.phase, reply) {
                (WritePhaseView::Replace { process, index }, ReplyView::Done) => {
                    let temporary = machine.temporary(process, index);
                    assert(is_replaced(more, cache, temporary, machine.contents));
                    assert(is_noted(more, cache, entry));
                },
                (WritePhaseView::Create { process, index }, ReplyView::Failed(source)) => {
                    if source.kind == ErrorKind::AlreadyExists && index == usize::MAX {
                        assert(more.contains(
                            machine::exchange(
                                RequestView::CreateFile {
                                    path: temporary_file(machine.directory, process, usize::MAX),
                                },
                                ReplyView::Failed(source),
                            ),
                        ));
                        assert(is_last_taken(more, machine.directory));
                    }
                },
                _ => {},
            }
        },
    }
}

/// Putting the line of an item into the sizes file holds to what it is for when it starts.
pub proof fn lemma_update_starts(trash: Seq<u8>, entry: ReservedTrashEntryView)
    ensures
        update_holds(
            cache_path(trash),
            entry,
            Step::Continue(update_start(trash, entry)),
            Seq::empty(),
        ),
{
    disk_usage::lemma_usage_start(entry.file, Seq::empty(), Ok(0));
}

/// When the line of an item was put into the sizes file, that was replaced by a file that holds
/// what it held before, with one line for the item: its size is the one that was measured, of the
/// item and all that is below it, and its time is that of the file about it. This fails only where
/// the system fails, or where there is no room for the size or for a file.
pub proof fn sizes_are_noted_as_measured(
    trash: Seq<u8>,
    entry: ReservedTrashEntryView,
    replies: Seq<ReplyView>,
)
    ensures
        ({
            let start = Step::Continue(update_start(trash, entry));
            let past = machine::history::<UpdateCache>(start, replies);
            match machine::after::<UpdateCache>(start, replies) {
                Step::Finish(Ok(_)) => is_noted(past, cache_path(trash), entry),
                Step::Finish(Err(error)) => is_update_fault(past, cache_path(trash), error),
                Step::Continue(_) => true,
            }
        }),
{
    let start = Step::Continue(update_start(trash, entry));
    let cache = cache_path(trash);
    let holds = |stage: Stage<UpdateCache>, past: Seq<Exchange>|
        update_holds(cache, entry, stage, past);
    lemma_update_starts(trash, entry);
    assert(holds(start, Seq::empty()));
    assert forall|state: UpdateCacheView, past: Seq<Exchange>, reply: ReplyView|
        #![trigger holds(Step::Continue(state), past), UpdateCache::next(state, reply)]
        holds(Step::Continue(state), past) implies holds(
        UpdateCache::next(state, reply),
        past.push(machine::exchange(UpdateCache::pending(state), reply)),
    ) by {
        lemma_update_step(cache, entry, state, past, reply);
    }
    machine::lemma_invariant::<UpdateCache>(start, replies, holds);
}

/// The sizes file is the file `directorysizes` in the trash.
pub proof fn sizes_file_is_in_the_trash(trash: Seq<u8>)
    ensures
        path::file_name(cache_path(trash)) == Some(text::ascii_bytes("directorysizes"@)),
        path::parent(cache_path(trash)) matches Some(directory) && path::components(directory)
            == path::components(trash),
{
    reveal_strlit("directorysizes");
    let name = text::ascii_bytes("directorysizes"@);
    assert(name.len() == 14);
    assert(path::is_entry_name(name));
    path::a_joined_name_is_the_file_name(trash, name);
}

/// Every answer leads on.
pub proof fn answers_lead_on(state: WriteCacheView, reply: ReplyView)
    requires
        machine::fits(WriteCache::pending(state), reply),
    ensures
        WriteCache::next(state, reply) matches Step::Continue(next) ==> next != state,
{
}

/// A temporary file lies in the directory that it is for, and has a name of its own for each
/// process and each number.
pub proof fn temporary_files_have_names_of_their_own(
    directory: Seq<u8>,
    process: u32,
    index: usize,
)
    ensures
        ({
            let file = temporary_file(directory, process, index);
            let first = text::decimal(process as nat);
            let second = text::decimal(index as nat);
            &&& path::file_name(file) == Some(
                text::ascii_bytes(".directorysizes."@) + first.push(0x2e) + second
                    + text::ascii_bytes(".tmp"@),
            )
            &&& path::components(file) == path::components(directory).push(
                path::Component::Name(path::file_name(file)->0),
            )
        }),
{
    reveal_strlit(".directorysizes.");
    reveal_strlit(".tmp");
    let first = text::decimal(process as nat);
    let second = text::decimal(index as nat);
    let start = text::ascii_bytes(".directorysizes."@);
    let end = text::ascii_bytes(".tmp"@);
    let name = start + first + seq![path::DOT] + second + end;
    text::lemma_decimal_digits(process as nat);
    text::lemma_decimal_digits(index as nat);
    assert(name =~= start + first.push(0x2e) + second + end);
    assert(start.len() == 16 && end.len() == 4);
    assert(!name.contains(path::SEPARATOR)) by {
        if name.contains(path::SEPARATOR) {
            let i = choose|i: int| 0 <= i < name.len() && name[i] == path::SEPARATOR;
            let stop = 16 + first.len() as int;
            if i >= 16 && i < stop {
                assert(name[i] == first[i - 16]);
            } else if i > stop && i <= stop + second.len() {
                assert(name[i] == second[i - stop - 1]);
            } else if i > stop + second.len() {
                assert(name[i] == end[i - stop - 1 - second.len()]);
            } else if i < 16 {
                assert(name[i] == start[i]);
            }
        }
    }
    path::a_joined_name_is_the_file_name(directory, name);
}

} // verus!
