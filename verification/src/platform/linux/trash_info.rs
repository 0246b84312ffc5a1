//! What a trash keeps of an item: where it was, and when it was discarded.

use vstd::arithmetic::power;
use vstd::prelude::*;
use vstd::slice::slice_to_vec;

use crate::clock::{CivilTime, LocalTime};
use crate::error::{Error, ErrorKind, ErrorView, IoError, IoErrorView};
use crate::machine::{
    self, Exchange, Machine, Metadata, Reply, ReplyView, Request, RequestView, Stage, Step,
};
use crate::path::{self, PathBuf};
use crate::platform::linux::location::{self, TrashLocation, TrashLocationView};
use crate::platform::linux::prepare::{TrashDirectory, TrashDirectoryView};
use crate::text::{
    self, push_ascii, push_decimal, push_padded_decimal, to_ascii_bytes, to_lossy_text,
};

verus! {

/// The byte stands for itself in an encoded path: it is an ASCII letter or digit, or one of
/// `- _ . ! ~ * ' ( )`.
pub open spec fn is_unreserved(byte: u8) -> bool {
    ||| 0x41 <= byte <= 0x5a
    ||| 0x61 <= byte <= 0x7a
    ||| 0x30 <= byte <= 0x39
    ||| byte == 0x2d
    ||| byte == 0x5f
    ||| byte == 0x2e
    ||| byte == 0x21
    ||| byte == 0x7e
    ||| byte == 0x2a
    ||| byte == 0x27
    ||| byte == 0x28
    ||| byte == 0x29
}

/// The hexadecimal digit for a number below sixteen.
pub open spec fn hex_digit(value: int) -> char {
    if value < 10 {
        (0x30 + value) as char
    } else {
        (0x41 + value - 10) as char
    }
}

/// How an encoded path writes a byte: as itself, or as `%` and two hexadecimal digits.
pub open spec fn encoded_byte(byte: u8) -> Seq<char> {
    if byte == path::SEPARATOR || is_unreserved(byte) {
        seq![byte as char]
    } else {
        seq!['%', hex_digit(byte as int / 16), hex_digit(byte as int % 16)]
    }
}

/// How an encoded path writes a sequence of bytes.
pub open spec fn percent_encoded(bytes: Seq<u8>) -> Seq<char>
    decreases bytes.len(),
{
    if bytes.len() == 0 {
        Seq::empty()
    } else {
        percent_encoded(bytes.drop_last()) + encoded_byte(bytes.last())
    }
}

/// Tells whether a byte stands for itself in an encoded path.
pub fn is_unreserved_url_byte(byte: u8) -> (unreserved: bool)
    ensures
        unreserved == is_unreserved(byte),
{
    (0x41 <= byte && byte <= 0x5a) || (0x61 <= byte && byte <= 0x7a) || (0x30 <= byte && byte
        <= 0x39) || byte == 0x2d || byte == 0x5f || byte == 0x2e || byte == 0x21 || byte == 0x7e
        || byte == 0x2a || byte == 0x27 || byte == 0x28 || byte == 0x29
}

fn push_hex_digit(output: &mut String, value: u8)
    requires
        value < 16,
    ensures
        final(output)@ == old(output)@.push(hex_digit(value as int)),
{
    if value < 10 {
        output.push((0x30 + value) as char);
    } else {
        output.push((0x41 + (value - 10)) as char);
    }
}

/// Appends `%` and the two hexadecimal digits of a byte.
pub fn push_percent_encoded_byte(output: &mut String, byte: u8)
    ensures
        final(output)@ == old(output)@ + seq![
            '%',
            hex_digit(byte as int / 16),
            hex_digit(byte as int % 16),
        ],
{
    output.push('%');
    push_hex_digit(output, byte / 16);
    push_hex_digit(output, byte % 16);
    assert(output@ =~= old(output)@ + seq![
        '%',
        hex_digit(byte as int / 16),
        hex_digit(byte as int % 16),
    ]);
}

/// How a trash writes a path.
pub fn percent_encode_path(path: &PathBuf) -> (encoded: String)
    ensures
        encoded@ == percent_encoded(path@),
{
    let bytes = path.as_bytes();
    let mut encoded = String::new();
    let mut i: usize = 0;
    assert(bytes@.take(0).len() == 0);
    while i < bytes.len()
        invariant
            i <= bytes@.len(),
            encoded@ == percent_encoded(bytes@.take(i as int)),
        decreases bytes@.len() - i,
    {
        let byte = bytes[i];
        let ghost before = encoded@;
        assert(bytes@.take(i + 1).drop_last() =~= bytes@.take(i as int));
        if byte == path::SEPARATOR || is_unreserved_url_byte(byte) {
            encoded.push(byte as char);
            assert(encoded@ =~= before + seq![byte as char]);
        } else {
            push_percent_encoded_byte(&mut encoded, byte);
        }
        i = i + 1;
    }
    assert(bytes@.take(bytes@.len() as int) =~= bytes@);
    encoded
}

/// The year with four digits, or a sign and three where it is negative and has no more.
pub open spec fn year_text(year: int) -> Seq<u8> {
    if year >= 0 {
        text::padded_decimal(year as nat, 4)
    } else if year > -1000 {
        seq![0x2du8] + text::padded_decimal((-year) as nat, 3)
    } else {
        seq![0x2du8] + text::padded_decimal((-year) as nat, 4)
    }
}

/// The date and the time of day, as in `2026-05-23T16:50:00`.
pub open spec fn date_text(civil: CivilTime) -> Seq<u8> {
    year_text(civil.year as int) + seq![0x2du8] + text::padded_decimal(civil.month as nat, 2)
        + seq![0x2du8] + text::padded_decimal(civil.day as nat, 2) + seq![0x54u8]
        + text::padded_decimal(civil.hour as nat, 2) + seq![0x3au8] + text::padded_decimal(
        civil.minute as nat,
        2,
    ) + seq![0x3au8] + text::padded_decimal(civil.second as nat, 2)
}

/// The text that a trash keeps of an item.
pub open spec fn info_text(original_location: Seq<u8>, discarded_at: CivilTime) -> Seq<char> {
    "[Trash Info]\nPath="@ + percent_encoded(original_location) + "\nDeletionDate="@
        + text::ascii_text(date_text(discarded_at)) + "\n"@
}

/// The text that a trash keeps of an item.
pub fn trash_info_contents(original_location: &PathBuf, discarded_at: &LocalTime) -> (text: String)
    ensures
        text@ == info_text(original_location@, discarded_at.civil()),
{
    let civil = discarded_at.civil_time();
    let mut date: Vec<u8> = Vec::new();
    if civil.year >= 0 {
        push_padded_decimal(&mut date, civil.year as u32, 4);
    } else {
        date.push(0x2d);
        let year: u32 = (-civil.year) as u32;
        push_padded_decimal(&mut date, year, if year < 1000 { 3 } else { 4 });
    }
    assert(date@ =~= year_text(civil.year as int));
    date.push(0x2d);
    push_padded_decimal(&mut date, civil.month as u32, 2);
    date.push(0x2d);
    push_padded_decimal(&mut date, civil.day as u32, 2);
    date.push(0x54);
    push_padded_decimal(&mut date, civil.hour as u32, 2);
    date.push(0x3a);
    push_padded_decimal(&mut date, civil.minute as u32, 2);
    date.push(0x3a);
    push_padded_decimal(&mut date, civil.second as u32, 2);
    assert(date@ =~= date_text(civil));
    let mut text = "[Trash Info]\nPath=".to_owned().concat(
        percent_encode_path(original_location).as_str(),
    ).concat("\nDeletionDate=");
    push_ascii(&mut text, date.as_slice());
    text.concat("\n")
}

/// A place in a trash that is kept for an item.
#[derive(Debug, PartialEq, Eq)]
pub struct ReservedTrashEntry {
    /// The name of the item in the trash.
    pub name: Vec<u8>,
    /// Where the item goes.
    pub file: PathBuf,
    /// The file that holds what is known of the item.
    pub info: PathBuf,
}

/// What a [`ReservedTrashEntry`] says.
pub struct ReservedTrashEntryView {
    pub name: Seq<u8>,
    pub file: Seq<u8>,
    pub info: Seq<u8>,
}

impl View for ReservedTrashEntry {
    type V = ReservedTrashEntryView;

    open spec fn view(&self) -> ReservedTrashEntryView {
        ReservedTrashEntryView { name: self.name@, file: self.file@, info: self.info@ }
    }
}

impl Clone for ReservedTrashEntry {
    fn clone(&self) -> (copy: Self)
        ensures
            copy@ == self@,
    {
        ReservedTrashEntry {
            name: slice_to_vec(self.name.as_slice()),
            file: self.file.clone(),
            info: self.info.clone(),
        }
    }
}

/// The name of an item in the trash: its own, with a number behind it where that is taken.
pub open spec fn entry_name(original_name: Seq<u8>, index: nat) -> Seq<u8> {
    if index == 0 {
        original_name
    } else {
        original_name + seq![path::DOT] + text::decimal(index)
    }
}

/// The place in the trash that an item has with this number.
pub open spec fn entry_at(directory: TrashDirectoryView, original_name: Seq<u8>, index: nat)
    -> ReservedTrashEntryView {
    let name = entry_name(original_name, index);
    ReservedTrashEntryView {
        name,
        file: path::join(directory.files, name),
        info: path::join(directory.info, name + text::ascii_bytes(".trashinfo"@)),
    }
}

/// No number is left to make a free name with.
pub open spec fn no_free_name(path: Seq<u8>) -> ErrorView {
    ErrorView::Platform {
        path,
        message: "Could not find available trash name for "@ + text::lossy_text(path),
    }
}

/// The number to try after this one.
pub fn next_collision_index(collision_index: usize, path: &PathBuf) -> (next: Result<usize, Error>)
    ensures
        match next {
            Ok(next) => next == collision_index + 1,
            Err(error) => collision_index == usize::MAX && error@ == no_free_name(path@),
        },
{
    if collision_index == usize::MAX {
        let message = "Could not find available trash name for ".to_owned().concat(
            to_lossy_text(path.as_bytes()).as_str(),
        );
        Err(Error::Platform { path: path.clone(), message })
    } else {
        Ok(collision_index + 1)
    }
}

/// What a [`ReserveEntry`] waits for.
#[derive(Debug)]
pub enum ReservePhase {
    /// Whether an item has the name already.
    Probe,
    /// The file that will hold what is known of the item is created.
    Create,
    /// That file is written.
    Write,
    /// That file is removed again, because it could not be written.
    CleanUp { source: IoError },
}

/// What a [`ReservePhase`] says.
pub enum ReservePhaseView {
    Probe,
    Create,
    Write,
    CleanUp { source: IoErrorView },
}

impl View for ReservePhase {
    type V = ReservePhaseView;

    open spec fn view(&self) -> ReservePhaseView {
        match self {
            ReservePhase::Probe => ReservePhaseView::Probe,
            ReservePhase::Create => ReservePhaseView::Create,
            ReservePhase::Write => ReservePhaseView::Write,
            ReservePhase::CleanUp { source } => ReservePhaseView::CleanUp { source: source@ },
        }
    }
}

/// Finds a free name for an item in a trash, and writes down what is known of the item. Names are
/// tried one after the other until neither an item nor a file of that name is there.
#[derive(Debug)]
pub struct ReserveEntry {
    directory: TrashDirectory,
    original_path: PathBuf,
    original_name: Vec<u8>,
    contents: String,
    index: usize,
    phase: ReservePhase,
}

/// What a [`ReserveEntry`] has come to.
pub struct ReserveEntryView {
    /// The trash.
    pub directory: TrashDirectoryView,
    /// The path of the item.
    pub original_path: Seq<u8>,
    /// The name of the item.
    pub original_name: Seq<u8>,
    /// The text that the trash keeps of the item.
    pub contents: Seq<char>,
    /// The number of the name that is tried.
    pub index: usize,
    /// What the machine waits for.
    pub phase: ReservePhaseView,
}

impl View for ReserveEntry {
    type V = ReserveEntryView;

    closed spec fn view(&self) -> ReserveEntryView {
        ReserveEntryView {
            directory: self.directory@,
            original_path: self.original_path@,
            original_name: self.original_name@,
            contents: self.contents@,
            index: self.index,
            phase: self.phase@,
        }
    }
}

impl ReserveEntryView {
    /// The place in the trash that is tried.
    pub open spec fn entry(self) -> ReservedTrashEntryView {
        entry_at(self.directory, self.original_name, self.index as nat)
    }

    /// The same name, with another thing to wait for.
    pub open spec fn with_phase(self, phase: ReservePhaseView) -> Self {
        ReserveEntryView { phase, ..self }
    }

    /// The name is taken: the next one is tried.
    pub open spec fn taken(self) -> Step<Self, Result<ReservedTrashEntryView, ErrorView>> {
        if self.index == usize::MAX {
            Step::Finish(Err(no_free_name(self.original_path)))
        } else {
            Step::Continue(
                ReserveEntryView {
                    index: (self.index + 1) as usize,
                    phase: ReservePhaseView::Probe,
                    ..self
                },
            )
        }
    }
}

/// How the search for a free name starts.
pub open spec fn reserve_start(
    location: TrashLocationView,
    directory: TrashDirectoryView,
    original_path: Seq<u8>,
    discarded_at: CivilTime,
) -> Step<ReserveEntryView, Result<ReservedTrashEntryView, ErrorView>> {
    match path::file_name(original_path) {
        None => Step::Finish(Err(ErrorView::TargetedRoot { path: original_path })),
        Some(original_name) => match location::original_location(location, original_path) {
            Err(error) => Step::Finish(Err(error)),
            Ok(original_location) => Step::Continue(
                ReserveEntryView {
                    directory,
                    original_path,
                    original_name,
                    contents: info_text(original_location, discarded_at),
                    index: 0,
                    phase: ReservePhaseView::Probe,
                },
            ),
        },
    }
}

impl ReserveEntry {
    /// Starts to find a free name for the item at a path in the trash of a location.
    pub fn start(
        location: &TrashLocation,
        directory: &TrashDirectory,
        original_path: &PathBuf,
        discarded_at: &LocalTime,
    ) -> (step: Step<Self, Result<ReservedTrashEntry, Error>>)
        ensures
            machine::step_view(step) == reserve_start(
                location@,
                directory@,
                original_path@,
                discarded_at.civil(),
            ),
    {
        match original_path.file_name() {
            None => Step::Finish(Err(Error::TargetedRoot { path: original_path.clone() })),
            Some(original_name) => match location.trash_info_path(original_path) {
                Err(error) => Step::Finish(Err(error)),
                Ok(original_location) => {
                    let contents = trash_info_contents(&original_location, discarded_at);
                    Step::Continue(
                        ReserveEntry {
                            directory: directory.clone(),
                            original_path: original_path.clone(),
                            original_name,
                            contents,
                            index: 0,
                            phase: ReservePhase::Probe,
                        },
                    )
                },
            },
        }
    }

    fn entry(&self) -> (entry: ReservedTrashEntry)
        ensures
            entry@ == self@.entry(),
    {
        let mut name = slice_to_vec(self.original_name.as_slice());
        if self.index != 0 {
            name.push(path::DOT);
            push_decimal(&mut name, self.index as u64);
        }
        assert(name@ =~= entry_name(self@.original_name, self.index as nat));
        let mut info_name = slice_to_vec(name.as_slice());
        let mut suffix = to_ascii_bytes(".trashinfo");
        info_name.append(&mut suffix);
        let file = self.directory.files.join(name.as_slice());
        let info = self.directory.info.join(info_name.as_slice());
        ReservedTrashEntry { name, file, info }
    }

    fn with_phase(self, phase: ReservePhase) -> (machine: Self)
        ensures
            machine@ == self@.with_phase(phase@),
    {
        ReserveEntry { phase, ..self }
    }

    fn taken(self) -> (step: Step<Self, Result<ReservedTrashEntry, Error>>)
        ensures
            machine::step_view(step) == self@.taken(),
    {
        match next_collision_index(self.index, &self.original_path) {
            Ok(index) => Step::Continue(ReserveEntry { index, phase: ReservePhase::Probe, ..self }),
            Err(error) => Step::Finish(Err(error)),
        }
    }
}

impl Machine for ReserveEntry {
    type Output = ReservedTrashEntry;

    open spec fn pending(state: ReserveEntryView) -> RequestView {
        match state.phase {
            ReservePhaseView::Probe => RequestView::SymlinkMetadata { path: state.entry().file },
            ReservePhaseView::Create => RequestView::CreateFile { path: state.entry().info },
            ReservePhaseView::Write => RequestView::WriteFile {
                path: state.entry().info,
                contents: state.contents,
            },
            ReservePhaseView::CleanUp { .. } => RequestView::RemoveFile {
                path: state.entry().info,
            },
        }
    }

    open spec fn next(state: ReserveEntryView, reply: ReplyView) -> Step<
        ReserveEntryView,
        Result<ReservedTrashEntryView, ErrorView>,
    > {
        let entry = state.entry();
        match (state.phase, reply) {
            (ReservePhaseView::Probe, ReplyView::Metadata(_)) => state.taken(),
            (ReservePhaseView::Probe, ReplyView::Failed(source)) => if source.kind
                == ErrorKind::NotFound {
                Step::Continue(state.with_phase(ReservePhaseView::Create))
            } else {
                Step::Finish(Err(ErrorView::Io { path: entry.file, source }))
            },
            (ReservePhaseView::Create, ReplyView::Done) => Step::Continue(
                state.with_phase(ReservePhaseView::Write),
            ),
            (ReservePhaseView::Create, ReplyView::Failed(source)) => if source.kind
                == ErrorKind::AlreadyExists {
                state.taken()
            } else {
                Step::Finish(Err(ErrorView::Io { path: entry.info, source }))
            },
            (ReservePhaseView::Write, ReplyView::Done) => Step::Finish(Ok(entry)),
            (ReservePhaseView::Write, ReplyView::Failed(source)) => Step::Continue(
                state.with_phase(ReservePhaseView::CleanUp { source }),
            ),
            (ReservePhaseView::CleanUp { source }, ReplyView::Done) => Step::Finish(
                Err(ErrorView::Io { path: entry.info, source }),
            ),
            (ReservePhaseView::CleanUp { source }, ReplyView::Failed(cleanup)) => if cleanup.kind
                == ErrorKind::NotFound {
                Step::Finish(Err(ErrorView::Io { path: entry.info, source }))
            } else {
                Step::Finish(Err(ErrorView::Io { path: entry.info, source: cleanup }))
            },
            _ => Step::Continue(state),
        }
    }

    proof fn other_replies_change_nothing(state: ReserveEntryView, reply: ReplyView) {
    }

    fn request(&self) -> (request: Request) {
        let entry = self.entry();
        match &self.phase {
            ReservePhase::Probe => Request::SymlinkMetadata { path: entry.file },
            ReservePhase::Create => Request::CreateFile { path: entry.info },
            ReservePhase::Write => Request::WriteFile {
                path: entry.info,
                contents: self.contents.clone(),
            },
            ReservePhase::CleanUp { .. } => Request::RemoveFile { path: entry.info },
        }
    }

    fn step(self, reply: Reply) -> (step: Step<Self, Result<ReservedTrashEntry, Error>>) {
        let entry = self.entry();
        match (&self.phase, reply) {
            (ReservePhase::Probe, Reply::Metadata(_)) => self.taken(),
            (ReservePhase::Probe, Reply::Failed(source)) => {
                if source.kind == ErrorKind::NotFound {
                    Step::Continue(self.with_phase(ReservePhase::Create))
                } else {
                    Step::Finish(Err(Error::Io { path: entry.file, source }))
                }
            },
            (ReservePhase::Create, Reply::Done) => Step::Continue(
                self.with_phase(ReservePhase::Write),
            ),
            (ReservePhase::Create, Reply::Failed(source)) => {
                if source.kind == ErrorKind::AlreadyExists {
                    self.taken()
                } else {
                    Step::Finish(Err(Error::Io { path: entry.info, source }))
                }
            },
            (ReservePhase::Write, Reply::Done) => Step::Finish(Ok(entry)),
            (ReservePhase::Write, Reply::Failed(source)) => Step::Continue(
                self.with_phase(ReservePhase::CleanUp { source }),
            ),
            (ReservePhase::CleanUp { source }, Reply::Done) => Step::Finish(
                Err(Error::Io { path: entry.info, source: source.clone() }),
            ),
            (ReservePhase::CleanUp { source }, Reply::Failed(cleanup)) => {
                if cleanup.kind == ErrorKind::NotFound {
                    Step::Finish(Err(Error::Io { path: entry.info, source: source.clone() }))
                } else {
                    Step::Finish(Err(Error::Io { path: entry.info, source: cleanup }))
                }
            },
            _ => Step::Continue(self),
        }
    }
}

/// The number that a hexadecimal digit stands for.
pub open spec fn hex_value(digit: char) -> Option<int> {
    if '0' <= digit <= '9' {
        Some(digit as int - 0x30)
    } else if 'A' <= digit <= 'F' {
        Some(digit as int - 0x41 + 10)
    } else {
        None
    }
}

/// The bytes that an encoded path stands for.
pub open spec fn percent_decoded(text: Seq<char>) -> Option<Seq<u8>>
    decreases text.len(),
{
    if text.len() == 0 {
        Some(Seq::empty())
    } else if text[0] != '%' {
        match percent_decoded(text.skip(1)) {
            Some(rest) => Some(seq![text[0] as u8] + rest),
            None => None,
        }
    } else if text.len() < 3 {
        None
    } else {
        match (hex_value(text[1]), hex_value(text[2]), percent_decoded(text.skip(3))) {
            (Some(high), Some(low), Some(rest)) => Some(seq![(high * 16 + low) as u8] + rest),
            _ => None,
        }
    }
}

proof fn lemma_encoded_from_the_front(bytes: Seq<u8>)
    requires
        bytes.len() > 0,
    ensures
        percent_encoded(bytes) == encoded_byte(bytes[0]) + percent_encoded(bytes.skip(1)),
    decreases bytes.len(),
{
    let rest = bytes.skip(1);
    if bytes.len() == 1 {
        assert(bytes.drop_last() =~= Seq::empty());
        assert(rest =~= Seq::empty());
        assert(percent_encoded(bytes) =~= encoded_byte(bytes[0]) + percent_encoded(rest));
    } else {
        lemma_encoded_from_the_front(bytes.drop_last());
        assert(bytes.drop_last().skip(1) =~= rest.drop_last());
        assert(percent_encoded(bytes) =~= encoded_byte(bytes[0]) + percent_encoded(rest));
    }
}

/// An encoded path can be decoded again, whatever its bytes are.
pub proof fn encoding_can_be_undone(bytes: Seq<u8>)
    ensures
        percent_decoded(percent_encoded(bytes)) == Some(bytes),
    decreases bytes.len(),
{
    if bytes.len() > 0 {
        let byte = bytes[0];
        let rest = bytes.skip(1);
        let text = percent_encoded(bytes);
        encoding_can_be_undone(rest);
        lemma_encoded_from_the_front(bytes);
        if byte == path::SEPARATOR || is_unreserved(byte) {
            assert(text[0] == byte as char);
            assert(text.skip(1) =~= percent_encoded(rest));
            assert(text[0] as u8 == byte);
        } else {
            assert(text[0] == '%');
            assert(text[1] == hex_digit(byte as int / 16));
            assert(text[2] == hex_digit(byte as int % 16));
            assert(text.skip(3) =~= percent_encoded(rest));
            assert(hex_value(text[1]) == Some(byte as int / 16));
            assert(hex_value(text[2]) == Some(byte as int % 16));
        }
        assert(seq![byte] + rest =~= bytes);
    } else {
        assert(bytes =~= Seq::empty());
    }
}

/// The character can stand in an encoded path.
pub open spec fn is_plain(character: char) -> bool {
    ||| character == '/'
    ||| character == '%'
    ||| character as int <= 0x7f && is_unreserved(character as u8)
}

/// An encoded path holds nothing but ASCII letters and digits, `/`, `%` and `- _ . ! ~ * ' ( )`.
pub proof fn encoding_is_plain(bytes: Seq<u8>)
    ensures
        forall|i: int|
            0 <= i < percent_encoded(bytes).len() ==> is_plain(
                #[trigger] percent_encoded(bytes)[i],
            ),
    decreases bytes.len(),
{
    if bytes.len() > 0 {
        encoding_is_plain(bytes.drop_last());
        let before = percent_encoded(bytes.drop_last());
        let last = encoded_byte(bytes.last());
        assert forall|i: int| 0 <= i < last.len() implies is_plain(#[trigger] last[i]) by {
            if !(bytes.last() == path::SEPARATOR || is_unreserved(bytes.last())) {
                assert(0 <= bytes.last() as int / 16 < 16);
                assert(0 <= bytes.last() as int % 16 < 16);
            }
        }
        assert forall|i: int| 0 <= i < percent_encoded(bytes).len() implies is_plain(
            #[trigger] percent_encoded(bytes)[i],
        ) by {
            if i >= before.len() {
                assert(percent_encoded(bytes)[i] == last[i - before.len()]);
            }
        }
    }
}

/// The names that an item is given in a trash, one after the other, all differ, and so do the
/// places where the item goes and those of the files about it.
pub proof fn entries_differ(
    directory: TrashDirectoryView,
    original_name: Seq<u8>,
    first: nat,
    second: nat,
)
    requires
        path::is_entry_name(original_name),
        first != second,
    ensures
        entry_at(directory, original_name, first).name != entry_at(
            directory,
            original_name,
            second,
        ).name,
        entry_at(directory, original_name, first).file != entry_at(
            directory,
            original_name,
            second,
        ).file,
        entry_at(directory, original_name, first).info != entry_at(
            directory,
            original_name,
            second,
        ).info,
{
    let one = entry_name(original_name, first);
    let other = entry_name(original_name, second);
    let suffix = text::ascii_bytes(".trashinfo"@);
    lemma_names_differ(original_name, first, second);
    lemma_entry_name(original_name, first);
    lemma_entry_name(original_name, second);
    lemma_join_is_injective(directory.files, one, other);
    if one + suffix == other + suffix {
        assert(one =~= (one + suffix).take((one + suffix).len() - suffix.len()));
        assert(other =~= (other + suffix).take((one + suffix).len() - suffix.len()));
    }
    lemma_join_is_injective(directory.info, one + suffix, other + suffix);
}

proof fn lemma_names_differ(original_name: Seq<u8>, first: nat, second: nat)
    requires
        first != second,
    ensures
        entry_name(original_name, first) != entry_name(original_name, second),
{
    let one = entry_name(original_name, first);
    let other = entry_name(original_name, second);
    text::lemma_decimal_digits(first);
    text::lemma_decimal_digits(second);
    if one == other {
        let start = original_name.len() + 1;
        assert(one.skip(start as int) =~= text::decimal(first));
        assert(other.skip(start as int) =~= text::decimal(second));
        text::lemma_decimal_is_injective(first, second);
    }
}

proof fn lemma_entry_name(original_name: Seq<u8>, index: nat)
    requires
        path::is_entry_name(original_name),
    ensures
        path::is_entry_name(entry_name(original_name, index)),
        !path::is_absolute(entry_name(original_name, index)),
{
    let name = entry_name(original_name, index);
    text::lemma_decimal_digits(index);
    assert(!name.contains(path::SEPARATOR)) by {
        if name.contains(path::SEPARATOR) {
            let i = choose|i: int| 0 <= i < name.len() && name[i] == path::SEPARATOR;
            if i < original_name.len() {
                assert(original_name[i] == path::SEPARATOR);
            } else if i > original_name.len() {
                assert(name[i] == text::decimal(index)[i - original_name.len() - 1]);
            }
        }
    }
    assert(!path::is_dots(name)) by {
        if index != 0 && path::is_dots(name) {
            assert(name.last() == text::decimal(index).last());
            assert(name.last() == path::DOT);
        }
    }
    if path::is_absolute(name) {
        assert(name.contains(path::SEPARATOR));
    }
}

proof fn lemma_join_is_injective(base: Seq<u8>, one: Seq<u8>, other: Seq<u8>)
    requires
        !path::is_absolute(one),
        !path::is_absolute(other),
        one != other,
    ensures
        path::join(base, one) != path::join(base, other),
{
    let start = path::join(base, one).len() - one.len();
    assert(path::join(base, one).skip(start) =~= one);
    if path::join(base, one) == path::join(base, other) {
        assert(path::join(base, other).skip(start) =~= other);
    }
}

/// The place was found to be taken: by an item, or by a file about one.
pub open spec fn is_taken(past: Seq<Exchange>, entry: ReservedTrashEntryView) -> bool {
    ||| exists|metadata: Metadata| #[trigger]
        past.contains(
            machine::exchange(
                RequestView::SymlinkMetadata { path: entry.file },
                ReplyView::Metadata(metadata),
            ),
        )
    ||| exists|source: IoErrorView|
        source.kind == ErrorKind::AlreadyExists && #[trigger] past.contains(
            machine::exchange(
                RequestView::CreateFile { path: entry.info },
                ReplyView::Failed(source),
            ),
        )
}

/// The places with the first numbers were all found to be taken.
pub open spec fn first_are_taken(
    past: Seq<Exchange>,
    directory: TrashDirectoryView,
    original_name: Seq<u8>,
    count: nat,
) -> bool {
    forall|index: nat|
        index < count ==> is_taken(past, #[trigger] entry_at(directory, original_name, index))
}

/// There was no item at the place.
pub open spec fn is_without_item(past: Seq<Exchange>, entry: ReservedTrashEntryView) -> bool {
    exists|source: IoErrorView|
        source.kind == ErrorKind::NotFound && #[trigger] past.contains(
            machine::exchange(
                RequestView::SymlinkMetadata { path: entry.file },
                ReplyView::Failed(source),
            ),
        )
}

/// The place has this number, and those with lesser numbers were all found to be taken. There was
/// no item at the place, and the file about the item was created there and written.
pub open spec fn is_reserved_at(
    past: Seq<Exchange>,
    machine: ReserveEntryView,
    index: nat,
    entry: ReservedTrashEntryView,
) -> bool {
    &&& entry == entry_at(machine.directory, machine.original_name, index)
    &&& first_are_taken(past, machine.directory, machine.original_name, index)
    &&& is_without_item(past, entry)
    &&& machine::was_done(past, RequestView::CreateFile { path: entry.info })
    &&& machine::was_done(
        past,
        RequestView::WriteFile { path: entry.info, contents: machine.contents },
    )
}

/// The free place with the least number was reserved.
pub open spec fn is_reserved(
    past: Seq<Exchange>,
    machine: ReserveEntryView,
    entry: ReservedTrashEntryView,
) -> bool {
    exists|index: nat| is_reserved_at(past, machine, index, entry)
}

/// The system failed at something, other than that a place is free, that a file about an item is
/// there already, or that one that is to be removed is gone.
pub open spec fn has_failed(past: Seq<Exchange>, path: Seq<u8>, source: IoErrorView) -> bool {
    exists|request: RequestView| #[trigger]
        past.contains(machine::exchange(request, ReplyView::Failed(source))) && machine::is_about(
            request,
            path,
        ) && !machine::is_expected(request, source.kind) && (request is SymlinkMetadata
            ==> source.kind != ErrorKind::NotFound)
}

spec fn reserve_holds(
    start: ReserveEntryView,
    stage: Stage<ReserveEntry>,
    past: Seq<Exchange>,
) -> bool {
    match stage {
        Step::Continue(state) => {
            &&& state.directory == start.directory
            &&& state.original_path == start.original_path
            &&& state.original_name == start.original_name
            &&& state.contents == start.contents
            &&& first_are_taken(past, start.directory, start.original_name, state.index as nat)
            &&& state.phase is Probe || is_without_item(past, state.entry())
            &&& state.phase is Write ==> machine::was_done(
                past,
                RequestView::CreateFile { path: state.entry().info },
            )
            &&& state.phase matches ReservePhaseView::CleanUp { source } ==> has_failed(
                past,
                state.entry().info,
                source,
            )
        },
        Step::Finish(Ok(entry)) => is_reserved(past, start, entry),
        Step::Finish(Err(error)) => {
            ||| error matches ErrorView::Io { path, source } && has_failed(past, path, source)
            ||| error == no_free_name(start.original_path) && first_are_taken(
                past,
                start.directory,
                start.original_name,
                (usize::MAX + 1) as nat,
            )
        },
    }
}

proof fn lemma_first_are_still_taken(
    past: Seq<Exchange>,
    last: Exchange,
    directory: TrashDirectoryView,
    original_name: Seq<u8>,
    count: nat,
)
    requires
        first_are_taken(past, directory, original_name, count),
    ensures
        first_are_taken(past.push(last), directory, original_name, count),
{
    let more = past.push(last);
    machine::lemma_past_grows(past, last);
    assert forall|index: nat| index < count implies is_taken(
        more,
        #[trigger] entry_at(directory, original_name, index),
    ) by {
        let entry = entry_at(directory, original_name, index);
        assert(is_taken(past, entry));
        if exists|metadata: Metadata| #[trigger]
            past.contains(
                machine::exchange(
                    RequestView::SymlinkMetadata { path: entry.file },
                    ReplyView::Metadata(metadata),
                ),
            ) {
            let metadata = choose|metadata: Metadata| #[trigger]
                past.contains(
                    machine::exchange(
                        RequestView::SymlinkMetadata { path: entry.file },
                        ReplyView::Metadata(metadata),
                    ),
                );
            assert(more.contains(
                machine::exchange(
                    RequestView::SymlinkMetadata { path: entry.file },
                    ReplyView::Metadata(metadata),
                ),
            ));
        } else {
            let source = choose|source: IoErrorView|
                source.kind == ErrorKind::AlreadyExists && #[trigger] past.contains(
                    machine::exchange(
                        RequestView::CreateFile { path: entry.info },
                        ReplyView::Failed(source),
                    ),
                );
            assert(more.contains(
                machine::exchange(
                    RequestView::CreateFile { path: entry.info },
                    ReplyView::Failed(source),
                ),
            ));
        }
    }
}

proof fn lemma_still_without_item(
    past: Seq<Exchange>,
    last: Exchange,
    entry: ReservedTrashEntryView,
)
    requires
        is_without_item(past, entry),
    ensures
        is_without_item(past.push(last), entry),
{
    machine::lemma_past_grows(past, last);
    let source = choose|source: IoErrorView|
        source.kind == ErrorKind::NotFound && #[trigger] past.contains(
            machine::exchange(
                RequestView::SymlinkMetadata { path: entry.file },
                ReplyView::Failed(source),
            ),
        );
    assert(past.push(last).contains(
        machine::exchange(
            RequestView::SymlinkMetadata { path: entry.file },
            ReplyView::Failed(source),
        ),
    ));
}

proof fn lemma_reserve_step(
    start: ReserveEntryView,
    state: ReserveEntryView,
    past: Seq<Exchange>,
    reply: ReplyView,
)
    requires
        reserve_holds(start, Step::Continue(state), past),
    ensures
        reserve_holds(
            start,
            ReserveEntry::next(state, reply),
            past.push(machine::exchange(ReserveEntry::pending(state), reply)),
        ),
{
    let last = machine::exchange(ReserveEntry::pending(state), reply);
    let more = past.push(last);
    let entry = state.entry();
    machine::lemma_past_grows(past, last);
    lemma_first_are_still_taken(
        past,
        last,
        start.directory,
        start.original_name,
        state.index as nat,
    );
    if state.phase !is Probe {
        lemma_still_without_item(past, last, entry);
    }
    if let ReplyView::Failed(source) = reply {
        assert(more.contains(machine::exchange(last.request, ReplyView::Failed(source))));
        assert(!machine::is_expected(last.request, source.kind) && (last.request is SymlinkMetadata
            ==> source.kind != ErrorKind::NotFound) ==> has_failed(
            more,
            if state.phase is Probe {
                entry.file
            } else {
                entry.info
            },
            source,
        ));
    }
    if let ReservePhaseView::CleanUp { source } = state.phase {
        let request = choose|request: RequestView| #[trigger]
            past.contains(machine::exchange(request, ReplyView::Failed(source)))
                && machine::is_about(request, entry.info) && !machine::is_expected(
                request,
                source.kind,
            ) && (request is SymlinkMetadata ==> source.kind != ErrorKind::NotFound);
        assert(more.contains(machine::exchange(request, ReplyView::Failed(source))));
        assert(has_failed(more, entry.info, source));
    }
    match (state.phase, reply) {
        (ReservePhaseView::Probe, ReplyView::Metadata(metadata)) => {
            assert(more.contains(
                machine::exchange(
                    RequestView::SymlinkMetadata { path: entry.file },
                    ReplyView::Metadata(metadata),
                ),
            ));
            lemma_one_more_is_taken(more, state);
        },
        (ReservePhaseView::Probe, ReplyView::Failed(source)) => {
            if source.kind == ErrorKind::NotFound {
                assert(more.contains(
                    machine::exchange(
                        RequestView::SymlinkMetadata { path: entry.file },
                        ReplyView::Failed(source),
                    ),
                ));
                assert(is_without_item(more, entry));
            }
        },
        (ReservePhaseView::Create, ReplyView::Failed(source)) => {
            if source.kind == ErrorKind::AlreadyExists {
                assert(more.contains(
                    machine::exchange(
                        RequestView::CreateFile { path: entry.info },
                        ReplyView::Failed(source),
                    ),
                ));
                lemma_one_more_is_taken(more, state);
            }
        },
        (ReservePhaseView::Write, ReplyView::Done) => {
            assert(is_reserved_at(more, start, state.index as nat, entry));
        },
        _ => {},
    }
}

proof fn lemma_one_more_is_taken(past: Seq<Exchange>, state: ReserveEntryView)
    requires
        first_are_taken(past, state.directory, state.original_name, state.index as nat),
        is_taken(past, state.entry()),
    ensures
        first_are_taken(past, state.directory, state.original_name, (state.index + 1) as nat),
{
    assert forall|index: nat| index < state.index + 1 implies is_taken(
        past,
        #[trigger] entry_at(state.directory, state.original_name, index),
    ) by {}
}

proof fn lemma_reservation(start: ReserveEntryView, replies: Seq<ReplyView>)
    requires
        start.index == 0,
        start.phase is Probe,
    ensures
        reserve_holds(
            start,
            machine::after::<ReserveEntry>(Step::Continue(start), replies),
            machine::history::<ReserveEntry>(Step::Continue(start), replies),
        ),
{
    let holds = |stage: Stage<ReserveEntry>, past: Seq<Exchange>|
        reserve_holds(start, stage, past);
    assert(holds(Step::Continue(start), Seq::empty()));
    assert forall|state: ReserveEntryView, past: Seq<Exchange>, reply: ReplyView|
        #![trigger holds(Step::Continue(state), past), ReserveEntry::next(state, reply)]
        holds(Step::Continue(state), past) implies holds(
        ReserveEntry::next(state, reply),
        past.push(machine::exchange(ReserveEntry::pending(state), reply)),
    ) by {
        lemma_reserve_step(start, state, past, reply);
    }
    machine::lemma_invariant::<ReserveEntry>(Step::Continue(start), replies, holds);
}

/// The place that is reserved for an item is the free one with the least number: all places with
/// lesser numbers were found to be taken. The file about the item was created there, where none
/// was, and written.
pub proof fn reservations_take_the_least_free_number(
    location: TrashLocationView,
    directory: TrashDirectoryView,
    original_path: Seq<u8>,
    discarded_at: CivilTime,
    machine: ReserveEntryView,
    replies: Seq<ReplyView>,
    entry: ReservedTrashEntryView,
)
    requires
        reserve_start(location, directory, original_path, discarded_at) == Step::<
            ReserveEntryView,
            Result<ReservedTrashEntryView, ErrorView>,
        >::Continue(machine),
        machine::after::<ReserveEntry>(Step::Continue(machine), replies) == Step::<
            ReserveEntryView,
            Result<ReservedTrashEntryView, ErrorView>,
        >::Finish(Ok(entry)),
    ensures
        is_reserved(
            machine::history::<ReserveEntry>(Step::Continue(machine), replies),
            machine,
            entry,
        ),
        machine.directory == directory,
        path::file_name(original_path) == Some(machine.original_name),
        location::original_location(location, original_path) matches Ok(original)
            && machine.contents == info_text(original, discarded_at),
{
    lemma_reservation(machine, replies);
}

/// A place can be looked for exactly where the item has a name and where it can be told where the
/// item was.
pub proof fn places_are_looked_for_where_items_have_names(
    location: TrashLocationView,
    directory: TrashDirectoryView,
    original_path: Seq<u8>,
    discarded_at: CivilTime,
)
    ensures
        reserve_start(location, directory, original_path, discarded_at) is Continue
            <==> path::file_name(original_path) is Some && location::original_location(
            location,
            original_path,
        ) is Ok,
{
}

/// Looking for a free place fails only where the system fails, or where the places with all
/// numbers were found to be taken.
pub proof fn failed_reservations_found_no_free_number(
    location: TrashLocationView,
    directory: TrashDirectoryView,
    original_path: Seq<u8>,
    discarded_at: CivilTime,
    machine: ReserveEntryView,
    replies: Seq<ReplyView>,
    error: ErrorView,
)
    requires
        reserve_start(location, directory, original_path, discarded_at) == Step::<
            ReserveEntryView,
            Result<ReservedTrashEntryView, ErrorView>,
        >::Continue(machine),
        machine::after::<ReserveEntry>(Step::Continue(machine), replies) == Step::<
            ReserveEntryView,
            Result<ReservedTrashEntryView, ErrorView>,
        >::Finish(Err(error)),
    ensures
        ({
            let past = machine::history::<ReserveEntry>(Step::Continue(machine), replies);
            ||| error matches ErrorView::Io { path, source } && has_failed(past, path, source)
            ||| error == no_free_name(original_path) && first_are_taken(
                past,
                machine.directory,
                machine.original_name,
                (usize::MAX + 1) as nat,
            )
        }),
        error matches ErrorView::Platform { path, message } ==> path == original_path && message
            == "Could not find available trash name for "@ + text::lossy_text(original_path),
        error is Io || error == no_free_name(original_path),
{
    lemma_reservation(machine, replies);
}

/// An item goes directly into the directory for items, under the name that it is given, and the
/// file about it directly into the directory for these files.
pub proof fn entries_lie_in_the_trash(
    directory: TrashDirectoryView,
    original_name: Seq<u8>,
    index: nat,
)
    requires
        path::is_entry_name(original_name),
    ensures
        ({
            let entry = entry_at(directory, original_name, index);
            &&& path::file_name(entry.file) == Some(entry.name)
            &&& path::parent(entry.file) matches Some(above) && path::components(above)
                == path::components(directory.files)
            &&& path::file_name(entry.info) == Some(
                entry.name + text::ascii_bytes(".trashinfo"@),
            )
            &&& path::parent(entry.info) matches Some(above) && path::components(above)
                == path::components(directory.info)
        }),
{
    let name = entry_name(original_name, index);
    let suffix = text::ascii_bytes(".trashinfo"@);
    lemma_entry_name(original_name, index);
    path::a_joined_name_is_the_file_name(directory.files, name);
    reveal_strlit(".trashinfo");
    assert(path::is_entry_name(name + suffix)) by {
        let info = name + suffix;
        if info.contains(path::SEPARATOR) {
            let i = choose|i: int| 0 <= i < info.len() && info[i] == path::SEPARATOR;
            if i < name.len() {
                assert(name[i] == path::SEPARATOR);
            } else {
                assert(suffix[i - name.len()] == path::SEPARATOR);
            }
        }
    }
    path::a_joined_name_is_the_file_name(directory.info, name + suffix);
}

/// The character ends a line.
pub open spec fn is_newline(character: char) -> bool {
    character == '\n'
}

proof fn lemma_date_is_one_line(civil: CivilTime)
    ensures
        forall|i: int|
            0 <= i < date_text(civil).len() ==> #[trigger] date_text(civil)[i] != 0x0a,
{
    text::lemma_padded_digits(civil.month as nat, 2);
    text::lemma_padded_digits(civil.day as nat, 2);
    text::lemma_padded_digits(civil.hour as nat, 2);
    text::lemma_padded_digits(civil.minute as nat, 2);
    text::lemma_padded_digits(civil.second as nat, 2);
    text::lemma_padded_digits(civil.year as nat, 4);
    text::lemma_padded_digits((-civil.year) as nat, 3);
    text::lemma_padded_digits((-civil.year) as nat, 4);
}

/// The text that a trash keeps of an item has three lines: a heading, the encoded path, and the
/// date. No path and no date can make more of them.
pub proof fn trash_info_has_three_lines(original_location: Seq<u8>, discarded_at: CivilTime)
    ensures
        text::split(
            info_text(original_location, discarded_at),
            |character: char| is_newline(character),
        ) == seq![
            "[Trash Info]"@,
            "Path="@ + percent_encoded(original_location),
            "DeletionDate="@ + text::ascii_text(date_text(discarded_at)),
            Seq::empty(),
        ],
{
    let separates = |character: char| is_newline(character);
    let heading = "[Trash Info]"@;
    let location = "Path="@ + percent_encoded(original_location);
    let date = "DeletionDate="@ + text::ascii_text(date_text(discarded_at));
    reveal_strlit("[Trash Info]");
    reveal_strlit("Path=");
    reveal_strlit("DeletionDate=");
    reveal_strlit("[Trash Info]\nPath=");
    reveal_strlit("\nDeletionDate=");
    reveal_strlit("\n");
    encoding_is_plain(original_location);
    lemma_date_is_one_line(discarded_at);
    let last = date.push('\n') + Seq::<char>::empty();
    let rest = location.push('\n') + last;
    assert(info_text(original_location, discarded_at) =~= heading.push('\n') + rest);
    text::lemma_split_at_separator(heading, '\n', rest, separates);
    text::lemma_split_at_separator(location, '\n', last, separates);
    text::lemma_split_at_separator(date, '\n', Seq::empty(), separates);
    text::lemma_split_of_one_piece(heading, separates);
    assert forall|i: int| 0 <= i < location.len() implies !separates(#[trigger] location[i]) by {
        if i >= 5 {
            assert(location[i] == percent_encoded(original_location)[i - 5]);
        }
    }
    text::lemma_split_of_one_piece(location, separates);
    assert forall|i: int| 0 <= i < date.len() implies !separates(#[trigger] date[i]) by {
        if i >= 13 {
            assert(date[i] == date_text(discarded_at)[i - 13] as char);
        }
    }
    text::lemma_split_of_one_piece(date, separates);
    text::lemma_split_of_one_piece(Seq::<char>::empty(), separates);
    assert(seq![heading] + (seq![location] + (seq![date] + seq![Seq::<char>::empty()])) =~= seq![
        heading,
        location,
        date,
        Seq::empty(),
    ]);
}

/// The number that the characters write, where they are all decimal digits.
pub open spec fn number_of(characters: Seq<char>) -> Option<int>
    decreases characters.len(),
{
    if characters.len() == 0 {
        Some(0)
    } else {
        match number_of(characters.drop_last()) {
            Some(before) => if '0' <= characters.last() <= '9' {
                Some(before * 10 + (characters.last() as int - '0' as int))
            } else {
                None
            },
            None => None,
        }
    }
}

/// The characters write the date and the time of day, as in `2026-05-23T16:50:00`. A year before
/// the year 0 has a minus in front.
pub open spec fn is_date_of(characters: Seq<char>, civil: CivilTime) -> bool {
    let end = characters.len() as int;
    &&& end >= 19
    &&& civil.year >= 0 ==> end == 19 && number_of(characters.subrange(0, 4)) == Some(
        civil.year as int,
    )
    &&& civil.year < 0 ==> characters[0] == '-' && number_of(
        characters.subrange(1, end - 15),
    ) == Some(-civil.year as int)
    &&& characters[end - 15] == '-'
    &&& number_of(characters.subrange(end - 14, end - 12)) == Some(civil.month as int)
    &&& characters[end - 12] == '-'
    &&& number_of(characters.subrange(end - 11, end - 9)) == Some(civil.day as int)
    &&& characters[end - 9] == 'T'
    &&& number_of(characters.subrange(end - 8, end - 6)) == Some(civil.hour as int)
    &&& characters[end - 6] == ':'
    &&& number_of(characters.subrange(end - 5, end - 3)) == Some(civil.minute as int)
    &&& characters[end - 3] == ':'
    &&& number_of(characters.subrange(end - 2, end)) == Some(civil.second as int)
}

/// Digits write the same number as characters.
pub proof fn lemma_number_of(digits: Seq<u8>)
    requires
        text::are_digits(digits),
    ensures
        number_of(text::ascii_text(digits)) == Some(text::decimal_value(digits)),
    decreases digits.len(),
{
    let characters = text::ascii_text(digits);
    if digits.len() > 0 {
        let before = digits.drop_last();
        assert forall|i: int| 0 <= i < before.len() implies 0x30 <= #[trigger] before[i]
            <= 0x39 by {
            assert(before[i] == digits[i]);
        }
        lemma_number_of(before);
        assert(characters.drop_last() =~= text::ascii_text(before));
        assert(0x30 <= digits[digits.len() - 1] <= 0x39);
        assert(characters.last() == digits.last() as char);
    }
}

proof fn lemma_padded_number(number: nat, width: nat)
    requires
        number < power::pow(10, width),
    ensures
        text::ascii_text(text::padded_decimal(number, width)).len() == width,
        number_of(text::ascii_text(text::padded_decimal(number, width))) == Some(number as int),
{
    text::padded_decimals_are_read_back(number, width);
    lemma_number_of(text::padded_decimal(number, width));
}

proof fn lemma_powers_of_ten()
    ensures
        power::pow(10, 2) == 100,
        power::pow(10, 3) == 1000,
        power::pow(10, 4) == 10000,
{
    reveal(power::pow);
    reveal_with_fuel(power::pow, 5);
}

/// A date that is written is read back as it was, part by part, so that different times have
/// different dates.
pub proof fn written_dates_are_read_back(civil: CivilTime)
    requires
        civil.is_valid(),
        -9999 <= civil.year <= 9999,
    ensures
        is_date_of(text::ascii_text(date_text(civil)), civil),
{
    let characters = text::ascii_text(date_text(civil));
    let year = text::ascii_text(year_text(civil.year as int));
    let month = text::ascii_text(text::padded_decimal(civil.month as nat, 2));
    let day = text::ascii_text(text::padded_decimal(civil.day as nat, 2));
    let hour = text::ascii_text(text::padded_decimal(civil.hour as nat, 2));
    let minute = text::ascii_text(text::padded_decimal(civil.minute as nat, 2));
    let second = text::ascii_text(text::padded_decimal(civil.second as nat, 2));
    lemma_powers_of_ten();
    lemma_padded_number(civil.month as nat, 2);
    lemma_padded_number(civil.day as nat, 2);
    lemma_padded_number(civil.hour as nat, 2);
    lemma_padded_number(civil.minute as nat, 2);
    lemma_padded_number(civil.second as nat, 2);
    assert(characters =~= year + seq!['-'] + month + seq!['-'] + day + seq!['T'] + hour + seq![':']
        + minute + seq![':'] + second);
    let end = characters.len() as int;
    assert(characters.subrange(end - 14, end - 12) =~= month);
    assert(characters.subrange(end - 11, end - 9) =~= day);
    assert(characters.subrange(end - 8, end - 6) =~= hour);
    assert(characters.subrange(end - 5, end - 3) =~= minute);
    assert(characters.subrange(end - 2, end) =~= second);
    if civil.year >= 0 {
        lemma_padded_number(civil.year as nat, 4);
        assert(characters.subrange(0, 4) =~= year);
    } else {
        let width: nat = if civil.year > -1000 {
            3
        } else {
            4
        };
        let distance = text::ascii_text(text::padded_decimal((-civil.year) as nat, width));
        lemma_padded_number((-civil.year) as nat, width);
        assert(characters.subrange(1, end - 15) =~= distance);
    }
}

/// The text tells where an item was and when it was discarded: behind a heading stand the encoded
/// path and the date.
pub open spec fn tells(text: Seq<char>, original_location: Seq<u8>, civil: CivilTime) -> bool {
    exists|path: Seq<char>, date: Seq<char>| #[trigger]
        is_info(text, path, date) && percent_decoded(path) == Some(original_location)
            && is_date_of(date, civil)
}

/// The text has a heading, this path and this date.
pub open spec fn is_info(text: Seq<char>, path: Seq<char>, date: Seq<char>) -> bool {
    text == "[Trash Info]\nPath="@ + path + "\nDeletionDate="@ + date + "\n"@
}

/// What is written about an item is read back as it was: the path byte for byte, and the date
/// part by part.
pub proof fn written_information_is_read_back(original_location: Seq<u8>, civil: CivilTime)
    requires
        civil.is_valid(),
        -9999 <= civil.year <= 9999,
    ensures
        tells(info_text(original_location, civil), original_location, civil),
{
    encoding_can_be_undone(original_location);
    written_dates_are_read_back(civil);
    assert(is_info(
        info_text(original_location, civil),
        percent_encoded(original_location),
        text::ascii_text(date_text(civil)),
    ));
}

/// The byte is an ASCII letter or digit, or one of `/ - _ . ! ~ * ' ( )`.
pub open spec fn stands_for_itself(byte: u8) -> bool {
    let character = byte as char;
    ||| 'A' <= character <= 'Z'
    ||| 'a' <= character <= 'z'
    ||| '0' <= character <= '9'
    ||| seq!['/', '-', '_', '.', '!', '~', '*', '\'', '(', ')'].contains(character)
}

/// A path is encoded byte by byte: a byte that stands for itself is written as that character, and
/// any other as `%` and two digits, of which the first counts sixteen times.
pub proof fn bytes_are_encoded_one_by_one(before: Seq<u8>, byte: u8)
    ensures
        stands_for_itself(byte) ==> percent_encoded(before.push(byte)) == percent_encoded(
            before,
        ).push(byte as char),
        !stands_for_itself(byte) ==> exists|high: char, low: char|
            percent_encoded(before.push(byte)) == percent_encoded(before) + #[trigger] seq![
                '%',
                high,
                low,
            ] && hex_value(high) is Some && hex_value(low) is Some && hex_value(high)->0 * 16
                + hex_value(low)->0 == byte,
        percent_encoded(Seq::empty()) == Seq::<char>::empty(),
{
    let all = before.push(byte);
    let marks = seq!['/', '-', '_', '.', '!', '~', '*', '\'', '(', ')'];
    assert(all.drop_last() =~= before);
    assert(marks[0] == '/' && marks[1] == '-' && marks[2] == '_' && marks[3] == '.' && marks[4]
        == '!' && marks[5] == '~' && marks[6] == '*' && marks[7] == '\'' && marks[8] == '('
        && marks[9] == ')');
    assert(stands_for_itself(byte) == (byte == path::SEPARATOR || is_unreserved(byte)));
    if stands_for_itself(byte) {
        assert(percent_encoded(all) =~= percent_encoded(before).push(byte as char));
    } else {
        let high = hex_digit(byte as int / 16);
        let low = hex_digit(byte as int % 16);
        assert(hex_value(high) == Some(byte as int / 16));
        assert(hex_value(low) == Some(byte as int % 16));
        assert(percent_encoded(all) == percent_encoded(before) + seq!['%', high, low]);
    }
}

/// The first place for an item has the item's own name. The others have that name with a dot and
/// the number behind it, in decimal.
pub proof fn names_tell_their_numbers(
    directory: TrashDirectoryView,
    original_name: Seq<u8>,
    index: nat,
)
    ensures
        entry_at(directory, original_name, 0).name == original_name,
        index > 0 ==> ({
            let name = entry_at(directory, original_name, index).name;
            let digits = name.skip(original_name.len() as int + 1);
            &&& name == original_name.push(0x2e) + digits
            &&& text::are_digits(digits)
            &&& digits[0] != 0x30
            &&& text::decimal_value(digits) == index
        }),
{
    if index > 0 {
        let digits = text::decimal(index);
        text::decimals_are_read_back(index);
        assert(entry_at(directory, original_name, index).name =~= original_name.push(0x2e)
            + digits);
        assert(entry_at(directory, original_name, index).name.skip(original_name.len() as int + 1)
            =~= digits);
        if digits.len() == 1 {
            reveal_with_fuel(text::decimal_value, 2);
            assert(digits.drop_last() =~= Seq::empty());
        }
    }
}

/// Every answer leads on.
pub proof fn answers_lead_on(state: ReserveEntryView, reply: ReplyView)
    requires
        machine::fits(ReserveEntry::pending(state), reply),
    ensures
        ReserveEntry::next(state, reply) matches Step::Continue(next) ==> next != state,
{
}

} // verus!
