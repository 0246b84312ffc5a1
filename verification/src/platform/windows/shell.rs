//! What the Shell is asked for, and how its answers are read.

use vstd::prelude::*;
use vstd::slice::{slice_subrange, slice_to_vec};

use super::path::{self, has_nul, wide_path, NUL};
use crate::clock::SystemTime;
use crate::error::{IoError, IoErrorView};
use crate::text::{self, fields_of, split_items, to_ascii_bytes};

verus! {

/// How many ticks a second has.
pub const FILE_TIME_TICKS_PER_SECOND: u64 = 10_000_000;

/// How many code units a path without a prefix has at most, with the NUL behind it.
pub const MAX_UNPREFIXED_SHELL_PATH_CODE_UNITS_WITH_NUL: usize = 260;

/// How many code units a name has at most.
pub const MAX_SHELL_FILE_NAME_CODE_UNITS: usize = 255;

/// How many nanoseconds a tick has.
pub const NANOSECONDS_PER_FILE_TIME_TICK: u64 = 100;

/// The start of 1970 in UTC, in ticks.
pub const UNIX_EPOCH_FILE_TIME_TICKS: u64 = 116_444_736_000_000_000;

/// `\`
pub const BACKSLASH: u16 = 0x5c;

/// `/`
pub const SLASH: u16 = 0x2f;

/// `:`
pub const COLON: u16 = 0x3a;

/// `.`
pub const DOT: u16 = 0x2e;

/// `?`
pub const QUESTION_MARK: u16 = 0x3f;

/// A space.
pub const SPACE: u16 = 0x20;

/// How many code units precede the names of a path on a verbatim disk.
pub const VERBATIM_DISK_CODE_UNITS: usize = 7;

/// The code unit of an ASCII letter.
pub open spec fn is_letter(unit: u16) -> bool {
    0x41 <= unit <= 0x5a || 0x61 <= unit <= 0x7a
}

/// The code unit, with an ASCII letter made a capital.
pub open spec fn capital(unit: u16) -> u16 {
    if 0x61 <= unit <= 0x7a {
        (unit - 0x20) as u16
    } else {
        unit
    }
}

/// The code unit, with an ASCII letter made a capital.
fn to_capital(unit: u16) -> (made: u16)
    ensures
        made == capital(unit),
{
    if 0x61 <= unit && unit <= 0x7a {
        unit - 0x20
    } else {
        unit
    }
}

/// The code units of an ASCII text.
pub open spec fn wide(text: Seq<char>) -> Seq<u16> {
    text::ascii_bytes(text).map_values(|byte: u8| byte as u16)
}

/// The first half of a character outside the basic plane.
pub open spec fn is_high_surrogate(unit: u16) -> bool {
    0xd800 <= unit <= 0xdbff
}

/// The second half of a character outside the basic plane.
pub open spec fn is_low_surrogate(unit: u16) -> bool {
    0xdc00 <= unit <= 0xdfff
}

/// The half character at `i`, if it is one, has its other half beside it.
pub open spec fn is_paired(units: Seq<u16>, i: int) -> bool {
    &&& is_high_surrogate(units[i]) ==> i + 1 < units.len() && is_low_surrogate(units[i + 1])
    &&& is_low_surrogate(units[i]) ==> 0 < i && is_high_surrogate(units[i - 1])
}

/// The code units encode a text.
pub open spec fn is_text(units: Seq<u16>) -> bool {
    forall|i: int| 0 <= i < units.len() ==> is_paired(units, i)
}

/// Tells whether code units encode a text.
fn encodes_text(units: &[u16]) -> (text: bool)
    ensures
        text == is_text(units@),
{
    let mut i: usize = 0;
    while i < units.len()
        invariant
            i <= units@.len(),
            forall|k: int| 0 <= k < i ==> is_paired(units@, k),
        decreases units@.len() - i,
    {
        let unit = units[i];
        let lone = if 0xd800 <= unit && unit <= 0xdbff {
            !(units.len() - i > 1 && 0xdc00 <= units[i + 1] && units[i + 1] <= 0xdfff)
        } else if 0xdc00 <= unit && unit <= 0xdfff {
            !(i > 0 && 0xd800 <= units[i - 1] && units[i - 1] <= 0xdbff)
        } else {
            false
        };
        assert(lone == !is_paired(units@, i as int));
        if lone {
            return false;
        }
        i = i + 1;
    }
    true
}

/// The units up to the last one that is no space.
pub open spec fn without_trailing_spaces(units: Seq<u16>) -> Seq<u16>
    decreases units.len(),
{
    if units.len() > 0 && units.last() == SPACE {
        without_trailing_spaces(units.drop_last())
    } else {
        units
    }
}

/// The part of a name that decides whether it names a device: what stands before the first dot,
/// without the spaces behind it, in capitals.
pub open spec fn device_stem(name: Seq<u16>) -> Seq<u16> {
    without_trailing_spaces(text::split(name, |unit: u16| unit == DOT).first()).map_values(
        |unit: u16| capital(unit),
    )
}

/// A digit that can stand behind the name of a port: `1` to `9`, `¹`, `²` or `³`.
pub open spec fn is_port_digit(unit: u16) -> bool {
    0x31 <= unit <= 0x39 || unit == 0xb9 || unit == 0xb2 || unit == 0xb3
}

/// The name of a device, in capitals.
pub open spec fn is_device(name: Seq<u16>) -> bool {
    ||| name == wide("AUX"@)
    ||| name == wide("CON"@)
    ||| name == wide("NUL"@)
    ||| name == wide("PRN"@)
    ||| {
        &&& name.len() == 4
        &&& name.take(3) == wide("COM"@) || name.take(3) == wide("LPT"@)
        &&& is_port_digit(name[3])
    }
}

/// The name is that of a device, whatever stands behind it.
pub open spec fn is_reserved(name: Seq<u16>) -> bool {
    is_device(device_stem(name))
}

/// A code unit that a name cannot have.
pub open spec fn is_forbidden(unit: u16) -> bool {
    ||| unit < SPACE
    ||| unit == 0x3c  // <
    ||| unit == 0x3e  // >
    ||| unit == COLON
    ||| unit == 0x22  // "
    ||| unit == SLASH
    ||| unit == BACKSLASH
    ||| unit == 0x7c  // |
    ||| unit == QUESTION_MARK
    ||| unit == 0x2a  // *

}

/// The name is one that the Shell takes in a path without a prefix.
pub open spec fn is_legacy(name: Seq<u16>) -> bool {
    &&& is_text(name)
    &&& 0 < name.len() <= MAX_SHELL_FILE_NAME_CODE_UNITS
    &&& name.last() != SPACE
    &&& name.last() != DOT
    &&& !is_reserved(name)
    &&& forall|i: int| 0 <= i < name.len() ==> !is_forbidden(#[trigger] name[i])
}

/// Tells whether code units are those of an ASCII text.
fn units_equal(units: &[u16], text: &str) -> (equal: bool)
    ensures
        equal == (units@ == wide(text@)),
{
    let bytes = to_ascii_bytes(text);
    if units.len() != bytes.len() {
        return false;
    }
    let mut i: usize = 0;
    while i < units.len()
        invariant
            i <= units@.len(),
            units@.len() == bytes@.len(),
            bytes@ == text::ascii_bytes(text@),
            forall|k: int| 0 <= k < i ==> units@[k] == wide(text@)[k],
        decreases units@.len() - i,
    {
        if units[i] != bytes[i] as u16 {
            assert(units@[i as int] != wide(text@)[i as int]);
            return false;
        }
        i = i + 1;
    }
    assert(units@ =~= wide(text@));
    true
}

/// The part of a name that decides whether it names a device.
fn to_device_stem(name: &[u16]) -> (stem: Vec<u16>)
    ensures
        stem@ == device_stem(name@),
{
    let separates = |unit: u16| -> (dot: bool)
        ensures
            dot == (unit == DOT),
        { unit == DOT };
    let pieces = split_items(name, separates, Ghost(|unit: u16| unit == DOT));
    proof {
        text::lemma_split_is_not_empty(name@, |unit: u16| unit == DOT);
        assert(text::contents_of(pieces@).first() == pieces@[0]@);
    }
    let before_dot = pieces[0].as_slice();
    let mut end: usize = before_dot.len();
    assert(before_dot@.take(end as int) =~= before_dot@);
    while end > 0 && before_dot[end - 1] == SPACE
        invariant
            end <= before_dot@.len(),
            without_trailing_spaces(before_dot@.take(end as int)) == without_trailing_spaces(
                before_dot@,
            ),
        decreases end,
    {
        assert(before_dot@.take(end as int).drop_last() =~= before_dot@.take(end - 1));
        end = end - 1;
    }
    let ghost kept = before_dot@.take(end as int);
    assert(without_trailing_spaces(before_dot@) == kept);
    let mut stem: Vec<u16> = Vec::new();
    let mut i: usize = 0;
    while i < end
        invariant
            i <= end <= before_dot@.len(),
            kept == before_dot@.take(end as int),
            stem@ =~= kept.take(i as int).map_values(|unit: u16| capital(unit)),
        decreases end - i,
    {
        stem.push(to_capital(before_dot[i]));
        i = i + 1;
    }
    assert(kept.take(end as int) =~= kept);
    stem
}

/// Tells whether a name is that of a device, whatever stands behind it.
pub fn is_reserved_device_name(file_name: &[u16]) -> (reserved: bool)
    ensures
        reserved == is_reserved(file_name@),
{
    let stem = to_device_stem(file_name);
    let stem = stem.as_slice();
    if stem.len() == 4 {
        let port = slice_subrange(stem, 0, 3);
        assert(port@ =~= stem@.take(3));
        let digit = stem[3];
        proof {
            reveal_strlit("AUX");
            reveal_strlit("CON");
            reveal_strlit("NUL");
            reveal_strlit("PRN");
        }
        (units_equal(port, "COM") || units_equal(port, "LPT")) && (0x31 <= digit && digit <= 0x39
            || digit == 0xb9 || digit == 0xb2 || digit == 0xb3)
    } else {
        units_equal(stem, "AUX") || units_equal(stem, "CON") || units_equal(stem, "NUL")
            || units_equal(stem, "PRN")
    }
}

/// Tells whether the Shell takes a name in a path without a prefix.
pub fn is_legacy_file_name(file_name: &[u16]) -> (legacy: bool)
    ensures
        legacy == is_legacy(file_name@),
{
    if !encodes_text(file_name) {
        return false;
    }
    if file_name.len() == 0 || file_name.len() > MAX_SHELL_FILE_NAME_CODE_UNITS {
        return false;
    }
    let last = file_name[file_name.len() - 1];
    if last == SPACE || last == DOT || is_reserved_device_name(file_name) {
        return false;
    }
    let mut i: usize = 0;
    while i < file_name.len()
        invariant
            i <= file_name@.len(),
            forall|k: int| 0 <= k < i ==> !is_forbidden(#[trigger] file_name@[k]),
        decreases file_name@.len() - i,
    {
        let unit = file_name[i];
        if unit < SPACE || unit == 0x3c || unit == 0x3e || unit == COLON || unit == 0x22 || unit
            == SLASH || unit == BACKSLASH || unit == 0x7c || unit == QUESTION_MARK || unit == 0x2a {
            assert(is_forbidden(file_name@[i as int]));
            return false;
        }
        i = i + 1;
    }
    true
}

/// The path starts with `\\?\`, the letter of a drive, a colon and a separator.
pub open spec fn is_on_verbatim_disk(path: Seq<u16>) -> bool {
    &&& path.len() >= VERBATIM_DISK_CODE_UNITS
    &&& path[0] == BACKSLASH
    &&& path[1] == BACKSLASH
    &&& path[2] == QUESTION_MARK
    &&& path[3] == BACKSLASH
    &&& is_letter(path[4])
    &&& path[5] == COLON
    &&& path[6] == BACKSLASH || path[6] == SLASH
}

/// The names of a path on a verbatim disk. Only backslashes separate them.
pub open spec fn verbatim_names(path: Seq<u16>) -> Seq<Seq<u16>> {
    text::fields(path.skip(VERBATIM_DISK_CODE_UNITS as int), |unit: u16| unit == BACKSLASH)
}

/// The names, with backslashes between them.
pub open spec fn joined(names: Seq<Seq<u16>>) -> Seq<u16>
    decreases names.len(),
{
    if names.len() == 0 {
        Seq::empty()
    } else if names.len() == 1 {
        names[0]
    } else {
        joined(names.drop_last()).push(BACKSLASH) + names.last()
    }
}

/// The path on a drive that these names have.
pub open spec fn on_drive(letter: u16, names: Seq<Seq<u16>>) -> Seq<u16> {
    seq![capital(letter), COLON, BACKSLASH] + joined(names)
}

/// The path without a prefix that names the same item, where there is one that the Shell takes.
pub open spec fn compatible_path(path: Seq<u16>) -> Option<Seq<u16>> {
    let names = verbatim_names(path);
    let found = on_drive(path[4], names);
    if is_on_verbatim_disk(path) && (forall|i: int|
        0 <= i < names.len() ==> is_legacy(#[trigger] names[i])) && found.len() + 1
        <= MAX_UNPREFIXED_SHELL_PATH_CODE_UNITS_WITH_NUL {
        Some(found)
    } else {
        None
    }
}

/// What an optional path says.
pub open spec fn path_view(path: Option<Vec<u16>>) -> Option<Seq<u16>> {
    match path {
        Some(path) => Some(path@),
        None => None,
    }
}

/// The path without a prefix that names the same item, where there is one that the Shell takes.
pub fn shell_path(path: &[u16]) -> (shell_path: Option<Vec<u16>>)
    ensures
        path_view(shell_path) == compatible_path(path@),
{
    if path.len() < VERBATIM_DISK_CODE_UNITS || path[0] != BACKSLASH || path[1] != BACKSLASH
        || path[2] != QUESTION_MARK || path[3] != BACKSLASH || path[5] != COLON {
        return None;
    }
    let drive = path[4];
    if !(0x41 <= drive && drive <= 0x5a || 0x61 <= drive && drive <= 0x7a) {
        return None;
    }
    if path[6] != BACKSLASH && path[6] != SLASH {
        return None;
    }
    let body = slice_subrange(path, VERBATIM_DISK_CODE_UNITS, path.len());
    assert(body@ =~= path@.skip(VERBATIM_DISK_CODE_UNITS as int));
    let separates = |unit: u16| -> (found: bool)
        ensures
            found == (unit == BACKSLASH),
        { unit == BACKSLASH };
    let pieces = fields_of(body, separates, Ghost(|unit: u16| unit == BACKSLASH));
    let ghost names = text::contents_of(pieces@);
    assert(names == verbatim_names(path@));
    let mut found: Vec<u16> = Vec::new();
    found.push(to_capital(drive));
    found.push(COLON);
    found.push(BACKSLASH);
    assert(found@ =~= on_drive(drive, names.take(0)));
    let mut i: usize = 0;
    while i < pieces.len()
        invariant
            i <= pieces@.len(),
            names == text::contents_of(pieces@),
            names == verbatim_names(path@),
            drive == path@[4],
            forall|k: int| 0 <= k < i ==> is_legacy(#[trigger] names[k]),
            found@ == on_drive(drive, names.take(i as int)),
        decreases pieces@.len() - i,
    {
        let name = pieces[i].as_slice();
        assert(name@ == names[i as int]);
        if !is_legacy_file_name(name) {
            return None;
        }
        let ghost before = found@;
        if i > 0 {
            found.push(BACKSLASH);
        }
        let mut units = slice_to_vec(name);
        found.append(&mut units);
        assert(names.take(i + 1).drop_last() =~= names.take(i as int));
        assert(names.take(i + 1).last() == name@);
        assert(found@ =~= on_drive(drive, names.take(i + 1)));
        i = i + 1;
    }
    assert(names.take(names.len() as int) =~= names);
    if found.len() >= MAX_UNPREFIXED_SHELL_PATH_CODE_UNITS_WITH_NUL {
        return None;
    }
    Some(found)
}

/// What is wrong with the units that the Shell is to read as a name.
#[derive(Clone, Copy, Debug, PartialEq, Eq, Structural)]
pub enum NameFault {
    /// There are none.
    Empty,
    /// No NUL stands at their end.
    NotTerminated,
    /// A NUL stands before their end.
    InteriorNul,
}

/// What is wrong with the units that the Shell is to read as a name, if anything.
pub open spec fn name_fault(name: Seq<u16>) -> Option<NameFault> {
    if name.len() == 0 {
        Some(NameFault::Empty)
    } else if name.last() != NUL {
        Some(NameFault::NotTerminated)
    } else if name.drop_last().contains(NUL) {
        Some(NameFault::InteriorNul)
    } else {
        None
    }
}

impl NameFault {
    /// The text that tells what is wrong.
    pub open spec fn text(self) -> Seq<char> {
        match self {
            NameFault::Empty => "Shell parsing name was empty"@,
            NameFault::NotTerminated => "Shell parsing name was not NUL-terminated"@,
            NameFault::InteriorNul => "Shell parsing name contained an interior NUL"@,
        }
    }

    /// The text that tells what is wrong.
    pub fn to_text(&self) -> (text: String)
        ensures
            text@ == self.text(),
    {
        match self {
            NameFault::Empty => "Shell parsing name was empty".to_owned(),
            NameFault::NotTerminated => "Shell parsing name was not NUL-terminated".to_owned(),
            NameFault::InteriorNul => "Shell parsing name contained an interior NUL".to_owned(),
        }
    }
}

/// Makes sure that the Shell can read units as a name: they end at their first NUL.
pub fn check_parsing_name(name: &[u16]) -> (checked: Result<(), NameFault>)
    ensures
        checked == (match name_fault(name@) {
            Some(fault) => Err(fault),
            None => Ok(()),
        }),
{
    if name.len() == 0 {
        return Err(NameFault::Empty);
    }
    let last: usize = name.len() - 1;
    if name[last] != NUL {
        return Err(NameFault::NotTerminated);
    }
    let without_nul = slice_subrange(name, 0, last);
    assert(without_nul@ =~= name@.drop_last());
    if has_nul(without_nul) {
        return Err(NameFault::InteriorNul);
    }
    Ok(())
}

/// The text that code units are shown as: UTF-16, with replacement characters for what is not.
pub uninterp spec fn lossy_wide_text(units: Seq<u16>) -> Seq<char>;

/// Shows code units as text, through `String::from_utf16_lossy`. The text is a function of the
/// units alone, and where no unit is half of a character, each unit is a character of it.
#[verifier::external_body]
fn to_lossy_wide_text(units: &[u16]) -> (text: String)
    ensures
        text@ == lossy_wide_text(units@),
        (forall|i: int|
            0 <= i < units@.len() ==> !is_high_surrogate(#[trigger] units@[i])
                && !is_low_surrogate(units@[i])) ==> text@ == units@.map_values(
            |unit: u16| unit as char,
        ),
{
    String::from_utf16_lossy(units)
}

/// Why there is no item of the Shell for a path.
#[derive(Debug)]
pub enum ItemError {
    /// The path cannot be handed to the Shell.
    Io { path: Vec<u16>, source: IoError },
    /// The Shell made no item.
    Platform { path: Vec<u16>, message: String },
}

/// What an [`ItemError`] says.
pub enum ItemErrorView {
    Io { path: Seq<u16>, source: IoErrorView },
    Platform { path: Seq<u16>, message: Seq<char> },
}

impl View for ItemError {
    type V = ItemErrorView;

    open spec fn view(&self) -> ItemErrorView {
        match self {
            ItemError::Io { path, source } => ItemErrorView::Io { path: path@, source: source@ },
            ItemError::Platform { path, message } => ItemErrorView::Platform {
                path: path@,
                message: message@,
            },
        }
    }
}

/// Asks the Shell for the item that a path names: by the path without a prefix, where there is
/// one, and then by the path itself.
#[derive(Debug)]
pub struct FindItem {
    path: Vec<u16>,
    name: Vec<u16>,
    compatible: bool,
    refusal: Option<String>,
}

/// What a [`FindItem`] has come to.
pub struct FindItemView {
    /// The path.
    pub path: Seq<u16>,
    /// The name that the Shell is asked for.
    pub name: Seq<u16>,
    /// The name is that of the path without a prefix.
    pub compatible: bool,
    /// Why the Shell made no item for the path without a prefix, if it was asked.
    pub refusal: Option<Seq<char>>,
}

/// What an optional text says.
pub open spec fn text_view(text: Option<String>) -> Option<Seq<char>> {
    match text {
        Some(text) => Some(text@),
        None => None,
    }
}

impl View for FindItem {
    type V = FindItemView;

    closed spec fn view(&self) -> FindItemView {
        FindItemView {
            path: self.path@,
            name: self.name@,
            compatible: self.compatible,
            refusal: text_view(self.refusal),
        }
    }
}

/// What a search, or the failure to go on with it, says.
pub open spec fn search_view(search: Result<FindItem, ItemError>) -> Result<
    FindItemView,
    ItemErrorView,
> {
    match search {
        Ok(search) => Ok(search@),
        Err(error) => Err(error@),
    }
}

/// The Shell is asked for the path itself.
pub open spec fn find_original(path: Seq<u16>, refusal: Option<Seq<char>>) -> Result<
    FindItemView,
    ItemErrorView,
> {
    match path::terminated(path) {
        Ok(name) => Ok(FindItemView { path, name, compatible: false, refusal }),
        Err(source) => Err(ItemErrorView::Io { path, source }),
    }
}

/// How the search for the item that a path names starts.
pub open spec fn find_item(path: Seq<u16>) -> Result<FindItemView, ItemErrorView> {
    match compatible_path(path) {
        Some(compatible) => match path::terminated(compatible) {
            Ok(name) => Ok(FindItemView { path, name, compatible: true, refusal: None }),
            Err(source) => Err(ItemErrorView::Io { path: compatible, source }),
        },
        None => find_original(path, None),
    }
}

/// The Shell made an item for none of the names.
pub open spec fn no_item(path: Seq<u16>, refusal: Option<Seq<char>>, reason: Seq<char>)
    -> ItemErrorView {
    let start = "Failed to create Windows shell item for "@ + lossy_wide_text(path) + ": "@;
    ItemErrorView::Platform {
        path,
        message: match refusal {
            Some(refusal) => start + refusal + "; "@ + reason,
            None => start + reason,
        },
    }
}

impl FindItemView {
    /// The Shell made no item for the name: after the path without a prefix it is asked for the
    /// path itself.
    pub open spec fn refused(self, reason: Seq<char>) -> Result<FindItemView, ItemErrorView> {
        if self.compatible {
            find_original(self.path, Some(reason))
        } else {
            Err(no_item(self.path, self.refusal, reason))
        }
    }
}

impl FindItem {
    /// Starts to ask the Shell for the item that a path names.
    pub fn start(path: Vec<u16>) -> (search: Result<Self, ItemError>)
        ensures
            search_view(search) == find_item(path@),
    {
        match shell_path(path.as_slice()) {
            Some(compatible) => match wide_path(compatible.as_slice()) {
                Ok(name) => Ok(FindItem { path, name, compatible: true, refusal: None }),
                Err(source) => Err(ItemError::Io { path: compatible, source }),
            },
            None => Self::original(path, None),
        }
    }

    fn original(path: Vec<u16>, refusal: Option<String>) -> (search: Result<Self, ItemError>)
        ensures
            search_view(search) == find_original(path@, text_view(refusal)),
    {
        match wide_path(path.as_slice()) {
            Ok(name) => Ok(FindItem { path, name, compatible: false, refusal }),
            Err(source) => Err(ItemError::Io { path, source }),
        }
    }

    /// The name that the Shell is asked for, with a NUL behind it.
    pub fn parsing_name(&self) -> (name: &[u16])
        ensures
            name@ == self@.name,
    {
        self.name.as_slice()
    }

    /// Takes the reason for which the Shell made no item for the name.
    pub fn refused(self, reason: &str) -> (search: Result<Self, ItemError>)
        ensures
            search_view(search) == self@.refused(reason@),
    {
        if self.compatible {
            return Self::original(self.path, Some(reason.to_owned()));
        }
        let start = "Failed to create Windows shell item for ".to_owned().concat(
            to_lossy_wide_text(self.path.as_slice()).as_str(),
        ).concat(": ");
        let message = match &self.refusal {
            Some(refusal) => start.concat(refusal.as_str()).concat("; ").concat(reason),
            None => start.concat(reason),
        };
        Err(ItemError::Platform { path: self.path, message })
    }
}

/// A time as Windows hands it out, in two halves.
#[derive(Clone, Copy, Debug, PartialEq, Eq, Structural)]
pub struct FileTimeParts {
    /// The lower half.
    pub low: u32,
    /// The upper half.
    pub high: u32,
}

/// A time as Windows counts it: the ticks of 100 nanoseconds since the start of 1601 in UTC.
#[derive(Clone, Copy, Debug, PartialEq, Eq, Structural)]
pub struct FileTime(pub u64);

/// The time of the system clock that is the same as one that Windows counts.
pub open spec fn is_time_of(file_time: FileTime, time: SystemTime) -> bool {
    &&& time.is_normal()
    &&& time.nanoseconds_since_epoch() == (file_time.0 - UNIX_EPOCH_FILE_TIME_TICKS)
        * NANOSECONDS_PER_FILE_TIME_TICK
}

impl FileTime {
    /// The time that two halves make.
    pub fn from_windows(file_time: FileTimeParts) -> (time: Self)
        ensures
            time.0 == file_time.high * 0x1_0000_0000 + file_time.low,
    {
        let high = file_time.high as u64;
        let low = file_time.low as u64;
        assert((high << 32) | low == high * 0x1_0000_0000 + low) by (bit_vector)
            requires
                high <= 0xffff_ffff,
                low <= 0xffff_ffff,
        ;
        FileTime((high << 32) | low)
    }

    /// The same time, as the system clock has it.
    pub fn to_system_time(self) -> (time: SystemTime)
        ensures
            is_time_of(self, time),
    {
        let before_epoch = self.0 < UNIX_EPOCH_FILE_TIME_TICKS;
        let ticks_from_unix_epoch = if before_epoch {
            UNIX_EPOCH_FILE_TIME_TICKS - self.0
        } else {
            self.0 - UNIX_EPOCH_FILE_TIME_TICKS
        };
        let seconds = ticks_from_unix_epoch / FILE_TIME_TICKS_PER_SECOND;
        let nanoseconds = (ticks_from_unix_epoch % FILE_TIME_TICKS_PER_SECOND)
            * NANOSECONDS_PER_FILE_TIME_TICK;
        SystemTime { before_epoch, seconds, nanoseconds: nanoseconds as u32 }
    }
}

proof fn lemma_joined_holds_no_nul(names: Seq<Seq<u16>>)
    requires
        forall|i: int| 0 <= i < names.len() ==> is_legacy(#[trigger] names[i]),
    ensures
        forall|i: int| 0 <= i < joined(names).len() ==> #[trigger] joined(names)[i] != NUL,
    decreases names.len(),
{
    if names.len() > 0 {
        let last = names[names.len() - 1];
        assert(is_legacy(last));
        assert forall|i: int| 0 <= i < last.len() implies #[trigger] last[i] != NUL by {
            assert(!is_forbidden(last[i]));
        }
        if names.len() > 1 {
            let before = names.drop_last();
            assert forall|i: int| 0 <= i < before.len() implies is_legacy(#[trigger] before[i]) by {
                assert(before[i] == names[i]);
            }
            lemma_joined_holds_no_nul(before);
            let start = joined(before).push(BACKSLASH);
            assert forall|i: int| 0 <= i < joined(names).len() implies #[trigger] joined(names)[i]
                != NUL by {
                if i >= start.len() {
                    assert(joined(names)[i] == last[i - start.len()]);
                } else if i < start.len() - 1 {
                    assert(joined(names)[i] == joined(before)[i]);
                }
            }
        }
    }
}

/// A path without a prefix starts at a drive whose letter is a capital, is short enough for the
/// Shell, and holds no NUL, so that it can always be handed to the Shell.
pub proof fn compatible_paths_suit_the_shell(path: Seq<u16>)
    ensures
        compatible_path(path) matches Some(found) ==> {
            &&& 3 <= found.len() < MAX_UNPREFIXED_SHELL_PATH_CODE_UNITS_WITH_NUL
            &&& 0x41 <= found[0] <= 0x5a
            &&& found[1] == COLON
            &&& found[2] == BACKSLASH
            &&& path::terminated(found) is Ok
        },
{
    if let Some(found) = compatible_path(path) {
        let names = verbatim_names(path);
        lemma_joined_holds_no_nul(names);
        assert forall|i: int| 0 <= i < found.len() implies #[trigger] found[i] != NUL by {
            if i >= 3 {
                assert(found[i] == joined(names)[i - 3]);
            }
        }
    }
}

/// Whatever name the Shell is asked for, it can read it: a NUL is at its end and nowhere else.
pub proof fn parsing_names_have_no_fault(path: Seq<u16>, search: FindItemView, reason: Seq<char>)
    ensures
        find_item(path) matches Ok(search) ==> name_fault(search.name) is None,
        search.refused(reason) matches Ok(next) ==> name_fault(next.name) is None,
{
    assert forall|units: Seq<u16>| !units.contains(NUL) implies name_fault(
        #[trigger] units.push(NUL),
    ) is None by {
        assert(units.push(NUL).drop_last() =~= units);
    }
}

/// The Shell is asked for at most two names: after the path itself there is no other.
pub proof fn at_most_two_names_are_tried(
    path: Seq<u16>,
    first: Seq<char>,
    second: Seq<char>,
)
    ensures
        find_item(path) matches Ok(search) ==> (search.refused(first) matches Ok(next)
            ==> next.refused(second) is Err),
{
}

/// Later ticks are later times.
pub proof fn file_times_keep_their_order(
    earlier: FileTime,
    later: FileTime,
    earlier_time: SystemTime,
    later_time: SystemTime,
)
    requires
        earlier.0 < later.0,
        is_time_of(earlier, earlier_time),
        is_time_of(later, later_time),
    ensures
        earlier_time.nanoseconds_since_epoch() < later_time.nanoseconds_since_epoch(),
{
}

/// The path starts with `\\?\`, the letter of a drive, a colon and a backslash or a slash.
pub open spec fn has_verbatim_drive(path: Seq<u16>) -> bool {
    &&& path.len() >= 7
    &&& path.take(4) == seq![0x5cu16, 0x5cu16, 0x3fu16, 0x5cu16]
    &&& 0x41 <= path[4] <= 0x5a || 0x61 <= path[4] <= 0x7a
    &&& path[5] == 0x3a
    &&& path[6] == 0x5c || path[6] == 0x2f
}

/// How many code units the names have, with one between each of them and the next.
pub open spec fn length_of(names: Seq<Seq<u16>>) -> int
    decreases names.len(),
{
    if names.len() == 0 {
        0
    } else if names.len() == 1 {
        names[0].len() as int
    } else {
        length_of(names.drop_last()) + 1 + names.last().len()
    }
}

proof fn lemma_length_of(names: Seq<Seq<u16>>)
    ensures
        joined(names).len() == length_of(names),
    decreases names.len(),
{
    if names.len() > 1 {
        lemma_length_of(names.drop_last());
    }
}

proof fn lemma_split_joined(names: Seq<Seq<u16>>)
    requires
        names.len() > 0,
        forall|i: int| 0 <= i < names.len() ==> is_legacy(#[trigger] names[i]),
    ensures
        text::split(joined(names), |unit: u16| unit == 0x5c) == names,
    decreases names.len(),
{
    let separates = |unit: u16| unit == 0x5c;
    let last = names[names.len() - 1];
    assert(is_legacy(last));
    assert forall|i: int| 0 <= i < last.len() implies !separates(#[trigger] last[i]) by {
        assert(!is_forbidden(last[i]));
    }
    text::lemma_split_of_one_piece(last, separates);
    if names.len() == 1 {
        assert(names =~= seq![last]);
    } else {
        let before = names.drop_last();
        assert forall|i: int| 0 <= i < before.len() implies is_legacy(#[trigger] before[i]) by {
            assert(before[i] == names[i]);
        }
        lemma_split_joined(before);
        text::lemma_split_at_separator(joined(before), 0x5c, last, separates);
        assert(text::split(joined(names), separates) =~= names);
    }
}

/// A path without a prefix names the same item as the path on the verbatim disk: it starts at the
/// same drive, and what follows the drive has all the names of that path, in their order, with one
/// backslash between them. There is such a path exactly where the Shell takes each of the names,
/// and where it is short enough.
pub proof fn compatible_paths_name_the_same_item(path: Seq<u16>)
    ensures
        ({
            let names = text::fields(path.skip(7), |unit: u16| unit == 0x5c);
            &&& compatible_path(path) is Some <==> {
                &&& has_verbatim_drive(path)
                &&& forall|i: int| 0 <= i < names.len() ==> is_legacy(#[trigger] names[i])
                &&& 3 + length_of(names) < 260
            }
            &&& compatible_path(path) matches Some(found) ==> {
                &&& found[0] == path[4] || found[0] + 0x20 == path[4]
                &&& 0x41 <= found[0] <= 0x5a
                &&& found[1] == 0x3a
                &&& found[2] == 0x5c
                &&& found.len() == 3 + length_of(names)
                &&& names.len() > 0 ==> text::split(found.skip(3), |unit: u16| unit == 0x5c)
                    == names
            }
        }),
{
    let names = text::fields(path.skip(7), |unit: u16| unit == 0x5c);
    assert(names == verbatim_names(path));
    lemma_length_of(names);
    let start = seq![0x5cu16, 0x5cu16, 0x3fu16, 0x5cu16];
    assert(has_verbatim_drive(path) == is_on_verbatim_disk(path)) by {
        if is_on_verbatim_disk(path) {
            assert(path.take(4) =~= start);
        }
        if has_verbatim_drive(path) {
            assert(path.take(4)[0] == start[0] && path.take(4)[1] == start[1] && path.take(4)[2]
                == start[2] && path.take(4)[3] == start[3]);
        }
    }
    if let Some(found) = compatible_path(path) {
        assert(found.skip(3) =~= joined(names));
        if names.len() > 0 {
            lemma_split_joined(names);
        }
    }
}

/// A name that the Shell takes has at most 255 code units and at least one. None of them is a
/// control character or one of `< > : " / \ | ? *`, and the last one is neither a space nor a dot.
/// Every such name is taken that is a text and does not name a device.
pub proof fn legacy_names_have_plain_units(name: Seq<u16>)
    ensures
        is_legacy(name) <==> {
            &&& 0 < name.len() <= 255
            &&& forall|i: int|
                0 <= i < name.len() ==> (#[trigger] name[i]) >= 0x20 && !seq![
                    0x3cu16,
                    0x3eu16,
                    0x3au16,
                    0x22u16,
                    0x2fu16,
                    0x5cu16,
                    0x7cu16,
                    0x3fu16,
                    0x2au16,
                ].contains(name[i])
            &&& name[name.len() - 1] != 0x20
            &&& name[name.len() - 1] != 0x2e
            &&& is_text(name)
            &&& !is_reserved(name)
        },
{
    let marks = seq![
        0x3cu16,
        0x3eu16,
        0x3au16,
        0x22u16,
        0x2fu16,
        0x5cu16,
        0x7cu16,
        0x3fu16,
        0x2au16,
    ];
    assert(marks[0] == 0x3c && marks[1] == 0x3e && marks[2] == 0x3a && marks[3] == 0x22 && marks[4]
        == 0x2f && marks[5] == 0x5c && marks[6] == 0x7c && marks[7] == 0x3f && marks[8] == 0x2a);
    assert forall|unit: u16| #[trigger] is_forbidden(unit) == (unit < 0x20 || marks.contains(
        unit,
    )) by {
        if marks.contains(unit) {
            let k = choose|k: int| 0 <= k < marks.len() && marks[k] == unit;
            assert(0 <= k < 9);
        }
    }
    if name.len() > 0 {
        assert(name.last() == name[name.len() - 1]);
    }
    if is_legacy(name) {
        assert forall|i: int| 0 <= i < name.len() implies (#[trigger] name[i]) >= 0x20
            && !marks.contains(name[i]) by {
            assert(!is_forbidden(name[i]));
        }
    } else if 0 < name.len() <= 255 && (forall|i: int|
        0 <= i < name.len() ==> (#[trigger] name[i]) >= 0x20 && !marks.contains(name[i])) {
        assert forall|i: int| 0 <= i < name.len() implies !is_forbidden(#[trigger] name[i]) by {}
    }
}

/// Code units encode a text exactly where each half of a character has its other half beside it,
/// the first one first.
pub proof fn texts_have_whole_characters(units: Seq<u16>, unit: u16, high: u16, low: u16)
    requires
        !(0xd800 <= unit <= 0xdfff),
        0xd800 <= high <= 0xdbff,
        0xdc00 <= low <= 0xdfff,
    ensures
        is_text(Seq::<u16>::empty()),
        is_text(units.push(unit)) == is_text(units),
        is_text(units.push(high).push(low)) == is_text(units),
        !is_text(units.push(high)),
        is_text(units) ==> !is_text(units.push(low)),
{
    let plain = units.push(unit);
    let pair = units.push(high).push(low);
    let count = units.len() as int;
    if is_text(units) {
        assert forall|i: int| 0 <= i < plain.len() implies is_paired(plain, i) by {
            if i < count {
                assert(is_paired(units, i));
            }
        }
        assert forall|i: int| 0 <= i < pair.len() implies is_paired(pair, i) by {
            if i < count {
                assert(is_paired(units, i));
            }
        }
        let lone = units.push(low);
        if is_text(lone) {
            assert(is_paired(lone, count));
            assert(is_paired(units, count - 1));
        }
    }
    if is_text(plain) {
        assert forall|i: int| 0 <= i < count implies is_paired(units, i) by {
            assert(is_paired(plain, i));
        }
    }
    if is_text(pair) {
        assert forall|i: int| 0 <= i < count implies is_paired(units, i) by {
            assert(is_paired(pair, i));
        }
    }
    if is_text(units.push(high)) {
        assert(is_paired(units.push(high), count));
    }
}

/// The name has no dot and ends in no space.
pub open spec fn is_stem(name: Seq<u16>) -> bool {
    &&& forall|i: int| 0 <= i < name.len() ==> #[trigger] name[i] != 0x2e
    &&& name.len() > 0 ==> name[name.len() - 1] != 0x20
}

/// The code units are the same but for the case of ASCII letters.
pub open spec fn is_same_but_for_case(left: Seq<u16>, right: Seq<u16>) -> bool {
    &&& left.len() == right.len()
    &&& forall|i: int|
        0 <= i < left.len() ==> #[trigger] left[i] == right[i] || (0x41 <= left[i] <= 0x5a
            && right[i] == left[i] + 0x20)
}

/// The name of a device, in capitals: `AUX`, `CON`, `NUL`, `PRN`, or `COM` or `LPT` with a digit
/// from 1 to 9, or one of the raised digits from 1 to 3, behind it.
pub open spec fn is_device_name(name: Seq<u16>) -> bool {
    ||| name == seq![0x41u16, 0x55u16, 0x58u16]
    ||| name == seq![0x43u16, 0x4fu16, 0x4eu16]
    ||| name == seq![0x4eu16, 0x55u16, 0x4cu16]
    ||| name == seq![0x50u16, 0x52u16, 0x4eu16]
    ||| {
        &&& name.len() == 4
        &&& name.take(3) == seq![0x43u16, 0x4fu16, 0x4du16] || name.take(3) == seq![
            0x4cu16,
            0x50u16,
            0x54u16,
        ]
        &&& 0x31 <= name[3] <= 0x39 || name[3] == 0xb9 || name[3] == 0xb2 || name[3] == 0xb3
    }
}

/// Whether a name is that of a device is decided by what stands before its first dot, without the
/// spaces behind that, and whatever the case of its letters is.
pub proof fn device_names_are_reserved(
    capitals: Seq<u16>,
    stem: Seq<u16>,
    spaces: nat,
    extension: Seq<u16>,
)
    requires
        is_stem(capitals),
        is_same_but_for_case(capitals, stem),
        forall|i: int| 0 <= i < capitals.len() ==> !(0x61 <= #[trigger] capitals[i] <= 0x7a),
    ensures
        is_reserved(stem) == is_device_name(capitals),
        ({
            let padded = stem + Seq::new(spaces, |i: int| 0x20u16);
            &&& is_reserved(padded) == is_device_name(capitals)
            &&& is_reserved(padded.push(0x2e) + extension) == is_device_name(capitals)
        }),
{
    let dots = |unit: u16| unit == DOT;
    let padded = stem + Seq::new(spaces, |i: int| 0x20u16);
    assert forall|i: int| 0 <= i < stem.len() implies #[trigger] stem[i] != 0x2e by {
        assert(capitals[i] != 0x2e);
    }
    assert forall|i: int| 0 <= i < padded.len() implies !dots(#[trigger] padded[i]) by {
        if i < stem.len() {
            assert(padded[i] == stem[i]);
        }
    }
    text::lemma_split_of_one_piece(padded, dots);
    text::lemma_split_at_separator(padded, DOT, extension, dots);
    text::lemma_split_is_not_empty(extension, dots);
    assert(text::split(padded, dots).first() == padded);
    assert(text::split(padded.push(DOT) + extension, dots).first() == padded);
    assert forall|i: int| 0 <= i < stem.len() implies !dots(#[trigger] stem[i]) by {}
    text::lemma_split_of_one_piece(stem, dots);
    assert(text::split(stem, dots).first() == stem);
    if stem.len() > 0 {
        assert(capitals[capitals.len() - 1] != 0x20);
        assert(stem.last() != 0x20);
    }
    lemma_trailing_spaces(stem, spaces);
    lemma_trailing_spaces(stem, 0);
    assert(stem + Seq::new(0, |i: int| 0x20u16) =~= stem);
    let made = stem.map_values(|unit: u16| capital(unit));
    assert forall|i: int| 0 <= i < capitals.len() implies made[i] == capitals[i] by {
        assert(capitals[i] == stem[i] || (0x41 <= capitals[i] <= 0x5a && stem[i] == capitals[i]
            + 0x20));
    }
    assert(made =~= capitals);
    lemma_devices(capitals);
}

proof fn lemma_trailing_spaces(stem: Seq<u16>, spaces: nat)
    requires
        stem.len() > 0 ==> stem.last() != SPACE,
    ensures
        without_trailing_spaces(stem + Seq::new(spaces, |i: int| 0x20u16)) == stem,
    decreases spaces,
{
    let padded = stem + Seq::new(spaces, |i: int| 0x20u16);
    if spaces == 0 {
        assert(padded =~= stem);
    } else {
        let less = (spaces - 1) as nat;
        lemma_trailing_spaces(stem, less);
        assert(padded.drop_last() =~= stem + Seq::new(less, |i: int| 0x20u16));
    }
}

proof fn lemma_devices(name: Seq<u16>)
    ensures
        is_device(name) == is_device_name(name),
{
    reveal_strlit("AUX");
    reveal_strlit("CON");
    reveal_strlit("NUL");
    reveal_strlit("PRN");
    reveal_strlit("COM");
    reveal_strlit("LPT");
    assert(wide("AUX"@) =~= seq![0x41u16, 0x55u16, 0x58u16]);
    assert(wide("CON"@) =~= seq![0x43u16, 0x4fu16, 0x4eu16]);
    assert(wide("NUL"@) =~= seq![0x4eu16, 0x55u16, 0x4cu16]);
    assert(wide("PRN"@) =~= seq![0x50u16, 0x52u16, 0x4eu16]);
    assert(wide("COM"@) =~= seq![0x43u16, 0x4fu16, 0x4du16]);
    assert(wide("LPT"@) =~= seq![0x4cu16, 0x50u16, 0x54u16]);
}

/// The search ended because the path cannot be handed to the Shell.
pub open spec fn is_unfit(result: Result<FindItemView, ItemErrorView>, path: Seq<u16>) -> bool {
    result matches Err(ItemErrorView::Io { path: failed, .. }) && failed == path
}

/// The search ended because the Shell made no item.
pub open spec fn is_over(result: Result<FindItemView, ItemErrorView>, path: Seq<u16>) -> bool {
    result matches Err(ItemErrorView::Platform { path: failed, .. }) && failed == path
}

/// The search goes on with this name.
pub open spec fn asks_for(
    result: Result<FindItemView, ItemErrorView>,
    path: Seq<u16>,
    name: Seq<u16>,
) -> bool {
    result matches Ok(search) && search.path == path && search.name == name
}

/// The Shell is asked for the path without a prefix, where there is one, and then for the path
/// itself, each with a NUL behind it. Only a path that holds a NUL cannot be asked for, and the
/// search ends when the Shell has made no item for the path itself.
pub proof fn shell_is_asked_for_both_names(
    path: Seq<u16>,
    first: Seq<char>,
    second: Seq<char>,
)
    ensures
        compatible_path(path) matches Some(found) ==> {
            let next = find_item(path)->Ok_0.refused(first);
            &&& asks_for(find_item(path), path, found.push(0))
            &&& path.contains(0) ==> is_unfit(next, path)
            &&& !path.contains(0) ==> asks_for(next, path, path.push(0)) && is_over(
                next->Ok_0.refused(second),
                path,
            )
        },
        compatible_path(path) is None && path.contains(0) ==> is_unfit(find_item(path), path),
        compatible_path(path) is None && !path.contains(0) ==> asks_for(
            find_item(path),
            path,
            path.push(0),
        ) && is_over(find_item(path)->Ok_0.refused(first), path),
{
    compatible_paths_suit_the_shell(path);
}

/// When the Shell has made no item, the error names the path, and its message tells the path and
/// why the Shell made none, for each of the names that it was asked for and in that order.
pub proof fn refusals_tell_all_reasons(path: Seq<u16>, first: Seq<char>, second: Seq<char>)
    requires
        !path.contains(0),
    ensures
        compatible_path(path) is Some ==> find_item(path)->Ok_0.refused(first)->Ok_0.refused(second)
            == Err::<FindItemView, ItemErrorView>(
            ItemErrorView::Platform {
                path,
                message: "Failed to create Windows shell item for "@ + lossy_wide_text(path) + ": "@
                    + first + "; "@ + second,
            },
        ),
        compatible_path(path) is None ==> find_item(path)->Ok_0.refused(first) == Err::<
            FindItemView,
            ItemErrorView,
        >(
            ItemErrorView::Platform {
                path,
                message: "Failed to create Windows shell item for "@ + lossy_wide_text(path) + ": "@
                    + first,
            },
        ),
{
    shell_is_asked_for_both_names(path, first, second);
    compatible_paths_suit_the_shell(path);
}

/// Units can be read as a name exactly where a NUL is at their end and nowhere else.
pub proof fn names_end_at_their_first_nul(name: Seq<u16>, units: Seq<u16>)
    ensures
        name_fault(name) is None <==> (name.len() > 0 && name[name.len() - 1] == 0 && forall|i: int|
            0 <= i < name.len() - 1 ==> #[trigger] name[i] != 0),
        !units.contains(0) ==> name_fault(units.push(0)) is None,
        name_fault(name) == Some(NameFault::Empty) <==> name.len() == 0,
        name_fault(name) == Some(NameFault::NotTerminated) <==> name.len() > 0
            && name[name.len() - 1] != 0,
{
    assert(units.push(0).drop_last() =~= units);
    if name.len() > 0 {
        let before = name.drop_last();
        if before.contains(NUL) {
            let i = choose|i: int| 0 <= i < before.len() && before[i] == NUL;
            assert(name[i] == 0);
        } else {
            assert forall|i: int| 0 <= i < name.len() - 1 implies #[trigger] name[i] != 0 by {
                assert(before[i] == name[i]);
                assert(before.contains(before[i]));
            }
        }
    }
}

/// A tick is 100 nanoseconds, and the start of 1970 is 11,644,473,600 seconds after that of 1601.
pub proof fn ticks_count_from_1601(file_time: FileTime, time: SystemTime)
    requires
        is_time_of(file_time, time),
    ensures
        time.nanoseconds_since_epoch() == file_time.0 * 100 - 11_644_473_600_000_000_000,
        time.nanoseconds < 1_000_000_000,
        time.before_epoch <==> file_time.0 < 116_444_736_000_000_000,
{
}

} // verus!
