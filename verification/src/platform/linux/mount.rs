//! The mount points of the system, and which of them holds a path.

use vstd::prelude::*;

use crate::error::{self, Error, ErrorView, IoError, IoErrorView};
use crate::path::{self, PathBuf};
use crate::text::{self, fields_of, to_ascii_bytes};

verus! {

/// The byte `\\`, which starts an escape in the path of a mount point.
pub const BACKSLASH: u8 = 0x5c;

/// The byte `-`, which alone makes up the field behind a line's optional fields.
pub const DASH: u8 = 0x2d;

/// The file that lists the mount points.
pub open spec fn mount_info_path() -> Seq<u8> {
    text::ascii_bytes("/proc/self/mountinfo"@)
}

/// Where a filesystem is mounted.
#[derive(Debug, PartialEq, Eq)]
pub struct MountPoint(pub PathBuf);

impl View for MountPoint {
    type V = Seq<u8>;

    open spec fn view(&self) -> Seq<u8> {
        self.0@
    }
}

impl Clone for MountPoint {
    fn clone(&self) -> (copy: Self)
        ensures
            copy@ == self@,
    {
        MountPoint(self.0.clone())
    }
}

impl MountPoint {
    /// The path of the mount point.
    pub fn as_path(&self) -> (path: &PathBuf)
        ensures
            path@ == self@,
    {
        &self.0
    }
}

/// What is read of one line of the mount table.
#[derive(Debug, PartialEq, Eq)]
pub struct MountInfo {
    /// Where the filesystem is mounted.
    pub mount_point: MountPoint,
}

/// Why a line of the mount table cannot be read.
#[derive(Clone, Copy, Debug, PartialEq, Eq, Structural)]
pub enum MountParseError {
    /// No field of the line is a lone `-`.
    MissingSeparator,
    /// There are fewer than five fields before the lone `-`.
    MissingMountPoint,
    /// A backslash is not followed by three octal digits of a byte.
    InvalidPathEscape,
}

/// The paths of the mount points.
pub open spec fn mount_paths(entries: Seq<MountInfo>) -> Seq<Seq<u8>> {
    entries.map_values(|entry: MountInfo| entry.mount_point@)
}

/// The byte is ASCII white space.
pub open spec fn is_space(byte: u8) -> bool {
    byte == 0x20 || byte == 0x09 || byte == 0x0a || byte == 0x0c || byte == 0x0d
}

/// The byte ends a line.
pub open spec fn is_newline(byte: u8) -> bool {
    byte == 0x0a
}

/// The byte is an octal digit.
pub open spec fn is_octal(byte: u8) -> bool {
    0x30 <= byte <= 0x37
}

/// The number that three octal digits write.
pub open spec fn octal_value(first: u8, second: u8, third: u8) -> int {
    (first - 0x30) * 64 + (second - 0x30) * 8 + (third - 0x30)
}

/// The path that a field of the mount table writes: each backslash starts an escape, whose three
/// octal digits give one byte. Nothing, where an escape is cut off or gives no byte.
pub open spec fn decode_path(field: Seq<u8>) -> Option<Seq<u8>>
    decreases field.len(),
{
    if field.len() == 0 {
        Some(Seq::empty())
    } else if field[0] != BACKSLASH {
        match decode_path(field.skip(1)) {
            Some(rest) => Some(seq![field[0]] + rest),
            None => None,
        }
    } else if field.len() < 4 || !is_octal(field[1]) || !is_octal(field[2]) || !is_octal(field[3])
        || octal_value(field[1], field[2], field[3]) > 255 {
        None
    } else {
        match decode_path(field.skip(4)) {
            Some(rest) => Some(seq![octal_value(field[1], field[2], field[3]) as u8] + rest),
            None => None,
        }
    }
}

/// How many fields precede the first lone `-`; all of them, where there is none.
pub open spec fn fields_before_separator(fields: Seq<Seq<u8>>) -> int
    decreases fields.len(),
{
    if fields.len() == 0 || fields[0] == seq![DASH] {
        0
    } else {
        1 + fields_before_separator(fields.skip(1))
    }
}

/// The mount point that a line of the mount table gives: its fifth field, of those before the
/// first lone `-`.
pub open spec fn parse_line(line: Seq<u8>) -> Result<Seq<u8>, MountParseError> {
    let fields = text::fields(line, |byte: u8| is_space(byte));
    let count = fields_before_separator(fields);
    if count == fields.len() {
        Err(MountParseError::MissingSeparator)
    } else if count < 5 {
        Err(MountParseError::MissingMountPoint)
    } else {
        match decode_path(fields[4]) {
            Some(path) => Ok(path),
            None => Err(MountParseError::InvalidPathEscape),
        }
    }
}

/// The mount points of the lines, or what is wrong with the first line that cannot be read.
pub open spec fn parse_lines(lines: Seq<Seq<u8>>) -> Result<Seq<Seq<u8>>, MountParseError>
    decreases lines.len(),
{
    if lines.len() == 0 {
        Ok(Seq::empty())
    } else {
        match parse_lines(lines.drop_last()) {
            Err(error) => Err(error),
            Ok(found) => match parse_line(lines.last()) {
                Err(error) => Err(error),
                Ok(path) => Ok(found.push(path)),
            },
        }
    }
}

/// The mount points of a mount table, line by line; empty lines do not count.
pub open spec fn parse_table(contents: Seq<u8>) -> Result<Seq<Seq<u8>>, MountParseError> {
    parse_lines(text::fields(contents, |byte: u8| is_newline(byte)))
}

fn is_space_byte(byte: u8) -> (space: bool)
    ensures
        space == is_space(byte),
{
    byte == 0x20 || byte == 0x09 || byte == 0x0a || byte == 0x0c || byte == 0x0d
}

/// The path that a field of the mount table writes.
pub fn decode_mount_info_path(field: &[u8]) -> (decoded: Option<PathBuf>)
    ensures
        match decoded {
            Some(decoded) => decode_path(field@) == Some(decoded@),
            None => decode_path(field@) is None,
        },
{
    let mut bytes: Vec<u8> = Vec::new();
    let mut i: usize = 0;
    assert(field@.skip(0) =~= field@);
    while i < field.len()
        invariant
            i <= field@.len(),
            match decode_path(field@.skip(i as int)) {
                Some(rest) => decode_path(field@) == Some(bytes@ + rest),
                None => decode_path(field@) is None,
            },
        decreases field@.len() - i,
    {
        let ghost left = field@.skip(i as int);
        let ghost before = bytes@;
        let byte = field[i];
        if byte != BACKSLASH {
            assert(left.skip(1) =~= field@.skip(i + 1));
            bytes.push(byte);
            proof {
                if let Some(rest) = decode_path(field@.skip(i + 1)) {
                    assert(before + (seq![byte] + rest) =~= bytes@ + rest);
                }
            }
            i = i + 1;
        } else {
            if field.len() - i < 4 {
                return None;
            }
            let (first, second, third) = (field[i + 1], field[i + 2], field[i + 3]);
            if !is_octal_digit(first) || !is_octal_digit(second) || !is_octal_digit(third) {
                return None;
            }
            let value: u16 = (first - 0x30) as u16 * 64 + (second - 0x30) as u16 * 8 + (third
                - 0x30) as u16;
            if value > 255 {
                return None;
            }
            assert(left.skip(4) =~= field@.skip(i + 4));
            bytes.push(value as u8);
            proof {
                if let Some(rest) = decode_path(field@.skip(i + 4)) {
                    assert(before + (seq![value as u8] + rest) =~= bytes@ + rest);
                }
            }
            i = i + 4;
        }
    }
    proof {
        assert(field@.skip(i as int).len() == 0);
        assert(bytes@ + Seq::<u8>::empty() =~= bytes@);
    }
    Some(PathBuf::from_bytes(bytes))
}

fn is_octal_digit(byte: u8) -> (octal: bool)
    ensures
        octal == is_octal(byte),
{
    0x30 <= byte && byte <= 0x37
}

fn parse_mount_line(line: &[u8]) -> (parsed: Result<MountInfo, MountParseError>)
    ensures
        match parsed {
            Ok(entry) => parse_line(line@) == Ok::<Seq<u8>, MountParseError>(entry.mount_point@),
            Err(error) => parse_line(line@) == Err::<Seq<u8>, MountParseError>(error),
        },
{
    let separates = |byte: u8| -> (space: bool)
        ensures
            space == is_space(byte),
        { is_space_byte(byte) };
    let found = fields_of(line, separates, Ghost(|byte: u8| is_space(byte)));
    let ghost fields = text::fields(line@, |byte: u8| is_space(byte));
    let mut count: usize = 0;
    assert(fields.skip(0) =~= fields);
    while count < found.len()
        invariant_except_break
            fields_before_separator(fields) == count + fields_before_separator(
                fields.skip(count as int),
            ),
        invariant
            count <= found@.len(),
            fields == text::contents_of(found@),
        ensures
            fields_before_separator(fields) == count,
        decreases found@.len() - count,
    {
        let field = found[count].as_slice();
        assert(fields.skip(count as int)[0] == field@);
        if field.len() == 1 && field[0] == DASH {
            assert(field@ =~= seq![DASH]);
            break;
        }
        assert(field@ != seq![DASH]) by {
            if field@ == seq![DASH] {
                assert(field@[0] == DASH);
            }
        }
        assert(fields.skip(count as int).skip(1) =~= fields.skip(count + 1));
        count = count + 1;
    }
    if count == found.len() {
        return Err(MountParseError::MissingSeparator);
    }
    if count < 5 {
        return Err(MountParseError::MissingMountPoint);
    }
    assert(fields[4] == found@[4]@);
    match decode_mount_info_path(found[4].as_slice()) {
        Some(path) => Ok(MountInfo { mount_point: MountPoint(path) }),
        None => Err(MountParseError::InvalidPathEscape),
    }
}

/// The mount points of a mount table, line by line; empty lines do not count.
pub fn parse_mount_info(contents: &[u8]) -> (parsed: Result<Vec<MountInfo>, MountParseError>)
    ensures
        match parsed {
            Ok(entries) => parse_table(contents@) == Ok::<Seq<Seq<u8>>, MountParseError>(
                mount_paths(entries@),
            ),
            Err(error) => parse_table(contents@) == Err::<Seq<Seq<u8>>, MountParseError>(error),
        },
{
    let separates = |byte: u8| -> (newline: bool)
        ensures
            newline == is_newline(byte),
        { byte == 0x0a };
    let found = fields_of(contents, separates, Ghost(|byte: u8| is_newline(byte)));
    let ghost lines = text::fields(contents@, |byte: u8| is_newline(byte));
    let mut entries: Vec<MountInfo> = Vec::new();
    let mut i: usize = 0;
    assert(mount_paths(entries@) =~= Seq::<Seq<u8>>::empty());
    while i < found.len()
        invariant
            i <= found@.len(),
            lines == text::contents_of(found@),
            parse_lines(lines) == parse_table(contents@),
            parse_lines(lines.take(i as int)) == Ok::<Seq<Seq<u8>>, MountParseError>(
                mount_paths(entries@),
            ),
        decreases found@.len() - i,
    {
        let line = found[i].as_slice();
        let ghost before = mount_paths(entries@);
        assert(lines.take(i + 1).drop_last() =~= lines.take(i as int));
        assert(lines.take(i + 1).last() == line@);
        match parse_mount_line(line) {
            Ok(entry) => {
                entries.push(entry);
                assert(mount_paths(entries@) =~= before.push(entry.mount_point@));
            },
            Err(error) => {
                proof {
                    lemma_parse_error_stays(lines, i + 1);
                }
                return Err(error);
            },
        }
        i = i + 1;
    }
    assert(lines.take(lines.len() as int) =~= lines);
    Ok(entries)
}

proof fn lemma_parse_error_stays(lines: Seq<Seq<u8>>, count: int)
    requires
        0 <= count <= lines.len(),
        parse_lines(lines.take(count)) is Err,
    ensures
        parse_lines(lines) == parse_lines(lines.take(count)),
    decreases lines.len(),
{
    if count < lines.len() {
        assert(lines.drop_last().take(count) =~= lines.take(count));
        lemma_parse_error_stays(lines.drop_last(), count);
    } else {
        assert(lines.take(count) =~= lines);
    }
}

/// How many of the first paths are longer than `length` bytes.
pub open spec fn longer_count(paths: Seq<Seq<u8>>, length: nat) -> int
    decreases paths.len(),
{
    if paths.len() == 0 || paths[0].len() <= length {
        0
    } else {
        1 + longer_count(paths.skip(1), length)
    }
}

/// The paths, the longest first; paths of one length stay in their order.
pub open spec fn longest_first(paths: Seq<Seq<u8>>) -> Seq<Seq<u8>>
    decreases paths.len(),
{
    if paths.len() == 0 {
        paths
    } else {
        let rest = longest_first(paths.drop_first());
        rest.insert(longer_count(rest, paths.first().len()), paths.first())
    }
}

/// No path is longer than one before it.
pub open spec fn is_longest_first(paths: Seq<Seq<u8>>) -> bool {
    forall|i: int, j: int| 0 <= i < j < paths.len() ==> (#[trigger] paths[i]).len() >= (
    #[trigger] paths[j]).len()
}

/// The first of the mount points that the path lies under.
pub open spec fn first_mount_of(mounts: Seq<Seq<u8>>, path: Seq<u8>) -> Option<Seq<u8>>
    decreases mounts.len(),
{
    if mounts.len() == 0 {
        None
    } else if path::starts_with(path, mounts[0]) {
        Some(mounts[0])
    } else {
        first_mount_of(mounts.skip(1), path)
    }
}

proof fn lemma_longer_count(paths: Seq<Seq<u8>>, length: nat)
    requires
        is_longest_first(paths),
    ensures
        0 <= longer_count(paths, length) <= paths.len(),
        forall|i: int| 0 <= i < longer_count(paths, length) ==> (#[trigger] paths[i]).len()
            > length,
        forall|i: int| longer_count(paths, length) <= i < paths.len() ==> (
        #[trigger] paths[i]).len() <= length,
    decreases paths.len(),
{
    if paths.len() > 0 && paths[0].len() > length {
        let rest = paths.skip(1);
        lemma_longer_count(rest, length);
        assert forall|i: int| 0 <= i < longer_count(paths, length) implies (
        #[trigger] paths[i]).len() > length by {
            if i > 0 {
                assert(rest[i - 1] == paths[i]);
            }
        }
        assert forall|i: int| longer_count(paths, length) <= i < paths.len() implies (
        #[trigger] paths[i]).len() <= length by {
            assert(rest[i - 1] == paths[i]);
        }
    }
}

/// Putting the longest paths first keeps all of them, and no other path comes in.
pub proof fn lemma_longest_first(paths: Seq<Seq<u8>>)
    ensures
        is_longest_first(longest_first(paths)),
        longest_first(paths).to_multiset() == paths.to_multiset(),
        longest_first(paths).len() == paths.len(),
    decreases paths.len(),
{
    if paths.len() > 0 {
        let rest = longest_first(paths.drop_first());
        let first = paths.first();
        lemma_longest_first(paths.drop_first());
        lemma_longer_count(rest, first.len());
        let place = longer_count(rest, first.len());
        let all = rest.insert(place, first);
        assert(all.remove(place) =~= rest);
        assert(paths.remove(0) =~= paths.drop_first());
        broadcast use vstd::seq_lib::group_to_multiset_ensures;

        assert(rest.to_multiset() == all.to_multiset().remove(first));
        assert(paths.drop_first().to_multiset() == paths.to_multiset().remove(first));
        assert(all[place] == first);
        assert(all.to_multiset().count(first) > 0);
        assert(paths.to_multiset().count(first) > 0);
        assert(all.to_multiset() =~= all.to_multiset().remove(first).insert(first));
        assert(paths.to_multiset() =~= paths.to_multiset().remove(first).insert(first));
    } else {
        broadcast use vstd::seq_lib::group_to_multiset_ensures;

    }
}

/// Where the longest mount points come first, the one that is found for a path is among those
/// that the path lies under, and none of these is longer.
pub proof fn longest_mount_is_found(mounts: Seq<Seq<u8>>, path: Seq<u8>)
    requires
        is_longest_first(mounts),
    ensures
        first_mount_of(mounts, path) is None <==> forall|i: int|
            0 <= i < mounts.len() ==> !path::starts_with(path, #[trigger] mounts[i]),
        first_mount_of(mounts, path) matches Some(found) ==> {
            &&& mounts.contains(found)
            &&& path::starts_with(path, found)
            &&& forall|i: int|
                0 <= i < mounts.len() && path::starts_with(path, #[trigger] mounts[i])
                    ==> mounts[i].len() <= found.len()
        },
    decreases mounts.len(),
{
    if mounts.len() > 0 && !path::starts_with(path, mounts[0]) {
        let rest = mounts.skip(1);
        longest_mount_is_found(rest, path);
        assert forall|i: int| 0 < i < mounts.len() implies #[trigger] mounts[i] == rest[i - 1] by {}
        if let Some(found) = first_mount_of(mounts, path) {
            let k = choose|k: int| 0 <= k < rest.len() && rest[k] == found;
            assert(mounts[k + 1] == found);
        } else {
            assert forall|i: int| 0 <= i < mounts.len() implies !path::starts_with(
                path,
                #[trigger] mounts[i],
            ) by {
                if i > 0 {
                    assert(rest[i - 1] == mounts[i]);
                }
            }
        }
        if forall|i: int| 0 <= i < mounts.len() ==> !path::starts_with(path, #[trigger] mounts[i]) {
            assert forall|i: int| 0 <= i < rest.len() implies !path::starts_with(
                path,
                #[trigger] rest[i],
            ) by {
                assert(mounts[i + 1] == rest[i]);
            }
        }
    }
}

/// The mount points of the system, the longest first.
#[derive(Debug, PartialEq, Eq)]
pub struct Mounts(Vec<MountInfo>);

impl View for Mounts {
    type V = Seq<Seq<u8>>;

    closed spec fn view(&self) -> Seq<Seq<u8>> {
        mount_paths(self.0@)
    }
}

/// The name of the error's variant.
pub open spec fn parse_error_name(error: MountParseError) -> Seq<char> {
    match error {
        MountParseError::MissingSeparator => "MissingSeparator"@,
        MountParseError::MissingMountPoint => "MissingMountPoint"@,
        MountParseError::InvalidPathEscape => "InvalidPathEscape"@,
    }
}

/// The mount points that the mount table lists, or why there are none to be had.
pub open spec fn mounts_read(contents: Result<Seq<u8>, IoErrorView>) -> Result<
    Seq<Seq<u8>>,
    ErrorView,
> {
    match contents {
        Err(source) => Err(ErrorView::Io { path: mount_info_path(), source }),
        Ok(contents) => match parse_table(contents) {
            Err(error) => Err(
                ErrorView::Platform {
                    path: mount_info_path(),
                    message: "Failed to parse /proc/self/mountinfo: "@ + parse_error_name(error),
                },
            ),
            Ok(paths) => if paths.len() == 0 {
                Err(
                    ErrorView::Platform {
                        path: mount_info_path(),
                        message: "No mount points found in /proc/self/mountinfo"@,
                    },
                )
            } else {
                Ok(longest_first(paths))
            },
        },
    }
}

impl Mounts {
    /// The mount points of the entries, the longest first.
    pub fn new(entries: Vec<MountInfo>) -> (mounts: Self)
        ensures
            mounts@ == longest_first(mount_paths(entries@)),
            is_longest_first(mounts@),
            mounts@.to_multiset() == mount_paths(entries@).to_multiset(),
    {
        let ghost all = mount_paths(entries@);
        let mut left = entries;
        let mut sorted: Vec<MountInfo> = Vec::new();
        assert(mount_paths(sorted@) =~= longest_first(all.skip(all.len() as int)));
        while left.len() > 0
            invariant
                left@.len() <= all.len(),
                mount_paths(left@) =~= all.take(left@.len() as int),
                mount_paths(sorted@) == longest_first(all.skip(left@.len() as int)),
            decreases left@.len(),
        {
            let ghost remaining = left@;
            match left.pop() {
                Some(entry) => {
                    let ghost before = mount_paths(sorted@);
                    let ghost rest = all.skip(remaining.len() - 1);
                    proof {
                        assert(mount_paths(remaining)[remaining.len() - 1] == entry.mount_point@);
                        assert(rest.first() == entry.mount_point@);
                        assert(rest.drop_first() =~= all.skip(remaining.len() as int));
                        lemma_longest_first(rest.drop_first());
                        lemma_longer_count(before, entry.mount_point@.len());
                    }
                    let length: usize = entry.mount_point.as_path().as_bytes().len();
                    let mut place: usize = 0;
                    while place < sorted.len()
                        && sorted[place].mount_point.as_path().as_bytes().len() > length
                        invariant
                            place <= sorted@.len(),
                            before == mount_paths(sorted@),
                            length == entry.mount_point@.len(),
                            0 <= longer_count(before, length as nat) <= before.len(),
                            forall|i: int|
                                longer_count(before, length as nat) <= i < before.len() ==> (
                                #[trigger] before[i]).len() <= length,
                            place <= longer_count(before, length as nat),
                        decreases sorted@.len() - place,
                    {
                        assert(before[place as int] == sorted@[place as int].mount_point@);
                        place = place + 1;
                    }
                    assert(place < before.len() ==> before[place as int]
                        == sorted@[place as int].mount_point@);
                    sorted.insert(place, entry);
                    assert(mount_paths(sorted@) =~= before.insert(
                        place as int,
                        entry.mount_point@,
                    ));
                },
                None => {},
            }
        }
        assert(all.skip(0) =~= all);
        proof {
            lemma_longest_first(all);
        }
        Mounts(sorted)
    }

    /// The mount points that the mount table lists, given what reading the table gave.
    pub fn read(contents: Result<Vec<u8>, IoError>) -> (mounts: Result<Self, Error>)
        ensures
            error::result_view(mounts) == mounts_read(
                match contents {
                    Ok(contents) => Ok(contents@),
                    Err(source) => Err(source@),
                },
            ),
    {
        let path = PathBuf::from_bytes(to_ascii_bytes("/proc/self/mountinfo"));
        match contents {
            Err(source) => Err(Error::Io { path, source }),
            Ok(contents) => match parse_mount_info(contents.as_slice()) {
                Err(error) => {
                    let name = match error {
                        MountParseError::MissingSeparator => "MissingSeparator",
                        MountParseError::MissingMountPoint => "MissingMountPoint",
                        MountParseError::InvalidPathEscape => "InvalidPathEscape",
                    };
                    let message = "Failed to parse /proc/self/mountinfo: ".to_owned().concat(name);
                    Err(Error::Platform { path, message })
                },
                Ok(entries) => {
                    if entries.len() == 0 {
                        let message = "No mount points found in /proc/self/mountinfo".to_owned();
                        Err(Error::Platform { path, message })
                    } else {
                        Ok(Mounts::new(entries))
                    }
                },
            },
        }
    }

    /// The first of the mount points that the path lies under.
    pub fn find_mount_point(&self, path: &PathBuf) -> (found: Option<MountPoint>)
        ensures
            match found {
                Some(found) => first_mount_of(self@, path@) == Some(found@),
                None => first_mount_of(self@, path@) is None,
            },
    {
        let mut i: usize = 0;
        assert(self@.skip(0) =~= self@);
        while i < self.0.len()
            invariant
                i <= self.0@.len(),
                self@ == mount_paths(self.0@),
                first_mount_of(self@, path@) == first_mount_of(self@.skip(i as int), path@),
            decreases self.0@.len() - i,
        {
            assert(self@.skip(i as int)[0] == self.0@[i as int].mount_point@);
            if path.starts_with(self.0[i].mount_point.as_path()) {
                return Some(self.0[i].mount_point.clone());
            }
            assert(self@.skip(i as int).skip(1) =~= self@.skip(i + 1));
            i = i + 1;
        }
        None
    }
}

/// The mount points that are read from the mount table are the table's own, the longest first, and
/// there is at least one.
pub proof fn read_mounts_are_longest_first(contents: Seq<u8>)
    ensures
        mounts_read(Ok(contents)) matches Ok(mounts) ==> {
            &&& mounts.len() > 0
            &&& is_longest_first(mounts)
            &&& parse_table(contents) matches Ok(paths) && mounts.to_multiset()
                == paths.to_multiset()
        },
{
    if let Ok(paths) = parse_table(contents) {
        lemma_longest_first(paths);
    }
}

/// How the mount table writes a byte of a path: white space and the backslash as a backslash and
/// three octal digits, and any other byte as itself.
pub open spec fn escaped_byte(byte: u8) -> Seq<u8> {
    if is_space(byte) || byte == BACKSLASH {
        seq![
            BACKSLASH,
            (0x30 + byte as int / 64) as u8,
            (0x30 + byte as int / 8 % 8) as u8,
            (0x30 + byte as int % 8) as u8,
        ]
    } else {
        seq![byte]
    }
}

/// How the mount table writes a path.
pub open spec fn escaped_path(path: Seq<u8>) -> Seq<u8>
    decreases path.len(),
{
    if path.len() == 0 {
        Seq::empty()
    } else {
        escaped_byte(path[0]) + escaped_path(path.skip(1))
    }
}

/// A path that the mount table writes is read back as it was, whatever its bytes are.
pub proof fn escaped_paths_are_read_back(path: Seq<u8>)
    ensures
        decode_path(escaped_path(path)) == Some(path),
    decreases path.len(),
{
    if path.len() > 0 {
        let byte = path[0];
        let rest = path.skip(1);
        let field = escaped_path(path);
        escaped_paths_are_read_back(rest);
        if is_space(byte) || byte == BACKSLASH {
            assert(field.skip(4) =~= escaped_path(rest));
            assert(octal_value(field[1], field[2], field[3]) == byte);
        } else {
            assert(field.skip(1) =~= escaped_path(rest));
        }
        assert(seq![byte] + rest =~= path);
    } else {
        assert(path =~= Seq::empty());
    }
}

/// A field without a backslash is the path itself.
pub proof fn plain_fields_are_paths(field: Seq<u8>)
    requires
        !field.contains(BACKSLASH),
    ensures
        decode_path(field) == Some(field),
    decreases field.len(),
{
    if field.len() > 0 {
        let rest = field.skip(1);
        assert(field[0] != BACKSLASH);
        assert forall|i: int| 0 <= i < rest.len() implies rest[i] != BACKSLASH by {
            assert(rest[i] == field[i + 1]);
        }
        plain_fields_are_paths(rest);
        assert(seq![field[0]] + rest =~= field);
    } else {
        assert(field =~= Seq::empty());
    }
}

/// The bytes make up one field of a line: there are some, and none is white space.
pub open spec fn is_field(bytes: Seq<u8>) -> bool {
    &&& bytes.len() > 0
    &&& forall|i: int|
        0 <= i < bytes.len() ==> !seq![0x20u8, 0x09u8, 0x0au8, 0x0cu8, 0x0du8].contains(
            #[trigger] bytes[i],
        )
}

/// The fields, each with a space behind it.
pub open spec fn line_of(fields: Seq<Seq<u8>>) -> Seq<u8>
    decreases fields.len(),
{
    if fields.len() == 0 {
        Seq::empty()
    } else {
        line_of(fields.drop_last()) + fields.last().push(0x20)
    }
}

proof fn lemma_fields_of_line(parts: Seq<Seq<u8>>)
    requires
        forall|k: int| 0 <= k < parts.len() ==> is_field(#[trigger] parts[k]),
    ensures
        text::fields(line_of(parts), |byte: u8| is_space(byte)) == parts,
    decreases parts.len(),
{
    let separates = |byte: u8| is_space(byte);
    if parts.len() == 0 {
        text::fields_of_one_piece(line_of(parts), separates);
        assert(parts =~= Seq::empty());
    } else {
        let before = parts.drop_last();
        let last = parts.last();
        assert forall|k: int| 0 <= k < before.len() implies is_field(#[trigger] before[k]) by {
            assert(before[k] == parts[k]);
        }
        lemma_fields_of_line(before);
        assert(is_field(parts[parts.len() - 1]));
        let spaces = seq![0x20u8, 0x09u8, 0x0au8, 0x0cu8, 0x0du8];
        assert(spaces[0] == 0x20 && spaces[1] == 0x09 && spaces[2] == 0x0a && spaces[3] == 0x0c
            && spaces[4] == 0x0d);
        assert forall|i: int| 0 <= i < last.len() implies !separates(#[trigger] last[i]) by {
            assert(!spaces.contains(last[i]));
        }
        text::fields_of_one_piece(last, separates);
        text::fields_of_one_piece(Seq::<u8>::empty(), separates);
        let start = line_of(before);
        let line = line_of(parts);
        if before.len() == 0 {
            assert(line =~= last.push(0x20) + Seq::<u8>::empty());
            text::fields_at_separator(last, 0x20, Seq::empty(), separates);
            assert(text::fields(line, separates) =~= parts);
        } else {
            let trimmed = start.drop_last();
            let tail = last.push(0x20) + Seq::<u8>::empty();
            assert(start =~= trimmed.push(0x20));
            assert(start =~= trimmed.push(0x20) + Seq::<u8>::empty());
            assert(line =~= trimmed.push(0x20) + tail);
            text::fields_at_separator(trimmed, 0x20, Seq::empty(), separates);
            text::fields_at_separator(trimmed, 0x20, tail, separates);
            text::fields_at_separator(last, 0x20, Seq::empty(), separates);
            assert(text::fields(trimmed, separates) + Seq::<Seq<u8>>::empty() =~= text::fields(
                trimmed,
                separates,
            ));
            assert(text::fields(line, separates) =~= parts);
        }
    }
}

proof fn lemma_before_separator(fields: Seq<Seq<u8>>)
    ensures
        0 <= fields_before_separator(fields) <= fields.len(),
        forall|k: int|
            0 <= k < fields_before_separator(fields) ==> #[trigger] fields[k] != seq![DASH],
        fields_before_separator(fields) < fields.len() ==> fields[fields_before_separator(fields)]
            == seq![DASH],
    decreases fields.len(),
{
    if fields.len() > 0 && fields[0] != seq![DASH] {
        let rest = fields.skip(1);
        lemma_before_separator(rest);
        assert forall|k: int| 0 <= k < fields_before_separator(fields) implies #[trigger] fields[k]
            != seq![DASH] by {
            if k > 0 {
                assert(rest[k - 1] == fields[k]);
            }
        }
    }
}

/// A line of the mount table gives the path that its fifth field writes, however many fields there
/// are before the first lone `-` and behind it. A line without a lone `-`, or with fewer than five
/// fields before it, gives none, and neither does one whose fifth field cannot be read.
pub proof fn mount_points_are_fifth_fields(fields: Seq<Seq<u8>>, separator: int)
    requires
        forall|k: int| 0 <= k < fields.len() ==> is_field(#[trigger] fields[k]),
        0 <= separator <= fields.len(),
        forall|k: int| 0 <= k < separator ==> #[trigger] fields[k] != seq![0x2du8],
        separator < fields.len() ==> fields[separator] == seq![0x2du8],
    ensures
        separator == fields.len() ==> parse_line(line_of(fields)) == Err::<
            Seq<u8>,
            MountParseError,
        >(MountParseError::MissingSeparator),
        separator < fields.len() && separator < 5 ==> parse_line(line_of(fields)) == Err::<
            Seq<u8>,
            MountParseError,
        >(MountParseError::MissingMountPoint),
        5 <= separator < fields.len() ==> match decode_path(fields[4]) {
            Some(path) => parse_line(line_of(fields)) == Ok::<Seq<u8>, MountParseError>(path),
            None => parse_line(line_of(fields)) == Err::<Seq<u8>, MountParseError>(
                MountParseError::InvalidPathEscape,
            ),
        },
{
    lemma_fields_of_line(fields);
    lemma_before_separator(fields);
    let count = fields_before_separator(fields);
    assert(count == separator) by {
        if count < separator {
            assert(fields[count] != seq![0x2du8]);
        }
        if separator < count {
            assert(fields[separator] != seq![DASH]);
        }
    }
}

/// The entries of two tables are those of the table that they make up, one behind the other, where
/// both can be read; else it is the first fault that counts.
pub proof fn tables_are_read_line_by_line(left: Seq<u8>, right: Seq<u8>)
    ensures
        parse_table(left.push(0x0a) + right) == (match (parse_table(left), parse_table(right)) {
            (Ok(first), Ok(second)) => Ok::<Seq<Seq<u8>>, MountParseError>(first + second),
            (Ok(_), Err(error)) => Err(error),
            (Err(error), _) => Err(error),
        }),
{
    let separates = |byte: u8| is_newline(byte);
    text::fields_at_separator(left, 0x0a, right, separates);
    lemma_parse_lines(text::fields(left, separates), text::fields(right, separates));
}

proof fn lemma_parse_lines(left: Seq<Seq<u8>>, right: Seq<Seq<u8>>)
    ensures
        parse_lines(left + right) == (match (parse_lines(left), parse_lines(right)) {
            (Ok(first), Ok(second)) => Ok::<Seq<Seq<u8>>, MountParseError>(first + second),
            (Ok(_), Err(error)) => Err(error),
            (Err(error), _) => Err(error),
        }),
    decreases right.len(),
{
    if right.len() == 0 {
        assert(left + right =~= left);
        if let Ok(first) = parse_lines(left) {
            assert(first + Seq::<Seq<u8>>::empty() =~= first);
        }
    } else {
        lemma_parse_lines(left, right.drop_last());
        assert((left + right).drop_last() =~= left + right.drop_last());
        assert((left + right).last() == right.last());
        if let (Ok(first), Ok(second)) = (parse_lines(left), parse_lines(right.drop_last())) {
            if let Ok(path) = parse_line(right.last()) {
                assert((first + second).push(path) =~= first + second.push(path));
            }
        }
    }
}

/// A table of a single line gives what the line gives, and an empty one gives nothing.
pub proof fn tables_of_one_line(line: Seq<u8>)
    requires
        !line.contains(0x0a),
    ensures
        line.len() == 0 ==> parse_table(line) == Ok::<Seq<Seq<u8>>, MountParseError>(Seq::empty()),
        line.len() > 0 ==> parse_table(line) == (match parse_line(line) {
            Ok(path) => Ok::<Seq<Seq<u8>>, MountParseError>(seq![path]),
            Err(error) => Err(error),
        }),
{
    let separates = |byte: u8| is_newline(byte);
    assert forall|i: int| 0 <= i < line.len() implies !separates(#[trigger] line[i]) by {
        assert(line.contains(line[i]));
    }
    text::fields_of_one_piece(line, separates);
    if line.len() > 0 {
        let lines = seq![line];
        assert(lines.drop_last() =~= Seq::empty());
        reveal_with_fuel(parse_lines, 2);
        if let Ok(path) = parse_line(line) {
            assert(Seq::<Seq<u8>>::empty().push(path) =~= seq![path]);
        }
    }
}

/// The path that a field writes is read from left to right: a byte other than a backslash is
/// itself, and a backslash with three octal digits behind it is the byte that they write. There is
/// no other way to use a backslash.
pub proof fn fields_are_read_from_left_to_right(
    byte: u8,
    first: u8,
    second: u8,
    third: u8,
    rest: Seq<u8>,
)
    ensures
        decode_path(Seq::empty()) == Some(Seq::<u8>::empty()),
        byte != 0x5c ==> decode_path(seq![byte] + rest) == (match decode_path(rest) {
            Some(path) => Some(seq![byte] + path),
            None => None,
        }),
        rest.len() < 3 ==> decode_path(seq![0x5cu8] + rest) is None,
        ({
            let value = (first - 0x30) * 64 + (second - 0x30) * 8 + (third - 0x30);
            let decoded = decode_path(seq![0x5cu8, first, second, third] + rest);
            if 0x30 <= first <= 0x33 && 0x30 <= second <= 0x37 && 0x30 <= third <= 0x37 {
                match decode_path(rest) {
                    Some(path) => decoded == Some(seq![value as u8] + path),
                    None => decoded is None,
                }
            } else {
                decoded is None
            }
        }),
{
    let plain = seq![byte] + rest;
    assert(plain.skip(1) =~= rest);
    let escaped = seq![0x5cu8, first, second, third] + rest;
    assert(escaped.skip(4) =~= rest);
    assert(escaped[1] == first && escaped[2] == second && escaped[3] == third);
}

/// All white space separates the fields of a line alike.
pub proof fn white_space_is_all_alike(left: Seq<u8>, space: u8, right: Seq<u8>)
    requires
        seq![0x20u8, 0x09u8, 0x0au8, 0x0cu8, 0x0du8].contains(space),
    ensures
        parse_line(left.push(space) + right) == parse_line(left.push(0x20) + right),
{
    let separates = |byte: u8| is_space(byte);
    text::fields_at_separator(left, space, right, separates);
    text::fields_at_separator(left, 0x20, right, separates);
}

/// There are mount points exactly where the table can be read and lists some. What is wrong with
/// the table, or with reading it, is told.
pub proof fn mounts_are_read_where_there_are_some(contents: Seq<u8>, source: IoErrorView)
    ensures
        mounts_read(Ok(contents)) is Ok <==> (parse_table(contents) matches Ok(paths)
            && paths.len() > 0),
        mounts_read(Ok(contents)) matches Err(error) ==> (error matches ErrorView::Platform {
            path,
            message,
        } && path == text::ascii_bytes("/proc/self/mountinfo"@) && message == match parse_table(
            contents,
        ) {
            Err(MountParseError::MissingSeparator) => "Failed to parse /proc/self/mountinfo: "@
                + "MissingSeparator"@,
            Err(MountParseError::MissingMountPoint) => "Failed to parse /proc/self/mountinfo: "@
                + "MissingMountPoint"@,
            Err(MountParseError::InvalidPathEscape) => "Failed to parse /proc/self/mountinfo: "@
                + "InvalidPathEscape"@,
            Ok(_) => "No mount points found in /proc/self/mountinfo"@,
        }),
        mounts_read(Err(source)) == Err::<Seq<Seq<u8>>, ErrorView>(
            ErrorView::Io { path: text::ascii_bytes("/proc/self/mountinfo"@), source },
        ),
{
}

} // verus!
