//! Unix paths, held as the bytes that name them.
//!
//! A path is a sequence of pieces between separators. Empty pieces are skipped, and so is `.`
//! everywhere but at the very start of the path; what is left are the path's components.

use vstd::prelude::*;
use vstd::slice::{slice_subrange, slice_to_vec};

use crate::text::bytes_equal;

verus! {

/// The byte `/`, which separates the pieces of a path.
pub const SEPARATOR: u8 = 0x2f;

/// The byte `.`.
pub const DOT: u8 = 0x2e;

/// The path starts at the filesystem root.
pub open spec fn is_absolute(path: Seq<u8>) -> bool {
    path.len() > 0 && path[0] == SEPARATOR
}

/// Where the piece that holds position `start` ends: at the next separator or at the end.
pub open spec fn piece_end(path: Seq<u8>, start: int) -> int
    decreases path.len() - start,
{
    if start < 0 || start >= path.len() || path[start] == SEPARATOR {
        start
    } else {
        piece_end(path, start + 1)
    }
}

/// The piece between `start` and `end` is no component: it is empty, or a `.` behind the start.
pub open spec fn is_skipped(path: Seq<u8>, start: int, end: int) -> bool {
    ||| start == end
    ||| end == start + 1 && path[start] == DOT && start != 0
}

/// The bounds of the components whose pieces start at `start` or later, from left to right.
pub open spec fn spans_from(path: Seq<u8>, start: int) -> Seq<(int, int)>
    decreases path.len() + 1 - start,
{
    if start < 0 || start >= path.len() {
        Seq::empty()
    } else {
        let end = piece_end(path, start);
        proof {
            lemma_piece_end(path, start);
        }
        let rest = spans_from(path, end + 1);
        if is_skipped(path, start, end) {
            rest
        } else {
            seq![(start, end)] + rest
        }
    }
}

/// The bounds of all named components of the path.
pub open spec fn spans(path: Seq<u8>) -> Seq<(int, int)> {
    spans_from(path, 0)
}

/// The names of the path's components, `.` and `..` among them; the root is none of them.
pub open spec fn names(path: Seq<u8>) -> Seq<Seq<u8>> {
    spans(path).map_values(|span: (int, int)| path.subrange(span.0, span.1))
}

/// One component of a path.
pub enum Component {
    /// The filesystem root.
    Root,
    /// A name, `.` and `..` among them.
    Name(Seq<u8>),
}

/// The components of the path, from left to right.
pub open spec fn components(path: Seq<u8>) -> Seq<Component> {
    let root = if is_absolute(path) {
        seq![Component::Root]
    } else {
        Seq::empty()
    };
    root + names(path).map_values(|name: Seq<u8>| Component::Name(name))
}

/// How many components stand before the named ones.
pub open spec fn root_count(path: Seq<u8>) -> int {
    if is_absolute(path) {
        1
    } else {
        0
    }
}

/// The name stands for a directory relative to another: `.` or `..`.
pub open spec fn is_dots(name: Seq<u8>) -> bool {
    name == seq![DOT] || name == seq![DOT, DOT]
}

/// The last component, where it is the name of an entry in a directory.
pub open spec fn file_name(path: Seq<u8>) -> Option<Seq<u8>> {
    if names(path).len() == 0 || is_dots(names(path).last()) {
        None
    } else {
        Some(names(path).last())
    }
}

/// Where the first `count` named components of the path end.
pub open spec fn names_end(path: Seq<u8>, count: int) -> int {
    if count <= 0 {
        root_count(path)
    } else {
        spans(path)[count - 1].1
    }
}

/// The path without its last component; nothing for a path that has no named component.
pub open spec fn parent(path: Seq<u8>) -> Option<Seq<u8>> {
    let count = spans(path).len();
    if count == 0 {
        None
    } else {
        Some(path.take(names_end(path, count - 1)))
    }
}

/// The path that `other` names when it is read from the directory `base`.
pub open spec fn join(base: Seq<u8>, other: Seq<u8>) -> Seq<u8> {
    if is_absolute(other) {
        other
    } else if base.len() == 0 || base.last() == SEPARATOR {
        base + other
    } else {
        base.push(SEPARATOR) + other
    }
}

/// The components of `base` are the first components of `path`.
pub open spec fn starts_with(path: Seq<u8>, base: Seq<u8>) -> bool {
    components(base).is_prefix_of(components(path))
}

/// What follows the components of `base` in `path`; nothing where `path` does not start with them.
pub open spec fn strip_prefix(path: Seq<u8>, base: Seq<u8>) -> Option<Seq<u8>> {
    let total = spans(path).len();
    let dropped = spans(base).len();
    if !starts_with(path, base) {
        None
    } else if components(base).len() == 0 {
        Some(path.take(names_end(path, total as int)))
    } else if dropped == total {
        Some(Seq::empty())
    } else {
        Some(path.subrange(spans(path)[dropped as int].0, spans(path)[total - 1].1))
    }
}

pub proof fn lemma_piece_end(path: Seq<u8>, start: int)
    requires
        0 <= start <= path.len(),
    ensures
        start <= piece_end(path, start) <= path.len(),
        piece_end(path, start) < path.len() ==> path[piece_end(path, start)] == SEPARATOR,
        forall|i: int| start <= i < piece_end(path, start) ==> path[i] != SEPARATOR,
    decreases path.len() - start,
{
    if start < path.len() && path[start] != SEPARATOR {
        lemma_piece_end(path, start + 1);
    }
}

/// The spans of a path lie inside it, are not empty and follow each other.
pub proof fn lemma_spans_from(path: Seq<u8>, start: int)
    requires
        0 <= start,
    ensures
        forall|k: int| 0 <= k < spans_from(path, start).len() ==> {
            let span = #[trigger] spans_from(path, start)[k];
            start <= span.0 < span.1 <= path.len() && span.1 == piece_end(path, span.0)
        },
        forall|j: int, k: int| 0 <= j < k < spans_from(path, start).len() ==>
            (#[trigger] spans_from(path, start)[j]).1 < (#[trigger] spans_from(path, start)[k]).0,
    decreases path.len() + 1 - start,
{
    if start < path.len() {
        let end = piece_end(path, start);
        lemma_piece_end(path, start);
        lemma_spans_from(path, end + 1);
        let all = spans_from(path, start);
        let rest = spans_from(path, end + 1);
        if !is_skipped(path, start, end) {
            assert(all == seq![(start, end)] + rest);
            assert forall|k: int| 0 < k < all.len() implies all[k] == #[trigger] rest[k - 1] by {}
        }
    }
}

/// A Unix path.
#[derive(Debug)]
pub struct PathBuf {
    bytes: Vec<u8>,
}

impl View for PathBuf {
    type V = Seq<u8>;

    closed spec fn view(&self) -> Seq<u8> {
        self.bytes@
    }
}

/// The bytes of the paths.
pub open spec fn path_bytes(paths: Seq<PathBuf>) -> Seq<Seq<u8>> {
    paths.map_values(|path: PathBuf| path@)
}

impl Clone for PathBuf {
    fn clone(&self) -> (copy: Self)
        ensures
            copy@ == self@,
    {
        PathBuf { bytes: slice_to_vec(self.bytes.as_slice()) }
    }
}

impl PathBuf {
    /// The path with these bytes.
    pub fn from_bytes(bytes: Vec<u8>) -> (path: Self)
        ensures
            path@ == bytes@,
    {
        PathBuf { bytes }
    }

    /// A path with the bytes of a slice.
    pub fn from_slice(bytes: &[u8]) -> (path: Self)
        ensures
            path@ == bytes@,
    {
        PathBuf { bytes: slice_to_vec(bytes) }
    }

    /// The bytes of the path.
    pub fn as_bytes(&self) -> (bytes: &[u8])
        ensures
            bytes@ == self@,
    {
        self.bytes.as_slice()
    }

    /// The bytes of the path, which is given up for them.
    pub fn into_bytes(self) -> (bytes: Vec<u8>)
        ensures
            bytes@ == self@,
    {
        self.bytes
    }

    /// Tells whether the path names nothing at all.
    pub fn is_empty(&self) -> (empty: bool)
        ensures
            empty == (self@.len() == 0),
    {
        self.bytes.len() == 0
    }

    /// Tells whether the path starts at the filesystem root.
    pub fn is_absolute(&self) -> (absolute: bool)
        ensures
            absolute == is_absolute(self@),
    {
        self.bytes.len() > 0 && self.bytes[0] == SEPARATOR
    }

    fn piece_end(&self, start: usize) -> (end: usize)
        requires
            start <= self@.len(),
        ensures
            end == piece_end(self@, start as int),
            start <= end <= self@.len(),
    {
        let mut end: usize = start;
        while end < self.bytes.len() && self.bytes[end] != SEPARATOR
            invariant
                start <= end <= self@.len(),
                piece_end(self@, start as int) == piece_end(self@, end as int),
            decreases self@.len() - end,
        {
            end = end + 1;
        }
        end
    }

    fn spans(&self) -> (found: Vec<(usize, usize)>)
        ensures
            found@.len() == spans(self@).len(),
            forall|k: int| 0 <= k < found@.len() ==> {
                &&& (#[trigger] found@[k]).0 == spans(self@)[k].0
                &&& found@[k].1 == spans(self@)[k].1
                &&& found@[k].0 < found@[k].1 <= self@.len()
            },
            forall|j: int, k: int| 0 <= j < k < found@.len() ==>
                (#[trigger] found@[j]).1 < (#[trigger] found@[k]).0,
    {
        let mut found: Vec<(usize, usize)> = Vec::new();
        let mut start: usize = 0;
        proof {
            lemma_spans_from(self@, 0);
        }
        while start < self.bytes.len()
            invariant_except_break
                found@.len() + spans_from(self@, start as int).len() == spans(self@).len(),
                forall|k: int| 0 <= k < spans_from(self@, start as int).len() ==>
                    spans(self@)[found@.len() + k] == #[trigger] spans_from(self@, start as int)[k],
            invariant
                start <= self@.len(),
                forall|k: int| 0 <= k < found@.len() ==> {
                    &&& (#[trigger] found@[k]).0 == spans(self@)[k].0
                    &&& found@[k].1 == spans(self@)[k].1
                },
            ensures
                found@.len() == spans(self@).len(),
            decreases self@.len() - start,
        {
            let end = self.piece_end(start);
            let skipped = start == end || (end - start == 1 && self.bytes[start] == DOT
                && start != 0);
            let ghost rest = spans_from(self@, end + 1);
            if !skipped {
                assert(spans_from(self@, start as int) == seq![(start as int, end as int)] + rest);
                assert(spans_from(self@, start as int)[0] == (start as int, end as int));
                assert forall|k: int| 0 <= k < rest.len() implies spans(self@)[found@.len() + 1 + k]
                    == #[trigger] rest[k] by {
                    assert(spans_from(self@, start as int)[k + 1] == rest[k]);
                }
                found.push((start, end));
            }
            if end == self.bytes.len() {
                break;
            }
            start = end + 1;
        }
        proof {
            lemma_spans_from(self@, 0);
        }
        found
    }

    /// The last component, where it is the name of an entry in a directory.
    pub fn file_name(&self) -> (name: Option<Vec<u8>>)
        ensures
            match name {
                Some(name) => file_name(self@) == Some(name@),
                None => file_name(self@) is None,
            },
    {
        let found = self.spans();
        if found.len() == 0 {
            return None;
        }
        let (start, end) = found[found.len() - 1];
        let name = slice_subrange(self.bytes.as_slice(), start, end);
        assert(name@ == names(self@).last());
        if is_dots_name(name) {
            None
        } else {
            Some(slice_to_vec(name))
        }
    }

    /// The path without its last component; nothing for a path that has no named component.
    pub fn parent(&self) -> (above: Option<PathBuf>)
        ensures
            match above {
                Some(above) => parent(self@) == Some(above@),
                None => parent(self@) is None,
            },
            above matches Some(above) ==> above@.len() < self@.len(),
    {
        let found = self.spans();
        let count: usize = found.len();
        if count == 0 {
            return None;
        }
        proof {
            lemma_spans_from(self@, 0);
            lemma_first_span(self@);
        }
        let end: usize = if count > 1 {
            found[count - 2].1
        } else if self.is_absolute() {
            1
        } else {
            0
        };
        assert(end < found@[count - 1].1);
        let above = slice_subrange(self.bytes.as_slice(), 0, end);
        assert(above@ =~= self@.take(end as int));
        Some(PathBuf { bytes: slice_to_vec(above) })
    }

    /// The path that `other` names when it is read from this directory.
    pub fn join(&self, other: &[u8]) -> (joined: PathBuf)
        ensures
            joined@ == join(self@, other@),
    {
        if other.len() > 0 && other[0] == SEPARATOR {
            return PathBuf { bytes: slice_to_vec(other) };
        }
        let mut bytes = slice_to_vec(self.bytes.as_slice());
        if bytes.len() > 0 && bytes[bytes.len() - 1] != SEPARATOR {
            bytes.push(SEPARATOR);
        }
        let mut tail = slice_to_vec(other);
        bytes.append(&mut tail);
        PathBuf { bytes }
    }

    /// How many of the leading names of the two paths agree, up to the shorter one's count.
    fn shared_names(
        &self,
        own: &Vec<(usize, usize)>,
        other: &PathBuf,
        others: &Vec<(usize, usize)>,
    ) -> (count: usize)
        requires
            own@.len() == names(self@).len(),
            others@.len() == names(other@).len(),
            forall|k: int| 0 <= k < own@.len() ==> {
                &&& (#[trigger] own@[k]).0 <= own@[k].1 <= self@.len()
                &&& self@.subrange(own@[k].0 as int, own@[k].1 as int) == names(self@)[k]
            },
            forall|k: int| 0 <= k < others@.len() ==> {
                &&& (#[trigger] others@[k]).0 <= others@[k].1 <= other@.len()
                &&& other@.subrange(others@[k].0 as int, others@[k].1 as int) == names(other@)[k]
            },
        ensures
            count <= own@.len(),
            count <= others@.len(),
            forall|k: int| 0 <= k < count ==> names(self@)[k] == names(other@)[k],
            count < own@.len() && count < others@.len() ==> names(self@)[count as int]
                != names(other@)[count as int],
    {
        let mut count: usize = 0;
        while count < own.len() && count < others.len()
            invariant
                own@.len() == names(self@).len(),
                others@.len() == names(other@).len(),
                forall|k: int| 0 <= k < own@.len() ==> {
                    &&& (#[trigger] own@[k]).0 <= own@[k].1 <= self@.len()
                    &&& self@.subrange(own@[k].0 as int, own@[k].1 as int) == names(self@)[k]
                },
                forall|k: int| 0 <= k < others@.len() ==> {
                    &&& (#[trigger] others@[k]).0 <= others@[k].1 <= other@.len()
                    &&& other@.subrange(others@[k].0 as int, others@[k].1 as int) == names(
                        other@,
                    )[k]
                },
                count <= own@.len(),
                count <= others@.len(),
                forall|k: int| 0 <= k < count ==> names(self@)[k] == names(other@)[k],
            decreases own@.len() - count,
        {
            let (start, end) = own[count];
            let (other_start, other_end) = others[count];
            let name = slice_subrange(self.bytes.as_slice(), start, end);
            let other_name = slice_subrange(other.bytes.as_slice(), other_start, other_end);
            if !bytes_equal(name, other_name) {
                return count;
            }
            count = count + 1;
        }
        count
    }

    /// Tells whether the components of `base` are the first components of this path.
    pub fn starts_with(&self, base: &PathBuf) -> (starts: bool)
        ensures
            starts == starts_with(self@, base@),
    {
        let own = self.spans();
        let bases = base.spans();
        let shared = self.shared_names(&own, base, &bases);
        proof {
            lemma_starts_with(self@, base@);
        }
        let unrooted = bases.len() == 0 && !base.is_absolute();
        unrooted || (self.is_absolute() == base.is_absolute() && shared == bases.len())
    }

    /// What follows the components of `base` in this path, where the path starts with them.
    pub fn strip_prefix(&self, base: &PathBuf) -> (rest: Option<PathBuf>)
        ensures
            match rest {
                Some(rest) => strip_prefix(self@, base@) == Some(rest@),
                None => strip_prefix(self@, base@) is None,
            },
    {
        if !self.starts_with(base) {
            return None;
        }
        let own = self.spans();
        let dropped: usize = base.spans().len();
        let total: usize = own.len();
        proof {
            lemma_starts_with(self@, base@);
            lemma_spans_from(self@, 0);
        }
        let bytes = if dropped == 0 && !base.is_absolute() {
            let end: usize = if total > 0 {
                own[total - 1].1
            } else if self.is_absolute() {
                1
            } else {
                0
            };
            let kept = slice_subrange(self.bytes.as_slice(), 0, end);
            assert(kept@ =~= self@.take(end as int));
            slice_to_vec(kept)
        } else if dropped == total {
            Vec::new()
        } else {
            assert(own@[dropped as int].1 <= own@[total - 1].1);
            slice_to_vec(slice_subrange(self.bytes.as_slice(), own[dropped].0, own[total - 1].1))
        };
        Some(PathBuf { bytes })
    }

    /// Tells whether the two paths have the same components.
    pub fn same_components(&self, other: &PathBuf) -> (same: bool)
        ensures
            same == (components(self@) == components(other@)),
    {
        let own = self.spans();
        let others = other.spans();
        let shared = self.shared_names(&own, other, &others);
        proof {
            lemma_starts_with(self@, other@);
            lemma_starts_with(other@, self@);
            if components(self@) == components(other@) {
                assert(components(other@).is_prefix_of(components(self@)));
                assert(components(self@).is_prefix_of(components(other@)));
            }
            if starts_with(self@, other@) && components(self@).len() == components(other@).len() {
                assert(components(self@) =~= components(other@));
            }
        }
        own.len() == others.len() && self.is_absolute() == other.is_absolute() && shared
            == own.len()
    }

    /// Tells whether `..` is one of the path's components.
    pub fn has_parent_component(&self) -> (found: bool)
        ensures
            found == names(self@).contains(seq![DOT, DOT]),
    {
        let own = self.spans();
        let mut k: usize = 0;
        while k < own.len()
            invariant
                k <= own@.len(),
                own@.len() == names(self@).len(),
                forall|i: int| 0 <= i < own@.len() ==> {
                    &&& (#[trigger] own@[i]).0 <= own@[i].1 <= self@.len()
                    &&& self@.subrange(own@[i].0 as int, own@[i].1 as int) == names(self@)[i]
                },
                forall|i: int| 0 <= i < k ==> names(self@)[i] != seq![DOT, DOT],
            decreases own@.len() - k,
        {
            let (start, end) = own[k];
            let name = slice_subrange(self.bytes.as_slice(), start, end);
            if name.len() == 2 && name[0] == DOT && name[1] == DOT {
                assert(name@ =~= seq![DOT, DOT]);
                assert(names(self@)[k as int] == seq![DOT, DOT]);
                return true;
            }
            assert(name@ != seq![DOT, DOT]) by {
                if name@ == seq![DOT, DOT] {
                    assert(name@[0] == DOT && name@[1] == DOT);
                }
            }
            k = k + 1;
        }
        false
    }
}

impl PartialEq for PathBuf {
    fn eq(&self, other: &Self) -> (equal: bool) {
        self.same_components(other)
    }
}

impl vstd::std_specs::cmp::PartialEqSpecImpl for PathBuf {
    open spec fn obeys_eq_spec() -> bool {
        true
    }

    open spec fn eq_spec(&self, other: &Self) -> bool {
        components(self@) == components(other@)
    }
}

impl Eq for PathBuf {

}

/// A path starts with another exactly where that one has no component, or where both are
/// absolute or both relative and the names of the one come first among the names of the other.
pub proof fn lemma_starts_with(path: Seq<u8>, base: Seq<u8>)
    ensures
        starts_with(path, base) <==> (components(base).len() == 0 || (is_absolute(path)
            == is_absolute(base) && names(base).len() <= names(path).len() && forall|k: int|
            0 <= k < names(base).len() ==> names(path)[k] == names(base)[k])),
        components(path).len() == root_count(path) + names(path).len(),
        components(base).len() == root_count(base) + names(base).len(),
{
    let ours = components(path);
    let theirs = components(base);
    if starts_with(path, base) && theirs.len() > 0 {
        assert(theirs[0] == ours[0]);
        assert(is_absolute(path) == is_absolute(base));
        let shift = root_count(base);
        assert forall|k: int| 0 <= k < names(base).len() implies names(path)[k] == names(
            base,
        )[k] by {
            assert(theirs[shift + k] == ours[shift + k]);
            assert(theirs[shift + k] == Component::Name(names(base)[k]));
            assert(ours[shift + k] == Component::Name(names(path)[k]));
        }
    }
    if components(base).len() == 0 {
        assert(ours.subrange(0, 0) =~= theirs);
    } else if is_absolute(path) == is_absolute(base) && names(base).len() <= names(path).len() && (
    forall|k: int| 0 <= k < names(base).len() ==> names(path)[k] == names(base)[k]) {
        assert(ours.subrange(0, theirs.len() as int) =~= theirs);
    }
}

/// Tells whether a name is `.` or `..`.
pub fn is_dots_name(name: &[u8]) -> (dots: bool)
    ensures
        dots == is_dots(name@),
{
    let dots = (name.len() == 1 && name[0] == DOT) || (name.len() == 2 && name[0] == DOT && name[1]
        == DOT);
    proof {
        if dots {
            assert(name@ =~= seq![DOT] || name@ =~= seq![DOT, DOT]);
        } else {
            assert(name@ != seq![DOT]) by {
                assert(seq![DOT][0] == DOT);
            }
            if name@ == seq![DOT, DOT] {
                assert(name@[0] == DOT && name@[1] == DOT);
            }
        }
    }
    dots
}

proof fn lemma_first_span(path: Seq<u8>)
    ensures
        spans(path).len() > 0 && is_absolute(path) ==> spans(path)[0].0 > 0,
{
    if is_absolute(path) {
        assert(piece_end(path, 0) == 0);
        lemma_spans_from(path, 1);
        assert(spans_from(path, 0) == spans_from(path, 1));
    }
}

/// Behind a place where a piece ends, a path goes on as if it started there.
proof fn lemma_spans_cut(path: Seq<u8>, end: int, start: int)
    requires
        0 <= start <= end + 1,
        0 <= end <= path.len(),
        end < path.len() ==> path[end] == SEPARATOR,
    ensures
        spans_from(path, start) == spans_from(path.take(end), start) + spans_from(path, end + 1),
    decreases end + 1 - start,
{
    let first = path.take(end);
    if start == end + 1 {
        assert(spans_from(first, start) =~= Seq::empty());
    } else if start == end {
        assert(spans_from(first, start) =~= Seq::empty());
        if end < path.len() {
            assert(piece_end(path, end) == end);
        }
    } else {
        lemma_piece_end_cut(path, end, start);
        let next = piece_end(path, start);
        lemma_piece_end(path, start);
        lemma_spans_cut(path, end, next + 1);
        assert(spans_from(path, start) =~= spans_from(first, start) + spans_from(path, end + 1));
    }
}

proof fn lemma_piece_end_cut(path: Seq<u8>, end: int, start: int)
    requires
        0 <= start <= end <= path.len(),
        end < path.len() ==> path[end] == SEPARATOR,
    ensures
        piece_end(path, start) == piece_end(path.take(end), start),
        piece_end(path, start) <= end,
    decreases end - start,
{
    if start < end && path[start] != SEPARATOR {
        lemma_piece_end_cut(path, end, start + 1);
    }
}

/// The names of the components whose pieces start at `start` or later.
spec fn names_from(path: Seq<u8>, start: int) -> Seq<Seq<u8>> {
    spans_from(path, start).map_values(|span: (int, int)| path.subrange(span.0, span.1))
}

/// What follows two places that are not the starts of their paths has the same names if it has the
/// same bytes.
proof fn lemma_same_rest(path: Seq<u8>, start: int, other: Seq<u8>, other_start: int)
    requires
        0 < start,
        0 < other_start,
        path.len() - start == other.len() - other_start,
        forall|i: int| start <= i < path.len() ==> path[i] == other[i - start + other_start],
    ensures
        names_from(path, start) == names_from(other, other_start),
    decreases path.len() + 1 - start,
{
    if start < path.len() {
        let shift = other_start - start;
        lemma_piece_end(path, start);
        lemma_same_piece_end(path, start, other, other_start);
        let end = piece_end(path, start);
        lemma_same_rest(path, end + 1, other, end + 1 + shift);
        let rest = names_from(path, end + 1);
        assert(is_skipped(path, start, end) == is_skipped(other, other_start, end + shift));
        if !is_skipped(path, start, end) {
            assert(path.subrange(start, end) =~= other.subrange(other_start, end + shift));
            assert(names_from(path, start) =~= seq![path.subrange(start, end)] + rest);
            assert(names_from(other, other_start) =~= seq![
                other.subrange(other_start, end + shift),
            ] + names_from(other, end + 1 + shift));
        } else {
            assert(names_from(path, start) =~= rest);
            assert(names_from(other, other_start) =~= names_from(other, end + 1 + shift));
        }
    } else {
        assert(names_from(path, start) =~= names_from(other, other_start));
    }
}

proof fn lemma_same_piece_end(path: Seq<u8>, start: int, other: Seq<u8>, other_start: int)
    requires
        0 <= start <= path.len(),
        0 <= other_start,
        path.len() - start == other.len() - other_start,
        forall|i: int| start <= i < path.len() ==> path[i] == other[i - start + other_start],
    ensures
        piece_end(other, other_start) - other_start == piece_end(path, start) - start,
    decreases path.len() - start,
{
    if start < path.len() && path[start] != SEPARATOR {
        assert(other[other_start] == path[start]);
        lemma_same_piece_end(path, start + 1, other, other_start + 1);
    } else if start < path.len() {
        assert(other[other_start] == path[start]);
    }
}

/// The names of a path that is cut where a piece ends come first among the names of the path.
proof fn lemma_names_cut(path: Seq<u8>, end: int)
    requires
        0 <= end <= path.len(),
        end < path.len() ==> path[end] == SEPARATOR,
    ensures
        names(path) == names(path.take(end)) + names_from(path, end + 1),
{
    let first = path.take(end);
    lemma_spans_cut(path, end, 0);
    lemma_spans_from(first, 0);
    assert forall|k: int| 0 <= k < spans(first).len() implies #[trigger] names(path)[k] == names(
        first,
    )[k] by {
        let span = spans(first)[k];
        assert(spans(path)[k] == span);
        assert(path.subrange(span.0, span.1) =~= first.subrange(span.0, span.1));
    }
    assert(names(path) =~= names(first) + names_from(path, end + 1));
}

/// What a directory and what is read from it are joined to.
proof fn lemma_names_of_join(base: Seq<u8>, other: Seq<u8>)
    requires
        base.len() > 0,
        !is_absolute(other),
    ensures
        is_absolute(join(base, other)) == is_absolute(base),
        base.last() == SEPARATOR ==> names(join(base, other)) == names(base) + names_from(
            join(base, other),
            base.len() as int,
        ),
        base.last() != SEPARATOR ==> names(join(base, other)) == names(base) + names_from(
            join(base, other),
            base.len() as int + 1,
        ),
{
    let joined = join(base, other);
    if base.last() == SEPARATOR {
        let end = base.len() - 1;
        lemma_names_cut(joined, end);
        lemma_names_cut(base, end);
        assert(joined.take(end) =~= base.take(end));
        assert(names_from(base, end + 1) =~= Seq::empty());
        assert(names(base) =~= names(joined.take(end)));
    } else {
        let end = base.len() as int;
        lemma_names_cut(joined, end);
        assert(joined.take(end) =~= base);
    }
}

/// The parent of a path has all components of the path but the last.
pub proof fn parent_has_all_components_but_the_last(path: Seq<u8>)
    ensures
        parent(path) is None <==> names(path).len() == 0,
        parent(path) matches Some(above) ==> {
            &&& components(path).len() > 0
            &&& components(above) == components(path).drop_last()
            &&& is_absolute(above) == is_absolute(path)
            &&& starts_with(path, above)
        },
{
    let count = spans(path).len() as int;
    if count > 0 {
        lemma_spans_from(path, 0);
        lemma_first_span(path);
        let end = names_end(path, count - 1);
        let above = path.take(end);
        if count == 1 {
            if is_absolute(path) {
                assert(piece_end(above, 0) == 0);
                assert(spans_from(above, 1) =~= Seq::empty());
            }
            assert(spans(above) =~= Seq::empty());
            assert(names(above) =~= names(path).drop_last());
        } else {
            lemma_piece_end(path, spans(path)[count - 2].0);
            lemma_spans_cut(path, end, 0);
            lemma_names_cut(path, end);
            lemma_spans_from(above, 0);
            lemma_spans_from(path, end + 1);
            let kept = spans(above).len() as int;
            assert(kept == count - 1) by {
                if kept < count - 1 {
                    assert(spans(path)[count - 2] == spans_from(path, end + 1)[count - 2 - kept]);
                }
                if kept > count - 1 {
                    assert(spans(path)[count - 1] == spans(above)[count - 1]);
                }
            }
            assert(names(above) =~= names(path).drop_last());
        }
        assert(components(above) =~= components(path).drop_last());
    }
}

/// The name of an entry in a directory: no separator is in it, and it is neither `.` nor `..`.
pub open spec fn is_entry_name(name: Seq<u8>) -> bool {
    &&& name.len() > 0
    &&& !is_dots(name)
    &&& !name.contains(SEPARATOR)
}

/// The file name of a path is the name of an entry, and joined to the parent of the path it has
/// the components of the path again.
pub proof fn a_file_name_belongs_to_the_parent(path: Seq<u8>)
    ensures
        file_name(path) matches Some(name) ==> {
            &&& is_entry_name(name)
            &&& parent(path) matches Some(above) && components(join(above, name)) == components(
                path,
            )
        },
{
    if let Some(name) = file_name(path) {
        lemma_spans_from(path, 0);
        let span = spans(path).last();
        lemma_piece_end(path, span.0);
        assert(names(path).last() == path.subrange(span.0, span.1));
        assert(!name.contains(SEPARATOR)) by {
            if name.contains(SEPARATOR) {
                let i = choose|i: int| 0 <= i < name.len() && name[i] == SEPARATOR;
                assert(path[span.0 + i] == SEPARATOR);
            }
        }
        parent_has_all_components_but_the_last(path);
        a_joined_name_is_the_file_name(parent(path)->0, name);
        assert(components(path).last() == Component::Name(name));
        assert(components(path) =~= components(path).drop_last().push(Component::Name(name)));
    }
}

/// The name of an entry, joined to its directory, is the name of the joined path, and the
/// components before it are those of the directory.
pub proof fn a_joined_name_is_the_file_name(directory: Seq<u8>, name: Seq<u8>)
    requires
        is_entry_name(name),
    ensures
        file_name(join(directory, name)) == Some(name),
        components(join(directory, name)) == components(directory).push(Component::Name(name)),
        parent(join(directory, name)) matches Some(above) && components(above) == components(
            directory,
        ),
{
    let joined = join(directory, name);
    let start = joined.len() - name.len();
    assert(!is_absolute(name)) by {
        if name[0] == SEPARATOR {
            assert(name.contains(SEPARATOR));
        }
    }
    assert(joined.subrange(start, joined.len() as int) =~= name);
    lemma_piece_end(joined, start);
    assert(piece_end(joined, start) == joined.len()) by {
        let end = piece_end(joined, start);
        if end < joined.len() {
            assert(name[end - start] == SEPARATOR);
            assert(name.contains(SEPARATOR));
        }
    }
    assert(name != seq![DOT]);
    assert(!is_skipped(joined, start, joined.len() as int)) by {
        if name.len() == 1 && name[0] == DOT {
            assert(name =~= seq![DOT]);
        }
    }
    assert(spans_from(joined, joined.len() as int + 1) =~= Seq::empty());
    assert(names_from(joined, start) =~= seq![name]);
    if directory.len() > 0 {
        lemma_names_of_join(directory, name);
    } else {
        assert(joined =~= name);
        assert(names(directory) =~= Seq::empty());
        assert(names(joined) =~= names_from(joined, 0));
    }
    assert(names(joined) =~= names(directory).push(name));
    assert(names(joined).last() == name);
    assert(components(joined) =~= components(directory).push(Component::Name(name)));
    parent_has_all_components_but_the_last(joined);
    assert(components(joined).drop_last() =~= components(directory));
}

/// What is left of a path when another is stripped from its start is relative, and joined to that
/// other path it has the components of the path again.
pub proof fn stripping_a_prefix_is_undone_by_joining(path: Seq<u8>, base: Seq<u8>)
    requires
        components(base).len() > 0,
    ensures
        strip_prefix(path, base) is Some <==> starts_with(path, base),
        strip_prefix(path, base) matches Some(rest) ==> {
            &&& !is_absolute(rest)
            &&& components(join(base, rest)) == components(path)
        },
{
    if starts_with(path, base) {
        lemma_starts_with(path, base);
        lemma_spans_from(path, 0);
        lemma_first_span(path);
        let total = spans(path).len() as int;
        let dropped = spans(base).len() as int;
        assert(base.len() > 0) by {
            if base.len() == 0 {
                assert(components(base) =~= Seq::empty());
            }
        }
        if dropped == total {
            let rest = Seq::<u8>::empty();
            let joined = join(base, rest);
            lemma_names_of_join(base, rest);
            assert(names_from(joined, joined.len() as int) =~= Seq::empty());
            assert(names(joined) =~= names(base));
            assert(names(base) =~= names(path));
        } else {
            let start = spans(path)[dropped].0;
            let end = spans(path)[total - 1].1;
            let rest = path.subrange(start, end);
            let joined = join(base, rest);
            lemma_piece_end(path, start);
            lemma_piece_end(path, spans(path)[total - 1].0);
            assert(spans(path)[dropped].1 <= end);
            assert(path[start] != SEPARATOR) by {
                assert(start < piece_end(path, start));
            }
            assert(rest[0] == path[start]);
            lemma_names_of_join(base, rest);
            let offset = joined.len() - rest.len();
            lemma_rest_of_spans(path, 0, dropped);
            let cut = path.take(end);
            lemma_names_cut(path, end);
            lemma_spans_cut(path, end, 0);
            lemma_spans_from(path, end + 1);
            assert(spans_from(path, end + 1) =~= Seq::empty()) by {
                if spans_from(path, end + 1).len() > 0 {
                    let more = spans(cut).len() as int;
                    assert(spans(path)[more] == spans_from(path, end + 1)[0]);
                    assert(spans(path)[more].0 > spans(path)[total - 1].1);
                }
            }
            assert(names(cut) =~= names(path));
            assert(spans(cut) =~= spans(path));
            lemma_rest_of_spans(cut, 0, dropped);
            assert(names_from(cut, start) =~= names(path).skip(dropped)) by {
                assert(spans_from(cut, start) =~= spans(cut).skip(dropped));
            }
            lemma_same_rest(cut, start, joined, offset);
            assert(names(joined) =~= names(path)) by {
                assert(names(joined) =~= names(base) + names(path).skip(dropped));
            }
        }
        assert(components(join(base, strip_prefix(path, base)->0)) =~= components(path));
    }
}

/// The spans from one of them on are those that follow its start.
proof fn lemma_rest_of_spans(path: Seq<u8>, start: int, count: int)
    requires
        0 <= start,
        0 <= count < spans_from(path, start).len(),
    ensures
        spans_from(path, spans_from(path, start)[count].0) == spans_from(path, start).skip(count),
    decreases path.len() + 1 - start,
{
    let all = spans_from(path, start);
    let end = piece_end(path, start);
    lemma_piece_end(path, start);
    let rest = spans_from(path, end + 1);
    if is_skipped(path, start, end) {
        lemma_rest_of_spans(path, end + 1, count);
    } else if count == 0 {
        assert(all[0] == (start, end));
        assert(all.skip(0) =~= all);
    } else {
        assert(all[count] == rest[count - 1]);
        lemma_rest_of_spans(path, end + 1, count - 1);
        assert(all.skip(count) =~= rest.skip(count - 1));
    }
}

/// The components that a piece between separators makes up: none, where it is empty or a lone dot.
pub open spec fn component_of(piece: Seq<u8>) -> Seq<Component> {
    if piece.len() == 0 || piece == seq![0x2eu8] {
        Seq::empty()
    } else {
        seq![Component::Name(piece)]
    }
}

/// The components of a path come piece by piece: what follows a separator, up to the end, adds one
/// component, unless it is empty or a lone dot.
pub proof fn components_come_piece_by_piece(path: Seq<u8>, piece: Seq<u8>)
    requires
        path.len() > 0,
        !piece.contains(0x2f),
    ensures
        components(path.push(0x2f) + piece) == components(path) + component_of(piece),
{
    let whole = path.push(0x2f) + piece;
    let end = path.len() as int;
    lemma_names_cut(whole, end);
    assert(whole.take(end) =~= path);
    assert(whole[0] == path[0]);
    assert(whole.skip(end + 1) =~= piece);
    lemma_last_piece(whole, end + 1, piece);
    assert(components(whole) =~= components(path) + component_of(piece));
}

proof fn lemma_last_piece(path: Seq<u8>, start: int, piece: Seq<u8>)
    requires
        0 < start <= path.len(),
        path.skip(start) == piece,
        !piece.contains(0x2f),
    ensures
        names_from(path, start).map_values(|name: Seq<u8>| Component::Name(name)) == component_of(
            piece,
        ),
{
    let end = path.len() as int;
    assert forall|i: int| start <= i < end implies path[i] != SEPARATOR by {
        assert(piece[i - start] == path[i]);
        assert(piece.contains(piece[i - start]));
    }
    lemma_piece_end(path, start);
    if start < end {
        assert(piece_end(path, start) == end);
        assert(spans_from(path, end + 1) =~= Seq::empty());
        assert(path.subrange(start, end) =~= piece);
        if piece.len() == 1 && piece[0] == DOT {
            assert(piece =~= seq![0x2eu8]);
        }
        assert(is_skipped(path, start, end) == (piece == seq![0x2eu8]));
        if piece == seq![0x2eu8] {
            assert(names_from(path, start) =~= Seq::empty());
        } else {
            assert(names_from(path, start) =~= seq![piece]);
        }
    } else {
        assert(names_from(path, start) =~= Seq::empty());
    }
    assert(names_from(path, start).map_values(|name: Seq<u8>| Component::Name(name))
        =~= component_of(piece));
}

/// A path without a separator is a single component, a lone dot too. With a separator in front it
/// is below the root, and there a lone dot does not count.
pub proof fn first_components(piece: Seq<u8>)
    requires
        !piece.contains(0x2f),
    ensures
        piece.len() == 0 ==> components(piece) == Seq::<Component>::empty(),
        piece.len() > 0 ==> components(piece) == seq![Component::Name(piece)],
        components(seq![0x2fu8] + piece) == seq![Component::Root] + component_of(piece),
{
    let whole = seq![0x2fu8] + piece;
    assert(whole[0] == SEPARATOR);
    lemma_names_cut(whole, 0);
    assert(spans(whole.take(0)) =~= Seq::empty());
    assert(whole.skip(1) =~= piece);
    lemma_last_piece(whole, 1, piece);
    assert(names(whole) =~= names_from(whole, 1));
    assert(components(whole) =~= seq![Component::Root] + component_of(piece));
    if piece.len() > 0 {
        let end = piece.len() as int;
        assert forall|i: int| 0 <= i < end implies piece[i] != SEPARATOR by {
            assert(piece.contains(piece[i]));
        }
        lemma_piece_end(piece, 0);
        assert(piece_end(piece, 0) == end);
        assert(spans_from(piece, end + 1) =~= Seq::empty());
        assert(spans(piece) =~= seq![(0int, end)]);
        assert(piece.subrange(0, end) =~= piece);
        assert(components(piece) =~= seq![Component::Name(piece)]);
    } else {
        assert(components(piece) =~= Seq::empty());
    }
}

/// What is read from a directory is below it: an absolute path is itself, and any other adds the
/// components that it would have below the root.
pub proof fn joined_paths_are_below_the_directory(base: Seq<u8>, other: Seq<u8>)
    ensures
        other.len() > 0 && other[0] == 0x2f ==> join(base, other) == other,
        base.len() == 0 ==> join(base, other) == other,
        base.len() > 0 && !(other.len() > 0 && other[0] == 0x2f) ==> components(join(base, other))
            == components(base) + components(seq![0x2fu8] + other).skip(1),
{
    if base.len() == 0 {
        assert(base + other =~= other);
    } else if !is_absolute(other) {
        let joined = join(base, other);
        let rooted = seq![0x2fu8] + other;
        lemma_names_of_join(base, other);
        let start = joined.len() - other.len();
        assert(start > 0);
        lemma_same_rest(joined, start, rooted, 1);
        lemma_names_cut(rooted, 0);
        assert(spans(rooted.take(0)) =~= Seq::empty());
        assert(names(rooted) =~= names_from(rooted, 1));
        assert(components(rooted).skip(1) =~= names(rooted).map_values(
            |name: Seq<u8>| Component::Name(name),
        ));
        assert(components(joined) =~= components(base) + components(rooted).skip(1));
    }
}

/// A path has a file name exactly where its last component is a name other than `.` and `..`, and
/// it has a parent exactly where it has a component other than the root.
pub proof fn file_names_are_last_components(path: Seq<u8>)
    ensures
        file_name(path) is Some <==> {
            &&& components(path).len() > 0
            &&& components(path).last() is Name
            &&& components(path).last() != Component::Name(seq![0x2eu8])
            &&& components(path).last() != Component::Name(seq![0x2eu8, 0x2eu8])
        },
        file_name(path) matches Some(name) ==> components(path).last() == Component::Name(name),
        parent(path) is None <==> components(path).len() == 0 || components(path) == seq![
            Component::Root,
        ],
{
    parent_has_all_components_but_the_last(path);
    let count = names(path).len();
    if count > 0 {
        assert(components(path).last() == Component::Name(names(path).last()));
        if components(path) == seq![Component::Root] {
            assert(components(path).last() is Root);
        }
    } else if is_absolute(path) {
        assert(components(path) =~= seq![Component::Root]);
    } else {
        assert(components(path) =~= Seq::empty());
    }
}

/// A path starts with another where that one's components come first among its own. So it starts
/// with every directory that it is read from, and with none of whose last name only a part comes
/// first in its own.
pub proof fn paths_start_with_whole_components(path: Seq<u8>, base: Seq<u8>)
    ensures
        starts_with(path, base) <==> components(base).len() <= components(path).len()
            && components(path).take(components(base).len() as int) == components(base),
        !(path.len() > 0 && path[0] == 0x2f) ==> starts_with(join(base, path), base),
{
    let ours = components(path);
    let theirs = components(base);
    if theirs.len() <= ours.len() {
        assert(ours.take(theirs.len() as int) =~= ours.subrange(0, theirs.len() as int));
    }
    if !is_absolute(path) {
        let joined = components(join(base, path));
        if base.len() > 0 {
            joined_paths_are_below_the_directory(base, path);
            assert(joined.subrange(0, theirs.len() as int) =~= theirs);
        } else {
            assert(theirs =~= Seq::empty());
            assert(joined.subrange(0, 0) =~= theirs);
        }
    }
}

/// A relative path that does not start with a lone dot has the same names as below the root.
proof fn lemma_names_below_the_root(path: Seq<u8>)
    requires
        path.len() > 0,
        path[0] != SEPARATOR,
        !(piece_end(path, 0) == 1 && path[0] == DOT),
    ensures
        names(path) == names_from(seq![0x2fu8] + path, 1),
{
    let rooted = seq![0x2fu8] + path;
    let end = piece_end(path, 0);
    lemma_piece_end(path, 0);
    lemma_same_piece_end(path, 0, rooted, 1);
    lemma_same_rest(path, end + 1, rooted, end + 2);
    assert(path.subrange(0, end) =~= rooted.subrange(1, end + 1));
    assert(rooted[1] == path[0]);
    assert(names(path) =~= seq![path.subrange(0, end)] + names_from(path, end + 1));
    assert(names_from(rooted, 1) =~= seq![rooted.subrange(1, end + 1)] + names_from(
        rooted,
        end + 2,
    ));
}

/// What is left of a path when another is stripped from its start has the components that follow
/// those of the other.
pub proof fn stripped_paths_keep_the_other_components(path: Seq<u8>, base: Seq<u8>)
    requires
        components(base).len() > 0,
        starts_with(path, base),
    ensures
        strip_prefix(path, base) matches Some(rest) && components(rest) == components(path).skip(
            components(base).len() as int,
        ) && (rest.len() == 0 <==> components(path) == components(base)),
{
    lemma_starts_with(path, base);
    lemma_spans_from(path, 0);
    lemma_first_span(path);
    let total = spans(path).len() as int;
    let dropped = spans(base).len() as int;
    let rest = strip_prefix(path, base)->0;
    if dropped == total {
        assert(components(rest) =~= Seq::empty());
        assert(components(path) =~= components(base)) by {
            assert(names(path) =~= names(base));
        }
        assert(components(path).skip(components(base).len() as int) =~= Seq::empty());
    } else {
        let start = spans(path)[dropped].0;
        let end = spans(path)[total - 1].1;
        assert(start > 0) by {
            if dropped > 0 {
                assert(spans(path)[dropped - 1].1 < start);
            }
        }
        lemma_piece_end(path, start);
        lemma_piece_end(path, spans(path)[total - 1].0);
        assert(spans(path)[dropped].1 <= end);
        assert(rest[0] == path[start]);
        assert(path[start] != SEPARATOR) by {
            assert(start < piece_end(path, start));
        }
        let cut = path.take(end);
        lemma_names_cut(path, end);
        lemma_spans_cut(path, end, 0);
        lemma_spans_from(path, end + 1);
        assert(spans_from(path, end + 1) =~= Seq::empty()) by {
            if spans_from(path, end + 1).len() > 0 {
                let more = spans(cut).len() as int;
                assert(spans(path)[more] == spans_from(path, end + 1)[0]);
                assert(spans(path)[more].0 > spans(path)[total - 1].1);
            }
        }
        assert(spans(cut) =~= spans(path));
        assert(names(cut) =~= names(path));
        lemma_rest_of_spans(cut, 0, dropped);
        assert(names_from(cut, start) =~= names(path).skip(dropped)) by {
            assert(spans_from(cut, start) =~= spans(cut).skip(dropped));
        }
        let rooted = seq![0x2fu8] + rest;
        lemma_same_rest(cut, start, rooted, 1);
        lemma_same_piece_end(cut, start, rest, 0);
        let stop = piece_end(cut, start);
        lemma_piece_end(cut, start);
        assert(!is_skipped(cut, start, stop)) by {
            if is_skipped(cut, start, stop) {
                lemma_spans_from(cut, stop + 1);
                assert(spans_from(cut, start)[0] == spans(cut)[dropped]);
                assert(spans_from(cut, stop + 1)[0].0 >= stop + 1);
            }
        }
        lemma_names_below_the_root(rest);
        assert(names(rest) =~= names(path).skip(dropped));
        assert(components(rest) =~= components(path).skip(components(base).len() as int));
    }
}

} // verus!
