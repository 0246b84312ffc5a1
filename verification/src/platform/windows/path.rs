//! Paths as the Windows API takes them.

use vstd::prelude::*;
use vstd::slice::slice_to_vec;

use crate::error::{self, ErrorKind, IoError, IoErrorView};

verus! {

/// The code unit that ends a path for the Windows API.
pub const NUL: u16 = 0;

/// The path as the Windows API takes it: with a NUL behind it, and none in it.
pub open spec fn terminated(path: Seq<u16>) -> Result<Seq<u16>, IoErrorView> {
    if path.contains(NUL) {
        Err(error::own_failure(ErrorKind::InvalidInput, "string contains an interior NUL"@))
    } else {
        Ok(path.push(NUL))
    }
}

/// What a path, or the failure to make one, says.
pub open spec fn wide_view(path: Result<Vec<u16>, IoError>) -> Result<Seq<u16>, IoErrorView> {
    match path {
        Ok(path) => Ok(path@),
        Err(error) => Err(error@),
    }
}

/// Tells whether a path holds a NUL.
pub fn has_nul(path: &[u16]) -> (found: bool)
    ensures
        found == path@.contains(NUL),
{
    let mut i: usize = 0;
    while i < path.len()
        invariant
            i <= path@.len(),
            forall|k: int| 0 <= k < i ==> path@[k] != NUL,
        decreases path@.len() - i,
    {
        if path[i] == NUL {
            assert(path@[i as int] == NUL);
            return true;
        }
        i = i + 1;
    }
    false
}

/// The path as the Windows API takes it: with a NUL behind it, and none in it.
pub fn wide_path(path: &[u16]) -> (wide: Result<Vec<u16>, IoError>)
    ensures
        wide_view(wide) == terminated(path@),
{
    if has_nul(path) {
        return Err(IoError::new(ErrorKind::InvalidInput, "string contains an interior NUL"));
    }
    let mut wide = slice_to_vec(path);
    wide.push(NUL);
    Ok(wide)
}

/// A path can be handed to the Windows API exactly where it holds no NUL, and then one is put
/// behind it.
pub proof fn terminated_paths_hold_one_nul(path: Seq<u16>)
    ensures
        path.contains(0) ==> (terminated(path) matches Err(error) && error.kind
            == ErrorKind::InvalidInput),
        !path.contains(0) ==> terminated(path) == Ok::<Seq<u16>, IoErrorView>(path.push(0)),
{
}

} // verus!
