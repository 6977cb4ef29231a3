//! What the server keeps for each volume.

use crate::types::EntryIdx;
use vstd::prelude::*;

verus! {

/// A directory that was searched last, with its path below the volume.
#[derive(Clone, Debug, PartialEq, Eq)]
pub struct ScopeCache {
    pub rel: Vec<u8>,
    pub entry: EntryIdx,
}

/// What the paths of a volume begin with: the first mount point, or the name
/// of the volume where it has none.
pub fn mount_prefix<'a>(mounts: &'a Vec<String>, guid: &'a String) -> (s: &'a String)
    ensures
        *s == if mounts@.len() > 0 {
            mounts@[0]
        } else {
            *guid
        },
{
    if mounts.len() > 0 {
        &mounts[0]
    } else {
        guid
    }
}

} // verus!
