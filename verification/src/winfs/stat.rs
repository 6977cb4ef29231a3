//! Size and time of a file.

use crate::usn::record;
use vstd::prelude::*;

verus! {

/// Size and time of a file.
#[derive(Clone, Copy, Debug, PartialEq, Eq, Structural)]
pub struct FileStat {
    pub size: u64,
    /// Time of the last write.
    pub mtime_ft: i64,
    pub is_dir: bool,
}

/// What the halves of size and time say. The high half of the time carries the
/// sign.
pub fn stat_of(
    size_high: u32,
    size_low: u32,
    time_high: u32,
    time_low: u32,
    attributes: u32,
) -> (s: FileStat)
    ensures
        s.size == size_high * 0x1_0000_0000 + size_low,
        s.mtime_ft == (if time_high < 0x8000_0000 {
            time_high as int
        } else {
            time_high - 0x1_0000_0000
        }) * 0x1_0000_0000 + time_low,
        s.is_dir == record::directory(attributes),
{
    let high = if time_high < 0x8000_0000 {
        time_high as i64
    } else {
        time_high as i64 - 0x1_0000_0000
    };
    FileStat {
        size: size_high as u64 * 0x1_0000_0000 + size_low as u64,
        mtime_ft: high * 0x1_0000_0000 + time_low as i64,
        is_dir: attributes & record::FILE_ATTRIBUTE_DIRECTORY != 0,
    }
}

} // verus!
