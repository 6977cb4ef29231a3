//! Identifiers and small enums that cross module boundaries.

use vstd::prelude::*;
use vstd::string::StringExecFns;

verus! {

/// NTFS 64-bit file reference number: a 48-bit MFT record index plus a 16-bit
/// sequence number that grows each time the record is reused.
#[derive(Clone, Copy, Debug, PartialEq, Eq, Structural, Hash, PartialOrd, Ord)]
pub struct Frn(pub u64);

/// The MFT record index held in a file reference number.
pub open spec fn record_of(frn: u64) -> u64 {
    frn % 0x1_0000_0000_0000
}

/// The reuse count held in a file reference number.
pub open spec fn sequence_of(frn: u64) -> u64 {
    frn / 0x1_0000_0000_0000
}

impl Frn {
    /// The 48-bit MFT record number. Dense, and reused by NTFS.
    pub fn record_number(self) -> (n: u64)
        ensures
            n == record_of(self.0),
            n < 0x1_0000_0000_0000,
    {
        self.0 % 0x1_0000_0000_0000
    }

    /// The 16-bit sequence number.
    pub fn sequence(self) -> (n: u16)
        ensures
            n == sequence_of(self.0),
    {
        (self.0 / 0x1_0000_0000_0000) as u16
    }
}

impl Default for Frn {
    fn default() -> (frn: Frn)
        ensures
            frn.0 == 0,
    {
        Frn(0)
    }
}

/// A file reference number is exactly its record number and its sequence
/// number: two that agree in both are the same, so the next tenant of a
/// reused record never equals the one before.
pub proof fn law_frn_is_record_and_sequence(a: Frn, b: Frn)
    ensures
        a == b <==> record_of(a.0) == record_of(b.0) && sequence_of(a.0) == sequence_of(b.0),
{
}

/// Dense index into the columns of the entry table.
pub type EntryIdx = u32;

/// Sentinel `EntryIdx`: no entry.
pub const NIL: EntryIdx = 0xFFFF_FFFF;

/// Result sort key. `Path` compares `(parent_path, name)` without regard to
/// case, not the full path naively.
#[derive(Clone, Copy, Debug, PartialEq, Eq, Structural)]
pub enum SortKey {
    Name,
    Path,
    Size,
    DateModified,
}

#[derive(Clone, Copy, Debug, PartialEq, Eq, Structural)]
pub enum SortDir {
    Asc,
    Desc,
}

#[derive(Clone, Copy, Debug, PartialEq, Eq, Structural)]
pub struct SortSpec {
    pub key: SortKey,
    pub dir: SortDir,
}

/// The direction a sort key has when the user names none: names and paths
/// ascend, sizes and dates descend.
pub open spec fn default_dir(key: SortKey) -> SortDir {
    match key {
        SortKey::Name => SortDir::Asc,
        SortKey::Path => SortDir::Asc,
        SortKey::Size => SortDir::Desc,
        SortKey::DateModified => SortDir::Desc,
    }
}

impl SortSpec {
    /// The key with its default direction.
    pub fn default_for(key: SortKey) -> (spec: SortSpec)
        ensures
            spec.key == key,
            spec.dir == default_dir(key),
    {
        let dir = match key {
            SortKey::Name | SortKey::Path => SortDir::Asc,
            SortKey::Size | SortKey::DateModified => SortDir::Desc,
        };
        SortSpec { key, dir }
    }
}

impl Default for SortSpec {
    /// With no sort flag, results are ordered by name, ascending.
    fn default() -> (spec: SortSpec)
        ensures
            spec.key == SortKey::Name,
            spec.dir == SortDir::Asc,
    {
        SortSpec::default_for(SortKey::Name)
    }
}

/// Optional CSV columns, in flag order. The file name is always written last
/// and is not represented here.
#[derive(Clone, Copy, Debug, PartialEq, Eq, Structural)]
pub enum EsColumn {
    Size,
    DateModified,
}

/// Lifecycle phase of one indexed volume.
#[derive(Clone, Debug, PartialEq, Eq)]
pub enum VolumePhase {
    Bootstrapping,
    Live,
    Rescanning,
    /// Fully indexed, but the volume has no change journal and cannot be given
    /// one: the index is a snapshot that will never see a change.
    Snapshot,
    /// Indexed, but live updates have stopped when they should be working.
    Offline,
    Failed { reason: String },
}

/// What a phase reads as in a status report.
pub open spec fn phase_text(phase: VolumePhase) -> Seq<char> {
    match phase {
        VolumePhase::Bootstrapping => "bootstrapping"@,
        VolumePhase::Live => "live"@,
        VolumePhase::Rescanning => "rescanning"@,
        VolumePhase::Snapshot => "snapshot (no journal; cannot track changes)"@,
        VolumePhase::Offline => "offline"@,
        VolumePhase::Failed { reason } => "failed ("@ + reason@ + ")"@,
    }
}

impl VolumePhase {
    /// Whether a result set drawn from this volume is as complete as it can
    /// ever be, so that it must not be flagged incomplete. A snapshot counts:
    /// its index cannot improve and waiting cannot help.
    pub fn is_complete(&self) -> (complete: bool)
        ensures
            complete == (*self is Live || *self is Snapshot),
    {
        match self {
            VolumePhase::Live | VolumePhase::Snapshot => true,
            _ => false,
        }
    }

    /// The phase in words.
    pub fn text(&self) -> (s: String)
        ensures
            s@ == phase_text(*self),
    {
        match self {
            VolumePhase::Bootstrapping => String::from_str("bootstrapping"),
            VolumePhase::Live => String::from_str("live"),
            VolumePhase::Rescanning => String::from_str("rescanning"),
            VolumePhase::Snapshot => String::from_str(
                "snapshot (no journal; cannot track changes)",
            ),
            VolumePhase::Offline => String::from_str("offline"),
            VolumePhase::Failed { reason } => {
                let mut s = String::from_str("failed (");
                s.append(reason.as_str());
                s.append(")");
                s
            },
        }
    }
}

} // verus!
