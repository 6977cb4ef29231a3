//! The status report.

use crate::proto::types::{DaemonStatus, VolumeMemory, VolumeStatus};
use crate::text;
use crate::types;
use crate::types::VolumePhase;
use vstd::prelude::*;
use vstd::string::StringExecFns;

verus! {

/// What the error stream says where some volume is not followed.
pub const NOT_LIVE_TEXT: &'static str = "goz: some volumes are not fully live";

/// Megabytes of a volume as they are to be printed, used and allocated with a
/// slash between them.
#[derive(Clone, Debug, PartialEq, Eq)]
pub struct MemoryTexts {
    pub total: String,
    pub entries: String,
    pub names: String,
    pub folded: String,
    pub frn: String,
    pub name_tables: String,
    pub dirs: String,
}

/// Megabytes of the process as they are to be printed.
#[derive(Clone, Debug, PartialEq, Eq)]
pub struct ProcessTexts {
    pub private_bytes: String,
    pub working_set: String,
}

/// Bytes in use over all parts.
pub open spec fn used_total(m: VolumeMemory) -> int {
    m.entries.used + m.arena_raw.used + m.arena_folded.used + m.frn_map.used + m.name_tables.used
        + m.dir_children.used
}

/// Bytes allocated over all parts.
pub open spec fn alloc_total(m: VolumeMemory) -> int {
    m.entries.alloc + m.arena_raw.alloc + m.arena_folded.alloc + m.frn_map.alloc
        + m.name_tables.alloc + m.dir_children.alloc
}

/// Bytes in use and bytes allocated over all parts of an index.
pub fn memory_totals(m: &VolumeMemory) -> (r: Option<(u64, u64)>)
    ensures
        r is Some <==> used_total(*m) <= u64::MAX && alloc_total(*m) <= u64::MAX,
        r matches Some((used, alloc)) ==> used == used_total(*m) && alloc == alloc_total(*m),
{
    let used = m.entries.used as u128 + m.arena_raw.used as u128 + m.arena_folded.used as u128
        + m.frn_map.used as u128 + m.name_tables.used as u128 + m.dir_children.used as u128;
    let alloc = m.entries.alloc as u128 + m.arena_raw.alloc as u128 + m.arena_folded.alloc as u128
        + m.frn_map.alloc as u128 + m.name_tables.alloc as u128 + m.dir_children.alloc as u128;
    if used <= u64::MAX as u128 && alloc <= u64::MAX as u128 {
        Some((used as u64, alloc as u64))
    } else {
        None
    }
}

/// `n` spaces.
pub open spec fn spaces(n: int) -> Seq<char> {
    Seq::new(if n > 0 { n as nat } else { 0 }, |k: int| ' ')
}

/// The text with spaces behind it, up to a width.
pub open spec fn to_left(s: Seq<char>, width: int) -> Seq<char> {
    s + spaces(width - s.len())
}

/// The text with spaces before it, up to a width.
pub open spec fn to_right(s: Seq<char>, width: int) -> Seq<char> {
    spaces(width - s.len()) + s
}

fn push_spaces(s: &mut String, width: usize, len: usize)
    ensures
        final(s)@ == old(s)@ + spaces(width - len),
{
    let ghost start = s@;
    let mut i = len;
    assert(start =~= start + spaces(0));
    while i < width
        invariant
            len <= i,
            i <= width || i == len,
            s@ == start + spaces(i - len),
        decreases width - i,
    {
        s.push(' ');
        i = i + 1;
        assert(s@ =~= start + spaces(i - len));
    }
    assert(spaces(i - len) =~= spaces(width - len));
}

/// The line of a volume.
pub open spec fn volume_line(v: VolumeStatus) -> Seq<char> {
    let mount = if v.mounts@.len() > 0 {
        v.mounts@[0]@
    } else {
        v.guid@
    };
    "  "@ + to_left(mount, 8) + " "@ + to_right(text::decimal(v.entries as nat), 12)
        + " entries  phase="@ + types::phase_text(v.phase) + (if v.metadata_pending {
        "  (metadata pending)"@
    } else {
        ""@
    })
}

/// The line on names that may be stale.
pub open spec fn links_line(v: VolumeStatus) -> Seq<char> {
    "           "@ + text::decimal(v.link_reconciles_dropped as nat)
        + " hard-link change(s) not reconciled: some names may be stale"@
}

/// Whether an index shows signs of drift.
pub open spec fn drifts(v: VolumeStatus) -> bool {
    v.stale_slots > 0 || v.delete_of_unknown > 0 || v.placeholders_created > 0
}

/// The line on drift.
pub open spec fn drift_line(v: VolumeStatus) -> Seq<char> {
    "           drift: "@ + text::decimal(v.stale_slots as nat) + " stale slot(s), "@
        + text::decimal(v.delete_of_unknown as nat) + " unknown delete(s), "@ + text::decimal(
        v.placeholders_created as nat,
    ) + " placeholder(s)"@
}

/// The line on memory.
pub open spec fn memory_line(kind: Seq<char>, t: MemoryTexts) -> Seq<char> {
    "           mem MB used/alloc: total "@ + t.total@ + "  entries "@ + t.entries@ + "  names "@
        + t.names@ + "  folded "@ + t.folded@ + "  frn["@ + kind + "] "@ + t.frn@ + "  ntables "@
        + t.name_tables@ + "  dirs "@ + t.dirs@
}

/// The lines of a volume. What has not happened is not mentioned.
pub open spec fn volume_lines(v: VolumeStatus, mem: Option<MemoryTexts>) -> Seq<Seq<char>> {
    seq![volume_line(v)] + (if v.link_reconciles_dropped > 0 {
        seq![links_line(v)]
    } else {
        seq![]
    }) + (if drifts(v) {
        seq![drift_line(v)]
    } else {
        seq![]
    }) + (match (v.memory, mem) {
        (Some(m), Some(t)) => seq![memory_line(m.frn_map_kind@, t)],
        _ => seq![],
    })
}

/// The lines of some volumes.
pub open spec fn all_volume_lines(
    vs: Seq<VolumeStatus>,
    mem: Seq<Option<MemoryTexts>>,
) -> Seq<Seq<char>>
    decreases vs.len(),
{
    if vs.len() == 0 {
        seq![]
    } else {
        all_volume_lines(vs.drop_last(), mem) + volume_lines(vs.last(), mem[vs.len() - 1])
    }
}

/// The lines of a status report.
pub open spec fn report(
    s: DaemonStatus,
    mem: Seq<Option<MemoryTexts>>,
    process: ProcessTexts,
) -> Seq<Seq<char>> {
    seq!["gozd status: "@ + text::decimal(s.volumes@.len()) + " volume(s)"@] + all_volume_lines(
        s.volumes@,
        mem,
    ) + (if s.process_private_bytes > 0 {
        seq![
            "  daemon: "@ + process.private_bytes@ + " MB private, "@ + process.working_set@
                + " MB working set"@,
        ]
    } else {
        seq![]
    })
}

/// What some lines say.
pub open spec fn texts(lines: Seq<String>) -> Seq<Seq<char>> {
    lines.map_values(|l: String| l@)
}

fn push_line(lines: &mut Vec<String>, line: String)
    ensures
        texts(final(lines)@) == texts(old(lines)@) + seq![line@],
{
    lines.push(line);
    assert(texts(lines@) =~= texts(old(lines)@) + seq![line@]);
}

fn push_volume_line(lines: &mut Vec<String>, v: &VolumeStatus)
    ensures
        texts(final(lines)@) == texts(old(lines)@) + seq![volume_line(*v)],
{
    let mount = if v.mounts.len() > 0 {
        v.mounts[0].as_str()
    } else {
        v.guid.as_str()
    };
    let mut s = String::from_str("  ");
    s.append(mount);
    let width = text::chars(mount).len();
    push_spaces(&mut s, 8, width);
    s.append(" ");
    let mut n = String::new();
    text::push_decimal(&mut n, v.entries);
    assert(n@ =~= text::decimal(v.entries as nat));
    let digits = text::chars(n.as_str()).len();
    push_spaces(&mut s, 12, digits);
    s.append(n.as_str());
    s.append(" entries  phase=");
    let phase = v.phase.text();
    s.append(phase.as_str());
    s.append(if v.metadata_pending {
        "  (metadata pending)"
    } else {
        ""
    });
    assert(s@ =~= volume_line(*v));
    push_line(lines, s);
}

fn push_drift_lines(lines: &mut Vec<String>, v: &VolumeStatus)
    ensures
        texts(final(lines)@) == texts(old(lines)@) + (if v.link_reconciles_dropped > 0 {
            seq![links_line(*v)]
        } else {
            seq![]
        }) + (if drifts(*v) {
            seq![drift_line(*v)]
        } else {
            seq![]
        }),
{
    if v.link_reconciles_dropped > 0 {
        let mut s = String::from_str("           ");
        text::push_decimal(&mut s, v.link_reconciles_dropped);
        s.append(" hard-link change(s) not reconciled: some names may be stale");
        assert(s@ =~= links_line(*v));
        push_line(lines, s);
    }
    if v.stale_slots > 0 || v.delete_of_unknown > 0 || v.placeholders_created > 0 {
        let mut s = String::from_str("           drift: ");
        text::push_decimal(&mut s, v.stale_slots);
        s.append(" stale slot(s), ");
        text::push_decimal(&mut s, v.delete_of_unknown);
        s.append(" unknown delete(s), ");
        text::push_decimal(&mut s, v.placeholders_created);
        s.append(" placeholder(s)");
        assert(s@ =~= drift_line(*v));
        push_line(lines, s);
    }
}

fn push_memory_line(lines: &mut Vec<String>, kind: &str, t: &MemoryTexts)
    ensures
        texts(final(lines)@) == texts(old(lines)@) + seq![memory_line(kind@, *t)],
{
    let mut s = String::from_str("           mem MB used/alloc: total ");
    s.append(t.total.as_str());
    s.append("  entries ");
    s.append(t.entries.as_str());
    s.append("  names ");
    s.append(t.names.as_str());
    s.append("  folded ");
    s.append(t.folded.as_str());
    s.append("  frn[");
    s.append(kind);
    s.append("] ");
    s.append(t.frn.as_str());
    s.append("  ntables ");
    s.append(t.name_tables.as_str());
    s.append("  dirs ");
    s.append(t.dirs.as_str());
    push_line(lines, s);
}

fn push_volume(lines: &mut Vec<String>, v: &VolumeStatus, mem: &Option<MemoryTexts>)
    ensures
        texts(final(lines)@) == texts(old(lines)@) + volume_lines(*v, *mem),
{
    push_volume_line(lines, v);
    push_drift_lines(lines, v);
    if let Some(m) = &v.memory {
        if let Some(t) = mem {
            push_memory_line(lines, m.frn_map_kind.as_str(), t);
        }
    }
    assert(texts(lines@) =~= texts(old(lines)@) + volume_lines(*v, *mem));
}

/// The lines of a status report, given the megabytes of each volume, where its
/// memory is known, and those of the process.
pub fn status_lines(s: &DaemonStatus, mem: &Vec<Option<MemoryTexts>>, process: &ProcessTexts) -> (r:
    Vec<String>)
    requires
        mem@.len() == s.volumes@.len(),
        forall|k: int|
            0 <= k < mem@.len() ==> ((#[trigger] mem@[k]) is Some <==> s.volumes@[k].memory is Some),
    ensures
        texts(r@) == report(*s, mem@, *process),
{
    let mut lines: Vec<String> = Vec::new();
    let mut title = String::from_str("gozd status: ");
    text::push_decimal(&mut title, s.volumes.len() as u64);
    title.append(" volume(s)");
    push_line(&mut lines, title);
    let ghost start = texts(lines@);
    let vs = &s.volumes;
    let mut i: usize = 0;
    assert(vs@.subrange(0, 0) =~= Seq::<VolumeStatus>::empty());
    assert(start =~= start + all_volume_lines(vs@.subrange(0, 0), mem@));
    while i < vs.len()
        invariant
            i <= vs@.len(),
            mem@.len() == vs@.len(),
            texts(lines@) == start + all_volume_lines(vs@.subrange(0, i as int), mem@),
        decreases vs@.len() - i,
    {
        let ghost front = vs@.subrange(0, i + 1);
        assert(front.drop_last() =~= vs@.subrange(0, i as int));
        push_volume(&mut lines, &vs[i], &mem[i]);
        i = i + 1;
        assert(texts(lines@) =~= start + all_volume_lines(front, mem@));
    }
    assert(vs@.subrange(0, i as int) =~= vs@);
    if s.process_private_bytes > 0 {
        let mut line = String::from_str("  daemon: ");
        line.append(process.private_bytes.as_str());
        line.append(" MB private, ");
        line.append(process.working_set.as_str());
        line.append(" MB working set");
        push_line(&mut lines, line);
    }
    assert(texts(lines@) =~= report(*s, mem@, *process));
    lines
}

/// The warning that goes with a status report.
pub fn status_warning(s: &DaemonStatus) -> (w: Option<&'static str>)
    ensures
        w is Some <==> s.volumes_incomplete,
        w matches Some(t) ==> t@ == NOT_LIVE_TEXT@,
{
    if s.volumes_incomplete {
        Some(NOT_LIVE_TEXT)
    } else {
        None
    }
}

/// The report counts the volumes, then has the lines of each volume, in order,
/// then those of the process, where its memory is known.
pub proof fn law_every_volume_is_reported(
    s: DaemonStatus,
    mem: Seq<Option<MemoryTexts>>,
    process: ProcessTexts,
    vs: Seq<VolumeStatus>,
    v: VolumeStatus,
)
    ensures
        report(s, mem, process)[0] == "gozd status: "@ + text::decimal(s.volumes@.len())
            + " volume(s)"@,
        report(s, mem, process).len() == 1 + all_volume_lines(s.volumes@, mem).len() + (
        if s.process_private_bytes > 0 {
            1int
        } else {
            0
        }),
        report(s, mem, process).subrange(1, 1 + all_volume_lines(s.volumes@, mem).len() as int)
            == all_volume_lines(s.volumes@, mem),
        s.process_private_bytes > 0 ==> report(s, mem, process).last() == "  daemon: "@
            + process.private_bytes@ + " MB private, "@ + process.working_set@
            + " MB working set"@,
        all_volume_lines(vs.push(v), mem) == all_volume_lines(vs, mem) + volume_lines(
            v,
            mem[vs.len() as int],
        ),
        all_volume_lines(Seq::empty(), mem).len() == 0,
{
    let r = report(s, mem, process);
    let all = all_volume_lines(s.volumes@, mem);
    assert(r.subrange(1, 1 + all.len() as int) =~= all);
    assert(vs.push(v).drop_last() =~= vs);
}

/// A volume has a line of its own, and further lines on links that were not
/// read, on drift and on memory, each only where there is something to say.
pub proof fn law_a_volume_has_its_lines(v: VolumeStatus, mem: Option<MemoryTexts>)
    ensures
        ({
            let lines = volume_lines(v, mem);
            let links = v.link_reconciles_dropped > 0;
            let drift = v.stale_slots > 0 || v.delete_of_unknown > 0 || v.placeholders_created > 0;
            let memory = v.memory is Some && mem is Some;
            let n = 1 + (if links {
                1int
            } else {
                0
            });
            let k = n + (if drift {
                1int
            } else {
                0
            });
            &&& lines.len() == k + (if memory {
                1int
            } else {
                0
            })
            &&& lines[0] == volume_line(v)
            &&& links ==> lines[1] == "           "@ + text::decimal(
                v.link_reconciles_dropped as nat,
            ) + " hard-link change(s) not reconciled: some names may be stale"@
            &&& drift ==> lines[n] == "           drift: "@ + text::decimal(v.stale_slots as nat)
                + " stale slot(s), "@ + text::decimal(v.delete_of_unknown as nat)
                + " unknown delete(s), "@ + text::decimal(v.placeholders_created as nat)
                + " placeholder(s)"@
            &&& memory ==> lines[k] == memory_line(v.memory->0.frn_map_kind@, mem->0)
        }),
{
}

/// The line of a volume names its first mount point, or the volume where it has
/// none, with its entries and its phase, and says where more is to come.
pub proof fn law_the_line_of_a_volume(v: VolumeStatus)
    ensures
        ({
            let mount = if v.mounts@.len() > 0 {
                v.mounts@[0]@
            } else {
                v.guid@
            };
            let n = text::decimal(v.entries as nat);
            let gap = Seq::new(
                if mount.len() < 8 {
                    (8 - mount.len()) as nat
                } else {
                    0
                },
                |k: int| ' ',
            );
            let lead = Seq::new(
                if n.len() < 12 {
                    (12 - n.len()) as nat
                } else {
                    0
                },
                |k: int| ' ',
            );
            let line = "  "@ + mount + gap + " "@ + lead + n + " entries  phase="@
                + types::phase_text(v.phase);
            &&& v.metadata_pending ==> volume_line(v) == line + "  (metadata pending)"@
            &&& !v.metadata_pending ==> volume_line(v) == line
        }),
{
    reveal_strlit("");
    let mount = if v.mounts@.len() > 0 {
        v.mounts@[0]@
    } else {
        v.guid@
    };
    let n = text::decimal(v.entries as nat);
    let gap = Seq::new(
        if mount.len() < 8 {
            (8 - mount.len()) as nat
        } else {
            0
        },
        |k: int| ' ',
    );
    let lead = Seq::new(
        if n.len() < 12 {
            (12 - n.len()) as nat
        } else {
            0
        },
        |k: int| ' ',
    );
    assert(gap =~= spaces(8 - mount.len()));
    assert(lead =~= spaces(12 - n.len()));
    let line = "  "@ + mount + gap + " "@ + lead + n + " entries  phase="@ + types::phase_text(
        v.phase,
    );
    if v.metadata_pending {
        assert(volume_line(v) =~= line + "  (metadata pending)"@);
    } else {
        assert(volume_line(v) =~= line);
    }
}

/// The phases in words.
pub proof fn law_phases_in_words(reason: String)
    ensures
        types::phase_text(VolumePhase::Bootstrapping) == "bootstrapping"@,
        types::phase_text(VolumePhase::Live) == "live"@,
        types::phase_text(VolumePhase::Rescanning) == "rescanning"@,
        types::phase_text(VolumePhase::Snapshot) == "snapshot (no journal; cannot track changes)"@,
        types::phase_text(VolumePhase::Offline) == "offline"@,
        types::phase_text(VolumePhase::Failed { reason }) == "failed ("@ + reason@ + ")"@,
{
}

/// The totals grow with every part, byte by byte, and are nothing where all parts
/// are.
pub proof fn law_totals_count_every_part(m: VolumeMemory, n: VolumeMemory)
    ensures
        used_total(m) - used_total(n) == (m.entries.used - n.entries.used) + (m.arena_raw.used
            - n.arena_raw.used) + (m.arena_folded.used - n.arena_folded.used) + (m.frn_map.used
            - n.frn_map.used) + (m.name_tables.used - n.name_tables.used) + (m.dir_children.used
            - n.dir_children.used),
        alloc_total(m) - alloc_total(n) == (m.entries.alloc - n.entries.alloc) + (m.arena_raw.alloc
            - n.arena_raw.alloc) + (m.arena_folded.alloc - n.arena_folded.alloc) + (
        m.frn_map.alloc - n.frn_map.alloc) + (m.name_tables.alloc - n.name_tables.alloc) + (
        m.dir_children.alloc - n.dir_children.alloc),
{
}

} // verus!
