//! Filling the index of a volume.
//!
//! First the records of all files are listed, then the layout of the files
//! gives sizes, times and further links.

use crate::index::enriching;
use crate::index::frn_map::FrnMap;
use crate::index::model;
use crate::index::model::Volume;
use crate::index::volume::apply;
use crate::index::volume::ops;
use crate::index::volume::{VolumeIndex, NTFS_ROOT_FRN};
use crate::layout::parse;
use crate::layout::parse::{LayoutFile, LayoutWalkError};
use crate::le;
use crate::types::{Frn, NIL};
use crate::usn::record;
use crate::usn::record::{ParsedUsnRecord, RecordModel, WalkError};
use crate::winfs::volumes::VolumeInfo;
use vstd::prelude::*;

verus! {

/// Bytes in the buffer for the answers.
pub const IO_BUFFER_BYTES: usize = 0x0010_0000;

/// A volume that is indexed: a fixed disk with NTFS.
pub open spec fn wanted(v: VolumeInfo) -> bool {
    v.is_fixed && v.is_ntfs
}

/// The numbers of the wanted ones among the first `n` volumes, in order.
pub open spec fn wanted_before(volumes: Seq<VolumeInfo>, n: int) -> Seq<usize>
    decreases n,
{
    if n <= 0 {
        Seq::empty()
    } else if wanted(volumes[n - 1]) {
        wanted_before(volumes, n - 1).push((n - 1) as usize)
    } else {
        wanted_before(volumes, n - 1)
    }
}

/// Why no volume is served.
#[derive(Clone, Copy, Debug, PartialEq, Eq, Structural)]
pub enum ScanError {
    NoVolumes,
    NoneBootstrapped,
}

impl ScanError {
    /// The error in words.
    pub fn message(&self) -> (s: &'static str)
        ensures
            s@ == match self {
                ScanError::NoVolumes => "no fixed NTFS volumes found"@,
                ScanError::NoneBootstrapped =>
                    "no volume could be bootstrapped (see the log for per-volume errors)"@,
            },
    {
        match self {
            ScanError::NoVolumes => "no fixed NTFS volumes found",
            ScanError::NoneBootstrapped =>
                "no volume could be bootstrapped (see the log for per-volume errors)",
        }
    }
}

/// The numbers of the volumes to index; there must be one.
pub fn scan_targets(volumes: &[VolumeInfo]) -> (r: Result<Vec<usize>, ScanError>)
    ensures
        ({
            let all = wanted_before(volumes@, volumes@.len() as int);
            match r {
                Ok(list) => list@ == all && all.len() > 0,
                Err(e) => e == ScanError::NoVolumes && all.len() == 0,
            }
        }),
{
    let mut list: Vec<usize> = Vec::new();
    let mut i: usize = 0;
    while i < volumes.len()
        invariant
            i <= volumes@.len(),
            list@ == wanted_before(volumes@, i as int),
        decreases volumes@.len() - i,
    {
        if volumes[i].is_fixed && volumes[i].is_ntfs {
            list.push(i);
        }
        i = i + 1;
    }
    if list.len() == 0 {
        Err(ScanError::NoVolumes)
    } else {
        Ok(list)
    }
}

/// The scan came to something if a volume is served.
pub fn scan_outcome(served: usize) -> (r: Result<(), ScanError>)
    ensures
        r == if served == 0 {
            Err(ScanError::NoneBootstrapped)
        } else {
            Ok::<(), ScanError>(())
        },
{
    if served == 0 {
        Err(ScanError::NoneBootstrapped)
    } else {
        Ok(())
    }
}

/// The index after records were listed, in order.
pub open spec fn all_listed(v: Volume, records: Seq<RecordModel>) -> Volume
    decreases records.len(),
{
    if records.len() == 0 {
        v
    } else {
        let r = records.last();
        all_listed(v, records.drop_last()).upserted(
            r.frn,
            r.parent_frn,
            r.name,
            r.name_lossy,
            record::directory(r.attributes),
        ).0
    }
}

/// The index after files were read, in order.
pub open spec fn all_enriched(v: Volume, files: Seq<parse::FileModel>) -> Volume
    decreases files.len(),
{
    if files.len() == 0 {
        v
    } else {
        let f = files.last();
        all_enriched(v, files.drop_last()).enriched(
            f.frn,
            record::directory(f.attributes),
            apply::long_names(f.names),
            f.size,
            f.mtime_ft,
        )
    }
}

/// The file was in the index when it was read.
pub open spec fn was_known(v: Volume, files: Seq<parse::FileModel>, k: int) -> bool {
    all_enriched(v, files.take(k)).head(files[k].frn) is Some
}

/// Of the first `n` files that were read, each that no later one of them stands
/// in the way of is in the index as it was read.
pub open spec fn all_read_in(v: Volume, w: Volume, files: Seq<parse::FileModel>, n: int) -> bool {
    forall|k: int|
        #![trigger files[k]]
        0 <= k < n && enriching::undisturbed(files, k, n, was_known(v, files, k))
            ==> enriching::read_in(w, files[k], was_known(v, files, k))
}

proof fn lemma_all_read_in(v: Volume, w: Volume, files: Seq<parse::FileModel>, n: int)
    requires
        w == all_enriched(v, files.take(n)),
        w.ok(),
        0 <= n < files.len(),
        w.slots.len() + 4 * apply::long_names(files[n].names).len() < NIL,
        all_read_in(v, w, files, n),
    ensures
        all_read_in(v, enriching::after(w, files[n]), files, n + 1),
        all_enriched(v, files.take(n + 1)) == enriching::after(w, files[n]),
{
    assert(files.take(n + 1).drop_last() =~= files.take(n));
    assert(files.take(n + 1).last() == files[n]);
    assert forall|k: int|
        #![trigger files[k]]
        0 <= k < n + 1 && enriching::undisturbed(
            files,
            k,
            n + 1,
            was_known(v, files, k),
        ) implies enriching::read_in(
        enriching::after(w, files[n]),
        files[k],
        was_known(v, files, k),
    ) by {
        if k < n {
            assert(enriching::undisturbed(files, k, n, was_known(v, files, k)));
        }
        enriching::lemma_read_on(w, files, k, n, was_known(v, files, k));
    }
}

/// Whatever files are read, each of them is in the index as it was read: with
/// the size and the time that were read, on each of its links, and with a link
/// for each of its names. Left out are files that a later one stands in the way
/// of, because it claims a record number that they use for another file.
pub proof fn law_files_are_in_the_index_as_they_were_read(
    v: Volume,
    files: Seq<parse::FileModel>,
    n: int,
)
    requires
        0 <= n <= files.len(),
        forall|j: int|
            0 <= j < n ==> {
                let w = #[trigger] all_enriched(v, files.take(j));
                w.ok() && w.slots.len() + 4 * apply::long_names(files[j].names).len() < NIL
            },
    ensures
        all_read_in(v, all_enriched(v, files.take(n)), files, n),
    decreases n,
{
    if n > 0 {
        law_files_are_in_the_index_as_they_were_read(v, files, n - 1);
        let w = all_enriched(v, files.take(n - 1));
        assert(w.ok());
        lemma_all_read_in(v, w, files, n - 1);
    }
}

/// The file had one link at most when its record was listed.
pub open spec fn was_single(v: Volume, records: Seq<RecordModel>, k: int) -> bool {
    all_listed(v, records.take(k)).links(records[k].frn).len() <= 1
}

/// Of the first `n` records that were listed, each that no later one of them
/// stands in the way of is in the index as it was listed.
pub open spec fn all_listed_in(v: Volume, w: Volume, records: Seq<RecordModel>, n: int) -> bool {
    forall|k: int|
        #![trigger records[k]]
        0 <= k < n && was_single(v, records, k) && enriching::unclaimed(records, k, n)
            ==> enriching::listed_in(w, records[k])
}

proof fn lemma_all_listed_in(v: Volume, w: Volume, records: Seq<RecordModel>, n: int)
    requires
        w == all_listed(v, records.take(n)),
        w.ok(),
        0 <= n < records.len(),
        w.slots.len() + 2 < NIL,
        all_listed_in(v, w, records, n),
    ensures
        all_listed_in(v, enriching::listed(w, records[n]), records, n + 1),
        all_listed(v, records.take(n + 1)) == enriching::listed(w, records[n]),
{
    assert(records.take(n + 1).drop_last() =~= records.take(n));
    assert(records.take(n + 1).last() == records[n]);
    assert forall|k: int|
        #![trigger records[k]]
        0 <= k < n + 1 && was_single(v, records, k) && enriching::unclaimed(
            records,
            k,
            n + 1,
        ) implies enriching::listed_in(enriching::listed(w, records[n]), records[k]) by {
        if k < n {
            assert(enriching::unclaimed(records, k, n));
        }
        enriching::lemma_listed_on(w, records, k, n);
    }
}

/// Whatever records are listed, each file among them is in the index under its
/// name, in its directory. Left out are records that a later one stands in the
/// way of, because it is of the same file or claims a record number that they
/// use for another file, and files of several links.
pub proof fn law_files_are_in_the_index_as_they_were_listed(
    v: Volume,
    records: Seq<RecordModel>,
    n: int,
)
    requires
        0 <= n <= records.len(),
        forall|j: int|
            0 <= j < n ==> {
                let w = #[trigger] all_listed(v, records.take(j));
                w.ok() && w.slots.len() + 2 < NIL
            },
    ensures
        all_listed_in(v, all_listed(v, records.take(n)), records, n),
    decreases n,
{
    if n > 0 {
        law_files_are_in_the_index_as_they_were_listed(v, records, n - 1);
        let w = all_listed(v, records.take(n - 1));
        assert(w.ok());
        lemma_all_listed_in(v, w, records, n - 1);
    }
}

/// Lists records until one does not fit. The result says how many were listed.
fn list_records(index: &mut VolumeIndex, records: &Vec<ParsedUsnRecord>) -> (n: usize)
    requires
        old(index).wf(),
    ensures
        final(index).wf(),
        n <= records@.len(),
        final(index).model() == all_listed(
            old(index).model(),
            record::record_models(records@).take(n as int),
        ),
        all_listed_in(
            old(index).model(),
            final(index).model(),
            record::record_models(records@),
            n as int,
        ),
        n < records@.len() ==> !(ops::short_name(records@[n as int].name@)
            && final(index).affords(apply::name_cost(records@[n as int].name@))),
{
    let ghost all = record::record_models(records@);
    let mut i: usize = 0;
    assert(all.take(0) =~= Seq::empty());
    while i < records.len()
        invariant
            i <= records@.len(),
            all == record::record_models(records@),
            index.wf(),
            index.model() == all_listed(old(index).model(), all.take(i as int)),
            all_listed_in(old(index).model(), index.model(), all, i as int),
        decreases records@.len() - i,
    {
        let ghost w = index.model();
        proof {
            index.lemma_ok();
            assert(all[i as int] == records@[i as int].model());
            assert(all.take(i + 1).drop_last() =~= all.take(i as int));
            assert(all.take(i + 1).last() == all[i as int]);
        }
        if !index.try_insert_enum(&records[i]) {
            return i;
        }
        proof {
            lemma_all_listed_in(old(index).model(), w, all, i as int);
        }
        i = i + 1;
    }
    i
}

/// Reads files until one does not fit. The result says how many were read.
fn enrich_files(index: &mut VolumeIndex, files: &Vec<LayoutFile>) -> (n: usize)
    requires
        old(index).wf(),
    ensures
        final(index).wf(),
        n <= files@.len(),
        final(index).model() == all_enriched(
            old(index).model(),
            parse::file_models(files@).take(n as int),
        ),
        all_read_in(old(index).model(), final(index).model(), parse::file_models(files@), n as int),
        n < files@.len() ==> !(apply::names_short(
            apply::long_names(files@[n as int].model().names),
        ) && final(index).affords(
            apply::file_cost(apply::long_names(files@[n as int].model().names)),
        )),
{
    let ghost all = parse::file_models(files@);
    let mut i: usize = 0;
    assert(all.take(0) =~= Seq::empty());
    while i < files.len()
        invariant
            i <= files@.len(),
            all == parse::file_models(files@),
            index.wf(),
            index.model() == all_enriched(old(index).model(), all.take(i as int)),
            all_read_in(old(index).model(), index.model(), all, i as int),
        decreases files@.len() - i,
    {
        let ghost w = index.model();
        proof {
            index.lemma_ok();
            assert(all[i as int] == files@[i as int].model());
            assert(all.take(i + 1).drop_last() =~= all.take(i as int));
            assert(all.take(i + 1).last() == all[i as int]);
        }
        if !index.try_enrich(&files[i]) {
            return i;
        }
        proof {
            apply::lemma_names_cost(apply::long_names(all[i as int].names), 0);
            lemma_all_read_in(old(index).model(), w, all, i as int);
        }
        i = i + 1;
    }
    i
}

/// How far an index has been filled.
#[derive(Clone, Copy, Debug, PartialEq, Eq, Structural)]
pub enum BuildPhase {
    /// The records are listed from this file reference number on.
    Listing(u64),
    /// The layout of the files is read, from the start or further on.
    Layout { restart: bool },
    Done,
}

/// Why an index cannot be filled.
#[derive(Clone, Debug, PartialEq, Eq)]
pub enum BuildError {
    /// The listed records are malformed.
    Records(WalkError),
    /// The layout of the files is malformed.
    Layout(LayoutWalkError),
    /// The index cannot hold the volume.
    Full,
}

/// What the volume answered to a query of the file layout.
pub enum LayoutAnswer<'a> {
    Data(&'a [u8]),
    End,
    /// The query failed; what was read so far is kept.
    Failed,
}

/// An index that is being filled.
pub struct IndexBuild {
    index: VolumeIndex,
    phase: BuildPhase,
}

impl IndexBuild {
    pub closed spec fn index(&self) -> VolumeIndex {
        self.index
    }

    pub closed spec fn phase(&self) -> BuildPhase {
        self.phase
    }

    /// What the index holds.
    pub open spec fn model(&self) -> Volume {
        self.index().model()
    }

    pub open spec fn wf(&self) -> bool {
        self.index().wf()
    }

    /// An index that holds nothing of the volume yet.
    pub fn new() -> (b: IndexBuild)
        ensures
            b.wf(),
            b.model() == model::new_volume(Frn(NTFS_ROOT_FRN)),
            b.phase() == BuildPhase::Listing(0),
    {
        IndexBuild {
            index: VolumeIndex::new(Frn(NTFS_ROOT_FRN), FrnMap::sparse()),
            phase: BuildPhase::Listing(0),
        }
    }

    /// What to ask the volume for.
    pub fn next(&self) -> (p: BuildPhase)
        ensures
            p == self.phase(),
    {
        self.phase
    }

    /// Takes the answer to a listing: a buffer, or that nothing is left. The
    /// listing ends too when a buffer holds no record and leads nowhere.
    pub fn take_listing(&mut self, answer: Option<&[u8]>) -> (r: Result<(), BuildError>)
        requires
            old(self).wf(),
            old(self).phase() is Listing,
            answer matches Some(buf) ==> record::countable(buf@),
        ensures
            final(self).wf(),
            match answer {
                None => r is Ok && final(self).model() == old(self).model() && final(self).phase()
                    == (BuildPhase::Layout { restart: true }),
                Some(buf) => if buf@.len() < 8 {
                    r == Err::<(), BuildError>(
                        BuildError::Records(WalkError::TruncatedHeader { offset: 0 }),
                    ) && *final(self) == *old(self)
                } else {
                    match record::found_in(buf@) {
                        Err(e) => r == Err::<(), BuildError>(BuildError::Records(e)) && *final(self)
                            == *old(self),
                        Ok(f) => {
                            let from = old(self).phase()->Listing_0;
                            &&& r is Ok ==> final(self).model() == all_listed(
                                old(self).model(),
                                f.records,
                            ) && final(self).phase() == (if f.records.len() == 0 && le::le(
                                buf@,
                                0,
                                8,
                            ) == from {
                                BuildPhase::Layout { restart: true }
                            } else {
                                BuildPhase::Listing(le::le(buf@, 0, 8) as u64)
                            })
                            &&& r is Ok ==> all_listed_in(
                                old(self).model(),
                                final(self).model(),
                                f.records,
                                f.records.len() as int,
                            )
                            &&& r is Err ==> r->Err_0 is Full && exists|n: int|
                                0 <= n < f.records.len() && #[trigger] unlistable(
                                    *final(self),
                                    old(self).model(),
                                    f.records,
                                    n,
                                )
                        },
                    }
                },
            },
    {
        let buf = match answer {
            None => {
                self.phase = BuildPhase::Layout { restart: true };
                return Ok(());
            },
            Some(buf) => buf,
        };
        let walk = match record::walk_enum_buffer(buf) {
            Ok(walk) => walk,
            Err(e) => {
                return Err(BuildError::Records(e));
            },
        };
        let n = list_records(&mut self.index, &walk.records);
        proof {
            let all = record::record_models(walk.records@);
            assert(all.take(all.len() as int) =~= all);
        }
        if n < walk.records.len() {
            proof {
                let f = record::found_in(buf@)->Ok_0;
                assert(f.records[n as int] == walk.records@[n as int].model());
                assert(unlistable(*self, old(self).model(), f.records, n as int));
            }
            return Err(BuildError::Full);
        }
        let from = match self.phase {
            BuildPhase::Listing(from) => from,
            _ => 0,
        };
        self.phase = if walk.next_start_frn == from && walk.records.len() == 0 {
            BuildPhase::Layout { restart: true }
        } else {
            BuildPhase::Listing(walk.next_start_frn)
        };
        Ok(())
    }

    /// Takes the answer to a query of the file layout.
    pub fn take_layout(&mut self, answer: LayoutAnswer<'_>) -> (r: Result<(), BuildError>)
        requires
            old(self).wf(),
            old(self).phase() is Layout,
        ensures
            final(self).wf(),
            match answer {
                LayoutAnswer::Data(buf) => match parse::files_in(buf@) {
                    Err(e) => r == Err::<(), BuildError>(BuildError::Layout(e)) && *final(self)
                        == *old(self),
                    Ok(files) => {
                        &&& r is Ok ==> final(self).model() == all_enriched(
                            old(self).model(),
                            files,
                        ) && final(self).phase() == (BuildPhase::Layout { restart: false })
                        &&& r is Ok ==> all_read_in(
                            old(self).model(),
                            final(self).model(),
                            files,
                            files.len() as int,
                        )
                        &&& r is Err ==> r->Err_0 is Full && exists|n: int|
                            0 <= n < files.len() && #[trigger] unreadable(
                                *final(self),
                                old(self).model(),
                                files,
                                n,
                            )
                    },
                },
                _ => r is Ok && final(self).model() == old(self).model() && final(self).phase()
                    == BuildPhase::Done,
            },
    {
        match answer {
            LayoutAnswer::Data(buf) => {
                let files = match parse::walk_layout_buffer(buf) {
                    Ok(files) => files,
                    Err(e) => {
                        return Err(BuildError::Layout(e));
                    },
                };
                let n = enrich_files(&mut self.index, &files);
                proof {
                    let all = parse::file_models(files@);
                    assert(all.take(all.len() as int) =~= all);
                }
                if n < files.len() {
                    proof {
                        let all = parse::files_in(buf@)->Ok_0;
                        assert(all[n as int] == files@[n as int].model());
                        assert(unreadable(*self, old(self).model(), all, n as int));
                    }
                    return Err(BuildError::Full);
                }
                self.phase = BuildPhase::Layout { restart: false };
                Ok(())
            },
            LayoutAnswer::End => {
                self.phase = BuildPhase::Done;
                Ok(())
            },
            LayoutAnswer::Failed => {
                self.phase = BuildPhase::Done;
                Ok(())
            },
        }
    }

    /// The filled index.
    pub fn finish(self) -> (index: VolumeIndex)
        requires
            self.wf(),
        ensures
            index == self.index(),
            index.wf(),
    {
        self.index
    }
}

/// The first `n` records were listed, and the next one does not fit.
pub open spec fn unlistable(b: IndexBuild, v: Volume, records: Seq<RecordModel>, n: int) -> bool {
    &&& b.model() == all_listed(v, records.take(n))
    &&& !(ops::short_name(records[n].name) && b.index().affords(apply::name_cost(records[n].name)))
}

/// The first `n` files were read, and the next one does not fit.
pub open spec fn unreadable(
    b: IndexBuild,
    v: Volume,
    files: Seq<parse::FileModel>,
    n: int,
) -> bool {
    let long = apply::long_names(files[n].names);
    &&& b.model() == all_enriched(v, files.take(n))
    &&& !(apply::names_short(long) && b.index().affords(apply::file_cost(long)))
}

/// The volumes to index are the fixed disks with NTFS, each once, in the order
/// in which they were found.
pub proof fn law_fixed_ntfs_volumes_are_indexed(volumes: Seq<VolumeInfo>, n: int)
    requires
        0 <= n <= volumes.len() <= usize::MAX,
    ensures
        forall|i: int|
            0 <= i < n ==> ((#[trigger] volumes[i]).is_fixed && volumes[i].is_ntfs
                <==> wanted_before(volumes, n).contains(i as usize)),
        forall|a: int, b: int|
            0 <= a < b < wanted_before(volumes, n).len() ==> #[trigger] wanted_before(volumes, n)[a]
                < #[trigger] wanted_before(volumes, n)[b],
        forall|a: int|
            0 <= a < wanted_before(volumes, n).len() ==> #[trigger] wanted_before(volumes, n)[a]
                < n,
    decreases n,
{
    if n > 0 {
        law_fixed_ntfs_volumes_are_indexed(volumes, n - 1);
        let rest = wanted_before(volumes, n - 1);
        let all = wanted_before(volumes, n);
        assert forall|a: int| 0 <= a < all.len() implies #[trigger] all[a] < n by {
            if a < rest.len() {
                assert(all[a] == rest[a]);
            }
        }
        assert forall|a: int, b: int| 0 <= a < b < all.len() implies #[trigger] all[a]
            < #[trigger] all[b] by {
            assert(all[a] == rest[a]);
            if b < rest.len() {
                assert(all[b] == rest[b]);
            }
        }
        assert forall|i: int| 0 <= i < n implies ((#[trigger] volumes[i]).is_fixed
            && volumes[i].is_ntfs <==> all.contains(i as usize)) by {
            if rest.contains(i as usize) {
                let k = choose|k: int| 0 <= k < rest.len() && rest[k] == i as usize;
                assert(all[k] == rest[k]);
            }
            if all.contains(i as usize) && i < n - 1 {
                let k = choose|k: int| 0 <= k < all.len() && all[k] == i as usize;
                if k < rest.len() {
                    assert(rest[k] == all[k]);
                }
            }
            if i == n - 1 {
                if wanted(volumes[i]) {
                    assert(all[rest.len() as int] == i as usize);
                } else if rest.contains(i as usize) {
                    let k = choose|k: int| 0 <= k < rest.len() && rest[k] == i as usize;
                    assert(rest[k] < n - 1);
                }
            }
        }
    }
}

} // verus!
