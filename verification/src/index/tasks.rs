//! What is left to do after a batch of journal records.

use crate::index::laws;
use crate::index::model;
use crate::index::model::Applied;
use crate::types;
use crate::usn::ops;
use crate::usn::ops::OpModel;
use crate::usn::record;
use crate::usn::record::RecordModel;
use vstd::prelude::*;

verus! {

proof fn lemma_when(s: Applied, cond: bool, op: OpModel)
    ensures
        model::ops_applied(s, ops::when(cond, op)) == (if cond {
            model::op_applied(s, op)
        } else {
            s
        }),
{
    reveal_with_fuel(model::ops_applied, 3);
    if cond {
        assert(seq![op].drop_last() =~= Seq::<OpModel>::empty());
        assert(seq![op].last() == op);
    }
}

/// After one more record.
pub open spec fn with_record(s: Applied, records: Seq<RecordModel>, r: RecordModel) -> Applied {
    model::records_applied(s, records.push(r))
}

proof fn lemma_with_record(s: Applied, records: Seq<RecordModel>, r: RecordModel)
    ensures
        with_record(s, records, r) == model::ops_applied(
            model::records_applied(s, records),
            ops::steps(r),
        ),
{
    assert(records.push(r).drop_last() =~= records);
    assert(records.push(r).last() == r);
}

/// Size and time of a file are to be read once for each record that creates it
/// or changes its data, times or attributes, in the order of the records, and
/// for no other.
pub proof fn law_changed_files_are_to_be_read(
    s: Applied,
    records: Seq<RecordModel>,
    r: RecordModel,
)
    ensures
        with_record(s, records, r).needs_stat == model::records_applied(s, records).needs_stat + (
        if r.reason & 0x200 == 0 && r.reason & 0x8107 != 0 {
            seq![r.frn]
        } else {
            Seq::empty()
        }),
        model::records_applied(s, Seq::empty()) == s,
{
    let a = model::records_applied(s, records);
    lemma_with_record(s, records, r);
    lemma_steps(a, r);
    let b = with_record(s, records, r);
    assert(b.needs_stat =~= a.needs_stat + (if r.reason & 0x200 == 0 && r.reason & 0x8107 != 0 {
        seq![r.frn]
    } else {
        Seq::empty()
    }));
}

/// The steps of a record, one after the other.
proof fn lemma_steps(a: Applied, r: RecordModel)
    ensures
        ({
            let b = model::ops_applied(a, ops::steps(r));
            let up = model::op_applied(
                a,
                OpModel::Upsert {
                    frn: r.frn,
                    parent: r.parent_frn,
                    name: r.name,
                    name_lossy: r.name_lossy,
                    is_dir: record::directory(r.attributes),
                },
            );
            let named = r.reason & 0x2100 != 0;
            let x = if named {
                up
            } else {
                a
            };
            let y = if r.reason & 0x1000 != 0 && !named {
                model::op_applied(x, OpModel::RenameOldSeen { frn: r.frn })
            } else {
                x
            };
            let z = if r.reason & 0x10000 != 0 {
                model::op_applied(y, OpModel::LinkDirty { frn: r.frn })
            } else {
                y
            };
            &&& r.reason & 0x200 != 0 ==> b == model::op_applied(a, OpModel::Delete { frn: r.frn })
            &&& r.reason & 0x200 == 0 ==> b == (if r.reason & 0x8107 != 0 {
                model::op_applied(z, OpModel::StatDirty { frn: r.frn })
            } else {
                z
            })
        }),
{
    ops::lemma_reasons();
    if r.reason & 0x200 != 0 {
        lemma_when(a, true, OpModel::Delete { frn: r.frn });
    } else {
        let named = ops::names_file(r.reason);
        let op = OpModel::Upsert {
            frn: r.frn,
            parent: r.parent_frn,
            name: r.name,
            name_lossy: r.name_lossy,
            is_dir: record::directory(r.attributes),
        };
        let p = ops::when(named, op);
        let old_name = ops::any_reason(r.reason, record::USN_REASON_RENAME_OLD_NAME) && !named;
        let q = ops::when(old_name, OpModel::RenameOldSeen { frn: r.frn });
        let links = ops::any_reason(r.reason, record::USN_REASON_HARD_LINK_CHANGE);
        let t = ops::when(links, OpModel::LinkDirty { frn: r.frn });
        let stat = ops::touches_stat(r.reason);
        let u = ops::when(stat, OpModel::StatDirty { frn: r.frn });
        assert(ops::steps(r) == p + q + t + u);
        laws::lemma_ops_join(a, p + q + t, u);
        laws::lemma_ops_join(a, p + q, t);
        laws::lemma_ops_join(a, p, q);
        lemma_when(a, named, op);
        let x = model::ops_applied(a, p);
        lemma_when(x, old_name, OpModel::RenameOldSeen { frn: r.frn });
        let y = model::ops_applied(x, q);
        lemma_when(y, links, OpModel::LinkDirty { frn: r.frn });
        let z = model::ops_applied(y, t);
        lemma_when(z, stat, OpModel::StatDirty { frn: r.frn });
    }
}

/// The links of a file are to be read after each record that changes them. A
/// new name of a file that has several links asks for them too; no other record
/// does.
pub proof fn law_changed_links_are_to_be_read(
    s: Applied,
    records: Seq<RecordModel>,
    r: RecordModel,
)
    requires
        model::records_applied(s, records).volume.resolved(r.parent_frn).0.ok(),
    ensures
        ({
            let a = model::records_applied(s, records);
            let b = with_record(s, records, r);
            let before = a.needs_link_reconcile;
            let now = b.needs_link_reconcile;
            let named = r.reason & 0x200 == 0 && r.reason & 0x2100 != 0;
            let links = r.reason & 0x200 == 0 && r.reason & 0x10000 != 0;
            let several = a.volume.resolved(r.parent_frn).0.links(r.frn).len() > 1;
            &&& now == before + (if named && several {
                seq![r.frn]
            } else {
                Seq::empty()
            }) + (if links {
                seq![r.frn]
            } else {
                Seq::empty()
            })
        }),
{
    let a = model::records_applied(s, records);
    let b = with_record(s, records, r);
    lemma_with_record(s, records, r);
    lemma_steps(a, r);
    let (v, p) = a.volume.resolved(r.parent_frn);
    let q = types::record_of(r.frn.0);
    if v.head(r.frn) is Some {
        assert(v.chain_ok(q, v.chains[q]));
    }
    let e = Seq::<types::Frn>::empty();
    let one = seq![r.frn];
    let x = a.needs_link_reconcile;
    assert(x + e + e =~= x);
    assert(x + one + e =~= x.push(r.frn));
    assert(x + e + one =~= x.push(r.frn));
    assert(x + one + one =~= x.push(r.frn).push(r.frn));
}

/// A file that was deleted is noted as unknown exactly if it is not in the
/// index.
pub proof fn law_unknown_deletions_are_noted(
    s: Applied,
    records: Seq<RecordModel>,
    r: RecordModel,
)
    ensures
        ({
            let a = model::records_applied(s, records);
            let b = with_record(s, records, r);
            let gone = r.reason & 0x200 != 0 && a.volume.head(r.frn) is None;
            &&& b.unknown == (if gone {
                a.unknown.push(r.frn)
            } else {
                a.unknown
            })
            &&& gone ==> b.volume.stats.delete_of_unknown == a.volume.stats.delete_of_unknown + 1
            &&& gone ==> b.volume.slots == a.volume.slots && b.volume.chains == a.volume.chains
        }),
{
    lemma_with_record(s, records, r);
    lemma_steps(model::records_applied(s, records), r);
}

/// A record that tells of none of these things changes nothing.
pub proof fn law_other_records_change_nothing(
    s: Applied,
    records: Seq<RecordModel>,
    r: RecordModel,
)
    requires
        r.reason & 0x200 == 0,
        r.reason & 0x2100 == 0,
        r.reason & 0x1000 == 0,
        r.reason & 0x10000 == 0,
        r.reason & 0x8107 == 0,
    ensures
        with_record(s, records, r) == model::records_applied(s, records),
{
    lemma_with_record(s, records, r);
    lemma_steps(model::records_applied(s, records), r);
}

/// The old name of a rename changes nothing but its count.
pub proof fn law_old_names_are_counted(s: Applied, records: Seq<RecordModel>, r: RecordModel)
    requires
        r.reason & 0x200 == 0,
        r.reason & 0x2100 == 0,
        r.reason & 0x1000 != 0,
        r.reason & 0x10000 == 0,
        r.reason & 0x8107 == 0,
    ensures
        ({
            let a = model::records_applied(s, records);
            let b = with_record(s, records, r);
            &&& b.volume.slots == a.volume.slots
            &&& b.volume.chains == a.volume.chains
            &&& b.volume.detached == a.volume.detached
            &&& b.volume.free == a.volume.free
            &&& b.volume.stats.rename_old_seen == a.volume.stats.rename_old_seen + 1
            &&& b.needs_stat == a.needs_stat
            &&& b.needs_link_reconcile == a.needs_link_reconcile
            &&& b.unknown == a.unknown
        }),
{
    lemma_with_record(s, records, r);
    lemma_steps(model::records_applied(s, records), r);
}

} // verus!
