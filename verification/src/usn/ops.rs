//! What a journal record asks of the index.

use crate::types::Frn;
use crate::usn::record;
use crate::usn::record::ParsedUsnRecord;
use smallvec::SmallVec;
use vstd::prelude::*;

verus! {

/// One step for the index.
#[derive(Clone, Debug, PartialEq, Eq)]
pub enum UsnOp {
    /// The file has this name in this directory.
    Upsert { frn: Frn, parent: Frn, name: Vec<u8>, name_lossy: bool, is_dir: bool },
    /// The file is gone.
    Delete { frn: Frn },
    /// The set of names of the file changed in a way that must be looked up.
    LinkDirty { frn: Frn },
    /// Size or time of the file may have changed.
    StatDirty { frn: Frn },
    /// The old name of a rename whose new name follows.
    RenameOldSeen { frn: Frn },
}

/// What a step says.
#[verifier::ext_equal]
pub ghost enum OpModel {
    Upsert { frn: Frn, parent: Frn, name: Seq<u8>, name_lossy: bool, is_dir: bool },
    Delete { frn: Frn },
    LinkDirty { frn: Frn },
    StatDirty { frn: Frn },
    RenameOldSeen { frn: Frn },
}

impl UsnOp {
    pub open spec fn model(&self) -> OpModel {
        match self {
            UsnOp::Upsert { frn, parent, name, name_lossy, is_dir } => OpModel::Upsert {
                frn: *frn,
                parent: *parent,
                name: name@,
                name_lossy: *name_lossy,
                is_dir: *is_dir,
            },
            UsnOp::Delete { frn } => OpModel::Delete { frn: *frn },
            UsnOp::LinkDirty { frn } => OpModel::LinkDirty { frn: *frn },
            UsnOp::StatDirty { frn } => OpModel::StatDirty { frn: *frn },
            UsnOp::RenameOldSeen { frn } => OpModel::RenameOldSeen { frn: *frn },
        }
    }
}

pub open spec fn op_models(ops: Seq<UsnOp>) -> Seq<OpModel> {
    ops.map_values(|op: UsnOp| op.model())
}

/// The steps of one record in a `smallvec::SmallVec`; nearly always there are
/// no more than two.
#[verifier::external_body]
pub struct OpList {
    items: SmallVec<[UsnOp; 2]>,
}

/// The steps of a list, in order.
pub uninterp spec fn ops_of(list: OpList) -> Seq<UsnOp>;

/// `SmallVec::new`: an empty list.
#[verifier::external_body]
fn new_ops() -> (list: OpList)
    ensures
        ops_of(list) == Seq::<UsnOp>::empty(),
{
    OpList { items: SmallVec::new() }
}

/// `SmallVec::push`: the step goes behind the others.
#[verifier::external_body]
fn push_op(list: &mut OpList, op: UsnOp)
    ensures
        ops_of(*final(list)) == ops_of(*old(list)).push(op),
{
    list.items.push(op)
}

/// `SmallVec::as_slice`: the steps, in order.
#[verifier::external_body]
fn op_slice(list: &OpList) -> (s: &[UsnOp])
    ensures
        s@ == ops_of(*list),
{
    list.items.as_slice()
}

impl OpList {
    /// The steps, in order.
    pub fn as_slice(&self) -> (s: &[UsnOp])
        ensures
            s@ == ops_of(*self),
    {
        op_slice(self)
    }
}

/// One of the reasons in `mask` is given.
pub open spec fn any_reason(reason: u32, mask: u32) -> bool {
    reason & mask != 0
}

/// A new name: creation or the second half of a rename.
pub open spec fn names_file(reason: u32) -> bool {
    any_reason(reason, record::USN_REASON_RENAME_NEW_NAME | record::USN_REASON_FILE_CREATE)
}

/// Creation, a change of the data, or a change of times and attributes.
pub open spec fn touches_stat(reason: u32) -> bool {
    any_reason(
        reason,
        record::USN_REASON_FILE_CREATE | record::USN_REASON_DATA_OVERWRITE
            | record::USN_REASON_DATA_EXTEND | record::USN_REASON_DATA_TRUNCATION
            | record::USN_REASON_BASIC_INFO_CHANGE,
    )
}

pub open spec fn when(cond: bool, op: OpModel) -> Seq<OpModel> {
    if cond {
        seq![op]
    } else {
        seq![]
    }
}

/// The steps that a record asks for. A deletion wins over everything else.
pub open spec fn steps(rec: record::RecordModel) -> Seq<OpModel> {
    let frn = rec.frn;
    let reason = rec.reason;
    if any_reason(reason, record::USN_REASON_FILE_DELETE) {
        seq![OpModel::Delete { frn }]
    } else {
        when(
            names_file(reason),
            OpModel::Upsert {
                frn,
                parent: rec.parent_frn,
                name: rec.name,
                name_lossy: rec.name_lossy,
                is_dir: record::directory(rec.attributes),
            },
        ) + when(
            any_reason(reason, record::USN_REASON_RENAME_OLD_NAME) && !names_file(reason),
            OpModel::RenameOldSeen { frn },
        ) + when(
            any_reason(reason, record::USN_REASON_HARD_LINK_CHANGE),
            OpModel::LinkDirty { frn },
        ) + when(touches_stat(reason), OpModel::StatDirty { frn })
    }
}

fn add_op(list: &mut OpList, op: UsnOp)
    ensures
        op_models(ops_of(*final(list))) == op_models(ops_of(*old(list))) + seq![op.model()],
{
    push_op(list, op);
    assert(op_models(ops_of(*list)) =~= op_models(ops_of(*old(list))) + seq![op.model()]);
}

/// The steps that a record asks for.
pub fn ops_for(rec: &ParsedUsnRecord) -> (ops: OpList)
    ensures
        op_models(ops_of(ops)) == steps(rec.model()),
{
    let mut ops = new_ops();
    let reason = rec.reason;
    let ghost none = Seq::<OpModel>::empty();
    assert(op_models(ops_of(ops)) =~= none);
    if reason & record::USN_REASON_FILE_DELETE != 0 {
        add_op(&mut ops, UsnOp::Delete { frn: rec.frn });
        assert(op_models(ops_of(ops)) =~= steps(rec.model()));
        return ops;
    }
    let named = reason & (record::USN_REASON_RENAME_NEW_NAME | record::USN_REASON_FILE_CREATE) != 0;
    if named {
        let name = rec.name.clone();
        assert(name@ =~= rec.name@);
        add_op(
            &mut ops,
            UsnOp::Upsert {
                frn: rec.frn,
                parent: rec.parent_frn,
                name,
                name_lossy: rec.name_lossy,
                is_dir: rec.is_dir(),
            },
        );
    }
    if reason & record::USN_REASON_RENAME_OLD_NAME != 0 && !named {
        add_op(&mut ops, UsnOp::RenameOldSeen { frn: rec.frn });
    }
    if reason & record::USN_REASON_HARD_LINK_CHANGE != 0 {
        add_op(&mut ops, UsnOp::LinkDirty { frn: rec.frn });
    }
    if reason & (record::USN_REASON_FILE_CREATE | record::USN_REASON_DATA_OVERWRITE
        | record::USN_REASON_DATA_EXTEND | record::USN_REASON_DATA_TRUNCATION
        | record::USN_REASON_BASIC_INFO_CHANGE) != 0 {
        add_op(&mut ops, UsnOp::StatDirty { frn: rec.frn });
    }
    assert(op_models(ops_of(ops)) =~= steps(rec.model()));
    ops
}

/// A record that reports a deletion asks for that alone, whatever else it
/// reports.
pub proof fn law_delete_wins(rec: record::RecordModel)
    requires
        any_reason(rec.reason, record::USN_REASON_FILE_DELETE),
    ensures
        steps(rec) == seq![OpModel::Delete { frn: rec.frn }],
{
}

/// A creation gives the file its name and asks for its size and time.
pub proof fn law_create_names_and_stats(rec: record::RecordModel)
    requires
        any_reason(rec.reason, record::USN_REASON_FILE_CREATE),
        !any_reason(rec.reason, record::USN_REASON_FILE_DELETE),
    ensures
        steps(rec).first() == (OpModel::Upsert {
            frn: rec.frn,
            parent: rec.parent_frn,
            name: rec.name,
            name_lossy: rec.name_lossy,
            is_dir: record::directory(rec.attributes),
        }),
        steps(rec).last() == (OpModel::StatDirty { frn: rec.frn }),
{
    let r = rec.reason;
    assert(r & 0x100u32 != 0 ==> r & (0x2000u32 | 0x100u32) != 0 && r & (0x100u32 | 1u32 | 2u32
        | 4u32 | 0x8000u32) != 0) by (bit_vector);
}

pub proof fn lemma_reasons()
    ensures
        record::USN_REASON_FILE_DELETE == 0x200,
        record::USN_REASON_RENAME_NEW_NAME | record::USN_REASON_FILE_CREATE == 0x2100,
        record::USN_REASON_RENAME_OLD_NAME == 0x1000,
        record::USN_REASON_HARD_LINK_CHANGE == 0x10000,
        record::USN_REASON_FILE_CREATE | record::USN_REASON_DATA_OVERWRITE
            | record::USN_REASON_DATA_EXTEND | record::USN_REASON_DATA_TRUNCATION
            | record::USN_REASON_BASIC_INFO_CHANGE == 0x8107,
{
    assert(0x2000u32 | 0x100u32 == 0x2100u32 && 0x100u32 | 0x1u32 | 0x2u32 | 0x4u32 | 0x8000u32
        == 0x8107u32) by (bit_vector);
}

/// A record that reports no deletion asks for each step at most once, and only
/// with a reason for it: a name with a creation or a new name, its links with a
/// change of links, its size and time with a creation or with a change of data,
/// times or attributes, and the old name of a rename is noted unless the new
/// one comes with it. The name comes first, and size and time last.
pub proof fn law_each_reason_has_its_step(rec: record::RecordModel)
    requires
        rec.reason & 0x200 == 0,
    ensures
        ({
            let all = steps(rec);
            let named = rec.reason & 0x2100 != 0;
            let old_name = rec.reason & 0x1000 != 0 && !named;
            let links = rec.reason & 0x10000 != 0;
            let stat = rec.reason & 0x8107 != 0;
            let upsert = OpModel::Upsert {
                frn: rec.frn,
                parent: rec.parent_frn,
                name: rec.name,
                name_lossy: rec.name_lossy,
                is_dir: rec.attributes & 0x10 != 0,
            };
            let n = (if named || old_name {
                1int
            } else {
                0
            }) + (if links {
                1int
            } else {
                0
            });
            &&& all.len() == n + (if stat {
                1int
            } else {
                0
            })
            &&& named ==> all[0] == upsert
            &&& old_name ==> all[0] == (OpModel::RenameOldSeen { frn: rec.frn })
            &&& links ==> all[n - 1] == (OpModel::LinkDirty { frn: rec.frn })
            &&& stat ==> all[n] == (OpModel::StatDirty { frn: rec.frn })
        }),
{
    lemma_reasons();
}

/// Every step names the file that the record is about.
pub proof fn law_steps_name_the_file(rec: record::RecordModel, k: int)
    requires
        0 <= k < steps(rec).len(),
    ensures
        match steps(rec)[k] {
            OpModel::Upsert { frn, .. } => frn == rec.frn,
            OpModel::Delete { frn } => frn == rec.frn,
            OpModel::LinkDirty { frn } => frn == rec.frn,
            OpModel::StatDirty { frn } => frn == rec.frn,
            OpModel::RenameOldSeen { frn } => frn == rec.frn,
        },
{
}

/// A step says what its fields say.
pub proof fn law_steps_are_modelled_whole(op: UsnOp)
    ensures
        match op {
            UsnOp::Upsert { frn, parent, name, name_lossy, is_dir } => op.model()
                == (OpModel::Upsert { frn, parent, name: name@, name_lossy, is_dir }),
            UsnOp::Delete { frn } => op.model() == (OpModel::Delete { frn }),
            UsnOp::LinkDirty { frn } => op.model() == (OpModel::LinkDirty { frn }),
            UsnOp::StatDirty { frn } => op.model() == (OpModel::StatDirty { frn }),
            UsnOp::RenameOldSeen { frn } => op.model() == (OpModel::RenameOldSeen { frn }),
        },
{
}

} // verus!
