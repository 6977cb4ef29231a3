//! Control codes, and the buffers that go into them.

use crate::le;
use vstd::prelude::*;

verus! {

pub const FILE_DEVICE_FILE_SYSTEM: u32 = 0x9;

pub const METHOD_BUFFERED: u32 = 0;

pub const METHOD_NEITHER: u32 = 3;

pub const FILE_ANY_ACCESS: u32 = 0;

pub const FSCTL_ENUM_USN_DATA: u32 = 0x0009_00B3;

pub const FSCTL_QUERY_USN_JOURNAL: u32 = 0x0009_00F4;

pub const FSCTL_CREATE_USN_JOURNAL: u32 = 0x0009_00E4;

pub const FSCTL_READ_USN_JOURNAL: u32 = 0x0009_00BB;

pub const FSCTL_QUERY_FILE_LAYOUT: u32 = 0x0009_0277;

/// Start a query of the file layout anew.
pub const QUERY_FILE_LAYOUT_RESTART: u32 = 0x0000_0001;

/// All files are asked for.
pub const FILTER_TYPE_NONE: u32 = 0;

/// The bits of a control code.
pub open spec fn code(device: u32, function: u32, method: u32, access: u32) -> u32 {
    (device << 16) | (access << 14) | (function << 2) | method
}

/// The control code of a function of a device.
pub fn ctl_code(device: u32, function: u32, method: u32, access: u32) -> (r: u32)
    ensures
        r == code(device, function, method, access),
{
    (device << 16) | (access << 14) | (function << 2) | method
}

/// The control codes are those of functions of the file system device.
pub proof fn law_control_codes()
    ensures
        FSCTL_ENUM_USN_DATA == code(
            FILE_DEVICE_FILE_SYSTEM,
            44,
            METHOD_NEITHER,
            FILE_ANY_ACCESS,
        ),
        FSCTL_QUERY_USN_JOURNAL == code(
            FILE_DEVICE_FILE_SYSTEM,
            61,
            METHOD_BUFFERED,
            FILE_ANY_ACCESS,
        ),
        FSCTL_CREATE_USN_JOURNAL == code(
            FILE_DEVICE_FILE_SYSTEM,
            57,
            METHOD_BUFFERED,
            FILE_ANY_ACCESS,
        ),
        FSCTL_READ_USN_JOURNAL == code(
            FILE_DEVICE_FILE_SYSTEM,
            46,
            METHOD_NEITHER,
            FILE_ANY_ACCESS,
        ),
        FSCTL_QUERY_FILE_LAYOUT == code(
            FILE_DEVICE_FILE_SYSTEM,
            157,
            METHOD_NEITHER,
            FILE_ANY_ACCESS,
        ),
{
    assert((9u32 << 16u32) | (0u32 << 14u32) | (44u32 << 2u32) | 3u32 == 0x0009_00B3u32)
        by (bit_vector);
    assert((9u32 << 16u32) | (0u32 << 14u32) | (61u32 << 2u32) | 0u32 == 0x0009_00F4u32)
        by (bit_vector);
    assert((9u32 << 16u32) | (0u32 << 14u32) | (57u32 << 2u32) | 0u32 == 0x0009_00E4u32)
        by (bit_vector);
    assert((9u32 << 16u32) | (0u32 << 14u32) | (46u32 << 2u32) | 3u32 == 0x0009_00BBu32)
        by (bit_vector);
    assert((9u32 << 16u32) | (0u32 << 14u32) | (157u32 << 2u32) | 3u32 == 0x0009_0277u32)
        by (bit_vector);
}

/// The bytes of a 64-bit number.
pub open spec fn u64_bytes(v: int) -> Seq<u8> {
    le::le_bytes(v as nat, 8)
}

/// The bytes of a 32-bit number.
pub open spec fn u32_bytes(v: int) -> Seq<u8> {
    le::le_bytes(v as nat, 4)
}

/// The input of an enumeration of file records from a file reference number
/// on: that number, and the range of all update sequence numbers.
pub fn enum_input(start_file_reference_number: u64) -> (b: Vec<u8>)
    ensures
        b@ == u64_bytes(start_file_reference_number as int) + u64_bytes(0) + u64_bytes(
            i64::MAX as int,
        ),
{
    let mut b: Vec<u8> = Vec::new();
    le::push_le(&mut b, start_file_reference_number, 8);
    le::push_le(&mut b, 0, 8);
    le::push_le(&mut b, i64::MAX as u64, 8);
    assert(b@ =~= u64_bytes(start_file_reference_number as int) + u64_bytes(0) + u64_bytes(
        i64::MAX as int,
    ));
    b
}

/// The input of a read of the journal from an update sequence number on. The
/// read waits for `bytes_to_wait_for` bytes, without a time limit.
pub fn read_input(
    start_usn: i64,
    journal_id: u64,
    reason_mask: u32,
    bytes_to_wait_for: u64,
) -> (b: Vec<u8>)
    ensures
        b@ == u64_bytes(le::unsigned(start_usn as int) as int) + u32_bytes(reason_mask as int)
            + u32_bytes(0) + u64_bytes(0) + u64_bytes(bytes_to_wait_for as int) + u64_bytes(
            journal_id as int,
        ),
{
    let mut b: Vec<u8> = Vec::new();
    le::push_le(&mut b, le::bits_of(start_usn), 8);
    le::push_le(&mut b, reason_mask as u64, 4);
    le::push_le(&mut b, 0, 4);
    le::push_le(&mut b, 0, 8);
    le::push_le(&mut b, bytes_to_wait_for, 8);
    le::push_le(&mut b, journal_id, 8);
    assert(b@ =~= u64_bytes(le::unsigned(start_usn as int) as int) + u32_bytes(reason_mask as int)
        + u32_bytes(0) + u64_bytes(0) + u64_bytes(bytes_to_wait_for as int) + u64_bytes(
        journal_id as int,
    ));
    b
}

/// The input of the creation of a journal.
pub fn create_input(maximum_size: u64, allocation_delta: u64) -> (b: Vec<u8>)
    ensures
        b@ == u64_bytes(maximum_size as int) + u64_bytes(allocation_delta as int),
{
    let mut b: Vec<u8> = Vec::new();
    le::push_le(&mut b, maximum_size, 8);
    le::push_le(&mut b, allocation_delta, 8);
    assert(b@ =~= u64_bytes(maximum_size as int) + u64_bytes(allocation_delta as int));
    b
}

/// The flags of a query of the file layout.
pub open spec fn layout_flags(flags: u32, restart: bool) -> u32 {
    if restart {
        flags | QUERY_FILE_LAYOUT_RESTART
    } else {
        flags
    }
}

/// The input of a query of the file layout.
pub fn layout_input(
    flags: u32,
    restart: bool,
    filter_type: u32,
    filter_entry_count: u32,
    first: u64,
    last: u64,
) -> (b: Vec<u8>)
    ensures
        b@ == u32_bytes(filter_entry_count as int) + u32_bytes(layout_flags(flags, restart) as int)
            + u32_bytes(filter_type as int) + u32_bytes(0) + u64_bytes(first as int) + u64_bytes(
            last as int,
        ),
{
    let all = if restart {
        flags | QUERY_FILE_LAYOUT_RESTART
    } else {
        flags
    };
    let mut b: Vec<u8> = Vec::new();
    le::push_le(&mut b, filter_entry_count as u64, 4);
    le::push_le(&mut b, all as u64, 4);
    le::push_le(&mut b, filter_type as u64, 4);
    le::push_le(&mut b, 0, 4);
    le::push_le(&mut b, first, 8);
    le::push_le(&mut b, last, 8);
    assert(b@ =~= u32_bytes(filter_entry_count as int) + u32_bytes(
        layout_flags(flags, restart) as int,
    ) + u32_bytes(filter_type as int) + u32_bytes(0) + u64_bytes(first as int) + u64_bytes(
        last as int,
    ));
    b
}

/// The input of a query of the layout of all files.
pub fn all_files_input(flags: u32, restart: bool) -> (b: Vec<u8>)
    ensures
        b@ == u32_bytes(0) + u32_bytes(layout_flags(flags, restart) as int) + u32_bytes(
            FILTER_TYPE_NONE as int,
        ) + u32_bytes(0) + u64_bytes(0) + u64_bytes(0),
{
    layout_input(flags, restart, FILTER_TYPE_NONE, 0, 0, 0)
}

/// A query of the file layout that starts anew has the lowest bit of the flags
/// set, whatever it was, and all other bits as they were; one that goes on has
/// the flags as they are.
pub proof fn law_a_restart_sets_one_bit(flags: u32)
    ensures
        layout_flags(flags, true) & 1 == 1,
        layout_flags(flags, true) & !1u32 == flags & !1u32,
        layout_flags(flags, false) == flags,
{
    assert((flags | 1) & 1 == 1 && (flags | 1) & !1u32 == flags & !1u32) by (bit_vector);
}

} // verus!
