//! Little-endian numbers at an offset into a run of bytes.

use vstd::prelude::*;

use crate::fault::PatchFault;

verus! {

/// The number in the four bytes at `at`, the least significant byte first.
pub open spec fn u32_at(bytes: Seq<u8>, at: int) -> u32 {
    (bytes[at] + 0x100 * bytes[at + 1] + 0x1_0000 * bytes[at + 2] + 0x100_0000
        * bytes[at + 3]) as u32
}

/// The number in the two bytes at `at`, the least significant byte first.
pub open spec fn u16_at(bytes: Seq<u8>, at: int) -> u16 {
    (bytes[at] + 0x100 * bytes[at + 1]) as u16
}

/// The four bytes of `value`, the least significant byte first.
pub open spec fn u32_bytes(value: u32) -> Seq<u8> {
    seq![
        (value as int % 0x100) as u8,
        (value as int / 0x100 % 0x100) as u8,
        (value as int / 0x1_0000 % 0x100) as u8,
        (value as int / 0x100_0000) as u8,
    ]
}

/// The two bytes of `value`, the least significant byte first.
pub open spec fn u16_bytes(value: u16) -> Seq<u8> {
    seq![(value as int % 0x100) as u8, (value as int / 0x100) as u8]
}

/// What reading four bytes at `offset` gives.
pub open spec fn u32_read(bytes: Seq<u8>, offset: int) -> Result<u32, PatchFault> {
    if offset + 4 > usize::MAX {
        Err(PatchFault::U32OffsetOverflow)
    } else if offset + 4 > bytes.len() {
        Err(PatchFault::U32PastEnd { offset: offset as usize })
    } else {
        Ok(u32_at(bytes, offset))
    }
}

/// What reading two bytes at `offset` gives.
pub open spec fn u16_read(bytes: Seq<u8>, offset: int) -> Result<u16, PatchFault> {
    if offset + 2 > usize::MAX {
        Err(PatchFault::U16OffsetOverflow)
    } else if offset + 2 > bytes.len() {
        Err(PatchFault::U16PastEnd { offset: offset as usize })
    } else {
        Ok(u16_at(bytes, offset))
    }
}

/// Reads the number in the four bytes at `offset`.
pub fn read_u32_le(bytes: &[u8], offset: usize) -> (value: Result<u32, PatchFault>)
    ensures
        value == u32_read(bytes@, offset as int),
{
    let end: usize = match offset.checked_add(4) {
        Some(end) => end,
        None => return Err(PatchFault::U32OffsetOverflow),
    };
    if end > bytes.len() {
        return Err(PatchFault::U32PastEnd { offset });
    }
    Ok(
        bytes[offset] as u32 + 0x100 * (bytes[offset + 1] as u32) + 0x1_0000 * (bytes[offset
            + 2] as u32) + 0x100_0000 * (bytes[offset + 3] as u32),
    )
}

/// Reads the number in the four bytes at `*offset` and moves `*offset` behind them.
pub fn read_u32_le_at(bytes: &[u8], offset: &mut usize) -> (value: Result<u32, PatchFault>)
    ensures
        value == u32_read(bytes@, *old(offset) as int),
        *final(offset) == *old(offset) + (if value is Ok { 4int } else { 0 }),
{
    let value: u32 = match read_u32_le(bytes, *offset) {
        Ok(value) => value,
        Err(fault) => return Err(fault),
    };
    *offset += 4;
    Ok(value)
}

/// Reads the number in the two bytes at `*offset` and moves `*offset` behind them.
pub fn read_u16_le_at(bytes: &[u8], offset: &mut usize) -> (value: Result<u16, PatchFault>)
    ensures
        value == u16_read(bytes@, *old(offset) as int),
        *final(offset) == *old(offset) + (if value is Ok { 2int } else { 0 }),
{
    let start: usize = *offset;
    let end: usize = match start.checked_add(2) {
        Some(end) => end,
        None => return Err(PatchFault::U16OffsetOverflow),
    };
    if end > bytes.len() {
        return Err(PatchFault::U16PastEnd { offset: start });
    }
    let value: u16 = bytes[start] as u16 + 0x100 * (bytes[start + 1] as u16);
    *offset = end;
    Ok(value)
}

} // verus!
