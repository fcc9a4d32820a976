//! The layout of a `patch.dat` file.
//!
//! A file is a header of sixteen bytes and a zlib stream. The header holds, at 8 and at 12, the
//! number of bytes after and before decompression; its first eight bytes are not looked at. The
//! decompressed payload is the number of records, then the records one behind the other. A record
//! is the offset of the string that it replaces, the length of its text in bytes, and the text in
//! GBK, which may end in one NUL. All numbers are little-endian; a length has two bytes, the others
//! have four.

use vstd::prelude::*;

use crate::fault::PatchFault;
use crate::gbk::{ascii_text, gbk_decoded, is_ascii_bytes};
use crate::little_endian::{u16_bytes, u16_read, u32_at, u32_bytes, u32_read};

verus! {

/// The number of bytes in front of the compressed payload.
pub const PATCH_DAT_HEADER_LEN: usize = 16;

/// A record as it stands in the payload, its text not decoded.
pub struct RawRecord {
    pub offset: u32,
    pub raw: Seq<u8>,
}

/// `raw` without the NUL at its end, where it has one.
pub open spec fn without_one_nul(raw: Seq<u8>) -> Seq<u8> {
    if raw.len() > 0 && raw.last() == 0 {
        raw.drop_last()
    } else {
        raw
    }
}

/// The text of a record, or `None` where it holds malformed bytes.
pub open spec fn record_text(raw: Seq<u8>) -> Option<Seq<char>> {
    let (text, had_errors) = gbk_decoded(without_one_nul(raw));
    if had_errors {
        None
    } else {
        Some(text)
    }
}

/// The record that starts at `at`, and where it ends.
pub open spec fn record_at(payload: Seq<u8>, at: int, index: int) -> Result<
    (RawRecord, int),
    PatchFault,
> {
    match u32_read(payload, at) {
        Err(fault) => Err(fault),
        Ok(offset) => match u16_read(payload, at + 4) {
            Err(fault) => Err(fault),
            Ok(len) => {
                let start = at + 6;
                if start + len > usize::MAX {
                    Err(PatchFault::RecordLengthOverflow)
                } else if start + len > payload.len() {
                    Err(
                        PatchFault::RecordTruncated {
                            index: index as usize,
                            need: len as usize,
                            at: start as usize,
                            payload: payload.len() as usize,
                        },
                    )
                } else {
                    let end = start + len;
                    Ok((RawRecord { offset, raw: payload.subrange(start, end) }, end))
                }
            },
        },
    }
}

/// What reading the records from number `index` on gives, where that one starts at `at` and the
/// ones in front of it make up `table`.
pub open spec fn records_from(
    payload: Seq<u8>,
    at: int,
    index: int,
    count: int,
    table: Map<u32, Seq<char>>,
) -> Result<Map<u32, Seq<char>>, PatchFault>
    decreases count - index,
{
    if index >= count {
        if at == payload.len() {
            Ok(table)
        } else {
            Err(
                PatchFault::TrailingBytes { parsed: at as usize, payload: payload.len() as usize },
            )
        }
    } else {
        match record_at(payload, at, index) {
            Err(fault) => Err(fault),
            Ok((record, end)) => match record_text(record.raw) {
                None => Err(PatchFault::InvalidGbk { index: index as usize }),
                Some(text) => if table.contains_key(record.offset) {
                    Err(PatchFault::DuplicateOffset { hcb_offset: record.offset })
                } else {
                    records_from(payload, end, index + 1, count, table.insert(record.offset, text))
                },
            },
        }
    }
}

/// The table that a decompressed payload holds, or the first fault in it.
pub open spec fn payload_table(payload: Seq<u8>) -> Result<Map<u32, Seq<char>>, PatchFault> {
    match u32_read(payload, 0) {
        Err(fault) => Err(fault),
        Ok(count) => records_from(payload, 4, 0, count as int, Map::empty()),
    }
}

/// What a header gives: the number of bytes that the payload is to have, or the fault in it.
pub open spec fn header_size(bytes: Seq<u8>) -> Result<usize, PatchFault> {
    let actual = bytes.len() - PATCH_DAT_HEADER_LEN;
    if actual < 0 {
        Err(PatchFault::HeaderTooShort)
    } else if u32_at(bytes, 12) != actual {
        Err(
            PatchFault::CompressedSizeMismatch {
                header: u32_at(bytes, 12) as usize,
                actual: actual as usize,
            },
        )
    } else {
        Ok(u32_at(bytes, 8) as usize)
    }
}

/// The table in a payload that is to have `size` bytes.
pub open spec fn sized_payload_table(size: usize, payload: Seq<u8>) -> Result<
    Map<u32, Seq<char>>,
    PatchFault,
> {
    if payload.len() != size {
        Err(
            PatchFault::UncompressedSizeMismatch { header: size, actual: payload.len() as usize },
        )
    } else {
        payload_table(payload)
    }
}

/// The table in a whole file, where `inflated` is what its compressed part inflates to.
pub open spec fn file_table(bytes: Seq<u8>, inflated: Option<Seq<u8>>) -> Result<
    Map<u32, Seq<char>>,
    PatchFault,
> {
    match header_size(bytes) {
        Err(fault) => Err(fault),
        Ok(size) => match inflated {
            None => Err(PatchFault::Decompression),
            Some(payload) => sized_payload_table(size, payload),
        },
    }
}

/// The compressed part of a file.
pub open spec fn compressed_part(bytes: Seq<u8>) -> Seq<u8> {
    bytes.subrange(PATCH_DAT_HEADER_LEN as int, bytes.len() as int)
}

/// The bytes of one record.
pub open spec fn record_bytes(record: RawRecord) -> Seq<u8> {
    u32_bytes(record.offset) + u16_bytes(record.raw.len() as u16) + record.raw
}

/// The bytes of records one behind the other.
pub open spec fn records_bytes(records: Seq<RawRecord>) -> Seq<u8>
    decreases records.len(),
{
    if records.len() == 0 {
        Seq::empty()
    } else {
        records_bytes(records.drop_last()) + record_bytes(records.last())
    }
}

/// The payload that holds `records`.
pub open spec fn payload_bytes(records: Seq<RawRecord>) -> Seq<u8> {
    u32_bytes(records.len() as u32) + records_bytes(records)
}

/// The file that holds a payload of `payload_len` bytes in its `compressed` form, behind the eight
/// bytes `unused`.
pub open spec fn file_bytes(unused: Seq<u8>, payload_len: u32, compressed: Seq<u8>) -> Seq<u8> {
    unused + u32_bytes(payload_len) + u32_bytes(compressed.len() as u32) + compressed
}

/// Whether the number of `records` and the lengths of their texts fit their fields.
pub open spec fn fits(records: Seq<RawRecord>) -> bool {
    &&& records.len() <= u32::MAX
    &&& forall|i: int| 0 <= i < records.len() ==> (#[trigger] records[i]).raw.len() <= u16::MAX
}

/// Whether no two of `records` are for the same string.
pub open spec fn has_distinct_offsets(records: Seq<RawRecord>) -> bool {
    forall|i: int, j: int|
        0 <= i < j < records.len() ==> (#[trigger] records[i]).offset != (
        #[trigger] records[j]).offset
}

/// Whether the texts of all `records` decode.
pub open spec fn all_decode(records: Seq<RawRecord>) -> bool {
    forall|i: int| 0 <= i < records.len() ==> record_text((#[trigger] records[i]).raw) is Some
}

/// Whether `records` can stand in one payload.
pub open spec fn is_writable(records: Seq<RawRecord>) -> bool {
    fits(records) && has_distinct_offsets(records) && all_decode(records)
}

/// Each record's text under its offset.
pub open spec fn records_table(records: Seq<RawRecord>) -> Map<u32, Seq<char>>
    decreases records.len(),
{
    if records.len() == 0 {
        Map::empty()
    } else {
        records_table(records.drop_last()).insert(
            records.last().offset,
            record_text(records.last().raw)->0,
        )
    }
}

/// Whether `payload` holds exactly `records`, which are for different strings and whose texts are
/// all ASCII, but for a NUL at the end.
pub open spec fn is_plain_payload(payload: Seq<u8>, records: Seq<RawRecord>) -> bool {
    &&& fits(records)
    &&& has_distinct_offsets(records)
    &&& forall|i: int| 0 <= i < records.len() ==> is_ascii_bytes((#[trigger] records[i]).raw)
    &&& payload == payload_bytes(records)
}

/// Each record's text under its offset, character for byte.
pub open spec fn plain_table(records: Seq<RawRecord>) -> Map<u32, Seq<char>>
    decreases records.len(),
{
    if records.len() == 0 {
        Map::empty()
    } else {
        plain_table(records.drop_last()).insert(
            records.last().offset,
            ascii_text(without_one_nul(records.last().raw)),
        )
    }
}

} // verus!
