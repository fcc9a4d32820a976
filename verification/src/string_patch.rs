//! The table of replaced strings, and reading it from a `patch.dat` file.

use std::collections::HashMap;
use vstd::prelude::*;

use crate::fault::{PatchError, PatchFault};
use crate::format::{
    compressed_part, file_table, header_size, is_plain_payload, payload_table, plain_table,
    record_at, record_text, records_from, sized_payload_table, without_one_nul, RawRecord,
    PATCH_DAT_HEADER_LEN,
};
use crate::framing::{lemma_payload_ends, lemma_record_in_payload, start_of};
use crate::gbk::{ascii_text, decode_gbk, gbk_decoded, is_ascii_bytes};
use crate::little_endian::{read_u16_le_at, read_u32_le, read_u32_le_at, u32_at};
use crate::zlib::{inflate_zlib, zlib_inflated};

verus! {

broadcast use vstd::std_specs::hash::group_hash_axioms;

/// Replacement strings, each under the offset of the string that it replaces.
#[derive(Debug)]
pub struct StringPatchTable {
    entries: HashMap<u32, String>,
}

/// The texts of `entries`.
spec fn texts(entries: Map<u32, String>) -> Map<u32, Seq<char>> {
    entries.map_values(|text: String| text@)
}

/// Whether decompressing `compressed` can return the error `cause`.
pub closed spec fn is_inflate_error(compressed: Seq<u8>, cause: std::io::Error) -> bool {
    exists|bytes: &[u8]|
        bytes@ == compressed && #[trigger] call_ensures(inflate_zlib, (bytes,), Err(cause))
}

/// Only bytes that do not inflate have an error of the decompression.
pub proof fn law_inflate_error_is_of_unsound_bytes(compressed: Seq<u8>, cause: std::io::Error)
    requires
        is_inflate_error(compressed, cause),
    ensures
        zlib_inflated(compressed) is None,
{
}

/// An error of the decompression is one that decompressing these very bytes can return.
pub(crate) proof fn law_inflate_error_is_of_these_bytes(
    compressed: Seq<u8>,
    cause: std::io::Error,
)
    requires
        is_inflate_error(compressed, cause),
    ensures
        exists|bytes: &[u8]|
            bytes@ == compressed && #[trigger] call_ensures(inflate_zlib, (bytes,), Err(cause)),
{
}

impl View for StringPatchTable {
    type V = Map<u32, Seq<char>>;

    closed spec fn view(&self) -> Map<u32, Seq<char>> {
        texts(self.entries@)
    }
}

impl Default for StringPatchTable {
    /// A table without entries.
    fn default() -> (table: Self)
        ensures
            table@ == Map::<u32, Seq<char>>::empty(),
    {
        let table = StringPatchTable { entries: HashMap::new() };
        assert(table@ =~= Map::<u32, Seq<char>>::empty());
        table
    }
}

impl Clone for StringPatchTable {
    fn clone(&self) -> (table: Self)
        ensures
            table@ == self@,
    {
        StringPatchTable { entries: self.entries.clone() }
    }
}

impl StringPatchTable {
    /// The replacement for the string at `offset`.
    pub fn get(&self, offset: u32) -> (text: Option<&str>)
        ensures
            text is Some <==> self@.contains_key(offset),
            text matches Some(found) ==> found@ == self@[offset],
    {
        match self.entries.get(&offset) {
            Some(text) => Some(text.as_str()),
            None => None,
        }
    }

    /// The number of replacements.
    pub fn len(&self) -> (len: usize)
        ensures
            self@.dom().finite(),
            len == self@.len(),
    {
        assert(self@.dom() =~= self.entries@.dom());
        self.entries.len()
    }

    /// Whether there is no replacement.
    pub fn is_empty(&self) -> (empty: bool)
        ensures
            self@.dom().finite(),
            empty == (self@.len() == 0),
            empty == (self@ == Map::<u32, Seq<char>>::empty()),
    {
        assert(self@.dom() =~= self.entries@.dom());
        proof {
            if self@.len() == 0 {
                assert(self@ =~= Map::<u32, Seq<char>>::empty());
            }
        }
        self.entries.is_empty()
    }

    /// Puts the text of record number `index` under `offset`, where `had_errors` says that it was
    /// malformed. A record that is for an already replaced string takes the place of the earlier
    /// one, and is reported.
    pub fn add_decoded(
        &mut self,
        index: usize,
        offset: u32,
        text: String,
        had_errors: bool,
    ) -> (added: Result<(), PatchFault>)
        ensures
            added == (if had_errors {
                Err(PatchFault::InvalidGbk { index })
            } else if old(self)@.contains_key(offset) {
                Err(PatchFault::DuplicateOffset { hcb_offset: offset })
            } else {
                Ok(())
            }),
            final(self)@ == (if had_errors {
                old(self)@
            } else {
                old(self)@.insert(offset, text@)
            }),
    {
        if had_errors {
            return Err(PatchFault::InvalidGbk { index });
        }
        let replaced = self.entries.insert(offset, text);
        assert(self@ =~= old(self)@.insert(offset, text@));
        if replaced.is_some() {
            return Err(PatchFault::DuplicateOffset { hcb_offset: offset });
        }
        Ok(())
    }

    /// Reads a table from a decompressed payload.
    pub fn from_payload(payload: &[u8]) -> (table: Result<Self, PatchFault>)
        ensures
            match table {
                Ok(found) => payload_table(payload@) == Ok::<_, PatchFault>(found@),
                Err(fault) => payload_table(payload@) == Err::<Map<u32, Seq<char>>, _>(fault),
            },
            forall|records: Seq<RawRecord>| #[trigger]
                is_plain_payload(payload@, records) ==> (table matches Ok(found) && found@
                    == plain_table(records)),
    {
        let len: usize = payload.len();
        let mut off: usize = 0;
        let count: usize = match read_u32_le_at(payload, &mut off) {
            Ok(count) => count as usize,
            Err(fault) => {
                assert forall|records: Seq<RawRecord>| #[trigger]
                    is_plain_payload(payload@, records) implies false by {
                    lemma_payload_ends(records);
                }
                return Err(fault);
            },
        };
        let mut table = StringPatchTable::default();
        assert forall|records: Seq<RawRecord>| #[trigger]
            is_plain_payload(payload@, records) implies is_read(table@, off as int, 0, records)
            && count == records.len() by {
            lemma_payload_ends(records);
        }
        let mut index: usize = 0;
        while index < count
            invariant
                index <= count,
                len == payload@.len(),
                payload_table(payload@) == records_from(
                    payload@,
                    off as int,
                    index as int,
                    count as int,
                    table@,
                ),
                forall|records: Seq<RawRecord>| #[trigger]
                    is_plain_payload(payload@, records) ==> is_read(
                        table@,
                        off as int,
                        index as int,
                        records,
                    ) && count == records.len(),
            decreases count - index,
        {
            let (hcb_string_offset, raw, end): (u32, &[u8], usize) = match read_record(
                payload,
                off,
                index,
            ) {
                Ok(record) => record,
                Err(fault) => {
                    assert forall|records: Seq<RawRecord>| #[trigger]
                        is_plain_payload(payload@, records) implies false by {
                        lemma_record_in_payload(records, index as int);
                    }
                    return Err(fault);
                },
            };
            let (text, had_errors): (String, bool) = decode_text(raw);
            let ghost before = table@;
            let added = table.add_decoded(index, hcb_string_offset, text, had_errors);
            assert forall|records: Seq<RawRecord>| #[trigger]
                is_plain_payload(payload@, records) implies added is Ok && is_read(
                table@,
                end as int,
                index + 1,
                records,
            ) && count == records.len() by {
                lemma_plain_step(payload@, records, before, index as int);
            }
            match added {
                Ok(_) => {},
                Err(fault) => return Err(fault),
            }
            off = end;
            index += 1;
        }
        if off != len {
            assert forall|records: Seq<RawRecord>| #[trigger]
                is_plain_payload(payload@, records) implies false by {
                lemma_payload_ends(records);
            }
            return Err(PatchFault::TrailingBytes { parsed: off, payload: len });
        }
        assert forall|records: Seq<RawRecord>| #[trigger]
            is_plain_payload(payload@, records) implies table@ == plain_table(records) by {
            assert(records.take(count as int) =~= records);
        }
        Ok(table)
    }

    /// Reads a table from a decompressed payload that is to have `size` bytes.
    pub fn from_sized_payload(size: usize, payload: &[u8]) -> (table: Result<Self, PatchFault>)
        ensures
            match table {
                Ok(found) => sized_payload_table(size, payload@) == Ok::<_, PatchFault>(found@),
                Err(fault) => sized_payload_table(size, payload@) == Err::<
                    Map<u32, Seq<char>>,
                    _,
                >(fault),
            },
            forall|records: Seq<RawRecord>|
                size == payload@.len() && #[trigger] is_plain_payload(payload@, records) ==> (
                table matches Ok(found) && found@ == plain_table(records)),
    {
        let actual: usize = payload.len();
        if actual != size {
            return Err(PatchFault::UncompressedSizeMismatch { header: size, actual });
        }
        Self::from_payload(payload)
    }

    /// Reads a table from what came of decompressing a payload that is to have `size` bytes. The
    /// error of a failed decompression is handed on as the cause.
    pub fn from_inflated(size: usize, inflated: Result<Vec<u8>, std::io::Error>) -> (table: Result<
        Self,
        PatchError,
    >)
        ensures
            match inflated {
                Err(cause) => table == Err::<Self, _>(
                    PatchError { fault: PatchFault::Decompression, cause: Some(cause) },
                ),
                Ok(payload) => match table {
                    Ok(found) => sized_payload_table(size, payload@) == Ok::<_, PatchFault>(found@),
                    Err(error) => {
                        &&& sized_payload_table(size, payload@) == Err::<Map<u32, Seq<char>>, _>(
                            error.fault,
                        )
                        &&& error.cause is None
                        &&& !(error.fault is Decompression)
                    },
                },
            },
            inflated matches Ok(payload) ==> forall|records: Seq<RawRecord>|
                size == payload@.len() && #[trigger] is_plain_payload(payload@, records) ==> (
                table matches Ok(found) && found@ == plain_table(records)),
    {
        let payload = match inflated {
            Ok(payload) => payload,
            Err(cause) => return Err(
                PatchError { fault: PatchFault::Decompression, cause: Some(cause) },
            ),
        };
        match Self::from_sized_payload(size, payload.as_slice()) {
            Ok(table) => Ok(table),
            Err(fault) => {
                proof {
                    lemma_records_are_decompressed(
                        payload@,
                        4,
                        0,
                        u32_at(payload@, 0) as int,
                        Map::empty(),
                    );
                }
                Err(PatchError { fault, cause: None })
            },
        }
    }

    /// Reads a table from the bytes of a `patch.dat` file. The cause of a failed decompression is
    /// the error that decompressing this file's own compressed part returned.
    pub fn from_bytes(bytes: &[u8]) -> (table: Result<Self, PatchError>)
        ensures
            match table {
                Ok(found) => file_table(bytes@, zlib_inflated(compressed_part(bytes@))) == Ok::<
                    _,
                    PatchFault,
                >(found@),
                Err(error) => {
                    &&& file_table(bytes@, zlib_inflated(compressed_part(bytes@))) == Err::<
                        Map<u32, Seq<char>>,
                        _,
                    >(error.fault)
                    &&& error.cause is Some <==> error.fault is Decompression
                    &&& error.cause matches Some(cause) ==> is_inflate_error(
                        compressed_part(bytes@),
                        cause,
                    )
                },
            },
            forall|payload: Seq<u8>, records: Seq<RawRecord>|
                zlib_inflated(compressed_part(bytes@)) == Some(payload) && (header_size(
                    bytes@,
                ) matches Ok(size) && size == payload.len()) && #[trigger] is_plain_payload(
                    payload,
                    records,
                ) ==> (table matches Ok(found) && found@ == plain_table(records)),
    {
        let uncompressed_size: usize = match read_header(bytes) {
            Ok(size) => size,
            Err(fault) => return Err(PatchError { fault, cause: None }),
        };
        let compressed = &bytes[PATCH_DAT_HEADER_LEN..bytes.len()];
        let inflated = inflate_zlib(compressed);
        assert(call_ensures(inflate_zlib, (compressed,), inflated));
        Self::from_inflated(uncompressed_size, inflated)
    }

    /// A table of the given pairs of an offset and a text. Where an offset comes twice, the later
    /// text stands.
    pub fn from_pairs_for_test(pairs: &[(u32, &str)]) -> (table: Self)
        ensures
            forall|offset: u32|
                table@.contains_key(offset) <==> exists|i: int|
                    0 <= i < pairs@.len() && (#[trigger] pairs@[i]).0 == offset,
            forall|i: int|
                0 <= i < pairs@.len() && (forall|j: int|
                    i < j < pairs@.len() ==> (#[trigger] pairs@[j]).0 != pairs@[i].0)
                    ==> table@[(#[trigger] pairs@[i]).0] == pairs@[i].1@,
    {
        let mut table = StringPatchTable::default();
        let mut next: usize = 0;
        while next < pairs.len()
            invariant
                next <= pairs@.len(),
                forall|offset: u32|
                    table@.contains_key(offset) <==> exists|i: int|
                        0 <= i < next && (#[trigger] pairs@[i]).0 == offset,
                forall|i: int|
                    0 <= i < next && (forall|j: int|
                        i < j < next ==> (#[trigger] pairs@[j]).0 != pairs@[i].0)
                        ==> table@[(#[trigger] pairs@[i]).0] == pairs@[i].1@,
            decreases pairs@.len() - next,
        {
            let (offset, value): (u32, &str) = pairs[next];
            let ghost before = table@;
            let _ = table.entries.insert(offset, value.to_owned());
            assert(table@ =~= before.insert(offset, value@));
            next += 1;
        }
        table
    }
}

/// Reads the header of a `patch.dat` file: the number of bytes that its payload is to have.
pub fn read_header(bytes: &[u8]) -> (size: Result<usize, PatchFault>)
    ensures
        size == header_size(bytes@),
{
    let len: usize = bytes.len();
    if len < PATCH_DAT_HEADER_LEN {
        return Err(PatchFault::HeaderTooShort);
    }
    let uncompressed_size: usize = match read_u32_le(bytes, 8) {
        Ok(value) => value as usize,
        Err(fault) => return Err(fault),
    };
    let compressed_size: usize = match read_u32_le(bytes, 12) {
        Ok(value) => value as usize,
        Err(fault) => return Err(fault),
    };
    let payload_size: usize = len - PATCH_DAT_HEADER_LEN;
    if compressed_size != payload_size {
        return Err(
            PatchFault::CompressedSizeMismatch { header: compressed_size, actual: payload_size },
        );
    }
    Ok(uncompressed_size)
}

/// No fault of the records is one of the decompression.
proof fn lemma_records_are_decompressed(
    payload: Seq<u8>,
    at: int,
    index: int,
    count: int,
    table: Map<u32, Seq<char>>,
)
    ensures
        records_from(payload, at, index, count, table) matches Err(fault) ==> !(
        fault is Decompression),
    decreases count - index,
{
    if index < count {
        if let Ok((record, end)) = record_at(payload, at, index) {
            if let Some(text) = record_text(record.raw) {
                lemma_records_are_decompressed(
                    payload,
                    end,
                    index + 1,
                    count,
                    table.insert(record.offset, text),
                );
            }
        }
    }
}

/// Whether the first `k` of `records` have been read: they make up `table`, and the next one
/// starts at `at`.
spec fn is_read(table: Map<u32, Seq<char>>, at: int, k: int, records: Seq<RawRecord>) -> bool {
    at == start_of(records, k) && table == plain_table(records.take(k))
}

/// The table of plain records has the offsets of these records and no others.
proof fn lemma_plain_keys(records: Seq<RawRecord>, key: u32)
    requires
        plain_table(records).contains_key(key),
    ensures
        exists|i: int| 0 <= i < records.len() && (#[trigger] records[i]).offset == key,
    decreases records.len(),
{
    if records.last().offset != key {
        lemma_plain_keys(records.drop_last(), key);
        let i = choose|i: int|
            0 <= i < records.drop_last().len() && (#[trigger] records.drop_last()[i]).offset == key;
        assert(records[i].offset == key);
    } else {
        assert(records[records.len() - 1].offset == key);
    }
}

/// One more plain record is read without a fault.
proof fn lemma_plain_step(
    payload: Seq<u8>,
    records: Seq<RawRecord>,
    table: Map<u32, Seq<char>>,
    k: int,
)
    requires
        payload.len() <= usize::MAX,
        is_plain_payload(payload, records),
        0 <= k < records.len(),
        table == plain_table(records.take(k)),
    ensures
        record_at(payload, start_of(records, k), k) == Ok::<_, PatchFault>(
            (records[k], start_of(records, k + 1)),
        ),
        is_ascii_bytes(records[k].raw),
        !table.contains_key(records[k].offset),
        table.insert(records[k].offset, ascii_text(without_one_nul(records[k].raw)))
            == plain_table(records.take(k + 1)),
{
    lemma_record_in_payload(records, k);
    let earlier = records.take(k);
    if table.contains_key(records[k].offset) {
        lemma_plain_keys(earlier, records[k].offset);
        let i = choose|i: int|
            0 <= i < earlier.len() && (#[trigger] earlier[i]).offset == records[k].offset;
        assert(records[i].offset == records[k].offset);
    }
    assert(records.take(k + 1).drop_last() =~= earlier);
    assert(records.take(k + 1).last() == records[k]);
}

/// Reads record number `index`, which starts at `start`: the offset of the string that it is for,
/// the bytes of its text, and where it ends.
pub fn read_record(payload: &[u8], start: usize, index: usize) -> (record: Result<
    (u32, &[u8], usize),
    PatchFault,
>)
    ensures
        match record {
            Ok((hcb_string_offset, raw, end)) => record_at(payload@, start as int, index as int)
                == Ok::<_, PatchFault>(
                (RawRecord { offset: hcb_string_offset, raw: raw@ }, end as int),
            ) && raw@.len() <= u16::MAX,
            Err(fault) => record_at(payload@, start as int, index as int) == Err::<
                (RawRecord, int),
                _,
            >(fault),
        },
{
    let mut off: usize = start;
    let hcb_string_offset: u32 = match read_u32_le_at(payload, &mut off) {
        Ok(value) => value,
        Err(fault) => return Err(fault),
    };
    let byte_len: usize = match read_u16_le_at(payload, &mut off) {
        Ok(value) => value as usize,
        Err(fault) => return Err(fault),
    };
    let end: usize = match off.checked_add(byte_len) {
        Some(end) => end,
        None => return Err(PatchFault::RecordLengthOverflow),
    };
    if end > payload.len() {
        return Err(
            PatchFault::RecordTruncated { index, need: byte_len, at: off, payload: payload.len() },
        );
    }
    Ok((hcb_string_offset, &payload[off..end], end))
}

/// Decodes the text of a record, without the NUL at its end.
fn decode_text(raw: &[u8]) -> (decoded: (String, bool))
    requires
        raw@.len() <= u16::MAX,
    ensures
        (decoded.0@, decoded.1) == gbk_decoded(without_one_nul(raw@)),
        is_ascii_bytes(raw@) ==> decoded.0@ == ascii_text(without_one_nul(raw@)) && !decoded.1,
{
    let len: usize = raw.len();
    if len > 0 && raw[len - 1] == 0 {
        let text = &raw[0..len - 1];
        assert(text@ =~= without_one_nul(raw@));
        decode_gbk(text)
    } else {
        decode_gbk(raw)
    }
}

} // verus!
