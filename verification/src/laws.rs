//! What holds of `patch.dat` files as a whole.

use vstd::prelude::*;

use crate::fault::PatchFault;
use crate::format::{
    all_decode, compressed_part, file_bytes, file_table, fits, has_distinct_offsets, is_writable,
    payload_bytes, payload_table, record_at, record_bytes, record_text, records_bytes,
    records_from, records_table, without_one_nul, RawRecord, PATCH_DAT_HEADER_LEN,
};
use crate::framing::{
    lemma_payload_ends, lemma_record_in_payload, lemma_u16_bytes, lemma_u32_at, lemma_u32_bytes,
    start_of,
};
use crate::little_endian::{u32_at, u32_bytes};

verus! {

/// The keys of the table of some records are their offsets.
pub(crate) proof fn lemma_table_keys(records: Seq<RawRecord>)
    ensures
        forall|i: int|
            0 <= i < records.len() ==> records_table(records).contains_key(
                (#[trigger] records[i]).offset,
            ),
        forall|key: u32| #[trigger]
            records_table(records).contains_key(key) ==> exists|i: int|
                0 <= i < records.len() && (#[trigger] records[i]).offset == key,
    decreases records.len(),
{
    if records.len() > 0 {
        let shorter = records.drop_last();
        lemma_table_keys(shorter);
        assert forall|i: int| 0 <= i < records.len() implies records_table(records).contains_key(
            (#[trigger] records[i]).offset,
        ) by {
            if i < shorter.len() {
                assert(records[i] == shorter[i]);
            }
        }
        assert forall|key: u32| #[trigger] records_table(records).contains_key(key) implies exists|
            i: int,
        |
            0 <= i < records.len() && (#[trigger] records[i]).offset == key by {
            if key == records.last().offset {
                assert(records[records.len() - 1].offset == key);
            } else {
                assert(records_table(shorter).contains_key(key));
                let i = choose|i: int|
                    0 <= i < shorter.len() && (#[trigger] shorter[i]).offset == key;
                assert(records[i].offset == key);
            }
        }
    }
}

/// The table of records for different strings has the text of each of them, and nothing else.
pub(crate) proof fn lemma_table_entries(records: Seq<RawRecord>)
    requires
        has_distinct_offsets(records),
    ensures
        records_table(records).dom().finite(),
        records_table(records).len() == records.len(),
        forall|i: int|
            0 <= i < records.len() ==> records_table(records)[(#[trigger] records[i]).offset]
                == record_text(records[i].raw)->0,
    decreases records.len(),
{
    if records.len() == 0 {
        assert(records_table(records).dom() =~= Set::<u32>::empty());
    } else {
        let shorter = records.drop_last();
        assert(has_distinct_offsets(shorter)) by {
            assert forall|i: int, j: int| 0 <= i < j < shorter.len() implies (
            #[trigger] shorter[i]).offset != (#[trigger] shorter[j]).offset by {
                assert(records[i].offset != records[j].offset);
            }
        }
        lemma_table_entries(shorter);
        lemma_table_keys(shorter);
        let last = records.last();
        assert(!records_table(shorter).contains_key(last.offset)) by {
            if records_table(shorter).contains_key(last.offset) {
                let i = choose|i: int|
                    0 <= i < shorter.len() && (#[trigger] shorter[i]).offset == last.offset;
                assert(records[i].offset != records[records.len() - 1].offset);
            }
        }
        assert(records_table(records).dom() =~= records_table(shorter).dom().insert(last.offset));
        assert forall|i: int| 0 <= i < records.len() implies records_table(
            records,
        )[(#[trigger] records[i]).offset] == record_text(records[i].raw)->0 by {
            if i < shorter.len() {
                assert(records[i] == shorter[i]);
                assert(records[i].offset != records[records.len() - 1].offset);
            }
        }
    }
}

/// Reading the payload of some records gets past the first `k` of them where these are in order.
proof fn lemma_first_records_are_read(records: Seq<RawRecord>, k: int)
    requires
        fits(records),
        payload_bytes(records).len() <= usize::MAX,
        0 <= k <= records.len(),
        has_distinct_offsets(records.take(k)),
        all_decode(records.take(k)),
    ensures
        payload_table(payload_bytes(records)) == records_from(
            payload_bytes(records),
            start_of(records, k),
            k,
            records.len() as int,
            records_table(records.take(k)),
        ),
    decreases k,
{
    let payload = payload_bytes(records);
    lemma_payload_ends(records);
    if k > 0 {
        let before = records.take(k - 1);
        let upto = records.take(k);
        assert(upto.drop_last() =~= before);
        assert(upto.last() == records[k - 1]);
        assert forall|i: int, j: int| 0 <= i < j < before.len() implies (
        #[trigger] before[i]).offset != (#[trigger] before[j]).offset by {
            assert(upto[i].offset != upto[j].offset);
        }
        assert forall|i: int| 0 <= i < before.len() implies record_text(
            (#[trigger] before[i]).raw,
        ) is Some by {
            assert(record_text(upto[i].raw) is Some);
        }
        lemma_first_records_are_read(records, k - 1);
        lemma_record_in_payload(records, k - 1);
        assert(record_text(upto[k - 1].raw) is Some);
        lemma_table_keys(before);
        if records_table(before).contains_key(records[k - 1].offset) {
            let i = choose|i: int|
                0 <= i < before.len() && (#[trigger] before[i]).offset == records[k - 1].offset;
            assert(upto[i].offset != upto[k - 1].offset);
        }
    }
}

/// What was written is read: the payload of records that can stand in one payload is accepted,
/// and gives under the offset of each record the text of that record, and nothing else.
pub proof fn law_written_records_are_read(records: Seq<RawRecord>)
    requires
        is_writable(records),
        payload_bytes(records).len() <= usize::MAX,
    ensures
        payload_table(payload_bytes(records)) == Ok::<_, PatchFault>(records_table(records)),
        records_table(records).dom().finite(),
        records_table(records).len() == records.len(),
        forall|i: int|
            0 <= i < records.len() ==> {
                &&& records_table(records).contains_key((#[trigger] records[i]).offset)
                &&& Some(records_table(records)[records[i].offset]) == record_text(records[i].raw)
            },
        forall|key: u32| #[trigger]
            records_table(records).contains_key(key) ==> exists|i: int|
                0 <= i < records.len() && (#[trigger] records[i]).offset == key,
{
    let n = records.len() as int;
    assert(records.take(n) =~= records);
    lemma_first_records_are_read(records, n);
    lemma_payload_ends(records);
    lemma_table_keys(records);
    lemma_table_entries(records);
}

/// What was written is read, for a whole file: where the compressed part inflates to the payload of
/// records that can stand in one payload, the file gives the table of these records. The sizes have
/// to fit the header.
pub proof fn law_written_file_is_read(
    unused: Seq<u8>,
    compressed: Seq<u8>,
    records: Seq<RawRecord>,
)
    requires
        unused.len() == 8,
        compressed.len() <= u32::MAX,
        is_writable(records),
        payload_bytes(records).len() <= u32::MAX,
    ensures
        ({
            let payload = payload_bytes(records);
            let bytes = file_bytes(unused, payload.len() as u32, compressed);
            &&& compressed_part(bytes) == compressed
            &&& file_table(bytes, Some(payload)) == Ok::<_, PatchFault>(records_table(records))
        }),
{
    let payload = payload_bytes(records);
    let bytes = file_bytes(unused, payload.len() as u32, compressed);
    assert(bytes.subrange(8, 12) =~= u32_bytes(payload.len() as u32));
    assert(bytes.subrange(12, 16) =~= u32_bytes(compressed.len() as u32));
    lemma_u32_at(bytes, 8, payload.len() as u32);
    lemma_u32_at(bytes, 12, compressed.len() as u32);
    assert(compressed_part(bytes) =~= compressed);
    law_written_records_are_read(records);
}

/// A second record for the same string is refused, also where the two texts are the same. It is
/// the first such record that is reported.
pub proof fn law_duplicate_offset_is_refused(records: Seq<RawRecord>, first: int, second: int)
    requires
        fits(records),
        payload_bytes(records).len() <= usize::MAX,
        0 <= first < second < records.len(),
        records[first].offset == records[second].offset,
        has_distinct_offsets(records.take(second)),
        all_decode(records.take(second + 1)),
    ensures
        payload_table(payload_bytes(records)) == Err::<Map<u32, Seq<char>>, _>(
            PatchFault::DuplicateOffset { hcb_offset: records[second].offset },
        ),
{
    let before = records.take(second);
    let upto = records.take(second + 1);
    assert forall|i: int| 0 <= i < before.len() implies record_text(
        (#[trigger] before[i]).raw,
    ) is Some by {
        assert(record_text(upto[i].raw) is Some);
    }
    assert(record_text(upto[second].raw) is Some);
    lemma_first_records_are_read(records, second);
    lemma_record_in_payload(records, second);
    lemma_table_keys(before);
    assert(before[first].offset == records[second].offset);
}

/// A text that does not decode is refused, under the number of its record.
pub proof fn law_undecodable_text_is_refused(records: Seq<RawRecord>, k: int)
    requires
        fits(records),
        payload_bytes(records).len() <= usize::MAX,
        0 <= k < records.len(),
        has_distinct_offsets(records.take(k)),
        all_decode(records.take(k)),
        record_text(records[k].raw) is None,
    ensures
        payload_table(payload_bytes(records)) == Err::<Map<u32, Seq<char>>, _>(
            PatchFault::InvalidGbk { index: k as usize },
        ),
{
    lemma_first_records_are_read(records, k);
    lemma_record_in_payload(records, k);
}

/// The bytes of a record that was read are those that it is written in.
proof fn lemma_record_is_its_bytes(payload: Seq<u8>, at: int, index: int)
    requires
        0 <= at,
        record_at(payload, at, index) is Ok,
    ensures
        ({
            let (record, end) = record_at(payload, at, index)->Ok_0;
            &&& record.raw.len() <= u16::MAX
            &&& at + 6 <= end <= payload.len()
            &&& payload.subrange(at, end) == record_bytes(record)
        }),
{
    let (record, end) = record_at(payload, at, index)->Ok_0;
    lemma_u32_bytes(payload, at);
    lemma_u16_bytes(payload, at + 4);
    assert(payload.subrange(at, end) =~= payload.subrange(at, at + 4) + payload.subrange(
        at + 4,
        at + 6,
    ) + record.raw);
}

/// Records that are read to the end of a payload, behind `read`, were written there.
proof fn lemma_rest_was_written(payload: Seq<u8>, at: int, count: int, read: Seq<RawRecord>) -> (
    records: Seq<RawRecord>)
    requires
        is_writable(read),
        read.len() <= count <= u32::MAX,
        4 <= at <= payload.len(),
        payload.subrange(4, at) == records_bytes(read),
        records_from(payload, at, read.len() as int, count, records_table(read)) is Ok,
    ensures
        is_writable(records),
        records.len() == count,
        payload.subrange(4, payload.len() as int) == records_bytes(records),
        records_from(payload, at, read.len() as int, count, records_table(read)) == Ok::<
            _,
            PatchFault,
        >(records_table(records)),
    decreases count - read.len(),
{
    let index = read.len() as int;
    if index < count {
        lemma_record_is_its_bytes(payload, at, index);
        let (record, end) = record_at(payload, at, index)->Ok_0;
        let more = read.push(record);
        assert(more.drop_last() =~= read);
        lemma_table_keys(read);
        assert forall|i: int, j: int| 0 <= i < j < more.len() implies (#[trigger] more[i]).offset
            != (#[trigger] more[j]).offset by {
            assert(more[i] == read[i]);
            if j < read.len() {
                assert(more[j] == read[j]);
            } else {
                assert(records_table(read).contains_key(read[i].offset));
            }
        }
        assert forall|i: int| 0 <= i < more.len() implies (#[trigger] more[i]).raw.len()
            <= u16::MAX && record_text(more[i].raw) is Some by {
            if i < read.len() {
                assert(more[i] == read[i]);
            }
        }
        assert(payload.subrange(4, end) =~= payload.subrange(4, at) + payload.subrange(at, end));
        lemma_rest_was_written(payload, end, count, more)
    } else {
        read
    }
}

/// What is read was written: a payload that is accepted is that of some records that can stand in
/// one payload, and its table is theirs. So all its bytes are accounted for.
pub proof fn law_accepted_payload_was_written(payload: Seq<u8>) -> (records: Seq<RawRecord>)
    requires
        payload_table(payload) is Ok,
    ensures
        is_writable(records),
        payload == payload_bytes(records),
        payload_table(payload) == Ok::<_, PatchFault>(records_table(records)),
{
    let none = Seq::<RawRecord>::empty();
    let count = u32_at(payload, 0);
    assert(payload.subrange(4, 4) =~= records_bytes(none));
    let records = lemma_rest_was_written(payload, 4, count as int, none);
    lemma_u32_bytes(payload, 0);
    assert(payload =~= payload.subrange(0, 4) + payload.subrange(4, payload.len() as int));
    records
}

/// An accepted payload has as many strings in its table as it announces records: none is lost.
pub proof fn law_accepted_payload_keeps_every_record(payload: Seq<u8>)
    requires
        payload_table(payload) is Ok,
    ensures
        payload_table(payload)->Ok_0.dom().finite(),
        payload_table(payload)->Ok_0.len() == u32_at(payload, 0),
{
    let records = law_accepted_payload_was_written(payload);
    lemma_payload_ends(records);
    lemma_table_entries(records);
}

/// A payload is that of one list of records only.
pub proof fn law_payload_is_unambiguous(left: Seq<RawRecord>, right: Seq<RawRecord>)
    requires
        fits(left),
        fits(right),
        payload_bytes(left) == payload_bytes(right),
        payload_bytes(left).len() <= usize::MAX,
    ensures
        left == right,
{
    lemma_payload_ends(left);
    lemma_payload_ends(right);
    lemma_same_starts(left, right, left.len() as int);
    assert forall|k: int| 0 <= k < left.len() implies left[k] == right[k] by {
        lemma_same_starts(left, right, k);
        lemma_record_in_payload(left, k);
        lemma_record_in_payload(right, k);
    }
    assert(left =~= right);
}

/// Records with the same payload start at the same places.
proof fn lemma_same_starts(left: Seq<RawRecord>, right: Seq<RawRecord>, k: int)
    requires
        fits(left),
        fits(right),
        left.len() == right.len(),
        payload_bytes(left) == payload_bytes(right),
        payload_bytes(left).len() <= usize::MAX,
        0 <= k <= left.len(),
    ensures
        start_of(left, k) == start_of(right, k),
    decreases k,
{
    if k == 0 {
        lemma_payload_ends(left);
        lemma_payload_ends(right);
    } else {
        lemma_same_starts(left, right, k - 1);
        lemma_record_in_payload(left, k - 1);
        lemma_record_in_payload(right, k - 1);
    }
}

/// A record reads the same in front of other bytes.
proof fn lemma_record_before_more(payload: Seq<u8>, more: Seq<u8>, at: int, index: int)
    requires
        0 <= at,
        payload.len() <= more.len() <= usize::MAX,
        more.take(payload.len() as int) == payload,
        record_at(payload, at, index) is Ok,
    ensures
        record_at(more, at, index) == record_at(payload, at, index),
{
    assert forall|i: int| 0 <= i < payload.len() implies #[trigger] payload[i] == more[i] by {
        assert(more.take(payload.len() as int)[i] == more[i]);
    }
    let (record, end) = record_at(payload, at, index)->Ok_0;
    assert(more.subrange(at + 6, end) =~= payload.subrange(at + 6, end));
}

/// Records that fill a payload leave over what is behind it.
proof fn lemma_records_before_more(
    payload: Seq<u8>,
    more: Seq<u8>,
    at: int,
    index: int,
    count: int,
    table: Map<u32, Seq<char>>,
)
    requires
        0 <= at,
        payload.len() < more.len() <= usize::MAX,
        more.take(payload.len() as int) == payload,
        records_from(payload, at, index, count, table) is Ok,
    ensures
        records_from(more, at, index, count, table) == Err::<Map<u32, Seq<char>>, _>(
            PatchFault::TrailingBytes {
                parsed: payload.len() as usize,
                payload: more.len() as usize,
            },
        ),
    decreases count - index,
{
    if index < count {
        lemma_record_before_more(payload, more, at, index);
        lemma_record_is_its_bytes(payload, at, index);
        let (record, end) = record_at(payload, at, index)->Ok_0;
        lemma_records_before_more(
            payload,
            more,
            end,
            index + 1,
            count,
            table.insert(record.offset, record_text(record.raw)->0),
        );
    }
}

/// Bytes behind the last record are refused, whatever they are.
pub proof fn law_trailing_bytes_are_refused(payload: Seq<u8>, trailing: Seq<u8>)
    requires
        payload_table(payload) is Ok,
        trailing.len() > 0,
        payload.len() + trailing.len() <= usize::MAX,
    ensures
        payload_table(payload + trailing) == Err::<Map<u32, Seq<char>>, _>(
            PatchFault::TrailingBytes {
                parsed: payload.len() as usize,
                payload: (payload.len() + trailing.len()) as usize,
            },
        ),
{
    let more = payload + trailing;
    assert(more.take(payload.len() as int) =~= payload);
    assert(u32_at(more, 0) == u32_at(payload, 0));
    lemma_records_before_more(
        payload,
        more,
        4,
        0,
        u32_at(payload, 0) as int,
        Map::empty(),
    );
}

/// Whether a fault says that bytes are missing.
pub open spec fn is_missing_bytes(fault: PatchFault) -> bool {
    fault is U32PastEnd || fault is U16PastEnd || fault is RecordTruncated
}

/// Records that fill a payload lack bytes in the front of it.
proof fn lemma_records_cut_off(
    payload: Seq<u8>,
    cut: Seq<u8>,
    at: int,
    index: int,
    count: int,
    table: Map<u32, Seq<char>>,
)
    requires
        0 <= at <= cut.len(),
        cut.len() < payload.len() <= usize::MAX,
        payload.take(cut.len() as int) == cut,
        records_from(payload, at, index, count, table) is Ok,
    ensures
        records_from(cut, at, index, count, table) matches Err(fault) && is_missing_bytes(fault),
    decreases count - index,
{
    if index < count {
        let (record, end) = record_at(payload, at, index)->Ok_0;
        lemma_record_is_its_bytes(payload, at, index);
        assert forall|i: int| 0 <= i < cut.len() implies #[trigger] cut[i] == payload[i] by {
            assert(payload.take(cut.len() as int)[i] == payload[i]);
        }
        if end <= cut.len() {
            assert(cut.subrange(at + 6, end) =~= payload.subrange(at + 6, end));
            lemma_records_cut_off(
                payload,
                cut,
                end,
                index + 1,
                count,
                table.insert(record.offset, record_text(record.raw)->0),
            );
        }
    }
}

/// A payload that was cut off is refused for missing bytes, wherever it was cut.
pub proof fn law_truncated_payload_is_refused(payload: Seq<u8>, kept: int)
    requires
        payload_table(payload) is Ok,
        payload.len() <= usize::MAX,
        0 <= kept < payload.len(),
    ensures
        payload_table(payload.take(kept)) matches Err(fault) && is_missing_bytes(fault),
{
    let cut = payload.take(kept);
    if kept >= 4 {
        assert(u32_at(cut, 0) == u32_at(payload, 0));
        lemma_records_cut_off(payload, cut, 4, 0, u32_at(payload, 0) as int, Map::empty());
    }
}

/// Exactly one NUL is taken off the end of a text: behind a text that does not itself end in one,
/// a NUL makes no difference.
pub proof fn law_one_trailing_nul_is_stripped(raw: Seq<u8>)
    ensures
        without_one_nul(raw.push(0)) == raw,
        raw.len() == 0 || raw.last() != 0 ==> record_text(raw.push(0)) == record_text(raw),
{
    assert(raw.push(0).drop_last() =~= raw);
}

/// The first eight bytes of the header make no difference.
pub proof fn law_first_header_bytes_are_ignored(
    left: Seq<u8>,
    right: Seq<u8>,
    inflated: Option<Seq<u8>>,
)
    requires
        left.len() == right.len(),
        forall|i: int| 8 <= i < left.len() ==> left[i] == right[i],
    ensures
        file_table(left, inflated) == file_table(right, inflated),
        left.len() >= PATCH_DAT_HEADER_LEN ==> compressed_part(left) == compressed_part(right),
{
    if left.len() >= PATCH_DAT_HEADER_LEN {
        assert(compressed_part(left) =~= compressed_part(right));
    }
}

/// A file is accepted only if its header gives the sizes of both its compressed part and its
/// payload.
pub proof fn law_accepted_file_gives_its_sizes(bytes: Seq<u8>, inflated: Option<Seq<u8>>)
    requires
        file_table(bytes, inflated) is Ok,
    ensures
        bytes.len() >= PATCH_DAT_HEADER_LEN,
        u32_at(bytes, 12) == compressed_part(bytes).len(),
        inflated matches Some(payload) && u32_at(bytes, 8) == payload.len() && file_table(
            bytes,
            inflated,
        ) == payload_table(payload),
{
}

} // verus!
