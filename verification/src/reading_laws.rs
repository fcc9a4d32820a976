//! What is read from given bytes, said of the bytes themselves.

use vstd::prelude::*;

use crate::fault::PatchFault;
use crate::format::{
    compressed_part, file_table, fits, header_size, is_writable, payload_bytes, payload_table,
    record_at, record_text, records_from, records_table, sized_payload_table, without_one_nul,
    RawRecord,
};
use crate::framing::{
    lemma_payload_ends, lemma_record_in_payload, lemma_u32_at, lemma_u32_bytes, start_of,
};
use crate::gbk::gbk_decoded;
use crate::laws::{
    law_accepted_payload_was_written, law_payload_is_unambiguous, law_undecodable_text_is_refused,
    lemma_table_entries, lemma_table_keys,
};
use crate::little_endian::{u16_read, u32_at, u32_bytes, u32_read};

verus! {

/// Four bytes are read as the number whose bytes they are, the least significant one first, and
/// as no other. Where there are not four of them, it is said where they were looked for.
pub proof fn law_four_bytes_are_read(bytes: Seq<u8>, at: int, value: u32)
    requires
        0 <= at,
    ensures
        u32_read(bytes, at) == Ok::<_, PatchFault>(value) <==> {
            &&& at + 4 <= bytes.len() && at + 4 <= usize::MAX
            &&& bytes[at] == value as int % 0x100
            &&& bytes[at + 1] == value as int / 0x100 % 0x100
            &&& bytes[at + 2] == value as int / 0x1_0000 % 0x100
            &&& bytes[at + 3] == value as int / 0x100_0000 % 0x100
        },
        at + 4 > usize::MAX ==> u32_read(bytes, at) == Err::<u32, _>(
            PatchFault::U32OffsetOverflow,
        ),
        bytes.len() < at + 4 <= usize::MAX ==> u32_read(bytes, at) == Err::<u32, _>(
            PatchFault::U32PastEnd { offset: at as usize },
        ),
{
    if at + 4 <= bytes.len() {
        lemma_u32_bytes(bytes, at);
        let four = bytes.subrange(at, at + 4);
        assert(four[0] == bytes[at]);
        assert(four[1] == bytes[at + 1]);
        assert(four[2] == bytes[at + 2]);
        assert(four[3] == bytes[at + 3]);
        if {
            &&& bytes[at] == value as int % 0x100
            &&& bytes[at + 1] == value as int / 0x100 % 0x100
            &&& bytes[at + 2] == value as int / 0x1_0000 % 0x100
            &&& bytes[at + 3] == value as int / 0x100_0000 % 0x100
        } {
            assert(four =~= u32_bytes(value));
            lemma_u32_at(bytes, at, value);
        }
    }
}

/// Two bytes are read as the number whose bytes they are, the least significant one first, and as
/// no other. Where there are not two of them, it is said where they were looked for.
pub proof fn law_two_bytes_are_read(bytes: Seq<u8>, at: int, value: u16)
    requires
        0 <= at,
    ensures
        u16_read(bytes, at) == Ok::<_, PatchFault>(value) <==> {
            &&& at + 2 <= bytes.len() && at + 2 <= usize::MAX
            &&& bytes[at] == value as int % 0x100
            &&& bytes[at + 1] == value as int / 0x100
        },
        at + 2 > usize::MAX ==> u16_read(bytes, at) == Err::<u16, _>(
            PatchFault::U16OffsetOverflow,
        ),
        bytes.len() < at + 2 <= usize::MAX ==> u16_read(bytes, at) == Err::<u16, _>(
            PatchFault::U16PastEnd { offset: at as usize },
        ),
{
}

/// A record is the offset of a string, the length of a text, and that many bytes; a part of it that
/// is missing is reported as that part.
pub proof fn law_record_is_read(payload: Seq<u8>, at: int, index: int)
    requires
        0 <= at,
        payload.len() <= usize::MAX,
    ensures
        at + 4 > usize::MAX ==> record_at(payload, at, index) == Err::<(RawRecord, int), _>(
            PatchFault::U32OffsetOverflow,
        ),
        at + 4 <= payload.len() && at + 6 > usize::MAX ==> record_at(payload, at, index) == Err::<
            (RawRecord, int),
            _,
        >(PatchFault::U16OffsetOverflow),
        payload.len() < at + 4 <= usize::MAX ==> record_at(payload, at, index) == Err::<
            (RawRecord, int),
            _,
        >(PatchFault::U32PastEnd { offset: at as usize }),
        at + 4 <= payload.len() < at + 6 <= usize::MAX ==> record_at(payload, at, index) == Err::<
            (RawRecord, int),
            _,
        >(PatchFault::U16PastEnd { offset: (at + 4) as usize }),
        at + 6 <= payload.len() ==> {
            let len = payload[at + 4] + 0x100 * payload[at + 5];
            if at + 6 + len <= payload.len() {
                record_at(payload, at, index) matches Ok((record, end)) && {
                    &&& record.offset == payload[at] + 0x100 * payload[at + 1] + 0x1_0000
                        * payload[at + 2] + 0x100_0000 * payload[at + 3]
                    &&& record.raw == payload.subrange(at + 6, at + 6 + len)
                    &&& end == at + 6 + len
                }
            } else if at + 6 + len <= usize::MAX {
                record_at(payload, at, index) == Err::<(RawRecord, int), _>(
                    PatchFault::RecordTruncated {
                        index: index as usize,
                        need: len as usize,
                        at: (at + 6) as usize,
                        payload: payload.len() as usize,
                    },
                )
            } else {
                record_at(payload, at, index) == Err::<(RawRecord, int), _>(
                    PatchFault::RecordLengthOverflow,
                )
            }
        },
{
}

/// `raw` is `text` with or without one NUL behind it, and `text` is what counts of it.
proof fn lemma_text_of_raw(raw: Seq<u8>, text: Seq<u8>)
    requires
        raw == text.push(0) || (raw == text && (text.len() == 0 || text.last() != 0)),
    ensures
        record_text(raw) == (if gbk_decoded(text).1 {
            None
        } else {
            Some(gbk_decoded(text).0)
        }),
{
    assert(text.push(0).drop_last() =~= text);
    assert(without_one_nul(raw) == text);
}

/// Reading gets past records that stand in a payload one behind the other and are in order.
proof fn lemma_read_up_to(payload: Seq<u8>, k: int, starts: Seq<int>, records: Seq<RawRecord>)
    requires
        4 <= payload.len() <= usize::MAX,
        0 <= k <= records.len(),
        starts.len() > k,
        k <= u32_at(payload, 0),
        starts[0] == 4,
        forall|i: int|
            0 <= i < k ==> {
                &&& record_at(payload, starts[i], i) == Ok::<_, PatchFault>(
                    (#[trigger] records[i], starts[i + 1]),
                )
                &&& record_text(records[i].raw) is Some
            },
        forall|i: int, j: int|
            0 <= i < j < k ==> (#[trigger] records[i]).offset != (#[trigger] records[j]).offset,
    ensures
        payload_table(payload) == records_from(
            payload,
            starts[k],
            k,
            u32_at(payload, 0) as int,
            records_table(records.take(k)),
        ),
    decreases k,
{
    if k == 0 {
        assert(records.take(0).len() == 0);
    } else {
        lemma_read_up_to(payload, k - 1, starts, records);
        let before = records.take(k - 1);
        let upto = records.take(k);
        let last = records[k - 1];
        assert(upto.drop_last() =~= before);
        assert(upto.last() == last);
        lemma_table_keys(before);
        if records_table(before).contains_key(last.offset) {
            let i = choose|i: int|
                0 <= i < before.len() && (#[trigger] before[i]).offset == last.offset;
            assert(records[i].offset != records[k - 1].offset);
        }
    }
}

/// What a payload gives, in terms of its bytes. Let its first `k` records, of which the next one
/// starts where the last one ends, be for different strings, and let their texts, less one NUL at
/// the end, decode without errors. Then
/// - if these are all and fill the payload, it is accepted, and the table has under the offset of
///   each record the whole of its decoded text, and nothing else;
/// - otherwise it is refused for the first thing that is wrong behind them: bytes left over, bytes
///   missing, a malformed text, or a string that has been replaced already.
pub proof fn law_payload_is_read_in_order(
    payload: Seq<u8>,
    k: int,
    starts: Seq<int>,
    offsets: Seq<u32>,
    texts: Seq<Seq<u8>>,
)
    requires
        4 <= payload.len() <= usize::MAX,
        0 <= k <= payload[0] + 0x100 * payload[1] + 0x1_0000 * payload[2] + 0x100_0000 * payload[3],
        starts.len() == k + 1,
        offsets.len() == k,
        texts.len() == k,
        starts[0] == 4,
        forall|i: int|
            #![trigger offsets[i]]
            #![trigger texts[i]]
            0 <= i < k ==> {
                &&& 4 <= starts[i]
                &&& starts[i] + 6 <= starts[i + 1] <= payload.len()
                &&& offsets[i] == payload[starts[i]] + 0x100 * payload[starts[i] + 1] + 0x1_0000
                    * payload[starts[i] + 2] + 0x100_0000 * payload[starts[i] + 3]
                &&& starts[i + 1] - starts[i] - 6 == payload[starts[i] + 4] + 0x100
                    * payload[starts[i] + 5]
                &&& payload.subrange(starts[i] + 6, starts[i + 1]) == texts[i].push(0) || (
                payload.subrange(starts[i] + 6, starts[i + 1]) == texts[i] && (texts[i].len() == 0
                    || texts[i].last() != 0))
                &&& !gbk_decoded(texts[i]).1
            },
        forall|i: int, j: int|
            0 <= i < j < k ==> #[trigger] offsets[i] != #[trigger] offsets[j],
    ensures
        ({
            let count = payload[0] + 0x100 * payload[1] + 0x1_0000 * payload[2] + 0x100_0000
                * payload[3];
            let at = starts[k];
            let size = payload.len();
            &&& k == count && at == size ==> (payload_table(payload) matches Ok(table) && {
                &&& table.dom().finite()
                &&& table.len() == count
                &&& forall|i: int|
                    #![trigger offsets[i]]
                    #![trigger texts[i]]
                    0 <= i < k ==> table.contains_key(offsets[i]) && table[offsets[i]]
                        == gbk_decoded(texts[i]).0
                &&& forall|key: u32| #[trigger]
                    table.contains_key(key) ==> exists|i: int|
                        0 <= i < k && #[trigger] offsets[i] == key
            })
            &&& k == count && at < size ==> payload_table(payload) == Err::<
                Map<u32, Seq<char>>,
                _,
            >(PatchFault::TrailingBytes { parsed: at as usize, payload: size as usize })
            &&& k < count && size < at + 4 <= usize::MAX ==> payload_table(payload) == Err::<
                Map<u32, Seq<char>>,
                _,
            >(PatchFault::U32PastEnd { offset: at as usize })
            &&& k < count && at + 4 <= size < at + 6 <= usize::MAX ==> payload_table(payload)
                == Err::<Map<u32, Seq<char>>, _>(
                PatchFault::U16PastEnd { offset: (at + 4) as usize },
            )
            &&& k < count && at + 4 > usize::MAX ==> payload_table(payload) == Err::<
                Map<u32, Seq<char>>,
                _,
            >(PatchFault::U32OffsetOverflow)
            &&& k < count && at + 4 <= size && at + 6 > usize::MAX ==> payload_table(payload)
                == Err::<Map<u32, Seq<char>>, _>(PatchFault::U16OffsetOverflow)
            &&& k < count && at + 6 <= size ==> {
                let len = payload[at + 4] + 0x100 * payload[at + 5];
                let offset = payload[at] + 0x100 * payload[at + 1] + 0x1_0000 * payload[at + 2]
                    + 0x100_0000 * payload[at + 3];
                &&& at + 6 + len > usize::MAX ==> payload_table(payload) == Err::<
                    Map<u32, Seq<char>>,
                    _,
                >(PatchFault::RecordLengthOverflow)
                &&& size < at + 6 + len <= usize::MAX ==> payload_table(payload) == Err::<
                    Map<u32, Seq<char>>,
                    _,
                >(
                    PatchFault::RecordTruncated {
                        index: k as usize,
                        need: len as usize,
                        at: (at + 6) as usize,
                        payload: size as usize,
                    },
                )
                &&& at + 6 + len <= size ==> {
                    let raw = payload.subrange(at + 6, at + 6 + len);
                    forall|text: Seq<u8>|
                        raw == text.push(0) || (raw == text && (text.len() == 0 || text.last()
                            != 0)) ==> {
                            &&& (#[trigger] gbk_decoded(text)).1 ==> payload_table(payload)
                                == Err::<Map<u32, Seq<char>>, _>(
                                PatchFault::InvalidGbk { index: k as usize },
                            )
                            &&& !gbk_decoded(text).1 && (exists|i: int|
                                0 <= i < k && #[trigger] offsets[i] == offset)
                                ==> payload_table(payload) == Err::<Map<u32, Seq<char>>, _>(
                                PatchFault::DuplicateOffset { hcb_offset: offset as u32 },
                            )
                        }
                }
            }
        }),
{
    let records = Seq::new(
        k as nat,
        |i: int|
            RawRecord {
                offset: offsets[i],
                raw: payload.subrange(starts[i] + 6, starts[i + 1]),
            },
    );
    assert forall|i: int| 0 <= i < k implies {
        &&& record_at(payload, starts[i], i) == Ok::<_, PatchFault>(
            (#[trigger] records[i], starts[i + 1]),
        )
        &&& record_text(records[i].raw) == Some(gbk_decoded(texts[i]).0)
    } by {
        assert(offsets[i] == records[i].offset);
        law_record_is_read(payload, starts[i], i);
        lemma_text_of_raw(records[i].raw, texts[i]);
    }
    assert forall|i: int, j: int| 0 <= i < j < k implies (#[trigger] records[i]).offset != (
    #[trigger] records[j]).offset by {
        assert(offsets[i] != offsets[j]);
    }
    lemma_read_up_to(payload, k, starts, records);
    assert(records.take(k) =~= records);
    lemma_table_keys(records);
    lemma_table_entries(records);
    let table = records_table(records);
    assert forall|i: int|
        #![trigger offsets[i]]
        #![trigger texts[i]]
        0 <= i < k implies table.contains_key(offsets[i]) && table[offsets[i]] == gbk_decoded(
        texts[i],
    ).0 by {
        assert(records[i].offset == offsets[i]);
    }
    assert forall|key: u32| #[trigger] table.contains_key(key) implies exists|i: int|
        0 <= i < k && #[trigger] offsets[i] == key by {
        let i = choose|i: int| 0 <= i < records.len() && (#[trigger] records[i]).offset == key;
        assert(offsets[i] == key);
    }
    let at = starts[k];
    if k > 0 {
        assert(offsets[k - 1] == records[k - 1].offset);
    }
    law_record_is_read(payload, at, k);
    if at + 6 <= payload.len() {
        let len = payload[at + 4] + 0x100 * payload[at + 5];
        if at + 6 + len <= payload.len() {
            let raw = payload.subrange(at + 6, at + 6 + len);
            assert forall|text: Seq<u8>|
                raw == text.push(0) || (raw == text && (text.len() == 0 || text.last()
                    != 0)) implies record_text(raw) == (if (#[trigger] gbk_decoded(text)).1 {
                None
            } else {
                Some(gbk_decoded(text).0)
            }) by {
                lemma_text_of_raw(raw, text);
            }
        }
    }
}

/// A payload that ends inside the number of its records is refused for that.
pub proof fn law_payload_without_count_is_refused(payload: Seq<u8>)
    requires
        payload.len() < 4,
    ensures
        payload_table(payload) == Err::<Map<u32, Seq<char>>, _>(
            PatchFault::U32PastEnd { offset: 0 },
        ),
{
}

/// Whether a record for the string at `offset` stands from `at` to `end`, its text, less one NUL at
/// the end, is `text`, and `table` has that.
spec fn stands_at(
    payload: Seq<u8>,
    table: Map<u32, Seq<char>>,
    at: int,
    end: int,
    offset: u32,
    text: Seq<u8>,
) -> bool {
    &&& 4 <= at
    &&& at + 6 <= end <= payload.len()
    &&& offset == payload[at] + 0x100 * payload[at + 1] + 0x1_0000 * payload[at + 2] + 0x100_0000
        * payload[at + 3]
    &&& end - at - 6 == payload[at + 4] + 0x100 * payload[at + 5]
    &&& payload.subrange(at + 6, end) == text.push(0) || (payload.subrange(at + 6, end) == text && (
    text.len() == 0 || text.last() != 0))
    &&& !gbk_decoded(text).1
    &&& table.contains_key(offset)
    &&& table[offset] == gbk_decoded(text).0
}

/// How one of the records that a payload was written from stands in it.
proof fn lemma_written_record(records: Seq<RawRecord>, i: int)
    requires
        is_writable(records),
        payload_bytes(records).len() <= usize::MAX,
        0 <= i < records.len(),
    ensures
        stands_at(
            payload_bytes(records),
            records_table(records),
            start_of(records, i),
            start_of(records, i + 1),
            records[i].offset,
            text_of_raw(records[i].raw),
        ),
{
    lemma_record_in_payload(records, i);
    law_record_is_read(payload_bytes(records), start_of(records, i), i);
    lemma_text_and_nul(records[i].raw);
    lemma_text_of_raw(records[i].raw, text_of_raw(records[i].raw));
    lemma_table_keys(records);
    lemma_table_entries(records);
    assert(record_text(records[i].raw) is Some);
}

/// How the records that a payload was written from stand in it.
proof fn lemma_written_payload(records: Seq<RawRecord>) -> (found: (
    Seq<int>,
    Seq<u32>,
    Seq<Seq<u8>>,
))
    requires
        is_writable(records),
        payload_bytes(records).len() <= usize::MAX,
    ensures
        found.0.len() == records.len() + 1,
        found.1.len() == records.len(),
        found.2.len() == records.len(),
        found.0[0] == 4,
        found.0[records.len() as int] == payload_bytes(records).len(),
        forall|i: int|
            0 <= i < records.len() ==> #[trigger] stands_at(
                payload_bytes(records),
                records_table(records),
                found.0[i],
                found.0[i + 1],
                found.1[i],
                found.2[i],
            ),
        forall|i: int, j: int|
            0 <= i < j < records.len() ==> #[trigger] found.1[i] != #[trigger] found.1[j],
{
    let n = records.len();
    let starts = Seq::new(n + 1, |i: int| start_of(records, i));
    let offsets = Seq::new(n, |i: int| records[i].offset);
    let texts = Seq::new(n, |i: int| text_of_raw(records[i].raw));
    lemma_payload_ends(records);
    assert forall|i: int| 0 <= i < n implies #[trigger] stands_at(
        payload_bytes(records),
        records_table(records),
        starts[i],
        starts[i + 1],
        offsets[i],
        texts[i],
    ) by {
        lemma_written_record(records, i);
    }
    assert forall|i: int, j: int| 0 <= i < j < n implies #[trigger] offsets[i]
        != #[trigger] offsets[j] by {
        assert(records[i].offset != records[j].offset);
    }
    (starts, offsets, texts)
}

/// An accepted payload is records one behind the other, from behind their number to its end. They
/// are for different strings, the decoder finds nothing malformed in any of their texts, less one
/// NUL at the end, and the table has under each offset the whole of the decoded text. Returned are
/// where the records start, with the end of the last one, their offsets and their texts.
pub proof fn law_accepted_payload_is_in_order(payload: Seq<u8>) -> (found: (
    Seq<int>,
    Seq<u32>,
    Seq<Seq<u8>>,
))
    requires
        payload_table(payload) is Ok,
        payload.len() <= usize::MAX,
    ensures
        ({
            let (starts, offsets, texts) = found;
            let table = payload_table(payload)->Ok_0;
            let count = payload[0] + 0x100 * payload[1] + 0x1_0000 * payload[2] + 0x100_0000
                * payload[3];
            &&& payload.len() >= 4
            &&& starts.len() == count + 1 && offsets.len() == count && texts.len() == count
            &&& starts[0] == 4 && starts[count] == payload.len()
            &&& forall|i: int|
                #![trigger offsets[i]]
                #![trigger texts[i]]
                0 <= i < count ==> {
                    &&& 4 <= starts[i]
                    &&& starts[i] + 6 <= starts[i + 1] <= payload.len()
                    &&& offsets[i] == payload[starts[i]] + 0x100 * payload[starts[i] + 1]
                        + 0x1_0000 * payload[starts[i] + 2] + 0x100_0000 * payload[starts[i] + 3]
                    &&& starts[i + 1] - starts[i] - 6 == payload[starts[i] + 4] + 0x100
                        * payload[starts[i] + 5]
                    &&& payload.subrange(starts[i] + 6, starts[i + 1]) == texts[i].push(0) || (
                    payload.subrange(starts[i] + 6, starts[i + 1]) == texts[i] && (texts[i].len()
                        == 0 || texts[i].last() != 0))
                    &&& !gbk_decoded(texts[i]).1
                    &&& table.contains_key(offsets[i])
                    &&& table[offsets[i]] == gbk_decoded(texts[i]).0
                }
            &&& forall|i: int, j: int|
                0 <= i < j < count ==> #[trigger] offsets[i] != #[trigger] offsets[j]
            &&& table.dom().finite() && table.len() == count
        }),
{
    let records = law_accepted_payload_was_written(payload);
    let found = lemma_written_payload(records);
    let (starts, offsets, texts) = found;
    let table = records_table(records);
    assert(payload_table(payload)->Ok_0 == table);
    assert(payload.len() >= 4 && records.len() == payload[0] + 0x100 * payload[1] + 0x1_0000
        * payload[2] + 0x100_0000 * payload[3]) by {
        lemma_payload_ends(records);
    }
    assert(table.dom().finite() && table.len() == records.len()) by {
        lemma_table_entries(records);
    }
    assert forall|i: int|
        #![trigger starts[i]]
        #![trigger offsets[i]]
        #![trigger texts[i]]
        0 <= i < records.len() implies stands_at(
        payload,
        table,
        starts[i],
        starts[i + 1],
        offsets[i],
        texts[i],
    ) by {
        assert(stands_at(payload, table, starts[i], starts[i + 1], offsets[i], texts[i]));
    }
    found
}

/// `raw` less one NUL at its end.
spec fn text_of_raw(raw: Seq<u8>) -> Seq<u8> {
    if raw.len() > 0 && raw.last() == 0 {
        raw.drop_last()
    } else {
        raw
    }
}

proof fn lemma_text_and_nul(raw: Seq<u8>)
    ensures
        ({
            let text = text_of_raw(raw);
            raw == text.push(0) || (raw == text && (text.len() == 0 || text.last() != 0))
        }),
{
    if raw.len() > 0 && raw.last() == 0 {
        assert(raw =~= raw.drop_last().push(0));
    }
}

/// Where a payload of given records is accepted, the decoder finds nothing malformed in the text of
/// any of them, less one NUL at the end, and the whole of what it makes of the text stands under
/// the record's offset.
pub proof fn law_accepted_text_is_decoded(records: Seq<RawRecord>, i: int, text: Seq<u8>)
    requires
        fits(records),
        payload_bytes(records).len() <= usize::MAX,
        payload_table(payload_bytes(records)) is Ok,
        0 <= i < records.len(),
        records[i].raw == text.push(0) || (records[i].raw == text && (text.len() == 0
            || text.last() != 0)),
    ensures
        !gbk_decoded(text).1,
        payload_table(payload_bytes(records))->Ok_0.contains_key(records[i].offset),
        payload_table(payload_bytes(records))->Ok_0[records[i].offset] == gbk_decoded(text).0,
{
    let written = law_accepted_payload_was_written(payload_bytes(records));
    law_payload_is_unambiguous(written, records);
    lemma_text_of_raw(records[i].raw, text);
    lemma_table_keys(records);
    lemma_table_entries(records);
    assert(record_text(written[i].raw) is Some);
}

/// Of the records of a payload, the first one in whose text the decoder finds something malformed
/// is reported, where those in front of it are for different strings.
pub proof fn law_malformed_text_is_refused(
    records: Seq<RawRecord>,
    k: int,
    texts: Seq<Seq<u8>>,
)
    requires
        fits(records),
        payload_bytes(records).len() <= usize::MAX,
        0 <= k < records.len(),
        texts.len() == records.len(),
        forall|i: int|
            #![trigger texts[i]]
            0 <= i < records.len() ==> records[i].raw == texts[i].push(0) || (records[i].raw
                == texts[i] && (texts[i].len() == 0 || texts[i].last() != 0)),
        forall|i: int| #![trigger texts[i]] 0 <= i < k ==> !gbk_decoded(texts[i]).1,
        forall|i: int, j: int|
            0 <= i < j < k ==> (#[trigger] records[i]).offset != (#[trigger] records[j]).offset,
        gbk_decoded(texts[k]).1,
    ensures
        payload_table(payload_bytes(records)) == Err::<Map<u32, Seq<char>>, _>(
            PatchFault::InvalidGbk { index: k as usize },
        ),
{
    let before = records.take(k);
    assert forall|i: int| 0 <= i < before.len() implies record_text(
        (#[trigger] before[i]).raw,
    ) is Some by {
        lemma_text_of_raw(records[i].raw, texts[i]);
    }
    assert forall|i: int, j: int| 0 <= i < j < before.len() implies (#[trigger] before[i]).offset
        != (#[trigger] before[j]).offset by {
        assert(records[i].offset != records[j].offset);
    }
    lemma_text_of_raw(records[k].raw, texts[k]);
    law_undecodable_text_is_refused(records, k);
}

/// The header of a file is its first sixteen bytes. The last four of them have to give the number
/// of bytes behind it; the four in front of these give the size of the payload.
pub proof fn law_header_is_read(bytes: Seq<u8>)
    requires
        bytes.len() <= usize::MAX,
    ensures
        bytes.len() < 16 ==> header_size(bytes) == Err::<usize, _>(PatchFault::HeaderTooShort),
        bytes.len() >= 16 ==> {
            let compressed = bytes[12] + 0x100 * bytes[13] + 0x1_0000 * bytes[14] + 0x100_0000
                * bytes[15];
            let uncompressed = bytes[8] + 0x100 * bytes[9] + 0x1_0000 * bytes[10] + 0x100_0000
                * bytes[11];
            if compressed == bytes.len() - 16 {
                header_size(bytes) == Ok::<_, PatchFault>(uncompressed as usize)
            } else {
                header_size(bytes) == Err::<usize, _>(
                    PatchFault::CompressedSizeMismatch {
                        header: compressed as usize,
                        actual: (bytes.len() - 16) as usize,
                    },
                )
            }
        },
        bytes.len() >= 16 ==> compressed_part(bytes) == bytes.skip(16),
{
    if bytes.len() >= 16 {
        assert(compressed_part(bytes) =~= bytes.skip(16));
    }
}

/// A payload counts only where it has the size that it is to have.
pub proof fn law_payload_size_is_checked(size: usize, payload: Seq<u8>)
    requires
        payload.len() <= usize::MAX,
    ensures
        payload.len() == size ==> sized_payload_table(size, payload) == payload_table(payload),
        payload.len() != size ==> sized_payload_table(size, payload) == Err::<
            Map<u32, Seq<char>>,
            _,
        >(PatchFault::UncompressedSizeMismatch { header: size, actual: payload.len() as usize }),
{
}

/// A file is refused, in this order, for a short header, for a wrong number of compressed bytes,
/// for bytes that do not inflate, and for a wrong number of inflated bytes. Otherwise it gives what
/// its payload gives.
pub proof fn law_file_is_read_in_order(bytes: Seq<u8>, inflated: Option<Seq<u8>>)
    requires
        bytes.len() <= usize::MAX,
        inflated matches Some(payload) ==> payload.len() <= usize::MAX,
    ensures
        bytes.len() < 16 ==> file_table(bytes, inflated) == Err::<Map<u32, Seq<char>>, _>(
            PatchFault::HeaderTooShort,
        ),
        bytes.len() >= 16 ==> {
            let compressed = bytes[12] + 0x100 * bytes[13] + 0x1_0000 * bytes[14] + 0x100_0000
                * bytes[15];
            let uncompressed = bytes[8] + 0x100 * bytes[9] + 0x1_0000 * bytes[10] + 0x100_0000
                * bytes[11];
            if compressed != bytes.len() - 16 {
                file_table(bytes, inflated) == Err::<Map<u32, Seq<char>>, _>(
                    PatchFault::CompressedSizeMismatch {
                        header: compressed as usize,
                        actual: (bytes.len() - 16) as usize,
                    },
                )
            } else {
                match inflated {
                    None => file_table(bytes, inflated) == Err::<Map<u32, Seq<char>>, _>(
                        PatchFault::Decompression,
                    ),
                    Some(payload) => if payload.len() != uncompressed {
                        file_table(bytes, inflated) == Err::<Map<u32, Seq<char>>, _>(
                            PatchFault::UncompressedSizeMismatch {
                                header: uncompressed as usize,
                                actual: payload.len() as usize,
                            },
                        )
                    } else {
                        file_table(bytes, inflated) == payload_table(payload)
                    },
                }
            }
        },
{
}

} // verus!
