//! How the records of a payload follow each other.

use vstd::prelude::*;

use crate::fault::PatchFault;
use crate::format::{fits, payload_bytes, record_at, record_bytes, records_bytes, RawRecord};
use crate::little_endian::{u16_at, u16_bytes, u32_at, u32_bytes};

verus! {

/// Where record number `k` starts in the payload that holds `records`.
pub open spec fn start_of(records: Seq<RawRecord>, k: int) -> int {
    4 + records_bytes(records.take(k)).len() as int
}

/// Four digits in base 256 are the digits of the number that they make up.
proof fn lemma_four_digits(d0: int, d1: int, d2: int, d3: int)
    requires
        0 <= d0 < 0x100,
        0 <= d1 < 0x100,
        0 <= d2 < 0x100,
        0 <= d3 < 0x100,
    ensures
        ({
            let n = d0 + 0x100 * d1 + 0x1_0000 * d2 + 0x100_0000 * d3;
            &&& 0 <= n <= u32::MAX
            &&& n % 0x100 == d0
            &&& n / 0x100 % 0x100 == d1
            &&& n / 0x1_0000 % 0x100 == d2
            &&& n / 0x100_0000 == d3
        }),
{
    let n = d0 + 0x100 * d1 + 0x1_0000 * d2 + 0x100_0000 * d3;
    assert(n / 0x100 == d1 + 0x100 * d2 + 0x1_0000 * d3);
    assert(n / 0x1_0000 == d2 + 0x100 * d3);
    assert(n / 0x100_0000 == d3);
}

/// A number is made up of its four digits in base 256.
proof fn lemma_four_digits_make_up(n: int)
    requires
        0 <= n <= u32::MAX,
    ensures
        n % 0x100 + 0x100 * (n / 0x100 % 0x100) + 0x1_0000 * (n / 0x1_0000 % 0x100) + 0x100_0000
            * (n / 0x100_0000) == n,
{
    assert(n / 0x1_0000 == n / 0x100 / 0x100);
    assert(n / 0x100_0000 == n / 0x1_0000 / 0x100);
}

/// Four bytes that hold a number read as that number.
pub(crate) proof fn lemma_u32_at(bytes: Seq<u8>, at: int, value: u32)
    requires
        0 <= at,
        at + 4 <= bytes.len(),
        bytes.subrange(at, at + 4) == u32_bytes(value),
    ensures
        u32_at(bytes, at) == value,
{
    let four = bytes.subrange(at, at + 4);
    assert(bytes[at] == four[0]);
    assert(bytes[at + 1] == four[1]);
    assert(bytes[at + 2] == four[2]);
    assert(bytes[at + 3] == four[3]);
    lemma_four_digits_make_up(value as int);
}

/// Two bytes that hold a number read as that number.
proof fn lemma_u16_at(bytes: Seq<u8>, at: int, value: u16)
    requires
        0 <= at,
        at + 2 <= bytes.len(),
        bytes.subrange(at, at + 2) == u16_bytes(value),
    ensures
        u16_at(bytes, at) == value,
{
    let two = bytes.subrange(at, at + 2);
    assert(bytes[at] == two[0]);
    assert(bytes[at + 1] == two[1]);
}

/// The four bytes that a number is read from hold that number.
pub(crate) proof fn lemma_u32_bytes(bytes: Seq<u8>, at: int)
    requires
        0 <= at,
        at + 4 <= bytes.len(),
    ensures
        bytes.subrange(at, at + 4) == u32_bytes(u32_at(bytes, at)),
{
    lemma_four_digits(
        bytes[at] as int,
        bytes[at + 1] as int,
        bytes[at + 2] as int,
        bytes[at + 3] as int,
    );
    let four = bytes.subrange(at, at + 4);
    let written = u32_bytes(u32_at(bytes, at));
    assert(four[0] == written[0]);
    assert(four[1] == written[1]);
    assert(four[2] == written[2]);
    assert(four[3] == written[3]);
    assert(four =~= written);
}

/// The two bytes that a number is read from hold that number.
pub(crate) proof fn lemma_u16_bytes(bytes: Seq<u8>, at: int)
    requires
        0 <= at,
        at + 2 <= bytes.len(),
    ensures
        bytes.subrange(at, at + 2) == u16_bytes(u16_at(bytes, at)),
{
    assert(bytes.subrange(at, at + 2) =~= u16_bytes(u16_at(bytes, at)));
}

/// The bytes of the first `k` records are the first of the bytes of all.
proof fn lemma_records_prefix(records: Seq<RawRecord>, k: int)
    requires
        0 <= k <= records.len(),
    ensures
        records_bytes(records.take(k)).len() <= records_bytes(records).len(),
        records_bytes(records).take(records_bytes(records.take(k)).len() as int) == records_bytes(
            records.take(k),
        ),
    decreases records.len(),
{
    if k == records.len() {
        assert(records.take(k) =~= records);
        assert(records_bytes(records).take(records_bytes(records).len() as int) =~= records_bytes(
            records,
        ));
    } else {
        let shorter = records.drop_last();
        lemma_records_prefix(shorter, k);
        assert(shorter.take(k) =~= records.take(k));
        let n = records_bytes(records.take(k)).len() as int;
        assert(records_bytes(records).take(n) =~= records_bytes(shorter).take(n));
    }
}

/// A record is read from where its bytes stand.
proof fn lemma_record_from_bytes(payload: Seq<u8>, at: int, index: int, record: RawRecord)
    requires
        0 <= at,
        record.raw.len() <= u16::MAX,
        at + 6 + record.raw.len() <= payload.len() <= usize::MAX,
        payload.subrange(at, at + 6 + record.raw.len()) == record_bytes(record),
    ensures
        record_at(payload, at, index) == Ok::<_, PatchFault>(
            (record, at + 6 + record.raw.len()),
        ),
{
    let end = at + 6 + record.raw.len();
    let own = record_bytes(record);
    assert(payload.subrange(at, at + 4) =~= own.subrange(0, 4));
    assert(own.subrange(0, 4) =~= u32_bytes(record.offset));
    lemma_u32_at(payload, at, record.offset);
    assert(payload.subrange(at + 4, at + 4 + 2) =~= own.subrange(4, 6));
    assert(own.subrange(4, 6) =~= u16_bytes(record.raw.len() as u16));
    lemma_u16_at(payload, at + 4, record.raw.len() as u16);
    assert(payload.subrange(at + 6, end) =~= own.subrange(6, own.len() as int));
    assert(own.subrange(6, own.len() as int) =~= record.raw);
}

/// Record number `k` stands in the payload at its place.
pub(crate) proof fn lemma_record_in_payload(records: Seq<RawRecord>, k: int)
    requires
        fits(records),
        0 <= k < records.len(),
        payload_bytes(records).len() <= usize::MAX,
    ensures
        record_at(payload_bytes(records), start_of(records, k), k) == Ok::<_, PatchFault>(
            (records[k], start_of(records, k + 1)),
        ),
        start_of(records, k + 1) <= payload_bytes(records).len(),
{
    let payload = payload_bytes(records);
    let record = records[k];
    let at = start_of(records, k);
    let end = start_of(records, k + 1);
    lemma_records_prefix(records, k + 1);
    assert(records.take(k + 1).drop_last() =~= records.take(k));
    assert(records.take(k + 1).last() == record);
    let body = records_bytes(records);
    let own = record_bytes(record);
    assert(body.take(end - 4) == records_bytes(records.take(k)) + own);
    assert(payload.subrange(at, end) =~= body.take(end - 4).subrange(at - 4, end - 4));
    assert(payload.subrange(at, end) =~= own);
    lemma_record_from_bytes(payload, at, k, record);
}

/// The payload starts with the number of its records, and the records fill the rest.
pub(crate) proof fn lemma_payload_ends(records: Seq<RawRecord>)
    requires
        fits(records),
    ensures
        payload_bytes(records).len() >= 4,
        u32_at(payload_bytes(records), 0) == records.len(),
        start_of(records, 0) == 4,
        start_of(records, records.len() as int) == payload_bytes(records).len(),
{
    let payload = payload_bytes(records);
    assert(payload.subrange(0, 4) =~= u32_bytes(records.len() as u32));
    lemma_u32_at(payload, 0, records.len() as u32);
    assert(records.take(records.len() as int) =~= records);
    assert(records.take(0).len() == 0);
}

} // verus!
