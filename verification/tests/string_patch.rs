use std::io::{Error, ErrorKind, Write};

use flate2::write::ZlibEncoder;
use flate2::Compression;
use rfvp_patch::string_patch::{read_header, read_record};
use rfvp_patch::{PatchFault, StringPatchTable};

fn payload_of(records: &[(u32, &[u8])]) -> Vec<u8> {
    let mut payload = Vec::new();
    payload
        .write_all(&(records.len() as u32).to_le_bytes())
        .unwrap();
    for (offset, bytes) in records {
        payload.write_all(&offset.to_le_bytes()).unwrap();
        payload
            .write_all(&(bytes.len() as u16).to_le_bytes())
            .unwrap();
        payload.write_all(bytes).unwrap();
    }
    payload
}

fn compress(payload: &[u8]) -> Vec<u8> {
    let mut encoder = ZlibEncoder::new(Vec::new(), Compression::default());
    encoder.write_all(payload).unwrap();
    encoder.finish().unwrap()
}

fn file_of(uncompressed_size: u32, compressed: &[u8]) -> Vec<u8> {
    let mut out = Vec::new();
    out.write_all(&0u32.to_le_bytes()).unwrap();
    out.write_all(&0x6342_4ecfu32.to_le_bytes()).unwrap();
    out.write_all(&uncompressed_size.to_le_bytes()).unwrap();
    out.write_all(&(compressed.len() as u32).to_le_bytes())
        .unwrap();
    out.extend_from_slice(compressed);
    out
}

fn encode_patch_dat(records: &[(u32, &[u8])]) -> Vec<u8> {
    let payload = payload_of(records);
    file_of(payload.len() as u32, &compress(&payload))
}

#[test]
fn parses_valid_gbk_table() {
    let bytes = encode_patch_dat(&[(0x10, b"\xc4\xe3\xba\xc3"), (0x20, b"\xd6\xd0\xce\xc4")]);

    let table = StringPatchTable::from_bytes(&bytes).unwrap();

    assert_eq!(table.len(), 2);
    assert_eq!(table.get(0x10), Some("\u{4f60}\u{597d}"));
    assert_eq!(table.get(0x20), Some("\u{4e2d}\u{6587}"));
}

#[test]
fn rejects_malformed_header_sizes() {
    let mut bytes = encode_patch_dat(&[(0x10, b"abc")]);
    bytes[12..16].copy_from_slice(&999u32.to_le_bytes());

    let err = StringPatchTable::from_bytes(&bytes).unwrap_err();

    assert!(err.message().contains("compressed size mismatch"));
}

#[test]
fn rejects_truncated_records() {
    let mut payload = Vec::new();
    payload.write_all(&1u32.to_le_bytes()).unwrap();
    payload.write_all(&0x10u32.to_le_bytes()).unwrap();

    let mut encoder = ZlibEncoder::new(Vec::new(), Compression::default());
    encoder.write_all(&payload).unwrap();
    let compressed = encoder.finish().unwrap();

    let mut bytes = Vec::new();
    bytes.write_all(&0u32.to_le_bytes()).unwrap();
    bytes.write_all(&0x6342_4ecfu32.to_le_bytes()).unwrap();
    bytes
        .write_all(&(payload.len() as u32).to_le_bytes())
        .unwrap();
    bytes
        .write_all(&(compressed.len() as u32).to_le_bytes())
        .unwrap();
    bytes.extend_from_slice(&compressed);

    let err = StringPatchTable::from_bytes(&bytes).unwrap_err();

    assert!(err.message().contains("unexpected end while reading u16"));
}

#[test]
fn rejects_duplicate_offsets() {
    let bytes = encode_patch_dat(&[(0x10, b"one"), (0x10, b"two")]);

    let err = StringPatchTable::from_bytes(&bytes).unwrap_err();

    assert!(err.message().contains("duplicate HCB string offset"));
}

#[test]
fn strips_one_trailing_nul() {
    let bytes = encode_patch_dat(&[(0x10, b"abc\0")]);

    let table = StringPatchTable::from_bytes(&bytes).unwrap();

    assert_eq!(table.get(0x10), Some("abc"));
}

#[test]
fn keeps_a_second_trailing_nul() {
    let table = StringPatchTable::from_bytes(&encode_patch_dat(&[
        (1, b"abc\0\0"),
        (2, b"\0"),
        (3, b""),
        (4, b"a\0b"),
    ]))
    .unwrap();

    assert_eq!(table.get(1), Some("abc\0"));
    assert_eq!(table.get(2), Some(""));
    assert_eq!(table.get(3), Some(""));
    assert_eq!(table.get(4), Some("a\0b"));
    assert_eq!(table.get(5), None);
    assert_eq!(table.len(), 4);
}

#[test]
fn reads_a_table_without_records() {
    let table = StringPatchTable::from_bytes(&encode_patch_dat(&[])).unwrap();

    assert!(table.is_empty());
    assert_eq!(table.len(), 0);
    assert_eq!(table.get(0), None);
}

#[test]
fn reads_a_record_of_the_greatest_length() {
    let text = vec![b'x'; 0xffff];
    let table = StringPatchTable::from_bytes(&encode_patch_dat(&[(u32::MAX, &text)])).unwrap();

    assert!(!table.is_empty());
    assert_eq!(table.get(u32::MAX).map(str::len), Some(0xffff));
}

#[test]
fn byte_order_mark_overrides_the_encoding() {
    let payload = payload_of(&[(7, b"\xef\xbb\xbf\xe4\xbd\xa0")]);

    let table = StringPatchTable::from_payload(&payload).unwrap();

    assert_eq!(table.get(7), Some("\u{4f60}"));
}

#[test]
fn rejects_a_short_header() {
    for len in 0..16 {
        let err = StringPatchTable::from_bytes(&vec![0u8; len]).unwrap_err();
        assert_eq!(err.fault, PatchFault::HeaderTooShort);
        assert_eq!(err.message(), "patch.dat is shorter than its 16-byte header");
        assert!(err.cause.is_none());
    }
}

#[test]
fn rejects_a_wrong_compressed_size() {
    let mut bytes = encode_patch_dat(&[(0x10, b"abc")]);
    let actual = bytes.len() - 16;
    bytes[12..16].copy_from_slice(&999u32.to_le_bytes());

    let err = StringPatchTable::from_bytes(&bytes).unwrap_err();

    assert_eq!(err.fault, PatchFault::CompressedSizeMismatch { header: 999, actual });
    assert_eq!(
        err.message(),
        format!("patch.dat compressed size mismatch: header=999 actual={}", actual)
    );
}

#[test]
fn rejects_bytes_that_do_not_inflate() {
    let err = StringPatchTable::from_bytes(&file_of(4, b"\0\0\0\0")).unwrap_err();

    assert_eq!(err.fault, PatchFault::Decompression);
    assert_eq!(err.message(), "decompress patch.dat zlib payload");
    assert!(err.cause.is_some());

    let whole = compress(&payload_of(&[(0x10, b"abc")]));
    let err = StringPatchTable::from_bytes(&file_of(13, &whole[..whole.len() - 1])).unwrap_err();
    assert_eq!(err.fault, PatchFault::Decompression);
}

#[test]
fn ignores_bytes_behind_the_zlib_stream() {
    let payload = payload_of(&[(0x10, b"abc")]);
    let mut compressed = compress(&payload);
    compressed.extend_from_slice(b"more");

    let table =
        StringPatchTable::from_bytes(&file_of(payload.len() as u32, &compressed)).unwrap();

    assert_eq!(table.get(0x10), Some("abc"));
}

#[test]
fn rejects_a_wrong_uncompressed_size() {
    let payload = payload_of(&[(0x10, b"abc")]);

    let err = StringPatchTable::from_bytes(&file_of(14, &compress(&payload))).unwrap_err();

    assert_eq!(err.fault, PatchFault::UncompressedSizeMismatch { header: 14, actual: 13 });
    assert_eq!(
        err.message(),
        "patch.dat uncompressed size mismatch: header=14 actual=13"
    );
    assert!(err.cause.is_none());
}

#[test]
fn takes_the_size_of_the_payload() {
    let payload = payload_of(&[(0x10, b"abc")]);

    let table = StringPatchTable::from_sized_payload(13, &payload).unwrap();
    assert_eq!(table.get(0x10), Some("abc"));

    let fault = StringPatchTable::from_sized_payload(12, &payload).unwrap_err();
    assert_eq!(fault, PatchFault::UncompressedSizeMismatch { header: 12, actual: 13 });
}

#[test]
fn takes_what_came_of_the_decompression() {
    let payload = payload_of(&[(0x10, b"abc")]);

    let table = StringPatchTable::from_inflated(13, Ok(payload.clone())).unwrap();
    assert_eq!(table.get(0x10), Some("abc"));

    let err = StringPatchTable::from_inflated(12, Ok(payload)).unwrap_err();
    assert_eq!(err.fault, PatchFault::UncompressedSizeMismatch { header: 12, actual: 13 });
    assert!(err.cause.is_none());

    let cause = Error::new(ErrorKind::Other, "out of order");
    let err = StringPatchTable::from_inflated(13, Err(cause)).unwrap_err();
    assert_eq!(err.fault, PatchFault::Decompression);
    assert_eq!(err.cause.unwrap().to_string(), "out of order");
}

#[test]
fn hands_on_the_error_of_the_decompression() {
    let err = StringPatchTable::from_bytes(&file_of(4, b"\0\0\0\0")).unwrap_err();
    assert_eq!(err.cause.unwrap().kind(), ErrorKind::InvalidInput);

    let err = StringPatchTable::from_bytes(&file_of(4, b"")).unwrap_err();
    assert_eq!(err.cause.unwrap().kind(), ErrorKind::UnexpectedEof);
}

#[test]
fn ignores_the_first_eight_bytes() {
    let mut bytes = encode_patch_dat(&[(0x10, b"abc")]);
    for byte in bytes[0..8].iter_mut() {
        *byte = 0xa5;
    }

    let table = StringPatchTable::from_bytes(&bytes).unwrap();

    assert_eq!(table.get(0x10), Some("abc"));
}

#[test]
fn reads_the_header() {
    let mut bytes = vec![0u8; 18];
    bytes[8..12].copy_from_slice(&0x0102_0304u32.to_le_bytes());
    bytes[12..16].copy_from_slice(&2u32.to_le_bytes());
    assert_eq!(read_header(&bytes), Ok(0x0102_0304));

    bytes.push(0);
    assert_eq!(
        read_header(&bytes),
        Err(PatchFault::CompressedSizeMismatch { header: 2, actual: 3 })
    );
}

#[test]
fn reads_one_record() {
    let payload = payload_of(&[(0x0102_0304, b"one"), (0x20, b"")]);

    assert_eq!(read_record(&payload, 4, 0), Ok((0x0102_0304, &b"one"[..], 13)));
    assert_eq!(read_record(&payload, 13, 1), Ok((0x20, &b""[..], 19)));
    assert_eq!(
        read_record(&payload, 19, 2),
        Err(PatchFault::U32PastEnd { offset: 19 })
    );
    assert_eq!(
        read_record(&payload, usize::MAX, 2),
        Err(PatchFault::U32OffsetOverflow)
    );
}

#[test]
fn rejects_a_text_that_is_cut_off() {
    let mut payload = payload_of(&[(0x10, b"abc"), (0x20, b"defg")]);
    payload.pop();

    let fault = StringPatchTable::from_payload(&payload).unwrap_err();

    assert_eq!(
        fault,
        PatchFault::RecordTruncated { index: 1, need: 4, at: 19, payload: 22 }
    );
    assert_eq!(
        fault.message(),
        "patch.dat record 1 is truncated: need 4 bytes at 19, payload len 22"
    );
}

#[test]
fn rejects_every_truncation() {
    let payload = payload_of(&[(0x10, b"abc\0"), (0x20, b""), (0x30, b"\xc4\xe3")]);
    assert_eq!(StringPatchTable::from_payload(&payload).unwrap().len(), 3);

    for kept in 0..payload.len() {
        let fault = StringPatchTable::from_payload(&payload[..kept]).unwrap_err();
        assert!(matches!(
            fault,
            PatchFault::U32PastEnd { .. }
                | PatchFault::U16PastEnd { .. }
                | PatchFault::RecordTruncated { .. }
        ));
    }
}

#[test]
fn rejects_an_empty_payload() {
    let fault = StringPatchTable::from_payload(&[]).unwrap_err();

    assert_eq!(fault, PatchFault::U32PastEnd { offset: 0 });
    assert_eq!(fault.message(), "unexpected end while reading u32 at 0");
}

#[test]
fn rejects_more_records_than_there_are() {
    let mut payload = payload_of(&[(0x10, b"abc")]);
    payload[0..4].copy_from_slice(&u32::MAX.to_le_bytes());

    let fault = StringPatchTable::from_payload(&payload).unwrap_err();

    assert_eq!(fault, PatchFault::U32PastEnd { offset: 13 });
}

#[test]
fn rejects_trailing_bytes() {
    let mut payload = payload_of(&[(0x10, b"abc")]);
    payload.extend_from_slice(&[0, 0]);

    let fault = StringPatchTable::from_payload(&payload).unwrap_err();

    assert_eq!(fault, PatchFault::TrailingBytes { parsed: 13, payload: 15 });
    assert_eq!(
        fault.message(),
        "patch.dat has trailing bytes after records: parsed=13 payload=15"
    );
}

#[test]
fn rejects_a_text_that_is_not_gbk() {
    let payload = payload_of(&[(0x10, b"abc"), (0x20, b"\xff\xff"), (0x20, b"\xff")]);

    let fault = StringPatchTable::from_payload(&payload).unwrap_err();

    assert_eq!(fault, PatchFault::InvalidGbk { index: 1 });
    assert_eq!(fault.message(), "patch.dat record 1 is not valid GBK");
}

#[test]
fn reports_the_first_duplicate() {
    let payload = payload_of(&[(0xabc, b"same"), (0x20, b"x"), (0xabc, b"same"), (0x20, b"y")]);

    let fault = StringPatchTable::from_payload(&payload).unwrap_err();

    assert_eq!(fault, PatchFault::DuplicateOffset { hcb_offset: 0xabc });
    assert_eq!(
        fault.message(),
        "patch.dat contains duplicate HCB string offset 0xabc"
    );
}

#[test]
fn malformed_text_comes_before_a_duplicate() {
    let payload = payload_of(&[(0x10, b"abc"), (0x10, b"\xff")]);

    let fault = StringPatchTable::from_payload(&payload).unwrap_err();

    assert_eq!(fault, PatchFault::InvalidGbk { index: 1 });
}

#[test]
fn adds_decoded_texts() {
    let mut table = StringPatchTable::default();

    assert_eq!(table.add_decoded(0, 5, "five".to_string(), false), Ok(()));
    assert_eq!(
        table.add_decoded(1, 6, "six".to_string(), true),
        Err(PatchFault::InvalidGbk { index: 1 })
    );
    assert_eq!(table.get(6), None);
    assert_eq!(
        table.add_decoded(2, 5, "again".to_string(), false),
        Err(PatchFault::DuplicateOffset { hcb_offset: 5 })
    );
    assert_eq!(table.get(5), Some("again"));
    assert_eq!(table.len(), 1);
}

#[test]
fn later_pair_stands() {
    let table = StringPatchTable::from_pairs_for_test(&[(1, "a"), (2, "b"), (1, "c")]);

    assert_eq!(table.len(), 2);
    assert_eq!(table.get(1), Some("c"));
    assert_eq!(table.get(2), Some("b"));
    assert_eq!(table.get(3), None);
}

#[test]
fn clone_has_the_same_texts() {
    let table = StringPatchTable::from_pairs_for_test(&[(1, "\u{4f60}"), (2, "")]).clone();

    assert_eq!(table.len(), 2);
    assert_eq!(table.get(1), Some("\u{4f60}"));
    assert_eq!(table.get(2), Some(""));
}
