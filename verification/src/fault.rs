//! What can be wrong with a `patch.dat` file, and how each fault is worded.

use vstd::prelude::*;

use crate::numeral::{append_decimal, append_hexadecimal, decimal, hexadecimal};

verus! {

/// The error of a failed read, declared so that it can be carried as the cause of a fault.
#[verifier::external_type_specification]
#[verifier::external_body]
pub struct ExIoError(std::io::Error);

/// The reason why a `patch.dat` file, or a part of it, was rejected.
#[derive(Debug, Clone, Copy, PartialEq, Eq, Structural)]
pub enum PatchFault {
    /// The file ends inside its header.
    HeaderTooShort,
    /// The header announces another number of compressed bytes than follow it.
    CompressedSizeMismatch { header: usize, actual: usize },
    /// The compressed bytes are no zlib stream.
    Decompression,
    /// The header announces another number of uncompressed bytes than came out.
    UncompressedSizeMismatch { header: usize, actual: usize },
    /// A four-byte number would end past the largest offset.
    U32OffsetOverflow,
    /// A four-byte number ends past the end of the bytes.
    U32PastEnd { offset: usize },
    /// A two-byte number would end past the largest offset.
    U16OffsetOverflow,
    /// A two-byte number ends past the end of the bytes.
    U16PastEnd { offset: usize },
    /// The text of a record would end past the largest offset.
    RecordLengthOverflow,
    /// The text of a record ends past the end of the payload.
    RecordTruncated { index: usize, need: usize, at: usize, payload: usize },
    /// The text of a record holds bytes that do not decode.
    InvalidGbk { index: usize },
    /// Two records are for the same string.
    DuplicateOffset { hcb_offset: u32 },
    /// The payload goes on after its last record.
    TrailingBytes { parsed: usize, payload: usize },
}

/// How a fault is worded.
pub open spec fn fault_text(fault: PatchFault) -> Seq<char> {
    match fault {
        PatchFault::HeaderTooShort => "patch.dat is shorter than its 16-byte header"@,
        PatchFault::CompressedSizeMismatch { header, actual } => {
            "patch.dat compressed size mismatch: header="@ + decimal(header as int) + " actual="@
                + decimal(actual as int)
        },
        PatchFault::Decompression => "decompress patch.dat zlib payload"@,
        PatchFault::UncompressedSizeMismatch { header, actual } => {
            "patch.dat uncompressed size mismatch: header="@ + decimal(header as int) + " actual="@
                + decimal(actual as int)
        },
        PatchFault::U32OffsetOverflow => "u32 offset overflow"@,
        PatchFault::U32PastEnd { offset } => {
            "unexpected end while reading u32 at "@ + decimal(offset as int)
        },
        PatchFault::U16OffsetOverflow => "u16 offset overflow"@,
        PatchFault::U16PastEnd { offset } => {
            "unexpected end while reading u16 at "@ + decimal(offset as int)
        },
        PatchFault::RecordLengthOverflow => "patch.dat record length overflow"@,
        PatchFault::RecordTruncated { index, need, at, payload } => {
            "patch.dat record "@ + decimal(index as int) + " is truncated: need "@ + decimal(
                need as int,
            ) + " bytes at "@ + decimal(at as int) + ", payload len "@ + decimal(payload as int)
        },
        PatchFault::InvalidGbk { index } => {
            "patch.dat record "@ + decimal(index as int) + " is not valid GBK"@
        },
        PatchFault::DuplicateOffset { hcb_offset } => {
            "patch.dat contains duplicate HCB string offset 0x"@ + hexadecimal(hcb_offset as int)
        },
        PatchFault::TrailingBytes { parsed, payload } => {
            "patch.dat has trailing bytes after records: parsed="@ + decimal(parsed as int)
                + " payload="@ + decimal(payload as int)
        },
    }
}

impl PatchFault {
    /// The fault in words.
    pub fn message(&self) -> (text: String)
        ensures
            text@ == fault_text(*self),
    {
        match *self {
            PatchFault::HeaderTooShort => {
                "patch.dat is shorter than its 16-byte header".to_owned()
            },
            PatchFault::CompressedSizeMismatch { header, actual } => {
                let mut text = "patch.dat compressed size mismatch: header=".to_owned();
                append_decimal(&mut text, header);
                text.append(" actual=");
                append_decimal(&mut text, actual);
                text
            },
            PatchFault::Decompression => "decompress patch.dat zlib payload".to_owned(),
            PatchFault::UncompressedSizeMismatch { header, actual } => {
                let mut text = "patch.dat uncompressed size mismatch: header=".to_owned();
                append_decimal(&mut text, header);
                text.append(" actual=");
                append_decimal(&mut text, actual);
                text
            },
            PatchFault::U32OffsetOverflow => "u32 offset overflow".to_owned(),
            PatchFault::U32PastEnd { offset } => {
                let mut text = "unexpected end while reading u32 at ".to_owned();
                append_decimal(&mut text, offset);
                text
            },
            PatchFault::U16OffsetOverflow => "u16 offset overflow".to_owned(),
            PatchFault::U16PastEnd { offset } => {
                let mut text = "unexpected end while reading u16 at ".to_owned();
                append_decimal(&mut text, offset);
                text
            },
            PatchFault::RecordLengthOverflow => "patch.dat record length overflow".to_owned(),
            PatchFault::RecordTruncated { index, need, at, payload } => {
                let mut text = "patch.dat record ".to_owned();
                append_decimal(&mut text, index);
                text.append(" is truncated: need ");
                append_decimal(&mut text, need);
                text.append(" bytes at ");
                append_decimal(&mut text, at);
                text.append(", payload len ");
                append_decimal(&mut text, payload);
                text
            },
            PatchFault::InvalidGbk { index } => {
                let mut text = "patch.dat record ".to_owned();
                append_decimal(&mut text, index);
                text.append(" is not valid GBK");
                text
            },
            PatchFault::DuplicateOffset { hcb_offset } => {
                let mut text = "patch.dat contains duplicate HCB string offset 0x".to_owned();
                append_hexadecimal(&mut text, hcb_offset as usize);
                text
            },
            PatchFault::TrailingBytes { parsed, payload } => {
                let mut text = "patch.dat has trailing bytes after records: parsed=".to_owned();
                append_decimal(&mut text, parsed);
                text.append(" payload=");
                append_decimal(&mut text, payload);
                text
            },
        }
    }
}

/// The error of reading a whole `patch.dat` file: the fault, and the error of the
/// decompression where that is the fault.
#[derive(Debug)]
pub struct PatchError {
    pub fault: PatchFault,
    pub cause: Option<std::io::Error>,
}

impl PatchError {
    /// The fault in words, without its cause.
    pub fn message(&self) -> (text: String)
        ensures
            text@ == fault_text(self.fault),
    {
        self.fault.message()
    }
}

} // verus!
