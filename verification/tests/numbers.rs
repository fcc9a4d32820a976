use rfvp_patch::little_endian::{read_u16_le_at, read_u32_le, read_u32_le_at};
use rfvp_patch::numeral::{append_decimal, append_hexadecimal};
use rfvp_patch::PatchFault;

#[test]
fn reads_four_bytes() {
    let bytes = [0xff, 0x04, 0x03, 0x02, 0x81];

    assert_eq!(read_u32_le(&bytes, 0), Ok(0x0203_04ff));
    assert_eq!(read_u32_le(&bytes, 1), Ok(0x8102_0304));
    assert_eq!(read_u32_le(&bytes, 2), Err(PatchFault::U32PastEnd { offset: 2 }));
    assert_eq!(
        read_u32_le(&bytes, usize::MAX - 3),
        Err(PatchFault::U32OffsetOverflow)
    );
}

#[test]
fn reading_four_bytes_moves_the_offset() {
    let bytes = [1, 0, 0, 0, 2, 0, 0, 0, 9];
    let mut offset = 0;

    assert_eq!(read_u32_le_at(&bytes, &mut offset), Ok(1));
    assert_eq!(offset, 4);
    assert_eq!(read_u32_le_at(&bytes, &mut offset), Ok(2));
    assert_eq!(offset, 8);
    assert_eq!(
        read_u32_le_at(&bytes, &mut offset),
        Err(PatchFault::U32PastEnd { offset: 8 })
    );
    assert_eq!(offset, 8);
}

#[test]
fn reading_two_bytes_moves_the_offset() {
    let bytes = [0x34, 0x12, 0xff];
    let mut offset = 0;

    assert_eq!(read_u16_le_at(&bytes, &mut offset), Ok(0x1234));
    assert_eq!(offset, 2);
    assert_eq!(
        read_u16_le_at(&bytes, &mut offset),
        Err(PatchFault::U16PastEnd { offset: 2 })
    );
    assert_eq!(offset, 2);
    offset = usize::MAX - 1;
    assert_eq!(
        read_u16_le_at(&bytes, &mut offset),
        Err(PatchFault::U16OffsetOverflow)
    );
    assert_eq!(offset, usize::MAX - 1);
}

#[test]
fn writes_decimal_numbers() {
    for n in [0usize, 7, 9, 10, 99, 100, 65535, 1234567890, usize::MAX] {
        let mut text = "n=".to_string();
        append_decimal(&mut text, n);
        assert_eq!(text, format!("n={}", n));
    }
}

#[test]
fn writes_hexadecimal_numbers() {
    for n in [0usize, 9, 10, 15, 16, 0xabcdef, 0x1234_5678, usize::MAX] {
        let mut text = "0x".to_string();
        append_hexadecimal(&mut text, n);
        assert_eq!(text, format!("0x{:x}", n));
    }
}

#[test]
fn words_the_overflow_faults() {
    assert_eq!(PatchFault::U32OffsetOverflow.message(), "u32 offset overflow");
    assert_eq!(PatchFault::U16OffsetOverflow.message(), "u16 offset overflow");
    assert_eq!(
        PatchFault::RecordLengthOverflow.message(),
        "patch.dat record length overflow"
    );
    assert_eq!(
        PatchFault::U16PastEnd { offset: 8 }.message(),
        "unexpected end while reading u16 at 8"
    );
}
