//! What holds of numbers and faults as they are written out.

use vstd::prelude::*;

use crate::fault::{fault_text, PatchFault};
use crate::numeral::{decimal, digit, hexadecimal};

verus! {

/// The text of a digit is one character, a decimal digit or one of the letters behind.
proof fn lemma_digit(value: int)
    requires
        0 <= value < 16,
    ensures
        digit(value).len() == 1,
        value < 10 ==> digit(value)[0] as int == '0' as int + value,
        value >= 10 ==> digit(value)[0] as int == 'a' as int + value - 10,
{
    reveal_strlit("0");
    reveal_strlit("1");
    reveal_strlit("2");
    reveal_strlit("3");
    reveal_strlit("4");
    reveal_strlit("5");
    reveal_strlit("6");
    reveal_strlit("7");
    reveal_strlit("8");
    reveal_strlit("9");
    reveal_strlit("a");
    reveal_strlit("b");
    reveal_strlit("c");
    reveal_strlit("d");
    reveal_strlit("e");
    reveal_strlit("f");
}

/// A number is written in decimal digits, of which the first is not 0 but for the number 0, and
/// reading these digits gives the number back.
pub proof fn law_decimal_is_read_back(n: int)
    requires
        0 <= n,
    ensures
        decimal(n).len() > 0,
        forall|i: int| 0 <= i < decimal(n).len() ==> '0' <= #[trigger] decimal(n)[i] <= '9',
        decimal(n).fold_left(0int, |value: int, c: char| 10 * value + (c as int - '0' as int)) == n,
        n > 0 ==> decimal(n)[0] != '0',
        n == 0 ==> decimal(n) == seq!['0'],
    decreases n,
{
    let text = decimal(n);
    let last = n % 10;
    lemma_digit(last);
    if n < 10 {
        assert(text.drop_last() =~= Seq::<char>::empty());
        assert(text.last() == digit(n)[0]);
        reveal_with_fuel(Seq::fold_left, 2);
        if n == 0 {
            assert(text =~= seq!['0']);
        }
    } else {
        law_decimal_is_read_back(n / 10);
        let front = decimal(n / 10);
        assert(text.drop_last() =~= front);
        assert(text.last() == digit(last)[0]);
        assert forall|i: int| 0 <= i < text.len() implies '0' <= #[trigger] text[i] <= '9' by {
            if i < front.len() {
                assert(text[i] == front[i]);
            }
        }
        assert(text[0] == front[0]);
    }
}

/// A number is written in lower-case hexadecimal digits, of which the first is not 0 but for the
/// number 0, and reading these digits gives the number back.
pub proof fn law_hexadecimal_is_read_back(n: int)
    requires
        0 <= n,
    ensures
        hexadecimal(n).len() > 0,
        forall|i: int|
            0 <= i < hexadecimal(n).len() ==> '0' <= #[trigger] hexadecimal(n)[i] <= '9' || 'a'
                <= hexadecimal(n)[i] <= 'f',
        hexadecimal(n).fold_left(
            0int,
            |value: int, c: char|
                16 * value + (if c <= '9' {
                    c as int - '0' as int
                } else {
                    10 + (c as int - 'a' as int)
                }),
        ) == n,
        n > 0 ==> hexadecimal(n)[0] != '0',
        n == 0 ==> hexadecimal(n) == seq!['0'],
    decreases n,
{
    let text = hexadecimal(n);
    let last = n % 16;
    lemma_digit(last);
    if n < 16 {
        assert(text.drop_last() =~= Seq::<char>::empty());
        assert(text.last() == digit(n)[0]);
        reveal_with_fuel(Seq::fold_left, 2);
        if n == 0 {
            assert(text =~= seq!['0']);
        }
    } else {
        law_hexadecimal_is_read_back(n / 16);
        let front = hexadecimal(n / 16);
        assert(text.drop_last() =~= front);
        assert(text.last() == digit(last)[0]);
        assert forall|i: int| 0 <= i < text.len() implies '0' <= #[trigger] text[i] <= '9' || 'a'
            <= text[i] <= 'f' by {
            if i < front.len() {
                assert(text[i] == front[i]);
            }
        }
        assert(text[0] == front[0]);
    }
}

/// The faults without a number have one wording each.
pub proof fn law_plain_faults_are_worded()
    ensures
        fault_text(PatchFault::HeaderTooShort) == "patch.dat is shorter than its 16-byte header"@,
        fault_text(PatchFault::Decompression) == "decompress patch.dat zlib payload"@,
        fault_text(PatchFault::U32OffsetOverflow) == "u32 offset overflow"@,
        fault_text(PatchFault::U16OffsetOverflow) == "u16 offset overflow"@,
        fault_text(PatchFault::RecordLengthOverflow) == "patch.dat record length overflow"@,
{
}

/// The faults with numbers have one wording each, in which their numbers stand in decimal, or in
/// hexadecimal for the offset of a string.
pub proof fn law_numbered_faults_are_worded(a: usize, b: usize, c: usize, d: usize, hcb_offset: u32)
    ensures
        fault_text(PatchFault::CompressedSizeMismatch { header: a, actual: b })
            == "patch.dat compressed size mismatch: header="@ + decimal(a as int) + " actual="@
            + decimal(b as int),
        fault_text(PatchFault::UncompressedSizeMismatch { header: a, actual: b })
            == "patch.dat uncompressed size mismatch: header="@ + decimal(a as int) + " actual="@
            + decimal(b as int),
        fault_text(PatchFault::U32PastEnd { offset: a }) == "unexpected end while reading u32 at "@
            + decimal(a as int),
        fault_text(PatchFault::U16PastEnd { offset: a }) == "unexpected end while reading u16 at "@
            + decimal(a as int),
        fault_text(PatchFault::RecordTruncated { index: a, need: b, at: c, payload: d })
            == "patch.dat record "@ + decimal(a as int) + " is truncated: need "@ + decimal(
            b as int,
        ) + " bytes at "@ + decimal(c as int) + ", payload len "@ + decimal(d as int),
        fault_text(PatchFault::InvalidGbk { index: a }) == "patch.dat record "@ + decimal(a as int)
            + " is not valid GBK"@,
        fault_text(PatchFault::DuplicateOffset { hcb_offset })
            == "patch.dat contains duplicate HCB string offset 0x"@ + hexadecimal(
            hcb_offset as int,
        ),
        fault_text(PatchFault::TrailingBytes { parsed: a, payload: b })
            == "patch.dat has trailing bytes after records: parsed="@ + decimal(a as int)
            + " payload="@ + decimal(b as int),
{
}

} // verus!
