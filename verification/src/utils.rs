//! Decoders for the fixed-width wire primitives: little-endian integers, byte runs,
//! nanosecond timestamps, fixed-point prices and space-padded text.

use crate::error::{outcome, outcome_view, DecodeError};
use crate::time::{datetime_from_nanos, utc_from_nanos};
use chrono::NaiveDateTime;
use vstd::prelude::*;
use vstd::slice::slice_subrange;
use vstd::utf8::{
    decode_utf8, decode_utf8_encode_utf8, encode_utf8, encode_utf8_decode_utf8,
    encode_utf8_valid_utf8, is_ascii_chars, is_ascii_chars_encode_utf8,
    is_char_boundary_iff_not_is_continuation_byte, is_char_boundary_start_end_of_seq, valid_utf8,
    valid_utf8_split,
};

verus! {

/// The unsigned number that the `width` bytes from offset `at` spell, least significant first.
pub open spec fn le_unsigned(bytes: Seq<u8>, at: int, width: nat) -> nat
    decreases width,
{
    if width == 0 {
        0
    } else {
        bytes[at] as nat + 256 * le_unsigned(bytes, at + 1, (width - 1) as nat)
    }
}

/// The signed number that the `width` bytes from offset `at` spell in two's complement,
/// least significant byte first.
pub open spec fn le_signed(bytes: Seq<u8>, at: int, width: nat) -> int {
    let u = le_unsigned(bytes, at, width);
    if bytes[at + width - 1] >= 128 {
        u - pow256(width)
    } else {
        u as int
    }
}

/// 256 to the power `n`.
pub open spec fn pow256(n: nat) -> nat
    decreases n,
{
    if n == 0 {
        1
    } else {
        256 * pow256((n - 1) as nat)
    }
}

/// The numbers that the decoders read fit the types they are read into: two bytes fit in
/// 16 bits and four in 32, and eight bytes in two's complement fit in 64 bits with a sign.
pub proof fn lemma_le_fits(bytes: Seq<u8>, at: int)
    ensures
        le_unsigned(bytes, at, 2) <= u16::MAX,
        le_unsigned(bytes, at, 4) <= u32::MAX,
        i64::MIN <= le_signed(bytes, at, 8) <= i64::MAX,
{
    reveal_with_fuel(le_unsigned, 9);
    reveal_with_fuel(pow256, 9);
}

/// Reading a number after `k` skipped bytes is reading it `k` bytes further on.
pub proof fn lemma_le_unsigned_skip(bytes: Seq<u8>, k: int, at: int, width: nat)
    requires
        0 <= k,
        0 <= at,
        k + at + width <= bytes.len(),
    ensures
        le_unsigned(bytes.skip(k), at, width) == le_unsigned(bytes, k + at, width),
    decreases width,
{
    if width > 0 {
        lemma_le_unsigned_skip(bytes, k, at + 1, (width - 1) as nat);
    }
}

/// Reading a signed number after `k` skipped bytes is reading it `k` bytes further on.
pub proof fn lemma_le_signed_skip(bytes: Seq<u8>, k: int, at: int, width: nat)
    requires
        0 <= k,
        0 <= at,
        0 < width,
        k + at + width <= bytes.len(),
    ensures
        le_signed(bytes.skip(k), at, width) == le_signed(bytes, k + at, width),
{
    lemma_le_unsigned_skip(bytes, k, at, width);
}

/// The result of reading a fixed-width field of `width` bytes whose value is `value`.
pub open spec fn fixed_width<T>(bytes: Seq<u8>, width: nat, value: T) -> Result<
    (Seq<u8>, T),
    DecodeError,
> {
    if bytes.len() < width {
        Err(DecodeError::InsufficientBytes)
    } else {
        Ok((bytes.skip(width as int), value))
    }
}

/// Reads a 16-bit unsigned integer, least significant byte first.
pub fn le_u16(input: &[u8]) -> (r: Result<(&[u8], u16), DecodeError>)
    ensures
        outcome(r) == fixed_width(input@, 2, le_unsigned(input@, 0, 2) as u16),
{
    if input.len() < 2 {
        return Err(DecodeError::InsufficientBytes);
    }
    proof {
        reveal_with_fuel(le_unsigned, 3);
    }
    let value: u16 = input[0] as u16 + 256 * (input[1] as u16);
    Ok((slice_subrange(input, 2, input.len()), value))
}

/// Reads a 32-bit unsigned integer, least significant byte first.
pub fn le_u32(input: &[u8]) -> (r: Result<(&[u8], u32), DecodeError>)
    ensures
        outcome(r) == fixed_width(input@, 4, le_unsigned(input@, 0, 4) as u32),
{
    if input.len() < 4 {
        return Err(DecodeError::InsufficientBytes);
    }
    proof {
        reveal_with_fuel(le_unsigned, 5);
    }
    let high: u32 = input[2] as u32 + 256 * (input[3] as u32);
    let value: u32 = input[0] as u32 + 256 * (input[1] as u32 + 256 * high);
    Ok((slice_subrange(input, 4, input.len()), value))
}

/// Reads a 64-bit signed integer in two's complement, least significant byte first.
pub fn le_i64(input: &[u8]) -> (r: Result<(&[u8], i64), DecodeError>)
    ensures
        outcome(r) == fixed_width(input@, 8, le_signed(input@, 0, 8) as i64),
{
    if input.len() < 8 {
        return Err(DecodeError::InsufficientBytes);
    }
    proof {
        reveal_with_fuel(le_unsigned, 9);
        reveal_with_fuel(pow256, 9);
    }
    let mid: u64 = input[4] as u64 + 256 * (input[5] as u64 + 256 * (input[6] as u64));
    let low: u64 = input[0] as u64 + 256 * (input[1] as u64 + 256 * (input[2] as u64 + 256 * (
    input[3] as u64 + 256 * mid)));
    let top: u8 = input[7];
    assert(le_unsigned(input@, 0, 8) == low + 0x100_0000_0000_0000 * top);
    let value: i64 = if top >= 128 {
        let high: i64 = (top - 128) as i64 - 128;
        high * 0x100_0000_0000_0000 + low as i64
    } else {
        (low + 0x100_0000_0000_0000 * (top as u64)) as i64
    };
    Ok((slice_subrange(input, 8, input.len()), value))
}

/// Takes the next `count` bytes.
pub fn take(count: usize, input: &[u8]) -> (r: Result<(&[u8], &[u8]), DecodeError>)
    ensures
        outcome_view(r) == fixed_width(input@, count as nat, input@.take(count as int)),
{
    if input.len() < count {
        return Err(DecodeError::InsufficientBytes);
    }
    Ok((slice_subrange(input, count, input.len()), slice_subrange(input, 0, count)))
}

/// The result of matching the literal bytes `expected` at the start of `bytes`.
pub open spec fn literal(bytes: Seq<u8>, expected: Seq<u8>) -> Result<(Seq<u8>, Seq<u8>), DecodeError> {
    if bytes.len() < expected.len() {
        Err(DecodeError::InsufficientBytes)
    } else if bytes.take(expected.len() as int) != expected {
        Err(DecodeError::InvalidEncoding)
    } else {
        Ok((bytes.skip(expected.len() as int), expected))
    }
}

/// Matches the literal bytes `expected` at the start of the input and returns them.
pub fn tag<'a>(expected: &[u8], input: &'a [u8]) -> (r: Result<(&'a [u8], &'a [u8]), DecodeError>)
    ensures
        outcome_view(r) == literal(input@, expected@),
{
    let n = expected.len();
    if input.len() < n {
        return Err(DecodeError::InsufficientBytes);
    }
    let mut i: usize = 0;
    while i < n
        invariant
            n == expected@.len(),
            n <= input@.len(),
            i <= n,
            input@.take(i as int) == expected@.take(i as int),
        decreases n - i,
    {
        if input[i] != expected[i] {
            assert(input@.take(n as int)[i as int] != expected@[i as int]);
            return Err(DecodeError::InvalidEncoding);
        }
        assert(input@.take(i + 1) =~= input@.take(i as int).push(input@[i as int]));
        assert(expected@.take(i + 1) =~= expected@.take(i as int).push(expected@[i as int]));
        i += 1;
    }
    assert(expected@.take(n as int) =~= expected@);
    Ok((slice_subrange(input, n, input.len()), slice_subrange(input, 0, n)))
}

/// Reads a timestamp: a 64-bit signed count of nanoseconds since the Unix epoch, least
/// significant byte first. Every count is accepted; none is out of range.
pub fn timestamp(input: &[u8]) -> (r: Result<(&[u8], NaiveDateTime), DecodeError>)
    ensures
        outcome(r) == fixed_width(input@, 8, utc_from_nanos(le_signed(input@, 0, 8) as i64)),
{
    let (rest, unix_time) = le_i64(input)?;
    Ok((rest, datetime_from_nanos(unix_time)))
}

/// The length of `field` without the spaces (byte 0x20) at its end.
pub open spec fn content_len(field: Seq<u8>) -> nat
    decreases field.len(),
{
    if field.len() == 0 || field.last() != 0x20 {
        field.len()
    } else {
        content_len(field.drop_last())
    }
}

/// The text of a fixed-width, space-padded field: its characters without the trailing
/// spaces. A field that is not valid UTF-8 as a whole has the empty text.
pub open spec fn padded_text(field: Seq<u8>) -> Seq<char> {
    if valid_utf8(field) {
        decode_utf8(field.take(content_len(field) as int))
    } else {
        Seq::empty()
    }
}

/// Calls `core::str::from_utf8`, which checks that the bytes are valid UTF-8 and, if so,
/// returns them as a string slice without copying. The contract says over `vstd`'s model of
/// UTF-8 that the call succeeds exactly on valid input and that the slice then holds the
/// characters which the bytes encode.
#[verifier::external_body]
fn utf8_text<'a>(bytes: &'a [u8]) -> (r: Option<&'a str>)
    ensures
        r is Some <==> valid_utf8(bytes@),
        r matches Some(s) ==> s@ == decode_utf8(bytes@),
{
    match core::str::from_utf8(bytes) {
        Ok(s) => Some(s),
        Err(_) => None,
    }
}

/// Counts the bytes of `field` that precede its trailing spaces.
fn trimmed_len(field: &[u8]) -> (k: usize)
    ensures
        k == content_len(field@),
        k <= field@.len(),
        k < field@.len() ==> field@[k as int] == 0x20,
{
    let mut k: usize = field.len();
    assert(field@.take(k as int) =~= field@);
    while k > 0 && field[k - 1] == 0x20
        invariant
            k <= field@.len(),
            content_len(field@) == content_len(field@.take(k as int)),
            k < field@.len() ==> field@[k as int] == 0x20,
        decreases k,
    {
        assert(field@.take(k as int).drop_last() =~= field@.take(k - 1));
        k -= 1;
    }
    k
}

/// Reads a fixed-width text field of `length` bytes, padded on the right with spaces, and
/// returns its text without the trailing spaces; spaces inside the text stay. Text that is
/// not valid UTF-8 is not an error: such a field reads as the empty string.
pub fn iex_string(length: usize, input: &[u8]) -> (r: Result<(&[u8], &str), DecodeError>)
    ensures
        outcome_view(r) == fixed_width(
            input@,
            length as nat,
            padded_text(input@.take(length as int)),
        ),
{
    let (rest, field) = take(length, input)?;
    match utf8_text(field) {
        None => {
            proof {
                reveal_strlit("");
            }
            assert(""@ =~= Seq::<char>::empty());
            Ok((rest, ""))
        },
        Some(text) => {
            let k = trimmed_len(field);
            proof {
                decode_utf8_encode_utf8(field@);
                if k == field@.len() {
                    is_char_boundary_start_end_of_seq(field@);
                } else {
                    is_char_boundary_iff_not_is_continuation_byte(field@, k as int);
                }
                valid_utf8_split(field@, k as int);
            }
            let (head, _) = text.split_at(k);
            proof {
                encode_utf8_decode_utf8(head@);
            }
            Ok((rest, head))
        },
    }
}

/// A buffer shorter than a fixed-width field never yields a value: reading the field fails
/// with `InsufficientBytes`, whatever the buffer holds.
pub proof fn lemma_short_field_fails<T>(bytes: Seq<u8>, width: nat, value: T)
    requires
        bytes.len() < width,
    ensures
        fixed_width(bytes, width, value) == Err::<(Seq<u8>, T), DecodeError>(
            DecodeError::InsufficientBytes,
        ),
{
}

/// A buffer shorter than a literal fails with `InsufficientBytes`, also where the bytes it
/// holds differ from the literal.
pub proof fn lemma_short_literal_fails(bytes: Seq<u8>, expected: Seq<u8>)
    requires
        bytes.len() < expected.len(),
    ensures
        literal(bytes, expected) == Err::<(Seq<u8>, Seq<u8>), DecodeError>(
            DecodeError::InsufficientBytes,
        ),
{
}

/// `count` spaces.
pub open spec fn spaces(count: nat) -> Seq<u8> {
    Seq::new(count, |i: int| 0x20u8)
}

/// The characters that ASCII bytes stand for.
pub open spec fn ascii_text(bytes: Seq<u8>) -> Seq<char> {
    Seq::new(bytes.len(), |i: int| bytes[i] as char)
}

/// Whether every byte is an ASCII character.
pub open spec fn is_ascii_bytes(bytes: Seq<u8>) -> bool {
    forall|i: int| 0 <= i < bytes.len() ==> #[trigger] bytes[i] < 0x80
}

/// Trimming never lengthens a field.
pub proof fn lemma_content_len_bound(field: Seq<u8>)
    ensures
        content_len(field) <= field.len(),
    decreases field.len(),
{
    if field.len() > 0 && field.last() == 0x20 {
        lemma_content_len_bound(field.drop_last());
    }
}

/// Spaces appended to a field are trimmed with the spaces that it ends in.
pub proof fn lemma_content_len_padded(text: Seq<u8>, pad: nat)
    ensures
        content_len(text + spaces(pad)) == content_len(text),
    decreases pad,
{
    if pad == 0 {
        assert(text + spaces(pad) =~= text);
    } else {
        assert((text + spaces(pad)).drop_last() =~= text + spaces((pad - 1) as nat));
        lemma_content_len_padded(text, (pad - 1) as nat);
    }
}

/// ASCII bytes are valid UTF-8 and decode to the characters they stand for.
pub proof fn lemma_ascii_is_utf8(bytes: Seq<u8>)
    requires
        is_ascii_bytes(bytes),
    ensures
        valid_utf8(bytes),
        decode_utf8(bytes) == ascii_text(bytes),
{
    let chars = ascii_text(bytes);
    assert(is_ascii_chars(chars)) by {
        assert forall|i: int| 0 <= i < chars.len() implies '\0' <= #[trigger] chars[i]
            <= '\u{7f}' by {
            assert(bytes[i] < 0x80);
        }
    }
    is_ascii_chars_encode_utf8(chars);
    assert(encode_utf8(chars) =~= bytes) by {
        assert forall|i: int| 0 <= i < bytes.len() implies encode_utf8(chars)[i] == bytes[i] by {
            assert(chars[i] as u8 == encode_utf8(chars)[i]);
            assert(bytes[i] < 0x80);
        }
    }
    encode_utf8_valid_utf8(chars);
    encode_utf8_decode_utf8(chars);
}

/// A field of nothing but spaces reads as the empty text, whatever its width.
pub proof fn lemma_padded_text_of_spaces(width: nat)
    ensures
        padded_text(spaces(width)) == Seq::<char>::empty(),
{
    lemma_content_len_padded(Seq::<u8>::empty(), width);
    assert(Seq::<u8>::empty() + spaces(width) =~= spaces(width));
    assert(spaces(width).take(0) =~= Seq::<u8>::empty());
    assert(decode_utf8(Seq::<u8>::empty()) =~= Seq::<char>::empty());
}

/// ASCII text that is padded on the right with spaces reads as the text without the spaces
/// at its end: the padding goes, together with any spaces that the text itself ends in, and
/// the spaces inside the text stay. Text that does not end in a space reads as itself.
pub proof fn lemma_padded_text_trims(text: Seq<u8>, pad: nat)
    requires
        is_ascii_bytes(text),
    ensures
        padded_text(text + spaces(pad)) == ascii_text(text.take(content_len(text) as int)),
        text.len() == 0 || text.last() != 0x20 ==> padded_text(text + spaces(pad)) == ascii_text(
            text,
        ),
{
    let field = text + spaces(pad);
    let kept = text.take(content_len(text) as int);
    lemma_content_len_padded(text, pad);
    lemma_content_len_bound(text);
    assert(field.take(content_len(text) as int) =~= kept);
    assert(is_ascii_bytes(field)) by {
        assert forall|i: int| 0 <= i < field.len() implies #[trigger] field[i] < 0x80 by {
            if i < text.len() {
                assert(text[i] < 0x80);
            }
        }
    }
    assert(is_ascii_bytes(kept)) by {
        assert forall|i: int| 0 <= i < kept.len() implies #[trigger] kept[i] < 0x80 by {
            assert(text[i] < 0x80);
        }
    }
    lemma_ascii_is_utf8(field);
    lemma_ascii_is_utf8(kept);
    if text.len() == 0 || text.last() != 0x20 {
        assert(kept =~= text);
    }
}

} // verus!
