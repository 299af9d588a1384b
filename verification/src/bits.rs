//! Bit-packed fields: runs of bits, most significant first, that fill whole bytes.

use crate::error::{outcome_view, DecodeError};
use vstd::prelude::*;
use vstd::slice::slice_subrange;

verus! {

/// One field of a bit-packed layout.
#[derive(Clone, Copy, Debug, PartialEq, Eq)]
pub enum BitField {
    /// One bit, read as a boolean.
    Flag,
    /// `width` bits that must all be zero.
    Reserved { width: u8 },
    /// `width` bits that must spell `value`, most significant bit first.
    Literal { width: u8, value: u64 },
}

impl BitField {
    /// The number of bits the field occupies.
    pub open spec fn width(self) -> nat {
        match self {
            BitField::Flag => 1,
            BitField::Reserved { width } => width as nat,
            BitField::Literal { width, .. } => width as nat,
        }
    }

    /// The number of bits the field occupies.
    pub fn bit_width(&self) -> (w: u8)
        ensures
            w == self.width(),
    {
        match self {
            BitField::Flag => 1,
            BitField::Reserved { width } => *width,
            BitField::Literal { width, .. } => *width,
        }
    }
}

/// Bit `k` of a byte, counted from its most significant bit.
pub open spec fn byte_bit(byte: u8, k: u8) -> bool {
    (byte >> ((7 - k) as u8)) & 1 == 1
}

/// Bit `i` of a byte string: bit 0 is the most significant bit of the first byte.
pub open spec fn bit_at(bytes: Seq<u8>, i: int) -> bool {
    byte_bit(bytes[i / 8], (i % 8) as u8)
}

/// The number that the `width` bits from bit `start` spell, most significant bit first.
pub open spec fn bits_value(bytes: Seq<u8>, start: int, width: nat) -> nat
    decreases width,
{
    if width == 0 {
        0
    } else {
        2 * bits_value(bytes, start, (width - 1) as nat) + if bit_at(bytes, start + width - 1) {
            1nat
        } else {
            0nat
        }
    }
}

/// Bit `i` after `k` skipped bytes is bit `8 * k + i` of the whole.
pub proof fn lemma_bit_at_skip(bytes: Seq<u8>, k: int, i: int)
    requires
        0 <= k,
        0 <= i,
        8 * k + i < 8 * bytes.len(),
    ensures
        bit_at(bytes.skip(k), i) == bit_at(bytes, 8 * k + i),
{
    assert((8 * k + i) / 8 == k + i / 8);
    assert((8 * k + i) % 8 == i % 8);
}

/// The bits from bit `start` after `k` skipped bytes are the bits from bit `8 * k + start`
/// of the whole.
pub proof fn lemma_bits_value_skip(bytes: Seq<u8>, k: int, start: int, width: nat)
    requires
        0 <= k,
        0 <= start,
        8 * k + start + width <= 8 * bytes.len(),
    ensures
        bits_value(bytes.skip(k), start, width) == bits_value(bytes, 8 * k + start, width),
    decreases width,
{
    if width > 0 {
        lemma_bits_value_skip(bytes, k, start, (width - 1) as nat);
        lemma_bit_at_skip(bytes, k, start + width - 1);
    }
}

/// The number of bits that a layout occupies.
pub open spec fn layout_width(layout: Seq<BitField>) -> nat
    decreases layout.len(),
{
    if layout.len() == 0 {
        0
    } else {
        layout_width(layout.drop_last()) + layout.last().width()
    }
}

/// Whether the bits from bit `start` satisfy `field`: a flag always does, reserved bits do
/// when they are all zero, and a literal does when the bits spell its value.
pub open spec fn field_matches(bytes: Seq<u8>, start: int, field: BitField) -> bool {
    match field {
        BitField::Flag => true,
        BitField::Reserved { width } => bits_value(bytes, start, width as nat) == 0,
        BitField::Literal { width, value } => bits_value(bytes, start, width as nat) == value,
    }
}

/// Whether every field of the layout, laid out from bit 0 on, is satisfied.
pub open spec fn layout_matches(bytes: Seq<u8>, layout: Seq<BitField>) -> bool
    decreases layout.len(),
{
    layout.len() > 0 ==> layout_matches(bytes, layout.drop_last()) && field_matches(
        bytes,
        layout_width(layout.drop_last()) as int,
        layout.last(),
    )
}

/// The values of the layout's flags, in the order of the layout.
pub open spec fn layout_flags(bytes: Seq<u8>, layout: Seq<BitField>) -> Seq<bool>
    decreases layout.len(),
{
    if layout.len() == 0 {
        Seq::empty()
    } else {
        let before = layout_flags(bytes, layout.drop_last());
        match layout.last() {
            BitField::Flag => before.push(bit_at(bytes, layout_width(layout.drop_last()) as int)),
            _ => before,
        }
    }
}

/// The number of whole bytes that a layout occupies: a layout that ends inside a byte
/// takes the rest of that byte too.
pub open spec fn layout_bytes(layout: Seq<BitField>) -> nat {
    (layout_width(layout) + 7) / 8
}

/// The result of reading the bit fields of `layout` from the start of `bytes`.
pub open spec fn bit_fields_spec(bytes: Seq<u8>, layout: Seq<BitField>) -> Result<
    (Seq<u8>, Seq<bool>),
    DecodeError,
> {
    if bytes.len() < layout_bytes(layout) {
        Err(DecodeError::InsufficientBytes)
    } else if !layout_matches(bytes, layout) {
        Err(DecodeError::InvalidEncoding)
    } else {
        Ok((bytes.skip(layout_bytes(layout) as int), layout_flags(bytes, layout)))
    }
}

/// A buffer shorter than a layout never yields flags: the read fails with
/// `InsufficientBytes`, whatever the buffer holds.
pub proof fn lemma_short_buffer_fails(bytes: Seq<u8>, layout: Seq<BitField>)
    requires
        bytes.len() < layout_bytes(layout),
    ensures
        bit_fields_spec(bytes, layout) == Err::<(Seq<u8>, Seq<bool>), DecodeError>(
            DecodeError::InsufficientBytes,
        ),
{
}

/// A longer prefix of a layout is at least as wide as a shorter one.
pub proof fn lemma_layout_width_grows(layout: Seq<BitField>, i: int, j: int)
    requires
        0 <= i <= j <= layout.len(),
    ensures
        layout_width(layout.take(i)) <= layout_width(layout.take(j)),
    decreases j - i,
{
    if i < j {
        lemma_layout_width_grows(layout, i, j - 1);
        assert(layout.take(j).drop_last() =~= layout.take(j - 1));
    }
}

/// Bytes that satisfy a layout satisfy each of its prefixes.
pub proof fn lemma_layout_matches_prefix(bytes: Seq<u8>, layout: Seq<BitField>, i: int)
    requires
        0 <= i <= layout.len(),
        layout_matches(bytes, layout),
    ensures
        layout_matches(bytes, layout.take(i)),
    decreases layout.len(),
{
    if i < layout.len() {
        lemma_layout_matches_prefix(bytes, layout.drop_last(), i);
        assert(layout.drop_last().take(i) =~= layout.take(i));
    } else {
        assert(layout.take(i) =~= layout);
    }
}

/// Adds up the widths of a layout's fields.
fn total_width(layout: &[BitField]) -> (total: u128)
    ensures
        total == layout_width(layout@),
        total <= 255 * usize::MAX,
{
    let mut total: u128 = 0;
    let mut i: usize = 0;
    assert(layout@.take(0) =~= Seq::<BitField>::empty());
    while i < layout.len()
        invariant
            i <= layout@.len(),
            total == layout_width(layout@.take(i as int)),
            total <= 255 * i,
        decreases layout@.len() - i,
    {
        assert(layout@.take(i + 1).drop_last() =~= layout@.take(i as int));
        total += layout[i].bit_width() as u128;
        i += 1;
    }
    assert(layout@.take(i as int) =~= layout@);
    total
}

/// Reads bit `pos` of the input.
fn read_bit(input: &[u8], pos: u128) -> (bit: bool)
    requires
        pos < 8 * input@.len(),
    ensures
        bit == bit_at(input@, pos as int),
{
    let byte: u8 = input[(pos / 8) as usize];
    let k: u8 = (pos % 8) as u8;
    (byte >> (7 - k)) & 1 == 1
}

/// Tells whether the `width` bits from bit `start` spell `value`.
fn bits_equal(input: &[u8], start: u128, width: u8, value: u64) -> (same: bool)
    requires
        start + width <= 8 * input@.len(),
    ensures
        same == (bits_value(input@, start as int, width as nat) == value),
{
    let len: usize = input.len();
    let mut left: u8 = width;
    let mut rest: u64 = value;
    while left > 0
        invariant
            left <= width,
            len == input@.len(),
            start + width <= 8 * input@.len(),
            (bits_value(input@, start as int, width as nat) == value) <==> (bits_value(
                input@,
                start as int,
                left as nat,
            ) == rest),
        decreases left,
    {
        let bit = read_bit(input, start + (left - 1) as u128);
        if bit != (rest % 2 == 1) {
            return false;
        }
        rest = rest / 2;
        left -= 1;
    }
    rest == 0
}

/// Reads the bit fields of `layout`, which are packed from the most significant bit of the
/// first byte on, and returns the values of its flags in order. The read takes whole bytes:
/// a layout that ends inside a byte consumes that byte. A buffer shorter than the layout
/// fails with `InsufficientBytes` whatever it holds; otherwise reserved bits that are not
/// zero or a literal that does not match fail with `InvalidEncoding`.
pub fn bit_fields<'a>(layout: &[BitField], input: &'a [u8]) -> (r: Result<
    (&'a [u8], Vec<bool>),
    DecodeError,
>)
    ensures
        outcome_view(r) == bit_fields_spec(input@, layout@),
{
    let total: u128 = total_width(layout);
    let needed: u128 = (total + 7) / 8;
    if (input.len() as u128) < needed {
        return Err(DecodeError::InsufficientBytes);
    }
    let mut flags: Vec<bool> = Vec::new();
    let mut pos: u128 = 0;
    let mut i: usize = 0;
    assert(layout@.take(0) =~= Seq::<BitField>::empty());
    while i < layout.len()
        invariant
            i <= layout@.len(),
            total == layout_width(layout@),
            total <= 8 * input@.len(),
            pos == layout_width(layout@.take(i as int)),
            layout_matches(input@, layout@.take(i as int)),
            flags@ == layout_flags(input@, layout@.take(i as int)),
        decreases layout@.len() - i,
    {
        proof {
            assert(layout@.take(i + 1).drop_last() =~= layout@.take(i as int));
            lemma_layout_width_grows(layout@, i + 1, layout@.len() as int);
            assert(layout@.take(layout@.len() as int) =~= layout@);
        }
        let field = layout[i];
        let ok = match field {
            BitField::Flag => {
                flags.push(read_bit(input, pos));
                true
            },
            BitField::Reserved { width } => bits_equal(input, pos, width, 0),
            BitField::Literal { width, value } => bits_equal(input, pos, width, value),
        };
        if !ok {
            proof {
                if layout_matches(input@, layout@) {
                    lemma_layout_matches_prefix(input@, layout@, i + 1);
                }
            }
            return Err(DecodeError::InvalidEncoding);
        }
        pos += field.bit_width() as u128;
        i += 1;
    }
    assert(layout@.take(i as int) =~= layout@);
    Ok((slice_subrange(input, needed as usize, input.len()), flags))
}

} // verus!
