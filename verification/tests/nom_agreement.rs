use iex_parser::bits::{bit_fields, BitField};
use iex_parser::error::DecodeError;
use iex_parser::iex_tp::iex_tp_1_messages;
use iex_parser::utils::{le_i64, le_u16, le_u32, tag, take};
use nom::error::Error;
use nom::IResult;

fn samples() -> Vec<Vec<u8>> {
    let mut all: Vec<Vec<u8>> = Vec::new();
    let mut seed: u32 = 0x2545_F491;
    for len in 0..24usize {
        for _ in 0..8 {
            let mut bytes = Vec::with_capacity(len);
            for _ in 0..len {
                seed = seed.wrapping_mul(1_664_525).wrapping_add(1_013_904_223);
                bytes.push((seed >> 24) as u8);
            }
            all.push(bytes);
        }
    }
    all
}

fn nom_messages(count: usize, input: &[u8]) -> IResult<&[u8], Vec<&[u8]>> {
    nom::multi::count(nom::multi::length_data(nom::number::complete::le_u16), count)(input)
}

fn nom_flags(input: &[u8]) -> IResult<&[u8], (bool, bool, u8)> {
    nom::bits::bits::<_, _, Error<(&[u8], usize)>, _, _>(nom::sequence::tuple((
        nom::bits::complete::bool,
        nom::bits::complete::bool,
        nom::bits::complete::tag(0u8, 6usize),
    )))(input)
}

#[test]
fn integers_agree_with_nom() {
    for bytes in samples() {
        let input: &[u8] = &bytes;
        let theirs: IResult<&[u8], u16> = nom::number::complete::le_u16(input);
        assert_eq!(le_u16(input).ok(), theirs.ok());
        let theirs: IResult<&[u8], u32> = nom::number::complete::le_u32(input);
        assert_eq!(le_u32(input).ok(), theirs.ok());
        let theirs: IResult<&[u8], i64> = nom::number::complete::le_i64(input);
        assert_eq!(le_i64(input).ok(), theirs.ok());
    }
}

#[test]
fn take_and_tag_agree_with_nom() {
    for bytes in samples() {
        let input: &[u8] = &bytes;
        for count in 0..26usize {
            let theirs: IResult<&[u8], &[u8]> = nom::bytes::complete::take(count)(input);
            assert_eq!(take(count, input).ok(), theirs.ok());
        }
        let theirs: IResult<&[u8], &[u8]> = nom::bytes::complete::tag([1u8, 0u8])(input);
        assert_eq!(tag(&[1, 0], input).ok(), theirs.ok());
    }
    let theirs: IResult<&[u8], &[u8]> = nom::bytes::complete::tag([1u8, 0u8])(&[1, 0, 5][..]);
    assert_eq!(tag(&[1, 0], &[1, 0, 5]).ok(), theirs.ok());
    assert!(tag(&[1, 0], &[1, 0, 5]).is_ok());
}

#[test]
fn flags_byte_agrees_with_nom() {
    let layout = [BitField::Flag, BitField::Flag, BitField::Reserved { width: 6 }];
    for byte in 0..=255u8 {
        let input = [byte, 0x5A];
        let ours = bit_fields(&layout, &input);
        match nom_flags(&input) {
            Ok((rest, (first, second, _))) => assert_eq!(ours, Ok((rest, vec![first, second]))),
            Err(_) => assert_eq!(ours, Err(DecodeError::InvalidEncoding)),
        }
    }
    assert!(nom_flags(&[]).is_err());
    assert_eq!(bit_fields(&layout, &[]), Err(DecodeError::InsufficientBytes));
}

#[test]
fn framed_messages_agree_with_nom() {
    let mut inputs = samples();
    inputs.push(vec![1, 0, 0xAA, 2, 0, 0xBB, 0xCC, 0, 0, 0xDD]);
    inputs.push(vec![3, 0, 1, 2, 3, 0, 0, 1, 0, 9, 4, 0]);
    for bytes in inputs {
        let input: &[u8] = &bytes;
        for count in 0..5u16 {
            assert_eq!(
                iex_tp_1_messages(count, input).ok(),
                nom_messages(count as usize, input).ok()
            );
        }
    }
}
