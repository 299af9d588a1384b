//! TOPS 1.6 messages: one type tag byte, then a body whose layout the tag fixes.

use crate::bits::{
    bit_at, bit_fields, bit_fields_spec, bits_value, layout_flags, layout_matches, layout_width,
    lemma_bit_at_skip, lemma_bits_value_skip, BitField,
};
use crate::time::utc_from_nanos;
use crate::error::{outcome, outcome_view, DecodeError};
use crate::utils::{
    fixed_width, iex_string, le_i64, le_signed, le_u32, le_unsigned, lemma_le_signed_skip,
    lemma_le_unsigned_skip, padded_text, tag, take, timestamp,
};
use chrono::NaiveDateTime;
use vstd::prelude::*;

verus! {

/// The market session in which a quote was published.
#[derive(Clone, Copy, Debug, PartialEq, Eq, Structural)]
pub enum MarketSession {
    Regular,
    OutOfHours,
}

/// A price as a fixed-point decimal with four digits after the decimal point: the price is
/// `ten_thousandths` divided by 10 000, exactly.
#[derive(Clone, Copy, Debug, PartialEq, Eq, Structural)]
pub struct Price {
    pub ten_thousandths: i64,
}

/// The best bid and offer for one symbol.
#[derive(Clone, Debug)]
pub struct QuoteUpdate {
    /// Whether the symbol can be traded; the wire carries the opposite flag, "unavailable".
    pub available: bool,
    pub market_session: MarketSession,
    pub timestamp: NaiveDateTime,
    /// The symbol without its padding; it may be empty.
    pub symbol: String,
    pub bid_size: u32,
    pub bid_price: Price,
    pub ask_size: u32,
    pub ask_price: Price,
}

/// A quote update with its symbol as a sequence of characters.
pub struct QuoteUpdateView {
    pub available: bool,
    pub market_session: MarketSession,
    pub timestamp: NaiveDateTime,
    pub symbol: Seq<char>,
    pub bid_size: u32,
    pub bid_price: Price,
    pub ask_size: u32,
    pub ask_price: Price,
}

impl View for QuoteUpdate {
    type V = QuoteUpdateView;

    open spec fn view(&self) -> QuoteUpdateView {
        QuoteUpdateView {
            available: self.available,
            market_session: self.market_session,
            timestamp: self.timestamp,
            symbol: self.symbol@,
            bid_size: self.bid_size,
            bid_price: self.bid_price,
            ask_size: self.ask_size,
            ask_price: self.ask_price,
        }
    }
}

/// The price that the 8 bytes from offset `at` hold.
pub open spec fn price_at(bytes: Seq<u8>, at: int) -> Price {
    Price { ten_thousandths: le_signed(bytes, at, 8) as i64 }
}

/// Reads a price: a 64-bit signed count of ten-thousandths, least significant byte first.
pub fn price(input: &[u8]) -> (r: Result<(&[u8], Price), DecodeError>)
    ensures
        outcome(r) == fixed_width(input@, 8, price_at(input@, 0)),
{
    let (rest, int_price) = le_i64(input)?;
    Ok((rest, Price { ten_thousandths: int_price }))
}

/// The type tag of a quote update.
pub const QUOTE_UPDATE_TAG: u8 = 0x51;

/// The length in bytes of a quote update, tag included.
pub const QUOTE_UPDATE_LEN: usize = 42;

/// The quote update that the first 42 bytes of `bytes` hold. After the tag come one byte of
/// flags (from its most significant bit: "unavailable", "out of hours", six reserved bits),
/// the timestamp, the symbol in 8 bytes, the bid size and bid price, and then the ask price
/// and ask size, in that order.
pub open spec fn quote_update_record(bytes: Seq<u8>) -> QuoteUpdateView {
    QuoteUpdateView {
        available: !bit_at(bytes, 8),
        market_session: if bit_at(bytes, 9) {
            MarketSession::OutOfHours
        } else {
            MarketSession::Regular
        },
        timestamp: utc_from_nanos(le_signed(bytes, 2, 8) as i64),
        symbol: padded_text(bytes.subrange(10, 18)),
        bid_size: le_unsigned(bytes, 18, 4) as u32,
        bid_price: price_at(bytes, 22),
        ask_price: price_at(bytes, 30),
        ask_size: le_unsigned(bytes, 38, 4) as u32,
    }
}

/// The result of reading a quote update from the start of `bytes`. The fields are read in
/// order and the first one that fails decides the error.
pub open spec fn quote_update_spec(bytes: Seq<u8>) -> Result<
    (Seq<u8>, QuoteUpdateView),
    DecodeError,
> {
    if bytes.len() < 1 {
        Err(DecodeError::InsufficientBytes)
    } else if bytes[0] != QUOTE_UPDATE_TAG {
        Err(DecodeError::InvalidEncoding)
    } else if bytes.len() < 2 {
        Err(DecodeError::InsufficientBytes)
    } else if bits_value(bytes, 10, 6) != 0 {
        Err(DecodeError::InvalidEncoding)
    } else if bytes.len() < QUOTE_UPDATE_LEN {
        Err(DecodeError::InsufficientBytes)
    } else {
        Ok((bytes.skip(QUOTE_UPDATE_LEN as int), quote_update_record(bytes)))
    }
}

/// The layout of a quote update's flags byte.
pub open spec fn quote_flags_layout() -> Seq<BitField> {
    seq![BitField::Flag, BitField::Flag, BitField::Reserved { width: 6 }]
}

/// What reading the flags byte of a quote update amounts to.
proof fn lemma_quote_flags(bytes: Seq<u8>)
    requires
        bytes.len() >= 1,
    ensures
        bit_fields_spec(bytes, quote_flags_layout()) == if bits_value(bytes, 2, 6) != 0 {
            Err::<(Seq<u8>, Seq<bool>), DecodeError>(DecodeError::InvalidEncoding)
        } else {
            Ok((bytes.skip(1), seq![bit_at(bytes, 0), bit_at(bytes, 1)]))
        },
{
    let l3 = quote_flags_layout();
    let l2 = seq![BitField::Flag, BitField::Flag];
    let l1 = seq![BitField::Flag];
    let l0 = Seq::<BitField>::empty();
    assert(l3.drop_last() =~= l2);
    assert(l2.drop_last() =~= l1);
    assert(l1.drop_last() =~= l0);
    assert(layout_width(l0) == 0);
    assert(layout_width(l1) == 1);
    assert(layout_width(l2) == 2);
    assert(layout_width(l3) == 8);
    assert(layout_matches(bytes, l0));
    assert(layout_matches(bytes, l1));
    assert(layout_matches(bytes, l2));
    assert(layout_matches(bytes, l3) == (bits_value(bytes, 2, 6) == 0));
    assert(layout_flags(bytes, l0) =~= Seq::<bool>::empty());
    assert(layout_flags(bytes, l1) =~= seq![bit_at(bytes, 0)]);
    assert(layout_flags(bytes, l2) =~= seq![bit_at(bytes, 0), bit_at(bytes, 1)]);
    assert(layout_flags(bytes, l3) =~= seq![bit_at(bytes, 0), bit_at(bytes, 1)]);
}

/// Reads a quote update, tag byte first, and returns it with the bytes that follow it.
pub fn quote_update(input: &[u8]) -> (r: Result<(&[u8], QuoteUpdate), DecodeError>)
    ensures
        outcome_view(r) == quote_update_spec(input@),
{
    let expected: [u8; 1] = [QUOTE_UPDATE_TAG];
    assert(input@.len() >= 1 && input@[0] == QUOTE_UPDATE_TAG ==> input@.take(1)
        =~= expected@);
    assert(input@.len() >= 1 && input@.take(1) == expected@ ==> input@.take(1)[0]
        == QUOTE_UPDATE_TAG);
    let (input1, _) = tag(expected.as_slice(), input)?;
    let layout: [BitField; 3] = [BitField::Flag, BitField::Flag, BitField::Reserved { width: 6 }];
    proof {
        assert(layout@ =~= quote_flags_layout());
        if input1@.len() >= 1 {
            lemma_quote_flags(input1@);
            lemma_bits_value_skip(input@, 1, 2, 6);
            lemma_bit_at_skip(input@, 1, 0);
            lemma_bit_at_skip(input@, 1, 1);
        } else {
            assert(layout_width(quote_flags_layout()) >= 1);
        }
    }
    let (input2, flags) = bit_fields(layout.as_slice(), input1)?;
    assert(input2@ =~= input@.skip(2));
    let unavailable = flags[0];
    let out_of_hours = flags[1];
    let (input3, timestamp) = timestamp(input2)?;
    assert(input3@ =~= input@.skip(10));
    let (input4, symbol) = iex_string(8, input3)?;
    assert(input4@ =~= input@.skip(18));
    let (input5, bid_size) = le_u32(input4)?;
    assert(input5@ =~= input@.skip(22));
    let (input6, bid_price) = price(input5)?;
    assert(input6@ =~= input@.skip(30));
    let (input7, ask_price) = price(input6)?;
    assert(input7@ =~= input@.skip(38));
    let (input8, ask_size) = le_u32(input7)?;
    assert(input8@ =~= input@.skip(42));
    proof {
        lemma_le_signed_skip(input@, 2, 0, 8);
        assert(input3@.take(8) =~= input@.subrange(10, 18));
        lemma_le_unsigned_skip(input@, 18, 0, 4);
        lemma_le_signed_skip(input@, 22, 0, 8);
        lemma_le_signed_skip(input@, 30, 0, 8);
        lemma_le_unsigned_skip(input@, 38, 0, 4);
    }
    Ok(
        (
            input8,
            QuoteUpdate {
                available: !unavailable,
                market_session: if out_of_hours {
                    MarketSession::OutOfHours
                } else {
                    MarketSession::Regular
                },
                timestamp,
                symbol: symbol.to_owned(),
                bid_size,
                bid_price,
                ask_size,
                ask_price,
            },
        ),
    )
}

/// One TOPS 1.6 message. Only a quote update carries decoded fields; the bodies of the
/// other messages are checked for their length and dropped.
#[derive(Clone, Debug)]
pub enum Tops1_6Message {
    SystemEvent,
    SecurityDirectory,
    TradingStatus,
    RetailLiquidityIndicator,
    OperationalHaltStatus,
    ShortSalePriceTestStatus,
    QuoteUpdate(QuoteUpdate),
    TradeReport,
    OfficialPrice,
    TradeBreak,
    AuctionInformation,
}

/// A message with the symbol of its quote update as a sequence of characters.
pub enum Tops1_6MessageView {
    SystemEvent,
    SecurityDirectory,
    TradingStatus,
    RetailLiquidityIndicator,
    OperationalHaltStatus,
    ShortSalePriceTestStatus,
    QuoteUpdate(QuoteUpdateView),
    TradeReport,
    OfficialPrice,
    TradeBreak,
    AuctionInformation,
}

impl View for Tops1_6Message {
    type V = Tops1_6MessageView;

    open spec fn view(&self) -> Tops1_6MessageView {
        match self {
            Tops1_6Message::SystemEvent => Tops1_6MessageView::SystemEvent,
            Tops1_6Message::SecurityDirectory => Tops1_6MessageView::SecurityDirectory,
            Tops1_6Message::TradingStatus => Tops1_6MessageView::TradingStatus,
            Tops1_6Message::RetailLiquidityIndicator => Tops1_6MessageView::RetailLiquidityIndicator,
            Tops1_6Message::OperationalHaltStatus => Tops1_6MessageView::OperationalHaltStatus,
            Tops1_6Message::ShortSalePriceTestStatus => Tops1_6MessageView::ShortSalePriceTestStatus,
            Tops1_6Message::QuoteUpdate(quote) => Tops1_6MessageView::QuoteUpdate(quote@),
            Tops1_6Message::TradeReport => Tops1_6MessageView::TradeReport,
            Tops1_6Message::OfficialPrice => Tops1_6MessageView::OfficialPrice,
            Tops1_6Message::TradeBreak => Tops1_6MessageView::TradeBreak,
            Tops1_6Message::AuctionInformation => Tops1_6MessageView::AuctionInformation,
        }
    }
}

/// For the tag of a message whose body is dropped: the length of that body in bytes and the
/// message it stands for. `None` for every other byte, the tag of a quote update included.
pub open spec fn placeholder_of_tag(tag: u8) -> Option<(nat, Tops1_6MessageView)> {
    if tag == 0x53 {
        Some((9, Tops1_6MessageView::SystemEvent))
    } else if tag == 0x44 {
        Some((30, Tops1_6MessageView::SecurityDirectory))
    } else if tag == 0x48 {
        Some((21, Tops1_6MessageView::TradingStatus))
    } else if tag == 0x49 {
        Some((17, Tops1_6MessageView::RetailLiquidityIndicator))
    } else if tag == 0x4f {
        Some((17, Tops1_6MessageView::OperationalHaltStatus))
    } else if tag == 0x50 {
        Some((18, Tops1_6MessageView::ShortSalePriceTestStatus))
    } else if tag == 0x54 {
        Some((37, Tops1_6MessageView::TradeReport))
    } else if tag == 0x58 {
        Some((25, Tops1_6MessageView::OfficialPrice))
    } else if tag == 0x42 {
        Some((37, Tops1_6MessageView::TradeBreak))
    } else if tag == 0x41 {
        Some((79, Tops1_6MessageView::AuctionInformation))
    } else {
        None
    }
}

/// Looks up the tag of a message whose body is dropped.
fn placeholder(tag: u8) -> (r: Option<(usize, Tops1_6Message)>)
    ensures
        match (r, placeholder_of_tag(tag)) {
            (Some((len, message)), Some((spec_len, spec_message))) => len == spec_len && message@
                == spec_message,
            (None, None) => true,
            _ => false,
        },
{
    match tag {
        0x53 => Some((9, Tops1_6Message::SystemEvent)),
        0x44 => Some((30, Tops1_6Message::SecurityDirectory)),
        0x48 => Some((21, Tops1_6Message::TradingStatus)),
        0x49 => Some((17, Tops1_6Message::RetailLiquidityIndicator)),
        0x4f => Some((17, Tops1_6Message::OperationalHaltStatus)),
        0x50 => Some((18, Tops1_6Message::ShortSalePriceTestStatus)),
        0x54 => Some((37, Tops1_6Message::TradeReport)),
        0x58 => Some((25, Tops1_6Message::OfficialPrice)),
        0x42 => Some((37, Tops1_6Message::TradeBreak)),
        0x41 => Some((79, Tops1_6Message::AuctionInformation)),
        _ => None,
    }
}

/// The result of decoding the whole of `bytes` as one message. The first byte selects the
/// message; a byte that is no known tag is an error, and so is a slice that is shorter or
/// longer than the message it announces.
pub open spec fn tops_1_6_message_spec(bytes: Seq<u8>) -> Result<
    (Seq<u8>, Tops1_6MessageView),
    DecodeError,
> {
    if bytes.len() < 1 {
        Err(DecodeError::InsufficientBytes)
    } else if bytes[0] == QUOTE_UPDATE_TAG {
        match quote_update_spec(bytes) {
            Err(e) => Err(e),
            Ok((rest, quote)) => if rest.len() > 0 {
                Err(DecodeError::TrailingBytes)
            } else {
                Ok((rest, Tops1_6MessageView::QuoteUpdate(quote)))
            },
        }
    } else {
        match placeholder_of_tag(bytes[0]) {
            None => Err(DecodeError::UnknownMessageType),
            Some((body_len, message)) => if bytes.len() < 1 + body_len {
                Err(DecodeError::InsufficientBytes)
            } else if bytes.len() > 1 + body_len {
                Err(DecodeError::TrailingBytes)
            } else {
                Ok((bytes.skip(1 + body_len as int), message))
            },
        }
    }
}

/// Decodes one message slice in full. On success no bytes are left over: the first component
/// of the result is empty.
pub fn tops_1_6_message(input: &[u8]) -> (r: Result<(&[u8], Tops1_6Message), DecodeError>)
    ensures
        outcome_view(r) == tops_1_6_message_spec(input@),
        r matches Ok((rest, _)) ==> rest@.len() == 0,
{
    if input.len() < 1 {
        return Err(DecodeError::InsufficientBytes);
    }
    let (rest, message) = if input[0] == QUOTE_UPDATE_TAG {
        let (rest, quote) = quote_update(input)?;
        (rest, Tops1_6Message::QuoteUpdate(quote))
    } else {
        match placeholder(input[0]) {
            None => {
                return Err(DecodeError::UnknownMessageType);
            },
            Some((body_len, message)) => {
                let (body, _) = take(1, input)?;
                let (rest, _) = take(body_len, body)?;
                assert(rest@ =~= input@.skip(1 + body_len as int));
                (rest, message)
            },
        }
    };
    if rest.len() > 0 {
        return Err(DecodeError::TrailingBytes);
    }
    Ok((rest, message))
}

/// Decoding a message is a function of the bytes alone: whatever two decodes of the same
/// bytes return, they return the same outcome, be it the same error or messages with the
/// same contents.
pub proof fn lemma_message_decode_repeats(
    first: Result<(&[u8], Tops1_6Message), DecodeError>,
    second: Result<(&[u8], Tops1_6Message), DecodeError>,
    bytes: Seq<u8>,
)
    requires
        outcome_view(first) == tops_1_6_message_spec(bytes),
        outcome_view(second) == tops_1_6_message_spec(bytes),
    ensures
        outcome_view(first) == outcome_view(second),
{
}

} // verus!
