use chrono::DateTime;
use iex_parser::error::DecodeError;
use iex_parser::tops::{
    price, quote_update, tops_1_6_message, MarketSession, Price, QuoteUpdate, Tops1_6Message,
};

fn to_f64(price: Price) -> f64 {
    (price.ten_thousandths as f64) * 1e-4
}

fn ulps_apart(a: f64, b: f64) -> u64 {
    (a.to_bits() as i64 - b.to_bits() as i64).unsigned_abs()
}

const QUOTE: [u8; 42] = [
    0x51, 0x00, 0xAC, 0x63, 0xC0, 0x20, 0x96, 0x86, 0x6D, 0x14, 0x5A, 0x49, 0x45, 0x58, 0x54, 0x20,
    0x20, 0x20, 0xE4, 0x25, 0x00, 0x00, 0x24, 0x1D, 0x0F, 0x00, 0x00, 0x00, 0x00, 0x00, 0xEC, 0x1D,
    0x0F, 0x00, 0x00, 0x00, 0x00, 0x00, 0xE8, 0x03, 0x00, 0x00,
];

#[test]
fn quote_update_example() {
    let input: [u8; 42] = [
        0x51, 0x00, 0xAC, 0x63, 0xC0, 0x20, 0x96, 0x86, 0x6D, 0x14, 0x5A, 0x49, 0x45, 0x58, 0x54,
        0x20, 0x20, 0x20, 0xE4, 0x25, 0x00, 0x00, 0x24, 0x1D, 0x0F, 0x00, 0x00, 0x00, 0x00, 0x00,
        0xEC, 0x1D, 0x0F, 0x00, 0x00, 0x00, 0x00, 0x00, 0xE8, 0x03, 0x00, 0x00,
    ];
    let result = tops_1_6_message(&input).unwrap();

    assert!(matches!(
        result,
        (
            [],
            Tops1_6Message::QuoteUpdate(QuoteUpdate {
                available: true,
                market_session: MarketSession::Regular,
                timestamp: _,
                symbol: _,
                bid_size: 9700,
                bid_price: _,
                ask_size: 1000,
                ask_price: _,
            })
        )
    ));

    if let Tops1_6Message::QuoteUpdate(inner_result) = result.1 {
        assert_eq!(inner_result.symbol, "ZIEXT");

        assert_eq!(
            inner_result.timestamp.and_utc(),
            DateTime::from_timestamp_nanos(1471980632572715948)
        );

        assert!(ulps_apart(to_f64(inner_result.bid_price), 99.05) <= 5);
        assert!(ulps_apart(to_f64(inner_result.ask_price), 99.07) <= 5);
        assert_eq!(inner_result.bid_price, Price { ten_thousandths: 990500 });
        assert_eq!(inner_result.ask_price, Price { ten_thousandths: 990700 });
    } else {
        unreachable!()
    }
}

#[test]
fn quote_with_set_flags() {
    let input: [u8; 42] = [
        81, 192, 130, 69, 230, 110, 149, 21, 218, 23, 65, 72, 73, 32, 32, 32, 32, 32, 0, 0, 0, 0,
        0, 0, 0, 0, 0, 0, 0, 0, 0, 0, 0, 0, 0, 0, 0, 0, 0, 0, 0, 0,
    ];

    let (rest, message) = tops_1_6_message(&input).unwrap();
    assert!(rest.is_empty());
    if let Tops1_6Message::QuoteUpdate(quote) = message {
        assert!(!quote.available);
        assert_eq!(quote.market_session, MarketSession::OutOfHours);
        assert_eq!(quote.symbol, "AHI");
        assert_eq!(quote.bid_size, 0);
        assert_eq!(quote.ask_size, 0);
        assert_eq!(quote.bid_price, Price { ten_thousandths: 0 });
        assert_eq!(quote.ask_price, Price { ten_thousandths: 0 });
    } else {
        unreachable!()
    }
}

#[test]
fn system_event_message() {
    let input: [u8; 10] = [83, 79, 201, 234, 221, 110, 149, 21, 218, 23];

    let (rest, message) = tops_1_6_message(&input).unwrap();
    assert!(rest.is_empty());
    assert!(matches!(message, Tops1_6Message::SystemEvent));
}

#[test]
fn each_flag_is_read_from_its_own_bit() {
    let mut input = QUOTE;
    input[1] = 0x80;
    let (_, quote) = quote_update(&input).unwrap();
    assert!(!quote.available);
    assert_eq!(quote.market_session, MarketSession::Regular);
    input[1] = 0x40;
    let (_, quote) = quote_update(&input).unwrap();
    assert!(quote.available);
    assert_eq!(quote.market_session, MarketSession::OutOfHours);
}

#[test]
fn reserved_flag_bits_must_be_zero() {
    for bit in 0..6u8 {
        let mut input = QUOTE;
        input[1] = 1 << bit;
        assert_eq!(tops_1_6_message(&input).unwrap_err(), DecodeError::InvalidEncoding);
        input[1] = 0xC0 | (1 << bit);
        assert_eq!(quote_update(&input).unwrap_err(), DecodeError::InvalidEncoding);
    }
}

#[test]
fn bid_is_size_then_price_and_ask_is_price_then_size() {
    let mut input = QUOTE;
    input[18..22].copy_from_slice(&1u32.to_le_bytes());
    input[22..30].copy_from_slice(&(-2i64).to_le_bytes());
    input[30..38].copy_from_slice(&3i64.to_le_bytes());
    input[38..42].copy_from_slice(&4u32.to_le_bytes());
    let (_, quote) = quote_update(&input).unwrap();
    assert_eq!(quote.bid_size, 1);
    assert_eq!(quote.bid_price, Price { ten_thousandths: -2 });
    assert_eq!(quote.ask_price, Price { ten_thousandths: 3 });
    assert_eq!(quote.ask_size, 4);
}

#[test]
fn quote_update_returns_what_follows() {
    let mut input = QUOTE.to_vec();
    input.extend_from_slice(&[7, 8, 9]);
    let (rest, quote) = quote_update(&input).unwrap();
    assert_eq!(rest, &[7, 8, 9]);
    assert_eq!(quote.symbol, "ZIEXT");
    assert_eq!(tops_1_6_message(&input).unwrap_err(), DecodeError::TrailingBytes);
}

#[test]
fn quote_update_fails_field_by_field() {
    assert_eq!(quote_update(&[]).unwrap_err(), DecodeError::InsufficientBytes);
    assert_eq!(quote_update(&[0x53, 0]).unwrap_err(), DecodeError::InvalidEncoding);
    assert_eq!(quote_update(&[0x51]).unwrap_err(), DecodeError::InsufficientBytes);
    assert_eq!(quote_update(&[0x51, 0x01]).unwrap_err(), DecodeError::InvalidEncoding);
    for len in 2..42usize {
        assert_eq!(quote_update(&QUOTE[..len]).unwrap_err(), DecodeError::InsufficientBytes);
        assert_eq!(tops_1_6_message(&QUOTE[..len]).unwrap_err(), DecodeError::InsufficientBytes);
    }
}

#[test]
fn quote_symbol_may_be_empty() {
    let mut input = QUOTE;
    input[10..18].copy_from_slice(b"        ");
    let (_, quote) = quote_update(&input).unwrap();
    assert_eq!(quote.symbol, "");
    input[10..18].copy_from_slice(b"\xFF\xFEABCDEF");
    let (_, quote) = quote_update(&input).unwrap();
    assert_eq!(quote.symbol, "");
}

#[test]
fn unknown_tag_is_an_error() {
    assert_eq!(tops_1_6_message(&[0xFF]).unwrap_err(), DecodeError::UnknownMessageType);
    assert_eq!(tops_1_6_message(&[0xFF; 42]).unwrap_err(), DecodeError::UnknownMessageType);
    assert_eq!(tops_1_6_message(&[0x00, 1, 2]).unwrap_err(), DecodeError::UnknownMessageType);
    assert_eq!(tops_1_6_message(&[0x52; 10]).unwrap_err(), DecodeError::UnknownMessageType);
}

#[test]
fn empty_slice_is_insufficient() {
    assert_eq!(tops_1_6_message(&[]).unwrap_err(), DecodeError::InsufficientBytes);
}

fn expect_placeholder(tag: u8, body_len: usize, same: fn(&Tops1_6Message) -> bool) {
    let mut input = vec![0xA5u8; 1 + body_len];
    input[0] = tag;
    let (rest, message) = tops_1_6_message(&input).unwrap();
    assert!(rest.is_empty());
    assert!(same(&message));
    assert_eq!(
        tops_1_6_message(&input[..body_len]).unwrap_err(),
        DecodeError::InsufficientBytes
    );
    assert_eq!(tops_1_6_message(&input[..1]).unwrap_err(), DecodeError::InsufficientBytes);
    input.push(0);
    assert_eq!(tops_1_6_message(&input).unwrap_err(), DecodeError::TrailingBytes);
}

#[test]
fn every_tag_has_its_length() {
    expect_placeholder(0x53, 9, |m| matches!(m, Tops1_6Message::SystemEvent));
    expect_placeholder(0x44, 30, |m| matches!(m, Tops1_6Message::SecurityDirectory));
    expect_placeholder(0x48, 21, |m| matches!(m, Tops1_6Message::TradingStatus));
    expect_placeholder(0x49, 17, |m| matches!(m, Tops1_6Message::RetailLiquidityIndicator));
    expect_placeholder(0x4F, 17, |m| matches!(m, Tops1_6Message::OperationalHaltStatus));
    expect_placeholder(0x50, 18, |m| matches!(m, Tops1_6Message::ShortSalePriceTestStatus));
    expect_placeholder(0x54, 37, |m| matches!(m, Tops1_6Message::TradeReport));
    expect_placeholder(0x58, 25, |m| matches!(m, Tops1_6Message::OfficialPrice));
    expect_placeholder(0x42, 37, |m| matches!(m, Tops1_6Message::TradeBreak));
    expect_placeholder(0x41, 79, |m| matches!(m, Tops1_6Message::AuctionInformation));
}

#[test]
fn price_is_a_count_of_ten_thousandths() {
    let wire = 992400i64.to_le_bytes();
    let (rest, value) = price(&wire).unwrap();
    assert!(rest.is_empty());
    assert_eq!(value, Price { ten_thousandths: 992400 });
    assert!((to_f64(value) - 99.24).abs() < 1e-9);

    let (_, zero) = price(&[0; 8]).unwrap();
    assert_eq!(zero, Price { ten_thousandths: 0 });
    assert_eq!(to_f64(zero), 0.0);

    let (_, negative) = price(&(-15000i64).to_le_bytes()).unwrap();
    assert_eq!(negative, Price { ten_thousandths: -15000 });
    assert!((to_f64(negative) + 1.5).abs() < 1e-9);

    assert_eq!(price(&[0; 7]).unwrap_err(), DecodeError::InsufficientBytes);
}

#[test]
fn decoding_a_message_again_gives_the_same() {
    let first = tops_1_6_message(&QUOTE).unwrap();
    let copy = QUOTE.to_vec();
    for _ in 0..5 {
        let again = tops_1_6_message(&copy).unwrap();
        assert_eq!(format!("{:?}", again), format!("{:?}", first));
    }
    let bad = [0x51u8, 0x3F];
    for _ in 0..5 {
        assert_eq!(tops_1_6_message(&bad).unwrap_err(), DecodeError::InvalidEncoding);
    }
}

#[test]
fn cloned_quote_keeps_its_fields() {
    let (_, quote) = quote_update(&QUOTE).unwrap();
    let copy = quote.clone();
    assert_eq!(copy.timestamp, quote.timestamp);
    assert_eq!(copy.symbol, quote.symbol);
    assert_eq!(copy.bid_price, quote.bid_price);
}
