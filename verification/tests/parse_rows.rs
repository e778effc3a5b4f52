use lib::order::Side;
use lib::parser::{
    parse_book_ticker, parse_book_ticker_checked, parse_scaled, parse_trade, parse_trade_checked, BookTicker,
    ParseError, Trade, PRICE_PRECISION, QTY_PRECISION,
};

// Tests for parse_scaled
#[test]
fn aggtrades_price_shape() {
    assert_eq!(parse_scaled("71455.6", PRICE_PRECISION), Ok(7145560));
    assert_eq!(parse_scaled("71455.7", PRICE_PRECISION), Ok(7145570));
}
#[test]
fn real_tick_size_is_two_decimals() {
    // Row 22486 of BTCUSDT-aggTrades-2024-03-15 carries two decimals.
    assert_eq!(parse_scaled("71799.36", PRICE_PRECISION), Ok(7179936));
}
#[test]
fn bookticker_price_shape() {
    assert_eq!(parse_scaled("71455.50000000", PRICE_PRECISION), Ok(7145550));
    assert_eq!(parse_scaled("71455.60000000", PRICE_PRECISION), Ok(7145560));
}
#[test]
fn aggtrades_quantity_shape() {
    assert_eq!(parse_scaled("0.148", QTY_PRECISION), Ok(148));
    assert_eq!(parse_scaled("0.002", QTY_PRECISION), Ok(2));
}
#[test]
fn bookticker_quantity_shape() {
    assert_eq!(parse_scaled("2.12900000", QTY_PRECISION), Ok(2129));
    assert_eq!(parse_scaled("2.26000000", QTY_PRECISION), Ok(2260));
}
#[test]
fn both_files_agree_on_the_same_value() {
    assert_eq!(
        parse_scaled("71455.6", PRICE_PRECISION),
        parse_scaled("71455.60000000", PRICE_PRECISION)
    );
}
#[test]
fn whole_number_is_still_scaled() {
    assert_eq!(parse_scaled("50", PRICE_PRECISION), Ok(5000));
    assert_eq!(parse_scaled("50.0", PRICE_PRECISION), Ok(5000));
}
#[test]
fn short_fraction_is_padded_not_left_aligned() {
    assert_eq!(parse_scaled("0.5", QTY_PRECISION), Ok(500));
    assert_eq!(parse_scaled("0.05", QTY_PRECISION), Ok(50));
    assert_eq!(parse_scaled("0.005", QTY_PRECISION), Ok(5));
}
#[test]
fn zero_is_zero_in_every_spelling() {
    assert_eq!(parse_scaled("0", QTY_PRECISION), Ok(0));
    assert_eq!(parse_scaled("0.0", QTY_PRECISION), Ok(0));
    assert_eq!(parse_scaled("0.00000000", QTY_PRECISION), Ok(0));
}
#[test]
fn trailing_zeros_beyond_precision_are_discarded() {
    assert_eq!(parse_scaled("1.1000", PRICE_PRECISION), Ok(110));
}
#[test]
fn significant_digit_beyond_precision_is_rejected() {
    assert_eq!(parse_scaled("0.000234", QTY_PRECISION), Err(ParseError::TooPrecise));
    assert_eq!(parse_scaled("71455.655", PRICE_PRECISION), Err(ParseError::TooPrecise));
}
#[test]
fn missing_fraction_after_point_is_malformed() {
    assert_eq!(parse_scaled("50.", PRICE_PRECISION), Err(ParseError::Malformed));
    assert_eq!(parse_scaled(".5", QTY_PRECISION), Err(ParseError::Malformed));
}
#[test]
fn negatives_are_rejected_in_both_arms() {
    assert_eq!(parse_scaled("-50", PRICE_PRECISION), Err(ParseError::Malformed));
    assert_eq!(parse_scaled("-1.5", PRICE_PRECISION), Err(ParseError::Malformed));
}
#[test]
fn non_numeric_input_is_malformed() {
    assert_eq!(parse_scaled("", PRICE_PRECISION), Err(ParseError::Malformed));
    assert_eq!(parse_scaled("abc", PRICE_PRECISION), Err(ParseError::Malformed));
    assert_eq!(parse_scaled("71455.6x", PRICE_PRECISION), Err(ParseError::Malformed));
    assert_eq!(parse_scaled("71455.6\r", PRICE_PRECISION), Err(ParseError::Malformed));
}
#[test]
fn whitespace_is_not_silently_accepted() {
    assert_eq!(parse_scaled(" 71455.6", PRICE_PRECISION), Err(ParseError::Malformed));
    assert_eq!(parse_scaled("71455.6 ", PRICE_PRECISION), Err(ParseError::Malformed));
}
#[test]
fn magnitude_headroom() {
    assert_eq!(parse_scaled("999999.9", PRICE_PRECISION), Ok(99999990));
}
#[test]
fn double_decimal_point_is_malformed() {
    assert_eq!(parse_scaled("1.2.3", QTY_PRECISION), Err(ParseError::Malformed));
    assert_eq!(parse_scaled("1.2.3", PRICE_PRECISION), Err(ParseError::Malformed));
}

// Tests for parse_trade
#[test]
fn buyer_maker_test() {
    let buyer_maker: &str = "2072657703,71455.6,0.148,4735739403,4735739407,1710460800043,true";
    let trade = parse_trade(buyer_maker).unwrap();
    let trade_comp = Trade {
        timestamp: 1710460800043,
        price: 7145560,
        qty: 148,
        consumed: Side::Bid,
    };
    assert_eq!(trade, trade_comp);
}
#[test]
fn seller_maker_test() {
    let seller_maker = "2072657704,71455.7,0.002,4735739408,4735739408,1710460800043,false";
    let trade = parse_trade(seller_maker).unwrap();
    let trade_comp = Trade {
        timestamp: 1710460800043,
        price: 7145570,
        qty: 2,
        consumed: Side::Ask,
    };
    assert_eq!(trade, trade_comp);
}
#[test]
fn two_decimal_price_row_parses() {
    let line = "2072680187,71799.36,0.001,4735795907,4735795907,1710462181496,false";
    let trade = parse_trade(line).unwrap();
    assert_eq!(trade.price, 7179936);
    assert_eq!(trade.qty, 1);
    assert_eq!(trade.consumed, Side::Ask);
}
#[test]
fn too_many_fields() {
    let malformed_line = "2072657704,71455.7,0.002,4735739408,4735739408,1710460800043,false,true";
    assert_eq!(parse_trade(malformed_line), Err(ParseError::FieldCount));
}
#[test]
fn too_little_fields() {
    let malformed_line = "2072657704,4735739408,4735739408,1710460800043";
    assert_eq!(parse_trade(malformed_line), Err(ParseError::FieldCount));
}
#[test]
fn no_fields() {
    let malformed_line = "";
    assert_eq!(parse_trade(malformed_line), Err(ParseError::FieldCount));
}
#[test]
fn non_existent_side() {
    let malformed_line = "2072657704,71455.7,0.002,4735739408,4735739408,1710460800043,maybe";
    assert_eq!(parse_trade(malformed_line), Err(ParseError::Malformed));
}
#[test]
fn malformed_timestamp() {
    let malformed_line = "2072657704,71455.7,0.002,4735739408,4735739408,abcd,true";
    assert_eq!(parse_trade(malformed_line), Err(ParseError::Malformed));
}
#[test]
fn too_much_precision() {
    let buyer_maker: &str = "2072657703,71455.00000003453,0.148,4735739403,4735739407,1710460800043,true";
    assert_eq!(parse_trade(buyer_maker), Err(ParseError::TooPrecise));
}
#[test]
fn header_parsing_error() {
    let buyer_maker: &str = "agg_trade_id,price,quantity,first_trade_id,last_trade_id,transact_time,is_buyer_maker";
    assert_eq!(parse_trade(buyer_maker), Err(ParseError::Malformed));
}

// Tests for parse_book_ticker
#[test]
fn book_ticker_real_line() {
    let line = "4183452554160,71455.50000000,2.12900000,71455.60000000,2.26000000,1710460800006,1710460800012";
    let expected = BookTicker {
        timestamp: 1710460800006,
        best_bid_price: 7145550,
        best_bid_qty: 2129,
        best_ask_price: 7145560,
        best_ask_qty: 2260,
    };
    assert_eq!(parse_book_ticker(line), Ok(expected));
}
#[test]
fn book_ticker_uses_transaction_time_not_event_time() {
    let line = "4183452554171,71455.50000000,2.13900000,71455.60000000,2.26000000,1710460800006,1710460800013";
    let ticker = parse_book_ticker(line).unwrap();
    assert_eq!(ticker.timestamp, 1710460800006);
}
#[test]
fn book_ticker_bid_and_ask_are_not_swapped() {
    let line = "4183452554412,71455.50000000,4.35500000,71455.60000000,2.25200000,1710460800009,1710460800016";
    let ticker = parse_book_ticker(line).unwrap();
    assert!(ticker.best_bid_price < ticker.best_ask_price);
    assert_eq!(ticker.best_bid_qty, 4355);
    assert_eq!(ticker.best_ask_qty, 2252);
}
#[test]
fn book_ticker_too_many_fields() {
    let line = "4183452554160,71455.50000000,2.12900000,71455.60000000,2.26000000,1710460800006,1710460800012,9";
    assert_eq!(parse_book_ticker(line), Err(ParseError::FieldCount));
}
#[test]
fn book_ticker_too_few_fields() {
    let line = "4183452554160,71455.50000000,2.12900000,71455.60000000";
    assert_eq!(parse_book_ticker(line), Err(ParseError::FieldCount));
}
#[test]
fn book_ticker_empty_line() {
    assert_eq!(parse_book_ticker(""), Err(ParseError::FieldCount));
}
#[test]
fn book_ticker_header_is_rejected() {
    let line = "update_id,best_bid_price,best_bid_qty,best_ask_price,best_ask_qty,transaction_time,event_time";
    assert_eq!(parse_book_ticker(line), Err(ParseError::Malformed));
}
#[test]
fn book_ticker_malformed_timestamp() {
    let line = "4183452554160,71455.50000000,2.12900000,71455.60000000,2.26000000,abcd,1710460800012";
    assert_eq!(parse_book_ticker(line), Err(ParseError::Malformed));
}
#[test]
fn book_ticker_excess_precision_propagates() {
    let line = "4183452554160,71455.555,2.12900000,71455.60000000,2.26000000,1710460800006,1710460800012";
    assert_eq!(parse_book_ticker(line), Err(ParseError::TooPrecise));
}

// Further cases
#[test]
fn explicit_plus_sign_is_accepted_like_integer_parsing() {
    assert_eq!(parse_scaled("+5", PRICE_PRECISION), Ok(500));
    assert_eq!(parse_scaled("+5.25", PRICE_PRECISION), Ok(525));
    assert_eq!(parse_scaled("+", PRICE_PRECISION), Err(ParseError::Malformed));
    assert_eq!(parse_scaled("5.+2", PRICE_PRECISION), Err(ParseError::Malformed));
}
#[test]
fn only_a_number_can_be_too_precise() {
    assert_eq!(parse_scaled("abc.001", PRICE_PRECISION), Err(ParseError::Malformed));
    assert_eq!(parse_scaled("abc.123", PRICE_PRECISION), Err(ParseError::Malformed));
    assert_eq!(parse_scaled(" 71455.655", PRICE_PRECISION), Err(ParseError::Malformed));
    assert_eq!(parse_scaled(".655", PRICE_PRECISION), Err(ParseError::Malformed));
    assert_eq!(parse_scaled("71455.655", PRICE_PRECISION), Err(ParseError::TooPrecise));
}
#[test]
fn non_digit_tail_is_malformed_not_too_precise() {
    assert_eq!(parse_scaled("1.23x", PRICE_PRECISION), Err(ParseError::Malformed));
    assert_eq!(parse_scaled("1.005\r", PRICE_PRECISION), Err(ParseError::Malformed));
}
#[test]
fn precision_zero_keeps_no_fraction_digits() {
    assert_eq!(parse_scaled("50", 0), Ok(50));
    assert_eq!(parse_scaled("50.0", 0), Ok(50));
    assert_eq!(parse_scaled("50.000", 0), Ok(50));
    assert_eq!(parse_scaled("50.5", 0), Err(ParseError::TooPrecise));
}
#[test]
fn integral_part_beyond_i64_is_malformed() {
    assert_eq!(parse_scaled("9223372036854775808", 0), Err(ParseError::Malformed));
    assert_eq!(parse_scaled("9223372036854775807", 0), Ok(i64::MAX));
    assert_eq!(parse_scaled("92233720368547758.07", PRICE_PRECISION), Ok(i64::MAX));
}
#[test]
fn large_precision_pads_the_fraction() {
    assert_eq!(parse_scaled("1.5", 18), Ok(1_500_000_000_000_000_000));
    assert_eq!(parse_scaled("0.000000000000000001", 18), Ok(1));
}
#[test]
fn checked_parse_reports_values_beyond_i64() {
    let line = "1,92233720368547758.08,0.148,1,1,1710460800043,true";
    assert_eq!(parse_trade_checked(line), None);
    let fine = "1,71455.6,0.148,1,1,1710460800043,true";
    assert_eq!(
        parse_trade_checked(fine),
        Some(Ok(Trade { timestamp: 1710460800043, price: 7145560, qty: 148, consumed: Side::Bid }))
    );
    let quantity_too_big = "1,1,9223372036854775.808,1,1,1,true";
    assert_eq!(parse_trade_checked(quantity_too_big), None);
    let price_error_first = "1,x,9223372036854775.808,1,1,1,true";
    assert_eq!(parse_trade_checked(price_error_first), Some(Err(ParseError::Malformed)));
    let book = "1,1,1,92233720368547758.08,1,1,1";
    assert_eq!(parse_book_ticker_checked(book), None);
    assert_eq!(parse_book_ticker_checked(""), Some(Err(ParseError::FieldCount)));
}
#[test]
fn negative_timestamp_is_an_integer() {
    let line = "1,1.5,0.5,1,1,-42,false";
    let trade = parse_trade(line).unwrap();
    assert_eq!(trade.timestamp, -42);
    assert_eq!(trade.price, 150);
    assert_eq!(trade.qty, 500);
}
#[test]
fn empty_fields_are_counted() {
    assert_eq!(parse_trade(",,,,,,"), Err(ParseError::Malformed));
    assert_eq!(parse_book_ticker(",,,,,,,"), Err(ParseError::FieldCount));
}
#[test]
fn quantity_error_follows_price() {
    let line = "1,71455.6,0.1234,1,1,1710460800043,true";
    assert_eq!(parse_trade(line), Err(ParseError::TooPrecise));
    let book = "1,71455.5,2.1,71455.6,x,1,1";
    assert_eq!(parse_book_ticker(book), Err(ParseError::Malformed));
}

#[test]
fn too_precise_even_when_integral_part_exceeds_i64() {
    assert_eq!(parse_scaled("99999999999999999999.001", PRICE_PRECISION), Err(ParseError::TooPrecise));
    assert_eq!(parse_scaled("+99999999999999999999.001", PRICE_PRECISION), Err(ParseError::TooPrecise));
    assert_eq!(parse_scaled("99999999999999999999.00", PRICE_PRECISION), Err(ParseError::Malformed));
    assert_eq!(parse_scaled("99999999999999999999.5", PRICE_PRECISION), Err(ParseError::Malformed));
    assert_eq!(parse_scaled("+.5", PRICE_PRECISION), Err(ParseError::Malformed));
    let line = "1,99999999999999999999.001,0.148,1,1,1710460800043,true";
    assert_eq!(parse_trade(line), Err(ParseError::TooPrecise));
}
