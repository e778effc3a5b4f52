use lib::order::{OpenOrder, Side};
use lib::parser::{BookTicker, ParseError, Trade};
use lib::sim::{apply_tick, apply_trade, next_event, Advance, FillReport, Outbid, Placement, Quote, SimState};

fn book(bid_price: i64, bid_qty: i64, ask_price: i64, ask_qty: i64, ts: i64) -> BookTicker {
    BookTicker {
        timestamp: ts,
        best_bid_price: bid_price,
        best_bid_qty: bid_qty,
        best_ask_price: ask_price,
        best_ask_qty: ask_qty,
    }
}

fn quote() -> Quote {
    Quote { qty: 500, timestamp: 1000 }
}

#[test]
fn trades_go_first_at_equal_timestamps() {
    assert_eq!(next_event(Some(5), Some(5)), Some((Advance::Trades, 5)));
    assert_eq!(next_event(Some(6), Some(5)), Some((Advance::Tick, 5)));
    assert_eq!(next_event(Some(4), Some(5)), Some((Advance::Trades, 4)));
    assert_eq!(next_event(None, Some(5)), Some((Advance::Tick, 5)));
    assert_eq!(next_event(Some(3), None), Some((Advance::Trades, 3)));
    assert_eq!(next_event(None, None), None);
}

#[test]
fn insertion_waits_for_the_clock() {
    let mut state = SimState::new(quote());
    state.book = Some(book(7157810, 2000, 7157820, 3000, 900));
    assert_eq!(state.insert_due(999), Ok(None));
    assert!(!state.inserted);
    assert!(state.bid.is_none());
    assert_eq!(
        state.insert_due(1000),
        Ok(Some(Placement { bid_price: 7157810, ask_price: 7157820, timestamp: 1000 }))
    );
    assert!(state.inserted);
    let bid = state.bid.as_ref().unwrap();
    assert_eq!(bid.side, Side::Bid);
    assert_eq!(bid.price, 7157810);
    assert_eq!(bid.qty_ahead, 2000);
    assert_eq!(bid.qty_remaining, 500);
    assert_eq!(bid.created_ts, 1000);
    let ask = state.ask.as_ref().unwrap();
    assert_eq!(ask.side, Side::Ask);
    assert_eq!(ask.price, 7157820);
    assert_eq!(ask.qty_ahead, 3000);
    assert_eq!(ask.id, 1);
}

#[test]
fn insertion_without_a_book_fails() {
    let mut state = SimState::new(quote());
    assert_eq!(state.insert_due(1000), Err(ParseError::NoOrder));
    assert!(!state.inserted);
}

#[test]
fn orders_are_placed_only_once() {
    let mut state = SimState::new(quote());
    state.on_tick(book(7157810, 2000, 7157820, 3000, 900));
    state.insert_due(1000).unwrap();
    state.bid = None;
    assert_eq!(state.insert_due(2000), Ok(None));
    assert!(state.bid.is_none());
    assert!(state.ask.is_some());
}

#[test]
fn fill_reports_and_completion() {
    let mut slot = Some(OpenOrder::new(0, Side::Bid, 100, 10, 5, 40));
    let t = Trade { timestamp: 50, price: 100, qty: 12, consumed: Side::Bid };
    assert_eq!(apply_trade(&mut slot, &t), Some(FillReport { filled: Some(2), time_to_fill: None }));
    assert_eq!(slot.as_ref().unwrap().qty_remaining, 3);
    let t = Trade { timestamp: 65, price: 100, qty: 1, consumed: Side::Ask };
    assert_eq!(apply_trade(&mut slot, &t), None);
    let t = Trade { timestamp: 70, price: 100, qty: 9, consumed: Side::Bid };
    assert_eq!(apply_trade(&mut slot, &t), Some(FillReport { filled: Some(3), time_to_fill: Some(30) }));
    assert!(slot.is_none());
    assert_eq!(apply_trade(&mut slot, &t), None);
}

#[test]
fn trade_absorbed_by_queue_reports_no_fill() {
    let mut slot = Some(OpenOrder::new(0, Side::Ask, 100, 10, 5, 40));
    let t = Trade { timestamp: 50, price: 100, qty: 4, consumed: Side::Ask };
    assert_eq!(apply_trade(&mut slot, &t), Some(FillReport { filled: None, time_to_fill: None }));
    assert_eq!(slot.as_ref().unwrap().qty_ahead, 6);
}

#[test]
fn outbid_order_dies() {
    let mut slot = Some(OpenOrder::new(0, Side::Bid, 100, 10, 5, 40));
    assert_eq!(apply_tick(&mut slot, &book(100, 7, 101, 7, 50)), None);
    assert!(slot.is_some());
    assert_eq!(
        apply_tick(&mut slot, &book(101, 7, 102, 7, 60)),
        Some(Outbid { side: Side::Bid, quote_price: 100, best_price: 101, elapsed: 20 })
    );
    assert!(slot.is_none());

    let mut ask = Some(OpenOrder::new(1, Side::Ask, 102, 10, 5, 40));
    assert_eq!(
        apply_tick(&mut ask, &book(101, 7, 101, 7, 60)),
        Some(Outbid { side: Side::Ask, quote_price: 102, best_price: 101, elapsed: 20 })
    );
}

#[test]
fn replay_step_by_step() {
    let mut state = SimState::new(Quote { qty: 5, timestamp: 10 });
    let (b, a) = state.on_tick(book(100, 20, 101, 30, 5));
    assert_eq!((b, a), (None, None));
    assert_eq!(state.book, Some(book(100, 20, 101, 30, 5)));
    assert_eq!(state.insert_due(10), Ok(Some(Placement { bid_price: 100, ask_price: 101, timestamp: 10 })));
    let t = Trade { timestamp: 11, price: 100, qty: 22, consumed: Side::Bid };
    assert!(state.accepts_trade(&t));
    let (b, a) = state.on_trade(&t);
    assert_eq!(b, Some(FillReport { filled: Some(2), time_to_fill: None }));
    assert_eq!(a, None);
    let (b, a) = state.on_tick(book(99, 20, 101, 8, 12));
    assert!(state.accepts_tick(&book(99, 20, 101, 8, 12)));
    assert_eq!(b, Some(Outbid { side: Side::Bid, quote_price: 100, best_price: 99, elapsed: 2 }));
    assert_eq!(a, None);
    assert!(state.bid.is_none());
    assert!(state.ask.is_some());
}

#[test]
fn trade_beyond_i64_is_refused_by_the_check() {
    let mut state = SimState::new(quote());
    state.on_tick(book(7157810, i64::MAX, 7157820, 3000, 900));
    state.insert_due(1000).unwrap();
    let t = Trade { timestamp: 1001, price: 7157810, qty: -5, consumed: Side::Bid };
    assert!(!state.accepts_trade(&t));
    let ok = Trade { timestamp: 1001, price: 7157810, qty: 5, consumed: Side::Bid };
    assert!(state.accepts_trade(&ok));
}

#[test]
fn orders_rest_at_the_touch_not_elsewhere() {
    let mut state = SimState::new(Quote { qty: 5, timestamp: 10 });
    state.on_tick(book(200, 7, 201, 9, 5));
    let placed = state.insert_due(12).unwrap().unwrap();
    assert_eq!(placed, Placement { bid_price: 200, ask_price: 201, timestamp: 12 });
    assert_eq!(state.bid.as_ref().unwrap().price, 200);
    assert_eq!(state.ask.as_ref().unwrap().price, 201);
}

#[test]
fn outbid_beyond_i64_is_refused_by_the_check() {
    let mut state = SimState::new(Quote { qty: 5, timestamp: i64::MIN });
    state.on_tick(book(200, 7, 201, 9, i64::MIN));
    state.insert_due(i64::MIN).unwrap();
    assert!(!state.accepts_tick(&book(199, 7, 201, 9, i64::MAX)));
    assert!(state.accepts_tick(&book(200, 7, 201, 9, i64::MAX)));
}
