use vstd::prelude::*;

use crate::order::{filled_by_trade, OpenOrder, Side};
use crate::parser::{BookTicker, ParseError, Trade};

verus! {

/// The simulated strategy's quote: one order per side, same quantity, placed
/// once when the clock reaches `timestamp`. It carries no prices: an order
/// can only rest at the touch, so the prices come from the book at insertion.
#[derive(Debug, Clone, Copy, PartialEq, Eq, Structural)]
pub struct Quote {
    pub qty: i64,
    pub timestamp: i64,
}

/// Where the quote was placed: the touch on each side at insertion.
#[derive(Debug, Clone, Copy, PartialEq, Eq, Structural)]
pub struct Placement {
    pub bid_price: i64,
    pub ask_price: i64,
    pub timestamp: i64,
}

/// Which feed the replay advances next.
#[derive(Debug, Clone, Copy, PartialEq, Eq, Structural)]
pub enum Advance {
    Trades,
    Tick,
}

/// What a trade did to one resting order.
#[derive(Debug, Clone, Copy, PartialEq, Eq, Structural)]
pub struct FillReport {
    /// The quantity filled, when it is positive.
    pub filled: Option<i64>,
    /// The time from insertion to the last fill, when the order is now
    /// completely filled and has left the book.
    pub time_to_fill: Option<i64>,
}

/// An order terminated unfilled because the touch moved off its price.
#[derive(Debug, Clone, Copy, PartialEq, Eq, Structural)]
pub struct Outbid {
    pub side: Side,
    pub quote_price: i64,
    pub best_price: i64,
    /// The time from insertion to the book update that ended the order.
    pub elapsed: i64,
}

/// The decision state of a replay: the last book snapshot, whether the
/// quote has been placed, and the live order on each side.
#[derive(Debug)]
pub struct SimState {
    pub book: Option<BookTicker>,
    pub inserted: bool,
    pub quote: Quote,
    pub bid: Option<OpenOrder>,
    pub ask: Option<OpenOrder>,
}

/// Picks the next event of two time-ordered feeds: the earlier one, trades
/// first at equal timestamps, and the clock reading it carries. `None` when
/// both feeds are exhausted.
pub fn next_event(trade_time: Option<i64>, tick_time: Option<i64>) -> (res: Option<(Advance, i64)>)
    ensures
        match (trade_time, tick_time) {
            (None, None) => res is None,
            (None, Some(k)) => res == Some((Advance::Tick, k)),
            (Some(t), None) => res == Some((Advance::Trades, t)),
            (Some(t), Some(k)) => res == if t <= k {
                Some((Advance::Trades, t))
            } else {
                Some((Advance::Tick, k))
            },
        },
{
    match (trade_time, tick_time) {
        (None, None) => None,
        (None, Some(k)) => Some((Advance::Tick, k)),
        (Some(t), None) => Some((Advance::Trades, t)),
        (Some(t), Some(k)) => {
            if t <= k {
                Some((Advance::Trades, t))
            } else {
                Some((Advance::Tick, k))
            }
        },
    }
}

/// Applying a trade to the order in `slot` keeps its arithmetic within
/// `i64`, including the time to fill of an order the trade completes.
pub open spec fn trade_accepted(slot: Option<OpenOrder>, t: Trade) -> bool {
    slot matches Some(order) ==> (order.matches_trade(t.price, t.consumed) ==> {
        &&& order.trade_in_range(t.qty)
        &&& order.qty_remaining - filled_by_trade(t.qty as int, order.qty_ahead as int, order.qty_remaining as int) == 0
            ==> i64::MIN <= t.timestamp - order.created_ts <= i64::MAX
    })
}

/// Whether the order in `slot` can take trade `t` within `i64`.
pub fn slot_accepts_trade(slot: &Option<OpenOrder>, t: &Trade) -> (r: bool)
    ensures
        r == trade_accepted(*slot, *t),
{
    match slot {
        None => true,
        Some(order) => {
            if t.price != order.price || t.consumed != order.side {
                return true;
            }
            let diff: i128 = order.qty_ahead as i128 - t.qty as i128;
            if diff < -9_223_372_036_854_775_807i128 || diff > 9_223_372_036_854_775_807i128 {
                return false;
            }
            let traded: i128 = order.traded_since_tick as i128 + t.qty as i128;
            if traded < -9_223_372_036_854_775_808i128 || traded > 9_223_372_036_854_775_807i128 {
                return false;
            }
            let absorbed: i64 = if t.qty < order.qty_ahead { t.qty } else { order.qty_ahead };
            let reaching: i64 = t.qty - absorbed;
            let filled: i64 = if reaching < order.qty_remaining { reaching } else { order.qty_remaining };
            if order.qty_remaining - filled == 0 {
                let elapsed: i128 = t.timestamp as i128 - order.created_ts as i128;
                elapsed >= -9_223_372_036_854_775_808i128 && elapsed <= 9_223_372_036_854_775_807i128
            } else {
                true
            }
        },
    }
}

/// What a trade does to the order in a slot: the slot's new content and the
/// report, `None` when the trade does not concern a live order.
pub open spec fn trade_outcome(slot: Option<OpenOrder>, t: Trade) -> (Option<OpenOrder>, Option<FillReport>) {
    match slot {
        None => (slot, None),
        Some(order) => if !order.matches_trade(t.price, t.consumed) {
            (slot, None)
        } else {
            let fill = filled_by_trade(t.qty as int, order.qty_ahead as int, order.qty_remaining as int);
            let after = order.after_trade(t.qty);
            let done = after.qty_remaining == 0;
            let report = FillReport {
                filled: if fill > 0 { Some(fill as i64) } else { None },
                time_to_fill: if done { Some((t.timestamp - order.created_ts) as i64) } else { None },
            };
            (if done { None } else { Some(after) }, Some(report))
        },
    }
}

/// Applies a trade to the order in `slot`, if any.
///
/// A trade that does not concern the order leaves it and reports `None`.
/// Otherwise the order takes the trade, the report carries the filled
/// quantity when it is positive, and an order left with nothing to fill
/// leaves the slot and reports its time to fill.
pub fn apply_trade(slot: &mut Option<OpenOrder>, t: &Trade) -> (report: Option<FillReport>)
    requires
        trade_accepted(*old(slot), *t),
    ensures
        (*final(slot), report) == trade_outcome(*old(slot), *t),
{
    let mut order = match slot.take() {
        None => {
            return None;
        },
        Some(order) => order,
    };
    let filled = match order.on_trade(t.price, t.qty, t.consumed) {
        None => {
            *slot = Some(order);
            return None;
        },
        Some(filled) => filled,
    };
    let reported_fill = if filled > 0 { Some(filled) } else { None };
    if order.qty_remaining == 0 {
        Some(FillReport { filled: reported_fill, time_to_fill: Some(t.timestamp - order.created_ts) })
    } else {
        *slot = Some(order);
        Some(FillReport { filled: reported_fill, time_to_fill: None })
    }
}

/// What a book update does to the order in a slot: the slot's new content
/// and, when the touch on the order's side moved off its price, the report
/// of its termination.
pub open spec fn tick_outcome(slot: Option<OpenOrder>, b: BookTicker) -> (Option<OpenOrder>, Option<Outbid>) {
    match slot {
        None => (slot, None),
        Some(order) => {
            let best = touch_for(order.side, b);
            if best != order.price {
                (
                    None,
                    Some(
                        Outbid {
                            side: order.side,
                            quote_price: order.price,
                            best_price: best,
                            elapsed: (b.timestamp - order.created_ts) as i64,
                        },
                    ),
                )
            } else {
                (slot, None)
            }
        },
    }
}

/// The best price on the side an order rests on.
pub open spec fn touch_for(side: Side, b: BookTicker) -> i64 {
    match side {
        Side::Ask => b.best_ask_price,
        Side::Bid => b.best_bid_price,
    }
}

/// Terminating the order in `slot` on book update `b`, if it comes to that,
/// keeps its elapsed time within `i64`.
pub open spec fn tick_accepted(slot: Option<OpenOrder>, b: BookTicker) -> bool {
    slot matches Some(order) ==> (touch_for(order.side, b) != order.price ==> i64::MIN <= b.timestamp
        - order.created_ts <= i64::MAX)
}

/// Whether the order in `slot` can take book update `b` within `i64`.
pub fn slot_accepts_tick(slot: &Option<OpenOrder>, b: &BookTicker) -> (r: bool)
    ensures
        r == tick_accepted(*slot, *b),
{
    match slot {
        None => true,
        Some(order) => {
            let best = match order.side {
                Side::Ask => b.best_ask_price,
                Side::Bid => b.best_bid_price,
            };
            if best == order.price {
                return true;
            }
            let elapsed: i128 = b.timestamp as i128 - order.created_ts as i128;
            elapsed >= -9_223_372_036_854_775_808i128 && elapsed <= 9_223_372_036_854_775_807i128
        },
    }
}

/// Terminates the order in `slot` when the book's best price on its side is
/// no longer its price: an outbid order dies rather than being requoted, and
/// is reported unfilled with the time it rested.
pub fn apply_tick(slot: &mut Option<OpenOrder>, b: &BookTicker) -> (outbid: Option<Outbid>)
    requires
        tick_accepted(*old(slot), *b),
    ensures
        (*final(slot), outbid) == tick_outcome(*old(slot), *b),
{
    let (side, price, created_ts) = match slot {
        None => {
            return None;
        },
        Some(order) => (order.side, order.price, order.created_ts),
    };
    let best_price = match side {
        Side::Ask => b.best_ask_price,
        Side::Bid => b.best_bid_price,
    };
    if best_price != price {
        *slot = None;
        Some(Outbid { side, quote_price: price, best_price, elapsed: b.timestamp - created_ts })
    } else {
        None
    }
}

/// Trades and book updates only ever take a live order away: they never put
/// an order into an empty slot, and an order they leave in place is the one
/// that was there, at its price, on its side, with its creation time.
pub proof fn lemma_orders_never_requoted(slot: Option<OpenOrder>, t: Trade, b: BookTicker)
    ensures
        trade_outcome(slot, t).0 matches Some(after) ==> (slot matches Some(before) && {
            &&& after.id == before.id
            &&& after.side == before.side
            &&& after.price == before.price
            &&& after.created_ts == before.created_ts
        }),
        tick_outcome(slot, b).0 matches Some(after) ==> slot == Some(after),
{
}

/// A trade that concerns a live order always gets a report. The order
/// leaves its slot, and its time to fill (the trade's time less the order's
/// creation time) is reported, exactly when what it still needed is no more
/// than what the trade left over beyond the queue ahead, whatever that queue
/// was; otherwise it stays with its remaining quantity reduced by that
/// leftover. A positive fill is reported as such. A trade at another price
/// or on the other side changes nothing and reports nothing.
pub proof fn lemma_fill_completes_order(order: OpenOrder, t: Trade)
    requires
        trade_accepted(Some(order), t),
    ensures
        ({
            let (slot, report) = trade_outcome(Some(order), t);
            let leftover: int = if t.qty - order.qty_ahead > 0 { t.qty - order.qty_ahead } else { 0 };
            let done = order.qty_remaining <= leftover;
            if t.price == order.price && t.consumed == order.side {
                &&& report matches Some(r) && {
                    &&& r.time_to_fill == if done {
                        Some((t.timestamp - order.created_ts) as i64)
                    } else {
                        None::<i64>
                    }
                    &&& r.time_to_fill matches Some(d) ==> d == t.timestamp - order.created_ts
                    &&& r.filled == if leftover > 0 && order.qty_remaining > 0 {
                        Some((if leftover < order.qty_remaining { leftover } else { order.qty_remaining as int }) as i64)
                    } else {
                        None::<i64>
                    }
                }
                &&& (slot is None <==> done)
                &&& slot matches Some(after) ==> after.qty_remaining == order.qty_remaining - leftover
            } else {
                &&& report is None
                &&& slot == Some(order)
            }
        }),
{
}

/// On a book update a live order is terminated and reported outbid exactly
/// when the best price on its side (the best bid for a bid, the best ask for
/// an ask) differs from its price, whichever way it moved; the report names
/// the order's side and price, the new best price, and the time from the
/// order's creation to the update. Otherwise the order stays as it was.
pub proof fn lemma_outbid_exactly_when_touch_moves(order: OpenOrder, b: BookTicker)
    requires
        tick_accepted(Some(order), b),
    ensures
        ({
            let (slot, report) = tick_outcome(Some(order), b);
            let best = if order.side == Side::Bid { b.best_bid_price } else { b.best_ask_price };
            &&& (slot is None <==> best != order.price)
            &&& (report is Some <==> best != order.price)
            &&& best != order.price ==> report == Some(Outbid {
                side: order.side,
                quote_price: order.price,
                best_price: best,
                elapsed: (b.timestamp - order.created_ts) as i64,
            })
            &&& report matches Some(r) ==> r.elapsed == b.timestamp - order.created_ts
            &&& best == order.price ==> slot == Some(order)
        }),
{
}

impl SimState {
    /// Before the quote is placed there is no live order; a live order
    /// rests on the side its slot is for.
    pub open spec fn well_formed(&self) -> bool {
        &&& !self.inserted ==> self.bid is None && self.ask is None
        &&& self.bid matches Some(o) ==> o.side == Side::Bid
        &&& self.ask matches Some(o) ==> o.side == Side::Ask
    }

    /// A replay that has seen no book and placed no order.
    pub fn new(quote: Quote) -> (state: Self)
        ensures
            state.well_formed(),
            state.book is None,
            !state.inserted,
            state.quote == quote,
    {
        SimState { book: None, inserted: false, quote, bid: None, ask: None }
    }

    /// Places the quote once the clock reaches its timestamp: a bid at the
    /// best bid and an ask at the best ask of the last book snapshot, each of
    /// the quote's size and behind all the depth the snapshot shows at its
    /// price, and reports the prices used. Without a snapshot there is no
    /// touch to join, and the replay cannot go on.
    pub fn insert_due(&mut self, now: i64) -> (res: Result<Option<Placement>, ParseError>)
        ensures
            !old(self).inserted && now >= old(self).quote.timestamp ==> match old(self).book {
                None => res == Err::<Option<Placement>, ParseError>(ParseError::NoOrder) && *final(self) == *old(
                    self,
                ),
                Some(bt) => {
                    &&& res == Ok::<Option<Placement>, ParseError>(
                        Some(Placement { bid_price: bt.best_bid_price, ask_price: bt.best_ask_price, timestamp: now }),
                    )
                    &&& final(self).inserted
                    &&& final(self).book == old(self).book
                    &&& final(self).quote == old(self).quote
                    &&& final(self).bid == Some(OpenOrder {
                        id: 0,
                        side: Side::Bid,
                        price: bt.best_bid_price,
                        qty_ahead: bt.best_bid_qty,
                        qty_remaining: old(self).quote.qty,
                        created_ts: now,
                        traded_since_tick: 0,
                        total_updates: 0,
                        masked_updates: 0,
                    })
                    &&& final(self).ask == Some(OpenOrder {
                        id: 1,
                        side: Side::Ask,
                        price: bt.best_ask_price,
                        qty_ahead: bt.best_ask_qty,
                        qty_remaining: old(self).quote.qty,
                        created_ts: now,
                        traded_since_tick: 0,
                        total_updates: 0,
                        masked_updates: 0,
                    })
                },
            },
            old(self).inserted || now < old(self).quote.timestamp ==> res == Ok::<Option<Placement>, ParseError>(None)
                && *final(self) == *old(self),
            old(self).well_formed() ==> final(self).well_formed(),
    {
        if !self.inserted && now >= self.quote.timestamp {
            let bt = match self.book {
                Some(bt) => bt,
                None => {
                    return Err(ParseError::NoOrder);
                },
            };
            self.bid = Some(OpenOrder::new(0, Side::Bid, bt.best_bid_price, bt.best_bid_qty, self.quote.qty, now));
            self.ask = Some(OpenOrder::new(1, Side::Ask, bt.best_ask_price, bt.best_ask_qty, self.quote.qty, now));
            self.inserted = true;
            return Ok(Some(Placement { bid_price: bt.best_bid_price, ask_price: bt.best_ask_price, timestamp: now }));
        }
        Ok(None)
    }

    /// Whether both live orders can take trade `t` within `i64`.
    pub fn accepts_trade(&self, t: &Trade) -> (r: bool)
        ensures
            r == (trade_accepted(self.bid, *t) && trade_accepted(self.ask, *t)),
    {
        slot_accepts_trade(&self.bid, t) && slot_accepts_trade(&self.ask, t)
    }

    /// Applies a trade to the bid, then to the ask.
    pub fn on_trade(&mut self, t: &Trade) -> (reports: (Option<FillReport>, Option<FillReport>))
        requires
            trade_accepted(old(self).bid, *t),
            trade_accepted(old(self).ask, *t),
        ensures
            (final(self).bid, reports.0) == trade_outcome(old(self).bid, *t),
            (final(self).ask, reports.1) == trade_outcome(old(self).ask, *t),
            final(self).book == old(self).book,
            final(self).inserted == old(self).inserted,
            final(self).quote == old(self).quote,
            old(self).well_formed() ==> final(self).well_formed(),
    {
        let bid_report = apply_trade(&mut self.bid, t);
        let ask_report = apply_trade(&mut self.ask, t);
        (bid_report, ask_report)
    }

    /// Whether both live orders can take book update `k` within `i64`.
    pub fn accepts_tick(&self, k: &BookTicker) -> (r: bool)
        ensures
            r == (tick_accepted(self.bid, *k) && tick_accepted(self.ask, *k)),
    {
        slot_accepts_tick(&self.bid, k) && slot_accepts_tick(&self.ask, k)
    }

    /// Takes a book update: an order whose side's touch moved off its price
    /// is terminated (bid first, then ask), and the update becomes the book
    /// snapshot later insertions queue behind.
    pub fn on_tick(&mut self, k: BookTicker) -> (outbids: (Option<Outbid>, Option<Outbid>))
        requires
            tick_accepted(old(self).bid, k),
            tick_accepted(old(self).ask, k),
        ensures
            (final(self).bid, outbids.0) == tick_outcome(old(self).bid, k),
            (final(self).ask, outbids.1) == tick_outcome(old(self).ask, k),
            final(self).book == Some(k),
            final(self).inserted == old(self).inserted,
            final(self).quote == old(self).quote,
            old(self).well_formed() ==> final(self).well_formed(),
    {
        let bid_outbid = apply_tick(&mut self.bid, &k);
        let ask_outbid = apply_tick(&mut self.ask, &k);
        self.book = Some(k);
        (bid_outbid, ask_outbid)
    }
}

} // verus!
