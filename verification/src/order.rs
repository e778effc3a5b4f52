use vstd::prelude::*;

verus! {

/// The side of the book an order rests on, or the side a trade consumed.
#[derive(Debug, Clone, Copy, PartialEq, Eq, Structural)]
pub enum Side {
    Bid,
    Ask,
}

/// How unexplained depth reduction at the order's level is attributed.
#[derive(Debug, Clone, Copy, PartialEq, Eq, Structural)]
pub enum QueueModel {
    Optimistic,
    Pessimistic,
    Proportional,
}

/// A simulated passive order resting at one price level.
///
/// Prices and quantities are scaled integers.
#[derive(Debug)]
pub struct OpenOrder {
    pub id: u64,
    pub side: Side,
    pub price: i64,
    pub qty_ahead: i64,
    pub qty_remaining: i64,
    pub created_ts: i64,
    pub traded_since_tick: i64,
    pub total_updates: i64,
    pub masked_updates: i64,
}

/// The smaller of two integers.
pub open spec fn min_int(a: int, b: int) -> int {
    if a <= b { a } else { b }
}

/// The part of a trade of `qty` that the queue ahead of the order absorbs.
pub open spec fn absorbed_by_queue(qty: int, ahead: int) -> int {
    min_int(qty, ahead)
}

/// The part of a trade of `qty` that fills an order with `ahead` queued in
/// front of it and `remaining` left to fill.
pub open spec fn filled_by_trade(qty: int, ahead: int, remaining: int) -> int {
    min_int(qty - absorbed_by_queue(qty, ahead), remaining)
}

/// The part of a positive `residual` that sat ahead of an order with `ahead`
/// queued in front of it, in a level `depth` deep, when cancellations are
/// split by the order's fractional position: `residual * ahead / depth`,
/// rounded down. With nothing ahead none of it was ahead; an order at or
/// beyond the level's depth has everything ahead.
pub open spec fn proportional_share(residual: int, ahead: int, depth: int) -> int {
    if ahead <= 0 {
        0
    } else if depth > 0 && ahead < depth {
        residual * ahead / depth
    } else {
        residual
    }
}

/// The part of a positive `residual` that the model credits to the queue
/// ahead: all of it (optimistic), none (pessimistic), or the order's
/// proportional share.
pub open spec fn credited_to_queue(model: QueueModel, residual: int, ahead: int, depth: int) -> int {
    match model {
        QueueModel::Optimistic => residual,
        QueueModel::Pessimistic => 0,
        QueueModel::Proportional => proportional_share(residual, ahead, depth),
    }
}

/// The queue ahead after a tick whose unexplained reduction is `residual`:
/// the credited cancellations leave the queue ahead the way a trade does,
/// never taking it below zero; a residual that is not positive moves nothing.
pub open spec fn queue_after_tick(model: QueueModel, residual: int, ahead: int, depth: int) -> int {
    let credited = credited_to_queue(model, residual, ahead, depth);
    if residual > 0 && credited > 0 {
        ahead - absorbed_by_queue(credited, ahead)
    } else {
        ahead
    }
}

pub proof fn lemma_proportional_share_bounds(residual: int, ahead: int, depth: int)
    requires
        residual > 0,
    ensures
        0 <= proportional_share(residual, ahead, depth) <= residual,
{
    if ahead > 0 && depth > 0 && ahead < depth {
        assert(0 <= residual * ahead / depth <= residual) by (nonlinear_arith)
            requires
                residual > 0,
                0 < ahead < depth,
        ;
    }
}

/// The three queue models bracket one another: for a positive residual and
/// a non-negative queue ahead, the optimistic model leaves the least ahead,
/// `max(0, ahead - residual)`, the pessimistic model leaves it unchanged, and
/// the proportional model lands between the two.
pub proof fn lemma_models_bracket(residual: int, ahead: int, depth: int)
    requires
        residual > 0,
        ahead >= 0,
    ensures
        queue_after_tick(QueueModel::Optimistic, residual, ahead, depth) == if ahead - residual > 0 {
            ahead - residual
        } else {
            0
        },
        queue_after_tick(QueueModel::Pessimistic, residual, ahead, depth) == ahead,
        queue_after_tick(QueueModel::Optimistic, residual, ahead, depth) <= queue_after_tick(
            QueueModel::Proportional,
            residual,
            ahead,
            depth,
        ) <= ahead,
{
    lemma_proportional_share_bounds(residual, ahead, depth);
}

/// Under the proportional model an order with `ahead` queued in front of it
/// in a level `depth` deep loses `residual * ahead / depth` (rounded down) of
/// its queue ahead, down to zero, when it sits inside the level, all of the
/// residual (down to zero) when it sits at or beyond the level's depth, and nothing when
/// nothing is ahead of it.
pub proof fn lemma_proportional_split(residual: int, ahead: int, depth: int)
    requires
        residual > 0,
    ensures
        0 < ahead < depth ==> queue_after_tick(QueueModel::Proportional, residual, ahead, depth) == if residual
            * ahead / depth < ahead {
            ahead - residual * ahead / depth
        } else {
            0
        },
        ahead > 0 && ahead >= depth ==> queue_after_tick(QueueModel::Proportional, residual, ahead, depth) == if ahead
            > residual {
            ahead - residual
        } else {
            0
        },
        ahead <= 0 ==> queue_after_tick(QueueModel::Proportional, residual, ahead, depth) == ahead,
{
    lemma_proportional_share_bounds(residual, ahead, depth);
}

/// A trade reaches a resting order only once the queue ahead of it has been
/// consumed; the queue absorbs first, the order takes at most what it still
/// needs, and of a non-negative trade nothing is lost unless the order is
/// completely filled.
pub proof fn lemma_queue_absorbs_first(qty: int, ahead: int, remaining: int)
    requires
        qty >= 0,
        ahead >= 0,
        remaining >= 0,
    ensures
        0 <= absorbed_by_queue(qty, ahead) <= ahead,
        0 <= filled_by_trade(qty, ahead, remaining) <= remaining,
        filled_by_trade(qty, ahead, remaining) > 0 ==> absorbed_by_queue(qty, ahead) == ahead,
        absorbed_by_queue(qty, ahead) + filled_by_trade(qty, ahead, remaining) <= qty,
        absorbed_by_queue(qty, ahead) + filled_by_trade(qty, ahead, remaining) < qty
            ==> filled_by_trade(qty, ahead, remaining) == remaining,
{
}

/// Two matching trades of non-negative size leave the queue ahead and the
/// remaining quantity where one trade of their combined size would, and
/// fill the same total.
pub proof fn lemma_trades_accumulate(q1: int, q2: int, ahead: int, remaining: int)
    requires
        q1 >= 0,
        q2 >= 0,
    ensures
        ({
            let ahead1 = ahead - absorbed_by_queue(q1, ahead);
            let fill1 = filled_by_trade(q1, ahead, remaining);
            let ahead2 = ahead1 - absorbed_by_queue(q2, ahead1);
            let fill2 = filled_by_trade(q2, ahead1, remaining - fill1);
            &&& ahead2 == ahead - absorbed_by_queue(q1 + q2, ahead)
            &&& fill1 + fill2 == filled_by_trade(q1 + q2, ahead, remaining)
        }),
{
}

/// A non-negative trade on an order with a non-negative queue ahead and
/// remaining quantity never grows either and keeps both non-negative; the
/// fill is exactly what the remaining quantity lost, comes only once the
/// queue ahead is empty, and with what the queue absorbed adds up to no more
/// than the trade.
pub proof fn lemma_trade_bounds(order: OpenOrder, qty: i64)
    requires
        order.qty_ahead >= 0,
        order.qty_remaining >= 0,
        qty >= 0,
        order.trade_in_range(qty),
    ensures
        ({
            let after = order.after_trade(qty);
            let fill = filled_by_trade(qty as int, order.qty_ahead as int, order.qty_remaining as int);
            &&& 0 <= after.qty_ahead <= order.qty_ahead
            &&& 0 <= after.qty_remaining <= order.qty_remaining
            &&& fill == order.qty_remaining - after.qty_remaining
            &&& fill > 0 ==> after.qty_ahead == 0
            &&& (order.qty_ahead - after.qty_ahead) + fill <= qty
        }),
{
    lemma_queue_absorbs_first(qty as int, order.qty_ahead as int, order.qty_remaining as int);
}

/// A trade concerns an order exactly when it is at the order's own price and
/// consumed the order's own side; any other price, above or below, on either
/// side, leaves the order alone.
pub proof fn lemma_trade_matches_only_own_price_and_side(order: OpenOrder, price: i64, consumed: Side)
    ensures
        order.matches_trade(price, consumed) <==> (price == order.price && consumed == order.side),
        price != order.price ==> !order.matches_trade(price, consumed),
        consumed != order.side ==> !order.matches_trade(price, consumed),
{
}

/// What a matching trade fills is the part of the trade beyond the queue
/// ahead, capped by what the order still needs; the queue ahead loses what it
/// absorbed and never goes below zero when it started at or above zero.
pub proof fn lemma_fill_is_excess_over_queue(qty: int, ahead: int, remaining: int)
    ensures
        filled_by_trade(qty, ahead, remaining) == if qty - ahead > 0 {
            if qty - ahead < remaining { qty - ahead } else { remaining }
        } else {
            if 0 < remaining { 0 } else { remaining }
        },
        ahead - absorbed_by_queue(qty, ahead) == if qty < ahead { ahead - qty } else { 0 },
{
}

impl OpenOrder {
    /// Whether a trade at `price` that consumed `consumed` concerns this order.
    pub open spec fn matches_trade(&self, price: i64, consumed: Side) -> bool {
        price == self.price && consumed == self.side
    }

    /// The arithmetic of a matching trade of `qty` stays within `i64`.
    pub open spec fn trade_in_range(&self, qty: i64) -> bool {
        &&& -i64::MAX <= self.qty_ahead - qty <= i64::MAX
        &&& i64::MIN <= self.traded_since_tick + qty <= i64::MAX
    }

    /// The order after a matching trade of `qty`: the queue ahead has
    /// absorbed its part, the order has been filled by the rest up to what it
    /// still needed, and the whole quantity counts as traded since the tick.
    pub open spec fn after_trade(self, qty: i64) -> OpenOrder {
        OpenOrder {
            qty_ahead: (self.qty_ahead - absorbed_by_queue(qty as int, self.qty_ahead as int)) as i64,
            qty_remaining: (self.qty_remaining - filled_by_trade(
                qty as int,
                self.qty_ahead as int,
                self.qty_remaining as int,
            )) as i64,
            traded_since_tick: (self.traded_since_tick + qty) as i64,
            ..self
        }
    }

    /// The depth reduction between two ticks that trades do not explain.
    pub open spec fn residual(&self, old_depth: i64, new_depth: i64) -> int {
        old_depth - new_depth - self.traded_since_tick
    }

    /// The arithmetic of a tick stays within `i64`.
    pub open spec fn tick_accepted(&self, old_depth: i64, new_depth: i64) -> bool {
        let residual = self.residual(old_depth, new_depth);
        &&& i64::MIN <= old_depth - new_depth <= i64::MAX
        &&& i64::MIN <= residual <= i64::MAX
        &&& self.total_updates < i64::MAX
        &&& residual < 0 ==> self.masked_updates < i64::MAX
    }

    /// Creates an order that joins the back of the queue: `qty_ahead` is
    /// all that rests at its price when it arrives.
    pub fn new(id: u64, side: Side, price: i64, qty_ahead: i64, qty_remaining: i64, created_ts: i64) -> (order: Self)
        ensures
            order.id == id,
            order.side == side,
            order.price == price,
            order.qty_ahead == qty_ahead,
            order.qty_remaining == qty_remaining,
            order.created_ts == created_ts,
            order.traded_since_tick == 0,
            order.total_updates == 0,
            order.masked_updates == 0,
    {
        OpenOrder {
            id,
            side,
            price,
            qty_ahead,
            qty_remaining,
            created_ts,
            traded_since_tick: 0,
            total_updates: 0,
            masked_updates: 0,
        }
    }

    /// Applies a trade of `qty` at `price` that consumed liquidity from the
    /// `consumed` side.
    ///
    /// A trade at another price or on the other side is ignored and gives
    /// `None`. Otherwise the queue ahead absorbs the trade first, only the
    /// remainder reaches the order, whatever exceeds the order is discarded,
    /// and the whole quantity is recorded as traded since the last tick. The
    /// result is the quantity filled.
    pub fn on_trade(&mut self, price: i64, qty: i64, consumed: Side) -> (filled: Option<i64>)
        requires
            old(self).matches_trade(price, consumed) ==> old(self).trade_in_range(qty),
        ensures
            !old(self).matches_trade(price, consumed) ==> {
                &&& filled is None
                &&& *final(self) == *old(self)
            },
            old(self).matches_trade(price, consumed) ==> {
                &&& filled == Some(filled_by_trade(qty as int, old(self).qty_ahead as int, old(self).qty_remaining as int) as i64)
                &&& *final(self) == old(self).after_trade(qty)
            },
    {
        if price != self.price || consumed != self.side {
            return None;
        }
        let absorbed: i64 = if qty < self.qty_ahead { qty } else { self.qty_ahead };
        self.qty_ahead = self.qty_ahead - absorbed;

        let reaching_me: i64 = qty - absorbed;
        let filled: i64 = if reaching_me < self.qty_remaining { reaching_me } else { self.qty_remaining };
        self.qty_remaining = self.qty_remaining - filled;
        self.traded_since_tick = self.traded_since_tick + qty;

        Some(filled)
    }

    /// Accounts for a book update at the order's level that took the depth
    /// from `old_depth` to `new_depth`.
    ///
    /// The traded volume since the last tick is set back to zero and the
    /// update is counted. A negative residual (more traded than the depth
    /// fell) is counted as masked and moves nothing. A positive residual is
    /// cancellations; the queue model says how much of it sat ahead of the
    /// order, and that much leaves the queue ahead, which never goes below
    /// zero.
    pub fn on_tick(&mut self, old_depth: i64, new_depth: i64, model: QueueModel)
        requires
            old(self).tick_accepted(old_depth, new_depth),
        ensures
            final(self).traded_since_tick == 0,
            final(self).total_updates == old(self).total_updates + 1,
            final(self).masked_updates == old(self).masked_updates
                + if old(self).residual(old_depth, new_depth) < 0 { 1int } else { 0int },
            final(self).qty_ahead == queue_after_tick(
                model,
                old(self).residual(old_depth, new_depth),
                old(self).qty_ahead as int,
                old_depth as int,
            ),
            final(self).qty_remaining == old(self).qty_remaining,
            final(self).id == old(self).id,
            final(self).side == old(self).side,
            final(self).price == old(self).price,
            final(self).created_ts == old(self).created_ts,
    {
        let gross: i64 = old_depth - new_depth;
        let residual: i64 = gross - self.traded_since_tick;
        self.traded_since_tick = 0;
        self.total_updates = self.total_updates + 1;

        if residual < 0 {
            self.masked_updates = self.masked_updates + 1;
            return;
        }
        if residual == 0 {
            return;
        }
        let ahead: i64 = match model {
            QueueModel::Optimistic => residual,
            QueueModel::Pessimistic => 0,
            QueueModel::Proportional => proportional_share_exec(residual, self.qty_ahead, old_depth),
        };
        if ahead > 0 {
            let absorbed: i64 = if ahead < self.qty_ahead { ahead } else { self.qty_ahead };
            self.qty_ahead = self.qty_ahead - absorbed;
        }
    }
}

/// The part of `residual` that the proportional model places ahead of
/// the order.
fn proportional_share_exec(residual: i64, ahead: i64, depth: i64) -> (share: i64)
    requires
        residual > 0,
    ensures
        share == proportional_share(residual as int, ahead as int, depth as int),
{
    if ahead <= 0 {
        0
    } else if depth > 0 && ahead < depth {
        proof {
            lemma_proportional_share_bounds(residual as int, ahead as int, depth as int);
        }
        assert(0 < residual * ahead <= i64::MAX * i64::MAX) by (nonlinear_arith)
            requires
                0 < residual <= i64::MAX,
                0 < ahead <= i64::MAX,
        ;
        let product: i128 = residual as i128 * ahead as i128;
        (product / depth as i128) as i64
    } else {
        residual
    }
}

} // verus!
