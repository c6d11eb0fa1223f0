//! The matching engine of many instruments: one order book, order pool and
//! market maker per ticker. A message is dispatched by its order type to its
//! ticker's book; the market maker then reacts to the new book, and its
//! orders are dispatched to the same book.
use vstd::prelude::*;
use crate::market::{Market, process, process_ok, cancel, modify, modify_ok};
use crate::message::OrderMessage;
use crate::orderbook::{OrderBook, MarketDataEvent, TYPE_LIMIT, TYPE_IOC, TYPE_FOK, TYPE_CANCEL, TYPE_MODIFY};
use crate::pool::{OrderPool, NULL_IDX, initial_slot};
use crate::strategy::{MarketMakerStrategy, strategy_step, strategy_ok};
use crate::market::resting;
use crate::properties::{uncrossed, lemma_book_dispatch_uncrossed};

verus! {

/// What a message does to the market of its ticker, by its order type:
/// limit, IOC and FOK orders are matched, a cancel cancels, a modify
/// modifies.
pub open spec fn dispatch(m: Market, msg: OrderMessage) -> (Market, Seq<MarketDataEvent>) {
    if msg.order_type == TYPE_CANCEL {
        cancel(m, msg.order_id, msg.user_id, msg.ticker_id)
    } else if msg.order_type == TYPE_MODIFY {
        modify(m, msg.order_id, msg.is_bid, msg.price, msg.quantity, msg.user_id, msg.ticker_id)
    } else {
        process(
            m,
            msg.is_bid,
            msg.price,
            msg.order_id,
            msg.quantity,
            msg.display_quantity,
            msg.order_type,
            msg.ticker_id,
            msg.user_id,
        )
    }
}

/// The message has one of the five order types, and its handling stays
/// within the book's bounds.
pub open spec fn dispatch_ok(m: Market, msg: OrderMessage) -> bool {
    &&& msg.order_type <= TYPE_MODIFY
    &&& msg.order_type == TYPE_MODIFY ==> modify_ok(
        m,
        msg.order_id,
        msg.is_bid,
        msg.price,
        msg.quantity,
        msg.user_id,
        msg.ticker_id,
    )
    &&& msg.order_type < TYPE_CANCEL ==> process_ok(
        m,
        msg.is_bid,
        msg.price,
        msg.order_id,
        msg.quantity,
        msg.display_quantity,
        msg.order_type,
        msg.ticker_id,
        msg.user_id,
    )
}

/// The messages dispatched one after the other, with the events of each
/// appended in turn.
pub open spec fn dispatch_all(m: Market, msgs: Seq<OrderMessage>) -> (Market, Seq<MarketDataEvent>)
    decreases msgs.len(),
{
    if msgs.len() == 0 {
        (m, seq![])
    } else {
        let r = dispatch_all(m, msgs.drop_last());
        let d = dispatch(r.0, msgs.last());
        (d.0, r.1 + d.1)
    }
}

pub open spec fn dispatch_all_ok(m: Market, msgs: Seq<OrderMessage>) -> bool
    decreases msgs.len(),
{
    msgs.len() > 0 ==> {
        &&& dispatch_all_ok(m, msgs.drop_last())
        &&& dispatch_ok(dispatch_all(m, msgs.drop_last()).0, msgs.last())
    }
}

proof fn lemma_dispatch_all_ok_prefix(m: Market, msgs: Seq<OrderMessage>, i: int)
    requires
        dispatch_all_ok(m, msgs),
        0 <= i < msgs.len(),
    ensures
        dispatch_all_ok(m, msgs.take(i)),
        dispatch_ok(dispatch_all(m, msgs.take(i)).0, msgs[i]),
    decreases msgs.len(),
{
    if i + 1 < msgs.len() {
        assert(msgs.drop_last().take(i) == msgs.take(i));
        lemma_dispatch_all_ok_prefix(m, msgs.drop_last(), i);
    } else {
        assert(msgs.drop_last() == msgs.take(i));
    }
}

fn dispatch_limit(book: &mut OrderBook, pool: &mut OrderPool, msg: &OrderMessage, egress: &mut Vec<MarketDataEvent>)
    requires
        old(book).wf(old(pool)),
        process_ok(
            old(book).market(old(pool)),
            msg.is_bid,
            msg.price,
            msg.order_id,
            msg.quantity,
            msg.display_quantity,
            msg.order_type,
            msg.ticker_id,
            msg.user_id,
        ),
    ensures
        final(book).wf(final(pool)),
        (final(book).market(final(pool)), final(egress)@) == ({
            let r = process(
                old(book).market(old(pool)),
                msg.is_bid,
                msg.price,
                msg.order_id,
                msg.quantity,
                msg.display_quantity,
                msg.order_type,
                msg.ticker_id,
                msg.user_id,
            );
            (r.0, old(egress)@ + r.1)
        }),
{
    book.process_order(
        pool,
        msg.is_bid,
        msg.price,
        msg.order_id,
        msg.quantity,
        msg.display_quantity,
        msg.order_type,
        msg.ticker_id,
        msg.user_id,
        egress,
    );
}

fn dispatch_ioc(book: &mut OrderBook, pool: &mut OrderPool, msg: &OrderMessage, egress: &mut Vec<MarketDataEvent>)
    requires
        old(book).wf(old(pool)),
        process_ok(
            old(book).market(old(pool)),
            msg.is_bid,
            msg.price,
            msg.order_id,
            msg.quantity,
            msg.display_quantity,
            msg.order_type,
            msg.ticker_id,
            msg.user_id,
        ),
    ensures
        final(book).wf(final(pool)),
        (final(book).market(final(pool)), final(egress)@) == ({
            let r = process(
                old(book).market(old(pool)),
                msg.is_bid,
                msg.price,
                msg.order_id,
                msg.quantity,
                msg.display_quantity,
                msg.order_type,
                msg.ticker_id,
                msg.user_id,
            );
            (r.0, old(egress)@ + r.1)
        }),
{
    book.process_order(
        pool,
        msg.is_bid,
        msg.price,
        msg.order_id,
        msg.quantity,
        msg.display_quantity,
        msg.order_type,
        msg.ticker_id,
        msg.user_id,
        egress,
    );
}

fn dispatch_fok(book: &mut OrderBook, pool: &mut OrderPool, msg: &OrderMessage, egress: &mut Vec<MarketDataEvent>)
    requires
        old(book).wf(old(pool)),
        process_ok(
            old(book).market(old(pool)),
            msg.is_bid,
            msg.price,
            msg.order_id,
            msg.quantity,
            msg.display_quantity,
            msg.order_type,
            msg.ticker_id,
            msg.user_id,
        ),
    ensures
        final(book).wf(final(pool)),
        (final(book).market(final(pool)), final(egress)@) == ({
            let r = process(
                old(book).market(old(pool)),
                msg.is_bid,
                msg.price,
                msg.order_id,
                msg.quantity,
                msg.display_quantity,
                msg.order_type,
                msg.ticker_id,
                msg.user_id,
            );
            (r.0, old(egress)@ + r.1)
        }),
{
    book.process_order(
        pool,
        msg.is_bid,
        msg.price,
        msg.order_id,
        msg.quantity,
        msg.display_quantity,
        msg.order_type,
        msg.ticker_id,
        msg.user_id,
        egress,
    );
}

fn dispatch_cancel(book: &mut OrderBook, pool: &mut OrderPool, msg: &OrderMessage, egress: &mut Vec<MarketDataEvent>)
    requires
        old(book).wf(old(pool)),
    ensures
        final(book).wf(final(pool)),
        (final(book).market(final(pool)), final(egress)@) == ({
            let r = cancel(old(book).market(old(pool)), msg.order_id, msg.user_id, msg.ticker_id);
            (r.0, old(egress)@ + r.1)
        }),
{
    book.cancel_order(pool, msg.order_id, msg.user_id, msg.ticker_id, egress);
}

fn dispatch_modify(book: &mut OrderBook, pool: &mut OrderPool, msg: &OrderMessage, egress: &mut Vec<MarketDataEvent>)
    requires
        old(book).wf(old(pool)),
        modify_ok(
            old(book).market(old(pool)),
            msg.order_id,
            msg.is_bid,
            msg.price,
            msg.quantity,
            msg.user_id,
            msg.ticker_id,
        ),
    ensures
        final(book).wf(final(pool)),
        (final(book).market(final(pool)), final(egress)@) == ({
            let r = modify(
                old(book).market(old(pool)),
                msg.order_id,
                msg.is_bid,
                msg.price,
                msg.quantity,
                msg.user_id,
                msg.ticker_id,
            );
            (r.0, old(egress)@ + r.1)
        }),
{
    book.modify_order(
        pool,
        msg.order_id,
        msg.is_bid,
        msg.price,
        msg.quantity,
        msg.user_id,
        msg.ticker_id,
        egress,
    );
}

/// Hands `msg` to the handler of its order type.
fn dispatch_message(book: &mut OrderBook, pool: &mut OrderPool, msg: &OrderMessage, egress: &mut Vec<MarketDataEvent>)
    requires
        old(book).wf(old(pool)),
        dispatch_ok(old(book).market(old(pool)), *msg),
    ensures
        final(book).wf(final(pool)),
        (final(book).market(final(pool)), final(egress)@) == ({
            let r = dispatch(old(book).market(old(pool)), *msg);
            (r.0, old(egress)@ + r.1)
        }),
{
    if msg.order_type == TYPE_LIMIT {
        dispatch_limit(book, pool, msg, egress);
    } else if msg.order_type == TYPE_IOC {
        dispatch_ioc(book, pool, msg, egress);
    } else if msg.order_type == TYPE_FOK {
        dispatch_fok(book, pool, msg, egress);
    } else if msg.order_type == TYPE_CANCEL {
        dispatch_cancel(book, pool, msg, egress);
    } else {
        dispatch_modify(book, pool, msg, egress);
    }
}

/// What a message does on its ticker: it is dispatched, the market maker
/// reacts to the resulting book, and its orders are dispatched in turn.
/// The result is the new market, the new state of the market maker, and
/// the events published, in order.
pub open spec fn route(m: Market, s: MarketMakerStrategy, msg: OrderMessage) -> (
    Market,
    MarketMakerStrategy,
    Seq<MarketDataEvent>,
) {
    let d = dispatch(m, msg);
    let st = strategy_step(s, d.0.best_bid, d.0.best_ask, d.0.asks.len() as int, msg.ticker_id);
    let r = dispatch_all(d.0, st.1);
    (r.0, st.0, d.1 + r.1)
}

/// Every step of `route` stays within its bounds.
pub open spec fn route_ok(m: Market, s: MarketMakerStrategy, msg: OrderMessage) -> bool {
    let d = dispatch(m, msg);
    &&& dispatch_ok(m, msg)
    &&& strategy_ok(s, d.0.best_bid, d.0.best_ask, d.0.asks.len() as int)
    &&& dispatch_all_ok(
        d.0,
        strategy_step(s, d.0.best_bid, d.0.best_ask, d.0.asks.len() as int, msg.ticker_id).1,
    )
}

/// Runs `route` on one ticker's book, pool and market maker.
fn run_ticker(
    book: &mut OrderBook,
    pool: &mut OrderPool,
    strategy: &mut MarketMakerStrategy,
    msg: &OrderMessage,
    egress: &mut Vec<MarketDataEvent>,
)
    requires
        old(book).wf(old(pool)),
        route_ok(old(book).market(old(pool)), *old(strategy), *msg),
    ensures
        final(book).wf(final(pool)),
        ({
            let r = route(old(book).market(old(pool)), *old(strategy), *msg);
            &&& final(book).market(final(pool)) == r.0
            &&& *final(strategy) == r.1
            &&& final(egress)@ == old(egress)@ + r.2
        }),
        uncrossed(old(book).market(old(pool))) ==> uncrossed(final(book).market(final(pool))),
{
    let ghost m0 = book.market(pool);
    let ghost e0 = egress@;
    proof {
        if uncrossed(m0) {
            lemma_book_dispatch_uncrossed(book, pool, *msg);
        }
    }
    dispatch_message(book, pool, msg, egress);
    let ghost d = dispatch(m0, *msg);
    proof {
        book.lemma_market_tops(pool);
    }
    let ghost st = strategy_step(*strategy, d.0.best_bid, d.0.best_ask, d.0.asks.len() as int, msg.ticker_id);
    let (actions, count) = strategy.on_book_update(book, msg.ticker_id);
    let mut i: usize = 0;
    while i < count
        invariant
            i <= count,
            count <= 2,
            actions@.len() == 2,
            count == st.1.len(),
            forall|k: int| 0 <= k < count ==> actions@[k] == st.1[k],
            dispatch_all_ok(d.0, st.1),
            book.wf(pool),
            book.market(pool) == dispatch_all(d.0, st.1.take(i as int)).0,
            egress@ == e0 + d.1 + dispatch_all(d.0, st.1.take(i as int)).1,
            uncrossed(m0) ==> uncrossed(book.market(pool)),
        decreases count - i,
    {
        proof {
            if uncrossed(book.market(pool)) {
                lemma_book_dispatch_uncrossed(book, pool, actions@[i as int]);
            }
            lemma_dispatch_all_ok_prefix(d.0, st.1, i as int);
            assert(st.1.take(i + 1).drop_last() == st.1.take(i as int));
            assert(st.1.take(i + 1).last() == st.1[i as int]);
        }
        dispatch_message(book, pool, &actions[i], egress);
        i = i + 1;
    }
    assert(st.1.take(count as int) == st.1);
}

/// The market of a new book of `levels` price levels per side and a new
/// pool of `capacity` slots.
pub open spec fn empty_market(levels: nat, capacity: nat) -> Market {
    Market {
        bids: Seq::new(levels, |p: int| Seq::<u32>::empty()),
        asks: Seq::new(levels, |p: int| Seq::<u32>::empty()),
        slots: Seq::new(capacity, |i: int| resting(initial_slot(i, capacity as int))),
        free: Seq::new(capacity, |i: int| i as u32),
        order_map: Seq::new(capacity, |i: int| NULL_IDX),
        best_bid: 0,
        best_ask: NULL_IDX,
    }
}

/// The market maker every ticker starts with.
pub open spec fn house_strategy() -> MarketMakerStrategy {
    MarketMakerStrategy {
        user_id: 1000,
        active_bid_id: 0,
        active_ask_id: 0,
        current_bid_price: 0,
        current_ask_price: 0,
        base_order_id: 20_000,
        spread_tolerance: 4,
    }
}

/// Price levels per side of every book.
pub const PRICE_LEVELS: usize = 100_000;

/// The engine of all tickers. `E` is the handle on the queue that the
/// buffered events are handed on to, which the engine itself never touches.
pub struct Exchange<E> {
    books: Vec<OrderBook>,
    pools: Vec<OrderPool>,
    strategies: Vec<MarketMakerStrategy>,
    pub egress_queue: E,
    pub egress_buffer: Vec<MarketDataEvent>,
}

impl<E> Exchange<E> {
    /// The number of tickers.
    pub closed spec fn tickers(&self) -> nat {
        self.books@.len()
    }

    /// The book of ticker `t`.
    pub closed spec fn book_at(&self, t: int) -> OrderBook {
        self.books@[t]
    }

    /// The order pool of ticker `t`.
    pub closed spec fn pool_at(&self, t: int) -> OrderPool {
        self.pools@[t]
    }

    /// The market of each ticker.
    pub closed spec fn markets(&self) -> Seq<Market> {
        Seq::new(self.books@.len(), |i: int| self.book_at(i).market(&self.pool_at(i)))
    }

    /// The market maker of each ticker.
    pub closed spec fn strategies_of(&self) -> Seq<MarketMakerStrategy> {
        self.strategies@
    }

    /// The handle on the egress queue.
    pub closed spec fn egress(&self) -> E {
        self.egress_queue
    }

    /// The events waiting in the egress buffer.
    pub closed spec fn buffered(&self) -> Seq<MarketDataEvent> {
        self.egress_buffer@
    }

    /// One pool and one market maker per book, and every book sound with
    /// its pool.
    pub closed spec fn wf(&self) -> bool {
        &&& self.pools@.len() == self.books@.len()
        &&& self.strategies@.len() == self.books@.len()
        &&& forall|i: int| 0 <= i < self.books@.len() ==> #[trigger] self.books@[i].wf(&self.pools@[i])
    }

    /// A sound exchange has a market and a market maker for each ticker.
    pub proof fn lemma_lens(&self)
        requires
            self.wf(),
        ensures
            self.markets().len() == self.tickers(),
            self.strategies_of().len() == self.tickers(),
    {
    }

    /// An exchange of `num_tickers` tickers, each with an empty book, a pool
    /// of `pool_capacity_per_ticker` slots and the house market maker.
    pub fn new(num_tickers: usize, pool_capacity_per_ticker: usize, egress_queue: E) -> (x: Self)
        requires
            num_tickers > 0 ==> 1 <= pool_capacity_per_ticker <= NULL_IDX,
        ensures
            x.wf(),
            x.tickers() == num_tickers,
            x.markets() == Seq::new(
                num_tickers as nat,
                |i: int| empty_market(PRICE_LEVELS as nat, pool_capacity_per_ticker as nat),
            ),
            x.strategies_of() == Seq::new(num_tickers as nat, |i: int| house_strategy()),
            x.egress() == egress_queue,
            x.buffered() == Seq::<MarketDataEvent>::empty(),
    {
        let ghost em = empty_market(PRICE_LEVELS as nat, pool_capacity_per_ticker as nat);
        let mut books: Vec<OrderBook> = Vec::with_capacity(num_tickers);
        let mut pools: Vec<OrderPool> = Vec::with_capacity(num_tickers);
        let mut strategies: Vec<MarketMakerStrategy> = Vec::with_capacity(num_tickers);
        let mut i: usize = 0;
        while i < num_tickers
            invariant
                num_tickers > 0 ==> 1 <= pool_capacity_per_ticker <= NULL_IDX,
                em == empty_market(PRICE_LEVELS as nat, pool_capacity_per_ticker as nat),
                i <= num_tickers,
                books@.len() == i,
                pools@.len() == i,
                strategies@.len() == i,
                forall|j: int| 0 <= j < i ==> #[trigger] books@[j].wf(&pools@[j]),
                forall|j: int| 0 <= j < i ==> #[trigger] books@[j].market(&pools@[j]) == em,
                forall|j: int| 0 <= j < i ==> #[trigger] strategies@[j] == house_strategy(),
            decreases num_tickers - i,
        {
            let book = OrderBook::new(PRICE_LEVELS, pool_capacity_per_ticker);
            let pool = OrderPool::new(pool_capacity_per_ticker);
            proof {
                assert(book.wf(&pool));
                let m = book.market(&pool);
                assert(m.slots =~= em.slots);
                assert(m == em);
            }
            books.push(book);
            pools.push(pool);
            strategies.push(MarketMakerStrategy::new(1000, 4));
            i = i + 1;
        }
        let x = Exchange { books, pools, strategies, egress_queue, egress_buffer: Vec::with_capacity(1024) };
        assert(x.markets() =~= Seq::new(num_tickers as nat, |i: int| em));
        assert(x.strategies_of() =~= Seq::new(num_tickers as nat, |i: int| house_strategy()));
        x
    }

    /// The best bid and best ask of ticker `ticker`.
    pub fn best_prices(&self, ticker: usize) -> (r: (u32, u32))
        requires
            self.wf(),
            ticker < self.tickers(),
        ensures
            r == (self.markets()[ticker as int].best_bid, self.markets()[ticker as int].best_ask),
    {
        let book = &self.books[ticker];
        (book.best_bid_price(), book.best_ask_price())
    }

    /// The book of ticker `ticker`.
    pub fn book(&self, ticker: usize) -> (b: &OrderBook)
        requires
            ticker < self.tickers(),
            self.wf(),
        ensures
            *b == self.book_at(ticker as int),
    {
        &self.books[ticker]
    }

    /// The order pool of ticker `ticker`.
    pub fn pool(&self, ticker: usize) -> (p: &OrderPool)
        requires
            ticker < self.tickers(),
            self.wf(),
        ensures
            *p == self.pool_at(ticker as int),
    {
        &self.pools[ticker]
    }

    /// The market maker of ticker `ticker`.
    pub fn strategy(&self, ticker: usize) -> (s: MarketMakerStrategy)
        requires
            ticker < self.tickers(),
            self.wf(),
        ensures
            s == self.strategies_of()[ticker as int],
    {
        let s = &self.strategies[ticker];
        MarketMakerStrategy {
            user_id: s.user_id,
            active_bid_id: s.active_bid_id,
            active_ask_id: s.active_ask_id,
            current_bid_price: s.current_bid_price,
            current_ask_price: s.current_ask_price,
            base_order_id: s.base_order_id,
            spread_tolerance: s.spread_tolerance,
        }
    }

    /// Handles `msg` on its ticker: the book takes the message, the market
    /// maker reacts, and its orders go to the same book. The events are
    /// appended to the egress buffer.
    pub fn route_and_execute(&mut self, msg: OrderMessage)
        requires
            old(self).wf(),
            msg.ticker_id < old(self).tickers(),
            route_ok(
                old(self).markets()[msg.ticker_id as int],
                old(self).strategies_of()[msg.ticker_id as int],
                msg,
            ),
        ensures
            final(self).wf(),
            final(self).tickers() == old(self).tickers(),
            ({
                let t = msg.ticker_id as int;
                let r = route(old(self).markets()[t], old(self).strategies_of()[t], msg);
                &&& uncrossed(old(self).markets()[t]) ==> uncrossed(r.0)
                &&& final(self).markets() == old(self).markets().update(t, r.0)
                &&& final(self).strategies_of() == old(self).strategies_of().update(t, r.1)
                &&& final(self).buffered() == old(self).buffered() + r.2
            }),
            final(self).egress() == old(self).egress(),
    {
        let idx = msg.ticker_id as usize;
        let ghost t = idx as int;
        let ghost r = route(self.markets()[t], self.strategies@[t], msg);
        proof {
            assert(self.books@[t].wf(&self.pools@[t]));
        }
        run_ticker(
            &mut self.books[idx],
            &mut self.pools[idx],
            &mut self.strategies[idx],
            &msg,
            &mut self.egress_buffer,
        );
        proof {
            assert forall|i: int| 0 <= i < self.books@.len() implies #[trigger] self.books@[i].wf(&self.pools@[i]) by {
                if i != t {
                    assert(self.books@[i] == old(self).books@[i]);
                }
            }
            assert(self.markets() =~= old(self).markets().update(t, r.0));
        }
    }
}

} // verus!
