//! A limit order book engine: an order pool with an intrusive free list,
//! price-level FIFO queues linked through the pool, price-time matching with
//! iceberg orders and self-trade prevention, a pre-trade risk gateway, a
//! market-making strategy, a single-producer ring buffer, the wire and
//! journal formats of order messages, and an exchange that routes messages
//! to the book of their instrument.
pub mod bits;
pub mod exchange;
pub mod ledger;
pub mod market;
pub mod message;
pub mod network;
pub mod orderbook;
pub mod pool;
pub mod properties;
pub mod queue;
pub mod risk;
pub mod strategy;
pub mod workload;
