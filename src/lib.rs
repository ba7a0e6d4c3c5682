//! A price-time priority limit order book and matching engine, with the blocking
//! queues that can feed it events from other threads.
pub mod order;
pub mod trade;
pub mod level;
pub mod book;
pub mod engine;
pub mod laws;
pub mod sync;
pub mod mpmc;
pub mod mpmc_queue;
pub mod mpsc;

pub use engine::{MatchError, MatchingEngine, process_event};
pub use order::{EventType, Order, OrderSide, OrderType};
pub use trade::MatchingResult;
