//! Matching core of a limit order book.
//!
//! A [`TradingSystem`] keeps two price-indexed books, one of resting asks and
//! one of resting bids. Each submitted [`Order`] is matched against the
//! opposite book, best price first, and whatever is left of it rests in the
//! book of its own side.

pub mod book;
pub mod laws;
pub mod matching;
pub mod trading;
pub mod types;

pub use self::book::{Order, OrderBook, OrderList, OrderListView, OrderType};
pub use self::trading::{TradingPriorityType, TradingSystem, TradingSystemView};
pub use self::types::{Entry, FifoList, OrderedMap, Price, QuantityPriorityList};
