mod order;
mod order_book;
mod order_list;

pub use self::order::{Order, OrderType};
pub use self::order_book::OrderBook;
pub use self::order_list::{OrderList, OrderListView};
