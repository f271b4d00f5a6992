pub mod health;
pub mod order;
pub mod orderbook;
pub mod trade;
