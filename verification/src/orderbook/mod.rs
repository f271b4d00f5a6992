pub mod book;
pub mod price_level;
