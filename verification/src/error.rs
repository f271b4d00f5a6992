use vstd::prelude::*;
use vstd::string::*;

use crate::sources::{decimal_text, format_u64, format_uuid, uuid_text};

verus! {

/// Errors the engine reports to its callers.
#[derive(Debug)]
pub enum AppError {
    /// Order not found (404)
    OrderNotFound(u128),
    /// Symbol not found (404)
    SymbolNotFound(String),
    /// Invalid order request (400)
    InvalidOrder(String),
    /// Cannot cancel filled order (400)
    CannotCancelFilledOrder(u128),
    /// Insufficient liquidity for market order (400)
    InsufficientLiquidity { available: u64, requested: u64 },
}

impl AppError {
    /// The HTTP status code that reports this error: 404 when the order or
    /// symbol is unknown, 400 when the request cannot be carried out.
    pub open spec fn status(&self) -> u16 {
        match self {
            AppError::OrderNotFound(_) | AppError::SymbolNotFound(_) => 404,
            _ => 400,
        }
    }

    /// Returns the HTTP status code that reports this error.
    pub fn status_code(&self) -> (code: u16)
        ensures
            code == self.status(),
    {
        match self {
            AppError::OrderNotFound(_) | AppError::SymbolNotFound(_) => 404,
            _ => 400,
        }
    }

    /// The text that reports this error.
    pub open spec fn message_text(&self) -> Seq<char> {
        match self {
            AppError::OrderNotFound(id) => "Order not found: "@ + uuid_text(*id),
            AppError::SymbolNotFound(symbol) => "Symbol not found: "@ + symbol@,
            AppError::InvalidOrder(msg) => "Invalid order: "@ + msg@,
            AppError::CannotCancelFilledOrder(id) => "Cannot cancel: order "@ + uuid_text(*id) + " already filled"@,
            AppError::InsufficientLiquidity { available, requested } => "Insufficient liquidity: only "@
                + decimal_text(*available as nat) + " available, requested "@ + decimal_text(*requested as nat),
        }
    }

    /// Returns the text that reports this error.
    pub fn message(&self) -> (m: String)
        ensures
            m@ == self.message_text(),
    {
        match self {
            AppError::OrderNotFound(id) => String::from_str("Order not found: ").concat(format_uuid(*id).as_str()),
            AppError::SymbolNotFound(symbol) => String::from_str("Symbol not found: ").concat(symbol.as_str()),
            AppError::InvalidOrder(msg) => String::from_str("Invalid order: ").concat(msg.as_str()),
            AppError::CannotCancelFilledOrder(id) => String::from_str("Cannot cancel: order ").concat(
                format_uuid(*id).as_str(),
            ).concat(" already filled"),
            AppError::InsufficientLiquidity { available, requested } => String::from_str(
                "Insufficient liquidity: only ",
            ).concat(format_u64(*available).as_str()).concat(" available, requested ").concat(
                format_u64(*requested).as_str(),
            ),
        }
    }
}

} // verus!
