use vstd::prelude::*;

use crate::models::trade::TradeInfo;
use crate::sources::{new_uuid, now_nanos};

verus! {

/// Side of the order: buy or sell.
#[derive(Debug, Clone, Copy, PartialEq, Eq, Structural)]
pub enum Side {
    Buy,
    Sell,
}

/// Type of order: limit or market.
#[derive(Debug, Clone, Copy, PartialEq, Eq, Structural)]
pub enum OrderType {
    Limit,
    Market,
}

/// Current status of an order.
#[derive(Debug, Clone, Copy, PartialEq, Eq, Structural)]
pub enum OrderStatus {
    /// Order has been accepted and added to the book
    Accepted,
    /// Order has been partially filled (only for LIMIT orders)
    PartialFill,
    /// Order has been completely filled
    Filled,
    /// Order has been cancelled by the user
    Cancelled,
}

/// Request payload for creating a new order.
#[derive(Debug)]
pub struct CreateOrderRequest {
    pub symbol: String,
    pub side: Side,
    pub order_type: OrderType,
    /// Price in the smallest unit (e.g., cents). Required for LIMIT orders.
    pub price: Option<u64>,
    pub quantity: u64,
}

/// The message with which a request is refused, if it is refused.
pub open spec fn validation_error(r: CreateOrderRequest) -> Option<Seq<char>> {
    if r.symbol@.len() == 0 {
        Some("Symbol cannot be empty"@)
    } else if r.quantity == 0 {
        Some("Quantity must be positive"@)
    } else {
        match r.order_type {
            OrderType::Limit => match r.price {
                None => Some("Price is required for LIMIT orders"@),
                Some(p) => if p == 0 { Some("Price must be positive"@) } else { None },
            },
            OrderType::Market => match r.price {
                Some(_) => Some("Price should not be specified for MARKET orders"@),
                None => None,
            },
        }
    }
}

impl CreateOrderRequest {
    /// Validates the order request.
    pub fn validate(&self) -> (result: Result<(), String>)
        ensures
            match result {
                Ok(()) => validation_error(*self) is None,
                Err(msg) => validation_error(*self) == Some(msg@),
            },
    {
        broadcast use vstd::string::to_string_from_display_ensures_for_str;
        if self.symbol.as_str().is_empty() {
            return Err("Symbol cannot be empty".to_string());
        }
        if self.quantity == 0 {
            return Err("Quantity must be positive".to_string());
        }
        match self.order_type {
            OrderType::Limit => {
                match self.price {
                    None => {
                        return Err("Price is required for LIMIT orders".to_string());
                    },
                    Some(p) => {
                        if p == 0 {
                            return Err("Price must be positive".to_string());
                        }
                    },
                }
            },
            OrderType::Market => {
                if self.price.is_some() {
                    return Err("Price should not be specified for MARKET orders".to_string());
                }
            },
        }
        Ok(())
    }
}

/// Internal representation of an order.
#[derive(Debug)]
pub struct Order {
    pub id: u128,
    pub symbol: String,
    pub side: Side,
    pub order_type: OrderType,
    pub price: Option<u64>,
    pub quantity: u64,
    pub filled_quantity: u64,
    pub status: OrderStatus,
    /// Creation time, in nanoseconds since the Unix epoch
    pub created_at: i128,
    /// Time of the last change, in nanoseconds since the Unix epoch
    pub updated_at: i128,
}

impl Clone for Order {
    fn clone(&self) -> (r: Self)
        ensures
            r == *self,
    {
        Order {
            id: self.id,
            symbol: self.symbol.clone(),
            side: self.side,
            order_type: self.order_type,
            price: self.price,
            quantity: self.quantity,
            filled_quantity: self.filled_quantity,
            status: self.status,
            created_at: self.created_at,
            updated_at: self.updated_at,
        }
    }
}

impl Order {
    /// The order that a valid request becomes, under a given id and creation time.
    pub open spec fn from_request(request: CreateOrderRequest, id: u128, now: i128) -> Order {
        Order {
            id,
            symbol: request.symbol,
            side: request.side,
            order_type: request.order_type,
            price: request.price,
            quantity: request.quantity,
            filled_quantity: 0,
            status: OrderStatus::Accepted,
            created_at: now,
            updated_at: now,
        }
    }

    /// Quantity still to be filled (zero once filled, never negative).
    pub open spec fn remaining(self) -> nat {
        if self.filled_quantity <= self.quantity {
            (self.quantity - self.filled_quantity) as nat
        } else {
            0
        }
    }

    /// The order is completely filled.
    pub open spec fn filled(self) -> bool {
        self.filled_quantity >= self.quantity
    }

    /// The order can still be matched.
    pub open spec fn active(self) -> bool {
        self.status is Accepted || self.status is PartialFill
    }

    /// The order after `quantity` more units of it were filled at time `now`.
    pub open spec fn after_fill(self, quantity: u64, now: i128) -> Order {
        let f = (self.filled_quantity + quantity) as u64;
        Order {
            filled_quantity: f,
            updated_at: now,
            status: if f >= self.quantity {
                OrderStatus::Filled
            } else if f > 0 {
                OrderStatus::PartialFill
            } else {
                self.status
            },
            ..self
        }
    }

    /// The order after it was cancelled at time `now`.
    pub open spec fn after_cancel(self, now: i128) -> Order {
        Order { status: OrderStatus::Cancelled, updated_at: now, ..self }
    }

    /// The status agrees with the filled quantity: an accepted order has no
    /// fill, a partially filled one has some but not all, a filled one has all,
    /// and a cancelled one was not completely filled.
    pub open spec fn status_consistent(self) -> bool {
        &&& self.filled_quantity <= self.quantity
        &&& match self.status {
            OrderStatus::Accepted => self.filled_quantity == 0,
            OrderStatus::PartialFill => 0 < self.filled_quantity < self.quantity,
            OrderStatus::Filled => self.filled_quantity == self.quantity,
            OrderStatus::Cancelled => self.filled_quantity < self.quantity,
        }
    }

    /// Creates a new order from a request, with a fresh id, created now.
    pub fn new(request: CreateOrderRequest) -> (order: Self)
        ensures
            order == Order::from_request(request, order.id, order.created_at),
            order.id & 0xF000_C000_0000_0000_0000u128 == 0x4000_8000_0000_0000_0000u128,
            order.created_at >= 0,
    {
        let id = new_uuid();
        let now = now_nanos();
        Order::with_id(request, id, now)
    }

    /// Creates the order for a request under the given id and creation time.
    pub fn with_id(request: CreateOrderRequest, id: u128, now: i128) -> (order: Self)
        ensures
            order == Order::from_request(request, id, now),
    {
        Order {
            id,
            symbol: request.symbol,
            side: request.side,
            order_type: request.order_type,
            price: request.price,
            quantity: request.quantity,
            filled_quantity: 0,
            status: OrderStatus::Accepted,
            created_at: now,
            updated_at: now,
        }
    }

    /// Returns the remaining quantity to be filled.
    pub fn remaining_quantity(&self) -> (r: u64)
        ensures
            r == self.remaining(),
    {
        self.quantity.saturating_sub(self.filled_quantity)
    }

    /// Checks if the order is fully filled.
    pub fn is_filled(&self) -> (b: bool)
        ensures
            b == self.filled(),
    {
        self.filled_quantity >= self.quantity
    }

    /// Checks if the order can be matched (is active in the book).
    pub fn is_active(&self) -> (b: bool)
        ensures
            b == self.active(),
    {
        match self.status {
            OrderStatus::Accepted | OrderStatus::PartialFill => true,
            _ => false,
        }
    }

    /// Fills the order by the given quantity, stamping the update with the
    /// current time.
    pub fn fill(&mut self, quantity: u64)
        requires
            old(self).filled_quantity + quantity <= u64::MAX,
        ensures
            *final(self) == old(self).after_fill(quantity, final(self).updated_at),
            final(self).updated_at >= 0,
    {
        let now = now_nanos();
        self.fill_at(quantity, now);
    }

    /// Fills the order by the given quantity at time `now`.
    pub fn fill_at(&mut self, quantity: u64, now: i128)
        requires
            old(self).filled_quantity + quantity <= u64::MAX,
        ensures
            *final(self) == old(self).after_fill(quantity, now),
    {
        self.filled_quantity = self.filled_quantity + quantity;
        self.updated_at = now;
        if self.is_filled() {
            self.status = OrderStatus::Filled;
        } else if self.filled_quantity > 0 {
            self.status = OrderStatus::PartialFill;
        }
    }

    /// Cancels the order, stamping the update with the current time.
    pub fn cancel(&mut self)
        ensures
            *final(self) == old(self).after_cancel(final(self).updated_at),
            final(self).updated_at >= 0,
    {
        let now = now_nanos();
        self.cancel_at(now);
    }

    /// Cancels the order at time `now`.
    pub fn cancel_at(&mut self, now: i128)
        ensures
            *final(self) == old(self).after_cancel(now),
    {
        self.status = OrderStatus::Cancelled;
        self.updated_at = now;
    }

    /// The status response that describes this order.
    pub open spec fn status_view(self) -> OrderStatusResponse {
        OrderStatusResponse {
            order_id: self.id,
            symbol: self.symbol,
            side: self.side,
            order_type: self.order_type,
            price: self.price,
            quantity: self.quantity,
            filled_quantity: self.filled_quantity,
            remaining_quantity: self.remaining() as u64,
            status: self.status,
            created_at: self.created_at,
            updated_at: self.updated_at,
        }
    }

    /// Converts the order to a status response.
    pub fn to_status_response(&self) -> (r: OrderStatusResponse)
        ensures
            r == self.status_view(),
    {
        OrderStatusResponse {
            order_id: self.id,
            symbol: self.symbol.clone(),
            side: self.side,
            order_type: self.order_type,
            price: self.price,
            quantity: self.quantity,
            filled_quantity: self.filled_quantity,
            remaining_quantity: self.remaining_quantity(),
            status: self.status,
            created_at: self.created_at,
            updated_at: self.updated_at,
        }
    }
}

/// Response for order submission - Accepted (added to book, no fills).
#[derive(Debug)]
pub struct OrderAcceptedResponse {
    pub order_id: u128,
    pub status: OrderStatus,
    pub message: String,
}

/// Response for order submission - Partial Fill.
#[derive(Debug)]
pub struct OrderPartialFillResponse {
    pub order_id: u128,
    pub status: OrderStatus,
    pub filled_quantity: u64,
    pub remaining_quantity: u64,
    pub trades: Vec<TradeInfo>,
}

/// Response for order submission - Fully Filled.
#[derive(Debug)]
pub struct OrderFilledResponse {
    pub order_id: u128,
    pub status: OrderStatus,
    pub filled_quantity: u64,
    pub trades: Vec<TradeInfo>,
}

/// Unified response enum for order submission.
#[derive(Debug)]
pub enum SubmitOrderResponse {
    Accepted(OrderAcceptedResponse),
    PartialFill(OrderPartialFillResponse),
    Filled(OrderFilledResponse),
}

impl SubmitOrderResponse {
    /// Creates an Accepted response.
    pub fn accepted(order_id: u128) -> (r: Self)
        ensures
            r matches SubmitOrderResponse::Accepted(a) && a.order_id == order_id
                && a.status == OrderStatus::Accepted && a.message@ == "Order added to book"@,
    {
        broadcast use vstd::string::to_string_from_display_ensures_for_str;
        SubmitOrderResponse::Accepted(
            OrderAcceptedResponse {
                order_id,
                status: OrderStatus::Accepted,
                message: "Order added to book".to_string(),
            },
        )
    }

    /// Creates a Partial Fill response.
    pub fn partial_fill(
        order_id: u128,
        filled_quantity: u64,
        remaining_quantity: u64,
        trades: Vec<TradeInfo>,
    ) -> (r: Self)
        ensures
            r matches SubmitOrderResponse::PartialFill(p) && p.order_id == order_id
                && p.status == OrderStatus::PartialFill && p.filled_quantity == filled_quantity
                && p.remaining_quantity == remaining_quantity && p.trades@ == trades@,
    {
        SubmitOrderResponse::PartialFill(
            OrderPartialFillResponse {
                order_id,
                status: OrderStatus::PartialFill,
                filled_quantity,
                remaining_quantity,
                trades,
            },
        )
    }

    /// Creates a Filled response.
    pub fn filled(order_id: u128, filled_quantity: u64, trades: Vec<TradeInfo>) -> (r: Self)
        ensures
            r matches SubmitOrderResponse::Filled(f) && f.order_id == order_id
                && f.status == OrderStatus::Filled && f.filled_quantity == filled_quantity
                && f.trades@ == trades@,
    {
        SubmitOrderResponse::Filled(
            OrderFilledResponse { order_id, status: OrderStatus::Filled, filled_quantity, trades },
        )
    }

    /// The HTTP status code that answers a submission: 201 when the order was
    /// added to the book, 202 when it was partially filled, 200 when it was
    /// filled.
    pub fn status_code(&self) -> (code: u16)
        ensures
            code == match self {
                SubmitOrderResponse::Accepted(_) => 201u16,
                SubmitOrderResponse::PartialFill(_) => 202u16,
                SubmitOrderResponse::Filled(_) => 200u16,
            },
    {
        match self {
            SubmitOrderResponse::Accepted(_) => 201,
            SubmitOrderResponse::PartialFill(_) => 202,
            SubmitOrderResponse::Filled(_) => 200,
        }
    }
}

/// Response for getting order status.
#[derive(Debug)]
pub struct OrderStatusResponse {
    pub order_id: u128,
    pub symbol: String,
    pub side: Side,
    pub order_type: OrderType,
    pub price: Option<u64>,
    pub quantity: u64,
    pub filled_quantity: u64,
    pub remaining_quantity: u64,
    pub status: OrderStatus,
    /// Creation time, in nanoseconds since the Unix epoch
    pub created_at: i128,
    /// Time of the last change, in nanoseconds since the Unix epoch
    pub updated_at: i128,
}

/// Response for cancel order endpoint.
#[derive(Debug)]
pub struct CancelOrderResponse {
    pub order_id: u128,
    pub status: OrderStatus,
}

impl CancelOrderResponse {
    /// The response that confirms the cancellation of `order_id`.
    pub open spec fn new_view(order_id: u128) -> CancelOrderResponse {
        CancelOrderResponse { order_id, status: OrderStatus::Cancelled }
    }

    pub fn new(order_id: u128) -> (r: Self)
        ensures
            r == CancelOrderResponse::new_view(order_id),
    {
        CancelOrderResponse { order_id, status: OrderStatus::Cancelled }
    }
}

} // verus!
