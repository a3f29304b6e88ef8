//! A continuous-auction matching engine for an equities-style market.
//!
//! Commands (new orders and cancel requests) run through a linear pipeline:
//! duplicate detection, risk check, matching against a price-ordered order
//! book, and execution reporting.

pub mod auction_order;
pub mod codec;
pub mod continuos;
pub mod core_processor;
pub mod engine;
pub mod exe_processor;
pub mod messages;
pub mod order_book;
pub mod pre_processor;
pub mod price_node;
pub mod rc_processor;
pub mod trading_session;
pub mod types;
