//! Matching engine and balance ledger of a small centralised exchange.

pub mod book_laws;
pub mod book_model;
pub mod ledger;
pub mod orderbook;
pub mod state;
pub mod engine;
pub mod funds;
pub mod users;
pub mod auth;
