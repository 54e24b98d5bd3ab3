//! A minimal retail transaction flow: a `Shop` holds inventory (stock and
//! unit prices keyed by product name), a `Client` holds a balance and a cart
//! of reserved line items. `Shop::buy` reserves items into the cart without
//! touching inventory; `Shop::checkout` settles the whole cart atomically
//! against the client's balance and the shop's stock.

pub mod client;
pub mod model;
pub mod shop;
