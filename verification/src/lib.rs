//! Trade bookkeeping for an EVE Online wallet: buys wait in a first-in,
//! first-out queue per item type, sales are settled against it, and the
//! dashboard groups the settled trades by day and by item.

pub mod auth;
pub mod characters;
pub mod dashboard;
pub mod decimal;
pub mod models;
pub mod moment;
pub mod ordering;
pub mod settlement;
pub mod text;
pub mod view_models;
pub mod wallet_sync;
