//! Plain view models of the pages that hold no computed amounts of money.

use vstd::prelude::*;

verus! {

/// A profit entry labelled by its date and time, as the dashboard shows it.
pub struct ViewProfit {
    pub date_time: String,
}

/// One waiting purchase on the inventory page: its calendar day (days since
/// 1970-01-01), the item, how many units wait, and the price paid per unit
/// (an `f32` bit pattern).
pub struct InventoryItem {
    pub date: i64,
    pub invtype: String,
    pub amount: i32,
    pub isk_buy_bits: u32,
}

/// The inventory page.
pub struct InventoryViewModel {
    pub items: Vec<InventoryItem>,
}

} // verus!
