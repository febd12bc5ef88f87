//! The records the bookkeeping keeps: wallet transactions as the game's API
//! reports them and as they are stored, the queue of purchases that still wait
//! to be sold, and the trades that pair a sale with a purchase.
//!
//! Prices and taxes are single-precision numbers in the game's data. The
//! bookkeeping never computes with them; it carries each one unchanged as the
//! IEEE-754 bit pattern of the `f32` (`f32::to_bits`), in the fields that end
//! in `_bits`.

use vstd::prelude::*;

use crate::moment::Moment;

verus! {

/// A wallet transaction as the game's API reports it.
#[derive(Clone, Copy, Debug, PartialEq, Eq, Structural)]
pub struct EsiWalletTransaction {
    pub client_id: i32,
    pub date: Moment,
    pub is_buy: bool,
    pub is_personal: bool,
    pub journal_ref_id: i64,
    pub location_id: i64,
    pub quantity: i32,
    pub transaction_id: i64,
    pub type_id: i32,
    pub unit_price_bits: u32,
}

/// A wallet transaction as the bookkeeping stores it, with the taxes paid per unit.
#[derive(Clone, Copy, Debug, PartialEq, Eq, Structural)]
pub struct WalletTransaction {
    pub transaction_id: i64,
    pub character_id: i32,
    pub client_id: i32,
    pub date: Moment,
    pub is_buy: bool,
    pub is_personal: bool,
    pub location_id: i64,
    pub quantity: i32,
    pub type_id: i32,
    pub unit_price_bits: u32,
    pub unit_taxes_bits: u32,
}

impl WalletTransaction {
    pub open spec fn spec_new(
        character_id: i32,
        t: EsiWalletTransaction,
        unit_taxes_bits: u32,
    ) -> WalletTransaction {
        WalletTransaction {
            transaction_id: t.transaction_id,
            character_id,
            client_id: t.client_id,
            date: t.date,
            is_buy: t.is_buy,
            is_personal: t.is_personal,
            location_id: t.location_id,
            quantity: t.quantity,
            type_id: t.type_id,
            unit_price_bits: t.unit_price_bits,
            unit_taxes_bits,
        }
    }

    /// A stored transaction keeps every field the game reported (its id, the
    /// counterparty, the date, the direction, the place, the quantity, the item
    /// and the unit price), belongs to the character it is stored for, and
    /// carries the taxes it is stored with.
    pub proof fn lemma_spec_new_keeps_reported_fields(
        character_id: i32,
        t: EsiWalletTransaction,
        unit_taxes_bits: u32,
    )
        ensures
            ({
                let r = Self::spec_new(character_id, t, unit_taxes_bits);
                &&& r.transaction_id == t.transaction_id
                &&& r.character_id == character_id
                &&& r.client_id == t.client_id
                &&& r.date == t.date
                &&& r.is_buy == t.is_buy
                &&& r.is_personal == t.is_personal
                &&& r.location_id == t.location_id
                &&& r.quantity == t.quantity
                &&& r.type_id == t.type_id
                &&& r.unit_price_bits == t.unit_price_bits
                &&& r.unit_taxes_bits == unit_taxes_bits
            }),
    {
    }

    /// Stores a reported transaction for a character, with the taxes per unit.
    pub fn new(character_id: i32, transaction: EsiWalletTransaction, unit_taxes_bits: u32) -> (r:
        WalletTransaction)
        ensures
            r == Self::spec_new(character_id, transaction, unit_taxes_bits),
            r.transaction_id == transaction.transaction_id,
            r.character_id == character_id,
            r.client_id == transaction.client_id,
            r.date == transaction.date,
            r.is_buy == transaction.is_buy,
            r.is_personal == transaction.is_personal,
            r.location_id == transaction.location_id,
            r.quantity == transaction.quantity,
            r.type_id == transaction.type_id,
            r.unit_price_bits == transaction.unit_price_bits,
            r.unit_taxes_bits == unit_taxes_bits,
    {
        WalletTransaction {
            transaction_id: transaction.transaction_id,
            character_id,
            client_id: transaction.client_id,
            date: transaction.date,
            is_buy: transaction.is_buy,
            is_personal: transaction.is_personal,
            location_id: transaction.location_id,
            quantity: transaction.quantity,
            type_id: transaction.type_id,
            unit_price_bits: transaction.unit_price_bits,
            unit_taxes_bits,
        }
    }
}

/// A purchase that still has units waiting to be sold.
#[derive(Clone, Copy, Debug, PartialEq, Eq, Structural)]
pub struct TransactionQueue {
    pub character_id: i32,
    pub type_id: i32,
    pub transaction_id: i64,
    pub amount_left: i32,
}

impl TransactionQueue {
    pub fn new(character_id: i32, type_id: i32, transaction_id: i64, amount_left: i32) -> (r:
        TransactionQueue)
        ensures
            r == (TransactionQueue { character_id, type_id, transaction_id, amount_left }),
    {
        TransactionQueue { character_id, type_id, transaction_id, amount_left }
    }
}

/// A settled trade: `amount` units of a sale, paired with the purchase they
/// came from, or with none when no purchase was waiting for them.
#[derive(Clone, Copy, Debug, PartialEq, Eq, Structural)]
pub struct CompleteTransaction {
    pub character_id: i32,
    pub buy_transaction_id: Option<i64>,
    pub sell_transaction_id: i64,
    pub bought_unit_price_bits: Option<u32>,
    pub bought_unit_taxes_bits: Option<u32>,
    pub sold_unit_price_bits: u32,
    pub sold_unit_taxes_bits: u32,
    pub amount: i32,
}

impl CompleteTransaction {
    pub open spec fn spec_new(
        character_id: i32,
        buy_transaction: Option<WalletTransaction>,
        sell_transaction: WalletTransaction,
        amount: i32,
    ) -> CompleteTransaction {
        CompleteTransaction {
            character_id,
            buy_transaction_id: match buy_transaction {
                Some(b) => Some(b.transaction_id),
                None => None,
            },
            sell_transaction_id: sell_transaction.transaction_id,
            bought_unit_price_bits: match buy_transaction {
                Some(b) => Some(b.unit_price_bits),
                None => None,
            },
            bought_unit_taxes_bits: match buy_transaction {
                Some(b) => Some(b.unit_taxes_bits),
                None => None,
            },
            sold_unit_price_bits: sell_transaction.unit_price_bits,
            sold_unit_taxes_bits: sell_transaction.unit_taxes_bits,
            amount,
        }
    }

    /// A settled trade belongs to the character that settles it, names the sale
    /// and, when there is one, the purchase, carries the prices and taxes of
    /// each unchanged, and counts the units it was made for.
    pub proof fn lemma_spec_new_records_trade(
        character_id: i32,
        buy_transaction: Option<WalletTransaction>,
        sell_transaction: WalletTransaction,
        amount: i32,
    )
        ensures
            ({
                let r = Self::spec_new(character_id, buy_transaction, sell_transaction, amount);
                &&& r.character_id == character_id
                &&& r.sell_transaction_id == sell_transaction.transaction_id
                &&& r.sold_unit_price_bits == sell_transaction.unit_price_bits
                &&& r.sold_unit_taxes_bits == sell_transaction.unit_taxes_bits
                &&& r.amount == amount
                &&& (buy_transaction is None ==> r.buy_transaction_id is None
                    && r.bought_unit_price_bits is None && r.bought_unit_taxes_bits is None)
                &&& forall|b: WalletTransaction|
                    buy_transaction == Some(b) ==> r.buy_transaction_id == Some(b.transaction_id)
                        && r.bought_unit_price_bits == Some(b.unit_price_bits)
                        && r.bought_unit_taxes_bits == Some(b.unit_taxes_bits)
            }),
    {
    }

    /// Pairs `amount` units of a sale with the purchase they came from.
    pub fn new(
        character_id: i32,
        buy_transaction: Option<WalletTransaction>,
        sell_transaction: &WalletTransaction,
        amount: i32,
    ) -> (r: CompleteTransaction)
        ensures
            r == Self::spec_new(character_id, buy_transaction, *sell_transaction, amount),
            r.character_id == character_id,
            r.sell_transaction_id == sell_transaction.transaction_id,
            r.sold_unit_price_bits == sell_transaction.unit_price_bits,
            r.sold_unit_taxes_bits == sell_transaction.unit_taxes_bits,
            r.amount == amount,
            buy_transaction is None ==> r.buy_transaction_id is None
                && r.bought_unit_price_bits is None && r.bought_unit_taxes_bits is None,
            forall|b: WalletTransaction|
                buy_transaction == Some(b) ==> r.buy_transaction_id == Some(b.transaction_id)
                    && r.bought_unit_price_bits == Some(b.unit_price_bits)
                    && r.bought_unit_taxes_bits == Some(b.unit_taxes_bits),
    {
        let (buy_transaction_id, bought_unit_price_bits, bought_unit_taxes_bits) =
            match buy_transaction {
            Some(b) => (Some(b.transaction_id), Some(b.unit_price_bits), Some(b.unit_taxes_bits)),
            None => (None, None, None),
        };
        CompleteTransaction {
            character_id,
            buy_transaction_id,
            sell_transaction_id: sell_transaction.transaction_id,
            bought_unit_price_bits,
            bought_unit_taxes_bits,
            sold_unit_price_bits: sell_transaction.unit_price_bits,
            sold_unit_taxes_bits: sell_transaction.unit_taxes_bits,
            amount,
        }
    }
}

/// A settled trade joined with the item's name and both dates, as the
/// dashboard reads it. A purchase is listed with its data in the sale fields.
#[derive(Clone, Debug)]
pub struct CompleteTransactionView {
    pub item_name: String,
    pub type_id: i32,
    pub character_id: i32,
    pub sell_transaction_id: i64,
    pub buy_transaction_id: Option<i64>,
    pub sell_date: Moment,
    pub buy_date: Option<Moment>,
    pub is_buy: bool,
    pub quantity: i32,
    pub buy_unit_price_bits: Option<u32>,
    pub buy_unit_tax_bits: Option<u32>,
    pub sell_unit_price_bits: u32,
    pub sell_unit_tax_bits: u32,
}

/// A waiting purchase joined with the item's name, as the inventory reads it.
#[derive(Clone, Debug)]
pub struct TransactionQueueView {
    pub item_name: String,
    pub type_id: i32,
    pub character_id: i32,
    pub buy_transaction_id: i64,
    pub buy_date: Moment,
    pub quantity: i32,
    pub buy_unit_price_bits: u32,
}

} // verus!
