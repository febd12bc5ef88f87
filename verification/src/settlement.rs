//! Settling sales against the queue of waiting purchases, first in, first out.
//!
//! A sale of an item draws its units from the oldest waiting purchase of the
//! same item (the one with the smallest transaction id) that was made no later
//! than the sale, then from the next, until the sale is covered; a purchase
//! whose units are all sold leaves the queue. Units that no waiting purchase
//! covers are recorded as a trade without a purchase.

use vstd::prelude::*;

use crate::models::{CompleteTransaction, TransactionQueue, WalletTransaction};
use crate::moment::{is_after, later};

verus! {

/// A waiting purchase together with the stored transaction it came from.
#[derive(Clone, Copy, Debug, PartialEq, Eq, Structural)]
pub struct QueuedBuy {
    pub entry: TransactionQueue,
    pub buy: WalletTransaction,
}

impl QueuedBuy {
    /// A new purchase by `character_id`, with all its units waiting.
    pub fn waiting(character_id: i32, buy: WalletTransaction) -> (r: QueuedBuy)
        ensures
            r == waiting_purchase(character_id, buy),
            r.buy == buy,
            r.entry.character_id == character_id,
            r.entry.type_id == buy.type_id,
            r.entry.transaction_id == buy.transaction_id,
            r.entry.amount_left == buy.quantity,
    {
        QueuedBuy {
            entry: TransactionQueue::new(
                character_id,
                buy.type_id,
                buy.transaction_id,
                buy.quantity,
            ),
            buy,
        }
    }
}

/// Rows in strictly increasing order of transaction id.
pub open spec fn rows_ordered(rows: Seq<QueuedBuy>) -> bool {
    forall|i: int, j: int|
        0 <= i < j < rows.len() ==> rows[i].entry.transaction_id < rows[j].entry.transaction_id
}

/// Every row holds the stored transaction of its own purchase.
pub open spec fn rows_linked(rows: Seq<QueuedBuy>) -> bool {
    forall|i: int| 0 <= i < rows.len() ==> #[trigger] rows[i].buy.transaction_id == rows[i].entry.transaction_id
}

/// Every row's transaction id is above `bound`.
pub open spec fn rows_above(rows: Seq<QueuedBuy>, bound: int) -> bool {
    forall|i: int| 0 <= i < rows.len() ==> bound < rows[i].entry.transaction_id
}

/// A sale by `character_id` can draw units from this waiting purchase: same
/// owner, same item, units left, and bought no later than the sale.
pub open spec fn draws_from(row: QueuedBuy, character_id: i32, sale: WalletTransaction) -> bool {
    &&& row.entry.character_id == character_id
    &&& row.entry.type_id == sale.type_id
    &&& row.entry.amount_left > 0
    &&& !later(row.buy.date, sale.date)
}

pub open spec fn min_int(a: int, b: int) -> int {
    if a <= b {
        a
    } else {
        b
    }
}

/// The row after `taken` of its units are sold.
pub open spec fn row_after_taking(row: QueuedBuy, taken: int) -> QueuedBuy {
    QueuedBuy {
        entry: TransactionQueue {
            character_id: row.entry.character_id,
            type_id: row.entry.type_id,
            transaction_id: row.entry.transaction_id,
            amount_left: (row.entry.amount_left - taken) as i32,
        },
        buy: row.buy,
    }
}

/// Settling a sale with `left` units still to cover against `rows`, taken in
/// order: the rows that stay in the queue, the rows whose units ran out, and
/// the settled trades, in the order they are made.
pub open spec fn settle(
    rows: Seq<QueuedBuy>,
    character_id: i32,
    sale: WalletTransaction,
    left: int,
) -> (Seq<QueuedBuy>, Seq<TransactionQueue>, Seq<CompleteTransaction>)
    decreases rows.len(),
{
    if rows.len() == 0 {
        if left > 0 {
            (
                Seq::empty(),
                Seq::empty(),
                seq![CompleteTransaction::spec_new(character_id, None, sale, left as i32)],
            )
        } else {
            (Seq::empty(), Seq::empty(), Seq::empty())
        }
    } else {
        let row = rows[0];
        if left > 0 && draws_from(row, character_id, sale) {
            let taken = min_int(left, row.entry.amount_left as int);
            let after = row_after_taking(row, taken);
            let record = CompleteTransaction::spec_new(
                character_id,
                Some(row.buy),
                sale,
                taken as i32,
            );
            let rest = settle(rows.drop_first(), character_id, sale, left - taken);
            if after.entry.amount_left > 0 {
                (seq![after] + rest.0, rest.1, seq![record] + rest.2)
            } else {
                (rest.0, seq![after.entry] + rest.1, seq![record] + rest.2)
            }
        } else {
            let rest = settle(rows.drop_first(), character_id, sale, left);
            (seq![row] + rest.0, rest.1, rest.2)
        }
    }
}

/// The rows that stay after settling keep the order and the ids of the rows
/// they came from.
pub proof fn lemma_settle_keeps_order(
    rows: Seq<QueuedBuy>,
    character_id: i32,
    sale: WalletTransaction,
    left: int,
    bound: int,
)
    requires
        rows_ordered(rows),
        rows_linked(rows),
        rows_above(rows, bound),
    ensures
        rows_ordered(settle(rows, character_id, sale, left).0),
        rows_linked(settle(rows, character_id, sale, left).0),
        rows_above(settle(rows, character_id, sale, left).0, bound),
    decreases rows.len(),
{
    if rows.len() > 0 {
        let row = rows[0];
        let tail = rows.drop_first();
        assert(rows_ordered(tail));
        assert(rows_linked(tail));
        assert(rows_above(tail, row.entry.transaction_id as int));
        if left > 0 && draws_from(row, character_id, sale) {
            let taken = min_int(left, row.entry.amount_left as int);
            lemma_settle_keeps_order(tail, character_id, sale, left - taken, row.entry.transaction_id as int);
        } else {
            lemma_settle_keeps_order(tail, character_id, sale, left, row.entry.transaction_id as int);
        }
    }
}

/// Units in a list of settled trades.
pub open spec fn total_amount(records: Seq<CompleteTransaction>) -> int
    decreases records.len(),
{
    if records.len() == 0 {
        0
    } else {
        records[0].amount + total_amount(records.drop_first())
    }
}

/// Units in a list of settled trades that came from a waiting purchase.
pub open spec fn drawn_amount(records: Seq<CompleteTransaction>) -> int
    decreases records.len(),
{
    if records.len() == 0 {
        0
    } else {
        (if records[0].buy_transaction_id is Some {
            records[0].amount as int
        } else {
            0
        }) + drawn_amount(records.drop_first())
    }
}

/// Units waiting in `rows` that a sale can draw from.
pub open spec fn available(rows: Seq<QueuedBuy>, character_id: i32, sale: WalletTransaction) -> int
    decreases rows.len(),
{
    if rows.len() == 0 {
        0
    } else {
        (if draws_from(rows[0], character_id, sale) {
            rows[0].entry.amount_left as int
        } else {
            0
        }) + available(rows.drop_first(), character_id, sale)
    }
}

/// With nothing left to cover, settling changes nothing and makes no trade.
pub proof fn lemma_settle_nothing_left(
    rows: Seq<QueuedBuy>,
    character_id: i32,
    sale: WalletTransaction,
    left: int,
)
    requires
        left <= 0,
    ensures
        settle(rows, character_id, sale, left).0 == rows,
        settle(rows, character_id, sale, left).1 == Seq::<TransactionQueue>::empty(),
        settle(rows, character_id, sale, left).2 == Seq::<CompleteTransaction>::empty(),
    decreases rows.len(),
{
    if rows.len() > 0 {
        lemma_settle_nothing_left(rows.drop_first(), character_id, sale, left);
        assert(seq![rows[0]] + rows.drop_first() =~= rows);
    }
}

/// A sale is covered exactly: the settled trades hold all the units sold, no
/// more (and none for a sale of no units).
pub proof fn lemma_settle_covers_sale(
    rows: Seq<QueuedBuy>,
    character_id: i32,
    sale: WalletTransaction,
    left: int,
)
    requires
        left <= i32::MAX,
    ensures
        total_amount(settle(rows, character_id, sale, left).2) == (if left > 0 {
            left
        } else {
            0
        }),
    decreases rows.len(),
{
    let res = settle(rows, character_id, sale, left);
    if rows.len() == 0 {
        if left > 0 {
            let record = CompleteTransaction::spec_new(character_id, None, sale, left as i32);
            assert(res.2 == seq![record]);
            assert(res.2.drop_first() =~= Seq::<CompleteTransaction>::empty());
            assert(record.amount == left);
            assert(total_amount(res.2) == record.amount + total_amount(res.2.drop_first()));
        }
    } else {
        let row = rows[0];
        let tail = rows.drop_first();
        if left > 0 && draws_from(row, character_id, sale) {
            let taken = min_int(left, row.entry.amount_left as int);
            lemma_settle_covers_sale(tail, character_id, sale, left - taken);
            let rest = settle(tail, character_id, sale, left - taken);
            let record = CompleteTransaction::spec_new(character_id, Some(row.buy), sale, taken as i32);
            assert(record.amount == taken);
            assert(res.2 == seq![record] + rest.2);
            assert((seq![record] + rest.2).drop_first() =~= rest.2);
            assert(total_amount(res.2) == record.amount + total_amount(rest.2));
        } else {
            lemma_settle_covers_sale(tail, character_id, sale, left);
        }
    }
}

/// A sale draws from the queue as many units as it needs, or as many as wait
/// for it when fewer do; the rest of the sale is recorded without a purchase.
pub proof fn lemma_settle_draws_what_waits(
    rows: Seq<QueuedBuy>,
    character_id: i32,
    sale: WalletTransaction,
    left: int,
)
    requires
        left <= i32::MAX,
    ensures
        drawn_amount(settle(rows, character_id, sale, left).2) == min_int(
            if left > 0 {
                left
            } else {
                0
            },
            available(rows, character_id, sale),
        ),
    decreases rows.len(),
{
    let res = settle(rows, character_id, sale, left);
    if rows.len() == 0 {
        if left > 0 {
            let record = CompleteTransaction::spec_new(character_id, None, sale, left as i32);
            assert(res.2 == seq![record]);
            assert(res.2.drop_first() =~= Seq::<CompleteTransaction>::empty());
            assert(drawn_amount(res.2) == 0 + drawn_amount(res.2.drop_first()));
        }
    } else {
        let row = rows[0];
        let tail = rows.drop_first();
        lemma_available_nonnegative(tail, character_id, sale);
        assert(available(rows, character_id, sale) == (if draws_from(row, character_id, sale) {
            row.entry.amount_left as int
        } else {
            0
        }) + available(tail, character_id, sale));
        if left > 0 && draws_from(row, character_id, sale) {
            let taken = min_int(left, row.entry.amount_left as int);
            lemma_settle_draws_what_waits(tail, character_id, sale, left - taken);
            let rest = settle(tail, character_id, sale, left - taken);
            let record = CompleteTransaction::spec_new(character_id, Some(row.buy), sale, taken as i32);
            assert(record.amount == taken);
            assert(res.2 == seq![record] + rest.2);
            assert((seq![record] + rest.2).drop_first() =~= rest.2);
            assert(drawn_amount(res.2) == taken + drawn_amount(rest.2));
        } else {
            lemma_settle_draws_what_waits(tail, character_id, sale, left);
            if left <= 0 {
                lemma_settle_nothing_left(tail, character_id, sale, left);
            }
        }
    }
}

pub proof fn lemma_available_nonnegative(
    rows: Seq<QueuedBuy>,
    character_id: i32,
    sale: WalletTransaction,
)
    ensures
        available(rows, character_id, sale) >= 0,
    decreases rows.len(),
{
    if rows.len() > 0 {
        lemma_available_nonnegative(rows.drop_first(), character_id, sale);
    }
}

/// Every trade came from a purchase no newer than any purchase in `kept` that
/// the sale could still draw from; in particular none went without a purchase
/// while such a purchase remains.
pub open spec fn drawn_oldest_first(
    kept: Seq<QueuedBuy>,
    records: Seq<CompleteTransaction>,
    character_id: i32,
    sale: WalletTransaction,
) -> bool {
    forall|k: int, j: int|
        0 <= k < kept.len() && 0 <= j < records.len() && draws_from(
            #[trigger] kept[k],
            character_id,
            sale,
        ) ==> (#[trigger] records[j]).buy_transaction_id is Some
            && records[j].buy_transaction_id->0 <= kept[k].entry.transaction_id
}

/// First in, first out: while a purchase the sale could draw from still waits
/// after settling, every trade made came from it or from an older purchase,
/// and no unit of the sale went without a purchase.
pub proof fn lemma_settle_oldest_first(
    rows: Seq<QueuedBuy>,
    character_id: i32,
    sale: WalletTransaction,
    left: int,
)
    requires
        rows_ordered(rows),
        rows_linked(rows),
    ensures
        drawn_oldest_first(
            settle(rows, character_id, sale, left).0,
            settle(rows, character_id, sale, left).2,
            character_id,
            sale,
        ),
    decreases rows.len(),
{
    let res = settle(rows, character_id, sale, left);
    if rows.len() > 0 {
        let row = rows[0];
        let tail = rows.drop_first();
        assert(rows_ordered(tail));
        assert(rows_linked(tail));
        assert(rows_above(tail, row.entry.transaction_id as int));
        assert(row.buy.transaction_id == row.entry.transaction_id);
        if left > 0 && draws_from(row, character_id, sale) {
            let taken = min_int(left, row.entry.amount_left as int);
            lemma_settle_oldest_first(tail, character_id, sale, left - taken);
            lemma_settle_keeps_order(tail, character_id, sale, left - taken, row.entry.transaction_id as int);
            let rest = settle(tail, character_id, sale, left - taken);
            let after = row_after_taking(row, taken);
            let record = CompleteTransaction::spec_new(character_id, Some(row.buy), sale, taken as i32);
            if after.entry.amount_left > 0 {
                lemma_settle_nothing_left(tail, character_id, sale, left - taken);
                assert(res.0 == seq![after] + tail);
                assert(res.2 == seq![record] + rest.2);
                assert(rest.2.len() == 0);
                assert forall|k: int, j: int|
                    0 <= k < res.0.len() && 0 <= j < res.2.len() && draws_from(
                        #[trigger] res.0[k],
                        character_id,
                        sale,
                    ) implies (#[trigger] res.2[j]).buy_transaction_id is Some
                    && res.2[j].buy_transaction_id->0 <= res.0[k].entry.transaction_id by {
                    assert(j == 0);
                    assert(res.2[0] == record);
                    if k > 0 {
                        assert(res.0[k] == tail[k - 1]);
                    }
                }
            } else {
                assert(res.0 == rest.0);
                assert(res.2 == seq![record] + rest.2);
                assert forall|k: int, j: int|
                    0 <= k < res.0.len() && 0 <= j < res.2.len() && draws_from(
                        #[trigger] res.0[k],
                        character_id,
                        sale,
                    ) implies (#[trigger] res.2[j]).buy_transaction_id is Some
                    && res.2[j].buy_transaction_id->0 <= res.0[k].entry.transaction_id by {
                    if j == 0 {
                        assert(res.2[0] == record);
                        assert(rest.0[k] == res.0[k]);
                    } else {
                        assert(res.2[j] == rest.2[j - 1]);
                        assert(rest.0[k] == res.0[k]);
                    }
                }
            }
        } else {
            lemma_settle_oldest_first(tail, character_id, sale, left);
            let rest = settle(tail, character_id, sale, left);
            if left <= 0 {
                lemma_settle_nothing_left(tail, character_id, sale, left);
            }
            assert(res.0 == seq![row] + rest.0);
            assert(res.2 == rest.2);
            assert forall|k: int, j: int|
                0 <= k < res.0.len() && 0 <= j < res.2.len() && draws_from(
                    #[trigger] res.0[k],
                    character_id,
                    sale,
                ) implies (#[trigger] res.2[j]).buy_transaction_id is Some
                && res.2[j].buy_transaction_id->0 <= res.0[k].entry.transaction_id by {
                if k == 0 {
                    assert(res.0[0] == row);
                } else {
                    assert(res.0[k] == rest.0[k - 1]);
                }
            }
        }
    }
}

/// `rows` with `row` stored under its transaction id: it replaces the row with
/// the same id, or else goes in before the first row with a larger id.
pub open spec fn upsert_row(rows: Seq<QueuedBuy>, row: QueuedBuy) -> Seq<QueuedBuy>
    decreases rows.len(),
{
    if rows.len() == 0 {
        seq![row]
    } else if row.entry.transaction_id < rows[0].entry.transaction_id {
        seq![row] + rows
    } else if row.entry.transaction_id == rows[0].entry.transaction_id {
        seq![row] + rows.drop_first()
    } else {
        seq![rows[0]] + upsert_row(rows.drop_first(), row)
    }
}

proof fn lemma_upsert_split(rows: Seq<QueuedBuy>, row: QueuedBuy, p: int)
    requires
        0 <= p <= rows.len(),
        forall|i: int| 0 <= i < p ==> rows[i].entry.transaction_id < row.entry.transaction_id,
        p < rows.len() ==> row.entry.transaction_id <= rows[p].entry.transaction_id,
    ensures
        upsert_row(rows, row) == (if p < rows.len() && rows[p].entry.transaction_id
            == row.entry.transaction_id {
            rows.take(p) + seq![row] + rows.skip(p + 1)
        } else {
            rows.take(p) + seq![row] + rows.skip(p)
        }),
    decreases p,
{
    if p == 0 {
        assert(rows.take(0) =~= Seq::<QueuedBuy>::empty());
        assert(rows.skip(0) =~= rows);
        if rows.len() > 0 {
            assert(rows.skip(1) =~= rows.drop_first());
        }
        if p < rows.len() && rows[p].entry.transaction_id == row.entry.transaction_id {
            assert(upsert_row(rows, row) =~= rows.take(p) + seq![row] + rows.skip(p + 1));
        } else {
            assert(upsert_row(rows, row) =~= rows.take(p) + seq![row] + rows.skip(p));
        }
    } else {
        let tail = rows.drop_first();
        lemma_upsert_split(tail, row, p - 1);
        assert(rows.take(p) =~= seq![rows[0]] + tail.take(p - 1));
        assert(rows.skip(p) =~= tail.skip(p - 1));
        if p < rows.len() {
            assert(rows.skip(p + 1) =~= tail.skip(p));
        }
        if p < rows.len() && rows[p].entry.transaction_id == row.entry.transaction_id {
            assert(upsert_row(rows, row) =~= rows.take(p) + seq![row] + rows.skip(p + 1));
        } else {
            assert(upsert_row(rows, row) =~= rows.take(p) + seq![row] + rows.skip(p));
        }
    }
}

/// Storing a purchase keeps the queue in order of transaction id.
pub proof fn lemma_upsert_keeps_order(rows: Seq<QueuedBuy>, row: QueuedBuy, bound: int)
    requires
        rows_ordered(rows),
        rows_linked(rows),
        rows_above(rows, bound),
        bound < row.entry.transaction_id,
        row.buy.transaction_id == row.entry.transaction_id,
    ensures
        rows_ordered(upsert_row(rows, row)),
        rows_linked(upsert_row(rows, row)),
        rows_above(upsert_row(rows, row), bound),
    decreases rows.len(),
{
    if rows.len() > 0 {
        let tail = rows.drop_first();
        assert(rows_ordered(tail));
        assert(rows_linked(tail));
        assert(rows_above(tail, rows[0].entry.transaction_id as int));
        if row.entry.transaction_id > rows[0].entry.transaction_id {
            lemma_upsert_keeps_order(tail, row, rows[0].entry.transaction_id as int);
        }
    }
}

proof fn lemma_upsert_holds_row(rows: Seq<QueuedBuy>, row: QueuedBuy)
    ensures
        upsert_row(rows, row).contains(row),
    decreases rows.len(),
{
    let res = upsert_row(rows, row);
    if rows.len() == 0 || row.entry.transaction_id <= rows[0].entry.transaction_id {
        assert(res[0] == row);
    } else {
        lemma_upsert_holds_row(rows.drop_first(), row);
        let rest = upsert_row(rows.drop_first(), row);
        let k = choose|k: int| 0 <= k < rest.len() && rest[k] == row;
        assert(res[k + 1] == row);
    }
}

proof fn lemma_upsert_keeps_other(rows: Seq<QueuedBuy>, row: QueuedBuy, r: QueuedBuy)
    requires
        rows.contains(r),
        r.entry.transaction_id != row.entry.transaction_id,
    ensures
        upsert_row(rows, row).contains(r),
    decreases rows.len(),
{
    let res = upsert_row(rows, row);
    let i = choose|i: int| 0 <= i < rows.len() && rows[i] == r;
    if row.entry.transaction_id < rows[0].entry.transaction_id {
        assert(res[i + 1] == r);
    } else if row.entry.transaction_id == rows[0].entry.transaction_id {
        assert(i != 0);
        assert(res[i] == r);
    } else if i == 0 {
        assert(res[0] == r);
    } else {
        let tail = rows.drop_first();
        assert(tail[i - 1] == r);
        lemma_upsert_keeps_other(tail, row, r);
        let rest = upsert_row(tail, row);
        let m = choose|m: int| 0 <= m < rest.len() && rest[m] == r;
        assert(res[m + 1] == r);
    }
}

proof fn lemma_upsert_adds_nothing_else(rows: Seq<QueuedBuy>, row: QueuedBuy, r: QueuedBuy)
    requires
        rows_ordered(rows),
        upsert_row(rows, row).contains(r),
    ensures
        r == row || (rows.contains(r) && r.entry.transaction_id != row.entry.transaction_id),
    decreases rows.len(),
{
    let res = upsert_row(rows, row);
    let i = choose|i: int| 0 <= i < res.len() && res[i] == r;
    if rows.len() == 0 {
    } else if row.entry.transaction_id < rows[0].entry.transaction_id {
        if i > 0 {
            assert(rows[i - 1] == r);
            assert(rows[0].entry.transaction_id <= rows[i - 1].entry.transaction_id);
        }
    } else if row.entry.transaction_id == rows[0].entry.transaction_id {
        if i > 0 {
            assert(rows[i] == r);
            assert(rows[0].entry.transaction_id < rows[i].entry.transaction_id);
        }
    } else if i == 0 {
        assert(rows[0] == r);
    } else {
        let tail = rows.drop_first();
        assert(rows_ordered(tail));
        let rest = upsert_row(tail, row);
        assert(rest[i - 1] == r);
        lemma_upsert_adds_nothing_else(tail, row, r);
        if r != row {
            let m = choose|m: int| 0 <= m < tail.len() && tail[m] == r;
            assert(rows[m + 1] == r);
        }
    }
}

/// Storing a purchase again replaces what the queue held under its id, and
/// leaves every other purchase as it was.
pub proof fn lemma_upsert_replaces(rows: Seq<QueuedBuy>, row: QueuedBuy)
    requires
        rows_ordered(rows),
    ensures
        upsert_row(rows, row).contains(row),
        forall|r: QueuedBuy|
            rows.contains(r) && r.entry.transaction_id != row.entry.transaction_id
                ==> upsert_row(rows, row).contains(r),
        forall|r: QueuedBuy|
            upsert_row(rows, row).contains(r) ==> r == row || (rows.contains(r)
                && r.entry.transaction_id != row.entry.transaction_id),
{
    lemma_upsert_holds_row(rows, row);
    assert forall|r: QueuedBuy|
        rows.contains(r) && r.entry.transaction_id != row.entry.transaction_id implies upsert_row(
        rows,
        row,
    ).contains(r) by {
        lemma_upsert_keeps_other(rows, row, r);
    }
    assert forall|r: QueuedBuy| upsert_row(rows, row).contains(r) implies r == row || (rows.contains(
        r,
    ) && r.entry.transaction_id != row.entry.transaction_id) by {
        lemma_upsert_adds_nothing_else(rows, row, r);
    }
}

/// The queue row a new purchase starts as: all its units wait.
pub open spec fn waiting_purchase(character_id: i32, buy: WalletTransaction) -> QueuedBuy {
    QueuedBuy {
        entry: TransactionQueue {
            character_id,
            type_id: buy.type_id,
            transaction_id: buy.transaction_id,
            amount_left: buy.quantity,
        },
        buy,
    }
}

/// A purchase starts waiting with all of its units, for the character that
/// bought it, under its own item and transaction id.
pub proof fn lemma_waiting_purchase_holds_whole_purchase(character_id: i32, buy: WalletTransaction)
    ensures
        ({
            let r = waiting_purchase(character_id, buy);
            &&& r.buy == buy
            &&& r.entry.character_id == character_id
            &&& r.entry.type_id == buy.type_id
            &&& r.entry.transaction_id == buy.transaction_id
            &&& r.entry.amount_left == buy.quantity
        }),
{
}

/// `rows` with each of `new` stored in turn.
pub open spec fn upsert_rows(rows: Seq<QueuedBuy>, new: Seq<QueuedBuy>) -> Seq<QueuedBuy>
    decreases new.len(),
{
    if new.len() == 0 {
        rows
    } else {
        upsert_rows(upsert_row(rows, new[0]), new.drop_first())
    }
}

/// `rows` with every purchase among `transactions` stored in turn as waiting.
pub open spec fn enqueue_purchases(
    rows: Seq<QueuedBuy>,
    character_id: i32,
    transactions: Seq<WalletTransaction>,
) -> Seq<QueuedBuy>
    decreases transactions.len(),
{
    if transactions.len() == 0 {
        rows
    } else {
        let t = transactions[0];
        enqueue_purchases(
            if t.is_buy {
                upsert_row(rows, waiting_purchase(character_id, t))
            } else {
                rows
            },
            character_id,
            transactions.drop_first(),
        )
    }
}

/// Settling every sale among `transactions`, in the order given, each against
/// what the ones before it left in the queue.
pub open spec fn settle_sales(
    rows: Seq<QueuedBuy>,
    character_id: i32,
    transactions: Seq<WalletTransaction>,
) -> (Seq<QueuedBuy>, Seq<TransactionQueue>, Seq<CompleteTransaction>)
    decreases transactions.len(),
{
    if transactions.len() == 0 {
        (rows, Seq::empty(), Seq::empty())
    } else {
        let t = transactions[0];
        let first = if t.is_buy {
            (rows, Seq::<TransactionQueue>::empty(), Seq::<CompleteTransaction>::empty())
        } else {
            settle(rows, character_id, t, t.quantity as int)
        };
        let rest = settle_sales(first.0, character_id, transactions.drop_first());
        (rest.0, first.1 + rest.1, first.2 + rest.2)
    }
}

/// Units sold by the sales among `transactions`.
pub open spec fn units_sold(transactions: Seq<WalletTransaction>) -> int
    decreases transactions.len(),
{
    if transactions.len() == 0 {
        0
    } else {
        let t = transactions[0];
        (if !t.is_buy && t.quantity > 0 {
            t.quantity as int
        } else {
            0
        }) + units_sold(transactions.drop_first())
    }
}

pub proof fn lemma_total_amount_concat(a: Seq<CompleteTransaction>, b: Seq<CompleteTransaction>)
    ensures
        total_amount(a + b) == total_amount(a) + total_amount(b),
    decreases a.len(),
{
    if a.len() == 0 {
        assert(a + b =~= b);
    } else {
        lemma_total_amount_concat(a.drop_first(), b);
        assert((a + b).drop_first() =~= a.drop_first() + b);
    }
}

/// Every unit sold in a batch is settled exactly once: the trades settled
/// for a batch hold as many units as its sales.
pub proof fn lemma_settle_sales_covers_sales(
    rows: Seq<QueuedBuy>,
    character_id: i32,
    transactions: Seq<WalletTransaction>,
)
    ensures
        total_amount(settle_sales(rows, character_id, transactions).2) == units_sold(transactions),
    decreases transactions.len(),
{
    if transactions.len() > 0 {
        let t = transactions[0];
        let first = if t.is_buy {
            (rows, Seq::<TransactionQueue>::empty(), Seq::<CompleteTransaction>::empty())
        } else {
            settle(rows, character_id, t, t.quantity as int)
        };
        if !t.is_buy {
            lemma_settle_covers_sale(rows, character_id, t, t.quantity as int);
        }
        lemma_settle_sales_covers_sales(first.0, character_id, transactions.drop_first());
        let rest = settle_sales(first.0, character_id, transactions.drop_first());
        lemma_total_amount_concat(first.2, rest.2);
    }
}

/// All rows have units left.
pub open spec fn rows_have_units(rows: Seq<QueuedBuy>) -> bool {
    forall|i: int| 0 <= i < rows.len() ==> (#[trigger] rows[i]).entry.amount_left > 0
}

/// The queue holds only purchases with units left: settling keeps it so, and
/// the rows that leave it have none left.
pub proof fn lemma_settle_keeps_units_left(
    rows: Seq<QueuedBuy>,
    character_id: i32,
    sale: WalletTransaction,
    left: int,
)
    requires
        rows_have_units(rows),
    ensures
        rows_have_units(settle(rows, character_id, sale, left).0),
        forall|i: int|
            0 <= i < settle(rows, character_id, sale, left).1.len() ==> (#[trigger] settle(
                rows,
                character_id,
                sale,
                left,
            ).1[i]).amount_left == 0,
    decreases rows.len(),
{
    if rows.len() > 0 {
        let row = rows[0];
        let tail = rows.drop_first();
        assert(rows_have_units(tail));
        if left > 0 && draws_from(row, character_id, sale) {
            let taken = min_int(left, row.entry.amount_left as int);
            lemma_settle_keeps_units_left(tail, character_id, sale, left - taken);
        } else {
            lemma_settle_keeps_units_left(tail, character_id, sale, left);
        }
        let res = settle(rows, character_id, sale, left);
        assert forall|i: int| 0 <= i < res.1.len() implies (#[trigger] res.1[i]).amount_left == 0 by {
            if left > 0 && draws_from(row, character_id, sale) {
                let taken = min_int(left, row.entry.amount_left as int);
                let rest = settle(tail, character_id, sale, left - taken);
                if row_after_taking(row, taken).entry.amount_left <= 0 && i > 0 {
                    assert(res.1[i] == rest.1[i - 1]);
                }
            }
        }
    }
}

/// A sale only draws from purchases it can draw from: each trade with a
/// purchase names a queued purchase of the same owner and item, with units,
/// bought no later than the sale.
pub proof fn lemma_settle_draws_only_eligible(
    rows: Seq<QueuedBuy>,
    character_id: i32,
    sale: WalletTransaction,
    left: int,
)
    requires
        rows_linked(rows),
    ensures
        forall|j: int|
            0 <= j < settle(rows, character_id, sale, left).2.len() && (#[trigger] settle(
                rows,
                character_id,
                sale,
                left,
            ).2[j]).buy_transaction_id is Some ==> exists|k: int|
                0 <= k < rows.len() && draws_from(#[trigger] rows[k], character_id, sale)
                    && rows[k].entry.transaction_id == settle(
                    rows,
                    character_id,
                    sale,
                    left,
                ).2[j].buy_transaction_id->0,
    decreases rows.len(),
{
    let res = settle(rows, character_id, sale, left);
    if rows.len() > 0 {
        let row = rows[0];
        let tail = rows.drop_first();
        assert(rows_linked(tail));
        assert(row.buy.transaction_id == row.entry.transaction_id);
        let taken = if left > 0 && draws_from(row, character_id, sale) {
            min_int(left, row.entry.amount_left as int)
        } else {
            0
        };
        lemma_settle_draws_only_eligible(tail, character_id, sale, left - taken);
        let rest = settle(tail, character_id, sale, left - taken);
        assert forall|j: int|
            0 <= j < res.2.len() && (#[trigger] res.2[j]).buy_transaction_id is Some implies exists|k: int|
            0 <= k < rows.len() && draws_from(#[trigger] rows[k], character_id, sale)
                && rows[k].entry.transaction_id == res.2[j].buy_transaction_id->0 by {
            if left > 0 && draws_from(row, character_id, sale) {
                if j == 0 {
                    assert(draws_from(rows[0], character_id, sale));
                } else {
                    assert(res.2[j] == rest.2[j - 1]);
                    let k = choose|k: int|
                        0 <= k < tail.len() && draws_from(#[trigger] tail[k], character_id, sale)
                            && tail[k].entry.transaction_id == rest.2[j - 1].buy_transaction_id->0;
                    assert(rows[k + 1] == tail[k]);
                }
            } else {
                assert(res.2[j] == rest.2[j]);
                let k = choose|k: int|
                    0 <= k < tail.len() && draws_from(#[trigger] tail[k], character_id, sale)
                        && tail[k].entry.transaction_id == rest.2[j].buy_transaction_id->0;
                assert(rows[k + 1] == tail[k]);
            }
        }
    }
}

/// Units a list of trades took from the purchase with transaction id `id`.
pub open spec fn drawn_from(records: Seq<CompleteTransaction>, id: i64) -> int
    decreases records.len(),
{
    if records.len() == 0 {
        0
    } else {
        (if records[0].buy_transaction_id == Some(id) {
            records[0].amount as int
        } else {
            0
        }) + drawn_from(records.drop_first(), id)
    }
}

/// The queue holds a row for the purchase with transaction id `id`.
pub open spec fn holds_id(rows: Seq<QueuedBuy>, id: i64) -> bool {
    exists|k: int| 0 <= k < rows.len() && #[trigger] rows[k].entry.transaction_id == id
}

/// `row` with `units` units left, all else as it was.
pub open spec fn with_units_left(row: QueuedBuy, units: int) -> QueuedBuy {
    QueuedBuy {
        entry: TransactionQueue {
            character_id: row.entry.character_id,
            type_id: row.entry.type_id,
            transaction_id: row.entry.transaction_id,
            amount_left: units as i32,
        },
        buy: row.buy,
    }
}

/// Units are conserved row by row: every purchase in `before` gives up
/// exactly the units the trades name it for, no more than it had; it stays
/// unchanged when none were taken, stays with the rest when some are left,
/// and leaves the queue (listed among `gone` with none left) when all were
/// taken. Nothing else stays in the queue.
pub open spec fn units_conserved(
    before: Seq<QueuedBuy>,
    kept: Seq<QueuedBuy>,
    gone: Seq<TransactionQueue>,
    records: Seq<CompleteTransaction>,
) -> bool {
    &&& forall|i: int|
        0 <= i < before.len() ==> {
            let row = #[trigger] before[i];
            let d = drawn_from(records, row.entry.transaction_id);
            &&& 0 <= d
            &&& d == 0 ==> kept.contains(row)
            &&& d > 0 ==> d <= row.entry.amount_left
            &&& d > 0 && d < row.entry.amount_left ==> kept.contains(
                with_units_left(row, row.entry.amount_left - d),
            )
            &&& d > 0 && d == row.entry.amount_left ==> !holds_id(kept, row.entry.transaction_id)
                && gone.contains(with_units_left(row, 0).entry)
        }
    &&& forall|k: int|
        0 <= k < kept.len() ==> holds_id(before, (#[trigger] kept[k]).entry.transaction_id)
}

proof fn lemma_drawn_from_absent(records: Seq<CompleteTransaction>, id: i64)
    requires
        forall|j: int| 0 <= j < records.len() ==> (#[trigger] records[j]).buy_transaction_id != Some(id),
    ensures
        drawn_from(records, id) == 0,
    decreases records.len(),
{
    if records.len() > 0 {
        let tail = records.drop_first();
        assert forall|j: int| 0 <= j < tail.len() implies (#[trigger] tail[j]).buy_transaction_id != Some(id) by {
            assert(tail[j] == records[j + 1]);
        }
        lemma_drawn_from_absent(tail, id);
    }
}

proof fn lemma_drawn_from_nonnegative(records: Seq<CompleteTransaction>, id: i64)
    requires
        forall|j: int| 0 <= j < records.len() ==> (#[trigger] records[j]).amount >= 0,
    ensures
        drawn_from(records, id) >= 0,
    decreases records.len(),
{
    if records.len() > 0 {
        let tail = records.drop_first();
        assert forall|j: int| 0 <= j < tail.len() implies (#[trigger] tail[j]).amount >= 0 by {
            assert(tail[j] == records[j + 1]);
        }
        lemma_drawn_from_nonnegative(tail, id);
    }
}

proof fn lemma_settle_amounts_positive(
    rows: Seq<QueuedBuy>,
    character_id: i32,
    sale: WalletTransaction,
    left: int,
)
    requires
        left <= i32::MAX,
    ensures
        forall|j: int|
            0 <= j < settle(rows, character_id, sale, left).2.len() ==> (#[trigger] settle(
                rows,
                character_id,
                sale,
                left,
            ).2[j]).amount > 0,
    decreases rows.len(),
{
    let res = settle(rows, character_id, sale, left);
    if rows.len() > 0 {
        let row = rows[0];
        let tail = rows.drop_first();
        if left > 0 && draws_from(row, character_id, sale) {
            let taken = min_int(left, row.entry.amount_left as int);
            lemma_settle_amounts_positive(tail, character_id, sale, left - taken);
            let rest = settle(tail, character_id, sale, left - taken);
            assert forall|j: int| 0 <= j < res.2.len() implies (#[trigger] res.2[j]).amount > 0 by {
                if j > 0 {
                    assert(res.2[j] == rest.2[j - 1]);
                }
            }
        } else {
            lemma_settle_amounts_positive(tail, character_id, sale, left);
        }
    }
}

/// Settling a sale conserves units row by row (see `units_conserved`).
pub proof fn lemma_settle_conserves_units(
    rows: Seq<QueuedBuy>,
    character_id: i32,
    sale: WalletTransaction,
    left: int,
)
    requires
        rows_ordered(rows),
        rows_linked(rows),
        left <= i32::MAX,
    ensures
        units_conserved(
            rows,
            settle(rows, character_id, sale, left).0,
            settle(rows, character_id, sale, left).1,
            settle(rows, character_id, sale, left).2,
        ),
    decreases rows.len(),
{
    let res = settle(rows, character_id, sale, left);
    lemma_settle_amounts_positive(rows, character_id, sale, left);
    if rows.len() == 0 {
        return;
    }
    let row = rows[0];
    let id = row.entry.transaction_id;
    let tail = rows.drop_first();
    assert(rows_ordered(tail));
    assert(rows_linked(tail));
    assert(rows_above(tail, id as int));
    assert(row.buy.transaction_id == id);
    let drawing = left > 0 && draws_from(row, character_id, sale);
    let taken = if drawing {
        min_int(left, row.entry.amount_left as int)
    } else {
        0
    };
    let rest = settle(tail, character_id, sale, left - taken);
    lemma_settle_conserves_units(tail, character_id, sale, left - taken);
    lemma_settle_keeps_order(tail, character_id, sale, left - taken, id as int);
    lemma_settle_draws_only_eligible(tail, character_id, sale, left - taken);
    lemma_settle_amounts_positive(tail, character_id, sale, left - taken);
    // The trades of the rest name only younger purchases.
    assert forall|j: int| 0 <= j < rest.2.len() implies (#[trigger] rest.2[j]).buy_transaction_id
        != Some(id) by {
        if rest.2[j].buy_transaction_id is Some {
            let k = choose|k: int|
                0 <= k < tail.len() && draws_from(#[trigger] tail[k], character_id, sale)
                    && tail[k].entry.transaction_id == rest.2[j].buy_transaction_id->0;
            assert(id < tail[k].entry.transaction_id);
        }
    }
    lemma_drawn_from_absent(rest.2, id);
    assert(!holds_id(rest.0, id)) by {
        if holds_id(rest.0, id) {
            let k = choose|k: int| 0 <= k < rest.0.len() && #[trigger] rest.0[k].entry.transaction_id == id;
            assert(id < rest.0[k].entry.transaction_id);
        }
    }
    let record = CompleteTransaction::spec_new(character_id, Some(row.buy), sale, taken as i32);
    if drawing {
        assert(res.2 == seq![record] + rest.2);
        assert((seq![record] + rest.2).drop_first() =~= rest.2);
        assert(record.buy_transaction_id == Some(id));
        assert(record.amount == taken);
    } else {
        assert(res.2 == rest.2);
    }
    // Every row of the rest keeps what it had in the rest.
    assert forall|x: int| 0 <= x < tail.len() implies drawn_from(res.2, (#[trigger] tail[x]).entry.transaction_id)
        == drawn_from(rest.2, tail[x].entry.transaction_id) by {
        if drawing {
            assert(id < tail[x].entry.transaction_id);
        }
    }
    assert forall|i: int| 0 <= i < rows.len() implies {
        let r = #[trigger] rows[i];
        let d = drawn_from(res.2, r.entry.transaction_id);
        &&& 0 <= d
        &&& d == 0 ==> res.0.contains(r)
        &&& d > 0 ==> d <= r.entry.amount_left
        &&& d > 0 && d < r.entry.amount_left ==> res.0.contains(
            with_units_left(r, r.entry.amount_left - d),
        )
        &&& d > 0 && d == r.entry.amount_left ==> !holds_id(res.0, r.entry.transaction_id)
            && res.1.contains(with_units_left(r, 0).entry)
    } by {
        if i == 0 {
            if drawing {
                let after = row_after_taking(row, taken);
                if after.entry.amount_left > 0 {
                    assert(res.0 == seq![after] + rest.0);
                    assert(after == with_units_left(row, row.entry.amount_left - taken));
                    assert(res.0[0] == after);
                } else {
                    assert(res.0 == rest.0);
                    assert(res.1 == seq![after.entry] + rest.1);
                    assert(after.entry == with_units_left(row, 0).entry);
                    assert(res.1[0] == after.entry);
                }
            } else {
                assert(res.0 == seq![row] + rest.0);
                assert(res.0[0] == row);
            }
        } else {
            let r = rows[i];
            assert(r == tail[i - 1]);
            let d = drawn_from(rest.2, r.entry.transaction_id);
            assert(drawn_from(res.2, r.entry.transaction_id) == d);
            assert(id < r.entry.transaction_id);
            let after = row_after_taking(row, taken);
            let front: Seq<QueuedBuy> = if drawing {
                if after.entry.amount_left > 0 {
                    seq![after]
                } else {
                    Seq::empty()
                }
            } else {
                seq![row]
            };
            let front_gone: Seq<TransactionQueue> = if drawing && after.entry.amount_left <= 0 {
                seq![after.entry]
            } else {
                Seq::empty()
            };
            assert(res.0 == front + rest.0);
            assert(res.1 == front_gone + rest.1);
            assert forall|y: QueuedBuy| rest.0.contains(y) implies res.0.contains(y) by {
                let k = choose|k: int| 0 <= k < rest.0.len() && rest.0[k] == y;
                assert(res.0[front.len() + k] == y);
            }
            assert forall|y: TransactionQueue| rest.1.contains(y) implies res.1.contains(y) by {
                let k = choose|k: int| 0 <= k < rest.1.len() && rest.1[k] == y;
                assert(res.1[front_gone.len() + k] == y);
            }
            if holds_id(res.0, r.entry.transaction_id) {
                let k = choose|k: int|
                    0 <= k < res.0.len() && #[trigger] res.0[k].entry.transaction_id == r.entry.transaction_id;
                if k >= front.len() {
                    assert(rest.0[k - front.len()].entry.transaction_id == r.entry.transaction_id);
                    assert(holds_id(rest.0, r.entry.transaction_id));
                }
            }
        }
    }
    assert forall|k: int| 0 <= k < res.0.len() implies holds_id(rows, (#[trigger] res.0[k]).entry.transaction_id) by {
        let after = row_after_taking(row, taken);
        if drawing && after.entry.amount_left > 0 {
            assert(res.0 == seq![after] + rest.0);
            if k == 0 {
                assert(rows[0].entry.transaction_id == res.0[0].entry.transaction_id);
            } else {
                assert(res.0[k] == rest.0[k - 1]);
                let x = choose|x: int| 0 <= x < tail.len() && #[trigger] tail[x].entry.transaction_id == rest.0[k - 1].entry.transaction_id;
                assert(rows[x + 1] == tail[x]);
            }
        } else if drawing {
            assert(res.0 == rest.0);
            let x = choose|x: int| 0 <= x < tail.len() && #[trigger] tail[x].entry.transaction_id == rest.0[k].entry.transaction_id;
            assert(rows[x + 1] == tail[x]);
        } else {
            assert(res.0 == seq![row] + rest.0);
            if k == 0 {
                assert(rows[0].entry.transaction_id == res.0[0].entry.transaction_id);
            } else {
                assert(res.0[k] == rest.0[k - 1]);
                let x = choose|x: int| 0 <= x < tail.len() && #[trigger] tail[x].entry.transaction_id == rest.0[k - 1].entry.transaction_id;
                assert(rows[x + 1] == tail[x]);
            }
        }
    }
}

/// Every trade of a sale belongs to the character settling it and records
/// the sale itself, at the sale's price and taxes.
pub open spec fn records_of_sale(
    records: Seq<CompleteTransaction>,
    character_id: i32,
    sale: WalletTransaction,
) -> bool {
    forall|j: int|
        0 <= j < records.len() ==> {
            let c = #[trigger] records[j];
            &&& c.character_id == character_id
            &&& c.sell_transaction_id == sale.transaction_id
            &&& c.sold_unit_price_bits == sale.unit_price_bits
            &&& c.sold_unit_taxes_bits == sale.unit_taxes_bits
        }
}

/// The trades settled for a sale belong to the settling character and name the sale.
pub proof fn lemma_settle_records_of_sale(
    rows: Seq<QueuedBuy>,
    character_id: i32,
    sale: WalletTransaction,
    left: int,
)
    ensures
        records_of_sale(settle(rows, character_id, sale, left).2, character_id, sale),
    decreases rows.len(),
{
    let res = settle(rows, character_id, sale, left);
    if rows.len() > 0 {
        let row = rows[0];
        let tail = rows.drop_first();
        if left > 0 && draws_from(row, character_id, sale) {
            let taken = min_int(left, row.entry.amount_left as int);
            lemma_settle_records_of_sale(tail, character_id, sale, left - taken);
            let rest = settle(tail, character_id, sale, left - taken);
            assert forall|j: int| 0 <= j < res.2.len() implies {
                let c = #[trigger] res.2[j];
                &&& c.character_id == character_id
                &&& c.sell_transaction_id == sale.transaction_id
                &&& c.sold_unit_price_bits == sale.unit_price_bits
                &&& c.sold_unit_taxes_bits == sale.unit_taxes_bits
            } by {
                if j > 0 {
                    assert(res.2[j] == rest.2[j - 1]);
                }
            }
        } else {
            lemma_settle_records_of_sale(tail, character_id, sale, left);
        }
    }
}

/// Every trade settled for a batch belongs to the character settling it.
pub proof fn lemma_settle_sales_records_of_character(
    rows: Seq<QueuedBuy>,
    character_id: i32,
    transactions: Seq<WalletTransaction>,
)
    ensures
        forall|j: int|
            0 <= j < settle_sales(rows, character_id, transactions).2.len() ==> (#[trigger] settle_sales(
                rows,
                character_id,
                transactions,
            ).2[j]).character_id == character_id,
    decreases transactions.len(),
{
    if transactions.len() > 0 {
        let t = transactions[0];
        let first = if t.is_buy {
            (rows, Seq::<TransactionQueue>::empty(), Seq::<CompleteTransaction>::empty())
        } else {
            settle(rows, character_id, t, t.quantity as int)
        };
        if !t.is_buy {
            lemma_settle_records_of_sale(rows, character_id, t, t.quantity as int);
        }
        lemma_settle_sales_records_of_character(first.0, character_id, transactions.drop_first());
        let rest = settle_sales(first.0, character_id, transactions.drop_first());
        let all = settle_sales(rows, character_id, transactions).2;
        assert(all == first.2 + rest.2);
        assert forall|j: int| 0 <= j < all.len() implies (#[trigger] all[j]).character_id == character_id by {
            if j < first.2.len() {
                assert(all[j] == first.2[j]);
            } else {
                assert(all[j] == rest.2[j - first.2.len()]);
            }
        }
    }
}

/// `rows` with each of `new` stored in turn keeps the last row stored under
/// each id, and holds nothing that was not there before or stored.
pub proof fn lemma_upsert_rows_keeps_last(rows: Seq<QueuedBuy>, new: Seq<QueuedBuy>)
    requires
        rows_ordered(rows),
    ensures
        rows_ordered(upsert_rows(rows, new)),
        forall|i: int|
            0 <= i < new.len() && (forall|j: int|
                i < j < new.len() ==> new[j].entry.transaction_id != new[i].entry.transaction_id)
                ==> upsert_rows(rows, new).contains(#[trigger] new[i]),
        forall|x: QueuedBuy| upsert_rows(rows, new).contains(x) ==> rows.contains(x) || new.contains(x),
    decreases new.len(),
{
    if new.len() > 0 {
        let first = upsert_row(rows, new[0]);
        let tail = new.drop_first();
        lemma_upsert_order_only(rows, new[0], i64::MIN - 1);
        lemma_upsert_replaces(rows, new[0]);
        lemma_upsert_rows_keeps_last(first, tail);
        let res = upsert_rows(rows, new);
        assert(res == upsert_rows(first, tail));
        assert forall|i: int|
            0 <= i < new.len() && (forall|j: int|
                i < j < new.len() ==> new[j].entry.transaction_id != new[i].entry.transaction_id)
                implies res.contains(#[trigger] new[i]) by {
            if i == 0 {
                // Stored first, and never replaced.
                assert(first.contains(new[0]));
                if !res.contains(new[0]) {
                    assert(!tail.contains(new[0])) by {
                        if tail.contains(new[0]) {
                            let j = choose|j: int| 0 <= j < tail.len() && tail[j] == new[0];
                            assert(new[j + 1] == new[0]);
                        }
                    }
                    lemma_upsert_rows_keeps_untouched(first, tail, new[0]);
                }
            } else {
                assert(new[i] == tail[i - 1]);
                assert forall|j: int| i - 1 < j < tail.len() implies (#[trigger] tail[j]).entry.transaction_id
                    != tail[i - 1].entry.transaction_id by {
                    assert(tail[j] == new[j + 1]);
                }
            }
        }
        assert forall|x: QueuedBuy| res.contains(x) implies rows.contains(x) || new.contains(x) by {
            if first.contains(x) {
                if x != new[0] {
                    assert(rows.contains(x));
                } else {
                    assert(new[0] == x);
                }
            } else {
                assert(tail.contains(x));
                let j = choose|j: int| 0 <= j < tail.len() && tail[j] == x;
                assert(new[j + 1] == x);
            }
        }
    }
}

/// A row whose id is never stored again stays.
proof fn lemma_upsert_rows_keeps_untouched(rows: Seq<QueuedBuy>, new: Seq<QueuedBuy>, x: QueuedBuy)
    requires
        rows_ordered(rows),
        rows.contains(x),
        forall|j: int| 0 <= j < new.len() ==> (#[trigger] new[j]).entry.transaction_id != x.entry.transaction_id,
    ensures
        upsert_rows(rows, new).contains(x),
    decreases new.len(),
{
    if new.len() > 0 {
        lemma_upsert_replaces(rows, new[0]);
        lemma_upsert_order_only(rows, new[0], i64::MIN - 1);
        let tail = new.drop_first();
        assert forall|j: int| 0 <= j < tail.len() implies (#[trigger] tail[j]).entry.transaction_id
            != x.entry.transaction_id by {
            assert(tail[j] == new[j + 1]);
        }
        assert(new[0].entry.transaction_id != x.entry.transaction_id);
        lemma_upsert_rows_keeps_untouched(upsert_row(rows, new[0]), tail, x);
    }
}

proof fn lemma_upsert_order_only(rows: Seq<QueuedBuy>, row: QueuedBuy, bound: int)
    requires
        rows_ordered(rows),
        rows_above(rows, bound),
        bound < row.entry.transaction_id,
    ensures
        rows_ordered(upsert_row(rows, row)),
        rows_above(upsert_row(rows, row), bound),
    decreases rows.len(),
{
    if rows.len() > 0 {
        let tail = rows.drop_first();
        assert(rows_ordered(tail));
        assert(rows_above(tail, rows[0].entry.transaction_id as int));
        if row.entry.transaction_id > rows[0].entry.transaction_id {
            lemma_upsert_order_only(tail, row, rows[0].entry.transaction_id as int);
        }
    }
}

/// The waiting purchases, in increasing order of transaction id.
pub struct BuyQueue {
    rows: Vec<QueuedBuy>,
}

impl View for BuyQueue {
    type V = Seq<QueuedBuy>;

    closed spec fn view(&self) -> Seq<QueuedBuy> {
        self.rows@
    }
}

impl BuyQueue {
    pub open spec fn wf(&self) -> bool {
        rows_ordered(self@) && rows_linked(self@)
    }

    /// An empty queue.
    pub fn new() -> (r: BuyQueue)
        ensures
            r.wf(),
            r@ == Seq::<QueuedBuy>::empty(),
    {
        BuyQueue { rows: Vec::new() }
    }

    /// The waiting purchases, oldest first.
    pub fn rows(&self) -> (r: &Vec<QueuedBuy>)
        ensures
            r@ == self@,
    {
        &self.rows
    }

    /// The queue holding `rows`, each stored in turn; `None` when a row's
    /// purchase is not the transaction its queue entry names.
    pub fn from_rows(rows: Vec<QueuedBuy>) -> (r: Option<BuyQueue>)
        ensures
            r is Some <==> rows_linked(rows@),
            r matches Some(q) ==> q.wf() && q@ == upsert_rows(Seq::empty(), rows@),
            r matches Some(q) ==> forall|i: int|
                0 <= i < rows@.len() && (forall|j: int|
                    i < j < rows@.len() ==> rows@[j].entry.transaction_id
                        != rows@[i].entry.transaction_id) ==> q@.contains(#[trigger] rows@[i]),
            r matches Some(q) ==> forall|x: QueuedBuy| q@.contains(x) ==> rows@.contains(x),
    {
        let mut queue = BuyQueue::new();
        let n = rows.len();
        let mut i: usize = 0;
        proof {
            assert(rows@.skip(0) =~= rows@);
        }
        while i < n
            invariant
                n == rows.len(),
                0 <= i <= n,
                queue.wf(),
                forall|j: int| 0 <= j < i ==> #[trigger] rows@[j].buy.transaction_id
                    == rows@[j].entry.transaction_id,
                upsert_rows(Seq::empty(), rows@) == upsert_rows(queue@, rows@.skip(i as int)),
            decreases n - i,
        {
            let row = rows[i];
            if row.buy.transaction_id != row.entry.transaction_id {
                assert(!rows_linked(rows@)) by {
                    assert(rows@[i as int] == row);
                }
                return None;
            }
            proof {
                assert(rows@.skip(i as int)[0] == row);
                assert(rows@.skip(i as int).drop_first() =~= rows@.skip(i + 1));
            }
            queue.upsert(row);
            i = i + 1;
        }
        proof {
            assert(rows@.skip(n as int) =~= Seq::<QueuedBuy>::empty());
            lemma_upsert_rows_keeps_last(Seq::empty(), rows@);
        }
        Some(queue)
    }

    /// Stores a purchase in the queue: it replaces the purchase with the same
    /// transaction id, if there is one, and keeps the order of ids.
    pub fn upsert(&mut self, row: QueuedBuy)
        requires
            old(self).wf(),
            row.buy.transaction_id == row.entry.transaction_id,
        ensures
            final(self).wf(),
            final(self)@ == upsert_row(old(self)@, row),
    {
        let n = self.rows.len();
        let mut p: usize = 0;
        while p < n && self.rows[p].entry.transaction_id < row.entry.transaction_id
            invariant
                n == self.rows.len(),
                p <= n,
                forall|i: int|
                    0 <= i < p ==> self.rows@[i].entry.transaction_id < row.entry.transaction_id,
            decreases n - p,
        {
            p = p + 1;
        }
        let ghost before = self.rows@;
        proof {
            lemma_upsert_split(before, row, p as int);
            lemma_upsert_keeps_order(before, row, i64::MIN - 1);
        }
        if p < n && self.rows[p].entry.transaction_id == row.entry.transaction_id {
            self.rows.set(p, row);
            assert(self.rows@ =~= before.take(p as int) + seq![row] + before.skip(p + 1));
        } else {
            self.rows.insert(p, row);
            assert(self.rows@ =~= before.take(p as int) + seq![row] + before.skip(p as int));
        }
    }

    /// Settles one sale by `character_id` against the queue: the queue keeps
    /// what is left, and the rows whose units ran out and the trades made are
    /// returned, in that order.
    pub fn settle_sale(&mut self, character_id: i32, sale: &WalletTransaction) -> (r: (
        Vec<TransactionQueue>,
        Vec<CompleteTransaction>,
    ))
        requires
            old(self).wf(),
        ensures
            final(self).wf(),
            final(self)@ == settle(old(self)@, character_id, *sale, sale.quantity as int).0,
            r.0@ == settle(old(self)@, character_id, *sale, sale.quantity as int).1,
            r.1@ == settle(old(self)@, character_id, *sale, sale.quantity as int).2,
            units_conserved(old(self)@, final(self)@, r.0@, r.1@),
            records_of_sale(r.1@, character_id, *sale),
            total_amount(r.1@) == (if sale.quantity > 0 {
                sale.quantity as int
            } else {
                0
            }),
            drawn_amount(r.1@) == min_int(
                if sale.quantity > 0 {
                    sale.quantity as int
                } else {
                    0
                },
                available(old(self)@, character_id, *sale),
            ),
            drawn_oldest_first(final(self)@, r.1@, character_id, *sale),
    {
        let mut rows: Vec<QueuedBuy> = Vec::new();
        std::mem::swap(&mut rows, &mut self.rows);
        let ghost full = settle(rows@, character_id, *sale, sale.quantity as int);
        proof {
            assert(rows@.skip(0) =~= rows@);
        }
        let mut kept: Vec<QueuedBuy> = Vec::new();
        let mut gone: Vec<TransactionQueue> = Vec::new();
        let mut done: Vec<CompleteTransaction> = Vec::new();
        let mut left: i32 = sale.quantity;
        let n = rows.len();
        let mut i: usize = 0;
        while i < n
            invariant
                n == rows.len(),
                0 <= i <= n,
                full == settle(rows@, character_id, *sale, sale.quantity as int),
                full.0 =~= kept@ + settle(rows@.skip(i as int), character_id, *sale, left as int).0,
                full.1 =~= gone@ + settle(rows@.skip(i as int), character_id, *sale, left as int).1,
                full.2 =~= done@ + settle(rows@.skip(i as int), character_id, *sale, left as int).2,
            decreases n - i,
        {
            let row = rows[i];
            let ghost here = rows@.skip(i as int);
            proof {
                assert(here[0] == row);
                assert(here.drop_first() =~= rows@.skip(i + 1));
            }
            let eligible = row.entry.character_id == character_id && row.entry.type_id
                == sale.type_id && row.entry.amount_left > 0 && !is_after(&row.buy.date, &sale.date);
            if left > 0 && eligible {
                let taken = if left <= row.entry.amount_left {
                    left
                } else {
                    row.entry.amount_left
                };
                let after = QueuedBuy {
                    entry: TransactionQueue {
                        character_id: row.entry.character_id,
                        type_id: row.entry.type_id,
                        transaction_id: row.entry.transaction_id,
                        amount_left: row.entry.amount_left - taken,
                    },
                    buy: row.buy,
                };
                let record = CompleteTransaction::new(character_id, Some(row.buy), sale, taken);
                let ghost rest = settle(rows@.skip(i + 1), character_id, *sale, left - taken);
                proof {
                    assert(after == row_after_taking(row, taken as int));
                }
                if after.entry.amount_left > 0 {
                    proof {
                        assert(kept@.push(after) + rest.0 =~= kept@ + (seq![after] + rest.0));
                    }
                    kept.push(after);
                } else {
                    proof {
                        assert(gone@.push(after.entry) + rest.1 =~= gone@ + (seq![after.entry]
                            + rest.1));
                    }
                    gone.push(after.entry);
                }
                proof {
                    assert(done@.push(record) + rest.2 =~= done@ + (seq![record] + rest.2));
                }
                done.push(record);
                left = left - taken;
            } else {
                let ghost rest = settle(rows@.skip(i + 1), character_id, *sale, left as int);
                proof {
                    assert(kept@.push(row) + rest.0 =~= kept@ + (seq![row] + rest.0));
                }
                kept.push(row);
            }
            i = i + 1;
        }
        proof {
            assert(rows@.skip(n as int) =~= Seq::<QueuedBuy>::empty());
        }
        if left > 0 {
            done.push(CompleteTransaction::new(character_id, None, sale, left));
        }
        proof {
            lemma_settle_keeps_order(rows@, character_id, *sale, sale.quantity as int, i64::MIN - 1);
            lemma_settle_conserves_units(rows@, character_id, *sale, sale.quantity as int);
            lemma_settle_records_of_sale(rows@, character_id, *sale, sale.quantity as int);
            lemma_settle_covers_sale(rows@, character_id, *sale, sale.quantity as int);
            lemma_settle_draws_what_waits(rows@, character_id, *sale, sale.quantity as int);
            lemma_settle_oldest_first(rows@, character_id, *sale, sale.quantity as int);
        }
        self.rows = kept;
        (gone, done)
    }
}

/// What an update of the wallet leaves: the queue of waiting purchases, the
/// queue rows whose units ran out, and the trades settled, in the order made.
pub struct Settlement {
    pub queue: BuyQueue,
    pub exhausted: Vec<TransactionQueue>,
    pub completed: Vec<CompleteTransaction>,
}

/// Books newly fetched wallet transactions of `character_id`, given newest
/// first as the game reports them: every purchase joins the queue with all
/// its units waiting, then every sale, oldest first, is settled against the
/// queue.
pub fn plan_settlement(
    queue: BuyQueue,
    character_id: i32,
    transactions: &Vec<WalletTransaction>,
) -> (r: Settlement)
    requires
        queue.wf(),
    ensures
        r.queue.wf(),
        r.queue@ == settle_sales(
            enqueue_purchases(queue@, character_id, transactions@),
            character_id,
            transactions@.reverse(),
        ).0,
        r.exhausted@ == settle_sales(
            enqueue_purchases(queue@, character_id, transactions@),
            character_id,
            transactions@.reverse(),
        ).1,
        r.completed@ == settle_sales(
            enqueue_purchases(queue@, character_id, transactions@),
            character_id,
            transactions@.reverse(),
        ).2,
        forall|j: int| 0 <= j < r.completed@.len() ==> (#[trigger] r.completed@[j]).character_id == character_id,
        total_amount(r.completed@) == units_sold(transactions@.reverse()),
{
    let mut queue = queue;
    let n = transactions.len();
    let ghost start = queue@;
    let mut i: usize = 0;
    proof {
        assert(transactions@.skip(0) =~= transactions@);
    }
    while i < n
        invariant
            n == transactions.len(),
            0 <= i <= n,
            queue.wf(),
            enqueue_purchases(start, character_id, transactions@) == enqueue_purchases(
                queue@,
                character_id,
                transactions@.skip(i as int),
            ),
        decreases n - i,
    {
        let t = transactions[i];
        proof {
            assert(transactions@.skip(i as int)[0] == t);
            assert(transactions@.skip(i as int).drop_first() =~= transactions@.skip(i + 1));
        }
        if t.is_buy {
            queue.upsert(QueuedBuy::waiting(character_id, t));
        }
        i = i + 1;
    }
    proof {
        assert(transactions@.skip(n as int) =~= Seq::<WalletTransaction>::empty());
    }
    let ghost enqueued = queue@;
    let ghost order = transactions@.reverse();
    let ghost full = settle_sales(enqueued, character_id, order);
    let mut exhausted: Vec<TransactionQueue> = Vec::new();
    let mut completed: Vec<CompleteTransaction> = Vec::new();
    let mut k: usize = 0;
    proof {
        assert(order.skip(0) =~= order);
    }
    while k < n
        invariant
            n == transactions.len(),
            order == transactions@.reverse(),
            0 <= k <= n,
            queue.wf(),
            full.0 == settle_sales(queue@, character_id, order.skip(k as int)).0,
            full.1 =~= exhausted@ + settle_sales(queue@, character_id, order.skip(k as int)).1,
            full.2 =~= completed@ + settle_sales(queue@, character_id, order.skip(k as int)).2,
        decreases n - k,
    {
        let t = transactions[n - 1 - k];
        let ghost here = order.skip(k as int);
        proof {
            assert(here[0] == t);
            assert(here.drop_first() =~= order.skip(k + 1));
        }
        if !t.is_buy {
            let ghost before = queue@;
            let (mut gone, mut done) = queue.settle_sale(character_id, &t);
            let ghost rest = settle_sales(queue@, character_id, order.skip(k + 1));
            proof {
                assert(exhausted@ + gone@ + rest.1 =~= exhausted@ + (gone@ + rest.1));
                assert(completed@ + done@ + rest.2 =~= completed@ + (done@ + rest.2));
            }
            exhausted.append(&mut gone);
            completed.append(&mut done);
        } else {
            let ghost rest = settle_sales(queue@, character_id, order.skip(k + 1));
            proof {
                assert(Seq::<TransactionQueue>::empty() + rest.1 =~= rest.1);
                assert(Seq::<CompleteTransaction>::empty() + rest.2 =~= rest.2);
            }
        }
        k = k + 1;
    }
    proof {
        assert(order.skip(n as int) =~= Seq::<WalletTransaction>::empty());
        lemma_settle_sales_records_of_character(enqueued, character_id, order);
        lemma_settle_sales_covers_sales(enqueued, character_id, order);
    }
    Settlement { queue, exhausted, completed }
}

} // verus!
