use noice::models::{CompleteTransaction, TransactionQueue, WalletTransaction};
use noice::moment::Moment;
use noice::settlement::{plan_settlement, BuyQueue, QueuedBuy};

const CHAR: i32 = 90000001;

fn at(secs: i64) -> Moment {
    Moment { secs, nanos: 0 }
}

fn tx(id: i64, is_buy: bool, type_id: i32, quantity: i32, secs: i64) -> WalletTransaction {
    WalletTransaction {
        transaction_id: id,
        character_id: CHAR,
        client_id: 1,
        date: at(secs),
        is_buy,
        is_personal: true,
        location_id: 60003760,
        quantity,
        type_id,
        unit_price_bits: (100.0f32 + id as f32).to_bits(),
        unit_taxes_bits: 3.0f32.to_bits(),
    }
}

fn queue_of(buys: &[WalletTransaction]) -> BuyQueue {
    let mut q = BuyQueue::new();
    for b in buys {
        q.upsert(QueuedBuy::waiting(CHAR, *b));
    }
    q
}

fn amounts(q: &BuyQueue) -> Vec<(i64, i32)> {
    q.rows().iter().map(|r| (r.entry.transaction_id, r.entry.amount_left)).collect()
}

fn pairs(cs: &[CompleteTransaction]) -> Vec<(Option<i64>, i64, i32)> {
    cs.iter().map(|c| (c.buy_transaction_id, c.sell_transaction_id, c.amount)).collect()
}

#[test]
fn sale_draws_from_oldest_purchase_first() {
    let b1 = tx(10, true, 34, 5, 100);
    let b2 = tx(20, true, 34, 5, 200);
    let mut q = queue_of(&[b2, b1]);
    let sale = tx(30, false, 34, 7, 300);
    let (gone, done) = q.settle_sale(CHAR, &sale);
    assert_eq!(pairs(&done), vec![(Some(10), 30, 5), (Some(20), 30, 2)]);
    assert_eq!(gone, vec![TransactionQueue::new(CHAR, 34, 10, 0)]);
    assert_eq!(amounts(&q), vec![(20, 3)]);
    assert_eq!(done[0].bought_unit_price_bits, Some(110.0f32.to_bits()));
    assert_eq!(done[0].bought_unit_taxes_bits, Some(3.0f32.to_bits()));
    assert_eq!(done[0].sold_unit_price_bits, 130.0f32.to_bits());
}

#[test]
fn uncovered_units_are_settled_without_purchase() {
    let mut q = queue_of(&[tx(10, true, 34, 5, 100), tx(20, true, 34, 5, 200)]);
    let sale = tx(30, false, 34, 12, 300);
    let (gone, done) = q.settle_sale(CHAR, &sale);
    assert_eq!(pairs(&done), vec![(Some(10), 30, 5), (Some(20), 30, 5), (None, 30, 2)]);
    assert_eq!(done[2].bought_unit_price_bits, None);
    assert_eq!(gone.len(), 2);
    assert!(q.rows().is_empty());
    let total: i32 = done.iter().map(|c| c.amount).sum();
    assert_eq!(total, 12);
}

#[test]
fn purchases_after_the_sale_or_of_other_items_are_not_drawn() {
    let later_buy = tx(10, true, 34, 5, 500);
    let other_item = tx(11, true, 35, 5, 100);
    let mut other_owner = QueuedBuy::waiting(CHAR + 1, tx(12, true, 34, 5, 100));
    other_owner.buy.character_id = CHAR + 1;
    let mut q = queue_of(&[later_buy, other_item]);
    q.upsert(other_owner);
    let sale = tx(30, false, 34, 4, 300);
    let (gone, done) = q.settle_sale(CHAR, &sale);
    assert_eq!(pairs(&done), vec![(None, 30, 4)]);
    assert!(gone.is_empty());
    assert_eq!(amounts(&q), vec![(10, 5), (11, 5), (12, 5)]);
}

#[test]
fn purchase_at_the_same_moment_is_drawn() {
    let mut q = queue_of(&[tx(10, true, 34, 5, 300)]);
    let (_, done) = q.settle_sale(CHAR, &tx(30, false, 34, 5, 300));
    assert_eq!(pairs(&done), vec![(Some(10), 30, 5)]);
    assert!(q.rows().is_empty());
}

#[test]
fn sale_of_no_units_changes_nothing() {
    let mut q = queue_of(&[tx(10, true, 34, 5, 100)]);
    let (gone, done) = q.settle_sale(CHAR, &tx(30, false, 34, 0, 300));
    assert!(gone.is_empty());
    assert!(done.is_empty());
    assert_eq!(amounts(&q), vec![(10, 5)]);
}

#[test]
fn exact_cover_leaves_no_remainder_record() {
    let mut q = queue_of(&[tx(10, true, 34, 5, 100)]);
    let (gone, done) = q.settle_sale(CHAR, &tx(30, false, 34, 5, 300));
    assert_eq!(pairs(&done), vec![(Some(10), 30, 5)]);
    assert_eq!(gone, vec![TransactionQueue::new(CHAR, 34, 10, 0)]);
}

#[test]
fn storing_a_purchase_again_replaces_it() {
    let mut q = queue_of(&[tx(20, true, 34, 5, 100), tx(10, true, 34, 6, 100)]);
    assert_eq!(amounts(&q), vec![(10, 6), (20, 5)]);
    let mut again = QueuedBuy::waiting(CHAR, tx(20, true, 34, 5, 100));
    again.entry.amount_left = 2;
    q.upsert(again);
    assert_eq!(amounts(&q), vec![(10, 6), (20, 2)]);
    q.upsert(QueuedBuy::waiting(CHAR, tx(15, true, 34, 1, 100)));
    assert_eq!(amounts(&q), vec![(10, 6), (15, 1), (20, 2)]);
}

#[test]
fn queue_loads_rows_in_id_order_and_rejects_mismatched_rows() {
    let rows = vec![
        QueuedBuy::waiting(CHAR, tx(20, true, 34, 5, 100)),
        QueuedBuy::waiting(CHAR, tx(10, true, 34, 6, 100)),
    ];
    let q = BuyQueue::from_rows(rows).unwrap();
    assert_eq!(amounts(&q), vec![(10, 6), (20, 5)]);
    let mut bad = QueuedBuy::waiting(CHAR, tx(20, true, 34, 5, 100));
    bad.entry.transaction_id = 21;
    assert!(BuyQueue::from_rows(vec![bad]).is_none());
}

#[test]
fn batch_enqueues_purchases_then_settles_sales_oldest_first() {
    // As the game reports them: newest first.
    let batch = vec![
        tx(5, false, 34, 4, 500),
        tx(4, true, 34, 10, 400),
        tx(3, false, 34, 3, 300),
        tx(2, true, 34, 2, 200),
    ];
    let existing = queue_of(&[tx(1, true, 34, 2, 100)]);
    let plan = plan_settlement(existing, CHAR, &batch);
    assert_eq!(
        pairs(&plan.completed),
        vec![(Some(1), 3, 2), (Some(2), 3, 1), (Some(2), 5, 1), (Some(4), 5, 3)]
    );
    assert_eq!(
        plan.exhausted,
        vec![TransactionQueue::new(CHAR, 34, 1, 0), TransactionQueue::new(CHAR, 34, 2, 0)]
    );
    assert_eq!(amounts(&plan.queue), vec![(4, 7)]);
    let settled: i32 = plan.completed.iter().map(|c| c.amount).sum();
    assert_eq!(settled, 3 + 4);
}

#[test]
fn batch_sale_before_any_purchase_is_unmatched() {
    let batch = vec![tx(2, true, 34, 5, 200), tx(1, false, 34, 5, 100)];
    let plan = plan_settlement(BuyQueue::new(), CHAR, &batch);
    assert_eq!(pairs(&plan.completed), vec![(None, 1, 5)]);
    assert_eq!(amounts(&plan.queue), vec![(2, 5)]);
    assert!(plan.exhausted.is_empty());
}

#[test]
fn complete_transaction_copies_both_sides() {
    let buy = tx(1, true, 34, 5, 100);
    let sell = tx(2, false, 34, 5, 200);
    let c = CompleteTransaction::new(CHAR, Some(buy), &sell, 4);
    assert_eq!(c.buy_transaction_id, Some(1));
    assert_eq!(c.sell_transaction_id, 2);
    assert_eq!(c.bought_unit_price_bits, Some(101.0f32.to_bits()));
    assert_eq!(c.sold_unit_taxes_bits, 3.0f32.to_bits());
    assert_eq!(c.amount, 4);
    let n = CompleteTransaction::new(CHAR, None, &sell, 4);
    assert_eq!(n.buy_transaction_id, None);
    assert_eq!(n.bought_unit_taxes_bits, None);
}
