use noice::models::{EsiWalletTransaction, WalletTransaction};
use noice::moment::Moment;
use noice::wallet_sync::{new_transactions, older_page_cursor, wallet_path, wallet_transactions_path};

fn esi(id: i64, secs: i64) -> EsiWalletTransaction {
    EsiWalletTransaction {
        client_id: 7,
        date: Moment { secs, nanos: 0 },
        is_buy: false,
        is_personal: true,
        journal_ref_id: 99,
        location_id: 60003760,
        quantity: 3,
        transaction_id: id,
        type_id: 34,
        unit_price_bits: 5.5f32.to_bits(),
    }
}

#[test]
fn keeps_paging_while_the_oldest_is_newer_than_the_cutoff() {
    let cutoff = Moment { secs: 100, nanos: 0 };
    let page = vec![esi(50, 300), esi(40, 200)];
    assert_eq!(older_page_cursor(&page, &cutoff), Some(String::from("39")));
    let page = vec![esi(50, 300), esi(40, 100)];
    assert_eq!(older_page_cursor(&page, &cutoff), None);
}

#[test]
fn new_transactions_stop_at_the_first_old_one() {
    let cutoff = Moment { secs: 100, nanos: 0 };
    let fetched = vec![esi(5, 400), esi(4, 300), esi(3, 100), esi(2, 500)];
    let new = new_transactions(&fetched, &cutoff);
    assert_eq!(new, vec![esi(5, 400), esi(4, 300)]);
    assert!(new_transactions(&vec![], &cutoff).is_empty());
}

#[test]
fn wallet_paths() {
    assert_eq!(wallet_path(2112), "/latest/characters/2112/wallet/");
    assert_eq!(wallet_transactions_path(2112), "/latest/characters/2112/wallet/transactions/");
}

#[test]
fn stored_transaction_keeps_the_reported_fields() {
    let t = WalletTransaction::new(11, esi(8, 300), 0.25f32.to_bits());
    assert_eq!(t.transaction_id, 8);
    assert_eq!(t.character_id, 11);
    assert_eq!(t.client_id, 7);
    assert_eq!(t.date, Moment { secs: 300, nanos: 0 });
    assert!(!t.is_buy);
    assert_eq!(t.quantity, 3);
    assert_eq!(f32::from_bits(t.unit_price_bits), 5.5);
    assert_eq!(f32::from_bits(t.unit_taxes_bits), 0.25);
}
