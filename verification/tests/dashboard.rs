use noice::dashboard::{clamp_days, combine_rows, dashboard_row, group_by_day, type_totals, DashboardRow};
use noice::models::CompleteTransactionView;
use noice::moment::Moment;
use noice::ordering::sort_desc_by_key;

fn at(secs: i64) -> Moment {
    Moment { secs, nanos: 0 }
}

fn view(name: &str, sell_id: i64, is_buy: bool, sell: i64, buy: Option<i64>) -> CompleteTransactionView {
    CompleteTransactionView {
        item_name: name.into(),
        type_id: 34,
        character_id: 1,
        sell_transaction_id: sell_id,
        buy_transaction_id: buy.map(|_| sell_id - 1),
        sell_date: at(sell),
        buy_date: buy.map(at),
        is_buy,
        quantity: 2,
        buy_unit_price_bits: buy.map(|_| 10.0f32.to_bits()),
        buy_unit_tax_bits: buy.map(|_| 1.0f32.to_bits()),
        sell_unit_price_bits: 15.0f32.to_bits(),
        sell_unit_tax_bits: 0.5f32.to_bits(),
    }
}

#[test]
fn days_are_clamped() {
    assert_eq!(clamp_days(None), 7);
    assert_eq!(clamp_days(Some(14)), 14);
    assert_eq!(clamp_days(Some(31)), 30);
    assert_eq!(clamp_days(Some(-2)), 0);
    assert_eq!(clamp_days(Some(i64::MIN)), 0);
}

#[test]
fn row_of_a_sale_and_of_a_purchase() {
    let r = dashboard_row(&view("Tritanium", 9, false, 5000, Some(1400)));
    assert_eq!(r.item_name, "Tritanium");
    assert_eq!(r.transaction_id, 9);
    assert_eq!(r.is_buy_text, "S");
    assert_eq!(r.time_span, 3600);
    assert_eq!(r.quantity, 2);
    assert_eq!(f32::from_bits(r.unit_price_bits), 15.0);
    let p = dashboard_row(&view("Tritanium", 9, true, 5000, None));
    assert_eq!(p.is_buy_text, "B");
    assert_eq!(p.time_span, -1);
}

#[test]
fn holding_time_is_cut_toward_zero() {
    let mut v = view("T", 1, false, 10, Some(0));
    v.sell_date = Moment { secs: 10, nanos: 0 };
    v.buy_date = Some(Moment { secs: 0, nanos: 500_000_000 });
    assert_eq!(dashboard_row(&v).time_span, 9);
    v.sell_date = Moment { secs: 0, nanos: 0 };
    v.buy_date = Some(Moment { secs: 9, nanos: 500_000_000 });
    assert_eq!(dashboard_row(&v).time_span, -9);
}

fn row(name: &str, id: i64, q: i32, span: i64) -> DashboardRow {
    DashboardRow {
        item_name: name.into(),
        type_id: 1,
        transaction_id: id,
        date_time: at(id),
        is_buy_text: "S".into(),
        quantity: q,
        unit_price_bits: id as u32,
        time_span: span,
    }
}

#[test]
fn combining_rows_adds_quantities_and_times() {
    let c = combine_rows(&vec![row("a", 1, 2, 10), row("b", 2, 3, 20), row("c", 3, 4, -1)]);
    assert_eq!(c.transaction_id, 1);
    assert_eq!(c.item_name, "c");
    assert_eq!(c.quantity, 9);
    assert_eq!(c.time_span, 29);
    assert_eq!(c.unit_price_bits, 3);
    let single = combine_rows(&vec![row("a", 5, 2, 10)]);
    assert_eq!((single.transaction_id, single.quantity, single.time_span), (5, 2, 10));
}

#[test]
fn trades_grouped_by_day_latest_first() {
    let d = 86_400;
    let dates = vec![at(d + 5), at(3 * d), at(d + 7), at(-1), at(3 * d + 9)];
    let groups = group_by_day(&dates);
    let got: Vec<(i64, Vec<usize>)> = groups.iter().map(|g| (g.day, g.members.clone())).collect();
    assert_eq!(got, vec![(3, vec![1, 4]), (1, vec![0, 2]), (-1, vec![3])]);
    assert!(group_by_day(&vec![]).is_empty());
}

#[test]
fn sales_with_known_purchase_grouped_by_item() {
    let ts = vec![
        view("Tritanium", 1, false, 1000, Some(0)),
        view("Pyerite", 2, false, 500, Some(0)),
        view("Tritanium", 3, false, 3001, Some(0)),
        view("Tritanium", 4, false, 50, None),
        view("Pyerite", 5, true, 800, None),
        view("Pyerite", 6, false, 0, Some(7)),
    ];
    let totals = type_totals(&ts);
    let got: Vec<(String, Vec<usize>, i128, i64, i64)> = totals
        .iter()
        .map(|t| (t.item_name.clone(), t.members.clone(), t.seconds, t.trades, t.avg_time))
        .collect();
    assert_eq!(
        got,
        vec![
            (String::from("Tritanium"), vec![0, 2], 4001, 2, 2000),
            (String::from("Pyerite"), vec![1, 5], 493, 2, 246),
        ]
    );
    let neg = vec![view("X", 1, false, 0, Some(7)), view("X", 2, false, 0, Some(8))];
    let t = type_totals(&neg);
    assert_eq!((t[0].seconds, t[0].avg_time), (-15, -7));
}

#[test]
fn sort_is_descending_and_stable() {
    let items = vec!["a", "b", "c", "d", "e"];
    let keys = vec![2, 5, 2, 9, 5];
    assert_eq!(sort_desc_by_key(items, &keys), vec!["d", "b", "e", "a", "c"]);
    let empty: Vec<u8> = vec![];
    assert!(sort_desc_by_key(empty, &vec![]).is_empty());
}
