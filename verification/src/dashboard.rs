//! The dashboard's figures that do not depend on prices: which days it covers,
//! the rows of settled trades, and how trades are grouped by day and by item.
//! The amounts of money in these rows and groups are computed from the
//! prices by the caller.

use vstd::prelude::*;

use crate::models::CompleteTransactionView;
use crate::moment::{calendar_day, seconds_between, whole_seconds, Moment, MAX_TIMESTAMP, MIN_TIMESTAMP};
use crate::ordering::sort_desc_by_key;

verus! {

/// How many days the dashboard covers when not asked.
pub const DEFAULT_DAYS: i64 = 7;

/// The most days the dashboard covers.
pub const MAX_DAYS: i64 = 30;

pub open spec fn clamped_days(days: Option<i64>) -> i64 {
    let asked = match days {
        Some(d) => d,
        None => DEFAULT_DAYS,
    };
    if asked > MAX_DAYS {
        MAX_DAYS
    } else if asked < 0 {
        0
    } else {
        asked
    }
}

/// The days shown are exactly the days asked when that is between none and
/// thirty, thirty when more is asked, none when fewer than none is asked, and
/// seven only when nothing is asked.
pub proof fn lemma_clamped_days_as_asked(days: Option<i64>)
    ensures
        days is None ==> clamped_days(days) == 7,
        forall|d: i64| days == Some(d) && 0 <= d <= 30 ==> clamped_days(days) == d,
        forall|d: i64| days == Some(d) && d > 30 ==> clamped_days(days) == 30,
        forall|d: i64| days == Some(d) && d < 0 ==> clamped_days(days) == 0,
{
}

/// The number of days to show: as asked, seven when not asked, and kept
/// between none and thirty.
pub fn clamp_days(days: Option<i64>) -> (r: i64)
    ensures
        r == clamped_days(days),
        0 <= r <= MAX_DAYS,
        days is None ==> r == 7,
        forall|d: i64| days == Some(d) && 0 <= d <= 30 ==> r == d,
        forall|d: i64| days == Some(d) && d > 30 ==> r == 30,
        forall|d: i64| days == Some(d) && d < 0 ==> r == 0,
{
    let asked = match days {
        Some(d) => d,
        None => DEFAULT_DAYS,
    };
    let capped = if asked < MAX_DAYS {
        asked
    } else {
        MAX_DAYS
    };
    if capped > 0 {
        capped
    } else {
        0
    }
}

/// The first moment whose trades the dashboard lists: midnight `days` days
/// before the day of `now`.
pub fn window_start(now: &Moment, days: i64) -> (r: Moment)
    requires
        now.wf(),
        MIN_TIMESTAMP <= (now.day() - days) * 86_400 <= MAX_TIMESTAMP,
    ensures
        r.wf(),
        r.secs == (now.day() - days) * 86_400,
        r.nanos == 0,
{
    let today = calendar_day(now);
    Moment::start_of_day(today - days)
}

/// A row of the dashboard's list of trades, without its amounts of money.
pub struct DashboardRow {
    pub item_name: String,
    pub type_id: i32,
    pub transaction_id: i64,
    pub date_time: Moment,
    /// `B` for a purchase, `S` for a sale.
    pub is_buy_text: String,
    pub quantity: i32,
    pub unit_price_bits: u32,
    /// Seconds from the purchase to the sale, or -1 when there was no purchase.
    pub time_span: i64,
}

/// How long the units of a trade were held: seconds from the purchase to the
/// sale, or -1 when the trade has no purchase.
pub open spec fn holding_time(t: CompleteTransactionView) -> int {
    match t.buy_date {
        Some(d) => whole_seconds(t.sell_date.instant() - d.instant()),
        None => -1,
    }
}

pub open spec fn dates_valid(t: CompleteTransactionView) -> bool {
    &&& t.sell_date.wf()
    &&& t.buy_date matches Some(d) ==> d.wf()
}

/// The dashboard row of a settled trade (a purchase keeps its data in the sale fields).
pub fn dashboard_row(t: &CompleteTransactionView) -> (r: DashboardRow)
    requires
        dates_valid(*t),
    ensures
        r.item_name@ == t.item_name@,
        r.type_id == t.type_id,
        r.transaction_id == t.sell_transaction_id,
        r.date_time == t.sell_date,
        r.is_buy_text@ == (if t.is_buy {
            seq!['B']
        } else {
            seq!['S']
        }),
        r.quantity == t.quantity,
        r.unit_price_bits == t.sell_unit_price_bits,
        r.time_span == holding_time(*t),
{
    let is_buy_text = if t.is_buy {
        proof {
            reveal_strlit("B");
        }
        String::from_str("B")
    } else {
        proof {
            reveal_strlit("S");
        }
        String::from_str("S")
    };
    let time_span = match t.buy_date {
        Some(d) => seconds_between(&t.sell_date, &d),
        None => -1,
    };
    DashboardRow {
        item_name: t.item_name.clone(),
        type_id: t.type_id,
        transaction_id: t.sell_transaction_id,
        date_time: t.sell_date,
        is_buy_text,
        quantity: t.quantity,
        unit_price_bits: t.sell_unit_price_bits,
        time_span,
    }
}

pub open spec fn quantity_total(rows: Seq<DashboardRow>) -> int
    decreases rows.len(),
{
    if rows.len() == 0 {
        0
    } else {
        quantity_total(rows.drop_last()) + rows.last().quantity
    }
}

pub open spec fn time_span_total(rows: Seq<DashboardRow>) -> int
    decreases rows.len(),
{
    if rows.len() == 0 {
        0
    } else {
        time_span_total(rows.drop_last()) + rows.last().time_span
    }
}

/// Every running total of the rows' quantities and time spans fits its type.
pub open spec fn totals_fit(rows: Seq<DashboardRow>) -> bool {
    forall|k: int|
        1 <= k <= rows.len() ==> i32::MIN <= #[trigger] quantity_total(rows.take(k)) <= i32::MAX
            && i64::MIN <= time_span_total(rows.take(k)) <= i64::MAX
}

/// Several rows summed into one: quantities and time spans add up, the id
/// is the first row's, and the rest is the last row's.
pub fn combine_rows(rows: &Vec<DashboardRow>) -> (r: DashboardRow)
    requires
        rows.len() > 0,
        totals_fit(rows@),
    ensures
        r.item_name@ == rows@.last().item_name@,
        r.type_id == rows@.last().type_id,
        r.transaction_id == rows@[0].transaction_id,
        r.date_time == rows@.last().date_time,
        r.is_buy_text@ == rows@.last().is_buy_text@,
        r.quantity == quantity_total(rows@),
        r.unit_price_bits == rows@.last().unit_price_bits,
        r.time_span == time_span_total(rows@),
{
    let n = rows.len();
    let mut quantity: i32 = rows[0].quantity;
    let mut time_span: i64 = rows[0].time_span;
    let mut i: usize = 1;
    proof {
        assert(rows@.take(1).drop_last() =~= Seq::<DashboardRow>::empty());
        assert(quantity_total(rows@.take(1)) == quantity_total(rows@.take(1).drop_last())
            + rows@.take(1).last().quantity);
        assert(time_span_total(rows@.take(1)) == time_span_total(rows@.take(1).drop_last())
            + rows@.take(1).last().time_span);
    }
    while i < n
        invariant
            n == rows@.len(),
            1 <= i <= n,
            totals_fit(rows@),
            quantity == quantity_total(rows@.take(i as int)),
            time_span == time_span_total(rows@.take(i as int)),
        decreases n - i,
    {
        proof {
            assert(rows@.take(i + 1).drop_last() =~= rows@.take(i as int));
            assert(quantity_total(rows@.take(i + 1)) == quantity + rows@[i as int].quantity);
            assert(time_span_total(rows@.take(i + 1)) == time_span + rows@[i as int].time_span);
            assert(1 <= i + 1 <= rows@.len());
        }
        quantity = rows[i].quantity + quantity;
        time_span = rows[i].time_span + time_span;
        i = i + 1;
    }
    proof {
        assert(rows@.take(n as int) =~= rows@);
    }
    let last = &rows[n - 1];
    DashboardRow {
        item_name: last.item_name.clone(),
        type_id: last.type_id,
        transaction_id: rows[0].transaction_id,
        date_time: last.date_time,
        is_buy_text: last.is_buy_text.clone(),
        quantity,
        unit_price_bits: last.unit_price_bits,
        time_span,
    }
}

/// The trades of one calendar day: their positions in the list, in order.
pub struct DayGroup {
    pub day: i64,
    pub members: Vec<usize>,
}

/// A group that holds, in increasing order, positions below `bound` whose
/// dates fall on its day.
pub open spec fn day_group_ok(g: DayGroup, dates: Seq<Moment>, bound: int) -> bool {
    &&& g.members@.len() > 0
    &&& forall|k: int|
        0 <= k < g.members@.len() ==> #[trigger] g.members@[k] < bound && dates[g.members@[k] as int].day()
            == g.day
    &&& forall|k1: int, k2: int|
        0 <= k1 < k2 < g.members@.len() ==> g.members@[k1] < g.members@[k2]
}

/// Position `i` belongs to one of the groups.
pub open spec fn in_day_group(groups: Seq<DayGroup>, i: int) -> bool {
    exists|g: int, k: int|
        0 <= g < groups.len() && 0 <= k < groups[g].members@.len() && #[trigger] groups[g].members@[k]
            == i
}

/// The trades at the given dates grouped by calendar day, the latest day
/// first, each day's trades in their order in the list.
pub fn group_by_day(dates: &Vec<Moment>) -> (r: Vec<DayGroup>)
    requires
        forall|i: int| 0 <= i < dates@.len() ==> (#[trigger] dates@[i]).wf(),
    ensures
        forall|g: int| 0 <= g < r@.len() ==> day_group_ok(#[trigger] r@[g], dates@, dates@.len() as int),
        forall|g1: int, g2: int| 0 <= g1 < g2 < r@.len() ==> (#[trigger] r@[g1]).day > (#[trigger] r@[g2]).day,
        forall|i: int| 0 <= i < dates@.len() ==> #[trigger] in_day_group(r@, i),
{
    let n = dates.len();
    let mut groups: Vec<DayGroup> = Vec::new();
    let mut i: usize = 0;
    while i < n
        invariant
            n == dates@.len(),
            i <= n,
            forall|j: int| 0 <= j < dates@.len() ==> (#[trigger] dates@[j]).wf(),
            forall|g: int| 0 <= g < groups@.len() ==> day_group_ok(#[trigger] groups@[g], dates@, i as int),
            forall|g1: int, g2: int|
                0 <= g1 < g2 < groups@.len() ==> (#[trigger] groups@[g1]).day != (#[trigger] groups@[g2]).day,
            forall|j: int| 0 <= j < i ==> #[trigger] in_day_group(groups@, j),
        decreases n - i,
    {
        let d = calendar_day(&dates[i]);
        let mut g: usize = 0;
        while g < groups.len() && groups[g].day != d
            invariant
                g <= groups@.len(),
                forall|h: int| 0 <= h < g ==> (#[trigger] groups@[h]).day != d,
            decreases groups@.len() - g,
        {
            g = g + 1;
        }
        let ghost before = groups@;
        if g < groups.len() {
            let mut grp = groups.remove(g);
            let ghost old_members = grp.members@;
            grp.members.push(i);
            groups.insert(g, grp);
            proof {
                assert(groups@ =~= before.update(g as int, grp));
                assert(day_group_ok(grp, dates@, i + 1)) by {
                    assert(day_group_ok(before[g as int], dates@, i as int));
                    assert forall|k: int| 0 <= k < grp.members@.len() implies #[trigger] grp.members@[k]
                        < i + 1 && dates@[grp.members@[k] as int].day() == grp.day by {
                        if k < old_members.len() {
                            assert(grp.members@[k] == old_members[k]);
                        }
                    }
                    assert forall|k1: int, k2: int|
                        0 <= k1 < k2 < grp.members@.len() implies grp.members@[k1] < grp.members@[k2] by {
                        if k2 < old_members.len() {
                            assert(grp.members@[k2] == old_members[k2]);
                        }
                        assert(grp.members@[k1] == old_members[k1]);
                    }
                }
                assert forall|h: int| 0 <= h < groups@.len() implies day_group_ok(
                    #[trigger] groups@[h],
                    dates@,
                    i + 1,
                ) by {
                    if h != g {
                        assert(day_group_ok(before[h], dates@, i as int));
                    }
                }
                assert forall|j: int| 0 <= j < i + 1 implies #[trigger] in_day_group(groups@, j) by {
                    if j == i {
                        assert(groups@[g as int].members@[old_members.len() as int] == i);
                    } else {
                        assert(in_day_group(before, j));
                        let (h, k) = choose|h: int, k: int|
                            0 <= h < before.len() && 0 <= k < before[h].members@.len()
                                && #[trigger] before[h].members@[k] == j;
                        if h == g {
                            assert(groups@[h].members@[k] == j);
                        } else {
                            assert(groups@[h] == before[h]);
                            assert(groups@[h].members@[k] == j);
                        }
                    }
                }
            }
        } else {
            let grp = DayGroup { day: d, members: vec![i] };
            groups.push(grp);
            proof {
                assert(groups@ =~= before.push(grp));
                assert(grp.members@.len() == 1);
                assert(day_group_ok(grp, dates@, i + 1));
                assert forall|h: int| 0 <= h < groups@.len() implies day_group_ok(
                    #[trigger] groups@[h],
                    dates@,
                    i + 1,
                ) by {
                    if h < before.len() {
                        assert(day_group_ok(before[h], dates@, i as int));
                    }
                }
                assert forall|j: int| 0 <= j < i + 1 implies #[trigger] in_day_group(groups@, j) by {
                    if j == i {
                        assert(groups@[before.len() as int].members@[0] == i);
                    } else {
                        assert(in_day_group(before, j));
                        let (h, k) = choose|h: int, k: int|
                            0 <= h < before.len() && 0 <= k < before[h].members@.len()
                                && #[trigger] before[h].members@[k] == j;
                        assert(groups@[h] == before[h]);
                        assert(groups@[h].members@[k] == j);
                    }
                }
            }
        }
        i = i + 1;
    }
    let mut keys: Vec<i64> = Vec::new();
    let mut g: usize = 0;
    while g < groups.len()
        invariant
            g <= groups@.len(),
            keys@.len() == g,
            forall|h: int| 0 <= h < g ==> keys@[h] == (#[trigger] groups@[h]).day,
        decreases groups@.len() - g,
    {
        keys.push(groups[g].day);
        g = g + 1;
    }
    let ghost unsorted = groups@;
    let r = sort_desc_by_key(groups, &keys);
    proof {
        let p = choose|p: Seq<int>|
            {
                &&& crate::ordering::is_permutation(p, unsorted.len() as int)
                &&& crate::ordering::in_descending_order(keys@, p)
                &&& r@.len() == unsorted.len()
                &&& forall|x: int| 0 <= x < r@.len() ==> r@[x] == unsorted[#[trigger] p[x]]
            };
        assert forall|x: int| 0 <= x < r@.len() implies day_group_ok(#[trigger] r@[x], dates@, n as int) by {
            assert(r@[x] == unsorted[p[x]]);
        }
        assert forall|x1: int, x2: int| 0 <= x1 < x2 < r@.len() implies (#[trigger] r@[x1]).day > (#[trigger] r@[x2]).day by {
            assert(r@[x1] == unsorted[p[x1]]);
            assert(r@[x2] == unsorted[p[x2]]);
            assert(crate::ordering::goes_before(keys@, p[x1], p[x2]));
            assert(p[x1] != p[x2]);
            if p[x1] < p[x2] {
                assert(unsorted[p[x1]].day != unsorted[p[x2]].day);
            } else {
                assert(unsorted[p[x2]].day != unsorted[p[x1]].day);
            }
        }
        assert forall|j: int| 0 <= j < n implies #[trigger] in_day_group(r@, j) by {
            assert(in_day_group(unsorted, j));
            let (h, k) = choose|h: int, k: int|
                0 <= h < unsorted.len() && 0 <= k < unsorted[h].members@.len()
                    && #[trigger] unsorted[h].members@[k] == j;
            assert(crate::ordering::lists(p, h));
            let x = choose|x: int| 0 <= x < p.len() && #[trigger] p[x] == h;
            assert(r@[x] == unsorted[h]);
            assert(r@[x].members@[k] == j);
        }
    }
    r
}

/// A trade that counts toward the profit of its item: a sale with a known purchase price.
pub open spec fn counts_for_profit(t: CompleteTransactionView) -> bool {
    !t.is_buy && t.buy_unit_price_bits is Some
}

/// The holding times of the trades at `members`, added up.
pub open spec fn span_total(ts: Seq<CompleteTransactionView>, members: Seq<usize>) -> int
    decreases members.len(),
{
    if members.len() == 0 {
        0
    } else {
        span_total(ts, members.drop_last()) + holding_time(ts[members.last() as int])
    }
}

/// `a / b` with the fraction cut off toward zero, as Rust divides integers.
pub open spec fn truncated_quotient(a: int, b: int) -> int {
    if a >= 0 {
        a / b
    } else {
        -((-a) / b)
    }
}

/// The trades of one item that count toward its profit: their positions in
/// the list, their holding times added up, how many there are, and the
/// average holding time in whole seconds.
pub struct TypeTotal {
    pub item_name: String,
    pub members: Vec<usize>,
    pub seconds: i128,
    pub trades: i64,
    pub avg_time: i64,
}

/// A group of positions below `bound`, in increasing order, of trades of
/// its item that count toward profit, with their holding times added up.
pub open spec fn type_group_sums(g: TypeTotal, ts: Seq<CompleteTransactionView>, bound: int) -> bool {
    &&& g.members@.len() > 0
    &&& forall|k: int|
        0 <= k < g.members@.len() ==> #[trigger] g.members@[k] < bound && counts_for_profit(
            ts[g.members@[k] as int],
        ) && ts[g.members@[k] as int].item_name@ == g.item_name@
    &&& forall|k1: int, k2: int|
        0 <= k1 < k2 < g.members@.len() ==> g.members@[k1] < g.members@[k2]
    &&& g.seconds == span_total(ts, g.members@)
    &&& g.trades == g.members@.len()
}

pub open spec fn type_group_ok(g: TypeTotal, ts: Seq<CompleteTransactionView>) -> bool {
    &&& type_group_sums(g, ts, ts.len() as int)
    &&& g.avg_time == truncated_quotient(g.seconds as int, g.trades as int)
}

/// Position `i` belongs to one of the groups.
pub open spec fn in_type_group(groups: Seq<TypeTotal>, i: int) -> bool {
    exists|g: int, k: int|
        0 <= g < groups.len() && 0 <= k < groups[g].members@.len() && #[trigger] groups[g].members@[k]
            == i
}

/// The holding time of a trade is at most the calendar's whole span.
pub open spec fn span_bound() -> int {
    MAX_TIMESTAMP - MIN_TIMESTAMP + 1
}

/// Position `m` holds a trade with valid dates.
pub open spec fn valid_member(ts: Seq<CompleteTransactionView>, m: usize) -> bool {
    m < ts.len() && dates_valid(ts[m as int])
}

proof fn lemma_span_total_bound(ts: Seq<CompleteTransactionView>, members: Seq<usize>)
    requires
        forall|k: int| 0 <= k < members.len() ==> valid_member(ts, #[trigger] members[k]),
    ensures
        -(members.len() * span_bound()) <= span_total(ts, members) <= members.len() * span_bound(),
    decreases members.len(),
{
    if members.len() > 0 {
        let init = members.drop_last();
        assert forall|k: int| 0 <= k < init.len() implies valid_member(ts, #[trigger] init[k]) by {
            assert(init[k] == members[k]);
        }
        lemma_span_total_bound(ts, init);
        let last = members[members.len() - 1];
        assert(valid_member(ts, last));
        let t = ts[last as int];
        assert(-span_bound() <= holding_time(t) <= span_bound());
        assert(span_total(ts, members) == span_total(ts, init) + holding_time(t));
        let b = span_bound();
        assert(members.len() * b == init.len() * b + b) by (nonlinear_arith)
            requires
                members.len() == init.len() + 1,
        ;
    }
}

proof fn lemma_increasing_len(s: Seq<usize>, bound: int)
    requires
        0 <= bound,
        forall|k: int| 0 <= k < s.len() ==> #[trigger] s[k] < bound,
        forall|k1: int, k2: int| 0 <= k1 < k2 < s.len() ==> s[k1] < s[k2],
    ensures
        s.len() <= bound,
    decreases s.len(),
{
    if s.len() > 0 {
        let init = s.drop_last();
        let top = s[s.len() - 1];
        assert forall|k: int| 0 <= k < init.len() implies #[trigger] init[k] < top by {
            assert(init[k] == s[k]);
        }
        assert(top < bound);
        lemma_increasing_len(init, top as int);
        assert(init.len() == s.len() - 1);
    }
}

proof fn lemma_quotient_bound(a: int, c: int)
    requires
        c > 0,
        -(c * span_bound()) <= a <= c * span_bound(),
    ensures
        -span_bound() <= truncated_quotient(a, c) <= span_bound(),
{
    let b = span_bound();
    if a >= 0 {
        assert(a / c <= b) by (nonlinear_arith)
            requires
                0 <= a <= c * b,
                c > 0,
                b > 0,
        ;
        assert(a / c >= 0) by (nonlinear_arith)
            requires
                0 <= a,
                c > 0,
        ;
    } else {
        assert((-a) / c <= b) by (nonlinear_arith)
            requires
                0 <= -a <= c * b,
                c > 0,
                b > 0,
        ;
        assert((-a) / c >= 0) by (nonlinear_arith)
            requires
                0 <= -a,
                c > 0,
        ;
    }
}

/// Per item, the sales with a known purchase price: the items in the order
/// of their first such sale, each with its sales in order, their holding
/// times added up and the average holding time.
pub fn type_totals(ts: &Vec<CompleteTransactionView>) -> (r: Vec<TypeTotal>)
    requires
        ts@.len() <= i64::MAX,
        forall|i: int|
            0 <= i < ts@.len() && counts_for_profit(#[trigger] ts@[i]) ==> ts@[i].buy_date is Some
                && ts@[i].buy_unit_tax_bits is Some && dates_valid(ts@[i]),
    ensures
        forall|g: int| 0 <= g < r@.len() ==> type_group_ok(#[trigger] r@[g], ts@),
        forall|g1: int, g2: int|
            0 <= g1 < g2 < r@.len() ==> (#[trigger] r@[g1]).item_name@ != (#[trigger] r@[g2]).item_name@
                && r@[g1].members@[0] < r@[g2].members@[0],
        forall|i: int|
            0 <= i < ts@.len() && counts_for_profit(ts@[i]) ==> #[trigger] in_type_group(r@, i),
{
    let n = ts.len();
    let mut totals: Vec<TypeTotal> = Vec::new();
    let mut i: usize = 0;
    while i < n
        invariant
            n == ts@.len(),
            i <= n,
            n <= i64::MAX,
            forall|j: int|
                0 <= j < ts@.len() && counts_for_profit(#[trigger] ts@[j]) ==> ts@[j].buy_date is Some
                    && ts@[j].buy_unit_tax_bits is Some && dates_valid(ts@[j]),
            forall|g: int| 0 <= g < totals@.len() ==> type_group_sums(#[trigger] totals@[g], ts@, i as int),
            forall|g1: int, g2: int|
                0 <= g1 < g2 < totals@.len() ==> (#[trigger] totals@[g1]).item_name@ != (
                #[trigger] totals@[g2]).item_name@ && totals@[g1].members@[0] < totals@[g2].members@[0],
            forall|j: int|
                0 <= j < i && counts_for_profit(ts@[j]) ==> #[trigger] in_type_group(totals@, j),
        decreases n - i,
    {
        let t = &ts[i];
        if !t.is_buy && t.buy_unit_price_bits.is_some() {
            assert(counts_for_profit(ts@[i as int]));
            let span: i64 = match t.buy_date {
                Some(d) => seconds_between(&t.sell_date, &d),
                None => -1,
            };
            proof {
                assert(span == holding_time(ts@[i as int]));
            }
            let mut g: usize = 0;
            while g < totals.len() && !(totals[g].item_name == t.item_name)
                invariant
                    g <= totals@.len(),
                    forall|h: int| 0 <= h < g ==> (#[trigger] totals@[h]).item_name@ != t.item_name@,
                decreases totals@.len() - g,
            {
                g = g + 1;
            }
            let ghost before = totals@;
            if g < totals.len() {
                let mut grp = totals.remove(g);
                let ghost old_members = grp.members@;
                proof {
                    assert(type_group_sums(before[g as int], ts@, i as int));
                    assert forall|x: int| 0 <= x < old_members.len() implies valid_member(
                        ts@,
                        #[trigger] old_members[x],
                    ) by {
                        assert(old_members[x] < i);
                        assert(counts_for_profit(ts@[old_members[x] as int]));
                    }
                    lemma_span_total_bound(ts@, old_members);
                    assert forall|x: int| 0 <= x < old_members.len() implies #[trigger] old_members[x] < i by {
                    }
                    lemma_increasing_len(old_members, i as int);
                    assert(old_members.len() <= i);
                    assert(old_members.len() * span_bound() <= i * span_bound()) by (nonlinear_arith)
                        requires
                            old_members.len() <= i,
                    ;
                    assert(i * span_bound() <= 18_446_744_073_709_551_615 * span_bound()) by (nonlinear_arith)
                        requires
                            i <= 18_446_744_073_709_551_615,
                    ;
                }
                grp.members.push(i);
                grp.seconds = grp.seconds + span as i128;
                grp.trades = grp.trades + 1;
                totals.insert(g, grp);
                proof {
                    assert(totals@ =~= before.update(g as int, grp));
                    assert(grp.members@.drop_last() =~= old_members);
                    assert(type_group_sums(grp, ts@, i + 1)) by {
                        assert forall|k: int| 0 <= k < grp.members@.len() implies #[trigger] grp.members@[k]
                            < i + 1 && counts_for_profit(ts@[grp.members@[k] as int]) && ts@[grp.members@[k] as int].item_name@
                            == grp.item_name@ by {
                            if k < old_members.len() {
                                assert(grp.members@[k] == old_members[k]);
                            }
                        }
                        assert forall|k1: int, k2: int|
                            0 <= k1 < k2 < grp.members@.len() implies grp.members@[k1] < grp.members@[k2] by {
                            if k2 < old_members.len() {
                                assert(grp.members@[k2] == old_members[k2]);
                            }
                            assert(grp.members@[k1] == old_members[k1]);
                        }
                    }
                    assert forall|h: int| 0 <= h < totals@.len() implies type_group_sums(
                        #[trigger] totals@[h],
                        ts@,
                        i + 1,
                    ) by {
                        if h != g {
                            assert(type_group_sums(before[h], ts@, i as int));
                        }
                    }
                    assert forall|g1: int, g2: int|
                        0 <= g1 < g2 < totals@.len() implies (#[trigger] totals@[g1]).item_name@ != (
                        #[trigger] totals@[g2]).item_name@ && totals@[g1].members@[0] < totals@[g2].members@[0] by {
                        assert(before[g1].item_name@ != before[g2].item_name@ && before[g1].members@[0]
                            < before[g2].members@[0]);
                        if g1 == g {
                            assert(totals@[g1].members@[0] == old_members[0]);
                        }
                        if g2 == g {
                            assert(totals@[g2].members@[0] == old_members[0]);
                        }
                    }
                    assert forall|j: int|
                        0 <= j < i + 1 && counts_for_profit(ts@[j]) implies #[trigger] in_type_group(
                        totals@,
                        j,
                    ) by {
                        if j == i {
                            assert(totals@[g as int].members@[old_members.len() as int] == i);
                        } else {
                            assert(in_type_group(before, j));
                            let (h, k) = choose|h: int, k: int|
                                0 <= h < before.len() && 0 <= k < before[h].members@.len()
                                    && #[trigger] before[h].members@[k] == j;
                            if h == g {
                                assert(totals@[h].members@[k] == j);
                            } else {
                                assert(totals@[h] == before[h]);
                                assert(totals@[h].members@[k] == j);
                            }
                        }
                    }
                }
            } else {
                let grp = TypeTotal {
                    item_name: t.item_name.clone(),
                    members: vec![i],
                    seconds: span as i128,
                    trades: 1,
                    avg_time: 0,
                };
                totals.push(grp);
                proof {
                    assert(totals@ =~= before.push(grp));
                    assert(grp.members@ =~= seq![i]);
                    assert(grp.members@.drop_last() =~= Seq::<usize>::empty());
                    assert(grp.members@.last() == i);
                    assert(span_total(ts@, grp.members@) == span_total(ts@, Seq::<usize>::empty()) + holding_time(ts@[i as int]));
                    assert(type_group_sums(grp, ts@, i + 1));
                    assert forall|h: int| 0 <= h < totals@.len() implies type_group_sums(
                        #[trigger] totals@[h],
                        ts@,
                        i + 1,
                    ) by {
                        if h < before.len() {
                            assert(type_group_sums(before[h], ts@, i as int));
                        }
                    }
                    assert forall|g1: int, g2: int|
                        0 <= g1 < g2 < totals@.len() implies (#[trigger] totals@[g1]).item_name@ != (
                        #[trigger] totals@[g2]).item_name@ && totals@[g1].members@[0] < totals@[g2].members@[0] by {
                        if g2 < before.len() {
                            assert(before[g1].item_name@ != before[g2].item_name@);
                        } else {
                            assert(type_group_sums(before[g1], ts@, i as int));
                            assert(before[g1].members@[0] < i);
                        }
                    }
                    assert forall|j: int|
                        0 <= j < i + 1 && counts_for_profit(ts@[j]) implies #[trigger] in_type_group(
                        totals@,
                        j,
                    ) by {
                        if j == i {
                            assert(totals@[before.len() as int].members@[0] == i);
                        } else {
                            assert(in_type_group(before, j));
                            let (h, k) = choose|h: int, k: int|
                                0 <= h < before.len() && 0 <= k < before[h].members@.len()
                                    && #[trigger] before[h].members@[k] == j;
                            assert(totals@[h] == before[h]);
                            assert(totals@[h].members@[k] == j);
                        }
                    }
                }
            }
        } else {
            proof {
                assert forall|g: int| 0 <= g < totals@.len() implies type_group_sums(
                    #[trigger] totals@[g],
                    ts@,
                    i + 1,
                ) by {
                    assert(type_group_sums(totals@[g], ts@, i as int));
                }
            }
        }
        i = i + 1;
    }
    let mut r: Vec<TypeTotal> = Vec::new();
    let ghost all = totals@;
    let m = totals.len();
    let mut k: usize = 0;
    while k < m
        invariant
            m == all.len(),
            k <= m,
            totals@ == all.skip(k as int),
            r@.len() == k,
            forall|g: int|
                0 <= g < k ==> (#[trigger] r@[g]).item_name@ == all[g].item_name@ && r@[g].members@
                    == all[g].members@ && r@[g].seconds == all[g].seconds && r@[g].trades == all[g].trades
                    && r@[g].avg_time == truncated_quotient(all[g].seconds as int, all[g].trades as int),
            forall|g: int| 0 <= g < m ==> type_group_sums(#[trigger] all[g], ts@, ts@.len() as int),
            ts@.len() <= usize::MAX,
            forall|j: int|
                0 <= j < ts@.len() && counts_for_profit(#[trigger] ts@[j]) ==> ts@[j].buy_date is Some
                    && ts@[j].buy_unit_tax_bits is Some && dates_valid(ts@[j]),
        decreases m - k,
    {
        let mut grp = totals.remove(0);
        proof {
            assert(grp == all[k as int]);
            assert(totals@ =~= all.skip(k + 1));
            assert(type_group_sums(all[k as int], ts@, ts@.len() as int));
            assert forall|x: int| 0 <= x < grp.members@.len() implies valid_member(
                ts@,
                #[trigger] grp.members@[x],
            ) by {
                assert(grp.members@[x] < ts@.len());
                assert(counts_for_profit(ts@[grp.members@[x] as int]));
            }
            lemma_span_total_bound(ts@, grp.members@);
            assert forall|x: int| 0 <= x < grp.members@.len() implies #[trigger] grp.members@[x] < ts@.len() by {
            }
            lemma_increasing_len(grp.members@, ts@.len() as int);
            assert(grp.members@.len() * span_bound() <= 18_446_744_073_709_551_615 * span_bound()) by (nonlinear_arith)
                requires
                    grp.members@.len() <= 18_446_744_073_709_551_615,
            ;
            lemma_quotient_bound(grp.seconds as int, grp.trades as int);
        }
        let magnitude: u128 = if grp.seconds >= 0 {
            grp.seconds as u128
        } else {
            (-grp.seconds) as u128
        };
        let quotient = (magnitude / (grp.trades as u128)) as i128;
        grp.avg_time = if grp.seconds >= 0 {
            quotient as i64
        } else {
            (-quotient) as i64
        };
        r.push(grp);
        k = k + 1;
    }
    proof {
        assert forall|g: int| 0 <= g < r@.len() implies type_group_ok(#[trigger] r@[g], ts@) by {
            assert(type_group_sums(all[g], ts@, ts@.len() as int));
            assert forall|x: int| 0 <= x < r@[g].members@.len() implies #[trigger] r@[g].members@[x]
                < ts@.len() && counts_for_profit(ts@[r@[g].members@[x] as int]) && ts@[r@[g].members@[x] as int].item_name@
                == r@[g].item_name@ by {
                assert(r@[g].members@[x] == all[g].members@[x]);
            }
        }
        assert forall|i: int| 0 <= i < ts@.len() && counts_for_profit(ts@[i]) implies #[trigger] in_type_group(r@, i) by {
            assert(in_type_group(all, i));
            let (h, x) = choose|h: int, x: int|
                0 <= h < all.len() && 0 <= x < all[h].members@.len() && #[trigger] all[h].members@[x] == i;
            assert(r@[h].members@[x] == i);
        }
    }
    r
}

} // verus!
