//! Fetching a character's wallet from the game's API: when to fetch, how far
//! back to page through the journal, and which transactions are new.

use vstd::prelude::*;

use crate::decimal::{decimal, to_decimal};
use crate::models::EsiWalletTransaction;
use crate::moment::{
    is_after,
    later,
    seconds_between,
    shift_seconds,
    whole_seconds,
    Moment,
    MIN_TIMESTAMP,
};
use crate::text::join_text;

verus! {

/// The least time between two fetches of a character's wallet, in seconds.
pub const UPDATE_INTERVAL: i64 = 3_600;

/// How far back the first fetch of a wallet reaches, in days.
pub const FIRST_FETCH_DAYS: i64 = 30;

/// Whether the wallet last fetched at `last_update` may be fetched again at `now`:
/// when at least an hour (in whole seconds) has passed.
pub fn needs_update(now: &Moment, last_update: &Moment) -> (r: bool)
    requires
        now.wf(),
        last_update.wf(),
    ensures
        r == (whole_seconds(now.instant() - last_update.instant()) >= UPDATE_INTERVAL),
{
    seconds_between(now, last_update) >= UPDATE_INTERVAL
}

/// How far back to fetch: to the latest transaction already stored, or, when
/// none is, thirty days before `now`.
pub fn walkback_cutoff(latest_stored: Option<Moment>, now: &Moment) -> (r: Moment)
    requires
        now.wf(),
        MIN_TIMESTAMP <= now.secs - FIRST_FETCH_DAYS * 86_400,
    ensures
        match latest_stored {
            Some(d) => r == d,
            None => r.secs == now.secs - FIRST_FETCH_DAYS * 86_400 && r.nanos == now.nanos,
        },
{
    match latest_stored {
        Some(d) => d,
        None => shift_seconds(now, -(FIRST_FETCH_DAYS * 86_400)),
    }
}

/// After fetching a page of the journal (newest first), the `from_id` that
/// asks for the next, older page: one below the oldest id fetched, while the
/// oldest transaction fetched is still newer than `cutoff`.
pub fn older_page_cursor(fetched: &Vec<EsiWalletTransaction>, cutoff: &Moment) -> (r: Option<
    String,
>)
    requires
        fetched.len() > 0,
        fetched@.last().transaction_id > i64::MIN,
    ensures
        later(fetched@.last().date, *cutoff) ==> (r matches Some(c) && c@ == decimal(
            fetched@.last().transaction_id - 1,
        )),
        !later(fetched@.last().date, *cutoff) ==> r is None,
{
    let oldest = fetched[fetched.len() - 1];
    if is_after(&oldest.date, cutoff) {
        Some(to_decimal(oldest.transaction_id - 1))
    } else {
        None
    }
}

/// The transactions newer than `cutoff` at the head of a newest-first list:
/// the list up to its first transaction that is not newer.
pub fn new_transactions(fetched: &Vec<EsiWalletTransaction>, cutoff: &Moment) -> (r: Vec<
    EsiWalletTransaction,
>)
    ensures
        r@ == fetched@.take(r@.len() as int),
        forall|i: int| 0 <= i < r@.len() ==> later(#[trigger] fetched@[i].date, *cutoff),
        r@.len() < fetched@.len() ==> !later(fetched@[r@.len() as int].date, *cutoff),
{
    let mut r: Vec<EsiWalletTransaction> = Vec::new();
    let n = fetched.len();
    let mut i: usize = 0;
    while i < n
        invariant
            n == fetched@.len(),
            i <= n,
            r@ == fetched@.take(i as int),
            forall|j: int| 0 <= j < i ==> later(#[trigger] fetched@[j].date, *cutoff),
        decreases n - i,
    {
        let t = fetched[i];
        if !is_after(&t.date, cutoff) {
            return r;
        }
        r.push(t);
        proof {
            assert(fetched@.take(i + 1) =~= fetched@.take(i as int).push(t));
        }
        i = i + 1;
    }
    r
}

/// The API path of a character's wallet balance.
pub fn wallet_path(character_id: i32) -> (r: String)
    ensures
        r@ == "/latest/characters/"@ + decimal(character_id as int) + "/wallet/"@,
{
    let id = to_decimal(character_id as i64);
    let head = join_text("/latest/characters/", id.as_str());
    join_text(head.as_str(), "/wallet/")
}

/// The API path of a character's wallet transactions.
pub fn wallet_transactions_path(character_id: i32) -> (r: String)
    ensures
        r@ == "/latest/characters/"@ + decimal(character_id as int) + "/wallet/transactions/"@,
{
    let id = to_decimal(character_id as i64);
    let head = join_text("/latest/characters/", id.as_str());
    join_text(head.as_str(), "/wallet/transactions/")
}

} // verus!
