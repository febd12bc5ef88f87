//! Characters that signed in: how a new one starts out, the session cookie
//! that remembers which one is signed in, and the page that sets a
//! character's tax rates.

use vstd::prelude::*;

use crate::decimal::{decimal, lemma_parse_decimal, parse_i32, parse_i32_spec, to_decimal};
use crate::moment::{shift_seconds, Moment, MAX_TIMESTAMP, MIN_TIMESTAMP};
use crate::text::{replace_all, replace_char};

verus! {

/// The sales tax a new character starts with: 0.02 as an `f32` bit pattern.
pub const DEFAULT_SELL_TAX_BITS: u32 = 0x3ca3_d70a;

/// The broker fee a new character starts with: 0.03 as an `f32` bit pattern.
pub const DEFAULT_BROKER_FEE_BITS: u32 = 0x3cf5_c28f;

/// How long before its creation a new character counts as last updated: one
/// hour and one minute, so that its wallet is fetched at once.
pub const FIRST_UPDATE_OFFSET: i64 = 3_660;

/// A character that signed in, with its tokens and its tax rates (as `f32`
/// bit patterns: fractions, 0.02 for two percent).
#[derive(Clone, Debug)]
pub struct EveCharacter {
    pub id: i32,
    pub name: String,
    pub access_token: String,
    pub refresh_token: String,
    pub expiry_date: Moment,
    pub last_update: Moment,
    pub sell_tax_bits: u32,
    pub broker_fee_bits: u32,
}

impl EveCharacter {
    /// A character signing in for the first time at `now`, with a token valid
    /// for `expiry_date` seconds. Its token counts as expiring a minute early,
    /// and it counts as last updated an hour and a minute ago.
    pub fn new(
        id: i32,
        name: String,
        access_token: String,
        refresh_token: String,
        expiry_date: u32,
        now: Moment,
    ) -> (r: EveCharacter)
        requires
            now.wf(),
            now.secs + expiry_date - 60 <= MAX_TIMESTAMP,
            MIN_TIMESTAMP <= now.secs - FIRST_UPDATE_OFFSET,
        ensures
            r.id == id,
            r.name@ == name@,
            r.access_token@ == access_token@,
            r.refresh_token@ == refresh_token@,
            r.expiry_date.secs == now.secs + expiry_date - 60,
            r.expiry_date.nanos == now.nanos,
            r.last_update.secs == now.secs - FIRST_UPDATE_OFFSET,
            r.last_update.nanos == now.nanos,
            r.sell_tax_bits == DEFAULT_SELL_TAX_BITS,
            r.broker_fee_bits == DEFAULT_BROKER_FEE_BITS,
    {
        let expiry = shift_seconds(&now, expiry_date as i64 - 60);
        let last_update = shift_seconds(&now, -FIRST_UPDATE_OFFSET);
        EveCharacter {
            id,
            name,
            access_token,
            refresh_token,
            expiry_date: expiry,
            last_update,
            sell_tax_bits: DEFAULT_SELL_TAX_BITS,
            broker_fee_bits: DEFAULT_BROKER_FEE_BITS,
        }
    }
}

/// The session cookie's value for a signed-in character: its id in decimal.
pub fn session_cookie_value(character_id: i32) -> (r: String)
    ensures
        r@ == decimal(character_id as int),
{
    to_decimal(character_id as i64)
}

/// The character a session cookie names, if its value is a character id.
pub fn session_character_id(cookie_value: &str) -> (r: Option<i32>)
    ensures
        r == parse_i32_spec(cookie_value@),
{
    parse_i32(cookie_value)
}

/// The cookie set at sign-in names the character that signed in.
pub proof fn lemma_session_cookie_names_character(character_id: i32)
    ensures
        parse_i32_spec(decimal(character_id as int)) == Some(character_id),
{
    lemma_parse_decimal(character_id);
}

/// The page shown after sign-in, which forwards to `uri_link`.
pub struct CharacterRedirectViewModel {
    pub uri_link: String,
}

impl CharacterRedirectViewModel {
    /// A character seen before goes to the dashboard; a new one first sets
    /// its tax rates.
    pub fn after_login(existing: bool) -> (r: CharacterRedirectViewModel)
        ensures
            existing ==> r.uri_link@ == seq!['/'],
            !existing ==> r.uri_link@ == seq![
                '/',
                'c',
                'h',
                'a',
                'r',
                'a',
                'c',
                't',
                'e',
                'r',
                's',
                '/',
                'c',
                'o',
                'n',
                'f',
                'i',
                'g',
            ],
    {
        let link = if existing {
            proof {
                reveal_strlit("/");
            }
            String::from_str("/")
        } else {
            proof {
                reveal_strlit("/characters/config");
            }
            String::from_str("/characters/config")
        };
        CharacterRedirectViewModel { uri_link: link }
    }
}

/// The tax settings page: an optional message, and the two rates as the
/// page shows them, in percent.
pub struct CharacterConfigViewModel {
    pub flash: Option<String>,
    pub sell_tax: String,
    pub broker_fee: String,
}

/// A rate as typed into the settings form, with a decimal comma read as a
/// decimal point.
pub fn normalize_rate_input(input: &str) -> (r: String)
    ensures
        r@ == replace_char(input@, ',', '.'),
{
    replace_all(input, ',', '.')
}

/// What the settings form asks for, once both rates are read as numbers
/// (each an `f32` bit pattern, or `None` when it is not a number).
#[derive(Clone, Copy, Debug, PartialEq, Eq, Structural)]
pub enum ConfigChange {
    /// Store both rates.
    Store { sell_tax_bits: u32, broker_fee_bits: u32 },
    /// Show the form again: at least one rate is not a number.
    Reject,
}

/// Both rates must be numbers for the settings to be stored.
pub fn decide_config_change(sell_tax_bits: Option<u32>, broker_fee_bits: Option<u32>) -> (r: ConfigChange)
    ensures
        match (sell_tax_bits, broker_fee_bits) {
            (Some(s), Some(b)) => r == ConfigChange::Store { sell_tax_bits: s, broker_fee_bits: b },
            _ => r == ConfigChange::Reject,
        },
{
    match (sell_tax_bits, broker_fee_bits) {
        (Some(s), Some(b)) => ConfigChange::Store { sell_tax_bits: s, broker_fee_bits: b },
        _ => ConfigChange::Reject,
    }
}

} // verus!
