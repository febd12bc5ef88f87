//! Signing in with the game's single sign-on: when an access token must be
//! renewed, how long a renewed token lasts, the header that carries it, and
//! which character a token names.

use vstd::prelude::*;

use crate::decimal::parse_i32_spec;
use crate::decimal::parse_i32;
use crate::moment::{is_after, later, shift_seconds, Moment, MAX_TIMESTAMP, MIN_TIMESTAMP};
use crate::text::{join_text, split_nth, split_on};

verus! {

/// Whether an access token that expires at `expiry` can still be used at `now`.
pub fn token_is_fresh(expiry: &Moment, now: &Moment) -> (r: bool)
    ensures
        r == later(*expiry, *now),
{
    is_after(expiry, now)
}

/// When a token issued at `now` and valid for `expires_in` seconds is taken to
/// expire: a minute early, to leave room for the request that uses it.
pub fn token_expiry(now: &Moment, expires_in: u32) -> (r: Moment)
    requires
        now.wf(),
        MIN_TIMESTAMP <= now.secs + expires_in - 60 <= MAX_TIMESTAMP,
    ensures
        r.wf(),
        r.secs == now.secs + expires_in - 60,
        r.nanos == now.nanos,
{
    shift_seconds(now, expires_in as i64 - 60)
}

/// The `Authorization` header value that carries an access token.
pub fn bearer_header(access_token: &str) -> (r: String)
    ensures
        r@ == seq!['B', 'e', 'a', 'r', 'e', 'r', ' '] + access_token@,
{
    let prefix = "Bearer ";
    proof {
        reveal_strlit("Bearer ");
    }
    join_text(prefix, access_token)
}

/// Why signing in with a token did not name a character.
#[derive(Clone, Copy, Debug, PartialEq, Eq, Structural)]
pub enum LoginError {
    /// The token could not be read at all.
    UnreadableToken,
    /// The token names no subject.
    MissingSubject,
    /// The subject has no third `:`-separated part to hold the character id.
    MissingCharacterId,
    /// The third part of the subject is not a whole number that fits an `i32`.
    InvalidCharacterId,
    /// The token holds no `name` claim that is a string.
    MissingName,
}

/// The character id in a token's subject, which reads `CHARACTER:EVE:<id>`:
/// the third `:`-separated part, read as a whole number.
pub open spec fn subject_character_id(subject: Seq<char>) -> Result<i32, LoginError> {
    let parts = split_on(subject, ':');
    if parts.len() <= 2 {
        Err(LoginError::MissingCharacterId)
    } else {
        match parse_i32_spec(parts[2]) {
            Some(id) => Ok(id),
            None => Err(LoginError::InvalidCharacterId),
        }
    }
}

/// Reads the character id from a token's subject.
pub fn character_id_from_subject(subject: &str) -> (r: Result<i32, LoginError>)
    ensures
        r == subject_character_id(subject@),
{
    match split_nth(subject, ':', 2) {
        None => Err(LoginError::MissingCharacterId),
        Some(part) => match parse_i32(part.as_str()) {
            Some(id) => Ok(id),
            None => Err(LoginError::InvalidCharacterId),
        },
    }
}

/// What a token says about who signed in: whether it could be read, its
/// subject, and its `name` claim when that is a string.
pub struct TokenIdentity {
    pub readable: bool,
    pub subject: Option<String>,
    pub name: Option<String>,
}

pub open spec fn text_view(s: Option<String>) -> Option<Seq<char>> {
    match s {
        Some(t) => Some(t@),
        None => None,
    }
}

impl View for TokenIdentity {
    type V = (bool, Option<Seq<char>>, Option<Seq<char>>);

    open spec fn view(&self) -> (bool, Option<Seq<char>>, Option<Seq<char>>) {
        (self.readable, text_view(self.subject), text_view(self.name))
    }
}

/// What `jwt::Token::parse_unverified` reads from a token's header and claims
/// (base64 and JSON decoding, which this crate leaves to `jwt`).
pub uninterp spec fn token_identity(token: Seq<char>) -> (bool, Option<Seq<char>>, Option<Seq<char>>);

/// `jwt::Token::<Header, Claims, _>::parse_unverified`, keeping the subject
/// and the `name` claim when it is a string. The decoding depends on the
/// token's text alone; nothing more of it is stated.
#[verifier::external_body]
fn read_token_identity(token: &str) -> (r: TokenIdentity)
    ensures
        r@ == token_identity(token@),
{
    match jwt::Token::<jwt::Header, jwt::Claims, _>::parse_unverified(token) {
        Ok(t) => TokenIdentity {
            readable: true,
            subject: t.claims().registered.subject.clone(),
            name: t.claims().private.get("name").and_then(serde_json::Value::as_str).map(
                String::from,
            ),
        },
        Err(_) => TokenIdentity { readable: false, subject: None, name: None },
    }
}

/// The character a token's identity names: its id from the subject, then
/// its name.
pub open spec fn identity_character(
    identity: (bool, Option<Seq<char>>, Option<Seq<char>>),
) -> Result<(i32, Seq<char>), LoginError> {
    if !identity.0 {
        Err(LoginError::UnreadableToken)
    } else {
        match identity.1 {
            None => Err(LoginError::MissingSubject),
            Some(subject) => match subject_character_id(subject) {
                Err(e) => Err(e),
                Ok(id) => match identity.2 {
                    None => Err(LoginError::MissingName),
                    Some(name) => Ok((id, name)),
                },
            },
        }
    }
}

pub open spec fn login_view(r: Result<(i32, String), LoginError>) -> Result<(i32, Seq<char>), LoginError> {
    match r {
        Ok((id, name)) => Ok((id, name@)),
        Err(e) => Err(e),
    }
}

/// The character that a token's identity names.
pub fn character_of_identity(identity: TokenIdentity) -> (r: Result<(i32, String), LoginError>)
    ensures
        login_view(r) == identity_character(identity@),
{
    if !identity.readable {
        return Err(LoginError::UnreadableToken);
    }
    match identity.subject {
        None => Err(LoginError::MissingSubject),
        Some(subject) => match character_id_from_subject(subject.as_str()) {
            Err(e) => Err(e),
            Ok(id) => match identity.name {
                None => Err(LoginError::MissingName),
                Some(name) => Ok((id, name)),
            },
        },
    }
}

/// The character an access token was issued for.
pub fn login_identity(access_token: &str) -> (r: Result<(i32, String), LoginError>)
    ensures
        login_view(r) == identity_character(token_identity(access_token@)),
{
    character_of_identity(read_token_identity(access_token))
}

} // verus!
