use noice::auth::{bearer_header, character_id_from_subject, login_identity, token_expiry, token_is_fresh, LoginError};
use noice::characters::{
    normalize_rate_input, decide_config_change, session_character_id, session_cookie_value, CharacterRedirectViewModel,
    ConfigChange, EveCharacter, DEFAULT_BROKER_FEE_BITS, DEFAULT_SELL_TAX_BITS,
};
use noice::moment::Moment;

const HEADER: &str = "eyJhbGciOiJSUzI1NiIsInR5cCI6IkpXVCJ9";

fn token(claims: &str) -> String {
    format!("{HEADER}.{claims}.sig")
}

#[test]
fn token_names_its_character() {
    // {"sub":"CHARACTER:EVE:2112","name":"Gale Kishunuba"}
    let t = token("eyJzdWIiOiJDSEFSQUNURVI6RVZFOjIxMTIiLCJuYW1lIjoiR2FsZSBLaXNodW51YmEifQ");
    assert_eq!(login_identity(&t), Ok((2112, String::from("Gale Kishunuba"))));
}

#[test]
fn token_errors() {
    assert_eq!(login_identity("not a token"), Err(LoginError::UnreadableToken));
    // {"name":"Gale Kishunuba"}
    assert_eq!(login_identity(&token("eyJuYW1lIjoiR2FsZSBLaXNodW51YmEifQ")), Err(LoginError::MissingSubject));
    // {"sub":"CHARACTER:EVE:2112"}
    assert_eq!(login_identity(&token("eyJzdWIiOiJDSEFSQUNURVI6RVZFOjIxMTIifQ")), Err(LoginError::MissingName));
    // {"sub":"CHARACTER:EVE:abc","name":"X"}
    assert_eq!(
        login_identity(&token("eyJzdWIiOiJDSEFSQUNURVI6RVZFOmFiYyIsIm5hbWUiOiJYIn0")),
        Err(LoginError::InvalidCharacterId)
    );
    // {"sub":"CHARACTER:EVE:2112","name":7}
    assert_eq!(
        login_identity(&token("eyJzdWIiOiJDSEFSQUNURVI6RVZFOjIxMTIiLCJuYW1lIjo3fQ")),
        Err(LoginError::MissingName)
    );
}

#[test]
fn subject_holds_the_id_in_its_third_part() {
    assert_eq!(character_id_from_subject("CHARACTER:EVE:95465499"), Ok(95465499));
    assert_eq!(character_id_from_subject("CHARACTER:EVE:95465499:x"), Ok(95465499));
    assert_eq!(character_id_from_subject("CHARACTER:EVE"), Err(LoginError::MissingCharacterId));
    assert_eq!(character_id_from_subject("CHARACTER:EVE:"), Err(LoginError::InvalidCharacterId));
    assert_eq!(character_id_from_subject("CHARACTER:EVE:4294967296"), Err(LoginError::InvalidCharacterId));
}

#[test]
fn bearer_header_prefixes_the_token() {
    assert_eq!(bearer_header("abc.def"), "Bearer abc.def");
    assert_eq!(bearer_header(""), "Bearer ");
}

#[test]
fn token_freshness_and_expiry() {
    let now = Moment { secs: 1_000_000, nanos: 500 };
    assert!(token_is_fresh(&Moment { secs: 1_000_001, nanos: 0 }, &now));
    assert!(!token_is_fresh(&now, &now));
    assert!(!token_is_fresh(&Moment { secs: 999_999, nanos: 999 }, &now));
    assert_eq!(token_expiry(&now, 1200), Moment { secs: 1_001_140, nanos: 500 });
    assert_eq!(token_expiry(&now, 0), Moment { secs: 999_940, nanos: 500 });
}

#[test]
fn new_character_starts_with_default_rates() {
    let now = Moment { secs: 1_600_000_000, nanos: 7 };
    let c = EveCharacter::new(5, "Gale".into(), "at".into(), "rt".into(), 1200, now);
    assert_eq!(c.id, 5);
    assert_eq!(c.name, "Gale");
    assert_eq!(c.access_token, "at");
    assert_eq!(c.refresh_token, "rt");
    assert_eq!(c.expiry_date, Moment { secs: 1_600_001_140, nanos: 7 });
    assert_eq!(c.last_update, Moment { secs: 1_599_996_340, nanos: 7 });
    assert_eq!(f32::from_bits(DEFAULT_SELL_TAX_BITS), 0.02);
    assert_eq!(f32::from_bits(DEFAULT_BROKER_FEE_BITS), 0.03);
    assert_eq!(c.sell_tax_bits, DEFAULT_SELL_TAX_BITS);
    assert_eq!(c.broker_fee_bits, DEFAULT_BROKER_FEE_BITS);
}

#[test]
fn session_cookie_names_the_character() {
    for id in [95465499, 1, -3, i32::MAX] {
        let v = session_cookie_value(id);
        assert_eq!(v, id.to_string());
        assert_eq!(session_character_id(&v), Some(id));
    }
    assert_eq!(session_character_id("abc"), None);
    assert_eq!(session_character_id(""), None);
}

#[test]
fn redirect_after_login() {
    assert_eq!(CharacterRedirectViewModel::after_login(true).uri_link, "/");
    assert_eq!(CharacterRedirectViewModel::after_login(false).uri_link, "/characters/config");
}

#[test]
fn rates_accept_a_decimal_comma() {
    assert_eq!(normalize_rate_input("2,5"), "2.5");
    assert_eq!(normalize_rate_input("3"), "3");
    let s = 2.5f32.to_bits();
    let b = 3.0f32.to_bits();
    assert_eq!(decide_config_change(Some(s), Some(b)), ConfigChange::Store { sell_tax_bits: s, broker_fee_bits: b });
    assert_eq!(decide_config_change(None, Some(b)), ConfigChange::Reject);
    assert_eq!(decide_config_change(Some(s), None), ConfigChange::Reject);
}
