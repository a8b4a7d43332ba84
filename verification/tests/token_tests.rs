use ctf_core::token::{issue, verify, SessionClaims, Token, TokenError};

const SECRET: u64 = 0x5ec0_5ec0_5ec0_5ec0;

fn claims() -> SessionClaims {
    SessionClaims { identity_id: 7, issued_at: 100, expires_at: 200 }
}

#[test]
fn round_trip_within_window() {
    let tok = issue(SECRET, claims());
    assert_eq!(verify(SECRET, &tok, 100), Ok(claims()));
    assert_eq!(verify(SECRET, &tok, 150), Ok(claims()));
    assert_eq!(verify(SECRET, &tok, 199), Ok(claims()));
}

#[test]
fn expired_after_window() {
    let tok = issue(SECRET, claims());
    assert_eq!(verify(SECRET, &tok, 200), Err(TokenError::Expired));
    assert_eq!(verify(SECRET, &tok, 1_000_000), Err(TokenError::Expired));
    // a token presented before its issue instant is outside its window too
    assert_eq!(verify(SECRET, &tok, 99), Err(TokenError::Expired));
}

#[test]
fn tampered_tag_is_invalid() {
    let tok = issue(SECRET, claims());
    let forged = Token { claims: tok.claims, tag: tok.tag ^ 1 };
    assert_eq!(verify(SECRET, &forged, 150), Err(TokenError::Invalid));
}

#[test]
fn tampered_claims_are_invalid() {
    let tok = issue(SECRET, claims());
    let mut lifted = tok.claims;
    lifted.identity_id = 8;
    let forged = Token { claims: lifted, tag: tok.tag };
    assert_eq!(verify(SECRET, &forged, 150), Err(TokenError::Invalid));
    let mut extended = tok.claims;
    extended.expires_at = u64::MAX;
    let forged2 = Token { claims: extended, tag: tok.tag };
    assert_eq!(verify(SECRET, &forged2, 150), Err(TokenError::Invalid));
}

#[test]
fn wrong_secret_is_invalid() {
    let tok = issue(SECRET, claims());
    assert_eq!(verify(SECRET + 1, &tok, 150), Err(TokenError::Invalid));
}
