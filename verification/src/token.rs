//! Session tokens: a claims payload together with a keyed tag.
//!
//! `issue` signs a claims payload under the process-wide signing secret;
//! `verify` checks the tag and the validity window without touching the
//! backing store.

use vstd::prelude::*;

verus! {

/// Decoded, verified identity assertion derived from a bearer token.
#[derive(Clone, Copy, Debug, PartialEq, Eq, Structural)]
pub struct SessionClaims {
    pub identity_id: u64,
    pub issued_at: u64,
    pub expires_at: u64,
}

/// A signed token: the claims in the clear plus a tag keyed on the secret.
#[derive(Clone, Copy, Debug, PartialEq, Eq, Structural)]
pub struct Token {
    pub claims: SessionClaims,
    pub tag: u64,
}

#[derive(Clone, Copy, Debug, PartialEq, Eq, Structural)]
pub enum TokenError {
    Invalid,
    Expired,
}

/// Multiplier of the keyed mixing step of the tag.
pub const TAG_MIX_MUL: u64 = 0x100000001b3;

/// One keyed mixing step.
pub open spec fn tag_mix(h: u64, x: u64) -> u64 {
    vstd::wrapping::u64_specs::wrapping_mul(h ^ x, TAG_MIX_MUL)
}

/// The tag a token must carry to be accepted under `secret`.
pub open spec fn tag_spec(secret: u64, c: SessionClaims) -> u64 {
    tag_mix(tag_mix(tag_mix(secret, c.identity_id), c.issued_at), c.expires_at)
}

/// `claims` admit requests at instant `now`.
pub open spec fn claims_valid_at(c: SessionClaims, now: u64) -> bool {
    c.issued_at <= now && now < c.expires_at
}

/// The token `issue` produces for `claims` under `secret`.
pub open spec fn issue_spec(secret: u64, claims: SessionClaims) -> Token {
    Token { claims, tag: tag_spec(secret, claims) }
}

/// What `verify` returns: the claims when the tag matches and the validity
/// window contains `now`; `Invalid` on any tag mismatch; `Expired` on a
/// well-signed token outside its window.
pub open spec fn verify_spec(secret: u64, t: Token, now: u64) -> Result<SessionClaims, TokenError> {
    if t.tag != tag_spec(secret, t.claims) {
        Err(TokenError::Invalid)
    } else if !claims_valid_at(t.claims, now) {
        Err(TokenError::Expired)
    } else {
        Ok(t.claims)
    }
}

fn compute_tag(secret: u64, c: &SessionClaims) -> (t: u64)
    ensures
        t == tag_spec(secret, *c),
{
    let a: u64 = (secret ^ c.identity_id).wrapping_mul(TAG_MIX_MUL);
    let b: u64 = (a ^ c.issued_at).wrapping_mul(TAG_MIX_MUL);
    (b ^ c.expires_at).wrapping_mul(TAG_MIX_MUL)
}

/// Sign `claims` under `secret`.
pub fn issue(secret: u64, claims: SessionClaims) -> (t: Token)
    ensures
        t == issue_spec(secret, claims),
{
    let tag = compute_tag(secret, &claims);
    Token { claims, tag }
}

/// Validate signature and expiry; reads no store state.
pub fn verify(secret: u64, t: &Token, now: u64) -> (r: Result<SessionClaims, TokenError>)
    ensures
        r == verify_spec(secret, *t, now),
{
    let expected = compute_tag(secret, &t.claims);
    if t.tag != expected {
        Err(TokenError::Invalid)
    } else if !(t.claims.issued_at <= now && now < t.claims.expires_at) {
        Err(TokenError::Expired)
    } else {
        Ok(t.claims)
    }
}

/// Issued tokens round-trip: a token issued for `claims` verifies back to
/// exactly `claims` at any instant inside the validity window, and reports
/// `Expired` at any instant outside it.
pub proof fn lemma_token_round_trip(secret: u64, claims: SessionClaims, now: u64)
    ensures
        claims_valid_at(claims, now) ==> verify_spec(secret, issue_spec(secret, claims), now)
            == Ok::<SessionClaims, TokenError>(claims),
        !claims_valid_at(claims, now) ==> verify_spec(secret, issue_spec(secret, claims), now)
            == Err::<SessionClaims, TokenError>(TokenError::Expired),
{
}

/// Any token whose tag is not the keyed tag of its own claims is rejected as
/// `Invalid`, whatever instant it is presented at.
pub proof fn lemma_tampered_token_rejected(secret: u64, t: Token, now: u64)
    requires
        t.tag != tag_spec(secret, t.claims),
    ensures
        verify_spec(secret, t, now) == Err::<SessionClaims, TokenError>(TokenError::Invalid),
{
}

} // verus!
