//! Credential service: registration and login. Only a digest of the
//! password is stored, never the plaintext; login fails uniformly whether
//! the email is unknown or the digest differs, and compares digests in
//! constant time.
//!
//! The digest here is a fixed stand-in: a vetted one-way credential hash is
//! an external collaborator of the core, and this word-sized mixing function
//! makes no one-wayness claim. What the service guarantees — plaintext never
//! stored, uniform failure, constant-time comparison — does not depend on
//! which digest stands here.

use vstd::prelude::*;

use crate::bytes::ct_eq_u64;
use crate::store::{
    email_identity_id, email_identity_idx, email_taken, lemma_email_unique, name_taken,
    same_challenges, same_invites, same_submissions, same_teams, Identity, Store,
};
use crate::token::{issue, issue_spec, SessionClaims, Token};

verus! {

#[derive(Clone, Copy, Debug, PartialEq, Eq, Structural)]
pub enum UserError {
    AlreadyRegistered,
    BadUsernameOrPassword,
    ServerError,
}

/// Initial state of the credential digest.
pub const HASH_SEED: u64 = 0xcbf29ce484222325;

/// Multiplier of the credential digest's mixing step.
pub const HASH_MUL: u64 = 0x100000001b3;

/// One mixing step of the credential digest.
pub open spec fn hash_step(h: u64, b: u8) -> u64 {
    vstd::wrapping::u64_specs::wrapping_mul(h ^ (b as u64), HASH_MUL)
}

/// The digest stored for a password.
pub open spec fn credential_hash_spec(s: Seq<u8>) -> u64
    decreases s.len(),
{
    if s.len() == 0 {
        HASH_SEED
    } else {
        hash_step(credential_hash_spec(s.drop_last()), s.last())
    }
}

/// The credential digest stored in place of the plaintext password (a
/// stand-in for the deployment's vetted credential hash; see the module
/// doc).
pub fn credential_hash(password: &Vec<u8>) -> (h: u64)
    ensures
        h == credential_hash_spec(password@),
{
    let mut h: u64 = HASH_SEED;
    let mut i: usize = 0;
    while i < password.len()
        invariant
            i <= password@.len(),
            h == credential_hash_spec(password@.take(i as int)),
        decreases password@.len() - i,
    {
        proof {
            assert(password@.take(i as int + 1).drop_last() =~= password@.take(i as int));
            assert(password@.take(i as int + 1).last() == password@[i as int]);
        }
        h = (h ^ (password[i] as u64)).wrapping_mul(HASH_MUL);
        i = i + 1;
    }
    proof {
        assert(password@.take(password@.len() as int) =~= password@);
    }
    h
}

/// The email is on file and the stored digest is the digest of `password`.
pub open spec fn credentials_match(
    identities: Seq<Identity>,
    email: Seq<u8>,
    password: Seq<u8>,
) -> bool {
    email_taken(identities, email) && identities[email_identity_idx(identities, email)].credential_hash
        == credential_hash_spec(password)
}

impl Store {
    /// Register a new identity and issue it a session token. Rejects a
    /// username or email already present; stores only the password digest.
    pub fn register(
        &mut self,
        username: Vec<u8>,
        email: Vec<u8>,
        password: &Vec<u8>,
        secret: u64,
        now: u64,
        ttl: u64,
    ) -> (r: Result<(u64, Token), UserError>)
        requires
            old(self).wf(),
        ensures
            final(self).wf(),
            match r {
                Ok((id, tok)) => {
                    &&& !email_taken(old(self).identities@, email@)
                    &&& !name_taken(old(self).identities@, username@)
                    &&& old(self).next_identity_id < u64::MAX
                    &&& now + ttl <= u64::MAX
                    &&& id == old(self).next_identity_id
                    &&& final(self).identities@ == old(self).identities@.push(
                        final(self).identities@.last(),
                    )
                    &&& final(self).identities@.last().id == id
                    &&& final(self).identities@.last().name@ == username@
                    &&& final(self).identities@.last().email@ == email@
                    &&& final(self).identities@.last().credential_hash == credential_hash_spec(
                        password@,
                    )
                    &&& final(self).next_identity_id == old(self).next_identity_id + 1
                    &&& tok == issue_spec(
                        secret,
                        (SessionClaims {
                            identity_id: id,
                            issued_at: now,
                            expires_at: (now + ttl) as u64,
                        }),
                    )
                    &&& same_teams(*final(self), *old(self))
                    &&& same_invites(*final(self), *old(self))
                    &&& same_challenges(*final(self), *old(self))
                    &&& same_submissions(*final(self), *old(self))
                },
                Err(e) => {
                    &&& *final(self) == *old(self)
                    &&& (e == UserError::AlreadyRegistered <==> email_taken(
                        old(self).identities@,
                        email@,
                    ) || name_taken(old(self).identities@, username@))
                    &&& (e == UserError::AlreadyRegistered || e == UserError::ServerError)
                },
            },
            r is Ok <==> !email_taken(old(self).identities@, email@) && !name_taken(
                old(self).identities@,
                username@,
            ) && old(self).next_identity_id < u64::MAX && now + ttl <= u64::MAX,
    {
        if self.find_identity_by_email(&email).is_some() {
            return Err(UserError::AlreadyRegistered);
        }
        if self.display_name_taken(&username) {
            return Err(UserError::AlreadyRegistered);
        }
        if self.next_identity_id == u64::MAX {
            return Err(UserError::ServerError);
        }
        if ttl > u64::MAX - now {
            return Err(UserError::ServerError);
        }
        let id = self.next_identity_id;
        let digest = credential_hash(password);
        self.identities.push(
            Identity { id, name: username, email, credential_hash: digest },
        );
        self.next_identity_id = id + 1;
        let claims = SessionClaims { identity_id: id, issued_at: now, expires_at: now + ttl };
        let tok = issue(secret, claims);
        proof {
            let oldi = old(self).identities@;
            let newi = self.identities@;
            assert forall|i: int, j: int|
                0 <= i < j < newi.len() implies (#[trigger] newi[i]).id != (#[trigger] newi[j]).id
                    && newi[i].email@ != newi[j].email@ && newi[i].name@ != newi[j].name@ by {
                if j < oldi.len() {
                    assert(oldi[i].id != oldi[j].id);
                } else {
                    assert(newi[i] == oldi[i]);
                    assert(oldi[i].id < id);
                    assert(!email_taken(oldi, email@));
                    assert(!name_taken(oldi, username@));
                }
            }
            assert forall|i: int| 0 <= i < newi.len() implies (#[trigger] newi[i]).id
                < self.next_identity_id by {
                if i < oldi.len() {
                    assert(oldi[i].id < old(self).next_identity_id);
                }
            }
            assert(self.wf());
        }
        Ok((id, tok))
    }

    /// Log an identity in by email and password and issue a session token.
    /// Fails with the same error whether the email is unknown or the digest
    /// differs; the password is digested before the lookup and the digest
    /// comparison is branch-free, so the two failure paths stay close in
    /// their work (request-level timing is beyond what is provable here).
    pub fn login(
        &self,
        email: &Vec<u8>,
        password: &Vec<u8>,
        secret: u64,
        now: u64,
        ttl: u64,
    ) -> (r: Result<(u64, Token), UserError>)
        requires
            self.wf(),
        ensures
            match r {
                Ok((id, tok)) => {
                    &&& credentials_match(self.identities@, email@, password@)
                    &&& now + ttl <= u64::MAX
                    &&& id == email_identity_id(self.identities@, email@)
                    &&& tok == issue_spec(
                        secret,
                        (SessionClaims {
                            identity_id: id,
                            issued_at: now,
                            expires_at: (now + ttl) as u64,
                        }),
                    )
                },
                Err(e) => {
                    &&& (e == UserError::BadUsernameOrPassword <==> !credentials_match(
                        self.identities@,
                        email@,
                        password@,
                    ))
                    &&& (e == UserError::BadUsernameOrPassword || e == UserError::ServerError)
                },
            },
            r is Ok <==> credentials_match(self.identities@, email@, password@) && now + ttl
                <= u64::MAX,
    {
        // digest first, so the work done before an unknown email and before
        // a wrong password stays the same
        let digest = credential_hash(password);
        let idx = match self.find_identity_by_email(email) {
            Some(i) => i,
            None => {
                return Err(UserError::BadUsernameOrPassword);
            },
        };
        proof {
            assert(email_taken(self.identities@, email@));
            let ei = email_identity_idx(self.identities@, email@);
            assert(0 <= ei < self.identities@.len() && self.identities@[ei].email@ == email@);
            lemma_email_unique(self.identities@, email@, idx as int, ei);
        }
        if !ct_eq_u64(digest, self.identities[idx].credential_hash) {
            return Err(UserError::BadUsernameOrPassword);
        }
        if ttl > u64::MAX - now {
            return Err(UserError::ServerError);
        }
        let id = self.identities[idx].id;
        let claims = SessionClaims { identity_id: id, issued_at: now, expires_at: now + ttl };
        Ok((id, issue(secret, claims)))
    }
}

} // verus!
