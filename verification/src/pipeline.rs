//! Authorization pipeline: ordered, composable request guards. Each stage
//! either passes the request on, possibly attaching a derived fact to the
//! context, or short-circuits with a rejection; later stages never run after
//! a short-circuit. Guards read the membership state and never mutate it.

use vstd::prelude::*;

use crate::store::{has_team, lemma_member_of_at_most_one_team, member_team_id, member_team_idx, Store, Team};
use crate::token::{verify, verify_spec, SessionClaims, Token};

verus! {

/// Team requirement of a membership guard: pass anyone through, or demand
/// an active membership.
#[derive(Clone, Copy, Debug, PartialEq, Eq, Structural)]
pub enum TeamMode {
    AnyTeam,
    ActiveMember,
}

/// One pipeline stage.
#[derive(Clone, Copy, Debug, PartialEq, Eq, Structural)]
pub enum Guard {
    Authentication,
    TeamMembership(TeamMode),
}

/// The request context a guard chain threads through: the bearer token as
/// presented, and the facts attached by earlier stages.
#[derive(Clone, Copy, Debug, PartialEq, Eq, Structural)]
pub struct RequestCtx {
    pub token: Option<Token>,
    pub claims: Option<SessionClaims>,
    pub team_id: Option<u64>,
}

/// A short-circuit of the pipeline.
#[derive(Clone, Copy, Debug, PartialEq, Eq, Structural)]
pub enum Rejection {
    Unauthorized,
    Forbidden,
}

/// The team of `id`, when it is on one (unique under the store invariant).
pub open spec fn team_of(teams: Seq<Team>, id: u64) -> Option<u64> {
    if has_team(teams, id) {
        Some(member_team_id(teams, id))
    } else {
        None
    }
}

/// What one guard stage decides on a context.
pub open spec fn guard_step(
    teams: Seq<Team>,
    secret: u64,
    now: u64,
    ctx: RequestCtx,
    g: Guard,
) -> Result<RequestCtx, Rejection> {
    match g {
        Guard::Authentication => match ctx.token {
            None => Err(Rejection::Unauthorized),
            Some(t) => match verify_spec(secret, t, now) {
                Ok(claims) => Ok(RequestCtx { claims: Some(claims), ..ctx }),
                Err(_) => Err(Rejection::Unauthorized),
            },
        },
        Guard::TeamMembership(TeamMode::AnyTeam) => match ctx.claims {
            Some(c) => Ok(RequestCtx { team_id: team_of(teams, c.identity_id), ..ctx }),
            None => Ok(ctx),
        },
        Guard::TeamMembership(TeamMode::ActiveMember) => match ctx.claims {
            None => Err(Rejection::Unauthorized),
            Some(c) => match team_of(teams, c.identity_id) {
                Some(tid) => Ok(RequestCtx { team_id: Some(tid), ..ctx }),
                None => Err(Rejection::Forbidden),
            },
        },
    }
}

/// Ordered composition of a guard chain: stages run in declared order and a
/// rejection short-circuits the rest.
pub open spec fn chain_spec(
    teams: Seq<Team>,
    secret: u64,
    now: u64,
    ctx: RequestCtx,
    guards: Seq<Guard>,
) -> Result<RequestCtx, Rejection>
    decreases guards.len(),
{
    if guards.len() == 0 {
        Ok(ctx)
    } else {
        match guard_step(teams, secret, now, ctx, guards[0]) {
            Ok(c2) => chain_spec(teams, secret, now, c2, guards.skip(1)),
            Err(r) => Err(r),
        }
    }
}

/// Run one guard stage against the current membership state.
pub fn run_guard(store: &Store, secret: u64, now: u64, ctx: RequestCtx, g: &Guard) -> (r: Result<
    RequestCtx,
    Rejection,
>)
    requires
        store.wf(),
    ensures
        r == guard_step(store.teams@, secret, now, ctx, *g),
{
    match g {
        Guard::Authentication => match ctx.token {
            None => Err(Rejection::Unauthorized),
            Some(t) => match verify(secret, &t, now) {
                Ok(claims) => Ok(RequestCtx { claims: Some(claims), ..ctx }),
                Err(_) => Err(Rejection::Unauthorized),
            },
        },
        Guard::TeamMembership(TeamMode::AnyTeam) => match ctx.claims {
            Some(c) => {
                let tid = match store.find_team_of_member(c.identity_id) {
                    Some(i) => {
                        proof {
                            let mi = member_team_idx(store.teams@, c.identity_id);
                            assert(0 <= mi < store.teams@.len() && store.teams@[mi].roster@.contains(
                                c.identity_id,
                            ));
                            lemma_member_of_at_most_one_team(
                                store.teams@,
                                c.identity_id,
                                i as int,
                                mi,
                            );
                        }
                        Some(store.teams[i].id)
                    },
                    None => None,
                };
                Ok(RequestCtx { team_id: tid, ..ctx })
            },
            None => Ok(ctx),
        },
        Guard::TeamMembership(TeamMode::ActiveMember) => match ctx.claims {
            None => Err(Rejection::Unauthorized),
            Some(c) => match store.find_team_of_member(c.identity_id) {
                Some(i) => {
                    proof {
                        let mi = member_team_idx(store.teams@, c.identity_id);
                        assert(0 <= mi < store.teams@.len() && store.teams@[mi].roster@.contains(
                            c.identity_id,
                        ));
                        lemma_member_of_at_most_one_team(store.teams@, c.identity_id, i as int, mi);
                    }
                    Ok(RequestCtx { team_id: Some(store.teams[i].id), ..ctx })
                },
                None => Err(Rejection::Forbidden),
            },
        },
    }
}

/// Run a guard chain in declared order, stopping at the first rejection.
pub fn run_chain(
    store: &Store,
    secret: u64,
    now: u64,
    ctx: RequestCtx,
    guards: &Vec<Guard>,
) -> (r: Result<RequestCtx, Rejection>)
    requires
        store.wf(),
    ensures
        r == chain_spec(store.teams@, secret, now, ctx, guards@),
{
    let mut cur = ctx;
    let mut i: usize = 0;
    proof {
        assert(guards@.skip(0) =~= guards@);
    }
    while i < guards.len()
        invariant
            store.wf(),
            i <= guards@.len(),
            chain_spec(store.teams@, secret, now, ctx, guards@) == chain_spec(
                store.teams@,
                secret,
                now,
                cur,
                guards@.skip(i as int),
            ),
        decreases guards@.len() - i,
    {
        proof {
            assert(guards@.skip(i as int)[0] == guards@[i as int]);
            assert(guards@.skip(i as int).skip(1) =~= guards@.skip(i as int + 1));
        }
        match run_guard(store, secret, now, cur, &guards[i]) {
            Ok(c2) => {
                cur = c2;
            },
            Err(rej) => {
                return Err(rej);
            },
        }
        i = i + 1;
    }
    proof {
        assert(guards@.skip(guards@.len() as int) =~= Seq::<Guard>::empty());
    }
    Ok(cur)
}

/// The claims an authentication stage attaches for this token, if it would
/// pass.
pub open spec fn auth_claims(secret: u64, now: u64, token: Option<Token>) -> Option<SessionClaims> {
    match token {
        Some(t) => match verify_spec(secret, t, now) {
            Ok(c) => Some(c),
            Err(_) => None,
        },
        None => None,
    }
}

/// Membership stages never change the claims a chain carries.
proof fn lemma_membership_chain_preserves_claims(
    teams: Seq<Team>,
    secret: u64,
    now: u64,
    c: RequestCtx,
    guards: Seq<Guard>,
    ctx: RequestCtx,
)
    requires
        forall|i: int| 0 <= i < guards.len() ==> (#[trigger] guards[i]) matches Guard::TeamMembership(_),
        chain_spec(teams, secret, now, c, guards) == Ok::<RequestCtx, Rejection>(ctx),
    ensures
        ctx.claims == c.claims,
    decreases guards.len(),
{
    if guards.len() > 0 {
        assert(guards[0] matches Guard::TeamMembership(_));
        match guard_step(teams, secret, now, c, guards[0]) {
            Ok(c2) => {
                assert(c2.claims == c.claims);
                assert forall|i: int| 0 <= i < guards.skip(1).len() implies (#[trigger] guards.skip(
                    1,
                )[i]) matches Guard::TeamMembership(_) by {
                    assert(guards.skip(1)[i] == guards[i + 1]);
                }
                lemma_membership_chain_preserves_claims(teams, secret, now, c2, guards.skip(1), ctx);
            },
            Err(_) => {
                assert(false);
            },
        }
    }
}

/// A chain headed by an authentication stage and continued by membership
/// stages passes exactly the requests bearing a valid token, and attaches
/// that token's claims to the context it hands on.
pub proof fn lemma_chain_attaches_claims(
    teams: Seq<Team>,
    secret: u64,
    now: u64,
    ctx0: RequestCtx,
    guards: Seq<Guard>,
    ctx: RequestCtx,
)
    requires
        chain_spec(teams, secret, now, ctx0, guards) == Ok::<RequestCtx, Rejection>(ctx),
        guards.len() >= 1,
        guards[0] == Guard::Authentication,
        forall|i: int| 1 <= i < guards.len() ==> (#[trigger] guards[i]) matches Guard::TeamMembership(_),
    ensures
        auth_claims(secret, now, ctx0.token) is Some,
        ctx.claims == auth_claims(secret, now, ctx0.token),
{
    match guard_step(teams, secret, now, ctx0, guards[0]) {
        Ok(c1) => {
            assert(c1.claims == auth_claims(secret, now, ctx0.token));
            assert forall|i: int| 0 <= i < guards.skip(1).len() implies (#[trigger] guards.skip(
                1,
            )[i]) matches Guard::TeamMembership(_) by {
                assert(guards.skip(1)[i] == guards[i + 1]);
            }
            lemma_membership_chain_preserves_claims(teams, secret, now, c1, guards.skip(1), ctx);
        },
        Err(_) => {
            assert(false);
        },
    }
}

/// An authentication stage at the head of a chain rejects a request bearing
/// no valid token as Unauthorized, and no later stage runs.
pub proof fn lemma_auth_guard_rejects(
    teams: Seq<Team>,
    secret: u64,
    now: u64,
    ctx: RequestCtx,
    guards: Seq<Guard>,
)
    requires
        guards.len() > 0,
        guards[0] == Guard::Authentication,
        match ctx.token {
            None => true,
            Some(t) => !(verify_spec(secret, t, now) is Ok),
        },
    ensures
        chain_spec(teams, secret, now, ctx, guards) == Err::<RequestCtx, Rejection>(
            Rejection::Unauthorized,
        ),
{
}

} // verus!
