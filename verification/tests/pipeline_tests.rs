use ctf_core::pipeline::{run_chain, run_guard, Guard, Rejection, RequestCtx, TeamMode};
use ctf_core::store::Store;
use ctf_core::token::{issue, SessionClaims};

const SECRET: u64 = 0xfeed_beef;
const NOW: u64 = 1000;

fn store_with_team() -> (Store, u64, u64) {
    let mut store = Store::new();
    let (a, _) = store
        .register(
            b"alice".to_vec(),
            b"a@example.com".to_vec(),
            &b"pw".to_vec(),
            SECRET,
            NOW,
            3600,
        )
        .unwrap();
    let tid = store.create_team(a, b"Red".to_vec()).unwrap();
    (store, a, tid)
}

fn bare_ctx() -> RequestCtx {
    RequestCtx { token: None, claims: None, team_id: None }
}

fn claims_for(id: u64) -> SessionClaims {
    SessionClaims { identity_id: id, issued_at: NOW, expires_at: NOW + 3600 }
}

#[test]
fn authentication_guard_attaches_claims() {
    let (store, a, _) = store_with_team();
    let tok = issue(SECRET, claims_for(a));
    let ctx = RequestCtx { token: Some(tok), ..bare_ctx() };
    let out = run_guard(&store, SECRET, NOW, ctx, &Guard::Authentication).unwrap();
    assert_eq!(out.claims, Some(claims_for(a)));
    // and rejects a missing token outright
    assert_eq!(
        run_guard(&store, SECRET, NOW, bare_ctx(), &Guard::Authentication),
        Err(Rejection::Unauthorized)
    );
}

#[test]
fn loose_membership_guard_always_passes() {
    let (store, a, tid) = store_with_team();
    // with claims of a member it attaches the team
    let ctx = RequestCtx { claims: Some(claims_for(a)), ..bare_ctx() };
    let out = run_guard(&store, SECRET, NOW, ctx, &Guard::TeamMembership(TeamMode::AnyTeam))
        .unwrap();
    assert_eq!(out.team_id, Some(tid));
    // with claims of a teamless identity it passes and attaches nothing
    let ctx = RequestCtx { claims: Some(claims_for(999)), ..bare_ctx() };
    let out = run_guard(&store, SECRET, NOW, ctx, &Guard::TeamMembership(TeamMode::AnyTeam))
        .unwrap();
    assert_eq!(out.team_id, None);
    // and without claims it passes the context through unchanged
    let out = run_guard(
        &store,
        SECRET,
        NOW,
        bare_ctx(),
        &Guard::TeamMembership(TeamMode::AnyTeam),
    )
    .unwrap();
    assert_eq!(out, bare_ctx());
}

#[test]
fn strict_membership_guard_demands_claims_and_team() {
    let (store, a, tid) = store_with_team();
    // composed without a preceding authentication stage: unauthorized
    assert_eq!(
        run_guard(
            &store,
            SECRET,
            NOW,
            bare_ctx(),
            &Guard::TeamMembership(TeamMode::ActiveMember)
        ),
        Err(Rejection::Unauthorized)
    );
    // an authenticated identity without a team: forbidden
    let ctx = RequestCtx { claims: Some(claims_for(999)), ..bare_ctx() };
    assert_eq!(
        run_guard(&store, SECRET, NOW, ctx, &Guard::TeamMembership(TeamMode::ActiveMember)),
        Err(Rejection::Forbidden)
    );
    // a member gets the team attached
    let ctx = RequestCtx { claims: Some(claims_for(a)), ..bare_ctx() };
    let out = run_guard(&store, SECRET, NOW, ctx, &Guard::TeamMembership(TeamMode::ActiveMember))
        .unwrap();
    assert_eq!(out.team_id, Some(tid));
}

#[test]
fn chain_runs_in_declared_order_and_short_circuits() {
    let (store, a, tid) = store_with_team();
    let chain = vec![
        Guard::Authentication,
        Guard::TeamMembership(TeamMode::ActiveMember),
    ];
    // a bad token halts at the first stage: Unauthorized, not Forbidden
    let forged = {
        let mut t = issue(SECRET, claims_for(a));
        t.tag ^= 1;
        t
    };
    let ctx = RequestCtx { token: Some(forged), ..bare_ctx() };
    assert_eq!(run_chain(&store, SECRET, NOW, ctx, &chain), Err(Rejection::Unauthorized));
    // a good token of a member flows through both stages
    let ctx = RequestCtx { token: Some(issue(SECRET, claims_for(a))), ..bare_ctx() };
    let out = run_chain(&store, SECRET, NOW, ctx, &chain).unwrap();
    assert_eq!(out.claims, Some(claims_for(a)));
    assert_eq!(out.team_id, Some(tid));
    // the empty chain admits anything unchanged
    let out = run_chain(&store, SECRET, NOW, bare_ctx(), &Vec::new()).unwrap();
    assert_eq!(out, bare_ctx());
}
