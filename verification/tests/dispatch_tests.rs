use ctf_core::credential::UserError;
use ctf_core::routes::{dispatch, route_of, ApiBody, ApiRequest, Method, Route};
use ctf_core::scoring::ScoreboardOptions;
use ctf_core::store::Store;
use ctf_core::token::Token;

const SECRET: u64 = 0xfeed_beef;
const TTL: u64 = 3600;
const NOW: u64 = 1000;

fn no_options() -> ScoreboardOptions {
    ScoreboardOptions { from_ts: None, until_ts: None, exclude_teams: Vec::new() }
}

fn register_via_dispatch(store: &mut Store, name: &str, email: &str, password: &str) -> Token {
    let resp = dispatch(
        store,
        SECRET,
        NOW,
        TTL,
        None,
        ApiRequest::UserRegister {
            username: name.as_bytes().to_vec(),
            email: email.as_bytes().to_vec(),
            password: password.as_bytes().to_vec(),
        },
    );
    assert_eq!(resp.status, 200);
    match resp.body {
        ApiBody::Token(t) => t,
        _ => panic!("registration returns a token"),
    }
}

#[test]
fn route_table_resolves_every_route() {
    let cases: Vec<(Method, &str, Route)> = vec![
        (Method::Get, "/scoreboard", Route::Scoreboard),
        (Method::Get, "/chal/list", Route::ChalList),
        (Method::Post, "/chal/submit", Route::ChalSubmit),
        (Method::Post, "/team/create", Route::TeamCreate),
        (Method::Get, "/team/me", Route::TeamMe),
        (Method::Post, "/team/accept", Route::TeamAccept),
        (Method::Post, "/team/manage/invite", Route::TeamInvite),
        (Method::Post, "/team/manage/kick", Route::TeamKick),
        (Method::Post, "/user/login", Route::UserLogin),
        (Method::Post, "/user/register", Route::UserRegister),
    ];
    for (m, path, route) in cases {
        assert_eq!(route_of(m, &path.as_bytes().to_vec()), Some(route));
    }
    assert_eq!(route_of(Method::Get, &b"/team/create".to_vec()), None);
    assert_eq!(route_of(Method::Post, &b"/scoreboard".to_vec()), None);
    assert_eq!(route_of(Method::Get, &b"/nowhere".to_vec()), None);
}

#[test]
fn unauthenticated_invite_is_401() {
    // unauthenticated request to the invite route halts at the
    // authentication guard
    let mut store = Store::new();
    let resp = dispatch(
        &mut store,
        SECRET,
        NOW,
        TTL,
        None,
        ApiRequest::TeamInvite { email: b"b@example.com".to_vec() },
    );
    assert_eq!(resp.status, 401);
    assert!(matches!(resp.body, ApiBody::Empty));
    assert_eq!(store.invites.len(), 0);
}

#[test]
fn teamless_invite_is_403_and_non_captain_kick_is_403() {
    let mut store = Store::new();
    let tok_a = register_via_dispatch(&mut store, "alice", "a@example.com", "pw-a");
    let tok_b = register_via_dispatch(&mut store, "bob", "b@example.com", "pw-b");

    // authenticated, but on no team: the strict membership guard forbids
    let resp = dispatch(
        &mut store,
        SECRET,
        NOW,
        TTL,
        Some(tok_a),
        ApiRequest::TeamInvite { email: b"b@example.com".to_vec() },
    );
    assert_eq!(resp.status, 403);

    // Alice founds a team and brings Bob in
    let resp = dispatch(
        &mut store,
        SECRET,
        NOW,
        TTL,
        Some(tok_a),
        ApiRequest::TeamCreate { name: b"Red".to_vec() },
    );
    assert_eq!(resp.status, 200);
    let resp = dispatch(
        &mut store,
        SECRET,
        NOW,
        TTL,
        Some(tok_a),
        ApiRequest::TeamInvite { email: b"b@example.com".to_vec() },
    );
    assert_eq!(resp.status, 200);
    let red = store.teams[0].id;
    let resp = dispatch(
        &mut store,
        SECRET,
        NOW,
        TTL,
        Some(tok_b),
        ApiRequest::TeamAccept { team_id: red },
    );
    assert_eq!(resp.status, 200);

    // an authenticated member who is not the captain may not kick
    let captain = store.teams[0].captain_id;
    let resp = dispatch(
        &mut store,
        SECRET,
        NOW,
        TTL,
        Some(tok_b),
        ApiRequest::TeamKick { target: captain },
    );
    assert_eq!(resp.status, 403);
}

#[test]
fn expired_token_is_401() {
    let mut store = Store::new();
    let tok = register_via_dispatch(&mut store, "alice", "a@example.com", "pw-a");
    let after_expiry = NOW + TTL;
    let resp = dispatch(
        &mut store,
        SECRET,
        after_expiry,
        TTL,
        Some(tok),
        ApiRequest::TeamCreate { name: b"Red".to_vec() },
    );
    assert_eq!(resp.status, 401);
    assert_eq!(store.teams.len(), 0);
}

#[test]
fn login_failures_are_indistinguishable() {
    // wrong password and unknown email produce the same error and the same
    // response
    let mut store = Store::new();
    register_via_dispatch(&mut store, "alice", "a@example.com", "right-password");

    let wrong_password = store.login(
        &b"a@example.com".to_vec(),
        &b"wrong-password".to_vec(),
        SECRET,
        NOW,
        TTL,
    );
    let unknown_email = store.login(
        &b"ghost@example.com".to_vec(),
        &b"right-password".to_vec(),
        SECRET,
        NOW,
        TTL,
    );
    assert_eq!(wrong_password, Err(UserError::BadUsernameOrPassword));
    assert_eq!(unknown_email, Err(UserError::BadUsernameOrPassword));
    assert_eq!(wrong_password, unknown_email);

    let r1 = dispatch(
        &mut store,
        SECRET,
        NOW,
        TTL,
        None,
        ApiRequest::UserLogin {
            email: b"a@example.com".to_vec(),
            password: b"wrong-password".to_vec(),
        },
    );
    let r2 = dispatch(
        &mut store,
        SECRET,
        NOW,
        TTL,
        None,
        ApiRequest::UserLogin {
            email: b"ghost@example.com".to_vec(),
            password: b"right-password".to_vec(),
        },
    );
    assert_eq!(r1.status, 401);
    assert_eq!(r2.status, 401);
    assert!(matches!(r1.body, ApiBody::Empty));
    assert!(matches!(r2.body, ApiBody::Empty));
}

#[test]
fn duplicate_registration_is_400() {
    let mut store = Store::new();
    register_via_dispatch(&mut store, "alice", "a@example.com", "pw");
    let resp = dispatch(
        &mut store,
        SECRET,
        NOW,
        TTL,
        None,
        ApiRequest::UserRegister {
            username: b"alice2".to_vec(),
            email: b"a@example.com".to_vec(),
            password: b"pw".to_vec(),
        },
    );
    assert_eq!(resp.status, 400);
    let resp = dispatch(
        &mut store,
        SECRET,
        NOW,
        TTL,
        None,
        ApiRequest::UserRegister {
            username: b"alice".to_vec(),
            email: b"other@example.com".to_vec(),
            password: b"pw".to_vec(),
        },
    );
    assert_eq!(resp.status, 400);
}

#[test]
fn open_routes_need_no_token() {
    let mut store = Store::new();
    store
        .add_challenge(b"warmup".to_vec(), b"d".to_vec(), 100, b"flag{x}".to_vec())
        .unwrap();
    let resp = dispatch(
        &mut store,
        SECRET,
        NOW,
        TTL,
        None,
        ApiRequest::Scoreboard(no_options()),
    );
    assert_eq!(resp.status, 200);
    assert!(matches!(resp.body, ApiBody::Rows(_)));
    let resp = dispatch(&mut store, SECRET, NOW, TTL, None, ApiRequest::ChalList);
    assert_eq!(resp.status, 200);
    match resp.body {
        ApiBody::Challenges(listed) => {
            assert_eq!(listed.len(), 1);
            assert_eq!(listed[0].title, b"warmup".to_vec());
        },
        _ => panic!("challenge list expected"),
    }
    // an unknown challenge id is a validation failure
    let resp = dispatch(
        &mut store,
        SECRET,
        NOW,
        TTL,
        None,
        ApiRequest::ChalSubmit {
            identity_id: 1,
            team_id: 1,
            challenge_id: 999,
            text: b"flag{x}".to_vec(),
        },
    );
    assert_eq!(resp.status, 400);
}

#[test]
fn authenticated_submit_binds_claims_and_membership() {
    let mut store = Store::new();
    let tok_a = register_via_dispatch(&mut store, "alice", "a@example.com", "pw-a");
    let a_id = tok_a.claims.identity_id;
    let red = store.create_team(a_id, b"Red".to_vec()).unwrap();
    let chal = store
        .add_challenge(b"pwn".to_vec(), b"d".to_vec(), 100, b"flag{win}".to_vec())
        .unwrap();

    // the body claims a different identity and team; the token wins
    let resp = dispatch(
        &mut store,
        SECRET,
        NOW,
        TTL,
        Some(tok_a),
        ApiRequest::ChalSubmit {
            identity_id: 999,
            team_id: 999,
            challenge_id: chal,
            text: b"flag{win}".to_vec(),
        },
    );
    assert_eq!(resp.status, 200);
    assert_eq!(store.submissions.len(), 1);
    assert_eq!(store.submissions[0].identity_id, a_id);
    assert_eq!(store.submissions[0].team_id, red);
    let rows = store.scoreboard(&no_options());
    assert_eq!(rows[0].team_id, red);
    assert_eq!(rows[0].score, 100);

    // a tampered token on this route is refused and records nothing
    let mut forged = tok_a;
    forged.tag ^= 1;
    let resp = dispatch(
        &mut store,
        SECRET,
        NOW,
        TTL,
        Some(forged),
        ApiRequest::ChalSubmit {
            identity_id: a_id,
            team_id: red,
            challenge_id: chal,
            text: b"flag{win}".to_vec(),
        },
    );
    assert_eq!(resp.status, 401);
    assert_eq!(store.submissions.len(), 1);
}

#[test]
fn full_contest_scenario() {
    // register A, log A in, found Red, invite B by email, B accepts,
    // A's profile shows both, B solves a 100-point challenge, the board
    // shows 100, A re-submits the same flag, the board still shows 100 and
    // the log holds two correct rows
    let mut store = Store::new();
    register_via_dispatch(&mut store, "alice", "a@example.com", "pw-a");
    register_via_dispatch(&mut store, "bob", "b@example.com", "pw-b");

    let resp = dispatch(
        &mut store,
        SECRET,
        NOW,
        TTL,
        None,
        ApiRequest::UserLogin { email: b"a@example.com".to_vec(), password: b"pw-a".to_vec() },
    );
    assert_eq!(resp.status, 200);
    let tok_a = match resp.body {
        ApiBody::Token(t) => t,
        _ => panic!("login returns a token"),
    };
    let resp = dispatch(
        &mut store,
        SECRET,
        NOW,
        TTL,
        None,
        ApiRequest::UserLogin { email: b"b@example.com".to_vec(), password: b"pw-b".to_vec() },
    );
    let tok_b = match resp.body {
        ApiBody::Token(t) => t,
        _ => panic!("login returns a token"),
    };

    let resp = dispatch(
        &mut store,
        SECRET,
        NOW,
        TTL,
        Some(tok_a),
        ApiRequest::TeamCreate { name: b"Red".to_vec() },
    );
    assert_eq!(resp.status, 200);
    let red = store.teams[0].id;

    let resp = dispatch(
        &mut store,
        SECRET,
        NOW,
        TTL,
        Some(tok_a),
        ApiRequest::TeamInvite { email: b"b@example.com".to_vec() },
    );
    assert_eq!(resp.status, 200);
    let resp = dispatch(
        &mut store,
        SECRET,
        NOW,
        TTL,
        Some(tok_b),
        ApiRequest::TeamAccept { team_id: red },
    );
    assert_eq!(resp.status, 200);

    let resp = dispatch(&mut store, SECRET, NOW, TTL, Some(tok_a), ApiRequest::TeamMe);
    assert_eq!(resp.status, 200);
    let a_id = tok_a.claims.identity_id;
    let b_id = tok_b.claims.identity_id;
    match resp.body {
        ApiBody::Team(view) => {
            assert_eq!(view.roster, vec![a_id, b_id]);
        },
        _ => panic!("profile returns the team view"),
    }

    let chal = store
        .add_challenge(b"pwn".to_vec(), b"get in".to_vec(), 100, b"flag{win}".to_vec())
        .unwrap();

    let resp = dispatch(
        &mut store,
        SECRET,
        NOW,
        TTL,
        None,
        ApiRequest::ChalSubmit {
            identity_id: b_id,
            team_id: red,
            challenge_id: chal,
            text: b"flag{win}".to_vec(),
        },
    );
    assert_eq!(resp.status, 200);

    let rows = store.scoreboard(&no_options());
    assert_eq!(rows.len(), 1);
    assert_eq!(rows[0].score, 100);

    let resp = dispatch(
        &mut store,
        SECRET,
        NOW,
        TTL,
        None,
        ApiRequest::ChalSubmit {
            identity_id: a_id,
            team_id: red,
            challenge_id: chal,
            text: b"flag{win}".to_vec(),
        },
    );
    assert_eq!(resp.status, 200);

    let rows = store.scoreboard(&no_options());
    assert_eq!(rows[0].score, 100);
    let correct_rows = store.submissions.iter().filter(|s| s.correct).count();
    assert_eq!(correct_rows, 2);
}
