use ctf_core::store::Store;
use ctf_core::team::TeamError;

const SECRET: u64 = 9;
const TTL: u64 = 3600;

fn register(store: &mut Store, name: &str, email: &str) -> u64 {
    let (id, _) = store
        .register(
            name.as_bytes().to_vec(),
            email.as_bytes().to_vec(),
            &b"hunter2".to_vec(),
            SECRET,
            1000,
            TTL,
        )
        .expect("registration should succeed");
    id
}

#[test]
fn create_makes_captain_and_sole_member() {
    let mut store = Store::new();
    let a = register(&mut store, "alice", "a@example.com");
    let tid = store.create_team(a, b"Red".to_vec()).expect("create should succeed");
    let view = store.profile(a).expect("creator is on the team");
    assert_eq!(view.team_id, tid);
    assert_eq!(view.captain_id, a);
    assert_eq!(view.roster, vec![a]);
    assert_eq!(view.name, b"Red".to_vec());
}

#[test]
fn create_rejects_second_team_and_taken_name() {
    let mut store = Store::new();
    let a = register(&mut store, "alice", "a@example.com");
    let b = register(&mut store, "bob", "b@example.com");
    store.create_team(a, b"Red".to_vec()).unwrap();
    assert_eq!(store.create_team(a, b"Blue".to_vec()), Err(TeamError::AlreadyOnTeam));
    assert_eq!(store.create_team(b, b"Red".to_vec()), Err(TeamError::NameTaken));
}

#[test]
fn invite_and_accept_grow_roster() {
    let mut store = Store::new();
    let a = register(&mut store, "alice", "a@example.com");
    let b = register(&mut store, "bob", "b@example.com");
    let tid = store.create_team(a, b"Red".to_vec()).unwrap();
    store.invite(a, &b"b@example.com".to_vec()).expect("captain invites");
    let view = store.profile(a).unwrap();
    assert_eq!(view.pending_invites, vec![b]);
    store.accept(b, tid).expect("invitee accepts");
    let view = store.profile(a).unwrap();
    assert_eq!(view.roster, vec![a, b]);
    assert_eq!(view.pending_invites, Vec::<u64>::new());
}

#[test]
fn invite_errors() {
    let mut store = Store::new();
    let a = register(&mut store, "alice", "a@example.com");
    let b = register(&mut store, "bob", "b@example.com");
    let c = register(&mut store, "carol", "c@example.com");
    let tid = store.create_team(a, b"Red".to_vec()).unwrap();
    // only the captain of a team can invite (P3)
    assert_eq!(store.invite(b, &b"c@example.com".to_vec()), Err(TeamError::NotCaptain));
    // unknown target email
    assert_eq!(store.invite(a, &b"nobody@example.com".to_vec()), Err(TeamError::NoSuchUser));
    // a target already on a team cannot be invited
    store.create_team(b, b"Blue".to_vec()).unwrap();
    assert_eq!(store.invite(a, &b"b@example.com".to_vec()), Err(TeamError::AlreadyOnTeam));
    // a duplicate pending invite is rejected
    store.invite(a, &b"c@example.com".to_vec()).unwrap();
    assert_eq!(store.invite(a, &b"c@example.com".to_vec()), Err(TeamError::AlreadyInvited));
    let _ = (tid, c);
}

#[test]
fn accept_invalidates_other_pending_invites() {
    // accepting invite I while holding invites J, K: J and K die with it (P2)
    let mut store = Store::new();
    let a = register(&mut store, "alice", "a@example.com");
    let b = register(&mut store, "bob", "b@example.com");
    let c = register(&mut store, "carol", "c@example.com");
    let red = store.create_team(a, b"Red".to_vec()).unwrap();
    let blue = store.create_team(b, b"Blue".to_vec()).unwrap();
    store.invite(a, &b"c@example.com".to_vec()).unwrap();
    store.invite(b, &b"c@example.com".to_vec()).unwrap();
    store.accept(c, red).expect("accepting the Red invite");
    // the Blue invite was invalidated with the accept: a later attempt on
    // it fails with NoSuchInvite
    assert_eq!(store.accept(c, blue), Err(TeamError::NoSuchInvite));
    // even after leaving Red, the old Blue invite cannot be accepted
    store.kick(a, c).unwrap();
    assert_eq!(store.accept(c, blue), Err(TeamError::NoSuchInvite));
    // and the accepted Red invite cannot be re-accepted either
    assert_eq!(store.accept(c, red), Err(TeamError::NoSuchInvite));
}

#[test]
fn accept_errors() {
    let mut store = Store::new();
    let a = register(&mut store, "alice", "a@example.com");
    let b = register(&mut store, "bob", "b@example.com");
    let red = store.create_team(a, b"Red".to_vec()).unwrap();
    // no invite on file, whether or not the caller has a team
    assert_eq!(store.accept(b, red), Err(TeamError::NoSuchInvite));
    assert_eq!(store.accept(a, red), Err(TeamError::NoSuchInvite));
    // a caller who does hold the invite but joined a team meanwhile
    store.invite(a, &b"b@example.com".to_vec()).unwrap();
    store.create_team(b, b"Blue".to_vec()).unwrap();
    assert_eq!(store.accept(b, red), Err(TeamError::AlreadyOnTeam));
}

#[test]
fn kick_removes_member() {
    let mut store = Store::new();
    let a = register(&mut store, "alice", "a@example.com");
    let b = register(&mut store, "bob", "b@example.com");
    let red = store.create_team(a, b"Red".to_vec()).unwrap();
    store.invite(a, &b"b@example.com".to_vec()).unwrap();
    store.accept(b, red).unwrap();
    store.kick(a, b).expect("captain kicks a member");
    let view = store.profile(a).unwrap();
    assert_eq!(view.roster, vec![a]);
    assert!(matches!(store.profile(b), Err(TeamError::NotOnTeam)));
}

#[test]
fn kick_errors() {
    let mut store = Store::new();
    let a = register(&mut store, "alice", "a@example.com");
    let b = register(&mut store, "bob", "b@example.com");
    let c = register(&mut store, "carol", "c@example.com");
    let red = store.create_team(a, b"Red".to_vec()).unwrap();
    store.invite(a, &b"b@example.com".to_vec()).unwrap();
    store.accept(b, red).unwrap();
    // only the captain kicks (P3)
    assert_eq!(store.kick(b, a), Err(TeamError::NotCaptain));
    assert_eq!(store.kick(c, b), Err(TeamError::NotCaptain));
    // the captain cannot kick themself
    assert_eq!(store.kick(a, a), Err(TeamError::CannotKickSelf));
    // a teamless target is NotOnTeam
    assert_eq!(store.kick(a, c), Err(TeamError::NotOnTeam));
    // a captain of a different team attempting a kick on Red's member
    // receives NotCaptain, not NotOnTeam (P3)
    store.create_team(c, b"Blue".to_vec()).unwrap();
    assert_eq!(store.kick(c, b), Err(TeamError::NotCaptain));
    assert_eq!(store.kick(a, c), Err(TeamError::NotCaptain));
}

#[test]
fn one_team_per_identity_across_operations() {
    // after a sequence of create/invite/accept/kick operations no identity
    // is on two rosters (P1)
    let mut store = Store::new();
    let a = register(&mut store, "alice", "a@example.com");
    let b = register(&mut store, "bob", "b@example.com");
    let c = register(&mut store, "carol", "c@example.com");
    let red = store.create_team(a, b"Red".to_vec()).unwrap();
    let _blue = store.create_team(b, b"Blue".to_vec()).unwrap();
    store.invite(a, &b"c@example.com".to_vec()).unwrap();
    store.invite(b, &b"c@example.com".to_vec()).unwrap();
    store.accept(c, red).unwrap();
    store.kick(a, c).unwrap();
    store.invite(b, &b"c@example.com".to_vec()).unwrap();
    let mut seen = Vec::new();
    for team in &store.teams {
        for member in &team.roster {
            assert!(!seen.contains(member), "identity on two rosters");
            seen.push(*member);
        }
    }
}
