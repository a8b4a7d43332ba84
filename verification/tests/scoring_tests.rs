use ctf_core::scoring::ScoreboardOptions;
use ctf_core::scoring::SubmitError;
use ctf_core::store::Store;

const SECRET: u64 = 9;
const TTL: u64 = 3600;

fn register(store: &mut Store, name: &str, email: &str) -> u64 {
    let (id, _) = store
        .register(
            name.as_bytes().to_vec(),
            email.as_bytes().to_vec(),
            &b"hunter2".to_vec(),
            SECRET,
            1000,
            TTL,
        )
        .unwrap();
    id
}

fn no_options() -> ScoreboardOptions {
    ScoreboardOptions { from_ts: None, until_ts: None, exclude_teams: Vec::new() }
}

#[test]
fn submit_records_and_scores_first_correct_only() {
    let mut store = Store::new();
    let a = register(&mut store, "alice", "a@example.com");
    let b = register(&mut store, "bob", "b@example.com");
    let red = store.create_team(a, b"Red".to_vec()).unwrap();
    store.invite(a, &b"b@example.com".to_vec()).unwrap();
    store.accept(b, red).unwrap();
    let chal = store
        .add_challenge(b"warmup".to_vec(), b"first one".to_vec(), 100, b"flag{x}".to_vec())
        .unwrap();

    let r1 = store.submit(b, red, chal, b"flag{x}".to_vec(), 10).unwrap();
    assert!(r1.correct);
    assert!(r1.scoring);

    // a second correct submission by a teammate is recorded, not credited (P4)
    let r2 = store.submit(a, red, chal, b"flag{x}".to_vec(), 11).unwrap();
    assert!(r2.correct);
    assert!(!r2.scoring);

    assert_eq!(store.submissions.len(), 2);
    assert!(store.submissions[0].correct);
    assert!(store.submissions[1].correct);

    let rows = store.scoreboard(&no_options());
    assert_eq!(rows.len(), 1);
    assert_eq!(rows[0].team_id, red);
    assert_eq!(rows[0].score, 100);
    assert_eq!(rows[0].last_scoring_ts, Some(10));
}

#[test]
fn submit_exact_match_only() {
    let mut store = Store::new();
    let a = register(&mut store, "alice", "a@example.com");
    let red = store.create_team(a, b"Red".to_vec()).unwrap();
    let chal = store
        .add_challenge(b"warmup".to_vec(), b"first one".to_vec(), 100, b"flag{x}".to_vec())
        .unwrap();
    // case-sensitive, no trimming
    let wrong = store.submit(a, red, chal, b"FLAG{x}".to_vec(), 5).unwrap();
    assert!(!wrong.correct);
    let padded = store.submit(a, red, chal, b" flag{x}".to_vec(), 6).unwrap();
    assert!(!padded.correct);
    let rows = store.scoreboard(&no_options());
    assert_eq!(rows[0].score, 0);
    assert_eq!(rows[0].last_scoring_ts, None);
}

#[test]
fn submit_unknown_challenge() {
    let mut store = Store::new();
    assert_eq!(
        store.submit(1, 1, 42, b"flag".to_vec(), 5),
        Err(SubmitError::NoSuchChallenge)
    );
    assert_eq!(store.submissions.len(), 0);
}

#[test]
fn list_withholds_flag() {
    let mut store = Store::new();
    store
        .add_challenge(b"warmup".to_vec(), b"first one".to_vec(), 100, b"flag{x}".to_vec())
        .unwrap();
    let listed = store.list_challenges();
    assert_eq!(listed.len(), 1);
    assert_eq!(listed[0].title, b"warmup".to_vec());
    assert_eq!(listed[0].description, b"first one".to_vec());
    assert_eq!(listed[0].value, 100);
}

#[test]
fn scoreboard_orders_by_score_then_earlier_tiebreak() {
    let mut store = Store::new();
    let a = register(&mut store, "alice", "a@example.com");
    let b = register(&mut store, "bob", "b@example.com");
    let c = register(&mut store, "carol", "c@example.com");
    let red = store.create_team(a, b"Red".to_vec()).unwrap();
    let blue = store.create_team(b, b"Blue".to_vec()).unwrap();
    let green = store.create_team(c, b"Green".to_vec()).unwrap();
    let c1 = store
        .add_challenge(b"one".to_vec(), b"d".to_vec(), 100, b"f1".to_vec())
        .unwrap();
    let c2 = store
        .add_challenge(b"two".to_vec(), b"d".to_vec(), 50, b"f2".to_vec())
        .unwrap();

    // Blue: 150 points; Red and Green: 100 each, Red solving earlier
    store.submit(b, blue, c1, b"f1".to_vec(), 10).unwrap();
    store.submit(b, blue, c2, b"f2".to_vec(), 20).unwrap();
    store.submit(a, red, c1, b"f1".to_vec(), 30).unwrap();
    store.submit(c, green, c1, b"f1".to_vec(), 40).unwrap();

    let rows = store.scoreboard(&no_options());
    assert_eq!(rows.len(), 3);
    assert_eq!(rows[0].team_id, blue);
    assert_eq!(rows[0].score, 150);
    assert_eq!(rows[1].team_id, red);
    assert_eq!(rows[2].team_id, green);
    assert_eq!(rows[1].score, 100);
    assert_eq!(rows[2].score, 100);
    assert_eq!(rows[0].team_name, b"Blue".to_vec());
}

#[test]
fn scoreboard_window_and_exclusion() {
    let mut store = Store::new();
    let a = register(&mut store, "alice", "a@example.com");
    let b = register(&mut store, "bob", "b@example.com");
    let red = store.create_team(a, b"Red".to_vec()).unwrap();
    let blue = store.create_team(b, b"Blue".to_vec()).unwrap();
    let c1 = store
        .add_challenge(b"one".to_vec(), b"d".to_vec(), 100, b"f1".to_vec())
        .unwrap();
    store.submit(a, red, c1, b"f1".to_vec(), 10).unwrap();
    store.submit(b, blue, c1, b"f1".to_vec(), 100).unwrap();

    // the window keeps only Blue's submission
    let windowed = store.scoreboard(&ScoreboardOptions {
        from_ts: Some(50),
        until_ts: None,
        exclude_teams: Vec::new(),
    });
    assert_eq!(windowed[0].team_id, blue);
    assert_eq!(windowed[0].score, 100);
    let red_row = windowed.iter().find(|r| r.team_id == red).unwrap();
    assert_eq!(red_row.score, 0);

    // hidden teams are left out entirely
    let visible = store.scoreboard(&ScoreboardOptions {
        from_ts: None,
        until_ts: None,
        exclude_teams: vec![blue],
    });
    assert_eq!(visible.len(), 1);
    assert_eq!(visible[0].team_id, red);
}

#[test]
fn scoreboard_empty_store() {
    let store = Store::new();
    assert_eq!(store.scoreboard(&no_options()).len(), 0);
}
