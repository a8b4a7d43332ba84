//! The backing store of the core: identities, teams, invites, challenges and
//! the submission log, together with the well-formedness invariant that every
//! lifecycle operation preserves.
//!
//! Mutation goes through the operations of the credential service, the team
//! lifecycle manager and the submission engine; each of them requires `wf`
//! and ensures it again.

use vstd::prelude::*;

use crate::bytes::bytes_eq;

verus! {

/// A registered identity. Only a digest of the credential is held; the
/// plaintext password is never stored.
pub struct Identity {
    pub id: u64,
    pub name: Vec<u8>,
    pub email: Vec<u8>,
    pub credential_hash: u64,
}

/// A team: the captain is always on its own roster.
pub struct Team {
    pub id: u64,
    pub name: Vec<u8>,
    pub captain_id: u64,
    pub roster: Vec<u64>,
}

#[derive(Clone, Copy, Debug, PartialEq, Eq, Structural)]
pub enum InviteStatus {
    Pending,
    Accepted,
}

/// An invitation of `identity_id` into `team_id`, recorded by `invited_by`.
#[derive(Clone, Copy, Debug, PartialEq, Eq, Structural)]
pub struct Invite {
    pub team_id: u64,
    pub identity_id: u64,
    pub invited_by: u64,
    pub status: InviteStatus,
}

/// Reference data: the canonical flag is the secret the engine compares
/// submissions against.
pub struct Challenge {
    pub id: u64,
    pub title: Vec<u8>,
    pub description: Vec<u8>,
    pub value: u64,
    pub flag: Vec<u8>,
}

/// One append-only row of the submission log.
pub struct Submission {
    pub team_id: u64,
    pub identity_id: u64,
    pub challenge_id: u64,
    pub text: Vec<u8>,
    pub timestamp: u64,
    pub correct: bool,
}

/// The transactional store behind the lifecycle manager and the engines.
pub struct Store {
    pub identities: Vec<Identity>,
    pub teams: Vec<Team>,
    pub invites: Vec<Invite>,
    pub challenges: Vec<Challenge>,
    pub submissions: Vec<Submission>,
    pub next_identity_id: u64,
    pub next_team_id: u64,
    pub next_challenge_id: u64,
}

// ---------------------------------------------------------------------------
// Membership and lookup predicates
// ---------------------------------------------------------------------------

/// `id` stands on some team roster.
pub open spec fn has_team(teams: Seq<Team>, id: u64) -> bool {
    exists|i: int| 0 <= i < teams.len() && #[trigger] teams[i].roster@.contains(id)
}

/// `id` stands on the roster of the team whose id is `tid`.
pub open spec fn on_team_roster(teams: Seq<Team>, tid: u64, id: u64) -> bool {
    exists|i: int|
        0 <= i < teams.len() && (#[trigger] teams[i]).id == tid && teams[i].roster@.contains(id)
}

/// A team with id `tid` exists.
pub open spec fn team_exists(teams: Seq<Team>, tid: u64) -> bool {
    exists|i: int| 0 <= i < teams.len() && (#[trigger] teams[i]).id == tid
}

/// `id` is the captain of some team.
pub open spec fn is_captain(teams: Seq<Team>, id: u64) -> bool {
    exists|i: int| 0 <= i < teams.len() && (#[trigger] teams[i]).captain_id == id
}

/// `id` is the captain of the team whose id is `tid`.
pub open spec fn is_captain_of(teams: Seq<Team>, tid: u64, id: u64) -> bool {
    exists|i: int|
        0 <= i < teams.len() && (#[trigger] teams[i]).id == tid && teams[i].captain_id == id
}

/// Some identity record carries this email.
pub open spec fn email_taken(identities: Seq<Identity>, email: Seq<u8>) -> bool {
    exists|i: int| 0 <= i < identities.len() && (#[trigger] identities[i]).email@ == email
}

/// Some identity record carries this display name.
pub open spec fn name_taken(identities: Seq<Identity>, name: Seq<u8>) -> bool {
    exists|i: int| 0 <= i < identities.len() && (#[trigger] identities[i]).name@ == name
}

/// Some team carries this name.
pub open spec fn team_name_taken(teams: Seq<Team>, name: Seq<u8>) -> bool {
    exists|i: int| 0 <= i < teams.len() && (#[trigger] teams[i]).name@ == name
}

/// A pending invite of `id` into the team whose id is `tid` is on file.
pub open spec fn has_pending_invite(invites: Seq<Invite>, tid: u64, id: u64) -> bool {
    exists|k: int|
        0 <= k < invites.len() && (#[trigger] invites[k]).team_id == tid
            && invites[k].identity_id == id && invites[k].status == InviteStatus::Pending
}

/// Some pending invite of `id`, to whatever team, is on file.
pub open spec fn has_any_pending_invite(invites: Seq<Invite>, id: u64) -> bool {
    exists|k: int|
        0 <= k < invites.len() && (#[trigger] invites[k]).identity_id == id
            && invites[k].status == InviteStatus::Pending
}

/// A challenge with id `cid` exists.
pub open spec fn challenge_exists(challenges: Seq<Challenge>, cid: u64) -> bool {
    exists|i: int| 0 <= i < challenges.len() && (#[trigger] challenges[i]).id == cid
}

/// Sum of the point values of a challenge list.
pub open spec fn sum_values(challenges: Seq<Challenge>) -> int
    decreases challenges.len(),
{
    if challenges.len() == 0 {
        0
    } else {
        sum_values(challenges.drop_last()) + challenges.last().value
    }
}

// ---------------------------------------------------------------------------
// Well-formedness
// ---------------------------------------------------------------------------

/// Identity ids, emails and display names are pairwise distinct.
pub open spec fn identities_unique(identities: Seq<Identity>) -> bool {
    forall|i: int, j: int|
        0 <= i < j < identities.len() ==> (#[trigger] identities[i]).id != (
        #[trigger] identities[j]).id && identities[i].email@ != identities[j].email@
            && identities[i].name@ != identities[j].name@
}

/// Team ids and team names are pairwise distinct.
pub open spec fn teams_unique(teams: Seq<Team>) -> bool {
    forall|i: int, j: int|
        0 <= i < j < teams.len() ==> (#[trigger] teams[i]).id != (#[trigger] teams[j]).id
            && teams[i].name@ != teams[j].name@
}

/// No identity stands on two different rosters.
pub open spec fn rosters_disjoint(teams: Seq<Team>) -> bool {
    forall|i: int, j: int, x: u64|
        0 <= i < teams.len() && 0 <= j < teams.len() && i != j ==> !(
        #[trigger] teams[i].roster@.contains(x) && #[trigger] teams[j].roster@.contains(x))
}

/// No roster lists the same identity twice.
pub open spec fn rosters_nodup(teams: Seq<Team>) -> bool {
    forall|i: int, k: int, l: int|
        0 <= i < teams.len() && 0 <= k < l < teams[i].roster@.len() ==> #[trigger] teams[i].roster@[k]
            != #[trigger] teams[i].roster@[l]
}

/// Every captain is a member of its own team's roster.
pub open spec fn captains_on_roster(teams: Seq<Team>) -> bool {
    forall|i: int|
        0 <= i < teams.len() ==> (#[trigger] teams[i]).roster@.contains(teams[i].captain_id)
}

/// Every invite names an existing team.
pub open spec fn invites_teams_exist(invites: Seq<Invite>, teams: Seq<Team>) -> bool {
    forall|k: int| 0 <= k < invites.len() ==> team_exists(teams, (#[trigger] invites[k]).team_id)
}

/// A pending invite names an identity not already on that team's roster.
pub open spec fn pending_not_on_roster(invites: Seq<Invite>, teams: Seq<Team>) -> bool {
    forall|k: int|
        0 <= k < invites.len() && (#[trigger] invites[k]).status == InviteStatus::Pending
            ==> !on_team_roster(teams, invites[k].team_id, invites[k].identity_id)
}

/// No pending invite is duplicated for the same (team, identity) pair.
pub open spec fn pending_unique(invites: Seq<Invite>) -> bool {
    forall|k: int, l: int|
        0 <= k < l < invites.len() && (#[trigger] invites[k]).status == InviteStatus::Pending
            && (#[trigger] invites[l]).status == InviteStatus::Pending ==> !(invites[k].team_id
            == invites[l].team_id && invites[k].identity_id == invites[l].identity_id)
}

/// Every invite names an existing team, a pending invite names an identity
/// not already on that team's roster, and no pending invite is duplicated.
pub open spec fn invites_wf(invites: Seq<Invite>, teams: Seq<Team>) -> bool {
    &&& invites_teams_exist(invites, teams)
    &&& pending_not_on_roster(invites, teams)
    &&& pending_unique(invites)
}

/// Challenge ids are pairwise distinct.
pub open spec fn challenge_ids_unique(challenges: Seq<Challenge>) -> bool {
    forall|i: int, j: int|
        0 <= i < j < challenges.len() ==> (#[trigger] challenges[i]).id != (
        #[trigger] challenges[j]).id
}

/// Challenge ids are pairwise distinct and the total point mass fits in a
/// machine word, so no team score can overflow.
pub open spec fn challenges_wf(challenges: Seq<Challenge>) -> bool {
    &&& challenge_ids_unique(challenges)
    &&& sum_values(challenges) <= u64::MAX
}

/// The identity table of `a` is that of `b`.
pub open spec fn same_identities(a: Store, b: Store) -> bool {
    a.identities@ == b.identities@ && a.next_identity_id == b.next_identity_id
}

/// The team table of `a` is that of `b`.
pub open spec fn same_teams(a: Store, b: Store) -> bool {
    a.teams@ == b.teams@ && a.next_team_id == b.next_team_id
}

/// The invite list of `a` is that of `b`.
pub open spec fn same_invites(a: Store, b: Store) -> bool {
    a.invites@ == b.invites@
}

/// The challenge table of `a` is that of `b`.
pub open spec fn same_challenges(a: Store, b: Store) -> bool {
    a.challenges@ == b.challenges@ && a.next_challenge_id == b.next_challenge_id
}

/// The submission log of `a` is that of `b`.
pub open spec fn same_submissions(a: Store, b: Store) -> bool {
    a.submissions@ == b.submissions@
}

impl Store {
    /// The store invariant every operation preserves.
    pub open spec fn wf(self) -> bool {
        &&& identities_unique(self.identities@)
        &&& forall|i: int|
            0 <= i < self.identities@.len() ==> (#[trigger] self.identities@[i]).id
                < self.next_identity_id
        &&& teams_unique(self.teams@)
        &&& forall|i: int|
            0 <= i < self.teams@.len() ==> (#[trigger] self.teams@[i]).id < self.next_team_id
        &&& rosters_disjoint(self.teams@)
        &&& rosters_nodup(self.teams@)
        &&& captains_on_roster(self.teams@)
        &&& invites_wf(self.invites@, self.teams@)
        &&& challenges_wf(self.challenges@)
        &&& forall|i: int|
            0 <= i < self.challenges@.len() ==> (#[trigger] self.challenges@[i]).id
                < self.next_challenge_id
    }

    /// An empty store: no identities, teams, invites, challenges or
    /// submissions on file.
    pub fn new() -> (s: Store)
        ensures
            s.wf(),
            s.identities@ == Seq::<Identity>::empty(),
            s.teams@ == Seq::<Team>::empty(),
            s.invites@ == Seq::<Invite>::empty(),
            s.challenges@ == Seq::<Challenge>::empty(),
            s.submissions@ == Seq::<Submission>::empty(),
            s.next_identity_id == 1,
            s.next_team_id == 1,
            s.next_challenge_id == 1,
    {
        let s = Store {
            identities: Vec::new(),
            teams: Vec::new(),
            invites: Vec::new(),
            challenges: Vec::new(),
            submissions: Vec::new(),
            next_identity_id: 1,
            next_team_id: 1,
            next_challenge_id: 1,
        };
        assert(s.identities@ =~= Seq::<Identity>::empty());
        assert(s.teams@ =~= Seq::<Team>::empty());
        assert(s.invites@ =~= Seq::<Invite>::empty());
        assert(s.challenges@ =~= Seq::<Challenge>::empty());
        assert(s.submissions@ =~= Seq::<Submission>::empty());
        s
    }

    /// Index of the identity carrying `email`, if any; under `wf` that
    /// record is unique.
    pub fn find_identity_by_email(&self, email: &Vec<u8>) -> (r: Option<usize>)
        ensures
            match r {
                Some(i) => i < self.identities@.len() && self.identities@[i as int].email@
                    == email@,
                None => !email_taken(self.identities@, email@),
            },
    {
        let mut i: usize = 0;
        while i < self.identities.len()
            invariant
                i <= self.identities@.len(),
                forall|j: int| 0 <= j < i ==> (#[trigger] self.identities@[j]).email@ != email@,
            decreases self.identities@.len() - i,
        {
            if bytes_eq(&self.identities[i].email, email) {
                return Some(i);
            }
            i = i + 1;
        }
        None
    }

    /// Whether some identity already carries `name` as display name.
    pub fn display_name_taken(&self, name: &Vec<u8>) -> (r: bool)
        ensures
            r == name_taken(self.identities@, name@),
    {
        let mut i: usize = 0;
        while i < self.identities.len()
            invariant
                i <= self.identities@.len(),
                forall|j: int| 0 <= j < i ==> (#[trigger] self.identities@[j]).name@ != name@,
            decreases self.identities@.len() - i,
        {
            if bytes_eq(&self.identities[i].name, name) {
                assert(name_taken(self.identities@, name@));
                return true;
            }
            i = i + 1;
        }
        false
    }

    /// Index of the team whose id is `tid`, if any.
    pub fn find_team_by_id(&self, tid: u64) -> (r: Option<usize>)
        ensures
            match r {
                Some(i) => i < self.teams@.len() && self.teams@[i as int].id == tid,
                None => !team_exists(self.teams@, tid),
            },
    {
        let mut i: usize = 0;
        while i < self.teams.len()
            invariant
                i <= self.teams@.len(),
                forall|j: int| 0 <= j < i ==> (#[trigger] self.teams@[j]).id != tid,
            decreases self.teams@.len() - i,
        {
            if self.teams[i].id == tid {
                return Some(i);
            }
            i = i + 1;
        }
        None
    }

    /// Index of the team on whose roster `id` stands, if any; under `wf`
    /// there is at most one such team.
    pub fn find_team_of_member(&self, id: u64) -> (r: Option<usize>)
        ensures
            match r {
                Some(i) => i < self.teams@.len() && self.teams@[i as int].roster@.contains(id),
                None => !has_team(self.teams@, id),
            },
    {
        let mut i: usize = 0;
        while i < self.teams.len()
            invariant
                i <= self.teams@.len(),
                forall|j: int| 0 <= j < i ==> !(#[trigger] self.teams@[j]).roster@.contains(id),
            decreases self.teams@.len() - i,
        {
            if roster_contains(&self.teams[i].roster, id) {
                return Some(i);
            }
            i = i + 1;
        }
        None
    }

    /// Index of the team whose captain is `id`, if any.
    pub fn find_captained_team(&self, id: u64) -> (r: Option<usize>)
        ensures
            match r {
                Some(i) => i < self.teams@.len() && self.teams@[i as int].captain_id == id,
                None => !is_captain(self.teams@, id),
            },
    {
        let mut i: usize = 0;
        while i < self.teams.len()
            invariant
                i <= self.teams@.len(),
                forall|j: int| 0 <= j < i ==> (#[trigger] self.teams@[j]).captain_id != id,
            decreases self.teams@.len() - i,
        {
            if self.teams[i].captain_id == id {
                return Some(i);
            }
            i = i + 1;
        }
        None
    }

    /// Whether some team already carries `name`.
    pub fn team_name_taken_exec(&self, name: &Vec<u8>) -> (r: bool)
        ensures
            r == team_name_taken(self.teams@, name@),
    {
        let mut i: usize = 0;
        while i < self.teams.len()
            invariant
                i <= self.teams@.len(),
                forall|j: int| 0 <= j < i ==> (#[trigger] self.teams@[j]).name@ != name@,
            decreases self.teams@.len() - i,
        {
            if bytes_eq(&self.teams[i].name, name) {
                assert(team_name_taken(self.teams@, name@));
                return true;
            }
            i = i + 1;
        }
        false
    }
}

/// Membership test on a roster (or any list of identity ids).
pub fn roster_contains(v: &Vec<u64>, x: u64) -> (r: bool)
    ensures
        r == v@.contains(x),
{
    let mut i: usize = 0;
    while i < v.len()
        invariant
            i <= v@.len(),
            forall|j: int| 0 <= j < i ==> v@[j] != x,
        decreases v@.len() - i,
    {
        if v[i] == x {
            return true;
        }
        i = i + 1;
    }
    false
}

/// Under the store invariant an identity belongs to at most one team: any
/// two rosters both holding `id` are the same roster.
pub proof fn lemma_member_of_at_most_one_team(teams: Seq<Team>, id: u64, i: int, j: int)
    requires
        rosters_disjoint(teams),
        0 <= i < teams.len(),
        0 <= j < teams.len(),
        teams[i].roster@.contains(id),
        teams[j].roster@.contains(id),
    ensures
        i == j,
{
}

/// An identity belongs to at most one team, at any point at which the store
/// invariant holds: any two teams of the store whose rosters both hold `id`
/// are the same team. Every mutating operation ensures `wf` again, so this
/// holds after any sequence of create, invite, accept and kick operations.
pub proof fn lemma_one_team_per_identity(s: Store, id: u64)
    requires
        s.wf(),
    ensures
        forall|i: int, j: int|
            0 <= i < s.teams@.len() && 0 <= j < s.teams@.len() && #[trigger] s.teams@[i].roster@.contains(
                id,
            ) && #[trigger] s.teams@[j].roster@.contains(id) ==> i == j,
{
}

/// Index of the team `id` belongs to (meaningful when `has_team` holds;
/// unique under `rosters_disjoint`).
pub open spec fn member_team_idx(teams: Seq<Team>, id: u64) -> int {
    choose|i: int| 0 <= i < teams.len() && #[trigger] teams[i].roster@.contains(id)
}

/// Id of the team `id` belongs to.
pub open spec fn member_team_id(teams: Seq<Team>, id: u64) -> u64 {
    teams[member_team_idx(teams, id)].id
}

/// Index of the team `id` captains (meaningful when `is_captain` holds;
/// unique because a captain is on its own roster and rosters are disjoint).
pub open spec fn captained_team_idx(teams: Seq<Team>, id: u64) -> int {
    choose|i: int| 0 <= i < teams.len() && (#[trigger] teams[i]).captain_id == id
}

/// Id of the team `id` captains.
pub open spec fn captained_team_id(teams: Seq<Team>, id: u64) -> u64 {
    teams[captained_team_idx(teams, id)].id
}

/// One identity captains at most one team.
pub proof fn lemma_captain_unique(teams: Seq<Team>, id: u64, i: int, j: int)
    requires
        rosters_disjoint(teams),
        captains_on_roster(teams),
        0 <= i < teams.len(),
        0 <= j < teams.len(),
        teams[i].captain_id == id,
        teams[j].captain_id == id,
    ensures
        i == j,
{
    assert(teams[i].roster@.contains(id));
    assert(teams[j].roster@.contains(id));
    lemma_member_of_at_most_one_team(teams, id, i, j);
}

/// Index of the identity record carrying `email` (meaningful when
/// `email_taken` holds; unique under `identities_unique`).
pub open spec fn email_identity_idx(identities: Seq<Identity>, email: Seq<u8>) -> int {
    choose|i: int| 0 <= i < identities.len() && (#[trigger] identities[i]).email@ == email
}

/// Id of the identity record carrying `email`.
pub open spec fn email_identity_id(identities: Seq<Identity>, email: Seq<u8>) -> u64 {
    identities[email_identity_idx(identities, email)].id
}

/// At most one identity record carries a given email.
pub proof fn lemma_email_unique(identities: Seq<Identity>, email: Seq<u8>, i: int, j: int)
    requires
        identities_unique(identities),
        0 <= i < identities.len(),
        0 <= j < identities.len(),
        identities[i].email@ == email,
        identities[j].email@ == email,
    ensures
        i == j,
{
    if i < j {
        assert(identities[i].id != identities[j].id);
    } else if j < i {
        assert(identities[j].id != identities[i].id);
    }
}

} // verus!
