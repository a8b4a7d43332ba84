//! Submission and scoring engine: flag submission with exact-match
//! comparison, first-correct credit per (team, challenge) pair, and the
//! scoreboard aggregate recomputed from the append-only submission log.

use vstd::prelude::*;

use crate::bytes::{bytes_eq, copy_bytes};
use crate::store::{
    challenge_exists, challenge_ids_unique, challenges_wf, same_challenges, same_identities,
    same_invites, same_submissions, same_teams, sum_values, Challenge, Store, Submission, Team,
};

verus! {

#[derive(Clone, Copy, Debug, PartialEq, Eq, Structural)]
pub enum SubmitError {
    NoSuchChallenge,
    ServerError,
}

/// Outcome of one submission attempt: whether this attempt matched the
/// canonical flag, and whether it was the first correct one for the team,
/// the only one credited to the score.
#[derive(Clone, Copy, Debug, PartialEq, Eq, Structural)]
pub struct SubmissionResult {
    pub correct: bool,
    pub scoring: bool,
}

/// A challenge as shown to contestants: the canonical flag is withheld.
pub struct ChallengePublic {
    pub id: u64,
    pub title: Vec<u8>,
    pub description: Vec<u8>,
    pub value: u64,
}

/// Scoreboard options: an optional time window on submissions and a list of
/// hidden team ids to leave out.
pub struct ScoreboardOptions {
    pub from_ts: Option<u64>,
    pub until_ts: Option<u64>,
    pub exclude_teams: Vec<u64>,
}

/// One derived scoreboard row.
pub struct ScoreboardEntry {
    pub team_id: u64,
    pub team_name: Vec<u8>,
    pub score: u64,
    pub last_scoring_ts: Option<u64>,
}

// ---------------------------------------------------------------------------
// Scoring specification
// ---------------------------------------------------------------------------

/// The submission lies inside the requested time window.
pub open spec fn in_window(s: Submission, from: Option<u64>, until: Option<u64>) -> bool {
    &&& match from {
        Some(f) => s.timestamp >= f,
        None => true,
    }
    &&& match until {
        Some(u) => s.timestamp <= u,
        None => true,
    }
}

/// Some correct submission of `team` for `cid` lies in the log (restricted
/// to the window).
pub open spec fn solved_w(
    subs: Seq<Submission>,
    from: Option<u64>,
    until: Option<u64>,
    team: u64,
    cid: u64,
) -> bool {
    exists|i: int|
        0 <= i < subs.len() && (#[trigger] subs[i]).team_id == team && subs[i].challenge_id == cid
            && subs[i].correct && in_window(subs[i], from, until)
}

/// Some correct submission of `team` for `cid` lies in the log.
pub open spec fn solved(subs: Seq<Submission>, team: u64, cid: u64) -> bool {
    solved_w(subs, None, None, team, cid)
}

/// A team's score: the sum of the values of the challenges it has solved
/// (within the window). Each challenge counts once, however many correct
/// submissions the log holds.
pub open spec fn team_score_w(
    challenges: Seq<Challenge>,
    subs: Seq<Submission>,
    from: Option<u64>,
    until: Option<u64>,
    team: u64,
) -> int
    decreases challenges.len(),
{
    if challenges.len() == 0 {
        0
    } else {
        team_score_w(challenges.drop_last(), subs, from, until, team) + if solved_w(
            subs,
            from,
            until,
            team,
            challenges.last().id,
        ) {
            challenges.last().value as int
        } else {
            0
        }
    }
}

/// A team's score over the whole log.
pub open spec fn team_score(challenges: Seq<Challenge>, subs: Seq<Submission>, team: u64) -> int {
    team_score_w(challenges, subs, None, None, team)
}

/// The submission at index `i` is the scoring one of its (team, challenge)
/// pair: correct, in the window, and no earlier correct in-window submission
/// of the same pair.
pub open spec fn is_scoring_w(
    subs: Seq<Submission>,
    from: Option<u64>,
    until: Option<u64>,
    i: int,
) -> bool {
    &&& subs[i].correct
    &&& in_window(subs[i], from, until)
    &&& !solved_w(subs.take(i), from, until, subs[i].team_id, subs[i].challenge_id)
}

/// Timestamp of the latest scoring submission of `team` in the log
/// (restricted to the window), if any.
pub open spec fn last_scoring_ts(
    subs: Seq<Submission>,
    from: Option<u64>,
    until: Option<u64>,
    team: u64,
) -> Option<u64>
    decreases subs.len(),
{
    if subs.len() == 0 {
        None
    } else if subs.last().team_id == team && is_scoring_w(subs, from, until, subs.len() - 1) {
        Some(subs.last().timestamp)
    } else {
        last_scoring_ts(subs.drop_last(), from, until, team)
    }
}

/// A score is never negative and never exceeds the total point mass.
pub proof fn lemma_team_score_bounds(
    challenges: Seq<Challenge>,
    subs: Seq<Submission>,
    from: Option<u64>,
    until: Option<u64>,
    team: u64,
)
    ensures
        0 <= team_score_w(challenges, subs, from, until, team) <= sum_values(challenges),
    decreases challenges.len(),
{
    if challenges.len() > 0 {
        lemma_team_score_bounds(challenges.drop_last(), subs, from, until, team);
    }
}

/// Appending a submission solves exactly its own pair (when correct and in
/// the window) and leaves every other pair as it was.
pub proof fn lemma_solved_push(
    subs: Seq<Submission>,
    sub: Submission,
    from: Option<u64>,
    until: Option<u64>,
    team: u64,
    cid: u64,
)
    ensures
        solved_w(subs.push(sub), from, until, team, cid) <==> solved_w(subs, from, until, team, cid)
            || (sub.team_id == team && sub.challenge_id == cid && sub.correct && in_window(
            sub,
            from,
            until,
        )),
{
    let pushed = subs.push(sub);
    if solved_w(pushed, from, until, team, cid) {
        let i = choose|i: int|
            0 <= i < pushed.len() && (#[trigger] pushed[i]).team_id == team && pushed[i].challenge_id
                == cid && pushed[i].correct && in_window(pushed[i], from, until);
        if i < subs.len() {
            assert(subs[i] == pushed[i]);
            assert(solved_w(subs, from, until, team, cid));
        }
    }
    if solved_w(subs, from, until, team, cid) {
        let i = choose|i: int|
            0 <= i < subs.len() && (#[trigger] subs[i]).team_id == team && subs[i].challenge_id
                == cid && subs[i].correct && in_window(subs[i], from, until);
        assert(pushed[i] == subs[i]);
        assert(solved_w(pushed, from, until, team, cid));
    }
    if sub.team_id == team && sub.challenge_id == cid && sub.correct && in_window(sub, from, until) {
        assert(pushed[subs.len() as int] == sub);
        assert(solved_w(pushed, from, until, team, cid));
    }
}

/// First-correct credit, stated over the score: recording a correct
/// submission of a pair already solved leaves every team's score unchanged.
pub proof fn lemma_repeat_correct_does_not_score(
    challenges: Seq<Challenge>,
    subs: Seq<Submission>,
    sub: Submission,
    team: u64,
)
    requires
        solved(subs, sub.team_id, sub.challenge_id),
    ensures
        team_score(challenges, subs.push(sub), team) == team_score(challenges, subs, team),
    decreases challenges.len(),
{
    if challenges.len() > 0 {
        lemma_repeat_correct_does_not_score(challenges.drop_last(), subs, sub, team);
        lemma_solved_push(subs, sub, None, None, team, challenges.last().id);
        if sub.team_id == team && sub.challenge_id == challenges.last().id {
            assert(solved(subs, team, challenges.last().id));
        }
    }
}

/// First-correct credit, the crediting half: recording the first correct
/// submission of a pair raises that team's score by exactly the challenge's
/// value and leaves every other team's score unchanged.
pub proof fn lemma_first_correct_scores(
    challenges: Seq<Challenge>,
    subs: Seq<Submission>,
    sub: Submission,
    team: u64,
)
    requires
        challenge_ids_unique(challenges),
        sub.correct,
        !solved(subs, sub.team_id, sub.challenge_id),
    ensures
        team != sub.team_id ==> team_score(challenges, subs.push(sub), team) == team_score(
            challenges,
            subs,
            team,
        ),
        team == sub.team_id && challenge_exists(challenges, sub.challenge_id) ==> team_score(
            challenges,
            subs.push(sub),
            team,
        ) == team_score(challenges, subs, team) + challenges[choose|i: int|
            0 <= i < challenges.len() && (#[trigger] challenges[i]).id == sub.challenge_id].value,
        team == sub.team_id && !challenge_exists(challenges, sub.challenge_id) ==> team_score(
            challenges,
            subs.push(sub),
            team,
        ) == team_score(challenges, subs, team),
    decreases challenges.len(),
{
    if challenges.len() > 0 {
        let prev = challenges.drop_last();
        let last = challenges.last();
        assert(forall|i: int, j: int|
            0 <= i < j < prev.len() ==> (#[trigger] prev[i]).id != (#[trigger] prev[j]).id);
        lemma_first_correct_scores(prev, subs, sub, team);
        lemma_solved_push(subs, sub, None, None, team, last.id);
        if team == sub.team_id {
            if last.id == sub.challenge_id {
                // the last challenge is the submitted one; it cannot also
                // occur earlier in the list
                assert(!challenge_exists(prev, sub.challenge_id)) by {
                    if challenge_exists(prev, sub.challenge_id) {
                        let w = choose|i: int|
                            0 <= i < prev.len() && (#[trigger] prev[i]).id == sub.challenge_id;
                        assert(challenges[w].id == challenges[challenges.len() - 1].id);
                    }
                }
                assert(challenge_exists(challenges, sub.challenge_id)) by {
                    assert(challenges[challenges.len() - 1].id == sub.challenge_id);
                }
                let ci = choose|i: int|
                    0 <= i < challenges.len() && (#[trigger] challenges[i]).id == sub.challenge_id;
                assert(ci == challenges.len() - 1) by {
                    if ci < challenges.len() - 1 {
                        assert(challenges[ci].id != challenges[challenges.len() - 1].id);
                    }
                }
                assert(!solved_w(subs, None, None, team, last.id));
                assert(solved_w(subs.push(sub), None, None, team, last.id));
            } else {
                if challenge_exists(prev, sub.challenge_id) {
                    let w = choose|i: int|
                        0 <= i < prev.len() && (#[trigger] prev[i]).id == sub.challenge_id;
                    assert(challenge_exists(challenges, sub.challenge_id)) by {
                        assert(challenges[w].id == sub.challenge_id);
                    }
                    let ci = choose|i: int|
                        0 <= i < challenges.len() && (#[trigger] challenges[i]).id
                            == sub.challenge_id;
                    let cpi = choose|i: int|
                        0 <= i < prev.len() && (#[trigger] prev[i]).id == sub.challenge_id;
                    assert(ci == cpi) by {
                        if ci != cpi {
                            if ci < cpi {
                                assert(challenges[ci].id != challenges[cpi].id);
                            } else {
                                assert(challenges[cpi].id != challenges[ci].id);
                            }
                        }
                    }
                    assert(challenges[ci].value == prev[cpi].value);
                } else {
                    if challenge_exists(challenges, sub.challenge_id) {
                        let ci = choose|i: int|
                            0 <= i < challenges.len() && (#[trigger] challenges[i]).id
                                == sub.challenge_id;
                        if ci < challenges.len() - 1 {
                            assert(prev[ci].id == sub.challenge_id);
                            assert(challenge_exists(prev, sub.challenge_id));
                        } else {
                            assert(challenges[ci].id == last.id);
                        }
                        assert(false);
                    }
                }
            }
        }
    }
}

/// One step of the prefix sum of challenge values.
pub proof fn lemma_sum_values_take_step(challenges: Seq<Challenge>, i: int)
    requires
        0 <= i < challenges.len(),
    ensures
        sum_values(challenges.take(i + 1)) == sum_values(challenges.take(i)) + challenges[i].value,
{
    assert(challenges.take(i + 1).drop_last() =~= challenges.take(i));
    assert(challenges.take(i + 1).last() == challenges[i]);
}

/// A prefix sum of challenge values never exceeds the total.
pub proof fn lemma_sum_values_take_le(challenges: Seq<Challenge>, i: int)
    requires
        0 <= i <= challenges.len(),
    ensures
        0 <= sum_values(challenges.take(i)) <= sum_values(challenges),
    decreases challenges.len() - i,
{
    if i == challenges.len() {
        assert(challenges.take(i) =~= challenges);
        lemma_sum_values_nonneg(challenges);
    } else {
        lemma_sum_values_take_step(challenges, i);
        lemma_sum_values_take_le(challenges, i + 1);
        lemma_sum_values_nonneg(challenges.take(i));
    }
}

/// Challenge values are non-negative, so is their sum.
pub proof fn lemma_sum_values_nonneg(challenges: Seq<Challenge>)
    ensures
        0 <= sum_values(challenges),
    decreases challenges.len(),
{
    if challenges.len() > 0 {
        lemma_sum_values_nonneg(challenges.drop_last());
    }
}

impl Store {
    /// Total point mass of the challenge table.
    fn total_value(&self) -> (t: u64)
        requires
            challenges_wf(self.challenges@),
        ensures
            t == sum_values(self.challenges@),
    {
        let mut t: u64 = 0;
        let mut i: usize = 0;
        while i < self.challenges.len()
            invariant
                challenges_wf(self.challenges@),
                i <= self.challenges@.len(),
                t == sum_values(self.challenges@.take(i as int)),
            decreases self.challenges@.len() - i,
        {
            proof {
                lemma_sum_values_take_step(self.challenges@, i as int);
                lemma_sum_values_take_le(self.challenges@, i as int + 1);
            }
            t = t + self.challenges[i].value;
            i = i + 1;
        }
        proof {
            assert(self.challenges@.take(self.challenges@.len() as int) =~= self.challenges@);
        }
        t
    }

    /// Install a challenge. Refused only when the id space or the total
    /// point mass would overflow a machine word.
    pub fn add_challenge(
        &mut self,
        title: Vec<u8>,
        description: Vec<u8>,
        value: u64,
        flag: Vec<u8>,
    ) -> (r: Result<u64, SubmitError>)
        requires
            old(self).wf(),
        ensures
            final(self).wf(),
            match r {
                Ok(cid) => {
                    &&& old(self).next_challenge_id < u64::MAX
                    &&& sum_values(old(self).challenges@) + value <= u64::MAX
                    &&& cid == old(self).next_challenge_id
                    &&& final(self).challenges@ == old(self).challenges@.push(
                        final(self).challenges@.last(),
                    )
                    &&& final(self).challenges@.last().id == cid
                    &&& final(self).challenges@.last().title@ == title@
                    &&& final(self).challenges@.last().description@ == description@
                    &&& final(self).challenges@.last().value == value
                    &&& final(self).challenges@.last().flag@ == flag@
                    &&& final(self).next_challenge_id == old(self).next_challenge_id + 1
                    &&& same_identities(*final(self), *old(self))
                    &&& same_teams(*final(self), *old(self))
                    &&& same_invites(*final(self), *old(self))
                    &&& same_submissions(*final(self), *old(self))
                },
                Err(e) => {
                    &&& *final(self) == *old(self)
                    &&& e == SubmitError::ServerError
                },
            },
            r is Ok <==> old(self).next_challenge_id < u64::MAX && sum_values(old(self).challenges@)
                + value <= u64::MAX,
    {
        if self.next_challenge_id == u64::MAX {
            return Err(SubmitError::ServerError);
        }
        let total = self.total_value();
        if value > u64::MAX - total {
            return Err(SubmitError::ServerError);
        }
        let cid = self.next_challenge_id;
        self.challenges.push(Challenge { id: cid, title, description, value, flag });
        self.next_challenge_id = cid + 1;
        proof {
            let oldc = old(self).challenges@;
            let newc = self.challenges@;
            assert(newc.drop_last() =~= oldc);
            assert(sum_values(newc) == sum_values(oldc) + value);
            assert forall|i: int, j: int|
                0 <= i < j < newc.len() implies (#[trigger] newc[i]).id != (#[trigger] newc[j]).id by {
                if j < oldc.len() {
                    assert(oldc[i].id != oldc[j].id);
                } else {
                    assert(newc[i] == oldc[i]);
                    assert(oldc[i].id < cid);
                }
            }
            assert forall|i: int| 0 <= i < newc.len() implies (#[trigger] newc[i]).id
                < self.next_challenge_id by {
                if i < oldc.len() {
                    assert(oldc[i].id < old(self).next_challenge_id);
                }
            }
            assert(self.wf());
        }
        Ok(cid)
    }

    /// Index of the challenge whose id is `cid`, if any.
    fn find_challenge_by_id(&self, cid: u64) -> (r: Option<usize>)
        ensures
            match r {
                Some(i) => i < self.challenges@.len() && self.challenges@[i as int].id == cid,
                None => !challenge_exists(self.challenges@, cid),
            },
    {
        let mut i: usize = 0;
        while i < self.challenges.len()
            invariant
                i <= self.challenges@.len(),
                forall|j: int| 0 <= j < i ==> (#[trigger] self.challenges@[j]).id != cid,
            decreases self.challenges@.len() - i,
        {
            if self.challenges[i].id == cid {
                return Some(i);
            }
            i = i + 1;
        }
        None
    }

    /// The challenge list as contestants see it: every public field, the
    /// canonical flag withheld.
    pub fn list_challenges(&self) -> (r: Vec<ChallengePublic>)
        ensures
            r@.len() == self.challenges@.len(),
            forall|i: int|
                0 <= i < r@.len() ==> (#[trigger] r@[i]).id == self.challenges@[i].id
                    && r@[i].title@ == self.challenges@[i].title@ && r@[i].description@
                    == self.challenges@[i].description@ && r@[i].value == self.challenges@[i].value,
    {
        let mut r: Vec<ChallengePublic> = Vec::new();
        let mut i: usize = 0;
        while i < self.challenges.len()
            invariant
                i <= self.challenges@.len(),
                r@.len() == i,
                forall|j: int|
                    0 <= j < i ==> (#[trigger] r@[j]).id == self.challenges@[j].id && r@[j].title@
                        == self.challenges@[j].title@ && r@[j].description@
                        == self.challenges@[j].description@ && r@[j].value
                        == self.challenges@[j].value,
            decreases self.challenges@.len() - i,
        {
            let c = &self.challenges[i];
            r.push(ChallengePublic {
                id: c.id,
                title: copy_bytes(&c.title),
                description: copy_bytes(&c.description),
                value: c.value,
            });
            i = i + 1;
        }
        r
    }

    /// Record a flag submission. The row is always recorded for an existing
    /// challenge; the outcome is an exact, case-sensitive match against the
    /// canonical flag; the attempt is the scoring one exactly when it is
    /// correct and the pair (team, challenge) was unsolved before it.
    pub fn submit(
        &mut self,
        identity_id: u64,
        team_id: u64,
        challenge_id: u64,
        text: Vec<u8>,
        now: u64,
    ) -> (r: Result<SubmissionResult, SubmitError>)
        requires
            old(self).wf(),
        ensures
            final(self).wf(),
            match r {
                Ok(res) => {
                    &&& challenge_exists(old(self).challenges@, challenge_id)
                    &&& (res.correct <==> text@ == old(self).challenges@[choose|i: int|
                        0 <= i < old(self).challenges@.len() && (#[trigger] old(
                            self,
                        ).challenges@[i]).id == challenge_id].flag@)
                    &&& (res.scoring <==> res.correct && !solved(
                        old(self).submissions@,
                        team_id,
                        challenge_id,
                    ))
                    &&& final(self).submissions@ == old(self).submissions@.push(
                        final(self).submissions@.last(),
                    )
                    &&& final(self).submissions@.last().team_id == team_id
                    &&& final(self).submissions@.last().identity_id == identity_id
                    &&& final(self).submissions@.last().challenge_id == challenge_id
                    &&& final(self).submissions@.last().text@ == text@
                    &&& final(self).submissions@.last().timestamp == now
                    &&& (final(self).submissions@.last().correct <==> res.correct)
                    &&& same_identities(*final(self), *old(self))
                    &&& same_teams(*final(self), *old(self))
                    &&& same_invites(*final(self), *old(self))
                    &&& same_challenges(*final(self), *old(self))
                },
                Err(e) => {
                    &&& *final(self) == *old(self)
                    &&& e == SubmitError::NoSuchChallenge
                    &&& !challenge_exists(old(self).challenges@, challenge_id)
                },
            },
            r is Ok <==> challenge_exists(old(self).challenges@, challenge_id),
    {
        let ci = match self.find_challenge_by_id(challenge_id) {
            Some(i) => i,
            None => {
                return Err(SubmitError::NoSuchChallenge);
            },
        };
        proof {
            assert(challenge_exists(self.challenges@, challenge_id));
            let cc = choose|i: int|
                0 <= i < self.challenges@.len() && (#[trigger] self.challenges@[i]).id
                    == challenge_id;
            if cc != ci as int {
                if cc < ci as int {
                    assert(self.challenges@[cc].id != self.challenges@[ci as int].id);
                } else {
                    assert(self.challenges@[ci as int].id != self.challenges@[cc].id);
                }
            }
        }
        let correct = bytes_eq(&text, &self.challenges[ci].flag);
        let prior = solved_exec(&self.submissions, team_id, challenge_id);
        let scoring = correct && !prior;
        self.submissions.push(
            Submission { team_id, identity_id, challenge_id, text, timestamp: now, correct },
        );
        Ok(SubmissionResult { correct, scoring })
    }
}

/// Whether `team` has a correct submission for `cid` among the first `upto`
/// rows of the log.
fn solved_in_prefix(subs: &Vec<Submission>, upto: usize, team: u64, cid: u64) -> (r: bool)
    requires
        upto <= subs@.len(),
    ensures
        r == solved(subs@.take(upto as int), team, cid),
{
    let mut i: usize = 0;
    while i < upto
        invariant
            upto <= subs@.len(),
            i <= upto,
            forall|j: int|
                0 <= j < i ==> !((#[trigger] subs@[j]).team_id == team && subs@[j].challenge_id
                    == cid && subs@[j].correct),
        decreases upto - i,
    {
        let s = &subs[i];
        if s.team_id == team && s.challenge_id == cid && s.correct {
            assert(subs@.take(upto as int)[i as int] == subs@[i as int]);
            assert(solved(subs@.take(upto as int), team, cid));
            return true;
        }
        i = i + 1;
    }
    assert forall|j: int| 0 <= j < upto as int implies !((#[trigger] subs@.take(upto as int)[j]).team_id
        == team && subs@.take(upto as int)[j].challenge_id == cid
        && subs@.take(upto as int)[j].correct) by {
        assert(subs@.take(upto as int)[j] == subs@[j]);
    }
    false
}

/// Whether `team` has a correct submission for `cid` anywhere in the log.
fn solved_exec(subs: &Vec<Submission>, team: u64, cid: u64) -> (r: bool)
    ensures
        r == solved(subs@, team, cid),
{
    let r = solved_in_prefix(subs, subs.len(), team, cid);
    proof {
        assert(subs@.take(subs@.len() as int) =~= subs@);
    }
    r
}

// ---------------------------------------------------------------------------
// Scoreboard
// ---------------------------------------------------------------------------

/// Rank key of the tie-break timestamp: a team with no scoring submission
/// ranks after every timestamp.
pub open spec fn ts_rank(e: ScoreboardEntry) -> int {
    match e.last_scoring_ts {
        Some(t) => t as int,
        None => 0x1_0000_0000_0000_0000,
    }
}

/// Scoreboard order: higher score first; ties broken by the earlier
/// last-scoring timestamp; remaining ties by team id.
pub open spec fn entry_le(a: ScoreboardEntry, b: ScoreboardEntry) -> bool {
    ||| a.score > b.score
    ||| (a.score == b.score && ts_rank(a) < ts_rank(b))
    ||| (a.score == b.score && ts_rank(a) == ts_rank(b) && a.team_id <= b.team_id)
}

/// Neighbouring entries stand in scoreboard order.
pub open spec fn sorted_entries(s: Seq<ScoreboardEntry>) -> bool {
    forall|k: int| 0 <= k < s.len() - 1 ==> entry_le(#[trigger] s[k], s[k + 1])
}

/// The entry reports exactly one team, with that team's name, windowed
/// score and windowed last-scoring timestamp.
pub open spec fn entry_matches(
    teams: Seq<Team>,
    challenges: Seq<Challenge>,
    subs: Seq<Submission>,
    from: Option<u64>,
    until: Option<u64>,
    e: ScoreboardEntry,
) -> bool {
    &&& exists|t: int|
        0 <= t < teams.len() && (#[trigger] teams[t]).id == e.team_id && e.team_name@
            == teams[t].name@
    &&& e.score == team_score_w(challenges, subs, from, until, e.team_id)
    &&& e.last_scoring_ts == last_scoring_ts(subs, from, until, e.team_id)
}

/// Scoreboard order is total.
pub proof fn lemma_entry_le_total(a: ScoreboardEntry, b: ScoreboardEntry)
    ensures
        entry_le(a, b) || entry_le(b, a),
{
}

fn entry_le_exec(a: &ScoreboardEntry, b: &ScoreboardEntry) -> (r: bool)
    ensures
        r == entry_le(*a, *b),
{
    if a.score != b.score {
        a.score > b.score
    } else {
        match (a.last_scoring_ts, b.last_scoring_ts) {
            (Some(x), Some(y)) => {
                if x != y {
                    x < y
                } else {
                    a.team_id <= b.team_id
                }
            },
            (Some(_), None) => true,
            (None, Some(_)) => false,
            (None, None) => a.team_id <= b.team_id,
        }
    }
}

/// Inserting an element anywhere adds exactly it to the sequence's
/// multiset.
pub proof fn lemma_insert_to_multiset(s: Seq<ScoreboardEntry>, pos: int, e: ScoreboardEntry)
    requires
        0 <= pos <= s.len(),
    ensures
        s.insert(pos, e).to_multiset() =~= s.to_multiset().insert(e),
{
    let a = s.subrange(0, pos);
    let b = s.subrange(pos, s.len() as int);
    assert(s.insert(pos, e) == a.push(e) + b);
    assert(s =~= a + b);
    vstd::seq_lib::lemma_multiset_commutative(a.push(e), b);
    vstd::seq_lib::lemma_multiset_commutative(a, b);
    a.to_multiset_ensures();
}

/// Order scoreboard rows by `entry_le` (insertion sort); the result holds
/// exactly the rows given.
fn sort_entries(entries: Vec<ScoreboardEntry>) -> (r: Vec<ScoreboardEntry>)
    ensures
        sorted_entries(r@),
        r@.to_multiset() == entries@.to_multiset(),
{
    let ghost built = entries@;
    let mut entries = entries;
    let mut ranked: Vec<ScoreboardEntry> = Vec::new();
    proof {
        built.to_multiset_ensures();
        ranked@.to_multiset_ensures();
        assert(ranked@.to_multiset().add(entries@.to_multiset()) =~= built.to_multiset());
    }
    while entries.len() > 0
        invariant
            sorted_entries(ranked@),
            ranked@.to_multiset().add(entries@.to_multiset()) == built.to_multiset(),
        decreases entries@.len(),
    {
        let ghost pre_pop = entries@;
        let e = match entries.pop() {
            Some(e) => e,
            None => {
                proof {
                    assert(false);
                }
                vstd::pervasive::unreached()
            },
        };
        proof {
            pre_pop.drop_last().to_multiset_ensures();
            assert(pre_pop.drop_last().push(e) =~= pre_pop);
            assert(entries@.to_multiset().insert(e) =~= pre_pop.to_multiset());
        }
        let mut pos: usize = 0;
        while pos < ranked.len() && entry_le_exec(&ranked[pos], &e)
            invariant
                pos <= ranked@.len(),
                forall|j: int| 0 <= j < pos ==> entry_le(#[trigger] ranked@[j], e),
            decreases ranked@.len() - pos,
        {
            pos = pos + 1;
        }
        let ghost pre_insert = ranked@;
        proof {
            if (pos as int) < pre_insert.len() {
                lemma_entry_le_total(pre_insert[pos as int], e);
            }
        }
        ranked.insert(pos, e);
        proof {
            lemma_insert_to_multiset(pre_insert, pos as int, e);
            pre_insert.insert_ensures(pos as int, e);
            assert(ranked@.to_multiset().add(entries@.to_multiset()) =~= built.to_multiset());
            assert forall|k: int| 0 <= k < ranked@.len() - 1 implies entry_le(
                #[trigger] ranked@[k],
                ranked@[k + 1],
            ) by {
                if k + 1 < pos as int {
                    assert(ranked@[k] == pre_insert[k] && ranked@[k + 1] == pre_insert[k + 1]);
                } else if k + 1 == pos as int {
                    assert(ranked@[k] == pre_insert[k]);
                    assert(ranked@[k + 1] == e);
                } else if k == pos as int {
                    assert(ranked@[k] == e);
                    assert(ranked@[k + 1] == pre_insert[k]);
                } else {
                    assert(ranked@[k] == pre_insert[k - 1] && ranked@[k + 1] == pre_insert[k]);
                }
            }
        }
    }
    proof {
        entries@.to_multiset_ensures();
        assert(entries@.to_multiset().len() == 0);
        assert(ranked@.to_multiset().add(entries@.to_multiset()) =~= ranked@.to_multiset());
        assert(ranked@.to_multiset() =~= built.to_multiset());
    }
    ranked
}

/// Reordering scoreboard rows (equal as multisets) keeps what each row
/// states, which teams appear, and the pairwise distinctness of their ids.
/// An element of a sequence is an element of any reordering of it.
proof fn lemma_perm_contains(a: Seq<ScoreboardEntry>, b: Seq<ScoreboardEntry>, x: ScoreboardEntry)
    requires
        a.to_multiset() == b.to_multiset(),
        a.contains(x),
    ensures
        b.contains(x),
{
    a.to_multiset_ensures();
    b.to_multiset_ensures();
    assert(a.to_multiset().count(x) > 0);
}

/// Reordering scoreboard rows keeps what each row states.
proof fn lemma_rank_rows(
    built: Seq<ScoreboardEntry>,
    ranked: Seq<ScoreboardEntry>,
    teams: Seq<Team>,
    challenges: Seq<Challenge>,
    subs: Seq<Submission>,
    from: Option<u64>,
    until: Option<u64>,
    exclude: Seq<u64>,
)
    requires
        ranked.to_multiset() == built.to_multiset(),
        forall|k: int|
            0 <= k < built.len() ==> entry_matches(
                teams,
                challenges,
                subs,
                from,
                until,
                #[trigger] built[k],
            ) && !exclude.contains(built[k].team_id),
    ensures
        forall|k: int|
            0 <= k < ranked.len() ==> entry_matches(
                teams,
                challenges,
                subs,
                from,
                until,
                #[trigger] ranked[k],
            ) && !exclude.contains(ranked[k].team_id),
{
    assert forall|k: int| 0 <= k < ranked.len() implies entry_matches(
        teams,
        challenges,
        subs,
        from,
        until,
        #[trigger] ranked[k],
    ) && !exclude.contains(ranked[k].team_id) by {
        assert(ranked.contains(ranked[k]));
        lemma_perm_contains(ranked, built, ranked[k]);
        let j = choose|j: int| 0 <= j < built.len() && built[j] == ranked[k];
        assert(entry_matches(teams, challenges, subs, from, until, built[j]));
    }
}

/// Reordering scoreboard rows keeps which teams appear.
proof fn lemma_rank_complete(
    built: Seq<ScoreboardEntry>,
    ranked: Seq<ScoreboardEntry>,
    teams: Seq<Team>,
    exclude: Seq<u64>,
)
    requires
        ranked.to_multiset() == built.to_multiset(),
        forall|t: int|
            0 <= t < teams.len() && !exclude.contains((#[trigger] teams[t]).id) ==> exists|k: int|
                0 <= k < built.len() && (#[trigger] built[k]).team_id == teams[t].id,
    ensures
        forall|t: int|
            0 <= t < teams.len() && !exclude.contains((#[trigger] teams[t]).id) ==> exists|k: int|
                0 <= k < ranked.len() && (#[trigger] ranked[k]).team_id == teams[t].id,
{
    assert forall|t: int|
        0 <= t < teams.len() && !exclude.contains((#[trigger] teams[t]).id) implies exists|k: int|
        0 <= k < ranked.len() && (#[trigger] ranked[k]).team_id == teams[t].id by {
        let kb = choose|k: int|
            0 <= k < built.len() && (#[trigger] built[k]).team_id == teams[t].id;
        assert(built.contains(built[kb]));
        lemma_perm_contains(built, ranked, built[kb]);
        let kr = choose|k: int| 0 <= k < ranked.len() && ranked[k] == built[kb];
        assert(ranked[kr].team_id == teams[t].id);
    }
}

/// Reordering scoreboard rows with pairwise distinct team ids keeps the ids
/// pairwise distinct.
#[verifier::rlimit(50)]
proof fn lemma_rank_distinct(built: Seq<ScoreboardEntry>, ranked: Seq<ScoreboardEntry>)
    requires
        ranked.to_multiset() == built.to_multiset(),
        forall|k: int, l: int|
            0 <= k < l < built.len() ==> (#[trigger] built[k]).team_id != (
            #[trigger] built[l]).team_id,
    ensures
        forall|k: int, l: int|
            0 <= k < l < ranked.len() ==> (#[trigger] ranked[k]).team_id != (
            #[trigger] ranked[l]).team_id,
{
    assert(built.no_duplicates()) by {
        assert forall|a: int, b: int|
            0 <= a < built.len() && 0 <= b < built.len() && a != b implies built[a] != built[b] by {
            if built[a] == built[b] {
                assert(built[a].team_id == built[b].team_id);
            }
        }
    }
    built.lemma_multiset_has_no_duplicates();
    ranked.lemma_multiset_has_no_duplicates_conv();
    assert forall|k: int, l: int| 0 <= k < l < ranked.len() implies (
    #[trigger] ranked[k]).team_id != (#[trigger] ranked[l]).team_id by {
        if ranked[k].team_id == ranked[l].team_id {
            assert(ranked.contains(ranked[k]));
            assert(ranked.contains(ranked[l]));
            lemma_perm_contains(ranked, built, ranked[k]);
            lemma_perm_contains(ranked, built, ranked[l]);
            let a = choose|a: int| 0 <= a < built.len() && built[a] == ranked[k];
            let b = choose|b: int| 0 <= b < built.len() && built[b] == ranked[l];
            assert(built[a].team_id == built[b].team_id);
            assert(a == b);
            assert(ranked[k] == ranked[l]);
        }
    }
}

/// Whether `team` has a correct in-window submission for `cid` among the
/// first `upto` rows of the log.
fn solved_w_in_prefix(
    subs: &Vec<Submission>,
    upto: usize,
    from: Option<u64>,
    until: Option<u64>,
    team: u64,
    cid: u64,
) -> (r: bool)
    requires
        upto <= subs@.len(),
    ensures
        r == solved_w(subs@.take(upto as int), from, until, team, cid),
{
    let mut i: usize = 0;
    while i < upto
        invariant
            upto <= subs@.len(),
            i <= upto,
            forall|j: int|
                0 <= j < i ==> !((#[trigger] subs@[j]).team_id == team && subs@[j].challenge_id
                    == cid && subs@[j].correct && in_window(subs@[j], from, until)),
        decreases upto - i,
    {
        let s = &subs[i];
        let inside = match from {
            Some(f) => s.timestamp >= f,
            None => true,
        } && match until {
            Some(u) => s.timestamp <= u,
            None => true,
        };
        if s.team_id == team && s.challenge_id == cid && s.correct && inside {
            assert(subs@.take(upto as int)[i as int] == subs@[i as int]);
            assert(solved_w(subs@.take(upto as int), from, until, team, cid));
            return true;
        }
        i = i + 1;
    }
    assert forall|j: int| 0 <= j < upto as int implies !((#[trigger] subs@.take(
        upto as int,
    )[j]).team_id == team && subs@.take(upto as int)[j].challenge_id == cid && subs@.take(
        upto as int,
    )[j].correct && in_window(subs@.take(upto as int)[j], from, until)) by {
        assert(subs@.take(upto as int)[j] == subs@[j]);
    }
    false
}

impl Store {
    /// A team's windowed score, by recomputation over the challenge table.
    fn team_score_exec(&self, from: Option<u64>, until: Option<u64>, team: u64) -> (s: u64)
        requires
            challenges_wf(self.challenges@),
        ensures
            s == team_score_w(self.challenges@, self.submissions@, from, until, team),
    {
        let mut s: u64 = 0;
        let mut i: usize = 0;
        while i < self.challenges.len()
            invariant
                challenges_wf(self.challenges@),
                i <= self.challenges@.len(),
                s == team_score_w(
                    self.challenges@.take(i as int),
                    self.submissions@,
                    from,
                    until,
                    team,
                ),
            decreases self.challenges@.len() - i,
        {
            proof {
                assert(self.challenges@.take(i as int + 1).drop_last() =~= self.challenges@.take(
                    i as int,
                ));
                assert(self.challenges@.take(i as int + 1).last() == self.challenges@[i as int]);
                lemma_team_score_bounds(
                    self.challenges@.take(i as int),
                    self.submissions@,
                    from,
                    until,
                    team,
                );
                lemma_sum_values_take_step(self.challenges@, i as int);
                lemma_sum_values_take_le(self.challenges@, i as int + 1);
                lemma_sum_values_take_le(self.challenges@, i as int);
            }
            let cid = self.challenges[i].id;
            if solved_w_full(&self.submissions, from, until, team, cid) {
                s = s + self.challenges[i].value;
            }
            i = i + 1;
        }
        proof {
            assert(self.challenges@.take(self.challenges@.len() as int) =~= self.challenges@);
        }
        s
    }

    /// The windowed timestamp of a team's latest scoring submission.
    fn last_scoring_ts_exec(&self, from: Option<u64>, until: Option<u64>, team: u64) -> (r: Option<
        u64,
    >)
        ensures
            r == last_scoring_ts(self.submissions@, from, until, team),
    {
        let subs = &self.submissions;
        let mut acc: Option<u64> = None;
        let mut i: usize = 0;
        while i < subs.len()
            invariant
                subs == &self.submissions,
                i <= subs@.len(),
                acc == last_scoring_ts(subs@.take(i as int), from, until, team),
            decreases subs@.len() - i,
        {
            let s = &subs[i];
            let inside = match from {
                Some(f) => s.timestamp >= f,
                None => true,
            } && match until {
                Some(u) => s.timestamp <= u,
                None => true,
            };
            let prior = solved_w_in_prefix(subs, i, from, until, s.team_id, s.challenge_id);
            proof {
                let pre = subs@.take(i as int + 1);
                assert(pre.drop_last() =~= subs@.take(i as int));
                assert(pre.last() == subs@[i as int]);
                assert(pre.take(i as int) =~= subs@.take(i as int));
            }
            if s.team_id == team && s.correct && inside && !prior {
                acc = Some(s.timestamp);
            }
            i = i + 1;
        }
        proof {
            assert(subs@.take(subs@.len() as int) =~= subs@);
        }
        acc
    }

    /// The scoreboard: one row per team not excluded by the options, with
    /// the windowed score and tie-break timestamp, ordered by score
    /// descending, earlier tie-break timestamp first, then team id.
    #[verifier::rlimit(60)]
    pub fn scoreboard(&self, options: &ScoreboardOptions) -> (r: Vec<ScoreboardEntry>)
        requires
            self.wf(),
        ensures
            sorted_entries(r@),
            forall|k: int|
                0 <= k < r@.len() ==> entry_matches(
                    self.teams@,
                    self.challenges@,
                    self.submissions@,
                    options.from_ts,
                    options.until_ts,
                    #[trigger] r@[k],
                ) && !options.exclude_teams@.contains(r@[k].team_id),
            forall|t: int|
                0 <= t < self.teams@.len() && !options.exclude_teams@.contains(
                    (#[trigger] self.teams@[t]).id,
                ) ==> exists|k: int| 0 <= k < r@.len() && (#[trigger] r@[k]).team_id
                    == self.teams@[t].id,
            forall|k: int, l: int|
                0 <= k < l < r@.len() ==> (#[trigger] r@[k]).team_id != (#[trigger] r@[l]).team_id,
    {
        let from = options.from_ts;
        let until = options.until_ts;
        // one row per included team
        let mut entries: Vec<ScoreboardEntry> = Vec::new();
        let mut i: usize = 0;
        while i < self.teams.len()
            invariant
                self.wf(),
                from == options.from_ts,
                until == options.until_ts,
                i <= self.teams@.len(),
                forall|k: int|
                    0 <= k < entries@.len() ==> entry_matches(
                        self.teams@,
                        self.challenges@,
                        self.submissions@,
                        from,
                        until,
                        #[trigger] entries@[k],
                    ) && !options.exclude_teams@.contains(entries@[k].team_id),
                forall|t: int|
                    0 <= t < i && !options.exclude_teams@.contains((#[trigger] self.teams@[t]).id)
                        ==> exists|k: int| 0 <= k < entries@.len() && (#[trigger] entries@[k]).team_id
                        == self.teams@[t].id,
                forall|k: int, l: int|
                    0 <= k < l < entries@.len() ==> (#[trigger] entries@[k]).team_id != (
                    #[trigger] entries@[l]).team_id,
                forall|k: int|
                    0 <= k < entries@.len() ==> exists|t: int|
                        0 <= t < i && (#[trigger] entries@[k]).team_id == (
                        #[trigger] self.teams@[t]).id,
            decreases self.teams@.len() - i,
        {
            let t = &self.teams[i];
            if !crate::store::roster_contains(&options.exclude_teams, t.id) {
                let score = self.team_score_exec(from, until, t.id);
                let last_ts = self.last_scoring_ts_exec(from, until, t.id);
                let entry = ScoreboardEntry {
                    team_id: t.id,
                    team_name: copy_bytes(&t.name),
                    score,
                    last_scoring_ts: last_ts,
                };
                proof {
                    assert forall|k: int| 0 <= k < entries@.len() implies (
                    #[trigger] entries@[k]).team_id != t.id by {
                        let w = choose|w: int|
                            0 <= w < i && (#[trigger] entries@[k]).team_id == (
                            #[trigger] self.teams@[w]).id;
                        assert(self.teams@[w].id != self.teams@[i as int].id);
                    }
                }
                let ghost pre = entries@;
                entries.push(entry);
                proof {
                    assert forall|t2: int|
                        0 <= t2 < i + 1 && !options.exclude_teams@.contains(
                            (#[trigger] self.teams@[t2]).id,
                        ) implies exists|k: int|
                        0 <= k < entries@.len() && (#[trigger] entries@[k]).team_id
                            == self.teams@[t2].id by {
                        if t2 == i as int {
                            assert(entries@[pre.len() as int].team_id == self.teams@[t2].id);
                        } else {
                            let k0 = choose|k: int|
                                0 <= k < pre.len() && (#[trigger] pre[k]).team_id
                                    == self.teams@[t2].id;
                            assert(entries@[k0].team_id == self.teams@[t2].id);
                        }
                    }
                }
            } else {
                proof {
                    assert forall|t2: int|
                        0 <= t2 < i + 1 && !options.exclude_teams@.contains(
                            (#[trigger] self.teams@[t2]).id,
                        ) implies exists|k: int|
                        0 <= k < entries@.len() && (#[trigger] entries@[k]).team_id
                            == self.teams@[t2].id by {
                        if t2 < i as int {
                            let k0 = choose|k: int|
                                0 <= k < entries@.len() && (#[trigger] entries@[k]).team_id
                                    == self.teams@[t2].id;
                        }
                    }
                }
            }
            i = i + 1;
        }
        let ghost built = entries@;

        // order the rows
        let ranked = sort_entries(entries);
        proof {
            lemma_rank_rows(
                built,
                ranked@,
                self.teams@,
                self.challenges@,
                self.submissions@,
                options.from_ts,
                options.until_ts,
                options.exclude_teams@,
            );
            lemma_rank_complete(built, ranked@, self.teams@, options.exclude_teams@);
            lemma_rank_distinct(built, ranked@);
        }
        ranked
    }
}

/// Whether `team` has a correct in-window submission for `cid` anywhere in
/// the log.
fn solved_w_full(
    subs: &Vec<Submission>,
    from: Option<u64>,
    until: Option<u64>,
    team: u64,
    cid: u64,
) -> (r: bool)
    ensures
        r == solved_w(subs@, from, until, team, cid),
{
    let r = solved_w_in_prefix(subs, subs.len(), from, until, team, cid);
    proof {
        assert(subs@.take(subs@.len() as int) =~= subs@);
    }
    r
}

} // verus!
