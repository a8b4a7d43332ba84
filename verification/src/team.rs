//! Team lifecycle manager: creation, invitation, acceptance, removal and the
//! read-only profile projection. Every mutating operation checks and
//! re-establishes the membership invariants of [`crate::store::Store::wf`],
//! first among them that an identity belongs to at most one team.

use vstd::prelude::*;

use crate::bytes::{copy_bytes, copy_u64s};
use crate::store::{
    captained_team_id, captained_team_idx, email_identity_id, email_identity_idx, email_taken,
    has_any_pending_invite, has_pending_invite, has_team, invites_teams_exist, is_captain,
    is_captain_of, lemma_captain_unique, lemma_email_unique, lemma_member_of_at_most_one_team,
    member_team_idx, on_team_roster, pending_unique, rosters_disjoint, same_challenges,
    same_identities, same_invites, same_submissions, same_teams, team_exists, team_name_taken,
    Invite, InviteStatus, Store, Team,
};

verus! {

/// The invite list after `id` accepts the invite into team `tid`: that
/// invite is marked Accepted, every other pending invite of `id` is removed,
/// and every other entry stays as it was, in order.
pub open spec fn accept_invites(invites: Seq<Invite>, id: u64, tid: u64) -> Seq<Invite>
    decreases invites.len(),
{
    if invites.len() == 0 {
        Seq::empty()
    } else {
        let rest = accept_invites(invites.drop_last(), id, tid);
        let last = invites.last();
        if last.identity_id == id && last.status == InviteStatus::Pending {
            if last.team_id == tid {
                rest.push(Invite { status: InviteStatus::Accepted, ..last })
            } else {
                rest
            }
        } else {
            rest.push(last)
        }
    }
}

/// After an accept by `id` no pending invite of `id` remains on file.
pub proof fn lemma_accept_invites_no_pending(invites: Seq<Invite>, id: u64, tid: u64)
    ensures
        !has_any_pending_invite(accept_invites(invites, id, tid), id),
    decreases invites.len(),
{
    let res = accept_invites(invites, id, tid);
    if invites.len() > 0 {
        let rest = accept_invites(invites.drop_last(), id, tid);
        lemma_accept_invites_no_pending(invites.drop_last(), id, tid);
        assert forall|k: int|
            0 <= k < res.len() implies !((#[trigger] res[k]).identity_id == id && res[k].status
            == InviteStatus::Pending) by {
            if k < rest.len() {
                assert(res[k] == rest[k]);
                assert(!(rest[k].identity_id == id && rest[k].status == InviteStatus::Pending));
            }
        }
    }
}

/// Every entry of the accepted invite list comes from the old one: a pending
/// entry is an untouched pending entry of another identity, and every entry
/// names a team that already had an invite on file.
pub proof fn lemma_accept_invites_entries(invites: Seq<Invite>, id: u64, tid: u64)
    ensures
        forall|k: int|
            0 <= k < accept_invites(invites, id, tid).len()
                ==> exists|l: int|
                0 <= l < invites.len() && (#[trigger] invites[l]).team_id == (
                #[trigger] accept_invites(invites, id, tid)[k]).team_id,
        forall|k: int|
            0 <= k < accept_invites(invites, id, tid).len() && (#[trigger] accept_invites(
                invites,
                id,
                tid,
            )[k]).status == InviteStatus::Pending ==> accept_invites(invites, id, tid)[k].identity_id
                != id && has_pending_invite(
                invites,
                accept_invites(invites, id, tid)[k].team_id,
                accept_invites(invites, id, tid)[k].identity_id,
            ),
    decreases invites.len(),
{
    let res = accept_invites(invites, id, tid);
    if invites.len() > 0 {
        let prev = invites.drop_last();
        let rest = accept_invites(prev, id, tid);
        lemma_accept_invites_entries(prev, id, tid);
        assert forall|k: int| 0 <= k < res.len() implies exists|l: int|
            0 <= l < invites.len() && (#[trigger] invites[l]).team_id == (
        #[trigger] res[k]).team_id by {
            if k < rest.len() {
                assert(res[k] == rest[k]);
                let l0 = choose|l: int|
                    0 <= l < prev.len() && (#[trigger] prev[l]).team_id == rest[k].team_id;
                assert(invites[l0].team_id == res[k].team_id);
            } else {
                assert(invites[invites.len() - 1].team_id == res[k].team_id);
            }
        }
        assert forall|k: int|
            0 <= k < res.len() && (#[trigger] res[k]).status == InviteStatus::Pending
            implies res[k].identity_id != id && has_pending_invite(
            invites,
            res[k].team_id,
            res[k].identity_id,
        ) by {
            if k < rest.len() {
                assert(res[k] == rest[k]);
                let l0 = choose|l: int|
                    0 <= l < prev.len() && (#[trigger] prev[l]).team_id == rest[k].team_id
                        && prev[l].identity_id == rest[k].identity_id && prev[l].status
                        == InviteStatus::Pending;
                assert(invites[l0] == prev[l0]);
                assert(has_pending_invite(invites, res[k].team_id, res[k].identity_id));
            } else {
                assert(res[k] == invites.last() || res[k].status == InviteStatus::Accepted);
                assert(has_pending_invite(invites, res[k].team_id, res[k].identity_id));
            }
        }
    }
}

/// Accepting keeps pending invites unduplicated.
pub proof fn lemma_accept_invites_pending_unique(invites: Seq<Invite>, id: u64, tid: u64)
    requires
        pending_unique(invites),
    ensures
        pending_unique(accept_invites(invites, id, tid)),
    decreases invites.len(),
{
    let res = accept_invites(invites, id, tid);
    if invites.len() > 0 {
        let prev = invites.drop_last();
        let rest = accept_invites(prev, id, tid);
        assert(forall|k: int, l: int|
            0 <= k < l < prev.len() && (#[trigger] prev[k]).status == InviteStatus::Pending && (
            #[trigger] prev[l]).status == InviteStatus::Pending ==> !(prev[k].team_id
                == prev[l].team_id && prev[k].identity_id == prev[l].identity_id));
        lemma_accept_invites_pending_unique(prev, id, tid);
        lemma_accept_invites_entries(prev, id, tid);
        assert forall|k: int, l: int|
            0 <= k < l < res.len() && (#[trigger] res[k]).status == InviteStatus::Pending && (
            #[trigger] res[l]).status == InviteStatus::Pending
            implies !(res[k].team_id == res[l].team_id && res[k].identity_id
            == res[l].identity_id) by {
            if l < rest.len() {
                assert(res[k] == rest[k] && res[l] == rest[l]);
            } else if res.len() == rest.len() + 1 {
                assert(res[k] == rest[k]);
                if res[k].team_id == res[l].team_id && res[k].identity_id == res[l].identity_id
                    && res[l].status == InviteStatus::Pending {
                    // the pushed entry is pending only when it is the
                    // untouched last entry of the old list
                    assert(res[l] == invites.last());
                    let m = choose|m: int|
                        0 <= m < prev.len() && (#[trigger] prev[m]).team_id == rest[k].team_id
                            && prev[m].identity_id == rest[k].identity_id && prev[m].status
                            == InviteStatus::Pending;
                    assert(invites[m] == prev[m]);
                    assert(!(invites[m].team_id == invites[invites.len() - 1].team_id
                        && invites[m].identity_id == invites[invites.len() - 1].identity_id));
                }
            }
        }
    }
}

#[derive(Clone, Copy, Debug, PartialEq, Eq, Structural)]
pub enum TeamError {
    NotCaptain,
    AlreadyOnTeam,
    NameTaken,
    NoSuchUser,
    AlreadyInvited,
    NoSuchInvite,
    NotOnTeam,
    CannotKickSelf,
    ServerError,
}

impl Store {
    /// Create a team: the creator becomes captain and sole initial member.
    /// Fails when the creator already belongs to a team or the name is taken.
    pub fn create_team(&mut self, creator: u64, name: Vec<u8>) -> (r: Result<u64, TeamError>)
        requires
            old(self).wf(),
        ensures
            final(self).wf(),
            match r {
                Ok(tid) => {
                    &&& !has_team(old(self).teams@, creator)
                    &&& !team_name_taken(old(self).teams@, name@)
                    &&& old(self).next_team_id < u64::MAX
                    &&& tid == old(self).next_team_id
                    &&& final(self).teams@ == old(self).teams@.push(final(self).teams@.last())
                    &&& final(self).teams@.last().id == tid
                    &&& final(self).teams@.last().name@ == name@
                    &&& final(self).teams@.last().captain_id == creator
                    &&& final(self).teams@.last().roster@ == seq![creator]
                    &&& final(self).next_team_id == old(self).next_team_id + 1
                    &&& same_identities(*final(self), *old(self))
                    &&& same_invites(*final(self), *old(self))
                    &&& same_challenges(*final(self), *old(self))
                    &&& same_submissions(*final(self), *old(self))
                },
                Err(e) => {
                    &&& *final(self) == *old(self)
                    &&& (e == TeamError::AlreadyOnTeam <==> has_team(old(self).teams@, creator))
                    &&& (e == TeamError::NameTaken <==> !has_team(old(self).teams@, creator)
                        && team_name_taken(old(self).teams@, name@))
                    &&& (e == TeamError::AlreadyOnTeam || e == TeamError::NameTaken
                        || e == TeamError::ServerError)
                },
            },
            r is Err <==> has_team(old(self).teams@, creator) || team_name_taken(
                old(self).teams@,
                name@,
            ) || old(self).next_team_id == u64::MAX,
    {
        if self.find_team_of_member(creator).is_some() {
            return Err(TeamError::AlreadyOnTeam);
        }
        if self.team_name_taken_exec(&name) {
            return Err(TeamError::NameTaken);
        }
        if self.next_team_id == u64::MAX {
            return Err(TeamError::ServerError);
        }
        let tid = self.next_team_id;
        let mut roster: Vec<u64> = Vec::new();
        roster.push(creator);
        assert(roster@ =~= seq![creator]);
        let team = Team { id: tid, name, captain_id: creator, roster };
        self.teams.push(team);
        self.next_team_id = tid + 1;
        proof {
            let oldt = old(self).teams@;
            let newt = self.teams@;
            assert forall|i: int, j: int|
                0 <= i < j < newt.len() implies (#[trigger] newt[i]).id != (#[trigger] newt[j]).id
                    && newt[i].name@ != newt[j].name@ by {
                if j < oldt.len() {
                    assert(oldt[i].id != oldt[j].id);
                } else {
                    assert(newt[j].id == tid);
                    assert(oldt[i].id < tid);
                    assert(!team_name_taken(oldt, name@));
                    assert(newt[i] == oldt[i]);
                }
            }
            assert forall|i: int| 0 <= i < newt.len() implies (#[trigger] newt[i]).id
                < self.next_team_id by {
                if i < oldt.len() {
                    assert(oldt[i].id < old(self).next_team_id);
                }
            }
            assert forall|i: int| 0 <= i < newt.len() implies (#[trigger] newt[i]).roster@.contains(
                newt[i].captain_id,
            ) by {
                if i < oldt.len() {
                    assert(oldt[i].roster@.contains(oldt[i].captain_id));
                } else {
                    assert(newt[i].roster@[0] == creator);
                }
            }
            assert forall|i: int, k: int, l: int|
                0 <= i < newt.len() && 0 <= k < l < newt[i].roster@.len()
                implies #[trigger] newt[i].roster@[k] != #[trigger] newt[i].roster@[l] by {
                if i < oldt.len() {
                    assert(oldt[i].roster@[k] != oldt[i].roster@[l]);
                }
            }
            assert forall|k: int| 0 <= k < self.invites@.len() implies team_exists(
                newt,
                (#[trigger] self.invites@[k]).team_id,
            ) by {
                assert(team_exists(oldt, self.invites@[k].team_id));
                let w = choose|i: int|
                    0 <= i < oldt.len() && (#[trigger] oldt[i]).id == self.invites@[k].team_id;
                assert(newt[w].id == self.invites@[k].team_id);
            }
            assert forall|i: int, j: int, x: u64|
                0 <= i < newt.len() && 0 <= j < newt.len() && i != j && #[trigger] newt[i].roster@.contains(x)
                implies !(#[trigger] newt[j].roster@.contains(x)) by {
                if i < oldt.len() && j < oldt.len() {
                    assert(!(oldt[i].roster@.contains(x) && oldt[j].roster@.contains(x)));
                } else if j == oldt.len() {
                    // the fresh roster is the singleton of a creator on no
                    // other roster
                    assert(newt[j].roster@ == seq![creator]);
                    if newt[j].roster@.contains(x) {
                        assert(x == creator);
                        assert(newt[i].roster@.contains(creator));
                        assert(has_team(oldt, creator));
                    }
                } else {
                    assert(i == oldt.len());
                    assert(newt[i].roster@ == seq![creator]);
                    assert(newt[i].roster@[0] == creator);
                    assert(x == creator);
                    if newt[j].roster@.contains(x) {
                        assert(has_team(oldt, creator));
                    }
                }
            }
            assert(rosters_disjoint(newt));
            assert forall|k: int|
                0 <= k < self.invites@.len() && (#[trigger] self.invites@[k]).status
                    == InviteStatus::Pending
                implies !on_team_roster(newt, self.invites@[k].team_id, self.invites@[k].identity_id) by {
                let tid0 = self.invites@[k].team_id;
                let id0 = self.invites@[k].identity_id;
                assert(team_exists(oldt, tid0));
                let w = choose|i: int| 0 <= i < oldt.len() && (#[trigger] oldt[i]).id == tid0;
                assert(oldt[w].id < old(self).next_team_id);
                if on_team_roster(newt, tid0, id0) {
                    let m = choose|i: int|
                        0 <= i < newt.len() && (#[trigger] newt[i]).id == tid0
                            && newt[i].roster@.contains(id0);
                    if m < oldt.len() {
                        assert(on_team_roster(oldt, tid0, id0));
                    } else {
                        assert(newt[m].id == tid);
                        assert(false);
                    }
                }
            }
            assert(self.wf());
        }
        Ok(tid)
    }

    /// Whether a pending invite of `id` into team `tid` is on file.
    pub fn has_pending_invite_exec(&self, tid: u64, id: u64) -> (r: bool)
        ensures
            r == has_pending_invite(self.invites@, tid, id),
    {
        let mut k: usize = 0;
        while k < self.invites.len()
            invariant
                k <= self.invites@.len(),
                forall|j: int|
                    0 <= j < k ==> !((#[trigger] self.invites@[j]).team_id == tid
                        && self.invites@[j].identity_id == id && self.invites@[j].status
                        == InviteStatus::Pending),
            decreases self.invites@.len() - k,
        {
            let inv = self.invites[k];
            if inv.team_id == tid && inv.identity_id == id && matches!(inv.status, InviteStatus::Pending) {
                assert(has_pending_invite(self.invites@, tid, id));
                return true;
            }
            k = k + 1;
        }
        false
    }

    /// Record a pending invitation of the identity carrying `target_email`
    /// into the caller's team. Only the current captain of a team may
    /// invite; the target must not already have a team; a duplicate pending
    /// invite is rejected.
    pub fn invite(&mut self, caller: u64, target_email: &Vec<u8>) -> (r: Result<(), TeamError>)
        requires
            old(self).wf(),
        ensures
            final(self).wf(),
            match r {
                Ok(_) => {
                    &&& is_captain(old(self).teams@, caller)
                    &&& email_taken(old(self).identities@, target_email@)
                    &&& !has_team(
                        old(self).teams@,
                        email_identity_id(old(self).identities@, target_email@),
                    )
                    &&& !has_pending_invite(
                        old(self).invites@,
                        captained_team_id(old(self).teams@, caller),
                        email_identity_id(old(self).identities@, target_email@),
                    )
                    &&& final(self).invites@ == old(self).invites@.push(
                        (Invite {
                            team_id: captained_team_id(old(self).teams@, caller),
                            identity_id: email_identity_id(old(self).identities@, target_email@),
                            invited_by: caller,
                            status: InviteStatus::Pending,
                        }),
                    )
                    &&& same_identities(*final(self), *old(self))
                    &&& same_teams(*final(self), *old(self))
                    &&& same_challenges(*final(self), *old(self))
                    &&& same_submissions(*final(self), *old(self))
                },
                Err(e) => {
                    &&& *final(self) == *old(self)
                    &&& (e == TeamError::NotCaptain <==> !is_captain(old(self).teams@, caller))
                    &&& (e == TeamError::NoSuchUser <==> is_captain(old(self).teams@, caller)
                        && !email_taken(old(self).identities@, target_email@))
                    &&& (e == TeamError::AlreadyOnTeam <==> is_captain(old(self).teams@, caller)
                        && email_taken(old(self).identities@, target_email@) && has_team(
                        old(self).teams@,
                        email_identity_id(old(self).identities@, target_email@),
                    ))
                    &&& (e == TeamError::NotCaptain || e == TeamError::NoSuchUser
                        || e == TeamError::AlreadyOnTeam || e == TeamError::AlreadyInvited)
                },
            },
            r is Ok <==> is_captain(old(self).teams@, caller) && email_taken(
                old(self).identities@,
                target_email@,
            ) && !has_team(old(self).teams@, email_identity_id(old(self).identities@, target_email@))
                && !has_pending_invite(
                old(self).invites@,
                captained_team_id(old(self).teams@, caller),
                email_identity_id(old(self).identities@, target_email@),
            ),
    {
        let ti = match self.find_captained_team(caller) {
            Some(i) => i,
            None => {
                return Err(TeamError::NotCaptain);
            },
        };
        proof {
            assert(is_captain(self.teams@, caller));
            let ci = captained_team_idx(self.teams@, caller);
            assert(0 <= ci < self.teams@.len() && self.teams@[ci].captain_id == caller);
            lemma_captain_unique(self.teams@, caller, ti as int, ci);
        }
        let tid = self.teams[ti].id;
        let idx = match self.find_identity_by_email(target_email) {
            Some(i) => i,
            None => {
                return Err(TeamError::NoSuchUser);
            },
        };
        proof {
            assert(email_taken(self.identities@, target_email@));
            let ei = email_identity_idx(self.identities@, target_email@);
            assert(0 <= ei < self.identities@.len() && self.identities@[ei].email@
                == target_email@);
            lemma_email_unique(self.identities@, target_email@, idx as int, ei);
        }
        let target = self.identities[idx].id;
        if self.find_team_of_member(target).is_some() {
            return Err(TeamError::AlreadyOnTeam);
        }
        if self.has_pending_invite_exec(tid, target) {
            return Err(TeamError::AlreadyInvited);
        }
        self.invites.push(
            Invite {
                team_id: tid,
                identity_id: target,
                invited_by: caller,
                status: InviteStatus::Pending,
            },
        );
        proof {
            let teams = self.teams@;
            let oldinv = old(self).invites@;
            let newinv = self.invites@;
            assert forall|k: int| 0 <= k < newinv.len() implies team_exists(
                teams,
                (#[trigger] newinv[k]).team_id,
            ) by {
                if k < oldinv.len() {
                    assert(team_exists(teams, oldinv[k].team_id));
                } else {
                    assert(teams[ti as int].id == tid);
                }
            }
            assert forall|k: int|
                0 <= k < newinv.len() && (#[trigger] newinv[k]).status == InviteStatus::Pending
                implies !on_team_roster(teams, newinv[k].team_id, newinv[k].identity_id) by {
                if k < oldinv.len() {
                    assert(!on_team_roster(teams, oldinv[k].team_id, oldinv[k].identity_id));
                } else {
                    if on_team_roster(teams, tid, target) {
                        let w = choose|i: int|
                            0 <= i < teams.len() && (#[trigger] teams[i]).id == tid
                                && teams[i].roster@.contains(target);
                        assert(has_team(teams, target));
                    }
                }
            }
            assert forall|k: int, l: int|
                0 <= k < l < newinv.len() && (#[trigger] newinv[k]).status == InviteStatus::Pending
                    && (#[trigger] newinv[l]).status == InviteStatus::Pending
                implies !(newinv[k].team_id == newinv[l].team_id && newinv[k].identity_id
                    == newinv[l].identity_id) by {
                if l < oldinv.len() {
                    assert(oldinv[k].status == InviteStatus::Pending ==> oldinv[l].status
                        == InviteStatus::Pending ==> !(oldinv[k].team_id == oldinv[l].team_id
                        && oldinv[k].identity_id == oldinv[l].identity_id));
                } else {
                    if newinv[k].team_id == tid && newinv[k].identity_id == target && newinv[k].status
                        == InviteStatus::Pending {
                        assert(has_pending_invite(oldinv, tid, target));
                    }
                }
            }
            assert(self.wf());
        }
        Ok(())
    }

    /// Index of a pending invite of `id` into team `tid`, if any.
    fn find_pending_invite(&self, tid: u64, id: u64) -> (r: Option<usize>)
        ensures
            match r {
                Some(k) => k < self.invites@.len() && self.invites@[k as int].team_id == tid
                    && self.invites@[k as int].identity_id == id && self.invites@[k as int].status
                    == InviteStatus::Pending,
                None => !has_pending_invite(self.invites@, tid, id),
            },
    {
        let mut k: usize = 0;
        while k < self.invites.len()
            invariant
                k <= self.invites@.len(),
                forall|j: int|
                    0 <= j < k ==> !((#[trigger] self.invites@[j]).team_id == tid
                        && self.invites@[j].identity_id == id && self.invites@[j].status
                        == InviteStatus::Pending),
            decreases self.invites@.len() - k,
        {
            let inv = self.invites[k];
            if inv.team_id == tid && inv.identity_id == id && matches!(inv.status, InviteStatus::Pending) {
                return Some(k);
            }
            k = k + 1;
        }
        None
    }

    /// Accept a pending invite into team `team_id`. The caller must hold
    /// such an invite and must not already be on a team; on success the
    /// caller joins the roster, the invite is marked Accepted, and every
    /// other pending invite of the caller is invalidated. The invite is
    /// looked up first: an accept of an invite no longer on file reports
    /// `NoSuchInvite`, also when the caller has meanwhile joined a team;
    /// `AlreadyOnTeam` is kept for a caller who does hold the invite but
    /// stands on a roster already.
    pub fn accept(&mut self, caller: u64, team_id: u64) -> (r: Result<(), TeamError>)
        requires
            old(self).wf(),
        ensures
            final(self).wf(),
            match r {
                Ok(_) => {
                    &&& !has_team(old(self).teams@, caller)
                    &&& has_pending_invite(old(self).invites@, team_id, caller)
                    &&& final(self).invites@ == accept_invites(old(self).invites@, caller, team_id)
                    &&& !has_any_pending_invite(final(self).invites@, caller)
                    &&& final(self).teams@.len() == old(self).teams@.len()
                    &&& exists|i: int|
                        {
                            &&& 0 <= i < old(self).teams@.len()
                            &&& (#[trigger] old(self).teams@[i]).id == team_id
                            &&& final(self).teams@[i].id == old(self).teams@[i].id
                            &&& final(self).teams@[i].name@ == old(self).teams@[i].name@
                            &&& final(self).teams@[i].captain_id == old(self).teams@[i].captain_id
                            &&& final(self).teams@[i].roster@ == old(self).teams@[i].roster@.push(
                                caller,
                            )
                            &&& forall|j: int|
                                0 <= j < old(self).teams@.len() && j != i
                                    ==> final(self).teams@[j] == old(self).teams@[j]
                        }
                    &&& on_team_roster(final(self).teams@, team_id, caller)
                    &&& final(self).next_team_id == old(self).next_team_id
                    &&& same_identities(*final(self), *old(self))
                    &&& same_challenges(*final(self), *old(self))
                    &&& same_submissions(*final(self), *old(self))
                },
                Err(e) => {
                    &&& *final(self) == *old(self)
                    &&& (e == TeamError::NoSuchInvite <==> !has_pending_invite(
                        old(self).invites@,
                        team_id,
                        caller,
                    ))
                    &&& (e == TeamError::AlreadyOnTeam <==> has_pending_invite(
                        old(self).invites@,
                        team_id,
                        caller,
                    ) && has_team(old(self).teams@, caller))
                    &&& (e == TeamError::AlreadyOnTeam || e == TeamError::NoSuchInvite)
                },
            },
            r is Ok <==> !has_team(old(self).teams@, caller) && has_pending_invite(
                old(self).invites@,
                team_id,
                caller,
            ),
    {
        let inv_k = match self.find_pending_invite(team_id, caller) {
            Some(k) => k,
            None => {
                return Err(TeamError::NoSuchInvite);
            },
        };
        assert(has_pending_invite(self.invites@, team_id, caller));
        if self.find_team_of_member(caller).is_some() {
            return Err(TeamError::AlreadyOnTeam);
        }

        // Rewrite the invite list: mark the accepted invite, drop the
        // caller's other pending invites, keep everything else in order.
        let ghost old_inv = self.invites@;
        let mut rebuilt: Vec<Invite> = Vec::new();
        let mut i: usize = 0;
        while i < self.invites.len()
            invariant
                i <= self.invites@.len(),
                self.invites@ == old_inv,
                rebuilt@ == accept_invites(old_inv.take(i as int), caller, team_id),
            decreases self.invites@.len() - i,
        {
            let inv = self.invites[i];
            proof {
                assert(old_inv.take(i as int + 1).drop_last() =~= old_inv.take(i as int));
                assert(old_inv.take(i as int + 1).last() == old_inv[i as int]);
            }
            if inv.identity_id == caller && matches!(inv.status, InviteStatus::Pending) {
                if inv.team_id == team_id {
                    rebuilt.push(Invite { status: InviteStatus::Accepted, ..inv });
                }
            } else {
                rebuilt.push(inv);
            }
            i = i + 1;
        }
        proof {
            assert(old_inv.take(old_inv.len() as int) =~= old_inv);
        }
        self.invites = rebuilt;

        // Join the roster of the accepted team.
        let ti = match self.find_team_by_id(team_id) {
            Some(i) => i,
            None => {
                proof {
                    assert(invites_teams_exist(old_inv, self.teams@));
                    assert(team_exists(self.teams@, old_inv[inv_k as int].team_id));
                    assert(false);
                }
                return Err(TeamError::ServerError);
            },
        };
        self.teams[ti].roster.push(caller);

        proof {
            let oldt = old(self).teams@;
            let newt = self.teams@;
            let ti = ti as int;
            assert(newt =~= oldt.update(ti, newt[ti]));
            assert(newt[ti].roster@ == oldt[ti].roster@.push(caller));
            lemma_accept_invites_no_pending(old_inv, caller, team_id);
            lemma_accept_invites_entries(old_inv, caller, team_id);
            lemma_accept_invites_pending_unique(old_inv, caller, team_id);

            // rosters stay disjoint and duplicate-free: the caller was on no
            // roster before joining exactly one.
            assert forall|a: int, b: int, x: u64|
                0 <= a < newt.len() && 0 <= b < newt.len() && a != b && #[trigger] newt[a].roster@.contains(x)
                implies !(#[trigger] newt[b].roster@.contains(x)) by {
                if newt[a].roster@.contains(x) && newt[b].roster@.contains(x) {
                    if a != ti && b != ti {
                        assert(oldt[a].roster@.contains(x) && oldt[b].roster@.contains(x));
                    } else {
                        let o = if a == ti { b } else { a };
                        assert(newt[o].roster@.contains(x) && newt[ti].roster@.contains(x));
                        assert(oldt[o].roster@.contains(x));
                        if x == caller {
                            assert(has_team(oldt, caller));
                        } else {
                            let rr = oldt[ti].roster@;
                            let j = choose|j: int| 0 <= j < rr.push(caller).len() && rr.push(caller)[j] == x;
                            assert(rr[j] == x);
                            assert(oldt[ti].roster@.contains(x));
                        }
                    }
                }
            }
            assert forall|a: int, k: int, l: int|
                0 <= a < newt.len() && 0 <= k < l < newt[a].roster@.len()
                implies #[trigger] newt[a].roster@[k] != #[trigger] newt[a].roster@[l] by {
                if a != ti {
                    assert(oldt[a].roster@[k] != oldt[a].roster@[l]);
                } else {
                    let rr = oldt[ti].roster@;
                    if l < rr.len() {
                        assert(rr[k] != rr[l]);
                    } else {
                        assert(newt[a].roster@[l] == caller);
                        assert(newt[a].roster@[k] == rr[k]);
                        if rr[k] == caller {
                            assert(rr.contains(caller));
                            assert(has_team(oldt, caller));
                        }
                    }
                }
            }
            assert forall|a: int| 0 <= a < newt.len() implies (#[trigger] newt[a]).roster@.contains(
                newt[a].captain_id,
            ) by {
                if a != ti {
                    assert(oldt[a].roster@.contains(oldt[a].captain_id));
                } else {
                    let rr = oldt[ti].roster@;
                    assert(rr.contains(oldt[ti].captain_id));
                    let j = choose|j: int| 0 <= j < rr.len() && rr[j] == oldt[ti].captain_id;
                    assert(rr.push(caller)[j] == oldt[ti].captain_id);
                    assert(newt[a].roster@.contains(newt[a].captain_id));
                }
            }
            // invite invariants against the rewritten list and grown roster
            let newinv = self.invites@;
            assert forall|k: int| 0 <= k < newinv.len() implies team_exists(
                newt,
                (#[trigger] newinv[k]).team_id,
            ) by {
                let l0 = choose|l: int|
                    0 <= l < old_inv.len() && (#[trigger] old_inv[l]).team_id == newinv[k].team_id;
                assert(team_exists(oldt, old_inv[l0].team_id));
                let w = choose|w: int|
                    0 <= w < oldt.len() && (#[trigger] oldt[w]).id == old_inv[l0].team_id;
                assert(newt[w].id == newinv[k].team_id);
            }
            assert forall|k: int|
                0 <= k < newinv.len() && (#[trigger] newinv[k]).status == InviteStatus::Pending
                implies !on_team_roster(newt, newinv[k].team_id, newinv[k].identity_id) by {
                assert(newinv[k].identity_id != caller);
                assert(has_pending_invite(old_inv, newinv[k].team_id, newinv[k].identity_id));
                if on_team_roster(newt, newinv[k].team_id, newinv[k].identity_id) {
                    let w = choose|w: int|
                        0 <= w < newt.len() && (#[trigger] newt[w]).id == newinv[k].team_id
                            && newt[w].roster@.contains(newinv[k].identity_id);
                    let l0 = choose|l: int|
                        0 <= l < old_inv.len() && (#[trigger] old_inv[l]).team_id
                            == newinv[k].team_id && old_inv[l].identity_id
                            == newinv[k].identity_id && old_inv[l].status == InviteStatus::Pending;
                    if w == ti {
                        let rr = oldt[ti].roster@;
                        let j = choose|j: int|
                            0 <= j < rr.push(caller).len() && rr.push(caller)[j]
                                == newinv[k].identity_id;
                        assert(rr[j] == newinv[k].identity_id);
                        assert(oldt[w].roster@.contains(newinv[k].identity_id));
                        assert(on_team_roster(oldt, newinv[k].team_id, newinv[k].identity_id));
                    } else {
                        assert(oldt[w].roster@.contains(newinv[k].identity_id));
                        assert(on_team_roster(oldt, newinv[k].team_id, newinv[k].identity_id));
                    }
                }
            }
            assert(on_team_roster(newt, team_id, caller)) by {
                assert(newt[ti].id == team_id);
                assert(newt[ti].roster@[newt[ti].roster@.len() - 1] == caller);
            }
            assert(self.wf());
        }
        Ok(())
    }

    /// Remove `target` from the caller's team. Only the current captain of
    /// the target's team may kick: a caller who captains no team, and a
    /// captain of a different team, both receive `NotCaptain`; `NotOnTeam`
    /// is reserved for a target who stands on no roster at all. The captain
    /// may not kick themself.
    pub fn kick(&mut self, caller: u64, target: u64) -> (r: Result<(), TeamError>)
        requires
            old(self).wf(),
        ensures
            final(self).wf(),
            match r {
                Ok(_) => {
                    &&& is_captain(old(self).teams@, caller)
                    &&& target != caller
                    &&& final(self).teams@.len() == old(self).teams@.len()
                    &&& exists|i: int|
                        {
                            &&& 0 <= i < old(self).teams@.len()
                            &&& (#[trigger] old(self).teams@[i]).captain_id == caller
                            &&& old(self).teams@[i].roster@.contains(target)
                            &&& final(self).teams@[i].id == old(self).teams@[i].id
                            &&& final(self).teams@[i].name@ == old(self).teams@[i].name@
                            &&& final(self).teams@[i].captain_id == old(self).teams@[i].captain_id
                            &&& exists|ri: int|
                                0 <= ri < old(self).teams@[i].roster@.len() && old(
                                    self,
                                ).teams@[i].roster@[ri] == target && final(self).teams@[i].roster@
                                    == (#[trigger] old(self).teams@[i].roster@.remove(ri))
                            &&& forall|j: int|
                                0 <= j < old(self).teams@.len() && j != i
                                    ==> final(self).teams@[j] == old(self).teams@[j]
                        }
                    &&& !has_team(final(self).teams@, target)
                    &&& final(self).next_team_id == old(self).next_team_id
                    &&& same_identities(*final(self), *old(self))
                    &&& same_invites(*final(self), *old(self))
                    &&& same_challenges(*final(self), *old(self))
                    &&& same_submissions(*final(self), *old(self))
                },
                Err(e) => {
                    &&& *final(self) == *old(self)
                    &&& (e == TeamError::NotCaptain <==> !is_captain(old(self).teams@, caller) || (
                    is_captain(old(self).teams@, caller) && target != caller && !old(
                        self,
                    ).teams@[captained_team_idx(old(self).teams@, caller)].roster@.contains(target)
                        && has_team(old(self).teams@, target)))
                    &&& (e == TeamError::CannotKickSelf <==> is_captain(old(self).teams@, caller)
                        && target == caller)
                    &&& (e == TeamError::NotOnTeam <==> is_captain(old(self).teams@, caller)
                        && target != caller && !old(self).teams@[captained_team_idx(
                        old(self).teams@,
                        caller,
                    )].roster@.contains(target) && !has_team(old(self).teams@, target))
                    &&& (e == TeamError::NotCaptain || e == TeamError::CannotKickSelf
                        || e == TeamError::NotOnTeam)
                },
            },
            r is Ok <==> is_captain(old(self).teams@, caller) && target != caller && old(
                self,
            ).teams@[captained_team_idx(old(self).teams@, caller)].roster@.contains(target),
    {
        let ti = match self.find_captained_team(caller) {
            Some(i) => i,
            None => {
                return Err(TeamError::NotCaptain);
            },
        };
        proof {
            assert(is_captain(self.teams@, caller));
            let ci = captained_team_idx(self.teams@, caller);
            assert(0 <= ci < self.teams@.len() && self.teams@[ci].captain_id == caller);
            lemma_captain_unique(self.teams@, caller, ti as int, ci);
        }
        if target == caller {
            return Err(TeamError::CannotKickSelf);
        }
        // locate target on the captain's roster
        let roster_len = self.teams[ti].roster.len();
        let mut ri: usize = 0;
        let mut found: bool = false;
        while ri < roster_len && !found
            invariant
                ti < self.teams@.len(),
                roster_len == self.teams@[ti as int].roster@.len(),
                ri <= roster_len,
                *self == *old(self),
                !found ==> forall|j: int| 0 <= j < ri ==> self.teams@[ti as int].roster@[j] != target,
                found ==> ri < roster_len && self.teams@[ti as int].roster@[ri as int] == target,
            decreases roster_len - ri + (if found { 0int } else { 1int }),
        {
            if self.teams[ti].roster[ri] == target {
                found = true;
            } else {
                ri = ri + 1;
            }
        }
        if !found {
            assert(!self.teams@[ti as int].roster@.contains(target));
            // tell a member of another team apart from a teamless target:
            // the caller does not captain the team the target is on
            return match self.find_team_of_member(target) {
                Some(_) => Err(TeamError::NotCaptain),
                None => Err(TeamError::NotOnTeam),
            };
        }
        assert(self.teams@[ti as int].roster@.contains(target));
        self.teams[ti].roster.remove(ri);
        proof {
            let oldt = old(self).teams@;
            let newt = self.teams@;
            let ti = ti as int;
            let rr = oldt[ti].roster@;
            assert(newt =~= oldt.update(ti, newt[ti]));
            assert(newt[ti].roster@ == rr.remove(ri as int));
            rr.remove_ensures(ri as int);
            // anything on the shrunken roster was on the old one
            assert forall|x: u64| #[trigger] newt[ti].roster@.contains(x) implies rr.contains(x) by {
                let j = choose|j: int| 0 <= j < rr.remove(ri as int).len() && rr.remove(ri as int)[j] == x;
                if j < ri as int {
                    assert(rr[j] == x);
                } else {
                    assert(rr[j + 1] == x);
                }
            }
            assert forall|a: int, b: int, x: u64|
                0 <= a < newt.len() && 0 <= b < newt.len() && a != b && #[trigger] newt[a].roster@.contains(x)
                implies !(#[trigger] newt[b].roster@.contains(x)) by {
                if newt[a].roster@.contains(x) && newt[b].roster@.contains(x) {
                    assert(oldt[a].roster@.contains(x) && oldt[b].roster@.contains(x));
                }
            }
            assert forall|a: int, k: int, l: int|
                0 <= a < newt.len() && 0 <= k < l < newt[a].roster@.len()
                implies #[trigger] newt[a].roster@[k] != #[trigger] newt[a].roster@[l] by {
                if a == ti {
                    let nk: int = if k < ri as int { k } else { k + 1 };
                    let nl: int = if l < ri as int { l } else { l + 1 };
                    assert(newt[a].roster@[k] == rr[nk]);
                    assert(newt[a].roster@[l] == rr[nl]);
                    assert(rr[nk] != rr[nl]);
                } else {
                    assert(oldt[a].roster@[k] != oldt[a].roster@[l]);
                }
            }
            assert forall|a: int| 0 <= a < newt.len() implies (#[trigger] newt[a]).roster@.contains(
                newt[a].captain_id,
            ) by {
                if a != ti {
                    assert(oldt[a].roster@.contains(oldt[a].captain_id));
                } else {
                    assert(rr.contains(caller));
                    let j = choose|j: int| 0 <= j < rr.len() && rr[j] == caller;
                    assert(rr[ri as int] == target && target != caller);
                    if j < ri as int {
                        assert(rr.remove(ri as int)[j] == caller);
                    } else {
                        assert(rr.remove(ri as int)[j - 1] == caller);
                    }
                    assert(newt[a].roster@.contains(caller));
                }
            }
            assert forall|k: int| 0 <= k < self.invites@.len() implies team_exists(
                newt,
                (#[trigger] self.invites@[k]).team_id,
            ) by {
                assert(team_exists(oldt, self.invites@[k].team_id));
                let w = choose|w: int|
                    0 <= w < oldt.len() && (#[trigger] oldt[w]).id == self.invites@[k].team_id;
                assert(newt[w].id == self.invites@[k].team_id);
            }
            assert forall|k: int|
                0 <= k < self.invites@.len() && (#[trigger] self.invites@[k]).status
                    == InviteStatus::Pending
                implies !on_team_roster(newt, self.invites@[k].team_id, self.invites@[k].identity_id) by {
                if on_team_roster(newt, self.invites@[k].team_id, self.invites@[k].identity_id) {
                    let w = choose|w: int|
                        0 <= w < newt.len() && (#[trigger] newt[w]).id == self.invites@[k].team_id
                            && newt[w].roster@.contains(self.invites@[k].identity_id);
                    assert(oldt[w].roster@.contains(self.invites@[k].identity_id));
                    assert(on_team_roster(oldt, self.invites@[k].team_id, self.invites@[k].identity_id));
                }
            }
            assert(!has_team(newt, target)) by {
                if has_team(newt, target) {
                    let w = choose|w: int| 0 <= w < newt.len() && (#[trigger] newt[w]).roster@.contains(target);
                    if w == ti {
                        let j = choose|j: int|
                            0 <= j < rr.remove(ri as int).len() && rr.remove(ri as int)[j] == target;
                        if j < ri as int {
                            assert(rr[j] == target && rr[ri as int] == target);
                        } else {
                            assert(rr[j + 1] == target && rr[ri as int] == target);
                        }
                    } else {
                        assert(oldt[w].roster@.contains(target));
                        assert(oldt[ti].roster@.contains(target));
                    }
                }
            }
            assert(self.wf());
        }
        Ok(())
    }
}

/// Read-only projection of a caller's team.
pub struct TeamView {
    pub team_id: u64,
    pub name: Vec<u8>,
    pub captain_id: u64,
    pub roster: Vec<u64>,
    pub pending_invites: Vec<u64>,
}

/// Identity ids of the pending invites into team `tid`, in file order.
pub open spec fn pending_ids(invites: Seq<Invite>, tid: u64) -> Seq<u64>
    decreases invites.len(),
{
    if invites.len() == 0 {
        Seq::empty()
    } else {
        let rest = pending_ids(invites.drop_last(), tid);
        let last = invites.last();
        if last.team_id == tid && last.status == InviteStatus::Pending {
            rest.push(last.identity_id)
        } else {
            rest
        }
    }
}

impl Store {
    /// The caller's team: roster for every member, pending invites only for
    /// the captain.
    pub fn profile(&self, caller: u64) -> (r: Result<TeamView, TeamError>)
        requires
            self.wf(),
        ensures
            match r {
                Ok(v) => {
                    &&& has_team(self.teams@, caller)
                    &&& v.team_id == self.teams@[member_team_idx(self.teams@, caller)].id
                    &&& v.name@ == self.teams@[member_team_idx(self.teams@, caller)].name@
                    &&& v.captain_id == self.teams@[member_team_idx(self.teams@, caller)].captain_id
                    &&& v.roster@ == self.teams@[member_team_idx(self.teams@, caller)].roster@
                    &&& v.pending_invites@ == if v.captain_id == caller {
                        pending_ids(self.invites@, v.team_id)
                    } else {
                        Seq::<u64>::empty()
                    }
                },
                Err(e) => {
                    &&& e == TeamError::NotOnTeam
                    &&& !has_team(self.teams@, caller)
                },
            },
            r is Ok <==> has_team(self.teams@, caller),
    {
        let ti = match self.find_team_of_member(caller) {
            Some(i) => i,
            None => {
                return Err(TeamError::NotOnTeam);
            },
        };
        proof {
            assert(has_team(self.teams@, caller));
            let mi = member_team_idx(self.teams@, caller);
            assert(0 <= mi < self.teams@.len() && self.teams@[mi].roster@.contains(caller));
            lemma_member_of_at_most_one_team(self.teams@, caller, ti as int, mi);
        }
        let team = &self.teams[ti];
        let tid = team.id;
        let mut pending: Vec<u64> = Vec::new();
        if team.captain_id == caller {
            let mut k: usize = 0;
            while k < self.invites.len()
                invariant
                    k <= self.invites@.len(),
                    pending@ == pending_ids(self.invites@.take(k as int), tid),
                decreases self.invites@.len() - k,
            {
                let inv = self.invites[k];
                proof {
                    assert(self.invites@.take(k as int + 1).drop_last() =~= self.invites@.take(
                        k as int,
                    ));
                    assert(self.invites@.take(k as int + 1).last() == self.invites@[k as int]);
                }
                if inv.team_id == tid && matches!(inv.status, InviteStatus::Pending) {
                    pending.push(inv.identity_id);
                }
                k = k + 1;
            }
            proof {
                assert(self.invites@.take(self.invites@.len() as int) =~= self.invites@);
            }
        }
        Ok(TeamView {
            team_id: tid,
            name: copy_bytes(&team.name),
            captain_id: team.captain_id,
            roster: copy_u64s(&team.roster),
            pending_invites: pending,
        })
    }
}

/// Accepting one invite invalidates the caller's other pending invites: in
/// the invite list `accept` leaves behind, no pending invite of `id` to any
/// team remains, so by `accept`'s contract any further accept attempt by
/// `id` is refused with `NoSuchInvite`.
pub proof fn lemma_accept_invalidates_remaining(
    invites: Seq<Invite>,
    id: u64,
    tid: u64,
    other_tid: u64,
)
    ensures
        !has_pending_invite(accept_invites(invites, id, tid), other_tid, id),
{
    lemma_accept_invites_no_pending(invites, id, tid);
    if has_pending_invite(accept_invites(invites, id, tid), other_tid, id) {
        let res = accept_invites(invites, id, tid);
        let k = choose|k: int|
            0 <= k < res.len() && (#[trigger] res[k]).team_id == other_tid && res[k].identity_id
                == id && res[k].status == InviteStatus::Pending;
        assert(has_any_pending_invite(res, id));
    }
}

/// Only the captain of a team reaches it through `invite` and `kick`: a
/// caller who captains no team is refused with `NotCaptain` by their
/// contracts, `kick` refuses a captain of a different team with
/// `NotCaptain` as well, and a caller who captains a different team directs
/// `invite` at that team, never at `tid`.
pub proof fn lemma_only_captain_reaches_team(teams: Seq<Team>, caller: u64, tid: u64)
    requires
        rosters_disjoint(teams),
        crate::store::captains_on_roster(teams),
        is_captain(teams, caller),
        !is_captain_of(teams, tid, caller),
    ensures
        captained_team_id(teams, caller) != tid,
{
    let ci = captained_team_idx(teams, caller);
    assert(0 <= ci < teams.len() && teams[ci].captain_id == caller);
    if teams[ci].id == tid {
        assert(is_captain_of(teams, tid, caller));
    }
}

} // verus!
