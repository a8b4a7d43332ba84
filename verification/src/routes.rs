//! The routing table and the request dispatcher: each route declares its
//! guard chain, the dispatcher runs the chain in order and, only when every
//! stage passes, hands the request to its handler; handler results and
//! rejections map to status codes (success 200, validation 400, missing or
//! bad credentials 401, missing rights 403, infrastructure 500).

use vstd::prelude::*;

use crate::bytes::bytes_eq;
use crate::credential::{credential_hash_spec, credentials_match, UserError};
use crate::pipeline::{
    chain_spec, lemma_chain_attaches_claims, run_chain, Guard, Rejection, RequestCtx, TeamMode,
};
use crate::scoring::{
    entry_matches, solved, sorted_entries, ChallengePublic, ScoreboardEntry, ScoreboardOptions,
    SubmissionResult, SubmitError,
};
use crate::store::{
    captained_team_id, captained_team_idx, challenge_exists, email_identity_id, email_taken,
    has_any_pending_invite, has_pending_invite, has_team, is_captain,
    lemma_member_of_at_most_one_team, member_team_id, member_team_idx, name_taken, on_team_roster,
    same_challenges, same_identities, same_invites, same_submissions, same_teams, team_name_taken,
    Invite, InviteStatus, Store,
};
use crate::team::{accept_invites, TeamError, TeamView};
use crate::token::{issue_spec, verify, verify_spec, SessionClaims, Token};

verus! {

#[derive(Clone, Copy, Debug, PartialEq, Eq, Structural)]
pub enum Method {
    Get,
    Post,
}

#[derive(Clone, Copy, Debug, PartialEq, Eq, Structural)]
pub enum Route {
    Scoreboard,
    ChalList,
    ChalSubmit,
    TeamCreate,
    TeamMe,
    TeamAccept,
    TeamInvite,
    TeamKick,
    UserLogin,
    UserRegister,
}

/// The path bytes of a route ("/scoreboard", "/chal/list", "/chal/submit",
/// "/team/create", "/team/me", "/team/accept", "/team/manage/invite",
/// "/team/manage/kick", "/user/login", "/user/register").
pub open spec fn path_of(r: Route) -> Seq<u8> {
    match r {
        Route::Scoreboard => seq![47u8, 115, 99, 111, 114, 101, 98, 111, 97, 114, 100],
        Route::ChalList => seq![47u8, 99, 104, 97, 108, 47, 108, 105, 115, 116],
        Route::ChalSubmit => seq![47u8, 99, 104, 97, 108, 47, 115, 117, 98, 109, 105, 116],
        Route::TeamCreate => seq![47u8, 116, 101, 97, 109, 47, 99, 114, 101, 97, 116, 101],
        Route::TeamMe => seq![47u8, 116, 101, 97, 109, 47, 109, 101],
        Route::TeamAccept => seq![47u8, 116, 101, 97, 109, 47, 97, 99, 99, 101, 112, 116],
        Route::TeamInvite => seq![
            47u8,
            116,
            101,
            97,
            109,
            47,
            109,
            97,
            110,
            97,
            103,
            101,
            47,
            105,
            110,
            118,
            105,
            116,
            101,
        ],
        Route::TeamKick => seq![
            47u8,
            116,
            101,
            97,
            109,
            47,
            109,
            97,
            110,
            97,
            103,
            101,
            47,
            107,
            105,
            99,
            107,
        ],
        Route::UserLogin => seq![47u8, 117, 115, 101, 114, 47, 108, 111, 103, 105, 110],
        Route::UserRegister => seq![
            47u8,
            117,
            115,
            101,
            114,
            47,
            114,
            101,
            103,
            105,
            115,
            116,
            101,
            114,
        ],
    }
}

/// The method each route answers to.
pub open spec fn method_of(r: Route) -> Method {
    match r {
        Route::Scoreboard => Method::Get,
        Route::ChalList => Method::Get,
        Route::TeamMe => Method::Get,
        _ => Method::Post,
    }
}

/// The declared guard chain of each route: the scoreboard, the challenge
/// routes and the credential routes are open; the team routes demand
/// authentication; the manage routes demand an active membership as well.
pub open spec fn guard_chain_spec(r: Route) -> Seq<Guard> {
    match r {
        Route::Scoreboard => Seq::empty(),
        Route::ChalList => Seq::empty(),
        Route::ChalSubmit => Seq::empty(),
        Route::UserLogin => Seq::empty(),
        Route::UserRegister => Seq::empty(),
        Route::TeamCreate => seq![Guard::Authentication],
        Route::TeamMe => seq![Guard::Authentication],
        Route::TeamAccept => seq![Guard::Authentication],
        Route::TeamInvite => seq![
            Guard::Authentication,
            Guard::TeamMembership(TeamMode::ActiveMember),
        ],
        Route::TeamKick => seq![
            Guard::Authentication,
            Guard::TeamMembership(TeamMode::ActiveMember),
        ],
    }
}

/// What `route_of` resolves: the route whose method and path both match.
pub open spec fn route_of_spec(m: Method, path: Seq<u8>) -> Option<Route> {
    if m == Method::Get {
        if path == path_of(Route::Scoreboard) {
            Some(Route::Scoreboard)
        } else if path == path_of(Route::ChalList) {
            Some(Route::ChalList)
        } else if path == path_of(Route::TeamMe) {
            Some(Route::TeamMe)
        } else {
            None
        }
    } else {
        if path == path_of(Route::ChalSubmit) {
            Some(Route::ChalSubmit)
        } else if path == path_of(Route::TeamCreate) {
            Some(Route::TeamCreate)
        } else if path == path_of(Route::TeamAccept) {
            Some(Route::TeamAccept)
        } else if path == path_of(Route::TeamInvite) {
            Some(Route::TeamInvite)
        } else if path == path_of(Route::TeamKick) {
            Some(Route::TeamKick)
        } else if path == path_of(Route::UserLogin) {
            Some(Route::UserLogin)
        } else if path == path_of(Route::UserRegister) {
            Some(Route::UserRegister)
        } else {
            None
        }
    }
}

/// The path bytes of a route, as a value.
pub fn route_path(r: Route) -> (p: Vec<u8>)
    ensures
        p@ == path_of(r),
{
    let p: Vec<u8> = match r {
        Route::Scoreboard => vec![47u8, 115, 99, 111, 114, 101, 98, 111, 97, 114, 100],
        Route::ChalList => vec![47u8, 99, 104, 97, 108, 47, 108, 105, 115, 116],
        Route::ChalSubmit => vec![47u8, 99, 104, 97, 108, 47, 115, 117, 98, 109, 105, 116],
        Route::TeamCreate => vec![47u8, 116, 101, 97, 109, 47, 99, 114, 101, 97, 116, 101],
        Route::TeamMe => vec![47u8, 116, 101, 97, 109, 47, 109, 101],
        Route::TeamAccept => vec![47u8, 116, 101, 97, 109, 47, 97, 99, 99, 101, 112, 116],
        Route::TeamInvite => vec![
            47u8,
            116,
            101,
            97,
            109,
            47,
            109,
            97,
            110,
            97,
            103,
            101,
            47,
            105,
            110,
            118,
            105,
            116,
            101,
        ],
        Route::TeamKick => vec![
            47u8,
            116,
            101,
            97,
            109,
            47,
            109,
            97,
            110,
            97,
            103,
            101,
            47,
            107,
            105,
            99,
            107,
        ],
        Route::UserLogin => vec![47u8, 117, 115, 101, 114, 47, 108, 111, 103, 105, 110],
        Route::UserRegister => vec![
            47u8,
            117,
            115,
            101,
            114,
            47,
            114,
            101,
            103,
            105,
            115,
            116,
            101,
            114,
        ],
    };
    proof {
        assert(p@ =~= path_of(r));
    }
    p
}

/// Resolve a request line against the routing table.
pub fn route_of(m: Method, path: &Vec<u8>) -> (r: Option<Route>)
    ensures
        r == route_of_spec(m, path@),
{
    match m {
        Method::Get => {
            if bytes_eq(path, &route_path(Route::Scoreboard)) {
                Some(Route::Scoreboard)
            } else if bytes_eq(path, &route_path(Route::ChalList)) {
                Some(Route::ChalList)
            } else if bytes_eq(path, &route_path(Route::TeamMe)) {
                Some(Route::TeamMe)
            } else {
                None
            }
        },
        Method::Post => {
            if bytes_eq(path, &route_path(Route::ChalSubmit)) {
                Some(Route::ChalSubmit)
            } else if bytes_eq(path, &route_path(Route::TeamCreate)) {
                Some(Route::TeamCreate)
            } else if bytes_eq(path, &route_path(Route::TeamAccept)) {
                Some(Route::TeamAccept)
            } else if bytes_eq(path, &route_path(Route::TeamInvite)) {
                Some(Route::TeamInvite)
            } else if bytes_eq(path, &route_path(Route::TeamKick)) {
                Some(Route::TeamKick)
            } else if bytes_eq(path, &route_path(Route::UserLogin)) {
                Some(Route::UserLogin)
            } else if bytes_eq(path, &route_path(Route::UserRegister)) {
                Some(Route::UserRegister)
            } else {
                None
            }
        },
    }
}

/// A parsed request body, one variant per route.
pub enum ApiRequest {
    Scoreboard(ScoreboardOptions),
    ChalList,
    ChalSubmit { identity_id: u64, team_id: u64, challenge_id: u64, text: Vec<u8> },
    TeamCreate { name: Vec<u8> },
    TeamMe,
    TeamAccept { team_id: u64 },
    TeamInvite { email: Vec<u8> },
    TeamKick { target: u64 },
    UserLogin { email: Vec<u8>, password: Vec<u8> },
    UserRegister { username: Vec<u8>, email: Vec<u8>, password: Vec<u8> },
}

/// The route a request body belongs to.
pub open spec fn route_of_request(req: ApiRequest) -> Route {
    match req {
        ApiRequest::Scoreboard(_) => Route::Scoreboard,
        ApiRequest::ChalList => Route::ChalList,
        ApiRequest::ChalSubmit { .. } => Route::ChalSubmit,
        ApiRequest::TeamCreate { .. } => Route::TeamCreate,
        ApiRequest::TeamMe => Route::TeamMe,
        ApiRequest::TeamAccept { .. } => Route::TeamAccept,
        ApiRequest::TeamInvite { .. } => Route::TeamInvite,
        ApiRequest::TeamKick { .. } => Route::TeamKick,
        ApiRequest::UserLogin { .. } => Route::UserLogin,
        ApiRequest::UserRegister { .. } => Route::UserRegister,
    }
}

/// The route a request body belongs to, as a value.
pub fn request_route(req: &ApiRequest) -> (r: Route)
    ensures
        r == route_of_request(*req),
{
    match req {
        ApiRequest::Scoreboard(_) => Route::Scoreboard,
        ApiRequest::ChalList => Route::ChalList,
        ApiRequest::ChalSubmit { .. } => Route::ChalSubmit,
        ApiRequest::TeamCreate { .. } => Route::TeamCreate,
        ApiRequest::TeamMe => Route::TeamMe,
        ApiRequest::TeamAccept { .. } => Route::TeamAccept,
        ApiRequest::TeamInvite { .. } => Route::TeamInvite,
        ApiRequest::TeamKick { .. } => Route::TeamKick,
        ApiRequest::UserLogin { .. } => Route::UserLogin,
        ApiRequest::UserRegister { .. } => Route::UserRegister,
    }
}

/// A serialisable response body.
pub enum ApiBody {
    Empty,
    Token(Token),
    Team(TeamView),
    Outcome(SubmissionResult),
    Rows(Vec<ScoreboardEntry>),
    Challenges(Vec<ChallengePublic>),
}

/// A typed response: the status code and the body the transport serialises.
pub struct ApiResponse {
    pub status: u16,
    pub body: ApiBody,
}

/// Status of a pipeline rejection: missing or bad credentials 401, missing
/// membership 403.
pub open spec fn rejection_status(r: Rejection) -> u16 {
    match r {
        Rejection::Unauthorized => 401,
        Rejection::Forbidden => 403,
    }
}

/// Status of a credential-service error.
pub open spec fn user_error_status(e: UserError) -> u16 {
    match e {
        UserError::AlreadyRegistered => 400,
        UserError::BadUsernameOrPassword => 401,
        UserError::ServerError => 500,
    }
}

/// Status of a team-lifecycle error: missing rights 403, conflicting or
/// malformed input 400, infrastructure 500.
pub open spec fn team_error_status(e: TeamError) -> u16 {
    match e {
        TeamError::NotCaptain => 403,
        TeamError::NotOnTeam => 403,
        TeamError::ServerError => 500,
        _ => 400,
    }
}

/// Status of a submission error.
pub open spec fn submit_error_status(e: SubmitError) -> u16 {
    match e {
        SubmitError::NoSuchChallenge => 400,
        SubmitError::ServerError => 500,
    }
}

fn rejection_status_exec(r: Rejection) -> (s: u16)
    ensures
        s == rejection_status(r),
{
    match r {
        Rejection::Unauthorized => 401,
        Rejection::Forbidden => 403,
    }
}

fn user_error_status_exec(e: UserError) -> (s: u16)
    ensures
        s == user_error_status(e),
{
    match e {
        UserError::AlreadyRegistered => 400,
        UserError::BadUsernameOrPassword => 401,
        UserError::ServerError => 500,
    }
}

fn team_error_status_exec(e: TeamError) -> (s: u16)
    ensures
        s == team_error_status(e),
{
    match e {
        TeamError::NotCaptain => 403,
        TeamError::NotOnTeam => 403,
        TeamError::ServerError => 500,
        _ => 400,
    }
}

fn submit_error_status_exec(e: SubmitError) -> (s: u16)
    ensures
        s == submit_error_status(e),
{
    match e {
        SubmitError::NoSuchChallenge => 400,
        SubmitError::ServerError => 500,
    }
}

/// The declared guard chain of a route, as a value.
pub fn guard_chain(r: Route) -> (g: Vec<Guard>)
    ensures
        g@ == guard_chain_spec(r),
{
    let g: Vec<Guard> = match r {
        Route::Scoreboard => Vec::new(),
        Route::ChalList => Vec::new(),
        Route::ChalSubmit => Vec::new(),
        Route::UserLogin => Vec::new(),
        Route::UserRegister => Vec::new(),
        Route::TeamCreate => vec![Guard::Authentication],
        Route::TeamMe => vec![Guard::Authentication],
        Route::TeamAccept => vec![Guard::Authentication],
        Route::TeamInvite => vec![
            Guard::Authentication,
            Guard::TeamMembership(TeamMode::ActiveMember),
        ],
        Route::TeamKick => vec![
            Guard::Authentication,
            Guard::TeamMembership(TeamMode::ActiveMember),
        ],
    };
    proof {
        assert(g@ =~= guard_chain_spec(r));
    }
    g
}

/// What a served flag submission guarantees, for the effective submitter
/// and team the dispatcher resolved: the row is recorded with exactly those,
/// the outcome is the exact flag match, and only the first correct attempt
/// of the pair scores.
pub open spec fn chal_submit_post(
    pre: Store,
    post: Store,
    eff_identity: u64,
    eff_team: u64,
    challenge_id: u64,
    text: Seq<u8>,
    now: u64,
    resp: ApiResponse,
) -> bool {
    &&& (resp.status == 200 <==> challenge_exists(pre.challenges@, challenge_id))
    &&& (resp.status == 200 ==> (resp.body matches ApiBody::Outcome(res) && {
        &&& (res.correct <==> text == pre.challenges@[choose|i: int|
            0 <= i < pre.challenges@.len() && (#[trigger] pre.challenges@[i]).id
                == challenge_id].flag@)
        &&& (res.scoring <==> res.correct && !solved(pre.submissions@, eff_team, challenge_id))
        &&& post.submissions@ == pre.submissions@.push(post.submissions@.last())
        &&& post.submissions@.last().identity_id == eff_identity
        &&& post.submissions@.last().team_id == eff_team
        &&& post.submissions@.last().challenge_id == challenge_id
        &&& post.submissions@.last().text@ == text
        &&& post.submissions@.last().timestamp == now
        &&& (post.submissions@.last().correct <==> res.correct)
        &&& same_identities(post, pre)
        &&& same_teams(post, pre)
        &&& same_invites(post, pre)
        &&& same_challenges(post, pre)
    }))
    &&& (resp.status != 200 ==> post == pre && resp.status == 400)
}

/// What the dispatcher guarantees. A rejected guard chain maps to its
/// status code and leaves the store untouched; a passed chain hands the
/// request to its handler under the claims the chain attached, and the
/// handler's typed outcome decides the status by the tables above; each
/// success arm restates the handler's state transition, and every failure
/// arm leaves the store as it was.
pub open spec fn dispatch_spec(
    pre: Store,
    post: Store,
    secret: u64,
    now: u64,
    token_ttl: u64,
    token: Option<Token>,
    req: ApiRequest,
    resp: ApiResponse,
) -> bool {
    let ctx0 = RequestCtx { token, claims: None, team_id: None };
    match chain_spec(pre.teams@, secret, now, ctx0, guard_chain_spec(route_of_request(req))) {
        Err(rej) => post == pre && resp.status == rejection_status(rej) && resp.body is Empty,
        Ok(ctx) => match req {
            ApiRequest::Scoreboard(opts) => {
                &&& post == pre
                &&& resp.status == 200
                &&& (resp.body matches ApiBody::Rows(rows) && {
                    &&& sorted_entries(rows@)
                    &&& forall|k: int|
                        0 <= k < rows@.len() ==> entry_matches(
                            pre.teams@,
                            pre.challenges@,
                            pre.submissions@,
                            opts.from_ts,
                            opts.until_ts,
                            #[trigger] rows@[k],
                        ) && !opts.exclude_teams@.contains(rows@[k].team_id)
                    &&& forall|t: int|
                        0 <= t < pre.teams@.len() && !opts.exclude_teams@.contains(
                            (#[trigger] pre.teams@[t]).id,
                        ) ==> exists|k: int|
                            0 <= k < rows@.len() && (#[trigger] rows@[k]).team_id
                                == pre.teams@[t].id
                    &&& forall|k: int, l: int|
                        0 <= k < l < rows@.len() ==> (#[trigger] rows@[k]).team_id != (
                        #[trigger] rows@[l]).team_id
                })
            },
            ApiRequest::ChalList => {
                &&& post == pre
                &&& resp.status == 200
                &&& (resp.body matches ApiBody::Challenges(listed) && {
                    &&& listed@.len() == pre.challenges@.len()
                    &&& forall|i: int|
                        0 <= i < listed@.len() ==> (#[trigger] listed@[i]).id
                            == pre.challenges@[i].id && listed@[i].title@
                            == pre.challenges@[i].title@ && listed@[i].description@
                            == pre.challenges@[i].description@ && listed@[i].value
                            == pre.challenges@[i].value
                })
            },
            ApiRequest::ChalSubmit { identity_id, team_id, challenge_id, text } => match token {
                Some(t) => match verify_spec(secret, t, now) {
                    Err(_) => post == pre && resp.status == 401 && resp.body is Empty,
                    Ok(c) => chal_submit_post(
                        pre,
                        post,
                        c.identity_id,
                        if has_team(pre.teams@, c.identity_id) {
                            member_team_id(pre.teams@, c.identity_id)
                        } else {
                            team_id
                        },
                        challenge_id,
                        text@,
                        now,
                        resp,
                    ),
                },
                None => chal_submit_post(pre, post, identity_id, team_id, challenge_id, text@, now, resp),
            },
            ApiRequest::TeamCreate { name } => {
                &&& ctx.claims is Some
                &&& (ctx.claims matches Some(c) ==> {
                    &&& (resp.status == 200 <==> !has_team(pre.teams@, c.identity_id)
                        && !team_name_taken(pre.teams@, name@) && pre.next_team_id < u64::MAX)
                    &&& (resp.status == 200 ==> {
                        &&& post.teams@ == pre.teams@.push(post.teams@.last())
                        &&& post.teams@.last().id == pre.next_team_id
                        &&& post.teams@.last().name@ == name@
                        &&& post.teams@.last().captain_id == c.identity_id
                        &&& post.teams@.last().roster@ == seq![c.identity_id]
                        &&& post.next_team_id == pre.next_team_id + 1
                        &&& same_identities(post, pre)
                        &&& same_invites(post, pre)
                        &&& same_challenges(post, pre)
                        &&& same_submissions(post, pre)
                    })
                    &&& (resp.status != 200 ==> post == pre)
                })
            },
            ApiRequest::TeamMe => {
                &&& post == pre
                &&& ctx.claims is Some
                &&& (ctx.claims matches Some(c) ==> {
                    &&& (resp.status == 200 <==> has_team(pre.teams@, c.identity_id))
                    &&& (resp.status == 200 ==> (resp.body matches ApiBody::Team(v) && v.roster@
                        == pre.teams@[member_team_idx(pre.teams@, c.identity_id)].roster@ && v.team_id
                        == pre.teams@[member_team_idx(pre.teams@, c.identity_id)].id))
                    &&& (resp.status != 200 ==> resp.status == 403)
                })
            },
            ApiRequest::TeamAccept { team_id } => {
                &&& ctx.claims is Some
                &&& (ctx.claims matches Some(c) ==> {
                    &&& (resp.status == 200 <==> !has_team(pre.teams@, c.identity_id)
                        && has_pending_invite(pre.invites@, team_id, c.identity_id))
                    &&& (resp.status == 200 ==> {
                        &&& post.invites@ == accept_invites(pre.invites@, c.identity_id, team_id)
                        &&& !has_any_pending_invite(post.invites@, c.identity_id)
                        &&& on_team_roster(post.teams@, team_id, c.identity_id)
                        &&& post.teams@.len() == pre.teams@.len()
                        &&& exists|i: int|
                            {
                                &&& 0 <= i < pre.teams@.len()
                                &&& (#[trigger] pre.teams@[i]).id == team_id
                                &&& post.teams@[i].id == pre.teams@[i].id
                                &&& post.teams@[i].name@ == pre.teams@[i].name@
                                &&& post.teams@[i].captain_id == pre.teams@[i].captain_id
                                &&& post.teams@[i].roster@ == pre.teams@[i].roster@.push(
                                    c.identity_id,
                                )
                                &&& forall|j: int|
                                    0 <= j < pre.teams@.len() && j != i ==> post.teams@[j]
                                        == pre.teams@[j]
                            }
                        &&& post.next_team_id == pre.next_team_id
                        &&& same_identities(post, pre)
                        &&& same_challenges(post, pre)
                        &&& same_submissions(post, pre)
                    })
                    &&& (resp.status != 200 ==> post == pre)
                })
            },
            ApiRequest::TeamInvite { email } => {
                &&& ctx.claims is Some
                &&& (ctx.claims matches Some(c) ==> {
                    &&& (resp.status == 200 <==> is_captain(pre.teams@, c.identity_id)
                        && email_taken(pre.identities@, email@) && !has_team(
                        pre.teams@,
                        email_identity_id(pre.identities@, email@),
                    ) && !has_pending_invite(
                        pre.invites@,
                        captained_team_id(pre.teams@, c.identity_id),
                        email_identity_id(pre.identities@, email@),
                    ))
                    &&& (resp.status == 403 <==> !is_captain(pre.teams@, c.identity_id))
                    &&& (resp.status == 200 ==> {
                        &&& post.invites@ == pre.invites@.push(
                            (Invite {
                                team_id: captained_team_id(pre.teams@, c.identity_id),
                                identity_id: email_identity_id(pre.identities@, email@),
                                invited_by: c.identity_id,
                                status: InviteStatus::Pending,
                            }),
                        )
                        &&& same_identities(post, pre)
                        &&& same_teams(post, pre)
                        &&& same_challenges(post, pre)
                        &&& same_submissions(post, pre)
                    })
                    &&& (resp.status != 200 ==> post == pre)
                })
            },
            ApiRequest::TeamKick { target } => {
                &&& ctx.claims is Some
                &&& (ctx.claims matches Some(c) ==> {
                    &&& (resp.status == 200 <==> is_captain(pre.teams@, c.identity_id) && target
                        != c.identity_id && pre.teams@[captained_team_idx(
                        pre.teams@,
                        c.identity_id,
                    )].roster@.contains(target))
                    &&& (resp.status == 403 <==> !is_captain(pre.teams@, c.identity_id) || (
                    is_captain(pre.teams@, c.identity_id) && target != c.identity_id
                        && !pre.teams@[captained_team_idx(
                        pre.teams@,
                        c.identity_id,
                    )].roster@.contains(target)))
                    &&& (resp.status == 200 ==> {
                        &&& !has_team(post.teams@, target)
                        &&& post.teams@.len() == pre.teams@.len()
                        &&& exists|i: int|
                            {
                                &&& 0 <= i < pre.teams@.len()
                                &&& (#[trigger] pre.teams@[i]).captain_id == c.identity_id
                                &&& pre.teams@[i].roster@.contains(target)
                                &&& post.teams@[i].id == pre.teams@[i].id
                                &&& post.teams@[i].name@ == pre.teams@[i].name@
                                &&& post.teams@[i].captain_id == pre.teams@[i].captain_id
                                &&& exists|ri: int|
                                    0 <= ri < pre.teams@[i].roster@.len() && pre.teams@[i].roster@[ri]
                                        == target && post.teams@[i].roster@ == (
                                    #[trigger] pre.teams@[i].roster@.remove(ri))
                                &&& forall|j: int|
                                    0 <= j < pre.teams@.len() && j != i ==> post.teams@[j]
                                        == pre.teams@[j]
                            }
                        &&& post.next_team_id == pre.next_team_id
                        &&& same_identities(post, pre)
                        &&& same_invites(post, pre)
                        &&& same_challenges(post, pre)
                        &&& same_submissions(post, pre)
                    })
                    &&& (resp.status != 200 ==> post == pre)
                })
            },
            ApiRequest::UserLogin { email, password } => {
                &&& post == pre
                &&& (resp.status == 200 <==> credentials_match(pre.identities@, email@, password@)
                    && now + token_ttl <= u64::MAX)
                &&& (resp.status == 401 <==> !credentials_match(pre.identities@, email@, password@))
                &&& (resp.status == 200 ==> (resp.body matches ApiBody::Token(t) && t
                    == issue_spec(
                    secret,
                    (SessionClaims {
                        identity_id: email_identity_id(pre.identities@, email@),
                        issued_at: now,
                        expires_at: (now + token_ttl) as u64,
                    }),
                )))
            },
            ApiRequest::UserRegister { username, email, password } => {
                &&& (resp.status == 200 <==> !email_taken(pre.identities@, email@) && !name_taken(
                    pre.identities@,
                    username@,
                ) && pre.next_identity_id < u64::MAX && now + token_ttl <= u64::MAX)
                &&& (resp.status == 400 <==> email_taken(pre.identities@, email@) || name_taken(
                    pre.identities@,
                    username@,
                ))
                &&& (resp.status == 200 ==> (resp.body matches ApiBody::Token(t) && t
                    == issue_spec(
                    secret,
                    (SessionClaims {
                        identity_id: pre.next_identity_id,
                        issued_at: now,
                        expires_at: (now + token_ttl) as u64,
                    }),
                )))
                &&& (resp.status == 200 ==> {
                    &&& post.identities@ == pre.identities@.push(post.identities@.last())
                    &&& post.identities@.last().id == pre.next_identity_id
                    &&& post.identities@.last().name@ == username@
                    &&& post.identities@.last().email@ == email@
                    &&& post.identities@.last().credential_hash == credential_hash_spec(password@)
                    &&& post.next_identity_id == pre.next_identity_id + 1
                    &&& same_teams(post, pre)
                    &&& same_invites(post, pre)
                    &&& same_challenges(post, pre)
                    &&& same_submissions(post, pre)
                })
                &&& (resp.status != 200 ==> post == pre)
            },
        },
    }
}

/// Serve one request: run the route's guard chain in declared order, then
/// the handler, and map the outcome to a status code.
pub fn dispatch(
    store: &mut Store,
    secret: u64,
    now: u64,
    token_ttl: u64,
    token: Option<Token>,
    req: ApiRequest,
) -> (resp: ApiResponse)
    requires
        old(store).wf(),
    ensures
        final(store).wf(),
        dispatch_spec(*old(store), *final(store), secret, now, token_ttl, token, req, resp),
{
    let route = request_route(&req);
    let guards = guard_chain(route);
    let ctx0 = RequestCtx { token, claims: None, team_id: None };
    let ctx = match run_chain(store, secret, now, ctx0, &guards) {
        Ok(c) => c,
        Err(rej) => {
            return ApiResponse { status: rejection_status_exec(rej), body: ApiBody::Empty };
        },
    };
    proof {
        match route {
            Route::TeamCreate | Route::TeamMe | Route::TeamAccept | Route::TeamInvite
                | Route::TeamKick => {
                lemma_chain_attaches_claims(
                    store.teams@,
                    secret,
                    now,
                    ctx0,
                    guard_chain_spec(route),
                    ctx,
                );
            },
            _ => {},
        }
    }
    match req {
        ApiRequest::Scoreboard(opts) => ApiResponse {
            status: 200,
            body: ApiBody::Rows(store.scoreboard(&opts)),
        },
        ApiRequest::ChalList => ApiResponse {
            status: 200,
            body: ApiBody::Challenges(store.list_challenges()),
        },
        ApiRequest::ChalSubmit { identity_id, team_id, challenge_id, text } => {
            // the route is open, but a presented token binds the row to its
            // claims: the submitter is the authenticated identity and the
            // team is that identity's membership
            let (eff_identity, eff_team) = match token {
                Some(t) => match verify(secret, &t, now) {
                    Ok(c) => {
                        let team = match store.find_team_of_member(c.identity_id) {
                            Some(i) => {
                                proof {
                                    let mi = member_team_idx(store.teams@, c.identity_id);
                                    assert(0 <= mi < store.teams@.len()
                                        && store.teams@[mi].roster@.contains(c.identity_id));
                                    lemma_member_of_at_most_one_team(
                                        store.teams@,
                                        c.identity_id,
                                        i as int,
                                        mi,
                                    );
                                }
                                store.teams[i].id
                            },
                            None => team_id,
                        };
                        (c.identity_id, team)
                    },
                    Err(_) => {
                        return ApiResponse { status: 401, body: ApiBody::Empty };
                    },
                },
                None => (identity_id, team_id),
            };
            match store.submit(eff_identity, eff_team, challenge_id, text, now) {
                Ok(res) => ApiResponse { status: 200, body: ApiBody::Outcome(res) },
                Err(e) => ApiResponse {
                    status: submit_error_status_exec(e),
                    body: ApiBody::Empty,
                },
            }
        },
        ApiRequest::TeamCreate { name } => {
            let c = claims_of(ctx);
            match store.create_team(c.identity_id, name) {
                Ok(_) => ApiResponse { status: 200, body: ApiBody::Empty },
                Err(e) => ApiResponse { status: team_error_status_exec(e), body: ApiBody::Empty },
            }
        },
        ApiRequest::TeamMe => {
            let c = claims_of(ctx);
            match store.profile(c.identity_id) {
                Ok(v) => ApiResponse { status: 200, body: ApiBody::Team(v) },
                Err(e) => ApiResponse { status: team_error_status_exec(e), body: ApiBody::Empty },
            }
        },
        ApiRequest::TeamAccept { team_id } => {
            let c = claims_of(ctx);
            match store.accept(c.identity_id, team_id) {
                Ok(_) => ApiResponse { status: 200, body: ApiBody::Empty },
                Err(e) => ApiResponse { status: team_error_status_exec(e), body: ApiBody::Empty },
            }
        },
        ApiRequest::TeamInvite { email } => {
            let c = claims_of(ctx);
            match store.invite(c.identity_id, &email) {
                Ok(_) => ApiResponse { status: 200, body: ApiBody::Empty },
                Err(e) => ApiResponse { status: team_error_status_exec(e), body: ApiBody::Empty },
            }
        },
        ApiRequest::TeamKick { target } => {
            let c = claims_of(ctx);
            match store.kick(c.identity_id, target) {
                Ok(_) => ApiResponse { status: 200, body: ApiBody::Empty },
                Err(e) => ApiResponse { status: team_error_status_exec(e), body: ApiBody::Empty },
            }
        },
        ApiRequest::UserLogin { email, password } => match store.login(
            &email,
            &password,
            secret,
            now,
            token_ttl,
        ) {
            Ok((_, tok)) => ApiResponse { status: 200, body: ApiBody::Token(tok) },
            Err(e) => ApiResponse { status: user_error_status_exec(e), body: ApiBody::Empty },
        },
        ApiRequest::UserRegister { username, email, password } => match store.register(
            username,
            email,
            &password,
            secret,
            now,
            token_ttl,
        ) {
            Ok((_, tok)) => ApiResponse { status: 200, body: ApiBody::Token(tok) },
            Err(e) => ApiResponse { status: user_error_status_exec(e), body: ApiBody::Empty },
        },
    }
}

/// The claims attached by an authentication stage; callable only where the
/// chain is known to have attached them.
fn claims_of(ctx: RequestCtx) -> (c: SessionClaims)
    requires
        ctx.claims is Some,
    ensures
        Some(c) == ctx.claims,
{
    match ctx.claims {
        Some(c) => c,
        None => vstd::pervasive::unreached(),
    }
}

} // verus!
