//! The rank list of a contest: each user's score per problem, the order of
//! the users and their dense ranks.
use vstd::prelude::*;
use std::cmp::Ordering;
use crate::model::{
    Config, Contest, Job, MyResult, Problem, ProblemType, RankRule, ScoringRule, TieBreaker, User,
    UserRank,
};
use crate::problem::{problem_ok, ratio, ratio_of, MAX_WEIGHT};
use crate::registry::{config_ok, find_problem, jobs_ok, problem_exists, users_ok};

verus! {

/// Largest score of a user on one problem, in millionths of a point.
pub const MAX_PROBLEM_SCORE: u64 = 2_000_000_000_000_000_000;

/// Whether `job` counts for user `uid` in contest `cid`; in contest 0 every
/// job of the user counts.
pub open spec fn in_scope(job: Job, uid: i32, cid: i32) -> bool {
    job.submission.user_id == uid && (cid == 0 || job.submission.contest_id == cid)
}

/// Whether `j`, met later, takes the place of `cur` as the job that scores:
/// under `Latest` when it is not older, under `Highest` when it scores more.
pub open spec fn replaces(rule: ScoringRule, j: Job, cur: Job) -> bool {
    match rule {
        ScoringRule::Latest => j.created_time >= cur.created_time,
        ScoringRule::Highest => j.score > cur.score,
    }
}

/// The place, among the first `n` jobs, of the job that scores for user
/// `uid` in contest `cid` on problem `pid`.
pub open spec fn pick(jobs: Seq<Job>, uid: i32, cid: i32, pid: i32, rule: ScoringRule, n: int) -> Option<
    int,
>
    decreases n,
{
    if n <= 0 {
        None
    } else {
        let s = pick(jobs, uid, cid, pid, rule, n - 1);
        let j = jobs[n - 1];
        if in_scope(j, uid, cid) && j.submission.problem_id == pid && match s {
            Some(k) => replaces(rule, j, jobs[k]),
            None => true,
        } {
            Some(n - 1)
        } else {
            s
        }
    }
}

/// The time of case `c` of a job; 0 where the job has no such case.
pub open spec fn time_at(job: Job, c: int) -> nat {
    if 0 <= c < job.cases@.len() {
        job.cases@[c].time as nat
    } else {
        0
    }
}

/// The shortest time of case `c` among the first `n` jobs that are
/// accepted on problem `pid`.
pub open spec fn fastest(jobs: Seq<Job>, pid: i32, c: int, n: int) -> Option<nat>
    decreases n,
{
    if n <= 0 {
        None
    } else {
        let prev = fastest(jobs, pid, c, n - 1);
        let j = jobs[n - 1];
        if j.result == MyResult::Accepted && j.submission.problem_id == pid {
            match prev {
                Some(m) => Some(if time_at(j, c) < m {
                    time_at(j, c)
                } else {
                    m
                }),
                None => Some(time_at(j, c)),
            }
        } else {
            prev
        }
    }
}

/// The bonus that `sel` earns on case `c` (1-based) of problem `p`: the
/// case's share of the dynamic-ranking ratio, scaled by the shortest time
/// over the time of `sel` (nothing where that time is 0).
pub open spec fn case_bonus(p: Problem, jobs: Seq<Job>, sel: Job, c: int) -> nat {
    let u = time_at(sel, c);
    match fastest(jobs, p.id, c, jobs.len() as int) {
        Some(m) if u > 0 => ((p.cases@[c - 1].score * ratio(p) * m) as int / (u as int)) as nat,
        _ => 0,
    }
}

/// The bonus that `sel` earns on cases 1 to `n` of problem `p`.
pub open spec fn bonus_upto(p: Problem, jobs: Seq<Job>, sel: Job, n: int) -> nat
    decreases n,
{
    if n <= 0 {
        0
    } else {
        bonus_upto(p, jobs, sel, n - 1) + case_bonus(p, jobs, sel, n)
    }
}

/// The score of user `uid` in contest `cid` on problem `p`: that of the job
/// that scores, plus its bonus where the problem ranks dynamically and the
/// job is accepted; 0 without a job.
pub open spec fn problem_score(p: Problem, jobs: Seq<Job>, uid: i32, cid: i32, rule: ScoringRule) -> nat {
    match pick(jobs, uid, cid, p.id, rule, jobs.len() as int) {
        None => 0,
        Some(s) => jobs[s].score as nat + if p.ty == ProblemType::DynamicRanking && jobs[s].result
            == MyResult::Accepted {
            bonus_upto(p, jobs, jobs[s], p.cases@.len() as int)
        } else {
            0
        },
    }
}

/// The scores of user `uid` on the problems at places `probs` of the
/// configuration.
pub open spec fn score_list(
    config: Config,
    probs: Seq<usize>,
    jobs: Seq<Job>,
    uid: i32,
    cid: i32,
    rule: ScoringRule,
) -> Seq<nat> {
    probs.map_values(|i: usize| problem_score(config.problems@[i as int], jobs, uid, cid, rule))
}

pub open spec fn sum(s: Seq<nat>) -> nat
    decreases s.len(),
{
    if s.len() == 0 {
        0
    } else {
        sum(s.drop_last()) + s.last()
    }
}

/// The creation time of the latest of the jobs that score for user `uid`
/// on the first `k` problems of `probs`.
pub open spec fn latest_pick(
    config: Config,
    probs: Seq<usize>,
    jobs: Seq<Job>,
    uid: i32,
    cid: i32,
    rule: ScoringRule,
    k: int,
) -> Option<i64>
    decreases k,
{
    if k <= 0 {
        None
    } else {
        let prev = latest_pick(config, probs, jobs, uid, cid, rule, k - 1);
        match pick(jobs, uid, cid, config.problems@[probs[k - 1] as int].id, rule, jobs.len() as int) {
            None => prev,
            Some(s) => match prev {
                Some(t) if t >= jobs[s].created_time => Some(t),
                _ => Some(jobs[s].created_time),
            },
        }
    }
}

/// How many of the first `n` jobs count for user `uid` in contest `cid`.
pub open spec fn scope_count(jobs: Seq<Job>, uid: i32, cid: i32, n: int) -> nat
    decreases n,
{
    if n <= 0 {
        0
    } else {
        scope_count(jobs, uid, cid, n - 1) + if in_scope(jobs[n - 1], uid, cid) {
            1nat
        } else {
            0nat
        }
    }
}

/// What breaks a tie of scores between users, the smaller first: the time
/// of the latest job that scores (users without one last), the number of
/// submissions, the user id, or nothing.
pub open spec fn tie_key(
    config: Config,
    probs: Seq<usize>,
    jobs: Seq<Job>,
    uid: i32,
    cid: i32,
    rule: RankRule,
) -> int {
    match rule.tie_breaker {
        TieBreaker::SubmissionTime => match latest_pick(
            config,
            probs,
            jobs,
            uid,
            cid,
            rule.scoring_rule,
            probs.len() as int,
        ) {
            Some(t) => t as int,
            None => i64::MAX + 1,
        },
        TieBreaker::SubmissionCount => scope_count(jobs, uid, cid, jobs.len() as int) as int,
        TieBreaker::UserId => uid as int,
        TieBreaker::NoTieBreak => 0,
    }
}

/// Where a user stands: the total score and the tie-breaking key.
#[derive(Clone, Copy, Debug)]
pub struct Standing {
    pub uid: i32,
    /// Millionths of a point.
    pub total: u128,
    pub key: i128,
}

/// `a` ranks above `b`: a higher total, or the same total and a smaller key.
pub open spec fn ahead(a: Standing, b: Standing) -> bool {
    a.total > b.total || (a.total == b.total && a.key < b.key)
}

/// `a` and `b` tie under the rule: same total and same key.
pub open spec fn tied(a: Standing, b: Standing) -> bool {
    a.total == b.total && a.key == b.key
}

/// `a` comes before `b` in a rank list: ahead, or tied with a smaller id.
pub open spec fn listed_before(a: Standing, b: Standing) -> bool {
    ahead(a, b) || (tied(a, b) && a.uid < b.uid)
}

/// Compares two users under the rank rule: `Greater` where `a` ranks above
/// `b`, `Less` where `b` ranks above `a`, `Equal` where they tie.
pub fn compare_users(a: &Standing, b: &Standing) -> (r: Ordering)
    ensures
        (r == Ordering::Greater) == ahead(*a, *b),
        (r == Ordering::Less) == ahead(*b, *a),
        (r == Ordering::Equal) == tied(*a, *b),
{
    if a.total > b.total {
        Ordering::Greater
    } else if a.total < b.total {
        Ordering::Less
    } else if a.key < b.key {
        Ordering::Greater
    } else if a.key > b.key {
        Ordering::Less
    } else {
        Ordering::Equal
    }
}

/// The first `n` jobs that count for user `uid` in contest `cid`, in order.
pub open spec fn scope_jobs(jobs: Seq<Job>, uid: i32, cid: i32, n: int) -> Seq<Job>
    decreases n,
{
    if n <= 0 {
        Seq::empty()
    } else if in_scope(jobs[n - 1], uid, cid) {
        scope_jobs(jobs, uid, cid, n - 1).push(jobs[n - 1])
    } else {
        scope_jobs(jobs, uid, cid, n - 1)
    }
}

/// The jobs of `user` that count in contest `contest_id`, in the order of
/// `job_list`, each a copy of the listed job; none for a user without id.
pub fn get_user_submissions(contest_id: i32, user: &User, job_list: &Vec<Job>) -> (r: Vec<Job>)
    ensures
        user.id is None ==> r@.len() == 0,
        user.id matches Some(uid) ==> {
            let want = scope_jobs(job_list@, uid, contest_id, job_list@.len() as int);
            &&& r@.len() == want.len()
            &&& forall|k: int| 0 <= k < r@.len() ==> (#[trigger] r@[k]).copy_of(want[k])
        },
{
    let mut out: Vec<Job> = Vec::new();
    let uid = match user.id {
        Some(u) => u,
        None => return out,
    };
    let mut i: usize = 0;
    while i < job_list.len()
        invariant
            i <= job_list@.len(),
            user.id == Some(uid),
            out@.len() == scope_jobs(job_list@, uid, contest_id, i as int).len(),
            forall|k: int|
                0 <= k < out@.len() ==> (#[trigger] out@[k]).copy_of(
                    scope_jobs(job_list@, uid, contest_id, i as int)[k],
                ),
        decreases job_list@.len() - i,
    {
        let j = &job_list[i];
        if j.submission.user_id == uid && (contest_id == 0 || j.submission.contest_id == contest_id) {
            let c = j.clone();
            out.push(c);
        }
        i = i + 1;
    }
    out
}

fn pick_job(jobs: &Vec<Job>, uid: i32, cid: i32, pid: i32, rule: ScoringRule) -> (r: Option<usize>)
    ensures
        match r {
            Some(k) => pick(jobs@, uid, cid, pid, rule, jobs@.len() as int) == Some(k as int)
                && k < jobs@.len(),
            None => pick(jobs@, uid, cid, pid, rule, jobs@.len() as int) is None,
        },
{
    let mut best: Option<usize> = None;
    let mut i: usize = 0;
    while i < jobs.len()
        invariant
            i <= jobs@.len(),
            match best {
                Some(k) => pick(jobs@, uid, cid, pid, rule, i as int) == Some(k as int) && k < i,
                None => pick(jobs@, uid, cid, pid, rule, i as int) is None,
            },
        decreases jobs@.len() - i,
    {
        let j = &jobs[i];
        if j.submission.user_id == uid && (cid == 0 || j.submission.contest_id == cid)
            && j.submission.problem_id == pid {
            let take = match best {
                Some(k) => match rule {
                    ScoringRule::Latest => j.created_time >= jobs[k].created_time,
                    ScoringRule::Highest => j.score > jobs[k].score,
                },
                None => true,
            };
            if take {
                best = Some(i);
            }
        }
        i = i + 1;
    }
    best
}

proof fn lemma_pick_fits(jobs: Seq<Job>, uid: i32, cid: i32, pid: i32, rule: ScoringRule, n: int)
    ensures
        pick(jobs, uid, cid, pid, rule, n) matches Some(k) ==> 0 <= k < n && in_scope(
            jobs[k],
            uid,
            cid,
        ) && jobs[k].submission.problem_id == pid,
    decreases n,
{
    if n > 0 {
        lemma_pick_fits(jobs, uid, cid, pid, rule, n - 1);
    }
}

proof fn lemma_fastest_below(jobs: Seq<Job>, pid: i32, c: int, n: int, s: int)
    requires
        0 <= s < n <= jobs.len(),
        jobs[s].result == MyResult::Accepted,
        jobs[s].submission.problem_id == pid,
    ensures
        fastest(jobs, pid, c, n) matches Some(m) && m <= time_at(jobs[s], c),
    decreases n,
{
    if s < n - 1 {
        lemma_fastest_below(jobs, pid, c, n - 1, s);
    }
}

fn fastest_time(jobs: &Vec<Job>, pid: i32, c: usize) -> (r: Option<u64>)
    ensures
        match r {
            Some(m) => fastest(jobs@, pid, c as int, jobs@.len() as int) == Some(m as nat),
            None => fastest(jobs@, pid, c as int, jobs@.len() as int) is None,
        },
{
    let mut best: Option<u64> = None;
    let mut i: usize = 0;
    while i < jobs.len()
        invariant
            i <= jobs@.len(),
            match best {
                Some(m) => fastest(jobs@, pid, c as int, i as int) == Some(m as nat),
                None => fastest(jobs@, pid, c as int, i as int) is None,
            },
        decreases jobs@.len() - i,
    {
        let j = &jobs[i];
        if j.result == MyResult::Accepted && j.submission.problem_id == pid {
            let t = if c < j.cases.len() {
                j.cases[c].time
            } else {
                0
            };
            best = match best {
                Some(m) => Some(if t < m {
                    t
                } else {
                    m
                }),
                None => Some(t),
            };
        }
        i = i + 1;
    }
    best
}

/// The bonus that the job at place `sel` earns on problem `p`.
fn problem_bonus(p: &Problem, jobs: &Vec<Job>, sel: usize) -> (r: u64)
    requires
        problem_ok(*p),
        sel < jobs@.len(),
        jobs@[sel as int].result == MyResult::Accepted,
        jobs@[sel as int].submission.problem_id == p.id,
    ensures
        r == bonus_upto(*p, jobs@, jobs@[sel as int], p.cases@.len() as int),
        r <= p.cases@.len() * MAX_WEIGHT,
{
    let n = p.cases.len();
    let share = ratio_of(p);
    let mut total: u64 = 0;
    let mut c: usize = 1;
    while c <= n
        invariant
            problem_ok(*p),
            n == p.cases@.len(),
            share == ratio(*p),
            sel < jobs@.len(),
            jobs@[sel as int].result == MyResult::Accepted,
            jobs@[sel as int].submission.problem_id == p.id,
            1 <= c <= n + 1,
            total == bonus_upto(*p, jobs@, jobs@[sel as int], c - 1),
            total <= (c - 1) * MAX_WEIGHT,
        decreases n + 1 - c,
    {
        let job = &jobs[sel];
        let u = if c < job.cases.len() {
            job.cases[c].time
        } else {
            0
        };
        let mut b: u64 = 0;
        if u > 0 {
            proof {
                lemma_fastest_below(jobs@, p.id, c as int, jobs@.len() as int, sel as int);
            }
            match fastest_time(jobs, p.id, c) {
                Some(m) => {
                    let score = p.cases[c - 1].score;
                    assert(p.cases@[c - 1].score <= crate::model::MAX_CASE_SCORE);
                    assert(score * share <= MAX_WEIGHT) by (nonlinear_arith)
                        requires
                            score <= 1_000_000,
                            share <= 1000,
                    ;
                    let w: u128 = (score * share) as u128;
                    assert(w * (m as u128) <= (MAX_WEIGHT as u128) * (u64::MAX as u128)) by (
                    nonlinear_arith)
                        requires
                            w <= MAX_WEIGHT,
                            m <= u64::MAX,
                    ;
                    let q = w * (m as u128) / (u as u128);
                    assert(q <= w) by (nonlinear_arith)
                        requires
                            q == (w * m) as int / (u as int),
                            m <= u,
                            u > 0,
                    ;
                    b = q as u64;
                },
                None => {},
            }
        }
        assert(b == case_bonus(*p, jobs@, jobs@[sel as int], c as int));
        assert(b <= MAX_WEIGHT);
        total = total + b;
        c = c + 1;
    }
    total
}

/// The score of user `uid` in contest `cid` on problem `p`, and the place of
/// the job that scores.
fn score_on(p: &Problem, jobs: &Vec<Job>, uid: i32, cid: i32, rule: ScoringRule) -> (r: (
    u64,
    Option<usize>,
))
    requires
        problem_ok(*p),
        jobs_ok(jobs@),
    ensures
        r.0 == problem_score(*p, jobs@, uid, cid, rule),
        r.0 <= MAX_PROBLEM_SCORE,
        match r.1 {
            Some(k) => pick(jobs@, uid, cid, p.id, rule, jobs@.len() as int) == Some(k as int)
                && k < jobs@.len(),
            None => pick(jobs@, uid, cid, p.id, rule, jobs@.len() as int) is None,
        },
{
    match pick_job(jobs, uid, cid, p.id, rule) {
        None => (0, None),
        Some(s) => {
            proof {
                lemma_pick_fits(jobs@, uid, cid, p.id, rule, jobs@.len() as int);
            }
            let base = jobs[s].score;
            assert(jobs@[s as int].id == s as int);
            let bonus = if matches!(p.ty, ProblemType::DynamicRanking) && jobs[s].result
                == MyResult::Accepted {
                problem_bonus(p, jobs, s)
            } else {
                0
            };
            assert(bonus <= crate::model::MAX_CASES as u64 * MAX_WEIGHT);
            (base + bonus, Some(s))
        },
    }
}

/// Every place in `probs` is that of a problem of `config`.
pub open spec fn places_ok(config: Config, probs: Seq<usize>) -> bool {
    forall|k: int| 0 <= k < probs.len() ==> #[trigger] probs[k] < config.problems@.len()
}

/// The scores of user `uid` in contest `cid` on the problems at places
/// `problems` of the configuration, with the creation time of the latest
/// job that scores.
pub fn get_score_list(
    config: &Config,
    problems: &Vec<usize>,
    jobs: &Vec<Job>,
    uid: i32,
    cid: i32,
    rule: ScoringRule,
) -> (r: (Vec<u64>, Option<i64>))
    requires
        config_ok(*config),
        jobs_ok(jobs@),
        places_ok(*config, problems@),
    ensures
        r.0@.len() == problems@.len(),
        forall|k: int|
            0 <= k < problems@.len() ==> #[trigger] r.0@[k] == score_list(
                *config,
                problems@,
                jobs@,
                uid,
                cid,
                rule,
            )[k],
        forall|k: int| 0 <= k < problems@.len() ==> #[trigger] r.0@[k] <= MAX_PROBLEM_SCORE,
        r.1 == latest_pick(*config, problems@, jobs@, uid, cid, rule, problems@.len() as int),
{
    let mut scores: Vec<u64> = Vec::new();
    let mut latest: Option<i64> = None;
    let mut k: usize = 0;
    while k < problems.len()
        invariant
            config_ok(*config),
            jobs_ok(jobs@),
            places_ok(*config, problems@),
            k <= problems@.len(),
            scores@.len() == k,
            forall|j: int|
                0 <= j < k ==> #[trigger] scores@[j] == score_list(
                    *config,
                    problems@,
                    jobs@,
                    uid,
                    cid,
                    rule,
                )[j] && scores@[j] <= MAX_PROBLEM_SCORE,
            latest == latest_pick(*config, problems@, jobs@, uid, cid, rule, k as int),
        decreases problems@.len() - k,
    {
        let idx = problems[k];
        assert(problems@[k as int] < config.problems@.len());
        let p = &config.problems[idx];
        assert(problem_ok(config.problems@[idx as int]));
        let (score, sel) = score_on(p, jobs, uid, cid, rule);
        scores.push(score);
        match sel {
            Some(s) => {
                let t = jobs[s].created_time;
                latest = match latest {
                    Some(l) => if l >= t {
                        Some(l)
                    } else {
                        Some(t)
                    },
                    None => Some(t),
                };
            },
            None => {},
        }
        k = k + 1;
    }
    (scores, latest)
}

fn count_in_scope(jobs: &Vec<Job>, uid: i32, cid: i32) -> (r: usize)
    ensures
        r == scope_count(jobs@, uid, cid, jobs@.len() as int),
{
    let mut count: usize = 0;
    let mut i: usize = 0;
    while i < jobs.len()
        invariant
            i <= jobs@.len(),
            count <= i,
            count == scope_count(jobs@, uid, cid, i as int),
        decreases jobs@.len() - i,
    {
        let j = &jobs[i];
        if j.submission.user_id == uid && (cid == 0 || j.submission.contest_id == cid) {
            count = count + 1;
        }
        i = i + 1;
    }
    count
}

/// Where user `uid` stands in contest `cid` under `rule`.
pub open spec fn standing_of(
    config: Config,
    probs: Seq<usize>,
    jobs: Seq<Job>,
    uid: i32,
    cid: i32,
    rule: RankRule,
) -> Standing {
    Standing {
        uid,
        total: sum(score_list(config, probs, jobs, uid, cid, rule.scoring_rule)) as u128,
        key: tie_key(config, probs, jobs, uid, cid, rule) as i128,
    }
}

/// The scores of user `uid` and where the user stands.
fn standing(
    config: &Config,
    problems: &Vec<usize>,
    jobs: &Vec<Job>,
    uid: i32,
    cid: i32,
    rule: RankRule,
) -> (r: (Vec<u64>, Standing))
    requires
        config_ok(*config),
        jobs_ok(jobs@),
        places_ok(*config, problems@),
    ensures
        r.0@.len() == problems@.len(),
        forall|k: int|
            0 <= k < problems@.len() ==> #[trigger] r.0@[k] == score_list(
                *config,
                problems@,
                jobs@,
                uid,
                cid,
                rule.scoring_rule,
            )[k],
        r.1 == standing_of(*config, problems@, jobs@, uid, cid, rule),
        r.1.total == sum(score_list(*config, problems@, jobs@, uid, cid, rule.scoring_rule)),
        r.1.key == tie_key(*config, problems@, jobs@, uid, cid, rule),
{
    let (scores, latest) = get_score_list(config, problems, jobs, uid, cid, rule.scoring_rule);
    let ghost list = score_list(*config, problems@, jobs@, uid, cid, rule.scoring_rule);
    let mut total: u128 = 0;
    let mut k: usize = 0;
    while k < scores.len()
        invariant
            scores@.len() == problems@.len(),
            list.len() == problems@.len(),
            forall|j: int| 0 <= j < problems@.len() ==> #[trigger] scores@[j] == list[j],
            forall|j: int| 0 <= j < problems@.len() ==> #[trigger] scores@[j] <= MAX_PROBLEM_SCORE,
            k <= scores@.len(),
            total == sum(list.take(k as int)),
            total <= k * (MAX_PROBLEM_SCORE as int),
        decreases scores@.len() - k,
    {
        assert(list.take(k + 1).drop_last() =~= list.take(k as int));
        assert(scores@[k as int] <= MAX_PROBLEM_SCORE);
        total = total + scores[k] as u128;
        k = k + 1;
    }
    assert(list.take(list.len() as int) =~= list);
    let key: i128 = match rule.tie_breaker {
        TieBreaker::SubmissionTime => match latest {
            Some(t) => t as i128,
            None => i64::MAX as i128 + 1,
        },
        TieBreaker::SubmissionCount => count_in_scope(jobs, uid, cid) as i128,
        TieBreaker::UserId => uid as i128,
        TieBreaker::NoTieBreak => 0,
    };
    (scores, Standing { uid, total, key })
}

/// The places, in the configuration, of the problems of a contest: every
/// problem for contest 0, else the problem of each id the contest names;
/// `None` where one of them is missing.
pub fn contest_problems(contest: &Contest, config: &Config) -> (r: Option<Vec<usize>>)
    ensures
        r is Some <==> (contest.id == Some(0i32) || forall|k: int|
            0 <= k < contest.problem_ids@.len() ==> problem_exists(
                *config,
                #[trigger] contest.problem_ids@[k],
            )),
        r matches Some(v) ==> places_ok(*config, v@),
        r matches Some(v) ==> contest.id == Some(0i32) ==> v@ == Seq::new(
            config.problems@.len(),
            |i: int| i as usize,
        ),
        r matches Some(v) ==> contest.id != Some(0i32) ==> v@.len() == contest.problem_ids@.len()
            && forall|k: int|
            0 <= k < v@.len() ==> config.problems@[#[trigger] v@[k] as int].id
                == contest.problem_ids@[k],
{
    let mut out: Vec<usize> = Vec::new();
    let whole = match contest.id {
        Some(c) => c == 0,
        None => false,
    };
    if whole {
        let mut i: usize = 0;
        while i < config.problems.len()
            invariant
                i <= config.problems@.len(),
                out@ == Seq::new(i as nat, |j: int| j as usize),
            decreases config.problems@.len() - i,
        {
            out.push(i);
            assert(out@ =~= Seq::new((i + 1) as nat, |j: int| j as usize));
            i = i + 1;
        }
        return Some(out);
    }
    let mut k: usize = 0;
    while k < contest.problem_ids.len()
        invariant
            contest.id != Some(0i32),
            k <= contest.problem_ids@.len(),
            out@.len() == k,
            places_ok(*config, out@),
            forall|j: int|
                0 <= j < k ==> config.problems@[#[trigger] out@[j] as int].id
                    == contest.problem_ids@[j],
            forall|j: int| 0 <= j < k ==> problem_exists(*config, #[trigger] contest.problem_ids@[j]),
        decreases contest.problem_ids@.len() - k,
    {
        match find_problem(config, contest.problem_ids[k]) {
            Some(i) => {
                out.push(i);
            },
            None => {
                assert(!problem_exists(*config, contest.problem_ids@[k as int]));
                return None;
            },
        }
        k = k + 1;
    }
    Some(out)
}

/// Whether `user` takes part: its id is one of `ids`.
pub open spec fn is_member(user: User, ids: Seq<i32>) -> bool {
    match user.id {
        Some(u) => ids.contains(u),
        None => false,
    }
}

/// The places, among the first `n` users, of those who take part.
pub open spec fn members(users: Seq<User>, ids: Seq<i32>, n: int) -> Seq<int>
    decreases n,
{
    if n <= 0 {
        Seq::empty()
    } else {
        let prev = members(users, ids, n - 1);
        if is_member(users[n - 1], ids) {
            prev.push(n - 1)
        } else {
            prev
        }
    }
}

/// The id of the user of a row.
pub open spec fn uid_of(r: UserRank) -> i32 {
    match r.user.id {
        Some(u) => u,
        None => 0,
    }
}

/// The contest id that a contest stands for; 0 without one.
pub open spec fn contest_key(contest: Contest) -> i32 {
    match contest.id {
        Some(c) => c,
        None => 0,
    }
}

/// Dense ranks: the first row ranks 1; a row tied with the row before it
/// shares its rank; any other row ranks at its 1-based place.
pub open spec fn dense_ranks(
    r: Seq<UserRank>,
    config: Config,
    probs: Seq<usize>,
    jobs: Seq<Job>,
    cid: i32,
    rule: RankRule,
) -> bool {
    &&& (r.len() > 0 ==> r[0].rank == 1)
    &&& forall|k: int|
        1 <= k < r.len() ==> #[trigger] r[k].rank as int == if tied(
            standing_of(config, probs, jobs, uid_of(r[k - 1]), cid, rule),
            standing_of(config, probs, jobs, uid_of(r[k]), cid, rule),
        ) {
            r[k - 1].rank as int
        } else {
            k + 1
        }
}

fn listed_before_exec(a: &Standing, b: &Standing) -> (r: bool)
    ensures
        r == listed_before(*a, *b),
{
    a.total > b.total || (a.total == b.total && (a.key < b.key || (a.key == b.key && a.uid
        < b.uid)))
}

fn copy_scores(v: &Vec<u64>) -> (r: Vec<u64>)
    ensures
        r@ == v@,
{
    let mut out: Vec<u64> = Vec::new();
    let mut i: usize = 0;
    while i < v.len()
        invariant
            i <= v@.len(),
            out@ == v@.subrange(0, i as int),
        decreases v@.len() - i,
    {
        out.push(v[i]);
        assert(v@.subrange(0, i + 1) =~= v@.subrange(0, i as int).push(v@[i as int]));
        i = i + 1;
    }
    assert(v@.subrange(0, v@.len() as int) =~= v@);
    out
}

/// Orders the rows `stand`: each before the next under `listed_before`.
fn sort_rows(stand: &Vec<Standing>) -> (order: Vec<usize>)
    requires
        forall|a: int, b: int|
            0 <= a < stand@.len() && 0 <= b < stand@.len() && a != b ==> (#[trigger] stand@[a]).uid
                != (#[trigger] stand@[b]).uid,
    ensures
        order@.len() == stand@.len(),
        forall|k: int| 0 <= k < order@.len() ==> #[trigger] order@[k] < stand@.len(),
        order@.no_duplicates(),
        forall|a: int, b: int|
            0 <= a < b < order@.len() ==> listed_before(
                stand@[#[trigger] order@[a] as int],
                stand@[#[trigger] order@[b] as int],
            ),
{
    let mut order: Vec<usize> = Vec::new();
    let mut i: usize = 0;
    while i < stand.len()
        invariant
            forall|a: int, b: int|
                0 <= a < stand@.len() && 0 <= b < stand@.len() && a != b ==> (
                #[trigger] stand@[a]).uid != (#[trigger] stand@[b]).uid,
            i <= stand@.len(),
            order@.len() == i,
            forall|k: int| 0 <= k < order@.len() ==> #[trigger] order@[k] < i,
            order@.no_duplicates(),
            forall|a: int, b: int|
                0 <= a < b < order@.len() ==> listed_before(
                    stand@[#[trigger] order@[a] as int],
                    stand@[#[trigger] order@[b] as int],
                ),
        decreases stand@.len() - i,
    {
        let mut p: usize = 0;
        while p < order.len() && !listed_before_exec(&stand[i], &stand[order[p]])
            invariant
                forall|a: int, b: int|
                    0 <= a < stand@.len() && 0 <= b < stand@.len() && a != b ==> (
                    #[trigger] stand@[a]).uid != (#[trigger] stand@[b]).uid,
                i < stand@.len(),
                order@.len() == i,
                forall|k: int| 0 <= k < order@.len() ==> #[trigger] order@[k] < i,
                p <= order@.len(),
                forall|a: int|
                    0 <= a < p ==> listed_before(stand@[#[trigger] order@[a] as int], stand@[i as int]),
            decreases order@.len() - p,
        {
            assert(order@[p as int] < i);
            assert(stand@[order@[p as int] as int].uid != stand@[i as int].uid);
            p = p + 1;
        }
        let ghost old_order = order@;
        order.insert(p, i);
        proof {
            assert forall|k: int| 0 <= k < order@.len() implies #[trigger] order@[k] < i + 1 by {
                if k < p {
                    assert(order@[k] == old_order[k]);
                } else if k > p {
                    assert(order@[k] == old_order[k - 1]);
                }
            }
            assert(order@.no_duplicates()) by {
                assert forall|a: int, b: int|
                    0 <= a < order@.len() && 0 <= b < order@.len() && a != b implies order@[a]
                    != order@[b] by {
                    if a != p && b != p {
                        let oa = if a < p {
                            a
                        } else {
                            a - 1
                        };
                        let ob = if b < p {
                            b
                        } else {
                            b - 1
                        };
                        assert(order@[a] == old_order[oa]);
                        assert(order@[b] == old_order[ob]);
                    } else if a == p {
                        let ob = if b < p {
                            b
                        } else {
                            b - 1
                        };
                        assert(order@[b] == old_order[ob]);
                        assert(old_order[ob] < i);
                    } else {
                        let oa = if a < p {
                            a
                        } else {
                            a - 1
                        };
                        assert(order@[a] == old_order[oa]);
                        assert(old_order[oa] < i);
                    }
                }
            }
            assert forall|a: int, b: int| 0 <= a < b < order@.len() implies listed_before(
                stand@[#[trigger] order@[a] as int],
                stand@[#[trigger] order@[b] as int],
            ) by {
                let oa = if a < p {
                    a
                } else {
                    a - 1
                };
                let ob = if b < p {
                    b
                } else {
                    b - 1
                };
                if a != p && b != p {
                    assert(order@[a] == old_order[oa]);
                    assert(order@[b] == old_order[ob]);
                } else if a == p {
                    assert(order@[b] == old_order[ob]);
                    assert(p < old_order.len());
                    assert(listed_before(stand@[i as int], stand@[old_order[p as int] as int]));
                    if ob > p {
                        assert(listed_before(
                            stand@[old_order[p as int] as int],
                            stand@[old_order[ob] as int],
                        ));
                    }
                } else {
                    assert(order@[a] == old_order[oa]);
                }
            }
        }
        i = i + 1;
    }
    order
}

/// The rank list of a contest over the problems at places `problems` of
/// the configuration: one row per user who takes part, each with the user's
/// score per problem, ordered by total score (higher first), then by the
/// tie-breaking key (smaller first), then by user id; with dense ranks.
pub fn rank_list(
    contest: &Contest,
    problems: &Vec<usize>,
    jobs: &Vec<Job>,
    users: &Vec<User>,
    rule: RankRule,
    config: &Config,
) -> (r: Vec<UserRank>)
    requires
        config_ok(*config),
        jobs_ok(jobs@),
        users_ok(users@),
        users@.len() <= i32::MAX,
        places_ok(*config, problems@),
    ensures
        r@.len() == members(users@, contest.user_ids@, users@.len() as int).len(),
        forall|k: int|
            0 <= k < r@.len() ==> is_member(#[trigger] r@[k].user, contest.user_ids@)
                && users@.contains(r@[k].user),
        forall|a: int, b: int|
            0 <= a < r@.len() && 0 <= b < r@.len() && a != b ==> uid_of(#[trigger] r@[a]) != uid_of(
                #[trigger] r@[b],
            ),
        forall|k: int|
            0 <= k < r@.len() ==> (#[trigger] r@[k]).scores@.len() == problems@.len() && forall|
                j: int,
            |
                0 <= j < problems@.len() ==> r@[k].scores@[j] == #[trigger] score_list(
                    *config,
                    problems@,
                    jobs@,
                    uid_of(r@[k]),
                    contest_key(*contest),
                    rule.scoring_rule,
                )[j],
        forall|k: int|
            0 <= k < r@.len() - 1 ==> listed_before(
                standing_of(*config, problems@, jobs@, uid_of(#[trigger] r@[k]), contest_key(*contest), rule),
                standing_of(*config, problems@, jobs@, uid_of(r@[k + 1]), contest_key(*contest), rule),
            ),
        dense_ranks(r@, *config, problems@, jobs@, contest_key(*contest), rule),
{
    let cid = match contest.id {
        Some(c) => c,
        None => 0,
    };
    let ghost ids = contest.user_ids@;
    let mut who: Vec<usize> = Vec::new();
    let mut rows: Vec<Vec<u64>> = Vec::new();
    let mut stand: Vec<Standing> = Vec::new();
    let mut i: usize = 0;
    while i < users.len()
        invariant
            config_ok(*config),
            jobs_ok(jobs@),
            users_ok(users@),
            places_ok(*config, problems@),
            cid == contest_key(*contest),
            ids == contest.user_ids@,
            i <= users@.len(),
            who@.len() <= i,
            who@.len() == members(users@, ids, i as int).len(),
            rows@.len() == who@.len(),
            stand@.len() == who@.len(),
            forall|k: int| 0 <= k < who@.len() ==> #[trigger] who@[k] == members(users@, ids, i as int)[k],
            forall|k: int| 0 <= k < who@.len() ==> #[trigger] who@[k] < i,
            forall|a: int, b: int| 0 <= a < b < who@.len() ==> #[trigger] who@[a] < #[trigger] who@[b],
            forall|k: int|
                0 <= k < who@.len() ==> is_member(users@[#[trigger] who@[k] as int], ids)
                    && users@[who@[k] as int].id == Some(who@[k] as i32) && stand@[k]
                    == standing_of(*config, problems@, jobs@, who@[k] as i32, cid, rule)
                    && rows@[k]@.len() == problems@.len() && forall|j: int|
                    0 <= j < problems@.len() ==> rows@[k]@[j] == #[trigger] score_list(
                        *config,
                        problems@,
                        jobs@,
                        who@[k] as i32,
                        cid,
                        rule.scoring_rule,
                    )[j],
        decreases users@.len() - i,
    {
        assert(users_ok(users@));
        assert(crate::registry::has_id(users@[i as int].id, i as int));
        match users[i].id {
            Some(u) => {
                if crate::registry::contains_id(&contest.user_ids, u) {
                    let (sc, st) = standing(config, problems, jobs, u, cid, rule);
                    who.push(i);
                    rows.push(sc);
                    stand.push(st);
                }
            },
            None => {},
        }
        i = i + 1;
    }
    assert forall|a: int, b: int|
        0 <= a < stand@.len() && 0 <= b < stand@.len() && a != b implies (#[trigger] stand@[a]).uid
        != (#[trigger] stand@[b]).uid by {
        if a < b {
            assert(who@[a] < who@[b]);
        } else {
            assert(who@[b] < who@[a]);
        }
    }
    let order = sort_rows(&stand);
    let mut out: Vec<UserRank> = Vec::new();
    let mut k: usize = 0;
    while k < order.len()
        invariant
            order@.len() == stand@.len(),
            forall|x: int| 0 <= x < order@.len() ==> #[trigger] order@[x] < stand@.len(),
            order@.no_duplicates(),
            forall|a: int, b: int|
                0 <= a < b < order@.len() ==> listed_before(
                    stand@[#[trigger] order@[a] as int],
                    stand@[#[trigger] order@[b] as int],
                ),
            rows@.len() == who@.len(),
            stand@.len() == who@.len(),
            forall|x: int| 0 <= x < who@.len() ==> #[trigger] who@[x] < users@.len(),
            forall|x: int|
                0 <= x < who@.len() ==> is_member(users@[#[trigger] who@[x] as int], contest.user_ids@)
                    && users@[who@[x] as int].id == Some(who@[x] as i32) && stand@[x]
                    == standing_of(*config, problems@, jobs@, who@[x] as i32, cid, rule)
                    && rows@[x]@.len() == problems@.len() && forall|j: int|
                    0 <= j < problems@.len() ==> rows@[x]@[j] == #[trigger] score_list(
                        *config,
                        problems@,
                        jobs@,
                        who@[x] as i32,
                        cid,
                        rule.scoring_rule,
                    )[j],
            cid == contest_key(*contest),
            users@.len() <= i32::MAX,
            who@.len() <= users@.len(),
            k <= order@.len(),
            out@.len() == k,
            forall|x: int|
                0 <= x < k ==> (#[trigger] out@[x]).user == users@[who@[order@[x] as int] as int]
                    && out@[x].scores@ == rows@[order@[x] as int]@,
            out@.len() > 0 ==> 1 <= out@.last().rank <= k,
            dense_ranks(out@, *config, problems@, jobs@, cid, rule),
        decreases order@.len() - k,
    {
        let row = order[k];
        let user = users[who[row]].clone();
        let rank: i32 = if k == 0 {
            1
        } else {
            let prev = &stand[order[k - 1]];
            let cur = &stand[row];
            if prev.total == cur.total && prev.key == cur.key {
                out[k - 1].rank
            } else {
                (k + 1) as i32
            }
        };
        let ghost before = out@;
        out.push(UserRank { user, rank, scores: copy_scores(&rows[row]) });
        proof {
            assert forall|x: int| 0 <= x < k + 1 implies (#[trigger] out@[x]).user
                == users@[who@[order@[x] as int] as int] && out@[x].scores@
                == rows@[order@[x] as int]@ by {
                if x < k {
                    assert(out@[x] == before[x]);
                }
            }
            assert forall|x: int| 1 <= x < out@.len() implies #[trigger] out@[x].rank as int == if tied(
                standing_of(*config, problems@, jobs@, uid_of(out@[x - 1]), cid, rule),
                standing_of(*config, problems@, jobs@, uid_of(out@[x]), cid, rule),
            ) {
                out@[x - 1].rank as int
            } else {
                x + 1
            } by {
                assert(uid_of(out@[x]) == who@[order@[x] as int] as i32);
                assert(uid_of(out@[x - 1]) == who@[order@[x - 1] as int] as i32);
                if x < k {
                    assert(out@[x] == before[x]);
                    assert(out@[x - 1] == before[x - 1]);
                    assert(uid_of(before[x]) == who@[order@[x] as int] as i32);
                }
            }
        }
        k = k + 1;
    }
    proof {
        let m = members(users@, contest.user_ids@, users@.len() as int);
        assert forall|x: int| 0 <= x < out@.len() implies is_member(
            #[trigger] out@[x].user,
            contest.user_ids@,
        ) && users@.contains(out@[x].user) by {
            assert(users@[who@[order@[x] as int] as int] == out@[x].user);
        }
        assert forall|a: int, b: int|
            0 <= a < out@.len() && 0 <= b < out@.len() && a != b implies uid_of(
            #[trigger] out@[a],
        ) != uid_of(#[trigger] out@[b]) by {
            assert(uid_of(out@[a]) == who@[order@[a] as int] as i32);
            assert(uid_of(out@[b]) == who@[order@[b] as int] as i32);
            assert(order@[a] != order@[b]);
            let oa = order@[a] as int;
            let ob = order@[b] as int;
            if oa < ob {
                assert(who@[oa] < who@[ob]);
            } else {
                assert(who@[ob] < who@[oa]);
            }
        }
        assert forall|x: int| 0 <= x < out@.len() implies (#[trigger] out@[x]).scores@.len()
            == problems@.len() && forall|j: int|
            0 <= j < problems@.len() ==> out@[x].scores@[j] == #[trigger] score_list(
                *config,
                problems@,
                jobs@,
                uid_of(out@[x]),
                contest_key(*contest),
                rule.scoring_rule,
            )[j] by {
            assert(uid_of(out@[x]) == who@[order@[x] as int] as i32);
        }
        assert forall|x: int| 0 <= x < out@.len() - 1 implies listed_before(
            standing_of(*config, problems@, jobs@, uid_of(#[trigger] out@[x]), contest_key(*contest), rule),
            standing_of(*config, problems@, jobs@, uid_of(out@[x + 1]), contest_key(*contest), rule),
        ) by {
            assert(uid_of(out@[x]) == who@[order@[x] as int] as i32);
            assert(uid_of(out@[x + 1]) == who@[order@[x + 1] as int] as i32);
            assert(listed_before(stand@[order@[x] as int], stand@[order@[x + 1] as int]));
        }
    }
    out
}

/// A rank list's ranks start at 1, never go down along the list, stay
/// within each row's place, and two adjacent rows share a rank only where
/// the rule ties them.
pub proof fn lemma_dense_ranks(
    r: Seq<UserRank>,
    config: Config,
    probs: Seq<usize>,
    jobs: Seq<Job>,
    cid: i32,
    rule: RankRule,
)
    requires
        dense_ranks(r, config, probs, jobs, cid, rule),
    ensures
        r.len() > 0 ==> r[0].rank == 1,
        forall|k: int| 0 <= k < r.len() ==> 1 <= #[trigger] r[k].rank <= k + 1,
        forall|k: int| 1 <= k < r.len() ==> r[k - 1].rank <= #[trigger] r[k].rank,
        forall|k: int|
            1 <= k < r.len() && r[k - 1].rank == #[trigger] r[k].rank ==> tied(
                standing_of(config, probs, jobs, uid_of(r[k - 1]), cid, rule),
                standing_of(config, probs, jobs, uid_of(r[k]), cid, rule),
            ),
{
    lemma_rank_bounds(r, config, probs, jobs, cid, rule, r.len() as int);
    assert forall|k: int| 1 <= k < r.len() implies r[k - 1].rank <= #[trigger] r[k].rank by {
        assert(1 <= r[k - 1].rank <= k);
    }
    assert forall|k: int| 1 <= k < r.len() && r[k - 1].rank == #[trigger] r[k].rank implies tied(
        standing_of(config, probs, jobs, uid_of(r[k - 1]), cid, rule),
        standing_of(config, probs, jobs, uid_of(r[k]), cid, rule),
    ) by {
        assert(1 <= r[k - 1].rank <= k);
    }
}

proof fn lemma_rank_bounds(
    r: Seq<UserRank>,
    config: Config,
    probs: Seq<usize>,
    jobs: Seq<Job>,
    cid: i32,
    rule: RankRule,
    n: int,
)
    requires
        dense_ranks(r, config, probs, jobs, cid, rule),
        0 <= n <= r.len(),
    ensures
        forall|k: int| 0 <= k < n ==> 1 <= #[trigger] r[k].rank <= k + 1,
    decreases n,
{
    if n > 0 {
        lemma_rank_bounds(r, config, probs, jobs, cid, rule, n - 1);
        if n - 1 >= 1 {
            assert(1 <= r[n - 2].rank <= n - 1);
        }
    }
}

proof fn lemma_members_shape(users: Seq<User>, ids: Seq<i32>, n: int)
    requires
        0 <= n <= users.len(),
    ensures
        members(users, ids, n).no_duplicates(),
        forall|k: int|
            0 <= k < members(users, ids, n).len() ==> 0 <= #[trigger] members(users, ids, n)[k] < n,
        forall|i: int|
            #[trigger] members(users, ids, n).contains(i) <==> (0 <= i < n && is_member(users[i], ids)),
    decreases n,
{
    if n > 0 {
        lemma_members_shape(users, ids, n - 1);
        let prev = members(users, ids, n - 1);
        let m = members(users, ids, n);
        if is_member(users[n - 1], ids) {
            assert(m == prev.push(n - 1));
            assert forall|i: int| #[trigger] m.contains(i) <==> (0 <= i < n && is_member(users[i], ids)) by {
                if i == n - 1 {
                    assert(m[m.len() - 1] == i);
                } else {
                    if m.contains(i) {
                        let k = choose|k: int| 0 <= k < m.len() && m[k] == i;
                        assert(k < prev.len());
                        assert(prev[k] == i);
                        assert(prev.contains(i));
                    }
                    if prev.contains(i) {
                        let k = choose|k: int| 0 <= k < prev.len() && prev[k] == i;
                        assert(m[k] == i);
                    }
                }
            }
        } else {
            assert(m == prev);
        }
    }
}

/// Where every id that a contest names belongs to a registered user, the
/// users who take part are as many as the distinct ids that the contest
/// names: a rank list has one row per member of the contest's user set.
pub proof fn lemma_members_count(users: Seq<User>, ids: Seq<i32>)
    requires
        users_ok(users),
        forall|k: int| 0 <= k < ids.len() ==> 0 <= #[trigger] ids[k] < users.len(),
    ensures
        members(users, ids, users.len() as int).len() == ids.to_set().len(),
{
    let n = users.len() as int;
    let m = members(users, ids, n);
    lemma_members_shape(users, ids, n);
    m.unique_seq_to_set();
    let f = |v: i32| v as int;
    let x = ids.to_set();
    assert(x.finite()) by {
        vstd::seq_lib::seq_to_set_is_finite(ids);
    }
    assert forall|i: int| #[trigger] x.map(f).contains(i) <==> m.to_set().contains(i) by {
        if x.map(f).contains(i) {
            let v = choose|v: i32| x.contains(v) && f(v) == i;
            let k = choose|k: int| 0 <= k < ids.len() && ids[k] == v;
            assert(crate::registry::has_id(users[i].id, i));
        }
        if m.to_set().contains(i) {
            assert(m.contains(i));
            assert(crate::registry::has_id(users[i].id, i));
            assert(x.contains(i as i32));
            assert(f(i as i32) == i);
        }
    }
    assert(x.map(f) =~= m.to_set());
    vstd::set_lib::lemma_map_size(x, m.to_set(), f);
}

} // verus!
