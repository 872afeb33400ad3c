//! The registries of jobs, users and contests, with the rules that admit a
//! submission, a user or a contest.
use vstd::prelude::*;
use crate::clock::now_millis;
use crate::model::{Config, Contest, Error, Job, PostJob, Reason, User};
use crate::problem::problem_ok;

verus! {

/// Largest score a job can hold, in millionths of a point.
pub const MAX_JOB_SCORE: u64 = 1_000_000_000_000_000_000;

/// Start of the window of the implicit contest: the Unix epoch.
pub const EARLIEST_TIME: i64 = 0;

/// End of the window of the implicit contest: 9999-12-31T23:59:59.999Z.
pub const LATEST_TIME: i64 = 253_402_300_799_999;

/// A configuration that the judge can work with: every problem can be
/// judged.
pub open spec fn config_ok(c: Config) -> bool {
    forall|i: int| 0 <= i < c.problems@.len() ==> problem_ok(#[trigger] c.problems@[i])
}

/// Whether a configuration can be worked with.
pub fn config_check(c: &Config) -> (r: bool)
    ensures
        r == config_ok(*c),
{
    let mut i: usize = 0;
    while i < c.problems.len()
        invariant
            i <= c.problems@.len(),
            forall|k: int| 0 <= k < i ==> problem_ok(#[trigger] c.problems@[k]),
        decreases c.problems@.len() - i,
    {
        if !crate::problem::problem_check(&c.problems[i]) {
            return false;
        }
        i = i + 1;
    }
    true
}

/// Job `i` has id `i`, for every job, and no score above the bound.
pub open spec fn jobs_ok(jobs: Seq<Job>) -> bool {
    forall|i: int|
        0 <= i < jobs.len() ==> (#[trigger] jobs[i]).id == i && jobs[i].score <= MAX_JOB_SCORE
}

/// `id` is `i`.
pub open spec fn has_id(id: Option<i32>, i: int) -> bool {
    id matches Some(x) && x == i
}

/// User `i` has id `i`, and no two users share a name.
pub open spec fn users_ok(users: Seq<User>) -> bool {
    &&& forall|i: int| 0 <= i < users.len() ==> has_id((#[trigger] users[i]).id, i)
    &&& forall|i: int, j: int|
        0 <= i < users.len() && 0 <= j < users.len() && i != j ==> (#[trigger] users[i]).name@
            != (#[trigger] users[j]).name@
}

/// Contest `i` has id `i`, and the implicit contest 0 is there.
pub open spec fn contests_ok(contests: Seq<Contest>) -> bool {
    &&& contests.len() >= 1
    &&& forall|i: int| 0 <= i < contests.len() ==> has_id((#[trigger] contests[i]).id, i)
}

/// The three lists can form a registry.
pub open spec fn registry_ok(jobs: Seq<Job>, users: Seq<User>, contests: Seq<Contest>) -> bool {
    jobs_ok(jobs) && users_ok(users) && contests_ok(contests)
}

/// Whether `users` holds a user of id `id`.
pub open spec fn user_exists(users: Seq<User>, id: i32) -> bool {
    0 <= id < users.len()
}

/// Whether `config` holds a problem of id `id`.
pub open spec fn problem_exists(config: Config, id: i32) -> bool {
    exists|i: int| 0 <= i < config.problems@.len() && (#[trigger] config.problems@[i]).id == id
}

/// Whether `config` holds a language named `name`.
pub open spec fn language_exists(config: Config, name: Seq<char>) -> bool {
    exists|i: int| 0 <= i < config.languages@.len() && (#[trigger] config.languages@[i]).name@ == name
}

/// How many of the jobs are by `user` on `problem` in `contest`, leaving out
/// the job of id `skip` if there is one.
pub open spec fn submissions_in(
    jobs: Seq<Job>,
    user: i32,
    problem: i32,
    contest: i32,
    skip: Option<i32>,
) -> nat
    decreases jobs.len(),
{
    if jobs.len() == 0 {
        0
    } else {
        let j = jobs.last();
        submissions_in(jobs.drop_last(), user, problem, contest, skip) + if j.submission.user_id
            == user && j.submission.problem_id == problem && j.submission.contest_id == contest
            && skip != Some(j.id) {
            1nat
        } else {
            0nat
        }
    }
}

/// Why a submission is refused, if it is: the language and the problem must
/// exist; in a contest other than 0, the contest must exist, hold the user
/// and the problem, be open at `now` (not asked again when a job is judged
/// again) and not have reached its limit of submissions for the user and
/// the problem; the user must exist.
pub open spec fn submission_refusal(
    post: PostJob,
    config: Config,
    jobs: Seq<Job>,
    users: Seq<User>,
    contests: Seq<Contest>,
    now: i64,
    again: Option<i32>,
) -> Option<Reason> {
    if !language_exists(config, post.language@) {
        Some(Reason::ErrNotFound)
    } else if !problem_exists(config, post.problem_id) {
        Some(Reason::ErrNotFound)
    } else if post.contest_id != 0 && !(0 <= post.contest_id < contests.len()) {
        Some(Reason::ErrNotFound)
    } else if post.contest_id != 0 && !({
        let c = contests[post.contest_id as int];
        &&& c.user_ids@.contains(post.user_id)
        &&& c.problem_ids@.contains(post.problem_id)
        &&& (again is Some || (c.from <= now && now <= c.to))
    }) {
        Some(Reason::ErrInvalidArgument)
    } else if post.contest_id != 0 && submissions_in(
        jobs,
        post.user_id,
        post.problem_id,
        post.contest_id,
        again,
    ) >= contests[post.contest_id as int].submission_limit {
        Some(Reason::ErrRateLimit)
    } else if !user_exists(users, post.user_id) {
        Some(Reason::ErrNotFound)
    } else {
        None
    }
}

/// How admitting `post` at time `now` goes, from the jobs, users and
/// contests before: refused as `submission_refusal` says, refused with
/// `ErrInternal` where no id is left, else a new queued job, created at
/// `now`, with the next id, added at the end as `after` shows.
pub open spec fn admission(
    post: PostJob,
    config: Config,
    jobs: Seq<Job>,
    users: Seq<User>,
    contests: Seq<Contest>,
    now: i64,
    r: Result<(Job, usize, usize), Error>,
    after: Seq<Job>,
) -> bool {
    match submission_refusal(post, config, jobs, users, contests, now, None) {
        Some(reason) => r matches Err(e) && e.reason == reason && after == jobs,
        None => if jobs.len() <= i32::MAX {
            r matches Ok((job, l, p)) && {
                &&& job.id == jobs.len()
                &&& job.submission == post
                &&& job.created_time == now
                &&& job.updated_time == now
                &&& job.state == crate::model::State::Queueing
                &&& job.result == crate::model::MyResult::Waiting
                &&& job.score == 0
                &&& job.cases@.len() == 0
                &&& after.len() == jobs.len() + 1
                &&& after.drop_last() == jobs
                &&& after.last().copy_of(job)
                &&& l < config.languages@.len()
                &&& config.languages@[l as int].name@ == post.language@
                &&& p < config.problems@.len()
                &&& config.problems@[p as int].id == post.problem_id
            }
        } else {
            r matches Err(e) && e.reason == Reason::ErrInternal && after == jobs
        },
    }
}

/// The stores of jobs, users and contests.
#[derive(Debug)]
pub struct Registry {
    jobs: Vec<Job>,
    users: Vec<User>,
    contests: Vec<Contest>,
}

fn find_language(config: &Config, name: &String) -> (r: Option<usize>)
    ensures
        r matches Some(i) ==> i < config.languages@.len() && config.languages@[i as int].name@
            == name@,
        r is None ==> !language_exists(*config, name@),
{
    let mut i: usize = 0;
    while i < config.languages.len()
        invariant
            i <= config.languages@.len(),
            forall|k: int| 0 <= k < i ==> (#[trigger] config.languages@[k]).name@ != name@,
        decreases config.languages@.len() - i,
    {
        if config.languages[i].name == *name {
            return Some(i);
        }
        i = i + 1;
    }
    None
}

/// The index of the problem of id `id` in the configuration.
pub fn find_problem(config: &Config, id: i32) -> (r: Option<usize>)
    ensures
        r matches Some(i) ==> i < config.problems@.len() && config.problems@[i as int].id == id,
        r is None ==> !problem_exists(*config, id),
{
    let mut i: usize = 0;
    while i < config.problems.len()
        invariant
            i <= config.problems@.len(),
            forall|k: int| 0 <= k < i ==> (#[trigger] config.problems@[k]).id != id,
        decreases config.problems@.len() - i,
    {
        if config.problems[i].id == id {
            return Some(i);
        }
        i = i + 1;
    }
    None
}

fn count_submissions(jobs: &Vec<Job>, user: i32, problem: i32, contest: i32, skip: Option<i32>) -> (r:
    usize)
    ensures
        r == submissions_in(jobs@, user, problem, contest, skip),
{
    let mut count: usize = 0;
    let mut i: usize = 0;
    while i < jobs.len()
        invariant
            i <= jobs@.len(),
            count <= i,
            count == submissions_in(jobs@.subrange(0, i as int), user, problem, contest, skip),
        decreases jobs@.len() - i,
    {
        let j = &jobs[i];
        assert(jobs@.subrange(0, i + 1).drop_last() =~= jobs@.subrange(0, i as int));
        let skipped = match skip {
            Some(s) => s == j.id,
            None => false,
        };
        if j.submission.user_id == user && j.submission.problem_id == problem
            && j.submission.contest_id == contest && !skipped {
            count = count + 1;
        }
        i = i + 1;
    }
    assert(jobs@.subrange(0, jobs@.len() as int) =~= jobs@);
    count
}

pub(crate) fn contains_id(v: &Vec<i32>, x: i32) -> (r: bool)
    ensures
        r == v@.contains(x),
{
    let mut i: usize = 0;
    while i < v.len()
        invariant
            i <= v@.len(),
            forall|k: int| 0 <= k < i ==> v@[k] != x,
        decreases v@.len() - i,
    {
        if v[i] == x {
            return true;
        }
        i = i + 1;
    }
    false
}

impl Registry {
    pub closed spec fn jobs(&self) -> Seq<Job> {
        self.jobs@
    }

    pub closed spec fn users(&self) -> Seq<User> {
        self.users@
    }

    pub closed spec fn contests(&self) -> Seq<Contest> {
        self.contests@
    }

    /// The registry's rules hold.
    pub open spec fn wf(&self) -> bool {
        registry_ok(self.jobs(), self.users(), self.contests())
    }

    /// Checks a submission (`again` names the job when one is judged again)
    /// and gives the indices of its language and problem in the
    /// configuration.
    pub fn check_submission(&self, post: &PostJob, config: &Config, now: i64, again: Option<i32>) -> (r:
        Result<(usize, usize), Error>)
        requires
            self.wf(),
        ensures
            match r {
                Ok((l, p)) => {
                    &&& submission_refusal(
                        *post,
                        *config,
                        self.jobs(),
                        self.users(),
                        self.contests(),
                        now,
                        again,
                    ) is None
                    &&& l < config.languages@.len()
                    &&& config.languages@[l as int].name@ == post.language@
                    &&& p < config.problems@.len()
                    &&& config.problems@[p as int].id == post.problem_id
                },
                Err(e) => submission_refusal(
                    *post,
                    *config,
                    self.jobs(),
                    self.users(),
                    self.contests(),
                    now,
                    again,
                ) == Some(e.reason) && e.code == crate::model::reason_code(e.reason),
            },
    {
        let lang = match find_language(config, &post.language) {
            Some(l) => l,
            None => return Err(Error::of(Reason::ErrNotFound)),
        };
        let prob = match find_problem(config, post.problem_id) {
            Some(p) => p,
            None => return Err(Error::of(Reason::ErrNotFound)),
        };
        if post.contest_id != 0 {
            if post.contest_id < 0 || post.contest_id as usize >= self.contests.len() {
                return Err(Error::of(Reason::ErrNotFound));
            }
            let c = &self.contests[post.contest_id as usize];
            let open = match again {
                Some(_) => true,
                None => c.from <= now && now <= c.to,
            };
            if !(contains_id(&c.user_ids, post.user_id) && contains_id(
                &c.problem_ids,
                post.problem_id,
            ) && open) {
                return Err(Error::of(Reason::ErrInvalidArgument));
            }
            let count = count_submissions(
                &self.jobs,
                post.user_id,
                post.problem_id,
                post.contest_id,
                again,
            );
            if c.submission_limit < 0 || count >= c.submission_limit as usize {
                return Err(Error::of(Reason::ErrRateLimit));
            }
        }
        if post.user_id < 0 || post.user_id as usize >= self.users.len() {
            return Err(Error::of(Reason::ErrNotFound));
        }
        Ok((lang, prob))
    }
}

/// Whether a user other than the one of id `id` (any user, where `id` is
/// `None`) already has the name `name`.
pub open spec fn name_taken(users: Seq<User>, name: Seq<char>, id: Option<i32>) -> bool {
    exists|j: int| 0 <= j < users.len() && (#[trigger] users[j]).name@ == name && (id is None || users[j].id != id)
}

/// `id` is given and names no user of `users`.
pub open spec fn unknown_id(users: Seq<User>, id: Option<i32>) -> bool {
    match id {
        Some(i) => !user_exists(users, i),
        None => false,
    }
}

/// Every id in `ids` names a user of `users`.
pub open spec fn all_users_exist(users: Seq<User>, ids: Seq<i32>) -> bool {
    forall|k: int| 0 <= k < ids.len() ==> user_exists(users, #[trigger] ids[k])
}

/// Every id in `ids` names a problem of `config`.
pub open spec fn all_problems_exist(config: Config, ids: Seq<i32>) -> bool {
    forall|k: int| 0 <= k < ids.len() ==> problem_exists(config, #[trigger] ids[k])
}

/// `a` holds what `b` holds, item by item.
pub open spec fn same_jobs(a: Seq<Job>, b: Seq<Job>) -> bool {
    a.len() == b.len() && forall|i: int| 0 <= i < a.len() ==> (#[trigger] a[i]).copy_of(b[i])
}

/// `a` holds what `b` holds, item by item.
pub open spec fn same_contests(a: Seq<Contest>, b: Seq<Contest>) -> bool {
    a.len() == b.len() && forall|i: int| 0 <= i < a.len() ==> (#[trigger] a[i]).copy_of(b[i])
}

fn copy_jobs(v: &Vec<Job>) -> (r: Vec<Job>)
    ensures
        same_jobs(r@, v@),
{
    let mut out: Vec<Job> = Vec::new();
    let mut i: usize = 0;
    while i < v.len()
        invariant
            i <= v@.len(),
            out@.len() == i,
            forall|k: int| 0 <= k < i ==> (#[trigger] out@[k]).copy_of(v@[k]),
        decreases v@.len() - i,
    {
        out.push(v[i].clone());
        i = i + 1;
    }
    out
}

fn copy_contests(v: &Vec<Contest>) -> (r: Vec<Contest>)
    ensures
        same_contests(r@, v@),
{
    let mut out: Vec<Contest> = Vec::new();
    let mut i: usize = 0;
    while i < v.len()
        invariant
            i <= v@.len(),
            out@.len() == i,
            forall|k: int| 0 <= k < i ==> (#[trigger] out@[k]).copy_of(v@[k]),
        decreases v@.len() - i,
    {
        out.push(v[i].clone());
        i = i + 1;
    }
    out
}

fn copy_users(v: &Vec<User>) -> (r: Vec<User>)
    ensures
        r@ == v@,
{
    let mut out: Vec<User> = Vec::new();
    let mut i: usize = 0;
    while i < v.len()
        invariant
            i <= v@.len(),
            out@ == v@.subrange(0, i as int),
        decreases v@.len() - i,
    {
        out.push(v[i].clone());
        assert(v@.subrange(0, i + 1) =~= v@.subrange(0, i as int).push(v@[i as int]));
        i = i + 1;
    }
    assert(v@.subrange(0, v@.len() as int) =~= v@);
    out
}

impl Registry {
    /// A fresh registry: the user `root` of id 0, and the implicit contest 0
    /// that holds it, open at all times.
    pub fn flushed() -> (r: Registry)
        ensures
            r.wf(),
            r.jobs().len() == 0,
            r.users().len() == 1,
            r.users()[0].id == Some(0i32),
            r.users()[0].name@ == "root"@,
            r.contests().len() == 1,
            r.contests()[0].id == Some(0i32),
            r.contests()[0].user_ids@ == seq![0i32],
            r.contests()[0].problem_ids@.len() == 0,
            r.contests()[0].from == EARLIEST_TIME,
            r.contests()[0].to == LATEST_TIME,
    {
        let mut users: Vec<User> = Vec::new();
        users.push(User { id: Some(0), name: String::from_str("root") });
        let mut user_ids: Vec<i32> = Vec::new();
        user_ids.push(0);
        let mut contests: Vec<Contest> = Vec::new();
        contests.push(
            Contest {
                id: Some(0),
                name: String::new(),
                from: EARLIEST_TIME,
                to: LATEST_TIME,
                problem_ids: Vec::new(),
                user_ids,
                submission_limit: 0,
            },
        );
        assert(contests@[0].user_ids@ =~= seq![0i32]);
        Registry { jobs: Vec::new(), users, contests }
    }

    /// A registry of the three lists, as a snapshot holds them; refused with
    /// `ErrInternal` where they break the registry's rules.
    pub fn restore(jobs: Vec<Job>, users: Vec<User>, contests: Vec<Contest>) -> (r: Result<
        Registry,
        Error,
    >)
        ensures
            r is Ok <==> registry_ok(jobs@, users@, contests@),
            r matches Ok(reg) ==> reg.jobs() == jobs@ && reg.users() == users@ && reg.contests()
                == contests@,
            r matches Err(e) ==> e.reason == Reason::ErrInternal,
    {
        let mut i: usize = 0;
        while i < jobs.len()
            invariant
                i <= jobs@.len(),
                forall|k: int|
                    0 <= k < i ==> (#[trigger] jobs@[k]).id == k && jobs@[k].score <= MAX_JOB_SCORE,
            decreases jobs@.len() - i,
        {
            if i > i32::MAX as usize || jobs[i].id != i as i32 || jobs[i].score > MAX_JOB_SCORE {
                return Err(Error::of(Reason::ErrInternal));
            }
            i = i + 1;
        }
        let mut i: usize = 0;
        while i < users.len()
            invariant
                i <= users@.len(),
                users_ok(users@.subrange(0, i as int)),
            decreases users@.len() - i,
        {
            let ghost pre = users@.subrange(0, i as int);
            let ghost post = users@.subrange(0, i + 1);
            if i > i32::MAX as usize || users[i].id != Some(i as i32) {
                assert(!users_ok(users@)) by {
                    assert(!has_id(users@[i as int].id, i as int));
                }
                return Err(Error::of(Reason::ErrInternal));
            }
            let mut j: usize = 0;
            while j < i
                invariant
                    i < users@.len(),
                    j <= i,
                    forall|k: int| 0 <= k < j ==> (#[trigger] users@[k]).name@ != users@[i as int].name@,
                decreases i - j,
            {
                if users[j].name == users[i].name {
                    assert(!users_ok(users@)) by {
                        assert(users@[j as int].name@ == users@[i as int].name@);
                    }
                    return Err(Error::of(Reason::ErrInternal));
                }
                j = j + 1;
            }
            assert(users_ok(post)) by {
                assert forall|a: int, b: int|
                    0 <= a < post.len() && 0 <= b < post.len() && a != b implies (#[trigger] post[a]).name@
                    != (#[trigger] post[b]).name@ by {
                    if a < i && b < i {
                        assert(pre[a] == post[a] && pre[b] == post[b]);
                    }
                }
            }
            i = i + 1;
        }
        assert(users@.subrange(0, users@.len() as int) =~= users@);
        if contests.len() == 0 {
            return Err(Error::of(Reason::ErrInternal));
        }
        let mut i: usize = 0;
        while i < contests.len()
            invariant
                i <= contests@.len(),
                forall|k: int| 0 <= k < i ==> has_id((#[trigger] contests@[k]).id, k),
            decreases contests@.len() - i,
        {
            if i > i32::MAX as usize || contests[i].id != Some(i as i32) {
                assert(!has_id(contests@[i as int].id, i as int));
                return Err(Error::of(Reason::ErrInternal));
            }
            i = i + 1;
        }
        Ok(Registry { jobs, users, contests })
    }

    /// Copies of the three lists, for a snapshot.
    pub fn snapshot(&self) -> (r: (Vec<Job>, Vec<User>, Vec<Contest>))
        ensures
            same_jobs(r.0@, self.jobs()),
            r.1@ == self.users(),
            same_contests(r.2@, self.contests()),
    {
        (copy_jobs(&self.jobs), copy_users(&self.users), copy_contests(&self.contests))
    }

    pub fn job_list(&self) -> (r: &Vec<Job>)
        ensures
            r@ == self.jobs(),
    {
        &self.jobs
    }

    pub fn user_list(&self) -> (r: &Vec<User>)
        ensures
            r@ == self.users(),
    {
        &self.users
    }

    pub fn contest_list(&self) -> (r: &Vec<Contest>)
        ensures
            r@ == self.contests(),
    {
        &self.contests
    }
}

impl Registry {
    /// Admits a submission made at `now` as a new queued job, whose id is
    /// the number of jobs before it; or refuses it, as `submission_refusal`
    /// says, leaving the registry as it was.
    pub fn create_job(&mut self, post: &PostJob, config: &Config, now: i64) -> (r: Result<
        (Job, usize, usize),
        Error,
    >)
        requires
            old(self).wf(),
        ensures
            final(self).wf(),
            final(self).users() == old(self).users(),
            final(self).contests() == old(self).contests(),
            match r {
                Ok((job, l, p)) => {
                    &&& submission_refusal(
                        *post,
                        *config,
                        old(self).jobs(),
                        old(self).users(),
                        old(self).contests(),
                        now,
                        None,
                    ) is None
                    &&& job.id == old(self).jobs().len()
                    &&& job.submission == *post
                    &&& job.created_time == now
                    &&& job.updated_time == now
                    &&& job.state == crate::model::State::Queueing
                    &&& job.result == crate::model::MyResult::Waiting
                    &&& job.score == 0
                    &&& job.cases@.len() == 0
                    &&& final(self).jobs().len() == old(self).jobs().len() + 1
                    &&& final(self).jobs().drop_last() == old(self).jobs()
                    &&& final(self).jobs().last().copy_of(job)
                    &&& l < config.languages@.len()
                    &&& config.languages@[l as int].name@ == post.language@
                    &&& p < config.problems@.len()
                    &&& config.problems@[p as int].id == post.problem_id
                },
                Err(e) => {
                    &&& final(self).jobs() == old(self).jobs()
                    &&& e.code == crate::model::reason_code(e.reason)
                    &&& match submission_refusal(
                        *post,
                        *config,
                        old(self).jobs(),
                        old(self).users(),
                        old(self).contests(),
                        now,
                        None,
                    ) {
                        Some(reason) => e.reason == reason,
                        None => e.reason == Reason::ErrInternal && old(self).jobs().len()
                            > i32::MAX,
                    }
                },
            },
    {
        let (l, p) = match self.check_submission(post, config, now, None) {
            Ok(found) => found,
            Err(e) => return Err(e),
        };
        if self.jobs.len() > i32::MAX as usize {
            return Err(Error::of(Reason::ErrInternal));
        }
        let job = Job::created_at(self.jobs.len() as i32, post, now);
        let ghost before = self.jobs@;
        self.jobs.push(job.clone());
        assert(self.jobs@.drop_last() =~= before);
        Ok((job, l, p))
    }

    /// Admits a submission made now; see `create_job`.
    pub fn post_job(&mut self, post: &PostJob, config: &Config) -> (r: Result<
        (Job, usize, usize),
        Error,
    >)
        requires
            old(self).wf(),
        ensures
            final(self).wf(),
            final(self).users() == old(self).users(),
            final(self).contests() == old(self).contests(),
            r matches Ok((job, _, _)) ==> job.id == old(self).jobs().len() && job.submission
                == *post && final(self).jobs().drop_last() == old(self).jobs(),
            r is Err ==> final(self).jobs() == old(self).jobs(),
            r matches Err(e) ==> e.code == crate::model::reason_code(e.reason),
            r matches Ok((job, _, _)) ==> final(self).jobs().last().copy_of(job) && job.state
                == crate::model::State::Queueing && job.result == crate::model::MyResult::Waiting
                && job.score == 0 && job.cases@.len() == 0,
            !language_exists(*config, post.language@) || !problem_exists(*config, post.problem_id)
                ==> (r matches Err(e) && e.reason == Reason::ErrNotFound),
            exists|t: i64|
                #[trigger] admission(
                    *post,
                    *config,
                    old(self).jobs(),
                    old(self).users(),
                    old(self).contests(),
                    t,
                    r,
                    final(self).jobs(),
                ),
            post.contest_id == 0 ==> match submission_refusal(
                *post,
                *config,
                old(self).jobs(),
                old(self).users(),
                old(self).contests(),
                0,
                None,
            ) {
                Some(reason) => r matches Err(e) && e.reason == reason,
                None => if old(self).jobs().len() <= i32::MAX {
                    r matches Ok((job, l, p)) && job.id == old(self).jobs().len()
                        && job.submission == *post && job.state == crate::model::State::Queueing
                        && job.result == crate::model::MyResult::Waiting && job.score == 0
                        && job.cases@.len() == 0 && job.created_time == job.updated_time
                        && final(self).jobs().drop_last() == old(self).jobs()
                        && final(self).jobs().last().copy_of(job)
                        && config.languages@[l as int].name@ == post.language@
                        && config.problems@[p as int].id == post.problem_id
                        && l < config.languages@.len() && p < config.problems@.len()
                } else {
                    r matches Err(e) && e.reason == Reason::ErrInternal
                },
            },
    {
        let now = now_millis();
        let r = self.create_job(post, config, now);
        assert(admission(
            *post,
            *config,
            old(self).jobs(),
            old(self).users(),
            old(self).contests(),
            now,
            r,
            self.jobs(),
        ));
        proof {
            if post.contest_id == 0 {
                assert(submission_refusal(*post, *config, old(self).jobs(), old(self).users(),
                    old(self).contests(), now, None) == submission_refusal(*post, *config,
                    old(self).jobs(), old(self).users(), old(self).contests(), 0, None));
            }
        }
        r
    }

    /// Stores the outcome of a judging in place of the job of the same id;
    /// `ErrNotFound` where no job has that id, `ErrInternal` where its score
    /// is beyond the bound.
    pub fn commit(&mut self, job: Job) -> (r: Result<(), Error>)
        requires
            old(self).wf(),
        ensures
            final(self).wf(),
            final(self).users() == old(self).users(),
            final(self).contests() == old(self).contests(),
            r is Ok <==> (0 <= job.id < old(self).jobs().len() && job.score <= MAX_JOB_SCORE),
            r is Ok ==> final(self).jobs() == old(self).jobs().update(job.id as int, job),
            r is Err ==> final(self).jobs() == old(self).jobs(),
            r matches Err(e) ==> e.reason == if 0 <= job.id < old(self).jobs().len() {
                Reason::ErrInternal
            } else {
                Reason::ErrNotFound
            },
    {
        if job.id < 0 || job.id as usize >= self.jobs.len() {
            return Err(Error::of(Reason::ErrNotFound));
        }
        if job.score > MAX_JOB_SCORE {
            return Err(Error::of(Reason::ErrInternal));
        }
        let id = job.id as usize;
        self.jobs.set(id, job);
        Ok(())
    }

    /// The job of id `id`.
    pub fn find_job(&self, id: i32) -> (r: Option<Job>)
        requires
            self.wf(),
        ensures
            r is Some <==> 0 <= id < self.jobs().len(),
            r matches Some(j) ==> j.copy_of(self.jobs()[id as int]),
    {
        if id < 0 || id as usize >= self.jobs.len() {
            None
        } else {
            Some(self.jobs[id as usize].clone())
        }
    }

    /// Checks that the job of id `id` may be judged again, now, and gives
    /// it with the indices of its language and problem.
    pub fn rejudge(&self, id: i32, config: &Config) -> (r: Result<(Job, usize, usize), Error>)
        requires
            self.wf(),
        ensures
            !(0 <= id < self.jobs().len()) ==> (r matches Err(e) && e.reason == Reason::ErrNotFound),
            r matches Ok((j, l, p)) ==> 0 <= id < self.jobs().len() && j.copy_of(
                self.jobs()[id as int],
            ) && l < config.languages@.len() && p < config.problems@.len()
                && config.problems@[p as int].id == j.submission.problem_id
                && config.languages@[l as int].name@ == j.submission.language@,
            0 <= id < self.jobs().len() ==> match submission_refusal(
                self.jobs()[id as int].submission,
                *config,
                self.jobs(),
                self.users(),
                self.contests(),
                0,
                Some(id),
            ) {
                None => r is Ok,
                Some(reason) => r matches Err(e) && e.reason == reason && e.code
                    == crate::model::reason_code(reason),
            },
            r matches Err(e) ==> e.code == crate::model::reason_code(e.reason),
    {
        match self.find_job(id) {
            None => Err(Error::of(Reason::ErrNotFound)),
            Some(job) => {
                let now = now_millis();
                assert(submission_refusal(job.submission, *config, self.jobs(), self.users(),
                    self.contests(), now, Some(id)) == submission_refusal(job.submission, *config,
                    self.jobs(), self.users(), self.contests(), 0, Some(id)));
                match self.check_submission(&job.submission, config, now, Some(id)) {
                    Ok((l, p)) => Ok((job, l, p)),
                    Err(e) => Err(e),
                }
            },
        }
    }

    /// The contest of id `id`.
    pub fn find_contest(&self, id: i32) -> (r: Option<Contest>)
        requires
            self.wf(),
        ensures
            r is Some <==> 0 <= id < self.contests().len(),
            r matches Some(c) ==> c.copy_of(self.contests()[id as int]),
    {
        if id < 0 || id as usize >= self.contests.len() {
            None
        } else {
            Some(self.contests[id as usize].clone())
        }
    }

    /// Every contest but the implicit contest 0, in order of id.
    pub fn listed_contests(&self) -> (r: Vec<Contest>)
        requires
            self.wf(),
        ensures
            same_contests(r@, self.contests().drop_first()),
    {
        let mut out: Vec<Contest> = Vec::new();
        let mut i: usize = 1;
        while i < self.contests.len()
            invariant
                1 <= i <= self.contests@.len(),
                out@.len() == i - 1,
                forall|k: int| 0 <= k < i - 1 ==> (#[trigger] out@[k]).copy_of(self.contests@[k + 1]),
            decreases self.contests@.len() - i,
        {
            out.push(self.contests[i].clone());
            i = i + 1;
        }
        out
    }

    /// Adds a user or renames one. A name that another user holds is
    /// refused with `ErrInvalidArgument`. Without an id the user is added
    /// under the next id, and joins the implicit contest 0; with the id of
    /// a user, that user takes the name; with another id the request fails
    /// with `ErrNotFound`.
    pub fn post_user(&mut self, user: User) -> (r: Result<User, Error>)
        requires
            old(self).wf(),
        ensures
            final(self).wf(),
            final(self).jobs() == old(self).jobs(),
            r matches Err(e) ==> e.code == crate::model::reason_code(e.reason) && final(self).users()
                == old(self).users() && final(self).contests() == old(self).contests(),
            unknown_id(old(self).users(), user.id) ==> (r matches Err(e) && e.reason
                == Reason::ErrNotFound),
            !unknown_id(old(self).users(), user.id) && name_taken(old(self).users(), user.name@, user.id)
                ==> (r matches Err(e) && e.reason == Reason::ErrInvalidArgument),
            !name_taken(old(self).users(), user.name@, user.id) ==> match user.id {
                None => (old(self).users().len() < i32::MAX ==> (r matches Ok(u) && {
                    &&& u.id == Some(old(self).users().len() as i32)
                    &&& u.name == user.name
                    &&& final(self).users() == old(self).users().push(u)
                    &&& final(self).contests()[0].user_ids@ == old(self).contests()[0].user_ids@.push(
                        old(self).users().len() as i32,
                    )
                    &&& final(self).contests().len() == old(self).contests().len()
                    &&& forall|i: int|
                        1 <= i < old(self).contests().len() ==> #[trigger] final(self).contests()[i]
                            == old(self).contests()[i]
                })) && (old(self).users().len() >= i32::MAX ==> (r matches Err(e) && e.reason
                    == Reason::ErrInternal)),
                Some(id) => if 0 <= id < old(self).users().len() {
                    r matches Ok(u) && u == user && final(self).users() == old(self).users().update(
                        id as int,
                        user,
                    ) && final(self).contests() == old(self).contests()
                } else {
                    r matches Err(e) && e.reason == Reason::ErrNotFound
                },
            },
    {
        if let Some(id) = user.id {
            if id < 0 || id as usize >= self.users.len() {
                return Err(Error::of(Reason::ErrNotFound));
            }
        }
        let mut j: usize = 0;
        while j < self.users.len()
            invariant
                self.wf(),
                self == old(self),
                !unknown_id(self.users@, user.id),
                j <= self.users@.len(),
                forall|k: int|
                    0 <= k < j ==> !((#[trigger] self.users@[k]).name@ == user.name@ && (user.id is None
                        || self.users@[k].id != user.id)),
            decreases self.users@.len() - j,
        {
            if self.users[j].name == user.name && (user.id.is_none() || self.users[j].id != user.id) {
                return Err(Error::of(Reason::ErrInvalidArgument));
            }
            j = j + 1;
        }
        let ghost before = self.users@;
        match user.id {
            None => {
                if self.users.len() >= i32::MAX as usize {
                    return Err(Error::of(Reason::ErrInternal));
                }
                let id = self.users.len() as i32;
                let added = User { id: Some(id), name: user.name };
                self.users.push(added.clone());
                let ghost old_contests = self.contests@;
                let mut first = self.contests.remove(0);
                first.user_ids.push(id);
                self.contests.insert(0, first);
                assert(self.contests@ =~= old_contests.update(0, self.contests@[0]));
                proof {
                    assert forall|a: int, b: int|
                        0 <= a < self.users@.len() && 0 <= b < self.users@.len() && a != b implies (
                        #[trigger] self.users@[a]).name@ != (#[trigger] self.users@[b]).name@ by {
                        if a < before.len() && b < before.len() {
                            assert(before[a] == self.users@[a] && before[b] == self.users@[b]);
                        } else if a < before.len() {
                            assert(!(before[a].name@ == user.name@ && true));
                        } else {
                            assert(!(before[b].name@ == user.name@ && true));
                        }
                    }
                }
                Ok(added)
            },
            Some(id) => {
                let kept = user.clone();
                self.users.set(id as usize, user);
                proof {
                    assert forall|a: int, b: int|
                        0 <= a < self.users@.len() && 0 <= b < self.users@.len() && a != b implies (
                        #[trigger] self.users@[a]).name@ != (#[trigger] self.users@[b]).name@ by {
                        if a != id && b != id {
                            assert(before[a] == self.users@[a] && before[b] == self.users@[b]);
                        } else if a == id {
                            assert(before[b].id != Some(id));
                        } else {
                            assert(before[a].id != Some(id));
                        }
                    }
                }
                Ok(kept)
            },
        }
    }

    /// Adds a contest or replaces one. Every user and every problem that it
    /// names must exist, else `ErrNotFound`. Without an id the contest is
    /// added under the next id; with the id of a contest it replaces that
    /// contest; with another id the request fails with `ErrNotFound`.
    pub fn post_contest(&mut self, contest: Contest, config: &Config) -> (r: Result<Contest, Error>)
        requires
            old(self).wf(),
        ensures
            final(self).wf(),
            final(self).jobs() == old(self).jobs(),
            final(self).users() == old(self).users(),
            r matches Err(e) ==> e.code == crate::model::reason_code(e.reason),
            !all_users_exist(old(self).users(), contest.user_ids@) || !all_problems_exist(
                *config,
                contest.problem_ids@,
            ) ==> (r matches Err(e) && e.reason == Reason::ErrNotFound && final(self).contests()
                == old(self).contests()),
            all_users_exist(old(self).users(), contest.user_ids@) && all_problems_exist(
                *config,
                contest.problem_ids@,
            ) ==> match contest.id {
                None => (old(self).contests().len() < i32::MAX ==> (r matches Ok(c) && {
                    &&& c.id == Some(old(self).contests().len() as i32)
                    &&& c.name == contest.name
                    &&& c.from == contest.from
                    &&& c.to == contest.to
                    &&& c.problem_ids@ == contest.problem_ids@
                    &&& c.user_ids@ == contest.user_ids@
                    &&& c.submission_limit == contest.submission_limit
                    &&& final(self).contests().drop_last() == old(self).contests()
                    &&& final(self).contests().last().copy_of(c)
                })) && (old(self).contests().len() >= i32::MAX ==> (r matches Err(e) && e.reason
                    == Reason::ErrInternal)),
                Some(id) => if 0 <= id < old(self).contests().len() {
                    r matches Ok(c) && c.copy_of(contest) && final(self).contests().len()
                        == old(self).contests().len() && final(self).contests()[id as int].copy_of(
                        contest,
                    ) && forall|i: int|
                        0 <= i < old(self).contests().len() && i != id
                            ==> #[trigger] final(self).contests()[i] == old(self).contests()[i]
                } else {
                    r matches Err(e) && e.reason == Reason::ErrNotFound && final(self).contests()
                        == old(self).contests()
                },
            },
    {
        let mut k: usize = 0;
        while k < contest.user_ids.len()
            invariant
                self.wf(),
                self == old(self),
                k <= contest.user_ids@.len(),
                forall|j: int| 0 <= j < k ==> user_exists(self.users@, #[trigger] contest.user_ids@[j]),
            decreases contest.user_ids@.len() - k,
        {
            let u = contest.user_ids[k];
            if u < 0 || u as usize >= self.users.len() {
                return Err(Error::of(Reason::ErrNotFound));
            }
            k = k + 1;
        }
        let mut k: usize = 0;
        while k < contest.problem_ids.len()
            invariant
                self.wf(),
                self == old(self),
                forall|j: int|
                    0 <= j < contest.user_ids@.len() ==> user_exists(
                        self.users@,
                        #[trigger] contest.user_ids@[j],
                    ),
                k <= contest.problem_ids@.len(),
                forall|j: int| 0 <= j < k ==> problem_exists(*config, #[trigger] contest.problem_ids@[j]),
            decreases contest.problem_ids@.len() - k,
        {
            if find_problem(config, contest.problem_ids[k]).is_none() {
                return Err(Error::of(Reason::ErrNotFound));
            }
            k = k + 1;
        }
        match contest.id {
            None => {
                if self.contests.len() >= i32::MAX as usize {
                    return Err(Error::of(Reason::ErrInternal));
                }
                let mut added = contest;
                added.id = Some(self.contests.len() as i32);
                let ghost before = self.contests@;
                self.contests.push(added.clone());
                assert(self.contests@.drop_last() =~= before);
                Ok(added)
            },
            Some(id) => {
                if id < 0 || id as usize >= self.contests.len() {
                    return Err(Error::of(Reason::ErrNotFound));
                }
                let kept = contest.clone();
                self.contests.set(id as usize, contest);
                Ok(kept)
            },
        }
    }
}

/// Job ids are 0, 1, 2, ... in the order the jobs were admitted: the job at
/// place `i` has id `i`, and `create_job` gives a new job the next id.
pub proof fn lemma_job_ids_dense(r: &Registry)
    requires
        r.wf(),
    ensures
        forall|i: int| 0 <= i < r.jobs().len() ==> (#[trigger] r.jobs()[i]).id == i,
{
}

/// No two users of a registry share a name.
pub proof fn lemma_user_names_unique(r: &Registry)
    requires
        r.wf(),
    ensures
        forall|i: int, j: int|
            0 <= i < r.users().len() && 0 <= j < r.users().len() && i != j ==> (
            #[trigger] r.users()[i]).name@ != (#[trigger] r.users()[j]).name@,
{
}

/// A snapshot of a registry restores: lists that hold what the registry
/// holds, item by item, as `snapshot` gives them, meet the rules that
/// `restore` checks, and `restore` then gives a registry of those lists.
pub proof fn lemma_snapshot_restores(
    r: &Registry,
    jobs: Seq<Job>,
    users: Seq<User>,
    contests: Seq<Contest>,
)
    requires
        r.wf(),
        same_jobs(jobs, r.jobs()),
        users == r.users(),
        same_contests(contests, r.contests()),
    ensures
        registry_ok(jobs, users, contests),
{
    assert forall|i: int| 0 <= i < jobs.len() implies (#[trigger] jobs[i]).id == i && jobs[i].score
        <= MAX_JOB_SCORE by {
        assert(jobs[i].copy_of(r.jobs()[i]));
        assert(r.jobs()[i].id == i);
    }
    assert forall|i: int| 0 <= i < contests.len() implies has_id((#[trigger] contests[i]).id, i) by {
        assert(contests[i].copy_of(r.contests()[i]));
        assert(has_id(r.contests()[i].id, i));
    }
}

} // verus!
