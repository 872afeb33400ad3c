//! The data model shared by the judge, the registries and the rank list.
use vstd::prelude::*;
use crate::clock::now_millis;

verus! {

/// Largest score of one case, in thousandths of a point.
pub const MAX_CASE_SCORE: u64 = 1_000_000;

/// Largest number of cases in a problem, and of entries over all its packs.
pub const MAX_CASES: usize = 1_000_000_000;

/// A ratio of one whole, in thousandths.
pub const RATIO_ONE: u64 = 1000;

/// The full score of a problem, in thousandths of a point.
pub const FULL_SCORE: u64 = 100_000;

/// Command-line options of the server.
#[derive(Clone, Debug)]
pub struct Args {
    pub config: String,
    pub flush_data: bool,
}

/// Where the server listens.
#[derive(Clone, Debug)]
pub struct Server {
    pub bind_address: String,
    pub bind_port: i32,
}

/// The address used when the configuration names none.
pub fn address_default() -> (r: String)
    ensures
        r@ == "127.0.0.1"@,
{
    String::from_str("127.0.0.1")
}

/// The port used when the configuration names none.
pub fn port_default() -> (r: i32)
    ensures
        r == 12345,
{
    12345
}

/// One test case of a problem.
#[derive(Clone, Debug)]
pub struct Case {
    /// Thousandths of a point.
    pub score: u64,
    pub input_file: String,
    pub answer_file: String,
    /// Microseconds.
    pub time_limit: u64,
    pub memory_limit: u64,
}

/// How a program's output is held against the answer.
#[derive(Clone, Copy, Debug, PartialEq, Eq, Structural)]
pub enum ProblemType {
    Standard,
    Strict,
    Spj,
    DynamicRanking,
}

/// Optional settings of a problem.
#[derive(Clone, Debug)]
pub struct Misc {
    /// Packs of 1-based case indices.
    pub packing: Option<Vec<Vec<usize>>>,
    /// The special judge's command, with `%OUTPUT%` and `%ANSWER%` in it.
    pub special_judge: Option<Vec<String>>,
    /// Thousandths of the case score set aside for the dynamic-ranking bonus.
    pub dynamic_ranking_ratio: Option<u64>,
}

#[derive(Clone, Debug)]
pub struct Problem {
    pub id: i32,
    pub name: String,
    pub ty: ProblemType,
    pub misc: Misc,
    pub cases: Vec<Case>,
}

/// A language and the command that compiles a source file of it.
#[derive(Clone, Debug)]
pub struct Language {
    pub name: String,
    pub file_name: String,
    pub command: Vec<String>,
}

#[derive(Clone, Debug)]
pub struct Config {
    pub server: Server,
    pub problems: Vec<Problem>,
    pub languages: Vec<Language>,
}

/// A submission.
#[derive(Debug)]
pub struct PostJob {
    pub source_code: String,
    pub language: String,
    pub user_id: i32,
    pub contest_id: i32,
    pub problem_id: i32,
}

impl Clone for PostJob {
    fn clone(&self) -> (r: Self)
        ensures
            r == *self,
    {
        PostJob {
            source_code: self.source_code.clone(),
            language: self.language.clone(),
            user_id: self.user_id,
            contest_id: self.contest_id,
            problem_id: self.problem_id,
        }
    }
}

/// The filter of a job listing; an absent field imposes nothing.
#[derive(Clone, Debug)]
pub struct GetJob {
    pub user_id: Option<i32>,
    pub user_name: Option<String>,
    pub contest_id: Option<i32>,
    pub problem_id: Option<i32>,
    pub language: Option<String>,
    /// Milliseconds since the Unix epoch, exclusive.
    pub from: Option<i64>,
    /// Milliseconds since the Unix epoch, exclusive.
    pub to: Option<i64>,
    pub state: Option<State>,
    pub result: Option<MyResult>,
}

/// The outcome of one case; index 0 stands for compilation.
#[derive(Debug)]
pub struct CaseResult {
    pub id: i32,
    pub result: MyResult,
    /// Microseconds.
    pub time: u64,
    pub memory: u64,
    pub info: String,
}

impl Clone for CaseResult {
    fn clone(&self) -> (r: Self)
        ensures
            r == *self,
    {
        CaseResult {
            id: self.id,
            result: self.result,
            time: self.time,
            memory: self.memory,
            info: self.info.clone(),
        }
    }
}

impl CaseResult {
    /// A case that has not been judged yet.
    pub fn new(id: i32) -> (r: CaseResult)
        ensures
            r.id == id,
            r.result == MyResult::Waiting,
            r.time == 0,
            r.memory == 0,
            r.info@.len() == 0,
    {
        CaseResult { id, result: MyResult::Waiting, time: 0, memory: 0, info: String::new() }
    }
}

#[derive(Clone, Copy, Debug, PartialEq, Eq, Structural)]
pub enum State {
    Queueing,
    Running,
    Finished,
    Canceled,
}

/// A judged (or to be judged) submission.
#[derive(Debug)]
pub struct Job {
    pub id: i32,
    /// Milliseconds since the Unix epoch.
    pub created_time: i64,
    /// Milliseconds since the Unix epoch.
    pub updated_time: i64,
    pub submission: PostJob,
    pub state: State,
    pub result: MyResult,
    /// Millionths of a point.
    pub score: u64,
    pub cases: Vec<CaseResult>,
}

impl Job {
    /// `self` holds what `o` holds, field by field.
    pub open spec fn copy_of(self, o: Job) -> bool {
        &&& self.id == o.id
        &&& self.created_time == o.created_time
        &&& self.updated_time == o.updated_time
        &&& self.submission == o.submission
        &&& self.state == o.state
        &&& self.result == o.result
        &&& self.score == o.score
        &&& self.cases@ == o.cases@
    }
}

impl Job {
    /// `self` holds what `o` holds but for its state and its update time.
    pub open spec fn keeps(self, o: Job) -> bool {
        &&& self.id == o.id
        &&& self.created_time == o.created_time
        &&& self.submission == o.submission
        &&& self.result == o.result
        &&& self.score == o.score
        &&& self.cases@ == o.cases@
    }

    /// A queued job for a submission, created now.
    pub fn new(id: i32, post: &PostJob) -> (r: Job)
        ensures
            r.id == id,
            r.submission == *post,
            r.created_time == r.updated_time,
            r.state == State::Queueing,
            r.result == MyResult::Waiting,
            r.score == 0,
            r.cases@.len() == 0,
    {
        Job::created_at(id, post, now_millis())
    }

    /// A queued job for a submission, created at `now`.
    pub fn created_at(id: i32, post: &PostJob, now: i64) -> (r: Job)
        ensures
            r.id == id,
            r.submission == *post,
            r.created_time == now,
            r.updated_time == now,
            r.state == State::Queueing,
            r.result == MyResult::Waiting,
            r.score == 0,
            r.cases@.len() == 0,
    {
        Job {
            id,
            created_time: now,
            updated_time: now,
            submission: post.clone(),
            state: State::Queueing,
            result: MyResult::Waiting,
            score: 0,
            cases: Vec::new(),
        }
    }

    /// Moves the update time forward to `now`, never back.
    pub fn touch(&mut self, now: i64)
        ensures
            final(self).keeps(*old(self)),
            final(self).state == old(self).state,
            final(self).updated_time == if now > old(self).updated_time {
                now
            } else {
                old(self).updated_time
            },
    {
        if now > self.updated_time {
            self.updated_time = now;
        }
    }

    /// Marks the job running and refreshes its update time.
    pub fn update(&mut self)
        ensures
            final(self).keeps(*old(self)),
            final(self).state == State::Running,
            final(self).updated_time >= old(self).updated_time,
    {
        self.touch(now_millis());
        self.state = State::Running;
    }

    /// Marks the job finished and refreshes its update time.
    pub fn final_result(&mut self)
        ensures
            final(self).keeps(*old(self)),
            final(self).state == State::Finished,
            final(self).updated_time >= old(self).updated_time,
    {
        self.touch(now_millis());
        self.state = State::Finished;
    }
}

impl Clone for Job {
    fn clone(&self) -> (r: Self)
        ensures
            r.copy_of(*self),
    {
        let cases = self.cases.clone();
        assert(cases@ =~= self.cases@);
        Job {
            id: self.id,
            created_time: self.created_time,
            updated_time: self.updated_time,
            submission: self.submission.clone(),
            state: self.state,
            result: self.result,
            score: self.score,
            cases,
        }
    }
}

/// The verdict on a case or a job.
#[derive(Clone, Copy, Debug, PartialEq, Eq, Structural)]
pub enum MyResult {
    Waiting,
    Running,
    Accepted,
    CompilationError,
    CompilationSuccess,
    WrongAnswer,
    RuntimeError,
    TimeLimitExceeded,
    MemoryLimitExceeded,
    SystemError,
    SPJError,
    Skipped,
}

#[derive(Clone, Copy, Debug, PartialEq, Eq, Structural)]
pub enum Reason {
    ErrInvalidArgument,
    ErrNotFound,
    ErrRateLimit,
    ErrExternal,
    ErrInternal,
}

/// The numeric code that goes with a reason.
pub open spec fn reason_code(r: Reason) -> i32 {
    match r {
        Reason::ErrInvalidArgument => 1,
        Reason::ErrNotFound => 3,
        Reason::ErrRateLimit => 4,
        Reason::ErrExternal => 5,
        Reason::ErrInternal => 6,
    }
}

/// Why a request failed.
#[derive(Debug)]
pub struct Error {
    pub reason: Reason,
    pub code: i32,
    pub message: String,
}

impl Error {
    /// An error of the given reason, with its code and an empty message.
    pub fn of(reason: Reason) -> (r: Error)
        ensures
            r.reason == reason,
            r.code == reason_code(reason),
            r.message@.len() == 0,
    {
        let code: i32 = match reason {
            Reason::ErrInvalidArgument => 1,
            Reason::ErrNotFound => 3,
            Reason::ErrRateLimit => 4,
            Reason::ErrExternal => 5,
            Reason::ErrInternal => 6,
        };
        Error { reason, code, message: String::new() }
    }

    /// The HTTP status that answers a request failing for this reason.
    pub fn status(&self) -> (r: u16)
        ensures
            r == match self.reason {
                Reason::ErrInvalidArgument | Reason::ErrRateLimit => 400u16,
                Reason::ErrNotFound => 404u16,
                Reason::ErrExternal | Reason::ErrInternal => 500u16,
            },
    {
        match self.reason {
            Reason::ErrInvalidArgument => 400,
            Reason::ErrNotFound => 404,
            Reason::ErrRateLimit => 400,
            Reason::ErrExternal => 500,
            Reason::ErrInternal => 500,
        }
    }
}

#[derive(Debug)]
pub struct User {
    pub id: Option<i32>,
    pub name: String,
}

impl Clone for User {
    fn clone(&self) -> (r: Self)
        ensures
            r == *self,
    {
        User { id: self.id, name: self.name.clone() }
    }
}

#[derive(Clone, Copy, Debug, PartialEq, Eq, Structural)]
pub enum ScoringRule {
    Latest,
    Highest,
}

#[derive(Clone, Copy, Debug, PartialEq, Eq, Structural)]
pub enum TieBreaker {
    SubmissionTime,
    SubmissionCount,
    UserId,
    NoTieBreak,
}

/// How a rank list scores and orders its users.
#[derive(Clone, Copy, Debug, PartialEq, Eq, Structural)]
pub struct RankRule {
    pub scoring_rule: ScoringRule,
    pub tie_breaker: TieBreaker,
}

pub fn scoring_rule_default() -> (r: ScoringRule)
    ensures
        r == ScoringRule::Latest,
{
    ScoringRule::Latest
}

pub fn tie_breaker_default() -> (r: TieBreaker)
    ensures
        r == TieBreaker::NoTieBreak,
{
    TieBreaker::NoTieBreak
}

/// One row of a rank list.
#[derive(Clone, Debug)]
pub struct UserRank {
    pub user: User,
    pub rank: i32,
    /// Per problem of the contest, in millionths of a point.
    pub scores: Vec<u64>,
}

#[derive(Debug)]
pub struct Contest {
    pub id: Option<i32>,
    pub name: String,
    /// Milliseconds since the Unix epoch.
    pub from: i64,
    /// Milliseconds since the Unix epoch.
    pub to: i64,
    pub problem_ids: Vec<i32>,
    pub user_ids: Vec<i32>,
    pub submission_limit: i32,
}

impl Contest {
    /// `self` holds what `o` holds, field by field.
    pub open spec fn copy_of(self, o: Contest) -> bool {
        &&& self.id == o.id
        &&& self.name == o.name
        &&& self.from == o.from
        &&& self.to == o.to
        &&& self.problem_ids@ == o.problem_ids@
        &&& self.user_ids@ == o.user_ids@
        &&& self.submission_limit == o.submission_limit
    }
}

impl Clone for Contest {
    fn clone(&self) -> (r: Self)
        ensures
            r.copy_of(*self),
    {
        let problem_ids = self.problem_ids.clone();
        let user_ids = self.user_ids.clone();
        assert(problem_ids@ =~= self.problem_ids@);
        assert(user_ids@ =~= self.user_ids@);
        Contest {
            id: self.id,
            name: self.name.clone(),
            from: self.from,
            to: self.to,
            problem_ids,
            user_ids,
            submission_limit: self.submission_limit,
        }
    }
}

} // verus!
